//! What formulas come to where nothing is rounded.
//!
//! A pattern stands for a real number. A formula is exact for an implementation if each of its
//! operations gives the real result; its value then is the real number that the formula stands for.
//! Sines, cosines and the like have no such number here: they are taken as they were given.

use vstd::arithmetic::power2::{lemma_pow2_adds, lemma_pow2_pos, pow2};
use vstd::prelude::*;
use crate::double::{weight, Double, FRACTION_SPAN};
use crate::formula::{
    binary_gives, gives, law_formula_has_one_value, over, sqrt_of, steady, unary_gives, Arithmetic,
    BinaryOp, Expr, UnaryOp, FOUR, HALF, ONE, QUARTER, THREE, TWENTY_FOUR, TWO,
};
use crate::scaling::unit;

verus! {

/// The real number that a pattern stands for.
pub open spec fn real_of(d: Double) -> real {
    (d.value() as real) / (unit() as real)
}

/// Whether the result of an operation is the real one.
pub open spec fn exact_unary(op: UnaryOp, a: Double, r: Double) -> bool {
    match op {
        UnaryOp::SquareRoot => 0real <= real_of(r) && real_of(r) * real_of(r) == real_of(a),
        _ => true,
    }
}

/// Whether the result of an operation is the real one.
pub open spec fn exact_binary(op: BinaryOp, a: Double, b: Double, r: Double) -> bool {
    match op {
        BinaryOp::Sum => real_of(r) == real_of(a) + real_of(b),
        BinaryOp::Difference => real_of(r) == real_of(a) - real_of(b),
        BinaryOp::Product => real_of(r) == real_of(a) * real_of(b),
        BinaryOp::Quotient => real_of(b) != 0real && real_of(r) * real_of(b) == real_of(a),
        BinaryOp::Remainder => true,
    }
}

/// Whether no operation of a formula rounds.
pub open spec fn exact<K: Arithmetic>(k: &K, e: Expr) -> bool
    decreases e,
{
    match e {
        Expr::Num(x) => x.finite(),
        Expr::Signed(n) => forall|v: Double| #[trigger]
            gives(k, e, v) ==> v.finite() && real_of(v) == (n as int) as real,
        Expr::Unsigned(n) => forall|v: Double| #[trigger]
            gives(k, e, v) ==> v.finite() && real_of(v) == (n as int) as real,
        Expr::Unary(op, a) => {
            &&& exact(k, *a)
            &&& forall|p: Double, v: Double|
                gives(k, *a, p) && #[trigger] unary_gives(k, op, p, v) ==> v.finite()
                    && exact_unary(op, p, v)
        },
        Expr::Binary(op, a, b) => {
            &&& exact(k, *a)
            &&& exact(k, *b)
            &&& forall|p: Double, q: Double, v: Double|
                gives(k, *a, p) && gives(k, *b, q) && #[trigger] binary_gives(k, op, p, q, v)
                    ==> v.finite() && exact_binary(op, p, q, v)
        },
    }
}

/// The real number that a formula stands for.
pub open spec fn worth<K: Arithmetic>(k: &K, e: Expr) -> real
    decreases e,
{
    match e {
        Expr::Num(x) => real_of(x),
        Expr::Signed(n) => (n as int) as real,
        Expr::Unsigned(n) => (n as int) as real,
        Expr::Unary(op, a) => match op {
            UnaryOp::Negation => -worth(k, *a),
            _ => real_of(given(k, e)),
        },
        Expr::Binary(op, a, b) => match op {
            BinaryOp::Sum => worth(k, *a) + worth(k, *b),
            BinaryOp::Difference => worth(k, *a) - worth(k, *b),
            BinaryOp::Product => worth(k, *a) * worth(k, *b),
            BinaryOp::Quotient => worth(k, *a) / worth(k, *b),
            BinaryOp::Remainder => real_of(given(k, e)),
        },
    }
}

/// A value that an implementation gave for a formula.
pub open spec fn given<K: Arithmetic>(k: &K, e: Expr) -> Double {
    choose|v: Double| gives(k, e, v)
}

pub(crate) proof fn lemma_unit()
    ensures
        unit() > 0,
        unit() as real > 0real,
{
    lemma_pow2_pos(1074);
}

/// The sign of a number, and whether it is zero, are those of its value.
pub(crate) proof fn lemma_sign(a: Double)
    ensures
        a.value() > 0 <==> real_of(a) > 0real,
        a.value() < 0 <==> real_of(a) < 0real,
        a.value() == 0 <==> real_of(a) == 0real,
{
    lemma_unit();
    let v = a.value() as real;
    let u = unit() as real;
    let r = real_of(a);
    assert(r * u == v) by (nonlinear_arith)
        requires
            r == v / u,
            u > 0real,
    ;
    assert((v > 0real <==> r > 0real) && (v < 0real <==> r < 0real)) by (nonlinear_arith)
        requires
            r * u == v,
            u > 0real,
    ;
}

/// Numbers are ordered as their patterns are.
pub(crate) proof fn lemma_order(a: Double, b: Double)
    ensures
        a.value() < b.value() <==> real_of(a) < real_of(b),
        a.value() == b.value() <==> real_of(a) == real_of(b),
{
    lemma_unit();
    let v = a.value() as real;
    let w = b.value() as real;
    let u = unit() as real;
    let r = real_of(a);
    let s = real_of(b);
    assert(r * u == v && s * u == w) by (nonlinear_arith)
        requires
            r == v / u,
            s == w / u,
            u > 0real,
    ;
    assert((v < w <==> r < s) && (v == w <==> r == s)) by (nonlinear_arith)
        requires
            r * u == v,
            s * u == w,
            u > 0real,
    ;
}

pub(crate) proof fn lemma_negated(a: Double)
    ensures
        real_of(a.negated()) == -real_of(a),
        real_of(a.absolute()) == if real_of(a) < 0real {
            -real_of(a)
        } else {
            real_of(a)
        },
{
    lemma_unit();
    lemma_sign(a);
    let v = a.value() as real;
    let u = unit() as real;
    assert(a.negated().value() == -a.value());
    assert(a.absolute().value() == if a.value() < 0 {
        -a.value()
    } else {
        a.value()
    }) by {
        assert(a.absolute().magnitude() == a.magnitude());
        lemma_weight_from_zero(a.magnitude());
    }
    assert((-v) / u == -(v / u)) by (nonlinear_arith)
        requires
            u > 0real,
    ;
}

proof fn lemma_weight_from_zero(magnitude: int)
    requires
        magnitude >= 0,
    ensures
        weight(magnitude) >= 0,
{
    let exponent = magnitude / (FRACTION_SPAN as int);
    let fraction = magnitude % (FRACTION_SPAN as int);
    if exponent != 0 {
        lemma_pow2_pos((exponent - 1) as nat);
        let p = pow2((exponent - 1) as nat) as int;
        assert((FRACTION_SPAN + fraction) * p >= 0) by (nonlinear_arith)
            requires
                p > 0,
                FRACTION_SPAN + fraction >= 0,
        ;
    }
}

/// Where nothing is rounded, the value of a formula is the number that it stands for.
pub proof fn law_exact_value<K: Arithmetic>(k: &K, e: Expr, v: Double)
    requires
        steady(k),
        exact(k, e),
        gives(k, e, v),
    ensures
        v.finite(),
        real_of(v) == worth(k, e),
    decreases e,
{
    reveal_with_fuel(gives, 2);
    assert(given(k, e) == v) by {
        law_formula_has_one_value(k, e, given(k, e), v);
    }
    match e {
        Expr::Unary(op, a) => {
            let p = choose|p: Double| gives(k, *a, p) && #[trigger] unary_gives(k, op, p, v);
            law_exact_value(k, *a, p);
            lemma_negated(p);
        },
        Expr::Binary(op, a, b) => {
            let (p, q): (Double, Double) = choose|p: Double, q: Double|
                gives(k, *a, p) && gives(k, *b, q) && #[trigger] binary_gives(k, op, p, q, v);
            law_exact_value(k, *a, p);
            law_exact_value(k, *b, q);
            if op is Quotient {
                let x = real_of(p);
                let y = real_of(q);
                let z = real_of(v);
                assert(z == x / y) by (nonlinear_arith)
                    requires
                        y != 0real,
                        z * y == x,
                ;
            }
        },
        _ => {},
    }
}

/// Where nothing is rounded, a divisor is not zero.
pub(crate) proof fn lemma_divisor<K: Arithmetic>(k: &K, a: Expr, b: Expr, v: Double)
    requires
        steady(k),
        exact(k, over(a, b)),
        gives(k, over(a, b), v),
    ensures
        worth(k, b) != 0real,
        real_of(v) * worth(k, b) == worth(k, a),
{
    reveal_with_fuel(gives, 2);
    let (p, q): (Double, Double) = choose|p: Double, q: Double|
        gives(k, a, p) && gives(k, b, q) && #[trigger] binary_gives(
            k,
            BinaryOp::Quotient,
            p,
            q,
            v,
        );
    law_exact_value(k, a, p);
    law_exact_value(k, b, q);
}

/// Where nothing is rounded, a root has the number under it as its square.
pub(crate) proof fn lemma_root<K: Arithmetic>(k: &K, a: Expr, v: Double)
    requires
        steady(k),
        exact(k, sqrt_of(a)),
        gives(k, sqrt_of(a), v),
    ensures
        0real <= real_of(v),
        real_of(v) * real_of(v) == worth(k, a),
{
    reveal_with_fuel(gives, 2);
    let p = choose|p: Double|
        gives(k, a, p) && #[trigger] unary_gives(k, UnaryOp::SquareRoot, p, v);
    law_exact_value(k, a, p);
}

pub(crate) proof fn lemma_real_product(a: int, b: int)
    ensures
        (a * b) as real == (a as real) * (b as real),
{
    assert((a * b) as real == (a as real) * (b as real)) by (nonlinear_arith);
}

proof fn lemma_power_over_unit(i: nat, c: int, shift: nat)
    requires
        i + shift == 1074,
        c > 0,
    ensures
        ((c * pow2(i)) as real) / (unit() as real) * (pow2(shift) as real) == c as real,
{
    lemma_pow2_adds(i, shift);
    lemma_unit();
    let p = pow2(i) as int;
    let q = pow2(shift) as int;
    assert((c * p) * q == c * (p * q)) by (nonlinear_arith);
    let x = (c * p) as real;
    let u = unit() as real;
    let s = q as real;
    assert(x * s == (c as real) * u) by {
        lemma_real_product(c * p, q);
        lemma_real_product(c, p * q);
    }
    assert(x / u * s == c as real) by (nonlinear_arith)
        requires
            x * s == (c as real) * u,
            u > 0real,
    ;
}

/// The number that the digits of a pattern stand for.
pub(crate) proof fn lemma_digits(d: Double, digits: int, shift: nat, span: int)
    requires
        shift <= 1074,
        span == pow2(shift),
        digits > 0,
        d.value() == digits * pow2((1074 - shift) as nat),
    ensures
        real_of(d) * (span as real) == digits as real,
{
    lemma_power_over_unit((1074 - shift) as nat, digits, shift);
}

proof fn lemma_multiple_of_unit(c: int)
    ensures
        ((c * unit()) as real) / (unit() as real) == c as real,
{
    lemma_unit();
    let u = unit() as real;
    let x = (c * unit()) as real;
    lemma_real_product(c, unit());
    assert(x / u == c as real) by (nonlinear_arith)
        requires
            x == (c as real) * u,
            u > 0real,
    ;
}

/// The constants of the formulas.
pub(crate) proof fn lemma_constants()
    ensures
        real_of(Double { bits: ONE }) == 1real,
        real_of(Double { bits: TWO }) == 2real,
        real_of(Double { bits: THREE }) == 3real,
        real_of(Double { bits: FOUR }) == 4real,
        real_of(Double { bits: TWENTY_FOUR }) == 24real,
        real_of(Double { bits: HALF }) * 2real == 1real,
        real_of(Double { bits: QUARTER }) * 4real == 1real,
{
    lemma_pow2_adds(52, 1022);
    lemma_pow2_adds(52, 1021);
    lemma_pow2_adds(52, 1020);
    lemma_pow2_adds(51, 1023);
    lemma_pow2_adds(1074, 1);
    lemma_pow2_adds(1074, 2);
    lemma_pow2_adds(51, 1026);
    lemma_pow2_adds(1074, 3);
    lemma_pow2_adds(52, 1023);
    lemma_pow2_adds(52, 1024);
    vstd::arithmetic::power2::lemma2_to64();
    vstd::arithmetic::power2::lemma2_to64_rest();
    assert(pow2(51) == 0x8_0000_0000_0000);
    assert(pow2(52) == 0x10_0000_0000_0000);
    assert(0x8_0000_0000_0000 * pow2(1023) == unit());
    assert(0x8_0000_0000_0000 * pow2(1026) == pow2(1077));
    assert(0x10_0000_0000_0000 * pow2(1024) == pow2(1076));
    assert(pow2(1076) == unit() * 4);
    assert(pow2(1077) == unit() * 8);
    assert((Double { bits: ONE }).value() == 1 * unit());
    assert((Double { bits: TWO }).value() == 2 * unit());
    assert((Double { bits: THREE }).value() == 0x18_0000_0000_0000 * pow2(1023));
    assert((Double { bits: THREE }).value() == 3 * unit());
    assert((Double { bits: FOUR }).value() == 4 * unit());
    assert((Double { bits: TWENTY_FOUR }).value() == 0x18_0000_0000_0000 * pow2(1026));
    assert((Double { bits: TWENTY_FOUR }).value() == 24 * unit());
    assert((Double { bits: HALF }).value() == 1 * pow2(1073));
    assert((Double { bits: QUARTER }).value() == 1 * pow2(1072));
    lemma_multiple_of_unit(1);
    lemma_multiple_of_unit(2);
    lemma_multiple_of_unit(3);
    lemma_multiple_of_unit(4);
    lemma_multiple_of_unit(24);
    lemma_power_over_unit(1073, 1, 1);
    lemma_power_over_unit(1072, 1, 2);
}

} // verus!
