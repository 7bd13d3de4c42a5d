//! What the operations of formulas are: each is the operation of the same name of an implementation.

use vstd::prelude::*;
use crate::double::Double;
use crate::formula::{
    atan_of, binary_gives, cbrt_of, cos_of, exp_of, floor_of, gives, int_of, lit, ln_of, minus,
    modulo, nat_of, nearest_of, neg_of, num, over, plus, sin_of, sqrt_of, times, unary_gives,
    Arithmetic, BinaryOp, Expr, UnaryOp,
};

verus! {

/// The numbers of formulas: a number and a literal stand for themselves, and integers for what an
/// implementation makes of them.
pub proof fn law_numbers<K: Arithmetic>(k: &K, a: Double, bits: u64, n: i64, m: u64, v: Double)
    ensures
        gives(k, num(a), v) <==> v == a,
        gives(k, lit(bits), v) <==> v.bits == bits,
        gives(k, int_of(n), v) <==> call_ensures(K::of_signed, (k, n), v),
        gives(k, nat_of(m), v) <==> call_ensures(K::of_unsigned, (k, m), v),
{
    reveal_with_fuel(gives, 2);
}

/// An operation on two formulas is the operation of an implementation on their values.
pub proof fn law_operations_on_two<K: Arithmetic>(k: &K, a: Expr, b: Expr, v: Double)
    ensures
        gives(k, plus(a, b), v) <==> exists|p: Double, q: Double|
            gives(k, a, p) && gives(k, b, q) && #[trigger] call_ensures(K::sum, (k, p, q), v),
        gives(k, minus(a, b), v) <==> exists|p: Double, q: Double|
            gives(k, a, p) && gives(k, b, q) && #[trigger] call_ensures(K::difference, (k, p, q), v),
        gives(k, times(a, b), v) <==> exists|p: Double, q: Double|
            gives(k, a, p) && gives(k, b, q) && #[trigger] call_ensures(K::product, (k, p, q), v),
        gives(k, over(a, b), v) <==> exists|p: Double, q: Double|
            gives(k, a, p) && gives(k, b, q) && #[trigger] call_ensures(K::quotient, (k, p, q), v),
        gives(k, modulo(a, b), v) <==> exists|p: Double, q: Double|
            gives(k, a, p) && gives(k, b, q) && #[trigger] call_ensures(K::remainder, (k, p, q), v),
{
    reveal_with_fuel(gives, 2);
    assert(gives(k, plus(a, b), v) <==> exists|p: Double, q: Double|
        gives(k, a, p) && gives(k, b, q) && #[trigger] call_ensures(K::sum, (k, p, q), v)) by {
        if gives(k, plus(a, b), v) {
            let (p, q): (Double, Double) = choose|p: Double, q: Double|
                gives(k, a, p) && gives(k, b, q) && #[trigger] binary_gives(
                    k,
                    BinaryOp::Sum,
                    p,
                    q,
                    v,
                );
            assert(call_ensures(K::sum, (k, p, q), v));
        }
        if exists|p: Double, q: Double|
            gives(k, a, p) && gives(k, b, q) && #[trigger] call_ensures(K::sum, (k, p, q), v) {
            let (p, q): (Double, Double) = choose|p: Double, q: Double|
                gives(k, a, p) && gives(k, b, q) && #[trigger] call_ensures(K::sum, (k, p, q), v);
            assert(binary_gives(k, BinaryOp::Sum, p, q, v));
        }
    }
    assert(gives(k, minus(a, b), v) <==> exists|p: Double, q: Double|
        gives(k, a, p) && gives(k, b, q) && #[trigger] call_ensures(K::difference, (k, p, q), v)) by {
        if gives(k, minus(a, b), v) {
            let (p, q): (Double, Double) = choose|p: Double, q: Double|
                gives(k, a, p) && gives(k, b, q) && #[trigger] binary_gives(
                    k,
                    BinaryOp::Difference,
                    p,
                    q,
                    v,
                );
            assert(call_ensures(K::difference, (k, p, q), v));
        }
        if exists|p: Double, q: Double|
            gives(k, a, p) && gives(k, b, q) && #[trigger] call_ensures(K::difference, (k, p, q), v) {
            let (p, q): (Double, Double) = choose|p: Double, q: Double|
                gives(k, a, p) && gives(k, b, q) && #[trigger] call_ensures(K::difference, (k, p, q), v);
            assert(binary_gives(k, BinaryOp::Difference, p, q, v));
        }
    }
    assert(gives(k, times(a, b), v) <==> exists|p: Double, q: Double|
        gives(k, a, p) && gives(k, b, q) && #[trigger] call_ensures(K::product, (k, p, q), v)) by {
        if gives(k, times(a, b), v) {
            let (p, q): (Double, Double) = choose|p: Double, q: Double|
                gives(k, a, p) && gives(k, b, q) && #[trigger] binary_gives(
                    k,
                    BinaryOp::Product,
                    p,
                    q,
                    v,
                );
            assert(call_ensures(K::product, (k, p, q), v));
        }
        if exists|p: Double, q: Double|
            gives(k, a, p) && gives(k, b, q) && #[trigger] call_ensures(K::product, (k, p, q), v) {
            let (p, q): (Double, Double) = choose|p: Double, q: Double|
                gives(k, a, p) && gives(k, b, q) && #[trigger] call_ensures(K::product, (k, p, q), v);
            assert(binary_gives(k, BinaryOp::Product, p, q, v));
        }
    }
    assert(gives(k, over(a, b), v) <==> exists|p: Double, q: Double|
        gives(k, a, p) && gives(k, b, q) && #[trigger] call_ensures(K::quotient, (k, p, q), v)) by {
        if gives(k, over(a, b), v) {
            let (p, q): (Double, Double) = choose|p: Double, q: Double|
                gives(k, a, p) && gives(k, b, q) && #[trigger] binary_gives(
                    k,
                    BinaryOp::Quotient,
                    p,
                    q,
                    v,
                );
            assert(call_ensures(K::quotient, (k, p, q), v));
        }
        if exists|p: Double, q: Double|
            gives(k, a, p) && gives(k, b, q) && #[trigger] call_ensures(K::quotient, (k, p, q), v) {
            let (p, q): (Double, Double) = choose|p: Double, q: Double|
                gives(k, a, p) && gives(k, b, q) && #[trigger] call_ensures(K::quotient, (k, p, q), v);
            assert(binary_gives(k, BinaryOp::Quotient, p, q, v));
        }
    }
    assert(gives(k, modulo(a, b), v) <==> exists|p: Double, q: Double|
        gives(k, a, p) && gives(k, b, q) && #[trigger] call_ensures(K::remainder, (k, p, q), v)) by {
        if gives(k, modulo(a, b), v) {
            let (p, q): (Double, Double) = choose|p: Double, q: Double|
                gives(k, a, p) && gives(k, b, q) && #[trigger] binary_gives(
                    k,
                    BinaryOp::Remainder,
                    p,
                    q,
                    v,
                );
            assert(call_ensures(K::remainder, (k, p, q), v));
        }
        if exists|p: Double, q: Double|
            gives(k, a, p) && gives(k, b, q) && #[trigger] call_ensures(K::remainder, (k, p, q), v) {
            let (p, q): (Double, Double) = choose|p: Double, q: Double|
                gives(k, a, p) && gives(k, b, q) && #[trigger] call_ensures(K::remainder, (k, p, q), v);
            assert(binary_gives(k, BinaryOp::Remainder, p, q, v));
        }
    }
}

/// An operation on one formula is the operation of an implementation on its value, and the opposite of a
/// formula is its value with the sign changed.
pub proof fn law_operations_on_one<K: Arithmetic>(k: &K, a: Expr, v: Double)
    ensures
        gives(k, neg_of(a), v) <==> exists|p: Double| #[trigger] gives(k, a, p) && v == p.negated(),
        gives(k, sqrt_of(a), v) <==> exists|p: Double|
            gives(k, a, p) && #[trigger] call_ensures(K::square_root, (k, p), v),
        gives(k, cbrt_of(a), v) <==> exists|p: Double|
            gives(k, a, p) && #[trigger] call_ensures(K::cube_root, (k, p), v),
        gives(k, sin_of(a), v) <==> exists|p: Double|
            gives(k, a, p) && #[trigger] call_ensures(K::sine, (k, p), v),
        gives(k, cos_of(a), v) <==> exists|p: Double|
            gives(k, a, p) && #[trigger] call_ensures(K::cosine, (k, p), v),
        gives(k, atan_of(a), v) <==> exists|p: Double|
            gives(k, a, p) && #[trigger] call_ensures(K::arctangent, (k, p), v),
        gives(k, ln_of(a), v) <==> exists|p: Double|
            gives(k, a, p) && #[trigger] call_ensures(K::logarithm, (k, p), v),
        gives(k, exp_of(a), v) <==> exists|p: Double|
            gives(k, a, p) && #[trigger] call_ensures(K::exponential, (k, p), v),
        gives(k, floor_of(a), v) <==> exists|p: Double|
            gives(k, a, p) && #[trigger] call_ensures(K::floor, (k, p), v),
        gives(k, nearest_of(a), v) <==> exists|p: Double|
            gives(k, a, p) && #[trigger] call_ensures(K::nearest, (k, p), v),
{
    reveal_with_fuel(gives, 2);
    assert(gives(k, neg_of(a), v) <==> exists|p: Double| #[trigger]
        gives(k, a, p) && v == p.negated()) by {
        if gives(k, neg_of(a), v) {
            let p = choose|p: Double|
                gives(k, a, p) && #[trigger] unary_gives(k, UnaryOp::Negation, p, v);
            assert(gives(k, a, p));
        }
        if exists|p: Double| #[trigger] gives(k, a, p) && v == p.negated() {
            let p = choose|p: Double| #[trigger] gives(k, a, p) && v == p.negated();
            assert(unary_gives(k, UnaryOp::Negation, p, v));
        }
    }
    assert(gives(k, sqrt_of(a), v) <==> exists|p: Double|
        gives(k, a, p) && #[trigger] call_ensures(K::square_root, (k, p), v)) by {
        if gives(k, sqrt_of(a), v) {
            let p = choose|p: Double|
                gives(k, a, p) && #[trigger] unary_gives(k, UnaryOp::SquareRoot, p, v);
            assert(call_ensures(K::square_root, (k, p), v));
        }
        if exists|p: Double| gives(k, a, p) && #[trigger] call_ensures(K::square_root, (k, p), v) {
            let p = choose|p: Double|
                gives(k, a, p) && #[trigger] call_ensures(K::square_root, (k, p), v);
            assert(unary_gives(k, UnaryOp::SquareRoot, p, v));
        }
    }
    assert(gives(k, cbrt_of(a), v) <==> exists|p: Double|
        gives(k, a, p) && #[trigger] call_ensures(K::cube_root, (k, p), v)) by {
        if gives(k, cbrt_of(a), v) {
            let p = choose|p: Double|
                gives(k, a, p) && #[trigger] unary_gives(k, UnaryOp::CubeRoot, p, v);
            assert(call_ensures(K::cube_root, (k, p), v));
        }
        if exists|p: Double| gives(k, a, p) && #[trigger] call_ensures(K::cube_root, (k, p), v) {
            let p = choose|p: Double|
                gives(k, a, p) && #[trigger] call_ensures(K::cube_root, (k, p), v);
            assert(unary_gives(k, UnaryOp::CubeRoot, p, v));
        }
    }
    assert(gives(k, sin_of(a), v) <==> exists|p: Double|
        gives(k, a, p) && #[trigger] call_ensures(K::sine, (k, p), v)) by {
        if gives(k, sin_of(a), v) {
            let p = choose|p: Double|
                gives(k, a, p) && #[trigger] unary_gives(k, UnaryOp::Sine, p, v);
            assert(call_ensures(K::sine, (k, p), v));
        }
        if exists|p: Double| gives(k, a, p) && #[trigger] call_ensures(K::sine, (k, p), v) {
            let p = choose|p: Double|
                gives(k, a, p) && #[trigger] call_ensures(K::sine, (k, p), v);
            assert(unary_gives(k, UnaryOp::Sine, p, v));
        }
    }
    assert(gives(k, cos_of(a), v) <==> exists|p: Double|
        gives(k, a, p) && #[trigger] call_ensures(K::cosine, (k, p), v)) by {
        if gives(k, cos_of(a), v) {
            let p = choose|p: Double|
                gives(k, a, p) && #[trigger] unary_gives(k, UnaryOp::Cosine, p, v);
            assert(call_ensures(K::cosine, (k, p), v));
        }
        if exists|p: Double| gives(k, a, p) && #[trigger] call_ensures(K::cosine, (k, p), v) {
            let p = choose|p: Double|
                gives(k, a, p) && #[trigger] call_ensures(K::cosine, (k, p), v);
            assert(unary_gives(k, UnaryOp::Cosine, p, v));
        }
    }
    assert(gives(k, atan_of(a), v) <==> exists|p: Double|
        gives(k, a, p) && #[trigger] call_ensures(K::arctangent, (k, p), v)) by {
        if gives(k, atan_of(a), v) {
            let p = choose|p: Double|
                gives(k, a, p) && #[trigger] unary_gives(k, UnaryOp::Arctangent, p, v);
            assert(call_ensures(K::arctangent, (k, p), v));
        }
        if exists|p: Double| gives(k, a, p) && #[trigger] call_ensures(K::arctangent, (k, p), v) {
            let p = choose|p: Double|
                gives(k, a, p) && #[trigger] call_ensures(K::arctangent, (k, p), v);
            assert(unary_gives(k, UnaryOp::Arctangent, p, v));
        }
    }
    assert(gives(k, ln_of(a), v) <==> exists|p: Double|
        gives(k, a, p) && #[trigger] call_ensures(K::logarithm, (k, p), v)) by {
        if gives(k, ln_of(a), v) {
            let p = choose|p: Double|
                gives(k, a, p) && #[trigger] unary_gives(k, UnaryOp::Logarithm, p, v);
            assert(call_ensures(K::logarithm, (k, p), v));
        }
        if exists|p: Double| gives(k, a, p) && #[trigger] call_ensures(K::logarithm, (k, p), v) {
            let p = choose|p: Double|
                gives(k, a, p) && #[trigger] call_ensures(K::logarithm, (k, p), v);
            assert(unary_gives(k, UnaryOp::Logarithm, p, v));
        }
    }
    assert(gives(k, exp_of(a), v) <==> exists|p: Double|
        gives(k, a, p) && #[trigger] call_ensures(K::exponential, (k, p), v)) by {
        if gives(k, exp_of(a), v) {
            let p = choose|p: Double|
                gives(k, a, p) && #[trigger] unary_gives(k, UnaryOp::Exponential, p, v);
            assert(call_ensures(K::exponential, (k, p), v));
        }
        if exists|p: Double| gives(k, a, p) && #[trigger] call_ensures(K::exponential, (k, p), v) {
            let p = choose|p: Double|
                gives(k, a, p) && #[trigger] call_ensures(K::exponential, (k, p), v);
            assert(unary_gives(k, UnaryOp::Exponential, p, v));
        }
    }
    assert(gives(k, floor_of(a), v) <==> exists|p: Double|
        gives(k, a, p) && #[trigger] call_ensures(K::floor, (k, p), v)) by {
        if gives(k, floor_of(a), v) {
            let p = choose|p: Double|
                gives(k, a, p) && #[trigger] unary_gives(k, UnaryOp::Floor, p, v);
            assert(call_ensures(K::floor, (k, p), v));
        }
        if exists|p: Double| gives(k, a, p) && #[trigger] call_ensures(K::floor, (k, p), v) {
            let p = choose|p: Double|
                gives(k, a, p) && #[trigger] call_ensures(K::floor, (k, p), v);
            assert(unary_gives(k, UnaryOp::Floor, p, v));
        }
    }
    assert(gives(k, nearest_of(a), v) <==> exists|p: Double|
        gives(k, a, p) && #[trigger] call_ensures(K::nearest, (k, p), v)) by {
        if gives(k, nearest_of(a), v) {
            let p = choose|p: Double|
                gives(k, a, p) && #[trigger] unary_gives(k, UnaryOp::Nearest, p, v);
            assert(call_ensures(K::nearest, (k, p), v));
        }
        if exists|p: Double| gives(k, a, p) && #[trigger] call_ensures(K::nearest, (k, p), v) {
            let p = choose|p: Double|
                gives(k, a, p) && #[trigger] call_ensures(K::nearest, (k, p), v);
            assert(unary_gives(k, UnaryOp::Nearest, p, v));
        }
    }
}

} // verus!
