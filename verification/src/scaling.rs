//! How the diffusion coefficients depend on the reference rod: it sets the time scale that all rods
//! share, and drops out of the ratio of two rods.

use vstd::arithmetic::power2::pow2;
use vstd::math::abs;
use vstd::prelude::*;
use crate::double::Double;
use crate::formula::{
    binary_gives, gives, law_steady_is_single_valued, lit, num, over, plus, steady, times,
    Arithmetic, BinaryOp, Expr, FOUR, HALF, TWENTY_FOUR,
};
use crate::model::{
    coefficients_from, d_parallel_of, d_perp_of, d_r_of, diffusion_for_length_gives,
    tirado_terms_gives, Diffusion, TiradoTerms,
};

verus! {

// ---- Terms of the rod and terms of the reference ----

proof fn lemma_terms<K: Arithmetic>(
    k: &K,
    l: Double,
    reference_length: Double,
    d: Diffusion,
) -> (r: (TiradoTerms, TiradoTerms))
    requires
        diffusion_for_length_gives(k, l, reference_length, d),
    ensures
        tirado_terms_gives(k, l, r.0),
        tirado_terms_gives(k, reference_length, r.1),
        coefficients_from(k, l, reference_length, r.0, r.1, d),
{
    let (terms, reference): (TiradoTerms, TiradoTerms) = choose|
        terms: TiradoTerms,
        reference: TiradoTerms,
    |
        {
            &&& #[trigger] tirado_terms_gives(k, l, terms)
            &&& #[trigger] tirado_terms_gives(k, reference_length, reference)
            &&& coefficients_from(k, l, reference_length, terms, reference, d)
        };
    (terms, reference)
}

/// The coefficients of two rods with two reference rods are made of terms of the rods, which do not
/// depend on the reference, and of terms of the references, which do not depend on the rod.
pub proof fn law_coefficients_separate<K: Arithmetic>(
    k: &K,
    l1: Double,
    l2: Double,
    r1: Double,
    r2: Double,
    d11: Diffusion,
    d12: Diffusion,
    d21: Diffusion,
    d22: Diffusion,
)
    requires
        steady(k),
        diffusion_for_length_gives(k, l1, r1, d11),
        diffusion_for_length_gives(k, l1, r2, d12),
        diffusion_for_length_gives(k, l2, r1, d21),
        diffusion_for_length_gives(k, l2, r2, d22),
    ensures
        exists|t1: TiradoTerms, t2: TiradoTerms, f1: TiradoTerms, f2: TiradoTerms|
            {
                &&& #[trigger] tirado_terms_gives(k, l1, t1)
                &&& #[trigger] tirado_terms_gives(k, l2, t2)
                &&& #[trigger] tirado_terms_gives(k, r1, f1)
                &&& #[trigger] tirado_terms_gives(k, r2, f2)
                &&& coefficients_from(k, l1, r1, t1, f1, d11)
                &&& coefficients_from(k, l1, r2, t1, f2, d12)
                &&& coefficients_from(k, l2, r1, t2, f1, d21)
                &&& coefficients_from(k, l2, r2, t2, f2, d22)
            },
{
    law_steady_is_single_valued(k);
    let (t1, f1) = lemma_terms(k, l1, r1, d11);
    let (t12, f2) = lemma_terms(k, l1, r2, d12);
    let (t2, f21) = lemma_terms(k, l2, r1, d21);
    let (t22, f22) = lemma_terms(k, l2, r2, d22);
    assert(t12 == t1 && t22 == t2 && f21 == f1 && f22 == f2);
}

// ---- Rounding ----

/// The number 1 in the units of `Double::value`.
pub open spec fn unit() -> int {
    pow2(1074) as int
}

/// Whether `x` differs from `exact` by no more than `i` times the `n`-th part of it.
pub open spec fn within(n: int, i: int, x: int, exact: int) -> bool {
    n * abs(x - exact) <= i * abs(exact)
}

/// Whether `r` is the result of an operation on two numbers up to its `n`-th part.
pub open spec fn rounded(n: int, op: BinaryOp, a: Double, b: Double, r: Double) -> bool {
    match op {
        BinaryOp::Sum => within(n, 1, r.value(), a.value() + b.value()),
        BinaryOp::Difference => within(n, 1, r.value(), a.value() - b.value()),
        BinaryOp::Product => within(n, 1, r.value() * unit(), a.value() * b.value()),
        BinaryOp::Quotient => b.value() != 0 && within(
            n,
            1,
            r.value() * b.value(),
            a.value() * unit(),
        ),
        BinaryOp::Remainder => true,
    }
}

/// Whether every sum, difference, product and quotient of finite numbers that has all its digits is
/// the exact one up to its `n`-th part. With IEEE 754 and rounding to nearest `n` can be 2^52.
pub open spec fn rounds_within<K: Arithmetic>(k: &K, n: int) -> bool {
    forall|op: BinaryOp, a: Double, b: Double, r: Double| #[trigger]
        binary_gives(k, op, a, b, r) && a.finite() && b.finite() && r.normal() ==> rounded(
            n,
            op,
            a,
            b,
            r,
        )
}

/// Whether no operation of a formula overflows or loses digits next to zero.
pub open spec fn in_range<K: Arithmetic>(k: &K, e: Expr) -> bool
    decreases e,
{
    match e {
        Expr::Num(x) => x.finite(),
        Expr::Signed(_) => forall|v: Double| #[trigger] gives(k, e, v) ==> v.finite(),
        Expr::Unsigned(_) => forall|v: Double| #[trigger] gives(k, e, v) ==> v.finite(),
        Expr::Unary(_, a) => {
            &&& in_range(k, *a)
            &&& forall|v: Double| #[trigger] gives(k, e, v) ==> v.normal()
        },
        Expr::Binary(_, a, b) => {
            &&& in_range(k, *a)
            &&& in_range(k, *b)
            &&& forall|v: Double| #[trigger] gives(k, e, v) ==> v.normal()
        },
    }
}

/// Whether the formulas of the coefficients of a rod stay in range.
pub open spec fn coefficients_in_range<K: Arithmetic>(
    k: &K,
    l: Double,
    reference_length: Double,
    d: Diffusion,
) -> bool {
    &&& in_range(k, d_perp_of(d.d_parallel))
    &&& forall|terms: TiradoTerms, reference: TiradoTerms| #[trigger]
        tirado_terms_gives(k, l, terms) && #[trigger] tirado_terms_gives(
            k,
            reference_length,
            reference,
        ) ==> {
            &&& in_range(k, d_parallel_of(l, reference_length, terms, reference))
            &&& in_range(k, d_r_of(l, reference_length, terms, reference))
        }
}

proof fn lemma_finite<K: Arithmetic>(k: &K, e: Expr, x: Double)
    requires
        in_range(k, e),
        gives(k, e, x),
    ensures
        x.finite(),
{
    reveal_with_fuel(gives, 2);
}

/// The operands of an operation in range, and how it was rounded.
proof fn lemma_operands<K: Arithmetic>(
    k: &K,
    n: int,
    op: BinaryOp,
    a: Expr,
    b: Expr,
    x: Double,
) -> (r: (Double, Double))
    requires
        rounds_within(k, n),
        in_range(k, Expr::Binary(op, Box::new(a), Box::new(b))),
        gives(k, Expr::Binary(op, Box::new(a), Box::new(b)), x),
    ensures
        gives(k, a, r.0),
        gives(k, b, r.1),
        in_range(k, a),
        in_range(k, b),
        rounded(n, op, r.0, r.1, x),
{
    let (p, q): (Double, Double) = choose|p: Double, q: Double|
        gives(k, a, p) && gives(k, b, q) && #[trigger] binary_gives(k, op, p, q, x);
    assert(gives(k, a, p) && gives(k, b, q) && binary_gives(k, op, p, q, x)) by {
        reveal_with_fuel(gives, 2);
    }
    lemma_finite(k, a, p);
    lemma_finite(k, b, q);
    (p, q)
}

proof fn lemma_number<K: Arithmetic>(k: &K, x: Double, v: Double)
    requires
        gives(k, num(x), v),
    ensures
        v == x,
{
    reveal_with_fuel(gives, 2);
}

// ---- Nearness ----

proof fn lemma_abs_product(x: int, y: int)
    ensures
        abs(x * y) == abs(x) * abs(y),
{
    assert(abs(x * y) == abs(x) * abs(y)) by (nonlinear_arith);
}

proof fn lemma_within_scaled(n: int, i: int, x: int, e: int, c: int)
    requires
        within(n, i, x, e),
    ensures
        within(n, i, x * c, e * c),
{
    assert(x * c - e * c == (x - e) * c) by (nonlinear_arith);
    lemma_abs_product(x - e, c);
    lemma_abs_product(e, c);
    let gap = abs(x - e) as int;
    let size = abs(e) as int;
    let scale = abs(c) as int;
    assert(n * (gap * scale) <= i * (size * scale)) by (nonlinear_arith)
        requires
            n * gap <= i * size,
            scale >= 0,
    ;
}

proof fn lemma_within_unscaled(n: int, i: int, x: int, e: int, c: int)
    requires
        within(n, i, x * c, e * c),
        c != 0,
    ensures
        within(n, i, x, e),
{
    assert(x * c - e * c == (x - e) * c) by (nonlinear_arith);
    lemma_abs_product(x - e, c);
    lemma_abs_product(e, c);
    let gap = abs(x - e) as int;
    let size = abs(e) as int;
    let scale = abs(c) as int;
    assert(n * gap <= i * size) by (nonlinear_arith)
        requires
            n * (gap * scale) <= i * (size * scale),
            scale > 0,
    ;
}

proof fn lemma_within_chain(n: int, i: int, j: int, x: int, y: int, z: int)
    requires
        within(n, i, x, y),
        within(n, j, y, z),
        0 <= i,
        0 <= j,
        0 < n,
        i * j <= n,
    ensures
        within(n, i + j + 1, x, z),
{
    let xy = abs(x - y) as int;
    let yz = abs(y - z) as int;
    let xz = abs(x - z) as int;
    let b = abs(y) as int;
    let c = abs(z) as int;
    assert(i * b <= i * c + i * yz) by (nonlinear_arith)
        requires
            b <= c + yz,
            0 <= i,
    ;
    assert(i * yz <= c) by (nonlinear_arith)
        requires
            n * yz <= j * c,
            i * j <= n,
            0 <= i,
            0 <= j,
            0 < n,
            0 <= c,
            0 <= yz,
    {
        assert(i * (n * yz) <= i * (j * c));
        assert(i * (j * c) == (i * j) * c);
        assert((i * j) * c <= n * c);
        assert(i * (n * yz) == n * (i * yz));
        assert(n * (i * yz) <= n * c);
    }
    assert(n * xz <= n * xy + n * yz) by (nonlinear_arith)
        requires
            xz <= xy + yz,
            0 < n,
    ;
    assert((i + j + 1) * c == i * c + j * c + c) by (nonlinear_arith);
}

proof fn lemma_within_reversed(n: int, i: int, x: int, y: int)
    requires
        within(n, i, x, y),
        0 <= i,
        2 * i <= n,
        0 < n,
    ensures
        within(n, 2 * i, y, x),
{
    let gap = abs(x - y) as int;
    let a = abs(x) as int;
    let b = abs(y) as int;
    assert(abs(y - x) == gap);
    assert(b <= 2 * a) by (nonlinear_arith)
        requires
            b <= a + gap,
            n * gap <= i * b,
            2 * i <= n,
            0 <= b,
            0 < n,
    {
        assert(2 * (n * gap) <= (2 * i) * b);
        assert((2 * i) * b <= n * b);
        assert(n * (2 * gap) <= n * b);
        assert(2 * gap <= b);
    }
    assert(i * b <= (2 * i) * a) by (nonlinear_arith)
        requires
            b <= 2 * a,
            0 <= i,
    ;
}

proof fn lemma_within_wider(n: int, i: int, j: int, x: int, e: int)
    requires
        within(n, i, x, e),
        i <= j,
    ensures
        within(n, j, x, e),
{
    let size = abs(e) as int;
    assert(i * size <= j * size) by (nonlinear_arith)
        requires
            i <= j,
            0 <= size,
    ;
}

proof fn lemma_within_product(n: int, i: int, x: int, y: int, t: int, u: int)
    requires
        0 < n,
        0 <= i <= n,
        within(n, i, x, t),
        within(n, i, y, u),
    ensures
        within(n, 3 * i, x * y, t * u),
{
    lemma_within_scaled(n, i, x, t, u);
    lemma_within_scaled(n, i, y, u, t);
    let v = x - t;
    let w = y - u;
    assert(x * y - t * u == (x * u - t * u) + (y * t - u * t) + v * w) by (nonlinear_arith)
        requires
            v == x - t,
            w == y - u,
    ;
    lemma_abs_product(v, w);
    assert(u * t == t * u) by (nonlinear_arith);
    lemma_abs_product(t, u);
    let a = abs(v) as int;
    let b = abs(w) as int;
    let p = abs(t) as int;
    let q = abs(u) as int;
    let first = abs(x * u - t * u) as int;
    let second = abs(y * t - u * t) as int;
    let total = abs(x * y - t * u) as int;
    assert(total <= first + second + a * b);
    assert(b <= q) by (nonlinear_arith)
        requires
            n * b <= i * q,
            i <= n,
            0 < n,
            0 <= q,
    {
        assert(i * q <= n * q);
        assert(n * b <= n * q);
    }
    assert(n * (a * b) <= i * (p * q)) by (nonlinear_arith)
        requires
            n * a <= i * p,
            0 <= b <= q,
            0 <= i,
            0 <= p,
            0 <= a,
            0 < n,
    {
        assert(n * (a * b) == (n * a) * b);
        assert((n * a) * b <= (n * a) * q);
        assert((n * a) * q <= (i * p) * q);
        assert((i * p) * q == i * (p * q));
    }
    assert(n * total <= n * first + n * second + n * (a * b)) by (nonlinear_arith)
        requires
            total <= first + second + a * b,
            0 < n,
    ;
    assert((3 * i) * (p * q) == 3 * (i * (p * q))) by (nonlinear_arith);
}

proof fn lemma_common_factor(c: int, x: int, y: int)
    ensures
        (c * x) * (c * y) == (c * c) * (x * y),
{
    assert((c * x) * (c * y) == (c * c) * (x * y)) by (nonlinear_arith);
}

/// Four values near products of a factor of the row and a factor of the column: the two products
/// across are near each other.
proof fn lemma_cross_products(
    n: int,
    i: int,
    d11: int,
    d12: int,
    d21: int,
    d22: int,
    m1: int,
    m2: int,
    b1: int,
    b2: int,
    c: int,
    r1: int,
    r2: int,
    s1: int,
    s2: int,
)
    requires
        0 < i,
        n >= 6 * i,
        within(n, i, d11 * (m1 * b1), c * (r1 * s1)),
        within(n, i, d12 * (m1 * b2), c * (r2 * s1)),
        within(n, i, d21 * (m2 * b1), c * (r1 * s2)),
        within(n, i, d22 * (m2 * b2), c * (r2 * s2)),
        m1 * b1 != 0,
        m2 * b2 != 0,
    ensures
        within(n, 12 * i, d11 * d22, d12 * d21),
{
    let t11 = c * (r1 * s1);
    let t12 = c * (r2 * s1);
    let t21 = c * (r1 * s2);
    let t22 = c * (r2 * s2);
    assert(t11 * t22 == t12 * t21) by {
        assert((r1 * s1) * (r2 * s2) == (r2 * s1) * (r1 * s2)) by (nonlinear_arith);
        lemma_common_factor(c, r1 * s1, r2 * s2);
        lemma_common_factor(c, r2 * s1, r1 * s2);
    }
    lemma_within_product(n, i, d11 * (m1 * b1), d22 * (m2 * b2), t11, t22);
    lemma_within_product(n, i, d12 * (m1 * b2), d21 * (m2 * b1), t12, t21);
    let p = (m1 * b1) * (m2 * b2);
    let left = d11 * d22;
    let right = d12 * d21;
    assert((d11 * (m1 * b1)) * (d22 * (m2 * b2)) == left * p) by (nonlinear_arith)
        requires
            left == d11 * d22,
            p == (m1 * b1) * (m2 * b2),
    ;
    assert((d12 * (m1 * b2)) * (d21 * (m2 * b1)) == right * p) by (nonlinear_arith)
        requires
            right == d12 * d21,
            p == (m1 * b1) * (m2 * b2),
    ;
    assert(p != 0) by (nonlinear_arith)
        requires
            p == (m1 * b1) * (m2 * b2),
            m1 * b1 != 0,
            m2 * b2 != 0,
    ;
    let exact = t12 * t21;
    let x = left * p;
    let y = right * p;
    let t = abs(exact) as int;
    let to_x = abs(x - exact) as int;
    let to_y = abs(y - exact) as int;
    let apart = abs(x - y) as int;
    let size = abs(y) as int;
    assert((3 * i) * t == 3 * (i * t)) by (nonlinear_arith);
    assert(n * apart <= 6 * (i * t)) by (nonlinear_arith)
        requires
            apart <= to_x + to_y,
            n * to_x <= 3 * (i * t),
            n * to_y <= 3 * (i * t),
            n > 0,
    ;
    assert(t <= 2 * size) by {
        assert(2 * to_y <= t) by (nonlinear_arith)
            requires
                n * to_y <= 3 * (i * t),
                n >= 6 * i,
                n > 0,
                t >= 0,
        {
            assert(n * (2 * to_y) <= (6 * i) * t);
            assert((6 * i) * t <= n * t);
        }
    }
    assert(6 * (i * t) <= (12 * i) * size) by (nonlinear_arith)
        requires
            t <= 2 * size,
            i > 0,
    ;
    lemma_within_unscaled(n, 12 * i, left, right, p);
}

// ---- The coefficients up to rounding ----

proof fn lemma_along(
    n: int,
    u: int,
    c: int,
    r: int,
    l: int,
    s: int,
    b: int,
    v1: int,
    v2: int,
    v3: int,
    d: int,
)
    requires
        n >= 5,
        u != 0,
        within(n, 1, v1 * l, r * u),
        within(n, 1, v2 * u, c * v1),
        within(n, 1, v3 * u, v2 * s),
        within(n, 1, d * b, v3 * u),
    ensures
        within(n, 7, d * (l * b), c * (r * s)),
{
    lemma_within_scaled(n, 1, d * b, v3 * u, l * u);
    lemma_within_scaled(n, 1, v3 * u, v2 * s, l * u);
    lemma_within_scaled(n, 1, v2 * u, c * v1, s * l);
    lemma_within_scaled(n, 1, v1 * l, r * u, c * s);
    let s0 = (d * b) * (l * u);
    let s1 = (v3 * u) * (l * u);
    let s2 = (v2 * s) * (l * u);
    let s3 = (c * v1) * (s * l);
    let s4 = (r * u) * (c * s);
    assert(s2 == (v2 * u) * (s * l)) by (nonlinear_arith)
        requires
            s2 == (v2 * s) * (l * u),
    ;
    assert(s3 == (v1 * l) * (c * s)) by (nonlinear_arith)
        requires
            s3 == (c * v1) * (s * l),
    ;
    lemma_within_chain(n, 1, 1, s0, s1, s2);
    lemma_within_chain(n, 3, 1, s0, s2, s3);
    lemma_within_chain(n, 5, 1, s0, s3, s4);
    assert(s0 == (d * (l * b)) * u) by (nonlinear_arith)
        requires
            s0 == (d * b) * (l * u),
    ;
    assert(s4 == (c * (r * s)) * u) by (nonlinear_arith)
        requires
            s4 == (r * u) * (c * s),
    ;
    lemma_within_unscaled(n, 7, d * (l * b), c * (r * s), u);
}

proof fn lemma_across(n: int, u: int, h: int, m: int, e: int, along: int, across: int)
    requires
        n >= 7,
        within(n, 7, along * m, e),
        within(n, 1, across * u, h * along),
    ensures
        within(n, 9, across * (u * m), h * e),
{
    lemma_within_scaled(n, 1, across * u, h * along, m);
    lemma_within_scaled(n, 7, along * m, e, h);
    assert((across * u) * m == across * (u * m)) by (nonlinear_arith);
    assert((h * along) * m == (along * m) * h) by (nonlinear_arith);
    assert(e * h == h * e) by (nonlinear_arith);
    lemma_within_chain(n, 1, 7, across * (u * m), (along * m) * h, h * e);
}

proof fn lemma_around(
    n: int,
    u: int,
    c: int,
    r: int,
    l: int,
    s: int,
    b: int,
    v1: int,
    v2: int,
    w1: int,
    w2: int,
    w3: int,
    d: int,
)
    requires
        n >= 50,
        within(n, 1, v1 * u, c * r),
        within(n, 1, v2 * u, v1 * s),
        within(n, 1, w1 * u, l * l),
        within(n, 1, w2 * u, w1 * l),
        within(n, 1, w3 * u, w2 * b),
        within(n, 1, d * w3, v2 * u),
    ensures
        within(n, 16, d * ((l * l * l) * b), (c * u * u) * (r * s)),
{
    // What the denominator comes to.
    let x = d * ((l * l * l) * b);
    let y1 = (w1 * u) * (d * l * b);
    let y2 = (w2 * u) * (u * d * b);
    let y3 = (w3 * u) * (u * u * d);
    lemma_within_scaled(n, 1, w1 * u, l * l, d * l * b);
    lemma_within_scaled(n, 1, w2 * u, w1 * l, u * d * b);
    lemma_within_scaled(n, 1, w3 * u, w2 * b, u * u * d);
    assert(x == (l * l) * (d * l * b)) by (nonlinear_arith)
        requires
            x == d * ((l * l * l) * b),
    ;
    assert(y1 == (w1 * l) * (u * d * b)) by (nonlinear_arith)
        requires
            y1 == (w1 * u) * (d * l * b),
    ;
    assert(y2 == (w2 * b) * (u * u * d)) by (nonlinear_arith)
        requires
            y2 == (w2 * u) * (u * d * b),
    ;
    lemma_within_chain(n, 1, 1, y3, y2, y1);
    lemma_within_chain(n, 3, 1, y3, y1, x);
    lemma_within_reversed(n, 5, y3, x);
    // What the numerator comes to.
    let z1 = (v2 * u) * (u * u * u);
    let z2 = (v1 * s) * (u * u * u);
    let z3 = (c * r) * (s * u * u);
    lemma_within_scaled(n, 1, d * w3, v2 * u, u * u * u);
    lemma_within_scaled(n, 1, v2 * u, v1 * s, u * u * u);
    lemma_within_scaled(n, 1, v1 * u, c * r, s * u * u);
    assert(y3 == (d * w3) * (u * u * u)) by (nonlinear_arith)
        requires
            y3 == (w3 * u) * (u * u * d),
    ;
    assert(z2 == (v1 * u) * (s * u * u)) by (nonlinear_arith)
        requires
            z2 == (v1 * s) * (u * u * u),
    ;
    lemma_within_chain(n, 1, 1, y3, z1, z2);
    lemma_within_chain(n, 3, 1, y3, z2, z3);
    lemma_within_chain(n, 10, 5, x, y3, z3);
    assert(z3 == (c * u * u) * (r * s)) by (nonlinear_arith)
        requires
            z3 == (c * r) * (s * u * u),
    ;
}

/// The number 4 of the formula, in the units of `Double::value`.
spec fn four() -> int {
    (Double { bits: FOUR }).value()
}

/// The number 1/2 of the formula, in the units of `Double::value`.
spec fn half() -> int {
    (Double { bits: HALF }).value()
}

/// The number 24 of the formula, in the units of `Double::value`.
spec fn twenty_four() -> int {
    (Double { bits: TWENTY_FOUR }).value()
}

proof fn lemma_unit()
    ensures
        unit() > 0,
{
    vstd::arithmetic::power2::lemma_pow2_pos(1074);
}

/// The diffusion along and across a rod up to rounding, with the sum of its terms.
proof fn lemma_translation<K: Arithmetic>(
    k: &K,
    n: int,
    l: Double,
    reference_length: Double,
    terms: TiradoTerms,
    reference: TiradoTerms,
    d: Diffusion,
) -> (s: Double)
    requires
        n >= 50,
        rounds_within(k, n),
        in_range(k, d_parallel_of(l, reference_length, terms, reference)),
        in_range(k, d_perp_of(d.d_parallel)),
        coefficients_from(k, l, reference_length, terms, reference, d),
    ensures
        gives(k, plus(num(terms.log_p), num(terms.nu_parallel)), s),
        l.value() * reference.denominator.value() != 0,
        within(
            n,
            16,
            d.d_parallel.value() * (l.value() * reference.denominator.value()),
            four() * (reference_length.value() * s.value()),
        ),
        within(
            n,
            16,
            d.d_perp.value() * ((unit() * l.value()) * reference.denominator.value()),
            (half() * four()) * (reference_length.value() * s.value()),
        ),
{
    let sum = plus(num(terms.log_p), num(terms.nu_parallel));
    let share = over(num(reference_length), num(l));
    let front = times(lit(FOUR), share);
    let (v3, b) = lemma_operands(
        k,
        n,
        BinaryOp::Quotient,
        times(front, sum),
        num(reference.denominator),
        d.d_parallel,
    );
    let (v2, s) = lemma_operands(k, n, BinaryOp::Product, front, sum, v3);
    let (c, v1) = lemma_operands(k, n, BinaryOp::Product, lit(FOUR), share, v2);
    let (r, length) = lemma_operands(
        k,
        n,
        BinaryOp::Quotient,
        num(reference_length),
        num(l),
        v1,
    );
    let (h, along) = lemma_operands(
        k,
        n,
        BinaryOp::Product,
        lit(HALF),
        num(d.d_parallel),
        d.d_perp,
    );
    lemma_number(k, reference.denominator, b);
    lemma_number(k, Double { bits: FOUR }, c);
    lemma_number(k, reference_length, r);
    lemma_number(k, l, length);
    lemma_number(k, Double { bits: HALF }, h);
    lemma_number(k, d.d_parallel, along);
    lemma_unit();
    let m = l.value() * b.value();
    let e = four() * (r.value() * s.value());
    lemma_along(
        n,
        unit(),
        four(),
        r.value(),
        l.value(),
        s.value(),
        b.value(),
        v1.value(),
        v2.value(),
        v3.value(),
        d.d_parallel.value(),
    );
    lemma_across(n, unit(), half(), m, e, d.d_parallel.value(), d.d_perp.value());
    assert(unit() * m == (unit() * l.value()) * b.value()) by (nonlinear_arith)
        requires
            m == l.value() * b.value(),
    ;
    assert(half() * e == (half() * four()) * (r.value() * s.value())) by (nonlinear_arith)
        requires
            e == four() * (r.value() * s.value()),
    ;
    lemma_within_wider(n, 7, 16, d.d_parallel.value() * m, e);
    lemma_within_wider(n, 9, 16, d.d_perp.value() * (unit() * m), half() * e);
    assert(m != 0) by (nonlinear_arith)
        requires
            m == l.value() * b.value(),
            l.value() != 0,
            b.value() != 0,
    ;
    s
}

/// The rotational diffusion of a rod up to rounding, with the sum of its terms.
proof fn lemma_rotation<K: Arithmetic>(
    k: &K,
    n: int,
    l: Double,
    reference_length: Double,
    terms: TiradoTerms,
    reference: TiradoTerms,
    d: Diffusion,
) -> (s: Double)
    requires
        n >= 50,
        rounds_within(k, n),
        in_range(k, d_r_of(l, reference_length, terms, reference)),
        coefficients_from(k, l, reference_length, terms, reference, d),
    ensures
        gives(k, plus(num(terms.log_p), num(terms.delta_perp)), s),
        within(
            n,
            16,
            d.d_r.value() * ((l.value() * l.value() * l.value()) * reference.denominator.value()),
            (twenty_four() * unit() * unit()) * (reference_length.value() * s.value()),
        ),
{
    let sum = plus(num(terms.log_p), num(terms.delta_perp));
    let front = times(lit(TWENTY_FOUR), num(reference_length));
    let square = times(num(l), num(l));
    let cube = times(square, num(l));
    let (v2, w3) = lemma_operands(
        k,
        n,
        BinaryOp::Quotient,
        times(front, sum),
        times(cube, num(reference.denominator)),
        d.d_r,
    );
    let (v1, s) = lemma_operands(k, n, BinaryOp::Product, front, sum, v2);
    let (c, r) = lemma_operands(
        k,
        n,
        BinaryOp::Product,
        lit(TWENTY_FOUR),
        num(reference_length),
        v1,
    );
    let (w2, b) = lemma_operands(
        k,
        n,
        BinaryOp::Product,
        cube,
        num(reference.denominator),
        w3,
    );
    let (w1, l3) = lemma_operands(k, n, BinaryOp::Product, square, num(l), w2);
    let (l1, l2) = lemma_operands(k, n, BinaryOp::Product, num(l), num(l), w1);
    lemma_number(k, Double { bits: TWENTY_FOUR }, c);
    lemma_number(k, reference_length, r);
    lemma_number(k, reference.denominator, b);
    lemma_number(k, l, l1);
    lemma_number(k, l, l2);
    lemma_number(k, l, l3);
    lemma_around(
        n,
        unit(),
        twenty_four(),
        r.value(),
        l.value(),
        s.value(),
        b.value(),
        v1.value(),
        v2.value(),
        w1.value(),
        w2.value(),
        w3.value(),
        d.d_r.value(),
    );
    s
}

// ---- Ratios ----

/// The ratio of the coefficients of two rods does not depend on the reference rod that they share,
/// up to rounding. With d(i, j) the coefficient of rod i with reference rod j, and operations that
/// round by no more than the `n`-th part of their result, the products d(1, 1) d(2, 2) and
/// d(1, 2) d(2, 1) differ by no more than 192 times the `n`-th part of the second.
pub proof fn law_ratios_ignore_reference<K: Arithmetic>(
    k: &K,
    n: int,
    l1: Double,
    l2: Double,
    r1: Double,
    r2: Double,
    d11: Diffusion,
    d12: Diffusion,
    d21: Diffusion,
    d22: Diffusion,
)
    requires
        steady(k),
        n >= 96,
        rounds_within(k, n),
        diffusion_for_length_gives(k, l1, r1, d11),
        diffusion_for_length_gives(k, l1, r2, d12),
        diffusion_for_length_gives(k, l2, r1, d21),
        diffusion_for_length_gives(k, l2, r2, d22),
        coefficients_in_range(k, l1, r1, d11),
        coefficients_in_range(k, l1, r2, d12),
        coefficients_in_range(k, l2, r1, d21),
        coefficients_in_range(k, l2, r2, d22),
    ensures
        within(
            n,
            192,
            d11.d_parallel.value() * d22.d_parallel.value(),
            d12.d_parallel.value() * d21.d_parallel.value(),
        ),
        within(
            n,
            192,
            d11.d_perp.value() * d22.d_perp.value(),
            d12.d_perp.value() * d21.d_perp.value(),
        ),
        within(n, 192, d11.d_r.value() * d22.d_r.value(), d12.d_r.value() * d21.d_r.value()),
{
    law_steady_is_single_valued(k);
    let (t1, f1) = lemma_terms(k, l1, r1, d11);
    let (t2, f2) = lemma_terms(k, l2, r2, d22);
    let (t12, f12) = lemma_terms(k, l1, r2, d12);
    let (t21, f21) = lemma_terms(k, l2, r1, d21);
    assert(t12 == t1 && t21 == t2 && f12 == f2 && f21 == f1);
    let s1 = lemma_translation(k, n, l1, r1, t1, f1, d11);
    let s2 = lemma_translation(k, n, l2, r2, t2, f2, d22);
    let s12 = lemma_translation(k, n, l1, r2, t1, f2, d12);
    let s21 = lemma_translation(k, n, l2, r1, t2, f1, d21);
    assert(s12 == s1 && s21 == s2);
    let q1 = lemma_rotation(k, n, l1, r1, t1, f1, d11);
    let q2 = lemma_rotation(k, n, l2, r2, t2, f2, d22);
    let q12 = lemma_rotation(k, n, l1, r2, t1, f2, d12);
    let q21 = lemma_rotation(k, n, l2, r1, t2, f1, d21);
    assert(q12 == q1 && q21 == q2);
    let b1 = f1.denominator.value();
    let b2 = f2.denominator.value();
    lemma_cross_products(
        n,
        16,
        d11.d_parallel.value(),
        d12.d_parallel.value(),
        d21.d_parallel.value(),
        d22.d_parallel.value(),
        l1.value(),
        l2.value(),
        b1,
        b2,
        four(),
        r1.value(),
        r2.value(),
        s1.value(),
        s2.value(),
    );
    lemma_unit();
    lemma_not_zero(unit(), l1.value(), b1);
    lemma_not_zero(unit(), l2.value(), b2);
    lemma_cross_products(
        n,
        16,
        d11.d_perp.value(),
        d12.d_perp.value(),
        d21.d_perp.value(),
        d22.d_perp.value(),
        unit() * l1.value(),
        unit() * l2.value(),
        b1,
        b2,
        half() * four(),
        r1.value(),
        r2.value(),
        s1.value(),
        s2.value(),
    );
    lemma_cross_products(
        n,
        16,
        d11.d_r.value(),
        d12.d_r.value(),
        d21.d_r.value(),
        d22.d_r.value(),
        l1.value() * l1.value() * l1.value(),
        l2.value() * l2.value() * l2.value(),
        b1,
        b2,
        twenty_four() * unit() * unit(),
        r1.value(),
        r2.value(),
        q1.value(),
        q2.value(),
    );
}

proof fn lemma_not_zero(u: int, l: int, b: int)
    requires
        u != 0,
        l * b != 0,
    ensures
        (u * l) * b != 0,
        (l * l * l) * b != 0,
{
    assert(l != 0 && b != 0) by (nonlinear_arith)
        requires
            l * b != 0,
    ;
    assert((u * l) * b != 0) by (nonlinear_arith)
        requires
            u != 0,
            l != 0,
            b != 0,
    ;
    assert(l * l != 0) by (nonlinear_arith)
        requires
            l != 0,
    ;
    let square = l * l;
    assert(square * l != 0) by (nonlinear_arith)
        requires
            square != 0,
            l != 0,
    ;
    let cube = square * l;
    assert(cube * b != 0) by (nonlinear_arith)
        requires
            cube != 0,
            b != 0,
    ;
}

} // verus!
