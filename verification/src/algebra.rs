//! Identities of real numbers.

use vstd::prelude::*;

verus! {

// ---- Two and three factors ----

pub(crate) proof fn lemma_swap(a: real, b: real)
    ensures
        a * b == b * a,
{
    assert(a * b == b * a) by (nonlinear_arith);
}

pub(crate) proof fn lemma_grouped(a: real, b: real, c: real)
    ensures
        (a * b) * c == a * (b * c),
{
    assert((a * b) * c == a * (b * c)) by (nonlinear_arith);
}

pub(crate) proof fn lemma_sum_times(a: real, b: real, c: real)
    ensures
        (a + b) * c == a * c + b * c,
        (a - b) * c == a * c - b * c,
{
    assert((a + b) * c == a * c + b * c) by (nonlinear_arith);
    assert((a - b) * c == a * c - b * c) by (nonlinear_arith);
}

pub(crate) proof fn lemma_times_sum(a: real, b: real, c: real)
    ensures
        a * (b + c) == a * b + a * c,
        a * (b - c) == a * b - a * c,
{
    assert(a * (b + c) == a * b + a * c) by (nonlinear_arith);
    assert(a * (b - c) == a * b - a * c) by (nonlinear_arith);
}

pub(crate) proof fn lemma_times_zero(x: real)
    ensures
        x * 0real == 0real,
{
    assert(x * 0real == 0real) by (nonlinear_arith);
}

pub(crate) proof fn lemma_minus_times(a: real, b: real)
    ensures
        (-a) * b == -(a * b),
{
    assert((-a) * b == -(a * b)) by (nonlinear_arith);
}

pub(crate) proof fn lemma_last_two(a: real, b: real, c: real)
    ensures
        (a * b) * c == (a * c) * b,
{
    lemma_grouped(a, b, c);
    lemma_swap(b, c);
    lemma_grouped(a, c, b);
}

pub(crate) proof fn lemma_quotient(a: real, b: real)
    requires
        b != 0real,
    ensures
        (a / b) * b == a,
{
    assert((a / b) * b == a) by (nonlinear_arith)
        requires
            b != 0real,
    ;
}

pub(crate) proof fn lemma_product_positive(a: real, b: real)
    requires
        a > 0real,
        b > 0real,
    ensures
        a * b > 0real,
{
    assert(a * b > 0real) by (nonlinear_arith)
        requires
            a > 0real,
            b > 0real,
    ;
}

pub(crate) proof fn lemma_positive_factor(x: real, c: real)
    requires
        c > 0real,
    ensures
        x * c > 0real <==> x > 0real,
        x * c < 0real <==> x < 0real,
{
    if x > 0real {
        lemma_product_positive(x, c);
    } else if x < 0real {
        lemma_product_positive(-x, c);
        lemma_minus_times(x, c);
    } else {
        lemma_swap(x, c);
        lemma_times_zero(c);
    }
}

pub(crate) proof fn lemma_two_pairs(a: real, b: real, c: real, d: real)
    ensures
        (a * b) * (c * d) == (a * c) * (b * d),
{
    lemma_grouped(a, b, c * d);
    lemma_grouped(b, c, d);
    lemma_swap(b, c);
    lemma_grouped(c, b, d);
    lemma_grouped(a, c, b * d);
}

// ---- Rods ----

pub(crate) proof fn lemma_difference_of_products(a: real, b: real, p: real, c: real)
    ensures
        (a * p) * c - (b * p) * c == ((a - b) * p) * c,
{
    lemma_sum_times(a, b, p);
    lemma_sum_times(a * p, b * p, c);
}

pub(crate) proof fn lemma_opposite_products(a: real, p: real, c: real)
    ensures
        (-a * p) * c + (a * p) * c == 0real,
{
    lemma_minus_times(a, p);
    lemma_minus_times(a * p, c);
}

pub(crate) proof fn lemma_along_and_across(w: real, c: real, s: real)
    ensures
        (w * c) * s == (w * s) * c,
        (w * c) * c + (w * s) * s == w * (c * c + s * s),
{
    lemma_last_two(w, c, s);
    lemma_grouped(w, c, c);
    lemma_grouped(w, s, s);
    lemma_times_sum(w, c * c, s * s);
}

pub(crate) proof fn lemma_lever(o: real, c: real, s: real, fx: real, fy: real)
    ensures
        o * (c * fy - s * fx) == (o * c) * fy - (o * s) * fx,
{
    lemma_times_sum(o, c * fy, s * fx);
    lemma_grouped(o, c, fy);
    lemma_grouped(o, s, fx);
}

// ---- Repulsion ----

pub(crate) proof fn lemma_cube_of_product(x: real, q: real)
    ensures
        (x * x * x) * (q * q * q) == (x * q) * (x * q) * (x * q),
{
    lemma_two_pairs(x * x, x, q * q, q);
    lemma_two_pairs(x, x, q, q);
}

pub(crate) proof fn lemma_coefficient(y: real, x: real, q: real, p: real)
    ensures
        ((y * x) * (2real * x - 1real)) * (q * p * p) == (y * q) * (x * p) * (2real * (x * p) - p),
{
    lemma_two_pairs(y * x, 2real * x - 1real, q * p, p);
    lemma_two_pairs(y, x, q, p);
    lemma_sum_times(2real * x, 1real, p);
    lemma_grouped(2real, x, p);
    assert((2real * x - 1real) * p == 2real * (x * p) - p);
}

pub(crate) proof fn lemma_scaled_square(x: real, y: real, a: real, w: real)
    ensures
        (x * a) * (x * a) + (y * a) * (y * a) == (a * a) * (x * x + y * y),
        (a * a) * (w * w) == (a * w) * (a * w),
{
    lemma_two_pairs(x, a, x, a);
    lemma_two_pairs(y, a, y, a);
    lemma_sum_times(x * x, y * y, a * a);
    lemma_swap(x * x + y * y, a * a);
    lemma_two_pairs(a, a, w, w);
}

// ---- Motion ----

pub(crate) proof fn lemma_shaken(c: real, s: real, x: real, y: real)
    ensures
        (c * x - s * y) * c + (s * x + c * y) * s == (c * c + s * s) * x,
        (s * x + c * y) * c - (c * x - s * y) * s == (c * c + s * s) * y,
{
    lemma_sum_times(c * x, s * y, c);
    lemma_sum_times(c * x, s * y, s);
    lemma_sum_times(s * x, c * y, s);
    lemma_sum_times(s * x, c * y, c);
    lemma_last_two(c, x, c);
    lemma_last_two(s, y, c);
    lemma_last_two(s, x, s);
    lemma_last_two(c, y, s);
    lemma_last_two(s, x, c);
    lemma_last_two(c, y, c);
    lemma_last_two(c, x, s);
    lemma_last_two(s, y, s);
    lemma_swap(c, s);
    lemma_sum_times(c * c, s * s, x);
    lemma_sum_times(c * c, s * s, y);
}

pub(crate) proof fn lemma_double_angle(c: real, s: real)
    ensures
        (c * c - s * s) * c + (2real * (s * c)) * s == c * (c * c + s * s),
        (2real * (s * c)) * c - (c * c - s * s) * s == s * (c * c + s * s),
{
    lemma_sum_times(c * c, s * s, c);
    lemma_sum_times(c * c, s * s, s);
    lemma_grouped(2real, s * c, s);
    lemma_grouped(2real, s * c, c);
    lemma_last_two(s, c, s);
    lemma_grouped(s, c, c);
    lemma_swap(s, c * c);
    lemma_swap(c, c * c + s * s);
    lemma_swap(s, c * c + s * s);
}

pub(crate) proof fn lemma_tensor(q: real, c: real, s: real, c2: real, s2: real)
    ensures
        (q * (3real + c2)) * c + (q * s2) * s == q * (3real * c + (c2 * c + s2 * s)),
        (q * s2) * c + (q * (3real - c2)) * s == q * (3real * s + (s2 * c - c2 * s)),
        (q * s2) * c - (q * (3real + c2)) * s == q * ((s2 * c - c2 * s) - 3real * s),
        (q * (3real - c2)) * c - (q * s2) * s == q * (3real * c - (c2 * c + s2 * s)),
{
    lemma_grouped(q, 3real + c2, c);
    lemma_grouped(q, 3real + c2, s);
    lemma_grouped(q, 3real - c2, c);
    lemma_grouped(q, 3real - c2, s);
    lemma_grouped(q, s2, c);
    lemma_grouped(q, s2, s);
    lemma_sum_times(3real, c2, c);
    lemma_sum_times(3real, c2, s);
    lemma_times_sum(q, (3real + c2) * c, s2 * s);
    lemma_times_sum(q, s2 * c, (3real - c2) * s);
    lemma_times_sum(q, s2 * c, (3real + c2) * s);
    lemma_times_sum(q, (3real - c2) * c, s2 * s);
    assert((3real + c2) * c + s2 * s == 3real * c + (c2 * c + s2 * s));
    assert(s2 * c + (3real - c2) * s == 3real * s + (s2 * c - c2 * s));
    assert(s2 * c - (3real + c2) * s == (s2 * c - c2 * s) - 3real * s);
    assert((3real - c2) * c - s2 * s == 3real * c - (c2 * c + s2 * s));
}

pub(crate) proof fn lemma_multiple(q: real, n: real, x: real)
    ensures
        q * (n * x) == n * (q * x),
        (q * n) * x == n * (q * x),
{
    lemma_grouped(q, n, x);
    lemma_swap(q, n);
    lemma_grouped(n, q, x);
}

pub(crate) proof fn lemma_four_times(q: real, x: real)
    ensures
        q * (3real * x + x) == (q * 4real) * x,
        2real * (q * (x - 3real * x)) == -((q * 4real) * x),
        2real * (q * (3real * x - x)) == (q * 4real) * x,
{
    lemma_multiple(q, 4real, x);
    lemma_multiple(q, 2real, x);
    lemma_multiple(q, -2real, x);
    assert(3real * x + x == 4real * x);
    assert(x - 3real * x == -2real * x);
    assert(3real * x - x == 2real * x);
}

/// What the mobility of a rod at an angle does to directions along and across it.
pub(crate) proof fn lemma_turned(
    q: real,
    d: real,
    c: real,
    s: real,
    c2: real,
    s2: real,
    xx: real,
    xy: real,
    yy: real,
)
    requires
        q * 4real == d,
        c * c + s * s == 1real,
        c2 == c * c - s * s,
        s2 == 2real * (s * c),
        xx == q * (3real + c2),
        xy == q * s2,
        yy == q * (3real - c2),
    ensures
        xx * c + xy * s == d * c,
        xy * c + yy * s == d * s,
        2real * (xy * c - xx * s) == -(d * s),
        2real * (yy * c - xy * s) == d * c,
{
    lemma_double_angle(c, s);
    assert(c2 * c + s2 * s == c);
    assert(s2 * c - c2 * s == s);
    lemma_tensor(q, c, s, c2, s2);
    lemma_four_times(q, c);
    lemma_four_times(q, s);
}

pub(crate) proof fn lemma_drift_along(
    nx: real,
    ny: real,
    a: real,
    b: real,
    dt: real,
    c: real,
    s: real,
)
    ensures
        (nx + a * dt) * c + (ny + b * dt) * s == (nx * c + ny * s) + (a * c + b * s) * dt,
        (ny + b * dt) * c - (nx + a * dt) * s == (ny * c - nx * s) + (b * c - a * s) * dt,
{
    lemma_sum_times(nx, a * dt, c);
    lemma_sum_times(nx, a * dt, s);
    lemma_sum_times(ny, b * dt, c);
    lemma_sum_times(ny, b * dt, s);
    lemma_last_two(a, dt, c);
    lemma_last_two(a, dt, s);
    lemma_last_two(b, dt, c);
    lemma_last_two(b, dt, s);
    lemma_sum_times(a * c, b * s, dt);
    lemma_sum_times(b * c, a * s, dt);
}

pub(crate) proof fn lemma_pull(
    xx: real,
    xy: real,
    yy: real,
    fx: real,
    fy: real,
    c: real,
    s: real,
)
    ensures
        (xx * fx + xy * fy) * c + (xy * fx + yy * fy) * s == (xx * c + xy * s) * fx + (xy * c + yy
            * s) * fy,
        (xy * fx + yy * fy) * c - (xx * fx + xy * fy) * s == (xy * c - xx * s) * fx + (yy * c - xy
            * s) * fy,
{
    lemma_sum_times(xx * fx, xy * fy, c);
    lemma_sum_times(xx * fx, xy * fy, s);
    lemma_sum_times(xy * fx, yy * fy, c);
    lemma_sum_times(xy * fx, yy * fy, s);
    lemma_last_two(xx, fx, c);
    lemma_last_two(xy, fy, c);
    lemma_last_two(xx, fx, s);
    lemma_last_two(xy, fy, s);
    lemma_last_two(xy, fx, c);
    lemma_last_two(yy, fy, c);
    lemma_last_two(xy, fx, s);
    lemma_last_two(yy, fy, s);
    lemma_sum_times(xx * c, xy * s, fx);
    lemma_sum_times(xy * c, yy * s, fy);
    lemma_sum_times(xy * c, xx * s, fx);
    lemma_sum_times(yy * c, xy * s, fy);
}

pub(crate) proof fn lemma_force_along(d: real, c: real, s: real, fx: real, fy: real)
    ensures
        (d * c) * fx + (d * s) * fy == d * (fx * c + fy * s),
        -(d * s) * fx + (d * c) * fy == d * (fy * c - fx * s),
{
    lemma_grouped(d, c, fx);
    lemma_grouped(d, s, fy);
    lemma_grouped(d, s, fx);
    lemma_grouped(d, c, fy);
    lemma_swap(c, fx);
    lemma_swap(s, fy);
    lemma_swap(s, fx);
    lemma_swap(c, fy);
    lemma_minus_times(d * s, fx);
    lemma_times_sum(d, fx * c, fy * s);
    lemma_times_sum(d, fy * c, fx * s);
}

pub(crate) proof fn lemma_twice_across(p: real, q: real, fx: real, fy: real, dt: real)
    ensures
        2real * ((p * fx + q * fy) * dt) == ((2real * p) * fx + (2real * q) * fy) * dt,
{
    lemma_grouped(2real, p, fx);
    lemma_grouped(2real, q, fy);
    lemma_grouped(2real, p * fx + q * fy, dt);
    assert((2real * p) * fx + (2real * q) * fy == 2real * (p * fx + q * fy));
}

/// A move in the frame of the channel, seen along and across a direction.
pub(crate) proof fn lemma_body_frame(
    c: real,
    s: real,
    d: real,
    xx: real,
    xy: real,
    yy: real,
    fx: real,
    fy: real,
    dt: real,
    nx: real,
    ny: real,
    dx: real,
    dy: real,
)
    requires
        xx * c + xy * s == d * c,
        xy * c + yy * s == d * s,
        2real * (xy * c - xx * s) == -(d * s),
        2real * (yy * c - xy * s) == d * c,
        dx - nx == (xx * fx + xy * fy) * dt,
        dy - ny == (xy * fx + yy * fy) * dt,
    ensures
        dx * c + dy * s == d * (fx * c + fy * s) * dt + (nx * c + ny * s),
        2real * (dy * c - dx * s - (ny * c - nx * s)) == d * (fy * c - fx * s) * dt,
{
    let p = xy * c - xx * s;
    let q = yy * c - xy * s;
    let a = xx * fx + xy * fy;
    let b = xy * fx + yy * fy;
    assert(dx == nx + a * dt && dy == ny + b * dt);
    lemma_drift_along(nx, ny, a, b, dt, c, s);
    lemma_pull(xx, xy, yy, fx, fy, c, s);
    lemma_force_along(d, c, s, fx, fy);
    assert(a * c + b * s == d * (fx * c + fy * s));
    assert(b * c - a * s == p * fx + q * fy);
    lemma_twice_across(p, q, fx, fy, dt);
    assert((2real * p) * fx + (2real * q) * fy == d * (fy * c - fx * s));
}

pub(crate) proof fn lemma_no_zero_product(a: real, b: real)
    requires
        b != 0real,
        a * b == 0real,
    ensures
        a == 0real,
{
    if b > 0real {
        lemma_positive_factor(a, b);
    } else {
        lemma_swap(a, b);
        lemma_minus_times(b, a);
        lemma_swap(-b, a);
        lemma_positive_factor(a, -b);
    }
}

pub(crate) proof fn lemma_square(x: real)
    ensures
        x * x >= 0real,
        x != 0real ==> x * x > 0real,
{
    if x > 0real {
        lemma_product_positive(x, x);
    } else if x < 0real {
        lemma_product_positive(-x, -x);
        lemma_minus_times(x, -x);
        lemma_swap(x, -x);
        lemma_minus_times(x, x);
    } else {
        lemma_times_zero(x);
    }
}

} // verus!
