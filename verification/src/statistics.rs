//! What the summaries of a case measure: means and spreads of passage times and of displacements,
//! where nothing is rounded.

use vstd::prelude::*;
use crate::config::{Case, Mode, Physics, L_PERIOD};
use crate::double::{weight, Double};
use crate::exact::{
    exact, law_exact_value, lemma_constants, lemma_divisor, lemma_negated, lemma_sign, real_of,
    worth,
};
use crate::formula::{gives, lit, minus, nat_of, num, over, steady, times, Arithmetic, HALF, TWO};
use crate::model::{
    common_len, count_of, displacement_means_gives, displacements_gives, first_passage_summary,
    fixed_time_summary, mobility_outcome, moments_gives, passage_means_gives, passage_times,
    square_sum_of, sum_of, DisplacementMeans, FixedTimeRow, PassageMeans, SummaryRow, STATUS_OK,
};

verus! {

// ---- Sums and spreads of real numbers ----

/// The sum of `n` numbers.
pub open spec fn total(n: nat, f: spec_fn(int) -> real) -> real
    decreases n,
{
    if n == 0 {
        0real
    } else {
        total((n - 1) as nat, f) + f(n - 1)
    }
}

/// The sum of the squares of `n` numbers.
pub open spec fn squares(n: nat, f: spec_fn(int) -> real) -> real
    decreases n,
{
    if n == 0 {
        0real
    } else {
        squares((n - 1) as nat, f) + f(n - 1) * f(n - 1)
    }
}

/// The sum of the squared deviations of `n` numbers from a number.
pub open spec fn spread(n: nat, f: spec_fn(int) -> real, m: real) -> real
    decreases n,
{
    if n == 0 {
        0real
    } else {
        spread((n - 1) as nat, f, m) + (f(n - 1) - m) * (f(n - 1) - m)
    }
}

proof fn lemma_spread(n: nat, f: spec_fn(int) -> real, m: real)
    ensures
        spread(n, f, m) == squares(n, f) - 2real * m * total(n, f) + (n as int) as real * (m * m),
    decreases n,
{
    if n > 0 {
        let p = (n - 1) as nat;
        lemma_spread(p, f, m);
        let x = f(n - 1);
        let t = total(p, f);
        let c = (p as int) as real;
        let d = (n as int) as real;
        assert(d == c + 1real);
        assert((x - m) * (x - m) == x * x - 2real * m * x + m * m) by (nonlinear_arith);
        assert(2real * m * (t + x) == 2real * m * t + 2real * m * x) by (nonlinear_arith);
        assert(d * (m * m) == c * (m * m) + m * m) by (nonlinear_arith)
            requires
                d == c + 1real,
        ;
    } else {
        assert(2real * m * 0real == 0real) by (nonlinear_arith);
        assert(0real * (m * m) == 0real) by (nonlinear_arith);
    }
}

/// The mean of the squares less the square of the mean is the mean squared deviation.
proof fn lemma_variance(n: nat, f: spec_fn(int) -> real, m: real, q: real)
    requires
        (n as int) as real * m == total(n, f),
        (n as int) as real * q == squares(n, f),
    ensures
        (n as int) as real * (q - m * m) == spread(n, f, m),
{
    lemma_spread(n, f, m);
    let c = (n as int) as real;
    let t = total(n, f);
    assert(c * (q - m * m) == c * q - 2real * m * t + c * (m * m)) by (nonlinear_arith)
        requires
            c * m == t,
    ;
}

proof fn lemma_spread_from_zero(n: nat, f: spec_fn(int) -> real, m: real)
    ensures
        spread(n, f, m) >= 0real,
    decreases n,
{
    if n > 0 {
        lemma_spread_from_zero((n - 1) as nat, f, m);
        let d = f(n - 1) - m;
        assert(d * d >= 0real) by (nonlinear_arith);
    }
}

proof fn lemma_no_spread(n: nat, f: spec_fn(int) -> real, m: real)
    requires
        spread(n, f, m) == 0real,
    ensures
        forall|i: int| 0 <= i < n ==> #[trigger] f(i) == m,
    decreases n,
{
    if n > 0 {
        let d = f(n - 1) - m;
        lemma_spread_from_zero((n - 1) as nat, f, m);
        assert(d * d >= 0real) by (nonlinear_arith);
        lemma_no_spread((n - 1) as nat, f, m);
        assert(d == 0real) by (nonlinear_arith)
            requires
                d * d == 0real,
        ;
    }
}

proof fn lemma_all_equal(n: nat, f: spec_fn(int) -> real, x: real)
    requires
        forall|i: int| 0 <= i < n ==> #[trigger] f(i) == x,
    ensures
        total(n, f) == (n as int) as real * x,
        spread(n, f, x) == 0real,
    decreases n,
{
    if n > 0 {
        lemma_all_equal((n - 1) as nat, f, x);
        let c = ((n - 1) as int) as real;
        let d = (n as int) as real;
        assert(f(n - 1) == x);
        assert(d * x == c * x + x) by (nonlinear_arith)
            requires
                d == c + 1real,
        ;
        assert((x - x) * (x - x) == 0real) by (nonlinear_arith);
    } else {
        assert(0real * x == 0real) by (nonlinear_arith);
    }
}

proof fn lemma_scaled(
    n: nat,
    f: spec_fn(int) -> real,
    g: spec_fn(int) -> real,
    c: real,
    a: real,
    m: real,
)
    requires
        forall|i: int| 0 <= i < n ==> #[trigger] g(i) == c * f(i) + a,
    ensures
        total(n, g) == c * total(n, f) + (n as int) as real * a,
        spread(n, g, c * m + a) == c * c * spread(n, f, m),
    decreases n,
{
    if n > 0 {
        let p = (n - 1) as nat;
        lemma_scaled(p, f, g, c, a, m);
        let x = f(n - 1);
        let y = g(n - 1);
        let t = total(p, f);
        let s = spread(p, f, m);
        let d = (p as int) as real;
        let e = (n as int) as real;
        assert(y == c * x + a);
        assert(c * (t + x) + e * a == (c * t + d * a) + (c * x + a)) by (nonlinear_arith)
            requires
                e == d + 1real,
        ;
        assert((y - (c * m + a)) * (y - (c * m + a)) == c * c * ((x - m) * (x - m)))
            by (nonlinear_arith)
            requires
                y == c * x + a,
        ;
        assert(c * c * (s + (x - m) * (x - m)) == c * c * s + c * c * ((x - m) * (x - m)))
            by (nonlinear_arith);
    } else {
        assert(c * 0real + 0real * a == 0real) by (nonlinear_arith);
        assert(c * c * 0real == 0real) by (nonlinear_arith);
    }
}

// ---- Moments ----

/// The numbers that some patterns stand for.
pub open spec fn reals(values: Seq<Double>) -> spec_fn(int) -> real {
    |i: int| real_of(values[i])
}

/// Whether the mean and the mean square of some values are not rounded.
pub open spec fn moments_exact<K: Arithmetic>(k: &K, values: Seq<Double>) -> bool {
    &&& 0 < values.len() <= u64::MAX
    &&& exact(k, over(sum_of(values, values.len()), nat_of(values.len() as u64)))
    &&& exact(k, over(square_sum_of(values, values.len()), nat_of(values.len() as u64)))
}

proof fn lemma_sums<K: Arithmetic>(k: &K, values: Seq<Double>, n: nat)
    requires
        n <= values.len(),
    ensures
        worth(k, sum_of(values, n)) == total(n, reals(values)),
        worth(k, square_sum_of(values, n)) == squares(n, reals(values)),
    decreases n,
{
    reveal_with_fuel(worth, 4);
    if n > 0 {
        lemma_sums(k, values, (n - 1) as nat);
        assert(reals(values)(n - 1) == real_of(values[n - 1]));
    } else {
        lemma_sign(Double::zero());
        assert((Double { bits: 0 }).value() == 0) by {
            assert(weight(0) == 0);
        }
    }
}

/// Where nothing is rounded, the first moment is the mean and the second the mean square.
pub proof fn law_moments<K: Arithmetic>(k: &K, values: Seq<Double>, first: Double, second: Double)
    requires
        steady(k),
        moments_gives(k, values, first, second),
        moments_exact(k, values),
    ensures
        first.finite(),
        second.finite(),
        (values.len() as int) as real * real_of(first) == total(values.len(), reals(values)),
        (values.len() as int) as real * real_of(second) == squares(values.len(), reals(values)),
{
    let n = nat_of(values.len() as u64);
    let a = sum_of(values, values.len());
    let b = square_sum_of(values, values.len());
    lemma_sums(k, values, values.len());
    law_exact_value(k, over(a, n), first);
    law_exact_value(k, over(b, n), second);
    lemma_divisor(k, a, n, first);
    lemma_divisor(k, b, n, second);
    assert(worth(k, n) == (values.len() as int) as real);
    let c = (values.len() as int) as real;
    let x = real_of(first);
    let y = real_of(second);
    assert(c * x == x * c && c * y == y * c) by (nonlinear_arith);
}

// ---- Passages ----

/// Whether the means over passage times are not rounded.
pub open spec fn passages_exact<K: Arithmetic>(
    k: &K,
    times_passed: Seq<Double>,
    means: PassageMeans,
) -> bool {
    let t1 = num(means.t1);
    let period = lit(L_PERIOD);
    &&& moments_exact(k, times_passed)
    &&& exact(k, over(period, t1))
    &&& exact(
        k,
        over(
            times(
                times(times(lit(HALF), period), period),
                minus(num(means.t2), times(t1, t1)),
            ),
            times(times(t1, t1), t1),
        ),
    )
}

/// The effective diffusion of a case is the mean squared deviation of its passage times from their
/// mean T1, over 2 T1^3, for a period of length 1; the velocity is one period in the mean time.
pub proof fn law_passage_means<K: Arithmetic>(
    k: &K,
    times_passed: Seq<Double>,
    means: PassageMeans,
)
    requires
        steady(k),
        passage_means_gives(k, times_passed, means),
        passages_exact(k, times_passed, means),
    ensures
        ({
            let n = (times_passed.len() as int) as real;
            let f = reals(times_passed);
            let t = real_of(means.t1);
            &&& n * t == total(times_passed.len(), f)
            &&& n * real_of(means.t2) == squares(times_passed.len(), f)
            &&& t != 0real
            &&& real_of(means.velocity) * t == 1real
            &&& real_of(means.d_eff) * (2real * n * (t * t * t)) == spread(
                times_passed.len(),
                f,
                t,
            )
        }),
{
    let t1 = num(means.t1);
    let period = lit(L_PERIOD);
    let upper = times(
        times(times(lit(HALF), period), period),
        minus(num(means.t2), times(t1, t1)),
    );
    let lower = times(times(t1, t1), t1);
    law_moments(k, times_passed, means.t1, means.t2);
    lemma_divisor(k, period, t1, means.velocity);
    lemma_divisor(k, upper, lower, means.d_eff);
    lemma_constants();
    let n = (times_passed.len() as int) as real;
    let f = reals(times_passed);
    let t = real_of(means.t1);
    let q = real_of(means.t2);
    let d = real_of(means.d_eff);
    let h = real_of(Double { bits: HALF });
    lemma_variance(times_passed.len(), f, t, q);
    assert(worth(k, upper) == h * 1real * 1real * (q - t * t) && worth(k, lower) == t * t * t) by {
        reveal_with_fuel(worth, 5);
    }
    let v = q - t * t;
    let cube = t * t * t;
    assert(d * (2real * n * cube) == n * v) by (nonlinear_arith)
        requires
            d * cube == h * 1real * 1real * v,
            h * 2real == 1real,
    {
        assert(d * (2real * n * cube) == 2real * n * (d * cube));
        assert(2real * n * (h * 1real * 1real * v) == (h * 2real) * (n * v));
    }
}

/// The effective diffusion is not negative, and it is zero exactly when all passages took the same
/// time.
pub proof fn law_passages_spread<K: Arithmetic>(
    k: &K,
    times_passed: Seq<Double>,
    means: PassageMeans,
)
    requires
        steady(k),
        passage_means_gives(k, times_passed, means),
        passages_exact(k, times_passed, means),
        real_of(means.t1) > 0real,
    ensures
        real_of(means.d_eff) >= 0real,
        real_of(means.d_eff) == 0real <==> forall|i: int, j: int|
            0 <= i < times_passed.len() && 0 <= j < times_passed.len() ==> real_of(
                #[trigger] times_passed[i],
            ) == real_of(#[trigger] times_passed[j]),
{
    law_passage_means(k, times_passed, means);
    let len = times_passed.len();
    let n = (len as int) as real;
    let f = reals(times_passed);
    let t = real_of(means.t1);
    let d = real_of(means.d_eff);
    let s = spread(len, f, t);
    lemma_spread_from_zero(len, f, t);
    let square = t * t;
    let weight = 2real * n * (t * t * t);
    assert(weight > 0real) by (nonlinear_arith)
        requires
            weight == 2real * n * (t * t * t),
            n > 0real,
            t > 0real,
    {
        assert(t * t > 0real);
        assert(t * t * t > 0real);
        assert(2real * n > 0real);
    }
    assert(d >= 0real && (d == 0real <==> s == 0real)) by (nonlinear_arith)
        requires
            d * weight == s,
            s >= 0real,
            weight > 0real,
    ;
    if s == 0real {
        lemma_no_spread(len, f, t);
        assert forall|i: int, j: int|
            0 <= i < times_passed.len() && 0 <= j < times_passed.len() implies real_of(
            #[trigger] times_passed[i],
        ) == real_of(#[trigger] times_passed[j]) by {
            assert(f(i) == t && f(j) == t);
        }
    }
    if forall|i: int, j: int|
        0 <= i < times_passed.len() && 0 <= j < times_passed.len() ==> real_of(
            #[trigger] times_passed[i],
        ) == real_of(#[trigger] times_passed[j]) {
        let x = real_of(times_passed[0]);
        assert forall|i: int| 0 <= i < len implies #[trigger] f(i) == x by {
            assert(real_of(times_passed[i]) == real_of(times_passed[0]));
        }
        lemma_all_equal(len, f, x);
        assert(x == t) by (nonlinear_arith)
            requires
                n * t == n * x,
                n > 0real,
        ;
    }
}

/// Passages that take `c` times as long have `c` times the mean time, the `c`-th part of the
/// velocity and the `c`-th part of the effective diffusion.
pub proof fn law_passages_scale<K: Arithmetic>(
    k: &K,
    a: Seq<Double>,
    b: Seq<Double>,
    c: real,
    means_a: PassageMeans,
    means_b: PassageMeans,
)
    requires
        steady(k),
        passage_means_gives(k, a, means_a),
        passage_means_gives(k, b, means_b),
        passages_exact(k, a, means_a),
        passages_exact(k, b, means_b),
        a.len() == b.len(),
        forall|i: int| 0 <= i < a.len() ==> real_of(#[trigger] b[i]) == c * real_of(a[i]),
        c != 0real,
    ensures
        real_of(means_b.t1) == c * real_of(means_a.t1),
        c * real_of(means_b.velocity) == real_of(means_a.velocity),
        c * real_of(means_b.d_eff) == real_of(means_a.d_eff),
{
    law_passage_means(k, a, means_a);
    law_passage_means(k, b, means_b);
    let len = a.len();
    let n = (len as int) as real;
    let f = reals(a);
    let g = reals(b);
    let t = real_of(means_a.t1);
    let u = real_of(means_b.t1);
    assert forall|i: int| 0 <= i < len implies #[trigger] g(i) == c * f(i) + 0real by {
        assert(real_of(b[i]) == c * real_of(a[i]));
    }
    lemma_scaled(len, f, g, c, 0real, t);
    assert(u == c * t) by (nonlinear_arith)
        requires
            n * u == c * (n * t) + n * 0real,
            n > 0real,
    ;
    let v = real_of(means_a.velocity);
    let w = real_of(means_b.velocity);
    assert(c * w == v) by (nonlinear_arith)
        requires
            v * t == 1real,
            w * (c * t) == 1real,
            t != 0real,
    ;
    let d = real_of(means_a.d_eff);
    let e = real_of(means_b.d_eff);
    let cube = t * t * t;
    let s = spread(len, f, t);
    assert(c * t + 0real == u);
    let base = 2real * n * cube;
    assert(2real * n * (u * u * u) == c * c * c * base) by (nonlinear_arith)
        requires
            u == c * t,
            base == 2real * n * (t * t * t),
    ;
    assert(cube != 0real) by (nonlinear_arith)
        requires
            cube == t * t * t,
            t != 0real,
    {
        assert(t * t != 0real);
    }
    assert(base != 0real) by (nonlinear_arith)
        requires
            base == 2real * n * cube,
            n > 0real,
            cube != 0real,
    ;
    assert(e * (c * c * c * base) == c * c * (d * base));
    let square = c * c;
    assert(square != 0real) by (nonlinear_arith)
        requires
            square == c * c,
            c != 0real,
    ;
    assert(c * e == d) by (nonlinear_arith)
        requires
            e * (c * c * c * base) == c * c * (d * base),
            square == c * c,
            square != 0real,
            base != 0real,
    {
        assert(e * (c * c * c * base) == (square * base) * (c * e));
        assert(c * c * (d * base) == (square * base) * d);
        assert(square * base != 0real);
    }
}

// ---- Displacements ----

/// How far trial `i` came from its start.
pub open spec fn moved_by(starts: Seq<Double>, ends: Seq<Double>) -> spec_fn(int) -> real {
    |i: int| real_of(ends[i]) - real_of(starts[i])
}

/// How many trials have a start and an end.
pub open spec fn moved_count(starts: Seq<Double>, ends: Seq<Double>) -> nat {
    if starts.len() < ends.len() {
        starts.len()
    } else {
        ends.len()
    }
}

/// Whether the means over displacements are not rounded.
pub open spec fn displacements_exact<K: Arithmetic>(
    k: &K,
    starts: Seq<Double>,
    ends: Seq<Double>,
    physics: Physics,
    means: DisplacementMeans,
) -> bool {
    &&& forall|i: int|
        0 <= i < moved_count(starts, ends) ==> exact(
            k,
            minus(num(#[trigger] ends[i]), num(starts[i])),
        )
    &&& forall|moved: Seq<Double>| #[trigger]
        displacements_gives(k, starts, ends, moved) ==> moments_exact(k, moved)
    &&& forall|moved: Seq<Double>, square: Double| #[trigger]
        displacements_gives(k, starts, ends, moved) && #[trigger] moments_gives(
            k,
            moved,
            means.mean_dx,
            square,
        ) ==> exact(k, minus(num(square), times(num(means.mean_dx), num(means.mean_dx))))
    &&& exact(k, times(nat_of(physics.max_steps), num(physics.delta_t)))
    &&& exact(k, over(num(means.mean_dx), num(means.time)))
    &&& real_of(means.v_mean) != 0real ==> exact(
        k,
        over(lit(L_PERIOD), num(means.v_mean.absolute())),
    )
    &&& exact(k, over(num(means.var_dx), times(lit(TWO), num(means.time))))
}

proof fn lemma_same_sums(n: nat, f: spec_fn(int) -> real, g: spec_fn(int) -> real)
    requires
        forall|i: int| 0 <= i < n ==> #[trigger] f(i) == g(i),
    ensures
        total(n, f) == total(n, g),
        squares(n, f) == squares(n, g),
    decreases n,
{
    if n > 0 {
        lemma_same_sums((n - 1) as nat, f, g);
        assert(f(n - 1) == g(n - 1));
    }
}

/// The variance of a case is the mean squared deviation of its displacements from their mean. All
/// trials run for the time of all steps; the velocity is the mean displacement over that time, T1
/// the time of one period at that speed, and the effective diffusion half the variance over the
/// time.
pub proof fn law_displacement_means<K: Arithmetic>(
    k: &K,
    starts: Seq<Double>,
    ends: Seq<Double>,
    physics: Physics,
    means: DisplacementMeans,
)
    requires
        steady(k),
        displacement_means_gives(k, starts, ends, physics, means),
        displacements_exact(k, starts, ends, physics, means),
    ensures
        ({
            let len = moved_count(starts, ends);
            let n = (len as int) as real;
            let f = moved_by(starts, ends);
            let m = real_of(means.mean_dx);
            let time = real_of(means.time);
            let v = real_of(means.v_mean);
            &&& len > 0
            &&& n * m == total(len, f)
            &&& n * real_of(means.var_dx) == spread(len, f, m)
            &&& time == (physics.max_steps as int) as real * real_of(physics.delta_t)
            &&& time != 0real
            &&& v * time == m
            &&& v > 0real ==> real_of(means.t1) * v == 1real
            &&& v < 0real ==> real_of(means.t1) * -v == 1real
            &&& real_of(means.d_eff) * (2real * time) == real_of(means.var_dx)
        }),
{
    let (moved, square): (Seq<Double>, Double) = choose|moved: Seq<Double>, square: Double|
        {
            &&& #[trigger] displacements_gives(k, starts, ends, moved)
            &&& #[trigger] moments_gives(k, moved, means.mean_dx, square)
            &&& gives(k, times(nat_of(physics.max_steps), num(physics.delta_t)), means.time)
            &&& gives(
                k,
                minus(num(square), times(num(means.mean_dx), num(means.mean_dx))),
                means.var_dx,
            )
            &&& gives(k, over(num(means.mean_dx), num(means.time)), means.v_mean)
            &&& gives(k, over(lit(L_PERIOD), num(means.v_mean.absolute())), means.t1)
            &&& gives(
                k,
                over(num(means.var_dx), times(lit(TWO), num(means.time))),
                means.d_eff,
            )
        };
    law_moments(k, moved, means.mean_dx, square);
    let len = moved_count(starts, ends);
    let f = moved_by(starts, ends);
    assert(moved.len() == len);
    assert forall|i: int| 0 <= i < len implies #[trigger] reals(moved)(i) == f(i) by {
        let e = minus(num(ends[i]), num(starts[i]));
        law_exact_value(k, e, moved[i]);
        reveal_with_fuel(worth, 3);
    }
    lemma_same_sums(len, reals(moved), f);
    let m = real_of(means.mean_dx);
    let variance = minus(num(square), times(num(means.mean_dx), num(means.mean_dx)));
    law_exact_value(k, variance, means.var_dx);
    lemma_variance(len, f, m, real_of(square));
    let run = times(nat_of(physics.max_steps), num(physics.delta_t));
    law_exact_value(k, run, means.time);
    lemma_divisor(k, num(means.mean_dx), num(means.time), means.v_mean);
    if real_of(means.v_mean) != 0real {
        lemma_divisor(k, lit(L_PERIOD), num(means.v_mean.absolute()), means.t1);
    }
    lemma_divisor(k, num(means.var_dx), times(lit(TWO), num(means.time)), means.d_eff);
    lemma_constants();
    lemma_negated(means.v_mean);
    reveal_with_fuel(worth, 4);
}

/// The effective diffusion over a fixed time is not negative, and the variance is zero exactly when
/// all trials moved equally far.
pub proof fn law_displacements_spread<K: Arithmetic>(
    k: &K,
    starts: Seq<Double>,
    ends: Seq<Double>,
    physics: Physics,
    means: DisplacementMeans,
)
    requires
        steady(k),
        displacement_means_gives(k, starts, ends, physics, means),
        displacements_exact(k, starts, ends, physics, means),
    ensures
        real_of(means.var_dx) >= 0real,
        real_of(physics.delta_t) > 0real ==> real_of(means.d_eff) >= 0real,
        real_of(means.var_dx) == 0real <==> forall|i: int|
            0 <= i < moved_count(starts, ends) ==> #[trigger] moved_by(starts, ends)(i) == real_of(
                means.mean_dx,
            ),
{
    law_displacement_means(k, starts, ends, physics, means);
    let len = moved_count(starts, ends);
    let n = (len as int) as real;
    let f = moved_by(starts, ends);
    let m = real_of(means.mean_dx);
    let v = real_of(means.var_dx);
    let s = spread(len, f, m);
    lemma_spread_from_zero(len, f, m);
    assert(v >= 0real && (v == 0real <==> s == 0real)) by (nonlinear_arith)
        requires
            n * v == s,
            s >= 0real,
            n > 0real,
    ;
    if s == 0real {
        lemma_no_spread(len, f, m);
    }
    if forall|i: int| 0 <= i < len ==> #[trigger] f(i) == m {
        lemma_all_equal(len, f, m);
    }
    let dt = real_of(physics.delta_t);
    if dt > 0real {
        let steps = (physics.max_steps as int) as real;
        let time = real_of(means.time);
        let d = real_of(means.d_eff);
        assert(time > 0real) by (nonlinear_arith)
            requires
                time == steps * dt,
                time != 0real,
                steps >= 0real,
                dt > 0real,
        ;
        assert(d >= 0real) by (nonlinear_arith)
            requires
                d * (2real * time) == v,
                v >= 0real,
                time > 0real,
        ;
    }
}

/// With every displacement multiplied by `c` and then moved on by `a`, the mean is too, and the
/// variance is multiplied by the square of `c`.
pub proof fn law_displacements_scale<K: Arithmetic>(
    k: &K,
    starts: Seq<Double>,
    ends: Seq<Double>,
    starts_b: Seq<Double>,
    ends_b: Seq<Double>,
    c: real,
    a: real,
    physics: Physics,
    means: DisplacementMeans,
    means_b: DisplacementMeans,
)
    requires
        steady(k),
        displacement_means_gives(k, starts, ends, physics, means),
        displacement_means_gives(k, starts_b, ends_b, physics, means_b),
        displacements_exact(k, starts, ends, physics, means),
        displacements_exact(k, starts_b, ends_b, physics, means_b),
        moved_count(starts, ends) == moved_count(starts_b, ends_b),
        forall|i: int|
            0 <= i < moved_count(starts, ends) ==> #[trigger] moved_by(starts_b, ends_b)(i) == c
                * moved_by(starts, ends)(i) + a,
    ensures
        real_of(means_b.mean_dx) == c * real_of(means.mean_dx) + a,
        real_of(means_b.var_dx) == c * c * real_of(means.var_dx),
{
    law_displacement_means(k, starts, ends, physics, means);
    law_displacement_means(k, starts_b, ends_b, physics, means_b);
    let len = moved_count(starts, ends);
    let n = (len as int) as real;
    let f = moved_by(starts, ends);
    let g = moved_by(starts_b, ends_b);
    let m = real_of(means.mean_dx);
    let mb = real_of(means_b.mean_dx);
    lemma_scaled(len, f, g, c, a, m);
    assert(mb == c * m + a) by (nonlinear_arith)
        requires
            n * mb == c * (n * m) + n * a,
            n > 0real,
    ;
    let v = real_of(means.var_dx);
    let vb = real_of(means_b.var_dx);
    assert(vb == c * c * v) by (nonlinear_arith)
        requires
            n * vb == c * c * (n * v),
            n > 0real,
    {
        assert(c * c * (n * v) == n * (c * c * v));
    }
}

// ---- Summaries ----

/// Whether the summary of passages is not rounded.
pub open spec fn passage_row_exact<K: Arithmetic>(
    k: &K,
    passed: Seq<Double>,
    case: Case,
    row: SummaryRow,
) -> bool {
    &&& exact(k, over(nat_of(row.n_ok as u64), nat_of(row.n_total as u64)))
    &&& forall|means: PassageMeans| #[trigger]
        passage_means_gives(k, passed, means) ==> passages_exact(k, passed, means) && (real_of(
            case.f,
        ) != 0real ==> exact(k, over(num(means.velocity), num(case.f))))
}

/// What the summary of a case with passages says: the share of trials that passed, the mean T1 and
/// the mean square T2 of their times, the mobility 1 / (T1 f), and the mean squared deviation of the
/// times over 2 T1^3. It carries the parameters of its case.
pub proof fn law_passage_row<K: Arithmetic>(
    k: &K,
    gpu_id: Option<usize>,
    case: Case,
    n_total: usize,
    physics: Physics,
    times: Seq<Double>,
    statuses: Seq<i32>,
    directions: Seq<i32>,
    row: SummaryRow,
)
    requires
        steady(k),
        first_passage_summary(
            k,
            gpu_id,
            case,
            n_total,
            physics,
            times,
            statuses,
            directions,
            row,
        ),
        passage_row_exact(
            k,
            passage_times(
                times,
                statuses,
                common_len(times.len(), statuses.len(), directions.len()),
            ),
            case,
            row,
        ),
        common_len(times.len(), statuses.len(), directions.len()) <= u64::MAX,
        row.n_ok > 0,
    ensures
        ({
            let len = common_len(times.len(), statuses.len(), directions.len());
            let passed = passage_times(times, statuses, len);
            let n = (row.n_ok as int) as real;
            let t = real_of(row.t1);
            &&& passed.len() == row.n_ok
            &&& row.n_ok == count_of(len, |i: int| statuses[i] == STATUS_OK)
            &&& real_of(row.passage_fraction) * ((n_total as int) as real) == n
            &&& n * t == total(passed.len(), reals(passed))
            &&& n * real_of(row.t2) == squares(passed.len(), reals(passed))
            &&& real_of(row.d_eff) * (2real * n * (t * t * t)) == spread(
                passed.len(),
                reals(passed),
                t,
            )
            &&& real_of(case.f) != 0real ==> real_of(row.mu) * real_of(case.f) * t == 1real
            &&& real_of(case.f) == 0real && !case.f.nan() ==> row.mu.nan()
        }),
        row.mode == Mode::FirstPassage,
        row.case_id == case.case_id,
        row.m == case.m,
        row.l == case.l,
        row.f == case.f,
        row.gamma == case.gamma,
        row.delta == case.delta,
        row.dt == physics.delta_t,
        row.sigma == physics.sigma,
        row.epsilon == physics.epsilon,
        row.n_total == n_total,
{
    let len = common_len(times.len(), statuses.len(), directions.len());
    let passed = passage_times(times, statuses, len);
    lemma_passed(times, statuses, len);
    let means = choose|means: PassageMeans|
        {
            &&& #[trigger] passage_means_gives(k, passed, means)
            &&& row.t1 == means.t1
            &&& row.t2 == means.t2
            &&& row.d_eff == means.d_eff
            &&& mobility_outcome(k, means.velocity, case.f, row.mu)
        };
    law_passage_means(k, passed, means);
    lemma_divisor(
        k,
        nat_of(row.n_ok as u64),
        nat_of(row.n_total as u64),
        row.passage_fraction,
    );
    lemma_mobility(k, means.velocity, case.f, row.mu);
    reveal_with_fuel(worth, 2);
    if real_of(case.f) != 0real {
        let mu = real_of(row.mu);
        let force = real_of(case.f);
        let v = real_of(means.velocity);
        let t = real_of(row.t1);
        assert(mu * force * t == 1real) by (nonlinear_arith)
            requires
                mu * force == v,
                v * t == 1real,
        ;
    }
}

proof fn lemma_passed(times: Seq<Double>, statuses: Seq<i32>, n: nat)
    ensures
        passage_times(times, statuses, n).len() == count_of(
            n,
            |i: int| statuses[i] == STATUS_OK,
        ),
    decreases n,
{
    if n > 0 {
        lemma_passed(times, statuses, (n - 1) as nat);
    }
}

proof fn lemma_mobility<K: Arithmetic>(k: &K, velocity: Double, f: Double, mu: Double)
    requires
        steady(k),
        mobility_outcome(k, velocity, f, mu),
        real_of(f) != 0real ==> exact(k, over(num(velocity), num(f))),
    ensures
        real_of(f) != 0real ==> real_of(mu) * real_of(f) == real_of(velocity),
        real_of(f) == 0real && !f.nan() ==> mu.nan(),
{
    lemma_sign(f);
    assert((Double { bits: 0 }).value() == 0) by {
        assert(weight(0) == 0);
    }
    if real_of(f) != 0real {
        lemma_divisor(k, num(velocity), num(f), mu);
        reveal_with_fuel(worth, 2);
    }
}

/// What the summary of a case over a fixed time says: the mean displacement, the mean squared
/// deviation from it, the velocity, the mobility (velocity over force), and half the variance over
/// the time. It carries the parameters of its case.
pub proof fn law_fixed_time_row<K: Arithmetic>(
    k: &K,
    gpu_id: Option<usize>,
    case: Case,
    n_total: usize,
    physics: Physics,
    starts: Seq<Double>,
    ends: Seq<Double>,
    row: FixedTimeRow,
)
    requires
        steady(k),
        fixed_time_summary(k, gpu_id, case, n_total, physics, starts, ends, row),
        forall|means: DisplacementMeans| #[trigger]
            displacement_means_gives(k, starts, ends, physics, means) ==> displacements_exact(
                k,
                starts,
                ends,
                physics,
                means,
            ) && (real_of(case.f) != 0real ==> exact(k, over(num(means.v_mean), num(case.f)))),
    ensures
        ({
            let len = moved_count(starts, ends);
            let n = (len as int) as real;
            let f = moved_by(starts, ends);
            let m = real_of(row.mean_dx);
            let time = real_of(row.time);
            let v = real_of(row.v_mean);
            &&& n * m == total(len, f)
            &&& n * real_of(row.var_dx) == spread(len, f, m)
            &&& time == (physics.max_steps as int) as real * real_of(physics.delta_t)
            &&& v * time == m
            &&& v > 0real ==> real_of(row.t1) * v == 1real
            &&& v < 0real ==> real_of(row.t1) * -v == 1real
            &&& real_of(row.d_eff) * (2real * time) == real_of(row.var_dx)
            &&& real_of(case.f) != 0real ==> real_of(row.mu) * real_of(case.f) == v
            &&& real_of(case.f) == 0real && !case.f.nan() ==> row.mu.nan()
        }),
        row.mode == Mode::FixedTime,
        row.case_id == case.case_id,
        row.m == case.m,
        row.l == case.l,
        row.f == case.f,
        row.gamma == case.gamma,
        row.delta == case.delta,
        row.dt == physics.delta_t,
        row.sigma == physics.sigma,
        row.epsilon == physics.epsilon,
        row.n_total == n_total,
{
    let means = choose|means: DisplacementMeans|
        {
            &&& #[trigger] displacement_means_gives(k, starts, ends, physics, means)
            &&& row.time == means.time
            &&& row.mean_dx == means.mean_dx
            &&& row.var_dx == means.var_dx
            &&& row.v_mean == means.v_mean
            &&& row.t1 == means.t1
            &&& row.d_eff == means.d_eff
            &&& mobility_outcome(k, means.v_mean, case.f, row.mu)
        };
    law_displacement_means(k, starts, ends, physics, means);
    lemma_mobility(k, means.v_mean, case.f, row.mu);
}

} // verus!
