//! The bins of the histograms and their middles, where nothing is rounded.

use vstd::arithmetic::power2::{lemma2_to64, lemma2_to64_rest};
use vstd::prelude::*;
use crate::algebra::{
    lemma_grouped, lemma_last_two, lemma_positive_factor, lemma_quotient, lemma_sum_times,
    lemma_swap,
};
use crate::channel::Pose;
use crate::config::HIST_Y_MAX;
use crate::double::Double;
use crate::exact::{
    exact, law_exact_value, lemma_constants, lemma_digits, lemma_negated, lemma_order, real_of,
    worth,
};
use crate::formula::{
    floor_of, gives, lit, minus, nat_of, num, over, steady, times, Arithmetic, BinaryOp, HALF, PI,
    TAU,
};
use crate::histogram::{
    held_y, phi_center_of, phi_place, raw_bins_gives, x_center_of, x_place, y_center_of, y_place,
    PHI_BINS, X_BINS, Y_BINS,
};
use crate::mechanics::lemma_parts;
use crate::shape::{floors, lemma_floor, lemma_turn, whole_of};

verus! {

/// Whether the whole part of a number that is not negative is what is left of it towards zero.
pub open spec fn cuts<K: Arithmetic>(k: &K) -> bool {
    forall|a: Double, n: u64| #[trigger]
        call_ensures(K::to_unsigned, (k, a), n) && a.finite() && 0real <= real_of(a)
            < 9223372036854775808real ==> whole_of(n as int) <= real_of(a) < whole_of(n as int)
            + 1real
}

proof fn lemma_bin_counts()
    ensures
        real_of(Double { bits: X_BINS }) == 100real,
        real_of(Double { bits: PHI_BINS }) == 36real,
        real_of(Double { bits: Y_BINS }) == 64real,
        2real < real_of(Double { bits: HIST_Y_MAX }) < 3real,
{
    lemma2_to64();
    lemma2_to64_rest();
    lemma_digits(Double { bits: X_BINS }, 0x19_0000_0000_0000, 46, 0x4000_0000_0000);
    lemma_digits(Double { bits: PHI_BINS }, 0x12_0000_0000_0000, 47, 0x8000_0000_0000);
    lemma_digits(Double { bits: Y_BINS }, 0x10_0000_0000_0000, 46, 0x4000_0000_0000);
    lemma_digits(Double { bits: HIST_Y_MAX }, 0x12_6666_6666_6666, 51, 0x8_0000_0000_0000);
}

/// A place is counted from the beginning of its period, in hundredths of it.
pub proof fn law_place_in_period<K: Arithmetic>(k: &K, x: Double, place: Double)
    requires
        steady(k),
        floors(k),
        exact(k, x_place(x)),
        gives(k, x_place(x), place),
    ensures
        place.finite(),
        0real <= real_of(place) < 100real,
        exists|n: int| real_of(place) == (real_of(x) - #[trigger] whole_of(n)) * 100real,
{
    let part = minus(num(x), floor_of(num(x)));
    law_exact_value(k, x_place(x), place);
    let (p, c): (Double, Double) = lemma_parts(k, BinaryOp::Product, part, lit(X_BINS), place);
    let (v, f): (Double, Double) = lemma_parts(
        k,
        BinaryOp::Difference,
        num(x),
        floor_of(num(x)),
        p,
    );
    assert(exact(k, part));
    assert(exact(k, floor_of(num(x))));
    lemma_floor(k, num(x), f);
    lemma_bin_counts();
    assert(real_of(place) == (real_of(x) - real_of(f)) * 100real) by {
        reveal_with_fuel(worth, 3);
    }
    let n = choose|n: int| #[trigger] whole_of(n) == real_of(f);
    assert(worth(k, num(x)) == real_of(x));
    assert(real_of(place) == (real_of(x) - whole_of(n)) * 100real);
}

/// An angle is counted from the beginning of its turn, in 36ths of it.
pub proof fn law_place_in_turn<K: Arithmetic>(k: &K, phi: Double, place: Double)
    requires
        steady(k),
        floors(k),
        exact(k, phi_place(phi)),
        gives(k, phi_place(phi), place),
    ensures
        place.finite(),
        0real <= real_of(place) < 36real,
        exists|n: int|
            real_of(place) * real_of(Double { bits: TAU }) == (real_of(phi) - real_of(
                Double { bits: TAU },
            ) * #[trigger] whole_of(n)) * 36real,
{
    let tau = real_of(Double { bits: TAU });
    let share = over(num(phi), lit(TAU));
    let turns = floor_of(share);
    let back = times(lit(TAU), turns);
    let rest = minus(num(phi), back);
    let part = over(rest, lit(TAU));
    law_exact_value(k, phi_place(phi), place);
    let (a, b): (Double, Double) = lemma_parts(k, BinaryOp::Product, part, lit(PHI_BINS), place);
    let (c, d): (Double, Double) = lemma_parts(k, BinaryOp::Quotient, rest, lit(TAU), a);
    let (e, g): (Double, Double) = lemma_parts(k, BinaryOp::Difference, num(phi), back, c);
    let (h, f): (Double, Double) = lemma_parts(k, BinaryOp::Product, lit(TAU), turns, g);
    assert(exact(k, part));
    assert(exact(k, rest));
    assert(exact(k, back));
    assert(exact(k, turns));
    lemma_floor(k, share, f);
    lemma_bin_counts();
    lemma_turn();
    let n = choose|n: int| #[trigger] whole_of(n) == real_of(f);
    let left = real_of(phi) - tau * whole_of(n);
    assert(worth(k, rest) == left) by {
        reveal_with_fuel(worth, 3);
    }
    assert(worth(k, share) == real_of(phi) / tau) by {
        reveal_with_fuel(worth, 2);
    }
    assert(real_of(place) == (left / tau) * 36real) by {
        reveal_with_fuel(worth, 3);
    }
    lemma_quotient(left, tau);
    lemma_last_two(left / tau, 36real, tau);
    lemma_quotient(real_of(phi), tau);
    let q = real_of(phi) / tau;
    lemma_swap(tau, whole_of(n));
    lemma_sum_times(q, whole_of(n), tau);
    assert(left == (q - whole_of(n)) * tau);
    lemma_positive_factor(q - whole_of(n), tau);
    lemma_positive_factor(q - whole_of(n) - 1real, tau);
    lemma_sum_times(q - whole_of(n), 1real, tau);
    lemma_positive_factor(left / tau, tau);
    lemma_sum_times(left / tau, 1real, tau);
    lemma_positive_factor(left / tau - 1real, tau);
}

/// A height is counted from the bottom of the histogram, in 64ths of its range; heights outside the
/// range are taken to its nearest end.
pub proof fn law_place_in_range<K: Arithmetic>(k: &K, y: Double, place: Double)
    requires
        steady(k),
        !y.nan(),
        exact(k, y_place(held_y(y))),
        gives(k, y_place(held_y(y)), place),
    ensures
        ({
            let top = real_of(Double { bits: HIST_Y_MAX });
            let h = real_of(y);
            &&& place.finite()
            &&& 0real <= real_of(place) <= 64real
            &&& -top <= h <= top ==> real_of(place) * (2real * top) == (h + top) * 64real
            &&& h > top ==> real_of(place) == 64real
            &&& h < -top ==> real_of(place) == 0real
        }),
{
    let end = Double { bits: HIST_Y_MAX };
    let top = real_of(end);
    let held = held_y(y);
    law_exact_value(k, y_place(held), place);
    lemma_bin_counts();
    lemma_constants();
    lemma_negated(end);
    lemma_order(y, end);
    lemma_order(end, y);
    lemma_order(y, end.negated());
    lemma_order(end.negated(), y);
    lemma_order(end.negated(), end);
    let h = real_of(held);
    assert(-top <= h <= top);
    assert(-top <= real_of(y) <= top ==> h == real_of(y));
    assert(real_of(y) > top ==> h == top);
    assert(real_of(y) < -top ==> h == -top);
    let span = 2real * top;
    assert(real_of(place) == ((h + top) / span) * 64real) by {
        reveal_with_fuel(worth, 4);
    }
    lemma_quotient(h + top, span);
    let share = (h + top) / span;
    lemma_last_two(share, 64real, span);
    lemma_positive_factor(share, span);
    lemma_positive_factor(share - 1real, span);
    lemma_sum_times(share, 1real, span);
}

/// The bins of a pose: the hundredth of the period, the 36th of the turn and the 64th of the range of
/// heights that it lies in. At the top of the range the bin is one past the last.
pub proof fn law_bins_of_pose<K: Arithmetic>(k: &K, pose: Pose, bins: (u64, u64, u64))
    requires
        steady(k),
        floors(k),
        cuts(k),
        raw_bins_gives(k, pose, bins),
        exact(k, x_place(pose.x)),
        exact(k, phi_place(pose.phi)),
        exact(k, y_place(held_y(pose.y))),
        !pose.y.nan(),
    ensures
        ({
            let x = whole_of(bins.0 as int);
            let phi = whole_of(bins.1 as int);
            let y = whole_of(bins.2 as int);
            let tau = real_of(Double { bits: TAU });
            let top = real_of(Double { bits: HIST_Y_MAX });
            &&& bins.0 < 100
            &&& exists|n: int|
                x <= (real_of(pose.x) - #[trigger] whole_of(n)) * 100real < x + 1real
            &&& bins.1 < 36
            &&& exists|n: int|
                phi * tau <= (real_of(pose.phi) - tau * #[trigger] whole_of(n)) * 36real < (phi
                    + 1real) * tau
            &&& bins.2 <= 64
            &&& -top <= real_of(pose.y) <= top ==> y * (2real * top) <= (real_of(pose.y) + top)
                * 64real < (y + 1real) * (2real * top)
            &&& real_of(pose.y) > top ==> bins.2 == 64
            &&& real_of(pose.y) < -top ==> bins.2 == 0
        }),
{
    let (a, b, c): (Double, Double, Double) = choose|x: Double, phi: Double, y: Double|
        {
            &&& #[trigger] gives(k, x_place(pose.x), x)
            &&& #[trigger] gives(k, phi_place(pose.phi), phi)
            &&& #[trigger] gives(k, y_place(held_y(pose.y)), y)
            &&& call_ensures(K::to_unsigned, (k, x), bins.0)
            &&& call_ensures(K::to_unsigned, (k, phi), bins.1)
            &&& call_ensures(K::to_unsigned, (k, y), bins.2)
        };
    law_place_in_period(k, pose.x, a);
    law_place_in_turn(k, pose.phi, b);
    law_place_in_range(k, pose.y, c);
    lemma_turn();
    lemma_bin_counts();
    let x = whole_of(bins.0 as int);
    let phi = whole_of(bins.1 as int);
    let y = whole_of(bins.2 as int);
    let tau = real_of(Double { bits: TAU });
    let span = 2real * real_of(Double { bits: HIST_Y_MAX });
    let n = choose|n: int| real_of(a) == (real_of(pose.x) - #[trigger] whole_of(n)) * 100real;
    assert(x <= (real_of(pose.x) - whole_of(n)) * 100real < x + 1real);
    let m = choose|m: int|
        real_of(b) * tau == (real_of(pose.phi) - tau * #[trigger] whole_of(m)) * 36real;
    lemma_factor_keeps_order(phi, real_of(b), tau);
    lemma_factor_keeps_order(real_of(b), phi + 1real, tau);
    assert(phi * tau <= (real_of(pose.phi) - tau * whole_of(m)) * 36real < (phi + 1real) * tau);
    lemma_factor_keeps_order(y, real_of(c), span);
    lemma_factor_keeps_order(real_of(c), y + 1real, span);
}

proof fn lemma_factor_keeps_order(a: real, b: real, c: real)
    requires
        c > 0real,
    ensures
        a <= b ==> a * c <= b * c,
        a < b ==> a * c < b * c,
{
    lemma_sum_times(b, a, c);
    lemma_positive_factor(b - a, c);
}

/// The middles of the bins lie half a bin above their lower ends.
pub proof fn law_middles_of_bins<K: Arithmetic>(
    k: &K,
    bin: usize,
    x: Double,
    phi: Double,
    y: Double,
)
    requires
        steady(k),
        gives(k, x_center_of(bin), x),
        gives(k, phi_center_of(bin), phi),
        gives(k, y_center_of(bin), y),
        exact(k, x_center_of(bin)),
        exact(k, phi_center_of(bin)),
        exact(k, y_center_of(bin)),
    ensures
        ({
            let middle = (2 * bin + 1) as real;
            let top = real_of(Double { bits: HIST_Y_MAX });
            &&& real_of(x) * 200real == middle
            &&& real_of(phi) * 72real == middle * real_of(Double { bits: TAU })
            &&& (real_of(y) + top) * 64real == middle * top
        }),
{
    law_exact_value(k, x_center_of(bin), x);
    law_exact_value(k, phi_center_of(bin), phi);
    law_exact_value(k, y_center_of(bin), y);
    lemma_constants();
    lemma_bin_counts();
    lemma_turn();
    let half = real_of(Double { bits: HALF });
    let n = (bin as int) as real;
    let middle = (2 * bin + 1) as real;
    let pi = real_of(Double { bits: PI });
    let top = real_of(Double { bits: HIST_Y_MAX });
    assert(worth(k, nat_of(bin as u64)) == n) by {
        reveal_with_fuel(worth, 2);
    }
    assert(real_of(x) == (n + half) / 100real) by {
        reveal_with_fuel(worth, 3);
    }
    assert((n + half) * 2real == middle);
    assert(real_of(phi) == (((n + half) * 2real) * pi) / 36real) by {
        reveal_with_fuel(worth, 5);
    }
    assert(real_of(y) == -top + (((n + half) * 2real) * top) / 64real) by {
        reveal_with_fuel(worth, 6);
    }
    lemma_grouped(2real, middle, pi);
    lemma_swap(middle, 2real * pi);
    lemma_grouped(2real, pi, middle);
    lemma_swap(pi, middle);
}

} // verus!
