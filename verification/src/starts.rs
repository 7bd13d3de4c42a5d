//! Where rods start and what their random numbers are, where nothing is rounded.

use vstd::prelude::*;
use crate::algebra::{
    lemma_along_and_across, lemma_grouped, lemma_last_two, lemma_product_positive, lemma_quotient,
    lemma_scaled_square, lemma_swap, lemma_times_sum,
};
use crate::channel::{omega_gives, Pose};
use crate::config::particle_length_gives;
use crate::double::{law_patterns_are_ordered, weight, Double};
use crate::exact::{
    exact, law_exact_value, lemma_constants, lemma_divisor, lemma_negated, lemma_order, lemma_root,
    lemma_sign, real_of, worth,
};
use crate::formula::{
    cos_of, gives, int_of, lit, ln_of, minus, nat_of, neg_of, num, over, plus, sin_of, sqrt_of,
    steady, times, Arithmetic, FOUR, HALF, MINUS_TWO, ONE, TAU, TWENTY_FOUR, TWO,
};
use crate::mechanics::lemma_parts;
use crate::model::{coefficients_from, d_parallel_of, d_perp_of, d_r_of, Diffusion, TiradoTerms};
use crate::rng::{
    inside_unit, law_inside_unit, normal_angle, normal_pair_gives, normal_radius, state_after,
    uniform_drawn, uniform_formula, word_of,
};
use crate::simulation::{
    elapsed_gives, initial_phi_gives, initial_x_gives, initial_y_gives, initial_y_range_gives,
    placed, placed_in_middle, placed_in_range, targets_gives, START_LEFT, START_SPAN,
};

verus! {

// ---- Random numbers ----

proof fn lemma_uniform<K: Arithmetic>(k: &K, seed: u64, n: nat, u: Double)
    requires
        uniform_drawn(k, seed, n, u),
    ensures
        0real < real_of(u) < 1real,
{
    let word = word_of(state_after(seed, n));
    let v = choose|v: Double| #[trigger]
        gives(k, uniform_formula(word), v) && u == inside_unit(v);
    law_inside_unit(v);
    lemma_constants();
    lemma_zero();
    lemma_sign(u);
    lemma_order(u, Double { bits: ONE });
}

proof fn lemma_zero()
    ensures
        (Double { bits: 0 }).value() == 0,
        real_of(Double { bits: 0 }) == 0real,
{
    assert((Double { bits: 0 }).value() == 0) by {
        assert(weight(0) == 0);
    }
    lemma_sign(Double { bits: 0 });
}

/// Two normal numbers are the coordinates of a point in the direction of the second uniform number,
/// at a distance whose square is twice the logarithm of the first with the other sign.
pub proof fn law_normal_pair<K: Arithmetic>(k: &K, u1: Double, u2: Double, pair: (Double, Double))
    requires
        steady(k),
        normal_pair_gives(k, u1, u2, pair),
        exact(k, times(normal_radius(u1), cos_of(normal_angle(u2)))),
        exact(k, times(normal_radius(u1), sin_of(normal_angle(u2)))),
    ensures
        ({
            let a = real_of(pair.0);
            let b = real_of(pair.1);
            let c = worth(k, cos_of(normal_angle(u2)));
            let s = worth(k, sin_of(normal_angle(u2)));
            &&& a * s == b * c
            &&& c * c + s * s == 1real ==> a * a + b * b == -2real * worth(k, ln_of(num(u1)))
        }),
{
    let radius = normal_radius(u1);
    let angle = normal_angle(u2);
    law_exact_value(k, times(radius, cos_of(angle)), pair.0);
    law_exact_value(k, times(radius, sin_of(angle)), pair.1);
    let (r, c1) = lemma_parts(
        k,
        crate::formula::BinaryOp::Product,
        radius,
        cos_of(angle),
        pair.0,
    );
    let under = times(lit(MINUS_TWO), ln_of(num(u1)));
    assert(radius == sqrt_of(under));
    lemma_root(k, under, r);
    law_exact_value(k, radius, r);
    lemma_constants();
    lemma_negated(Double { bits: TWO });
    assert((Double { bits: TWO }).negated() == (Double { bits: MINUS_TWO }));
    let c = worth(k, cos_of(angle));
    let s = worth(k, sin_of(angle));
    let w = real_of(r);
    assert(real_of(pair.0) == w * c && real_of(pair.1) == w * s) by {
        reveal_with_fuel(worth, 2);
    }
    assert(worth(k, under) == -2real * worth(k, ln_of(num(u1)))) by {
        reveal_with_fuel(worth, 2);
    }
    lemma_along_and_across(w, c, s);
    lemma_swap(w, c);
    lemma_swap(w, s);
    lemma_scaled_square(c, s, w, 1real);
}

// ---- Starts ----

/// Whether the start of a rod is not rounded.
pub open spec fn start_exact<K: Arithmetic>(k: &K, seed: u64, l: Double, pose: Pose) -> bool {
    &&& l.finite()
    &&& forall|u: Double, n: nat| #[trigger]
        uniform_drawn(k, seed, n, u) ==> {
            &&& n == 1 ==> exact(k, plus(lit(START_LEFT), times(lit(START_SPAN), num(u))))
            &&& n == 2 || n == 3 ==> exact(k, times(lit(TAU), num(u)))
        }
    &&& forall|width: Double| #[trigger]
        omega_gives(k, pose.x, width) ==> {
            &&& exact(k, plus(neg_of(num(width)), times(lit(HALF), num(l))))
            &&& exact(k, minus(num(width), times(lit(HALF), num(l))))
        }
    &&& forall|range: (Double, Double), u: Double, n: nat| #[trigger]
        initial_y_range_gives(k, pose.x, l, range) && #[trigger] uniform_drawn(k, seed, n, u)
            && n == 2 ==> exact(k, plus(num(range.0), times(minus(num(range.1), num(range.0)), num(u))))
}

/// Whether an angle is the part of a turn that a uniform number tells.
pub open spec fn at_angle<K: Arithmetic>(k: &K, seed: u64, n: nat, pose: Pose) -> bool {
    exists|a: Double| #[trigger]
        uniform_drawn(k, seed, n, a) && real_of(pose.phi) == real_of(Double { bits: TAU })
            * real_of(a)
}

/// Whether a height is the part of the room that the second uniform number tells, from below, and the
/// angle is told by the third.
pub open spec fn at_height_and_angle<K: Arithmetic>(
    k: &K,
    seed: u64,
    room: real,
    pose: Pose,
) -> bool {
    &&& exists|v: Double| #[trigger]
        uniform_drawn(k, seed, 2, v) && real_of(pose.y) * 2real == room * (2real * real_of(v)
            - 1real)
    &&& at_angle(k, seed, 3, pose)
}

/// A rod starts on a stretch of the channel that is `START_SPAN` long, at an angle between 0 and one
/// turn, and at a height at which it fits between the walls at any angle: half its length away from
/// both. Where there is no such height it starts in the middle. The uniform numbers tell, in the order
/// in which they are drawn, how far along each of these it starts.
pub proof fn law_start<K: Arithmetic>(k: &K, seed: u64, l: Double, pose: Pose, drawn: nat)
    requires
        steady(k),
        placed(k, seed, l, pose, drawn),
        start_exact(k, seed, l, pose),
    ensures
        ({
            let left = real_of(Double { bits: START_LEFT });
            let span = real_of(Double { bits: START_SPAN });
            &&& left < real_of(pose.x) < left + span
            &&& 0real < real_of(pose.phi) < real_of(Double { bits: TAU })
        }),
        exists|u: Double| #[trigger]
            uniform_drawn(k, seed, 1, u) && real_of(pose.x) == real_of(Double { bits: START_LEFT })
                + real_of(Double { bits: START_SPAN }) * real_of(u),
        exists|width: Double|
            {
                let room = real_of(width) * 2real - real_of(l);
                &&& #[trigger] omega_gives(k, pose.x, width)
                &&& room > 0real ==> drawn == 3 && -room < real_of(pose.y) * 2real < room
                    && at_height_and_angle(k, seed, room, pose)
                &&& room <= 0real ==> drawn == 2 && real_of(pose.y) == 0real && at_angle(
                    k,
                    seed,
                    2,
                    pose,
                )
            },
{
    let (u, range): (Double, (Double, Double)) = choose|u: Double, range: (Double, Double)|
        {
            &&& #[trigger] uniform_drawn(k, seed, 1, u)
            &&& initial_x_gives(k, u, pose.x)
            &&& #[trigger] initial_y_range_gives(k, pose.x, l, range)
            &&& if range.0.below(range.1) {
                placed_in_range(k, seed, range, pose) && drawn == 3
            } else {
                placed_in_middle(k, seed, pose) && drawn == 2
            }
        };
    lemma_uniform(k, seed, 1, u);
    lemma_zero();
    law_patterns_are_ordered(0, START_SPAN);
    law_patterns_are_ordered(0, TAU);
    lemma_sign(Double { bits: START_SPAN });
    lemma_sign(Double { bits: TAU });
    let left = real_of(Double { bits: START_LEFT });
    let span = real_of(Double { bits: START_SPAN });
    law_exact_value(k, plus(lit(START_LEFT), times(lit(START_SPAN), num(u))), pose.x);
    assert(real_of(pose.x) == left + span * real_of(u)) by {
        reveal_with_fuel(worth, 3);
    }
    lemma_part_of(span, real_of(u));
    let width = choose|width: Double|
        {
            &&& #[trigger] omega_gives(k, pose.x, width)
            &&& gives(k, plus(neg_of(num(width)), times(lit(HALF), num(l))), range.0)
            &&& gives(k, minus(num(width), times(lit(HALF), num(l))), range.1)
        };
    law_exact_value(k, plus(neg_of(num(width)), times(lit(HALF), num(l))), range.0);
    law_exact_value(k, minus(num(width), times(lit(HALF), num(l))), range.1);
    lemma_constants();
    let w = real_of(width);
    let h = real_of(Double { bits: HALF }) * real_of(l);
    lemma_last_two(real_of(Double { bits: HALF }), real_of(l), 2real);
    assert(h * 2real == real_of(l));
    assert(real_of(range.0) == -w + h && real_of(range.1) == w - h) by {
        reveal_with_fuel(worth, 3);
    }
    lemma_order(range.0, range.1);
    assert(range.0.finite() && range.1.finite());
    let turn = real_of(Double { bits: TAU });
    if range.0.below(range.1) {
        let (v, a): (Double, Double) = choose|v: Double, a: Double|
            {
                &&& #[trigger] uniform_drawn(k, seed, 2, v)
                &&& initial_y_gives(k, range.0, range.1, v, pose.y)
                &&& #[trigger] uniform_drawn(k, seed, 3, a)
                &&& initial_phi_gives(k, a, pose.phi)
            };
        lemma_uniform(k, seed, 2, v);
        lemma_uniform(k, seed, 3, a);
        law_exact_value(
            k,
            plus(num(range.0), times(minus(num(range.1), num(range.0)), num(v))),
            pose.y,
        );
        law_exact_value(k, times(lit(TAU), num(a)), pose.phi);
        let gap = real_of(range.1) - real_of(range.0);
        assert(real_of(pose.y) == real_of(range.0) + gap * real_of(v)) by {
            reveal_with_fuel(worth, 4);
        }
        assert(real_of(pose.phi) == turn * real_of(a)) by {
            reveal_with_fuel(worth, 2);
        }
        lemma_part_of(gap, real_of(v));
        lemma_part_of(turn, real_of(a));
        let room = w * 2real - real_of(l);
        let part = real_of(v);
        lemma_times_sum(room, 2real * part, 1real);
        lemma_swap(room, 2real * part);
        lemma_grouped(2real, part, room);
        lemma_swap(part, room);
        assert(at_angle(k, seed, 3, pose));
        assert(at_height_and_angle(k, seed, room, pose));
    } else {
        let a = choose|a: Double| #[trigger]
            uniform_drawn(k, seed, 2, a) && initial_phi_gives(k, a, pose.phi);
        lemma_uniform(k, seed, 2, a);
        law_exact_value(k, times(lit(TAU), num(a)), pose.phi);
        assert(real_of(pose.phi) == turn * real_of(a)) by {
            reveal_with_fuel(worth, 2);
        }
        lemma_part_of(turn, real_of(a));
        assert(at_angle(k, seed, 2, pose));
    }
}

proof fn lemma_part_of(whole: real, part: real)
    requires
        whole > 0real,
        0real < part < 1real,
    ensures
        0real < whole * part < whole,
{
    lemma_product_positive(whole, part);
    lemma_product_positive(whole, 1real - part);
    lemma_times_sum(whole, 1real, part);
}

/// The targets of a rod lie one period to the right and to the left of its start, the time is that
/// of the steps made, and a rod with `m` points on each side is `2 m` steps long.
pub proof fn law_targets_time_and_length<K: Arithmetic>(
    k: &K,
    x0: Double,
    targets: (Double, Double),
    steps: u64,
    delta_t: Double,
    t: Double,
    particle_dx: Double,
    m: i32,
    l: Double,
)
    requires
        steady(k),
        targets_gives(k, x0, targets),
        elapsed_gives(k, steps, delta_t, t),
        particle_length_gives(k, particle_dx, m, l),
        exact(k, plus(num(x0), lit(ONE))),
        exact(k, minus(num(x0), lit(ONE))),
        exact(k, times(nat_of(steps), num(delta_t))),
        exact(k, times(times(lit(TWO), int_of(m as i64)), num(particle_dx))),
    ensures
        real_of(targets.0) == real_of(x0) + 1real,
        real_of(targets.1) == real_of(x0) - 1real,
        real_of(t) == (steps as int) as real * real_of(delta_t),
        real_of(l) == 2real * ((m as int) as real) * real_of(particle_dx),
{
    law_exact_value(k, plus(num(x0), lit(ONE)), targets.0);
    law_exact_value(k, minus(num(x0), lit(ONE)), targets.1);
    law_exact_value(k, times(nat_of(steps), num(delta_t)), t);
    law_exact_value(k, times(times(lit(TWO), int_of(m as i64)), num(particle_dx)), l);
    lemma_constants();
    reveal_with_fuel(worth, 3);
}

// ---- Diffusion ----

/// The coefficients of a rod, with its length l, the length r and the denominator B of the reference
/// rod, and the sums of its own terms: d l B = 4 r (ln p + nu) along it, half of that across it, and
/// d l^3 B = 24 r (ln p + delta) for its rotation.
pub proof fn law_diffusion<K: Arithmetic>(
    k: &K,
    l: Double,
    reference_length: Double,
    terms: TiradoTerms,
    reference: TiradoTerms,
    d: Diffusion,
)
    requires
        steady(k),
        coefficients_from(k, l, reference_length, terms, reference, d),
        exact(k, d_parallel_of(l, reference_length, terms, reference)),
        exact(k, d_perp_of(d.d_parallel)),
        exact(k, d_r_of(l, reference_length, terms, reference)),
        real_of(l) != 0real,
    ensures
        ({
            let length = real_of(l);
            let r = real_of(reference_length);
            let b = real_of(reference.denominator);
            let log_p = real_of(terms.log_p);
            &&& real_of(d.d_parallel) * b * length == 4real * r * (log_p + real_of(
                terms.nu_parallel,
            ))
            &&& real_of(d.d_perp) * 2real == real_of(d.d_parallel)
            &&& real_of(d.d_r) * (length * length * length * b) == 24real * r * (log_p + real_of(
                terms.delta_perp,
            ))
        }),
{
    lemma_constants();
    let length = real_of(l);
    let r = real_of(reference_length);
    let b = real_of(reference.denominator);
    let sum = plus(num(terms.log_p), num(terms.nu_parallel));
    let front = times(lit(FOUR), over(num(reference_length), num(l)));
    lemma_divisor(k, times(front, sum), num(reference.denominator), d.d_parallel);
    law_exact_value(k, d_perp_of(d.d_parallel), d.d_perp);
    let turn = times(lit(TWENTY_FOUR), num(reference_length));
    let other = plus(num(terms.log_p), num(terms.delta_perp));
    let cube = times(times(times(num(l), num(l)), num(l)), num(reference.denominator));
    lemma_divisor(k, times(turn, other), cube, d.d_r);
    let share = r / length;
    let s = real_of(terms.log_p) + real_of(terms.nu_parallel);
    let q = real_of(terms.log_p) + real_of(terms.delta_perp);
    assert(worth(k, times(front, sum)) == (4real * share) * s && worth(
        k,
        num(reference.denominator),
    ) == b) by {
        reveal_with_fuel(worth, 4);
    }
    assert(worth(k, times(turn, other)) == (24real * r) * q && worth(k, cube) == length * length
        * length * b) by {
        reveal_with_fuel(worth, 4);
    }
    lemma_quotient(r, length);
    lemma_last_two(4real * share, s, length);
    lemma_grouped(4real, share, length);
    let h = real_of(Double { bits: HALF });
    let along = real_of(d.d_parallel);
    assert(real_of(d.d_perp) == h * along) by {
        reveal_with_fuel(worth, 2);
    }
    lemma_last_two(h, along, 2real);
}

} // verus!
