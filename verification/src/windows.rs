//! Frames, drawn sections and the camera of the windows, where nothing is rounded.

use vstd::arithmetic::power2::{lemma2_to64, lemma2_to64_rest};
use vstd::prelude::*;
use crate::animation::{frame_steps, steps_due_gives, whole_steps_gives};
use crate::bins::cuts;
use crate::display_motion::{law_camera_approaches, law_camera_limit, law_steps_due};
use crate::double::{law_patterns_are_ordered, weight, Double};
use crate::exact::{
    exact, law_exact_value, lemma_digits, lemma_negated, lemma_order, lemma_sign, real_of, worth,
};
use crate::formula::{
    exp_of, floor_of, gives, lit, minus, nat_of, neg_of, num, over, plus, steady, times,
    unary_gives, Arithmetic, UnaryOp, MINUS_ONE, ONE,
};
use crate::renderer::{
    approach_gives, at_limit_gives, camera_moved, ceil_of, lag_gives, piece_count_gives,
    CAMERA_FOLLOW_RATE, CAMERA_MAX_DT, CAMERA_MAX_LAG,
};
use crate::shape::{floors, held_to, lemma_floor, lemma_whole_part, whole, whole_of};

verus! {

// ---- Frames ----

/// Whether the steps of a frame are not rounded.
pub open spec fn frame_exact<K: Arithmetic>(
    k: &K,
    remainder: Double,
    elapsed: Double,
    speed_scale: Double,
    delta_t: Double,
) -> bool {
    &&& exact(
        k,
        plus(num(remainder), over(times(num(elapsed), num(speed_scale)), num(delta_t))),
    )
    &&& forall|due: Double, whole: u64| #[trigger]
        steps_due_gives(k, remainder, elapsed, speed_scale, delta_t, due) && #[trigger]
        whole_steps_gives(k, due, whole) ==> {
            &&& exact(k, floor_of(num(due)))
            &&& exact(k, minus(num(due), nat_of(whole)))
            &&& 0real <= real_of(due) < 4294967296real
        }
}

/// No step of a frame is lost: those that are made and the part that is left over come to those that
/// were left before and those of the elapsed time, and less than one is left. Only where that would be
/// more than the most steps of a frame, these are made and the rest is dropped.
pub proof fn law_frame<K: Arithmetic>(
    k: &K,
    remainder: Double,
    elapsed: Double,
    speed_scale: Double,
    delta_t: Double,
    cap: int,
    steps: usize,
    left: Double,
)
    requires
        steady(k),
        floors(k),
        cuts(k),
        frame_steps(k, remainder, elapsed, speed_scale, delta_t, cap, steps, left),
        frame_exact(k, remainder, elapsed, speed_scale, delta_t),
        real_of(delta_t) != 0real,
        cap >= 0,
    ensures
        steps <= cap,
        exists|due: real| #[trigger]
            all_due(
                due,
                real_of(remainder),
                real_of(elapsed) * real_of(speed_scale),
                real_of(delta_t),
                whole_of(steps as int),
                real_of(left),
                whole_of(cap),
            ),
{
    let (due, count): (Double, u64) = choose|due: Double, count: u64|
        {
            &&& #[trigger] steps_due_gives(k, remainder, elapsed, speed_scale, delta_t, due)
            &&& #[trigger] whole_steps_gives(k, due, count)
            &&& if count > cap {
                steps == cap && left == Double::zero()
            } else {
                steps == count && gives(k, minus(num(due), nat_of(count)), left)
            }
        };
    law_steps_due(k, remainder, elapsed, speed_scale, delta_t, due);
    let floor = choose|floor: Double| #[trigger]
        gives(k, floor_of(num(due)), floor) && call_ensures(K::to_unsigned, (k, floor), count);
    lemma_floor(k, num(due), floor);
    law_exact_value(k, floor_of(num(due)), floor);
    assert(worth(k, num(due)) == real_of(due));
    let n = choose|n: int| #[trigger] whole_of(n) == real_of(floor);
    assert(n > -1);
    lemma_whole_part(real_of(floor), count as int);
    assert(weight(0) == 0);
    lemma_sign(Double::zero());
    if count <= cap {
        law_exact_value(k, minus(num(due), nat_of(count)), left);
        assert(real_of(left) == real_of(due) - whole_of(count as int)) by {
            reveal_with_fuel(worth, 2);
        }
    }
    assert(all_due(
        real_of(due),
        real_of(remainder),
        real_of(elapsed) * real_of(speed_scale),
        real_of(delta_t),
        whole_of(steps as int),
        real_of(left),
        whole_of(cap),
    ));
}

/// Whether steps are due, and those that are made and left of them are the right ones.
pub open spec fn all_due(
    due: real,
    remainder: real,
    time: real,
    delta_t: real,
    made: real,
    left: real,
    cap: real,
) -> bool {
    &&& (due - remainder) * delta_t == time
    &&& 0real <= left < 1real
    &&& due < cap + 1real ==> made + left == due
    &&& due >= cap + 1real ==> made == cap && left == 0real
}

// ---- Sections ----

/// A section is cut into as few pieces as keep them short enough: one piece less would be too few for
/// the density.
pub proof fn law_pieces_of_section<K: Arithmetic>(
    k: &K,
    x_min: Double,
    x_max: Double,
    density: u64,
    count: u64,
)
    requires
        steady(k),
        floors(k),
        cuts(k),
        piece_count_gives(k, x_min, x_max, density, count),
        exact(k, ceil_of(times(minus(num(x_max), num(x_min)), lit(density)))),
        ({
            let wanted = (real_of(x_max) - real_of(x_min)) * real_of(Double { bits: density });
            0real <= wanted < 4294967296real
        }),
    ensures
        ({
            let wanted = (real_of(x_max) - real_of(x_min)) * real_of(Double { bits: density });
            whole_of(count as int) - 1real < wanted <= whole_of(count as int)
        }),
{
    let span = times(minus(num(x_max), num(x_min)), lit(density));
    let wanted = (real_of(x_max) - real_of(x_min)) * real_of(Double { bits: density });
    let pieces = choose|pieces: Double| #[trigger]
        gives(k, ceil_of(span), pieces) && call_ensures(K::to_unsigned, (k, pieces), count);
    law_exact_value(k, ceil_of(span), pieces);
    let below = floor_of(neg_of(span));
    assert(exact(k, below));
    let f = choose|f: Double|
        gives(k, below, f) && #[trigger] unary_gives(k, UnaryOp::Negation, f, pieces);
    assert(gives(k, below, f) && unary_gives(k, UnaryOp::Negation, f, pieces)) by {
        reveal_with_fuel(gives, 2);
    }
    lemma_floor(k, neg_of(span), f);
    lemma_negated(f);
    assert(worth(k, neg_of(span)) == -wanted) by {
        reveal_with_fuel(worth, 4);
    }
    let n = choose|n: int| #[trigger] whole_of(n) == real_of(f);
    assert(whole_of(-n) == real_of(pieces));
    assert(n < 1);
    assert(whole(real_of(pieces)));
    lemma_whole_part(real_of(pieces), count as int);
}

// ---- Camera ----

/// Whether no move of the camera is rounded.
pub open spec fn camera_exact<K: Arithmetic>(k: &K, x: Double, target_x: Double, dt: Double) -> bool {
    &&& exact(k, minus(num(target_x), num(x)))
    &&& exact(k, minus(num(target_x), times(lit(ONE), lit(CAMERA_MAX_LAG))))
    &&& exact(k, minus(num(target_x), times(lit(MINUS_ONE), lit(CAMERA_MAX_LAG))))
    &&& forall|from: Double, held: Double, after: Double| #[trigger]
        approach_gives(k, from, target_x, held, after) ==> exact(
            k,
            plus(
                num(from),
                times(
                    minus(num(target_x), num(from)),
                    minus(lit(ONE), exp_of(times(lit(CAMERA_FOLLOW_RATE), num(held)))),
                ),
            ),
        )
}

/// The camera is first brought to the largest distance, if it is farther away, and keeps of that
/// distance the part that the exponential gives for the time, which is held to its own range.
pub proof fn law_camera_follows<K: Arithmetic>(
    k: &K,
    x: Double,
    target_x: Double,
    dt: Double,
    after: Double,
)
    requires
        steady(k),
        camera_moved(k, x, target_x, dt, after),
        camera_exact(k, x, target_x, dt),
        !dt.nan(),
    ensures
        real_of(Double { bits: CAMERA_FOLLOW_RATE }) == -8real,
        exists|held: Double|
            {
                let kept = #[trigger] times(lit(CAMERA_FOLLOW_RATE), num(held));
                let most = real_of(Double { bits: CAMERA_MAX_LAG });
                let gap = held_to(real_of(target_x) - real_of(x), -most, most);
                &&& real_of(held) == held_to(
                    real_of(dt),
                    0real,
                    real_of(Double { bits: CAMERA_MAX_DT }),
                )
                &&& real_of(target_x) - real_of(after) == worth(k, exp_of(kept)) * gap
            },
{
    let longest = Double { bits: CAMERA_MAX_DT };
    let held = dt.clamped(Double::zero(), longest);
    let most = Double { bits: CAMERA_MAX_LAG };
    let (lag, from): (Double, Double) = choose|lag: Double, from: Double|
        {
            &&& #[trigger] lag_gives(k, target_x, x, lag)
            &&& if most.below(lag.absolute()) {
                at_limit_gives(k, target_x, lag, from)
            } else {
                from == x
            }
            &&& #[trigger] approach_gives(k, from, target_x, held, after)
        };
    law_exact_value(k, minus(num(target_x), num(x)), lag);
    assert(real_of(lag) == real_of(target_x) - real_of(x)) by {
        reveal_with_fuel(worth, 2);
    }
    lemma_negated(lag);
    lemma_order(most, lag.absolute());
    assert(weight(0) == 0);
    lemma_sign(Double::zero());
    lemma_order(dt, Double::zero());
    lemma_order(dt, longest);
    lemma_order(longest, dt);
    lemma_sign(longest);
    lemma_sign(most);
    law_patterns_are_ordered(0, CAMERA_MAX_DT);
    law_patterns_are_ordered(0, CAMERA_MAX_LAG);
    if most.below(lag.absolute()) {
        law_camera_limit(k, target_x, lag, from);
    }
    law_camera_approaches(k, from, target_x, held, after);
    let kept = times(lit(CAMERA_FOLLOW_RATE), num(held));
    let rate = Double { bits: 0x4020_0000_0000_0000 };
    lemma2_to64();
    lemma2_to64_rest();
    lemma_digits(rate, 0x10_0000_0000_0000, 49, 0x2_0000_0000_0000);
    lemma_negated(rate);
    assert(rate.negated() == (Double { bits: CAMERA_FOLLOW_RATE }));
}

} // verus!
