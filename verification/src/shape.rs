//! The shape of the channel and the feet of perpendiculars to its walls, where nothing is rounded.

use vstd::arithmetic::power2::{lemma2_to64, lemma2_to64_rest};
use vstd::prelude::*;
use crate::algebra::{
    lemma_grouped, lemma_last_two, lemma_minus_times, lemma_no_zero_product, lemma_swap,
    lemma_times_zero,
};
use crate::channel::{
    channel_section_bounds_gives, foot_corrected, foot_search, four_pi_squared,
    mirror_at_foot_gives, mirrored, newton_delta_of, omega_derivative_of, omega_gives, omega_of,
    omega_second_derivative_of, phase_of, reflected_once, reflection_outcome, reflection_path,
    wall_crossed, wall_foot_newton_delta_gives, wall_gap, wall_sample_gives, worth_correcting,
    BoundaryCorrectedState, Pose, Wall, MEAN_WIDTH, NEWTON_EPSILON_BITS,
};
use crate::config::{CHANNEL_NECK_PHASE, L_PERIOD};
use crate::double::Double;
use crate::exact::{
    exact, law_exact_value, lemma_constants, lemma_digits, lemma_divisor, lemma_negated,
    lemma_order, real_of, worth,
};
use crate::formula::{
    cos_of, floor_of, gives, lit, minus, nat_of, num, plus, sin_of, steady, times, unary_gives,
    Arithmetic, BinaryOp, Expr, UnaryOp, MINUS_ONE, ONE, PI, QUARTER, TAU, TWO,
};
use crate::mechanics::lemma_parts;

verus! {

pub(crate) proof fn lemma_turn()
    ensures
        real_of(Double { bits: TAU }) == 2real * real_of(Double { bits: PI }),
        real_of(Double { bits: PI }) > 3real,
        real_of(Double { bits: PI }) < 4real,
{
    lemma2_to64();
    lemma2_to64_rest();
    lemma_digits(Double { bits: PI }, 0x19_21fb_5444_2d18, 51, 0x8_0000_0000_0000);
    lemma_digits(Double { bits: TAU }, 0x19_21fb_5444_2d18, 50, 0x4_0000_0000_0000);
}

/// The walls are drawn by two waves: the first goes through one turn in a period, the second, with a
/// quarter of the height, through two. The slope and the curvature are the first and the second
/// derivative: each derivative of a wave gains the rate of its turning as a factor.
pub proof fn law_shape_of_walls<K: Arithmetic>(
    k: &K,
    x: Double,
    width: Double,
    slope: Double,
    curvature: Double,
)
    requires
        steady(k),
        omega_gives(k, x, width),
        gives(k, omega_derivative_of(x), slope),
        gives(k, omega_second_derivative_of(x), curvature),
        exact(k, omega_of(x)),
        exact(k, omega_derivative_of(x)),
        exact(k, omega_second_derivative_of(x)),
    ensures
        ({
            let once = times(lit(TAU), num(x));
            let twice = times(lit(TWO), once);
            let s1 = worth(k, sin_of(once));
            let c1 = worth(k, cos_of(once));
            let s2 = worth(k, sin_of(twice));
            let c2 = worth(k, cos_of(twice));
            let rate = real_of(Double { bits: TAU });
            let fast = 2real * rate;
            &&& worth(k, once) == rate * real_of(x)
            &&& worth(k, twice) == fast * real_of(x)
            &&& 4real * (real_of(width) - real_of(Double { bits: MEAN_WIDTH })) == 4real * s1 + s2
            &&& 4real * real_of(slope) == 4real * (rate * c1) + fast * c2
            &&& 4real * real_of(curvature) == -(4real * ((rate * rate) * s1)) - (fast * fast) * s2
        }),
{
    law_exact_value(k, omega_of(x), width);
    law_exact_value(k, omega_derivative_of(x), slope);
    law_exact_value(k, omega_second_derivative_of(x), curvature);
    lemma_constants();
    lemma_turn();
    let once = phase_of(x);
    let twice = times(lit(TWO), once);
    let s1 = worth(k, sin_of(once));
    let c1 = worth(k, cos_of(once));
    let s2 = worth(k, sin_of(twice));
    let c2 = worth(k, cos_of(twice));
    let pi = real_of(Double { bits: PI });
    let rate = real_of(Double { bits: TAU });
    let fast = 2real * rate;
    let quarter = real_of(Double { bits: QUARTER });
    assert(worth(k, once) == rate * real_of(x)) by {
        reveal_with_fuel(worth, 2);
    }
    assert(worth(k, twice) == 2real * worth(k, once)) by {
        reveal_with_fuel(worth, 2);
    }
    lemma_grouped(2real, rate, real_of(x));
    assert(real_of(width) == (s1 + quarter * s2) + real_of(Double { bits: MEAN_WIDTH })) by {
        reveal_with_fuel(worth, 4);
    }
    lemma_last_two(quarter, s2, 4real);
    assert(real_of(slope) == rate * c1 + pi * c2) by {
        reveal_with_fuel(worth, 3);
    }
    lemma_grouped(4real, pi, c2);
    let square = pi * pi;
    assert(worth(k, four_pi_squared()) == (4real * pi) * pi) by {
        reveal_with_fuel(worth, 3);
    }
    lemma_grouped(4real, pi, pi);
    let factor = 4real * square;
    assert(real_of(curvature) == (-factor) * s1 - factor * s2) by {
        reveal_with_fuel(worth, 3);
    }
    assert(rate * rate == factor) by {
        lemma_grouped(2real, pi, rate);
        lemma_swap(pi, rate);
        lemma_grouped(2real, pi, pi);
    }
    assert(fast * fast == 4real * factor) by {
        lemma_grouped(2real, rate, fast);
        lemma_swap(rate, fast);
        lemma_grouped(2real, rate, rate);
    }
    lemma_minus_times(factor, s1);
    lemma_grouped(4real, factor, s2);
}

/// The height that is kept of a wall point is that of the wall at its place.
pub proof fn law_wall_sample<K: Arithmetic>(
    k: &K,
    index: usize,
    wall_dx: Double,
    height: Double,
)
    requires
        steady(k),
        wall_sample_gives(k, index, wall_dx, height),
        exact(k, times(nat_of(index as u64), num(wall_dx))),
    ensures
        exists|x: Double|
            {
                &&& #[trigger] omega_gives(k, x, height)
                &&& real_of(x) == (index as int) as real * real_of(wall_dx)
            },
{
    let place = times(nat_of(index as u64), num(wall_dx));
    let x = choose|x: Double| #[trigger] gives(k, place, x) && omega_gives(k, x, height);
    law_exact_value(k, place, x);
    reveal_with_fuel(worth, 2);
}

/// The side of the channel that a wall is on.
pub open spec fn side_of(wall: Wall) -> real {
    match wall {
        Wall::Upper => 1real,
        Wall::Lower => -1real,
    }
}

/// A correction is the step of Newton's method: with the gap between wall and point, it takes the
/// derivative of half the square of their distance to zero. No correction is left exactly where the
/// line from the point to the wall is perpendicular to the wall.
pub proof fn law_foot_is_perpendicular<K: Arithmetic>(
    k: &K,
    px: Double,
    py: Double,
    wall: Wall,
    x: Double,
    width: Double,
    slope: Double,
    curvature: Double,
    d: Double,
)
    requires
        steady(k),
        wall_foot_newton_delta_gives(k, px, py, wall, x, d),
        omega_gives(k, x, width),
        gives(k, omega_derivative_of(x), slope),
        gives(k, omega_second_derivative_of(x), curvature),
        exact(k, omega_of(x)),
        exact(k, omega_derivative_of(x)),
        exact(k, omega_second_derivative_of(x)),
        exact(k, newton_delta_of(px, py, wall, x)),
    ensures
        ({
            let gap = real_of(width) - side_of(wall) * real_of(py);
            let t = real_of(slope);
            let along = (real_of(x) - real_of(px)) + t * gap;
            let turn = 1real + t * t + real_of(curvature) * gap;
            &&& turn != 0real
            &&& real_of(d) * turn == along
            &&& real_of(d) == 0real <==> along == 0real
        }),
{
    law_exact_value(k, omega_of(x), width);
    law_exact_value(k, omega_derivative_of(x), slope);
    law_exact_value(k, omega_second_derivative_of(x), curvature);
    lemma_constants();
    lemma_negated(Double { bits: ONE });
    assert((Double { bits: ONE }).negated() == (Double { bits: MINUS_ONE }));
    let gap = real_of(width) - side_of(wall) * real_of(py);
    let t = real_of(slope);
    let slope_form = omega_derivative_of(x);
    let curve_form = omega_second_derivative_of(x);
    let gap_form = wall_gap(py, wall, x);
    let upper = minus(plus(times(slope_form, gap_form), num(x)), num(px));
    let lower = plus(
        plus(times(curve_form, gap_form), times(slope_form, slope_form)),
        lit(ONE),
    );
    lemma_divisor(k, upper, lower, d);
    assert(worth(k, gap_form) == gap) by {
        reveal_with_fuel(worth, 3);
    }
    assert(worth(k, upper) == t * gap + real_of(x) - real_of(px)) by {
        reveal_with_fuel(worth, 4);
    }
    assert(worth(k, lower) == real_of(curvature) * gap + t * t + 1real) by {
        reveal_with_fuel(worth, 4);
    }
    let turn = worth(k, lower);
    if real_of(d) == 0real {
        lemma_times_zero(turn);
        lemma_swap(0real, turn);
    }
    if real_of(d) * turn == 0real {
        lemma_no_zero_product(real_of(d), turn);
    }
}

/// A number held to the range from `low` to `high`.
pub open spec fn held_to(a: real, low: real, high: real) -> real {
    if a < low {
        low
    } else if a > high {
        high
    } else {
        a
    }
}

/// Whether a place is where a linear function vanishes that has a value and a slope at `x`.
pub open spec fn vanishes_at(aim: real, x: real, value: real, slope: real) -> bool {
    value + slope * (aim - x) == 0real
}

/// A corrected foot is the place at which the tangent to the derivative of half the squared distance
/// vanishes, held to the section.
pub proof fn law_foot_moves<K: Arithmetic>(
    k: &K,
    pose: Pose,
    wall: Wall,
    low: Double,
    high: Double,
    x: Double,
    width: Double,
    slope: Double,
    curvature: Double,
    next: Double,
)
    requires
        steady(k),
        foot_corrected(k, pose, wall, low, high, x, next),
        omega_gives(k, x, width),
        gives(k, omega_derivative_of(x), slope),
        gives(k, omega_second_derivative_of(x), curvature),
        exact(k, omega_of(x)),
        exact(k, omega_derivative_of(x)),
        exact(k, omega_second_derivative_of(x)),
        exact(k, newton_delta_of(pose.x, pose.y, wall, x)),
        forall|d: Double| #[trigger]
            wall_foot_newton_delta_gives(k, pose.x, pose.y, wall, x, d) ==> exact(
                k,
                minus(num(x), num(d)),
            ),
        low.finite(),
        high.finite(),
        real_of(low) <= real_of(high),
    ensures
        ({
            let gap = real_of(width) - side_of(wall) * real_of(pose.y);
            let t = real_of(slope);
            let along = (real_of(x) - real_of(pose.x)) + t * gap;
            let turn = 1real + t * t + real_of(curvature) * gap;
            exists|aim: real| #[trigger]
                vanishes_at(aim, real_of(x), along, turn) && real_of(next) == held_to(
                    aim,
                    real_of(low),
                    real_of(high),
                )
        }),
{
    let (d, moved): (Double, Double) = choose|d: Double, moved: Double|
        {
            &&& #[trigger] wall_foot_newton_delta_gives(k, pose.x, pose.y, wall, x, d)
            &&& worth_correcting(d)
            &&& #[trigger] gives(k, minus(num(x), num(d)), moved)
            &&& next == moved.clamped(low, high)
        };
    law_foot_is_perpendicular(
        k,
        pose.x,
        pose.y,
        wall,
        x,
        width,
        slope,
        curvature,
        d,
    );
    law_exact_value(k, minus(num(x), num(d)), moved);
    let aim = real_of(moved);
    assert(aim == real_of(x) - real_of(d)) by {
        reveal_with_fuel(worth, 2);
    }
    lemma_order(moved, low);
    lemma_order(moved, high);
    lemma_order(high, moved);
    let gap = real_of(width) - side_of(wall) * real_of(pose.y);
    let t = real_of(slope);
    let along = (real_of(x) - real_of(pose.x)) + t * gap;
    let turn = 1real + t * t + real_of(curvature) * gap;
    lemma_minus_times(real_of(d), turn);
    lemma_swap(turn, -real_of(d));
    assert(aim - real_of(x) == -real_of(d));
    assert(vanishes_at(aim, real_of(x), along, turn));
}

/// A search for a foot starts at the anchor where that lies in the section, makes five corrections at
/// most, and ends before only where a correction would be no larger than the threshold.
pub proof fn law_foot_search<K: Arithmetic>(
    k: &K,
    pose: Pose,
    wall: Wall,
    anchor_x: Double,
    low: Double,
    high: Double,
    steps: Seq<Double>,
)
    requires
        foot_search(k, pose, wall, anchor_x, low, high, steps),
        low.at_most(anchor_x),
        anchor_x.at_most(high),
    ensures
        steps[0] == anchor_x,
        1 <= steps.len() <= 6,
        forall|i: int|
            0 <= i < steps.len() - 1 ==> foot_corrected(
                k,
                pose,
                wall,
                low,
                high,
                #[trigger] steps[i],
                steps[i + 1],
            ),
        steps.len() < 6 ==> exists|d: Double|
            {
                &&& #[trigger] wall_foot_newton_delta_gives(
                    k,
                    pose.x,
                    pose.y,
                    wall,
                    steps.last(),
                    d,
                )
                &&& d.nan() || d.absolute().value() <= (Double {
                    bits: NEWTON_EPSILON_BITS,
                }).value()
            },
{
    if steps.len() < 6 {
        let d = choose|d: Double|
            {
                &&& #[trigger] wall_foot_newton_delta_gives(
                    k,
                    pose.x,
                    pose.y,
                    wall,
                    steps.last(),
                    d,
                )
                &&& !worth_correcting(d)
            };
        assert(wall_foot_newton_delta_gives(k, pose.x, pose.y, wall, steps.last(), d));
    }
}

// ---- Reflections ----

/// Whether a pose is beyond a wall, and `image` is its mirror image there, in the foot that was searched
/// from the anchor in the section of the anchor.
pub open spec fn bounced<K: Arithmetic>(
    k: &K,
    anchor_x: Double,
    pose: Pose,
    image: Pose,
) -> bool {
    exists|width: Double, wall: Wall, section: (Double, Double), steps: Seq<Double>|
        {
            &&& #[trigger] omega_gives(k, pose.x, width)
            &&& match wall {
                Wall::Upper => width.below(pose.y),
                Wall::Lower => pose.y.below(width.negated()),
            }
            &&& #[trigger] channel_section_bounds_gives(k, anchor_x, section)
            &&& #[trigger] foot_search(k, pose, wall, anchor_x, section.0, section.1, steps)
            &&& mirror_at_foot_gives(k, pose, wall, steps.last(), image)
        }
}

/// A pose is mirrored as long as it is beyond a wall, 32 times at most, and what it comes to is handed
/// on with the mark whether it was mirrored at all.
pub proof fn law_way_into_channel<K: Arithmetic>(
    k: &K,
    start: Pose,
    anchor_x: Double,
    state: BoundaryCorrectedState,
)
    requires
        reflection_outcome(k, start, anchor_x, state),
    ensures
        exists|path: Seq<Pose>|
            {
                &&& 1 <= path.len() <= 33
                &&& #[trigger] path[0] == start
                &&& path.last().x == state.x
                &&& path.last().y == state.y
                &&& path.last().phi == state.phi
                &&& state.reflected <==> path.len() > 1
                &&& forall|i: int|
                    0 <= i < path.len() - 1 ==> #[trigger] bounced(
                        k,
                        anchor_x,
                        path[i],
                        path[i + 1],
                    )
            },
{
    reveal(reflection_outcome);
    let path = choose|path: Seq<Pose>|
        {
            &&& #[trigger] reflection_path(k, anchor_x, path)
            &&& path[0] == start
            &&& path.last() == state.pose()
            &&& state.reflected == (path.len() > 1)
        };
    assert forall|i: int| 0 <= i < path.len() - 1 implies #[trigger] bounced(
        k,
        anchor_x,
        path[i],
        path[i + 1],
    ) by {
        assert(reflected_once(k, anchor_x, path[i], path[i + 1]));
        let pose = path[i];
        let width = choose|width: Double|
            {
                &&& #[trigger] omega_gives(k, pose.x, width)
                &&& wall_crossed(pose.y, width) matches Some(wall)
                &&& mirrored(k, pose, wall, anchor_x, path[i + 1])
            };
        let wall = wall_crossed(pose.y, width)->0;
        assert(omega_gives(k, pose.x, width));
        assert(mirrored(k, pose, wall, anchor_x, path[i + 1]));
    }
    assert(path[0] == start);
}

// ---- Whole numbers ----

/// Whether a number is whole.
pub open spec fn whole(x: real) -> bool {
    exists|n: int| #[trigger] whole_of(n) == x
}

/// A whole number among the real ones.
pub open spec fn whole_of(n: int) -> real {
    n as real
}

/// Whether the floor of a number is the largest whole number that is not above it.
pub open spec fn floors<K: Arithmetic>(k: &K) -> bool {
    forall|a: Double, r: Double| #[trigger]
        call_ensures(K::floor, (k, a), r) && a.finite() ==> {
            &&& r.finite()
            &&& whole(real_of(r))
            &&& real_of(r) <= real_of(a) < real_of(r) + 1real
        }
}

/// The whole part of a whole number is the number itself.
pub(crate) proof fn lemma_whole_part(r: real, n: int)
    requires
        whole(r),
        whole_of(n) <= r < whole_of(n) + 1real,
    ensures
        r == whole_of(n),
{
    let m = choose|m: int| #[trigger] whole_of(m) == r;
    assert(n <= m < n + 1);
}

/// What the floor of a formula stands for.
pub(crate) proof fn lemma_floor<K: Arithmetic>(k: &K, a: Expr, r: Double)
    requires
        steady(k),
        floors(k),
        exact(k, floor_of(a)),
        gives(k, floor_of(a), r),
    ensures
        worth(k, floor_of(a)) == real_of(r),
        whole(real_of(r)),
        real_of(r) <= worth(k, a) < real_of(r) + 1real,
{
    law_exact_value(k, floor_of(a), r);
    reveal_with_fuel(gives, 2);
    let p = choose|p: Double| gives(k, a, p) && #[trigger] unary_gives(k, UnaryOp::Floor, p, r);
    law_exact_value(k, a, p);
}

/// A section of the channel is one period long, lies around the place that it is asked for, and begins
/// a whole number of periods from a neck.
pub proof fn law_section_of_channel<K: Arithmetic>(
    k: &K,
    anchor_x: Double,
    section: (Double, Double),
)
    requires
        steady(k),
        floors(k),
        channel_section_bounds_gives(k, anchor_x, section),
        exact(
            k,
            plus(
                floor_of(minus(num(anchor_x), lit(CHANNEL_NECK_PHASE))),
                lit(CHANNEL_NECK_PHASE),
            ),
        ),
        exact(k, plus(num(section.0), lit(L_PERIOD))),
    ensures
        real_of(section.1) == real_of(section.0) + 1real,
        real_of(section.0) <= real_of(anchor_x) < real_of(section.1),
        whole(real_of(section.0) - real_of(Double { bits: CHANNEL_NECK_PHASE })),
{
    let neck = real_of(Double { bits: CHANNEL_NECK_PHASE });
    let inner = minus(num(anchor_x), lit(CHANNEL_NECK_PHASE));
    let first = plus(floor_of(inner), lit(CHANNEL_NECK_PHASE));
    law_exact_value(k, first, section.0);
    law_exact_value(k, plus(num(section.0), lit(L_PERIOD)), section.1);
    let (f, n): (Double, Double) = lemma_parts(
        k,
        BinaryOp::Sum,
        floor_of(inner),
        lit(CHANNEL_NECK_PHASE),
        section.0,
    );
    assert(exact(k, floor_of(inner)));
    lemma_floor(k, inner, f);
    lemma_constants();
    assert(worth(k, inner) == real_of(anchor_x) - neck) by {
        reveal_with_fuel(worth, 2);
    }
    assert(real_of(section.0) == real_of(f) + neck) by {
        reveal_with_fuel(worth, 2);
    }
    assert(real_of(section.1) == real_of(section.0) + 1real) by {
        reveal_with_fuel(worth, 2);
    }
}

} // verus!
