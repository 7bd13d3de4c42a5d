//! The repulsion of the walls in the animation, where nothing is rounded.

use vstd::prelude::*;
use crate::algebra::lemma_square;
use crate::config::{Physics, WALL_K};
use crate::cpu_sim::{
    add_repulsion_gives, cutoff_of, held_coefficient, held_repulsion_added, in_reach, wall_step,
    walls_outcome, walls_summed, MAX_VISUAL_WCA_COEFF, SIXTH_ROOT_OF_TWO,
};
use crate::double::{weight, Double};
use crate::exact::{
    exact, law_exact_value, lemma_digits, lemma_negated, lemma_order, lemma_sign, real_of, worth,
};
use crate::formula::{
    gives, law_formula_has_one_value, law_steady_is_single_valued, num, plus, steady, times,
    Arithmetic,
};
use crate::repulsion::{law_offset_from_wall, law_repulsion_coefficient, offset_exact, points_along};
use crate::simulation::{
    nearest_wall_gives, wall_offset_gives, wca_coefficient, RodPoint, WallForce, WallOffset,
};

verus! {

/// Whether the repulsion of one wall point in the animation is not rounded.
pub open spec fn displayed_repulsion_exact<K: Arithmetic>(
    k: &K,
    physics: Physics,
    force: WallForce,
    point: RodPoint,
    wall_point: i64,
    height: Double,
    cutoff: Double,
) -> bool {
    forall|offset: WallOffset| #[trigger]
        wall_offset_gives(k, physics.wall_dx, point, wall_point, height, offset) ==> {
            &&& offset_exact(k, physics.wall_dx, point, wall_point, height, offset)
            &&& in_reach(offset, cutoff) ==> held_repulsion_exact(k, physics, force, offset)
        }
}

/// Whether the held repulsion at an offset is not rounded.
pub open spec fn held_repulsion_exact<K: Arithmetic>(
    k: &K,
    physics: Physics,
    force: WallForce,
    offset: WallOffset,
) -> bool {
    let formula = wca_coefficient(physics.sigma, physics.epsilon, offset.r2);
    &&& exact(k, formula)
    &&& forall|coefficient: Double| #[trigger]
        gives(k, formula, coefficient) ==> {
            let held = num(held_coefficient(coefficient));
            &&& exact(k, plus(num(force.force_x), times(held, num(offset.dx))))
            &&& exact(k, plus(num(force.force_y), times(held, num(offset.dy))))
        }
}

proof fn lemma_largest_coefficient()
    ensures
        real_of(Double { bits: MAX_VISUAL_WCA_COEFF }) == 2500000real,
{
    vstd::arithmetic::power2::lemma2_to64();
    vstd::arithmetic::power2::lemma2_to64_rest();
    lemma_digits(Double { bits: MAX_VISUAL_WCA_COEFF }, 0x13_12d0_0000_0000, 31, 0x8000_0000);
}

/// A displayed wall point acts on a point exactly where they are apart and nearer than the sixth root
/// of 2 times sigma, and then pushes it straight away from itself: by the way between them times the
/// coefficient of the repulsion, or times the largest coefficient where it would be more.
pub proof fn law_displayed_walls_repel<K: Arithmetic>(
    k: &K,
    physics: Physics,
    force: WallForce,
    point: RodPoint,
    wall_point: i64,
    height: Double,
    cutoff: Double,
    after: WallForce,
)
    requires
        steady(k),
        add_repulsion_gives(k, physics, force, point, wall_point, height, after),
        gives(k, cutoff_of(physics.sigma), cutoff),
        exact(k, cutoff_of(physics.sigma)),
        displayed_repulsion_exact(k, physics, force, point, wall_point, height, cutoff),
        real_of(physics.epsilon) > 0real,
        real_of(physics.sigma) * real_of(physics.sigma) > 0real,
    ensures
        ({
            let x = real_of(point.x) - (wall_point as int) as real * real_of(physics.wall_dx);
            let y = real_of(point.y) - real_of(height);
            let q = x * x + y * y;
            let s = real_of(physics.sigma) * real_of(physics.sigma);
            let s3 = s * s * s;
            let q3 = q * q * q;
            let rc = real_of(Double { bits: SIXTH_ROOT_OF_TWO }) * real_of(physics.sigma);
            &&& q == 0real || q >= rc * rc ==> after == force
            &&& q != 0real && q < rc * rc && q3 < 2real * s3 ==> exists|share: real|
                {
                    &&& #[trigger] points_along(
                        share,
                        x,
                        y,
                        real_of(after.force_x) - real_of(force.force_x),
                        real_of(after.force_y) - real_of(force.force_y),
                    )
                    &&& 0real < share <= 2500000real
                    &&& share == 2500000real || share * (q * q3 * q3) == 24real * real_of(
                        physics.epsilon,
                    ) * s3 * (2real * s3 - q3)
                }
        }),
{
    law_steady_is_single_valued(k);
    let (offset, reach): (WallOffset, Double) = choose|offset: WallOffset, reach: Double|
        {
            &&& #[trigger] wall_offset_gives(k, physics.wall_dx, point, wall_point, height, offset)
            &&& #[trigger] gives(k, cutoff_of(physics.sigma), reach)
            &&& if in_reach(offset, reach) {
                held_repulsion_added(k, physics, force, offset, after)
            } else {
                after == force
            }
        };
    law_formula_has_one_value(k, cutoff_of(physics.sigma), reach, cutoff);
    law_offset_from_wall(k, physics.wall_dx, point, wall_point, height, offset);
    law_exact_value(
        k,
        plus(times(num(offset.dx), num(offset.dx)), times(num(offset.dy), num(offset.dy))),
        offset.r2,
    );
    law_exact_value(k, cutoff_of(physics.sigma), cutoff);
    let rc = real_of(Double { bits: SIXTH_ROOT_OF_TWO }) * real_of(physics.sigma);
    assert(real_of(cutoff) == rc * rc) by {
        reveal_with_fuel(worth, 3);
    }
    lemma_order(offset.r2, cutoff);
    lemma_sign(offset.r2);
    assert((Double { bits: 0 }).value() == 0) by {
        assert(weight(0) == 0);
    }
    let x = real_of(offset.dx);
    let y = real_of(offset.dy);
    let q = real_of(offset.r2);
    let s = real_of(physics.sigma) * real_of(physics.sigma);
    let s3 = s * s * s;
    let q3 = q * q * q;
    lemma_square(x);
    lemma_square(y);
    if q != 0real && q < rc * rc && q3 < 2real * s3 {
        let formula = wca_coefficient(physics.sigma, physics.epsilon, offset.r2);
        let c = choose|c: Double|
            {
                let held = num(held_coefficient(c));
                &&& #[trigger] gives(k, formula, c)
                &&& gives(k, plus(num(force.force_x), times(held, num(offset.dx))), after.force_x)
                &&& gives(k, plus(num(force.force_y), times(held, num(offset.dy))), after.force_y)
            };
        law_repulsion_coefficient(k, physics.sigma, physics.epsilon, offset.r2, c);
        law_exact_value(k, formula, c);
        let held = held_coefficient(c);
        let most = Double { bits: MAX_VISUAL_WCA_COEFF };
        lemma_largest_coefficient();
        lemma_negated(most);
        lemma_order(c, most);
        lemma_order(most, c);
        lemma_order(c, most.negated());
        lemma_order(most.negated(), c);
        let share = real_of(held);
        assert(share == real_of(c) || share == 2500000real);
        assert(0real < share <= 2500000real);
        law_exact_value(
            k,
            plus(num(force.force_x), times(num(held), num(offset.dx))),
            after.force_x,
        );
        law_exact_value(
            k,
            plus(num(force.force_y), times(num(held), num(offset.dy))),
            after.force_y,
        );
        let fx = real_of(after.force_x) - real_of(force.force_x);
        let fy = real_of(after.force_y) - real_of(force.force_y);
        assert(fx == share * x && fy == share * y) by {
            reveal_with_fuel(worth, 3);
        }
        assert(points_along(share, x, y, fx, fy));
    }
}

/// The force of the displayed walls on a point is made up of the forces of the wall points around it,
/// `WALL_K` to each side of the nearest one, each at its height and at the opposite height.
pub proof fn law_both_displayed_walls_act<K: Arithmetic>(
    k: &K,
    physics: Physics,
    wall_y: Seq<Double>,
    point: RodPoint,
    force: WallForce,
)
    requires
        walls_outcome(k, physics, wall_y, point, force),
    ensures
        exists|nearest: i64, sums: Seq<WallForce>|
            {
                &&& #[trigger] nearest_wall_gives(k, point.x, physics.wall_dx, nearest)
                &&& sums.len() == 2 * WALL_K + 2
                &&& (#[trigger] sums[0]).force_x == Double::zero()
                &&& sums[0].force_y == Double::zero()
                &&& sums.last() == force
                &&& forall|i: int|
                    0 <= i <= 2 * WALL_K ==> #[trigger] both_walls_at(
                        k,
                        physics,
                        wall_y,
                        point,
                        nearest.wrapping_add((i - WALL_K) as i64),
                        sums[i],
                        sums[i + 1],
                    )
            },
{
    let (nearest, sums): (i64, Seq<WallForce>) = choose|nearest: i64, sums: Seq<WallForce>|
        {
            &&& #[trigger] nearest_wall_gives(k, point.x, physics.wall_dx, nearest)
            &&& #[trigger] walls_summed(k, physics, wall_y, point, nearest, sums)
            &&& sums.len() == 2 * WALL_K + 2
            &&& force == sums.last()
        };
    assert forall|i: int| 0 <= i <= 2 * WALL_K implies #[trigger] both_walls_at(
        k,
        physics,
        wall_y,
        point,
        nearest.wrapping_add((i - WALL_K) as i64),
        sums[i],
        sums[i + 1],
    ) by {
        assert(wall_step(k, physics, wall_y, point, nearest, sums, i));
    }
    assert(sums[0].force_x == Double::zero());
}

/// Whether the walls at a wall point, one at its height and one at the opposite height, lead from one
/// force to another.
pub open spec fn both_walls_at<K: Arithmetic>(
    k: &K,
    physics: Physics,
    wall_y: Seq<Double>,
    point: RodPoint,
    at: i64,
    before: WallForce,
    after: WallForce,
) -> bool {
    let height = wall_y[at as int % wall_y.len() as int];
    exists|between: WallForce|
        {
            &&& #[trigger] add_repulsion_gives(k, physics, before, point, at, height, between)
            &&& add_repulsion_gives(k, physics, between, point, at, height.negated(), after)
        }
}

} // verus!
