//! The force of both walls on a point, where nothing is rounded.

use vstd::prelude::*;
use crate::algebra::{
    lemma_grouped, lemma_minus_times, lemma_positive_factor, lemma_quotient, lemma_scaled_square,
    lemma_square, lemma_sum_times, lemma_swap, lemma_times_sum,
};
use crate::config::{rc2_gives, Physics, MAX_WALL_REPULSION_FORCE, WALL_K};
use crate::double::{law_equal_numbers_share_bits, weight, Double};
use crate::exact::{
    exact, law_exact_value, lemma_constants, lemma_negated, lemma_order, lemma_sign, real_of, worth,
};
use crate::formula::{
    gives, int_of, law_steady_is_single_valued, minus, num, over, plus, steady, times, Arithmetic,
    HALF,
};
use crate::repulsion::{
    cap_exact, law_capped_force, law_offset_from_wall, offset_exact, points_along, repulsion_exact,
};
use crate::simulation::{
    add_wca_force_gives, capped_wall_force_gives, half_away, nearest_wall_gives, repulsion_added,
    round_to_i64_gives, wall_force_outcome, wall_offset_gives, wall_sum, wca_coefficient, RodPoint,
    WallForce, WallOffset,
};

verus! {

// ---- Which wall points act ----

/// Whether the integer part of a number is what is left of it towards zero.
pub open spec fn truncates<K: Arithmetic>(k: &K) -> bool {
    forall|a: Double, n: i64| #[trigger]
        call_ensures(K::to_signed, (k, a), n) && a.finite() && i64::MIN < n < i64::MAX ==> {
            let part = (n as int) as real;
            &&& real_of(a) >= 0real ==> part <= real_of(a) < part + 1real
            &&& real_of(a) <= 0real ==> part - 1real < real_of(a) <= part
        }
}

/// The nearest wall point is no more than half the distance of two wall points away, and every wall
/// point that is more than `WALL_K` points away from it is at least `WALL_K` and a half such distances
/// away.
pub proof fn law_nearest_wall<K: Arithmetic>(
    k: &K,
    x: Double,
    wall_dx: Double,
    nearest: i64,
    other: int,
)
    requires
        steady(k),
        truncates(k),
        nearest_wall_gives(k, x, wall_dx, nearest),
        i64::MIN < nearest < i64::MAX,
        exact(k, over(num(x), num(wall_dx))),
        forall|place: Double| #[trigger]
            gives(k, over(num(x), num(wall_dx)), place) ==> exact(k, half_away(place)),
        real_of(wall_dx) > 0real,
        other - nearest > WALL_K || nearest - other > WALL_K,
    ensures
        ({
            let dx = real_of(wall_dx);
            let gap = (real_of(x) - (nearest as int) as real * dx) * 2real;
            let far = (real_of(x) - (other as real) * dx) * 2real;
            let reach = (2 * WALL_K + 1) as real * dx;
            &&& -dx <= gap <= dx
            &&& far >= reach || far <= -reach
        }),
{
    let place = choose|place: Double| #[trigger]
        gives(k, over(num(x), num(wall_dx)), place) && round_to_i64_gives(k, place, nearest);
    law_exact_value(k, over(num(x), num(wall_dx)), place);
    let shifted = choose|shifted: Double| #[trigger]
        gives(k, half_away(place), shifted) && call_ensures(K::to_signed, (k, shifted), nearest);
    law_exact_value(k, half_away(place), shifted);
    lemma_constants();
    lemma_sign(place);
    assert((Double { bits: 0 }).value() == 0 && !(Double { bits: 0 }).nan()) by {
        assert(weight(0) == 0);
    }
    let dx = real_of(wall_dx);
    let p = real_of(place);
    let n = (nearest as int) as real;
    let h = real_of(Double { bits: HALF });
    assert(p == real_of(x) / dx) by {
        reveal_with_fuel(worth, 2);
    }
    lemma_quotient(real_of(x), dx);
    assert(real_of(shifted) == if 0real <= p {
        p + h
    } else {
        p - h
    }) by {
        reveal_with_fuel(worth, 2);
    }
    assert(-1real <= (p - n) * 2real <= 1real);
    lemma_sum_times(p, n, dx);
    lemma_swap(dx, p - n);
    let twice = (p - n) * 2real;
    lemma_scaled_bounds(twice, -1real, 1real, dx);
    lemma_grouped(2real, p - n, dx);
    let m = other as real;
    lemma_sum_times(p, m, dx);
    let far = (p - m) * 2real;
    lemma_grouped(2real, p - m, dx);
    let k2 = (2 * WALL_K + 1) as real;
    if other - nearest > WALL_K {
        assert(far <= -k2);
        lemma_minus_times(k2, dx);
        lemma_scaled_bounds(-k2, far, -k2, dx);
    } else {
        assert(far >= k2);
        lemma_scaled_bounds(k2, k2, far, dx);
    }
}

proof fn lemma_scaled_bounds(x: real, low: real, high: real, c: real)
    requires
        low <= x <= high,
        c > 0real,
    ensures
        low * c <= x * c <= high * c,
{
    lemma_sum_times(x, low, c);
    lemma_positive_factor(x - low, c);
    lemma_sum_times(high, x, c);
    lemma_positive_factor(high - x, c);
}

/// The force of the walls on a point is made up of the forces of the wall points around it, `WALL_K`
/// to each side of the nearest one, each first at its height and then at the opposite height.
pub proof fn law_both_walls_act<K: Arithmetic>(
    k: &K,
    physics: Physics,
    wall_y: Seq<Double>,
    point: RodPoint,
    force: WallForce,
)
    requires
        wall_force_outcome(k, physics, wall_y, point, force),
    ensures
        exists|nearest: i64, sums: Seq<WallForce>|
            {
                &&& #[trigger] nearest_wall_gives(k, point.x, physics.wall_dx, nearest)
                &&& #[trigger] summed_over_walls(k, physics, wall_y, point, nearest, sums)
                &&& sums.len() == 4 * WALL_K + 3
                &&& force == sums.last()
            },
{
    let (nearest, sums): (i64, Seq<WallForce>) = choose|nearest: i64, sums: Seq<WallForce>|
        {
            &&& #[trigger] nearest_wall_gives(k, point.x, physics.wall_dx, nearest)
            &&& #[trigger] wall_sum(k, physics, wall_y, point, nearest, sums, 2 * WALL_K + 1)
            &&& force == sums.last()
        };
    lemma_summed(k, physics, wall_y, point, nearest, sums);
}

/// The partial sums over wall points and both walls.
pub open spec fn summed_over_walls<K: Arithmetic>(
    k: &K,
    physics: Physics,
    wall_y: Seq<Double>,
    point: RodPoint,
    nearest: i64,
    sums: Seq<WallForce>,
) -> bool {
    &&& sums[0].force_x == Double::zero()
    &&& sums[0].force_y == Double::zero()
    &&& forall|i: int|
        0 <= i <= 2 * WALL_K ==> #[trigger] pair_added(k, physics, wall_y, point, nearest, sums, i)
}

/// Whether two partial sums follow from both walls at one wall point.
pub open spec fn pair_added<K: Arithmetic>(
    k: &K,
    physics: Physics,
    wall_y: Seq<Double>,
    point: RodPoint,
    nearest: i64,
    sums: Seq<WallForce>,
    i: int,
) -> bool {
    let at = nearest.wrapping_add((i - WALL_K) as i64);
    let height = wall_y[at as int % wall_y.len() as int];
    &&& add_wca_force_gives(k, sums[2 * i], physics, point, at, height, sums[2 * i + 1])
    &&& add_wca_force_gives(
        k,
        sums[2 * i + 1],
        physics,
        point,
        at,
        height.negated(),
        sums[2 * i + 2],
    )
}

proof fn lemma_summed<K: Arithmetic>(
    k: &K,
    physics: Physics,
    wall_y: Seq<Double>,
    point: RodPoint,
    nearest: i64,
    sums: Seq<WallForce>,
)
    requires
        wall_sum(k, physics, wall_y, point, nearest, sums, 2 * WALL_K + 1),
    ensures
        summed_over_walls(k, physics, wall_y, point, nearest, sums),
        sums.len() == 4 * WALL_K + 3,
{
    assert forall|i: int| 0 <= i <= 2 * WALL_K implies #[trigger] pair_added(
        k,
        physics,
        wall_y,
        point,
        nearest,
        sums,
        i,
    ) by {
        let before = sums[2 * i];
    }
}

// ---- Reach ----

/// A wall point acts on a point exactly where they are apart and nearer than the distance at which the
/// repulsion ends.
pub proof fn law_reach_of_wall_point<K: Arithmetic>(
    k: &K,
    force: WallForce,
    physics: Physics,
    point: RodPoint,
    wall_point: i64,
    height: Double,
    rc2: Double,
    after: WallForce,
)
    requires
        steady(k),
        add_wca_force_gives(k, force, physics, point, wall_point, height, after),
        rc2_gives(k, physics.sigma, rc2),
        rc2.finite(),
        forall|offset: WallOffset| #[trigger]
            wall_offset_gives(k, physics.wall_dx, point, wall_point, height, offset)
                ==> offset_exact(k, physics.wall_dx, point, wall_point, height, offset),
    ensures
        ({
            let x = real_of(point.x) - (wall_point as int) as real * real_of(physics.wall_dx);
            let y = real_of(point.y) - real_of(height);
            let square = x * x + y * y;
            &&& square == 0real || square >= real_of(rc2) ==> after == force
            &&& square != 0real && square < real_of(rc2) ==> exists|offset: WallOffset|
                {
                    &&& #[trigger] repulsion_added(k, force, physics, offset, after)
                    &&& real_of(offset.dx) == x
                    &&& real_of(offset.dy) == y
                    &&& real_of(offset.r2) == square
                }
        }),
{
    law_steady_is_single_valued(k);
    let (offset, reach): (WallOffset, Double) = choose|offset: WallOffset, reach: Double|
        {
            &&& #[trigger] wall_offset_gives(k, physics.wall_dx, point, wall_point, height, offset)
            &&& #[trigger] rc2_gives(k, physics.sigma, reach)
            &&& if Double::zero().below(offset.r2) && offset.r2.below(reach) {
                repulsion_added(k, force, physics, offset, after)
            } else {
                after == force
            }
        };
    assert(reach == rc2);
    law_offset_from_wall(k, physics.wall_dx, point, wall_point, height, offset);
    law_exact_value(
        k,
        plus(times(num(offset.dx), num(offset.dx)), times(num(offset.dy), num(offset.dy))),
        offset.r2,
    );
    lemma_order(offset.r2, rc2);
    lemma_sign(offset.r2);
    assert((Double { bits: 0 }).value() == 0) by {
        assert(weight(0) == 0);
    }
    let x = real_of(offset.dx);
    let y = real_of(offset.dy);
    lemma_square(x);
    lemma_square(y);
}

// ---- Mirrored points ----

/// Whether a point is the mirror image of another at the middle of the channel.
pub open spec fn mirrored_point(a: RodPoint, b: RodPoint) -> bool {
    &&& a.x == b.x
    &&& real_of(b.y) == -real_of(a.y)
}

/// Whether a force is the mirror image of another at the middle of the channel.
pub open spec fn mirrored_force(a: WallForce, b: WallForce) -> bool {
    &&& real_of(b.force_x) == real_of(a.force_x)
    &&& real_of(b.force_y) == -real_of(a.force_y)
}

/// Whether the repulsion of one wall point is not rounded.
pub open spec fn wall_point_exact<K: Arithmetic>(
    k: &K,
    physics: Physics,
    force: WallForce,
    point: RodPoint,
    wall_point: i64,
    height: Double,
) -> bool {
    forall|offset: WallOffset, rc2: Double| #[trigger]
        wall_offset_gives(k, physics.wall_dx, point, wall_point, height, offset) && #[trigger]
        rc2_gives(k, physics.sigma, rc2) ==> {
            &&& offset_exact(k, physics.wall_dx, point, wall_point, height, offset)
            &&& Double::zero().below(offset.r2) && offset.r2.below(rc2) ==> repulsion_exact(
                k,
                force,
                physics,
                offset,
            )
        }
}

proof fn lemma_same_share(a: real, b: real, s: real)
    requires
        a >= 0real,
        b >= 0real,
        s > 0real,
        (a * a) * s == (b * b) * s,
    ensures
        a == b,
{
    lemma_sum_times(a * a, b * b, s);
    lemma_positive_factor(a * a - b * b, s);
    lemma_sum_times(a, b, a + b);
    lemma_times_sum(a, a, b);
    lemma_times_sum(b, a, b);
    lemma_swap(a, b);
    if a + b > 0real {
        lemma_positive_factor(a - b, a + b);
    }
}

proof fn lemma_mirrored_cap<K: Arithmetic>(
    k: &K,
    a: WallForce,
    capped_a: WallForce,
    b: WallForce,
    capped_b: WallForce,
)
    requires
        steady(k),
        capped_wall_force_gives(k, a, capped_a),
        capped_wall_force_gives(k, b, capped_b),
        cap_exact(k, a),
        cap_exact(k, b),
        mirrored_force(a, b),
    ensures
        mirrored_force(capped_a, capped_b),
{
    law_capped_force(k, a, capped_a);
    law_capped_force(k, b, capped_b);
    let x = real_of(a.force_x);
    let y = real_of(a.force_y);
    let most = real_of(Double { bits: MAX_WALL_REPULSION_FORCE });
    lemma_minus_times(y, -y);
    lemma_minus_times(y, y);
    lemma_swap(y, -y);
    let square = x * x + y * y;
    assert(x * x + (-y) * (-y) == square);
    if square > most * most {
        let s = choose|s: real| #[trigger]
            points_along(s, x, y, real_of(capped_a.force_x), real_of(capped_a.force_y));
        let t = choose|t: real| #[trigger]
            points_along(t, x, -y, real_of(capped_b.force_x), real_of(capped_b.force_y));
        lemma_swap(s, x);
        lemma_swap(s, y);
        lemma_swap(t, x);
        lemma_swap(t, -y);
        lemma_scaled_square(x, y, s, s);
        lemma_scaled_square(x, -y, t, t);
        assert((s * s) * square == most * most);
        assert((t * t) * square == most * most);
        lemma_square(most);
        lemma_same_share(s, t, square);
        lemma_minus_times(y, s);
        lemma_swap(-y, s);
    }
}

proof fn lemma_mirrored_add<K: Arithmetic>(
    k: &K,
    physics: Physics,
    wall_point: i64,
    height: Double,
    a: RodPoint,
    b: RodPoint,
    force_a: WallForce,
    after_a: WallForce,
    force_b: WallForce,
    after_b: WallForce,
)
    requires
        steady(k),
        add_wca_force_gives(k, force_a, physics, a, wall_point, height, after_a),
        add_wca_force_gives(k, force_b, physics, b, wall_point, height.negated(), after_b),
        wall_point_exact(k, physics, force_a, a, wall_point, height),
        wall_point_exact(k, physics, force_b, b, wall_point, height.negated()),
        mirrored_point(a, b),
    ensures
        real_of(after_b.force_x) - real_of(force_b.force_x) == real_of(after_a.force_x) - real_of(
            force_a.force_x,
        ),
        real_of(after_b.force_y) - real_of(force_b.force_y) == -(real_of(after_a.force_y)
            - real_of(force_a.force_y)),
{
    law_steady_is_single_valued(k);
    let dx = physics.wall_dx;
    let (oa, ra): (WallOffset, Double) = choose|offset: WallOffset, rc2: Double|
        {
            &&& #[trigger] wall_offset_gives(k, dx, a, wall_point, height, offset)
            &&& #[trigger] rc2_gives(k, physics.sigma, rc2)
            &&& if Double::zero().below(offset.r2) && offset.r2.below(rc2) {
                repulsion_added(k, force_a, physics, offset, after_a)
            } else {
                after_a == force_a
            }
        };
    let (ob, rb): (WallOffset, Double) = choose|offset: WallOffset, rc2: Double|
        {
            &&& #[trigger] wall_offset_gives(k, dx, b, wall_point, height.negated(), offset)
            &&& #[trigger] rc2_gives(k, physics.sigma, rc2)
            &&& if Double::zero().below(offset.r2) && offset.r2.below(rc2) {
                repulsion_added(k, force_b, physics, offset, after_b)
            } else {
                after_b == force_b
            }
        };
    assert(ra == rb);
    law_offset_from_wall(k, dx, a, wall_point, height, oa);
    law_offset_from_wall(k, dx, b, wall_point, height.negated(), ob);
    lemma_negated(height);
    let across = minus(num(a.x), times(int_of(wall_point), num(dx)));
    assert(oa.dx == ob.dx) by {
        assert(gives(k, across, oa.dx));
        assert(gives(k, across, ob.dx));
    }
    let y = real_of(oa.dy);
    assert(real_of(ob.dy) == -y);
    lemma_minus_times(y, -y);
    lemma_swap(y, -y);
    lemma_minus_times(y, y);
    assert(real_of(oa.r2) == real_of(ob.r2));
    lemma_order(oa.r2, ob.r2);
    law_exact_value(
        k,
        plus(times(num(oa.dx), num(oa.dx)), times(num(oa.dy), num(oa.dy))),
        oa.r2,
    );
    law_exact_value(
        k,
        plus(times(num(ob.dx), num(ob.dx)), times(num(ob.dy), num(ob.dy))),
        ob.r2,
    );
    if Double::zero().below(oa.r2) && oa.r2.below(ra) {
        assert((Double { bits: 0 }).value() == 0) by {
            assert(weight(0) == 0);
        }
        law_equal_numbers_share_bits(oa.r2, ob.r2);
        assert(oa.r2 == ob.r2) by {
            if oa.r2.magnitude() == 0 {
                assert(weight(0) == 0);
            }
        }
        lemma_mirrored_repulsion(k, physics, oa, ob, force_a, after_a, force_b, after_b);
    }
}

proof fn lemma_mirrored_repulsion<K: Arithmetic>(
    k: &K,
    physics: Physics,
    oa: WallOffset,
    ob: WallOffset,
    force_a: WallForce,
    after_a: WallForce,
    force_b: WallForce,
    after_b: WallForce,
)
    requires
        steady(k),
        repulsion_added(k, force_a, physics, oa, after_a),
        repulsion_added(k, force_b, physics, ob, after_b),
        repulsion_exact(k, force_a, physics, oa),
        repulsion_exact(k, force_b, physics, ob),
        oa.dx == ob.dx,
        real_of(ob.dy) == -real_of(oa.dy),
        oa.r2 == ob.r2,
    ensures
        real_of(after_b.force_x) - real_of(force_b.force_x) == real_of(after_a.force_x) - real_of(
            force_a.force_x,
        ),
        real_of(after_b.force_y) - real_of(force_b.force_y) == -(real_of(after_a.force_y)
            - real_of(force_a.force_y)),
{
    let coefficient = wca_coefficient(physics.sigma, physics.epsilon, oa.r2);
    let (pa, ca): (WallForce, WallForce) = choose|pair: WallForce, capped: WallForce|
        {
            &&& gives(k, times(coefficient, num(oa.dx)), pair.force_x)
            &&& gives(k, times(coefficient, num(oa.dy)), pair.force_y)
            &&& #[trigger] capped_wall_force_gives(k, pair, capped)
            &&& gives(k, plus(num(force_a.force_x), num(capped.force_x)), after_a.force_x)
            &&& gives(k, plus(num(force_a.force_y), num(capped.force_y)), after_a.force_y)
        };
    let (pb, cb): (WallForce, WallForce) = choose|pair: WallForce, capped: WallForce|
        {
            &&& gives(k, times(coefficient, num(ob.dx)), pair.force_x)
            &&& gives(k, times(coefficient, num(ob.dy)), pair.force_y)
            &&& #[trigger] capped_wall_force_gives(k, pair, capped)
            &&& gives(k, plus(num(force_b.force_x), num(capped.force_x)), after_b.force_x)
            &&& gives(k, plus(num(force_b.force_y), num(capped.force_y)), after_b.force_y)
        };
    law_exact_value(k, times(coefficient, num(oa.dx)), pa.force_x);
    law_exact_value(k, times(coefficient, num(oa.dy)), pa.force_y);
    law_exact_value(k, times(coefficient, num(ob.dx)), pb.force_x);
    law_exact_value(k, times(coefficient, num(ob.dy)), pb.force_y);
    law_exact_value(k, plus(num(force_a.force_x), num(ca.force_x)), after_a.force_x);
    law_exact_value(k, plus(num(force_a.force_y), num(ca.force_y)), after_a.force_y);
    law_exact_value(k, plus(num(force_b.force_x), num(cb.force_x)), after_b.force_x);
    law_exact_value(k, plus(num(force_b.force_y), num(cb.force_y)), after_b.force_y);
    let w = worth(k, coefficient);
    let y = real_of(oa.dy);
    lemma_swap(w, y);
    lemma_swap(w, -y);
    lemma_minus_times(y, w);
    assert(mirrored_force(pa, pb)) by {
        reveal_with_fuel(worth, 2);
    }
    lemma_mirrored_cap(k, pa, ca, pb, cb);
    reveal_with_fuel(worth, 2);
}

/// Whether the force of the walls on a point is not rounded.
pub open spec fn walls_exact<K: Arithmetic>(
    k: &K,
    physics: Physics,
    wall_y: Seq<Double>,
    point: RodPoint,
) -> bool {
    forall|nearest: i64, sums: Seq<WallForce>| #[trigger]
        wall_sum(k, physics, wall_y, point, nearest, sums, 2 * WALL_K + 1) ==> forall|i: int|
            0 <= i <= 2 * WALL_K ==> #[trigger] pair_exact(
                k,
                physics,
                wall_y,
                point,
                nearest,
                sums,
                i,
            )
}

/// Whether the forces of both walls at one wall point are not rounded.
pub open spec fn pair_exact<K: Arithmetic>(
    k: &K,
    physics: Physics,
    wall_y: Seq<Double>,
    point: RodPoint,
    nearest: i64,
    sums: Seq<WallForce>,
    i: int,
) -> bool {
    let at = nearest.wrapping_add((i - WALL_K) as i64);
    let height = wall_y[at as int % wall_y.len() as int];
    &&& wall_point_exact(k, physics, sums[2 * i], point, at, height)
    &&& wall_point_exact(k, physics, sums[2 * i + 1], point, at, height.negated())
}

/// The walls are mirror images of each other, and so are the forces that they exert: the force on the
/// mirror image of a point is the mirror image of the force on the point.
pub proof fn law_walls_are_symmetric<K: Arithmetic>(
    k: &K,
    physics: Physics,
    wall_y: Seq<Double>,
    a: RodPoint,
    b: RodPoint,
    force_a: WallForce,
    force_b: WallForce,
)
    requires
        steady(k),
        wall_force_outcome(k, physics, wall_y, a, force_a),
        wall_force_outcome(k, physics, wall_y, b, force_b),
        walls_exact(k, physics, wall_y, a),
        walls_exact(k, physics, wall_y, b),
        mirrored_point(a, b),
    ensures
        mirrored_force(force_a, force_b),
{
    law_steady_is_single_valued(k);
    let (na, sa): (i64, Seq<WallForce>) = choose|nearest: i64, sums: Seq<WallForce>|
        {
            &&& #[trigger] nearest_wall_gives(k, a.x, physics.wall_dx, nearest)
            &&& #[trigger] wall_sum(k, physics, wall_y, a, nearest, sums, 2 * WALL_K + 1)
            &&& force_a == sums.last()
        };
    let (nb, sb): (i64, Seq<WallForce>) = choose|nearest: i64, sums: Seq<WallForce>|
        {
            &&& #[trigger] nearest_wall_gives(k, b.x, physics.wall_dx, nearest)
            &&& #[trigger] wall_sum(k, physics, wall_y, b, nearest, sums, 2 * WALL_K + 1)
            &&& force_b == sums.last()
        };
    assert(na == nb);
    lemma_summed(k, physics, wall_y, a, na, sa);
    lemma_summed(k, physics, wall_y, b, nb, sb);
    lemma_mirrored_sums(k, physics, wall_y, a, b, na, sa, sb, 2 * WALL_K + 1);
}

proof fn lemma_mirrored_sums<K: Arithmetic>(
    k: &K,
    physics: Physics,
    wall_y: Seq<Double>,
    a: RodPoint,
    b: RodPoint,
    nearest: i64,
    sa: Seq<WallForce>,
    sb: Seq<WallForce>,
    n: int,
)
    requires
        steady(k),
        summed_over_walls(k, physics, wall_y, a, nearest, sa),
        summed_over_walls(k, physics, wall_y, b, nearest, sb),
        forall|i: int|
            0 <= i <= 2 * WALL_K ==> #[trigger] pair_exact(
                k,
                physics,
                wall_y,
                a,
                nearest,
                sa,
                i,
            ),
        forall|i: int|
            0 <= i <= 2 * WALL_K ==> #[trigger] pair_exact(
                k,
                physics,
                wall_y,
                b,
                nearest,
                sb,
                i,
            ),
        mirrored_point(a, b),
        0 <= n <= 2 * WALL_K + 1,
    ensures
        mirrored_force(sa[2 * n], sb[2 * n]),
    decreases n,
{
    if n == 0 {
        assert(weight(0) == 0);
        lemma_sign(Double::zero());
    }
    if n > 0 {
        let i = n - 1;
        lemma_mirrored_sums(k, physics, wall_y, a, b, nearest, sa, sb, i);
        assert(pair_added(k, physics, wall_y, a, nearest, sa, i));
        assert(pair_added(k, physics, wall_y, b, nearest, sb, i));
        assert(pair_exact(k, physics, wall_y, a, nearest, sa, i));
        assert(pair_exact(k, physics, wall_y, b, nearest, sb, i));
        let at = nearest.wrapping_add((i - WALL_K) as i64);
        let height = wall_y[at as int % wall_y.len() as int];
        assert(height.negated().negated() == height);
        lemma_mirrored_add(
            k,
            physics,
            at,
            height,
            a,
            b,
            sa[2 * i],
            sa[2 * i + 1],
            sb[2 * i + 1],
            sb[2 * i + 2],
        );
        lemma_mirrored_add(
            k,
            physics,
            at,
            height.negated(),
            a,
            b,
            sa[2 * i + 1],
            sa[2 * i + 2],
            sb[2 * i],
            sb[2 * i + 1],
        );
        assert(2 * i + 2 == 2 * n);
    }
}

} // verus!
