//! The repulsion of the walls, where nothing is rounded.

use vstd::prelude::*;
use crate::algebra::{
    lemma_coefficient, lemma_cube_of_product, lemma_grouped, lemma_positive_factor,
    lemma_product_positive, lemma_quotient, lemma_scaled_square, lemma_swap, lemma_times_zero,
};
use crate::config::{Physics, MAX_WALL_REPULSION_FORCE};
use crate::double::{Double, FRACTION_SPAN};
use crate::exact::{
    exact, law_exact_value, lemma_constants, lemma_divisor, lemma_order, lemma_root, lemma_sign,
    real_of, worth,
};
use crate::formula::{
    gives, int_of, lit, minus, num, over, plus, sqrt_of, steady, times, Arithmetic, BinaryOp,
};
use crate::mechanics::lemma_parts;
use crate::simulation::{
    capped_wall_force_gives, repulsion_added, wall_offset_gives, wca_coefficient, RodPoint,
    WallForce, WallOffset,
};

verus! {

/// Whether the way from a wall point to a point is not rounded.
pub open spec fn offset_exact<K: Arithmetic>(
    k: &K,
    wall_dx: Double,
    point: RodPoint,
    wall_point: i64,
    wall_y: Double,
    offset: WallOffset,
) -> bool {
    &&& exact(k, minus(num(point.x), times(int_of(wall_point), num(wall_dx))))
    &&& exact(k, minus(num(point.y), num(wall_y)))
    &&& exact(
        k,
        plus(times(num(offset.dx), num(offset.dx)), times(num(offset.dy), num(offset.dy))),
    )
}

/// The offset of a point leads from the wall point to it, and `r2` is the square of its length.
pub proof fn law_offset_from_wall<K: Arithmetic>(
    k: &K,
    wall_dx: Double,
    point: RodPoint,
    wall_point: i64,
    wall_y: Double,
    offset: WallOffset,
)
    requires
        steady(k),
        wall_offset_gives(k, wall_dx, point, wall_point, wall_y, offset),
        offset_exact(k, wall_dx, point, wall_point, wall_y, offset),
    ensures
        (wall_point as int) as real * real_of(wall_dx) + real_of(offset.dx) == real_of(point.x),
        real_of(wall_y) + real_of(offset.dy) == real_of(point.y),
        real_of(offset.r2) == real_of(offset.dx) * real_of(offset.dx) + real_of(offset.dy)
            * real_of(offset.dy),
{
    law_exact_value(
        k,
        minus(num(point.x), times(int_of(wall_point), num(wall_dx))),
        offset.dx,
    );
    law_exact_value(k, minus(num(point.y), num(wall_y)), offset.dy);
    law_exact_value(
        k,
        plus(times(num(offset.dx), num(offset.dx)), times(num(offset.dy), num(offset.dy))),
        offset.r2,
    );
    reveal_with_fuel(worth, 4);
}

/// The coefficient of the repulsion at a distance: with S the square of sigma and q that of the
/// distance, it is 24 epsilon S^3 (2 S^3 - q^3) / q^7. It is positive below the distance at which
/// q^3 is 2 S^3, and zero there.
pub proof fn law_repulsion_coefficient<K: Arithmetic>(
    k: &K,
    sigma: Double,
    epsilon: Double,
    r2: Double,
    coefficient: Double,
)
    requires
        steady(k),
        gives(k, wca_coefficient(sigma, epsilon, r2), coefficient),
        exact(k, wca_coefficient(sigma, epsilon, r2)),
        real_of(r2) > 0real,
    ensures
        ({
            let s = real_of(sigma) * real_of(sigma);
            let q = real_of(r2);
            let s3 = s * s * s;
            let q3 = q * q * q;
            &&& real_of(coefficient) * (q * q3 * q3) == 24real * real_of(epsilon) * s3 * (2real * s3
                - q3)
            &&& real_of(epsilon) > 0real && s > 0real && q3 < 2real * s3 ==> real_of(coefficient)
                > 0real
            &&& q3 == 2real * s3 ==> real_of(coefficient) == 0real
        }),
{
    law_exact_value(k, wca_coefficient(sigma, epsilon, r2), coefficient);
    lemma_constants();
    let s = real_of(sigma) * real_of(sigma);
    let q = real_of(r2);
    let e = real_of(epsilon);
    let x = s / q;
    let y = (24real * e) / q;
    let w = real_of(coefficient);
    assert(w == (y * (x * x * x)) * (2real * (x * x * x) - 1real)) by {
        reveal_with_fuel(worth, 7);
    }
    lemma_quotient(s, q);
    lemma_quotient(24real * e, q);
    let x3 = x * x * x;
    let s3 = s * s * s;
    let q3 = q * q * q;
    lemma_cube_of_product(x, q);
    assert(x3 * q3 == s3);
    lemma_coefficient(y, x3, q, q3);
    let base = q * q3 * q3;
    assert(w * base == (24real * e) * s3 * (2real * s3 - q3));
    lemma_product_positive(q, q);
    lemma_product_positive(q * q, q);
    lemma_product_positive(q, q3);
    lemma_product_positive(q * q3, q3);
    lemma_positive_factor(w, base);
    let rest = 2real * s3 - q3;
    if rest == 0real {
        lemma_times_zero((24real * e) * s3);
    }
    if e > 0real && s > 0real && rest > 0real {
        lemma_product_positive(s, s);
        lemma_product_positive(s * s, s);
        lemma_product_positive(24real * e, s3);
        lemma_product_positive((24real * e) * s3, rest);
    }
}

/// Whether a force has a direction: it is that direction times a share that is not negative.
pub open spec fn points_along(share: real, x: real, y: real, force_x: real, force_y: real) -> bool {
    &&& share >= 0real
    &&& share * x == force_x
    &&& share * y == force_y
}

/// Whether the cap on a force is not rounded.
pub open spec fn cap_exact<K: Arithmetic>(k: &K, force: WallForce) -> bool {
    let square = plus(
        times(num(force.force_x), num(force.force_x)),
        times(num(force.force_y), num(force.force_y)),
    );
    let most = lit(MAX_WALL_REPULSION_FORCE);
    &&& exact(k, square)
    &&& exact(k, times(most, most))
    &&& forall|length: Double, limit: Double| #[trigger]
        gives(k, square, length) && #[trigger] gives(k, times(most, most), limit) && limit.below(
            length,
        ) ==> {
            let scale = over(most, sqrt_of(num(length)));
            &&& exact(k, times(num(force.force_x), scale))
            &&& exact(k, times(num(force.force_y), scale))
        }
}

/// A capped force has the direction of the force; it is the force itself up to the largest one, and
/// as long as the largest one beyond.
pub proof fn law_capped_force<K: Arithmetic>(k: &K, force: WallForce, capped: WallForce)
    requires
        steady(k),
        capped_wall_force_gives(k, force, capped),
        cap_exact(k, force),
    ensures
        ({
            let x = real_of(force.force_x);
            let y = real_of(force.force_y);
            let cx = real_of(capped.force_x);
            let cy = real_of(capped.force_y);
            let most = real_of(Double { bits: MAX_WALL_REPULSION_FORCE });
            &&& x * x + y * y <= most * most ==> capped == force
            &&& x * x + y * y > most * most ==> cx * cx + cy * cy == most * most
            &&& exists|share: real| #[trigger] points_along(share, x, y, cx, cy)
        }),
{
    let square = plus(
        times(num(force.force_x), num(force.force_x)),
        times(num(force.force_y), num(force.force_y)),
    );
    let top = lit(MAX_WALL_REPULSION_FORCE);
    let (length, limit): (Double, Double) = choose|length: Double, limit: Double|
        {
            &&& #[trigger] gives(k, square, length)
            &&& #[trigger] gives(k, times(top, top), limit)
            &&& if limit.below(length) {
                let scale = over(top, sqrt_of(num(length)));
                &&& gives(k, times(num(force.force_x), scale), capped.force_x)
                &&& gives(k, times(num(force.force_y), scale), capped.force_y)
            } else {
                capped == force
            }
        };
    law_exact_value(k, square, length);
    law_exact_value(k, times(top, top), limit);
    let x = real_of(force.force_x);
    let y = real_of(force.force_y);
    let most = real_of(Double { bits: MAX_WALL_REPULSION_FORCE });
    assert(real_of(length) == x * x + y * y && real_of(limit) == most * most) by {
        reveal_with_fuel(worth, 3);
    }
    lemma_order(limit, length);
    if limit.below(length) {
        let root = sqrt_of(num(length));
        let scale = over(top, root);
        assert(exact(k, scale) && exact(k, root)) by {
            reveal_with_fuel(exact, 3);
        }
        let (fx, sx) = lemma_parts(
            k,
            BinaryOp::Product,
            num(force.force_x),
            scale,
            capped.force_x,
        );
        law_exact_value(k, times(num(force.force_x), scale), capped.force_x);
        law_exact_value(k, times(num(force.force_y), scale), capped.force_y);
        let (t, r) = lemma_parts(k, BinaryOp::Quotient, top, root, sx);
        lemma_root(k, num(length), r);
        lemma_divisor(k, top, root, sx);
        law_exact_value(k, root, r);
        law_exact_value(k, scale, sx);
        let share = real_of(sx);
        let w = real_of(r);
        let cx = real_of(capped.force_x);
        let cy = real_of(capped.force_y);
        lemma_largest();
        assert(cx == x * share && cy == y * share) by {
            reveal_with_fuel(worth, 3);
        }
        assert(w * w == x * x + y * y) by {
            reveal_with_fuel(worth, 2);
        }
        assert(share * w == most) by {
            reveal_with_fuel(worth, 2);
        }
        lemma_positive_factor(share, w);
        lemma_scaled_square(x, y, share, w);
        assert(cx * cx + cy * cy == most * most);
        lemma_swap(x, share);
        lemma_swap(y, share);
        assert(points_along(share, x, y, cx, cy));
    } else {
        assert(points_along(1real, x, y, x, y));
    }
}

proof fn lemma_largest()
    ensures
        real_of(Double { bits: MAX_WALL_REPULSION_FORCE }) > 0real,
{
    let d = Double { bits: MAX_WALL_REPULSION_FORCE };
    lemma_sign(d);
    let e = d.magnitude() / (FRACTION_SPAN as int);
    vstd::arithmetic::power2::lemma_pow2_pos((e - 1) as nat);
    let p = vstd::arithmetic::power2::pow2((e - 1) as nat) as int;
    let f = d.magnitude() % (FRACTION_SPAN as int);
    assert((FRACTION_SPAN + f) * p > 0) by (nonlinear_arith)
        requires
            p > 0,
            f >= 0,
            FRACTION_SPAN > 0,
    ;
}

/// Whether the repulsion at an offset is not rounded.
pub open spec fn repulsion_exact<K: Arithmetic>(
    k: &K,
    force: WallForce,
    physics: Physics,
    offset: WallOffset,
) -> bool {
    let coefficient = wca_coefficient(physics.sigma, physics.epsilon, offset.r2);
    &&& exact(k, times(coefficient, num(offset.dx)))
    &&& exact(k, times(coefficient, num(offset.dy)))
    &&& forall|pair: WallForce, capped: WallForce|
        gives(k, times(coefficient, num(offset.dx)), pair.force_x) && gives(
            k,
            times(coefficient, num(offset.dy)),
            pair.force_y,
        ) && #[trigger] capped_wall_force_gives(k, pair, capped) ==> {
            &&& cap_exact(k, pair)
            &&& exact(k, plus(num(force.force_x), num(capped.force_x)))
            &&& exact(k, plus(num(force.force_y), num(capped.force_y)))
        }
}

/// A wall point pushes a point that is nearer than the distance at which the repulsion ends straight
/// away from itself: by the way between them times the coefficient of the repulsion, or with the
/// largest force where that would be more.
pub proof fn law_walls_repel<K: Arithmetic>(
    k: &K,
    force: WallForce,
    physics: Physics,
    offset: WallOffset,
    after: WallForce,
)
    requires
        steady(k),
        repulsion_added(k, force, physics, offset, after),
        repulsion_exact(k, force, physics, offset),
        real_of(offset.r2) > 0real,
        real_of(physics.epsilon) > 0real,
        real_of(physics.sigma) * real_of(physics.sigma) > 0real,
        ({
            let s = real_of(physics.sigma) * real_of(physics.sigma);
            let q = real_of(offset.r2);
            q * q * q < 2real * (s * s * s)
        }),
    ensures
        ({
            let s = real_of(physics.sigma) * real_of(physics.sigma);
            let q = real_of(offset.r2);
            let s3 = s * s * s;
            let q3 = q * q * q;
            let x = real_of(after.force_x) - real_of(force.force_x);
            let y = real_of(after.force_y) - real_of(force.force_y);
            let most = real_of(Double { bits: MAX_WALL_REPULSION_FORCE });
            exists|share: real|
                {
                    &&& #[trigger] points_along(
                        share,
                        real_of(offset.dx),
                        real_of(offset.dy),
                        x,
                        y,
                    )
                    &&& share > 0real
                    &&& x * x + y * y == most * most || share * (q * q3 * q3) == 24real * real_of(
                        physics.epsilon,
                    ) * s3 * (2real * s3 - q3)
                }
        }),
{
    let coefficient = wca_coefficient(physics.sigma, physics.epsilon, offset.r2);
    let (pair, capped): (WallForce, WallForce) = choose|pair: WallForce, capped: WallForce|
        {
            &&& gives(k, times(coefficient, num(offset.dx)), pair.force_x)
            &&& gives(k, times(coefficient, num(offset.dy)), pair.force_y)
            &&& #[trigger] capped_wall_force_gives(k, pair, capped)
            &&& gives(k, plus(num(force.force_x), num(capped.force_x)), after.force_x)
            &&& gives(k, plus(num(force.force_y), num(capped.force_y)), after.force_y)
        };
    law_capped_force(k, pair, capped);
    let (w, dx) = lemma_parts(
        k,
        BinaryOp::Product,
        coefficient,
        num(offset.dx),
        pair.force_x,
    );
    law_exact_value(k, coefficient, w);
    law_repulsion_coefficient(k, physics.sigma, physics.epsilon, offset.r2, w);
    law_exact_value(k, times(coefficient, num(offset.dx)), pair.force_x);
    law_exact_value(k, times(coefficient, num(offset.dy)), pair.force_y);
    law_exact_value(k, plus(num(force.force_x), num(capped.force_x)), after.force_x);
    law_exact_value(k, plus(num(force.force_y), num(capped.force_y)), after.force_y);
    let c = real_of(w);
    let x = real_of(offset.dx);
    let y = real_of(offset.dy);
    assert(real_of(pair.force_x) == c * x && real_of(pair.force_y) == c * y) by {
        reveal_with_fuel(worth, 2);
    }
    assert(real_of(after.force_x) - real_of(force.force_x) == real_of(capped.force_x)
        && real_of(after.force_y) - real_of(force.force_y) == real_of(capped.force_y)) by {
        reveal_with_fuel(worth, 2);
    }
    let fx = real_of(after.force_x) - real_of(force.force_x);
    let fy = real_of(after.force_y) - real_of(force.force_y);
    let px = real_of(pair.force_x);
    let py = real_of(pair.force_y);
    let most = real_of(Double { bits: MAX_WALL_REPULSION_FORCE });
    if px * px + py * py <= most * most {
        assert(points_along(c, x, y, fx, fy));
    } else {
        let part = choose|part: real| #[trigger] points_along(part, px, py, fx, fy);
        let share = part * c;
        lemma_grouped(part, c, x);
        lemma_grouped(part, c, y);
        if part == 0real {
            lemma_times_zero(px);
            lemma_swap(px, 0real);
            lemma_times_zero(py);
            lemma_swap(py, 0real);
            lemma_times_zero(0real);
            lemma_largest();
            lemma_product_positive(most, most);
        }
        lemma_positive_factor(part, c);
        assert(points_along(share, x, y, fx, fy));
    }
}

} // verus!
