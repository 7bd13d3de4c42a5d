//! The points of a rod and the forces on them, where nothing is rounded.

use vstd::prelude::*;
use crate::algebra::{
    lemma_along_and_across, lemma_difference_of_products, lemma_grouped, lemma_lever,
    lemma_opposite_products, lemma_swap, lemma_times_sum,
};
use crate::channel::Pose;
use crate::double::Double;
use crate::exact::{exact, law_exact_value, lemma_constants, real_of, worth};
use crate::formula::{cos_of, minus, num, plus, sin_of, steady, times, Arithmetic};
use crate::simulation::{
    add_external_force_gives, add_point_force_gives, field_torque, point_offset, rod_end_gives,
    rod_point_gives, GeneralizedForce, RodPoint, VisualParams, WallForce,
};

verus! {

/// The cosine of an angle, as it was given.
pub open spec fn cosine<K: Arithmetic>(k: &K, phi: Double) -> real {
    worth(k, cos_of(num(phi)))
}

/// The sine of an angle, as it was given.
pub open spec fn sine<K: Arithmetic>(k: &K, phi: Double) -> real {
    worth(k, sin_of(num(phi)))
}

/// Whether a point of a rod is not rounded.
pub open spec fn point_exact<K: Arithmetic>(
    k: &K,
    pose: Pose,
    particle_dx: Double,
    j: i32,
) -> bool {
    let offset = point_offset(particle_dx, j);
    &&& exact(k, plus(num(pose.x), times(offset, cos_of(num(pose.phi)))))
    &&& exact(k, plus(num(pose.y), times(offset, sin_of(num(pose.phi)))))
}

proof fn lemma_point<K: Arithmetic>(
    k: &K,
    pose: Pose,
    particle_dx: Double,
    j: i32,
    point: RodPoint,
)
    requires
        steady(k),
        rod_point_gives(k, pose, particle_dx, j, point),
        point_exact(k, pose, particle_dx, j),
    ensures
        ({
            let step = (j as int) as real * real_of(particle_dx);
            &&& worth(k, point_offset(particle_dx, j)) == step
            &&& real_of(point.x) == real_of(pose.x) + step * cosine(k, pose.phi)
            &&& real_of(point.y) == real_of(pose.y) + step * sine(k, pose.phi)
        }),
{
    let offset = point_offset(particle_dx, j);
    law_exact_value(k, plus(num(pose.x), times(offset, cos_of(num(pose.phi)))), point.x);
    law_exact_value(k, plus(num(pose.y), times(offset, sin_of(num(pose.phi)))), point.y);
    reveal_with_fuel(worth, 4);
}

/// The representative points of a rod lie on one line through its centre, as far apart as
/// `particle_dx`, in the direction of its angle.
pub proof fn law_points_of_rod<K: Arithmetic>(
    k: &K,
    pose: Pose,
    particle_dx: Double,
    i: i32,
    j: i32,
    a: RodPoint,
    b: RodPoint,
)
    requires
        steady(k),
        rod_point_gives(k, pose, particle_dx, i, a),
        rod_point_gives(k, pose, particle_dx, j, b),
        point_exact(k, pose, particle_dx, i),
        point_exact(k, pose, particle_dx, j),
    ensures
        ({
            let steps = ((j - i) as int) as real;
            let dx = real_of(b.x) - real_of(a.x);
            let dy = real_of(b.y) - real_of(a.y);
            let c = cosine(k, pose.phi);
            let s = sine(k, pose.phi);
            &&& dx * s == dy * c
            &&& c * c + s * s == 1real ==> dx * c + dy * s == steps * real_of(particle_dx)
            &&& j == -i ==> real_of(a.x) + real_of(b.x) == 2real * real_of(pose.x) && real_of(a.y)
                + real_of(b.y) == 2real * real_of(pose.y)
        }),
{
    lemma_point(k, pose, particle_dx, i, a);
    lemma_point(k, pose, particle_dx, j, b);
    let c = cosine(k, pose.phi);
    let s = sine(k, pose.phi);
    let p = real_of(particle_dx);
    let x = (i as int) as real;
    let y = (j as int) as real;
    let steps = ((j - i) as int) as real;
    assert(steps == y - x);
    let dx = real_of(b.x) - real_of(a.x);
    let dy = real_of(b.y) - real_of(a.y);
    let way = (y - x) * p;
    lemma_difference_of_products(y, x, p, c);
    lemma_difference_of_products(y, x, p, s);
    assert(dx == way * c && dy == way * s);
    lemma_along_and_across(way, c, s);
    if c * c + s * s == 1real {
        assert(dx * c + dy * s == way * 1real);
    }
    if j == -i {
        lemma_opposite_products(x, p, c);
        lemma_opposite_products(x, p, s);
        assert(y == -x);
    }
}

/// The ends of a rod lie on both sides of its centre, `2 m` steps apart in the direction of its
/// angle, the last one ahead.
pub proof fn law_ends_of_rod<K: Arithmetic>(
    k: &K,
    pose: Pose,
    m: i32,
    particle_dx: Double,
    first: RodPoint,
    last: RodPoint,
)
    requires
        steady(k),
        rod_end_gives(k, pose, m, particle_dx, false, first),
        rod_end_gives(k, pose, m, particle_dx, true, last),
        point_exact(k, pose, particle_dx, m),
        exact(
            k,
            minus(num(pose.x), times(point_offset(particle_dx, m), cos_of(num(pose.phi)))),
        ),
        exact(
            k,
            minus(num(pose.y), times(point_offset(particle_dx, m), sin_of(num(pose.phi)))),
        ),
    ensures
        ({
            let length = 2real * ((m as int) as real * real_of(particle_dx));
            &&& real_of(first.x) + real_of(last.x) == 2real * real_of(pose.x)
            &&& real_of(first.y) + real_of(last.y) == 2real * real_of(pose.y)
            &&& real_of(last.x) - real_of(first.x) == length * cosine(k, pose.phi)
            &&& real_of(last.y) - real_of(first.y) == length * sine(k, pose.phi)
        }),
{
    assert(rod_point_gives(k, pose, particle_dx, m, last));
    lemma_point(k, pose, particle_dx, m, last);
    let offset = point_offset(particle_dx, m);
    law_exact_value(k, minus(num(pose.x), times(offset, cos_of(num(pose.phi)))), first.x);
    law_exact_value(k, minus(num(pose.y), times(offset, sin_of(num(pose.phi)))), first.y);
    reveal_with_fuel(worth, 4);
    let step = (m as int) as real * real_of(particle_dx);
    let c = cosine(k, pose.phi);
    let s = sine(k, pose.phi);
    lemma_grouped(2real, step, c);
    lemma_grouped(2real, step, s);
}

// ---- Forces on points ----

/// Whether the addition of a force on a point is not rounded.
pub open spec fn point_force_exact<K: Arithmetic>(
    k: &K,
    sum: GeneralizedForce,
    pose: Pose,
    particle_dx: Double,
    j: i32,
    force: WallForce,
) -> bool {
    &&& exact(k, plus(num(sum.force_x), num(force.force_x)))
    &&& exact(k, plus(num(sum.force_y), num(force.force_y)))
    &&& exact(
        k,
        plus(
            num(sum.torque),
            times(
                point_offset(particle_dx, j),
                minus(
                    times(cos_of(num(pose.phi)), num(force.force_y)),
                    times(sin_of(num(pose.phi)), num(force.force_x)),
                ),
            ),
        ),
    )
}

/// A force on a point of the rod is added to the force on its centre, and its torque is that of the
/// lever from the centre to the point: the lever along x times the force along y, less the lever
/// along y times the force along x.
pub proof fn law_torque_of_point<K: Arithmetic>(
    k: &K,
    sum: GeneralizedForce,
    pose: Pose,
    particle_dx: Double,
    j: i32,
    point: RodPoint,
    force: WallForce,
    after: GeneralizedForce,
)
    requires
        steady(k),
        rod_point_gives(k, pose, particle_dx, j, point),
        add_point_force_gives(k, sum, pose, particle_dx, j, force, after),
        point_exact(k, pose, particle_dx, j),
        point_force_exact(k, sum, pose, particle_dx, j, force),
    ensures
        ({
            let lever_x = real_of(point.x) - real_of(pose.x);
            let lever_y = real_of(point.y) - real_of(pose.y);
            let fx = real_of(force.force_x);
            let fy = real_of(force.force_y);
            &&& real_of(after.force_x) - real_of(sum.force_x) == fx
            &&& real_of(after.force_y) - real_of(sum.force_y) == fy
            &&& real_of(after.torque) - real_of(sum.torque) == lever_x * fy - lever_y * fx
        }),
{
    lemma_point(k, pose, particle_dx, j, point);
    law_exact_value(k, plus(num(sum.force_x), num(force.force_x)), after.force_x);
    law_exact_value(k, plus(num(sum.force_y), num(force.force_y)), after.force_y);
    let lever = minus(
        times(cos_of(num(pose.phi)), num(force.force_y)),
        times(sin_of(num(pose.phi)), num(force.force_x)),
    );
    let offset = point_offset(particle_dx, j);
    law_exact_value(k, plus(num(sum.torque), times(offset, lever)), after.torque);
    reveal_with_fuel(worth, 5);
    let o = worth(k, offset);
    let c = cosine(k, pose.phi);
    let s = sine(k, pose.phi);
    let fx = real_of(force.force_x);
    let fy = real_of(force.force_y);
    lemma_lever(o, c, s, fx, fy);
}

/// The external force acts along x and once on the whole rod. The field turns the rod towards its
/// own direction: its torque is gamma times the cosine of the angle, less delta times the sine of
/// the angle times as much.
pub proof fn law_external_force<K: Arithmetic>(
    k: &K,
    sum: GeneralizedForce,
    params: VisualParams,
    pose: Pose,
    after: GeneralizedForce,
)
    requires
        steady(k),
        add_external_force_gives(k, sum, params, pose, after),
        exact(k, plus(num(params.f), num(sum.force_x))),
        exact(k, plus(num(sum.torque), field_torque(params, pose.phi))),
    ensures
        ({
            let dipole = real_of(params.gamma) * cosine(k, pose.phi);
            let turn = real_of(after.torque) - real_of(sum.torque);
            &&& real_of(after.force_x) - real_of(sum.force_x) == real_of(params.f)
            &&& after.force_y == sum.force_y
            &&& dipole - turn == real_of(params.delta) * sine(k, pose.phi) * dipole
        }),
{
    law_exact_value(k, plus(num(params.f), num(sum.force_x)), after.force_x);
    law_exact_value(k, plus(num(sum.torque), field_torque(params, pose.phi)), after.torque);
    lemma_constants();
    reveal_with_fuel(worth, 5);
    let g = real_of(params.gamma);
    let d = real_of(params.delta);
    let c = cosine(k, pose.phi);
    let s = sine(k, pose.phi);
    lemma_times_sum(g * c, 1real, d * s);
    lemma_swap(g * c, d * s);
}

} // verus!
