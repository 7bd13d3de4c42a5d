//! The forces on a whole rod: every one of its points is pushed once.

use vstd::prelude::*;
use crate::channel::Pose;
use crate::config::Physics;
use crate::cpu_sim::{advanced_pose_gives, rod_step, walls_outcome, DisplayTrace, VisualSimulation};
use crate::double::Double;
use crate::formula::Arithmetic;
use crate::simulation::{
    add_external_force_gives, add_point_force_gives, elapsed_gives, force_outcome, point_added,
    rod_point_gives, rod_sum, wall_force_outcome, GeneralizedForce, Normals, RodPoint, VisualParams,
    WallForce,
};

verus! {

/// Whether the walls push point `j` of a rod, and lead so from one sum to another.
pub open spec fn point_pushed<K: Arithmetic>(
    k: &K,
    physics: Physics,
    wall_y: Seq<Double>,
    pose: Pose,
    j: int,
    before: GeneralizedForce,
    after: GeneralizedForce,
) -> bool {
    exists|point: RodPoint, force: WallForce|
        {
            &&& #[trigger] rod_point_gives(k, pose, physics.particle_dx, j as i32, point)
            &&& #[trigger] wall_force_outcome(k, physics, wall_y, point, force)
            &&& add_point_force_gives(k, before, pose, physics.particle_dx, j as i32, force, after)
        }
}

/// The force on a rod begins with none. The walls push each of its points once, from one end to the
/// other, and what drives the whole rod comes last.
pub proof fn law_every_point_is_pushed<K: Arithmetic>(
    k: &K,
    params: VisualParams,
    physics: Physics,
    wall_y: Seq<Double>,
    pose: Pose,
    force: GeneralizedForce,
)
    requires
        force_outcome(k, params, physics, wall_y, pose, force),
        params.m >= 0,
    ensures
        exists|sums: Seq<GeneralizedForce>|
            {
                &&& sums.len() == 2 * params.m + 2
                &&& sums[0].force_x == Double::zero()
                &&& sums[0].force_y == Double::zero()
                &&& sums[0].torque == Double::zero()
                &&& forall|i: int|
                    0 <= i < 2 * params.m + 1 ==> #[trigger] point_pushed(
                        k,
                        physics,
                        wall_y,
                        pose,
                        i - params.m,
                        sums[i],
                        sums[i + 1],
                    )
                &&& #[trigger] add_external_force_gives(k, sums.last(), params, pose, force)
            },
{
    let sums = choose|sums: Seq<GeneralizedForce>|
        {
            &&& #[trigger] rod_sum(k, physics, wall_y, params.m as int, pose, sums)
            &&& sums.len() == if params.m >= 0 {
                2 * params.m + 2
            } else {
                1
            }
            &&& add_external_force_gives(k, sums.last(), params, pose, force)
        };
    assert forall|i: int| 0 <= i < 2 * params.m + 1 implies #[trigger] point_pushed(
        k,
        physics,
        wall_y,
        pose,
        i - params.m,
        sums[i],
        sums[i + 1],
    ) by {
        assert(point_added(
            k,
            physics,
            wall_y,
            (i - params.m) as i32,
            pose,
            sums[i],
            sums[i + 1],
        ));
    }
}

/// Whether the displayed walls push point `j` of a rod, and lead so from one sum to another.
pub open spec fn displayed_point_pushed<K: Arithmetic>(
    k: &K,
    physics: Physics,
    wall_y: Seq<Double>,
    pose: Pose,
    j: int,
    before: GeneralizedForce,
    after: GeneralizedForce,
) -> bool {
    exists|point: RodPoint, force: WallForce|
        {
            &&& #[trigger] rod_point_gives(k, pose, physics.particle_dx, j as i32, point)
            &&& #[trigger] walls_outcome(k, physics, wall_y, point, force)
            &&& add_point_force_gives(k, before, pose, physics.particle_dx, j as i32, force, after)
        }
}

/// A step of a displayed rod: the walls push each of its points once, what they come to and the numbers
/// that were drawn move the rod, and the step is counted. The rod is done once it is beyond its target.
pub proof fn law_displayed_step<K: Arithmetic>(
    k: &K,
    sim: VisualSimulation,
    after: VisualSimulation,
)
    requires
        sim.stepped(k, after),
        sim.params.m >= 0,
        sim.steps < u64::MAX,
    ensures
        exists|sums: Seq<GeneralizedForce>, normals: Normals|
            {
                &&& sums.len() == 2 * sim.params.m + 2
                &&& sums[0].force_x == Double::zero()
                &&& sums[0].force_y == Double::zero()
                &&& sums[0].torque == Double::zero()
                &&& forall|i: int|
                    0 <= i < 2 * sim.params.m + 1 ==> #[trigger] displayed_point_pushed(
                        k,
                        sim.physics,
                        sim.wall_y@,
                        sim.pose(),
                        i - sim.params.m,
                        sums[i],
                        sums[i + 1],
                    )
                &&& #[trigger] advanced_pose_gives(
                    k,
                    sim.params,
                    sim.physics,
                    sim.diffusion,
                    sim.pose(),
                    sums.last(),
                    normals,
                    Pose { x: after.x, y: after.y, phi: after.phi },
                )
            },
        after.steps == sim.steps + 1,
        elapsed_gives(k, after.steps, sim.physics.delta_t, after.t),
        after.completed <==> sim.completed || sim.target_x.below(after.x),
        after.params == sim.params,
        after.physics == sim.physics,
        after.diffusion == sim.diffusion,
        after.wall_y == sim.wall_y,
        after.target_x == sim.target_x,
        after.x0 == sim.x0,
        after.y0 == sim.y0,
        after.phi0 == sim.phi0,
{
    let trace = choose|trace: DisplayTrace| #[trigger]
        sim.step_trace(k, trace) && after == sim.landed(trace);
    let sums = trace.sums;
    assert forall|i: int| 0 <= i < 2 * sim.params.m + 1 implies #[trigger] displayed_point_pushed(
        k,
        sim.physics,
        sim.wall_y@,
        sim.pose(),
        i - sim.params.m,
        sums[i],
        sums[i + 1],
    ) by {
        assert(rod_step(
            k,
            sim.physics,
            sim.wall_y@,
            sim.pose(),
            sim.params.m as int,
            sums,
            i,
        ));
    }
    assert(Pose { x: after.x, y: after.y, phi: after.phi } == trace.pose);
    assert(advanced_pose_gives(
        k,
        sim.params,
        sim.physics,
        sim.diffusion,
        sim.pose(),
        sums.last(),
        trace.normals,
        Pose { x: after.x, y: after.y, phi: after.phi },
    ));
}

} // verus!
