//! How a rod moves and how it is mirrored at a wall, where nothing is rounded.

use vstd::prelude::*;
use crate::algebra::{
    lemma_body_frame, lemma_last_two, lemma_minus_times, lemma_positive_factor, lemma_shaken,
    lemma_swap, lemma_times_zero, lemma_turned,
};
use crate::channel::{
    mirror_at_foot_gives, omega_derivative_of, omega_of, reflection_outcome, BoundaryCorrectedState,
    Pose, Wall,
};
use crate::double::Double;
use crate::exact::{
    exact, law_exact_value, lemma_constants, lemma_negated, lemma_root, real_of, worth,
};
use crate::formula::{
    atan_of, cos_of, gives, lit, minus, num, plus, sin_of, sqrt_of, steady, times, Arithmetic,
    MINUS_ONE, ONE, QUARTER, THREE, TWO,
};
use crate::model::Diffusion;
use crate::rods::{cosine, sine};
use crate::simulation::{
    elapsed_gives, force_outcome, lab_transport_gives, moved_gives, moved_to, noise_of,
    noise_scale_gives, step_increment_gives, GeneralizedForce, LabTransport, NoiseScale, Normals,
    Rod, StepIncrement, StepTrace, VisualSimulation,
};

verus! {

/// The factors of the noise: the square of each is twice its diffusion coefficient times the time
/// step.
pub proof fn law_noise_scale<K: Arithmetic>(
    k: &K,
    diffusion: Diffusion,
    delta_t: Double,
    noise: NoiseScale,
)
    requires
        steady(k),
        noise_scale_gives(k, diffusion, delta_t, noise),
        exact(k, noise_of(diffusion.d_parallel, delta_t)),
        exact(k, noise_of(diffusion.d_perp, delta_t)),
        exact(k, noise_of(diffusion.d_r, delta_t)),
    ensures
        ({
            let dt = real_of(delta_t);
            let a = real_of(noise.trans_parallel);
            let b = real_of(noise.trans_perp);
            let c = real_of(noise.rot);
            &&& a >= 0real && a * a == 2real * real_of(diffusion.d_parallel) * dt
            &&& b >= 0real && b * b == 2real * real_of(diffusion.d_perp) * dt
            &&& c >= 0real && c * c == 2real * real_of(diffusion.d_r) * dt
        }),
{
    lemma_noise(k, diffusion.d_parallel, delta_t, noise.trans_parallel);
    lemma_noise(k, diffusion.d_perp, delta_t, noise.trans_perp);
    lemma_noise(k, diffusion.d_r, delta_t, noise.rot);
}

proof fn lemma_noise<K: Arithmetic>(k: &K, d: Double, delta_t: Double, factor: Double)
    requires
        steady(k),
        gives(k, noise_of(d, delta_t), factor),
        exact(k, noise_of(d, delta_t)),
    ensures
        real_of(factor) >= 0real,
        real_of(factor) * real_of(factor) == 2real * real_of(d) * real_of(delta_t),
{
    let under = times(times(lit(TWO), num(d)), num(delta_t));
    assert(noise_of(d, delta_t) == sqrt_of(under));
    lemma_root(k, under, factor);
    lemma_constants();
    reveal_with_fuel(worth, 4);
}

/// Whether the transport of a rod is not rounded.
pub open spec fn transport_exact<K: Arithmetic>(
    k: &K,
    d_parallel: Double,
    noise: NoiseScale,
    phi: Double,
    normals: Normals,
) -> bool {
    let scale = times(lit(QUARTER), num(d_parallel));
    let twice = times(lit(TWO), num(phi));
    let body_x = times(num(noise.trans_parallel), num(normals.tx));
    let body_y = times(num(noise.trans_perp), num(normals.ty));
    let cosine = cos_of(num(phi));
    let sine = sin_of(num(phi));
    &&& exact(k, times(scale, plus(lit(THREE), cos_of(twice))))
    &&& exact(k, times(scale, sin_of(twice)))
    &&& exact(k, times(scale, minus(lit(THREE), cos_of(twice))))
    &&& exact(k, minus(times(cosine, body_x), times(sine, body_y)))
    &&& exact(k, plus(times(sine, body_x), times(cosine, body_y)))
}

/// Whether sine and cosine of an angle and of twice the angle are those of one angle.
pub open spec fn angles_fit<K: Arithmetic>(k: &K, phi: Double) -> bool {
    let c = cosine(k, phi);
    let s = sine(k, phi);
    let twice = times(lit(TWO), num(phi));
    &&& c * c + s * s == 1real
    &&& worth(k, cos_of(twice)) == c * c - s * s
    &&& worth(k, sin_of(twice)) == 2real * (s * c)
}

/// The mobility of a rod: a force along it moves it with its diffusion coefficient, a force across
/// it with half of that. The noise shakes it along itself with the first factor and the first normal
/// number, across itself with the second of each.
pub proof fn law_transport<K: Arithmetic>(
    k: &K,
    d_parallel: Double,
    noise: NoiseScale,
    phi: Double,
    normals: Normals,
    transport: LabTransport,
)
    requires
        steady(k),
        lab_transport_gives(k, d_parallel, noise, phi, normals, transport),
        transport_exact(k, d_parallel, noise, phi, normals),
        angles_fit(k, phi),
    ensures
        ({
            let c = cosine(k, phi);
            let s = sine(k, phi);
            let d = real_of(d_parallel);
            let xx = real_of(transport.dxx);
            let xy = real_of(transport.dxy);
            let yy = real_of(transport.dyy);
            let nx = real_of(transport.noise_x);
            let ny = real_of(transport.noise_y);
            &&& xx * c + xy * s == d * c
            &&& xy * c + yy * s == d * s
            &&& 2real * (xy * c - xx * s) == -(d * s)
            &&& 2real * (yy * c - xy * s) == d * c
            &&& nx * c + ny * s == real_of(noise.trans_parallel) * real_of(normals.tx)
            &&& ny * c - nx * s == real_of(noise.trans_perp) * real_of(normals.ty)
        }),
{
    let scale = times(lit(QUARTER), num(d_parallel));
    let twice = times(lit(TWO), num(phi));
    let body_x = times(num(noise.trans_parallel), num(normals.tx));
    let body_y = times(num(noise.trans_perp), num(normals.ty));
    let cosine_at = cos_of(num(phi));
    let sine_at = sin_of(num(phi));
    law_exact_value(k, times(scale, plus(lit(THREE), cos_of(twice))), transport.dxx);
    law_exact_value(k, times(scale, sin_of(twice)), transport.dxy);
    law_exact_value(k, times(scale, minus(lit(THREE), cos_of(twice))), transport.dyy);
    law_exact_value(
        k,
        minus(times(cosine_at, body_x), times(sine_at, body_y)),
        transport.noise_x,
    );
    law_exact_value(
        k,
        plus(times(sine_at, body_x), times(cosine_at, body_y)),
        transport.noise_y,
    );
    lemma_constants();
    let c = cosine(k, phi);
    let s = sine(k, phi);
    let d = real_of(d_parallel);
    let h = real_of(Double { bits: QUARTER });
    let q = h * d;
    let c2 = worth(k, cos_of(twice));
    let s2 = worth(k, sin_of(twice));
    let bx = real_of(noise.trans_parallel) * real_of(normals.tx);
    let by = real_of(noise.trans_perp) * real_of(normals.ty);
    let xx = real_of(transport.dxx);
    let xy = real_of(transport.dxy);
    let yy = real_of(transport.dyy);
    let nx = real_of(transport.noise_x);
    let ny = real_of(transport.noise_y);
    assert(xx == q * (3real + c2) && xy == q * s2 && yy == q * (3real - c2)) by {
        reveal_with_fuel(worth, 3);
    }
    assert(nx == c * bx - s * by && ny == s * bx + c * by) by {
        reveal_with_fuel(worth, 4);
    }
    lemma_last_two(h, d, 4real);
    lemma_turned(q, d, c, s, c2, s2, xx, xy, yy);
    lemma_shaken(c, s, bx, by);
    assert(nx * c + ny * s == 1real * bx);
    assert(ny * c - nx * s == 1real * by);
}

/// Whether what one step adds is not rounded.
pub open spec fn increment_exact<K: Arithmetic>(
    k: &K,
    rod: Rod,
    transport: LabTransport,
    force: GeneralizedForce,
    normals: Normals,
) -> bool {
    let dt = num(rod.physics.delta_t);
    let drift_x = times(
        plus(
            times(num(transport.dxx), num(force.force_x)),
            times(num(transport.dxy), num(force.force_y)),
        ),
        dt,
    );
    let drift_y = times(
        plus(
            times(num(transport.dxy), num(force.force_x)),
            times(num(transport.dyy), num(force.force_y)),
        ),
        dt,
    );
    let turn = times(times(num(rod.diffusion.d_r), num(force.torque)), dt);
    &&& exact(k, plus(drift_x, num(transport.noise_x)))
    &&& exact(k, plus(drift_y, num(transport.noise_y)))
    &&& exact(k, plus(turn, times(num(rod.noise_scale.rot), num(normals.r))))
}

proof fn lemma_increment<K: Arithmetic>(
    k: &K,
    rod: Rod,
    transport: LabTransport,
    force: GeneralizedForce,
    normals: Normals,
    increment: StepIncrement,
)
    requires
        steady(k),
        step_increment_gives(k, rod, transport, force, normals, increment),
        increment_exact(k, rod, transport, force, normals),
    ensures
        ({
            let dt = real_of(rod.physics.delta_t);
            let xx = real_of(transport.dxx);
            let xy = real_of(transport.dxy);
            let yy = real_of(transport.dyy);
            let fx = real_of(force.force_x);
            let fy = real_of(force.force_y);
            &&& real_of(increment.dx) - real_of(transport.noise_x) == (xx * fx + xy * fy) * dt
            &&& real_of(increment.dy) - real_of(transport.noise_y) == (xy * fx + yy * fy) * dt
            &&& real_of(increment.dphi) == real_of(rod.diffusion.d_r) * real_of(force.torque) * dt
                + real_of(rod.noise_scale.rot) * real_of(normals.r)
        }),
{
    let dt = num(rod.physics.delta_t);
    let drift_x = times(
        plus(
            times(num(transport.dxx), num(force.force_x)),
            times(num(transport.dxy), num(force.force_y)),
        ),
        dt,
    );
    let drift_y = times(
        plus(
            times(num(transport.dxy), num(force.force_x)),
            times(num(transport.dyy), num(force.force_y)),
        ),
        dt,
    );
    let turn = times(times(num(rod.diffusion.d_r), num(force.torque)), dt);
    law_exact_value(k, plus(drift_x, num(transport.noise_x)), increment.dx);
    law_exact_value(k, plus(drift_y, num(transport.noise_y)), increment.dy);
    law_exact_value(
        k,
        plus(turn, times(num(rod.noise_scale.rot), num(normals.r))),
        increment.dphi,
    );
    reveal_with_fuel(worth, 5);
}

/// Without noise a rod is moved to the side to which the mobility turns the force: along x with the
/// sign of dxx times the force along x plus dxy times the force along y, along y in the same way,
/// and turned with the sign of the torque.
pub proof fn law_drift_has_sign_of_force<K: Arithmetic>(
    k: &K,
    rod: Rod,
    transport: LabTransport,
    force: GeneralizedForce,
    normals: Normals,
    increment: StepIncrement,
)
    requires
        steady(k),
        step_increment_gives(k, rod, transport, force, normals, increment),
        increment_exact(k, rod, transport, force, normals),
        real_of(rod.physics.delta_t) > 0real,
    ensures
        ({
            let fx = real_of(force.force_x);
            let fy = real_of(force.force_y);
            let pull_x = real_of(transport.dxx) * fx + real_of(transport.dxy) * fy;
            let pull_y = real_of(transport.dxy) * fx + real_of(transport.dyy) * fy;
            let by_x = real_of(increment.dx) - real_of(transport.noise_x);
            let by_y = real_of(increment.dy) - real_of(transport.noise_y);
            &&& by_x > 0real <==> pull_x > 0real
            &&& by_x < 0real <==> pull_x < 0real
            &&& by_y > 0real <==> pull_y > 0real
            &&& by_y < 0real <==> pull_y < 0real
            &&& real_of(rod.diffusion.d_r) > 0real && real_of(normals.r) == 0real ==> {
                &&& real_of(increment.dphi) > 0real <==> real_of(force.torque) > 0real
                &&& real_of(increment.dphi) < 0real <==> real_of(force.torque) < 0real
            }
        }),
{
    lemma_increment(k, rod, transport, force, normals, increment);
    let dt = real_of(rod.physics.delta_t);
    let fx = real_of(force.force_x);
    let fy = real_of(force.force_y);
    let pull_x = real_of(transport.dxx) * fx + real_of(transport.dxy) * fy;
    let pull_y = real_of(transport.dxy) * fx + real_of(transport.dyy) * fy;
    lemma_positive_factor(pull_x, dt);
    lemma_positive_factor(pull_y, dt);
    let dr = real_of(rod.diffusion.d_r);
    if dr > 0real && real_of(normals.r) == 0real {
        let t = real_of(force.torque);
        let n = real_of(rod.noise_scale.rot);
        lemma_times_zero(n);
        lemma_swap(dr, t);
        lemma_positive_factor(t, dr);
        lemma_positive_factor(dr * t, dt);
    }
}

/// Whether a move is not rounded.
pub open spec fn move_exact<K: Arithmetic>(
    k: &K,
    rod: Rod,
    phi: Double,
    force: GeneralizedForce,
    normals: Normals,
) -> bool {
    &&& transport_exact(k, rod.diffusion.d_parallel, rod.noise_scale, phi, normals)
    &&& forall|transport: LabTransport| #[trigger]
        lab_transport_gives(
            k,
            rod.diffusion.d_parallel,
            rod.noise_scale,
            phi,
            normals,
            transport,
        ) ==> increment_exact(k, rod, transport, force, normals)
    &&& forall|transport: LabTransport, increment: StepIncrement| #[trigger]
        lab_transport_gives(
            k,
            rod.diffusion.d_parallel,
            rod.noise_scale,
            phi,
            normals,
            transport,
        ) && #[trigger] step_increment_gives(k, rod, transport, force, normals, increment) ==> {
            &&& exact(k, plus(num(rod.pose.x), num(increment.dx)))
            &&& exact(k, plus(num(rod.pose.y), num(increment.dy)))
            &&& exact(k, plus(num(rod.pose.phi), num(increment.dphi)))
        }
}

/// How a rod moves in one time step, seen along and across the direction in which its transport is
/// taken. Along it, by its diffusion coefficient times the force along it times the time, and by the
/// noise along it. Across it, by half that coefficient times the force across it times the time, and
/// by the noise across it. It turns by its rotational diffusion times the torque times the time, and
/// by the noise of its rotation.
pub proof fn law_rod_moves<K: Arithmetic>(
    k: &K,
    rod: Rod,
    phi: Double,
    force: GeneralizedForce,
    normals: Normals,
    next: Pose,
)
    requires
        steady(k),
        moved_gives(k, rod, phi, force, normals, next),
        move_exact(k, rod, phi, force, normals),
        angles_fit(k, phi),
    ensures
        ({
            let c = cosine(k, phi);
            let s = sine(k, phi);
            let dx = real_of(next.x) - real_of(rod.pose.x);
            let dy = real_of(next.y) - real_of(rod.pose.y);
            let dt = real_of(rod.physics.delta_t);
            let d = real_of(rod.diffusion.d_parallel);
            let along = real_of(force.force_x) * c + real_of(force.force_y) * s;
            let across = real_of(force.force_y) * c - real_of(force.force_x) * s;
            &&& dx * c + dy * s == d * along * dt + real_of(rod.noise_scale.trans_parallel)
                * real_of(normals.tx)
            &&& 2real * (dy * c - dx * s - real_of(rod.noise_scale.trans_perp) * real_of(
                normals.ty,
            )) == d * across * dt
            &&& real_of(next.phi) - real_of(rod.pose.phi) == real_of(rod.diffusion.d_r) * real_of(
                force.torque,
            ) * dt + real_of(rod.noise_scale.rot) * real_of(normals.r)
        }),
{
    let (transport, increment): (LabTransport, StepIncrement) = choose|
        transport: LabTransport,
        increment: StepIncrement,
    |
        {
            &&& #[trigger] lab_transport_gives(
                k,
                rod.diffusion.d_parallel,
                rod.noise_scale,
                phi,
                normals,
                transport,
            )
            &&& #[trigger] step_increment_gives(k, rod, transport, force, normals, increment)
            &&& gives(k, plus(num(rod.pose.x), num(increment.dx)), next.x)
            &&& gives(k, plus(num(rod.pose.y), num(increment.dy)), next.y)
            &&& gives(k, plus(num(rod.pose.phi), num(increment.dphi)), next.phi)
        };
    law_transport(
        k,
        rod.diffusion.d_parallel,
        rod.noise_scale,
        phi,
        normals,
        transport,
    );
    lemma_increment(k, rod, transport, force, normals, increment);
    law_exact_value(k, plus(num(rod.pose.x), num(increment.dx)), next.x);
    law_exact_value(k, plus(num(rod.pose.y), num(increment.dy)), next.y);
    law_exact_value(k, plus(num(rod.pose.phi), num(increment.dphi)), next.phi);
    let dx = real_of(increment.dx);
    let dy = real_of(increment.dy);
    assert(real_of(next.x) - real_of(rod.pose.x) == dx && real_of(next.y) - real_of(rod.pose.y)
        == dy && real_of(next.phi) - real_of(rod.pose.phi) == real_of(increment.dphi)) by {
        reveal_with_fuel(worth, 2);
    }
    lemma_body_frame(
        cosine(k, phi),
        sine(k, phi),
        real_of(rod.diffusion.d_parallel),
        real_of(transport.dxx),
        real_of(transport.dxy),
        real_of(transport.dyy),
        real_of(force.force_x),
        real_of(force.force_y),
        real_of(rod.physics.delta_t),
        real_of(transport.noise_x),
        real_of(transport.noise_y),
        dx,
        dy,
    );
}

// ---- Steps ----

/// A step moves the rod twice from the pose that it had, with the same random numbers: first with
/// the forces at that pose, then with the forces and the transport at the pose to which the first
/// move led, brought into the channel. What the second move leads to, brought into the channel, is
/// the new pose. Both are brought into the bulge that the rod was in.
pub proof fn law_step_corrects_its_prediction<K: Arithmetic>(
    k: &K,
    sim: VisualSimulation,
    after: VisualSimulation,
)
    requires
        sim.stepped(k, after),
        sim.steps < sim.physics.max_steps,
    ensures
        exists|
            normals: Normals,
            at_start: GeneralizedForce,
            predicted: BoundaryCorrectedState,
            at_prediction: GeneralizedForce,
            corrected: BoundaryCorrectedState,
        |
            {
                &&& #[trigger] moved_into_channel(k, sim, sim.pose(), at_start, normals, predicted)
                &&& #[trigger] moved_into_channel(
                    k,
                    sim,
                    predicted.pose(),
                    at_prediction,
                    normals,
                    corrected,
                )
                &&& after.x == corrected.x
                &&& after.y == corrected.y
                &&& after.phi == corrected.phi
            },
        after.steps == sim.steps + 1,
        elapsed_gives(k, after.steps, sim.physics.delta_t, after.t),
{
    let trace = choose|trace: StepTrace| #[trigger]
        sim.step_trace(k, trace) && after == sim.landed(
            trace.corrected.pose(),
            trace.t,
            trace.rng,
        );
    reveal(moved_to);
    let at_start = choose|force: GeneralizedForce|
        {
            &&& #[trigger] force_outcome(
                k,
                sim.params,
                sim.physics,
                sim.wall_y@,
                sim.pose(),
                force,
            )
            &&& moved_gives(k, sim.rod(), sim.phi, force, trace.normals, trace.prediction)
        };
    let at_prediction = choose|force: GeneralizedForce|
        {
            &&& #[trigger] force_outcome(
                k,
                sim.params,
                sim.physics,
                sim.wall_y@,
                trace.predicted.pose(),
                force,
            )
            &&& moved_gives(
                k,
                sim.rod(),
                trace.predicted.phi,
                force,
                trace.normals,
                trace.correction,
            )
        };
    assert(led_to(k, sim, sim.pose(), at_start, trace.normals, trace.prediction));
    assert(led_to(
        k,
        sim,
        trace.predicted.pose(),
        at_prediction,
        trace.normals,
        trace.correction,
    ));
    assert(moved_into_channel(
        k,
        sim,
        sim.pose(),
        at_start,
        trace.normals,
        trace.predicted,
    ));
    assert(moved_into_channel(
        k,
        sim,
        trace.predicted.pose(),
        at_prediction,
        trace.normals,
        trace.corrected,
    ));
}

/// Whether a rod comes from where it is to `next` by the force `force` that acts at `at`, with its
/// own diffusion and noise.
pub open spec fn led_to<K: Arithmetic>(
    k: &K,
    sim: VisualSimulation,
    at: Pose,
    force: GeneralizedForce,
    normals: Normals,
    next: Pose,
) -> bool {
    let rod = Rod {
        params: sim.params,
        physics: sim.physics,
        diffusion: sim.diffusion,
        noise_scale: sim.noise_scale,
        pose: Pose { x: sim.x, y: sim.y, phi: sim.phi },
    };
    &&& force_outcome(k, sim.params, sim.physics, sim.wall_y@, at, force)
    &&& moved_gives(k, rod, at.phi, force, normals, next)
}

/// Whether a rod comes into `state` by the force that acts at `at` and the reflections at the walls
/// of the bulge that it is in.
pub open spec fn moved_into_channel<K: Arithmetic>(
    k: &K,
    sim: VisualSimulation,
    at: Pose,
    force: GeneralizedForce,
    normals: Normals,
    state: BoundaryCorrectedState,
) -> bool {
    exists|next: Pose| #[trigger]
        led_to(k, sim, at, force, normals, next) && reflection_outcome(k, next, sim.x, state)
}

// ---- Reflection ----

/// The mirror image of a pose lies as far beyond the point of the wall above the foot as the pose
/// lies before it, and its angle as far on the other side of the tangent.
pub proof fn law_mirror_at_foot<K: Arithmetic>(
    k: &K,
    pose: Pose,
    wall: Wall,
    foot_x: Double,
    image: Pose,
)
    requires
        steady(k),
        mirror_at_foot_gives(k, pose, wall, foot_x, image),
        exact(k, minus(times(lit(TWO), num(foot_x)), num(pose.x))),
        exact(
            k,
            minus(
                times(lit(TWO), times(lit(wall.sign_bits()), omega_of(foot_x))),
                num(pose.y),
            ),
        ),
        exact(
            k,
            minus(
                times(
                    lit(TWO),
                    atan_of(times(lit(wall.sign_bits()), omega_derivative_of(foot_x))),
                ),
                num(pose.phi),
            ),
        ),
    ensures
        real_of(pose.x) + real_of(image.x) == 2real * real_of(foot_x),
        real_of(pose.y) + real_of(image.y) == 2real * worth(
            k,
            times(lit(wall.sign_bits()), omega_of(foot_x)),
        ),
        real_of(pose.phi) + real_of(image.phi) == 2real * worth(
            k,
            atan_of(times(lit(wall.sign_bits()), omega_derivative_of(foot_x))),
        ),
        wall == Wall::Upper ==> worth(k, times(lit(wall.sign_bits()), omega_of(foot_x))) == worth(
            k,
            omega_of(foot_x),
        ),
        wall == Wall::Lower ==> worth(k, times(lit(wall.sign_bits()), omega_of(foot_x))) == -worth(
            k,
            omega_of(foot_x),
        ),
{
    let height = times(lit(wall.sign_bits()), omega_of(foot_x));
    let tangent = atan_of(times(lit(wall.sign_bits()), omega_derivative_of(foot_x)));
    law_exact_value(k, minus(times(lit(TWO), num(foot_x)), num(pose.x)), image.x);
    law_exact_value(k, minus(times(lit(TWO), height), num(pose.y)), image.y);
    law_exact_value(k, minus(times(lit(TWO), tangent), num(pose.phi)), image.phi);
    lemma_constants();
    assert(real_of(image.x) == 2real * real_of(foot_x) - real_of(pose.x) && real_of(image.y)
        == 2real * worth(k, height) - real_of(pose.y) && real_of(image.phi) == 2real * worth(
        k,
        tangent,
    ) - real_of(pose.phi)) by {
        reveal_with_fuel(worth, 3);
    }
    let w = worth(k, omega_of(foot_x));
    lemma_negated(Double { bits: ONE });
    assert((Double { bits: ONE }).negated() == (Double { bits: MINUS_ONE }));
    assert(worth(k, height) == real_of(Double { bits: wall.sign_bits() }) * w) by {
        reveal_with_fuel(worth, 2);
    }
    lemma_minus_times(1real, w);
}

} // verus!
