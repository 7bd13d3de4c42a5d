//! How a displayed rod moves, and what its windows show of it, where nothing is rounded.

use vstd::prelude::*;
use crate::algebra::{
    lemma_body_frame, lemma_minus_times, lemma_positive_factor, lemma_quotient, lemma_sum_times,
    lemma_swap, lemma_times_sum, lemma_times_zero,
};
use crate::animation::steps_due_gives;
use crate::channel::Pose;
use crate::config::Physics;
use crate::cpu_sim::{displaced, display_torque, shared_force, VisualParams};
use crate::double::{weight, Double};
use crate::exact::{
    exact, law_exact_value, lemma_constants, lemma_negated, lemma_sign, real_of, worth,
};
use crate::formula::{
    exp_of, gives, lit, minus, num, over, plus, steady, times, Arithmetic, MINUS_ONE, ONE,
};
use crate::model::Diffusion;
use crate::motion::{angles_fit, law_transport, transport_exact};
use crate::renderer::{approach_gives, at_limit_gives, place_of, CAMERA_FOLLOW_RATE, CAMERA_MAX_LAG};
use crate::rods::{cosine, sine};
use crate::simulation::{lab_transport_gives, GeneralizedForce, LabTransport, NoiseScale, Normals};

verus! {

// ---- The displayed rod ----

/// Whether the move of a displayed rod is not rounded.
pub open spec fn displaced_exact<K: Arithmetic>(
    k: &K,
    params: VisualParams,
    physics: Physics,
    diffusion: Diffusion,
    pose: Pose,
    sum: GeneralizedForce,
    normals: Normals,
    noise: NoiseScale,
    transport: LabTransport,
) -> bool {
    let dt = num(physics.delta_t);
    let x = plus(num(params.force), shared_force(params.m, sum.force_x));
    let y = shared_force(params.m, sum.force_y);
    let drift_x = times(plus(times(num(transport.dxx), x), times(num(transport.dxy), y)), dt);
    let drift_y = times(plus(times(num(transport.dxy), x), times(num(transport.dyy), y)), dt);
    let torque = plus(num(sum.torque), display_torque(params, pose.phi));
    let turn = times(times(num(diffusion.d_r), torque), dt);
    &&& exact(k, plus(num(pose.x), plus(drift_x, num(transport.noise_x))))
    &&& exact(k, plus(num(pose.y), plus(drift_y, num(transport.noise_y))))
    &&& exact(
        k,
        plus(num(pose.phi), plus(turn, times(num(noise.rot), num(normals.r)))),
    )
}

/// How a displayed rod moves in one time step, seen along and across itself. The force of the walls
/// is the mean over its points; the field turns it with its dipole, and more where the sine of its
/// angle is positive.
pub proof fn law_displayed_rod_moves<K: Arithmetic>(
    k: &K,
    params: VisualParams,
    physics: Physics,
    diffusion: Diffusion,
    pose: Pose,
    sum: GeneralizedForce,
    normals: Normals,
    noise: NoiseScale,
    transport: LabTransport,
    next: Pose,
)
    requires
        steady(k),
        displaced(k, params, physics, diffusion, pose, sum, normals, noise, transport, next),
        lab_transport_gives(k, diffusion.d_parallel, noise, pose.phi, normals, transport),
        transport_exact(k, diffusion.d_parallel, noise, pose.phi, normals),
        displaced_exact(k, params, physics, diffusion, pose, sum, normals, noise, transport),
        angles_fit(k, pose.phi),
    ensures
        ({
            let c = cosine(k, pose.phi);
            let s = sine(k, pose.phi);
            let dx = real_of(next.x) - real_of(pose.x);
            let dy = real_of(next.y) - real_of(pose.y);
            let dt = real_of(physics.delta_t);
            let d = real_of(diffusion.d_parallel);
            let share = 1real / ((2 * params.m + 1) as int) as real;
            let fx = real_of(params.force) + real_of(sum.force_x) * share;
            let fy = real_of(sum.force_y) * share;
            let dipole = real_of(params.beta_pe) * c;
            let bend = real_of(params.delta_alpha_e_over_p) * s * dipole;
            &&& dx * c + dy * s == d * (fx * c + fy * s) * dt + real_of(noise.trans_parallel)
                * real_of(normals.tx)
            &&& 2real * (dy * c - dx * s - real_of(noise.trans_perp) * real_of(normals.ty)) == d * (
            fy * c - fx * s) * dt
            &&& real_of(next.phi) - real_of(pose.phi) == real_of(diffusion.d_r) * (real_of(
                sum.torque,
            ) + (dipole + bend)) * dt + real_of(noise.rot) * real_of(normals.r)
        }),
{
    law_transport(k, diffusion.d_parallel, noise, pose.phi, normals, transport);
    let dt = num(physics.delta_t);
    let x = plus(num(params.force), shared_force(params.m, sum.force_x));
    let y = shared_force(params.m, sum.force_y);
    let drift_x = times(plus(times(num(transport.dxx), x), times(num(transport.dxy), y)), dt);
    let drift_y = times(plus(times(num(transport.dxy), x), times(num(transport.dyy), y)), dt);
    let torque = plus(num(sum.torque), display_torque(params, pose.phi));
    let turn = times(times(num(diffusion.d_r), torque), dt);
    law_exact_value(k, plus(num(pose.x), plus(drift_x, num(transport.noise_x))), next.x);
    law_exact_value(k, plus(num(pose.y), plus(drift_y, num(transport.noise_y))), next.y);
    law_exact_value(
        k,
        plus(num(pose.phi), plus(turn, times(num(noise.rot), num(normals.r)))),
        next.phi,
    );
    lemma_constants();
    let c = cosine(k, pose.phi);
    let s = sine(k, pose.phi);
    let share = 1real / ((2 * params.m + 1) as int) as real;
    let fx = real_of(params.force) + real_of(sum.force_x) * share;
    let fy = real_of(sum.force_y) * share;
    assert(worth(k, x) == fx && worth(k, y) == fy) by {
        reveal_with_fuel(worth, 5);
    }
    let dipole = real_of(params.beta_pe) * c;
    let delta = real_of(params.delta_alpha_e_over_p);
    assert(worth(k, torque) == real_of(sum.torque) + dipole * (1real + delta * s)) by {
        reveal_with_fuel(worth, 5);
    }
    lemma_times_sum(dipole, 1real, delta * s);
    lemma_swap(dipole, delta * s);
    let xx = real_of(transport.dxx);
    let xy = real_of(transport.dxy);
    let yy = real_of(transport.dyy);
    let h = real_of(physics.delta_t);
    assert(real_of(next.x) == real_of(pose.x) + ((xx * worth(k, x) + xy * worth(k, y)) * h
        + real_of(transport.noise_x))) by {
        reveal_with_fuel(worth, 6);
    }
    assert(real_of(next.y) == real_of(pose.y) + ((xy * worth(k, x) + yy * worth(k, y)) * h
        + real_of(transport.noise_y))) by {
        reveal_with_fuel(worth, 6);
    }
    assert(real_of(next.phi) == real_of(pose.phi) + (real_of(diffusion.d_r) * worth(k, torque) * h
        + real_of(noise.rot) * real_of(normals.r))) by {
        reveal_with_fuel(worth, 5);
    }
    lemma_body_frame(
        c,
        s,
        real_of(diffusion.d_parallel),
        xx,
        xy,
        yy,
        fx,
        fy,
        h,
        real_of(transport.noise_x),
        real_of(transport.noise_y),
        real_of(next.x) - real_of(pose.x),
        real_of(next.y) - real_of(pose.y),
    );
}

// ---- Windows ----

/// The steps that are due take the time that has passed at the speed of the window.
pub proof fn law_steps_due<K: Arithmetic>(
    k: &K,
    remainder: Double,
    elapsed: Double,
    speed_scale: Double,
    delta_t: Double,
    due: Double,
)
    requires
        steady(k),
        steps_due_gives(k, remainder, elapsed, speed_scale, delta_t, due),
        exact(
            k,
            plus(num(remainder), over(times(num(elapsed), num(speed_scale)), num(delta_t))),
        ),
        real_of(delta_t) != 0real,
    ensures
        (real_of(due) - real_of(remainder)) * real_of(delta_t) == real_of(elapsed) * real_of(
            speed_scale,
        ),
{
    law_exact_value(
        k,
        plus(num(remainder), over(times(num(elapsed), num(speed_scale)), num(delta_t))),
        due,
    );
    lemma_quotient(
        real_of(elapsed) * real_of(speed_scale),
        real_of(delta_t),
    );
    reveal_with_fuel(worth, 4);
}

/// The places of a section lie equally far apart: place `i` of `count` pieces is `i` of `count` parts
/// of the way from one end to the other.
pub proof fn law_places_of_section<K: Arithmetic>(
    k: &K,
    x_min: Double,
    x_max: Double,
    i: u64,
    count: u64,
    place: Double,
)
    requires
        steady(k),
        gives(k, place_of(x_min, x_max, i, count), place),
        exact(k, place_of(x_min, x_max, i, count)),
        count > 0,
    ensures
        (real_of(place) - real_of(x_min)) * (count as int) as real == (real_of(x_max) - real_of(
            x_min,
        )) * (i as int) as real,
        i == 0 ==> real_of(place) == real_of(x_min),
        i == count ==> real_of(place) == real_of(x_max),
{
    law_exact_value(k, place_of(x_min, x_max, i, count), place);
    let span = real_of(x_max) - real_of(x_min);
    let n = (count as int) as real;
    let p = (i as int) as real;
    let way = real_of(place) - real_of(x_min);
    assert(way == (span * p) / n) by {
        reveal_with_fuel(worth, 5);
    }
    lemma_quotient(span * p, n);
    if i == 0 {
        lemma_times_zero(span);
        lemma_positive_factor(way, n);
    }
    if i == count {
        lemma_sum_times(way, span, n);
        lemma_positive_factor(way - span, n);
    }
}

/// A camera that is too far behind is brought to the largest distance, on the side on which it was.
pub proof fn law_camera_limit<K: Arithmetic>(
    k: &K,
    target_x: Double,
    lag: Double,
    place: Double,
)
    requires
        steady(k),
        at_limit_gives(k, target_x, lag, place),
        !lag.nan(),
        exact(
            k,
            minus(num(target_x), times(lit(ONE), lit(CAMERA_MAX_LAG))),
        ),
        exact(
            k,
            minus(num(target_x), times(lit(MINUS_ONE), lit(CAMERA_MAX_LAG))),
        ),
    ensures
        ({
            let most = real_of(Double { bits: CAMERA_MAX_LAG });
            &&& real_of(lag) < 0real ==> real_of(target_x) - real_of(place) == -most
            &&& real_of(lag) >= 0real ==> real_of(target_x) - real_of(place) == most
        }),
{
    lemma_sign(lag);
    lemma_constants();
    lemma_negated(Double { bits: ONE });
    assert((Double { bits: ONE }).negated() == (Double { bits: MINUS_ONE }));
    assert((Double { bits: 0 }).value() == 0 && !(Double { bits: 0 }).nan()) by {
        assert(weight(0) == 0);
    }
    let side = if lag.below(Double::zero()) {
        lit(MINUS_ONE)
    } else {
        lit(ONE)
    };
    law_exact_value(
        k,
        minus(num(target_x), times(side, lit(CAMERA_MAX_LAG))),
        place,
    );
    let most = real_of(Double { bits: CAMERA_MAX_LAG });
    lemma_minus_times(1real, most);
    reveal_with_fuel(worth, 4);
}

/// The camera comes nearer to its target on the side on which it was: of its distance it keeps the
/// part that the exponential gives.
pub proof fn law_camera_approaches<K: Arithmetic>(
    k: &K,
    x: Double,
    target_x: Double,
    dt: Double,
    after: Double,
)
    requires
        steady(k),
        approach_gives(k, x, target_x, dt, after),
        exact(
            k,
            plus(
                num(x),
                times(
                    minus(num(target_x), num(x)),
                    minus(lit(ONE), exp_of(times(lit(CAMERA_FOLLOW_RATE), num(dt)))),
                ),
            ),
        ),
    ensures
        real_of(target_x) - real_of(after) == worth(
            k,
            exp_of(times(lit(CAMERA_FOLLOW_RATE), num(dt))),
        ) * (real_of(target_x) - real_of(x)),
{
    let kept = exp_of(times(lit(CAMERA_FOLLOW_RATE), num(dt)));
    let part = minus(lit(ONE), kept);
    law_exact_value(k, plus(num(x), times(minus(num(target_x), num(x)), part)), after);
    lemma_constants();
    let e = worth(k, kept);
    let gap = real_of(target_x) - real_of(x);
    assert(real_of(after) == real_of(x) + gap * (1real - e)) by {
        reveal_with_fuel(worth, 4);
    }
    lemma_times_sum(gap, 1real, e);
    lemma_swap(gap, e);
}

} // verus!
