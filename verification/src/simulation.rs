//! The course of one rod through the channel, step by step.

use vstd::prelude::*;
use crate::channel::{
    omega, omega_gives, reflect_state_into_channel, reflection_outcome, wall_index,
    wall_sample_gives, wall_y_samples, BoundaryCorrectedState, Pose,
};
use crate::config::{
    particle_length, particle_length_gives, rc2_gives, Physics, MAX_WALL_REPULSION_FORCE, WALL_K,
};
use crate::double::Double;
use crate::formula::{
    cos_of, gives, int_of, lit, minus, nat_of, neg_of, num, over, plus, sin_of, sqrt_of, times,
    Arithmetic, Calc, Expr, Term, HALF, ONE, QUARTER, TAU, THREE, TWENTY_FOUR, TWO,
};
use crate::model::{
    diffusion_for_length, diffusion_for_length_gives, Diffusion, PASS_DIRECTION_LEFT,
    PASS_DIRECTION_NONE, PASS_DIRECTION_RIGHT,
};
use crate::rng::{state_after, uniform_drawn, SplitMixRng};

verus! {

/// The parameters of an animated or simulated rod.
#[derive(Clone, Copy, Debug)]
pub struct VisualParams {
    pub seed: u64,
    pub m: i32,
    pub f: Double,
    pub gamma: Double,
    pub delta: Double,
}

impl PartialEq for VisualParams {
    fn eq(&self, other: &VisualParams) -> (b: bool) {
        self.seed == other.seed && self.m == other.m && self.f.num_eq(other.f) && self.gamma.num_eq(
            other.gamma,
        ) && self.delta.num_eq(other.delta)
    }
}

impl vstd::std_specs::cmp::PartialEqSpecImpl for VisualParams {
    open spec fn obeys_eq_spec() -> bool {
        true
    }

    open spec fn eq_spec(&self, other: &VisualParams) -> bool {
        self.seed == other.seed && self.m == other.m && self.f.same_number(other.f)
            && self.gamma.same_number(other.gamma) && self.delta.same_number(other.delta)
    }
}

/// A point of the rod.
#[derive(Clone, Copy, Debug)]
pub struct RodPoint {
    pub x: Double,
    pub y: Double,
}

/// The force of the walls on one point.
#[derive(Clone, Copy, Debug)]
pub struct WallForce {
    pub force_x: Double,
    pub force_y: Double,
}

/// The force on the centre of the rod and the torque.
#[derive(Clone, Copy, Debug)]
pub struct GeneralizedForce {
    pub force_x: Double,
    pub force_y: Double,
    pub torque: Double,
}

/// The factors of the noise.
#[derive(Clone, Copy, Debug)]
pub struct NoiseScale {
    pub trans_parallel: Double,
    pub trans_perp: Double,
    pub rot: Double,
}

/// The normal numbers of one step: along the rod, across it, and for its rotation.
#[derive(Clone, Copy, Debug)]
pub struct Normals {
    pub tx: Double,
    pub ty: Double,
    pub r: Double,
}

/// What the motion of the rod in one step depends on, besides forces and noise.
#[derive(Clone, Copy, Debug)]
pub struct Rod {
    pub params: VisualParams,
    pub physics: Physics,
    pub diffusion: Diffusion,
    pub noise_scale: NoiseScale,
    pub pose: Pose,
}

/// How a rod moves and is shaken in the frame of the channel.
#[derive(Clone, Copy, Debug)]
pub struct LabTransport {
    pub dxx: Double,
    pub dxy: Double,
    pub dyy: Double,
    pub noise_x: Double,
    pub noise_y: Double,
}

/// What one step adds to position and angle.
#[derive(Clone, Copy, Debug)]
pub struct StepIncrement {
    pub dx: Double,
    pub dy: Double,
    pub dphi: Double,
}

/// Where a point is as seen from a wall point.
#[derive(Clone, Copy, Debug)]
pub struct WallOffset {
    pub dx: Double,
    pub dy: Double,
    /// The square of the distance.
    pub r2: Double,
}

// ---- Formulas of the start ----

/// The bits of -0.1.
pub const START_LEFT: u64 = 0xbfb9_9999_9999_999a;

/// The bits of 0.8.
pub const START_SPAN: u64 = 0x3fe9_9999_9999_999a;

/// Whether a rod starts at `x`: between -0.1 and 0.7.
pub open spec fn initial_x_gives<K: Arithmetic>(k: &K, u: Double, x: Double) -> bool {
    gives(k, plus(lit(START_LEFT), times(lit(START_SPAN), num(u))), x)
}

fn initial_x<K: Arithmetic>(k: &K, u: Double) -> (x: Double)
    ensures
        initial_x_gives(k, u, x),
{
    let c = Calc::new(k);
    c.plus(c.lit(START_LEFT), c.times(c.lit(START_SPAN), c.num(u))).value
}

/// Whether `range` is the range of heights at which a rod of length `l` fits into the channel: half
/// a rod away from both walls.
pub open spec fn initial_y_range_gives<K: Arithmetic>(
    k: &K,
    x0: Double,
    l: Double,
    range: (Double, Double),
) -> bool {
    exists|width: Double|
        {
            &&& #[trigger] omega_gives(k, x0, width)
            &&& gives(k, plus(neg_of(num(width)), times(lit(HALF), num(l))), range.0)
            &&& gives(k, minus(num(width), times(lit(HALF), num(l))), range.1)
        }
}

fn initial_y_range<K: Arithmetic>(k: &K, x0: Double, l: Double) -> (range: (Double, Double))
    ensures
        initial_y_range_gives(k, x0, l, range),
{
    let c = Calc::new(k);
    let half_l = c.times(c.lit(HALF), c.num(l));
    let width = omega(k, x0);
    assert(omega_gives(k, x0, width));
    let w = c.num(width);
    (c.plus(c.neg_of(w), half_l).value, c.minus(w, half_l).value)
}

/// Whether `y` is the height in a range that a uniform number picks.
pub open spec fn initial_y_gives<K: Arithmetic>(
    k: &K,
    y_min: Double,
    y_max: Double,
    u: Double,
    y: Double,
) -> bool {
    gives(k, plus(num(y_min), times(minus(num(y_max), num(y_min)), num(u))), y)
}

fn initial_y<K: Arithmetic>(k: &K, y_min: Double, y_max: Double, u: Double) -> (y: Double)
    ensures
        initial_y_gives(k, y_min, y_max, u, y),
{
    let c = Calc::new(k);
    c.plus(c.num(y_min), c.times(c.minus(c.num(y_max), c.num(y_min)), c.num(u))).value
}

/// Whether `phi` is the angle that a uniform number picks.
pub open spec fn initial_phi_gives<K: Arithmetic>(k: &K, u: Double, phi: Double) -> bool {
    gives(k, times(lit(TAU), num(u)), phi)
}

fn initial_phi<K: Arithmetic>(k: &K, u: Double) -> (phi: Double)
    ensures
        initial_phi_gives(k, u, phi),
{
    let c = Calc::new(k);
    c.times(c.lit(TAU), c.num(u)).value
}

/// Whether `targets` are the positions one period to the right and to the left.
pub open spec fn targets_gives<K: Arithmetic>(
    k: &K,
    x0: Double,
    targets: (Double, Double),
) -> bool {
    &&& gives(k, plus(num(x0), lit(ONE)), targets.0)
    &&& gives(k, minus(num(x0), lit(ONE)), targets.1)
}

fn targets<K: Arithmetic>(k: &K, x0: Double) -> (targets: (Double, Double))
    ensures
        targets_gives(k, x0, targets),
{
    let c = Calc::new(k);
    (c.plus(c.num(x0), c.lit(ONE)).value, c.minus(c.num(x0), c.lit(ONE)).value)
}

/// The factor of the noise for a diffusion coefficient: sqrt(2 D dt).
pub open spec fn noise_of(d: Double, delta_t: Double) -> Expr {
    sqrt_of(times(times(lit(TWO), num(d)), num(delta_t)))
}

/// Whether these are the factors of the noise.
pub open spec fn noise_scale_gives<K: Arithmetic>(
    k: &K,
    diffusion: Diffusion,
    delta_t: Double,
    noise: NoiseScale,
) -> bool {
    &&& gives(k, noise_of(diffusion.d_parallel, delta_t), noise.trans_parallel)
    &&& gives(k, noise_of(diffusion.d_perp, delta_t), noise.trans_perp)
    &&& gives(k, noise_of(diffusion.d_r, delta_t), noise.rot)
}

fn noise_factor<K: Arithmetic>(k: &K, d: Double, delta_t: Double) -> (factor: Double)
    ensures
        gives(k, noise_of(d, delta_t), factor),
{
    let c = Calc::new(k);
    c.sqrt_of(c.times(c.times(c.lit(TWO), c.num(d)), c.num(delta_t))).value
}

/// The factors of the noise.
pub fn noise_scale<K: Arithmetic>(k: &K, diffusion: Diffusion, delta_t: Double) -> (noise:
    NoiseScale)
    ensures
        noise_scale_gives(k, diffusion, delta_t, noise),
{
    NoiseScale {
        trans_parallel: noise_factor(k, diffusion.d_parallel, delta_t),
        trans_perp: noise_factor(k, diffusion.d_perp, delta_t),
        rot: noise_factor(k, diffusion.d_r, delta_t),
    }
}

/// Whether `t` is the time after a number of steps.
pub open spec fn elapsed_gives<K: Arithmetic>(
    k: &K,
    steps: u64,
    delta_t: Double,
    t: Double,
) -> bool {
    gives(k, times(nat_of(steps), num(delta_t)), t)
}

fn elapsed<K: Arithmetic>(k: &K, steps: u64, delta_t: Double) -> (t: Double)
    ensures
        elapsed_gives(k, steps, delta_t, t),
{
    let c = Calc::new(k);
    c.times(c.nat_of(steps), c.num(delta_t)).value
}

// ---- Formulas of the forces ----

/// How far representative point `j` is from the centre of the rod.
pub open spec fn point_offset(particle_dx: Double, j: i32) -> Expr {
    times(int_of(j as i64), num(particle_dx))
}

/// Whether `point` is representative point `j` of a rod, counted from its centre.
pub open spec fn rod_point_gives<K: Arithmetic>(
    k: &K,
    pose: Pose,
    particle_dx: Double,
    j: i32,
    point: RodPoint,
) -> bool {
    let offset = point_offset(particle_dx, j);
    &&& gives(k, plus(num(pose.x), times(offset, cos_of(num(pose.phi)))), point.x)
    &&& gives(k, plus(num(pose.y), times(offset, sin_of(num(pose.phi)))), point.y)
}

/// The representative point `j` of a rod, counted from its centre.
pub fn rod_point<K: Arithmetic>(k: &K, pose: Pose, particle_dx: Double, j: i32) -> (point: RodPoint)
    ensures
        rod_point_gives(k, pose, particle_dx, j, point),
{
    let c = Calc::new(k);
    let offset = c.times(c.int_of(j as i64), c.num(particle_dx));
    let phi = c.num(pose.phi);
    RodPoint {
        x: c.plus(c.num(pose.x), c.times(offset, c.cos_of(phi))).value,
        y: c.plus(c.num(pose.y), c.times(offset, c.sin_of(phi))).value,
    }
}

/// A value with a half added, away from 0.
pub open spec fn half_away(value: Double) -> Expr {
    if Double::zero().at_most(value) {
        plus(num(value), lit(HALF))
    } else {
        minus(num(value), lit(HALF))
    }
}

/// Whether `n` is the integer nearest to a value: a half is added away from 0, and what is behind
/// the point is dropped.
pub open spec fn round_to_i64_gives<K: Arithmetic>(k: &K, value: Double, n: i64) -> bool {
    exists|shifted: Double| #[trigger]
        gives(k, half_away(value), shifted) && call_ensures(K::to_signed, (k, shifted), n)
}

/// The integer nearest to a value.
pub fn round_to_i64<K: Arithmetic>(k: &K, value: Double) -> (n: i64)
    ensures
        round_to_i64_gives(k, value, n),
{
    let c = Calc::new(k);
    let shifted = if Double::zero().le(value) {
        c.plus(c.num(value), c.lit(HALF)).value
    } else {
        c.minus(c.num(value), c.lit(HALF)).value
    };
    assert(gives(k, half_away(value), shifted));
    k.to_signed(shifted)
}

/// Whether `nearest` is the wall point nearest to `x`.
pub open spec fn nearest_wall_gives<K: Arithmetic>(
    k: &K,
    x: Double,
    wall_dx: Double,
    nearest: i64,
) -> bool {
    exists|place: Double| #[trigger]
        gives(k, over(num(x), num(wall_dx)), place) && round_to_i64_gives(k, place, nearest)
}

/// The wall point nearest to `x`.
pub fn nearest_wall<K: Arithmetic>(k: &K, x: Double, wall_dx: Double) -> (nearest: i64)
    ensures
        nearest_wall_gives(k, x, wall_dx, nearest),
{
    let c = Calc::new(k);
    let place = c.over(c.num(x), c.num(wall_dx)).value;
    assert(gives(k, over(num(x), num(wall_dx)), place));
    round_to_i64(k, place)
}

/// Whether `offset` tells where a point is as seen from a wall point at a height.
pub open spec fn wall_offset_gives<K: Arithmetic>(
    k: &K,
    wall_dx: Double,
    point: RodPoint,
    wall_point: i64,
    wall_y: Double,
    offset: WallOffset,
) -> bool {
    &&& gives(k, minus(num(point.x), times(int_of(wall_point), num(wall_dx))), offset.dx)
    &&& gives(k, minus(num(point.y), num(wall_y)), offset.dy)
    &&& gives(
        k,
        plus(times(num(offset.dx), num(offset.dx)), times(num(offset.dy), num(offset.dy))),
        offset.r2,
    )
}

/// Where a point is as seen from a wall point at a height.
pub fn wall_offset<K: Arithmetic>(
    k: &K,
    wall_dx: Double,
    point: RodPoint,
    wall_point: i64,
    wall_y: Double,
) -> (offset: WallOffset)
    ensures
        wall_offset_gives(k, wall_dx, point, wall_point, wall_y, offset),
{
    let c = Calc::new(k);
    let wall_x = c.times(c.int_of(wall_point), c.num(wall_dx));
    let dx = c.minus(c.num(point.x), wall_x).value;
    let dy = c.minus(c.num(point.y), c.num(wall_y)).value;
    let r2 = c.plus(c.times(c.num(dx), c.num(dx)), c.times(c.num(dy), c.num(dy))).value;
    WallOffset { dx, dy, r2 }
}

/// The sixth power of sigma over the distance.
pub open spec fn sixth_power(sigma: Double, r2: Double) -> Expr {
    let s2 = over(times(num(sigma), num(sigma)), num(r2));
    times(times(s2, s2), s2)
}

/// The repulsion at a distance, over that distance.
pub open spec fn wca_coefficient(sigma: Double, epsilon: Double, r2: Double) -> Expr {
    let s6 = sixth_power(sigma, r2);
    times(
        times(over(times(lit(TWENTY_FOUR), num(epsilon)), num(r2)), s6),
        minus(times(lit(TWO), s6), lit(ONE)),
    )
}

fn wca_term<K: Arithmetic>(c: &Calc<K>, sigma: Double, epsilon: Double, r2: Double) -> (t: Term)
    ensures
        t.of(c.k),
        t.expr@ == wca_coefficient(sigma, epsilon, r2),
{
    let s2 = c.over(c.times(c.num(sigma), c.num(sigma)), c.num(r2));
    let s6 = c.times(c.times(s2, s2), s2);
    let lead = c.times(c.over(c.times(c.lit(TWENTY_FOUR), c.num(epsilon)), c.num(r2)), s6);
    c.times(lead, c.minus(c.times(c.lit(TWO), s6), c.lit(ONE)))
}

/// The coefficient of the repulsion of a wall point.
pub fn wca_coefficient_value<K: Arithmetic>(
    k: &K,
    sigma: Double,
    epsilon: Double,
    r2: Double,
) -> (coefficient: Double)
    ensures
        gives(k, wca_coefficient(sigma, epsilon, r2), coefficient),
{
    wca_term(&Calc::new(k), sigma, epsilon, r2).value
}

/// Whether `capped` is a force held to the largest repulsion of a wall point: a larger one keeps
/// its direction.
pub open spec fn capped_wall_force_gives<K: Arithmetic>(
    k: &K,
    force: WallForce,
    capped: WallForce,
) -> bool {
    exists|square: Double, limit: Double|
        {
            &&& #[trigger] gives(
                k,
                plus(
                    times(num(force.force_x), num(force.force_x)),
                    times(num(force.force_y), num(force.force_y)),
                ),
                square,
            )
            &&& #[trigger] gives(
                k,
                times(lit(MAX_WALL_REPULSION_FORCE), lit(MAX_WALL_REPULSION_FORCE)),
                limit,
            )
            &&& if limit.below(square) {
                let scale = over(lit(MAX_WALL_REPULSION_FORCE), sqrt_of(num(square)));
                &&& gives(k, times(num(force.force_x), scale), capped.force_x)
                &&& gives(k, times(num(force.force_y), scale), capped.force_y)
            } else {
                capped == force
            }
        }
}

/// A force held to the largest repulsion of a wall point.
pub fn capped_wall_force<K: Arithmetic>(k: &K, force: WallForce) -> (capped: WallForce)
    ensures
        capped_wall_force_gives(k, force, capped),
{
    let c = Calc::new(k);
    let x = c.num(force.force_x);
    let y = c.num(force.force_y);
    let square = c.plus(c.times(x, x), c.times(y, y)).value;
    let most = c.lit(MAX_WALL_REPULSION_FORCE);
    let limit = c.times(most, most).value;
    assert(gives(
        k,
        plus(
            times(num(force.force_x), num(force.force_x)),
            times(num(force.force_y), num(force.force_y)),
        ),
        square,
    ));
    assert(gives(
        k,
        times(lit(MAX_WALL_REPULSION_FORCE), lit(MAX_WALL_REPULSION_FORCE)),
        limit,
    ));
    if limit.lt(square) {
        let scale = c.over(most, c.sqrt_of(c.num(square)));
        WallForce { force_x: c.times(x, scale).value, force_y: c.times(y, scale).value }
    } else {
        force
    }
}

/// Whether `after` is the force with the repulsion of one wall point added. Points beyond the range
/// of the repulsion add nothing, and neither does a point that lies on the wall point.
pub open spec fn add_wca_force_gives<K: Arithmetic>(
    k: &K,
    force: WallForce,
    physics: Physics,
    point: RodPoint,
    wall_point: i64,
    wall_y: Double,
    after: WallForce,
) -> bool {
    exists|offset: WallOffset, rc2: Double|
        {
            &&& #[trigger] wall_offset_gives(
                k,
                physics.wall_dx,
                point,
                wall_point,
                wall_y,
                offset,
            )
            &&& #[trigger] rc2_gives(k, physics.sigma, rc2)
            &&& if Double::zero().below(offset.r2) && offset.r2.below(rc2) {
                repulsion_added(k, force, physics, offset, after)
            } else {
                after == force
            }
        }
}

/// Whether `after` is the force with the capped repulsion at an offset added.
pub open spec fn repulsion_added<K: Arithmetic>(
    k: &K,
    force: WallForce,
    physics: Physics,
    offset: WallOffset,
    after: WallForce,
) -> bool {
    exists|pair: WallForce, capped: WallForce|
        {
            &&& gives(
                k,
                times(
                    wca_coefficient(physics.sigma, physics.epsilon, offset.r2),
                    num(offset.dx),
                ),
                pair.force_x,
            )
            &&& gives(
                k,
                times(
                    wca_coefficient(physics.sigma, physics.epsilon, offset.r2),
                    num(offset.dy),
                ),
                pair.force_y,
            )
            &&& #[trigger] capped_wall_force_gives(k, pair, capped)
            &&& gives(k, plus(num(force.force_x), num(capped.force_x)), after.force_x)
            &&& gives(k, plus(num(force.force_y), num(capped.force_y)), after.force_y)
        }
}

/// The force with the repulsion of one wall point added.
pub fn add_wca_force<K: Arithmetic>(
    k: &K,
    force: WallForce,
    physics: Physics,
    point: RodPoint,
    wall_point: i64,
    wall_y: Double,
) -> (after: WallForce)
    ensures
        add_wca_force_gives(k, force, physics, point, wall_point, wall_y, after),
{
    let c = Calc::new(k);
    let offset = wall_offset(k, physics.wall_dx, point, wall_point, wall_y);
    let rc2 = physics.rc2(k);
    assert(rc2_gives(k, physics.sigma, rc2));
    if !(Double::zero().lt(offset.r2) && offset.r2.lt(rc2)) {
        return force;
    }
    let coefficient = wca_term(&c, physics.sigma, physics.epsilon, offset.r2);
    let pair = WallForce {
        force_x: c.times(coefficient, c.num(offset.dx)).value,
        force_y: c.times(coefficient, c.num(offset.dy)).value,
    };
    let capped = capped_wall_force(k, pair);
    let after = WallForce {
        force_x: c.plus(c.num(force.force_x), c.num(capped.force_x)).value,
        force_y: c.plus(c.num(force.force_y), c.num(capped.force_y)).value,
    };
    assert(repulsion_added(k, force, physics, offset, after));
    after
}

/// Whether `after` is the sum with the force on representative point `j` added, and its torque.
pub open spec fn add_point_force_gives<K: Arithmetic>(
    k: &K,
    sum: GeneralizedForce,
    pose: Pose,
    particle_dx: Double,
    j: i32,
    force: WallForce,
    after: GeneralizedForce,
) -> bool {
    &&& gives(k, plus(num(sum.force_x), num(force.force_x)), after.force_x)
    &&& gives(k, plus(num(sum.force_y), num(force.force_y)), after.force_y)
    &&& gives(
        k,
        plus(
            num(sum.torque),
            times(
                point_offset(particle_dx, j),
                minus(
                    times(cos_of(num(pose.phi)), num(force.force_y)),
                    times(sin_of(num(pose.phi)), num(force.force_x)),
                ),
            ),
        ),
        after.torque,
    )
}

/// The sum with the force on representative point `j` added.
pub fn add_point_force<K: Arithmetic>(
    k: &K,
    sum: GeneralizedForce,
    pose: Pose,
    particle_dx: Double,
    j: i32,
    force: WallForce,
) -> (after: GeneralizedForce)
    ensures
        add_point_force_gives(k, sum, pose, particle_dx, j, force, after),
{
    let c = Calc::new(k);
    let offset = c.times(c.int_of(j as i64), c.num(particle_dx));
    let phi = c.num(pose.phi);
    let turn = c.minus(
        c.times(c.cos_of(phi), c.num(force.force_y)),
        c.times(c.sin_of(phi), c.num(force.force_x)),
    );
    GeneralizedForce {
        force_x: c.plus(c.num(sum.force_x), c.num(force.force_x)).value,
        force_y: c.plus(c.num(sum.force_y), c.num(force.force_y)).value,
        torque: c.plus(c.num(sum.torque), c.times(offset, turn)).value,
    }
}

/// The torque of the field: gamma cos phi (1 - delta sin phi).
pub open spec fn field_torque(params: VisualParams, phi: Double) -> Expr {
    times(
        times(num(params.gamma), cos_of(num(phi))),
        minus(lit(ONE), times(num(params.delta), sin_of(num(phi)))),
    )
}

/// Whether `after` is the repulsion of the walls with the external force and the torque of the
/// field, each once for the whole rod.
pub open spec fn add_external_force_gives<K: Arithmetic>(
    k: &K,
    sum: GeneralizedForce,
    params: VisualParams,
    pose: Pose,
    after: GeneralizedForce,
) -> bool {
    &&& gives(k, plus(num(params.f), num(sum.force_x)), after.force_x)
    &&& after.force_y == sum.force_y
    &&& gives(k, plus(num(sum.torque), field_torque(params, pose.phi)), after.torque)
}

/// The repulsion of the walls with the external force and the torque of the field added.
pub fn add_external_force<K: Arithmetic>(
    k: &K,
    sum: GeneralizedForce,
    params: VisualParams,
    pose: Pose,
) -> (after: GeneralizedForce)
    ensures
        add_external_force_gives(k, sum, params, pose, after),
{
    let c = Calc::new(k);
    let phi = c.num(pose.phi);
    let lead = c.times(c.num(params.gamma), c.cos_of(phi));
    let tau = c.times(lead, c.minus(c.lit(ONE), c.times(c.num(params.delta), c.sin_of(phi))));
    GeneralizedForce {
        force_x: c.plus(c.num(params.f), c.num(sum.force_x)).value,
        force_y: sum.force_y,
        torque: c.plus(c.num(sum.torque), tau).value,
    }
}

// ---- Formulas of the motion ----

/// Whether `transport` is that of a rod at an angle: the diffusion tensor in the frame of the
/// channel, and the noise along and across the rod.
pub open spec fn lab_transport_gives<K: Arithmetic>(
    k: &K,
    d_parallel: Double,
    noise: NoiseScale,
    phi: Double,
    normals: Normals,
    transport: LabTransport,
) -> bool {
    let scale = times(lit(QUARTER), num(d_parallel));
    let twice = times(lit(TWO), num(phi));
    let body_x = times(num(noise.trans_parallel), num(normals.tx));
    let body_y = times(num(noise.trans_perp), num(normals.ty));
    let cosine = cos_of(num(phi));
    let sine = sin_of(num(phi));
    &&& gives(k, times(scale, plus(lit(THREE), cos_of(twice))), transport.dxx)
    &&& gives(k, times(scale, sin_of(twice)), transport.dxy)
    &&& gives(k, times(scale, minus(lit(THREE), cos_of(twice))), transport.dyy)
    &&& gives(k, minus(times(cosine, body_x), times(sine, body_y)), transport.noise_x)
    &&& gives(k, plus(times(sine, body_x), times(cosine, body_y)), transport.noise_y)
}

/// The transport of a rod at an angle.
pub fn lab_transport<K: Arithmetic>(
    k: &K,
    d_parallel: Double,
    noise: NoiseScale,
    phi: Double,
    normals: Normals,
) -> (transport: LabTransport)
    ensures
        lab_transport_gives(k, d_parallel, noise, phi, normals, transport),
{
    let c = Calc::new(k);
    let scale = c.times(c.lit(QUARTER), c.num(d_parallel));
    let twice = c.times(c.lit(TWO), c.num(phi));
    let cos2 = c.cos_of(twice);
    let sin2 = c.sin_of(twice);
    let body_x = c.times(c.num(noise.trans_parallel), c.num(normals.tx));
    let body_y = c.times(c.num(noise.trans_perp), c.num(normals.ty));
    let cosine = c.cos_of(c.num(phi));
    let sine = c.sin_of(c.num(phi));
    LabTransport {
        dxx: c.times(scale, c.plus(c.lit(THREE), cos2)).value,
        dxy: c.times(scale, sin2).value,
        dyy: c.times(scale, c.minus(c.lit(THREE), cos2)).value,
        noise_x: c.minus(c.times(cosine, body_x), c.times(sine, body_y)).value,
        noise_y: c.plus(c.times(sine, body_x), c.times(cosine, body_y)).value,
    }
}

/// Whether `increment` is what forces and noise add in one step.
pub open spec fn step_increment_gives<K: Arithmetic>(
    k: &K,
    rod: Rod,
    transport: LabTransport,
    force: GeneralizedForce,
    normals: Normals,
    increment: StepIncrement,
) -> bool {
    let dt = num(rod.physics.delta_t);
    let drift_x = times(
        plus(
            times(num(transport.dxx), num(force.force_x)),
            times(num(transport.dxy), num(force.force_y)),
        ),
        dt,
    );
    let drift_y = times(
        plus(
            times(num(transport.dxy), num(force.force_x)),
            times(num(transport.dyy), num(force.force_y)),
        ),
        dt,
    );
    let noise_phi = times(num(rod.noise_scale.rot), num(normals.r));
    let turn = times(times(num(rod.diffusion.d_r), num(force.torque)), dt);
    &&& gives(k, plus(drift_x, num(transport.noise_x)), increment.dx)
    &&& gives(k, plus(drift_y, num(transport.noise_y)), increment.dy)
    &&& gives(k, plus(turn, noise_phi), increment.dphi)
}

/// What forces and noise add in one step.
pub fn step_increment<K: Arithmetic>(
    k: &K,
    rod: Rod,
    transport: LabTransport,
    force: GeneralizedForce,
    normals: Normals,
) -> (increment: StepIncrement)
    ensures
        step_increment_gives(k, rod, transport, force, normals, increment),
{
    let c = Calc::new(k);
    let dt = c.num(rod.physics.delta_t);
    let x = c.num(force.force_x);
    let y = c.num(force.force_y);
    let dxy = c.num(transport.dxy);
    let drift_x = c.times(c.plus(c.times(c.num(transport.dxx), x), c.times(dxy, y)), dt);
    let drift_y = c.times(c.plus(c.times(dxy, x), c.times(c.num(transport.dyy), y)), dt);
    let noise_phi = c.times(c.num(rod.noise_scale.rot), c.num(normals.r));
    let turn = c.times(c.times(c.num(rod.diffusion.d_r), c.num(force.torque)), dt);
    StepIncrement {
        dx: c.plus(drift_x, c.num(transport.noise_x)).value,
        dy: c.plus(drift_y, c.num(transport.noise_y)).value,
        dphi: c.plus(turn, noise_phi).value,
    }
}

/// Whether `next` is the pose of a rod after one time step with drift and noise, the transport taken
/// at an angle.
pub open spec fn moved_gives<K: Arithmetic>(
    k: &K,
    rod: Rod,
    phi: Double,
    force: GeneralizedForce,
    normals: Normals,
    next: Pose,
) -> bool {
    exists|transport: LabTransport, increment: StepIncrement|
        {
            &&& #[trigger] lab_transport_gives(
                k,
                rod.diffusion.d_parallel,
                rod.noise_scale,
                phi,
                normals,
                transport,
            )
            &&& #[trigger] step_increment_gives(k, rod, transport, force, normals, increment)
            &&& gives(k, plus(num(rod.pose.x), num(increment.dx)), next.x)
            &&& gives(k, plus(num(rod.pose.y), num(increment.dy)), next.y)
            &&& gives(k, plus(num(rod.pose.phi), num(increment.dphi)), next.phi)
        }
}

fn moved<K: Arithmetic>(
    k: &K,
    rod: Rod,
    phi: Double,
    force: GeneralizedForce,
    normals: Normals,
) -> (next: Pose)
    ensures
        moved_gives(k, rod, phi, force, normals, next),
{
    let c = Calc::new(k);
    let transport = lab_transport(k, rod.diffusion.d_parallel, rod.noise_scale, phi, normals);
    let increment = step_increment(k, rod, transport, force, normals);
    Pose {
        x: c.plus(c.num(rod.pose.x), c.num(increment.dx)).value,
        y: c.plus(c.num(rod.pose.y), c.num(increment.dy)).value,
        phi: c.plus(c.num(rod.pose.phi), c.num(increment.dphi)).value,
    }
}

/// Whether `end` is an end of the rod: the last one for `forward`, else the first.
pub open spec fn rod_end_gives<K: Arithmetic>(
    k: &K,
    pose: Pose,
    m: i32,
    particle_dx: Double,
    forward: bool,
    end: RodPoint,
) -> bool {
    let along_x = times(point_offset(particle_dx, m), cos_of(num(pose.phi)));
    let along_y = times(point_offset(particle_dx, m), sin_of(num(pose.phi)));
    if forward {
        &&& gives(k, plus(num(pose.x), along_x), end.x)
        &&& gives(k, plus(num(pose.y), along_y), end.y)
    } else {
        &&& gives(k, minus(num(pose.x), along_x), end.x)
        &&& gives(k, minus(num(pose.y), along_y), end.y)
    }
}

fn rod_end<K: Arithmetic>(k: &K, pose: Pose, m: i32, particle_dx: Double, forward: bool) -> (end:
    RodPoint)
    ensures
        rod_end_gives(k, pose, m, particle_dx, forward, end),
{
    let c = Calc::new(k);
    let half = c.times(c.int_of(m as i64), c.num(particle_dx));
    let phi = c.num(pose.phi);
    let along_x = c.times(half, c.cos_of(phi));
    let along_y = c.times(half, c.sin_of(phi));
    let x = c.num(pose.x);
    let y = c.num(pose.y);
    if forward {
        RodPoint { x: c.plus(x, along_x).value, y: c.plus(y, along_y).value }
    } else {
        RodPoint { x: c.minus(x, along_x).value, y: c.minus(y, along_y).value }
    }
}

// ---- The rod ----

/// The state of one simulated rod.
#[derive(Clone, Debug)]
pub struct VisualSimulation {
    pub params: VisualParams,
    pub physics: Physics,
    pub diffusion: Diffusion,
    pub noise_scale: NoiseScale,
    pub x0: Double,
    pub y0: Double,
    pub phi0: Double,
    pub x: Double,
    pub y: Double,
    pub phi: Double,
    pub target_right_x: Double,
    pub target_left_x: Double,
    pub t: Double,
    pub steps: u64,
    pub first_passed: bool,
    pub pass_direction: i32,
    pub completed: bool,
    pub rng: SplitMixRng,
    pub wall_y: Vec<Double>,
}

// ---- Forces ----

/// The sum over the wall points around a point: from the nearest one, `WALL_K` points to each
/// side, in order, each with its upper and its lower wall.
pub open spec fn wall_sum<K: Arithmetic>(
    k: &K,
    physics: Physics,
    wall_y: Seq<Double>,
    point: RodPoint,
    nearest: i64,
    sums: Seq<WallForce>,
    len: int,
) -> bool {
    &&& sums.len() == 2 * len + 1
    &&& sums[0] == WallForce { force_x: Double::zero(), force_y: Double::zero() }
    &&& forall|i: int|
        0 <= i < len ==> {
            let wall_point = nearest.wrapping_add((i - WALL_K) as i64);
            let height = wall_y[wall_point as int % wall_y.len() as int];
            &&& add_wca_force_gives(
                k,
                #[trigger] sums[2 * i],
                physics,
                point,
                wall_point,
                height,
                sums[2 * i + 1],
            )
            &&& add_wca_force_gives(
                k,
                sums[2 * i + 1],
                physics,
                point,
                wall_point,
                height.negated(),
                sums[2 * i + 2],
            )
        }
}

/// Whether `force` is the force of the walls on a point.
pub open spec fn wall_force_outcome<K: Arithmetic>(
    k: &K,
    physics: Physics,
    wall_y: Seq<Double>,
    point: RodPoint,
    force: WallForce,
) -> bool {
    exists|nearest: i64, sums: Seq<WallForce>|
        {
            &&& #[trigger] nearest_wall_gives(k, point.x, physics.wall_dx, nearest)
            &&& #[trigger] wall_sum(k, physics, wall_y, point, nearest, sums, 2 * WALL_K + 1)
            &&& force == sums.last()
        }
}

/// The force of the walls on a point.
pub fn wall_force<K: Arithmetic>(
    k: &K,
    physics: Physics,
    wall_y: &Vec<Double>,
    point: RodPoint,
) -> (force: WallForce)
    requires
        0 < wall_y.len() <= i64::MAX,
    ensures
        wall_force_outcome(k, physics, wall_y@, point, force),
{
    let nearest: i64 = nearest_wall(k, point.x, physics.wall_dx);
    assert(nearest_wall_gives(k, point.x, physics.wall_dx, nearest));
    let mut force = WallForce { force_x: Double::zero(), force_y: Double::zero() };
    let ghost mut sums: Seq<WallForce> = seq![force];
    let mut q: i32 = -WALL_K;
    while q <= WALL_K
        invariant
            -WALL_K <= q <= WALL_K + 1,
            0 < wall_y.len() <= i64::MAX,
            nearest_wall_gives(k, point.x, physics.wall_dx, nearest),
            wall_sum(k, physics, wall_y@, point, nearest, sums, q + WALL_K),
            force == sums.last(),
        decreases WALL_K + 1 - q,
    {
        let ghost before = sums;
        let wall_point: i64 = nearest.wrapping_add(q as i64);
        let height = wall_y[wall_index(wall_point, wall_y.len())];
        let upper = add_wca_force(k, force, physics, point, wall_point, height);
        let lower = add_wca_force(k, upper, physics, point, wall_point, height.neg());
        force = lower;
        proof {
            sums = before.push(upper).push(lower);
            assert forall|i: int| 0 <= i < q + WALL_K + 1 implies {
                let wp = nearest.wrapping_add((i - WALL_K) as i64);
                let h = wall_y@[wp as int % wall_y.len() as int];
                &&& add_wca_force_gives(
                    k,
                    #[trigger] sums[2 * i],
                    physics,
                    point,
                    wp,
                    h,
                    sums[2 * i + 1],
                )
                &&& add_wca_force_gives(
                    k,
                    sums[2 * i + 1],
                    physics,
                    point,
                    wp,
                    h.negated(),
                    sums[2 * i + 2],
                )
            } by {
                if i < q + WALL_K {
                    assert(before[2 * i] == sums[2 * i]);
                    assert(before[2 * i + 1] == sums[2 * i + 1]);
                    assert(before[2 * i + 2] == sums[2 * i + 2]);
                }
            }
        }
        q = q + 1;
    }
    assert(wall_sum(k, physics, wall_y@, point, nearest, sums, 2 * WALL_K + 1));
    force
}

/// The sum over the representative points of a rod, from one end to the other.
pub open spec fn rod_sum<K: Arithmetic>(
    k: &K,
    physics: Physics,
    wall_y: Seq<Double>,
    m: int,
    pose: Pose,
    sums: Seq<GeneralizedForce>,
) -> bool {
    &&& sums.len() >= 1
    &&& sums[0] == GeneralizedForce {
        force_x: Double::zero(),
        force_y: Double::zero(),
        torque: Double::zero(),
    }
    &&& forall|i: int|
        0 <= i < sums.len() - 1 ==> point_added(
            k,
            physics,
            wall_y,
            (i - m) as i32,
            pose,
            #[trigger] sums[i],
            sums[i + 1],
        )
}

/// Whether `next` is the sum with the force on point `j` added.
pub open spec fn point_added<K: Arithmetic>(
    k: &K,
    physics: Physics,
    wall_y: Seq<Double>,
    j: i32,
    pose: Pose,
    sum: GeneralizedForce,
    next: GeneralizedForce,
) -> bool {
    exists|point: RodPoint, force: WallForce|
        {
            &&& #[trigger] rod_point_gives(k, pose, physics.particle_dx, j, point)
            &&& #[trigger] wall_force_outcome(k, physics, wall_y, point, force)
            &&& add_point_force_gives(k, sum, pose, physics.particle_dx, j, force, next)
        }
}

/// Whether `force` is the generalized force on a rod: the repulsion of the walls on each of its
/// 2m + 1 representative points, and then, once for the whole rod, the external force and the
/// torque of the field.
pub open spec fn force_outcome<K: Arithmetic>(
    k: &K,
    params: VisualParams,
    physics: Physics,
    wall_y: Seq<Double>,
    pose: Pose,
    force: GeneralizedForce,
) -> bool {
    exists|sums: Seq<GeneralizedForce>|
        {
            &&& #[trigger] rod_sum(k, physics, wall_y, params.m as int, pose, sums)
            &&& sums.len() == if params.m >= 0 {
                2 * params.m + 2
            } else {
                1
            }
            &&& add_external_force_gives(k, sums.last(), params, pose, force)
        }
}

impl VisualSimulation {
    /// The state can be stepped: the wall has samples, and the points of the rod can be counted.
    pub open spec fn well_formed(self) -> bool {
        &&& 0 < self.wall_y.len() <= i64::MAX
        &&& self.params.m > i32::MIN
    }

    /// The pose of the rod.
    pub open spec fn pose(self) -> Pose {
        Pose { x: self.x, y: self.y, phi: self.phi }
    }

    /// What the motion of the rod depends on.
    pub open spec fn rod(self) -> Rod {
        Rod {
            params: self.params,
            physics: self.physics,
            diffusion: self.diffusion,
            noise_scale: self.noise_scale,
            pose: self.pose(),
        }
    }

    /// The generalized force on the rod in a pose.
    pub fn generalized_force_at<K: Arithmetic>(
        &self,
        k: &K,
        x: Double,
        y: Double,
        phi: Double,
    ) -> (force: GeneralizedForce)
        requires
            self.well_formed(),
        ensures
            force_outcome(
                k,
                self.params,
                self.physics,
                self.wall_y@,
                Pose { x, y, phi },
                force,
            ),
    {
        let pose = Pose { x, y, phi };
        let m: i32 = self.params.m;
        let mut sum = GeneralizedForce {
            force_x: Double::zero(),
            force_y: Double::zero(),
            torque: Double::zero(),
        };
        let ghost mut sums: Seq<GeneralizedForce> = seq![sum];
        if m >= 0 {
            let mut j: i32 = -m;
            let mut done = false;
            while !done
                invariant
                    self.well_formed(),
                    m == self.params.m,
                    0 <= m,
                    -m <= j <= m,
                    sums.len() == if done {
                        2 * m + 2
                    } else {
                        j + m + 1
                    },
                    done ==> j == m,
                    rod_sum(k, self.physics, self.wall_y@, m as int, pose, sums),
                    sum == sums.last(),
                decreases m - j, if done {
                    0int
                } else {
                    1int
                },
            {
                let ghost before = sums;
                let point = rod_point(k, pose, self.physics.particle_dx, j);
                assert(rod_point_gives(k, pose, self.physics.particle_dx, j, point));
                let force = wall_force(k, self.physics, &self.wall_y, point);
                let next = add_point_force(k, sum, pose, self.physics.particle_dx, j, force);
                proof {
                    assert(point_added(k, self.physics, self.wall_y@, j, pose, sum, next));
                    sums = before.push(next);
                    assert forall|i: int| 0 <= i < sums.len() - 1 implies point_added(
                        k,
                        self.physics,
                        self.wall_y@,
                        (i - m) as i32,
                        pose,
                        #[trigger] sums[i],
                        sums[i + 1],
                    ) by {
                        if i < before.len() - 1 {
                            assert(before[i] == sums[i]);
                        }
                    }
                }
                sum = next;
                if j == m {
                    done = true;
                } else {
                    j = j + 1;
                }
            }
        }
        assert(rod_sum(k, self.physics, self.wall_y@, m as int, pose, sums));
        add_external_force(k, sum, self.params, pose)
    }
}

// ---- Steps ----

/// The normal numbers that a step draws, one after the other.
#[verifier::opaque]
pub open spec fn normals_drawn<K: Arithmetic>(
    k: &K,
    before: SplitMixRng,
    after: SplitMixRng,
    normals: Normals,
) -> bool {
    exists|first: SplitMixRng, second: SplitMixRng|
        {
            &&& #[trigger] before.normal_drawn(k, first, normals.tx)
            &&& #[trigger] first.normal_drawn(k, second, normals.ty)
            &&& second.normal_drawn(k, after, normals.r)
        }
}

/// Whether the rod comes to `next` when transport and forces are taken at `at`.
#[verifier::opaque]
pub open spec fn moved_to<K: Arithmetic>(
    k: &K,
    rod: Rod,
    wall_y: Seq<Double>,
    at: Pose,
    normals: Normals,
    next: Pose,
) -> bool {
    exists|force: GeneralizedForce|
        {
            &&& #[trigger] force_outcome(k, rod.params, rod.physics, wall_y, at, force)
            &&& moved_gives(k, rod, at.phi, force, normals, next)
        }
}

/// What happens in one step: the numbers drawn, the prediction and its reflection, the correction
/// and its reflection, and the time.
pub struct StepTrace {
    pub rng: SplitMixRng,
    pub normals: Normals,
    pub prediction: Pose,
    pub predicted: BoundaryCorrectedState,
    pub correction: Pose,
    pub corrected: BoundaryCorrectedState,
    pub t: Double,
}

/// The side of the start on which a position lies more than one period away, if it does.
pub open spec fn passage(x: Double, target_right_x: Double, target_left_x: Double) -> Option<i32> {
    if target_right_x.below(x) {
        Some(PASS_DIRECTION_RIGHT)
    } else if x.below(target_left_x) {
        Some(PASS_DIRECTION_LEFT)
    } else {
        None
    }
}

impl VisualSimulation {
    /// Whether a trace is one of a step from this state. Both moves start from the pose before the
    /// step; the second takes transport and forces at the reflected prediction.
    pub open spec fn step_trace<K: Arithmetic>(self, k: &K, trace: StepTrace) -> bool {
        &&& normals_drawn(k, self.rng, trace.rng, trace.normals)
        &&& moved_to(
            k,
            self.rod(),
            self.wall_y@,
            self.pose(),
            trace.normals,
            trace.prediction,
        )
        &&& reflection_outcome(k, trace.prediction, self.x, trace.predicted)
        &&& moved_to(
            k,
            self.rod(),
            self.wall_y@,
            trace.predicted.pose(),
            trace.normals,
            trace.correction,
        )
        &&& reflection_outcome(k, trace.correction, self.x, trace.corrected)
        &&& elapsed_gives(k, (self.steps + 1) as u64, self.physics.delta_t, trace.t)
    }

    /// The state after a step to `pose`: the step is counted, the first passage is recorded unless
    /// one was before, and the run is complete with its last step.
    pub open spec fn landed(self, pose: Pose, t: Double, rng: SplitMixRng) -> VisualSimulation {
        let passed = passage(pose.x, self.target_right_x, self.target_left_x);
        VisualSimulation {
            x: pose.x,
            y: pose.y,
            phi: pose.phi,
            t,
            rng,
            steps: (self.steps + 1) as u64,
            first_passed: self.first_passed || passed is Some,
            pass_direction: if !self.first_passed && passed is Some {
                passed->0
            } else {
                self.pass_direction
            },
            completed: self.completed || self.steps + 1 >= self.physics.max_steps,
            ..self
        }
    }

    /// Whether a step leads from this state to `after`. At the last step the state is only marked
    /// as complete.
    pub open spec fn stepped<K: Arithmetic>(self, k: &K, after: VisualSimulation) -> bool {
        if self.steps >= self.physics.max_steps {
            after == (VisualSimulation { completed: true, ..self })
        } else {
            exists|trace: StepTrace| #[trigger]
                self.step_trace(k, trace) && after == self.landed(
                    trace.corrected.pose(),
                    trace.t,
                    trace.rng,
                )
        }
    }

    /// Records the first passage of the current position, if it is one.
    pub fn record_first_passage(&mut self)
        ensures
            *final(self) == (match passage(
                old(self).x,
                old(self).target_right_x,
                old(self).target_left_x,
            ) {
                Some(direction) => VisualSimulation {
                    first_passed: true,
                    pass_direction: direction,
                    ..*old(self)
                },
                None => *old(self),
            }),
    {
        if self.target_right_x.lt(self.x) {
            self.first_passed = true;
            self.pass_direction = PASS_DIRECTION_RIGHT;
        } else if self.x.lt(self.target_left_x) {
            self.first_passed = true;
            self.pass_direction = PASS_DIRECTION_LEFT;
        }
    }

    /// Puts the rod into the pose that a step led to.
    pub fn land(&mut self, pose: Pose, t: Double)
        requires
            old(self).steps < old(self).physics.max_steps,
        ensures
            *final(self) == old(self).landed(pose, t, old(self).rng),
    {
        self.x = pose.x;
        self.y = pose.y;
        self.phi = pose.phi;
        self.steps = self.steps + 1;
        self.t = t;
        if !self.first_passed {
            self.record_first_passage();
        }
        if self.steps >= self.physics.max_steps {
            self.completed = true;
        }
    }

    fn move_from<K: Arithmetic>(&self, k: &K, at: Pose, normals: Normals) -> (next: Pose)
        requires
            self.well_formed(),
        ensures
            moved_to(k, self.rod(), self.wall_y@, at, normals, next),
    {
        reveal(moved_to);
        let force = self.generalized_force_at(k, at.x, at.y, at.phi);
        assert(force_outcome(k, self.params, self.physics, self.wall_y@, at, force));
        let rod = Rod {
            params: self.params,
            physics: self.physics,
            diffusion: self.diffusion,
            noise_scale: self.noise_scale,
            pose: Pose { x: self.x, y: self.y, phi: self.phi },
        };
        let next = moved(k, rod, at.phi, force, normals);
        assert(rod == self.rod());
        assert(force_outcome(
            k,
            self.rod().params,
            self.rod().physics,
            self.wall_y@,
            at,
            force,
        ));
        next
    }

    /// Advances the rod by one time step, by prediction and correction.
    pub fn step<K: Arithmetic>(&mut self, k: &K)
        requires
            old(self).well_formed(),
        ensures
            old(self).stepped(k, *final(self)),
            final(self).well_formed(),
    {
        if self.steps >= self.physics.max_steps {
            self.completed = true;
            return ;
        }
        let ghost before = *self;
        let tx = self.rng.normal(k);
        let ghost first = self.rng;
        let ty = self.rng.normal(k);
        let ghost second = self.rng;
        let r = self.rng.normal(k);
        let normals = Normals { tx, ty, r };
        assert(normals_drawn(k, before.rng, self.rng, normals)) by {
            reveal(normals_drawn);
            assert(before.rng.normal_drawn(k, first, normals.tx));
            assert(first.normal_drawn(k, second, normals.ty));
        }

        let anchor_x = self.x;
        let start = Pose { x: self.x, y: self.y, phi: self.phi };
        assert(self.rod() == before.rod());
        let prediction = self.move_from(k, start, normals);
        let predicted = reflect_state_into_channel(
            k,
            prediction.x,
            prediction.y,
            prediction.phi,
            anchor_x,
        );
        let at = Pose { x: predicted.x, y: predicted.y, phi: predicted.phi };
        let correction = self.move_from(k, at, normals);
        let corrected = reflect_state_into_channel(
            k,
            correction.x,
            correction.y,
            correction.phi,
            anchor_x,
        );
        let t = elapsed(k, self.steps + 1, self.physics.delta_t);
        let ghost trace = StepTrace {
            rng: self.rng,
            normals,
            prediction,
            predicted,
            correction,
            corrected,
            t,
        };
        assert(before.step_trace(k, trace));
        self.land(Pose { x: corrected.x, y: corrected.y, phi: corrected.phi }, t);
        assert(*self == before.landed(trace.corrected.pose(), trace.t, trace.rng));
    }
}

// ---- Start ----

/// Where a rod starts: along the channel and at an angle at random, and at a random height where
/// the rod fits between the walls; where it does not fit, in the middle, and no number is drawn.
pub open spec fn placed<K: Arithmetic>(
    k: &K,
    seed: u64,
    l: Double,
    pose: Pose,
    drawn: nat,
) -> bool {
    exists|u: Double, range: (Double, Double)|
        {
            &&& #[trigger] uniform_drawn(k, seed, 1, u)
            &&& initial_x_gives(k, u, pose.x)
            &&& #[trigger] initial_y_range_gives(k, pose.x, l, range)
            &&& if range.0.below(range.1) {
                placed_in_range(k, seed, range, pose) && drawn == 3
            } else {
                placed_in_middle(k, seed, pose) && drawn == 2
            }
        }
}

/// Whether the second and the third number of a seed give the height, in a range, and the angle.
pub open spec fn placed_in_range<K: Arithmetic>(
    k: &K,
    seed: u64,
    range: (Double, Double),
    pose: Pose,
) -> bool {
    exists|u: Double, v: Double|
        {
            &&& #[trigger] uniform_drawn(k, seed, 2, u)
            &&& initial_y_gives(k, range.0, range.1, u, pose.y)
            &&& #[trigger] uniform_drawn(k, seed, 3, v)
            &&& initial_phi_gives(k, v, pose.phi)
        }
}

/// Whether the height is 0 and the second number of a seed gives the angle.
pub open spec fn placed_in_middle<K: Arithmetic>(k: &K, seed: u64, pose: Pose) -> bool {
    &&& pose.y == Double::zero()
    &&& exists|u: Double| #[trigger]
        uniform_drawn(k, seed, 2, u) && initial_phi_gives(k, u, pose.phi)
}

/// The pose in which a rod starts, and the generator after the numbers drawn for it.
pub fn start_pose<K: Arithmetic>(k: &K, seed: u64, l: Double) -> (r: (Pose, SplitMixRng))
    ensures
        exists|drawn: nat| #[trigger]
            placed(k, seed, l, r.0, drawn) && r.1.state == state_after(seed, drawn),
        r.1.cached_normal is None,
{
    let mut rng = SplitMixRng::new(seed);
    proof {
        reveal_with_fuel(state_after, 4);
    }
    let u_x = rng.uniform_open01(k);
    assert(uniform_drawn(k, seed, 1, u_x));
    let x = initial_x(k, u_x);
    let range = initial_y_range(k, x, l);
    let ghost mut drawn: nat = 2;
    let y = if range.0.lt(range.1) {
        proof {
            drawn = 3;
        }
        let u_y = rng.uniform_open01(k);
        assert(uniform_drawn(k, seed, 2, u_y));
        initial_y(k, range.0, range.1, u_y)
    } else {
        Double::zero()
    };
    let u_phi = rng.uniform_open01(k);
    assert(uniform_drawn(k, seed, drawn, u_phi));
    let phi = initial_phi(k, u_phi);
    let pose = Pose { x, y, phi };
    proof {
        if range.0.below(range.1) {
            assert(placed_in_range(k, seed, range, pose));
        } else {
            assert(placed_in_middle(k, seed, pose));
        }
        assert(initial_y_range_gives(k, pose.x, l, range));
        assert(rng.state == state_after(seed, drawn));
    }
    let r = (pose, rng);
    assert(placed(k, seed, l, r.0, drawn));
    r
}

impl VisualSimulation {
    /// Whether this is the state that the parameters start from.
    pub open spec fn started<K: Arithmetic>(
        self,
        k: &K,
        params: VisualParams,
        physics: Physics,
    ) -> bool {
        &&& self.params == params
        &&& self.physics == physics
        &&& self.start_given(k)
        &&& self.x == self.x0
        &&& self.y == self.y0
        &&& self.phi == self.phi0
        &&& self.t == Double::zero()
        &&& self.steps == 0
        &&& !self.first_passed
        &&& self.pass_direction == PASS_DIRECTION_NONE
        &&& !self.completed
        &&& self.rng.cached_normal is None
    }

    /// Whether an implementation gave the start, the targets, the coefficients and the wall of
    /// this state.
    pub open spec fn start_given<K: Arithmetic>(self, k: &K) -> bool {
        &&& exists|l: Double, drawn: nat|
            {
                &&& #[trigger] particle_length_gives(
                    k,
                    self.physics.particle_dx,
                    self.params.m,
                    l,
                )
                &&& diffusion_for_length_gives(
                    k,
                    l,
                    self.physics.diffusion_reference_length,
                    self.diffusion,
                )
                &&& #[trigger] placed(
                    k,
                    self.params.seed,
                    l,
                    Pose { x: self.x0, y: self.y0, phi: self.phi0 },
                    drawn,
                )
                &&& self.rng.state == state_after(self.params.seed, drawn)
            }
        &&& noise_scale_gives(k, self.diffusion, self.physics.delta_t, self.noise_scale)
        &&& targets_gives(k, self.x0, (self.target_right_x, self.target_left_x))
        &&& self.wall_y.len() == self.physics.n_wall
        &&& forall|i: int|
            0 <= i < self.wall_y.len() ==> wall_sample_gives(
                k,
                i as usize,
                self.physics.wall_dx,
                #[trigger] self.wall_y@[i],
            )
    }

    /// The start of a rod; it depends on the parameters and their seed alone.
    pub fn new<K: Arithmetic>(k: &K, params: VisualParams, physics: Physics) -> (sim: VisualSimulation)
        ensures
            sim.started(k, params, physics),
            0 < physics.n_wall <= i64::MAX && params.m > i32::MIN ==> sim.well_formed(),
    {
        let l = particle_length(k, physics.particle_dx, params.m);
        let (start, rng) = start_pose(k, params.seed, l);
        let ghost drawn = choose|drawn: nat| #[trigger]
            placed(k, params.seed, l, start, drawn) && rng.state == state_after(
                params.seed,
                drawn,
            );
        let diffusion = diffusion_for_length(k, l, physics.diffusion_reference_length);
        let noise_scale = noise_scale(k, diffusion, physics.delta_t);
        let targets = targets(k, start.x);
        let wall_y = wall_y_samples(k, physics.n_wall, physics.wall_dx);
        assert(particle_length_gives(k, physics.particle_dx, params.m, l));
        let sim = VisualSimulation {
            params,
            physics,
            diffusion,
            noise_scale,
            x0: start.x,
            y0: start.y,
            phi0: start.phi,
            x: start.x,
            y: start.y,
            phi: start.phi,
            target_right_x: targets.0,
            target_left_x: targets.1,
            t: Double::zero(),
            steps: 0,
            first_passed: false,
            pass_direction: PASS_DIRECTION_NONE,
            completed: false,
            rng,
            wall_y,
        };
        assert(sim.start_given(k)) by {
            assert(Pose { x: sim.x0, y: sim.y0, phi: sim.phi0 } == start);
            assert(placed(
                k,
                sim.params.seed,
                l,
                Pose { x: sim.x0, y: sim.y0, phi: sim.phi0 },
                drawn,
            ));
            assert(particle_length_gives(k, sim.physics.particle_dx, sim.params.m, l));
        }
        sim
    }

    /// Starts over with the given parameters, the random numbers included.
    pub fn reset<K: Arithmetic>(&mut self, k: &K, params: VisualParams)
        ensures
            final(self).started(k, params, old(self).physics),
            0 < old(self).physics.n_wall <= i64::MAX && params.m > i32::MIN
                ==> final(self).well_formed(),
    {
        *self = VisualSimulation::new(k, params, self.physics);
    }

    /// This state with other parameters of the forces; everything else stays.
    pub open spec fn with_forces(self, f: Double, gamma: Double, delta: Double) -> VisualSimulation {
        VisualSimulation { params: VisualParams { f, gamma, delta, ..self.params }, ..self }
    }

    /// Replaces the parameters that only the forces depend on; everything else stays.
    pub fn apply_force_params(&mut self, f: Double, gamma: Double, delta: Double)
        ensures
            *final(self) == old(self).with_forces(f, gamma, delta),
    {
        self.params.f = f;
        self.params.gamma = gamma;
        self.params.delta = delta;
    }

    /// The two ends of the rod.
    pub fn rod_endpoints<K: Arithmetic>(&self, k: &K) -> (ends: (RodPoint, RodPoint))
        ensures
            rod_end_gives(k, self.pose(), self.params.m, self.physics.particle_dx, false, ends.0),
            rod_end_gives(k, self.pose(), self.params.m, self.physics.particle_dx, true, ends.1),
    {
        let pose = Pose { x: self.x, y: self.y, phi: self.phi };
        let first = rod_end(k, pose, self.params.m, self.physics.particle_dx, false);
        let last = rod_end(k, pose, self.params.m, self.physics.particle_dx, true);
        (first, last)
    }
}

// ---- Many steps ----

/// The states of a run, each a step after the one before.
pub open spec fn walk<K: Arithmetic>(k: &K, states: Seq<VisualSimulation>) -> bool {
    &&& states.len() >= 1
    &&& forall|i: int| 0 <= i < states.len() - 1 ==> #[trigger] step_between(k, states, i)
}

/// Whether a step leads from state `i` of a run to the next.
pub open spec fn step_between<K: Arithmetic>(k: &K, states: Seq<VisualSimulation>, i: int) -> bool {
    states[i].stepped(k, states[i + 1])
}

impl VisualSimulation {
    /// How many of `step_count` steps are made: none once complete, and none beyond the last.
    pub open spec fn steps_made(self, step_count: int) -> int {
        if self.completed || self.steps >= self.physics.max_steps {
            0
        } else if step_count < self.physics.max_steps - self.steps {
            step_count
        } else {
            self.physics.max_steps - self.steps
        }
    }

    /// What no step changes: the parameters, the constants, the start, the targets and the wall.
    pub open spec fn same_rod(self, other: VisualSimulation) -> bool {
        &&& self.params == other.params
        &&& self.physics == other.physics
        &&& self.diffusion == other.diffusion
        &&& self.noise_scale == other.noise_scale
        &&& self.x0 == other.x0
        &&& self.y0 == other.y0
        &&& self.phi0 == other.phi0
        &&& self.target_right_x == other.target_right_x
        &&& self.target_left_x == other.target_left_x
        &&& self.wall_y == other.wall_y
    }

    /// Whether `step_count` steps lead from this state to `after`: a complete rod stays, one that has
    /// made its last step is marked as complete, and any other walks.
    pub open spec fn stepped_many<K: Arithmetic>(
        self,
        k: &K,
        step_count: int,
        after: VisualSimulation,
    ) -> bool {
        &&& after.same_rod(self)
        &&& after.steps == self.steps + self.steps_made(step_count)
        &&& after.completed == (self.completed || after.steps >= self.physics.max_steps)
        &&& self.completed ==> after == self
        &&& !self.completed && self.steps >= self.physics.max_steps ==> after == (
        VisualSimulation { completed: true, ..self })
        &&& !self.completed && self.steps < self.physics.max_steps
            ==> exists|states: Seq<VisualSimulation>|
            {
                &&& #[trigger] walk(k, states)
                &&& states[0] == self
                &&& states.last() == after
                &&& states.len() == self.steps_made(step_count) + 1
            }
    }

    /// Advances the rod by the given number of steps, but not beyond the last one.
    pub fn step_many<K: Arithmetic>(&mut self, k: &K, step_count: usize)
        requires
            old(self).well_formed(),
        ensures
            final(self).well_formed(),
            old(self).stepped_many(k, step_count as int, *final(self)),
    {
        if self.completed {
            return ;
        }
        if self.steps >= self.physics.max_steps {
            self.completed = true;
            return ;
        }
        let ghost before = *self;
        let ghost mut states: Seq<VisualSimulation> = seq![*self];
        let mut count: usize = 0;
        while count < step_count && !self.completed
            invariant
                count <= step_count,
                self.well_formed(),
                !before.completed,
                before.steps < before.physics.max_steps,
                self.same_rod(before),
                walk(k, states),
                states[0] == before,
                states.last() == *self,
                states.len() == count + 1,
                self.steps == before.steps + count,
                self.completed == (self.steps >= before.physics.max_steps),
                self.steps <= before.physics.max_steps,
            decreases step_count - count,
        {
            let ghost earlier = *self;
            self.step(k);
            proof {
                let longer = states.push(*self);
                assert forall|i: int| 0 <= i < longer.len() - 1 implies #[trigger] step_between(
                    k,
                    longer,
                    i,
                ) by {
                    if i < states.len() - 1 {
                        assert(step_between(k, states, i));
                    }
                }
                states = longer;
            }
            count = count + 1;
        }
        assert(walk(k, states));
    }
}

} // verus!
