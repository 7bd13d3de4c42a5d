//! A rod for display only: one step after the other, without reflections, until it has passed one
//! period to the right.

use vstd::prelude::*;
use crate::channel::{wall_index, wall_sample_gives, wall_y_samples, Pose};
use crate::config::{particle_length, particle_length_gives, Physics, WALL_K};
use crate::double::Double;
use crate::formula::{
    cos_of, gives, int_of, lit, nat_of, num, over, plus, sin_of, times, Arithmetic, Calc,
    Expr, ONE,
};
use crate::model::{diffusion_for_length, diffusion_for_length_gives, Diffusion};
use crate::rng::{state_after, SplitMixRng};
use crate::simulation::{
    add_point_force, add_point_force_gives, elapsed_gives, lab_transport, lab_transport_gives,
    nearest_wall, nearest_wall_gives, noise_scale, noise_scale_gives, placed, rod_point,
    rod_point_gives, start_pose, wall_offset, wall_offset_gives, wca_coefficient,
    wca_coefficient_value, GeneralizedForce, LabTransport, NoiseScale, Normals, RodPoint, WallForce,
    WallOffset,
};

verus! {

/// The parameters of a displayed rod.
#[derive(Clone, Copy, Debug)]
pub struct VisualParams {
    pub seed: u64,
    pub m: i32,
    pub force: Double,
    pub beta_pe: Double,
    pub delta_alpha_e_over_p: Double,
}

impl PartialEq for VisualParams {
    fn eq(&self, other: &VisualParams) -> (b: bool) {
        self.seed == other.seed && self.m == other.m && self.force.num_eq(other.force)
            && self.beta_pe.num_eq(other.beta_pe) && self.delta_alpha_e_over_p.num_eq(
            other.delta_alpha_e_over_p,
        )
    }
}

impl vstd::std_specs::cmp::PartialEqSpecImpl for VisualParams {
    open spec fn obeys_eq_spec() -> bool {
        true
    }

    open spec fn eq_spec(&self, other: &VisualParams) -> bool {
        self.seed == other.seed && self.m == other.m && self.force.same_number(other.force)
            && self.beta_pe.same_number(other.beta_pe) && self.delta_alpha_e_over_p.same_number(
            other.delta_alpha_e_over_p,
        )
    }
}

/// The bits of 10.
pub const TEN: u64 = 0x4024_0000_0000_0000;

/// The bits of the sixth root of 2.
pub const SIXTH_ROOT_OF_TWO: u64 = 0x3ff1_f59a_c3c7_d6c0;

/// The bits of the largest coefficient of the repulsion, 2500000.
pub const MAX_VISUAL_WCA_COEFF: u64 = 0x4143_12d0_0000_0000;

impl Default for VisualParams {
    fn default() -> (params: VisualParams)
        ensures
            params == (VisualParams {
                seed: 1,
                m: 8,
                force: Double { bits: TEN },
                beta_pe: Double { bits: ONE },
                delta_alpha_e_over_p: Double { bits: ONE },
            }),
    {
        VisualParams {
            seed: 1,
            m: 8,
            force: Double::from_bits(TEN),
            beta_pe: Double::from_bits(ONE),
            delta_alpha_e_over_p: Double::from_bits(ONE),
        }
    }
}

/// The parameters of a rod with its length.
#[derive(Clone, Copy, Debug)]
pub struct SimParams {
    pub combo_id: u32,
    pub m: i32,
    pub l: Double,
    pub beta_pe: Double,
    pub delta_alpha_e_over_p: Double,
    pub force: Double,
}

impl VisualParams {
    /// The parameters with the length of the rod.
    pub fn sim_params<K: Arithmetic>(self, k: &K, particle_dx: Double) -> (params: SimParams)
        ensures
            particle_length_gives(k, particle_dx, self.m, params.l),
            params == (SimParams {
                combo_id: 0,
                m: self.m,
                l: params.l,
                beta_pe: self.beta_pe,
                delta_alpha_e_over_p: self.delta_alpha_e_over_p,
                force: self.force,
            }),
    {
        SimParams {
            combo_id: 0,
            m: self.m,
            l: particle_length(k, particle_dx, self.m),
            beta_pe: self.beta_pe,
            delta_alpha_e_over_p: self.delta_alpha_e_over_p,
            force: self.force,
        }
    }

    /// How many representative points the rod has.
    pub fn point_count(self) -> (count: i32)
        requires
            i32::MIN <= 2 * self.m,
            2 * self.m + 1 <= i32::MAX,
        ensures
            count == 2 * self.m + 1,
    {
        2 * self.m + 1
    }
}

/// The state of a displayed rod.
#[derive(Clone, Debug)]
pub struct VisualSimulation {
    pub params: VisualParams,
    pub physics: Physics,
    pub diffusion: Diffusion,
    pub x0: Double,
    pub y0: Double,
    pub phi0: Double,
    pub x: Double,
    pub y: Double,
    pub phi: Double,
    pub target_x: Double,
    pub t: Double,
    pub steps: u64,
    pub completed: bool,
    pub rng: SplitMixRng,
    pub wall_y: Vec<Double>,
}

// ---- Forces ----

/// The square of the distance at which the repulsion ends.
pub open spec fn cutoff_of(sigma: Double) -> Expr {
    let rc = times(lit(SIXTH_ROOT_OF_TWO), num(sigma));
    times(rc, rc)
}

/// Whether a repulsion acts at a distance: above 0 and below the cutoff.
pub open spec fn in_reach(offset: WallOffset, cutoff: Double) -> bool {
    Double::zero().below(offset.r2) && offset.r2.below(cutoff)
}

/// A coefficient held to the largest one, on both sides.
pub open spec fn held_coefficient(coefficient: Double) -> Double {
    let most = Double { bits: MAX_VISUAL_WCA_COEFF };
    coefficient.clamped(most.negated(), most)
}

/// Whether `after` is the force with the repulsion of one wall point added.
pub open spec fn add_repulsion_gives<K: Arithmetic>(
    k: &K,
    physics: Physics,
    force: WallForce,
    point: RodPoint,
    wall_point: i64,
    wall_y: Double,
    after: WallForce,
) -> bool {
    exists|offset: WallOffset, cutoff: Double|
        {
            &&& #[trigger] wall_offset_gives(
                k,
                physics.wall_dx,
                point,
                wall_point,
                wall_y,
                offset,
            )
            &&& #[trigger] gives(k, cutoff_of(physics.sigma), cutoff)
            &&& if in_reach(offset, cutoff) {
                held_repulsion_added(k, physics, force, offset, after)
            } else {
                after == force
            }
        }
}

/// Whether `after` is the force with the held repulsion at an offset added.
pub open spec fn held_repulsion_added<K: Arithmetic>(
    k: &K,
    physics: Physics,
    force: WallForce,
    offset: WallOffset,
    after: WallForce,
) -> bool {
    exists|coefficient: Double|
        {
            let held = num(held_coefficient(coefficient));
            &&& #[trigger] gives(
                k,
                wca_coefficient(physics.sigma, physics.epsilon, offset.r2),
                coefficient,
            )
            &&& gives(k, plus(num(force.force_x), times(held, num(offset.dx))), after.force_x)
            &&& gives(k, plus(num(force.force_y), times(held, num(offset.dy))), after.force_y)
        }
}

/// The force with the repulsion of one wall point added.
pub fn add_repulsion<K: Arithmetic>(
    k: &K,
    physics: Physics,
    force: WallForce,
    point: RodPoint,
    wall_point: i64,
    wall_y: Double,
) -> (after: WallForce)
    ensures
        add_repulsion_gives(k, physics, force, point, wall_point, wall_y, after),
{
    let c = Calc::new(k);
    let offset = wall_offset(k, physics.wall_dx, point, wall_point, wall_y);
    let rc = c.times(c.lit(SIXTH_ROOT_OF_TWO), c.num(physics.sigma));
    let cutoff = c.times(rc, rc).value;
    assert(gives(k, cutoff_of(physics.sigma), cutoff));
    if !(Double::zero().lt(offset.r2) && offset.r2.lt(cutoff)) {
        return force;
    }
    let coefficient = wca_coefficient_value(k, physics.sigma, physics.epsilon, offset.r2);
    let most = Double::from_bits(MAX_VISUAL_WCA_COEFF);
    let held = c.num(coefficient.clamp(most.neg(), most));
    let after = WallForce {
        force_x: c.plus(c.num(force.force_x), c.times(held, c.num(offset.dx))).value,
        force_y: c.plus(c.num(force.force_y), c.times(held, c.num(offset.dy))).value,
    };
    assert(held_repulsion_added(k, physics, force, offset, after));
    after
}

/// Whether the forces of both walls at a wall point lead from `before` to `after`.
pub open spec fn walls_added<K: Arithmetic>(
    k: &K,
    physics: Physics,
    wall_y: Seq<Double>,
    point: RodPoint,
    wall_point: i64,
    before: WallForce,
    after: WallForce,
) -> bool {
    let height = wall_y[wall_point as int % wall_y.len() as int];
    exists|upper: WallForce|
        {
            &&& #[trigger] add_repulsion_gives(
                k,
                physics,
                before,
                point,
                wall_point,
                height,
                upper,
            )
            &&& add_repulsion_gives(k, physics, upper, point, wall_point, height.negated(), after)
        }
}

/// Whether step `i` of a sum over wall points is right.
pub open spec fn wall_step<K: Arithmetic>(
    k: &K,
    physics: Physics,
    wall_y: Seq<Double>,
    point: RodPoint,
    nearest: i64,
    sums: Seq<WallForce>,
    i: int,
) -> bool {
    walls_added(
        k,
        physics,
        wall_y,
        point,
        nearest.wrapping_add((i - WALL_K) as i64),
        sums[i],
        sums[i + 1],
    )
}

/// The sum over the wall points around a point, in order, each with its upper and its lower wall.
pub open spec fn walls_summed<K: Arithmetic>(
    k: &K,
    physics: Physics,
    wall_y: Seq<Double>,
    point: RodPoint,
    nearest: i64,
    sums: Seq<WallForce>,
) -> bool {
    &&& sums.len() >= 1
    &&& sums[0] == WallForce { force_x: Double::zero(), force_y: Double::zero() }
    &&& forall|i: int|
        0 <= i < sums.len() - 1 ==> #[trigger] wall_step(k, physics, wall_y, point, nearest, sums, i)
}

/// Whether `force` is the force of the walls on a point.
pub open spec fn walls_outcome<K: Arithmetic>(
    k: &K,
    physics: Physics,
    wall_y: Seq<Double>,
    point: RodPoint,
    force: WallForce,
) -> bool {
    exists|nearest: i64, sums: Seq<WallForce>|
        {
            &&& #[trigger] nearest_wall_gives(k, point.x, physics.wall_dx, nearest)
            &&& #[trigger] walls_summed(k, physics, wall_y, point, nearest, sums)
            &&& sums.len() == 2 * WALL_K + 2
            &&& force == sums.last()
        }
}

/// Whether the force on point `j` leads from one sum to the next.
pub open spec fn rod_point_added<K: Arithmetic>(
    k: &K,
    physics: Physics,
    wall_y: Seq<Double>,
    pose: Pose,
    j: i32,
    before: GeneralizedForce,
    after: GeneralizedForce,
) -> bool {
    exists|point: RodPoint, force: WallForce|
        {
            &&& #[trigger] rod_point_gives(k, pose, physics.particle_dx, j, point)
            &&& #[trigger] walls_outcome(k, physics, wall_y, point, force)
            &&& add_point_force_gives(
                k,
                before,
                pose,
                physics.particle_dx,
                j,
                force,
                after,
            )
        }
}

/// Whether step `i` of a sum over representative points is right.
pub open spec fn rod_step<K: Arithmetic>(
    k: &K,
    physics: Physics,
    wall_y: Seq<Double>,
    pose: Pose,
    m: int,
    sums: Seq<GeneralizedForce>,
    i: int,
) -> bool {
    rod_point_added(k, physics, wall_y, pose, (i - m) as i32, sums[i], sums[i + 1])
}

/// The sum over the representative points of a rod, from one end to the other.
pub open spec fn rod_summed<K: Arithmetic>(
    k: &K,
    physics: Physics,
    wall_y: Seq<Double>,
    pose: Pose,
    m: int,
    sums: Seq<GeneralizedForce>,
) -> bool {
    &&& sums.len() >= 1
    &&& sums[0] == GeneralizedForce {
        force_x: Double::zero(),
        force_y: Double::zero(),
        torque: Double::zero(),
    }
    &&& forall|i: int|
        0 <= i < sums.len() - 1 ==> #[trigger] rod_step(k, physics, wall_y, pose, m, sums, i)
}

/// The share of a sum of forces that acts on the rod: its mean over the representative points.
pub open spec fn shared_force(m: i32, sum: Double) -> Expr {
    times(num(sum), over(lit(ONE), int_of((2 * m + 1) as i64)))
}

/// The torque of the field: beta p E cos phi (1 + delta sin phi).
pub open spec fn display_torque(params: VisualParams, phi: Double) -> Expr {
    times(
        times(num(params.beta_pe), cos_of(num(phi))),
        plus(lit(ONE), times(num(params.delta_alpha_e_over_p), sin_of(num(phi)))),
    )
}

/// Whether `next` is the pose of a rod after one time step with the repulsion of the walls and
/// noise.
pub open spec fn advanced_pose_gives<K: Arithmetic>(
    k: &K,
    params: VisualParams,
    physics: Physics,
    diffusion: Diffusion,
    pose: Pose,
    sum: GeneralizedForce,
    normals: Normals,
    next: Pose,
) -> bool {
    exists|noise: NoiseScale, transport: LabTransport|
        {
            &&& #[trigger] noise_scale_gives(k, diffusion, physics.delta_t, noise)
            &&& #[trigger] lab_transport_gives(
                k,
                diffusion.d_parallel,
                noise,
                pose.phi,
                normals,
                transport,
            )
            &&& displaced(k, params, physics, diffusion, pose, sum, normals, noise, transport, next)
        }
}

/// Whether drift and noise lead from a pose to `next`, for the transport of the rod.
pub open spec fn displaced<K: Arithmetic>(
    k: &K,
    params: VisualParams,
    physics: Physics,
    diffusion: Diffusion,
    pose: Pose,
    sum: GeneralizedForce,
    normals: Normals,
    noise: NoiseScale,
    transport: LabTransport,
    next: Pose,
) -> bool {
    let dt = num(physics.delta_t);
    let x = plus(num(params.force), shared_force(params.m, sum.force_x));
    let y = shared_force(params.m, sum.force_y);
    let drift_x = times(plus(times(num(transport.dxx), x), times(num(transport.dxy), y)), dt);
    let drift_y = times(plus(times(num(transport.dxy), x), times(num(transport.dyy), y)), dt);
    let torque = plus(num(sum.torque), display_torque(params, pose.phi));
    let turn = times(times(num(diffusion.d_r), torque), dt);
    &&& gives(k, plus(num(pose.x), plus(drift_x, num(transport.noise_x))), next.x)
    &&& gives(k, plus(num(pose.y), plus(drift_y, num(transport.noise_y))), next.y)
    &&& gives(
        k,
        plus(num(pose.phi), plus(turn, times(num(noise.rot), num(normals.r)))),
        next.phi,
    )
}

fn advanced_pose<K: Arithmetic>(
    k: &K,
    params: VisualParams,
    physics: Physics,
    diffusion: Diffusion,
    pose: Pose,
    sum: GeneralizedForce,
    normals: Normals,
) -> (next: Pose)
    ensures
        advanced_pose_gives(k, params, physics, diffusion, pose, sum, normals, next),
{
    let c = Calc::new(k);
    let noise = noise_scale(k, diffusion, physics.delta_t);
    let transport = lab_transport(k, diffusion.d_parallel, noise, pose.phi, normals);
    let dt = c.num(physics.delta_t);
    let share = c.over(c.lit(ONE), c.int_of(2 * (params.m as i64) + 1));
    let x = c.plus(c.num(params.force), c.times(c.num(sum.force_x), share));
    let y = c.times(c.num(sum.force_y), share);
    let dxy = c.num(transport.dxy);
    let drift_x = c.times(c.plus(c.times(c.num(transport.dxx), x), c.times(dxy, y)), dt);
    let drift_y = c.times(c.plus(c.times(dxy, x), c.times(c.num(transport.dyy), y)), dt);
    let phi = c.num(pose.phi);
    let lead = c.times(c.num(params.beta_pe), c.cos_of(phi));
    let bend = c.plus(c.lit(ONE), c.times(c.num(params.delta_alpha_e_over_p), c.sin_of(phi)));
    let torque = c.plus(c.num(sum.torque), c.times(lead, bend));
    let turn = c.times(c.times(c.num(diffusion.d_r), torque), dt);
    let noise_phi = c.times(c.num(noise.rot), c.num(normals.r));
    let next = Pose {
        x: c.plus(c.num(pose.x), c.plus(drift_x, c.num(transport.noise_x))).value,
        y: c.plus(c.num(pose.y), c.plus(drift_y, c.num(transport.noise_y))).value,
        phi: c.plus(phi, c.plus(turn, noise_phi)).value,
    };
    assert(displaced(k, params, physics, diffusion, pose, sum, normals, noise, transport, next));
    next
}

/// What happens in one step: the numbers drawn, the sum of the forces, the new pose and the time.
pub struct DisplayTrace {
    pub first: SplitMixRng,
    pub second: SplitMixRng,
    pub third: SplitMixRng,
    pub normals: Normals,
    pub sums: Seq<GeneralizedForce>,
    pub pose: Pose,
    pub t: Double,
}

impl VisualSimulation {
    /// The state can be stepped: the wall has samples, and the points of the rod can be counted.
    pub open spec fn well_formed(self) -> bool {
        &&& 0 < self.wall_y.len() <= i64::MAX
        &&& self.params.m > i32::MIN
    }

    /// Whether the state can be stepped.
    pub fn can_step(&self) -> (b: bool)
        ensures
            b == self.well_formed(),
    {
        0 < self.wall_y.len() && self.wall_y.len() as u64 <= 0x7fff_ffff_ffff_ffff && self.params.m
            > i32::MIN
    }

    /// The pose of the rod.
    pub open spec fn pose(self) -> Pose {
        Pose { x: self.x, y: self.y, phi: self.phi }
    }

    /// Whether the start, the target, the coefficients and the wall of this state follow from its
    /// parameters.
    pub open spec fn start_given<K: Arithmetic>(self, k: &K) -> bool {
        &&& exists|l: Double, drawn: nat|
            {
                &&& #[trigger] particle_length_gives(
                    k,
                    self.physics.particle_dx,
                    self.params.m,
                    l,
                )
                &&& diffusion_for_length_gives(
                    k,
                    l,
                    self.physics.diffusion_reference_length,
                    self.diffusion,
                )
                &&& #[trigger] placed(
                    k,
                    self.params.seed,
                    l,
                    Pose { x: self.x0, y: self.y0, phi: self.phi0 },
                    drawn,
                )
                &&& self.rng.state == state_after(self.params.seed, drawn)
            }
        &&& gives(k, plus(num(self.x0), lit(ONE)), self.target_x)
        &&& self.wall_y.len() == self.physics.n_wall
        &&& forall|i: int|
            0 <= i < self.wall_y.len() ==> wall_sample_gives(
                k,
                i as usize,
                self.physics.wall_dx,
                #[trigger] self.wall_y@[i],
            )
    }

    /// Whether this is the state that the parameters start from.
    pub open spec fn started<K: Arithmetic>(
        self,
        k: &K,
        params: VisualParams,
        physics: Physics,
    ) -> bool {
        &&& self.params == params
        &&& self.physics == physics
        &&& self.start_given(k)
        &&& self.x == self.x0
        &&& self.y == self.y0
        &&& self.phi == self.phi0
        &&& self.t == Double::zero()
        &&& self.steps == 0
        &&& !self.completed
        &&& self.rng.cached_normal is None
    }

    /// The start of a rod; it depends on the parameters and their seed alone.
    pub fn new<K: Arithmetic>(k: &K, params: VisualParams, physics: Physics) -> (sim:
        VisualSimulation)
        ensures
            sim.started(k, params, physics),
            0 < physics.n_wall <= i64::MAX && params.m > i32::MIN ==> sim.well_formed(),
    {
        let c = Calc::new(k);
        let l = params.sim_params(k, physics.particle_dx).l;
        let (start, rng) = start_pose(k, params.seed, l);
        let ghost drawn = choose|drawn: nat| #[trigger]
            placed(k, params.seed, l, start, drawn) && rng.state == state_after(
                params.seed,
                drawn,
            );
        let diffusion = diffusion_for_length(k, l, physics.diffusion_reference_length);
        let target_x = c.plus(c.num(start.x), c.lit(ONE)).value;
        let wall_y = wall_y_samples(k, physics.n_wall, physics.wall_dx);
        let sim = VisualSimulation {
            params,
            physics,
            diffusion,
            x0: start.x,
            y0: start.y,
            phi0: start.phi,
            x: start.x,
            y: start.y,
            phi: start.phi,
            target_x,
            t: Double::zero(),
            steps: 0,
            completed: false,
            rng,
            wall_y,
        };
        assert(sim.start_given(k)) by {
            assert(Pose { x: sim.x0, y: sim.y0, phi: sim.phi0 } == start);
            assert(placed(
                k,
                sim.params.seed,
                l,
                Pose { x: sim.x0, y: sim.y0, phi: sim.phi0 },
                drawn,
            ));
            assert(particle_length_gives(k, sim.physics.particle_dx, sim.params.m, l));
        }
        sim
    }

    /// Starts over with the given parameters.
    pub fn reset<K: Arithmetic>(&mut self, k: &K, params: VisualParams)
        ensures
            final(self).started(k, params, old(self).physics),
            0 < old(self).physics.n_wall <= i64::MAX && params.m > i32::MIN
                ==> final(self).well_formed(),
    {
        *self = VisualSimulation::new(k, params, self.physics);
    }

    /// The representative points of the rod, from one end to the other.
    pub fn representative_points<K: Arithmetic>(&self, k: &K) -> (points: Vec<RodPoint>)
        requires
            self.params.m > i32::MIN,
        ensures
            points@.len() == if self.params.m >= 0 {
                2 * self.params.m + 1
            } else {
                0
            },
            forall|i: int|
                0 <= i < points@.len() ==> rod_point_gives(
                    k,
                    self.pose(),
                    self.physics.particle_dx,
                    (i - self.params.m) as i32,
                    #[trigger] points@[i],
                ),
    {
        let pose = Pose { x: self.x, y: self.y, phi: self.phi };
        let m: i32 = self.params.m;
        let mut points: Vec<RodPoint> = Vec::new();
        let mut i: i64 = -(m as i64);
        while i <= m as i64
            invariant
                m == self.params.m,
                pose == self.pose(),
                m > i32::MIN,
                -m <= i,
                m >= 0 ==> i <= m + 1,
                points@.len() == if m >= 0 {
                    i + m
                } else {
                    0
                },
                forall|j: int|
                    0 <= j < points@.len() ==> rod_point_gives(
                        k,
                        pose,
                        self.physics.particle_dx,
                        (j - m) as i32,
                        #[trigger] points@[j],
                    ),
            decreases m + 1 - i,
        {
            let point = rod_point(k, pose, self.physics.particle_dx, i as i32);
            points.push(point);
            i = i + 1;
        }
        points
    }

    /// The force of the walls on a point.
    pub fn wall_force<K: Arithmetic>(&self, k: &K, point: RodPoint) -> (force: WallForce)
        requires
            self.well_formed(),
        ensures
            walls_outcome(k, self.physics, self.wall_y@, point, force),
    {
        let nearest: i64 = nearest_wall(k, point.x, self.physics.wall_dx);
        assert(nearest_wall_gives(k, point.x, self.physics.wall_dx, nearest));
        let mut force = WallForce { force_x: Double::zero(), force_y: Double::zero() };
        let ghost mut sums: Seq<WallForce> = seq![force];
        let mut q: i32 = -WALL_K;
        while q <= WALL_K
            invariant
                self.well_formed(),
                -WALL_K <= q <= WALL_K + 1,
                nearest_wall_gives(k, point.x, self.physics.wall_dx, nearest),
                walls_summed(k, self.physics, self.wall_y@, point, nearest, sums),
                sums.len() == q + WALL_K + 1,
                force == sums.last(),
            decreases WALL_K + 1 - q,
        {
            let ghost before = sums;
            let wall_point: i64 = nearest.wrapping_add(q as i64);
            let height = self.wall_y[wall_index(wall_point, self.wall_y.len())];
            let upper = add_repulsion(k, self.physics, force, point, wall_point, height);
            assert(add_repulsion_gives(
                k,
                self.physics,
                force,
                point,
                wall_point,
                height,
                upper,
            ));
            let lower = add_repulsion(k, self.physics, upper, point, wall_point, height.neg());
            proof {
                assert(walls_added(
                    k,
                    self.physics,
                    self.wall_y@,
                    point,
                    wall_point,
                    force,
                    lower,
                ));
                sums = before.push(lower);
                assert forall|i: int| 0 <= i < sums.len() - 1 implies #[trigger] wall_step(
                    k,
                    self.physics,
                    self.wall_y@,
                    point,
                    nearest,
                    sums,
                    i,
                ) by {
                    if i < before.len() - 1 {
                        assert(wall_step(k, self.physics, self.wall_y@, point, nearest, before, i));
                    }
                }
            }
            force = lower;
            q = q + 1;
        }
        force
    }

    /// Whether a trace is one of a step from this state.
    pub open spec fn step_trace<K: Arithmetic>(self, k: &K, trace: DisplayTrace) -> bool {
        &&& rod_summed(k, self.physics, self.wall_y@, self.pose(), self.params.m as int, trace.sums)
        &&& trace.sums.len() == if self.params.m >= 0 {
            2 * self.params.m + 2
        } else {
            1
        }
        &&& self.rng.normal_drawn(k, trace.first, trace.normals.tx)
        &&& trace.first.normal_drawn(k, trace.second, trace.normals.ty)
        &&& trace.second.normal_drawn(k, trace.third, trace.normals.r)
        &&& advanced_pose_gives(
            k,
            self.params,
            self.physics,
            self.diffusion,
            self.pose(),
            trace.sums.last(),
            trace.normals,
            trace.pose,
        )
        &&& elapsed_gives(k, (self.steps + 1) as u64, self.physics.delta_t, trace.t)
    }

    /// The state after a step: it is counted, and the rod is done once it has passed its target.
    pub open spec fn landed(self, trace: DisplayTrace) -> VisualSimulation {
        VisualSimulation {
            x: trace.pose.x,
            y: trace.pose.y,
            phi: trace.pose.phi,
            t: trace.t,
            steps: (self.steps + 1) as u64,
            completed: self.completed || self.target_x.below(trace.pose.x),
            rng: trace.third,
            ..self
        }
    }

    /// Whether a step leads from this state to `after`.
    pub open spec fn stepped<K: Arithmetic>(self, k: &K, after: VisualSimulation) -> bool {
        exists|trace: DisplayTrace| #[trigger]
            self.step_trace(k, trace) && after == self.landed(trace)
    }

    /// Advances the rod by one time step.
    pub fn step<K: Arithmetic>(&mut self, k: &K)
        requires
            old(self).well_formed(),
            old(self).steps < u64::MAX,
        ensures
            old(self).stepped(k, *final(self)),
            final(self).well_formed(),
            final(self).steps == old(self).steps + 1,
    {
        let ghost before = *self;
        let pose = Pose { x: self.x, y: self.y, phi: self.phi };
        let m: i32 = self.params.m;
        let mut sum = GeneralizedForce {
            force_x: Double::zero(),
            force_y: Double::zero(),
            torque: Double::zero(),
        };
        let ghost mut sums: Seq<GeneralizedForce> = seq![sum];
        let mut j: i64 = -(m as i64);
        while j <= m as i64
            invariant
                *self == before,
                self.well_formed(),
                m == self.params.m,
                pose == self.pose(),
                -m <= j,
                m >= 0 ==> j <= m + 1,
                rod_summed(k, self.physics, self.wall_y@, pose, m as int, sums),
                sums.len() == if m >= 0 {
                    j + m + 1
                } else {
                    1
                },
                sum == sums.last(),
            decreases m + 1 - j,
        {
            let ghost earlier = sums;
            let dx = self.physics.particle_dx;
            let point = rod_point(k, pose, dx, j as i32);
            assert(rod_point_gives(k, pose, dx, j as i32, point));
            let force = self.wall_force(k, point);
            let next = add_point_force(k, sum, pose, dx, j as i32, force);
            proof {
                assert(rod_point_added(
                    k,
                    self.physics,
                    self.wall_y@,
                    pose,
                    j as i32,
                    sum,
                    next,
                ));
                sums = earlier.push(next);
                assert forall|i: int| 0 <= i < sums.len() - 1 implies #[trigger] rod_step(
                    k,
                    self.physics,
                    self.wall_y@,
                    pose,
                    m as int,
                    sums,
                    i,
                ) by {
                    if i < earlier.len() - 1 {
                        assert(rod_step(k, self.physics, self.wall_y@, pose, m as int, earlier, i));
                    }
                }
            }
            sum = next;
            j = j + 1;
        }
        let tx = self.rng.normal(k);
        let ghost first = self.rng;
        let ty = self.rng.normal(k);
        let ghost second = self.rng;
        let r = self.rng.normal(k);
        let normals = Normals { tx, ty, r };
        let next = advanced_pose(
            k,
            self.params,
            self.physics,
            self.diffusion,
            pose,
            sum,
            normals,
        );
        let steps: u64 = self.steps + 1;
        let c = Calc::new(k);
        let t = c.times(c.nat_of(steps), c.num(self.physics.delta_t)).value;
        let ghost trace = DisplayTrace {
            first,
            second,
            third: self.rng,
            normals,
            sums,
            pose: next,
            t,
        };
        assert(before.step_trace(k, trace));
        self.x = next.x;
        self.y = next.y;
        self.phi = next.phi;
        self.steps = steps;
        self.t = t;
        if self.target_x.lt(self.x) {
            self.completed = true;
        }
        assert(*self == before.landed(trace));
    }

    /// Advances the rod by the given number of steps, but not after it has passed its target.
    pub fn step_many<K: Arithmetic>(&mut self, k: &K, step_count: usize)
        requires
            old(self).well_formed(),
            old(self).steps + step_count <= u64::MAX,
        ensures
            final(self).well_formed(),
            exists|states: Seq<VisualSimulation>|
                {
                    &&& #[trigger] display_walk(k, states)
                    &&& states[0] == *old(self)
                    &&& states.last() == *final(self)
                    &&& states.len() <= step_count + 1
                    &&& final(self).completed || states.len() == step_count + 1
                    &&& final(self).steps == old(self).steps + states.len() - 1
                },
    {
        let ghost before = *self;
        let ghost mut states: Seq<VisualSimulation> = seq![*self];
        let mut count: usize = 0;
        assert(display_walk(k, states));
        while count < step_count && !self.completed
            invariant
                count <= step_count,
                self.well_formed(),
                before.steps + step_count <= u64::MAX,
                self.steps == before.steps + count,
                display_walk(k, states),
                states[0] == before,
                states.last() == *self,
                states.len() == count + 1,
            decreases step_count - count,
        {
            let ghost earlier = states;
            self.step(k);
            proof {
                states = earlier.push(*self);
                assert forall|i: int| 0 <= i < states.len() - 1 implies #[trigger] display_step(
                    k,
                    states,
                    i,
                ) by {
                    if i < earlier.len() - 1 {
                        assert(display_step(k, earlier, i));
                    }
                }
            }
            count = count + 1;
        }
    }
}

/// Whether a step leads from state `i` of a run to the next, and the rod was not done before.
pub open spec fn display_step<K: Arithmetic>(
    k: &K,
    states: Seq<VisualSimulation>,
    i: int,
) -> bool {
    !states[i].completed && states[i].stepped(k, states[i + 1])
}

/// The states of a run, each a step after the one before, up to the first in which the rod is done.
pub open spec fn display_walk<K: Arithmetic>(k: &K, states: Seq<VisualSimulation>) -> bool {
    &&& states.len() >= 1
    &&& forall|i: int| 0 <= i < states.len() - 1 ==> #[trigger] display_step(k, states, i)
}

/// A rod that is done has passed its target, and a rod that is not has not, whatever it did on its
/// way.
pub proof fn law_done_is_passed<K: Arithmetic>(k: &K, states: Seq<VisualSimulation>, n: int)
    requires
        display_walk(k, states),
        0 < n < states.len(),
    ensures
        states[n].completed == states[0].target_x.below(states[n].x),
        states[n].target_x == states[0].target_x,
        states[n].steps == (states[n - 1].steps + 1) as u64,
    decreases n,
{
    assert(display_step(k, states, n - 1));
    if n > 1 {
        law_done_is_passed(k, states, n - 1);
    }
}

} // verus!
