//! Runs repeat: where the arithmetic gives one result for one input, a seed determines a trial, and
//! a case determines its results.

use vstd::prelude::*;
use crate::case_run::{
    added_between, collected, finished, in_id_order, numbered, summary_of_trials, trial_seed_of,
    CaseAccumulator, CpuCaseResult,
};
use crate::cases::{dir_name_text, seed_of, written};
use crate::channel::{
    channel_section_bounds_gives, foot_corrected, foot_search, foot_settled, inside,
    mirror_at_foot_gives, mirrored, omega_gives, reflected_once, reflection_outcome,
    reflection_path, wall_sample_gives, BoundaryCorrectedState, Pose, Wall,
};
use crate::config::{particle_length_gives, Case, Mode, Physics, L_PERIOD, WALL_K};
use crate::double::Double;
use crate::formula::{
    binary_gives, gives, law_steady_is_single_valued, lit, minus, nat_of, num, over, single_valued,
    steady, times, Arithmetic, BinaryOp, TWO,
};
use crate::fraction::{fraction_outcome, ratio_outcome, FractionError};
use crate::histogram::{raw_bins_gives, summed, vote_due, Histograms};
use crate::model::{
    diffusion_for_length_gives, displacement_means_gives, displacements_gives,
    first_passage_summary, fixed_time_summary, mobility_outcome, moments_gives, DisplacementMeans,
    FixedTimeRow, Summary, SummaryRow, TrialResult,
};
use crate::rng::SplitMixRng;
use crate::simulation::{
    add_external_force_gives, add_point_force_gives, add_wca_force_gives, force_outcome,
    moved_gives, moved_to, nearest_wall_gives, normals_drawn, placed, point_added, rod_point_gives,
    rod_sum, step_between, wall_force_outcome, wall_sum, GeneralizedForce, Normals, Rod, RodPoint,
    StepTrace, VisualParams, VisualSimulation, WallForce,
};
use crate::text::trimmed;
use crate::trial::{
    params_of, result_of, trial_run, trial_states, trial_votes, vote_between, vote_taken,
};

verus! {

/// Whether the operations give one result for one input, and every formula has at most one value.
spec fn settled<K: Arithmetic>(k: &K) -> bool {
    steady(k) && single_valued(k)
}

// ---- The channel ----

proof fn lemma_foot_prefix<K: Arithmetic>(
    k: &K,
    pose: Pose,
    wall: Wall,
    anchor_x: Double,
    low: Double,
    high: Double,
    a: Seq<Double>,
    b: Seq<Double>,
    n: int,
)
    requires
        settled(k),
        foot_search(k, pose, wall, anchor_x, low, high, a),
        foot_search(k, pose, wall, anchor_x, low, high, b),
        0 <= n < a.len(),
        n < b.len(),
    ensures
        a[n] == b[n],
    decreases n,
{
    if n > 0 {
        lemma_foot_prefix(k, pose, wall, anchor_x, low, high, a, b, n - 1);
        assert(foot_corrected(k, pose, wall, low, high, a[n - 1], a[n - 1 + 1]));
        assert(foot_corrected(k, pose, wall, low, high, b[n - 1], b[n - 1 + 1]));
    }
}

proof fn lemma_foot_len<K: Arithmetic>(
    k: &K,
    pose: Pose,
    wall: Wall,
    anchor_x: Double,
    low: Double,
    high: Double,
    a: Seq<Double>,
    b: Seq<Double>,
)
    requires
        settled(k),
        foot_search(k, pose, wall, anchor_x, low, high, a),
        foot_search(k, pose, wall, anchor_x, low, high, b),
    ensures
        a.len() >= b.len(),
{
    if a.len() < b.len() {
        let n = a.len() - 1;
        lemma_foot_prefix(k, pose, wall, anchor_x, low, high, a, b, n);
        assert(foot_settled(k, pose, wall, a.last()));
        assert(foot_corrected(k, pose, wall, low, high, b[n], b[n + 1]));
        assert(false);
    }
}

proof fn lemma_foot<K: Arithmetic>(
    k: &K,
    pose: Pose,
    wall: Wall,
    anchor_x: Double,
    low: Double,
    high: Double,
    a: Seq<Double>,
    b: Seq<Double>,
)
    requires
        settled(k),
        foot_search(k, pose, wall, anchor_x, low, high, a),
        foot_search(k, pose, wall, anchor_x, low, high, b),
    ensures
        a.last() == b.last(),
{
    lemma_foot_len(k, pose, wall, anchor_x, low, high, a, b);
    lemma_foot_len(k, pose, wall, anchor_x, low, high, b, a);
    lemma_foot_prefix(k, pose, wall, anchor_x, low, high, a, b, a.len() - 1);
}

proof fn lemma_mirrored<K: Arithmetic>(
    k: &K,
    pose: Pose,
    wall: Wall,
    anchor_x: Double,
    a: Pose,
    b: Pose,
)
    requires
        settled(k),
        mirrored(k, pose, wall, anchor_x, a),
        mirrored(k, pose, wall, anchor_x, b),
    ensures
        a == b,
{
    let (section_a, steps_a): ((Double, Double), Seq<Double>) = choose|
        section: (Double, Double),
        steps: Seq<Double>,
    |
        {
            &&& #[trigger] channel_section_bounds_gives(k, anchor_x, section)
            &&& #[trigger] foot_search(k, pose, wall, anchor_x, section.0, section.1, steps)
            &&& mirror_at_foot_gives(k, pose, wall, steps.last(), a)
        };
    let (section_b, steps_b): ((Double, Double), Seq<Double>) = choose|
        section: (Double, Double),
        steps: Seq<Double>,
    |
        {
            &&& #[trigger] channel_section_bounds_gives(k, anchor_x, section)
            &&& #[trigger] foot_search(k, pose, wall, anchor_x, section.0, section.1, steps)
            &&& mirror_at_foot_gives(k, pose, wall, steps.last(), b)
        };
    assert(section_a == section_b);
    lemma_foot(k, pose, wall, anchor_x, section_a.0, section_a.1, steps_a, steps_b);
}

proof fn lemma_reflected_once<K: Arithmetic>(
    k: &K,
    anchor_x: Double,
    pose: Pose,
    a: Pose,
    b: Pose,
)
    requires
        settled(k),
        reflected_once(k, anchor_x, pose, a),
        reflected_once(k, anchor_x, pose, b),
    ensures
        a == b,
        !inside(k, pose),
{
    let width = choose|width: Double| #[trigger] omega_gives(k, pose.x, width);
    if let Some(wall) = crate::channel::wall_crossed(pose.y, width) {
        assert(mirrored(k, pose, wall, anchor_x, a));
        assert(mirrored(k, pose, wall, anchor_x, b));
        lemma_mirrored(k, pose, wall, anchor_x, a, b);
    }
}

proof fn lemma_path_prefix<K: Arithmetic>(
    k: &K,
    anchor_x: Double,
    a: Seq<Pose>,
    b: Seq<Pose>,
    n: int,
)
    requires
        settled(k),
        reflection_path(k, anchor_x, a),
        reflection_path(k, anchor_x, b),
        a[0] == b[0],
        0 <= n < a.len(),
        n < b.len(),
    ensures
        a[n] == b[n],
    decreases n,
{
    if n > 0 {
        lemma_path_prefix(k, anchor_x, a, b, n - 1);
        assert(reflected_once(k, anchor_x, a[n - 1], a[n - 1 + 1]));
        assert(reflected_once(k, anchor_x, b[n - 1], b[n - 1 + 1]));
        lemma_reflected_once(k, anchor_x, a[n - 1], a[n], b[n]);
    }
}

proof fn lemma_path_len<K: Arithmetic>(k: &K, anchor_x: Double, a: Seq<Pose>, b: Seq<Pose>)
    requires
        settled(k),
        reflection_path(k, anchor_x, a),
        reflection_path(k, anchor_x, b),
        a[0] == b[0],
    ensures
        a.len() >= b.len(),
{
    if a.len() < b.len() {
        let n = a.len() - 1;
        lemma_path_prefix(k, anchor_x, a, b, n);
        assert(inside(k, a.last()));
        assert(reflected_once(k, anchor_x, b[n], b[n + 1]));
        lemma_reflected_once(k, anchor_x, b[n], b[n + 1], b[n + 1]);
        assert(false);
    }
}

/// A pose is brought into the channel in one way.
pub proof fn law_reflection_repeats<K: Arithmetic>(
    k: &K,
    start: Pose,
    anchor_x: Double,
    a: BoundaryCorrectedState,
    b: BoundaryCorrectedState,
)
    requires
        steady(k),
        reflection_outcome(k, start, anchor_x, a),
        reflection_outcome(k, start, anchor_x, b),
    ensures
        a == b,
{
    law_steady_is_single_valued(k);
    reveal(reflection_outcome);
    let path_a = choose|path: Seq<Pose>|
        {
            &&& #[trigger] reflection_path(k, anchor_x, path)
            &&& path[0] == start
            &&& path.last() == a.pose()
            &&& a.reflected == (path.len() > 1)
        };
    let path_b = choose|path: Seq<Pose>|
        {
            &&& #[trigger] reflection_path(k, anchor_x, path)
            &&& path[0] == start
            &&& path.last() == b.pose()
            &&& b.reflected == (path.len() > 1)
        };
    lemma_path_len(k, anchor_x, path_a, path_b);
    lemma_path_len(k, anchor_x, path_b, path_a);
    lemma_path_prefix(k, anchor_x, path_a, path_b, path_a.len() - 1);
    assert(a.pose() == b.pose());
}

// ---- Forces ----

proof fn lemma_wall_sum<K: Arithmetic>(
    k: &K,
    physics: Physics,
    wall_y: Seq<Double>,
    point: RodPoint,
    nearest: i64,
    a: Seq<WallForce>,
    b: Seq<WallForce>,
    len: int,
    n: int,
)
    requires
        settled(k),
        wall_sum(k, physics, wall_y, point, nearest, a, len),
        wall_sum(k, physics, wall_y, point, nearest, b, len),
        0 <= n <= len,
    ensures
        a[2 * n] == b[2 * n],
    decreases n,
{
    if n > 0 {
        let i = n - 1;
        lemma_wall_sum(k, physics, wall_y, point, nearest, a, b, len, i);
        let wall_point = nearest.wrapping_add((i - WALL_K) as i64);
        let height = wall_y[wall_point as int % wall_y.len() as int];
        assert(add_wca_force_gives(k, a[2 * i], physics, point, wall_point, height, a[2 * i + 1]));
        assert(add_wca_force_gives(k, b[2 * i], physics, point, wall_point, height, b[2 * i + 1]));
        assert(a[2 * i + 1] == b[2 * i + 1]);
        assert(add_wca_force_gives(
            k,
            a[2 * i + 1],
            physics,
            point,
            wall_point,
            height.negated(),
            a[2 * i + 2],
        ));
        assert(add_wca_force_gives(
            k,
            b[2 * i + 1],
            physics,
            point,
            wall_point,
            height.negated(),
            b[2 * i + 2],
        ));
    }
}

pub(crate) proof fn lemma_wall_force<K: Arithmetic>(
    k: &K,
    physics: Physics,
    wall_y: Seq<Double>,
    point: RodPoint,
    a: WallForce,
    b: WallForce,
)
    requires
        steady(k),
        single_valued(k),
        wall_force_outcome(k, physics, wall_y, point, a),
        wall_force_outcome(k, physics, wall_y, point, b),
    ensures
        a == b,
{
    let (nearest_a, sums_a): (i64, Seq<WallForce>) = choose|nearest: i64, sums: Seq<WallForce>|
        {
            &&& #[trigger] nearest_wall_gives(k, point.x, physics.wall_dx, nearest)
            &&& #[trigger] wall_sum(k, physics, wall_y, point, nearest, sums, 2 * WALL_K + 1)
            &&& a == sums.last()
        };
    let (nearest_b, sums_b): (i64, Seq<WallForce>) = choose|nearest: i64, sums: Seq<WallForce>|
        {
            &&& #[trigger] nearest_wall_gives(k, point.x, physics.wall_dx, nearest)
            &&& #[trigger] wall_sum(k, physics, wall_y, point, nearest, sums, 2 * WALL_K + 1)
            &&& b == sums.last()
        };
    assert(nearest_a == nearest_b);
    let len = 2 * WALL_K + 1;
    lemma_wall_sum(k, physics, wall_y, point, nearest_a, sums_a, sums_b, len, len);
    assert(sums_a.last() == sums_a[2 * len]);
    assert(sums_b.last() == sums_b[2 * len]);
}

proof fn lemma_point_added<K: Arithmetic>(
    k: &K,
    physics: Physics,
    wall_y: Seq<Double>,
    j: i32,
    pose: Pose,
    sum: GeneralizedForce,
    a: GeneralizedForce,
    b: GeneralizedForce,
)
    requires
        settled(k),
        point_added(k, physics, wall_y, j, pose, sum, a),
        point_added(k, physics, wall_y, j, pose, sum, b),
    ensures
        a == b,
{
    let (point_a, force_a): (RodPoint, WallForce) = choose|point: RodPoint, force: WallForce|
        {
            &&& #[trigger] rod_point_gives(k, pose, physics.particle_dx, j, point)
            &&& #[trigger] wall_force_outcome(k, physics, wall_y, point, force)
            &&& add_point_force_gives(k, sum, pose, physics.particle_dx, j, force, a)
        };
    let (point_b, force_b): (RodPoint, WallForce) = choose|point: RodPoint, force: WallForce|
        {
            &&& #[trigger] rod_point_gives(k, pose, physics.particle_dx, j, point)
            &&& #[trigger] wall_force_outcome(k, physics, wall_y, point, force)
            &&& add_point_force_gives(k, sum, pose, physics.particle_dx, j, force, b)
        };
    assert(point_a == point_b);
    lemma_wall_force(k, physics, wall_y, point_a, force_a, force_b);
}

proof fn lemma_rod_sum<K: Arithmetic>(
    k: &K,
    physics: Physics,
    wall_y: Seq<Double>,
    m: int,
    pose: Pose,
    a: Seq<GeneralizedForce>,
    b: Seq<GeneralizedForce>,
    n: int,
)
    requires
        settled(k),
        rod_sum(k, physics, wall_y, m, pose, a),
        rod_sum(k, physics, wall_y, m, pose, b),
        0 <= n < a.len(),
        n < b.len(),
    ensures
        a[n] == b[n],
    decreases n,
{
    if n > 0 {
        let i = n - 1;
        lemma_rod_sum(k, physics, wall_y, m, pose, a, b, i);
        assert(point_added(k, physics, wall_y, (i - m) as i32, pose, a[i], a[i + 1]));
        assert(point_added(k, physics, wall_y, (i - m) as i32, pose, b[i], b[i + 1]));
        lemma_point_added(k, physics, wall_y, (i - m) as i32, pose, a[i], a[n], b[n]);
    }
}

/// A rod in a pose feels one force.
pub proof fn law_force_repeats<K: Arithmetic>(
    k: &K,
    params: VisualParams,
    physics: Physics,
    wall_y: Seq<Double>,
    pose: Pose,
    a: GeneralizedForce,
    b: GeneralizedForce,
)
    requires
        steady(k),
        force_outcome(k, params, physics, wall_y, pose, a),
        force_outcome(k, params, physics, wall_y, pose, b),
    ensures
        a == b,
{
    law_steady_is_single_valued(k);
    let m = params.m as int;
    let len = if params.m >= 0 {
        2 * params.m + 2
    } else {
        1
    };
    let sums_a = choose|sums: Seq<GeneralizedForce>|
        {
            &&& #[trigger] rod_sum(k, physics, wall_y, m, pose, sums)
            &&& sums.len() == len
            &&& add_external_force_gives(k, sums.last(), params, pose, a)
        };
    let sums_b = choose|sums: Seq<GeneralizedForce>|
        {
            &&& #[trigger] rod_sum(k, physics, wall_y, m, pose, sums)
            &&& sums.len() == len
            &&& add_external_force_gives(k, sums.last(), params, pose, b)
        };
    lemma_rod_sum(k, physics, wall_y, m, pose, sums_a, sums_b, len - 1);
}

proof fn lemma_moved<K: Arithmetic>(
    k: &K,
    rod: Rod,
    wall_y: Seq<Double>,
    at: Pose,
    normals: Normals,
    a: Pose,
    b: Pose,
)
    requires
        settled(k),
        moved_to(k, rod, wall_y, at, normals, a),
        moved_to(k, rod, wall_y, at, normals, b),
    ensures
        a == b,
{
    reveal(moved_to);
    let force_a = choose|force: GeneralizedForce|
        {
            &&& #[trigger] force_outcome(k, rod.params, rod.physics, wall_y, at, force)
            &&& moved_gives(k, rod, at.phi, force, normals, a)
        };
    let force_b = choose|force: GeneralizedForce|
        {
            &&& #[trigger] force_outcome(k, rod.params, rod.physics, wall_y, at, force)
            &&& moved_gives(k, rod, at.phi, force, normals, b)
        };
    law_force_repeats(k, rod.params, rod.physics, wall_y, at, force_a, force_b);
}

// ---- Steps ----

proof fn lemma_normal<K: Arithmetic>(
    k: &K,
    before: SplitMixRng,
    a: SplitMixRng,
    b: SplitMixRng,
    x: Double,
    y: Double,
)
    requires
        settled(k),
        before.normal_drawn(k, a, x),
        before.normal_drawn(k, b, y),
    ensures
        a == b,
        x == y,
{
}

proof fn lemma_normals<K: Arithmetic>(
    k: &K,
    before: SplitMixRng,
    a: SplitMixRng,
    b: SplitMixRng,
    x: Normals,
    y: Normals,
)
    requires
        settled(k),
        normals_drawn(k, before, a, x),
        normals_drawn(k, before, b, y),
    ensures
        a == b,
        x == y,
{
    reveal(normals_drawn);
    let (first_a, second_a): (SplitMixRng, SplitMixRng) = choose|
        first: SplitMixRng,
        second: SplitMixRng,
    |
        {
            &&& #[trigger] before.normal_drawn(k, first, x.tx)
            &&& #[trigger] first.normal_drawn(k, second, x.ty)
            &&& second.normal_drawn(k, a, x.r)
        };
    let (first_b, second_b): (SplitMixRng, SplitMixRng) = choose|
        first: SplitMixRng,
        second: SplitMixRng,
    |
        {
            &&& #[trigger] before.normal_drawn(k, first, y.tx)
            &&& #[trigger] first.normal_drawn(k, second, y.ty)
            &&& second.normal_drawn(k, b, y.r)
        };
    lemma_normal(k, before, first_a, first_b, x.tx, y.tx);
    lemma_normal(k, first_a, second_a, second_b, x.ty, y.ty);
    lemma_normal(k, second_a, a, b, x.r, y.r);
}

/// Whether two states are the same, with the same wall.
pub open spec fn same_state(a: VisualSimulation, b: VisualSimulation) -> bool {
    &&& a.params == b.params
    &&& a.physics == b.physics
    &&& a.diffusion == b.diffusion
    &&& a.noise_scale == b.noise_scale
    &&& a.x0 == b.x0
    &&& a.y0 == b.y0
    &&& a.phi0 == b.phi0
    &&& a.x == b.x
    &&& a.y == b.y
    &&& a.phi == b.phi
    &&& a.target_right_x == b.target_right_x
    &&& a.target_left_x == b.target_left_x
    &&& a.t == b.t
    &&& a.steps == b.steps
    &&& a.first_passed == b.first_passed
    &&& a.pass_direction == b.pass_direction
    &&& a.completed == b.completed
    &&& a.rng == b.rng
    &&& a.wall_y@ == b.wall_y@
}

proof fn lemma_trace<K: Arithmetic>(
    k: &K,
    a: VisualSimulation,
    b: VisualSimulation,
    x: StepTrace,
    y: StepTrace,
)
    requires
        settled(k),
        same_state(a, b),
        a.step_trace(k, x),
        b.step_trace(k, y),
    ensures
        x == y,
{
    assert(a.rod() == b.rod());
    assert(a.pose() == b.pose());
    lemma_normals(k, a.rng, x.rng, y.rng, x.normals, y.normals);
    lemma_moved(k, a.rod(), a.wall_y@, a.pose(), x.normals, x.prediction, y.prediction);
    law_reflection_repeats(k, x.prediction, a.x, x.predicted, y.predicted);
    lemma_moved(
        k,
        a.rod(),
        a.wall_y@,
        x.predicted.pose(),
        x.normals,
        x.correction,
        y.correction,
    );
    law_reflection_repeats(k, x.correction, a.x, x.corrected, y.corrected);
    assert(x.t == y.t);
}

/// A state has one next state.
pub proof fn law_step_repeats<K: Arithmetic>(
    k: &K,
    a: VisualSimulation,
    b: VisualSimulation,
    after_a: VisualSimulation,
    after_b: VisualSimulation,
)
    requires
        steady(k),
        same_state(a, b),
        a.stepped(k, after_a),
        b.stepped(k, after_b),
    ensures
        same_state(after_a, after_b),
{
    law_steady_is_single_valued(k);
    if a.steps < a.physics.max_steps {
        let x = choose|trace: StepTrace| #[trigger]
            a.step_trace(k, trace) && after_a == a.landed(
                trace.corrected.pose(),
                trace.t,
                trace.rng,
            );
        let y = choose|trace: StepTrace| #[trigger]
            b.step_trace(k, trace) && after_b == b.landed(
                trace.corrected.pose(),
                trace.t,
                trace.rng,
            );
        lemma_trace(k, a, b, x, y);
    }
}

// ---- Start ----

proof fn lemma_placed<K: Arithmetic>(
    k: &K,
    seed: u64,
    l: Double,
    a: Pose,
    b: Pose,
    drawn_a: nat,
    drawn_b: nat,
)
    requires
        settled(k),
        placed(k, seed, l, a, drawn_a),
        placed(k, seed, l, b, drawn_b),
    ensures
        a == b,
        drawn_a == drawn_b,
{
}

/// Parameters have one start.
pub proof fn law_start_repeats<K: Arithmetic>(
    k: &K,
    params: VisualParams,
    physics: Physics,
    a: VisualSimulation,
    b: VisualSimulation,
)
    requires
        steady(k),
        a.started(k, params, physics),
        b.started(k, params, physics),
    ensures
        same_state(a, b),
{
    law_steady_is_single_valued(k);
    let start_a = Pose { x: a.x0, y: a.y0, phi: a.phi0 };
    let start_b = Pose { x: b.x0, y: b.y0, phi: b.phi0 };
    let (l_a, drawn_a): (Double, nat) = choose|l: Double, drawn: nat|
        {
            &&& #[trigger] particle_length_gives(k, a.physics.particle_dx, a.params.m, l)
            &&& diffusion_for_length_gives(
                k,
                l,
                a.physics.diffusion_reference_length,
                a.diffusion,
            )
            &&& #[trigger] placed(
                k,
                a.params.seed,
                l,
                Pose { x: a.x0, y: a.y0, phi: a.phi0 },
                drawn,
            )
            &&& a.rng.state == crate::rng::state_after(a.params.seed, drawn)
        };
    let (l_b, drawn_b): (Double, nat) = choose|l: Double, drawn: nat|
        {
            &&& #[trigger] particle_length_gives(k, b.physics.particle_dx, b.params.m, l)
            &&& diffusion_for_length_gives(
                k,
                l,
                b.physics.diffusion_reference_length,
                b.diffusion,
            )
            &&& #[trigger] placed(
                k,
                b.params.seed,
                l,
                Pose { x: b.x0, y: b.y0, phi: b.phi0 },
                drawn,
            )
            &&& b.rng.state == crate::rng::state_after(b.params.seed, drawn)
        };
    assert(l_a == l_b);
    lemma_placed(k, params.seed, l_a, start_a, start_b, drawn_a, drawn_b);
    assert(a.x0 == start_a.x && a.y0 == start_a.y && a.phi0 == start_a.phi);
    assert(a.wall_y@ =~= b.wall_y@) by {
        assert forall|i: int| 0 <= i < a.wall_y@.len() implies a.wall_y@[i] == b.wall_y@[i] by {
            assert(wall_sample_gives(k, i as usize, physics.wall_dx, a.wall_y@[i]));
            assert(wall_sample_gives(k, i as usize, physics.wall_dx, b.wall_y@[i]));
        }
    }
    assert((a.target_right_x, a.target_left_x) == (b.target_right_x, b.target_left_x));
}

// ---- Trials ----

/// Whether two pairs of histograms have grown by the same counts.
pub open spec fn same_growth(
    before_a: Histograms,
    after_a: Histograms,
    before_b: Histograms,
    after_b: Histograms,
) -> bool {
    &&& forall|i: int|
        0 <= i < after_a.phi@.len() ==> (#[trigger] after_a.phi@[i]).wrapping_sub(before_a.phi@[i])
            == after_b.phi@[i].wrapping_sub(before_b.phi@[i])
    &&& forall|i: int|
        0 <= i < after_a.y@.len() ==> (#[trigger] after_a.y@[i]).wrapping_sub(before_a.y@[i])
            == after_b.y@[i].wrapping_sub(before_b.y@[i])
    &&& after_a.votes.wrapping_sub(before_a.votes) == after_b.votes.wrapping_sub(before_b.votes)
}

proof fn lemma_vote<K: Arithmetic>(
    k: &K,
    stride: u32,
    x: VisualSimulation,
    y: VisualSimulation,
    a: Histograms,
    b: Histograms,
    after_a: Histograms,
    after_b: Histograms,
)
    requires
        settled(k),
        same_state(x, y),
        a.well_formed(),
        b.well_formed(),
        vote_taken(k, stride, x, a, after_a),
        vote_taken(k, stride, y, b, after_b),
    ensures
        after_a.well_formed(),
        after_b.well_formed(),
        same_growth(a, after_a, b, after_b),
{
    assert(x.pose() == y.pose());
    if vote_due(x.steps, stride) {
        let bins = choose|bins: (u64, u64, u64)|
            #[trigger] raw_bins_gives(k, x.pose(), bins) && a.counted(bins, after_a);
        assert(b.counted(bins, after_b));
    }
}

proof fn lemma_trial_prefix<K: Arithmetic>(
    k: &K,
    params: VisualParams,
    physics: Physics,
    stride: u32,
    states_a: Seq<VisualSimulation>,
    states_b: Seq<VisualSimulation>,
    votes_a: Seq<Histograms>,
    votes_b: Seq<Histograms>,
    n: int,
)
    requires
        settled(k),
        trial_states(k, params, physics, states_a),
        trial_states(k, params, physics, states_b),
        trial_votes(k, stride, states_a, votes_a),
        trial_votes(k, stride, states_b, votes_b),
        votes_a[0].well_formed(),
        votes_b[0].well_formed(),
        0 <= n < states_a.len(),
        n < states_b.len(),
    ensures
        same_state(states_a[n], states_b[n]),
        votes_a[n].well_formed(),
        votes_b[n].well_formed(),
        same_growth(votes_a[0], votes_a[n], votes_b[0], votes_b[n]),
    decreases n,
{
    if n == 0 {
        law_start_repeats(k, params, physics, states_a[0], states_b[0]);
    } else {
        let i = n - 1;
        lemma_trial_prefix(
            k,
            params,
            physics,
            stride,
            states_a,
            states_b,
            votes_a,
            votes_b,
            i,
        );
        assert(step_between(k, states_a, i));
        assert(step_between(k, states_b, i));
        law_step_repeats(k, states_a[i], states_b[i], states_a[i + 1], states_b[i + 1]);
        assert(vote_between(k, stride, states_a, votes_a, i));
        assert(vote_between(k, stride, states_b, votes_b, i));
        lemma_vote(
            k,
            stride,
            states_a[i + 1],
            states_b[i + 1],
            votes_a[i],
            votes_b[i],
            votes_a[i + 1],
            votes_b[i + 1],
        );
        lemma_growth_adds(
            votes_a[0],
            votes_a[i],
            votes_a[n],
            votes_b[0],
            votes_b[i],
            votes_b[n],
        );
    }
}

proof fn lemma_growth_adds(
    a0: Histograms,
    a1: Histograms,
    a2: Histograms,
    b0: Histograms,
    b1: Histograms,
    b2: Histograms,
)
    requires
        a1.well_formed(),
        a2.well_formed(),
        same_growth(a0, a1, b0, b1),
        same_growth(a1, a2, b1, b2),
    ensures
        same_growth(a0, a2, b0, b2),
{
    assert forall|i: int| 0 <= i < a2.phi@.len() implies (#[trigger] a2.phi@[i]).wrapping_sub(
        a0.phi@[i],
    ) == b2.phi@[i].wrapping_sub(b0.phi@[i]) by {
        assert(a1.phi@[i].wrapping_sub(a0.phi@[i]) == b1.phi@[i].wrapping_sub(b0.phi@[i]));
    }
    assert forall|i: int| 0 <= i < a2.y@.len() implies (#[trigger] a2.y@[i]).wrapping_sub(
        a0.y@[i],
    ) == b2.y@[i].wrapping_sub(b0.y@[i]) by {
        assert(a1.y@[i].wrapping_sub(a0.y@[i]) == b1.y@[i].wrapping_sub(b0.y@[i]));
    }
}

/// A seed determines a trial of a case, and what it adds to the histograms, whatever they held
/// before.
pub proof fn law_trial_repeats<K: Arithmetic>(
    k: &K,
    case: Case,
    physics: Physics,
    seed: u64,
    stride: u32,
    before_a: Histograms,
    before_b: Histograms,
    a: TrialResult,
    b: TrialResult,
    after_a: Histograms,
    after_b: Histograms,
)
    requires
        steady(k),
        before_a.well_formed(),
        before_b.well_formed(),
        trial_run(k, case, physics, seed, stride, before_a, a, after_a),
        trial_run(k, case, physics, seed, stride, before_b, b, after_b),
    ensures
        a == b,
        after_a.well_formed(),
        after_b.well_formed(),
        same_growth(before_a, after_a, before_b, after_b),
{
    reveal(trial_run);
    law_steady_is_single_valued(k);
    let params = params_of(case, seed);
    let (states_a, votes_a): (Seq<VisualSimulation>, Seq<Histograms>) = choose|
        states: Seq<VisualSimulation>,
        votes: Seq<Histograms>,
    |
        {
            &&& #[trigger] trial_states(k, params, physics, states)
            &&& #[trigger] trial_votes(k, stride, states, votes)
            &&& votes[0] == before_a
            &&& votes.last() == after_a
            &&& a == result_of(case, states.last())
        };
    let (states_b, votes_b): (Seq<VisualSimulation>, Seq<Histograms>) = choose|
        states: Seq<VisualSimulation>,
        votes: Seq<Histograms>,
    |
        {
            &&& #[trigger] trial_states(k, params, physics, states)
            &&& #[trigger] trial_votes(k, stride, states, votes)
            &&& votes[0] == before_b
            &&& votes.last() == after_b
            &&& b == result_of(case, states.last())
        };
    let n = if states_a.len() < states_b.len() {
        states_a.len() - 1
    } else {
        states_b.len() - 1
    };
    lemma_trial_prefix(
        k,
        params,
        physics,
        stride,
        states_a,
        states_b,
        votes_a,
        votes_b,
        n,
    );
    if states_a.len() < states_b.len() {
        assert(!states_b[n].trial_over());
        assert(states_a.last().trial_over());
    } else if states_b.len() < states_a.len() {
        assert(!states_a[n].trial_over());
        assert(states_b.last().trial_over());
    }
}

// ---- Blocks of trials ----

/// The accumulators along a block of trials, which are numbered from `first` on.
pub open spec fn block<K: Arithmetic>(
    k: &K,
    case: Case,
    physics: Physics,
    stride: u32,
    first: int,
    parts: Seq<CaseAccumulator>,
) -> bool {
    &&& parts.len() > 0
    &&& parts[0].well_formed()
    &&& forall|i: int|
        0 <= i < parts.len() - 1 ==> #[trigger] block_between(
            k,
            case,
            physics,
            stride,
            first,
            parts,
            i,
        )
}

/// Whether part `i + 1` of a block is part `i` with the next trial.
pub open spec fn block_between<K: Arithmetic>(
    k: &K,
    case: Case,
    physics: Physics,
    stride: u32,
    first: int,
    parts: Seq<CaseAccumulator>,
    i: int,
) -> bool {
    parts[i].trial_added(k, case, physics, (first + i) as u64, stride, parts[i + 1])
}

/// Whether `after` is `before` with the trials and the votes of `more`.
pub open spec fn extended(
    before: CaseAccumulator,
    after: CaseAccumulator,
    more: CaseAccumulator,
) -> bool {
    &&& after.trials@ == before.trials@ + more.trials@
    &&& after.well_formed()
    &&& forall|i: int|
        0 <= i < after.hist.phi@.len() ==> #[trigger] after.hist.phi@[i]
            == before.hist.phi@[i].wrapping_add(more.hist.phi@[i])
    &&& forall|i: int|
        0 <= i < after.hist.y@.len() ==> #[trigger] after.hist.y@[i] == before.hist.y@[i].wrapping_add(
            more.hist.y@[i],
        )
}

/// Whether an accumulator holds what the trials from `first` to `end` give: every run of them, from
/// whatever was collected before, adds just that.
pub open spec fn stands_for<K: Arithmetic>(
    k: &K,
    case: Case,
    physics: Physics,
    stride: u32,
    first: int,
    end: int,
    accum: CaseAccumulator,
) -> bool {
    forall|parts: Seq<CaseAccumulator>|
        #[trigger] block(k, case, physics, stride, first, parts) && parts.len() == end - first + 1
            ==> extended(parts[0], parts.last(), accum)
}

proof fn lemma_blocks<K: Arithmetic>(
    k: &K,
    case: Case,
    physics: Physics,
    stride: u32,
    first: int,
    a: Seq<CaseAccumulator>,
    b: Seq<CaseAccumulator>,
    n: int,
)
    requires
        settled(k),
        block(k, case, physics, stride, first, a),
        block(k, case, physics, stride, first, b),
        b[0].trials@ == Seq::<TrialResult>::empty(),
        0 <= n < a.len(),
        n < b.len(),
    ensures
        a[n].well_formed(),
        b[n].well_formed(),
        a[n].trials@ == a[0].trials@ + b[n].trials@,
        same_growth(a[0].hist, a[n].hist, b[0].hist, b[n].hist),
    decreases n,
{
    if n > 0 {
        let i = n - 1;
        lemma_blocks(k, case, physics, stride, first, a, b, i);
        assert(block_between(k, case, physics, stride, first, a, i));
        assert(block_between(k, case, physics, stride, first, b, i));
        let id = (first + i) as u64;
        let seed = trial_seed_of(seed_of(case.m, case.gamma, case.delta, case.f), id);
        let x = choose|trial: TrialResult|
            {
                &&& #[trigger] trial_run(
                    k,
                    case,
                    physics,
                    seed,
                    stride,
                    a[i].hist,
                    trial,
                    a[i + 1].hist,
                )
                &&& a[i + 1].trials@ == a[i].trials@.push(numbered(trial, id))
            };
        let y = choose|trial: TrialResult|
            {
                &&& #[trigger] trial_run(
                    k,
                    case,
                    physics,
                    seed,
                    stride,
                    b[i].hist,
                    trial,
                    b[i + 1].hist,
                )
                &&& b[i + 1].trials@ == b[i].trials@.push(numbered(trial, id))
            };
        law_trial_repeats(
            k,
            case,
            physics,
            seed,
            stride,
            a[i].hist,
            b[i].hist,
            x,
            y,
            a[i + 1].hist,
            b[i + 1].hist,
        );
        lemma_growth_adds(
            a[0].hist,
            a[i].hist,
            a[n].hist,
            b[0].hist,
            b[i].hist,
            b[n].hist,
        );
        assert(a[n].trials@ =~= a[0].trials@ + b[n].trials@);
    } else {
        assert(a[0].trials@ =~= a[0].trials@ + b[0].trials@);
    }
}

/// A block that was run from nothing holds what its trials give.
pub proof fn law_block_stands<K: Arithmetic>(
    k: &K,
    case: Case,
    physics: Physics,
    stride: u32,
    first: int,
    parts: Seq<CaseAccumulator>,
)
    requires
        steady(k),
        block(k, case, physics, stride, first, parts),
        parts[0].trials@ == Seq::<TrialResult>::empty(),
        parts[0].hist.empty(),
    ensures
        stands_for(k, case, physics, stride, first, first + parts.len() - 1, parts.last()),
{
    law_steady_is_single_valued(k);
    assert forall|other: Seq<CaseAccumulator>|
        #[trigger] block(k, case, physics, stride, first, other) && other.len()
            == parts.len() implies extended(other[0], other.last(), parts.last()) by {
        let n = parts.len() - 1;
        lemma_blocks(k, case, physics, stride, first, other, parts, n);
        assert forall|i: int| 0 <= i < other[n].hist.phi@.len() implies #[trigger] other[n].hist.phi@[i]
            == other[0].hist.phi@[i].wrapping_add(parts[n].hist.phi@[i]) by {
            assert(parts[0].hist.phi@[i] == 0);
        }
        assert forall|i: int| 0 <= i < other[n].hist.y@.len() implies #[trigger] other[n].hist.y@[i]
            == other[0].hist.y@[i].wrapping_add(parts[n].hist.y@[i]) by {
            assert(parts[0].hist.y@[i] == 0);
        }
    }
}

/// Merging the accumulators of neighbouring blocks holds what the trials of both give: how the
/// trials of a case are shared out to threads does not matter.
pub proof fn law_merge_stands<K: Arithmetic>(
    k: &K,
    case: Case,
    physics: Physics,
    stride: u32,
    first: int,
    middle: int,
    end: int,
    a: CaseAccumulator,
    b: CaseAccumulator,
    both: CaseAccumulator,
)
    requires
        first <= middle <= end,
        stands_for(k, case, physics, stride, first, middle, a),
        stands_for(k, case, physics, stride, middle, end, b),
        a.well_formed(),
        b.well_formed(),
        both.trials@ == a.trials@ + b.trials@,
        both.hist.phi@ == summed(a.hist.phi@, b.hist.phi@),
        both.hist.y@ == summed(a.hist.y@, b.hist.y@),
    ensures
        stands_for(k, case, physics, stride, first, end, both),
{
    assert forall|parts: Seq<CaseAccumulator>|
        #[trigger] block(k, case, physics, stride, first, parts) && parts.len() == end - first
            + 1 implies extended(parts[0], parts.last(), both) by {
        let at = middle - first;
        let front = parts.take(at + 1);
        let back = parts.skip(at);
        assert forall|i: int| 0 <= i < front.len() - 1 implies #[trigger] block_between(
            k,
            case,
            physics,
            stride,
            first,
            front,
            i,
        ) by {
            assert(block_between(k, case, physics, stride, first, parts, i));
        }
        assert(block(k, case, physics, stride, first, front));
        assert(extended(front[0], front.last(), a));
        assert forall|i: int| 0 <= i < back.len() - 1 implies #[trigger] block_between(
            k,
            case,
            physics,
            stride,
            middle,
            back,
            i,
        ) by {
            assert(block_between(k, case, physics, stride, first, parts, at + i));
        }
        assert(block(k, case, physics, stride, middle, back));
        assert(extended(back[0], back.last(), b));
        assert(front.last() == back[0]);
        assert(parts.last().trials@ =~= parts[0].trials@ + both.trials@);
    }
}

proof fn lemma_first_passage_summary<K: Arithmetic>(
    k: &K,
    case: Case,
    n_total: usize,
    physics: Physics,
    times: Seq<Double>,
    statuses: Seq<i32>,
    directions: Seq<i32>,
    a: SummaryRow,
    b: SummaryRow,
)
    requires
        settled(k),
        first_passage_summary(k, None, case, n_total, physics, times, statuses, directions, a),
        first_passage_summary(k, None, case, n_total, physics, times, statuses, directions, b),
    ensures
        a == b,
{
}

proof fn lemma_fixed_time_summary<K: Arithmetic>(
    k: &K,
    case: Case,
    n_total: usize,
    physics: Physics,
    starts: Seq<Double>,
    ends: Seq<Double>,
    a: FixedTimeRow,
    b: FixedTimeRow,
)
    requires
        settled(k),
        fixed_time_summary(k, None, case, n_total, physics, starts, ends, a),
        fixed_time_summary(k, None, case, n_total, physics, starts, ends, b),
    ensures
        a == b,
{
    let means_a = choose|means: DisplacementMeans|
        {
            &&& #[trigger] displacement_means_gives(k, starts, ends, physics, means)
            &&& a.time == means.time
            &&& a.mean_dx == means.mean_dx
            &&& a.var_dx == means.var_dx
            &&& a.v_mean == means.v_mean
            &&& a.t1 == means.t1
            &&& a.d_eff == means.d_eff
            &&& mobility_outcome(k, means.v_mean, case.f, a.mu)
        };
    let means_b = choose|means: DisplacementMeans|
        {
            &&& #[trigger] displacement_means_gives(k, starts, ends, physics, means)
            &&& b.time == means.time
            &&& b.mean_dx == means.mean_dx
            &&& b.var_dx == means.var_dx
            &&& b.v_mean == means.v_mean
            &&& b.t1 == means.t1
            &&& b.d_eff == means.d_eff
            &&& mobility_outcome(k, means.v_mean, case.f, b.mu)
        };
    lemma_displacement_means(k, starts, ends, physics, means_a, means_b);
}

proof fn lemma_displacement_means<K: Arithmetic>(
    k: &K,
    starts: Seq<Double>,
    ends: Seq<Double>,
    physics: Physics,
    a: DisplacementMeans,
    b: DisplacementMeans,
)
    requires
        settled(k),
        displacement_means_gives(k, starts, ends, physics, a),
        displacement_means_gives(k, starts, ends, physics, b),
    ensures
        a == b,
{
    let (moved_a, square_a): (Seq<Double>, Double) = choose|moved: Seq<Double>, square: Double|
        {
            &&& #[trigger] displacements_gives(k, starts, ends, moved)
            &&& #[trigger] moments_gives(k, moved, a.mean_dx, square)
            &&& gives(k, times(nat_of(physics.max_steps), num(physics.delta_t)), a.time)
            &&& gives(k, minus(num(square), times(num(a.mean_dx), num(a.mean_dx))), a.var_dx)
            &&& gives(k, over(num(a.mean_dx), num(a.time)), a.v_mean)
            &&& gives(k, over(lit(L_PERIOD), num(a.v_mean.absolute())), a.t1)
            &&& gives(k, over(num(a.var_dx), times(lit(TWO), num(a.time))), a.d_eff)
        };
    let (moved_b, square_b): (Seq<Double>, Double) = choose|moved: Seq<Double>, square: Double|
        {
            &&& #[trigger] displacements_gives(k, starts, ends, moved)
            &&& #[trigger] moments_gives(k, moved, b.mean_dx, square)
            &&& gives(k, times(nat_of(physics.max_steps), num(physics.delta_t)), b.time)
            &&& gives(k, minus(num(square), times(num(b.mean_dx), num(b.mean_dx))), b.var_dx)
            &&& gives(k, over(num(b.mean_dx), num(b.time)), b.v_mean)
            &&& gives(k, over(lit(L_PERIOD), num(b.v_mean.absolute())), b.t1)
            &&& gives(k, over(num(b.var_dx), times(lit(TWO), num(b.time))), b.d_eff)
        };
    assert(moved_a =~= moved_b) by {
        assert forall|i: int| 0 <= i < moved_a.len() implies moved_a[i] == moved_b[i] by {
            assert(gives(k, minus(num(ends[i]), num(starts[i])), moved_a[i]));
            assert(gives(k, minus(num(ends[i]), num(starts[i])), moved_b[i]));
        }
    }
    assert(a.mean_dx == b.mean_dx && square_a == square_b);
    assert(a.time == b.time);
    assert(a.var_dx == b.var_dx);
    assert(a.v_mean == b.v_mean);
}

/// The same trials give the same summary.
pub proof fn law_summary_repeats<K: Arithmetic>(
    k: &K,
    case: Case,
    n_total: usize,
    physics: Physics,
    trials: Seq<TrialResult>,
    a: Summary,
    b: Summary,
)
    requires
        steady(k),
        summary_of_trials(k, case, n_total, physics, trials, a),
        summary_of_trials(k, case, n_total, physics, trials, b),
    ensures
        a == b,
{
    law_steady_is_single_valued(k);
    match (physics.mode, a, b) {
        (Mode::FirstPassage, Summary::FirstPassage(row_a), Summary::FirstPassage(row_b)) => {
            lemma_first_passage_summary(
                k,
                case,
                n_total,
                physics,
                trials.map_values(|trial: TrialResult| trial.t),
                trials.map_values(|trial: TrialResult| trial.status),
                trials.map_values(|trial: TrialResult| trial.pass_direction),
                row_a,
                row_b,
            );
        },
        (Mode::FixedTime, Summary::FixedTime(row_a), Summary::FixedTime(row_b)) => {
            lemma_fixed_time_summary(
                k,
                case,
                n_total,
                physics,
                trials.map_values(|trial: TrialResult| trial.x0),
                trials.map_values(|trial: TrialResult| trial.x_end),
                row_a,
                row_b,
            );
        },
        _ => {},
    }
}

proof fn lemma_collected_block<K: Arithmetic>(
    k: &K,
    case: Case,
    physics: Physics,
    stride: u32,
    parts: Seq<CaseAccumulator>,
)
    requires
        collected(k, case, physics, stride, parts),
    ensures
        block(k, case, physics, stride, 0, parts),
{
    assert forall|i: int| 0 <= i < parts.len() - 1 implies #[trigger] block_between(
        k,
        case,
        physics,
        stride,
        0,
        parts,
        i,
    ) by {
        assert(added_between(k, case, physics, stride, parts, i));
    }
}

/// An accumulator that holds what all trials of a case give equals the one that a run of them, one
/// after the other, leaves.
pub proof fn law_held_results<K: Arithmetic>(
    k: &K,
    case: Case,
    physics: Physics,
    stride: u32,
    parts: Seq<CaseAccumulator>,
    accum: CaseAccumulator,
)
    requires
        collected(k, case, physics, stride, parts),
        stands_for(k, case, physics, stride, 0, parts.len() - 1, accum),
        accum.well_formed(),
    ensures
        accum.trials@ == parts.last().trials@,
        accum.hist.phi@ == parts.last().hist.phi@,
        accum.hist.y@ == parts.last().hist.y@,
{
    lemma_collected_block(k, case, physics, stride, parts);
    assert(extended(parts[0], parts.last(), accum));
    assert(parts.last().trials@ =~= accum.trials@);
    assert(accum.hist.phi@ =~= parts.last().hist.phi@);
    assert(accum.hist.y@ =~= parts.last().hist.y@);
}

/// How the trials of a case are shared out does not matter: an accumulator that holds what all of
/// them give finishes with the results of a run of one trial after the other, bit by bit.
pub proof fn law_sharing_keeps_results<K: Arithmetic>(
    k: &K,
    case: Case,
    physics: Physics,
    trial_count: usize,
    stride: u32,
    parts: Seq<CaseAccumulator>,
    accum: CaseAccumulator,
    a: CpuCaseResult,
    b: CpuCaseResult,
)
    requires
        steady(k),
        collected(k, case, physics, stride, parts),
        parts.len() == trial_count + 1,
        stands_for(k, case, physics, stride, 0, trial_count as int, accum),
        accum.well_formed(),
        finished(k, parts.last(), case, physics, trial_count, a),
        finished(k, accum, case, physics, trial_count, b),
    ensures
        a.trials@ == b.trials@,
        a.max_trial_steps == b.max_trial_steps,
        a.case_output.summary == b.case_output.summary,
        a.case_output.hist_phi@ == b.case_output.hist_phi@,
        a.case_output.hist_y@ == b.case_output.hist_y@,
{
    law_steady_is_single_valued(k);
    law_held_results(k, case, physics, stride, parts, accum);
    law_summary_repeats(
        k,
        case,
        trial_count,
        physics,
        in_id_order(accum.trials@),
        a.case_output.summary,
        b.case_output.summary,
    );
}

/// A case determines its results: run twice, it gives the same trials, the same summary and the
/// same histograms, bit by bit.
pub proof fn law_case_repeats<K: Arithmetic>(
    k: &K,
    case: Case,
    physics: Physics,
    trial_count: usize,
    stride: u32,
    parts_a: Seq<CaseAccumulator>,
    parts_b: Seq<CaseAccumulator>,
    a: CpuCaseResult,
    b: CpuCaseResult,
)
    requires
        steady(k),
        collected(k, case, physics, stride, parts_a),
        collected(k, case, physics, stride, parts_b),
        parts_a.len() == trial_count + 1,
        parts_b.len() == trial_count + 1,
        finished(k, parts_a.last(), case, physics, trial_count, a),
        finished(k, parts_b.last(), case, physics, trial_count, b),
    ensures
        a.trials@ == b.trials@,
        a.max_trial_steps == b.max_trial_steps,
        a.case_output.summary == b.case_output.summary,
        a.case_output.hist_phi@ == b.case_output.hist_phi@,
        a.case_output.hist_y@ == b.case_output.hist_y@,
{
    law_steady_is_single_valued(k);
    lemma_collected_block(k, case, physics, stride, parts_a);
    lemma_collected_block(k, case, physics, stride, parts_b);
    law_block_stands(k, case, physics, stride, 0, parts_a);
    lemma_blocks(k, case, physics, stride, 0, parts_a, parts_a, trial_count as int);
    law_sharing_keeps_results(
        k,
        case,
        physics,
        trial_count,
        stride,
        parts_b,
        parts_a.last(),
        b,
        a,
    );
}

// ---- Texts ----

/// The parameters of a case determine the name of its directory; its number and its length play no
/// part.
pub proof fn law_dir_name_repeats<K: Arithmetic>(
    k: &K,
    a: Case,
    b: Case,
    name_a: Seq<char>,
    name_b: Seq<char>,
)
    requires
        steady(k),
        a.m == b.m,
        a.f == b.f,
        a.gamma == b.gamma,
        a.delta == b.delta,
        a.named(k, name_a),
        b.named(k, name_b),
    ensures
        name_a == name_b,
{
    let (f_a, gamma_a, delta_a): (String, String, String) = choose|
        f_text: String,
        gamma_text: String,
        delta_text: String,
    |
        {
            &&& #[trigger] written(k, a.f, f_text)
            &&& #[trigger] written(k, a.gamma, gamma_text)
            &&& #[trigger] written(k, a.delta, delta_text)
            &&& name_a == dir_name_text(a.m, f_text@, gamma_text@, delta_text@)
        };
    let (f_b, gamma_b, delta_b): (String, String, String) = choose|
        f_text: String,
        gamma_text: String,
        delta_text: String,
    |
        {
            &&& #[trigger] written(k, b.f, f_text)
            &&& #[trigger] written(k, b.gamma, gamma_text)
            &&& #[trigger] written(k, b.delta, delta_text)
            &&& name_b == dir_name_text(b.m, f_text@, gamma_text@, delta_text@)
        };
    assert(f_a@ == f_b@ && gamma_a@ == gamma_b@ && delta_a@ == delta_b@);
}

/// A text stands for one number, or is refused for one reason.
pub proof fn law_fraction_repeats<K: Arithmetic>(
    k: &K,
    chars: Seq<char>,
    a: Result<Double, FractionError>,
    b: Result<Double, FractionError>,
)
    requires
        steady(k),
        fraction_outcome(k, chars, a),
        fraction_outcome(k, chars, b),
    ensures
        a == b,
{
    if chars.contains('/') {
        let (front_a, back_a): (Seq<char>, Seq<char>) = choose|front: Seq<char>, back: Seq<char>|
            {
                &&& chars == #[trigger] (front.push('/') + back)
                &&& !front.contains('/')
                &&& ratio_outcome(k, trimmed(front), trimmed(back), a)
            };
        let (front_b, back_b): (Seq<char>, Seq<char>) = choose|front: Seq<char>, back: Seq<char>|
            {
                &&& chars == #[trigger] (front.push('/') + back)
                &&& !front.contains('/')
                &&& ratio_outcome(k, trimmed(front), trimmed(back), b)
            };
        lemma_one_split(chars, front_a, back_a, front_b, back_b);
        lemma_ratio(k, trimmed(front_a), trimmed(back_a), a, b);
    }
}

proof fn lemma_one_split(
    chars: Seq<char>,
    front_a: Seq<char>,
    back_a: Seq<char>,
    front_b: Seq<char>,
    back_b: Seq<char>,
)
    requires
        chars == front_a.push('/') + back_a,
        chars == front_b.push('/') + back_b,
        !front_a.contains('/'),
        !front_b.contains('/'),
    ensures
        front_a == front_b,
        back_a == back_b,
{
    let (n, m) = (front_a.len() as int, front_b.len() as int);
    assert(chars[n] == '/');
    assert(chars[m] == '/');
    if n < m {
        assert(front_b[n] == chars[n]);
    }
    if m < n {
        assert(front_a[m] == chars[m]);
    }
    assert(front_a =~= chars.take(n));
    assert(front_b =~= chars.take(m));
    assert(back_a =~= chars.skip(n + 1));
    assert(back_b =~= chars.skip(m + 1));
}

proof fn lemma_ratio<K: Arithmetic>(
    k: &K,
    front: Seq<char>,
    back: Seq<char>,
    a: Result<Double, FractionError>,
    b: Result<Double, FractionError>,
)
    requires
        steady(k),
        ratio_outcome(k, front, back, a),
        ratio_outcome(k, front, back, b),
    ensures
        a == b,
{
    assert forall|x: Double, y: Double, p: Double, q: Double| #[trigger]
        call_ensures(K::quotient, (k, x, y), p) && #[trigger] call_ensures(
            K::quotient,
            (k, x, y),
            q,
        ) implies p == q by {
        assert(binary_gives(k, BinaryOp::Quotient, x, y, p));
        assert(binary_gives(k, BinaryOp::Quotient, x, y, q));
    }
}

} // verus!
