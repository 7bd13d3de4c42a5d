//! What records carry: each field is the field of the same name.

use vstd::prelude::*;
use crate::config::{
    Case, Physics, BOUNDARY_REFLECTION_LIMIT, CHANNEL_NECK_PHASE, HIST_PHI_BINS, HIST_X_BINS,
    HIST_Y_BINS, HIST_Y_MAX, MAX_WALL_REPULSION_FORCE, WALL_K,
};
use crate::double::Double;
use crate::gpu::{kernel_params_from, HostTrials, KernelParams};
use crate::model::{
    Diffusion, TrialCsvRow, TrialResult, PASS_DIRECTION_LEFT, PASS_DIRECTION_NONE,
    PASS_DIRECTION_RIGHT, STATUS_MAX_STEPS, STATUS_OK, STATUS_RUNNING,
};
use crate::simulation::NoiseScale;

verus! {

/// A line of the trial table carries the trial and the parameters of its case, each under its own
/// name, and tells how the trial ended in words.
pub proof fn law_table_line(trial: TrialResult, row: TrialCsvRow)
    requires
        trial.row_of(row),
    ensures
        row.case_id == trial.case_id,
        row.trial_id == trial.trial_id,
        row.gpu_id == trial.gpu_id,
        row.m == trial.case.m,
        row.l == trial.case.l,
        row.gamma == trial.case.gamma,
        row.delta == trial.case.delta,
        row.f == trial.case.f,
        row.x0 == trial.x0,
        row.y0 == trial.y0,
        row.phi0 == trial.phi0,
        row.x_end == trial.x_end,
        row.y_end == trial.y_end,
        row.phi_end == trial.phi_end,
        row.t == trial.t,
        row.steps == trial.steps,
        trial.status == STATUS_OK ==> row.status@ == "ok"@,
        trial.status == STATUS_MAX_STEPS ==> row.status@ == "max_steps"@,
        trial.status == STATUS_RUNNING ==> row.status@ == "running"@,
        trial.pass_direction == PASS_DIRECTION_RIGHT ==> row.pass_direction@ == "right"@,
        trial.pass_direction == PASS_DIRECTION_LEFT ==> row.pass_direction@ == "left"@,
        trial.pass_direction == PASS_DIRECTION_NONE ==> row.pass_direction@ == "not_passed"@,
{
}

/// The result of a trial on a device carries what was read of that trial: its start, its end, its
/// time, its steps and how it ended.
pub proof fn law_device_result(host: HostTrials, device_id: usize, case: Case, i: int)
    requires
        0 <= i <= u64::MAX,
    ensures
        ({
            let trial = host.result_at(device_id, case, i);
            &&& trial.case == case
            &&& trial.case_id == case.case_id
            &&& trial.trial_id == i
            &&& trial.gpu_id == Some(device_id)
            &&& trial.x0 == host.x0@[i]
            &&& trial.y0 == host.y0@[i]
            &&& trial.phi0 == host.phi0@[i]
            &&& trial.x_end == host.x@[i]
            &&& trial.y_end == host.y@[i]
            &&& trial.phi_end == host.phi@[i]
            &&& trial.t == host.times@[i]
            &&& trial.steps == host.steps@[i]
            &&& trial.status == host.statuses@[i]
            &&& trial.pass_direction == host.pass_directions@[i]
        }),
{
}

/// A kernel gets the rod of its case, its diffusion and its noise, the constants of the walls and
/// the sizes of the histograms.
pub proof fn law_kernel_params(
    physics: Physics,
    case: Case,
    diffusion: Diffusion,
    noise: NoiseScale,
    rc2: Double,
    params: KernelParams,
)
    requires
        params == kernel_params_from(physics, case, diffusion, noise, rc2),
        physics.n_wall <= i32::MAX,
    ensures
        params.m == case.m,
        params.l == case.l,
        params.gamma == case.gamma,
        params.delta == case.delta,
        params.force == case.f,
        params.d_parallel == diffusion.d_parallel,
        params.d_perp == diffusion.d_perp,
        params.d_r == diffusion.d_r,
        params.trans_noise_parallel == noise.trans_parallel,
        params.trans_noise_perp == noise.trans_perp,
        params.rot_noise == noise.rot,
        params.dt == physics.delta_t,
        params.sigma == physics.sigma,
        params.epsilon == physics.epsilon,
        params.wall_dx == physics.wall_dx,
        params.particle_dx == physics.particle_dx,
        params.rc2 == rc2,
        params.n_wall == physics.n_wall,
        params.wall_k == WALL_K,
        params.boundary_reflection_limit == BOUNDARY_REFLECTION_LIMIT,
        params.max_wall_repulsion_force.bits == MAX_WALL_REPULSION_FORCE,
        params.channel_neck_phase.bits == CHANNEL_NECK_PHASE,
        params.hist_x_bins == HIST_X_BINS,
        params.hist_phi_bins == HIST_PHI_BINS,
        params.hist_y_bins == HIST_Y_BINS,
        params.hist_y_max.bits == HIST_Y_MAX,
{
}

} // verus!
