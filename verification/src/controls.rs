//! What changes of parameters, starts, launches and reports carry over, and what they leave.

use vstd::prelude::*;
use crate::channel::{wall_sample_gives, Pose};
use crate::config::{particle_length_gives, Physics};
use crate::device_run::{DeviceRun, Phase};
use crate::double::Double;
use crate::formula::Arithmetic;
use crate::gpu::{due, marked, GpuProgress};
use crate::model::{diffusion_for_length_gives, ProgressRow, TrialResult, PASS_DIRECTION_NONE};
use crate::rng::state_after;
use crate::runner::{
    append_plan, ends_worker, lines_plan, progress_text, written, RunState, TableStep,
    WorkerMessage,
};
use crate::simulation::{noise_scale_gives, placed, targets_gives, VisualParams, VisualSimulation};
use crate::text::numeral;

verus! {

// ---- Rods ----

/// New forces are taken over each under its own name; the rod, its pose, its time and all else stay.
pub proof fn law_new_forces(sim: VisualSimulation, f: Double, gamma: Double, delta: Double)
    ensures
        ({
            let after = sim.with_forces(f, gamma, delta);
            &&& after.params.f == f
            &&& after.params.gamma == gamma
            &&& after.params.delta == delta
            &&& after.params.m == sim.params.m
            &&& after.params.seed == sim.params.seed
            &&& after.physics == sim.physics
            &&& after.diffusion == sim.diffusion
            &&& after.noise_scale == sim.noise_scale
            &&& after.pose() == sim.pose()
            &&& after.x0 == sim.x0
            &&& after.y0 == sim.y0
            &&& after.phi0 == sim.phi0
            &&& after.target_right_x == sim.target_right_x
            &&& after.target_left_x == sim.target_left_x
            &&& after.t == sim.t
            &&& after.steps == sim.steps
            &&& after.first_passed == sim.first_passed
            &&& after.pass_direction == sim.pass_direction
            &&& after.completed == sim.completed
            &&& after.rng == sim.rng
            &&& after.wall_y == sim.wall_y
        }),
{
}

/// A rod starts with its own parameters: with the length of its points, the diffusion of that length and
/// the noise of that diffusion, in the pose that its seed gives, with targets around that pose, at time
/// zero, without a step and without a passage.
pub proof fn law_start_of_rod<K: Arithmetic>(
    k: &K,
    sim: VisualSimulation,
    params: VisualParams,
    physics: Physics,
)
    requires
        sim.started(k, params, physics),
    ensures
        sim.params == params,
        sim.physics == physics,
        exists|l: Double, drawn: nat|
            {
                &&& #[trigger] particle_length_gives(k, physics.particle_dx, params.m, l)
                &&& diffusion_for_length_gives(
                    k,
                    l,
                    physics.diffusion_reference_length,
                    sim.diffusion,
                )
                &&& #[trigger] placed(k, params.seed, l, sim.pose(), drawn)
                &&& sim.rng.state == state_after(params.seed, drawn)
            },
        noise_scale_gives(k, sim.diffusion, physics.delta_t, sim.noise_scale),
        targets_gives(k, sim.x, (sim.target_right_x, sim.target_left_x)),
        sim.wall_y@.len() == physics.n_wall,
        forall|i: int|
            0 <= i < sim.wall_y@.len() ==> wall_sample_gives(
                k,
                i as usize,
                physics.wall_dx,
                #[trigger] sim.wall_y@[i],
            ),
        sim.pose() == (Pose { x: sim.x0, y: sim.y0, phi: sim.phi0 }),
        sim.t.bits == 0,
        sim.steps == 0,
        !sim.first_passed,
        sim.pass_direction == PASS_DIRECTION_NONE,
        !sim.completed,
        sim.rng.cached_normal is None,
{
    assert(sim.pose() == (Pose { x: sim.x0, y: sim.y0, phi: sim.phi0 }));
    let (l, drawn): (Double, nat) = choose|l: Double, drawn: nat|
        {
            &&& #[trigger] particle_length_gives(k, physics.particle_dx, params.m, l)
            &&& diffusion_for_length_gives(
                k,
                l,
                physics.diffusion_reference_length,
                sim.diffusion,
            )
            &&& #[trigger] placed(
                k,
                params.seed,
                l,
                Pose { x: sim.x0, y: sim.y0, phi: sim.phi0 },
                drawn,
            )
            &&& sim.rng.state == state_after(params.seed, drawn)
        };
    assert(placed(k, params.seed, l, sim.pose(), drawn));
}

/// Of the steps that are asked for, as many are made as are left before the last one.
pub proof fn law_steps_made(sim: VisualSimulation, step_count: int)
    requires
        0 <= step_count,
        !sim.completed,
    ensures
        sim.steps_made(step_count) <= step_count,
        sim.steps <= sim.physics.max_steps ==> sim.steps + sim.steps_made(step_count)
            <= sim.physics.max_steps,
        sim.steps_made(step_count) < step_count ==> sim.steps + sim.steps_made(step_count)
            >= sim.physics.max_steps,
        0 <= sim.steps_made(step_count),
{
}

// ---- Devices ----

/// A launch adds its steps to those of the case in its slot, as far as they can be counted, and changes
/// no other slot.
pub proof fn law_launch(run: DeviceRun, after: DeviceRun, slot: usize, other: int)
    requires
        run.phase == (Phase::Launch { slot }),
        run.steps_launched(after),
        slot < run.slots@.len(),
        0 <= other < run.slots@.len(),
        other != slot,
        run.slots@[slot as int].job is Some,
    ensures
        after.slots@.len() == run.slots@.len(),
        after.slots@[other] == run.slots@[other],
        ({
            let before = run.slots@[slot as int].job->0;
            let now = after.slots@[slot as int].job;
            &&& now is Some
            &&& now->0.case == before.case
            &&& now->0.last_progress_ms == before.last_progress_ms
            &&& before.launched_steps + run.config.steps_per_launch <= u64::MAX
                ==> now->0.launched_steps == before.launched_steps + run.config.steps_per_launch
            &&& before.launched_steps + run.config.steps_per_launch > u64::MAX
                ==> now->0.launched_steps == u64::MAX
        }),
{
}

/// A case is done exactly when all its trials have ended or all its steps were launched, and only then it
/// is reported as completed. A report tells the steps that were launched, but no more than there are.
pub proof fn law_report(run: DeviceRun, slot: int, completed: int, progress: GpuProgress)
    requires
        run.reported(slot, completed, progress),
        completed <= run.trial_count,
    ensures
        ({
            let job = run.slots@[slot].job->0;
            let done = completed == run.trial_count || job.launched_steps >= run.config.max_steps;
            &&& run.case_done(slot, completed) <==> done
            &&& progress.case_id == job.case.case_id
            &&& progress.completed_trials == completed
            &&& progress.total_trials == run.trial_count
            &&& progress.completed_trials <= progress.total_trials
            &&& progress.current_steps <= job.launched_steps
            &&& progress.current_steps <= run.config.max_steps
            &&& progress.current_steps == job.launched_steps || progress.current_steps
                == run.config.max_steps
            &&& done ==> progress.status@ == "completed"@
            &&& !done ==> progress.status@ == "running"@
        }),
{
}

/// A case is reported where it is done, or where its last report is as long ago as the interval says.
pub proof fn law_report_due(run: DeviceRun, slot: int, completed: int, now_ms: u64)
    requires
        run.slots@[slot].job->0.last_progress_ms <= now_ms,
    ensures
        run.report_due(slot, completed, now_ms) <==> run.case_done(slot, completed) || now_ms
            - run.slots@[slot].job->0.last_progress_ms >= run.config.progress_interval_ms,
{
}

/// A trial is handed on once: when it has ended, or with all others when its case is done. From then on
/// it is marked, and is not due again.
pub proof fn law_trial_is_handed_on_once(
    emitted: Seq<bool>,
    statuses: Seq<i32>,
    emit_all: bool,
    later: Seq<i32>,
    emit_all_later: bool,
    i: int,
)
    requires
        0 <= i < emitted.len(),
    ensures
        due(emitted, statuses, emit_all, i) <==> !emitted[i] && (emit_all || statuses[i] != 0),
        marked(emitted, statuses, emit_all).len() == emitted.len(),
        marked(emitted, statuses, emit_all)[i] <==> emitted[i] || due(
            emitted,
            statuses,
            emit_all,
            i,
        ),
        due(emitted, statuses, emit_all, i) ==> !due(
            marked(emitted, statuses, emit_all),
            later,
            emit_all_later,
            i,
        ),
{
}

// ---- Reports ----

/// A worker ends with the report that it is done or with the report of its error, and a run goes on until
/// all have.
pub proof fn law_end_of_run(state: RunState, message: WorkerMessage)
    ensures
        ends_worker(message) <==> message is WorkerDone || message is WorkerError,
        state.running_spec() <==> state.completed_workers < state.worker_count,
{
}

proof fn lemma_lines_before(trials: Seq<TrialResult>, known: Set<u32>, open: Set<u32>, n: nat)
    requires
        n <= trials.len(),
        forall|i: int|
            0 <= i < n ==> known.contains((#[trigger] trials[i]).case_id) || open.contains(
                trials[i].case_id,
            ),
    ensures
        ({
            let plan = lines_plan(trials, known, open, n);
            &&& plan.missing is None
            &&& written(plan.steps) == trials.take(n as int)
            &&& forall|id: u32| #[trigger]
                plan.open.contains(id) ==> open.contains(id) || known.contains(id)
            &&& forall|id: u32| open.contains(id) ==> #[trigger] plan.open.contains(id)
        }),
    decreases n,
{
    if n == 0 {
        assert(trials.take(0) =~= Seq::<TrialResult>::empty());
    } else {
        lemma_lines_before(trials, known, open, (n - 1) as nat);
        let front = lines_plan(trials, known, open, (n - 1) as nat);
        let plan = lines_plan(trials, known, open, n);
        let trial = trials[n - 1];
        assert(trials.take(n as int) =~= trials.take(n - 1).push(trial));
        let line = TableStep::Write { trial };
        assert(front.steps.push(line).drop_last() =~= front.steps);
        let opened = front.steps.push(TableStep::Open { case_id: trial.case_id });
        assert(opened.drop_last() =~= front.steps);
        assert(opened.push(line).drop_last() =~= opened);
        reveal_with_fuel(written, 3);
    }
}

proof fn lemma_lines_after(
    trials: Seq<TrialResult>,
    known: Set<u32>,
    open: Set<u32>,
    at: nat,
    n: nat,
)
    requires
        at <= n,
        lines_plan(trials, known, open, at).missing is Some,
    ensures
        lines_plan(trials, known, open, n) == lines_plan(trials, known, open, at),
    decreases n,
{
    if at < n {
        lemma_lines_after(trials, known, open, at, (n - 1) as nat);
    }
}

/// The first trial of a case that has no directory stops the lines: those before it are written, it and
/// those behind it are not, and its case is told.
pub proof fn law_append_stops(
    trials: Seq<TrialResult>,
    known: Set<u32>,
    open: Set<u32>,
    at: int,
)
    requires
        0 <= at < trials.len(),
        forall|i: int|
            0 <= i < at ==> known.contains((#[trigger] trials[i]).case_id) || open.contains(
                trials[i].case_id,
            ),
        !known.contains(trials[at].case_id),
        !open.contains(trials[at].case_id),
    ensures
        ({
            let plan = append_plan(trials, known, open);
            &&& plan.missing == Some(trials[at].case_id)
            &&& written(plan.steps) == trials.take(at)
        }),
{
    lemma_lines_before(trials, known, open, at as nat);
    assert(lines_plan(trials, known, open, (at + 1) as nat).missing == Some(trials[at].case_id));
    lemma_lines_after(trials, known, open, (at + 1) as nat, trials.len());
}

// ---- Lines ----

/// The line of an event tells who ran which case, and how many of the cases and of its trials are done
/// out of how many.
pub proof fn law_progress_line(row: ProgressRow)
    ensures
        progress_text(row) == "worker="@ + (match row.gpu_id {
            Some(id) => "gpu:"@ + numeral(id as nat),
            None => "cpu"@,
        }) + " case="@ + numeral(row.case_id as nat) + " cases="@ + numeral(
            row.completed_cases as nat,
        ) + "/"@ + numeral(row.total_cases as nat) + " trials="@ + numeral(
            row.completed_trials as nat,
        ) + "/"@ + numeral(row.total_trials as nat) + " steps="@ + numeral(
            row.current_steps as nat,
        ) + " status="@ + row.status@,
{
}

} // verus!
