//! The schedule of one device: which case runs in which slot, when a case is launched, looked at,
//! collected and replaced.
//!
//! The schedule performs no work on the device itself. It asks for one thing at a time by its
//! phase, is told the outcome, and moves to the next phase.

use vstd::prelude::*;
use crate::config::{Case, Mode, Physics};
use crate::formula::Arithmetic;
use crate::gpu::{
    launched_after, marked, rows_due, GpuProgress, GpuRunConfig, HostTrials, SlotJob, StreamSlot,
};
use crate::model::{
    first_passage_summary, fixed_time_summary, summarize_fixed_time, summarize_trials,
    CaseOutput, Summary, TrialResult,
};

verus! {

/// What the schedule asks for next.
#[derive(Clone, Copy, Debug)]
pub enum Phase {
    /// The next case of the queue, for a slot; `filling` before the first launch.
    NextCase { slot: usize, filling: bool },
    /// The start of a case in a slot.
    Start { slot: usize, case: Case, filling: bool },
    /// The launch of some steps of the case in a slot.
    Launch { slot: usize },
    /// The end of the launched steps of a slot, and its counters.
    Synchronize { slot: usize },
    /// The trials of the case in a slot; all that are left when it is `done`.
    ReadTrials { slot: usize, done: bool },
    /// The histograms of the finished case in a slot.
    ReadHistograms { slot: usize },
    /// Nothing: all cases are finished.
    End,
}

/// Why a device run is refused.
#[derive(Clone, Copy, Debug, PartialEq, Eq, Structural)]
pub enum DeviceRunError {
    NoTrials,
    TooManyTrials,
}

impl DeviceRunError {
    /// The message of the error.
    pub open spec fn message_text(self) -> Seq<char> {
        match self {
            DeviceRunError::NoTrials => "trial_count must be positive"@,
            DeviceRunError::TooManyTrials => "too many trials for i32"@,
        }
    }

    /// The message of the error.
    pub fn message(self) -> (message: &'static str)
        ensures
            message@ == self.message_text(),
    {
        match self {
            DeviceRunError::NoTrials => "trial_count must be positive",
            DeviceRunError::TooManyTrials => "too many trials for i32",
        }
    }
}

/// The first slot from `from` on that runs a case.
pub open spec fn next_active(slots: Seq<StreamSlot>, from: int) -> Option<int>
    decreases slots.len() - from,
{
    if from >= slots.len() {
        None
    } else if slots[from].active() {
        Some(from)
    } else {
        next_active(slots, from + 1)
    }
}

/// The phase at the start of a round: the first running slot is launched; without one the run
/// ends.
pub open spec fn round_start(slots: Seq<StreamSlot>) -> Phase {
    match next_active(slots, 0) {
        Some(slot) => Phase::Launch { slot: slot as usize },
        None => Phase::End,
    }
}

/// The phase after a launch: the next running slot is launched; after the last one the first is
/// looked at.
pub open spec fn after_launch(slots: Seq<StreamSlot>, slot: usize) -> Phase {
    match next_active(slots, slot + 1) {
        Some(next) => Phase::Launch { slot: next as usize },
        None => match next_active(slots, 0) {
            Some(first) => Phase::Synchronize { slot: first as usize },
            None => Phase::End,
        },
    }
}

/// The phase after a slot has been looked at: the next running slot; after the last one a new
/// round.
pub open spec fn after_check(slots: Seq<StreamSlot>, slot: usize) -> Phase {
    match next_active(slots, slot + 1) {
        Some(next) => Phase::Synchronize { slot: next as usize },
        None => round_start(slots),
    }
}

/// The phase after a case has been started in a slot.
pub open spec fn after_start(slots: Seq<StreamSlot>, slot: usize, filling: bool) -> Phase {
    if !filling {
        after_check(slots, slot)
    } else if slot + 1 < slots.len() {
        Phase::NextCase { slot: (slot + 1) as usize, filling: true }
    } else {
        round_start(slots)
    }
}

/// How many slots from `from` on run a case.
pub open spec fn active_from(slots: Seq<StreamSlot>, from: int) -> nat
    decreases slots.len() - from,
{
    if from >= slots.len() {
        0
    } else {
        active_from(slots, from + 1) + if slots[from].active() {
            1nat
        } else {
            0
        }
    }
}

/// The schedule of one device.
#[derive(Debug)]
pub struct DeviceRun {
    pub config: GpuRunConfig,
    pub trial_count: usize,
    pub slots: Vec<StreamSlot>,
    pub phase: Phase,
    /// Whether the queue has answered that there is no case left. It is not asked again.
    pub exhausted: bool,
    /// The trials of the case that is being finished.
    pub held: Option<HostTrials>,
}

impl DeviceRun {
    /// Every slot covers all trials, the phase speaks of a slot in the state that it needs, at the
    /// end no slot runs a case, and no case is asked for or started once the queue was found empty.
    pub open spec fn well_formed(self) -> bool {
        &&& 0 < self.trial_count <= i32::MAX
        &&& self.slots@.len() > 0
        &&& forall|i: int|
            0 <= i < self.slots@.len() ==> (#[trigger] self.slots@[i]).well_formed(
                self.trial_count as nat,
            )
        &&& self.phase_fits()
        &&& self.exhausted ==> !(self.phase is NextCase) && !(self.phase is Start)
    }

    /// Whether the phase speaks of a slot in the state that it needs.
    pub open spec fn phase_fits(self) -> bool {
        match self.phase {
            Phase::NextCase { slot, filling } => slot < self.slots@.len() && self.idle_at(
                slot,
                filling,
            ) && self.held is None,
            Phase::Start { slot, case, filling } => slot < self.slots@.len() && self.idle_at(
                slot,
                filling,
            ) && self.held is None,
            Phase::Launch { slot } => slot < self.slots@.len() && self.slots@[slot as int].active()
                && self.held is None,
            Phase::Synchronize { slot } => slot < self.slots@.len()
                && self.slots@[slot as int].active() && self.held is None,
            Phase::ReadTrials { slot, done } => slot < self.slots@.len()
                && self.slots@[slot as int].active() && self.held is None,
            Phase::ReadHistograms { slot } => slot < self.slots@.len()
                && self.slots@[slot as int].active() && (self.held matches Some(host)
                && host.covers(self.trial_count as nat)) && self.all_handed_on(slot as int),
            Phase::End => active_from(self.slots@, 0) == 0 && self.held is None,
        }
    }

    /// Whether every trial of the case in a slot was handed on.
    pub open spec fn all_handed_on(self, slot: int) -> bool {
        forall|i: int| 0 <= i < self.slots@[slot].emitted@.len() ==> #[trigger]
            self.slots@[slot].emitted@[i]
    }

    /// Whether a slot waits for a case, and while the slots are filled all later ones too.
    pub open spec fn idle_at(self, slot: usize, filling: bool) -> bool {
        &&& !self.slots@[slot as int].active()
        &&& filling ==> forall|i: int|
            slot <= i < self.slots@.len() ==> !(#[trigger] self.slots@[i]).active()
    }

    /// The cases that were taken from the queue and are not finished.
    pub open spec fn in_flight(self) -> nat {
        active_from(self.slots@, 0) + if self.phase is Start {
            1nat
        } else {
            0
        }
    }

    /// Whether nothing but slots and phase differs from an earlier state.
    pub open spec fn same_run(self, earlier: DeviceRun) -> bool {
        &&& self.config == earlier.config
        &&& self.trial_count == earlier.trial_count
        &&& self.slots@.len() == earlier.slots@.len()
    }

    /// A run that has no case yet. It has at least one slot.
    pub fn new(config: GpuRunConfig, trial_count: usize) -> (r: Result<DeviceRun, DeviceRunError>)
        ensures
            r is Ok <==> 0 < trial_count <= i32::MAX,
            r matches Err(e) ==> e == (if trial_count == 0 {
                DeviceRunError::NoTrials
            } else {
                DeviceRunError::TooManyTrials
            }),
            r matches Ok(run) ==> {
                &&& run.well_formed()
                &&& run.config == config
                &&& run.trial_count == trial_count
                &&& run.slots@.len() == if config.tasks_per_gpu > 1 {
                    config.tasks_per_gpu as int
                } else {
                    1
                }
                &&& forall|i: int|
                    0 <= i < run.slots@.len() ==> (#[trigger] run.slots@[i]).job is None
                &&& run.phase == Phase::NextCase { slot: 0, filling: true }
                &&& !run.exhausted
                &&& run.in_flight() == 0
            },
    {
        if trial_count == 0 {
            return Err(DeviceRunError::NoTrials);
        }
        if trial_count > 0x7fff_ffff {
            return Err(DeviceRunError::TooManyTrials);
        }
        let tasks: usize = if config.tasks_per_gpu > 1 {
            config.tasks_per_gpu
        } else {
            1
        };
        let mut slots: Vec<StreamSlot> = Vec::new();
        while slots.len() < tasks
            invariant
                slots.len() <= tasks,
                forall|i: int|
                    0 <= i < slots@.len() ==> (#[trigger] slots@[i]).well_formed(
                        trial_count as nat,
                    ) && slots@[i].job is None,
            decreases tasks - slots.len(),
        {
            slots.push(StreamSlot::new(trial_count));
        }
        proof {
            lemma_all_idle(slots@, 0);
        }
        Ok(
            DeviceRun {
                config,
                trial_count,
                slots,
                phase: Phase::NextCase { slot: 0, filling: true },
                exhausted: false,
                held: None,
            },
        )
    }

    fn first_active(&self, from: usize) -> (slot: Option<usize>)
        requires
            from <= self.slots@.len(),
        ensures
            match slot {
                Some(i) => next_active(self.slots@, from as int) == Some(i as int) && i
                    < self.slots@.len() && self.slots@[i as int].active(),
                None => next_active(self.slots@, from as int) is None,
            },
    {
        let mut i: usize = from;
        while i < self.slots.len()
            invariant
                from <= i <= self.slots@.len(),
                next_active(self.slots@, from as int) == next_active(self.slots@, i as int),
            decreases self.slots.len() - i,
        {
            if self.slots[i].job.is_some() {
                return Some(i);
            }
            i = i + 1;
        }
        None
    }

    fn phase_of_round(&self) -> (phase: Phase)
        ensures
            phase == round_start(self.slots@),
    {
        match self.first_active(0) {
            Some(slot) => Phase::Launch { slot },
            None => Phase::End,
        }
    }

    fn phase_after_check(&self, slot: usize) -> (phase: Phase)
        requires
            slot < self.slots@.len(),
        ensures
            phase == after_check(self.slots@, slot),
    {
        let n: usize = self.slots.len();
        assert(slot < n);
        match self.first_active(slot + 1) {
            Some(next) => Phase::Synchronize { slot: next },
            None => self.phase_of_round(),
        }
    }

    /// Whether the answer of the queue leads to `after`: a case is started in the slot; without one
    /// filling ends or the slot stays empty, and the queue is not asked again.
    pub open spec fn case_given(self, case: Option<Case>, after: DeviceRun) -> bool {
        &&& after.same_run(self)
        &&& after.slots@ == self.slots@
        &&& after.exhausted == (self.exhausted || case is None)
        &&& after.phase == (match (self.phase, case) {
            (Phase::NextCase { slot, filling }, Some(case)) => Phase::Start { slot, case, filling },
            (Phase::NextCase { slot, filling: true }, None) => round_start(self.slots@),
            (Phase::NextCase { slot, filling: false }, None) => after_check(self.slots@, slot),
            (phase, _) => phase,
        })
        &&& after.in_flight() == self.in_flight() + if case is Some {
            1int
        } else {
            0
        }
    }

    /// The answer of the queue.
    pub fn on_case(&mut self, case: Option<Case>)
        requires
            old(self).well_formed(),
            old(self).phase is NextCase,
        ensures
            final(self).well_formed(),
            old(self).case_given(case, *final(self)),
    {
        if let Phase::NextCase { slot, filling } = self.phase {
            let n: usize = self.slots.len();
            assert(slot < n);
            proof {
                lemma_phases(self.slots@, slot);
            }
            if case.is_none() {
                self.exhausted = true;
            }
            self.phase = match case {
                Some(case) => Phase::Start { slot, case, filling },
                None => if filling {
                    self.phase_of_round()
                } else {
                    self.phase_after_check(slot)
                },
            };
        }
    }

    /// Whether the start of the case of the phase at a time leads to `after`.
    pub open spec fn case_started(self, now_ms: u64, after: DeviceRun) -> bool {
        &&& after.same_run(self)
        &&& after.exhausted == self.exhausted
        &&& self.phase matches Phase::Start { slot, case, filling } ==> {
            &&& after.slots@[slot as int].fresh(case, now_ms)
            &&& after.slots@ == self.slots@.update(slot as int, after.slots@[slot as int])
            &&& after.phase == after_start(after.slots@, slot, filling)
        }
        &&& after.in_flight() == self.in_flight()
    }

    /// The case of the phase was started in its slot at a time.
    pub fn on_started(&mut self, now_ms: u64)
        requires
            old(self).well_formed(),
            old(self).phase is Start,
        ensures
            final(self).well_formed(),
            old(self).case_started(now_ms, *final(self)),
    {
        if let Phase::Start { slot, case, filling } = self.phase {
            let n: usize = self.slots.len();
            assert(slot < n);
            let ghost before = self.slots@;
            self.slots[slot].start_job(case, now_ms);
            proof {
                lemma_active_update(before, slot as int, self.slots@[slot as int], 0);
                assert(self.slots@ =~= before.update(slot as int, self.slots@[slot as int]));
                lemma_phases(self.slots@, slot);
            }
            self.phase = if !filling {
                self.phase_after_check(slot)
            } else if slot + 1 < self.slots.len() {
                Phase::NextCase { slot: slot + 1, filling: true }
            } else {
                self.phase_of_round()
            };
        }
    }

    /// Whether a launch in the slot of the phase leads to `after`.
    pub open spec fn steps_launched(self, after: DeviceRun) -> bool {
        &&& after.same_run(self)
        &&& after.exhausted == self.exhausted
        &&& self.phase matches Phase::Launch { slot } ==> {
            let at = slot as int;
            &&& after.slots@ == self.slots@.update(at, after.slots@[at])
            &&& after.slots@[at].job == Some(
                (SlotJob {
                    launched_steps: launched_after(
                        self.slots@[at].job->0.launched_steps,
                        self.config.steps_per_launch,
                    ),
                    ..self.slots@[at].job->0
                }),
            )
            &&& after.slots@[at].emitted@ == self.slots@[at].emitted@
            &&& after.phase == after_launch(after.slots@, slot)
        }
        &&& after.in_flight() == self.in_flight()
    }

    /// The steps of one launch were handed to the device.
    pub fn on_launched(&mut self)
        requires
            old(self).well_formed(),
            old(self).phase is Launch,
        ensures
            final(self).well_formed(),
            old(self).steps_launched(*final(self)),
    {
        if let Phase::Launch { slot } = self.phase {
            let n: usize = self.slots.len();
            assert(slot < n);
            let ghost before = self.slots@;
            let steps: u32 = self.config.steps_per_launch;
            self.slots[slot].launch_sim(steps);
            proof {
                lemma_active_update(before, slot as int, self.slots@[slot as int], 0);
                assert(self.slots@ =~= before.update(slot as int, self.slots@[slot as int]));
                lemma_phases(self.slots@, slot);
            }
            self.phase = match self.first_active(slot + 1) {
                Some(next) => Phase::Launch { slot: next },
                None => match self.first_active(0) {
                    Some(first) => Phase::Synchronize { slot: first },
                    None => Phase::End,
                },
            };
        }
    }

    /// Whether the case of a slot is finished once so many trials have ended: all have, or all
    /// steps were launched.
    pub open spec fn case_done(self, slot: int, completed: int) -> bool {
        ||| completed == self.trial_count
        ||| self.slots@[slot].job->0.launched_steps >= self.config.max_steps
    }

    /// Whether the case of a slot is reported: it is finished, or its last report is old enough.
    pub open spec fn report_due(self, slot: int, completed: int, now_ms: u64) -> bool {
        ||| self.case_done(slot, completed)
        ||| since(self.slots@[slot].job->0.last_progress_ms, now_ms)
            >= self.config.progress_interval_ms
    }

    /// Whether `progress` reports the case of a slot.
    pub open spec fn reported(self, slot: int, completed: int, progress: GpuProgress) -> bool {
        let job = self.slots@[slot].job->0;
        &&& progress.case_id == job.case.case_id
        &&& progress.completed_trials == completed
        &&& progress.total_trials == self.trial_count
        &&& progress.current_steps == if job.launched_steps < self.config.max_steps {
            job.launched_steps
        } else {
            self.config.max_steps
        }
        &&& progress.status@ == if self.case_done(slot, completed) {
            "completed"@
        } else {
            "running"@
        }
    }

    /// Whether the counters of the slot of the phase lead to `after` and a report: the case is
    /// reported if it is due, and its trials are read if it is finished, or if more have ended than
    /// were handed on.
    pub open spec fn counters_read(
        self,
        passed: u64,
        stopped: u64,
        now_ms: u64,
        progress: Option<GpuProgress>,
        after: DeviceRun,
    ) -> bool {
        &&& after.same_run(self)
        &&& after.exhausted == self.exhausted
        &&& self.phase matches Phase::Synchronize { slot } ==> {
            let completed = passed + stopped;
            let at = slot as int;
            let done = self.case_done(at, completed);
            let report = self.report_due(at, completed, now_ms);
            &&& progress is Some <==> report
            &&& progress matches Some(row) ==> self.reported(at, completed, row)
            &&& after.slots@ == self.slots@.update(at, after.slots@[at])
            &&& after.slots@[at].job == Some(
                (SlotJob {
                    last_progress_ms: if report {
                        now_ms
                    } else {
                        self.slots@[at].job->0.last_progress_ms
                    },
                    ..self.slots@[at].job->0
                }),
            )
            &&& after.slots@[at].emitted == self.slots@[at].emitted
            &&& after.slots@[at].emitted_count == self.slots@[at].emitted_count
            &&& after.phase == if done || completed > self.slots@[at].emitted_count {
                Phase::ReadTrials { slot, done }
            } else {
                after_check(after.slots@, slot)
            }
        }
        &&& after.in_flight() == self.in_flight()
    }

    /// The launched steps of a slot have ended; `passed` and `stopped` trials have ended so far.
    pub fn on_counters(&mut self, passed: u64, stopped: u64, now_ms: u64) -> (progress: Option<
        GpuProgress,
    >)
        requires
            old(self).well_formed(),
            old(self).phase is Synchronize,
            passed + stopped <= u64::MAX,
            passed + stopped <= usize::MAX,
        ensures
            final(self).well_formed(),
            old(self).counters_read(passed, stopped, now_ms, progress, *final(self)),
    {
        let mut progress: Option<GpuProgress> = None;
        if let Phase::Synchronize { slot } = self.phase {
            let n: usize = self.slots.len();
            assert(slot < n);
            if let Some(job) = self.slots[slot].job {
                let ghost before = self.slots@;
                let completed: usize = (passed + stopped) as usize;
                let done = completed == self.trial_count || job.launched_steps
                    >= self.config.max_steps;
                let elapsed: u64 = now_ms.saturating_sub(job.last_progress_ms);
                if done || elapsed >= self.config.progress_interval_ms {
                    let current_steps: u64 = if job.launched_steps < self.config.max_steps {
                        job.launched_steps
                    } else {
                        self.config.max_steps
                    };
                    let status = if done {
                        "completed".to_owned()
                    } else {
                        "running".to_owned()
                    };
                    progress =
                    Some(
                        GpuProgress {
                            case_id: job.case.case_id,
                            completed_trials: completed,
                            total_trials: self.trial_count,
                            current_steps,
                            status,
                        },
                    );
                    self.slots[slot].job = Some(SlotJob { last_progress_ms: now_ms, ..job });
                }
                proof {
                    lemma_active_update(before, slot as int, self.slots@[slot as int], 0);
                    assert(self.slots@ =~= before.update(slot as int, self.slots@[slot as int]));
                    lemma_phases(self.slots@, slot);
                }
                self.phase = if done || completed > self.slots[slot].emitted_count {
                    Phase::ReadTrials { slot, done }
                } else {
                    self.phase_after_check(slot)
                };
            }
        }
        progress
    }

    /// Whether reading the trials of the slot of the phase leads to `after`, with `rows` to hand on.
    pub open spec fn trials_read(
        self,
        host: HostTrials,
        rows: Seq<TrialResult>,
        after: DeviceRun,
    ) -> bool {
        &&& after.same_run(self)
        &&& after.exhausted == self.exhausted
        &&& self.phase matches Phase::ReadTrials { slot, done } ==> {
            let at = slot as int;
            &&& rows == rows_due(
                host,
                self.config.device_id,
                self.slots@[at].job->0.case,
                self.slots@[at].emitted@,
                done,
                self.trial_count as nat,
            )
            &&& after.slots@ == self.slots@.update(at, after.slots@[at])
            &&& after.slots@[at].job == self.slots@[at].job
            &&& after.slots@[at].emitted@ == marked(self.slots@[at].emitted@, host.statuses@, done)
            &&& after.phase == if done {
                Phase::ReadHistograms { slot }
            } else {
                after_check(after.slots@, slot)
            }
            &&& done ==> after.held == Some(host)
        }
        &&& after.in_flight() == self.in_flight()
    }

    /// The trials of a slot were read. The rows are those to hand on now.
    pub fn on_trials(&mut self, host: HostTrials) -> (rows: Vec<TrialResult>)
        requires
            old(self).well_formed(),
            old(self).phase is ReadTrials,
            host.covers(old(self).trial_count as nat),
        ensures
            final(self).well_formed(),
            old(self).trials_read(host, rows@, *final(self)),
    {
        let mut rows: Vec<TrialResult> = Vec::new();
        if let Phase::ReadTrials { slot, done } = self.phase {
            let n: usize = self.slots.len();
            assert(slot < n);
            if let Some(job) = self.slots[slot].job {
                let ghost before = self.slots@;
                let device_id: usize = self.config.device_id;
                rows = self.slots[slot].collect_unemitted(device_id, job.case, done, &host);
                proof {
                    lemma_active_update(before, slot as int, self.slots@[slot as int], 0);
                    assert(self.slots@ =~= before.update(slot as int, self.slots@[slot as int]));
                    lemma_phases(self.slots@, slot);
                }
                if done {
                    self.held = Some(host);
                    self.phase = Phase::ReadHistograms { slot };
                } else {
                    self.phase = self.phase_after_check(slot);
                }
            }
        }
        rows
    }

    /// Whether reading the histograms of the slot of the phase leads to `after`: the slot is empty,
    /// and asks for the next case unless the queue was found empty.
    pub open spec fn histograms_read(self, after: DeviceRun) -> bool {
        &&& after.same_run(self)
        &&& after.exhausted == self.exhausted
        &&& self.phase matches Phase::ReadHistograms { slot } ==> {
            let at = slot as int;
            &&& after.slots@ == self.slots@.update(at, after.slots@[at])
            &&& after.slots@[at].job is None
            &&& after.phase == if self.exhausted {
                after_check(after.slots@, slot)
            } else {
                Phase::NextCase { slot, filling: false }
            }
        }
        &&& after.in_flight() == self.in_flight() - 1
    }

    /// Whether `output` is what the finished case in the slot of the phase gave.
    pub open spec fn case_output<K: Arithmetic>(
        self,
        k: &K,
        physics: Physics,
        hist_phi: Vec<u64>,
        hist_y: Vec<u64>,
        output: CaseOutput,
    ) -> bool {
        &&& output.hist_phi == hist_phi
        &&& output.hist_y == hist_y
        &&& self.phase matches Phase::ReadHistograms { slot } ==> summary_of_host(
            k,
            self.config.device_id,
            self.slots@[slot as int].job->0.case,
            self.trial_count,
            physics,
            self.held->0,
            output.summary,
        )
    }

    /// The histograms of a finished case were read. Its summary and its histograms are handed on.
    pub fn on_histograms<K: Arithmetic>(
        &mut self,
        k: &K,
        physics: &Physics,
        hist_phi: Vec<u64>,
        hist_y: Vec<u64>,
    ) -> (output: Option<CaseOutput>)
        requires
            old(self).well_formed(),
            old(self).phase is ReadHistograms,
        ensures
            final(self).well_formed(),
            old(self).histograms_read(*final(self)),
            output matches Some(out) && old(self).case_output(k, *physics, hist_phi, hist_y, out),
    {
        let mut output: Option<CaseOutput> = None;
        if let Phase::ReadHistograms { slot } = self.phase {
            let n: usize = self.slots.len();
            assert(slot < n);
            if let Some(job) = self.slots[slot].job {
                let ghost before = self.slots@;
                if let Some(host) = self.held.take() {
                    let summary = summarize_host(
                        k,
                        self.config.device_id,
                        job.case,
                        self.trial_count,
                        physics,
                        &host,
                    );
                    output = Some(CaseOutput { summary, hist_phi, hist_y });
                }
                self.slots[slot].job = None;
                proof {
                    lemma_active_update(before, slot as int, self.slots@[slot as int], 0);
                    assert(self.slots@ =~= before.update(slot as int, self.slots@[slot as int]));
                    lemma_phases(self.slots@, slot);
                }
                self.phase = if self.exhausted {
                    self.phase_after_check(slot)
                } else {
                    Phase::NextCase { slot, filling: false }
                };
            }
        }
        output
    }
}

/// The time from one moment to a later one; 0 if it is not later.
pub open spec fn since(from_ms: u64, now_ms: u64) -> u64 {
    if now_ms < from_ms {
        0
    } else {
        (now_ms - from_ms) as u64
    }
}

/// Whether a summary is that of the trials read from a device, in the way the mode asks for.
pub open spec fn summary_of_host<K: Arithmetic>(
    k: &K,
    device_id: usize,
    case: Case,
    n_total: usize,
    physics: Physics,
    host: HostTrials,
    summary: Summary,
) -> bool {
    match physics.mode {
        Mode::FirstPassage => summary matches Summary::FirstPassage(row) && first_passage_summary(
            k,
            Some(device_id),
            case,
            n_total,
            physics,
            host.times@,
            host.statuses@,
            host.pass_directions@,
            row,
        ),
        Mode::FixedTime => summary matches Summary::FixedTime(row) && fixed_time_summary(
            k,
            Some(device_id),
            case,
            n_total,
            physics,
            host.x0@,
            host.x@,
            row,
        ),
    }
}

/// Summarizes the trials read from a device in the way the mode asks for.
pub fn summarize_host<K: Arithmetic>(
    k: &K,
    device_id: usize,
    case: Case,
    n_total: usize,
    physics: &Physics,
    host: &HostTrials,
) -> (summary: Summary)
    ensures
        summary_of_host(k, device_id, case, n_total, *physics, *host, summary),
{
    match physics.mode {
        Mode::FirstPassage => Summary::FirstPassage(
            summarize_trials(
                k,
                Some(device_id),
                case,
                n_total,
                physics,
                &host.times,
                &host.statuses,
                &host.pass_directions,
            ),
        ),
        Mode::FixedTime => Summary::FixedTime(
            summarize_fixed_time(k, Some(device_id), case, n_total, physics, &host.x0, &host.x),
        ),
    }
}

pub(crate) proof fn lemma_all_idle(slots: Seq<StreamSlot>, from: int)
    requires
        0 <= from <= slots.len(),
        forall|i: int| from <= i < slots.len() ==> !(#[trigger] slots[i]).active(),
    ensures
        active_from(slots, from) == 0,
    decreases slots.len() - from,
{
    if from < slots.len() {
        lemma_all_idle(slots, from + 1);
    }
}

proof fn lemma_active_update(slots: Seq<StreamSlot>, at: int, slot: StreamSlot, from: int)
    requires
        0 <= at < slots.len(),
        0 <= from <= slots.len(),
    ensures
        active_from(slots.update(at, slot), from) == active_from(slots, from) + if at < from {
            0int
        } else {
            (if slot.active() {
                1int
            } else {
                0
            }) - (if slots[at].active() {
                1int
            } else {
                0
            })
        },
    decreases slots.len() - from,
{
    if from < slots.len() {
        lemma_active_update(slots, at, slot, from + 1);
    }
}

/// No running slot is passed over: the next one is the first that runs a case, and where there is
/// none, none does.
pub proof fn law_slots_in_turn(slots: Seq<StreamSlot>, from: int)
    requires
        0 <= from <= slots.len(),
    ensures
        match next_active(slots, from) {
            Some(i) => from <= i < slots.len() && slots[i].active() && forall|j: int|
                from <= j < i ==> !(#[trigger] slots[j]).active(),
            None => active_from(slots, from) == 0,
        },
    decreases slots.len() - from,
{
    if from < slots.len() {
        law_slots_in_turn(slots, from + 1);
    }
}

proof fn lemma_phases(slots: Seq<StreamSlot>, slot: usize)
    requires
        slot < slots.len(),
    ensures
        match next_active(slots, 0) {
            Some(i) => 0 <= i < slots.len() && slots[i].active(),
            None => active_from(slots, 0) == 0,
        },
        match next_active(slots, slot + 1) {
            Some(i) => slot < i < slots.len() && slots[i].active(),
            None => true,
        },
{
    law_slots_in_turn(slots, 0);
    law_slots_in_turn(slots, slot + 1);
}

} // verus!
