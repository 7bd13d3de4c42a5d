//! The whole course of a device run: every case that is taken from the queue is finished once, with
//! each of its trials handed on once, and an empty queue is not asked again.

use vstd::prelude::*;
use crate::config::Case;
use crate::device_run::{active_from, lemma_all_idle, DeviceRun, Phase};
use crate::gpu::{due, law_rows_due, rows_due, GpuProgress, HostTrials};
use crate::model::{count_of, CaseOutput, TrialResult};

verus! {

/// What a device run is told, with what it answers.
pub enum DeviceEvent {
    /// The answer of the queue.
    Queue { case: Option<Case> },
    Started { now_ms: u64 },
    Launched,
    Counters { passed: u64, stopped: u64, now_ms: u64, progress: Option<GpuProgress> },
    /// The trials that were read, and the results that were handed on.
    Trials { host: HostTrials, rows: Seq<TrialResult> },
    /// The output that was handed on with the histograms.
    Histograms { output: CaseOutput },
}

impl DeviceRun {
    /// Whether an event leads from this state to `after`.
    pub open spec fn follows(self, event: DeviceEvent, after: DeviceRun) -> bool {
        match event {
            DeviceEvent::Queue { case } => self.phase is NextCase && self.case_given(case, after),
            DeviceEvent::Started { now_ms } => self.phase is Start && self.case_started(
                now_ms,
                after,
            ),
            DeviceEvent::Launched => self.phase is Launch && self.steps_launched(after),
            DeviceEvent::Counters { passed, stopped, now_ms, progress } => self.phase is Synchronize
                && self.counters_read(passed, stopped, now_ms, progress, after),
            DeviceEvent::Trials { host, rows } => self.phase is ReadTrials && self.trials_read(
                host,
                rows,
                after,
            ),
            DeviceEvent::Histograms { output } => {
                &&& self.phase matches Phase::ReadHistograms { slot }
                    && output.summary.case_id_spec()
                    == self.slots@[slot as int].job->0.case.case_id
                &&& self.histograms_read(after)
            },
        }
    }

    /// Whether a slot has a case: it runs one, or one is being started in it.
    pub open spec fn has_case(self, slot: int) -> bool {
        ||| self.slots@[slot].active()
        ||| self.phase matches Phase::Start { slot: at, .. } && at == slot
    }

    /// The case of a slot.
    pub open spec fn case_in(self, slot: int) -> Case {
        if self.slots@[slot].active() {
            self.slots@[slot].job->0.case
        } else {
            self.phase->Start_case
        }
    }
}

/// Whether event `i` of a course leads from one state to the next.
pub open spec fn moved_between(runs: Seq<DeviceRun>, events: Seq<DeviceEvent>, i: int) -> bool {
    runs[i].follows(events[i], runs[i + 1])
}

/// The states of a device run along its events, from a run that has no case yet.
pub open spec fn course(runs: Seq<DeviceRun>, events: Seq<DeviceEvent>) -> bool {
    &&& runs.len() == events.len() + 1
    &&& runs[0].phase == Phase::NextCase { slot: 0, filling: true }
    &&& !runs[0].exhausted
    &&& forall|slot: int|
        0 <= slot < runs[0].slots@.len() ==> !(#[trigger] runs[0].slots@[slot]).active()
    &&& forall|i: int| 0 <= i < runs.len() ==> (#[trigger] runs[i]).well_formed()
    &&& forall|i: int| 0 <= i < events.len() ==> #[trigger] moved_between(runs, events, i)
}

// ---- What happens to a slot ----

/// Whether event `i` takes a case from the queue for a slot.
pub open spec fn takes(
    runs: Seq<DeviceRun>,
    events: Seq<DeviceEvent>,
    slot: int,
    i: int,
) -> bool {
    &&& events[i] matches DeviceEvent::Queue { case } && case is Some
    &&& runs[i].phase matches Phase::NextCase { slot: at, .. } && at == slot
}

/// The case that event `i` takes from the queue.
pub open spec fn case_taken(events: Seq<DeviceEvent>, i: int) -> Case {
    events[i]->case->0
}

/// Whether event `i` finishes the case in a slot.
pub open spec fn finishes(
    runs: Seq<DeviceRun>,
    events: Seq<DeviceEvent>,
    slot: int,
    i: int,
) -> bool {
    &&& events[i] is Histograms
    &&& runs[i].phase matches Phase::ReadHistograms { slot: at } && at == slot
}

/// Whether some results hold that of a trial.
pub open spec fn holds_trial(rows: Seq<TrialResult>, trial: int) -> bool {
    exists|r: int| 0 <= r < rows.len() && (#[trigger] rows[r]).trial_id == trial
}

/// Whether event `i` hands on a trial of the case in a slot.
pub open spec fn hands_on(
    runs: Seq<DeviceRun>,
    events: Seq<DeviceEvent>,
    slot: int,
    trial: int,
    i: int,
) -> bool {
    &&& events[i] matches DeviceEvent::Trials { rows, .. } && holds_trial(rows, trial)
    &&& runs[i].phase matches Phase::ReadTrials { slot: at, .. } && at == slot
}

/// How often the events from `from` to `n` hand on a trial of the case in a slot.
pub open spec fn times_handed_on(
    runs: Seq<DeviceRun>,
    events: Seq<DeviceEvent>,
    slot: int,
    trial: int,
    from: int,
    n: int,
) -> nat
    decreases n - from,
{
    if n <= from {
        0
    } else {
        times_handed_on(runs, events, slot, trial, from, n - 1) + if hands_on(
            runs,
            events,
            slot,
            trial,
            n - 1,
        ) {
            1nat
        } else {
            0
        }
    }
}

/// The event among the first `n` that took the case which a slot has after them, if it has one.
pub open spec fn taken_by(
    runs: Seq<DeviceRun>,
    events: Seq<DeviceEvent>,
    slot: int,
    n: int,
) -> Option<int>
    decreases n,
{
    if n <= 0 {
        None
    } else if takes(runs, events, slot, n - 1) {
        Some(n - 1)
    } else if finishes(runs, events, slot, n - 1) {
        None
    } else {
        taken_by(runs, events, slot, n - 1)
    }
}

/// Whether the case that event `i` took for a slot is finished by event `f`: the slot had it all the
/// time in between, its output carries its number, and each of its trials was handed on once before.
pub open spec fn case_course(
    runs: Seq<DeviceRun>,
    events: Seq<DeviceEvent>,
    slot: int,
    i: int,
    f: int,
) -> bool {
    &&& 0 <= i < f < events.len()
    &&& takes(runs, events, slot, i)
    &&& finishes(runs, events, slot, f)
    &&& taken_by(runs, events, slot, f) == Some(i)
    &&& runs[f].case_in(slot) == case_taken(events, i)
    &&& events[f] matches DeviceEvent::Histograms { output } && output.summary.case_id_spec()
        == case_taken(events, i).case_id
    &&& forall|trial: int|
        0 <= trial < runs[0].trial_count ==> #[trigger] times_handed_on(
            runs,
            events,
            slot,
            trial,
            i,
            f,
        ) == 1
}

proof fn lemma_same_run(runs: Seq<DeviceRun>, events: Seq<DeviceEvent>, n: int)
    requires
        course(runs, events),
        0 <= n <= events.len(),
    ensures
        runs[n].same_run(runs[0]),
    decreases n,
{
    if n > 0 {
        lemma_same_run(runs, events, n - 1);
        assert(moved_between(runs, events, n - 1));
    }
}

proof fn lemma_handed_rows(run: DeviceRun, host: HostTrials, rows: Seq<TrialResult>, trial: int)
    requires
        run.well_formed(),
        run.phase is ReadTrials,
        0 <= trial < run.trial_count,
        rows == rows_due(
            host,
            run.config.device_id,
            run.slots@[run.phase->ReadTrials_slot as int].job->0.case,
            run.slots@[run.phase->ReadTrials_slot as int].emitted@,
            run.phase->done,
            run.trial_count as nat,
        ),
    ensures
        holds_trial(rows, trial) == due(
            run.slots@[run.phase->ReadTrials_slot as int].emitted@,
            host.statuses@,
            run.phase->done,
            trial,
        ),
{
    let at = run.phase->ReadTrials_slot as int;
    let case = run.slots@[at].job->0.case;
    let emitted = run.slots@[at].emitted@;
    let done = run.phase->done;
    let n = run.trial_count as nat;
    law_rows_due(host, run.config.device_id, case, emitted, done, n);
    if due(emitted, host.statuses@, done, trial) {
        let wanted = host.result_at(run.config.device_id, case, trial);
        assert(rows.contains(wanted));
        let r = choose|r: int| 0 <= r < rows.len() && rows[r] == wanted;
        assert(rows[r].trial_id == trial);
    }
}

/// A slot has the case that was taken for it last and not finished since, and its marks tell which
/// trials were handed on.
proof fn lemma_slot(
    runs: Seq<DeviceRun>,
    events: Seq<DeviceEvent>,
    slot: int,
    trial: int,
    n: int,
)
    requires
        course(runs, events),
        0 <= n <= events.len(),
        0 <= slot < runs[0].slots@.len(),
        0 <= trial < runs[0].trial_count,
    ensures
        match taken_by(runs, events, slot, n) {
            None => !runs[n].has_case(slot),
            Some(i) => {
                &&& 0 <= i < n
                &&& takes(runs, events, slot, i)
                &&& runs[n].has_case(slot)
                &&& runs[n].case_in(slot) == case_taken(events, i)
                &&& times_handed_on(runs, events, slot, trial, i, n) == if runs[n].slots@[slot].active()
                    && runs[n].slots@[slot].emitted@[trial] {
                    1nat
                } else {
                    0
                }
            },
        },
    decreases n,
{
    lemma_same_run(runs, events, n);
    if n > 0 {
        let i = n - 1;
        let run = runs[i];
        let after = runs[n];
        lemma_same_run(runs, events, i);
        lemma_slot(runs, events, slot, trial, i);
        assert(moved_between(runs, events, i));
        assert(run.well_formed());
        assert(after.well_formed());
        assert(run.slots@[slot].well_formed(run.trial_count as nat));
        assert(after.slots@[slot].well_formed(run.trial_count as nat));
        match events[i] {
            DeviceEvent::Queue { case } => {
                if takes(runs, events, slot, i) {
                    assert(times_handed_on(runs, events, slot, trial, i, i) == 0);
                }
            },
            DeviceEvent::Started { now_ms } => {
                assert(run.phase->Start_slot < run.slots@.len());
            },
            DeviceEvent::Launched => {},
            DeviceEvent::Counters { passed, stopped, now_ms, progress } => {},
            DeviceEvent::Trials { host, rows } => {
                lemma_handed_rows(run, host, rows, trial);
            },
            DeviceEvent::Histograms { output } => {},
        }
    }
}

proof fn lemma_taken_later(
    runs: Seq<DeviceRun>,
    events: Seq<DeviceEvent>,
    slot: int,
    f: int,
    n: int,
)
    requires
        finishes(runs, events, slot, f),
        0 <= f < n,
    ensures
        taken_by(runs, events, slot, n) matches Some(i) ==> i > f,
    decreases n,
{
    if n > f + 1 {
        lemma_taken_later(runs, events, slot, f, n - 1);
    }
}

proof fn lemma_finished_or_kept(
    runs: Seq<DeviceRun>,
    events: Seq<DeviceEvent>,
    slot: int,
    i: int,
    n: int,
) -> (f: int)
    requires
        course(runs, events),
        0 <= i < n <= events.len(),
        0 <= slot < runs[0].slots@.len(),
        takes(runs, events, slot, i),
    ensures
        taken_by(runs, events, slot, n) == Some(i) || (i < f < n && finishes(
            runs,
            events,
            slot,
            f,
        ) && taken_by(runs, events, slot, f) == Some(i)),
    decreases n,
{
    if n == i + 1 {
        i
    } else {
        let f = lemma_finished_or_kept(runs, events, slot, i, n - 1);
        if taken_by(runs, events, slot, n - 1) == Some(i) {
            lemma_same_run(runs, events, n - 1);
            assert(runs[n - 1].well_formed());
            lemma_slot(runs, events, slot, 0, n - 1);
            n - 1
        } else {
            f
        }
    }
}

// ---- Laws ----

/// What finishes a case finishes one that was taken from the queue, with each of its trials handed
/// on once before.
pub proof fn law_finished_case_was_taken(
    runs: Seq<DeviceRun>,
    events: Seq<DeviceEvent>,
    slot: int,
    f: int,
)
    requires
        course(runs, events),
        0 <= f < events.len(),
        finishes(runs, events, slot, f),
    ensures
        taken_by(runs, events, slot, f) matches Some(i) && case_course(runs, events, slot, i, f),
{
    lemma_same_run(runs, events, f);
    assert(runs[f].well_formed());
    assert(runs[0].well_formed());
    assert(moved_between(runs, events, f));
    lemma_slot(runs, events, slot, 0, f);
    let i = taken_by(runs, events, slot, f)->0;
    assert forall|trial: int| 0 <= trial < runs[0].trial_count implies #[trigger] times_handed_on(
        runs,
        events,
        slot,
        trial,
        i,
        f,
    ) == 1 by {
        lemma_slot(runs, events, slot, trial, f);
        assert(runs[f].slots@[slot].well_formed(runs[0].trial_count as nat));
        assert(runs[f].slots@[slot].emitted@[trial]);
    }
}

/// In a run that came to its end, every case that was taken from the queue is finished, once, with
/// each of its trials handed on once before.
pub proof fn law_taken_case_is_finished_once(
    runs: Seq<DeviceRun>,
    events: Seq<DeviceEvent>,
    slot: int,
    i: int,
)
    requires
        course(runs, events),
        runs.last().phase is End,
        0 <= i < events.len(),
        takes(runs, events, slot, i),
    ensures
        exists|f: int|
            #[trigger] case_course(runs, events, slot, i, f) && forall|g: int|
                #[trigger] case_course(runs, events, slot, i, g) ==> g == f,
{
    let n = events.len() as int;
    lemma_same_run(runs, events, i);
    lemma_same_run(runs, events, n);
    assert(runs[0].well_formed());
    assert(runs[i].well_formed());
    assert(runs[n].well_formed());
    let f = lemma_finished_or_kept(runs, events, slot, i, n);
    lemma_slot(runs, events, slot, 0, n);
    lemma_none_active(runs[n], 0, slot);
    law_finished_case_was_taken(runs, events, slot, f);
    assert forall|g: int| #[trigger] case_course(runs, events, slot, i, g) implies g == f by {
        if f < g {
            lemma_taken_later(runs, events, slot, f, g);
        } else if g < f {
            lemma_taken_later(runs, events, slot, g, f);
        }
    }
}

proof fn lemma_none_active(run: DeviceRun, from: int, slot: int)
    requires
        active_from(run.slots@, from) == 0,
        0 <= from <= slot < run.slots@.len(),
    ensures
        !run.slots@[slot].active(),
    decreases slot - from,
{
    if from < slot {
        lemma_none_active(run, from + 1, slot);
    }
}

/// As many cases are finished in a run that came to its end as were taken from the queue.
pub proof fn law_all_cases_finish(runs: Seq<DeviceRun>, events: Seq<DeviceEvent>)
    requires
        course(runs, events),
        runs.last().phase is End,
    ensures
        count_of(
            events.len(),
            |i: int| events[i] matches DeviceEvent::Queue { case } && case is Some,
        ) == count_of(events.len(), |i: int| events[i] is Histograms),
{
    lemma_flight(runs, events, events.len());
}

proof fn lemma_flight(runs: Seq<DeviceRun>, events: Seq<DeviceEvent>, n: nat)
    requires
        course(runs, events),
        n <= events.len(),
    ensures
        count_of(n, |i: int| events[i] matches DeviceEvent::Queue { case } && case is Some)
            == count_of(n, |i: int| events[i] is Histograms) + runs[n as int].in_flight(),
    decreases n,
{
    if n > 0 {
        lemma_flight(runs, events, (n - 1) as nat);
        assert(moved_between(runs, events, n - 1));
    } else {
        lemma_all_idle(runs[0].slots@, 0);
    }
}

/// Once the queue has answered that no case is left, it is not asked again and no case is started.
pub proof fn law_empty_queue_is_final(
    runs: Seq<DeviceRun>,
    events: Seq<DeviceEvent>,
    i: int,
    j: int,
)
    requires
        course(runs, events),
        0 <= i < j < runs.len(),
        events[i] == (DeviceEvent::Queue { case: None }),
    ensures
        !(runs[j].phase is NextCase),
        !(runs[j].phase is Start),
{
    lemma_stays_exhausted(runs, events, i, j);
    assert(runs[j].well_formed());
}

proof fn lemma_stays_exhausted(runs: Seq<DeviceRun>, events: Seq<DeviceEvent>, i: int, j: int)
    requires
        course(runs, events),
        0 <= i < j < runs.len(),
        events[i] == (DeviceEvent::Queue { case: None }),
    ensures
        runs[j].exhausted,
    decreases j,
{
    assert(moved_between(runs, events, j - 1));
    if i < j - 1 {
        lemma_stays_exhausted(runs, events, i, j - 1);
    }
}

} // verus!
