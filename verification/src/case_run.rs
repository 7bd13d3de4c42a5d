//! All trials of one case, from the first to the summary.

use vstd::prelude::*;
use crate::cases::seed_of;
use crate::config::{Case, Mode, Physics, HIST_PHI_BINS, HIST_X_BINS, HIST_Y_BINS};
use crate::double::Double;
use crate::formula::Arithmetic;
use crate::histogram::{column, law_empty_holds_votes, summed, total, Histograms};
use crate::model::{
    first_passage_summary, fixed_time_summary, summarize_fixed_time, summarize_trials, CaseOutput,
    Summary, TrialResult,
};
use crate::trial::{law_votes_of_trial, run_trial, steps_recorded, trial_run};

verus! {

// ---- Seeds ----

/// The seed of one trial of a case.
pub open spec fn trial_seed_of(case_seed: u64, trial_id: u64) -> u64 {
    ((case_seed + trial_id) % 0x1_0000_0000_0000_0000) as u64
}

/// The seed of one trial of a case.
pub fn trial_seed(case_seed: u64, trial_id: u64) -> (seed: u64)
    ensures
        seed == trial_seed_of(case_seed, trial_id),
{
    case_seed.wrapping_add(trial_id)
}

/// No two trials of a case share a seed.
pub proof fn law_trial_seeds_differ(case_seed: u64, a: u64, b: u64)
    requires
        a != b,
    ensures
        trial_seed_of(case_seed, a) != trial_seed_of(case_seed, b),
{
}

// ---- Order ----

/// A list with one more trial, behind all whose number is not larger.
pub open spec fn inserted(trials: Seq<TrialResult>, trial: TrialResult) -> Seq<TrialResult>
    decreases trials.len(),
{
    if trials.len() == 0 || trials.last().trial_id <= trial.trial_id {
        trials.push(trial)
    } else {
        inserted(trials.drop_last(), trial).push(trials.last())
    }
}

/// The trials in the order of their numbers; those with one number stay as they were.
pub open spec fn in_id_order(trials: Seq<TrialResult>) -> Seq<TrialResult>
    decreases trials.len(),
{
    if trials.len() == 0 {
        Seq::empty()
    } else {
        inserted(in_id_order(trials.drop_last()), trials.last())
    }
}

/// Whether the numbers of the trials never go down.
pub open spec fn ids_ascend(trials: Seq<TrialResult>) -> bool {
    forall|i: int, j: int|
        0 <= i < j < trials.len() ==> (#[trigger] trials[i]).trial_id <= (
        #[trigger] trials[j]).trial_id
}

/// Whether no two trials share a number.
pub open spec fn ids_differ(trials: Seq<TrialResult>) -> bool {
    forall|i: int, j: int|
        0 <= i < j < trials.len() ==> (#[trigger] trials[i]).trial_id != (
        #[trigger] trials[j]).trial_id
}

proof fn lemma_inserted_at(trials: Seq<TrialResult>, trial: TrialResult, at: int)
    requires
        0 <= at <= trials.len(),
        at > 0 ==> trials[at - 1].trial_id <= trial.trial_id,
        forall|i: int| at <= i < trials.len() ==> trials[i].trial_id > trial.trial_id,
    ensures
        inserted(trials, trial) == trials.insert(at, trial),
    decreases trials.len(),
{
    if at < trials.len() {
        lemma_inserted_at(trials.drop_last(), trial, at);
        assert(trials.drop_last().insert(at, trial).push(trials.last()) =~= trials.insert(
            at,
            trial,
        ));
    } else {
        assert(trials.push(trial) =~= trials.insert(at, trial));
    }
}

proof fn lemma_inserted(trials: Seq<TrialResult>, trial: TrialResult)
    requires
        ids_ascend(trials),
    ensures
        ids_ascend(inserted(trials, trial)),
        inserted(trials, trial).to_multiset() == trials.to_multiset().insert(trial),
        inserted(trials, trial).len() == trials.len() + 1,
        trials.len() > 0 ==> inserted(trials, trial).last().trial_id == if trials.last().trial_id
            <= trial.trial_id {
            trial.trial_id
        } else {
            trials.last().trial_id
        },
        trials.len() == 0 ==> inserted(trials, trial).last() == trial,
    decreases trials.len(),
{
    broadcast use vstd::multiset::group_multiset_axioms;

    if trials.len() == 0 || trials.last().trial_id <= trial.trial_id {
        trials.to_multiset_ensures();
    } else {
        let front = trials.drop_last();
        lemma_inserted(front, trial);
        let moved = inserted(front, trial);
        moved.to_multiset_ensures();
        front.to_multiset_ensures();
        assert(front.push(trials.last()) =~= trials);
        assert(trials.to_multiset().insert(trial) =~= front.to_multiset().insert(trial).insert(
            trials.last(),
        ));
        assert forall|i: int, j: int|
            0 <= i < j < moved.push(trials.last()).len() implies (#[trigger] moved.push(
            trials.last(),
        )[i]).trial_id <= (#[trigger] moved.push(trials.last())[j]).trial_id by {
            if i < moved.len() - 1 {
                assert(moved[i].trial_id <= moved[moved.len() - 1].trial_id);
            }
            if j < moved.len() {
                assert(moved[i].trial_id <= moved[j].trial_id);
            }
        }
    }
}

/// Putting trials in order keeps each of them and leaves their numbers ascending.
pub proof fn law_id_order(trials: Seq<TrialResult>)
    ensures
        ids_ascend(in_id_order(trials)),
        in_id_order(trials).to_multiset() == trials.to_multiset(),
        in_id_order(trials).len() == trials.len(),
    decreases trials.len(),
{
    broadcast use vstd::multiset::group_multiset_axioms;

    if trials.len() == 0 {
        assert(trials =~= Seq::<TrialResult>::empty());
    } else {
        let front = trials.drop_last();
        law_id_order(front);
        lemma_inserted(in_id_order(front), trials.last());
        front.to_multiset_ensures();
        assert(front.push(trials.last()) =~= trials);
    }
}

/// Trials with numbers of their own come out in one order, whatever the order was in which they
/// were collected.
pub proof fn law_id_order_is_unique(a: Seq<TrialResult>, b: Seq<TrialResult>)
    requires
        ids_differ(a),
        a.to_multiset() == b.to_multiset(),
    ensures
        in_id_order(a) == in_id_order(b),
{
    law_id_order(a);
    law_id_order(b);
    lemma_ids_differ(a, in_id_order(a));
    lemma_one_order(in_id_order(a), in_id_order(b));
}

proof fn lemma_ids_differ(a: Seq<TrialResult>, b: Seq<TrialResult>)
    requires
        ids_differ(a),
        a.to_multiset() == b.to_multiset(),
    ensures
        ids_differ(b),
    decreases a.len(),
{
    broadcast use vstd::multiset::group_multiset_axioms;

    a.to_multiset_ensures();
    b.to_multiset_ensures();
    assert forall|i: int, j: int| 0 <= i < j < b.len() implies (#[trigger] b[i]).trial_id != (
    #[trigger] b[j]).trial_id by {
        if b[i].trial_id == b[j].trial_id {
            assert(b.contains(b[i]));
            assert(b.contains(b[j]));
            assert(a.to_multiset().count(b[i]) > 0);
            assert(a.to_multiset().count(b[j]) > 0);
            assert(a.contains(b[i]));
            assert(a.contains(b[j]));
            let p = choose|p: int| 0 <= p < a.len() && a[p] == b[i];
            let q = choose|q: int| 0 <= q < a.len() && a[q] == b[j];
            assert(p == q);
            // Both places of `b` hold the one trial `a[p]`, which `a` holds only once.
            let rest = b.remove(i);
            assert(rest[j - 1] == a[p]);
            rest.to_multiset_ensures();
            assert(rest.contains(a[p]));
            assert(rest.to_multiset().count(a[p]) > 0);
            let left = a.remove(p);
            left.to_multiset_ensures();
            assert(left.to_multiset().count(a[p]) > 0);
            assert(left.contains(a[p]));
            let r = choose|r: int| 0 <= r < left.len() && left[r] == a[p];
            if r < p {
                assert(a[r].trial_id != a[p].trial_id);
            } else {
                assert(a[p].trial_id != a[r + 1].trial_id);
            }
            assert(false);
        }
    }
}

proof fn lemma_one_order(a: Seq<TrialResult>, b: Seq<TrialResult>)
    requires
        ids_ascend(a),
        ids_ascend(b),
        ids_differ(a),
        a.to_multiset() == b.to_multiset(),
    ensures
        a == b,
    decreases a.len(),
{
    broadcast use vstd::multiset::group_multiset_axioms;

    a.to_multiset_ensures();
    b.to_multiset_ensures();
    assert(a.len() == b.len());
    if a.len() == 0 {
        assert(a =~= b);
    } else {
        lemma_ids_differ(a, b);
        let n = a.len() - 1;
        assert(a.contains(a[n]));
        assert(b.contains(b[n]));
        assert(b.to_multiset().count(a[n]) > 0);
        assert(a.to_multiset().count(b[n]) > 0);
        assert(b.contains(a[n]));
        assert(a.contains(b[n]));
        let p = choose|p: int| 0 <= p < b.len() && b[p] == a[n];
        let q = choose|q: int| 0 <= q < a.len() && a[q] == b[n];
        assert(b[p].trial_id <= b[n].trial_id);
        assert(a[q].trial_id <= a[n].trial_id);
        assert(p == n);
        assert(a.drop_last() =~= a.remove(n));
        assert(b.drop_last() =~= b.remove(n));
        lemma_one_order(a.drop_last(), b.drop_last());
        assert(a =~= a.drop_last().push(a[n]));
        assert(b =~= b.drop_last().push(b[n]));
    }
}

/// Puts trials in the order of their numbers.
///
/// Trials arrive almost in order, so each one is moved from the back to its place.
pub fn sort_by_id(trials: &Vec<TrialResult>) -> (sorted: Vec<TrialResult>)
    ensures
        sorted@ == in_id_order(trials@),
{
    let mut sorted: Vec<TrialResult> = Vec::new();
    let mut i: usize = 0;
    assert(trials@.take(0) =~= Seq::<TrialResult>::empty());
    while i < trials.len()
        invariant
            i <= trials.len(),
            sorted.len() == i,
            sorted@ == in_id_order(trials@.take(i as int)),
        decreases trials.len() - i,
    {
        let trial = trials[i];
        let mut at: usize = sorted.len();
        while at > 0 && sorted[at - 1].trial_id > trial.trial_id
            invariant
                at <= sorted.len(),
                forall|j: int| at <= j < sorted.len() ==> sorted@[j].trial_id > trial.trial_id,
            decreases at,
        {
            at = at - 1;
        }
        proof {
            lemma_inserted_at(sorted@, trial, at as int);
            assert(trials@.take(i + 1).drop_last() =~= trials@.take(i as int));
        }
        sorted.insert(at, trial);
        i = i + 1;
    }
    assert(trials@.take(i as int) =~= trials@);
    sorted
}

// ---- Collecting ----

/// The trials of a case so far, and their histograms.
#[derive(Clone, Debug)]
pub struct CaseAccumulator {
    pub trials: Vec<TrialResult>,
    pub hist: Histograms,
}

/// A trial with a number.
pub open spec fn numbered(trial: TrialResult, trial_id: u64) -> TrialResult {
    TrialResult { trial_id, ..trial }
}

impl CaseAccumulator {
    /// The histograms are well-formed.
    pub open spec fn well_formed(self) -> bool {
        self.hist.well_formed()
    }

    /// Whether `after` holds one more trial, run with its own seed.
    pub open spec fn trial_added<K: Arithmetic>(
        self,
        k: &K,
        case: Case,
        physics: Physics,
        trial_id: u64,
        stride: u32,
        after: CaseAccumulator,
    ) -> bool {
        exists|trial: TrialResult|
            {
                &&& #[trigger] trial_run(
                    k,
                    case,
                    physics,
                    trial_seed_of(seed_of(case.m, case.gamma, case.delta, case.f), trial_id),
                    stride,
                    self.hist,
                    trial,
                    after.hist,
                )
                &&& after.trials@ == self.trials@.push(numbered(trial, trial_id))
            }
    }

    /// No trial and no vote.
    pub fn new() -> (accum: CaseAccumulator)
        ensures
            accum.well_formed(),
            accum.trials@ == Seq::<TrialResult>::empty(),
            accum.hist.empty(),
    {
        CaseAccumulator { trials: Vec::new(), hist: Histograms::new() }
    }

    /// Runs one trial of a case and keeps its result.
    pub fn add_trial<K: Arithmetic>(
        &mut self,
        k: &K,
        case: Case,
        physics: Physics,
        trial_id: u64,
        hist_stride: u32,
    )
        requires
            old(self).well_formed(),
            0 < physics.n_wall <= i64::MAX,
            case.m > i32::MIN,
        ensures
            final(self).well_formed(),
            old(self).trial_added(k, case, physics, trial_id, hist_stride, *final(self)),
    {
        let seed: u64 = trial_seed(case.seed(), trial_id);
        let mut trial = run_trial(k, case, physics, seed, hist_stride, &mut self.hist);
        let ghost ran = trial;
        trial.trial_id = trial_id;
        self.trials.push(trial);
        assert(self.trials@ == old(self).trials@.push(numbered(ran, trial_id)));
        assert(trial_run(
            k,
            case,
            physics,
            trial_seed_of(seed_of(case.m, case.gamma, case.delta, case.f), trial_id),
            hist_stride,
            old(self).hist,
            ran,
            self.hist,
        ));
    }

    /// Puts the trials and votes of another part behind those of this one.
    pub fn merge(self, other: CaseAccumulator) -> (both: CaseAccumulator)
        requires
            self.well_formed(),
            other.well_formed(),
        ensures
            both.well_formed(),
            both.trials@ == self.trials@ + other.trials@,
            both.hist.phi@ == summed(self.hist.phi@, other.hist.phi@),
            both.hist.y@ == summed(self.hist.y@, other.hist.y@),
            both.hist.votes == self.hist.votes.wrapping_add(other.hist.votes),
    {
        let mut trials = self.trials;
        let mut more = other.trials;
        trials.append(&mut more);
        let mut hist = self.hist;
        hist.merge(&other.hist);
        CaseAccumulator { trials, hist }
    }
}

// ---- Finishing ----

/// What one case gave.
#[derive(Debug)]
pub struct CpuCaseResult {
    pub trials: Vec<TrialResult>,
    pub case_output: CaseOutput,
    pub max_trial_steps: u64,
}

/// The largest step count of the trials; 0 without trials.
pub open spec fn max_steps_of(trials: Seq<TrialResult>) -> u64
    decreases trials.len(),
{
    if trials.len() == 0 {
        0
    } else {
        let front = max_steps_of(trials.drop_last());
        if trials.last().steps > front {
            trials.last().steps
        } else {
            front
        }
    }
}

fn largest_steps(trials: &Vec<TrialResult>) -> (steps: u64)
    ensures
        steps == max_steps_of(trials@),
{
    let mut steps: u64 = 0;
    let mut i: usize = 0;
    assert(trials@.take(0) =~= Seq::<TrialResult>::empty());
    while i < trials.len()
        invariant
            i <= trials.len(),
            steps == max_steps_of(trials@.take(i as int)),
        decreases trials.len() - i,
    {
        assert(trials@.take(i + 1).drop_last() =~= trials@.take(i as int));
        if trials[i].steps > steps {
            steps = trials[i].steps;
        }
        i = i + 1;
    }
    assert(trials@.take(i as int) =~= trials@);
    steps
}

/// Whether a summary is that of the trials of a case, in the way its mode asks for.
pub open spec fn summary_of_trials<K: Arithmetic>(
    k: &K,
    case: Case,
    n_total: usize,
    physics: Physics,
    trials: Seq<TrialResult>,
    summary: Summary,
) -> bool {
    match physics.mode {
        Mode::FirstPassage => summary matches Summary::FirstPassage(row) && first_passage_summary(
            k,
            None,
            case,
            n_total,
            physics,
            trials.map_values(|trial: TrialResult| trial.t),
            trials.map_values(|trial: TrialResult| trial.status),
            trials.map_values(|trial: TrialResult| trial.pass_direction),
            row,
        ),
        Mode::FixedTime => summary matches Summary::FixedTime(row) && fixed_time_summary(
            k,
            None,
            case,
            n_total,
            physics,
            trials.map_values(|trial: TrialResult| trial.x0),
            trials.map_values(|trial: TrialResult| trial.x_end),
            row,
        ),
    }
}

/// Summarizes the trials of a case in the way its mode asks for.
pub fn summarize_case<K: Arithmetic>(
    k: &K,
    case: Case,
    n_total: usize,
    physics: &Physics,
    trials: &Vec<TrialResult>,
) -> (summary: Summary)
    ensures
        summary_of_trials(k, case, n_total, *physics, trials@, summary),
{
    let mut times: Vec<Double> = Vec::new();
    let mut statuses: Vec<i32> = Vec::new();
    let mut directions: Vec<i32> = Vec::new();
    let mut starts: Vec<Double> = Vec::new();
    let mut ends: Vec<Double> = Vec::new();
    let mut i: usize = 0;
    while i < trials.len()
        invariant
            i <= trials.len(),
            times.len() == i,
            statuses.len() == i,
            directions.len() == i,
            starts.len() == i,
            ends.len() == i,
            forall|j: int| 0 <= j < i ==> times@[j] == (#[trigger] trials@[j]).t,
            forall|j: int| 0 <= j < i ==> statuses@[j] == (#[trigger] trials@[j]).status,
            forall|j: int| 0 <= j < i ==> directions@[j] == (#[trigger] trials@[j]).pass_direction,
            forall|j: int| 0 <= j < i ==> starts@[j] == (#[trigger] trials@[j]).x0,
            forall|j: int| 0 <= j < i ==> ends@[j] == (#[trigger] trials@[j]).x_end,
        decreases trials.len() - i,
    {
        times.push(trials[i].t);
        statuses.push(trials[i].status);
        directions.push(trials[i].pass_direction);
        starts.push(trials[i].x0);
        ends.push(trials[i].x_end);
        i = i + 1;
    }
    assert(times@ =~= trials@.map_values(|trial: TrialResult| trial.t));
    assert(statuses@ =~= trials@.map_values(|trial: TrialResult| trial.status));
    assert(directions@ =~= trials@.map_values(|trial: TrialResult| trial.pass_direction));
    assert(starts@ =~= trials@.map_values(|trial: TrialResult| trial.x0));
    assert(ends@ =~= trials@.map_values(|trial: TrialResult| trial.x_end));
    match physics.mode {
        Mode::FirstPassage => Summary::FirstPassage(
            summarize_trials(k, None, case, n_total, physics, &times, &statuses, &directions),
        ),
        Mode::FixedTime => Summary::FixedTime(
            summarize_fixed_time(k, None, case, n_total, physics, &starts, &ends),
        ),
    }
}

/// Whether `result` is what the trials of an accumulator give for a case.
pub open spec fn finished<K: Arithmetic>(
    k: &K,
    accum: CaseAccumulator,
    case: Case,
    physics: Physics,
    trial_count: usize,
    result: CpuCaseResult,
) -> bool {
    &&& result.trials@ == in_id_order(accum.trials@)
    &&& result.max_trial_steps == max_steps_of(in_id_order(accum.trials@))
    &&& summary_of_trials(
        k,
        case,
        trial_count,
        physics,
        in_id_order(accum.trials@),
        result.case_output.summary,
    )
    &&& result.case_output.hist_phi@ == accum.hist.phi@
    &&& result.case_output.hist_y@ == accum.hist.y@
}

/// Puts the trials of a case in order and summarizes them.
pub fn finish_case<K: Arithmetic>(
    k: &K,
    accum: CaseAccumulator,
    case: Case,
    physics: Physics,
    trial_count: usize,
) -> (result: CpuCaseResult)
    ensures
        finished(k, accum, case, physics, trial_count, result),
{
    let trials = sort_by_id(&accum.trials);
    let max_trial_steps: u64 = largest_steps(&trials);
    let summary = summarize_case(k, case, trial_count, &physics, &trials);
    CpuCaseResult {
        trials,
        case_output: CaseOutput { summary, hist_phi: accum.hist.phi, hist_y: accum.hist.y },
        max_trial_steps,
    }
}

/// The accumulators of a case from nothing to its last trial, in the order of the trial numbers.
pub open spec fn collected<K: Arithmetic>(
    k: &K,
    case: Case,
    physics: Physics,
    stride: u32,
    parts: Seq<CaseAccumulator>,
) -> bool {
    &&& parts.len() > 0
    &&& parts[0].trials@ == Seq::<TrialResult>::empty()
    &&& parts[0].hist.empty()
    &&& forall|i: int|
        0 <= i < parts.len() - 1 ==> #[trigger] added_between(k, case, physics, stride, parts, i)
}

/// Whether part `i + 1` of a case is part `i` with trial `i`.
pub open spec fn added_between<K: Arithmetic>(
    k: &K,
    case: Case,
    physics: Physics,
    stride: u32,
    parts: Seq<CaseAccumulator>,
    i: int,
) -> bool {
    parts[i].trial_added(k, case, physics, i as u64, stride, parts[i + 1])
}

/// Runs all trials of a case on the calling thread and summarizes them.
pub fn run_case<K: Arithmetic>(
    k: &K,
    case: Case,
    physics: Physics,
    trial_count: usize,
    hist_stride: u32,
) -> (result: CpuCaseResult)
    requires
        0 < physics.n_wall <= i64::MAX,
        case.m > i32::MIN,
    ensures
        exists|parts: Seq<CaseAccumulator>|
            {
                &&& #[trigger] collected(k, case, physics, hist_stride, parts)
                &&& parts.len() == trial_count + 1
                &&& finished(k, parts.last(), case, physics, trial_count, result)
            },
{
    let mut accum = CaseAccumulator::new();
    let ghost mut parts: Seq<CaseAccumulator> = seq![accum];
    let mut i: usize = 0;
    while i < trial_count
        invariant
            0 < physics.n_wall <= i64::MAX,
            case.m > i32::MIN,
            i <= trial_count,
            accum.well_formed(),
            collected(k, case, physics, hist_stride, parts),
            parts.len() == i + 1,
            parts.last() == accum,
        decreases trial_count - i,
    {
        accum.add_trial(k, case, physics, i as u64, hist_stride);
        proof {
            let longer = parts.push(accum);
            assert forall|j: int| 0 <= j < longer.len() - 1 implies #[trigger] added_between(
                k,
                case,
                physics,
                hist_stride,
                longer,
                j,
            ) by {
                if j < parts.len() - 1 {
                    assert(added_between(k, case, physics, hist_stride, parts, j));
                }
            }
            parts = longer;
        }
        i = i + 1;
    }
    finish_case(k, accum, case, physics, trial_count)
}

/// The trials of a case that ran to its end carry the numbers from 0 on, and stand in that order.
pub proof fn law_trials_are_numbered<K: Arithmetic>(
    k: &K,
    case: Case,
    physics: Physics,
    stride: u32,
    parts: Seq<CaseAccumulator>,
)
    requires
        collected(k, case, physics, stride, parts),
        parts.len() <= u64::MAX,
    ensures
        ({
            let trials = parts.last().trials@;
            &&& trials.len() == parts.len() - 1
            &&& forall|i: int| 0 <= i < trials.len() ==> (#[trigger] trials[i]).trial_id == i
            &&& in_id_order(trials) == trials
        }),
{
    lemma_numbers(k, case, physics, stride, parts, parts.len() - 1);
    lemma_ordered_stays(parts.last().trials@);
}

proof fn lemma_numbers<K: Arithmetic>(
    k: &K,
    case: Case,
    physics: Physics,
    stride: u32,
    parts: Seq<CaseAccumulator>,
    n: int,
)
    requires
        collected(k, case, physics, stride, parts),
        0 <= n < parts.len() <= u64::MAX,
    ensures
        parts[n].trials@.len() == n,
        forall|i: int| 0 <= i < n ==> (#[trigger] parts[n].trials@[i]).trial_id == i,
    decreases n,
{
    if n > 0 {
        lemma_numbers(k, case, physics, stride, parts, n - 1);
        assert(added_between(k, case, physics, stride, parts, n - 1));
    }
}

proof fn lemma_ordered_stays(trials: Seq<TrialResult>)
    requires
        forall|i: int| 0 <= i < trials.len() ==> (#[trigger] trials[i]).trial_id == i,
    ensures
        in_id_order(trials) == trials,
    decreases trials.len(),
{
    if trials.len() > 0 {
        let front = trials.drop_last();
        assert forall|i: int| 0 <= i < front.len() implies (#[trigger] front[i]).trial_id == i by {
            assert(front[i] == trials[i]);
        }
        lemma_ordered_stays(front);
        assert(trials[trials.len() - 1].trial_id == trials.len() - 1);
        if front.len() > 0 {
            assert(front[front.len() - 1].trial_id == front.len() - 1);
        }
        assert(front.push(trials.last()) =~= trials);
    } else {
        assert(trials =~= Seq::<TrialResult>::empty());
    }
}

/// The votes of some trials: one for every `stride`-th step of each.
pub open spec fn votes_of(trials: Seq<TrialResult>, stride: u32) -> int
    decreases trials.len(),
{
    if trials.len() == 0 {
        0
    } else {
        votes_of(trials.drop_last(), stride) + steps_recorded(trials.last().steps as int, stride)
    }
}

/// Each histogram of a case holds one vote for every `stride`-th step of each of its trials, and both
/// hold as many in each bin along x, as long as the votes fit into a counter.
pub proof fn law_votes_of_case<K: Arithmetic>(
    k: &K,
    case: Case,
    physics: Physics,
    trial_count: usize,
    stride: u32,
    parts: Seq<CaseAccumulator>,
    result: CpuCaseResult,
)
    requires
        collected(k, case, physics, stride, parts),
        parts.len() == trial_count + 1,
        parts.len() <= u64::MAX,
        physics.max_steps > 0,
        finished(k, parts.last(), case, physics, trial_count, result),
        votes_of(result.trials@, stride) <= u64::MAX,
    ensures
        total(result.case_output.hist_phi@) == votes_of(result.trials@, stride),
        total(result.case_output.hist_y@) == votes_of(result.trials@, stride),
        forall|x_bin: int|
            0 <= x_bin < HIST_X_BINS ==> #[trigger] column(
                result.case_output.hist_phi@,
                x_bin,
                HIST_PHI_BINS as int,
            ) == column(result.case_output.hist_y@, x_bin, HIST_Y_BINS as int),
{
    law_trials_are_numbered(k, case, physics, stride, parts);
    lemma_votes_collected(k, case, physics, stride, parts, trial_count as int);
}

proof fn lemma_votes_collected<K: Arithmetic>(
    k: &K,
    case: Case,
    physics: Physics,
    stride: u32,
    parts: Seq<CaseAccumulator>,
    n: int,
)
    requires
        collected(k, case, physics, stride, parts),
        physics.max_steps > 0,
        0 <= n < parts.len(),
        votes_of(parts[n].trials@, stride) <= u64::MAX,
    ensures
        parts[n].hist.well_formed(),
        parts[n].hist.holds_votes(),
        parts[n].hist.columns_agree(),
        parts[n].hist.votes == votes_of(parts[n].trials@, stride),
    decreases n,
{
    if n > 0 {
        let i = n - 1;
        assert(added_between(k, case, physics, stride, parts, i));
        let seed = trial_seed_of(seed_of(case.m, case.gamma, case.delta, case.f), i as u64);
        let trial = choose|trial: TrialResult|
            {
                &&& #[trigger] trial_run(
                    k,
                    case,
                    physics,
                    seed,
                    stride,
                    parts[i].hist,
                    trial,
                    parts[n].hist,
                )
                &&& parts[n].trials@ == parts[i].trials@.push(numbered(trial, i as u64))
            };
        assert(parts[n].trials@.drop_last() =~= parts[i].trials@);
        assert(steps_recorded(trial.steps as int, stride) >= 0) by {
            if stride > 0 {
                vstd::arithmetic::div_mod::lemma_div_pos_is_pos(trial.steps as int, stride as int);
            }
        }
        lemma_votes_collected(k, case, physics, stride, parts, i);
        law_votes_of_trial(
            k,
            case,
            physics,
            seed,
            stride,
            parts[i].hist,
            trial,
            parts[n].hist,
        );
    } else {
        law_empty_holds_votes(parts[0].hist);
    }
}

} // verus!
