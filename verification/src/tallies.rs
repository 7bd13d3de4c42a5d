//! What summaries, counters and checks are made of.

use vstd::prelude::*;
use crate::case_run::{max_steps_of, summary_of_trials, trial_seed_of};
use crate::config::{first_below_one, Case, Config, Geometry, Mode, Physics, HIST_X_BINS};
use crate::device_run::summary_of_host;
use crate::double::Double;
use crate::formula::Arithmetic;
use crate::gpu::HostTrials;
use crate::histogram::{vote_due, Histograms};
use crate::model::{
    common_len, count_of, first_passage_summary, fixed_time_summary, passage_times, FixedTimeRow,
    Summary, SummaryRow, TrialResult, TrialTally, PASS_DIRECTION_LEFT, PASS_DIRECTION_RIGHT,
    STATUS_MAX_STEPS, STATUS_OK,
};

verus! {

// ---- Summaries ----

/// The summary of a case is made of its trials: of their times and of how they ended where first
/// passages are measured, and of where they began and where they ended where the time is fixed.
pub proof fn law_summary_of_case<K: Arithmetic>(
    k: &K,
    case: Case,
    n_total: usize,
    physics: Physics,
    trials: Seq<TrialResult>,
    summary: Summary,
)
    requires
        summary_of_trials(k, case, n_total, physics, trials, summary),
    ensures
        physics.mode == Mode::FirstPassage ==> exists|
            times: Seq<Double>,
            statuses: Seq<i32>,
            directions: Seq<i32>,
        |
            {
                &&& summary is FirstPassage
                &&& #[trigger] first_passage_summary(
                    k,
                    None,
                    case,
                    n_total,
                    physics,
                    times,
                    statuses,
                    directions,
                    summary->FirstPassage_0,
                )
                &&& times.len() == trials.len()
                &&& statuses.len() == trials.len()
                &&& directions.len() == trials.len()
                &&& forall|i: int|
                    0 <= i < trials.len() ==> {
                        &&& times[i] == (#[trigger] trials[i]).t
                        &&& statuses[i] == trials[i].status
                        &&& directions[i] == trials[i].pass_direction
                    }
            },
        physics.mode == Mode::FixedTime ==> exists|starts: Seq<Double>, ends: Seq<Double>|
            {
                &&& summary is FixedTime
                &&& #[trigger] fixed_time_summary(
                    k,
                    None,
                    case,
                    n_total,
                    physics,
                    starts,
                    ends,
                    summary->FixedTime_0,
                )
                &&& starts.len() == trials.len()
                &&& ends.len() == trials.len()
                &&& forall|i: int|
                    0 <= i < trials.len() ==> {
                        &&& starts[i] == (#[trigger] trials[i]).x0
                        &&& ends[i] == trials[i].x_end
                    }
            },
{
    let times = trials.map_values(|trial: TrialResult| trial.t);
    let statuses = trials.map_values(|trial: TrialResult| trial.status);
    let directions = trials.map_values(|trial: TrialResult| trial.pass_direction);
    let starts = trials.map_values(|trial: TrialResult| trial.x0);
    let ends = trials.map_values(|trial: TrialResult| trial.x_end);
    assert(trials.len() == times.len());
    assert(trials.len() == starts.len());
}

/// Whether trials are those that were read from a device.
pub open spec fn read_from(
    host: HostTrials,
    device_id: usize,
    case: Case,
    trials: Seq<TrialResult>,
) -> bool {
    &&& trials.len() == host.times@.len()
    &&& host.statuses@.len() == trials.len()
    &&& host.pass_directions@.len() == trials.len()
    &&& host.x0@.len() == trials.len()
    &&& host.x@.len() == trials.len()
    &&& forall|i: int|
        0 <= i < trials.len() ==> #[trigger] trials[i] == host.result_at(device_id, case, i)
}

/// A device is summarized as the processor is: with the trials that were read from it, both give the
/// same statistics. The summaries tell only who ran the case.
pub proof fn law_device_summary<K: Arithmetic>(
    k: &K,
    device_id: usize,
    case: Case,
    n_total: usize,
    physics: Physics,
    host: HostTrials,
    trials: Seq<TrialResult>,
    summary: Summary,
)
    requires
        summary_of_host(k, device_id, case, n_total, physics, host, summary),
        read_from(host, device_id, case, trials),
    ensures
        match summary {
            Summary::FirstPassage(row) => {
                &&& physics.mode == Mode::FirstPassage
                &&& row.gpu_id == Some(device_id)
                &&& summary_of_trials(
                    k,
                    case,
                    n_total,
                    physics,
                    trials,
                    Summary::FirstPassage(SummaryRow { gpu_id: None, ..row }),
                )
            },
            Summary::FixedTime(row) => {
                &&& physics.mode == Mode::FixedTime
                &&& row.gpu_id == Some(device_id)
                &&& summary_of_trials(
                    k,
                    case,
                    n_total,
                    physics,
                    trials,
                    Summary::FixedTime(FixedTimeRow { gpu_id: None, ..row }),
                )
            },
        },
{
    assert(trials.map_values(|trial: TrialResult| trial.t) =~= host.times@);
    assert(trials.map_values(|trial: TrialResult| trial.status) =~= host.statuses@);
    assert(trials.map_values(|trial: TrialResult| trial.pass_direction) =~= host.pass_directions@);
    assert(trials.map_values(|trial: TrialResult| trial.x0) =~= host.x0@);
    assert(trials.map_values(|trial: TrialResult| trial.x_end) =~= host.x@);
}

// ---- Counts of trials ----

/// What one trial adds to a count.
pub open spec fn one_if(b: bool) -> int {
    if b {
        1
    } else {
        0
    }
}

proof fn lemma_same_count(n: nat, p: spec_fn(int) -> bool, q: spec_fn(int) -> bool)
    requires
        forall|i: int| 0 <= i < n ==> #[trigger] p(i) == q(i),
    ensures
        count_of(n, p) == count_of(n, q),
    decreases n,
{
    if n > 0 {
        lemma_same_count((n - 1) as nat, p, q);
        assert(p(n - 1) == q(n - 1));
    }
}

proof fn lemma_same_times(times: Seq<Double>, statuses: Seq<i32>, t: Double, s: i32, n: nat)
    requires
        n <= times.len(),
        n <= statuses.len(),
    ensures
        passage_times(times.push(t), statuses.push(s), n) == passage_times(times, statuses, n),
    decreases n,
{
    if n > 0 {
        lemma_same_times(times, statuses, t, s, (n - 1) as nat);
    }
}

/// One more trial raises the count of passages if it ended with one, on the side on which it passed, and
/// the count of trials that ran out of steps if it did; no other count changes. Its time is kept, behind
/// the others, exactly if it ended with a passage.
pub proof fn law_one_more_trial<K: Arithmetic>(
    k: &K,
    gpu_id: Option<usize>,
    case: Case,
    n_total: usize,
    physics: Physics,
    times: Seq<Double>,
    statuses: Seq<i32>,
    directions: Seq<i32>,
    row: SummaryRow,
    t: Double,
    status: i32,
    direction: i32,
    after: SummaryRow,
)
    requires
        times.len() == statuses.len() == directions.len(),
        first_passage_summary(
            k,
            gpu_id,
            case,
            n_total,
            physics,
            times,
            statuses,
            directions,
            row,
        ),
        first_passage_summary(
            k,
            gpu_id,
            case,
            n_total,
            physics,
            times.push(t),
            statuses.push(status),
            directions.push(direction),
            after,
        ),
    ensures
        after.n_ok == row.n_ok + one_if(status == 1),
        after.n_right_passes == row.n_right_passes + one_if(status == 1 && direction == 1),
        after.n_left_passes == row.n_left_passes + one_if(status == 1 && direction == -1),
        after.n_max_steps == row.n_max_steps + one_if(status == 2),
        passage_times(times.push(t), statuses.push(status), times.len() + 1) == if status == 1 {
            passage_times(times, statuses, times.len()).push(t)
        } else {
            passage_times(times, statuses, times.len())
        },
        times.len() == 0 ==> row.n_ok == 0 && row.n_right_passes == 0 && row.n_left_passes == 0
            && row.n_max_steps == 0,
{
    let n = times.len();
    let s = statuses.push(status);
    let d = directions.push(direction);
    assert(common_len(n, n, n) == n);
    assert(common_len(n + 1, n + 1, n + 1) == n + 1);
    lemma_same_count(n, |i: int| statuses[i] == STATUS_OK, |i: int| s[i] == STATUS_OK);
    lemma_same_count(
        n,
        |i: int| statuses[i] == STATUS_OK && directions[i] == PASS_DIRECTION_RIGHT,
        |i: int| s[i] == STATUS_OK && d[i] == PASS_DIRECTION_RIGHT,
    );
    lemma_same_count(
        n,
        |i: int| statuses[i] == STATUS_OK && directions[i] == PASS_DIRECTION_LEFT,
        |i: int| s[i] == STATUS_OK && d[i] == PASS_DIRECTION_LEFT,
    );
    lemma_same_count(
        n,
        |i: int| statuses[i] == STATUS_MAX_STEPS,
        |i: int| s[i] == STATUS_MAX_STEPS,
    );
    lemma_same_times(times, statuses, t, status, n);
}

/// A tally of one trial more counts that trial once, where it belongs.
pub proof fn law_tally_of_one_more(
    tally: TrialTally,
    after: TrialTally,
    times: Seq<Double>,
    statuses: Seq<i32>,
    directions: Seq<i32>,
    n: nat,
)
    requires
        tally.counts(times, statuses, directions, n),
        after.counts(times, statuses, directions, n + 1),
    ensures
        after.n_ok == tally.n_ok + one_if(statuses[n as int] == 1),
        after.n_right_passes == tally.n_right_passes + one_if(
            statuses[n as int] == 1 && directions[n as int] == 1,
        ),
        after.n_left_passes == tally.n_left_passes + one_if(
            statuses[n as int] == 1 && directions[n as int] == -1,
        ),
        after.n_max_steps == tally.n_max_steps + one_if(statuses[n as int] == 2),
        after.passage_times@ == if statuses[n as int] == 1 {
            tally.passage_times@.push(times[n as int])
        } else {
            tally.passage_times@
        },
        n == 0 ==> tally.n_ok == 0 && tally.n_right_passes == 0 && tally.n_left_passes == 0
            && tally.n_max_steps == 0 && tally.passage_times@.len() == 0,
{
}

/// Without a passage there is no statistic: no mean, no mobility and no diffusion.
pub proof fn law_row_without_passages<K: Arithmetic>(
    k: &K,
    gpu_id: Option<usize>,
    case: Case,
    n_total: usize,
    physics: Physics,
    times: Seq<Double>,
    statuses: Seq<i32>,
    directions: Seq<i32>,
    row: SummaryRow,
)
    requires
        first_passage_summary(
            k,
            gpu_id,
            case,
            n_total,
            physics,
            times,
            statuses,
            directions,
            row,
        ),
        forall|i: int| 0 <= i < statuses.len() ==> #[trigger] statuses[i] != STATUS_OK,
    ensures
        row.n_ok == 0,
        row.t1.nan(),
        row.t2.nan(),
        row.mu.nan(),
        row.d_eff.nan(),
{
    let n = common_len(times.len(), statuses.len(), directions.len());
    lemma_no_passage(times, statuses, n);
}

proof fn lemma_no_passage(times: Seq<Double>, statuses: Seq<i32>, n: nat)
    requires
        n <= statuses.len(),
        forall|i: int| 0 <= i < statuses.len() ==> #[trigger] statuses[i] != STATUS_OK,
    ensures
        passage_times(times, statuses, n).len() == 0,
        count_of(n, |i: int| statuses[i] == STATUS_OK) == 0,
    decreases n,
{
    if n > 0 {
        lemma_no_passage(times, statuses, (n - 1) as nat);
    }
}

/// The largest step count is that of a trial, and none is larger.
pub proof fn law_longest_trial(trials: Seq<TrialResult>)
    ensures
        forall|i: int| 0 <= i < trials.len() ==> (#[trigger] trials[i]).steps <= max_steps_of(trials),
        trials.len() > 0 ==> exists|i: int|
            0 <= i < trials.len() && (#[trigger] trials[i]).steps == max_steps_of(trials),
        trials.len() == 0 ==> max_steps_of(trials) == 0,
    decreases trials.len(),
{
    if trials.len() > 0 {
        let front = trials.drop_last();
        law_longest_trial(front);
        assert(trials[trials.len() - 1] == trials.last());
        assert forall|i: int| 0 <= i < trials.len() implies (#[trigger] trials[i]).steps
            <= max_steps_of(trials) by {
            if i < front.len() {
                assert(front[i] == trials[i]);
            }
        }
        if max_steps_of(trials) != trials.last().steps && front.len() > 0 {
            let i = choose|i: int|
                0 <= i < front.len() && (#[trigger] front[i]).steps == max_steps_of(front);
            assert(trials[i] == front[i]);
        }
    }
}

/// The first trial has the seed of its case, and each further one the seed of the one before it plus
/// one; after the largest seed comes 0.
pub proof fn law_seeds_of_trials(case_seed: u64, trial_id: u64)
    requires
        trial_id < u64::MAX,
    ensures
        trial_seed_of(case_seed, 0) == case_seed,
        trial_seed_of(case_seed, (trial_id + 1) as u64) == trial_seed_of(
            case_seed,
            trial_id,
        ).wrapping_add(1),
{
}

// ---- Votes ----

/// A vote raises one counter of each histogram: that of its bin along x and of its bin of the angle or
/// the height, as the lines of the table name them. What lies beyond the last bin is counted in it.
pub proof fn law_vote_lands_in_its_bins(
    before: Histograms,
    bins: (u64, u64, u64),
    after: Histograms,
    x_bin: int,
    value_bin: int,
)
    requires
        before.well_formed(),
        before.counted(bins, after),
        0 <= x_bin < HIST_X_BINS,
        0 <= value_bin,
    ensures
        ({
            let same_x = x_bin == bins.0 || x_bin == 99 && bins.0 > 99;
            let same_phi = value_bin == bins.1 || value_bin == 35 && bins.1 > 35;
            let same_y = value_bin == bins.2 || value_bin == 63 && bins.2 > 63;
            let phi_at = x_bin * 36 + value_bin;
            let y_at = x_bin * 64 + value_bin;
            &&& value_bin < 36 ==> after.phi@[phi_at] == if same_x && same_phi {
                before.phi@[phi_at].wrapping_add(1)
            } else {
                before.phi@[phi_at]
            }
            &&& value_bin < 64 ==> after.y@[y_at] == if same_x && same_y {
                before.y@[y_at].wrapping_add(1)
            } else {
                before.y@[y_at]
            }
        }),
{
}

/// Of as many steps in a row as the stride says, exactly one is recorded, and the start is among those
/// that are.
pub proof fn law_one_vote_per_stride(from: u64, stride: u32)
    requires
        0 < stride,
        from + stride <= u64::MAX,
    ensures
        vote_due(0, stride),
        !vote_due(from, 0),
        vote_due(from, stride) <==> vote_due((from + stride) as u64, stride),
        exists|d: int|
            {
                &&& 0 <= d < stride
                &&& #[trigger] vote_due((from + d) as u64, stride)
                &&& forall|e: int|
                    0 <= e < stride && e != d ==> !(#[trigger] vote_due((from + e) as u64, stride))
            },
{
    let n = stride as int;
    let f = from as int;
    vstd::arithmetic::div_mod::lemma_small_mod(0, n as nat);
    vstd::arithmetic::div_mod::lemma_mod_add_multiples_vanish(f, n);
    vstd::arithmetic::div_mod::lemma_fundamental_div_mod(f, n);
    let rest = f % n;
    let whole = f / n;
    let d = if rest == 0 {
        0
    } else {
        n - rest
    };
    assert forall|e: int| 0 <= e < n implies (#[trigger] vote_due((from + e) as u64, stride) <==> e
        == d) by {
        lemma_due(f, n, whole, rest, e);
    }
    assert(vote_due((from + d) as u64, stride));
}

proof fn lemma_due(f: int, n: int, whole: int, rest: int, e: int)
    requires
        n > 0,
        f == n * whole + rest,
        0 <= rest < n,
        0 <= e < n,
    ensures
        (f + e) % n == if rest + e < n {
            rest + e
        } else {
            rest + e - n
        },
{
    if rest + e < n {
        vstd::arithmetic::div_mod::lemma_fundamental_div_mod_converse(
            f + e,
            n,
            whole,
            rest + e,
        );
    } else {
        assert(n * (whole + 1) == n * whole + n) by (nonlinear_arith);
        vstd::arithmetic::div_mod::lemma_fundamental_div_mod_converse(
            f + e,
            n,
            whole + 1,
            rest + e - n,
        );
    }
}

// ---- Checks ----

/// A configuration passes the checks of its values exactly where every value is in its range: times,
/// sigma and epsilon positive, at least one step, an ensemble that a device can count, and lists that
/// are not empty and hold finite numbers, or rods with a point on each side.
pub proof fn law_accepted_values(config: Config)
    ensures
        config.range_error() is None <==> {
            &&& config.delta_t.positive_finite()
            &&& config.time.positive_finite()
            &&& config.delta_t.value() <= config.time.value()
            &&& 1 <= config.ensemble_size <= 2147483647
            &&& config.sigma.positive_finite()
            &&& config.epsilon.positive_finite()
            &&& finite_list(config.gamma@)
            &&& finite_list(config.delta@)
            &&& finite_list(config.f@)
            &&& config.m@.len() > 0
            &&& forall|i: int| 0 <= i < config.m@.len() ==> #[trigger] config.m@[i] >= 1
        },
{
    law_first_below_one(config.m@);
}

/// Whether a list holds numbers, all of them finite.
pub open spec fn finite_list(list: Seq<Double>) -> bool {
    &&& list.len() > 0
    &&& forall|i: int| 0 <= i < list.len() ==> (#[trigger] list[i]).finite()
}

/// The number that is found is the first below one; where none is found, there is none.
pub proof fn law_first_below_one(list: Seq<i32>)
    ensures
        match first_below_one(list) {
            Some(m) => exists|i: int|
                {
                    &&& 0 <= i < list.len()
                    &&& #[trigger] list[i] == m
                    &&& m < 1
                    &&& forall|j: int| 0 <= j < i ==> #[trigger] list[j] >= 1
                },
            None => forall|i: int| 0 <= i < list.len() ==> #[trigger] list[i] >= 1,
        },
    decreases list.len(),
{
    if list.len() > 0 {
        let rest = list.skip(1);
        law_first_below_one(rest);
        assert(forall|i: int| 0 <= i < rest.len() ==> rest[i] == #[trigger] list[i + 1]);
        if list[0] < 1 {
            assert(list[0] == first_below_one(list)->0);
        } else {
            match first_below_one(rest) {
                Some(m) => {
                    let i = choose|i: int|
                        {
                            &&& 0 <= i < rest.len()
                            &&& #[trigger] rest[i] == m
                            &&& m < 1
                            &&& forall|j: int| 0 <= j < i ==> #[trigger] rest[j] >= 1
                        };
                    assert(list[i + 1] == m);
                    assert forall|j: int| 0 <= j < i + 1 implies #[trigger] list[j] >= 1 by {
                        if j > 0 {
                            assert(rest[j - 1] == list[j]);
                        }
                    }
                },
                None => {
                    assert forall|j: int| 0 <= j < list.len() implies #[trigger] list[j] >= 1 by {
                        if j > 0 {
                            assert(rest[j - 1] == list[j]);
                        }
                    }
                },
            }
        }
    }
}

/// The shared constants are derived exactly where a period holds a whole number of wall points, as near
/// as the tolerance asks for, at least as many as act on a point. They carry the values of the
/// configuration and of the geometry, each under its own name.
pub proof fn law_shared_constants(config: Config, g: Geometry)
    ensures
        config.derived_physics(g) is Ok <==> {
            &&& !g.deviation.nan()
            &&& !g.tolerance.nan()
            &&& g.deviation.value() <= g.tolerance.value()
            &&& 11 <= g.n_wall <= 2147483647
        },
        config.derived_physics(g) matches Ok(physics) ==> {
            &&& physics.delta_t == config.delta_t
            &&& physics.mode == config.mode
            &&& physics.sigma == config.sigma
            &&& physics.epsilon == config.epsilon
            &&& physics.max_steps == g.max_steps
            &&& physics.wall_dx == g.wall_dx
            &&& physics.particle_dx == g.particle_dx
            &&& physics.n_wall == g.n_wall
            &&& physics.diffusion_reference_length == g.diffusion_reference_length
        },
{
}

} // verus!
