//! One trial of a case, from the start of its rod to its end.

use vstd::prelude::*;
use crate::channel::Pose;
use crate::config::{Case, Mode, Physics};
use crate::formula::Arithmetic;
use crate::histogram::{
    law_columns_agree, law_votes_are_counted_once, raw_bins_gives, records_step, vote_due,
    Histograms,
};
use crate::model::{
    TrialResult, PASS_DIRECTION_LEFT, PASS_DIRECTION_NONE, PASS_DIRECTION_RIGHT, STATUS_MAX_STEPS,
    STATUS_OK,
};
use crate::simulation::{passage, step_between, walk, VisualParams, VisualSimulation};

verus! {

// ---- Trials ----

/// The parameters of the rod of a case.
pub open spec fn params_of(case: Case, seed: u64) -> VisualParams {
    VisualParams { seed, m: case.m, f: case.f, gamma: case.gamma, delta: case.delta }
}

/// The result of a trial of a case that ended in a state. Its number is left to the caller.
pub open spec fn result_of(case: Case, end: VisualSimulation) -> TrialResult {
    TrialResult {
        case_id: case.case_id,
        trial_id: 0,
        gpu_id: None,
        case,
        x0: end.x0,
        y0: end.y0,
        phi0: end.phi0,
        x_end: end.x,
        y_end: end.y,
        phi_end: end.phi,
        t: end.t,
        steps: end.steps,
        status: if end.first_passed {
            STATUS_OK
        } else {
            STATUS_MAX_STEPS
        },
        pass_direction: end.pass_direction,
    }
}

impl VisualSimulation {
    /// Whether the rod is one of a case: its half length, its force, its dipole and its
    /// polarizability are those of the case, and its random numbers those of a seed.
    pub open spec fn runs_case(self, case: Case, seed: u64) -> bool {
        &&& self.params.m == case.m
        &&& self.params.f == case.f
        &&& self.params.gamma == case.gamma
        &&& self.params.delta == case.delta
        &&& self.params.seed == seed
    }

    /// Whether a trial ends in this state: with its last step, and where first passages are
    /// measured also with the first passage.
    pub open spec fn trial_over(self) -> bool {
        self.completed || (self.physics.mode == Mode::FirstPassage && self.first_passed)
    }

    /// Whether a trial ends in this state.
    pub fn is_trial_over(&self) -> (b: bool)
        ensures
            b == self.trial_over(),
    {
        self.completed || (self.physics.mode == Mode::FirstPassage && self.first_passed)
    }
}

/// The states of a trial: from the start of its rod, step by step, to the first state in which it
/// is over.
pub open spec fn trial_states<K: Arithmetic>(
    k: &K,
    params: VisualParams,
    physics: Physics,
    states: Seq<VisualSimulation>,
) -> bool {
    &&& walk(k, states)
    &&& states[0].started(k, params, physics)
    &&& forall|i: int| 0 <= i < states.len() - 1 ==> !(#[trigger] states[i]).trial_over()
    &&& states.last().trial_over()
}

/// The histograms along a trial: after each step that is due, the pose is counted.
pub open spec fn trial_votes<K: Arithmetic>(
    k: &K,
    stride: u32,
    states: Seq<VisualSimulation>,
    votes: Seq<Histograms>,
) -> bool {
    &&& votes.len() == states.len()
    &&& forall|i: int|
        0 <= i < votes.len() - 1 ==> #[trigger] vote_between(k, stride, states, votes, i)
}

/// Whether the histograms follow step `i` of a trial.
pub open spec fn vote_between<K: Arithmetic>(
    k: &K,
    stride: u32,
    states: Seq<VisualSimulation>,
    votes: Seq<Histograms>,
    i: int,
) -> bool {
    vote_taken(k, stride, states[i + 1], votes[i], votes[i + 1])
}

/// Whether the histograms go from `before` to `after` with a step to a state.
pub open spec fn vote_taken<K: Arithmetic>(
    k: &K,
    stride: u32,
    state: VisualSimulation,
    before: Histograms,
    after: Histograms,
) -> bool {
    if vote_due(state.steps, stride) {
        before.counted_pose(k, state.pose(), after)
    } else {
        after == before
    }
}

/// Whether a trial, run from `before` on, gives `trial` and the histograms `after`.
#[verifier::opaque]
pub open spec fn trial_run<K: Arithmetic>(
    k: &K,
    case: Case,
    physics: Physics,
    trial_seed: u64,
    stride: u32,
    before: Histograms,
    trial: TrialResult,
    after: Histograms,
) -> bool {
    exists|states: Seq<VisualSimulation>, votes: Seq<Histograms>|
        {
            &&& #[trigger] trial_states(k, params_of(case, trial_seed), physics, states)
            &&& #[trigger] trial_votes(k, stride, states, votes)
            &&& votes[0] == before
            &&& votes.last() == after
            &&& trial == result_of(case, states.last())
            &&& forall|i: int|
                0 <= i < states.len() ==> (#[trigger] states[i]).runs_case(case, trial_seed)
        }
}

/// Runs one trial to its end and records its poses in the histograms.
pub fn run_trial<K: Arithmetic>(
    k: &K,
    case: Case,
    physics: Physics,
    trial_seed: u64,
    hist_stride: u32,
    hist: &mut Histograms,
) -> (trial: TrialResult)
    requires
        0 < physics.n_wall <= i64::MAX,
        case.m > i32::MIN,
        old(hist).well_formed(),
    ensures
        final(hist).well_formed(),
        trial_run(k, case, physics, trial_seed, hist_stride, *old(hist), trial, *final(hist)),
{
    let params = VisualParams {
        seed: trial_seed,
        m: case.m,
        f: case.f,
        gamma: case.gamma,
        delta: case.delta,
    };
    let mut sim = VisualSimulation::new(k, params, physics);
    let ghost start = *hist;
    let ghost mut states: Seq<VisualSimulation> = seq![sim];
    let ghost mut votes: Seq<Histograms> = seq![*hist];
    while !sim.is_trial_over()
        invariant
            sim.well_formed(),
            sim.physics == physics,
            sim.steps <= physics.max_steps,
            sim.completed ==> sim.steps == physics.max_steps,
            hist.well_formed(),
            walk(k, states),
            states[0].started(k, params, physics),
            states.last() == sim,
            forall|i: int|
                0 <= i < states.len() ==> (#[trigger] states[i]).runs_case(case, trial_seed),
            forall|i: int| 0 <= i < states.len() - 1 ==> !(#[trigger] states[i]).trial_over(),
            trial_votes(k, hist_stride, states, votes),
            votes[0] == start,
            votes.last() == *hist,
        decreases physics.max_steps - sim.steps, if sim.completed {
            0int
        } else {
            1int
        },
    {
        let ghost earlier = sim;
        let ghost counted = *hist;
        sim.step(k);
        if records_step(sim.steps, hist_stride) {
            hist.accumulate_histograms(k, Pose { x: sim.x, y: sim.y, phi: sim.phi });
        }
        proof {
            let longer = states.push(sim);
            let more = votes.push(*hist);
            assert(vote_taken(k, hist_stride, sim, counted, *hist));
            assert forall|i: int| 0 <= i < longer.len() - 1 implies #[trigger] step_between(
                k,
                longer,
                i,
            ) by {
                if i < states.len() - 1 {
                    assert(step_between(k, states, i));
                }
            }
            assert forall|i: int| 0 <= i < longer.len() - 1 implies !(
            #[trigger] longer[i]).trial_over() by {
                if i < states.len() - 1 {
                    assert(states[i] == longer[i]);
                }
            }
            assert forall|i: int| 0 <= i < more.len() - 1 implies #[trigger] vote_between(
                k,
                hist_stride,
                longer,
                more,
                i,
            ) by {
                if i < votes.len() - 1 {
                    assert(vote_between(k, hist_stride, states, votes, i));
                }
            }
            states = longer;
            votes = more;
        }
    }
    proof {
        reveal(trial_run);
        assert(trial_states(k, params_of(case, trial_seed), physics, states));
    }
    TrialResult {
        case_id: case.case_id,
        trial_id: 0,
        gpu_id: None,
        case,
        x0: sim.x0,
        y0: sim.y0,
        phi0: sim.phi0,
        x_end: sim.x,
        y_end: sim.y,
        phi_end: sim.phi,
        t: sim.t,
        steps: sim.steps,
        status: if sim.first_passed {
            STATUS_OK
        } else {
            STATUS_MAX_STEPS
        },
        pass_direction: sim.pass_direction,
    }
}

// ---- Laws of a run ----

/// In every state of a trial the rod is the one of its case: each parameter is the parameter of the
/// same name.
pub proof fn law_trial_runs_its_case<K: Arithmetic>(
    k: &K,
    case: Case,
    seed: u64,
    physics: Physics,
    states: Seq<VisualSimulation>,
    i: int,
)
    requires
        trial_states(k, params_of(case, seed), physics, states),
        0 <= i < states.len(),
    ensures
        states[i].params.m == case.m,
        states[i].params.f == case.f,
        states[i].params.gamma == case.gamma,
        states[i].params.delta == case.delta,
        states[i].params.seed == seed,
        states[i].physics == physics,
    decreases i,
{
    if i > 0 {
        law_trial_runs_its_case(k, case, seed, physics, states, i - 1);
        assert(step_between(k, states, i - 1));
    }
}

/// A trial reports where its rod started and where it ended, when, and in which direction it passed;
/// it has passed exactly when its rod has.
pub proof fn law_trial_reports<K: Arithmetic>(
    k: &K,
    case: Case,
    physics: Physics,
    seed: u64,
    stride: u32,
    before: Histograms,
    trial: TrialResult,
    after: Histograms,
)
    requires
        trial_run(k, case, physics, seed, stride, before, trial, after),
    ensures
        trial.case == case,
        trial.case_id == case.case_id,
        exists|states: Seq<VisualSimulation>|
            {
                let start = states[0];
                let end = states.last();
                &&& #[trigger] walk(k, states)
                &&& start.runs_case(case, seed)
                &&& end.runs_case(case, seed)
                &&& start.physics == physics
                &&& trial.x0 == start.x
                &&& trial.y0 == start.y
                &&& trial.phi0 == start.phi
                &&& trial.x_end == end.x
                &&& trial.y_end == end.y
                &&& trial.phi_end == end.phi
                &&& trial.t == end.t
                &&& trial.steps == end.steps
                &&& trial.pass_direction == end.pass_direction
                &&& trial.status == STATUS_OK <==> end.first_passed
                &&& trial.status == STATUS_MAX_STEPS <==> !end.first_passed
            },
{
    reveal(trial_run);
    let (states, votes): (Seq<VisualSimulation>, Seq<Histograms>) = choose|
        states: Seq<VisualSimulation>,
        votes: Seq<Histograms>,
    |
        {
            &&& #[trigger] trial_states(k, params_of(case, seed), physics, states)
            &&& #[trigger] trial_votes(k, stride, states, votes)
            &&& votes[0] == before
            &&& votes.last() == after
            &&& trial == result_of(case, states.last())
            &&& forall|i: int|
                0 <= i < states.len() ==> (#[trigger] states[i]).runs_case(case, seed)
        };
    lemma_start_kept(k, states, states.len() - 1);
    assert(walk(k, states));
}

proof fn lemma_start_kept<K: Arithmetic>(k: &K, states: Seq<VisualSimulation>, n: int)
    requires
        walk(k, states),
        0 <= n < states.len(),
    ensures
        states[n].same_rod(states[0]),
    decreases n,
{
    if n > 0 {
        lemma_start_kept(k, states, n - 1);
        assert(step_between(k, states, n - 1));
    }
}

/// A run keeps its rod, its steps are counted one by one, and once a passage is recorded it stays
/// as it is.
pub proof fn law_walk<K: Arithmetic>(k: &K, states: Seq<VisualSimulation>, i: int, j: int)
    requires
        walk(k, states),
        0 <= i <= j < states.len(),
        states[0].steps <= states[0].physics.max_steps,
    ensures
        states[j].same_rod(states[i]),
        states[i].steps <= states[j].steps <= states[i].physics.max_steps,
        states[j].steps <= states[i].steps + (j - i),
        states[i].completed ==> states[j].completed,
        states[i].first_passed ==> states[j].first_passed && states[j].pass_direction
            == states[i].pass_direction,
    decreases j,
{
    if j > 0 {
        if i < j {
            law_walk(k, states, i, j - 1);
        } else {
            law_walk(k, states, i - 1, j - 1);
        }
        assert(step_between(k, states, j - 1));
    }
}

/// The first of the states 1 to `n` that lies more than one period away from the start.
pub open spec fn first_away(states: Seq<VisualSimulation>, n: int) -> Option<int>
    decreases n,
{
    if n <= 0 {
        None
    } else if first_away(states, n - 1) is Some {
        first_away(states, n - 1)
    } else if away(states, n) is Some {
        Some(n)
    } else {
        None
    }
}

/// The side on which state `i` lies more than one period away from the start, if it does.
pub open spec fn away(states: Seq<VisualSimulation>, i: int) -> Option<i32> {
    passage(states[i].x, states[0].target_right_x, states[0].target_left_x)
}

/// The first passage that a run records is that of the first state, after the start, which lies
/// more than one period away; without such a state none is recorded.
pub proof fn law_first_passage<K: Arithmetic>(k: &K, states: Seq<VisualSimulation>, n: int)
    requires
        walk(k, states),
        0 <= n < states.len(),
        !states[0].first_passed,
        states[0].steps + n <= states[0].physics.max_steps,
    ensures
        states[n].steps == states[0].steps + n,
        states[n].first_passed == (first_away(states, n) is Some),
        match first_away(states, n) {
            Some(i) => 0 < i <= n && away(states, i) == Some(states[n].pass_direction),
            None => states[n].pass_direction == states[0].pass_direction,
        },
    decreases n,
{
    if n > 0 {
        law_first_passage(k, states, n - 1);
        law_walk(k, states, 0, n - 1);
        assert(step_between(k, states, n - 1));
    }
}

/// A trial that ran to its end reports a passage exactly when it has a direction. Where first
/// passages are measured, a trial without one ran all its steps; where displacements are measured,
/// every trial did.
pub proof fn law_trial_end<K: Arithmetic>(
    k: &K,
    case: Case,
    seed: u64,
    physics: Physics,
    states: Seq<VisualSimulation>,
)
    requires
        trial_states(k, params_of(case, seed), physics, states),
    ensures
        ({
            let trial = result_of(case, states.last());
            &&& trial.status == STATUS_OK || trial.status == STATUS_MAX_STEPS
            &&& trial.status == STATUS_OK <==> trial.pass_direction == PASS_DIRECTION_RIGHT
                || trial.pass_direction == PASS_DIRECTION_LEFT
            &&& trial.status == STATUS_MAX_STEPS <==> trial.pass_direction == PASS_DIRECTION_NONE
            &&& trial.steps <= physics.max_steps
            &&& physics.mode == Mode::FixedTime || trial.status == STATUS_MAX_STEPS ==> trial.steps
                == physics.max_steps
        }),
{
    lemma_directions(k, states, states.len() - 1);
    law_walk(k, states, 0, states.len() - 1);
    lemma_completed(k, states, states.len() - 1);
}

proof fn lemma_directions<K: Arithmetic>(k: &K, states: Seq<VisualSimulation>, n: int)
    requires
        walk(k, states),
        0 <= n < states.len(),
        !states[0].first_passed,
        states[0].pass_direction == PASS_DIRECTION_NONE,
    ensures
        !states[n].first_passed ==> states[n].pass_direction == PASS_DIRECTION_NONE,
        states[n].first_passed ==> states[n].pass_direction == PASS_DIRECTION_RIGHT
            || states[n].pass_direction == PASS_DIRECTION_LEFT,
    decreases n,
{
    if n > 0 {
        lemma_directions(k, states, n - 1);
        assert(step_between(k, states, n - 1));
    }
}

proof fn lemma_completed<K: Arithmetic>(k: &K, states: Seq<VisualSimulation>, n: int)
    requires
        walk(k, states),
        0 <= n < states.len(),
        !states[0].completed,
        states[0].steps <= states[0].physics.max_steps,
    ensures
        states[n].steps <= states[n].physics.max_steps,
        states[n].completed ==> states[n].steps == states[n].physics.max_steps,
    decreases n,
{
    if n > 0 {
        lemma_completed(k, states, n - 1);
        assert(step_between(k, states, n - 1));
    }
}

// ---- Votes ----

/// How many of the first `steps` steps the histograms record.
pub open spec fn steps_recorded(steps: int, stride: u32) -> int {
    if stride == 0 {
        0
    } else {
        steps / stride as int
    }
}

proof fn lemma_next_multiple(n: int, d: int)
    requires
        n > 0,
        d > 0,
    ensures
        n / d == (n - 1) / d + if n % d == 0 {
            1int
        } else {
            0
        },
        (n - 1) / d >= 0,
{
    vstd::arithmetic::div_mod::lemma_fundamental_div_mod(n - 1, d);
    let q = (n - 1) / d;
    let r = (n - 1) % d;
    assert(q >= 0) by {
        vstd::arithmetic::div_mod::lemma_div_pos_is_pos(n - 1, d);
    }
    if r == d - 1 {
        assert(n == (q + 1) * d) by (nonlinear_arith)
            requires
                n - 1 == d * q + (d - 1),
        ;
        vstd::arithmetic::div_mod::lemma_fundamental_div_mod_converse(n, d, q + 1, 0);
    } else {
        assert(n == q * d + (r + 1)) by (nonlinear_arith)
            requires
                n - 1 == d * q + r,
        ;
        vstd::arithmetic::div_mod::lemma_fundamental_div_mod_converse(n, d, q, r + 1);
    }
}

proof fn lemma_steps_counted<K: Arithmetic>(
    k: &K,
    params: VisualParams,
    physics: Physics,
    states: Seq<VisualSimulation>,
    n: int,
)
    requires
        trial_states(k, params, physics, states),
        physics.max_steps > 0,
        0 <= n < states.len(),
    ensures
        states[n].steps == n,
        states[n].physics == physics,
        states[n].completed == (n >= physics.max_steps),
    decreases n,
{
    if n > 0 {
        lemma_steps_counted(k, params, physics, states, n - 1);
        assert(step_between(k, states, n - 1));
        assert(!states[n - 1].trial_over());
    }
}

proof fn lemma_votes_so_far<K: Arithmetic>(
    k: &K,
    params: VisualParams,
    physics: Physics,
    stride: u32,
    states: Seq<VisualSimulation>,
    votes: Seq<Histograms>,
    n: int,
)
    requires
        trial_states(k, params, physics, states),
        trial_votes(k, stride, states, votes),
        physics.max_steps > 0,
        votes[0].well_formed(),
        votes[0].holds_votes(),
        0 <= n < states.len(),
        votes[0].votes + steps_recorded(n, stride) <= u64::MAX,
    ensures
        votes[n].well_formed(),
        votes[n].holds_votes(),
        votes[0].columns_agree() ==> votes[n].columns_agree(),
        votes[n].votes == votes[0].votes + steps_recorded(n, stride),
    decreases n,
{
    if n > 0 {
        lemma_steps_counted(k, params, physics, states, n);
        if stride > 0 {
            lemma_next_multiple(n, stride as int);
        }
        lemma_votes_so_far(k, params, physics, stride, states, votes, n - 1);
        assert(vote_between(k, stride, states, votes, n - 1));
        if vote_due(states[n].steps, stride) {
            let bins = choose|bins: (u64, u64, u64)|
                #[trigger] raw_bins_gives(k, states[n].pose(), bins) && votes[n - 1].counted(
                    bins,
                    votes[n],
                );
            law_votes_are_counted_once(votes[n - 1], bins, votes[n]);
            law_columns_agree(votes[n - 1], bins, votes[n]);
        }
    } else if stride > 0 {
        vstd::arithmetic::div_mod::lemma_basic_div(0, stride as int);
    }
}

/// A trial adds one vote for every `stride`-th of its steps, to the same bin along x in both
/// histograms, as long as the votes fit into a counter.
pub proof fn law_votes_of_trial<K: Arithmetic>(
    k: &K,
    case: Case,
    physics: Physics,
    seed: u64,
    stride: u32,
    before: Histograms,
    trial: TrialResult,
    after: Histograms,
)
    requires
        trial_run(k, case, physics, seed, stride, before, trial, after),
        physics.max_steps > 0,
        before.well_formed(),
        before.holds_votes(),
        before.votes + steps_recorded(trial.steps as int, stride) <= u64::MAX,
    ensures
        after.well_formed(),
        after.holds_votes(),
        before.columns_agree() ==> after.columns_agree(),
        after.votes == before.votes + steps_recorded(trial.steps as int, stride),
{
    reveal(trial_run);
    let params = params_of(case, seed);
    let (states, votes): (Seq<VisualSimulation>, Seq<Histograms>) = choose|
        states: Seq<VisualSimulation>,
        votes: Seq<Histograms>,
    |
        {
            &&& #[trigger] trial_states(k, params, physics, states)
            &&& #[trigger] trial_votes(k, stride, states, votes)
            &&& votes[0] == before
            &&& votes.last() == after
            &&& trial == result_of(case, states.last())
        };
    let n = states.len() - 1;
    lemma_steps_counted(k, params, physics, states, n);
    lemma_votes_so_far(k, params, physics, stride, states, votes, n);
}

} // verus!
