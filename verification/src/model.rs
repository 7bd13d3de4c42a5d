//! Trial results, their labels and their summary.

use vstd::prelude::*;
use crate::cases::seed_of;
use crate::config::{Case, Mode, Physics, L_PERIOD};
use crate::double::Double;
use crate::formula::{
    gives, lit, ln_of, minus, nat_of, num, over, plus, times, Arithmetic, Calc, Expr, Term, FOUR,
    HALF, ONE, THREE, TWENTY_FOUR, TWO,
};

verus! {

/// The trial is still running.
pub const STATUS_RUNNING: i32 = 0;

/// The trial ended with its first passage.
pub const STATUS_OK: i32 = 1;

/// The trial ended at the last step.
pub const STATUS_MAX_STEPS: i32 = 2;

/// No period was passed.
pub const PASS_DIRECTION_NONE: i32 = 0;

/// A period was passed to the right.
pub const PASS_DIRECTION_RIGHT: i32 = 1;

/// A period was passed to the left.
pub const PASS_DIRECTION_LEFT: i32 = -1;

/// Diffusion coefficients of a rod.
#[derive(Clone, Copy, Debug)]
pub struct Diffusion {
    pub d_parallel: Double,
    pub d_perp: Double,
    pub d_r: Double,
}

// ---- Diffusion ----

/// The bits of 40.
pub const FORTY: u64 = 0x4044_0000_0000_0000;

/// The terms of the formulas of Tirado and Garcia de la Torre that depend on the length of a rod.
#[derive(Clone, Copy, Debug)]
pub struct TiradoTerms {
    pub log_p: Double,
    pub nu_parallel: Double,
    pub delta_perp: Double,
    pub denominator: Double,
}

/// The aspect ratio of a rod: p = 40 l.
pub open spec fn aspect_ratio(l: Double) -> Expr {
    times(lit(FORTY), num(l))
}

/// A quadratic in 1/p: `a + b / p`, and `c / p^2` added or, where `less` says so, taken off.
pub open spec fn end_correction(l: Double, a: u64, b: u64, c: u64, less: bool) -> Expr {
    let inv_p = over(lit(ONE), aspect_ratio(l));
    let inv_p2 = times(inv_p, inv_p);
    let first = plus(lit(a), times(lit(b), inv_p));
    if less {
        minus(first, times(lit(c), inv_p2))
    } else {
        plus(first, times(lit(c), inv_p2))
    }
}

/// The correction along the rod: -0.207 + 0.980 / p - 0.133 / p^2.
pub open spec fn nu_parallel_of(l: Double) -> Expr {
    end_correction(
        l,
        0xbfca_7ef9_db22_d0e5,
        0x3fef_5c28_f5c2_8f5c,
        0x3fc1_0624_dd2f_1aa0,
        true,
    )
}

/// The correction across the rod: 0.839 + 0.185 / p + 0.233 / p^2.
pub open spec fn nu_perp_of(l: Double) -> Expr {
    end_correction(
        l,
        0x3fea_d916_872b_020c,
        0x3fc7_ae14_7ae1_47ae,
        0x3fcd_d2f1_a9fb_e76d,
        false,
    )
}

/// The correction of the rotation: -0.630 + 0.917 / p - 0.050 / p^2.
pub open spec fn delta_perp_of(l: Double) -> Expr {
    end_correction(
        l,
        0xbfe4_28f5_c28f_5c29,
        0x3fed_5810_624d_d2f2,
        0x3fa9_9999_9999_999a,
        true,
    )
}

/// Whether these are the terms of a rod.
pub open spec fn tirado_terms_gives<K: Arithmetic>(k: &K, l: Double, terms: TiradoTerms) -> bool {
    &&& gives(k, ln_of(aspect_ratio(l)), terms.log_p)
    &&& gives(k, nu_parallel_of(l), terms.nu_parallel)
    &&& gives(k, delta_perp_of(l), terms.delta_perp)
    &&& gives(
        k,
        plus(
            plus(
                times(lit(THREE), ln_of(aspect_ratio(l))),
                times(lit(TWO), nu_parallel_of(l)),
            ),
            nu_perp_of(l),
        ),
        terms.denominator,
    )
}

fn correction<K: Arithmetic>(c: &Calc<K>, l: Double, a: u64, b: u64, d: u64, less: bool) -> (t: Term)
    ensures
        t.of(c.k),
        t.expr@ == end_correction(l, a, b, d, less),
{
    let inv_p = c.over(c.lit(ONE), c.times(c.lit(FORTY), c.num(l)));
    let inv_p2 = c.times(inv_p, inv_p);
    let first = c.plus(c.lit(a), c.times(c.lit(b), inv_p));
    if less {
        c.minus(first, c.times(c.lit(d), inv_p2))
    } else {
        c.plus(first, c.times(c.lit(d), inv_p2))
    }
}

/// The terms of a rod.
pub fn tirado_terms_for_length<K: Arithmetic>(k: &K, l: Double) -> (terms: TiradoTerms)
    ensures
        tirado_terms_gives(k, l, terms),
{
    let c = Calc::new(k);
    let log_p = c.ln_of(c.times(c.lit(FORTY), c.num(l)));
    let nu_parallel = correction(
        &c,
        l,
        0xbfca_7ef9_db22_d0e5,
        0x3fef_5c28_f5c2_8f5c,
        0x3fc1_0624_dd2f_1aa0,
        true,
    );
    let nu_perp = correction(
        &c,
        l,
        0x3fea_d916_872b_020c,
        0x3fc7_ae14_7ae1_47ae,
        0x3fcd_d2f1_a9fb_e76d,
        false,
    );
    let delta_perp = correction(
        &c,
        l,
        0xbfe4_28f5_c28f_5c29,
        0x3fed_5810_624d_d2f2,
        0x3fa9_9999_9999_999a,
        true,
    );
    let lead = c.plus(c.times(c.lit(THREE), log_p), c.times(c.lit(TWO), nu_parallel));
    TiradoTerms {
        log_p: log_p.value,
        nu_parallel: nu_parallel.value,
        delta_perp: delta_perp.value,
        denominator: c.plus(lead, nu_perp).value,
    }
}

/// The diffusion along a rod, from its terms and those of the reference rod:
/// 4 (r / l) (ln p + nu) / B.
pub open spec fn d_parallel_of(
    l: Double,
    reference_length: Double,
    terms: TiradoTerms,
    reference: TiradoTerms,
) -> Expr {
    over(
        times(
            times(lit(FOUR), over(num(reference_length), num(l))),
            plus(num(terms.log_p), num(terms.nu_parallel)),
        ),
        num(reference.denominator),
    )
}

/// The diffusion across a rod, half of that along it.
pub open spec fn d_perp_of(d_parallel: Double) -> Expr {
    times(lit(HALF), num(d_parallel))
}

/// The rotational diffusion of a rod, from its terms and those of the reference rod:
/// 24 r (ln p + delta) / (l^3 B).
pub open spec fn d_r_of(
    l: Double,
    reference_length: Double,
    terms: TiradoTerms,
    reference: TiradoTerms,
) -> Expr {
    over(
        times(
            times(lit(TWENTY_FOUR), num(reference_length)),
            plus(num(terms.log_p), num(terms.delta_perp)),
        ),
        times(times(times(num(l), num(l)), num(l)), num(reference.denominator)),
    )
}

/// Whether these are the diffusion coefficients of a rod with its terms and those of the reference
/// rod.
pub open spec fn coefficients_from<K: Arithmetic>(
    k: &K,
    l: Double,
    reference_length: Double,
    terms: TiradoTerms,
    reference: TiradoTerms,
    d: Diffusion,
) -> bool {
    &&& gives(k, d_parallel_of(l, reference_length, terms, reference), d.d_parallel)
    &&& gives(k, d_perp_of(d.d_parallel), d.d_perp)
    &&& gives(k, d_r_of(l, reference_length, terms, reference), d.d_r)
}

/// Whether these are the diffusion coefficients of a rod. All rods share the time scale of the
/// reference rod; across the rod diffusion is half as fast as along it.
pub open spec fn diffusion_for_length_gives<K: Arithmetic>(
    k: &K,
    l: Double,
    reference_length: Double,
    d: Diffusion,
) -> bool {
    exists|terms: TiradoTerms, reference: TiradoTerms|
        {
            &&& #[trigger] tirado_terms_gives(k, l, terms)
            &&& #[trigger] tirado_terms_gives(k, reference_length, reference)
            &&& coefficients_from(k, l, reference_length, terms, reference, d)
        }
}

/// The diffusion coefficients of a rod.
pub fn diffusion_for_length<K: Arithmetic>(k: &K, l: Double, reference_length: Double) -> (d:
    Diffusion)
    ensures
        diffusion_for_length_gives(k, l, reference_length, d),
{
    let c = Calc::new(k);
    let terms = tirado_terms_for_length(k, l);
    let reference = tirado_terms_for_length(k, reference_length);
    let length = c.num(l);
    let along = c.times(c.lit(FOUR), c.over(c.num(reference_length), length));
    let d_parallel = c.over(
        c.times(along, c.plus(c.num(terms.log_p), c.num(terms.nu_parallel))),
        c.num(reference.denominator),
    ).value;
    let d_perp = c.times(c.lit(HALF), c.num(d_parallel)).value;
    let turn = c.times(c.lit(TWENTY_FOUR), c.num(reference_length));
    let cube = c.times(c.times(length, length), length);
    let d_r = c.over(
        c.times(turn, c.plus(c.num(terms.log_p), c.num(terms.delta_perp))),
        c.times(cube, c.num(reference.denominator)),
    ).value;
    Diffusion { d_parallel, d_perp, d_r }
}

// ---- Results ----

/// The outcome of one trial.
#[derive(Clone, Copy, Debug)]
pub struct TrialResult {
    pub case_id: u32,
    pub trial_id: u64,
    /// The GPU that ran the trial; none for the CPU.
    pub gpu_id: Option<usize>,
    pub case: Case,
    pub x0: Double,
    pub y0: Double,
    pub phi0: Double,
    pub x_end: Double,
    pub y_end: Double,
    pub phi_end: Double,
    pub t: Double,
    pub steps: u64,
    pub status: i32,
    pub pass_direction: i32,
}

/// One line of the trial table.
#[derive(Debug)]
pub struct TrialCsvRow {
    pub case_id: u32,
    pub trial_id: u64,
    pub gpu_id: Option<usize>,
    pub m: i32,
    pub l: Double,
    pub gamma: Double,
    pub delta: Double,
    pub f: Double,
    pub x0: Double,
    pub y0: Double,
    pub phi0: Double,
    pub x_end: Double,
    pub y_end: Double,
    pub phi_end: Double,
    pub t: Double,
    pub steps: u64,
    pub status: &'static str,
    pub pass_direction: &'static str,
}

/// The summary of a case that measures first passages.
#[derive(Clone, Debug)]
pub struct SummaryRow {
    pub mode: Mode,
    pub case_id: u32,
    pub gpu_id: Option<usize>,
    pub m: i32,
    pub l: Double,
    pub gamma: Double,
    pub delta: Double,
    pub f: Double,
    pub n_total: usize,
    pub n_ok: usize,
    pub n_right_passes: usize,
    pub n_left_passes: usize,
    pub n_max_steps: usize,
    pub passage_fraction: Double,
    pub t1: Double,
    pub t2: Double,
    /// Mobility; not a number without a force.
    pub mu: Double,
    pub d_eff: Double,
    pub dt: Double,
    pub sigma: Double,
    pub epsilon: Double,
    pub seed: u64,
}

/// The summary of a case that measures displacements over a fixed time.
#[derive(Clone, Debug)]
pub struct FixedTimeRow {
    pub mode: Mode,
    pub case_id: u32,
    pub gpu_id: Option<usize>,
    pub m: i32,
    pub l: Double,
    pub gamma: Double,
    pub delta: Double,
    pub f: Double,
    pub n_total: usize,
    /// The time that all trials ran.
    pub time: Double,
    pub mean_dx: Double,
    pub var_dx: Double,
    pub v_mean: Double,
    pub t1: Double,
    /// Mobility; not a number without a force.
    pub mu: Double,
    pub d_eff: Double,
    pub dt: Double,
    pub sigma: Double,
    pub epsilon: Double,
    pub seed: u64,
}

/// The summary of a case.
#[derive(Clone, Debug)]
pub enum Summary {
    FirstPassage(SummaryRow),
    FixedTime(FixedTimeRow),
}

impl Summary {
    /// The case that the summary is of.
    pub open spec fn case_id_spec(self) -> u32 {
        match self {
            Summary::FirstPassage(row) => row.case_id,
            Summary::FixedTime(row) => row.case_id,
        }
    }

    /// The case that the summary is of.
    pub fn case_id(&self) -> (id: u32)
        ensures
            id == self.case_id_spec(),
    {
        match self {
            Summary::FirstPassage(row) => row.case_id,
            Summary::FixedTime(row) => row.case_id,
        }
    }
}

/// The summary of a case and its histograms, flattened with x as the slow index.
#[derive(Debug)]
pub struct CaseOutput {
    pub summary: Summary,
    pub hist_phi: Vec<u64>,
    pub hist_y: Vec<u64>,
}

/// One event of the progress log.
#[derive(Debug)]
pub struct ProgressRow {
    pub timestamp_ms: u128,
    /// The GPU that runs the case; none for the CPU.
    pub gpu_id: Option<usize>,
    pub case_id: u32,
    pub completed_cases: usize,
    pub total_cases: usize,
    pub completed_trials: usize,
    pub total_trials: usize,
    pub current_steps: u64,
    pub max_steps: u64,
    pub status: String,
}

// ---- Labels ----

/// The label of a status code.
pub open spec fn status_text(status: i32) -> Seq<char> {
    if status == STATUS_OK {
        "ok"@
    } else if status == STATUS_MAX_STEPS {
        "max_steps"@
    } else if status == STATUS_RUNNING {
        "running"@
    } else {
        "unknown"@
    }
}

/// The label of a passage direction.
pub open spec fn pass_direction_text(direction: i32) -> Seq<char> {
    if direction == PASS_DIRECTION_RIGHT {
        "right"@
    } else if direction == PASS_DIRECTION_LEFT {
        "left"@
    } else if direction == PASS_DIRECTION_NONE {
        "not_passed"@
    } else {
        "unknown"@
    }
}

/// The label of a status code.
pub fn status_label(status: i32) -> (label: &'static str)
    ensures
        label@ == status_text(status),
{
    if status == STATUS_OK {
        "ok"
    } else if status == STATUS_MAX_STEPS {
        "max_steps"
    } else if status == STATUS_RUNNING {
        "running"
    } else {
        "unknown"
    }
}

/// The label of a passage direction.
pub fn pass_direction_label(direction: i32) -> (label: &'static str)
    ensures
        label@ == pass_direction_text(direction),
{
    if direction == PASS_DIRECTION_RIGHT {
        "right"
    } else if direction == PASS_DIRECTION_LEFT {
        "left"
    } else if direction == PASS_DIRECTION_NONE {
        "not_passed"
    } else {
        "unknown"
    }
}

impl TrialResult {
    /// Whether `row` is the table line of the trial.
    pub open spec fn row_of(self, row: TrialCsvRow) -> bool {
        &&& row.case_id == self.case_id
        &&& row.trial_id == self.trial_id
        &&& row.gpu_id == self.gpu_id
        &&& row.m == self.case.m
        &&& row.l == self.case.l
        &&& row.gamma == self.case.gamma
        &&& row.delta == self.case.delta
        &&& row.f == self.case.f
        &&& row.x0 == self.x0
        &&& row.y0 == self.y0
        &&& row.phi0 == self.phi0
        &&& row.x_end == self.x_end
        &&& row.y_end == self.y_end
        &&& row.phi_end == self.phi_end
        &&& row.t == self.t
        &&& row.steps == self.steps
        &&& row.status@ == status_text(self.status)
        &&& row.pass_direction@ == pass_direction_text(self.pass_direction)
    }

    /// The table line of the trial, with labels in place of codes.
    pub fn to_csv_row(&self) -> (row: TrialCsvRow)
        ensures
            self.row_of(row),
    {
        TrialCsvRow {
            case_id: self.case_id,
            trial_id: self.trial_id,
            gpu_id: self.gpu_id,
            m: self.case.m,
            l: self.case.l,
            gamma: self.case.gamma,
            delta: self.case.delta,
            f: self.case.f,
            x0: self.x0,
            y0: self.y0,
            phi0: self.phi0,
            x_end: self.x_end,
            y_end: self.y_end,
            phi_end: self.phi_end,
            t: self.t,
            steps: self.steps,
            status: status_label(self.status),
            pass_direction: pass_direction_label(self.pass_direction),
        }
    }
}

// ---- Counting trials ----

/// How many of the first `n` numbers satisfy a predicate.
pub open spec fn count_of(n: nat, p: spec_fn(int) -> bool) -> nat
    decreases n,
{
    if n == 0 {
        0
    } else {
        count_of((n - 1) as nat, p) + if p(n - 1) {
            1nat
        } else {
            0
        }
    }
}

/// The times of those of the first `n` trials that ended with a passage, in order.
pub open spec fn passage_times(times: Seq<Double>, statuses: Seq<i32>, n: nat) -> Seq<Double>
    decreases n,
{
    if n == 0 {
        Seq::empty()
    } else {
        let front = passage_times(times, statuses, (n - 1) as nat);
        if statuses[n - 1] == STATUS_OK {
            front.push(times[n - 1])
        } else {
            front
        }
    }
}

/// The shortest of three lengths: lists are read side by side as far as all of them go.
pub open spec fn common_len(a: nat, b: nat, c: nat) -> nat {
    let ab = if a < b {
        a
    } else {
        b
    };
    if ab < c {
        ab
    } else {
        c
    }
}

/// The trials of a case by their outcome.
#[derive(Clone, Debug)]
pub struct TrialTally {
    pub n_ok: usize,
    pub n_right_passes: usize,
    pub n_left_passes: usize,
    pub n_max_steps: usize,
    /// The times of the trials with a passage.
    pub passage_times: Vec<Double>,
}

impl TrialTally {
    /// Whether the tally counts the first `n` trials: passages, passages to either side, trials
    /// that ran out of steps, and the times of the passages.
    pub open spec fn counts(
        self,
        times: Seq<Double>,
        statuses: Seq<i32>,
        directions: Seq<i32>,
        n: nat,
    ) -> bool {
        &&& self.n_ok == count_of(n, |i: int| statuses[i] == STATUS_OK)
        &&& self.n_right_passes == count_of(
            n,
            |i: int| statuses[i] == STATUS_OK && directions[i] == PASS_DIRECTION_RIGHT,
        )
        &&& self.n_left_passes == count_of(
            n,
            |i: int| statuses[i] == STATUS_OK && directions[i] == PASS_DIRECTION_LEFT,
        )
        &&& self.n_max_steps == count_of(n, |i: int| statuses[i] == STATUS_MAX_STEPS)
        &&& self.passage_times@ == passage_times(times, statuses, n)
    }
}

proof fn lemma_count_bound(n: nat, p: spec_fn(int) -> bool)
    ensures
        count_of(n, p) <= n,
    decreases n,
{
    if n > 0 {
        lemma_count_bound((n - 1) as nat, p);
    }
}

/// Counts the trials of a case.
pub fn tally_trials(times: &Vec<Double>, statuses: &Vec<i32>, directions: &Vec<i32>) -> (tally:
    TrialTally)
    ensures
        tally.counts(
            times@,
            statuses@,
            directions@,
            common_len(times@.len(), statuses@.len(), directions@.len()),
        ),
{
    let mut n_ok: usize = 0;
    let mut n_right_passes: usize = 0;
    let mut n_left_passes: usize = 0;
    let mut n_max_steps: usize = 0;
    let mut passed: Vec<Double> = Vec::new();
    let ghost is_ok = |i: int| statuses@[i] == STATUS_OK;
    let ghost is_right = |i: int|
        statuses@[i] == STATUS_OK && directions@[i] == PASS_DIRECTION_RIGHT;
    let ghost is_left = |i: int| statuses@[i] == STATUS_OK && directions@[i] == PASS_DIRECTION_LEFT;
    let ghost is_max = |i: int| statuses@[i] == STATUS_MAX_STEPS;
    let mut i: usize = 0;
    while i < times.len() && i < statuses.len() && i < directions.len()
        invariant
            i <= times.len(),
            i <= statuses.len(),
            i <= directions.len(),
            is_ok == (|i: int| statuses@[i] == STATUS_OK),
            is_right == (|i: int|
                statuses@[i] == STATUS_OK && directions@[i] == PASS_DIRECTION_RIGHT),
            is_left == (|i: int|
                statuses@[i] == STATUS_OK && directions@[i] == PASS_DIRECTION_LEFT),
            is_max == (|i: int| statuses@[i] == STATUS_MAX_STEPS),
            n_ok == count_of(i as nat, is_ok),
            n_right_passes == count_of(i as nat, is_right),
            n_left_passes == count_of(i as nat, is_left),
            n_max_steps == count_of(i as nat, is_max),
            passed@ == passage_times(times@, statuses@, i as nat),
        decreases times.len() - i,
    {
        proof {
            lemma_count_bound(i as nat, is_ok);
            lemma_count_bound(i as nat, is_right);
            lemma_count_bound(i as nat, is_left);
            lemma_count_bound(i as nat, is_max);
        }
        let status: i32 = statuses[i];
        let direction: i32 = directions[i];
        if status == STATUS_OK {
            n_ok = n_ok + 1;
            passed.push(times[i]);
            if direction == PASS_DIRECTION_RIGHT {
                n_right_passes = n_right_passes + 1;
            } else if direction == PASS_DIRECTION_LEFT {
                n_left_passes = n_left_passes + 1;
            }
        } else if status == STATUS_MAX_STEPS {
            n_max_steps = n_max_steps + 1;
        }
        i = i + 1;
    }
    TrialTally { n_ok, n_right_passes, n_left_passes, n_max_steps, passage_times: passed }
}

/// Passages to the left and to the right are passages, a trial that passed did not run out of
/// steps, and no time is counted that does not belong to a passage.
pub proof fn law_tally(
    tally: TrialTally,
    times: Seq<Double>,
    statuses: Seq<i32>,
    directions: Seq<i32>,
    n: nat,
)
    requires
        tally.counts(times, statuses, directions, n),
    ensures
        tally.n_right_passes + tally.n_left_passes <= tally.n_ok,
        tally.n_ok + tally.n_max_steps <= n,
        tally.passage_times@.len() == tally.n_ok,
{
    lemma_tally(times, statuses, directions, n);
}

proof fn lemma_tally(times: Seq<Double>, statuses: Seq<i32>, directions: Seq<i32>, n: nat)
    ensures
        ({
            let ok = count_of(n, |i: int| statuses[i] == STATUS_OK);
            let right = count_of(
                n,
                |i: int| statuses[i] == STATUS_OK && directions[i] == PASS_DIRECTION_RIGHT,
            );
            let left = count_of(
                n,
                |i: int| statuses[i] == STATUS_OK && directions[i] == PASS_DIRECTION_LEFT,
            );
            let max = count_of(n, |i: int| statuses[i] == STATUS_MAX_STEPS);
            &&& right + left <= ok
            &&& ok + max <= n
            &&& passage_times(times, statuses, n).len() == ok
        }),
    decreases n,
{
    if n > 0 {
        lemma_tally(times, statuses, directions, (n - 1) as nat);
    }
}

/// Once every trial has ended, each is counted as a passage or as out of steps.
pub proof fn law_tally_is_complete(
    tally: TrialTally,
    times: Seq<Double>,
    statuses: Seq<i32>,
    directions: Seq<i32>,
    n: nat,
)
    requires
        tally.counts(times, statuses, directions, n),
        forall|i: int|
            0 <= i < n ==> #[trigger] statuses[i] == STATUS_OK || statuses[i] == STATUS_MAX_STEPS,
    ensures
        tally.n_ok + tally.n_max_steps == n,
{
    lemma_tally_is_complete(statuses, n);
}

proof fn lemma_tally_is_complete(statuses: Seq<i32>, n: nat)
    requires
        forall|i: int|
            0 <= i < n ==> #[trigger] statuses[i] == STATUS_OK || statuses[i] == STATUS_MAX_STEPS,
    ensures
        count_of(n, |i: int| statuses[i] == STATUS_OK) + count_of(
            n,
            |i: int| statuses[i] == STATUS_MAX_STEPS,
        ) == n,
    decreases n,
{
    if n > 0 {
        lemma_tally_is_complete(statuses, (n - 1) as nat);
        assert(statuses[n - 1] == STATUS_OK || statuses[n - 1] == STATUS_MAX_STEPS);
    }
}

// ---- Summaries ----

/// Means over the passages of a case.
#[derive(Clone, Copy, Debug)]
pub struct PassageMeans {
    pub t1: Double,
    pub t2: Double,
    pub velocity: Double,
    pub d_eff: Double,
}

/// Means over the displacements of a case.
#[derive(Clone, Copy, Debug)]
pub struct DisplacementMeans {
    pub time: Double,
    pub mean_dx: Double,
    pub var_dx: Double,
    pub v_mean: Double,
    pub t1: Double,
    pub d_eff: Double,
}

/// The sum of the first `n` values.
pub open spec fn sum_of(values: Seq<Double>, n: nat) -> Expr
    decreases n,
{
    if n == 0 {
        num(Double::zero())
    } else {
        plus(sum_of(values, (n - 1) as nat), num(values[n - 1]))
    }
}

/// The sum of the squares of the first `n` values.
pub open spec fn square_sum_of(values: Seq<Double>, n: nat) -> Expr
    decreases n,
{
    if n == 0 {
        num(Double::zero())
    } else {
        plus(
            square_sum_of(values, (n - 1) as nat),
            times(num(values[n - 1]), num(values[n - 1])),
        )
    }
}

/// Whether these are the mean and the mean square of some values.
pub open spec fn moments_gives<K: Arithmetic>(
    k: &K,
    values: Seq<Double>,
    first: Double,
    second: Double,
) -> bool {
    let n = nat_of(values.len() as u64);
    &&& gives(k, over(sum_of(values, values.len()), n), first)
    &&& gives(k, over(square_sum_of(values, values.len()), n), second)
}

fn moments<K: Arithmetic>(k: &K, values: &Vec<Double>) -> (r: (Double, Double))
    ensures
        moments_gives(k, values@, r.0, r.1),
{
    let c = Calc::new(k);
    let mut sum = c.num(Double::zero());
    let mut squares = c.num(Double::zero());
    let mut i: usize = 0;
    while i < values.len()
        invariant
            i <= values.len(),
            c.k == k,
            sum.of(k),
            sum.expr@ == sum_of(values@, i as nat),
            squares.of(k),
            squares.expr@ == square_sum_of(values@, i as nat),
        decreases values.len() - i,
    {
        let x = c.num(values[i]);
        sum = c.plus(sum, x);
        squares = c.plus(squares, c.times(x, x));
        i = i + 1;
    }
    let n = c.nat_of(values.len() as u64);
    (c.over(sum, n).value, c.over(squares, n).value)
}

/// Whether `fraction` is a part of a whole.
pub open spec fn fraction_gives<K: Arithmetic>(
    k: &K,
    part: usize,
    whole: usize,
    fraction: Double,
) -> bool {
    gives(k, over(nat_of(part as u64), nat_of(whole as u64)), fraction)
}

/// Whether these are the means over passage times: T1, T2, the velocity L / T1, and
/// L^2 (T2 - T1^2) / (2 T1^3).
pub open spec fn passage_means_gives<K: Arithmetic>(
    k: &K,
    times_passed: Seq<Double>,
    means: PassageMeans,
) -> bool {
    let t1 = num(means.t1);
    let period = lit(L_PERIOD);
    &&& moments_gives(k, times_passed, means.t1, means.t2)
    &&& gives(k, over(period, t1), means.velocity)
    &&& gives(
        k,
        over(
            times(
                times(times(lit(HALF), period), period),
                minus(num(means.t2), times(t1, t1)),
            ),
            times(times(t1, t1), t1),
        ),
        means.d_eff,
    )
}

/// The means over passage times.
pub fn passage_means<K: Arithmetic>(k: &K, times_passed: &Vec<Double>) -> (means: PassageMeans)
    ensures
        passage_means_gives(k, times_passed@, means),
{
    let c = Calc::new(k);
    let (mean, square) = moments(k, times_passed);
    let t1 = c.num(mean);
    let period = c.lit(L_PERIOD);
    let velocity = c.over(period, t1).value;
    let lead = c.times(c.times(c.lit(HALF), period), period);
    let upper = c.times(lead, c.minus(c.num(square), c.times(t1, t1)));
    let d_eff = c.over(upper, c.times(c.times(t1, t1), t1)).value;
    PassageMeans { t1: mean, t2: square, velocity, d_eff }
}

/// Whether `moved` are the displacements from start to end, as far as both lists go.
pub open spec fn displacements_gives<K: Arithmetic>(
    k: &K,
    starts: Seq<Double>,
    ends: Seq<Double>,
    moved: Seq<Double>,
) -> bool {
    &&& moved.len() == if starts.len() < ends.len() {
        starts.len()
    } else {
        ends.len()
    }
    &&& forall|i: int|
        0 <= i < moved.len() ==> gives(k, minus(num(ends[i]), num(starts[i])), #[trigger] moved[i])
}

/// Whether these are the means over displacements in the time of all steps: the mean, the variance,
/// the velocity, the time of one period at that speed, and half the variance over the time.
pub open spec fn displacement_means_gives<K: Arithmetic>(
    k: &K,
    starts: Seq<Double>,
    ends: Seq<Double>,
    physics: Physics,
    means: DisplacementMeans,
) -> bool {
    exists|moved: Seq<Double>, square: Double|
        {
            &&& #[trigger] displacements_gives(k, starts, ends, moved)
            &&& #[trigger] moments_gives(k, moved, means.mean_dx, square)
            &&& gives(k, times(nat_of(physics.max_steps), num(physics.delta_t)), means.time)
            &&& gives(
                k,
                minus(num(square), times(num(means.mean_dx), num(means.mean_dx))),
                means.var_dx,
            )
            &&& gives(k, over(num(means.mean_dx), num(means.time)), means.v_mean)
            &&& gives(k, over(lit(L_PERIOD), num(means.v_mean.absolute())), means.t1)
            &&& gives(
                k,
                over(num(means.var_dx), times(lit(TWO), num(means.time))),
                means.d_eff,
            )
        }
}

/// The means over the displacements from start to end.
pub fn displacement_means<K: Arithmetic>(
    k: &K,
    starts: &Vec<Double>,
    ends: &Vec<Double>,
    physics: &Physics,
) -> (means: DisplacementMeans)
    ensures
        displacement_means_gives(k, starts@, ends@, *physics, means),
{
    let c = Calc::new(k);
    let mut moved: Vec<Double> = Vec::new();
    let mut i: usize = 0;
    while i < starts.len() && i < ends.len()
        invariant
            i <= starts.len(),
            i <= ends.len(),
            moved.len() == i,
            c.k == k,
            forall|j: int|
                0 <= j < i ==> gives(
                    k,
                    minus(num(ends@[j]), num(starts@[j])),
                    #[trigger] moved@[j],
                ),
        decreases starts.len() - i,
    {
        moved.push(c.minus(c.num(ends[i]), c.num(starts[i])).value);
        i = i + 1;
    }
    assert(displacements_gives(k, starts@, ends@, moved@));
    let (mean_dx, square) = moments(k, &moved);
    let mean = c.num(mean_dx);
    let time = c.times(c.nat_of(physics.max_steps), c.num(physics.delta_t)).value;
    let var_dx = c.minus(c.num(square), c.times(mean, mean)).value;
    let v_mean = c.over(mean, c.num(time)).value;
    let t1 = c.over(c.lit(L_PERIOD), c.num(v_mean.abs())).value;
    let d_eff = c.over(c.num(var_dx), c.times(c.lit(TWO), c.num(time))).value;
    DisplacementMeans { time, mean_dx, var_dx, v_mean, t1, d_eff }
}

/// The mobility of a case: a velocity over its force, and not a number without a force.
pub open spec fn mobility_outcome<K: Arithmetic>(
    k: &K,
    velocity: Double,
    f: Double,
    mu: Double,
) -> bool {
    if f.same_number(Double::zero()) {
        mu == Double::undefined()
    } else {
        gives(k, over(num(velocity), num(f)), mu)
    }
}

/// The means of a case with first passages: those of the passage times, and not a number without
/// a passage.
pub open spec fn passage_outcome<K: Arithmetic>(
    k: &K,
    passed: Seq<Double>,
    f: Double,
    row: SummaryRow,
) -> bool {
    if passed.len() == 0 {
        &&& row.t1 == Double::undefined()
        &&& row.t2 == Double::undefined()
        &&& row.mu == Double::undefined()
        &&& row.d_eff == Double::undefined()
    } else {
        exists|means: PassageMeans|
            {
                &&& #[trigger] passage_means_gives(k, passed, means)
                &&& row.t1 == means.t1
                &&& row.t2 == means.t2
                &&& row.d_eff == means.d_eff
                &&& mobility_outcome(k, means.velocity, f, row.mu)
            }
    }
}

/// Whether `row` summarizes trials with first passages, given by their times, statuses and
/// directions.
pub open spec fn first_passage_summary<K: Arithmetic>(
    k: &K,
    gpu_id: Option<usize>,
    case: Case,
    n_total: usize,
    physics: Physics,
    times: Seq<Double>,
    statuses: Seq<i32>,
    directions: Seq<i32>,
    row: SummaryRow,
) -> bool {
    let n = common_len(times.len(), statuses.len(), directions.len());
    &&& row.mode == Mode::FirstPassage
    &&& row.case_id == case.case_id
    &&& row.gpu_id == gpu_id
    &&& row.m == case.m
    &&& row.l == case.l
    &&& row.gamma == case.gamma
    &&& row.delta == case.delta
    &&& row.f == case.f
    &&& row.n_total == n_total
    &&& row.dt == physics.delta_t
    &&& row.sigma == physics.sigma
    &&& row.epsilon == physics.epsilon
    &&& row.seed == seed_of(case.m, case.gamma, case.delta, case.f)
    &&& row.n_ok == count_of(n, |i: int| statuses[i] == STATUS_OK)
    &&& row.n_right_passes == count_of(
        n,
        |i: int| statuses[i] == STATUS_OK && directions[i] == PASS_DIRECTION_RIGHT,
    )
    &&& row.n_left_passes == count_of(
        n,
        |i: int| statuses[i] == STATUS_OK && directions[i] == PASS_DIRECTION_LEFT,
    )
    &&& row.n_max_steps == count_of(n, |i: int| statuses[i] == STATUS_MAX_STEPS)
    &&& fraction_gives(k, row.n_ok, n_total, row.passage_fraction)
    &&& passage_outcome(k, passage_times(times, statuses, n), case.f, row)
}

/// Whether `row` summarizes trials over a fixed time, given by their starts and ends.
pub open spec fn fixed_time_summary<K: Arithmetic>(
    k: &K,
    gpu_id: Option<usize>,
    case: Case,
    n_total: usize,
    physics: Physics,
    starts: Seq<Double>,
    ends: Seq<Double>,
    row: FixedTimeRow,
) -> bool {
    &&& row.mode == Mode::FixedTime
    &&& row.case_id == case.case_id
    &&& row.gpu_id == gpu_id
    &&& row.m == case.m
    &&& row.l == case.l
    &&& row.gamma == case.gamma
    &&& row.delta == case.delta
    &&& row.f == case.f
    &&& row.n_total == n_total
    &&& row.dt == physics.delta_t
    &&& row.sigma == physics.sigma
    &&& row.epsilon == physics.epsilon
    &&& row.seed == seed_of(case.m, case.gamma, case.delta, case.f)
    &&& exists|means: DisplacementMeans|
        {
            &&& #[trigger] displacement_means_gives(k, starts, ends, physics, means)
            &&& row.time == means.time
            &&& row.mean_dx == means.mean_dx
            &&& row.var_dx == means.var_dx
            &&& row.v_mean == means.v_mean
            &&& row.t1 == means.t1
            &&& row.d_eff == means.d_eff
            &&& mobility_outcome(k, means.v_mean, case.f, row.mu)
        }
}

fn mobility_of<K: Arithmetic>(k: &K, velocity: Double, f: Double) -> (mu: Double)
    ensures
        mobility_outcome(k, velocity, f, mu),
{
    if f.is_zero() {
        Double::undefined()
    } else {
        let c = Calc::new(k);
        c.over(c.num(velocity), c.num(f)).value
    }
}

/// Summarizes a case that measures first passages. Trials that ran out of steps are counted, and
/// left out of the means.
pub fn summarize_trials<K: Arithmetic>(
    k: &K,
    gpu_id: Option<usize>,
    case: Case,
    n_total: usize,
    physics: &Physics,
    times: &Vec<Double>,
    statuses: &Vec<i32>,
    pass_directions: &Vec<i32>,
) -> (row: SummaryRow)
    ensures
        first_passage_summary(
            k,
            gpu_id,
            case,
            n_total,
            *physics,
            times@,
            statuses@,
            pass_directions@,
            row,
        ),
{
    let tally = tally_trials(times, statuses, pass_directions);
    let ghost n = common_len(times@.len(), statuses@.len(), pass_directions@.len());
    proof {
        lemma_tally(times@, statuses@, pass_directions@, n);
    }
    let (t1, t2, mu, d_eff) = if tally.n_ok > 0 {
        let means = passage_means(k, &tally.passage_times);
        let mu = mobility_of(k, means.velocity, case.f);
        (means.t1, means.t2, mu, means.d_eff)
    } else {
        (Double::undefined(), Double::undefined(), Double::undefined(), Double::undefined())
    };
    let c = Calc::new(k);
    let passage_fraction = c.over(c.nat_of(tally.n_ok as u64), c.nat_of(n_total as u64)).value;
    let row = SummaryRow {
        mode: Mode::FirstPassage,
        case_id: case.case_id,
        gpu_id,
        m: case.m,
        l: case.l,
        gamma: case.gamma,
        delta: case.delta,
        f: case.f,
        n_total,
        n_ok: tally.n_ok,
        n_right_passes: tally.n_right_passes,
        n_left_passes: tally.n_left_passes,
        n_max_steps: tally.n_max_steps,
        passage_fraction,
        t1,
        t2,
        mu,
        d_eff,
        dt: physics.delta_t,
        sigma: physics.sigma,
        epsilon: physics.epsilon,
        seed: case.seed(),
    };
    assert(passage_outcome(k, passage_times(times@, statuses@, n), case.f, row));
    row
}

/// Summarizes a case that measures displacements over a fixed time.
pub fn summarize_fixed_time<K: Arithmetic>(
    k: &K,
    gpu_id: Option<usize>,
    case: Case,
    n_total: usize,
    physics: &Physics,
    starts: &Vec<Double>,
    ends: &Vec<Double>,
) -> (row: FixedTimeRow)
    ensures
        fixed_time_summary(k, gpu_id, case, n_total, *physics, starts@, ends@, row),
{
    let means = displacement_means(k, starts, ends, physics);
    let mu = mobility_of(k, means.v_mean, case.f);
    FixedTimeRow {
        mode: Mode::FixedTime,
        case_id: case.case_id,
        gpu_id,
        m: case.m,
        l: case.l,
        gamma: case.gamma,
        delta: case.delta,
        f: case.f,
        n_total,
        time: means.time,
        mean_dx: means.mean_dx,
        var_dx: means.var_dx,
        v_mean: means.v_mean,
        t1: means.t1,
        mu,
        d_eff: means.d_eff,
        dt: physics.delta_t,
        sigma: physics.sigma,
        epsilon: physics.epsilon,
        seed: case.seed(),
    }
}

} // verus!
