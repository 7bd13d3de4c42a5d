//! The run over all cases: which workers there are, what they report, and what is written when.
//!
//! Workers report to one place, which alone writes files. The state of that place is `RunState`;
//! files and channels are the caller's.

use std::collections::{HashSet, VecDeque};
use vstd::prelude::*;
use vstd::string::*;
use crate::case_run::CpuCaseResult;
use crate::config::Case;
use crate::gpu::{GpuProgress, GpuRunConfig};
use crate::model::{count_of, CaseOutput, ProgressRow, TrialResult};
use crate::text;

verus! {

/// Steps of one launch.
pub const STEPS_PER_LAUNCH: u32 = 10_000;

/// Shortest time between two reports of a case on a device, in milliseconds.
pub const PROGRESS_INTERVAL_MS: u64 = 5_000;

/// Trials that should run side by side on one device.
pub const TARGET_CONCURRENT_TRIALS: usize = 200_000;

/// Cases that run side by side on one device at most.
pub const MAX_TASKS_PER_GPU: usize = 96;

// ---- Messages ----

/// What a worker reports.
#[derive(Debug)]
pub enum WorkerMessage {
    Progress(ProgressRow),
    /// Results of trials of one case.
    TrialsReady(Vec<TrialResult>),
    CaseFinished(CaseOutput),
    WorkerDone { worker: String },
    WorkerError { worker: String, message: String },
}

/// The label of a worker.
pub open spec fn worker_text(gpu_id: Option<usize>) -> Seq<char> {
    match gpu_id {
        Some(id) => "gpu:"@ + text::numeral(id as nat),
        None => "cpu"@,
    }
}

/// The label of a worker: its device, or the CPU.
pub fn worker_label(gpu_id: Option<usize>) -> (label: String)
    ensures
        label@ == worker_text(gpu_id),
{
    match gpu_id {
        Some(id) => {
            let mut label = "gpu:".to_owned();
            label.append(text::decimal(id as u64).as_str());
            label
        },
        None => "cpu".to_owned(),
    }
}

/// The line that shows an event of the progress log.
pub open spec fn progress_text(row: ProgressRow) -> Seq<char> {
    "worker="@ + worker_text(row.gpu_id) + " case="@ + text::numeral(row.case_id as nat)
        + " cases="@ + text::numeral(row.completed_cases as nat) + "/"@ + text::numeral(
        row.total_cases as nat,
    ) + " trials="@ + text::numeral(row.completed_trials as nat) + "/"@ + text::numeral(
        row.total_trials as nat,
    ) + " steps="@ + text::numeral(row.current_steps as nat) + " status="@ + row.status@
}

/// The line that shows an event of the progress log.
pub fn progress_line(row: &ProgressRow) -> (line: String)
    ensures
        line@ == progress_text(*row),
{
    let mut line = "worker=".to_owned();
    line.append(worker_label(row.gpu_id).as_str());
    line.append(" case=");
    line.append(text::decimal(row.case_id as u64).as_str());
    line.append(" cases=");
    line.append(text::decimal(row.completed_cases as u64).as_str());
    line.append("/");
    line.append(text::decimal(row.total_cases as u64).as_str());
    line.append(" trials=");
    line.append(text::decimal(row.completed_trials as u64).as_str());
    line.append("/");
    line.append(text::decimal(row.total_trials as u64).as_str());
    line.append(" steps=");
    line.append(text::decimal(row.current_steps).as_str());
    line.append(" status=");
    line.append(row.status.as_str());
    line
}

/// The log event for a report of a device.
pub fn progress_row(
    config: &GpuRunConfig,
    progress: &GpuProgress,
    completed_cases: usize,
    total_cases: usize,
    timestamp_ms: u128,
) -> (row: ProgressRow)
    ensures
        row.timestamp_ms == timestamp_ms,
        row.gpu_id == Some(config.device_id),
        row.case_id == progress.case_id,
        row.completed_cases == completed_cases,
        row.total_cases == total_cases,
        row.completed_trials == progress.completed_trials,
        row.total_trials == progress.total_trials,
        row.current_steps == progress.current_steps,
        row.max_steps == config.max_steps,
        row.status@ == progress.status@,
{
    ProgressRow {
        timestamp_ms,
        gpu_id: Some(config.device_id),
        case_id: progress.case_id,
        completed_cases,
        total_cases,
        completed_trials: progress.completed_trials,
        total_trials: progress.total_trials,
        current_steps: progress.current_steps,
        max_steps: config.max_steps,
        status: progress.status.as_str().to_owned(),
    }
}

/// Takes the next case from the queue.
pub fn next_case(queue: &mut VecDeque<Case>) -> (case: Option<Case>)
    ensures
        case is Some <==> old(queue)@.len() > 0,
        case matches Some(c) ==> c == old(queue)@[0] && final(queue)@ == old(queue)@.subrange(
            1,
            old(queue)@.len() as int,
        ),
        case is None ==> final(queue)@ == old(queue)@,
{
    queue.pop_front()
}

/// What the CPU worker reports of a case that it ran: the event, the trials, and the summary, in
/// this order.
pub fn cpu_reports(
    result: CpuCaseResult,
    case: Case,
    completed_cases: usize,
    total_cases: usize,
    trial_count: usize,
    max_steps: u64,
    timestamp_ms: u128,
) -> (messages: (WorkerMessage, WorkerMessage, WorkerMessage))
    ensures
        messages.0 matches WorkerMessage::Progress(row) && {
            &&& row.timestamp_ms == timestamp_ms
            &&& row.gpu_id is None
            &&& row.case_id == case.case_id
            &&& row.completed_cases == completed_cases
            &&& row.total_cases == total_cases
            &&& row.completed_trials == trial_count
            &&& row.total_trials == trial_count
            &&& row.current_steps == result.max_trial_steps
            &&& row.max_steps == max_steps
            &&& row.status@ == "completed"@
        },
        messages.1 == WorkerMessage::TrialsReady(result.trials),
        messages.2 == WorkerMessage::CaseFinished(result.case_output),
{
    let row = ProgressRow {
        timestamp_ms,
        gpu_id: None,
        case_id: case.case_id,
        completed_cases,
        total_cases,
        completed_trials: trial_count,
        total_trials: trial_count,
        current_steps: result.max_trial_steps,
        max_steps,
        status: "completed".to_owned(),
    };
    (
        WorkerMessage::Progress(row),
        WorkerMessage::TrialsReady(result.trials),
        WorkerMessage::CaseFinished(result.case_output),
    )
}

/// The last report of a worker: that it is done, or why it stopped.
pub fn worker_end(gpu_id: Option<usize>, error: Option<&str>) -> (message: WorkerMessage)
    ensures
        match error {
            None => message matches WorkerMessage::WorkerDone { worker } && worker@ == worker_text(
                gpu_id,
            ),
            Some(why) => message matches WorkerMessage::WorkerError { worker, message: text }
                && worker@ == worker_text(gpu_id) && text@ == why@,
        },
{
    let worker = worker_label(gpu_id);
    match error {
        None => WorkerMessage::WorkerDone { worker },
        Some(why) => WorkerMessage::WorkerError { worker, message: why.to_owned() },
    }
}

// ---- Workers ----

/// A quotient, rounded up.
pub open spec fn div_up(a: int, b: int) -> int {
    (a + b - 1) / b
}

/// The smaller of two numbers.
pub open spec fn least(a: int, b: int) -> int {
    if a < b {
        a
    } else {
        b
    }
}

/// The larger of two numbers.
pub open spec fn most(a: int, b: int) -> int {
    if a < b {
        b
    } else {
        a
    }
}

fn ceil_div(a: usize, b: usize) -> (q: usize)
    requires
        b > 0,
    ensures
        q == div_up(a as int, b as int),
{
    let q: usize = a / b;
    let r: usize = a % b;
    proof {
        vstd::arithmetic::div_mod::lemma_fundamental_div_mod(a as int, b as int);
        if r == 0 {
            vstd::arithmetic::div_mod::lemma_fundamental_div_mod_converse(
                a + b - 1,
                b as int,
                q as int,
                b - 1,
            );
        } else {
            assert(b * (q + 1) == b * q + b) by (nonlinear_arith);
            assert(b * q == q * b) by (nonlinear_arith);
            assert(b * (q + 1) == (q + 1) * b) by (nonlinear_arith);
            vstd::arithmetic::div_mod::lemma_fundamental_div_mod_converse(
                a + b - 1,
                b as int,
                q + 1,
                r - 1,
            );
            assert(q < a) by (nonlinear_arith)
                requires
                    a == b * q + r,
                    b >= 1,
                    r > 0,
                    q >= 0,
            ;
        }
    }
    if r == 0 {
        q
    } else {
        q + 1
    }
}

/// The cases that run side by side on one device: as many as are needed for the trials that should
/// run side by side, at most the limit, at most the share of the device, and at least one.
pub open spec fn tasks_for(ensemble_size: usize, total_cases: usize, gpu_count: usize) -> int {
    let saturating = least(
        div_up(TARGET_CONCURRENT_TRIALS as int, most(ensemble_size as int, 1)),
        MAX_TASKS_PER_GPU as int,
    );
    let share = div_up(total_cases as int, most(gpu_count as int, 1));
    most(least(saturating, share), 1)
}

/// The cases that run side by side on one device.
pub fn auto_tasks_per_gpu(ensemble_size: usize, total_cases: usize, gpu_count: usize) -> (tasks:
    usize)
    ensures
        tasks == tasks_for(ensemble_size, total_cases, gpu_count),
{
    let trials: usize = if ensemble_size > 1 {
        ensemble_size
    } else {
        1
    };
    let gpus: usize = if gpu_count > 1 {
        gpu_count
    } else {
        1
    };
    let wanted: usize = ceil_div(TARGET_CONCURRENT_TRIALS, trials);
    let saturating: usize = if wanted < MAX_TASKS_PER_GPU {
        wanted
    } else {
        MAX_TASKS_PER_GPU
    };
    let share: usize = ceil_div(total_cases, gpus);
    let tasks: usize = if saturating < share {
        saturating
    } else {
        share
    };
    if tasks < 1 {
        1
    } else {
        tasks
    }
}

proof fn lemma_div_up(a: int, b: int)
    requires
        a >= 0,
        b > 0,
    ensures
        div_up(a, b) * b >= a,
        a > 0 ==> (div_up(a, b) - 1) * b < a,
        a > 0 ==> div_up(a, b) >= 1,
        div_up(a, b) >= 0,
{
    vstd::arithmetic::div_mod::lemma_fundamental_div_mod(a + b - 1, b);
    let q = (a + b - 1) / b;
    let r = (a + b - 1) % b;
    assert(b * q == q * b) by (nonlinear_arith);
    assert((q - 1) * b == q * b - b) by (nonlinear_arith);
    assert(q >= 0) by (nonlinear_arith)
        requires
            a + b - 1 == b * q + r,
            r < b,
            a >= 0,
            b > 0,
    ;
    if a > 0 {
        assert(q >= 1) by (nonlinear_arith)
            requires
                a + b - 1 == b * q + r,
                r < b,
                a > 0,
                b > 0,
        ;
    }
}

/// At least one case runs on a device, never more than the limit, and beyond the first never more
/// than its share. Where neither holds it back, the trials that should run side by side do, and
/// with one case less they would not.
pub proof fn law_tasks(ensemble_size: usize, total_cases: usize, gpu_count: usize)
    requires
        ensemble_size > 0,
        gpu_count > 0,
    ensures
        ({
            let tasks = tasks_for(ensemble_size, total_cases, gpu_count);
            let share = div_up(total_cases as int, gpu_count as int);
            &&& 1 <= tasks <= MAX_TASKS_PER_GPU
            &&& tasks > 1 ==> tasks <= share
            &&& tasks < MAX_TASKS_PER_GPU && tasks < share ==> tasks * ensemble_size
                >= TARGET_CONCURRENT_TRIALS
            &&& (tasks - 1) * ensemble_size < TARGET_CONCURRENT_TRIALS
        }),
{
    let wanted = div_up(TARGET_CONCURRENT_TRIALS as int, ensemble_size as int);
    let tasks = tasks_for(ensemble_size, total_cases, gpu_count);
    lemma_div_up(TARGET_CONCURRENT_TRIALS as int, ensemble_size as int);
    lemma_div_up(total_cases as int, gpu_count as int);
    assert((tasks - 1) * ensemble_size <= (wanted - 1) * ensemble_size) by (nonlinear_arith)
        requires
            tasks <= wanted,
            ensemble_size > 0,
    ;
}

/// Why no device can be used.
#[derive(Clone, Copy, Debug, PartialEq, Eq, Structural)]
pub enum GpuPlanError {
    NoDevice,
    RepeatedDevice,
}

impl GpuPlanError {
    /// The message of the error.
    pub open spec fn message_text(self) -> Seq<char> {
        match self {
            GpuPlanError::NoDevice => "使用可能な GPU がありません"@,
            GpuPlanError::RepeatedDevice => "gpu.ids に同じ GPU が複数回指定されています"@,
        }
    }

    /// The message of the error.
    pub fn message(self) -> (message: &'static str)
        ensures
            message@ == self.message_text(),
    {
        match self {
            GpuPlanError::NoDevice => "使用可能な GPU がありません",
            GpuPlanError::RepeatedDevice => "gpu.ids に同じ GPU が複数回指定されています",
        }
    }
}

/// The devices that a machine with `count` of them has.
pub fn all_devices(count: usize) -> (ids: Vec<usize>)
    ensures
        ids@ == Seq::new(count as nat, |i: int| i as usize),
{
    let mut ids: Vec<usize> = Vec::new();
    while ids.len() < count
        invariant
            ids.len() <= count,
            forall|i: int| 0 <= i < ids@.len() ==> ids@[i] == i,
        decreases count - ids.len(),
    {
        ids.push(ids.len());
    }
    assert(ids@ =~= Seq::new(count as nat, |i: int| i as usize));
    ids
}

fn repeats(ids: &Vec<usize>) -> (b: bool)
    ensures
        b == !ids@.no_duplicates(),
{
    let mut i: usize = 0;
    while i < ids.len()
        invariant
            i <= ids.len(),
            forall|a: int, b: int| 0 <= a < b < i ==> ids@[a] != ids@[b],
        decreases ids.len() - i,
    {
        let mut j: usize = 0;
        while j < i
            invariant
                j <= i < ids.len(),
                forall|a: int, b: int| 0 <= a < b < i ==> ids@[a] != ids@[b],
                forall|a: int| 0 <= a < j ==> ids@[a] != ids@[i as int],
            decreases i - j,
        {
            if ids[j] == ids[i] {
                return true;
            }
            j = j + 1;
        }
        i = i + 1;
    }
    false
}

/// One worker for each device, all with the same settings. There has to be a device, and each may
/// be named once.
pub fn plan_workers(
    ids: &Vec<usize>,
    ensemble_size: usize,
    total_cases: usize,
    max_steps: u64,
    hist_stride: u32,
) -> (plan: Result<Vec<GpuRunConfig>, GpuPlanError>)
    ensures
        plan is Ok <==> ids@.len() > 0 && ids@.no_duplicates(),
        plan matches Err(e) ==> e == (if ids@.len() == 0 {
            GpuPlanError::NoDevice
        } else {
            GpuPlanError::RepeatedDevice
        }),
        plan matches Ok(workers) ==> workers@.len() == ids@.len() && forall|i: int|
            0 <= i < ids@.len() ==> {
                &&& (#[trigger] workers@[i]).device_id == ids@[i]
                &&& workers@[i].max_steps == max_steps
                &&& workers@[i].steps_per_launch == STEPS_PER_LAUNCH
                &&& workers@[i].hist_stride == hist_stride
                &&& workers@[i].tasks_per_gpu == tasks_for(ensemble_size, total_cases, ids.len())
                &&& workers@[i].progress_interval_ms == PROGRESS_INTERVAL_MS
            },
{
    if ids.len() == 0 {
        return Err(GpuPlanError::NoDevice);
    }
    if repeats(ids) {
        return Err(GpuPlanError::RepeatedDevice);
    }
    let tasks_per_gpu: usize = auto_tasks_per_gpu(ensemble_size, total_cases, ids.len());
    let mut workers: Vec<GpuRunConfig> = Vec::new();
    let mut i: usize = 0;
    while i < ids.len()
        invariant
            i <= ids.len(),
            workers@.len() == i,
            tasks_per_gpu == tasks_for(ensemble_size, total_cases, ids.len()),
            forall|j: int|
                0 <= j < i ==> {
                    &&& (#[trigger] workers@[j]).device_id == ids@[j]
                    &&& workers@[j].max_steps == max_steps
                    &&& workers@[j].steps_per_launch == STEPS_PER_LAUNCH
                    &&& workers@[j].hist_stride == hist_stride
                    &&& workers@[j].tasks_per_gpu == tasks_for(
                        ensemble_size,
                        total_cases,
                        ids.len(),
                    )
                    &&& workers@[j].progress_interval_ms == PROGRESS_INTERVAL_MS
                },
        decreases ids.len() - i,
    {
        workers.push(
            GpuRunConfig {
                device_id: ids[i],
                max_steps,
                steps_per_launch: STEPS_PER_LAUNCH,
                hist_stride,
                tasks_per_gpu,
                progress_interval_ms: PROGRESS_INTERVAL_MS,
            },
        );
        i = i + 1;
    }
    Ok(workers)
}

/// The line that shows how many cases run side by side.
pub fn tasks_line(tasks_per_gpu: usize, ensemble_size: usize, total_cases: usize) -> (line: String)
    ensures
        line@ == "tasks_per_gpu="@ + text::numeral(tasks_per_gpu as nat) + " (ensemble_size="@
            + text::numeral(ensemble_size as nat) + " とケース数 "@ + text::numeral(
            total_cases as nat,
        ) + " から自動調整)"@,
{
    let mut line = "tasks_per_gpu=".to_owned();
    line.append(text::decimal(tasks_per_gpu as u64).as_str());
    line.append(" (ensemble_size=");
    line.append(text::decimal(ensemble_size as u64).as_str());
    line.append(" とケース数 ");
    line.append(text::decimal(total_cases as u64).as_str());
    line.append(" から自動調整)");
    line
}

// ---- Output directory ----

/// The message for an output directory that is already there.
pub open spec fn existing_dir_text(path: Seq<char>) -> Seq<char> {
    "出力フォルダ "@ + path
        + " は既に存在します。上書きを避けるため、別のフォルダを output_dir に指定するか、削除してから実行してください"@
}

/// What is to be done for a new output directory: nothing that exists is written over, and the
/// parent is made first where there is one. `true` says that the parent is to be made.
pub fn create_new_output_dir(path: &str, exists: bool, parent: Option<&str>) -> (plan: Result<
    bool,
    String,
>)
    ensures
        plan is Err <==> exists,
        plan matches Err(message) ==> message@ == existing_dir_text(path@),
        plan matches Ok(make_parent) ==> make_parent == (parent matches Some(p) && p@.len() > 0),
{
    if exists {
        let mut message = "出力フォルダ ".to_owned();
        message.append(path);
        message.append(
            " は既に存在します。上書きを避けるため、別のフォルダを output_dir に指定するか、削除してから実行してください",
        );
        return Err(message);
    }
    match parent {
        Some(p) => Ok(p.unicode_len() > 0),
        None => Ok(false),
    }
}

// ---- The state of a run ----

/// One thing to do with the trial tables.
#[derive(Clone, Copy, Debug)]
pub enum TableStep {
    /// Create the table of a case and keep it open.
    Open { case_id: u32 },
    /// Write a line into the open table of its case.
    Write { trial: TrialResult },
    /// Bring the lines of an open table to disk.
    Flush { case_id: u32 },
}

/// The steps for some trials, the tables that are open afterwards, and the first case without a
/// directory, at which the steps end.
pub struct TablePlan {
    pub steps: Seq<TableStep>,
    pub open: Set<u32>,
    pub missing: Option<u32>,
}

/// The plan for the first `n` trials: the table of a case is opened before its first line.
pub open spec fn lines_plan(
    trials: Seq<TrialResult>,
    known: Set<u32>,
    open: Set<u32>,
    n: nat,
) -> TablePlan
    decreases n,
{
    if n == 0 {
        TablePlan { steps: Seq::empty(), open, missing: None }
    } else {
        let front = lines_plan(trials, known, open, (n - 1) as nat);
        let trial = trials[n - 1];
        if front.missing is Some {
            front
        } else if front.open.contains(trial.case_id) {
            TablePlan { steps: front.steps.push(TableStep::Write { trial }), ..front }
        } else if known.contains(trial.case_id) {
            TablePlan {
                steps: front.steps.push(TableStep::Open { case_id: trial.case_id }).push(
                    TableStep::Write { trial },
                ),
                open: front.open.insert(trial.case_id),
                missing: None,
            }
        } else {
            TablePlan { missing: Some(trial.case_id), ..front }
        }
    }
}

/// The plan for the trials of one report: their lines, and then the table of the first is brought
/// to disk.
pub open spec fn append_plan(
    trials: Seq<TrialResult>,
    known: Set<u32>,
    open: Set<u32>,
) -> TablePlan {
    let lines = lines_plan(trials, known, open, trials.len());
    if lines.missing is None && trials.len() > 0 {
        TablePlan {
            steps: lines.steps.push(TableStep::Flush { case_id: trials[0].case_id }),
            ..lines
        }
    } else {
        lines
    }
}

/// The state of the place that all workers report to.
#[derive(Debug)]
pub struct RunState {
    pub worker_count: usize,
    pub completed_workers: usize,
    /// What went wrong in workers.
    pub errors: Vec<String>,
    /// The cases that have a directory.
    pub known: HashSet<u32>,
    /// The cases whose trial table is open.
    pub open: HashSet<u32>,
}

/// What is to be done for a report.
#[derive(Debug)]
pub enum Reaction {
    /// Show the line and append the event to the log.
    Log { line: String, row: ProgressRow },
    /// Do the steps; then fail if a case has no directory.
    Append { steps: Vec<TableStep>, missing: Option<u32> },
    /// Close the table of the case if it is open; then write the output, or fail if the case has no
    /// directory.
    Finish { close: bool, known: bool, output: CaseOutput },
    /// Show the line.
    Show { line: String },
    /// Nothing.
    Nothing,
}

/// The message for a case without a directory.
pub open spec fn missing_dir_text(case_id: u32) -> Seq<char> {
    "no output directory for case "@ + text::numeral(case_id as nat)
}

/// The message for a case without a directory.
pub fn missing_dir_message(case_id: u32) -> (message: String)
    ensures
        message@ == missing_dir_text(case_id),
{
    let mut message = "no output directory for case ".to_owned();
    message.append(text::decimal(case_id as u64).as_str());
    message
}

proof fn lemma_set_of_push(ids: Seq<u32>, id: u32)
    ensures
        ids.push(id).to_set() == ids.to_set().insert(id),
{
    assert forall|x: u32| ids.to_set().insert(id).contains(x) implies ids.push(id).to_set().contains(
        x,
    ) by {
        if x == id {
            assert(ids.push(id)[ids.len() as int] == x);
        } else {
            let p = choose|p: int| 0 <= p < ids.len() && ids[p] == x;
            assert(ids.push(id)[p] == x);
        }
    }
    assert(ids.push(id).to_set() =~= ids.to_set().insert(id));
}

impl RunState {
    /// No more workers have ended than there are.
    pub open spec fn well_formed(self) -> bool {
        self.completed_workers <= self.worker_count
    }

    /// Whether a worker has not ended.
    pub open spec fn running_spec(self) -> bool {
        self.completed_workers < self.worker_count
    }

    /// The cases that have a directory.
    pub open spec fn known_set(self) -> Set<u32> {
        self.known@
    }

    /// The cases whose trial table is open.
    pub open spec fn open_set(self) -> Set<u32> {
        self.open@
    }

    /// What went wrong in workers.
    pub open spec fn error_texts(self) -> Seq<Seq<char>> {
        text::texts(self.errors@)
    }

    /// The state before any report, for cases with directories.
    pub fn new(worker_count: usize, known: Vec<u32>) -> (state: RunState)
        ensures
            state.well_formed(),
            state.worker_count == worker_count,
            state.completed_workers == 0,
            state.error_texts() == Seq::<Seq<char>>::empty(),
            state.known_set() == known@.to_set(),
            state.open_set() == Set::<u32>::empty(),
    {
        let mut ids: HashSet<u32> = HashSet::with_capacity(known.len());
        let mut i: usize = 0;
        while i < known.len()
            invariant
                i <= known.len(),
                ids@ == known@.take(i as int).to_set(),
            decreases known.len() - i,
        {
            ids.insert(known[i]);
            proof {
                assert(known@.take(i + 1) == known@.take(i as int).push(known@[i as int]));
                lemma_set_of_push(known@.take(i as int), known@[i as int]);
            }
            i = i + 1;
        }
        assert(known@.take(known.len() as int) == known@);
        let state = RunState {
            worker_count,
            completed_workers: 0,
            errors: Vec::new(),
            known: ids,
            open: HashSet::new(),
        };
        assert(state.error_texts() =~= Seq::<Seq<char>>::empty());
        state
    }

    /// Whether a worker has not ended.
    pub fn running(&self) -> (b: bool)
        ensures
            b == self.running_spec(),
    {
        self.completed_workers < self.worker_count
    }

    /// The steps that put results of trials into the trial tables.
    pub fn append_trials(&mut self, trials: &Vec<TrialResult>) -> (plan: (
        Vec<TableStep>,
        Option<u32>,
    ))
        ensures
            ({
                let wanted = append_plan(trials@, old(self).known_set(), old(self).open_set());
                &&& plan.0@ == wanted.steps
                &&& plan.1 == wanted.missing
                &&& final(self).open_set() == wanted.open
            }),
            final(self).known == old(self).known,
            final(self).errors == old(self).errors,
            final(self).worker_count == old(self).worker_count,
            final(self).completed_workers == old(self).completed_workers,
    {
        let mut steps: Vec<TableStep> = Vec::new();
        let ghost known = self.known_set();
        let ghost open = self.open_set();
        let mut i: usize = 0;
        while i < trials.len()
            invariant
                i <= trials.len(),
                self.known == old(self).known,
                self.known_set() == known,
                self.errors == old(self).errors,
                self.worker_count == old(self).worker_count,
                self.completed_workers == old(self).completed_workers,
                known == old(self).known_set(),
                open == old(self).open_set(),
                steps@ == lines_plan(trials@, known, open, i as nat).steps,
                self.open_set() == lines_plan(trials@, known, open, i as nat).open,
                lines_plan(trials@, known, open, i as nat).missing is None,
            decreases trials.len() - i,
        {
            let trial = trials[i];
            let case_id: u32 = trial.case_id;
            if !self.open.contains(&case_id) {
                if !self.known.contains(&case_id) {
                    proof {
                        lemma_plan_stops(trials@, known, open, i + 1, trials@.len());
                    }
                    return (steps, Some(case_id));
                }
                steps.push(TableStep::Open { case_id });
                self.open.insert(case_id);
            }
            steps.push(TableStep::Write { trial });
            i = i + 1;
        }
        if trials.len() > 0 {
            steps.push(TableStep::Flush { case_id: trials[0].case_id });
        }
        (steps, None)
    }

    /// Takes the trial table of a finished case off the open ones: whether it was open, and whether
    /// the case has a directory.
    pub fn finish(&mut self, case_id: u32) -> (r: (bool, bool))
        ensures
            r.0 == old(self).open_set().contains(case_id),
            r.1 == old(self).known_set().contains(case_id),
            final(self).open_set() == old(self).open_set().remove(case_id),
            final(self).known == old(self).known,
            final(self).errors == old(self).errors,
            final(self).worker_count == old(self).worker_count,
            final(self).completed_workers == old(self).completed_workers,
    {
        let close = self.open.remove(&case_id);
        (close, self.known.contains(&case_id))
    }

    /// What a report changes and asks for.
    pub open spec fn handled(
        self,
        message: WorkerMessage,
        after: RunState,
        reaction: Reaction,
    ) -> bool {
        &&& after.worker_count == self.worker_count
        &&& after.known == self.known
        &&& match message {
            WorkerMessage::Progress(row) => {
                &&& reaction matches Reaction::Log { line, row: logged } && line@ == progress_text(
                    row,
                ) && logged == row
                &&& after == self
            },
            WorkerMessage::TrialsReady(trials) => {
                let plan = append_plan(trials@, self.known_set(), self.open_set());
                &&& reaction matches Reaction::Append { steps, missing } && steps@ == plan.steps
                    && missing == plan.missing
                &&& after.open_set() == plan.open
                &&& after.completed_workers == self.completed_workers
                &&& after.errors == self.errors
            },
            WorkerMessage::CaseFinished(output) => {
                let case_id = output.summary.case_id_spec();
                &&& reaction matches Reaction::Finish { close, known, output: written } && close
                    == self.open_set().contains(case_id) && known == self.known_set().contains(
                    case_id,
                ) && written == output
                &&& after.open_set() == self.open_set().remove(case_id)
                &&& after.completed_workers == self.completed_workers
                &&& after.errors == self.errors
            },
            WorkerMessage::WorkerDone { worker } => {
                &&& reaction matches Reaction::Show { line } && line@ == "worker="@ + worker@
                    + " done"@
                &&& after.completed_workers == self.completed_workers + 1
                &&& after.open == self.open
                &&& after.errors == self.errors
            },
            WorkerMessage::WorkerError { worker, message } => {
                &&& reaction is Nothing
                &&& after.completed_workers == self.completed_workers + 1
                &&& after.open == self.open
                &&& after.error_texts() == self.error_texts().push(
                    "worker "@ + worker@ + ": "@ + message@,
                )
            },
        }
    }

    /// Takes a report: what is to be done for it.
    pub fn handle(&mut self, message: WorkerMessage) -> (reaction: Reaction)
        requires
            old(self).well_formed(),
            old(self).running_spec(),
        ensures
            final(self).well_formed(),
            old(self).handled(message, *final(self), reaction),
    {
        match message {
            WorkerMessage::Progress(row) => {
                let line = progress_line(&row);
                Reaction::Log { line, row }
            },
            WorkerMessage::TrialsReady(trials) => {
                let (steps, missing) = self.append_trials(&trials);
                Reaction::Append { steps, missing }
            },
            WorkerMessage::CaseFinished(output) => {
                let (close, known) = self.finish(output.summary.case_id());
                Reaction::Finish { close, known, output }
            },
            WorkerMessage::WorkerDone { worker } => {
                self.completed_workers = self.completed_workers + 1;
                let mut line = "worker=".to_owned();
                line.append(worker.as_str());
                line.append(" done");
                Reaction::Show { line }
            },
            WorkerMessage::WorkerError { worker, message } => {
                self.completed_workers = self.completed_workers + 1;
                let mut error = "worker ".to_owned();
                error.append(worker.as_str());
                error.append(": ");
                error.append(message.as_str());
                let ghost before = self.error_texts();
                self.errors.push(error);
                assert(self.error_texts() =~= before.push(
                    "worker "@ + worker@ + ": "@ + message@,
                ));
                Reaction::Nothing
            },
        }
    }

    /// How the run ended: the line to show, or all that went wrong in workers.
    pub fn outcome(&self, total_cases: usize, output_dir: &str) -> (r: Result<String, String>)
        ensures
            r is Ok <==> self.errors@.len() == 0,
            r matches Ok(line) ==> line@ == "wrote "@ + text::numeral(total_cases as nat)
                + " case result(s) under "@ + output_dir@,
            r matches Err(message) ==> message@ == text::joined(self.error_texts(), "; "@),
    {
        if self.errors.len() > 0 {
            return Err(text::join(&self.errors, "; "));
        }
        let mut line = "wrote ".to_owned();
        line.append(text::decimal(total_cases as u64).as_str());
        line.append(" case result(s) under ");
        line.append(output_dir);
        Ok(line)
    }
}

proof fn lemma_plan_stops(
    trials: Seq<TrialResult>,
    known: Set<u32>,
    open: Set<u32>,
    n: int,
    m: nat,
)
    requires
        0 <= n <= m,
        lines_plan(trials, known, open, n as nat).missing is Some,
    ensures
        lines_plan(trials, known, open, m) == lines_plan(trials, known, open, n as nat),
    decreases m - n,
{
    if n < m {
        lemma_plan_stops(trials, known, open, n, (m - 1) as nat);
    }
}

// ---- Laws of a run ----

/// The trials that some steps write, in order.
pub open spec fn written(steps: Seq<TableStep>) -> Seq<TrialResult>
    decreases steps.len(),
{
    if steps.len() == 0 {
        Seq::empty()
    } else {
        match steps.last() {
            TableStep::Write { trial } => written(steps.drop_last()).push(trial),
            _ => written(steps.drop_last()),
        }
    }
}

/// Whether each step finds its table as it needs it, from some open tables on: a table is opened
/// once, and written and flushed only while it is open.
pub open spec fn tables_fit(steps: Seq<TableStep>, open: Set<u32>) -> bool
    decreases steps.len(),
{
    steps.len() == 0 || (tables_fit(steps.drop_last(), open) && match steps.last() {
        TableStep::Open { case_id } => !open_after(steps.drop_last(), open).contains(case_id),
        TableStep::Write { trial } => open_after(steps.drop_last(), open).contains(trial.case_id),
        TableStep::Flush { case_id } => open_after(steps.drop_last(), open).contains(case_id),
    })
}

/// The tables that are open after some steps.
pub open spec fn open_after(steps: Seq<TableStep>, open: Set<u32>) -> Set<u32>
    decreases steps.len(),
{
    if steps.len() == 0 {
        open
    } else {
        match steps.last() {
            TableStep::Open { case_id } => open_after(steps.drop_last(), open).insert(case_id),
            _ => open_after(steps.drop_last(), open),
        }
    }
}

/// Where every case has a directory, all trials of a report are written, in order and once; a table
/// is opened only when it is not open, and written only while it is.
pub proof fn law_append(trials: Seq<TrialResult>, known: Set<u32>, open: Set<u32>)
    requires
        forall|i: int|
            0 <= i < trials.len() ==> known.contains((#[trigger] trials[i]).case_id),
    ensures
        ({
            let plan = append_plan(trials, known, open);
            &&& plan.missing is None
            &&& written(plan.steps) == trials
            &&& tables_fit(plan.steps, open)
            &&& open_after(plan.steps, open) == plan.open
        }),
{
    lemma_lines(trials, known, open, trials.len());
    let lines = lines_plan(trials, known, open, trials.len());
    assert(trials.take(trials.len() as int) =~= trials);
    if trials.len() > 0 {
        let flush = TableStep::Flush { case_id: trials[0].case_id };
        assert(lines.steps.push(flush).drop_last() =~= lines.steps);
        lemma_open_covers(trials, known, open, trials.len(), 0);
    }
}

proof fn lemma_open_covers(
    trials: Seq<TrialResult>,
    known: Set<u32>,
    open: Set<u32>,
    n: nat,
    i: int,
)
    requires
        0 <= i < n <= trials.len(),
        lines_plan(trials, known, open, n).missing is None,
    ensures
        lines_plan(trials, known, open, n).open.contains(trials[i].case_id),
    decreases n,
{
    if i < n - 1 {
        lemma_open_covers(trials, known, open, (n - 1) as nat, i);
    }
}

proof fn lemma_lines(trials: Seq<TrialResult>, known: Set<u32>, open: Set<u32>, n: nat)
    requires
        n <= trials.len(),
        forall|i: int|
            0 <= i < trials.len() ==> known.contains((#[trigger] trials[i]).case_id),
    ensures
        ({
            let plan = lines_plan(trials, known, open, n);
            &&& plan.missing is None
            &&& written(plan.steps) == trials.take(n as int)
            &&& tables_fit(plan.steps, open)
            &&& open_after(plan.steps, open) == plan.open
        }),
    decreases n,
{
    if n > 0 {
        lemma_lines(trials, known, open, (n - 1) as nat);
        let front = lines_plan(trials, known, open, (n - 1) as nat);
        let trial = trials[n - 1];
        assert(known.contains(trial.case_id));
        let write = TableStep::Write { trial };
        assert(trials.take(n as int) =~= trials.take(n - 1).push(trial));
        if front.open.contains(trial.case_id) {
            assert(front.steps.push(write).drop_last() =~= front.steps);
        } else {
            let opening = TableStep::Open { case_id: trial.case_id };
            assert(front.steps.push(opening).drop_last() =~= front.steps);
            let opened = front.steps.push(opening);
            assert(written(opened) == written(front.steps));
            assert(tables_fit(opened, open));
            assert(open_after(opened, open) == front.open.insert(trial.case_id));
            assert(opened.push(write).drop_last() =~= opened);
        }
    } else {
        assert(trials.take(0) =~= Seq::<TrialResult>::empty());
    }
}

/// The states of a run along its reports.
pub open spec fn run_of(
    states: Seq<RunState>,
    messages: Seq<WorkerMessage>,
    reactions: Seq<Reaction>,
) -> bool {
    &&& states.len() == messages.len() + 1
    &&& reactions.len() == messages.len()
    &&& forall|i: int|
        0 <= i < messages.len() ==> #[trigger] handled_between(states, messages, reactions, i)
}

/// Whether report `i` of a run was handled.
pub open spec fn handled_between(
    states: Seq<RunState>,
    messages: Seq<WorkerMessage>,
    reactions: Seq<Reaction>,
    i: int,
) -> bool {
    states[i].handled(messages[i], states[i + 1], reactions[i])
}

/// Whether a report is the last one of its worker.
pub open spec fn ends_worker(message: WorkerMessage) -> bool {
    message is WorkerDone || message is WorkerError
}

/// The errors among the first `n` reports, as they are shown.
pub open spec fn errors_among(messages: Seq<WorkerMessage>, n: nat) -> Seq<Seq<char>>
    decreases n,
{
    if n == 0 {
        Seq::empty()
    } else {
        let front = errors_among(messages, (n - 1) as nat);
        match messages[n - 1] {
            WorkerMessage::WorkerError { worker, message } => front.push(
                "worker "@ + worker@ + ": "@ + message@,
            ),
            _ => front,
        }
    }
}

/// A run counts every worker that ended, and keeps every error in the order of the reports: it goes
/// wrong exactly when a worker did.
pub proof fn law_run(
    states: Seq<RunState>,
    messages: Seq<WorkerMessage>,
    reactions: Seq<Reaction>,
    n: nat,
)
    requires
        run_of(states, messages, reactions),
        n <= messages.len(),
        states[0].completed_workers == 0,
        states[0].error_texts() == Seq::<Seq<char>>::empty(),
    ensures
        states[n as int].completed_workers == count_of(n, |i: int| ends_worker(messages[i])),
        states[n as int].error_texts() == errors_among(messages, n),
        states[n as int].worker_count == states[0].worker_count,
        states[n as int].known == states[0].known,
    decreases n,
{
    if n > 0 {
        law_run(states, messages, reactions, (n - 1) as nat);
        assert(handled_between(states, messages, reactions, n - 1));
    }
}

} // verus!
