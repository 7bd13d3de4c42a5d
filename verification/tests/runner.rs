//! Workers, their reports, and the schedule of a device.

use std::collections::VecDeque;

use nanorod::case_run::{finish_case, CaseAccumulator};
use nanorod::config::{Case, Mode, Physics, HIST_PHI_BINS, HIST_X_BINS, HIST_Y_BINS};
use nanorod::device_run::{DeviceRun, DeviceRunError, Phase};
use nanorod::double::Double;
use nanorod::formula::Arithmetic;
use nanorod::gpu::{
    compile_options, cuda_include_paths, launch_config_for_trials, rng_buffer_bytes, GpuProgress,
    GpuRunConfig, HostTrials, KernelParams, StreamSlot, CUDA_THREADS_PER_BLOCK,
};
use nanorod::model::{
    diffusion_for_length, CaseOutput, ProgressRow, Summary, TrialResult, PASS_DIRECTION_NONE,
    PASS_DIRECTION_RIGHT, STATUS_MAX_STEPS, STATUS_OK, STATUS_RUNNING,
};
use nanorod::runner::{
    all_devices, auto_tasks_per_gpu, cpu_reports, create_new_output_dir, missing_dir_message,
    next_case, plan_workers, progress_line, progress_row, tasks_line, worker_end, worker_label,
    GpuPlanError, Reaction, RunState, TableStep, WorkerMessage, PROGRESS_INTERVAL_MS,
    STEPS_PER_LAUNCH,
};

/// The operations of the machine.
struct Machine;

fn d(x: f64) -> Double {
    Double::from_bits(x.to_bits())
}

fn f(x: Double) -> f64 {
    f64::from_bits(x.to_bits())
}

impl Arithmetic for Machine {
    fn sum(&self, a: Double, b: Double) -> Double {
        d(f(a) + f(b))
    }

    fn difference(&self, a: Double, b: Double) -> Double {
        d(f(a) - f(b))
    }

    fn product(&self, a: Double, b: Double) -> Double {
        d(f(a) * f(b))
    }

    fn quotient(&self, a: Double, b: Double) -> Double {
        d(f(a) / f(b))
    }

    fn remainder(&self, a: Double, b: Double) -> Double {
        d(f(a).rem_euclid(f(b)))
    }

    fn square_root(&self, a: Double) -> Double {
        d(f(a).sqrt())
    }

    fn cube_root(&self, a: Double) -> Double {
        d(f(a).cbrt())
    }

    fn sine(&self, a: Double) -> Double {
        d(f(a).sin())
    }

    fn cosine(&self, a: Double) -> Double {
        d(f(a).cos())
    }

    fn arctangent(&self, a: Double) -> Double {
        d(f(a).atan())
    }

    fn logarithm(&self, a: Double) -> Double {
        d(f(a).ln())
    }

    fn exponential(&self, a: Double) -> Double {
        d(f(a).exp())
    }

    fn floor(&self, a: Double) -> Double {
        d(f(a).floor())
    }

    fn nearest(&self, a: Double) -> Double {
        d(f(a).round())
    }

    fn of_signed(&self, n: i64) -> Double {
        d(n as f64)
    }

    fn of_unsigned(&self, n: u64) -> Double {
        d(n as f64)
    }

    fn to_signed(&self, a: Double) -> i64 {
        f(a) as i64
    }

    fn to_unsigned(&self, a: Double) -> u64 {
        f(a) as u64
    }

    fn parse(&self, text: &str) -> Option<Double> {
        match text.parse::<f64>() {
            Ok(x) => Some(d(x)),
            Err(_) => None,
        }
    }

    fn six_decimals(&self, a: Double) -> String {
        format!("{:.6}", f(a))
    }
}

fn test_physics() -> Physics {
    Physics {
        delta_t: d(4.0e-7),
        mode: Mode::FirstPassage,
        max_steps: 25_000,
        sigma: d(8.0e-3),
        epsilon: d(2.0),
        wall_dx: d(0.25 * 8.0e-3),
        particle_dx: d(0.8 * 8.0e-3),
        n_wall: 500,
        diffusion_reference_length: d(6.0 * 0.8 * 8.0e-3),
    }
}

fn test_case(case_id: u32) -> Case {
    Case { case_id, m: 1, l: d(0.0128), gamma: d(0.5), delta: d(0.25), f: d(1.0) }
}

fn trial(case_id: u32, trial_id: u64) -> TrialResult {
    TrialResult {
        case_id,
        trial_id,
        gpu_id: None,
        case: test_case(case_id),
        x0: d(0.0),
        y0: d(0.0),
        phi0: d(0.0),
        x_end: d(0.0),
        y_end: d(0.0),
        phi_end: d(0.0),
        t: d(0.0),
        steps: 3,
        status: STATUS_OK,
        pass_direction: PASS_DIRECTION_RIGHT,
    }
}

fn output(case_id: u32) -> CaseOutput {
    let physics = test_physics();
    finish_case(&Machine, CaseAccumulator::new(), test_case(case_id), physics, 0).case_output
}

// ---- Workers ----

#[test]
fn auto_tasks_per_gpu_scales_with_ensemble_and_caps() {
    assert_eq!(auto_tasks_per_gpu(30_000, 1000, 4), 7);
    assert_eq!(auto_tasks_per_gpu(1_000, 1000, 4), 96);
    assert_eq!(auto_tasks_per_gpu(300_000, 1000, 4), 1);
    assert_eq!(auto_tasks_per_gpu(1_000, 6, 3), 2);
}

#[test]
fn at_least_one_case_runs_on_a_device() {
    assert_eq!(auto_tasks_per_gpu(0, 0, 0), 1);
    assert_eq!(auto_tasks_per_gpu(0, 1000, 0), 96);
    assert_eq!(auto_tasks_per_gpu(usize::MAX, usize::MAX, 1), 1);
}

#[test]
fn each_device_gets_one_worker() {
    assert_eq!(all_devices(3), vec![0, 1, 2]);
    let workers = plan_workers(&vec![4, 2], 30_000, 1000, 77, 10).unwrap();
    assert_eq!(workers.len(), 2);
    assert_eq!((workers[0].device_id, workers[1].device_id), (4, 2));
    for worker in &workers {
        assert_eq!(worker.max_steps, 77);
        assert_eq!(worker.hist_stride, 10);
        assert_eq!(worker.tasks_per_gpu, 7);
        assert_eq!(worker.steps_per_launch, STEPS_PER_LAUNCH);
        assert_eq!(worker.progress_interval_ms, PROGRESS_INTERVAL_MS);
    }
}

#[test]
fn devices_must_exist_and_be_named_once() {
    let refused = plan_workers(&Vec::new(), 1, 1, 1, 1).unwrap_err();
    assert_eq!(refused, GpuPlanError::NoDevice);
    assert_eq!(refused.message(), "使用可能な GPU がありません");
    let refused = plan_workers(&vec![1, 0, 1], 1, 1, 1, 1).unwrap_err();
    assert_eq!(refused, GpuPlanError::RepeatedDevice);
    assert_eq!(refused.message(), "gpu.ids に同じ GPU が複数回指定されています");
    assert_eq!(
        tasks_line(7, 30_000, 12),
        "tasks_per_gpu=7 (ensemble_size=30000 とケース数 12 から自動調整)"
    );
}

#[test]
fn cases_leave_the_queue_in_order() {
    let mut queue = VecDeque::from(vec![test_case(4), test_case(9)]);
    assert_eq!(next_case(&mut queue).unwrap().case_id, 4);
    assert_eq!(next_case(&mut queue).unwrap().case_id, 9);
    assert!(next_case(&mut queue).is_none());
}

// ---- Reports ----

fn event(gpu_id: Option<usize>) -> ProgressRow {
    ProgressRow {
        timestamp_ms: 5,
        gpu_id,
        case_id: 3,
        completed_cases: 1,
        total_cases: 2,
        completed_trials: 30,
        total_trials: 40,
        current_steps: 500,
        max_steps: 600,
        status: "running".to_string(),
    }
}

#[test]
fn events_are_shown_on_one_line() {
    assert_eq!(worker_label(Some(12)), "gpu:12");
    assert_eq!(worker_label(None), "cpu");
    assert_eq!(
        progress_line(&event(Some(0))),
        "worker=gpu:0 case=3 cases=1/2 trials=30/40 steps=500 status=running"
    );
    assert_eq!(
        progress_line(&event(None)),
        "worker=cpu case=3 cases=1/2 trials=30/40 steps=500 status=running"
    );
}

#[test]
fn events_of_a_device_carry_its_number() {
    let config = run_config(1);
    let progress = GpuProgress {
        case_id: 8,
        completed_trials: 1,
        total_trials: 2,
        current_steps: 3,
        status: "completed".to_string(),
    };
    let row = progress_row(&config, &progress, 4, 5, 6);
    assert_eq!((row.timestamp_ms, row.gpu_id, row.case_id), (6, Some(2), 8));
    assert_eq!((row.completed_cases, row.total_cases), (4, 5));
    assert_eq!((row.completed_trials, row.total_trials), (1, 2));
    assert_eq!((row.current_steps, row.max_steps), (3, 25_000));
    assert_eq!(row.status, "completed");
}

#[test]
fn the_cpu_reports_event_trials_and_summary() {
    let physics = Physics { max_steps: 5, ..test_physics() };
    let case = test_case(6);
    let mut accum = CaseAccumulator::new();
    accum.add_trial(&Machine, case, physics, 0, 0);
    let result = finish_case(&Machine, accum, case, physics, 1);
    let (first, second, third) = cpu_reports(result, case, 2, 3, 1, 5, 99);
    match first {
        WorkerMessage::Progress(row) => {
            assert_eq!((row.timestamp_ms, row.gpu_id, row.case_id), (99, None, 6));
            assert_eq!((row.completed_cases, row.total_cases), (2, 3));
            assert_eq!((row.completed_trials, row.total_trials), (1, 1));
            assert_eq!((row.current_steps, row.max_steps), (5, 5));
            assert_eq!(row.status, "completed");
        }
        _ => panic!("the event comes first"),
    }
    match second {
        WorkerMessage::TrialsReady(trials) => assert_eq!(trials.len(), 1),
        _ => panic!("the trials come second"),
    }
    match third {
        WorkerMessage::CaseFinished(output) => assert_eq!(output.summary.case_id(), 6),
        _ => panic!("the summary comes last"),
    }
}

// ---- Output directory ----

#[test]
fn nothing_that_exists_is_written_over() {
    let message = create_new_output_dir("out", true, None).unwrap_err();
    assert_eq!(
        message,
        "出力フォルダ out は既に存在します。上書きを避けるため、別のフォルダを output_dir に指定するか、削除してから実行してください"
    );
    assert_eq!(create_new_output_dir("out", false, None), Ok(false));
    assert_eq!(create_new_output_dir("out", false, Some("")), Ok(false));
    assert_eq!(create_new_output_dir("a/out", false, Some("a")), Ok(true));
}

// ---- The state of a run ----

fn steps_of(reaction: Reaction) -> (Vec<String>, Option<u32>) {
    match reaction {
        Reaction::Append { steps, missing } => {
            let mut shown = Vec::new();
            for step in &steps {
                shown.push(match step {
                    TableStep::Open { case_id } => format!("open {case_id}"),
                    TableStep::Write { trial } => format!("{}:{}", trial.case_id, trial.trial_id),
                    TableStep::Flush { case_id } => format!("flush {case_id}"),
                });
            }
            (shown, missing)
        }
        _ => panic!("trials are appended"),
    }
}

#[test]
fn tables_are_opened_once_and_closed_with_their_case() {
    let mut state = RunState::new(1, vec![1, 2]);
    let trials = vec![trial(1, 5), trial(1, 7)];
    let (steps, missing) = steps_of(state.handle(WorkerMessage::TrialsReady(trials)));
    assert_eq!(steps, vec!["open 1", "1:5", "1:7", "flush 1"]);
    assert_eq!(missing, None);
    let (steps, _) = steps_of(state.handle(WorkerMessage::TrialsReady(vec![trial(1, 0)])));
    assert_eq!(steps, vec!["1:0", "flush 1"]);
    let (steps, _) = steps_of(state.handle(WorkerMessage::TrialsReady(Vec::new())));
    assert_eq!(steps.len(), 0);
    match state.handle(WorkerMessage::CaseFinished(output(1))) {
        Reaction::Finish { close, known, output } => {
            assert!(close && known);
            assert_eq!(output.summary.case_id(), 1);
        }
        _ => panic!("a case is finished"),
    }
    match state.handle(WorkerMessage::CaseFinished(output(2))) {
        Reaction::Finish { close, known, .. } => assert!(!close && known),
        _ => panic!("a case is finished"),
    }
    match state.handle(WorkerMessage::CaseFinished(output(3))) {
        Reaction::Finish { close, known, .. } => assert!(!close && !known),
        _ => panic!("a case is finished"),
    }
    let (steps, _) = steps_of(state.handle(WorkerMessage::TrialsReady(vec![trial(1, 9)])));
    assert_eq!(steps, vec!["open 1", "1:9", "flush 1"]);
}

#[test]
fn trials_of_a_case_without_a_directory_are_refused() {
    let mut state = RunState::new(1, vec![1]);
    let trials = vec![trial(1, 5), trial(4, 7), trial(1, 6)];
    let (steps, missing) = steps_of(state.handle(WorkerMessage::TrialsReady(trials)));
    assert_eq!(steps, vec!["open 1", "1:5"]);
    assert_eq!(missing, Some(4));
    assert_eq!(missing_dir_message(4), "no output directory for case 4");
}

#[test]
fn runs_end_with_their_workers() {
    let mut state = RunState::new(2, vec![1]);
    match state.handle(WorkerMessage::Progress(event(None))) {
        Reaction::Log { line, row } => {
            assert_eq!(line, progress_line(&event(None)));
            assert_eq!(row.case_id, 3);
        }
        _ => panic!("an event is logged"),
    }
    assert!(state.running());
    match state.handle(worker_end(Some(0), None)) {
        Reaction::Show { line } => assert_eq!(line, "worker=gpu:0 done"),
        _ => panic!("the end of a worker is shown"),
    }
    assert!(state.running());
    assert_eq!(
        state.outcome(3, "out"),
        Ok("wrote 3 case result(s) under out".to_string())
    );
    assert!(matches!(
        state.handle(worker_end(Some(1), Some("no device"))),
        Reaction::Nothing
    ));
    assert!(!state.running());
    assert_eq!(state.outcome(3, "out"), Err("worker gpu:1: no device".to_string()));
}

#[test]
fn all_errors_are_told() {
    let mut state = RunState::new(2, Vec::new());
    state.handle(worker_end(Some(1), Some("a")));
    state.handle(worker_end(None, Some("b")));
    assert_eq!(state.outcome(0, "out"), Err("worker gpu:1: a; worker cpu: b".to_string()));
}

// ---- Kernels ----

#[test]
fn kernels_get_the_values_of_their_case() {
    let physics = test_physics();
    let params = KernelParams::new(&Machine, &physics, test_case(0));
    let diffusion = diffusion_for_length(&Machine, d(0.0128), physics.diffusion_reference_length);
    assert_eq!((params.m, params.n_wall, params.wall_k), (1, 500, 5));
    assert_eq!((f(params.gamma), f(params.delta), f(params.force)), (0.5, 0.25, 1.0));
    assert_eq!(f(params.d_parallel), f(diffusion.d_parallel));
    assert_eq!(
        f(params.trans_noise_perp),
        (2.0 * f(diffusion.d_perp) * 4.0e-7).sqrt()
    );
    assert_eq!(f(params.rot_noise), (2.0 * f(diffusion.d_r) * 4.0e-7).sqrt());
    let rc2 = 2.0f64.cbrt() * 8.0e-3 * 8.0e-3;
    assert!((f(params.rc2) - rc2).abs() < 1.0e-18);
    assert_eq!(params.hist_x_bins, HIST_X_BINS as i32);
}

#[test]
fn every_trial_gets_a_thread() {
    let dims = launch_config_for_trials(257);
    assert_eq!((dims.blocks, dims.threads), (2, CUDA_THREADS_PER_BLOCK));
    assert_eq!(launch_config_for_trials(256).blocks, 1);
    assert_eq!(launch_config_for_trials(0).blocks, 0);
    assert_eq!(launch_config_for_trials(u32::MAX as usize).blocks, 16_777_216);
    assert_eq!(rng_buffer_bytes(3), 768);
}

#[test]
fn headers_are_looked_for_in_order() {
    assert_eq!(cuda_include_paths(None, false, false).len(), 0);
    assert_eq!(
        cuda_include_paths(Some("/opt/cuda"), true, true),
        vec!["/opt/cuda/include", "/usr/local/cuda-12.2/include", "/usr/local/cuda/include"]
    );
    assert_eq!(
        cuda_include_paths(Some("/usr/local/cuda"), true, false),
        vec!["/usr/local/cuda/include"]
    );
    assert_eq!(
        compile_options(8, 6),
        vec!["--gpu-architecture=compute_86", "--std=c++14"]
    );
}

// ---- Device ----

fn run_config(tasks_per_gpu: usize) -> GpuRunConfig {
    GpuRunConfig {
        device_id: 2,
        max_steps: 25_000,
        steps_per_launch: 10_000,
        hist_stride: 0,
        tasks_per_gpu,
        progress_interval_ms: 5_000,
    }
}

fn host(statuses: Vec<i32>) -> HostTrials {
    let n = statuses.len();
    let places: Vec<Double> = (0..n).map(|i| d(i as f64)).collect();
    HostTrials {
        x0: places.clone(),
        y0: places.clone(),
        phi0: places.clone(),
        x: places.clone(),
        y: places.clone(),
        phi: places.clone(),
        times: places,
        steps: vec![7; n],
        pass_directions: statuses
            .iter()
            .map(|s| if *s == STATUS_OK { PASS_DIRECTION_RIGHT } else { PASS_DIRECTION_NONE })
            .collect(),
        statuses,
    }
}

#[test]
fn ended_trials_are_handed_on_once() {
    let mut slot = StreamSlot::new(3);
    slot.start_job(test_case(5), 0);
    let statuses = vec![STATUS_RUNNING, STATUS_OK, STATUS_RUNNING];
    let rows = slot.collect_unemitted(2, test_case(5), false, &host(statuses.clone()));
    assert_eq!(rows.len(), 1);
    assert_eq!((rows[0].case_id, rows[0].trial_id, rows[0].gpu_id), (5, 1, Some(2)));
    assert_eq!((f(rows[0].x_end), rows[0].steps), (1.0, 7));
    let rows = slot.collect_unemitted(2, test_case(5), false, &host(statuses));
    assert_eq!(rows.len(), 0);
    let statuses = vec![STATUS_MAX_STEPS, STATUS_OK, STATUS_RUNNING];
    let rows = slot.collect_unemitted(2, test_case(5), true, &host(statuses));
    let ids: Vec<u64> = rows.iter().map(|row| row.trial_id).collect();
    assert_eq!(ids, vec![0, 2]);
    assert_eq!(slot.emitted_count, 3);
    slot.start_job(test_case(6), 0);
    assert_eq!(slot.emitted_count, 0);
}

#[test]
fn incomplete_readings_are_told_apart() {
    let mut reading = host(vec![STATUS_OK; 3]);
    assert!(reading.has_trials(3));
    assert!(!reading.has_trials(2));
    reading.phi0.pop();
    assert!(!reading.has_trials(3));
}

#[test]
fn devices_refuse_no_trials_and_too_many() {
    let refused = DeviceRun::new(run_config(1), 0).unwrap_err();
    assert_eq!(refused, DeviceRunError::NoTrials);
    assert_eq!(refused.message(), "trial_count must be positive");
    let refused = DeviceRun::new(run_config(1), 1 << 31).unwrap_err();
    assert_eq!(refused, DeviceRunError::TooManyTrials);
    assert_eq!(refused.message(), "too many trials for i32");
    assert_eq!(DeviceRun::new(run_config(0), 1).unwrap().slots.len(), 1);
}

/// Runs all cases of a queue with trials that end in pairs, one pair with each launch.
fn run_device(cases: usize, tasks: usize, trials: usize) -> (Vec<String>, Vec<(u32, u64)>) {
    let physics = test_physics();
    let mut run = DeviceRun::new(run_config(tasks), trials).unwrap();
    let mut queue: VecDeque<Case> = (0..cases).map(|i| test_case(i as u32)).collect();
    let mut log = Vec::new();
    let mut rows = Vec::new();
    let mut ended = vec![0usize; tasks.max(1)];
    for now_ms in 0..100_000u64 {
        match run.phase {
            Phase::NextCase { .. } => run.on_case(next_case(&mut queue)),
            Phase::Start { slot, case, .. } => {
                ended[slot] = 0;
                log.push(format!("start {} in {slot}", case.case_id));
                run.on_started(now_ms);
            }
            Phase::Launch { slot } => {
                ended[slot] = (ended[slot] + 2).min(trials);
                log.push(format!("launch {slot}"));
                run.on_launched();
            }
            Phase::Synchronize { slot } => {
                if let Some(row) = run.on_counters(ended[slot] as u64, 0, now_ms) {
                    log.push(format!("{} {} of {}", row.case_id, row.status, row.current_steps));
                }
            }
            Phase::ReadTrials { slot, .. } => {
                let mut statuses = vec![STATUS_RUNNING; trials];
                for status in statuses.iter_mut().take(ended[slot]) {
                    *status = STATUS_OK;
                }
                for row in run.on_trials(host(statuses)) {
                    rows.push((row.case_id, row.trial_id));
                }
            }
            Phase::ReadHistograms { .. } => {
                let phi = vec![1; HIST_X_BINS * HIST_PHI_BINS];
                let y = vec![2; HIST_X_BINS * HIST_Y_BINS];
                let output = run.on_histograms(&Machine, &physics, phi, y).unwrap();
                assert_eq!((output.hist_phi[0], output.hist_y[0]), (1, 2));
                match output.summary {
                    Summary::FirstPassage(row) => {
                        log.push(format!("finish {} with {}", row.case_id, row.n_ok));
                    }
                    Summary::FixedTime(_) => panic!("the mode is not that of the case"),
                }
            }
            Phase::End => return (log, rows),
        }
    }
    panic!("the run does not end")
}

#[test]
fn a_device_runs_one_case_after_the_other() {
    let (log, rows) = run_device(2, 1, 3);
    assert_eq!(
        log,
        vec![
            "start 0 in 0",
            "launch 0",
            "launch 0",
            "0 completed of 20000",
            "finish 0 with 3",
            "start 1 in 0",
            "launch 0",
            "launch 0",
            "1 completed of 20000",
            "finish 1 with 3",
        ]
    );
    assert_eq!(rows, vec![(0, 0), (0, 1), (0, 2), (1, 0), (1, 1), (1, 2)]);
}

#[test]
fn a_device_runs_cases_side_by_side() {
    let (log, rows) = run_device(3, 2, 2);
    assert_eq!(
        log,
        vec![
            "start 0 in 0",
            "start 1 in 1",
            "launch 0",
            "launch 1",
            "0 completed of 10000",
            "finish 0 with 2",
            "start 2 in 0",
            "1 completed of 10000",
            "finish 1 with 2",
            "launch 0",
            "2 completed of 10000",
            "finish 2 with 2",
        ]
    );
    assert_eq!(rows.len(), 6);
}

#[test]
fn a_device_needs_no_cases() {
    let (log, rows) = run_device(0, 3, 1);
    assert_eq!(log.len(), 0);
    assert_eq!(rows.len(), 0);
}

#[test]
fn cases_end_with_their_last_step() {
    // 25000 steps take three launches, in which six of nine trials end.
    let (log, rows) = run_device(1, 1, 9);
    assert_eq!(
        log,
        vec![
            "start 0 in 0",
            "launch 0",
            "launch 0",
            "launch 0",
            "0 completed of 25000",
            "finish 0 with 6",
        ]
    );
    assert_eq!(rows.len(), 9);
}

#[test]
fn old_reports_are_renewed() {
    let mut run = DeviceRun::new(run_config(1), 4).unwrap();
    run.on_case(Some(test_case(1)));
    run.on_started(1_000);
    run.on_launched();
    assert!(run.on_counters(0, 0, 5_999).is_none());
    assert!(matches!(run.phase, Phase::Launch { slot: 0 }));
    run.on_launched();
    let row = run.on_counters(1, 1, 6_000).unwrap();
    assert_eq!((row.completed_trials, row.total_trials), (2, 4));
    assert_eq!((row.current_steps, row.status.as_str()), (20_000, "running"));
    assert!(matches!(run.phase, Phase::ReadTrials { slot: 0, done: false }));
}

#[test]
fn devices_summarize_displacements_over_a_fixed_time() {
    let physics = Physics { mode: Mode::FixedTime, ..test_physics() };
    let mut run = DeviceRun::new(run_config(1), 2).unwrap();
    run.on_case(Some(test_case(1)));
    run.on_started(0);
    run.on_launched();
    run.on_counters(0, 2, 0);
    let mut reading = host(vec![STATUS_MAX_STEPS; 2]);
    reading.x = vec![d(1.0), d(4.0)];
    assert_eq!(run.on_trials(reading).len(), 2);
    match run.on_histograms(&Machine, &physics, Vec::new(), Vec::new()).unwrap().summary {
        Summary::FixedTime(row) => {
            assert_eq!(f(row.mean_dx), 2.0);
            assert_eq!(row.gpu_id, Some(2));
        }
        Summary::FirstPassage(_) => panic!("the mode is not that of the case"),
    }
}

#[test]
fn an_empty_queue_is_not_asked_again() {
    let physics = test_physics();
    let mut run = DeviceRun::new(run_config(2), 1).unwrap();
    assert!(!run.exhausted);
    let mut answers = vec![Some(test_case(9)), None].into_iter();
    let mut asked = 0;
    let mut finished = Vec::new();
    for now_ms in 0..100 {
        match run.phase {
            Phase::NextCase { .. } => {
                asked += 1;
                // A case that comes after the end of the queue is never taken.
                run.on_case(answers.next().unwrap_or(Some(test_case(4))));
            }
            Phase::Start { case, .. } => {
                assert_eq!(case.case_id, 9);
                run.on_started(now_ms);
            }
            Phase::Launch { .. } => run.on_launched(),
            Phase::Synchronize { .. } => {
                run.on_counters(1, 0, now_ms);
            }
            Phase::ReadTrials { .. } => {
                assert_eq!(run.on_trials(host(vec![STATUS_OK])).len(), 1);
            }
            Phase::ReadHistograms { .. } => {
                let output = run.on_histograms(&Machine, &physics, Vec::new(), Vec::new());
                finished.push(output.unwrap().summary.case_id());
            }
            Phase::End => break,
        }
    }
    assert!(matches!(run.phase, Phase::End));
    assert!(run.exhausted);
    assert_eq!(asked, 2);
    assert_eq!(finished, vec![9]);
}

#[test]
fn a_case_with_two_directories_is_one_case() {
    let mut state = RunState::new(1, vec![7, 7, 3]);
    assert_eq!(state.known.len(), 2);
    assert_eq!(state.finish(7), (false, true));
    assert_eq!(state.finish(8), (false, false));
}
