//! The GPU backend without its device: launch parameters, the collection of finished trials, and
//! the schedule that keeps several cases running on one device.

use vstd::prelude::*;
use vstd::string::*;
use crate::config::{
    rc2_gives, Case, Physics, BOUNDARY_REFLECTION_LIMIT, CHANNEL_NECK_PHASE, HIST_PHI_BINS,
    HIST_X_BINS, HIST_Y_BINS, HIST_Y_MAX, MAX_WALL_REPULSION_FORCE, WALL_K,
};
use crate::double::Double;
use crate::formula::Arithmetic;
use crate::model::{
    count_of, diffusion_for_length, diffusion_for_length_gives, Diffusion, TrialResult,
    STATUS_RUNNING,
};
use crate::simulation::{noise_scale, noise_scale_gives, NoiseScale};
use crate::text;

verus! {

/// Threads of one block of a launch.
pub const CUDA_THREADS_PER_BLOCK: u32 = 256;

/// Bytes set aside for the random state of one trial.
pub const RNG_STATE_BYTES: usize = 256;

// ---- Kernel parameters ----

/// The parameters that a kernel gets by value, in the order in which it reads them.
#[derive(Clone, Copy, Debug)]
pub struct KernelParams {
    pub m: i32,
    pub n_wall: i32,
    pub wall_k: i32,
    pub boundary_reflection_limit: i32,
    pub l: Double,
    pub gamma: Double,
    pub delta: Double,
    pub force: Double,
    pub d_parallel: Double,
    pub d_perp: Double,
    pub d_r: Double,
    pub trans_noise_parallel: Double,
    pub trans_noise_perp: Double,
    pub rot_noise: Double,
    pub dt: Double,
    pub sigma: Double,
    pub epsilon: Double,
    pub wall_dx: Double,
    pub particle_dx: Double,
    pub rc2: Double,
    pub max_wall_repulsion_force: Double,
    pub channel_neck_phase: Double,
    pub hist_x_bins: i32,
    pub hist_phi_bins: i32,
    pub hist_y_bins: i32,
    pub hist_y_max: Double,
}

/// The parameters of a kernel, from the values derived for a case.
pub open spec fn kernel_params_from(
    physics: Physics,
    case: Case,
    diffusion: Diffusion,
    noise: NoiseScale,
    rc2: Double,
) -> KernelParams {
    KernelParams {
        m: case.m,
        n_wall: physics.n_wall as i32,
        wall_k: WALL_K,
        boundary_reflection_limit: BOUNDARY_REFLECTION_LIMIT as i32,
        l: case.l,
        gamma: case.gamma,
        delta: case.delta,
        force: case.f,
        d_parallel: diffusion.d_parallel,
        d_perp: diffusion.d_perp,
        d_r: diffusion.d_r,
        trans_noise_parallel: noise.trans_parallel,
        trans_noise_perp: noise.trans_perp,
        rot_noise: noise.rot,
        dt: physics.delta_t,
        sigma: physics.sigma,
        epsilon: physics.epsilon,
        wall_dx: physics.wall_dx,
        particle_dx: physics.particle_dx,
        rc2,
        max_wall_repulsion_force: Double { bits: MAX_WALL_REPULSION_FORCE },
        channel_neck_phase: Double { bits: CHANNEL_NECK_PHASE },
        hist_x_bins: HIST_X_BINS as i32,
        hist_phi_bins: HIST_PHI_BINS as i32,
        hist_y_bins: HIST_Y_BINS as i32,
        hist_y_max: Double { bits: HIST_Y_MAX },
    }
}

impl KernelParams {
    /// The parameters for a case: those of the rod with its diffusion and its noise, those of the
    /// walls, and the sizes of the histograms.
    pub fn new<K: Arithmetic>(k: &K, physics: &Physics, case: Case) -> (params: KernelParams)
        requires
            physics.n_wall <= i32::MAX,
        ensures
            exists|diffusion: Diffusion, noise: NoiseScale, rc2: Double|
                {
                    &&& #[trigger] diffusion_for_length_gives(
                        k,
                        case.l,
                        physics.diffusion_reference_length,
                        diffusion,
                    )
                    &&& #[trigger] noise_scale_gives(k, diffusion, physics.delta_t, noise)
                    &&& #[trigger] rc2_gives(k, physics.sigma, rc2)
                    &&& params == kernel_params_from(*physics, case, diffusion, noise, rc2)
                },
    {
        let diffusion = diffusion_for_length(k, case.l, physics.diffusion_reference_length);
        let noise = noise_scale(k, diffusion, physics.delta_t);
        let rc2 = physics.rc2(k);
        assert(diffusion_for_length_gives(
            k,
            case.l,
            physics.diffusion_reference_length,
            diffusion,
        ));
        assert(noise_scale_gives(k, diffusion, physics.delta_t, noise));
        assert(rc2_gives(k, physics.sigma, rc2));
        KernelParams {
            m: case.m,
            n_wall: physics.n_wall as i32,
            wall_k: WALL_K,
            boundary_reflection_limit: BOUNDARY_REFLECTION_LIMIT as i32,
            l: case.l,
            gamma: case.gamma,
            delta: case.delta,
            force: case.f,
            d_parallel: diffusion.d_parallel,
            d_perp: diffusion.d_perp,
            d_r: diffusion.d_r,
            trans_noise_parallel: noise.trans_parallel,
            trans_noise_perp: noise.trans_perp,
            rot_noise: noise.rot,
            dt: physics.delta_t,
            sigma: physics.sigma,
            epsilon: physics.epsilon,
            wall_dx: physics.wall_dx,
            particle_dx: physics.particle_dx,
            rc2,
            max_wall_repulsion_force: Double::from_bits(MAX_WALL_REPULSION_FORCE),
            channel_neck_phase: Double::from_bits(CHANNEL_NECK_PHASE),
            hist_x_bins: HIST_X_BINS as i32,
            hist_phi_bins: HIST_PHI_BINS as i32,
            hist_y_bins: HIST_Y_BINS as i32,
            hist_y_max: Double::from_bits(HIST_Y_MAX),
        }
    }
}

// ---- Launches ----

/// The blocks of a launch and the threads of each.
#[derive(Clone, Copy, Debug, PartialEq, Eq, Structural)]
pub struct LaunchDims {
    pub blocks: u32,
    pub threads: u32,
}

/// As few blocks as give every trial a thread.
pub fn launch_config_for_trials(trial_count: usize) -> (dims: LaunchDims)
    requires
        trial_count <= u32::MAX,
    ensures
        dims.threads == CUDA_THREADS_PER_BLOCK,
        trial_count <= dims.blocks * dims.threads,
        trial_count > 0 ==> (dims.blocks - 1) * dims.threads < trial_count,
        trial_count == 0 ==> dims.blocks == 0,
{
    let n: u32 = trial_count as u32;
    let full: u32 = n / CUDA_THREADS_PER_BLOCK;
    let blocks: u32 = if n % CUDA_THREADS_PER_BLOCK == 0 {
        full
    } else {
        full + 1
    };
    LaunchDims { blocks, threads: CUDA_THREADS_PER_BLOCK }
}

/// The bytes of the random states of all trials.
pub fn rng_buffer_bytes(trial_count: usize) -> (bytes: usize)
    requires
        trial_count * RNG_STATE_BYTES <= usize::MAX,
    ensures
        bytes == trial_count * RNG_STATE_BYTES,
{
    trial_count * RNG_STATE_BYTES
}

// ---- Kernel compilation ----

/// Where the headers of an installation usually are.
pub open spec fn usual_includes() -> (Seq<char>, Seq<char>) {
    ("/usr/local/cuda/include"@, "/usr/local/cuda-12.2/include"@)
}

/// The directories in which the kernel compiler looks for headers, in order and each once: that of
/// the installation at `cuda_home`, and those of the two usual places that exist.
pub fn cuda_include_paths(cuda_home: Option<&str>, usual: bool, usual_versioned: bool) -> (paths:
    Vec<String>)
    ensures
        text::ordered(text::texts(paths@)),
        forall|t: Seq<char>| #[trigger]
            text::texts(paths@).contains(t) <==> {
                ||| cuda_home matches Some(home) && t == home@ + "/include"@
                ||| usual && t == usual_includes().0
                ||| usual_versioned && t == usual_includes().1
            },
{
    let mut paths: Vec<String> = Vec::new();
    if let Some(home) = cuda_home {
        let mut path = home.to_owned();
        path.append("/include");
        paths.push(path);
        assert(text::texts(paths@)[0] == home@ + "/include"@);
    }
    let ghost first = text::texts(paths@);
    if usual {
        paths.push("/usr/local/cuda/include".to_owned());
        assert(text::texts(paths@) =~= first.push(usual_includes().0));
        assert(text::texts(paths@)[first.len() as int] == usual_includes().0);
    }
    let ghost second = text::texts(paths@);
    if usual_versioned {
        paths.push("/usr/local/cuda-12.2/include".to_owned());
        assert(text::texts(paths@) =~= second.push(usual_includes().1));
        assert(text::texts(paths@)[second.len() as int] == usual_includes().1);
    }
    proof {
        let all = text::texts(paths@);
        assert forall|t: Seq<char>| #[trigger] all.contains(t) <==> {
            ||| cuda_home matches Some(home) && t == home@ + "/include"@
            ||| usual && t == usual_includes().0
            ||| usual_versioned && t == usual_includes().1
        } by {
            if cuda_home is Some && t == cuda_home->0@ + "/include"@ {
                assert(all[0] == t);
            } else if usual && t == usual_includes().0 {
                assert(all[first.len() as int] == t);
            } else if usual_versioned && t == usual_includes().1 {
                assert(all[second.len() as int] == t);
            }
        }
    }
    text::sort_dedup(&paths)
}

/// The options of the kernel compiler for a device of a compute capability.
pub fn compile_options(major: i32, minor: i32) -> (options: Vec<String>)
    ensures
        text::texts(options@) == seq![
            "--gpu-architecture=compute_"@ + text::signed_numeral(major as int)
                + text::signed_numeral(minor as int),
            "--std=c++14"@,
        ],
{
    let mut architecture = "--gpu-architecture=compute_".to_owned();
    architecture.append(text::signed_decimal(major as i64).as_str());
    architecture.append(text::signed_decimal(minor as i64).as_str());
    let mut options: Vec<String> = Vec::new();
    options.push(architecture);
    options.push("--std=c++14".to_owned());
    options
}

// ---- Slots ----

/// The settings of the worker of one device.
#[derive(Clone, Copy, Debug)]
pub struct GpuRunConfig {
    pub device_id: usize,
    pub max_steps: u64,
    pub steps_per_launch: u32,
    /// Steps between two histogram votes; 0 switches the histograms off.
    pub hist_stride: u32,
    /// Cases that the device runs side by side.
    pub tasks_per_gpu: usize,
    /// Shortest time between two reports of a case, in milliseconds.
    pub progress_interval_ms: u64,
}

/// The progress of a case on a device.
#[derive(Debug)]
pub struct GpuProgress {
    pub case_id: u32,
    pub completed_trials: usize,
    pub total_trials: usize,
    pub current_steps: u64,
    pub status: String,
}

/// The case that a slot runs.
#[derive(Clone, Copy, Debug)]
pub struct SlotJob {
    pub case: Case,
    pub launched_steps: u64,
    /// When the case was last reported, in milliseconds.
    pub last_progress_ms: u64,
}

/// What was read from a device about all trials of a case.
#[derive(Debug)]
pub struct HostTrials {
    pub x0: Vec<Double>,
    pub y0: Vec<Double>,
    pub phi0: Vec<Double>,
    pub x: Vec<Double>,
    pub y: Vec<Double>,
    pub phi: Vec<Double>,
    pub times: Vec<Double>,
    pub steps: Vec<u64>,
    pub statuses: Vec<i32>,
    pub pass_directions: Vec<i32>,
}

impl HostTrials {
    /// Whether there is one value of each kind for each of `n` trials.
    pub open spec fn covers(self, n: nat) -> bool {
        &&& self.x0@.len() == n
        &&& self.y0@.len() == n
        &&& self.phi0@.len() == n
        &&& self.x@.len() == n
        &&& self.y@.len() == n
        &&& self.phi@.len() == n
        &&& self.times@.len() == n
        &&& self.steps@.len() == n
        &&& self.statuses@.len() == n
        &&& self.pass_directions@.len() == n
    }

    /// Whether there is one value of each kind for each of `n` trials.
    pub fn has_trials(&self, n: usize) -> (b: bool)
        ensures
            b == self.covers(n as nat),
    {
        self.x0.len() == n && self.y0.len() == n && self.phi0.len() == n && self.x.len() == n
            && self.y.len() == n && self.phi.len() == n && self.times.len() == n
            && self.steps.len() == n && self.statuses.len() == n && self.pass_directions.len() == n
    }

    /// The result of one trial.
    pub open spec fn result_at(self, device_id: usize, case: Case, i: int) -> TrialResult {
        TrialResult {
            case_id: case.case_id,
            trial_id: i as u64,
            gpu_id: Some(device_id),
            case,
            x0: self.x0@[i],
            y0: self.y0@[i],
            phi0: self.phi0@[i],
            x_end: self.x@[i],
            y_end: self.y@[i],
            phi_end: self.phi@[i],
            t: self.times@[i],
            steps: self.steps@[i],
            status: self.statuses@[i],
            pass_direction: self.pass_directions@[i],
        }
    }
}

/// Whether trial `i` is to be handed on: it was not yet, and it has ended or all are wanted.
pub open spec fn due(emitted: Seq<bool>, statuses: Seq<i32>, emit_all: bool, i: int) -> bool {
    !emitted[i] && (emit_all || statuses[i] != STATUS_RUNNING)
}

/// The marks after all trials that are due have been handed on.
pub open spec fn marked(emitted: Seq<bool>, statuses: Seq<i32>, emit_all: bool) -> Seq<bool> {
    Seq::new(emitted.len(), |i: int| emitted[i] || due(emitted, statuses, emit_all, i))
}

/// The results of those of the first `n` trials that are due, in order.
pub open spec fn rows_due(
    host: HostTrials,
    device_id: usize,
    case: Case,
    emitted: Seq<bool>,
    emit_all: bool,
    n: nat,
) -> Seq<TrialResult>
    decreases n,
{
    if n == 0 {
        Seq::empty()
    } else {
        let front = rows_due(host, device_id, case, emitted, emit_all, (n - 1) as nat);
        if due(emitted, host.statuses@, emit_all, n - 1) {
            front.push(host.result_at(device_id, case, n - 1))
        } else {
            front
        }
    }
}

/// How many marks are set.
pub open spec fn marks(emitted: Seq<bool>) -> nat {
    count_of(emitted.len(), |i: int| emitted[i])
}

/// One of the cases that a device runs side by side.
#[derive(Clone, Debug)]
pub struct StreamSlot {
    pub job: Option<SlotJob>,
    /// For each trial whether its result was handed on.
    pub emitted: Vec<bool>,
    /// How many results were handed on.
    pub emitted_count: usize,
}

impl StreamSlot {
    /// There is a mark for each of `n` trials, and the marks are counted.
    pub open spec fn well_formed(self, n: nat) -> bool {
        &&& self.emitted@.len() == n
        &&& self.emitted_count == marks(self.emitted@)
    }

    /// Whether the slot runs a case.
    pub open spec fn active(self) -> bool {
        self.job is Some
    }

    /// Whether the slot is fresh for a case at a time.
    pub open spec fn fresh(self, case: Case, now_ms: u64) -> bool {
        &&& self.job == Some(SlotJob { case, launched_steps: 0, last_progress_ms: now_ms })
        &&& forall|i: int| 0 <= i < self.emitted@.len() ==> !(#[trigger] self.emitted@[i])
        &&& self.emitted_count == 0
    }

    /// A slot without a case.
    pub fn new(trial_count: usize) -> (slot: StreamSlot)
        ensures
            slot.well_formed(trial_count as nat),
            slot.job is None,
            slot.emitted_count == 0,
    {
        let emitted = no_marks(trial_count);
        proof {
            lemma_no_marks(emitted@, emitted@.len());
        }
        StreamSlot { job: None, emitted, emitted_count: 0 }
    }

    /// Gives the slot a case; nothing of it was launched or handed on yet.
    pub fn start_job(&mut self, case: Case, now_ms: u64)
        ensures
            final(self).emitted@.len() == old(self).emitted@.len(),
            final(self).well_formed(old(self).emitted@.len()),
            final(self).fresh(case, now_ms),
    {
        let n: usize = self.emitted.len();
        self.emitted = no_marks(n);
        self.emitted_count = 0;
        self.job = Some(SlotJob { case, launched_steps: 0, last_progress_ms: now_ms });
        proof {
            lemma_no_marks(self.emitted@, self.emitted@.len());
        }
    }

    /// Counts the steps of one launch.
    pub fn launch_sim(&mut self, steps_per_launch: u32)
        requires
            old(self).active(),
        ensures
            final(self).job == Some(
                (SlotJob {
                    launched_steps: launched_after(old(self).job->0.launched_steps, steps_per_launch),
                    ..old(self).job->0
                }),
            ),
            final(self).emitted == old(self).emitted,
            final(self).emitted_count == old(self).emitted_count,
    {
        if let Some(job) = self.job {
            let launched_steps: u64 = job.launched_steps.saturating_add(steps_per_launch as u64);
            self.job = Some(SlotJob { launched_steps, ..job });
        }
    }

    /// Hands on the results that are due, and marks them.
    pub fn collect_unemitted(
        &mut self,
        device_id: usize,
        case: Case,
        emit_all: bool,
        host: &HostTrials,
    ) -> (rows: Vec<TrialResult>)
        requires
            old(self).well_formed(old(self).emitted@.len()),
            host.covers(old(self).emitted@.len()),
        ensures
            rows@ == rows_due(
                *host,
                device_id,
                case,
                old(self).emitted@,
                emit_all,
                old(self).emitted@.len(),
            ),
            final(self).emitted@ == marked(old(self).emitted@, host.statuses@, emit_all),
            final(self).well_formed(old(self).emitted@.len()),
            final(self).job == old(self).job,
            final(self).emitted_count == old(self).emitted_count + rows@.len(),
    {
        let mut rows: Vec<TrialResult> = Vec::new();
        let ghost before = self.emitted@;
        let ghost counted = self.emitted_count;
        let mut i: usize = 0;
        proof {
            lemma_marks_split(before, before.len());
        }
        while i < host.statuses.len()
            invariant
                i <= host.statuses.len(),
                host.covers(before.len()),
                self.emitted@.len() == before.len(),
                self.job == old(self).job,
                rows@ == rows_due(*host, device_id, case, before, emit_all, i as nat),
                forall|j: int|
                    0 <= j < i ==> self.emitted@[j] == (before[j] || due(
                        before,
                        host.statuses@,
                        emit_all,
                        j,
                    )),
                forall|j: int| i <= j < before.len() ==> self.emitted@[j] == before[j],
                counted == marks(before),
                rows@.len() + unmarked(before, i as int, before.len()) <= unmarked(
                    before,
                    0,
                    before.len(),
                ),
                unmarked(before, 0, before.len()) + counted == before.len(),
                self.emitted_count == counted + rows@.len(),
            decreases host.statuses.len() - i,
        {
            proof {
                reveal_with_fuel(unmarked, 2);
            }
            if !self.emitted[i] && (emit_all || host.statuses[i] != STATUS_RUNNING) {
                self.emitted.set(i, true);
                self.emitted_count = self.emitted_count + 1;
                rows.push(
                    TrialResult {
                        case_id: case.case_id,
                        trial_id: i as u64,
                        gpu_id: Some(device_id),
                        case,
                        x0: host.x0[i],
                        y0: host.y0[i],
                        phi0: host.phi0[i],
                        x_end: host.x[i],
                        y_end: host.y[i],
                        phi_end: host.phi[i],
                        t: host.times[i],
                        steps: host.steps[i],
                        status: host.statuses[i],
                        pass_direction: host.pass_directions[i],
                    },
                );
            }
            i = i + 1;
        }
        assert(self.emitted@ =~= marked(before, host.statuses@, emit_all));
        proof {
            lemma_rows_counted(*host, device_id, case, before, emit_all, before.len());
            lemma_same_count(
                before.len(),
                |i: int| marked(before, host.statuses@, emit_all)[i],
                |i: int| self.emitted@[i],
            );
        }
        rows
    }
}

/// The steps launched after one more launch.
pub open spec fn launched_after(launched: u64, steps: u32) -> u64 {
    if launched + steps > u64::MAX {
        u64::MAX
    } else {
        (launched + steps) as u64
    }
}

/// How many of the trials from `from` to `n` are not marked.
spec fn unmarked(emitted: Seq<bool>, from: int, n: nat) -> nat
    decreases n - from,
{
    if from >= n {
        0
    } else {
        unmarked(emitted, from + 1, n) + if emitted[from] {
            0nat
        } else {
            1
        }
    }
}

proof fn lemma_marks_split(emitted: Seq<bool>, n: nat)
    requires
        n <= emitted.len(),
    ensures
        count_of(n, |i: int| emitted[i]) + unmarked(emitted, 0, n) == n,
    decreases n,
{
    if n > 0 {
        lemma_marks_split(emitted, (n - 1) as nat);
        lemma_unmarked_last(emitted, 0, n);
    }
}

proof fn lemma_unmarked_last(emitted: Seq<bool>, from: int, n: nat)
    requires
        0 <= from < n <= emitted.len(),
    ensures
        unmarked(emitted, from, n) == unmarked(emitted, from, (n - 1) as nat) + if emitted[n - 1] {
            0nat
        } else {
            1
        },
    decreases n - from,
{
    reveal_with_fuel(unmarked, 2);
    if from < n - 1 {
        lemma_unmarked_last(emitted, from + 1, n);
    }
}

proof fn lemma_same_count(n: nat, p: spec_fn(int) -> bool, q: spec_fn(int) -> bool)
    requires
        forall|i: int| 0 <= i < n ==> #[trigger] p(i) == q(i),
    ensures
        count_of(n, p) == count_of(n, q),
    decreases n,
{
    if n > 0 {
        lemma_same_count((n - 1) as nat, p, q);
        assert(p(n - 1) == q(n - 1));
    }
}

proof fn lemma_rows_counted(
    host: HostTrials,
    device_id: usize,
    case: Case,
    emitted: Seq<bool>,
    emit_all: bool,
    n: nat,
)
    requires
        n <= emitted.len(),
    ensures
        count_of(n, |i: int| marked(emitted, host.statuses@, emit_all)[i]) == count_of(
            n,
            |i: int| emitted[i],
        ) + rows_due(host, device_id, case, emitted, emit_all, n).len(),
    decreases n,
{
    if n > 0 {
        lemma_rows_counted(host, device_id, case, emitted, emit_all, (n - 1) as nat);
    }
}

proof fn lemma_no_marks(emitted: Seq<bool>, n: nat)
    requires
        n <= emitted.len(),
        forall|i: int| 0 <= i < emitted.len() ==> !(#[trigger] emitted[i]),
    ensures
        count_of(n, |i: int| emitted[i]) == 0,
    decreases n,
{
    if n > 0 {
        lemma_no_marks(emitted, (n - 1) as nat);
        assert(!emitted[n - 1]);
    }
}

fn no_marks(n: usize) -> (v: Vec<bool>)
    ensures
        v.len() == n,
        forall|i: int| 0 <= i < n ==> !(#[trigger] v@[i]),
{
    let mut v: Vec<bool> = Vec::new();
    while v.len() < n
        invariant
            v.len() <= n,
            forall|i: int| 0 <= i < v.len() ==> !(#[trigger] v@[i]),
        decreases n - v.len(),
    {
        v.push(false);
    }
    v
}

// ---- Law of the collection ----

/// A collection hands on the trials that are due and no others, each with its own number, in the
/// order of their numbers.
pub proof fn law_rows_due(
    host: HostTrials,
    device_id: usize,
    case: Case,
    emitted: Seq<bool>,
    emit_all: bool,
    n: nat,
)
    requires
        n <= u64::MAX,
    ensures
        ({
            let rows = rows_due(host, device_id, case, emitted, emit_all, n);
            &&& forall|i: int|
                0 <= i < rows.len() ==> (#[trigger] rows[i]).trial_id < n && due(
                    emitted,
                    host.statuses@,
                    emit_all,
                    rows[i].trial_id as int,
                ) && rows[i] == host.result_at(device_id, case, rows[i].trial_id as int)
            &&& forall|i: int, j: int|
                0 <= i < j < rows.len() ==> (#[trigger] rows[i]).trial_id < (
                #[trigger] rows[j]).trial_id
            &&& forall|t: int|
                0 <= t < n && #[trigger] due(emitted, host.statuses@, emit_all, t)
                    ==> rows.contains(host.result_at(device_id, case, t))
        }),
    decreases n,
{
    if n > 0 {
        law_rows_due(host, device_id, case, emitted, emit_all, (n - 1) as nat);
        let front = rows_due(host, device_id, case, emitted, emit_all, (n - 1) as nat);
        let rows = rows_due(host, device_id, case, emitted, emit_all, n);
        assert forall|t: int|
            0 <= t < n && #[trigger] due(emitted, host.statuses@, emit_all, t) implies rows.contains(
            host.result_at(device_id, case, t),
        ) by {
            if t < n - 1 {
                assert(front.contains(host.result_at(device_id, case, t)));
                let at = choose|at: int|
                    0 <= at < front.len() && front[at] == host.result_at(device_id, case, t);
                assert(rows[at] == host.result_at(device_id, case, t));
            } else {
                assert(rows[rows.len() - 1] == host.result_at(device_id, case, t));
            }
        }
    }
}

} // verus!
