//! The configuration of a run and its expansion into cases.
//!
//! The swept parameters (gamma, delta, f, m) are given as lists; every combination of their
//! values is one case.

use vstd::prelude::*;
use vstd::string::*;
use crate::double::Double;
use crate::formula::{
    cbrt_of, gives, int_of, lit, minus, nearest_of, num, over, times, Arithmetic, Calc, QUARTER,
    TWO,
};
use crate::model::{diffusion_for_length, diffusion_for_length_gives, Diffusion};
use crate::text;

verus! {

/// How often a state outside the channel is mirrored before it is taken as it is.
pub const BOUNDARY_REFLECTION_LIMIT: usize = 32;

/// Wall points looked at on each side of the nearest one.
pub const WALL_K: i32 = 5;

/// The bits of the period of the channel, 1.
pub const L_PERIOD: u64 = 0x3ff0_0000_0000_0000;

/// The bits of the largest repulsion of one wall point, 25000.
pub const MAX_WALL_REPULSION_FORCE: u64 = 0x40d8_6a00_0000_0000;

/// The bits of the phase of the neck of the channel, 0.8096408373123332.
pub const CHANNEL_NECK_PHASE: u64 = 0x3fe9_e893_e6b8_66a0;

/// The bits of the upper end of the y histogram, 2.3; the lower end is its negative.
pub const HIST_Y_MAX: u64 = 0x4002_6666_6666_6666;

/// Bins of the histograms along one period of the channel.
pub const HIST_X_BINS: usize = 100;

/// Bins of the angle histogram.
pub const HIST_PHI_BINS: usize = 36;

/// Bins of the y histogram.
pub const HIST_Y_BINS: usize = 64;

/// Steps between two histogram votes when the configuration names none.
pub fn default_hist_stride() -> (stride: u32)
    ensures
        stride == 100,
{
    100
}

/// How a trial ends and how mobility and effective diffusion are measured.
#[derive(Clone, Copy, Debug, PartialEq, Eq, Structural)]
pub enum Mode {
    /// A trial ends with its first passage of one period.
    FirstPassage,
    /// Every trial runs for the whole time; displacements are measured.
    FixedTime,
}

impl Default for Mode {
    fn default() -> (mode: Mode)
        ensures
            mode == Mode::FixedTime,
    {
        Mode::FixedTime
    }
}

impl Mode {
    /// The name of the mode in configurations and summaries.
    pub open spec fn name_text(self) -> Seq<char> {
        match self {
            Mode::FirstPassage => "first_passage"@,
            Mode::FixedTime => "fixed_time"@,
        }
    }

    /// The name of the mode in configurations and summaries.
    pub fn name(self) -> (name: &'static str)
        ensures
            name@ == self.name_text(),
    {
        match self {
            Mode::FirstPassage => "first_passage",
            Mode::FixedTime => "fixed_time",
        }
    }

    /// The mode with a name; no other text names one.
    pub fn from_name(name: &str) -> (mode: Option<Mode>)
        ensures
            match mode {
                Some(m) => name@ == m.name_text(),
                None => name@ != Mode::FirstPassage.name_text() && name@
                    != Mode::FixedTime.name_text(),
            },
    {
        let first = "first_passage".to_owned();
        let fixed = "fixed_time".to_owned();
        let given = name.to_owned();
        if given == first {
            Some(Mode::FirstPassage)
        } else if given == fixed {
            Some(Mode::FixedTime)
        } else {
            None
        }
    }
}

/// A mode is found under its own name.
pub proof fn law_mode_names(a: Mode, b: Mode)
    ensures
        a.name_text() == b.name_text() <==> a == b,
{
    reveal_strlit("first_passage");
    reveal_strlit("fixed_time");
    assert("first_passage"@.len() != "fixed_time"@.len());
}

/// Settings of the GPU backend.
#[derive(Clone, Debug)]
pub struct GpuConfig {
    /// The devices to use; all of them when absent.
    pub ids: Option<Vec<usize>>,
}

impl Default for GpuConfig {
    fn default() -> (gpu: GpuConfig)
        ensures
            gpu.ids is None,
    {
        GpuConfig { ids: None }
    }
}

/// The values of a configuration file.
#[derive(Clone, Debug)]
pub struct Config {
    /// Time step.
    pub delta_t: Double,
    /// Simulated time of one trial.
    pub time: Double,
    pub mode: Mode,
    /// Trials per case.
    pub ensemble_size: usize,
    /// Directory that receives the results of all cases.
    pub output_dir: String,
    pub sigma: Double,
    pub epsilon: Double,
    pub gamma: Vec<Double>,
    pub delta: Vec<Double>,
    pub f: Vec<Double>,
    /// Representative points on one side of the rod.
    pub m: Vec<i32>,
    /// Steps between two histogram votes; 0 switches the histograms off.
    pub hist_stride: u32,
    pub gpu: GpuConfig,
}

/// The constants that all cases of a configuration share.
#[derive(Clone, Copy, Debug)]
pub struct Physics {
    pub delta_t: Double,
    pub mode: Mode,
    /// Steps after which a trial ends.
    pub max_steps: u64,
    pub sigma: Double,
    pub epsilon: Double,
    /// Distance of two wall points.
    pub wall_dx: Double,
    /// Distance of two representative points.
    pub particle_dx: Double,
    /// Wall points in one period.
    pub n_wall: usize,
    /// Rod length that fixes the time scale of all rods.
    pub diffusion_reference_length: Double,
}

/// The parameters of one simulation.
#[derive(Clone, Copy, Debug)]
pub struct Case {
    /// Position in the expansion, from 0.
    pub case_id: u32,
    /// Representative points on one side of the rod.
    pub m: i32,
    /// Rod length.
    pub l: Double,
    pub gamma: Double,
    pub delta: Double,
    pub f: Double,
}

/// What follows from sigma and the times of a configuration.
#[derive(Clone, Copy, Debug)]
pub struct Geometry {
    pub wall_dx: Double,
    pub particle_dx: Double,
    pub diffusion_reference_length: Double,
    /// The period divided by the distance of two wall points.
    pub n_wall_exact: Double,
    /// The same, rounded to an integer.
    pub n_wall_rounded: Double,
    /// The rounded number as an integer; 0 stands for what is below the range or no number, and
    /// the largest integer for what is above it.
    pub n_wall: u64,
    /// How far the two are apart.
    pub deviation: Double,
    /// How far they may be apart.
    pub tolerance: Double,
    /// The time divided by the time step, rounded to an integer.
    pub max_steps: u64,
}

// ---- Derived constants ----

/// The bits of 4/5.
pub const FOUR_FIFTHS: u64 = 0x3fe9_9999_9999_999a;

/// The bits of 6.
pub const SIX: u64 = 0x4018_0000_0000_0000;

/// The bits of 1e-6.
pub const MILLIONTH: u64 = 0x3eb0_c6f7_a0b5_ed8d;

/// Whether a geometry is the one that follows from sigma and the times: wall points at a quarter of
/// sigma, representative points at four fifths, and a reference rod of six of these.
pub open spec fn geometry_gives<K: Arithmetic>(
    k: &K,
    sigma: Double,
    delta_t: Double,
    time: Double,
    g: Geometry,
) -> bool {
    &&& gives(k, times(lit(QUARTER), num(sigma)), g.wall_dx)
    &&& gives(k, times(lit(FOUR_FIFTHS), num(sigma)), g.particle_dx)
    &&& gives(k, times(lit(SIX), num(g.particle_dx)), g.diffusion_reference_length)
    &&& gives(k, over(lit(L_PERIOD), num(g.wall_dx)), g.n_wall_exact)
    &&& gives(k, nearest_of(num(g.n_wall_exact)), g.n_wall_rounded)
    &&& call_ensures(K::to_unsigned, (k, g.n_wall_rounded), g.n_wall)
    &&& exists|d: Double| #[trigger]
        gives(k, minus(num(g.n_wall_exact), num(g.n_wall_rounded)), d) && g.deviation
            == d.absolute()
    &&& gives(k, times(lit(MILLIONTH), num(g.n_wall_rounded)), g.tolerance)
    &&& exists|steps: Double| #[trigger]
        gives(k, nearest_of(over(num(time), num(delta_t))), steps) && call_ensures(
            K::to_unsigned,
            (k, steps),
            g.max_steps,
        )
}

/// The geometry that follows from sigma and the times.
pub fn geometry<K: Arithmetic>(k: &K, sigma: Double, delta_t: Double, time: Double) -> (g: Geometry)
    ensures
        geometry_gives(k, sigma, delta_t, time, g),
{
    let c = Calc::new(k);
    let wall_dx = c.times(c.lit(QUARTER), c.num(sigma)).value;
    let particle_dx = c.times(c.lit(FOUR_FIFTHS), c.num(sigma)).value;
    let diffusion_reference_length = c.times(c.lit(SIX), c.num(particle_dx)).value;
    let n_wall_exact = c.over(c.lit(L_PERIOD), c.num(wall_dx)).value;
    let n_wall_rounded = c.nearest_of(c.num(n_wall_exact)).value;
    let n_wall: u64 = k.to_unsigned(n_wall_rounded);
    let d = c.minus(c.num(n_wall_exact), c.num(n_wall_rounded)).value;
    assert(gives(k, minus(num(n_wall_exact), num(n_wall_rounded)), d));
    let tolerance = c.times(c.lit(MILLIONTH), c.num(n_wall_rounded)).value;
    let steps = c.nearest_of(c.over(c.num(time), c.num(delta_t))).value;
    assert(gives(k, nearest_of(over(num(time), num(delta_t))), steps));
    let max_steps: u64 = k.to_unsigned(steps);
    Geometry {
        wall_dx,
        particle_dx,
        diffusion_reference_length,
        n_wall_exact,
        n_wall_rounded,
        n_wall,
        deviation: d.abs(),
        tolerance,
        max_steps,
    }
}

/// Whether `l` is the length of a rod with `m` representative points on each side.
pub open spec fn particle_length_gives<K: Arithmetic>(
    k: &K,
    particle_dx: Double,
    m: i32,
    l: Double,
) -> bool {
    gives(k, times(times(lit(TWO), int_of(m as i64)), num(particle_dx)), l)
}

/// The length of a rod with `m` representative points on each side.
pub fn particle_length<K: Arithmetic>(k: &K, particle_dx: Double, m: i32) -> (l: Double)
    ensures
        particle_length_gives(k, particle_dx, m, l),
{
    let c = Calc::new(k);
    c.times(c.times(c.lit(TWO), c.int_of(m as i64)), c.num(particle_dx)).value
}

/// Whether `rc2` is the square of the distance at which the repulsion of a wall point ends, the
/// cube root of 2 times the square of sigma.
pub open spec fn rc2_gives<K: Arithmetic>(k: &K, sigma: Double, rc2: Double) -> bool {
    gives(k, times(times(cbrt_of(lit(TWO)), num(sigma)), num(sigma)), rc2)
}

impl Physics {
    /// The square of the distance at which the repulsion of a wall point ends.
    pub fn rc2<K: Arithmetic>(&self, k: &K) -> (rc2: Double)
        ensures
            rc2_gives(k, self.sigma, rc2),
    {
        let c = Calc::new(k);
        c.times(c.times(c.cbrt_of(c.lit(TWO)), c.num(self.sigma)), c.num(self.sigma)).value
    }

    /// The length of a rod with `m` representative points on each side.
    pub fn particle_length<K: Arithmetic>(&self, k: &K, m: i32) -> (l: Double)
        ensures
            particle_length_gives(k, self.particle_dx, m, l),
    {
        particle_length(k, self.particle_dx, m)
    }
}

// ---- Errors ----

/// The lists of a configuration that hold real parameters.
#[derive(Clone, Copy, Debug, PartialEq, Eq, Structural)]
pub enum ListName {
    Gamma,
    Delta,
    F,
}

/// Why a configuration is refused.
#[derive(Clone, Debug)]
pub enum ConfigError {
    DeltaT,
    Time,
    TooFewSteps,
    EnsembleSize,
    Sigma,
    Epsilon,
    EmptyList(ListName),
    NotFinite(ListName),
    EmptyM,
    NonPositiveM(i32),
    /// The period is no whole multiple of the wall point distance.
    WallNotDivisible(Double),
    /// There are too few or too many wall points.
    WallCount(Double),
    /// A diffusion coefficient is not positive.
    DiffusionOutOfRange { m: i32, l: Double },
    /// Two cases would write into one directory.
    DuplicateDirectory(String),
}

impl ListName {
    /// The name of the list in the configuration file.
    pub open spec fn name_text(self) -> Seq<char> {
        match self {
            ListName::Gamma => "gamma"@,
            ListName::Delta => "delta"@,
            ListName::F => "f"@,
        }
    }

    /// The name of the list in the configuration file.
    pub fn name(self) -> (name: &'static str)
        ensures
            name@ == self.name_text(),
    {
        match self {
            ListName::Gamma => "gamma",
            ListName::Delta => "delta",
            ListName::F => "f",
        }
    }
}

impl ConfigError {
    /// The real number that the message of the error shows: in its shortest form, or with six
    /// decimals where it is a rod length.
    pub open spec fn shown(self) -> Option<Double> {
        match self {
            ConfigError::WallNotDivisible(x) => Some(x),
            ConfigError::WallCount(x) => Some(x),
            ConfigError::DiffusionOutOfRange { m, l } => Some(l),
            _ => None,
        }
    }

    /// The message, with `number` as the text of the number that it shows.
    pub open spec fn message_text(self, number: Seq<char>) -> Seq<char> {
        match self {
            ConfigError::DeltaT => "delta_t は正の値にしてください"@,
            ConfigError::Time => "time は正の値にしてください"@,
            ConfigError::TooFewSteps => "time / delta_t が1ステップに満たない設定です"@,
            ConfigError::EnsembleSize => "ensemble_size は 1 以上 2147483647 以下にしてください"@,
            ConfigError::Sigma => "sigma は正の値にしてください"@,
            ConfigError::Epsilon => "epsilon は正の値にしてください"@,
            ConfigError::EmptyList(list) => list.name_text()
                + " には1つ以上の値を指定してください"@,
            ConfigError::NotFinite(list) => list.name_text()
                + " に有限でない値が含まれています"@,
            ConfigError::EmptyM => "m には1つ以上の値を指定してください"@,
            ConfigError::NonPositiveM(m) => "m は1以上にしてください（"@ + text::signed_numeral(
                m as int,
            ) + " が指定されました）"@,
            ConfigError::WallNotDivisible(_) =>
                "1周期が壁点間隔 0.25σ で割り切れません（L / 0.25σ = "@ + number
                + "）。sigma には 1 / (0.25σ) が整数になる値を指定してください"@,
            ConfigError::WallCount(_) => "壁点数 "@ + number
                + " が近傍探索窓（11 点）に対して少なすぎるか多すぎます"@,
            ConfigError::DiffusionOutOfRange { m, l: _ } => "m = "@ + text::signed_numeral(
                m as int,
            ) + "（棒長 l = "@ + number
                + "）は拡散係数の式（Tirado）の適用範囲外です。sigma または m を見直してください"@,
            ConfigError::DuplicateDirectory(name) => "ケースの出力フォルダ名 "@ + name@
                + " が重複します。パラメータ値の差が小さすぎて 小数点以下6桁の表記で区別できません"@,
        }
    }

    /// The real number that the message shows.
    pub fn shown_number(&self) -> (number: Option<Double>)
        ensures
            number == self.shown(),
    {
        match self {
            ConfigError::WallNotDivisible(x) => Some(*x),
            ConfigError::WallCount(x) => Some(*x),
            ConfigError::DiffusionOutOfRange { m: _, l } => Some(*l),
            _ => None,
        }
    }

    /// The message, with `number` as the text of the number that it shows.
    pub fn message(&self, number: &str) -> (message: String)
        ensures
            message@ == self.message_text(number@),
    {
        match self {
            ConfigError::DeltaT => "delta_t は正の値にしてください".to_owned(),
            ConfigError::Time => "time は正の値にしてください".to_owned(),
            ConfigError::TooFewSteps => {
                "time / delta_t が1ステップに満たない設定です".to_owned()
            },
            ConfigError::EnsembleSize => {
                "ensemble_size は 1 以上 2147483647 以下にしてください".to_owned()
            },
            ConfigError::Sigma => "sigma は正の値にしてください".to_owned(),
            ConfigError::Epsilon => "epsilon は正の値にしてください".to_owned(),
            ConfigError::EmptyList(list) => {
                let mut message = list.name().to_owned();
                message.append(" には1つ以上の値を指定してください");
                message
            },
            ConfigError::NotFinite(list) => {
                let mut message = list.name().to_owned();
                message.append(" に有限でない値が含まれています");
                message
            },
            ConfigError::EmptyM => "m には1つ以上の値を指定してください".to_owned(),
            ConfigError::NonPositiveM(m) => {
                let mut message = "m は1以上にしてください（".to_owned();
                message.append(text::signed_decimal(*m as i64).as_str());
                message.append(" が指定されました）");
                message
            },
            ConfigError::WallNotDivisible(_) => {
                let mut message =
                    "1周期が壁点間隔 0.25σ で割り切れません（L / 0.25σ = ".to_owned();
                message.append(number);
                message.append(
                    "）。sigma には 1 / (0.25σ) が整数になる値を指定してください",
                );
                message
            },
            ConfigError::WallCount(_) => {
                let mut message = "壁点数 ".to_owned();
                message.append(number);
                message.append(" が近傍探索窓（11 点）に対して少なすぎるか多すぎます");
                message
            },
            ConfigError::DiffusionOutOfRange { m, l: _ } => {
                let mut message = "m = ".to_owned();
                message.append(text::signed_decimal(*m as i64).as_str());
                message.append("（棒長 l = ");
                message.append(number);
                message.append(
                    "）は拡散係数の式（Tirado）の適用範囲外です。sigma または m を見直してください",
                );
                message
            },
            ConfigError::DuplicateDirectory(name) => {
                let mut message = "ケースの出力フォルダ名 ".to_owned();
                message.append(name.as_str());
                message.append(
                    " が重複します。パラメータ値の差が小さすぎて 小数点以下6桁の表記で区別できません",
                );
                message
            },
        }
    }
}

// ---- Validation ----

/// Whether all numbers of a list are finite.
pub open spec fn all_finite(list: Seq<Double>) -> bool {
    forall|i: int| 0 <= i < list.len() ==> (#[trigger] list[i]).finite()
}

/// Why a list of real parameters is refused: it must hold a value, and only finite ones.
pub open spec fn list_error(name: ListName, list: Seq<Double>) -> Option<ConfigError> {
    if list.len() == 0 {
        Some(ConfigError::EmptyList(name))
    } else if !all_finite(list) {
        Some(ConfigError::NotFinite(name))
    } else {
        None
    }
}

/// The first number of the list that is below one.
pub open spec fn first_below_one(list: Seq<i32>) -> Option<i32>
    decreases list.len(),
{
    if list.len() == 0 {
        None
    } else if list[0] < 1 {
        Some(list[0])
    } else {
        first_below_one(list.skip(1))
    }
}

fn all_finite_exec(list: &Vec<Double>) -> (b: bool)
    ensures
        b == all_finite(list@),
{
    let mut i: usize = 0;
    while i < list.len()
        invariant
            i <= list.len(),
            forall|j: int| 0 <= j < i ==> (#[trigger] list@[j]).finite(),
        decreases list.len() - i,
    {
        if !list[i].is_finite() {
            assert(!list@[i as int].finite());
            return false;
        }
        i = i + 1;
    }
    true
}

fn check_list(name: ListName, list: &Vec<Double>) -> (r: Option<ConfigError>)
    ensures
        r == list_error(name, list@),
{
    if list.len() == 0 {
        Some(ConfigError::EmptyList(name))
    } else if !all_finite_exec(list) {
        Some(ConfigError::NotFinite(name))
    } else {
        None
    }
}

fn find_below_one(list: &Vec<i32>) -> (r: Option<i32>)
    ensures
        r == first_below_one(list@),
{
    let mut i: usize = 0;
    assert(list@.skip(0) =~= list@);
    while i < list.len()
        invariant
            i <= list.len(),
            first_below_one(list@.skip(i as int)) == first_below_one(list@),
        decreases list.len() - i,
    {
        assert(list@.skip(i as int)[0] == list@[i as int]);
        if list[i] < 1 {
            return Some(list[i]);
        }
        assert(list@.skip(i as int).skip(1) =~= list@.skip(i + 1));
        i = i + 1;
    }
    None
}

impl Diffusion {
    /// Whether all three coefficients are positive.
    pub open spec fn positive(self) -> bool {
        &&& Double::zero().below(self.d_parallel)
        &&& Double::zero().below(self.d_perp)
        &&& Double::zero().below(self.d_r)
    }

    /// Whether all three coefficients are positive.
    pub fn is_positive(&self) -> (b: bool)
        ensures
            b == self.positive(),
    {
        Double::zero().lt(self.d_parallel) && Double::zero().lt(self.d_perp) && Double::zero().lt(
            self.d_r,
        )
    }
}

/// The lengths and coefficients that an implementation gave for the first rods of a list.
pub open spec fn rods_measured<K: Arithmetic>(
    k: &K,
    physics: Physics,
    ms: Seq<i32>,
    lengths: Seq<Double>,
    coefficients: Seq<Diffusion>,
) -> bool {
    &&& lengths.len() == coefficients.len() <= ms.len()
    &&& forall|i: int|
        0 <= i < lengths.len() ==> {
            &&& particle_length_gives(k, physics.particle_dx, ms[i], #[trigger] lengths[i])
            &&& diffusion_for_length_gives(
                k,
                lengths[i],
                physics.diffusion_reference_length,
                coefficients[i],
            )
        }
}

/// What the diffusion coefficients of the rods say of a configuration: it passes when those of
/// every rod are positive, and is refused for the first rod of which they are not.
pub open spec fn diffusion_verdict<K: Arithmetic>(
    k: &K,
    physics: Physics,
    ms: Seq<i32>,
    verdict: Result<(), ConfigError>,
) -> bool {
    exists|lengths: Seq<Double>, coefficients: Seq<Diffusion>|
        {
            &&& #[trigger] rods_measured(k, physics, ms, lengths, coefficients)
            &&& match verdict {
                Ok(_) => {
                    &&& coefficients.len() == ms.len()
                    &&& forall|i: int|
                        0 <= i < coefficients.len() ==> (#[trigger] coefficients[i]).positive()
                },
                Err(e) => {
                    &&& coefficients.len() > 0
                    &&& forall|i: int|
                        0 <= i < coefficients.len() - 1 ==> (
                        #[trigger] coefficients[i]).positive()
                    &&& !coefficients.last().positive()
                    &&& e == ConfigError::DiffusionOutOfRange {
                        m: ms[coefficients.len() - 1],
                        l: lengths.last(),
                    }
                },
            }
        }
}

impl Config {
    /// Why the plain values of the configuration are refused, in the order of the checks.
    pub open spec fn range_error(self) -> Option<ConfigError> {
        if !self.delta_t.positive_finite() {
            Some(ConfigError::DeltaT)
        } else if !self.time.positive_finite() {
            Some(ConfigError::Time)
        } else if self.time.below(self.delta_t) {
            Some(ConfigError::TooFewSteps)
        } else if !(1 <= self.ensemble_size <= i32::MAX) {
            Some(ConfigError::EnsembleSize)
        } else if !self.sigma.positive_finite() {
            Some(ConfigError::Sigma)
        } else if !self.epsilon.positive_finite() {
            Some(ConfigError::Epsilon)
        } else if list_error(ListName::Gamma, self.gamma@) is Some {
            list_error(ListName::Gamma, self.gamma@)
        } else if list_error(ListName::Delta, self.delta@) is Some {
            list_error(ListName::Delta, self.delta@)
        } else if list_error(ListName::F, self.f@) is Some {
            list_error(ListName::F, self.f@)
        } else if self.m.len() == 0 {
            Some(ConfigError::EmptyM)
        } else {
            match first_below_one(self.m@) {
                Some(m) => Some(ConfigError::NonPositiveM(m)),
                None => None,
            }
        }
    }

    /// The shared constants that follow from the configuration and a derived geometry: the period
    /// must hold a whole number of wall points, enough for the search window and few enough for
    /// the kernels.
    pub open spec fn derived_physics(self, g: Geometry) -> Result<Physics, ConfigError> {
        if !g.deviation.at_most(g.tolerance) {
            Err(ConfigError::WallNotDivisible(g.n_wall_exact))
        } else if !(2 * WALL_K + 1 <= g.n_wall <= i32::MAX) {
            Err(ConfigError::WallCount(g.n_wall_rounded))
        } else {
            Ok(
                Physics {
                    delta_t: self.delta_t,
                    mode: self.mode,
                    max_steps: g.max_steps,
                    sigma: self.sigma,
                    epsilon: self.epsilon,
                    wall_dx: g.wall_dx,
                    particle_dx: g.particle_dx,
                    n_wall: g.n_wall as usize,
                    diffusion_reference_length: g.diffusion_reference_length,
                },
            )
        }
    }

    /// Whether an implementation gave `g` as the geometry of this configuration.
    pub open spec fn geometry_given<K: Arithmetic>(self, k: &K, g: Geometry) -> bool {
        geometry_gives(k, self.sigma, self.delta_t, self.time, g)
    }

    /// Checks the plain values. A quotient of positive numbers that is rounded to the nearest one
    /// reaches 1 exactly when the dividend reaches the divisor, so the time is held against the
    /// time step itself.
    pub fn check_ranges(&self) -> (r: Result<(), ConfigError>)
        ensures
            match self.range_error() {
                Some(e) => r == Err::<(), ConfigError>(e),
                None => r is Ok,
            },
    {
        if !self.delta_t.is_positive_finite() {
            return Err(ConfigError::DeltaT);
        }
        if !self.time.is_positive_finite() {
            return Err(ConfigError::Time);
        }
        if self.time.lt(self.delta_t) {
            return Err(ConfigError::TooFewSteps);
        }
        if self.ensemble_size < 1 || self.ensemble_size > 0x7fff_ffff {
            return Err(ConfigError::EnsembleSize);
        }
        if !self.sigma.is_positive_finite() {
            return Err(ConfigError::Sigma);
        }
        if !self.epsilon.is_positive_finite() {
            return Err(ConfigError::Epsilon);
        }
        if let Some(e) = check_list(ListName::Gamma, &self.gamma) {
            return Err(e);
        }
        if let Some(e) = check_list(ListName::Delta, &self.delta) {
            return Err(e);
        }
        if let Some(e) = check_list(ListName::F, &self.f) {
            return Err(e);
        }
        if self.m.len() == 0 {
            return Err(ConfigError::EmptyM);
        }
        if let Some(m) = find_below_one(&self.m) {
            return Err(ConfigError::NonPositiveM(m));
        }
        Ok(())
    }

    /// The shared constants for a derived geometry.
    pub fn physics_from(&self, g: Geometry) -> (r: Result<Physics, ConfigError>)
        ensures
            r == self.derived_physics(g),
    {
        if !g.deviation.le(g.tolerance) {
            return Err(ConfigError::WallNotDivisible(g.n_wall_exact));
        }
        if g.n_wall < 11 || g.n_wall > 0x7fff_ffff {
            return Err(ConfigError::WallCount(g.n_wall_rounded));
        }
        Ok(
            Physics {
                delta_t: self.delta_t,
                mode: self.mode,
                max_steps: g.max_steps,
                sigma: self.sigma,
                epsilon: self.epsilon,
                wall_dx: g.wall_dx,
                particle_dx: g.particle_dx,
                n_wall: g.n_wall as usize,
                diffusion_reference_length: g.diffusion_reference_length,
            },
        )
    }

    /// Derives the constants that all cases share.
    pub fn physics<K: Arithmetic>(&self, k: &K) -> (r: Result<Physics, ConfigError>)
        ensures
            exists|g: Geometry| #[trigger]
                self.geometry_given(k, g) && r == self.derived_physics(g),
    {
        let g = geometry(k, self.sigma, self.delta_t, self.time);
        assert(self.geometry_given(k, g));
        self.physics_from(g)
    }

    /// Checks the values of the configuration, and that the geometry and the diffusion
    /// coefficients which follow from them are sound.
    pub fn validate<K: Arithmetic>(&self, k: &K) -> (r: Result<(), ConfigError>)
        ensures
            match self.range_error() {
                Some(e) => r == Err::<(), ConfigError>(e),
                None => exists|g: Geometry| #[trigger]
                    self.geometry_given(k, g) && match self.derived_physics(g) {
                        Err(e) => r == Err::<(), ConfigError>(e),
                        Ok(physics) => diffusion_verdict(k, physics, self.m@, r),
                    },
            },
    {
        match self.check_ranges() {
            Err(e) => return Err(e),
            Ok(_) => {},
        }
        let g = geometry(k, self.sigma, self.delta_t, self.time);
        assert(self.geometry_given(k, g));
        let physics = match self.physics_from(g) {
            Err(e) => return Err(e),
            Ok(physics) => physics,
        };
        let ghost mut lengths: Seq<Double> = Seq::empty();
        let ghost mut coefficients: Seq<Diffusion> = Seq::empty();
        let mut i: usize = 0;
        while i < self.m.len()
            invariant
                i <= self.m.len(),
                lengths.len() == i,
                rods_measured(k, physics, self.m@, lengths, coefficients),
                forall|j: int| 0 <= j < i ==> (#[trigger] coefficients[j]).positive(),
                self.range_error() is None,
                self.geometry_given(k, g),
                self.derived_physics(g) == Ok::<Physics, ConfigError>(physics),
            decreases self.m.len() - i,
        {
            let m: i32 = self.m[i];
            let l = particle_length(k, physics.particle_dx, m);
            let diffusion = diffusion_for_length(k, l, physics.diffusion_reference_length);
            proof {
                lengths = lengths.push(l);
                coefficients = coefficients.push(diffusion);
                assert(rods_measured(k, physics, self.m@, lengths, coefficients));
            }
            if !diffusion.is_positive() {
                return Err(ConfigError::DiffusionOutOfRange { m, l });
            }
            i = i + 1;
        }
        Ok(())
    }
}

} // verus!
