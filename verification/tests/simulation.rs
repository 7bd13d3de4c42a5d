//! The course of a rod, its trials and its cases.

use nanorod::case_run::{
    finish_case, run_case, sort_by_id, trial_seed, CaseAccumulator, CpuCaseResult,
};
use nanorod::channel::omega;
use nanorod::config::{Case, Mode, Physics, MAX_WALL_REPULSION_FORCE};
use nanorod::double::Double;
use nanorod::formula::Arithmetic;
use nanorod::histogram::Histograms;
use nanorod::model::{
    Summary, TrialResult, PASS_DIRECTION_LEFT, PASS_DIRECTION_NONE, PASS_DIRECTION_RIGHT,
    STATUS_MAX_STEPS, STATUS_OK,
};
use nanorod::simulation::{
    add_wca_force, capped_wall_force, nearest_wall, noise_scale, round_to_i64, RodPoint,
    VisualParams, VisualSimulation, WallForce,
};
use nanorod::trial::run_trial;

/// The operations of the machine.
struct Machine;

fn d(x: f64) -> Double {
    Double::from_bits(x.to_bits())
}

fn f(x: Double) -> f64 {
    f64::from_bits(x.to_bits())
}

impl Arithmetic for Machine {
    fn sum(&self, a: Double, b: Double) -> Double {
        d(f(a) + f(b))
    }

    fn difference(&self, a: Double, b: Double) -> Double {
        d(f(a) - f(b))
    }

    fn product(&self, a: Double, b: Double) -> Double {
        d(f(a) * f(b))
    }

    fn quotient(&self, a: Double, b: Double) -> Double {
        d(f(a) / f(b))
    }

    fn remainder(&self, a: Double, b: Double) -> Double {
        d(f(a).rem_euclid(f(b)))
    }

    fn square_root(&self, a: Double) -> Double {
        d(f(a).sqrt())
    }

    fn cube_root(&self, a: Double) -> Double {
        d(f(a).cbrt())
    }

    fn sine(&self, a: Double) -> Double {
        d(f(a).sin())
    }

    fn cosine(&self, a: Double) -> Double {
        d(f(a).cos())
    }

    fn arctangent(&self, a: Double) -> Double {
        d(f(a).atan())
    }

    fn logarithm(&self, a: Double) -> Double {
        d(f(a).ln())
    }

    fn exponential(&self, a: Double) -> Double {
        d(f(a).exp())
    }

    fn floor(&self, a: Double) -> Double {
        d(f(a).floor())
    }

    fn nearest(&self, a: Double) -> Double {
        d(f(a).round())
    }

    fn of_signed(&self, n: i64) -> Double {
        d(n as f64)
    }

    fn of_unsigned(&self, n: u64) -> Double {
        d(n as f64)
    }

    fn to_signed(&self, a: Double) -> i64 {
        f(a) as i64
    }

    fn to_unsigned(&self, a: Double) -> u64 {
        f(a) as u64
    }

    fn parse(&self, text: &str) -> Option<Double> {
        match text.parse::<f64>() {
            Ok(x) => Some(d(x)),
            Err(_) => None,
        }
    }

    fn six_decimals(&self, a: Double) -> String {
        format!("{:.6}", f(a))
    }
}

fn test_physics() -> Physics {
    Physics {
        delta_t: d(4.0e-7),
        mode: Mode::FirstPassage,
        max_steps: 250_000_000,
        sigma: d(8.0e-3),
        epsilon: d(2.0),
        wall_dx: d(0.25 * 8.0e-3),
        particle_dx: d(0.8 * 8.0e-3),
        n_wall: 500,
        diffusion_reference_length: d(6.0 * 0.8 * 8.0e-3),
    }
}

fn test_params() -> VisualParams {
    VisualParams { seed: 1, m: 8, f: d(0.0), gamma: d(0.0), delta: d(0.0) }
}

#[test]
fn simulation_visual_simulation_advances_with_finite_state() {
    let mut sim = VisualSimulation::new(&Machine, test_params(), test_physics());
    sim.step_many(&Machine, 128);

    assert!(f(sim.x).is_finite());
    assert!(f(sim.y).is_finite());
    assert!(f(sim.phi).is_finite());
    assert_eq!(sim.steps, 128);
}

#[test]
fn simulation_visual_simulation_stays_bounded_during_short_animation_run() {
    let mut sim = VisualSimulation::new(&Machine, test_params(), test_physics());
    sim.step_many(&Machine, 50_000);

    assert!(f(sim.x).is_finite());
    assert!(f(sim.y).is_finite());
    assert!(f(sim.phi).is_finite());
    assert!(f(sim.x).abs() < 10.0);
    assert!(f(sim.y).abs() < 10.0);
}

#[test]
fn visual_simulation_reflects_high_force_state_inside_channel() {
    let mut sim = VisualSimulation::new(
        &Machine,
        VisualParams { m: 20, f: d(100.0), ..test_params() },
        test_physics(),
    );

    for _ in 0..70_000 {
        sim.step(&Machine);
        assert!(f(sim.y).abs() <= f(omega(&Machine, sim.x)) + 1.0e-9);
    }
}

#[test]
fn visual_simulation_records_right_first_passage() {
    let mut sim = VisualSimulation::new(&Machine, test_params(), test_physics());
    sim.x = d(f(sim.target_right_x) + 0.01);
    sim.step_many(&Machine, 1);

    assert!(sim.first_passed);
    assert_eq!(sim.pass_direction, PASS_DIRECTION_RIGHT);
    assert!(!sim.completed);
    assert_eq!(sim.steps, 1);
}

#[test]
fn visual_simulation_records_left_first_passage() {
    let mut sim = VisualSimulation::new(&Machine, test_params(), test_physics());
    sim.x = d(f(sim.target_left_x) - 0.01);
    sim.step_many(&Machine, 1);

    assert!(sim.first_passed);
    assert_eq!(sim.pass_direction, PASS_DIRECTION_LEFT);
    assert!(!sim.completed);
    assert_eq!(sim.steps, 1);
}

#[test]
fn a_later_passage_does_not_change_the_first() {
    let mut sim = VisualSimulation::new(&Machine, test_params(), test_physics());
    sim.x = d(f(sim.target_right_x) + 0.01);
    sim.step_many(&Machine, 1);
    sim.x = d(f(sim.target_left_x) - 0.01);
    sim.step_many(&Machine, 1);
    assert_eq!(sim.pass_direction, PASS_DIRECTION_RIGHT);
}

#[test]
fn forces_change_nothing_of_a_recorded_passage() {
    let mut sim = VisualSimulation::new(&Machine, test_params(), test_physics());
    for i in 0..20 {
        sim.apply_force_params(d(i as f64), d(1.0), d(0.5));
        sim.step(&Machine);
        assert!(!sim.first_passed);
        assert_eq!(sim.pass_direction, PASS_DIRECTION_NONE);
    }
    sim.x = d(f(sim.target_left_x) - 0.01);
    sim.apply_force_params(d(0.0), d(0.0), d(0.0));
    assert!(!sim.first_passed);
    sim.step(&Machine);
    assert!(sim.first_passed);
    assert_eq!(sim.pass_direction, PASS_DIRECTION_LEFT);
    assert!(f(sim.x) < f(sim.x0) - 1.0);
    assert!(!sim.completed);
    sim.apply_force_params(d(100.0), d(-1.0), d(0.0));
    sim.x = d(f(sim.target_right_x) + 0.01);
    sim.step_many(&Machine, 3);
    assert_eq!(sim.pass_direction, PASS_DIRECTION_LEFT);
    assert!(!sim.completed);
}

#[test]
fn visual_simulation_completes_at_max_steps() {
    let physics = test_physics();
    let mut sim = VisualSimulation::new(&Machine, test_params(), physics);
    sim.steps = physics.max_steps - 1;
    sim.t = d(sim.steps as f64 * f(physics.delta_t));

    sim.step_many(&Machine, 8);

    assert_eq!(sim.steps, physics.max_steps);
    assert!(sim.completed);
}

#[test]
fn a_completed_rod_does_not_move() {
    let mut physics = test_physics();
    physics.max_steps = 5;
    let mut sim = VisualSimulation::new(&Machine, test_params(), physics);
    sim.step_many(&Machine, 100);
    let (x, steps) = (f(sim.x), sim.steps);
    sim.step_many(&Machine, 100);
    sim.step(&Machine);
    assert_eq!((f(sim.x), sim.steps), (x, steps));
    assert_eq!(steps, 5);
}

#[test]
fn external_force_is_not_scaled_by_representative_points() {
    for m in [1, 30] {
        let sim = VisualSimulation::new(
            &Machine,
            VisualParams { m, f: d(7.0), ..test_params() },
            test_physics(),
        );
        let force = sim.generalized_force_at(&Machine, d(0.25), d(0.0), d(0.0));

        assert!((f(force.force_x) - 7.0).abs() < 1.0e-12);
        assert!(f(force.force_y).abs() < 1.0e-12);
    }
}

#[test]
fn electric_torque_uses_dipole_strength_directly() {
    let gamma = 2.0;
    for m in [1, 8, 30] {
        let sim = VisualSimulation::new(
            &Machine,
            VisualParams { m, gamma: d(gamma), ..test_params() },
            test_physics(),
        );
        let force = sim.generalized_force_at(&Machine, d(0.25), d(0.0), d(0.0));

        assert!((f(force.torque) - gamma).abs() < 1.0e-12);
    }
}

#[test]
fn positive_delta_turns_the_rod_aside() {
    let sim = VisualSimulation::new(
        &Machine,
        VisualParams { gamma: d(2.0), delta: d(0.5), ..test_params() },
        test_physics(),
    );
    let phi: f64 = 0.7;
    let force = sim.generalized_force_at(&Machine, d(0.25), d(0.0), d(phi));
    assert_eq!(f(force.torque), 2.0 * phi.cos() * (1.0 - 0.5 * phi.sin()));
}

#[test]
fn apply_force_params_keeps_state() {
    let mut sim = VisualSimulation::new(&Machine, test_params(), test_physics());
    sim.step_many(&Machine, 64);
    let (x, y, phi, steps) = (f(sim.x), f(sim.y), f(sim.phi), sim.steps);

    sim.apply_force_params(d(3.0), d(1.0), d(0.5));

    assert_eq!(f(sim.params.f), 3.0);
    assert_eq!((f(sim.x), f(sim.y), f(sim.phi), sim.steps), (x, y, phi, steps));
}

#[test]
fn capped_wall_force_normalizes_to_max_force() {
    let most = f64::from_bits(MAX_WALL_REPULSION_FORCE);
    let force = capped_wall_force(
        &Machine,
        WallForce { force_x: d(3.0 * most), force_y: d(4.0 * most) },
    );
    let (x, y) = (f(force.force_x), f(force.force_y));
    let magnitude = (x * x + y * y).sqrt();

    assert!((magnitude - most).abs() < 1.0e-9);
    assert!((x / y - 0.75).abs() < 1.0e-12);
}

#[test]
fn small_wall_forces_are_left_alone() {
    let force = capped_wall_force(&Machine, WallForce { force_x: d(3.0), force_y: d(-4.0) });
    assert_eq!((f(force.force_x), f(force.force_y)), (3.0, -4.0));
}

#[test]
fn wall_points_repel_within_their_range_only() {
    let physics = test_physics();
    let none = WallForce { force_x: d(0.0), force_y: d(0.0) };
    let near = RodPoint { x: d(0.0), y: d(-0.0085) };
    let force = add_wca_force(&Machine, none, physics, near, 0, d(0.0));
    let r2: f64 = 0.0085 * 0.0085;
    let s2 = 8.0e-3 * 8.0e-3 / r2;
    let s6 = s2 * s2 * s2;
    let coefficient = 24.0 * 2.0 / r2 * s6 * (2.0 * s6 - 1.0);
    assert_eq!(f(force.force_y), coefficient * -0.0085);
    let far = RodPoint { x: d(0.0), y: d(-0.0091) };
    let force = add_wca_force(&Machine, none, physics, far, 0, d(0.0));
    assert_eq!(f(force.force_y), 0.0);
}

#[test]
fn a_point_on_a_wall_point_is_not_repelled_by_it() {
    let physics = test_physics();
    let before = WallForce { force_x: d(1.5), force_y: d(-2.0) };
    let point = RodPoint { x: d(0.0), y: d(0.25) };
    let after = add_wca_force(&Machine, before, physics, point, 0, d(0.25));
    assert_eq!((f(after.force_x), f(after.force_y)), (1.5, -2.0));
}

#[test]
fn a_rod_without_a_dipole_has_no_head() {
    let sim = VisualSimulation::new(&Machine, VisualParams { m: 6, ..test_params() }, test_physics());
    let x = -0.05;
    let y = f(omega(&Machine, d(x))) - 0.03;
    let mut repelled = false;
    for i in 0..64 {
        let phi = -1.5 + 0.05 * i as f64;
        let force = sim.generalized_force_at(&Machine, d(x), d(y), d(phi));
        let turned =
            sim.generalized_force_at(&Machine, d(x), d(y), d(phi + std::f64::consts::PI));
        let scale = f(force.force_x).abs() + f(force.force_y).abs() + f(force.torque).abs();
        let bound = 1.0e-6 * scale + 1.0e-9;
        assert!((f(force.force_x) - f(turned.force_x)).abs() < bound);
        assert!((f(force.force_y) - f(turned.force_y)).abs() < bound);
        assert!((f(force.torque) - f(turned.torque)).abs() < bound);
        repelled = repelled || f(force.force_y) < 0.0;
    }
    assert!(repelled);
}

#[test]
fn halves_are_rounded_away_from_0() {
    assert_eq!(round_to_i64(&Machine, d(2.5)), 3);
    assert_eq!(round_to_i64(&Machine, d(-2.5)), -3);
    assert_eq!(round_to_i64(&Machine, d(-0.4)), 0);
    assert_eq!(round_to_i64(&Machine, d(f64::NAN)), 0);
    assert_eq!(nearest_wall(&Machine, d(-0.0051), d(0.002)), -3);
}

#[test]
fn rods_start_between_the_walls() {
    for seed in 0..50 {
        let params = VisualParams { seed, ..test_params() };
        let sim = VisualSimulation::new(&Machine, params, test_physics());
        let half = 0.5 * 16.0 * 0.0064;
        assert!(f(sim.x0) > -0.1 && f(sim.x0) < 0.7);
        assert!(f(sim.y0).abs() <= f(omega(&Machine, sim.x0)) - half);
        assert!(f(sim.phi0) > 0.0 && f(sim.phi0) < 6.284);
        assert_eq!(f(sim.target_right_x), f(sim.x0) + 1.0);
        assert_eq!(f(sim.target_left_x), f(sim.x0) - 1.0);
    }
}

#[test]
fn rods_that_do_not_fit_start_in_the_middle() {
    let params = VisualParams { m: 1000, ..test_params() };
    let sim = VisualSimulation::new(&Machine, params, test_physics());
    assert_eq!(f(sim.y0), 0.0);
}

#[test]
fn rods_have_two_ends() {
    let mut sim = VisualSimulation::new(&Machine, test_params(), test_physics());
    sim.x = d(0.5);
    sim.y = d(0.25);
    sim.phi = d(0.0);
    let (first, last) = sim.rod_endpoints(&Machine);
    let half = 8.0 * (0.8 * 8.0e-3);
    assert_eq!((f(first.x), f(first.y)), (0.5 - half, 0.25));
    assert_eq!((f(last.x), f(last.y)), (0.5 + half, 0.25));
}

#[test]
fn noise_grows_with_diffusion() {
    let sim = VisualSimulation::new(&Machine, test_params(), test_physics());
    let noise = noise_scale(&Machine, sim.diffusion, d(4.0e-7));
    assert_eq!(f(noise.rot), (2.0 * f(sim.diffusion.d_r) * 4.0e-7).sqrt());
    assert_eq!(f(noise.trans_parallel), (2.0 * f(sim.diffusion.d_parallel) * 4.0e-7).sqrt());
}

#[test]
fn a_seed_gives_the_same_course_twice() {
    let mut a = VisualSimulation::new(&Machine, test_params(), test_physics());
    let mut b = VisualSimulation::new(&Machine, test_params(), test_physics());
    a.step_many(&Machine, 500);
    for _ in 0..500 {
        b.step(&Machine);
    }
    assert_eq!((f(a.x), f(a.y), f(a.phi), a.steps), (f(b.x), f(b.y), f(b.phi), b.steps));
    b.reset(&Machine, VisualParams { seed: 2, ..test_params() });
    assert_eq!(b.steps, 0);
    assert_ne!(f(a.x0), f(b.x0));
}

// ---- Trials ----

fn test_case(physics: &Physics) -> Case {
    Case {
        case_id: 3,
        m: 1,
        l: physics.particle_length(&Machine, 1),
        gamma: d(0.0),
        delta: d(0.0),
        f: d(100.0),
    }
}

#[test]
fn run_trial_finishes_with_passage_or_max_steps() {
    let physics = Physics { max_steps: 200_000, ..test_physics() };
    let case = test_case(&physics);

    let mut hist = Histograms::new();
    let trial = run_trial(&Machine, case, physics, 12345, 1, &mut hist);

    assert_eq!(trial.case_id, 3);
    assert_eq!(trial.steps, hist.votes);
    assert!(f(trial.t) > 0.0);
    assert!(trial.status == STATUS_OK || trial.status == STATUS_MAX_STEPS);
    if trial.status == STATUS_OK {
        assert_ne!(trial.pass_direction, PASS_DIRECTION_NONE);
    }
}

#[test]
fn trials_over_a_fixed_time_run_all_steps() {
    let physics = Physics { max_steps: 3_000, mode: Mode::FixedTime, ..test_physics() };
    let mut hist = Histograms::new();
    let trial = run_trial(&Machine, test_case(&physics), physics, 5, 100, &mut hist);
    assert_eq!(trial.steps, 3_000);
    assert_eq!(hist.votes, 30);
    assert_eq!(f(trial.t), 3_000.0 * 4.0e-7);
}

#[test]
fn trials_without_votes_leave_the_histograms_empty() {
    let physics = Physics { max_steps: 50, ..test_physics() };
    let mut hist = Histograms::new();
    let trial = run_trial(&Machine, test_case(&physics), physics, 5, 0, &mut hist);
    assert_eq!(hist.votes, 0);
    assert_eq!(trial.status, STATUS_MAX_STEPS);
    assert_eq!(trial.steps, 50);
}

// ---- Cases ----

fn row(trial: &TrialResult) -> (u64, u64, u64, u64, i32) {
    (trial.trial_id, trial.x_end.to_bits(), trial.t.to_bits(), trial.steps, trial.status)
}

fn rows(result: &CpuCaseResult) -> Vec<(u64, u64, u64, u64, i32)> {
    result.trials.iter().map(row).collect()
}

#[test]
fn cases_number_their_trials_and_seed_each() {
    let physics = Physics { max_steps: 200, mode: Mode::FixedTime, ..test_physics() };
    let case = test_case(&physics);
    let result = run_case(&Machine, case, physics, 4, 10);
    assert_eq!(result.trials.len(), 4);
    for (i, trial) in result.trials.iter().enumerate() {
        assert_eq!(trial.trial_id, i as u64);
        let mut hist = Histograms::new();
        let alone =
            run_trial(&Machine, case, physics, case.seed().wrapping_add(i as u64), 10, &mut hist);
        assert_eq!(f(alone.x_end), f(trial.x_end));
    }
    assert_eq!(result.max_trial_steps, 200);
    assert_eq!(result.case_output.hist_phi.iter().sum::<u64>(), 4 * 20);
    match &result.case_output.summary {
        Summary::FixedTime(row) => {
            assert_eq!(row.n_total, 4);
            let mut mean = 0.0;
            for trial in &result.trials {
                mean += f(trial.x_end) - f(trial.x0);
            }
            assert_eq!(f(row.mean_dx), mean / 4.0);
        }
        Summary::FirstPassage(_) => panic!("the mode is not that of the case"),
    }
}

#[test]
fn a_case_casts_one_vote_for_each_stride_of_each_trial() {
    let physics = Physics { max_steps: 4_000, ..test_physics() };
    let case = Case { f: d(50_000.0), ..test_case(&physics) };
    let result = run_case(&Machine, case, physics, 5, 7);
    let votes: u64 = result.trials.iter().map(|trial| trial.steps / 7).sum();
    assert!(votes > 0);
    assert_eq!(result.case_output.hist_phi.iter().sum::<u64>(), votes);
    assert_eq!(result.case_output.hist_y.iter().sum::<u64>(), votes);
    for (phi, y) in result.case_output.hist_phi.chunks(36).zip(result.case_output.hist_y.chunks(64))
    {
        assert_eq!(phi.iter().sum::<u64>(), y.iter().sum::<u64>());
    }
}

#[test]
fn cases_with_passages_are_summarized_as_such() {
    let physics = Physics { max_steps: 20, ..test_physics() };
    let result = run_case(&Machine, test_case(&physics), physics, 3, 0);
    match &result.case_output.summary {
        Summary::FirstPassage(row) => {
            assert_eq!((row.n_ok, row.n_max_steps, row.n_total), (0, 3, 3));
        }
        Summary::FixedTime(_) => panic!("the mode is not that of the case"),
    }
}

#[test]
fn blocks_of_trials_merge_to_the_same_case() {
    let physics = Physics { max_steps: 150, mode: Mode::FixedTime, ..test_physics() };
    let case = test_case(&physics);
    let whole = run_case(&Machine, case, physics, 6, 7);

    let mut front = CaseAccumulator::new();
    let mut back = CaseAccumulator::new();
    for id in 0..2 {
        front.add_trial(&Machine, case, physics, id, 7);
    }
    for id in 2..6 {
        back.add_trial(&Machine, case, physics, id, 7);
    }
    // The order of the parts does not matter either.
    let merged = finish_case(&Machine, back.merge(front), case, physics, 6);
    assert_eq!(rows(&whole), rows(&merged));
    assert_eq!(whole.case_output.hist_phi, merged.case_output.hist_phi);
    assert_eq!(whole.case_output.hist_y, merged.case_output.hist_y);
}

#[test]
fn trials_are_sorted_by_number() {
    let physics = Physics { max_steps: 2, mode: Mode::FixedTime, ..test_physics() };
    let case = test_case(&physics);
    let mut accum = CaseAccumulator::new();
    for id in [4, 0, 9, 2] {
        accum.add_trial(&Machine, case, physics, id, 0);
    }
    let ids: Vec<u64> = sort_by_id(&accum.trials).iter().map(|t| t.trial_id).collect();
    assert_eq!(ids, vec![0, 2, 4, 9]);
}

#[test]
fn trial_seeds_wrap_and_differ() {
    assert_eq!(trial_seed(u64::MAX, 1), 0);
    assert_ne!(trial_seed(5, 1), trial_seed(5, 2));
}

#[test]
fn a_case_without_trials_has_no_steps() {
    let physics = test_physics();
    let result = finish_case(&Machine, CaseAccumulator::new(), test_case(&physics), physics, 0);
    assert_eq!(result.max_trial_steps, 0);
    assert_eq!(result.trials.len(), 0);
}
