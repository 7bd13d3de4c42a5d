//! The channel, the diffusion of rods, random numbers and summaries.

use nanorod::channel::{
    boundary_wall_sign, channel_section_bounds, omega, omega_derivative, omega_second_derivative,
    positive_mod, reflect_state_at_wall, reflect_state_into_channel, wall_index, wall_y_samples,
    Pose, Wall,
};
use nanorod::config::{Case, Mode, Physics, CHANNEL_NECK_PHASE, MAX_WALL_REPULSION_FORCE};
use nanorod::double::Double;
use nanorod::formula::Arithmetic;
use nanorod::histogram::{
    histogram_rows, phi_center, raw_bins, records_step, x_center, y_center, Histograms,
};
use nanorod::model::{
    diffusion_for_length, pass_direction_label, status_label, summarize_fixed_time,
    summarize_trials, tally_trials, tirado_terms_for_length, Summary, TrialResult,
    PASS_DIRECTION_LEFT, PASS_DIRECTION_NONE, PASS_DIRECTION_RIGHT, STATUS_MAX_STEPS, STATUS_OK,
    STATUS_RUNNING,
};
use nanorod::rng::{normal_pair, SplitMixRng};

/// The operations of the machine.
struct Machine;

fn d(x: f64) -> Double {
    Double::from_bits(x.to_bits())
}

fn f(x: Double) -> f64 {
    f64::from_bits(x.to_bits())
}

impl Arithmetic for Machine {
    fn sum(&self, a: Double, b: Double) -> Double {
        d(f(a) + f(b))
    }

    fn difference(&self, a: Double, b: Double) -> Double {
        d(f(a) - f(b))
    }

    fn product(&self, a: Double, b: Double) -> Double {
        d(f(a) * f(b))
    }

    fn quotient(&self, a: Double, b: Double) -> Double {
        d(f(a) / f(b))
    }

    fn remainder(&self, a: Double, b: Double) -> Double {
        d(f(a).rem_euclid(f(b)))
    }

    fn square_root(&self, a: Double) -> Double {
        d(f(a).sqrt())
    }

    fn cube_root(&self, a: Double) -> Double {
        d(f(a).cbrt())
    }

    fn sine(&self, a: Double) -> Double {
        d(f(a).sin())
    }

    fn cosine(&self, a: Double) -> Double {
        d(f(a).cos())
    }

    fn arctangent(&self, a: Double) -> Double {
        d(f(a).atan())
    }

    fn logarithm(&self, a: Double) -> Double {
        d(f(a).ln())
    }

    fn exponential(&self, a: Double) -> Double {
        d(f(a).exp())
    }

    fn floor(&self, a: Double) -> Double {
        d(f(a).floor())
    }

    fn nearest(&self, a: Double) -> Double {
        d(f(a).round())
    }

    fn of_signed(&self, n: i64) -> Double {
        d(n as f64)
    }

    fn of_unsigned(&self, n: u64) -> Double {
        d(n as f64)
    }

    fn to_signed(&self, a: Double) -> i64 {
        f(a) as i64
    }

    fn to_unsigned(&self, a: Double) -> u64 {
        f(a) as u64
    }

    fn parse(&self, text: &str) -> Option<Double> {
        match text.parse::<f64>() {
            Ok(x) => Some(d(x)),
            Err(_) => None,
        }
    }

    fn six_decimals(&self, a: Double) -> String {
        format!("{:.6}", f(a))
    }
}

fn test_physics() -> Physics {
    Physics {
        delta_t: d(4.0e-7),
        mode: Mode::FirstPassage,
        max_steps: 250_000_000,
        sigma: d(8.0e-3),
        epsilon: d(2.0),
        wall_dx: d(0.25 * 8.0e-3),
        particle_dx: d(0.8 * 8.0e-3),
        n_wall: 500,
        diffusion_reference_length: d(6.0 * 0.8 * 8.0e-3),
    }
}

fn width(x: f64) -> f64 {
    f(omega(&Machine, d(x)))
}

fn slope_at(x: f64) -> f64 {
    f(omega_derivative(&Machine, d(x)))
}

/// A state outside the upper wall, 0.08 away from it at 0.31.
fn outside() -> (f64, f64, f64, f64) {
    let foot_x = 0.31;
    let slope = slope_at(foot_x);
    let normal_len = (slope * slope + 1.0).sqrt();
    (
        foot_x - slope / normal_len * 0.08,
        width(foot_x) + 1.0 / normal_len * 0.08,
        slope,
        normal_len,
    )
}

#[test]
fn omega_is_periodic() {
    for x in [-2.3, -0.1, 0.0, 0.25, 0.7, 3.2] {
        assert!((width(x) - width(x + 1.0)).abs() < 1e-12);
    }
}

#[test]
fn omega_and_its_derivatives_at_chosen_places() {
    assert_eq!(width(0.0), 1.12);
    assert!((width(0.25) - 2.12).abs() < 1e-15);
    let pi = std::f64::consts::PI;
    assert_eq!(slope_at(0.0), 3.0 * pi);
    let bend = f(omega_second_derivative(&Machine, d(0.25)));
    assert!((bend + 4.0 * pi * pi).abs() < 1e-12);
    for x in [0.1, 0.4, 0.77] {
        let h = 1e-6;
        assert!(((width(x + h) - width(x - h)) / (2.0 * h) - slope_at(x)).abs() < 1e-7);
        let second = f(omega_second_derivative(&Machine, d(x)));
        assert!(((slope_at(x + h) - slope_at(x - h)) / (2.0 * h) - second).abs() < 1e-6);
    }
}

#[test]
fn boundary_correction_reflects_upper_wall_prediction() {
    let (outside_x, outside_y, slope, normal_len) = outside();
    let corrected =
        reflect_state_into_channel(&Machine, d(outside_x), d(outside_y), d(0.5), d(outside_x));

    assert!(corrected.reflected);
    assert!((f(corrected.x) - (0.31 + slope / normal_len * 0.08)).abs() < 1e-9);
    assert!((f(corrected.y) - (width(0.31) - 1.0 / normal_len * 0.08)).abs() < 1e-9);
}

#[test]
fn boundary_correction_reflects_angle_across_upper_tangent() {
    let (outside_x, outside_y, slope, _) = outside();
    let phi = 0.5;
    let corrected =
        reflect_state_into_channel(&Machine, d(outside_x), d(outside_y), d(phi), d(outside_x));

    assert!(corrected.reflected);
    assert!((f(corrected.phi) - (2.0 * slope.atan() - phi)).abs() < 1e-9);
}

#[test]
fn boundary_correction_keeps_inside_prediction() {
    let corrected = reflect_state_into_channel(&Machine, d(0.25), d(0.0), d(1.2), d(0.25));

    assert!(!corrected.reflected);
    assert!((f(corrected.x) - 0.25).abs() < 1e-12);
    assert!(f(corrected.y).abs() < 1e-12);
    assert!((f(corrected.phi) - 1.2).abs() < 1e-12);
}

#[test]
fn boundary_correction_starts_wall_foot_search_from_current_x() {
    let current_x = 0.70;
    let predicted_x = 0.84;
    let predicted_y = width(predicted_x) + 0.03;
    let corrected =
        reflect_state_into_channel(&Machine, d(predicted_x), d(predicted_y), d(0.0), d(current_x));

    assert!(corrected.reflected);
    assert!(f(corrected.x) < f64::from_bits(CHANNEL_NECK_PHASE));
}

#[test]
fn boundary_reflection_repeats_until_state_is_inside_channel() {
    let neck_x = f64::from_bits(CHANNEL_NECK_PHASE);
    let corrected = reflect_state_into_channel(
        &Machine,
        d(neck_x),
        d(width(neck_x) + 0.46),
        d(0.0),
        d(neck_x),
    );

    assert!(corrected.reflected);
    assert!(f(corrected.y).abs() <= width(f(corrected.x)) + 1.0e-12);
}

#[test]
fn a_state_below_the_channel_is_the_mirror_image_of_one_above() {
    let (x, y, _, _) = outside();
    let above = reflect_state_into_channel(&Machine, d(x), d(y), d(0.5), d(x));
    let below = reflect_state_into_channel(&Machine, d(x), d(-y), d(-0.5), d(x));
    assert_eq!(f(above.x), f(below.x));
    assert_eq!(f(above.y), -f(below.y));
    assert_eq!(f(above.phi), -f(below.phi));
}

#[test]
fn reflections_are_symmetric_along_the_channel() {
    for i in 0..40 {
        let x = -0.4 + 0.05 * i as f64;
        let y = width(x) + 0.02 + 0.01 * i as f64;
        let phi = -2.0 + 0.1 * i as f64;
        let above = reflect_state_into_channel(&Machine, d(x), d(y), d(phi), d(x));
        let below = reflect_state_into_channel(&Machine, d(x), d(-y), d(-phi), d(x));
        assert_eq!(above.x, below.x);
        assert_eq!(f(above.y), -f(below.y));
        assert_eq!(f(above.phi), -f(below.phi));
    }
}

#[test]
fn one_reflection_mirrors_at_the_foot() {
    let pose = Pose { x: d(0.25), y: d(2.5), phi: d(0.0) };
    let image = reflect_state_at_wall(&Machine, pose, Wall::Upper, d(0.25));
    assert!(f(image.y) < 2.12);
}

#[test]
fn walls_are_told_apart() {
    assert_eq!(boundary_wall_sign(d(1.1), d(1.0)), Some(Wall::Upper));
    assert_eq!(boundary_wall_sign(d(-1.1), d(1.0)), Some(Wall::Lower));
    assert_eq!(boundary_wall_sign(d(1.0), d(1.0)), None);
    assert_eq!(boundary_wall_sign(d(f64::NAN), d(1.0)), None);
}

#[test]
fn sections_run_from_neck_to_neck() {
    let neck = f64::from_bits(CHANNEL_NECK_PHASE);
    assert_eq!(neck, 0.809_640_837_312_333_2);
    let (low, high) = channel_section_bounds(&Machine, d(0.25));
    assert_eq!(f(low), -1.0 + neck);
    assert_eq!(f(high), f(low) + 1.0);
}

#[test]
fn wall_sampling_follows_physics_geometry() {
    let physics = test_physics();
    let samples = wall_y_samples(&Machine, physics.n_wall, physics.wall_dx);

    assert_eq!(samples.len(), 500);
    assert!((f(samples[0]) - width(0.0)).abs() < 1e-15);
    assert!((f(samples[499]) - width(499.0 * f(physics.wall_dx))).abs() < 1e-15);
}

#[test]
fn wall_points_wrap_around() {
    assert_eq!(positive_mod(-1, 500), 499);
    assert_eq!(positive_mod(-500, 500), 0);
    assert_eq!(positive_mod(-501, 500), 499);
    assert_eq!(positive_mod(1234, 500), 234);
    assert_eq!(wall_index(-7, 500), wall_index(493, 500));
    assert_eq!(positive_mod(i64::MIN, 7), i64::MIN.rem_euclid(7));
}

#[test]
fn diffusion_is_positive_and_finite_for_all_lengths() {
    let physics = test_physics();
    for m in [1, 4, 8, 15, 30] {
        let diffusion = diffusion_for_length(
            &Machine,
            physics.particle_length(&Machine, m),
            physics.diffusion_reference_length,
        );
        assert!(diffusion.is_positive());
        assert!(f(diffusion.d_parallel).is_finite() && f(diffusion.d_parallel) > 0.0);
        assert!(f(diffusion.d_perp).is_finite() && f(diffusion.d_perp) > 0.0);
        assert!(f(diffusion.d_r).is_finite() && f(diffusion.d_r) > 0.0);
    }
}

#[test]
fn tirado_terms_follow_the_formulas() {
    let terms = tirado_terms_for_length(&Machine, d(0.1));
    let p: f64 = 40.0 * 0.1;
    let inv = 1.0 / p;
    let nu_parallel = -0.207 + 0.980 * inv - 0.133 * (inv * inv);
    let nu_perp = 0.839 + 0.185 * inv + 0.233 * (inv * inv);
    assert_eq!(f(terms.log_p), p.ln());
    assert_eq!(f(terms.nu_parallel), nu_parallel);
    assert_eq!(f(terms.delta_perp), -0.630 + 0.917 * inv - 0.050 * (inv * inv));
    assert_eq!(f(terms.denominator), 3.0 * p.ln() + 2.0 * nu_parallel + nu_perp);
}

#[test]
fn diffusion_at_reference_length_matches_same_length_normalization() {
    let reference_length = test_physics().diffusion_reference_length;
    let terms = tirado_terms_for_length(&Machine, reference_length);
    let diffusion = diffusion_for_length(&Machine, reference_length, reference_length);
    let l = f(reference_length);

    let expected_parallel =
        4.0 * (f(terms.log_p) + f(terms.nu_parallel)) / f(terms.denominator);
    let expected_rotation = 24.0 / (l * l) * (f(terms.log_p) + f(terms.delta_perp))
        / f(terms.denominator);

    assert!((f(diffusion.d_parallel) - expected_parallel).abs() < 1.0e-12);
    assert!((f(diffusion.d_perp) - 0.5 * expected_parallel).abs() < 1.0e-12);
    assert!((f(diffusion.d_r) - expected_rotation).abs() < 1.0e-9);
}

#[test]
fn diffusion_uses_shared_reference_length_for_non_reference_rods() {
    let physics = test_physics();
    let reference_length = f(physics.diffusion_reference_length);
    let l = f(physics.particle_length(&Machine, 1));
    let terms = tirado_terms_for_length(&Machine, d(l));
    let reference_terms = tirado_terms_for_length(&Machine, d(reference_length));
    let diffusion = diffusion_for_length(&Machine, d(l), d(reference_length));

    let expected_parallel = 4.0 * (reference_length / l) * (f(terms.log_p) + f(terms.nu_parallel))
        / f(reference_terms.denominator);
    let expected_rotation = 24.0 * reference_length * (f(terms.log_p) + f(terms.delta_perp))
        / (l * l * l * f(reference_terms.denominator));

    assert!((f(diffusion.d_parallel) - expected_parallel).abs() < 1.0e-12);
    assert!((f(diffusion.d_perp) - 0.5 * expected_parallel).abs() < 1.0e-12);
    assert!((f(diffusion.d_r) - expected_rotation).abs() < 1.0e-9);
}

#[test]
fn ratios_of_two_rods_do_not_depend_on_the_reference() {
    let (short, long) = (d(0.05), d(0.4));
    let (first, second) = (d(0.0384), d(0.2));
    let d11 = diffusion_for_length(&Machine, short, first);
    let d12 = diffusion_for_length(&Machine, short, second);
    let d21 = diffusion_for_length(&Machine, long, first);
    let d22 = diffusion_for_length(&Machine, long, second);
    assert_ne!(f(d11.d_parallel), f(d12.d_parallel));
    for (a, b, c, e) in [
        (d11.d_parallel, d22.d_parallel, d12.d_parallel, d21.d_parallel),
        (d11.d_perp, d22.d_perp, d12.d_perp, d21.d_perp),
        (d11.d_r, d22.d_r, d12.d_r, d21.d_r),
    ] {
        let (left, right) = (f(a) * f(b), f(c) * f(e));
        assert!((left - right).abs() <= 1.0e-14 * right.abs());
    }
}

// ---- Random numbers ----

#[test]
fn the_generator_hands_out_known_words() {
    let mut rng = SplitMixRng::new(0);
    assert_eq!(rng.next_u64(), 0xe220_a839_7b1d_cdaf);
    assert_eq!(rng.next_u64(), 0x6e78_9e6a_a1b9_65f4);
    assert_eq!(rng.next_u64(), 0x06c4_5d18_8009_454f);
}

#[test]
fn uniform_numbers_lie_strictly_between_0_and_1() {
    let mut rng = SplitMixRng::new(7);
    let mut words = SplitMixRng::new(7);
    for _ in 0..1000 {
        let u = f(rng.uniform_open01(&Machine));
        let word = words.next_u64();
        assert!(u > 0.0 && u < 1.0);
        assert_eq!(u, ((word >> 11) as f64 + 0.5) / 9007199254740992.0);
    }
}

#[test]
fn normal_numbers_come_in_pairs() {
    let mut rng = SplitMixRng::new(1);
    let mut uniform = SplitMixRng::new(1);
    let u1 = uniform.uniform_open01(&Machine);
    let u2 = uniform.uniform_open01(&Machine);
    let (a, b) = normal_pair(&Machine, u1, u2);
    assert_eq!(f(rng.normal(&Machine)), f(a));
    assert_eq!(f(rng.normal(&Machine)), f(b));
    let r = (-2.0 * f(u1).ln()).sqrt();
    let theta = 2.0 * std::f64::consts::PI * f(u2);
    assert_eq!(f(a), r * theta.cos());
    assert_eq!(f(b), r * theta.sin());
}

// ---- Summaries ----

fn test_case(physics: &Physics) -> Case {
    Case {
        case_id: 7,
        m: 3,
        l: physics.particle_length(&Machine, 3),
        gamma: d(0.25),
        delta: d(0.5),
        f: d(1.0),
    }
}

#[test]
fn summarize_trials_counts_pass_directions() {
    let physics = test_physics();
    let case = test_case(&physics);
    let times = vec![d(1.0), d(2.0), d(0.0)];
    let statuses = vec![STATUS_OK, STATUS_OK, STATUS_MAX_STEPS];
    let pass_directions = vec![PASS_DIRECTION_RIGHT, PASS_DIRECTION_LEFT, PASS_DIRECTION_NONE];

    let summary = summarize_trials(
        &Machine,
        Some(2),
        case,
        3,
        &physics,
        &times,
        &statuses,
        &pass_directions,
    );

    assert_eq!(summary.n_ok, 2);
    assert_eq!(summary.n_right_passes, 1);
    assert_eq!(summary.n_left_passes, 1);
    assert_eq!(summary.n_max_steps, 1);
    assert!((f(summary.passage_fraction) - 2.0 / 3.0).abs() < 1.0e-12);
    assert!((f(summary.t1) - 1.5).abs() < 1.0e-12);
    assert!((f(summary.t2) - 2.5).abs() < 1.0e-12);
    assert_eq!(summary.seed, case.seed());
    assert_eq!(summary.gpu_id, Some(2));
}

#[test]
fn summaries_of_passages_give_mobility_and_diffusion() {
    let physics = test_physics();
    let mut case = test_case(&physics);
    case.f = d(4.0);
    let times = vec![d(1.0), d(3.0)];
    let statuses = vec![STATUS_OK, STATUS_OK];
    let directions = vec![PASS_DIRECTION_RIGHT, PASS_DIRECTION_RIGHT];
    let row = summarize_trials(&Machine, None, case, 2, &physics, &times, &statuses, &directions);
    assert_eq!(f(row.t1), 2.0);
    assert_eq!(f(row.t2), 5.0);
    assert_eq!(f(row.mu), 0.125);
    assert_eq!(f(row.d_eff), 0.5 * (5.0 - 4.0) / 8.0);
    assert_eq!(row.mode, Mode::FirstPassage);

    case.f = d(-0.0);
    let row = summarize_trials(&Machine, None, case, 2, &physics, &times, &statuses, &directions);
    assert!(f(row.mu).is_nan());
    assert_eq!(f(row.d_eff), 0.0625);
}

#[test]
fn summaries_without_a_passage_have_no_means() {
    let physics = test_physics();
    let case = test_case(&physics);
    let row = summarize_trials(
        &Machine,
        None,
        case,
        2,
        &physics,
        &vec![d(1.0), d(1.0)],
        &vec![STATUS_MAX_STEPS, STATUS_RUNNING],
        &vec![PASS_DIRECTION_NONE, PASS_DIRECTION_NONE],
    );
    assert_eq!(row.n_ok, 0);
    assert_eq!(row.n_max_steps, 1);
    assert_eq!(f(row.passage_fraction), 0.0);
    assert!(f(row.t1).is_nan() && f(row.t2).is_nan() && f(row.mu).is_nan());
    assert!(f(row.d_eff).is_nan());
}

#[test]
fn summaries_over_a_fixed_time_measure_displacements() {
    let mut physics = test_physics();
    physics.delta_t = d(0.5);
    physics.max_steps = 8;
    let mut case = test_case(&physics);
    case.f = d(2.0);
    let starts = vec![d(1.0), d(2.0)];
    let ends = vec![d(2.0), d(5.0)];
    let row = summarize_fixed_time(&Machine, None, case, 2, &physics, &starts, &ends);
    assert_eq!(f(row.time), 4.0);
    assert_eq!(f(row.mean_dx), 2.0);
    assert_eq!(f(row.var_dx), 5.0 - 4.0);
    assert_eq!(f(row.v_mean), 0.5);
    assert_eq!(f(row.t1), 2.0);
    assert_eq!(f(row.mu), 0.25);
    assert_eq!(f(row.d_eff), 0.125);
    assert_eq!(row.mode, Mode::FixedTime);
    assert_eq!(Summary::FixedTime(row).case_id(), 7);

    let back = summarize_fixed_time(&Machine, None, case, 2, &physics, &ends, &starts);
    assert_eq!(f(back.v_mean), -0.5);
    assert_eq!(f(back.t1), 2.0);
}

#[test]
fn tallies_count_each_ended_trial_once() {
    let tally = tally_trials(
        &vec![d(1.0), d(2.0), d(3.0), d(4.0)],
        &vec![STATUS_OK, STATUS_MAX_STEPS, STATUS_OK, 9],
        &vec![PASS_DIRECTION_LEFT, PASS_DIRECTION_NONE, 5, PASS_DIRECTION_RIGHT],
    );
    assert_eq!((tally.n_ok, tally.n_max_steps), (2, 1));
    assert_eq!((tally.n_left_passes, tally.n_right_passes), (1, 0));
    assert_eq!(tally.passage_times.len(), 2);
    assert_eq!(f(tally.passage_times[1]), 3.0);
}

#[test]
fn labels_name_every_code() {
    assert_eq!(status_label(STATUS_RUNNING), "running");
    assert_eq!(status_label(STATUS_OK), "ok");
    assert_eq!(status_label(STATUS_MAX_STEPS), "max_steps");
    assert_eq!(status_label(17), "unknown");
    assert_eq!(pass_direction_label(PASS_DIRECTION_RIGHT), "right");
    assert_eq!(pass_direction_label(PASS_DIRECTION_LEFT), "left");
    assert_eq!(pass_direction_label(PASS_DIRECTION_NONE), "not_passed");
    assert_eq!(pass_direction_label(2), "unknown");
}

#[test]
fn table_lines_carry_labels() {
    let physics = test_physics();
    let case = test_case(&physics);
    let trial = TrialResult {
        case_id: 7,
        trial_id: 5,
        gpu_id: Some(1),
        case,
        x0: d(0.1),
        y0: d(0.2),
        phi0: d(0.3),
        x_end: d(1.1),
        y_end: d(1.2),
        phi_end: d(1.3),
        t: d(2.0),
        steps: 40,
        status: STATUS_OK,
        pass_direction: PASS_DIRECTION_LEFT,
    };
    let row = trial.to_csv_row();
    assert_eq!((row.case_id, row.trial_id, row.gpu_id, row.m), (7, 5, Some(1), 3));
    assert_eq!((f(row.x0), f(row.y_end), f(row.t), row.steps), (0.1, 1.2, 2.0, 40));
    assert_eq!((row.status, row.pass_direction), ("ok", "left"));
    assert_eq!(f(row.gamma), 0.25);
}

// ---- Histograms ----

#[test]
fn poses_fall_into_their_bins() {
    let bins = raw_bins(&Machine, Pose { x: d(-0.255), y: d(0.0), phi: d(-0.1) });
    assert_eq!(bins, (74, 35, 32));
    let bins = raw_bins(&Machine, Pose { x: d(3.0), y: d(9.0), phi: d(7.0) });
    assert_eq!(bins, (0, 4, 64));
    let bins = raw_bins(&Machine, Pose { x: d(0.999), y: d(-9.0), phi: d(0.0) });
    assert_eq!(bins, (99, 0, 0));
}

#[test]
fn bins_have_their_middles() {
    assert_eq!(f(x_center(&Machine, 0)), 0.005);
    assert_eq!(f(x_center(&Machine, 99)), 0.995);
    let pi = std::f64::consts::PI;
    assert_eq!(f(phi_center(&Machine, 3)), 3.5 * 2.0 * pi / 36.0);
    assert_eq!(f(y_center(&Machine, 0)), -2.3 + 0.5 * 2.0 * 2.3 / 64.0);
    assert_eq!(f(y_center(&Machine, 63)), -2.3 + 63.5 * 2.0 * 2.3 / 64.0);
}

#[test]
fn each_vote_is_counted_once_in_both_histograms() {
    let mut h = Histograms::new();
    h.count((3, 4, 5));
    h.count((1000, 1000, 1000));
    h.accumulate_histograms(&Machine, Pose { x: d(0.035), y: d(0.0), phi: d(0.0) });
    assert_eq!(h.votes, 3);
    assert_eq!(h.phi.iter().sum::<u64>(), 3);
    assert_eq!(h.y.iter().sum::<u64>(), 3);
    assert_eq!(h.phi[3 * 36 + 4], 1);
    assert_eq!(h.y[3 * 64 + 5], 1);
    assert_eq!(h.phi[100 * 36 - 1], 1);
    assert_eq!(h.y[100 * 64 - 1], 1);
    assert_eq!(h.phi[3 * 36], 1);
    assert_eq!(h.y[3 * 64 + 32], 1);
}

#[test]
fn both_histograms_hold_the_same_votes_in_each_bin_along_x() {
    let mut hist = Histograms::new();
    for i in 0..500u64 {
        hist.count((i % 130, i % 41, i % 70));
    }
    let mut other = Histograms::new();
    other.count((3, 0, 0));
    hist.merge(&other);
    let phi: Vec<u64> = hist.phi.chunks(36).map(|cells| cells.iter().sum()).collect();
    let y: Vec<u64> = hist.y.chunks(64).map(|cells| cells.iter().sum()).collect();
    assert_eq!(phi, y);
    assert_eq!(phi.len(), 100);
    assert_eq!((phi[0], phi[3], phi[50]), (4, 5, 4));
    // Bins beyond the last one count as the last.
    assert_eq!(phi[99], 3 * 31 + 11);
}

#[test]
fn merging_adds_counts_in_any_order() {
    let mut a = Histograms::new();
    a.count((1, 2, 3));
    a.count((1, 2, 3));
    let mut b = Histograms::new();
    b.count((1, 2, 3));
    b.count((7, 0, 0));
    let mut ab = a.clone();
    ab.merge(&b);
    let mut ba = b.clone();
    ba.merge(&a);
    assert_eq!(ab.phi, ba.phi);
    assert_eq!(ab.y, ba.y);
    assert_eq!(ab.votes, 4);
    assert_eq!(ab.phi[36 + 2], 3);
}

#[test]
fn histograms_record_every_stride() {
    assert!(records_step(100, 100));
    assert!(!records_step(101, 100));
    assert!(records_step(7, 1));
    assert!(!records_step(100, 0));
}

#[test]
fn histogram_tables_list_all_bins_in_order() {
    let mut h = Histograms::new();
    h.count((2, 5, 0));
    let rows = histogram_rows(&h.phi, 36);
    assert_eq!(rows.len(), 3600);
    assert_eq!((rows[0].x_bin, rows[0].value_bin, rows[0].count), (0, 0, 0));
    assert_eq!((rows[77].x_bin, rows[77].value_bin, rows[77].count), (2, 5, 1));
    assert_eq!((rows[3599].x_bin, rows[3599].value_bin), (99, 35));
}

#[test]
fn constants_have_their_values() {
    assert_eq!(f64::from_bits(MAX_WALL_REPULSION_FORCE), 2.5e4);
    assert_eq!(f64::from_bits(nanorod::config::HIST_Y_MAX), 2.3);
    assert_eq!(f64::from_bits(nanorod::config::L_PERIOD), 1.0);
}
