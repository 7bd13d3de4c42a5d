//! The animation windows and the displayed rod.

use nanorod::animation;
use nanorod::channel::omega;
use nanorod::config::{Mode, Physics};
use nanorod::cpu_sim;
use nanorod::double::Double;
use nanorod::formula::Arithmetic;
use nanorod::model::{PASS_DIRECTION_LEFT, PASS_DIRECTION_NONE, PASS_DIRECTION_RIGHT};
use nanorod::renderer::{
    display_angle, in_view, pass_direction_display, piece_count, point_count_label, section_places,
    start_label, wall_lines, AnimationApp, CameraFollow, CAMERA_MAX_LAG, MIDDLE_DENSITY,
    STEPS_PER_FRAME, TRAIL_LIMIT, WALL_DENSITY,
};
use nanorod::simulation::{RodPoint, VisualParams};

/// The operations of the machine.
struct Machine;

fn d(x: f64) -> Double {
    Double::from_bits(x.to_bits())
}

fn f(x: Double) -> f64 {
    f64::from_bits(x.to_bits())
}

impl Arithmetic for Machine {
    fn sum(&self, a: Double, b: Double) -> Double {
        d(f(a) + f(b))
    }

    fn difference(&self, a: Double, b: Double) -> Double {
        d(f(a) - f(b))
    }

    fn product(&self, a: Double, b: Double) -> Double {
        d(f(a) * f(b))
    }

    fn quotient(&self, a: Double, b: Double) -> Double {
        d(f(a) / f(b))
    }

    fn remainder(&self, a: Double, b: Double) -> Double {
        d(f(a).rem_euclid(f(b)))
    }

    fn square_root(&self, a: Double) -> Double {
        d(f(a).sqrt())
    }

    fn cube_root(&self, a: Double) -> Double {
        d(f(a).cbrt())
    }

    fn sine(&self, a: Double) -> Double {
        d(f(a).sin())
    }

    fn cosine(&self, a: Double) -> Double {
        d(f(a).cos())
    }

    fn arctangent(&self, a: Double) -> Double {
        d(f(a).atan())
    }

    fn logarithm(&self, a: Double) -> Double {
        d(f(a).ln())
    }

    fn exponential(&self, a: Double) -> Double {
        d(f(a).exp())
    }

    fn floor(&self, a: Double) -> Double {
        d(f(a).floor())
    }

    fn nearest(&self, a: Double) -> Double {
        d(f(a).round())
    }

    fn of_signed(&self, n: i64) -> Double {
        d(n as f64)
    }

    fn of_unsigned(&self, n: u64) -> Double {
        d(n as f64)
    }

    fn to_signed(&self, a: Double) -> i64 {
        f(a) as i64
    }

    fn to_unsigned(&self, a: Double) -> u64 {
        f(a) as u64
    }

    fn parse(&self, text: &str) -> Option<Double> {
        match text.parse::<f64>() {
            Ok(x) => Some(d(x)),
            Err(_) => None,
        }
    }

    fn six_decimals(&self, a: Double) -> String {
        format!("{:.6}", f(a))
    }
}

fn test_physics() -> Physics {
    Physics {
        delta_t: d(4.0e-7),
        mode: Mode::FirstPassage,
        max_steps: 250_000_000,
        sigma: d(8.0e-3),
        epsilon: d(2.0),
        wall_dx: d(0.25 * 8.0e-3),
        particle_dx: d(0.8 * 8.0e-3),
        n_wall: 500,
        diffusion_reference_length: d(6.0 * 0.8 * 8.0e-3),
    }
}

fn displayed(params: cpu_sim::VisualParams) -> cpu_sim::VisualSimulation {
    cpu_sim::VisualSimulation::new(&Machine, params, test_physics())
}

// ---- Displayed rod ----

#[test]
fn cpu_sim_visual_simulation_advances_with_finite_state() {
    let mut sim = displayed(cpu_sim::VisualParams::default());
    sim.step_many(&Machine, 128);

    assert!(f(sim.x).is_finite());
    assert!(f(sim.y).is_finite());
    assert!(f(sim.phi).is_finite());
    assert_eq!(sim.steps, 128);
}

#[test]
fn cpu_sim_visual_simulation_stays_bounded_during_short_animation_run() {
    let mut sim = displayed(cpu_sim::VisualParams::default());
    sim.step_many(&Machine, 50_000);

    assert!(f(sim.x).is_finite());
    assert!(f(sim.y).is_finite());
    assert!(f(sim.phi).is_finite());
    assert!(f(sim.x).abs() < 10.0);
    assert!(f(sim.y).abs() < 10.0);
}

#[test]
fn representative_point_count_matches_m() {
    let sim = displayed(cpu_sim::VisualParams { m: 4, ..cpu_sim::VisualParams::default() });

    assert_eq!(sim.representative_points(&Machine).len(), 9);
}

#[test]
fn displayed_rods_have_usual_parameters() {
    let usual = cpu_sim::VisualParams::default();
    assert_eq!((usual.seed, usual.m, f(usual.force)), (1, 8, 10.0));
    assert_eq!((f(usual.beta_pe), f(usual.delta_alpha_e_over_p)), (1.0, 1.0));
    assert!(usual == usual);
    assert!(usual != cpu_sim::VisualParams { m: 9, ..usual });
    let params = usual.sim_params(&Machine, d(0.0064));
    assert_eq!((params.combo_id, params.m), (0, 8));
    assert_eq!(f(params.l), 16.0 * 0.0064);
    assert_eq!(usual.point_count(), 17);
}

#[test]
fn points_lie_along_the_rod() {
    let mut sim = displayed(cpu_sim::VisualParams { m: 1, ..cpu_sim::VisualParams::default() });
    sim.x = d(0.5);
    sim.y = d(0.25);
    sim.phi = d(0.0);
    let points = sim.representative_points(&Machine);
    let places: Vec<(f64, f64)> = points.iter().map(|p| (f(p.x), f(p.y))).collect();
    let dx = 0.8 * 8.0e-3;
    assert_eq!(places, vec![(0.5 - dx, 0.25), (0.5, 0.25), (0.5 + dx, 0.25)]);
}

#[test]
fn walls_push_inwards() {
    let sim = displayed(cpu_sim::VisualParams::default());
    let x = d(0.19);
    let top = f(omega(&Machine, x));
    let force = sim.wall_force(&Machine, RodPoint { x, y: d(top - 0.0085) });
    assert!(f(force.force_y) < 0.0);
    let force = sim.wall_force(&Machine, RodPoint { x, y: d(0.0085 - top) });
    assert!(f(force.force_y) > 0.0);
    let force = sim.wall_force(&Machine, RodPoint { x, y: d(0.0) });
    assert_eq!((f(force.force_x), f(force.force_y)), (0.0, 0.0));
}

#[test]
fn displayed_rods_are_done_beyond_the_target() {
    let mut sim = displayed(cpu_sim::VisualParams::default());
    assert!(sim.can_step());
    sim.x = d(f(sim.target_x) + 0.01);
    sim.step_many(&Machine, 10);
    assert!(sim.completed);
    assert_eq!(sim.steps, 1);
    sim.step_many(&Machine, 10);
    assert_eq!(sim.steps, 1);
    let params = sim.params;
    sim.reset(&Machine, params);
    assert!(!sim.completed);
    assert_eq!(sim.steps, 0);
}

// ---- Camera ----

#[test]
fn camera_follow_smooths_small_horizontal_motion() {
    let mut camera = CameraFollow::new(d(0.0));

    camera.advance_toward(&Machine, d(1.0), d(1.0 / 60.0));

    assert!(f(camera.x()) > 0.0);
    assert!(f(camera.x()) < 1.0);
}

#[test]
fn camera_follow_limits_large_horizontal_lag() {
    let mut camera = CameraFollow::new(d(0.0));

    camera.advance_toward(&Machine, d(10.0), d(1.0 / 60.0));

    assert!((10.0 - f(camera.x())).abs() <= f64::from_bits(CAMERA_MAX_LAG));
}

#[test]
fn camera_moves_by_an_exponential_part() {
    let mut camera = CameraFollow::new(d(0.25));
    camera.advance_toward(&Machine, d(0.75), d(0.0625));
    let part = 1.0 - (-8.0 * 0.0625f64).exp();
    assert_eq!(f(camera.x()), 0.25 + 0.5 * part);
    camera.reset(d(10.0));
    camera.advance_toward(&Machine, d(0.0), d(0.0));
    assert_eq!(f(camera.x()), 0.8);
    camera.reset(d(0.0));
    camera.advance_toward(&Machine, d(0.5), d(7.0));
    let part = 1.0 - (-8.0 * 0.1f64).exp();
    assert_eq!(f(camera.x()), 0.5 * part);
}

// ---- Labels ----

#[test]
fn angles_are_shown_within_one_turn() {
    assert_eq!(f(display_angle(&Machine, d(0.5))), 0.5);
    let shown = f(display_angle(&Machine, d(-0.5)));
    assert_eq!(shown, std::f64::consts::TAU - 0.5);
}

#[test]
fn panels_show_labels() {
    assert_eq!(pass_direction_display(PASS_DIRECTION_RIGHT), "右");
    assert_eq!(pass_direction_display(PASS_DIRECTION_LEFT), "左");
    assert_eq!(pass_direction_display(PASS_DIRECTION_NONE), "未");
    assert_eq!(start_label(false), "開始");
    assert_eq!(start_label(true), "停止");
    assert_eq!(point_count_label("0.1024"), "m ( l = 0.1024 )");
    assert_eq!(animation::point_count_label(8), "代表点 17");
    assert_eq!(animation::passed_label(true), "初通過 済");
    assert_eq!(animation::passed_label(false), "初通過 未");
}

// ---- Window ----

fn controls() -> VisualParams {
    VisualParams { seed: 1, m: 2, f: d(0.0), gamma: d(0.0), delta: d(0.0) }
}

fn window(max_steps: u64) -> AnimationApp {
    let physics = Physics { max_steps, ..test_physics() };
    AnimationApp::new(&Machine, controls(), physics)
}

#[test]
fn windows_stand_still_until_started() {
    let mut app = window(5_000);
    assert!(!app.advance(&Machine, d(0.01)));
    assert_eq!(app.simulation.steps, 0);
    assert!(app.press_start(&Machine));
    assert!(app.advance(&Machine, d(0.01)));
    assert_eq!(app.simulation.steps, STEPS_PER_FRAME as u64);
    assert_eq!(app.trail.len(), 2);
    assert_eq!(f(app.trail[1].x), f(app.simulation.x));
    assert!(!app.press_start(&Machine));
    assert!(!app.advance(&Machine, d(0.01)));
    assert_eq!(app.simulation.steps, STEPS_PER_FRAME as u64);
}

#[test]
fn windows_stop_at_the_last_step_and_start_over() {
    let mut app = window(1_500);
    app.press_start(&Machine);
    assert!(app.advance(&Machine, d(0.01)));
    assert!(!app.advance(&Machine, d(0.01)));
    assert_eq!(app.simulation.steps, 1_500);
    assert!(app.simulation.completed);
    assert!(!app.running);
    assert!(app.press_start(&Machine));
    assert_eq!(app.simulation.steps, 0);
    assert_eq!(app.trail.len(), 1);
}

#[test]
fn windows_past_their_last_step_only_complete() {
    let mut app = window(1_500);
    app.press_start(&Machine);
    app.simulation.steps = 1_500;
    let before = (app.simulation.x, app.simulation.y, app.simulation.phi, app.simulation.t);
    app.advance(&Machine, d(0.01));
    assert!(app.simulation.completed);
    assert_eq!(app.simulation.steps, 1_500);
    assert_eq!(
        before,
        (app.simulation.x, app.simulation.y, app.simulation.phi, app.simulation.t)
    );
    assert!(!app.running);
}

#[test]
fn reset_stops_the_window() {
    let mut app = window(5_000);
    app.press_start(&Machine);
    app.advance(&Machine, d(0.01));
    app.press_reset(&Machine);
    assert!(!app.running);
    assert_eq!(app.simulation.steps, 0);
    assert_eq!(f(app.camera.x()), f(app.simulation.x0));
}

#[test]
fn controls_act_as_they_are_changed() {
    let mut app = window(5_000);
    app.press_start(&Machine);
    app.advance(&Machine, d(0.01));
    let x0 = f(app.simulation.x0);
    // A new seed waits.
    app.set_controls(&Machine, VisualParams { seed: 9, ..controls() }, false, false);
    assert_eq!(f(app.simulation.x0), x0);
    assert!(app.running);
    // New forces act at once.
    app.set_controls(&Machine, VisualParams { seed: 9, f: d(3.0), ..controls() }, false, true);
    assert_eq!(f(app.simulation.params.f), 3.0);
    assert_eq!(app.simulation.params.seed, 1);
    assert_eq!(app.simulation.steps, STEPS_PER_FRAME as u64);
    // A new length starts over, with the new seed.
    app.set_controls(&Machine, VisualParams { seed: 9, m: 3, ..controls() }, true, false);
    assert!(!app.running);
    assert_eq!((app.simulation.params.seed, app.simulation.params.m), (9, 3));
    assert_eq!(app.simulation.steps, 0);
    assert_ne!(f(app.simulation.x0), x0);
}

#[test]
fn trails_keep_their_newest_points() {
    let mut app = window(5_000);
    for i in 0..(TRAIL_LIMIT + 10) {
        app.simulation.x = d(i as f64);
        app.push_trail_point();
    }
    assert_eq!(app.trail.len(), TRAIL_LIMIT);
    assert_eq!(f(app.trail[0].x), 10.0);
    assert_eq!(f(app.trail[TRAIL_LIMIT - 1].x), (TRAIL_LIMIT + 9) as f64);
}

// ---- Drawing ----

#[test]
fn walls_are_drawn_in_pieces() {
    assert_eq!(piece_count(&Machine, d(0.0), d(2.001), WALL_DENSITY), 321);
    assert_eq!(piece_count(&Machine, d(-0.5), d(0.5), MIDDLE_DENSITY), 40);
    let places = section_places(&Machine, d(-1.0), d(1.0), 4);
    let shown: Vec<f64> = places.iter().map(|x| f(*x)).collect();
    assert_eq!(shown, vec![-1.0, -0.5, 0.0, 0.5, 1.0]);
    let (top, bottom) = wall_lines(&Machine, &places);
    assert_eq!(top.len(), 5);
    assert_eq!(f(top[1].y), f(omega(&Machine, d(-0.5))));
    assert_eq!(f(bottom[1].y), -f(top[1].y));
    assert_eq!(f(bottom[4].x), 1.0);
}

#[test]
fn only_places_between_the_edges_are_in_view() {
    assert!(in_view(d(1.0), d(1.0), d(2.0)));
    assert!(in_view(d(2.0), d(1.0), d(2.0)));
    assert!(!in_view(d(2.5), d(1.0), d(2.0)));
    assert!(!in_view(d(0.5), d(1.0), d(2.0)));
}

// ---- Window with a speed ----

#[test]
fn rods_with_more_points_make_fewer_steps() {
    assert_eq!(animation::adaptive_step_cap(-3), 8_000);
    assert_eq!(animation::adaptive_step_cap(1), 8_000);
    assert_eq!(animation::adaptive_step_cap(17), 5_647);
    assert_eq!(animation::adaptive_step_cap(61), 1_573);
    assert_eq!(animation::adaptive_step_cap(1_000), 900);
}

#[test]
fn speed_decides_how_many_steps_are_made() {
    let mut app = animation::AnimationApp::new(&Machine, test_physics());
    assert!(!app.advance(&Machine, d(1.0)));
    assert_eq!(app.simulation.steps, 0);
    assert!(app.press_start(&Machine));
    // 2.5 steps are due, half a step is left.
    assert!(app.advance(&Machine, d(2.5 * 4.0e-7)));
    assert_eq!(app.simulation.steps, 2);
    assert!((f(app.step_remainder) - 0.5).abs() < 1.0e-9);
    assert_eq!(app.trail.len(), 2);
    // Nothing is due.
    assert!(app.advance(&Machine, d(0.0)));
    assert_eq!(app.simulation.steps, 2);
    assert_eq!(app.trail.len(), 2);
    // More is due than one frame makes.
    assert!(app.advance(&Machine, d(1.0)));
    assert_eq!(app.simulation.steps, 2 + 5_647);
    assert_eq!(f(app.step_remainder), 0.0);
    app.press_reset(&Machine);
    assert!(!app.running);
    assert_eq!(app.simulation.steps, 0);
}

#[test]
fn any_new_parameter_starts_over() {
    let mut app = animation::AnimationApp::new(&Machine, test_physics());
    app.press_start(&Machine);
    app.advance(&Machine, d(4.1e-6));
    let controls = app.controls;
    app.set_controls(&Machine, controls, d(0.5), false);
    assert_eq!(f(app.speed_scale), 0.5);
    assert_eq!(app.simulation.steps, 10);
    assert!(app.running);
    let faster = cpu_sim::VisualParams { force: d(20.0), ..controls };
    app.set_controls(&Machine, faster, d(0.5), true);
    assert!(!app.running);
    assert_eq!(app.simulation.steps, 0);
    assert_eq!(f(app.simulation.params.force), 20.0);
    assert_eq!(app.trail.len(), 1);
}
