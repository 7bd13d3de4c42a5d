//! Configurations, their constants, and the cases that they expand into.

use nanorod::cases::{dedup_in_order_f64, dedup_in_order_i32};
use nanorod::config::{
    default_hist_stride, Case, Config, ConfigError, GpuConfig, ListName, Mode,
};
use nanorod::double::Double;
use nanorod::formula::Arithmetic;
use nanorod::fraction::{frac_values, parse_fraction, FracValue, FractionError};
use nanorod::text;

/// The operations of the machine.
struct Machine;

fn d(x: f64) -> Double {
    Double::from_bits(x.to_bits())
}

fn f(x: Double) -> f64 {
    f64::from_bits(x.to_bits())
}

impl Arithmetic for Machine {
    fn sum(&self, a: Double, b: Double) -> Double {
        d(f(a) + f(b))
    }

    fn difference(&self, a: Double, b: Double) -> Double {
        d(f(a) - f(b))
    }

    fn product(&self, a: Double, b: Double) -> Double {
        d(f(a) * f(b))
    }

    fn quotient(&self, a: Double, b: Double) -> Double {
        d(f(a) / f(b))
    }

    fn remainder(&self, a: Double, b: Double) -> Double {
        d(f(a).rem_euclid(f(b)))
    }

    fn square_root(&self, a: Double) -> Double {
        d(f(a).sqrt())
    }

    fn cube_root(&self, a: Double) -> Double {
        d(f(a).cbrt())
    }

    fn sine(&self, a: Double) -> Double {
        d(f(a).sin())
    }

    fn cosine(&self, a: Double) -> Double {
        d(f(a).cos())
    }

    fn arctangent(&self, a: Double) -> Double {
        d(f(a).atan())
    }

    fn logarithm(&self, a: Double) -> Double {
        d(f(a).ln())
    }

    fn exponential(&self, a: Double) -> Double {
        d(f(a).exp())
    }

    fn floor(&self, a: Double) -> Double {
        d(f(a).floor())
    }

    fn nearest(&self, a: Double) -> Double {
        d(f(a).round())
    }

    fn of_signed(&self, n: i64) -> Double {
        d(n as f64)
    }

    fn of_unsigned(&self, n: u64) -> Double {
        d(n as f64)
    }

    fn to_signed(&self, a: Double) -> i64 {
        f(a) as i64
    }

    fn to_unsigned(&self, a: Double) -> u64 {
        f(a) as u64
    }

    fn parse(&self, text: &str) -> Option<Double> {
        match text.parse::<f64>() {
            Ok(x) => Some(d(x)),
            Err(_) => None,
        }
    }

    fn six_decimals(&self, a: Double) -> String {
        format!("{:.6}", f(a))
    }
}

/// The values of a small configuration file.
fn minimal_config() -> Config {
    let gamma = vec![FracValue::Number(d(0.25)), FracValue::Text("1/2".to_string())];
    let delta = vec![FracValue::Text("1/3".to_string())];
    Config {
        delta_t: d(4e-7),
        time: d(100.0),
        mode: Mode::default(),
        ensemble_size: 1000,
        output_dir: "example/".to_string(),
        sigma: d(8e-3),
        epsilon: d(2.0),
        gamma: frac_values(&Machine, &gamma).unwrap(),
        delta: frac_values(&Machine, &delta).unwrap(),
        f: vec![d(1.0), d(2.0), d(3.0)],
        m: vec![1, 4],
        hist_stride: default_hist_stride(),
        gpu: GpuConfig::default(),
    }
}

fn refusal(config: &Config) -> ConfigError {
    match config.validate(&Machine) {
        Ok(()) => panic!("the configuration is accepted"),
        Err(e) => e,
    }
}

#[test]
fn config_parses_fractions_and_defaults() {
    let config = minimal_config();
    config.validate(&Machine).unwrap();

    let gamma: Vec<f64> = config.gamma.iter().map(|x| f(*x)).collect();
    assert_eq!(gamma, vec![0.25, 0.5]);
    assert!((f(config.delta[0]) - 1.0 / 3.0).abs() < 1.0e-15);
    assert_eq!(config.hist_stride, 100);
    assert_eq!(config.mode, Mode::FixedTime);
    assert!(config.gpu.ids.is_none());
}

#[test]
fn config_parses_first_passage_mode() {
    assert_eq!(Mode::from_name("first_passage"), Some(Mode::FirstPassage));
    assert_eq!(Mode::from_name("fixed_time"), Some(Mode::FixedTime));
}

#[test]
fn config_rejects_unknown_mode() {
    assert!(Mode::from_name("both").is_none());
}

#[test]
fn mode_names_lead_back() {
    for mode in [Mode::FirstPassage, Mode::FixedTime] {
        assert_eq!(Mode::from_name(mode.name()), Some(mode));
    }
    assert!(Mode::from_name("").is_none());
    assert!(Mode::from_name("First_passage").is_none());
}

#[test]
fn physics_derives_wall_geometry_from_sigma() {
    let config = minimal_config();
    let physics = config.physics(&Machine).unwrap();

    assert_eq!(physics.n_wall, 500);
    assert!((f(physics.wall_dx) - 0.002).abs() < 1.0e-15);
    assert!((f(physics.particle_dx) - 0.0064).abs() < 1.0e-15);
    assert!((f(physics.diffusion_reference_length) - 0.0384).abs() < 1.0e-15);
    assert_eq!(physics.max_steps, 250_000_000);
    assert!((f(physics.rc2(&Machine)) - 2.0_f64.cbrt() * 8.0e-3 * 8.0e-3).abs() < 1.0e-18);
}

#[test]
fn physics_rejects_sigma_with_non_integer_wall_count() {
    let mut config = minimal_config();
    config.sigma = d(7.7e-3);
    assert!(config.physics(&Machine).is_err());
    let e = config.physics(&Machine).unwrap_err();
    assert!(matches!(e, ConfigError::WallNotDivisible(_)));
    let shown = f(e.shown_number().unwrap());
    assert_eq!(shown, 1.0 / (0.25 * 7.7e-3));
    assert_eq!(
        e.message("519.48"),
        "1周期が壁点間隔 0.25σ で割り切れません（L / 0.25σ = 519.48）。\
         sigma には 1 / (0.25σ) が整数になる値を指定してください"
    );
}

#[test]
fn physics_rejects_too_few_wall_points() {
    let mut config = minimal_config();
    config.sigma = d(0.4);
    let e = config.physics(&Machine).unwrap_err();
    assert!(matches!(e, ConfigError::WallCount(n) if f(n) == 10.0));
    assert_eq!(
        e.message("10"),
        "壁点数 10 が近傍探索窓（11 点）に対して少なすぎるか多すぎます"
    );
}

#[test]
fn cases_form_cartesian_product_in_declared_order() {
    let config = minimal_config();
    let cases = config.cases(&Machine).unwrap();

    assert_eq!(cases.len(), 2 * 2 * 3);
    assert_eq!(cases.first().unwrap().case_id, 0);
    assert_eq!(cases.last().unwrap().case_id, 11);
    assert_eq!(cases[0].m, 1);
    assert_eq!(f(cases[0].f), 1.0);
    assert_eq!(f(cases[1].f), 2.0);
    assert!((f(cases[0].l) - 2.0 * 0.8 * 8.0e-3).abs() < 1.0e-15);
}

#[test]
fn cases_follow_the_nesting_of_the_lists() {
    let config = minimal_config();
    let cases = config.cases(&Machine).unwrap();
    let mut i = 0;
    for m in [1, 4] {
        for gamma in [0.25, 0.5] {
            for force in [1.0, 2.0, 3.0] {
                assert_eq!(cases[i].case_id as usize, i);
                assert_eq!(cases[i].m, m);
                assert_eq!(f(cases[i].gamma), gamma);
                assert_eq!(f(cases[i].delta), 1.0 / 3.0);
                assert_eq!(f(cases[i].f), force);
                i += 1;
            }
        }
    }
    assert_eq!(i, cases.len());
}

#[test]
fn cases_dedup_repeated_values() {
    let mut config = minimal_config();
    config.m = vec![1, 1, 4];
    assert_eq!(config.cases(&Machine).unwrap().len(), 2 * 2 * 3);
}

#[test]
fn lists_keep_the_first_of_equal_values() {
    assert_eq!(dedup_in_order_i32(&vec![3, 1, 3, 2, 1]), vec![3, 1, 2]);
    let kept: Vec<f64> =
        dedup_in_order_f64(&vec![d(0.5), d(0.0), d(-0.0), d(0.5)]).iter().map(|x| f(*x)).collect();
    assert_eq!(kept.len(), 3);
    assert_eq!(kept[0], 0.5);
    assert!(kept[1].is_sign_positive());
    assert!(kept[2].is_sign_negative());
}

#[test]
fn cases_reject_colliding_dir_names() {
    let mut config = minimal_config();
    config.f = vec![d(1e-9), d(2e-9)];
    let error = config.cases(&Machine).unwrap_err();
    assert!(error.message("").contains("重複"));
    assert!(error.message("").contains("m1_f0_gamma0.25_delta0.333333"));
}

#[test]
fn validate_rejects_non_positive_m() {
    let mut config = minimal_config();
    config.m = vec![0];
    let error = config.validate(&Machine).unwrap_err();
    assert!(error.message("").contains("m は1以上"));
    assert_eq!(error.message(""), "m は1以上にしてください（0 が指定されました）");
}

#[test]
fn validate_names_the_first_thing_that_is_wrong() {
    let mut config = minimal_config();
    config.delta_t = d(0.0);
    assert!(matches!(refusal(&config), ConfigError::DeltaT));
    config.delta_t = d(f64::NAN);
    assert_eq!(refusal(&config).message(""), "delta_t は正の値にしてください");

    let mut config = minimal_config();
    config.time = d(f64::INFINITY);
    assert_eq!(refusal(&config).message(""), "time は正の値にしてください");

    let mut config = minimal_config();
    config.time = d(3.9e-7);
    assert_eq!(refusal(&config).message(""), "time / delta_t が1ステップに満たない設定です");
    config.time = config.delta_t;
    config.validate(&Machine).unwrap();

    let mut config = minimal_config();
    config.ensemble_size = 0;
    assert_eq!(
        refusal(&config).message(""),
        "ensemble_size は 1 以上 2147483647 以下にしてください"
    );
    config.ensemble_size = 2147483648;
    assert!(matches!(refusal(&config), ConfigError::EnsembleSize));
    config.ensemble_size = 2147483647;
    config.validate(&Machine).unwrap();

    let mut config = minimal_config();
    config.sigma = d(-1.0);
    assert_eq!(refusal(&config).message(""), "sigma は正の値にしてください");

    let mut config = minimal_config();
    config.epsilon = d(0.0);
    assert_eq!(refusal(&config).message(""), "epsilon は正の値にしてください");

    let mut config = minimal_config();
    config.gamma = Vec::new();
    assert!(matches!(refusal(&config), ConfigError::EmptyList(ListName::Gamma)));
    assert_eq!(refusal(&config).message(""), "gamma には1つ以上の値を指定してください");

    let mut config = minimal_config();
    config.delta = vec![d(1.0), d(f64::INFINITY)];
    assert_eq!(refusal(&config).message(""), "delta に有限でない値が含まれています");

    let mut config = minimal_config();
    config.f = vec![d(f64::NAN)];
    assert_eq!(refusal(&config).message(""), "f に有限でない値が含まれています");

    let mut config = minimal_config();
    config.m = Vec::new();
    assert_eq!(refusal(&config).message(""), "m には1つ以上の値を指定してください");

    let mut config = minimal_config();
    config.m = vec![2, -3, 0];
    assert_eq!(refusal(&config).message(""), "m は1以上にしてください（-3 が指定されました）");
}

#[test]
fn validate_rejects_rods_without_positive_diffusion() {
    let mut config = minimal_config();
    config.sigma = d(2e-3);
    config.m = vec![30, 1];
    let error = refusal(&config);
    assert!(matches!(error, ConfigError::DiffusionOutOfRange { m: 1, .. }));
    assert!((f(error.shown_number().unwrap()) - 0.0032).abs() < 1.0e-12);
    assert_eq!(
        error.message("0.003200"),
        "m = 1（棒長 l = 0.003200）は拡散係数の式（Tirado）の適用範囲外です。\
         sigma または m を見直してください"
    );
}

#[test]
fn parse_fraction_accepts_fractions_and_decimals() {
    assert!((f(parse_fraction(&Machine, "1/3").unwrap()) - 1.0 / 3.0).abs() < 1.0e-15);
    assert_eq!(f(parse_fraction(&Machine, "0.5").unwrap()), 0.5);
    assert_eq!(f(parse_fraction(&Machine, " 3 / 4 ").unwrap()), 0.75);
    assert!(parse_fraction(&Machine, "1/0").is_err());
    assert!(parse_fraction(&Machine, "abc").is_err());
}

#[test]
fn parse_fraction_tells_why_a_text_is_refused() {
    let cases = [
        ("1/x", FractionError::MalformedFraction, "不正な分数表記です: \"1/x\""),
        ("x/1", FractionError::MalformedFraction, "不正な分数表記です: \"x/1\""),
        ("1/2/3", FractionError::MalformedFraction, "不正な分数表記です: \"1/2/3\""),
        ("1/-0", FractionError::ZeroDenominator, "分母が0の分数です: \"1/-0\""),
        ("", FractionError::MalformedNumber, "不正な数値です: \"\""),
        ("inf", FractionError::NotFinite, "有限の数値ではありません: \"inf\""),
        ("1e308/1e-308", FractionError::NotFinite, "有限の数値ではありません: \"1e308/1e-308\""),
    ];
    for (text, error, message) in cases {
        assert_eq!(parse_fraction(&Machine, text), Err(error));
        assert_eq!(error.message(text), message);
    }
}

#[test]
fn lists_name_the_place_of_a_refused_text() {
    let entries = vec![
        FracValue::Number(d(1.0)),
        FracValue::Text("\u{3000}2\n".to_string()),
        FracValue::Text("1/0".to_string()),
        FracValue::Text("y".to_string()),
    ];
    assert_eq!(frac_values(&Machine, &entries), Err((2, FractionError::ZeroDenominator)));
}

#[test]
fn case_dir_name_trims_trailing_zeros() {
    let case = Case {
        case_id: 0,
        m: 3,
        l: d(0.0),
        gamma: d(1.0),
        delta: d(1.0 / 3.0),
        f: d(0.0),
    };
    assert_eq!(case.dir_name(&Machine), "m3_f0_gamma1_delta0.333333");
}

#[test]
fn dir_names_depend_on_the_parameters_alone() {
    let case = Case {
        case_id: 0,
        m: 3,
        l: d(0.1),
        gamma: d(1.0),
        delta: d(1.0 / 3.0),
        f: d(2.5),
    };
    let other = Case { case_id: 8, l: d(0.7), ..case };
    assert_eq!(case.dir_name(&Machine), other.dir_name(&Machine));
    let other = Case { f: d(2.0), ..case };
    assert_ne!(case.dir_name(&Machine), other.dir_name(&Machine));
}

#[test]
fn dir_names_of_other_numbers() {
    let case = Case {
        case_id: 0,
        m: 12,
        l: d(0.0),
        gamma: d(-0.5),
        delta: d(100.0),
        f: d(1e-9),
    };
    assert_eq!(case.dir_name(&Machine), "m12_f0_gamma-0.5_delta100");
    assert_eq!(text::format_param("-0.000000"), "-0");
    assert_eq!(text::format_param("000"), "0");
    assert_eq!(text::format_param("-"), "0");
}

#[test]
fn case_seed_is_deterministic_and_distinct() {
    let base = Case {
        case_id: 0,
        m: 3,
        l: d(0.0384),
        gamma: d(1.0),
        delta: d(0.5),
        f: d(2.0),
    };
    let same = Case { case_id: 9, ..base };
    let different = Case { f: d(3.0), ..base };

    assert_eq!(base.seed(), same.seed());
    assert_ne!(base.seed(), different.seed());
}

#[test]
fn case_seed_mixes_the_bits_of_all_parameters() {
    let case = Case {
        case_id: 4,
        m: 3,
        l: d(0.0384),
        gamma: d(1.0),
        delta: d(0.5),
        f: d(2.0),
    };
    let mut hash: u64 = 0xcbf2_9ce4_8422_2325;
    for bits in [3u64, 1.0f64.to_bits(), 0.5f64.to_bits(), 2.0f64.to_bits()] {
        hash = (hash ^ bits).wrapping_mul(0x0000_0100_0000_01b3);
    }
    assert_eq!(case.seed(), hash);
}
