//! Texts and the comparison of doubles.

use nanorod::double::Double;
use nanorod::text::{
    decimal, format_param, join, signed_decimal, sort_dedup, split_once, text_before, trim,
    trim_end_of,
};

fn d(x: f64) -> Double {
    Double::from_bits(x.to_bits())
}

fn f(x: Double) -> f64 {
    f64::from_bits(x.to_bits())
}

fn samples() -> Vec<f64> {
    vec![
        0.0,
        -0.0,
        1.0,
        -1.0,
        0.1,
        -0.1,
        5.0e-324,
        -5.0e-324,
        f64::MAX,
        f64::MIN,
        f64::INFINITY,
        f64::NEG_INFINITY,
        f64::NAN,
        -f64::NAN,
        f64::from_bits(0x7ff0_0000_0000_0001),
    ]
}

// ---- Doubles ----

#[test]
fn doubles_are_classified() {
    for x in samples() {
        assert_eq!(d(x).is_nan(), x.is_nan());
        assert_eq!(d(x).is_finite(), x.is_finite());
        assert_eq!(d(x).is_zero(), x == 0.0);
        assert_eq!(d(x).is_positive_finite(), x.is_finite() && x > 0.0);
        assert_eq!(d(x).neg().to_bits(), (-x).to_bits());
        assert_eq!(d(x).abs().to_bits(), x.abs().to_bits());
    }
    assert_eq!(Double::zero().to_bits(), 0);
    assert!(Double::undefined().is_nan());
}

#[test]
fn doubles_are_compared() {
    for a in samples() {
        for b in samples() {
            assert_eq!(d(a).lt(d(b)), a < b);
            assert_eq!(d(a).le(d(b)), a <= b);
            assert_eq!(d(a).num_eq(d(b)), a == b);
        }
    }
}

#[test]
fn doubles_are_held_between_bounds() {
    assert_eq!(f(d(2.0).clamp(d(-1.0), d(1.0))), 1.0);
    assert_eq!(f(d(-2.0).clamp(d(-1.0), d(1.0))), -1.0);
    assert_eq!(f(d(0.5).clamp(d(-1.0), d(1.0))), 0.5);
    assert!(d(f64::NAN).clamp(d(-1.0), d(1.0)).is_nan());
    assert_eq!(d(-0.0).clamp(d(0.0), d(1.0)).to_bits(), (-0.0f64).to_bits());
}

// ---- Texts ----

#[test]
fn integers_are_written_in_decimal() {
    for n in [0, 1, 9, 10, 12_345, u64::MAX] {
        assert_eq!(decimal(n), n.to_string());
    }
    for n in [0, 7, -7, i64::MAX, i64::MIN] {
        assert_eq!(signed_decimal(n), n.to_string());
    }
}

#[test]
fn texts_are_trimmed_and_split() {
    for text in ["", " ", " a b ", "\t1/2\n", "\u{3000}x\u{a0}", "x"] {
        assert_eq!(trim(text), text.trim());
    }
    assert_eq!(trim_end_of("1.5000", '0'), "1.5");
    assert_eq!(trim_end_of("000", '0'), "");
    assert_eq!(trim_end_of("1", '0'), "1");
    assert_eq!(split_once("1/2/3", '/'), Some(("1", "2/3")));
    assert_eq!(split_once("/", '/'), Some(("", "")));
    assert_eq!(split_once("12", '/'), None);
}

#[test]
fn parameters_are_written_short() {
    assert_eq!(format_param("1.500000"), "1.5");
    assert_eq!(format_param("2.000000"), "2");
    assert_eq!(format_param("-0.000000"), "-0");
    assert_eq!(format_param("0.000000"), "0");
    assert_eq!(format_param("-0.500000"), "-0.5");
    assert_eq!(format_param("100.000000"), "100");
}

#[test]
fn texts_are_joined() {
    let parts = vec!["a".to_string(), "".to_string(), "b".to_string()];
    assert_eq!(join(&parts, "; "), "a; ; b");
    assert_eq!(join(&Vec::new(), "; "), "");
}

#[test]
fn texts_are_sorted_without_repeats() {
    let texts = ["b", "", "ab", "a", "b", "é", "z", "ab"];
    for a in texts {
        for b in texts {
            assert_eq!(text_before(a, b), a < b);
        }
    }
    let mut wanted: Vec<String> = texts.iter().map(|t| t.to_string()).collect();
    let sorted = sort_dedup(&wanted);
    wanted.sort();
    wanted.dedup();
    assert_eq!(sorted, wanted);
}
