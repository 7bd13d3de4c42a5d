//! Numbers that a configuration writes as texts, such as `1/3`.

use vstd::prelude::*;
use vstd::string::*;
use crate::double::Double;
use crate::formula::Arithmetic;
use crate::text;

verus! {

/// Why a text is refused as a number.
#[derive(Clone, Copy, Debug, PartialEq, Eq, Structural)]
pub enum FractionError {
    /// A side of the fraction is no number.
    MalformedFraction,
    ZeroDenominator,
    /// A text without a slash is no number.
    MalformedNumber,
    NotFinite,
}

impl FractionError {
    /// The message for the given text.
    pub open spec fn message_text(self, text: Seq<char>) -> Seq<char> {
        let lead = match self {
            FractionError::MalformedFraction => "不正な分数表記です: \""@,
            FractionError::ZeroDenominator => "分母が0の分数です: \""@,
            FractionError::MalformedNumber => "不正な数値です: \""@,
            FractionError::NotFinite => "有限の数値ではありません: \""@,
        };
        lead + text + "\""@
    }

    /// The message for the given text.
    pub fn message(self, text: &str) -> (message: String)
        ensures
            message@ == self.message_text(text@),
    {
        let mut message = match self {
            FractionError::MalformedFraction => "不正な分数表記です: \"".to_owned(),
            FractionError::ZeroDenominator => "分母が0の分数です: \"".to_owned(),
            FractionError::MalformedNumber => "不正な数値です: \"".to_owned(),
            FractionError::NotFinite => "有限の数値ではありません: \"".to_owned(),
        };
        message.append(text);
        message.append("\"");
        message
    }
}

/// A value as given: finite, or refused.
pub open spec fn finite_or_error(value: Double) -> Result<Double, FractionError> {
    if value.finite() {
        Ok(value)
    } else {
        Err(FractionError::NotFinite)
    }
}

/// The two numbers of a fraction: both present, and the lower one not zero.
pub open spec fn fraction_sides(
    numerator: Option<Double>,
    denominator: Option<Double>,
) -> Result<(Double, Double), FractionError> {
    match (numerator, denominator) {
        (Some(n), Some(d)) => if d.same_number(Double::zero()) {
            Err(FractionError::ZeroDenominator)
        } else {
            Ok((n, d))
        },
        _ => Err(FractionError::MalformedFraction),
    }
}

/// Accepts finite values.
pub fn check_finite(value: Double) -> (r: Result<Double, FractionError>)
    ensures
        r == finite_or_error(value),
{
    if value.is_finite() {
        Ok(value)
    } else {
        Err(FractionError::NotFinite)
    }
}

/// Accepts two numbers with a denominator that is not zero.
pub fn check_sides(numerator: Option<Double>, denominator: Option<Double>) -> (r: Result<
    (Double, Double),
    FractionError,
>)
    ensures
        r == fraction_sides(numerator, denominator),
{
    match (numerator, denominator) {
        (Some(n), Some(d)) => if d.is_zero() {
            Err(FractionError::ZeroDenominator)
        } else {
            Ok((n, d))
        },
        _ => Err(FractionError::MalformedFraction),
    }
}

/// Whether an implementation read `number` from the characters.
pub open spec fn read_as<K: Arithmetic>(k: &K, chars: Seq<char>, number: Option<Double>) -> bool {
    exists|t: &str| t@ == chars && #[trigger] call_ensures(K::parse, (k, t), number)
}

/// What a text stands for. With a slash it is the quotient of the trimmed texts on both sides of
/// the first one, and without a slash the trimmed text itself; either way it must be finite.
pub open spec fn fraction_outcome<K: Arithmetic>(
    k: &K,
    chars: Seq<char>,
    outcome: Result<Double, FractionError>,
) -> bool {
    if chars.contains('/') {
        exists|front: Seq<char>, back: Seq<char>|
            {
                &&& chars == #[trigger] (front.push('/') + back)
                &&& !front.contains('/')
                &&& ratio_outcome(k, text::trimmed(front), text::trimmed(back), outcome)
            }
    } else {
        exists|number: Option<Double>|
            {
                &&& #[trigger] read_as(k, text::trimmed(chars), number)
                &&& match number {
                    None => outcome == Err::<Double, FractionError>(FractionError::MalformedNumber),
                    Some(value) => outcome == finite_or_error(value),
                }
            }
    }
}

/// What the two sides of a fraction stand for. The lower side is read once the upper one is known
/// to be a number.
pub open spec fn ratio_outcome<K: Arithmetic>(
    k: &K,
    front: Seq<char>,
    back: Seq<char>,
    outcome: Result<Double, FractionError>,
) -> bool {
    exists|numerator: Option<Double>|
        {
            &&& #[trigger] read_as(k, front, numerator)
            &&& if numerator is None {
                outcome == Err::<Double, FractionError>(FractionError::MalformedFraction)
            } else {
                exists|denominator: Option<Double>|
                    {
                        &&& #[trigger] read_as(k, back, denominator)
                        &&& match fraction_sides(numerator, denominator) {
                            Err(e) => outcome == Err::<Double, FractionError>(e),
                            Ok((n, d)) => exists|q: Double|
                                #[trigger] call_ensures(K::quotient, (k, n, d), q) && outcome
                                    == finite_or_error(q),
                        }
                    }
            }
        }
}

/// The number that a text such as `1/3` or `0.5` stands for.
pub fn parse_fraction<K: Arithmetic>(k: &K, text: &str) -> (r: Result<Double, FractionError>)
    ensures
        fraction_outcome(k, text@, r),
{
    match text::split_once(text, '/') {
        Some((front, back)) => {
            assert(text@.contains('/')) by {
                assert(text@[front@.len() as int] == '/');
            }
            let upper = text::trim(front);
            let numerator = k.parse(upper);
            assert(read_as(k, text::trimmed(front@), numerator));
            if numerator.is_none() {
                let r: Result<Double, FractionError> = Err(FractionError::MalformedFraction);
                assert(ratio_outcome(k, text::trimmed(front@), text::trimmed(back@), r));
                return r;
            }
            let lower = text::trim(back);
            let denominator = k.parse(lower);
            assert(read_as(k, text::trimmed(back@), denominator));
            let r = match check_sides(numerator, denominator) {
                Err(e) => Err(e),
                Ok((n, d)) => {
                    let q = k.quotient(n, d);
                    assert(call_ensures(K::quotient, (k, n, d), q));
                    check_finite(q)
                },
            };
            assert(ratio_outcome(k, text::trimmed(front@), text::trimmed(back@), r));
            r
        },
        None => {
            let whole = text::trim(text);
            let number = k.parse(whole);
            assert(read_as(k, text::trimmed(text@), number));
            match number {
                None => Err(FractionError::MalformedNumber),
                Some(value) => check_finite(value),
            }
        },
    }
}

/// A value of a parameter list as the configuration writes it.
#[derive(Clone, Debug)]
pub enum FracValue {
    Number(Double),
    Text(String),
}

/// Whether `value` is what an entry stands for. Numbers stand for themselves.
pub open spec fn entry_outcome<K: Arithmetic>(
    k: &K,
    entry: FracValue,
    outcome: Result<Double, FractionError>,
) -> bool {
    match entry {
        FracValue::Number(number) => outcome == Ok::<Double, FractionError>(number),
        FracValue::Text(t) => fraction_outcome(k, t@, outcome),
    }
}

/// Reads a parameter list. The first text that is no number is refused, with its place.
pub fn frac_values<K: Arithmetic>(k: &K, entries: &Vec<FracValue>) -> (r: Result<
    Vec<Double>,
    (usize, FractionError),
>)
    ensures
        match r {
            Ok(values) => {
                &&& values.len() == entries.len()
                &&& forall|i: int|
                    0 <= i < entries.len() ==> entry_outcome(
                        k,
                        #[trigger] entries@[i],
                        Ok(values@[i]),
                    )
            },
            Err((at, e)) => at < entries.len() && entry_outcome(k, entries@[at as int], Err(e))
                && exists|read: Seq<Double>| read.len() == at && forall|i: int|
                0 <= i < at ==> entry_outcome(k, entries@[i], Ok(#[trigger] read[i])),
        },
{
    let mut values: Vec<Double> = Vec::new();
    let mut i: usize = 0;
    while i < entries.len()
        invariant
            i <= entries.len(),
            values.len() == i,
            forall|j: int|
                0 <= j < i ==> entry_outcome(k, #[trigger] entries@[j], Ok(values@[j])),
        decreases entries.len() - i,
    {
        let outcome = match &entries[i] {
            FracValue::Number(number) => Ok(*number),
            FracValue::Text(t) => parse_fraction(k, t.as_str()),
        };
        assert(entry_outcome(k, entries@[i as int], outcome));
        match outcome {
            Ok(value) => {
                values.push(value);
            },
            Err(e) => {
                assert(values@.len() == i && forall|j: int|
                    0 <= j < i ==> entry_outcome(k, entries@[j], Ok(#[trigger] values@[j])));
                return Err((i, e));
            },
        }
        i = i + 1;
    }
    Ok(values)
}

} // verus!
