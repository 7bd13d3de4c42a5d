//! What texts tell: numerals, trimmed and joined texts, their order, and fractions.

use vstd::prelude::*;
use crate::double::{weight, Double};
use crate::formula::Arithmetic;
use crate::fraction::{
    finite_or_error, fraction_outcome, fraction_sides, ratio_outcome, read_as, FractionError,
};
use crate::text::{
    digit, joined, numeral, precedes, signed_numeral, trimmed, trimmed_back, trimmed_front,
    trimmed_of, white,
};

verus! {

// ---- Numerals ----

/// Whether a character is a decimal digit.
pub open spec fn is_digit(c: char) -> bool {
    '0' as int <= c as int <= '9' as int
}

/// The number that decimal digits tell.
pub open spec fn told(s: Seq<char>) -> int
    decreases s.len(),
{
    if s.len() == 0 {
        0
    } else {
        told(s.drop_last()) * 10 + (s.last() as int - '0' as int)
    }
}

/// A numeral tells its number: it consists of digits, the first of which is no zero unless it is the
/// only one, and they tell the number.
pub proof fn law_numeral_tells_number(n: nat)
    ensures
        numeral(n).len() > 0,
        forall|i: int| 0 <= i < numeral(n).len() ==> is_digit(#[trigger] numeral(n)[i]),
        told(numeral(n)) == n,
        numeral(n)[0] == '0' ==> n == 0,
    decreases n,
{
    if n < 10 {
        let s = numeral(n);
        assert(s.drop_last() =~= Seq::<char>::empty());
        assert(told(s.drop_last()) == 0);
    } else {
        law_numeral_tells_number(n / 10);
        let front = numeral(n / 10);
        let s = numeral(n);
        assert(s.drop_last() =~= front);
        assert(s[0] == front[0]);
        assert forall|i: int| 0 <= i < s.len() implies is_digit(#[trigger] s[i]) by {
            if i < front.len() {
                assert(s[i] == front[i]);
            }
        }
    }
}

/// A numeral of an integer begins with a minus sign below zero, and the digits tell its size.
pub proof fn law_signed_numeral_tells_number(n: int)
    ensures
        n >= 0 ==> told(signed_numeral(n)) == n && is_digit(signed_numeral(n)[0]),
        n < 0 ==> signed_numeral(n)[0] == '-' && told(signed_numeral(n).skip(1)) == -n,
{
    if n < 0 {
        law_numeral_tells_number((-n) as nat);
        assert(signed_numeral(n).skip(1) =~= numeral((-n) as nat));
    } else {
        law_numeral_tells_number(n as nat);
    }
}

// ---- Trimmed texts ----

/// Whether all characters are white space.
pub open spec fn blank(s: Seq<char>) -> bool {
    forall|i: int| 0 <= i < s.len() ==> white(#[trigger] s[i])
}

proof fn lemma_trimmed_front(s: Seq<char>) -> (front: Seq<char>)
    ensures
        s == front + trimmed_front(s),
        blank(front),
        trimmed_front(s).len() > 0 ==> !white(trimmed_front(s)[0]),
    decreases s.len(),
{
    if s.len() > 0 && white(s[0]) {
        let front = lemma_trimmed_front(s.skip(1));
        let all = seq![s[0]] + front;
        assert(s =~= seq![s[0]] + s.skip(1));
        assert(s =~= all + trimmed_front(s));
        all
    } else {
        assert(s =~= Seq::<char>::empty() + s);
        Seq::empty()
    }
}

proof fn lemma_trimmed_back(s: Seq<char>) -> (back: Seq<char>)
    ensures
        s == trimmed_back(s) + back,
        blank(back),
        trimmed_back(s).len() > 0 ==> !white(trimmed_back(s).last()),
    decreases s.len(),
{
    if s.len() > 0 && white(s.last()) {
        let back = lemma_trimmed_back(s.drop_last());
        let all = back.push(s.last());
        assert(s =~= s.drop_last().push(s.last()));
        assert(s =~= trimmed_back(s) + all);
        all
    } else {
        assert(s =~= s + Seq::<char>::empty());
        Seq::empty()
    }
}

/// A trimmed text is what stands between the white space at the front and the white space at the end of
/// a text; it neither begins nor ends with white space.
pub proof fn law_trimmed(s: Seq<char>)
    ensures
        exists|front: Seq<char>, back: Seq<char>|
            #[trigger] blank(front) && #[trigger] blank(back) && s == front + trimmed(s) + back,
        trimmed(s).len() > 0 ==> !white(trimmed(s)[0]) && !white(trimmed(s).last()),
{
    let front = lemma_trimmed_front(s);
    let middle = trimmed_front(s);
    let back = lemma_trimmed_back(middle);
    assert(blank(front) && blank(back));
    assert(s =~= front + trimmed(s) + back);
    if trimmed(s).len() > 0 {
        assert(middle[0] == trimmed(s)[0]);
    }
}

/// A text is what is left of it without a character at its end, and that character over and over; what
/// is left does not end with it.
pub proof fn law_trimmed_of(s: Seq<char>, c: char)
    ensures
        trimmed_of(s, c).len() <= s.len(),
        s.take(trimmed_of(s, c).len() as int) == trimmed_of(s, c),
        forall|i: int| trimmed_of(s, c).len() <= i < s.len() ==> #[trigger] s[i] == c,
        trimmed_of(s, c).len() > 0 ==> trimmed_of(s, c).last() != c,
    decreases s.len(),
{
    if s.len() > 0 && s.last() == c {
        let front = s.drop_last();
        law_trimmed_of(front, c);
        let n = trimmed_of(s, c).len() as int;
        assert(s.take(n) =~= front.take(n));
        assert forall|i: int| n <= i < s.len() implies #[trigger] s[i] == c by {
            if i < front.len() {
                assert(front[i] == s[i]);
            }
        }
    } else {
        assert(s.take(s.len() as int) =~= s);
    }
}

// ---- Joined texts ----

/// Joined lists can be joined: the texts of both stand one after the other, with one separator between.
pub proof fn law_joined(a: Seq<Seq<char>>, b: Seq<Seq<char>>, separator: Seq<char>)
    requires
        a.len() > 0,
        b.len() > 0,
    ensures
        joined(a + b, separator) == joined(a, separator) + separator + joined(b, separator),
        joined(seq![a[0]], separator) == a[0],
        joined(Seq::empty(), separator) == Seq::<char>::empty(),
    decreases b.len(),
{
    let all = a + b;
    assert(all.last() == b.last());
    if b.len() == 1 {
        assert(all.drop_last() =~= a);
    } else {
        law_joined(a, b.drop_last(), separator);
        assert(all.drop_last() =~= a + b.drop_last());
        assert(joined(all, separator) =~= joined(a, separator) + separator + joined(b, separator));
    }
}

// ---- Order ----

/// Texts are ordered by the first character in which they differ; a text stands before those that go on
/// after it.
pub proof fn law_precedes_by_first_difference(a: Seq<char>, b: Seq<char>, i: int)
    requires
        0 <= i <= a.len(),
        i <= b.len(),
        a.take(i) == b.take(i),
    ensures
        i < a.len() && i < b.len() && a[i] != b[i] ==> (precedes(a, b) <==> (a[i] as int) < b[i] as int),
        i == a.len() && i < b.len() ==> precedes(a, b) && !precedes(b, a),
    decreases i,
{
    if i > 0 {
        assert(a[0] == a.take(i)[0]);
        assert(b[0] == b.take(i)[0]);
        assert(a.skip(1).take(i - 1) =~= a.take(i).skip(1));
        assert(b.skip(1).take(i - 1) =~= b.take(i).skip(1));
        law_precedes_by_first_difference(a.skip(1), b.skip(1), i - 1);
    }
}

// ---- Fractions ----

/// What two numbers come to as a fraction: the first divided by the second, unless that is zero or the
/// quotient is not finite.
pub open spec fn divided<K: Arithmetic>(
    k: &K,
    n: Double,
    d: Double,
    outcome: Result<Double, FractionError>,
) -> bool {
    if !d.nan() && d.value() == 0 {
        outcome == Err::<Double, FractionError>(FractionError::ZeroDenominator)
    } else {
        exists|q: Double|
            {
                &&& #[trigger] call_ensures(K::quotient, (k, n, d), q)
                &&& q.finite() ==> outcome == Ok::<Double, FractionError>(q)
                &&& !q.finite() ==> outcome == Err::<Double, FractionError>(
                    FractionError::NotFinite,
                )
            }
    }
}

/// A text with a slash is what stands before the first slash, divided by what stands behind it. It is
/// malformed where either side is no number.
pub proof fn law_fraction<K: Arithmetic>(
    k: &K,
    front: Seq<char>,
    back: Seq<char>,
    outcome: Result<Double, FractionError>,
)
    requires
        fraction_outcome(k, front.push('/') + back, outcome),
        !front.contains('/'),
    ensures
        exists|upper: Option<Double>|
            {
                &&& #[trigger] read_as(k, trimmed(front), upper)
                &&& match upper {
                    None => outcome == Err::<Double, FractionError>(
                        FractionError::MalformedFraction,
                    ),
                    Some(n) => exists|lower: Option<Double>|
                        {
                            &&& #[trigger] read_as(k, trimmed(back), lower)
                            &&& match lower {
                                None => outcome == Err::<Double, FractionError>(
                                    FractionError::MalformedFraction,
                                ),
                                Some(d) => divided(k, n, d, outcome),
                            }
                        },
                }
            },
{
    let all = front.push('/') + back;
    assert(all[front.len() as int] == '/');
    assert(all.contains('/'));
    let (f, b): (Seq<char>, Seq<char>) = choose|f: Seq<char>, b: Seq<char>|
        {
            &&& all == #[trigger] (f.push('/') + b)
            &&& !f.contains('/')
            &&& ratio_outcome(k, trimmed(f), trimmed(b), outcome)
        };
    lemma_first_slash(front, back, f, b);
    let upper = choose|upper: Option<Double>|
        {
            &&& #[trigger] read_as(k, trimmed(front), upper)
            &&& if upper is None {
                outcome == Err::<Double, FractionError>(FractionError::MalformedFraction)
            } else {
                exists|lower: Option<Double>|
                    {
                        &&& #[trigger] read_as(k, trimmed(back), lower)
                        &&& match fraction_sides(upper, lower) {
                            Err(e) => outcome == Err::<Double, FractionError>(e),
                            Ok((n, d)) => exists|q: Double|
                                #[trigger] call_ensures(K::quotient, (k, n, d), q) && outcome
                                    == finite_or_error(q),
                        }
                    }
            }
        };
    assert(weight(0) == 0);
    if upper is Some {
        let lower = choose|lower: Option<Double>|
            {
                &&& #[trigger] read_as(k, trimmed(back), lower)
                &&& match fraction_sides(upper, lower) {
                    Err(e) => outcome == Err::<Double, FractionError>(e),
                    Ok((n, d)) => exists|q: Double|
                        #[trigger] call_ensures(K::quotient, (k, n, d), q) && outcome
                            == finite_or_error(q),
                }
            };
        assert(read_as(k, trimmed(back), lower));
        if lower is Some {
            assert(divided(k, upper->0, lower->0, outcome));
        }
    }
}

proof fn lemma_first_slash(front: Seq<char>, back: Seq<char>, f: Seq<char>, b: Seq<char>)
    requires
        front.push('/') + back == f.push('/') + b,
        !front.contains('/'),
        !f.contains('/'),
    ensures
        front == f,
        back == b,
{
    let all = front.push('/') + back;
    assert(all[front.len() as int] == '/');
    assert(all[f.len() as int] == '/');
    if f.len() < front.len() {
        assert(front[f.len() as int] == all[f.len() as int]);
    }
    if front.len() < f.len() {
        assert(f[front.len() as int] == (f.push('/') + b)[front.len() as int]);
    }
    assert(front =~= all.take(front.len() as int));
    assert(f =~= all.take(f.len() as int));
    assert(back =~= all.skip(front.len() as int + 1));
    assert(b =~= all.skip(f.len() as int + 1));
}

/// A text without a slash is the number that it reads as, if that is finite.
pub proof fn law_plain_number<K: Arithmetic>(
    k: &K,
    chars: Seq<char>,
    outcome: Result<Double, FractionError>,
)
    requires
        fraction_outcome(k, chars, outcome),
        !chars.contains('/'),
    ensures
        exists|number: Option<Double>|
            {
                &&& #[trigger] read_as(k, trimmed(chars), number)
                &&& match number {
                    None => outcome == Err::<Double, FractionError>(FractionError::MalformedNumber),
                    Some(v) => {
                        &&& v.finite() ==> outcome == Ok::<Double, FractionError>(v)
                        &&& !v.finite() ==> outcome == Err::<Double, FractionError>(
                            FractionError::NotFinite,
                        )
                    },
                }
            },
{
}

} // verus!
