//! Text that the simulator reads and writes: decimal numerals, trimming, splitting and joining.

use vstd::prelude::*;
use vstd::string::*;

verus! {

// ---- Decimal numerals ----

/// The character of one decimal digit.
pub open spec fn digit(d: int) -> char {
    (('0' as int) + d) as char
}

/// The decimal numeral of a natural number, without leading zeros.
pub open spec fn numeral(n: nat) -> Seq<char>
    decreases n,
{
    if n < 10 {
        seq![digit(n as int)]
    } else {
        numeral(n / 10).push(digit((n % 10) as int))
    }
}

/// The decimal numeral of an integer, with a leading minus sign below zero.
pub open spec fn signed_numeral(n: int) -> Seq<char> {
    if n < 0 {
        seq!['-'] + numeral((-n) as nat)
    } else {
        numeral(n as nat)
    }
}

fn digit_text(d: u64) -> (s: &'static str)
    requires
        d < 10,
    ensures
        s@ == seq![digit(d as int)],
{
    proof {
        reveal_strlit("0");
        reveal_strlit("1");
        reveal_strlit("2");
        reveal_strlit("3");
        reveal_strlit("4");
        reveal_strlit("5");
        reveal_strlit("6");
        reveal_strlit("7");
        reveal_strlit("8");
        reveal_strlit("9");
    }
    let s = match d {
        0 => "0",
        1 => "1",
        2 => "2",
        3 => "3",
        4 => "4",
        5 => "5",
        6 => "6",
        7 => "7",
        8 => "8",
        _ => "9",
    };
    assert(s@ =~= seq![digit(d as int)]);
    s
}

/// The decimal numeral of `n`.
pub fn decimal(n: u64) -> (s: String)
    ensures
        s@ == numeral(n as nat),
    decreases n,
{
    if n < 10 {
        let mut s = String::new();
        s.append(digit_text(n));
        assert(s@ =~= numeral(n as nat));
        s
    } else {
        let mut s = decimal(n / 10);
        s.append(digit_text(n % 10));
        assert(s@ =~= numeral(n as nat));
        s
    }
}

/// The decimal numeral of `n`, signed.
pub fn signed_decimal(n: i64) -> (s: String)
    ensures
        s@ == signed_numeral(n as int),
{
    if n < 0 {
        proof {
            reveal_strlit("-");
        }
        let magnitude: u64 = if n == i64::MIN {
            0x8000_0000_0000_0000
        } else {
            (-n) as u64
        };
        let mut s = String::new();
        s.append("-");
        s.append(decimal(magnitude).as_str());
        assert(s@ =~= signed_numeral(n as int));
        s
    } else {
        decimal(n as u64)
    }
}

proof fn lemma_numeral_shape(n: nat)
    ensures
        numeral(n).len() >= 1,
        n >= 10 ==> numeral(n).len() >= 2,
        forall|i: int|
            0 <= i < numeral(n).len() ==> '0' as int <= #[trigger] numeral(n)[i] as int <= '9' as int,
    decreases n,
{
    if n >= 10 {
        lemma_numeral_shape(n / 10);
    }
}

proof fn lemma_numeral_injective(a: nat, b: nat)
    requires
        numeral(a) == numeral(b),
    ensures
        a == b,
    decreases a,
{
    lemma_numeral_shape(a);
    lemma_numeral_shape(b);
    if a < 10 && b < 10 {
        assert(numeral(a)[0] == digit(a as int));
        assert(numeral(b)[0] == digit(b as int));
        assert(digit(a as int) as int == '0' as int + a);
        assert(digit(b as int) as int == '0' as int + b);
    } else if a >= 10 && b >= 10 {
        let pa = numeral(a / 10);
        let pb = numeral(b / 10);
        assert(numeral(a).last() == digit((a % 10) as int));
        assert(numeral(b).last() == digit((b % 10) as int));
        assert(numeral(a).drop_last() =~= pa);
        assert(numeral(b).drop_last() =~= pb);
        lemma_numeral_injective(a / 10, b / 10);
        assert(digit((a % 10) as int) as int == '0' as int + a % 10);
        assert(digit((b % 10) as int) as int == '0' as int + b % 10);
    }
}

/// Distinct integers have distinct numerals, and a numeral holds only digits and a minus sign.
pub proof fn law_signed_numeral_is_injective(a: int, b: int)
    ensures
        signed_numeral(a) == signed_numeral(b) <==> a == b,
        forall|i: int|
            0 <= i < signed_numeral(a).len() ==> (#[trigger] signed_numeral(a)[i] == '-' || '0' as int
                <= signed_numeral(a)[i] as int <= '9' as int),
{
    let na = if a < 0 { (-a) as nat } else { a as nat };
    let nb = if b < 0 { (-b) as nat } else { b as nat };
    lemma_numeral_shape(na);
    lemma_numeral_shape(nb);
    if signed_numeral(a) == signed_numeral(b) {
        assert(signed_numeral(a)[0] == signed_numeral(b)[0]);
        if a < 0 {
            assert(b < 0);
            assert(signed_numeral(a).skip(1) =~= numeral(na));
            assert(signed_numeral(b).skip(1) =~= numeral(nb));
        } else {
            if b < 0 {
                assert(signed_numeral(b)[0] == '-');
                assert(numeral(na)[0] as int >= '0' as int);
                assert(false);
            }
        }
        lemma_numeral_injective(na, nb);
    }
}

// ---- Trimming and splitting ----

/// The white space of Unicode.
pub open spec fn white(c: char) -> bool {
    let u = c as int;
    ||| 0x09 <= u <= 0x0d
    ||| u == 0x20
    ||| u == 0x85
    ||| u == 0xa0
    ||| u == 0x1680
    ||| 0x2000 <= u <= 0x200a
    ||| u == 0x2028
    ||| u == 0x2029
    ||| u == 0x202f
    ||| u == 0x205f
    ||| u == 0x3000
}

/// The text without the white space at its front.
pub open spec fn trimmed_front(s: Seq<char>) -> Seq<char>
    decreases s.len(),
{
    if s.len() > 0 && white(s[0]) {
        trimmed_front(s.skip(1))
    } else {
        s
    }
}

/// The text without the white space at its end.
pub open spec fn trimmed_back(s: Seq<char>) -> Seq<char>
    decreases s.len(),
{
    if s.len() > 0 && white(s.last()) {
        trimmed_back(s.drop_last())
    } else {
        s
    }
}

/// The text without the white space at either end.
pub open spec fn trimmed(s: Seq<char>) -> Seq<char> {
    trimmed_back(trimmed_front(s))
}

/// The text without the occurrences of `c` at its end.
pub open spec fn trimmed_of(s: Seq<char>, c: char) -> Seq<char>
    decreases s.len(),
{
    if s.len() > 0 && s.last() == c {
        trimmed_of(s.drop_last(), c)
    } else {
        s
    }
}

fn is_white(c: char) -> (b: bool)
    ensures
        b == white(c),
{
    let u: u32 = c as u32;
    (0x09 <= u && u <= 0x0d) || u == 0x20 || u == 0x85 || u == 0xa0 || u == 0x1680 || (0x2000 <= u
        && u <= 0x200a) || u == 0x2028 || u == 0x2029 || u == 0x202f || u == 0x205f || u == 0x3000
}

/// The text without the white space at either end.
pub fn trim<'a>(s: &'a str) -> (r: &'a str)
    ensures
        r@ == trimmed(s@),
{
    let len: usize = s.unicode_len();
    let mut from: usize = 0;
    assert(s@.skip(0) =~= s@);
    while from < len && is_white(s.get_char(from))
        invariant
            from <= len,
            len == s@.len(),
            trimmed_front(s@.skip(from as int)) == trimmed_front(s@),
        decreases len - from,
    {
        assert(s@.skip(from as int).skip(1) =~= s@.skip(from + 1));
        from = from + 1;
    }
    let ghost front = s@.skip(from as int);
    assert(front == trimmed_front(s@)) by {
        if from < len {
            assert(front[0] == s@[from as int]);
        }
    }
    let mut to: usize = len;
    assert(s@.subrange(from as int, to as int) =~= front);
    while from < to && is_white(s.get_char(to - 1))
        invariant
            from <= to <= len,
            len == s@.len(),
            trimmed_back(s@.subrange(from as int, to as int)) == trimmed_back(front),
        decreases to,
    {
        assert(s@.subrange(from as int, to as int).drop_last() =~= s@.subrange(
            from as int,
            to - 1,
        ));
        to = to - 1;
    }
    s.substring_char(from, to)
}

/// The text without the occurrences of `c` at its end.
pub fn trim_end_of<'a>(s: &'a str, c: char) -> (r: &'a str)
    ensures
        r@ == trimmed_of(s@, c),
{
    let len: usize = s.unicode_len();
    let mut to: usize = len;
    assert(s@.subrange(0, len as int) =~= s@);
    while to > 0 && s.get_char(to - 1) == c
        invariant
            to <= len,
            len == s@.len(),
            trimmed_of(s@.subrange(0, to as int), c) == trimmed_of(s@, c),
        decreases to,
    {
        assert(s@.subrange(0, to as int).drop_last() =~= s@.subrange(0, to - 1));
        to = to - 1;
    }
    s.substring_char(0, to)
}

/// The parts of the text before and after the first `c`, if it holds one.
pub fn split_once<'a>(s: &'a str, c: char) -> (r: Option<(&'a str, &'a str)>)
    ensures
        match r {
            Some((front, back)) => s@ == front@.push(c) + back@ && !front@.contains(c),
            None => !s@.contains(c),
        },
{
    let len: usize = s.unicode_len();
    let mut at: usize = 0;
    while at < len && s.get_char(at) != c
        invariant
            at <= len,
            len == s@.len(),
            forall|i: int| 0 <= i < at ==> s@[i] != c,
        decreases len - at,
    {
        at = at + 1;
    }
    if at < len {
        let front = s.substring_char(0, at);
        let back = s.substring_char(at + 1, len);
        assert(s@ =~= front@.push(c) + back@);
        Some((front, back))
    } else {
        None
    }
}

// ---- Parameters in directory names ----

/// The short form of a number that was written with a fixed count of decimals: its trailing zeros
/// are dropped, and the decimal point when nothing is left behind it.
pub open spec fn short_form(text: Seq<char>) -> Seq<char> {
    let short = trimmed_of(trimmed_of(text, '0'), '.');
    if short.len() == 0 || short == seq!['-'] {
        seq!['0']
    } else {
        short
    }
}

/// Shortens the six-decimal text of a parameter for use in a directory name.
pub fn format_param(text: &str) -> (r: String)
    ensures
        r@ == short_form(text@),
{
    let trimmed = trim_end_of(trim_end_of(text, '0'), '.');
    proof {
        reveal_strlit("0");
    }
    let len: usize = trimmed.unicode_len();
    if len == 0 || (len == 1 && trimmed.get_char(0) == '-') {
        assert("0"@ =~= seq!['0']);
        if len == 1 {
            assert(trimmed@ =~= seq!['-']);
        }
        "0".to_owned()
    } else {
        trimmed.to_owned()
    }
}

// ---- Joining ----

/// The texts one after the other, with `separator` between each two.
pub open spec fn joined(parts: Seq<Seq<char>>, separator: Seq<char>) -> Seq<char>
    decreases parts.len(),
{
    if parts.len() == 0 {
        Seq::empty()
    } else if parts.len() == 1 {
        parts[0]
    } else {
        joined(parts.drop_last(), separator) + separator + parts.last()
    }
}

/// The contents of a list of texts.
pub open spec fn texts(parts: Seq<String>) -> Seq<Seq<char>> {
    Seq::new(parts.len(), |i: int| parts[i]@)
}

/// Joins the texts with `separator` between each two.
pub fn join(parts: &Vec<String>, separator: &str) -> (r: String)
    ensures
        r@ == joined(texts(parts@), separator@),
{
    let mut r = String::new();
    let mut i: usize = 0;
    while i < parts.len()
        invariant
            i <= parts.len(),
            r@ == joined(texts(parts@).take(i as int), separator@),
        decreases parts.len() - i,
    {
        let ghost now = texts(parts@).take(i + 1);
        assert(now.drop_last() =~= texts(parts@).take(i as int));
        assert(now.last() == parts@[i as int]@);
        if i > 0 {
            r.append(separator);
        }
        r.append(parts[i].as_str());
        assert(r@ =~= joined(now, separator@));
        i = i + 1;
    }
    assert(texts(parts@).take(i as int) =~= texts(parts@));
    r
}

// ---- Order ----

/// Whether a text stands before another in the order of their characters.
pub open spec fn precedes(a: Seq<char>, b: Seq<char>) -> bool
    decreases a.len(),
{
    if b.len() == 0 {
        false
    } else if a.len() == 0 {
        true
    } else if a[0] != b[0] {
        (a[0] as int) < b[0] as int
    } else {
        precedes(a.skip(1), b.skip(1))
    }
}

/// The order of texts is total, and no text stands before itself.
pub proof fn law_precedes_is_total(a: Seq<char>, b: Seq<char>)
    ensures
        a == b || precedes(a, b) || precedes(b, a),
        !(precedes(a, b) && precedes(b, a)),
        !precedes(a, a),
    decreases a.len(),
{
    if a.len() == 0 {
        if b.len() == 0 {
            assert(a =~= b);
        }
    } else {
        law_precedes_is_total(a.skip(1), a.skip(1));
        if b.len() > 0 && a[0] == b[0] {
            law_precedes_is_total(a.skip(1), b.skip(1));
            assert(a =~= seq![a[0]] + a.skip(1));
            assert(b =~= seq![b[0]] + b.skip(1));
        } else if b.len() > 0 {
            assert((a[0] as int) != (b[0] as int));
        }
    }
}

/// The order of texts is transitive.
pub proof fn law_precedes_is_transitive(a: Seq<char>, b: Seq<char>, c: Seq<char>)
    requires
        precedes(a, b),
        precedes(b, c),
    ensures
        precedes(a, c),
    decreases a.len(),
{
    if a.len() > 0 && a[0] == b[0] && b[0] == c[0] {
        law_precedes_is_transitive(a.skip(1), b.skip(1), c.skip(1));
    }
}

/// Whether a text stands before another in the order of their characters.
pub fn text_before(a: &str, b: &str) -> (r: bool)
    ensures
        r == precedes(a@, b@),
{
    let a_len: usize = a.unicode_len();
    let b_len: usize = b.unicode_len();
    let mut i: usize = 0;
    assert(a@.skip(0) =~= a@);
    assert(b@.skip(0) =~= b@);
    while i < a_len && i < b_len
        invariant
            a_len == a@.len(),
            b_len == b@.len(),
            i <= a_len,
            i <= b_len,
            precedes(a@, b@) == precedes(a@.skip(i as int), b@.skip(i as int)),
        decreases a_len - i,
    {
        let x: char = a.get_char(i);
        let y: char = b.get_char(i);
        assert(a@.skip(i as int)[0] == x);
        assert(b@.skip(i as int)[0] == y);
        if x != y {
            return x < y;
        }
        assert(a@.skip(i as int).skip(1) =~= a@.skip(i + 1));
        assert(b@.skip(i as int).skip(1) =~= b@.skip(i + 1));
        i = i + 1;
    }
    i < b_len
}

/// Whether texts stand in order, without a repetition.
pub open spec fn ordered(parts: Seq<Seq<char>>) -> bool {
    forall|i: int, j: int|
        0 <= i < j < parts.len() ==> precedes(#[trigger] parts[i], #[trigger] parts[j])
}

fn insert_ordered(parts: &mut Vec<String>, text: String)
    requires
        ordered(texts(old(parts)@)),
    ensures
        ordered(texts(final(parts)@)),
        forall|t: Seq<char>| #[trigger]
            texts(final(parts)@).contains(t) <==> t == text@ || texts(old(parts)@).contains(t),
{
    let ghost before = texts(parts@);
    let mut at: usize = 0;
    while at < parts.len() && text_before(parts[at].as_str(), text.as_str())
        invariant
            at <= parts.len(),
            texts(parts@) == before,
            forall|i: int| 0 <= i < at ==> precedes(#[trigger] before[i], text@),
        decreases parts.len() - at,
    {
        at = at + 1;
    }
    if at < parts.len() && !text_before(text.as_str(), parts[at].as_str()) {
        proof {
            law_precedes_is_total(parts@[at as int]@, text@);
            assert(before[at as int] == text@);
        }
        return;
    }
    let ghost wanted = text@;
    proof {
        assert forall|j: int| at <= j < before.len() implies precedes(
            wanted,
            #[trigger] before[j],
        ) by {
            assert(before[at as int] == parts@[at as int]@);
            if j > at {
                law_precedes_is_transitive(wanted, before[at as int], before[j]);
            }
        }
    }
    parts.insert(at, text);
    proof {
        let after = texts(parts@);
        assert(after =~= before.insert(at as int, wanted));
        assert forall|t: Seq<char>| #[trigger] after.contains(t) <==> t == wanted
            || before.contains(t) by {
            if after.contains(t) {
                let i = choose|i: int| 0 <= i < after.len() && after[i] == t;
                if i < at {
                    assert(before[i] == t);
                } else if i > at {
                    assert(before[i - 1] == t);
                }
            }
            if t == wanted {
                assert(after[at as int] == t);
            }
            if before.contains(t) {
                let i = choose|i: int| 0 <= i < before.len() && before[i] == t;
                if i < at {
                    assert(after[i] == t);
                } else {
                    assert(after[i + 1] == t);
                }
            }
        }
        assert forall|i: int, j: int| 0 <= i < j < after.len() implies precedes(
            #[trigger] after[i],
            #[trigger] after[j],
        ) by {
            if i < at && j > at {
                assert(precedes(before[i], before[j - 1]));
            } else if i > at {
                assert(precedes(before[i - 1], before[j - 1]));
            } else if j < at {
                assert(precedes(before[i], before[j]));
            }
        }
    }
}

/// The texts in order, each of them once.
pub fn sort_dedup(parts: &Vec<String>) -> (r: Vec<String>)
    ensures
        ordered(texts(r@)),
        forall|t: Seq<char>| #[trigger]
            texts(r@).contains(t) <==> texts(parts@).contains(t),
{
    let mut r: Vec<String> = Vec::new();
    let mut i: usize = 0;
    assert(texts(parts@).take(0) =~= Seq::<Seq<char>>::empty());
    while i < parts.len()
        invariant
            i <= parts.len(),
            ordered(texts(r@)),
            forall|t: Seq<char>| #[trigger]
                texts(r@).contains(t) <==> texts(parts@).take(i as int).contains(t),
        decreases parts.len() - i,
    {
        let ghost earlier = texts(parts@).take(i as int);
        insert_ordered(&mut r, parts[i].as_str().to_owned());
        proof {
            let later = texts(parts@).take(i + 1);
            assert(later =~= earlier.push(parts@[i as int]@));
            assert forall|t: Seq<char>| #[trigger] texts(r@).contains(t) <==> later.contains(t) by {
                if later.contains(t) {
                    let j = choose|j: int| 0 <= j < later.len() && later[j] == t;
                    if j < i {
                        assert(earlier[j] == t);
                    }
                }
                if earlier.contains(t) {
                    let j = choose|j: int| 0 <= j < earlier.len() && earlier[j] == t;
                    assert(later[j] == t);
                }
                if t == parts@[i as int]@ {
                    assert(later[i as int] == t);
                }
            }
        }
        i = i + 1;
    }
    assert(texts(parts@).take(i as int) =~= texts(parts@));
    r
}

} // verus!
