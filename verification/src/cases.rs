//! The expansion of a configuration into cases, their directory names and their seeds.

use vstd::prelude::*;
use vstd::string::*;
use crate::config::{
    geometry, particle_length, particle_length_gives, Case, Config, ConfigError, Geometry, Physics,
};
use crate::double::Double;
use crate::formula::Arithmetic;
use crate::text;

verus! {

// ---- Lists without repetition ----

/// The values of a list in the order of their first occurrence, each once.
pub open spec fn distinct_in_order<T>(values: Seq<T>) -> Seq<T>
    decreases values.len(),
{
    if values.len() == 0 {
        Seq::empty()
    } else {
        let front = distinct_in_order(values.drop_last());
        if front.contains(values.last()) {
            front
        } else {
            front.push(values.last())
        }
    }
}

fn holds_i32(list: &Vec<i32>, value: i32) -> (b: bool)
    ensures
        b == list@.contains(value),
{
    let mut j: usize = 0;
    while j < list.len()
        invariant
            j <= list.len(),
            forall|p: int| 0 <= p < j ==> list@[p] != value,
        decreases list.len() - j,
    {
        if list[j] == value {
            return true;
        }
        j = j + 1;
    }
    false
}

fn holds_double(list: &Vec<Double>, value: Double) -> (b: bool)
    ensures
        b == list@.contains(value),
{
    let mut j: usize = 0;
    while j < list.len()
        invariant
            j <= list.len(),
            forall|p: int| 0 <= p < j ==> list@[p] != value,
        decreases list.len() - j,
    {
        if list[j].bits == value.bits {
            assert(list@[j as int] == value);
            return true;
        }
        j = j + 1;
    }
    false
}

/// Drops the repetitions from a list of integers and keeps the order.
pub fn dedup_in_order_i32(values: &Vec<i32>) -> (unique: Vec<i32>)
    ensures
        unique@ == distinct_in_order(values@),
{
    let mut unique: Vec<i32> = Vec::new();
    let mut i: usize = 0;
    while i < values.len()
        invariant
            i <= values.len(),
            unique@ == distinct_in_order(values@.take(i as int)),
        decreases values.len() - i,
    {
        let value: i32 = values[i];
        assert(values@.take(i + 1).drop_last() =~= values@.take(i as int));
        if !holds_i32(&unique, value) {
            unique.push(value);
        }
        i = i + 1;
    }
    assert(values@.take(i as int) =~= values@);
    unique
}

/// Drops the repetitions from a list of real numbers and keeps the order. Numbers count as equal
/// when their bit patterns are.
pub fn dedup_in_order_f64(values: &Vec<Double>) -> (unique: Vec<Double>)
    ensures
        unique@ == distinct_in_order(values@),
{
    let mut unique: Vec<Double> = Vec::new();
    let mut i: usize = 0;
    while i < values.len()
        invariant
            i <= values.len(),
            unique@ == distinct_in_order(values@.take(i as int)),
        decreases values.len() - i,
    {
        let value = values[i];
        assert(values@.take(i + 1).drop_last() =~= values@.take(i as int));
        if !holds_double(&unique, value) {
            unique.push(value);
        }
        i = i + 1;
    }
    assert(values@.take(i as int) =~= values@);
    unique
}

/// A deduplicated list holds every value of the list, no other, and none twice; it is its own
/// deduplication.
pub proof fn law_dedup<T>(values: Seq<T>)
    ensures
        distinct_in_order(values).no_duplicates(),
        forall|v: T| #[trigger] distinct_in_order(values).contains(v) <==> values.contains(v),
        distinct_in_order(values).len() <= values.len(),
        values.no_duplicates() ==> distinct_in_order(values) == values,
    decreases values.len(),
{
    if values.len() > 0 {
        let front = values.drop_last();
        law_dedup(front);
        let d = distinct_in_order(front);
        let all = distinct_in_order(values);
        assert forall|v: T| #[trigger] all.contains(v) <==> values.contains(v) by {
            if all.contains(v) {
                if d.contains(v) {
                    let i = choose|i: int| 0 <= i < front.len() && front[i] == v;
                    assert(values[i] == v);
                } else {
                    let i = choose|i: int| 0 <= i < all.len() && all[i] == v;
                    if i < d.len() {
                        assert(d[i] == v);
                    }
                    assert(values[values.len() - 1] == v);
                }
            }
            if values.contains(v) {
                let i = choose|i: int| 0 <= i < values.len() && values[i] == v;
                if i < front.len() {
                    assert(front[i] == v);
                    assert(d.contains(v));
                    let j = choose|j: int| 0 <= j < d.len() && d[j] == v;
                    assert(all[j] == v);
                } else if !d.contains(values.last()) {
                    assert(all[d.len() as int] == v);
                }
            }
        }
        assert(all.no_duplicates()) by {
            if !d.contains(values.last()) {
                assert forall|i: int, j: int|
                    0 <= i < all.len() && 0 <= j < all.len() && i != j implies all[i] != all[j] by {
                    if i < d.len() {
                        assert(d.contains(d[i]));
                    }
                    if j < d.len() {
                        assert(d.contains(d[j]));
                    }
                }
            }
        }
        if values.no_duplicates() {
            assert(front.no_duplicates()) by {
                assert forall|i: int, j: int|
                    0 <= i < front.len() && 0 <= j < front.len() && i != j implies front[i]
                    != front[j] by {
                    assert(values[i] != values[j]);
                }
            }
            assert(!front.contains(values.last())) by {
                if front.contains(values.last()) {
                    let i = choose|i: int| 0 <= i < front.len() && front[i] == values.last();
                    assert(values[i] != values[values.len() - 1]);
                }
            }
            assert(all =~= values);
        }
    } else {
        assert(distinct_in_order(values) =~= values);
    }
}

/// A longer list extends what a shorter one gave: first occurrences keep their places.
pub proof fn law_dedup_keeps_order<T>(values: Seq<T>, more: Seq<T>)
    ensures
        distinct_in_order(values).is_prefix_of(distinct_in_order(values + more)),
    decreases more.len(),
{
    if more.len() == 0 {
        assert(values + more =~= values);
    } else {
        law_dedup_keeps_order(values, more.drop_last());
        assert((values + more).drop_last() =~= values + more.drop_last());
    }
}

// ---- Directory names ----

/// The directory name of a case, from the six-decimal texts of its parameters.
pub open spec fn dir_name_text(
    m: i32,
    f_text: Seq<char>,
    gamma_text: Seq<char>,
    delta_text: Seq<char>,
) -> Seq<char> {
    "m"@ + text::signed_numeral(m as int) + "_f"@ + text::short_form(f_text) + "_gamma"@
        + text::short_form(gamma_text) + "_delta"@ + text::short_form(delta_text)
}

/// Whether an implementation gave `t` as the six-decimal text of `value`.
pub open spec fn written<K: Arithmetic>(k: &K, value: Double, t: String) -> bool {
    call_ensures(K::six_decimals, (k, value), t)
}

impl Case {
    /// Whether `name` is the directory name of the case, from texts that an implementation gave
    /// for its parameters.
    pub open spec fn named<K: Arithmetic>(self, k: &K, name: Seq<char>) -> bool {
        exists|f_text: String, gamma_text: String, delta_text: String|
            {
                &&& #[trigger] written(k, self.f, f_text)
                &&& #[trigger] written(k, self.gamma, gamma_text)
                &&& #[trigger] written(k, self.delta, delta_text)
                &&& name == dir_name_text(self.m, f_text@, gamma_text@, delta_text@)
            }
    }

    /// The directory name of the case, such as `m3_f10_gamma1_delta0.333333`, from the
    /// six-decimal texts of its parameters.
    pub fn dir_name_from(&self, f_text: &str, gamma_text: &str, delta_text: &str) -> (name: String)
        ensures
            name@ == dir_name_text(self.m, f_text@, gamma_text@, delta_text@),
    {
        let mut name = "m".to_owned();
        name.append(text::signed_decimal(self.m as i64).as_str());
        name.append("_f");
        name.append(text::format_param(f_text).as_str());
        name.append("_gamma");
        name.append(text::format_param(gamma_text).as_str());
        name.append("_delta");
        name.append(text::format_param(delta_text).as_str());
        name
    }

    /// The name of the directory that receives the results of the case.
    pub fn dir_name<K: Arithmetic>(&self, k: &K) -> (name: String)
        ensures
            self.named(k, name@),
    {
        let f_text = k.six_decimals(self.f);
        let gamma_text = k.six_decimals(self.gamma);
        let delta_text = k.six_decimals(self.delta);
        assert(written(k, self.f, f_text));
        assert(written(k, self.gamma, gamma_text));
        assert(written(k, self.delta, delta_text));
        self.dir_name_from(f_text.as_str(), gamma_text.as_str(), delta_text.as_str())
    }
}

// ---- Expansion ----

/// The place of a combination in the expansion: f varies fastest, then delta, gamma and m.
pub open spec fn place(
    m_at: int,
    gamma_at: int,
    delta_at: int,
    f_at: int,
    gammas: int,
    deltas: int,
    fs: int,
) -> int {
    ((m_at * gammas + gamma_at) * deltas + delta_at) * fs + f_at
}

/// Whether `case` is the one at place `i` of the expansion of the four lists.
pub open spec fn case_at<K: Arithmetic>(
    k: &K,
    physics: Physics,
    ms: Seq<i32>,
    gammas: Seq<Double>,
    deltas: Seq<Double>,
    fs: Seq<Double>,
    i: int,
    case: Case,
) -> bool {
    let (nf, nd, ng) = (fs.len() as int, deltas.len() as int, gammas.len() as int);
    &&& case.case_id == i as u32
    &&& case.m == ms[i / nf / nd / ng]
    &&& case.gamma == gammas[(i / nf / nd) % ng]
    &&& case.delta == deltas[(i / nf) % nd]
    &&& case.f == fs[i % nf]
    &&& particle_length_gives(k, physics.particle_dx, case.m, case.l)
}

/// Whether `cases` holds every combination of the four lists, in order.
pub open spec fn expansion<K: Arithmetic>(
    k: &K,
    physics: Physics,
    ms: Seq<i32>,
    gammas: Seq<Double>,
    deltas: Seq<Double>,
    fs: Seq<Double>,
    cases: Seq<Case>,
) -> bool {
    &&& cases.len() == place(
        ms.len() as int,
        0,
        0,
        0,
        gammas.len() as int,
        deltas.len() as int,
        fs.len() as int,
    )
    &&& forall|i: int|
        0 <= i < cases.len() ==> case_at(
            k,
            physics,
            ms,
            gammas,
            deltas,
            fs,
            i,
            #[trigger] cases[i],
        )
}

proof fn lemma_place_decodes(
    a: int,
    b: int,
    c: int,
    d: int,
    gammas: int,
    deltas: int,
    fs: int,
)
    requires
        0 <= a,
        0 <= b < gammas,
        0 <= c < deltas,
        0 <= d < fs,
    ensures
        ({
            let i = place(a, b, c, d, gammas, deltas, fs);
            &&& 0 <= i
            &&& i % fs == d
            &&& (i / fs) % deltas == c
            &&& (i / fs / deltas) % gammas == b
            &&& i / fs / deltas / gammas == a
        }),
{
    let z = a * gammas + b;
    let y = z * deltas + c;
    let i = y * fs + d;
    assert(0 <= z && 0 <= y && 0 <= i) by (nonlinear_arith)
        requires
            0 <= a,
            0 <= b < gammas,
            0 <= c < deltas,
            0 <= d < fs,
            z == a * gammas + b,
            y == z * deltas + c,
            i == y * fs + d,
    ;
    vstd::arithmetic::div_mod::lemma_fundamental_div_mod_converse(i, fs, y, d);
    vstd::arithmetic::div_mod::lemma_fundamental_div_mod_converse(y, deltas, z, c);
    vstd::arithmetic::div_mod::lemma_fundamental_div_mod_converse(z, gammas, a, b);
}

proof fn lemma_place_carries(a: int, b: int, c: int, gammas: int, deltas: int, fs: int)
    ensures
        place(a, b, c, fs, gammas, deltas, fs) == place(a, b, c + 1, 0, gammas, deltas, fs),
        place(a, b, deltas, 0, gammas, deltas, fs) == place(a, b + 1, 0, 0, gammas, deltas, fs),
        place(a, gammas, 0, 0, gammas, deltas, fs) == place(a + 1, 0, 0, 0, gammas, deltas, fs),
{
    let z = a * gammas + b;
    assert((z * deltas + c) * fs + fs == (z * deltas + c + 1) * fs) by (nonlinear_arith);
    assert((z * deltas + deltas) == (z + 1) * deltas) by (nonlinear_arith);
    assert(a * gammas + gammas == (a + 1) * gammas) by (nonlinear_arith);
}

/// Every combination of the four lists stands at exactly one place of the expansion, at the place
/// that its positions in the lists give.
pub proof fn law_every_combination_once<K: Arithmetic>(
    k: &K,
    physics: Physics,
    ms: Seq<i32>,
    gammas: Seq<Double>,
    deltas: Seq<Double>,
    fs: Seq<Double>,
    cases: Seq<Case>,
    a: int,
    b: int,
    c: int,
    d: int,
)
    requires
        expansion(k, physics, ms, gammas, deltas, fs, cases),
        ms.no_duplicates(),
        gammas.no_duplicates(),
        deltas.no_duplicates(),
        fs.no_duplicates(),
        0 <= a < ms.len(),
        0 <= b < gammas.len(),
        0 <= c < deltas.len(),
        0 <= d < fs.len(),
    ensures
        ({
            let i = place(a, b, c, d, gammas.len() as int, deltas.len() as int, fs.len() as int);
            &&& 0 <= i < cases.len()
            &&& cases[i].m == ms[a] && cases[i].gamma == gammas[b] && cases[i].delta == deltas[c]
                && cases[i].f == fs[d]
            &&& forall|j: int|
                0 <= j < cases.len() && (#[trigger] cases[j]).m == ms[a] && cases[j].gamma
                    == gammas[b] && cases[j].delta == deltas[c] && cases[j].f == fs[d] ==> j == i
        }),
{
    let (nm, ng, nd, nf) = (
        ms.len() as int,
        gammas.len() as int,
        deltas.len() as int,
        fs.len() as int,
    );
    let i = place(a, b, c, d, ng, nd, nf);
    lemma_place_decodes(a, b, c, d, ng, nd, nf);
    assert(i < cases.len()) by {
        lemma_place_below(a, b, c, d, nm, ng, nd, nf);
    }
    assert forall|j: int|
        0 <= j < cases.len() && (#[trigger] cases[j]).m == ms[a] && cases[j].gamma == gammas[b]
            && cases[j].delta == deltas[c] && cases[j].f == fs[d] implies j == i by {
        assert(case_at(k, physics, ms, gammas, deltas, fs, j, cases[j]));
        let y = j / nf;
        let z = y / nd;
        vstd::arithmetic::div_mod::lemma_fundamental_div_mod(j, nf);
        vstd::arithmetic::div_mod::lemma_fundamental_div_mod(y, nd);
        vstd::arithmetic::div_mod::lemma_fundamental_div_mod(z, ng);
        lemma_place_bounds(j, nm, ng, nd, nf);
        assert(nf * y == y * nf && nd * z == z * nd && ng * (z / ng) == (z / ng) * ng)
            by (nonlinear_arith);
        assert(j == place(z / ng, z % ng, y % nd, j % nf, ng, nd, nf));
    }
}

proof fn lemma_place_below(
    a: int,
    b: int,
    c: int,
    d: int,
    nm: int,
    ng: int,
    nd: int,
    nf: int,
)
    requires
        0 <= a < nm,
        0 <= b < ng,
        0 <= c < nd,
        0 <= d < nf,
    ensures
        0 <= place(a, b, c, d, ng, nd, nf) < place(nm, 0, 0, 0, ng, nd, nf),
{
    let z = a * ng + b;
    let y = z * nd + c;
    assert(0 <= z < nm * ng) by (nonlinear_arith)
        requires
            0 <= a < nm,
            0 <= b < ng,
            z == a * ng + b,
    ;
    let zt = nm * ng;
    assert(0 <= y < zt * nd) by (nonlinear_arith)
        requires
            0 <= z < zt,
            0 <= c < nd,
            y == z * nd + c,
    ;
    let yt = zt * nd;
    assert(0 <= y * nf + d < yt * nf) by (nonlinear_arith)
        requires
            0 <= y < yt,
            0 <= d < nf,
    ;
}

proof fn lemma_place_bounds(j: int, nm: int, ng: int, nd: int, nf: int)
    requires
        0 <= j < place(nm, 0, 0, 0, ng, nd, nf),
        0 < nm,
        0 < ng,
        0 < nd,
        0 < nf,
    ensures
        0 <= j % nf < nf,
        0 <= (j / nf) % nd < nd,
        0 <= (j / nf / nd) % ng < ng,
        0 <= j / nf / nd / ng < nm,
{
    let y = j / nf;
    let z = y / nd;
    let zt = nm * ng;
    let yt = zt * nd;
    assert(0 <= y < yt) by (nonlinear_arith)
        requires
            0 <= j < yt * nf,
            0 < nf,
            y == j / nf,
    ;
    assert(0 <= z < zt) by (nonlinear_arith)
        requires
            0 <= y < zt * nd,
            0 < nd,
            z == y / nd,
    ;
    assert(0 <= z / ng < nm) by (nonlinear_arith)
        requires
            0 <= z < nm * ng,
            0 < ng,
    ;
}

fn expand<K: Arithmetic>(
    k: &K,
    physics: &Physics,
    ms: &Vec<i32>,
    gammas: &Vec<Double>,
    deltas: &Vec<Double>,
    fs: &Vec<Double>,
) -> (cases: Vec<Case>)
    ensures
        expansion(k, *physics, ms@, gammas@, deltas@, fs@, cases@),
{
    let ghost (ng, nd, nf) = (gammas.len() as int, deltas.len() as int, fs.len() as int);
    let mut cases: Vec<Case> = Vec::new();
    let mut a: usize = 0;
    assert(place(0, 0, 0, 0, ng, nd, nf) == 0) by (nonlinear_arith);
    while a < ms.len()
        invariant
            a <= ms.len(),
            ng == gammas.len(),
            nd == deltas.len(),
            nf == fs.len(),
            cases.len() == place(a as int, 0, 0, 0, ng, nd, nf),
            forall|i: int|
                0 <= i < cases.len() ==> case_at(
                    k,
                    *physics,
                    ms@,
                    gammas@,
                    deltas@,
                    fs@,
                    i,
                    #[trigger] cases@[i],
                ),
        decreases ms.len() - a,
    {
        let m: i32 = ms[a];
        let l = particle_length(k, physics.particle_dx, m);
        let mut b: usize = 0;
        while b < gammas.len()
            invariant
                a < ms.len(),
                b <= gammas.len(),
                ng == gammas.len(),
                nd == deltas.len(),
                nf == fs.len(),
                m == ms@[a as int],
                particle_length_gives(k, physics.particle_dx, m, l),
                cases.len() == place(a as int, b as int, 0, 0, ng, nd, nf),
                forall|i: int|
                    0 <= i < cases.len() ==> case_at(
                        k,
                        *physics,
                        ms@,
                        gammas@,
                        deltas@,
                        fs@,
                        i,
                        #[trigger] cases@[i],
                    ),
            decreases gammas.len() - b,
        {
            let mut c: usize = 0;
            while c < deltas.len()
                invariant
                    a < ms.len(),
                    b < gammas.len(),
                    c <= deltas.len(),
                    ng == gammas.len(),
                    nd == deltas.len(),
                    nf == fs.len(),
                    m == ms@[a as int],
                    particle_length_gives(k, physics.particle_dx, m, l),
                    cases.len() == place(a as int, b as int, c as int, 0, ng, nd, nf),
                    forall|i: int|
                        0 <= i < cases.len() ==> case_at(
                            k,
                            *physics,
                            ms@,
                            gammas@,
                            deltas@,
                            fs@,
                            i,
                            #[trigger] cases@[i],
                        ),
                decreases deltas.len() - c,
            {
                let mut d: usize = 0;
                while d < fs.len()
                    invariant
                        a < ms.len(),
                        b < gammas.len(),
                        c < deltas.len(),
                        d <= fs.len(),
                        ng == gammas.len(),
                        nd == deltas.len(),
                        nf == fs.len(),
                        m == ms@[a as int],
                        particle_length_gives(k, physics.particle_dx, m, l),
                        cases.len() == place(a as int, b as int, c as int, d as int, ng, nd, nf),
                        forall|i: int|
                            0 <= i < cases.len() ==> case_at(
                                k,
                                *physics,
                                ms@,
                                gammas@,
                                deltas@,
                                fs@,
                                i,
                                #[trigger] cases@[i],
                            ),
                    decreases fs.len() - d,
                {
                    proof {
                        lemma_place_decodes(a as int, b as int, c as int, d as int, ng, nd, nf);
                    }
                    let case = Case {
                        case_id: cases.len() as u32,
                        m,
                        l,
                        gamma: gammas[b],
                        delta: deltas[c],
                        f: fs[d],
                    };
                    assert(case_at(
                        k,
                        *physics,
                        ms@,
                        gammas@,
                        deltas@,
                        fs@,
                        cases.len() as int,
                        case,
                    ));
                    cases.push(case);
                    d = d + 1;
                }
                proof {
                    lemma_place_carries(a as int, b as int, c as int, ng, nd, nf);
                }
                c = c + 1;
            }
            proof {
                lemma_place_carries(a as int, b as int, c as int, ng, nd, nf);
            }
            b = b + 1;
        }
        proof {
            lemma_place_carries(a as int, b as int, 0, ng, nd, nf);
        }
        a = a + 1;
    }
    cases
}

/// Whether `names` are the directory names of the first cases of the list.
pub open spec fn named_in_order<K: Arithmetic>(
    k: &K,
    cases: Seq<Case>,
    names: Seq<Seq<char>>,
) -> bool {
    &&& names.len() <= cases.len()
    &&& forall|i: int| 0 <= i < names.len() ==> cases[i].named(k, #[trigger] names[i])
}

/// The outcome of an expansion: the cases themselves when all directory names differ, and
/// otherwise the first name that repeats an earlier one.
pub open spec fn expansion_outcome<K: Arithmetic>(
    k: &K,
    cases: Seq<Case>,
    outcome: Result<Vec<Case>, ConfigError>,
) -> bool {
    exists|names: Seq<Seq<char>>|
        {
            &&& #[trigger] named_in_order(k, cases, names)
            &&& match outcome {
                Ok(list) => list@ == cases && names.len() == cases.len() && names.no_duplicates(),
                Err(e) => {
                    &&& names.len() > 0
                    &&& names.drop_last().no_duplicates()
                    &&& names.drop_last().contains(names.last())
                    &&& e matches ConfigError::DuplicateDirectory(name) && name@ == names.last()
                },
            }
        }
}

fn holds_text(list: &Vec<String>, value: &String) -> (b: bool)
    ensures
        b == text::texts(list@).contains(value@),
{
    let mut j: usize = 0;
    while j < list.len()
        invariant
            j <= list.len(),
            forall|p: int| 0 <= p < j ==> (#[trigger] list@[p])@ != value@,
        decreases list.len() - j,
    {
        if list[j] == *value {
            assert(text::texts(list@)[j as int] == value@);
            return true;
        }
        j = j + 1;
    }
    assert(!text::texts(list@).contains(value@)) by {
        if text::texts(list@).contains(value@) {
            let p = choose|p: int|
                0 <= p < text::texts(list@).len() && text::texts(list@)[p] == value@;
            assert(list@[p]@ == value@);
        }
    }
    false
}

impl Config {
    /// Whether `cases` is the expansion of this configuration: all combinations of the values of
    /// its lists, repetitions dropped.
    pub open spec fn expands_to<K: Arithmetic>(
        self,
        k: &K,
        physics: Physics,
        cases: Seq<Case>,
    ) -> bool {
        expansion(
            k,
            physics,
            distinct_in_order(self.m@),
            distinct_in_order(self.gamma@),
            distinct_in_order(self.delta@),
            distinct_in_order(self.f@),
            cases,
        )
    }

    /// Expands the lists into cases. Two cases that would share a directory are an error.
    pub fn cases<K: Arithmetic>(&self, k: &K) -> (r: Result<Vec<Case>, ConfigError>)
        ensures
            exists|g: Geometry| #[trigger]
                self.geometry_given(k, g) && match self.derived_physics(g) {
                    Err(e) => r == Err::<Vec<Case>, ConfigError>(e),
                    Ok(physics) => exists|cases: Seq<Case>| #[trigger]
                        self.expands_to(k, physics, cases) && expansion_outcome(k, cases, r),
                },
    {
        let g = geometry(k, self.sigma, self.delta_t, self.time);
        assert(self.geometry_given(k, g));
        let physics = match self.physics_from(g) {
            Err(e) => return Err(e),
            Ok(physics) => physics,
        };
        let ms = dedup_in_order_i32(&self.m);
        let gammas = dedup_in_order_f64(&self.gamma);
        let deltas = dedup_in_order_f64(&self.delta);
        let fs = dedup_in_order_f64(&self.f);
        let cases = expand(k, &physics, &ms, &gammas, &deltas, &fs);
        assert(self.expands_to(k, physics, cases@));

        let mut names: Vec<String> = Vec::new();
        let mut i: usize = 0;
        while i < cases.len()
            invariant
                i <= cases.len(),
                names.len() == i,
                named_in_order(k, cases@, text::texts(names@)),
                text::texts(names@).no_duplicates(),
                self.geometry_given(k, g),
                self.derived_physics(g) == Ok::<Physics, ConfigError>(physics),
                self.expands_to(k, physics, cases@),
            decreases cases.len() - i,
        {
            let name = cases[i].dir_name(k);
            let ghost before = text::texts(names@);
            let ghost after = before.push(name@);
            assert(named_in_order(k, cases@, after));
            assert(after.drop_last() =~= before);
            if holds_text(&names, &name) {
                let r: Result<Vec<Case>, ConfigError> = Err(ConfigError::DuplicateDirectory(name));
                assert(expansion_outcome(k, cases@, r));
                return r;
            }
            names.push(name);
            assert(text::texts(names@) =~= after);
            assert(after.no_duplicates()) by {
                assert forall|p: int, q: int|
                    0 <= p < after.len() && 0 <= q < after.len() && p != q implies after[p]
                    != after[q] by {
                    if p < before.len() {
                        assert(before.contains(before[p]));
                    }
                    if q < before.len() {
                        assert(before.contains(before[q]));
                    }
                }
            }
            i = i + 1;
        }
        let r: Result<Vec<Case>, ConfigError> = Ok(cases);
        assert(expansion_outcome(k, cases@, r));
        r
    }
}

// ---- Seeds ----

/// The start value of the seed hash.
pub const SEED_BASIS: u64 = 0xcbf2_9ce4_8422_2325;

/// The multiplier of the seed hash.
pub const SEED_PRIME: u64 = 0x0000_0100_0000_01b3;

/// Mixes one word into a seed hash.
pub open spec fn seed_mix(hash: u64, word: u64) -> u64 {
    (hash ^ word).wrapping_mul(SEED_PRIME)
}

/// The seed of a parameter set.
pub open spec fn seed_of(m: i32, gamma: Double, delta: Double, f: Double) -> u64 {
    seed_mix(
        seed_mix(seed_mix(seed_mix(SEED_BASIS, m as u64), gamma.bits), delta.bits),
        f.bits,
    )
}

impl Case {
    /// The seed of the random numbers of the case. It depends on the parameters alone, so a case
    /// gives the same results whenever and wherever it runs.
    pub fn seed(&self) -> (seed: u64)
        ensures
            seed == seed_of(self.m, self.gamma, self.delta, self.f),
    {
        let mut hash: u64 = SEED_BASIS;
        hash = (hash ^ (self.m as u64)).wrapping_mul(SEED_PRIME);
        hash = (hash ^ self.gamma.bits).wrapping_mul(SEED_PRIME);
        hash = (hash ^ self.delta.bits).wrapping_mul(SEED_PRIME);
        hash = (hash ^ self.f.bits).wrapping_mul(SEED_PRIME);
        hash
    }
}

proof fn lemma_seed_mix_injective(a: u64, v: u64, b: u64, w: u64)
    requires
        seed_mix(a, v) == seed_mix(b, w),
    ensures
        a ^ v == b ^ w,
{
    let x = (a ^ v) as int;
    let y = (b ^ w) as int;
    let p = SEED_PRIME as int;
    let q = 0xce96_5057_aff6_957bint;
    let modulus = 0x1_0000_0000_0000_0000int;
    assert((x * p) % modulus == (y * p) % modulus);
    vstd::arithmetic::div_mod::lemma_mul_mod_noop_left(x * p, q, modulus);
    vstd::arithmetic::div_mod::lemma_mul_mod_noop_left(y * p, q, modulus);
    let turns = (p * q - 1) / modulus;
    assert(p * q == 1 + turns * modulus);
    assert((x * p) * q == x + (x * turns) * modulus) by (nonlinear_arith)
        requires
            p * q == 1 + turns * modulus,
    ;
    assert((y * p) * q == y + (y * turns) * modulus) by (nonlinear_arith)
        requires
            p * q == 1 + turns * modulus,
    ;
    vstd::arithmetic::div_mod::lemma_mod_multiples_vanish(x * turns, x, modulus);
    vstd::arithmetic::div_mod::lemma_mod_multiples_vanish(y * turns, y, modulus);
    assert(modulus * (x * turns) + x == x + (x * turns) * modulus) by (nonlinear_arith);
    assert(modulus * (y * turns) + y == y + (y * turns) * modulus) by (nonlinear_arith);
    vstd::arithmetic::div_mod::lemma_small_mod(x as nat, modulus as nat);
    vstd::arithmetic::div_mod::lemma_small_mod(y as nat, modulus as nat);
}

proof fn lemma_seed_mix_keeps_apart(a: u64, b: u64, w: u64)
    requires
        a != b,
    ensures
        seed_mix(a, w) != seed_mix(b, w),
{
    if seed_mix(a, w) == seed_mix(b, w) {
        lemma_seed_mix_injective(a, w, b, w);
        assert(a ^ w == b ^ w ==> a == b) by (bit_vector);
    }
}

proof fn lemma_seed_mix_tells_words_apart(a: u64, v: u64, w: u64)
    requires
        v != w,
    ensures
        seed_mix(a, v) != seed_mix(a, w),
{
    if seed_mix(a, v) == seed_mix(a, w) {
        lemma_seed_mix_injective(a, v, a, w);
        assert(a ^ v == a ^ w ==> v == w) by (bit_vector);
    }
}

/// The seed depends on the parameters alone: neither the place of a case in the expansion nor
/// the order in which cases run has a part in it.
pub proof fn law_seed_ignores_place(a: Case, b: Case)
    requires
        a.m == b.m,
        a.gamma == b.gamma,
        a.delta == b.delta,
        a.f == b.f,
    ensures
        seed_of(a.m, a.gamma, a.delta, a.f) == seed_of(b.m, b.gamma, b.delta, b.f),
{
}

/// Cases that differ in exactly one parameter have different seeds.
pub proof fn law_seed_tells_one_change(a: Case, b: Case)
    requires
        ({
            ||| a.m != b.m && a.gamma == b.gamma && a.delta == b.delta && a.f == b.f
            ||| a.m == b.m && a.gamma != b.gamma && a.delta == b.delta && a.f == b.f
            ||| a.m == b.m && a.gamma == b.gamma && a.delta != b.delta && a.f == b.f
            ||| a.m == b.m && a.gamma == b.gamma && a.delta == b.delta && a.f != b.f
        }),
    ensures
        seed_of(a.m, a.gamma, a.delta, a.f) != seed_of(b.m, b.gamma, b.delta, b.f),
{
    let (m1, m2) = (a.m, b.m);
    assert(m1 != m2 ==> m1 as u64 != m2 as u64) by (bit_vector);
    let (a1, b1) = (seed_mix(SEED_BASIS, a.m as u64), seed_mix(SEED_BASIS, b.m as u64));
    let (a2, b2) = (seed_mix(a1, a.gamma.bits), seed_mix(b1, b.gamma.bits));
    let (a3, b3) = (seed_mix(a2, a.delta.bits), seed_mix(b2, b.delta.bits));
    if a.m != b.m {
        lemma_seed_mix_tells_words_apart(SEED_BASIS, a.m as u64, b.m as u64);
        lemma_seed_mix_keeps_apart(a1, b1, a.gamma.bits);
        lemma_seed_mix_keeps_apart(a2, b2, a.delta.bits);
        lemma_seed_mix_keeps_apart(a3, b3, a.f.bits);
    } else if a.gamma != b.gamma {
        lemma_seed_mix_tells_words_apart(a1, a.gamma.bits, b.gamma.bits);
        lemma_seed_mix_keeps_apart(a2, b2, a.delta.bits);
        lemma_seed_mix_keeps_apart(a3, b3, a.f.bits);
    } else if a.delta != b.delta {
        lemma_seed_mix_tells_words_apart(a2, a.delta.bits, b.delta.bits);
        lemma_seed_mix_keeps_apart(a3, b3, a.f.bits);
    } else {
        lemma_seed_mix_tells_words_apart(a3, a.f.bits, b.f.bits);
    }
}

// ---- What a directory name tells ----

/// A number written with six decimals: an integer part that ends in a digit, a point and six
/// digits.
pub open spec fn six_decimal_form(t: Seq<char>, whole: Seq<char>, decimals: Seq<char>) -> bool {
    &&& t == whole.push('.') + decimals
    &&& whole.len() > 0
    &&& whole.last() != '.' && whole.last() != '-'
    &&& !whole.contains('.')
    &&& decimals.len() == 6
    &&& !decimals.contains('.')
}

proof fn lemma_trimmed_of_cuts(s: Seq<char>, c: char) -> (n: int)
    ensures
        0 <= n <= s.len(),
        text::trimmed_of(s, c) == s.take(n),
        forall|i: int| n <= i < s.len() ==> s[i] == c,
        n > 0 ==> s[n - 1] != c,
    decreases s.len(),
{
    if s.len() > 0 && s.last() == c {
        let n = lemma_trimmed_of_cuts(s.drop_last(), c);
        assert(s.drop_last().take(n) =~= s.take(n));
        assert forall|i: int| n <= i < s.len() implies s[i] == c by {
            if i < s.len() - 1 {
                assert(s.drop_last()[i] == c);
            }
        }
        n
    } else {
        assert(s.take(s.len() as int) =~= s);
        s.len() as int
    }
}

/// Nothing is lost when the six-decimal text of a number is shortened: the text can be told from
/// its short form.
pub proof fn law_short_form_keeps_six_decimals(
    t1: Seq<char>,
    whole1: Seq<char>,
    decimals1: Seq<char>,
    t2: Seq<char>,
    whole2: Seq<char>,
    decimals2: Seq<char>,
)
    requires
        six_decimal_form(t1, whole1, decimals1),
        six_decimal_form(t2, whole2, decimals2),
        text::short_form(t1) == text::short_form(t2),
    ensures
        t1 == t2,
{
    let n1 = lemma_short_form_of_six_decimals(t1, whole1, decimals1);
    let n2 = lemma_short_form_of_six_decimals(t2, whole2, decimals2);
    let s = text::short_form(t1);
    let (w1, w2) = (whole1.len() as int, whole2.len() as int);
    if n1 == w1 {
        if n2 > w2 {
            assert(s[w2] == '.');
            assert(s == whole1);
            assert(whole1.contains('.'));
        }
    } else {
        assert(s[w1] == '.');
        if n2 == w2 {
            assert(s == whole2);
            assert(whole2.contains('.'));
        } else {
            assert(s[w2] == '.');
            if w1 < w2 {
                assert(whole2[w1] == s[w1]);
                assert(whole2.contains('.'));
            }
            if w2 < w1 {
                assert(whole1[w2] == s[w2]);
                assert(whole1.contains('.'));
            }
        }
    }
    assert(w1 == w2);
    assert(t1 =~= t2) by {
        assert forall|i: int| 0 <= i < t1.len() implies t1[i] == t2[i] by {
            if i < n1 {
                assert(t1[i] == s[i]);
                assert(t2[i] == s[i]);
            }
        }
    }
}

proof fn lemma_short_form_of_six_decimals(
    t: Seq<char>,
    whole: Seq<char>,
    decimals: Seq<char>,
) -> (n: int)
    requires
        six_decimal_form(t, whole, decimals),
    ensures
        n == whole.len() || whole.len() + 1 < n <= t.len(),
        text::short_form(t) == t.take(n),
        t.take(whole.len() as int) == whole,
        t[whole.len() as int] == '.',
        forall|i: int| n <= i < t.len() && i != whole.len() ==> t[i] == '0',
{
    let w = whole.len() as int;
    assert(t[w] == '.');
    assert(t.take(w) =~= whole);
    let n = lemma_trimmed_of_cuts(t, '0');
    assert(n > w);
    let u = t.take(n);
    let k = lemma_trimmed_of_cuts(u, '.');
    if n == w + 1 {
        assert(u[w] == '.');
        assert(u[w - 1] == whole.last());
        assert(k == w);
        assert(u.take(k) =~= t.take(w));
        assert(t.take(w)[w - 1] == whole.last());
        assert(text::short_form(t) =~= t.take(w));
        w
    } else {
        assert(t[n - 1] == decimals[n - 1 - w - 1]);
        assert(decimals.contains(t[n - 1]));
        assert(u[n - 1] == t[n - 1]);
        assert(k == n);
        assert(u.take(n) =~= u);
        assert(u.len() > 1);
        n
    }
}

/// Cuts at the first underscore agree.
proof fn lemma_split_at_underscore(
    a: Seq<char>,
    b: Seq<char>,
    c: Seq<char>,
    d: Seq<char>,
    separator: Seq<char>,
)
    requires
        separator.len() > 0,
        separator[0] == '_',
        !a.contains('_'),
        !c.contains('_'),
        a + separator + b == c + separator + d,
    ensures
        a == c,
        b == d,
{
    let s = a + separator + b;
    assert(s[a.len() as int] == '_');
    assert(s[c.len() as int] == (c + separator + d)[c.len() as int]);
    assert(s[c.len() as int] == '_');
    if a.len() < c.len() {
        assert(c[a.len() as int] == (c + separator + d)[a.len() as int]);
        assert(c.contains('_'));
    }
    if c.len() < a.len() {
        assert(a[c.len() as int] == s[c.len() as int]);
        assert(a.contains('_'));
    }
    assert(a =~= c) by {
        assert forall|i: int| 0 <= i < a.len() implies a[i] == c[i] by {
            assert(s[i] == a[i]);
            assert((c + separator + d)[i] == c[i]);
        }
    }
    assert(b.len() == d.len()) by {
        assert(s.len() == (c + separator + d).len());
    }
    assert(b =~= d) by {
        assert forall|i: int| 0 <= i < b.len() implies b[i] == d[i] by {
            let j = a.len() + separator.len() + i;
            assert(s[j] == b[i]);
            assert((c + separator + d)[j] == d[i]);
        }
    }
}

proof fn lemma_short_form_has_no_underscore(t: Seq<char>)
    requires
        !t.contains('_'),
    ensures
        !text::short_form(t).contains('_'),
{
    let n = lemma_trimmed_of_cuts(t, '0');
    let u = t.take(n);
    let k = lemma_trimmed_of_cuts(u, '.');
    let short = u.take(k);
    if short.contains('_') {
        let i = choose|i: int| 0 <= i < short.len() && short[i] == '_';
        assert(t[i] == '_');
    }
    assert(!seq!['0'].contains('_'));
}

/// Two cases share a directory name only when they agree in m and in the short forms of their
/// parameters.
pub proof fn law_dir_name_tells_parameters(
    m1: i32,
    f1: Seq<char>,
    gamma1: Seq<char>,
    delta1: Seq<char>,
    m2: i32,
    f2: Seq<char>,
    gamma2: Seq<char>,
    delta2: Seq<char>,
)
    requires
        !f1.contains('_'),
        !gamma1.contains('_'),
        !f2.contains('_'),
        !gamma2.contains('_'),
        dir_name_text(m1, f1, gamma1, delta1) == dir_name_text(m2, f2, gamma2, delta2),
    ensures
        m1 == m2,
        text::short_form(f1) == text::short_form(f2),
        text::short_form(gamma1) == text::short_form(gamma2),
        text::short_form(delta1) == text::short_form(delta2),
{
    reveal_strlit("m");
    reveal_strlit("_f");
    reveal_strlit("_gamma");
    reveal_strlit("_delta");
    let (n1, n2) = (text::signed_numeral(m1 as int), text::signed_numeral(m2 as int));
    let (sf1, sf2) = (text::short_form(f1), text::short_form(f2));
    let (sg1, sg2) = (text::short_form(gamma1), text::short_form(gamma2));
    let (sd1, sd2) = (text::short_form(delta1), text::short_form(delta2));
    text::law_signed_numeral_is_injective(m1 as int, m2 as int);
    text::law_signed_numeral_is_injective(m2 as int, m1 as int);
    lemma_short_form_has_no_underscore(f1);
    lemma_short_form_has_no_underscore(f2);
    lemma_short_form_has_no_underscore(gamma1);
    lemma_short_form_has_no_underscore(gamma2);
    let (c1, c2) = (sg1 + "_delta"@ + sd1, sg2 + "_delta"@ + sd2);
    let (b1, b2) = (sf1 + "_gamma"@ + c1, sf2 + "_gamma"@ + c2);
    let (h1, h2) = ("m"@ + n1, "m"@ + n2);
    assert(dir_name_text(m1, f1, gamma1, delta1) =~= h1 + "_f"@ + b1);
    assert(dir_name_text(m2, f2, gamma2, delta2) =~= h2 + "_f"@ + b2);
    assert(!h1.contains('_'));
    assert(!h2.contains('_'));
    lemma_split_at_underscore(h1, b1, h2, b2, "_f"@);
    lemma_split_at_underscore(sf1, c1, sf2, c2, "_gamma"@);
    lemma_split_at_underscore(sg1, sd1, sg2, sd2, "_delta"@);
    assert(n1 =~= h1.skip(1));
    assert(n2 =~= h2.skip(1));
}

} // verus!
