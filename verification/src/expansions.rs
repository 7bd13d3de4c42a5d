//! Which cases a configuration stands for, what their directories are called and what their seeds are
//! made of.

use vstd::prelude::*;
use crate::cases::{
    distinct_in_order, law_dedup, law_every_combination_once, place, seed_of, written,
};
use crate::config::{particle_length_gives, Case, Config, Physics};
use crate::formula::Arithmetic;
use crate::text::{short_form, signed_numeral};

verus! {

/// The cases of a configuration: all combinations of the values of its lists, with the length that their
/// rods have, numbered from 0. The force changes from one case to the next, then delta, then gamma, and
/// the number of points last.
pub proof fn law_cases_of_configuration<K: Arithmetic>(
    k: &K,
    config: Config,
    physics: Physics,
    cases: Seq<Case>,
    a: int,
    b: int,
    c: int,
    d: int,
)
    requires
        config.expands_to(k, physics, cases),
        0 <= a < distinct_in_order(config.m@).len(),
        0 <= b < distinct_in_order(config.gamma@).len(),
        0 <= c < distinct_in_order(config.delta@).len(),
        0 <= d < distinct_in_order(config.f@).len(),
        cases.len() <= u32::MAX,
    ensures
        ({
            let ms = distinct_in_order(config.m@);
            let gammas = distinct_in_order(config.gamma@);
            let deltas = distinct_in_order(config.delta@);
            let fs = distinct_in_order(config.f@);
            let at = ((a * gammas.len() + b) * deltas.len() + c) * fs.len() + d;
            &&& cases.len() == ms.len() * gammas.len() * deltas.len() * fs.len()
            &&& 0 <= at < cases.len()
            &&& cases[at].case_id == at
            &&& cases[at].m == ms[a]
            &&& cases[at].gamma == gammas[b]
            &&& cases[at].delta == deltas[c]
            &&& cases[at].f == fs[d]
            &&& particle_length_gives(k, physics.particle_dx, ms[a], cases[at].l)
        }),
{
    let ms = distinct_in_order(config.m@);
    let gammas = distinct_in_order(config.gamma@);
    let deltas = distinct_in_order(config.delta@);
    let fs = distinct_in_order(config.f@);
    law_dedup(config.m@);
    law_dedup(config.gamma@);
    law_dedup(config.delta@);
    law_dedup(config.f@);
    law_every_combination_once(k, physics, ms, gammas, deltas, fs, cases, a, b, c, d);
    let at = place(a, b, c, d, gammas.len() as int, deltas.len() as int, fs.len() as int);
    assert(at == ((a * gammas.len() + b) * deltas.len() + c) * fs.len() + d);
    assert(cases[at].case_id == at as u32);
}

/// The directory of a case is named by its own parameters: the points of its rod, its force, gamma and
/// delta, in this order and under these names.
pub proof fn law_directory_of_case<K: Arithmetic>(k: &K, case: Case, name: Seq<char>)
    requires
        case.named(k, name),
    ensures
        exists|f: String, gamma: String, delta: String|
            {
                &&& #[trigger] written(k, case.f, f)
                &&& #[trigger] written(k, case.gamma, gamma)
                &&& #[trigger] written(k, case.delta, delta)
                &&& name == "m"@ + signed_numeral(case.m as int) + "_f"@ + short_form(f@)
                    + "_gamma"@ + short_form(gamma@) + "_delta"@ + short_form(delta@)
            },
{
}

/// The words that a hash has taken in, one after the other.
pub open spec fn hashed(words: Seq<u64>) -> u64
    decreases words.len(),
{
    if words.len() == 0 {
        0xcbf2_9ce4_8422_2325
    } else {
        (hashed(words.drop_last()) ^ words.last()).wrapping_mul(0x0000_0100_0000_01b3)
    }
}

/// The seed of a case takes in the points of its rod, gamma, delta and the force, in this order.
pub proof fn law_words_of_seed(case: Case)
    ensures
        seed_of(case.m, case.gamma, case.delta, case.f) == hashed(
            seq![case.m as u64, case.gamma.bits, case.delta.bits, case.f.bits],
        ),
{
    let words = seq![case.m as u64, case.gamma.bits, case.delta.bits, case.f.bits];
    assert(words.drop_last() =~= seq![case.m as u64, case.gamma.bits, case.delta.bits]);
    assert(words.drop_last().drop_last() =~= seq![case.m as u64, case.gamma.bits]);
    assert(words.drop_last().drop_last().drop_last() =~= seq![case.m as u64]);
    assert(words.drop_last().drop_last().drop_last().drop_last() =~= Seq::<u64>::empty());
    reveal_with_fuel(hashed, 5);
}

} // verus!
