//! What draws of random numbers do one after the other.

use vstd::prelude::*;
use crate::double::Double;
use crate::formula::Arithmetic;
use crate::rng::{normal_pair_gives, state_after, uniform_drawn, word_of, SplitMixRng};

verus! {

/// Normal numbers are drawn in pairs: two draws in a row hand out both numbers of the pair that the next
/// two uniform numbers give, and leave none behind.
pub proof fn law_draws_in_pairs<K: Arithmetic>(
    k: &K,
    before: SplitMixRng,
    between: SplitMixRng,
    after: SplitMixRng,
    first: Double,
    second: Double,
)
    requires
        before.cached_normal is None,
        before.normal_drawn(k, between, first),
        between.normal_drawn(k, after, second),
    ensures
        after.cached_normal is None,
        between.state == state_after(before.state, 2),
        after.state == between.state,
        exists|u1: Double, u2: Double|
            {
                &&& uniform_drawn(k, before.state, 1, u1)
                &&& uniform_drawn(k, before.state, 2, u2)
                &&& #[trigger] normal_pair_gives(k, u1, u2, (first, second))
            },
{
}

proof fn lemma_odd_factor(x: u64, y: u64, p: int, q: int, turns: int)
    requires
        p * q == 1 + turns * 0x1_0000_0000_0000_0000,
        (x as int * p) % 0x1_0000_0000_0000_0000 == (y as int * p) % 0x1_0000_0000_0000_0000,
    ensures
        x == y,
{
    let modulus = 0x1_0000_0000_0000_0000int;
    let a = x as int;
    let b = y as int;
    vstd::arithmetic::div_mod::lemma_mul_mod_noop_left(a * p, q, modulus);
    vstd::arithmetic::div_mod::lemma_mul_mod_noop_left(b * p, q, modulus);
    lemma_undone(a, p, q, turns);
    lemma_undone(b, p, q, turns);
    vstd::arithmetic::div_mod::lemma_mod_multiples_vanish(a * turns, a, modulus);
    vstd::arithmetic::div_mod::lemma_mod_multiples_vanish(b * turns, b, modulus);
    vstd::arithmetic::div_mod::lemma_small_mod(x as nat, modulus as nat);
    vstd::arithmetic::div_mod::lemma_small_mod(y as nat, modulus as nat);
}

proof fn lemma_undone(a: int, p: int, q: int, turns: int)
    requires
        p * q == 1 + turns * 0x1_0000_0000_0000_0000,
    ensures
        (a * p) * q == 0x1_0000_0000_0000_0000 * (a * turns) + a,
{
    vstd::arithmetic::mul::lemma_mul_is_associative(a, p, q);
    vstd::arithmetic::mul::lemma_mul_is_distributive_add(a, 1, turns * 0x1_0000_0000_0000_0000);
    vstd::arithmetic::mul::lemma_mul_is_associative(a, turns, 0x1_0000_0000_0000_0000);
}

/// Different states of the generator give different words.
pub proof fn law_words_differ(s: u64, t: u64)
    requires
        word_of(s) == word_of(t),
    ensures
        s == t,
{
    let a = (s ^ (s >> 30)).wrapping_mul(0xBF58_476D_1CE4_E5B9);
    let b = (t ^ (t >> 30)).wrapping_mul(0xBF58_476D_1CE4_E5B9);
    let c = (a ^ (a >> 27)).wrapping_mul(0x94D0_49BB_1331_11EB);
    let d = (b ^ (b >> 27)).wrapping_mul(0x94D0_49BB_1331_11EB);
    assert(c ^ (c >> 31) == d ^ (d >> 31) ==> c == d) by (bit_vector);
    lemma_odd_factor(
        a ^ (a >> 27),
        b ^ (b >> 27),
        0x94D0_49BB_1331_11EB,
        0x3196_42b2_d24d_8ec3,
        0x1cd3_36ed_a85f_1453,
    );
    assert(a ^ (a >> 27) == b ^ (b >> 27) ==> a == b) by (bit_vector);
    lemma_odd_factor(
        s ^ (s >> 30),
        t ^ (t >> 30),
        0xBF58_476D_1CE4_E5B9,
        0x96de_1b17_3f11_9089,
        0x70c3_bca7_8f27_f46c,
    );
    assert(s ^ (s >> 30) == t ^ (t >> 30) ==> s == t) by (bit_vector);
}

} // verus!
