//! The random numbers of the CPU simulation.

use vstd::prelude::*;
use crate::double::{law_patterns_are_ordered, Double};
use crate::formula::{
    cos_of, gives, lit, ln_of, nat_of, num, plus, sin_of, sqrt_of, times, Arithmetic, Calc, Expr,
    HALF, MINUS_TWO, ONE, TAU,
};

verus! {

/// The increment of the generator state.
pub const STATE_STEP: u64 = 0x9E37_79B9_7F4A_7C15;

/// The bits of the distance of two uniform numbers, 2^-53.
pub const UNIFORM_SCALE: u64 = 0x3ca0_0000_0000_0000;

/// The bits of the largest double below 1.
pub const BELOW_ONE: u64 = 0x3fef_ffff_ffff_ffff;

/// The bits of the smallest uniform number, 2^-54.
pub const LEAST_UNIFORM: u64 = 0x3c90_0000_0000_0000;

/// The state that follows a state.
pub open spec fn next_state(state: u64) -> u64 {
    state.wrapping_add(STATE_STEP)
}

/// The word that a state gives.
pub open spec fn word_of(state: u64) -> u64 {
    let a = (state ^ (state >> 30)).wrapping_mul(0xBF58_476D_1CE4_E5B9);
    let b = (a ^ (a >> 27)).wrapping_mul(0x94D0_49BB_1331_11EB);
    b ^ (b >> 31)
}

/// The uniform number that a word gives: its upper 53 bits and a half, scaled.
pub open spec fn uniform_formula(word: u64) -> Expr {
    times(plus(nat_of(word >> 11), lit(HALF)), lit(UNIFORM_SCALE))
}

/// A number held strictly between 0 and 1.
pub open spec fn inside_unit(v: Double) -> Double {
    if !v.below(Double { bits: ONE }) {
        Double { bits: BELOW_ONE }
    } else if !Double::zero().below(v) {
        Double { bits: LEAST_UNIFORM }
    } else {
        v
    }
}

/// A number held between 0 and 1 is neither of them.
pub proof fn law_inside_unit(v: Double)
    ensures
        Double::zero().below(inside_unit(v)),
        inside_unit(v).below(Double { bits: ONE }),
{
    law_patterns_are_ordered(0, BELOW_ONE);
    law_patterns_are_ordered(BELOW_ONE, ONE);
    law_patterns_are_ordered(0, LEAST_UNIFORM);
    law_patterns_are_ordered(LEAST_UNIFORM, ONE);
}

/// Whether a word gives a uniform number.
pub open spec fn uniform_gives<K: Arithmetic>(k: &K, word: u64, u: Double) -> bool {
    exists|v: Double| #[trigger] gives(k, uniform_formula(word), v) && u == inside_unit(v)
}

/// Whether `u` is the uniform number that the `n`-th word of a seed gives, from 1.
pub open spec fn uniform_drawn<K: Arithmetic>(k: &K, seed: u64, n: nat, u: Double) -> bool {
    uniform_gives(k, word_of(state_after(seed, n)), u)
}

/// The radius of a pair of normal numbers.
pub open spec fn normal_radius(u1: Double) -> Expr {
    sqrt_of(times(lit(MINUS_TWO), ln_of(num(u1))))
}

/// The angle of a pair of normal numbers.
pub open spec fn normal_angle(u2: Double) -> Expr {
    times(lit(TAU), num(u2))
}

/// Whether two uniform numbers give a pair of independent normal numbers, in polar coordinates.
pub open spec fn normal_pair_gives<K: Arithmetic>(
    k: &K,
    u1: Double,
    u2: Double,
    pair: (Double, Double),
) -> bool {
    &&& gives(k, times(normal_radius(u1), cos_of(normal_angle(u2))), pair.0)
    &&& gives(k, times(normal_radius(u1), sin_of(normal_angle(u2))), pair.1)
}

/// A pair of independent normal numbers from two uniform ones.
pub fn normal_pair<K: Arithmetic>(k: &K, u1: Double, u2: Double) -> (pair: (Double, Double))
    ensures
        normal_pair_gives(k, u1, u2, pair),
{
    let c = Calc::new(k);
    let r = c.sqrt_of(c.times(c.lit(MINUS_TWO), c.ln_of(c.num(u1))));
    let theta = c.times(c.lit(TAU), c.num(u2));
    let cosine = c.cos_of(theta);
    let sine = c.sin_of(theta);
    (c.times(r, cosine).value, c.times(r, sine).value)
}

/// The state after `n` words.
pub open spec fn state_after(seed: u64, n: nat) -> u64
    decreases n,
{
    if n == 0 {
        seed
    } else {
        next_state(state_after(seed, (n - 1) as nat))
    }
}

/// A generator of reproducible random numbers.
#[derive(Clone, Debug)]
pub struct SplitMixRng {
    pub state: u64,
    /// The second number of a pair of which the first was handed out.
    pub cached_normal: Option<Double>,
}

impl SplitMixRng {
    /// The generator after `n` more words.
    pub open spec fn advanced(self, n: nat) -> SplitMixRng {
        SplitMixRng { state: state_after(self.state, n), ..self }
    }

    /// What a draw of a normal number does: the kept number is handed out if there is one;
    /// otherwise two uniform numbers are drawn, the first number of their pair is handed out and
    /// the second one is kept.
    pub open spec fn normal_drawn<K: Arithmetic>(
        self,
        k: &K,
        after: SplitMixRng,
        value: Double,
    ) -> bool {
        match self.cached_normal {
            Some(kept) => value == kept && after == (SplitMixRng { cached_normal: None, ..self }),
            None => exists|u1: Double, u2: Double, pair: (Double, Double)|
                {
                    &&& uniform_drawn(k, self.state, 1, u1)
                    &&& uniform_drawn(k, self.state, 2, u2)
                    &&& #[trigger] normal_pair_gives(k, u1, u2, pair)
                    &&& value == pair.0
                    &&& after == SplitMixRng {
                        state: state_after(self.state, 2),
                        cached_normal: Some(pair.1),
                    }
                },
        }
    }

    /// A generator for the given seed.
    pub fn new(seed: u64) -> (rng: SplitMixRng)
        ensures
            rng.state == seed,
            rng.cached_normal is None,
    {
        SplitMixRng { state: seed, cached_normal: None }
    }

    /// The next 64-bit word.
    pub fn next_u64(&mut self) -> (word: u64)
        ensures
            *final(self) == old(self).advanced(1),
            word == word_of(final(self).state),
    {
        proof {
            reveal_with_fuel(state_after, 2);
        }
        self.state = self.state.wrapping_add(STATE_STEP);
        let mut z: u64 = self.state;
        z = (z ^ (z >> 30)).wrapping_mul(0xBF58_476D_1CE4_E5B9);
        z = (z ^ (z >> 27)).wrapping_mul(0x94D0_49BB_1331_11EB);
        z ^ (z >> 31)
    }

    /// The next uniform number, strictly between 0 and 1.
    pub fn uniform_open01<K: Arithmetic>(&mut self, k: &K) -> (u: Double)
        ensures
            *final(self) == old(self).advanced(1),
            uniform_gives(k, word_of(final(self).state), u),
            Double::zero().below(u),
            u.below(Double { bits: ONE }),
    {
        let word: u64 = self.next_u64();
        let c = Calc::new(k);
        let v = c.times(c.plus(c.nat_of(word >> 11), c.lit(HALF)), c.lit(UNIFORM_SCALE)).value;
        assert(gives(k, uniform_formula(word), v));
        proof {
            law_inside_unit(v);
        }
        if !v.lt(Double::from_bits(ONE)) {
            Double::from_bits(BELOW_ONE)
        } else if !Double::zero().lt(v) {
            Double::from_bits(LEAST_UNIFORM)
        } else {
            v
        }
    }

    /// The next normally distributed number.
    pub fn normal<K: Arithmetic>(&mut self, k: &K) -> (value: Double)
        ensures
            old(self).normal_drawn(k, *final(self), value),
    {
        match self.cached_normal {
            Some(kept) => {
                self.cached_normal = None;
                kept
            },
            None => {
                proof {
                    reveal_with_fuel(state_after, 3);
                }
                let ghost before = *self;
                let u1 = self.uniform_open01(k);
                let u2 = self.uniform_open01(k);
                let pair = normal_pair(k, u1, u2);
                assert(uniform_drawn(k, before.state, 1, u1));
                assert(uniform_drawn(k, before.state, 2, u2));
                self.cached_normal = Some(pair.1);
                pair.0
            },
        }
    }
}

/// The state after `n` words is the seed plus `n` increments: the words that a generator hands
/// out depend on its seed and their count alone.
pub proof fn law_state_after(seed: u64, n: nat)
    ensures
        state_after(seed, n) as int == (seed + n * STATE_STEP) % 0x1_0000_0000_0000_0000,
    decreases n,
{
    if n > 0 {
        let modulus = 0x1_0000_0000_0000_0000int;
        let before = (n - 1) as nat;
        law_state_after(seed, before);
        let step = STATE_STEP as int;
        assert(seed + n * step == (seed + before * step) + step) by (nonlinear_arith)
            requires
                before == n - 1,
        ;
        vstd::arithmetic::div_mod::lemma_add_mod_noop_right(
            step,
            seed + before * step,
            modulus,
        );
        let s = state_after(seed, before) as int;
        assert((step + s) % modulus == state_after(seed, n)) by {
            if s + step > u64::MAX {
                vstd::arithmetic::div_mod::lemma_mod_add_multiples_vanish(s + step - modulus, modulus);
            } else {
                vstd::arithmetic::div_mod::lemma_small_mod((s + step) as nat, modulus as nat);
            }
        }
    } else {
        vstd::arithmetic::div_mod::lemma_small_mod(seed as nat, 0x1_0000_0000_0000_0000nat);
    }
}

proof fn lemma_unit_cancels(d: int, s: int, v: int, t: int, modulus: int)
    by (nonlinear_arith)
    requires
        s * v == 1 + t * modulus,
    ensures
        (d * s) * v == modulus * (d * t) + d,
{
}

proof fn lemma_no_small_multiple(d: int)
    requires
        0 <= d < 0x1_0000_0000_0000_0000,
        (d * STATE_STEP) % 0x1_0000_0000_0000_0000 == 0,
    ensures
        d == 0,
{
    let modulus = 0x1_0000_0000_0000_0000int;
    let inverse = 0xf1de_83e1_9937_733dint;
    let turns = 0x957bbf35006ed677int;
    lemma_unit_cancels(d, STATE_STEP as int, inverse, turns, modulus);
    vstd::arithmetic::div_mod::lemma_mul_mod_noop_left(d * STATE_STEP, inverse, modulus);
    vstd::arithmetic::div_mod::lemma_mod_multiples_vanish(d * turns, d, modulus);
    vstd::arithmetic::div_mod::lemma_small_mod(d as nat, modulus as nat);
}

/// A generator does not come back to a state within fewer than 2^64 words.
pub proof fn law_states_differ(seed: u64, i: nat, j: nat)
    requires
        i < j,
        j - i < 0x1_0000_0000_0000_0000,
    ensures
        state_after(seed, i) != state_after(seed, j),
{
    let modulus = 0x1_0000_0000_0000_0000int;
    let step = STATE_STEP as int;
    law_state_after(seed, i);
    law_state_after(seed, j);
    if state_after(seed, i) == state_after(seed, j) {
        let a = seed + i * step;
        let b = seed + j * step;
        let d = (j - i) as int;
        vstd::arithmetic::div_mod::lemma_mod_equivalence(b, a, modulus);
        assert(b - a == d * step) by (nonlinear_arith)
            requires
                b - a == j * step - i * step,
                d == j - i,
        ;
        lemma_no_small_multiple(d);
    }
}

} // verus!
