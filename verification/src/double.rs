//! Double-precision numbers by their IEEE 754 bit pattern.
//!
//! A `Double` can be stored, classified, negated and compared. What it stands for is given by
//! `Double::value`, in units of the smallest subnormal number.

use vstd::prelude::*;
use vstd::arithmetic::power2::pow2;

verus! {

/// The sign bit.
pub const SIGN_BIT: u64 = 0x8000_0000_0000_0000;

/// The pattern of positive infinity; every larger magnitude is not a number.
pub const INFINITY_BITS: u64 = 0x7ff0_0000_0000_0000;

/// The pattern of the number one.
pub const ONE_BITS: u64 = 0x3ff0_0000_0000_0000;

/// The pattern of the quiet NaN that stands for an undefined statistic.
pub const NAN_BITS: u64 = 0x7ff8_0000_0000_0000;

/// The number of patterns that share one exponent, 2^52.
pub const FRACTION_SPAN: u64 = 0x0010_0000_0000_0000;

/// The size of a magnitude pattern in units of 2^-1074: the fraction itself while the exponent
/// field is zero, and the fraction with its leading one, shifted by the exponent, above that.
/// The pattern of infinity gets a size above that of every finite pattern.
pub open spec fn weight(magnitude: int) -> int {
    let exponent = magnitude / (FRACTION_SPAN as int);
    let fraction = magnitude % (FRACTION_SPAN as int);
    if exponent == 0 {
        fraction
    } else {
        (FRACTION_SPAN + fraction) * pow2((exponent - 1) as nat)
    }
}

/// A double-precision number, held as its bit pattern.
#[derive(Clone, Copy, Debug, PartialEq, Eq, Structural)]
pub struct Double {
    pub bits: u64,
}

impl Double {
    /// Whether the sign bit is set.
    pub open spec fn negative(self) -> bool {
        self.bits >= SIGN_BIT
    }

    /// The pattern without its sign bit.
    pub open spec fn magnitude(self) -> int {
        if self.negative() {
            self.bits - SIGN_BIT
        } else {
            self.bits as int
        }
    }

    /// Whether the pattern stands for no number.
    pub open spec fn nan(self) -> bool {
        self.magnitude() > INFINITY_BITS
    }

    /// Whether the pattern stands for a number that is not infinite.
    pub open spec fn finite(self) -> bool {
        self.magnitude() < INFINITY_BITS
    }

    /// Whether the pattern stands for a finite number that has all its digits.
    pub open spec fn normal(self) -> bool {
        FRACTION_SPAN <= self.magnitude() < INFINITY_BITS
    }

    /// The number in units of 2^-1074. Both zeros have the value 0.
    pub open spec fn value(self) -> int {
        if self.negative() {
            -weight(self.magnitude())
        } else {
            weight(self.magnitude())
        }
    }

    /// The order of numbers; nothing is ordered with a NaN.
    pub open spec fn below(self, other: Double) -> bool {
        !self.nan() && !other.nan() && self.value() < other.value()
    }

    /// The order of numbers or their equality.
    pub open spec fn at_most(self, other: Double) -> bool {
        !self.nan() && !other.nan() && self.value() <= other.value()
    }

    /// The equality of numbers: the two zeros are equal and a NaN equals nothing.
    pub open spec fn same_number(self, other: Double) -> bool {
        !self.nan() && !other.nan() && self.value() == other.value()
    }

    /// A finite number above zero.
    pub open spec fn positive_finite(self) -> bool {
        self.finite() && 0 < self.value()
    }

    /// The pattern with its sign bit flipped.
    pub open spec fn negated(self) -> Double {
        if self.negative() {
            Double { bits: (self.bits - SIGN_BIT) as u64 }
        } else {
            Double { bits: (self.bits + SIGN_BIT) as u64 }
        }
    }

    /// The pattern with its sign bit cleared.
    pub open spec fn absolute(self) -> Double {
        Double { bits: self.magnitude() as u64 }
    }

    /// The number of the interval from `low` to `high` that is nearest to this one; a NaN stays.
    pub open spec fn clamped(self, low: Double, high: Double) -> Double {
        if self.below(low) {
            low
        } else if high.below(self) {
            high
        } else {
            self
        }
    }

    /// The zero with a clear sign bit.
    pub open spec fn zero_spec() -> Double {
        Double { bits: 0 }
    }

    /// The NaN that stands for an undefined statistic.
    pub open spec fn undefined_spec() -> Double {
        Double { bits: NAN_BITS }
    }

    /// The number with the given bit pattern.
    pub fn from_bits(bits: u64) -> (r: Double)
        ensures
            r.bits == bits,
    {
        Double { bits }
    }

    /// The bit pattern of this number.
    pub fn to_bits(self) -> (bits: u64)
        ensures
            bits == self.bits,
    {
        self.bits
    }

    /// The zero with a clear sign bit.
    #[verifier::when_used_as_spec(zero_spec)]
    pub fn zero() -> (r: Double)
        ensures
            r == Double::zero_spec(),
            !r.nan(),
            r.value() == 0,
    {
        proof {
            lemma_weight_zero();
        }
        Double { bits: 0 }
    }

    /// The NaN that stands for an undefined statistic.
    #[verifier::when_used_as_spec(undefined_spec)]
    pub fn undefined() -> (r: Double)
        ensures
            r == Double::undefined_spec(),
            r.nan(),
    {
        Double { bits: NAN_BITS }
    }

    fn magnitude_bits(self) -> (m: u64)
        ensures
            m == self.magnitude(),
            m < SIGN_BIT,
    {
        if self.bits >= SIGN_BIT {
            self.bits - SIGN_BIT
        } else {
            self.bits
        }
    }

    /// Whether this is no number.
    pub fn is_nan(self) -> (b: bool)
        ensures
            b == self.nan(),
    {
        self.magnitude_bits() > INFINITY_BITS
    }

    /// Whether this is a number and not infinite.
    pub fn is_finite(self) -> (b: bool)
        ensures
            b == self.finite(),
    {
        self.magnitude_bits() < INFINITY_BITS
    }

    /// Whether this is one of the two zeros.
    pub fn is_zero(self) -> (b: bool)
        ensures
            b == self.same_number(Double::zero()),
            b == (self.bits == 0 || self.bits == SIGN_BIT),
    {
        proof {
            lemma_weight_zero();
            if 0 < self.magnitude() {
                lemma_weight_increases(0, self.magnitude());
            }
        }
        self.magnitude_bits() == 0
    }

    /// The comparison `self < other`.
    pub fn lt(self, other: Double) -> (b: bool)
        ensures
            b == self.below(other),
    {
        let a: u64 = self.magnitude_bits();
        let c: u64 = other.magnitude_bits();
        if a > INFINITY_BITS || c > INFINITY_BITS {
            return false;
        }
        proof {
            lemma_weight_zero();
            lemma_weight_order(a as int, c as int);
            lemma_weight_order(0, a as int);
            lemma_weight_order(0, c as int);
        }
        if self.bits >= SIGN_BIT {
            if other.bits >= SIGN_BIT {
                c < a
            } else {
                a > 0 || c > 0
            }
        } else if other.bits >= SIGN_BIT {
            false
        } else {
            a < c
        }
    }

    /// The comparison `self <= other`.
    pub fn le(self, other: Double) -> (b: bool)
        ensures
            b == self.at_most(other),
    {
        !self.is_nan() && !other.is_nan() && !other.lt(self)
    }

    /// The comparison `self == other` of numbers.
    pub fn num_eq(self, other: Double) -> (b: bool)
        ensures
            b == self.same_number(other),
    {
        self.le(other) && other.le(self)
    }

    /// Whether this is finite and above zero.
    pub fn is_positive_finite(self) -> (b: bool)
        ensures
            b == self.positive_finite(),
    {
        proof {
            lemma_weight_zero();
        }
        self.is_finite() && Double::zero().lt(self)
    }

    /// The number with its sign flipped.
    pub fn neg(self) -> (r: Double)
        ensures
            r == self.negated(),
            r.nan() == self.nan(),
            r.value() == -self.value(),
    {
        if self.bits >= SIGN_BIT {
            Double { bits: self.bits - SIGN_BIT }
        } else {
            Double { bits: self.bits + SIGN_BIT }
        }
    }

    /// The number without its sign.
    pub fn abs(self) -> (r: Double)
        ensures
            r == self.absolute(),
            r.nan() == self.nan(),
            r.value() == if self.value() < 0 { -self.value() } else { self.value() },
    {
        proof {
            lemma_weight_zero();
            lemma_weight_order(0, self.magnitude());
        }
        Double { bits: self.magnitude_bits() }
    }

    /// The nearest number of the interval from `low` to `high`. The lower bound goes first where
    /// the bounds are out of order.
    pub fn clamp(self, low: Double, high: Double) -> (r: Double)
        ensures
            r == self.clamped(low, high),
            low.at_most(high) && !self.nan() ==> low.at_most(r) && r.at_most(high),
    {
        if self.lt(low) {
            low
        } else if high.lt(self) {
            high
        } else {
            self
        }
    }
}

proof fn lemma_weight_zero()
    ensures
        weight(0) == 0,
{
}

/// Sizes grow with the magnitude pattern, so patterns can be compared as integers.
proof fn lemma_weight_increases(a: int, b: int)
    requires
        0 <= a < b,
    ensures
        weight(a) < weight(b),
{
    let span = FRACTION_SPAN as int;
    let (ea, fa) = (a / span, a % span);
    let (eb, fb) = (b / span, b % span);
    assert(ea <= eb) by (nonlinear_arith)
        requires
            0 <= a < b,
            span == 0x0010_0000_0000_0000,
            ea == a / span,
            eb == b / span,
    ;
    assert(a == ea * span + fa && b == eb * span + fb);
    vstd::arithmetic::power2::lemma_pow2(0);
    reveal(vstd::arithmetic::power::pow);
    if ea == eb {
        if eb > 0 {
            let p = pow2((eb - 1) as nat) as int;
            vstd::arithmetic::power2::lemma_pow2_pos((eb - 1) as nat);
            assert((span + fa) * p < (span + fb) * p) by (nonlinear_arith)
                requires
                    fa < fb,
                    p > 0,
            ;
        }
    } else {
        let p = pow2((eb - 1) as nat) as int;
        vstd::arithmetic::power2::lemma_pow2_pos((eb - 1) as nat);
        assert(span * p <= (span + fb) * p) by (nonlinear_arith)
            requires
                0 <= fb,
                p > 0,
        ;
        if ea == 0 {
            assert(span <= span * p) by (nonlinear_arith)
                requires
                    p >= 1,
                    span > 0,
            ;
        } else {
            let q = pow2((ea - 1) as nat) as int;
            vstd::arithmetic::power2::lemma_pow2_pos((ea - 1) as nat);
            vstd::arithmetic::power2::lemma_pow2_unfold(ea as nat);
            let r = pow2(ea as nat) as int;
            assert(r == 2 * q);
            if ea < eb - 1 {
                vstd::arithmetic::power2::lemma_pow2_strictly_increases(ea as nat, (eb - 1) as nat);
            }
            assert(r <= p);
            assert((span + fa) * q < span * p) by (nonlinear_arith)
                requires
                    0 <= fa < span,
                    q > 0,
                    2 * q <= p,
            ;
        }
    }
}

proof fn lemma_weight_order(a: int, b: int)
    requires
        0 <= a,
        0 <= b,
    ensures
        weight(a) < weight(b) <==> a < b,
        weight(a) == weight(b) <==> a == b,
{
    if a < b {
        lemma_weight_increases(a, b);
    }
    if b < a {
        lemma_weight_increases(b, a);
    }
}

/// The order is total on numbers: of two numbers that are not NaN, exactly one of below, equal
/// and above holds.
pub proof fn law_order_is_total(a: Double, b: Double)
    requires
        !a.nan(),
        !b.nan(),
    ensures
        a.below(b) || a.same_number(b) || b.below(a),
        !(a.below(b) && b.below(a)),
        !(a.below(b) && a.same_number(b)),
{
}

/// Numbers from 0 on are ordered as their patterns are.
pub proof fn law_patterns_are_ordered(a: u64, b: u64)
    requires
        a < b <= INFINITY_BITS,
    ensures
        (Double { bits: a }).below(Double { bits: b }),
{
    lemma_weight_increases(a as int, b as int);
}

/// Two numbers are equal only when they share their bit pattern or are the two zeros.
pub proof fn law_equal_numbers_share_bits(a: Double, b: Double)
    requires
        a.same_number(b),
    ensures
        a.bits == b.bits || (a.magnitude() == 0 && b.magnitude() == 0),
{
    lemma_weight_zero();
    lemma_weight_order(a.magnitude(), b.magnitude());
    lemma_weight_order(0, a.magnitude());
    lemma_weight_order(0, b.magnitude());
}

} // verus!
