//! Single-precision values held by their bit patterns, with their order.
use crate::magnitude::{
    lemma_magnitude_bounds, lemma_magnitude_increases, lemma_magnitude_unpack, magnitude, scale,
    significand, HIDDEN, INFINITY,
};
use crate::rounding::{lemma_nearest_exact, lemma_nearest_unique, nearest};
use vstd::arithmetic::power2::pow2;
use vstd::math::abs;
use vstd::prelude::*;

verus! {

/// The sign bit.
pub const SIGN: u32 = 0x8000_0000;

/// The pattern of the quiet NaN that invalid operations give.
pub const NAN: u32 = 0x7fc0_0000;

/// An IEEE 754 binary32 value.
#[derive(Clone, Copy, Debug, PartialEq, Eq, Structural)]
pub struct F32 {
    pub bits: u32,
}

impl F32 {
    /// Whether the sign bit is set.
    pub open spec fn negative(self) -> bool {
        self.bits >= SIGN
    }

    /// The bits without the sign.
    pub open spec fn pattern(self) -> int {
        if self.bits >= SIGN {
            self.bits - SIGN
        } else {
            self.bits as int
        }
    }

    /// Neither an infinity nor NaN.
    pub open spec fn finite(self) -> bool {
        self.pattern() < INFINITY
    }

    /// One of the two infinities.
    pub open spec fn infinite(self) -> bool {
        self.pattern() == INFINITY
    }

    /// Not a number.
    pub open spec fn nan(self) -> bool {
        self.pattern() > INFINITY
    }

    /// The value, in units of `2^-149`: an exact integer. An infinity lies beyond every finite
    /// value; of NaN it says nothing.
    pub open spec fn units(self) -> int {
        if self.negative() {
            -magnitude(self.pattern())
        } else {
            magnitude(self.pattern())
        }
    }

    /// `self < other` as numbers compare: false wherever NaN takes part, and the two zeros are
    /// equal.
    pub open spec fn below(self, other: F32) -> bool {
        !self.nan() && !other.nan() && self.units() < other.units()
    }

    /// The value with the given bits.
    pub fn from_bits(bits: u32) -> (value: F32)
        ensures
            value.bits == bits,
    {
        F32 { bits }
    }

    /// The bits of the value.
    pub fn to_bits(self) -> (bits: u32)
        ensures
            bits == self.bits,
    {
        self.bits
    }

    pub(crate) fn pattern_bits(self) -> (pattern: u32)
        ensures
            pattern == self.pattern(),
            pattern < SIGN,
    {
        if self.bits >= SIGN {
            self.bits - SIGN
        } else {
            self.bits
        }
    }

    pub(crate) fn sign_bit(self) -> (negative: bool)
        ensures
            negative == self.negative(),
    {
        self.bits >= SIGN
    }

    /// The scale and the significand.
    pub(crate) fn decode(self) -> (parts: (u64, u32))
        ensures
            parts.0 == significand(self.pattern()),
            parts.1 == scale(self.pattern()),
            parts.0 < 0x100_0000,
            parts.1 < 0x100,
            parts.1 == 0 || parts.0 >= 0x80_0000,
            magnitude(self.pattern()) == parts.0 * pow2(parts.1 as nat),
    {
        let pattern: u32 = self.pattern_bits();
        let exponent: u32 = pattern / HIDDEN;
        proof {
            lemma_magnitude_unpack(pattern as int);
        }
        let t: u32 = if exponent == 0 { 0 } else { exponent - 1 };
        ((pattern - t * HIDDEN) as u64, t)
    }

    /// The value of a sign and a pattern.
    pub(crate) fn signed(negative: bool, pattern: u32) -> (value: F32)
        requires
            pattern <= INFINITY,
        ensures
            value.negative() == negative,
            value.pattern() == pattern,
            value.bits == pattern + if negative { 0x8000_0000int } else { 0int },
    {
        if negative {
            F32 { bits: pattern + SIGN }
        } else {
            F32 { bits: pattern }
        }
    }

    /// Whether the value is neither infinite nor NaN.
    pub fn is_finite(self) -> (r: bool)
        ensures
            r == self.finite(),
    {
        self.pattern_bits() < INFINITY
    }

    /// Whether the value is infinite.
    pub fn is_infinite(self) -> (r: bool)
        ensures
            r == self.infinite(),
    {
        self.pattern_bits() == INFINITY
    }

    /// Whether the value is NaN.
    pub fn is_nan(self) -> (r: bool)
        ensures
            r == self.nan(),
    {
        self.pattern_bits() > INFINITY
    }

    /// The bits as a signed count of patterns from zero, in the order of the values.
    pub open spec fn rank(self) -> int {
        if self.negative() {
            -self.pattern()
        } else {
            self.pattern()
        }
    }

    /// `self < other`.
    pub fn lt(self, other: F32) -> (r: bool)
        ensures
            r == self.below(other),
    {
        proof {
            lemma_rank_order(self, other);
        }
        let a: i64 = self.pattern_bits() as i64;
        let b: i64 = other.pattern_bits() as i64;
        let a: i64 = if self.sign_bit() { -a } else { a };
        let b: i64 = if other.sign_bit() { -b } else { b };
        !self.is_nan() && !other.is_nan() && a < b
    }

    /// `self <= other`.
    pub fn le(self, other: F32) -> (r: bool)
        ensures
            r == (!self.nan() && !other.nan() && self.units() <= other.units()),
    {
        !self.is_nan() && !other.is_nan() && !other.lt(self)
    }

    /// The larger of two values; a NaN gives way to the other.
    pub fn max(self, other: F32) -> (r: F32)
        ensures
            r == maximum(self, other),
    {
        if self.is_nan() || self.lt(other) {
            other
        } else {
            self
        }
    }

    /// The smaller of two values; a NaN gives way to the other.
    pub fn min(self, other: F32) -> (r: F32)
        ensures
            r == minimum(self, other),
    {
        if self.is_nan() || other.lt(self) {
            other
        } else {
            self
        }
    }

    /// The nearest value in a closed range; NaN stays.
    pub fn clamp(self, low: F32, high: F32) -> (r: F32)
        requires
            !low.nan(),
            !high.nan(),
            low.units() <= high.units(),
        ensures
            r == clamped(self, low, high),
    {
        if self.lt(low) {
            low
        } else if high.lt(self) {
            high
        } else {
            self
        }
    }
}

/// The larger of two values; a NaN gives way to the other.
pub open spec fn maximum(a: F32, b: F32) -> F32 {
    if a.nan() || a.below(b) {
        b
    } else {
        a
    }
}

/// The smaller of two values; a NaN gives way to the other.
pub open spec fn minimum(a: F32, b: F32) -> F32 {
    if a.nan() || b.below(a) {
        b
    } else {
        a
    }
}

/// The nearest value to `a` in a closed range.
pub open spec fn clamped(a: F32, low: F32, high: F32) -> F32 {
    if a.below(low) {
        low
    } else if high.below(a) {
        high
    } else {
        a
    }
}

/// Values are ordered as their ranks are.
pub proof fn lemma_rank_order(a: F32, b: F32)
    ensures
        a.units() < b.units() <==> a.rank() < b.rank(),
        a.units() == b.units() <==> a.rank() == b.rank(),
{
    let p = a.pattern();
    let q = b.pattern();
    assert(magnitude(0) == 0);
    if p > 0 {
        lemma_magnitude_increases(0, p);
    }
    if q > 0 {
        lemma_magnitude_increases(0, q);
    }
    if p < q {
        lemma_magnitude_increases(p, q);
    } else if q < p {
        lemma_magnitude_increases(q, p);
    }
}

/// The value nearest to `p / q` units, with the given sign.
pub open spec fn rounded(p: int, q: int, negative: bool) -> F32 {
    let pattern = choose|pattern: int| nearest(abs(p) as int, q, pattern);
    F32 { bits: (pattern + if negative { 0x8000_0000int } else { 0int }) as u32 }
}

/// A nearest pattern and the sign are the rounded value.
pub proof fn lemma_rounded(p: int, q: int, value: F32)
    requires
        0 < q,
        nearest(abs(p) as int, q, value.pattern()),
    ensures
        rounded(p, q, value.negative()) == value,
{
    let pattern = choose|pattern: int| nearest(abs(p) as int, q, pattern);
    lemma_nearest_unique(abs(p) as int, q, pattern, value.pattern());
}

/// A value rounds to itself.
pub proof fn lemma_rounded_exact(value: F32)
    requires
        !value.nan(),
    ensures
        rounded(value.units(), 1, value.negative()) == value,
{
    lemma_nearest_exact(value.pattern());
    lemma_magnitude_bounds(value.pattern());
    lemma_rounded(value.units(), 1, value);
}

} // verus!
