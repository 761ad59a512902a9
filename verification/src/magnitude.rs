//! Magnitudes of single-precision bit patterns.
//!
//! A non-negative pattern (a binary32 value with the sign bit cleared) is read as an integer
//! multiple of the smallest subnormal, `2^-149`. Read that way every finite value is an exact
//! integer, and patterns are ordered as their magnitudes are.
use vstd::arithmetic::power2::{lemma2_to64, lemma_pow2_pos, lemma_pow2_unfold, pow2};
use vstd::prelude::*;

verus! {

/// The pattern of positive infinity: every exponent bit set, no fraction bit.
pub const INFINITY: u32 = 0x7f80_0000;

/// The weight of the lowest exponent bit: `2^23`.
pub const HIDDEN: u32 = 0x80_0000;

/// The exponent of the unit in which magnitudes are counted: one is `2^149` units.
pub const UNIT_EXPONENT: u32 = 149;

/// The number of units in one.
pub open spec fn one_in_units() -> int {
    pow2(149) as int
}

/// The magnitude of a pattern, in units of `2^-149`. The pattern of infinity gets the value that
/// the next finite magnitude would have: no finite magnitude reaches it.
pub open spec fn magnitude(pattern: int) -> int {
    let exponent = pattern / 0x80_0000;
    let fraction = pattern % 0x80_0000;
    if exponent == 0 {
        fraction
    } else {
        (0x80_0000 + fraction) * pow2((exponent - 1) as nat)
    }
}

/// The power of two by which the significand of a pattern is scaled.
pub open spec fn scale(pattern: int) -> int {
    let exponent = pattern / 0x80_0000;
    if exponent == 0 {
        0
    } else {
        exponent - 1
    }
}

/// The significand of a pattern, hidden bit included.
pub open spec fn significand(pattern: int) -> int {
    pattern - scale(pattern) * 0x80_0000
}

/// A scale and a significand make a pattern; the significand may have carried into `2^24`.
pub proof fn lemma_magnitude_pack(t: int, k: int)
    requires
        0 <= t,
        0 <= k <= 0x100_0000,
        t == 0 || k >= 0x80_0000,
    ensures
        magnitude(t * 0x80_0000 + k) == k * pow2(t as nat),
{
    let p = t * 0x80_0000 + k;
    lemma_pow2_unfold(1);
    lemma2_to64();
    if k < 0x80_0000 {
        assert(p / 0x80_0000 == 0);
    } else if k < 0x100_0000 {
        assert(p / 0x80_0000 == t + 1);
        assert(p % 0x80_0000 == k - 0x80_0000);
    } else {
        assert(p / 0x80_0000 == t + 2);
        assert(p % 0x80_0000 == 0);
        lemma_pow2_unfold((t + 1) as nat);
        assert(0x80_0000 * pow2((t + 1) as nat) == 0x100_0000 * pow2(t as nat));
    }
}

/// Every pattern is its scale and its significand.
pub proof fn lemma_magnitude_unpack(p: int)
    requires
        0 <= p,
    ensures
        scale(p) >= 0,
        0 <= significand(p) < 0x100_0000,
        scale(p) == 0 || significand(p) >= 0x80_0000,
        p == scale(p) * 0x80_0000 + significand(p),
        magnitude(p) == significand(p) * pow2(scale(p) as nat),
{
    lemma_magnitude_pack(scale(p), significand(p));
}

/// The next pattern is larger by one unit in the last place.
pub proof fn lemma_magnitude_step(p: int)
    requires
        0 <= p,
    ensures
        magnitude(p + 1) == magnitude(p) + pow2(scale(p) as nat),
        magnitude(p) < magnitude(p + 1),
        0 <= magnitude(p),
{
    lemma_magnitude_unpack(p);
    let t = scale(p);
    let k = significand(p);
    lemma_magnitude_pack(t, k + 1);
    lemma_pow2_pos(t as nat);
    let w = pow2(t as nat) as int;
    assert((k + 1) * w == k * w + w) by (nonlinear_arith);
    assert(0 <= k * w) by (nonlinear_arith)
        requires
            0 <= k,
            0 < w,
    ;
}

/// Patterns are ordered as their magnitudes are.
pub proof fn lemma_magnitude_increases(a: int, b: int)
    requires
        0 <= a < b,
    ensures
        0 <= magnitude(a) < magnitude(b),
    decreases b - a,
{
    lemma_magnitude_step(a);
    if a + 1 < b {
        lemma_magnitude_increases(a + 1, b);
    }
}

/// Equal magnitudes belong to equal patterns.
pub proof fn lemma_magnitude_injective(a: int, b: int)
    requires
        0 <= a,
        0 <= b,
        magnitude(a) == magnitude(b),
    ensures
        a == b,
{
    if a < b {
        lemma_magnitude_increases(a, b);
    } else if b < a {
        lemma_magnitude_increases(b, a);
    }
}

/// The magnitudes at the ends of the range.
pub proof fn lemma_magnitude_bounds(p: int)
    requires
        0 <= p <= 0x7f80_0000,
    ensures
        magnitude(0) == 0,
        magnitude(0x7f80_0000) == 0x80_0000 * pow2(254),
        0 <= magnitude(p) <= magnitude(0x7f80_0000),
        p > 0 ==> magnitude(p) > 0,
        p < 0x7f80_0000 ==> magnitude(p) < magnitude(0x7f80_0000),
{
    assert(0x7f80_0000int / 0x80_0000 == 255);
    assert(0x7f80_0000int % 0x80_0000 == 0);
    if p > 0 {
        lemma_magnitude_increases(0, p);
    }
    if p < 0x7f80_0000 {
        lemma_magnitude_increases(p, 0x7f80_0000);
    }
}

} // verus!
