//! Rounding to whole numbers, and conversion from and to unsigned integers.
use crate::magnitude::{lemma_magnitude_bounds, magnitude, one_in_units, UNIT_EXPONENT};
use crate::rounding::{lemma_nearest_scaled, round, DEPTH};
use crate::single::{lemma_rounded, lemma_rounded_exact, rounded, F32};
use vstd::arithmetic::div_mod::{
    lemma_basic_div, lemma_fundamental_div_mod, lemma_fundamental_div_mod_converse,
    lemma_mod_bound, lemma_small_mod,
};
use vstd::arithmetic::power2::{
    lemma2_to64, lemma_pow2_adds, lemma_pow2_pos, lemma_pow2_strictly_increases, pow2,
};
use vstd::prelude::*;

verus! {

/// The greatest whole number not above a value.
pub open spec fn whole_below(units: int) -> int {
    units / one_in_units()
}

/// The least whole number not below a value.
pub open spec fn whole_above(units: int) -> int {
    -((-units) / one_in_units())
}

/// The greatest whole number not above `a`; a result of zero keeps the sign.
pub open spec fn floored(a: F32) -> F32 {
    if a.finite() {
        rounded(whole_below(a.units()) * one_in_units(), 1, a.negative())
    } else {
        a
    }
}

/// The least whole number not below `a`; a result of zero keeps the sign.
pub open spec fn ceiled(a: F32) -> F32 {
    if a.finite() {
        rounded(whole_above(a.units()) * one_in_units(), 1, a.negative())
    } else {
        a
    }
}

/// The value nearest to a whole number.
pub open spec fn from_whole(n: int) -> F32 {
    rounded(n * one_in_units(), 1, false)
}

/// The whole part, saturated to the range of `u32`; NaN gives zero.
pub open spec fn to_whole(a: F32) -> int {
    if a.nan() || a.units() < 0 {
        0
    } else if whole_below(a.units()) > u32::MAX {
        u32::MAX as int
    } else {
        whole_below(a.units())
    }
}

/// The value of a sign and a whole number.
fn signed_whole(negative: bool, n: u64) -> (r: F32)
    ensures
        r == rounded(n * one_in_units(), 1, negative),
        r == rounded(-(n * one_in_units()), 1, negative),
        !r.nan(),
        r.negative() == negative,
{
    let ghost size = n * one_in_units();
    let ghost c = pow2(256) as int;
    proof {
        lemma_pow2_pos(149);
        lemma_pow2_pos(256);
        lemma_pow2_adds(149, 256);
        let step = pow2(405) * 1;
        assert(size * c == n * step) by (nonlinear_arith)
            requires
                size == n * one_in_units(),
                step == one_in_units() * c,
        ;
        assert(0 <= size) by (nonlinear_arith)
            requires
                size == n * one_in_units(),
                0 <= n,
                0 < one_in_units(),
        ;
        lemma_pow2_pos(405);
    }
    let pattern: u32 = round(
        n,
        UNIT_EXPONENT + DEPTH,
        false,
        false,
        Ghost(size * c),
        Ghost(1int),
    );
    let r = F32::signed(negative, pattern);
    proof {
        lemma_nearest_scaled(size, 1, c, pattern as int);
        lemma_rounded(size, 1, r);
        lemma_rounded(-size, 1, r);
    }
    r
}

/// Magnitudes at or above the unit scale are whole.
pub proof fn lemma_whole(k: int, t: int)
    requires
        0 <= k,
        149 <= t,
    ensures
        whole_below(k * pow2(t as nat)) == k * pow2((t - 149) as nat),
        whole_below(k * pow2(t as nat)) * one_in_units() == k * pow2(t as nat),
        whole_above(k * pow2(t as nat)) == k * pow2((t - 149) as nat),
        whole_below(-(k * pow2(t as nat))) == -(k * pow2((t - 149) as nat)),
        whole_above(-(k * pow2(t as nat))) == -(k * pow2((t - 149) as nat)),
{
    let o = one_in_units();
    let n = k * pow2((t - 149) as nat);
    lemma_pow2_adds(149, (t - 149) as nat);
    lemma_pow2_pos(149);
    assert(k * pow2(t as nat) == n * o) by (nonlinear_arith)
        requires
            n == k * pow2((t - 149) as nat),
            pow2(t as nat) == o * pow2((t - 149) as nat),
    ;
    assert((-n) * o == -(n * o)) by (nonlinear_arith);
    lemma_fundamental_div_mod_converse(n * o, o, n, 0);
    lemma_fundamental_div_mod_converse(-(n * o), o, -n, 0);
}

/// Below the unit scale the low bits of the significand are the fraction.
proof fn lemma_fraction(k: int, t: int)
    requires
        0 <= k,
        0 <= t < 149,
    ensures
        ({
            let m = k * pow2(t as nat);
            let b = pow2((149 - t) as nat) as int;
            &&& b > 0
            &&& whole_below(m) == k / b
            &&& whole_above(-m) == -(k / b)
            &&& whole_above(m) == k / b + if k % b == 0 { 0int } else { 1int }
            &&& whole_below(-m) == -(k / b + if k % b == 0 { 0int } else { 1int })
        }),
{
    let o = one_in_units();
    let m = k * pow2(t as nat);
    let b = pow2((149 - t) as nat) as int;
    let w = pow2(t as nat) as int;
    lemma_pow2_adds(t as nat, (149 - t) as nat);
    lemma_pow2_pos(t as nat);
    lemma_pow2_pos((149 - t) as nat);
    lemma_pow2_pos(149);
    let n = k / b;
    let f = k % b;
    lemma_fundamental_div_mod(k, b);
    lemma_mod_bound(k, b);
    let left = f * w;
    assert(m == n * o + left && 0 <= left < o && (f == 0 <==> left == 0)) by (nonlinear_arith)
        requires
            m == k * w,
            k == b * n + f,
            o == w * b,
            left == f * w,
            0 <= f < b,
            0 < w,
    ;
    lemma_fundamental_div_mod_converse(m, o, n, left);
    if f == 0 {
        assert(-m == (-n) * o + 0) by (nonlinear_arith)
            requires
                m == n * o + 0,
        ;
        lemma_fundamental_div_mod_converse(-m, o, -n, 0);
    } else {
        assert(-m == (-n - 1) * o + (o - left)) by (nonlinear_arith)
            requires
                m == n * o + left,
        ;
        lemma_fundamental_div_mod_converse(-m, o, -n - 1, o - left);
    }
}

/// The whole part of a significand below the unit scale, and whether a fraction is left.
fn whole_part(k: u64, t: u32) -> (r: (u64, bool))
    requires
        k < 0x100_0000,
        t < 149,
    ensures
        r.0 == k as int / pow2((149 - t) as nat) as int,
        r.1 == (k as int % pow2((149 - t) as nat) as int != 0),
        r.0 < 0x100_0000,
{
    let s: u32 = UNIT_EXPONENT - t;
    proof {
        lemma2_to64();
        lemma_pow2_pos(s as nat);
    }
    if s >= 24 {
        proof {
            if s > 24 {
                lemma_pow2_strictly_increases(24, s as nat);
            }
            lemma_small_mod(k as nat, pow2(s as nat));
            lemma_basic_div(k as int, pow2(s as nat) as int);
        }
        (0, k != 0)
    } else {
        proof {
            lemma_pow2_strictly_increases(s as nat, 24);
            vstd::bits::lemma_u64_shl_is_mul(1, s as u64);
        }
        let b: u64 = 1u64 << (s as u64);
        proof {
            assert(k as int / b as int <= k) by (nonlinear_arith)
                requires
                    0 <= k,
                    0 < b,
            ;
        }
        (k / b, k % b != 0)
    }
}

impl F32 {
    /// The greatest whole number not above the value.
    pub fn floor(self) -> (r: F32)
        ensures
            r == floored(self),
    {
        if !self.is_finite() {
            return self;
        }
        let (k, t) = self.decode();
        let negative = self.sign_bit();
        if t >= UNIT_EXPONENT {
            proof {
                lemma_whole(k as int, t as int);
                lemma_rounded_exact(self);
                let m = magnitude(self.pattern());
                assert(whole_below(self.units()) * one_in_units() == self.units()) by (nonlinear_arith)
                    requires
                        whole_below(m) * one_in_units() == m,
                        self.units() == m || (self.units() == -m && whole_below(-m) == -whole_below(
                            m,
                        )),
                ;
            }
            self
        } else {
            let (n, fraction) = whole_part(k, t);
            proof {
                lemma_fraction(k as int, t as int);
            }
            let n: u64 = if negative && fraction { n + 1 } else { n };
            proof {
                assert((-(n as int)) * one_in_units() == -(n * one_in_units())) by (nonlinear_arith);
            }
            signed_whole(negative, n)
        }
    }

    /// The least whole number not below the value.
    pub fn ceil(self) -> (r: F32)
        ensures
            r == ceiled(self),
    {
        if !self.is_finite() {
            return self;
        }
        let (k, t) = self.decode();
        let negative = self.sign_bit();
        if t >= UNIT_EXPONENT {
            proof {
                lemma_whole(k as int, t as int);
                lemma_rounded_exact(self);
                let m = magnitude(self.pattern());
                assert(whole_above(self.units()) * one_in_units() == self.units()) by (nonlinear_arith)
                    requires
                        whole_below(m) * one_in_units() == m,
                        (self.units() == m && whole_above(m) == whole_below(m)) || (self.units()
                            == -m && whole_above(-m) == -whole_below(m)),
                ;
            }
            self
        } else {
            let (n, fraction) = whole_part(k, t);
            proof {
                lemma_fraction(k as int, t as int);
            }
            let n: u64 = if !negative && fraction { n + 1 } else { n };
            proof {
                assert((-(n as int)) * one_in_units() == -(n * one_in_units())) by (nonlinear_arith);
            }
            signed_whole(negative, n)
        }
    }

    /// The value nearest to an integer.
    pub fn from_u32(n: u32) -> (r: F32)
        ensures
            r == from_whole(n as int),
    {
        signed_whole(false, n as u64)
    }

    /// The whole part, saturated.
    pub fn to_u32(self) -> (r: u32)
        ensures
            r == to_whole(self),
    {
        if self.is_nan() {
            return 0;
        }
        proof {
            lemma_magnitude_bounds(self.pattern());
        }
        if self.sign_bit() {
            proof {
                lemma_pow2_pos(149);
                assert(whole_below(0) == 0);
            }
            return 0;
        }
        let (k, t) = self.decode();
        if t >= UNIT_EXPONENT {
            let s: u32 = t - UNIT_EXPONENT;
            proof {
                lemma_whole(k as int, t as int);
                lemma2_to64();
                lemma_pow2_pos(s as nat);
            }
            if s >= 9 {
                proof {
                    if s > 9 {
                        lemma_pow2_strictly_increases(9, s as nat);
                    }
                    assert(k * pow2(s as nat) >= 0x1_0000_0000) by (nonlinear_arith)
                        requires
                            k >= 0x80_0000,
                            pow2(s as nat) >= 512,
                    ;
                }
                u32::MAX
            } else {
                proof {
                    lemma_pow2_strictly_increases(s as nat, 9);
                    assert(k * pow2(s as nat) < 0x2_0000_0000) by (nonlinear_arith)
                        requires
                            0 <= k < 0x100_0000,
                            0 <= pow2(s as nat) <= 512,
                    ;
                    vstd::bits::lemma_u64_shl_is_mul(k, s as u64);
                }
                let n: u64 = k << (s as u64);
                if n > u32::MAX as u64 {
                    u32::MAX
                } else {
                    n as u32
                }
            }
        } else {
            let (n, fraction) = whole_part(k, t);
            proof {
                lemma_fraction(k as int, t as int);
            }
            n as u32
        }
    }
}

} // verus!
