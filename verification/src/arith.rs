//! Addition, subtraction, multiplication and division, each rounded once.
use crate::magnitude::{
    lemma_magnitude_bounds, lemma_magnitude_increases, lemma_magnitude_step, magnitude,
    one_in_units, scale, INFINITY,
};
use crate::rounding::{lemma_nearest_scaled, nearest, round, DEPTH};
use crate::single::{lemma_rounded, rounded, F32, NAN, SIGN};
use vstd::arithmetic::power2::{
    lemma2_to64, lemma2_to64_rest, lemma_pow2_adds, lemma_pow2_pos, lemma_pow2_strictly_increases,
    lemma_pow2_unfold, pow2,
};
use vstd::math::abs;
use vstd::prelude::*;

verus! {

/// The NaN that an invalid operation gives.
pub open spec fn not_a_number() -> F32 {
    F32 { bits: NAN }
}

/// The infinity of a sign.
pub open spec fn infinity(negative: bool) -> F32 {
    F32 { bits: if negative { 0xff80_0000 } else { 0x7f80_0000 } }
}

/// The zero of a sign.
pub open spec fn zero(negative: bool) -> F32 {
    F32 { bits: if negative { 0x8000_0000 } else { 0 } }
}

/// `a` with the other sign.
pub open spec fn negated(a: F32) -> F32 {
    F32 { bits: if a.negative() { (a.bits - SIGN) as u32 } else { (a.bits + SIGN) as u32 } }
}

/// `a + b`: the exact sum rounded, a sum of zero positive unless both terms carry a minus.
pub open spec fn sum(a: F32, b: F32) -> F32 {
    if a.nan() || b.nan() || (a.infinite() && b.infinite() && a.negative() != b.negative()) {
        not_a_number()
    } else if a.infinite() {
        a
    } else if b.infinite() {
        b
    } else {
        let exact = a.units() + b.units();
        rounded(exact, 1, exact < 0 || (exact == 0 && a.negative() && b.negative()))
    }
}

/// `a - b`.
pub open spec fn difference(a: F32, b: F32) -> F32 {
    sum(a, negated(b))
}

/// `a * b`: the exact product rounded.
pub open spec fn product(a: F32, b: F32) -> F32 {
    let negative = a.negative() != b.negative();
    if a.nan() || b.nan() {
        not_a_number()
    } else if a.infinite() || b.infinite() {
        if a.units() == 0 || b.units() == 0 {
            not_a_number()
        } else {
            infinity(negative)
        }
    } else {
        rounded(a.units() * b.units(), one_in_units(), negative)
    }
}

/// `a / b`: the exact quotient rounded.
pub open spec fn quotient(a: F32, b: F32) -> F32 {
    let negative = a.negative() != b.negative();
    if a.nan() || b.nan() || (a.infinite() && b.infinite()) || (a.units() == 0 && b.units() == 0) {
        not_a_number()
    } else if a.infinite() || b.units() == 0 {
        infinity(negative)
    } else if b.infinite() {
        zero(negative)
    } else {
        rounded(a.units() * one_in_units(), abs(b.units()) as int, negative)
    }
}

/// Whatever is below a quarter of the last place of a magnitude leaves its rounding alone.
proof fn lemma_absorbed(r: int, p: int)
    requires
        0 <= r < INFINITY,
        scale(r) >= 2,
        magnitude(r) - pow2((scale(r) - 2) as nat) < p < magnitude(r) + pow2((scale(r) - 2) as nat),
    ensures
        nearest(p, 1, r),
{
    let t = scale(r);
    lemma_pow2_unfold(t as nat);
    lemma_pow2_unfold((t - 1) as nat);
    lemma_pow2_pos((t - 2) as nat);
    lemma_magnitude_step(r);
    assert(r > 0);
    lemma_magnitude_step(r - 1);
    assert(scale(r - 1) == t || scale(r - 1) == t - 1);
}

impl F32 {
    /// The value with the other sign.
    pub fn neg(self) -> (r: F32)
        ensures
            r == negated(self),
    {
        if self.bits >= SIGN {
            F32 { bits: self.bits - SIGN }
        } else {
            F32 { bits: self.bits + SIGN }
        }
    }

    /// The sum of finite values of which the first has the larger magnitude.
    fn plus_ordered(self, other: F32) -> (r: F32)
        requires
            self.finite(),
            other.finite(),
            other.pattern() <= self.pattern(),
        ensures
            r == sum(self, other),
    {
        let (k1, t1) = self.decode();
        let (k2, t2) = other.decode();
        let ghost exact = self.units() + other.units();
        let ghost m1 = magnitude(self.pattern());
        let ghost m2 = magnitude(other.pattern());
        let same = self.sign_bit() == other.sign_bit();
        let ghost size = if same { m1 + m2 } else { m1 - m2 };
        proof {
            lemma_magnitude_bounds(self.pattern());
            lemma_magnitude_bounds(other.pattern());
            if other.pattern() < self.pattern() {
                lemma_magnitude_increases(other.pattern(), self.pattern());
            }
            assert(abs(exact) as int == size);
        }
        if t1 - t2 > 38 {
            proof {
                let w = pow2((t1 - 2) as nat) as int;
                lemma_pow2_adds((t1 - 2 - t2) as nat, t2 as nat);
                let v = pow2((t1 - 2 - t2) as nat) as int;
                let u = pow2(t2 as nat) as int;
                lemma_pow2_pos(t2 as nat);
                lemma2_to64();
                if t1 - 2 - t2 > 24 {
                    lemma_pow2_strictly_increases(24, (t1 - 2 - t2) as nat);
                }
                assert(m2 < w) by (nonlinear_arith)
                    requires
                        m2 == k2 * u,
                        w == v * u,
                        k2 < 0x100_0000 <= v,
                        0 < u,
                ;
                lemma_absorbed(self.pattern(), size);
                assert(m2 < m1) by {
                    if m1 <= m2 {
                        assert(t1 == t2);
                    }
                }
                lemma_rounded(exact, 1, self);
            }
            self
        } else {
            let shift: u32 = t1 - t2;
            proof {
                lemma2_to64();
                lemma2_to64_rest();
                if shift < 38 {
                    lemma_pow2_strictly_increases(shift as nat, 38);
                }
                vstd::bits::lemma_u64_shl_is_mul(1, shift as u64);
            }
            let factor: u64 = 1u64 << (shift as u64);
            let ghost f = factor as int;
            let ghost u = pow2(t2 as nat) as int;
            proof {
                assert(f == pow2(shift as nat));
                lemma_pow2_pos(t2 as nat);
                lemma_pow2_adds(shift as nat, t2 as nat);
                assert(k1 * f < 0x4000_0000_0000_0000) by (nonlinear_arith)
                    requires
                        k1 < 0x100_0000,
                        0 <= k1,
                        0 <= f <= 0x40_0000_0000,
                ;
                assert(m1 == (k1 * f) * u) by (nonlinear_arith)
                    requires
                        m1 == k1 * pow2(t1 as nat),
                        pow2(t1 as nat) == f * u,
                ;
                assert(k2 <= k1 * f) by (nonlinear_arith)
                    requires
                        k2 * u <= (k1 * f) * u,
                        0 < u,
                ;
            }
            let aligned: u64 = k1 * factor;
            let k: u64 = if same { aligned + k2 } else { aligned - k2 };
            let ghost depth = pow2(256) as int;
            proof {
                assert(size == k * u) by (nonlinear_arith)
                    requires
                        m1 == aligned * u,
                        m2 == k2 * u,
                        same ==> size == m1 + m2 && k == aligned + k2,
                        !same ==> size == m1 - m2 && k == aligned - k2,
                ;
                lemma_pow2_pos(256);
                lemma_pow2_adds(t2 as nat, 256);
                lemma_pow2_pos((t2 + 256) as nat);
                let step = pow2((t2 + 256) as nat) * 1;
                assert(size * depth == k * step) by (nonlinear_arith)
                    requires
                        size == k * u,
                        step == u * depth,
                ;
            }
            let pattern: u32 = round(
                k,
                t2 + DEPTH,
                false,
                false,
                Ghost(size * depth),
                Ghost(1int),
            );
            let negative = if k == 0 {
                same && self.sign_bit()
            } else {
                self.sign_bit()
            };
            let r = F32::signed(negative, pattern);
            proof {
                lemma_nearest_scaled(size, 1, depth, pattern as int);
                lemma_rounded(exact, 1, r);
                assert(k > 0 ==> size > 0) by (nonlinear_arith)
                    requires
                        size == k * u,
                        0 < u,
                ;
            }
            r
        }
    }

    /// `self + other`.
    pub fn plus(self, other: F32) -> (r: F32)
        ensures
            r == sum(self, other),
    {
        if self.is_nan() || other.is_nan() || (self.is_infinite() && other.is_infinite()
            && self.sign_bit() != other.sign_bit()) {
            F32 { bits: NAN }
        } else if self.is_infinite() {
            self
        } else if other.is_infinite() {
            other
        } else if other.pattern_bits() <= self.pattern_bits() {
            self.plus_ordered(other)
        } else {
            other.plus_ordered(self)
        }
    }

    /// `self - other`.
    pub fn minus(self, other: F32) -> (r: F32)
        ensures
            r == difference(self, other),
    {
        self.plus(other.neg())
    }

    /// `self * other`.
    pub fn times(self, other: F32) -> (r: F32)
        ensures
            r == product(self, other),
    {
        let negative = self.sign_bit() != other.sign_bit();
        proof {
            if !self.nan() && !other.nan() {
                lemma_magnitude_bounds(self.pattern());
                lemma_magnitude_bounds(other.pattern());
            }
        }
        if self.is_nan() || other.is_nan() {
            F32 { bits: NAN }
        } else if self.is_infinite() || other.is_infinite() {
            if self.pattern_bits() == 0 || other.pattern_bits() == 0 {
                F32 { bits: NAN }
            } else {
                F32::signed(negative, INFINITY)
            }
        } else {
            let (k1, t1) = self.decode();
            let (k2, t2) = other.decode();
            let ghost m1 = magnitude(self.pattern());
            let ghost m2 = magnitude(other.pattern());
            let ghost size = m1 * m2;
            let ghost c = pow2(107) as int;
            proof {
                assert(k1 * k2 < 0x1_0000_0000_0000) by (nonlinear_arith)
                    requires
                        0 <= k1 < 0x100_0000,
                        0 <= k2 < 0x100_0000,
                ;
                let u1 = pow2(t1 as nat) as int;
                let u2 = pow2(t2 as nat) as int;
                lemma_pow2_adds(t1 as nat, t2 as nat);
                lemma_pow2_adds((t1 + t2) as nat, 107);
                lemma_pow2_pos((t1 + t2 + 107) as nat);
                lemma_pow2_pos(107);
                let step = pow2((t1 + t2 + 107) as nat) * 1;
                assert(size * c == (k1 * k2) * step) by (nonlinear_arith)
                    requires
                        size == m1 * m2,
                        m1 == k1 * u1,
                        m2 == k2 * u2,
                        step == (u1 * u2) * c,
                ;
            }
            let k: u64 = k1 * k2;
            let pattern: u32 = round(
                k,
                t1 + t2 + 107,
                false,
                false,
                Ghost(size * c),
                Ghost(1int),
            );
            let r = F32::signed(negative, pattern);
            proof {
                let exact = self.units() * other.units();
                lemma_pow2_adds(149, 107);
                lemma_nearest_scaled(size, one_in_units(), c, pattern as int);
                assert(abs(exact) as int == size) by (nonlinear_arith)
                    requires
                        exact == self.units() * other.units(),
                        size == m1 * m2,
                        0 <= m1,
                        0 <= m2,
                        self.units() == m1 || self.units() == -m1,
                        other.units() == m2 || other.units() == -m2,
                ;
                lemma_pow2_pos(149);
                lemma_rounded(exact, one_in_units(), r);
            }
            r
        }
    }

    /// The quotient of finite values other than zero.
    fn over_finite(self, other: F32) -> (r: F32)
        requires
            self.finite(),
            other.finite(),
            self.pattern() > 0,
            other.pattern() > 0,
        ensures
            r == quotient(self, other),
    {
        let (k1, t1) = self.decode();
        let (k2, t2) = other.decode();
        let ghost m1 = magnitude(self.pattern());
        let ghost m2 = magnitude(other.pattern());
        proof {
            lemma_magnitude_bounds(self.pattern());
            lemma_magnitude_bounds(other.pattern());
            assert(k1 > 0) by (nonlinear_arith)
                requires
                    m1 == k1 * pow2(t1 as nat),
                    m1 > 0,
                    k1 >= 0,
            ;
            assert(k2 > 0) by (nonlinear_arith)
                requires
                    m2 == k2 * pow2(t2 as nat),
                    m2 > 0,
                    k2 >= 0,
            ;
        }
        let (n1, s1) = normalize(k1);
        let (n2, s2) = normalize(k2);
        proof {
            lemma2_to64_rest();
        }
        let wide: u64 = n1 * 0x80_0000_0000;
        let k: u64 = wide / n2;
        let rest: u64 = wide % n2;
        let half = 2 * rest >= n2;
        let sticky = rest != 0 && 2 * rest != n2;
        let t: u32 = t1 + 366 + s2 - s1 - t2;
        let ghost c = pow2(288) as int;
        let ghost d = m2 * pow2(32);
        let ghost p = m1 * one_in_units() * c;
        proof {
            lemma_pow2_pos(32);
            lemma_pow2_pos(288);
            lemma_pow2_pos(149);
            assert(0 < d) by (nonlinear_arith)
                requires
                    d == m2 * pow2(32),
                    0 < m2,
                    0 < pow2(32),
            ;
            assert(k >= 0x100_0000) by (nonlinear_arith)
                requires
                    k == (n1 * 0x80_0000_0000) / n2 as int,
                    n1 >= 0x80_0000,
                    0 < n2 < 0x100_0000,
            ;
            assert(wide == k * n2 + rest) by (nonlinear_arith)
                requires
                    0 < n2,
                    k == wide as int / n2 as int,
                    rest == wide as int % n2 as int,
            ;
            // Both sides of the quotient as multiples of one power of two.
            let e = (t1 - s1 + 398) as nat;
            let w = pow2(e) as int;
            lemma_pow2_pos(e);
            let step = pow2(t as nat) * d;
            assert(step == n2 * w) by {
                lemma_pow2_adds(t2 as nat, 32);
                lemma_pow2_adds((t2 + 32 - s2) as nat, s2 as nat);
                lemma_pow2_adds(t as nat, (t2 + 32 - s2) as nat);
                let a = pow2(t as nat) as int;
                let b = pow2((t2 + 32 - s2) as nat) as int;
                let z = pow2(s2 as nat) as int;
                let y = pow2(t2 as nat) as int;
                assert(step == n2 * w) by (nonlinear_arith)
                    requires
                        step == a * (m2 * pow2(32)),
                        m2 == k2 * y,
                        y * pow2(32) == b * z,
                        n2 == k2 * z,
                        w == a * b,
                ;
            }
            assert(p == wide * w) by {
                lemma_pow2_adds(t1 as nat, 149);
                lemma_pow2_adds((t1 + 149) as nat, 288);
                lemma_pow2_adds((t1 + 437 - s1) as nat, s1 as nat);
                lemma_pow2_adds(39, e);
                let x = pow2(t1 as nat) as int;
                let o = one_in_units();
                let v = pow2((t1 + 437 - s1) as nat) as int;
                let z = pow2(s1 as nat) as int;
                assert(p == wide * w) by (nonlinear_arith)
                    requires
                        p == m1 * o * c,
                        m1 == k1 * x,
                        (x * o) * c == v * z,
                        v == 0x80_0000_0000 * w,
                        n1 == k1 * z,
                        wide == n1 * 0x80_0000_0000,
                ;
            }
            assert(p - k * step == rest * w) by (nonlinear_arith)
                requires
                    p == wide * w,
                    step == n2 * w,
                    wide == k * n2 + rest,
            ;
            let left = p - k * step;
            assert(0 <= left < step && (2 * rest >= n2 <==> 2 * left >= step) && (2 * rest == n2
                <==> 2 * left == step) && (rest == 0 <==> left == 0)) by (nonlinear_arith)
                requires
                    left == rest * w,
                    step == n2 * w,
                    0 <= rest < n2,
                    0 < w,
            ;
        }
        let pattern: u32 = round(k, t, half, sticky, Ghost(p), Ghost(d));
        let r = F32::signed(self.sign_bit() != other.sign_bit(), pattern);
        proof {
            let exact = self.units() * one_in_units();
            let size = m1 * one_in_units();
            lemma_pow2_adds(256, 32);
            assert(pow2(256) * d == m2 * c) by (nonlinear_arith)
                requires
                    d == m2 * pow2(32),
                    c == pow2(256) * pow2(32),
            ;
            lemma_nearest_scaled(size, m2, c, pattern as int);
            assert(abs(exact) as int == size) by (nonlinear_arith)
                requires
                    exact == self.units() * one_in_units(),
                    size == m1 * one_in_units(),
                    0 <= m1,
                    0 < one_in_units(),
                    self.units() == m1 || self.units() == -m1,
            ;
            lemma_rounded(exact, m2, r);
        }
        r
    }

    /// `self / other`.
    pub fn over(self, other: F32) -> (r: F32)
        ensures
            r == quotient(self, other),
    {
        let negative = self.sign_bit() != other.sign_bit();
        proof {
            if !self.nan() && !other.nan() {
                lemma_magnitude_bounds(self.pattern());
                lemma_magnitude_bounds(other.pattern());
                lemma_pow2_pos(149);
            }
        }
        let a: u32 = self.pattern_bits();
        let b: u32 = other.pattern_bits();
        if self.is_nan() || other.is_nan() || (self.is_infinite() && other.is_infinite()) || (a == 0
            && b == 0) {
            F32 { bits: NAN }
        } else if self.is_infinite() || b == 0 {
            F32::signed(negative, INFINITY)
        } else if other.is_infinite() {
            F32::signed(negative, 0)
        } else if a == 0 {
            let r = F32::signed(negative, 0);
            proof {
                lemma_nearest_zero(abs(other.units()) as int);
                assert(self.units() * one_in_units() == 0) by (nonlinear_arith)
                    requires
                        self.units() == 0,
                ;
                lemma_rounded(self.units() * one_in_units(), abs(other.units()) as int, r);
            }
            r
        } else {
            self.over_finite(other)
        }
    }
}

/// Nothing rounds to nothing.
proof fn lemma_nearest_zero(q: int)
    requires
        0 < q,
    ensures
        nearest(0, q, 0),
{
    lemma_magnitude_step(0);
    let high = magnitude(0) + magnitude(1);
    assert(0 < q * high) by (nonlinear_arith)
        requires
            0 < q,
            0 < high,
    ;
}

/// A significand shifted up until its hidden bit is set.
fn normalize(k: u64) -> (r: (u64, u32))
    requires
        0 < k < 0x100_0000,
    ensures
        0x80_0000 <= r.0 < 0x100_0000,
        r.1 <= 23,
        r.0 == k * pow2(r.1 as nat),
{
    let mut n: u64 = k;
    let mut s: u32 = 0;
    proof {
        lemma2_to64();
    }
    while n < 0x80_0000
        invariant
            0 < k,
            0 < n < 0x100_0000,
            s <= 23,
            n == k * pow2(s as nat),
        decreases 0x100_0000 - n,
    {
        proof {
            lemma2_to64();
            lemma_pow2_unfold((s + 1) as nat);
            assert(2 * n == k * pow2((s + 1) as nat)) by (nonlinear_arith)
                requires
                    n == k * pow2(s as nat),
                    pow2((s + 1) as nat) == 2 * pow2(s as nat),
            ;
            if s == 23 {
                assert(n >= pow2(23)) by (nonlinear_arith)
                    requires
                        n == k * pow2(s as nat),
                        0 < k,
                        s == 23,
                ;
            }
        }
        n = 2 * n;
        s = s + 1;
    }
    (n, s)
}

} // verus!
