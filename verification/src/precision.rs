//! What rounding keeps: order, exact values, and how far it can move a value.
use crate::arith::{negated, product, sum};
use crate::integral::{ceiled, floored, from_whole, lemma_whole, whole_above, whole_below};
use crate::magnitude::{
    lemma_magnitude_bounds, lemma_magnitude_increases, lemma_magnitude_injective,
    lemma_magnitude_pack, lemma_magnitude_step, lemma_magnitude_unpack, magnitude, one_in_units,
    scale, significand, INFINITY,
};
use crate::rounding::{
    lemma_nearest_exact, lemma_nearest_monotone, lemma_nearest_unique, nearest,
};
use crate::single::{lemma_rank_order, lemma_rounded_exact, rounded, F32};
use vstd::arithmetic::div_mod::{
    lemma_fundamental_div_mod, lemma_fundamental_div_mod_converse,
};
use vstd::arithmetic::power2::{
    lemma2_to64, lemma_pow2_adds, lemma_pow2_pos, lemma_pow2_strictly_increases,
    lemma_pow2_unfold, pow2,
};
use vstd::math::abs;
use vstd::prelude::*;

verus! {

/// The pattern at or below `p / q`, when `p / q` is below the magnitude of pattern `n`.
proof fn lemma_pattern_below(p: int, q: int, n: int) -> (r: int)
    requires
        0 < q,
        0 <= p < q * magnitude(n),
        1 <= n,
    ensures
        0 <= r < n,
        q * magnitude(r) <= p < q * magnitude(r + 1),
    decreases n,
{
    if q * magnitude(n - 1) <= p {
        n - 1
    } else {
        assert(n != 1) by {
            assert(magnitude(0) == 0);
        }
        lemma_pattern_below(p, q, n - 1)
    }
}

/// Every magnitude has a nearest pattern.
pub proof fn lemma_nearest_exists(p: int, q: int) -> (r: int)
    requires
        0 <= p,
        0 < q,
    ensures
        nearest(p, q, r),
{
    let top = INFINITY as int;
    lemma_magnitude_bounds(top);
    if p < q * magnitude(top) {
        let r = lemma_pattern_below(p, q, top);
        lemma_magnitude_step(r);
        let low = magnitude(r);
        let high = magnitude(r + 1);
        assert(q * (low + low) == 2 * (q * low)) by (nonlinear_arith);
        assert(q * (high + high) == 2 * (q * high)) by (nonlinear_arith);
        if 2 * p < q * (low + high) || (2 * p == q * (low + high) && r % 2 == 0) {
            if r > 0 {
                lemma_magnitude_step(r - 1);
                let below = magnitude(r - 1);
                assert(q * (below + low) < q * (low + low)) by (nonlinear_arith)
                    requires
                        below < low,
                        0 < q,
                ;
            }
            r
        } else {
            if r + 1 < top {
                lemma_magnitude_step(r + 1);
                let above = magnitude(r + 2);
                assert(q * (high + high) < q * (high + above)) by (nonlinear_arith)
                    requires
                        high < above,
                        0 < q,
                ;
            }
            r + 1
        }
    } else {
        lemma_magnitude_step(top - 1);
        let low = magnitude(top - 1);
        let high = magnitude(top);
        assert(q * (low + high) < 2 * (q * high)) by (nonlinear_arith)
            requires
                low < high,
                0 < q,
        ;
        top
    }
}

/// A rounded value has the sign that was asked for and the nearest pattern.
pub proof fn lemma_rounded_pattern(p: int, q: int, negative: bool)
    requires
        0 < q,
    ensures
        nearest(abs(p) as int, q, rounded(p, q, negative).pattern()),
        rounded(p, q, negative).negative() == negative,
        !rounded(p, q, negative).nan(),
{
    let r = lemma_nearest_exists(abs(p) as int, q);
    let pattern = choose|pattern: int| nearest(abs(p) as int, q, pattern);
    assert(nearest(abs(p) as int, q, pattern));
}

/// A magnitude that a pattern has, over any unit, is rounded to that pattern.
pub proof fn lemma_nearest_multiple(r: int, q: int)
    requires
        0 <= r <= INFINITY,
        0 < q,
    ensures
        nearest(magnitude(r) * q, q, r),
{
    let m = magnitude(r);
    lemma_magnitude_step(r);
    let above = magnitude(r + 1);
    assert(2 * (m * q) < q * (m + above)) by (nonlinear_arith)
        requires
            m < above,
            0 < q,
    ;
    if r > 0 {
        lemma_magnitude_step(r - 1);
        let below = magnitude(r - 1);
        assert(2 * (m * q) > q * (below + m)) by (nonlinear_arith)
            requires
                below < m,
                0 < q,
        ;
    }
}

/// A significand of up to 24 bits at any scale has a pattern.
pub proof fn lemma_representable(k: int, t: int) -> (r: int)
    requires
        0 <= k <= 0x100_0000,
        0 <= t <= 253,
    ensures
        0 <= r <= INFINITY,
        k < 0x100_0000 || t < 253 ==> r < INFINITY,
        magnitude(r) == k * pow2(t as nat),
    decreases t,
{
    if k >= 0x80_0000 || t == 0 {
        lemma_magnitude_pack(t, k);
        t * 0x80_0000 + k
    } else {
        lemma_pow2_unfold(t as nat);
        assert((2 * k) * pow2((t - 1) as nat) == k * pow2(t as nat)) by (nonlinear_arith)
            requires
                pow2(t as nat) == 2 * pow2((t - 1) as nat),
        ;
        lemma_representable(2 * k, t - 1)
    }
}

/// An exact ratio is kept: `p / q` units, where some pattern has that magnitude.
pub proof fn lemma_rounded_keeps(p: int, q: int, negative: bool, r: int)
    requires
        0 < q,
        0 <= r <= INFINITY,
        abs(p) as int == magnitude(r) * q,
    ensures
        rounded(p, q, negative).pattern() == r,
        rounded(p, q, negative).negative() == negative,
        p >= 0 && !negative ==> rounded(p, q, negative).units() * q == p,
        p <= 0 && negative ==> rounded(p, q, negative).units() * q == p,
{
    lemma_rounded_pattern(p, q, negative);
    lemma_nearest_multiple(r, q);
    let v = rounded(p, q, negative);
    lemma_nearest_unique(abs(p) as int, q, r, v.pattern());
    assert((-magnitude(r)) * q == -(magnitude(r) * q)) by (nonlinear_arith);
}

/// Rounding keeps the order of values, whatever the sign of a zero.
pub proof fn lemma_rounded_monotone(p1: int, p2: int, q: int, negative1: bool, negative2: bool)
    requires
        0 < q,
        p1 <= p2,
        p1 < 0 ==> negative1,
        p1 > 0 ==> !negative1,
        p2 < 0 ==> negative2,
        p2 > 0 ==> !negative2,
    ensures
        rounded(p1, q, negative1).units() <= rounded(p2, q, negative2).units(),
{
    lemma_rounded_pattern(p1, q, negative1);
    lemma_rounded_pattern(p2, q, negative2);
    let a = rounded(p1, q, negative1);
    let b = rounded(p2, q, negative2);
    if p1 >= 0 {
        lemma_nearest_monotone(p1, p2, q, a.pattern(), b.pattern());
    }
    if p2 <= 0 {
        lemma_nearest_monotone(-p2, -p1, q, b.pattern(), a.pattern());
    }
    assert(magnitude(0) == 0);
    if p1 == 0 {
        lemma_nearest_multiple(0, q);
        lemma_nearest_unique(0, q, 0, a.pattern());
    }
    if p2 == 0 {
        lemma_nearest_multiple(0, q);
        lemma_nearest_unique(0, q, 0, b.pattern());
    }
    lemma_magnitude_bounds(a.pattern());
    lemma_magnitude_bounds(b.pattern());
    lemma_rank_order(a, b);
    lemma_rank_order(b, a);
}

/// Whole numbers of up to 24 bits are exact.
pub proof fn lemma_from_whole_exact(n: int)
    requires
        0 <= n <= 0x100_0000,
    ensures
        from_whole(n).units() == n * one_in_units(),
        from_whole(n).finite(),
        !from_whole(n).negative(),
{
    let r = lemma_representable(n, 149);
    let m = n * one_in_units();
    lemma_pow2_pos(149);
    assert(0 <= m) by (nonlinear_arith)
        requires
            m == n * one_in_units(),
            0 <= n,
            0 < one_in_units(),
    ;
    lemma_rounded_keeps(m, 1, false, r);
}

/// Up to `2^24` rounding moves a value by at most a half.
pub proof fn lemma_rounded_error(p: int, negative: bool)
    requires
        abs(p) <= 0x100_0000 * one_in_units(),
        p < 0 ==> negative,
        p > 0 ==> !negative,
    ensures
        rounded(p, 1, negative).finite(),
        2 * (rounded(p, 1, negative).units() - p) <= one_in_units(),
        2 * (p - rounded(p, 1, negative).units()) <= one_in_units(),
{
    lemma_rounded_pattern(p, 1, negative);
    let v = rounded(p, 1, negative);
    let r = v.pattern();
    let size = abs(p) as int;
    let top = lemma_representable(0x100_0000, 149);
    lemma_nearest_exact(top);
    lemma_nearest_monotone(size, magnitude(top), 1, r, top);
    lemma_magnitude_pack(149, 0x100_0000);
    lemma_magnitude_injective(top, 149int * 0x80_0000 + 0x100_0000);
    assert(r <= 151 * 0x80_0000);
    lemma_pow2_pos(149);
    if r < top {
        lemma_magnitude_step(r);
        assert(scale(r) <= 149);
        if scale(r) < 149 {
            lemma_pow2_strictly_increases(scale(r) as nat, 149);
        }
    }
    if r > 0 {
        lemma_magnitude_step(r - 1);
        assert(scale(r - 1) <= 149);
        if scale(r - 1) < 149 {
            lemma_pow2_strictly_increases(scale(r - 1) as nat, 149);
        }
    }
    if size == 0 {
        lemma_nearest_exact(0);
        lemma_nearest_unique(0, 1, 0, r);
    }
    assert(magnitude(0) == 0);
}

/// Rounding moves a ratio by at most one part in `2^24` of the result and half a unit.
pub proof fn lemma_rounded_relative(p: int, q: int)
    requires
        0 <= p,
        0 < q,
        rounded(p, q, false).finite(),
    ensures
        ({
            let near = q * rounded(p, q, false).units();
            &&& 0x100_0000 * (p - near) <= near + 0x80_0000 * q
            &&& 0x100_0000 * (near - p) <= near + 0x80_0000 * q
        }),
{
    lemma_rounded_pattern(p, q, false);
    let r = rounded(p, q, false).pattern();
    let m = magnitude(r);
    let t = scale(r);
    let k = significand(r);
    let w = pow2(t as nat) as int;
    lemma_magnitude_unpack(r);
    lemma_magnitude_step(r);
    lemma_pow2_pos(t as nat);
    lemma2_to64();
    // Half a last place is small against the magnitude, or half a unit.
    assert(0x80_0000 * w <= m + 0x80_0000) by (nonlinear_arith)
        requires
            m == k * w,
            0 <= k,
            0 < w,
            w == 1 || k >= 0x80_0000,
    ;
    let near = q * m;
    assert(0x80_0000 * (q * w) <= near + 0x80_0000 * q) by (nonlinear_arith)
        requires
            0x80_0000 * w <= m + 0x80_0000,
            near == q * m,
            0 < q,
    ;
    assert(q * (m + (m + w)) == 2 * near + q * w) by (nonlinear_arith)
        requires
            near == q * m,
    ;
    assert(0 <= near) by (nonlinear_arith)
        requires
            near == q * m,
            0 <= m,
            0 < q,
    ;
    if r > 0 {
        lemma_magnitude_step(r - 1);
        let v = pow2(scale(r - 1) as nat) as int;
        assert(scale(r - 1) == t || scale(r - 1) == t - 1);
        if scale(r - 1) < t {
            lemma_pow2_strictly_increases(scale(r - 1) as nat, t as nat);
        }
        assert(q * ((m - v) + m) >= 2 * near - q * w) by (nonlinear_arith)
            requires
                near == q * m,
                v <= w,
                0 < q,
        ;
    }
}

/// A finite sum lies on the same side of every representable value as the exact sum does.
pub proof fn lemma_sum_between(a: F32, b: F32, c: F32)
    requires
        a.finite(),
        b.finite(),
        !c.nan(),
    ensures
        !sum(a, b).nan(),
        c.units() <= a.units() + b.units() ==> c.units() <= sum(a, b).units(),
        c.units() >= a.units() + b.units() ==> c.units() >= sum(a, b).units(),
{
    let exact = a.units() + b.units();
    let negative = exact < 0 || (exact == 0 && a.negative() && b.negative());
    lemma_rounded_pattern(exact, 1, negative);
    lemma_magnitude_bounds(c.pattern());
    lemma_rounded_exact(c);
    if c.units() <= exact {
        lemma_rounded_monotone(c.units(), exact, 1, c.negative(), negative);
    }
    if c.units() >= exact {
        lemma_rounded_monotone(exact, c.units(), 1, negative, c.negative());
    }
}

/// A product of values that are not negative lies on the same side of every such value as the
/// exact product does.
pub proof fn lemma_product_between(a: F32, b: F32, c: F32)
    requires
        a.finite(),
        b.finite(),
        c.finite(),
        !a.negative(),
        !b.negative(),
        !c.negative(),
    ensures
        !product(a, b).nan(),
        !product(a, b).negative(),
        c.units() * one_in_units() <= a.units() * b.units() ==> c.units() <= product(a, b).units(),
        c.units() * one_in_units() >= a.units() * b.units() ==> c.units() >= product(a, b).units(),
{
    let o = one_in_units();
    let exact = a.units() * b.units();
    let bound = c.units() * o;
    lemma_pow2_pos(149);
    lemma_magnitude_bounds(a.pattern());
    lemma_magnitude_bounds(b.pattern());
    lemma_magnitude_bounds(c.pattern());
    assert(0 <= exact && 0 <= bound) by (nonlinear_arith)
        requires
            exact == a.units() * b.units(),
            bound == c.units() * o,
            0 <= a.units(),
            0 <= b.units(),
            0 <= c.units(),
            0 < o,
    ;
    lemma_rounded_pattern(exact, o, false);
    lemma_rounded_keeps(bound, o, false, c.pattern());
    if bound <= exact {
        lemma_rounded_monotone(bound, exact, o, false, false);
    }
    if exact <= bound {
        lemma_rounded_monotone(exact, bound, o, false, false);
    }
}

/// A sum of finite values overflows just where the exact sum lies half a last place beyond the
/// largest finite value, or farther.
pub proof fn law_sum_overflow(a: F32, b: F32)
    requires
        a.finite(),
        b.finite(),
    ensures
        sum(a, b).finite() <==> abs(a.units() + b.units()) < 0x1ff_ffff * pow2(252),
{
    let exact = a.units() + b.units();
    let negative = exact < 0 || (exact == 0 && a.negative() && b.negative());
    lemma_rounded_pattern(exact, 1, negative);
    let r = sum(a, b).pattern();
    let top = INFINITY as int;
    lemma_magnitude_bounds(top);
    lemma_magnitude_step(top - 1);
    lemma_pow2_unfold(254);
    lemma_pow2_unfold(253);
    assert(scale(top - 1) == 253);
    assert(magnitude(top - 1) + magnitude(top) == 2 * (0x1ff_ffff * pow2(252)));
    if r < top {
        lemma_magnitude_step(r);
        if r + 1 < top {
            lemma_magnitude_increases(r, top - 1);
            lemma_magnitude_increases(r + 1, top);
        }
    }
}

/// Changing the sign changes the sign of the value alone.
pub proof fn lemma_negated(a: F32)
    ensures
        negated(a).pattern() == a.pattern(),
        negated(a).negative() == !a.negative(),
        negated(a).units() == -a.units(),
{
}

/// Values within `2^34` do not overflow.
pub proof fn lemma_finite_below(v: F32)
    requires
        !v.nan(),
        abs(v.units()) <= 0x4_0000_0000 * one_in_units(),
    ensures
        v.finite(),
{
    let r = lemma_representable(0x40_0000, 161);
    lemma_pow2_adds(149, 12);
    lemma2_to64();
    lemma_magnitude_bounds(r);
    lemma_magnitude_bounds(v.pattern());
    let o = one_in_units();
    assert(magnitude(r) == 0x4_0000_0000 * o) by (nonlinear_arith)
        requires
            magnitude(r) == 0x40_0000 * pow2(161),
            pow2(161) == o * 0x1000,
    ;
    if v.infinite() {
        lemma_magnitude_increases(r, INFINITY as int);
    }
}

/// A value is whole from the scale on at which its last place is one.
pub proof fn lemma_whole_value(v: F32)
    requires
        v.finite(),
        scale(v.pattern()) >= 149,
    ensures
        whole_below(v.units()) * one_in_units() == v.units(),
        whole_above(v.units()) * one_in_units() == v.units(),
{
    let o = one_in_units();
    let m = magnitude(v.pattern());
    let n = whole_below(m);
    lemma_magnitude_unpack(v.pattern());
    lemma_whole(significand(v.pattern()), scale(v.pattern()));
    assert((-n) * o == -(n * o)) by (nonlinear_arith);
}

/// Values of at least `2^24` are whole.
pub proof fn lemma_large_value(v: F32)
    requires
        v.finite(),
        v.units() >= 0x100_0000 * one_in_units(),
    ensures
        whole_below(v.units()) * one_in_units() == v.units(),
{
    let p = v.pattern();
    lemma_pow2_pos(149);
    lemma_magnitude_bounds(p);
    lemma_magnitude_pack(149, 0x100_0000);
    let least = 149int * 0x80_0000 + 0x100_0000;
    if p < least {
        lemma_magnitude_increases(p, least);
    }
    lemma_whole_value(v);
}

/// The whole numbers around a value are exact.
pub proof fn lemma_whole_rounding(v: F32)
    requires
        v.finite(),
    ensures
        floored(v).finite(),
        floored(v).units() == whole_below(v.units()) * one_in_units(),
        ceiled(v).finite(),
        ceiled(v).units() == whole_above(v.units()) * one_in_units(),
{
    let o = one_in_units();
    let x = v.units();
    let t = scale(v.pattern());
    lemma_pow2_pos(149);
    lemma_magnitude_unpack(v.pattern());
    if t >= 149 {
        lemma_whole_value(v);
        lemma_rounded_exact(v);
    } else {
        let k = significand(v.pattern());
        let w = pow2(t as nat) as int;
        lemma_pow2_pos(t as nat);
        lemma_pow2_strictly_increases(t as nat, 149);
        assert(0 <= k * w <= 0x100_0000 * o) by (nonlinear_arith)
            requires
                0 <= k < 0x100_0000,
                0 < w <= o,
        ;
        lemma_whole_below_bounds(x);
        lemma_whole_above_bounds(x);
        let a = whole_below(x);
        let b = whole_above(x);
        lemma_magnitude_bounds(v.pattern());
        assert(-0x100_0000 <= a <= 0x100_0000 && (x >= 0 ==> a >= 0) && (x < 0 ==> a < 0))
            by (nonlinear_arith)
            requires
                a * o <= x < (a + 1) * o,
                -(0x100_0000 * o) <= x <= 0x100_0000 * o,
                0 < o,
        ;
        assert(-0x100_0000 <= b <= 0x100_0000 && (x > 0 ==> b > 0) && (x <= 0 ==> b <= 0))
            by (nonlinear_arith)
            requires
                x <= b * o < x + o,
                -(0x100_0000 * o) <= x <= 0x100_0000 * o,
                0 < o,
        ;
        lemma_signed_whole_exact(a, v.negative());
        lemma_signed_whole_exact(b, v.negative());
    }
}

/// Whole numbers of up to 24 bits and a sign are exact.
pub proof fn lemma_signed_whole_exact(n: int, negative: bool)
    requires
        -0x100_0000 <= n <= 0x100_0000,
        n > 0 ==> !negative,
        n < 0 ==> negative,
    ensures
        rounded(n * one_in_units(), 1, negative).finite(),
        rounded(n * one_in_units(), 1, negative).units() == n * one_in_units(),
{
    let o = one_in_units();
    lemma_pow2_pos(149);
    let size = if n < 0 {
        -n
    } else {
        n
    };
    let r = lemma_representable(size, 149);
    assert(abs(n * o) as int == size * o && (n > 0 ==> n * o > 0) && (n < 0 ==> n * o < 0))
        by (nonlinear_arith)
        requires
            size == if n < 0 {
                -n
            } else {
                n
            },
            0 < o,
    ;
    assert(n == 0 ==> n * o == 0);
    lemma_rounded_keeps(n * o, 1, negative, r);
}

/// The least whole number not below a value is less than one above it.
pub proof fn lemma_whole_above_bounds(x: int)
    ensures
        x <= whole_above(x) * one_in_units() < x + one_in_units(),
{
    let o = one_in_units();
    lemma_pow2_pos(149);
    lemma_fundamental_div_mod(-x, o);
    let d = (-x) / o;
    assert(-(o * d) == (-d) * o) by (nonlinear_arith);
}

/// The greatest whole number not above a value is less than one below it.
pub proof fn lemma_whole_below_bounds(x: int)
    ensures
        whole_below(x) * one_in_units() <= x < (whole_below(x) + 1) * one_in_units(),
{
    let o = one_in_units();
    lemma_pow2_pos(149);
    lemma_fundamental_div_mod(x, o);
    let d = x / o;
    assert(o * d == d * o) by (nonlinear_arith);
    assert((d + 1) * o == d * o + o) by (nonlinear_arith);
}

/// A whole number is its own whole part.
pub proof fn lemma_whole_below_exact(n: int)
    ensures
        whole_below(n * one_in_units()) == n,
{
    let o = one_in_units();
    lemma_pow2_pos(149);
    lemma_fundamental_div_mod_converse(n * o, o, n, 0);
}

/// Every `u32` converts to a finite value that is not negative.
pub proof fn lemma_from_whole_range(n: int)
    requires
        0 <= n <= u32::MAX,
    ensures
        from_whole(n).finite(),
        !from_whole(n).negative(),
        0 <= from_whole(n).units() <= 0x1_0000_0000 * one_in_units(),
{
    let o = one_in_units();
    lemma_pow2_pos(149);
    let r = lemma_representable(0x10_0000, 161);
    lemma_pow2_adds(149, 12);
    lemma2_to64();
    let top = 0x1_0000_0000 * o;
    assert(magnitude(r) == top) by (nonlinear_arith)
        requires
            magnitude(r) == 0x10_0000 * pow2(161),
            pow2(161) == o * 0x1000,
            top == 0x1_0000_0000 * o,
    ;
    assert(0 <= n * o <= top) by (nonlinear_arith)
        requires
            0 <= n <= 0x1_0000_0000,
            0 < o,
            top == 0x1_0000_0000 * o,
    ;
    lemma_rounded_monotone(n * o, top, 1, false, false);
    lemma_rounded_keeps(top, 1, false, r);
    lemma_rounded_pattern(n * o, 1, false);
    lemma_magnitude_bounds(from_whole(n).pattern());
    lemma_finite_below(from_whole(n));
}

} // verus!
