//! What the numbers are and what their operations give, from the bits up.
use crate::arith::{difference, negated, product, quotient, sum};
use crate::integral::{ceiled, floored, from_whole, to_whole, whole_above, whole_below};
use crate::magnitude::{
    lemma_magnitude_bounds, lemma_magnitude_increases, lemma_magnitude_step, magnitude,
    one_in_units, scale, INFINITY,
};
use crate::precision::{
    lemma_from_whole_exact, lemma_from_whole_range, lemma_negated, lemma_rounded_monotone,
    lemma_rounded_pattern, lemma_whole_above_bounds, lemma_whole_below_bounds, lemma_whole_rounding,
};
use crate::rounding::nearest;
use crate::single::{clamped, lemma_rank_order, maximum, minimum, rounded, F32};
use vstd::arithmetic::div_mod::lemma_mod_multiples_basic;
use vstd::arithmetic::power2::{
    lemma2_to64, lemma_pow2_adds, lemma_pow2_pos, lemma_pow2_unfold, pow2,
};
use vstd::math::abs;
use vstd::prelude::*;

verus! {

/// No finite value lies closer to `p / q` units than `value`, and another one lies as close only
/// where `value` is even.
pub open spec fn closest(value: F32, p: int, q: int) -> bool {
    &&& value.finite()
    &&& forall|c: F32|
        c.finite() ==> {
            let other = abs(q * #[trigger] c.units() - p);
            let own = abs(q * value.units() - p);
            own < other || (own == other && (c.units() == value.units() || value.bits % 2 == 0))
        }
}

/// The least amount, in units, that no finite value is near enough to: half a last place beyond
/// the largest one.
pub open spec fn overflow() -> int {
    0x1ff_ffff * pow2(252) as int
}

/// A sign, an exponent field and a fraction field are worth what the format says.
pub proof fn law_value_of_bits(negative: bool, exponent: int, fraction: int)
    requires
        0 <= exponent <= 255,
        0 <= fraction < 0x80_0000,
    ensures
        ({
            let bits = if negative {
                0x8000_0000int
            } else {
                0int
            } + exponent * 0x80_0000 + fraction;
            let value = F32 { bits: bits as u32 };
            let size = if exponent == 0 {
                fraction
            } else {
                (0x80_0000 + fraction) * pow2((exponent - 1) as nat)
            };
            &&& 0 <= bits <= u32::MAX
            &&& value.negative() == negative
            &&& value.finite() == (exponent < 255)
            &&& value.infinite() == (exponent == 255 && fraction == 0)
            &&& value.nan() == (exponent == 255 && fraction > 0)
            &&& value.units() == if negative {
                -size
            } else {
                size
            }
        }),
{
    let pattern = exponent * 0x80_0000 + fraction;
    assert(pattern / 0x80_0000 == exponent);
    assert(pattern % 0x80_0000 == fraction);
}

/// The unit in which values are counted: the value one has the bits that the format gives it.
pub proof fn law_one()
    ensures
        (F32 { bits: 0x3f80_0000 }).units() == one_in_units(),
        from_whole(1).bits == 0x3f80_0000,
        one_in_units() == pow2(149),
{
    law_value_of_bits(false, 127, 0);
    lemma_pow2_adds(126, 23);
    lemma2_to64();
    assert(0x80_0000 * pow2(126) == pow2(126) * 0x80_0000);
    lemma_from_whole_exact(1);
    lemma_rank_order(F32 { bits: 0x3f80_0000 }, from_whole(1));
}

/// Of two values the lower one has the lower bits, counted away from zero on each side; NaN is
/// neither below nor above anything.
pub proof fn law_order_of_bits(a: F32, b: F32)
    ensures
        a.below(b) ==> !b.below(a),
        a.nan() || b.nan() ==> !a.below(b),
        !a.nan() && !b.nan() && a.bits < 0x8000_0000 && b.bits < 0x8000_0000 ==> (a.below(b)
            <==> a.bits < b.bits),
        !a.nan() && !b.nan() && a.bits >= 0x8000_0000 && b.bits >= 0x8000_0000 ==> (a.below(b)
            <==> a.bits > b.bits),
        !a.nan() && !b.nan() && a.bits >= 0x8000_0000 && b.bits < 0x8000_0000 ==> (a.below(b)
            <==> a.bits > 0x8000_0000 || b.bits > 0) && !b.below(a),
{
    lemma_rank_order(a, b);
    lemma_rank_order(b, a);
}

/// The nearest pattern is closer than any other, or as close and even.
proof fn lemma_nearest_closest(p: int, q: int, r: int, c: int)
    requires
        0 < q,
        0 <= p,
        nearest(p, q, r),
        r < INFINITY,
        0 <= c < INFINITY,
        c != r,
    ensures
        abs(q * magnitude(r) - p) <= abs(q * magnitude(c) - p),
        abs(q * magnitude(r) - p) == abs(q * magnitude(c) - p) ==> r % 2 == 0,
{
    let m = magnitude(r);
    let n = magnitude(c);
    if c < r {
        let below = magnitude(r - 1);
        if c < r - 1 {
            lemma_magnitude_increases(c, r - 1);
        }
        lemma_magnitude_increases(r - 1, r);
        assert(q * (below + m) == q * below + q * m) by (nonlinear_arith);
        assert(q * n <= q * below && q * n < q * m) by (nonlinear_arith)
            requires
                n <= below,
                below < m,
                0 < q,
        ;
    } else {
        let above = magnitude(r + 1);
        if r + 1 < c {
            lemma_magnitude_increases(r + 1, c);
        }
        lemma_magnitude_increases(r, r + 1);
        assert(q * (m + above) == q * m + q * above) by (nonlinear_arith);
        assert(q * above <= q * n && q * m < q * n) by (nonlinear_arith)
            requires
                above <= n,
                m < above,
                0 < q,
        ;
    }
}

/// A rounded value is the closest one, with the sign that was asked for, and is infinite just
/// where the ratio is out of range.
pub proof fn lemma_rounded_closest(p: int, q: int, negative: bool)
    requires
        0 < q,
        p < 0 ==> negative,
        p > 0 ==> !negative,
    ensures
        !rounded(p, q, negative).nan(),
        rounded(p, q, negative).negative() == negative,
        rounded(p, q, negative).finite() <==> abs(p) < q * overflow(),
        rounded(p, q, negative).finite() ==> closest(rounded(p, q, negative), p, q),
{
    let value = rounded(p, q, negative);
    let r = value.pattern();
    let size = abs(p) as int;
    lemma_rounded_pattern(p, q, negative);
    let top = INFINITY as int;
    lemma_magnitude_bounds(top);
    lemma_magnitude_step(top - 1);
    lemma_pow2_unfold(254);
    lemma_pow2_unfold(253);
    assert(scale(top - 1) == 253);
    let last = magnitude(top - 1) + magnitude(top);
    assert(last == 2 * overflow());
    assert(q * last == 2 * (q * overflow())) by (nonlinear_arith)
        requires
            last == 2 * overflow(),
    ;
    if r < top {
        lemma_magnitude_step(r);
        let high = magnitude(r) + magnitude(r + 1);
        if r + 1 < top {
            lemma_magnitude_increases(r, top - 1);
            lemma_magnitude_increases(r + 1, top);
            assert(q * high < q * last) by (nonlinear_arith)
                requires
                    high < last,
                    0 < q,
            ;
        }
        assert forall|c: F32| c.finite() implies {
            let other = abs(q * #[trigger] c.units() - p);
            let own = abs(q * value.units() - p);
            own < other || (own == other && (c.units() == value.units() || value.bits % 2 == 0))
        } by {
            let k = c.pattern();
            let m = magnitude(r);
            let n = magnitude(k);
            lemma_magnitude_bounds(r);
            lemma_magnitude_bounds(k);
            assert(q * (-m) == -(q * m)) by (nonlinear_arith);
            assert(q * (-n) == -(q * n)) by (nonlinear_arith);
            assert(0 <= q * m && 0 <= q * n) by (nonlinear_arith)
                requires
                    0 <= m,
                    0 <= n,
                    0 < q,
            ;
            assert(abs(q * value.units() - p) == abs(q * m - size));
            assert(abs(q * c.units() - p) >= abs(q * n - size));
            if k != r {
                lemma_nearest_closest(size, q, r, k);
                assert(value.bits % 2 == r % 2);
            } else if c.units() != value.units() {
                assert(0 < q * m) by (nonlinear_arith)
                    requires
                        0 < m,
                        0 < q,
                ;
                if size == 0 {
                    assert(nearest(0, q, r));
                    lemma_magnitude_step(r - 1);
                    let low = magnitude(r - 1) + m;
                    assert(0 < q * low) by (nonlinear_arith)
                        requires
                            0 < low,
                            0 < q,
                    ;
                    assert(false);
                }
            }
        }
    }
}

/// A sum is the closest value to the exact sum, or overflows. A sum of zero is negative only
/// where both terms are. Infinities stay; opposite ones and NaN give NaN.
pub proof fn law_sum(a: F32, b: F32)
    ensures
        a.nan() || b.nan() ==> sum(a, b).nan(),
        a.infinite() && b.infinite() && a.negative() != b.negative() ==> sum(a, b).nan(),
        a.infinite() && b.finite() ==> sum(a, b) == a && sum(b, a) == a,
        a.infinite() && b == a ==> sum(a, b) == a,
        a.finite() && b.finite() ==> {
            let exact = a.units() + b.units();
            &&& !sum(a, b).nan()
            &&& sum(a, b).finite() <==> abs(exact) < overflow()
            &&& sum(a, b).finite() ==> closest(sum(a, b), exact, 1)
            &&& exact != 0 ==> sum(a, b).negative() == (exact < 0)
            &&& exact == 0 ==> sum(a, b).negative() == (a.negative() && b.negative())
        },
        sum(a, b) == sum(b, a),
{
    if a.finite() && b.finite() {
        let exact = a.units() + b.units();
        lemma_rounded_closest(
            exact,
            1,
            exact < 0 || (exact == 0 && a.negative() && b.negative()),
        );
        assert(1 * overflow() == overflow());
    }
    if a.infinite() && b.infinite() && a.negative() == b.negative() {
        assert(a == b);
    }
}

/// Changing the sign changes the value's sign and nothing else, and twice is not at all.
pub proof fn law_negation(a: F32)
    ensures
        negated(a).units() == -a.units(),
        negated(a).negative() == !a.negative(),
        negated(a).nan() == a.nan(),
        negated(a).infinite() == a.infinite(),
        negated(negated(a)) == a,
{
    lemma_negated(a);
}

/// A difference is the closest value to the exact difference, or overflows.
pub proof fn law_difference(a: F32, b: F32)
    ensures
        a.nan() || b.nan() ==> difference(a, b).nan(),
        a.infinite() && b == a ==> difference(a, b).nan(),
        a.infinite() && b.finite() ==> difference(a, b) == a,
        a.finite() && b.infinite() ==> difference(a, b).infinite() && difference(a, b).negative()
            != b.negative(),
        a.finite() && b.finite() ==> {
            let exact = a.units() - b.units();
            &&& !difference(a, b).nan()
            &&& difference(a, b).finite() <==> abs(exact) < overflow()
            &&& difference(a, b).finite() ==> closest(difference(a, b), exact, 1)
            &&& exact != 0 ==> difference(a, b).negative() == (exact < 0)
            &&& exact == 0 ==> difference(a, b).negative() == (a.negative() && !b.negative())
        },
{
    lemma_negated(b);
    law_sum(a, negated(b));
    law_sum(negated(b), a);
}

/// A product is the closest value to the exact product, or overflows; it is negative just where
/// the signs differ.
pub proof fn law_product(a: F32, b: F32)
    ensures
        a.nan() || b.nan() ==> product(a, b).nan(),
        a.infinite() && b.units() == 0 ==> product(a, b).nan() && product(b, a).nan(),
        a.infinite() && !b.nan() && b.units() != 0 ==> product(a, b).infinite() && product(
            a,
            b,
        ).negative() == (a.negative() != b.negative()),
        a.finite() && b.finite() ==> {
            let exact = a.units() * b.units();
            &&& !product(a, b).nan()
            &&& product(a, b).negative() == (a.negative() != b.negative())
            &&& product(a, b).finite() <==> abs(exact) < one_in_units() * overflow()
            &&& product(a, b).finite() ==> closest(product(a, b), exact, one_in_units())
        },
        product(a, b) == product(b, a),
{
    lemma_pow2_pos(149);
    lemma_magnitude_step(a.pattern());
    lemma_magnitude_step(b.pattern());
    let exact = a.units() * b.units();
    assert(exact == b.units() * a.units()) by (nonlinear_arith)
        requires
            exact == a.units() * b.units(),
    ;
    let x = a.units();
    let y = b.units();
    assert((exact > 0 ==> (x > 0 && y > 0) || (x < 0 && y < 0)) && (exact < 0 ==> (x > 0 && y < 0)
        || (x < 0 && y > 0))) by (nonlinear_arith)
        requires
            exact == x * y,
    ;
    lemma_rounded_closest(exact, one_in_units(), a.negative() != b.negative());
    if !a.nan() {
        lemma_magnitude_bounds(a.pattern());
    }
}

/// A quotient is the closest value to the exact quotient, or overflows; it is negative just where
/// the signs differ.
pub proof fn law_quotient(a: F32, b: F32)
    ensures
        a.nan() || b.nan() ==> quotient(a, b).nan(),
        a.infinite() && b.infinite() ==> quotient(a, b).nan(),
        !a.nan() && !b.nan() && a.units() == 0 && b.units() == 0 ==> quotient(a, b).nan(),
        (a.infinite() && b.finite()) || (a.finite() && a.units() != 0 && !b.nan() && b.units()
            == 0) ==> quotient(a, b).infinite() && quotient(a, b).negative() == (a.negative()
            != b.negative()),
        a.finite() && b.infinite() ==> quotient(a, b).units() == 0 && quotient(a, b).negative()
            == (a.negative() != b.negative()),
        a.finite() && b.finite() && b.units() != 0 ==> {
            let top = abs(a.units()) * one_in_units();
            let bottom = abs(b.units()) as int;
            let value = quotient(a, b);
            let size = if value.negative() {
                negated(value)
            } else {
                value
            };
            &&& !value.nan()
            &&& value.negative() == (a.negative() != b.negative())
            &&& value.finite() <==> top < bottom * overflow()
            &&& value.finite() ==> closest(size, top, bottom)
        },
{
    lemma_pow2_pos(149);
    lemma_magnitude_step(a.pattern());
    lemma_magnitude_step(b.pattern());
    lemma_magnitude_bounds(0);
    if a.finite() && b.finite() && b.units() != 0 {
        let o = one_in_units();
        let x = a.units();
        let top = abs(x) * o;
        let bottom = abs(b.units()) as int;
        let negative = a.negative() != b.negative();
        let value = quotient(a, b);
        assert(abs(x * o) == top && 0 <= top) by (nonlinear_arith)
            requires
                top == abs(x) * o,
                0 < o,
        ;
        lemma_rounded_sign(x * o, bottom, negative);
        assert(top == abs(top));
        lemma_rounded_closest(top, bottom, false);
        lemma_negated(value);
        lemma_rounded_pattern(top, bottom, false);
        if negative {
            assert(negated(value) == rounded(top, bottom, false));
        } else {
            assert(value == rounded(top, bottom, false));
        }
    }
}

/// Rounding takes the sign apart from the size.
pub proof fn lemma_rounded_sign(p: int, q: int, negative: bool)
    requires
        0 < q,
    ensures
        rounded(p, q, negative).pattern() == rounded(abs(p) as int, q, false).pattern(),
        rounded(p, q, negative).negative() == negative,
        !rounded(abs(p) as int, q, false).negative(),
{
    lemma_rounded_pattern(p, q, negative);
    lemma_rounded_pattern(abs(p) as int, q, false);
}

/// Rounding down gives the whole number at or less than one below, rounding up the one at or less
/// than one above. Both keep the sign, and what is not finite.
pub proof fn law_floor_and_ceil(a: F32)
    ensures
        !a.finite() ==> floored(a) == a && ceiled(a) == a,
        a.finite() ==> {
            &&& floored(a).finite()
            &&& ceiled(a).finite()
            &&& floored(a).negative() == a.negative()
            &&& ceiled(a).negative() == a.negative()
            &&& floored(a).units() % one_in_units() == 0
            &&& ceiled(a).units() % one_in_units() == 0
            &&& floored(a).units() <= a.units() < floored(a).units() + one_in_units()
            &&& ceiled(a).units() - one_in_units() < a.units() <= ceiled(a).units()
        },
{
    let o = one_in_units();
    lemma_pow2_pos(149);
    if a.finite() {
        lemma_whole_rounding(a);
        lemma_whole_below_bounds(a.units());
        lemma_whole_above_bounds(a.units());
        let n = whole_below(a.units());
        let m = whole_above(a.units());
        lemma_mod_multiples_basic(n, o);
        lemma_mod_multiples_basic(m, o);
        assert((n + 1) * o == n * o + o) by (nonlinear_arith);
        lemma_rounded_pattern(n * o, 1, a.negative());
        lemma_rounded_pattern(m * o, 1, a.negative());
    }
}

/// A whole number of 32 bits converts to the closest value, exactly up to `2^24`.
pub proof fn law_from_whole(n: int)
    requires
        0 <= n <= u32::MAX,
    ensures
        closest(from_whole(n), n * one_in_units(), 1),
        !from_whole(n).negative(),
        n <= 0x100_0000 ==> from_whole(n).units() == n * one_in_units(),
        n > 0 ==> from_whole(n).units() >= one_in_units(),
{
    let o = one_in_units();
    lemma_pow2_pos(149);
    lemma_from_whole_range(n);
    assert(0 <= n * o && (n > 0 ==> o <= n * o)) by (nonlinear_arith)
        requires
            0 <= n,
            0 < o,
    ;
    lemma_rounded_closest(n * o, 1, false);
    if n <= 0x100_0000 {
        lemma_from_whole_exact(n);
    }
    if n > 0 {
        lemma_from_whole_exact(1);
        lemma_rounded_monotone(o, n * o, 1, false, false);
    }
}

/// A value converts to the whole number that it reaches: nothing below zero and of NaN, and at
/// most what 32 bits hold.
pub proof fn law_to_whole(a: F32)
    ensures
        a.nan() ==> to_whole(a) == 0,
        !a.nan() && a.units() < one_in_units() ==> to_whole(a) == 0,
        !a.nan() && 0 <= a.units() < 0x1_0000_0000 * one_in_units() ==> to_whole(a)
            * one_in_units() <= a.units() < (to_whole(a) + 1) * one_in_units(),
        !a.nan() && a.units() >= 0xffff_ffff * one_in_units() ==> to_whole(a) == 0xffff_ffff,
        0 <= to_whole(a) <= 0xffff_ffff,
{
    let o = one_in_units();
    let x = a.units();
    let n = whole_below(x);
    lemma_pow2_pos(149);
    lemma_whole_below_bounds(x);
    assert((0 <= x < o ==> n == 0) && (0 <= x ==> 0 <= n) && (0 <= x < 0x1_0000_0000 * o ==> n
        < 0x1_0000_0000) && (x >= 0xffff_ffff * o ==> n >= 0xffff_ffff)) by (nonlinear_arith)
        requires
            n * o <= x < (n + 1) * o,
            0 < o,
    ;
}

/// The larger and the smaller of two values are one of them and not exceeded by the other; a NaN
/// gives way.
pub proof fn law_max_and_min(a: F32, b: F32)
    ensures
        a.nan() ==> maximum(a, b) == b && minimum(a, b) == b,
        b.nan() && !a.nan() ==> maximum(a, b) == a && minimum(a, b) == a,
        !a.nan() && !b.nan() ==> {
            &&& maximum(a, b) == a || maximum(a, b) == b
            &&& minimum(a, b) == a || minimum(a, b) == b
            &&& maximum(a, b).units() >= a.units()
            &&& maximum(a, b).units() >= b.units()
            &&& minimum(a, b).units() <= a.units()
            &&& minimum(a, b).units() <= b.units()
        },
{
}

/// Clamping gives a value in the range, the value itself where it lies there, and else the end
/// that it passed.
pub proof fn law_clamp(a: F32, low: F32, high: F32)
    requires
        !low.nan(),
        !high.nan(),
        low.units() <= high.units(),
    ensures
        a.nan() ==> clamped(a, low, high) == a,
        !a.nan() ==> low.units() <= clamped(a, low, high).units() <= high.units(),
        !a.nan() && low.units() <= a.units() <= high.units() ==> clamped(a, low, high) == a,
        !a.nan() && a.units() < low.units() ==> clamped(a, low, high) == low,
        !a.nan() && a.units() > high.units() ==> clamped(a, low, high) == high,
{
}

} // verus!
