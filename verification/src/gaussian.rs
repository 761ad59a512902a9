//! What the kernel is: a Gaussian of the blur's width, cut at three standard deviations.
use crate::arith::{negated, product, quotient, zero};
use crate::integral::{ceiled, from_whole, to_whole, whole_above};
use crate::kernel::{
    downsample_of, exponent_of, exponents_of, law_downsample_step, law_kernel_reach,
    law_weights_are_shares, lemma_exponent, lemma_square, lemma_tap_sum, lemma_variance, padding_of,
    reach_of, shares, sigma_of, support_of, tap_sum, weight_table,
};
use crate::magnitude::{
    lemma_magnitude_bounds, lemma_magnitude_unpack, magnitude, one_in_units, scale, significand,
};
use crate::numerics::{
    closest, law_floor_and_ceil, law_from_whole, law_one, law_product, law_quotient, law_sum,
    law_to_whole, law_value_of_bits, lemma_rounded_closest, lemma_rounded_sign, overflow,
};
use crate::precision::{
    lemma_finite_below, lemma_from_whole_exact, lemma_product_between, lemma_representable,
    lemma_rounded_keeps, lemma_rounded_monotone, lemma_rounded_relative, lemma_whole_above_bounds,
    lemma_whole_below_exact, lemma_whole_rounding,
};
use crate::single::{lemma_rank_order, rounded, F32};
use vstd::arithmetic::power2::{
    lemma2_to64, lemma2_to64_rest, lemma_pow2_adds, lemma_pow2_pos, lemma_pow2_strictly_increases,
    pow2,
};
use vstd::math::abs;
use vstd::prelude::*;

verus! {

/// A blur radius is the standard deviation, in pixels, as far as it lies from 1 to 64; a smaller
/// one gives one pixel and a larger one 64.
pub proof fn law_radius_is_sigma(radius: F32)
    ensures
        radius.nan() ==> sigma_of(radius) == radius,
        !radius.nan() && radius.units() < one_in_units() ==> sigma_of(radius).bits == 0x3f80_0000,
        !radius.nan() && one_in_units() <= radius.units() <= 64 * one_in_units() ==> sigma_of(
            radius,
        ) == radius,
        !radius.nan() && radius.units() > 64 * one_in_units() ==> sigma_of(radius).bits
            == 0x4280_0000,
{
    let o = one_in_units();
    law_one();
    law_from_whole(1);
    law_from_whole(64);
    lemma_pow2_pos(149);
    law_value_of_bits(false, 133, 0);
    lemma_pow2_adds(126, 23);
    lemma_pow2_adds(126, 6);
    lemma2_to64();
    let wide = F32 { bits: 0x4280_0000 };
    let w = pow2(126) as int;
    assert(0x80_0000 * (w * 64) == 64 * (w * 0x80_0000)) by (nonlinear_arith);
    assert(wide.units() == 64 * o);
    lemma_rank_order(wide, from_whole(64));
}

/// The kernel reaches three standard deviations, rounded up: of the rounded product it is the
/// least whole number that is not below. It never exceeds three standard deviations by a pixel,
/// and never falls short of them by more than their rounding.
pub proof fn law_reach_is_three_sigma(sigma: F32)
    ensures
        sigma.nan() ==> reach_of(sigma) == 0 && padding_of(sigma).nan(),
        !sigma.nan() ==> ({
            let o = one_in_units();
            let tripled = product(sigma, from_whole(3));
            let reach = reach_of(sigma);
            &&& sigma.units() <= 0 ==> reach == 0
            &&& tripled.finite() ==> {
                let support = support_of(sigma);
                &&& support.finite()
                &&& support.units() % o == 0
                &&& support.units() - o < tripled.units() <= support.units()
                &&& padding_of(sigma).finite() ==> closest(
                    padding_of(sigma),
                    support.units() + 2 * o,
                    1,
                )
            }
            &&& 0 < tripled.units() <= 0xffff_ffff * o ==> (reach - 1) * o < tripled.units()
                <= reach * o
            &&& tripled.units() >= 0xffff_ffff * o ==> reach == 0xffff_ffff
            &&& o <= sigma.units() <= 64 * o ==> {
                &&& reach * o < 3 * sigma.units() + o
                &&& 0x100_0000 * (3 * sigma.units() - reach * o) <= reach * o + 0x80_0000
                &&& support_of(sigma).units() == reach * o
                &&& padding_of(sigma).units() == (reach + 2) * o
            }
        }),
{
    let o = one_in_units();
    let three = from_whole(3);
    let tripled = product(sigma, three);
    let support = support_of(sigma);
    let reach = reach_of(sigma);
    lemma_pow2_pos(149);
    law_from_whole(3);
    law_product(sigma, three);
    law_floor_and_ceil(tripled);
    law_to_whole(support);
    law_from_whole(2);
    law_sum(support, from_whole(2));
    if !sigma.nan() && sigma.units() <= 0 {
        lemma_not_positive(sigma, three);
        if tripled.finite() {
            assert(support.units() <= 0) by {
                lemma_ceil_not_positive(tripled);
            }
        }
    }
    if tripled.finite() && 0 < tripled.units() {
        lemma_ceil_whole(tripled);
        let n = whole_above(tripled.units());
        lemma_whole_below_exact(n);
        assert((n - 1) * o == n * o - o) by (nonlinear_arith);
        if tripled.units() <= 0xffff_ffff * o {
            assert(0 < n <= 0xffff_ffff) by (nonlinear_arith)
                requires
                    n * o - o < tripled.units() <= n * o,
                    0 < tripled.units() <= 0xffff_ffff * o,
                    0 < o,
            ;
            assert(0 <= n * o) by (nonlinear_arith)
                requires
                    0 < n,
                    0 < o,
            ;
        }
    }
    if tripled.infinite() && tripled.units() > 0 {
        lemma_magnitude_bounds(tripled.pattern());
        lemma_infinite_beyond(tripled);
    }
    if !sigma.nan() && o <= sigma.units() <= 64 * o {
        lemma_magnitude_in_range(sigma);
        law_kernel_reach(sigma);
        let s = sigma.units();
        let p = s * (3 * o);
        assert(!sigma.negative()) by {
            lemma_magnitude_bounds(sigma.pattern());
        }
        assert(p == (3 * s) * o) by (nonlinear_arith)
            requires
                p == s * (3 * o),
        ;
        assert(0 < p) by (nonlinear_arith)
            requires
                p == (3 * s) * o,
                0 < s,
                0 < o,
        ;
        assert(tripled == rounded(p, o, false));
        lemma_rounded_relative(p, o);
        let x = tripled.units();
        assert(0x100_0000 * (3 * s - x) <= x + 0x80_0000) by (nonlinear_arith)
            requires
                0x100_0000 * ((3 * s) * o - o * x) <= o * x + 0x80_0000 * o,
                0 < o,
        ;
        assert(x <= reach * o);
        // Up to the next whole number rounding cannot pass it.
        let n = whole_above(3 * s);
        lemma_whole_above_bounds(3 * s);
        assert(3 <= n <= 192) by (nonlinear_arith)
            requires
                3 * s <= n * o < 3 * s + o,
                o <= s <= 64 * o,
                0 < o,
        ;
        lemma_from_whole_exact(n);
        assert(p <= (n * o) * o) by (nonlinear_arith)
            requires
                p == (3 * s) * o,
                3 * s <= n * o,
                0 < o,
        ;
        lemma_product_between(sigma, three, from_whole(n));
        assert(x <= n * o);
        assert(reach <= n) by (nonlinear_arith)
            requires
                (reach - 1) * o < x <= n * o,
                0 < o,
        ;
        assert(reach * o <= n * o) by (nonlinear_arith)
            requires
                reach <= n,
                0 < o,
        ;
    }
}

/// What is not above zero stays there when it is tripled.
proof fn lemma_not_positive(a: F32, three: F32)
    requires
        !a.nan(),
        a.units() <= 0,
        three.finite(),
        !three.negative(),
        three.units() > 0,
    ensures
        !product(a, three).nan(),
        product(a, three).units() <= 0,
{
    let value = product(a, three);
    law_product(a, three);
    lemma_magnitude_bounds(a.pattern());
    if a.finite() && !a.negative() {
        let o = one_in_units();
        lemma_pow2_pos(149);
        lemma_magnitude_bounds(0);
        assert(a.units() * three.units() == 0) by (nonlinear_arith)
            requires
                a.units() == 0,
        ;
        lemma_rounded_keeps(0, o, false, 0);
    } else {
        lemma_magnitude_bounds(value.pattern());
    }
}

/// Rounding up what is not above zero does not pass it.
proof fn lemma_ceil_not_positive(a: F32)
    requires
        a.finite(),
        a.units() <= 0,
    ensures
        ceiled(a).units() <= 0,
{
    let o = one_in_units();
    lemma_pow2_pos(149);
    lemma_ceil_whole(a);
    let n = whole_above(a.units());
    assert(n <= 0) by (nonlinear_arith)
        requires
            n * o - o < a.units() <= 0,
            0 < o,
    ;
    assert(n * o <= 0) by (nonlinear_arith)
        requires
            n <= 0,
            0 < o,
    ;
}

/// Rounding up gives the least whole number that is not below.
proof fn lemma_ceil_whole(a: F32)
    requires
        a.finite(),
    ensures
        ceiled(a).units() == whole_above(a.units()) * one_in_units(),
        whole_above(a.units()) * one_in_units() - one_in_units() < a.units() <= whole_above(
            a.units(),
        ) * one_in_units(),
{
    lemma_whole_rounding(a);
    lemma_whole_above_bounds(a.units());
}

/// Infinity lies beyond every whole number of 32 bits.
proof fn lemma_infinite_beyond(a: F32)
    requires
        a.infinite(),
        a.units() > 0,
    ensures
        a.units() >= 0xffff_ffff * one_in_units(),
{
    lemma_pow2_pos(149);
    if a.units() < 0xffff_ffff * one_in_units() {
        lemma_finite_below(a);
    }
}

/// The image shrinks by one step for every eight pixels of standard deviation, at least by one
/// and at most by four, for every number there is.
pub proof fn law_step_of_any_sigma(sigma: F32)
    ensures
        sigma.nan() ==> downsample_of(sigma) == 1,
        !sigma.nan() ==> downsample_of(sigma) == if sigma.units() < 16 * one_in_units() {
            1int
        } else if sigma.units() < 24 * one_in_units() {
            2int
        } else if sigma.units() < 32 * one_in_units() {
            3int
        } else {
            4int
        },
{
    let o = one_in_units();
    let eight = from_whole(8);
    let eighth = quotient(sigma, eight);
    lemma_pow2_pos(149);
    law_from_whole(8);
    law_quotient(sigma, eight);
    law_to_whole(eighth);
    if !sigma.nan() {
        let s = sigma.units();
        lemma_magnitude_bounds(sigma.pattern());
        if o <= s <= 64 * o {
            lemma_magnitude_in_range(sigma);
            law_downsample_step(sigma);
        } else if s < o {
            if sigma.finite() && !sigma.negative() {
                // Less than one divided by eight rounds to no more than one.
                assert(eighth == rounded(s * o, 8 * o, false));
                let r = from_whole(1).pattern();
                lemma_from_whole_exact(1);
                lemma_rounded_keeps(8 * o * o, 8 * o, false, r);
                assert(0 <= s * o <= 8 * o * o) by (nonlinear_arith)
                    requires
                        0 <= s < o,
                        0 < o,
                ;
                lemma_rounded_monotone(s * o, 8 * o * o, 8 * o, false, false);
                let top = rounded(8 * o * o, 8 * o, false).units();
                assert(top == o) by (nonlinear_arith)
                    requires
                        top * (8 * o) == 8 * o * o,
                        0 < o,
                ;
                let n = to_whole(eighth);
                lemma_magnitude_bounds(eighth.pattern());
                assert(n < 2) by (nonlinear_arith)
                    requires
                        n * o <= eighth.units() <= o,
                        0 < o,
                ;
            } else {
                lemma_magnitude_bounds(eighth.pattern());
            }
        } else {
            // More than 64 divided by eight is no less than eight.
            if sigma.finite() {
                let r = eight.pattern();
                assert(eighth == rounded(s * o, 8 * o, false));
                assert(0 <= 64 * o * o && 64 * o * o == (8 * o) * (8 * o)) by (nonlinear_arith)
                    requires
                        0 < o,
                ;
                lemma_rounded_keeps(64 * o * o, 8 * o, false, r);
                assert(0 < 64 * o * o <= s * o) by (nonlinear_arith)
                    requires
                        64 * o < s,
                        0 < o,
                ;
                lemma_rounded_monotone(64 * o * o, s * o, 8 * o, false, false);
                let low = rounded(64 * o * o, 8 * o, false).units();
                assert(low == 8 * o) by (nonlinear_arith)
                    requires
                        low * (8 * o) == 64 * o * o,
                        0 < o,
                ;
            } else {
                lemma_magnitude_bounds(eighth.pattern());
                lemma_infinite_beyond(eighth);
            }
            let n = to_whole(eighth);
            if eighth.units() < 0x1_0000_0000 * o {
                assert(n >= 8) by (nonlinear_arith)
                    requires
                        eighth.units() < (n + 1) * o,
                        eighth.units() >= 8 * o,
                        0 < o,
                ;
            } else {
                assert(n == 0xffff_ffff);
            }
        }
    }
}

/// A value of moderate size is finite.
proof fn lemma_magnitude_in_range(a: F32)
    requires
        !a.nan(),
        0 <= a.units() <= 64 * one_in_units(),
    ensures
        a.finite(),
{
    lemma_pow2_pos(149);
    lemma_finite_below(a);
}

/// Doubling is exact for values of moderate size.
proof fn lemma_doubled(sigma: F32)
    requires
        sigma.finite(),
        one_in_units() <= sigma.units() <= 64 * one_in_units(),
    ensures
        product(from_whole(2), sigma).units() == 2 * sigma.units(),
{
    let o = one_in_units();
    let s = sigma.units();
    let p = sigma.pattern();
    lemma_pow2_pos(149);
    lemma_magnitude_bounds(p);
    lemma_magnitude_unpack(p);
    lemma_from_whole_exact(2);
    let t = scale(p);
    let k = significand(p);
    lemma_pow2_adds(149, 6);
    lemma2_to64();
    if t > 155 {
        lemma_pow2_strictly_increases(155, t as nat);
        let w = pow2(t as nat) as int;
        assert(w <= k * w) by (nonlinear_arith)
            requires
                1 <= k,
                0 < w,
        ;
    }
    let r = lemma_representable(k, t + 1);
    lemma_pow2_adds(t as nat, 1);
    let w = pow2(t as nat) as int;
    assert(magnitude(r) == 2 * s) by (nonlinear_arith)
        requires
            magnitude(r) == k * (w * 2),
            s == k * w,
    ;
    let exact = (2 * o) * s;
    assert(exact == (2 * s) * o && 0 <= exact) by (nonlinear_arith)
        requires
            exact == (2 * o) * s,
            0 < o,
            0 < s,
    ;
    lemma_rounded_keeps(exact, o, false, r);
    let d = product(from_whole(2), sigma).units();
    assert(d == 2 * s) by (nonlinear_arith)
        requires
            d * o == (2 * s) * o,
            0 < o,
    ;
}

/// The exponents are those of a Gaussian: `k` pixels from the centre the exponent times twice the
/// squared standard deviation is minus the square of `k`, within one part in `2^22`.
pub proof fn law_exponent_is_gaussian(sigma: F32, k: int)
    requires
        sigma.finite(),
        one_in_units() <= sigma.units() <= 64 * one_in_units(),
        0 <= k <= 128,
    ensures
        ({
            let o = one_in_units();
            let s = sigma.units();
            let scaled = 2 * (s * s * exponent_of(sigma, k).units());
            let square = k * k * o * o * o;
            &&& exponent_of(sigma, k).finite()
            &&& 0x40_0000 * (scaled + square) <= square
            &&& 0x40_0000 * (-square - scaled) <= square
        }),
{
    let o = one_in_units();
    let s = sigma.units();
    let variance = product(product(from_whole(2), sigma), sigma);
    let v = variance.units();
    let doubled = product(from_whole(2), sigma);
    let a = k * k * o * o;
    let exponent = exponent_of(sigma, k);
    lemma_pow2_pos(149);
    lemma_magnitude_bounds(sigma.pattern());
    lemma_from_whole_exact(2);
    lemma_doubled(sigma);
    lemma_variance(sigma);
    lemma_exponent(sigma, k);
    law_product(from_whole(2), sigma);
    law_product(doubled, sigma);
    assert(0 <= a) by (nonlinear_arith)
        requires
            a == k * k * o * o,
            0 <= k,
            0 < o,
    ;
    // The size of the exponent.
    lemma_rounded_sign(-a, v, true);
    let size = rounded(a, v, false);
    let m = size.units();
    assert(abs(-a) as int == a);
    assert(exponent.units() == -m);
    lemma_wide(o);
    let d = doubled.units();
    lemma_rounded_closest(a, v, false);
    lemma_pow2_strictly_increases(149, 252);
    assert(d * s >= 2 * o * o) by (nonlinear_arith)
        requires
            d == 2 * s,
            o <= s,
            0 < o,
    ;
    assert(a < v * overflow()) by {
        lemma_overflow_wide();
        assert(k * k <= 16384) by (nonlinear_arith)
            requires
                0 <= k <= 128,
        ;
        let kk = k * k;
        let big = overflow();
        assert(a < v * big) by (nonlinear_arith)
            requires
                a == kk * o * o,
                0 <= kk <= 16384,
                2 * o <= v,
                16384 * o <= big,
                0 < o,
        ;
    }
    lemma_rounded_relative(a, v);
    // The divisor.
    assert(doubled.finite() && !doubled.negative());
    let e = d * s;
    assert(0 <= e) by (nonlinear_arith)
        requires
            e == d * s,
            d == 2 * s,
            0 <= s,
    ;
    assert(variance == rounded(e, o, false));
    lemma_rounded_relative(e, o);
    assert(e == 2 * (s * s)) by (nonlinear_arith)
        requires
            e == d * s,
            d == 2 * s,
    ;
    lemma_magnitude_bounds(size.pattern());
    if k == 0 {
        assert(a == 0) by (nonlinear_arith)
            requires
                a == k * k * o * o,
                k == 0,
        ;
        lemma_magnitude_bounds(0);
        lemma_rounded_keeps(0, v, false, 0);
        assert(k * k * o * o * o == 0) by (nonlinear_arith)
            requires
                k == 0,
        ;
        assert(s * s * exponent.units() == 0) by (nonlinear_arith)
            requires
                exponent.units() == 0,
        ;
    } else {
        let kk = k * k;
        assert(1 <= kk) by (nonlinear_arith)
            requires
                kk == k * k,
                1 <= k,
        ;
        lemma_gaussian_close(e, v, m, a, o, kk);
        let scaled = 2 * (s * s * exponent.units());
        assert(scaled == -(e * m)) by (nonlinear_arith)
            requires
                scaled == 2 * (s * s * exponent.units()),
                e == 2 * (s * s),
                exponent.units() == -m,
        ;
        assert(k * k * o * o * o == a * o);
    }
}

/// Whatever the number that stands for the standard deviation, the exponent `k` pixels from the
/// centre is the closest number to minus the square of `k` over the divisor, the product of twice
/// the standard deviation and the standard deviation.
pub proof fn law_exponent_of_any_sigma(sigma: F32, k: int)
    requires
        0 <= k <= 128,
    ensures
        ({
            let o = one_in_units();
            let divisor = product(product(from_whole(2), sigma), sigma);
            let exponent = exponent_of(sigma, k);
            let size = if exponent.negative() {
                negated(exponent)
            } else {
                exponent
            };
            &&& divisor.nan() ==> exponent.nan()
            &&& divisor.infinite() ==> exponent.units() == 0
            &&& !divisor.nan() && divisor.units() == 0 && k == 0 ==> exponent.nan()
            &&& !divisor.nan() && divisor.units() == 0 && k > 0 ==> exponent.infinite()
            &&& divisor.finite() && divisor.units() != 0 ==> {
                &&& exponent.negative() == !divisor.negative()
                &&& exponent.finite() ==> closest(size, k * k * o * o, abs(divisor.units()) as int)
            }
        }),
{
    let o = one_in_units();
    let divisor = product(product(from_whole(2), sigma), sigma);
    let top = product(negated(from_whole(k)), from_whole(k));
    lemma_pow2_pos(149);
    lemma_square(k);
    law_quotient(top, divisor);
    lemma_magnitude_bounds(0);
    let square = k * k * o;
    assert(abs(top.units()) == square);
    if k > 0 {
        assert(0 < square) by (nonlinear_arith)
            requires
                square == k * k * o,
                0 < k,
                0 < o,
        ;
    } else {
        assert(square == 0) by (nonlinear_arith)
            requires
                square == k * k * o,
                k == 0,
        ;
    }
    if divisor.infinite() {
        lemma_magnitude_bounds(divisor.pattern());
    }
}

/// There is one exponent for each pixel from the centre to the reach of a kernel that reaches up
/// to 128 pixels, and none for a wider one; and each is that of a Gaussian.
pub proof fn law_exponents_of_a_kernel(sigma: F32)
    requires
        sigma.finite(),
        one_in_units() <= sigma.units() <= 64 * one_in_units(),
    ensures
        ({
            let o = one_in_units();
            let s = sigma.units();
            let exponents = exponents_of(sigma);
            &&& exponents.len() == if reach_of(sigma) <= 128 {
                reach_of(sigma) + 1
            } else {
                0
            }
            &&& forall|k: int|
                0 <= k < exponents.len() ==> {
                    let scaled = 2 * (s * s * (#[trigger] exponents[k]).units());
                    let square = k * k * o * o * o;
                    &&& exponents[k].finite()
                    &&& 0x40_0000 * (scaled + square) <= square
                    &&& 0x40_0000 * (-square - scaled) <= square
                }
        }),
{
    let exponents = exponents_of(sigma);
    law_kernel_reach(sigma);
    assert forall|k: int| 0 <= k < exponents.len() implies {
        let scaled = 2 * (sigma.units() * sigma.units() * (#[trigger] exponents[k]).units());
        let square = k * k * one_in_units() * one_in_units() * one_in_units();
        &&& exponents[k].finite()
        &&& 0x40_0000 * (scaled + square) <= square
        &&& 0x40_0000 * (-square - scaled) <= square
    } by {
        law_exponent_is_gaussian(sigma, k);
    }
}

/// The errors of both divisions together.
proof fn lemma_gaussian_close(e: int, v: int, m: int, a: int, o: int, kk: int)
    requires
        0x1_0000_0000_0000_0000 <= o,
        2 * o <= v <= 8192 * o,
        0 <= m,
        1 <= kk,
        a == kk * o * o,
        0x100_0000 * (e - o * v) <= o * v + 0x80_0000 * o,
        0x100_0000 * (o * v - e) <= o * v + 0x80_0000 * o,
        0x100_0000 * (a - v * m) <= v * m + 0x80_0000 * v,
        0x100_0000 * (v * m - a) <= v * m + 0x80_0000 * v,
    ensures
        0x40_0000 * (a * o - e * m) <= a * o,
        0x40_0000 * (e * m - a * o) <= a * o,
{
    let x = e * m;
    let y = o * (v * m);
    let b = a * o;
    let p = 0x80_0000 * (o * m);
    let q = 0x80_0000 * (v * o);
    assert(0x100_0000 * (x - y) <= y + p && 0x100_0000 * (y - x) <= y + p) by (nonlinear_arith)
        requires
            x == e * m,
            y == o * (v * m),
            p == 0x80_0000 * (o * m),
            0 <= m,
            0x100_0000 * (e - o * v) <= o * v + 0x80_0000 * o,
            0x100_0000 * (o * v - e) <= o * v + 0x80_0000 * o,
    ;
    let z = v * m;
    assert(0x100_0000 * (b - y) <= y + q && 0x100_0000 * (y - b) <= y + q) by (nonlinear_arith)
        requires
            y == o * z,
            b == a * o,
            q == 0x80_0000 * (v * o),
            0 < o,
            0x100_0000 * (a - z) <= z + 0x80_0000 * v,
            0x100_0000 * (z - a) <= z + 0x80_0000 * v,
    ;
    let c = o * m;
    assert(0 <= c) by (nonlinear_arith)
        requires
            c == o * m,
            0 < o,
            0 <= m,
    ;
    assert(y == v * c) by (nonlinear_arith)
        requires
            y == o * (v * m),
            c == o * m,
    ;
    assert(1024 * p <= y) by (nonlinear_arith)
        requires
            p == 0x80_0000 * c,
            y == v * c,
            0x2_0000_0000 <= v,
            0 <= c,
    ;
    let oo = o * o;
    assert(v * o <= 8192 * oo && 0 <= oo) by (nonlinear_arith)
        requires
            oo == o * o,
            v <= 8192 * o,
            0 < o,
    ;
    assert(oo * o <= b) by (nonlinear_arith)
        requires
            b == (kk * o * o) * o,
            oo == o * o,
            1 <= kk,
            0 < o,
    ;
    assert(0x4000_0000_0000 * oo <= oo * o) by (nonlinear_arith)
        requires
            0x4000_0000_0000 <= o,
            0 <= oo,
    ;
    assert(1024 * q <= b);
    assert(0 <= y) by (nonlinear_arith)
        requires
            y == v * c,
            0 <= c,
            0 < v,
    ;
}

/// One is far more than `2^64` units.
proof fn lemma_wide(o: int)
    requires
        o == one_in_units(),
    ensures
        0x1_0000_0000_0000_0000 <= o,
{
    lemma2_to64_rest();
    lemma_pow2_strictly_increases(64, 149);
}

/// The range of finite values is far larger than any exponent.
proof fn lemma_overflow_wide()
    ensures
        16384 * one_in_units() <= overflow(),
{
    lemma2_to64();
    lemma_pow2_pos(149);
    lemma_pow2_adds(149, 14);
    lemma_pow2_strictly_increases(163, 252);
}

/// The weights before they are divided are added up from the far left to the far right of the
/// kernel, the centre once and every other tap twice, each sum the closest to the exact one.
pub proof fn law_taps_are_added_from_the_left(taps: Seq<F32>, reach: int, n: int)
    requires
        0 <= n <= 2 * reach,
        tap_sum(taps, reach, n).finite(),
        tap_sum(taps, reach, n + 1).finite(),
        taps[if n < reach { reach - n } else { n - reach }].finite(),
    ensures
        tap_sum(taps, reach, 0).bits == 0,
        closest(
            tap_sum(taps, reach, n + 1),
            tap_sum(taps, reach, n).units() + taps[if n < reach {
                reach - n
            } else {
                n - reach
            }].units(),
            1,
        ),
{
    let tap = taps[if n < reach {
        reach - n
    } else {
        n - reach
    }];
    law_sum(tap_sum(taps, reach, n), tap);
}

/// Each weight is its tap's share of the sum of all taps on both sides: the closest number to it.
pub proof fn law_weight_is_its_share(sigma: F32, taps: Seq<F32>, k: int)
    requires
        reach_of(sigma) <= 128,
        taps.len() == reach_of(sigma) + 1,
        shares(taps),
        0 <= k <= reach_of(sigma),
    ensures
        ({
            let total = tap_sum(taps, reach_of(sigma), 2 * reach_of(sigma) + 1);
            &&& total.finite()
            &&& total.units() >= one_in_units()
            &&& !weight_table(sigma, taps)[k].negative()
            &&& closest(
                weight_table(sigma, taps)[k],
                taps[k].units() * one_in_units(),
                total.units(),
            )
        }),
{
    let o = one_in_units();
    let reach = reach_of(sigma);
    let total = tap_sum(taps, reach, 2 * reach + 1);
    lemma_pow2_pos(149);
    lemma_tap_sum(taps, reach, 2 * reach + 1);
    law_quotient(taps[k], total);
    lemma_magnitude_bounds(taps[k].pattern());
    lemma_overflow_wide();
    let t = taps[k].units();
    assert(t * o < total.units() * overflow()) by (nonlinear_arith)
        requires
            0 <= t <= o,
            0 < o <= total.units(),
            16384 * o <= overflow(),
    ;
}

/// Whatever the taps: where their sum on both sides is finite and not zero, every finite tap's
/// weight is the closest number to the tap over that sum, and past the reach the weights are zero.
pub proof fn law_weight_of_any_taps(sigma: F32, taps: Seq<F32>, k: int)
    requires
        reach_of(sigma) <= 128,
        0 <= k < 132,
        tap_sum(taps, reach_of(sigma), 2 * reach_of(sigma) + 1).finite(),
        tap_sum(taps, reach_of(sigma), 2 * reach_of(sigma) + 1).units() != 0,
    ensures
        ({
            let total = tap_sum(taps, reach_of(sigma), 2 * reach_of(sigma) + 1);
            let weight = weight_table(sigma, taps)[k];
            let size = if weight.negative() {
                negated(weight)
            } else {
                weight
            };
            &&& k <= reach_of(sigma) && taps[k].finite() ==> {
                &&& weight.negative() == (taps[k].negative() != total.negative())
                &&& weight.finite() ==> closest(
                    size,
                    abs(taps[k].units()) * one_in_units(),
                    abs(total.units()) as int,
                )
            }
            &&& k <= reach_of(sigma) && taps[k].nan() ==> weight.nan()
            &&& k > reach_of(sigma) ==> weight.units() == 0
        }),
{
    let total = tap_sum(taps, reach_of(sigma), 2 * reach_of(sigma) + 1);
    lemma_pow2_pos(149);
    lemma_magnitude_bounds(0);
    if k <= reach_of(sigma) {
        law_quotient(taps[k], total);
    } else {
        let nil = zero(false);
        law_quotient(nil, total);
        assert(nil.units() == 0);
        let q = abs(total.units()) as int;
        let weight = weight_table(sigma, taps)[k];
        assert(0 * one_in_units() == 0);
        lemma_rounded_keeps(0, q, total.negative(), 0);
        assert(weight == rounded(0, q, total.negative()));
    }
}

/// The table has 132 places, enough for every kernel that reaches up to 128 pixels. A wider one
/// leaves all of them empty.
pub proof fn law_table_holds_up_to_128(sigma: F32, taps: Seq<F32>)
    ensures
        weight_table(sigma, taps).len() == 132,
        reach_of(sigma) > 128 ==> forall|k: int|
            0 <= k < 132 ==> (#[trigger] weight_table(sigma, taps)[k]).bits == 0,
        reach_of(sigma) <= 128 && taps.len() == reach_of(sigma) + 1 && shares(taps) ==> forall|
            k: int,
        |
            reach_of(sigma) < k < 132 ==> (#[trigger] weight_table(sigma, taps)[k]).bits == 0,
{
    if reach_of(sigma) <= 128 && taps.len() == reach_of(sigma) + 1 && shares(taps) {
        law_weights_are_shares(sigma, taps);
    }
}

} // verus!
