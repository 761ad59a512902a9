//! The blur kernel: its width, how far it reaches, how much it lets the image shrink, and its
//! weight table.
use crate::arith::{negated, product, quotient, sum, zero};
use crate::integral::{ceiled, from_whole, to_whole, whole_above, whole_below};
use crate::magnitude::{
    lemma_magnitude_bounds, lemma_magnitude_increases, lemma_magnitude_pack, lemma_magnitude_unpack,
    magnitude, one_in_units, scale, significand,
};
use crate::precision::{
    lemma_finite_below, lemma_from_whole_exact, lemma_negated, lemma_product_between,
    lemma_representable, lemma_rounded_keeps, lemma_rounded_monotone, lemma_rounded_pattern,
    lemma_sum_between, lemma_whole_above_bounds, lemma_whole_below_bounds, lemma_whole_below_exact,
};
use crate::single::{clamped, lemma_rank_order, rounded, F32};
use vstd::arithmetic::power2::{lemma2_to64, lemma_pow2_adds, lemma_pow2_pos, pow2};
use vstd::math::abs;
use vstd::prelude::*;

verus! {

/// The widest kernel, as a standard deviation in device pixels. It bounds the work of the pass
/// shader, which loops over as many taps.
pub const MAX_SIGMA: u32 = 64;

/// The registers of the weight table, of four weights each.
pub const KERNEL_VECTORS: usize = 33;

/// The weights in the table.
pub const KERNEL_WEIGHTS: usize = 4 * KERNEL_VECTORS;

/// The largest reach whose weights the table holds; beyond it the shader computes its own.
pub const TABLE_RADIUS: u32 = 128;

/// The standard deviation that a blur radius asks for, kept between one pixel and the widest.
pub open spec fn sigma_of(radius: F32) -> F32 {
    clamped(radius, from_whole(1), from_whole(MAX_SIGMA as int))
}

/// Three standard deviations, rounded up to a whole number of pixels.
pub open spec fn support_of(sigma: F32) -> F32 {
    ceiled(product(sigma, from_whole(3)))
}

/// The reach of the kernel: the number of taps on each side of the centre.
pub open spec fn reach_of(sigma: F32) -> int {
    to_whole(support_of(sigma))
}

/// How far around the visible area pixels are needed.
pub open spec fn padding_of(sigma: F32) -> F32 {
    sum(support_of(sigma), from_whole(2))
}

/// The step by which both axes shrink after filtering.
pub open spec fn downsample_of(sigma: F32) -> int {
    let eighth = to_whole(quotient(sigma, from_whole(8)));
    if eighth < 1 {
        1
    } else if eighth > 4 {
        4
    } else {
        eighth
    }
}

/// The exponent of the weight `k` taps away from the centre: `-k^2 / (2 sigma^2)`.
pub open spec fn exponent_of(sigma: F32, k: int) -> F32 {
    quotient(
        product(negated(from_whole(k)), from_whole(k)),
        product(product(from_whole(2), sigma), sigma),
    )
}

/// The exponents of the weights from the centre outwards; none for a kernel that does not fit the
/// table.
pub open spec fn exponents_of(sigma: F32) -> Seq<F32> {
    if reach_of(sigma) > TABLE_RADIUS {
        Seq::empty()
    } else {
        Seq::new((reach_of(sigma) + 1) as nat, |k: int| exponent_of(sigma, k))
    }
}

/// The first `n` weights from the far left of the kernel, summed in that order.
pub open spec fn tap_sum(taps: Seq<F32>, reach: int, n: int) -> F32
    decreases n,
{
    if n <= 0 {
        zero(false)
    } else {
        sum(tap_sum(taps, reach, n - 1), taps[abs(n - 1 - reach) as int])
    }
}

/// The table of the weights `taps`, each divided by the sum over both sides of the kernel. Past
/// the reach stand the quotients of zero, and a kernel that does not fit leaves the table empty.
pub open spec fn weight_table(sigma: F32, taps: Seq<F32>) -> Seq<F32> {
    let reach = reach_of(sigma);
    let total = tap_sum(taps, reach, 2 * reach + 1);
    Seq::new(
        KERNEL_WEIGHTS as nat,
        |k: int|
            if reach > TABLE_RADIUS {
                zero(false)
            } else if k <= reach {
                quotient(taps[k], total)
            } else {
                quotient(zero(false), total)
            },
    )
}

/// The standard deviation of a blur radius.
pub fn blur_sigma(radius: F32) -> (sigma: F32)
    ensures
        sigma == sigma_of(radius),
{
    proof {
        lemma_from_whole_exact(1);
        lemma_from_whole_exact(64);
        lemma_pow2_pos(149);
    }
    radius.clamp(F32::from_u32(1), F32::from_u32(MAX_SIGMA))
}

fn support(sigma: F32) -> (r: F32)
    ensures
        r == support_of(sigma),
{
    sigma.times(F32::from_u32(3)).ceil()
}

/// The number of taps on each side of the centre.
pub fn kernel_radius(sigma: F32) -> (radius: u32)
    ensures
        radius == reach_of(sigma),
{
    support(sigma).to_u32()
}

/// The margin around the visible area that the kernel reads.
pub fn padding(sigma: F32) -> (r: F32)
    ensures
        r == padding_of(sigma),
{
    support(sigma).plus(F32::from_u32(2))
}

/// The step by which a blur of this width shrinks its image.
pub fn downsample_step(sigma: F32) -> (step: u32)
    ensures
        step == downsample_of(sigma),
        1 <= step <= 4,
{
    let eighth: u32 = sigma.over(F32::from_u32(8)).to_u32();
    if eighth < 1 {
        1
    } else if eighth > 4 {
        4
    } else {
        eighth
    }
}

/// The exponents of the weights from the centre outwards, for a kernel that fits the table;
/// none for a wider one.
pub fn gaussian_exponents(sigma: F32) -> (exponents: Vec<F32>)
    ensures
        exponents@ == exponents_of(sigma),
{
    let mut exponents: Vec<F32> = Vec::new();
    let radius: u32 = kernel_radius(sigma);
    if radius > TABLE_RADIUS {
        return exponents;
    }
    let variance = F32::from_u32(2).times(sigma).times(sigma);
    let mut k: u32 = 0;
    while k <= radius
        invariant
            radius <= TABLE_RADIUS,
            k <= radius + 1,
            variance == product(product(from_whole(2), sigma), sigma),
            exponents@ == Seq::new(k as nat, |k: int| exponent_of(sigma, k)),
        decreases radius + 1 - k,
    {
        let distance = F32::from_u32(k);
        exponents.push(distance.neg().times(distance).over(variance));
        proof {
            assert(exponents@ =~= Seq::new((k + 1) as nat, |k: int| exponent_of(sigma, k)));
        }
        k = k + 1;
    }
    exponents
}

/// The normalized weight table of a kernel. `taps` holds the weights from the centre outwards,
/// the exponentials of [`gaussian_exponents`].
pub fn gaussian_weights(sigma: F32, taps: &Vec<F32>) -> (weights: Vec<F32>)
    requires
        reach_of(sigma) <= TABLE_RADIUS ==> taps@.len() == reach_of(sigma) + 1,
    ensures
        weights@ == weight_table(sigma, taps@),
{
    let radius: u32 = kernel_radius(sigma);
    let fits = radius <= TABLE_RADIUS;
    let mut total = F32::from_bits(0);
    if fits {
        let mut n: u32 = 0;
        while n < 2 * radius + 1
            invariant
                radius <= TABLE_RADIUS,
                radius == reach_of(sigma),
                taps@.len() == radius + 1,
                n <= 2 * radius + 1,
                total == tap_sum(taps@, radius as int, n as int),
            decreases 2 * radius + 1 - n,
        {
            let distance: u32 = if n < radius { radius - n } else { n - radius };
            total = total.plus(taps[distance as usize]);
            n = n + 1;
        }
    }
    let mut weights: Vec<F32> = Vec::new();
    let mut k: usize = 0;
    while k < KERNEL_WEIGHTS
        invariant
            radius == reach_of(sigma),
            fits == (radius <= TABLE_RADIUS),
            fits ==> taps@.len() == radius + 1,
            fits ==> total == tap_sum(taps@, radius as int, 2 * radius + 1),
            k <= KERNEL_WEIGHTS,
            weights@ == weight_table(sigma, taps@).take(k as int),
        decreases KERNEL_WEIGHTS - k,
    {
        let weight = if !fits {
            F32::from_bits(0)
        } else if k <= radius as usize {
            taps[k].over(total)
        } else {
            F32::from_bits(0).over(total)
        };
        weights.push(weight);
        k = k + 1;
        proof {
            assert(weights@ =~= weight_table(sigma, taps@).take(k as int));
        }
    }
    proof {
        assert(weight_table(sigma, taps@).take(132) =~= weight_table(sigma, taps@));
    }
    weights
}

/// A finite blur radius gives a standard deviation of at least one pixel and at most the widest;
/// a radius in that range is used as it is.
pub proof fn law_sigma_range(radius: F32)
    requires
        radius.finite(),
    ensures
        sigma_of(radius).finite(),
        one_in_units() <= sigma_of(radius).units() <= 64 * one_in_units(),
        one_in_units() <= radius.units() <= 64 * one_in_units() ==> sigma_of(radius)
            == radius,
        radius.units() < one_in_units() ==> sigma_of(radius) == from_whole(1),
        radius.units() > 64 * one_in_units() ==> sigma_of(radius) == from_whole(64),
{
    lemma_from_whole_exact(1);
    lemma_from_whole_exact(64);
    lemma_pow2_pos(149);
}

/// The kernel of any usable width reaches between 3 and 192 taps, and the padding is two pixels
/// more than its reach.
pub proof fn law_kernel_reach(sigma: F32)
    requires
        sigma.finite(),
        one_in_units() <= sigma.units() <= 64 * one_in_units(),
    ensures
        3 <= reach_of(sigma) <= 192,
        support_of(sigma).units() == reach_of(sigma) * one_in_units(),
        padding_of(sigma).finite(),
        padding_of(sigma).units() == (reach_of(sigma) + 2) * one_in_units(),
{
    let o = one_in_units();
    lemma_pow2_pos(149);
    lemma_from_whole_exact(2);
    lemma_from_whole_exact(3);
    lemma_from_whole_exact(192);
    let s = sigma.units();
    let three = from_whole(3);
    let tripled = product(sigma, three);
    assert(!sigma.negative()) by {
        lemma_magnitude_bounds(sigma.pattern());
    }
    // The product lies between the exact products at both ends of the range.
    let low = 3 * o;
    let high = 192 * o;
    assert(low * o <= s * (3 * o) <= high * o) by (nonlinear_arith)
        requires
            o <= s <= 64 * o,
            low == 3 * o,
            high == 192 * o,
            0 < o,
    ;
    lemma_product_between(sigma, three, three);
    lemma_product_between(sigma, three, from_whole(192));
    let x = tripled.units();
    lemma_rank_order(tripled, from_whole(192));
    assert(tripled.finite());
    let n = whole_above(x);
    lemma_whole_above_bounds(x);
    assert(3 <= n <= 192) by (nonlinear_arith)
        requires
            x <= n * o < x + o,
            3 * o <= x <= 192 * o,
            0 < o,
    ;
    lemma_from_whole_exact(n);
    assert(support_of(sigma) == from_whole(n));
    lemma_whole_below_exact(n);
    lemma_from_whole_exact(n + 2);
    let exact_padding = support_of(sigma).units() + from_whole(2).units();
    assert(exact_padding == (n + 2) * o) by (nonlinear_arith)
        requires
            exact_padding == n * o + 2 * o,
    ;
    assert(0 < (n + 2) * o) by (nonlinear_arith)
        requires
            0 < n,
            0 < o,
    ;
    assert(padding_of(sigma) == from_whole(n + 2));
}

/// The image shrinks by one step for every eight pixels of standard deviation, at least by one
/// and at most by four.
pub proof fn law_downsample_step(sigma: F32)
    requires
        sigma.finite(),
        one_in_units() <= sigma.units() <= 64 * one_in_units(),
    ensures
        downsample_of(sigma) == if sigma.units() < 16 * one_in_units() {
            1int
        } else if sigma.units() < 24 * one_in_units() {
            2int
        } else if sigma.units() < 32 * one_in_units() {
            3int
        } else {
            4int
        },
{
    let o = one_in_units();
    let s = sigma.units();
    let pattern = sigma.pattern();
    lemma_pow2_pos(149);
    lemma_magnitude_bounds(pattern);
    lemma_from_whole_exact(8);
    lemma_magnitude_unpack(pattern);
    let t = scale(pattern);
    let k = significand(pattern);
    // A value of at least one has three bits to spare below its significand.
    assert(t >= 126) by {
        lemma_magnitude_pack(126, 0x80_0000);
        lemma_pow2_adds(126, 23);
        lemma2_to64();
        let one = 126int * 0x80_0000 + 0x80_0000;
        assert(magnitude(one) == o) by (nonlinear_arith)
            requires
                magnitude(one) == 0x80_0000 * pow2(126),
                o == pow2(126) * 0x80_0000,
        ;
        if pattern < one {
            lemma_magnitude_increases(pattern, one);
        }
    }
    let r = lemma_representable(k, t - 3);
    let part = magnitude(r);
    lemma_pow2_adds((t - 3) as nat, 3);
    lemma2_to64();
    assert(s == 8 * part) by (nonlinear_arith)
        requires
            s == k * pow2(t as nat),
            pow2(t as nat) == pow2((t - 3) as nat) * 8,
            part == k * pow2((t - 3) as nat),
    ;
    let exact = s * o;
    let q = 8 * o;
    assert(exact == part * q) by (nonlinear_arith)
        requires
            exact == s * o,
            s == 8 * part,
            q == 8 * o,
    ;
    assert(0 <= exact) by (nonlinear_arith)
        requires
            exact == s * o,
            0 < s,
            0 < o,
    ;
    lemma_rounded_keeps(exact, q, false, r);
    let eighth = quotient(sigma, from_whole(8));
    assert(eighth == rounded(exact, q, false));
    assert(eighth.units() == part);
    lemma_whole_below_bounds(part);
    let n = whole_below(part);
    assert(s < 16 * o ==> n < 2) by (nonlinear_arith)
        requires
            n * o <= part,
            s == 8 * part,
            0 < o,
    ;
    assert(s >= 16 * o ==> n >= 2) by (nonlinear_arith)
        requires
            part < (n + 1) * o,
            s == 8 * part,
            0 < o,
    ;
    assert(s < 24 * o ==> n < 3) by (nonlinear_arith)
        requires
            n * o <= part,
            s == 8 * part,
            0 < o,
    ;
    assert(s >= 24 * o ==> n >= 3) by (nonlinear_arith)
        requires
            part < (n + 1) * o,
            s == 8 * part,
            0 < o,
    ;
    assert(s < 32 * o ==> n < 4) by (nonlinear_arith)
        requires
            n * o <= part,
            s == 8 * part,
            0 < o,
    ;
    assert(s >= 32 * o ==> n >= 4) by (nonlinear_arith)
        requires
            part < (n + 1) * o,
            s == 8 * part,
            0 < o,
    ;
    assert(n < 9) by (nonlinear_arith)
        requires
            n * o <= part,
            s == 8 * part,
            s <= 64 * o,
            0 < o,
    ;
}

/// The divisor of the exponents is finite and at least two.
pub proof fn lemma_variance(sigma: F32)
    requires
        sigma.finite(),
        one_in_units() <= sigma.units() <= 64 * one_in_units(),
    ensures
        ({
            let variance = product(product(from_whole(2), sigma), sigma);
            &&& variance.finite()
            &&& !variance.negative()
            &&& 2 * one_in_units() <= variance.units() <= 8192 * one_in_units()
        }),
{
    let o = one_in_units();
    let s = sigma.units();
    let two = from_whole(2);
    lemma_pow2_pos(149);
    lemma_magnitude_bounds(sigma.pattern());
    lemma_from_whole_exact(2);
    lemma_from_whole_exact(128);
    lemma_from_whole_exact(8192);
    let doubled = product(two, sigma);
    assert((2 * o) * o <= (2 * o) * s <= (128 * o) * o) by (nonlinear_arith)
        requires
            o <= s <= 64 * o,
            0 < o,
    ;
    lemma_product_between(two, sigma, two);
    lemma_product_between(two, sigma, from_whole(128));
    lemma_rank_order(doubled, from_whole(128));
    let d = doubled.units();
    assert((2 * o) * o <= d * s <= (8192 * o) * o) by (nonlinear_arith)
        requires
            2 * o <= d <= 128 * o,
            o <= s <= 64 * o,
            0 < o,
    ;
    lemma_product_between(doubled, sigma, two);
    lemma_product_between(doubled, sigma, from_whole(8192));
    lemma_rank_order(product(doubled, sigma), from_whole(8192));
}

/// The negative square of a distance is exact.
pub proof fn lemma_square(k: int)
    requires
        0 <= k <= 128,
    ensures
        ({
            let top = product(negated(from_whole(k)), from_whole(k));
            &&& top.finite()
            &&& top.negative()
            &&& top.units() == -(k * k * one_in_units())
            &&& 0 <= k * k * one_in_units()
        }),
{
    let o = one_in_units();
    let whole = from_whole(k);
    lemma_pow2_pos(149);
    lemma_from_whole_exact(k);
    lemma_negated(whole);
    assert(0 <= k * k <= 0x4000) by (nonlinear_arith)
        requires
            0 <= k <= 128,
    ;
    let r = lemma_representable(k * k, 149);
    let exact = negated(whole).units() * whole.units();
    let square = (k * k) * o;
    assert(exact == -(square * o) && 0 <= square * o && 0 <= square) by (nonlinear_arith)
        requires
            exact == (-(k * o)) * (k * o),
            square == (k * k) * o,
            0 < o,
            0 <= k * k,
    ;
    lemma_rounded_keeps(exact, o, true, r);
    let top = product(negated(whole), whole);
    assert(top == rounded(exact, o, true));
}

/// An exponent is the exact negative square over the divisor, rounded once.
pub proof fn lemma_exponent(sigma: F32, k: int)
    requires
        sigma.finite(),
        one_in_units() <= sigma.units() <= 64 * one_in_units(),
        0 <= k <= 128,
    ensures
        ({
            let variance = product(product(from_whole(2), sigma), sigma);
            exponent_of(sigma, k) == rounded(
                -(k * k * one_in_units() * one_in_units()),
                variance.units(),
                true,
            )
        }),
{
    let o = one_in_units();
    let square = k * k * o;
    lemma_pow2_pos(149);
    lemma_variance(sigma);
    lemma_square(k);
    assert((-square) * o == -(square * o)) by (nonlinear_arith);
}

/// The exponents start at zero and fall from the centre outwards, so the weights that they stand
/// for start at one and fall too.
pub proof fn law_exponents_fall(sigma: F32, near: int, far: int)
    requires
        sigma.finite(),
        one_in_units() <= sigma.units() <= 64 * one_in_units(),
        0 <= near <= far <= 128,
    ensures
        exponent_of(sigma, 0).units() == 0,
        !exponent_of(sigma, far).nan(),
        exponent_of(sigma, far).units() <= exponent_of(sigma, near).units() <= 0,
{
    let o = one_in_units();
    let q = product(product(from_whole(2), sigma), sigma).units();
    lemma_pow2_pos(149);
    lemma_variance(sigma);
    lemma_exponent(sigma, 0);
    lemma_exponent(sigma, near);
    lemma_exponent(sigma, far);
    assert(0 * 0 * o * o == 0);
    assert(0 <= near * near * o * o <= far * far * o * o) by (nonlinear_arith)
        requires
            0 <= near <= far,
            0 < o,
    ;
    lemma_magnitude_bounds(0);
    lemma_rounded_keeps(0, q, true, 0);
    lemma_rounded_pattern(-(far * far * o * o), q, true);
    lemma_rounded_monotone(-(far * far * o * o), -(near * near * o * o), q, true, true);
    lemma_rounded_monotone(-(near * near * o * o), 0, q, true, true);
}

/// Weights of which the centre one is one and none is larger add up to at least one and at most
/// their number.
pub proof fn lemma_tap_sum(taps: Seq<F32>, reach: int, n: int)
    requires
        0 <= reach <= 128,
        taps.len() == reach + 1,
        shares(taps),
        0 <= n <= 2 * reach + 1,
    ensures
        tap_sum(taps, reach, n).finite(),
        !tap_sum(taps, reach, n).negative(),
        0 <= tap_sum(taps, reach, n).units() <= n * one_in_units(),
        n > reach ==> tap_sum(taps, reach, n).units() >= one_in_units(),
    decreases n,
{
    let o = one_in_units();
    lemma_pow2_pos(149);
    lemma_magnitude_bounds(0);
    if n > 0 {
        lemma_tap_sum(taps, reach, n - 1);
        let before = tap_sum(taps, reach, n - 1);
        let tap = taps[abs(n - 1 - reach) as int];
        lemma_from_whole_exact(n);
        lemma_from_whole_exact(1);
        assert((n - 1) * o + o == n * o) by (nonlinear_arith);
        assert(n * o <= 0x4_0000_0000 * o) by (nonlinear_arith)
            requires
                n <= 0x4_0000_0000,
                0 < o,
        ;
        lemma_sum_between(before, tap, from_whole(n));
        lemma_sum_between(before, tap, from_whole(1));
        lemma_sum_between(before, tap, zero(false));
        lemma_finite_below(sum(before, tap));
        let exact = before.units() + tap.units();
        lemma_rounded_pattern(exact, 1, false);
    }
}

/// Finite weights between zero and one, the first of them one.
pub open spec fn shares(taps: Seq<F32>) -> bool {
    &&& taps[0].units() == one_in_units()
    &&& forall|k: int|
        0 <= k < taps.len() ==> {
            &&& (#[trigger] taps[k]).finite()
            &&& !taps[k].negative()
            &&& taps[k].units() <= one_in_units()
        }
}

/// Of a kernel that fits the table, every weight lies between zero and one, the taps keep their
/// order, and past the reach the table holds zeros.
pub proof fn law_weights_are_shares(sigma: F32, taps: Seq<F32>)
    requires
        reach_of(sigma) <= 128,
        taps.len() == reach_of(sigma) + 1,
        shares(taps),
    ensures
        ({
            let table = weight_table(sigma, taps);
            let reach = reach_of(sigma);
            &&& forall|k: int|
                0 <= k < table.len() ==> (#[trigger] table[k]).finite() && 0 <= table[k].units()
                    <= one_in_units()
            &&& forall|i: int, j: int|
                0 <= i <= reach && 0 <= j <= reach && taps[i].units() <= taps[j].units()
                    ==> #[trigger] table[i].units() <= #[trigger] table[j].units()
            &&& forall|k: int| reach < k < table.len() ==> #[trigger] table[k] == zero(false)
        }),
{
    let o = one_in_units();
    let reach = reach_of(sigma);
    let table = weight_table(sigma, taps);
    let total = tap_sum(taps, reach, 2 * reach + 1);
    let q = total.units();
    lemma_pow2_pos(149);
    lemma_tap_sum(taps, reach, 2 * reach + 1);
    lemma_from_whole_exact(1);
    let one = from_whole(1);
    lemma_magnitude_bounds(0);
    assert(0 < o * q && o * q == q * o) by (nonlinear_arith)
        requires
            0 < o <= q,
    ;
    lemma_rounded_keeps(q * o, q, false, one.pattern());
    lemma_rounded_keeps(0, q, false, 0);
    let whole = rounded(q * o, q, false);
    assert(whole.units() == o);
    assert forall|k: int| 0 <= k < table.len() implies {
        &&& (#[trigger] table[k]).finite()
        &&& 0 <= table[k].units() <= one_in_units()
        &&& k > reach ==> table[k] == zero(false)
    } by {
        let part = if k <= reach {
            taps[k].units()
        } else {
            0
        };
        if k <= reach {
            lemma_magnitude_bounds(taps[k].pattern());
        }
        assert(0 <= part * o <= q * o) by (nonlinear_arith)
            requires
                0 <= part <= q,
                0 < o,
        ;
        assert(table[k] == rounded(part * o, q, false));
        lemma_rounded_pattern(part * o, q, false);
        lemma_rounded_monotone(part * o, q * o, q, false, false);
        lemma_magnitude_bounds(table[k].pattern());
        lemma_rank_order(table[k], whole);
    }
    assert forall|i: int, j: int|
        0 <= i <= reach && 0 <= j <= reach && taps[i].units()
            <= taps[j].units() implies #[trigger] table[i].units()
        <= #[trigger] table[j].units() by {
        lemma_magnitude_bounds(taps[i].pattern());
        let a = taps[i].units();
        let b = taps[j].units();
        assert(0 <= a * o <= b * o) by (nonlinear_arith)
            requires
                0 <= a <= b,
                0 < o,
        ;
        lemma_rounded_monotone(a * o, b * o, q, false, false);
    }
}

} // verus!
