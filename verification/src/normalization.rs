//! How close the weights of a kernel come to adding up to one.
use crate::arith::{quotient, sum};
use crate::kernel::{law_weights_are_shares, lemma_tap_sum, reach_of, shares, tap_sum, weight_table};
use crate::magnitude::{lemma_magnitude_bounds, one_in_units};
use crate::precision::{lemma_rounded_relative, lemma_sum_between};
use crate::single::{rounded, F32};
use vstd::arithmetic::power2::{lemma2_to64, lemma_pow2_adds, lemma_pow2_pos, pow2};
use vstd::math::abs;
use vstd::prelude::*;

verus! {

/// The values from the first to the `n`-th after the centre, added up exactly.
pub open spec fn side(values: Seq<F32>, n: int) -> int
    decreases n,
{
    if n <= 0 {
        0
    } else {
        side(values, n - 1) + values[n].units()
    }
}

/// What a kernel with the given values from its centre outwards adds up to exactly: the centre
/// and twice the others.
pub open spec fn spread(values: Seq<F32>, n: int) -> int {
    values[0].units() + 2 * side(values, n)
}

/// The first `n` values from the far left of a kernel, added up exactly.
spec fn line(values: Seq<F32>, reach: int, n: int) -> int
    decreases n,
{
    if n <= 0 {
        0
    } else {
        line(values, reach, n - 1) + values[abs(n - 1 - reach) as int].units()
    }
}

/// Left of the centre stand the values of one side.
proof fn lemma_line_left(values: Seq<F32>, reach: int, n: int)
    requires
        0 <= n <= reach,
    ensures
        line(values, reach, n) + side(values, reach - n) == side(values, reach),
    decreases n,
{
    if n > 0 {
        lemma_line_left(values, reach, n - 1);
    }
}

/// Past the centre follow those of the other side.
proof fn lemma_line_right(values: Seq<F32>, reach: int, n: int)
    requires
        0 <= reach < n,
    ensures
        line(values, reach, n) == side(values, reach) + values[0].units() + side(
            values,
            n - 1 - reach,
        ),
    decreases n,
{
    if n == reach + 1 {
        lemma_line_left(values, reach, reach);
    } else {
        lemma_line_right(values, reach, n - 1);
    }
}

/// Adding the taps up moves the sum by less than one part in `2^24` for every tap, but for half a
/// unit each.
proof fn lemma_tap_error(taps: Seq<F32>, reach: int, n: int)
    requires
        0 <= reach <= 128,
        taps.len() == reach + 1,
        shares(taps),
        0 <= n <= 2 * reach + 1,
    ensures
        ({
            let total = tap_sum(taps, reach, n).units();
            let exact = line(taps, reach, n);
            &&& 0x100_0000 * (total - exact) <= n * (total + 0x80_0000)
            &&& 0x100_0000 * (exact - total) <= n * (total + 0x80_0000)
        }),
    decreases n,
{
    lemma_magnitude_bounds(0);
    if n > 0 {
        lemma_tap_error(taps, reach, n - 1);
        lemma_tap_sum(taps, reach, n - 1);
        lemma_tap_sum(taps, reach, n);
        let before = tap_sum(taps, reach, n - 1);
        let tap = taps[abs(n - 1 - reach) as int];
        let after = sum(before, tap);
        lemma_magnitude_bounds(tap.pattern());
        lemma_sum_between(before, tap, before);
        let p = before.units() + tap.units();
        assert(after == rounded(p, 1, false));
        lemma_rounded_relative(p, 1);
        let a = before.units();
        let b = after.units();
        assert((n - 1) * (a + 0x80_0000) + (b + 0x80_0000) <= n * (b + 0x80_0000))
            by (nonlinear_arith)
            requires
                1 <= n,
                a <= b,
        ;
    }
}

/// Dividing the taps moves their sum by less than one part in `2^24`, but for half a unit each.
proof fn lemma_quotient_error(
    table: Seq<F32>,
    taps: Seq<F32>,
    total: int,
    reach: int,
    n: int,
)
    requires
        0 < total,
        0 <= n <= 2 * reach + 1,
        forall|k: int|
            0 <= k <= reach ==> {
                let weight = #[trigger] table[k];
                let exact = taps[k].units() * one_in_units();
                let near = total * weight.units();
                &&& 0x100_0000 * (exact - near) <= near + 0x80_0000 * total
                &&& 0x100_0000 * (near - exact) <= near + 0x80_0000 * total
            },
    ensures
        ({
            let exact = line(taps, reach, n) * one_in_units();
            let near = total * line(table, reach, n);
            &&& 0x100_0000 * (exact - near) <= near + n * (0x80_0000 * total)
            &&& 0x100_0000 * (near - exact) <= near + n * (0x80_0000 * total)
        }),
    decreases n,
{
    let o = one_in_units();
    if n > 0 {
        lemma_quotient_error(table, taps, total, reach, n - 1);
        let k = abs(n - 1 - reach) as int;
        let weight = table[k];
        let e = line(taps, reach, n - 1);
        let f = line(table, reach, n - 1);
        let t = taps[k].units();
        let w = weight.units();
        assert((e + t) * o == e * o + t * o) by (nonlinear_arith);
        assert(total * (f + w) == total * f + total * w) by (nonlinear_arith);
        let c = 0x80_0000 * total;
        assert((n - 1) * c + c == n * c) by (nonlinear_arith);
    } else {
        assert(0 * o == 0);
        assert(total * 0 == 0);
        assert(0 * (0x80_0000 * total) == 0);
    }
}

/// From both errors: how far the weights are from one.
proof fn lemma_close(f: int, e: int, t: int, o: int, n: int)
    requires
        0 <= f,
        0 < o <= t,
        0 <= n <= 257,
        0x1_0000_0000 <= o,
        0x100_0000 * (t - e) <= n * (t + 0x80_0000),
        0x100_0000 * (e - t) <= n * (t + 0x80_0000),
        0x100_0000 * (e * o - t * f) <= t * f + n * (0x80_0000 * t),
        0x100_0000 * (t * f - e * o) <= t * f + n * (0x80_0000 * t),
    ensures
        0x8000 * (f - o) <= o,
        0x8000 * (o - f) <= o,
{
    let c = n * 0x80_0000;
    assert(0 <= c <= o);
    assert(n * (t + 0x80_0000) == n * t + c) by (nonlinear_arith)
        requires
            c == n * 0x80_0000,
    ;
    assert(n * (0x80_0000 * t) == c * t) by (nonlinear_arith)
        requires
            c == n * 0x80_0000,
    ;
    // Both errors over the same divisor.
    let d = 0x100_0000 * (e - t);
    assert(d * o <= (n * t + c) * o && -(d * o) <= (n * t + c) * o) by (nonlinear_arith)
        requires
            d <= n * t + c,
            -d <= n * t + c,
            0 < o,
    ;
    assert(d * o == 0x100_0000 * (e * o) - 0x100_0000 * (t * o)) by (nonlinear_arith)
        requires
            d == 0x100_0000 * (e - t),
    ;
    assert((n * t + c) * o <= t * ((n + 1) * o)) by (nonlinear_arith)
        requires
            0 <= c <= o <= t,
            0 < o,
    ;
    assert(c * t <= t * o) by (nonlinear_arith)
        requires
            c <= o,
            0 < t,
    ;
    assert(t * ((n + 1) * o) + t * o == t * ((n + 2) * o)) by (nonlinear_arith);
    let slack = (n + 2) * o;
    assert(0x100_0000 * (t * f) - 0x100_0000 * (t * o) <= t * f + t * slack);
    assert(0x100_0000 * (t * o) - 0x100_0000 * (t * f) <= t * f + t * slack);
    assert(0x100_0000 * (f - o) <= f + slack) by (nonlinear_arith)
        requires
            0x100_0000 * (t * f) - 0x100_0000 * (t * o) <= t * f + t * slack,
            0 < t,
    ;
    assert(0x100_0000 * (o - f) <= f + slack) by (nonlinear_arith)
        requires
            0x100_0000 * (t * o) - 0x100_0000 * (t * f) <= t * f + t * slack,
            0 < t,
    ;
    assert(slack <= 259 * o) by (nonlinear_arith)
        requires
            slack == (n + 2) * o,
            n <= 257,
            0 < o,
    ;
}

/// Past the last value that counts, zeros add nothing.
proof fn lemma_side_ends(values: Seq<F32>, reach: int, n: int)
    requires
        0 <= reach <= n,
        forall|k: int| reach < k <= n ==> (#[trigger] values[k]).units() == 0,
    ensures
        side(values, n) == side(values, reach),
    decreases n,
{
    if n > reach {
        lemma_side_ends(values, reach, n - 1);
    }
}

/// The sum of values that are not negative is not negative.
proof fn lemma_side_positive(values: Seq<F32>, n: int)
    requires
        forall|k: int| 0 <= k <= n ==> 0 <= (#[trigger] values[k]).units(),
    ensures
        0 <= side(values, n),
    decreases n,
{
    if n > 0 {
        lemma_side_positive(values, n - 1);
    }
}

/// The weights are normalized: of taps that fall off from one at the centre, or at least do not
/// exceed it, the centre weight and twice all others add up to one, within one part in `2^15`.
pub proof fn law_weights_add_up_to_one(sigma: F32, taps: Seq<F32>)
    requires
        reach_of(sigma) <= 128,
        taps.len() == reach_of(sigma) + 1,
        shares(taps),
    ensures
        ({
            let table = weight_table(sigma, taps);
            let added = spread(table, table.len() - 1);
            &&& 0x8000 * (added - one_in_units()) <= one_in_units()
            &&& 0x8000 * (one_in_units() - added) <= one_in_units()
        }),
{
    let o = one_in_units();
    let reach = reach_of(sigma);
    let n = 2 * reach + 1;
    let table = weight_table(sigma, taps);
    let total = tap_sum(taps, reach, n);
    let t = total.units();
    lemma_pow2_pos(149);
    lemma_tap_sum(taps, reach, n);
    lemma_tap_error(taps, reach, n);
    law_weights_are_shares(sigma, taps);
    assert forall|k: int| 0 <= k <= reach implies {
        let weight = #[trigger] table[k];
        let exact = taps[k].units() * o;
        let near = t * weight.units();
        &&& 0x100_0000 * (exact - near) <= near + 0x80_0000 * t
        &&& 0x100_0000 * (near - exact) <= near + 0x80_0000 * t
    } by {
        let exact = taps[k].units() * o;
        lemma_magnitude_bounds(taps[k].pattern());
        assert(0 <= exact) by (nonlinear_arith)
            requires
                exact == taps[k].units() * o,
                0 <= taps[k].units(),
                0 < o,
        ;
        assert(table[k] == quotient(taps[k], total));
        assert(table[k] == rounded(exact, t, false));
        lemma_rounded_relative(exact, t);
    }
    lemma_quotient_error(table, taps, t, reach, n);
    lemma_line_right(table, reach, n);
    lemma_magnitude_bounds(0);
    lemma_side_ends(table, reach, table.len() - 1);
    lemma_side_positive(table, reach);
    assert(o >= 0x1_0000_0000) by {
        lemma2_to64();
        lemma_pow2_adds(32, 117);
        lemma_pow2_pos(117);
        assert(o >= pow2(32)) by (nonlinear_arith)
            requires
                o == pow2(32) * pow2(117),
                pow2(117) >= 1,
                pow2(32) >= 0,
        ;
    }
    lemma_close(line(table, reach, n), line(taps, reach, n), t, o, n);
}

} // verus!
