//! Rounding to the nearest binary32 magnitude, ties to even.
use crate::magnitude::{
    lemma_magnitude_bounds, lemma_magnitude_increases, lemma_magnitude_pack, lemma_magnitude_step,
    magnitude, HIDDEN, INFINITY,
};
use vstd::arithmetic::power2::{
    lemma2_to64, lemma2_to64_rest, lemma_pow2_adds, lemma_pow2_pos, lemma_pow2_strictly_increases,
    lemma_pow2_unfold, pow2,
};
use vstd::prelude::*;

verus! {

/// `pattern` is the nearest one to the magnitude `p / q`, counted in units: `p / q` lies between
/// the midpoints to the two neighbouring patterns, and on a midpoint only if `pattern` is even.
/// Infinity stands where the next finite magnitude would, so overflow is rounding too.
pub open spec fn nearest(p: int, q: int, pattern: int) -> bool {
    &&& 0 <= pattern <= INFINITY
    &&& pattern > 0 ==> {
        let middle = q * (magnitude(pattern - 1) + magnitude(pattern));
        2 * p > middle || (2 * p == middle && pattern % 2 == 0)
    }
    &&& pattern < INFINITY ==> {
        let middle = q * (magnitude(pattern) + magnitude(pattern + 1));
        2 * p < middle || (2 * p == middle && pattern % 2 == 0)
    }
}

/// The midpoints around increasing patterns increase.
proof fn lemma_midpoints(q: int, a: int, b: int)
    requires
        0 < q,
        0 <= a < b,
    ensures
        q * (magnitude(a) + magnitude(a + 1)) <= q * (magnitude(b - 1) + magnitude(b)),
        a + 1 < b ==> q * (magnitude(a) + magnitude(a + 1)) < q * (magnitude(b - 1) + magnitude(b)),
{
    let x = magnitude(a) + magnitude(a + 1);
    let y = magnitude(b - 1) + magnitude(b);
    if a + 1 < b {
        lemma_magnitude_increases(a, b - 1);
        lemma_magnitude_increases(a + 1, b);
        assert(q * x < q * y) by (nonlinear_arith)
            requires
                x < y,
                0 < q,
        ;
    }
}

/// Rounding keeps order: a larger magnitude does not round to a smaller pattern.
pub proof fn lemma_nearest_monotone(p1: int, p2: int, q: int, r1: int, r2: int)
    requires
        0 < q,
        p1 <= p2,
        nearest(p1, q, r1),
        nearest(p2, q, r2),
    ensures
        r1 <= r2,
{
    if r2 < r1 {
        lemma_midpoints(q, r2, r1);
    }
}

/// There is one nearest pattern.
pub proof fn lemma_nearest_unique(p: int, q: int, r1: int, r2: int)
    requires
        0 < q,
        nearest(p, q, r1),
        nearest(p, q, r2),
    ensures
        r1 == r2,
{
    lemma_nearest_monotone(p, p, q, r1, r2);
    lemma_nearest_monotone(p, p, q, r2, r1);
}

/// The nearest pattern depends on the ratio alone.
pub proof fn lemma_nearest_scaled(p: int, q: int, c: int, r: int)
    requires
        0 < c,
        nearest(p * c, q * c, r),
    ensures
        nearest(p, q, r),
{
    assert forall|m: int|
        (2 * (p * c) > #[trigger] ((q * c) * m) ==> 2 * p > q * m) && (2 * (p * c) == (q * c) * m
            ==> 2 * p == q * m) && (2 * (p * c) < (q * c) * m ==> 2 * p < q * m) by {
        assert((q * c) * m == (q * m) * c) by (nonlinear_arith);
        assert(2 * (p * c) == (2 * p) * c) by (nonlinear_arith);
        let x = 2 * p;
        let y = q * m;
        assert(x * c > y * c ==> x > y) by (nonlinear_arith)
            requires
                0 < c,
        ;
        assert(x * c == y * c ==> x == y) by (nonlinear_arith)
            requires
                0 < c,
        ;
        assert(x * c < y * c ==> x < y) by (nonlinear_arith)
            requires
                0 < c,
        ;
    }
    let low = magnitude(r - 1) + magnitude(r);
    let high = magnitude(r) + magnitude(r + 1);
    assert((q * c) * low == (q * c) * low);
    assert((q * c) * high == (q * c) * high);
}

/// A magnitude that a pattern has is rounded to that pattern.
pub proof fn lemma_nearest_exact(r: int)
    requires
        0 <= r <= INFINITY,
    ensures
        nearest(magnitude(r), 1, r),
{
    lemma_magnitude_step(r);
    if r > 0 {
        lemma_magnitude_step(r - 1);
    }
}

/// What is left after `k` whole multiples of `step` are taken out of `p`, as two flags: whether
/// it reaches half a step, and whether it differs from nothing and from half a step.
pub open spec fn split(p: int, step: int, k: int, half: bool, sticky: bool) -> bool {
    let rest = p - k * step;
    &&& 0 <= rest < step
    &&& half == (2 * rest >= step)
    &&& sticky == (rest != 0 && 2 * rest != step)
}

/// Dropping the lowest bit of `k` doubles the step; the flags take the dropped bit in.
proof fn lemma_split_halve(p: int, step: int, k: int, half: bool, sticky: bool)
    requires
        0 < step,
        0 <= k,
        split(p, step, k, half, sticky),
    ensures
        split(p, 2 * step, k / 2, k % 2 == 1, half || sticky),
{
    let h = k / 2;
    let b = k % 2;
    assert(k == 2 * h + b);
    assert(k * step == h * (2 * step) + b * step) by (nonlinear_arith)
        requires
            k == 2 * h + b,
    ;
}

/// With nothing left over, doubling `k` halves the step.
proof fn lemma_split_double(p: int, step: int, k: int)
    requires
        0 < step,
        split(p, 2 * step, k, false, false),
    ensures
        split(p, step, 2 * k, false, false),
{
    assert(k * (2 * step) == (2 * k) * step) by (nonlinear_arith);
}

/// A significand of 24 bits, or fewer at the lowest scale, rounds as its flags say.
proof fn lemma_round_split(p: int, q: int, t: int, k: int, half: bool, sticky: bool)
    requires
        0 < q,
        0 <= t < 254,
        0 <= k < 0x100_0000,
        t == 0 || k >= 0x80_0000,
        split(p, pow2(t as nat) * q, k, half, sticky),
    ensures
        ({
            let up = half && (sticky || k % 2 == 1);
            nearest(p, q, t * 0x80_0000 + k + if up { 1int } else { 0int })
        }),
{
    let w = pow2(t as nat) as int;
    let r = t * 0x80_0000 + k;
    lemma_pow2_pos(t as nat);
    lemma_magnitude_pack(t, k);
    lemma_magnitude_pack(t, k + 1);
    let low = magnitude(r);
    let high = magnitude(r + 1);
    let rest = p - k * (w * q);
    assert(q * (low + high) == 2 * (k * (w * q)) + w * q) by (nonlinear_arith)
        requires
            low == k * w,
            high == (k + 1) * w,
    ;
    assert(q * (low + low) == 2 * (k * (w * q))) by (nonlinear_arith)
        requires
            low == k * w,
    ;
    assert(q * (high + high) == 2 * (k * (w * q)) + 2 * (w * q)) by (nonlinear_arith)
        requires
            high == (k + 1) * w,
    ;
    assert(r < INFINITY);
    assert(r % 2 == k % 2);
    let up = half && (sticky || k % 2 == 1);
    if up {
        if r + 1 < INFINITY {
            lemma_magnitude_step(r + 1);
            let above = magnitude(r + 2);
            assert(q * (high + high) < q * (high + above)) by (nonlinear_arith)
                requires
                    high < above,
                    0 < q,
            ;
        }
    } else {
        if r > 0 {
            lemma_magnitude_step(r - 1);
            let below = magnitude(r - 1);
            assert(q * (below + low) < q * (low + low)) by (nonlinear_arith)
                requires
                    below < low,
                    0 < q,
            ;
        }
    }
}

/// A significand that stays at 24 bits beyond the largest scale is infinite.
proof fn lemma_round_overflow(p: int, q: int, t: int, k: int, half: bool, sticky: bool)
    requires
        0 < q,
        254 <= t,
        0x80_0000 <= k,
        split(p, pow2(t as nat) * q, k, half, sticky),
    ensures
        nearest(p, q, INFINITY as int),
{
    let w = pow2(t as nat) as int;
    let u = pow2(254) as int;
    let v = pow2((t - 254) as nat) as int;
    lemma_pow2_adds(254, (t - 254) as nat);
    lemma_pow2_pos((t - 254) as nat);
    lemma_pow2_pos(254);
    lemma_magnitude_bounds(INFINITY as int);
    lemma_magnitude_step(INFINITY as int - 1);
    let low = magnitude(INFINITY as int - 1);
    let high = magnitude(INFINITY as int);
    assert(u <= w) by (nonlinear_arith)
        requires
            w == u * v,
            0 < v,
            0 < u,
    ;
    assert(q * (low + high) < 2 * (k * (w * q))) by (nonlinear_arith)
        requires
            low < high,
            high == 0x80_0000 * u,
            0x80_0000 <= k,
            0 < u <= w,
            0 < q,
    ;
}

/// The power of two at which [`round`] counts: deep enough for every product and quotient.
pub const DEPTH: u32 = 256;

/// Rounds the magnitude `p / (d * 2^256)`, given as `k` multiples of `2^t * d` and the flags of
/// what is left.
pub(crate) fn round(
    k: u64,
    t: u32,
    half: bool,
    sticky: bool,
    Ghost(p): Ghost<int>,
    Ghost(d): Ghost<int>,
) -> (pattern: u32)
    requires
        0 < d,
        t <= 0x1_0000,
        split(p, pow2(t as nat) * d, k as int, half, sticky),
        k >= 0x100_0000 || (!half && !sticky),
    ensures
        nearest(p, pow2(256) * d, pattern as int),
{
    let mut k: u64 = k;
    let mut t: u32 = t;
    let mut half = half;
    let mut sticky = sticky;
    let ghost t0 = t as int;
    let ghost k0 = k as int;
    proof {
        lemma2_to64();
        assert(t - t0 == 0);
        assert(k * pow2((t - t0) as nat) == k) by (nonlinear_arith)
            requires
                pow2((t - t0) as nat) == 1,
        ;
    }
    while k >= 0x100_0000 || t < DEPTH
        invariant
            0 < d,
            split(p, pow2(t as nat) * d, k as int, half, sticky),
            k >= 0x80_0000 || t <= DEPTH || (!half && !sticky),
            0 <= t0 <= 0x1_0000,
            t0 <= t,
            k * pow2((t - t0) as nat) <= k0 <= u64::MAX,
        decreases k + if t < DEPTH { DEPTH - t } else { 0int },
    {
        proof {
            lemma_pow2_pos(t as nat);
            lemma_pow2_unfold((t + 1) as nat);
            let step = pow2(t as nat) * d;
            assert(0 < step) by (nonlinear_arith)
                requires
                    step == pow2(t as nat) * d,
                    0 < pow2(t as nat),
                    0 < d,
            ;
            lemma_split_halve(p, step, k as int, half, sticky);
            assert(pow2((t + 1) as nat) * d == 2 * step) by (nonlinear_arith)
                requires
                    pow2((t + 1) as nat) == 2 * pow2(t as nat),
                    step == pow2(t as nat) * d,
            ;
            let n = (t - t0) as nat;
            lemma_pow2_pos(n);
            lemma_pow2_unfold(n + 1);
            let w = pow2(n) as int;
            let h = k as int / 2;
            assert(h * (2 * w) <= k * w) by (nonlinear_arith)
                requires
                    2 * h <= k,
                    0 < w,
            ;
            if k >= 0x100_0000 && n >= 64 {
                lemma2_to64_rest();
                if n > 64 {
                    lemma_pow2_strictly_increases(64, n);
                }
                assert(0x100_0000 * w <= k * w) by (nonlinear_arith)
                    requires
                        0x100_0000 <= k,
                        0 < w,
                ;
                assert(false);
            }
        }
        sticky = half || sticky;
        half = k % 2 == 1;
        k = k / 2;
        t = t + 1;
    }
    while k < HIDDEN as u64 && t > DEPTH
        invariant
            0 < d,
            DEPTH <= t,
            k < 0x100_0000,
            split(p, pow2(t as nat) * d, k as int, half, sticky),
            k >= 0x80_0000 || t <= DEPTH || (!half && !sticky),
        decreases t,
    {
        proof {
            lemma_pow2_pos((t - 1) as nat);
            lemma_pow2_unfold(t as nat);
            let step = pow2((t - 1) as nat) * d;
            assert(0 < step) by (nonlinear_arith)
                requires
                    step == pow2((t - 1) as nat) * d,
                    0 < pow2((t - 1) as nat),
                    0 < d,
            ;
            assert(pow2(t as nat) * d == 2 * step) by (nonlinear_arith)
                requires
                    pow2(t as nat) == 2 * pow2((t - 1) as nat),
                    step == pow2((t - 1) as nat) * d,
            ;
            lemma_split_double(p, step, k as int);
        }
        k = 2 * k;
        t = t - 1;
    }
    let t: u32 = t - DEPTH;
    proof {
        let q = pow2(256) * d;
        lemma_pow2_pos(256);
        assert(0 < q) by (nonlinear_arith)
            requires
                q == pow2(256) * d,
                0 < pow2(256),
                0 < d,
        ;
        lemma_pow2_adds(t as nat, 256);
        assert(pow2((t + 256) as nat) * d == pow2(t as nat) * q) by (nonlinear_arith)
            requires
                pow2((t + 256) as nat) == pow2(t as nat) * pow2(256),
                q == pow2(256) * d,
        ;
        if t >= 254 {
            lemma_round_overflow(p, q, t as int, k as int, half, sticky);
        } else {
            lemma_round_split(p, q, t as int, k as int, half, sticky);
        }
    }
    if t >= 254 {
        INFINITY
    } else {
        let up: u32 = if half && (sticky || k % 2 == 1) { 1 } else { 0 };
        t * HIDDEN + k as u32 + up
    }
}

} // verus!
