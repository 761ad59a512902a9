//! Which pixels a blur needs, and whether it is drawn at all.
use crate::arith::{difference, negated, sum, zero};
use crate::geometry::{
    drawable, earlier, intersection, later, overlap_length, overlap_start, span_end, valid_blur,
    BackdropBlur, Bounds, Point, ScaledPixels, Size,
};
use crate::integral::{ceiled, floored, from_whole, to_whole, whole_above, whole_below};
use crate::kernel::{
    blur_sigma, downsample_of, downsample_step, law_kernel_reach, law_sigma_range, padding,
    padding_of, reach_of, sigma_of,
};
use crate::magnitude::{
    lemma_magnitude_bounds, lemma_magnitude_increases, lemma_magnitude_pack, lemma_magnitude_step,
    lemma_magnitude_unpack, magnitude, one_in_units, scale,
};
use crate::precision::{
    lemma_finite_below, lemma_from_whole_exact, lemma_from_whole_range, lemma_large_value,
    lemma_negated, lemma_representable, lemma_rounded_error, lemma_rounded_monotone,
    lemma_rounded_pattern, lemma_sum_between, lemma_whole_above_bounds, lemma_whole_below_bounds,
    lemma_whole_below_exact, lemma_whole_rounding,
};
use crate::single::{lemma_rank_order, lemma_rounded_exact, maximum, minimum, F32};
use vstd::arithmetic::power2::{lemma2_to64, lemma_pow2_adds, lemma_pow2_pos, pow2};
use vstd::prelude::*;

verus! {

/// What a drawn blur works with: the width of its kernel, the step by which its image shrinks,
/// and the window pixels that it reads, from `left` and `top` up to but without `right` and
/// `bottom`.
#[derive(Clone, Copy, Debug, PartialEq, Eq, Structural)]
pub struct BlurPlan {
    pub sigma: F32,
    pub downsample: u32,
    pub left: u32,
    pub top: u32,
    pub right: u32,
    pub bottom: u32,
}

impl BlurPlan {
    /// How many pixels are read across.
    pub fn width(&self) -> (r: u32)
        requires
            self.left <= self.right,
        ensures
            r == self.right - self.left,
    {
        self.right - self.left
    }

    /// How many pixels are read down.
    pub fn height(&self) -> (r: u32)
        requires
            self.top <= self.bottom,
        ensures
            r == self.bottom - self.top,
    {
        self.bottom - self.top
    }
}

/// The bounds of a window.
pub open spec fn window_of(width: u32, height: u32) -> Bounds {
    Bounds {
        origin: Point { x: ScaledPixels(zero(false)), y: ScaledPixels(zero(false)) },
        size: Size {
            width: ScaledPixels(from_whole(width as int)),
            height: ScaledPixels(from_whole(height as int)),
        },
    }
}

/// What of a blur shows: the part of its bounds inside its clip and inside the window.
pub open spec fn visible_of(blur: BackdropBlur, width: u32, height: u32) -> Bounds {
    intersection(intersection(blur.bounds, blur.content_mask.bounds), window_of(width, height))
}

/// An extent at or below zero.
pub open spec fn vanishing(extent: F32) -> bool {
    !extent.nan() && extent.units() <= 0
}

/// The first pixel that is read for what shows from `start` on.
pub open spec fn capture_start(start: F32, padding: F32) -> int {
    to_whole(maximum(floored(difference(start, padding)), zero(false)))
}

/// The pixel after the last that is read for what shows from `start` on.
pub open spec fn capture_end(start: F32, length: F32, padding: F32, limit: u32) -> int {
    to_whole(minimum(ceiled(sum(span_end(start, length), padding)), from_whole(limit as int)))
}

/// The plan of a blur in a window; none where its numbers are unusable, where nothing of it
/// shows, or where no pixel would be read.
pub open spec fn plan_of(blur: BackdropBlur, width: u32, height: u32) -> Option<BlurPlan> {
    let visible = visible_of(blur, width, height);
    let sigma = sigma_of(blur.blur_radius.0);
    let margin = padding_of(sigma);
    let left = capture_start(visible.origin.x.0, margin);
    let top = capture_start(visible.origin.y.0, margin);
    let right = capture_end(visible.origin.x.0, visible.size.width.0, margin, width);
    let bottom = capture_end(visible.origin.y.0, visible.size.height.0, margin, height);
    if !drawable(blur) {
        None
    } else if vanishing(visible.size.width.0) || vanishing(visible.size.height.0) {
        None
    } else if right <= left || bottom <= top {
        None
    } else {
        Some(
            BlurPlan {
                sigma,
                downsample: downsample_of(sigma) as u32,
                left: left as u32,
                top: top as u32,
                right: right as u32,
                bottom: bottom as u32,
            },
        )
    }
}

fn first_pixel(start: F32, margin: F32) -> (r: u32)
    ensures
        r == capture_start(start, margin),
{
    start.minus(margin).floor().max(F32::from_bits(0)).to_u32()
}

fn end_pixel(start: F32, length: F32, margin: F32, limit: u32) -> (r: u32)
    ensures
        r == capture_end(start, length, margin, limit),
{
    start.plus(length).plus(margin).ceil().min(F32::from_u32(limit)).to_u32()
}

/// Plans a blur in a window of the given size in device pixels.
pub fn plan_backdrop_blur(blur: &BackdropBlur, width: u32, height: u32) -> (plan: Option<BlurPlan>)
    ensures
        plan == plan_of(*blur, width, height),
        plan is Some ==> plan->0.left < plan->0.right && plan->0.top < plan->0.bottom,
{
    if !valid_blur(blur) {
        return None;
    }
    let none = ScaledPixels(F32::from_bits(0));
    let window = Bounds::new(
        Point { x: none, y: none },
        Size {
            width: ScaledPixels(F32::from_u32(width)),
            height: ScaledPixels(F32::from_u32(height)),
        },
    );
    let visible = blur.bounds.intersect(&blur.content_mask.bounds).intersect(&window);
    proof {
        assert(none.0.units() == 0);
    }
    if visible.size.width.0.le(none.0) || visible.size.height.0.le(none.0) {
        return None;
    }
    let sigma = blur_sigma(blur.blur_radius.0);
    let margin = padding(sigma);
    let left: u32 = first_pixel(visible.origin.x.0, margin);
    let top: u32 = first_pixel(visible.origin.y.0, margin);
    let right: u32 = end_pixel(visible.origin.x.0, visible.size.width.0, margin, width);
    let bottom: u32 = end_pixel(visible.origin.y.0, visible.size.height.0, margin, height);
    if right <= left || bottom <= top {
        return None;
    }
    Some(BlurPlan { sigma, downsample: downsample_step(sigma), left, top, right, bottom })
}

/// What shows along one axis lies in the window, and vanishes where the blur, its clip and the
/// window have nothing in common.
proof fn lemma_visible_axis(s: F32, l: F32, ms: F32, ml: F32, limit: u32)
    requires
        s.finite(),
        ms.finite(),
        span_end(s, l).finite(),
        span_end(ms, ml).finite(),
    ensures
        ({
            let first = overlap_start(s, ms);
            let start = overlap_start(first, zero(false));
            let length = overlap_length(
                first,
                overlap_length(s, l, ms, ml),
                zero(false),
                from_whole(limit as int),
            );
            let edge = from_whole(limit as int).units();
            &&& start.finite()
            &&& 0 <= start.units()
            &&& length.finite()
            &&& 0 <= length.units() <= 0x1_0000_0000 * one_in_units()
            &&& length.units() > 0 ==> start.units() < edge && start.units() < span_end(
                start,
                length,
            ).units()
            &&& s.units() >= edge || ms.units() >= edge ==> length.units() == 0
            &&& span_end(s, l).units() <= 0 || span_end(ms, ml).units() <= 0 ==> length.units()
                == 0
            &&& span_end(s, l).units() <= ms.units() || span_end(ms, ml).units() <= s.units()
                ==> length.units() == 0
            &&& span_end(s, l).units() <= s.units() || span_end(ms, ml).units() <= ms.units()
                ==> length.units() == 0
        }),
{
    let o = one_in_units();
    lemma_pow2_pos(149);
    let nil = zero(false);
    let edge = from_whole(limit as int);
    lemma_from_whole_range(limit as int);
    assert(nil.units() == 0);
    // The overlap of the blur and its clip.
    let first = overlap_start(s, ms);
    let last = later(earlier(span_end(s, l), span_end(ms, ml)), first);
    let extent = difference(last, first);
    lemma_negated(first);
    lemma_sum_between(last, negated(first), nil);
    lemma_sum_between(last, negated(first), negated(first));
    assert(0 <= extent.units());
    let end = span_end(first, extent);
    if extent.finite() {
        lemma_sum_between(first, extent, nil);
        lemma_sum_between(first, extent, first);
    } else {
        lemma_magnitude_bounds(extent.pattern());
        lemma_magnitude_bounds(first.pattern());
    }
    // The overlap of that and the window.
    let start = overlap_start(first, nil);
    lemma_sum_between(nil, edge, edge);
    let far = span_end(nil, edge);
    assert(far.units() == edge.units());
    let stop = later(earlier(end, far), start);
    lemma_finite_edge(far, edge);
    lemma_stop_finite(end, far, start);
    let length = difference(stop, start);
    lemma_negated(start);
    lemma_sum_between(stop, negated(start), nil);
    lemma_sum_between(stop, negated(start), edge);
    assert(0 <= length.units() <= edge.units());
    lemma_finite_below(length);
    if extent.units() == 0 && extent.finite() {
        assert(end.units() == first.units());
    }
    if length.units() > 0 {
        lemma_span_grows(start, stop);
    }
}

/// A span from one value to a larger one ends beyond its start, however its length is rounded.
proof fn lemma_span_grows(start: F32, stop: F32)
    requires
        start.finite(),
        stop.finite(),
        0 <= start.units() < stop.units(),
        difference(stop, start).finite(),
    ensures
        start.units() < span_end(start, difference(stop, start)).units(),
{
    let p = start.pattern();
    let q = stop.pattern();
    lemma_magnitude_bounds(p);
    lemma_magnitude_bounds(q);
    lemma_magnitude_step(p);
    lemma_magnitude_unpack(p);
    if q < p {
        lemma_magnitude_increases(q, p);
    } else if p + 1 < q {
        lemma_magnitude_increases(p + 1, q);
    }
    // One last place of the start is representable, and so is the value after the start.
    let r = lemma_representable(1, scale(p));
    let place = F32 { bits: r as u32 };
    let next = F32 { bits: (p + 1) as u32 };
    lemma_negated(start);
    lemma_sum_between(stop, negated(start), place);
    lemma_sum_between(start, difference(stop, start), next);
}

/// A value equal to a finite one is finite.
proof fn lemma_finite_edge(a: F32, b: F32)
    requires
        !a.nan(),
        b.finite(),
        a.units() == b.units(),
    ensures
        a.finite(),
{
    lemma_rank_order(a, b);
}

/// The end of what shows is finite: it lies between the start and the window's edge.
proof fn lemma_stop_finite(end: F32, far: F32, start: F32)
    requires
        !end.nan(),
        far.finite(),
        start.finite(),
        start.units() >= 0,
    ensures
        later(earlier(end, far), start).finite(),
{
    let stop = later(earlier(end, far), start);
    lemma_rank_order(end, far);
    lemma_rank_order(stop, far);
    lemma_rank_order(stop, start);
    lemma_rank_order(start, end);
}

/// A blur that lies left of, right of, above or below the window or its clip, or whose clip lies
/// outside the window, is not drawn.
pub proof fn law_hidden_blur_is_skipped(blur: BackdropBlur, width: u32, height: u32)
    requires
        ({
            let b = blur.bounds;
            let c = blur.content_mask.bounds;
            let right = span_end(b.origin.x.0, b.size.width.0).units();
            let bottom = span_end(b.origin.y.0, b.size.height.0).units();
            let clip_right = span_end(c.origin.x.0, c.size.width.0).units();
            let clip_bottom = span_end(c.origin.y.0, c.size.height.0).units();
            let left = b.origin.x.0.units();
            let top = b.origin.y.0.units();
            let clip_left = c.origin.x.0.units();
            let clip_top = c.origin.y.0.units();
            ||| right <= 0 || bottom <= 0 || clip_right <= 0 || clip_bottom <= 0
            ||| left >= from_whole(width as int).units() || clip_left >= from_whole(
                width as int,
            ).units()
            ||| top >= from_whole(height as int).units() || clip_top >= from_whole(
                height as int,
            ).units()
            ||| right <= clip_left || clip_right <= left
            ||| bottom <= clip_top || clip_bottom <= top
            ||| right <= left || bottom <= top || clip_right <= clip_left || clip_bottom
                <= clip_top
        }),
    ensures
        plan_of(blur, width, height) is None,
{
    if drawable(blur) {
        let b = blur.bounds;
        let c = blur.content_mask.bounds;
        lemma_visible_axis(
            b.origin.x.0,
            b.size.width.0,
            c.origin.x.0,
            c.size.width.0,
            width,
        );
        lemma_visible_axis(
            b.origin.y.0,
            b.size.height.0,
            c.origin.y.0,
            c.size.height.0,
            height,
        );
    }
}

/// A blur with a number that is not finite, a negative extent or corner radius, or an edge that
/// overflows is not drawn.
pub proof fn law_unusable_blur_is_skipped(blur: BackdropBlur, width: u32, height: u32)
    requires
        ({
            let b = blur.bounds;
            let c = blur.content_mask.bounds;
            let r = blur.corner_radii;
            ||| !blur.blur_radius.0.finite()
            ||| !b.origin.x.0.finite() || !b.origin.y.0.finite()
            ||| !c.origin.x.0.finite() || !c.origin.y.0.finite()
            ||| !b.size.width.0.finite() || b.size.width.0.units() < 0
            ||| !b.size.height.0.finite() || b.size.height.0.units() < 0
            ||| !c.size.width.0.finite() || c.size.width.0.units() < 0
            ||| !c.size.height.0.finite() || c.size.height.0.units() < 0
            ||| !r.top_left.0.finite() || r.top_left.0.units() < 0
            ||| !r.top_right.0.finite() || r.top_right.0.units() < 0
            ||| !r.bottom_right.0.finite() || r.bottom_right.0.units() < 0
            ||| !r.bottom_left.0.finite() || r.bottom_left.0.units() < 0
            ||| !span_end(b.origin.x.0, b.size.width.0).finite()
            ||| !span_end(b.origin.y.0, b.size.height.0).finite()
            ||| !span_end(c.origin.x.0, c.size.width.0).finite()
            ||| !span_end(c.origin.y.0, c.size.height.0).finite()
        }),
    ensures
        plan_of(blur, width, height) is None,
{
}

/// What is read along one axis: every tap of every pixel that shows, or up to the window's edge.
proof fn lemma_capture_axis(start: F32, length: F32, sigma: F32, limit: u32)
    requires
        start.finite(),
        0 <= start.units() < from_whole(limit as int).units(),
        length.finite(),
        0 < length.units() <= 0x1_0000_0000 * one_in_units(),
        sigma.finite(),
        one_in_units() <= sigma.units() <= 64 * one_in_units(),
        limit <= 0x100_0000,
    ensures
        ({
            let first = capture_start(start, padding_of(sigma));
            let end = capture_end(start, length, padding_of(sigma), limit);
            let margin = reach_of(sigma) + 1;
            &&& 0 <= first < end <= limit
            &&& first == 0 || (first + margin) * one_in_units() <= start.units()
            &&& end == limit || span_end(start, length).units() + margin * one_in_units() <= end
                * one_in_units()
        }),
{
    let o = one_in_units();
    let reach = reach_of(sigma);
    let pad = padding_of(sigma);
    let nil = zero(false);
    let edge = from_whole(limit as int);
    let w = limit as int;
    let x = start.units();
    lemma_pow2_pos(149);
    lemma_from_whole_exact(w);
    law_kernel_reach(sigma);
    assert(nil.units() == 0);
    let margin = (reach + 2) * o;
    assert(5 * o <= margin <= 194 * o) by (nonlinear_arith)
        requires
            margin == (reach + 2) * o,
            3 <= reach <= 192,
            0 < o,
    ;
    assert(0 <= x < 0x100_0000 * o) by (nonlinear_arith)
        requires
            0 <= x < w * o,
            w <= 0x100_0000,
            0 < o,
    ;
    // The first pixel.
    lemma_negated(pad);
    let d = difference(start, pad);
    let exact = x - margin;
    lemma_rounded_error(exact, exact < 0 || (exact == 0 && start.negative() && !pad.negative()));
    lemma_sum_between(start, negated(pad), start);
    lemma_sum_between(start, negated(pad), negated(pad));
    lemma_whole_rounding(d);
    lemma_whole_below_bounds(d.units());
    let n = whole_below(d.units());
    lemma_whole_below_exact(n);
    lemma_whole_below_exact(0);
    let first = capture_start(start, pad);
    assert(n < 0x100_0000) by (nonlinear_arith)
        requires
            n * o <= d.units(),
            d.units() <= x,
            x < 0x100_0000 * o,
            0 < o,
    ;
    assert(n >= 0 <==> n * o >= 0) by (nonlinear_arith)
        requires
            0 < o,
    ;
    assert(first == if n >= 0 {
        n
    } else {
        0
    });
    if first > 0 {
        assert((n + (reach + 1)) * o <= x) by (nonlinear_arith)
            requires
                n * o <= d.units(),
                2 * (d.units() - (x - (reach + 2) * o)) <= o,
                0 < o,
        ;
    }
    // The last pixel.
    let right = span_end(start, length);
    lemma_sum_between(start, length, start);
    lemma_right_bounded(start, length);
    let c = sum(right, pad);
    let total = right.units() + margin;
    let end = capture_end(start, length, pad, limit);
    lemma_whole_below_exact(w);
    lemma_sum_between(right, pad, edge);
    lemma_sum_between(right, pad, nil);
    if total >= w * o {
        if c.finite() {
            lemma_ceiled_at_least(c, edge);
        } else {
            lemma_magnitude_bounds(c.pattern());
        }
        lemma_rank_order(ceiled(c), edge);
        assert(end == w);
    } else {
        assert(0 <= total <= 0x100_0000 * o) by (nonlinear_arith)
            requires
                total < w * o,
                w <= 0x100_0000,
                0 <= total,
                0 < o,
        ;
        lemma_rounded_error(total, false);
        assert(w * o <= 0x100_0000 * o) by (nonlinear_arith)
            requires
                w <= 0x100_0000,
                0 < o,
        ;
        lemma_whole_rounding(c);
        lemma_whole_above_bounds(c.units());
        let m = whole_above(c.units());
        lemma_whole_below_exact(m);
        assert(0 <= m <= w) by (nonlinear_arith)
            requires
                c.units() <= m * o < c.units() + o,
                0 <= c.units() <= w * o,
                0 < o,
        ;
        assert(m * o <= w * o) by (nonlinear_arith)
            requires
                m <= w,
                0 < o,
        ;
        assert(0 <= m * o) by (nonlinear_arith)
            requires
                0 <= m,
                0 < o,
        ;
        assert(end == m);
        assert(right.units() + (reach + 1) * o <= m * o) by (nonlinear_arith)
            requires
                c.units() <= m * o,
                2 * (right.units() + (reach + 2) * o - c.units()) <= o,
                0 < o,
        ;
    }
    assert(first < end) by (nonlinear_arith)
        requires
            first == 0 || (first + (reach + 1)) * o <= x,
            end == w || x + (reach + 1) * o <= end * o,
            0 <= x < w * o,
            0 <= reach,
            0 < o,
    ;
}

/// The right edge of what shows is finite.
proof fn lemma_right_bounded(start: F32, length: F32)
    requires
        start.finite(),
        0 <= start.units() <= 0x1_0000_0000 * one_in_units(),
        length.finite(),
        0 < length.units() <= 0x1_0000_0000 * one_in_units(),
    ensures
        span_end(start, length).finite(),
        start.units() <= span_end(start, length).units(),
{
    let o = one_in_units();
    lemma_pow2_pos(149);
    let top = lemma_representable(0x20_0000, 161);
    lemma_pow2_adds(149, 12);
    lemma2_to64();
    let ceiling = F32 { bits: top as u32 };
    assert(magnitude(top) == 0x2_0000_0000 * o) by (nonlinear_arith)
        requires
            magnitude(top) == 0x20_0000 * pow2(161),
            pow2(161) == o * 0x1000,
    ;
    lemma_sum_between(start, length, ceiling);
    lemma_sum_between(start, length, start);
    lemma_finite_below(span_end(start, length));
}

/// Rounding up does not fall below a value that it started above.
proof fn lemma_ceiled_at_least(c: F32, edge: F32)
    requires
        c.finite(),
        edge.finite(),
        edge.units() <= c.units(),
        0 < edge.units(),
    ensures
        !ceiled(c).nan(),
        edge.units() <= ceiled(c).units(),
{
    let n = whole_above(c.units()) * one_in_units();
    lemma_whole_above_bounds(c.units());
    lemma_magnitude_bounds(c.pattern());
    lemma_magnitude_bounds(edge.pattern());
    lemma_rounded_exact(edge);
    lemma_rounded_monotone(edge.units(), n, 1, edge.negative(), c.negative());
    lemma_rounded_pattern(n, 1, c.negative());
}

/// Along an axis on which something shows, something is read.
proof fn lemma_capture_not_empty(start: F32, length: F32, sigma: F32, limit: u32)
    requires
        start.finite(),
        0 <= start.units() < from_whole(limit as int).units(),
        length.finite(),
        0 < length.units() <= 0x1_0000_0000 * one_in_units(),
        start.units() < span_end(start, length).units(),
        sigma.finite(),
        one_in_units() <= sigma.units() <= 64 * one_in_units(),
    ensures
        capture_start(start, padding_of(sigma)) < capture_end(
            start,
            length,
            padding_of(sigma),
            limit,
        ),
{
    let o = one_in_units();
    let pad = padding_of(sigma);
    let nil = zero(false);
    let edge = from_whole(limit as int);
    let x = start.units();
    lemma_pow2_pos(149);
    law_kernel_reach(sigma);
    lemma_from_whole_range(limit as int);
    assert(nil.units() == 0);
    lemma_padding_positive(sigma);
    let n = whole_below(x);
    lemma_whole_below_bounds(x);
    lemma_whole_below_exact(0);
    // What is read starts no later than what shows.
    lemma_negated(pad);
    let d = difference(start, pad);
    lemma_sum_between(start, negated(pad), start);
    lemma_sum_between(start, negated(pad), negated(pad));
    lemma_finite_below(d);
    lemma_whole_rounding(d);
    lemma_whole_below_bounds(d.units());
    let first = capture_start(start, pad);
    let f = maximum(floored(d), nil);
    assert(0 <= f.units() <= x);
    lemma_whole_monotone(f.units(), x);
    lemma_start_below_limit(start);
    assert(first <= n);
    // It ends beyond, at the window's edge or before.
    let right = span_end(start, length);
    lemma_right_bounded(start, length);
    let c = sum(right, pad);
    lemma_sum_between(right, pad, right);
    let end = capture_end(start, length, pad, limit);
    lemma_edge_whole(limit);
    let last = whole_below(edge.units());
    lemma_whole_below_exact(last);
    assert(n < last) by (nonlinear_arith)
        requires
            n * o <= x < last * o,
            0 < o,
    ;
    if c.finite() {
        lemma_whole_rounding(c);
        lemma_whole_above_bounds(c.units());
        let m = whole_above(c.units());
        lemma_whole_below_exact(m);
        assert(n < m) by (nonlinear_arith)
            requires
                n * o <= x < m * o,
                0 < o,
        ;
        assert(0 <= m * o) by (nonlinear_arith)
            requires
                0 <= n < m,
                0 < o,
        ;
    } else {
        lemma_magnitude_bounds(c.pattern());
        lemma_magnitude_bounds(edge.pattern());
        lemma_rank_order(c, edge);
    }
}

/// The padding is a few pixels.
proof fn lemma_padding_positive(sigma: F32)
    requires
        sigma.finite(),
        one_in_units() <= sigma.units() <= 64 * one_in_units(),
    ensures
        0 < padding_of(sigma).units() <= 194 * one_in_units(),
{
    let o = one_in_units();
    let reach = reach_of(sigma);
    lemma_pow2_pos(149);
    law_kernel_reach(sigma);
    assert(0 < (reach + 2) * o <= 194 * o) by (nonlinear_arith)
        requires
            3 <= reach <= 192,
            0 < o,
    ;
}

/// Whole parts are ordered as values are.
proof fn lemma_whole_monotone(a: int, b: int)
    requires
        0 <= a <= b,
    ensures
        0 <= whole_below(a) <= whole_below(b),
{
    let o = one_in_units();
    let m = whole_below(a);
    let n = whole_below(b);
    lemma_pow2_pos(149);
    lemma_whole_below_bounds(a);
    lemma_whole_below_bounds(b);
    assert(0 <= m <= n) by (nonlinear_arith)
        requires
            m * o <= a < (m + 1) * o,
            n * o <= b < (n + 1) * o,
            0 <= a <= b,
            0 < o,
    ;
}

/// No value lies between the last whole number of 32 bits and `2^32`.
proof fn lemma_start_below_limit(start: F32)
    requires
        start.finite(),
        0 <= start.units() < 0x1_0000_0000 * one_in_units(),
    ensures
        0 <= whole_below(start.units()) < u32::MAX,
{
    let o = one_in_units();
    let p = start.pattern();
    let n = whole_below(start.units());
    let top = 158int * 0x80_0000 + 0x80_0000;
    lemma_pow2_pos(149);
    lemma_magnitude_bounds(p);
    lemma_magnitude_pack(158, 0x80_0000);
    lemma_pow2_adds(149, 9);
    lemma_pow2_adds(149, 8);
    lemma2_to64();
    assert(magnitude(top) == 0x1_0000_0000 * o) by (nonlinear_arith)
        requires
            magnitude(top) == 0x80_0000 * pow2(158),
            pow2(158) == o * 512,
    ;
    lemma_magnitude_step(top - 1);
    if p >= top {
        if p > top {
            lemma_magnitude_increases(top, p);
        }
    } else if p < top - 1 {
        lemma_magnitude_increases(p, top - 1);
    }
    lemma_whole_below_bounds(start.units());
    assert(0 <= n < 0xffff_ffff) by (nonlinear_arith)
        requires
            n * o <= start.units() < (n + 1) * o,
            0 <= start.units() <= 0x1_0000_0000 * o - 256 * o,
            0 < o,
    ;
}

/// The edge of a window is whole.
pub proof fn lemma_edge_whole(limit: u32)
    ensures
        whole_below(from_whole(limit as int).units()) * one_in_units() == from_whole(
            limit as int,
        ).units(),
{
    let o = one_in_units();
    let n = limit as int;
    lemma_pow2_pos(149);
    if n <= 0x100_0000 {
        lemma_from_whole_exact(n);
        lemma_whole_below_exact(n);
    } else {
        lemma_from_whole_range(n);
        lemma_from_whole_exact(0x100_0000);
        assert(0 < 0x100_0000 * o <= n * o) by (nonlinear_arith)
            requires
                0x100_0000 <= n,
                0 < o,
        ;
        lemma_rounded_monotone(0x100_0000 * o, n * o, 1, false, false);
        lemma_large_value(from_whole(n));
    }
}

/// A usable blur of which something shows is drawn, and no other is.
pub proof fn law_visible_blur_is_drawn(blur: BackdropBlur, width: u32, height: u32)
    ensures
        plan_of(blur, width, height) is Some <==> {
            &&& drawable(blur)
            &&& visible_of(blur, width, height).size.width.0.units() > 0
            &&& visible_of(blur, width, height).size.height.0.units() > 0
        },
{
    if drawable(blur) {
        let b = blur.bounds;
        let c = blur.content_mask.bounds;
        let visible = visible_of(blur, width, height);
        let sigma = sigma_of(blur.blur_radius.0);
        law_sigma_range(blur.blur_radius.0);
        lemma_visible_axis(b.origin.x.0, b.size.width.0, c.origin.x.0, c.size.width.0, width);
        lemma_visible_axis(b.origin.y.0, b.size.height.0, c.origin.y.0, c.size.height.0, height);
        if visible.size.width.0.units() > 0 && visible.size.height.0.units() > 0 {
            lemma_capture_not_empty(visible.origin.x.0, visible.size.width.0, sigma, width);
            lemma_capture_not_empty(visible.origin.y.0, visible.size.height.0, sigma, height);
        }
    }
}

/// The pixels that are read hold every tap of every pixel that shows: on each side they reach
/// one pixel farther than the kernel does, or to the edge of the window, and never past it.
pub proof fn law_capture_covers_kernel(blur: BackdropBlur, width: u32, height: u32)
    requires
        plan_of(blur, width, height) is Some,
        width <= 0x100_0000,
        height <= 0x100_0000,
    ensures
        ({
            let plan = plan_of(blur, width, height)->0;
            let visible = visible_of(blur, width, height);
            let left = visible.origin.x.0;
            let top = visible.origin.y.0;
            let right = span_end(left, visible.size.width.0);
            let bottom = span_end(top, visible.size.height.0);
            let margin = reach_of(plan.sigma) + 1;
            let one = one_in_units();
            &&& plan.left < plan.right <= width
            &&& plan.top < plan.bottom <= height
            &&& plan.left == 0 || (plan.left + margin) * one <= left.units()
            &&& plan.top == 0 || (plan.top + margin) * one <= top.units()
            &&& plan.right == width || right.units() + margin * one <= plan.right * one
            &&& plan.bottom == height || bottom.units() + margin * one <= plan.bottom * one
        }),
{
    lemma_visible(blur, width, height);
}

/// What shows of a planned blur is finite and begins inside the window.
pub proof fn lemma_visible_in_window(blur: BackdropBlur, width: u32, height: u32)
    requires
        plan_of(blur, width, height) is Some,
    ensures
        ({
            let visible = visible_of(blur, width, height);
            &&& visible.origin.x.0.finite()
            &&& visible.origin.y.0.finite()
            &&& span_end(visible.origin.x.0, visible.size.width.0).finite()
            &&& span_end(visible.origin.y.0, visible.size.height.0).finite()
            &&& 0 < from_whole(width as int).units()
            &&& 0 < from_whole(height as int).units()
        }),
{
    let b = blur.bounds;
    let c = blur.content_mask.bounds;
    let visible = visible_of(blur, width, height);
    lemma_visible_axis(b.origin.x.0, b.size.width.0, c.origin.x.0, c.size.width.0, width);
    lemma_visible_axis(b.origin.y.0, b.size.height.0, c.origin.y.0, c.size.height.0, height);
    lemma_from_whole_range(width as int);
    lemma_from_whole_range(height as int);
    lemma_right_bounded(visible.origin.x.0, visible.size.width.0);
    lemma_right_bounded(visible.origin.y.0, visible.size.height.0);
}

/// What shows of a usable blur, and what is read for it, along both axes.
proof fn lemma_visible(blur: BackdropBlur, width: u32, height: u32)
    requires
        drawable(blur),
        width <= 0x100_0000,
        height <= 0x100_0000,
    ensures
        ({
            let visible = visible_of(blur, width, height);
            let x = visible.origin.x.0;
            let y = visible.origin.y.0;
            let w = visible.size.width.0;
            let h = visible.size.height.0;
            let sigma = sigma_of(blur.blur_radius.0);
            let pad = padding_of(sigma);
            let margin = reach_of(sigma) + 1;
            let one = one_in_units();
            &&& w.finite()
            &&& h.finite()
            &&& w.units() > 0 ==> {
                let first = capture_start(x, pad);
                let end = capture_end(x, w, pad, width);
                &&& 0 <= first < end <= width
                &&& first == 0 || (first + margin) * one <= x.units()
                &&& end == width || span_end(x, w).units() + margin * one <= end * one
            }
            &&& h.units() > 0 ==> {
                let first = capture_start(y, pad);
                let end = capture_end(y, h, pad, height);
                &&& 0 <= first < end <= height
                &&& first == 0 || (first + margin) * one <= y.units()
                &&& end == height || span_end(y, h).units() + margin * one <= end * one
            }
        }),
{
    let b = blur.bounds;
    let c = blur.content_mask.bounds;
    let visible = visible_of(blur, width, height);
    let sigma = sigma_of(blur.blur_radius.0);
    law_sigma_range(blur.blur_radius.0);
    lemma_visible_axis(b.origin.x.0, b.size.width.0, c.origin.x.0, c.size.width.0, width);
    lemma_visible_axis(b.origin.y.0, b.size.height.0, c.origin.y.0, c.size.height.0, height);
    if visible.size.width.0.units() > 0 {
        lemma_capture_axis(visible.origin.x.0, visible.size.width.0, sigma, width);
    }
    if visible.size.height.0.units() > 0 {
        lemma_capture_axis(visible.origin.y.0, visible.size.height.0, sigma, height);
    }
}

} // verus!
