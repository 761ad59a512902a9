//! Where a blur lies, what of it shows, and which pixels that takes.
use crate::arith::{difference, negated, sum, zero};
use crate::gaussian::{law_radius_is_sigma, law_reach_is_three_sigma, law_step_of_any_sigma};
use crate::geometry::{
    drawable, earlier, intersection, later, overlap_length, overlap_start, span_end, BackdropBlur,
    Bounds, ContentMask, Corners, Point, Size,
};
use crate::integral::{ceiled, floored, from_whole, to_whole, whole_above, whole_below};
use crate::kernel::{law_kernel_reach, law_sigma_range, padding_of, reach_of, sigma_of};
use crate::magnitude::{lemma_magnitude_bounds, one_in_units};
use crate::numerics::{
    closest, law_difference, law_floor_and_ceil, law_from_whole, law_max_and_min, law_sum,
    law_to_whole, overflow,
};
use crate::plan::{
    capture_end, capture_start, law_visible_blur_is_drawn, lemma_edge_whole,
    lemma_visible_in_window, plan_of, visible_of, window_of, BlurPlan,
};
use crate::precision::{
    lemma_finite_below, lemma_from_whole_exact, lemma_from_whole_range, lemma_negated,
    lemma_signed_whole_exact, lemma_whole_above_bounds, lemma_whole_below_bounds,
    lemma_whole_below_exact, lemma_whole_rounding,
};
use crate::single::{lemma_rank_order, maximum, minimum, F32};
use crate::uploads::stands_for;
use vstd::arithmetic::power2::lemma_pow2_pos;
use vstd::math::abs;
use vstd::prelude::*;

verus! {

/// `value` is a finite number that is not below zero.
pub open spec fn length_of(value: F32) -> bool {
    value.finite() && 0 <= value.units()
}

/// The far edge of a span is the closest number to its start plus its length.
pub proof fn law_far_edge(start: F32, length: F32)
    requires
        start.finite(),
        length.finite(),
    ensures
        ({
            let exact = start.units() + length.units();
            let edge = span_end(start, length);
            &&& !edge.nan()
            &&& edge.finite() <==> abs(exact) < overflow()
            &&& edge.finite() ==> closest(edge, exact, 1)
        }),
{
    law_sum(start, length);
}

/// A blur is usable just where its radius is finite, its rectangle and its clip are finite up to
/// their far edges and of no negative extent, and none of its corner radii is negative or not
/// finite. Nothing else matters.
pub proof fn law_usable_blur(blur: BackdropBlur)
    ensures
        drawable(blur) <==> {
            let b = blur.bounds;
            let c = blur.content_mask.bounds;
            &&& blur.blur_radius.0.finite()
            &&& b.origin.x.0.finite() && b.origin.y.0.finite()
            &&& c.origin.x.0.finite() && c.origin.y.0.finite()
            &&& length_of(b.size.width.0) && length_of(b.size.height.0)
            &&& length_of(c.size.width.0) && length_of(c.size.height.0)
            &&& length_of(blur.corner_radii.top_left.0)
            &&& length_of(blur.corner_radii.top_right.0)
            &&& length_of(blur.corner_radii.bottom_right.0)
            &&& length_of(blur.corner_radii.bottom_left.0)
            &&& abs(b.origin.x.0.units() + b.size.width.0.units()) < overflow()
            &&& abs(b.origin.y.0.units() + b.size.height.0.units()) < overflow()
            &&& abs(c.origin.x.0.units() + c.size.width.0.units()) < overflow()
            &&& abs(c.origin.y.0.units() + c.size.height.0.units()) < overflow()
        },
{
    let b = blur.bounds;
    let c = blur.content_mask.bounds;
    law_sum(b.origin.x.0, b.size.width.0);
    law_sum(b.origin.y.0, b.size.height.0);
    law_sum(c.origin.x.0, c.size.width.0);
    law_sum(c.origin.y.0, c.size.height.0);
}

/// A span is what two others share: it starts at the later start, and its length is the closest
/// number to what lies between that and the earlier end; nothing where that is not beyond it.
pub open spec fn shared_span(
    start: F32,
    length: F32,
    start1: F32,
    end1: F32,
    start2: F32,
    end2: F32,
) -> bool {
    let end = if end1.units() <= end2.units() {
        end1
    } else {
        end2
    };
    let exact = end.units() - start.units();
    &&& start == start1 || start == start2
    &&& start.units() >= start1.units()
    &&& start.units() >= start2.units()
    &&& !length.nan()
    &&& exact <= 0 ==> length.finite() && length.units() == 0
    &&& exact > 0 && end.finite() ==> {
        &&& length.finite() <==> exact < overflow()
        &&& length.finite() ==> closest(length, exact, 1)
        &&& 0 < length.units()
    }
    &&& exact > 0 && !end.finite() ==> length.infinite() && 0 < length.units()
}

/// The intersection of two rectangles is what they share on both axes.
pub proof fn law_intersection_is_shared(a: Bounds, b: Bounds)
    requires
        a.origin.x.0.finite(),
        a.origin.y.0.finite(),
        b.origin.x.0.finite(),
        b.origin.y.0.finite(),
        !sum(a.origin.x.0, a.size.width.0).nan(),
        !sum(a.origin.y.0, a.size.height.0).nan(),
        !sum(b.origin.x.0, b.size.width.0).nan(),
        !sum(b.origin.y.0, b.size.height.0).nan(),
    ensures
        shared_span(
            intersection(a, b).origin.x.0,
            intersection(a, b).size.width.0,
            a.origin.x.0,
            sum(a.origin.x.0, a.size.width.0),
            b.origin.x.0,
            sum(b.origin.x.0, b.size.width.0),
        ),
        shared_span(
            intersection(a, b).origin.y.0,
            intersection(a, b).size.height.0,
            a.origin.y.0,
            sum(a.origin.y.0, a.size.height.0),
            b.origin.y.0,
            sum(b.origin.y.0, b.size.height.0),
        ),
{
    lemma_shared(a.origin.x.0, a.size.width.0, b.origin.x.0, b.size.width.0);
    lemma_shared(a.origin.y.0, a.size.height.0, b.origin.y.0, b.size.height.0);
}

proof fn lemma_shared(start1: F32, length1: F32, start2: F32, length2: F32)
    requires
        start1.finite(),
        start2.finite(),
        !sum(start1, length1).nan(),
        !sum(start2, length2).nan(),
    ensures
        shared_span(
            overlap_start(start1, start2),
            overlap_length(start1, length1, start2, length2),
            start1,
            sum(start1, length1),
            start2,
            sum(start2, length2),
        ),
{
    let start = overlap_start(start1, start2);
    let end1 = sum(start1, length1);
    let end2 = sum(start2, length2);
    let end = earlier(end1, end2);
    let last = later(end, start);
    let length = difference(last, start);
    lemma_pow2_pos(149);
    lemma_pow2_pos(252);
    assert(0 < overflow());
    lemma_magnitude_bounds(start.pattern());
    lemma_magnitude_bounds(end.pattern());
    lemma_magnitude_bounds(last.pattern());
    law_difference(last, start);
    lemma_magnitude_bounds(length.pattern());
    if last.finite() && last.units() == start.units() {
        assert(closest(length, 0, 1));
        let nil = zero(false);
        lemma_magnitude_bounds(0);
        assert(nil.units() == 0 && nil.finite());
        assert(abs(1 * nil.units() - 0) == 0);
    }
    if last.finite() && last.units() > start.units() && length.finite() {
        lemma_positive_length(start, last);
    }
    if !last.finite() {
        assert(last == end);
    }
}

/// A difference of different values is not zero.
proof fn lemma_positive_length(start: F32, stop: F32)
    requires
        start.finite(),
        stop.finite(),
        start.units() < stop.units(),
        difference(stop, start).finite(),
    ensures
        0 < difference(stop, start).units(),
{
    let exact = stop.units() - start.units();
    law_difference(stop, start);
    let length = difference(stop, start);
    // The smallest value of all is no farther from the difference than zero is.
    let least = F32 { bits: 1 };
    lemma_magnitude_bounds(1);
    assert(least.units() == 1);
    lemma_magnitude_bounds(length.pattern());
    assert(abs(1 * least.units() - exact) < abs(1 * 0 - exact));
}

/// The window starts at the origin and is as large as its pixels are many.
pub proof fn law_window_is_its_pixels(width: u32, height: u32)
    ensures
        ({
            let window = window_of(width, height);
            &&& window.origin.x.0.bits == 0
            &&& window.origin.y.0.bits == 0
            &&& stands_for(window.size.width.0, width as int)
            &&& stands_for(window.size.height.0, height as int)
        }),
{
    law_from_whole(width as int);
    law_from_whole(height as int);
}

/// What shows of a usable blur is what its rectangle shares with its clip, and that with the
/// window.
pub proof fn law_visible_is_shared_by_all(blur: BackdropBlur, width: u32, height: u32)
    requires
        drawable(blur),
    ensures
        ({
            let b = blur.bounds;
            let c = blur.content_mask.bounds;
            let clipped = intersection(b, c);
            let window = window_of(width, height);
            let visible = visible_of(blur, width, height);
            &&& shared_span(
                clipped.origin.x.0,
                clipped.size.width.0,
                b.origin.x.0,
                sum(b.origin.x.0, b.size.width.0),
                c.origin.x.0,
                sum(c.origin.x.0, c.size.width.0),
            )
            &&& shared_span(
                clipped.origin.y.0,
                clipped.size.height.0,
                b.origin.y.0,
                sum(b.origin.y.0, b.size.height.0),
                c.origin.y.0,
                sum(c.origin.y.0, c.size.height.0),
            )
            &&& shared_span(
                visible.origin.x.0,
                visible.size.width.0,
                clipped.origin.x.0,
                sum(clipped.origin.x.0, clipped.size.width.0),
                window.origin.x.0,
                sum(window.origin.x.0, window.size.width.0),
            )
            &&& shared_span(
                visible.origin.y.0,
                visible.size.height.0,
                clipped.origin.y.0,
                sum(clipped.origin.y.0, clipped.size.height.0),
                window.origin.y.0,
                sum(window.origin.y.0, window.size.height.0),
            )
        }),
{
    let clipped = intersection(blur.bounds, blur.content_mask.bounds);
    let window = window_of(width, height);
    law_intersection_is_shared(blur.bounds, blur.content_mask.bounds);
    law_window_is_its_pixels(width, height);
    law_sum(clipped.origin.x.0, clipped.size.width.0);
    law_sum(clipped.size.width.0, clipped.origin.x.0);
    law_sum(clipped.origin.y.0, clipped.size.height.0);
    law_sum(clipped.size.height.0, clipped.origin.y.0);
    law_sum(window.origin.x.0, window.size.width.0);
    law_sum(window.origin.y.0, window.size.height.0);
    law_intersection_is_shared(clipped, window);
}

/// `pixel` is the first one of those that lie at or after `from`, none before the window's.
pub open spec fn starts_at(pixel: int, from: F32) -> bool {
    &&& !from.nan()
    &&& from.units() <= 0 ==> pixel == 0
    &&& 0 <= from.units() < 0x1_0000_0000 * one_in_units() ==> pixel * one_in_units()
        <= from.units() < (pixel + 1) * one_in_units()
}

/// `pixel` is the one after the last of those that lie before `to`, none after the window's.
pub open spec fn ends_at(pixel: int, to: F32, limit: u32) -> bool {
    let edge = from_whole(limit as int).units();
    &&& !to.nan()
    &&& 0 < to.units() <= edge && to.units() <= 0xffff_ffff * one_in_units() ==> (pixel - 1)
        * one_in_units() < to.units() <= pixel * one_in_units()
    &&& to.units() >= edge && limit <= 0x100_0000 ==> pixel == limit
    &&& to.units() >= edge && edge < 0x1_0000_0000 * one_in_units() ==> pixel * one_in_units()
        == edge
    &&& to.units() >= edge && edge >= 0xffff_ffff * one_in_units() ==> pixel == 0xffff_ffff
}

/// A plan has the standard deviation of the blur radius and its step. It reads the pixels from
/// the padding before what shows to the padding after it, whole pixels on both sides, as far as
/// the window goes.
pub proof fn law_plan_reads_what_shows_and_its_padding(blur: BackdropBlur, width: u32, height: u32)
    requires
        plan_of(blur, width, height) is Some,
    ensures
        ({
            let plan = plan_of(blur, width, height)->0;
            let visible = visible_of(blur, width, height);
            let x = visible.origin.x.0;
            let y = visible.origin.y.0;
            let w = visible.size.width.0;
            let h = visible.size.height.0;
            let radius = blur.blur_radius.0;
            let pad = padding_of(plan.sigma);
            let o = one_in_units();
            &&& radius.finite()
            &&& radius.units() < o ==> plan.sigma.bits == 0x3f80_0000
            &&& o <= radius.units() <= 64 * o ==> plan.sigma == radius
            &&& radius.units() > 64 * o ==> plan.sigma.bits == 0x4280_0000
            &&& plan.downsample == if radius.units() < 16 * o {
                1int
            } else if radius.units() < 24 * o {
                2int
            } else if radius.units() < 32 * o {
                3int
            } else {
                4int
            }
            &&& pad.units() == (reach_of(plan.sigma) + 2) * o
            &&& starts_at(plan.left as int, difference(x, pad))
            &&& starts_at(plan.top as int, difference(y, pad))
            &&& ends_at(plan.right as int, sum(sum(x, w), pad), width)
            &&& ends_at(plan.bottom as int, sum(sum(y, h), pad), height)
        }),
{
    let radius = blur.blur_radius.0;
    let sigma = sigma_of(radius);
    let visible = visible_of(blur, width, height);
    let pad = padding_of(sigma);
    let o = one_in_units();
    lemma_pow2_pos(149);
    law_radius_is_sigma(radius);
    law_sigma_range(radius);
    law_reach_is_three_sigma(sigma);
    law_step_of_any_sigma(sigma);
    law_kernel_reach(sigma);
    law_from_whole(1);
    law_from_whole(64);
    lemma_visible_in_window(blur, width, height);
    lemma_starts(visible.origin.x.0, pad);
    lemma_starts(visible.origin.y.0, pad);
    lemma_ends(visible.origin.x.0, visible.size.width.0, pad, width);
    lemma_ends(visible.origin.y.0, visible.size.height.0, pad, height);
}

proof fn lemma_starts(x: F32, pad: F32)
    requires
        x.finite(),
        pad.finite(),
    ensures
        starts_at(capture_start(x, pad), difference(x, pad)),
{
    let o = one_in_units();
    let d = difference(x, pad);
    let nil = zero(false);
    let low = floored(d);
    let first = maximum(low, nil);
    lemma_pow2_pos(149);
    lemma_magnitude_bounds(0);
    assert(nil.units() == 0);
    law_difference(x, pad);
    law_floor_and_ceil(d);
    law_max_and_min(low, nil);
    law_to_whole(first);
    if d.finite() && d.units() >= 0 {
        lemma_whole_rounding(d);
        let n = whole_below(d.units());
        lemma_whole_below_bounds(d.units());
        lemma_whole_below_exact(n);
        assert(0 <= n) by (nonlinear_arith)
            requires
                0 <= d.units() < (n + 1) * o,
                0 < o,
        ;
        assert(0 <= n * o) by (nonlinear_arith)
            requires
                0 <= n,
                0 < o,
        ;
        if d.units() < 0x1_0000_0000 * o {
            assert(n <= 0xffff_ffff) by (nonlinear_arith)
                requires
                    n * o <= d.units() < 0x1_0000_0000 * o,
                    0 < o,
            ;
        }
        if d.units() == 0 {
            assert(n == 0) by (nonlinear_arith)
                requires
                    n * o <= 0,
                    0 <= n,
                    0 < o,
            ;
        }
    } else if d.finite() {
        assert(low.units() <= d.units());
    } else {
        lemma_magnitude_bounds(d.pattern());
        if d.units() > 0 {
            if d.units() < 0x1_0000_0000 * o {
                lemma_finite_below(d);
            }
        }
    }
}

proof fn lemma_ends(x: F32, w: F32, pad: F32, limit: u32)
    requires
        sum(x, w).finite(),
        pad.finite(),
        0 < from_whole(limit as int).units(),
    ensures
        ends_at(capture_end(x, w, pad, limit), sum(sum(x, w), pad), limit),
{
    let o = one_in_units();
    let c = sum(sum(x, w), pad);
    let edge = from_whole(limit as int);
    let up = ceiled(c);
    let last = minimum(up, edge);
    lemma_pow2_pos(149);
    law_sum(sum(x, w), pad);
    law_from_whole(limit as int);
    law_floor_and_ceil(c);
    law_max_and_min(up, edge);
    law_to_whole(last);
    lemma_edge_whole(limit);
    lemma_from_whole_range(limit as int);
    let n = whole_below(edge.units());
    lemma_whole_below_exact(n);
    if limit <= 0x100_0000 {
        lemma_whole_below_exact(limit as int);
    }
    if c.finite() {
        lemma_whole_rounding(c);
        lemma_whole_above_bounds(c.units());
        let m = whole_above(c.units());
        lemma_whole_below_exact(m);
        assert((m - 1) * o == m * o - o) by (nonlinear_arith);
        if c.units() >= edge.units() {
            assert(last.units() == edge.units());
            lemma_at_edge(last, edge, limit, n);
        } else if 0 < c.units() {
            // The least whole number not below is not beyond the edge, which is whole.
            assert(m <= n) by (nonlinear_arith)
                requires
                    m * o - o < c.units(),
                    c.units() < n * o,
                    0 < o,
            ;
            assert(m * o <= n * o) by (nonlinear_arith)
                requires
                    m <= n,
                    0 < o,
            ;
            assert(last.units() == m * o);
            if c.units() <= 0xffff_ffff * o {
                assert(0 < m <= 0xffff_ffff) by (nonlinear_arith)
                    requires
                        m * o - o < c.units() <= m * o,
                        0 < c.units() <= 0xffff_ffff * o,
                        0 < o,
                ;
            }
        }
        if c.units() == edge.units() && c.units() <= 0xffff_ffff * o {
            assert((n - 1) * o == n * o - o) by (nonlinear_arith);
            assert(n <= 0xffff_ffff) by (nonlinear_arith)
                requires
                    n * o <= 0xffff_ffff * o,
                    0 < o,
            ;
            assert(0 <= n) by (nonlinear_arith)
                requires
                    0 < n * o,
                    0 < o,
            ;
        }
    } else {
        lemma_magnitude_bounds(c.pattern());
        lemma_magnitude_bounds(edge.pattern());
        lemma_rank_order(c, edge);
        if c.units() > 0 {
            assert(last.units() == edge.units());
            lemma_at_edge(last, edge, limit, n);
        }
    }
}

/// What ends at the window's edge ends with its last pixel.
proof fn lemma_at_edge(last: F32, edge: F32, limit: u32, n: int)
    requires
        !last.nan(),
        edge == from_whole(limit as int),
        last.units() == edge.units(),
        n * one_in_units() == edge.units(),
        0 < edge.units() <= 0x1_0000_0000 * one_in_units(),
    ensures
        limit <= 0x100_0000 ==> to_whole(last) == limit,
        edge.units() < 0x1_0000_0000 * one_in_units() ==> to_whole(last) == n,
        edge.units() >= 0xffff_ffff * one_in_units() ==> to_whole(last) == 0xffff_ffff,
{
    let o = one_in_units();
    lemma_pow2_pos(149);
    lemma_whole_below_exact(n);
    law_to_whole(last);
    assert(edge.units() < 0x1_0000_0000 * o ==> n <= 0xffff_ffff) by (nonlinear_arith)
        requires
            n * o == edge.units(),
            0 < o,
    ;
    assert(0 <= n) by (nonlinear_arith)
        requires
            n * o == edge.units(),
            0 < edge.units(),
            0 < o,
    ;
    if limit <= 0x100_0000 {
        lemma_from_whole_exact(limit as int);
        lemma_whole_below_exact(limit as int);
    }
}

/// The same blur with its axes exchanged.
pub open spec fn transposed(blur: BackdropBlur) -> BackdropBlur {
    BackdropBlur {
        bounds: turned(blur.bounds),
        content_mask: ContentMask { bounds: turned(blur.content_mask.bounds) },
        corner_radii: Corners {
            top_right: blur.corner_radii.bottom_left,
            bottom_left: blur.corner_radii.top_right,
            ..blur.corner_radii
        },
        ..blur
    }
}

/// A rectangle with its axes exchanged.
pub open spec fn turned(bounds: Bounds) -> Bounds {
    Bounds {
        origin: Point { x: bounds.origin.y, y: bounds.origin.x },
        size: Size { width: bounds.size.height, height: bounds.size.width },
    }
}

/// Both axes are treated alike: a blur and a window with their axes exchanged have the same plan,
/// exchanged.
pub proof fn law_axes_are_alike(blur: BackdropBlur, width: u32, height: u32)
    ensures
        plan_of(transposed(blur), height, width) == match plan_of(blur, width, height) {
            Some(plan) => Some(
                BlurPlan {
                    left: plan.top,
                    top: plan.left,
                    right: plan.bottom,
                    bottom: plan.right,
                    ..plan
                },
            ),
            None => None,
        },
{
}

/// Neither the order of a blur nor its corner radii, as long as they are usable, change what is
/// planned.
pub proof fn law_plan_ignores_order_and_corners(
    blur: BackdropBlur,
    order: u32,
    corners: Corners,
    width: u32,
    height: u32,
)
    requires
        length_of(blur.corner_radii.top_left.0),
        length_of(blur.corner_radii.top_right.0),
        length_of(blur.corner_radii.bottom_right.0),
        length_of(blur.corner_radii.bottom_left.0),
        length_of(corners.top_left.0),
        length_of(corners.top_right.0),
        length_of(corners.bottom_right.0),
        length_of(corners.bottom_left.0),
    ensures
        plan_of(BackdropBlur { order, corner_radii: corners, ..blur }, width, height) == plan_of(
            blur,
            width,
            height,
        ),
{
}

/// A number that is exactly the whole number `n`.
pub open spec fn exactly(value: F32, n: int) -> bool {
    value.finite() && value.units() == n * one_in_units()
}

/// A rectangle of whole pixels.
pub open spec fn pixels_of(bounds: Bounds, left: int, top: int, width: int, height: int) -> bool {
    &&& exactly(bounds.origin.x.0, left)
    &&& exactly(bounds.origin.y.0, top)
    &&& exactly(bounds.size.width.0, width)
    &&& exactly(bounds.size.height.0, height)
}

/// The larger of two numbers.
pub open spec fn most(a: int, b: int) -> int {
    if a >= b {
        a
    } else {
        b
    }
}

/// The smaller of two numbers.
pub open spec fn least(a: int, b: int) -> int {
    if a <= b {
        a
    } else {
        b
    }
}

proof fn lemma_exact_sum(a: F32, b: F32, m: int, n: int)
    requires
        exactly(a, m),
        exactly(b, n),
        -0x100_0000 <= m + n <= 0x100_0000,
    ensures
        exactly(sum(a, b), m + n),
{
    let o = one_in_units();
    lemma_pow2_pos(149);
    assert(m * o + n * o == (m + n) * o) by (nonlinear_arith);
    let exact = (m + n) * o;
    assert((exact < 0 <==> m + n < 0) && (exact == 0 <==> m + n == 0)) by (nonlinear_arith)
        requires
            exact == (m + n) * o,
            0 < o,
    ;
    lemma_signed_whole_exact(
        m + n,
        exact < 0 || (exact == 0 && a.negative() && b.negative()),
    );
}

proof fn lemma_exact_difference(a: F32, b: F32, m: int, n: int)
    requires
        exactly(a, m),
        exactly(b, n),
        -0x100_0000 <= m - n <= 0x100_0000,
    ensures
        exactly(difference(a, b), m - n),
{
    let o = one_in_units();
    lemma_negated(b);
    assert((-n) * o == -(n * o)) by (nonlinear_arith);
    lemma_exact_sum(a, negated(b), m, -n);
}

/// Whole numbers compare as their values do.
proof fn lemma_exact_order(a: F32, b: F32, m: int, n: int)
    requires
        exactly(a, m),
        exactly(b, n),
    ensures
        a.units() <= b.units() <==> m <= n,
        exactly(later(a, b), most(m, n)),
        exactly(earlier(a, b), least(m, n)),
        exactly(maximum(a, b), most(m, n)),
        exactly(minimum(a, b), least(m, n)),
{
    let o = one_in_units();
    lemma_pow2_pos(149);
    assert(m * o <= n * o <==> m <= n) by (nonlinear_arith)
        requires
            0 < o,
    ;
    assert(m * o < n * o <==> m < n) by (nonlinear_arith)
        requires
            0 < o,
    ;
}

/// Whole pixels along one axis: what two spans share.
proof fn lemma_exact_overlap(
    s1: F32,
    l1: F32,
    s2: F32,
    l2: F32,
    a: int,
    w: int,
    b: int,
    v: int,
)
    requires
        exactly(s1, a),
        exactly(l1, w),
        exactly(s2, b),
        exactly(l2, v),
        -0x40_0000 <= a <= 0x40_0000,
        -0x40_0000 <= b <= 0x40_0000,
        0 <= w <= 0x80_0000,
        0 <= v <= 0x80_0000,
    ensures
        ({
            let start = most(a, b);
            let end = most(least(a + w, b + v), start);
            &&& exactly(overlap_start(s1, s2), start)
            &&& exactly(overlap_length(s1, l1, s2, l2), end - start)
        }),
{
    let start = overlap_start(s1, s2);
    let end1 = sum(s1, l1);
    let end2 = sum(s2, l2);
    lemma_exact_order(s1, s2, a, b);
    lemma_exact_sum(s1, l1, a, w);
    lemma_exact_sum(s2, l2, b, v);
    lemma_exact_order(end1, end2, a + w, b + v);
    let end = earlier(end1, end2);
    lemma_exact_order(end, start, least(a + w, b + v), most(a, b));
    lemma_exact_difference(
        later(end, start),
        start,
        most(least(a + w, b + v), most(a, b)),
        most(a, b),
    );
}

/// Whole pixels along one axis: what is read.
proof fn lemma_exact_capture(x: F32, w: F32, pad: F32, a: int, n: int, p: int, limit: u32)
    requires
        exactly(x, a),
        exactly(w, n),
        exactly(pad, p),
        0 <= a <= 0x40_0000,
        0 <= n <= 0x80_0000,
        0 <= p <= 194,
        limit <= 0x40_0000,
    ensures
        capture_start(x, pad) == most(a - p, 0),
        capture_end(x, w, pad, limit) == least(a + n + p, limit as int),
{
    let o = one_in_units();
    let nil = zero(false);
    let edge = from_whole(limit as int);
    lemma_pow2_pos(149);
    lemma_magnitude_bounds(0);
    assert(0 * o == 0);
    assert(exactly(nil, 0));
    lemma_from_whole_exact(limit as int);
    lemma_exact_difference(x, pad, a, p);
    let d = difference(x, pad);
    lemma_whole_rounding(d);
    lemma_whole_below_exact(a - p);
    assert(exactly(floored(d), a - p));
    lemma_exact_order(floored(d), nil, a - p, 0);
    lemma_exact_to_whole(maximum(floored(d), nil), most(a - p, 0));
    lemma_exact_sum(x, w, a, n);
    lemma_exact_sum(sum(x, w), pad, a + n, p);
    let c = sum(sum(x, w), pad);
    lemma_whole_rounding(c);
    lemma_exact_above(a + n + p);
    assert(exactly(ceiled(c), a + n + p));
    lemma_exact_order(ceiled(c), edge, a + n + p, limit as int);
    lemma_exact_to_whole(minimum(ceiled(c), edge), least(a + n + p, limit as int));
}

proof fn lemma_exact_to_whole(value: F32, n: int)
    requires
        exactly(value, n),
        0 <= n <= 0x100_0000,
    ensures
        to_whole(value) == n,
{
    let o = one_in_units();
    lemma_pow2_pos(149);
    lemma_whole_below_exact(n);
    assert(0 <= n * o) by (nonlinear_arith)
        requires
            0 <= n,
            0 < o,
    ;
}

proof fn lemma_exact_above(n: int)
    ensures
        whole_above(n * one_in_units()) == n,
{
    let o = one_in_units();
    lemma_whole_below_exact(-n);
    assert((-n) * o == -(n * o)) by (nonlinear_arith);
}

/// A blur, a clip and a window of whole pixels, of up to `2^22` each: the blur is drawn just where
/// all three have pixels in common, and then it reads those and as many more on every side as the
/// kernel reaches and two, as far as the window goes.
pub proof fn law_whole_pixels_are_exact(
    blur: BackdropBlur,
    x: int,
    y: int,
    w: int,
    h: int,
    cx: int,
    cy: int,
    cw: int,
    ch: int,
    width: u32,
    height: u32,
)
    requires
        pixels_of(blur.bounds, x, y, w, h),
        pixels_of(blur.content_mask.bounds, cx, cy, cw, ch),
        blur.blur_radius.0.finite(),
        length_of(blur.corner_radii.top_left.0),
        length_of(blur.corner_radii.top_right.0),
        length_of(blur.corner_radii.bottom_right.0),
        length_of(blur.corner_radii.bottom_left.0),
        -0x40_0000 <= x <= 0x40_0000,
        -0x40_0000 <= y <= 0x40_0000,
        0 <= w <= 0x40_0000,
        0 <= h <= 0x40_0000,
        -0x40_0000 <= cx <= 0x40_0000,
        -0x40_0000 <= cy <= 0x40_0000,
        0 <= cw <= 0x40_0000,
        0 <= ch <= 0x40_0000,
        width <= 0x40_0000,
        height <= 0x40_0000,
    ensures
        ({
            let left = most(most(x, cx), 0);
            let top = most(most(y, cy), 0);
            let right = least(least(x + w, cx + cw), width as int);
            let bottom = least(least(y + h, cy + ch), height as int);
            let plan = plan_of(blur, width, height);
            let margin = reach_of(sigma_of(blur.blur_radius.0)) + 2;
            &&& plan is Some <==> left < right && top < bottom
            &&& plan is Some ==> {
                &&& plan->0.left == most(left - margin, 0)
                &&& plan->0.top == most(top - margin, 0)
                &&& plan->0.right == least(right + margin, width as int)
                &&& plan->0.bottom == least(bottom + margin, height as int)
            }
        }),
{
    let o = one_in_units();
    let b = blur.bounds;
    let c = blur.content_mask.bounds;
    let clipped = intersection(b, c);
    let visible = visible_of(blur, width, height);
    let sigma = sigma_of(blur.blur_radius.0);
    let nil = zero(false);
    lemma_pow2_pos(149);
    lemma_magnitude_bounds(0);
    assert(0 * o == 0);
    assert(exactly(nil, 0));
    law_sigma_range(blur.blur_radius.0);
    law_kernel_reach(sigma);
    lemma_from_whole_exact(width as int);
    lemma_from_whole_exact(height as int);
    lemma_exact_sum(b.origin.x.0, b.size.width.0, x, w);
    lemma_exact_sum(b.origin.y.0, b.size.height.0, y, h);
    lemma_exact_sum(c.origin.x.0, c.size.width.0, cx, cw);
    lemma_exact_sum(c.origin.y.0, c.size.height.0, cy, ch);
    assert(0 <= w * o && 0 <= h * o && 0 <= cw * o && 0 <= ch * o) by (nonlinear_arith)
        requires
            0 <= w,
            0 <= h,
            0 <= cw,
            0 <= ch,
            0 < o,
    ;
    assert(drawable(blur));
    lemma_exact_overlap(
        b.origin.x.0,
        b.size.width.0,
        c.origin.x.0,
        c.size.width.0,
        x,
        w,
        cx,
        cw,
    );
    lemma_exact_overlap(
        b.origin.y.0,
        b.size.height.0,
        c.origin.y.0,
        c.size.height.0,
        y,
        h,
        cy,
        ch,
    );
    let fx = most(x, cx);
    let fy = most(y, cy);
    let gx = most(least(x + w, cx + cw), fx) - fx;
    let gy = most(least(y + h, cy + ch), fy) - fy;
    lemma_exact_overlap(
        clipped.origin.x.0,
        clipped.size.width.0,
        nil,
        from_whole(width as int),
        fx,
        gx,
        0,
        width as int,
    );
    lemma_exact_overlap(
        clipped.origin.y.0,
        clipped.size.height.0,
        nil,
        from_whole(height as int),
        fy,
        gy,
        0,
        height as int,
    );
    let left = most(fx, 0);
    let top = most(fy, 0);
    let wide = most(least(fx + gx, width as int), left) - left;
    let tall = most(least(fy + gy, height as int), top) - top;
    let margin = reach_of(sigma) + 2;
    lemma_exact_capture(
        visible.origin.x.0,
        visible.size.width.0,
        padding_of(sigma),
        left,
        wide,
        margin,
        width,
    );
    lemma_exact_capture(
        visible.origin.y.0,
        visible.size.height.0,
        padding_of(sigma),
        top,
        tall,
        margin,
        height,
    );
    assert(wide * o > 0 <==> wide > 0) by (nonlinear_arith)
        requires
            0 < o,
    ;
    assert(tall * o > 0 <==> tall > 0) by (nonlinear_arith)
        requires
            0 < o,
    ;
    law_visible_blur_is_drawn(blur, width, height);
}

} // verus!
