//! Scaled-pixel geometry: points, sizes, bounds, and the blur that a scene asks for.
use crate::arith::{difference, sum};
use crate::single::F32;
use vstd::prelude::*;

verus! {

/// A length in device pixels, after scaling.
#[derive(Clone, Copy, Debug, PartialEq, Eq, Structural)]
pub struct ScaledPixels(pub F32);

/// A position.
#[derive(Clone, Copy, Debug, PartialEq, Eq, Structural)]
pub struct Point {
    pub x: ScaledPixels,
    pub y: ScaledPixels,
}

/// An extent.
#[derive(Clone, Copy, Debug, PartialEq, Eq, Structural)]
pub struct Size {
    pub width: ScaledPixels,
    pub height: ScaledPixels,
}

/// A rectangle: its top left corner and its extent.
#[derive(Clone, Copy, Debug, PartialEq, Eq, Structural)]
pub struct Bounds {
    pub origin: Point,
    pub size: Size,
}

/// One length for each corner of a rectangle.
#[derive(Clone, Copy, Debug, PartialEq, Eq, Structural)]
pub struct Corners {
    pub top_left: ScaledPixels,
    pub top_right: ScaledPixels,
    pub bottom_right: ScaledPixels,
    pub bottom_left: ScaledPixels,
}

/// The rectangle outside which nothing is drawn.
#[derive(Clone, Copy, Debug, PartialEq, Eq, Structural)]
pub struct ContentMask {
    pub bounds: Bounds,
}

/// A request to blur what lies behind a rounded rectangle.
#[derive(Clone, Copy, Debug, PartialEq, Eq, Structural)]
pub struct BackdropBlur {
    pub order: u32,
    pub blur_radius: ScaledPixels,
    pub bounds: Bounds,
    pub content_mask: ContentMask,
    pub corner_radii: Corners,
}

/// The four lanes of a 16-byte shader register.
#[derive(Clone, Copy, Debug, PartialEq, Eq, Structural)]
pub struct Register {
    pub x: F32,
    pub y: F32,
    pub z: F32,
    pub w: F32,
}

/// The larger of two coordinates, the second where they are equal.
pub open spec fn later(a: F32, b: F32) -> F32 {
    if b.below(a) {
        a
    } else {
        b
    }
}

/// The smaller of two coordinates, the first where they are equal.
pub open spec fn earlier(a: F32, b: F32) -> F32 {
    if !a.nan() && !b.nan() && a.units() <= b.units() {
        a
    } else {
        b
    }
}

/// The end of a span.
pub open spec fn span_end(start: F32, length: F32) -> F32 {
    sum(start, length)
}

/// Where two spans begin to overlap.
pub open spec fn overlap_start(start1: F32, start2: F32) -> F32 {
    later(start1, start2)
}

/// How far two spans overlap, from where the overlap starts; zero where they are apart.
pub open spec fn overlap_length(start1: F32, length1: F32, start2: F32, length2: F32) -> F32 {
    let start = overlap_start(start1, start2);
    let end = later(earlier(span_end(start1, length1), span_end(start2, length2)), start);
    difference(end, start)
}

/// The rectangle that two rectangles share.
pub open spec fn intersection(a: Bounds, b: Bounds) -> Bounds {
    Bounds {
        origin: Point {
            x: ScaledPixels(overlap_start(a.origin.x.0, b.origin.x.0)),
            y: ScaledPixels(overlap_start(a.origin.y.0, b.origin.y.0)),
        },
        size: Size {
            width: ScaledPixels(
                overlap_length(a.origin.x.0, a.size.width.0, b.origin.x.0, b.size.width.0),
            ),
            height: ScaledPixels(
                overlap_length(a.origin.y.0, a.size.height.0, b.origin.y.0, b.size.height.0),
            ),
        },
    }
}

/// A value that is finite and not below zero; both zeros pass.
pub open spec fn measurable(value: F32) -> bool {
    value.finite() && value.units() >= 0
}

/// Finite bounds of no negative extent, whose far edges are finite too.
pub open spec fn placed(bounds: Bounds) -> bool {
    &&& bounds.origin.x.0.finite()
    &&& bounds.origin.y.0.finite()
    &&& measurable(bounds.size.width.0)
    &&& measurable(bounds.size.height.0)
    &&& span_end(bounds.origin.x.0, bounds.size.width.0).finite()
    &&& span_end(bounds.origin.y.0, bounds.size.height.0).finite()
}

/// The register that holds a rectangle.
pub open spec fn rect_register(bounds: Bounds) -> Register {
    Register {
        x: bounds.origin.x.0,
        y: bounds.origin.y.0,
        z: bounds.size.width.0,
        w: bounds.size.height.0,
    }
}

/// The register that holds the corner radii, clockwise from the top left.
pub open spec fn corner_register(corners: Corners) -> Register {
    Register {
        x: corners.top_left.0,
        y: corners.top_right.0,
        z: corners.bottom_right.0,
        w: corners.bottom_left.0,
    }
}

fn max_coordinate(a: F32, b: F32) -> (r: F32)
    ensures
        r == later(a, b),
{
    if b.lt(a) {
        a
    } else {
        b
    }
}

fn min_coordinate(a: F32, b: F32) -> (r: F32)
    ensures
        r == earlier(a, b),
{
    if a.le(b) {
        a
    } else {
        b
    }
}

fn overlap(start1: F32, length1: F32, start2: F32, length2: F32) -> (r: (F32, F32))
    ensures
        r.0 == overlap_start(start1, start2),
        r.1 == overlap_length(start1, length1, start2, length2),
{
    let start = max_coordinate(start1, start2);
    let end = min_coordinate(start1.plus(length1), start2.plus(length2));
    let end = max_coordinate(end, start);
    (start, end.minus(start))
}

impl Bounds {
    /// Bounds of an origin and a size.
    pub fn new(origin: Point, size: Size) -> (r: Bounds)
        ensures
            r == (Bounds { origin, size }),
    {
        Bounds { origin, size }
    }

    /// The right edge.
    pub fn right(&self) -> (r: ScaledPixels)
        ensures
            r.0 == span_end(self.origin.x.0, self.size.width.0),
    {
        ScaledPixels(self.origin.x.0.plus(self.size.width.0))
    }

    /// The bottom edge.
    pub fn bottom(&self) -> (r: ScaledPixels)
        ensures
            r.0 == span_end(self.origin.y.0, self.size.height.0),
    {
        ScaledPixels(self.origin.y.0.plus(self.size.height.0))
    }

    /// The rectangle that both bounds share, of no extent where they are apart.
    pub fn intersect(&self, other: &Bounds) -> (r: Bounds)
        ensures
            r == intersection(*self, *other),
    {
        let (x, width) = overlap(
            self.origin.x.0,
            self.size.width.0,
            other.origin.x.0,
            other.size.width.0,
        );
        let (y, height) = overlap(
            self.origin.y.0,
            self.size.height.0,
            other.origin.y.0,
            other.size.height.0,
        );
        Bounds {
            origin: Point { x: ScaledPixels(x), y: ScaledPixels(y) },
            size: Size { width: ScaledPixels(width), height: ScaledPixels(height) },
        }
    }
}

/// The register of a rectangle: left, top, width, height.
pub fn rect(bounds: Bounds) -> (r: Register)
    ensures
        r == rect_register(bounds),
{
    Register {
        x: bounds.origin.x.0,
        y: bounds.origin.y.0,
        z: bounds.size.width.0,
        w: bounds.size.height.0,
    }
}

/// The register of the corner radii.
pub fn corner_lanes(radii: Corners) -> (r: Register)
    ensures
        r == corner_register(radii),
{
    Register {
        x: radii.top_left.0,
        y: radii.top_right.0,
        z: radii.bottom_right.0,
        w: radii.bottom_left.0,
    }
}

/// Whether a value is finite and at least zero.
pub fn valid_length(value: F32) -> (r: bool)
    ensures
        r == measurable(value),
{
    let zero = F32::from_bits(0);
    proof {
        assert(zero.units() == 0);
    }
    value.is_finite() && zero.le(value)
}

/// Whether bounds are finite to their far edges and of no negative extent.
pub fn valid_bounds(bounds: Bounds) -> (r: bool)
    ensures
        r == placed(bounds),
{
    bounds.origin.x.0.is_finite() && bounds.origin.y.0.is_finite() && valid_length(
        bounds.size.width.0,
    ) && valid_length(bounds.size.height.0) && bounds.right().0.is_finite()
        && bounds.bottom().0.is_finite()
}

/// Whether a blur has a finite radius, placed bounds and clip, and usable corner radii.
pub open spec fn drawable(blur: BackdropBlur) -> bool {
    &&& blur.blur_radius.0.finite()
    &&& placed(blur.bounds)
    &&& placed(blur.content_mask.bounds)
    &&& measurable(blur.corner_radii.top_left.0)
    &&& measurable(blur.corner_radii.top_right.0)
    &&& measurable(blur.corner_radii.bottom_right.0)
    &&& measurable(blur.corner_radii.bottom_left.0)
}

/// Whether the numbers of a blur can be worked with at all.
pub fn valid_blur(blur: &BackdropBlur) -> (r: bool)
    ensures
        r == drawable(*blur),
{
    blur.blur_radius.0.is_finite() && valid_bounds(blur.bounds) && valid_bounds(
        blur.content_mask.bounds,
    ) && valid_length(blur.corner_radii.top_left.0) && valid_length(blur.corner_radii.top_right.0)
        && valid_length(blur.corner_radii.bottom_right.0) && valid_length(
        blur.corner_radii.bottom_left.0,
    )
}

} // verus!
