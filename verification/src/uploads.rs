//! What the passes of a blur are given: parameters, viewports and the words of the buffer.
use crate::arith::quotient;
use crate::commands::{copy_box_of, program_of, region_of, words_of, Command, DrawArea, Op, Params};
use crate::geometry::BackdropBlur;
use crate::integral::from_whole;
use crate::magnitude::one_in_units;
use crate::numerics::{closest, law_from_whole, law_one, law_quotient, overflow};
use crate::plan::BlurPlan;
use crate::resources::{law_surfaces_shrink_by_step, ScratchLayout};
use crate::single::F32;
use vstd::arithmetic::power2::{lemma_pow2_pos, lemma_pow2_strictly_increases};
use vstd::math::abs;
use vstd::prelude::*;

verus! {

/// A program uploads three times, once before each draw, and captures once, before the first.
pub proof fn law_uploads_precede_draws(
    blur: BackdropBlur,
    plan: BlurPlan,
    layout: ScratchLayout,
    window: Seq<u32>,
)
    ensures
        ({
            let ops = program_of(blur, plan, layout, window);
            &&& ops.len() == 53
            &&& forall|i: int|
                0 <= i < ops.len() ==> (#[trigger] ops[i] is Capture <==> i == 5)
            &&& forall|i: int|
                0 <= i < ops.len() ==> (#[trigger] ops[i] is Upload <==> i == 6 || i == 19 || i
                    == 32)
            &&& forall|i: int|
                0 <= i < ops.len() ==> (#[trigger] ops[i] matches Op::Context(
                    Command::Draw { .. },
                ) <==> i == 18 || i == 31 || i == 44)
        }),
{
}

/// Every pass is given the rectangle, the corner radii and the clip of the blur, bit for bit:
/// origin and extent as they are, wherever they lie, and the radii clockwise from the top left.
pub proof fn law_passes_get_the_blurs_geometry(
    blur: BackdropBlur,
    plan: BlurPlan,
    layout: ScratchLayout,
    window: Seq<u32>,
    i: int,
)
    requires
        0 <= i < program_of(blur, plan, layout, window).len(),
        program_of(blur, plan, layout, window)[i] is Upload,
    ensures
        ({
            let params = program_of(blur, plan, layout, window)[i]->Upload_0;
            let clip = blur.content_mask.bounds;
            &&& params.bounds.x == blur.bounds.origin.x.0
            &&& params.bounds.y == blur.bounds.origin.y.0
            &&& params.bounds.z == blur.bounds.size.width.0
            &&& params.bounds.w == blur.bounds.size.height.0
            &&& params.clip.x == clip.origin.x.0
            &&& params.clip.y == clip.origin.y.0
            &&& params.clip.z == clip.size.width.0
            &&& params.clip.w == clip.size.height.0
            &&& params.corners.x == blur.corner_radii.top_left.0
            &&& params.corners.y == blur.corner_radii.top_right.0
            &&& params.corners.z == blur.corner_radii.bottom_right.0
            &&& params.corners.w == blur.corner_radii.bottom_left.0
        }),
{
    law_uploads_precede_draws(blur, plan, layout, window);
}

/// Every pass is told which window pixels the snapshot holds: the corner of the box that the
/// program captures, and the size of the snapshot, each the closest number to it and the exact one
/// up to `2^24`.
pub proof fn law_passes_get_the_captured_box(
    blur: BackdropBlur,
    plan: BlurPlan,
    layout: ScratchLayout,
    window: Seq<u32>,
    i: int,
)
    requires
        0 <= i < program_of(blur, plan, layout, window).len(),
        program_of(blur, plan, layout, window)[i] is Upload,
    ensures
        ({
            let source = program_of(blur, plan, layout, window)[i]->Upload_0.source;
            let region = program_of(blur, plan, layout, window)[5]->Capture_0;
            &&& stands_for(source.x, region.left as int)
            &&& stands_for(source.y, region.top as int)
            &&& stands_for(source.z, layout.width as int)
            &&& stands_for(source.w, layout.height as int)
        }),
{
    law_uploads_precede_draws(blur, plan, layout, window);
    let region = copy_box_of(plan, layout, window);
    lemma_stands_for(region.left);
    lemma_stands_for(region.top);
    lemma_stands_for(layout.width);
    lemma_stands_for(layout.height);
}

/// A number is the closest one to a whole number, and equal to it up to `2^24`.
pub open spec fn stands_for(value: F32, n: int) -> bool {
    &&& closest(value, n * one_in_units(), 1)
    &&& n <= 0x100_0000 ==> value.units() == n * one_in_units()
    &&& !value.negative()
}

proof fn lemma_stands_for(n: u32)
    ensures
        stands_for(from_whole(n as int), n as int),
{
    law_from_whole(n as int);
}

/// A step is one texel of an extent of `n` texels: the closest number to one over the extent.
/// Texels beyond `2^24` are counted by the number that stands for them.
pub open spec fn one_texel(step: F32, n: int) -> bool {
    &&& !step.negative()
    &&& n > 0 ==> exists|extent: F32| #[trigger]
        stands_for(extent, n) && closest(
            step,
            one_in_units() * one_in_units(),
            extent.units(),
        )
    &&& 0 < n <= 0x100_0000 ==> closest(step, one_in_units(), n)
    &&& n == 0 ==> step.infinite()
}

proof fn lemma_one_texel(n: u32)
    ensures
        one_texel(quotient(from_whole(1), from_whole(n as int)), n as int),
{
    let o = one_in_units();
    let one = from_whole(1);
    let extent = from_whole(n as int);
    let step = quotient(one, extent);
    lemma_pow2_pos(149);
    law_from_whole(1);
    law_from_whole(n as int);
    law_quotient(one, extent);
    if n > 0 {
        let e = extent.units();
        lemma_pow2_strictly_increases(149, 252);
        assert(o < overflow());
        assert(o * o < e * overflow()) by (nonlinear_arith)
            requires
                0 < o <= e,
                o < overflow(),
        ;
        lemma_stands_for(n);
        assert(closest(step, o * o, e));
        if n <= 0x100_0000 {
            lemma_closest_scaled(step, o, n as int, o);
        }
    } else {
        assert(n as int * o == 0) by (nonlinear_arith)
            requires
                n == 0,
        ;
    }
}

/// What is closest to a ratio depends on the ratio alone.
proof fn lemma_closest_scaled(value: F32, p: int, q: int, c: int)
    requires
        0 < c,
        closest(value, p * c, q * c),
    ensures
        closest(value, p, q),
{
    assert forall|other: F32| other.finite() implies {
        let far = abs(q * #[trigger] other.units() - p);
        let near = abs(q * value.units() - p);
        near < far || (near == far && (other.units() == value.units() || value.bits % 2 == 0))
    } by {
        let x = other.units();
        let y = value.units();
        let far = abs(q * x - p);
        let near = abs(q * y - p);
        assert(abs((q * c) * x - p * c) == far * c) by (nonlinear_arith)
            requires
                far == abs(q * x - p),
                0 < c,
        ;
        assert(abs((q * c) * y - p * c) == near * c) by (nonlinear_arith)
            requires
                near == abs(q * y - p),
                0 < c,
        ;
        assert(near * c < far * c ==> near < far) by (nonlinear_arith)
            requires
                0 < c,
        ;
        assert(near * c == far * c ==> near == far) by (nonlinear_arith)
            requires
                0 < c,
        ;
    }
}

/// The taps of the horizontal pass lie one texel of the snapshot apart across and none down; those
/// of the vertical pass one texel down and none across, and the composite is given the same. All
/// are given the planned standard deviation and step.
pub proof fn law_taps_are_one_texel_apart(
    blur: BackdropBlur,
    plan: BlurPlan,
    layout: ScratchLayout,
    window: Seq<u32>,
)
    ensures
        ({
            let ops = program_of(blur, plan, layout, window);
            let across = ops[6]->Upload_0.kernel;
            let down = ops[19]->Upload_0.kernel;
            let back = ops[32]->Upload_0.kernel;
            &&& one_texel(across.x, layout.width as int)
            &&& across.y.bits == 0
            &&& across.z == plan.sigma
            &&& stands_for(across.w, plan.downsample as int)
            &&& down.x.bits == 0
            &&& one_texel(down.y, layout.height as int)
            &&& down.z == plan.sigma
            &&& stands_for(down.w, plan.downsample as int)
            &&& back == down
        }),
{
    law_uploads_precede_draws(blur, plan, layout, window);
    lemma_one_texel(layout.width);
    lemma_one_texel(layout.height);
    lemma_stands_for(plan.downsample);
}

/// A viewport covers a surface of the given size from its origin on, over the whole depth.
pub open spec fn covers(area: DrawArea, width: int, height: int) -> bool {
    &&& area is Region
    &&& area->Region_0.left.bits == 0
    &&& area->Region_0.top.bits == 0
    &&& stands_for(area->Region_0.width, width)
    &&& stands_for(area->Region_0.height, height)
    &&& area->Region_0.min_depth.bits == 0
    &&& area->Region_0.max_depth.bits == 0x3f80_0000
}

/// Each pass draws over the whole of its surface, no less and no more, and the composite in the
/// renderer's own viewport.
pub proof fn law_viewports_cover_surfaces(
    blur: BackdropBlur,
    plan: BlurPlan,
    layout: ScratchLayout,
    window: Seq<u32>,
)
    requires
        layout.downsample > 0,
    ensures
        ({
            let ops = program_of(blur, plan, layout, window);
            let horizontal = layout.horizontal_texture().desc;
            let vertical = layout.vertical_texture().desc;
            let first = ops[13]->Context_0->SetViewport_0;
            let second = ops[26]->Context_0->SetViewport_0;
            &&& ops[13] == Op::Context(Command::SetViewport(first))
            &&& covers(first, horizontal.width as int, horizontal.height as int)
            &&& ops[26] == Op::Context(Command::SetViewport(second))
            &&& covers(second, vertical.width as int, vertical.height as int)
            &&& ops[39] == Op::Context(Command::SetViewport(DrawArea::Main))
        }),
{
    law_surfaces_shrink_by_step(layout);
    let horizontal = layout.horizontal_texture().desc;
    let vertical = layout.vertical_texture().desc;
    lemma_covers(horizontal.width, horizontal.height);
    lemma_covers(vertical.width, vertical.height);
}

proof fn lemma_covers(width: u32, height: u32)
    ensures
        covers(region_of(width as int, height as int), width as int, height as int),
{
    law_one();
    lemma_stands_for(width);
    lemma_stands_for(height);
}

/// The buffer holds every number of a pass in its place, bit for bit: five registers of four
/// numbers, then the weights one after the other.
pub proof fn law_buffer_holds_every_number(params: Params, weights: Seq<F32>)
    ensures
        ({
            let words = words_of(params, weights);
            &&& words.len() == 20 + weights.len()
            &&& words[0] == params.bounds.x.bits
            &&& words[1] == params.bounds.y.bits
            &&& words[2] == params.bounds.z.bits
            &&& words[3] == params.bounds.w.bits
            &&& words[4] == params.corners.x.bits
            &&& words[5] == params.corners.y.bits
            &&& words[6] == params.corners.z.bits
            &&& words[7] == params.corners.w.bits
            &&& words[8] == params.clip.x.bits
            &&& words[9] == params.clip.y.bits
            &&& words[10] == params.clip.z.bits
            &&& words[11] == params.clip.w.bits
            &&& words[12] == params.source.x.bits
            &&& words[13] == params.source.y.bits
            &&& words[14] == params.source.z.bits
            &&& words[15] == params.source.w.bits
            &&& words[16] == params.kernel.x.bits
            &&& words[17] == params.kernel.y.bits
            &&& words[18] == params.kernel.z.bits
            &&& words[19] == params.kernel.w.bits
            &&& forall|k: int|
                0 <= k < weights.len() ==> #[trigger] words[20 + k] == weights[k].bits
        }),
{
}

/// The captured box is as large as the snapshot and one layer deep. It starts where the plan does
/// if it then ends inside the window, and else it ends at the window's edge.
pub proof fn law_box_starts_with_the_plan(
    blur: BackdropBlur,
    plan: BlurPlan,
    layout: ScratchLayout,
    window: Seq<u32>,
)
    requires
        layout.width <= window[0],
        layout.height <= window[1],
    ensures
        ({
            let region = program_of(blur, plan, layout, window)[5]->Capture_0;
            &&& program_of(blur, plan, layout, window)[5] == Op::Capture(region)
            &&& region.right == region.left + layout.width
            &&& region.bottom == region.top + layout.height
            &&& region.front == 0
            &&& region.back == 1
            &&& plan.left + layout.width <= window[0] ==> region.left == plan.left
            &&& plan.left + layout.width > window[0] ==> region.right == window[0]
            &&& plan.top + layout.height <= window[1] ==> region.top == plan.top
            &&& plan.top + layout.height > window[1] ==> region.bottom == window[1]
        }),
{
    law_uploads_precede_draws(blur, plan, layout, window);
}

} // verus!
