//! The device context calls of a blur, in order, with their arguments.
use crate::arith::{quotient, zero};
use crate::device::{ShaderModule, PARAMS_BYTES};
use crate::geometry::{
    corner_lanes, corner_register, rect, rect_register, BackdropBlur, Register,
};
use crate::integral::from_whole;
use crate::kernel::KERNEL_WEIGHTS;
use crate::plan::BlurPlan;
use crate::resources::ScratchLayout;
use crate::single::F32;
use vstd::prelude::*;

verus! {

/// The constant buffers that the shaders read.
#[derive(Clone, Copy, Debug, PartialEq, Eq)]
pub enum ConstantBuffer {
    /// The renderer's own, of the whole frame.
    Globals,
    /// The one that holds the parameters of a pass.
    Params,
}

/// The scratch surfaces.
#[derive(Clone, Copy, Debug, PartialEq, Eq)]
pub enum Surface {
    /// The window pixels under the blur.
    Snapshot,
    /// What the horizontal pass leaves.
    Horizontal,
    /// What the vertical pass leaves.
    Vertical,
}

/// What is drawn into.
#[derive(Clone, Copy, Debug, PartialEq, Eq)]
pub enum Target {
    /// The renderer's own target.
    Main,
    /// A scratch surface.
    Scratch(Surface),
}

/// The part of a target that is drawn into.
#[derive(Clone, Copy, Debug, PartialEq, Eq)]
pub struct Viewport {
    pub left: F32,
    pub top: F32,
    pub width: F32,
    pub height: F32,
    pub min_depth: F32,
    pub max_depth: F32,
}

/// Where on a target a pass draws.
#[derive(Clone, Copy, Debug, PartialEq, Eq)]
pub enum DrawArea {
    /// The renderer's own viewport.
    Main,
    /// A viewport of its own.
    Region(Viewport),
}

/// A box of texels: `left`, `top` and `front` are in it, `right`, `bottom` and `back` are not.
#[derive(Clone, Copy, Debug, PartialEq, Eq)]
pub struct CopyBox {
    pub left: u32,
    pub top: u32,
    pub front: u32,
    pub right: u32,
    pub bottom: u32,
    pub back: u32,
}

/// The parameters of a pass that differ between blurs, in the order of their registers.
#[derive(Clone, Copy, Debug, PartialEq, Eq)]
pub struct Params {
    /// The rounded rectangle: left, top, width, height.
    pub bounds: Register,
    /// Its corner radii, clockwise from the top left.
    pub corners: Register,
    /// The clip: left, top, width, height.
    pub clip: Register,
    /// The window pixels that the snapshot holds: left, top, width, height.
    pub source: Register,
    /// The step from tap to tap across and down in texture coordinates, the standard deviation
    /// in texels, and the downsampling step.
    pub kernel: Register,
}

/// A context call that cannot fail. Shader resources and samplers go to slot zero.
#[derive(Clone, Copy, Debug, PartialEq, Eq)]
pub enum Command {
    VsConstantBuffer { slot: u32, buffer: Option<ConstantBuffer> },
    PsConstantBuffer { slot: u32, buffer: Option<ConstantBuffer> },
    VsShaderResource(Option<Surface>),
    PsShaderResource(Option<Surface>),
    PsSampler { bound: bool },
    RenderTarget(Option<Target>),
    SetViewport(DrawArea),
    /// The vertices form a triangle strip.
    TriangleStrip,
    VsShader(Option<ShaderModule>),
    PsShader(Option<ShaderModule>),
    /// The default blend state, under which pixels replace what was there.
    ReplaceBlend,
    Draw { vertices: u32, first: u32 },
}

/// A step of a blur.
#[derive(Clone, Copy, Debug, PartialEq, Eq)]
pub enum Op {
    /// A call that cannot fail.
    Context(Command),
    /// Copies a box of the main target to the origin of the snapshot; fails without a target.
    Capture(CopyBox),
    /// Rewrites the parameter buffer; fails if the buffer cannot be mapped.
    Upload(Params),
}

impl Op {
    /// Whether the step can fail.
    pub open spec fn fallible(self) -> bool {
        !(self is Context)
    }
}

/// The steps of one pass: upload its parameters, read one surface, draw into a target.
pub open spec fn pass_ops(
    module: ShaderModule,
    source: Surface,
    target: Target,
    view: DrawArea,
    params: Params,
) -> Seq<Op> {
    seq![
        Op::Upload(params),
        Op::Context(Command::PsShaderResource(None)),
        Op::Context(Command::RenderTarget(Some(target))),
        Op::Context(Command::PsShaderResource(Some(source))),
        Op::Context(Command::VsConstantBuffer { slot: 1, buffer: Some(ConstantBuffer::Params) }),
        Op::Context(Command::PsConstantBuffer { slot: 1, buffer: Some(ConstantBuffer::Params) }),
        Op::Context(Command::PsSampler { bound: true }),
        Op::Context(Command::SetViewport(view)),
        Op::Context(Command::TriangleStrip),
        Op::Context(Command::VsShader(Some(module))),
        Op::Context(Command::PsShader(Some(module))),
        Op::Context(Command::ReplaceBlend),
        Op::Context(Command::Draw { vertices: 4, first: 0 }),
    ]
}

/// The steps before the first pass: bind the frame's constants, unbind what may still be bound
/// from earlier draws, and copy the window pixels.
pub open spec fn capture_ops(region: CopyBox) -> Seq<Op> {
    seq![
        Op::Context(Command::VsConstantBuffer { slot: 0, buffer: Some(ConstantBuffer::Globals) }),
        Op::Context(Command::PsConstantBuffer { slot: 0, buffer: Some(ConstantBuffer::Globals) }),
        Op::Context(Command::VsShaderResource(None)),
        Op::Context(Command::PsShaderResource(None)),
        Op::Context(Command::RenderTarget(None)),
        Op::Capture(region),
    ]
}

/// The steps that release everything of the blur and bring the main target back.
pub open spec fn restore_ops() -> Seq<Op> {
    seq![
        Op::Context(Command::PsShaderResource(None)),
        Op::Context(Command::VsConstantBuffer { slot: 1, buffer: None }),
        Op::Context(Command::PsConstantBuffer { slot: 1, buffer: None }),
        Op::Context(Command::PsSampler { bound: false }),
        Op::Context(Command::VsShader(None)),
        Op::Context(Command::PsShader(None)),
        Op::Context(Command::RenderTarget(Some(Target::Main))),
        Op::Context(Command::SetViewport(DrawArea::Main)),
    ]
}

/// Where copying starts along one axis: at the first pixel read, moved back as far as it takes
/// for the whole surface to be filled from inside the window.
pub open spec fn copy_start(first: u32, limit: u32, extent: u32) -> int {
    if first as int <= limit - extent {
        first as int
    } else {
        limit - extent
    }
}

/// The box of window pixels that fills a snapshot.
pub open spec fn copy_box_of(plan: BlurPlan, layout: ScratchLayout, window: Seq<u32>) -> CopyBox {
    let left = copy_start(plan.left, window[0], layout.width);
    let top = copy_start(plan.top, window[1], layout.height);
    CopyBox {
        left: left as u32,
        top: top as u32,
        front: 0,
        right: (left + layout.width) as u32,
        bottom: (top + layout.height) as u32,
        back: 1,
    }
}

/// The kernel register of the horizontal pass.
pub open spec fn across(plan: BlurPlan, layout: ScratchLayout) -> Register {
    Register {
        x: quotient(from_whole(1), from_whole(layout.width as int)),
        y: zero(false),
        z: plan.sigma,
        w: from_whole(plan.downsample as int),
    }
}

/// The kernel register of the vertical pass.
pub open spec fn down(plan: BlurPlan, layout: ScratchLayout) -> Register {
    Register {
        x: zero(false),
        y: quotient(from_whole(1), from_whole(layout.height as int)),
        z: plan.sigma,
        w: from_whole(plan.downsample as int),
    }
}

/// The parameters of a pass with the given kernel register.
pub open spec fn params_of(
    blur: BackdropBlur,
    region: CopyBox,
    layout: ScratchLayout,
    kernel: Register,
) -> Params {
    Params {
        bounds: rect_register(blur.bounds),
        corners: corner_register(blur.corner_radii),
        clip: rect_register(blur.content_mask.bounds),
        source: Register {
            x: from_whole(region.left as int),
            y: from_whole(region.top as int),
            z: from_whole(layout.width as int),
            w: from_whole(layout.height as int),
        },
        kernel,
    }
}

/// A viewport at the origin of a scratch surface.
pub open spec fn region_of(width: int, height: int) -> DrawArea {
    DrawArea::Region(
        Viewport {
            left: zero(false),
            top: zero(false),
            width: from_whole(width),
            height: from_whole(height),
            min_depth: zero(false),
            max_depth: from_whole(1),
        },
    )
}

/// The whole blur: capture, filter across, filter down, put back, restore.
pub open spec fn program_of(
    blur: BackdropBlur,
    plan: BlurPlan,
    layout: ScratchLayout,
    window: Seq<u32>,
) -> Seq<Op> {
    let region = copy_box_of(plan, layout, window);
    let first = params_of(blur, region, layout, across(plan, layout));
    let second = params_of(blur, region, layout, down(plan, layout));
    capture_ops(region) + pass_ops(
        ShaderModule::BackdropPass,
        Surface::Snapshot,
        Target::Scratch(Surface::Horizontal),
        region_of(layout.narrow(), layout.height as int),
        first,
    ) + pass_ops(
        ShaderModule::BackdropPass,
        Surface::Horizontal,
        Target::Scratch(Surface::Vertical),
        region_of(layout.narrow(), layout.low()),
        second,
    ) + pass_ops(
        ShaderModule::BackdropComposite,
        Surface::Vertical,
        Target::Main,
        DrawArea::Main,
        second,
    ) + restore_ops()
}

/// The steps of one pass.
pub fn draw_pass(
    module: ShaderModule,
    source: Surface,
    target: Target,
    view: DrawArea,
    params: Params,
) -> (ops: Vec<Op>)
    ensures
        ops@ == pass_ops(module, source, target, view, params),
{
    let ops = vec![
        Op::Upload(params),
        Op::Context(Command::PsShaderResource(None)),
        Op::Context(Command::RenderTarget(Some(target))),
        Op::Context(Command::PsShaderResource(Some(source))),
        Op::Context(Command::VsConstantBuffer { slot: 1, buffer: Some(ConstantBuffer::Params) }),
        Op::Context(Command::PsConstantBuffer { slot: 1, buffer: Some(ConstantBuffer::Params) }),
        Op::Context(Command::PsSampler { bound: true }),
        Op::Context(Command::SetViewport(view)),
        Op::Context(Command::TriangleStrip),
        Op::Context(Command::VsShader(Some(module))),
        Op::Context(Command::PsShader(Some(module))),
        Op::Context(Command::ReplaceBlend),
        Op::Context(Command::Draw { vertices: 4, first: 0 }),
    ];
    proof {
        assert(ops@ =~= pass_ops(module, source, target, view, params));
    }
    ops
}

fn capture_steps(region: CopyBox) -> (ops: Vec<Op>)
    ensures
        ops@ == capture_ops(region),
{
    let ops = vec![
        Op::Context(Command::VsConstantBuffer { slot: 0, buffer: Some(ConstantBuffer::Globals) }),
        Op::Context(Command::PsConstantBuffer { slot: 0, buffer: Some(ConstantBuffer::Globals) }),
        Op::Context(Command::VsShaderResource(None)),
        Op::Context(Command::PsShaderResource(None)),
        Op::Context(Command::RenderTarget(None)),
        Op::Capture(region),
    ];
    proof {
        assert(ops@ =~= capture_ops(region));
    }
    ops
}

fn restore_steps() -> (ops: Vec<Op>)
    ensures
        ops@ == restore_ops(),
{
    let ops = vec![
        Op::Context(Command::PsShaderResource(None)),
        Op::Context(Command::VsConstantBuffer { slot: 1, buffer: None }),
        Op::Context(Command::PsConstantBuffer { slot: 1, buffer: None }),
        Op::Context(Command::PsSampler { bound: false }),
        Op::Context(Command::VsShader(None)),
        Op::Context(Command::PsShader(None)),
        Op::Context(Command::RenderTarget(Some(Target::Main))),
        Op::Context(Command::SetViewport(DrawArea::Main)),
    ];
    proof {
        assert(ops@ =~= restore_ops());
    }
    ops
}

/// The box of window pixels that fills a snapshot of the given size.
pub fn copy_box(plan: &BlurPlan, layout: &ScratchLayout, window: [u32; 2]) -> (region: CopyBox)
    requires
        layout.width <= window[0],
        layout.height <= window[1],
    ensures
        region == copy_box_of(*plan, *layout, window@),
{
    let right: u32 = window[0] - layout.width;
    let bottom: u32 = window[1] - layout.height;
    let left: u32 = if plan.left <= right { plan.left } else { right };
    let top: u32 = if plan.top <= bottom { plan.top } else { bottom };
    CopyBox {
        left,
        top,
        front: 0,
        right: left + layout.width,
        bottom: top + layout.height,
        back: 1,
    }
}

fn region(width: u32, height: u32) -> (area: DrawArea)
    ensures
        area == region_of(width as int, height as int),
{
    let nil = F32::from_bits(0);
    DrawArea::Region(
        Viewport {
            left: nil,
            top: nil,
            width: F32::from_u32(width),
            height: F32::from_u32(height),
            min_depth: nil,
            max_depth: F32::from_u32(1),
        },
    )
}

/// All steps of a blur, from the capture of its pixels to the restored context.
pub fn draw_program(
    blur: &BackdropBlur,
    plan: &BlurPlan,
    layout: &ScratchLayout,
    window: [u32; 2],
) -> (ops: Vec<Op>)
    requires
        layout.downsample > 0,
        layout.width <= window[0],
        layout.height <= window[1],
    ensures
        ops@ == program_of(*blur, *plan, *layout, window@),
{
    let nil = F32::from_bits(0);
    let one = F32::from_u32(1);
    let width = F32::from_u32(layout.width);
    let height = F32::from_u32(layout.height);
    let step = F32::from_u32(plan.downsample);
    let area = copy_box(plan, layout, window);
    let first = Params {
        bounds: rect(blur.bounds),
        corners: corner_lanes(blur.corner_radii),
        clip: rect(blur.content_mask.bounds),
        source: Register {
            x: F32::from_u32(area.left),
            y: F32::from_u32(area.top),
            z: width,
            w: height,
        },
        kernel: Register { x: one.over(width), y: nil, z: plan.sigma, w: step },
    };
    let second = Params {
        bounds: first.bounds,
        corners: first.corners,
        clip: first.clip,
        source: first.source,
        kernel: Register { x: nil, y: one.over(height), z: plan.sigma, w: step },
    };
    let mut ops = capture_steps(area);
    let mut across_ops = draw_pass(
        ShaderModule::BackdropPass,
        Surface::Snapshot,
        Target::Scratch(Surface::Horizontal),
        region(layout.narrow_width(), layout.height),
        first,
    );
    let mut down_ops = draw_pass(
        ShaderModule::BackdropPass,
        Surface::Horizontal,
        Target::Scratch(Surface::Vertical),
        region(layout.narrow_width(), layout.low_height()),
        second,
    );
    let mut composite_ops = draw_pass(
        ShaderModule::BackdropComposite,
        Surface::Vertical,
        Target::Main,
        DrawArea::Main,
        second,
    );
    let mut restore = restore_steps();
    ops.append(&mut across_ops);
    ops.append(&mut down_ops);
    ops.append(&mut composite_ops);
    ops.append(&mut restore);
    ops
}

/// The lanes of a register.
pub open spec fn lanes(register: Register) -> Seq<u32> {
    seq![register.x.bits, register.y.bits, register.z.bits, register.w.bits]
}

/// The words of the parameter buffer: the five registers of a pass, then the weight table.
pub open spec fn words_of(params: Params, weights: Seq<F32>) -> Seq<u32> {
    lanes(params.bounds) + lanes(params.corners) + lanes(params.clip) + lanes(params.source)
        + lanes(params.kernel) + weights.map_values(|weight: F32| weight.bits)
}

fn push_register(words: &mut Vec<u32>, register: Register)
    ensures
        final(words)@ == old(words)@ + lanes(register),
{
    words.push(register.x.to_bits());
    words.push(register.y.to_bits());
    words.push(register.z.to_bits());
    words.push(register.w.to_bits());
    proof {
        assert(words@ =~= old(words)@ + lanes(register));
    }
}

/// What is written to the parameter buffer for a pass.
pub fn constant_words(params: &Params, weights: &Vec<F32>) -> (words: Vec<u32>)
    ensures
        words@ == words_of(*params, weights@),
{
    let mut words: Vec<u32> = Vec::new();
    push_register(&mut words, params.bounds);
    push_register(&mut words, params.corners);
    push_register(&mut words, params.clip);
    push_register(&mut words, params.source);
    push_register(&mut words, params.kernel);
    let ghost head = words@;
    let mut k: usize = 0;
    while k < weights.len()
        invariant
            k <= weights@.len(),
            words@ == head + weights@.take(k as int).map_values(|weight: F32| weight.bits),
        decreases weights@.len() - k,
    {
        words.push(weights[k].to_bits());
        proof {
            assert(words@ =~= head + weights@.take(k + 1).map_values(|weight: F32| weight.bits));
        }
        k = k + 1;
    }
    proof {
        assert(weights@.take(k as int) =~= weights@);
        assert(words@ =~= words_of(*params, weights@));
    }
    words
}

/// The buffer holds whole registers: every field of a pass starts on a 16-byte boundary, weight
/// `k` is lane `k % 4` of register `5 + k / 4`, and a full table fills the buffer exactly.
pub proof fn law_buffer_layout(params: Params, weights: Seq<F32>)
    requires
        weights.len() == KERNEL_WEIGHTS,
    ensures
        ({
            let words = words_of(params, weights);
            &&& 4 * words.len() == PARAMS_BYTES
            &&& words.subrange(0, 4) == lanes(params.bounds)
            &&& words.subrange(4, 8) == lanes(params.corners)
            &&& words.subrange(8, 12) == lanes(params.clip)
            &&& words.subrange(12, 16) == lanes(params.source)
            &&& words.subrange(16, 20) == lanes(params.kernel)
            &&& forall|k: int|
                0 <= k < weights.len() ==> #[trigger] weights[k].bits == words[4 * (5 + k / 4) + k
                    % 4]
        }),
{
    let words = words_of(params, weights);
    assert(words.subrange(0, 4) =~= lanes(params.bounds));
    assert(words.subrange(4, 8) =~= lanes(params.corners));
    assert(words.subrange(8, 12) =~= lanes(params.clip));
    assert(words.subrange(12, 16) =~= lanes(params.source));
    assert(words.subrange(16, 20) =~= lanes(params.kernel));
}

/// A snapshot is filled exactly, with pixels from inside the window; and where the plan lies in
/// the window and fits the surfaces, the copied box holds every pixel of it.
pub proof fn law_snapshot_holds_plan(plan: BlurPlan, layout: ScratchLayout, window: Seq<u32>)
    requires
        layout.width <= window[0],
        layout.height <= window[1],
    ensures
        ({
            let region = copy_box_of(plan, layout, window);
            &&& region.right - region.left == layout.width
            &&& region.bottom - region.top == layout.height
            &&& region.right <= window[0]
            &&& region.bottom <= window[1]
            &&& plan.right <= window[0] && plan.right - plan.left <= layout.width ==> region.left
                <= plan.left && plan.right <= region.right
            &&& plan.bottom <= window[1] && plan.bottom - plan.top <= layout.height ==> region.top
                <= plan.top && plan.bottom <= region.bottom
        }),
{
}

} // verus!
