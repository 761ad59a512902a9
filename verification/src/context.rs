//! What the steps of a blur leave bound on the device context.
use crate::commands::{
    across, capture_ops, copy_box_of, down, params_of, pass_ops, program_of, region_of,
    restore_ops, Command, ConstantBuffer, CopyBox, DrawArea, Op, Params, Surface, Target,
};
use crate::device::ShaderModule;
use crate::draw::{next_step, performed};
use crate::geometry::BackdropBlur;
use crate::plan::BlurPlan;
use crate::resources::ScratchLayout;
use vstd::prelude::*;

verus! {

/// The state of a device context and of the parameter buffer, as far as a blur changes it.
pub struct Bindings {
    pub vs_buffers: Map<u32, Option<ConstantBuffer>>,
    pub ps_buffers: Map<u32, Option<ConstantBuffer>>,
    pub vs_surface: Option<Surface>,
    pub ps_surface: Option<Surface>,
    pub ps_sampler: bool,
    pub target: Option<Target>,
    pub area: DrawArea,
    pub vs_shader: Option<ShaderModule>,
    pub ps_shader: Option<ShaderModule>,
    /// Whether vertices form a triangle strip.
    pub strip: bool,
    /// Whether pixels replace what was there.
    pub replaces: bool,
    /// What was last written to the parameter buffer, if anything.
    pub params: Option<Params>,
}

/// The state after a step.
pub open spec fn bound(b: Bindings, op: Op) -> Bindings {
    match op {
        Op::Context(command) => match command {
            Command::VsConstantBuffer { slot, buffer } => Bindings {
                vs_buffers: b.vs_buffers.insert(slot, buffer),
                ..b
            },
            Command::PsConstantBuffer { slot, buffer } => Bindings {
                ps_buffers: b.ps_buffers.insert(slot, buffer),
                ..b
            },
            Command::VsShaderResource(surface) => Bindings { vs_surface: surface, ..b },
            Command::PsShaderResource(surface) => Bindings { ps_surface: surface, ..b },
            Command::PsSampler { bound } => Bindings { ps_sampler: bound, ..b },
            Command::RenderTarget(target) => Bindings { target, ..b },
            Command::SetViewport(area) => Bindings { area, ..b },
            Command::VsShader(module) => Bindings { vs_shader: module, ..b },
            Command::PsShader(module) => Bindings { ps_shader: module, ..b },
            Command::TriangleStrip => Bindings { strip: true, ..b },
            Command::ReplaceBlend => Bindings { replaces: true, ..b },
            Command::Draw { .. } => b,
        },
        Op::Capture(_) => b,
        Op::Upload(params) => Bindings { params: Some(params), ..b },
    }
}

/// The state after a sequence of steps.
pub open spec fn replay(b: Bindings, ops: Seq<Op>) -> Bindings
    decreases ops.len(),
{
    if ops.len() == 0 {
        b
    } else {
        replay(bound(b, ops[0]), ops.drop_first())
    }
}

/// No scratch surface is read and drawn into at once. A device would drop such a binding.
pub open spec fn unmixed(b: Bindings) -> bool {
    forall|surface: Surface|
        b.target == Some(Target::Scratch(surface)) ==> b.vs_surface != Some(surface)
            && b.ps_surface != Some(surface)
}

/// No step along the way mixes reading and drawing.
pub open spec fn stays_unmixed(b: Bindings, ops: Seq<Op>) -> bool
    decreases ops.len(),
{
    unmixed(b) && (ops.len() == 0 || stays_unmixed(bound(b, ops[0]), ops.drop_first()))
}

/// The main target is back with its viewport, and nothing of the blur is bound.
pub open spec fn restored(b: Bindings) -> bool {
    &&& b.target == Some(Target::Main)
    &&& b.area == DrawArea::Main
    &&& b.vs_surface is None
    &&& b.ps_surface is None
    &&& b.vs_buffers[1] is None
    &&& b.ps_buffers[1] is None
    &&& !b.ps_sampler
    &&& b.vs_shader is None
    &&& b.ps_shader is None
}

proof fn lemma_replay_concat(b: Bindings, x: Seq<Op>, y: Seq<Op>)
    ensures
        replay(b, x + y) == replay(replay(b, x), y),
        stays_unmixed(b, x + y) <==> stays_unmixed(b, x) && stays_unmixed(replay(b, x), y),
    decreases x.len(),
{
    if x.len() == 0 {
        assert(x + y =~= y);
    } else {
        assert((x + y).drop_first() =~= x.drop_first() + y);
        lemma_replay_concat(bound(b, x[0]), x.drop_first(), y);
    }
}

/// The restoring steps restore whatever was bound, but for what the vertex stage reads.
proof fn lemma_restore(b: Bindings)
    ensures
        ({
            let end = replay(b, restore_ops());
            &&& end.vs_surface == b.vs_surface
            &&& restored(Bindings { vs_surface: None, ..end })
            &&& unmixed(b) ==> stays_unmixed(b, restore_ops())
        }),
{
    reveal_with_fuel(replay, 9);
    reveal_with_fuel(stays_unmixed, 9);
}

/// A pass reads its source, draws into its target, and never mixes the two.
proof fn lemma_pass(
    b: Bindings,
    module: ShaderModule,
    source: Surface,
    target: Target,
    area: DrawArea,
    params: Params,
)
    requires
        unmixed(b),
        b.vs_surface is None,
        target != Target::Scratch(source),
    ensures
        ({
            let ops = pass_ops(module, source, target, area, params);
            let end = replay(b, ops);
            &&& stays_unmixed(b, ops)
            &&& end == Bindings {
                vs_buffers: b.vs_buffers.insert(1, Some(ConstantBuffer::Params)),
                ps_buffers: b.ps_buffers.insert(1, Some(ConstantBuffer::Params)),
                vs_surface: None,
                ps_surface: Some(source),
                ps_sampler: true,
                target: Some(target),
                area,
                vs_shader: Some(module),
                ps_shader: Some(module),
                strip: true,
                replaces: true,
                params: Some(params),
            }
        }),
{
    reveal_with_fuel(replay, 14);
    reveal_with_fuel(stays_unmixed, 14);
}

/// Any pass, from any surface into any other target: it uploads its parameters first and draws
/// four vertices last, with everything that it needs bound, whatever was bound before.
pub proof fn law_pass_is_set_up(
    b: Bindings,
    module: ShaderModule,
    source: Surface,
    target: Target,
    area: DrawArea,
    params: Params,
)
    requires
        unmixed(b),
        b.vs_surface is None,
        b.vs_buffers[0] == Some(ConstantBuffer::Globals),
        b.ps_buffers[0] == Some(ConstantBuffer::Globals),
        target != Target::Scratch(source),
    ensures
        ({
            let ops = pass_ops(module, source, target, area, params);
            &&& ops.len() == 13
            &&& ops[0] == Op::Upload(params)
            &&& ops[12] == Op::Context(Command::Draw { vertices: 4, first: 0 })
            &&& forall|i: int|
                1 <= i < 12 ==> #[trigger] ops[i] is Context && !(ops[i] matches Op::Context(
                    Command::Draw { .. },
                ))
            &&& set_up(replay(b, ops), module, source, target, area, params)
            &&& stays_unmixed(b, ops)
        }),
{
    lemma_pass(b, module, source, target, area, params);
}

/// The steps up to the capture leave nothing bound to read or to draw into.
proof fn lemma_capture(b: Bindings, region: CopyBox)
    ensures
        ({
            let ops = capture_ops(region);
            let end = replay(b, ops);
            &&& end == Bindings {
                vs_buffers: b.vs_buffers.insert(0, Some(ConstantBuffer::Globals)),
                ps_buffers: b.ps_buffers.insert(0, Some(ConstantBuffer::Globals)),
                vs_surface: None,
                ps_surface: None,
                target: None,
                ..b
            }
            &&& unmixed(b) ==> stays_unmixed(b, ops)
        }),
{
    reveal_with_fuel(replay, 7);
    reveal_with_fuel(stays_unmixed, 7);
}

/// Steps that cannot fail or do not are performed in order.
proof fn lemma_performed_head(ops: Seq<Op>, at: int, to: int, script: spec_fn(int) -> bool)
    requires
        0 <= at <= to <= ops.len(),
        forall|i: int| at <= i < to ==> #[trigger] ops[i] is Context || script(i),
    ensures
        performed(ops, at, script) == ops.subrange(at, to) + performed(ops, to, script),
    decreases to - at,
{
    if at < to {
        lemma_performed_head(ops, at + 1, to, script);
        assert(ops[at] is Context || script(at));
        assert(ops.subrange(at, to) =~= seq![ops[at]] + ops.subrange(at + 1, to));
        assert(performed(ops, at, script) =~= ops.subrange(at, to) + performed(ops, to, script));
    } else {
        assert(performed(ops, at, script) =~= ops.subrange(at, to) + performed(ops, to, script));
    }
}

/// From the first pass on, what is performed ends in the restoring steps, wherever it fails.
proof fn lemma_performed_tail(ops: Seq<Op>, at: int, script: spec_fn(int) -> bool) -> (stop: int)
    requires
        8 <= ops.len(),
        0 <= at <= ops.len() - 8,
        forall|i: int| at <= i < ops.len() - 8 ==> !(#[trigger] ops[i] is Capture),
        forall|i: int| ops.len() - 8 <= i < ops.len() ==> #[trigger] ops[i] is Context,
    ensures
        at <= stop <= ops.len() - 8,
        performed(ops, at, script) == ops.subrange(at, stop) + ops.subrange(
            ops.len() - 8,
            ops.len() as int,
        ),
    decreases ops.len() - at,
{
    let rest = ops.len() - 8;
    let end = ops.len() as int;
    if at == rest {
        lemma_performed_head(ops, rest, end, script);
        assert(performed(ops, at, script) =~= ops.subrange(at, at) + ops.subrange(rest, end));
        at
    } else {
        assert(!(ops[at] is Capture));
        if script(at) || !ops[at].fallible() {
            let stop = lemma_performed_tail(ops, at + 1, script);
            assert(performed(ops, at, script) =~= ops.subrange(at, stop) + ops.subrange(rest, end));
            stop
        } else {
            lemma_performed_head(ops, rest, end, script);
            assert(performed(ops, rest, script) =~= ops.subrange(rest, end));
            assert(performed(ops, at, script) =~= ops.subrange(at, at + 1) + ops.subrange(
                rest,
                end,
            ));
            at + 1
        }
    }
}

/// Where the steps stay unmixed, so does what they leave.
proof fn lemma_unmixed_end(b: Bindings, ops: Seq<Op>)
    requires
        stays_unmixed(b, ops),
    ensures
        unmixed(replay(b, ops)),
    decreases ops.len(),
{
    if ops.len() > 0 {
        lemma_unmixed_end(bound(b, ops[0]), ops.drop_first());
    }
}

/// What the vertex stage reads changes by no other step.
proof fn lemma_vertex_surface(b: Bindings, ops: Seq<Op>)
    requires
        forall|i: int|
            0 <= i < ops.len() ==> !(#[trigger] ops[i] matches Op::Context(
                Command::VsShaderResource(_),
            )),
    ensures
        replay(b, ops).vs_surface == b.vs_surface,
    decreases ops.len(),
{
    if ops.len() > 0 {
        let op = ops[0];
        assert(bound(b, op).vs_surface == b.vs_surface);
        assert forall|i: int| 0 <= i < ops.drop_first().len() implies !(
        #[trigger] ops.drop_first()[i] matches Op::Context(Command::VsShaderResource(_))) by {
            assert(ops.drop_first()[i] == ops[i + 1]);
        }
        lemma_vertex_surface(bound(b, op), ops.drop_first());
    }
}

/// A pass that reads one thing and draws into another is set up: the frame's constants and its
/// own, its shaders, its sampler and its viewport are bound, its four vertices make a strip, and
/// its pixels replace what was there.
pub open spec fn set_up(
    b: Bindings,
    module: ShaderModule,
    source: Surface,
    target: Target,
    area: DrawArea,
    params: Params,
) -> bool {
    &&& b.vs_buffers[0] == Some(ConstantBuffer::Globals)
    &&& b.ps_buffers[0] == Some(ConstantBuffer::Globals)
    &&& b.vs_buffers[1] == Some(ConstantBuffer::Params)
    &&& b.ps_buffers[1] == Some(ConstantBuffer::Params)
    &&& b.ps_surface == Some(source)
    &&& b.ps_sampler
    &&& b.target == Some(target)
    &&& b.vs_shader == Some(module)
    &&& b.ps_shader == Some(module)
    &&& b.area == area
    &&& b.params == Some(params)
    &&& b.strip
    &&& b.replaces
}

/// The shape of the program: where its steps can fail and what they do to the vertex stage.
proof fn lemma_program_shape(
    blur: BackdropBlur,
    plan: BlurPlan,
    layout: ScratchLayout,
    window: Seq<u32>,
)
    ensures
        ({
            let ops = program_of(blur, plan, layout, window);
            &&& ops.len() == 53
            &&& forall|i: int| 0 <= i < 5 ==> #[trigger] ops[i] is Context
            &&& ops[5] is Capture
            &&& forall|i: int| 6 <= i < 45 ==> !(#[trigger] ops[i] is Capture)
            &&& forall|i: int| 45 <= i < 53 ==> #[trigger] ops[i] is Context
            &&& forall|i: int|
                6 <= i < 53 ==> !(#[trigger] ops[i] matches Op::Context(
                    Command::VsShaderResource(_),
                ))
            &&& ops.subrange(45, 53) == restore_ops()
        }),
{
    let ops = program_of(blur, plan, layout, window);
    assert(ops.subrange(45, 53) =~= restore_ops());
}

/// The program from any state: what is bound after each pass, and that nothing is ever mixed.
proof fn lemma_program(
    b: Bindings,
    blur: BackdropBlur,
    plan: BlurPlan,
    layout: ScratchLayout,
    window: Seq<u32>,
)
    ensures
        ({
            let ops = program_of(blur, plan, layout, window);
            let region = copy_box_of(plan, layout, window);
            let first = params_of(blur, region, layout, across(plan, layout));
            let second = params_of(blur, region, layout, down(plan, layout));
            &&& unmixed(b) ==> stays_unmixed(b, ops)
            &&& replay(b, ops.take(6)) == Bindings {
                vs_buffers: b.vs_buffers.insert(0, Some(ConstantBuffer::Globals)),
                ps_buffers: b.ps_buffers.insert(0, Some(ConstantBuffer::Globals)),
                vs_surface: None,
                ps_surface: None,
                target: None,
                ..b
            }
            &&& set_up(
                replay(b, ops.take(19)),
                ShaderModule::BackdropPass,
                Surface::Snapshot,
                Target::Scratch(Surface::Horizontal),
                region_of(layout.narrow(), layout.height as int),
                first,
            )
            &&& set_up(
                replay(b, ops.take(32)),
                ShaderModule::BackdropPass,
                Surface::Horizontal,
                Target::Scratch(Surface::Vertical),
                region_of(layout.narrow(), layout.low()),
                second,
            )
            &&& set_up(
                replay(b, ops.take(45)),
                ShaderModule::BackdropComposite,
                Surface::Vertical,
                Target::Main,
                DrawArea::Main,
                second,
            )
        }),
{
    let ops = program_of(blur, plan, layout, window);
    let region = copy_box_of(plan, layout, window);
    let first = params_of(blur, region, layout, across(plan, layout));
    let second = params_of(blur, region, layout, down(plan, layout));
    let wide = region_of(layout.narrow(), layout.height as int);
    let small = region_of(layout.narrow(), layout.low());
    let horizontal = Target::Scratch(Surface::Horizontal);
    let vertical = Target::Scratch(Surface::Vertical);
    let module = ShaderModule::BackdropPass;
    let composite = ShaderModule::BackdropComposite;
    let p0 = capture_ops(region);
    let p1 = pass_ops(module, Surface::Snapshot, horizontal, wide, first);
    let p2 = pass_ops(module, Surface::Horizontal, vertical, small, second);
    let p3 = pass_ops(composite, Surface::Vertical, Target::Main, DrawArea::Main, second);
    lemma_capture(b, region);
    let b0 = replay(b, p0);
    lemma_pass(b0, module, Surface::Snapshot, horizontal, wide, first);
    let b1 = replay(b0, p1);
    lemma_pass(b1, module, Surface::Horizontal, vertical, small, second);
    let b2 = replay(b1, p2);
    lemma_pass(b2, composite, Surface::Vertical, Target::Main, DrawArea::Main, second);
    let b3 = replay(b2, p3);
    lemma_restore(b3);
    lemma_replay_concat(b, p0, p1);
    lemma_replay_concat(b, p0 + p1, p2);
    lemma_replay_concat(b, p0 + p1 + p2, p3);
    lemma_replay_concat(b, p0 + p1 + p2 + p3, restore_ops());
    assert(ops.take(6) =~= p0);
    assert(ops.take(19) =~= p0 + p1);
    assert(ops.take(32) =~= p0 + p1 + p2);
    assert(ops.take(45) =~= p0 + p1 + p2 + p3);
}

/// Once the pixels have been captured, a blur leaves the main target and its viewport bound and
/// nothing of its own, wherever its uploads fail. Without a target to capture from it binds
/// nothing of its own either: it has unbound what shaders read and the target, and bound the
/// frame's constants.
pub proof fn law_context_is_restored(
    b: Bindings,
    blur: BackdropBlur,
    plan: BlurPlan,
    layout: ScratchLayout,
    window: Seq<u32>,
    script: spec_fn(int) -> bool,
)
    ensures
        ({
            let ops = program_of(blur, plan, layout, window);
            let end = replay(b, performed(ops, 0, script));
            &&& ops[5] is Capture
            &&& script(5) ==> restored(end)
            &&& !script(5) ==> end == Bindings {
                vs_buffers: b.vs_buffers.insert(0, Some(ConstantBuffer::Globals)),
                ps_buffers: b.ps_buffers.insert(0, Some(ConstantBuffer::Globals)),
                vs_surface: None,
                ps_surface: None,
                target: None,
                ..b
            }
        }),
{
    lemma_run(b, blur, plan, layout, window, script);
}

/// No step of a blur reads and draws into the same surface, wherever its steps fail.
pub proof fn law_reading_and_drawing_stay_apart(
    b: Bindings,
    blur: BackdropBlur,
    plan: BlurPlan,
    layout: ScratchLayout,
    window: Seq<u32>,
    script: spec_fn(int) -> bool,
)
    requires
        unmixed(b),
    ensures
        stays_unmixed(b, performed(program_of(blur, plan, layout, window), 0, script)),
{
    lemma_run(b, blur, plan, layout, window, script);
}

/// Three draws, each from what the one before drew: the snapshot into the horizontal surface,
/// that into the vertical one, and that into the main target. Whatever was bound before the blur,
/// each draw has everything it needs, its own viewport and parameters among it. Nothing is bound
/// to be read or drawn into when the pixels are captured.
pub proof fn law_passes_chain(
    b: Bindings,
    blur: BackdropBlur,
    plan: BlurPlan,
    layout: ScratchLayout,
    window: Seq<u32>,
)
    ensures
        ({
            let ops = program_of(blur, plan, layout, window);
            let draw = Op::Context(Command::Draw { vertices: 4, first: 0 });
            let captured = replay(b, ops.take(5));
            let region = copy_box_of(plan, layout, window);
            let first = params_of(blur, region, layout, across(plan, layout));
            let second = params_of(blur, region, layout, down(plan, layout));
            &&& ops[5] == Op::Capture(region)
            &&& captured.target is None
            &&& captured.vs_surface is None
            &&& captured.ps_surface is None
            &&& ops[18] == draw
            &&& set_up(
                replay(b, ops.take(18)),
                ShaderModule::BackdropPass,
                Surface::Snapshot,
                Target::Scratch(Surface::Horizontal),
                region_of(layout.narrow(), layout.height as int),
                first,
            )
            &&& ops[31] == draw
            &&& set_up(
                replay(b, ops.take(31)),
                ShaderModule::BackdropPass,
                Surface::Horizontal,
                Target::Scratch(Surface::Vertical),
                region_of(layout.narrow(), layout.low()),
                second,
            )
            &&& ops[44] == draw
            &&& set_up(
                replay(b, ops.take(44)),
                ShaderModule::BackdropComposite,
                Surface::Vertical,
                Target::Main,
                DrawArea::Main,
                second,
            )
            &&& forall|i: int|
                0 <= i < ops.len() && i != 18 && i != 31 && i != 44 ==> !(
                #[trigger] ops[i] matches Op::Context(Command::Draw { .. }))
        }),
{
    let ops = program_of(blur, plan, layout, window);
    lemma_program(b, blur, plan, layout, window);
    lemma_program_shape(blur, plan, layout, window);
    lemma_last(b, ops, 5);
    lemma_last(b, ops, 18);
    lemma_last(b, ops, 31);
    lemma_last(b, ops, 44);
}

/// Where nothing fails, every step is performed, once and in order. The first step that fails is
/// the last before the restoring ones, the last eight; a capture that fails is the last of all.
pub proof fn law_steps_are_performed_in_order(
    blur: BackdropBlur,
    plan: BlurPlan,
    layout: ScratchLayout,
    window: Seq<u32>,
    script: spec_fn(int) -> bool,
    stop: int,
)
    requires
        0 <= stop <= 53,
        forall|i: int| 0 <= i < stop ==> #[trigger] script(i),
    ensures
        ({
            let ops = program_of(blur, plan, layout, window);
            let run = performed(ops, 0, script);
            &&& stop == 53 ==> run == ops
            &&& stop < 53 && !script(stop) && ops[stop] is Capture ==> run == ops.take(stop + 1)
            &&& stop < 53 && !script(stop) && ops[stop] is Upload ==> run == ops.take(stop + 1)
                + ops.skip(45)
        }),
{
    let ops = program_of(blur, plan, layout, window);
    lemma_program_shape(blur, plan, layout, window);
    assert forall|i: int| 0 <= i < stop implies #[trigger] ops[i] is Context || script(i) by {
        assert(script(i));
    }
    lemma_performed_head(ops, 0, stop, script);
    assert(ops.subrange(0, stop) =~= ops.take(stop));
    if stop == 53 {
        assert(performed(ops, 53, script) =~= Seq::<Op>::empty());
        assert(ops.take(53) + Seq::<Op>::empty() =~= ops);
    } else if !script(stop) && ops[stop] is Capture {
        assert(performed(ops, ops.len() as int, script) =~= Seq::<Op>::empty());
        assert(performed(ops, 0, script) =~= ops.take(stop + 1));
    } else if !script(stop) && ops[stop] is Upload {
        lemma_performed_head(ops, 45, 53, script);
        assert(performed(ops, 53, script) =~= Seq::<Op>::empty());
        assert(next_step(ops, stop, false) == 45);
        assert(performed(ops, 0, script) =~= ops.take(stop + 1) + ops.skip(45));
    }
}

/// Nothing is bound to be read whenever the target changes.
pub proof fn law_nothing_is_read_while_targets_change(
    b: Bindings,
    blur: BackdropBlur,
    plan: BlurPlan,
    layout: ScratchLayout,
    window: Seq<u32>,
    i: int,
)
    requires
        0 <= i < program_of(blur, plan, layout, window).len(),
        program_of(blur, plan, layout, window)[i] matches Op::Context(Command::RenderTarget(_)),
    ensures
        replay(b, program_of(blur, plan, layout, window).take(i)).ps_surface is None,
{
    let ops = program_of(blur, plan, layout, window);
    lemma_program_shape(blur, plan, layout, window);
    assert(i == 4 || i == 8 || i == 21 || i == 34 || i == 51);
    if i == 51 {
        lemma_last(b, ops, 45);
        lemma_last(b, ops, 46);
        lemma_last(b, ops, 47);
        lemma_last(b, ops, 48);
        lemma_last(b, ops, 49);
        lemma_last(b, ops, 50);
    } else {
        lemma_last(b, ops, i - 1);
    }
}

/// The state before and after one step of a sequence.
proof fn lemma_last(b: Bindings, ops: Seq<Op>, i: int)
    requires
        0 <= i < ops.len(),
    ensures
        replay(b, ops.take(i + 1)) == bound(replay(b, ops.take(i)), ops[i]),
{
    assert(ops.take(i + 1) =~= ops.take(i) + seq![ops[i]]);
    lemma_replay_concat(b, ops.take(i), seq![ops[i]]);
    reveal_with_fuel(replay, 2);
    assert(seq![ops[i]].drop_first() =~= Seq::<Op>::empty());
}

/// A run of a blur under any script.
proof fn lemma_run(
    b: Bindings,
    blur: BackdropBlur,
    plan: BlurPlan,
    layout: ScratchLayout,
    window: Seq<u32>,
    script: spec_fn(int) -> bool,
)
    ensures
        ({
            let ops = program_of(blur, plan, layout, window);
            let run = performed(ops, 0, script);
            &&& ops[5] is Capture
            &&& script(5) ==> restored(replay(b, run))
            &&& !script(5) ==> replay(b, run) == replay(b, ops.take(6))
            &&& replay(b, ops.take(6)) == Bindings {
                vs_buffers: b.vs_buffers.insert(0, Some(ConstantBuffer::Globals)),
                ps_buffers: b.ps_buffers.insert(0, Some(ConstantBuffer::Globals)),
                vs_surface: None,
                ps_surface: None,
                target: None,
                ..b
            }
            &&& unmixed(b) ==> stays_unmixed(b, run)
        }),
{
    let ops = program_of(blur, plan, layout, window);
    let run = performed(ops, 0, script);
    lemma_program(b, blur, plan, layout, window);
    lemma_program_shape(blur, plan, layout, window);
    lemma_performed_head(ops, 0, 5, script);
    if script(5) {
        let stop = lemma_performed_tail(ops, 6, script);
        let prefix = ops.take(stop);
        assert(run =~= prefix + restore_ops());
        lemma_replay_concat(b, prefix, restore_ops());
        lemma_restore(replay(b, prefix));
        assert(prefix =~= ops.take(6) + ops.subrange(6, stop));
        lemma_replay_concat(b, ops.take(6), ops.subrange(6, stop));
        let passes = ops.subrange(6, stop);
        assert forall|i: int| 0 <= i < passes.len() implies !(
        #[trigger] passes[i] matches Op::Context(Command::VsShaderResource(_))) by {
            assert(passes[i] == ops[i + 6]);
        }
        lemma_vertex_surface(replay(b, ops.take(6)), passes);
        if unmixed(b) {
            assert(ops =~= prefix + ops.skip(stop));
            lemma_replay_concat(b, prefix, ops.skip(stop));
            lemma_unmixed_end(b, prefix);
        }
    } else {
        assert(next_step(ops, 5, false) == ops.len());
        assert(performed(ops, ops.len() as int, script) =~= Seq::<Op>::empty());
        assert(run =~= ops.take(6));
        if unmixed(b) {
            assert(ops =~= ops.take(6) + ops.skip(6));
            lemma_replay_concat(b, ops.take(6), ops.skip(6));
        }
    }
}

} // verus!
