//! The steps of a blur, their order, and how they end.
use backdrop::commands::{
    copy_box, draw_pass, Command, ConstantBuffer, CopyBox, DrawArea, Op, Params, Surface, Target,
    Viewport,
};
use backdrop::device::{
    params_buffer_desc, sampler_desc, texture_request, ShaderModule, RENDER_TARGET_FORMAT,
};
use backdrop::draw::{BackdropDraw, Failure};
use backdrop::geometry::{
    BackdropBlur, Bounds, ContentMask, Corners, Point, Register, ScaledPixels, Size,
};
use backdrop::kernel::gaussian_exponents;
use backdrop::plan::{plan_backdrop_blur, BlurPlan};
use backdrop::resources::ScratchLayout;
use backdrop::single::F32;
use windows::Win32::Graphics::Direct3D11 as d3d;

fn soft(value: f32) -> F32 {
    F32::from_bits(value.to_bits())
}

fn hard(value: F32) -> f32 {
    f32::from_bits(value.to_bits())
}

fn px(value: f32) -> ScaledPixels {
    ScaledPixels(soft(value))
}

fn register(x: f32, y: f32, z: f32, w: f32) -> Register {
    Register { x: soft(x), y: soft(y), z: soft(z), w: soft(w) }
}

fn bounds(x: f32, y: f32, width: f32, height: f32) -> Bounds {
    Bounds::new(
        Point { x: px(x), y: px(y) },
        Size { width: px(width), height: px(height) },
    )
}

fn blur() -> BackdropBlur {
    BackdropBlur {
        order: 1,
        blur_radius: px(16.),
        bounds: bounds(166., 108., 24., 20.),
        content_mask: ContentMask { bounds: bounds(0., 0., 193., 131.) },
        corner_radii: Corners {
            top_left: px(1.),
            top_right: px(2.),
            bottom_right: px(3.),
            bottom_left: px(4.),
        },
    }
}

fn plan() -> BlurPlan {
    plan_backdrop_blur(&blur(), 193, 131).unwrap()
}

const LAYOUT: ScratchLayout = ScratchLayout { width: 128, height: 131, downsample: 2 };

fn draw() -> BackdropDraw {
    let taps: Vec<F32> =
        gaussian_exponents(plan().sigma).iter().map(|e| soft(hard(*e).exp())).collect();
    BackdropDraw::new(&blur(), &plan(), &LAYOUT, [193, 131], &taps)
}

/// Performs a blur whose `fail`-th step that can fail does.
fn perform(fail: Option<usize>) -> (Vec<Op>, Option<Failure>) {
    let mut run = draw();
    let mut performed: Vec<Op> = Vec::new();
    let mut fallible = 0;
    while let Some(op) = run.current() {
        performed.push(op);
        let mut ok = true;
        if !matches!(op, Op::Context(_)) {
            ok = fail != Some(fallible);
            fallible += 1;
        }
        run.report(ok);
    }
    (performed, run.failure())
}

fn restoring() -> Vec<Op> {
    vec![
        Op::Context(Command::PsShaderResource(None)),
        Op::Context(Command::VsConstantBuffer { slot: 1, buffer: None }),
        Op::Context(Command::PsConstantBuffer { slot: 1, buffer: None }),
        Op::Context(Command::PsSampler { bound: false }),
        Op::Context(Command::VsShader(None)),
        Op::Context(Command::PsShader(None)),
        Op::Context(Command::RenderTarget(Some(Target::Main))),
        Op::Context(Command::SetViewport(DrawArea::Main)),
    ]
}

fn params(kernel: Register) -> Params {
    Params {
        bounds: register(166., 108., 24., 20.),
        corners: register(1., 2., 3., 4.),
        clip: register(0., 0., 193., 131.),
        source: register(65., 0., 128., 131.),
        kernel,
    }
}

fn area(width: f32, height: f32) -> DrawArea {
    DrawArea::Region(Viewport {
        left: soft(0.),
        top: soft(0.),
        width: soft(width),
        height: soft(height),
        min_depth: soft(0.),
        max_depth: soft(1.),
    })
}

fn whole() -> Vec<Op> {
    let mut ops = vec![
        Op::Context(Command::VsConstantBuffer { slot: 0, buffer: Some(ConstantBuffer::Globals) }),
        Op::Context(Command::PsConstantBuffer { slot: 0, buffer: Some(ConstantBuffer::Globals) }),
        Op::Context(Command::VsShaderResource(None)),
        Op::Context(Command::PsShaderResource(None)),
        Op::Context(Command::RenderTarget(None)),
        Op::Capture(CopyBox { left: 65, top: 0, front: 0, right: 193, bottom: 131, back: 1 }),
    ];
    let across = params(register(1. / 128., 0., 16., 2.));
    let down = params(register(0., 1. / 131., 16., 2.));
    ops.extend(draw_pass(
        ShaderModule::BackdropPass,
        Surface::Snapshot,
        Target::Scratch(Surface::Horizontal),
        area(64., 131.),
        across,
    ));
    ops.extend(draw_pass(
        ShaderModule::BackdropPass,
        Surface::Horizontal,
        Target::Scratch(Surface::Vertical),
        area(64., 66.),
        down,
    ));
    ops.extend(draw_pass(
        ShaderModule::BackdropComposite,
        Surface::Vertical,
        Target::Main,
        DrawArea::Main,
        down,
    ));
    ops.extend(restoring());
    ops
}

#[test]
fn a_blur_captures_filters_twice_composites_and_restores() {
    let (performed, failure) = perform(None);
    assert_eq!(performed, whole());
    assert_eq!(failure, None);
}

#[test]
fn a_pass_uploads_binds_and_draws_four_vertices() {
    let sent = params(register(0., 0., 1., 1.));
    let ops = draw_pass(
        ShaderModule::BackdropPass,
        Surface::Snapshot,
        Target::Scratch(Surface::Horizontal),
        DrawArea::Main,
        sent,
    );
    assert_eq!(
        ops,
        vec![
            Op::Upload(sent),
            Op::Context(Command::PsShaderResource(None)),
            Op::Context(Command::RenderTarget(Some(Target::Scratch(Surface::Horizontal)))),
            Op::Context(Command::PsShaderResource(Some(Surface::Snapshot))),
            Op::Context(Command::VsConstantBuffer {
                slot: 1,
                buffer: Some(ConstantBuffer::Params),
            }),
            Op::Context(Command::PsConstantBuffer {
                slot: 1,
                buffer: Some(ConstantBuffer::Params),
            }),
            Op::Context(Command::PsSampler { bound: true }),
            Op::Context(Command::SetViewport(DrawArea::Main)),
            Op::Context(Command::TriangleStrip),
            Op::Context(Command::VsShader(Some(ShaderModule::BackdropPass))),
            Op::Context(Command::PsShader(Some(ShaderModule::BackdropPass))),
            Op::Context(Command::ReplaceBlend),
            Op::Context(Command::Draw { vertices: 4, first: 0 }),
        ]
    );
}

#[test]
fn a_failed_upload_skips_to_the_restoring_steps() {
    for (fail, at) in [(1, 6), (2, 19), (3, 32)] {
        let (performed, failure) = perform(Some(fail));
        let mut expected = whole()[..=at].to_vec();
        expected.extend(restoring());
        assert_eq!(performed, expected);
        assert!(matches!(performed[at], Op::Upload(_)));
        assert_eq!(failure, Some(Failure::UploadFailed));
    }
}

#[test]
fn a_missing_target_ends_the_blur_at_the_capture() {
    let (performed, failure) = perform(Some(0));
    assert_eq!(performed, whole()[..6].to_vec());
    assert_eq!(failure, Some(Failure::TargetMissing));
}

#[test]
fn no_step_reads_what_it_draws_into() {
    for fail in [None, Some(0), Some(1), Some(2), Some(3)] {
        let mut read: Option<Surface> = None;
        let mut target: Option<Target> = None;
        for op in perform(fail).0 {
            match op {
                Op::Context(Command::PsShaderResource(surface)) => read = surface,
                Op::Context(Command::RenderTarget(bound)) => target = bound,
                _ => {}
            }
            if let (Some(surface), Some(Target::Scratch(drawn))) = (read, target) {
                assert_ne!(surface, drawn);
            }
        }
        if fail != Some(0) {
            assert_eq!((read, target), (None, Some(Target::Main)));
        }
    }
}

#[test]
fn snapshots_are_filled_from_inside_the_window() {
    let layout = ScratchLayout { width: 64, height: 64, downsample: 1 };
    let cases = [
        ([155, 97, 193, 131], [129, 67, 193, 131]),
        ([0, 0, 32, 29], [0, 0, 64, 64]),
        ([69, 49, 99, 80], [69, 49, 133, 113]),
    ];
    for ([left, top, right, bottom], [x0, y0, x1, y1]) in cases {
        let wanted = BlurPlan { sigma: soft(3.), downsample: 1, left, top, right, bottom };
        let region = copy_box(&wanted, &layout, [193, 131]);
        assert_eq!(
            region,
            CopyBox { left: x0, top: y0, front: 0, right: x1, bottom: y1, back: 1 }
        );
        assert!(region.left <= left && right <= region.right);
        assert!(region.top <= top && bottom <= region.bottom);
    }
}

#[test]
fn uploads_hold_five_registers_and_the_weights() {
    let sent = params(register(1. / 128., 0., 16., 2.));
    let words = draw().constants(&sent);
    assert_eq!(words.len() as u32 * 4, params_buffer_desc().byte_width);
    let fields = [
        166., 108., 24., 20., 1., 2., 3., 4., 0., 0., 193., 131., 65., 0., 128., 131., 0.0078125,
        0., 16., 2.,
    ];
    for (word, field) in words.iter().zip(fields.iter()) {
        assert_eq!(f32::from_bits(*word), *field as f32);
    }
    // The centre weight of a kernel of sigma 16 is close to 1 / (16 * sqrt(2 pi)).
    assert!((f32::from_bits(words[20]) - 0.02493).abs() < 2e-4);
    // Its reach is 48; the lanes after are empty.
    assert!(f32::from_bits(words[20 + 48]) > 0.);
    assert!(words[20 + 49..].iter().all(|word| *word == 0));
}

#[test]
fn numbers_are_those_of_the_device_interface() {
    let desc = texture_request(8, 9, true).desc;
    assert_eq!(desc.usage as i32, d3d::D3D11_USAGE_DEFAULT.0);
    assert_eq!(
        desc.bind_flags as i32,
        d3d::D3D11_BIND_SHADER_RESOURCE.0 | d3d::D3D11_BIND_RENDER_TARGET.0
    );
    assert_eq!(
        texture_request(8, 9, false).desc.bind_flags as i32,
        d3d::D3D11_BIND_SHADER_RESOURCE.0
    );
    assert_eq!(
        RENDER_TARGET_FORMAT as i32,
        windows::Win32::Graphics::Dxgi::Common::DXGI_FORMAT_B8G8R8A8_UNORM.0
    );
    let buffer = params_buffer_desc();
    assert_eq!(buffer.usage as i32, d3d::D3D11_USAGE_DYNAMIC.0);
    assert_eq!(buffer.bind_flags as i32, d3d::D3D11_BIND_CONSTANT_BUFFER.0);
    assert_eq!(buffer.cpu_access_flags as i32, d3d::D3D11_CPU_ACCESS_WRITE.0);
    let sampler = sampler_desc();
    assert_eq!(sampler.filter as i32, d3d::D3D11_FILTER_MIN_MAG_MIP_LINEAR.0);
    assert_eq!(sampler.address_u as i32, d3d::D3D11_TEXTURE_ADDRESS_CLAMP.0);
    assert_eq!(sampler.address_v as i32, d3d::D3D11_TEXTURE_ADDRESS_CLAMP.0);
    assert_eq!(sampler.address_w as i32, d3d::D3D11_TEXTURE_ADDRESS_CLAMP.0);
    assert_eq!(sampler.comparison as i32, d3d::D3D11_COMPARISON_ALWAYS.0);
    assert_eq!(hard(sampler.max_lod), d3d::D3D11_FLOAT32_MAX);
    assert_eq!(sampler.max_anisotropy, 1);
}
