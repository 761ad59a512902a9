//! Blurs carried out to the last pixel. A small software device plays the part of WARP: it makes
//! what the library asks for, performs its steps, and runs both shader programs from the words
//! that were uploaded.
use backdrop::commands::{Command, ConstantBuffer, DrawArea, Op, Surface, Target};
use backdrop::device::{ShaderModule, ShaderTarget};
use backdrop::draw::{BackdropDraw, DirectXRenderer, FirstStep};
use backdrop::geometry::{
    BackdropBlur, Bounds, ContentMask, Corners, Point, ScaledPixels, Size,
};
use backdrop::kernel::gaussian_exponents;
use backdrop::plan::BlurPlan;
use backdrop::resources::{Backend, BackdropResources, ScratchLayout, ScratchRequest};
use backdrop::setup::{Created, Creation, ResourceSetup};
use backdrop::single::F32;
use backdrop::surfaces::{MadePart, ScratchSetup, TexturePart};

type Pixel = [u8; 4];

fn hard(value: F32) -> f32 {
    f32::from_bits(value.to_bits())
}

fn px(value: f32) -> ScaledPixels {
    ScaledPixels(F32::from_bits(value.to_bits()))
}

fn bounds(x: f32, y: f32, width: f32, height: f32) -> Bounds {
    Bounds::new(
        Point { x: px(x), y: px(y) },
        Size { width: px(width), height: px(height) },
    )
}

fn all_corners(radius: f32) -> Corners {
    Corners {
        top_left: px(radius),
        top_right: px(radius),
        bottom_right: px(radius),
        bottom_left: px(radius),
    }
}

fn blur(order: u32) -> BackdropBlur {
    BackdropBlur {
        order,
        blur_radius: px(3.),
        bounds: bounds(8., 8., 48., 48.),
        content_mask: ContentMask { bounds: bounds(0., 0., 64., 64.) },
        corner_radii: all_corners(8.),
    }
}

#[derive(Clone)]
struct Image {
    width: usize,
    height: usize,
    pixels: Vec<Pixel>,
}

impl Image {
    fn new(width: u32, height: u32, pixel: Pixel) -> Self {
        let (width, height) = (width as usize, height as usize);
        Image { width, height, pixels: vec![pixel; width * height] }
    }
}

/// Textures and their views are places in a list of images.
struct Software;

impl Backend for Software {
    type Texture = usize;
    type ShaderResourceView = usize;
    type RenderTargetView = usize;
    type VertexShader = ShaderModule;
    type PixelShader = ShaderModule;
    type Buffer = u32;
    type Sampler = ();
}

/// What is bound while a blur is drawn.
#[derive(Default)]
struct Bound {
    frame_constants: [bool; 2],
    constants: [bool; 2],
    source: Option<usize>,
    target: Option<Option<usize>>,
    area: Option<[f32; 2]>,
    sampler: bool,
    shaders: [Option<ShaderModule>; 2],
    strip: bool,
    replaces: bool,
    words: Vec<u32>,
}

struct Renderer {
    screen: Image,
    images: Vec<Image>,
    backdrop: Option<BackdropResources<Software>>,
}

impl Renderer {
    fn new(width: u32, height: u32) -> Self {
        Renderer { screen: Image::new(width, height, [0; 4]), images: Vec::new(), backdrop: None }
    }

    fn resize(&mut self, width: u32, height: u32) {
        *self = Renderer::new(width, height);
    }

    /// Starts a frame on a background.
    fn start(&mut self, background: Pixel) {
        self.screen.pixels.fill(background);
        if self.backdrop.as_mut().map_or(false, |backdrop| backdrop.expire()) {
            self.backdrop = None;
        }
    }

    /// Draws the pixels whose centers lie in a rectangle over what is there. Colors are red,
    /// green, blue and alpha, pixels hold blue, green, red and alpha, multiplied by alpha.
    fn quad(&mut self, rect: Bounds, color: [f32; 4]) {
        let [red, green, blue, alpha] = color;
        let first = |edge: ScaledPixels| (hard(edge.0) - 0.5).ceil().max(0.) as usize;
        let (left, right) = (first(rect.origin.x), first(rect.right()));
        let (top, bottom) = (first(rect.origin.y), first(rect.bottom()));
        for y in top..bottom.min(self.screen.height) {
            for x in left..right.min(self.screen.width) {
                let pixel = &mut self.screen.pixels[y * self.screen.width + x];
                let source = [blue * alpha, green * alpha, red * alpha, alpha];
                for c in 0..4 {
                    let under = pixel[c] as f32 / 255.;
                    pixel[c] = ((source[c] + under * (1. - alpha)) * 255.).round() as u8;
                }
            }
        }
    }

    fn surfaces(&mut self, layout: ScratchLayout) -> ScratchSetup<Software> {
        let mut setup: ScratchSetup<Software> = ScratchSetup::start(layout);
        while let Some(part) = setup.request() {
            let made = match part {
                TexturePart::Texture(desc) => {
                    self.images.push(Image::new(desc.width, desc.height, [7; 4]));
                    MadePart::Texture(self.images.len() - 1)
                }
                TexturePart::ShaderResourceView => {
                    MadePart::ShaderResourceView(*setup.texture().unwrap())
                }
                TexturePart::RenderTargetView => {
                    MadePart::RenderTargetView(*setup.texture().unwrap())
                }
            };
            setup = setup.supply(Some(made));
        }
        setup
    }

    fn resources(&self) -> BackdropResources<Software> {
        let mut setup: ResourceSetup<Software> = ResourceSetup::start();
        while let Some(creation) = setup.request() {
            setup = setup.supply(Some(match creation {
                Creation::Shader { module, target: ShaderTarget::Vertex } => {
                    Created::Vertex(module)
                }
                Creation::Shader { module, target: ShaderTarget::Fragment } => {
                    Created::Fragment(module)
                }
                Creation::Params(desc) => Created::Params(desc.byte_width),
                Creation::Sampler(_) => Created::Sampler(()),
            }));
        }
        setup.finish().unwrap()
    }

    fn blur(&mut self, blur: &BackdropBlur) {
        let (width, height) = (self.screen.width as u32, self.screen.height as u32);
        let state = DirectXRenderer {
            width,
            height,
            has_devices: true,
            has_resources: true,
            has_backdrop: self.backdrop.is_some(),
        };
        let plan = match state.draw_backdrop_blur(blur) {
            FirstStep::Skip => return,
            FirstStep::CreateResources(plan) => {
                self.backdrop = Some(self.resources());
                plan
            }
            FirstStep::Draw(plan) => plan,
            step => panic!("{:?}", step),
        };
        let request = self.backdrop.as_mut().unwrap().ensure_scratch(
            plan.width(),
            plan.height(),
            plan.downsample,
            [width, height],
        );
        if let ScratchRequest::Create(layout) = request {
            let setup = self.surfaces(layout);
            assert!(self.backdrop.as_mut().unwrap().install_scratch(setup));
        }
        self.perform(blur, &plan);
    }

    fn perform(&mut self, blur: &BackdropBlur, plan: &BlurPlan) {
        let backdrop = self.backdrop.take().unwrap();
        let scratch = backdrop.scratch.as_ref().unwrap();
        let window = [self.screen.width as u32, self.screen.height as u32];
        let taps: Vec<F32> = gaussian_exponents(plan.sigma)
            .iter()
            .map(|exponent| F32::from_bits(hard(*exponent).exp().to_bits()))
            .collect();
        let mut draw = BackdropDraw::new(blur, plan, &scratch.layout(), window, &taps);
        let mut bound = Bound::default();
        while let Some(op) = draw.current() {
            match op {
                Op::Capture(region) => {
                    assert!(bound.source.is_none() && bound.target.is_none());
                    assert!(region.right <= window[0] && region.bottom <= window[1]);
                    let snapshot = &mut self.images[scratch.snapshot.texture];
                    for y in region.top..region.bottom {
                        for x in region.left..region.right {
                            let from = y as usize * self.screen.width + x as usize;
                            let to = (y - region.top) as usize * snapshot.width
                                + (x - region.left) as usize;
                            snapshot.pixels[to] = self.screen.pixels[from];
                        }
                    }
                }
                Op::Upload(params) => {
                    bound.words = draw.constants(&params);
                    assert_eq!(bound.words.len() as u32 * 4, backdrop.params);
                }
                Op::Context(Command::Draw { vertices, first }) => {
                    assert_eq!((vertices, first), (4, 0));
                    self.shade(&bound);
                }
                Op::Context(command) => {
                    let surface = |surface: Surface| match surface {
                        Surface::Snapshot => &scratch.snapshot,
                        Surface::Horizontal => &scratch.horizontal,
                        Surface::Vertical => &scratch.vertical,
                    };
                    bound.set(command, |s| surface(s).srv, |s| surface(s).rtv.unwrap());
                }
            }
            draw.report(true);
        }
        assert_eq!(draw.failure(), None);
        assert!(bound.source.is_none() && bound.target == Some(None) && bound.area.is_none());
        self.backdrop = Some(backdrop);
    }

    fn shade(&mut self, bound: &Bound) {
        assert_eq!(bound.frame_constants, [true; 2]);
        assert_eq!(bound.constants, [true; 2]);
        assert!(bound.sampler && bound.strip && bound.replaces);
        let source = bound.source.unwrap();
        match (bound.shaders, bound.target.unwrap()) {
            ([Some(ShaderModule::BackdropPass), Some(ShaderModule::BackdropPass)], Some(target)) => {
                assert_ne!(source, target);
                let area = bound.area.unwrap();
                let drawn = filter(&self.images[source], area, &bound.words);
                let image = &mut self.images[target];
                assert_eq!([image.width as f32, image.height as f32], area);
                image.pixels = drawn;
            }
            (
                [Some(ShaderModule::BackdropComposite), Some(ShaderModule::BackdropComposite)],
                None,
            ) => {
                assert!(bound.area.is_none());
                composite(&self.images[source], &mut self.screen, &bound.words);
            }
            other => panic!("{:?}", other),
        }
    }
}

impl Bound {
    fn set(
        &mut self,
        command: Command,
        read: impl Fn(Surface) -> usize,
        drawn: impl Fn(Surface) -> usize,
    ) {
        match command {
            Command::VsConstantBuffer { slot: 0, buffer } => {
                self.frame_constants[0] = buffer == Some(ConstantBuffer::Globals)
            }
            Command::PsConstantBuffer { slot: 0, buffer } => {
                self.frame_constants[1] = buffer == Some(ConstantBuffer::Globals)
            }
            Command::VsConstantBuffer { slot, buffer } => {
                assert_eq!(slot, 1);
                self.constants[0] = buffer == Some(ConstantBuffer::Params);
            }
            Command::PsConstantBuffer { slot, buffer } => {
                assert_eq!(slot, 1);
                self.constants[1] = buffer == Some(ConstantBuffer::Params);
            }
            Command::VsShaderResource(surface) => assert!(surface.is_none()),
            Command::PsShaderResource(surface) => self.source = surface.map(read),
            Command::PsSampler { bound } => self.sampler = bound,
            Command::RenderTarget(target) => {
                self.target = target.map(|target| match target {
                    Target::Main => None,
                    Target::Scratch(surface) => Some(drawn(surface)),
                })
            }
            Command::SetViewport(DrawArea::Main) => self.area = None,
            Command::SetViewport(DrawArea::Region(viewport)) => {
                assert_eq!([hard(viewport.left), hard(viewport.top)], [0.; 2]);
                assert_eq!([hard(viewport.min_depth), hard(viewport.max_depth)], [0., 1.]);
                self.area = Some([hard(viewport.width), hard(viewport.height)]);
            }
            Command::TriangleStrip => self.strip = true,
            Command::VsShader(module) => self.shaders[0] = module,
            Command::PsShader(module) => self.shaders[1] = module,
            Command::ReplaceBlend => self.replaces = true,
            Command::Draw { .. } => unreachable!(),
        }
    }
}

/// The four lanes of a register.
fn register(words: &[u32], index: usize) -> [f32; 4] {
    std::array::from_fn(|lane| f32::from_bits(words[4 * index + lane]))
}

/// The weights of the uploaded table, or, where it is empty, those of the uploaded width.
fn weights(words: &[u32]) -> (i32, Vec<f32>) {
    let sigma = register(words, 4)[2];
    let radius = (sigma * 3.).ceil() as i32;
    if f32::from_bits(words[20]) > 0. {
        return (radius, (0..=radius).map(|k| f32::from_bits(words[20 + k as usize])).collect());
    }
    let taps: Vec<f32> =
        (0..=radius).map(|k| (-(k * k) as f32 / (2. * sigma * sigma)).exp()).collect();
    let total = 2. * taps.iter().sum::<f32>() - 1.;
    (radius, taps.iter().map(|tap| tap / total).collect())
}

/// The program that filters along one axis.
fn filter(source: &Image, area: [f32; 2], words: &[u32]) -> Vec<Pixel> {
    let [step_x, step_y, _, _] = register(words, 4);
    let (radius, weights) = weights(words);
    let (width, height) = (source.width as f32, source.height as f32);
    let mut drawn = Vec::new();
    for j in 0..area[1] as usize {
        for i in 0..area[0] as usize {
            let u = (i as f32 + 0.5) / area[0];
            let v = (j as f32 + 0.5) / area[1];
            let mut sum = [0.; 4];
            for k in -radius..=radius {
                let x = (u + k as f32 * step_x) * width - 0.5;
                let y = (v + k as f32 * step_y) * height - 0.5;
                let value = sample(&source.pixels, source.width, source.height, x, y);
                for c in 0..4 {
                    sum[c] += value[c] * weights[k.unsigned_abs() as usize];
                }
            }
            drawn.push(sum.map(|value| value.round() as u8));
        }
    }
    drawn
}

/// The program that puts the result back.
fn composite(source: &Image, screen: &mut Image, words: &[u32]) {
    let [left, top, width, height] = register(words, 0);
    let corners = register(words, 1);
    let clip = register(words, 2);
    let [from_x, from_y, from_width, from_height] = register(words, 3);
    for y in 0..screen.height {
        for x in 0..screen.width {
            let center = [x as f32 + 0.5, y as f32 + 0.5];
            if !inside(center, [left, top, width, height], corners)
                || !inside(center, clip, [0.; 4])
            {
                continue;
            }
            let u = (center[0] - from_x) / from_width * source.width as f32 - 0.5;
            let v = (center[1] - from_y) / from_height * source.height as f32 - 0.5;
            screen.pixels[y * screen.width + x] =
                sample(&source.pixels, source.width, source.height, u, v)
                    .map(|value| value.round() as u8);
        }
    }
}

/// Whether a point lies in a rounded rectangle.
fn inside([x, y]: [f32; 2], [left, top, width, height]: [f32; 4], corners: [f32; 4]) -> bool {
    if x < left || x > left + width || y < top || y > top + height {
        return false;
    }
    let west = x < left + width / 2.;
    let north = y < top + height / 2.;
    let radius = match (west, north) {
        (true, true) => corners[0],
        (false, true) => corners[1],
        (false, false) => corners[2],
        (true, false) => corners[3],
    };
    let dx = if west { left + radius - x } else { x - (left + width - radius) };
    let dy = if north { top + radius - y } else { y - (top + height - radius) };
    dx <= 0. || dy <= 0. || dx.hypot(dy) <= radius
}

/// Linear sampling between texel centers, clamped to the edge.
fn sample(image: &[Pixel], width: usize, height: usize, x: f32, y: f32) -> [f32; 4] {
    let x = x.clamp(0., (width - 1) as f32);
    let y = y.clamp(0., (height - 1) as f32);
    let x0 = x.floor() as usize;
    let y0 = y.floor() as usize;
    let x1 = (x0 + 1).min(width - 1);
    let y1 = (y0 + 1).min(height - 1);
    let tx = x - x0 as f32;
    let ty = y - y0 as f32;
    std::array::from_fn(|c| {
        let top =
            image[y0 * width + x0][c] as f32 * (1. - tx) + image[y0 * width + x1][c] as f32 * tx;
        let bottom =
            image[y1 * width + x0][c] as f32 * (1. - tx) + image[y1 * width + x1][c] as f32 * tx;
        top * (1. - ty) + bottom * ty
    })
}

/// The blur of a whole image, worked out from its meaning: one Gaussian tap after the other,
/// without snapshots, tables or parameter buffers.
fn cpu_blur(image: &[Pixel], width: usize, height: usize, blur: &BackdropBlur) -> Vec<Pixel> {
    let sigma = hard(blur.blur_radius.0).clamp(1., 64.);
    let stride = ((sigma / 8.) as usize).clamp(1, 4);
    let bw = width.div_ceil(stride);
    let bh = height.div_ceil(stride);
    let radius = (sigma * 3.).ceil() as i32;
    let weights: Vec<f32> =
        (-radius..=radius).map(|k| (-(k * k) as f32 / (2. * sigma * sigma)).exp()).collect();
    let total: f32 = weights.iter().sum();
    let mut horizontal = Vec::with_capacity(bw * height);
    let mut vertical = Vec::with_capacity(bw * bh);
    for y in 0..height {
        for x in 0..bw {
            let mut sum = [0.; 4];
            for (k, weight) in (-radius..=radius).zip(&weights) {
                let at = (x as f32 + 0.5) * width as f32 / bw as f32 - 0.5 + k as f32;
                let value = sample(image, width, height, at, y as f32);
                for c in 0..4 {
                    sum[c] += value[c] * weight / total;
                }
            }
            horizontal.push(sum.map(|v| v.round() as u8));
        }
    }
    for y in 0..bh {
        for x in 0..bw {
            let mut sum = [0.; 4];
            for (k, weight) in (-radius..=radius).zip(&weights) {
                let at = (y as f32 + 0.5) * height as f32 / bh as f32 - 0.5 + k as f32;
                let value = sample(&horizontal, bw, height, x as f32, at);
                for c in 0..4 {
                    sum[c] += value[c] * weight / total;
                }
            }
            vertical.push(sum.map(|v| v.round() as u8));
        }
    }
    let mut result = image.to_vec();
    let rect = blur.bounds;
    let clip = rect.intersect(&blur.content_mask.bounds);
    let left_edge = hard(rect.origin.x.0);
    let top_edge = hard(rect.origin.y.0);
    let right_edge = hard(rect.right().0);
    let bottom_edge = hard(rect.bottom().0);
    for y in 0..height {
        for x in 0..width {
            let px = x as f32 + 0.5;
            let py = y as f32 + 0.5;
            if px < hard(clip.origin.x.0)
                || px > hard(clip.right().0)
                || py < hard(clip.origin.y.0)
                || py > hard(clip.bottom().0)
            {
                continue;
            }
            let left = px < (left_edge + right_edge) / 2.;
            let top = py < (top_edge + bottom_edge) / 2.;
            let radius = hard(match (left, top) {
                (true, true) => blur.corner_radii.top_left.0,
                (false, true) => blur.corner_radii.top_right.0,
                (false, false) => blur.corner_radii.bottom_right.0,
                (true, false) => blur.corner_radii.bottom_left.0,
            });
            let cx = if left { left_edge + radius } else { right_edge - radius };
            let cy = if top { top_edge + radius } else { bottom_edge - radius };
            if (left && px < cx || !left && px > cx)
                && (top && py < cy || !top && py > cy)
                && (px - cx).hypot(py - cy) > radius
            {
                continue;
            }
            result[y * width + x] = sample(
                &vertical,
                bw,
                bh,
                px * bw as f32 / width as f32 - 0.5,
                py * bh as f32 / height as f32 - 0.5,
            )
            .map(|v| v.round() as u8);
        }
    }
    result
}

fn assert_pixels(actual: &[Pixel], expected: &[Pixel], tolerance: u8) {
    assert_eq!(actual.len(), expected.len());
    for (index, (actual, expected)) in actual.iter().zip(expected).enumerate() {
        for c in 0..4 {
            assert!(
                actual[c].abs_diff(expected[c]) <= tolerance,
                "pixel {} channel {}: actual {:?}, expected {:?}",
                index,
                c,
                actual,
                expected
            );
        }
    }
}

const WHITE: Pixel = [255; 4];

fn gray(lightness: f32, alpha: f32) -> [f32; 4] {
    [lightness, lightness, lightness, alpha]
}

fn checkerboard(renderer: &mut Renderer) {
    for y in 0..16 {
        for x in 0..16 {
            renderer.quad(
                bounds((x * 4) as f32, (y * 4) as f32, 4., 4.),
                gray(((x + y) % 2) as f32, 1.),
            );
        }
    }
}

#[test]
fn warp_backdrop_blurs_pixels() {
    let mut renderer = Renderer::new(64, 64);
    renderer.start(WHITE);
    renderer.quad(bounds(0., 0., 32., 64.), gray(0., 1.));
    renderer.quad(bounds(32., 0., 32., 64.), gray(1., 1.));
    let sharp = renderer.screen.pixels.clone();
    renderer.blur(&blur(1));
    let blurred = &renderer.screen.pixels;
    assert_eq!(sharp[32 * 64 + 31][0], 0);
    assert!(
        blurred[32 * 64 + 31][0] > 50,
        "backdrop should soften black/white boundary: {:?}",
        blurred[32 * 64 + 31]
    );
    assert!(blurred[32 * 64 + 32][0] < 205);
    assert_eq!(
        blurred[2 * 64 + 31],
        sharp[2 * 64 + 31],
        "outside blur remains untouched"
    );
}

#[test]
fn warp_nested_backdrops_match_sequential_reference() {
    let mut renderer = Renderer::new(64, 64);
    renderer.start(WHITE);
    checkerboard(&mut renderer);
    let original = renderer.screen.pixels.clone();
    let parent = blur(1);
    let child = BackdropBlur {
        order: 3,
        bounds: bounds(16., 16., 32., 32.),
        content_mask: ContentMask { bounds: bounds(20., 18., 24., 28.) },
        corner_radii: all_corners(9.),
        ..blur(3)
    };
    let mut expected = cpu_blur(&original, 64, 64, &parent);
    // Intervening content must be in the child's fresh snapshot.
    for y in 0..64 {
        for x in 30..34 {
            expected[y * 64 + x] = [0, 0, 255, 255];
        }
    }
    expected = cpu_blur(&expected, 64, 64, &child);
    // Foreground at the child's exact order must remain sharp.
    for y in 28..36 {
        for x in 28..36 {
            expected[y * 64 + x] = [0, 255, 0, 255];
        }
    }
    renderer.blur(&parent);
    renderer.quad(bounds(30., 0., 4., 64.), [1., 0., 0., 1.]);
    renderer.blur(&child);
    renderer.quad(bounds(28., 28., 8., 8.), [0., 1., 0., 1.]);
    assert_pixels(&renderer.screen.pixels, &expected, 2);
}

#[test]
fn warp_backdrop_preserves_premultiplied_alpha() {
    let mut renderer = Renderer::new(64, 64);
    renderer.start([0; 4]);
    renderer.quad(bounds(0., 0., 32., 64.), [1., 0., 0., 0.5]);
    let original = renderer.screen.pixels.clone();
    let expected = cpu_blur(&original, 64, 64, &blur(1));
    renderer.blur(&blur(1));
    let actual = &renderer.screen.pixels;
    assert_pixels(actual, &expected, 2);
    assert_eq!(
        actual[32 * 64 + 16][3],
        original[32 * 64 + 16][3],
        "replacement must not accumulate alpha"
    );
    for pixel in actual {
        assert!(
            pixel[2] <= pixel[3] + 1,
            "premultiplied red cannot exceed alpha"
        );
    }
}

#[test]
fn warp_backdrop_downsampling_and_large_kernel() {
    let mut renderer = Renderer::new(65, 67);
    let original: Vec<Pixel> = (0..67)
        .flat_map(|y| {
            (0..65).map(move |x| {
                [(x * 3) as u8, (y * 3) as u8, if x < 32 { 0 } else { 255 }, 255]
            })
        })
        .collect();
    for sigma in [0., 2.5, 16., 24., 32., 64., 180., f32::MAX] {
        renderer.start([0; 4]);
        renderer.screen.pixels = original.clone();
        let region = BackdropBlur {
            blur_radius: px(sigma),
            bounds: bounds(0., 0., 65., 67.),
            content_mask: ContentMask { bounds: bounds(0., 0., 65., 67.) },
            corner_radii: all_corners(0.),
            ..blur(0)
        };
        renderer.blur(&region);
        assert_pixels(&renderer.screen.pixels, &cpu_blur(&original, 65, 67, &region), 2);
    }
}

#[test]
fn warp_backdrop_clipped_and_blur_only_frames() {
    let mut renderer = Renderer::new(64, 64);
    renderer.start(WHITE);
    renderer.blur(&BackdropBlur { bounds: bounds(-100., -100., 8., 8.), ..blur(0) });
    assert!(renderer.backdrop.is_none(), "offscreen blur allocates nothing");
    for sigma in [f32::NAN, f32::INFINITY, f32::NEG_INFINITY] {
        renderer.start(WHITE);
        renderer.blur(&BackdropBlur { blur_radius: px(sigma), ..blur(0) });
        assert!(renderer.backdrop.is_none());
    }
    // One frame draws any number of blurs.
    renderer.start(WHITE);
    for order in 0..40 {
        renderer.blur(&blur(order));
    }
    assert!(renderer.screen.pixels.iter().all(|pixel| *pixel == [255; 4]));
}

#[test]
fn warp_backdrop_reuses_cropped_snapshot_at_window_edges() {
    let mut renderer = Renderer::new(193, 131);
    renderer.start([0; 4]);
    let original: Vec<Pixel> = (0..131)
        .flat_map(|y| {
            (0..193).map(move |x| {
                [
                    (x % 256) as u8,
                    (y % 256) as u8,
                    if (x / 4 + y / 4) % 2 == 0 { 0 } else { 255 },
                    255,
                ]
            })
        })
        .collect();
    renderer.screen.pixels = original.clone();
    let mut expected = original;
    for rect in [
        bounds(166., 108., 24., 20.),
        bounds(0., 0., 21., 18.),
        bounds(80., 60., 8., 9.),
    ] {
        let region = BackdropBlur {
            bounds: rect,
            content_mask: ContentMask { bounds: bounds(0., 0., 193., 131.) },
            corner_radii: all_corners(4.),
            ..blur(0)
        };
        renderer.blur(&region);
        // Filtering the full frame is independent of the smaller cache and its moving copy
        // origin; only the composited region should differ.
        expected = cpu_blur(&expected, 193, 131, &region);
        assert_pixels(&renderer.screen.pixels, &expected, 2);
    }
}

#[test]
fn warp_composer_tint_preserves_translucent_backdrop() {
    let mut renderer = Renderer::new(64, 64);
    for shell_alpha in [0.8, 1.0] {
        for with_blur in [true, false] {
            renderer.start([0; 4]);
            renderer.quad(bounds(0., 0., 64., 64.), gray(0.2, shell_alpha));
            if with_blur {
                renderer.blur(&blur(1));
            }
            renderer.quad(bounds(8., 8., 48., 48.), gray(0.1, 0.15));
            let pixel = renderer.screen.pixels[32 * 64 + 32];
            let expected_alpha = 0.15 + shell_alpha * 0.85;
            assert!(
                (pixel[3] as f32 / 255. - expected_alpha).abs() < 0.01,
                "shell={}, blur={}: alpha {:?}, expected {}",
                shell_alpha,
                with_blur,
                pixel,
                expected_alpha
            );
            // Composite the premultiplied result over a white desktop.
            let expected_rgb = 0.1 * 0.15 + 0.2 * shell_alpha * 0.85 + 1. - expected_alpha;
            for channel in &pixel[..3] {
                let over_white = *channel as f32 / 255. + 1. - pixel[3] as f32 / 255.;
                assert!(
                    (over_white - expected_rgb).abs() < 0.02,
                    "composer must retain desktop contribution: {} vs {}",
                    over_white,
                    expected_rgb
                );
            }
            assert!((renderer.screen.pixels[0][3] as f32 / 255. - shell_alpha).abs() < 0.01);
            if with_blur {
                // A second frosted surface must retain the parent's transparency.
                let mut child = blur(2);
                child.bounds = bounds(20., 20., 24., 24.);
                renderer.blur(&child);
                renderer.quad(child.bounds, gray(0.1, 0.15));
                let nested = renderer.screen.pixels[32 * 64 + 32];
                let nested_alpha = 0.15 + expected_alpha * 0.85;
                assert!(
                    (nested[3] as f32 / 255. - nested_alpha).abs() < 0.01,
                    "nested tint must retain backdrop alpha: {:?}, expected {}",
                    nested,
                    nested_alpha
                );
            }
        }
    }
}

#[test]
fn warp_animated_nested_blur_matches_fresh_resources() {
    let mut cached = Renderer::new(64, 64);
    let mut fresh = Renderer::new(64, 64);
    for (width, height) in [(193, 131), (137, 99), (211, 143)] {
        cached.resize(width, height);
        fresh.resize(width, height);
        for frame in 0..12 {
            let viewport = bounds(0., 0., width as f32, height as f32);
            let offset = frame as f32 * 7.25;
            let parent = BackdropBlur {
                bounds: bounds(offset - 12., 4.25, 100., 80.),
                content_mask: ContentMask { bounds: viewport },
                blur_radius: px(if frame % 3 == 0 { 16. } else { 3. }),
                ..blur(1)
            };
            let child = BackdropBlur {
                bounds: bounds(offset + 9.5, 21.25, 41.5, 39.5),
                content_mask: ContentMask { bounds: parent.bounds.intersect(&viewport) },
                ..blur(3)
            };
            // Discard all blur resources in the reference renderer each frame. Pixel output must
            // not depend on previously drawn sizes or content.
            fresh.backdrop = None;
            for renderer in [&mut cached, &mut fresh] {
                renderer.start([0; 4]);
                for x in 0..width as usize {
                    // Hue 0.1 at half saturation, as dark or light.
                    let color = if (x + frame) % 7 < 3 {
                        [0.3, 0.22, 0.1, 0.7]
                    } else {
                        [0.9, 0.82, 0.7, 0.7]
                    };
                    renderer.quad(bounds(x as f32, 0., 1., height as f32), color);
                }
                renderer.blur(&parent);
                renderer.quad(parent.bounds, gray(0.1, 0.15));
                renderer.blur(&child);
            }
            assert_pixels(&cached.screen.pixels, &fresh.screen.pixels, 2);
        }
    }
}

#[test]
fn warp_large_blur_removes_fine_stripes() {
    let mut renderer = Renderer::new(256, 256);
    for phase in 0..4 {
        for horizontal in [false, true] {
            renderer.start([0; 4]);
            for n in 0..256 {
                let rect = if horizontal {
                    bounds(0., n as f32, 256., 1.)
                } else {
                    bounds(n as f32, 0., 1., 256.)
                };
                renderer.quad(rect, gray(if (n + phase) % 4 < 2 { 0. } else { 1. }, 1.));
            }
            renderer.blur(&BackdropBlur {
                bounds: bounds(0., 0., 256., 256.),
                content_mask: ContentMask { bounds: bounds(0., 0., 256., 256.) },
                blur_radius: px(32.),
                corner_radii: all_corners(0.),
                ..blur(1)
            });
            let image = &renderer.screen.pixels;
            assert!(
                (image[128 * 256 + 128][0] as i32 - 128).abs() <= 3,
                "fine stripes should average to gray: orientation={}, center={:?}",
                horizontal,
                image[128 * 256 + 128]
            );
        }
    }
}

#[test]
fn warp_invalid_geometry_allocates_nothing_and_idle_cache_expires() {
    let mut renderer = Renderer::new(64, 64);
    for value in [f32::NAN, f32::INFINITY, f32::NEG_INFINITY, -1.] {
        for field in 0..4 {
            let mut region = blur(0);
            match field {
                0 => region.bounds.size.width = px(value),
                1 => region.content_mask.bounds.size.height = px(value),
                2 => region.corner_radii.top_left = px(value),
                _ => {
                    region.bounds.origin.x = px(if value == -1. { f32::INFINITY } else { value })
                }
            }
            renderer.start(WHITE);
            renderer.blur(&region);
            assert!(renderer.backdrop.is_none());
            assert!(renderer.screen.pixels.iter().all(|pixel| *pixel == [255; 4]));
        }
    }
    renderer.start(WHITE);
    renderer.blur(&BackdropBlur { bounds: bounds(f32::MAX, 0., f32::MAX, 10.), ..blur(0) });
    assert!(renderer.backdrop.is_none());
    let mut region = blur(0);
    renderer.start(WHITE);
    renderer.blur(&region);
    assert!(renderer.backdrop.is_some());
    region.bounds = bounds(-100., -100., 8., 8.);
    for _ in 0..120 {
        renderer.start(WHITE);
        renderer.blur(&region);
    }
    assert!(renderer.backdrop.is_none());
}

#[test]
fn a_cached_blur_draws_what_a_fresh_one_does() {
    let mut renderer = Renderer::new(64, 64);
    let draw = |renderer: &mut Renderer| {
        renderer.start(WHITE);
        checkerboard(renderer);
        renderer.blur(&blur(1));
    };
    renderer.start(WHITE);
    assert!(renderer.backdrop.is_none());
    draw(&mut renderer);
    let expected = renderer.screen.pixels.clone();
    let snapshot = *renderer.backdrop.as_ref().unwrap().snapshot();
    draw(&mut renderer);
    assert_eq!(
        &snapshot,
        renderer.backdrop.as_ref().unwrap().snapshot(),
        "stable blur reuses GPU scratch"
    );
    assert_pixels(&renderer.screen.pixels, &expected, 0);
    for _ in 0..119 {
        renderer.start(WHITE);
    }
    assert!(renderer.backdrop.is_some());
    renderer.start(WHITE);
    assert!(renderer.backdrop.is_none(), "idle cache must be released");
    draw(&mut renderer);
    assert_pixels(&renderer.screen.pixels, &expected, 0);
}
