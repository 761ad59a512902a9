//! The device objects that the blur keeps between frames, and when they are made, kept and
//! released.
use crate::device::{texture_request, texture_request_of, TextureRequest};
use vstd::prelude::*;

verus! {

/// Unused resources are released after this many frames.
pub const IDLE_FRAMES: u32 = 120;

/// The granularity in which scratch surfaces grow.
pub const TILE: u32 = 64;

/// The kinds of objects of a graphics device. Nothing is asked of them: they are made outside,
/// kept here and handed back.
pub trait Backend {
    type Texture;

    type ShaderResourceView;

    type RenderTargetView;

    type VertexShader;

    type PixelShader;

    type Buffer;

    type Sampler;
}

/// A texture and its views.
pub struct Texture<G: Backend> {
    pub texture: G::Texture,
    pub srv: G::ShaderResourceView,
    pub rtv: Option<G::RenderTargetView>,
}

/// The surfaces of a blur: the pixels it reads, and what each pass leaves.
pub struct Scratch<G: Backend> {
    pub width: u32,
    pub height: u32,
    pub downsample: u32,
    pub snapshot: Texture<G>,
    pub horizontal: Texture<G>,
    pub vertical: Texture<G>,
}

/// The two stages of a shader program.
pub struct Shaders<G: Backend> {
    pub vertex: G::VertexShader,
    pub fragment: G::PixelShader,
}

/// Everything that the blur keeps on the device.
pub struct BackdropResources<G: Backend> {
    pub pass: Shaders<G>,
    pub composite: Shaders<G>,
    pub params: G::Buffer,
    pub sampler: G::Sampler,
    pub scratch: Option<Scratch<G>>,
    pub idle_frames: u32,
}

/// The size of scratch surfaces to make.
#[derive(Clone, Copy, Debug, PartialEq, Eq, Structural)]
pub struct ScratchLayout {
    pub width: u32,
    pub height: u32,
    pub downsample: u32,
}

/// What a blur needs before it can draw.
#[derive(Clone, Copy, Debug, PartialEq, Eq, Structural)]
pub enum ScratchRequest {
    /// The surfaces that are there will do.
    Ready,
    /// Surfaces of this layout have to be made and installed.
    Create(ScratchLayout),
}

/// The number of parts of size `b` that it takes to hold `a`.
pub open spec fn parts(a: int, b: int) -> int {
    (a + b - 1) / b
}

/// How far a surface grows along one axis: to whole tiles that hold what is wanted and what was
/// there, but not past the drawable.
pub open spec fn grown(wanted: int, previous: int, limit: int) -> int {
    let held = if wanted >= previous {
        wanted
    } else {
        previous
    };
    let tiled = parts(held, TILE as int) * TILE;
    let saturated = if tiled > u32::MAX {
        u32::MAX as int
    } else {
        tiled
    };
    if saturated < limit {
        saturated
    } else {
        limit
    }
}

/// Whether one more frame without a blur makes resources due for release.
pub open spec fn due_after(idle_frames: int) -> bool {
    idle_frames + 1 >= IDLE_FRAMES
}

/// The count of idle frames after as many more frames without a blur.
pub open spec fn idle_after(idle_frames: int, frames: nat) -> int
    decreases frames,
{
    if frames == 0 {
        idle_frames
    } else {
        idle_after(idle_frames, (frames - 1) as nat) + 1
    }
}

/// `a / b` rounded up.
pub fn div_ceil(a: u32, b: u32) -> (r: u32)
    requires
        b > 0,
    ensures
        r == parts(a as int, b as int),
{
    if a == 0 {
        proof {
            assert((b - 1) / b as int == 0) by (nonlinear_arith)
                requires
                    b > 0,
            ;
        }
        0
    } else {
        proof {
            let n = a as int - 1;
            let d = b as int;
            assert((n + d) / d == n / d + 1) by (nonlinear_arith)
                requires
                    d > 0,
            ;
            assert(n / d <= n) by (nonlinear_arith)
                requires
                    d > 0,
                    n >= 0,
            ;
        }
        (a - 1) / b + 1
    }
}

fn grow(wanted: u32, previous: u32, limit: u32) -> (r: u32)
    ensures
        r == grown(wanted as int, previous as int, limit as int),
{
    let held: u32 = if wanted >= previous { wanted } else { previous };
    let tiled: u64 = div_ceil(held, TILE) as u64 * TILE as u64;
    let saturated: u32 = if tiled > u32::MAX as u64 { u32::MAX } else { tiled as u32 };
    if saturated < limit {
        saturated
    } else {
        limit
    }
}

impl ScratchLayout {
    /// The width after the horizontal pass has shrunk it.
    pub open spec fn narrow(self) -> int {
        parts(self.width as int, self.downsample as int)
    }

    /// The height after the vertical pass has shrunk it.
    pub open spec fn low(self) -> int {
        parts(self.height as int, self.downsample as int)
    }

    /// The snapshot: window pixels at their own size.
    pub open spec fn snapshot_texture(self) -> TextureRequest {
        texture_request_of(self.width, self.height, false)
    }

    /// What the horizontal pass draws into: shrunk across.
    pub open spec fn horizontal_texture(self) -> TextureRequest {
        texture_request_of(self.narrow() as u32, self.height, true)
    }

    /// What the vertical pass draws into: shrunk both ways.
    pub open spec fn vertical_texture(self) -> TextureRequest {
        texture_request_of(self.narrow() as u32, self.low() as u32, true)
    }

    /// The width after the horizontal pass.
    pub fn narrow_width(&self) -> (r: u32)
        requires
            self.downsample > 0,
        ensures
            r == self.narrow(),
    {
        div_ceil(self.width, self.downsample)
    }

    /// The height after the vertical pass.
    pub fn low_height(&self) -> (r: u32)
        requires
            self.downsample > 0,
        ensures
            r == self.low(),
    {
        div_ceil(self.height, self.downsample)
    }

    /// The surface that window pixels are copied into, at their own size.
    pub fn snapshot_request(&self) -> (r: TextureRequest)
        ensures
            r == self.snapshot_texture(),
    {
        texture_request(self.width, self.height, false)
    }

    /// The surface of the horizontal pass, shrunk across.
    pub fn horizontal_request(&self) -> (r: TextureRequest)
        requires
            self.downsample > 0,
        ensures
            r == self.horizontal_texture(),
    {
        texture_request(self.narrow_width(), self.height, true)
    }

    /// The surface of the vertical pass, shrunk both ways.
    pub fn vertical_request(&self) -> (r: TextureRequest)
        requires
            self.downsample > 0,
        ensures
            r == self.vertical_texture(),
    {
        texture_request(self.narrow_width(), self.low_height(), true)
    }
}

impl<G: Backend> Scratch<G> {
    /// The size of the surfaces.
    pub open spec fn size(self) -> ScratchLayout {
        ScratchLayout { width: self.width, height: self.height, downsample: self.downsample }
    }

    /// The size of the surfaces.
    pub fn layout(&self) -> (r: ScratchLayout)
        ensures
            r == self.size(),
    {
        ScratchLayout { width: self.width, height: self.height, downsample: self.downsample }
    }
}

impl<G: Backend> Shaders<G> {
    /// The program of two compiled stages.
    pub fn new(vertex: G::VertexShader, fragment: G::PixelShader) -> (r: Self)
        ensures
            r.vertex == vertex,
            r.fragment == fragment,
    {
        Shaders { vertex, fragment }
    }
}

/// The surfaces of the given size serve a blur that wants at least as much, shrunk alike.
pub open spec fn serves(size: ScratchLayout, width: u32, height: u32, downsample: u32) -> bool {
    size.width >= width && size.height >= height && size.downsample == downsample
}

/// The layout that replaces surfaces of a previous size, or makes the first ones.
pub open spec fn next_layout(
    previous: Option<ScratchLayout>,
    width: u32,
    height: u32,
    downsample: u32,
    viewport: Seq<u32>,
) -> ScratchLayout {
    let (w, h) = match previous {
        Some(size) => (size.width as int, size.height as int),
        None => (0int, 0int),
    };
    ScratchLayout {
        width: grown(width as int, w, viewport[0] as int) as u32,
        height: grown(height as int, h, viewport[1] as int) as u32,
        downsample,
    }
}

/// What a blur of the given needs has to ask for.
pub open spec fn request_of(
    previous: Option<ScratchLayout>,
    width: u32,
    height: u32,
    downsample: u32,
    viewport: Seq<u32>,
) -> ScratchRequest {
    if previous is Some && serves(previous->0, width, height, downsample) {
        ScratchRequest::Ready
    } else {
        ScratchRequest::Create(next_layout(previous, width, height, downsample, viewport))
    }
}

/// The size of the surfaces once a request has been met.
pub open spec fn settled(previous: Option<ScratchLayout>, request: ScratchRequest) -> Option<
    ScratchLayout,
> {
    match request {
        ScratchRequest::Ready => previous,
        ScratchRequest::Create(layout) => Some(layout),
    }
}

impl<G: Backend> BackdropResources<G> {
    /// The size of the surfaces that are there.
    pub open spec fn size(self) -> Option<ScratchLayout> {
        match self.scratch {
            Some(scratch) => Some(scratch.size()),
            None => None,
        }
    }

    /// The same resources after one more frame without a blur.
    pub open spec fn idled(self) -> Self {
        BackdropResources { idle_frames: (self.idle_frames + 1) as u32, ..self }
    }

    /// The same resources after they were used.
    pub open spec fn used(self) -> Self {
        BackdropResources { idle_frames: 0, ..self }
    }

    /// Resources without surfaces, in use.
    pub fn new(
        pass: Shaders<G>,
        composite: Shaders<G>,
        params: G::Buffer,
        sampler: G::Sampler,
    ) -> (r: Self)
        ensures
            r == (BackdropResources {
                pass,
                composite,
                params,
                sampler,
                scratch: None::<Scratch<G>>,
                idle_frames: 0,
            }),
    {
        BackdropResources { pass, composite, params, sampler, scratch: None, idle_frames: 0 }
    }

    /// The surface that holds the window pixels of the last blur.
    pub fn snapshot(&self) -> (r: &G::Texture)
        requires
            self.scratch is Some,
        ensures
            *r == self.scratch->0.snapshot.texture,
    {
        &self.scratch.as_ref().unwrap().snapshot.texture
    }

    /// Counts a frame without a blur; true when the resources are due for release.
    pub fn expire(&mut self) -> (due: bool)
        requires
            old(self).idle_frames < u32::MAX,
        ensures
            due == due_after(old(self).idle_frames as int),
            *final(self) == (BackdropResources {
                idle_frames: (old(self).idle_frames + 1) as u32,
                ..*old(self)
            }),
            *final(self) == old(self).idled(),
    {
        self.idle_frames = self.idle_frames + 1;
        self.idle_frames >= IDLE_FRAMES
    }

    /// Marks the resources as used and says what has to be made for a blur that reads
    /// `width` by `height` pixels of the window and shrinks them by `downsample`.
    pub fn ensure_scratch(
        &mut self,
        width: u32,
        height: u32,
        downsample: u32,
        viewport: [u32; 2],
    ) -> (request: ScratchRequest)
        ensures
            request == request_of(old(self).size(), width, height, downsample, viewport@),
            *final(self) == (BackdropResources { idle_frames: 0, ..*old(self) }),
            *final(self) == old(self).used(),
    {
        self.idle_frames = 0;
        let mut previous: (u32, u32) = (0, 0);
        match &self.scratch {
            Some(scratch) => {
                if scratch.width >= width && scratch.height >= height && scratch.downsample
                    == downsample {
                    return ScratchRequest::Ready;
                }
                previous = (scratch.width, scratch.height);
            },
            None => {},
        }
        ScratchRequest::Create(
            ScratchLayout {
                width: grow(width, previous.0, viewport[0]),
                height: grow(height, previous.1, viewport[1]),
                downsample,
            },
        )
    }
}

/// Surfaces fit the drawable when they are no larger on either axis.
pub open spec fn fits(size: Option<ScratchLayout>, viewport: Seq<u32>) -> bool {
    size is Some ==> size->0.width <= viewport[0] && size->0.height <= viewport[1]
}

proof fn lemma_parts(a: int)
    requires
        0 <= a,
    ensures
        a <= parts(a, 64) * 64 < a + 64,
        (parts(a, 64) * 64) % 64 == 0,
{
}

proof fn lemma_grown(wanted: u32, previous: u32, limit: u32)
    ensures
        ({
            let size = grown(wanted as int, previous as int, limit as int);
            &&& 0 <= size <= limit
            &&& size == limit || size % 64 == 0
            &&& wanted <= limit ==> size >= wanted
            &&& previous <= limit ==> size >= previous
            &&& size < wanted + 64 || size < previous + 64
        }),
{
    lemma_parts(wanted as int);
    lemma_parts(previous as int);
}

/// Surfaces that fit the drawable still fit it after any blur, and new ones always do.
pub proof fn law_scratch_fits_drawable(
    previous: Option<ScratchLayout>,
    width: u32,
    height: u32,
    downsample: u32,
    viewport: Seq<u32>,
)
    requires
        fits(previous, viewport),
    ensures
        fits(
            settled(previous, request_of(previous, width, height, downsample, viewport)),
            viewport,
        ),
{
    match previous {
        Some(size) => {
            lemma_grown(width, size.width, viewport[0]);
            lemma_grown(height, size.height, viewport[1]);
        },
        None => {
            lemma_grown(width, 0, viewport[0]);
            lemma_grown(height, 0, viewport[1]);
        },
    }
}

/// Once a request for no more than the drawable has been met, the surfaces serve it, and a blur
/// that needs no more, shrunk alike, reuses them.
pub proof fn law_stable_blur_reuses_scratch(
    previous: Option<ScratchLayout>,
    width: u32,
    height: u32,
    downsample: u32,
    viewport: Seq<u32>,
    later_width: u32,
    later_height: u32,
    later_viewport: Seq<u32>,
)
    requires
        width <= viewport[0],
        height <= viewport[1],
        later_width <= width,
        later_height <= height,
    ensures
        ({
            let met = settled(previous, request_of(previous, width, height, downsample, viewport));
            &&& met is Some
            &&& serves(met->0, width, height, downsample)
            &&& request_of(met, later_width, later_height, downsample, later_viewport)
                == ScratchRequest::Ready
        }),
{
    match previous {
        Some(size) => {
            lemma_grown(width, size.width, viewport[0]);
            lemma_grown(height, size.height, viewport[1]);
        },
        None => {
            lemma_grown(width, 0, viewport[0]);
            lemma_grown(height, 0, viewport[1]);
        },
    }
}

/// Surfaces grow in whole tiles up to the drawable, and in a drawable that held them they never
/// shrink.
pub proof fn law_scratch_grows_in_tiles(
    previous: Option<ScratchLayout>,
    width: u32,
    height: u32,
    downsample: u32,
    viewport: Seq<u32>,
)
    ensures
        ({
            let layout = next_layout(previous, width, height, downsample, viewport);
            &&& layout.width == viewport[0] || layout.width as int % 64 == 0
            &&& layout.height == viewport[1] || layout.height as int % 64 == 0
            &&& previous is Some && fits(previous, viewport) ==> layout.width >= previous->0.width
                && layout.height >= previous->0.height
        }),
{
    match previous {
        Some(size) => {
            lemma_grown(width, size.width, viewport[0]);
            lemma_grown(height, size.height, viewport[1]);
        },
        None => {
            lemma_grown(width, 0, viewport[0]);
            lemma_grown(height, 0, viewport[1]);
        },
    }
}

/// Dividing up takes just as many parts as hold everything.
pub proof fn law_parts_hold_everything(a: int, b: int)
    requires
        0 <= a,
        0 < b,
    ensures
        a <= parts(a, b) * b < a + b,
{
    let n = parts(a, b);
    assert(a <= n * b < a + b) by (nonlinear_arith)
        requires
            n == (a + b - 1) / b,
            0 < b,
            0 <= a,
    ;
}

/// The three surfaces of a layout: the snapshot in full size, to be read only; the horizontal one
/// as tall, and just so wide that its texels, each of a step's width, hold the snapshot's; the
/// vertical one shrunk alike on both axes. Passes draw into the last two.
pub proof fn law_surfaces_shrink_by_step(layout: ScratchLayout)
    requires
        layout.downsample > 0,
    ensures
        ({
            let snapshot = layout.snapshot_texture();
            let horizontal = layout.horizontal_texture();
            let vertical = layout.vertical_texture();
            let step = layout.downsample;
            &&& snapshot.desc.width == layout.width
            &&& snapshot.desc.height == layout.height
            &&& !snapshot.renderable
            &&& layout.width <= horizontal.desc.width * step < layout.width + step
            &&& horizontal.desc.height == layout.height
            &&& horizontal.renderable
            &&& vertical.desc.width == horizontal.desc.width
            &&& layout.height <= vertical.desc.height * step < layout.height + step
            &&& vertical.renderable
            &&& horizontal.desc.width == layout.narrow()
            &&& vertical.desc.height == layout.low()
        }),
{
    let step = layout.downsample as int;
    let width = layout.width as int;
    let height = layout.height as int;
    law_parts_hold_everything(width, step);
    law_parts_hold_everything(height, step);
    lemma_parts_range(width, step);
    lemma_parts_range(height, step);
}

/// There are no more parts than there is to hold.
proof fn lemma_parts_range(a: int, b: int)
    requires
        0 <= a,
        0 < b,
    ensures
        0 <= parts(a, b) <= a,
{
    law_parts_hold_everything(a, b);
    let n = parts(a, b);
    assert(0 <= n <= a) by (nonlinear_arith)
        requires
            a <= n * b < a + b,
            0 < b,
            0 <= a,
    ;
}

/// A blur reuses the surfaces that are there just where they are large enough on both axes and
/// shrink by its own step. Else it asks for surfaces that shrink by its step and are, on each
/// axis, the fewest whole tiles of 64 that hold what it wants and what was there, or the whole
/// drawable where those tiles would not fit.
pub proof fn law_scratch_request(
    previous: Option<ScratchLayout>,
    width: u32,
    height: u32,
    downsample: u32,
    viewport: Seq<u32>,
)
    ensures
        ({
            let request = request_of(previous, width, height, downsample, viewport);
            let (w, h) = match previous {
                Some(size) => (size.width, size.height),
                None => (0u32, 0u32),
            };
            let wide = if width >= w {
                width as int
            } else {
                w as int
            };
            let tall = if height >= h {
                height as int
            } else {
                h as int
            };
            &&& request is Ready <==> previous is Some && w >= width && h >= height
                && previous->0.downsample == downsample
            &&& request matches ScratchRequest::Create(layout) ==> {
                &&& layout.downsample == downsample
                &&& layout.width <= viewport[0]
                &&& layout.height <= viewport[1]
                &&& layout.width == viewport[0] || (layout.width as int % 64 == 0 && wide
                    <= layout.width < wide + 64)
                &&& layout.height == viewport[1] || (layout.height as int % 64 == 0 && tall
                    <= layout.height < tall + 64)
                &&& forall|m: int| #[trigger] (m % 64) == 0 && m >= wide ==> m >= layout.width
                &&& forall|m: int| #[trigger] (m % 64) == 0 && m >= tall ==> m >= layout.height
                &&& viewport[0] <= wide ==> layout.width == viewport[0]
                &&& viewport[1] <= tall ==> layout.height == viewport[1]
            }
        }),
{
    let (w, h) = match previous {
        Some(size) => (size.width, size.height),
        None => (0u32, 0u32),
    };
    lemma_grown(width, w, viewport[0]);
    lemma_grown(height, h, viewport[1]);
    lemma_parts(width as int);
    lemma_parts(w as int);
    lemma_parts(height as int);
    lemma_parts(h as int);
}

/// What a blur wants of the surfaces.
pub struct Want {
    pub width: u32,
    pub height: u32,
    pub downsample: u32,
}

/// The size of the surfaces after blurs with the given wants have been met one after the other,
/// from none on, in one drawable.
pub open spec fn after(wants: Seq<Want>, viewport: Seq<u32>) -> Option<ScratchLayout>
    decreases wants.len(),
{
    if wants.len() == 0 {
        None
    } else {
        let before = after(wants.drop_last(), viewport);
        let want = wants.last();
        settled(
            before,
            request_of(before, want.width, want.height, want.downsample, viewport),
        )
    }
}

/// The greatest width that is wanted.
pub open spec fn widest(wants: Seq<Want>) -> int
    decreases wants.len(),
{
    if wants.len() == 0 {
        0
    } else if widest(wants.drop_last()) >= wants.last().width {
        widest(wants.drop_last())
    } else {
        wants.last().width as int
    }
}

/// The greatest height that is wanted.
pub open spec fn tallest(wants: Seq<Want>) -> int
    decreases wants.len(),
{
    if wants.len() == 0 {
        0
    } else if tallest(wants.drop_last()) >= wants.last().height {
        tallest(wants.drop_last())
    } else {
        wants.last().height as int
    }
}

/// One more want on top of what the greatest one so far has grown to.
proof fn lemma_grown_again(want: u32, most: int, limit: u32)
    requires
        0 <= most <= u32::MAX,
    ensures
        ({
            let size = grown(most, 0, limit as int);
            let more = if most >= want {
                most
            } else {
                want as int
            };
            &&& 0 <= size <= limit
            &&& grown(want as int, size, limit as int) == grown(more, 0, limit as int)
            &&& want <= size ==> size == grown(more, 0, limit as int)
        }),
{
    lemma_parts(want as int);
    lemma_parts(most);
    let size = grown(most, 0, limit as int);
    lemma_parts(size);
}

/// However many blurs are drawn in one drawable, each axis of the surfaces is the greatest size
/// that any of them wanted, in whole tiles, cut at the drawable; and they shrink by the step of
/// the last one.
pub proof fn law_growth_follows_greatest_want(wants: Seq<Want>, viewport: Seq<u32>)
    requires
        wants.len() > 0,
    ensures
        after(wants, viewport) == Some(
            ScratchLayout {
                width: grown(widest(wants), 0, viewport[0] as int) as u32,
                height: grown(tallest(wants), 0, viewport[1] as int) as u32,
                downsample: wants.last().downsample,
            },
        ),
        0 <= widest(wants) <= u32::MAX,
        0 <= tallest(wants) <= u32::MAX,
    decreases wants.len(),
{
    let rest = wants.drop_last();
    let want = wants.last();
    if rest.len() > 0 {
        law_growth_follows_greatest_want(rest, viewport);
        lemma_grown_again(want.width, widest(rest), viewport[0]);
        lemma_grown_again(want.height, tallest(rest), viewport[1]);
    } else {
        assert(widest(rest) == 0 && tallest(rest) == 0 && after(rest, viewport) is None);
        lemma_grown(want.width, 0, viewport[0]);
        lemma_grown(want.height, 0, viewport[1]);
    }
}

/// The greatest sizes are those of some blur, and no blur wants more.
proof fn lemma_greatest(wants: Seq<Want>) -> (at: (int, int))
    requires
        wants.len() > 0,
    ensures
        0 <= at.0 < wants.len(),
        0 <= at.1 < wants.len(),
        wants[at.0].width == widest(wants),
        wants[at.1].height == tallest(wants),
        forall|i: int|
            0 <= i < wants.len() ==> (#[trigger] wants[i]).width <= widest(wants)
                && wants[i].height <= tallest(wants),
    decreases wants.len(),
{
    let rest = wants.drop_last();
    let last = wants.len() - 1;
    assert(wants[last] == wants.last());
    let before = if rest.len() > 0 {
        let at = lemma_greatest(rest);
        assert(wants[at.0] == rest[at.0] && wants[at.1] == rest[at.1]);
        at
    } else {
        assert(widest(rest) == 0 && tallest(rest) == 0);
        (last, last)
    };
    assert forall|i: int| 0 <= i < wants.len() implies (#[trigger] wants[i]).width <= widest(wants)
        && wants[i].height <= tallest(wants) by {
        if i < last {
            assert(rest[i] == wants[i]);
        }
    }
    (
        if widest(wants) == wants.last().width {
            last
        } else {
            before.0
        },
        if tallest(wants) == wants.last().height {
            last
        } else {
            before.1
        },
    )
}

/// Whatever is wanted in one sequence is wanted in the other: so are the greatest sizes.
proof fn lemma_greatest_among(a: Seq<Want>, b: Seq<Want>)
    requires
        a.len() > 0,
        b.len() > 0,
        forall|want: Want| #[trigger] a.contains(want) ==> b.contains(want),
    ensures
        widest(a) <= widest(b),
        tallest(a) <= tallest(b),
{
    let at = lemma_greatest(a);
    lemma_greatest(b);
    assert(a.contains(a[at.0]));
    assert(a.contains(a[at.1]));
    let i = choose|i: int| 0 <= i < b.len() && b[i] == a[at.0];
    let j = choose|j: int| 0 <= j < b.len() && b[j] == a[at.1];
    assert(b[i].width <= widest(b));
    assert(b[j].height <= tallest(b));
}

/// The size of the surfaces does not depend on the order in which blurs are drawn, nor on how
/// often each is.
pub proof fn law_growth_ignores_order(a: Seq<Want>, b: Seq<Want>, viewport: Seq<u32>)
    requires
        a.len() > 0,
        b.len() > 0,
        forall|want: Want| #[trigger] a.contains(want) ==> b.contains(want),
        forall|want: Want| #[trigger] b.contains(want) ==> a.contains(want),
    ensures
        after(a, viewport) is Some,
        after(b, viewport) is Some,
        after(a, viewport)->0.width == after(b, viewport)->0.width,
        after(a, viewport)->0.height == after(b, viewport)->0.height,
{
    law_growth_follows_greatest_want(a, viewport);
    law_growth_follows_greatest_want(b, viewport);
    lemma_greatest_among(a, b);
    lemma_greatest_among(b, a);
}

/// After a blur, resources stay through 119 frames without one and are due at the 120th.
pub proof fn law_idle_release(frames: nat)
    requires
        frames >= 1,
    ensures
        due_after(idle_after(0, (frames - 1) as nat)) <==> frames >= 120,
{
    lemma_idle_after(0, (frames - 1) as nat);
}

/// The resources after as many frames without a blur.
pub open spec fn idle_for<G: Backend>(
    resources: BackdropResources<G>,
    frames: nat,
) -> BackdropResources<G>
    decreases frames,
{
    if frames == 0 {
        resources
    } else {
        idle_for(resources, (frames - 1) as nat).idled()
    }
}

/// Frames without a blur are counted and change nothing else; a use starts the count anew and
/// changes nothing else. So, after a use, the resources stay as they are until the 120th frame
/// without one makes them due, and not before.
pub proof fn law_idle_resources_stay_until_due<G: Backend>(
    resources: BackdropResources<G>,
    frames: nat,
)
    requires
        1 <= frames <= 0xffff_ffff,
    ensures
        ({
            let used = resources.used();
            let idle = idle_for(used, (frames - 1) as nat);
            &&& used.idle_frames == 0
            &&& used.scratch == resources.scratch
            &&& used.pass == resources.pass
            &&& used.composite == resources.composite
            &&& used.params == resources.params
            &&& used.sampler == resources.sampler
            &&& idle.idle_frames == frames - 1
            &&& idle.scratch == resources.scratch
            &&& idle.pass == resources.pass
            &&& idle.composite == resources.composite
            &&& idle.params == resources.params
            &&& idle.sampler == resources.sampler
            &&& due_after(idle.idle_frames as int) <==> frames >= 120
        }),
    decreases frames,
{
    if frames > 1 {
        law_idle_resources_stay_until_due(resources, (frames - 1) as nat);
    }
}

/// The size of surfaces is what was asked for when they were made.
pub proof fn law_size_of_surfaces<G: Backend>(scratch: Scratch<G>)
    ensures
        scratch.size().width == scratch.width,
        scratch.size().height == scratch.height,
        scratch.size().downsample == scratch.downsample,
{
}

proof fn lemma_idle_after(idle_frames: int, frames: nat)
    ensures
        idle_after(idle_frames, frames) == idle_frames + frames,
    decreases frames,
{
    if frames > 0 {
        lemma_idle_after(idle_frames, (frames - 1) as nat);
    }
}

} // verus!
