//! Making the scratch surfaces, one device object after the other.
use crate::device::{TextureDesc, TextureRequest};
use crate::resources::{Backend, BackdropResources, Scratch, ScratchLayout, Texture};
use vstd::prelude::*;

verus! {

/// A device object of a texture to make. Views are made of the texture that came before.
#[derive(Clone, Copy, Debug, PartialEq, Eq)]
pub enum TexturePart {
    Texture(TextureDesc),
    ShaderResourceView,
    RenderTargetView,
}

/// A device object of a texture that was made.
pub enum MadePart<G: Backend> {
    Texture(G::Texture),
    ShaderResourceView(G::ShaderResourceView),
    RenderTargetView(G::RenderTargetView),
}

/// How far the making of a texture and its views has come.
pub enum TextureSetup<G: Backend> {
    Texture { request: TextureRequest },
    ShaderResourceView { request: TextureRequest, texture: G::Texture },
    RenderTargetView { texture: G::Texture, srv: G::ShaderResourceView },
    Done { made: Texture<G> },
    Failed,
}

/// How far the making of the scratch surfaces has come. They are made one by one; the first
/// failure ends the making and drops what was made.
pub enum ScratchSetup<G: Backend> {
    Snapshot { layout: ScratchLayout, surface: TextureSetup<G> },
    Horizontal { layout: ScratchLayout, snapshot: Texture<G>, surface: TextureSetup<G> },
    Vertical {
        layout: ScratchLayout,
        snapshot: Texture<G>,
        horizontal: Texture<G>,
        surface: TextureSetup<G>,
    },
    Done { scratch: Scratch<G> },
    Failed,
}

impl<G: Backend> TextureSetup<G> {
    /// The object that is due; none at the end.
    pub open spec fn due(self) -> Option<TexturePart> {
        match self {
            TextureSetup::Texture { request } => Some(TexturePart::Texture(request.desc)),
            TextureSetup::ShaderResourceView { .. } => Some(TexturePart::ShaderResourceView),
            TextureSetup::RenderTargetView { .. } => Some(TexturePart::RenderTargetView),
            TextureSetup::Done { .. } => None,
            TextureSetup::Failed => None,
        }
    }

    /// The texture that views are due of.
    pub open spec fn held(self) -> Option<G::Texture> {
        match self {
            TextureSetup::ShaderResourceView { texture, .. } => Some(texture),
            TextureSetup::RenderTargetView { texture, .. } => Some(texture),
            _ => None,
        }
    }

    /// What becomes of the making when an object was made, or could not be: the due one is
    /// taken, another one is not, and a failure ends it. A texture that is not drawn into has no
    /// render target view.
    pub open spec fn with(self, made: Option<MadePart<G>>) -> TextureSetup<G> {
        match (self, made) {
            (TextureSetup::Done { made }, _) => TextureSetup::Done { made },
            (_, None) => TextureSetup::Failed,
            (TextureSetup::Texture { request }, Some(MadePart::Texture(texture))) => {
                TextureSetup::ShaderResourceView { request, texture }
            },
            (
                TextureSetup::ShaderResourceView { request, texture },
                Some(MadePart::ShaderResourceView(srv)),
            ) => if request.renderable {
                TextureSetup::RenderTargetView { texture, srv }
            } else {
                TextureSetup::Done {
                    made: Texture { texture, srv, rtv: None::<G::RenderTargetView> },
                }
            },
            (
                TextureSetup::RenderTargetView { texture, srv },
                Some(MadePart::RenderTargetView(rtv)),
            ) => TextureSetup::Done { made: Texture { texture, srv, rtv: Some(rtv) } },
            (setup, _) => setup,
        }
    }

    /// The making answers a request: it is of that request, and has or gets a render target view
    /// just where the request asks for one.
    pub open spec fn answers(self, asked: TextureRequest) -> bool {
        match self {
            TextureSetup::Texture { request } => request == asked,
            TextureSetup::ShaderResourceView { request, .. } => request == asked,
            TextureSetup::RenderTargetView { .. } => asked.renderable,
            TextureSetup::Done { made } => made.rtv is Some <==> asked.renderable,
            TextureSetup::Failed => true,
        }
    }

    /// Starts with nothing made.
    pub fn start(request: TextureRequest) -> (setup: Self)
        ensures
            setup == (TextureSetup::<G>::Texture { request }),
            setup.answers(request),
    {
        TextureSetup::Texture { request }
    }

    /// The object that is due.
    pub fn request(&self) -> (part: Option<TexturePart>)
        ensures
            part == self.due(),
    {
        match self {
            TextureSetup::Texture { request } => Some(TexturePart::Texture(request.desc)),
            TextureSetup::ShaderResourceView { .. } => Some(TexturePart::ShaderResourceView),
            TextureSetup::RenderTargetView { .. } => Some(TexturePart::RenderTargetView),
            TextureSetup::Done { .. } => None,
            TextureSetup::Failed => None,
        }
    }

    /// The texture that views are due of.
    pub fn texture(&self) -> (texture: Option<&G::Texture>)
        ensures
            match self.held() {
                Some(held) => texture is Some && *texture->0 == held,
                None => texture is None,
            },
    {
        match self {
            TextureSetup::ShaderResourceView { texture, .. } => Some(texture),
            TextureSetup::RenderTargetView { texture, .. } => Some(texture),
            _ => None,
        }
    }

    /// Takes an object that was made, or the news that it could not be.
    pub fn supply(self, made: Option<MadePart<G>>) -> (setup: Self)
        ensures
            setup == self.with(made),
            forall|asked: TextureRequest|
                self.answers(asked) ==> #[trigger] setup.answers(asked),
    {
        match (self, made) {
            (TextureSetup::Done { made }, _) => TextureSetup::Done { made },
            (_, None) => TextureSetup::Failed,
            (TextureSetup::Texture { request }, Some(MadePart::Texture(texture))) => {
                TextureSetup::ShaderResourceView { request, texture }
            },
            (
                TextureSetup::ShaderResourceView { request, texture },
                Some(MadePart::ShaderResourceView(srv)),
            ) => {
                if request.renderable {
                    TextureSetup::RenderTargetView { texture, srv }
                } else {
                    TextureSetup::Done { made: Texture { texture, srv, rtv: None } }
                }
            },
            (
                TextureSetup::RenderTargetView { texture, srv },
                Some(MadePart::RenderTargetView(rtv)),
            ) => TextureSetup::Done { made: Texture { texture, srv, rtv: Some(rtv) } },
            (setup, _) => setup,
        }
    }
}

impl<G: Backend> Scratch<G> {
    /// The passes' surfaces can be drawn into, and the snapshot cannot.
    pub open spec fn whole(self) -> bool {
        self.snapshot.rtv is None && self.horizontal.rtv is Some && self.vertical.rtv is Some
    }
}

impl<G: Backend> ScratchSetup<G> {
    /// The surface that is being made.
    pub open spec fn surface(self) -> Option<TextureSetup<G>> {
        match self {
            ScratchSetup::Snapshot { surface, .. } => Some(surface),
            ScratchSetup::Horizontal { surface, .. } => Some(surface),
            ScratchSetup::Vertical { surface, .. } => Some(surface),
            ScratchSetup::Done { .. } => None,
            ScratchSetup::Failed => None,
        }
    }

    /// The object that is due; none at the end.
    pub open spec fn due(self) -> Option<TexturePart> {
        match self.surface() {
            Some(surface) => surface.due(),
            None => None,
        }
    }

    /// The size of the surfaces that are made; none after a failure.
    pub open spec fn size(self) -> Option<ScratchLayout> {
        match self {
            ScratchSetup::Snapshot { layout, .. } => Some(layout),
            ScratchSetup::Horizontal { layout, .. } => Some(layout),
            ScratchSetup::Vertical { layout, .. } => Some(layout),
            ScratchSetup::Done { scratch } => Some(scratch.size()),
            ScratchSetup::Failed => None,
        }
    }

    /// The surface that is being made is not complete yet and answers the request of its layout,
    /// and those that are complete have the views that they need.
    pub open spec fn wf(self) -> bool {
        match self {
            ScratchSetup::Snapshot { layout, surface } => {
                &&& layout.downsample > 0
                &&& surface.due() is Some
                &&& surface.answers(layout.snapshot_texture())
            },
            ScratchSetup::Horizontal { layout, snapshot, surface } => {
                &&& layout.downsample > 0
                &&& snapshot.rtv is None
                &&& surface.due() is Some
                &&& surface.answers(layout.horizontal_texture())
            },
            ScratchSetup::Vertical { layout, snapshot, horizontal, surface } => {
                &&& layout.downsample > 0
                &&& snapshot.rtv is None
                &&& horizontal.rtv is Some
                &&& surface.due() is Some
                &&& surface.answers(layout.vertical_texture())
            },
            ScratchSetup::Done { scratch } => scratch.whole(),
            ScratchSetup::Failed => true,
        }
    }

    /// What becomes of the making when an object was made, or could not be: the surfaces follow
    /// each other from the snapshot to the vertical one, and a failure ends it.
    pub open spec fn with(self, made: Option<MadePart<G>>) -> ScratchSetup<G> {
        match self {
            ScratchSetup::Snapshot { layout, surface } => match surface.with(made) {
                TextureSetup::Done { made } => ScratchSetup::Horizontal {
                    layout,
                    snapshot: made,
                    surface: TextureSetup::Texture { request: layout.horizontal_texture() },
                },
                TextureSetup::Failed => ScratchSetup::Failed,
                surface => ScratchSetup::Snapshot { layout, surface },
            },
            ScratchSetup::Horizontal { layout, snapshot, surface } => match surface.with(made) {
                TextureSetup::Done { made } => ScratchSetup::Vertical {
                    layout,
                    snapshot,
                    horizontal: made,
                    surface: TextureSetup::Texture { request: layout.vertical_texture() },
                },
                TextureSetup::Failed => ScratchSetup::Failed,
                surface => ScratchSetup::Horizontal { layout, snapshot, surface },
            },
            ScratchSetup::Vertical { layout, snapshot, horizontal, surface } => match surface.with(
                made,
            ) {
                TextureSetup::Done { made } => ScratchSetup::Done {
                    scratch: Scratch {
                        width: layout.width,
                        height: layout.height,
                        downsample: layout.downsample,
                        snapshot,
                        horizontal,
                        vertical: made,
                    },
                },
                TextureSetup::Failed => ScratchSetup::Failed,
                surface => ScratchSetup::Vertical { layout, snapshot, horizontal, surface },
            },
            setup => setup,
        }
    }

    /// Starts with nothing made.
    pub fn start(layout: ScratchLayout) -> (setup: Self)
        requires
            layout.downsample > 0,
        ensures
            setup == (ScratchSetup::Snapshot {
                layout,
                surface: TextureSetup::<G>::Texture { request: layout.snapshot_texture() },
            }),
            setup.wf(),
    {
        ScratchSetup::Snapshot { layout, surface: TextureSetup::start(layout.snapshot_request()) }
    }

    /// The object that is due.
    pub fn request(&self) -> (part: Option<TexturePart>)
        ensures
            part == self.due(),
    {
        match self {
            ScratchSetup::Snapshot { surface, .. } => surface.request(),
            ScratchSetup::Horizontal { surface, .. } => surface.request(),
            ScratchSetup::Vertical { surface, .. } => surface.request(),
            ScratchSetup::Done { .. } => None,
            ScratchSetup::Failed => None,
        }
    }

    /// The texture that views are due of.
    pub fn texture(&self) -> (texture: Option<&G::Texture>)
        ensures
            match self.surface() {
                Some(surface) => match surface.held() {
                    Some(held) => texture is Some && *texture->0 == held,
                    None => texture is None,
                },
                None => texture is None,
            },
    {
        match self {
            ScratchSetup::Snapshot { surface, .. } => surface.texture(),
            ScratchSetup::Horizontal { surface, .. } => surface.texture(),
            ScratchSetup::Vertical { surface, .. } => surface.texture(),
            ScratchSetup::Done { .. } => None,
            ScratchSetup::Failed => None,
        }
    }

    /// Takes an object that was made, or the news that it could not be.
    pub fn supply(self, made: Option<MadePart<G>>) -> (setup: Self)
        requires
            self.wf(),
        ensures
            setup == self.with(made),
            setup.wf(),
            setup is Failed || setup.size() == self.size(),
    {
        match self {
            ScratchSetup::Snapshot { layout, surface } => match surface.supply(made) {
                TextureSetup::Done { made } => ScratchSetup::Horizontal {
                    layout,
                    snapshot: made,
                    surface: TextureSetup::start(layout.horizontal_request()),
                },
                TextureSetup::Failed => ScratchSetup::Failed,
                surface => ScratchSetup::Snapshot { layout, surface },
            },
            ScratchSetup::Horizontal { layout, snapshot, surface } => match surface.supply(made) {
                TextureSetup::Done { made } => ScratchSetup::Vertical {
                    layout,
                    snapshot,
                    horizontal: made,
                    surface: TextureSetup::start(layout.vertical_request()),
                },
                TextureSetup::Failed => ScratchSetup::Failed,
                surface => ScratchSetup::Horizontal { layout, snapshot, surface },
            },
            ScratchSetup::Vertical { layout, snapshot, horizontal, surface } => {
                match surface.supply(made) {
                    TextureSetup::Done { made } => ScratchSetup::Done {
                        scratch: Scratch {
                            width: layout.width,
                            height: layout.height,
                            downsample: layout.downsample,
                            snapshot,
                            horizontal,
                            vertical: made,
                        },
                    },
                    TextureSetup::Failed => ScratchSetup::Failed,
                    surface => ScratchSetup::Vertical { layout, snapshot, horizontal, surface },
                }
            },
            setup => setup,
        }
    }
}

impl<G: Backend> BackdropResources<G> {
    /// Puts surfaces in the place of those that were there, if their making is complete; else
    /// those that were there stay.
    pub fn install_scratch(&mut self, setup: ScratchSetup<G>) -> (installed: bool)
        ensures
            installed == (setup is Done),
            *final(self) == match setup {
                ScratchSetup::Done { scratch } => BackdropResources {
                    scratch: Some(scratch),
                    ..*old(self)
                },
                _ => *old(self),
            },
            installed ==> final(self).size() == setup.size(),
    {
        match setup {
            ScratchSetup::Done { scratch } => {
                self.scratch = Some(scratch);
                true
            },
            _ => false,
        }
    }
}

/// Objects that are made as they fall due become the three surfaces of the layout, in the order
/// snapshot, horizontal, vertical: each a texture and the view that shaders read, and for the two
/// that passes draw into the view for that. Views are made of the texture that came before.
pub proof fn law_scratch_comes_whole<G: Backend>(
    layout: ScratchLayout,
    snapshot: G::Texture,
    snapshot_srv: G::ShaderResourceView,
    horizontal: G::Texture,
    horizontal_srv: G::ShaderResourceView,
    horizontal_rtv: G::RenderTargetView,
    vertical: G::Texture,
    vertical_srv: G::ShaderResourceView,
    vertical_rtv: G::RenderTargetView,
)
    requires
        layout.downsample > 0,
    ensures
        ({
            let s0 = ScratchSetup::<G>::Snapshot {
                layout,
                surface: TextureSetup::<G>::Texture { request: layout.snapshot_texture() },
            };
            let s1 = s0.with(Some(MadePart::Texture(snapshot)));
            let s2 = s1.with(Some(MadePart::ShaderResourceView(snapshot_srv)));
            let s3 = s2.with(Some(MadePart::Texture(horizontal)));
            let s4 = s3.with(Some(MadePart::ShaderResourceView(horizontal_srv)));
            let s5 = s4.with(Some(MadePart::RenderTargetView(horizontal_rtv)));
            let s6 = s5.with(Some(MadePart::Texture(vertical)));
            let s7 = s6.with(Some(MadePart::ShaderResourceView(vertical_srv)));
            let s8 = s7.with(Some(MadePart::RenderTargetView(vertical_rtv)));
            &&& s0.due() == Some(TexturePart::Texture(layout.snapshot_texture().desc))
            &&& s1.due() == Some(TexturePart::ShaderResourceView)
            &&& s2.due() == Some(TexturePart::Texture(layout.horizontal_texture().desc))
            &&& s3.due() == Some(TexturePart::ShaderResourceView)
            &&& s4.due() == Some(TexturePart::RenderTargetView)
            &&& s5.due() == Some(TexturePart::Texture(layout.vertical_texture().desc))
            &&& s6.due() == Some(TexturePart::ShaderResourceView)
            &&& s7.due() == Some(TexturePart::RenderTargetView)
            &&& s1.surface()->0.held() == Some(snapshot)
            &&& s3.surface()->0.held() == Some(horizontal)
            &&& s4.surface()->0.held() == Some(horizontal)
            &&& s6.surface()->0.held() == Some(vertical)
            &&& s7.surface()->0.held() == Some(vertical)
            &&& s8 == (ScratchSetup::<G>::Done {
                scratch: Scratch {
                    width: layout.width,
                    height: layout.height,
                    downsample: layout.downsample,
                    snapshot: Texture {
                        texture: snapshot,
                        srv: snapshot_srv,
                        rtv: None::<G::RenderTargetView>,
                    },
                    horizontal: Texture {
                        texture: horizontal,
                        srv: horizontal_srv,
                        rtv: Some(horizontal_rtv),
                    },
                    vertical: Texture {
                        texture: vertical,
                        srv: vertical_srv,
                        rtv: Some(vertical_rtv),
                    },
                },
            })
        }),
{
}

/// The first object that cannot be made ends the making: nothing more falls due, and nothing that
/// comes later completes it. Until then something is due.
pub proof fn law_failure_ends_setup<G: Backend>(
    setup: ScratchSetup<G>,
    later: Option<MadePart<G>>,
)
    requires
        setup.wf(),
        !(setup is Done),
    ensures
        setup.with(None) is Failed,
        setup.with(None).due() is None,
        setup.with(None).with(later) is Failed,
        setup.due() is None <==> setup is Failed,
{
}

/// Only the object that is due is taken: another one leaves the making as it was, and nothing
/// changes surfaces that are complete.
pub proof fn law_only_due_part_is_taken<G: Backend>(setup: ScratchSetup<G>, made: MadePart<G>)
    requires
        setup.wf(),
    ensures
        ({
            let fits = match setup.due() {
                Some(TexturePart::Texture(_)) => made is Texture,
                Some(TexturePart::ShaderResourceView) => made is ShaderResourceView,
                Some(TexturePart::RenderTargetView) => made is RenderTargetView,
                None => false,
            };
            &&& !fits ==> setup.with(Some(made)) == setup
            &&& fits ==> setup.with(Some(made)).due() != setup.due()
            &&& setup is Done ==> setup.with(None) == setup
        }),
{
}

/// A texture gets its target view just where it is drawn into, and views are made of the texture
/// that came before.
pub proof fn law_texture_gets_its_views<G: Backend>(
    request: TextureRequest,
    texture: G::Texture,
    srv: G::ShaderResourceView,
    rtv: G::RenderTargetView,
)
    ensures
        ({
            let s0 = TextureSetup::<G>::Texture { request };
            let s1 = s0.with(Some(MadePart::Texture(texture)));
            let s2 = s1.with(Some(MadePart::ShaderResourceView(srv)));
            let s3 = s2.with(Some(MadePart::RenderTargetView(rtv)));
            &&& s0.due() == Some(TexturePart::Texture(request.desc))
            &&& s0.held() is None
            &&& s1.due() == Some(TexturePart::ShaderResourceView)
            &&& s1.held() == Some(texture)
            &&& request.renderable ==> {
                &&& s2.due() == Some(TexturePart::RenderTargetView)
                &&& s2.held() == Some(texture)
                &&& s3 == (TextureSetup::<G>::Done {
                    made: Texture { texture, srv, rtv: Some(rtv) },
                })
            }
            &&& !request.renderable ==> s2 == (TextureSetup::<G>::Done {
                made: Texture { texture, srv, rtv: None::<G::RenderTargetView> },
            })
        }),
{
}

} // verus!
