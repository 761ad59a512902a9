//! The life of the device objects, with a stand-in device that numbers what it makes.
use backdrop::device::{
    texture_request, ShaderModule, ShaderTarget, BIND_RENDER_TARGET, BIND_SHADER_RESOURCE,
};
use backdrop::resources::{
    div_ceil, Backend, BackdropResources, ScratchLayout, ScratchRequest, Shaders, Texture,
};
use backdrop::setup::{Created, Creation, ResourceSetup};
use backdrop::surfaces::{MadePart, ScratchSetup, TexturePart, TextureSetup};

struct Numbered;

impl Backend for Numbered {
    type Texture = u32;
    type ShaderResourceView = u32;
    type RenderTargetView = u32;
    type VertexShader = (ShaderModule, u32);
    type PixelShader = (ShaderModule, u32);
    type Buffer = u32;
    type Sampler = u32;
}

struct Device {
    made: u32,
}

impl Device {
    fn object(&mut self) -> u32 {
        self.made += 1;
        self.made
    }

    fn part(&mut self, part: TexturePart) -> MadePart<Numbered> {
        let number = self.object();
        match part {
            TexturePart::Texture(_) => MadePart::Texture(number),
            TexturePart::ShaderResourceView => MadePart::ShaderResourceView(number),
            TexturePart::RenderTargetView => MadePart::RenderTargetView(number),
        }
    }

    fn creation(&mut self, creation: Creation) -> Created<Numbered> {
        let number = self.object();
        match creation {
            Creation::Shader { module, target: ShaderTarget::Vertex } => {
                Created::Vertex((module, number))
            }
            Creation::Shader { module, target: ShaderTarget::Fragment } => {
                Created::Fragment((module, number))
            }
            Creation::Params(_) => Created::Params(number),
            Creation::Sampler(_) => Created::Sampler(number),
        }
    }

    fn resources(&mut self) -> BackdropResources<Numbered> {
        let mut setup: ResourceSetup<Numbered> = ResourceSetup::start();
        loop {
            match setup.request() {
                None => return setup.finish().unwrap(),
                Some(creation) => setup = setup.supply(Some(self.creation(creation))),
            }
        }
    }

    fn draw(&mut self, cache: &mut BackdropResources<Numbered>, size: [u32; 2], step: u32, view: [u32; 2]) {
        match cache.ensure_scratch(size[0], size[1], step, view) {
            ScratchRequest::Ready => {}
            ScratchRequest::Create(layout) => {
                let mut setup: ScratchSetup<Numbered> = ScratchSetup::start(layout);
                while let Some(part) = setup.request() {
                    setup = setup.supply(Some(self.part(part)));
                }
                assert!(cache.install_scratch(setup));
            }
        }
    }
}

#[test]
fn resources_are_made_in_order_and_kept_in_place() {
    let mut device = Device { made: 0 };
    let cache = device.resources();
    assert_eq!(cache.pass.vertex, (ShaderModule::BackdropPass, 1));
    assert_eq!(cache.pass.fragment, (ShaderModule::BackdropPass, 2));
    assert_eq!(cache.composite.vertex, (ShaderModule::BackdropComposite, 3));
    assert_eq!(cache.composite.fragment, (ShaderModule::BackdropComposite, 4));
    assert_eq!(cache.params, 5);
    assert_eq!(cache.sampler, 6);
    assert!(cache.scratch.is_none());
    assert_eq!(cache.idle_frames, 0);
}

#[test]
fn an_object_that_is_not_due_is_not_taken() {
    let setup: ResourceSetup<Numbered> = ResourceSetup::start();
    let setup = setup.supply(Some(Created::Params(9)));
    assert_eq!(
        setup.request(),
        Some(Creation::Shader { module: ShaderModule::BackdropPass, target: ShaderTarget::Vertex })
    );
    assert!(setup.finish().is_none());
}

#[test]
fn a_stable_blur_reuses_its_snapshot_until_it_has_been_idle() {
    let mut device = Device { made: 0 };
    let mut cache = Some(device.resources());
    device.draw(cache.as_mut().unwrap(), [64, 64], 1, [64, 64]);
    let snapshot = *cache.as_ref().unwrap().snapshot();
    device.draw(cache.as_mut().unwrap(), [64, 64], 1, [64, 64]);
    assert_eq!(*cache.as_ref().unwrap().snapshot(), snapshot, "stable blur reuses GPU scratch");
    for _ in 0..119 {
        if cache.as_mut().unwrap().expire() {
            cache = None;
        }
    }
    assert!(cache.is_some());
    if cache.as_mut().unwrap().expire() {
        cache = None;
    }
    assert!(cache.is_none(), "idle cache must be released");
}

#[test]
fn a_blur_starts_the_count_of_idle_frames_anew() {
    let mut device = Device { made: 0 };
    let mut cache = device.resources();
    for _ in 0..119 {
        assert!(!cache.expire());
    }
    device.draw(&mut cache, [32, 32], 1, [64, 64]);
    assert_eq!(cache.idle_frames, 0);
    for _ in 0..119 {
        assert!(!cache.expire());
    }
    assert!(cache.expire());
}

#[test]
fn surfaces_are_made_in_order_with_their_views() {
    let layout = ScratchLayout { width: 65, height: 67, downsample: 4 };
    let mut device = Device { made: 0 };
    let mut setup: ScratchSetup<Numbered> = ScratchSetup::start(layout);
    let mut asked: Vec<TexturePart> = Vec::new();
    let mut viewed: Vec<Option<u32>> = Vec::new();
    while let Some(part) = setup.request() {
        asked.push(part);
        viewed.push(setup.texture().copied());
        setup = setup.supply(Some(device.part(part)));
    }
    assert_eq!(
        asked,
        vec![
            TexturePart::Texture(texture_request(65, 67, false).desc),
            TexturePart::ShaderResourceView,
            TexturePart::Texture(texture_request(17, 67, true).desc),
            TexturePart::ShaderResourceView,
            TexturePart::RenderTargetView,
            TexturePart::Texture(texture_request(17, 17, true).desc),
            TexturePart::ShaderResourceView,
            TexturePart::RenderTargetView,
        ]
    );
    // Each view is made of the texture that came before it.
    assert_eq!(
        viewed,
        vec![None, Some(1), None, Some(3), Some(3), None, Some(6), Some(6)]
    );
    let mut cache = device.resources();
    assert!(cache.install_scratch(setup));
    let scratch = cache.scratch.as_ref().unwrap();
    assert_eq!(scratch.layout(), layout);
    let of = |t: &Texture<Numbered>| (t.texture, t.srv, t.rtv);
    assert_eq!(of(&scratch.snapshot), (1, 2, None));
    assert_eq!(of(&scratch.horizontal), (3, 4, Some(5)));
    assert_eq!(of(&scratch.vertical), (6, 7, Some(8)));
}

#[test]
fn a_surface_that_cannot_be_made_keeps_those_that_were_there() {
    let mut device = Device { made: 0 };
    let mut cache = device.resources();
    device.draw(&mut cache, [32, 32], 1, [300, 300]);
    let snapshot = *cache.snapshot();
    for fail in 0..8 {
        cache.expire();
        let request = cache.ensure_scratch(65, 32, 1, [300, 300]);
        let layout = ScratchLayout { width: 128, height: 64, downsample: 1 };
        assert_eq!(request, ScratchRequest::Create(layout));
        let mut setup: ScratchSetup<Numbered> = ScratchSetup::start(layout);
        let mut made = 0;
        while let Some(part) = setup.request() {
            setup = setup.supply(if made == fail { None } else { Some(device.part(part)) });
            made += 1;
        }
        // Nothing is asked for after the failure.
        assert_eq!(made, fail + 1);
        assert!(!cache.install_scratch(setup));
        assert_eq!(*cache.snapshot(), snapshot);
        assert_eq!(cache.idle_frames, 0);
    }
}

#[test]
fn resources_that_cannot_be_made_are_not_there() {
    for fail in 0..6 {
        let mut device = Device { made: 0 };
        let mut setup: ResourceSetup<Numbered> = ResourceSetup::start();
        let mut made = 0;
        while let Some(creation) = setup.request() {
            let created = device.creation(creation);
            setup = setup.supply(if made == fail { None } else { Some(created) });
            made += 1;
        }
        assert_eq!(made, fail + 1);
        assert!(setup.finish().is_none());
    }
}

#[test]
fn a_texture_has_a_target_view_where_it_is_drawn_into() {
    for renderable in [false, true] {
        let mut device = Device { made: 0 };
        let mut setup: TextureSetup<Numbered> =
            TextureSetup::start(texture_request(5, 6, renderable));
        while let Some(part) = setup.request() {
            setup = setup.supply(Some(device.part(part)));
        }
        assert_eq!(device.made, if renderable { 3 } else { 2 });
        match setup {
            TextureSetup::Done { made } => assert_eq!(made.rtv.is_some(), renderable),
            _ => panic!("incomplete"),
        }
    }
}

#[test]
fn the_order_of_blurs_does_not_change_how_far_surfaces_grow() {
    let sizes = [[10, 200], [65, 3], [129, 10], [40, 150], [65, 3]];
    for start in 0..sizes.len() {
        let mut device = Device { made: 0 };
        let mut cache = device.resources();
        for i in 0..sizes.len() {
            device.draw(&mut cache, sizes[(start + i) % sizes.len()], 1, [193, 231]);
        }
        let layout = cache.scratch.as_ref().unwrap().layout();
        assert_eq!(layout, ScratchLayout { width: 192, height: 231, downsample: 1 });
    }
}

#[test]
fn surfaces_grow_in_tiles_up_to_the_drawable() {
    let mut device = Device { made: 0 };
    let mut cache = device.resources();
    let cases = [
        ([38, 34], 1, [193, 131], Some([64, 64])),
        ([32, 29], 1, [193, 131], None),
        ([64, 64], 1, [193, 131], None),
        ([65, 10], 1, [193, 131], Some([128, 64])),
        ([65, 10], 2, [193, 131], Some([128, 64])),
        ([10, 129], 2, [193, 131], Some([128, 131])),
        ([193, 131], 2, [193, 131], Some([193, 131])),
        ([1, 1], 4, [193, 131], Some([193, 131])),
    ];
    for (size, step, view, made) in cases {
        let before = device.made;
        device.draw(&mut cache, size, step, view);
        match made {
            None => assert_eq!(device.made, before),
            Some([width, height]) => {
                // Three textures with a view each, and two more views to draw into.
                assert_eq!(device.made, before + 8);
                let layout = cache.scratch.as_ref().unwrap().layout();
                assert_eq!(layout, ScratchLayout { width, height, downsample: step });
            }
        }
    }
}

#[test]
fn growth_saturates() {
    let mut device = Device { made: 0 };
    let mut cache = device.resources();
    assert_eq!(
        cache.ensure_scratch(u32::MAX, 0, 1, [u32::MAX, 7]),
        ScratchRequest::Create(ScratchLayout { width: u32::MAX, height: 0, downsample: 1 })
    );
}

#[test]
fn passes_shrink_their_surfaces() {
    let layout = ScratchLayout { width: 65, height: 67, downsample: 4 };
    assert_eq!(layout.narrow_width(), 17);
    assert_eq!(layout.low_height(), 17);
    assert_eq!(layout.snapshot_request(), texture_request(65, 67, false));
    assert_eq!(layout.horizontal_request(), texture_request(17, 67, true));
    assert_eq!(layout.vertical_request(), texture_request(17, 17, true));
    for a in 0..300u32 {
        for b in 1..9u32 {
            assert_eq!(div_ceil(a, b), (a + b - 1) / b);
        }
    }
}

#[test]
fn only_renderable_textures_bind_as_targets() {
    let read = texture_request(5, 6, false);
    let drawn = texture_request(5, 6, true);
    assert_eq!(read.desc.bind_flags, BIND_SHADER_RESOURCE);
    assert_eq!(drawn.desc.bind_flags, BIND_SHADER_RESOURCE | BIND_RENDER_TARGET);
    assert!(drawn.renderable && !read.renderable);
    assert_eq!([drawn.desc.width, drawn.desc.height], [5, 6]);
    assert_eq!([drawn.desc.mip_levels, drawn.desc.array_size, drawn.desc.sample_count], [1, 1, 1]);
}

#[test]
fn a_program_holds_its_stages() {
    let shaders: Shaders<Numbered> =
        Shaders::new((ShaderModule::BackdropPass, 1), (ShaderModule::BackdropPass, 2));
    assert_eq!(shaders.vertex.1, 1);
    assert_eq!(shaders.fragment.1, 2);
}
