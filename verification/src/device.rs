//! What the blur asks a Direct3D 11 device to create, as plain numbers.
use crate::geometry::Register;
use crate::single::{lemma_rank_order, F32};
use vstd::prelude::*;

verus! {

/// `DXGI_FORMAT_B8G8R8A8_UNORM`, the format of the main target and of every surface here.
pub const RENDER_TARGET_FORMAT: u32 = 87;

/// `D3D11_BIND_CONSTANT_BUFFER`.
pub const BIND_CONSTANT_BUFFER: u32 = 0x4;

/// `D3D11_BIND_SHADER_RESOURCE`.
pub const BIND_SHADER_RESOURCE: u32 = 0x8;

/// `D3D11_BIND_RENDER_TARGET`.
pub const BIND_RENDER_TARGET: u32 = 0x20;

/// `D3D11_USAGE_DEFAULT`.
pub const USAGE_DEFAULT: u32 = 0;

/// `D3D11_USAGE_DYNAMIC`.
pub const USAGE_DYNAMIC: u32 = 2;

/// `D3D11_CPU_ACCESS_WRITE`.
pub const CPU_ACCESS_WRITE: u32 = 0x1_0000;

/// `D3D11_FILTER_MIN_MAG_MIP_LINEAR`.
pub const FILTER_MIN_MAG_MIP_LINEAR: u32 = 0x15;

/// `D3D11_TEXTURE_ADDRESS_CLAMP`.
pub const TEXTURE_ADDRESS_CLAMP: u32 = 3;

/// `D3D11_COMPARISON_ALWAYS`.
pub const COMPARISON_ALWAYS: u32 = 8;

/// The bits of `D3D11_FLOAT32_MAX`, the largest finite value.
pub const FLOAT32_MAX: u32 = 0x7f7f_ffff;

/// The bytes of the constant buffer: 38 registers of 16 bytes.
pub const PARAMS_BYTES: u32 = 608;

/// A two-dimensional texture, field for field as the device describes one.
#[derive(Clone, Copy, Debug, PartialEq, Eq, Structural)]
pub struct TextureDesc {
    pub width: u32,
    pub height: u32,
    pub mip_levels: u32,
    pub array_size: u32,
    pub format: u32,
    pub sample_count: u32,
    pub sample_quality: u32,
    pub usage: u32,
    pub bind_flags: u32,
    pub cpu_access_flags: u32,
    pub misc_flags: u32,
}

/// A texture to create: its description, and whether a render target view is created beside the
/// shader resource view that every texture gets.
#[derive(Clone, Copy, Debug, PartialEq, Eq, Structural)]
pub struct TextureRequest {
    pub desc: TextureDesc,
    pub renderable: bool,
}

/// A buffer, field for field as the device describes one.
#[derive(Clone, Copy, Debug, PartialEq, Eq, Structural)]
pub struct BufferDesc {
    pub byte_width: u32,
    pub usage: u32,
    pub bind_flags: u32,
    pub cpu_access_flags: u32,
    pub misc_flags: u32,
    pub structure_byte_stride: u32,
}

/// A sampler, field for field as the device describes one.
#[derive(Clone, Copy, Debug, PartialEq, Eq, Structural)]
pub struct SamplerDesc {
    pub filter: u32,
    pub address_u: u32,
    pub address_v: u32,
    pub address_w: u32,
    pub mip_lod_bias: F32,
    pub max_anisotropy: u32,
    pub comparison: u32,
    pub border_color: Register,
    pub min_lod: F32,
    pub max_lod: F32,
}

/// The shader programs of the blur.
#[derive(Clone, Copy, Debug, PartialEq, Eq, Structural)]
pub enum ShaderModule {
    /// Filters along one axis.
    BackdropPass,
    /// Puts the result back inside the rounded rectangle.
    BackdropComposite,
}

/// The two stages of a shader program.
#[derive(Clone, Copy, Debug, PartialEq, Eq, Structural)]
pub enum ShaderTarget {
    Vertex,
    Fragment,
}

/// A texture with one level that shaders read, and that they also draw into if `renderable`.
pub open spec fn texture_request_of(width: u32, height: u32, renderable: bool) -> TextureRequest {
    TextureRequest {
        desc: TextureDesc {
            width,
            height,
            mip_levels: 1,
            array_size: 1,
            format: RENDER_TARGET_FORMAT,
            sample_count: 1,
            sample_quality: 0,
            usage: USAGE_DEFAULT,
            bind_flags: if renderable { 0x28 } else { 0x8 },
            cpu_access_flags: 0,
            misc_flags: 0,
        },
        renderable,
    }
}

/// The request for a texture of the given size.
pub fn texture_request(width: u32, height: u32, renderable: bool) -> (r: TextureRequest)
    ensures
        r == texture_request_of(width, height, renderable),
{
    proof {
        assert(0x8u32 | 0x20u32 == 0x28u32) by (bit_vector);
        assert(0x8u32 | 0u32 == 0x8u32) by (bit_vector);
    }
    let bind_flags: u32 = BIND_SHADER_RESOURCE | if renderable { BIND_RENDER_TARGET } else { 0 };
    TextureRequest {
        desc: TextureDesc {
            width,
            height,
            mip_levels: 1,
            array_size: 1,
            format: RENDER_TARGET_FORMAT,
            sample_count: 1,
            sample_quality: 0,
            usage: USAGE_DEFAULT,
            bind_flags,
            cpu_access_flags: 0,
            misc_flags: 0,
        },
        renderable,
    }
}

/// The constant buffer of a pass: rewritten by the processor before every draw.
pub open spec fn params_buffer() -> BufferDesc {
    BufferDesc {
        byte_width: PARAMS_BYTES,
        usage: USAGE_DYNAMIC,
        bind_flags: BIND_CONSTANT_BUFFER,
        cpu_access_flags: CPU_ACCESS_WRITE,
        misc_flags: 0,
        structure_byte_stride: 0,
    }
}

/// The sampler of every pass: linear, clamped to the edge on each axis, of every level.
pub open spec fn linear_sampler() -> SamplerDesc {
    let nil = F32 { bits: 0 };
    SamplerDesc {
        filter: FILTER_MIN_MAG_MIP_LINEAR,
        address_u: TEXTURE_ADDRESS_CLAMP,
        address_v: TEXTURE_ADDRESS_CLAMP,
        address_w: TEXTURE_ADDRESS_CLAMP,
        mip_lod_bias: nil,
        max_anisotropy: 1,
        comparison: COMPARISON_ALWAYS,
        border_color: Register { x: nil, y: nil, z: nil, w: nil },
        min_lod: nil,
        max_lod: F32 { bits: FLOAT32_MAX },
    }
}

/// The description of the constant buffer.
pub fn params_buffer_desc() -> (r: BufferDesc)
    ensures
        r == params_buffer(),
{
    BufferDesc {
        byte_width: PARAMS_BYTES,
        usage: USAGE_DYNAMIC,
        bind_flags: BIND_CONSTANT_BUFFER,
        cpu_access_flags: CPU_ACCESS_WRITE,
        misc_flags: 0,
        structure_byte_stride: 0,
    }
}

/// The description of the sampler.
pub fn sampler_desc() -> (r: SamplerDesc)
    ensures
        r == linear_sampler(),
{
    let nil = F32::from_bits(0);
    SamplerDesc {
        filter: FILTER_MIN_MAG_MIP_LINEAR,
        address_u: TEXTURE_ADDRESS_CLAMP,
        address_v: TEXTURE_ADDRESS_CLAMP,
        address_w: TEXTURE_ADDRESS_CLAMP,
        mip_lod_bias: nil,
        max_anisotropy: 1,
        comparison: COMPARISON_ALWAYS,
        border_color: Register { x: nil, y: nil, z: nil, w: nil },
        min_lod: nil,
        max_lod: F32::from_bits(FLOAT32_MAX),
    }
}

/// A requested texture is one that a device accepts and a pass can use, whatever its size: of the
/// size asked for, with one level, one slice and one sample of quality zero, eight bits for each
/// of blue, green, red and alpha, default usage without access for the processor and without
/// further flags. Shaders can always read it; it can be drawn into just where that is asked for,
/// and it serves nothing else.
pub proof fn law_texture_is_accepted(width: u32, height: u32, renderable: bool)
    ensures
        ({
            let request = texture_request_of(width, height, renderable);
            let desc = request.desc;
            &&& desc.width == width
            &&& desc.height == height
            &&& desc.mip_levels == 1
            &&& desc.array_size == 1
            &&& desc.format == 87
            &&& desc.sample_count == 1
            &&& desc.sample_quality == 0
            &&& desc.usage == 0
            &&& desc.cpu_access_flags == 0
            &&& desc.misc_flags == 0
            &&& desc.bind_flags & 0x8 == 0x8
            &&& desc.bind_flags & 0x20 == if renderable {
                0x20u32
            } else {
                0u32
            }
            &&& desc.bind_flags & !0x28u32 == 0
            &&& request.renderable == renderable
        }),
{
    assert(0x28u32 & 0x8 == 0x8 && 0x8u32 & 0x8 == 0x8) by (bit_vector);
    assert(0x28u32 & 0x20 == 0x20 && 0x8u32 & 0x20 == 0) by (bit_vector);
    assert(0x28u32 & !0x28u32 == 0 && 0x8u32 & !0x28u32 == 0) by (bit_vector);
}

/// The parameter buffer is one that a device accepts and that is rewritten before every draw: of
/// whole registers, dynamic, written by the processor, bound as constants and as nothing else.
pub proof fn law_params_buffer_is_accepted()
    ensures
        ({
            let desc = params_buffer();
            &&& desc.byte_width == 608
            &&& desc.byte_width % 16 == 0
            &&& desc.usage == 2
            &&& desc.bind_flags == 0x4
            &&& desc.cpu_access_flags == 0x1_0000
            &&& desc.misc_flags == 0
            &&& desc.structure_byte_stride == 0
        }),
{
}

/// The sampler blends neighbouring texels linearly, repeats the edge outside the texture on every
/// axis, and leaves no level out.
pub proof fn law_sampler_blends_and_clamps()
    ensures
        ({
            let desc = linear_sampler();
            &&& desc.filter == 0x15
            &&& desc.address_u == 3
            &&& desc.address_v == 3
            &&& desc.address_w == 3
            &&& desc.mip_lod_bias.bits == 0
            &&& desc.max_anisotropy == 1
            &&& desc.comparison == 8
            &&& desc.border_color.x.bits == 0
            &&& desc.border_color.y.bits == 0
            &&& desc.border_color.z.bits == 0
            &&& desc.border_color.w.bits == 0
            &&& desc.min_lod.bits == 0
            &&& desc.max_lod.finite()
            &&& forall|level: F32| level.finite() ==> #[trigger] level.units()
                <= desc.max_lod.units()
        }),
{
    let most = F32 { bits: 0x7f7f_ffff };
    assert forall|level: F32| level.finite() implies #[trigger] level.units() <= most.units() by {
        lemma_rank_order(most, level);
        lemma_rank_order(level, most);
    }
}

} // verus!
