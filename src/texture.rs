//! Creation descriptions for declared textures, and texture sizes that
//! follow window sizes.
use vstd::prelude::*;
use crate::data::{ResourceState, TextureInfo, TextureSizeRatio};

verus! {

/// Dimensionality of a texture.
#[derive(PartialEq, Eq, Structural, Clone, Copy, Debug)]
pub enum TextureType {
    Texture1D,
    Texture2D,
    Texture3D,
}

/// The ways a texture may be bound.
#[derive(PartialEq, Eq, Structural, Clone, Copy, Debug)]
pub struct TextureUsage {
    pub shader_resource: bool,
    pub unordered_access: bool,
    pub render_target: bool,
    pub depth_stencil: bool,
    pub video_decode_target: bool,
}

/// Everything the device needs to create a texture.
#[derive(Clone, Debug)]
pub struct TextureDesc {
    pub width: u64,
    pub height: u64,
    pub tex_type: TextureType,
    pub initial_state: ResourceState,
    pub usage: TextureUsage,
    pub depth: u32,
    pub mip_levels: u32,
    pub array_levels: u32,
    pub samples: u32,
    pub format: String,
}

/// 3D when deeper than one slice, else 2D when taller than one row, else 1D.
pub open spec fn texture_type_of(depth: u32, height: u64) -> TextureType {
    if depth > 1 {
        TextureType::Texture3D
    } else if height > 1 {
        TextureType::Texture2D
    } else {
        TextureType::Texture1D
    }
}

/// The state a texture is created in: shader resource if it is ever sampled, else depth
/// stencil, else render target, else shader resource.
pub open spec fn initial_state_of(usage: Seq<ResourceState>) -> ResourceState {
    if usage.contains(ResourceState::ShaderResource) {
        ResourceState::ShaderResource
    } else if usage.contains(ResourceState::DepthStencil) {
        ResourceState::DepthStencil
    } else if usage.contains(ResourceState::RenderTarget) {
        ResourceState::RenderTarget
    } else {
        ResourceState::ShaderResource
    }
}

pub open spec fn usage_of(usage: Seq<ResourceState>) -> TextureUsage {
    TextureUsage {
        shader_resource: usage.contains(ResourceState::ShaderResource),
        unordered_access: usage.contains(ResourceState::UnorderedAccess),
        render_target: usage.contains(ResourceState::RenderTarget),
        depth_stencil: usage.contains(ResourceState::DepthStencil),
        video_decode_target: usage.contains(ResourceState::VideoDecodeWrite),
    }
}

/// Whether `usage` holds `state`.
fn uses(usage: &Vec<ResourceState>, state: ResourceState) -> (r: bool)
    ensures
        r == usage@.contains(state),
{
    let mut i: usize = 0;
    while i < usage.len()
        invariant
            i <= usage@.len(),
            forall|j: int| 0 <= j < i ==> usage@[j] != state,
        decreases usage@.len() - i,
    {
        if usage[i] == state {
            return true;
        }
        i += 1;
    }
    false
}

/// `d` describes the declared texture `info` at `size`.
pub open spec fn describes(d: TextureDesc, info: TextureInfo, size: (u64, u64)) -> bool {
    &&& d.width == size.0
    &&& d.height == size.1
    &&& d.tex_type == texture_type_of(info.depth, size.1)
    &&& d.initial_state == initial_state_of(info.usage@)
    &&& d.usage == usage_of(info.usage@)
    &&& d.depth == info.depth
    &&& d.mip_levels == info.mip_levels
    &&& d.array_levels == info.array_levels
    &&& d.samples == info.samples
    &&& d.format@ == info.format@
}

/// The creation description of a declared texture at the given size.
pub fn to_gfx_texture_info(info: &TextureInfo, size: (u64, u64)) -> (r: TextureDesc)
    ensures
        describes(r, *info, size),
{
    let (width, height) = size;
    let tex_type = if info.depth > 1 {
        TextureType::Texture3D
    } else if height > 1 {
        TextureType::Texture2D
    } else {
        TextureType::Texture1D
    };
    let initial_state = if uses(&info.usage, ResourceState::ShaderResource) {
        ResourceState::ShaderResource
    } else if uses(&info.usage, ResourceState::DepthStencil) {
        ResourceState::DepthStencil
    } else if uses(&info.usage, ResourceState::RenderTarget) {
        ResourceState::RenderTarget
    } else {
        ResourceState::ShaderResource
    };
    let usage = TextureUsage {
        shader_resource: uses(&info.usage, ResourceState::ShaderResource),
        unordered_access: uses(&info.usage, ResourceState::UnorderedAccess),
        render_target: uses(&info.usage, ResourceState::RenderTarget),
        depth_stencil: uses(&info.usage, ResourceState::DepthStencil),
        video_decode_target: uses(&info.usage, ResourceState::VideoDecodeWrite),
    };
    TextureDesc {
        width,
        height,
        tex_type,
        initial_state,
        usage,
        depth: info.depth,
        mip_levels: info.mip_levels,
        array_levels: info.array_levels,
        samples: info.samples,
        format: info.format.clone(),
    }
}

/// Whether a texture must be transitioned automatically: it is sampled and also written
/// as a render target or depth stencil.
pub open spec fn needs_transitions(usage: Seq<ResourceState>) -> bool {
    usage.contains(ResourceState::ShaderResource) && (usage.contains(ResourceState::RenderTarget)
        || usage.contains(ResourceState::DepthStencil))
}

pub fn is_transitioned(usage: &Vec<ResourceState>) -> (r: bool)
    ensures
        r == needs_transitions(usage@),
{
    uses(usage, ResourceState::ShaderResource) && (uses(usage, ResourceState::RenderTarget) || uses(
        usage,
        ResourceState::DepthStencil,
    ))
}

/// One dimension of a window-sized texture: the window dimension scaled, raised to at
/// least the sample count so that an empty window still gives a valid texture.
pub open spec fn ratio_dimension(window: u32, samples: u32, num: u32, den: u32) -> int {
    let scaled = (window as int) * (num as int) / (den as int);
    if scaled >= samples { scaled } else { samples as int }
}

/// The size of a window-sized texture.
pub fn ratio_size(window: (u32, u32), samples: u32, ratio: &TextureSizeRatio) -> (r: (u64, u64))
    requires
        ratio.scale_den > 0,
    ensures
        r.0 == ratio_dimension(window.0, samples, ratio.scale_num, ratio.scale_den),
        r.1 == ratio_dimension(window.1, samples, ratio.scale_num, ratio.scale_den),
{
    let w: u64 = window.0 as u64;
    let h: u64 = window.1 as u64;
    let num = ratio.scale_num as u64;
    let den = ratio.scale_den as u64;
    proof {
        assert(w * num <= u32::MAX * u32::MAX) by (nonlinear_arith)
            requires
                w <= u32::MAX,
                num <= u32::MAX,
        ;
        assert(h * num <= u32::MAX * u32::MAX) by (nonlinear_arith)
            requires
                h <= u32::MAX,
                num <= u32::MAX,
        ;
    }
    let sw = (w * num) / den;
    let sh = (h * num) / den;
    let s = samples as u64;
    (if sw >= s { sw } else { s }, if sh >= s { sh } else { s })
}

} // verus!
