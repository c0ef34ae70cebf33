//! In-memory image model: pixel formats, planes, surfaces, images.
use vstd::prelude::*;
use crate::types::DxgiFormat;

verus! {

/// The pixel layouts this crate reads, writes or decodes.
#[derive(Debug, Clone, Copy, PartialEq, Eq)]
pub enum DdsPixelFormat {
    // Legacy uncompressed layouts.
    A8R8G8B8,
    X8R8G8B8,
    A8B8G8R8,
    R8G8B8,
    R5G6B5,
    A1R5G5B5,
    A4R4G4B4,
    A8L8,
    L8,
    A8,
    // Block-compressed layouts.
    Bc1,
    Bc2,
    Bc3,
    Bc4Unorm,
    Bc4Snorm,
    Bc5Unorm,
    Bc5Snorm,
    Bc6hUf16,
    Bc6hSf16,
    Bc7Unorm,
    Bc7UnormSrgb,
    /// ASTC LDR with the given block footprint (width, height).
    Astc { block_w: u8, block_h: u8 },
    // Floating-point layouts.
    R16Float,
    R16G16Float,
    R16G16B16A16Float,
    R32Float,
    R32G32Float,
    R32G32B32A32Float,
    // Normalised integer layouts.
    R16G16B16A16Unorm,
    R16G16B16A16Snorm,
    R8Unorm,
    R8Snorm,
    R8G8Snorm,
    R8G8B8A8Snorm,
    R16Unorm,
    R16Snorm,
    R16G16Unorm,
    R16G16Snorm,
    // Plain integer layouts.
    R8Uint,
    R8Sint,
    R8G8Uint,
    R8G8Sint,
    R8G8B8A8Uint,
    R8G8B8A8Sint,
    R16Uint,
    R16Sint,
    R16G16Uint,
    R16G16Sint,
    R16G16B16A16Uint,
    R16G16B16A16Sint,
    R32Uint,
    R32Sint,
    R32G32Uint,
    R32G32Sint,
    R32G32B32Uint,
    R32G32B32Sint,
    R32G32B32A32Uint,
    R32G32B32A32Sint,
}

/// Bytes per 4×4 (or ASTC footprint) block of a block-compressed layout.
pub open spec fn spec_block_bytes(p: DdsPixelFormat) -> Option<u32> {
    match p {
        DdsPixelFormat::Bc1 | DdsPixelFormat::Bc4Unorm | DdsPixelFormat::Bc4Snorm => Some(8),
        DdsPixelFormat::Bc2 | DdsPixelFormat::Bc3 | DdsPixelFormat::Bc5Unorm
        | DdsPixelFormat::Bc5Snorm | DdsPixelFormat::Bc6hUf16 | DdsPixelFormat::Bc6hSf16
        | DdsPixelFormat::Bc7Unorm | DdsPixelFormat::Bc7UnormSrgb
        | DdsPixelFormat::Astc { .. } => Some(16),
        _ => None,
    }
}

/// Bytes per pixel of an uncompressed layout.
pub open spec fn spec_bytes_per_pixel(p: DdsPixelFormat) -> Option<u32> {
    match p {
        DdsPixelFormat::A8R8G8B8 | DdsPixelFormat::X8R8G8B8 | DdsPixelFormat::A8B8G8R8 => Some(4),
        DdsPixelFormat::R8G8B8 => Some(3),
        DdsPixelFormat::R5G6B5 | DdsPixelFormat::A1R5G5B5 | DdsPixelFormat::A4R4G4B4
        | DdsPixelFormat::A8L8 => Some(2),
        DdsPixelFormat::L8 | DdsPixelFormat::A8 => Some(1),
        DdsPixelFormat::R16Float => Some(2),
        DdsPixelFormat::R16G16Float => Some(4),
        DdsPixelFormat::R16G16B16A16Float => Some(8),
        DdsPixelFormat::R32Float => Some(4),
        DdsPixelFormat::R32G32Float => Some(8),
        DdsPixelFormat::R32G32B32A32Float => Some(16),
        DdsPixelFormat::R16G16B16A16Unorm | DdsPixelFormat::R16G16B16A16Snorm => Some(8),
        DdsPixelFormat::R8Unorm | DdsPixelFormat::R8Snorm => Some(1),
        DdsPixelFormat::R8G8Snorm => Some(2),
        DdsPixelFormat::R8G8B8A8Snorm => Some(4),
        DdsPixelFormat::R16Unorm | DdsPixelFormat::R16Snorm => Some(2),
        DdsPixelFormat::R16G16Unorm | DdsPixelFormat::R16G16Snorm => Some(4),
        DdsPixelFormat::R8Uint | DdsPixelFormat::R8Sint => Some(1),
        DdsPixelFormat::R8G8Uint | DdsPixelFormat::R8G8Sint => Some(2),
        DdsPixelFormat::R8G8B8A8Uint | DdsPixelFormat::R8G8B8A8Sint => Some(4),
        DdsPixelFormat::R16Uint | DdsPixelFormat::R16Sint => Some(2),
        DdsPixelFormat::R16G16Uint | DdsPixelFormat::R16G16Sint => Some(4),
        DdsPixelFormat::R16G16B16A16Uint | DdsPixelFormat::R16G16B16A16Sint => Some(8),
        DdsPixelFormat::R32Uint | DdsPixelFormat::R32Sint => Some(4),
        DdsPixelFormat::R32G32Uint | DdsPixelFormat::R32G32Sint => Some(8),
        DdsPixelFormat::R32G32B32Uint | DdsPixelFormat::R32G32B32Sint => Some(12),
        DdsPixelFormat::R32G32B32A32Uint | DdsPixelFormat::R32G32B32A32Sint => Some(16),
        _ => None,
    }
}

impl DdsPixelFormat {
    /// True for the block-compressed layouts (BC1..BC7, ASTC).
    pub fn is_block_compressed(&self) -> (b: bool)
        ensures
            b == spec_block_bytes(*self).is_some(),
    {
        match self {
            DdsPixelFormat::Bc1 | DdsPixelFormat::Bc2 | DdsPixelFormat::Bc3
            | DdsPixelFormat::Bc4Unorm | DdsPixelFormat::Bc4Snorm | DdsPixelFormat::Bc5Unorm
            | DdsPixelFormat::Bc5Snorm | DdsPixelFormat::Bc6hUf16 | DdsPixelFormat::Bc6hSf16
            | DdsPixelFormat::Bc7Unorm | DdsPixelFormat::Bc7UnormSrgb
            | DdsPixelFormat::Astc { .. } => true,
            _ => false,
        }
    }

    /// Bytes per block of a block-compressed layout, `None` otherwise.
    pub fn block_bytes(&self) -> (r: Option<u32>)
        ensures
            r == spec_block_bytes(*self),
    {
        match self {
            DdsPixelFormat::Bc1 | DdsPixelFormat::Bc4Unorm | DdsPixelFormat::Bc4Snorm => Some(8),
            DdsPixelFormat::Bc2 | DdsPixelFormat::Bc3 | DdsPixelFormat::Bc5Unorm
            | DdsPixelFormat::Bc5Snorm | DdsPixelFormat::Bc6hUf16 | DdsPixelFormat::Bc6hSf16
            | DdsPixelFormat::Bc7Unorm | DdsPixelFormat::Bc7UnormSrgb
            | DdsPixelFormat::Astc { .. } => Some(16),
            _ => None,
        }
    }

    /// Bytes per pixel of an uncompressed layout, `None` for block layouts.
    pub fn bytes_per_pixel(&self) -> (r: Option<u32>)
        ensures
            r == spec_bytes_per_pixel(*self),
            r.is_some() <==> spec_block_bytes(*self).is_none(),
    {
        match self {
            DdsPixelFormat::A8R8G8B8 | DdsPixelFormat::X8R8G8B8 | DdsPixelFormat::A8B8G8R8 => Some(4),
            DdsPixelFormat::R8G8B8 => Some(3),
            DdsPixelFormat::R5G6B5 | DdsPixelFormat::A1R5G5B5 | DdsPixelFormat::A4R4G4B4
            | DdsPixelFormat::A8L8 => Some(2),
            DdsPixelFormat::L8 | DdsPixelFormat::A8 => Some(1),
            DdsPixelFormat::R16Float => Some(2),
            DdsPixelFormat::R16G16Float => Some(4),
            DdsPixelFormat::R16G16B16A16Float => Some(8),
            DdsPixelFormat::R32Float => Some(4),
            DdsPixelFormat::R32G32Float => Some(8),
            DdsPixelFormat::R32G32B32A32Float => Some(16),
            DdsPixelFormat::R16G16B16A16Unorm | DdsPixelFormat::R16G16B16A16Snorm => Some(8),
            DdsPixelFormat::R8Unorm | DdsPixelFormat::R8Snorm => Some(1),
            DdsPixelFormat::R8G8Snorm => Some(2),
            DdsPixelFormat::R8G8B8A8Snorm => Some(4),
            DdsPixelFormat::R16Unorm | DdsPixelFormat::R16Snorm => Some(2),
            DdsPixelFormat::R16G16Unorm | DdsPixelFormat::R16G16Snorm => Some(4),
            DdsPixelFormat::R8Uint | DdsPixelFormat::R8Sint => Some(1),
            DdsPixelFormat::R8G8Uint | DdsPixelFormat::R8G8Sint => Some(2),
            DdsPixelFormat::R8G8B8A8Uint | DdsPixelFormat::R8G8B8A8Sint => Some(4),
            DdsPixelFormat::R16Uint | DdsPixelFormat::R16Sint => Some(2),
            DdsPixelFormat::R16G16Uint | DdsPixelFormat::R16G16Sint => Some(4),
            DdsPixelFormat::R16G16B16A16Uint | DdsPixelFormat::R16G16B16A16Sint => Some(8),
            DdsPixelFormat::R32Uint | DdsPixelFormat::R32Sint => Some(4),
            DdsPixelFormat::R32G32Uint | DdsPixelFormat::R32G32Sint => Some(8),
            DdsPixelFormat::R32G32B32Uint | DdsPixelFormat::R32G32B32Sint => Some(12),
            DdsPixelFormat::R32G32B32A32Uint | DdsPixelFormat::R32G32B32A32Sint => Some(16),
            _ => None,
        }
    }

    /// The ASTC block footprint, `None` for every other layout.
    pub fn astc_footprint(&self) -> (r: Option<(u32, u32)>)
        ensures
            r == (match *self {
                DdsPixelFormat::Astc { block_w, block_h } => Some((block_w as u32, block_h as u32)),
                _ => None,
            }),
    {
        match self {
            DdsPixelFormat::Astc { block_w, block_h } => Some((*block_w as u32, *block_h as u32)),
            _ => None,
        }
    }
}

/// The six cubemap faces in the on-disk order (+X, -X, +Y, -Y, +Z, -Z).
#[derive(Debug, Clone, Copy, PartialEq, Eq)]
pub enum CubemapFace {
    PositiveX,
    NegativeX,
    PositiveY,
    NegativeY,
    PositiveZ,
    NegativeZ,
}

/// The face at position `i` of the on-disk face order.
pub open spec fn spec_face_at(i: int) -> CubemapFace {
    if i == 0 {
        CubemapFace::PositiveX
    } else if i == 1 {
        CubemapFace::NegativeX
    } else if i == 2 {
        CubemapFace::PositiveY
    } else if i == 3 {
        CubemapFace::NegativeY
    } else if i == 4 {
        CubemapFace::PositiveZ
    } else {
        CubemapFace::NegativeZ
    }
}

impl CubemapFace {
    /// The face at position `i` (0..6) of the on-disk face order.
    pub fn at(i: u32) -> (f: CubemapFace)
        requires
            i < 6,
        ensures
            f == spec_face_at(i as int),
    {
        if i == 0 {
            CubemapFace::PositiveX
        } else if i == 1 {
            CubemapFace::NegativeX
        } else if i == 2 {
            CubemapFace::PositiveY
        } else if i == 3 {
            CubemapFace::NegativeY
        } else if i == 4 {
            CubemapFace::PositiveZ
        } else {
            CubemapFace::NegativeZ
        }
    }
}

/// One plane of pixel (or block) bytes with its row stride.
#[derive(Debug)]
pub struct DdsPlane {
    pub stride: usize,
    pub data: Vec<u8>,
}

/// One on-disk surface: an (array slice, face, mip level, depth slice) tuple.
#[derive(Debug)]
pub struct DdsSurface {
    pub width: u32,
    pub height: u32,
    pub mip_level: u32,
    pub array_slice: u32,
    pub face: Option<CubemapFace>,
    pub depth_slice: u32,
    pub plane: DdsPlane,
}

/// A parsed (or to-be-written) DDS image.
#[derive(Debug)]
pub struct DdsImage {
    pub width: u32,
    pub height: u32,
    pub pixel_format: DdsPixelFormat,
    /// `planes[0]` mirrors `surfaces[0].plane`.
    pub planes: Vec<DdsPlane>,
    /// Every surface, in on-disk order.
    pub surfaces: Vec<DdsSurface>,
    pub pts: Option<i64>,
    pub mip_map_count: u32,
    pub has_dxt10_header: bool,
    pub dxgi_format: Option<DxgiFormat>,
    pub is_cubemap: bool,
    pub array_size: u32,
    pub depth: u32,
}

} // verus!
