//! DDS reader: parses a complete in-memory DDS byte stream into a
//! [`DdsImage`] carrying every (array slice, face, mip level, depth slice)
//! surface in the on-disk order.
use vstd::prelude::*;
use crate::error::{DdsError, Result, is_invalid, is_unsupported};
use crate::image::{
    CubemapFace, DdsImage, DdsPixelFormat, DdsPlane, DdsSurface, spec_block_bytes, spec_face_at,
    spec_bytes_per_pixel,
};
use crate::bitfacts::lemma_half_smaller;
use crate::le::le_u32;
use crate::surface::ceil4;
use crate::types::{
    DdsHeader, DdsHeaderDxt10, DdsPixelFormatHeader, DxgiFormat, DDPF_ALPHA, DDPF_ALPHAPIXELS,
    DDPF_FOURCC, DDPF_LUMINANCE, DDPF_RGB, DDSCAPS2_CUBEMAP, DDSCAPS2_CUBEMAP_ALL_FACES,
    DDSCAPS2_CUBEMAP_NEGATIVEX, DDSCAPS2_CUBEMAP_NEGATIVEY, DDSCAPS2_CUBEMAP_NEGATIVEZ,
    DDSCAPS2_CUBEMAP_POSITIVEX, DDSCAPS2_CUBEMAP_POSITIVEY, DDSCAPS2_CUBEMAP_POSITIVEZ,
    DDSCAPS2_VOLUME, DDSD_MIPMAPCOUNT, DDSD_REQUIRED, DDS_DIMENSION_TEXTURE3D,
    DDS_HEADER_DXT10_SIZE, DDS_HEADER_SIZE, DDS_MAGIC, DDS_PIXELFORMAT_SIZE,
    DDS_RESOURCE_MISC_TEXTURECUBE, FOURCC_ATI1, FOURCC_ATI2, FOURCC_BC4S, FOURCC_BC4U,
    FOURCC_BC5S, FOURCC_BC5U, FOURCC_DX10, FOURCC_DXT1, FOURCC_DXT2, FOURCC_DXT3, FOURCC_DXT4,
    FOURCC_DXT5,
};

verus! {

// ---- Byte readers -----------------------------------------------------------

/// Read the little-endian `u32` at `off`; `InvalidData` when it runs past
/// the end of `buf`.
fn read_u32_le(buf: &[u8], off: usize) -> (r: Result<u32>)
    ensures
        off + 4 <= buf@.len() ==> r == Ok::<u32, DdsError>(le_u32(buf@, off as int)),
        off + 4 > buf@.len() ==> is_invalid(r),
{
    let len = buf.len();
    if off > len || len - off < 4 {
        return Err(DdsError::invalid("read u32 runs past the end of the buffer"));
    }
    Ok(crate::le::read_u32_le(buf, off))
}

/// The `DDS_PIXELFORMAT` record stored at `off`.
pub open spec fn spec_pixel_format(b: Seq<u8>, off: int) -> DdsPixelFormatHeader {
    DdsPixelFormatHeader {
        size: le_u32(b, off),
        flags: le_u32(b, off + 4),
        four_cc: le_u32(b, off + 8),
        rgb_bit_count: le_u32(b, off + 12),
        r_bit_mask: le_u32(b, off + 16),
        g_bit_mask: le_u32(b, off + 20),
        b_bit_mask: le_u32(b, off + 24),
        a_bit_mask: le_u32(b, off + 28),
    }
}

/// Parse the embedded `DDS_PIXELFORMAT` (32 bytes) starting at `off`.
fn parse_pixel_format(buf: &[u8], off: usize) -> (r: Result<DdsPixelFormatHeader>)
    requires
        off + 32 <= usize::MAX,
    ensures
        (off + 32 <= buf@.len() && le_u32(buf@, off as int) == DDS_PIXELFORMAT_SIZE) ==> r
            == Ok::<DdsPixelFormatHeader, DdsError>(spec_pixel_format(buf@, off as int)),
        !(off + 32 <= buf@.len() && le_u32(buf@, off as int) == DDS_PIXELFORMAT_SIZE) ==> is_invalid(
            r,
        ),
{
    let size = read_u32_le(buf, off)?;
    if size != DDS_PIXELFORMAT_SIZE as u32 {
        return Err(DdsError::invalid("DDS_PIXELFORMAT.size is not 32"));
    }
    Ok(DdsPixelFormatHeader {
        size,
        flags: read_u32_le(buf, off + 4)?,
        four_cc: read_u32_le(buf, off + 8)?,
        rgb_bit_count: read_u32_le(buf, off + 12)?,
        r_bit_mask: read_u32_le(buf, off + 16)?,
        g_bit_mask: read_u32_le(buf, off + 20)?,
        b_bit_mask: read_u32_le(buf, off + 24)?,
        a_bit_mask: read_u32_le(buf, off + 28)?,
    })
}

/// The fields of the `DDS_HEADER` stored at `off` (see [`parse_header`]).
pub open spec fn header_matches(h: DdsHeader, b: Seq<u8>, off: int) -> bool {
    &&& h.size == le_u32(b, off)
    &&& h.flags == le_u32(b, off + 4)
    &&& h.height == le_u32(b, off + 8)
    &&& h.width == le_u32(b, off + 12)
    &&& h.pitch_or_linear_size == le_u32(b, off + 16)
    &&& h.depth == le_u32(b, off + 20)
    &&& h.mip_map_count == le_u32(b, off + 24)
    &&& forall|i: int| 0 <= i < 11 ==> #[trigger] h.reserved1@[i] == le_u32(b, off + 28 + 4 * i)
    &&& h.pixel_format == spec_pixel_format(b, off + 72)
    &&& h.caps == le_u32(b, off + 104)
    &&& h.caps2 == le_u32(b, off + 108)
    &&& h.caps3 == le_u32(b, off + 112)
    &&& h.caps4 == le_u32(b, off + 116)
    &&& h.reserved2 == le_u32(b, off + 120)
}

/// Whether a `DDS_HEADER` can be parsed at `off`: 124 bytes present, its
/// `size` field 124 and its pixel format's `size` field 32.
pub open spec fn header_ok(b: Seq<u8>, off: int) -> bool {
    &&& off + 124 <= b.len()
    &&& le_u32(b, off) == DDS_HEADER_SIZE
    &&& le_u32(b, off + 72) == DDS_PIXELFORMAT_SIZE
}

/// Parse the fixed-layout `DDS_HEADER` (124 bytes) starting at `off`.
fn parse_header(buf: &[u8], off: usize) -> (r: Result<DdsHeader>)
    requires
        off + 124 <= usize::MAX,
    ensures
        header_ok(buf@, off as int) ==> (r matches Ok(h) && header_matches(h, buf@, off as int)),
        !header_ok(buf@, off as int) ==> is_invalid(r),
{
    let size = read_u32_le(buf, off)?;
    if size != DDS_HEADER_SIZE as u32 {
        return Err(DdsError::invalid("DDS_HEADER.size is not 124"));
    }
    let flags = read_u32_le(buf, off + 4)?;
    let height = read_u32_le(buf, off + 8)?;
    let width = read_u32_le(buf, off + 12)?;
    let pitch_or_linear_size = read_u32_le(buf, off + 16)?;
    let depth = read_u32_le(buf, off + 20)?;
    let mip_map_count = read_u32_le(buf, off + 24)?;

    let mut reserved1 = [0u32; 11];
    let mut i: usize = 0;
    while i < 11
        invariant
            off + 124 <= usize::MAX,
            i <= 11,
            off + 28 <= buf@.len(),
            le_u32(buf@, off as int) == DDS_HEADER_SIZE,
            forall|k: int| 0 <= k < i ==> #[trigger] reserved1@[k] == le_u32(buf@, off + 28 + 4 * k),
        decreases 11 - i,
    {
        reserved1[i] = read_u32_le(buf, off + 28 + i * 4)?;
        i += 1;
    }
    let pixel_format = parse_pixel_format(buf, off + 72)?;
    Ok(DdsHeader {
        size,
        flags,
        height,
        width,
        pitch_or_linear_size,
        depth,
        mip_map_count,
        reserved1,
        pixel_format,
        caps: read_u32_le(buf, off + 104)?,
        caps2: read_u32_le(buf, off + 108)?,
        caps3: read_u32_le(buf, off + 112)?,
        caps4: read_u32_le(buf, off + 116)?,
        reserved2: read_u32_le(buf, off + 120)?,
    })
}

/// The `DDS_HEADER_DXT10` record stored at `off`.
pub open spec fn spec_dxt10(b: Seq<u8>, off: int) -> DdsHeaderDxt10 {
    DdsHeaderDxt10 {
        dxgi_format: le_u32(b, off),
        resource_dimension: le_u32(b, off + 4),
        misc_flag: le_u32(b, off + 8),
        array_size: le_u32(b, off + 12),
        misc_flags2: le_u32(b, off + 16),
    }
}

/// Parse the optional `DDS_HEADER_DXT10` (20 bytes) starting at `off`.
fn parse_dxt10(buf: &[u8], off: usize) -> (r: Result<DdsHeaderDxt10>)
    requires
        off + 20 <= usize::MAX,
    ensures
        off + 20 <= buf@.len() ==> r == Ok::<DdsHeaderDxt10, DdsError>(spec_dxt10(buf@, off as int)),
        off + 20 > buf@.len() ==> is_invalid(r),
{
    Ok(DdsHeaderDxt10 {
        dxgi_format: read_u32_le(buf, off)?,
        resource_dimension: read_u32_le(buf, off + 4)?,
        misc_flag: read_u32_le(buf, off + 8)?,
        array_size: read_u32_le(buf, off + 12)?,
        misc_flags2: read_u32_le(buf, off + 16)?,
    })
}

// ---- Pixel-format resolution --------------------------------------------------

/// The layout a legacy (non-DX10) `DDS_PIXELFORMAT` names, if it is one
/// this reader lays out: a FourCC block format, or one of the RGB(A),
/// luminance and alpha-only bit-mask layouts.
pub open spec fn spec_legacy_format(p: DdsPixelFormatHeader) -> Option<DdsPixelFormat> {
    let rgb = p.flags & DDPF_RGB != 0;
    let alpha_pixels = p.flags & DDPF_ALPHAPIXELS != 0;
    let alpha_only = p.flags & DDPF_ALPHA != 0;
    let luminance = p.flags & DDPF_LUMINANCE != 0;
    if p.flags & DDPF_FOURCC != 0 {
        if p.four_cc == FOURCC_DXT1 {
            Some(DdsPixelFormat::Bc1)
        } else if p.four_cc == FOURCC_DXT2 || p.four_cc == FOURCC_DXT3 {
            Some(DdsPixelFormat::Bc2)
        } else if p.four_cc == FOURCC_DXT4 || p.four_cc == FOURCC_DXT5 {
            Some(DdsPixelFormat::Bc3)
        } else if p.four_cc == FOURCC_BC4U || p.four_cc == FOURCC_ATI1 {
            Some(DdsPixelFormat::Bc4Unorm)
        } else if p.four_cc == FOURCC_BC4S {
            Some(DdsPixelFormat::Bc4Snorm)
        } else if p.four_cc == FOURCC_BC5U || p.four_cc == FOURCC_ATI2 {
            Some(DdsPixelFormat::Bc5Unorm)
        } else if p.four_cc == FOURCC_BC5S {
            Some(DdsPixelFormat::Bc5Snorm)
        } else {
            None
        }
    } else if rgb && p.rgb_bit_count == 32 && alpha_pixels && p.r_bit_mask == 0x00ff_0000
        && p.g_bit_mask == 0x0000_ff00 && p.b_bit_mask == 0x0000_00ff && p.a_bit_mask
        == 0xff00_0000 {
        Some(DdsPixelFormat::A8R8G8B8)
    } else if rgb && p.rgb_bit_count == 32 && alpha_pixels && p.r_bit_mask == 0x0000_00ff
        && p.g_bit_mask == 0x0000_ff00 && p.b_bit_mask == 0x00ff_0000 && p.a_bit_mask
        == 0xff00_0000 {
        Some(DdsPixelFormat::A8B8G8R8)
    } else if rgb && p.rgb_bit_count == 32 && !alpha_pixels && p.r_bit_mask == 0x00ff_0000
        && p.g_bit_mask == 0x0000_ff00 && p.b_bit_mask == 0x0000_00ff {
        Some(DdsPixelFormat::X8R8G8B8)
    } else if rgb && p.rgb_bit_count == 24 && p.r_bit_mask == 0x00ff_0000 && p.g_bit_mask
        == 0x0000_ff00 && p.b_bit_mask == 0x0000_00ff {
        Some(DdsPixelFormat::R8G8B8)
    } else if rgb && p.rgb_bit_count == 16 && !alpha_pixels && p.r_bit_mask == 0xf800
        && p.g_bit_mask == 0x07e0 && p.b_bit_mask == 0x001f {
        Some(DdsPixelFormat::R5G6B5)
    } else if rgb && p.rgb_bit_count == 16 && alpha_pixels && p.r_bit_mask == 0x7c00
        && p.g_bit_mask == 0x03e0 && p.b_bit_mask == 0x001f && p.a_bit_mask == 0x8000 {
        Some(DdsPixelFormat::A1R5G5B5)
    } else if rgb && p.rgb_bit_count == 16 && alpha_pixels && p.r_bit_mask == 0x0f00
        && p.g_bit_mask == 0x00f0 && p.b_bit_mask == 0x000f && p.a_bit_mask == 0xf000 {
        Some(DdsPixelFormat::A4R4G4B4)
    } else if luminance && p.rgb_bit_count == 8 && p.r_bit_mask == 0x00ff && !alpha_pixels {
        Some(DdsPixelFormat::L8)
    } else if luminance && p.rgb_bit_count == 16 && alpha_pixels && p.r_bit_mask == 0x00ff
        && p.a_bit_mask == 0xff00 {
        Some(DdsPixelFormat::A8L8)
    } else if alpha_only && p.rgb_bit_count == 8 && p.a_bit_mask == 0x00ff {
        Some(DdsPixelFormat::A8)
    } else {
        None
    }
}

/// Resolve a legacy `DDS_PIXELFORMAT` into a [`DdsPixelFormat`].
fn pixel_format_from_legacy(p: &DdsPixelFormatHeader) -> (r: Option<DdsPixelFormat>)
    ensures
        r == spec_legacy_format(*p),
{
    if p.flags & DDPF_FOURCC != 0 {
        return if p.four_cc == FOURCC_DXT1 {
            Some(DdsPixelFormat::Bc1)
        } else if p.four_cc == FOURCC_DXT2 || p.four_cc == FOURCC_DXT3 {
            Some(DdsPixelFormat::Bc2)
        } else if p.four_cc == FOURCC_DXT4 || p.four_cc == FOURCC_DXT5 {
            Some(DdsPixelFormat::Bc3)
        } else if p.four_cc == FOURCC_BC4U || p.four_cc == FOURCC_ATI1 {
            Some(DdsPixelFormat::Bc4Unorm)
        } else if p.four_cc == FOURCC_BC4S {
            Some(DdsPixelFormat::Bc4Snorm)
        } else if p.four_cc == FOURCC_BC5U || p.four_cc == FOURCC_ATI2 {
            Some(DdsPixelFormat::Bc5Unorm)
        } else if p.four_cc == FOURCC_BC5S {
            Some(DdsPixelFormat::Bc5Snorm)
        } else {
            None
        };
    }
    let rgb = p.flags & DDPF_RGB != 0;
    let alpha_pixels = p.flags & DDPF_ALPHAPIXELS != 0;
    let alpha_only = p.flags & DDPF_ALPHA != 0;
    let luminance = p.flags & DDPF_LUMINANCE != 0;

    if rgb && p.rgb_bit_count == 32 && alpha_pixels {
        // A8R8G8B8 (BGRA on disk).
        if p.r_bit_mask == 0x00ff_0000 && p.g_bit_mask == 0x0000_ff00 && p.b_bit_mask == 0x0000_00ff
            && p.a_bit_mask == 0xff00_0000 {
            return Some(DdsPixelFormat::A8R8G8B8);
        }
        // A8B8G8R8 (RGBA on disk).
        if p.r_bit_mask == 0x0000_00ff && p.g_bit_mask == 0x0000_ff00 && p.b_bit_mask == 0x00ff_0000
            && p.a_bit_mask == 0xff00_0000 {
            return Some(DdsPixelFormat::A8B8G8R8);
        }
    }
    if rgb && p.rgb_bit_count == 32 && !alpha_pixels {
        if p.r_bit_mask == 0x00ff_0000 && p.g_bit_mask == 0x0000_ff00 && p.b_bit_mask == 0x0000_00ff {
            return Some(DdsPixelFormat::X8R8G8B8);
        }
    }
    if rgb && p.rgb_bit_count == 24 {
        if p.r_bit_mask == 0x00ff_0000 && p.g_bit_mask == 0x0000_ff00 && p.b_bit_mask == 0x0000_00ff {
            return Some(DdsPixelFormat::R8G8B8);
        }
    }
    if rgb && p.rgb_bit_count == 16 {
        if !alpha_pixels && p.r_bit_mask == 0xf800 && p.g_bit_mask == 0x07e0 && p.b_bit_mask == 0x001f {
            return Some(DdsPixelFormat::R5G6B5);
        }
        if alpha_pixels && p.r_bit_mask == 0x7c00 && p.g_bit_mask == 0x03e0 && p.b_bit_mask == 0x001f
            && p.a_bit_mask == 0x8000 {
            return Some(DdsPixelFormat::A1R5G5B5);
        }
        if alpha_pixels && p.r_bit_mask == 0x0f00 && p.g_bit_mask == 0x00f0 && p.b_bit_mask == 0x000f
            && p.a_bit_mask == 0xf000 {
            return Some(DdsPixelFormat::A4R4G4B4);
        }
    }
    if luminance {
        if p.rgb_bit_count == 8 && p.r_bit_mask == 0x00ff && !alpha_pixels {
            return Some(DdsPixelFormat::L8);
        }
        if p.rgb_bit_count == 16 && alpha_pixels && p.r_bit_mask == 0x00ff && p.a_bit_mask == 0xff00 {
            return Some(DdsPixelFormat::A8L8);
        }
    }
    if alpha_only && p.rgb_bit_count == 8 && p.a_bit_mask == 0x00ff {
        return Some(DdsPixelFormat::A8);
    }
    None
}

/// The layout a DX10 `DXGI_FORMAT` code names, if it is one this reader
/// lays out. DXGI names list the channels in memory order, so
/// `R8G8B8A8_UNORM` is the crate's `A8B8G8R8` (RGBA bytes) and
/// `B8G8R8A8_UNORM` its `A8R8G8B8` (BGRA bytes).
pub open spec fn spec_dxgi_format(c: u32) -> Option<DdsPixelFormat> {
    if c == DxgiFormat::R8G8B8A8_UNORM || c == DxgiFormat::R8G8B8A8_UNORM_SRGB || c
        == DxgiFormat::R8G8B8A8_TYPELESS {
        Some(DdsPixelFormat::A8B8G8R8)
    } else if c == DxgiFormat::B8G8R8A8_UNORM || c == DxgiFormat::B8G8R8A8_TYPELESS || c
        == DxgiFormat::B8G8R8A8_UNORM_SRGB {
        Some(DdsPixelFormat::A8R8G8B8)
    } else if c == DxgiFormat::B8G8R8X8_UNORM || c == DxgiFormat::B8G8R8X8_TYPELESS || c
        == DxgiFormat::B8G8R8X8_UNORM_SRGB {
        Some(DdsPixelFormat::X8R8G8B8)
    } else if c == DxgiFormat::B5G6R5_UNORM {
        Some(DdsPixelFormat::R5G6B5)
    } else if c == DxgiFormat::B5G5R5A1_UNORM {
        Some(DdsPixelFormat::A1R5G5B5)
    } else if c == DxgiFormat::B4G4R4A4_UNORM {
        Some(DdsPixelFormat::A4R4G4B4)
    } else if c == DxgiFormat::R8_UNORM || c == DxgiFormat::R8_TYPELESS {
        Some(DdsPixelFormat::L8)
    } else if c == DxgiFormat::A8_UNORM {
        Some(DdsPixelFormat::A8)
    } else if c == DxgiFormat::R8G8_UNORM || c == DxgiFormat::R8G8_TYPELESS {
        Some(DdsPixelFormat::A8L8)
    } else if c == DxgiFormat::BC1_UNORM || c == DxgiFormat::BC1_UNORM_SRGB || c
        == DxgiFormat::BC1_TYPELESS {
        Some(DdsPixelFormat::Bc1)
    } else if c == DxgiFormat::BC2_UNORM || c == DxgiFormat::BC2_UNORM_SRGB || c
        == DxgiFormat::BC2_TYPELESS {
        Some(DdsPixelFormat::Bc2)
    } else if c == DxgiFormat::BC3_UNORM || c == DxgiFormat::BC3_UNORM_SRGB || c
        == DxgiFormat::BC3_TYPELESS {
        Some(DdsPixelFormat::Bc3)
    } else if c == DxgiFormat::BC4_UNORM || c == DxgiFormat::BC4_TYPELESS {
        Some(DdsPixelFormat::Bc4Unorm)
    } else if c == DxgiFormat::BC4_SNORM {
        Some(DdsPixelFormat::Bc4Snorm)
    } else if c == DxgiFormat::BC5_UNORM || c == DxgiFormat::BC5_TYPELESS {
        Some(DdsPixelFormat::Bc5Unorm)
    } else if c == DxgiFormat::BC5_SNORM {
        Some(DdsPixelFormat::Bc5Snorm)
    } else if c == DxgiFormat::BC6H_UF16 || c == DxgiFormat::BC6H_TYPELESS {
        Some(DdsPixelFormat::Bc6hUf16)
    } else if c == DxgiFormat::BC6H_SF16 {
        Some(DdsPixelFormat::Bc6hSf16)
    } else if c == DxgiFormat::BC7_UNORM || c == DxgiFormat::BC7_TYPELESS {
        Some(DdsPixelFormat::Bc7Unorm)
    } else if c == DxgiFormat::BC7_UNORM_SRGB {
        Some(DdsPixelFormat::Bc7UnormSrgb)
    } else {
        None
    }
}

/// Resolve a DX10 `DXGI_FORMAT` into a [`DdsPixelFormat`].
fn pixel_format_from_dxgi(d: DxgiFormat) -> (r: Option<DdsPixelFormat>)
    ensures
        r == spec_dxgi_format(d.code),
{
    let c = d.to_u32();
    if c == DxgiFormat::R8G8B8A8_UNORM || c == DxgiFormat::R8G8B8A8_UNORM_SRGB || c
        == DxgiFormat::R8G8B8A8_TYPELESS {
        Some(DdsPixelFormat::A8B8G8R8)
    } else if c == DxgiFormat::B8G8R8A8_UNORM || c == DxgiFormat::B8G8R8A8_TYPELESS || c
        == DxgiFormat::B8G8R8A8_UNORM_SRGB {
        Some(DdsPixelFormat::A8R8G8B8)
    } else if c == DxgiFormat::B8G8R8X8_UNORM || c == DxgiFormat::B8G8R8X8_TYPELESS || c
        == DxgiFormat::B8G8R8X8_UNORM_SRGB {
        Some(DdsPixelFormat::X8R8G8B8)
    } else if c == DxgiFormat::B5G6R5_UNORM {
        Some(DdsPixelFormat::R5G6B5)
    } else if c == DxgiFormat::B5G5R5A1_UNORM {
        Some(DdsPixelFormat::A1R5G5B5)
    } else if c == DxgiFormat::B4G4R4A4_UNORM {
        Some(DdsPixelFormat::A4R4G4B4)
    } else if c == DxgiFormat::R8_UNORM || c == DxgiFormat::R8_TYPELESS {
        Some(DdsPixelFormat::L8)
    } else if c == DxgiFormat::A8_UNORM {
        Some(DdsPixelFormat::A8)
    } else if c == DxgiFormat::R8G8_UNORM || c == DxgiFormat::R8G8_TYPELESS {
        Some(DdsPixelFormat::A8L8)
    } else if c == DxgiFormat::BC1_UNORM || c == DxgiFormat::BC1_UNORM_SRGB || c
        == DxgiFormat::BC1_TYPELESS {
        Some(DdsPixelFormat::Bc1)
    } else if c == DxgiFormat::BC2_UNORM || c == DxgiFormat::BC2_UNORM_SRGB || c
        == DxgiFormat::BC2_TYPELESS {
        Some(DdsPixelFormat::Bc2)
    } else if c == DxgiFormat::BC3_UNORM || c == DxgiFormat::BC3_UNORM_SRGB || c
        == DxgiFormat::BC3_TYPELESS {
        Some(DdsPixelFormat::Bc3)
    } else if c == DxgiFormat::BC4_UNORM || c == DxgiFormat::BC4_TYPELESS {
        Some(DdsPixelFormat::Bc4Unorm)
    } else if c == DxgiFormat::BC4_SNORM {
        Some(DdsPixelFormat::Bc4Snorm)
    } else if c == DxgiFormat::BC5_UNORM || c == DxgiFormat::BC5_TYPELESS {
        Some(DdsPixelFormat::Bc5Unorm)
    } else if c == DxgiFormat::BC5_SNORM {
        Some(DdsPixelFormat::Bc5Snorm)
    } else if c == DxgiFormat::BC6H_UF16 || c == DxgiFormat::BC6H_TYPELESS {
        Some(DdsPixelFormat::Bc6hUf16)
    } else if c == DxgiFormat::BC6H_SF16 {
        Some(DdsPixelFormat::Bc6hSf16)
    } else if c == DxgiFormat::BC7_UNORM || c == DxgiFormat::BC7_TYPELESS {
        Some(DdsPixelFormat::Bc7Unorm)
    } else if c == DxgiFormat::BC7_UNORM_SRGB {
        Some(DdsPixelFormat::Bc7UnormSrgb)
    } else {
        None
    }
}

// ---- Surface sizes ------------------------------------------------------------

/// In-memory byte size of one `w × h` surface of `pix` (block layouts count
/// each dimension as at least 1 and round up to whole 4×4 blocks).
pub open spec fn spec_surface_size(pix: DdsPixelFormat, w: u32, h: u32) -> int {
    match spec_block_bytes(pix) {
        Some(bb) => ceil4(if w == 0 { 1 } else { w as int }) * ceil4(if h == 0 { 1 } else { h as int }) * bb,
        None => (w * h) * spec_bytes_per_pixel(pix).unwrap_or(0),
    }
}

/// Row stride of a `w`-wide surface of `pix`.
pub open spec fn spec_surface_stride(pix: DdsPixelFormat, w: u32) -> int {
    match spec_block_bytes(pix) {
        Some(bb) => ceil4(if w == 0 { 1 } else { w as int }) * bb,
        None => w * spec_bytes_per_pixel(pix).unwrap_or(0),
    }
}

/// Byte size of one surface; `InvalidData` when it exceeds `u64`.
fn surface_size_bytes(pix: DdsPixelFormat, width: u32, height: u32) -> (r: Result<u64>)
    ensures
        spec_surface_size(pix, width, height) <= u64::MAX ==> r == Ok::<u64, DdsError>(
            spec_surface_size(pix, width, height) as u64,
        ),
        spec_surface_size(pix, width, height) > u64::MAX ==> is_invalid(r),
{
    if let Some(bb) = pix.block_bytes() {
        let bw = crate::bcn::ceil_div4(if width == 0 { 1 } else { width }) as u64;
        let bh = crate::bcn::ceil_div4(if height == 0 { 1 } else { height }) as u64;
        return match bw.checked_mul(bh) {
            Some(n) => match n.checked_mul(bb as u64) {
                Some(v) => Ok(v),
                None => Err(DdsError::invalid("block-compressed surface size overflow")),
            },
            None => {
                proof {
                    crate::le::lemma_mul_grows(bw * bh, bb as int);
                }
                Err(DdsError::invalid("block-compressed surface size overflow"))
            },
        };
    }
    let bpp: u64 = match pix.bytes_per_pixel() {
        Some(b) => b as u64,
        None => 0,
    };
    let w = width as u64;
    let h = height as u64;
    assert(w * h <= 0xffff_fffe_0000_0001) by (nonlinear_arith)
        requires
            w <= 0xffff_ffff,
            h <= 0xffff_ffff,
    ;
    let n = w * h;
    match n.checked_mul(bpp) {
        Some(v) => Ok(v),
        None => Err(DdsError::invalid("uncompressed surface size overflow")),
    }
}

/// Row stride of a `width`-wide surface of `pix`.
fn surface_stride_bytes(pix: DdsPixelFormat, width: u32) -> (r: usize)
    requires
        spec_surface_stride(pix, width) <= usize::MAX,
    ensures
        r == spec_surface_stride(pix, width),
{
    if let Some(bb) = pix.block_bytes() {
        let bw = crate::bcn::ceil_div4(if width == 0 { 1 } else { width });
        return bw * bb as usize;
    }
    let bpp = match pix.bytes_per_pixel() {
        Some(b) => b as usize,
        None => 0,
    };
    width as usize * bpp
}

// ---- Header-derived geometry ---------------------------------------------------

/// Number of significant bits of `x` (`0` for `0`): `1 + floor(log2 x)`
/// for `x >= 1`, the length of the longest mip chain of an `x`-long axis.
pub open spec fn bit_len(x: u32) -> nat
    decreases x,
{
    if x == 0 {
        0
    } else {
        proof {
            lemma_half_smaller();
            assert(x > 0 ==> (x >> 1u32) < x);
        }
        1 + bit_len(x >> 1)
    }
}

/// An `x` no larger than `u32::MAX >> k` has at most `32 - k` significant bits.
proof fn lemma_bit_len_bound(x: u32, k: u32)
    requires
        k <= 32,
        x <= (0xffff_ffffu32 >> k),
    ensures
        bit_len(x) <= 32 - k,
    decreases x,
{
    if x != 0 {
        assert(x <= (0xffff_ffffu32 >> k) && x != 0 ==> k < 32) by (bit_vector);
        assert(x <= (0xffff_ffffu32 >> k) && k < 32 ==> (x >> 1) <= (0xffff_ffffu32 >> ((k
            + 1) as u32))) by (bit_vector);
        lemma_half_smaller();
        assert(x != 0 ==> (x >> 1u32) < x);
        lemma_bit_len_bound(x >> 1, (k + 1) as u32);
    }
}

/// `bit_len` never exceeds the width of `u32`.
pub proof fn lemma_bit_len_le_32(x: u32)
    ensures
        bit_len(x) <= 32,
{
    assert(x <= (0xffff_ffffu32 >> 0u32)) by (bit_vector);
    lemma_bit_len_bound(x, 0);
}

/// Number of significant bits of `x`.
fn bit_length(x: u32) -> (r: u32)
    ensures
        r == bit_len(x),
{
    proof {
        lemma_bit_len_le_32(x);
    }
    let mut v = x;
    let mut n: u32 = 0;
    while v != 0
        invariant
            n + bit_len(v) == bit_len(x),
            bit_len(x) <= 32,
        decreases v,
    {
        proof {
            lemma_half_smaller();
            assert(v != 0 ==> (v >> 1u32) < v);
        }
        v = v >> 1;
        n = n + 1;
    }
    n
}

/// The face-presence bit of the face at position `i` of the on-disk order.
pub open spec fn face_bit(i: int) -> u32 {
    if i == 0 {
        DDSCAPS2_CUBEMAP_POSITIVEX
    } else if i == 1 {
        DDSCAPS2_CUBEMAP_NEGATIVEX
    } else if i == 2 {
        DDSCAPS2_CUBEMAP_POSITIVEY
    } else if i == 3 {
        DDSCAPS2_CUBEMAP_NEGATIVEY
    } else if i == 4 {
        DDSCAPS2_CUBEMAP_POSITIVEZ
    } else {
        DDSCAPS2_CUBEMAP_NEGATIVEZ
    }
}

/// The faces among the first `i` of the on-disk order whose bit is set in
/// `mask`, in that order.
pub open spec fn faces_in(mask: u32, i: int) -> Seq<CubemapFace>
    decreases i,
{
    if i <= 0 {
        Seq::empty()
    } else if mask & face_bit(i - 1) != 0 {
        faces_in(mask, i - 1).push(spec_face_at(i - 1))
    } else {
        faces_in(mask, i - 1)
    }
}

proof fn lemma_faces_in_len(mask: u32, i: int)
    ensures
        faces_in(mask, i).len() <= if i <= 0 { 0 } else { i },
    decreases i,
{
    if i > 0 {
        lemma_faces_in_len(mask, i - 1);
    }
}

/// The faces whose presence bit is set in `mask`, in on-disk order.
fn present_faces(mask: u32) -> (faces: Vec<CubemapFace>)
    ensures
        faces@ == faces_in(mask, 6),
{
    let bits: [u32; 6] = [
        DDSCAPS2_CUBEMAP_POSITIVEX,
        DDSCAPS2_CUBEMAP_NEGATIVEX,
        DDSCAPS2_CUBEMAP_POSITIVEY,
        DDSCAPS2_CUBEMAP_NEGATIVEY,
        DDSCAPS2_CUBEMAP_POSITIVEZ,
        DDSCAPS2_CUBEMAP_NEGATIVEZ,
    ];
    let mut faces: Vec<CubemapFace> = Vec::new();
    let mut i: usize = 0;
    while i < 6
        invariant
            i <= 6,
            faces@ == faces_in(mask, i as int),
            forall|k: int| 0 <= k < 6 ==> #[trigger] bits@[k] == face_bit(k),
        decreases 6 - i,
    {
        if mask & bits[i] != 0 {
            faces.push(CubemapFace::at(i as u32));
        }
        i += 1;
    }
    faces
}

// ---- The layout a header declares --------------------------------------------------
//
// Offsets below are absolute: the magic occupies bytes 0..4, the `DDS_HEADER`
// bytes 4..128 (its pixel format at 76..108) and a `DDS_HEADER_DXT10`, when
// present, bytes 128..148.

/// Largest number of surfaces a file may declare.
pub const SURFACE_HARD_CAP: u64 = 0x10_0000;

/// `x`, or `1` when `x` is `0`.
pub open spec fn at_least_one(x: u32) -> u32 {
    if x == 0 {
        1
    } else {
        x
    }
}

/// The larger of two `u32`s.
pub open spec fn max_u32(a: u32, b: u32) -> u32 {
    if a >= b {
        a
    } else {
        b
    }
}

/// The header's `flags` field.
pub open spec fn hdr_flags(b: Seq<u8>) -> u32 {
    le_u32(b, 8)
}

/// The header's `height` field.
pub open spec fn hdr_height(b: Seq<u8>) -> u32 {
    le_u32(b, 12)
}

/// The header's `width` field.
pub open spec fn hdr_width(b: Seq<u8>) -> u32 {
    le_u32(b, 16)
}

/// The header's `depth` field.
pub open spec fn hdr_depth(b: Seq<u8>) -> u32 {
    le_u32(b, 24)
}

/// The header's `mip_map_count` field.
pub open spec fn hdr_mip_map_count(b: Seq<u8>) -> u32 {
    le_u32(b, 28)
}

/// The header's `caps2` field.
pub open spec fn hdr_caps2(b: Seq<u8>) -> u32 {
    le_u32(b, 112)
}

/// Whether the pixel format announces a `DDS_HEADER_DXT10` (FourCC `"DX10"`).
pub open spec fn uses_dxt10(b: Seq<u8>) -> bool {
    let pf = spec_pixel_format(b, 76);
    pf.flags & DDPF_FOURCC != 0 && pf.four_cc == FOURCC_DX10
}

/// The `DDS_HEADER_DXT10` record of a file that has one.
pub open spec fn file_dxt10(b: Seq<u8>) -> DdsHeaderDxt10 {
    spec_dxt10(b, 128)
}

/// Where the surface bytes start.
pub open spec fn pixel_data_offset(b: Seq<u8>) -> int {
    if uses_dxt10(b) {
        148
    } else {
        128
    }
}

/// The checks on the fixed-size records: magic, sizes, required flags,
/// non-zero width and height, and a DX10 record present when announced.
pub open spec fn header_valid(b: Seq<u8>) -> bool {
    &&& b.len() >= 128
    &&& le_u32(b, 0) == DDS_MAGIC
    &&& header_ok(b, 4)
    &&& hdr_flags(b) & DDSD_REQUIRED == DDSD_REQUIRED
    &&& hdr_width(b) != 0
    &&& hdr_height(b) != 0
    &&& uses_dxt10(b) ==> b.len() >= 148
}

/// The pixel layout the header names (DXGI code or legacy pixel format).
pub open spec fn resolved_format(b: Seq<u8>) -> Option<DdsPixelFormat> {
    if uses_dxt10(b) {
        spec_dxgi_format(file_dxt10(b).dxgi_format)
    } else {
        spec_legacy_format(spec_pixel_format(b, 76))
    }
}

/// Number of mip levels: `mip_map_count` (at least 1) when the flag is set.
pub open spec fn file_mip_count(b: Seq<u8>) -> u32 {
    if hdr_flags(b) & DDSD_MIPMAPCOUNT != 0 {
        at_least_one(hdr_mip_map_count(b))
    } else {
        1
    }
}

/// Whether the file is a cubemap (legacy caps2 bit or DX10 misc flag).
pub open spec fn is_cube(b: Seq<u8>) -> bool {
    ||| hdr_caps2(b) & DDSCAPS2_CUBEMAP != 0
    ||| uses_dxt10(b) && file_dxt10(b).misc_flag & DDS_RESOURCE_MISC_TEXTURECUBE != 0
}

/// The face-presence bits: all six for a DX10 cubemap or a legacy cubemap
/// that sets none; the legacy bits otherwise.
pub open spec fn face_mask(b: Seq<u8>) -> u32 {
    if uses_dxt10(b) && file_dxt10(b).misc_flag & DDS_RESOURCE_MISC_TEXTURECUBE != 0 {
        DDSCAPS2_CUBEMAP_ALL_FACES
    } else if hdr_caps2(b) & DDSCAPS2_CUBEMAP != 0 {
        if hdr_caps2(b) & DDSCAPS2_CUBEMAP_ALL_FACES == 0 {
            DDSCAPS2_CUBEMAP_ALL_FACES
        } else {
            hdr_caps2(b) & DDSCAPS2_CUBEMAP_ALL_FACES
        }
    } else {
        0
    }
}

/// The faces stored for each array slice, in on-disk order.
pub open spec fn file_faces(b: Seq<u8>) -> Seq<CubemapFace> {
    if is_cube(b) {
        faces_in(face_mask(b), 6)
    } else {
        Seq::empty()
    }
}

/// Whether the file is a volume (3D) texture.
pub open spec fn file_is_volume(b: Seq<u8>) -> bool {
    ||| hdr_caps2(b) & DDSCAPS2_VOLUME != 0
    ||| uses_dxt10(b) && file_dxt10(b).resource_dimension == DDS_DIMENSION_TEXTURE3D
}

/// Number of array slices (DX10 `array_size`, at least 1).
pub open spec fn array_count(b: Seq<u8>) -> u32 {
    if uses_dxt10(b) {
        at_least_one(file_dxt10(b).array_size)
    } else {
        1
    }
}

/// Depth (slice count) of mip 0: `depth` (at least 1) for a volume, else 1.
pub open spec fn file_base_depth(b: Seq<u8>) -> u32 {
    if file_is_volume(b) {
        at_least_one(hdr_depth(b))
    } else {
        1
    }
}

/// Width of mip level `m`.
pub open spec fn mip_width(b: Seq<u8>, m: u32) -> u32 {
    at_least_one(hdr_width(b) >> m)
}

/// Height of mip level `m`.
pub open spec fn mip_height(b: Seq<u8>, m: u32) -> u32 {
    at_least_one(hdr_height(b) >> m)
}

/// Number of depth slices at mip level `m` of a volume whose mip 0 has `d`.
pub open spec fn depth_at(d: u32, m: u32) -> u32 {
    at_least_one(d >> m)
}

/// Depth slices in the first `m` mip levels of a volume whose mip 0 has `d`.
pub open spec fn depth_sum(d: u32, m: int) -> int
    decreases m,
{
    if m <= 0 {
        0
    } else {
        depth_sum(d, m - 1) + depth_at(d, (m - 1) as u32)
    }
}

/// Number of depth slices of mip level `m` of a volume.
pub open spec fn file_mip_depth(b: Seq<u8>, m: u32) -> u32 {
    depth_at(file_base_depth(b), m)
}

/// Depth slices in the first `m` mip levels of a volume.
pub open spec fn volume_slices(b: Seq<u8>, m: int) -> int {
    depth_sum(file_base_depth(b), m)
}

/// Surfaces stored for one array slice.
pub open spec fn surfaces_per_slice(b: Seq<u8>) -> int {
    if file_faces(b).len() > 0 {
        file_faces(b).len() * file_mip_count(b)
    } else if file_is_volume(b) {
        volume_slices(b, file_mip_count(b) as int)
    } else {
        file_mip_count(b) as int
    }
}

/// Number of surfaces the file declares.
pub open spec fn surface_count(b: Seq<u8>) -> int {
    array_count(b) * surfaces_per_slice(b)
}

/// The cap on a volume's mip-0 depth for a chain of `levels` levels:
/// twice `1 << (levels - 1)`, saturated at `u32::MAX`.
pub open spec fn volume_depth_cap(levels: u32) -> u32 {
    let slice_cap = 1u32 << ((levels - 1) as u32);
    if slice_cap >= 0x8000_0000 {
        0xffff_ffff
    } else {
        (slice_cap * 2) as u32
    }
}

/// The checks on the declared geometry: the mip chain no longer than the
/// largest axis allows, a volume neither a cubemap nor an array and its
/// depth within bounds, and at most [`SURFACE_HARD_CAP`] surfaces.
pub open spec fn geometry_valid(b: Seq<u8>) -> bool {
    let w = hdr_width(b);
    let h = hdr_height(b);
    let d = file_base_depth(b);
    let levels_3d = bit_len(max_u32(max_u32(w, h), d));
    &&& file_mip_count(b) <= bit_len(max_u32(w, h))
    &&& !(file_is_volume(b) && (is_cube(b) || array_count(b) > 1))
    &&& file_is_volume(b) ==> file_mip_count(b) <= levels_3d && d <= volume_depth_cap(levels_3d as u32)
    &&& surface_count(b) <= SURFACE_HARD_CAP
}

/// Where one surface sits in the texture.
#[derive(Debug, Clone, Copy, PartialEq, Eq)]
pub struct SurfacePlace {
    pub width: u32,
    pub height: u32,
    pub mip_level: u32,
    pub array_slice: u32,
    pub face: Option<CubemapFace>,
    pub depth_slice: u32,
}

/// The `s`-th surface of a non-volume file: array slice, then face, then
/// mip level, the last varying fastest.
pub open spec fn flat_place(b: Seq<u8>, s: int) -> SurfacePlace {
    let faces = file_faces(b);
    let m_count = file_mip_count(b) as int;
    let per_slice = if faces.len() > 0 { faces.len() * m_count } else { m_count };
    let a = s / per_slice;
    let r = s % per_slice;
    let m = (r % m_count) as u32;
    SurfacePlace {
        width: mip_width(b, m),
        height: mip_height(b, m),
        mip_level: m,
        array_slice: a as u32,
        face: if faces.len() > 0 { Some(faces[r / m_count]) } else { None },
        depth_slice: 0,
    }
}

/// Slice `z` of mip level `m` of a volume.
pub open spec fn volume_place(b: Seq<u8>, m: u32, z: u32) -> SurfacePlace {
    SurfacePlace {
        width: mip_width(b, m),
        height: mip_height(b, m),
        mip_level: m,
        array_slice: 0,
        face: None,
        depth_slice: z,
    }
}

/// The surfaces of the first `m` mip levels of a volume: each level's
/// slices in order, level after level.
pub open spec fn volume_places(b: Seq<u8>, m: int) -> Seq<SurfacePlace>
    decreases m,
{
    if m <= 0 {
        Seq::empty()
    } else {
        volume_places(b, m - 1) + Seq::new(
            file_mip_depth(b, (m - 1) as u32) as nat,
            |z: int| volume_place(b, (m - 1) as u32, z as u32),
        )
    }
}

/// Every surface of the file, in on-disk order.
pub open spec fn file_places(b: Seq<u8>) -> Seq<SurfacePlace> {
    if file_is_volume(b) {
        volume_places(b, file_mip_count(b) as int)
    } else {
        Seq::new(surface_count(b) as nat, |s: int| flat_place(b, s))
    }
}

/// Total byte size of the first `k` surfaces of `places`.
pub open spec fn places_span(pix: DdsPixelFormat, places: Seq<SurfacePlace>, k: int) -> int
    decreases k,
{
    if k <= 0 {
        0
    } else {
        places_span(pix, places, k - 1) + spec_surface_size(
            pix,
            places[k - 1].width,
            places[k - 1].height,
        )
    }
}

/// Whether every declared surface lies inside the byte stream.
pub open spec fn data_fits(b: Seq<u8>, pix: DdsPixelFormat) -> bool {
    let places = file_places(b);
    pixel_data_offset(b) + places_span(pix, places, places.len() as int) <= b.len()
}

/// `surface` holds `place` and the bytes `b[off..off + size]` of it.
pub open spec fn surface_holds(
    surface: DdsSurface,
    place: SurfacePlace,
    pix: DdsPixelFormat,
    b: Seq<u8>,
    off: int,
) -> bool {
    &&& surface.width == place.width
    &&& surface.height == place.height
    &&& surface.mip_level == place.mip_level
    &&& surface.array_slice == place.array_slice
    &&& surface.face == place.face
    &&& surface.depth_slice == place.depth_slice
    &&& surface.plane.stride == spec_surface_stride(pix, place.width)
    &&& surface.plane.data@ == b.subrange(
        off,
        off + spec_surface_size(pix, place.width, place.height),
    )
}

/// The image parsed from `b`, whose pixel layout is `pix`.
pub open spec fn image_from(img: DdsImage, b: Seq<u8>, pix: DdsPixelFormat) -> bool {
    let places = file_places(b);
    &&& img.width == hdr_width(b)
    &&& img.height == hdr_height(b)
    &&& img.pixel_format == pix
    &&& img.pts is None
    &&& img.mip_map_count == file_mip_count(b)
    &&& img.has_dxt10_header == uses_dxt10(b)
    &&& img.dxgi_format == (if uses_dxt10(b) {
        Some(DxgiFormat { code: file_dxt10(b).dxgi_format })
    } else {
        None::<DxgiFormat>
    })
    &&& img.is_cubemap == is_cube(b)
    &&& img.array_size == array_count(b)
    &&& img.depth == file_base_depth(b)
    &&& img.surfaces@.len() == places.len()
    &&& forall|k: int|
        0 <= k < places.len() ==> surface_holds(
            #[trigger] img.surfaces@[k],
            places[k],
            pix,
            b,
            pixel_data_offset(b) + places_span(pix, places, k),
        )
    &&& img.planes@.len() == 1
    &&& img.planes@[0].stride == img.surfaces@[0].plane.stride
    &&& img.planes@[0].data@ == img.surfaces@[0].plane.data@
}

// ---- Facts about the layout ---------------------------------------------------

proof fn lemma_bit_len_pos(x: u32)
    requires
        x >= 1,
    ensures
        bit_len(x) >= 1,
{
    reveal_with_fuel(bit_len, 2);
}

proof fn lemma_depth_sum_bounds(d: u32, m: int)
    requires
        m >= 0,
    ensures
        m <= depth_sum(d, m) <= m * 0xffff_ffff,
    decreases m,
{
    if m > 0 {
        lemma_depth_sum_bounds(d, m - 1);
    }
}

proof fn lemma_size_nonneg(pix: DdsPixelFormat, w: u32, h: u32)
    ensures
        spec_surface_size(pix, w, h) >= 0,
        w >= 1 && h >= 1 ==> spec_surface_stride(pix, w) <= spec_surface_size(pix, w, h),
{
    let cw = ceil4(if w == 0 { 1 } else { w as int });
    let ch = ceil4(if h == 0 { 1 } else { h as int });
    assert(cw >= 1 && ch >= 1);
    match spec_block_bytes(pix) {
        Some(bb) => {
            assert(cw * ch * bb >= 0 && cw * bb <= cw * ch * bb) by (nonlinear_arith)
                requires
                    cw >= 1,
                    ch >= 1,
                    bb >= 0,
            ;
        },
        None => {
            let bpp = spec_bytes_per_pixel(pix).unwrap_or(0) as int;
            assert((w * h) * bpp >= 0 && (h >= 1 ==> w * bpp <= (w * h) * bpp)) by (nonlinear_arith)
                requires
                    w >= 0,
                    h >= 0,
                    bpp >= 0,
            ;
        },
    }
}

proof fn lemma_span_mono(pix: DdsPixelFormat, places: Seq<SurfacePlace>, i: int, j: int)
    requires
        0 <= i <= j,
    ensures
        places_span(pix, places, i) <= places_span(pix, places, j),
    decreases j - i,
{
    if i < j {
        lemma_span_mono(pix, places, i, j - 1);
        lemma_size_nonneg(pix, places[j - 1].width, places[j - 1].height);
    }
}

proof fn lemma_volume_places(b: Seq<u8>, n: int)
    requires
        n >= 0,
    ensures
        volume_places(b, n).len() == volume_slices(b, n),
        forall|m: int, z: int|
            0 <= m < n && 0 <= z < file_mip_depth(b, m as u32) ==> #[trigger] volume_places(b, n)[volume_slices(
                b,
                m,
            ) + z] == volume_place(b, m as u32, z as u32),
    decreases n,
{
    if n > 0 {
        lemma_volume_places(b, n - 1);
        lemma_depth_sum_bounds(file_base_depth(b), n - 1);
        assert forall|m: int, z: int|
            0 <= m < n && 0 <= z < file_mip_depth(b, m as u32) implies #[trigger] volume_places(
            b,
            n,
        )[volume_slices(b, m) + z] == volume_place(b, m as u32, z as u32) by {
            let d = file_base_depth(b);
            lemma_depth_sum_bounds(d, m);
            assert(depth_sum(d, m + 1) == depth_sum(d, m) + depth_at(d, m as u32));
            let prev = volume_places(b, n - 1);
            let tail = Seq::new(
                file_mip_depth(b, (n - 1) as u32) as nat,
                |zz: int| volume_place(b, (n - 1) as u32, zz as u32),
            );
            assert(volume_places(b, n) == prev + tail);
            if m < n - 1 {
                lemma_depth_sum_mono(d, m + 1, n - 1);
                assert((prev + tail)[volume_slices(b, m) + z] == prev[volume_slices(b, m) + z]);
            } else {
                assert((prev + tail)[volume_slices(b, m) + z] == tail[z]);
            }
        }
    }
}

proof fn lemma_depth_sum_mono(d: u32, i: int, j: int)
    requires
        0 <= i <= j,
    ensures
        depth_sum(d, i) <= depth_sum(d, j),
    decreases j - i,
{
    if i < j {
        lemma_depth_sum_mono(d, i, j - 1);
    }
}

/// Byte size of one surface of the stream: its bytes, stride and place.
/// `InvalidData` when the surface runs past the end of `bytes`.
fn take_surface(bytes: &[u8], pix: DdsPixelFormat, place: SurfacePlace, cursor: usize) -> (r:
    Result<DdsSurface>)
    requires
        cursor <= bytes@.len(),
        place.width >= 1,
        place.height >= 1,
    ensures
        cursor + spec_surface_size(pix, place.width, place.height) <= bytes@.len() ==> (r matches Ok(
            s,
        ) && surface_holds(s, place, pix, bytes@, cursor as int)),
        cursor + spec_surface_size(pix, place.width, place.height) > bytes@.len() ==> is_invalid(r),
{
    let len = bytes.len();
    proof {
        lemma_size_nonneg(pix, place.width, place.height);
    }
    let sb64 = surface_size_bytes(pix, place.width, place.height)?;
    if sb64 > (len - cursor) as u64 {
        return Err(DdsError::invalid("DDS pixel data truncated"));
    }
    let sb = sb64 as usize;
    let stride = surface_stride_bytes(pix, place.width);
    let data = vstd::slice::slice_to_vec(vstd::slice::slice_subrange(bytes, cursor, cursor + sb));
    Ok(
        DdsSurface {
            width: place.width,
            height: place.height,
            mip_level: place.mip_level,
            array_slice: place.array_slice,
            face: place.face,
            depth_slice: place.depth_slice,
            plane: DdsPlane { stride, data },
        },
    )
}

/// Depth slices over the first `mip_count` levels of a volume with mip-0
/// depth `d`.
fn volume_slice_total(d: u32, mip_count: u32) -> (r: u64)
    requires
        mip_count <= 32,
    ensures
        r == depth_sum(d, mip_count as int),
{
    let mut sum: u64 = 0;
    let mut m: u32 = 0;
    while m < mip_count
        invariant
            m <= mip_count <= 32,
            sum == depth_sum(d, m as int),
        decreases mip_count - m,
    {
        proof {
            lemma_depth_sum_bounds(d, m as int);
        }
        let shift = if m < 31 { m } else { 31 };
        let v = d >> shift;
        sum = sum + if v == 0 { 1 } else { v as u64 };
        m += 1;
    }
    sum
}

// ---- The reader ------------------------------------------------------------------

/// Whether [`parse_dds`] accepts `b`: valid fixed records, a known pixel
/// layout, a valid geometry, and every surface inside the stream.
pub open spec fn parse_succeeds(b: Seq<u8>) -> bool {
    &&& header_valid(b)
    &&& resolved_format(b) is Some
    &&& geometry_valid(b)
    &&& data_fits(b, resolved_format(b).unwrap())
}

/// Parse a complete DDS byte stream.
///
/// The image carries every (array slice, face, mip level, depth slice)
/// surface in on-disk order; `planes[0]` mirrors `surfaces[0].plane`.
/// `Unsupported` when the header is well formed but names a pixel layout
/// this reader does not lay out; `InvalidData` for every other refusal.
pub fn parse_dds(bytes: &[u8]) -> (r: Result<DdsImage>)
    ensures
        r is Ok <==> parse_succeeds(bytes@),
        header_valid(bytes@) && resolved_format(bytes@) is None ==> is_unsupported(r),
        !parse_succeeds(bytes@) && !(header_valid(bytes@) && resolved_format(bytes@) is None)
            ==> is_invalid(r),
        r matches Ok(img) ==> image_from(img, bytes@, resolved_format(bytes@).unwrap()),
{
    let ghost b = bytes@;
    let len = bytes.len();
    if len < 4 + DDS_HEADER_SIZE {
        return Err(DdsError::invalid("buffer too small for DDS magic + header"));
    }
    let magic = read_u32_le(bytes, 0)?;
    if magic != DDS_MAGIC {
        return Err(DdsError::invalid("bad DDS magic"));
    }
    let header = parse_header(bytes, 4)?;
    if header.flags & DDSD_REQUIRED != DDSD_REQUIRED {
        return Err(DdsError::invalid("DDS_HEADER.flags is missing required bits"));
    }
    let width = header.width;
    let height = header.height;
    if width == 0 || height == 0 {
        return Err(DdsError::invalid("zero-sized surface"));
    }

    let mut pixel_data_off: usize = 4 + DDS_HEADER_SIZE;
    let mut has_dxt10 = false;
    let mut dxgi: Option<DxgiFormat> = None;
    let mut dx: Option<DdsHeaderDxt10> = None;
    let pix: DdsPixelFormat;
    if header.pixel_format.flags & DDPF_FOURCC != 0 && header.pixel_format.four_cc == FOURCC_DX10 {
        has_dxt10 = true;
        if len < pixel_data_off + DDS_HEADER_DXT10_SIZE {
            return Err(DdsError::invalid("buffer too small for DDS_HEADER_DXT10"));
        }
        let dxt10 = parse_dxt10(bytes, pixel_data_off)?;
        pixel_data_off += DDS_HEADER_DXT10_SIZE;
        let dxgi_fmt = DxgiFormat::from_u32(dxt10.dxgi_format);
        dxgi = Some(dxgi_fmt);
        pix = match pixel_format_from_dxgi(dxgi_fmt) {
            Some(p) => p,
            None => {
                return Err(DdsError::unsupported("unsupported DXGI_FORMAT"));
            },
        };
        dx = Some(dxt10);
    } else {
        pix = match pixel_format_from_legacy(&header.pixel_format) {
            Some(p) => p,
            None => {
                return Err(DdsError::unsupported("unsupported legacy DDS_PIXELFORMAT"));
            },
        };
    }
    assert(header_valid(b));
    assert(resolved_format(b) == Some(pix));

    let mip_count: u32 = if header.flags & DDSD_MIPMAPCOUNT != 0 {
        if header.mip_map_count == 0 {
            1
        } else {
            header.mip_map_count
        }
    } else {
        1
    };
    assert(mip_count == file_mip_count(b));

    // The longest chain a `w × h` surface supports is `1 + floor(log2(max(w, h)))`.
    let max_dim = if width >= height {
        width
    } else {
        height
    };
    let max_mip_for_2d = bit_length(max_dim);
    if mip_count > max_mip_for_2d {
        return Err(DdsError::invalid("DDS mip_map_count exceeds the dimension-implied cap"));
    }
    proof {
        lemma_bit_len_le_32(max_dim);
    }

    let mut is_cubemap = header.caps2 & DDSCAPS2_CUBEMAP != 0;
    let mut present_faces_mask: u32 = if is_cubemap {
        if header.caps2 & DDSCAPS2_CUBEMAP_ALL_FACES == 0 {
            DDSCAPS2_CUBEMAP_ALL_FACES
        } else {
            header.caps2 & DDSCAPS2_CUBEMAP_ALL_FACES
        }
    } else {
        0
    };
    let mut is_volume = header.caps2 & DDSCAPS2_VOLUME != 0;
    let mut array_size: u32 = 1;
    if let Some(d) = dx {
        if d.misc_flag & DDS_RESOURCE_MISC_TEXTURECUBE != 0 {
            is_cubemap = true;
            present_faces_mask = DDSCAPS2_CUBEMAP_ALL_FACES;
        }
        if d.resource_dimension == DDS_DIMENSION_TEXTURE3D {
            is_volume = true;
        }
        array_size = if d.array_size == 0 {
            1
        } else {
            d.array_size
        };
    }
    assert(is_cubemap == is_cube(b));
    assert(is_cubemap ==> present_faces_mask == face_mask(b));
    assert(is_volume == file_is_volume(b));
    assert(array_size == array_count(b));

    let base_depth: u32 = if is_volume {
        if header.depth == 0 {
            1
        } else {
            header.depth
        }
    } else {
        1
    };
    assert(base_depth == file_base_depth(b));
    if is_volume && (is_cubemap || array_size > 1) {
        return Err(DdsError::invalid("volume texture cannot also be a cubemap or texture array"));
    }
    if is_volume {
        let max_dim_3d = if max_dim >= base_depth {
            max_dim
        } else {
            base_depth
        };
        let max_mip_for_3d = bit_length(max_dim_3d);
        if mip_count > max_mip_for_3d {
            return Err(DdsError::invalid("DDS volume mip_map_count exceeds the dimension-implied cap"));
        }
        proof {
            lemma_bit_len_pos(max_dim_3d);
            lemma_bit_len_le_32(max_dim_3d);
        }
        let slice_cap: u32 = 1u32 << (max_mip_for_3d - 1);
        let depth_cap: u32 = if slice_cap >= 0x8000_0000 {
            0xffff_ffff
        } else {
            slice_cap * 2
        };
        if base_depth > depth_cap {
            return Err(DdsError::invalid("DDS volume depth exceeds the dimension-implied cap"));
        }
    }

    let face_indices: Vec<CubemapFace> = if is_cubemap {
        present_faces(present_faces_mask)
    } else {
        Vec::new()
    };
    assert(face_indices@ == file_faces(b));
    proof {
        lemma_faces_in_len(present_faces_mask, 6);
    }
    let nfaces = face_indices.len();
    assert(nfaces <= 6 && mip_count <= 32 ==> nfaces * mip_count <= 192) by (nonlinear_arith);
    let per_slice: u64 = if nfaces > 0 {
        nfaces as u64 * mip_count as u64
    } else if is_volume {
        volume_slice_total(base_depth, mip_count)
    } else {
        mip_count as u64
    };
    assert(per_slice == surfaces_per_slice(b));
    let total: u64 = match (array_size as u64).checked_mul(per_slice) {
        Some(t) => t,
        None => {
            return Err(DdsError::invalid("DDS surface count overflow"));
        },
    };
    if total > SURFACE_HARD_CAP {
        return Err(DdsError::invalid("DDS surface count exceeds the hard cap"));
    }
    assert(geometry_valid(b));
    assert(per_slice >= 1) by {
        if nfaces > 0 {
            assert(nfaces * mip_count >= 1) by (nonlinear_arith)
                requires
                    nfaces >= 1,
                    mip_count >= 1,
            ;
        } else if is_volume {
            lemma_depth_sum_bounds(base_depth, mip_count as int);
        }
    }
    assert(per_slice <= total && total >= 1) by (nonlinear_arith)
        requires
            total == array_size * per_slice,
            array_size >= 1,
            per_slice >= 1,
    ;
    let ghost places = file_places(b);
    let ghost data_off = pixel_data_offset(b);
    assert(pixel_data_off == data_off);
    assert(places.len() >= 1) by {
        if is_volume {
            lemma_volume_places(b, mip_count as int);
            lemma_depth_sum_bounds(base_depth, mip_count as int);
        }
    }

    let mut surfaces: Vec<DdsSurface> = Vec::new();
    let mut cursor: usize = pixel_data_off;
    if is_volume {
        proof {
            lemma_volume_places(b, mip_count as int);
        }
        let mut mi: u32 = 0;
        while mi < mip_count
            invariant
                b == bytes@,
                len == bytes@.len(),
                header_valid(b),
                resolved_format(b) == Some(pix),
                geometry_valid(b),
                data_off == pixel_data_offset(b),
                places.len() >= 1,
                mip_count == file_mip_count(b) <= 32,
                base_depth == file_base_depth(b),
                width == hdr_width(b),
                height == hdr_height(b),
                file_is_volume(b),
                places == file_places(b),
                places == volume_places(b, mip_count as int),
                places.len() == volume_slices(b, mip_count as int),
                forall|m: int, z: int|
                    0 <= m < mip_count && 0 <= z < file_mip_depth(b, m as u32)
                        ==> #[trigger] places[volume_slices(b, m) + z] == volume_place(
                        b,
                        m as u32,
                        z as u32,
                    ),
                mi <= mip_count,
                surfaces@.len() == volume_slices(b, mi as int),
                cursor == data_off + places_span(pix, places, surfaces@.len() as int),
                cursor <= bytes@.len(),
                forall|k: int|
                    0 <= k < surfaces@.len() ==> surface_holds(
                        #[trigger] surfaces@[k],
                        places[k],
                        pix,
                        b,
                        data_off + places_span(pix, places, k),
                    ),
            decreases mip_count - mi,
        {
            let shift = mi;
            let dv = base_depth >> shift;
            let mip_depth: u32 = if dv == 0 {
                1
            } else {
                dv
            };
            let mw0 = width >> mi;
            let mh0 = height >> mi;
            let mw: u32 = if mw0 == 0 {
                1
            } else {
                mw0
            };
            let mh: u32 = if mh0 == 0 {
                1
            } else {
                mh0
            };
            proof {
                lemma_depth_sum_bounds(base_depth, mi as int);
                lemma_depth_sum_mono(base_depth, mi as int + 1, mip_count as int);
            }
            let mut z: u32 = 0;
            while z < mip_depth
                invariant
                    b == bytes@,
                    len == bytes@.len(),
                    header_valid(b),
                    resolved_format(b) == Some(pix),
                    geometry_valid(b),
                    data_off == pixel_data_offset(b),
                    places.len() >= 1,
                    mip_count == file_mip_count(b) <= 32,
                    mi < mip_count,
                    mip_depth == file_mip_depth(b, mi),
                    mw == mip_width(b, mi),
                    mh == mip_height(b, mi),
                    places == file_places(b),
                    places.len() == volume_slices(b, mip_count as int),
                    volume_slices(b, mi as int + 1) <= places.len(),
                    volume_slices(b, mi as int + 1) == volume_slices(b, mi as int) + mip_depth,
                    forall|m: int, zz: int|
                        0 <= m < mip_count && 0 <= zz < file_mip_depth(b, m as u32)
                            ==> #[trigger] places[volume_slices(b, m) + zz] == volume_place(
                            b,
                            m as u32,
                            zz as u32,
                        ),
                    z <= mip_depth,
                    0 <= volume_slices(b, mi as int),
                    surfaces@.len() == volume_slices(b, mi as int) + z,
                    cursor == data_off + places_span(pix, places, surfaces@.len() as int),
                    cursor <= bytes@.len(),
                    forall|k: int|
                        0 <= k < surfaces@.len() ==> surface_holds(
                            #[trigger] surfaces@[k],
                            places[k],
                            pix,
                            b,
                            data_off + places_span(pix, places, k),
                        ),
                decreases mip_depth - z,
            {
                let place = SurfacePlace {
                    width: mw,
                    height: mh,
                    mip_level: mi,
                    array_slice: 0,
                    face: None,
                    depth_slice: z,
                };
                let ghost k = surfaces@.len() as int;
                assert(place == places[k]);
                proof {
                    lemma_span_mono(pix, places, k + 1, places.len() as int);
                }
                let surface = take_surface(bytes, pix, place, cursor)?;
                assert(cursor + spec_surface_size(pix, place.width, place.height) <= bytes@.len());
                assert(surface.plane.data@.len() == spec_surface_size(pix, place.width, place.height));
                let sb = surface.plane.data.len();
                cursor = cursor + sb;
                surfaces.push(surface);
                z += 1;
            }
            mi += 1;
        }
    } else {
        let m_count = mip_count as usize;
        let per = per_slice as usize;
        let total_us = total as usize;
        let mut s: usize = 0;
        while s < total_us
            invariant
                b == bytes@,
                len == bytes@.len(),
                header_valid(b),
                resolved_format(b) == Some(pix),
                geometry_valid(b),
                data_off == pixel_data_offset(b),
                places.len() >= 1,
                m_count == file_mip_count(b),
                1 <= m_count <= 32,
                face_indices@ == file_faces(b),
                nfaces == face_indices@.len() <= 6,
                per == (if nfaces > 0 { nfaces * m_count } else { m_count as int }),
                total_us == array_size * per,
                array_size == array_count(b),
                width == hdr_width(b),
                height == hdr_height(b),
                !file_is_volume(b),
                places == file_places(b),
                places.len() == total_us,
                s <= total_us,
                surfaces@.len() == s,
                cursor == data_off + places_span(pix, places, s as int),
                cursor <= bytes@.len(),
                forall|k: int|
                    0 <= k < surfaces@.len() ==> surface_holds(
                        #[trigger] surfaces@[k],
                        places[k],
                        pix,
                        b,
                        data_off + places_span(pix, places, k),
                    ),
            decreases total_us - s,
        {
            let a = s / per;
            let r = s % per;
            let f = r / m_count;
            let m = r % m_count;
            assert(a < array_size && (nfaces > 0 ==> f < nfaces)) by (nonlinear_arith)
                requires
                    s < total_us,
                    total_us == array_size * per,
                    a == s / per,
                    r == s % per,
                    f == r / m_count,
                    per == (if nfaces > 0 { nfaces * m_count } else { m_count as int }),
                    m_count >= 1,
            ;
            let mi = m as u32;
            let mw0 = width >> mi;
            let mh0 = height >> mi;
            let mw: u32 = if mw0 == 0 {
                1
            } else {
                mw0
            };
            let mh: u32 = if mh0 == 0 {
                1
            } else {
                mh0
            };
            let face = if nfaces > 0 {
                Some(face_indices[f])
            } else {
                None
            };
            let place = SurfacePlace {
                width: mw,
                height: mh,
                mip_level: mi,
                array_slice: a as u32,
                face,
                depth_slice: 0,
            };
            assert(place == places[s as int]);
            proof {
                lemma_span_mono(pix, places, s + 1, places.len() as int);
            }
            let surface = take_surface(bytes, pix, place, cursor)?;
            assert(cursor + spec_surface_size(pix, place.width, place.height) <= bytes@.len());
                assert(surface.plane.data@.len() == spec_surface_size(pix, place.width, place.height));
            let sb = surface.plane.data.len();
            cursor = cursor + sb;
            surfaces.push(surface);
            s += 1;
        }
    }
    assert(surfaces@.len() == places.len());
    assert(data_fits(b, pix));
    if surfaces.len() == 0 {
        return Err(DdsError::invalid("DDS file produced zero surfaces"));
    }
    let first = &surfaces[0];
    let primary_plane = DdsPlane { stride: first.plane.stride, data: first.plane.data.clone() };
    assert(primary_plane.data@ =~= first.plane.data@);
    let mut planes: Vec<DdsPlane> = Vec::new();
    planes.push(primary_plane);
    Ok(
        DdsImage {
            width,
            height,
            pixel_format: pix,
            planes,
            surfaces,
            pts: None,
            mip_map_count: mip_count,
            has_dxt10_header: has_dxt10,
            dxgi_format: dxgi,
            is_cubemap,
            array_size,
            depth: base_depth,
        },
    )
}

} // verus!
