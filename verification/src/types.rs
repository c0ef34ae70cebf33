//! On-disk DDS constants and the raw header records.
use vstd::prelude::*;

verus! {

/// `"DDS "` read as a little-endian `u32`.
pub const DDS_MAGIC: u32 = 0x2053_4444;
/// Byte size of `DDS_HEADER`.
pub const DDS_HEADER_SIZE: usize = 124;
/// Byte size of the embedded `DDS_PIXELFORMAT`.
pub const DDS_PIXELFORMAT_SIZE: usize = 32;
/// Byte size of the optional `DDS_HEADER_DXT10`.
pub const DDS_HEADER_DXT10_SIZE: usize = 20;

// ---- DDS_HEADER.flags --------------------------------------------------
pub const DDSD_CAPS: u32 = 0x1;
pub const DDSD_HEIGHT: u32 = 0x2;
pub const DDSD_WIDTH: u32 = 0x4;
pub const DDSD_PITCH: u32 = 0x8;
pub const DDSD_PIXELFORMAT: u32 = 0x1000;
pub const DDSD_MIPMAPCOUNT: u32 = 0x2_0000;
pub const DDSD_LINEARSIZE: u32 = 0x8_0000;
pub const DDSD_DEPTH: u32 = 0x80_0000;
/// The flag bits every header must carry (caps | height | width | pixel format).
pub const DDSD_REQUIRED: u32 = 0x1007;

// ---- DDS_PIXELFORMAT.flags ---------------------------------------------
pub const DDPF_ALPHAPIXELS: u32 = 0x1;
pub const DDPF_ALPHA: u32 = 0x2;
pub const DDPF_FOURCC: u32 = 0x4;
pub const DDPF_RGB: u32 = 0x40;
pub const DDPF_LUMINANCE: u32 = 0x2_0000;

// ---- DDS_HEADER.caps / caps2 -------------------------------------------
pub const DDSCAPS_COMPLEX: u32 = 0x8;
pub const DDSCAPS_TEXTURE: u32 = 0x1000;
pub const DDSCAPS_MIPMAP: u32 = 0x40_0000;
pub const DDSCAPS2_CUBEMAP: u32 = 0x200;
pub const DDSCAPS2_CUBEMAP_POSITIVEX: u32 = 0x400;
pub const DDSCAPS2_CUBEMAP_NEGATIVEX: u32 = 0x800;
pub const DDSCAPS2_CUBEMAP_POSITIVEY: u32 = 0x1000;
pub const DDSCAPS2_CUBEMAP_NEGATIVEY: u32 = 0x2000;
pub const DDSCAPS2_CUBEMAP_POSITIVEZ: u32 = 0x4000;
pub const DDSCAPS2_CUBEMAP_NEGATIVEZ: u32 = 0x8000;
/// All six face-presence bits.
pub const DDSCAPS2_CUBEMAP_ALL_FACES: u32 = 0xfc00;
pub const DDSCAPS2_VOLUME: u32 = 0x20_0000;

// ---- DDS_HEADER_DXT10 ----------------------------------------------------
pub const DDS_RESOURCE_MISC_TEXTURECUBE: u32 = 0x4;
pub const DDS_DIMENSION_TEXTURE2D: u32 = 3;
pub const DDS_DIMENSION_TEXTURE3D: u32 = 4;

// ---- FourCC codes (four ASCII bytes read little-endian) ----------------
pub const FOURCC_DXT1: u32 = 0x3154_5844;
pub const FOURCC_DXT2: u32 = 0x3254_5844;
pub const FOURCC_DXT3: u32 = 0x3354_5844;
pub const FOURCC_DXT4: u32 = 0x3454_5844;
pub const FOURCC_DXT5: u32 = 0x3554_5844;
pub const FOURCC_BC4U: u32 = 0x5534_4342;
pub const FOURCC_BC4S: u32 = 0x5334_4342;
pub const FOURCC_BC5U: u32 = 0x5535_4342;
pub const FOURCC_BC5S: u32 = 0x5335_4342;
pub const FOURCC_ATI1: u32 = 0x3149_5441;
pub const FOURCC_ATI2: u32 = 0x3249_5441;
pub const FOURCC_DX10: u32 = 0x3031_5844;

/// The eight `u32` fields of `DDS_PIXELFORMAT`, in declaration order.
#[derive(Debug, Clone, Copy, PartialEq, Eq)]
pub struct DdsPixelFormatHeader {
    pub size: u32,
    pub flags: u32,
    pub four_cc: u32,
    pub rgb_bit_count: u32,
    pub r_bit_mask: u32,
    pub g_bit_mask: u32,
    pub b_bit_mask: u32,
    pub a_bit_mask: u32,
}

/// The fields of `DDS_HEADER`, in declaration order.
#[derive(Debug, Clone, Copy, PartialEq, Eq)]
pub struct DdsHeader {
    pub size: u32,
    pub flags: u32,
    pub height: u32,
    pub width: u32,
    pub pitch_or_linear_size: u32,
    pub depth: u32,
    pub mip_map_count: u32,
    pub reserved1: [u32; 11],
    pub pixel_format: DdsPixelFormatHeader,
    pub caps: u32,
    pub caps2: u32,
    pub caps3: u32,
    pub caps4: u32,
    pub reserved2: u32,
}

/// The fields of `DDS_HEADER_DXT10`, in declaration order.
#[derive(Debug, Clone, Copy, PartialEq, Eq)]
pub struct DdsHeaderDxt10 {
    pub dxgi_format: u32,
    pub resource_dimension: u32,
    pub misc_flag: u32,
    pub array_size: u32,
    pub misc_flags2: u32,
}

/// A `DXGI_FORMAT` value as stored in the DX10 header. The raw code is
/// kept verbatim so that every value (known or not) round-trips.
#[derive(Debug, Clone, Copy, PartialEq, Eq)]
pub struct DxgiFormat {
    pub code: u32,
}

impl DxgiFormat {
    pub const R8G8B8A8_TYPELESS: u32 = 27;
    pub const R8G8B8A8_UNORM: u32 = 28;
    pub const R8G8B8A8_UNORM_SRGB: u32 = 29;
    pub const R8G8_TYPELESS: u32 = 48;
    pub const R8G8_UNORM: u32 = 49;
    pub const R8_TYPELESS: u32 = 60;
    pub const R8_UNORM: u32 = 61;
    pub const A8_UNORM: u32 = 65;
    pub const BC1_TYPELESS: u32 = 70;
    pub const BC1_UNORM: u32 = 71;
    pub const BC1_UNORM_SRGB: u32 = 72;
    pub const BC2_TYPELESS: u32 = 73;
    pub const BC2_UNORM: u32 = 74;
    pub const BC2_UNORM_SRGB: u32 = 75;
    pub const BC3_TYPELESS: u32 = 76;
    pub const BC3_UNORM: u32 = 77;
    pub const BC3_UNORM_SRGB: u32 = 78;
    pub const BC4_TYPELESS: u32 = 79;
    pub const BC4_UNORM: u32 = 80;
    pub const BC4_SNORM: u32 = 81;
    pub const BC5_TYPELESS: u32 = 82;
    pub const BC5_UNORM: u32 = 83;
    pub const BC5_SNORM: u32 = 84;
    pub const B5G6R5_UNORM: u32 = 85;
    pub const B5G5R5A1_UNORM: u32 = 86;
    pub const B8G8R8A8_UNORM: u32 = 87;
    pub const B8G8R8X8_UNORM: u32 = 88;
    pub const B8G8R8A8_TYPELESS: u32 = 90;
    pub const B8G8R8A8_UNORM_SRGB: u32 = 91;
    pub const B8G8R8X8_TYPELESS: u32 = 92;
    pub const B8G8R8X8_UNORM_SRGB: u32 = 93;
    pub const BC6H_TYPELESS: u32 = 94;
    pub const BC6H_UF16: u32 = 95;
    pub const BC6H_SF16: u32 = 96;
    pub const BC7_TYPELESS: u32 = 97;
    pub const BC7_UNORM: u32 = 98;
    pub const BC7_UNORM_SRGB: u32 = 99;
    pub const B4G4R4A4_UNORM: u32 = 115;

    /// Wrap a raw `DXGI_FORMAT` code.
    pub fn from_u32(code: u32) -> (f: Self)
        ensures
            f.code == code,
    {
        DxgiFormat { code }
    }

    /// The raw `DXGI_FORMAT` code.
    pub fn to_u32(&self) -> (c: u32)
        ensures
            c == self.code,
    {
        self.code
    }
}

} // verus!
