//! DDS writer: serialises uncompressed, volume and block-compressed images
//! into complete DDS byte streams (magic, `DDS_HEADER`, optional
//! `DDS_HEADER_DXT10`, surface bytes).
use vstd::prelude::*;
use crate::error::{DdsError, Result, is_invalid, is_unsupported};
use crate::image::{
    CubemapFace, DdsImage, DdsPixelFormat, DdsPlane, DdsSurface, spec_block_bytes,
    spec_bytes_per_pixel, spec_face_at,
};
use crate::decoder::at_least_one;
use crate::bc7_enc::{bc7_block_ok, encode_bc7};
use crate::surface::ceil4;
use crate::bcn_enc::{
    bc1_block_encodes, bc2_block_encodes, bc3_block_encodes, bc4_block_encodes, bc5_block_encodes,
    block_count, blocks_across, encode_bc1, encode_bc2, encode_bc3, encode_bc4_unorm, encode_bc5_unorm,
    gathered_channel, gathered_rgba, out_block,
};
use crate::types::{
    DdsPixelFormatHeader, DDPF_ALPHA, DDPF_ALPHAPIXELS, DDPF_FOURCC, DDPF_LUMINANCE, DDPF_RGB,
    DDSCAPS2_CUBEMAP, DDSCAPS2_CUBEMAP_NEGATIVEX, DDSCAPS2_CUBEMAP_NEGATIVEY,
    DDSCAPS2_CUBEMAP_NEGATIVEZ, DDSCAPS2_CUBEMAP_POSITIVEX, DDSCAPS2_CUBEMAP_POSITIVEY,
    DDSCAPS2_CUBEMAP_POSITIVEZ, DDSCAPS2_VOLUME, DDSCAPS_COMPLEX, DDSCAPS_MIPMAP,
    DDSCAPS_TEXTURE, DDSD_DEPTH, DDSD_LINEARSIZE, DDSD_MIPMAPCOUNT, DDSD_PITCH, DDSD_REQUIRED,
    DDS_DIMENSION_TEXTURE2D, DDS_HEADER_SIZE, DDS_MAGIC, DDS_PIXELFORMAT_SIZE, FOURCC_ATI1,
    FOURCC_BC4S, FOURCC_BC4U, FOURCC_BC5S, FOURCC_BC5U, FOURCC_DX10, FOURCC_DXT1, FOURCC_DXT3,
    FOURCC_DXT5,
};

verus! {

// ---- Little-endian words ------------------------------------------------------

/// The four little-endian bytes of `v`.
pub open spec fn le_bytes(v: u32) -> Seq<u8> {
    seq![(v & 0xff) as u8, ((v >> 8) & 0xff) as u8, ((v >> 16) & 0xff) as u8, ((v >> 24) & 0xff) as u8]
}

/// The words of `ws`, each as four little-endian bytes, in order.
pub open spec fn words_le(ws: Seq<u32>) -> Seq<u8>
    decreases ws.len(),
{
    if ws.len() == 0 {
        Seq::empty()
    } else {
        words_le(ws.drop_last()) + le_bytes(ws.last())
    }
}

/// Append `v` to `out` in little-endian byte order.
fn push_u32(out: &mut Vec<u8>, v: u32)
    ensures
        final(out)@ == old(out)@ + le_bytes(v),
{
    out.push((v & 0xff) as u8);
    out.push(((v >> 8) & 0xff) as u8);
    out.push(((v >> 16) & 0xff) as u8);
    out.push(((v >> 24) & 0xff) as u8);
    assert(final(out)@ =~= old(out)@ + le_bytes(v));
}

/// Append every word of `words` to `out`, each in little-endian order.
fn push_words(out: &mut Vec<u8>, words: &[u32])
    ensures
        final(out)@ == old(out)@ + words_le(words@),
{
    let n = words.len();
    let mut i: usize = 0;
    while i < n
        invariant
            n == words@.len(),
            i <= n,
            out@ == old(out)@ + words_le(words@.take(i as int)),
        decreases n - i,
    {
        proof {
            let t = words@.take(i as int + 1);
            assert(t.drop_last() =~= words@.take(i as int));
            assert(t.last() == words@[i as int]);
        }
        push_u32(out, words[i]);
        proof {
            assert(out@ =~= old(out)@ + words_le(words@.take(i as int + 1)));
        }
        i += 1;
    }
    proof {
        assert(words@.take(n as int) =~= words@);
    }
}

/// The 32 header words (magic, then the 31 words of `DDS_HEADER`) of a
/// file without a DX10 record.
pub open spec fn header_words(
    flags: u32,
    height: u32,
    width: u32,
    pitch_or_linear_size: u32,
    depth: u32,
    mip_count: u32,
    pf: DdsPixelFormatHeader,
    caps: u32,
    caps2: u32,
) -> Seq<u32> {
    seq![DDS_MAGIC, DDS_HEADER_SIZE as u32, flags, height, width, pitch_or_linear_size, depth, mip_count]
        + Seq::new(11, |i: int| 0u32) + seq![
        pf.size,
        pf.flags,
        pf.four_cc,
        pf.rgb_bit_count,
        pf.r_bit_mask,
        pf.g_bit_mask,
        pf.b_bit_mask,
        pf.a_bit_mask,
        caps,
        caps2,
        0u32,
        0u32,
        0u32,
    ]
}

/// Append the magic and a `DDS_HEADER` carrying the given fields.
fn push_header(
    out: &mut Vec<u8>,
    flags: u32,
    height: u32,
    width: u32,
    pitch_or_linear_size: u32,
    depth: u32,
    mip_count: u32,
    pf: &DdsPixelFormatHeader,
    caps: u32,
    caps2: u32,
)
    ensures
        final(out)@ == old(out)@ + words_le(
            header_words(flags, height, width, pitch_or_linear_size, depth, mip_count, *pf, caps, caps2),
        ),
{
    let words: [u32; 32] = [
        DDS_MAGIC,
        DDS_HEADER_SIZE as u32,
        flags,
        height,
        width,
        pitch_or_linear_size,
        depth,
        mip_count,
        0,
        0,
        0,
        0,
        0,
        0,
        0,
        0,
        0,
        0,
        0,
        pf.size,
        pf.flags,
        pf.four_cc,
        pf.rgb_bit_count,
        pf.r_bit_mask,
        pf.g_bit_mask,
        pf.b_bit_mask,
        pf.a_bit_mask,
        caps,
        caps2,
        0,
        0,
        0,
    ];
    assert(words@ =~= header_words(flags, height, width, pitch_or_linear_size, depth, mip_count, *pf, caps, caps2));
    push_words(out, &words);
}

// ---- Pixel formats ------------------------------------------------------------------

/// A `DDS_PIXELFORMAT` with no FourCC and the given flags, bit count and masks.
pub open spec fn masks_format(flags: u32, bits: u32, r: u32, g: u32, b: u32, a: u32) -> DdsPixelFormatHeader {
    DdsPixelFormatHeader {
        size: DDS_PIXELFORMAT_SIZE as u32,
        flags,
        four_cc: 0,
        rgb_bit_count: bits,
        r_bit_mask: r,
        g_bit_mask: g,
        b_bit_mask: b,
        a_bit_mask: a,
    }
}

/// The legacy `DDS_PIXELFORMAT` of each uncompressed layout that has one.
pub open spec fn spec_legacy_fields(pix: DdsPixelFormat) -> Option<DdsPixelFormatHeader> {
    match pix {
        DdsPixelFormat::A8R8G8B8 => Some(masks_format(DDPF_RGB | DDPF_ALPHAPIXELS, 32, 0x00ff_0000, 0x0000_ff00, 0x0000_00ff, 0xff00_0000)),
        DdsPixelFormat::X8R8G8B8 => Some(masks_format(DDPF_RGB, 32, 0x00ff_0000, 0x0000_ff00, 0x0000_00ff, 0)),
        DdsPixelFormat::A8B8G8R8 => Some(masks_format(DDPF_RGB | DDPF_ALPHAPIXELS, 32, 0x0000_00ff, 0x0000_ff00, 0x00ff_0000, 0xff00_0000)),
        DdsPixelFormat::R8G8B8 => Some(masks_format(DDPF_RGB, 24, 0x00ff_0000, 0x0000_ff00, 0x0000_00ff, 0)),
        DdsPixelFormat::R5G6B5 => Some(masks_format(DDPF_RGB, 16, 0xf800, 0x07e0, 0x001f, 0)),
        DdsPixelFormat::A1R5G5B5 => Some(masks_format(DDPF_RGB | DDPF_ALPHAPIXELS, 16, 0x7c00, 0x03e0, 0x001f, 0x8000)),
        DdsPixelFormat::A4R4G4B4 => Some(masks_format(DDPF_RGB | DDPF_ALPHAPIXELS, 16, 0x0f00, 0x00f0, 0x000f, 0xf000)),
        DdsPixelFormat::A8L8 => Some(masks_format(DDPF_LUMINANCE | DDPF_ALPHAPIXELS, 16, 0x00ff, 0, 0, 0xff00)),
        DdsPixelFormat::L8 => Some(masks_format(DDPF_LUMINANCE, 8, 0x00ff, 0, 0, 0)),
        DdsPixelFormat::A8 => Some(masks_format(DDPF_ALPHA, 8, 0, 0, 0, 0x00ff)),
        _ => None,
    }
}

/// Build the `DDS_PIXELFORMAT` of a legacy uncompressed layout;
/// `Unsupported` for every layout without one (block-compressed, float,
/// normalised and integer layouts).
fn legacy_pixel_format_fields(pix: DdsPixelFormat) -> (r: Result<DdsPixelFormatHeader>)
    ensures
        spec_legacy_fields(pix) matches Some(f) ==> r == Ok::<DdsPixelFormatHeader, DdsError>(f),
        spec_legacy_fields(pix) is None ==> is_unsupported(r),
{
    let size = DDS_PIXELFORMAT_SIZE as u32;
    match pix {
        DdsPixelFormat::A8R8G8B8 => Ok(DdsPixelFormatHeader { size, flags: DDPF_RGB | DDPF_ALPHAPIXELS, four_cc: 0, rgb_bit_count: 32, r_bit_mask: 0x00ff_0000, g_bit_mask: 0x0000_ff00, b_bit_mask: 0x0000_00ff, a_bit_mask: 0xff00_0000 }),
        DdsPixelFormat::X8R8G8B8 => Ok(DdsPixelFormatHeader { size, flags: DDPF_RGB, four_cc: 0, rgb_bit_count: 32, r_bit_mask: 0x00ff_0000, g_bit_mask: 0x0000_ff00, b_bit_mask: 0x0000_00ff, a_bit_mask: 0 }),
        DdsPixelFormat::A8B8G8R8 => Ok(DdsPixelFormatHeader { size, flags: DDPF_RGB | DDPF_ALPHAPIXELS, four_cc: 0, rgb_bit_count: 32, r_bit_mask: 0x0000_00ff, g_bit_mask: 0x0000_ff00, b_bit_mask: 0x00ff_0000, a_bit_mask: 0xff00_0000 }),
        DdsPixelFormat::R8G8B8 => Ok(DdsPixelFormatHeader { size, flags: DDPF_RGB, four_cc: 0, rgb_bit_count: 24, r_bit_mask: 0x00ff_0000, g_bit_mask: 0x0000_ff00, b_bit_mask: 0x0000_00ff, a_bit_mask: 0 }),
        DdsPixelFormat::R5G6B5 => Ok(DdsPixelFormatHeader { size, flags: DDPF_RGB, four_cc: 0, rgb_bit_count: 16, r_bit_mask: 0xf800, g_bit_mask: 0x07e0, b_bit_mask: 0x001f, a_bit_mask: 0 }),
        DdsPixelFormat::A1R5G5B5 => Ok(DdsPixelFormatHeader { size, flags: DDPF_RGB | DDPF_ALPHAPIXELS, four_cc: 0, rgb_bit_count: 16, r_bit_mask: 0x7c00, g_bit_mask: 0x03e0, b_bit_mask: 0x001f, a_bit_mask: 0x8000 }),
        DdsPixelFormat::A4R4G4B4 => Ok(DdsPixelFormatHeader { size, flags: DDPF_RGB | DDPF_ALPHAPIXELS, four_cc: 0, rgb_bit_count: 16, r_bit_mask: 0x0f00, g_bit_mask: 0x00f0, b_bit_mask: 0x000f, a_bit_mask: 0xf000 }),
        DdsPixelFormat::A8L8 => Ok(DdsPixelFormatHeader { size, flags: DDPF_LUMINANCE | DDPF_ALPHAPIXELS, four_cc: 0, rgb_bit_count: 16, r_bit_mask: 0x00ff, g_bit_mask: 0, b_bit_mask: 0, a_bit_mask: 0xff00 }),
        DdsPixelFormat::L8 => Ok(DdsPixelFormatHeader { size, flags: DDPF_LUMINANCE, four_cc: 0, rgb_bit_count: 8, r_bit_mask: 0x00ff, g_bit_mask: 0, b_bit_mask: 0, a_bit_mask: 0 }),
        DdsPixelFormat::A8 => Ok(DdsPixelFormatHeader { size, flags: DDPF_ALPHA, four_cc: 0, rgb_bit_count: 8, r_bit_mask: 0, g_bit_mask: 0, b_bit_mask: 0, a_bit_mask: 0x00ff }),
        _ => {
            if pix.is_block_compressed() {
                Err(DdsError::unsupported("block-compressed layouts have no uncompressed DDS_PIXELFORMAT"))
            } else {
                Err(DdsError::unsupported("no legacy DDS_PIXELFORMAT for this layout"))
            }
        },
    }
}

// ---- Mip chains -----------------------------------------------------------------

/// `x` halved, floored to 1.
pub open spec fn half(x: u32) -> u32 {
    at_least_one(x / 2)
}

/// Extent of mip level `i` of an axis `x` long: halved once per level,
/// floored to 1.
pub open spec fn mip_extent(x: u32, i: int) -> u32
    decreases i,
{
    if i <= 0 {
        x
    } else {
        half(mip_extent(x, i - 1))
    }
}

/// The `(width, height)` of each of the `mip_count` levels of a chain.
pub fn mip_dimensions(width: u32, height: u32, mip_count: u32) -> (out: Vec<(u32, u32)>)
    ensures
        out@.len() == mip_count,
        forall|i: int|
            0 <= i < mip_count ==> #[trigger] out@[i] == (mip_extent(width, i), mip_extent(height, i)),
{
    let mut out: Vec<(u32, u32)> = Vec::new();
    let mut w = width;
    let mut h = height;
    let mut i: u32 = 0;
    while i < mip_count
        invariant
            i <= mip_count,
            out@.len() == i,
            w == mip_extent(width, i as int),
            h == mip_extent(height, i as int),
            forall|k: int|
                0 <= k < i ==> #[trigger] out@[k] == (mip_extent(width, k), mip_extent(height, k)),
        decreases mip_count - i,
    {
        out.push((w, h));
        w = if w / 2 == 0 {
            1
        } else {
            w / 2
        };
        h = if h / 2 == 0 {
            1
        } else {
            h / 2
        };
        i += 1;
    }
    out
}

/// Byte `k` of the 2×2 box-filtered half-size level of the `w × h`
/// surface `src` (`bpp` bytes per pixel, rows packed): each channel the
/// rounded mean of the four source pixels, the last row and column
/// standing in for those past an odd edge.
pub open spec fn downsample_at(src: Seq<u8>, w: u32, h: u32, bpp: u32, k: int) -> u8 {
    let dw = half(w) as int;
    let c = k % (bpp as int);
    let p = k / (bpp as int);
    let x = p % dw;
    let y = p / dw;
    let sx0 = if 2 * x < w - 1 { 2 * x } else { w - 1 };
    let sx1 = if 2 * x + 1 < w - 1 { 2 * x + 1 } else { w - 1 };
    let sy0 = if 2 * y < h - 1 { 2 * y } else { h - 1 };
    let sy1 = if 2 * y + 1 < h - 1 { 2 * y + 1 } else { h - 1 };
    ((src[(sy0 * w + sx0) * bpp + c] + src[(sy0 * w + sx1) * bpp + c] + src[(sy1 * w + sx0) * bpp
        + c] + src[(sy1 * w + sx1) * bpp + c] + 2) / 4) as u8
}

/// The 2×2 box-filtered half-size level of the `w × h` surface `src`.
pub open spec fn downsample(src: Seq<u8>, w: u32, h: u32, bpp: u32) -> Seq<u8> {
    Seq::new((half(w) * half(h) * bpp) as nat, |k: int| downsample_at(src, w, h, bpp, k))
}

proof fn lemma_pixel_index(x: int, y: int, c: int, w: int, h: int, bpp: int)
    requires
        0 <= x < w,
        0 <= y < h,
        0 <= c < bpp,
    ensures
        0 <= y * w <= y * w + x < w * h,
        0 <= (y * w + x) * bpp <= (y * w + x) * bpp + c < w * h * bpp,
{
    assert(0 <= y * w <= y * w + x < w * h && 0 <= (y * w + x) * bpp <= (y * w + x) * bpp + c < w
        * h * bpp) by (nonlinear_arith)
        requires
            0 <= x < w,
            0 <= y < h,
            0 <= c < bpp,
    ;
}

proof fn lemma_half_le(x: u32)
    requires
        x >= 1,
    ensures
        1 <= half(x) <= x,
        2 * (half(x) - 1) < x,
{
}

/// Box-downsample one `src_w × src_h` level to the next (half-size) level.
pub fn box_downsample(src: &[u8], src_w: u32, src_h: u32, bytes_per_pixel: u32) -> (r: (Vec<u8>, u32, u32))
    requires
        src_w >= 1,
        src_h >= 1,
        bytes_per_pixel >= 1,
        src@.len() >= src_w * src_h * bytes_per_pixel,
    ensures
        r.0@ == downsample(src@, src_w, src_h, bytes_per_pixel),
        r.1 == half(src_w),
        r.2 == half(src_h),
{
    let ghost s = src@;
    let src_len = src.len();
    let dst_w: u32 = if src_w / 2 == 0 {
        1
    } else {
        src_w / 2
    };
    let dst_h: u32 = if src_h / 2 == 0 {
        1
    } else {
        src_h / 2
    };
    let bpp = bytes_per_pixel as usize;
    let w = src_w as usize;
    let h = src_h as usize;
    proof {
        lemma_half_le(src_w);
        lemma_half_le(src_h);
        assert(dst_w * dst_h * bpp <= src_w * src_h * bpp) by (nonlinear_arith)
            requires
                1 <= dst_w <= src_w,
                1 <= dst_h <= src_h,
                bpp >= 1,
        ;
        assert(src_w * src_h * bpp == (src_w * src_h) * bpp) by (nonlinear_arith);
        assert(dst_w * dst_h <= dst_w * dst_h * bpp) by (nonlinear_arith)
            requires
                bpp >= 1,
        ;
        assert(src_w * src_h <= src_w * src_h * bpp) by (nonlinear_arith)
            requires
                bpp >= 1,
        ;
    }
    let n = dst_w as usize * dst_h as usize * bpp;
    let dw = dst_w as usize;
    let mut dst: Vec<u8> = Vec::new();
    let mut k: usize = 0;
    while k < n
        invariant
            s == src@,
            src_len == src@.len(),
            src_w >= 1,
            src_h >= 1,
            w == src_w,
            h == src_h,
            bpp == bytes_per_pixel >= 1,
            dw == dst_w == half(src_w),
            dst_h == half(src_h),
            n == dst_w * dst_h * bpp,
            n <= src_w * src_h * bpp <= src@.len(),
            src_w * src_h <= src_w * src_h * bpp,
            2 * (dst_w - 1) < src_w,
            2 * (dst_h - 1) < src_h,
            k <= n,
            dst@.len() == k,
            forall|j: int| 0 <= j < k ==> #[trigger] dst@[j] == downsample_at(s, src_w, src_h, bytes_per_pixel, j),
        decreases n - k,
    {
        let c = k % bpp;
        let p = k / bpp;
        let dx = p % dw;
        let dy = p / dw;
        assert(dy < dst_h) by (nonlinear_arith)
            requires
                k < n,
                n == dst_w * dst_h * bpp,
                p == k / bpp,
                dy == p / dw,
                dw == dst_w,
                dw >= 1,
                bpp >= 1,
        ;
        let sx0 = if dx * 2 < w - 1 {
            dx * 2
        } else {
            w - 1
        };
        let sx1 = if dx * 2 + 1 < w - 1 {
            dx * 2 + 1
        } else {
            w - 1
        };
        let sy0 = if dy * 2 < h - 1 {
            dy * 2
        } else {
            h - 1
        };
        let sy1 = if dy * 2 + 1 < h - 1 {
            dy * 2 + 1
        } else {
            h - 1
        };
        proof {
            lemma_pixel_index(sx0 as int, sy0 as int, c as int, w as int, h as int, bpp as int);
            lemma_pixel_index(sx1 as int, sy0 as int, c as int, w as int, h as int, bpp as int);
            lemma_pixel_index(sx0 as int, sy1 as int, c as int, w as int, h as int, bpp as int);
            lemma_pixel_index(sx1 as int, sy1 as int, c as int, w as int, h as int, bpp as int);
        }
        let p00 = src[(sy0 * w + sx0) * bpp + c] as u32;
        let p01 = src[(sy0 * w + sx1) * bpp + c] as u32;
        let p10 = src[(sy1 * w + sx0) * bpp + c] as u32;
        let p11 = src[(sy1 * w + sx1) * bpp + c] as u32;
        dst.push(((p00 + p01 + p10 + p11 + 2) / 4) as u8);
        k += 1;
    }
    proof {
        assert(dst@ =~= downsample(s, src_w, src_h, bytes_per_pixel));
    }
    (dst, dst_w, dst_h)
}

/// Append the bytes of `src` to `out`.
fn append_bytes(out: &mut Vec<u8>, src: &[u8])
    ensures
        final(out)@ == old(out)@ + src@,
{
    let n = src.len();
    let mut i: usize = 0;
    while i < n
        invariant
            n == src@.len(),
            i <= n,
            out@ == old(out)@ + src@.take(i as int),
        decreases n - i,
    {
        out.push(src[i]);
        proof {
            assert(out@ =~= old(out)@ + src@.take(i as int + 1));
        }
        i += 1;
    }
    proof {
        assert(src@.take(n as int) =~= src@);
    }
}

/// Level `k` of the box-filtered chain that starts with the `w × h`
/// level `src`: its bytes, width and height.
pub open spec fn box_level(src: Seq<u8>, w: u32, h: u32, bpp: u32, k: int) -> (Seq<u8>, u32, u32)
    decreases k,
{
    if k <= 0 {
        (src, w, h)
    } else {
        let p = box_level(src, w, h, bpp, k - 1);
        (downsample(p.0, p.1, p.2, bpp), half(p.1), half(p.2))
    }
}

/// Levels `1..=k` of the box-filtered chain that starts with `src`,
/// concatenated.
pub open spec fn box_chain(src: Seq<u8>, w: u32, h: u32, bpp: u32, k: int) -> Seq<u8>
    decreases k,
{
    if k <= 0 {
        Seq::empty()
    } else {
        box_chain(src, w, h, bpp, k - 1) + box_level(src, w, h, bpp, k).0
    }
}

/// Bytes of a `w × h` level of `bpp`-byte pixels.
pub open spec fn level_len(w: u32, h: u32, bpp: u32) -> int {
    w * h * bpp
}

/// Surface `i` of `img` is mip level `i` of the canonical chain and holds
/// at least that level's bytes.
pub open spec fn chain_level_ok(img: DdsImage, i: int, bpp: u32) -> bool {
    let w = mip_extent(img.width, i);
    let h = mip_extent(img.height, i);
    &&& img.surfaces@[i].width == w
    &&& img.surfaces@[i].height == h
    &&& img.surfaces@[i].plane.data@.len() >= level_len(w, h, bpp)
}

/// Whether `img.surfaces` carries the whole `mip`-level chain of a plain
/// (non-cube, non-array) texture, to be written verbatim.
pub open spec fn supplied_chain_ok(img: DdsImage, bpp: u32, mip: u32) -> bool {
    &&& img.surfaces@.len() >= mip
    &&& !img.is_cubemap
    &&& img.array_size <= 1
    &&& forall|i: int| 0 <= i < mip ==> #[trigger] chain_level_ok(img, i, bpp)
}

/// Levels `1..n` of the supplied chain, each cut to its level size.
pub open spec fn supplied_levels(img: DdsImage, bpp: u32, n: int) -> Seq<u8>
    decreases n,
{
    if n <= 1 {
        Seq::empty()
    } else {
        supplied_levels(img, bpp, n - 1) + img.surfaces@[n - 1].plane.data@.take(
            level_len(mip_extent(img.width, n - 1), mip_extent(img.height, n - 1), bpp),
        )
    }
}

/// Whether `img` is a well-formed uncompressed 2D input: an uncompressed
/// layout, exactly one plane, non-zero size, and a plane that holds the
/// whole mip-0 level at the packed row stride.
pub open spec fn uncompressed_input_ok(img: DdsImage) -> bool {
    let bpp = spec_bytes_per_pixel(img.pixel_format).unwrap();
    &&& spec_block_bytes(img.pixel_format) is None
    &&& img.planes@.len() == 1
    &&& img.width != 0
    &&& img.height != 0
    &&& img.planes@[0].data@.len() >= img.width * bpp * img.height
    &&& img.planes@[0].stride == img.width * bpp
}

/// The mip count written for `img`: its `mip_map_count`, at least 1.
pub open spec fn written_mips(img: DdsImage) -> u32 {
    at_least_one(img.mip_map_count)
}

/// The file [`encode_dds_uncompressed`] writes for a well-formed `img`
/// whose layout has legacy pixel-format fields `pf`.
pub open spec fn uncompressed_file(img: DdsImage, pf: DdsPixelFormatHeader) -> Seq<u8> {
    let bpp = spec_bytes_per_pixel(img.pixel_format).unwrap();
    let w = img.width;
    let h = img.height;
    let mip = written_mips(img);
    let with_mips = mip > 1;
    let pitch = w * bpp;
    let flags = DDSD_REQUIRED | DDSD_PITCH | (if with_mips { DDSD_MIPMAPCOUNT } else { 0 });
    let caps = DDSCAPS_TEXTURE | (if with_mips { DDSCAPS_COMPLEX | DDSCAPS_MIPMAP } else { 0 });
    let mip0 = img.planes@[0].data@.take(level_len(w, h, bpp));
    let rest = if !with_mips {
        Seq::empty()
    } else if supplied_chain_ok(img, bpp, mip) {
        supplied_levels(img, bpp, mip as int)
    } else {
        box_chain(mip0, w, h, bpp, mip - 1)
    };
    words_le(header_words(flags, h, w, pitch as u32, 0, mip, pf, caps, 0)) + mip0 + rest
}

proof fn lemma_mip_extent_bounds(x: u32, i: int)
    requires
        x >= 1,
    ensures
        1 <= mip_extent(x, i) <= x,
    decreases i,
{
    if i > 0 {
        lemma_mip_extent_bounds(x, i - 1);
    }
}

proof fn lemma_level_len_mono(w: u32, h: u32, w2: u32, h2: u32, bpp: u32)
    requires
        w2 <= w,
        h2 <= h,
    ensures
        level_len(w2, h2, bpp) <= level_len(w, h, bpp),
        level_len(w, h, bpp) == w * bpp * h,
        bpp >= 1 ==> w2 * h2 <= level_len(w2, h2, bpp),
{
    assert(w2 * h2 * bpp <= w * h * bpp && w * h * bpp == w * bpp * h && (bpp >= 1 ==> w2 * h2
        <= w2 * h2 * bpp)) by (nonlinear_arith)
        requires
            w2 <= w,
            h2 <= h,
    ;
}

/// Encode `img` as an uncompressed DDS file with a legacy header.
///
/// When `mip_map_count > 1` the full chain is written: the levels in
/// `img.surfaces` when they form the canonical chain of a plain texture,
/// box-filtered levels fabricated from mip 0 otherwise.
pub fn encode_dds_uncompressed(image: &DdsImage) -> (r: Result<Vec<u8>>)
    ensures
        spec_block_bytes(image.pixel_format) is Some ==> is_unsupported(r),
        spec_block_bytes(image.pixel_format) is None && !uncompressed_input_ok(*image) ==> is_invalid(r),
        uncompressed_input_ok(*image) && spec_legacy_fields(image.pixel_format) is None ==> is_unsupported(r),
        uncompressed_input_ok(*image) ==> (spec_legacy_fields(image.pixel_format) matches Some(pf)
            ==> (r matches Ok(out) && out@ == uncompressed_file(*image, pf))),
{
    if image.pixel_format.is_block_compressed() {
        return Err(DdsError::unsupported("block-compressed layouts are written by encode_dds_block_compressed"));
    }
    if image.planes.len() != 1 {
        return Err(DdsError::invalid("DdsImage must carry exactly one plane"));
    }
    let plane = &image.planes[0];
    let width = image.width;
    let height = image.height;
    if width == 0 || height == 0 {
        return Err(DdsError::invalid("zero-sized surface"));
    }
    let bpp: u32 = match image.pixel_format.bytes_per_pixel() {
        Some(b) => b,
        None => 0,
    };
    assert(bpp >= 1);
    assert(width * bpp <= width * bpp * height) by (nonlinear_arith)
        requires
            height >= 1,
    ;
    assert(bpp <= 16);
    assert(width * bpp <= 0xffff_ffff * 16) by (nonlinear_arith)
        requires
            bpp <= 16,
    ;
    let pitch: u64 = width as u64 * bpp as u64;
    let data_len = plane.data.len();
    let need: u64 = match pitch.checked_mul(height as u64) {
        Some(n) => n,
        None => {
            return Err(DdsError::invalid("plane data is shorter than width x height x bytes_per_pixel"));
        },
    };
    if (data_len as u64) < need {
        return Err(DdsError::invalid("plane data is shorter than width x height x bytes_per_pixel"));
    }
    if plane.stride != pitch as usize {
        return Err(DdsError::invalid("plane stride is not width x bytes_per_pixel"));
    }
    let pf = legacy_pixel_format_fields(image.pixel_format)?;
    let mip: u32 = if image.mip_map_count == 0 {
        1
    } else {
        image.mip_map_count
    };
    let with_mips = mip > 1;
    let flags = DDSD_REQUIRED | DDSD_PITCH | if with_mips {
        DDSD_MIPMAPCOUNT
    } else {
        0
    };
    let caps = DDSCAPS_TEXTURE | if with_mips {
        DDSCAPS_COMPLEX | DDSCAPS_MIPMAP
    } else {
        0
    };
    let ghost img = *image;
    proof {
        lemma_level_len_mono(width, height, width, height, bpp);
    }

    // Is the chain in `image.surfaces` usable as-is?
    let mip_dims = mip_dimensions(width, height, mip);
    let mut use_supplied = false;
    if with_mips && image.surfaces.len() >= mip as usize && !image.is_cubemap && image.array_size <= 1 {
        let mut ok = true;
        let mut i: usize = 0;
        while ok && i < mip as usize
            invariant
                img == *image,
                image.surfaces@.len() >= mip,
                !image.is_cubemap,
                image.array_size <= 1,
                bpp >= 1,
                mip_dims@.len() == mip,
                forall|k: int|
                    0 <= k < mip ==> #[trigger] mip_dims@[k] == (mip_extent(width, k), mip_extent(height, k)),
                width == image.width >= 1,
                height == image.height >= 1,
                level_len(width, height, bpp) <= data_len,
                i <= mip,
                ok ==> forall|k: int| 0 <= k < i ==> #[trigger] chain_level_ok(img, k, bpp),
                !ok ==> !supplied_chain_ok(img, bpp, mip),
            decreases mip - i + (if ok { 1int } else { 0int }),
        {
            let (w, h) = mip_dims[i];
            let s = &image.surfaces[i];
            proof {
                lemma_mip_extent_bounds(width, i as int);
                lemma_mip_extent_bounds(height, i as int);
                lemma_level_len_mono(width, height, w, h, bpp);
                lemma_level_len_mono(w, h, w, h, bpp);
            }
            if s.width != w || s.height != h {
                ok = false;
                assert(!chain_level_ok(img, i as int, bpp));
            } else {
                let want = w as usize * h as usize * bpp as usize;
                if s.plane.data.len() < want {
                    ok = false;
                    assert(!chain_level_ok(img, i as int, bpp));
                } else {
                    i += 1;
                }
            }
        }
        use_supplied = ok;
    }
    assert(with_mips ==> (use_supplied == supplied_chain_ok(img, bpp, mip)));

    let mut out: Vec<u8> = Vec::new();
    push_header(&mut out, flags, height, width, pitch as u32, 0, mip, &pf, caps, 0);
    let mip0_bytes = need as usize;
    let mip0 = vstd::slice::slice_subrange(plane.data.as_slice(), 0, mip0_bytes);
    append_bytes(&mut out, mip0);
    let ghost base = out@;
    let ghost mip0_seq = mip0@;
    assert(mip0_seq == plane.data@.take(level_len(width, height, bpp)));

    if with_mips {
        if use_supplied {
            let mut i: usize = 1;
            while i < mip as usize
                invariant
                    img == *image,
                    supplied_chain_ok(img, bpp, mip),
                    bpp >= 1,
                    mip_dims@.len() == mip,
                    forall|k: int|
                        0 <= k < mip ==> #[trigger] mip_dims@[k] == (mip_extent(width, k), mip_extent(height, k)),
                    width == image.width >= 1,
                    height == image.height >= 1,
                    level_len(width, height, bpp) <= data_len,
                    1 <= i <= mip,
                    out@ == base + supplied_levels(img, bpp, i as int),
                decreases mip - i,
            {
                let (w, h) = mip_dims[i];
                proof {
                    lemma_mip_extent_bounds(width, i as int);
                    lemma_mip_extent_bounds(height, i as int);
                    lemma_level_len_mono(width, height, w, h, bpp);
                    lemma_level_len_mono(w, h, w, h, bpp);
                    assert(chain_level_ok(img, i as int, bpp));
                }
                let want = w as usize * h as usize * bpp as usize;
                let level = vstd::slice::slice_subrange(image.surfaces[i].plane.data.as_slice(), 0, want);
                append_bytes(&mut out, level);
                proof {
                    assert(level@ == image.surfaces@[i as int].plane.data@.take(want as int));
                    assert(out@ =~= base + supplied_levels(img, bpp, i as int + 1));
                }
                i += 1;
            }
        } else {
            let mut prev: Vec<u8> = vstd::slice::slice_to_vec(mip0);
            let mut prev_w = width;
            let mut prev_h = height;
            let mut level: u32 = 1;
            while level < mip
                invariant
                    1 <= level <= mip,
                    bpp >= 1,
                    prev_w >= 1,
                    prev_h >= 1,
                    prev@.len() == prev_w * prev_h * bpp,
                    (prev@, prev_w, prev_h) == box_level(mip0_seq, width, height, bpp, level - 1),
                    out@ == base + box_chain(mip0_seq, width, height, bpp, level - 1),
                decreases mip - level,
            {
                let (next, nw, nh) = box_downsample(prev.as_slice(), prev_w, prev_h, bpp);
                append_bytes(&mut out, next.as_slice());
                proof {
                    assert(out@ =~= base + box_chain(mip0_seq, width, height, bpp, level as int));
                    assert(nw >= 1 && nh >= 1);
                    assert(next@.len() == nw * nh * bpp);
                }
                prev = next;
                prev_w = nw;
                prev_h = nh;
                level += 1;
            }
        }
    }
    proof {
        let bpp_s = spec_bytes_per_pixel(img.pixel_format).unwrap();
        assert(bpp_s == bpp);
        assert(out@ =~= uncompressed_file(img, pf));
    }
    Ok(out)
}

// ---- Volume textures ------------------------------------------------------------

/// Depth slices of mip level `m` of a volume whose mip 0 has `d` slices.
pub open spec fn volume_depth_at(d: u32, m: int) -> u32 {
    at_least_one(d >> (m as u32))
}

/// Slices in the first `m` mip levels of a volume whose mip 0 has `d`.
pub open spec fn volume_slice_start(d: u32, m: int) -> int
    decreases m,
{
    if m <= 0 {
        0
    } else {
        volume_slice_start(d, m - 1) + volume_depth_at(d, m - 1)
    }
}

/// The slice-count of each of the `mip_count` levels of a volume.
fn volume_mip_depths(base_depth: u32, mip_count: u32) -> (out: Vec<u32>)
    requires
        mip_count <= 32,
    ensures
        out@.len() == mip_count,
        forall|m: int| 0 <= m < mip_count ==> #[trigger] out@[m] == volume_depth_at(base_depth, m),
{
    let mut out: Vec<u32> = Vec::new();
    let mut m: u32 = 0;
    while m < mip_count
        invariant
            m <= mip_count <= 32,
            out@.len() == m,
            forall|k: int| 0 <= k < m ==> #[trigger] out@[k] == volume_depth_at(base_depth, k),
        decreases mip_count - m,
    {
        let v = base_depth >> m;
        out.push(if v == 0 {
            1
        } else {
            v
        });
        m += 1;
    }
    out
}

/// Slice `z` of mip level `m` is the canonical surface of that level and
/// holds at least that level's bytes.
pub open spec fn volume_slice_ok(img: DdsImage, m: int, z: int, bpp: u32) -> bool {
    let s = img.surfaces@[volume_slice_start(img.depth, m) + z];
    let w = mip_extent(img.width, m);
    let h = mip_extent(img.height, m);
    &&& s.width == w
    &&& s.height == h
    &&& s.plane.data@.len() >= level_len(w, h, bpp)
}

/// Every slice of the first `mip` levels is canonical.
pub open spec fn volume_slices_ok(img: DdsImage, bpp: u32, mip: int) -> bool {
    forall|m: int, z: int|
        0 <= m < mip && 0 <= z < volume_depth_at(img.depth, m) ==> #[trigger] volume_slice_ok(
            img,
            m,
            z,
            bpp,
        )
}

/// Slices `0..n` of mip level `m`, each cut to the level size, concatenated.
pub open spec fn volume_level_bytes(img: DdsImage, bpp: u32, m: int, n: int) -> Seq<u8>
    decreases n,
{
    if n <= 0 {
        Seq::empty()
    } else {
        volume_level_bytes(img, bpp, m, n - 1) + img.surfaces@[volume_slice_start(img.depth, m) + n
            - 1].plane.data@.take(level_len(mip_extent(img.width, m), mip_extent(img.height, m), bpp))
    }
}

/// All slices of the first `m` mip levels, in mip-major order.
pub open spec fn volume_payload(img: DdsImage, bpp: u32, m: int) -> Seq<u8>
    decreases m,
{
    if m <= 0 {
        Seq::empty()
    } else {
        volume_payload(img, bpp, m - 1) + volume_level_bytes(
            img,
            bpp,
            m - 1,
            volume_depth_at(img.depth, m - 1) as int,
        )
    }
}

/// The checks [`encode_dds_volume`] makes before looking at the surfaces.
pub open spec fn volume_shape_ok(img: DdsImage) -> bool {
    &&& spec_block_bytes(img.pixel_format) is None
    &&& img.width != 0
    &&& img.height != 0
    &&& img.depth >= 2
    &&& !img.is_cubemap
    &&& img.array_size <= 1
}

/// The file [`encode_dds_volume`] writes for a valid `img` whose layout has
/// legacy pixel-format fields `pf`.
pub open spec fn volume_file(img: DdsImage, pf: DdsPixelFormatHeader) -> Seq<u8> {
    let bpp = spec_bytes_per_pixel(img.pixel_format).unwrap();
    let mip = written_mips(img);
    let with_mips = mip > 1;
    let flags = DDSD_REQUIRED | DDSD_PITCH | DDSD_DEPTH | (if with_mips { DDSD_MIPMAPCOUNT } else { 0 });
    let caps = DDSCAPS_TEXTURE | DDSCAPS_COMPLEX | (if with_mips { DDSCAPS_MIPMAP } else { 0 });
    let pitch = img.width * bpp;
    words_le(header_words(flags, img.height, img.width, pitch as u32, img.depth, mip, pf, caps, DDSCAPS2_VOLUME))
        + volume_payload(img, bpp, mip as int)
}

proof fn lemma_volume_slice_start_bounds(d: u32, m: int)
    requires
        m >= 0,
    ensures
        m <= volume_slice_start(d, m) <= m * 0xffff_ffff,
    decreases m,
{
    if m > 0 {
        lemma_volume_slice_start_bounds(d, m - 1);
    }
}

/// Encode `img` as an uncompressed volume (3D) DDS file.
///
/// `img.surfaces` holds every depth slice, mip-major: at level `m` there
/// are `max(1, depth >> m)` slices of `(width, height)` halved `m` times.
pub fn encode_dds_volume(image: &DdsImage) -> (r: Result<Vec<u8>>)
    requires
        volume_shape_ok(*image) ==> written_mips(*image) <= 32,
        volume_shape_ok(*image) ==> level_len(
            image.width,
            image.height,
            spec_bytes_per_pixel(image.pixel_format).unwrap(),
        ) <= usize::MAX,
    ensures
        spec_block_bytes(image.pixel_format) is Some ==> is_unsupported(r),
        spec_block_bytes(image.pixel_format) is None && (image.width == 0 || image.height == 0
            || image.depth < 2) ==> is_invalid(r),
        spec_block_bytes(image.pixel_format) is None && image.width != 0 && image.height != 0
            && image.depth >= 2 && (image.is_cubemap || image.array_size > 1) ==> is_unsupported(r),
        volume_shape_ok(*image) && !(image.surfaces@.len() >= volume_slice_start(
            image.depth,
            written_mips(*image) as int,
        ) && volume_slices_ok(
            *image,
            spec_bytes_per_pixel(image.pixel_format).unwrap(),
            written_mips(*image) as int,
        )) ==> is_invalid(r),
        volume_shape_ok(*image) && image.surfaces@.len() >= volume_slice_start(
            image.depth,
            written_mips(*image) as int,
        ) && volume_slices_ok(
            *image,
            spec_bytes_per_pixel(image.pixel_format).unwrap(),
            written_mips(*image) as int,
        ) ==> match spec_legacy_fields(image.pixel_format) {
            Some(pf) => r matches Ok(out) && out@ == volume_file(*image, pf),
            None => is_unsupported(r),
        },
{
    if image.pixel_format.is_block_compressed() {
        return Err(DdsError::unsupported("block-compressed volumes are not written"));
    }
    let width = image.width;
    let height = image.height;
    let depth = image.depth;
    if width == 0 || height == 0 || depth == 0 {
        return Err(DdsError::invalid("zero-sized volume"));
    }
    if depth < 2 {
        return Err(DdsError::invalid("encode_dds_volume requires depth > 1"));
    }
    if image.is_cubemap || image.array_size > 1 {
        return Err(DdsError::unsupported("a volume texture cannot also be a cubemap or texture array"));
    }
    let bpp: u32 = match image.pixel_format.bytes_per_pixel() {
        Some(b) => b,
        None => 0,
    };
    let ghost img = *image;
    let mip: u32 = if image.mip_map_count == 0 {
        1
    } else {
        image.mip_map_count
    };
    let with_mips = mip > 1;
    let mip_dims = mip_dimensions(width, height, mip);
    let mip_depths = volume_mip_depths(depth, mip);

    let mut total_surfaces: u64 = 0;
    let mut m: usize = 0;
    while m < mip as usize
        invariant
            mip_depths@.len() == mip <= 32,
            forall|k: int| 0 <= k < mip ==> #[trigger] mip_depths@[k] == volume_depth_at(depth, k),
            m <= mip,
            total_surfaces == volume_slice_start(depth, m as int),
        decreases mip - m,
    {
        proof {
            lemma_volume_slice_start_bounds(depth, m as int);
        }
        total_surfaces = total_surfaces + mip_depths[m] as u64;
        m += 1;
    }
    let n_surf = image.surfaces.len();
    if (n_surf as u64) < total_surfaces {
        return Err(DdsError::invalid("volume encode requires one surface per (mip, slice)"));
    }
    proof {
        lemma_level_len_mono(width, height, width, height, bpp);
    }

    let mut payload: Vec<u8> = Vec::new();
    let mut si: usize = 0;
    let mut mi: usize = 0;
    while mi < mip as usize
        invariant
            img == *image,
            volume_shape_ok(img),
            mip == written_mips(img),
            n_surf == image.surfaces@.len(),
            depth == image.depth,
            width == image.width,
            height == image.height,
            bpp == spec_bytes_per_pixel(image.pixel_format).unwrap() >= 1,
            level_len(width, height, bpp) <= usize::MAX,
            mip_dims@.len() == mip,
            forall|k: int|
                0 <= k < mip ==> #[trigger] mip_dims@[k] == (mip_extent(width, k), mip_extent(height, k)),
            mip_depths@.len() == mip <= 32,
            forall|k: int| 0 <= k < mip ==> #[trigger] mip_depths@[k] == volume_depth_at(depth, k),
            image.surfaces@.len() >= volume_slice_start(depth, mip as int),
            mi <= mip,
            si == volume_slice_start(depth, mi as int),
            volume_slices_ok(img, bpp, mi as int),
            payload@ == volume_payload(img, bpp, mi as int),
        decreases mip - mi,
    {
        let (mw, mh) = mip_dims[mi];
        proof {
            lemma_mip_extent_bounds(width, mi as int);
            lemma_mip_extent_bounds(height, mi as int);
            lemma_level_len_mono(width, height, mw, mh, bpp);
            lemma_level_len_mono(mw, mh, mw, mh, bpp);
            lemma_volume_slice_start_bounds(depth, mi as int);
            lemma_volume_slice_mono(depth, mi as int + 1, mip as int);
        }
        let want = mw as usize * mh as usize * bpp as usize;
        let nz = mip_depths[mi];
        let ghost level_start = payload@;
        let mut z: u32 = 0;
        while z < nz
            invariant
                img == *image,
                volume_shape_ok(img),
                mip == written_mips(img),
                n_surf == image.surfaces@.len(),
                depth == image.depth,
                width == image.width,
                height == image.height,
                bpp == spec_bytes_per_pixel(image.pixel_format).unwrap(),
                mi < mip,
                mw == mip_extent(width, mi as int),
                mh == mip_extent(height, mi as int),
                want == level_len(mw, mh, bpp),
                nz == volume_depth_at(depth, mi as int),
                image.surfaces@.len() >= volume_slice_start(depth, mi as int + 1),
                volume_slice_start(depth, mi as int + 1) == volume_slice_start(depth, mi as int) + nz,
                z <= nz,
                si == volume_slice_start(depth, mi as int) + z,
                volume_slices_ok(img, bpp, mi as int),
                forall|zz: int| 0 <= zz < z ==> #[trigger] volume_slice_ok(img, mi as int, zz, bpp),
                payload@ == level_start + volume_level_bytes(img, bpp, mi as int, z as int),
            decreases nz - z,
        {
            let s = &image.surfaces[si];
            if s.width != mw || s.height != mh {
                assert(!volume_slice_ok(img, mi as int, z as int, bpp));
                assert(!volume_slices_ok(img, bpp, mip as int));
                return Err(DdsError::invalid("volume surface dimensions are not the canonical mip size"));
            }
            if s.plane.data.len() < want {
                assert(!volume_slice_ok(img, mi as int, z as int, bpp));
                assert(!volume_slices_ok(img, bpp, mip as int));
                return Err(DdsError::invalid("volume surface holds fewer bytes than its level needs"));
            }
            let level = vstd::slice::slice_subrange(s.plane.data.as_slice(), 0, want);
            append_bytes(&mut payload, level);
            proof {
                assert(volume_slice_ok(img, mi as int, z as int, bpp));
                assert(payload@ =~= level_start + volume_level_bytes(img, bpp, mi as int, z as int + 1));
            }
            si += 1;
            z += 1;
        }
        proof {
            assert forall|m2: int, z2: int|
                0 <= m2 < mi + 1 && 0 <= z2 < volume_depth_at(img.depth, m2) implies #[trigger] volume_slice_ok(
                img,
                m2,
                z2,
                bpp,
            ) by {
                if m2 < mi {
                    assert(volume_slices_ok(img, bpp, mi as int));
                }
            }
            assert(payload@ =~= volume_payload(img, bpp, mi as int + 1));
        }
        mi += 1;
    }

    let pf = legacy_pixel_format_fields(image.pixel_format)?;
    assert(width * bpp <= 0xffff_ffff * 16) by (nonlinear_arith)
        requires
            width <= 0xffff_ffff,
            bpp <= 16,
    ;
    let pitch: u64 = width as u64 * bpp as u64;
    let flags = DDSD_REQUIRED | DDSD_PITCH | DDSD_DEPTH | if with_mips {
        DDSD_MIPMAPCOUNT
    } else {
        0
    };
    let caps = DDSCAPS_TEXTURE | DDSCAPS_COMPLEX | if with_mips {
        DDSCAPS_MIPMAP
    } else {
        0
    };
    let caps2 = DDSCAPS2_VOLUME;
    let mut out: Vec<u8> = Vec::new();
    push_header(&mut out, flags, height, width, pitch as u32, depth, mip, &pf, caps, caps2);
    append_bytes(&mut out, payload.as_slice());
    proof {
        assert(out@ =~= volume_file(img, pf));
    }
    Ok(out)
}

proof fn lemma_volume_slice_mono(d: u32, i: int, j: int)
    requires
        0 <= i <= j,
    ensures
        volume_slice_start(d, i) <= volume_slice_start(d, j),
    decreases j - i,
{
    if i < j {
        lemma_volume_slice_mono(d, i, j - 1);
    }
}

// ---- Block-compressed files ------------------------------------------------------

/// The legacy FourCC of each block layout that has one (BC1..BC5).
pub open spec fn spec_bc_fourcc(pix: DdsPixelFormat) -> Option<u32> {
    match pix {
        DdsPixelFormat::Bc1 => Some(FOURCC_DXT1),
        DdsPixelFormat::Bc2 => Some(FOURCC_DXT3),
        DdsPixelFormat::Bc3 => Some(FOURCC_DXT5),
        DdsPixelFormat::Bc4Unorm => Some(FOURCC_BC4U),
        DdsPixelFormat::Bc4Snorm => Some(FOURCC_BC4S),
        DdsPixelFormat::Bc5Unorm => Some(FOURCC_BC5U),
        DdsPixelFormat::Bc5Snorm => Some(FOURCC_BC5S),
        _ => None,
    }
}

/// The legacy FourCC of a block layout; `None` for BC6H, BC7 and every
/// other layout, which need the DX10 record.
fn block_compressed_fourcc(pix: DdsPixelFormat) -> (r: Option<u32>)
    ensures
        r == spec_bc_fourcc(pix),
{
    match pix {
        DdsPixelFormat::Bc1 => Some(FOURCC_DXT1),
        DdsPixelFormat::Bc2 => Some(FOURCC_DXT3),
        DdsPixelFormat::Bc3 => Some(FOURCC_DXT5),
        DdsPixelFormat::Bc4Unorm => Some(FOURCC_BC4U),
        DdsPixelFormat::Bc4Snorm => Some(FOURCC_BC4S),
        DdsPixelFormat::Bc5Unorm => Some(FOURCC_BC5U),
        DdsPixelFormat::Bc5Snorm => Some(FOURCC_BC5S),
        _ => None,
    }
}

/// The `DXGI_FORMAT` code written for each block layout (0 for others).
pub open spec fn spec_bc_dxgi_code(pix: DdsPixelFormat) -> u32 {
    match pix {
        DdsPixelFormat::Bc1 => 71,
        DdsPixelFormat::Bc2 => 74,
        DdsPixelFormat::Bc3 => 77,
        DdsPixelFormat::Bc4Unorm => 80,
        DdsPixelFormat::Bc4Snorm => 81,
        DdsPixelFormat::Bc5Unorm => 83,
        DdsPixelFormat::Bc5Snorm => 84,
        DdsPixelFormat::Bc6hUf16 => 95,
        DdsPixelFormat::Bc6hSf16 => 96,
        DdsPixelFormat::Bc7Unorm => 98,
        DdsPixelFormat::Bc7UnormSrgb => 99,
        _ => 0,
    }
}

/// The `DXGI_FORMAT` code of a block layout (the `_UNORM` / `_SNORM`
/// variant; 0 for a layout that is not block-compressed).
fn block_compressed_dxgi_code(pix: DdsPixelFormat) -> (r: u32)
    ensures
        r == spec_bc_dxgi_code(pix),
{
    match pix {
        DdsPixelFormat::Bc1 => 71,
        DdsPixelFormat::Bc2 => 74,
        DdsPixelFormat::Bc3 => 77,
        DdsPixelFormat::Bc4Unorm => 80,
        DdsPixelFormat::Bc4Snorm => 81,
        DdsPixelFormat::Bc5Unorm => 83,
        DdsPixelFormat::Bc5Snorm => 84,
        DdsPixelFormat::Bc6hUf16 => 95,
        DdsPixelFormat::Bc6hSf16 => 96,
        DdsPixelFormat::Bc7Unorm => 98,
        DdsPixelFormat::Bc7UnormSrgb => 99,
        _ => 0,
    }
}

/// Bytes of one `w × h` level of block layout `pix` (each dimension
/// counted as at least 1, rounded up to whole 4×4 blocks).
pub open spec fn bc_level_len(pix: DdsPixelFormat, w: u32, h: u32) -> int {
    ceil4(if w == 0 { 1 } else { w as int }) * ceil4(if h == 0 { 1 } else { h as int })
        * spec_block_bytes(pix).unwrap()
}

/// Byte size of one block-compressed level.
fn block_compressed_surface_bytes(pix: DdsPixelFormat, width: u32, height: u32) -> (r: usize)
    requires
        spec_block_bytes(pix) is Some,
        bc_level_len(pix, width, height) <= usize::MAX,
    ensures
        r == bc_level_len(pix, width, height),
{
    let bb = match pix.block_bytes() {
        Some(b) => b as usize,
        None => 0,
    };
    let bw = crate::bcn::ceil_div4(if width == 0 {
        1
    } else {
        width
    });
    let bh = crate::bcn::ceil_div4(if height == 0 {
        1
    } else {
        height
    });
    assert(bw * bh <= bw * bh * bb) by (nonlinear_arith)
        requires
            bb >= 1,
    ;
    bw * bh * bb
}

proof fn lemma_bc_level_len_mono(pix: DdsPixelFormat, w: u32, h: u32, w2: u32, h2: u32)
    requires
        spec_block_bytes(pix) is Some,
        1 <= w2 <= w,
        1 <= h2 <= h,
    ensures
        0 <= bc_level_len(pix, w2, h2) <= bc_level_len(pix, w, h),
{
    let bb = spec_block_bytes(pix).unwrap() as int;
    let a = ceil4(w2 as int);
    let b = ceil4(h2 as int);
    let c = ceil4(w as int);
    let d = ceil4(h as int);
    assert(0 <= a * b * bb <= c * d * bb) by (nonlinear_arith)
        requires
            0 <= a <= c,
            0 <= b <= d,
            bb >= 0,
    ;
}

/// Surface `i` of `img` is mip level `i` of the canonical chain and holds
/// at least that level's block bytes.
pub open spec fn bc_level_ok(img: DdsImage, i: int) -> bool {
    let w = mip_extent(img.width, i);
    let h = mip_extent(img.height, i);
    &&& img.surfaces@[i].width == w
    &&& img.surfaces@[i].height == h
    &&& img.surfaces@[i].plane.data@.len() >= bc_level_len(img.pixel_format, w, h)
}

/// Levels `0..n` of a block-compressed chain, each cut to its level size.
pub open spec fn bc_levels(img: DdsImage, n: int) -> Seq<u8>
    decreases n,
{
    if n <= 0 {
        Seq::empty()
    } else {
        bc_levels(img, n - 1) + img.surfaces@[n - 1].plane.data@.take(
            bc_level_len(img.pixel_format, mip_extent(img.width, n - 1), mip_extent(img.height, n - 1)),
        )
    }
}

/// Whether `img` is a valid plain block-compressed input for
/// [`encode_dds_block_compressed`].
pub open spec fn bc_input_ok(img: DdsImage) -> bool {
    let mip = written_mips(img);
    &&& spec_block_bytes(img.pixel_format) is Some
    &&& !img.is_cubemap
    &&& img.array_size <= 1
    &&& img.width != 0
    &&& img.height != 0
    &&& img.surfaces@.len() >= mip
    &&& forall|i: int| 0 <= i < mip ==> #[trigger] bc_level_ok(img, i)
}

/// Whether a file for `img` carries the DX10 record.
pub open spec fn bc_uses_dx10(img: DdsImage) -> bool {
    img.has_dxt10_header || spec_bc_fourcc(img.pixel_format) is None
}

/// The file [`encode_dds_block_compressed`] writes for a valid `img`.
pub open spec fn bc_file(img: DdsImage) -> Seq<u8> {
    let mip = written_mips(img);
    let with_mips = mip > 1;
    let use_dx10 = bc_uses_dx10(img);
    let flags = DDSD_REQUIRED | DDSD_LINEARSIZE | (if with_mips { DDSD_MIPMAPCOUNT } else { 0 });
    let caps = DDSCAPS_TEXTURE | (if with_mips { DDSCAPS_COMPLEX | DDSCAPS_MIPMAP } else { 0 });
    let pf = DdsPixelFormatHeader {
        size: DDS_PIXELFORMAT_SIZE as u32,
        flags: DDPF_FOURCC,
        four_cc: if use_dx10 { FOURCC_DX10 } else { spec_bc_fourcc(img.pixel_format).unwrap() },
        rgb_bit_count: 0,
        r_bit_mask: 0,
        g_bit_mask: 0,
        b_bit_mask: 0,
        a_bit_mask: 0,
    };
    let mip0 = bc_level_len(img.pixel_format, img.width, img.height);
    let dxgi = match img.dxgi_format {
        Some(f) => f.code,
        None => spec_bc_dxgi_code(img.pixel_format),
    };
    let dx10 = if use_dx10 {
        words_le(seq![dxgi, DDS_DIMENSION_TEXTURE2D, 0u32, at_least_one(img.array_size), 0u32])
    } else {
        Seq::empty()
    };
    words_le(header_words(flags, img.height, img.width, mip0 as u32, 0, mip, pf, caps, 0)) + dx10
        + bc_levels(img, mip as int)
}

/// Encode a block-compressed `img` (BC1..BC7, ASTC) as a DDS file.
///
/// `img.surfaces` carries the pre-encoded block bytes of each mip level.
/// BC1..BC5 get a legacy FourCC header unless `has_dxt10_header` asks for
/// the DX10 record, which BC6H, BC7 and ASTC always get.
pub fn encode_dds_block_compressed(image: &DdsImage) -> (r: Result<Vec<u8>>)
    requires
        spec_block_bytes(image.pixel_format) is Some && image.width != 0 && image.height != 0
            ==> bc_level_len(image.pixel_format, image.width, image.height) <= usize::MAX,
    ensures
        spec_block_bytes(image.pixel_format) is None ==> is_unsupported(r),
        spec_block_bytes(image.pixel_format) is Some && (image.is_cubemap || image.array_size > 1)
            ==> is_unsupported(r),
        spec_block_bytes(image.pixel_format) is Some && !image.is_cubemap && image.array_size <= 1
            && !bc_input_ok(*image) ==> is_invalid(r),
        bc_input_ok(*image) ==> (r matches Ok(out) && out@ == bc_file(*image)),
{
    if !image.pixel_format.is_block_compressed() {
        return Err(DdsError::unsupported("encode_dds_block_compressed requires a block-compressed layout"));
    }
    if image.is_cubemap || image.array_size > 1 {
        return Err(DdsError::unsupported("cubemap / texture-array block-compressed emission is not supported"));
    }
    let width = image.width;
    let height = image.height;
    if width == 0 || height == 0 {
        return Err(DdsError::invalid("zero-sized surface"));
    }
    let ghost img = *image;
    let pix = image.pixel_format;
    let mip: u32 = if image.mip_map_count == 0 {
        1
    } else {
        image.mip_map_count
    };
    let with_mips = mip > 1;
    let n_surf = image.surfaces.len();
    if n_surf < mip as usize {
        return Err(DdsError::invalid("block-compressed encode requires one surface per mip level"));
    }
    let mip_dims = mip_dimensions(width, height, mip);
    let mut i: usize = 0;
    while i < mip as usize
        invariant
            img == *image,
            pix == image.pixel_format,
            spec_block_bytes(pix) is Some,
            !image.is_cubemap && image.array_size <= 1,
            width == image.width >= 1,
            height == image.height >= 1,
            bc_level_len(pix, width, height) <= usize::MAX,
            mip == written_mips(img),
            n_surf == image.surfaces@.len() >= mip,
            mip_dims@.len() == mip,
            forall|k: int|
                0 <= k < mip ==> #[trigger] mip_dims@[k] == (mip_extent(width, k), mip_extent(height, k)),
            i <= mip,
            forall|k: int| 0 <= k < i ==> #[trigger] bc_level_ok(img, k),
        decreases mip - i,
    {
        let (w, h) = mip_dims[i];
        proof {
            lemma_mip_extent_bounds(width, i as int);
            lemma_mip_extent_bounds(height, i as int);
            lemma_bc_level_len_mono(pix, width, height, w, h);
        }
        let s = &image.surfaces[i];
        if s.width != w || s.height != h {
            assert(!bc_level_ok(img, i as int));
            return Err(DdsError::invalid("surface dimensions are not the canonical mip size"));
        }
        let want = block_compressed_surface_bytes(pix, w, h);
        if s.plane.data.len() < want {
            assert(!bc_level_ok(img, i as int));
            return Err(DdsError::invalid("surface holds fewer block bytes than its level needs"));
        }
        i += 1;
    }
    assert(bc_input_ok(img));

    let four_cc = block_compressed_fourcc(pix);
    let use_dx10 = image.has_dxt10_header || four_cc.is_none();
    let mip0_bytes = block_compressed_surface_bytes(pix, width, height);
    let flags = DDSD_REQUIRED | DDSD_LINEARSIZE | if with_mips {
        DDSD_MIPMAPCOUNT
    } else {
        0
    };
    let caps = DDSCAPS_TEXTURE | if with_mips {
        DDSCAPS_COMPLEX | DDSCAPS_MIPMAP
    } else {
        0
    };
    let code: u32 = if use_dx10 {
        FOURCC_DX10
    } else {
        match four_cc {
            Some(c) => c,
            None => FOURCC_DX10,
        }
    };
    let pf = DdsPixelFormatHeader {
        size: DDS_PIXELFORMAT_SIZE as u32,
        flags: DDPF_FOURCC,
        four_cc: code,
        rgb_bit_count: 0,
        r_bit_mask: 0,
        g_bit_mask: 0,
        b_bit_mask: 0,
        a_bit_mask: 0,
    };
    let mut out: Vec<u8> = Vec::new();
    push_header(&mut out, flags, height, width, mip0_bytes as u32, 0, mip, &pf, caps, 0);
    let ghost after_header = out@;
    if use_dx10 {
        let dxgi = match image.dxgi_format {
            Some(f) => f.to_u32(),
            None => block_compressed_dxgi_code(pix),
        };
        let array_field: u32 = if image.array_size == 0 {
            1
        } else {
            image.array_size
        };
        let words: [u32; 5] = [dxgi, DDS_DIMENSION_TEXTURE2D, 0, array_field, 0];
        push_words(&mut out, &words);
        proof {
            assert(words@ =~= seq![dxgi, DDS_DIMENSION_TEXTURE2D, 0u32, at_least_one(img.array_size), 0u32]);
        }
    }
    let ghost base = out@;
    let mut i: usize = 0;
    while i < mip as usize
        invariant
            img == *image,
            pix == image.pixel_format,
            bc_input_ok(img),
            width == image.width >= 1,
            height == image.height >= 1,
            bc_level_len(pix, width, height) <= usize::MAX,
            mip == written_mips(img),
            mip_dims@.len() == mip,
            forall|k: int|
                0 <= k < mip ==> #[trigger] mip_dims@[k] == (mip_extent(width, k), mip_extent(height, k)),
            i <= mip,
            out@ == base + bc_levels(img, i as int),
        decreases mip - i,
    {
        let (w, h) = mip_dims[i];
        proof {
            lemma_mip_extent_bounds(width, i as int);
            lemma_mip_extent_bounds(height, i as int);
            lemma_bc_level_len_mono(pix, width, height, w, h);
            assert(bc_level_ok(img, i as int));
        }
        let want = block_compressed_surface_bytes(pix, w, h);
        let level = vstd::slice::slice_subrange(image.surfaces[i].plane.data.as_slice(), 0, want);
        append_bytes(&mut out, level);
        proof {
            assert(out@ =~= base + bc_levels(img, i as int + 1));
        }
        i += 1;
    }
    proof {
        assert(out@ =~= bc_file(img));
    }
    Ok(out)
}

// ---- Block-compressed files from RGBA8 pixels ------------------------------------

/// The layouts whose blocks this library encodes from RGBA8 pixels
/// (BC1, BC2, BC3, BC4 unorm, BC5 unorm, BC7).
pub open spec fn rgba8_encodable(pix: DdsPixelFormat) -> bool {
    pix is Bc1 || pix is Bc2 || pix is Bc3 || pix is Bc4Unorm || pix is Bc5Unorm || pix is Bc7Unorm
        || pix is Bc7UnormSrgb
}

/// The red bytes of a packed RGBA8 buffer (one per whole pixel).
pub open spec fn red_plane(rgba: Seq<u8>) -> Seq<u8> {
    Seq::new((rgba.len() / 4) as nat, |i: int| rgba[4 * i])
}

/// The red and green bytes of a packed RGBA8 buffer, interleaved.
pub open spec fn red_green_plane(rgba: Seq<u8>) -> Seq<u8> {
    Seq::new(((rgba.len() / 4) * 2) as nat, |i: int| rgba[4 * (i / 2) + i % 2])
}

/// `out` is the `w × h` level of layout `pix` that the block encoders make
/// of the packed RGBA8 pixels `rgba`: BC1 (four-colour) and BC2 / BC3 of
/// every 4×4 block, BC4 of the red channel, BC5 of red and green, and BC7
/// blocks as [`crate::bc7_enc::bc7_block_ok`] describes them.
pub open spec fn bc_level_encodes(pix: DdsPixelFormat, rgba: Seq<u8>, w: u32, h: u32, out: Seq<u8>) -> bool {
    let n = block_count(w, h);
    let bw = blocks_across(w);
    if pix is Bc1 {
        &&& out.len() == n * 8
        &&& forall|b: int|
            0 <= b < n ==> bc1_block_encodes(#[trigger] out_block(out, b, 8), gathered_rgba(rgba, w, h, b % bw, b / bw), false)
    } else if pix is Bc2 {
        &&& out.len() == n * 16
        &&& forall|b: int|
            0 <= b < n ==> bc2_block_encodes(#[trigger] out_block(out, b, 16), gathered_rgba(rgba, w, h, b % bw, b / bw))
    } else if pix is Bc3 {
        &&& out.len() == n * 16
        &&& forall|b: int|
            0 <= b < n ==> bc3_block_encodes(#[trigger] out_block(out, b, 16), gathered_rgba(rgba, w, h, b % bw, b / bw))
    } else if pix is Bc4Unorm {
        &&& out.len() == n * 8
        &&& forall|b: int|
            0 <= b < n ==> bc4_block_encodes(
                #[trigger] out_block(out, b, 8),
                gathered_channel(red_plane(rgba), w, h, b % bw, b / bw, 1, 0),
            )
    } else if pix is Bc5Unorm {
        &&& out.len() == n * 16
        &&& forall|b: int|
            0 <= b < n ==> bc5_block_encodes(
                #[trigger] out_block(out, b, 16),
                gathered_channel(red_green_plane(rgba), w, h, b % bw, b / bw, 2, 0),
                gathered_channel(red_green_plane(rgba), w, h, b % bw, b / bw, 2, 1),
            )
    } else if pix is Bc7Unorm || pix is Bc7UnormSrgb {
        &&& out.len() == n * 16
        &&& forall|b: int|
            0 <= b < n ==> bc7_block_ok(#[trigger] out_block(out, b, 16), gathered_rgba(rgba, w, h, b % bw, b / bw))
    } else {
        false
    }
}

fn red_of(rgba: &[u8]) -> (v: Vec<u8>)
    ensures
        v@ == red_plane(rgba@),
{
    let len = rgba.len();
    let n = len / 4;
    let mut v: Vec<u8> = Vec::new();
    let mut i: usize = 0;
    while i < n
        invariant
            len == rgba@.len(),
            n == len / 4,
            i <= n,
            v@.len() == i,
            forall|j: int| 0 <= j < i ==> #[trigger] v@[j] == rgba@[4 * j],
        decreases n - i,
    {
        v.push(rgba[4 * i]);
        i += 1;
    }
    assert(v@ =~= red_plane(rgba@));
    v
}

fn red_green_of(rgba: &[u8]) -> (v: Vec<u8>)
    ensures
        v@ == red_green_plane(rgba@),
{
    let len = rgba.len();
    let n = len / 4;
    let mut v: Vec<u8> = Vec::new();
    let mut i: usize = 0;
    while i < n
        invariant
            len == rgba@.len(),
            n == len / 4,
            i <= n,
            v@.len() == 2 * i,
            forall|j: int| 0 <= j < 2 * i ==> #[trigger] v@[j] == rgba@[4 * (j / 2) + j % 2],
        decreases n - i,
    {
        v.push(rgba[4 * i]);
        v.push(rgba[4 * i + 1]);
        i += 1;
    }
    assert(v@ =~= red_green_plane(rgba@));
    v
}

/// Encode one packed RGBA8 `width × height` level into the block layout
/// `pix`; `Unsupported` for a layout without an RGBA8 block encoder here.
fn encode_rgba8_to_bc_level<F>(
    rgba: &[u8],
    width: u32,
    height: u32,
    pix: DdsPixelFormat,
    output: &mut [u8],
    refine: &F,
) -> (r: Result<()>)
    where
        F: Fn([[u8; 4]; 16], [u8; 16], u8, [u32; 16], u32) -> ([u8; 4], [u8; 4]),
    requires
        forall|px: [[u8; 4]; 16], part: [u8; 16], s: u8, idx: [u32; 16], bits: u32|
            #[trigger] refine.requires((px, part, s, idx, bits)),
        width >= 1,
        height >= 1,
        rgba@.len() == width * height * 4,
        spec_block_bytes(pix) is Some,
        old(output)@.len() == bc_level_len(pix, width, height),
    ensures
        rgba8_encodable(pix) ==> r is Ok && bc_level_encodes(pix, rgba@, width, height, final(output)@),
        !rgba8_encodable(pix) ==> is_unsupported(r),
{
    let len = rgba.len();
    let out_len = output.len();
    proof {
        assert(blocks_across(width) == ceil4(width as int) && blocks_across(height) == ceil4(height as int));
        assert(block_count(width, height) * (spec_block_bytes(pix).unwrap() as int) == bc_level_len(pix, width, height));
        assert(width * height <= width * height * 4) by (nonlinear_arith);
        assert(width * height * 2 <= width * height * 4) by (nonlinear_arith);
        assert(rgba@.len() / 4 == width * height);
    }
    match pix {
        DdsPixelFormat::Bc1 => encode_bc1(rgba, width, height, false, output),
        DdsPixelFormat::Bc2 => encode_bc2(rgba, width, height, output),
        DdsPixelFormat::Bc3 => encode_bc3(rgba, width, height, output),
        DdsPixelFormat::Bc4Unorm => {
            let r_only = red_of(rgba);
            encode_bc4_unorm(r_only.as_slice(), width, height, output)
        },
        DdsPixelFormat::Bc5Unorm => {
            let rg = red_green_of(rgba);
            encode_bc5_unorm(rg.as_slice(), width, height, output)
        },
        DdsPixelFormat::Bc7Unorm | DdsPixelFormat::Bc7UnormSrgb => encode_bc7(rgba, width, height, output, refine),
        _ => Err(DdsError::unsupported("no RGBA8 block encoder for this layout")),
    }
}

/// `DDSCAPS2` of a cubemap with all six faces.
pub open spec fn cube_caps2() -> u32 {
    DDSCAPS2_CUBEMAP | DDSCAPS2_CUBEMAP_POSITIVEX | DDSCAPS2_CUBEMAP_NEGATIVEX | DDSCAPS2_CUBEMAP_POSITIVEY
        | DDSCAPS2_CUBEMAP_NEGATIVEY | DDSCAPS2_CUBEMAP_POSITIVEZ | DDSCAPS2_CUBEMAP_NEGATIVEZ
}

/// Whether a multi-surface block-compressed file carries the DX10 record:
/// when asked, when the layout has no legacy FourCC, and for cubemaps and
/// arrays.
pub open spec fn multi_uses_dx10(pix: DdsPixelFormat, cube: bool, array_size: u32, dx10: bool) -> bool {
    dx10 || spec_bc_fourcc(pix) is None || cube || array_size > 1
}

/// The header (magic, `DDS_HEADER`, optional DX10 record) of a
/// block-compressed file with `mip` levels per surface.
pub open spec fn bc_multi_header(
    w: u32,
    h: u32,
    pix: DdsPixelFormat,
    mip: u32,
    cube: bool,
    array_size: u32,
    dx10: bool,
) -> Seq<u8> {
    let with_mips = mip > 1;
    let use_dx10 = multi_uses_dx10(pix, cube, array_size, dx10);
    let flags = DDSD_REQUIRED | DDSD_LINEARSIZE | (if with_mips { DDSD_MIPMAPCOUNT } else { 0 });
    let caps = (DDSCAPS_TEXTURE | (if with_mips { DDSCAPS_COMPLEX | DDSCAPS_MIPMAP } else { 0 })) | (if cube {
        DDSCAPS_COMPLEX
    } else {
        0
    });
    let caps2 = if cube { cube_caps2() } else { 0 };
    let pf = DdsPixelFormatHeader {
        size: DDS_PIXELFORMAT_SIZE as u32,
        flags: DDPF_FOURCC,
        four_cc: if use_dx10 { FOURCC_DX10 } else { spec_bc_fourcc(pix).unwrap() },
        rgb_bit_count: 0,
        r_bit_mask: 0,
        g_bit_mask: 0,
        b_bit_mask: 0,
        a_bit_mask: 0,
    };
    let mip0 = bc_level_len(pix, w, h);
    let rec = if use_dx10 {
        words_le(
            seq![
                spec_bc_dxgi_code(pix),
                DDS_DIMENSION_TEXTURE2D,
                if cube { 4u32 } else { 0u32 },
                at_least_one(array_size),
                0u32,
            ],
        )
    } else {
        Seq::empty()
    };
    words_le(header_words(flags, h, w, mip0 as u32, 0, mip, pf, caps, caps2)) + rec
}

/// Append [`bc_multi_header`] to `out`.
fn push_bc_multi_header(
    out: &mut Vec<u8>,
    width: u32,
    height: u32,
    pix: DdsPixelFormat,
    mip: u32,
    is_cubemap: bool,
    array_size: u32,
    has_dxt10_header: bool,
)
    requires
        spec_block_bytes(pix) is Some,
        bc_level_len(pix, width, height) <= usize::MAX,
    ensures
        final(out)@ == old(out)@ + bc_multi_header(width, height, pix, mip, is_cubemap, array_size, has_dxt10_header),
{
    let with_mips = mip > 1;
    let four_cc = block_compressed_fourcc(pix);
    let use_dx10 = has_dxt10_header || four_cc.is_none() || is_cubemap || array_size > 1;
    let mip0_bytes = block_compressed_surface_bytes(pix, width, height);
    let flags = DDSD_REQUIRED | DDSD_LINEARSIZE | if with_mips {
        DDSD_MIPMAPCOUNT
    } else {
        0
    };
    let caps = (DDSCAPS_TEXTURE | if with_mips {
        DDSCAPS_COMPLEX | DDSCAPS_MIPMAP
    } else {
        0
    }) | if is_cubemap {
        DDSCAPS_COMPLEX
    } else {
        0
    };
    let caps2 = if is_cubemap {
        DDSCAPS2_CUBEMAP | DDSCAPS2_CUBEMAP_POSITIVEX | DDSCAPS2_CUBEMAP_NEGATIVEX | DDSCAPS2_CUBEMAP_POSITIVEY
            | DDSCAPS2_CUBEMAP_NEGATIVEY | DDSCAPS2_CUBEMAP_POSITIVEZ | DDSCAPS2_CUBEMAP_NEGATIVEZ
    } else {
        0
    };
    let code: u32 = if use_dx10 {
        FOURCC_DX10
    } else {
        match four_cc {
            Some(c) => c,
            None => FOURCC_DX10,
        }
    };
    let pf = DdsPixelFormatHeader {
        size: DDS_PIXELFORMAT_SIZE as u32,
        flags: DDPF_FOURCC,
        four_cc: code,
        rgb_bit_count: 0,
        r_bit_mask: 0,
        g_bit_mask: 0,
        b_bit_mask: 0,
        a_bit_mask: 0,
    };
    let ghost start = out@;
    push_header(out, flags, height, width, mip0_bytes as u32, 0, mip, &pf, caps, caps2);
    let ghost after = out@;
    if use_dx10 {
        let dxgi = block_compressed_dxgi_code(pix);
        let misc_flag: u32 = if is_cubemap {
            0x4
        } else {
            0
        };
        let store_array_size: u32 = if array_size == 0 {
            1
        } else {
            array_size
        };
        let words: [u32; 5] = [dxgi, DDS_DIMENSION_TEXTURE2D, misc_flag, store_array_size, 0];
        push_words(out, &words);
        proof {
            assert(words@ =~= seq![
                spec_bc_dxgi_code(pix),
                DDS_DIMENSION_TEXTURE2D,
                if is_cubemap { 4u32 } else { 0u32 },
                at_least_one(array_size),
                0u32,
            ]);
        }
    }
    proof {
        assert(out@ =~= start + bc_multi_header(width, height, pix, mip, is_cubemap, array_size, has_dxt10_header));
    }
}

/// The data of the first `n` surfaces, concatenated.
pub open spec fn surfaces_payload(s: Seq<DdsSurface>, n: int) -> Seq<u8>
    decreases n,
{
    if n <= 0 {
        Seq::empty()
    } else {
        surfaces_payload(s, n - 1) + s[n - 1].plane.data@
    }
}

/// Write a block-compressed file from pre-encoded surfaces in on-disk order
/// (array slice, then face, then mip level): the header of
/// [`bc_multi_header`] (the DX10 record whenever asked, for layouts without
/// a legacy FourCC, for cubemaps and for arrays), then every surface's
/// bytes.
pub fn encode_dds_block_compressed_multi_surface(
    width: u32,
    height: u32,
    pixel_format: DdsPixelFormat,
    mip: u32,
    is_cubemap: bool,
    array_size: u32,
    has_dxt10_header: bool,
    surfaces: &[DdsSurface],
) -> (r: Result<Vec<u8>>)
    requires
        spec_block_bytes(pixel_format) is Some,
        bc_level_len(pixel_format, width, height) <= usize::MAX,
    ensures
        r matches Ok(out) && out@ == bc_multi_header(width, height, pixel_format, mip, is_cubemap, array_size, has_dxt10_header)
            + surfaces_payload(surfaces@, surfaces@.len() as int),
{
    let mut out: Vec<u8> = Vec::new();
    push_bc_multi_header(&mut out, width, height, pixel_format, mip, is_cubemap, array_size, has_dxt10_header);
    let ghost head = out@;
    let n = surfaces.len();
    let mut i: usize = 0;
    while i < n
        invariant
            n == surfaces@.len(),
            i <= n,
            out@ == head + surfaces_payload(surfaces@, i as int),
        decreases n - i,
    {
        append_bytes(&mut out, surfaces[i].plane.data.as_slice());
        proof {
            assert(out@ =~= head + surfaces_payload(surfaces@, i as int + 1));
        }
        i += 1;
    }
    Ok(out)
}

/// Cube faces per array slice.
pub open spec fn face_count(cube: bool) -> int {
    if cube {
        6
    } else {
        1
    }
}

/// RGBA8 bytes [`encode_dds_block_compressed_from_rgba8`] reads: one
/// `w × h` mip-0 image per (array slice, face).
pub open spec fn rgba8_input_len(w: u32, h: u32, array_size: u32, cube: bool) -> int {
    w * h * 4 * at_least_one(array_size) * face_count(cube)
}

/// Bytes of levels `0..l` of a block-compressed mip chain.
pub open spec fn bc_chain_prefix(pix: DdsPixelFormat, w: u32, h: u32, l: int) -> int
    decreases l,
{
    if l <= 0 {
        0
    } else {
        bc_chain_prefix(pix, w, h, l - 1) + bc_level_len(pix, mip_extent(w, l - 1), mip_extent(h, l - 1))
    }
}

/// The mip-0 RGBA8 image of surface `k` (array slice `k / faces`, face
/// `k % faces`).
pub open spec fn rgba8_source(src: Seq<u8>, w: u32, h: u32, k: int) -> Seq<u8> {
    src.subrange(k * (w * h * 4), (k + 1) * (w * h * 4))
}

/// The bytes of level `l` of surface `k` in a file whose surfaces start
/// at `base`, each `chain` bytes long.
pub open spec fn level_slot(out: Seq<u8>, base: int, pix: DdsPixelFormat, w: u32, h: u32, chain: int, k: int, l: int) -> Seq<u8> {
    out.subrange(base + k * chain + bc_chain_prefix(pix, w, h, l), base + k * chain + bc_chain_prefix(pix, w, h, l + 1))
}

/// `out` is the file [`encode_dds_block_compressed_from_rgba8`] writes: the
/// [`bc_multi_header`], then for every surface in on-disk order its `mip`
/// levels, level `l` being the block encoding of the `l`-th box-filtered
/// level of the surface's RGBA8 image.
pub open spec fn rgba8_bc_file(
    out: Seq<u8>,
    src: Seq<u8>,
    w: u32,
    h: u32,
    pix: DdsPixelFormat,
    mip: u32,
    cube: bool,
    array_n: u32,
    dx10: bool,
) -> bool {
    let head = bc_multi_header(w, h, pix, mip, cube, array_n, dx10);
    let chain = bc_chain_prefix(pix, w, h, mip as int);
    let n = array_n * face_count(cube);
    &&& out.len() == head.len() + n * chain
    &&& out.subrange(0, head.len() as int) == head
    &&& forall|k: int, l: int|
        0 <= k < n && 0 <= l < mip ==> bc_level_encodes(
            pix,
            box_level(rgba8_source(src, w, h, k), w, h, 4, l).0,
            mip_extent(w, l),
            mip_extent(h, l),
            #[trigger] level_slot(out, head.len() as int, pix, w, h, chain, k, l),
        )
}

proof fn lemma_level_len_nonneg(pix: DdsPixelFormat, w: u32, h: u32)
    requires
        spec_block_bytes(pix) is Some,
    ensures
        bc_level_len(pix, w, h) >= 0,
{
    let x = ceil4(if w == 0 { 1 } else { w as int });
    let y = ceil4(if h == 0 { 1 } else { h as int });
    let bb = spec_block_bytes(pix).unwrap() as int;
    assert(x * y * bb >= 0) by (nonlinear_arith)
        requires
            x >= 0,
            y >= 0,
            bb >= 0,
    ;
}

proof fn lemma_chain_prefix_mono(pix: DdsPixelFormat, w: u32, h: u32, a: int, b: int)
    requires
        spec_block_bytes(pix) is Some,
        0 <= a <= b,
    ensures
        0 <= bc_chain_prefix(pix, w, h, a) <= bc_chain_prefix(pix, w, h, b),
    decreases b,
{
    if b > 0 {
        lemma_level_len_nonneg(pix, mip_extent(w, b - 1), mip_extent(h, b - 1));
        if a < b {
            lemma_chain_prefix_mono(pix, w, h, a, b - 1);
        } else {
            lemma_chain_prefix_mono(pix, w, h, b - 1, b - 1);
        }
    }
}

/// A level slot that comes earlier in file order ends before a later one starts.
proof fn lemma_slot_before(pix: DdsPixelFormat, w: u32, h: u32, mip: int, chain: int, k2: int, l2: int, k: int, l: int)
    requires
        spec_block_bytes(pix) is Some,
        chain == bc_chain_prefix(pix, w, h, mip),
        0 <= l2 < mip,
        0 <= l <= mip,
        0 <= k2 <= k,
        k2 == k ==> l2 < l,
    ensures
        k2 * chain + bc_chain_prefix(pix, w, h, l2 + 1) <= k * chain + bc_chain_prefix(pix, w, h, l),
        0 <= k2 * chain + bc_chain_prefix(pix, w, h, l2),
        bc_chain_prefix(pix, w, h, l2) <= bc_chain_prefix(pix, w, h, l2 + 1),
{
    lemma_chain_prefix_mono(pix, w, h, l2, l2 + 1);
    lemma_chain_prefix_mono(pix, w, h, l2 + 1, mip);
    lemma_chain_prefix_mono(pix, w, h, 0, l);
    lemma_chain_prefix_mono(pix, w, h, 0, l2);
    if k2 < k {
        assert(k2 * chain + chain <= k * chain) by (nonlinear_arith)
            requires
                k2 < k,
                chain >= 0,
        ;
    } else {
        lemma_chain_prefix_mono(pix, w, h, l2 + 1, l);
    }
    assert(k2 * chain >= 0) by (nonlinear_arith)
        requires
            k2 >= 0,
            chain >= 0,
    ;
}

/// Encode packed RGBA8 pixels as a block-compressed DDS file: for each
/// array slice and (for a cubemap) each of the six faces, the `w × h`
/// image is box-filtered into `max(mip_map_count, 1)` levels and every
/// level is block-encoded (BC1, BC2, BC3, BC4 unorm of red, BC5 unorm of
/// red and green, BC7 with `refine` as the endpoint fit of its two-subset
/// search, see [`crate::bc7_enc::encode_bc7`]). The input holds the mip-0
/// images back to back, slice first, then face.
///
/// `Unsupported` for a layout that is not block-compressed, for BC6H
/// (whose blocks hold HDR values) and for a block layout without an RGBA8
/// encoder here; `InvalidData` for a zero dimension or a short input.
pub fn encode_dds_block_compressed_from_rgba8<F>(
    rgba8: &[u8],
    width: u32,
    height: u32,
    pixel_format: DdsPixelFormat,
    mip_map_count: u32,
    is_cubemap: bool,
    array_size: u32,
    has_dxt10_header: bool,
    refine: &F,
) -> (r: Result<Vec<u8>>)
    where
        F: Fn([[u8; 4]; 16], [u8; 16], u8, [u32; 16], u32) -> ([u8; 4], [u8; 4]),
    requires
        forall|px: [[u8; 4]; 16], part: [u8; 16], s: u8, idx: [u32; 16], bits: u32|
            #[trigger] refine.requires((px, part, s, idx, bits)),
        spec_block_bytes(pixel_format) is Some && width != 0 && height != 0 ==> bc_level_len(pixel_format, width, height)
            <= usize::MAX,
    ensures
        spec_block_bytes(pixel_format) is None ==> is_unsupported(r),
        pixel_format is Bc6hUf16 || pixel_format is Bc6hSf16 ==> is_unsupported(r),
        spec_block_bytes(pixel_format) is Some && !(pixel_format is Bc6hUf16 || pixel_format is Bc6hSf16) && (width == 0
            || height == 0) ==> is_invalid(r),
        spec_block_bytes(pixel_format) is Some && !(pixel_format is Bc6hUf16 || pixel_format is Bc6hSf16) && width != 0
            && height != 0 && rgba8@.len() < rgba8_input_len(width, height, array_size, is_cubemap) ==> is_invalid(r),
        spec_block_bytes(pixel_format) is Some && !(pixel_format is Bc6hUf16 || pixel_format is Bc6hSf16) && width != 0
            && height != 0 && rgba8@.len() >= rgba8_input_len(width, height, array_size, is_cubemap) && !rgba8_encodable(
            pixel_format,
        ) ==> is_unsupported(r),
        rgba8_encodable(pixel_format) && width != 0 && height != 0 && rgba8@.len() >= rgba8_input_len(
            width,
            height,
            array_size,
            is_cubemap,
        ) ==> (r matches Ok(out) && rgba8_bc_file(
            out@,
            rgba8@,
            width,
            height,
            pixel_format,
            at_least_one(mip_map_count),
            is_cubemap,
            at_least_one(array_size),
            has_dxt10_header,
        )),
{
    if !pixel_format.is_block_compressed() {
        return Err(DdsError::unsupported("encode_dds_block_compressed_from_rgba8 requires a block-compressed layout"));
    }
    match pixel_format {
        DdsPixelFormat::Bc6hUf16 | DdsPixelFormat::Bc6hSf16 => {
            return Err(DdsError::unsupported("BC6H holds HDR values and is not encoded from RGBA8"));
        },
        _ => {},
    }
    if width == 0 || height == 0 {
        return Err(DdsError::invalid("zero-sized surface"));
    }
    let pix = pixel_format;
    let mip: u32 = if mip_map_count == 0 {
        1
    } else {
        mip_map_count
    };
    let array_n: u32 = if array_size == 0 {
        1
    } else {
        array_size
    };
    let faces: u32 = if is_cubemap {
        6
    } else {
        1
    };
    let in_len = rgba8.len();
    let ghost need = rgba8_input_len(width, height, array_size, is_cubemap);
    proof {
        assert(need == (width * height * 4) * (array_n * faces)) by (nonlinear_arith)
            requires
                need == width * height * 4 * array_n * faces,
        ;
    }
    let bytes_per_mip0 = match (width as usize).checked_mul(height as usize) {
        Some(p) => match p.checked_mul(4) {
            Some(b) => b,
            None => {
                proof {
                    assert(width * height * 4 <= need) by (nonlinear_arith)
                        requires
                            need == (width * height * 4) * (array_n * faces),
                            array_n * faces >= 1,
                            width * height >= 0,
                    ;
                }
                return Err(DdsError::invalid("RGBA8 input is shorter than the surfaces"));
            },
        },
        None => {
            proof {
                assert(width * height <= need) by (nonlinear_arith)
                    requires
                        need == (width * height * 4) * (array_n * faces),
                        array_n * faces >= 1,
                        width * height >= 0,
                ;
            }
            return Err(DdsError::invalid("RGBA8 input is shorter than the surfaces"));
        },
    };
    let n_surf = match (array_n as usize).checked_mul(faces as usize) {
        Some(v) => v,
        None => {
            proof {
                assert(array_n * faces <= need) by (nonlinear_arith)
                    requires
                        need == (width * height * 4) * (array_n * faces),
                        width >= 1,
                        height >= 1,
                        array_n * faces >= 0,
                ;
            }
            return Err(DdsError::invalid("RGBA8 input is shorter than the surfaces"));
        },
    };
    let need_in = match bytes_per_mip0.checked_mul(n_surf) {
        Some(v) => v,
        None => {
            return Err(DdsError::invalid("RGBA8 input is shorter than the surfaces"));
        },
    };
    if in_len < need_in {
        return Err(DdsError::invalid("RGBA8 input is shorter than the surfaces"));
    }
    let ghost src = rgba8@;
    let ghost chain = bc_chain_prefix(pix, width, height, mip as int);
    let mut out: Vec<u8> = Vec::new();
    push_bc_multi_header(&mut out, width, height, pix, mip, is_cubemap, array_n, has_dxt10_header);
    let ghost head = out@;
    let ghost base = head.len() as int;
    proof {
        assert(head == bc_multi_header(width, height, pix, mip, is_cubemap, array_n, has_dxt10_header));
        assert(out@.subrange(0, base) =~= head);
    }
    let mut k: usize = 0;
    while k < n_surf
        invariant
            spec_block_bytes(pix) is Some,
            width >= 1,
            height >= 1,
            bc_level_len(pix, width, height) <= usize::MAX,
            mip >= 1,
            src == rgba8@,
            pix == pixel_format,
            need_in == rgba8_input_len(width, height, array_size, is_cubemap),
            k > 0 ==> rgba8_encodable(pix),
            in_len == rgba8@.len(),
            forall|px: [[u8; 4]; 16], part: [u8; 16], s: u8, idx: [u32; 16], bits: u32|
                #[trigger] refine.requires((px, part, s, idx, bits)),
            bytes_per_mip0 == width * height * 4,
            need_in == bytes_per_mip0 * n_surf,
            need_in <= in_len,
            n_surf == array_n * face_count(is_cubemap),
            chain == bc_chain_prefix(pix, width, height, mip as int),
            base == head.len(),
            k <= n_surf,
            out@.len() == base + k * chain,
            out@.subrange(0, base) == head,
            forall|k2: int, l2: int|
                0 <= k2 < k && 0 <= l2 < mip ==> bc_level_encodes(
                    pix,
                    box_level(rgba8_source(src, width, height, k2), width, height, 4, l2).0,
                    mip_extent(width, l2),
                    mip_extent(height, l2),
                    #[trigger] level_slot(out@, base, pix, width, height, chain, k2, l2),
                ),
        decreases n_surf - k,
    {
        assert(k * bytes_per_mip0 + bytes_per_mip0 <= need_in) by (nonlinear_arith)
            requires
                k < n_surf,
                need_in == bytes_per_mip0 * n_surf,
                bytes_per_mip0 >= 0,
        ;
        assert((k + 1) * bytes_per_mip0 == k * bytes_per_mip0 + bytes_per_mip0) by (nonlinear_arith);
        let src_off = k * bytes_per_mip0;
        let mip0 = vstd::slice::slice_subrange(rgba8, src_off, src_off + bytes_per_mip0);
        let ghost src_k = rgba8_source(src, width, height, k as int);
        proof {
            assert(mip0@ =~= src_k);
        }
        let mut cur: Vec<u8> = Vec::new();
        append_bytes(&mut cur, mip0);
        let mut cw = width;
        let mut chh = height;
        let mut l: usize = 0;
        while l < mip as usize
            invariant
                spec_block_bytes(pix) is Some,
                width >= 1,
                height >= 1,
                bc_level_len(pix, width, height) <= usize::MAX,
                mip >= 1,
                src == rgba8@,
                pix == pixel_format,
                need_in == rgba8_input_len(width, height, array_size, is_cubemap),
                need_in <= in_len,
                in_len == rgba8@.len(),
                (k > 0 || l > 0) ==> rgba8_encodable(pix),
                forall|px: [[u8; 4]; 16], part: [u8; 16], s: u8, idx: [u32; 16], bits: u32|
                    #[trigger] refine.requires((px, part, s, idx, bits)),
                src_k == rgba8_source(src, width, height, k as int),
                src_k.len() == level_len(width, height, 4),
                chain == bc_chain_prefix(pix, width, height, mip as int),
                base == head.len(),
                k < n_surf,
                l <= mip,
                l < mip ==> cur@ == box_level(src_k, width, height, 4, l as int).0,
                cw == mip_extent(width, l as int),
                chh == mip_extent(height, l as int),
                out@.len() == base + k * chain + bc_chain_prefix(pix, width, height, l as int),
                out@.subrange(0, base) == head,
                forall|k2: int, l2: int|
                    (0 <= k2 < k && 0 <= l2 < mip) || (k2 == k && 0 <= l2 < l) ==> bc_level_encodes(
                        pix,
                        box_level(rgba8_source(src, width, height, k2), width, height, 4, l2).0,
                        mip_extent(width, l2),
                        mip_extent(height, l2),
                        #[trigger] level_slot(out@, base, pix, width, height, chain, k2, l2),
                    ),
            decreases mip - l,
        {
            proof {
                lemma_mip_extent_bounds(width, l as int);
                lemma_mip_extent_bounds(height, l as int);
                lemma_bc_level_len_mono(pix, width, height, cw, chh);
                crate::roundtrip::lemma_box_level_shape(src_k, width, height, 4, l as int);
            }
            let want = block_compressed_surface_bytes(pix, cw, chh);
            let mut bc: Vec<u8> = vec![0u8; want];
            match encode_rgba8_to_bc_level(cur.as_slice(), cw, chh, pix, bc.as_mut_slice(), refine) {
                Ok(()) => {},
                Err(e) => {
                    return Err(e);
                },
            }
            let ghost before = out@;
            proof {
                lemma_slot_before(pix, width, height, mip as int, chain, k as int, l as int, k as int, l as int + 1);
            }
            append_bytes(&mut out, bc.as_slice());
            proof {
                let lo = base + k * chain + bc_chain_prefix(pix, width, height, l as int);
                assert(out@.subrange(0, base) =~= head);
                assert(level_slot(out@, base, pix, width, height, chain, k as int, l as int) =~= bc@);
                assert forall|k2: int, l2: int|
                    (0 <= k2 < k && 0 <= l2 < mip) || (k2 == k && 0 <= l2 < l + 1) implies bc_level_encodes(
                    pix,
                    box_level(rgba8_source(src, width, height, k2), width, height, 4, l2).0,
                    mip_extent(width, l2),
                    mip_extent(height, l2),
                    #[trigger] level_slot(out@, base, pix, width, height, chain, k2, l2),
                ) by {
                    if !(k2 == k && l2 == l) {
                        lemma_slot_before(pix, width, height, mip as int, chain, k2, l2, k as int, l as int);
                        assert(level_slot(out@, base, pix, width, height, chain, k2, l2) =~= level_slot(
                            before,
                            base,
                            pix,
                            width,
                            height,
                            chain,
                            k2,
                            l2,
                        ));
                    }
                }
            }
            if l + 1 < mip as usize {
                let (next, nw, nh) = box_downsample(cur.as_slice(), cw, chh, 4);
                cur = next;
                cw = nw;
                chh = nh;
            } else {
                cw = if cw / 2 == 0 {
                    1
                } else {
                    cw / 2
                };
                chh = if chh / 2 == 0 {
                    1
                } else {
                    chh / 2
                };
            }
            l += 1;
        }
        proof {
            assert(out@.len() == base + (k + 1) * chain) by (nonlinear_arith)
                requires
                    out@.len() == base + k * chain + chain,
            ;
        }
        k += 1;
    }
    proof {
        assert(n_surf == at_least_one(array_size) * face_count(is_cubemap));
    }
    Ok(out)
}

/// The levels of a plain chain, as [`bc_levels`] joins them, are the
/// level slots of `out` that hold them.
proof fn lemma_levels_are_slots(out: Seq<u8>, img: DdsImage, base: int, n: int)
    requires
        0 <= n <= written_mips(img),
        spec_block_bytes(img.pixel_format) is Some,
        0 <= base,
        base + bc_chain_prefix(img.pixel_format, img.width, img.height, written_mips(img) as int) <= out.len(),
        img.surfaces@.len() >= written_mips(img),
        forall|l: int|
            0 <= l < written_mips(img) ==> #[trigger] img.surfaces@[l].plane.data@ == level_slot(
                out,
                base,
                img.pixel_format,
                img.width,
                img.height,
                bc_chain_prefix(img.pixel_format, img.width, img.height, written_mips(img) as int),
                0,
                l,
            ),
    ensures
        bc_levels(img, n) == out.subrange(base, base + bc_chain_prefix(img.pixel_format, img.width, img.height, n)),
    decreases n,
{
    let pix = img.pixel_format;
    let w = img.width;
    let h = img.height;
    let mip = written_mips(img) as int;
    lemma_chain_prefix_mono(pix, w, h, 0, mip);
    if n == 0 {
        assert(out.subrange(base, base) =~= Seq::<u8>::empty());
    } else {
        lemma_levels_are_slots(out, img, base, n - 1);
        lemma_level_len_nonneg(pix, mip_extent(w, n - 1), mip_extent(h, n - 1));
        lemma_chain_prefix_mono(pix, w, h, n, mip);
        lemma_chain_prefix_mono(pix, w, h, n - 1, n);
        let a = base + bc_chain_prefix(pix, w, h, n - 1);
        let b = base + bc_chain_prefix(pix, w, h, n);
        assert(img.surfaces@[n - 1].plane.data@ == out.subrange(a, b));
        assert(out.subrange(a, b).take(bc_level_len(pix, mip_extent(w, n - 1), mip_extent(h, n - 1))) =~= out.subrange(
            a,
            b,
        ));
        assert(out.subrange(base, a) + out.subrange(a, b) =~= out.subrange(base, b));
    }
}

/// Encoding from RGBA8 writes, for a plain (neither cubemap nor array)
/// surface, exactly what [`encode_dds_block_compressed`] writes for the
/// image whose levels are the blocks it encoded: the box-filtered levels
/// of the input, each block-encoded in the chosen layout.
pub proof fn lemma_rgba8_is_block_writer(out: Seq<u8>, src: Seq<u8>, img: DdsImage)
    requires
        spec_block_bytes(img.pixel_format) is Some,
        !img.is_cubemap,
        img.array_size <= 1,
        img.dxgi_format is None,
        rgba8_bc_file(out, src, img.width, img.height, img.pixel_format, written_mips(img), false, 1, img.has_dxt10_header),
        img.surfaces@.len() >= written_mips(img),
        forall|l: int|
            0 <= l < written_mips(img) ==> #[trigger] img.surfaces@[l].plane.data@ == level_slot(
                out,
                bc_multi_header(img.width, img.height, img.pixel_format, written_mips(img), false, 1, img.has_dxt10_header).len() as int,
                img.pixel_format,
                img.width,
                img.height,
                bc_chain_prefix(img.pixel_format, img.width, img.height, written_mips(img) as int),
                0,
                l,
            ),
    ensures
        out == bc_file(img),
        forall|l: int|
            0 <= l < written_mips(img) ==> bc_level_encodes(
                img.pixel_format,
                box_level(rgba8_source(src, img.width, img.height, 0), img.width, img.height, 4, l).0,
                mip_extent(img.width, l),
                mip_extent(img.height, l),
                #[trigger] img.surfaces@[l].plane.data@,
            ),
{
    let pix = img.pixel_format;
    let w = img.width;
    let h = img.height;
    let mip = written_mips(img);
    let dx10 = img.has_dxt10_header;
    let head = bc_multi_header(w, h, pix, mip, false, 1, dx10);
    let chain = bc_chain_prefix(pix, w, h, mip as int);
    assert(at_least_one(img.array_size) == 1);
    let with_mips = mip > 1;
    let x = DDSCAPS_TEXTURE | (if with_mips { DDSCAPS_COMPLEX | DDSCAPS_MIPMAP } else { 0 });
    crate::bitfacts::lemma_masks();
    assert(x | 0u32 == x);
    assert(head.len() + 1 * chain == head.len() + chain);
    lemma_chain_prefix_mono(pix, w, h, 0, mip as int);
    lemma_levels_are_slots(out, img, head.len() as int, mip as int);
    assert(out =~= out.subrange(0, head.len() as int) + out.subrange(head.len() as int, head.len() + chain));
    assert forall|l: int| 0 <= l < mip implies bc_level_encodes(
        pix,
        box_level(rgba8_source(src, w, h, 0), w, h, 4, l).0,
        mip_extent(w, l),
        mip_extent(h, l),
        #[trigger] img.surfaces@[l].plane.data@,
    ) by {
        assert(level_slot(out, head.len() as int, pix, w, h, chain, 0, l) == img.surfaces@[l].plane.data@);
    }
}

/// With its levels at the mip extents, the image that the RGBA8 writer's
/// levels make is one [`encode_dds_block_compressed`] accepts, so that
/// writer gives the same file for it: encoding from RGBA8 is the
/// block-compressed writer applied to the block-encoded box-filtered
/// levels.
pub proof fn lemma_rgba8_matches_block_writer(out: Seq<u8>, src: Seq<u8>, img: DdsImage)
    requires
        spec_block_bytes(img.pixel_format) is Some,
        !img.is_cubemap,
        img.array_size <= 1,
        img.dxgi_format is None,
        img.width != 0,
        img.height != 0,
        rgba8_bc_file(out, src, img.width, img.height, img.pixel_format, written_mips(img), false, 1, img.has_dxt10_header),
        img.surfaces@.len() >= written_mips(img),
        forall|l: int|
            0 <= l < written_mips(img) ==> #[trigger] img.surfaces@[l].width == mip_extent(img.width, l)
                && img.surfaces@[l].height == mip_extent(img.height, l),
        forall|l: int|
            0 <= l < written_mips(img) ==> #[trigger] img.surfaces@[l].plane.data@ == level_slot(
                out,
                bc_multi_header(img.width, img.height, img.pixel_format, written_mips(img), false, 1, img.has_dxt10_header).len() as int,
                img.pixel_format,
                img.width,
                img.height,
                bc_chain_prefix(img.pixel_format, img.width, img.height, written_mips(img) as int),
                0,
                l,
            ),
    ensures
        bc_input_ok(img),
        out == bc_file(img),
{
    lemma_rgba8_is_block_writer(out, src, img);
    let pix = img.pixel_format;
    let w = img.width;
    let h = img.height;
    let mip = written_mips(img);
    let head = bc_multi_header(w, h, pix, mip, false, 1, img.has_dxt10_header);
    let chain = bc_chain_prefix(pix, w, h, mip as int);
    assert(face_count(false) == 1);
    assert forall|l: int| 0 <= l < mip implies #[trigger] bc_level_ok(img, l) by {
        lemma_chain_prefix_mono(pix, w, h, l, l + 1);
        lemma_chain_prefix_mono(pix, w, h, l + 1, mip as int);
        assert(img.surfaces@[l].plane.data@ == level_slot(out, head.len() as int, pix, w, h, chain, 0, l));
    }
}

} // verus!
