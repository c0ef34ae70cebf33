//! What the reader gives back of what the writer wrote.
use vstd::prelude::*;
use crate::decoder::{
    at_least_one, bit_len, file_places, hdr_caps2, hdr_flags, hdr_height, hdr_width, image_from,
    max_u32, mip_height, mip_width, parse_succeeds, places_span, resolved_format,
    spec_legacy_format, spec_pixel_format, spec_surface_size, surface_holds, uses_dxt10,
    file_mip_count, file_is_volume, is_cube, file_faces, geometry_valid, header_valid, header_ok,
    data_fits, pixel_data_offset, surface_count, surfaces_per_slice, array_count, file_base_depth,
    hdr_depth, hdr_mip_map_count,
    flat_place, SurfacePlace, SURFACE_HARD_CAP, lemma_bit_len_le_32,
};
use crate::encoder::{
    box_chain, box_level, chain_level_ok, downsample, half, header_words, le_bytes, level_len,
    mip_extent, spec_legacy_fields, supplied_chain_ok, supplied_levels, uncompressed_file,
    uncompressed_input_ok, words_le, written_mips,
};
use crate::image::{DdsImage, DdsPixelFormat, spec_block_bytes, spec_bytes_per_pixel};
use crate::le::le_u32;
use crate::types::{
    DdsPixelFormatHeader, DDPF_ALPHA, DDPF_ALPHAPIXELS, DDPF_FOURCC, DDPF_LUMINANCE, DDPF_RGB,
    DDSCAPS2_CUBEMAP, DDSCAPS2_VOLUME, DDSD_MIPMAPCOUNT, DDSD_PITCH, DDSD_REQUIRED, DDS_MAGIC,
};

verus! {

// ---- Reading back little-endian words ------------------------------------------

pub proof fn lemma_words_le_len(ws: Seq<u32>)
    ensures
        words_le(ws).len() == 4 * ws.len(),
    decreases ws.len(),
{
    if ws.len() > 0 {
        lemma_words_le_len(ws.drop_last());
    }
}

proof fn lemma_words_le_index(ws: Seq<u32>, i: int, j: int)
    requires
        0 <= i < ws.len(),
        0 <= j < 4,
    ensures
        words_le(ws)[4 * i + j] == le_bytes(ws[i])[j],
    decreases ws.len(),
{
    lemma_words_le_len(ws.drop_last());
    if i < ws.len() - 1 {
        lemma_words_le_index(ws.drop_last(), i, j);
    }
}

/// A word written little-endian reads back as itself.
pub proof fn lemma_le_bytes_read(v: u32)
    ensures
        le_u32(le_bytes(v), 0) == v,
{
    assert(((v & 0xff) as u8) + 256 * (((v >> 8) & 0xff) as u8) + 65536 * (((v >> 16) & 0xff) as u8)
        + 16777216 * (((v >> 24) & 0xff) as u8) == v) by (bit_vector);
}

/// Word `i` of a stream that starts with `words_le(ws)` reads back as `ws[i]`.
pub proof fn lemma_read_word(ws: Seq<u32>, rest: Seq<u8>, i: int)
    requires
        0 <= i < ws.len(),
    ensures
        le_u32(words_le(ws) + rest, 4 * i) == ws[i],
        (words_le(ws) + rest).len() == 4 * ws.len() + rest.len(),
{
    lemma_words_le_len(ws);
    let s = words_le(ws) + rest;
    lemma_words_le_index(ws, i, 0);
    lemma_words_le_index(ws, i, 1);
    lemma_words_le_index(ws, i, 2);
    lemma_words_le_index(ws, i, 3);
    lemma_le_bytes_read(ws[i]);
    assert(s[4 * i] == le_bytes(ws[i])[0]);
    assert(s[4 * i + 1] == le_bytes(ws[i])[1]);
    assert(s[4 * i + 2] == le_bytes(ws[i])[2]);
    assert(s[4 * i + 3] == le_bytes(ws[i])[3]);
}

/// The fields of a header written by the encoders read back as written.
pub proof fn lemma_header_fields(
    flags: u32,
    height: u32,
    width: u32,
    pitch: u32,
    depth: u32,
    mip: u32,
    pf: DdsPixelFormatHeader,
    caps: u32,
    caps2: u32,
    rest: Seq<u8>,
)
    ensures
        ({
            let f = words_le(header_words(flags, height, width, pitch, depth, mip, pf, caps, caps2)) + rest;
            &&& f.len() == 128 + rest.len()
            &&& le_u32(f, 0) == DDS_MAGIC
            &&& le_u32(f, 4) == 124
            &&& hdr_flags(f) == flags
            &&& hdr_height(f) == height
            &&& hdr_width(f) == width
            &&& hdr_depth(f) == depth
            &&& hdr_mip_map_count(f) == mip
            &&& spec_pixel_format(f, 76) == pf
            &&& hdr_caps2(f) == caps2
        }),
{
    let ws = header_words(flags, height, width, pitch, depth, mip, pf, caps, caps2);
    assert(ws.len() == 32);
    lemma_read_word(ws, rest, 0);
    lemma_read_word(ws, rest, 1);
    lemma_read_word(ws, rest, 2);
    lemma_read_word(ws, rest, 3);
    lemma_read_word(ws, rest, 4);
    lemma_read_word(ws, rest, 6);
    lemma_read_word(ws, rest, 7);
    lemma_read_word(ws, rest, 19);
    lemma_read_word(ws, rest, 20);
    lemma_read_word(ws, rest, 21);
    lemma_read_word(ws, rest, 22);
    lemma_read_word(ws, rest, 23);
    lemma_read_word(ws, rest, 24);
    lemma_read_word(ws, rest, 25);
    lemma_read_word(ws, rest, 26);
    lemma_read_word(ws, rest, 28);
    assert(ws[1] == 124);
    assert(ws[19] == pf.size);
    assert(ws[20] == pf.flags);
    assert(ws[21] == pf.four_cc);
    assert(ws[22] == pf.rgb_bit_count);
    assert(ws[23] == pf.r_bit_mask);
    assert(ws[24] == pf.g_bit_mask);
    assert(ws[25] == pf.b_bit_mask);
    assert(ws[26] == pf.a_bit_mask);
    assert(ws[28] == caps2);
}

/// The legacy pixel format written for a layout names that layout again,
/// and carries no FourCC flag.
pub proof fn lemma_legacy_fields_resolve(pix: DdsPixelFormat)
    requires
        spec_legacy_fields(pix) is Some,
    ensures
        spec_legacy_format(spec_legacy_fields(pix).unwrap()) == Some(pix),
        spec_legacy_fields(pix).unwrap().flags & DDPF_FOURCC == 0,
        spec_legacy_fields(pix).unwrap().size == 32,
{
    let rgba: u32 = DDPF_RGB | DDPF_ALPHAPIXELS;
    let la: u32 = DDPF_LUMINANCE | DDPF_ALPHAPIXELS;
    assert(rgba == 0x41u32) by (bit_vector)
        requires
            rgba == DDPF_RGB | DDPF_ALPHAPIXELS,
            DDPF_RGB == 0x40u32,
            DDPF_ALPHAPIXELS == 1u32,
    ;
    assert(la == 0x2_0001u32) by (bit_vector)
        requires
            la == DDPF_LUMINANCE | DDPF_ALPHAPIXELS,
            DDPF_LUMINANCE == 0x2_0000u32,
            DDPF_ALPHAPIXELS == 1u32,
    ;
    assert(rgba & DDPF_FOURCC == 0 && rgba & DDPF_RGB != 0 && rgba & DDPF_ALPHAPIXELS != 0 && rgba
        & DDPF_LUMINANCE == 0 && rgba & DDPF_ALPHA == 0) by (bit_vector)
        requires
            rgba == 0x41u32,
            DDPF_FOURCC == 4u32,
            DDPF_RGB == 0x40u32,
            DDPF_ALPHAPIXELS == 1u32,
            DDPF_LUMINANCE == 0x2_0000u32,
            DDPF_ALPHA == 2u32,
    ;
    assert(DDPF_RGB & DDPF_FOURCC == 0 && DDPF_RGB & DDPF_RGB != 0 && DDPF_RGB & DDPF_ALPHAPIXELS
        == 0 && DDPF_RGB & DDPF_LUMINANCE == 0 && DDPF_RGB & DDPF_ALPHA == 0) by (bit_vector)
        requires
            DDPF_FOURCC == 4u32,
            DDPF_RGB == 0x40u32,
            DDPF_ALPHAPIXELS == 1u32,
            DDPF_LUMINANCE == 0x2_0000u32,
            DDPF_ALPHA == 2u32,
    ;
    assert(la & DDPF_FOURCC == 0 && la & DDPF_RGB == 0 && la & DDPF_ALPHAPIXELS != 0 && la
        & DDPF_LUMINANCE != 0 && la & DDPF_ALPHA == 0) by (bit_vector)
        requires
            la == 0x2_0001u32,
            DDPF_FOURCC == 4u32,
            DDPF_RGB == 0x40u32,
            DDPF_ALPHAPIXELS == 1u32,
            DDPF_LUMINANCE == 0x2_0000u32,
            DDPF_ALPHA == 2u32,
    ;
    assert(DDPF_LUMINANCE & DDPF_FOURCC == 0 && DDPF_LUMINANCE & DDPF_RGB == 0 && DDPF_LUMINANCE
        & DDPF_ALPHAPIXELS == 0 && DDPF_LUMINANCE & DDPF_LUMINANCE != 0 && DDPF_LUMINANCE
        & DDPF_ALPHA == 0) by (bit_vector)
        requires
            DDPF_FOURCC == 4u32,
            DDPF_RGB == 0x40u32,
            DDPF_ALPHAPIXELS == 1u32,
            DDPF_LUMINANCE == 0x2_0000u32,
            DDPF_ALPHA == 2u32,
    ;
    assert(DDPF_ALPHA & DDPF_FOURCC == 0 && DDPF_ALPHA & DDPF_RGB == 0 && DDPF_ALPHA
        & DDPF_ALPHAPIXELS == 0 && DDPF_ALPHA & DDPF_LUMINANCE == 0 && DDPF_ALPHA & DDPF_ALPHA
        != 0) by (bit_vector)
        requires
            DDPF_FOURCC == 4u32,
            DDPF_RGB == 0x40u32,
            DDPF_ALPHAPIXELS == 1u32,
            DDPF_LUMINANCE == 0x2_0000u32,
            DDPF_ALPHA == 2u32,
    ;
}

// ---- Mip chains -------------------------------------------------------------------

/// Halving an axis `m` times (floored to 1) is shifting it right `m` bits
/// (floored to 1).
pub proof fn lemma_mip_extent_shift(x: u32, m: u32)
    requires
        x >= 1,
        m < 32,
    ensures
        mip_extent(x, m as int) == at_least_one(x >> m),
    decreases m,
{
    if m == 0 {
        assert(x >> 0u32 == x) by (bit_vector);
    } else {
        let p = (m - 1) as u32;
        lemma_mip_extent_shift(x, p);
        let y = x >> p;
        assert(y / 2 == x >> m) by (bit_vector)
            requires
                y == x >> p,
                m == p + 1,
                p < 31,
        ;
    }
}

/// The first `n` levels produced by `f`, concatenated.
pub open spec fn concat_levels(f: spec_fn(int) -> Seq<u8>, n: int) -> Seq<u8>
    decreases n,
{
    if n <= 0 {
        Seq::empty()
    } else {
        concat_levels(f, n - 1) + f(n - 1)
    }
}

/// Total length of the first `n` levels produced by `f`.
pub open spec fn levels_len(f: spec_fn(int) -> Seq<u8>, n: int) -> int
    decreases n,
{
    if n <= 0 {
        0
    } else {
        levels_len(f, n - 1) + f(n - 1).len()
    }
}

pub proof fn lemma_concat_len(f: spec_fn(int) -> Seq<u8>, n: int)
    ensures
        concat_levels(f, n).len() == levels_len(f, n),
    decreases n,
{
    if n > 0 {
        lemma_concat_len(f, n - 1);
    }
}

pub proof fn lemma_levels_len_mono(f: spec_fn(int) -> Seq<u8>, i: int, j: int)
    requires
        0 <= i <= j,
    ensures
        levels_len(f, i) <= levels_len(f, j),
    decreases j - i,
{
    if i < j {
        lemma_levels_len_mono(f, i, j - 1);
    }
}

proof fn lemma_concat_prefix(f: spec_fn(int) -> Seq<u8>, k: int, n: int)
    requires
        0 <= k <= n,
    ensures
        concat_levels(f, n).subrange(0, levels_len(f, k)) == concat_levels(f, k),
    decreases n - k,
{
    lemma_concat_len(f, k);
    lemma_concat_len(f, n);
    if k < n {
        lemma_concat_prefix(f, k, n - 1);
        lemma_concat_len(f, n - 1);
        lemma_levels_len_mono(f, k, n - 1);
        assert(concat_levels(f, n).subrange(0, levels_len(f, k)) =~= concat_levels(f, n - 1).subrange(
            0,
            levels_len(f, k),
        ));
    } else {
        assert(concat_levels(f, n).subrange(0, levels_len(f, k)) =~= concat_levels(f, k));
    }
}

/// Level `k` sits at offset `levels_len(f, k)` of the concatenation.
pub proof fn lemma_concat_level(f: spec_fn(int) -> Seq<u8>, k: int, n: int)
    requires
        0 <= k < n,
    ensures
        concat_levels(f, n).subrange(levels_len(f, k), levels_len(f, k) + f(k).len()) == f(k),
        levels_len(f, k) + f(k).len() <= concat_levels(f, n).len(),
{
    lemma_concat_prefix(f, k + 1, n);
    lemma_concat_len(f, k);
    lemma_concat_len(f, n);
    lemma_levels_len_mono(f, k + 1, n);
    let c = concat_levels(f, n);
    let p = concat_levels(f, k + 1);
    assert(p == concat_levels(f, k) + f(k));
    assert(c.subrange(levels_len(f, k), levels_len(f, k) + f(k).len()) =~= p.subrange(
        levels_len(f, k),
        levels_len(f, k) + f(k).len(),
    ));
}

/// When each level has the size the reader expects of surface `j`, the
/// reader's running offset is the levels' running length.
pub proof fn lemma_span_is_levels_len(pix: DdsPixelFormat, places: Seq<SurfacePlace>, f: spec_fn(int) -> Seq<u8>, k: int)
    requires
        0 <= k <= places.len(),
        forall|j: int| 0 <= j < k ==> #[trigger] f(j).len() == spec_surface_size(pix, places[j].width, places[j].height),
    ensures
        places_span(pix, places, k) == levels_len(f, k),
    decreases k,
{
    if k > 0 {
        lemma_span_is_levels_len(pix, places, f, k - 1);
    }
}

/// Level `k` of a box-filtered chain has the canonical mip extents and
/// exactly that level's bytes.
pub proof fn lemma_box_level_shape(src: Seq<u8>, w: u32, h: u32, bpp: u32, k: int)
    requires
        k >= 0,
        src.len() == level_len(w, h, bpp),
    ensures
        box_level(src, w, h, bpp, k).1 == mip_extent(w, k),
        box_level(src, w, h, bpp, k).2 == mip_extent(h, k),
        box_level(src, w, h, bpp, k).0.len() == level_len(mip_extent(w, k), mip_extent(h, k), bpp),
    decreases k,
{
    if k > 0 {
        lemma_box_level_shape(src, w, h, bpp, k - 1);
        let p = box_level(src, w, h, bpp, k - 1);
        assert(half(p.1) * half(p.2) * bpp >= 0) by (nonlinear_arith);
    }
}

// ---- Uncompressed files -------------------------------------------------------------

/// Level `k` of the chain [`encode_dds_uncompressed`] writes for `img`:
/// mip 0 from the plane, then the supplied surfaces when they form the
/// canonical chain, box-filtered levels otherwise.
pub open spec fn written_level(img: DdsImage, k: int) -> Seq<u8> {
    let bpp = spec_bytes_per_pixel(img.pixel_format).unwrap();
    let mip0 = img.planes@[0].data@.take(level_len(img.width, img.height, bpp));
    if k == 0 {
        mip0
    } else if supplied_chain_ok(img, bpp, written_mips(img)) {
        img.surfaces@[k].plane.data@.take(
            level_len(mip_extent(img.width, k), mip_extent(img.height, k), bpp),
        )
    } else {
        box_level(mip0, img.width, img.height, bpp, k).0
    }
}

/// The levels of the chain written for `img`, as a function of the level.
pub open spec fn level_fn(img: DdsImage) -> spec_fn(int) -> Seq<u8> {
    |k: int| written_level(img, k)
}

proof fn lemma_concat_one(f: spec_fn(int) -> Seq<u8>)
    ensures
        concat_levels(f, 1) == f(0),
{
    assert(concat_levels(f, 0) == Seq::<u8>::empty());
    assert(concat_levels(f, 1) =~= f(0));
}

proof fn lemma_supplied_concat(img: DdsImage, n: int)
    requires
        n >= 1,
        supplied_chain_ok(
            img,
            spec_bytes_per_pixel(img.pixel_format).unwrap(),
            written_mips(img),
        ),
    ensures
        concat_levels(level_fn(img), n) == written_level(img, 0) + supplied_levels(
            img,
            spec_bytes_per_pixel(img.pixel_format).unwrap(),
            n,
        ),
    decreases n,
{
    let f = level_fn(img);
    let bpp = spec_bytes_per_pixel(img.pixel_format).unwrap();
    if n == 1 {
        lemma_concat_one(f);
        assert(supplied_levels(img, bpp, 1) == Seq::<u8>::empty());
        assert(concat_levels(f, 1) =~= written_level(img, 0) + supplied_levels(img, bpp, 1));
    } else {
        lemma_supplied_concat(img, n - 1);
        assert(concat_levels(f, n) =~= written_level(img, 0) + supplied_levels(img, bpp, n));
    }
}

proof fn lemma_box_concat(img: DdsImage, n: int)
    requires
        n >= 1,
        !supplied_chain_ok(
            img,
            spec_bytes_per_pixel(img.pixel_format).unwrap(),
            written_mips(img),
        ),
    ensures
        concat_levels(level_fn(img), n) == written_level(img, 0) + box_chain(
            written_level(img, 0),
            img.width,
            img.height,
            spec_bytes_per_pixel(img.pixel_format).unwrap(),
            n - 1,
        ),
    decreases n,
{
    let f = level_fn(img);
    let bpp = spec_bytes_per_pixel(img.pixel_format).unwrap();
    let mip0 = written_level(img, 0);
    if n == 1 {
        lemma_concat_one(f);
        assert(box_chain(mip0, img.width, img.height, bpp, 0) == Seq::<u8>::empty());
        assert(concat_levels(f, 1) =~= mip0 + box_chain(mip0, img.width, img.height, bpp, 0));
    } else {
        lemma_box_concat(img, n - 1);
        assert(concat_levels(f, n) =~= mip0 + box_chain(mip0, img.width, img.height, bpp, n - 1));
    }
}

/// The header words [`encode_dds_uncompressed`] writes for `img`.
pub open spec fn uncompressed_header(img: DdsImage) -> Seq<u32> {
    let pix = img.pixel_format;
    let bpp = spec_bytes_per_pixel(pix).unwrap();
    let mip = written_mips(img);
    let with_mips = mip > 1;
    let flags = DDSD_REQUIRED | DDSD_PITCH | (if with_mips { DDSD_MIPMAPCOUNT } else { 0 });
    let caps = crate::types::DDSCAPS_TEXTURE | (if with_mips {
        crate::types::DDSCAPS_COMPLEX | crate::types::DDSCAPS_MIPMAP
    } else {
        0
    });
    header_words(flags, img.height, img.width, (img.width * bpp) as u32, 0, mip, spec_legacy_fields(pix).unwrap(), caps, 0)
}

/// The levels [`encode_dds_uncompressed`] writes for `img`, concatenated.
pub open spec fn uncompressed_body(img: DdsImage) -> Seq<u8> {
    concat_levels(level_fn(img), written_mips(img) as int)
}

proof fn lemma_uncompressed_parts(img: DdsImage)
    requires
        uncompressed_input_ok(img),
        spec_legacy_fields(img.pixel_format) is Some,
    ensures
        uncompressed_file(img, spec_legacy_fields(img.pixel_format).unwrap()) == words_le(
            uncompressed_header(img),
        ) + uncompressed_body(img),
{
    let bpp = spec_bytes_per_pixel(img.pixel_format).unwrap();
    let mip = written_mips(img);
    let f = level_fn(img);
    if mip <= 1 {
        lemma_concat_one(f);
    } else if supplied_chain_ok(img, bpp, mip) {
        lemma_supplied_concat(img, mip as int);
    } else {
        lemma_box_concat(img, mip as int);
    }
    assert(uncompressed_file(img, spec_legacy_fields(img.pixel_format).unwrap()) =~= words_le(
        uncompressed_header(img),
    ) + uncompressed_body(img));
}

proof fn lemma_uncompressed_header(img: DdsImage)
    requires
        uncompressed_input_ok(img),
        spec_legacy_fields(img.pixel_format) is Some,
        written_mips(img) <= bit_len(max_u32(img.width, img.height)),
    ensures
        ({
            let file = words_le(uncompressed_header(img)) + uncompressed_body(img);
            &&& header_valid(file)
            &&& resolved_format(file) == Some(img.pixel_format)
            &&& !uses_dxt10(file)
            &&& hdr_width(file) == img.width
            &&& hdr_height(file) == img.height
            &&& file_mip_count(file) == written_mips(img)
            &&& !is_cube(file)
            &&& !file_is_volume(file)
            &&& file_faces(file).len() == 0
            &&& array_count(file) == 1
            &&& file_base_depth(file) == 1
            &&& geometry_valid(file)
            &&& pixel_data_offset(file) == 128
            &&& file.len() == 128 + uncompressed_body(img).len()
        }),
{
    let pix = img.pixel_format;
    let pf = spec_legacy_fields(pix).unwrap();
    let bpp = spec_bytes_per_pixel(pix).unwrap();
    let w = img.width;
    let h = img.height;
    let mip = written_mips(img);
    let with_mips = mip > 1;
    let flags = DDSD_REQUIRED | DDSD_PITCH | (if with_mips { DDSD_MIPMAPCOUNT } else { 0 });
    let caps = crate::types::DDSCAPS_TEXTURE | (if with_mips {
        crate::types::DDSCAPS_COMPLEX | crate::types::DDSCAPS_MIPMAP
    } else {
        0
    });
    let body = uncompressed_body(img);
    let file = words_le(uncompressed_header(img)) + body;
    lemma_header_fields(flags, h, w, (w * bpp) as u32, 0, mip, pf, caps, 0, body);
    lemma_legacy_fields_resolve(pix);
    assert(flags & DDSD_REQUIRED == DDSD_REQUIRED && (flags & DDSD_MIPMAPCOUNT != 0) == with_mips) by (bit_vector)
        requires
            flags == DDSD_REQUIRED | DDSD_PITCH | (if with_mips { DDSD_MIPMAPCOUNT } else { 0u32 }),
            DDSD_REQUIRED == 0x1007u32,
            DDSD_PITCH == 8u32,
            DDSD_MIPMAPCOUNT == 0x2_0000u32,
    ;
    assert(0u32 & DDSCAPS2_CUBEMAP == 0 && 0u32 & DDSCAPS2_VOLUME == 0) by (bit_vector);
    assert(!uses_dxt10(file));
    assert(header_valid(file));
    assert(file_mip_count(file) == mip);
    lemma_bit_len_le_32(max_u32(w, h));
    assert(surface_count(file) == mip);
}

/// The image read back from an uncompressed file has the written image's
/// size, layout and mip count, no cube faces, array slices, depth or DX10
/// header, and as surfaces exactly the levels written (mip 0 being the
/// input plane).
pub open spec fn roundtrip_fields(img: DdsImage, parsed: DdsImage) -> bool {
    &&& parsed.width == img.width
    &&& parsed.height == img.height
    &&& parsed.pixel_format == img.pixel_format
    &&& parsed.mip_map_count == written_mips(img)
    &&& !parsed.is_cubemap
    &&& parsed.array_size == 1
    &&& parsed.depth == 1
    &&& !parsed.has_dxt10_header
    &&& parsed.surfaces@.len() == written_mips(img)
    &&& forall|k: int|
        0 <= k < written_mips(img) ==> {
            &&& #[trigger] parsed.surfaces@[k].width == mip_extent(img.width, k)
            &&& parsed.surfaces@[k].height == mip_extent(img.height, k)
            &&& parsed.surfaces@[k].mip_level == k
            &&& parsed.surfaces@[k].plane.data@ == written_level(img, k)
        }
    &&& parsed.planes@[0].data@ == written_level(img, 0)
}

/// Reading back an uncompressed file: for a well-formed image whose layout
/// has a legacy pixel format, and whose mip chain is no longer than its
/// largest axis allows, the reader accepts what [`encode_dds_uncompressed`]
/// writes, and any image it reads back from those bytes has the same
/// size, layout and mip count, and as surfaces exactly the levels written
/// (mip 0 being the input plane).
#[verifier::rlimit(40)]
pub proof fn lemma_uncompressed_roundtrip(img: DdsImage, parsed: DdsImage)
    requires
        uncompressed_input_ok(img),
        spec_legacy_fields(img.pixel_format) is Some,
        written_mips(img) <= bit_len(max_u32(img.width, img.height)),
    ensures
        parse_succeeds(uncompressed_file(img, spec_legacy_fields(img.pixel_format).unwrap())),
        resolved_format(uncompressed_file(img, spec_legacy_fields(img.pixel_format).unwrap())) == Some(
            img.pixel_format,
        ),
        image_from(
            parsed,
            uncompressed_file(img, spec_legacy_fields(img.pixel_format).unwrap()),
            img.pixel_format,
        ) ==> roundtrip_fields(img, parsed),
{
    let pix = img.pixel_format;
    let bpp = spec_bytes_per_pixel(pix).unwrap();
    let w = img.width;
    let h = img.height;
    let mip = written_mips(img);
    let f = level_fn(img);
    let body = uncompressed_body(img);
    let file = uncompressed_file(img, spec_legacy_fields(pix).unwrap());
    lemma_uncompressed_parts(img);
    lemma_uncompressed_header(img);
    assert(file == words_le(uncompressed_header(img)) + body);

    let places = file_places(file);
    assert(places.len() == mip);
    assert(w * h * bpp == w * bpp * h) by (nonlinear_arith);
    lemma_bit_len_le_32(max_u32(w, h));
    assert forall|k: int| 0 <= k < mip implies #[trigger] places[k] == (SurfacePlace {
        width: mip_extent(w, k),
        height: mip_extent(h, k),
        mip_level: k as u32,
        array_slice: 0,
        face: None,
        depth_slice: 0,
    }) by {
        assert(k % (mip as int) == k && k / (mip as int) == 0) by (nonlinear_arith)
            requires
                0 <= k < mip,
        ;
        lemma_mip_extent_shift(w, k as u32);
        lemma_mip_extent_shift(h, k as u32);
    }
    assert forall|k: int| 0 <= k < mip implies #[trigger] f(k).len() == spec_surface_size(
        pix,
        places[k].width,
        places[k].height,
    ) by {
        if k == 0 {
        } else if supplied_chain_ok(img, bpp, mip) {
            assert(chain_level_ok(img, k, bpp));
        } else {
            lemma_box_level_shape(written_level(img, 0), w, h, bpp, k);
        }
    }
    lemma_span_is_levels_len(pix, places, f, mip as int);
    lemma_concat_len(f, mip as int);
    assert(data_fits(file, pix));
    assert(parse_succeeds(file));
    if image_from(parsed, file, pix) {
        assert forall|k: int| 0 <= k < mip implies {
            &&& #[trigger] parsed.surfaces@[k].width == mip_extent(w, k)
            &&& parsed.surfaces@[k].height == mip_extent(h, k)
            &&& parsed.surfaces@[k].mip_level == k
            &&& parsed.surfaces@[k].plane.data@ == written_level(img, k)
        } by {
            lemma_span_is_levels_len(pix, places, f, k);
            lemma_concat_level(f, k, mip as int);
            assert(surface_holds(parsed.surfaces@[k], places[k], pix, file, 128 + places_span(pix, places, k)));
            let a = levels_len(f, k);
            let b = a + f(k).len();
            lemma_levels_len_mono(f, 0, k);
            lemma_words_le_len(uncompressed_header(img));
            assert(uncompressed_header(img).len() == 32);
            assert(file.subrange(128 + a, 128 + b) =~= body.subrange(a, b));
        }
    }
}

} // verus!
