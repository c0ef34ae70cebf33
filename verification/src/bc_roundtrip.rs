//! Reading back a block-compressed file: the reader hands back exactly the
//! block bytes the writer wrote, level by level.
use vstd::prelude::*;
use crate::decoder::{
    array_count, at_least_one, bit_len, data_fits, file_base_depth, file_faces, file_is_volume,
    file_mip_count, file_places, flat_place, geometry_valid, hdr_caps2, hdr_flags, hdr_height,
    hdr_width, header_ok, header_valid, image_from, is_cube, max_u32, parse_succeeds,
    pixel_data_offset, places_span, resolved_format, spec_dxgi_format, spec_legacy_format,
    spec_pixel_format, spec_surface_size, surface_count, surface_holds, surfaces_per_slice,
    uses_dxt10, file_dxt10, lemma_bit_len_le_32, SurfacePlace,
};
use crate::encoder::{
    bc_file, bc_input_ok, bc_level_len, bc_level_ok, bc_levels, bc_uses_dx10, header_words,
    mip_extent, spec_bc_dxgi_code, spec_bc_fourcc, words_le, written_mips,
};
use crate::image::{DdsImage, DdsPixelFormat, spec_block_bytes};
use crate::le::le_u32;
use crate::roundtrip::{
    concat_levels, levels_len, lemma_concat_len, lemma_concat_level, lemma_header_fields,
    lemma_levels_len_mono, lemma_mip_extent_shift, lemma_read_word, lemma_span_is_levels_len,
    lemma_words_le_len,
};
use crate::types::{
    DdsPixelFormatHeader, DDPF_ALPHA, DDPF_ALPHAPIXELS, DDPF_FOURCC, DDPF_LUMINANCE, DDPF_RGB,
    DDSCAPS2_CUBEMAP, DDSCAPS2_VOLUME, DDSD_LINEARSIZE, DDSD_MIPMAPCOUNT, DDSD_REQUIRED,
    DDS_DIMENSION_TEXTURE2D, DDS_DIMENSION_TEXTURE3D, DDS_PIXELFORMAT_SIZE,
    DDS_RESOURCE_MISC_TEXTURECUBE, FOURCC_DX10,
};

verus! {

/// The `DXGI_FORMAT` code a block-compressed file written for `img` carries.
pub open spec fn bc_dxgi(img: DdsImage) -> u32 {
    match img.dxgi_format {
        Some(f) => f.code,
        None => spec_bc_dxgi_code(img.pixel_format),
    }
}

/// The header of the file written for `img` names its layout again: the
/// DXGI code, where the file carries the DX10 record, names
/// `img.pixel_format` (a legacy FourCC always does).
pub open spec fn bc_names_layout(img: DdsImage) -> bool {
    bc_uses_dx10(img) ==> spec_dxgi_format(bc_dxgi(img)) == Some(img.pixel_format)
}

/// Level `k` of the chain written for `img`: the first bytes of surface
/// `k`, as many as the level takes.
pub open spec fn bc_level(img: DdsImage, k: int) -> Seq<u8> {
    img.surfaces@[k].plane.data@.take(
        bc_level_len(img.pixel_format, mip_extent(img.width, k), mip_extent(img.height, k)),
    )
}

/// [`bc_level`] as a function of the level.
pub open spec fn bc_level_fn(img: DdsImage) -> spec_fn(int) -> Seq<u8> {
    |k: int| bc_level(img, k)
}

proof fn lemma_bc_levels_concat(img: DdsImage, n: int)
    requires
        n >= 0,
    ensures
        bc_levels(img, n) == concat_levels(bc_level_fn(img), n),
    decreases n,
{
    if n > 0 {
        lemma_bc_levels_concat(img, n - 1);
        assert(bc_levels(img, n) =~= concat_levels(bc_level_fn(img), n));
    }
}

/// The flag, FourCC and DX10-record facts a written header reads back with.
proof fn lemma_bc_flag_bits(with_mips: bool, flags: u32)
    requires
        flags == DDSD_REQUIRED | DDSD_LINEARSIZE | (if with_mips { DDSD_MIPMAPCOUNT } else { 0u32 }),
    ensures
        flags & DDSD_REQUIRED == DDSD_REQUIRED,
        (flags & DDSD_MIPMAPCOUNT != 0) == with_mips,
        DDPF_FOURCC & DDPF_FOURCC != 0,
        DDPF_FOURCC & DDPF_RGB == 0,
        DDPF_FOURCC & DDPF_ALPHAPIXELS == 0,
        DDPF_FOURCC & DDPF_ALPHA == 0,
        DDPF_FOURCC & DDPF_LUMINANCE == 0,
        0u32 & DDSCAPS2_CUBEMAP == 0,
        0u32 & DDSCAPS2_VOLUME == 0,
        0u32 & DDS_RESOURCE_MISC_TEXTURECUBE == 0,
{
    assert(flags & DDSD_REQUIRED == DDSD_REQUIRED && (flags & DDSD_MIPMAPCOUNT != 0) == with_mips
        && 4u32 & 4u32 != 0 && 4u32 & 0x40u32 == 0 && 4u32 & 1u32 == 0 && 4u32 & 2u32 == 0
        && 4u32 & 0x2_0000u32 == 0 && 0u32 & 0x200u32 == 0 && 0u32 & 0x20_0000u32 == 0 && 0u32 & 4u32
        == 0) by (bit_vector)
        requires
            flags == 0x1007u32 | 0x8_0000u32 | (if with_mips { 0x2_0000u32 } else { 0u32 }),
    ;
}

/// The DX10 record words of the file written for `img` (none with a
/// legacy FourCC).
pub open spec fn bc_dx10_words(img: DdsImage) -> Seq<u32> {
    if bc_uses_dx10(img) {
        seq![bc_dxgi(img), DDS_DIMENSION_TEXTURE2D, 0u32, at_least_one(img.array_size), 0u32]
    } else {
        Seq::empty()
    }
}

/// The legacy pixel-format record of a block-compressed header.
pub open spec fn bc_pf(img: DdsImage) -> DdsPixelFormatHeader {
    DdsPixelFormatHeader {
        size: DDS_PIXELFORMAT_SIZE as u32,
        flags: DDPF_FOURCC,
        four_cc: if bc_uses_dx10(img) { FOURCC_DX10 } else { spec_bc_fourcc(img.pixel_format).unwrap() },
        rgb_bit_count: 0,
        r_bit_mask: 0,
        g_bit_mask: 0,
        b_bit_mask: 0,
        a_bit_mask: 0,
    }
}

/// The header words of the file written for `img`.
pub open spec fn bc_header(img: DdsImage) -> Seq<u32> {
    let mip = written_mips(img);
    let with_mips = mip > 1;
    let flags = DDSD_REQUIRED | DDSD_LINEARSIZE | (if with_mips { DDSD_MIPMAPCOUNT } else { 0 });
    let caps = crate::types::DDSCAPS_TEXTURE | (if with_mips {
        crate::types::DDSCAPS_COMPLEX | crate::types::DDSCAPS_MIPMAP
    } else {
        0
    });
    header_words(flags, img.height, img.width, bc_level_len(img.pixel_format, img.width, img.height) as u32, 0, mip, bc_pf(img), caps, 0)
}

proof fn lemma_bc_file_parts(img: DdsImage)
    ensures
        bc_file(img) == words_le(bc_header(img)) + words_le(bc_dx10_words(img)) + bc_levels(img, written_mips(img) as int),
{
    let dx = if bc_uses_dx10(img) {
        words_le(seq![bc_dxgi(img), DDS_DIMENSION_TEXTURE2D, 0u32, at_least_one(img.array_size), 0u32])
    } else {
        Seq::empty()
    };
    assert(words_le(Seq::<u32>::empty()) == Seq::<u8>::empty());
    assert(words_le(bc_dx10_words(img)) == dx);
    assert(bc_file(img) =~= words_le(bc_header(img)) + words_le(bc_dx10_words(img)) + bc_levels(img, written_mips(img) as int));
}

/// A legacy FourCC header written for a block layout names that layout again.
proof fn lemma_bc_fourcc_resolves(img: DdsImage)
    requires
        spec_bc_fourcc(img.pixel_format) is Some,
        !bc_uses_dx10(img),
    ensures
        spec_legacy_format(bc_pf(img)) == Some(img.pixel_format),
{
    lemma_bc_flag_bits(false, DDSD_REQUIRED | DDSD_LINEARSIZE | 0u32);
}

/// The fixed records of a block-compressed file read back as written: a
/// valid header naming the layout, the size, the mip count, a plain 2D
/// single-slice texture, and the levels right after the records.
proof fn lemma_bc_file_facts(img: DdsImage)
    requires
        bc_input_ok(img),
        written_mips(img) <= bit_len(max_u32(img.width, img.height)),
        bc_names_layout(img),
    ensures
        ({
            let file = bc_file(img);
            let off = if bc_uses_dx10(img) { 148int } else { 128int };
            &&& header_valid(file)
            &&& resolved_format(file) == Some(img.pixel_format)
            &&& uses_dxt10(file) == bc_uses_dx10(img)
            &&& bc_uses_dx10(img) ==> file_dxt10(file).dxgi_format == bc_dxgi(img)
            &&& hdr_width(file) == img.width
            &&& hdr_height(file) == img.height
            &&& file_mip_count(file) == written_mips(img)
            &&& !is_cube(file)
            &&& !file_is_volume(file)
            &&& file_faces(file).len() == 0
            &&& array_count(file) == 1
            &&& file_base_depth(file) == 1
            &&& geometry_valid(file)
            &&& pixel_data_offset(file) == off
            &&& file.len() == off + bc_levels(img, written_mips(img) as int).len()
            &&& forall|j: int| 0 <= j < bc_levels(img, written_mips(img) as int).len() ==> #[trigger] file[off + j]
                == bc_levels(img, written_mips(img) as int)[j]
        }),
{
    let mip = written_mips(img);
    let with_mips = mip > 1;
    let flags = DDSD_REQUIRED | DDSD_LINEARSIZE | (if with_mips { DDSD_MIPMAPCOUNT } else { 0 });
    let caps = crate::types::DDSCAPS_TEXTURE | (if with_mips {
        crate::types::DDSCAPS_COMPLEX | crate::types::DDSCAPS_MIPMAP
    } else {
        0
    });
    let body = bc_levels(img, mip as int);
    let dxs = bc_dx10_words(img);
    let rest = words_le(dxs) + body;
    let file = bc_file(img);
    lemma_bc_file_parts(img);
    assert(file =~= words_le(bc_header(img)) + rest);
    lemma_header_fields(flags, img.height, img.width, bc_level_len(img.pixel_format, img.width, img.height) as u32, 0, mip, bc_pf(img), caps, 0, rest);
    lemma_bc_flag_bits(with_mips, flags);
    lemma_words_le_len(bc_header(img));
    lemma_words_le_len(dxs);
    assert(words_le(bc_header(img)).len() == 128);
    assert(spec_pixel_format(file, 76) == bc_pf(img));
    if bc_uses_dx10(img) {
        lemma_read_word(dxs, body, 0);
        lemma_read_word(dxs, body, 1);
        lemma_read_word(dxs, body, 2);
        lemma_read_word(dxs, body, 3);
        assert(le_u32(file, 128) == le_u32(rest, 0));
        assert(le_u32(file, 132) == le_u32(rest, 4));
        assert(le_u32(file, 136) == le_u32(rest, 8));
        assert(le_u32(file, 140) == le_u32(rest, 12));
        assert(uses_dxt10(file));
        assert(file_dxt10(file).dxgi_format == bc_dxgi(img));
        assert(file_dxt10(file).resource_dimension == DDS_DIMENSION_TEXTURE2D);
        assert(file_dxt10(file).misc_flag == 0);
        assert(file_dxt10(file).array_size == at_least_one(img.array_size));
        assert(at_least_one(img.array_size) == 1);
    } else {
        assert(spec_bc_fourcc(img.pixel_format) is Some);
        assert(spec_bc_fourcc(img.pixel_format).unwrap() != FOURCC_DX10);
        assert(!uses_dxt10(file));
        lemma_bc_fourcc_resolves(img);
    }
    assert(header_ok(file, 4));
    assert(header_valid(file));
    assert(file_mip_count(file) == mip);
    lemma_bit_len_le_32(max_u32(img.width, img.height));
    assert(surface_count(file) == mip);
    assert(geometry_valid(file));
    let off: int = if bc_uses_dx10(img) {
        148int
    } else {
        128int
    };
    assert forall|j: int| 0 <= j < body.len() implies #[trigger] file[off + j] == body[j] by {
        if bc_uses_dx10(img) {
            assert(file[148 + j] == rest[20 + j]);
        } else {
            assert(file[128 + j] == rest[j]);
        }
    }
}

/// The image read back from a block-compressed file has the written
/// image's size, layout and mip count, no cube faces, array slices or
/// depth, the DX10 record exactly when it was written, and as surfaces
/// exactly the block bytes of each level.
pub open spec fn bc_roundtrip_fields(img: DdsImage, parsed: DdsImage) -> bool {
    &&& parsed.width == img.width
    &&& parsed.height == img.height
    &&& parsed.pixel_format == img.pixel_format
    &&& parsed.mip_map_count == written_mips(img)
    &&& !parsed.is_cubemap
    &&& parsed.array_size == 1
    &&& parsed.depth == 1
    &&& parsed.has_dxt10_header == bc_uses_dx10(img)
    &&& parsed.surfaces@.len() == written_mips(img)
    &&& forall|k: int|
        0 <= k < written_mips(img) ==> {
            &&& #[trigger] parsed.surfaces@[k].width == mip_extent(img.width, k)
            &&& parsed.surfaces@[k].height == mip_extent(img.height, k)
            &&& parsed.surfaces@[k].mip_level == k
            &&& parsed.surfaces@[k].plane.data@ == bc_level(img, k)
        }
}

/// Reading back a block-compressed file: for a valid plain (neither cubemap
/// nor array) block-compressed image whose mip chain is no longer than its
/// largest axis allows and whose header names its layout, the reader
/// accepts what [`crate::encoder::encode_dds_block_compressed`] writes, and
/// any image it reads back from those bytes has the same size, layout and
/// mip count, the DX10 record exactly when it was written, and as surfaces
/// exactly the block bytes of each level.
#[verifier::rlimit(40)]
pub proof fn lemma_block_compressed_roundtrip(img: DdsImage, parsed: DdsImage)
    requires
        bc_input_ok(img),
        written_mips(img) <= bit_len(max_u32(img.width, img.height)),
        bc_names_layout(img),
    ensures
        parse_succeeds(bc_file(img)),
        resolved_format(bc_file(img)) == Some(img.pixel_format),
        image_from(parsed, bc_file(img), img.pixel_format) ==> bc_roundtrip_fields(img, parsed),
{
    let pix = img.pixel_format;
    let w = img.width;
    let h = img.height;
    let mip = written_mips(img);
    let f = bc_level_fn(img);
    let file = bc_file(img);
    let body = bc_levels(img, mip as int);
    lemma_bc_file_facts(img);
    let off: int = if bc_uses_dx10(img) {
        148int
    } else {
        128int
    };
    let places = file_places(file);
    assert(places.len() == mip);
    lemma_bit_len_le_32(max_u32(w, h));
    assert forall|k: int| 0 <= k < mip implies #[trigger] places[k] == (SurfacePlace {
        width: mip_extent(w, k),
        height: mip_extent(h, k),
        mip_level: k as u32,
        array_slice: 0,
        face: None,
        depth_slice: 0,
    }) by {
        assert(k % (mip as int) == k && k / (mip as int) == 0) by (nonlinear_arith)
            requires
                0 <= k < mip,
        ;
        lemma_mip_extent_shift(w, k as u32);
        lemma_mip_extent_shift(h, k as u32);
    }
    assert forall|k: int| 0 <= k < mip implies #[trigger] f(k).len() == spec_surface_size(
        pix,
        places[k].width,
        places[k].height,
    ) by {
        assert(bc_level_ok(img, k));
    }
    lemma_span_is_levels_len(pix, places, f, mip as int);
    lemma_concat_len(f, mip as int);
    lemma_bc_levels_concat(img, mip as int);
    assert(data_fits(file, pix));
    assert(parse_succeeds(file));
    if image_from(parsed, file, pix) {
        assert forall|k: int| 0 <= k < mip implies {
            &&& #[trigger] parsed.surfaces@[k].width == mip_extent(w, k)
            &&& parsed.surfaces@[k].height == mip_extent(h, k)
            &&& parsed.surfaces@[k].mip_level == k
            &&& parsed.surfaces@[k].plane.data@ == bc_level(img, k)
        } by {
            lemma_span_is_levels_len(pix, places, f, k);
            lemma_concat_level(f, k, mip as int);
            assert(surface_holds(parsed.surfaces@[k], places[k], pix, file, off + places_span(pix, places, k)));
            let a = levels_len(f, k);
            let b = a + f(k).len();
            lemma_levels_len_mono(f, 0, k);
            assert(file.subrange(off + a, off + b) =~= body.subrange(a, b));
        }
    }
}

/// Without a caller-supplied DXGI code, the code the writer picks for a
/// BC1–BC7 layout names that layout again.
pub proof fn lemma_bc_default_names_layout(img: DdsImage)
    requires
        img.dxgi_format is None,
        spec_bc_dxgi_code(img.pixel_format) != 0,
    ensures
        bc_names_layout(img),
{
}

} // verus!
