//! Whole ASTC LDR surfaces: row-major 128-bit blocks covering a
//! `width × height` image, decoded to tightly packed RGBA8. Edge blocks
//! are clipped; a block missing from the input decodes to the error
//! colour, and so does every pixel when the footprint is unsupported.
use vstd::prelude::*;
use crate::astc::{
    astc_texel, astc_texels, decode_astc_ldr_block, fill_texels, footprint_ok, is_valid_footprint,
    lemma_footprint_bounds, ERROR_COLOR,
};
use crate::bc7::read_block16;
use crate::image::DdsPixelFormat;
use crate::surface::{lemma_offset_coords, px_x, px_y};
use vstd::arithmetic::div_mod::{lemma_fundamental_div_mod, lemma_fundamental_div_mod_converse, lemma_mod_bound};

verus! {

/// Number of `bw`-wide blocks covering `w` pixels.
pub open spec fn blocks_across(w: u32, bw: u32) -> int {
    (w / bw) as int + if w % bw == 0 {
        0int
    } else {
        1int
    }
}

/// The 16 bytes of block `idx` of the stream, when the stream holds it.
pub open spec fn block_at(data: Seq<u8>, idx: int) -> Option<Seq<u8>> {
    if 0 <= idx && 16 * idx + 16 <= data.len() {
        Some(data.subrange(16 * idx, 16 * idx + 16))
    } else {
        None
    }
}

/// The colour of pixel `(x, y)` of a `w`-wide surface at footprint `bw × bh`.
pub open spec fn astc_pixel(data: Seq<u8>, w: u32, bw: u32, bh: u32, x: int, y: int) -> [u8; 4] {
    if !footprint_ok(bw, bh) {
        ERROR_COLOR
    } else {
        let idx = (y / (bh as int)) * blocks_across(w, bw) + x / (bw as int);
        let t = (y % (bh as int)) * (bw as int) + x % (bw as int);
        match block_at(data, idx) {
            Some(b) => astc_texel(b, bw, bh, t),
            None => ERROR_COLOR,
        }
    }
}

/// Byte `j` of the decoded RGBA8 surface of width `w`.
pub open spec fn astc_surface_byte(data: Seq<u8>, w: u32, bw: u32, bh: u32, j: int) -> u8 {
    astc_pixel(data, w, bw, bh, px_x(j, w as int, 4), px_y(j, w as int, 4))[j % 4]
}

/// The texels of block `idx`, or error-colour texels when the stream ends first.
pub open spec fn stream_block_texels(data: Seq<u8>, idx: int, bw: u32, bh: u32) -> Seq<[u8; 4]> {
    match block_at(data, idx) {
        Some(b) => astc_texels(b, bw, bh),
        None => Seq::new((bw * bh) as nat, |t: int| ERROR_COLOR),
    }
}

/// Decode block `idx` of the stream, or give error-colour texels when the
/// stream holds no such block.
fn stream_block(data: &[u8], idx: u64, bw: u32, bh: u32) -> (out: Vec<[u8; 4]>)
    requires
        footprint_ok(bw, bh),
    ensures
        out@ == stream_block_texels(data@, idx as int, bw, bh),
{
    proof {
        lemma_footprint_bounds(bw as u8, bh as u8);
    }
    assert(bw * bh <= 144) by (nonlinear_arith)
        requires
            bw <= 12,
            bh <= 12,
    ;
    let n = data.len() / 16;
    if idx < n as u64 {
        let off = (idx as usize) * 16;
        let raw = read_block16(data, off);
        let v = decode_astc_ldr_block(&raw, bw, bh);
        assert(block_at(data@, idx as int) == Some(raw@));
        v
    } else {
        let v = fill_texels(bw * bh, ERROR_COLOR);
        assert(block_at(data@, idx as int) is None);
        assert(v@ =~= stream_block_texels(data@, idx as int, bw, bh));
        v
    }
}

/// Decode the `blocks_x` blocks of block row `by`.
fn stream_block_row(data: &[u8], by: u32, blocks_x: u32, bw: u32, bh: u32) -> (row: Vec<Vec<[u8; 4]>>)
    requires
        footprint_ok(bw, bh),
    ensures
        row@.len() == blocks_x,
        forall|i: int|
            0 <= i < blocks_x ==> (#[trigger] row@[i])@ == stream_block_texels(
                data@,
                by * blocks_x + i,
                bw,
                bh,
            ),
{
    let mut row: Vec<Vec<[u8; 4]>> = Vec::new();
    let mut bx: u32 = 0;
    while bx < blocks_x
        invariant
            footprint_ok(bw, bh),
            bx <= blocks_x,
            row@.len() == bx,
            forall|i: int|
                0 <= i < bx ==> (#[trigger] row@[i])@ == stream_block_texels(data@, by * blocks_x + i, bw, bh),
        decreases blocks_x - bx,
    {
        assert((by as u64) * (blocks_x as u64) + (bx as u64) <= u64::MAX) by (nonlinear_arith)
            requires
                by <= u32::MAX,
                blocks_x <= u32::MAX,
                bx <= u32::MAX,
        ;
        let idx = (by as u64) * (blocks_x as u64) + (bx as u64);
        let texels = stream_block(data, idx, bw, bh);
        row.push(texels);
        bx += 1;
    }
    row
}

/// Fill a `width × height` RGBA8 surface with the error colour.
fn error_surface(width: u32, height: u32) -> (out: Vec<u8>)
    requires
        width * height * 4 <= usize::MAX,
    ensures
        out@.len() == width * height * 4,
        forall|j: int| 0 <= j < out@.len() ==> #[trigger] out@[j] == ERROR_COLOR[j % 4],
{
    let n = (width as usize) * (height as usize);
    let mut out: Vec<u8> = Vec::new();
    let mut p: usize = 0;
    while p < n
        invariant
            n == width * height,
            n * 4 <= usize::MAX,
            p <= n,
            out@.len() == 4 * p,
            forall|j: int| 0 <= j < out@.len() ==> #[trigger] out@[j] == ERROR_COLOR[j % 4],
        decreases n - p,
    {
        let mut c: usize = 0;
        while c < 4
            invariant
                p < n,
                n * 4 <= usize::MAX,
                c <= 4,
                out@.len() == 4 * p + c,
                forall|j: int| 0 <= j < out@.len() ==> #[trigger] out@[j] == ERROR_COLOR[j % 4],
            decreases 4 - c,
        {
            proof {
                lemma_fundamental_div_mod_converse(4 * p + c, 4, p as int, c as int);
            }
            out.push(ERROR_COLOR[c]);
            c += 1;
        }
        p += 1;
    }
    out
}

/// Decode a whole ASTC LDR surface (`width × height`) into RGBA8.
/// `data` holds row-major 128-bit blocks, `ceil(width / block_w) ×
/// ceil(height / block_h)` of them. Pixel `(x, y)` lies in block
/// `(x / block_w, y / block_h)` at texel `(x % block_w, y % block_h)`;
/// partial edge blocks are clipped. A block missing from `data`, and
/// every pixel when the footprint is unsupported, decodes to the error
/// colour.
pub fn decode_astc_ldr(data: &[u8], width: u32, height: u32, block_w: u32, block_h: u32) -> (out: Vec<u8>)
    requires
        width * height * 4 <= usize::MAX,
    ensures
        out@.len() == width * height * 4,
        forall|j: int|
            0 <= j < out@.len() ==> #[trigger] out@[j] == astc_surface_byte(data@, width, block_w, block_h, j),
{
    if !(block_w <= 255 && block_h <= 255 && is_valid_footprint(block_w as u8, block_h as u8)) {
        let out = error_surface(width, height);
        assert forall|j: int| 0 <= j < out@.len() implies #[trigger] out@[j] == astc_surface_byte(
            data@,
            width,
            block_w,
            block_h,
            j,
        ) by {}
        return out;
    }
    proof {
        lemma_footprint_bounds(block_w as u8, block_h as u8);
    }
    assert(width / block_w < 0xffff_ffff) by (nonlinear_arith)
        requires
            block_w >= 4,
    ;
    let blocks_x: u32 = width / block_w + if width % block_w == 0 {
        0
    } else {
        1
    };
    let mut out: Vec<u8> = Vec::new();
    let mut row: Vec<Vec<[u8; 4]>> = Vec::new();
    let mut y: u32 = 0;
    while y < height
        invariant
            footprint_ok(block_w, block_h),
            4 <= block_w <= 12,
            4 <= block_h <= 12,
            width * height * 4 <= usize::MAX,
            blocks_x == blocks_across(width, block_w),
            y <= height,
            out@.len() == (y * width) * 4,
            forall|j: int|
                0 <= j < out@.len() ==> #[trigger] out@[j] == astc_surface_byte(data@, width, block_w, block_h, j),
            y % block_h != 0 ==> row@.len() == blocks_x,
            y % block_h != 0 ==> forall|i: int|
                0 <= i < blocks_x ==> (#[trigger] row@[i])@ == stream_block_texels(
                    data@,
                    (y / block_h) * blocks_x + i,
                    block_w,
                    block_h,
                ),
        decreases height - y,
    {
        let by = y / block_h;
        let ly = y % block_h;
        if ly == 0 {
            row = stream_block_row(data, by, blocks_x, block_w, block_h);
        }
        let mut x: u32 = 0;
        while x < width
            invariant
                footprint_ok(block_w, block_h),
                4 <= block_w <= 12,
                4 <= block_h <= 12,
                width * height * 4 <= usize::MAX,
                blocks_x == blocks_across(width, block_w),
                y < height,
                by == y / block_h,
                ly == y % block_h,
                x <= width,
                out@.len() == (y * width + x) * 4,
                forall|j: int|
                    0 <= j < out@.len() ==> #[trigger] out@[j] == astc_surface_byte(data@, width, block_w, block_h, j),
                row@.len() == blocks_x,
                forall|i: int|
                    0 <= i < blocks_x ==> (#[trigger] row@[i])@ == stream_block_texels(
                        data@,
                        by * blocks_x + i,
                        block_w,
                        block_h,
                    ),
            decreases width - x,
        {
            let bx = x / block_w;
            let lx = x % block_w;
            proof {
                lemma_mod_bound(y as int, block_h as int);
                lemma_fundamental_div_mod(x as int, block_w as int);
                lemma_mod_bound(x as int, block_w as int);
                lemma_fundamental_div_mod(width as int, block_w as int);
                lemma_mod_bound(width as int, block_w as int);
            }
            assert(bx < blocks_x) by (nonlinear_arith)
                requires
                    x < width,
                    x == block_w * bx + lx,
                    width == block_w * (width / block_w) + width % block_w,
                    0 <= lx < block_w,
                    0 <= width % block_w < block_w,
                    blocks_x == (width / block_w) as int + if width % block_w == 0 { 0int } else { 1int },
            ;
            assert(ly * block_w + lx < block_w * block_h && ly * block_w <= 144 && block_w * block_h <= 144)
                by (nonlinear_arith)
                requires
                    ly < block_h,
                    lx < block_w,
                    block_w <= 12,
                    block_h <= 12,
            ;
            let t = (ly * block_w + lx) as usize;
            let ghost blk = stream_block_texels(data@, by * blocks_x + bx, block_w, block_h);
            assert(row@[bx as int]@ == blk);
            let p = row[bx as usize][t];
            proof {
                let idx = by * blocks_x + bx;
                match block_at(data@, idx as int) {
                    Some(b) => {
                        assert(p == astc_texel(b, block_w, block_h, t as int));
                    },
                    None => {
                        assert(p == ERROR_COLOR);
                    },
                }
                assert(p == astc_pixel(data@, width, block_w, block_h, x as int, y as int));
                assert((y * width + x) * 4 + 4 <= width * height * 4) by (nonlinear_arith)
                    requires
                        x < width,
                        y < height,
                ;
            }
            let mut c: usize = 0;
            while c < 4
                invariant
                    x < width,
                    y < height,
                    (y * width + x) * 4 + 4 <= width * height * 4,
                    width * height * 4 <= usize::MAX,
                    c <= 4,
                    out@.len() == (y * width + x) * 4 + c,
                    p == astc_pixel(data@, width, block_w, block_h, x as int, y as int),
                    forall|j: int|
                        0 <= j < out@.len() ==> #[trigger] out@[j] == astc_surface_byte(data@, width, block_w, block_h, j),
                decreases 4 - c,
            {
                proof {
                    lemma_offset_coords(x as int, y as int, c as int, width as int, 4);
                }
                out.push(p[c]);
                c += 1;
            }
            assert((y * width + x + 1) * 4 == (y * width + x) * 4 + 4) by (nonlinear_arith);
            x += 1;
        }
        proof {
            assert((y + 1) * width == y * width + width) by (nonlinear_arith);
            let y1: int = y + 1;
            let bhi: int = block_h as int;
            if y1 % bhi != 0 {
                lemma_fundamental_div_mod(y as int, bhi);
                lemma_fundamental_div_mod(y1, bhi);
                lemma_mod_bound(y as int, bhi);
                lemma_mod_bound(y1, bhi);
                assert(y1 / bhi == (y as int) / bhi) by (nonlinear_arith)
                    requires
                        y as int == bhi * ((y as int) / bhi) + (y as int) % bhi,
                        y1 == bhi * (y1 / bhi) + y1 % bhi,
                        y1 == y + 1,
                        0 <= (y as int) % bhi < bhi,
                        0 < y1 % bhi < bhi,
                ;
            }
        }
        y += 1;
    }
    assert(height * width == width * height) by (nonlinear_arith);
    out
}

/// Decode an ASTC surface whose layout is given by `pix` into RGBA8:
/// `None` when `pix` is not an ASTC layout, else the surface that
/// [`decode_astc_ldr`] gives at its footprint.
pub fn decode_astc_ldr_surface(pix: DdsPixelFormat, data: &[u8], width: u32, height: u32) -> (r: Option<Vec<u8>>)
    requires
        width * height * 4 <= usize::MAX,
    ensures
        r is Some <==> pix is Astc,
        r matches Some(v) ==> pix matches DdsPixelFormat::Astc { block_w, block_h } && v@.len() == width * height * 4
            && forall|j: int|
            0 <= j < v@.len() ==> #[trigger] v@[j] == astc_surface_byte(data@, width, block_w as u32, block_h as u32, j),
{
    match pix.astc_footprint() {
        Some((bw, bh)) => Some(decode_astc_ldr(data, width, height, bw, bh)),
        None => None,
    }
}

} // verus!
