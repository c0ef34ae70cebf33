//! Placement of decoded 4×4 blocks into a row-major, tightly packed
//! surface of `ch` bytes per pixel, and the facts that relate a byte
//! offset to its pixel, block and texel.
use vstd::prelude::*;
use vstd::arithmetic::div_mod::{
    lemma_fundamental_div_mod, lemma_fundamental_div_mod_converse, lemma_mod_bound,
};

verus! {

/// Number of 4-wide blocks covering `n` pixels.
pub open spec fn ceil4(n: int) -> int {
    (n + 3) / 4
}

/// Column of the pixel that byte `j` belongs to.
pub open spec fn px_x(j: int, w: int, ch: int) -> int {
    (j / ch) % w
}

/// Row of the pixel that byte `j` belongs to.
pub open spec fn px_y(j: int, w: int, ch: int) -> int {
    (j / ch) / w
}

/// Row-major index of the 4×4 block that byte `j` belongs to.
pub open spec fn block_of(j: int, w: int, ch: int) -> int {
    (px_y(j, w, ch) / 4) * ceil4(w) + px_x(j, w, ch) / 4
}

/// Row-major index (0..16) inside its block of the pixel that byte `j` belongs to.
pub open spec fn texel_of(j: int, w: int, ch: int) -> int {
    (px_y(j, w, ch) % 4) * 4 + px_x(j, w, ch) % 4
}

/// The byte expected at offset `j` when block `b` decodes to the flat
/// texel list `blocks(b)` (texel `t`, channel `c` at `t × ch + c`).
pub open spec fn decoded_byte(blocks: spec_fn(int) -> Seq<u8>, j: int, w: int, ch: int) -> u8 {
    blocks(block_of(j, w, ch))[texel_of(j, w, ch) * ch + j % ch]
}

/// `out` is `old` with every byte of the `w × h` surface replaced by the
/// channel of its pixel in the decoded block that covers the pixel;
/// bytes past the surface are untouched.
pub open spec fn surface_decoded(
    out: Seq<u8>,
    old: Seq<u8>,
    w: int,
    h: int,
    ch: int,
    blocks: spec_fn(int) -> Seq<u8>,
) -> bool {
    &&& out.len() == old.len()
    &&& forall|j: int|
        0 <= j < out.len() ==> #[trigger] out[j] == (if j < w * h * ch {
            decoded_byte(blocks, j, w, ch)
        } else {
            old[j]
        })
}

/// Blocks with index below `done` have been written.
pub open spec fn blocks_written(
    out: Seq<u8>,
    old: Seq<u8>,
    w: int,
    h: int,
    ch: int,
    blocks: spec_fn(int) -> Seq<u8>,
    done: int,
) -> bool {
    &&& out.len() == old.len()
    &&& forall|j: int|
        0 <= j < out.len() ==> #[trigger] out[j] == (if j < w * h * ch && block_of(j, w, ch) < done {
            decoded_byte(blocks, j, w, ch)
        } else {
            old[j]
        })
}

/// The byte offset of channel `c` of pixel `(x, y)` names that pixel back.
pub proof fn lemma_offset_coords(x: int, y: int, c: int, w: int, ch: int)
    requires
        0 <= x < w,
        0 <= y,
        0 <= c < ch,
    ensures
        ((y * w + x) * ch + c) / ch == y * w + x,
        ((y * w + x) * ch + c) % ch == c,
        px_x((y * w + x) * ch + c, w, ch) == x,
        px_y((y * w + x) * ch + c, w, ch) == y,
{
    lemma_fundamental_div_mod_converse((y * w + x) * ch + c, ch, y * w + x, c);
    lemma_fundamental_div_mod_converse(y * w + x, w, y, x);
}

/// Every byte of the surface lies in a pixel of the surface, at the offset
/// that pixel and its channel name.
pub proof fn lemma_in_surface(j: int, w: int, h: int, ch: int)
    requires
        0 <= j < w * h * ch,
        w > 0,
        h > 0,
        ch > 0,
    ensures
        0 <= px_x(j, w, ch) < w,
        0 <= px_y(j, w, ch) < h,
        0 <= j % ch < ch,
        j == (px_y(j, w, ch) * w + px_x(j, w, ch)) * ch + j % ch,
{
    lemma_fundamental_div_mod(j, ch);
    lemma_mod_bound(j, ch);
    let p = j / ch;
    assert(0 <= p < w * h) by (nonlinear_arith)
        requires
            j == ch * p + j % ch,
            0 <= j % ch < ch,
            0 <= j < w * h * ch,
            ch > 0,
    ;
    lemma_fundamental_div_mod(p, w);
    lemma_mod_bound(p, w);
    assert(0 <= p / w < h) by (nonlinear_arith)
        requires
            p == w * (p / w) + p % w,
            0 <= p % w < w,
            0 <= p < w * h,
            w > 0,
    ;
    assert(j == (px_y(j, w, ch) * w + px_x(j, w, ch)) * ch + j % ch) by (nonlinear_arith)
        requires
            j == ch * p + j % ch,
            p == w * (p / w) + p % w,
            px_x(j, w, ch) == p % w,
            px_y(j, w, ch) == p / w,
    ;
}

/// A byte of the surface is named by its block, its texel and its channel.
pub proof fn lemma_block_texel_determine(j: int, w: int, h: int, ch: int)
    requires
        0 <= j < w * h * ch,
        w > 0,
        h > 0,
        ch > 0,
    ensures
        0 <= block_of(j, w, ch) < ceil4(w) * ceil4(h),
        0 <= texel_of(j, w, ch) < 16,
        px_x(j, w, ch) == 4 * (block_of(j, w, ch) % ceil4(w)) + texel_of(j, w, ch) % 4,
        px_y(j, w, ch) == 4 * (block_of(j, w, ch) / ceil4(w)) + texel_of(j, w, ch) / 4,
{
    lemma_in_surface(j, w, h, ch);
    let x = px_x(j, w, ch);
    let y = px_y(j, w, ch);
    let bw = ceil4(w);
    let bh = ceil4(h);
    lemma_fundamental_div_mod(x, 4);
    lemma_fundamental_div_mod(y, 4);
    lemma_mod_bound(x, 4);
    lemma_mod_bound(y, 4);
    assert(0 <= x / 4 < bw);
    assert(0 <= y / 4 < bh);
    lemma_fundamental_div_mod_converse(block_of(j, w, ch), bw, y / 4, x / 4);
    lemma_fundamental_div_mod_converse(texel_of(j, w, ch), 4, y % 4, x % 4);
    assert(0 <= block_of(j, w, ch) < bw * bh) by (nonlinear_arith)
        requires
            block_of(j, w, ch) == (y / 4) * bw + x / 4,
            0 <= x / 4 < bw,
            0 <= y / 4 < bh,
    ;
}

/// Exclusive bound of the surface bytes, in `usize`.
proof fn lemma_offset_bound(x: int, y: int, c: int, w: int, h: int, ch: int)
    requires
        0 <= x < w,
        0 <= y < h,
        0 <= c < ch,
    ensures
        0 <= (y * w + x) * ch + c < w * h * ch,
        0 <= y * w + x < w * h,
{
    assert(0 <= y * w + x < w * h) by (nonlinear_arith)
        requires
            0 <= x < w,
            0 <= y < h,
    ;
    assert(0 <= (y * w + x) * ch + c < w * h * ch) by (nonlinear_arith)
        requires
            0 <= y * w + x < w * h,
            0 <= c < ch,
    ;
}

/// Write the decoded block `(bx, by)` (flat texels, `ch` bytes per texel)
/// into the surface, skipping pixels beyond the `width × height` edge.
pub fn write_block(
    texels: &[u8],
    ch: usize,
    bx: usize,
    by: usize,
    width: u32,
    height: u32,
    out: &mut [u8],
)
    requires
        1 <= ch <= 8,
        texels@.len() == 16 * ch,
        bx < ceil4(width as int),
        by < ceil4(height as int),
        width * height * ch <= old(out)@.len(),
    ensures
        final(out)@.len() == old(out)@.len(),
        forall|j: int|
            0 <= j < final(out)@.len() ==> #[trigger] final(out)@[j] == (if j < width * height * ch
                && block_of(j, width as int, ch as int) == by * ceil4(width as int) + bx {
                texels@[texel_of(j, width as int, ch as int) * ch + j % (ch as int)]
            } else {
                old(out)@[j]
            }),
{
    let ghost w = width as int;
    let ghost h = height as int;
    let ghost c_ = ch as int;
    let ghost b = by * ceil4(w) + bx;
    let ghost whc = w * h * c_;
    let ghost orig = out@;
    let out_len = out.len();
    // `key(j) < k` selects the bytes of block `b` already written.
    let mut py: usize = 0;
    while py < 4
        invariant
            1 <= ch <= 8,
            texels@.len() == 16 * ch,
            w == width,
            h == height,
            c_ == ch,
            b == by * ceil4(w) + bx,
            bx < ceil4(w),
            by < ceil4(h),
            whc == w * h * c_,
            whc <= orig.len(),
            out_len == orig.len(),
            py <= 4,
            out@.len() == orig.len(),
            forall|j: int|
                0 <= j < out@.len() ==> #[trigger] out@[j] == (if j < whc && block_of(j, w, c_) == b
                    && texel_of(j, w, c_) < 4 * py {
                    texels@[texel_of(j, w, c_) * c_ + j % c_]
                } else {
                    orig[j]
                }),
        decreases 4 - py,
    {
        let mut px: usize = 0;
        while px < 4
            invariant
                1 <= ch <= 8,
                texels@.len() == 16 * ch,
                w == width,
                h == height,
                c_ == ch,
                b == by * ceil4(w) + bx,
                bx < ceil4(w),
                by < ceil4(h),
                whc == w * h * c_,
                whc <= orig.len(),
            out_len == orig.len(),
                py < 4,
                px <= 4,
                out@.len() == orig.len(),
                forall|j: int|
                    0 <= j < out@.len() ==> #[trigger] out@[j] == (if j < whc && block_of(j, w, c_) == b
                        && texel_of(j, w, c_) < 4 * py + px {
                        texels@[texel_of(j, w, c_) * c_ + j % c_]
                    } else {
                        orig[j]
                    }),
            decreases 4 - px,
        {
            let ghost t = 4 * py + px;
            let yy = by * 4 + py;
            let xx = bx * 4 + px;
            if yy < height as usize && xx < width as usize {
                proof {
                    lemma_offset_bound(xx as int, yy as int, 0, w, h, c_);
                    lemma_offset_bound(xx as int, yy as int, 0, w, h, 1);
                    crate::le::lemma_mul_grows(w * h, c_);
                }
                let base = (yy * (width as usize) + xx) * ch;
                let mut c: usize = 0;
                while c < ch
                    invariant
                        1 <= ch <= 8,
                        texels@.len() == 16 * ch,
                        w == width,
                        h == height,
                        c_ == ch,
                        b == by * ceil4(w) + bx,
                        bx < ceil4(w),
                        by < ceil4(h),
                        whc == w * h * c_,
                        whc <= orig.len(),
            out_len == orig.len(),
                        py < 4,
                        px < 4,
                        t == 4 * py + px,
                        yy == by * 4 + py,
                        xx == bx * 4 + px,
                        yy < h,
                        xx < w,
                        base == (yy * w + xx) * c_,
                        c <= ch,
                        out@.len() == orig.len(),
                        forall|j: int|
                            0 <= j < out@.len() ==> #[trigger] out@[j] == (if j < whc && block_of(j, w, c_)
                                == b && (texel_of(j, w, c_) < t || (texel_of(j, w, c_) == t && j % c_
                                < c)) {
                                texels@[texel_of(j, w, c_) * c_ + j % c_]
                            } else {
                                orig[j]
                            }),
                    decreases ch - c,
                {
                    proof {
                        lemma_offset_bound(xx as int, yy as int, c as int, w, h, c_);
                        lemma_offset_coords(xx as int, yy as int, c as int, w, c_);
                        lemma_fundamental_div_mod_converse(yy as int, 4, by as int, py as int);
                        lemma_fundamental_div_mod_converse(xx as int, 4, bx as int, px as int);
                    }
                    assert((py * 4 + px) * ch + c < 16 * ch) by (nonlinear_arith)
                        requires
                            py < 4,
                            px < 4,
                            c < ch,
                    ;
                    let dst = base + c;
                    let v = texels[(py * 4 + px) * ch + c];
                    let ghost before = out@;
                    out[dst] = v;
                    proof {
                        let d = dst as int;
                        assert(block_of(d, w, c_) == b);
                        assert(texel_of(d, w, c_) == t);
                        assert(d % c_ == c);
                        assert forall|j: int| 0 <= j < out@.len() implies #[trigger] out@[j] == (if j
                            < whc && block_of(j, w, c_) == b && (texel_of(j, w, c_) < t || (
                            texel_of(j, w, c_) == t && j % c_ < c + 1)) {
                            texels@[texel_of(j, w, c_) * c_ + j % c_]
                        } else {
                            orig[j]
                        }) by {
                            if j != d {
                                assert(out@[j] == before[j]);
                                if j < whc && block_of(j, w, c_) == b && texel_of(j, w, c_) == t && j
                                    % c_ == c {
                                    lemma_block_texel_determine(j, w, h, c_);
                                    lemma_in_surface(j, w, h, c_);
                                    lemma_block_texel_determine(d, w, h, c_);
                                    lemma_in_surface(d, w, h, c_);
                                }
                            }
                        }
                    }
                    c += 1;
                }
            } else {
                proof {
                    assert forall|j: int|
                        0 <= j < whc && block_of(j, w, c_) == b implies texel_of(j, w, c_) != t by {
                        assert(w > 0 && h > 0) by (nonlinear_arith)
                            requires
                                0 <= j < w * h * c_,
                                w >= 0,
                                h >= 0,
                                c_ >= 1,
                        ;
                        lemma_in_surface(j, w, h, c_);
                        lemma_block_texel_determine(j, w, h, c_);
                        lemma_fundamental_div_mod_converse(b, ceil4(w), by as int, bx as int);
                        if texel_of(j, w, c_) == t {
                            lemma_fundamental_div_mod_converse(t, 4, py as int, px as int);
                        }
                    }
                }
            }
            px += 1;
        }
        py += 1;
    }
}

/// Writing block `b` with its decoded texels extends the written prefix.
pub proof fn lemma_block_step(
    before: Seq<u8>,
    after: Seq<u8>,
    old: Seq<u8>,
    w: int,
    h: int,
    ch: int,
    blocks: spec_fn(int) -> Seq<u8>,
    b: int,
)
    requires
        ch >= 1,
        blocks_written(before, old, w, h, ch, blocks, b),
        after.len() == before.len(),
        forall|j: int|
            0 <= j < after.len() ==> #[trigger] after[j] == (if j < w * h * ch && block_of(j, w, ch) == b {
                blocks(b)[texel_of(j, w, ch) * ch + j % ch]
            } else {
                before[j]
            }),
    ensures
        blocks_written(after, old, w, h, ch, blocks, b + 1),
{
    assert forall|j: int| 0 <= j < after.len() implies #[trigger] after[j] == (if j < w * h * ch
        && block_of(j, w, ch) < b + 1 {
        decoded_byte(blocks, j, w, ch)
    } else {
        old[j]
    }) by {
        assert(before[j] == (if j < w * h * ch && block_of(j, w, ch) < b {
            decoded_byte(blocks, j, w, ch)
        } else {
            old[j]
        }));
    }
}

/// Once every block is written, the whole surface is decoded.
pub proof fn lemma_all_blocks(
    out: Seq<u8>,
    old: Seq<u8>,
    w: int,
    h: int,
    ch: int,
    blocks: spec_fn(int) -> Seq<u8>,
)
    requires
        w >= 0,
        h >= 0,
        ch >= 1,
        blocks_written(out, old, w, h, ch, blocks, ceil4(w) * ceil4(h)),
    ensures
        surface_decoded(out, old, w, h, ch, blocks),
{
    assert forall|j: int| 0 <= j < out.len() implies #[trigger] out[j] == (if j < w * h * ch {
        decoded_byte(blocks, j, w, ch)
    } else {
        old[j]
    }) by {
        if 0 <= j < w * h * ch {
            assert(w > 0 && h > 0) by (nonlinear_arith)
                requires
                    0 <= j < w * h * ch,
                    w >= 0,
                    h >= 0,
                    ch >= 1,
            ;
            lemma_block_texel_determine(j, w, h, ch);
        }
    }
}

/// Byte offset of block `(bx, by)` in a row-major block stream.
pub proof fn lemma_block_offset(bx: int, by: int, bw: int, bh: int, bb: int)
    requires
        0 <= bx < bw,
        0 <= by < bh,
        bb >= 0,
    ensures
        0 <= (by * bw + bx) * bb,
        (by * bw + bx) * bb + bb <= bw * bh * bb,
        by * bw + bx < bw * bh,
{
    assert((by * bw + bx) * bb + bb <= bw * bh * bb && by * bw + bx < bw * bh && 0 <= (by * bw + bx)
        * bb) by (nonlinear_arith)
        requires
            0 <= bx < bw,
            0 <= by < bh,
            bb >= 0,
    ;
}

/// Flatten 16 RGBA texels into 64 bytes (texel `t`, channel `c` at `4t + c`).
pub open spec fn flat_rgba(p: Seq<[u8; 4]>) -> Seq<u8> {
    Seq::new(64, |k: int| p[k / 4][k % 4])
}

/// Write a decoded 4×4 RGBA8 block into an RGBA8 surface.
pub fn write_rgba_block(
    pixels: &[[u8; 4]; 16],
    bx: usize,
    by: usize,
    width: u32,
    height: u32,
    out: &mut [u8],
)
    requires
        bx < ceil4(width as int),
        by < ceil4(height as int),
        width * height * 4 <= old(out)@.len(),
    ensures
        final(out)@.len() == old(out)@.len(),
        forall|j: int|
            0 <= j < final(out)@.len() ==> #[trigger] final(out)@[j] == (if j < width * height * 4
                && block_of(j, width as int, 4) == by * ceil4(width as int) + bx {
                flat_rgba(pixels@)[texel_of(j, width as int, 4) * 4 + j % 4]
            } else {
                old(out)@[j]
            }),
{
    let mut flat = [0u8; 64];
    let mut t: usize = 0;
    while t < 16
        invariant
            t <= 16,
            forall|k: int| 0 <= k < 4 * t ==> #[trigger] flat@[k] == flat_rgba(pixels@)[k],
        decreases 16 - t,
    {
        let p = pixels[t];
        flat[4 * t] = p[0];
        flat[4 * t + 1] = p[1];
        flat[4 * t + 2] = p[2];
        flat[4 * t + 3] = p[3];
        proof {
            assert forall|k: int| 4 * t <= k < 4 * t + 4 implies #[trigger] flat@[k] == flat_rgba(
                pixels@,
            )[k] by {
                lemma_fundamental_div_mod_converse(k, 4, t as int, k - 4 * t);
            }
        }
        t += 1;
    }
    assert(flat@ =~= flat_rgba(pixels@));
    write_block(&flat, 4, bx, by, width, height, out);
}

} // verus!
