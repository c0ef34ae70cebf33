//! The surface layer of the BC6H encoders: the size checks, the edge
//! clamping and the placement of blocks. Each 4×4 block of RGB half-float
//! texels is handed to a block encoder supplied by the caller, which
//! decides the mode and endpoints.
use vstd::prelude::*;
use crate::bcn_enc::{
    block_count, blocks_across, byte_or_zero, encode_lengths_ok, lemma_block_count_facts, lemma_offset_fits, out_block,
    surface_byte, surface_sizes, texel_offset, write_bytes_at,
};
use crate::error::{DdsError, Result, is_invalid};

verus! {

/// The little-endian half at byte `i` of a surface's bytes `s` (0 past
/// their end).
pub open spec fn half_at(s: Seq<u8>, i: int) -> u16 {
    (surface_byte(s, i) as int + 256 * surface_byte(s, i + 1) as int) as u16
}

/// The 16 RGB half-float texels of block `(bx, by)` of a packed RGBA
/// half-float surface (8 bytes a pixel, alpha ignored); texels past the
/// right or bottom edge repeat the last column or row.
pub open spec fn gathered_half_rgb(input: Seq<u8>, w: u32, h: u32, bx: int, by: int) -> Seq<[u16; 3]> {
    Seq::new(
        16,
        |t: int|
            {
                let off = texel_offset(w, h, bx, by, t, 8);
                [half_at(input, off), half_at(input, off + 2), half_at(input, off + 4)]
            },
    )
}

/// `out` is what the block encoder `f` gives for the texels `texels`.
pub open spec fn encoded_by<F: Fn([[u16; 3]; 16]) -> [u8; 16]>(f: F, texels: Seq<[u16; 3]>, out: Seq<u8>) -> bool {
    exists|blk: [[u16; 3]; 16], o: [u8; 16]| blk@ == texels && o@ == out && #[trigger] f.ensures((blk,), o)
}

/// The little-endian half at byte `off` of `input`, 0 past its end.
fn half_or_zero(input: &[u8], off: u64) -> (v: u16)
    requires
        off + 1 <= u64::MAX,
    ensures
        v == half_at(input@, off as int),
{
    let lo = byte_or_zero(input, off);
    let hi = byte_or_zero(input, off + 1);
    lo as u16 + 256 * hi as u16
}

/// Read block `(bx, by)` of a packed RGBA half-float surface.
fn gather_half_rgb(input: &[u8], width: u32, height: u32, bx: usize, by: usize) -> (block: [[u16; 3]; 16])
    requires
        bx < blocks_across(width),
        by < blocks_across(height),
        width * height * 8 <= usize::MAX,
    ensures
        block@ == gathered_half_rgb(input@, width, height, bx as int, by as int),
{
    let mut block = [[0u16; 3]; 16];
    let xlast: u32 = if width == 0 {
        0
    } else {
        width - 1
    };
    let ylast: u32 = if height == 0 {
        0
    } else {
        height - 1
    };
    let mut t: usize = 0;
    while t < 16
        invariant
            t <= 16,
            bx < blocks_across(width),
            by < blocks_across(height),
            width * height * 8 <= usize::MAX,
            xlast == (if width == 0 { 0 } else { width - 1 }),
            ylast == (if height == 0 { 0 } else { height - 1 }),
            forall|k: int| 0 <= k < t ==> #[trigger] block@[k] == gathered_half_rgb(input@, width, height, bx as int, by as int)[k],
        decreases 16 - t,
    {
        let px = (t % 4) as u32;
        let py = (t / 4) as u32;
        let x = bx as u32 * 4 + px;
        let y = by as u32 * 4 + py;
        let xx = if x < xlast {
            x
        } else {
            xlast
        };
        let yy = if y < ylast {
            y
        } else {
            ylast
        };
        proof {
            lemma_offset_fits(width, height, bx as int, by as int, t as int, 8);
        }
        let off = (yy as u64 * width as u64 + xx as u64) * 8;
        block[t] = [half_or_zero(input, off), half_or_zero(input, off + 2), half_or_zero(input, off + 4)];
        t += 1;
    }
    assert(block@ =~= gathered_half_rgb(input@, width, height, bx as int, by as int));
    block
}

/// The BC6H surface encoding shared by the unsigned and signed layouts
/// (`signed` only picks the error messages).
fn encode_bc6h_surface<F>(input: &[u8], width: u32, height: u32, output: &mut [u8], encode_block: &F, signed: bool) -> (r: Result<()>)
    where
        F: Fn([[u16; 3]; 16]) -> [u8; 16],
    requires
        width * height * 8 <= usize::MAX,
        block_count(width, height) * 16 <= usize::MAX,
        forall|blk: [[u16; 3]; 16]| #[trigger] encode_block.requires((blk,)),
    ensures
        !encode_lengths_ok(input@.len() as int, old(output)@.len() as int, width, height, 8, 16) ==> (
        is_invalid(r) && final(output)@ == old(output)@),
        encode_lengths_ok(input@.len() as int, old(output)@.len() as int, width, height, 8, 16) ==> (r is Ok
            && final(output)@.len() == old(output)@.len() && (forall|b: int|
            0 <= b < block_count(width, height) ==> encoded_by(
                *encode_block,
                gathered_half_rgb(input@, width, height, b % blocks_across(width), b / blocks_across(width)),
                #[trigger] out_block(final(output)@, b, 16),
            )) && (forall|j: int|
            block_count(width, height) * 16 <= j < old(output)@.len() ==> #[trigger] final(output)@[j]
                == old(output)@[j])),
{
    let (bw, bh, want_in) = surface_sizes(width, height, 8, 16);
    if input.len() < want_in {
        return Err(
            if signed {
                DdsError::invalid("BC6H_SF16 encoder input is shorter than width x height x 8")
            } else {
                DdsError::invalid("BC6H encoder input is shorter than width x height x 8")
            },
        );
    }
    let want_out = bw * bh * 16;
    if output.len() < want_out {
        return Err(
            if signed {
                DdsError::invalid("BC6H_SF16 encoder output is shorter than the block stream")
            } else {
                DdsError::invalid("BC6H encoder output is shorter than the block stream")
            },
        );
    }
    let n = bw * bh;
    let mut b: usize = 0;
    while b < n
        invariant
            n == block_count(width, height),
            want_out == n * 16,
            bw == blocks_across(width),
            bh == blocks_across(height),
            n * 16 <= old(output)@.len(),
            width * height * 8 <= usize::MAX,
            b <= n,
            output@.len() == old(output)@.len(),
            forall|blk: [[u16; 3]; 16]| #[trigger] encode_block.requires((blk,)),
            forall|k: int|
                0 <= k < b ==> encoded_by(
                    *encode_block,
                    gathered_half_rgb(input@, width, height, k % bw as int, k / bw as int),
                    #[trigger] out_block(output@, k, 16),
                ),
            forall|j: int| b * 16 <= j < old(output)@.len() ==> #[trigger] output@[j] == old(output)@[j],
        decreases n - b,
    {
        proof {
            lemma_block_count_facts(width, height, b as int);
        }
        let bx = b % bw;
        let by = b / bw;
        let block = gather_half_rgb(input, width, height, bx, by);
        let bc = encode_block(block);
        let ghost prev = output@;
        write_bytes_at(output, b * 16, &bc);
        proof {
            assert forall|k: int| 0 <= k < b + 1 implies encoded_by(
                *encode_block,
                gathered_half_rgb(input@, width, height, k % bw as int, k / bw as int),
                #[trigger] out_block(output@, k, 16),
            ) by {
                if k < b {
                    assert(out_block(output@, k, 16) =~= out_block(prev, k, 16));
                } else {
                    assert(out_block(output@, k, 16) =~= bc@);
                    assert(encode_block.ensures((block,), bc));
                }
            }
        }
        b += 1;
    }
    Ok(())
}

/// Encode a packed RGBA half-float `width × height` surface (8 bytes a
/// pixel, little-endian halves, alpha ignored) block by block in row
/// order with the block encoder `encode_block`; texels past the right or
/// bottom edge repeat the last column or row, and a surface with a zero
/// width or height reads 0 for bytes past the end of `input`.
///
/// `input` must hold `width × height × 8` bytes and `output`
/// `ceil(w/4) × ceil(h/4) × 16`; otherwise the result is `InvalidData` and
/// `output` is untouched.
pub fn encode_bc6h<F>(input: &[u8], width: u32, height: u32, output: &mut [u8], encode_block: &F) -> (r: Result<()>)
    where
        F: Fn([[u16; 3]; 16]) -> [u8; 16],
    requires
        width * height * 8 <= usize::MAX,
        block_count(width, height) * 16 <= usize::MAX,
        forall|blk: [[u16; 3]; 16]| #[trigger] encode_block.requires((blk,)),
    ensures
        !encode_lengths_ok(input@.len() as int, old(output)@.len() as int, width, height, 8, 16) ==> (
        is_invalid(r) && final(output)@ == old(output)@),
        encode_lengths_ok(input@.len() as int, old(output)@.len() as int, width, height, 8, 16) ==> (r is Ok
            && final(output)@.len() == old(output)@.len() && (forall|b: int|
            0 <= b < block_count(width, height) ==> encoded_by(
                *encode_block,
                gathered_half_rgb(input@, width, height, b % blocks_across(width), b / blocks_across(width)),
                #[trigger] out_block(final(output)@, b, 16),
            )) && (forall|j: int|
            block_count(width, height) * 16 <= j < old(output)@.len() ==> #[trigger] final(output)@[j]
                == old(output)@[j])),
{
    encode_bc6h_surface(input, width, height, output, encode_block, false)
}

/// [`encode_bc6h`] for the signed layout: the same checks, clamping and
/// placement, with a block encoder for signed half-float texels.
pub fn encode_bc6h_sf16<F>(input: &[u8], width: u32, height: u32, output: &mut [u8], encode_block: &F) -> (r: Result<()>)
    where
        F: Fn([[u16; 3]; 16]) -> [u8; 16],
    requires
        width * height * 8 <= usize::MAX,
        block_count(width, height) * 16 <= usize::MAX,
        forall|blk: [[u16; 3]; 16]| #[trigger] encode_block.requires((blk,)),
    ensures
        !encode_lengths_ok(input@.len() as int, old(output)@.len() as int, width, height, 8, 16) ==> (
        is_invalid(r) && final(output)@ == old(output)@),
        encode_lengths_ok(input@.len() as int, old(output)@.len() as int, width, height, 8, 16) ==> (r is Ok
            && final(output)@.len() == old(output)@.len() && (forall|b: int|
            0 <= b < block_count(width, height) ==> encoded_by(
                *encode_block,
                gathered_half_rgb(input@, width, height, b % blocks_across(width), b / blocks_across(width)),
                #[trigger] out_block(final(output)@, b, 16),
            )) && (forall|j: int|
            block_count(width, height) * 16 <= j < old(output)@.len() ==> #[trigger] final(output)@[j]
                == old(output)@[j])),
{
    encode_bc6h_surface(input, width, height, output, encode_block, true)
}

} // verus!
