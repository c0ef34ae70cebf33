//! BC7 block decompression to RGBA8.
//!
//! A BC7 block is 128 bits read LSB-first: a unary mode prefix, then the
//! partition / rotation / index-selection fields of the mode, the colour
//! and alpha endpoints (channel-major), the p-bits, and the colour (and,
//! in modes 4 and 5, alpha) indices, one bit shorter at each subset's
//! anchor pixel. A block with no mode bit in its first 8 bits decodes to
//! all-zero pixels.
use vstd::prelude::*;
use crate::bitfacts::{lemma_byte_bit, lemma_or_below, lemma_pow2_shifts, lemma_shl_mono};
use crate::bcn::{block_stream_len, ceil_div4, check_lengths, lengths_ok};
use crate::bc7_tables::{anchor_entry, anchor_lookup, part2, part2_entry, part3, part3_entry};
use crate::error::{DdsError, Result, is_invalid};
use crate::surface::{
    ceil4, surface_decoded, blocks_written, flat_rgba, write_rgba_block, lemma_block_step,
    lemma_all_blocks, lemma_block_offset,
};

verus! {

/// Interpolation weights of 2-bit indices.
pub const WEIGHT_2: [u32; 4] = [0, 21, 43, 64];
/// Interpolation weights of 3-bit indices.
pub const WEIGHT_3: [u32; 8] = [0, 9, 18, 27, 37, 46, 55, 64];
/// Interpolation weights of 4-bit indices.
pub const WEIGHT_4: [u32; 16] = [0, 4, 9, 13, 17, 21, 26, 30, 34, 38, 43, 47, 51, 55, 60, 64];

/// Weight of index `idx` of `bits`-bit indices.
pub open spec fn weight(bits: u32, idx: u32) -> u32 {
    if bits == 2 {
        WEIGHT_2@[idx as int]
    } else if bits == 3 {
        WEIGHT_3@[idx as int]
    } else {
        WEIGHT_4@[idx as int]
    }
}

/// Interpolate endpoint values `e0`, `e1` with the weight of `idx`:
/// `((64 - w) e0 + w e1 + 32) >> 6`.
pub open spec fn interp(e0: u8, e1: u8, idx: u32, bits: u32) -> u8 {
    let w = weight(bits, idx);
    ((((64 - w) * e0 + w * e1 + 32) as u32) >> 6u32) as u8
}

pub(crate) fn interpolate(e0: u8, e1: u8, idx: u32, idx_bits: u32) -> (r: u8)
    requires
        2 <= idx_bits <= 4,
        idx_bits == 2 ==> idx < 4,
        idx_bits == 3 ==> idx < 8,
        idx < 16,
    ensures
        r == interp(e0, e1, idx, idx_bits),
{
    let w = if idx_bits == 2 {
        WEIGHT_2[idx as usize]
    } else if idx_bits == 3 {
        WEIGHT_3[idx as usize]
    } else {
        WEIGHT_4[idx as usize]
    };
    assert(w <= 64);
    assert((64 - w) * e0 + w * e1 + 32 <= 64 * 255 + 32) by (nonlinear_arith)
        requires
            w <= 64,
            e0 <= 255,
            e1 <= 255,
    ;
    (((64 - w) * e0 as u32 + w * e1 as u32 + 32) >> 6u32) as u8
}

// ---- The bit stream -----------------------------------------------------------------

/// Bit `i` of the block, LSB-first across the bytes; 0 past bit 127.
pub open spec fn bit_at(b: Seq<u8>, i: int) -> u64 {
    if 0 <= i < 128 {
        ((b[i / 8] >> ((i % 8) as u8)) & 1u8) as u64
    } else {
        0
    }
}

/// The bits `pos..pos + n` of the block, the first one lowest.
pub open spec fn bits_acc(b: Seq<u8>, pos: int, n: int) -> u64
    decreases n,
{
    if n <= 0 {
        0
    } else {
        bits_acc(b, pos, n - 1) | (bit_at(b, pos + n - 1) << ((n - 1) as u64))
    }
}

/// The `n`-bit field at bit `pos` of the block.
pub open spec fn field(b: Seq<u8>, pos: int, n: int) -> u32 {
    bits_acc(b, pos, n) as u32
}

pub proof fn lemma_bits_acc_bound(b: Seq<u8>, pos: int, n: int)
    requires
        0 <= n <= 32,
    ensures
        bits_acc(b, pos, n) < (1u64 << (n as u64)),
        field(b, pos, n) == bits_acc(b, pos, n),
    decreases n,
{
    if n > 0 {
        lemma_bits_acc_bound(b, pos, n - 1);
        let prev = bits_acc(b, pos, n - 1);
        let bit = bit_at(b, pos + n - 1);
        let k = (n - 1) as u64;
        assert(bit <= 1) by {
            if 0 <= pos + n - 1 < 128 {
                let byte = b[(pos + n - 1) / 8];
                let sh = ((pos + n - 1) % 8) as u8;
                lemma_byte_bit();
                assert((byte >> sh) & 1u8 <= 1);
            }
        }
        lemma_or_below(prev, bit, k);
    }
    lemma_pow2_shifts();
    lemma_shl_mono();
    assert(bits_acc(b, pos, n) < (1u64 << 32u64)) by {
        let nn = n as u64;
        assert((1u64 << nn) <= (1u64 << 32u64));
    }
}

/// A bit reader over one block.
pub struct BitReader {
    pub bytes: [u8; 16],
    pub pos: u32,
}

impl BitReader {
    /// A reader at the first bit of `bytes`.
    pub fn new(bytes: &[u8; 16]) -> (r: Self)
        ensures
            r.bytes == *bytes,
            r.pos == 0,
    {
        BitReader { bytes: *bytes, pos: 0 }
    }

    /// Read the next `n` bits, the first one lowest; bits past the end of
    /// the block read as 0.
    pub fn read(&mut self, n: u32) -> (v: u32)
        requires
            n <= 32,
            old(self).pos + n <= 1024,
        ensures
            v == field(old(self).bytes@, old(self).pos as int, n as int),
            v < (1u64 << (n as u64)),
            n <= 8 ==> v < 256,
            final(self).pos == old(self).pos + n,
            final(self).bytes == old(self).bytes,
    {
        let bytes = self.bytes;
        let pos = self.pos;
        let mut out: u64 = 0;
        let mut i: u32 = 0;
        while i < n
            invariant
                i <= n <= 32,
                pos + n <= 1024,
                out == bits_acc(bytes@, pos as int, i as int),
            decreases n - i,
        {
            let bit_pos = pos + i;
            let byte = bit_pos / 8;
            let shift = bit_pos & 7;
            assert(shift == bit_pos % 8) by (bit_vector)
                requires
                    shift == bit_pos & 7,
            ;
            let b: u64 = if byte < 16 {
                ((bytes[byte as usize] >> (shift as u8)) & 1u8) as u64
            } else {
                0
            };
            assert(b == bit_at(bytes@, bit_pos as int));
            out = out | (b << (i as u64));
            i += 1;
        }
        self.pos = pos + n;
        proof {
            lemma_bits_acc_bound(bytes@, pos as int, n as int);
            let nn = n as u64;
            lemma_pow2_shifts();
            lemma_shl_mono();
            assert(nn <= 8 ==> (1u64 << nn) <= (1u64 << 8u64));
        }
        out as u32
    }
}

// ---- Modes ----------------------------------------------------------------------

/// The field layout of one BC7 mode.
#[derive(Clone, Copy)]
pub struct ModeInfo {
    /// Number of subsets (1, 2 or 3).
    pub subsets: u32,
    /// Partition selector bits (0 for single-subset modes).
    pub partition_bits: u32,
    /// Rotation bits (modes 4 and 5).
    pub rotation_bits: u32,
    /// Index-selection bits (mode 4).
    pub idx_sel_bits: u32,
    /// Bits per colour channel per endpoint.
    pub colour_bits: u32,
    /// Bits per alpha endpoint (0: alpha is 255).
    pub alpha_bits: u32,
    /// Number of p-bits.
    pub p_bits: u32,
    /// One p-bit per subset (mode 1) rather than one per endpoint.
    pub p_bits_shared: bool,
    /// Bits per primary index.
    pub idx_bits: u32,
    /// Bits per secondary (alpha) index (modes 4 and 5; 0 otherwise).
    pub idx2_bits: u32,
}

/// The layout of mode `m` (0..8).
pub open spec fn mode_spec(m: int) -> ModeInfo {
    if m == 0 {
        ModeInfo { subsets: 3, partition_bits: 4, rotation_bits: 0, idx_sel_bits: 0, colour_bits: 4, alpha_bits: 0, p_bits: 6, p_bits_shared: false, idx_bits: 3, idx2_bits: 0 }
    } else if m == 1 {
        ModeInfo { subsets: 2, partition_bits: 6, rotation_bits: 0, idx_sel_bits: 0, colour_bits: 6, alpha_bits: 0, p_bits: 2, p_bits_shared: true, idx_bits: 3, idx2_bits: 0 }
    } else if m == 2 {
        ModeInfo { subsets: 3, partition_bits: 6, rotation_bits: 0, idx_sel_bits: 0, colour_bits: 5, alpha_bits: 0, p_bits: 0, p_bits_shared: false, idx_bits: 2, idx2_bits: 0 }
    } else if m == 3 {
        ModeInfo { subsets: 2, partition_bits: 6, rotation_bits: 0, idx_sel_bits: 0, colour_bits: 7, alpha_bits: 0, p_bits: 4, p_bits_shared: false, idx_bits: 2, idx2_bits: 0 }
    } else if m == 4 {
        ModeInfo { subsets: 1, partition_bits: 0, rotation_bits: 2, idx_sel_bits: 1, colour_bits: 5, alpha_bits: 6, p_bits: 0, p_bits_shared: false, idx_bits: 2, idx2_bits: 3 }
    } else if m == 5 {
        ModeInfo { subsets: 1, partition_bits: 0, rotation_bits: 2, idx_sel_bits: 0, colour_bits: 7, alpha_bits: 8, p_bits: 0, p_bits_shared: false, idx_bits: 2, idx2_bits: 2 }
    } else if m == 6 {
        ModeInfo { subsets: 1, partition_bits: 0, rotation_bits: 0, idx_sel_bits: 0, colour_bits: 7, alpha_bits: 7, p_bits: 2, p_bits_shared: false, idx_bits: 4, idx2_bits: 0 }
    } else {
        ModeInfo { subsets: 2, partition_bits: 6, rotation_bits: 0, idx_sel_bits: 0, colour_bits: 5, alpha_bits: 5, p_bits: 4, p_bits_shared: false, idx_bits: 2, idx2_bits: 0 }
    }
}

/// The layout of mode `m`.
fn mode_info(m: u32) -> (r: ModeInfo)
    requires
        m < 8,
    ensures
        r == mode_spec(m as int),
{
    if m == 0 {
        ModeInfo { subsets: 3, partition_bits: 4, rotation_bits: 0, idx_sel_bits: 0, colour_bits: 4, alpha_bits: 0, p_bits: 6, p_bits_shared: false, idx_bits: 3, idx2_bits: 0 }
    } else if m == 1 {
        ModeInfo { subsets: 2, partition_bits: 6, rotation_bits: 0, idx_sel_bits: 0, colour_bits: 6, alpha_bits: 0, p_bits: 2, p_bits_shared: true, idx_bits: 3, idx2_bits: 0 }
    } else if m == 2 {
        ModeInfo { subsets: 3, partition_bits: 6, rotation_bits: 0, idx_sel_bits: 0, colour_bits: 5, alpha_bits: 0, p_bits: 0, p_bits_shared: false, idx_bits: 2, idx2_bits: 0 }
    } else if m == 3 {
        ModeInfo { subsets: 2, partition_bits: 6, rotation_bits: 0, idx_sel_bits: 0, colour_bits: 7, alpha_bits: 0, p_bits: 4, p_bits_shared: false, idx_bits: 2, idx2_bits: 0 }
    } else if m == 4 {
        ModeInfo { subsets: 1, partition_bits: 0, rotation_bits: 2, idx_sel_bits: 1, colour_bits: 5, alpha_bits: 6, p_bits: 0, p_bits_shared: false, idx_bits: 2, idx2_bits: 3 }
    } else if m == 5 {
        ModeInfo { subsets: 1, partition_bits: 0, rotation_bits: 2, idx_sel_bits: 0, colour_bits: 7, alpha_bits: 8, p_bits: 0, p_bits_shared: false, idx_bits: 2, idx2_bits: 2 }
    } else if m == 6 {
        ModeInfo { subsets: 1, partition_bits: 0, rotation_bits: 0, idx_sel_bits: 0, colour_bits: 7, alpha_bits: 7, p_bits: 2, p_bits_shared: false, idx_bits: 4, idx2_bits: 0 }
    } else {
        ModeInfo { subsets: 2, partition_bits: 6, rotation_bits: 0, idx_sel_bits: 0, colour_bits: 5, alpha_bits: 5, p_bits: 4, p_bits_shared: false, idx_bits: 2, idx2_bits: 0 }
    }
}

/// The mode of the block: the position of the first set bit among its
/// first 8, or 8 (reserved) when there is none.
pub open spec fn mode_from(b: Seq<u8>, m: int) -> int
    decreases 8 - m,
{
    if m >= 8 {
        8
    } else if bit_at(b, m) == 1 {
        m
    } else {
        mode_from(b, m + 1)
    }
}

/// The mode of a BC7 block (8 for the reserved encodings).
pub open spec fn bc7_mode(b: Seq<u8>) -> int {
    mode_from(b, 0)
}

// Field positions of mode `m`.

/// Position of the partition selector.
pub open spec fn partition_pos(m: int) -> int {
    m + 1
}

/// Position of the rotation field.
pub open spec fn rotation_pos(m: int) -> int {
    partition_pos(m) + mode_spec(m).partition_bits
}

/// Position of the index-selection field.
pub open spec fn idx_sel_pos(m: int) -> int {
    rotation_pos(m) + mode_spec(m).rotation_bits
}

/// Position of the first colour endpoint.
pub open spec fn endpoint_pos(m: int) -> int {
    idx_sel_pos(m) + mode_spec(m).idx_sel_bits
}

/// Number of endpoints (two per subset).
pub open spec fn endpoint_count(m: int) -> int {
    2 * mode_spec(m).subsets
}

/// Position of the p-bits.
pub open spec fn pbit_pos(m: int) -> int {
    let mi = mode_spec(m);
    endpoint_pos(m) + 3 * endpoint_count(m) * mi.colour_bits + endpoint_count(m) * mi.alpha_bits
}

/// Position of the first primary index.
pub open spec fn index_pos(m: int) -> int {
    pbit_pos(m) + mode_spec(m).p_bits
}

/// Subset of pixel `px` under partition `part`.
pub open spec fn subset_of(mi: ModeInfo, part: u32, px: int) -> u32 {
    if mi.subsets == 1 {
        0
    } else if mi.subsets == 2 {
        part2(part, px)
    } else {
        part3(part, px)
    }
}

/// Anchor pixel of subset `s` under partition `part`.
pub open spec fn anchor_of(mi: ModeInfo, part: u32, s: u32) -> u32 {
    if s == 0 {
        0
    } else {
        anchor_entry(mi.subsets, part, s)
    }
}

/// Bits of the primary index of pixel `px` (one fewer at an anchor).
pub open spec fn idx_width(mi: ModeInfo, part: u32, px: int) -> int {
    if px == anchor_of(mi, part, subset_of(mi, part, px)) {
        mi.idx_bits - 1
    } else {
        mi.idx_bits as int
    }
}

/// Bits of the primary indices of the pixels before `px`.
pub open spec fn idx_offset(mi: ModeInfo, part: u32, px: int) -> int
    decreases px,
{
    if px <= 0 {
        0
    } else {
        idx_offset(mi, part, px - 1) + idx_width(mi, part, px - 1)
    }
}

/// Bits of the secondary index of pixel `px` (one fewer at pixel 0).
pub open spec fn idx2_width(mi: ModeInfo, px: int) -> int {
    if px == 0 {
        mi.idx2_bits - 1
    } else {
        mi.idx2_bits as int
    }
}

/// Bits of the secondary indices of the pixels before `px`.
pub open spec fn idx2_offset(mi: ModeInfo, px: int) -> int
    decreases px,
{
    if px <= 0 {
        0
    } else {
        idx2_offset(mi, px - 1) + idx2_width(mi, px - 1)
    }
}

/// An `n`-bit endpoint value widened to 8 bits, with the p-bit (when
/// present) appended below it, by replicating its top bits into the low ones.
pub open spec fn expand8(value: u32, bits: u32, p: Option<u32>) -> u8 {
    let v = match p {
        Some(pb) => (value << 1u32) | (pb & 1),
        None => value,
    };
    let total = match p {
        Some(_) => (bits + 1) as u32,
        None => bits,
    };
    if total >= 8 {
        v as u8
    } else {
        let high = (v << ((8 - total) as u32)) as u8;
        high | (high >> (total as u8))
    }
}

fn expand_to_8(value: u32, bits: u32, p_bit: Option<u32>) -> (r: u8)
    requires
        1 <= bits <= 8,
        value < 256,
    ensures
        r == expand8(value, bits, p_bit),
{
    let (v, total) = match p_bit {
        Some(pb) => ((value << 1u32) | (pb & 1), bits + 1),
        None => (value, bits),
    };
    if total >= 8 {
        return v as u8;
    }
    let shift = 8 - total;
    let high = (v << shift) as u8;
    high | (high >> (total as u8))
}

/// Channel `c` (R, G, B, A) of endpoint `which` (0 or 1) of subset `s` of
/// a block in mode `m`; all-zero for a subset the mode does not have.
pub open spec fn endpoint_channel(b: Seq<u8>, m: int, s: u32, which: int, c: int) -> u8 {
    let mi = mode_spec(m);
    let n = endpoint_count(m);
    let slot = 2 * s + which;
    if s >= mi.subsets {
        0
    } else if c < 3 {
        let p = if mi.p_bits == 0 {
            None
        } else if mi.p_bits_shared {
            Some(field(b, pbit_pos(m) + s, 1))
        } else {
            Some(field(b, pbit_pos(m) + slot, 1))
        };
        expand8(field(b, endpoint_pos(m) + c * n * mi.colour_bits + slot * mi.colour_bits, mi.colour_bits as int), mi.colour_bits, p)
    } else if mi.alpha_bits > 0 {
        let p = if mi.p_bits == 0 || m == 4 || m == 5 {
            None
        } else {
            Some(field(b, pbit_pos(m) + slot, 1))
        };
        expand8(field(b, endpoint_pos(m) + 3 * n * mi.colour_bits + slot * mi.alpha_bits, mi.alpha_bits as int), mi.alpha_bits, p)
    } else {
        255
    }
}

/// Swap alpha with the channel the rotation field names (modes 4 and 5).
pub open spec fn rotated(v: [u8; 4], on: bool, r: u32) -> [u8; 4] {
    if !on || r == 0 {
        v
    } else if r == 1 {
        [v[3], v[1], v[2], v[0]]
    } else if r == 2 {
        [v[0], v[3], v[2], v[1]]
    } else {
        [v[0], v[1], v[3], v[2]]
    }
}

/// Pixel `px` (row-major) of the BC7 block `b` (mode below 8) before the
/// rotation of modes 4 and 5: the interpolated colour and alpha.
pub open spec fn bc7_unrotated_texel(b: Seq<u8>, px: int) -> [u8; 4] {
    let m = bc7_mode(b);
    let mi = mode_spec(m);
    let part = field(b, partition_pos(m), mi.partition_bits as int);
    let sel = field(b, idx_sel_pos(m), mi.idx_sel_bits as int);
    let s = subset_of(mi, part, px);
    let p = field(b, index_pos(m) + idx_offset(mi, part, px), idx_width(mi, part, px));
    let q = field(b, index_pos(m) + idx_offset(mi, part, 16) + idx2_offset(mi, px), idx2_width(mi, px));
    let ci = if m == 4 && sel != 0 { q } else { p };
    let cbits = if m == 4 { if sel == 0 { 2u32 } else { 3u32 } } else if m == 5 { 2u32 } else { mi.idx_bits };
    let ai = if m == 4 { if sel == 0 { q } else { p } } else if m == 5 { q } else { p };
    let abits = if m == 4 { if sel == 0 { 3u32 } else { 2u32 } } else if m == 5 { 2u32 } else { mi.idx_bits };
    [
        interp(endpoint_channel(b, m, s, 0, 0), endpoint_channel(b, m, s, 1, 0), ci, cbits),
        interp(endpoint_channel(b, m, s, 0, 1), endpoint_channel(b, m, s, 1, 1), ci, cbits),
        interp(endpoint_channel(b, m, s, 0, 2), endpoint_channel(b, m, s, 1, 2), ci, cbits),
        if mi.alpha_bits == 0 {
            255u8
        } else {
            interp(endpoint_channel(b, m, s, 0, 3), endpoint_channel(b, m, s, 1, 3), ai, abits)
        },
    ]
}

/// Pixel `px` (row-major) of the BC7 block `b`.
pub open spec fn bc7_texel(b: Seq<u8>, px: int) -> [u8; 4] {
    let m = bc7_mode(b);
    if m >= 8 {
        [0u8, 0u8, 0u8, 0u8]
    } else {
        let mi = mode_spec(m);
        let rot = field(b, rotation_pos(m), mi.rotation_bits as int);
        rotated(bc7_unrotated_texel(b, px), mi.rotation_bits > 0, rot)
    }
}

/// Modes 4 and 5 carry a 2-bit rotation field right after the mode bits
/// (bits 5..=6 in mode 4, 6..=7 in mode 5): 0 leaves the texel as
/// interpolated, 1 exchanges alpha with red, 2 alpha with green, 3 alpha
/// with blue. Every other mode leaves the texel as interpolated.
pub proof fn lemma_bc7_rotation(b: Seq<u8>, px: int)
    requires
        bc7_mode(b) < 8,
    ensures
        ({
            let m = bc7_mode(b);
            let u = bc7_unrotated_texel(b, px);
            let t = bc7_texel(b, px);
            let r = if m == 4 {
                field(b, 5, 2)
            } else {
                field(b, 6, 2)
            };
            &&& (m != 4 && m != 5) ==> t == u
            &&& (m == 4 || m == 5) && r == 0 ==> t == u
            &&& (m == 4 || m == 5) && r == 1 ==> t == [u[3], u[1], u[2], u[0]]
            &&& (m == 4 || m == 5) && r == 2 ==> t == [u[0], u[3], u[2], u[1]]
            &&& (m == 4 || m == 5) && r == 3 ==> t == [u[0], u[1], u[3], u[2]]
        }),
{
    let m = bc7_mode(b);
    assert(mode_spec(4).rotation_bits == 2 && mode_spec(4).partition_bits == 0);
    assert(mode_spec(5).rotation_bits == 2 && mode_spec(5).partition_bits == 0);
    assert(m != 4 && m != 5 ==> mode_spec(m).rotation_bits == 0);
    lemma_bits_acc_bound(b, if m == 4 { 5 } else { 6 }, 2);
}

// ---- Decoding ---------------------------------------------------------------------

/// The facts of the mode table the decoder relies on.
proof fn lemma_mode_layout(m: int)
    requires
        0 <= m < 8,
    ensures
        ({
            let mi = mode_spec(m);
            &&& 1 <= mi.subsets <= 3
            &&& (mi.subsets == 1) == (mi.partition_bits == 0)
            &&& mi.partition_bits <= 6
            &&& mi.rotation_bits <= 2
            &&& mi.idx_sel_bits <= 1
            &&& 4 <= mi.colour_bits <= 7
            &&& mi.alpha_bits <= 8
            &&& (mi.alpha_bits > 0) == (m >= 4)
            &&& mi.alpha_bits == 0 || mi.alpha_bits >= 5
            &&& (mi.p_bits == 0 || mi.p_bits == endpoint_count(m) || (mi.p_bits_shared && mi.p_bits == mi.subsets))
            &&& mi.p_bits_shared == (m == 1)
            &&& 2 <= mi.idx_bits <= 4
            &&& (mi.idx2_bits > 0) == (m == 4 || m == 5)
            &&& (mi.rotation_bits > 0) == (m == 4 || m == 5)
            &&& (mi.idx_sel_bits > 0) == (m == 4)
            &&& m == 4 ==> mi.idx_bits == 2 && mi.idx2_bits == 3
            &&& m == 5 ==> mi.idx_bits == 2 && mi.idx2_bits == 2
            &&& index_pos(m) + 16 * mi.idx_bits + 16 * mi.idx2_bits <= 200
        }),
{
    if m == 0 {
    } else if m == 1 {
    } else if m == 2 {
    } else if m == 3 {
    } else if m == 4 {
    } else if m == 5 {
    } else if m == 6 {
    } else {
    }
}

proof fn lemma_idx_offset_bounds(mi: ModeInfo, part: u32, px: int)
    requires
        0 <= px <= 16,
        mi.idx_bits >= 1,
    ensures
        0 <= idx_offset(mi, part, px) <= px * mi.idx_bits,
    decreases px,
{
    if px > 0 {
        lemma_idx_offset_bounds(mi, part, px - 1);
        let ib = mi.idx_bits as int;
        assert((px - 1) * ib + ib == px * ib) by (nonlinear_arith);
    }
}

proof fn lemma_idx2_offset_bounds(mi: ModeInfo, px: int)
    requires
        0 <= px <= 16,
        mi.idx2_bits >= 1,
    ensures
        0 <= idx2_offset(mi, px) <= px * mi.idx2_bits,
    decreases px,
{
    if px > 0 {
        lemma_idx2_offset_bounds(mi, px - 1);
        let ib = mi.idx2_bits as int;
        assert((px - 1) * ib + ib == px * ib) by (nonlinear_arith);
    }
}

/// Subset of pixel `px` under partition `part`.
fn partition_table(mi: &ModeInfo, partition: u32, pixel: u32) -> (s: u32)
    requires
        1 <= mi.subsets <= 3,
        mi.subsets > 1 ==> partition < 64,
        pixel < 16,
    ensures
        s == subset_of(*mi, partition, pixel as int),
{
    if mi.subsets == 1 {
        0
    } else if mi.subsets == 2 {
        part2_entry(partition, pixel)
    } else {
        part3_entry(partition, pixel)
    }
}

/// Anchor pixel of subset `s` under partition `part`.
fn anchor_index(mi: &ModeInfo, partition: u32, subset: u32) -> (a: u32)
    requires
        1 <= mi.subsets <= 3,
        partition < 64,
    ensures
        a == anchor_of(*mi, partition, subset),
{
    if subset == 0 {
        return 0;
    }
    anchor_lookup(mi.subsets, partition, subset)
}

pub proof fn lemma_field_one(b: Seq<u8>, pos: int)
    ensures
        field(b, pos, 1) == bit_at(b, pos),
        bit_at(b, pos) <= 1,
{
    reveal_with_fuel(bits_acc, 2);
    let x = bit_at(b, pos);
    assert(x <= 1) by {
        if 0 <= pos < 128 {
            let byte = b[pos / 8];
            let sh = (pos % 8) as u8;
            lemma_byte_bit();
            assert((byte >> sh) & 1u8 <= 1);
        }
    }
    assert(x <= 1 ==> (0u64 | (x << 0u64)) as u32 == x) by (bit_vector);
}

/// Read the unary mode prefix: the mode and, for a real mode, the reader
/// just past it.
fn read_mode(br: &mut BitReader) -> (mode: u32)
    requires
        old(br).pos == 0,
    ensures
        final(br).bytes == old(br).bytes,
        mode == bc7_mode(old(br).bytes@),
        mode < 8 ==> final(br).pos == mode + 1,
{
    let ghost b = br.bytes@;
    let mut mode: u32 = 8;
    let mut m: u32 = 0;
    while mode == 8 && m < 8
        invariant
            br.bytes@ == b,
            m <= 8,
            mode == 8 ==> br.pos == m && mode_from(b, 0) == mode_from(b, m as int),
            mode != 8 ==> mode < 8 && mode == mode_from(b, 0) && br.pos == mode + 1,
        decreases 8 - m + (if mode == 8 { 1int } else { 0int }),
    {
        let bit = br.read(1);
        proof {
            lemma_field_one(b, m as int);
        }
        if bit == 1 {
            mode = m;
        } else {
            m += 1;
        }
    }
    mode
}

/// The raw endpoint fields of a block: the colour channels, the alpha
/// channel (zeros when the mode has none) and the p-bits.
pub struct RawEndpoints {
    pub r: [u32; 6],
    pub g: [u32; 6],
    pub b: [u32; 6],
    pub a: [u32; 6],
    pub p: [u32; 6],
}

/// `n` consecutive `bits`-bit fields read into `out[0..n]`.
fn read_fields(br: &mut BitReader, n: usize, bits: u32) -> (out: [u32; 6])
    requires
        n <= 6,
        bits <= 8,
        old(br).pos + n * bits <= 1024,
    ensures
        final(br).bytes == old(br).bytes,
        final(br).pos == old(br).pos + n * bits,
        forall|k: int| 0 <= k < n ==> #[trigger] out@[k] == field(old(br).bytes@, old(br).pos + k * bits, bits as int),
        forall|k: int| 0 <= k < n ==> #[trigger] out@[k] < 256,
{
    let ghost start = br.pos;
    let mut out = [0u32; 6];
    let mut k: usize = 0;
    while k < n
        invariant
            n <= 6,
            bits <= 8,
            k <= n,
            br.bytes == old(br).bytes,
            start == old(br).pos,
            start + n * bits <= 1024,
            br.pos == start + k * bits,
            forall|j: int| 0 <= j < k ==> #[trigger] out@[j] == field(old(br).bytes@, start + j * bits, bits as int),
            forall|j: int| 0 <= j < k ==> #[trigger] out@[j] < 256,
        decreases n - k,
    {
        proof {
            assert(start + k * bits + bits <= start + n * bits) by (nonlinear_arith)
                requires
                    k < n,
            ;
        }
        out[k] = br.read(bits);
        proof {
            assert(start + (k + 1) * bits == start + k * bits + bits) by (nonlinear_arith);
        }
        k += 1;
    }
    out
}

/// The two 8-bit endpoints of one subset.
#[derive(Clone, Copy)]
pub struct Endpoints {
    pub e0: [u8; 4],
    pub e1: [u8; 4],
}

/// The raw fields of a block in mode `mode` are those of `block`.
pub open spec fn raw_matches(block: Seq<u8>, mode: int, raw: RawEndpoints) -> bool {
    let mi = mode_spec(mode);
    let n = endpoint_count(mode);
    let cb = mi.colour_bits;
    &&& forall|k: int|
        0 <= k < n ==> {
            &&& #[trigger] raw.r@[k] == field(block, endpoint_pos(mode) + k * cb, cb as int)
            &&& raw.g@[k] == field(block, endpoint_pos(mode) + n * cb + k * cb, cb as int)
            &&& raw.b@[k] == field(block, endpoint_pos(mode) + 2 * n * cb + k * cb, cb as int)
            &&& raw.a@[k] == field(block, endpoint_pos(mode) + 3 * n * cb + k * mi.alpha_bits, mi.alpha_bits as int)
            &&& raw.r@[k] < 256 && raw.g@[k] < 256 && raw.b@[k] < 256 && raw.a@[k] < 256
        }
    &&& forall|k: int| 0 <= k < mi.p_bits ==> #[trigger] raw.p@[k] == field(block, pbit_pos(mode) + k, 1)
}

/// Expand the raw endpoint fields of subset `s`.
fn subset_endpoints(block: &[u8; 16], mode: u32, mi: &ModeInfo, raw: &RawEndpoints, s: usize) -> (ep: Endpoints)
    requires
        mode < 8,
        *mi == mode_spec(mode as int),
        raw_matches(block@, mode as int, *raw),
        s < mi.subsets,
    ensures
        forall|c: int| 0 <= c < 4 ==> #[trigger] ep.e0@[c] == endpoint_channel(block@, mode as int, s as u32, 0, c),
        forall|c: int| 0 <= c < 4 ==> #[trigger] ep.e1@[c] == endpoint_channel(block@, mode as int, s as u32, 1, c),
{
    proof {
        lemma_mode_layout(mode as int);
    }
    let ghost b = block@;
    let ghost m = mode as int;
    let i0 = s * 2;
    let i1 = s * 2 + 1;
    proof {
        let n = endpoint_count(m);
        let cb = mi.colour_bits;
        assert(raw.r@[i0 as int] == field(b, endpoint_pos(m) + 0 * n * cb + (2 * s) * cb, cb as int));
        assert(raw.r@[i1 as int] == field(b, endpoint_pos(m) + 0 * n * cb + (2 * s + 1) * cb, cb as int));
        assert(raw.g@[i0 as int] == field(b, endpoint_pos(m) + 1 * n * cb + (2 * s) * cb, cb as int));
        assert(raw.g@[i1 as int] == field(b, endpoint_pos(m) + 1 * n * cb + (2 * s + 1) * cb, cb as int));
    }
    let (p0, p1): (Option<u32>, Option<u32>) = if mi.p_bits == 0 {
        (None, None)
    } else if mi.p_bits_shared {
        (Some(raw.p[s]), Some(raw.p[s]))
    } else {
        (Some(raw.p[i0]), Some(raw.p[i1]))
    };
    let mut e0 = [0u8; 4];
    let mut e1 = [0u8; 4];
    e0[0] = expand_to_8(raw.r[i0], mi.colour_bits, p0);
    e0[1] = expand_to_8(raw.g[i0], mi.colour_bits, p0);
    e0[2] = expand_to_8(raw.b[i0], mi.colour_bits, p0);
    e1[0] = expand_to_8(raw.r[i1], mi.colour_bits, p1);
    e1[1] = expand_to_8(raw.g[i1], mi.colour_bits, p1);
    e1[2] = expand_to_8(raw.b[i1], mi.colour_bits, p1);
    if mi.alpha_bits > 0 {
        let (ap0, ap1): (Option<u32>, Option<u32>) = if mi.p_bits == 0 || mode == 4 || mode == 5 {
            (None, None)
        } else {
            (Some(raw.p[i0]), Some(raw.p[i1]))
        };
        e0[3] = expand_to_8(raw.a[i0], mi.alpha_bits, ap0);
        e1[3] = expand_to_8(raw.a[i1], mi.alpha_bits, ap1);
    } else {
        e0[3] = 255;
        e1[3] = 255;
    }
    proof {
        assert forall|c: int| 0 <= c < 4 implies #[trigger] e0@[c] == endpoint_channel(b, m, s as u32, 0, c) by {
            if c == 0 {
            } else if c == 1 {
            } else if c == 2 {
            } else {
            }
        }
        assert forall|c: int| 0 <= c < 4 implies #[trigger] e1@[c] == endpoint_channel(b, m, s as u32, 1, c) by {
            if c == 0 {
            } else if c == 1 {
            } else if c == 2 {
            } else {
            }
        }
    }
    Endpoints { e0, e1 }
}

/// Expand the raw endpoint fields of every subset of a block in mode
/// `mode`; subsets the mode does not have stay all-zero.
fn build_endpoints(block: &[u8; 16], mode: u32, mi: &ModeInfo, raw: &RawEndpoints) -> (eps: [Endpoints; 3])
    requires
        mode < 8,
        *mi == mode_spec(mode as int),
        raw_matches(block@, mode as int, *raw),
    ensures
        forall|s: int, c: int|
            0 <= s < 3 && 0 <= c < 4 ==> #[trigger] eps@[s].e0@[c] == endpoint_channel(block@, mode as int, s as u32, 0, c),
        forall|s: int, c: int|
            0 <= s < 3 && 0 <= c < 4 ==> #[trigger] eps@[s].e1@[c] == endpoint_channel(block@, mode as int, s as u32, 1, c),
{
    proof {
        lemma_mode_layout(mode as int);
    }
    let z = Endpoints { e0: [0u8; 4], e1: [0u8; 4] };
    let ep0 = subset_endpoints(block, mode, mi, raw, 0);
    let ep1 = if mi.subsets > 1 {
        subset_endpoints(block, mode, mi, raw, 1)
    } else {
        z
    };
    let ep2 = if mi.subsets > 2 {
        subset_endpoints(block, mode, mi, raw, 2)
    } else {
        z
    };
    let eps = [ep0, ep1, ep2];
    proof {
        assert forall|s: int, c: int| 0 <= s < 3 && 0 <= c < 4 implies #[trigger] eps@[s].e0@[c]
            == endpoint_channel(block@, mode as int, s as u32, 0, c) by {
            if s == 0 {
            } else if s == 1 {
            } else {
            }
        }
        assert forall|s: int, c: int| 0 <= s < 3 && 0 <= c < 4 implies #[trigger] eps@[s].e1@[c]
            == endpoint_channel(block@, mode as int, s as u32, 1, c) by {
            if s == 0 {
            } else if s == 1 {
            } else {
            }
        }
    }
    eps
}

pub proof fn lemma_field_zero(b: Seq<u8>, pos: int)
    ensures
        field(b, pos, 0) == 0,
{
}

/// Read the raw endpoint fields and p-bits of a block in mode `mode`.
fn read_raw_endpoints(br: &mut BitReader, mode: u32, mi: &ModeInfo) -> (raw: RawEndpoints)
    requires
        mode < 8,
        *mi == mode_spec(mode as int),
        old(br).pos == endpoint_pos(mode as int),
    ensures
        final(br).bytes == old(br).bytes,
        final(br).pos == index_pos(mode as int),
        raw_matches(old(br).bytes@, mode as int, raw),
{
    proof {
        lemma_mode_layout(mode as int);
    }
    let ghost b = br.bytes@;
    let ghost m = mode as int;
    let n = mi.subsets as usize * 2;
    let cb = mi.colour_bits;
    assert(n * cb <= 42) by (nonlinear_arith)
        requires
            n <= 6,
            cb <= 7,
    ;
    assert(2 * n * cb == n * cb + n * cb && 3 * n * cb == n * cb + n * cb + n * cb) by (nonlinear_arith);
    assert(n == endpoint_count(m));
    let r = read_fields(br, n, cb);
    let g = read_fields(br, n, cb);
    let bl = read_fields(br, n, cb);
    let a = if mi.alpha_bits > 0 {
        assert(n * mi.alpha_bits <= 48) by (nonlinear_arith)
            requires
                n <= 6,
                mi.alpha_bits <= 8,
        ;
        read_fields(br, n, mi.alpha_bits)
    } else {
        [0u32; 6]
    };
    assert(n * mi.alpha_bits == endpoint_count(m) * mi.alpha_bits);
    assert(mi.alpha_bits == 0 ==> n * mi.alpha_bits == 0) by (nonlinear_arith);
    assert(br.pos == pbit_pos(m));
    let p = read_fields(br, mi.p_bits as usize, 1);
    assert(forall|k: int| 0 <= k < mi.p_bits ==> #[trigger] p@[k] == field(b, pbit_pos(m) + k, 1)) by {
        assert forall|k: int| 0 <= k < mi.p_bits implies #[trigger] p@[k] == field(b, pbit_pos(m) + k, 1) by {
            assert(k * 1 == k);
        }
    }
    let raw = RawEndpoints { r, g, b: bl, a, p };
    proof {
        assert forall|k: int| 0 <= k < n implies raw.a@[k] == field(b, endpoint_pos(m) + 3 * n * cb + k * mi.alpha_bits, mi.alpha_bits as int) && raw.a@[k] < 256 by {
            if mi.alpha_bits == 0 {
                lemma_field_zero(b, endpoint_pos(m) + 3 * n * cb + k * mi.alpha_bits);
            }
        }
        assert(raw_matches(b, m, raw));
    }
    raw
}

/// Read the 16 primary indices (one bit shorter at each subset's anchor).
fn read_primary_indices(br: &mut BitReader, mode: u32, mi: &ModeInfo, partition: u32) -> (idx: [u32; 16])
    requires
        mode < 8,
        *mi == mode_spec(mode as int),
        mi.subsets > 1 ==> partition < 64,
        partition < 64,
        old(br).pos == index_pos(mode as int),
    ensures
        final(br).bytes == old(br).bytes,
        final(br).pos == index_pos(mode as int) + idx_offset(*mi, partition, 16),
        forall|px: int| 0 <= px < 16 ==> #[trigger] idx@[px] == field(old(br).bytes@, index_pos(mode as int) + idx_offset(*mi, partition, px), idx_width(*mi, partition, px)),
        forall|px: int| 0 <= px < 16 ==> (#[trigger] idx@[px] as u64) < (1u64 << (mi.idx_bits as u64)),
{
    proof {
        lemma_mode_layout(mode as int);
        lemma_idx_offset_bounds(*mi, partition, 16);
    }
    let ghost b = br.bytes@;
    let ghost base = index_pos(mode as int);
    let mut idx = [0u32; 16];
    let mut px: u32 = 0;
    while px < 16
        invariant
            px <= 16,
            br.bytes@ == b,
            b == old(br).bytes@,
            *mi == mode_spec(mode as int),
            1 <= mi.subsets <= 3,
            2 <= mi.idx_bits <= 4,
            partition < 64,
            base == index_pos(mode as int),
            base + 16 * mi.idx_bits <= 200,
            br.pos == base + idx_offset(*mi, partition, px as int),
            forall|q: int| 0 <= q < px ==> #[trigger] idx@[q] == field(b, base + idx_offset(*mi, partition, q), idx_width(*mi, partition, q)),
            forall|q: int| 0 <= q < px ==> (#[trigger] idx@[q] as u64) < (1u64 << (mi.idx_bits as u64)),
        decreases 16 - px,
    {
        proof {
            lemma_idx_offset_bounds(*mi, partition, px as int);
            assert(px * mi.idx_bits <= 16 * mi.idx_bits) by (nonlinear_arith)
                requires
                    px <= 16,
            ;
        }
        let s = partition_table(mi, partition, px);
        let anchor = anchor_index(mi, partition, s);
        let nbits = if px == anchor {
            mi.idx_bits - 1
        } else {
            mi.idx_bits
        };
        let v = br.read(nbits);
        proof {
            let ib = mi.idx_bits as u64;
            let nb = nbits as u64;
            lemma_shl_mono();
            assert((1u64 << nb) <= (1u64 << ib));
        }
        idx[px as usize] = v;
        px += 1;
    }
    idx
}

/// Read the 16 secondary (alpha) indices of modes 4 and 5 (one bit shorter
/// at pixel 0).
fn read_secondary_indices(br: &mut BitReader, mi: &ModeInfo) -> (idx: [u32; 16])
    requires
        2 <= mi.idx2_bits <= 3,
        old(br).pos + 16 * mi.idx2_bits <= 200,
    ensures
        final(br).bytes == old(br).bytes,
        forall|px: int| 0 <= px < 16 ==> #[trigger] idx@[px] == field(old(br).bytes@, old(br).pos + idx2_offset(*mi, px), idx2_width(*mi, px)),
        forall|px: int| 0 <= px < 16 ==> (#[trigger] idx@[px] as u64) < (1u64 << (mi.idx2_bits as u64)),
{
    let ghost b = br.bytes@;
    let ghost base = br.pos as int;
    let mut idx = [0u32; 16];
    let mut px: u32 = 0;
    while px < 16
        invariant
            px <= 16,
            br.bytes@ == b,
            b == old(br).bytes@,
            base == old(br).pos,
            2 <= mi.idx2_bits <= 3,
            base + 16 * mi.idx2_bits <= 200,
            br.pos == base + idx2_offset(*mi, px as int),
            forall|q: int| 0 <= q < px ==> #[trigger] idx@[q] == field(b, base + idx2_offset(*mi, q), idx2_width(*mi, q)),
            forall|q: int| 0 <= q < px ==> (#[trigger] idx@[q] as u64) < (1u64 << (mi.idx2_bits as u64)),
        decreases 16 - px,
    {
        proof {
            lemma_idx2_offset_bounds(*mi, px as int);
            assert(px * mi.idx2_bits <= 16 * mi.idx2_bits) by (nonlinear_arith)
                requires
                    px <= 16,
            ;
        }
        let nbits = if px == 0 {
            mi.idx2_bits - 1
        } else {
            mi.idx2_bits
        };
        let v = br.read(nbits);
        proof {
            let ib = mi.idx2_bits as u64;
            let nb = nbits as u64;
            lemma_shl_mono();
            assert((1u64 << nb) <= (1u64 << ib));
        }
        idx[px as usize] = v;
        px += 1;
    }
    idx
}

/// Pixel `px` of a block in mode `mode` from its decoded fields.
fn bc7_pixel(
    block: &[u8; 16],
    mode: u32,
    mi: &ModeInfo,
    partition: u32,
    rotation: u32,
    idx_sel: u32,
    endpoints: &[Endpoints; 3],
    p: u32,
    q: u32,
    px: u32,
) -> (rgba: [u8; 4])
    requires
        mode < 8,
        bc7_mode(block@) == mode,
        *mi == mode_spec(mode as int),
        px < 16,
        partition < 64,
        partition == field(block@, partition_pos(mode as int), mi.partition_bits as int),
        rotation == field(block@, rotation_pos(mode as int), mi.rotation_bits as int),
        idx_sel == field(block@, idx_sel_pos(mode as int), mi.idx_sel_bits as int),
        (mi.rotation_bits > 0) ==> rotation < 4,
        forall|s: int, c: int|
            0 <= s < 3 && 0 <= c < 4 ==> #[trigger] endpoints@[s].e0@[c] == endpoint_channel(block@, mode as int, s as u32, 0, c),
        forall|s: int, c: int|
            0 <= s < 3 && 0 <= c < 4 ==> #[trigger] endpoints@[s].e1@[c] == endpoint_channel(block@, mode as int, s as u32, 1, c),
        p == field(block@, index_pos(mode as int) + idx_offset(*mi, partition, px as int), idx_width(*mi, partition, px as int)),
        (p as u64) < (1u64 << (mi.idx_bits as u64)),
        q == field(block@, index_pos(mode as int) + idx_offset(*mi, partition, 16) + idx2_offset(*mi, px as int), idx2_width(*mi, px as int)),
        mi.idx2_bits > 0 ==> (q as u64) < (1u64 << (mi.idx2_bits as u64)),
    ensures
        rgba == bc7_texel(block@, px as int),
{
    proof {
        lemma_mode_layout(mode as int);
        lemma_pow2_shifts();
    }
    let ghost b = block@;
    let ghost m = mode as int;
    let s = partition_table(mi, partition, px);
    let zero = Endpoints { e0: [0u8; 4], e1: [0u8; 4] };
    let ep = if s < 3 {
        endpoints[s as usize]
    } else {
        zero
    };
    proof {
        assert forall|c: int| 0 <= c < 4 implies #[trigger] ep.e0@[c] == endpoint_channel(b, m, s, 0, c)
            && ep.e1@[c] == endpoint_channel(b, m, s, 1, c) by {
            if s < 3 {
                assert(endpoints@[s as int].e0@[c] == endpoint_channel(b, m, (s as int) as u32, 0, c));
                assert(endpoints@[s as int].e1@[c] == endpoint_channel(b, m, (s as int) as u32, 1, c));
            }
        }
    }
    let (colour_idx, colour_bits, alpha_idx, alpha_bits) = if mode == 4 {
        if idx_sel == 0 {
            (p, 2u32, q, 3u32)
        } else {
            (q, 3u32, p, 2u32)
        }
    } else if mode == 5 {
        (p, 2u32, q, 2u32)
    } else {
        (p, mi.idx_bits, p, mi.idx_bits)
    };
    let e0 = ep.e0;
    let e1 = ep.e1;
    let mut rgba = [
        interpolate(e0[0], e1[0], colour_idx, colour_bits),
        interpolate(e0[1], e1[1], colour_idx, colour_bits),
        interpolate(e0[2], e1[2], colour_idx, colour_bits),
        if mi.alpha_bits == 0 {
            255
        } else {
            interpolate(e0[3], e1[3], alpha_idx, alpha_bits)
        },
    ];
    let ghost before = rgba;
    if mi.rotation_bits > 0 {
        if rotation == 1 {
            let t = rgba[0];
            rgba[0] = rgba[3];
            rgba[3] = t;
        } else if rotation == 2 {
            let t = rgba[1];
            rgba[1] = rgba[3];
            rgba[3] = t;
        } else if rotation == 3 {
            let t = rgba[2];
            rgba[2] = rgba[3];
            rgba[3] = t;
        }
    }
    proof {
        assert(rgba =~= rotated(before, mi.rotation_bits > 0, rotation));
        assert(before =~= [
            interp(endpoint_channel(b, m, s, 0, 0), endpoint_channel(b, m, s, 1, 0), colour_idx, colour_bits),
            interp(endpoint_channel(b, m, s, 0, 1), endpoint_channel(b, m, s, 1, 1), colour_idx, colour_bits),
            interp(endpoint_channel(b, m, s, 0, 2), endpoint_channel(b, m, s, 1, 2), colour_idx, colour_bits),
            if mi.alpha_bits == 0 {
                255u8
            } else {
                interp(endpoint_channel(b, m, s, 0, 3), endpoint_channel(b, m, s, 1, 3), alpha_idx, alpha_bits)
            },
        ]);
    }
    rgba
}

/// Decode a single BC7 16-byte block into 16 RGBA8 pixels (row-major).
pub fn decode_bc7_block(block: &[u8; 16]) -> (out: [[u8; 4]; 16])
    ensures
        forall|px: int| 0 <= px < 16 ==> #[trigger] out@[px] == bc7_texel(block@, px),
{
    let ghost b = block@;
    let mut br = BitReader::new(block);
    let mode = read_mode(&mut br);
    if mode >= 8 {
        let out = [[0u8; 4]; 16];
        assert forall|px: int| 0 <= px < 16 implies #[trigger] out@[px] == bc7_texel(b, px) by {
            assert(out@[px] =~= [0u8, 0u8, 0u8, 0u8]);
        }
        return out;
    }
    proof {
        lemma_mode_layout(mode as int);
    }
    let ghost m = mode as int;
    let mi = mode_info(mode);
    let partition = if mi.partition_bits > 0 {
        br.read(mi.partition_bits)
    } else {
        0
    };
    proof {
        if mi.partition_bits == 0 {
            lemma_field_zero(b, partition_pos(m));
        }
        let pb = mi.partition_bits as u64;
        lemma_pow2_shifts();
        lemma_shl_mono();
        assert(pb <= 6 ==> (1u64 << pb) <= (1u64 << 6u64));
    }
    assert(partition == field(b, partition_pos(m), mi.partition_bits as int));
    assert(partition < 64);
    let rotation = if mi.rotation_bits > 0 {
        br.read(mi.rotation_bits)
    } else {
        0
    };
    proof {
        if mi.rotation_bits == 0 {
            lemma_field_zero(b, rotation_pos(m));
        }
    }
    let idx_sel = if mi.idx_sel_bits > 0 {
        br.read(mi.idx_sel_bits)
    } else {
        0
    };
    proof {
        if mi.idx_sel_bits == 0 {
            lemma_field_zero(b, idx_sel_pos(m));
        }
        lemma_pow2_shifts();
    }
    let raw = read_raw_endpoints(&mut br, mode, &mi);
    let endpoints = build_endpoints(block, mode, &mi, &raw);
    let idx_primary = read_primary_indices(&mut br, mode, &mi, partition);
    proof {
        lemma_idx_offset_bounds(mi, partition, 16);
    }
    let ghost idx2_base = br.pos as int;
    let idx_secondary = if mi.idx2_bits > 0 {
        read_secondary_indices(&mut br, &mi)
    } else {
        [0u32; 16]
    };
    proof {
        assert forall|px: int| 0 <= px < 16 implies #[trigger] idx_secondary@[px] == field(b, idx2_base + idx2_offset(mi, px), idx2_width(mi, px)) by {
            if mi.idx2_bits == 0 {
                assert(idx2_width(mi, px) <= 0);
            }
        }
    }
    let mut out = [[0u8; 4]; 16];
    let mut px: usize = 0;
    while px < 16
        invariant
            px <= 16,
            b == block@,
            m == mode,
            mode < 8,
            bc7_mode(b) == m,
            mi == mode_spec(m),
            partition < 64,
            partition == field(b, partition_pos(m), mi.partition_bits as int),
            rotation == field(b, rotation_pos(m), mi.rotation_bits as int),
            idx_sel == field(b, idx_sel_pos(m), mi.idx_sel_bits as int),
            (mi.rotation_bits > 0) ==> rotation < 4,
            (mi.idx_sel_bits > 0) ==> idx_sel < 2,
            idx2_base == index_pos(m) + idx_offset(mi, partition, 16),
            forall|s: int, c: int|
                0 <= s < 3 && 0 <= c < 4 ==> #[trigger] endpoints@[s].e0@[c] == endpoint_channel(b, m, s as u32, 0, c),
            forall|s: int, c: int|
                0 <= s < 3 && 0 <= c < 4 ==> #[trigger] endpoints@[s].e1@[c] == endpoint_channel(b, m, s as u32, 1, c),
            forall|q: int| 0 <= q < 16 ==> #[trigger] idx_primary@[q] == field(b, index_pos(m) + idx_offset(mi, partition, q), idx_width(mi, partition, q)),
            forall|q: int| 0 <= q < 16 ==> (#[trigger] idx_primary@[q] as u64) < (1u64 << (mi.idx_bits as u64)),
            forall|q: int| 0 <= q < 16 ==> #[trigger] idx_secondary@[q] == field(b, idx2_base + idx2_offset(mi, q), idx2_width(mi, q)),
            mi.idx2_bits > 0 ==> forall|q: int| 0 <= q < 16 ==> (#[trigger] idx_secondary@[q] as u64) < (1u64 << (mi.idx2_bits as u64)),
            forall|q: int| 0 <= q < px ==> #[trigger] out@[q] == bc7_texel(b, q),
        decreases 16 - px,
    {
        let rgba = bc7_pixel(block, mode, &mi, partition, rotation, idx_sel, &endpoints, idx_primary[px], idx_secondary[px], px as u32);
        out[px] = rgba;
        px += 1;
    }
    out
}

/// The 16 bytes at `off`.
pub fn read_block16(input: &[u8], off: usize) -> (b: [u8; 16])
    requires
        off + 16 <= input@.len(),
    ensures
        b@ == input@.subrange(off as int, off + 16),
{
    let in_len = input.len();
    let mut b = [0u8; 16];
    let mut k: usize = 0;
    while k < 16
        invariant
            k <= 16,
            in_len == input@.len(),
            off + 16 <= input@.len(),
            forall|j: int| 0 <= j < k ==> #[trigger] b@[j] == input@[off + j],
        decreases 16 - k,
    {
        b[k] = input[off + k];
        k += 1;
    }
    assert(b@ =~= input@.subrange(off as int, off + 16));
    b
}

/// RGBA texels of every block of a BC7 stream (block `b` at bytes `16b..16b+16`).
pub open spec fn bc7_stream_texels(input: Seq<u8>) -> spec_fn(int) -> Seq<u8> {
    |b: int| flat_rgba(Seq::new(16, |t: int| bc7_texel(input.subrange(16 * b, 16 * b + 16), t)))
}

/// Decode a BC7 surface to RGBA8. `input` must hold
/// `ceil(w/4) × ceil(h/4) × 16` bytes and `output` `w × h × 4` bytes;
/// otherwise the result is `InvalidData` and `output` is untouched.
pub fn decode_bc7(input: &[u8], width: u32, height: u32, output: &mut [u8]) -> (r: Result<()>)
    ensures
        lengths_ok(input@.len() as int, old(output)@.len() as int, width, height, 16, 4) ==> (r is Ok
            && surface_decoded(
            final(output)@,
            old(output)@,
            width as int,
            height as int,
            4,
            bc7_stream_texels(input@),
        )),
        !lengths_ok(input@.len() as int, old(output)@.len() as int, width, height, 16, 4) ==> (
        is_invalid(r) && final(output)@ == old(output)@),
{
    if !check_lengths(input.len(), output.len(), width, height, 16, 4) {
        return Err(DdsError::invalid("BC7: input or output shorter than the surface"));
    }
    let ghost blocks = bc7_stream_texels(input@);
    let ghost orig = output@;
    let bw = ceil_div4(width);
    let bh = ceil_div4(height);
    proof {
        assert(0 * bw == 0);
        assert forall|j: int| 0 <= j < output@.len() implies #[trigger] output@[j] == (if j < width * height * 4
            && crate::surface::block_of(j, width as int, 4) < 0 {
            crate::surface::decoded_byte(blocks, j, width as int, 4)
        } else {
            orig[j]
        }) by {
            if j < width * height * 4 {
                crate::surface::lemma_in_surface(j, width as int, height as int, 4);
            }
        }
    }
    let mut by: usize = 0;
    while by < bh
        invariant
            crate::bcn::block_loop(width, height, bw, bh),
            lengths_ok(input@.len() as int, orig.len() as int, width, height, 16, 4),
            input@.len() <= usize::MAX,
            by <= bh,
            blocks == bc7_stream_texels(input@),
            blocks_written(output@, orig, width as int, height as int, 4, blocks, by * bw),
        decreases bh - by,
    {
        let mut bx: usize = 0;
        while bx < bw
            invariant
                crate::bcn::block_loop(width, height, bw, bh),
                lengths_ok(input@.len() as int, orig.len() as int, width, height, 16, 4),
                input@.len() <= usize::MAX,
                by < bh,
                bx <= bw,
                blocks == bc7_stream_texels(input@),
                blocks_written(output@, orig, width as int, height as int, 4, blocks, by * bw + bx),
            decreases bw - bx,
        {
            proof {
                lemma_block_offset(bx as int, by as int, bw as int, bh as int, 16);
            }
            let off = (by * bw + bx) * 16;
            let block = read_block16(input, off);
            let pixels = decode_bc7_block(&block);
            let ghost before = output@;
            write_rgba_block(&pixels, bx, by, width, height, output);
            proof {
                let b = by * bw + bx;
                assert(block@ =~= input@.subrange(16 * b, 16 * b + 16));
                assert(flat_rgba(pixels@) =~= blocks(b));
                lemma_block_step(before, output@, orig, width as int, height as int, 4, blocks, b);
            }
            bx += 1;
        }
        assert((by + 1) * bw == by * bw + bw) by (nonlinear_arith);
        by += 1;
    }
    proof {
        assert(bh * bw == bw * bh) by (nonlinear_arith);
        lemma_all_blocks(output@, orig, width as int, height as int, 4, blocks);
    }
    Ok(())
}

} // verus!
