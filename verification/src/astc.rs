//! ASTC LDR block decompression to RGBA8.
//!
//! Each block is 128 bits covering a `block_w × block_h` footprint (4×4 up
//! to 12×12). The low 11 bits select the block mode (weight grid, weight
//! range, dual plane) or mark a void-extent constant-colour block; bits
//! 11..12 hold the partition count minus one; then come the partition
//! seed and the colour endpoint modes, the colour endpoint integer
//! sequence, and, read downward from bit 127, the weight sequence.
//! Illegal blocks and HDR content yield the error colour, opaque magenta
//! `(255, 0, 255, 255)`, for every texel.
use vstd::prelude::*;
use crate::astc_ise::{
    bit_of, decode_ise, ise_bits_for_count, ise_range, ise_range_spec, ise_value, small_pow2,
    stream_field, unquant_color, unquant_color_spec, unquant_weight, unquant_weight_spec,
    weight_range, weight_range_spec, IseRange, StreamReader, WeightRange,
};
use crate::bitfacts::lemma_masks;
use vstd::wrapping::u32_specs;

verus! {

/// The error colour: opaque, fully saturated magenta.
pub const ERROR_COLOR: [u8; 4] = [255, 0, 255, 255];

/// The fourteen 2D footprints of the LDR profile, as `(width, height)`.
pub const LDR_BLOCK_FOOTPRINTS: [(u8, u8); 14] = [
    (4, 4),
    (5, 4),
    (5, 5),
    (6, 5),
    (6, 6),
    (8, 5),
    (8, 6),
    (8, 8),
    (10, 5),
    (10, 6),
    (10, 8),
    (10, 10),
    (12, 10),
    (12, 12),
];

/// `(w, h)` is one of the LDR footprints.
pub open spec fn valid_footprint(w: u8, h: u8) -> bool {
    exists|i: int| 0 <= i < 14 && #[trigger] LDR_BLOCK_FOOTPRINTS@[i] == (w, h)
}

/// True if `(w, h)` is one of the supported LDR 2D footprints.
pub fn is_valid_footprint(w: u8, h: u8) -> (r: bool)
    ensures
        r == valid_footprint(w, h),
{
    let mut i: usize = 0;
    while i < 14
        invariant
            i <= 14,
            forall|j: int| 0 <= j < i ==> #[trigger] LDR_BLOCK_FOOTPRINTS@[j] != (w, h),
        decreases 14 - i,
    {
        if LDR_BLOCK_FOOTPRINTS[i].0 == w && LDR_BLOCK_FOOTPRINTS[i].1 == h {
            assert(LDR_BLOCK_FOOTPRINTS@[i as int] == (w, h));
            return true;
        }
        i += 1;
    }
    false
}

/// The footprint table lists blocks from 4×4 to 12×12.
pub proof fn lemma_footprint_bounds(w: u8, h: u8)
    requires
        valid_footprint(w, h),
    ensures
        4 <= w <= 12,
        4 <= h <= 12,
{
    let i = choose|i: int| 0 <= i < 14 && #[trigger] LDR_BLOCK_FOOTPRINTS@[i] == (w, h);
    assert(LDR_BLOCK_FOOTPRINTS@[i] == (w, h));
}

// ---- Block bits -----------------------------------------------------------------------

/// The `n`-bit field at block bit `lo` (bits past 127 read as 0).
pub open spec fn block_field(b: Seq<u8>, lo: int, n: int) -> u32 {
    stream_field(b, 0, false, lo, n)
}

/// [`block_field`].
fn block_bits(data: &[u8; 16], lo: u32, count: u32) -> (v: u32)
    requires
        lo <= 256,
        count <= 32,
    ensures
        v == block_field(data@, lo as int, count as int),
        (v as u64) < (1u64 << (count as u64)),
{
    let mut sr = StreamReader { bytes: *data, start: 0, rev: false, pos: lo };
    sr.read(count)
}

// ---- Block modes --------------------------------------------------------------------

/// The weight grid, dual-plane flag and weight range of a normal block.
#[derive(Clone, Copy, PartialEq, Eq, Structural, Debug)]
pub struct BlockMode {
    pub dual_plane: bool,
    pub weight_w: u32,
    pub weight_h: u32,
    pub range: WeightRange,
}

/// What the 11-bit block-mode field describes.
#[derive(Clone, Copy, PartialEq, Eq, Structural, Debug)]
pub enum ModeClass {
    Normal(BlockMode),
    VoidExtent,
    Illegal,
}

/// A normal mode, once its weight range code is known.
pub open spec fn normal_mode(ww: u32, wh: u32, dp: u32, p: u32, r2: u32, r1: u32, r0: u32) -> ModeClass {
    match weight_range_spec((r2 << 2u32) | (r1 << 1u32) | r0, p) {
        Some(rng) => ModeClass::Normal(BlockMode { dual_plane: dp != 0, weight_w: ww, weight_h: wh, range: rng }),
        None => ModeClass::Illegal,
    }
}

/// The block mode of the 11-bit field `m`.
pub open spec fn block_mode_spec(m: u32) -> ModeClass {
    let dp = bit_of(m, 10);
    let p = bit_of(m, 9);
    if m & 3 == 0 && (m >> 2u32) & 0x7f == 0x7f {
        ModeClass::VoidExtent
    } else if m & 15 == 0 {
        ModeClass::Illegal
    } else if m & 3 == 0 && (m >> 6u32) & 7 == 7 {
        ModeClass::Illegal
    } else if m & 3 == 0 {
        let r0 = bit_of(m, 4);
        let r2 = bit_of(m, 3);
        let r1 = bit_of(m, 2);
        let b87 = (bit_of(m, 8) << 1u32) | bit_of(m, 7);
        let b65 = (bit_of(m, 6) << 1u32) | bit_of(m, 5);
        if b87 == 0 {
            normal_mode(12, (b65 + 2) as u32, dp, p, r2, r1, r0)
        } else if b87 == 1 {
            normal_mode((b65 + 2) as u32, 12, dp, p, r2, r1, r0)
        } else if b87 == 2 {
            normal_mode((b65 + 6) as u32, ((((bit_of(m, 10) << 1u32) | bit_of(m, 9)) + 6) as u32), 0, 0, r2, r1, r0)
        } else if b65 == 0 {
            normal_mode(6, 10, dp, p, r2, r1, r0)
        } else if b65 == 1 {
            normal_mode(10, 6, dp, p, r2, r1, r0)
        } else {
            ModeClass::Illegal
        }
    } else {
        let r2 = bit_of(m, 1);
        let r1 = bit_of(m, 0);
        let r0 = bit_of(m, 4);
        let b32 = (m >> 2u32) & 3;
        let hi = (bit_of(m, 8) << 1u32) | bit_of(m, 7);
        let lo = (bit_of(m, 6) << 1u32) | bit_of(m, 5);
        if b32 == 0 {
            normal_mode((hi + 4) as u32, (lo + 2) as u32, dp, p, r2, r1, r0)
        } else if b32 == 1 {
            normal_mode((hi + 8) as u32, (lo + 2) as u32, dp, p, r2, r1, r0)
        } else if b32 == 2 {
            normal_mode((lo + 2) as u32, (hi + 8) as u32, dp, p, r2, r1, r0)
        } else if bit_of(m, 8) == 0 {
            normal_mode((lo + 2) as u32, (bit_of(m, 7) + 6) as u32, dp, p, r2, r1, r0)
        } else {
            normal_mode((bit_of(m, 7) + 2) as u32, (lo + 2) as u32, dp, p, r2, r1, r0)
        }
    }
}

fn make_mode(ww: u32, wh: u32, dp: u32, p: u32, r2: u32, r1: u32, r0: u32) -> (c: ModeClass)
    ensures
        c == normal_mode(ww, wh, dp, p, r2, r1, r0),
{
    match weight_range((r2 << 2) | (r1 << 1) | r0, p) {
        Some(rng) => ModeClass::Normal(BlockMode { dual_plane: dp != 0, weight_w: ww, weight_h: wh, range: rng }),
        None => ModeClass::Illegal,
    }
}

/// Classify an 11-bit block-mode field.
pub fn decode_block_mode(m: u32) -> (c: ModeClass)
    ensures
        c == block_mode_spec(m),
        c matches ModeClass::Normal(bm) ==> 2 <= bm.weight_w <= 12 && 2 <= bm.weight_h <= 12 && bm.range.bits <= 5,
{
    proof {
        lemma_masks();
    }
    let dp = (m >> 10) & 1;
    let p = (m >> 9) & 1;
    if m & 0b11 == 0 && (m >> 2) & 0b111_1111 == 0b111_1111 {
        return ModeClass::VoidExtent;
    }
    if m & 0b1111 == 0 {
        return ModeClass::Illegal;
    }
    if m & 0b11 == 0 && (m >> 6) & 0b111 == 0b111 {
        return ModeClass::Illegal;
    }
    if m & 0b11 == 0 {
        let r0 = (m >> 4) & 1;
        let r2 = (m >> 3) & 1;
        let r1 = (m >> 2) & 1;
        let b87 = (((m >> 8) & 1) << 1) | ((m >> 7) & 1);
        let b65 = (((m >> 6) & 1) << 1) | ((m >> 5) & 1);
        if b87 == 0b00 {
            make_mode(12, b65 + 2, dp, p, r2, r1, r0)
        } else if b87 == 0b01 {
            make_mode(b65 + 2, 12, dp, p, r2, r1, r0)
        } else if b87 == 0b10 {
            let h2 = (((m >> 10) & 1) << 1) | ((m >> 9) & 1);
            make_mode(b65 + 6, h2 + 6, 0, 0, r2, r1, r0)
        } else if b65 == 0b00 {
            make_mode(6, 10, dp, p, r2, r1, r0)
        } else if b65 == 0b01 {
            make_mode(10, 6, dp, p, r2, r1, r0)
        } else {
            ModeClass::Illegal
        }
    } else {
        let r2 = (m >> 1) & 1;
        let r1 = (m >> 0) & 1;
        let r0 = (m >> 4) & 1;
        let b32 = (m >> 2) & 0b11;
        let hi = (((m >> 8) & 1) << 1) | ((m >> 7) & 1);
        let lo = (((m >> 6) & 1) << 1) | ((m >> 5) & 1);
        if b32 == 0b00 {
            make_mode(hi + 4, lo + 2, dp, p, r2, r1, r0)
        } else if b32 == 0b01 {
            make_mode(hi + 8, lo + 2, dp, p, r2, r1, r0)
        } else if b32 == 0b10 {
            make_mode(lo + 2, hi + 8, dp, p, r2, r1, r0)
        } else if (m >> 8) & 1 == 0 {
            make_mode(lo + 2, ((m >> 7) & 1) + 6, dp, p, r2, r1, r0)
        } else {
            make_mode(((m >> 7) & 1) + 2, lo + 2, dp, p, r2, r1, r0)
        }
    }
}

// ---- Partitions ---------------------------------------------------------------------

/// The partition hash of a seed.
pub open spec fn hash52_spec(p0: u32) -> u32 {
    let p1 = p0 ^ (p0 >> 15u32);
    let p2 = u32_specs::wrapping_sub(p1, p1 << 17u32);
    let p3 = u32_specs::wrapping_add(p2, p2 << 7u32);
    let p4 = u32_specs::wrapping_add(p3, p3 << 4u32);
    let p5 = p4 ^ (p4 >> 5u32);
    let p6 = u32_specs::wrapping_add(p5, p5 << 16u32);
    let p7 = p6 ^ (p6 >> 7u32);
    let p8 = p7 ^ (p7 >> 3u32);
    let p9 = p8 ^ (p8 << 6u32);
    p9 ^ (p9 >> 17u32)
}

/// [`hash52_spec`].
pub fn hash52(p: u32) -> (h: u32)
    ensures
        h == hash52_spec(p),
{
    let mut p = p;
    p ^= p >> 15;
    p = p.wrapping_sub(p << 17);
    p = p.wrapping_add(p << 7);
    p = p.wrapping_add(p << 4);
    p ^= p >> 5;
    p = p.wrapping_add(p << 16);
    p ^= p >> 7;
    p ^= p >> 3;
    p ^= p << 6;
    p ^= p >> 17;
    p
}

/// The hash nibble at bit `k` of `r`, squared and shifted down by `sh`.
pub open spec fn seed_term(r: u32, k: u32, sh: u32) -> u32 {
    ((((r >> k) & 0xf) * ((r >> k) & 0xf)) as u32) >> sh
}

/// Partition (0..=3) of texel `(x, y)` in a block with partition seed
/// `seed` and `count` partitions; coordinates are doubled in blocks of
/// fewer than 31 texels.
pub open spec fn select_partition_spec(seed: u32, x: u32, y: u32, count: u32, small: bool) -> u32 {
    let xs: int = if small { 2 * x } else { x as int };
    let ys: int = if small { 2 * y } else { y as int };
    let sd = (seed + (count - 1) * 1024) as u32;
    let rnum = hash52_spec(sd);
    let sh1: u32 = if sd & 1 != 0 {
        if sd & 2 != 0 { 4 } else { 5 }
    } else {
        if count == 3 { 6 } else { 5 }
    };
    let sh2: u32 = if sd & 1 != 0 {
        if count == 3 { 6 } else { 5 }
    } else {
        if sd & 2 != 0 { 4 } else { 5 }
    };
    let a = ((seed_term(rnum, 0, sh1) * xs + seed_term(rnum, 4, sh2) * ys + (rnum >> 14u32)) as u32) & 0x3f;
    let b = ((seed_term(rnum, 8, sh1) * xs + seed_term(rnum, 12, sh2) * ys + (rnum >> 10u32)) as u32) & 0x3f;
    let c0 = ((seed_term(rnum, 16, sh1) * xs + seed_term(rnum, 20, sh2) * ys + (rnum >> 6u32)) as u32) & 0x3f;
    let d0 = ((seed_term(rnum, 24, sh1) * xs + seed_term(rnum, 28, sh2) * ys + (rnum >> 2u32)) as u32) & 0x3f;
    let c: u32 = if count < 3 { 0 } else { c0 };
    let d: u32 = if count < 4 { 0 } else { d0 };
    if a >= b && a >= c && a >= d {
        0
    } else if b >= c && b >= d {
        1
    } else if c >= d {
        2
    } else {
        3
    }
}

/// [`seed_term`].
fn nibble_term(r: u32, k: u32, sh: u32) -> (t: u32)
    requires
        k <= 28,
        sh <= 6,
    ensures
        t == seed_term(r, k, sh),
        t <= 225,
{
    proof {
        lemma_masks();
    }
    let v = (r >> k) & 0xf;
    assert(v * v <= 225) by (nonlinear_arith)
        requires
            v <= 15,
    ;
    (v * v) >> sh
}

/// One partition score: `(sa·x + sb·y + base) & 0x3f`.
fn partition_score(sa: u32, sb: u32, x: u32, y: u32, base: u32) -> (m: u32)
    requires
        sa <= 225,
        sb <= 225,
        x <= 30,
        y <= 30,
        base < 0x4000_0000,
    ensures
        m == ((sa * x + sb * y + base) as u32) & 0x3f,
{
    assert(sa * x + sb * y <= 225 * 30 + 225 * 30) by (nonlinear_arith)
        requires
            sa <= 225,
            sb <= 225,
            x <= 30,
            y <= 30,
    ;
    (sa * x + sb * y + base) & 0x3f
}

/// [`select_partition_spec`].
pub fn select_partition(seed: u32, x: u32, y: u32, partitioncount: u32, small_block: bool) -> (r: u32)
    requires
        seed < 1024,
        1 <= partitioncount <= 4,
        x < 16,
        y < 16,
    ensures
        r == select_partition_spec(seed, x, y, partitioncount, small_block),
        r <= 3,
{
    proof {
        lemma_masks();
    }
    let (xs, ys) = if small_block {
        (x * 2, y * 2)
    } else {
        (x, y)
    };
    let seed = seed + (partitioncount - 1) * 1024;
    let rnum = hash52(seed);
    let (sh1, sh2): (u32, u32) = if seed & 1 != 0 {
        (if seed & 2 != 0 {
            4
        } else {
            5
        }, if partitioncount == 3 {
            6
        } else {
            5
        })
    } else {
        (if partitioncount == 3 {
            6
        } else {
            5
        }, if seed & 2 != 0 {
            4
        } else {
            5
        })
    };
    let a = partition_score(nibble_term(rnum, 0, sh1), nibble_term(rnum, 4, sh2), xs, ys, rnum >> 14);
    let b = partition_score(nibble_term(rnum, 8, sh1), nibble_term(rnum, 12, sh2), xs, ys, rnum >> 10);
    let c0 = partition_score(nibble_term(rnum, 16, sh1), nibble_term(rnum, 20, sh2), xs, ys, rnum >> 6);
    let d0 = partition_score(nibble_term(rnum, 24, sh1), nibble_term(rnum, 28, sh2), xs, ys, rnum >> 2);
    let c = if partitioncount < 3 {
        0
    } else {
        c0
    };
    let d = if partitioncount < 4 {
        0
    } else {
        d0
    };
    if a >= b && a >= c && a >= d {
        0
    } else if b >= c && b >= d {
        1
    } else if c >= d {
        2
    } else {
        3
    }
}

// ---- Colour endpoints ---------------------------------------------------------------

/// `a` after the signed bit transfer: its bits 1..6 as a signed 6-bit value.
pub open spec fn bts_a(a: i32) -> i32 {
    let a1 = (a >> 1i32) & 0x3f;
    if a1 & 0x20 != 0 {
        (a1 - 0x40) as i32
    } else {
        a1
    }
}

/// `b` after the signed bit transfer: `b >> 1` with the top bit of `a`.
pub open spec fn bts_b(a: i32, b: i32) -> i32 {
    (b >> 1i32) | (a & 0x80)
}

/// Bounds of the bit-transfer and luminance-delta steps on byte inputs.
proof fn lemma_endpoint_bits(a: i32, b: i32)
    by (bit_vector)
    requires
        0 <= a <= 255,
        0 <= b <= 255,
    ensures
        -32 <= bts_a(a) <= 31,
        0 <= bts_b(a, b) <= 255,
        0 <= ((a >> 2i32) | (b & 0xc0)) <= 255,
        0 <= (b & 0x3f) <= 63,
        0 <= ((a >> 1i32) & 0x3f) <= 63,
{
}

/// `v` clamped to 0..=255.
pub open spec fn clamp_u8_spec(v: i32) -> u8 {
    if v < 0 {
        0
    } else if v > 255 {
        255
    } else {
        v as u8
    }
}

fn clamp_u8(v: i32) -> (r: u8)
    ensures
        r == clamp_u8_spec(v),
{
    if v < 0 {
        0
    } else if v > 255 {
        255
    } else {
        v as u8
    }
}

/// Blue contraction: red and green averaged with blue.
pub open spec fn blue_contract(r: i32, g: i32, b: i32) -> (i32, i32, i32) {
    (((r + b) as i32) >> 1i32, ((g + b) as i32) >> 1i32, b)
}

/// The two RGBA endpoints colour endpoint mode `cem` makes of its
/// unquantized values `v`; `None` for the HDR modes.
pub open spec fn endpoints_spec(cem: u32, v: Seq<u32>) -> Option<([u8; 4], [u8; 4])> {
    let g0 = v[0] as i32;
    let g1 = v[1] as i32;
    let g2 = v[2] as i32;
    let g3 = v[3] as i32;
    let g4 = v[4] as i32;
    let g5 = v[5] as i32;
    let g6 = v[6] as i32;
    let g7 = v[7] as i32;
    if cem == 0 {
        Some(([g0 as u8, g0 as u8, g0 as u8, 0xff], [g1 as u8, g1 as u8, g1 as u8, 0xff]))
    } else if cem == 1 {
        let l0 = (g0 >> 2i32) | (g1 & 0xc0);
        let l1 = if l0 + (g1 & 0x3f) > 0xff { 0xff } else { l0 + (g1 & 0x3f) };
        Some(([l0 as u8, l0 as u8, l0 as u8, 0xff], [l1 as u8, l1 as u8, l1 as u8, 0xff]))
    } else if cem == 4 {
        Some(([g0 as u8, g0 as u8, g0 as u8, g2 as u8], [g1 as u8, g1 as u8, g1 as u8, g3 as u8]))
    } else if cem == 5 {
        let v1 = bts_a(g1);
        let v0 = bts_b(g1, g0);
        let v3 = bts_a(g3);
        let v2 = bts_b(g3, g2);
        Some((
            [clamp_u8_spec(v0), clamp_u8_spec(v0), clamp_u8_spec(v0), clamp_u8_spec(v2)],
            [
                clamp_u8_spec((v0 + v1) as i32),
                clamp_u8_spec((v0 + v1) as i32),
                clamp_u8_spec((v0 + v1) as i32),
                clamp_u8_spec((v2 + v3) as i32),
            ],
        ))
    } else if cem == 6 {
        Some((
            [((v[0] * v[3]) / 256) as u8, ((v[1] * v[3]) / 256) as u8, ((v[2] * v[3]) / 256) as u8, 0xff],
            [g0 as u8, g1 as u8, g2 as u8, 0xff],
        ))
    } else if cem == 8 || cem == 12 {
        let a0: u8 = if cem == 8 { 0xff } else { g6 as u8 };
        let a1: u8 = if cem == 8 { 0xff } else { g7 as u8 };
        if g1 + g3 + g5 >= g0 + g2 + g4 {
            Some(([g0 as u8, g2 as u8, g4 as u8, a0], [g1 as u8, g3 as u8, g5 as u8, a1]))
        } else {
            let c0 = blue_contract(g1, g3, g5);
            let c1 = blue_contract(g0, g2, g4);
            Some(([c0.0 as u8, c0.1 as u8, c0.2 as u8, a1], [c1.0 as u8, c1.1 as u8, c1.2 as u8, a0]))
        }
    } else if cem == 9 || cem == 13 {
        let w0 = bts_b(g1, g0);
        let w1 = bts_a(g1);
        let w2 = bts_b(g3, g2);
        let w3 = bts_a(g3);
        let w4 = bts_b(g5, g4);
        let w5 = bts_a(g5);
        let w6: i32 = if cem == 9 { 255 } else { bts_b(g7, g6) };
        let w7: i32 = if cem == 9 { 0 } else { bts_a(g7) };
        let e0 = [w0, w2, w4, w6];
        let e1 = [(w0 + w1) as i32, (w2 + w3) as i32, (w4 + w5) as i32, (w6 + w7) as i32];
        let (f0, f1) = if w1 + w3 + w5 < 0 {
            let c0 = blue_contract(e1[0], e1[1], e1[2]);
            let c1 = blue_contract(e0[0], e0[1], e0[2]);
            ([c0.0, c0.1, c0.2, e1[3]], [c1.0, c1.1, c1.2, e0[3]])
        } else {
            (e0, e1)
        };
        Some((
            [clamp_u8_spec(f0[0]), clamp_u8_spec(f0[1]), clamp_u8_spec(f0[2]), clamp_u8_spec(f0[3])],
            [clamp_u8_spec(f1[0]), clamp_u8_spec(f1[1]), clamp_u8_spec(f1[2]), clamp_u8_spec(f1[3])],
        ))
    } else if cem == 10 {
        Some((
            [((v[0] * v[3]) / 256) as u8, ((v[1] * v[3]) / 256) as u8, ((v[2] * v[3]) / 256) as u8, g4 as u8],
            [g0 as u8, g1 as u8, g2 as u8, g5 as u8],
        ))
    } else {
        None
    }
}

/// The LDR colour endpoint modes that take their endpoints straight from
/// the colour values `v` (bytes), as the ASTC specification lists them:
/// luminance (0: `L0, L1`), luminance + alpha (4: `L0, L1, A0, A1`), RGB
/// scale (6) and RGB scale + two alphas (10), and RGB (8) or RGBA (12)
/// `r0 r1 g0 g1 b0 b1 (a0 a1)`, where a second endpoint darker than the
/// first swaps the endpoints and blue-contracts them (red and green
/// averaged with blue, `(x + b) >> 1`).
pub proof fn lemma_direct_endpoints(v: Seq<u32>)
    requires
        v.len() == 8,
        forall|i: int| 0 <= i < 8 ==> #[trigger] v[i] <= 255,
    ensures
        endpoints_spec(0, v) == Some(
            ([v[0] as u8, v[0] as u8, v[0] as u8, 255u8], [v[1] as u8, v[1] as u8, v[1] as u8, 255u8]),
        ),
        endpoints_spec(4, v) == Some(
            ([v[0] as u8, v[0] as u8, v[0] as u8, v[2] as u8], [v[1] as u8, v[1] as u8, v[1] as u8, v[3] as u8]),
        ),
        endpoints_spec(6, v) == Some(
            (
                [((v[0] * v[3]) / 256) as u8, ((v[1] * v[3]) / 256) as u8, ((v[2] * v[3]) / 256) as u8, 255u8],
                [v[0] as u8, v[1] as u8, v[2] as u8, 255u8],
            ),
        ),
        endpoints_spec(10, v) == Some(
            (
                [((v[0] * v[3]) / 256) as u8, ((v[1] * v[3]) / 256) as u8, ((v[2] * v[3]) / 256) as u8, v[4] as u8],
                [v[0] as u8, v[1] as u8, v[2] as u8, v[5] as u8],
            ),
        ),
        v[1] + v[3] + v[5] >= v[0] + v[2] + v[4] ==> endpoints_spec(8, v) == Some(
            ([v[0] as u8, v[2] as u8, v[4] as u8, 255u8], [v[1] as u8, v[3] as u8, v[5] as u8, 255u8]),
        ),
        v[1] + v[3] + v[5] >= v[0] + v[2] + v[4] ==> endpoints_spec(12, v) == Some(
            ([v[0] as u8, v[2] as u8, v[4] as u8, v[6] as u8], [v[1] as u8, v[3] as u8, v[5] as u8, v[7] as u8]),
        ),
        v[1] + v[3] + v[5] < v[0] + v[2] + v[4] ==> endpoints_spec(8, v) == Some(
            (
                [(((v[1] + v[5]) as i32) >> 1i32) as u8, (((v[3] + v[5]) as i32) >> 1i32) as u8, v[5] as u8, 255u8],
                [(((v[0] + v[4]) as i32) >> 1i32) as u8, (((v[2] + v[4]) as i32) >> 1i32) as u8, v[4] as u8, 255u8],
            ),
        ),
        v[1] + v[3] + v[5] < v[0] + v[2] + v[4] ==> endpoints_spec(12, v) == Some(
            (
                [(((v[1] + v[5]) as i32) >> 1i32) as u8, (((v[3] + v[5]) as i32) >> 1i32) as u8, v[5] as u8, v[7] as u8],
                [(((v[0] + v[4]) as i32) >> 1i32) as u8, (((v[2] + v[4]) as i32) >> 1i32) as u8, v[4] as u8, v[6] as u8],
            ),
        ),
{
    assert(v[0] <= 255 && v[1] <= 255 && v[2] <= 255 && v[3] <= 255);
    assert(v[4] <= 255 && v[5] <= 255 && v[6] <= 255 && v[7] <= 255);
}

/// Number of colour values colour endpoint mode `cem` takes.
pub open spec fn cem_count(cem: u32) -> u32 {
    if cem <= 3 {
        2
    } else if cem <= 7 {
        4
    } else if cem <= 11 {
        6
    } else {
        8
    }
}

/// [`cem_count`].
pub(crate) fn cem_value_count(cem: u32) -> (n: u32)
    ensures
        n == cem_count(cem),
{
    if cem <= 3 {
        2
    } else if cem <= 7 {
        4
    } else if cem <= 11 {
        6
    } else {
        8
    }
}

/// [`endpoints_spec`] of the unquantized values `v` (bytes).
fn decode_endpoints(cem: u32, v: &[u32]) -> (r: Option<([u8; 4], [u8; 4])>)
    requires
        v@.len() == 8,
        forall|i: int| 0 <= i < 8 ==> #[trigger] v@[i] <= 255,
    ensures
        r == endpoints_spec(cem, v@),
{
    let g0 = v[0] as i32;
    let g1 = v[1] as i32;
    let g2 = v[2] as i32;
    let g3 = v[3] as i32;
    let g4 = v[4] as i32;
    let g5 = v[5] as i32;
    let g6 = v[6] as i32;
    let g7 = v[7] as i32;
    proof {
        lemma_endpoint_bits(g1, g0);
        lemma_endpoint_bits(g3, g2);
        lemma_endpoint_bits(g5, g4);
        lemma_endpoint_bits(g7, g6);
        lemma_endpoint_bits(g0, g1);
    }
    if cem == 0 {
        Some(([g0 as u8, g0 as u8, g0 as u8, 0xff], [g1 as u8, g1 as u8, g1 as u8, 0xff]))
    } else if cem == 1 {
        let l0 = (g0 >> 2i32) | (g1 & 0xc0);
        let l1 = if l0 + (g1 & 0x3f) > 0xff {
            0xff
        } else {
            l0 + (g1 & 0x3f)
        };
        Some(([l0 as u8, l0 as u8, l0 as u8, 0xff], [l1 as u8, l1 as u8, l1 as u8, 0xff]))
    } else if cem == 4 {
        Some(([g0 as u8, g0 as u8, g0 as u8, g2 as u8], [g1 as u8, g1 as u8, g1 as u8, g3 as u8]))
    } else if cem == 5 {
        let v1 = bit_transfer_a(g1);
        let v0 = bit_transfer_b(g1, g0);
        let v3 = bit_transfer_a(g3);
        let v2 = bit_transfer_b(g3, g2);
        Some((
            [clamp_u8(v0), clamp_u8(v0), clamp_u8(v0), clamp_u8(v2)],
            [clamp_u8(v0 + v1), clamp_u8(v0 + v1), clamp_u8(v0 + v1), clamp_u8(v2 + v3)],
        ))
    } else if cem == 6 {
        Some((
            [scale_byte(v[0], v[3]), scale_byte(v[1], v[3]), scale_byte(v[2], v[3]), 0xff],
            [g0 as u8, g1 as u8, g2 as u8, 0xff],
        ))
    } else if cem == 8 || cem == 12 {
        let a0: u8 = if cem == 8 {
            0xff
        } else {
            g6 as u8
        };
        let a1: u8 = if cem == 8 {
            0xff
        } else {
            g7 as u8
        };
        if g1 + g3 + g5 >= g0 + g2 + g4 {
            Some(([g0 as u8, g2 as u8, g4 as u8, a0], [g1 as u8, g3 as u8, g5 as u8, a1]))
        } else {
            let c0 = ((g1 + g5) >> 1i32, (g3 + g5) >> 1i32, g5);
            let c1 = ((g0 + g4) >> 1i32, (g2 + g4) >> 1i32, g4);
            Some(([c0.0 as u8, c0.1 as u8, c0.2 as u8, a1], [c1.0 as u8, c1.1 as u8, c1.2 as u8, a0]))
        }
    } else if cem == 9 || cem == 13 {
        let w0 = bit_transfer_b(g1, g0);
        let w1 = bit_transfer_a(g1);
        let w2 = bit_transfer_b(g3, g2);
        let w3 = bit_transfer_a(g3);
        let w4 = bit_transfer_b(g5, g4);
        let w5 = bit_transfer_a(g5);
        let w6: i32 = if cem == 9 {
            255
        } else {
            bit_transfer_b(g7, g6)
        };
        let w7: i32 = if cem == 9 {
            0
        } else {
            bit_transfer_a(g7)
        };
        let e0 = [w0, w2, w4, w6];
        let e1 = [w0 + w1, w2 + w3, w4 + w5, w6 + w7];
        let (f0, f1) = if w1 + w3 + w5 < 0 {
            (
                [(e1[0] + e1[2]) >> 1i32, (e1[1] + e1[2]) >> 1i32, e1[2], e1[3]],
                [(e0[0] + e0[2]) >> 1i32, (e0[1] + e0[2]) >> 1i32, e0[2], e0[3]],
            )
        } else {
            (e0, e1)
        };
        Some((
            [clamp_u8(f0[0]), clamp_u8(f0[1]), clamp_u8(f0[2]), clamp_u8(f0[3])],
            [clamp_u8(f1[0]), clamp_u8(f1[1]), clamp_u8(f1[2]), clamp_u8(f1[3])],
        ))
    } else if cem == 10 {
        Some((
            [scale_byte(v[0], v[3]), scale_byte(v[1], v[3]), scale_byte(v[2], v[3]), g4 as u8],
            [g0 as u8, g1 as u8, g2 as u8, g5 as u8],
        ))
    } else {
        None
    }
}

/// `(c × s) >> 8` of two bytes.
fn scale_byte(c: u32, s: u32) -> (r: u8)
    requires
        c <= 255,
        s <= 255,
    ensures
        r == ((c * s) / 256) as u8,
{
    proof {
        lemma_masks();
    }
    assert(c * s <= 255 * 255) by (nonlinear_arith)
        requires
            c <= 255,
            s <= 255,
    ;
    ((c * s) >> 8) as u8
}

/// [`bts_a`].
fn bit_transfer_a(a: i32) -> (r: i32)
    requires
        0 <= a <= 255,
    ensures
        r == bts_a(a),
{
    proof {
        lemma_endpoint_bits(a, 0);
    }
    let a1 = (a >> 1i32) & 0x3f;
    if a1 & 0x20 != 0 {
        a1 - 0x40
    } else {
        a1
    }
}

/// [`bts_b`].
fn bit_transfer_b(a: i32, b: i32) -> (r: i32)
    ensures
        r == bts_b(a, b),
{
    (b >> 1i32) | (a & 0x80)
}

// ---- Weights at texels --------------------------------------------------------------

/// Per-axis infill scale `(1024 + B/2) / (B - 1)` of a `B`-texel axis
/// (0 for a one-texel axis).
pub open spec fn infill(b: u32) -> u32 {
    if b <= 1 {
        0
    } else {
        ((1024 + b / 2) / ((b - 1) as int)) as u32
    }
}

/// [`infill`].
fn infill_scale(b: u32) -> (d: u32)
    requires
        b <= 0xffff,
    ensures
        d == infill(b),
        d <= 1025,
{
    if b <= 1 {
        return 0;
    }
    let n = 1024 + b / 2;
    let m = b - 1;
    assert(n / m <= 1025) by (nonlinear_arith)
        requires
            m >= 1,
            n == 1024 + (m + 1) / 2,
    ;
    n / m
}

/// Weight `(gx, gy)` of plane `plane` in the grid (clamped to the grid; 0
/// past the decoded weights).
pub open spec fn grid_weight(weights: Seq<u32>, ww: u32, wh: u32, gx: int, gy: int, planes: u32, plane: u32) -> int {
    let x = if gx < ww - 1 { gx } else { ww - 1 };
    let y = if gy < wh - 1 { gy } else { wh - 1 };
    let idx = (y * ww + x) * planes + plane;
    if 0 <= idx < weights.len() {
        weights[idx] as int
    } else {
        0
    }
}

/// The weight of texel `(tx, ty)` on plane `plane`: bilinear infill from
/// the `ww × wh` grid, clamped to 0..=64.
pub open spec fn sample_weight_spec(
    weights: Seq<u32>,
    ww: u32,
    wh: u32,
    tx: u32,
    ty: u32,
    ds: u32,
    dt: u32,
    planes: u32,
    plane: u32,
) -> u32 {
    let gs = (ds * tx * (ww - 1) + 32) / 64;
    let gt = (dt * ty * (wh - 1) + 32) / 64;
    let js = gs / 16;
    let fs = gs % 16;
    let jt = gt / 16;
    let ft = gt % 16;
    let w11 = (fs * ft + 8) / 16;
    let w10 = ft - w11;
    let w01 = fs - w11;
    let w00 = 16 + w11 - fs - ft;
    let i = (grid_weight(weights, ww, wh, js, jt, planes, plane) * w00 + grid_weight(weights, ww, wh, js + 1, jt, planes, plane)
        * w01 + grid_weight(weights, ww, wh, js, jt + 1, planes, plane) * w10 + grid_weight(
        weights,
        ww,
        wh,
        js + 1,
        jt + 1,
        planes,
        plane,
    ) * w11 + 8) / 16;
    if i < 0 {
        0
    } else if i > 64 {
        64
    } else {
        i as u32
    }
}

/// The bilinear weights of the four grid points are non-negative.
proof fn lemma_infill_weights(fs: int, ft: int)
    requires
        0 <= fs < 16,
        0 <= ft < 16,
    ensures
        0 <= (fs * ft + 8) / 16 <= fs,
        (fs * ft + 8) / 16 <= ft,
        0 <= 16 - fs - ft + (fs * ft + 8) / 16,
{
    assert(0 <= (fs * ft + 8) / 16 <= fs && (fs * ft + 8) / 16 <= ft && 0 <= 16 - fs - ft + (fs * ft + 8) / 16)
        by (nonlinear_arith)
        requires
            0 <= fs < 16,
            0 <= ft < 16,
    ;
}

fn fetch_weight(weights: &Vec<u32>, ww: u32, wh: u32, gx: u32, gy: u32, planes: u32, plane: u32) -> (v: u32)
    requires
        1 <= ww <= 12,
        1 <= wh <= 12,
        gx <= 0xffff,
        gy <= 0xffff,
        1 <= planes <= 2,
        plane < planes,
        forall|k: int| 0 <= k < weights@.len() ==> #[trigger] weights@[k] <= 128,
    ensures
        v == grid_weight(weights@, ww, wh, gx as int, gy as int, planes, plane),
        v <= 128,
{
    let x = if gx < ww - 1 {
        gx
    } else {
        ww - 1
    };
    let y = if gy < wh - 1 {
        gy
    } else {
        wh - 1
    };
    assert(y * ww <= 144 && y * ww + x <= 156 && (y * ww + x) * planes + plane <= 400) by (nonlinear_arith)
        requires
            y < 12,
            ww <= 12,
            x < 12,
            planes <= 2,
            plane < 2,
    ;
    let idx = ((y * ww + x) * planes + plane) as usize;
    if idx < weights.len() {
        weights[idx]
    } else {
        0
    }
}

/// [`sample_weight_spec`].
fn sample_weight(
    weights: &Vec<u32>,
    ww: u32,
    wh: u32,
    tx: u32,
    ty: u32,
    ds: u32,
    dt: u32,
    planes: u32,
    plane: u32,
) -> (w: u32)
    requires
        1 <= ww <= 12,
        1 <= wh <= 12,
        tx <= 0xffff,
        ty <= 0xffff,
        ds <= 1025,
        dt <= 1025,
        ds * tx <= 0x10_0000,
        dt * ty <= 0x10_0000,
        1 <= planes <= 2,
        plane < planes,
        forall|k: int| 0 <= k < weights@.len() ==> #[trigger] weights@[k] <= 128,
    ensures
        w == sample_weight_spec(weights@, ww, wh, tx, ty, ds, dt, planes, plane),
        w <= 64,
{
    let cs = ds * tx;
    let ct = dt * ty;
    assert(cs * (ww - 1) <= 0x10_0000 * 11 && ct * (wh - 1) <= 0x10_0000 * 11) by (nonlinear_arith)
        requires
            cs <= 0x10_0000,
            ct <= 0x10_0000,
            ww <= 12,
            wh <= 12,
    ;
    let gs = (cs * (ww - 1) + 32) / 64;
    let gt = (ct * (wh - 1) + 32) / 64;
    let js = gs / 16;
    let fs = gs % 16;
    let jt = gt / 16;
    let ft = gt % 16;
    proof {
        lemma_infill_weights(fs as int, ft as int);
    }
    let w11 = (fs * ft + 8) / 16;
    let w10 = ft - w11;
    let w01 = fs - w11;
    let w00 = 16 + w11 - fs - ft;
    let p00 = fetch_weight(weights, ww, wh, js, jt, planes, plane);
    let p01 = fetch_weight(weights, ww, wh, js + 1, jt, planes, plane);
    let p10 = fetch_weight(weights, ww, wh, js, jt + 1, planes, plane);
    let p11 = fetch_weight(weights, ww, wh, js + 1, jt + 1, planes, plane);
    assert(p00 * w00 + p01 * w01 + p10 * w10 + p11 * w11 <= 128 * 16 * 4) by (nonlinear_arith)
        requires
            p00 <= 128,
            p01 <= 128,
            p10 <= 128,
            p11 <= 128,
            w00 <= 16,
            w01 <= 16,
            w10 <= 16,
            w11 <= 16,
    ;
    let i = (p00 * w00 + p01 * w01 + p10 * w10 + p11 * w11 + 8) / 16;
    if i > 64 {
        64
    } else {
        i
    }
}

/// The colour of a void-extent block: the high bytes of its UNORM16
/// channels, or the error colour when the reserved bits are not set or the
/// block is HDR.
pub open spec fn void_colour(b: Seq<u8>) -> [u8; 4] {
    if block_field(b, 10, 2) != 3 || block_field(b, 9, 1) == 1 {
        ERROR_COLOR
    } else {
        [
            (block_field(b, 64, 16) / 256) as u8,
            (block_field(b, 80, 16) / 256) as u8,
            (block_field(b, 96, 16) / 256) as u8,
            (block_field(b, 112, 16) / 256) as u8,
        ]
    }
}

fn decode_void_extent(data: &[u8; 16]) -> (c: [u8; 4])
    ensures
        c == void_colour(data@),
{
    proof {
        lemma_masks();
    }
    if block_bits(data, 10, 2) != 0b11 {
        return ERROR_COLOR;
    }
    if block_bits(data, 9, 1) == 1 {
        return ERROR_COLOR;
    }
    let r = block_bits(data, 64, 16);
    let g = block_bits(data, 80, 16);
    let b = block_bits(data, 96, 16);
    let a = block_bits(data, 112, 16);
    [(r >> 8) as u8, (g >> 8) as u8, (b >> 8) as u8, (a >> 8) as u8]
}

// ---- Colour range ----------------------------------------------------------------------

/// Candidate `k` of the colour ranges, from the most precise down:
/// `(trits, quints, bits)`.
pub open spec fn colour_candidate(k: int) -> (bool, bool, u8) {
    if k == 0 {
        (false, false, 8)
    } else if k == 1 {
        (true, false, 6)
    } else if k == 2 {
        (false, true, 5)
    } else if k == 3 {
        (false, false, 7)
    } else if k == 4 {
        (true, false, 5)
    } else if k == 5 {
        (false, true, 4)
    } else if k == 6 {
        (false, false, 6)
    } else if k == 7 {
        (true, false, 4)
    } else if k == 8 {
        (false, true, 3)
    } else if k == 9 {
        (false, false, 5)
    } else if k == 10 {
        (true, false, 3)
    } else if k == 11 {
        (false, true, 2)
    } else if k == 12 {
        (false, false, 4)
    } else if k == 13 {
        (true, false, 2)
    } else if k == 14 {
        (false, true, 1)
    } else if k == 15 {
        (false, false, 3)
    } else {
        (true, false, 1)
    }
}

/// The first candidate from `k` on whose `count` values fit in `budget` bits.
pub open spec fn pick_from(count: u32, budget: u32, k: int) -> Option<IseRange>
    decreases 17 - k,
{
    if k >= 17 || k < 0 {
        None
    } else {
        let c = colour_candidate(k);
        let r = ise_range_spec(c.0, c.1, c.2);
        if ise_bits_for_count(r, count) <= budget {
            Some(r)
        } else {
            pick_from(count, budget, k + 1)
        }
    }
}

/// The colour range of `count` values in `budget` bits: the most precise
/// candidate that fits (at least `0..=5`); `None` for no values or when none fits.
pub open spec fn pick_color_range_spec(count: u32, budget: u32) -> Option<IseRange> {
    if count == 0 {
        None
    } else {
        pick_from(count, budget, 0)
    }
}

fn colour_candidate_of(k: usize) -> (c: (bool, bool, u8))
    requires
        k < 17,
    ensures
        c == colour_candidate(k as int),
        1 <= c.2 <= 8,
{
    match k {
        0 => (false, false, 8),
        1 => (true, false, 6),
        2 => (false, true, 5),
        3 => (false, false, 7),
        4 => (true, false, 5),
        5 => (false, true, 4),
        6 => (false, false, 6),
        7 => (true, false, 4),
        8 => (false, true, 3),
        9 => (false, false, 5),
        10 => (true, false, 3),
        11 => (false, true, 2),
        12 => (false, false, 4),
        13 => (true, false, 2),
        14 => (false, true, 1),
        15 => (false, false, 3),
        _ => (true, false, 1),
    }
}

/// [`pick_color_range_spec`].
pub fn pick_color_range(count: u32, budget: u32) -> (r: Option<IseRange>)
    requires
        count <= 256,
    ensures
        r == pick_color_range_spec(count, budget),
        r matches Some(rr) ==> 1 <= rr.bits <= 8,
{
    if count == 0 {
        return None;
    }
    let mut k: usize = 0;
    while k < 17
        invariant
            1 <= count <= 256,
            k <= 17,
            pick_from(count, budget, 0) == pick_from(count, budget, k as int),
        decreases 17 - k,
    {
        let (t, q, b) = colour_candidate_of(k);
        let range = ise_range(t, q, b);
        if range.bits_for_count(count) <= budget {
            return Some(range);
        }
        k += 1;
    }
    None
}

// ---- Whole blocks ---------------------------------------------------------------------

/// `(w, h)` is one of the footprints of the table.
pub open spec fn footprint_ok(w: u32, h: u32) -> bool {
    w <= 255 && h <= 255 && valid_footprint(w as u8, h as u8)
}

/// The weight range of a mode as an integer-sequence range.
pub open spec fn mode_ise(m: BlockMode) -> IseRange {
    IseRange { trits: m.range.trits, quints: m.range.quints, bits: m.range.bits, max: m.range.max }
}

/// Weight planes of a mode (2 with dual plane).
pub open spec fn planes_of(m: BlockMode) -> u32 {
    if m.dual_plane {
        2
    } else {
        1
    }
}

/// Number of weights of a mode.
pub open spec fn weight_count(m: BlockMode) -> int {
    m.weight_w * m.weight_h * planes_of(m)
}

/// Bits of the weight sequence of a mode.
pub open spec fn weight_bit_count(m: BlockMode) -> int {
    ise_bits_for_count(mode_ise(m), weight_count(m) as u32)
}

/// The block bit just below the weight sequence.
pub open spec fn weights_top(m: BlockMode) -> int {
    128 - weight_bit_count(m)
}

/// Number of partitions of the block.
pub open spec fn partitions(b: Seq<u8>) -> u32 {
    (block_field(b, 11, 2) + 1) as u32
}

/// The colour endpoint mode selector of a multi-partition block.
pub open spec fn cem_selector(b: Seq<u8>) -> u32 {
    block_field(b, 23, 2)
}

/// Whether each partition carries its own colour endpoint mode.
pub open spec fn per_partition_cems(b: Seq<u8>) -> bool {
    partitions(b) > 1 && cem_selector(b) != 0
}

/// Colour endpoint mode of partition `i`: the single 4-bit field, or the
/// selector's class plus one high bit and two low bits stored below the
/// weights.
pub open spec fn block_cem(b: Seq<u8>, m: BlockMode, i: int) -> u32 {
    if partitions(b) == 1 {
        block_field(b, 13, 4)
    } else if cem_selector(b) == 0 {
        block_field(b, 25, 4)
    } else {
        ((((cem_selector(b) - 1) + block_field(b, 25 + i, 1)) as u32) << 2u32) | block_field(
            b,
            weights_top(m) - 2 * (i + 1),
            2,
        )
    }
}

/// Block bit where the colour value sequence starts.
pub open spec fn colour_start(b: Seq<u8>) -> u32 {
    if partitions(b) == 1 {
        17
    } else if cem_selector(b) == 0 {
        29
    } else {
        (25 + partitions(b)) as u32
    }
}

/// Bits of the low colour-mode fields stored below the weights.
pub open spec fn extra_cem_bits(b: Seq<u8>) -> u32 {
    if per_partition_cems(b) {
        (2 * partitions(b)) as u32
    } else {
        0
    }
}

/// Index of the first colour value of partition `i`.
pub open spec fn cem_offset(b: Seq<u8>, m: BlockMode, i: int) -> int
    decreases i,
{
    if i <= 0 {
        0
    } else {
        cem_offset(b, m, i - 1) + cem_count(block_cem(b, m, i - 1))
    }
}

/// Number of colour values of the block.
pub open spec fn colour_count(b: Seq<u8>, m: BlockMode) -> int {
    cem_offset(b, m, partitions(b) as int)
}

/// The block bit just below the colour values (under the low colour-mode
/// fields and the dual-plane channel selector).
pub open spec fn colour_top(b: Seq<u8>, m: BlockMode) -> int {
    weights_top(m) - extra_cem_bits(b) - if m.dual_plane {
        2int
    } else {
        0int
    }
}

/// The colour value range: the most precise that fits the values between
/// the colour start and the colour top.
pub open spec fn colour_range(b: Seq<u8>, m: BlockMode) -> Option<IseRange> {
    pick_color_range_spec(colour_count(b, m) as u32, (colour_top(b, m) - colour_start(b)) as u32)
}

/// Unquantized colour value `k`.
pub open spec fn colour_value(b: Seq<u8>, r: IseRange, k: int) -> u32 {
    unquant_color_spec(ise_value(b, colour_start(b) as int, false, r, k), r)
}

/// The colour values of partition `i`, padded to eight with zeros.
pub open spec fn partition_values(b: Seq<u8>, m: BlockMode, r: IseRange, i: int) -> Seq<u32> {
    Seq::new(
        8,
        |k: int|
            if k < cem_count(block_cem(b, m, i)) {
                colour_value(b, r, cem_offset(b, m, i) + k)
            } else {
                0
            },
    )
}

/// The endpoints of partition `i`.
pub open spec fn partition_endpoints(b: Seq<u8>, m: BlockMode, r: IseRange, i: int) -> Option<([u8; 4], [u8; 4])> {
    endpoints_spec(block_cem(b, m, i), partition_values(b, m, r, i))
}

/// The unquantized weights of the block, plane-interleaved.
pub open spec fn block_weights(b: Seq<u8>, m: BlockMode) -> Seq<u32> {
    Seq::new(weight_count(m) as nat, |k: int| unquant_weight_spec(ise_value(b, 0, true, mode_ise(m), k), m.range))
}

/// The channel that uses the second weight plane.
pub open spec fn plane2_channel(b: Seq<u8>, m: BlockMode) -> u32 {
    if m.dual_plane {
        block_field(b, weights_top(m) - extra_cem_bits(b) - 2, 2)
    } else {
        0
    }
}

/// Partition of texel `(tx, ty)`.
pub open spec fn texel_partition(b: Seq<u8>, bw: u32, bh: u32, tx: u32, ty: u32) -> u32 {
    if partitions(b) > 1 {
        select_partition_spec(block_field(b, 13, 10), tx, ty, partitions(b), bw * bh < 31)
    } else {
        0
    }
}

/// Interpolate two endpoint bytes at 16 bits with weight `w` (0..=64) and
/// keep the high byte.
pub open spec fn lerp16(a: u8, c: u8, w: u32) -> u8 {
    ((((a as int) * 257 * (64 - w) + (c as int) * 257 * w + 32) / 64) / 256) as u8
}

/// Texel `(tx, ty)` of a normal block in mode `m` with colour range `r`.
pub open spec fn normal_texel(b: Seq<u8>, bw: u32, bh: u32, m: BlockMode, r: IseRange, tx: u32, ty: u32) -> [u8; 4] {
    let pc = partitions(b);
    let p0 = texel_partition(b, bw, bh, tx, ty);
    let p = if p0 < pc - 1 {
        p0 as int
    } else {
        pc - 1
    };
    match partition_endpoints(b, m, r, p) {
        None => ERROR_COLOR,
        Some(e) => {
            let ws = block_weights(b, m);
            let w0 = sample_weight_spec(ws, m.weight_w, m.weight_h, tx, ty, infill(bw), infill(bh), planes_of(m), 0);
            let w1 = sample_weight_spec(ws, m.weight_w, m.weight_h, tx, ty, infill(bw), infill(bh), planes_of(m), 1);
            let c = plane2_channel(b, m);
            [
                lerp16(e.0[0], e.1[0], if m.dual_plane && c == 0 { w1 } else { w0 }),
                lerp16(e.0[1], e.1[1], if m.dual_plane && c == 1 { w1 } else { w0 }),
                lerp16(e.0[2], e.1[2], if m.dual_plane && c == 2 { w1 } else { w0 }),
                lerp16(e.0[3], e.1[3], if m.dual_plane && c == 3 { w1 } else { w0 }),
            ]
        },
    }
}

/// A normal block in mode `m` is legal for the footprint: its weight grid
/// fits, it has 1..=64 weights in 24..=96 bits, at most 18 colour values,
/// room for them, and a colour range that fits.
pub open spec fn normal_block_ok(b: Seq<u8>, bw: u32, bh: u32, m: BlockMode) -> bool {
    &&& m.weight_w <= bw
    &&& m.weight_h <= bh
    &&& 0 < weight_count(m) <= 64
    &&& 24 <= weight_bit_count(m) <= 96
    &&& colour_count(b, m) <= 18
    &&& colour_top(b, m) > colour_start(b)
    &&& colour_range(b, m) is Some
}

/// Texel `t` (row-major) of the block `b` at footprint `bw × bh`.
pub open spec fn astc_texel(b: Seq<u8>, bw: u32, bh: u32, t: int) -> [u8; 4] {
    if !footprint_ok(bw, bh) {
        ERROR_COLOR
    } else {
        match block_mode_spec(block_field(b, 0, 11)) {
            ModeClass::VoidExtent => void_colour(b),
            ModeClass::Illegal => ERROR_COLOR,
            ModeClass::Normal(m) => if !normal_block_ok(b, bw, bh, m) {
                ERROR_COLOR
            } else {
                normal_texel(b, bw, bh, m, colour_range(b, m).unwrap(), (t % (bw as int)) as u32, (t / (bw as int)) as u32)
            },
        }
    }
}

/// The texels of the block `b` at footprint `bw × bh`.
pub open spec fn astc_texels(b: Seq<u8>, bw: u32, bh: u32) -> Seq<[u8; 4]> {
    Seq::new((bw * bh) as nat, |t: int| astc_texel(b, bw, bh, t))
}

// ---- Decoding a block ---------------------------------------------------------------------

/// The colour endpoint modes of the partitions, the block bit where the
/// colour values start and the bits of low colour-mode fields.
fn block_cems(data: &[u8; 16], m: &BlockMode, pc: u32, top: u32) -> (r: ([u32; 4], u32, u32))
    requires
        pc == partitions(data@),
        1 <= pc <= 4,
        top == weights_top(*m),
        32 <= top <= 104,
    ensures
        forall|i: int| 0 <= i < pc ==> #[trigger] r.0@[i] == block_cem(data@, *m, i),
        r.1 == colour_start(data@),
        r.2 == extra_cem_bits(data@),
        r.1 <= 29,
        r.2 <= 8,
{
    let mut cems = [0u32; 4];
    if pc == 1 {
        cems[0] = block_bits(data, 13, 4);
        return (cems, 17, 0);
    }
    let selector = block_bits(data, 23, 2);
    proof {
        crate::bitfacts::lemma_pow2_shifts();
    }
    if selector == 0 {
        let cem = block_bits(data, 25, 4);
        let mut i: u32 = 0;
        while i < pc
            invariant
                i <= pc <= 4,
                pc == partitions(data@),
                pc > 1,
                cem_selector(data@) == 0,
                cem == block_field(data@, 25, 4),
                forall|j: int| 0 <= j < i ==> #[trigger] cems@[j] == block_cem(data@, *m, j),
            decreases pc - i,
        {
            cems[i as usize] = cem;
            i += 1;
        }
        return (cems, 29, 0);
    }
    let mut i: u32 = 0;
    while i < pc
        invariant
            i <= pc <= 4,
            pc == partitions(data@),
            pc > 1,
            selector == cem_selector(data@),
            1 <= selector < 4,
            top == weights_top(*m),
            32 <= top <= 104,
            forall|j: int| 0 <= j < i ==> #[trigger] cems@[j] == block_cem(data@, *m, j),
        decreases pc - i,
    {
        proof {
            crate::bitfacts::lemma_pow2_shifts();
        }
        let high = block_bits(data, 25 + i, 1);
        let low = block_bits(data, top - 2 * (i + 1), 2);
        cems[i as usize] = ((selector - 1 + high) << 2) | low;
        i += 1;
    }
    (cems, 25 + pc, 2 * pc)
}

/// The unquantized colour values.
fn colour_values(data: &[u8; 16], start: u32, count: u32, r: IseRange) -> (v: Vec<u32>)
    requires
        start <= 128,
        count <= 64,
        1 <= r.bits <= 8,
    ensures
        v@.len() == count,
        forall|k: int| 0 <= k < count ==> #[trigger] v@[k] == unquant_color_spec(ise_value(data@, start as int, false, r, k), r),
        forall|k: int| 0 <= k < count ==> #[trigger] v@[k] <= 255,
{
    let raw = decode_ise(data, start, false, count, r);
    let mut v: Vec<u32> = Vec::new();
    let mut k: usize = 0;
    while k < count as usize
        invariant
            raw@.len() == count,
            forall|j: int| 0 <= j < count ==> #[trigger] raw@[j] == ise_value(data@, start as int, false, r, j),
            1 <= r.bits <= 8,
            k <= count,
            v@.len() == k,
            forall|j: int| 0 <= j < k ==> #[trigger] v@[j] == unquant_color_spec(ise_value(data@, start as int, false, r, j), r),
            forall|j: int| 0 <= j < k ==> #[trigger] v@[j] <= 255,
        decreases count - k,
    {
        v.push(unquant_color(raw[k], r));
        k += 1;
    }
    v
}

/// One partition's endpoints, or the error colour when its mode is HDR.
pub open spec fn endpoint_entry(e: Option<([u8; 4], [u8; 4])>) -> ([u8; 4], [u8; 4], bool) {
    match e {
        Some(p) => (p.0, p.1, true),
        None => (ERROR_COLOR, ERROR_COLOR, false),
    }
}

/// The endpoints of every partition.
fn partition_endpoint_list(
    data: &[u8; 16],
    m: &BlockMode,
    r: IseRange,
    cems: [u32; 4],
    pc: u32,
    values: &Vec<u32>,
) -> (eps: Vec<([u8; 4], [u8; 4], bool)>)
    requires
        1 <= pc <= 4,
        pc == partitions(data@),
        forall|i: int| 0 <= i < pc ==> #[trigger] cems@[i] == block_cem(data@, *m, i),
        values@.len() == colour_count(data@, *m),
        forall|k: int| 0 <= k < values@.len() ==> #[trigger] values@[k] == colour_value(data@, r, k),
        forall|k: int| 0 <= k < values@.len() ==> #[trigger] values@[k] <= 255,
    ensures
        eps@.len() == pc,
        forall|i: int| 0 <= i < pc ==> #[trigger] eps@[i] == endpoint_entry(partition_endpoints(data@, *m, r, i)),
{
    let ghost b = data@;
    let mut eps: Vec<([u8; 4], [u8; 4], bool)> = Vec::new();
    let mut idx: usize = 0;
    let mut i: u32 = 0;
    proof {
        lemma_cem_offset_mono(b, *m, 0, pc as int);
    }
    while i < pc
        invariant
            values@.len() <= 32,
            1 <= pc <= 4,
            pc == partitions(b),
            b == data@,
            i <= pc,
            forall|j: int| 0 <= j < pc ==> #[trigger] cems@[j] == block_cem(b, *m, j),
            values@.len() == colour_count(b, *m),
            forall|k: int| 0 <= k < values@.len() ==> #[trigger] values@[k] == colour_value(b, r, k),
            forall|k: int| 0 <= k < values@.len() ==> #[trigger] values@[k] <= 255,
            idx == cem_offset(b, *m, i as int),
            eps@.len() == i,
            forall|j: int| 0 <= j < i ==> #[trigger] eps@[j] == endpoint_entry(partition_endpoints(b, *m, r, j)),
        decreases pc - i,
    {
        let cem = cems[i as usize];
        let n = cem_value_count(cem) as usize;
        proof {
            lemma_cem_offset_mono(b, *m, i as int + 1, pc as int);
        }
        let mut buf = [0u32; 8];
        let mut k: usize = 0;
        while k < n
            invariant
                values@.len() <= 32,
                n == cem_count(cem),
                n <= 8,
                idx + n <= values@.len(),
                k <= n,
                forall|q: int| 0 <= q < k ==> #[trigger] buf@[q] == values@[idx + q],
                forall|q: int| k <= q < 8 ==> #[trigger] buf@[q] == 0,
            decreases n - k,
        {
            buf[k] = values[idx + k];
            k += 1;
        }
        proof {
            assert(buf@ =~= partition_values(b, *m, r, i as int));
        }
        let e = decode_endpoints(cem, &buf);
        let entry = match e {
            Some((e0, e1)) => (e0, e1, true),
            None => (ERROR_COLOR, ERROR_COLOR, false),
        };
        eps.push(entry);
        idx += n;
        i += 1;
    }
    eps
}

proof fn lemma_cem_offset_mono(b: Seq<u8>, m: BlockMode, i: int, j: int)
    requires
        0 <= i <= j,
    ensures
        0 <= cem_offset(b, m, i) <= cem_offset(b, m, j),
        cem_offset(b, m, j) <= cem_offset(b, m, i) + 8 * (j - i),
    decreases j - i,
{
    if i < j {
        lemma_cem_offset_mono(b, m, i, j - 1);
    } else if i > 0 {
        lemma_cem_offset_nonneg(b, m, i);
    }
}

proof fn lemma_cem_offset_nonneg(b: Seq<u8>, m: BlockMode, i: int)
    ensures
        0 <= cem_offset(b, m, i),
    decreases i,
{
    if i > 0 {
        lemma_cem_offset_nonneg(b, m, i - 1);
    }
}

/// The unquantized weights.
fn weight_values(data: &[u8; 16], m: &BlockMode, count: u32) -> (w: Vec<u32>)
    requires
        count == weight_count(*m),
        count <= 64,
        m.range.bits <= 5,
    ensures
        w@ == block_weights(data@, *m),
        forall|k: int| 0 <= k < w@.len() ==> #[trigger] w@[k] <= 128,
{
    let wr = IseRange { trits: m.range.trits, quints: m.range.quints, bits: m.range.bits, max: m.range.max };
    let raw = decode_ise(data, 0, true, count, wr);
    let mut w: Vec<u32> = Vec::new();
    let mut k: usize = 0;
    while k < count as usize
        invariant
            raw@.len() == count,
            wr == mode_ise(*m),
            forall|j: int| 0 <= j < count ==> #[trigger] raw@[j] == ise_value(data@, 0, true, wr, j),
            m.range.bits <= 5,
            k <= count,
            w@.len() == k,
            forall|j: int| 0 <= j < k ==> #[trigger] w@[j] == unquant_weight_spec(ise_value(data@, 0, true, wr, j), m.range),
            forall|j: int| 0 <= j < k ==> #[trigger] w@[j] <= 128,
        decreases count - k,
    {
        w.push(unquant_weight(raw[k], m.range));
        k += 1;
    }
    assert(w@ =~= block_weights(data@, *m));
    w
}

/// [`lerp16`].
fn lerp_byte(a: u8, c: u8, w: u32) -> (v: u8)
    requires
        w <= 64,
    ensures
        v == lerp16(a, c, w),
{
    let a16 = a as u32 * 257;
    let c16 = c as u32 * 257;
    assert(a16 * (64 - w) + c16 * w <= 65535 * 64) by (nonlinear_arith)
        requires
            a16 <= 65535,
            c16 <= 65535,
            w <= 64,
    ;
    let v = (a16 * (64 - w) + c16 * w + 32) / 64;
    (v / 256) as u8
}

/// Texel `(tx, ty)` of a legal normal block, from its decoded parts.
fn block_texel(
    data: &[u8; 16],
    bw: u32,
    bh: u32,
    m: &BlockMode,
    r: IseRange,
    pc: u32,
    seed: u32,
    endpoints: &Vec<([u8; 4], [u8; 4], bool)>,
    weights: &Vec<u32>,
    ccs: u32,
    ds: u32,
    dt: u32,
    tx: u32,
    ty: u32,
) -> (t: [u8; 4])
    requires
        4 <= bw <= 12,
        4 <= bh <= 12,
        tx < bw,
        ty < bh,
        pc == partitions(data@),
        1 <= pc <= 4,
        seed == block_field(data@, 13, 10),
        seed < 1024,
        endpoints@.len() == pc,
        forall|i: int| 0 <= i < pc ==> #[trigger] endpoints@[i] == endpoint_entry(partition_endpoints(data@, *m, r, i)),
        weights@ == block_weights(data@, *m),
        forall|k: int| 0 <= k < weights@.len() ==> #[trigger] weights@[k] <= 128,
        ccs == plane2_channel(data@, *m),
        ds == infill(bw),
        dt == infill(bh),
        ds <= 1025,
        dt <= 1025,
        2 <= m.weight_w <= 12,
        2 <= m.weight_h <= 12,
    ensures
        t == normal_texel(data@, bw, bh, *m, r, tx, ty),
{
    assert(bw * bh <= 144) by (nonlinear_arith)
        requires
            bw <= 12,
            bh <= 12,
    ;
    let part = if pc > 1 {
        select_partition(seed, tx, ty, pc, bw * bh < 31)
    } else {
        0
    };
    let p = if part < pc - 1 {
        part
    } else {
        pc - 1
    };
    let (e0, e1, ok) = endpoints[p as usize];
    if !ok {
        return ERROR_COLOR;
    }
    assert(ds * tx <= 0x10_0000 && dt * ty <= 0x10_0000) by (nonlinear_arith)
        requires
            ds <= 1025,
            dt <= 1025,
            tx < 12,
            ty < 12,
    ;
    let planes: u32 = if m.dual_plane {
        2
    } else {
        1
    };
    let w0 = sample_weight(weights, m.weight_w, m.weight_h, tx, ty, ds, dt, planes, 0);
    let mut texel = [0u8; 4];
    let mut ch: u32 = 0;
    while ch < 4
        invariant
            ch <= 4,
            planes == planes_of(*m),
            w0 == sample_weight_spec(weights@, m.weight_w, m.weight_h, tx, ty, ds, dt, planes, 0),
            w0 <= 64,
            weights@ == block_weights(data@, *m),
            forall|k: int| 0 <= k < weights@.len() ==> #[trigger] weights@[k] <= 128,
            ccs == plane2_channel(data@, *m),
            tx <= 11,
            ty <= 11,
            ds <= 1025,
            dt <= 1025,
            ds * tx <= 0x10_0000,
            dt * ty <= 0x10_0000,
            2 <= m.weight_w <= 12,
            2 <= m.weight_h <= 12,
            forall|c: int|
                0 <= c < ch ==> #[trigger] texel@[c] == lerp16(
                    e0[c],
                    e1[c],
                    if m.dual_plane && ccs == c {
                        sample_weight_spec(weights@, m.weight_w, m.weight_h, tx, ty, ds, dt, planes, 1)
                    } else {
                        w0
                    },
                ),
        decreases 4 - ch,
    {
        let w = if m.dual_plane && ch == ccs {
            sample_weight(weights, m.weight_w, m.weight_h, tx, ty, ds, dt, planes, 1)
        } else {
            w0
        };
        texel[ch as usize] = lerp_byte(e0[ch as usize], e1[ch as usize], w);
        ch += 1;
    }
    proof {
        assert(texel =~= normal_texel(data@, bw, bh, *m, r, tx, ty));
    }
    texel
}

/// `n` copies of `c`.
pub(crate) fn fill_texels(n: u32, c: [u8; 4]) -> (v: Vec<[u8; 4]>)
    ensures
        v@.len() == n,
        forall|i: int| 0 <= i < n ==> #[trigger] v@[i] == c,
{
    let mut v: Vec<[u8; 4]> = Vec::new();
    let mut i: u32 = 0;
    while i < n
        invariant
            i <= n,
            v@.len() == i,
            forall|j: int| 0 <= j < i ==> #[trigger] v@[j] == c,
        decreases n - i,
    {
        v.push(c);
        i += 1;
    }
    v
}

/// Decode one 128-bit ASTC LDR block at footprint `block_w × block_h`
/// into its texels, row-major. Every texel of an illegal block, of a block
/// at an unsupported footprint and of HDR content is the error colour; a
/// partition whose colour endpoint mode is HDR decodes to the error colour.
pub fn decode_astc_ldr_block(data: &[u8; 16], block_w: u32, block_h: u32) -> (out: Vec<[u8; 4]>)
    requires
        block_w * block_h <= u32::MAX,
    ensures
        out@ == astc_texels(data@, block_w, block_h),
{
    let ghost b = data@;
    let texels = block_w * block_h;
    if !(block_w <= 255 && block_h <= 255 && is_valid_footprint(block_w as u8, block_h as u8)) {
        let v = fill_texels(texels, ERROR_COLOR);
        assert(v@ =~= astc_texels(b, block_w, block_h));
        return v;
    }
    proof {
        lemma_footprint_bounds(block_w as u8, block_h as u8);
    }
    let mode_field = block_bits(data, 0, 11);
    let mode = match decode_block_mode(mode_field) {
        ModeClass::VoidExtent => {
            let v = fill_texels(texels, decode_void_extent(data));
            assert(v@ =~= astc_texels(b, block_w, block_h));
            return v;
        },
        ModeClass::Illegal => {
            let v = fill_texels(texels, ERROR_COLOR);
            assert(v@ =~= astc_texels(b, block_w, block_h));
            return v;
        },
        ModeClass::Normal(m) => m,
    };
    let ghost m = mode;
    if mode.weight_w > block_w || mode.weight_h > block_h {
        let v = fill_texels(texels, ERROR_COLOR);
        assert(v@ =~= astc_texels(b, block_w, block_h));
        return v;
    }
    let planes: u32 = if mode.dual_plane {
        2
    } else {
        1
    };
    assert(mode.weight_w * mode.weight_h * planes <= 288 && mode.weight_w * mode.weight_h <= 144) by (nonlinear_arith)
        requires
            mode.weight_w <= 12,
            mode.weight_h <= 12,
            planes <= 2,
    ;
    let total_weights = mode.weight_w * mode.weight_h * planes;
    if total_weights == 0 || total_weights > 64 {
        let v = fill_texels(texels, ERROR_COLOR);
        assert(v@ =~= astc_texels(b, block_w, block_h));
        return v;
    }
    let wr = IseRange {
        trits: mode.range.trits,
        quints: mode.range.quints,
        bits: mode.range.bits,
        max: mode.range.max,
    };
    let weight_bits = wr.bits_for_count(total_weights);
    if !(24 <= weight_bits && weight_bits <= 96) {
        let v = fill_texels(texels, ERROR_COLOR);
        assert(v@ =~= astc_texels(b, block_w, block_h));
        return v;
    }
    proof {
        crate::bitfacts::lemma_pow2_shifts();
    }
    let pc = block_bits(data, 11, 2) + 1;
    let config_below = 128 - weight_bits;
    let (cems, start, extra) = block_cems(data, &mode, pc, config_below);
    let mut total_color: u32 = 0;
    let mut i: u32 = 0;
    while i < pc
        invariant
            1 <= pc <= 4,
            pc == partitions(b),
            i <= pc,
            forall|j: int| 0 <= j < pc ==> #[trigger] cems@[j] == block_cem(b, m, j),
            total_color == cem_offset(b, m, i as int),
            total_color <= 8 * i,
        decreases pc - i,
    {
        total_color += cem_value_count(cems[i as usize]);
        i += 1;
    }
    if total_color > 18 {
        let v = fill_texels(texels, ERROR_COLOR);
        assert(v@ =~= astc_texels(b, block_w, block_h));
        return v;
    }
    let ccs_bits: u32 = if mode.dual_plane {
        2
    } else {
        0
    };
    let color_region_top = config_below - extra - ccs_bits;
    if color_region_top <= start {
        let v = fill_texels(texels, ERROR_COLOR);
        assert(v@ =~= astc_texels(b, block_w, block_h));
        return v;
    }
    let budget = color_region_top - start;
    let range = match pick_color_range(total_color, budget) {
        Some(r) => r,
        None => {
            let v = fill_texels(texels, ERROR_COLOR);
            assert(v@ =~= astc_texels(b, block_w, block_h));
            return v;
        },
    };
    assert(normal_block_ok(b, block_w, block_h, m));
    let values = colour_values(data, start, total_color, range);
    let endpoints = partition_endpoint_list(data, &mode, range, cems, pc, &values);
    let weights = weight_values(data, &mode, total_weights);
    let ccs = if mode.dual_plane {
        block_bits(data, config_below - extra - 2, 2)
    } else {
        0
    };
    let seed = block_bits(data, 13, 10);
    proof {
        crate::bitfacts::lemma_pow2_shifts();
    }
    let ds = infill_scale(block_w);
    let dt = infill_scale(block_h);
    let mut out: Vec<[u8; 4]> = Vec::new();
    let mut ty: u32 = 0;
    while ty < block_h
        invariant
            4 <= block_w <= 12,
            4 <= block_h <= 12,
            ty <= block_h,
            b == data@,
            normal_block_ok(b, block_w, block_h, m),
            block_mode_spec(block_field(b, 0, 11)) == ModeClass::Normal(m),
            footprint_ok(block_w, block_h),
            m == mode,
            colour_range(b, m) == Some(range),
            pc == partitions(b),
            1 <= pc <= 4,
            seed == block_field(b, 13, 10),
            seed < 1024,
            endpoints@.len() == pc,
            forall|i: int| 0 <= i < pc ==> #[trigger] endpoints@[i] == endpoint_entry(partition_endpoints(b, m, range, i)),
            weights@ == block_weights(b, m),
            forall|k: int| 0 <= k < weights@.len() ==> #[trigger] weights@[k] <= 128,
            ccs == plane2_channel(b, m),
            ds == infill(block_w),
            dt == infill(block_h),
            ds <= 1025,
            dt <= 1025,
            2 <= m.weight_w <= 12,
            2 <= m.weight_h <= 12,
            out@.len() == ty * block_w,
            forall|t: int| 0 <= t < out@.len() ==> #[trigger] out@[t] == astc_texel(b, block_w, block_h, t),
        decreases block_h - ty,
    {
        let mut tx: u32 = 0;
        while tx < block_w
            invariant
                4 <= block_w <= 12,
                4 <= block_h <= 12,
                ty < block_h,
                tx <= block_w,
                b == data@,
                normal_block_ok(b, block_w, block_h, m),
                block_mode_spec(block_field(b, 0, 11)) == ModeClass::Normal(m),
                footprint_ok(block_w, block_h),
                m == mode,
                colour_range(b, m) == Some(range),
                pc == partitions(b),
                1 <= pc <= 4,
                seed == block_field(b, 13, 10),
                seed < 1024,
                endpoints@.len() == pc,
                forall|i: int| 0 <= i < pc ==> #[trigger] endpoints@[i] == endpoint_entry(partition_endpoints(b, m, range, i)),
                weights@ == block_weights(b, m),
                forall|k: int| 0 <= k < weights@.len() ==> #[trigger] weights@[k] <= 128,
                ccs == plane2_channel(b, m),
                ds == infill(block_w),
                dt == infill(block_h),
                ds <= 1025,
                dt <= 1025,
                2 <= m.weight_w <= 12,
                2 <= m.weight_h <= 12,
                out@.len() == ty * block_w + tx,
                forall|t: int| 0 <= t < out@.len() ==> #[trigger] out@[t] == astc_texel(b, block_w, block_h, t),
            decreases block_w - tx,
        {
            let t = block_texel(data, block_w, block_h, &mode, range, pc, seed, &endpoints, &weights, ccs, ds, dt, tx, ty);
            proof {
                let ti = ty * block_w + tx;
                vstd::arithmetic::div_mod::lemma_fundamental_div_mod_converse(ti as int, block_w as int, ty as int, tx as int);
            }
            out.push(t);
            tx += 1;
        }
        assert((ty + 1) * block_w == ty * block_w + block_w) by (nonlinear_arith);
        ty += 1;
    }
    assert(block_h * block_w == block_w * block_h) by (nonlinear_arith);
    assert(out@ =~= astc_texels(b, block_w, block_h));
    out
}

} // verus!
