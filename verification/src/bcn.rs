//! BC1..BC5 block decompression to RGBA8 / RG8 / R8.
//!
//! * BC1 (8 bytes / block): two RGB565 endpoints `c0`, `c1` and 16 × 2-bit
//!   indices. `c0 > c1` selects the four-colour palette
//!   `(c0, c1, (2c0+c1)/3, (c0+2c1)/3)`; otherwise three colours plus a
//!   transparent black at index 3.
//! * BC2 (16 bytes): 16 explicit 4-bit alphas, then a BC1 colour block that
//!   always uses the four-colour palette.
//! * BC3 (16 bytes): an interpolated-alpha block (as BC4), then an
//!   always-four-colour BC1 colour block.
//! * BC4 (8 bytes): two 8-bit endpoints and 16 × 3-bit indices; `e0 > e1`
//!   selects eight interpolated values, otherwise six plus 0 and 255.
//! * BC5 (16 bytes): two BC4 blocks (red, then green).
//!
//! Pixels past the right or bottom edge of a non-multiple-of-4 surface are
//! skipped.
use vstd::prelude::*;
use crate::error::{DdsError, Result, is_invalid};
use crate::le::{le_u16, le_u32};
use crate::surface::{
    ceil4, surface_decoded, blocks_written, flat_rgba, write_block, write_rgba_block,
    lemma_block_step, lemma_all_blocks, lemma_block_offset,
};

verus! {

/// Total bytes of a `w × h` surface with `ch` bytes per pixel.
pub open spec fn surface_len(w: u32, h: u32, ch: int) -> int {
    w * h * ch
}

/// Bytes of a block stream covering a `w × h` surface (each dimension
/// counted as at least 1) with `bb` bytes per block.
pub open spec fn block_stream_len(w: u32, h: u32, bb: int) -> int {
    ceil4(if w == 0 { 1 } else { w as int }) * ceil4(if h == 0 { 1 } else { h as int }) * bb
}

/// Expand a 5-bit field to 8 bits by replicating its top bits.
pub open spec fn expand5(v: u8) -> u8 {
    (v << 3u8) | (v >> 2u8)
}

/// Expand a 6-bit field to 8 bits by replicating its top bits.
pub open spec fn expand6(v: u8) -> u8 {
    (v << 2u8) | (v >> 4u8)
}

/// Channel `ch` (0 = R, 1 = G, 2 = B) of an RGB565 colour widened to 8 bits.
pub open spec fn rgb565_channel(c: u16, ch: int) -> u8 {
    if ch == 0 {
        expand5(((c >> 11u16) & 0x1f) as u8)
    } else if ch == 1 {
        expand6(((c >> 5u16) & 0x3f) as u8)
    } else {
        expand5((c & 0x1f) as u8)
    }
}

/// Expand an RGB565 colour to an 8-bit `(r, g, b)` triple.
pub fn rgb565_to_rgb888(c: u16) -> (r: (u8, u8, u8))
    ensures
        r.0 == rgb565_channel(c, 0),
        r.1 == rgb565_channel(c, 1),
        r.2 == rgb565_channel(c, 2),
{
    let r5 = ((c >> 11u16) & 0x1f) as u8;
    let g6 = ((c >> 5u16) & 0x3f) as u8;
    let b5 = (c & 0x1f) as u8;
    let r = (r5 << 3u8) | (r5 >> 2u8);
    let g = (g6 << 2u8) | (g6 >> 4u8);
    let b = (b5 << 3u8) | (b5 >> 2u8);
    (r, g, b)
}

/// Channel `ch` of BC1 palette entry `idx` for endpoints `c0`, `c1`.
/// `punch` enables the three-colour-plus-transparent palette when
/// `c0 <= c1` (real BC1); BC2/BC3 colour blocks always use four colours.
pub open spec fn bc1_palette(c0: u16, c1: u16, punch: bool, idx: int, ch: int) -> u8 {
    let four = c0 > c1 || !punch;
    if ch == 3 {
        if idx == 3 && !four {
            0
        } else {
            255
        }
    } else {
        let e0 = rgb565_channel(c0, ch) as int;
        let e1 = rgb565_channel(c1, ch) as int;
        if idx == 0 {
            e0 as u8
        } else if idx == 1 {
            e1 as u8
        } else if idx == 2 {
            if four {
                ((2 * e0 + e1) / 3) as u8
            } else {
                ((e0 + e1) / 2) as u8
            }
        } else {
            if four {
                ((e0 + 2 * e1) / 3) as u8
            } else {
                0
            }
        }
    }
}

/// The 2-bit palette index of pixel `i` in a BC1 colour block.
pub open spec fn bc1_index(block: Seq<u8>, i: int) -> int {
    ((le_u32(block, 4) >> ((2 * i) as u32)) & 3u32) as int
}

/// Channel `ch` of pixel `i` of a BC1 colour block.
pub open spec fn bc1_channel(block: Seq<u8>, punch: bool, i: int, ch: int) -> u8 {
    bc1_palette(le_u16(block, 0), le_u16(block, 2), punch, bc1_index(block, i), ch)
}

/// An RGB565 colour holds red under mask `0xf800`, green under `0x07e0`
/// and blue under `0x001f`; each widens to 8 bits by repeating its top
/// bits below it (`rrrrrrrr` from `rrrrr`).
pub proof fn lemma_rgb565_masks(c: u16)
    ensures
        ({
            let r5 = ((c & 0xf800u16) >> 11u16) as u8;
            let g6 = ((c & 0x07e0u16) >> 5u16) as u8;
            let b5 = (c & 0x001fu16) as u8;
            &&& rgb565_channel(c, 0) == (r5 << 3u8) | (r5 >> 2u8)
            &&& rgb565_channel(c, 1) == (g6 << 2u8) | (g6 >> 4u8)
            &&& rgb565_channel(c, 2) == (b5 << 3u8) | (b5 >> 2u8)
        }),
{
    crate::bitfacts::lemma_rgb565_fields();
}

/// The BC1 palette on colour channel `ch` (R, G or B) with endpoint
/// values `e0`, `e1`: entries 0 and 1 are the endpoints; in four-colour
/// mode (`c0 > c1`, or any colour block of BC2/BC3) entries 2 and 3 lie
/// between them in the order `e0, [2], [3], e1`; in three-colour mode
/// entry 2 is their midpoint (rounded down) and entry 3 is black, and
/// only that entry is transparent, only with punch-through alpha.
#[verifier::spinoff_prover]
pub proof fn lemma_bc1_palette(c0: u16, c1: u16, punch: bool, ch: int)
    requires
        0 <= ch < 3,
    ensures
        ({
            let e0 = rgb565_channel(c0, ch) as int;
            let e1 = rgb565_channel(c1, ch) as int;
            let four = c0 > c1 || !punch;
            let p2 = bc1_palette(c0, c1, punch, 2, ch) as int;
            let p3 = bc1_palette(c0, c1, punch, 3, ch) as int;
            &&& bc1_palette(c0, c1, punch, 0, ch) == e0
            &&& bc1_palette(c0, c1, punch, 1, ch) == e1
            &&& four && e0 >= e1 ==> e0 >= p2 >= p3 >= e1
            &&& four && e0 <= e1 ==> e0 <= p2 <= p3 <= e1
            &&& !four ==> 2 * p2 <= e0 + e1 <= 2 * p2 + 1
            &&& !four ==> p3 == 0
            &&& bc1_palette(c0, c1, punch, 0, 3) == 255
            &&& bc1_palette(c0, c1, punch, 1, 3) == 255
            &&& bc1_palette(c0, c1, punch, 2, 3) == 255
            &&& bc1_palette(c0, c1, punch, 3, 3) == if four {
                255u8
            } else {
                0u8
            }
        }),
{
    let e0 = rgb565_channel(c0, ch) as int;
    let e1 = rgb565_channel(c1, ch) as int;
    assert forall|d: int, m: int, n: int| d > 0 && m <= n implies #[trigger] (m / d) <= #[trigger] (n / d) by {
        vstd::arithmetic::div_mod::lemma_div_is_ordered(m, n, d);
    }
    assert(e0 >= e1 ==> 3 * e1 <= e0 + 2 * e1 <= 2 * e0 + e1 <= 3 * e0);
    assert(e0 <= e1 ==> 3 * e0 <= 2 * e0 + e1 <= e0 + 2 * e1 <= 3 * e1);
    assert((3 * e1) / 3 == e1 && (3 * e0) / 3 == e0);
}

/// Decode a single BC1 colour block into 16 RGBA8 pixels.
pub fn decode_bc1_block(block: &[u8; 8], punchthrough_alpha: bool) -> (out: [[u8; 4]; 16])
    ensures
        forall|i: int, ch: int|
            0 <= i < 16 && 0 <= ch < 4 ==> #[trigger] out@[i]@[ch] == bc1_channel(
                block@,
                punchthrough_alpha,
                i,
                ch,
            ),
{
    let c0 = block[0] as u16 + (block[1] as u16) * 256;
    let c1 = block[2] as u16 + (block[3] as u16) * 256;
    let indices = block[4] as u32 + (block[5] as u32) * 256 + (block[6] as u32) * 65536
        + (block[7] as u32) * 16777216;
    assert(c0 == le_u16(block@, 0));
    assert(c1 == le_u16(block@, 2));
    assert(indices == le_u32(block@, 4));

    let (r0, g0, b0) = rgb565_to_rgb888(c0);
    let (r1, g1, b1) = rgb565_to_rgb888(c1);

    let four_colour = c0 > c1 || !punchthrough_alpha;
    let p2: [u8; 4];
    let p3: [u8; 4];
    if four_colour {
        p2 = [
            ((2 * r0 as u32 + r1 as u32) / 3) as u8,
            ((2 * g0 as u32 + g1 as u32) / 3) as u8,
            ((2 * b0 as u32 + b1 as u32) / 3) as u8,
            255,
        ];
        p3 = [
            ((r0 as u32 + 2 * r1 as u32) / 3) as u8,
            ((g0 as u32 + 2 * g1 as u32) / 3) as u8,
            ((b0 as u32 + 2 * b1 as u32) / 3) as u8,
            255,
        ];
    } else {
        p2 = [
            ((r0 as u32 + r1 as u32) / 2) as u8,
            ((g0 as u32 + g1 as u32) / 2) as u8,
            ((b0 as u32 + b1 as u32) / 2) as u8,
            255,
        ];
        p3 = [0, 0, 0, 0];
    }
    let palette: [[u8; 4]; 4] = [[r0, g0, b0, 255], [r1, g1, b1, 255], p2, p3];
    assert forall|idx: int, ch: int| 0 <= idx < 4 && 0 <= ch < 4 implies #[trigger] palette@[idx]@[ch]
        == bc1_palette(c0, c1, punchthrough_alpha, idx, ch) by {
        if idx == 0 {
        } else if idx == 1 {
        } else if idx == 2 {
        } else {
        }
    }

    let mut out = [[0u8; 4]; 16];
    let mut i: usize = 0;
    while i < 16
        invariant
            i <= 16,
            c0 == le_u16(block@, 0),
            c1 == le_u16(block@, 2),
            indices == le_u32(block@, 4),
            forall|idx: int, ch: int|
                0 <= idx < 4 && 0 <= ch < 4 ==> #[trigger] palette@[idx]@[ch] == bc1_palette(
                    c0,
                    c1,
                    punchthrough_alpha,
                    idx,
                    ch,
                ),
            forall|k: int, ch: int|
                0 <= k < i && 0 <= ch < 4 ==> #[trigger] out@[k]@[ch] == bc1_channel(
                    block@,
                    punchthrough_alpha,
                    k,
                    ch,
                ),
        decreases 16 - i,
    {
        let shift = (i * 2) as u32;
        let idx = ((indices >> shift) & 0x3) as usize;
        assert(idx < 4) by (bit_vector)
            requires
                idx == ((indices >> shift) & 0x3) as usize,
        ;
        out[i] = palette[idx];
        assert(idx as int == bc1_index(block@, i as int));
        i += 1;
    }
    out
}

/// Value of BC4-unorm palette entry `idx` for endpoints `a0`, `a1`: eight
/// interpolated values when `a0 > a1`, else six plus 0 and 255.
pub open spec fn bc4_unorm_palette(a0: u8, a1: u8, idx: int) -> u8 {
    if idx == 0 {
        a0
    } else if idx == 1 {
        a1
    } else if a0 > a1 {
        (((8 - idx) * a0 + (idx - 1) * a1) / 7) as u8
    } else if idx < 6 {
        (((6 - idx) * a0 + (idx - 1) * a1) / 5) as u8
    } else if idx == 6 {
        0
    } else {
        255
    }
}

/// The 48 index bits of an interpolated-alpha block (bytes 2..8), little-endian.
pub open spec fn bc4_bits(block: Seq<u8>) -> u64 {
    (block[2] as u64) | ((block[3] as u64) << 8u64) | ((block[4] as u64) << 16u64) | ((
    block[5] as u64) << 24u64) | ((block[6] as u64) << 32u64) | ((block[7] as u64) << 40u64)
}

/// The 3-bit palette index of pixel `i` in an interpolated-alpha block.
pub open spec fn bc4_index(block: Seq<u8>, i: int) -> int {
    ((bc4_bits(block) >> ((3 * i) as u64)) & 7u64) as int
}

/// Value of pixel `i` of a BC4-unorm block.
pub open spec fn bc4_unorm_value(block: Seq<u8>, i: int) -> u8 {
    bc4_unorm_palette(block[0], block[1], bc4_index(block, i))
}

fn bc4_packed_bits(block: &[u8; 8]) -> (r: u64)
    ensures
        r == bc4_bits(block@),
{
    (block[2] as u64) | ((block[3] as u64) << 8u64) | ((block[4] as u64) << 16u64) | ((
    block[5] as u64) << 24u64) | ((block[6] as u64) << 32u64) | ((block[7] as u64) << 40u64)
}

/// Decode an 8-byte interpolated-alpha block (BC3 alpha / BC4 unorm) into
/// 16 unsigned values.
pub fn decode_bc4_unorm_block(block: &[u8; 8]) -> (out: [u8; 16])
    ensures
        forall|i: int| 0 <= i < 16 ==> #[trigger] out@[i] == bc4_unorm_value(block@, i),
{
    let a0 = block[0];
    let a1 = block[1];
    let packed = bc4_packed_bits(block);
    let e0 = a0 as u16;
    let e1 = a1 as u16;
    let palette: [u16; 8] = if a0 > a1 {
        [
            e0,
            e1,
            (6 * e0 + e1) / 7,
            (5 * e0 + 2 * e1) / 7,
            (4 * e0 + 3 * e1) / 7,
            (3 * e0 + 4 * e1) / 7,
            (2 * e0 + 5 * e1) / 7,
            (e0 + 6 * e1) / 7,
        ]
    } else {
        [e0, e1, (4 * e0 + e1) / 5, (3 * e0 + 2 * e1) / 5, (2 * e0 + 3 * e1) / 5, (e0 + 4 * e1) / 5, 0, 255]
    };
    assert forall|idx: int| 0 <= idx < 8 implies #[trigger] palette@[idx] as u8 == bc4_unorm_palette(
        a0,
        a1,
        idx,
    ) && palette@[idx] < 256 by {
        if idx == 0 {
        } else if idx == 1 {
        } else if idx == 2 {
            assert((8 - idx) * a0 == 6 * a0 && (idx - 1) * a1 == a1);
            assert((6 - idx) * a0 == 4 * a0 && (idx - 1) * a1 == a1);
        } else if idx == 3 {
            assert((8 - idx) * a0 == 5 * a0 && (idx - 1) * a1 == 2 * a1);
            assert((6 - idx) * a0 == 3 * a0 && (idx - 1) * a1 == 2 * a1);
        } else if idx == 4 {
            assert((8 - idx) * a0 == 4 * a0 && (idx - 1) * a1 == 3 * a1);
            assert((6 - idx) * a0 == 2 * a0 && (idx - 1) * a1 == 3 * a1);
        } else if idx == 5 {
            assert((8 - idx) * a0 == 3 * a0 && (idx - 1) * a1 == 4 * a1);
            assert((6 - idx) * a0 == 1 * a0 && (idx - 1) * a1 == 4 * a1);
        } else if idx == 6 {
            assert((8 - idx) * a0 == 2 * a0 && (idx - 1) * a1 == 5 * a1);
        } else {
            assert((8 - idx) * a0 == 1 * a0 && (idx - 1) * a1 == 6 * a1);
        }
    }
    let mut out = [0u8; 16];
    let mut i: usize = 0;
    while i < 16
        invariant
            i <= 16,
            a0 == block@[0],
            a1 == block@[1],
            packed == bc4_bits(block@),
            forall|idx: int| 0 <= idx < 8 ==> #[trigger] palette@[idx] as u8 == bc4_unorm_palette(a0, a1, idx),
            forall|k: int| 0 <= k < i ==> #[trigger] out@[k] == bc4_unorm_value(block@, k),
        decreases 16 - i,
    {
        let shift = (i * 3) as u64;
        let idx64 = (packed >> shift) & 0x7;
        assert(idx64 < 8) by (bit_vector)
            requires
                idx64 == (packed >> shift) & 0x7,
        ;
        let idx = idx64 as usize;
        assert(idx as int == bc4_index(block@, i as int));
        out[i] = palette[idx] as u8;
        i += 1;
    }
    out
}

/// Value of BC4-snorm palette entry `idx` for signed endpoints `a0`, `a1`,
/// before clamping: floor-interpolated, with -127 and 127 at indices 6/7 of
/// the six-value palette.
pub open spec fn bc4_snorm_palette(a0: int, a1: int, idx: int) -> int {
    if idx == 0 {
        a0
    } else if idx == 1 {
        a1
    } else if a0 > a1 {
        ((8 - idx) * a0 + (idx - 1) * a1) / 7
    } else if idx < 6 {
        ((6 - idx) * a0 + (idx - 1) * a1) / 5
    } else if idx == 6 {
        -127
    } else {
        127
    }
}

/// Clamp to the SNORM range `-127..=127`.
pub open spec fn clamp127(v: int) -> i8 {
    if v < -127 {
        -127i8
    } else if v > 127 {
        127i8
    } else {
        v as i8
    }
}

/// Value of pixel `i` of a BC4-snorm block.
pub open spec fn bc4_snorm_value(block: Seq<u8>, i: int) -> i8 {
    clamp127(bc4_snorm_palette(block[0] as i8 as int, block[1] as i8 as int, bc4_index(block, i)))
}

/// The ends of a BC4 block's palette: indices 0 and 1 give the two
/// endpoint bytes (clamped to -127 when signed), and in the six-value
/// palette (first endpoint not above the second) index 6 gives the bottom
/// of the range and index 7 its top: 0 and 255 unsigned, -127 and 127
/// (-1.0 and +1.0) signed.
pub proof fn lemma_bc4_palette_ends(block: Seq<u8>, i: int)
    requires
        block.len() == 8,
        0 <= i < 16,
    ensures
        bc4_index(block, i) == 0 ==> bc4_unorm_value(block, i) == block[0],
        bc4_index(block, i) == 1 ==> bc4_unorm_value(block, i) == block[1],
        block[0] <= block[1] && bc4_index(block, i) == 6 ==> bc4_unorm_value(block, i) == 0,
        block[0] <= block[1] && bc4_index(block, i) == 7 ==> bc4_unorm_value(block, i) == 255,
        bc4_index(block, i) == 0 ==> bc4_snorm_value(block, i) == if block[0] as i8 == -128 {
            -127i8
        } else {
            block[0] as i8
        },
        bc4_index(block, i) == 1 ==> bc4_snorm_value(block, i) == if block[1] as i8 == -128 {
            -127i8
        } else {
            block[1] as i8
        },
        (block[0] as i8) <= (block[1] as i8) && bc4_index(block, i) == 6 ==> bc4_snorm_value(block, i) == -127,
        (block[0] as i8) <= (block[1] as i8) && bc4_index(block, i) == 7 ==> bc4_snorm_value(block, i) == 127,
{
}

/// The interpolated entries of a BC4 palette run in order from the first
/// endpoint to the second: with the first endpoint above the second,
/// entries 0, 2, 3, 4, 5, 6, 7, 1 never increase; otherwise entries 0, 2,
/// 3, 4, 5, 1 never decrease. Unsigned and signed alike.
#[verifier::spinoff_prover]
pub proof fn lemma_bc4_palette_order(a0: u8, a1: u8, s0: int, s1: int, k: int)
    requires
        2 <= k <= 6,
        -128 <= s0 <= 127,
        -128 <= s1 <= 127,
    ensures
        a0 > a1 ==> bc4_unorm_palette(a0, a1, k + 1) <= bc4_unorm_palette(a0, a1, k),
        a0 > a1 ==> bc4_unorm_palette(a0, a1, 2) <= a0 && a1 <= bc4_unorm_palette(a0, a1, 7),
        a0 <= a1 && k <= 4 ==> bc4_unorm_palette(a0, a1, k) <= bc4_unorm_palette(a0, a1, k + 1),
        a0 <= a1 ==> a0 <= bc4_unorm_palette(a0, a1, 2) && bc4_unorm_palette(a0, a1, 5) <= a1,
        s0 > s1 ==> bc4_snorm_palette(s0, s1, k + 1) <= bc4_snorm_palette(s0, s1, k),
        s0 > s1 ==> bc4_snorm_palette(s0, s1, 2) <= s0 && s1 <= bc4_snorm_palette(s0, s1, 7),
        s0 <= s1 && k <= 4 ==> bc4_snorm_palette(s0, s1, k) <= bc4_snorm_palette(s0, s1, k + 1),
        s0 <= s1 ==> s0 <= bc4_snorm_palette(s0, s1, 2) && bc4_snorm_palette(s0, s1, 5) <= s1,
{
    let x0 = a0 as int;
    let x1 = a1 as int;
    assert forall|d: int, m: int, n: int| d > 0 && m <= n implies #[trigger] (m / d) <= #[trigger] (n / d) by {
        vstd::arithmetic::div_mod::lemma_div_is_ordered(m, n, d);
    }
    assert((5 * x0) / 5 == x0 && (5 * x1) / 5 == x1 && (7 * x0) / 7 == x0 && (7 * x1) / 7 == x1);
    assert((5 * s0) / 5 == s0 && (5 * s1) / 5 == s1 && (7 * s0) / 7 == s0 && (7 * s1) / 7 == s1);
    if x0 <= x1 {
        vstd::arithmetic::div_mod::lemma_div_is_ordered(5 * x0, 4 * x0 + x1, 5);
        vstd::arithmetic::div_mod::lemma_div_is_ordered(x0 + 4 * x1, 5 * x1, 5);
        assert(bc4_unorm_palette(a0, a1, 2) == ((4 * x0 + x1) / 5) as u8);
        assert(bc4_unorm_palette(a0, a1, 5) == ((x0 + 4 * x1) / 5) as u8);
    }
    assert(x0 > x1 ==> 6 * x0 + x1 <= 7 * x0 && 7 * x1 <= x0 + 6 * x1);
    assert(s0 <= s1 ==> 5 * s0 <= 4 * s0 + s1 && s0 + 4 * s1 <= 5 * s1);
    assert(s0 > s1 ==> 6 * s0 + s1 <= 7 * s0 && 7 * s1 <= s0 + 6 * s1);
    assert(((8 - k) * x0 + (k - 1) * x1) - ((8 - (k + 1)) * x0 + k * x1) == x0 - x1) by (nonlinear_arith);
    assert(((6 - k) * x0 + (k - 1) * x1) - ((6 - (k + 1)) * x0 + k * x1) == x0 - x1) by (nonlinear_arith);
    assert(((8 - k) * s0 + (k - 1) * s1) - ((8 - (k + 1)) * s0 + k * s1) == s0 - s1) by (nonlinear_arith);
    assert(((6 - k) * s0 + (k - 1) * s1) - ((6 - (k + 1)) * s0 + k * s1) == s0 - s1) by (nonlinear_arith);
    assert(0 <= ((8 - k) * x0 + (k - 1) * x1) <= 7 * 255) by (nonlinear_arith)
        requires
            2 <= k <= 6,
            0 <= x0 <= 255,
            0 <= x1 <= 255,
    ;
    assert(0 <= ((8 - (k + 1)) * x0 + k * x1) <= 7 * 255) by (nonlinear_arith)
        requires
            2 <= k <= 6,
            0 <= x0 <= 255,
            0 <= x1 <= 255,
    ;
    assert(0 <= ((6 - k) * x0 + (k - 1) * x1) <= 5 * 255) by (nonlinear_arith)
        requires
            2 <= k <= 6,
            0 <= x0 <= 255,
            0 <= x1 <= 255,
    ;
    assert(0 <= ((6 - (k + 1)) * x0 + k * x1) <= 5 * 255 || k > 4) by (nonlinear_arith)
        requires
            2 <= k <= 6,
            0 <= x0 <= 255,
            0 <= x1 <= 255,
    ;
}

/// `floor((wa·a + wb·b) / d)` for signed bytes `a`, `b`, weights summing to `d`.
fn floor_interp(wa: i32, a: i32, wb: i32, b: i32, d: i32) -> (r: i32)
    requires
        d == 5 || d == 7,
        0 <= wa <= d,
        0 <= wb <= d,
        wa + wb == d,
        -128 <= a <= 127,
        -128 <= b <= 127,
    ensures
        r == (wa * a + wb * b) / (d as int),
{
    assert(-128 * d <= wa * a + wb * b <= 127 * d) by (nonlinear_arith)
        requires
            0 <= wa <= d,
            0 <= wb <= d,
            wa + wb == d,
            -128 <= a <= 127,
            -128 <= b <= 127,
    ;
    assert(-128 * d <= wa * a <= 127 * d && -128 * d <= wb * b <= 127 * d) by (nonlinear_arith)
        requires
            0 <= wa <= d,
            0 <= wb <= d,
            d <= 7,
            -128 <= a <= 127,
            -128 <= b <= 127,
    ;
    let num = wa * a + wb * b + 128 * d;
    let q = (num as u32 / d as u32) as i32;
    proof {
        let n = wa * a + wb * b;
        vstd::arithmetic::div_mod::lemma_fundamental_div_mod(num as int, d as int);
        vstd::arithmetic::div_mod::lemma_mod_bound(num as int, d as int);
        vstd::arithmetic::div_mod::lemma_fundamental_div_mod_converse(
            n,
            d as int,
            q - 128,
            num as int % d as int,
        );
    }
    q - 128
}

/// Decode an 8-byte interpolated-alpha block (BC4 snorm) into 16 signed values.
pub fn decode_bc4_snorm_block(block: &[u8; 8]) -> (out: [i8; 16])
    ensures
        forall|i: int| 0 <= i < 16 ==> #[trigger] out@[i] == bc4_snorm_value(block@, i),
{
    let a0 = block[0] as i8;
    let a1 = block[1] as i8;
    let packed = bc4_packed_bits(block);
    let e0 = a0 as i32;
    let e1 = a1 as i32;
    let palette: [i32; 8] = if a0 > a1 {
        [
            e0,
            e1,
            floor_interp(6, e0, 1, e1, 7),
            floor_interp(5, e0, 2, e1, 7),
            floor_interp(4, e0, 3, e1, 7),
            floor_interp(3, e0, 4, e1, 7),
            floor_interp(2, e0, 5, e1, 7),
            floor_interp(1, e0, 6, e1, 7),
        ]
    } else {
        [
            e0,
            e1,
            floor_interp(4, e0, 1, e1, 5),
            floor_interp(3, e0, 2, e1, 5),
            floor_interp(2, e0, 3, e1, 5),
            floor_interp(1, e0, 4, e1, 5),
            -127,
            127,
        ]
    };
    assert forall|idx: int| 0 <= idx < 8 implies #[trigger] palette@[idx] == bc4_snorm_palette(
        e0 as int,
        e1 as int,
        idx,
    ) by {
        let (a, b) = (e0 as int, e1 as int);
        if idx == 2 {
            assert((8 - idx) * a == 6 * a && (idx - 1) * b == b);
            assert((6 - idx) * a == 4 * a && (idx - 1) * b == b);
        } else if idx == 3 {
            assert((8 - idx) * a == 5 * a && (idx - 1) * b == 2 * b);
            assert((6 - idx) * a == 3 * a && (idx - 1) * b == 2 * b);
        } else if idx == 4 {
            assert((8 - idx) * a == 4 * a && (idx - 1) * b == 3 * b);
            assert((6 - idx) * a == 2 * a && (idx - 1) * b == 3 * b);
        } else if idx == 5 {
            assert((8 - idx) * a == 3 * a && (idx - 1) * b == 4 * b);
            assert((6 - idx) * a == 1 * a && (idx - 1) * b == 4 * b);
        } else if idx == 6 {
            assert((8 - idx) * a == 2 * a && (idx - 1) * b == 5 * b);
        } else if idx == 7 {
            assert((8 - idx) * a == 1 * a && (idx - 1) * b == 6 * b);
        }
    }
    let mut out = [0i8; 16];
    let mut i: usize = 0;
    while i < 16
        invariant
            i <= 16,
            e0 == block@[0] as i8 as int,
            e1 == block@[1] as i8 as int,
            packed == bc4_bits(block@),
            forall|idx: int| 0 <= idx < 8 ==> #[trigger] palette@[idx] == bc4_snorm_palette(e0 as int, e1 as int, idx),
            forall|k: int| 0 <= k < i ==> #[trigger] out@[k] == bc4_snorm_value(block@, k),
        decreases 16 - i,
    {
        let shift = (i * 3) as u64;
        let idx64 = (packed >> shift) & 0x7;
        assert(idx64 < 8) by (bit_vector)
            requires
                idx64 == (packed >> shift) & 0x7,
        ;
        let idx = idx64 as usize;
        assert(idx as int == bc4_index(block@, i as int));
        let v = palette[idx];
        out[i] = if v < -127 {
            -127
        } else if v > 127 {
            127
        } else {
            v as i8
        };
        i += 1;
    }
    out
}

/// Explicit 4-bit alpha of pixel `i` of a BC2 alpha block (low nibble
/// first), widened to 8 bits as `a4 << 4 | a4`.
pub open spec fn bc2_alpha_value(block: Seq<u8>, i: int) -> u8 {
    let nibble = if i % 2 == 0 {
        block[i / 2] & 0x0f
    } else {
        (block[i / 2] >> 4u8) & 0x0f
    };
    (nibble << 4u8) | nibble
}

/// Decode a BC2 explicit 4-bit alpha block (8 bytes) into 16 alpha values.
pub fn decode_bc2_alpha_block(block: &[u8; 8]) -> (out: [u8; 16])
    ensures
        forall|i: int| 0 <= i < 16 ==> #[trigger] out@[i] == bc2_alpha_value(block@, i),
{
    let mut out = [0u8; 16];
    let mut i: usize = 0;
    while i < 16
        invariant
            i <= 16,
            forall|k: int| 0 <= k < i ==> #[trigger] out@[k] == bc2_alpha_value(block@, k),
        decreases 16 - i,
    {
        let nibble = if i & 1 == 0 {
            block[i / 2] & 0x0f
        } else {
            (block[i / 2] >> 4u8) & 0x0f
        };
        assert((i & 1 == 0) == (i % 2 == 0)) by (bit_vector);
        out[i] = (nibble << 4u8) | nibble;
        i += 1;
    }
    out
}

// ---- Surface-level decoders -------------------------------------------------

/// Whether a `w × h` surface of `bb`-byte blocks can be decoded from
/// `in_len` input bytes into `out_len` output bytes of `ch`-byte pixels.
pub open spec fn lengths_ok(in_len: int, out_len: int, w: u32, h: u32, bb: int, ch: int) -> bool {
    block_stream_len(w, h, bb) <= in_len && surface_len(w, h, ch) <= out_len
}

/// Number of 4-wide blocks covering `n` pixels.
pub fn ceil_div4(n: u32) -> (r: usize)
    ensures
        r == ceil4(n as int),
{
    (n / 4 + if n % 4 != 0 { 1 } else { 0 }) as usize
}

/// Bytes of the block stream covering a `width × height` surface (each
/// dimension counted as at least 1); `None` when that exceeds `usize`.
pub fn block_input_bytes(width: u32, height: u32, block_bytes: u32) -> (r: Option<usize>)
    ensures
        r is Some <==> block_stream_len(width, height, block_bytes as int) <= usize::MAX,
        r matches Some(n) ==> n == block_stream_len(width, height, block_bytes as int),
{
    let bw = ceil_div4(if width == 0 { 1 } else { width });
    let bh = ceil_div4(if height == 0 { 1 } else { height });
    match bw.checked_mul(bh) {
        Some(n) => n.checked_mul(block_bytes as usize),
        None => {
            if block_bytes == 0 {
                Some(0)
            } else {
                proof {
                    crate::le::lemma_mul_grows(bw * bh, block_bytes as int);
                }
                None
            }
        },
    }
}

pub(crate) fn check_lengths(input_len: usize, output_len: usize, width: u32, height: u32, bb: u32, ch: usize) -> (ok: bool)
    requires
        1 <= ch <= 8,
        bb >= 1,
    ensures
        ok == lengths_ok(input_len as int, output_len as int, width, height, bb as int, ch as int),
{
    let want_in = match block_input_bytes(width, height, bb) {
        Some(n) => n,
        None => {
            return false;
        },
    };
    if input_len < want_in {
        return false;
    }
    match crate::le::surface_need(width, height, ch, 1) {
        Some((n, _)) => output_len >= n,
        None => false,
    }
}

/// The 8 bytes at `off`.
pub fn read_block8(input: &[u8], off: usize) -> (b: [u8; 8])
    requires
        off + 8 <= input@.len(),
    ensures
        b@ == input@.subrange(off as int, off + 8),
{
    let b = [
        input[off],
        input[off + 1],
        input[off + 2],
        input[off + 3],
        input[off + 4],
        input[off + 5],
        input[off + 6],
        input[off + 7],
    ];
    assert(b@ =~= input@.subrange(off as int, off + 8));
    b
}

/// BC1 texels of every block of a BC1 stream (block `b` at bytes `8b..8b+8`).
pub open spec fn bc1_stream_texels(input: Seq<u8>, punch: bool) -> spec_fn(int) -> Seq<u8> {
    |b: int| Seq::new(64, |k: int| bc1_channel(input.subrange(8 * b, 8 * b + 8), punch, k / 4, k % 4))
}

/// Loop facts shared by the block loops of the surface decoders.
pub open spec fn block_loop(w: u32, h: u32, bw: usize, bh: usize) -> bool {
    &&& bw == ceil4(w as int)
    &&& bh == ceil4(h as int)
    &&& (w > 0 && h > 0) ==> bw == ceil4(if w == 0 { 1 } else { w as int }) && bh == ceil4(
        if h == 0 { 1 } else { h as int },
    )
}

/// Decode a BC1 surface to RGBA8. `input` must hold
/// `ceil(w/4) × ceil(h/4) × 8` bytes and `output` `w × h × 4` bytes;
/// otherwise the result is `InvalidData` and `output` is untouched.
pub fn decode_bc1(input: &[u8], width: u32, height: u32, output: &mut [u8]) -> (r: Result<()>)
    ensures
        lengths_ok(input@.len() as int, old(output)@.len() as int, width, height, 8, 4) ==> (r is Ok
            && surface_decoded(
            final(output)@,
            old(output)@,
            width as int,
            height as int,
            4,
            bc1_stream_texels(input@, true),
        )),
        !lengths_ok(input@.len() as int, old(output)@.len() as int, width, height, 8, 4) ==> (
        is_invalid(r) && final(output)@ == old(output)@),
{
    decode_bc1_inner(input, width, height, output, true)
}

fn decode_bc1_inner(input: &[u8], width: u32, height: u32, output: &mut [u8], punchthrough_alpha: bool) -> (r: Result<()>)
    ensures
        lengths_ok(input@.len() as int, old(output)@.len() as int, width, height, 8, 4) ==> (r is Ok
            && surface_decoded(
            final(output)@,
            old(output)@,
            width as int,
            height as int,
            4,
            bc1_stream_texels(input@, punchthrough_alpha),
        )),
        !lengths_ok(input@.len() as int, old(output)@.len() as int, width, height, 8, 4) ==> (
        is_invalid(r) && final(output)@ == old(output)@),
{
    if !check_lengths(input.len(), output.len(), width, height, 8, 4) {
        return Err(DdsError::invalid("BC1: input or output shorter than the surface"));
    }
    let ghost blocks = bc1_stream_texels(input@, punchthrough_alpha);
    let ghost orig = output@;
    let bw = ceil_div4(width);
    let bh = ceil_div4(height);
    let mut by: usize = 0;
    while by < bh
        invariant
            block_loop(width, height, bw, bh),
            lengths_ok(input@.len() as int, orig.len() as int, width, height, 8, 4),
            input@.len() <= usize::MAX,
            by <= bh,
            blocks == bc1_stream_texels(input@, punchthrough_alpha),
            blocks_written(output@, orig, width as int, height as int, 4, blocks, by * bw),
        decreases bh - by,
    {
        let mut bx: usize = 0;
        while bx < bw
            invariant
                block_loop(width, height, bw, bh),
                lengths_ok(input@.len() as int, orig.len() as int, width, height, 8, 4),
                input@.len() <= usize::MAX,
                by < bh,
                bx <= bw,
                blocks == bc1_stream_texels(input@, punchthrough_alpha),
                blocks_written(output@, orig, width as int, height as int, 4, blocks, by * bw + bx),
            decreases bw - bx,
        {
            proof {
                lemma_block_offset(bx as int, by as int, bw as int, bh as int, 8);
            }
            let off = (by * bw + bx) * 8;
            let block = read_block8(input, off);
            let pixels = decode_bc1_block(&block, punchthrough_alpha);
            let ghost before = output@;
            write_rgba_block(&pixels, bx, by, width, height, output);
            proof {
                let b = by * bw + bx;
                assert(flat_rgba(pixels@) =~= blocks(b));
                lemma_block_step(before, output@, orig, width as int, height as int, 4, blocks, b);
            }
            bx += 1;
        }
        assert((by + 1) * bw == by * bw + bw) by (nonlinear_arith);
        by += 1;
    }
    proof {
        assert(bh * bw == bw * bh) by (nonlinear_arith);
        lemma_all_blocks(output@, orig, width as int, height as int, 4, blocks);
    }
    Ok(())
}

/// RGBA texels of every block of a BC2 stream: alpha from the explicit
/// 4-bit block at `16b`, colour from the four-colour BC1 block at `16b + 8`.
pub open spec fn bc2_stream_texels(input: Seq<u8>) -> spec_fn(int) -> Seq<u8> {
    |b: int|
        Seq::new(
            64,
            |k: int|
                if k % 4 == 3 {
                    bc2_alpha_value(input.subrange(16 * b, 16 * b + 8), k / 4)
                } else {
                    bc1_channel(input.subrange(16 * b + 8, 16 * b + 16), false, k / 4, k % 4)
                },
        )
}

/// RGBA texels of every block of a BC3 stream: alpha from the interpolated
/// block at `16b`, colour from the four-colour BC1 block at `16b + 8`.
pub open spec fn bc3_stream_texels(input: Seq<u8>) -> spec_fn(int) -> Seq<u8> {
    |b: int|
        Seq::new(
            64,
            |k: int|
                if k % 4 == 3 {
                    bc4_unorm_value(input.subrange(16 * b, 16 * b + 8), k / 4)
                } else {
                    bc1_channel(input.subrange(16 * b + 8, 16 * b + 16), false, k / 4, k % 4)
                },
        )
}

/// R8 texels of every block of a BC4-unorm stream.
pub open spec fn bc4_unorm_stream_texels(input: Seq<u8>) -> spec_fn(int) -> Seq<u8> {
    |b: int| Seq::new(16, |k: int| bc4_unorm_value(input.subrange(8 * b, 8 * b + 8), k))
}

/// R8 texels (signed values stored as their two's-complement byte) of every
/// block of a BC4-snorm stream.
pub open spec fn bc4_snorm_stream_texels(input: Seq<u8>) -> spec_fn(int) -> Seq<u8> {
    |b: int| Seq::new(16, |k: int| bc4_snorm_value(input.subrange(8 * b, 8 * b + 8), k) as u8)
}

/// RG8 texels of every block of a BC5-unorm stream (red block at `16b`,
/// green block at `16b + 8`, interleaved).
pub open spec fn bc5_unorm_stream_texels(input: Seq<u8>) -> spec_fn(int) -> Seq<u8> {
    |b: int|
        Seq::new(
            32,
            |k: int|
                if k % 2 == 0 {
                    bc4_unorm_value(input.subrange(16 * b, 16 * b + 8), k / 2)
                } else {
                    bc4_unorm_value(input.subrange(16 * b + 8, 16 * b + 16), k / 2)
                },
        )
}

/// RG8 texels (two's-complement bytes) of every block of a BC5-snorm stream.
pub open spec fn bc5_snorm_stream_texels(input: Seq<u8>) -> spec_fn(int) -> Seq<u8> {
    |b: int|
        Seq::new(
            32,
            |k: int|
                if k % 2 == 0 {
                    bc4_snorm_value(input.subrange(16 * b, 16 * b + 8), k / 2) as u8
                } else {
                    bc4_snorm_value(input.subrange(16 * b + 8, 16 * b + 16), k / 2) as u8
                },
        )
}

/// Decode a BC2 (DXT3) surface to RGBA8: 16-byte blocks of explicit 4-bit
/// alpha followed by a four-colour BC1 colour block.
pub fn decode_bc2(input: &[u8], width: u32, height: u32, output: &mut [u8]) -> (r: Result<()>)
    ensures
        lengths_ok(input@.len() as int, old(output)@.len() as int, width, height, 16, 4) ==> (r is Ok
            && surface_decoded(
            final(output)@,
            old(output)@,
            width as int,
            height as int,
            4,
            bc2_stream_texels(input@),
        )),
        !lengths_ok(input@.len() as int, old(output)@.len() as int, width, height, 16, 4) ==> (
        is_invalid(r) && final(output)@ == old(output)@),
{
    if !check_lengths(input.len(), output.len(), width, height, 16, 4) {
        return Err(DdsError::invalid("BC2: input or output shorter than the surface"));
    }
    let ghost blocks = bc2_stream_texels(input@);
    let ghost orig = output@;
    let bw = ceil_div4(width);
    let bh = ceil_div4(height);
    let mut by: usize = 0;
    while by < bh
        invariant
            block_loop(width, height, bw, bh),
            lengths_ok(input@.len() as int, orig.len() as int, width, height, 16, 4),
            input@.len() <= usize::MAX,
            by <= bh,
            blocks == bc2_stream_texels(input@),
            blocks_written(output@, orig, width as int, height as int, 4, blocks, by * bw),
        decreases bh - by,
    {
        let mut bx: usize = 0;
        while bx < bw
            invariant
                block_loop(width, height, bw, bh),
                lengths_ok(input@.len() as int, orig.len() as int, width, height, 16, 4),
                input@.len() <= usize::MAX,
                by < bh,
                bx <= bw,
                blocks == bc2_stream_texels(input@),
                blocks_written(output@, orig, width as int, height as int, 4, blocks, by * bw + bx),
            decreases bw - bx,
        {
            proof {
                lemma_block_offset(bx as int, by as int, bw as int, bh as int, 16);
            }
            let off = (by * bw + bx) * 16;
            let alpha_block = read_block8(input, off);
            let colour_block = read_block8(input, off + 8);
            let alpha = decode_bc2_alpha_block(&alpha_block);
            let mut pixels = decode_bc1_block(&colour_block, false);
            let mut i: usize = 0;
            while i < 16
                invariant
                    i <= 16,
                    forall|t: int, c: int|
                        0 <= t < 16 && 0 <= c < 4 ==> #[trigger] pixels@[t]@[c] == (if c == 3 && t < i {
                            alpha@[t]
                        } else {
                            bc1_channel(colour_block@, false, t, c)
                        }),
                decreases 16 - i,
            {
                let mut p = pixels[i];
                p[3] = alpha[i];
                pixels[i] = p;
                i += 1;
            }
            let ghost before = output@;
            write_rgba_block(&pixels, bx, by, width, height, output);
            proof {
                let b = by * bw + bx;
                assert(alpha_block@ =~= input@.subrange(16 * b, 16 * b + 8));
                assert(colour_block@ =~= input@.subrange(16 * b + 8, 16 * b + 16));
                assert(flat_rgba(pixels@) =~= blocks(b));
                lemma_block_step(before, output@, orig, width as int, height as int, 4, blocks, b);
            }
            bx += 1;
        }
        assert((by + 1) * bw == by * bw + bw) by (nonlinear_arith);
        by += 1;
    }
    proof {
        assert(bh * bw == bw * bh) by (nonlinear_arith);
        lemma_all_blocks(output@, orig, width as int, height as int, 4, blocks);
    }
    Ok(())
}

/// Decode a BC3 (DXT5) surface to RGBA8: 16-byte blocks of interpolated
/// alpha followed by a four-colour BC1 colour block.
pub fn decode_bc3(input: &[u8], width: u32, height: u32, output: &mut [u8]) -> (r: Result<()>)
    ensures
        lengths_ok(input@.len() as int, old(output)@.len() as int, width, height, 16, 4) ==> (r is Ok
            && surface_decoded(
            final(output)@,
            old(output)@,
            width as int,
            height as int,
            4,
            bc3_stream_texels(input@),
        )),
        !lengths_ok(input@.len() as int, old(output)@.len() as int, width, height, 16, 4) ==> (
        is_invalid(r) && final(output)@ == old(output)@),
{
    if !check_lengths(input.len(), output.len(), width, height, 16, 4) {
        return Err(DdsError::invalid("BC3: input or output shorter than the surface"));
    }
    let ghost blocks = bc3_stream_texels(input@);
    let ghost orig = output@;
    let bw = ceil_div4(width);
    let bh = ceil_div4(height);
    let mut by: usize = 0;
    while by < bh
        invariant
            block_loop(width, height, bw, bh),
            lengths_ok(input@.len() as int, orig.len() as int, width, height, 16, 4),
            input@.len() <= usize::MAX,
            by <= bh,
            blocks == bc3_stream_texels(input@),
            blocks_written(output@, orig, width as int, height as int, 4, blocks, by * bw),
        decreases bh - by,
    {
        let mut bx: usize = 0;
        while bx < bw
            invariant
                block_loop(width, height, bw, bh),
                lengths_ok(input@.len() as int, orig.len() as int, width, height, 16, 4),
                input@.len() <= usize::MAX,
                by < bh,
                bx <= bw,
                blocks == bc3_stream_texels(input@),
                blocks_written(output@, orig, width as int, height as int, 4, blocks, by * bw + bx),
            decreases bw - bx,
        {
            proof {
                lemma_block_offset(bx as int, by as int, bw as int, bh as int, 16);
            }
            let off = (by * bw + bx) * 16;
            let alpha_block = read_block8(input, off);
            let colour_block = read_block8(input, off + 8);
            let alpha = decode_bc4_unorm_block(&alpha_block);
            let mut pixels = decode_bc1_block(&colour_block, false);
            let mut i: usize = 0;
            while i < 16
                invariant
                    i <= 16,
                    forall|t: int, c: int|
                        0 <= t < 16 && 0 <= c < 4 ==> #[trigger] pixels@[t]@[c] == (if c == 3 && t < i {
                            alpha@[t]
                        } else {
                            bc1_channel(colour_block@, false, t, c)
                        }),
                decreases 16 - i,
            {
                let mut p = pixels[i];
                p[3] = alpha[i];
                pixels[i] = p;
                i += 1;
            }
            let ghost before = output@;
            write_rgba_block(&pixels, bx, by, width, height, output);
            proof {
                let b = by * bw + bx;
                assert(alpha_block@ =~= input@.subrange(16 * b, 16 * b + 8));
                assert(colour_block@ =~= input@.subrange(16 * b + 8, 16 * b + 16));
                assert(flat_rgba(pixels@) =~= blocks(b));
                lemma_block_step(before, output@, orig, width as int, height as int, 4, blocks, b);
            }
            bx += 1;
        }
        assert((by + 1) * bw == by * bw + bw) by (nonlinear_arith);
        by += 1;
    }
    proof {
        assert(bh * bw == bw * bh) by (nonlinear_arith);
        lemma_all_blocks(output@, orig, width as int, height as int, 4, blocks);
    }
    Ok(())
}

/// Decode a BC4 unsigned single-channel surface to R8.
pub fn decode_bc4_unorm(input: &[u8], width: u32, height: u32, output: &mut [u8]) -> (r: Result<()>)
    ensures
        lengths_ok(input@.len() as int, old(output)@.len() as int, width, height, 8, 1) ==> (r is Ok
            && surface_decoded(
            final(output)@,
            old(output)@,
            width as int,
            height as int,
            1,
            bc4_unorm_stream_texels(input@),
        )),
        !lengths_ok(input@.len() as int, old(output)@.len() as int, width, height, 8, 1) ==> (
        is_invalid(r) && final(output)@ == old(output)@),
{
    if !check_lengths(input.len(), output.len(), width, height, 8, 1) {
        return Err(DdsError::invalid("BC4: input or output shorter than the surface"));
    }
    let ghost blocks = bc4_unorm_stream_texels(input@);
    let ghost orig = output@;
    let bw = ceil_div4(width);
    let bh = ceil_div4(height);
    let mut by: usize = 0;
    while by < bh
        invariant
            block_loop(width, height, bw, bh),
            lengths_ok(input@.len() as int, orig.len() as int, width, height, 8, 1),
            input@.len() <= usize::MAX,
            by <= bh,
            blocks == bc4_unorm_stream_texels(input@),
            blocks_written(output@, orig, width as int, height as int, 1, blocks, by * bw),
        decreases bh - by,
    {
        let mut bx: usize = 0;
        while bx < bw
            invariant
                block_loop(width, height, bw, bh),
                lengths_ok(input@.len() as int, orig.len() as int, width, height, 8, 1),
                input@.len() <= usize::MAX,
                by < bh,
                bx <= bw,
                blocks == bc4_unorm_stream_texels(input@),
                blocks_written(output@, orig, width as int, height as int, 1, blocks, by * bw + bx),
            decreases bw - bx,
        {
            proof {
                lemma_block_offset(bx as int, by as int, bw as int, bh as int, 8);
            }
            let off = (by * bw + bx) * 8;
            let block = read_block8(input, off);
            let vals = decode_bc4_unorm_block(&block);
            let mut texels = [0u8; 16];
            let mut i: usize = 0;
            while i < 16
                invariant
                    i <= 16,
                    forall|t: int| 0 <= t < i ==> #[trigger] texels@[t] == vals@[t],
                decreases 16 - i,
            {
                texels[i] = vals[i];
                i += 1;
            }
            let ghost before = output@;
            write_block(&texels, 1, bx, by, width, height, output);
            proof {
                let b = by * bw + bx;
                assert(texels@ =~= blocks(b));
                lemma_block_step(before, output@, orig, width as int, height as int, 1, blocks, b);
            }
            bx += 1;
        }
        assert((by + 1) * bw == by * bw + bw) by (nonlinear_arith);
        by += 1;
    }
    proof {
        assert(bh * bw == bw * bh) by (nonlinear_arith);
        lemma_all_blocks(output@, orig, width as int, height as int, 1, blocks);
    }
    Ok(())
}

/// Decode a BC4 signed single-channel surface to R8 (each `i8` stored as
/// its two's-complement byte).
pub fn decode_bc4_snorm(input: &[u8], width: u32, height: u32, output: &mut [u8]) -> (r: Result<()>)
    ensures
        lengths_ok(input@.len() as int, old(output)@.len() as int, width, height, 8, 1) ==> (r is Ok
            && surface_decoded(
            final(output)@,
            old(output)@,
            width as int,
            height as int,
            1,
            bc4_snorm_stream_texels(input@),
        )),
        !lengths_ok(input@.len() as int, old(output)@.len() as int, width, height, 8, 1) ==> (
        is_invalid(r) && final(output)@ == old(output)@),
{
    if !check_lengths(input.len(), output.len(), width, height, 8, 1) {
        return Err(DdsError::invalid("BC4: input or output shorter than the surface"));
    }
    let ghost blocks = bc4_snorm_stream_texels(input@);
    let ghost orig = output@;
    let bw = ceil_div4(width);
    let bh = ceil_div4(height);
    let mut by: usize = 0;
    while by < bh
        invariant
            block_loop(width, height, bw, bh),
            lengths_ok(input@.len() as int, orig.len() as int, width, height, 8, 1),
            input@.len() <= usize::MAX,
            by <= bh,
            blocks == bc4_snorm_stream_texels(input@),
            blocks_written(output@, orig, width as int, height as int, 1, blocks, by * bw),
        decreases bh - by,
    {
        let mut bx: usize = 0;
        while bx < bw
            invariant
                block_loop(width, height, bw, bh),
                lengths_ok(input@.len() as int, orig.len() as int, width, height, 8, 1),
                input@.len() <= usize::MAX,
                by < bh,
                bx <= bw,
                blocks == bc4_snorm_stream_texels(input@),
                blocks_written(output@, orig, width as int, height as int, 1, blocks, by * bw + bx),
            decreases bw - bx,
        {
            proof {
                lemma_block_offset(bx as int, by as int, bw as int, bh as int, 8);
            }
            let off = (by * bw + bx) * 8;
            let block = read_block8(input, off);
            let vals = decode_bc4_snorm_block(&block);
            let mut texels = [0u8; 16];
            let mut i: usize = 0;
            while i < 16
                invariant
                    i <= 16,
                    forall|t: int| 0 <= t < i ==> #[trigger] texels@[t] == vals@[t] as u8,
                decreases 16 - i,
            {
                texels[i] = vals[i] as u8;
                i += 1;
            }
            let ghost before = output@;
            write_block(&texels, 1, bx, by, width, height, output);
            proof {
                let b = by * bw + bx;
                assert(texels@ =~= blocks(b));
                lemma_block_step(before, output@, orig, width as int, height as int, 1, blocks, b);
            }
            bx += 1;
        }
        assert((by + 1) * bw == by * bw + bw) by (nonlinear_arith);
        by += 1;
    }
    proof {
        assert(bh * bw == bw * bh) by (nonlinear_arith);
        lemma_all_blocks(output@, orig, width as int, height as int, 1, blocks);
    }
    Ok(())
}

/// Decode a BC5 unsigned two-channel surface to interleaved RG8.
pub fn decode_bc5_unorm(input: &[u8], width: u32, height: u32, output: &mut [u8]) -> (r: Result<()>)
    ensures
        lengths_ok(input@.len() as int, old(output)@.len() as int, width, height, 16, 2) ==> (r is Ok
            && surface_decoded(
            final(output)@,
            old(output)@,
            width as int,
            height as int,
            2,
            bc5_unorm_stream_texels(input@),
        )),
        !lengths_ok(input@.len() as int, old(output)@.len() as int, width, height, 16, 2) ==> (
        is_invalid(r) && final(output)@ == old(output)@),
{
    if !check_lengths(input.len(), output.len(), width, height, 16, 2) {
        return Err(DdsError::invalid("BC5: input or output shorter than the surface"));
    }
    let ghost blocks = bc5_unorm_stream_texels(input@);
    let ghost orig = output@;
    let bw = ceil_div4(width);
    let bh = ceil_div4(height);
    let mut by: usize = 0;
    while by < bh
        invariant
            block_loop(width, height, bw, bh),
            lengths_ok(input@.len() as int, orig.len() as int, width, height, 16, 2),
            input@.len() <= usize::MAX,
            by <= bh,
            blocks == bc5_unorm_stream_texels(input@),
            blocks_written(output@, orig, width as int, height as int, 2, blocks, by * bw),
        decreases bh - by,
    {
        let mut bx: usize = 0;
        while bx < bw
            invariant
                block_loop(width, height, bw, bh),
                lengths_ok(input@.len() as int, orig.len() as int, width, height, 16, 2),
                input@.len() <= usize::MAX,
                by < bh,
                bx <= bw,
                blocks == bc5_unorm_stream_texels(input@),
                blocks_written(output@, orig, width as int, height as int, 2, blocks, by * bw + bx),
            decreases bw - bx,
        {
            proof {
                lemma_block_offset(bx as int, by as int, bw as int, bh as int, 16);
            }
            let off = (by * bw + bx) * 16;
            let r_block = read_block8(input, off);
            let g_block = read_block8(input, off + 8);
            let reds = decode_bc4_unorm_block(&r_block);
            let greens = decode_bc4_unorm_block(&g_block);
            let mut texels = [0u8; 32];
            let mut i: usize = 0;
            while i < 16
                invariant
                    i <= 16,
                    forall|k: int| 0 <= k < 2 * i ==> #[trigger] texels@[k] == (if k % 2 == 0 {
                        reds@[k / 2]
                    } else {
                        greens@[k / 2]
                    }),
                decreases 16 - i,
            {
                texels[2 * i] = reds[i];
                texels[2 * i + 1] = greens[i];
                proof {
                    assert forall|k: int| 2 * i <= k < 2 * i + 2 implies #[trigger] texels@[k] == (if k % 2 == 0 {
                        reds@[k / 2]
                    } else {
                        greens@[k / 2]
                    }) by {
                        vstd::arithmetic::div_mod::lemma_fundamental_div_mod_converse(k, 2, i as int, k - 2 * i);
                    }
                }
                i += 1;
            }
            let ghost before = output@;
            write_block(&texels, 2, bx, by, width, height, output);
            proof {
                let b = by * bw + bx;
                assert(r_block@ =~= input@.subrange(16 * b, 16 * b + 8));
                assert(g_block@ =~= input@.subrange(16 * b + 8, 16 * b + 16));
                assert(texels@ =~= blocks(b));
                lemma_block_step(before, output@, orig, width as int, height as int, 2, blocks, b);
            }
            bx += 1;
        }
        assert((by + 1) * bw == by * bw + bw) by (nonlinear_arith);
        by += 1;
    }
    proof {
        assert(bh * bw == bw * bh) by (nonlinear_arith);
        lemma_all_blocks(output@, orig, width as int, height as int, 2, blocks);
    }
    Ok(())
}

/// Decode a BC5 signed two-channel surface to interleaved RG8 (each `i8`
/// stored as its two's-complement byte).
pub fn decode_bc5_snorm(input: &[u8], width: u32, height: u32, output: &mut [u8]) -> (r: Result<()>)
    ensures
        lengths_ok(input@.len() as int, old(output)@.len() as int, width, height, 16, 2) ==> (r is Ok
            && surface_decoded(
            final(output)@,
            old(output)@,
            width as int,
            height as int,
            2,
            bc5_snorm_stream_texels(input@),
        )),
        !lengths_ok(input@.len() as int, old(output)@.len() as int, width, height, 16, 2) ==> (
        is_invalid(r) && final(output)@ == old(output)@),
{
    if !check_lengths(input.len(), output.len(), width, height, 16, 2) {
        return Err(DdsError::invalid("BC5: input or output shorter than the surface"));
    }
    let ghost blocks = bc5_snorm_stream_texels(input@);
    let ghost orig = output@;
    let bw = ceil_div4(width);
    let bh = ceil_div4(height);
    let mut by: usize = 0;
    while by < bh
        invariant
            block_loop(width, height, bw, bh),
            lengths_ok(input@.len() as int, orig.len() as int, width, height, 16, 2),
            input@.len() <= usize::MAX,
            by <= bh,
            blocks == bc5_snorm_stream_texels(input@),
            blocks_written(output@, orig, width as int, height as int, 2, blocks, by * bw),
        decreases bh - by,
    {
        let mut bx: usize = 0;
        while bx < bw
            invariant
                block_loop(width, height, bw, bh),
                lengths_ok(input@.len() as int, orig.len() as int, width, height, 16, 2),
                input@.len() <= usize::MAX,
                by < bh,
                bx <= bw,
                blocks == bc5_snorm_stream_texels(input@),
                blocks_written(output@, orig, width as int, height as int, 2, blocks, by * bw + bx),
            decreases bw - bx,
        {
            proof {
                lemma_block_offset(bx as int, by as int, bw as int, bh as int, 16);
            }
            let off = (by * bw + bx) * 16;
            let r_block = read_block8(input, off);
            let g_block = read_block8(input, off + 8);
            let reds = decode_bc4_snorm_block(&r_block);
            let greens = decode_bc4_snorm_block(&g_block);
            let mut texels = [0u8; 32];
            let mut i: usize = 0;
            while i < 16
                invariant
                    i <= 16,
                    forall|k: int| 0 <= k < 2 * i ==> #[trigger] texels@[k] == (if k % 2 == 0 {
                        reds@[k / 2] as u8
                    } else {
                        greens@[k / 2] as u8
                    }),
                decreases 16 - i,
            {
                texels[2 * i] = reds[i] as u8;
                texels[2 * i + 1] = greens[i] as u8;
                proof {
                    assert forall|k: int| 2 * i <= k < 2 * i + 2 implies #[trigger] texels@[k] == (if k % 2 == 0 {
                        reds@[k / 2] as u8
                    } else {
                        greens@[k / 2] as u8
                    }) by {
                        vstd::arithmetic::div_mod::lemma_fundamental_div_mod_converse(k, 2, i as int, k - 2 * i);
                    }
                }
                i += 1;
            }
            let ghost before = output@;
            write_block(&texels, 2, bx, by, width, height, output);
            proof {
                let b = by * bw + bx;
                assert(r_block@ =~= input@.subrange(16 * b, 16 * b + 8));
                assert(g_block@ =~= input@.subrange(16 * b + 8, 16 * b + 16));
                assert(texels@ =~= blocks(b));
                lemma_block_step(before, output@, orig, width as int, height as int, 2, blocks, b);
            }
            bx += 1;
        }
        assert((by + 1) * bw == by * bw + bw) by (nonlinear_arith);
        by += 1;
    }
    proof {
        assert(bh * bw == bw * bh) by (nonlinear_arith);
        lemma_all_blocks(output@, orig, width as int, height as int, 2, blocks);
    }
    Ok(())
}

} // verus!
