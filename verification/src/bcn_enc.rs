//! BCn block encoders: BC1 (DXT1), BC2 (DXT3), BC3 (DXT5), BC4 (one
//! channel) and BC5 (two channels).
//!
//! BC1 colour blocks take as endpoints the two pixels furthest apart in
//! RGB (the first such pair in scan order), quantised to RGB565, and give
//! each pixel the nearest colour of the palette a decoder rebuilds. The
//! interpolated-alpha blocks of BC3, BC4 and BC5 take the channel's
//! maximum and minimum as endpoints and always use the eight-value
//! palette. BC2 keeps the top nibble of each alpha.
use vstd::prelude::*;
use crate::bcn::{
    bc1_index, bc1_palette, bc4_bits, bc4_index, bc4_unorm_palette, rgb565_channel,
    rgb565_to_rgb888,
};
use crate::error::{DdsError, Result, is_invalid};
use crate::bitfacts::lemma_pow2_shifts;
use crate::le::{le_u16, le_u32};
use crate::surface::ceil4;

verus! {

// ---- Interpolated-alpha (BC4 / BC3 alpha / BC5) blocks -----------------------

/// Largest of the first `n` values of `s`.
pub open spec fn max_upto(s: Seq<u8>, n: int) -> u8
    decreases n,
{
    if n <= 0 {
        0
    } else if s[n - 1] > max_upto(s, n - 1) {
        s[n - 1]
    } else {
        max_upto(s, n - 1)
    }
}

/// Smallest of the first `n` values of `s`.
pub open spec fn min_upto(s: Seq<u8>, n: int) -> u8
    decreases n,
{
    if n <= 0 {
        255
    } else if s[n - 1] < min_upto(s, n - 1) {
        s[n - 1]
    } else {
        min_upto(s, n - 1)
    }
}

/// `|a - b|`.
pub open spec fn abs_diff(a: int, b: int) -> int {
    if a >= b {
        a - b
    } else {
        b - a
    }
}

/// The first of the palette indices `0..n` whose BC4 palette value (for
/// endpoints `a0 > a1`) is nearest to `p`.
pub open spec fn bc4_nearest_upto(a0: u8, a1: u8, p: u8, n: int) -> int
    decreases n,
{
    if n <= 1 {
        0
    } else {
        let b = bc4_nearest_upto(a0, a1, p, n - 1);
        if abs_diff(p as int, bc4_unorm_palette(a0, a1, n - 1) as int) < abs_diff(
            p as int,
            bc4_unorm_palette(a0, a1, b) as int,
        ) {
            n - 1
        } else {
            b
        }
    }
}

/// The palette index the BC4 encoder gives a pixel of value `p`.
pub open spec fn bc4_nearest(a0: u8, a1: u8, p: u8) -> int {
    bc4_nearest_upto(a0, a1, p, 8)
}

pub proof fn lemma_bc4_nearest_facts(a0: u8, a1: u8, p: u8, n: int)
    requires
        1 <= n <= 8,
    ensures
        0 <= bc4_nearest_upto(a0, a1, p, n) < n,
        forall|k: int|
            0 <= k < n ==> abs_diff(p as int, bc4_unorm_palette(a0, a1, bc4_nearest_upto(a0, a1, p, n)) as int)
                <= abs_diff(p as int, #[trigger] bc4_unorm_palette(a0, a1, k) as int),
    decreases n,
{
    if n > 1 {
        lemma_bc4_nearest_facts(a0, a1, p, n - 1);
    }
}

/// 3-bit fields of a packed index word: OR-ing field `i` above the `i`
/// fields already packed keeps them and reads back as the new value.
proof fn lemma_pack3(packed: u64, v: u64, i: u64)
    requires
        i < 16,
        v < 8,
        packed < (1u64 << (3 * i)),
    ensures
        forall|k: u64|
            k < i ==> #[trigger] (((packed | (v << (3 * i))) >> (3 * k)) & 7) == ((packed >> (3 * k))
                & 7),
        ((packed | (v << (3 * i))) >> (3 * i)) & 7 == v,
        (packed | (v << (3 * i))) < (1u64 << (3 * (i + 1))),
{
    assert forall|k: u64| k < i implies #[trigger] (((packed | (v << (3 * i))) >> (3 * k)) & 7) == ((
    packed >> (3 * k)) & 7) by {
        assert(i < 16 && k < i && v < 8 && packed < (1u64 << (3 * i)) ==> (((packed | (v << (3
            * i))) >> (3 * k)) & 7) == ((packed >> (3 * k)) & 7)) by (bit_vector);
    }
    assert(i < 16 && v < 8 && packed < (1u64 << (3 * i)) ==> ((packed | (v << (3 * i))) >> (3
        * i)) & 7 == v) by (bit_vector);
    assert(i < 16 && v < 8 && packed < (1u64 << (3 * i)) ==> (packed | (v << (3 * i))) < (1u64
        << (3 * (i + 1)))) by (bit_vector);
}

/// Splitting a 48-bit word into its six low bytes and reassembling them
/// gives the word back.
proof fn lemma_bytes48(p: u64)
    requires
        p < (1u64 << 48),
    ensures
        ((p & 0xff) as u8 as u64) | ((((p >> 8) & 0xff) as u8 as u64) << 8u64) | ((((p >> 16) & 0xff)
            as u8 as u64) << 16u64) | ((((p >> 24) & 0xff) as u8 as u64) << 24u64) | ((((p >> 32)
            & 0xff) as u8 as u64) << 32u64) | ((((p >> 40) & 0xff) as u8 as u64) << 40u64) == p,
{
    assert(p < (1u64 << 48) ==> ((p & 0xff) as u8 as u64) | ((((p >> 8) & 0xff) as u8 as u64) << 8u64)
        | ((((p >> 16) & 0xff) as u8 as u64) << 16u64) | ((((p >> 24) & 0xff) as u8 as u64)
        << 24u64) | ((((p >> 32) & 0xff) as u8 as u64) << 32u64) | ((((p >> 40) & 0xff) as u8
        as u64) << 40u64) == p) by (bit_vector);
}

/// `out` is the interpolated-alpha block the encoder makes of `vals`:
/// endpoints `(max, min)`, zero indices for a flat block, else each
/// value's nearest entry of the eight-value palette.
pub open spec fn bc4_block_encodes(out: Seq<u8>, vals: Seq<u8>) -> bool {
    let a0 = max_upto(vals, 16);
    let a1 = min_upto(vals, 16);
    &&& out[0] == a0
    &&& out[1] == a1
    &&& a0 == a1 ==> forall|k: int| 2 <= k < 8 ==> #[trigger] out[k] == 0
    &&& a0 != a1 ==> forall|i: int| 0 <= i < 16 ==> #[trigger] bc4_index(out, i) == bc4_nearest(a0, a1, vals[i])
}

/// Encode 16 single-channel values into an interpolated-alpha block
/// (BC4 unorm / BC3 alpha / one BC5 channel): endpoints `(max, min)`,
/// eight-value palette, each value's nearest palette entry (the first on
/// ties). A flat block gets `a0 == a1` and all-zero indices.
fn encode_bc4_unorm_block(pixels: &[u8; 16]) -> (out: [u8; 8])
    ensures
        bc4_block_encodes(out@, pixels@),
        out@[0] == max_upto(pixels@, 16),
        out@[1] == min_upto(pixels@, 16),
        max_upto(pixels@, 16) == min_upto(pixels@, 16) ==> forall|k: int|
            2 <= k < 8 ==> #[trigger] out@[k] == 0,
        max_upto(pixels@, 16) != min_upto(pixels@, 16) ==> forall|i: int|
            0 <= i < 16 ==> #[trigger] bc4_index(out@, i) == bc4_nearest(
                max_upto(pixels@, 16),
                min_upto(pixels@, 16),
                pixels@[i],
            ),
{
    let mut max: u8 = 0;
    let mut min: u8 = 255;
    let mut i: usize = 0;
    while i < 16
        invariant
            i <= 16,
            max == max_upto(pixels@, i as int),
            min == min_upto(pixels@, i as int),
        decreases 16 - i,
    {
        let p = pixels[i];
        if p > max {
            max = p;
        }
        if p < min {
            min = p;
        }
        i += 1;
    }
    if max == min {
        let mut out = [0u8; 8];
        out[0] = max;
        out[1] = min;
        return out;
    }
    let a0 = max;
    let a1 = min;
    assert(a0 > a1) by {
        lemma_min_le_max(pixels@, 16);
    }
    let mut palette = [0u16; 8];
    palette[0] = a0 as u16;
    palette[1] = a1 as u16;
    let mut k: u16 = 1;
    while k <= 6
        invariant
            1 <= k <= 7,
            a0 > a1,
            palette@[0] == a0,
            palette@[1] == a1,
            forall|j: int| 2 <= j < k + 1 ==> #[trigger] palette@[j] == bc4_unorm_palette(a0, a1, j),
        decreases 7 - k,
    {
        assert((7 - k) * a0 <= 1785 && k * a1 <= 1785 && (7 - k) * a0 + k * a1 <= 7 * 255) by (nonlinear_arith)
            requires
                1 <= k <= 6,
                a0 <= 255,
                a1 < a0,
        ;
        let num = (7 - k) * a0 as u16 + k * a1 as u16;
        palette[(k + 1) as usize] = num / 7;
        assert(palette@[k + 1] == bc4_unorm_palette(a0, a1, k + 1));
        k += 1;
    }
    assert(forall|j: int| 0 <= j < 8 ==> #[trigger] palette@[j] == bc4_unorm_palette(a0, a1, j));
    let mut packed: u64 = 0;
    proof {
        lemma_pow2_shifts();
    }
    assert(3 * 0u64 == 0u64);
    assert(0u64 < (1u64 << (3 * 0u64)));
    let mut i: usize = 0;
    while i < 16
        invariant
            i <= 16,
            a0 > a1,
            forall|j: int| 0 <= j < 8 ==> #[trigger] palette@[j] == bc4_unorm_palette(a0, a1, j),
            packed < (1u64 << (3 * (i as u64))),
            forall|k: int|
                0 <= k < i ==> ((packed >> (3 * (k as u64))) & 7) == bc4_nearest(
                    a0,
                    a1,
                    #[trigger] pixels@[k],
                ),
        decreases 16 - i,
    {
        let p = pixels[i];
        let mut best: u32 = 0;
        let mut best_d: u32 = u32::MAX;
        let mut j: usize = 0;
        while j < 8
            invariant
                j <= 8,
                forall|jj: int| 0 <= jj < 8 ==> #[trigger] palette@[jj] == bc4_unorm_palette(a0, a1, jj),
                j == 0 ==> best_d == u32::MAX,
                j > 0 ==> best == bc4_nearest_upto(a0, a1, p, j as int) && best_d == abs_diff(
                    p as int,
                    bc4_unorm_palette(a0, a1, best as int) as int,
                ),
            decreases 8 - j,
        {
            let pal = palette[j];
            let d: u32 = if p as u16 >= pal {
                (p as u16 - pal) as u32
            } else {
                (pal - p as u16) as u32
            };
            if d < best_d {
                best_d = d;
                best = j as u32;
            }
            j += 1;
        }
        proof {
            lemma_bc4_nearest_facts(a0, a1, p, 8);
            lemma_pack3(packed, best as u64, i as u64);
        }
        packed = packed | ((best as u64 & 0x7) << (3 * i as u64));
        assert((best as u64 & 0x7) == best as u64) by (bit_vector)
            requires
                best < 8,
        ;
        i += 1;
    }
    let mut out = [0u8; 8];
    out[0] = a0;
    out[1] = a1;
    out[2] = (packed & 0xff) as u8;
    out[3] = ((packed >> 8) & 0xff) as u8;
    out[4] = ((packed >> 16) & 0xff) as u8;
    out[5] = ((packed >> 24) & 0xff) as u8;
    out[6] = ((packed >> 32) & 0xff) as u8;
    out[7] = ((packed >> 40) & 0xff) as u8;
    proof {
        lemma_pow2_shifts();
        assert(3 * 16u64 == 48u64);
        assert((1u64 << (3 * 16u64)) == (1u64 << 48));
        lemma_bytes48(packed);
        assert(bc4_bits(out@) == packed);
        assert forall|i: int| 0 <= i < 16 implies #[trigger] bc4_index(out@, i) == bc4_nearest(
            a0,
            a1,
            pixels@[i],
        ) by {
            assert(((packed >> (3 * (i as u64))) & 7) == bc4_nearest(a0, a1, pixels@[i]));
            assert((3 * i) as u64 == 3 * (i as u64));
        }
    }
    out
}

proof fn lemma_min_le_max(s: Seq<u8>, n: int)
    requires
        n >= 1,
    ensures
        min_upto(s, n) <= max_upto(s, n),
    decreases n,
{
    if n > 1 {
        lemma_min_le_max(s, n - 1);
    }
}

/// Top nibble of each alpha, two per byte, low nibble first.
pub open spec fn bc2_alpha_byte(alpha: Seq<u8>, k: int) -> u8 {
    ((alpha[2 * k] >> 4u8) & 0x0f) | (((alpha[2 * k + 1] >> 4u8) & 0x0f) << 4u8)
}

/// Encode 16 alpha values into a BC2 explicit-alpha block: each value's
/// top nibble, pixel `2k` in the low nibble of byte `k`.
fn encode_bc2_alpha_block(pixels_alpha: &[u8; 16]) -> (out: [u8; 8])
    ensures
        forall|k: int| 0 <= k < 8 ==> #[trigger] out@[k] == bc2_alpha_byte(pixels_alpha@, k),
{
    let mut out = [0u8; 8];
    let mut k: usize = 0;
    while k < 8
        invariant
            k <= 8,
            forall|j: int| 0 <= j < k ==> #[trigger] out@[j] == bc2_alpha_byte(pixels_alpha@, j),
        decreases 8 - k,
    {
        let lo = (pixels_alpha[2 * k] >> 4u8) & 0x0f;
        let hi = (pixels_alpha[2 * k + 1] >> 4u8) & 0x0f;
        out[k] = lo | (hi << 4u8);
        k += 1;
    }
    out
}

// ---- BC1 colour blocks ------------------------------------------------------------

/// An 8-bit RGB triple quantised to RGB565 (each channel truncated).
pub open spec fn pack565(r: u8, g: u8, b: u8) -> u16 {
    (((r as u16 >> 3u16) & 0x1f) << 11u16) | (((g as u16 >> 2u16) & 0x3f) << 5u16) | ((b as u16 >> 3u16) & 0x1f)
}

/// Quantise an 8-bit RGB triple to RGB565.
fn rgb_to_565(r: u8, g: u8, b: u8) -> (c: u16)
    ensures
        c == pack565(r, g, b),
{
    let r5 = ((r as u16) >> 3u16) & 0x1f;
    let g6 = ((g as u16) >> 2u16) & 0x3f;
    let b5 = ((b as u16) >> 3u16) & 0x1f;
    (r5 << 11u16) | (g6 << 5u16) | b5
}

/// Squared Euclidean distance of two RGB triples.
pub open spec fn rgb_dist(a: [u8; 3], b: [u8; 3]) -> int {
    (a[0] - b[0]) * (a[0] - b[0]) + (a[1] - b[1]) * (a[1] - b[1]) + (a[2] - b[2]) * (a[2] - b[2])
}

/// Squared Euclidean RGB distance of two pixels.
fn sq_dist(a: [u8; 3], b: [u8; 3]) -> (d: u32)
    ensures
        d == rgb_dist(a, b),
        d <= 3 * 255 * 255,
{
    let dr = a[0] as i32 - b[0] as i32;
    let dg = a[1] as i32 - b[1] as i32;
    let db = a[2] as i32 - b[2] as i32;
    assert(dr * dr <= 255 * 255 && dg * dg <= 255 * 255 && db * db <= 255 * 255 && dr * dr >= 0
        && dg * dg >= 0 && db * db >= 0) by (nonlinear_arith)
        requires
            -255 <= dr <= 255,
            -255 <= dg <= 255,
            -255 <= db <= 255,
    ;
    (dr * dr + dg * dg + db * db) as u32
}

/// The RGB part of a pixel.
pub open spec fn rgb_of(p: [u8; 4]) -> [u8; 3] {
    [p[0], p[1], p[2]]
}

/// Whether pixel `i` takes part in endpoint selection: every pixel in
/// four-colour mode, the opaque ones (alpha ≥ 128) in three-colour mode.
pub open spec fn visible(p: Seq<[u8; 4]>, three: bool, i: int) -> bool {
    !three || p[i][3] >= 128
}

/// Squared RGB distance between pixels `a` and `b`.
pub open spec fn pair_dist(p: Seq<[u8; 4]>, a: int, b: int) -> int {
    rgb_dist(rgb_of(p[a]), rgb_of(p[b]))
}

/// A pair of distinct visible pixels, `a < b`.
pub open spec fn visible_pair(p: Seq<[u8; 4]>, three: bool, a: int, b: int) -> bool {
    0 <= a < b < 16 && visible(p, three, a) && visible(p, three, b)
}

/// `(a, b)` comes before `(i, j)` in scan order.
pub open spec fn scan_before(a: int, b: int, i: int, j: int) -> bool {
    a < i || (a == i && b < j)
}

/// `(i, j)` is the first visible pair, in scan order, whose distance is
/// the largest (and non-zero).
pub open spec fn first_max_pair(p: Seq<[u8; 4]>, three: bool, i: int, j: int) -> bool {
    &&& visible_pair(p, three, i, j)
    &&& pair_dist(p, i, j) > 0
    &&& forall|a: int, b: int| #[trigger] visible_pair(p, three, a, b) ==> pair_dist(p, a, b) <= pair_dist(p, i, j)
    &&& forall|a: int, b: int|
        #[trigger] visible_pair(p, three, a, b) && scan_before(a, b, i, j) ==> pair_dist(p, a, b)
            < pair_dist(p, i, j)
}

/// Some visible pair has distinct colours.
pub open spec fn spread(p: Seq<[u8; 4]>, three: bool) -> bool {
    exists|a: int, b: int| #[trigger] visible_pair(p, three, a, b) && pair_dist(p, a, b) > 0
}

/// `f` is the first visible pixel.
pub open spec fn first_visible(p: Seq<[u8; 4]>, three: bool, f: int) -> bool {
    0 <= f < 16 && visible(p, three, f) && forall|k: int| 0 <= k < f ==> !#[trigger] visible(p, three, k)
}

/// Some pixel is visible.
pub open spec fn any_visible(p: Seq<[u8; 4]>, three: bool) -> bool {
    exists|k: int| 0 <= k < 16 && #[trigger] visible(p, three, k)
}

/// The endpoint pixels of a BC1 block: the first furthest visible pair,
/// or the first visible pixel twice when all visible pixels share one colour.
pub open spec fn bc1_pair(p: Seq<[u8; 4]>, three: bool) -> (int, int) {
    if spread(p, three) {
        choose|ij: (int, int)| first_max_pair(p, three, ij.0, ij.1)
    } else {
        let f = choose|f: int| first_visible(p, three, f);
        (f, f)
    }
}

/// The scan-state facts of endpoint selection after the pairs before
/// `(i, j)` (and the first pixels of the rows before `rows`).
pub open spec fn pair_scan_ok(
    p: Seq<[u8; 4]>,
    three: bool,
    rows: int,
    i: int,
    j: int,
    best_d: u32,
    bi: Option<usize>,
    bj: Option<usize>,
) -> bool {
    &&& (bi is None <==> forall|k: int| 0 <= k < rows ==> !#[trigger] visible(p, three, k))
    &&& bi is None ==> bj is None && best_d == 0
    &&& (bi is Some && best_d == 0) ==> (bj == bi && first_visible(p, three, bi->0 as int)
        && forall|a: int, b: int|
        #[trigger] visible_pair(p, three, a, b) && scan_before(a, b, i, j) ==> pair_dist(p, a, b) == 0)
    &&& best_d > 0 ==> (bi is Some && bj is Some && visible_pair(p, three, bi->0 as int, bj->0 as int)
        && scan_before(bi->0 as int, bj->0 as int, i, j) && pair_dist(p, bi->0 as int, bj->0 as int)
        == best_d && (forall|a: int, b: int|
        #[trigger] visible_pair(p, three, a, b) && scan_before(a, b, i, j) ==> pair_dist(p, a, b)
            <= best_d) && (forall|a: int, b: int|
        #[trigger] visible_pair(p, three, a, b) && scan_before(a, b, bi->0 as int, bj->0 as int)
            ==> pair_dist(p, a, b) < best_d))
}

/// Find the endpoint pixels of a BC1 block (see [`bc1_pair`]); `None`
/// when no pixel is visible.
fn bc1_endpoints(pixels: &[[u8; 4]; 16], three: bool) -> (r: Option<(usize, usize)>)
    ensures
        r is None <==> !any_visible(pixels@, three),
        r matches Some(ij) ==> (ij.0 as int, ij.1 as int) == bc1_pair(pixels@, three) && ij.0 < 16
            && ij.1 < 16,
{
    let ghost p = pixels@;
    let mut best_d: u32 = 0;
    let mut best_i: Option<usize> = None;
    let mut best_j: Option<usize> = None;
    let mut i: usize = 0;
    while i < 16
        invariant
            p == pixels@,
            i <= 16,
            pair_scan_ok(p, three, i as int, i as int, 0, best_d, best_i, best_j),
        decreases 16 - i,
    {
        let vi = !three || pixels[i][3] >= 128;
        if vi {
            if best_i.is_none() {
                best_i = Some(i);
            }
            if best_j.is_none() {
                best_j = Some(i);
            }
            proof {
                assert(visible(p, three, i as int));
                assert(!(forall|k: int| 0 <= k < i as int + 1 ==> !#[trigger] visible(p, three, k)));
                assert forall|a: int, b: int|
                    #[trigger] visible_pair(p, three, a, b) && scan_before(a, b, i as int, i as int + 1)
                        implies scan_before(a, b, i as int, 0) by {}
                if best_d == 0 {
                    assert(first_visible(p, three, best_i->0 as int));
                }
            }
            let mut j: usize = i + 1;
            while j < 16
                invariant
                    p == pixels@,
                    i < 16,
                    i + 1 <= j <= 16,
                    visible(p, three, i as int),
                    pair_scan_ok(p, three, i as int + 1, i as int, j as int, best_d, best_i, best_j),
                decreases 16 - j,
            {
                let vj = !three || pixels[j][3] >= 128;
                if vj {
                    let pi = pixels[i];
                    let pj = pixels[j];
                    let d = sq_dist([pi[0], pi[1], pi[2]], [pj[0], pj[1], pj[2]]);
                    assert(d == pair_dist(p, i as int, j as int));
                    if d > best_d {
                        best_d = d;
                        best_i = Some(i);
                        best_j = Some(j);
                    }
                }
                proof {
                    assert forall|a: int, b: int|
                        #[trigger] visible_pair(p, three, a, b) && scan_before(a, b, i as int, j as int + 1)
                            implies scan_before(a, b, i as int, j as int) || (a == i && b == j) by {}
                }
                j += 1;
            }
        }
        proof {
            assert forall|a: int, b: int|
                #[trigger] visible_pair(p, three, a, b) && scan_before(a, b, i as int + 1, 0) implies scan_before(
                a,
                b,
                i as int,
                16,
            ) by {}
        }
        i += 1;
    }
    match (best_i, best_j) {
        (Some(bi), Some(bj)) => {
            proof {
                assert(any_visible(p, three)) by {
                    assert(visible(p, three, bi as int));
                }
                if best_d > 0 {
                    assert(spread(p, three)) by {
                        assert(visible_pair(p, three, bi as int, bj as int));
                    }
                    assert(first_max_pair(p, three, bi as int, bj as int)) by {
                        assert forall|a: int, b: int| #[trigger] visible_pair(p, three, a, b) implies pair_dist(p, a, b)
                            <= pair_dist(p, bi as int, bj as int) by {
                            assert(scan_before(a, b, 16, 0));
                        }
                    }
                    lemma_first_max_pair_unique(p, three, bi as int, bj as int);
                } else {
                    assert(!spread(p, three)) by {
                        assert forall|a: int, b: int| #[trigger] visible_pair(p, three, a, b) implies pair_dist(p, a, b) == 0 by {
                            assert(scan_before(a, b, 16, 0));
                        }
                    }
                    lemma_first_visible_unique(p, three, bi as int);
                }
            }
            Some((bi, bj))
        },
        _ => {
            proof {
                assert(!any_visible(p, three));
            }
            None
        },
    }
}

proof fn lemma_first_max_pair_unique(p: Seq<[u8; 4]>, three: bool, i: int, j: int)
    requires
        first_max_pair(p, three, i, j),
    ensures
        spread(p, three),
        bc1_pair(p, three) == (i, j),
{
    assert(visible_pair(p, three, i, j));
    let w = (i, j);
    assert(first_max_pair(p, three, w.0, w.1));
    let ij = choose|ij: (int, int)| first_max_pair(p, three, ij.0, ij.1);
    assert(first_max_pair(p, three, ij.0, ij.1));
    assert(visible_pair(p, three, ij.0, ij.1));
    if scan_before(ij.0, ij.1, i, j) {
        assert(false);
    } else if scan_before(i, j, ij.0, ij.1) {
        assert(false);
    }
}

proof fn lemma_first_visible_unique(p: Seq<[u8; 4]>, three: bool, f: int)
    requires
        first_visible(p, three, f),
        !spread(p, three),
    ensures
        bc1_pair(p, three) == (f, f),
{
    let g = choose|g: int| first_visible(p, three, g);
    assert(first_visible(p, three, g));
    if g < f {
        assert(!visible(p, three, g));
    } else if f < g {
        assert(!visible(p, three, f));
    }
}

/// Some pixel has alpha below 128.
pub open spec fn has_low_alpha(p: Seq<[u8; 4]>) -> bool {
    exists|i: int| 0 <= i < 16 && #[trigger] p[i][3] < 128
}

/// Endpoint order and palette mode from the quantised endpoints `c0`,
/// `c1`: four colours need `c0 > c1` (swap when `c0 < c1`, fall back to
/// three colours when equal); three colours need `c0 <= c1`.
pub open spec fn bc1_mode(c0: u16, c1: u16, three: bool) -> (u16, u16, bool) {
    if !three {
        if c0 < c1 {
            (c1, c0, false)
        } else if c0 == c1 {
            (c0, c1, true)
        } else {
            (c0, c1, false)
        }
    } else if c0 > c1 {
        (c1, c0, true)
    } else {
        (c0, c1, true)
    }
}

/// Squared RGB distance between pixel `px` and palette entry `k` of the
/// BC1 block with endpoints `c0`, `c1`.
pub open spec fn bc1_pal_dist(px: [u8; 4], c0: u16, c1: u16, k: int) -> int {
    rgb_dist(
        rgb_of(px),
        [bc1_palette(c0, c1, true, k, 0), bc1_palette(c0, c1, true, k, 1), bc1_palette(c0, c1, true, k, 2)],
    )
}

/// The first of the palette indices `0..n` nearest to `px`.
pub open spec fn bc1_nearest_upto(px: [u8; 4], c0: u16, c1: u16, n: int) -> int
    decreases n,
{
    if n <= 1 {
        0
    } else {
        let b = bc1_nearest_upto(px, c0, c1, n - 1);
        if bc1_pal_dist(px, c0, c1, n - 1) < bc1_pal_dist(px, c0, c1, b) {
            n - 1
        } else {
            b
        }
    }
}

/// The index the BC1 encoder gives pixel `px`: transparent (3) for a
/// low-alpha pixel in three-colour mode, else the nearest palette entry.
pub open spec fn bc1_pixel_index(px: [u8; 4], c0: u16, c1: u16, three: bool) -> int {
    if three && px[3] < 128 {
        3
    } else {
        bc1_nearest_upto(px, c0, c1, if three { 3 } else { 4 })
    }
}

/// `out` is the BC1 block the encoder makes of the 16 pixels `p`.
pub open spec fn bc1_block_encodes(out: Seq<u8>, p: Seq<[u8; 4]>, punch: bool) -> bool {
    let three = punch && has_low_alpha(p);
    if !any_visible(p, three) {
        le_u16(out, 0) == 0 && le_u16(out, 2) == 0 && le_u32(out, 4) == 0xffff_ffff
    } else {
        let ij = bc1_pair(p, three);
        let m = bc1_mode(
            pack565(p[ij.0][0], p[ij.0][1], p[ij.0][2]),
            pack565(p[ij.1][0], p[ij.1][1], p[ij.1][2]),
            three,
        );
        &&& le_u16(out, 0) == m.0
        &&& le_u16(out, 2) == m.1
        &&& forall|k: int| 0 <= k < 16 ==> #[trigger] bc1_index(out, k) == bc1_pixel_index(p[k], m.0, m.1, m.2)
    }
}

/// Lay out a BC1 block: the two endpoints, then the 32 index bits.
fn pack_bc1(c0: u16, c1: u16, indices: u32) -> (out: [u8; 8])
    ensures
        le_u16(out@, 0) == c0,
        le_u16(out@, 2) == c1,
        le_u32(out@, 4) == indices,
{
    let out: [u8; 8] = [
        (c0 & 0xff) as u8,
        (c0 >> 8u16) as u8,
        (c1 & 0xff) as u8,
        (c1 >> 8u16) as u8,
        (indices & 0xff) as u8,
        ((indices >> 8u32) & 0xff) as u8,
        ((indices >> 16u32) & 0xff) as u8,
        ((indices >> 24u32) & 0xff) as u8,
    ];
    assert(((c0 & 0xff) as u8) + 256 * ((c0 >> 8u16) as u8) == c0) by (bit_vector);
    assert(((c1 & 0xff) as u8) + 256 * ((c1 >> 8u16) as u8) == c1) by (bit_vector);
    assert(((indices & 0xff) as u8) + 256 * (((indices >> 8u32) & 0xff) as u8) + 65536 * (((indices
        >> 16u32) & 0xff) as u8) + 16777216 * (((indices >> 24u32) & 0xff) as u8) == indices) by (bit_vector);
    out
}

/// 2-bit fields of a packed index word: OR-ing field `i` above the `i`
/// fields already packed keeps them and reads back as the new value.
proof fn lemma_pack2(packed: u32, v: u32, i: u32)
    requires
        i < 16,
        v < 4,
        i == 0 ==> packed == 0,
        i > 0 ==> packed < (1u32 << (2 * i)),
    ensures
        forall|k: u32|
            k < i ==> #[trigger] (((packed | (v << (2 * i))) >> (2 * k)) & 3) == ((packed >> (2 * k))
                & 3),
        ((packed | (v << (2 * i))) >> (2 * i)) & 3 == v,
        i + 1 < 16 ==> (packed | (v << (2 * i))) < (1u32 << (2 * (i + 1))),
{
    assert forall|k: u32| k < i implies #[trigger] (((packed | (v << (2 * i))) >> (2 * k)) & 3) == ((
    packed >> (2 * k)) & 3) by {
        assert(i < 16 && k < i && v < 4 && (i > 0 ==> packed < (1u32 << (2 * i))) ==> (((packed
            | (v << (2 * i))) >> (2 * k)) & 3) == ((packed >> (2 * k)) & 3)) by (bit_vector);
    }
    assert(i < 16 && v < 4 && (i == 0 ==> packed == 0) && (i > 0 ==> packed < (1u32 << (2 * i)))
        ==> ((packed | (v << (2 * i))) >> (2 * i)) & 3 == v) by (bit_vector);
    assert(i + 1 < 16 && v < 4 && (i == 0 ==> packed == 0) && (i > 0 ==> packed < (1u32 << (2
        * i))) ==> (packed | (v << (2 * i))) < (1u32 << (2 * (i + 1)))) by (bit_vector);
}

/// Encode one 4×4 RGBA8 block into an 8-byte BC1 block.
///
/// With `accept_punchthrough_alpha` and some pixel's alpha below 128 the
/// block uses the three-colour-plus-transparent layout and those pixels
/// take the transparent index; otherwise it uses four colours (or three
/// when both endpoints quantise to one RGB565 value).
fn encode_bc1_block(pixels_rgba: &[[u8; 4]; 16], accept_punchthrough_alpha: bool) -> (out: [u8; 8])
    ensures
        bc1_block_encodes(out@, pixels_rgba@, accept_punchthrough_alpha),
        !accept_punchthrough_alpha ==> le_u16(out@, 0) >= le_u16(out@, 2),
{
    let ghost p = pixels_rgba@;
    let mut has_alpha = false;
    let mut i: usize = 0;
    while i < 16
        invariant
            p == pixels_rgba@,
            i <= 16,
            has_alpha <==> exists|k: int| 0 <= k < i && #[trigger] p[k][3] < 128,
        decreases 16 - i,
    {
        if pixels_rgba[i][3] < 128 {
            has_alpha = true;
        }
        i += 1;
    }
    let three_colour_mode = accept_punchthrough_alpha && has_alpha;
    assert(three_colour_mode == (accept_punchthrough_alpha && has_low_alpha(p)));
    let (best_i, best_j) = match bc1_endpoints(pixels_rgba, three_colour_mode) {
        Some(ij) => ij,
        None => {
            return pack_bc1(0, 0, 0xffff_ffffu32);
        },
    };
    let pi = pixels_rgba[best_i];
    let pj = pixels_rgba[best_j];
    let c0r = rgb_to_565(pi[0], pi[1], pi[2]);
    let c1r = rgb_to_565(pj[0], pj[1], pj[2]);
    let mut c0 = c0r;
    let mut c1 = c1r;
    let mut three = three_colour_mode;
    if !three {
        if c0 < c1 {
            c0 = c1r;
            c1 = c0r;
        } else if c0 == c1 {
            three = true;
        }
    } else if c0 > c1 {
        c0 = c1r;
        c1 = c0r;
    }
    assert((c0, c1, three) == bc1_mode(c0r, c1r, three_colour_mode));
    assert(three <==> !(c0 > c1));
    let (r0, g0, b0) = rgb565_to_rgb888(c0);
    let (r1, g1, b1) = rgb565_to_rgb888(c1);
    let e0: [u8; 3] = [r0, g0, b0];
    let e1: [u8; 3] = [r1, g1, b1];
    let mut palette = [[0u8; 3]; 4];
    palette[0] = e0;
    palette[1] = e1;
    if !three {
        let mut p2 = [0u8; 3];
        let mut p3 = [0u8; 3];
        let mut ch: usize = 0;
        while ch < 3
            invariant
                ch <= 3,
                e0 == [rgb565_channel(c0, 0), rgb565_channel(c0, 1), rgb565_channel(c0, 2)],
                e1 == [rgb565_channel(c1, 0), rgb565_channel(c1, 1), rgb565_channel(c1, 2)],
                c0 > c1,
                forall|k: int| 0 <= k < ch ==> #[trigger] p2@[k] == bc1_palette(c0, c1, true, 2, k),
                forall|k: int| 0 <= k < ch ==> #[trigger] p3@[k] == bc1_palette(c0, c1, true, 3, k),
            decreases 3 - ch,
        {
            p2[ch] = ((2 * e0[ch] as u32 + e1[ch] as u32) / 3) as u8;
            p3[ch] = ((e0[ch] as u32 + 2 * e1[ch] as u32) / 3) as u8;
            ch += 1;
        }
        palette[2] = p2;
        palette[3] = p3;
    } else {
        let mut p2 = [0u8; 3];
        let mut ch: usize = 0;
        while ch < 3
            invariant
                ch <= 3,
                e0 == [rgb565_channel(c0, 0), rgb565_channel(c0, 1), rgb565_channel(c0, 2)],
                e1 == [rgb565_channel(c1, 0), rgb565_channel(c1, 1), rgb565_channel(c1, 2)],
                !(c0 > c1),
                forall|k: int| 0 <= k < ch ==> #[trigger] p2@[k] == bc1_palette(c0, c1, true, 2, k),
            decreases 3 - ch,
        {
            p2[ch] = ((e0[ch] as u32 + e1[ch] as u32) / 2) as u8;
            ch += 1;
        }
        palette[2] = p2;
    }
    let count: usize = if three {
        3
    } else {
        4
    };
    assert forall|k: int, ch: int| 0 <= k < count && 0 <= ch < 3 implies #[trigger] palette@[k]@[ch]
        == bc1_palette(c0, c1, true, k, ch) by {}

    let mut indices: u32 = 0;
    let mut i: usize = 0;
    while i < 16
        invariant
            p == pixels_rgba@,
            i <= 16,
            count == (if three { 3usize } else { 4usize }),
            forall|k: int, ch: int| 0 <= k < count && 0 <= ch < 3 ==> #[trigger] palette@[k]@[ch]
                == bc1_palette(c0, c1, true, k, ch),
            i == 0 ==> indices == 0,
            i > 0 && i < 16 ==> indices < (1u32 << (2 * (i as u32))),
            forall|k: int|
                0 <= k < i ==> ((indices >> (2 * (k as u32))) & 3) == bc1_pixel_index(
                    #[trigger] p[k],
                    c0,
                    c1,
                    three,
                ),
        decreases 16 - i,
    {
        let px = pixels_rgba[i];
        let idx: u32 = if three && px[3] < 128 {
            3
        } else {
            let mut best: u32 = 0;
            let mut best_dist: u32 = u32::MAX;
            let mut k: usize = 0;
            while k < count
                invariant
                    count == (if three { 3usize } else { 4usize }),
                    k <= count,
                    forall|kk: int, ch: int| 0 <= kk < count && 0 <= ch < 3 ==> #[trigger] palette@[kk]@[ch]
                        == bc1_palette(c0, c1, true, kk, ch),
                    k == 0 ==> best_dist == u32::MAX,
                    k > 0 ==> best == bc1_nearest_upto(px, c0, c1, k as int) && best_dist == bc1_pal_dist(
                        px,
                        c0,
                        c1,
                        best as int,
                    ),
                decreases count - k,
            {
                let pal = palette[k];
                let d = sq_dist([px[0], px[1], px[2]], pal);
                proof {
                    assert(pal@ =~= seq![bc1_palette(c0, c1, true, k as int, 0), bc1_palette(c0, c1, true, k as int, 1), bc1_palette(c0, c1, true, k as int, 2)]);
                    assert(d == bc1_pal_dist(px, c0, c1, k as int));
                }
                if d < best_dist {
                    best_dist = d;
                    best = k as u32;
                }
                k += 1;
            }
            proof {
                lemma_bc1_nearest_range(px, c0, c1, count as int);
            }
            best
        };
        assert(idx == bc1_pixel_index(px, c0, c1, three));
        proof {
            lemma_pack2(indices, idx, i as u32);
        }
        indices = indices | ((idx & 0x3) << (2 * i as u32));
        assert((idx & 0x3) == idx) by (bit_vector)
            requires
                idx < 4,
        ;
        proof {
            assert forall|k: int| 0 <= k < i + 1 implies ((indices >> (2 * (k as u32))) & 3) == bc1_pixel_index(
                #[trigger] p[k],
                c0,
                c1,
                three,
            ) by {
                if k < i {
                    assert((k as u32) < (i as u32));
                }
            }
        }
        i += 1;
    }
    let out = pack_bc1(c0, c1, indices);
    proof {
        assert forall|k: int| 0 <= k < 16 implies #[trigger] bc1_index(out@, k) == bc1_pixel_index(
            p[k],
            c0,
            c1,
            three,
        ) by {
            assert(((indices >> (2 * (k as u32))) & 3) == bc1_pixel_index(p[k], c0, c1, three));
            assert((2 * k) as u32 == 2 * (k as u32));
        }
    }
    out
}

proof fn lemma_bc1_nearest_range(px: [u8; 4], c0: u16, c1: u16, n: int)
    requires
        1 <= n <= 4,
    ensures
        0 <= bc1_nearest_upto(px, c0, c1, n) < n,
    decreases n,
{
    if n > 1 {
        lemma_bc1_nearest_range(px, c0, c1, n - 1);
    }
}

// ---- Surfaces --------------------------------------------------------------------

/// `v` clamped to the last index of an axis `n` long (0 when `n` is 0).
pub open spec fn clamp_to(v: int, n: u32) -> int {
    let last = if n == 0 { 0 } else { n - 1 };
    if v < last {
        v
    } else {
        last
    }
}

/// Offset in a packed `w × h` surface of `ch`-byte pixels of texel `t` of
/// block `(bx, by)`; texels past the right or bottom edge repeat the last
/// column or row.
pub open spec fn texel_offset(w: u32, h: u32, bx: int, by: int, t: int, ch: int) -> int {
    let xx = clamp_to(4 * bx + t % 4, w);
    let yy = clamp_to(4 * by + t / 4, h);
    (yy * w + xx) * ch
}

/// Bytes the gather of any block may read: the whole surface, or one row
/// (one pixel when the width is 0) of a surface with a zero dimension.
pub open spec fn gather_extent(w: u32, h: u32, ch: int) -> int {
    if w == 0 {
        ch
    } else if h == 0 {
        w * ch
    } else {
        w * h * ch
    }
}

/// Blocks per row of a `w`-wide surface.
pub open spec fn blocks_across(w: u32) -> int {
    ceil4(if w == 0 { 1 } else { w as int })
}

/// Blocks covering a `w × h` surface.
pub open spec fn block_count(w: u32, h: u32) -> int {
    blocks_across(w) * blocks_across(h)
}

proof fn lemma_texel_offset_bound(w: u32, h: u32, bx: int, by: int, t: int, ch: int)
    requires
        0 <= t < 16,
        bx >= 0,
        by >= 0,
        ch >= 1,
    ensures
        0 <= clamp_to(4 * by + t / 4, h) * w <= clamp_to(4 * by + t / 4, h) * w + clamp_to(4 * bx + t % 4, w),
        0 <= texel_offset(w, h, bx, by, t, ch),
        clamp_to(4 * by + t / 4, h) * w + clamp_to(4 * bx + t % 4, w) <= texel_offset(w, h, bx, by, t, ch),
        texel_offset(w, h, bx, by, t, ch) + ch <= gather_extent(w, h, ch),
{
    let xx = clamp_to(4 * bx + t % 4, w);
    let yy = clamp_to(4 * by + t / 4, h);
    assert(yy * w + xx <= (yy * w + xx) * ch) by (nonlinear_arith)
        requires
            0 <= yy * w + xx,
            ch >= 1,
    ;
    if w == 0 {
        assert(yy * w == 0) by (nonlinear_arith)
            requires
                w == 0,
        ;
    } else if h == 0 {
        assert(yy * w == 0 && (yy * w + xx) * ch + ch <= w * ch && 0 <= (yy * w + xx) * ch) by (nonlinear_arith)
            requires
                yy == 0,
                0 <= xx < w,
                ch >= 1,
        ;
    } else {
        assert(0 <= yy * w && 0 <= (yy * w + xx) * ch && (yy * w + xx) * ch + ch <= w * h * ch) by (nonlinear_arith)
            requires
                0 <= xx < w,
                0 <= yy < h,
                ch >= 1,
        ;
    }
}

/// Byte `i` of a surface's bytes `s`, 0 past their end (only a surface
/// with a zero dimension can be read past its end).
pub open spec fn surface_byte(s: Seq<u8>, i: int) -> u8 {
    if 0 <= i < s.len() {
        s[i]
    } else {
        0
    }
}

/// Byte `off` of `input`, 0 past its end.
pub(crate) fn byte_or_zero(input: &[u8], off: u64) -> (b: u8)
    ensures
        b == surface_byte(input@, off as int),
{
    if off < input.len() as u64 {
        input[off as usize]
    } else {
        0
    }
}

/// A texel offset and the bytes after it fit a `u64`.
pub(crate) proof fn lemma_offset_fits(w: u32, h: u32, bx: int, by: int, t: int, ch: int)
    requires
        0 <= t < 16,
        bx >= 0,
        by >= 0,
        1 <= ch <= 8,
        w * h * ch <= usize::MAX,
    ensures
        0 <= clamp_to(4 * by + t / 4, h) * w <= clamp_to(4 * by + t / 4, h) * w + clamp_to(4 * bx + t % 4, w),
        clamp_to(4 * by + t / 4, h) * w + clamp_to(4 * bx + t % 4, w) <= texel_offset(w, h, bx, by, t, ch),
        texel_offset(w, h, bx, by, t, ch) == (clamp_to(4 * by + t / 4, h) * w + clamp_to(4 * bx + t % 4, w)) * ch,
        texel_offset(w, h, bx, by, t, ch) + ch <= u64::MAX,
{
    lemma_texel_offset_bound(w, h, bx, by, t, ch);
    assert(w * ch <= 0x8_0000_0000) by (nonlinear_arith)
        requires
            w <= 0xffff_ffff,
            1 <= ch <= 8,
    ;
}

/// The 16 RGBA pixels of block `(bx, by)` of a packed RGBA8 surface.
pub open spec fn gathered_rgba(input: Seq<u8>, w: u32, h: u32, bx: int, by: int) -> Seq<[u8; 4]> {
    Seq::new(
        16,
        |t: int|
            {
                let off = texel_offset(w, h, bx, by, t, 4);
                [surface_byte(input, off), surface_byte(input, off + 1), surface_byte(input, off + 2), surface_byte(input, off + 3)]
            },
    )
}

/// Channel `c` of the 16 pixels of block `(bx, by)` of a packed surface of
/// `ch`-byte pixels.
pub open spec fn gathered_channel(input: Seq<u8>, w: u32, h: u32, bx: int, by: int, ch: int, c: int) -> Seq<u8> {
    Seq::new(16, |t: int| surface_byte(input, texel_offset(w, h, bx, by, t, ch) + c))
}

/// Read block `(bx, by)` of a packed RGBA8 surface.
pub(crate) fn gather_rgba(input: &[u8], width: u32, height: u32, bx: usize, by: usize) -> (block: [[u8; 4]; 16])
    requires
        bx < blocks_across(width),
        by < blocks_across(height),
        width * height * 4 <= usize::MAX,
    ensures
        block@ == gathered_rgba(input@, width, height, bx as int, by as int),
{
    let in_len = input.len();
    let mut block = [[0u8; 4]; 16];
    let xlast: u32 = if width == 0 {
        0
    } else {
        width - 1
    };
    let ylast: u32 = if height == 0 {
        0
    } else {
        height - 1
    };
    let mut t: usize = 0;
    while t < 16
        invariant
            in_len == input@.len(),
            t <= 16,
            bx < blocks_across(width),
            by < blocks_across(height),
            width * height * 4 <= usize::MAX,
            xlast == (if width == 0 { 0 } else { width - 1 }),
            ylast == (if height == 0 { 0 } else { height - 1 }),
            forall|k: int| 0 <= k < t ==> #[trigger] block@[k] == gathered_rgba(input@, width, height, bx as int, by as int)[k],
        decreases 16 - t,
    {
        let px = (t % 4) as u32;
        let py = (t / 4) as u32;
        let x = bx as u32 * 4 + px;
        let y = by as u32 * 4 + py;
        let xx = if x < xlast {
            x
        } else {
            xlast
        };
        let yy = if y < ylast {
            y
        } else {
            ylast
        };
        proof {
            lemma_offset_fits(width, height, bx as int, by as int, t as int, 4);
        }
        let off = (yy as u64 * width as u64 + xx as u64) * 4;
        block[t] = [
            byte_or_zero(input, off),
            byte_or_zero(input, off + 1),
            byte_or_zero(input, off + 2),
            byte_or_zero(input, off + 3),
        ];
        t += 1;
    }
    assert(block@ =~= gathered_rgba(input@, width, height, bx as int, by as int));
    block
}

/// Read channel `c` of block `(bx, by)` of a packed surface of `ch`-byte pixels.
fn gather_channel(input: &[u8], width: u32, height: u32, bx: usize, by: usize, ch: usize, c: usize) -> (vals: [u8; 16])
    requires
        1 <= ch <= 4,
        c < ch,
        bx < blocks_across(width),
        by < blocks_across(height),
        width * height * ch <= usize::MAX,
    ensures
        vals@ == gathered_channel(input@, width, height, bx as int, by as int, ch as int, c as int),
{
    let in_len = input.len();
    let mut vals = [0u8; 16];
    let xlast: u32 = if width == 0 {
        0
    } else {
        width - 1
    };
    let ylast: u32 = if height == 0 {
        0
    } else {
        height - 1
    };
    let mut t: usize = 0;
    while t < 16
        invariant
            in_len == input@.len(),
            t <= 16,
            1 <= ch <= 4,
            c < ch,
            bx < blocks_across(width),
            by < blocks_across(height),
            width * height * ch <= usize::MAX,
            xlast == (if width == 0 { 0 } else { width - 1 }),
            ylast == (if height == 0 { 0 } else { height - 1 }),
            forall|k: int| 0 <= k < t ==> #[trigger] vals@[k] == gathered_channel(input@, width, height, bx as int, by as int, ch as int, c as int)[k],
        decreases 16 - t,
    {
        let px = (t % 4) as u32;
        let py = (t / 4) as u32;
        let x = bx as u32 * 4 + px;
        let y = by as u32 * 4 + py;
        let xx = if x < xlast {
            x
        } else {
            xlast
        };
        let yy = if y < ylast {
            y
        } else {
            ylast
        };
        proof {
            lemma_offset_fits(width, height, bx as int, by as int, t as int, ch as int);
        }
        let off = (yy as u64 * width as u64 + xx as u64) * ch as u64;
        vals[t] = byte_or_zero(input, off + c as u64);
        t += 1;
    }
    assert(vals@ =~= gathered_channel(input@, width, height, bx as int, by as int, ch as int, c as int));
    vals
}

/// Copy `bytes` into `output` at `off`.
pub(crate) fn write_bytes_at(output: &mut [u8], off: usize, bytes: &[u8])
    requires
        off + bytes@.len() <= old(output)@.len(),
    ensures
        final(output)@ == old(output)@.subrange(0, off as int) + bytes@ + old(output)@.subrange(
            off + bytes@.len(),
            old(output)@.len() as int,
        ),
{
    let n = bytes.len();
    let out_len = output.len();
    let mut k: usize = 0;
    while k < n
        invariant
            out_len == old(output)@.len(),
            n == bytes@.len(),
            off + n <= old(output)@.len(),
            k <= n,
            output@.len() == old(output)@.len(),
            forall|j: int|
                0 <= j < output@.len() ==> #[trigger] output@[j] == (if off <= j < off + k {
                    bytes@[j - off]
                } else {
                    old(output)@[j]
                }),
        decreases n - k,
    {
        output[off + k] = bytes[k];
        k += 1;
    }
    assert(output@ =~= old(output)@.subrange(0, off as int) + bytes@ + old(output)@.subrange(
        off + bytes@.len(),
        old(output)@.len() as int,
    ));
}

/// The surface checks of the encoders: the input holds the whole `w × h`
/// surface of `ch`-byte pixels and the output every `bb`-byte block.
pub open spec fn encode_lengths_ok(in_len: int, out_len: int, w: u32, h: u32, ch: int, bb: int) -> bool {
    w * h * ch <= in_len && block_count(w, h) * bb <= out_len
}

/// Block `b` of `out` (its `bb` bytes).
pub open spec fn out_block(out: Seq<u8>, b: int, bb: int) -> Seq<u8> {
    out.subrange(b * bb, b * bb + bb)
}

pub(crate) proof fn lemma_block_count_facts(w: u32, h: u32, b: int)
    requires
        0 <= b < block_count(w, h),
    ensures
        blocks_across(w) >= 1,
        blocks_across(h) >= 1,
        0 <= b % blocks_across(w) < blocks_across(w),
        0 <= b / blocks_across(w) < blocks_across(h),
{
    let bw = blocks_across(w);
    let bh = blocks_across(h);
    assert(0 <= b / bw < bh) by (nonlinear_arith)
        requires
            bw >= 1,
            bh >= 1,
            0 <= b < bw * bh,
    ;
}

/// The block count and the byte size of a `w × h` surface of `ch`-byte
/// pixels as `usize` values.
pub(crate) fn surface_sizes(width: u32, height: u32, ch: usize, bb: usize) -> (r: (usize, usize, usize))
    requires
        width * height * ch <= usize::MAX,
        block_count(width, height) * bb <= usize::MAX,
        1 <= bb,
    ensures
        r.0 == blocks_across(width),
        r.1 == blocks_across(height),
        r.2 == width * height * ch,
{
    let bw = crate::bcn::ceil_div4(if width == 0 {
        1
    } else {
        width
    });
    let bh = crate::bcn::ceil_div4(if height == 0 {
        1
    } else {
        height
    });
    assert(width * height <= width * height * ch || ch == 0) by (nonlinear_arith);
    let want_in = if ch == 0 { 0 } else { width as usize * height as usize * ch };
    (bw, bh, want_in)
}

/// Encode a packed RGBA8 `width × height` surface to BC1.
///
/// `input` must hold `width × height × 4` bytes and `output`
/// `ceil(w/4) × ceil(h/4) × 8`; otherwise the result is `InvalidData` and
/// `output` is untouched. Texels past the right or bottom edge repeat the
/// last column or row; a surface with a zero width or height still fills
/// its one row or column of blocks, reading 0 for bytes past the end of
/// `input`.
pub fn encode_bc1(input: &[u8], width: u32, height: u32, accept_punchthrough_alpha: bool, output: &mut [u8]) -> (r: Result<()>)
    requires
        width * height * 4 <= usize::MAX,
        block_count(width, height) * 8 <= usize::MAX,
    ensures
        !encode_lengths_ok(input@.len() as int, old(output)@.len() as int, width, height, 4, 8) ==> (
        is_invalid(r) && final(output)@ == old(output)@),
        encode_lengths_ok(input@.len() as int, old(output)@.len() as int, width, height, 4, 8) ==> (r is Ok
            && final(output)@.len() == old(output)@.len() && (forall|b: int|
            0 <= b < block_count(width, height) ==> bc1_block_encodes(
                #[trigger] out_block(final(output)@, b, 8),
                gathered_rgba(input@, width, height, b % blocks_across(width), b / blocks_across(width)),
                accept_punchthrough_alpha,
            )) && (forall|j: int|
            block_count(width, height) * 8 <= j < old(output)@.len() ==> #[trigger] final(output)@[j]
                == old(output)@[j])),
{
    let (bw, bh, want_in) = surface_sizes(width, height, 4, 8);
    if input.len() < want_in {
        return Err(DdsError::invalid("BC1 encoder input is shorter than width x height x 4"));
    }
    let want_out = bw * bh * 8;
    if output.len() < want_out {
        return Err(DdsError::invalid("BC1 encoder output is shorter than the block stream"));
    }
    let n = bw * bh;
    let mut b: usize = 0;
    while b < n
        invariant
            n == block_count(width, height),
            want_out == n * 8,
            bw == blocks_across(width),
            bh == blocks_across(height),
            n * 8 <= old(output)@.len(),
            width * height * 4 <= usize::MAX,
            b <= n,
            output@.len() == old(output)@.len(),
            forall|k: int|
                0 <= k < b ==> bc1_block_encodes(
                    #[trigger] out_block(output@, k, 8),
                    gathered_rgba(input@, width, height, k % bw as int, k / bw as int),
                    accept_punchthrough_alpha,
                ),
            forall|j: int| b * 8 <= j < old(output)@.len() ==> #[trigger] output@[j] == old(output)@[j],
        decreases n - b,
    {
        proof {
            lemma_block_count_facts(width, height, b as int);
        }
        let bx = b % bw;
        let by = b / bw;
        let block = gather_rgba(input, width, height, bx, by);
        let bc = encode_bc1_block(&block, accept_punchthrough_alpha);
        let ghost prev = output@;
        write_bytes_at(output, b * 8, &bc);
        proof {
            assert forall|k: int| 0 <= k < b + 1 implies bc1_block_encodes(
                #[trigger] out_block(output@, k, 8),
                gathered_rgba(input@, width, height, k % bw as int, k / bw as int),
                accept_punchthrough_alpha,
            ) by {
                if k < b {
                    assert(out_block(output@, k, 8) =~= out_block(prev, k, 8));
                } else {
                    assert(out_block(output@, k, 8) =~= bc@);
                }
            }
        }
        b += 1;
    }
    Ok(())
}

/// The pixels with alpha forced to 255.
pub open spec fn opaque(p: Seq<[u8; 4]>) -> Seq<[u8; 4]> {
    Seq::new(16, |t: int| [p[t][0], p[t][1], p[t][2], 255u8])
}

/// The alpha channel of the pixels.
pub open spec fn alpha_of(p: Seq<[u8; 4]>) -> Seq<u8> {
    Seq::new(16, |t: int| p[t][3])
}

/// `out` is the BC2 block the encoder makes of `p`: explicit 4-bit alpha,
/// then a four-colour BC1 block of the opaque pixels.
pub open spec fn bc2_block_encodes(out: Seq<u8>, p: Seq<[u8; 4]>) -> bool {
    &&& forall|k: int| 0 <= k < 8 ==> #[trigger] out[k] == bc2_alpha_byte(alpha_of(p), k)
    &&& bc1_block_encodes(out.subrange(8, 16), opaque(p), false)
}

/// `out` is the BC3 block the encoder makes of `p`: interpolated alpha,
/// then a four-colour BC1 block of the opaque pixels.
pub open spec fn bc3_block_encodes(out: Seq<u8>, p: Seq<[u8; 4]>) -> bool {
    &&& bc4_block_encodes(out.subrange(0, 8), alpha_of(p))
    &&& bc1_block_encodes(out.subrange(8, 16), opaque(p), false)
}

/// Split an RGBA block into its opaque colours and its alpha values.
fn split_alpha(block: &[[u8; 4]; 16]) -> (r: ([[u8; 4]; 16], [u8; 16]))
    ensures
        r.0@ == opaque(block@),
        r.1@ == alpha_of(block@),
{
    let mut colour = [[0u8; 4]; 16];
    let mut alpha = [0u8; 16];
    let mut i: usize = 0;
    while i < 16
        invariant
            i <= 16,
            forall|k: int| 0 <= k < i ==> #[trigger] colour@[k] == opaque(block@)[k],
            forall|k: int| 0 <= k < i ==> #[trigger] alpha@[k] == alpha_of(block@)[k],
        decreases 16 - i,
    {
        let p = block[i];
        colour[i] = [p[0], p[1], p[2], 0xff];
        alpha[i] = p[3];
        i += 1;
    }
    assert(colour@ =~= opaque(block@));
    assert(alpha@ =~= alpha_of(block@));
    (colour, alpha)
}

/// Two 8-byte halves side by side.
fn join_halves(lo: &[u8; 8], hi: &[u8; 8]) -> (out: [u8; 16])
    ensures
        out@.subrange(0, 8) == lo@,
        out@.subrange(8, 16) == hi@,
{
    let mut out = [0u8; 16];
    let mut k: usize = 0;
    while k < 8
        invariant
            k <= 8,
            forall|j: int| 0 <= j < k ==> #[trigger] out@[j] == lo@[j],
            forall|j: int| 8 <= j < 8 + k ==> #[trigger] out@[j] == hi@[j - 8],
        decreases 8 - k,
    {
        out[k] = lo[k];
        out[8 + k] = hi[k];
        k += 1;
    }
    assert(out@.subrange(0, 8) =~= lo@);
    assert(out@.subrange(8, 16) =~= hi@);
    out
}

/// Encode a packed RGBA8 surface to BC2 (DXT3): explicit 4-bit alpha and a
/// four-colour BC1 colour block per 4×4 block. Length checks as for
/// [`encode_bc1`] with 16-byte blocks.
pub fn encode_bc2(input: &[u8], width: u32, height: u32, output: &mut [u8]) -> (r: Result<()>)
    requires
        width * height * 4 <= usize::MAX,
        block_count(width, height) * 16 <= usize::MAX,
    ensures
        !encode_lengths_ok(input@.len() as int, old(output)@.len() as int, width, height, 4, 16) ==> (
        is_invalid(r) && final(output)@ == old(output)@),
        encode_lengths_ok(input@.len() as int, old(output)@.len() as int, width, height, 4, 16) ==> (r is Ok
            && final(output)@.len() == old(output)@.len() && (forall|b: int|
            0 <= b < block_count(width, height) ==> bc2_block_encodes(
                #[trigger] out_block(final(output)@, b, 16),
                gathered_rgba(input@, width, height, b % blocks_across(width), b / blocks_across(width)),
            )) && (forall|j: int|
            block_count(width, height) * 16 <= j < old(output)@.len() ==> #[trigger] final(output)@[j]
                == old(output)@[j])),
{
    let (bw, bh, want_in) = surface_sizes(width, height, 4, 16);
    if input.len() < want_in {
        return Err(DdsError::invalid("BC2 encoder input is shorter than width x height x 4"));
    }
    let want_out = bw * bh * 16;
    if output.len() < want_out {
        return Err(DdsError::invalid("BC2 encoder output is shorter than the block stream"));
    }
    let n = bw * bh;
    let mut b: usize = 0;
    while b < n
        invariant
            n == block_count(width, height),
            want_out == n * 16,
            bw == blocks_across(width),
            bh == blocks_across(height),
            n * 16 <= old(output)@.len(),
            width * height * 4 <= usize::MAX,
            b <= n,
            output@.len() == old(output)@.len(),
            forall|k: int|
                0 <= k < b ==> bc2_block_encodes(
                    #[trigger] out_block(output@, k, 16),
                    gathered_rgba(input@, width, height, k % bw as int, k / bw as int),
                ),
            forall|j: int| b * 16 <= j < old(output)@.len() ==> #[trigger] output@[j] == old(output)@[j],
        decreases n - b,
    {
        proof {
            lemma_block_count_facts(width, height, b as int);
        }
        let bx = b % bw;
        let by = b / bw;
        let block = gather_rgba(input, width, height, bx, by);
        let (colour, alpha) = split_alpha(&block);
        let alpha_bytes = encode_bc2_alpha_block(&alpha);
        let bc1 = encode_bc1_block(&colour, false);
        let bc = join_halves(&alpha_bytes, &bc1);
        let ghost prev = output@;
        write_bytes_at(output, b * 16, &bc);
        proof {
            assert(bc2_block_encodes(bc@, block@)) by {
                assert forall|k: int| 0 <= k < 8 implies #[trigger] bc@[k] == bc2_alpha_byte(alpha_of(block@), k) by {
                    assert(bc@[k] == bc@.subrange(0, 8)[k]);
                }
            }
            assert forall|k: int| 0 <= k < b + 1 implies bc2_block_encodes(
                #[trigger] out_block(output@, k, 16),
                gathered_rgba(input@, width, height, k % bw as int, k / bw as int),
            ) by {
                if k < b {
                    assert(out_block(output@, k, 16) =~= out_block(prev, k, 16));
                } else {
                    assert(out_block(output@, k, 16) =~= bc@);
                }
            }
        }
        b += 1;
    }
    Ok(())
}

/// Encode a packed RGBA8 surface to BC3 (DXT5): interpolated alpha and a
/// four-colour BC1 colour block per 4×4 block. Length checks as for
/// [`encode_bc1`] with 16-byte blocks.
pub fn encode_bc3(input: &[u8], width: u32, height: u32, output: &mut [u8]) -> (r: Result<()>)
    requires
        width * height * 4 <= usize::MAX,
        block_count(width, height) * 16 <= usize::MAX,
    ensures
        !encode_lengths_ok(input@.len() as int, old(output)@.len() as int, width, height, 4, 16) ==> (
        is_invalid(r) && final(output)@ == old(output)@),
        encode_lengths_ok(input@.len() as int, old(output)@.len() as int, width, height, 4, 16) ==> (r is Ok
            && final(output)@.len() == old(output)@.len() && (forall|b: int|
            0 <= b < block_count(width, height) ==> bc3_block_encodes(
                #[trigger] out_block(final(output)@, b, 16),
                gathered_rgba(input@, width, height, b % blocks_across(width), b / blocks_across(width)),
            )) && (forall|j: int|
            block_count(width, height) * 16 <= j < old(output)@.len() ==> #[trigger] final(output)@[j]
                == old(output)@[j])),
{
    let (bw, bh, want_in) = surface_sizes(width, height, 4, 16);
    if input.len() < want_in {
        return Err(DdsError::invalid("BC3 encoder input is shorter than width x height x 4"));
    }
    let want_out = bw * bh * 16;
    if output.len() < want_out {
        return Err(DdsError::invalid("BC3 encoder output is shorter than the block stream"));
    }
    let n = bw * bh;
    let mut b: usize = 0;
    while b < n
        invariant
            n == block_count(width, height),
            want_out == n * 16,
            bw == blocks_across(width),
            bh == blocks_across(height),
            n * 16 <= old(output)@.len(),
            width * height * 4 <= usize::MAX,
            b <= n,
            output@.len() == old(output)@.len(),
            forall|k: int|
                0 <= k < b ==> bc3_block_encodes(
                    #[trigger] out_block(output@, k, 16),
                    gathered_rgba(input@, width, height, k % bw as int, k / bw as int),
                ),
            forall|j: int| b * 16 <= j < old(output)@.len() ==> #[trigger] output@[j] == old(output)@[j],
        decreases n - b,
    {
        proof {
            lemma_block_count_facts(width, height, b as int);
        }
        let bx = b % bw;
        let by = b / bw;
        let block = gather_rgba(input, width, height, bx, by);
        let (colour, alpha) = split_alpha(&block);
        let alpha_bytes = encode_bc4_unorm_block(&alpha);
        let bc1 = encode_bc1_block(&colour, false);
        let bc = join_halves(&alpha_bytes, &bc1);
        let ghost prev = output@;
        write_bytes_at(output, b * 16, &bc);
        proof {
            assert(bc3_block_encodes(bc@, block@));
            assert forall|k: int| 0 <= k < b + 1 implies bc3_block_encodes(
                #[trigger] out_block(output@, k, 16),
                gathered_rgba(input@, width, height, k % bw as int, k / bw as int),
            ) by {
                if k < b {
                    assert(out_block(output@, k, 16) =~= out_block(prev, k, 16));
                } else {
                    assert(out_block(output@, k, 16) =~= bc@);
                }
            }
        }
        b += 1;
    }
    Ok(())
}

/// Encode a packed single-channel (R8) surface to BC4 unorm. Length checks
/// as for [`encode_bc1`] with 1-byte pixels and 8-byte blocks.
pub fn encode_bc4_unorm(input: &[u8], width: u32, height: u32, output: &mut [u8]) -> (r: Result<()>)
    requires
        width * height <= usize::MAX,
        block_count(width, height) * 8 <= usize::MAX,
    ensures
        !encode_lengths_ok(input@.len() as int, old(output)@.len() as int, width, height, 1, 8) ==> (
        is_invalid(r) && final(output)@ == old(output)@),
        encode_lengths_ok(input@.len() as int, old(output)@.len() as int, width, height, 1, 8) ==> (r is Ok
            && final(output)@.len() == old(output)@.len() && (forall|b: int|
            0 <= b < block_count(width, height) ==> bc4_block_encodes(
                #[trigger] out_block(final(output)@, b, 8),
                gathered_channel(input@, width, height, b % blocks_across(width), b / blocks_across(width), 1, 0),
            )) && (forall|j: int|
            block_count(width, height) * 8 <= j < old(output)@.len() ==> #[trigger] final(output)@[j]
                == old(output)@[j])),
{
    assert(width * height * 1 == width * height);
    let (bw, bh, want_in) = surface_sizes(width, height, 1, 8);
    if input.len() < want_in {
        return Err(DdsError::invalid("BC4 encoder input is shorter than width x height"));
    }
    let want_out = bw * bh * 8;
    if output.len() < want_out {
        return Err(DdsError::invalid("BC4 encoder output is shorter than the block stream"));
    }
    let n = bw * bh;
    let mut b: usize = 0;
    while b < n
        invariant
            n == block_count(width, height),
            want_out == n * 8,
            bw == blocks_across(width),
            bh == blocks_across(height),
            n * 8 <= old(output)@.len(),
            width * height * 1 <= usize::MAX,
            b <= n,
            output@.len() == old(output)@.len(),
            forall|k: int|
                0 <= k < b ==> bc4_block_encodes(
                    #[trigger] out_block(output@, k, 8),
                    gathered_channel(input@, width, height, k % bw as int, k / bw as int, 1, 0),
                ),
            forall|j: int| b * 8 <= j < old(output)@.len() ==> #[trigger] output@[j] == old(output)@[j],
        decreases n - b,
    {
        proof {
            lemma_block_count_facts(width, height, b as int);
        }
        let bx = b % bw;
        let by = b / bw;
        let vals = gather_channel(input, width, height, bx, by, 1, 0);
        let bc = encode_bc4_unorm_block(&vals);
        let ghost prev = output@;
        write_bytes_at(output, b * 8, &bc);
        proof {
            assert forall|k: int| 0 <= k < b + 1 implies bc4_block_encodes(
                #[trigger] out_block(output@, k, 8),
                gathered_channel(input@, width, height, k % bw as int, k / bw as int, 1, 0),
            ) by {
                if k < b {
                    assert(out_block(output@, k, 8) =~= out_block(prev, k, 8));
                } else {
                    assert(out_block(output@, k, 8) =~= bc@);
                }
            }
        }
        b += 1;
    }
    Ok(())
}

/// `out` is the BC5 block the encoder makes of the red values `r` and the
/// green values `g`: one interpolated block per channel.
pub open spec fn bc5_block_encodes(out: Seq<u8>, r: Seq<u8>, g: Seq<u8>) -> bool {
    bc4_block_encodes(out.subrange(0, 8), r) && bc4_block_encodes(out.subrange(8, 16), g)
}

/// Encode a packed two-channel (RG8, `[r, g, r, g, ...]`) surface to BC5
/// unorm. Length checks as for [`encode_bc1`] with 2-byte pixels and
/// 16-byte blocks.
pub fn encode_bc5_unorm(input: &[u8], width: u32, height: u32, output: &mut [u8]) -> (r: Result<()>)
    requires
        width * height * 2 <= usize::MAX,
        block_count(width, height) * 16 <= usize::MAX,
    ensures
        !encode_lengths_ok(input@.len() as int, old(output)@.len() as int, width, height, 2, 16) ==> (
        is_invalid(r) && final(output)@ == old(output)@),
        encode_lengths_ok(input@.len() as int, old(output)@.len() as int, width, height, 2, 16) ==> (r is Ok
            && final(output)@.len() == old(output)@.len() && (forall|b: int|
            0 <= b < block_count(width, height) ==> bc5_block_encodes(
                #[trigger] out_block(final(output)@, b, 16),
                gathered_channel(input@, width, height, b % blocks_across(width), b / blocks_across(width), 2, 0),
                gathered_channel(input@, width, height, b % blocks_across(width), b / blocks_across(width), 2, 1),
            )) && (forall|j: int|
            block_count(width, height) * 16 <= j < old(output)@.len() ==> #[trigger] final(output)@[j]
                == old(output)@[j])),
{
    let (bw, bh, want_in) = surface_sizes(width, height, 2, 16);
    if input.len() < want_in {
        return Err(DdsError::invalid("BC5 encoder input is shorter than width x height x 2"));
    }
    let want_out = bw * bh * 16;
    if output.len() < want_out {
        return Err(DdsError::invalid("BC5 encoder output is shorter than the block stream"));
    }
    let n = bw * bh;
    let mut b: usize = 0;
    while b < n
        invariant
            n == block_count(width, height),
            want_out == n * 16,
            bw == blocks_across(width),
            bh == blocks_across(height),
            n * 16 <= old(output)@.len(),
            width * height * 2 <= usize::MAX,
            b <= n,
            output@.len() == old(output)@.len(),
            forall|k: int|
                0 <= k < b ==> bc5_block_encodes(
                    #[trigger] out_block(output@, k, 16),
                    gathered_channel(input@, width, height, k % bw as int, k / bw as int, 2, 0),
                    gathered_channel(input@, width, height, k % bw as int, k / bw as int, 2, 1),
                ),
            forall|j: int| b * 16 <= j < old(output)@.len() ==> #[trigger] output@[j] == old(output)@[j],
        decreases n - b,
    {
        proof {
            lemma_block_count_facts(width, height, b as int);
        }
        let bx = b % bw;
        let by = b / bw;
        let rv = gather_channel(input, width, height, bx, by, 2, 0);
        let gv = gather_channel(input, width, height, bx, by, 2, 1);
        let rb = encode_bc4_unorm_block(&rv);
        let gb = encode_bc4_unorm_block(&gv);
        let bc = join_halves(&rb, &gb);
        let ghost prev = output@;
        write_bytes_at(output, b * 16, &bc);
        proof {
            assert(bc5_block_encodes(bc@, rv@, gv@));
            assert forall|k: int| 0 <= k < b + 1 implies bc5_block_encodes(
                #[trigger] out_block(output@, k, 16),
                gathered_channel(input@, width, height, k % bw as int, k / bw as int, 2, 0),
                gathered_channel(input@, width, height, k % bw as int, k / bw as int, 2, 1),
            ) by {
                if k < b {
                    assert(out_block(output@, k, 16) =~= out_block(prev, k, 16));
                } else {
                    assert(out_block(output@, k, 16) =~= bc@);
                }
            }
        }
        b += 1;
    }
    Ok(())
}

} // verus!
