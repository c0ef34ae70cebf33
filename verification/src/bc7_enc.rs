//! BC7 (`BC7_UNORM`) block encoder: mode 6 for every block, and the
//! two-subset modes 1 and 3 (opaque blocks) or 7 (blocks with alpha) over
//! the 64 partitions of the two-subset table, keeping the candidate with
//! the least squared error.
//!
//! Every candidate is measured against the palette the decoder rebuilds
//! from the packed block, so the error it reports is the error of what the
//! block decodes to.
use vstd::prelude::*;
use crate::bc7::{
    anchor_of, bc7_mode, bc7_texel, bit_at, bits_acc, endpoint_channel, endpoint_count, endpoint_pos, expand8, field,
    idx_offset, idx_width, index_pos, interp, interpolate, mode_from, mode_spec, partition_pos, pbit_pos, rotation_pos,
    idx_sel_pos, subset_of, weight, WEIGHT_4,
};
use crate::bc7_tables::{anchor_entry, anchor_lookup, lemma_part2_layout, part2, part2_entry};
use crate::bcn_enc::{
    block_count, blocks_across, encode_lengths_ok, gather_rgba, gathered_rgba, lemma_block_count_facts,
    out_block, surface_sizes, write_bytes_at,
};
use crate::bitfacts::{lemma_bit_writes, lemma_masks, lemma_pow2_shifts};
use crate::bc6h_enc::abs_int;
use crate::error::{DdsError, Result, is_invalid};

verus! {

/// Split an 8-bit value into its top 7 bits and its low bit, so that
/// `(raw << 1) | p` gives the value back exactly.
pub fn quantize_7p(value: u8) -> (r: (u32, u32))
    ensures
        r.0 == value / 2,
        r.1 == value % 2,
        2 * r.0 + r.1 == value,
{
    ((value / 2) as u32, (value % 2) as u32)
}

// ---- Writing bits ----------------------------------------------------------------

/// Bit `i` of `v`, the lowest first.
pub open spec fn value_bit(v: u32, i: int) -> u64 {
    ((v >> (i as u32)) & 1u32) as u64
}

/// Block bits `pos..pos + n` hold the low `n` bits of `v`.
pub open spec fn holds_bits(b: Seq<u8>, pos: int, n: int, v: u32) -> bool {
    forall|j: int| pos <= j < pos + n ==> #[trigger] bit_at(b, j) == value_bit(v, j - pos)
}

proof fn lemma_bits_of_value(b: Seq<u8>, pos: int, n: int, v: u32)
    requires
        0 <= n <= 32,
        holds_bits(b, pos, n, v),
    ensures
        bits_acc(b, pos, n) == (v as u64) & (((1u64 << (n as u64)) - 1) as u64),
    decreases n,
{
    lemma_bit_writes();
    lemma_pow2_shifts();
    if n > 0 {
        lemma_bits_of_value(b, pos, n - 1, v);
        let k = (n - 1) as u64;
        assert(bit_at(b, pos + n - 1) == value_bit(v, n - 1));
        assert((((v as u64) & (((1u64 << k) - 1) as u64)) | ((((v >> (k as u32)) & 1u32) as u64) << k)) == (v as u64)
            & (((1u64 << ((k + 1) as u64)) - 1) as u64));
    }
}

/// A field whose bits were written with a value that fits reads back as
/// that value.
pub proof fn lemma_field_written(b: Seq<u8>, pos: int, n: int, v: u32)
    requires
        0 <= n <= 32,
        holds_bits(b, pos, n, v),
        (v as u64) < (1u64 << (n as u64)),
    ensures
        field(b, pos, n) == v,
{
    lemma_bits_of_value(b, pos, n, v);
    lemma_bit_writes();
}

proof fn lemma_set_bit(before: Seq<u8>, after: Seq<u8>, p: int, bit: u8)
    requires
        before.len() == 16,
        0 <= p < 128,
        bit <= 1,
        bit_at(before, p) == 0,
        after == before.update(p / 8, before[p / 8] | (bit << ((p % 8) as u8))),
    ensures
        forall|j: int| 0 <= j < 128 ==> #[trigger] bit_at(after, j) == if j == p {
            bit as u64
        } else {
            bit_at(before, j)
        },
{
    lemma_bit_writes();
    assert forall|j: int| 0 <= j < 128 implies #[trigger] bit_at(after, j) == if j == p {
        bit as u64
    } else {
        bit_at(before, j)
    } by {
        if j / 8 == p / 8 {
            let bb = before[p / 8];
            let s = (p % 8) as u8;
            let t = (j % 8) as u8;
            assert(((bb >> s) & 1u8) == 0);
            assert((((bb | (bit << s)) >> t) & 1u8) == if t == s {
                bit
            } else {
                (bb >> t) & 1u8
            });
        }
    }
}

/// Writes fields one after another from bit 0 of a 16-byte block.
pub(crate) struct BitWriter {
    pub(crate) block: [u8; 16],
    pub(crate) pos: u32,
}

impl BitWriter {
    /// The bits from `pos` on are still clear.
    pub(crate) open spec fn clean(&self) -> bool {
        &&& self.pos <= 128
        &&& forall|j: int| self.pos <= j < 128 ==> #[trigger] bit_at(self.block@, j) == 0
    }

    pub(crate) fn new() -> (w: Self)
        ensures
            w.clean(),
            w.pos == 0,
    {
        let w = BitWriter { block: [0u8; 16], pos: 0 };
        proof {
            lemma_bit_writes();
            assert forall|j: int| 0 <= j < 128 implies #[trigger] bit_at(w.block@, j) == 0 by {
                assert(w.block@[j / 8] == 0u8);
            }
        }
        w
    }

    /// Append the low `n` bits of `bits`.
    pub(crate) fn put(&mut self, bits: u32, n: u32)
        requires
            old(self).clean(),
            n <= 32,
            old(self).pos + n <= 128,
        ensures
            final(self).clean(),
            final(self).pos == old(self).pos + n,
            holds_bits(final(self).block@, old(self).pos as int, n as int, bits),
            forall|j: int| 0 <= j < old(self).pos ==> #[trigger] bit_at(final(self).block@, j) == bit_at(old(self).block@, j),
    {
        let ghost start = self.pos as int;
        let ghost b0 = self.block@;
        let mut i: u32 = 0;
        while i < n
            invariant
                i <= n,
                n <= 32,
                start + n <= 128,
                self.pos == start + i,
                self.clean(),
                holds_bits(self.block@, start, i as int, bits),
                forall|j: int| 0 <= j < start ==> #[trigger] bit_at(self.block@, j) == bit_at(b0, j),
            decreases n - i,
        {
            proof {
                lemma_masks();
            }
            let bit = ((bits >> i) & 1) as u8;
            let byte = (self.pos / 8) as usize;
            let shift = (self.pos % 8) as u8;
            let ghost before = self.block@;
            let ghost p = self.pos as int;
            let cur = self.block[byte];
            self.block[byte] = cur | (bit << shift);
            proof {
                assert(bit_at(before, p) == 0);
                lemma_set_bit(before, self.block@, p, bit);
                assert(value_bit(bits, i as int) == bit as u64);
                assert forall|j: int| start <= j < start + i + 1 implies #[trigger] bit_at(self.block@, j) == value_bit(
                    bits,
                    j - start,
                ) by {
                    if j < p {
                        assert(bit_at(before, j) == value_bit(bits, j - start));
                    }
                }
            }
            self.pos = self.pos + 1;
            i = i + 1;
        }
    }
}

// ---- Error measure --------------------------------------------------------------

/// Squared difference of channel `c` of `a` and `b`.
pub open spec fn chan_sq(a: [u8; 4], b: [u8; 4], c: int) -> int {
    (a[c] - b[c]) * (a[c] - b[c])
}

/// Squared distance between two RGBA values.
pub open spec fn sq_dist(a: [u8; 4], b: [u8; 4]) -> int {
    chan_sq(a, b, 0) + chan_sq(a, b, 1) + chan_sq(a, b, 2) + chan_sq(a, b, 3)
}

fn sq_dist4(a: [u8; 4], b: [u8; 4]) -> (r: u32)
    ensures
        r == sq_dist(a, b),
        r <= 260100,
{
    let mut s: i32 = 0;
    let mut i: usize = 0;
    while i < 4
        invariant
            i <= 4,
            s == if i == 0 {
                0
            } else if i == 1 {
                chan_sq(a, b, 0)
            } else if i == 2 {
                chan_sq(a, b, 0) + chan_sq(a, b, 1)
            } else if i == 3 {
                chan_sq(a, b, 0) + chan_sq(a, b, 1) + chan_sq(a, b, 2)
            } else {
                sq_dist(a, b)
            },
            0 <= s <= 65025 * i,
        decreases 4 - i,
    {
        let d = a[i] as i32 - b[i] as i32;
        assert(0 <= d * d <= 65025) by (nonlinear_arith)
            requires
                -255 <= d <= 255,
        ;
        s += d * d;
        i += 1;
    }
    s as u32
}

/// Squared error of `pixels[0..n]` against `texel`.
pub open spec fn sse_upto(pixels: Seq<[u8; 4]>, texel: spec_fn(int) -> [u8; 4], n: int) -> int
    decreases n,
{
    if n <= 0 {
        0
    } else {
        sse_upto(pixels, texel, n - 1) + sq_dist(pixels[n - 1], texel(n - 1))
    }
}

/// Squared error of what block `b` decodes to against `pixels`.
pub open spec fn block_sse(pixels: Seq<[u8; 4]>, b: Seq<u8>) -> int {
    sse_upto(pixels, |px: int| bc7_texel(b, px), 16)
}

// ---- Mode 6 ---------------------------------------------------------------------

/// A mode-6 endpoint channel: a 7-bit value with its p-bit below it.
pub open spec fn recon7(raw: u32, p: u32) -> u8 {
    expand8(raw, 7, Some(p))
}

/// A pixel of a mode-6 block with endpoints `raw0`, `raw1`, p-bits `p0`,
/// `p1`, and 4-bit index `idx`.
pub open spec fn mode6_texel(raw0: [u32; 4], raw1: [u32; 4], p0: u32, p1: u32, idx: u32) -> [u8; 4] {
    [
        interp(recon7(raw0[0], p0), recon7(raw1[0], p1), idx, 4),
        interp(recon7(raw0[1], p0), recon7(raw1[1], p1), idx, 4),
        interp(recon7(raw0[2], p0), recon7(raw1[2], p1), idx, 4),
        interp(recon7(raw0[3], p0), recon7(raw1[3], p1), idx, 4),
    ]
}

proof fn lemma_mode6_idx_offset(part: u32, px: int)
    requires
        0 <= px <= 16,
    ensures
        idx_offset(mode_spec(6), part, px) == if px == 0 {
            0int
        } else {
            4 * px - 1
        },
        idx_width(mode_spec(6), part, px) == if px == 0 {
            3int
        } else {
            4int
        },
    decreases px,
{
    if px > 0 {
        lemma_mode6_idx_offset(part, px - 1);
    }
}

impl BitWriter {
    /// Append four `n`-bit values.
    fn put_four(&mut self, v0: u32, v1: u32, v2: u32, v3: u32, n: u32)
        requires
            old(self).clean(),
            n <= 32,
            old(self).pos + 4 * n <= 128,
        ensures
            final(self).clean(),
            final(self).pos == old(self).pos + 4 * n,
            holds_bits(final(self).block@, old(self).pos as int, n as int, v0),
            holds_bits(final(self).block@, old(self).pos + n, n as int, v1),
            holds_bits(final(self).block@, old(self).pos + 2 * n, n as int, v2),
            holds_bits(final(self).block@, old(self).pos + 3 * n, n as int, v3),
            forall|j: int| 0 <= j < old(self).pos ==> #[trigger] bit_at(final(self).block@, j) == bit_at(old(self).block@, j),
    {
        self.put(v0, n);
        self.put(v1, n);
        self.put(v2, n);
        self.put(v3, n);
    }
}

/// The bits of a mode-6 block as [`pack_mode6`] lays them out.
spec fn mode6_written(b: Seq<u8>, raw0: [u32; 4], raw1: [u32; 4], p0: u32, p1: u32, indices: [u32; 16]) -> bool {
    &&& holds_bits(b, 0, 6, 0)
    &&& holds_bits(b, 6, 1, 1)
    &&& holds_bits(b, 7, 7, raw0[0])
    &&& holds_bits(b, 14, 7, raw1[0])
    &&& holds_bits(b, 21, 7, raw0[1])
    &&& holds_bits(b, 28, 7, raw1[1])
    &&& holds_bits(b, 35, 7, raw0[2])
    &&& holds_bits(b, 42, 7, raw1[2])
    &&& holds_bits(b, 49, 7, raw0[3])
    &&& holds_bits(b, 56, 7, raw1[3])
    &&& holds_bits(b, 63, 1, p0)
    &&& holds_bits(b, 64, 1, p1)
    &&& holds_bits(b, 65, 3, indices[0])
    &&& forall|k: int| #![trigger indices[k]] 1 <= k < 16 ==> holds_bits(b, 64 + 4 * k, 4, indices[k])
}

/// A block laid out as mode 6 decodes, pixel by pixel, to the palette entry
/// its index names.
#[verifier::spinoff_prover]
#[verifier::rlimit(40)]
proof fn lemma_mode6_decode(b: Seq<u8>, raw0: [u32; 4], raw1: [u32; 4], p0: u32, p1: u32, indices: [u32; 16])
    requires
        mode6_written(b, raw0, raw1, p0, p1, indices),
        forall|c: int| 0 <= c < 4 ==> raw0[c] < 128 && raw1[c] < 128,
        p0 <= 1,
        p1 <= 1,
        indices[0] < 8,
        forall|px: int| 0 <= px < 16 ==> indices[px] < 16,
    ensures
        bc7_mode(b) == 6,
        forall|px: int| 0 <= px < 16 ==> #[trigger] bc7_texel(b, px) == mode6_texel(raw0, raw1, p0, p1, indices[px]),
{
    lemma_bit_writes();
    lemma_pow2_shifts();
    assert(bit_at(b, 6) == value_bit(1, 0));
    assert(bit_at(b, 0) == value_bit(0, 0));
    assert(bit_at(b, 1) == value_bit(0, 1));
    assert(bit_at(b, 2) == value_bit(0, 2));
    assert(bit_at(b, 3) == value_bit(0, 3));
    assert(bit_at(b, 4) == value_bit(0, 4));
    assert(bit_at(b, 5) == value_bit(0, 5));
    assert(mode_from(b, 6) == 6);
    assert(mode_from(b, 5) == 6);
    assert(mode_from(b, 4) == 6);
    assert(mode_from(b, 3) == 6);
    assert(mode_from(b, 2) == 6);
    assert(mode_from(b, 1) == 6);
    assert(mode_from(b, 0) == 6);
    lemma_field_written(b, 7, 7, raw0[0]);
    lemma_field_written(b, 14, 7, raw1[0]);
    lemma_field_written(b, 21, 7, raw0[1]);
    lemma_field_written(b, 28, 7, raw1[1]);
    lemma_field_written(b, 35, 7, raw0[2]);
    lemma_field_written(b, 42, 7, raw1[2]);
    lemma_field_written(b, 49, 7, raw0[3]);
    lemma_field_written(b, 56, 7, raw1[3]);
    lemma_field_written(b, 63, 1, p0);
    lemma_field_written(b, 64, 1, p1);
    lemma_field_written(b, 65, 3, indices[0]);
    let mi = mode_spec(6);
    assert(mi.subsets == 1 && mi.colour_bits == 7 && mi.alpha_bits == 7 && mi.p_bits == 2);
    assert(endpoint_pos(6) == 7);
    assert(3 * endpoint_count(6) * mi.colour_bits == 42);
    assert(pbit_pos(6) == 63);
    assert(index_pos(6) == 65);
    assert forall|px: int| 0 <= px < 16 implies #[trigger] bc7_texel(b, px) == mode6_texel(
        raw0,
        raw1,
        p0,
        p1,
        indices[px],
    ) by {
        lemma_mode6_idx_offset(0, px);
        if px > 0 {
            assert(holds_bits(b, 64 + 4 * px, 4, indices[px]));
            lemma_field_written(b, 64 + 4 * px, 4, indices[px]);
        }
    }
}

/// Pack a mode-6 block: prefix `0000001`, the endpoint channels R0 R1 G0
/// G1 B0 B1 A0 A1 of 7 bits, the two p-bits, then the indices (3 bits for
/// the anchor pixel 0, 4 for the others).
fn pack_mode6(raw0: [u32; 4], raw1: [u32; 4], p0: u32, p1: u32, indices: [u32; 16]) -> (r: [u8; 16])
    requires
        forall|c: int| 0 <= c < 4 ==> raw0[c] < 128 && raw1[c] < 128,
        p0 <= 1,
        p1 <= 1,
        indices[0] < 8,
        forall|px: int| 0 <= px < 16 ==> indices[px] < 16,
    ensures
        bc7_mode(r@) == 6,
        forall|px: int| 0 <= px < 16 ==> #[trigger] bc7_texel(r@, px) == mode6_texel(raw0, raw1, p0, p1, indices[px]),
{
    let mut bw = BitWriter::new();
    bw.put(0, 6);
    bw.put(1, 1);
    bw.put(raw0[0], 7);
    bw.put(raw1[0], 7);
    bw.put(raw0[1], 7);
    bw.put(raw1[1], 7);
    bw.put(raw0[2], 7);
    bw.put(raw1[2], 7);
    bw.put(raw0[3], 7);
    bw.put(raw1[3], 7);
    bw.put(p0, 1);
    bw.put(p1, 1);
    bw.put(indices[0], 3);
    let ghost head = bw.block@;
    assert(holds_bits(head, 0, 6, 0));
    assert(holds_bits(head, 6, 1, 1));
    assert(holds_bits(head, 7, 7, raw0[0]));
    assert(holds_bits(head, 14, 7, raw1[0]));
    assert(holds_bits(head, 21, 7, raw0[1]));
    assert(holds_bits(head, 28, 7, raw1[1]));
    assert(holds_bits(head, 35, 7, raw0[2]));
    assert(holds_bits(head, 42, 7, raw1[2]));
    assert(holds_bits(head, 49, 7, raw0[3]));
    assert(holds_bits(head, 56, 7, raw1[3]));
    assert(holds_bits(head, 63, 1, p0));
    assert(holds_bits(head, 64, 1, p1));
    assert(holds_bits(head, 65, 3, indices[0]));
    let mut px: usize = 1;
    while px < 16
        invariant
            1 <= px <= 16,
            bw.clean(),
            bw.pos == 64 + 4 * px,
            forall|j: int| 0 <= j < 68 ==> #[trigger] bit_at(bw.block@, j) == bit_at(head, j),
            forall|k: int| #![trigger indices[k]] 1 <= k < px ==> holds_bits(bw.block@, 64 + 4 * k, 4, indices[k]),
        decreases 16 - px,
    {
        bw.put(indices[px], 4);
        px += 1;
    }
    let r = bw.block;
    proof {
        assert(mode6_written(r@, raw0, raw1, p0, p1, indices));
        lemma_mode6_decode(r@, raw0, raw1, p0, p1, indices);
    }
    r
}

/// Two per-pixel colourings that agree channel by channel have the same
/// squared error.
proof fn lemma_sse_same(pixels: Seq<[u8; 4]>, f: spec_fn(int) -> [u8; 4], g: spec_fn(int) -> [u8; 4], n: int)
    requires
        forall|px: int, c: int| 0 <= px < n && 0 <= c < 4 ==> #[trigger] f(px)[c] == g(px)[c],
    ensures
        sse_upto(pixels, f, n) == sse_upto(pixels, g, n),
    decreases n,
{
    if n > 0 {
        lemma_sse_same(pixels, f, g, n - 1);
        assert(f(n - 1)[0] == g(n - 1)[0] && f(n - 1)[1] == g(n - 1)[1]);
        assert(f(n - 1)[2] == g(n - 1)[2] && f(n - 1)[3] == g(n - 1)[3]);
    }
}

/// The p-bit shared by the four channels of an endpoint: 1 when at least
/// two of them are odd.
pub open spec fn majority_p(e: [u8; 4]) -> u32 {
    if e[0] % 2 + e[1] % 2 + e[2] % 2 + e[3] % 2 >= 2 {
        1
    } else {
        0
    }
}

/// The p-bit that keeps the most channel low bits of `e`.
fn pick_p_for_endpoint(e: [u8; 4]) -> (p: u32)
    ensures
        p == majority_p(e),
{
    let mut sum: u32 = 0;
    let mut c: usize = 0;
    while c < 4
        invariant
            c <= 4,
            sum == if c == 0 {
                0int
            } else if c == 1 {
                e[0] % 2 + 0
            } else if c == 2 {
                e[0] % 2 + e[1] % 2
            } else if c == 3 {
                e[0] % 2 + e[1] % 2 + e[2] % 2
            } else {
                e[0] % 2 + e[1] % 2 + e[2] % 2 + e[3] % 2
            },
        decreases 4 - c,
    {
        sum += (e[c] % 2) as u32;
        c += 1;
    }
    if sum >= 2 {
        1
    } else {
        0
    }
}

/// The index of the palette entry nearest to `pixel` (the first of equals).
fn nearest_index_rgba(palette: &[[u8; 4]], pixel: [u8; 4]) -> (r: u32)
    requires
        1 <= palette@.len() <= 16,
    ensures
        r < palette@.len(),
        forall|k: int| 0 <= k < palette@.len() ==> sq_dist(palette@[r as int], pixel) <= sq_dist(#[trigger] palette@[k], pixel),
        forall|k: int| 0 <= k < r ==> sq_dist(palette@[r as int], pixel) < sq_dist(#[trigger] palette@[k], pixel),
{
    let mut best: u32 = 0;
    let mut best_d: u32 = u32::MAX;
    let mut k: usize = 0;
    while k < palette.len()
        invariant
            k <= palette@.len() <= 16,
            best < palette@.len(),
            k == 0 ==> best_d == u32::MAX && best == 0,
            k > 0 ==> best < k && best_d == sq_dist(palette@[best as int], pixel),
            forall|j: int| 0 <= j < k ==> best_d <= sq_dist(#[trigger] palette@[j], pixel),
            forall|j: int| 0 <= j < best ==> best_d < sq_dist(#[trigger] palette@[j], pixel),
        decreases palette@.len() - k,
    {
        let d = sq_dist4(palette[k], pixel);
        if d < best_d {
            best_d = d;
            best = k as u32;
        }
        k += 1;
    }
    best
}

/// The 7-bit mode-6 value of each channel of `e` (its top seven bits).
fn raw7(e: [u8; 4]) -> (out: [u32; 4])
    ensures
        forall|c: int| 0 <= c < 4 ==> #[trigger] out[c] == e[c] / 2 && out[c] < 128,
{
    proof {
        lemma_bit_writes();
    }
    let mut out = [0u32; 4];
    let mut c: usize = 0;
    while c < 4
        invariant
            c <= 4,
            forall|j: int| 0 <= j < c ==> #[trigger] out[j] == e[j] / 2 && out[j] < 128,
        decreases 4 - c,
    {
        proof {
            lemma_bit_writes();
        }
        out[c] = (e[c] as u32) >> 1u32;
        c += 1;
    }
    out
}

/// The 8-bit endpoint a mode-6 decoder rebuilds from `raw` and p-bit `p`.
fn recon_ep(raw: [u32; 4], p: u32) -> (out: [u8; 4])
    requires
        forall|c: int| 0 <= c < 4 ==> raw[c] < 128,
        p <= 1,
    ensures
        forall|c: int| 0 <= c < 4 ==> #[trigger] out[c] == recon7(raw[c], p),
{
    proof {
        lemma_bit_writes();
    }
    let mut out = [0u8; 4];
    let mut c: usize = 0;
    while c < 4
        invariant
            c <= 4,
            p <= 1,
            forall|j: int| 0 <= j < 4 ==> raw[j] < 128,
            forall|j: int| 0 <= j < c ==> #[trigger] out[j] == recon7(raw[j], p),
        decreases 4 - c,
    {
        proof {
            lemma_bit_writes();
        }
        let v = (raw[c] << 1u32) | (p & 1);
        out[c] = (v & 0xff) as u8;
        c += 1;
    }
    out
}

/// The 16-entry mode-6 palette between endpoints `e0` and `e1`.
fn palette16(e0: [u8; 4], e1: [u8; 4]) -> (pal: [[u8; 4]; 16])
    ensures
        forall|k: int, c: int| 0 <= k < 16 && 0 <= c < 4 ==> #[trigger] pal[k][c] == interp(e0[c], e1[c], k as u32, 4),
{
    let mut pal = [[0u8; 4]; 16];
    let mut k: usize = 0;
    while k < 16
        invariant
            k <= 16,
            forall|j: int, c: int| 0 <= j < k && 0 <= c < 4 ==> #[trigger] pal[j][c] == interp(e0[c], e1[c], j as u32, 4),
        decreases 16 - k,
    {
        let mut slot = [0u8; 4];
        let mut c: usize = 0;
        while c < 4
            invariant
                c <= 4,
                k < 16,
                forall|j: int| 0 <= j < c ==> #[trigger] slot[j] == interp(e0[j], e1[j], k as u32, 4),
            decreases 4 - c,
        {
            slot[c] = interpolate(e0[c], e1[c], k as u32, 4);
            c += 1;
        }
        pal[k] = slot;
        k += 1;
    }
    pal
}

// ---- The mode-6 candidate as a function of the pixels --------------------------------

/// Pair `(a, b)` comes before pair `(i, j)` in the order the pairs are searched.
pub open spec fn pair_before(a: int, b: int, i: int, j: int) -> bool {
    a < i || (a == i && b < j)
}

/// Pixels `i < j` are the first pair, in search order, at the largest
/// distance, and that distance is not zero.
pub open spec fn first_far_pair(p: Seq<[u8; 4]>, i: int, j: int) -> bool {
    &&& 0 <= i < j < 16
    &&& sq_dist(p[i], p[j]) > 0
    &&& forall|a: int, b: int| 0 <= a < b < 16 ==> #[trigger] sq_dist(p[a], p[b]) <= sq_dist(p[i], p[j])
    &&& forall|a: int, b: int|
        0 <= a < b < 16 && pair_before(a, b, i, j) ==> #[trigger] sq_dist(p[a], p[b]) < sq_dist(p[i], p[j])
}

/// The endpoint pixels of the mode-6 candidate: the first pair furthest
/// apart, or pixel 0 twice when all the pixels are equal.
pub open spec fn far_pair(p: Seq<[u8; 4]>) -> (int, int) {
    if exists|i: int, j: int| first_far_pair(p, i, j) {
        choose|i: int, j: int| first_far_pair(p, i, j)
    } else {
        (0, 0)
    }
}

proof fn lemma_far_pair_unique(p: Seq<[u8; 4]>, i: int, j: int)
    requires
        first_far_pair(p, i, j),
    ensures
        far_pair(p) == (i, j),
{
    let (i2, j2) = choose|i2: int, j2: int| first_far_pair(p, i2, j2);
    assert(first_far_pair(p, i2, j2));
    assert(sq_dist(p[i2], p[j2]) <= sq_dist(p[i], p[j]));
    assert(sq_dist(p[i], p[j]) <= sq_dist(p[i2], p[j2]));
    if pair_before(i2, j2, i, j) {
        assert(sq_dist(p[i2], p[j2]) < sq_dist(p[i], p[j]));
    }
    if pair_before(i, j, i2, j2) {
        assert(sq_dist(p[i], p[j]) < sq_dist(p[i2], p[j2]));
    }
}

/// The first pair of pixels furthest apart (pixel 0 twice when all are equal).
fn furthest_pair(pixels_rgba: &[[u8; 4]; 16]) -> (r: (usize, usize))
    ensures
        r.0 < 16 && r.1 < 16,
        (r.0 as int, r.1 as int) == far_pair(pixels_rgba@),
{
    let ghost p = pixels_rgba@;
    let mut best_d: u32 = 0;
    let mut best_i: usize = 0;
    let mut best_j: usize = 0;
    let mut i: usize = 0;
    while i < 16
        invariant
            i <= 16,
            p == pixels_rgba@,
            best_d == 0 ==> best_i == 0 && best_j == 0,
            best_d > 0 ==> best_i < best_j < 16 && best_i < i && best_d == sq_dist(p[best_i as int], p[best_j as int]),
            forall|a: int, b: int| 0 <= a < b < 16 && a < i ==> #[trigger] sq_dist(p[a], p[b]) <= best_d,
            forall|a: int, b: int|
                0 <= a < b < 16 && a < i && pair_before(a, b, best_i as int, best_j as int) ==> #[trigger] sq_dist(
                    p[a],
                    p[b],
                ) < best_d,
        decreases 16 - i,
    {
        let mut j: usize = i + 1;
        while j < 16
            invariant
                i < 16,
                i + 1 <= j <= 16,
                p == pixels_rgba@,
                best_d == 0 ==> best_i == 0 && best_j == 0,
                best_d > 0 ==> best_i < best_j < 16 && pair_before(best_i as int, best_j as int, i as int, j as int)
                    && best_d == sq_dist(p[best_i as int], p[best_j as int]),
                forall|a: int, b: int|
                    0 <= a < b < 16 && pair_before(a, b, i as int, j as int) ==> #[trigger] sq_dist(p[a], p[b]) <= best_d,
                forall|a: int, b: int|
                    0 <= a < b < 16 && pair_before(a, b, i as int, j as int) && pair_before(
                        a,
                        b,
                        best_i as int,
                        best_j as int,
                    ) ==> #[trigger] sq_dist(p[a], p[b]) < best_d,
            decreases 16 - j,
        {
            let d = sq_dist4(pixels_rgba[i], pixels_rgba[j]);
            if d > best_d {
                best_d = d;
                best_i = i;
                best_j = j;
            }
            j += 1;
        }
        i += 1;
    }
    proof {
        if best_d > 0 {
            assert(first_far_pair(p, best_i as int, best_j as int));
            lemma_far_pair_unique(p, best_i as int, best_j as int);
        } else {
            assert forall|a: int, b: int| !first_far_pair(p, a, b) by {
                if 0 <= a < b < 16 {
                    assert(sq_dist(p[a], p[b]) <= 0);
                }
            }
        }
    }
    (best_i, best_j)
}

/// Entry `k` of the mode-6 candidate's palette: the endpoints are the far
/// pair's pixels cut to 7 bits with their majority p-bits.
pub open spec fn m6_entry(p: Seq<[u8; 4]>, k: int) -> [u8; 4] {
    let e0 = p[far_pair(p).0];
    let e1 = p[far_pair(p).1];
    let p0 = majority_p(e0);
    let p1 = majority_p(e1);
    [
        interp(recon7((e0[0] / 2) as u32, p0), recon7((e1[0] / 2) as u32, p1), k as u32, 4),
        interp(recon7((e0[1] / 2) as u32, p0), recon7((e1[1] / 2) as u32, p1), k as u32, 4),
        interp(recon7((e0[2] / 2) as u32, p0), recon7((e1[2] / 2) as u32, p1), k as u32, 4),
        interp(recon7((e0[3] / 2) as u32, p0), recon7((e1[3] / 2) as u32, p1), k as u32, 4),
    ]
}

/// The least squared distance from `x` to entries `0..n` of the mode-6
/// candidate's palette.
pub open spec fn m6_nearest(p: Seq<[u8; 4]>, x: [u8; 4], n: int) -> int
    decreases n,
{
    if n <= 1 {
        sq_dist(x, m6_entry(p, 0))
    } else {
        let prev = m6_nearest(p, x, n - 1);
        let d = sq_dist(x, m6_entry(p, n - 1));
        if d < prev {
            d
        } else {
            prev
        }
    }
}

/// The squared error of pixels `0..n` against their nearest mode-6 palette entries.
pub open spec fn m6_sse_upto(p: Seq<[u8; 4]>, n: int) -> int
    decreases n,
{
    if n <= 0 {
        0
    } else {
        m6_sse_upto(p, n - 1) + m6_nearest(p, p[n - 1], 16)
    }
}

/// The squared error of the mode-6 candidate: every pixel against its
/// nearest palette entry.
pub open spec fn mode6_sse(p: Seq<[u8; 4]>) -> int {
    m6_sse_upto(p, 16)
}

proof fn lemma_m6_nearest_bounds(p: Seq<[u8; 4]>, x: [u8; 4], n: int)
    requires
        1 <= n <= 16,
    ensures
        forall|k: int| 0 <= k < n ==> m6_nearest(p, x, n) <= #[trigger] sq_dist(x, m6_entry(p, k)),
        exists|k: int| 0 <= k < n && m6_nearest(p, x, n) == #[trigger] sq_dist(x, m6_entry(p, k)),
    decreases n,
{
    if n == 1 {
        assert(m6_nearest(p, x, 1) == sq_dist(x, m6_entry(p, 0)));
    } else {
        lemma_m6_nearest_bounds(p, x, n - 1);
        let k0 = choose|k: int| 0 <= k < n - 1 && m6_nearest(p, x, n - 1) == #[trigger] sq_dist(x, m6_entry(p, k));
        if sq_dist(x, m6_entry(p, n - 1)) < m6_nearest(p, x, n - 1) {
            assert(m6_nearest(p, x, n) == sq_dist(x, m6_entry(p, n - 1)));
        } else {
            assert(m6_nearest(p, x, n) == sq_dist(x, m6_entry(p, k0)));
        }
    }
}

proof fn lemma_m6_nearest_is(p: Seq<[u8; 4]>, x: [u8; 4], r: int)
    requires
        0 <= r < 16,
        forall|k: int| 0 <= k < 16 ==> sq_dist(x, m6_entry(p, r)) <= #[trigger] sq_dist(x, m6_entry(p, k)),
    ensures
        m6_nearest(p, x, 16) == sq_dist(x, m6_entry(p, r)),
{
    lemma_m6_nearest_bounds(p, x, 16);
    let k0 = choose|k: int| 0 <= k < 16 && m6_nearest(p, x, 16) == #[trigger] sq_dist(x, m6_entry(p, k));
    assert(sq_dist(x, m6_entry(p, r)) <= sq_dist(x, m6_entry(p, k0)));
    assert(m6_nearest(p, x, 16) <= sq_dist(x, m6_entry(p, r)));
}

proof fn lemma_m6_sse(pixels: Seq<[u8; 4]>, f: spec_fn(int) -> [u8; 4], n: int)
    requires
        0 <= n <= 16,
        forall|px: int| 0 <= px < n ==> #[trigger] sq_dist(pixels[px], f(px)) == m6_nearest(pixels, pixels[px], 16),
    ensures
        sse_upto(pixels, f, n) == m6_sse_upto(pixels, n),
    decreases n,
{
    if n > 0 {
        lemma_m6_sse(pixels, f, n - 1);
        assert(sq_dist(pixels[n - 1], f(n - 1)) == m6_nearest(pixels, pixels[n - 1], 16));
    }
}

/// The 2- and 3-bit weights run both ways too: the last index less `k`
/// of the pair `(a, b)` is index `k` of `(b, a)`.
proof fn lemma_interp_flip_small(a: u8, b: u8, k: u32, bits: u32)
    requires
        bits == 2 || bits == 3,
        k < palette_len(bits),
    ensures
        interp(a, b, (palette_len(bits) - 1 - k) as u32, bits) == interp(b, a, k, bits),
{
    let w = weight(bits, k);
    let w2 = weight(bits, (palette_len(bits) - 1 - k) as u32);
    assert(w2 == 64 - w) by {
        if bits == 2 {
            if k == 0 {
            } else if k == 1 {
            } else if k == 2 {
            } else {
            }
        } else {
            if k == 0 {
            } else if k == 1 {
            } else if k == 2 {
            } else if k == 3 {
            } else if k == 4 {
            } else if k == 5 {
            } else if k == 6 {
            } else {
            }
        }
    }
    assert(w <= 64);
}

/// The 4-bit weights run both ways: index `15 - k` of the pair `(a, b)` is
/// index `k` of `(b, a)`.
proof fn lemma_interp_flip(a: u8, b: u8, k: u32)
    requires
        k < 16,
    ensures
        interp(a, b, (15 - k) as u32, 4) == interp(b, a, k, 4),
{
    let w = weight(4, k);
    let w2 = weight(4, (15 - k) as u32);
    assert(w2 == 64 - w) by {
        if k == 0 {
        } else if k == 1 {
        } else if k == 2 {
        } else if k == 3 {
        } else if k == 4 {
        } else if k == 5 {
        } else if k == 6 {
        } else if k == 7 {
        } else if k == 8 {
        } else if k == 9 {
        } else if k == 10 {
        } else if k == 11 {
        } else if k == 12 {
        } else if k == 13 {
        } else if k == 14 {
        } else {
        }
    }
    assert((64 - w2) * a + w2 * b == (64 - w) * b + w * a) by (nonlinear_arith)
        requires
            w2 == 64 - w,
    ;
}

/// Encode one 4x4 RGBA block as a mode-6 candidate: the two pixels furthest
/// apart as endpoints, each with the p-bit most of its channels agree
/// with, every pixel on its nearest palette entry, the endpoints swapped
/// when pixel 0's index would not fit its three bits. Returns the block
/// and its squared error, which is the error of what the block decodes to.
fn encode_bc7_mode6_block(pixels_rgba: &[[u8; 4]; 16]) -> (r: ([u8; 16], u64))
    ensures
        bc7_mode(r.0@) == 6,
        r.1 == block_sse(pixels_rgba@, r.0@),
        r.1 == mode6_sse(pixels_rgba@),
{
    let ghost p = pixels_rgba@;
    let (best_i, best_j) = furthest_pair(pixels_rgba);
    let e0 = pixels_rgba[best_i];
    let e1 = pixels_rgba[best_j];
    let mut p0 = pick_p_for_endpoint(e0);
    let mut p1 = pick_p_for_endpoint(e1);
    let mut raw0 = raw7(e0);
    let mut raw1 = raw7(e1);
    let ghost (raw0_0, raw1_0, p0_0, p1_0) = (raw0, raw1, p0, p1);
    let palette = palette16(recon_ep(raw0, p0), recon_ep(raw1, p1));
    assert forall|k: int, c: int| 0 <= k < 16 && 0 <= c < 4 implies #[trigger] palette[k][c] == m6_entry(p, k)[c] by {
        assert(raw0[c] == e0[c] / 2 && raw1[c] == e1[c] / 2);
    }
    let mut indices = [0u32; 16];
    let mut k: usize = 0;
    while k < 16
        invariant
            k <= 16,
            p == pixels_rgba@,
            forall|kk: int, c: int| 0 <= kk < 16 && 0 <= c < 4 ==> #[trigger] palette[kk][c] == m6_entry(p, kk)[c],
            forall|j: int|
                0 <= j < k ==> #[trigger] indices[j] < 16 && sq_dist(p[j], m6_entry(p, indices[j] as int)) == m6_nearest(
                    p,
                    p[j],
                    16,
                ),
        decreases 16 - k,
    {
        let r = nearest_index_rgba(&palette, pixels_rgba[k]);
        proof {
            let x = p[k as int];
            assert forall|kk: int| 0 <= kk < 16 implies sq_dist(x, m6_entry(p, r as int)) <= #[trigger] sq_dist(
                x,
                m6_entry(p, kk),
            ) by {
                assert(sq_dist(palette@[r as int], x) <= sq_dist(palette@[kk], x));
                lemma_sq_dist_sym(palette@[r as int], x);
                lemma_sq_dist_sym(palette@[kk], x);
            }
            lemma_m6_nearest_is(p, x, r as int);
        }
        indices[k] = r;
        k += 1;
    }
    let ghost idx0 = indices;
    let swapped = indices[0] >= 8;
    if swapped {
        let t = raw0;
        raw0 = raw1;
        raw1 = t;
        let tp = p0;
        p0 = p1;
        p1 = tp;
        let mut k: usize = 0;
        while k < 16
            invariant
                k <= 16,
                forall|j: int| 0 <= j < 16 ==> #[trigger] idx0[j] < 16,
                forall|j: int|
                    0 <= j < 16 ==> #[trigger] indices[j] == if j < k {
                        (15 - idx0[j]) as u32
                    } else {
                        idx0[j]
                    },
            decreases 16 - k,
        {
            indices[k] = 15 - indices[k];
            k += 1;
        }
    }
    // The error against the palette the decoder rebuilds after the swap.
    let final_palette = palette16(recon_ep(raw0, p0), recon_ep(raw1, p1));
    proof {
        assert forall|px: int, c: int| 0 <= px < 16 && 0 <= c < 4 implies #[trigger] final_palette[indices[px] as int][c]
            == m6_entry(p, idx0[px] as int)[c] by {
            if swapped {
                lemma_interp_flip(recon7(raw1_0[c], p1_0), recon7(raw0_0[c], p0_0), idx0[px]);
            }
        }
    }
    let mut sse: u64 = 0;
    let mut k: usize = 0;
    while k < 16
        invariant
            k <= 16,
            forall|j: int| 0 <= j < 16 ==> #[trigger] indices[j] < 16,
            sse == sse_upto(pixels_rgba@, |px: int| final_palette[indices[px] as int], k as int),
            sse <= 260100 * k,
        decreases 16 - k,
    {
        let d = sq_dist4(pixels_rgba[k], final_palette[indices[k] as usize]);
        sse += d as u64;
        k += 1;
    }
    let block = pack_mode6(raw0, raw1, p0, p1, indices);
    proof {
        let f = |px: int| final_palette[indices[px] as int];
        let g = |px: int| bc7_texel(block@, px);
        assert forall|px: int, c: int| 0 <= px < 16 && 0 <= c < 4 implies #[trigger] f(px)[c] == g(px)[c] by {
            assert(bc7_texel(block@, px) == mode6_texel(raw0, raw1, p0, p1, indices[px]));
        }
        lemma_sse_same(pixels_rgba@, f, g, 16);
        assert forall|px: int| 0 <= px < 16 implies #[trigger] sq_dist(p[px], f(px)) == m6_nearest(p, p[px], 16) by {
            assert(f(px)[0] == m6_entry(p, idx0[px] as int)[0]);
            assert(f(px)[1] == m6_entry(p, idx0[px] as int)[1]);
            assert(f(px)[2] == m6_entry(p, idx0[px] as int)[2]);
            assert(f(px)[3] == m6_entry(p, idx0[px] as int)[3]);
            assert(sq_dist(p[px], m6_entry(p, idx0[px] as int)) == m6_nearest(p, p[px], 16));
        }
        lemma_m6_sse(p, f, 16);
    }
    (block, sse)
}

// ---- Modes 1, 3 and 7 --------------------------------------------------------------

/// `v` fits in `n` bits.
pub open spec fn fits(v: u32, n: u32) -> bool {
    (v as u64) < (1u64 << (n as u64))
}

/// The 8-bit value a decoder rebuilds from the `bits`-bit `raw` with p-bit
/// `p` appended.
fn recon8(raw: u32, bits: u32, p: u32) -> (r: u8)
    requires
        1 <= bits <= 7,
    ensures
        r == expand8(raw, bits, Some(p)),
{
    let total = bits + 1;
    let v = (raw << 1u32) | (p & 1);
    if total >= 8 {
        return v as u8;
    }
    let shift = 8 - total;
    let high = (v << shift) as u8;
    high | (high >> (total as u8))
}

fn abs_diff_i32(a: i32, b: i32) -> (r: i32)
    requires
        -0x1000 <= a <= 0x1000,
        -0x1000 <= b <= 0x1000,
    ensures
        r == if a >= b {
            a - b
        } else {
            b - a
        },
{
    if a >= b {
        a - b
    } else {
        b - a
    }
}

/// Quantize an 8-bit channel to `bits` bits with the fixed p-bit `p`:
/// starting from the top `bits` bits of `value`, the raw value among it and
/// its neighbours at distance 1 and 2 whose rebuilt byte is nearest to
/// `value` (the first of equals, trying it, then -1, +1, -2, +2). Returns
/// the raw value and the rebuilt byte.
fn quantize_with_pbit(value: u8, bits: u32, p: u32) -> (r: (u32, u8))
    requires
        5 <= bits <= 7,
    ensures
        fits(r.0, bits),
        r.1 == expand8(r.0, bits, Some(p)),
        r.0 == qwp_raw(value, bits, p),
        raw_candidate(value, bits, r.0 as int),
        forall|c: int|
            raw_candidate(value, bits, c) ==> abs_int(value - r.1) <= abs_int(value - #[trigger] expand8(c as u32, bits, Some(p))),
{
    proof {
        lemma_bit_writes();
        lemma_pow2_shifts();
    }
    let max_raw = (1u32 << bits) - 1;
    let approx = (value as u32) >> (8 - bits);
    assert(approx <= max_raw);
    let mut best = (approx, recon8(approx, bits, p));
    let mut best_err = abs_diff_i32(value as i32, best.1 as i32);
    let deltas: [i32; 4] = [-1, 1, -2, 2];
    let mut k: usize = 0;
    while k < 4
        invariant
            k <= 4,
            5 <= bits <= 7,
            max_raw == (1u32 << bits) - 1,
            max_raw == 31 || max_raw == 63 || max_raw == 127,
            approx == (value as u32) >> (8 - bits),
            approx <= max_raw,
            deltas@ == seq![-1i32, 1i32, -2i32, 2i32],
            best.0 <= max_raw,
            best.1 == expand8(best.0, bits, Some(p)),
            best.0 == qwp_upto(value, bits, p, (k + 1) as nat),
            raw_candidate(value, bits, best.0 as int),
            best_err == abs_int(value - best.1),
            best_err <= abs_int(value - expand8(approx, bits, Some(p))),
            forall|j: int|
                0 <= j < k && 0 <= approx + deltas@[j] <= max_raw ==> best_err <= abs_int(
                    value - #[trigger] expand8((approx + deltas@[j]) as u32, bits, Some(p)),
                ),
        decreases 4 - k,
    {
        let r = approx as i32 + deltas[k];
        proof {
            assert(qwp_try(value, bits, k + 1) == approx + deltas@[k as int]);
        }
        if r < 0 || r > max_raw as i32 {
            k += 1;
            continue;
        }
        let r = r as u32;
        let rec = recon8(r, bits, p);
        let err = abs_diff_i32(value as i32, rec as i32);
        if err < best_err {
            best_err = err;
            best = (r, rec);
        }
        k += 1;
    }
    proof {
        lemma_pow2_shifts();
        assert(fits(best.0, bits));
        assert forall|c: int| raw_candidate(value, bits, c) implies abs_int(value - best.1) <= abs_int(
            value - #[trigger] expand8(c as u32, bits, Some(p)),
        ) by {
            assert((value as u32) >> ((8 - bits) as u32) == approx);
            assert(c < (1u32 << bits) ==> c <= max_raw);
            let j: int = if c == approx - 1 {
                0
            } else if c == approx + 1 {
                1
            } else if c == approx - 2 {
                2
            } else {
                3
            };
            if c != approx {
                assert(c == approx + deltas@[j]);
                assert(best_err <= abs_int(value - expand8((approx + deltas@[j]) as u32, bits, Some(p))));
            }
        }
    }
    best
}

/// The `k`-th raw value (k < 5) the quantizer tries for `value` at `bits`
/// bits: the top `bits` bits of the value, then one less, one more, two
/// less and two more.
pub open spec fn qwp_try(value: u8, bits: u32, k: int) -> int {
    let approx = ((value as u32) >> ((8 - bits) as u32)) as int;
    if k == 0 {
        approx
    } else if k == 1 {
        approx - 1
    } else if k == 2 {
        approx + 1
    } else if k == 3 {
        approx - 2
    } else {
        approx + 2
    }
}

/// The quantizer's choice after trying the first `k` (at least one) raw
/// values: a later one replaces it only when in range and strictly nearer.
pub open spec fn qwp_upto(value: u8, bits: u32, p: u32, k: nat) -> u32
    decreases k,
{
    if k <= 1 {
        qwp_try(value, bits, 0) as u32
    } else {
        let prev = qwp_upto(value, bits, p, (k - 1) as nat);
        let r = qwp_try(value, bits, k - 1);
        if 0 <= r < (1u32 << bits) && abs_int(value - expand8(r as u32, bits, Some(p))) < abs_int(
            value - expand8(prev, bits, Some(p)),
        ) {
            r as u32
        } else {
            prev
        }
    }
}

/// The raw value [`quantize_with_pbit`] picks for `value` at `bits` bits
/// with p-bit `p`.
pub open spec fn qwp_raw(value: u8, bits: u32, p: u32) -> u32 {
    qwp_upto(value, bits, p, 5)
}

/// `c` is a raw value the quantizer tries for `value` at `bits` bits: in
/// range, and within 2 of the value's top `bits` bits.
pub open spec fn raw_candidate(value: u8, bits: u32, c: int) -> bool {
    let approx = ((value as u32) >> ((8 - bits) as u32)) as int;
    0 <= c < (1u32 << bits) && approx - 2 <= c <= approx + 2
}

/// The two endpoints of one subset as packed: raw values per endpoint and
/// channel, a p-bit per endpoint, and the bytes a decoder rebuilds.
#[derive(Clone, Copy)]
struct SubsetEnc {
    raw: [[u32; 4]; 2],
    p: [u32; 2],
    rec: [[u8; 4]; 2],
}

/// `se` holds `cb`-bit colour values and `ab`-bit alpha values (alpha 255
/// and raw 0 when `ab` is 0), p-bits of one bit (the same for both
/// endpoints when `shared`), and their rebuilt bytes.
spec fn subset_ok(se: SubsetEnc, cb: u32, ab: u32, shared: bool) -> bool {
    &&& forall|ep: int| 0 <= ep < 2 ==> #[trigger] se.p[ep] <= 1
    &&& forall|ep: int, c: int|
        0 <= ep < 2 && 0 <= c < 3 ==> fits(#[trigger] se.raw[ep][c], cb) && se.rec[ep][c] == expand8(
            se.raw[ep][c],
            cb,
            Some(se.p[ep]),
        )
    &&& forall|ep: int|
        0 <= ep < 2 ==> if ab == 0 {
            #[trigger] se.raw[ep][3] == 0 && se.rec[ep][3] == 255
        } else {
            fits(#[trigger] se.raw[ep][3], ab) && se.rec[ep][3] == expand8(se.raw[ep][3], ab, Some(se.p[ep]))
        }
    &&& shared ==> se.p[0] == se.p[1]
}

/// The p-bits of the `k`-th choice the subset encoder tries: all four
/// pairs with one p-bit per endpoint, else both 0 then both 1.
pub open spec fn pbit_choice(per_endpoint: bool, k: int) -> (u32, u32) {
    if per_endpoint {
        if k == 0 {
            (0, 0)
        } else if k == 1 {
            (0, 1)
        } else if k == 2 {
            (1, 0)
        } else {
            (1, 1)
        }
    } else if k == 0 {
        (0, 0)
    } else {
        (1, 1)
    }
}

/// The raw value of channel `c` of an endpoint of value `v` with p-bit `p`
/// (alpha raw 0 when there are no alpha bits).
pub open spec fn subset_raw(v: u8, c: int, cb: u32, ab: u32, p: u32) -> u32 {
    if c < 3 {
        qwp_raw(v, cb, p)
    } else if ab == 0 {
        0
    } else {
        qwp_raw(v, ab, p)
    }
}

/// The rebuilt byte of channel `c` of an endpoint of value `v` with p-bit
/// `p` (alpha 255 when there are no alpha bits).
pub open spec fn subset_rec(v: u8, c: int, cb: u32, ab: u32, p: u32) -> u8 {
    if c < 3 {
        expand8(qwp_raw(v, cb, p), cb, Some(p))
    } else if ab == 0 {
        255
    } else {
        expand8(qwp_raw(v, ab, p), ab, Some(p))
    }
}

/// Squared error of both endpoints over the first `n` channels with
/// p-bits `p0`, `p1`.
pub open spec fn pbit_err_upto(e0: [u8; 4], e1: [u8; 4], cb: u32, ab: u32, p0: u32, p1: u32, n: int) -> int
    decreases n,
{
    if n <= 0 {
        0
    } else {
        let c = n - 1;
        let d0 = e0[c] - subset_rec(e0[c], c, cb, ab, p0);
        let d1 = e1[c] - subset_rec(e1[c], c, cb, ab, p1);
        pbit_err_upto(e0, e1, cb, ab, p0, p1, n - 1) + d0 * d0 + d1 * d1
    }
}

/// Squared error of the rebuilt endpoints under the `k`-th p-bit choice.
pub open spec fn choice_err(e0: [u8; 4], e1: [u8; 4], cb: u32, ab: u32, per_endpoint: bool, k: int) -> int {
    pbit_err_upto(e0, e1, cb, ab, pbit_choice(per_endpoint, k).0, pbit_choice(per_endpoint, k).1, 4)
}

/// The choice kept after trying the first `k` (at least one): a later one
/// replaces it only with strictly less error.
pub open spec fn choice_upto(e0: [u8; 4], e1: [u8; 4], cb: u32, ab: u32, per_endpoint: bool, k: nat) -> int
    decreases k,
{
    if k <= 1 {
        0
    } else {
        let prev = choice_upto(e0, e1, cb, ab, per_endpoint, (k - 1) as nat);
        if choice_err(e0, e1, cb, ab, per_endpoint, k - 1) < choice_err(e0, e1, cb, ab, per_endpoint, prev) {
            k - 1
        } else {
            prev
        }
    }
}

/// The p-bit choice the subset encoder keeps.
pub open spec fn subset_choice(e0: [u8; 4], e1: [u8; 4], cb: u32, ab: u32, per_endpoint: bool) -> int {
    choice_upto(e0, e1, cb, ab, per_endpoint, if per_endpoint { 4 } else { 2 })
}

/// `se` is the encoding of the endpoints `e0`, `e1` under p-bit choice `k`.
spec fn subset_is(se: SubsetEnc, e0: [u8; 4], e1: [u8; 4], cb: u32, ab: u32, per_endpoint: bool, k: int) -> bool {
    let (p0, p1) = pbit_choice(per_endpoint, k);
    &&& se.p[0] == p0
    &&& se.p[1] == p1
    &&& forall|c: int|
        0 <= c < 4 ==> #[trigger] se.raw[0][c] == subset_raw(e0[c], c, cb, ab, p0) && se.raw[1][c] == subset_raw(
            e1[c],
            c,
            cb,
            ab,
            p1,
        ) && se.rec[0][c] == subset_rec(e0[c], c, cb, ab, p0) && se.rec[1][c] == subset_rec(e1[c], c, cb, ab, p1)
}

/// Quantize the endpoint pair `e0`, `e1` to `colour_bits` colour bits and
/// `alpha_bits` alpha bits (0: alpha is 255), trying every p-bit choice
/// (one per endpoint, or one shared by both) and keeping the first with the
/// least squared error of the rebuilt endpoints.
#[verifier::spinoff_prover]
#[verifier::rlimit(80)]
fn encode_subset(e0: [u8; 4], e1: [u8; 4], colour_bits: u32, alpha_bits: u32, pbit_per_endpoint: bool) -> (r: SubsetEnc)
    requires
        5 <= colour_bits <= 7,
        alpha_bits == 0 || alpha_bits == 5,
    ensures
        subset_ok(r, colour_bits, alpha_bits, !pbit_per_endpoint),
        subset_is(
            r,
            e0,
            e1,
            colour_bits,
            alpha_bits,
            pbit_per_endpoint,
            subset_choice(e0, e1, colour_bits, alpha_bits, pbit_per_endpoint),
        ),
{
    let mut best = SubsetEnc { raw: [[0; 4]; 2], p: [0; 2], rec: [[0; 4]; 2] };
    let mut best_err: u64 = u64::MAX;
    let choices: [(u32, u32); 4] = if pbit_per_endpoint {
        [(0, 0), (0, 1), (1, 0), (1, 1)]
    } else {
        [(0, 0), (1, 1), (0, 0), (0, 0)]
    };
    let n: usize = if pbit_per_endpoint {
        4
    } else {
        2
    };
    let mut k: usize = 0;
    while k < n
        invariant
            k <= n,
            n == if pbit_per_endpoint {
                4usize
            } else {
                2usize
            },
            5 <= colour_bits <= 7,
            alpha_bits == 0 || alpha_bits == 5,
            forall|j: int| 0 <= j < 4 ==> #[trigger] choices[j].0 <= 1 && choices[j].1 <= 1,
            !pbit_per_endpoint ==> forall|j: int| 0 <= j < 2 ==> #[trigger] choices[j].0 == choices[j].1,
            k == 0 ==> best_err == u64::MAX,
            k > 0 ==> best_err <= 520200 && subset_ok(best, colour_bits, alpha_bits, !pbit_per_endpoint),
            forall|j: int| 0 <= j < n ==> #[trigger] choices[j] == pbit_choice(pbit_per_endpoint, j),
            k > 0 ==> subset_is(
                best,
                e0,
                e1,
                colour_bits,
                alpha_bits,
                pbit_per_endpoint,
                choice_upto(e0, e1, colour_bits, alpha_bits, pbit_per_endpoint, k as nat),
            ),
            k > 0 ==> best_err == choice_err(
                e0,
                e1,
                colour_bits,
                alpha_bits,
                pbit_per_endpoint,
                choice_upto(e0, e1, colour_bits, alpha_bits, pbit_per_endpoint, k as nat),
            ),
            k > 0 ==> 0 <= choice_upto(e0, e1, colour_bits, alpha_bits, pbit_per_endpoint, k as nat) < k,
        decreases n - k,
    {
        let (p0, p1) = choices[k];
        let mut raw = [[0u32; 4]; 2];
        let mut rec = [[0u8; 4]; 2];
        let mut c: usize = 0;
        while c < 3
            invariant
                c <= 3,
                5 <= colour_bits <= 7,
                p0 <= 1 && p1 <= 1,
                forall|j: int| 0 <= j < c ==> fits(#[trigger] raw[0][j], colour_bits) && rec[0][j] == expand8(raw[0][j], colour_bits, Some(p0)),
                forall|j: int| 0 <= j < c ==> fits(#[trigger] raw[1][j], colour_bits) && rec[1][j] == expand8(raw[1][j], colour_bits, Some(p1)),
                forall|j: int| 0 <= j < c ==> #[trigger] raw[0][j] == subset_raw(e0[j], j, colour_bits, alpha_bits, p0) && raw[1][j] == subset_raw(e1[j], j, colour_bits, alpha_bits, p1),
            decreases 3 - c,
        {
            let (r0, q0) = quantize_with_pbit(e0[c], colour_bits, p0);
            let (r1, q1) = quantize_with_pbit(e1[c], colour_bits, p1);
            raw[0][c] = r0;
            raw[1][c] = r1;
            rec[0][c] = q0;
            rec[1][c] = q1;
            c += 1;
        }
        if alpha_bits == 0 {
            raw[0][3] = 0;
            raw[1][3] = 0;
            rec[0][3] = 255;
            rec[1][3] = 255;
        } else {
            let (ra0, qa0) = quantize_with_pbit(e0[3], alpha_bits, p0);
            let (ra1, qa1) = quantize_with_pbit(e1[3], alpha_bits, p1);
            raw[0][3] = ra0;
            raw[1][3] = ra1;
            rec[0][3] = qa0;
            rec[1][3] = qa1;
        }
        let mut err: u64 = 0;
        let mut c: usize = 0;
        proof {
            assert forall|j: int| 0 <= j < 4 implies #[trigger] raw[0][j] == subset_raw(e0[j], j, colour_bits, alpha_bits, p0)
                && raw[1][j] == subset_raw(e1[j], j, colour_bits, alpha_bits, p1) by {
                if j < 3 {
                    assert(raw[0][j] == subset_raw(e0[j], j, colour_bits, alpha_bits, p0));
                }
            }
            assert forall|j: int| 0 <= j < 4 implies #[trigger] rec[0][j] == subset_rec(e0[j], j, colour_bits, alpha_bits, p0)
                && rec[1][j] == subset_rec(e1[j], j, colour_bits, alpha_bits, p1) by {
                if j < 3 {
                    assert(raw[0][j] == subset_raw(e0[j], j, colour_bits, alpha_bits, p0));
                    assert(raw[1][j] == subset_raw(e1[j], j, colour_bits, alpha_bits, p1));
                    assert(rec[0][j] == expand8(raw[0][j], colour_bits, Some(p0)));
                    assert(rec[1][j] == expand8(raw[1][j], colour_bits, Some(p1)));
                }
            }
        }
        while c < 4
            invariant
                c <= 4,
                err <= 130050 * c,
                err == pbit_err_upto(e0, e1, colour_bits, alpha_bits, p0, p1, c as int),
                forall|j: int| 0 <= j < 4 ==> #[trigger] rec[0][j] == subset_rec(e0[j], j, colour_bits, alpha_bits, p0)
                    && rec[1][j] == subset_rec(e1[j], j, colour_bits, alpha_bits, p1),
                forall|j: int| 0 <= j < 4 ==> #[trigger] raw[0][j] == subset_raw(e0[j], j, colour_bits, alpha_bits, p0)
                    && raw[1][j] == subset_raw(e1[j], j, colour_bits, alpha_bits, p1),
            decreases 4 - c,
        {
            let d0 = e0[c] as i32 - rec[0][c] as i32;
            let d1 = e1[c] as i32 - rec[1][c] as i32;
            assert(0 <= d0 * d0 <= 65025 && 0 <= d1 * d1 <= 65025) by (nonlinear_arith)
                requires
                    -255 <= d0 <= 255,
                    -255 <= d1 <= 255,
            ;
            err += (d0 * d0) as u64;
            err += (d1 * d1) as u64;
            c += 1;
        }
        proof {
            assert((p0, p1) == pbit_choice(pbit_per_endpoint, k as int));
            assert(err == choice_err(e0, e1, colour_bits, alpha_bits, pbit_per_endpoint, k as int));
        }
        if err < best_err {
            best_err = err;
            best = SubsetEnc { raw, p: [p0, p1], rec };
            proof {
                assert forall|c: int| 0 <= c < 4 implies #[trigger] best.raw[0][c] == subset_raw(e0[c], c, colour_bits, alpha_bits, p0)
                    && best.raw[1][c] == subset_raw(e1[c], c, colour_bits, alpha_bits, p1) && best.rec[0][c] == subset_rec(
                    e0[c],
                    c,
                    colour_bits,
                    alpha_bits,
                    p0,
                ) && best.rec[1][c] == subset_rec(e1[c], c, colour_bits, alpha_bits, p1) by {
                    assert(raw[0][c] == subset_raw(e0[c], c, colour_bits, alpha_bits, p0));
                    assert(rec[0][c] == subset_rec(e0[c], c, colour_bits, alpha_bits, p0));
                }
            }
        }
        k += 1;
    }
    best
}

/// Pixels `i ≤ j` of the subset `m` are the pair the endpoint search
/// picks: the first pair in search order at the greatest distance (`i == j`
/// only for a one-pixel subset).
pub open spec fn subset_far_pair(p: Seq<[u8; 4]>, m: spec_fn(int) -> bool, i: int, j: int) -> bool {
    &&& 0 <= i <= j < 16 && m(i) && m(j)
    &&& i == j ==> forall|a: int| 0 <= a < 16 && #[trigger] m(a) ==> a == i
    &&& forall|a: int, b: int|
        0 <= a < b < 16 && #[trigger] m(a) && #[trigger] m(b) && pair_before(a, b, i, j) ==> sq_dist(p[a], p[b])
            < sq_dist(p[i], p[j])
    &&& forall|a: int, b: int|
        0 <= a < 16 && 0 <= b < 16 && #[trigger] m(a) && #[trigger] m(b) ==> sq_dist(p[a], p[b]) <= sq_dist(p[i], p[j])
}

/// The endpoints the search picks for the subset `m` of the pixels `p`:
/// its furthest pair, or black twice for an empty subset.
pub open spec fn furthest_spec(p: Seq<[u8; 4]>, m: spec_fn(int) -> bool) -> ([u8; 4], [u8; 4]) {
    if exists|i: int, j: int| subset_far_pair(p, m, i, j) {
        let (i, j) = choose|i: int, j: int| subset_far_pair(p, m, i, j);
        (p[i], p[j])
    } else {
        ([0u8, 0u8, 0u8, 0u8], [0u8, 0u8, 0u8, 0u8])
    }
}

/// At most one pair is the furthest pair.
proof fn lemma_furthest_pair_unique(p: Seq<[u8; 4]>, m: spec_fn(int) -> bool, i: int, j: int, i2: int, j2: int)
    requires
        subset_far_pair(p, m, i, j),
        subset_far_pair(p, m, i2, j2),
    ensures
        i == i2 && j == j2,
{
    if i == j {
        assert(m(i2) && m(j2));
    } else if i2 == j2 {
        assert(m(i) && m(j));
    } else if pair_before(i, j, i2, j2) {
        assert(m(i) && m(j));
        assert(sq_dist(p[i], p[j]) < sq_dist(p[i2], p[j2]));
        assert(sq_dist(p[i2], p[j2]) <= sq_dist(p[i], p[j]));
    } else if pair_before(i2, j2, i, j) {
        assert(m(i2) && m(j2));
        assert(sq_dist(p[i2], p[j2]) < sq_dist(p[i], p[j]));
        assert(sq_dist(p[i], p[j]) <= sq_dist(p[i2], p[j2]));
    }
}

/// What [`furthest_in_subset`] states pins its result to [`furthest_spec`].
proof fn lemma_furthest_is_spec(pixels: [[u8; 4]; 16], pixel_subset: [u8; 16], s: u8, r: ([u8; 4], [u8; 4]))
    requires
        (forall|i: int| 0 <= i < 16 ==> #[trigger] pixel_subset[i] != s) ==> forall|c: int|
            0 <= c < 4 ==> #[trigger] r.0[c] == 0 && r.1[c] == 0,
        (exists|i: int| 0 <= i < 16 && #[trigger] pixel_subset[i] == s) ==> exists|i: int, j: int|
            0 <= i <= j < 16 && pixel_subset[i] == s && pixel_subset[j] == s && r == (pixels[i], pixels[j]) && (i == j
                ==> forall|a: int| 0 <= a < 16 && pixel_subset[a] == s ==> a == i) && forall|a: int, b: int|
                0 <= a < b < 16 && pixel_subset[a] == s && pixel_subset[b] == s && pair_before(a, b, i, j) ==> sq_dist(
                    pixels[a],
                    pixels[b],
                ) < sq_dist(pixels[i], pixels[j]),
        forall|a: int, b: int|
            0 <= a < 16 && 0 <= b < 16 && pixel_subset[a] == s && pixel_subset[b] == s ==> #[trigger] sq_dist(
                pixels[a],
                pixels[b],
            ) <= sq_dist(r.0, r.1),
    ensures
        r == furthest_spec(pixels@, |j: int| 0 <= j < 16 && pixel_subset[j] == s),
{
    let m = |j: int| 0 <= j < 16 && pixel_subset[j] == s;
    let p = pixels@;
    if exists|i: int| 0 <= i < 16 && #[trigger] pixel_subset[i] == s {
        let (i, j) = choose|i: int, j: int|
            0 <= i <= j < 16 && pixel_subset[i] == s && pixel_subset[j] == s && r == (pixels[i], pixels[j]) && (i == j
                ==> forall|a: int| 0 <= a < 16 && pixel_subset[a] == s ==> a == i) && forall|a: int, b: int|
                0 <= a < b < 16 && pixel_subset[a] == s && pixel_subset[b] == s && pair_before(a, b, i, j) ==> sq_dist(
                    pixels[a],
                    pixels[b],
                ) < sq_dist(pixels[i], pixels[j]);
        assert(subset_far_pair(p, m, i, j)) by {
            assert forall|a: int, b: int|
                0 <= a < 16 && 0 <= b < 16 && #[trigger] m(a) && #[trigger] m(b) implies sq_dist(p[a], p[b]) <= sq_dist(
                p[i],
                p[j],
            ) by {
                assert(sq_dist(pixels[a], pixels[b]) <= sq_dist(r.0, r.1));
            }
        }
        let (i2, j2) = choose|i: int, j: int| subset_far_pair(p, m, i, j);
        lemma_furthest_pair_unique(p, m, i, j, i2, j2);
    } else {
        assert(forall|i: int| 0 <= i < 16 ==> #[trigger] pixel_subset[i] != s);
        assert(!exists|i: int, j: int| subset_far_pair(p, m, i, j));
        assert(r.0 =~= [0u8, 0u8, 0u8, 0u8]);
        assert(r.1 =~= [0u8, 0u8, 0u8, 0u8]);
    }
}

/// The two endpoints furthest apart among the pixels of subset `s` (the
/// first such pair); the single pixel twice for a one-pixel subset, and
/// black for an empty one.
fn furthest_in_subset(pixels: &[[u8; 4]; 16], pixel_subset: &[u8; 16], s: u8) -> (r: ([u8; 4], [u8; 4]))
    ensures
        (forall|i: int| 0 <= i < 16 ==> #[trigger] pixel_subset[i] != s) ==> forall|c: int|
            0 <= c < 4 ==> #[trigger] r.0[c] == 0 && r.1[c] == 0,
        (exists|i: int| 0 <= i < 16 && #[trigger] pixel_subset[i] == s) ==> exists|i: int, j: int|
            0 <= i <= j < 16 && pixel_subset[i] == s && pixel_subset[j] == s && r == (pixels[i], pixels[j]) && (i == j
                ==> forall|a: int| 0 <= a < 16 && pixel_subset[a] == s ==> a == i) && forall|a: int, b: int|
                0 <= a < b < 16 && pixel_subset[a] == s && pixel_subset[b] == s && pair_before(a, b, i, j) ==> sq_dist(
                    pixels[a],
                    pixels[b],
                ) < sq_dist(pixels[i], pixels[j]),
        forall|a: int, b: int|
            0 <= a < 16 && 0 <= b < 16 && pixel_subset[a] == s && pixel_subset[b] == s ==> #[trigger] sq_dist(
                pixels[a],
                pixels[b],
            ) <= sq_dist(r.0, r.1),
{
    let mut idxs: [usize; 16] = [0; 16];
    let mut n: usize = 0;
    let mut i: usize = 0;
    while i < 16
        invariant
            n <= i <= 16,
            forall|j: int| 0 <= j < n ==> #[trigger] idxs[j] < 16 && pixel_subset[idxs[j] as int] == s,
            forall|j: int| 0 <= j < n ==> #[trigger] idxs[j] < i,
            forall|a: int, b: int| 0 <= a < b < n ==> #[trigger] idxs[a] < #[trigger] idxs[b],
            forall|a: int| 0 <= a < i && #[trigger] pixel_subset[a] == s ==> exists|k: int| 0 <= k < n && idxs[k] == a,
        decreases 16 - i,
    {
        let ghost old_idxs = idxs;
        let ghost old_n = n;
        if pixel_subset[i] == s {
            idxs[n] = i;
            n += 1;
        }
        proof {
            assert forall|a: int| 0 <= a < i + 1 && #[trigger] pixel_subset[a] == s implies exists|k: int|
                0 <= k < n && idxs[k] == a by {
                if a < i {
                    let k = choose|k: int| 0 <= k < old_n && old_idxs[k] == a;
                    assert(idxs[k] == a);
                } else {
                    assert(idxs[old_n as int] == a);
                }
            }
        }
        i += 1;
    }
    if n == 0 {
        assert forall|a: int| 0 <= a < 16 implies #[trigger] pixel_subset[a] != s by {
            if pixel_subset[a] == s {
                let k = choose|k: int| 0 <= k < n && idxs[k] == a;
            }
        }
        return ([0; 4], [0; 4]);
    }
    if n == 1 {
        proof {
            assert forall|a: int, b: int|
                0 <= a < 16 && 0 <= b < 16 && pixel_subset[a] == s && pixel_subset[b] == s implies #[trigger] sq_dist(
                pixels[a],
                pixels[b],
            ) <= sq_dist(pixels[idxs[0] as int], pixels[idxs[0] as int]) by {
                let ka = choose|k: int| 0 <= k < n && idxs[k] == a;
                let kb = choose|k: int| 0 <= k < n && idxs[k] == b;
                lemma_sq_dist_nonneg(pixels[a], pixels[b]);
            }
            let w = idxs[0] as int;
            assert forall|a: int| 0 <= a < 16 && pixel_subset[a] == s implies a == w by {
                let ka = choose|k: int| 0 <= k < n && idxs[k] == a;
            }
            assert(0 <= w <= w < 16 && pixel_subset[w] == s && pixel_subset[w] == s);
        }
        return (pixels[idxs[0]], pixels[idxs[0]]);
    }
    let mut best_d: u32 = 0;
    let mut bi = idxs[0];
    let mut bj = idxs[1];
    let ghost mut pa: int = 0;
    let ghost mut pb: int = 1;
    let mut ai: usize = 0;
    while ai < n
        invariant
            2 <= n <= 16,
            ai <= n,
            forall|j: int| 0 <= j < n ==> #[trigger] idxs[j] < 16 && pixel_subset[idxs[j] as int] == s,
            bi < 16 && bj < 16 && pixel_subset[bi as int] == s && pixel_subset[bj as int] == s,
            best_d == 0 || best_d == sq_dist(pixels[bi as int], pixels[bj as int]),
            0 <= pa < pb < n && idxs[pa] == bi && idxs[pb] == bj,
            best_d == 0 ==> pa == 0 && pb == 1,
            forall|a: int, b: int|
                0 <= a < b < n && pair_before(a, b, pa, pb) ==> #[trigger] sq_dist(
                    pixels[idxs[a] as int],
                    pixels[idxs[b] as int],
                ) < best_d,
            forall|a: int, b: int|
                0 <= a < b < n && a < ai ==> #[trigger] sq_dist(pixels[idxs[a] as int], pixels[idxs[b] as int])
                    <= best_d,
        decreases n - ai,
    {
        let mut aj: usize = ai + 1;
        while aj < n
            invariant
                2 <= n <= 16,
                ai < n,
                ai + 1 <= aj <= n,
                forall|j: int| 0 <= j < n ==> #[trigger] idxs[j] < 16 && pixel_subset[idxs[j] as int] == s,
                bi < 16 && bj < 16 && pixel_subset[bi as int] == s && pixel_subset[bj as int] == s,
                best_d == 0 || best_d == sq_dist(pixels[bi as int], pixels[bj as int]),
                0 <= pa < pb < n && idxs[pa] == bi && idxs[pb] == bj,
                best_d == 0 ==> pa == 0 && pb == 1,
                forall|a: int, b: int|
                    0 <= a < b < n && pair_before(a, b, pa, pb) ==> #[trigger] sq_dist(
                        pixels[idxs[a] as int],
                        pixels[idxs[b] as int],
                    ) < best_d,
                forall|a: int, b: int|
                    0 <= a < b < n && (a < ai || (a == ai && b < aj)) ==> #[trigger] sq_dist(
                        pixels[idxs[a] as int],
                        pixels[idxs[b] as int],
                    ) <= best_d,
            decreases n - aj,
        {
            let i = idxs[ai];
            let j = idxs[aj];
            let d = sq_dist4(pixels[i], pixels[j]);
            if d > best_d {
                proof {
                    assert forall|a: int, b: int|
                        0 <= a < b < n && pair_before(a, b, ai as int, aj as int) implies #[trigger] sq_dist(
                        pixels[idxs[a] as int],
                        pixels[idxs[b] as int],
                    ) < d by {}
                    pa = ai as int;
                    pb = aj as int;
                }
                best_d = d;
                bi = i;
                bj = j;
            }
            aj += 1;
        }
        ai += 1;
    }
    proof {
        lemma_sq_dist_nonneg(pixels[bi as int], pixels[bj as int]);
        assert forall|a: int, b: int|
            0 <= a < 16 && 0 <= b < 16 && pixel_subset[a] == s && pixel_subset[b] == s implies #[trigger] sq_dist(
            pixels[a],
            pixels[b],
        ) <= sq_dist(pixels[bi as int], pixels[bj as int]) by {
            let ka = choose|k: int| 0 <= k < n && idxs[k] == a;
            let kb = choose|k: int| 0 <= k < n && idxs[k] == b;
            if ka < kb {
                assert(sq_dist(pixels[idxs[ka] as int], pixels[idxs[kb] as int]) <= best_d);
            } else if kb < ka {
                assert(sq_dist(pixels[idxs[kb] as int], pixels[idxs[ka] as int]) <= best_d);
                lemma_sq_dist_sym(pixels[a], pixels[b]);
            } else {
                lemma_sq_dist_self(pixels[a]);
            }
        }
        let i = bi as int;
        let j = bj as int;
        assert(idxs[pa] < idxs[pb]);
        assert(sq_dist(pixels[idxs[0] as int], pixels[idxs[1] as int]) <= best_d);
        lemma_sq_dist_nonneg(pixels[idxs[0] as int], pixels[idxs[1] as int]);
        assert(best_d == sq_dist(pixels[i], pixels[j]));
        assert forall|a: int, b: int|
            0 <= a < b < 16 && pixel_subset[a] == s && pixel_subset[b] == s && pair_before(a, b, i, j) implies sq_dist(
            pixels[a],
            pixels[b],
        ) < sq_dist(pixels[i], pixels[j]) by {
            let ka = choose|k: int| 0 <= k < n && idxs[k] == a;
            let kb = choose|k: int| 0 <= k < n && idxs[k] == b;
            if kb <= ka {
                if kb < ka {
                    assert(idxs[kb] < idxs[ka]);
                }
                assert(false);
            }
            if a < i {
                if pa <= ka {
                    if pa < ka {
                        assert(idxs[pa] < idxs[ka]);
                    }
                    assert(false);
                }
            } else {
                assert(ka == pa) by {
                    if ka < pa {
                        assert(idxs[ka] < idxs[pa]);
                    } else if pa < ka {
                        assert(idxs[pa] < idxs[ka]);
                    }
                }
                if pb <= kb {
                    if pb < kb {
                        assert(idxs[pb] < idxs[kb]);
                    }
                    assert(false);
                }
            }
            assert(pair_before(ka, kb, pa, pb));
            assert(sq_dist(pixels[idxs[ka] as int], pixels[idxs[kb] as int]) < best_d);
        }
        assert(0 <= i <= j < 16 && pixel_subset[i] == s && pixel_subset[j] == s && i != j);
    }
    (pixels[bi], pixels[bj])
}

proof fn lemma_sq_dist_nonneg(a: [u8; 4], b: [u8; 4])
    ensures
        sq_dist(a, b) >= 0,
{
    assert forall|c: int| 0 <= c < 4 implies #[trigger] chan_sq(a, b, c) >= 0 by {
        let x = a[c] - b[c];
        assert(x * x >= 0) by (nonlinear_arith);
    }
    assert(chan_sq(a, b, 0) >= 0 && chan_sq(a, b, 1) >= 0 && chan_sq(a, b, 2) >= 0 && chan_sq(a, b, 3) >= 0);
}

proof fn lemma_sq_dist_self(a: [u8; 4])
    ensures
        sq_dist(a, a) == 0,
{
}

/// Colour bits, alpha bits, index bits and shared p-bits of two-subset mode
/// `mode` (1, 3 or 7).
pub open spec fn two_layout(mode: u32) -> (u32, u32, u32, bool) {
    if mode == 1 {
        (6, 0, 3, true)
    } else if mode == 3 {
        (7, 0, 2, false)
    } else {
        (5, 5, 2, false)
    }
}

/// Offset of pixel `px`'s index among the indices: `ib` bits a pixel, one
/// fewer at pixel 0 and at `anchor1`.
pub open spec fn enc_off(ib: u32, anchor1: int, px: int) -> int {
    (if ib == 2 {
        2 * px
    } else {
        3 * px
    }) - (if px > 0 {
        1int
    } else {
        0int
    }) - (if px > anchor1 {
        1int
    } else {
        0int
    })
}

/// Width of pixel `px`'s index.
pub open spec fn enc_w(ib: u32, anchor1: int, px: int) -> int {
    if px == 0 || px == anchor1 {
        ib - 1
    } else {
        ib as int
    }
}

/// The index start of two-subset mode `mode`.
pub open spec fn two_index_pos(mode: u32) -> int {
    let (cb, ab, ib, shared) = two_layout(mode);
    mode + 7 + 12 * cb + 4 * ab + if shared {
        2int
    } else {
        4int
    }
}

/// The bits of a two-subset block as [`pack_2subset`] lays them out.
spec fn two_written(
    b: Seq<u8>,
    mode: u32,
    partition: u32,
    se: [SubsetEnc; 2],
    indices: [u32; 16],
    anchor1: int,
) -> bool {
    let ib = two_layout(mode).2;
    let ip = two_index_pos(mode);
    &&& two_written_head(b, mode, partition, se)
    &&& forall|px: int|
        #![trigger indices[px]]
        0 <= px < 16 ==> holds_bits(b, ip + enc_off(ib, anchor1, px), enc_w(ib, anchor1, px), indices[px])
}

/// The fields before the indices of a two-subset block.
spec fn two_written_head(b: Seq<u8>, mode: u32, partition: u32, se: [SubsetEnc; 2]) -> bool {
    let (cb, ab, ib, shared) = two_layout(mode);
    let e = mode + 7;
    let a = e + 12 * cb;
    let pp = a + 4 * ab;
    &&& holds_bits(b, 0, mode as int, 0)
    &&& holds_bits(b, mode as int, 1, 1)
    &&& holds_bits(b, mode + 1, 6, partition)
    &&& holds_bits(b, e, cb as int, se[0].raw[0][0])
    &&& holds_bits(b, e + cb, cb as int, se[0].raw[1][0])
    &&& holds_bits(b, e + 2 * cb, cb as int, se[1].raw[0][0])
    &&& holds_bits(b, e + 3 * cb, cb as int, se[1].raw[1][0])
    &&& holds_bits(b, e + 4 * cb, cb as int, se[0].raw[0][1])
    &&& holds_bits(b, e + 5 * cb, cb as int, se[0].raw[1][1])
    &&& holds_bits(b, e + 6 * cb, cb as int, se[1].raw[0][1])
    &&& holds_bits(b, e + 7 * cb, cb as int, se[1].raw[1][1])
    &&& holds_bits(b, e + 8 * cb, cb as int, se[0].raw[0][2])
    &&& holds_bits(b, e + 9 * cb, cb as int, se[0].raw[1][2])
    &&& holds_bits(b, e + 10 * cb, cb as int, se[1].raw[0][2])
    &&& holds_bits(b, e + 11 * cb, cb as int, se[1].raw[1][2])
    &&& ab > 0 ==> {
        &&& holds_bits(b, a, ab as int, se[0].raw[0][3])
        &&& holds_bits(b, a + ab, ab as int, se[0].raw[1][3])
        &&& holds_bits(b, a + 2 * ab, ab as int, se[1].raw[0][3])
        &&& holds_bits(b, a + 3 * ab, ab as int, se[1].raw[1][3])
    }
    &&& shared ==> holds_bits(b, pp, 1, se[0].p[0]) && holds_bits(b, pp + 1, 1, se[1].p[0])
    &&& !shared ==> {
        &&& holds_bits(b, pp, 1, se[0].p[0])
        &&& holds_bits(b, pp + 1, 1, se[0].p[1])
        &&& holds_bits(b, pp + 2, 1, se[1].p[0])
        &&& holds_bits(b, pp + 3, 1, se[1].p[1])
    }
}

/// Pack a two-subset block of mode 1, 3 or 7: the mode prefix, the 6-bit
/// partition, the colour endpoints channel by channel (subset 0 endpoints
/// 0 and 1, then subset 1), the alpha endpoints in mode 7, the p-bits (one
/// per subset in mode 1, one per endpoint otherwise), then the indices,
/// one bit shorter at pixel 0 and at `anchor1`.
#[verifier::spinoff_prover]
#[verifier::rlimit(60)]
fn pack_2subset(
    mode: u32,
    partition: u32,
    subsets: &[SubsetEnc; 2],
    part: &[u8; 16],
    indices: [u32; 16],
    anchor1: usize,
) -> (r: [u8; 16])
    requires
        mode == 1 || mode == 3 || mode == 7,
        partition < 64,
        1 <= anchor1 < 16,
    ensures
        two_written(r@, mode, partition, *subsets, indices, anchor1 as int),
{
    let (colour_bits, alpha_bits, idx_bits, pbit_per_endpoint): (u32, u32, u32, bool) = match mode {
        1 => (6u32, 0u32, 3u32, false),
        3 => (7, 0, 2, true),
        _ => (5, 5, 2, true),
    };
    let mut bw = BitWriter::new();
    bw.put(0, mode);
    bw.put(1, 1);
    bw.put(partition, 6);
    let ghost pre = bw.block@;
    bw.put_four(subsets[0].raw[0][0], subsets[0].raw[1][0], subsets[1].raw[0][0], subsets[1].raw[1][0], colour_bits);
    let ghost red = bw.block@;
    bw.put_four(subsets[0].raw[0][1], subsets[0].raw[1][1], subsets[1].raw[0][1], subsets[1].raw[1][1], colour_bits);
    let ghost green = bw.block@;
    bw.put_four(subsets[0].raw[0][2], subsets[0].raw[1][2], subsets[1].raw[0][2], subsets[1].raw[1][2], colour_bits);
    let ghost blue = bw.block@;
    if alpha_bits > 0 {
        bw.put_four(subsets[0].raw[0][3], subsets[0].raw[1][3], subsets[1].raw[0][3], subsets[1].raw[1][3], alpha_bits);
    }
    let ghost alpha = bw.block@;
    if pbit_per_endpoint {
        bw.put_four(subsets[0].p[0], subsets[0].p[1], subsets[1].p[0], subsets[1].p[1], 1);
    } else {
        bw.put(subsets[0].p[0], 1);
        bw.put(subsets[1].p[0], 1);
    }
    let ghost head = bw.block@;
    let ghost ip = bw.pos as int;
    proof {
        assert(two_layout(mode) == (colour_bits, alpha_bits, idx_bits, !pbit_per_endpoint));
        assert(two_written_head(head, mode, partition, *subsets)) by {
            assert(holds_bits(pre, 0, mode as int, 0));
            assert(holds_bits(pre, mode as int, 1, 1));
        }
    }
    let mut px: usize = 0;
    while px < 16
        invariant
            0 <= px <= 16,
            1 <= anchor1 < 16,
            idx_bits == 2 || idx_bits == 3,
            ip + 16 * idx_bits - 2 == 128,
            bw.clean(),
            bw.pos == ip + enc_off(idx_bits, anchor1 as int, px as int),
            forall|j: int| 0 <= j < ip ==> #[trigger] bit_at(bw.block@, j) == bit_at(head, j),
            forall|k: int|
                #![trigger indices[k]]
                0 <= k < px ==> holds_bits(
                    bw.block@,
                    ip + enc_off(idx_bits, anchor1 as int, k),
                    enc_w(idx_bits, anchor1 as int, k),
                    indices[k],
                ),
        decreases 16 - px,
    {
        let nbits = if px == 0 || px == anchor1 {
            idx_bits - 1
        } else {
            idx_bits
        };
        bw.put(indices[px], nbits);
        px += 1;
    }
    let r = bw.block;
    proof {
        assert(two_written(r@, mode, partition, *subsets, indices, anchor1 as int));
    }
    r
}

/// A pixel of a two-subset block: entry `idx` of the `ib`-bit palette
/// between the rebuilt endpoints of `se`.
spec fn two_texel(se: SubsetEnc, idx: u32, ib: u32) -> [u8; 4] {
    [
        interp(se.rec[0][0], se.rec[1][0], idx, ib),
        interp(se.rec[0][1], se.rec[1][1], idx, ib),
        interp(se.rec[0][2], se.rec[1][2], idx, ib),
        interp(se.rec[0][3], se.rec[1][3], idx, ib),
    ]
}

/// Partition `p` of the two-subset table has pixel 0 in subset 0 and its
/// second anchor in subset 1.
pub open spec fn anchors_consistent(p: u32) -> bool {
    part2(p, 0) == 0 && part2(p, anchor_entry(2, p, 1) as int) == 1
}

proof fn lemma_interp_flat(idx: u32, bits: u32)
    requires
        bits == 2 || bits == 3,
        bits == 2 ==> idx < 4,
        bits == 3 ==> idx < 8,
    ensures
        interp(255, 255, idx, bits) == 255,
{
    lemma_bit_writes();
    let w = weight(bits, idx);
    assert(w <= 64);
    assert((64 - w) * 255 + w * 255 + 32 == 16352);
}

/// For a partition whose anchors lie in their subsets, the decoder's index
/// offsets and widths are the packer's.
proof fn lemma_two_index_layout(mode: u32, p: u32, anchor1: int, px: int)
    requires
        mode == 1 || mode == 3 || mode == 7,
        p < 64,
        anchor1 == anchor_entry(2, p, 1),
        anchors_consistent(p),
        0 <= px <= 16,
    ensures
        idx_offset(mode_spec(mode as int), p, px) == enc_off(two_layout(mode).2, anchor1, px),
        px < 16 ==> idx_width(mode_spec(mode as int), p, px) == enc_w(two_layout(mode).2, anchor1, px),
    decreases px,
{
    lemma_part2_layout(p);
    let mi = mode_spec(mode as int);
    assert(mi.subsets == 2 && mi.idx_bits == two_layout(mode).2);
    if px < 16 {
        let s = subset_of(mi, p, px);
        assert(s == part2(p, px));
        assert(s <= 1);
        if s == 0 {
            assert(anchor_of(mi, p, s) == 0);
        } else {
            assert(anchor_of(mi, p, s) == anchor1);
        }
    }
    if px > 0 {
        lemma_two_index_layout(mode, p, anchor1, px - 1);
        let s = subset_of(mi, p, px - 1);
        assert(s == part2(p, px - 1));
        if s == 0 {
            assert(anchor_of(mi, p, s) == 0);
        } else {
            assert(anchor_of(mi, p, s) == anchor1);
        }
    }
}

/// The endpoints a decoder reads from a two-subset block laid out by
/// [`pack_2subset`] are the rebuilt endpoints of its subsets.
#[verifier::spinoff_prover]
#[verifier::rlimit(60)]
proof fn lemma_two_endpoints(b: Seq<u8>, mode: u32, partition: u32, se: [SubsetEnc; 2], s: int, which: int)
    requires
        mode == 1 || mode == 3 || mode == 7,
        two_written_head(b, mode, partition, se),
        subset_ok(se[0], two_layout(mode).0, two_layout(mode).1, two_layout(mode).3),
        subset_ok(se[1], two_layout(mode).0, two_layout(mode).1, two_layout(mode).3),
        0 <= s < 2,
        0 <= which < 2,
    ensures
        endpoint_channel(b, mode as int, s as u32, which, 0) == se[s].rec[which][0],
        endpoint_channel(b, mode as int, s as u32, which, 1) == se[s].rec[which][1],
        endpoint_channel(b, mode as int, s as u32, which, 2) == se[s].rec[which][2],
        endpoint_channel(b, mode as int, s as u32, which, 3) == se[s].rec[which][3],
{
    lemma_pow2_shifts();
    lemma_bit_writes();
    let (cb, ab, ib, shared) = two_layout(mode);
    let m = mode as int;
    let mi = mode_spec(m);
    let e = mode + 7;
    let slot = 2 * s + which;
    assert(mi.subsets == 2 && mi.colour_bits == cb && mi.alpha_bits == ab && mi.p_bits_shared == shared);
    assert(mi.p_bits == if shared {
        2u32
    } else {
        4u32
    });
    assert(endpoint_pos(m) == e);
    assert(endpoint_count(m) == 4);
    assert(3 * endpoint_count(m) * mi.colour_bits == 12 * cb);
    assert(pbit_pos(m) == e + 12 * cb + 4 * ab);
    let pp = e + 12 * cb + 4 * ab;
    let alpha_raw = se[s].raw[which][3];
    if ab == 0 {
        assert(alpha_raw == 0 && se[s].rec[which][3] == 255);
    }
    let pv = se[s].p[which];
    assert(se[s].p[which] <= 1);
    if shared {
        assert(se[s].p[0] == se[s].p[1]);
        lemma_field_written(b, pp + s, 1, se[s].p[0]);
    } else {
        lemma_field_written(b, pp + slot, 1, se[s].p[which]);
    }
    // colour channels
    assert forall|c: int| 0 <= c < 3 implies field(b, e + c * 4 * cb + slot * cb, cb as int) == #[trigger] se[s].raw[which][c] by {
        assert(fits(se[s].raw[which][c], cb));
        assert(c * 4 * cb + slot * cb == (4 * c + slot) * cb) by (nonlinear_arith);
        lemma_field_written(b, e + (4 * c + slot) * cb, cb as int, se[s].raw[which][c]);
    }
    assert(field(b, e + 0 * 4 * cb + slot * cb, cb as int) == se[s].raw[which][0]);
    assert(field(b, e + 1 * 4 * cb + slot * cb, cb as int) == se[s].raw[which][1]);
    assert(field(b, e + 2 * 4 * cb + slot * cb, cb as int) == se[s].raw[which][2]);
    assert(0 * endpoint_count(m) * mi.colour_bits == 0);
    assert(1 * endpoint_count(m) * mi.colour_bits == 4 * cb);
    assert(2 * endpoint_count(m) * mi.colour_bits == 8 * cb);
    assert(slot * mi.colour_bits == slot * cb);
    if ab > 0 {
        assert(fits(se[s].raw[which][3], ab));
        assert(slot * mi.alpha_bits == slot * ab);
        let a = e + 12 * cb;
        if slot == 0 {
            assert(holds_bits(b, a, ab as int, se[0].raw[0][3]));
        } else if slot == 1 {
            assert(holds_bits(b, a + ab, ab as int, se[0].raw[1][3]));
        } else if slot == 2 {
            assert(holds_bits(b, a + 2 * ab, ab as int, se[1].raw[0][3]));
        } else {
            assert(holds_bits(b, a + 3 * ab, ab as int, se[1].raw[1][3]));
        }
        assert(holds_bits(b, a + slot * ab, ab as int, se[s].raw[which][3]));
        lemma_field_written(b, e + 12 * cb + slot * ab, ab as int, se[s].raw[which][3]);
    }
}

/// A block whose first `mode` bits are clear and whose next bit is set is
/// in mode `mode`.
proof fn lemma_two_mode(b: Seq<u8>, mode: u32)
    requires
        mode == 1 || mode == 3 || mode == 7,
        holds_bits(b, 0, mode as int, 0),
        holds_bits(b, mode as int, 1, 1),
    ensures
        bc7_mode(b) == mode,
{
    lemma_bit_writes();
    let m = mode as int;
    assert(bit_at(b, m) == value_bit(1, 0));
    if mode == 1 {
        assert(bit_at(b, 0) == value_bit(0, 0));
        assert(mode_from(b, 1) == 1);
        assert(mode_from(b, 0) == 1);
    } else if mode == 3 {
        assert(bit_at(b, 0) == value_bit(0, 0));
        assert(bit_at(b, 1) == value_bit(0, 1));
        assert(bit_at(b, 2) == value_bit(0, 2));
        assert(mode_from(b, 3) == 3);
        assert(mode_from(b, 2) == 3);
        assert(mode_from(b, 1) == 3);
        assert(mode_from(b, 0) == 3);
    } else {
        assert(bit_at(b, 0) == value_bit(0, 0));
        assert(bit_at(b, 1) == value_bit(0, 1));
        assert(bit_at(b, 2) == value_bit(0, 2));
        assert(bit_at(b, 3) == value_bit(0, 3));
        assert(bit_at(b, 4) == value_bit(0, 4));
        assert(bit_at(b, 5) == value_bit(0, 5));
        assert(bit_at(b, 6) == value_bit(0, 6));
        assert(mode_from(b, 7) == 7);
        assert(mode_from(b, 6) == 7);
        assert(mode_from(b, 5) == 7);
        assert(mode_from(b, 4) == 7);
        assert(mode_from(b, 3) == 7);
        assert(mode_from(b, 2) == 7);
        assert(mode_from(b, 1) == 7);
        assert(mode_from(b, 0) == 7);
    }
}

/// A two-subset block laid out by [`pack_2subset`] over a partition whose
/// anchors lie in their subsets, with every index fitting its width,
/// decodes pixel by pixel to the palette entry its index names in its
/// subset's palette.
#[verifier::spinoff_prover]
#[verifier::rlimit(60)]
proof fn lemma_two_decode(
    b: Seq<u8>,
    mode: u32,
    partition: u32,
    se: [SubsetEnc; 2],
    indices: [u32; 16],
    anchor1: int,
)
    requires
        mode == 1 || mode == 3 || mode == 7,
        partition < 64,
        anchor1 == anchor_entry(2, partition, 1),
        anchors_consistent(partition),
        two_written(b, mode, partition, se, indices, anchor1),
        subset_ok(se[0], two_layout(mode).0, two_layout(mode).1, two_layout(mode).3),
        subset_ok(se[1], two_layout(mode).0, two_layout(mode).1, two_layout(mode).3),
        forall|px: int|
            0 <= px < 16 ==> ((#[trigger] indices[px]) as u64) < (1u64 << (enc_w(two_layout(mode).2, anchor1, px) as u64)),
    ensures
        bc7_mode(b) == mode,
        forall|px: int|
            0 <= px < 16 ==> #[trigger] bc7_texel(b, px) == two_texel(
                se[part2(partition, px) as int],
                indices[px],
                two_layout(mode).2,
            ),
{
    lemma_pow2_shifts();
    lemma_bit_writes();
    lemma_part2_layout(partition);
    let (cb, ab, ib, shared) = two_layout(mode);
    let m = mode as int;
    let mi = mode_spec(m);
    lemma_two_mode(b, mode);
    lemma_field_written(b, m + 1, 6, partition);
    assert(mi.subsets == 2 && mi.partition_bits == 6 && mi.rotation_bits == 0 && mi.idx_sel_bits == 0);
    assert(mi.idx_bits == ib && mi.alpha_bits == ab && mi.colour_bits == cb && mi.p_bits_shared == shared);
    assert(partition_pos(m) == m + 1);
    assert(endpoint_pos(m) == m + 7);
    assert(3 * endpoint_count(m) * mi.colour_bits == 12 * cb);
    assert(index_pos(m) == two_index_pos(mode));
    assert forall|px: int| 0 <= px < 16 implies #[trigger] bc7_texel(b, px) == two_texel(
        se[part2(partition, px) as int],
        indices[px],
        ib,
    ) by {
        lemma_two_index_layout(mode, partition, anchor1, px);
        let w = enc_w(ib, anchor1, px);
        assert(0 <= w <= 3);
        lemma_field_written(b, two_index_pos(mode) + enc_off(ib, anchor1, px), w, indices[px]);
        let s = part2(partition, px);
        assert(s <= 1);
        assert(subset_of(mi, partition, px) == s);
        lemma_two_endpoints(b, mode, partition, se, s as int, 0);
        lemma_two_endpoints(b, mode, partition, se, s as int, 1);
        assert(w <= ib);
        assert(ib == 2 ==> indices[px] < 4);
        assert(ib == 3 ==> indices[px] < 8);
        if ab == 0 {
            lemma_interp_flat(indices[px], ib);
            assert(se[s as int].raw[0][3] == 0 && se[s as int].raw[1][3] == 0);
        }
    }
}

/// Entries of an `idx_bits`-bit palette.
pub open spec fn palette_len(idx_bits: u32) -> int {
    if idx_bits == 2 {
        4
    } else {
        8
    }
}

/// The palettes of the two subsets, `1 << idx_bits` entries each (the
/// rest of the eight slots zero).
fn build_palettes(subsets: &[SubsetEnc; 2], idx_bits: u32) -> (pal: [[[u8; 4]; 8]; 2])
    requires
        idx_bits == 2 || idx_bits == 3,
    ensures
        forall|s: int, k: int, c: int|
            0 <= s < 2 && 0 <= k < palette_len(idx_bits) && 0 <= c < 4 ==> #[trigger] pal[s][k][c] == interp(
                subsets[s].rec[0][c],
                subsets[s].rec[1][c],
                k as u32,
                idx_bits,
            ),
{
    let palette_size: usize = if idx_bits == 2 {
        4
    } else {
        8
    };
    let mut palettes: [[[u8; 4]; 8]; 2] = [[[0; 4]; 8]; 2];
    let mut s: usize = 0;
    while s < 2
        invariant
            s <= 2,
            idx_bits == 2 || idx_bits == 3,
            palette_size == palette_len(idx_bits),
            forall|t: int, k: int, c: int|
                0 <= t < s && 0 <= k < palette_len(idx_bits) && 0 <= c < 4 ==> #[trigger] palettes[t][k][c] == interp(
                    subsets[t].rec[0][c],
                    subsets[t].rec[1][c],
                    k as u32,
                    idx_bits,
                ),
        decreases 2 - s,
    {
        let e0 = subsets[s].rec[0];
        let e1 = subsets[s].rec[1];
        let mut pal = palettes[s];
        let mut k: usize = 0;
        while k < palette_size
            invariant
                k <= palette_size,
                s < 2,
                idx_bits == 2 || idx_bits == 3,
                palette_size == palette_len(idx_bits),
                e0 == subsets[s as int].rec[0],
                e1 == subsets[s as int].rec[1],
                forall|j: int, c: int|
                    0 <= j < k && 0 <= c < 4 ==> #[trigger] pal[j][c] == interp(e0[c], e1[c], j as u32, idx_bits),
            decreases palette_size - k,
        {
            let mut slot = [0u8; 4];
            let mut c: usize = 0;
            while c < 4
                invariant
                    c <= 4,
                    k < palette_size,
                    idx_bits == 2 || idx_bits == 3,
                    palette_size == palette_len(idx_bits),
                    forall|j: int| 0 <= j < c ==> #[trigger] slot[j] == interp(e0[j], e1[j], k as u32, idx_bits),
                decreases 4 - c,
            {
                slot[c] = interpolate(e0[c], e1[c], k as u32, idx_bits);
                c += 1;
            }
            pal[k] = slot;
            k += 1;
        }
        palettes[s] = pal;
        s += 1;
    }
    palettes
}

/// Every pixel's index of the nearest entry of its subset's palette (the
/// first of equals).
fn snap_indices(
    pixels: &[[u8; 4]; 16],
    part: &[u8; 16],
    palettes: &[[[u8; 4]; 8]; 2],
    palette_size: usize,
) -> (indices: [u32; 16])
    requires
        palette_size == 4 || palette_size == 8,
        forall|px: int| 0 <= px < 16 ==> #[trigger] part[px] <= 1,
    ensures
        forall|px: int| 0 <= px < 16 ==> #[trigger] indices[px] < palette_size,
        forall|px: int, k: int|
            0 <= px < 16 && 0 <= k < palette_size ==> sq_dist(palettes[part[px] as int][indices[px] as int], pixels[px])
                <= #[trigger] sq_dist(palettes[part[px] as int][k], pixels[px]),
        forall|px: int, k: int|
            0 <= px < 16 && 0 <= k < indices[px] ==> sq_dist(palettes[part[px] as int][indices[px] as int], pixels[px])
                < #[trigger] sq_dist(palettes[part[px] as int][k], pixels[px]),
{
    let mut indices = [0u32; 16];
    let mut px: usize = 0;
    while px < 16
        invariant
            px <= 16,
            palette_size == 4 || palette_size == 8,
            forall|j: int| 0 <= j < 16 ==> #[trigger] part[j] <= 1,
            forall|j: int| 0 <= j < px ==> #[trigger] indices[j] < palette_size,
            forall|j: int, k: int|
                0 <= j < px && 0 <= k < palette_size ==> sq_dist(palettes[part[j] as int][indices[j] as int], pixels[j])
                    <= #[trigger] sq_dist(palettes[part[j] as int][k], pixels[j]),
            forall|j: int, k: int|
                0 <= j < px && 0 <= k < indices[j] ==> sq_dist(palettes[part[j] as int][indices[j] as int], pixels[j])
                    < #[trigger] sq_dist(palettes[part[j] as int][k], pixels[j]),
        decreases 16 - px,
    {
        let s = part[px] as usize;
        let mut best: u32 = 0;
        let mut best_d: u32 = u32::MAX;
        let mut k: usize = 0;
        while k < palette_size
            invariant
                k <= palette_size,
                palette_size == 4 || palette_size == 8,
                s <= 1,
                s == part[px as int],
                px < 16,
                best < palette_size,
                k == 0 ==> best_d == u32::MAX && best == 0,
                k > 0 ==> best < k && best_d == sq_dist(palettes[s as int][best as int], pixels[px as int]),
                forall|kk: int| 0 <= kk < k ==> best_d <= #[trigger] sq_dist(palettes[s as int][kk], pixels[px as int]),
                forall|kk: int| 0 <= kk < best ==> best_d < #[trigger] sq_dist(palettes[s as int][kk], pixels[px as int]),
            decreases palette_size - k,
        {
            let d = sq_dist4(palettes[s][k], pixels[px]);
            if d < best_d {
                best_d = d;
                best = k as u32;
            }
            k += 1;
        }
        indices[px] = best;
        px += 1;
    }
    indices
}

/// Squared error of every pixel against its palette entry.
fn palette_sse(
    pixels: &[[u8; 4]; 16],
    part: &[u8; 16],
    palettes: &[[[u8; 4]; 8]; 2],
    indices: &[u32; 16],
) -> (r: u64)
    requires
        forall|px: int| 0 <= px < 16 ==> #[trigger] part[px] <= 1,
        forall|px: int| 0 <= px < 16 ==> #[trigger] indices[px] < 8,
    ensures
        r == sse_upto(pixels@, |px: int| palettes[part[px] as int][indices[px] as int], 16),
{
    let mut sse: u64 = 0;
    let mut px: usize = 0;
    while px < 16
        invariant
            px <= 16,
            forall|j: int| 0 <= j < 16 ==> #[trigger] part[j] <= 1,
            forall|j: int| 0 <= j < 16 ==> #[trigger] indices[j] < 8,
            sse == sse_upto(pixels@, |j: int| palettes[part[j] as int][indices[j] as int], px as int),
            sse <= 260100 * px,
        decreases 16 - px,
    {
        let s = part[px] as usize;
        let r = palettes[s][indices[px] as usize];
        proof {
            lemma_sq_dist_sym(r, pixels[px as int]);
        }
        sse += sq_dist4(r, pixels[px]) as u64;
        px += 1;
    }
    sse
}

proof fn lemma_sq_dist_sym(a: [u8; 4], b: [u8; 4])
    ensures
        sq_dist(a, b) == sq_dist(b, a),
{
    assert forall|c: int| 0 <= c < 4 implies #[trigger] chan_sq(a, b, c) == chan_sq(b, a, c) by {
        let x = a[c] - b[c];
        assert(x * x == (-x) * (-x)) by (nonlinear_arith);
    }
    assert(chan_sq(a, b, 0) == chan_sq(b, a, 0));
    assert(chan_sq(a, b, 1) == chan_sq(b, a, 1));
    assert(chan_sq(a, b, 2) == chan_sq(b, a, 2));
    assert(chan_sq(a, b, 3) == chan_sq(b, a, 3));
}

/// `se` with its two endpoints exchanged.
fn swap_endpoints(se: SubsetEnc, Ghost(cb): Ghost<u32>, Ghost(ab): Ghost<u32>, Ghost(shared): Ghost<bool>) -> (r: SubsetEnc)
    requires
        subset_ok(se, cb, ab, shared),
    ensures
        subset_ok(r, cb, ab, shared),
        r.raw[0] == se.raw[1] && r.raw[1] == se.raw[0],
        r.p[0] == se.p[1] && r.p[1] == se.p[0],
        r.rec[0] == se.rec[1] && r.rec[1] == se.rec[0],
{
    let r = SubsetEnc { raw: [se.raw[1], se.raw[0]], p: [se.p[1], se.p[0]], rec: [se.rec[1], se.rec[0]] };
    proof {
        assert(r.raw[0][0] == se.raw[1][0] && r.raw[1][0] == se.raw[0][0]);
        assert forall|ep: int, c: int| 0 <= ep < 2 && 0 <= c < 3 implies fits(#[trigger] r.raw[ep][c], cb) && r.rec[ep][c]
            == expand8(r.raw[ep][c], cb, Some(r.p[ep])) by {
            assert(se.raw[1 - ep][c] == r.raw[ep][c]);
        }
        assert forall|ep: int| 0 <= ep < 2 implies if ab == 0 {
            #[trigger] r.raw[ep][3] == 0 && r.rec[ep][3] == 255
        } else {
            fits(#[trigger] r.raw[ep][3], ab) && r.rec[ep][3] == expand8(r.raw[ep][3], ab, Some(r.p[ep]))
        } by {
            assert(se.raw[1 - ep][3] == r.raw[ep][3]);
        }
    }
    r
}

/// Make each anchor's index fit its shorter field: when pixel 0's index,
/// then `anchor1`'s, has its top bit set, swap that subset's endpoints and
/// complement its indices.
fn fix_anchors(
    subsets: [SubsetEnc; 2],
    indices: [u32; 16],
    part: &[u8; 16],
    anchor1: usize,
    palette_size: usize,
    Ghost(cb): Ghost<u32>,
    Ghost(ab): Ghost<u32>,
    Ghost(shared): Ghost<bool>,
    Ghost(ib): Ghost<u32>,
) -> (r: ([SubsetEnc; 2], [u32; 16]))
    requires
        palette_size == 4 || palette_size == 8,
        ib == 2 || ib == 3,
        palette_size == palette_len(ib),
        1 <= anchor1 < 16,
        part[0] == 0,
        forall|j: int| 0 <= j < 16 ==> #[trigger] part[j] <= 1,
        forall|j: int| 0 <= j < 16 ==> #[trigger] indices[j] < palette_size,
        subset_ok(subsets[0], cb, ab, shared),
        subset_ok(subsets[1], cb, ab, shared),
    ensures
        subset_ok(r.0[0], cb, ab, shared),
        subset_ok(r.0[1], cb, ab, shared),
        forall|j: int| 0 <= j < 16 ==> #[trigger] r.1[j] < palette_size,
        r.1[0] < palette_size / 2,
        part[anchor1 as int] == 1 ==> r.1[anchor1 as int] < palette_size / 2,
        forall|px: int, c: int|
            0 <= px < 16 && 0 <= c < 4 ==> #[trigger] interp(
                r.0[part[px] as int].rec[0][c],
                r.0[part[px] as int].rec[1][c],
                r.1[px],
                ib,
            ) == interp(subsets[part[px] as int].rec[0][c], subsets[part[px] as int].rec[1][c], indices[px], ib),
{
    let mut subsets = subsets;
    let mut indices = indices;
    let half = (palette_size / 2) as u32;
    let max_idx = (palette_size - 1) as u32;
    let ghost s0 = subsets;
    let ghost i0 = indices;
    if indices[0] >= half {
        subsets[0] = swap_endpoints(subsets[0], Ghost(cb), Ghost(ab), Ghost(shared));
        indices = complement_subset(indices, part, 0, max_idx);
    }
    let ghost s1 = subsets;
    let ghost i1 = indices;
    proof {
        assert forall|px: int, c: int| 0 <= px < 16 && 0 <= c < 4 implies #[trigger] interp(
            s1[part[px] as int].rec[0][c],
            s1[part[px] as int].rec[1][c],
            i1[px],
            ib,
        ) == interp(s0[part[px] as int].rec[0][c], s0[part[px] as int].rec[1][c], i0[px], ib) by {
            if part[px] == 0 && i0[0] >= half {
                lemma_interp_flip_small(s0[0].rec[0][c], s0[0].rec[1][c], i0[px], ib);
            }
        }
    }
    if indices[anchor1] >= half {
        subsets[1] = swap_endpoints(subsets[1], Ghost(cb), Ghost(ab), Ghost(shared));
        indices = complement_subset(indices, part, 1, max_idx);
    }
    proof {
        assert forall|px: int, c: int| 0 <= px < 16 && 0 <= c < 4 implies #[trigger] interp(
            subsets[part[px] as int].rec[0][c],
            subsets[part[px] as int].rec[1][c],
            indices[px],
            ib,
        ) == interp(s1[part[px] as int].rec[0][c], s1[part[px] as int].rec[1][c], i1[px], ib) by {
            if part[px] == 1 && i1[anchor1 as int] >= half {
                lemma_interp_flip_small(s1[1].rec[0][c], s1[1].rec[1][c], i1[px], ib);
            }
        }
    }
    (subsets, indices)
}

/// The indices with those of subset `s` complemented (`max_idx - i`).
fn complement_subset(indices: [u32; 16], part: &[u8; 16], s: u8, max_idx: u32) -> (out: [u32; 16])
    requires
        forall|px: int| 0 <= px < 16 ==> #[trigger] indices[px] <= max_idx,
    ensures
        forall|px: int|
            0 <= px < 16 ==> #[trigger] out[px] == if part[px] == s {
                (max_idx - indices[px]) as u32
            } else {
                indices[px]
            },
{
    let mut out = indices;
    let mut px: usize = 0;
    while px < 16
        invariant
            px <= 16,
            forall|j: int| 0 <= j < 16 ==> #[trigger] indices[j] <= max_idx,
            forall|j: int|
                0 <= j < 16 ==> #[trigger] out[j] == if j < px && part[j] == s {
                    (max_idx - indices[j]) as u32
                } else {
                    indices[j]
                },
        decreases 16 - px,
    {
        if part[px] == s {
            out[px] = max_idx - indices[px];
        }
        px += 1;
    }
    out
}

/// The error a two-subset candidate measures against its palettes is the
/// error of what its block decodes to.
#[verifier::spinoff_prover]
#[verifier::rlimit(60)]
proof fn lemma_two_candidate(
    pixels: Seq<[u8; 4]>,
    b: Seq<u8>,
    mode: u32,
    partition: u32,
    subsets: [SubsetEnc; 2],
    indices: [u32; 16],
    part: [u8; 16],
    pal: [[[u8; 4]; 8]; 2],
    anchor1: int,
)
    requires
        mode == 1 || mode == 3 || mode == 7,
        partition < 64,
        anchor1 == anchor_entry(2, partition, 1),
        anchors_consistent(partition),
        two_written(b, mode, partition, subsets, indices, anchor1),
        subset_ok(subsets[0], two_layout(mode).0, two_layout(mode).1, two_layout(mode).3),
        subset_ok(subsets[1], two_layout(mode).0, two_layout(mode).1, two_layout(mode).3),
        forall|j: int| 0 <= j < 16 ==> #[trigger] part[j] as u32 == part2(partition, j) && part[j] <= 1,
        forall|j: int| 0 <= j < 16 ==> #[trigger] indices[j] < palette_len(two_layout(mode).2),
        indices[0] < palette_len(two_layout(mode).2) / 2,
        indices[anchor1] < palette_len(two_layout(mode).2) / 2,
        forall|s: int, k: int, c: int|
            0 <= s < 2 && 0 <= k < palette_len(two_layout(mode).2) && 0 <= c < 4 ==> #[trigger] pal[s][k][c] == interp(
                subsets[s].rec[0][c],
                subsets[s].rec[1][c],
                k as u32,
                two_layout(mode).2,
            ),
    ensures
        sse_upto(pixels, |px: int| pal[part[px] as int][indices[px] as int], 16) == block_sse(pixels, b),
{
    let ib = two_layout(mode).2;
    lemma_pow2_shifts();
    lemma_part2_layout(partition);
    assert(1 <= anchor1 < 16);
    assert forall|px: int|
        0 <= px < 16 implies ((#[trigger] indices[px]) as u64) < (1u64 << (enc_w(ib, anchor1, px) as u64)) by {
    }
    lemma_two_decode(b, mode, partition, subsets, indices, anchor1);
    let f = |px: int| pal[part[px] as int][indices[px] as int];
    let g = |px: int| bc7_texel(b, px);
    assert forall|px: int, c: int| 0 <= px < 16 && 0 <= c < 4 implies #[trigger] f(px)[c] == g(px)[c] by {
        assert(part[px] as u32 == part2(partition, px));
        assert(bc7_texel(b, px) == two_texel(subsets[part2(partition, px) as int], indices[px], ib));
    }
    lemma_sse_same(pixels, f, g, 16);
}

/// The endpoints the two-subset search starts subset `s` of partition
/// `partition` from: the subset's furthest pixel pair.
pub open spec fn start_endpoints(p: Seq<[u8; 4]>, partition: u32, s: int) -> ([u8; 4], [u8; 4]) {
    furthest_spec(p, |j: int| 0 <= j < 16 && part2(partition, j) == s)
}

/// Channel `c` of endpoint `ep` of subset `s` as the search first
/// quantizes it in mode `mode` (before any refinement).
pub open spec fn start_rec(p: Seq<[u8; 4]>, mode: u32, partition: u32, s: int, ep: int, c: int) -> u8 {
    let (a, b) = start_endpoints(p, partition, s);
    let cb = two_layout(mode).0;
    let ab = two_layout(mode).1;
    let per_endpoint = !two_layout(mode).3;
    let pb = pbit_choice(per_endpoint, subset_choice(a, b, cb, ab, per_endpoint));
    if ep == 0 {
        subset_rec(a[c], c, cb, ab, pb.0)
    } else {
        subset_rec(b[c], c, cb, ab, pb.1)
    }
}

/// Entry `k` of the palette of subset `s` before any refinement.
pub open spec fn start_entry(p: Seq<[u8; 4]>, mode: u32, partition: u32, s: int, k: int) -> [u8; 4] {
    let ib = two_layout(mode).2;
    [
        interp(start_rec(p, mode, partition, s, 0, 0), start_rec(p, mode, partition, s, 1, 0), k as u32, ib),
        interp(start_rec(p, mode, partition, s, 0, 1), start_rec(p, mode, partition, s, 1, 1), k as u32, ib),
        interp(start_rec(p, mode, partition, s, 0, 2), start_rec(p, mode, partition, s, 1, 2), k as u32, ib),
        interp(start_rec(p, mode, partition, s, 0, 3), start_rec(p, mode, partition, s, 1, 3), k as u32, ib),
    ]
}

/// The largest squared distance from `px` to the first `n` entries of the
/// starting palette of subset `s`.
pub open spec fn start_far(p: Seq<[u8; 4]>, mode: u32, partition: u32, s: int, px: [u8; 4], n: int) -> int
    decreases n,
{
    if n <= 1 {
        sq_dist(px, start_entry(p, mode, partition, s, 0))
    } else {
        let prev = start_far(p, mode, partition, s, px, n - 1);
        let d = sq_dist(px, start_entry(p, mode, partition, s, n - 1));
        if d > prev {
            d
        } else {
            prev
        }
    }
}

/// The sum over the first `m` pixels of each one's largest squared
/// distance to its subset's starting palette.
pub open spec fn start_worst_upto(p: Seq<[u8; 4]>, mode: u32, partition: u32, m: int) -> int
    decreases m,
{
    if m <= 0 {
        0
    } else {
        start_worst_upto(p, mode, partition, m - 1) + start_far(
            p,
            mode,
            partition,
            part2(partition, m - 1) as int,
            p[m - 1],
            palette_len(two_layout(mode).2),
        )
    }
}

/// The squared error the two-subset candidate of mode `mode` and partition
/// `partition` can have at most: each pixel at its furthest entry of its
/// subset's starting palette (the palette built from the subset's
/// furthest pair before any refinement). A refit is kept only when its
/// error is below that of the current indices on the starting palette.
pub open spec fn start_worst(p: Seq<[u8; 4]>, mode: u32, partition: u32) -> int {
    start_worst_upto(p, mode, partition, 16)
}

proof fn lemma_start_far(p: Seq<[u8; 4]>, mode: u32, partition: u32, s: int, px: [u8; 4], n: int, i: int)
    requires
        0 <= i < n,
    ensures
        sq_dist(px, start_entry(p, mode, partition, s, i)) <= start_far(p, mode, partition, s, px, n),
    decreases n,
{
    if n > 1 && i < n - 1 {
        lemma_start_far(p, mode, partition, s, px, n - 1, i);
    }
}

/// On the starting palettes, any indices give at most the starting bound.
proof fn lemma_start_bound(
    pixels: Seq<[u8; 4]>,
    mode: u32,
    partition: u32,
    part: [u8; 16],
    pal: [[[u8; 4]; 8]; 2],
    idx: [u32; 16],
    m: int,
)
    requires
        0 <= m <= 16,
        mode == 1 || mode == 3 || mode == 7,
        forall|j: int| 0 <= j < 16 ==> #[trigger] part[j] as u32 == part2(partition, j) && part[j] <= 1,
        forall|j: int| 0 <= j < 16 ==> #[trigger] idx[j] < palette_len(two_layout(mode).2),
        forall|s: int, k: int, c: int|
            0 <= s < 2 && 0 <= k < palette_len(two_layout(mode).2) && 0 <= c < 4 ==> #[trigger] pal[s][k][c]
                == start_entry(pixels, mode, partition, s, k)[c],
    ensures
        sse_upto(pixels, |px: int| pal[part[px] as int][idx[px] as int], m) <= start_worst_upto(pixels, mode, partition, m),
    decreases m,
{
    if m > 0 {
        lemma_start_bound(pixels, mode, partition, part, pal, idx, m - 1);
        let px = m - 1;
        let sb = part[px] as int;
        let k = idx[px] as int;
        let e = start_entry(pixels, mode, partition, sb, k);
        assert(pal[sb][k][0] == e[0] && pal[sb][k][1] == e[1] && pal[sb][k][2] == e[2] && pal[sb][k][3] == e[3]);
        assert(sq_dist(pixels[px], pal[sb][k]) == sq_dist(pixels[px], e));
        lemma_start_far(pixels, mode, partition, sb, pixels[px], palette_len(two_layout(mode).2), k);
    }
}

/// Encode one 4x4 block as a two-subset candidate of mode `mode` (1 or 3
/// for opaque blocks, 7 with alpha) over partition `partition`: each
/// subset starts from its two pixels furthest apart; then, up to twice,
/// `refine` fits new endpoints to each subset for the current indices, and
/// the refit is kept only when it lowers the squared error. An anchor
/// pixel whose index would not fit its shorter field has its subset's
/// endpoints swapped and indices complemented. Returns the block and its
/// squared error against the encoder's palettes, which is the error of
/// what the block decodes to whenever the partition's anchors lie in
/// their subsets, and which is at most [`start_worst`]: a refit is kept
/// only when its error is below that of the current indices on the
/// starting palettes.
#[verifier::spinoff_prover]
#[verifier::rlimit(80)]
fn encode_bc7_2subset<F>(pixels_rgba: &[[u8; 4]; 16], mode: u32, partition: u32, refine: &F) -> (r: ([u8; 16], u64))
    where
        F: Fn([[u8; 4]; 16], [u8; 16], u8, [u32; 16], u32) -> ([u8; 4], [u8; 4]),
    requires
        mode == 1 || mode == 3 || mode == 7,
        partition < 64,
        forall|px: [[u8; 4]; 16], part: [u8; 16], s: u8, idx: [u32; 16], bits: u32|
            #[trigger] refine.requires((px, part, s, idx, bits)),
    ensures
        bc7_mode(r.0@) == mode,
        field(r.0@, mode + 1, 6) == partition,
        anchors_consistent(partition) ==> r.1 == block_sse(pixels_rgba@, r.0@),
        r.1 <= start_worst(pixels_rgba@, mode, partition),
{
    proof {
        lemma_part2_layout(partition);
    }
    let mut part = [0u8; 16];
    let mut px: usize = 0;
    while px < 16
        invariant
            px <= 16,
            partition < 64,
            forall|j: int| 0 <= j < px ==> #[trigger] part[j] as u32 == part2(partition, j) && part[j] <= 1,
        decreases 16 - px,
    {
        proof {
            lemma_part2_layout(partition);
        }
        part[px] = part2_entry(partition, px as u32) as u8;
        px += 1;
    }
    let (colour_bits, alpha_bits, idx_bits, pbit_per_endpoint): (u32, u32, u32, bool) = match mode {
        1 => (6u32, 0u32, 3u32, false),
        3 => (7, 0, 2, true),
        _ => (5, 5, 2, true),
    };
    assert(two_layout(mode) == (colour_bits, alpha_bits, idx_bits, !pbit_per_endpoint));
    let mut subsets = [SubsetEnc { raw: [[0; 4]; 2], p: [0; 2], rec: [[0; 4]; 2] }; 2];
    let (a0, b0) = furthest_in_subset(pixels_rgba, &part, 0);
    let se0 = encode_subset(a0, b0, colour_bits, alpha_bits, pbit_per_endpoint);
    subsets[0] = se0;
    let (a1, b1) = furthest_in_subset(pixels_rgba, &part, 1);
    let se1 = encode_subset(a1, b1, colour_bits, alpha_bits, pbit_per_endpoint);
    subsets[1] = se1;
    let palette_size: usize = if idx_bits == 2 {
        4
    } else {
        8
    };
    let palettes = build_palettes(&subsets, idx_bits);
    proof {
        let p = pixels_rgba@;
        lemma_furthest_is_spec(*pixels_rgba, part, 0, (a0, b0));
        lemma_furthest_is_spec(*pixels_rgba, part, 1, (a1, b1));
        assert((|j: int| 0 <= j < 16 && part[j] == 0u8) =~= (|j: int| 0 <= j < 16 && part2(partition, j) == 0int));
        assert((|j: int| 0 <= j < 16 && part[j] == 1u8) =~= (|j: int| 0 <= j < 16 && part2(partition, j) == 1int));
        assert((a0, b0) == start_endpoints(p, partition, 0));
        assert((a1, b1) == start_endpoints(p, partition, 1));
        assert forall|sb: int, k: int, c: int|
            0 <= sb < 2 && 0 <= k < palette_len(idx_bits) && 0 <= c < 4 implies #[trigger] palettes[sb][k][c]
                == start_entry(p, mode, partition, sb, k)[c] by {
            assert(two_layout(mode).0 == colour_bits && two_layout(mode).1 == alpha_bits && !two_layout(mode).3
                == pbit_per_endpoint);
            if sb == 0 {
                assert(subsets[0] == se0);
                let ch = subset_choice(a0, b0, colour_bits, alpha_bits, pbit_per_endpoint);
                let pb = pbit_choice(pbit_per_endpoint, ch);
                assert(se0.raw[0][c] == subset_raw(a0[c], c, colour_bits, alpha_bits, pb.0));
                assert(se0.rec[0][c] == start_rec(p, mode, partition, 0, 0, c));
                assert(se0.rec[1][c] == start_rec(p, mode, partition, 0, 1, c));
            } else {
                assert(subsets[1] == se1);
                let ch = subset_choice(a1, b1, colour_bits, alpha_bits, pbit_per_endpoint);
                let pb = pbit_choice(pbit_per_endpoint, ch);
                assert(se1.raw[0][c] == subset_raw(a1[c], c, colour_bits, alpha_bits, pb.0));
                assert(se1.rec[0][c] == start_rec(p, mode, partition, 1, 0, c));
                assert(se1.rec[1][c] == start_rec(p, mode, partition, 1, 1, c));
            }
        }
    }
    let mut indices = snap_indices(pixels_rgba, &part, &palettes, palette_size);
    let ghost mut cur_pal = palettes;
    proof {
        lemma_start_bound(pixels_rgba@, mode, partition, part, palettes, indices, 16);
    }
    let mut iter: usize = 0;
    while iter < 2
        invariant
            mode == 1 || mode == 3 || mode == 7,
            two_layout(mode) == (colour_bits, alpha_bits, idx_bits, !pbit_per_endpoint),
            forall|j: int| 0 <= j < 16 ==> #[trigger] part[j] as u32 == part2(partition, j),
            forall|sb: int, k: int, c: int|
                0 <= sb < 2 && 0 <= k < palette_len(idx_bits) && 0 <= c < 4 ==> #[trigger] palettes[sb][k][c]
                    == start_entry(pixels_rgba@, mode, partition, sb, k)[c],
            forall|sb: int, k: int, c: int|
                0 <= sb < 2 && 0 <= k < palette_len(idx_bits) && 0 <= c < 4 ==> #[trigger] cur_pal[sb][k][c]
                    == interp(subsets[sb].rec[0][c], subsets[sb].rec[1][c], k as u32, idx_bits),
            sse_upto(pixels_rgba@, |px: int| cur_pal[part[px] as int][indices[px] as int], 16) <= start_worst(
                pixels_rgba@,
                mode,
                partition,
            ),
            iter <= 2,
            5 <= colour_bits <= 7,
            alpha_bits == 0 || alpha_bits == 5,
            idx_bits == 2 || idx_bits == 3,
            palette_size == palette_len(idx_bits),
            forall|j: int| 0 <= j < 16 ==> #[trigger] part[j] <= 1,
            forall|j: int| 0 <= j < 16 ==> #[trigger] indices[j] < palette_size,
            subset_ok(subsets[0], colour_bits, alpha_bits, !pbit_per_endpoint),
            subset_ok(subsets[1], colour_bits, alpha_bits, !pbit_per_endpoint),
            forall|px: [[u8; 4]; 16], pt: [u8; 16], s: u8, idx: [u32; 16], bits: u32|
                #[trigger] refine.requires((px, pt, s, idx, bits)),
        decreases 2 - iter,
    {
        let mut new_subsets = subsets;
        let (f0, g0) = refine(*pixels_rgba, part, 0, indices, idx_bits);
        new_subsets[0] = encode_subset(f0, g0, colour_bits, alpha_bits, pbit_per_endpoint);
        let (f1, g1) = refine(*pixels_rgba, part, 1, indices, idx_bits);
        new_subsets[1] = encode_subset(f1, g1, colour_bits, alpha_bits, pbit_per_endpoint);
        let new_palettes = build_palettes(&new_subsets, idx_bits);
        let new_indices = snap_indices(pixels_rgba, &part, &new_palettes, palette_size);
        let sse_old = palette_sse(pixels_rgba, &part, &palettes, &indices);
        let sse_new = palette_sse(pixels_rgba, &part, &new_palettes, &new_indices);
        proof {
            lemma_start_bound(pixels_rgba@, mode, partition, part, palettes, indices, 16);
        }
        if sse_new < sse_old {
            subsets = new_subsets;
            indices = new_indices;
            proof {
                cur_pal = new_palettes;
            }
        } else {
            break;
        }
        iter += 1;
    }
    let ghost subsets_pre = subsets;
    let ghost indices_pre = indices;
    // Each anchor's index has an implicit zero top bit.
    let anchor1 = anchor_lookup(2, partition, 1) as usize;
    let (subsets, indices) = fix_anchors(
        subsets,
        indices,
        &part,
        anchor1,
        palette_size,
        Ghost(colour_bits),
        Ghost(alpha_bits),
        Ghost(!pbit_per_endpoint),
        Ghost(idx_bits),
    );
    let final_palettes = build_palettes(&subsets, idx_bits);
    let sse = palette_sse(pixels_rgba, &part, &final_palettes, &indices);
    proof {
        let f = |px: int| final_palettes[part[px] as int][indices[px] as int];
        let g = |px: int| cur_pal[part[px] as int][indices_pre[px] as int];
        assert forall|px: int, c: int| 0 <= px < 16 && 0 <= c < 4 implies #[trigger] f(px)[c] == g(px)[c] by {
            let sb = part[px] as int;
            assert(final_palettes[sb][indices[px] as int][c] == interp(
                subsets[sb].rec[0][c],
                subsets[sb].rec[1][c],
                indices[px],
                idx_bits,
            ));
            assert(cur_pal[sb][indices_pre[px] as int][c] == interp(
                subsets_pre[sb].rec[0][c],
                subsets_pre[sb].rec[1][c],
                indices_pre[px],
                idx_bits,
            ));
        }
        lemma_sse_same(pixels_rgba@, f, g, 16);
    }
    let block = pack_2subset(mode, partition, &subsets, &part, indices, anchor1);
    proof {
        lemma_two_mode(block@, mode);
        lemma_pow2_shifts();
        lemma_field_written(block@, mode + 1, 6, partition);
        if anchors_consistent(partition) {
            lemma_two_candidate(
                pixels_rgba@,
                block@,
                mode,
                partition,
                subsets,
                indices,
                part,
                final_palettes,
                anchor1 as int,
            );
        }
    }
    (block, sse)
}

// ---- Blocks and surfaces -------------------------------------------------------------

/// Every pixel is opaque.
pub open spec fn all_opaque(p: Seq<[u8; 4]>) -> bool {
    forall|t: int| 0 <= t < 16 ==> #[trigger] p[t][3] == 255
}

/// `b` is a block the encoder may choose for `p`: mode 6, or a two-subset
/// mode that suits the block's alpha (1 or 3 when every pixel is opaque, 7
/// otherwise).
pub open spec fn bc7_mode_fits(b: Seq<u8>, p: Seq<[u8; 4]>) -> bool {
    let m = bc7_mode(b);
    m == 6 || (all_opaque(p) && (m == 1 || m == 3)) || (!all_opaque(p) && m == 7)
}

/// The error the encoder measures for block `b` is the error `b` decodes
/// with: in mode 6, and in every partition but 22 to 25, whose table rows
/// put the second anchor pixel in the first subset.
pub open spec fn measured_truly(b: Seq<u8>) -> bool {
    let m = bc7_mode(b);
    m == 6 || !(22 <= field(b, m + 1, 6) <= 25)
}

/// The two-subset modes the encoder tries for the pixels `p`: 1 and 3
/// when every pixel is opaque, else 7.
pub open spec fn tried_two_mode(p: Seq<[u8; 4]>, mode: u32) -> bool {
    if all_opaque(p) {
        mode == 1 || mode == 3
    } else {
        mode == 7
    }
}

/// `b` is a block the encoder may give for the pixels `p`: in a mode that
/// suits their alpha, decoding (unless its partition is one of 22 to 25)
/// with no more error than the mode-6 candidate and than the bound
/// [`start_worst`] of every two-subset candidate tried, and decoding
/// exactly whenever the mode-6 candidate does.
pub open spec fn bc7_block_ok(b: Seq<u8>, p: Seq<[u8; 4]>) -> bool {
    &&& bc7_mode_fits(b, p)
    &&& measured_truly(b) ==> block_sse(p, b) <= mode6_sse(p)
    &&& measured_truly(b) ==> forall|mode: u32, partition: u32|
        tried_two_mode(p, mode) && partition < 64 ==> block_sse(p, b) <= #[trigger] start_worst(p, mode, partition)
    &&& mode6_sse(p) == 0 ==> block_sse(p, b) == 0
}

/// A squared distance is zero exactly between equal values.
proof fn lemma_sq_dist_zero(a: [u8; 4], b: [u8; 4])
    ensures
        sq_dist(a, b) >= 0,
        sq_dist(a, b) == 0 <==> a == b,
{
    assert forall|c: int| 0 <= c < 4 implies #[trigger] chan_sq(a, b, c) >= 0 && (chan_sq(a, b, c) == 0 <==> a[c] == b[c]) by {
        let d: int = a[c] - b[c];
        assert(chan_sq(a, b, c) == d * d);
        assert(d * d >= 0 && (d * d == 0 <==> d == 0)) by (nonlinear_arith);
    }
    if sq_dist(a, b) == 0 {
        assert(chan_sq(a, b, 0) == 0 && chan_sq(a, b, 1) == 0 && chan_sq(a, b, 2) == 0 && chan_sq(a, b, 3) == 0);
        assert(a =~= b);
    }
}

/// Index 0 of a 4-bit palette between equal endpoints is that value.
proof fn lemma_interp_same(e: u8)
    ensures
        interp(e, e, 0, 4) == e,
{
    assert(WEIGHT_4@ =~= seq![0u32, 4, 9, 13, 17, 21, 26, 30, 34, 38, 43, 47, 51, 55, 60, 64]);
    assert(weight(4, 0) == 0);
    crate::bitfacts::lemma_bit_writes();
    let v: u32 = (64 * e + 32) as u32;
    assert(v >> 6u32 == v / 64);
    assert(v / 64 == e);
}

/// A 7-bit endpoint channel with the p-bit of its low bit rebuilds the
/// 8-bit value.
proof fn lemma_recon_low_bit(x: u8, pb: u32)
    requires
        pb == (x % 2) as u32,
    ensures
        recon7((x / 2) as u32, pb) == x,
{
    crate::bitfacts::lemma_bit_writes();
    let h = (x / 2) as u32;
    assert(((h << 1u32) | (pb & 1u32)) == 2 * h + pb);
}

/// When entry 0 of the mode-6 palette is `x` itself, `x`'s nearest entry
/// is at distance zero.
proof fn lemma_m6_nearest_zero(p: Seq<[u8; 4]>, x: [u8; 4], n: int)
    requires
        1 <= n,
        m6_entry(p, 0) == x,
    ensures
        m6_nearest(p, x, n) == 0,
    decreases n,
{
    lemma_sq_dist_zero(x, m6_entry(p, 0));
    if n > 1 {
        lemma_m6_nearest_zero(p, x, n - 1);
        lemma_sq_dist_zero(x, m6_entry(p, n - 1));
    }
}

/// A zero total squared error means every pixel decodes exactly.
proof fn lemma_sse_zero(pixels: Seq<[u8; 4]>, texel: spec_fn(int) -> [u8; 4], n: int)
    requires
        0 <= n,
        sse_upto(pixels, texel, n) == 0,
    ensures
        forall|t: int| 0 <= t < n ==> #[trigger] texel(t) == pixels[t],
    decreases n,
{
    if n > 0 {
        lemma_sse_nonneg(pixels, texel, n - 1);
        lemma_sq_dist_zero(pixels[n - 1], texel(n - 1));
        lemma_sse_zero(pixels, texel, n - 1);
    }
}

/// A total squared error is never negative.
proof fn lemma_sse_nonneg(pixels: Seq<[u8; 4]>, texel: spec_fn(int) -> [u8; 4], n: int)
    ensures
        sse_upto(pixels, texel, n) >= 0,
    decreases n,
{
    if n > 0 {
        lemma_sse_nonneg(pixels, texel, n - 1);
        lemma_sq_dist_zero(pixels[n - 1], texel(n - 1));
    }
}

/// A block of one colour whose four channels share their low bit (solid
/// white or black among them) is encoded exactly: its mode-6 candidate
/// reproduces it, so whatever block the encoder keeps decodes to it.
pub proof fn lemma_bc7_solid_shared_parity_exact(p: Seq<[u8; 4]>, b: Seq<u8>)
    requires
        p.len() == 16,
        forall|t: int| 0 <= t < 16 ==> #[trigger] p[t] == p[0],
        p[0][0] % 2 == p[0][1] % 2 && p[0][1] % 2 == p[0][2] % 2 && p[0][2] % 2 == p[0][3] % 2,
        bc7_block_ok(b, p),
    ensures
        block_sse(p, b) == 0,
        forall|t: int| 0 <= t < 16 ==> #[trigger] bc7_texel(b, t) == p[t],
{
    let c = p[0];
    assert forall|i: int, j: int| !first_far_pair(p, i, j) by {
        if 0 <= i < j < 16 {
            assert(p[i] == c && p[j] == c);
            lemma_sq_dist_zero(p[i], p[j]);
        }
    }
    assert(far_pair(p) == (0int, 0int));
    let pb = majority_p(c);
    assert(pb == (c[0] % 2) as u32);
    lemma_recon_low_bit(c[0], pb);
    lemma_recon_low_bit(c[1], pb);
    lemma_recon_low_bit(c[2], pb);
    lemma_recon_low_bit(c[3], pb);
    lemma_interp_same(c[0]);
    lemma_interp_same(c[1]);
    lemma_interp_same(c[2]);
    lemma_interp_same(c[3]);
    assert(m6_entry(p, 0) =~= c);
    assert forall|k: int| 0 <= k <= 16 implies #[trigger] m6_sse_upto(p, k) == 0 by {
        lemma_m6_sse_zero(p, c, k);
    }
    let f = |px: int| bc7_texel(b, px);
    lemma_sse_zero(p, f, 16);
    assert forall|t: int| 0 <= t < 16 implies #[trigger] bc7_texel(b, t) == p[t] by {
        assert(f(t) == p[t]);
    }
}

/// A solid block whose colour is entry 0 of its mode-6 palette has no
/// mode-6 error.
proof fn lemma_m6_sse_zero(p: Seq<[u8; 4]>, c: [u8; 4], k: int)
    requires
        p.len() == 16,
        forall|t: int| 0 <= t < 16 ==> #[trigger] p[t] == c,
        m6_entry(p, 0) == c,
        0 <= k <= 16,
    ensures
        m6_sse_upto(p, k) == 0,
    decreases k,
{
    if k > 0 {
        lemma_m6_sse_zero(p, c, k - 1);
        lemma_m6_nearest_zero(p, c, 16);
    }
}

/// Every pixel of the block is opaque.
fn opaque_block(pixels_rgba: &[[u8; 4]; 16]) -> (r: bool)
    ensures
        r == all_opaque(pixels_rgba@),
{
    let mut k: usize = 0;
    while k < 16
        invariant
            k <= 16,
            forall|j: int| 0 <= j < k ==> #[trigger] pixels_rgba@[j][3] == 255,
        decreases 16 - k,
    {
        if pixels_rgba[k][3] != 0xff {
            return false;
        }
        k += 1;
    }
    true
}

/// Encode one 4x4 block: the mode-6 candidate, then every partition of
/// modes 1 and 3 (opaque blocks) or 7, keeping the first candidate of
/// least squared error.
#[verifier::spinoff_prover]
#[verifier::rlimit(100)]
fn encode_block<F>(pixels_rgba: &[[u8; 4]; 16], refine: &F) -> (r: [u8; 16])
    where
        F: Fn([[u8; 4]; 16], [u8; 16], u8, [u32; 16], u32) -> ([u8; 4], [u8; 4]),
    requires
        forall|px: [[u8; 4]; 16], part: [u8; 16], s: u8, idx: [u32; 16], bits: u32|
            #[trigger] refine.requires((px, part, s, idx, bits)),
    ensures
        bc7_block_ok(r@, pixels_rgba@),
{
    let (mut best_block, mut best_sse) = encode_bc7_mode6_block(pixels_rgba);
    let ghost p = pixels_rgba@;
    let opaque = opaque_block(pixels_rgba);
    let modes: [u32; 2] = if opaque {
        [1, 3]
    } else {
        [7, 7]
    };
    let n_modes: usize = if opaque {
        2
    } else {
        1
    };
    let mut mi: usize = 0;
    while mi < n_modes
        invariant
            mi <= n_modes,
            n_modes == if opaque {
                2usize
            } else {
                1usize
            },
            opaque == all_opaque(pixels_rgba@),
            modes == if opaque {
                [1u32, 3u32]
            } else {
                [7u32, 7u32]
            },
            bc7_mode_fits(best_block@, pixels_rgba@),
            p == pixels_rgba@,
            best_sse <= mode6_sse(p),
            measured_truly(best_block@) ==> block_sse(p, best_block@) == best_sse,
            mode6_sse(p) == 0 ==> measured_truly(best_block@) && best_sse == 0,
            forall|px: [[u8; 4]; 16], part: [u8; 16], s: u8, idx: [u32; 16], bits: u32|
                #[trigger] refine.requires((px, part, s, idx, bits)),
            forall|j: int, q: u32| 0 <= j < mi && q < 64 ==> best_sse <= #[trigger] start_worst(p, modes[j], q),
        decreases n_modes - mi,
    {
        let mode = modes[mi];
        let mut partition: u32 = 0;
        while partition < 64
            invariant
                partition <= 64,
                mode == 1 || mode == 3 || mode == 7,
                opaque ==> mode == 1 || mode == 3,
                !opaque ==> mode == 7,
                opaque == all_opaque(pixels_rgba@),
                bc7_mode_fits(best_block@, pixels_rgba@),
                p == pixels_rgba@,
                best_sse <= mode6_sse(p),
                measured_truly(best_block@) ==> block_sse(p, best_block@) == best_sse,
                mode6_sse(p) == 0 ==> measured_truly(best_block@) && best_sse == 0,
                forall|px: [[u8; 4]; 16], part: [u8; 16], s: u8, idx: [u32; 16], bits: u32|
                    #[trigger] refine.requires((px, part, s, idx, bits)),
                mi < n_modes,
                mode == modes[mi as int],
                forall|j: int, q: u32| 0 <= j < mi && q < 64 ==> best_sse <= #[trigger] start_worst(p, modes[j], q),
                forall|q: u32| q < partition ==> best_sse <= #[trigger] start_worst(p, mode, q),
            decreases 64 - partition,
        {
            let (cand, sse) = encode_bc7_2subset(pixels_rgba, mode, partition, refine);
            proof {
                lemma_part2_layout(partition);
            }
            if sse < best_sse {
                best_sse = sse;
                best_block = cand;
            }
            partition += 1;
        }
        mi += 1;
    }
    proof {
        assert forall|mode: u32, q: u32| tried_two_mode(p, mode) && q < 64 implies best_sse <= #[trigger] start_worst(
            p,
            mode,
            q,
        ) by {
            if opaque {
                if mode == 1 {
                    assert(modes[0] == 1);
                } else {
                    assert(modes[1] == 3);
                }
            } else {
                assert(modes[0] == 7);
            }
        }
    }
    best_block
}

/// Encode a packed RGBA8 `width × height` surface to BC7, block by block
/// in row order; texels past the right or bottom edge repeat the last
/// column or row. `refine` is the endpoint fit the two-subset search runs
/// (see [`encode_block`]).
///
/// `input` must hold `width × height × 4` bytes and `output`
/// `ceil(w/4) × ceil(h/4) × 16`; otherwise the result is `InvalidData` and
/// `output` is untouched.
pub fn encode_bc7<F>(input: &[u8], width: u32, height: u32, output: &mut [u8], refine: &F) -> (r: Result<()>)
    where
        F: Fn([[u8; 4]; 16], [u8; 16], u8, [u32; 16], u32) -> ([u8; 4], [u8; 4]),
    requires
        width * height * 4 <= usize::MAX,
        block_count(width, height) * 16 <= usize::MAX,
        forall|px: [[u8; 4]; 16], part: [u8; 16], s: u8, idx: [u32; 16], bits: u32|
            #[trigger] refine.requires((px, part, s, idx, bits)),
    ensures
        !encode_lengths_ok(input@.len() as int, old(output)@.len() as int, width, height, 4, 16) ==> (is_invalid(r)
            && final(output)@ == old(output)@),
        encode_lengths_ok(input@.len() as int, old(output)@.len() as int, width, height, 4, 16) ==> (r is Ok
            && final(output)@.len() == old(output)@.len() && (forall|b: int|
            0 <= b < block_count(width, height) ==> bc7_block_ok(
                #[trigger] out_block(final(output)@, b, 16),
                gathered_rgba(input@, width, height, b % blocks_across(width), b / blocks_across(width)),
            )) && (forall|j: int|
            block_count(width, height) * 16 <= j < old(output)@.len() ==> #[trigger] final(output)@[j]
                == old(output)@[j])),
{
    let (bw, bh, want_in) = surface_sizes(width, height, 4, 16);
    if input.len() < want_in {
        return Err(DdsError::invalid("BC7 encoder input is shorter than width x height x 4"));
    }
    let want_out = bw * bh * 16;
    if output.len() < want_out {
        return Err(DdsError::invalid("BC7 encoder output is shorter than the block stream"));
    }
    proof {
    }
    let n = bw * bh;
    let mut b: usize = 0;
    while b < n
        invariant
            n == block_count(width, height),
            want_out == n * 16,
            bw == blocks_across(width),
            bh == blocks_across(height),
            n * 16 <= old(output)@.len(),
            width * height * 4 <= usize::MAX,
            b <= n,
            output@.len() == old(output)@.len(),
            forall|k: int|
                0 <= k < b ==> bc7_block_ok(
                    #[trigger] out_block(output@, k, 16),
                    gathered_rgba(input@, width, height, k % bw as int, k / bw as int),
                ),
            forall|j: int| b * 16 <= j < old(output)@.len() ==> #[trigger] output@[j] == old(output)@[j],
            forall|px: [[u8; 4]; 16], part: [u8; 16], s: u8, idx: [u32; 16], bits: u32|
                #[trigger] refine.requires((px, part, s, idx, bits)),
        decreases n - b,
    {
        proof {
            lemma_block_count_facts(width, height, b as int);
        }
        let bx = b % bw;
        let by = b / bw;
        let block = gather_rgba(input, width, height, bx, by);
        let bc = encode_block(&block, refine);
        let ghost prev = output@;
        write_bytes_at(output, b * 16, &bc);
        proof {
            assert forall|k: int| 0 <= k < b + 1 implies bc7_block_ok(
                #[trigger] out_block(output@, k, 16),
                gathered_rgba(input@, width, height, k % bw as int, k / bw as int),
            ) by {
                if k < b {
                    assert(out_block(output@, k, 16) =~= out_block(prev, k, 16));
                } else {
                    assert(out_block(output@, k, 16) =~= bc@);
                }
            }
        }
        b += 1;
    }
    Ok(())
}

} // verus!
