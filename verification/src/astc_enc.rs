//! ASTC LDR block and surface encoding.
//!
//! A block whose texels are all one colour becomes a void-extent block,
//! which decodes back to that colour exactly. Otherwise the encoder builds
//! a single-subset block (per-channel min/max endpoints, colour endpoint
//! mode 8 when alpha is uniformly opaque, else 12; the finest weight range
//! whose weight stream and colour values both fit), and, as further
//! candidates, a dual-plane block when alpha varies, two-subset blocks for
//! a fixed set of partition seeds, and three-subset blocks for opaque
//! content. It keeps the candidate that decodes closest to the source, by
//! the sum of absolute channel differences under this crate's decoder.
use vstd::prelude::*;
use crate::astc::{
    astc_texels, block_field, block_mode_spec, void_colour, cem_value_count, cem_count, decode_astc_ldr_block, decode_block_mode, is_valid_footprint,
    lemma_footprint_bounds, pick_color_range, pick_color_range_spec, select_partition, select_partition_spec, ModeClass, ERROR_COLOR, footprint_ok,
};
use crate::astc_surface::blocks_across;
use crate::bc7::bit_at;
use crate::image::DdsPixelFormat;
use crate::astc_ise::{
    stream_acc, ise_range, unpack_quints, unpack_trits, unquant_color, unquant_weight, IseRange, WeightRange, trit0, trit1,
    trit2, trit3, trit4, quint0, quint1, quint2, ise_range_spec, ise_bits_for_count, unquant_color_spec,
    unquant_weight_spec,
};

verus! {

// ---- Building a block ----------------------------------------------------------------

/// A 128-bit block under construction. Bits are OR-ed in by absolute
/// position (bit `i` of the block is bit `i % 64` of `lo` or `hi`); a bit
/// past the top of the block is dropped.
pub(crate) struct BlockBuilder {
    pub(crate) lo: u64,
    pub(crate) hi: u64,
}

impl BlockBuilder {
    /// Bit `i` of the block (0 past bit 127).
    pub(crate) open spec fn bit(self, i: int) -> u64 {
        if 0 <= i < 64 {
            (self.lo >> (i as u64)) & 1u64
        } else if 64 <= i < 128 {
            (self.hi >> ((i - 64) as u64)) & 1u64
        } else {
            0
        }
    }

    /// An all-zero block.
    pub(crate) fn new() -> (b: Self)
        ensures
            forall|i: int| 0 <= i < 128 ==> #[trigger] b.bit(i) == 0,
    {
        proof {
            crate::bitfacts::lemma_block_bits();
        }
        BlockBuilder { lo: 0, hi: 0 }
    }

    /// OR the bit `b` (0 or 1) into block bit `i`.
    fn or_bit(&mut self, i: u32, b: u64)
        requires
            b <= 1,
        ensures
            forall|j: int|
                0 <= j < 128 ==> #[trigger] final(self).bit(j) == if j == i {
                    old(self).bit(j) | b
                } else {
                    old(self).bit(j)
                },
    {
        proof {
            crate::bitfacts::lemma_block_bits();
        }
        let ghost o = *self;
        if i < 64 {
            self.lo = self.lo | (b << (i as u64));
            proof {
                assert forall|j: int| 0 <= j < 128 implies #[trigger] self.bit(j) == if j == i {
                    o.bit(j) | b
                } else {
                    o.bit(j)
                } by {
                    if j < 64 {
                        assert((((o.lo | (b << (i as u64))) >> (j as u64)) & 1u64) == if j as u64 == i as u64 {
                            ((o.lo >> (j as u64)) & 1u64) | b
                        } else {
                            (o.lo >> (j as u64)) & 1u64
                        });
                    }
                }
            }
        } else if i < 128 {
            self.hi = self.hi | (b << ((i - 64) as u64));
            proof {
                assert forall|j: int| 0 <= j < 128 implies #[trigger] self.bit(j) == if j == i {
                    o.bit(j) | b
                } else {
                    o.bit(j)
                } by {
                    if j >= 64 {
                        assert((((o.hi | (b << ((i - 64) as u64))) >> ((j - 64) as u64)) & 1u64) == if (j - 64) as u64
                            == (i - 64) as u64 {
                            ((o.hi >> ((j - 64) as u64)) & 1u64) | b
                        } else {
                            (o.hi >> ((j - 64) as u64)) & 1u64
                        });
                    }
                }
            }
        }
    }

    /// OR the `count` low bits of `value` (at most 32) into block bits
    /// `pos..pos + count`.
    pub(crate) fn set(&mut self, pos: u32, count: u32, value: u32)
        ensures
            forall|j: int|
                0 <= j < 128 ==> #[trigger] final(self).bit(j) == if pos <= j < pos + count && j - pos < 32 {
                    old(self).bit(j) | (((value >> ((j - pos) as u32)) & 1u32) as u64)
                } else {
                    old(self).bit(j)
                },
    {
        let ghost o = *self;
        let mut k: u32 = 0;
        while k < count && k < 32
            invariant
                forall|j: int|
                    0 <= j < 128 ==> #[trigger] self.bit(j) == if pos <= j < pos + k && j - pos < 32 {
                        o.bit(j) | (((value >> ((j - pos) as u32)) & 1u32) as u64)
                    } else {
                        o.bit(j)
                    },
                k <= 32,
                k <= count,
            decreases count - k,
        {
            let b = ((value >> k) & 1) as u64;
            proof {
                crate::bitfacts::lemma_masks();
            }
            if pos <= u32::MAX - k {
                self.or_bit(pos + k, b);
            }
            k += 1;
        }
    }

    /// OR the low bit of `value` into weight-stream bit `stream_i`, which is
    /// block bit `127 - stream_i`.
    pub(crate) fn set_weight_bit(&mut self, stream_i: u32, value: u32)
        ensures
            forall|j: int|
                0 <= j < 128 ==> #[trigger] final(self).bit(j) == if stream_i <= 127 && j == 127 - stream_i {
                    old(self).bit(j) | ((value & 1) as u64)
                } else {
                    old(self).bit(j)
                },
    {
        proof {
            crate::bitfacts::lemma_masks();
        }
        if stream_i <= 127 {
            self.or_bit(127 - stream_i, (value & 1) as u64);
        }
    }

    /// The 16 bytes of the block, least significant first.
    pub(crate) fn bytes(&self) -> (out: [u8; 16])
        ensures
            forall|i: int| 0 <= i < 128 ==> #[trigger] bit_at(out@, i) == self.bit(i),
    {
        let mut out = [0u8; 16];
        let mut k: usize = 0;
        while k < 8
            invariant
                k <= 8,
                forall|j: int| 0 <= j < k ==> #[trigger] out[j] == ((self.lo >> ((8 * j) as u64)) & 0xff) as u8,
                forall|j: int| 0 <= j < k ==> #[trigger] out[j + 8] == ((self.hi >> ((8 * j) as u64)) & 0xff) as u8,
            decreases 8 - k,
        {
            out[k] = ((self.lo >> ((8 * k) as u64)) & 0xff) as u8;
            out[k + 8] = ((self.hi >> ((8 * k) as u64)) & 0xff) as u8;
            k += 1;
        }
        proof {
            crate::bitfacts::lemma_block_bits();
            assert forall|i: int| 0 <= i < 128 implies #[trigger] bit_at(out@, i) == self.bit(i) by {
                let s = (i % 8) as u8;
                if i < 64 {
                    let q = i / 8;
                    assert(out[q] == ((self.lo >> ((8 * q) as u64)) & 0xff) as u8);
                    assert(((((((self.lo >> ((8 * q) as u64)) & 0xffu64) as u8) >> s) & 1u8) as u64) == (self.lo >> (((8
                        * q) as u64 + s) as u64)) & 1u64);
                } else {
                    let q = i / 8 - 8;
                    assert(out[q + 8] == ((self.hi >> ((8 * q) as u64)) & 0xff) as u8);
                    assert(((((((self.hi >> ((8 * q) as u64)) & 0xffu64) as u8) >> s) & 1u8) as u64) == (self.hi >> (((8
                        * q) as u64 + s) as u64)) & 1u64);
                }
            }
        }
        out
    }
}

/// `p` unpacks to the trits `t`.
pub open spec fn trits_match(p: u32, t: [u32; 5]) -> bool {
    trit0(p) == t[0] && trit1(p) == t[1] && trit2(p) == t[2] && trit3(p) == t[3] && trit4(p) == t[4]
}

/// The first packed trit byte from `p` on that unpacks to `t` (0 if none does).
pub open spec fn first_trit_code(t: [u32; 5], p: int) -> u32
    decreases 256 - p,
{
    if p >= 256 || p < 0 {
        0
    } else if trits_match(p as u32, t) {
        p as u32
    } else {
        first_trit_code(t, p + 1)
    }
}

/// `p` unpacks to the quints `q`.
pub open spec fn quints_match(p: u32, q: [u32; 3]) -> bool {
    quint0(p) == q[0] && quint1(p) == q[1] && quint2(p) == q[2]
}

/// The first packed quint field from `p` on that unpacks to `q` (0 if none does).
pub open spec fn first_quint_code(q: [u32; 3], p: int) -> u32
    decreases 128 - p,
{
    if p >= 128 || p < 0 {
        0
    } else if quints_match(p as u32, q) {
        p as u32
    } else {
        first_quint_code(q, p + 1)
    }
}

/// A packed trit byte holding the trits `t0..t4` (each at most 2).
spec fn trit_encode(t0: u32, t1: u32, t2: u32, t3: u32, t4: u32) -> u32 {
    let c: u32 = if t1 == 2 && t2 == 2 {
        12u32 | t0
    } else if t2 == 2 {
        (t1 << 4u32) | (if t0 == 2 { 8u32 } else { t0 << 2u32 }) | 3u32
    } else {
        (t2 << 4u32) | (t1 << 2u32) | t0
    };
    if t3 == 2 && t4 == 2 {
        ((c >> 2u32) << 5u32) | 28u32 | (c & 3u32)
    } else if t4 == 2 {
        (t3 << 7u32) | 96u32 | c
    } else {
        (t4 << 7u32) | (t3 << 5u32) | c
    }
}

/// A packed quint field holding the quints `q0..q2` (each at most 4).
spec fn quint_encode(q0: u32, q1: u32, q2: u32) -> u32 {
    if q0 == 4 && q1 == 4 {
        6u32 | (if q2 == 4 { 1u32 } else { (((q2 >> 1u32) & 1u32) << 4u32) | ((q2 & 1u32) << 3u32) })
    } else {
        let c: u32 = if q1 == 4 {
            (q0 << 3u32) | 5u32
        } else {
            (q1 << 3u32) | q0
        };
        if q2 == 4 {
            ((c >> 3u32) << 3u32) | (((!(c >> 1u32)) & 3u32) << 5u32) | 6u32 | (c & 1u32)
        } else {
            (q2 << 5u32) | c
        }
    }
}

/// The trit and quint encodings unpack to what they encode.
proof fn lemma_group_encode(t0: u32, t1: u32, t2: u32, t3: u32, t4: u32, q0: u32, q1: u32, q2: u32)
    by (bit_vector)
    requires
        t0 <= 2 && t1 <= 2 && t2 <= 2 && t3 <= 2 && t4 <= 2,
        q0 <= 4 && q1 <= 4 && q2 <= 4,
    ensures
        trit_encode(t0, t1, t2, t3, t4) < 256,
        trit0(trit_encode(t0, t1, t2, t3, t4)) == t0,
        trit1(trit_encode(t0, t1, t2, t3, t4)) == t1,
        trit2(trit_encode(t0, t1, t2, t3, t4)) == t2,
        trit3(trit_encode(t0, t1, t2, t3, t4)) == t3,
        trit4(trit_encode(t0, t1, t2, t3, t4)) == t4,
        quint_encode(q0, q1, q2) < 128,
        quint0(quint_encode(q0, q1, q2)) == q0,
        quint1(quint_encode(q0, q1, q2)) == q1,
        quint2(quint_encode(q0, q1, q2)) == q2,
{
}

/// A byte is determined by its eight bits.
proof fn lemma_byte_from_bits(x: u8, y: u8)
    by (bit_vector)
    requires
        (x >> 0u8) & 1u8 == (y >> 0u8) & 1u8,
        (x >> 1u8) & 1u8 == (y >> 1u8) & 1u8,
        (x >> 2u8) & 1u8 == (y >> 2u8) & 1u8,
        (x >> 3u8) & 1u8 == (y >> 3u8) & 1u8,
        (x >> 4u8) & 1u8 == (y >> 4u8) & 1u8,
        (x >> 5u8) & 1u8 == (y >> 5u8) & 1u8,
        (x >> 6u8) & 1u8 == (y >> 6u8) & 1u8,
        (x >> 7u8) & 1u8 == (y >> 7u8) & 1u8,
    ensures
        x == y,
{
}

/// Two 16-byte blocks with the same 128 bits are the same block.
proof fn lemma_block_from_bits(a: Seq<u8>, b: Seq<u8>)
    requires
        a.len() == 16,
        b.len() == 16,
        forall|j: int| 0 <= j < 128 ==> #[trigger] bit_at(a, j) == bit_at(b, j),
    ensures
        a == b,
{
    assert forall|k: int| 0 <= k < 16 implies a[k] == b[k] by {
        let i0 = 8 * k;
        assert(bit_at(a, i0) == bit_at(b, i0));
        assert(bit_at(a, i0 + 1) == bit_at(b, i0 + 1));
        assert(bit_at(a, i0 + 2) == bit_at(b, i0 + 2));
        assert(bit_at(a, i0 + 3) == bit_at(b, i0 + 3));
        assert(bit_at(a, i0 + 4) == bit_at(b, i0 + 4));
        assert(bit_at(a, i0 + 5) == bit_at(b, i0 + 5));
        assert(bit_at(a, i0 + 6) == bit_at(b, i0 + 6));
        assert(bit_at(a, i0 + 7) == bit_at(b, i0 + 7));
        lemma_byte_from_bits(a[k], b[k]);
    }
    assert(a =~= b);
}

/// Searching from `p` finds a matching code when one lies ahead.
proof fn lemma_first_trit_code_found(t: [u32; 5], p: int, c: int)
    requires
        0 <= p <= c < 256,
        trits_match(c as u32, t),
    ensures
        trits_match(first_trit_code(t, p), t),
        first_trit_code(t, p) < 256,
    decreases c - p,
{
    if !trits_match(p as u32, t) {
        lemma_first_trit_code_found(t, p + 1, c);
    }
}

/// Searching from `p` finds a matching code when one lies ahead.
proof fn lemma_first_quint_code_found(q: [u32; 3], p: int, c: int)
    requires
        0 <= p <= c < 128,
        quints_match(c as u32, q),
    ensures
        quints_match(first_quint_code(q, p), q),
        first_quint_code(q, p) < 128,
    decreases c - p,
{
    if !quints_match(p as u32, q) {
        lemma_first_quint_code_found(q, p + 1, c);
    }
}

/// Packing five trits (each at most 2) into a byte and unpacking that byte
/// gives the trits back.
pub proof fn lemma_trits_roundtrip(t: [u32; 5])
    requires
        forall|k: int| 0 <= k < 5 ==> #[trigger] t[k] <= 2,
    ensures
        first_trit_code(t, 0) < 256,
        trits_match(first_trit_code(t, 0), t),
{
    assert(t[0] <= 2 && t[1] <= 2 && t[2] <= 2 && t[3] <= 2 && t[4] <= 2);
    lemma_group_encode(t[0], t[1], t[2], t[3], t[4], 0, 0, 0);
    lemma_first_trit_code_found(t, 0, trit_encode(t[0], t[1], t[2], t[3], t[4]) as int);
}

/// Packing three quints (each at most 4) into a 7-bit field and unpacking
/// it gives the quints back.
pub proof fn lemma_quints_roundtrip(q: [u32; 3])
    requires
        forall|k: int| 0 <= k < 3 ==> #[trigger] q[k] <= 4,
    ensures
        first_quint_code(q, 0) < 128,
        quints_match(first_quint_code(q, 0), q),
{
    assert(q[0] <= 4 && q[1] <= 4 && q[2] <= 4);
    lemma_group_encode(0, 0, 0, 0, 0, q[0], q[1], q[2]);
    lemma_first_quint_code_found(q, 0, quint_encode(q[0], q[1], q[2]) as int);
}

/// The packed trit byte that unpacks to `t`, found by search: every group of
/// trits of at most 2 has one (0 if none does).
fn pack_trits(t: &[u32; 5]) -> (p: u32)
    ensures
        p < 256,
        p == first_trit_code(*t, 0),
        (forall|k: int| 0 <= k < 5 ==> #[trigger] t[k] <= 2) ==> trits_match(p, *t),
{
    proof {
        if forall|k: int| 0 <= k < 5 ==> #[trigger] t[k] <= 2 {
            lemma_trits_roundtrip(*t);
        }
    }
    let mut p: u32 = 0;
    while p < 256
        invariant
            p <= 256,
            first_trit_code(*t, 0) == first_trit_code(*t, p as int),
        decreases 256 - p,
    {
        let u = unpack_trits(p);
        if u[0] == t[0] && u[1] == t[1] && u[2] == t[2] && u[3] == t[3] && u[4] == t[4] {
            return p;
        }
        p += 1;
    }
    0
}

/// The packed quint field that unpacks to `q`, found by search: every group
/// of quints of at most 4 has one (0 if none does).
fn pack_quints(q: &[u32; 3]) -> (p: u32)
    ensures
        p < 128,
        p == first_quint_code(*q, 0),
        (forall|k: int| 0 <= k < 3 ==> #[trigger] q[k] <= 4) ==> quints_match(p, *q),
{
    proof {
        if forall|k: int| 0 <= k < 3 ==> #[trigger] q[k] <= 4 {
            lemma_quints_roundtrip(*q);
        }
    }
    let mut p: u32 = 0;
    while p < 128
        invariant
            p <= 128,
            first_quint_code(*q, 0) == first_quint_code(*q, p as int),
        decreases 128 - p,
    {
        let u = unpack_quints(p);
        if u[0] == q[0] && u[1] == q[1] && u[2] == q[2] {
            return p;
        }
        p += 1;
    }
    0
}

/// Stream index of block bit `j`: the colour stream runs up from bit 0,
/// the weight stream down from bit 127.
pub(crate) open spec fn stream_index(j: int, weights: bool) -> int {
    if weights {
        127 - j
    } else {
        j
    }
}

/// Total width of the fields `f` (value, width).
pub(crate) open spec fn fields_len(f: Seq<(u32, u32)>) -> int
    decreases f.len(),
{
    if f.len() == 0 {
        0
    } else {
        fields_len(f.drop_last()) + f.last().1
    }
}

/// Bit `k` of the fields `f` laid one after another from stream bit 0,
/// each value lowest bit first; 0 outside them.
pub(crate) open spec fn fields_bit(f: Seq<(u32, u32)>, k: int) -> u64
    decreases f.len(),
{
    if f.len() == 0 {
        0
    } else {
        let t = fields_len(f.drop_last());
        if t <= k < t + f.last().1 {
            ((f.last().0 >> ((k - t) as u32)) & 1u32) as u64
        } else {
            fields_bit(f.drop_last(), k)
        }
    }
}

proof fn lemma_fields_push(f: Seq<(u32, u32)>, v: u32, w: u32)
    ensures
        fields_len(f.push((v, w))) == fields_len(f) + w,
        forall|k: int|
            #[trigger] fields_bit(f.push((v, w)), k) == if fields_len(f) <= k < fields_len(f) + w {
                ((v >> ((k - fields_len(f)) as u32)) & 1u32) as u64
            } else {
                fields_bit(f, k)
            },
{
    assert(f.push((v, w)).drop_last() =~= f);
}

proof fn lemma_fields_beyond(f: Seq<(u32, u32)>, k: int)
    requires
        k < 0 || k >= fields_len(f),
    ensures
        fields_bit(f, k) == 0,
        fields_len(f) >= 0,
    decreases f.len(),
{
    if f.len() > 0 {
        lemma_fields_beyond(f.drop_last(), k);
    }
}

/// The block `b` is `o` with the fields `f`, from stream index `start`,
/// OR-ed into its stream.
pub(crate) open spec fn or_fields(b: BlockBuilder, o: BlockBuilder, f: Seq<(u32, u32)>, weights: bool, start: int) -> bool {
    forall|j: int|
        0 <= j < 128 ==> #[trigger] b.bit(j) == o.bit(j) | (if start <= stream_index(j, weights) {
            fields_bit(f, stream_index(j, weights) - start)
        } else {
            0
        })
}

proof fn lemma_or_step(
    o: BlockBuilder,
    prev: BlockBuilder,
    next: BlockBuilder,
    f: Seq<(u32, u32)>,
    v: u32,
    w: u32,
    weights: bool,
    start: int,
)
    requires
        start >= 0,
        or_fields(prev, o, f, weights, start),
        forall|j: int|
            0 <= j < 128 ==> #[trigger] next.bit(j) == prev.bit(j) | (if start + fields_len(f) <= stream_index(j, weights)
                < start + fields_len(f) + w {
                ((v >> ((stream_index(j, weights) - (start + fields_len(f))) as u32)) & 1u32) as u64
            } else {
                0
            }),
    ensures
        or_fields(next, o, f.push((v, w)), weights, start),
        fields_len(f.push((v, w))) == fields_len(f) + w,
{
    crate::bitfacts::lemma_block_bits();
    lemma_fields_push(f, v, w);
    assert forall|j: int| 0 <= j < 128 implies #[trigger] next.bit(j) == o.bit(j) | (if start <= stream_index(j, weights) {
        fields_bit(f.push((v, w)), stream_index(j, weights) - start)
    } else {
        0
    }) by {
        let q = stream_index(j, weights) - start;
        assert(prev.bit(j) == o.bit(j) | (if start <= stream_index(j, weights) {
            fields_bit(f, q)
        } else {
            0
        }));
        if fields_len(f) <= q < fields_len(f) + w {
            lemma_fields_beyond(f, q);
        }
    }
}

/// Write `count` bits of `value` at block position `pos` (colour stream)
/// or at weight-stream position `pos` (weight stream), and advance `pos`.
fn put_bits(bb: &mut BlockBuilder, weights: bool, count: u32, value: u32, pos: u32) -> (next: u32)
    requires
        pos <= 0x10000,
        count <= 32,
    ensures
        next == pos + count,
        forall|j: int|
            0 <= j < 128 ==> #[trigger] final(bb).bit(j) == old(bb).bit(j) | (if pos <= stream_index(j, weights) < pos
                + count {
                ((value >> ((stream_index(j, weights) - pos) as u32)) & 1u32) as u64
            } else {
                0
            }),
{
    proof {
        crate::bitfacts::lemma_block_bits();
    }
    if weights {
        let ghost o = *bb;
        let mut k: u32 = 0;
        while k < count
            invariant
                k <= count,
                count <= 32,
                pos <= 0x10000,
                weights,
                forall|j: int|
                    0 <= j < 128 ==> #[trigger] bb.bit(j) == o.bit(j) | (if pos <= stream_index(j, weights) < pos + k {
                        ((value >> ((stream_index(j, weights) - pos) as u32)) & 1u32) as u64
                    } else {
                        0
                    }),
            decreases count - k,
        {
            proof {
                crate::bitfacts::lemma_masks();
                crate::bitfacts::lemma_block_bits();
            }
            bb.set_weight_bit(pos + k, (value >> k) & 1);
            k += 1;
        }
    } else {
        bb.set(pos, count, value);
    }
    pos + count
}

/// The low `n` bits of `v`.
fn low_bits(v: u32, n: u32) -> (m: u32)
    requires
        n <= 8,
    ensures
        m == v % (1u32 << n),
{
    proof {
        crate::bitfacts::lemma_pow2_shifts();
        crate::bitfacts::lemma_shl_mono();
        crate::bitfacts::lemma_block_bits();
    }
    if n == 0 {
        0
    } else {
        assert(v & (((1u32 << n) - 1) as u32) == v % (1u32 << n));
        v & ((1u32 << n) - 1)
    }
}

/// Value `i` of `seq` above its low `n` bits (0 past the end).
pub(crate) open spec fn ise_hi(seq: Seq<u32>, n: u32, i: int) -> u32 {
    if 0 <= i < seq.len() {
        seq[i] >> n
    } else {
        0
    }
}

/// The low `n` bits of value `i` of `seq` (0 past the end).
pub(crate) open spec fn ise_lo(seq: Seq<u32>, n: u32, i: int) -> u32 {
    if 0 <= i < seq.len() {
        seq[i] % (1u32 << n)
    } else {
        0
    }
}

/// The fields of the trit group of values `i..i + 5`: each value's low
/// bits with the bits of the packed trit byte between them (2, 2, 1, 2, 1).
pub(crate) open spec fn trit_group(seq: Seq<u32>, n: u32, i: int) -> Seq<(u32, u32)> {
    trit_fields(
        ise_lo(seq, n, i),
        ise_lo(seq, n, i + 1),
        ise_lo(seq, n, i + 2),
        ise_lo(seq, n, i + 3),
        ise_lo(seq, n, i + 4),
        first_trit_code(
            [ise_hi(seq, n, i), ise_hi(seq, n, i + 1), ise_hi(seq, n, i + 2), ise_hi(seq, n, i + 3), ise_hi(seq, n, i + 4)],
            0,
        ),
        n,
    )
}

/// A trit group's fields from its five low-bit values and packed trit byte `p`.
pub(crate) open spec fn trit_fields(m0: u32, m1: u32, m2: u32, m3: u32, m4: u32, p: u32, n: u32) -> Seq<(u32, u32)> {
    seq![
        (m0, n),
        (p & 3, 2u32),
        (m1, n),
        ((p >> 2u32) & 3, 2u32),
        (m2, n),
        ((p >> 4u32) & 1, 1u32),
        (m3, n),
        ((p >> 5u32) & 3, 2u32),
        (m4, n),
        ((p >> 7u32) & 1, 1u32),
    ]
}

/// The fields of the quint group of values `i..i + 3`: each value's low
/// bits with the bits of the packed quint field between them (3, 2, 2).
pub(crate) open spec fn quint_group(seq: Seq<u32>, n: u32, i: int) -> Seq<(u32, u32)> {
    quint_fields(
        ise_lo(seq, n, i),
        ise_lo(seq, n, i + 1),
        ise_lo(seq, n, i + 2),
        first_quint_code([ise_hi(seq, n, i), ise_hi(seq, n, i + 1), ise_hi(seq, n, i + 2)], 0),
        n,
    )
}

/// A quint group's fields from its three low-bit values and packed quint field `p`.
pub(crate) open spec fn quint_fields(m0: u32, m1: u32, m2: u32, p: u32, n: u32) -> Seq<(u32, u32)> {
    seq![(m0, n), (p & 7, 3u32), (m1, n), ((p >> 3u32) & 3, 2u32), (m2, n), ((p >> 5u32) & 3, 2u32)]
}

/// The fields of the first `g` groups of the integer sequence `seq` in
/// range `r` (groups of five with trits, three with quints, single values
/// otherwise).
pub(crate) open spec fn ise_fields_upto(seq: Seq<u32>, r: IseRange, g: int) -> Seq<(u32, u32)>
    decreases g,
{
    if g <= 0 {
        seq![]
    } else if r.trits {
        ise_fields_upto(seq, r, g - 1) + trit_group(seq, r.bits as u32, 5 * (g - 1))
    } else if r.quints {
        ise_fields_upto(seq, r, g - 1) + quint_group(seq, r.bits as u32, 3 * (g - 1))
    } else {
        ise_fields_upto(seq, r, g - 1).push((seq[g - 1], r.bits as u32))
    }
}

/// The fields of the integer sequence `seq` in range `r`, in stream order.
pub(crate) open spec fn ise_fields(seq: Seq<u32>, r: IseRange) -> Seq<(u32, u32)> {
    ise_fields_upto(
        seq,
        r,
        if r.trits {
            (seq.len() + 4) as int / 5
        } else if r.quints {
            (seq.len() + 2) as int / 3
        } else {
            seq.len() as int
        },
    )
}

proof fn lemma_first_trit_code_ext(a: [u32; 5], b: [u32; 5], p: int)
    requires
        forall|k: int| 0 <= k < 5 ==> #[trigger] a[k] == b[k],
    ensures
        first_trit_code(a, p) == first_trit_code(b, p),
    decreases 256 - p,
{
    if 0 <= p < 256 {
        assert(trits_match(p as u32, a) == trits_match(p as u32, b));
        lemma_first_trit_code_ext(a, b, p + 1);
    }
}

proof fn lemma_first_quint_code_ext(a: [u32; 3], b: [u32; 3], p: int)
    requires
        forall|k: int| 0 <= k < 3 ==> #[trigger] a[k] == b[k],
    ensures
        first_quint_code(a, p) == first_quint_code(b, p),
    decreases 128 - p,
{
    if 0 <= p < 128 {
        assert(quints_match(p as u32, a) == quints_match(p as u32, b));
        lemma_first_quint_code_ext(a, b, p + 1);
    }
}

/// Write one trit group: the five low-bit values with the packed trit
/// byte's bits between them.
fn put_trit_group(
    bb: &mut BlockBuilder,
    weights: bool,
    n: u32,
    m: [u32; 5],
    packed: u32,
    pos: u32,
    Ghost(o): Ghost<BlockBuilder>,
    Ghost(fs): Ghost<Seq<(u32, u32)>>,
    Ghost(start): Ghost<int>,
) -> (next: u32)
    requires
        n <= 8,
        pos <= 0x8000,
        start >= 0,
        pos == start + fields_len(fs),
        or_fields(*old(bb), o, fs, weights, start),
    ensures
        next == pos + 5 * n + 8,
        next == start + fields_len(fs + trit_fields(m[0], m[1], m[2], m[3], m[4], packed, n)),
        or_fields(*final(bb), o, fs + trit_fields(m[0], m[1], m[2], m[3], m[4], packed, n), weights, start),
{
    let ghost mut f = fs;
    let mut pos = pos;
    let ghost b0 = *bb;
    pos = put_bits(bb, weights, n, m[0], pos);
    proof {
        lemma_or_step(o, b0, *bb, f, m[0], n, weights, start);
        f = f.push((m[0], n));
    }
    let ghost b0 = *bb;
    pos = put_bits(bb, weights, 2, packed & 3, pos);
    proof {
        lemma_or_step(o, b0, *bb, f, packed & 3, 2, weights, start);
        f = f.push((packed & 3, 2));
    }
    let ghost b0 = *bb;
    pos = put_bits(bb, weights, n, m[1], pos);
    proof {
        lemma_or_step(o, b0, *bb, f, m[1], n, weights, start);
        f = f.push((m[1], n));
    }
    let ghost b0 = *bb;
    pos = put_bits(bb, weights, 2, (packed >> 2u32) & 3, pos);
    proof {
        lemma_or_step(o, b0, *bb, f, (packed >> 2u32) & 3, 2, weights, start);
        f = f.push(((packed >> 2u32) & 3, 2));
    }
    let ghost b0 = *bb;
    pos = put_bits(bb, weights, n, m[2], pos);
    proof {
        lemma_or_step(o, b0, *bb, f, m[2], n, weights, start);
        f = f.push((m[2], n));
    }
    let ghost b0 = *bb;
    pos = put_bits(bb, weights, 1, (packed >> 4u32) & 1, pos);
    proof {
        lemma_or_step(o, b0, *bb, f, (packed >> 4u32) & 1, 1, weights, start);
        f = f.push(((packed >> 4u32) & 1, 1));
    }
    let ghost b0 = *bb;
    pos = put_bits(bb, weights, n, m[3], pos);
    proof {
        lemma_or_step(o, b0, *bb, f, m[3], n, weights, start);
        f = f.push((m[3], n));
    }
    let ghost b0 = *bb;
    pos = put_bits(bb, weights, 2, (packed >> 5u32) & 3, pos);
    proof {
        lemma_or_step(o, b0, *bb, f, (packed >> 5u32) & 3, 2, weights, start);
        f = f.push(((packed >> 5u32) & 3, 2));
    }
    let ghost b0 = *bb;
    pos = put_bits(bb, weights, n, m[4], pos);
    proof {
        lemma_or_step(o, b0, *bb, f, m[4], n, weights, start);
        f = f.push((m[4], n));
    }
    let ghost b0 = *bb;
    pos = put_bits(bb, weights, 1, (packed >> 7u32) & 1, pos);
    proof {
        lemma_or_step(o, b0, *bb, f, (packed >> 7u32) & 1, 1, weights, start);
        f = f.push(((packed >> 7u32) & 1, 1));
    }
    proof {
        assert(f =~= fs + trit_fields(m[0], m[1], m[2], m[3], m[4], packed, n));
    }
    pos
}

/// Write one quint group: the three low-bit values with the packed quint
/// field's bits between them.
fn put_quint_group(
    bb: &mut BlockBuilder,
    weights: bool,
    n: u32,
    m: [u32; 3],
    packed: u32,
    pos: u32,
    Ghost(o): Ghost<BlockBuilder>,
    Ghost(fs): Ghost<Seq<(u32, u32)>>,
    Ghost(start): Ghost<int>,
) -> (next: u32)
    requires
        n <= 8,
        pos <= 0x8000,
        start >= 0,
        pos == start + fields_len(fs),
        or_fields(*old(bb), o, fs, weights, start),
    ensures
        next == pos + 3 * n + 7,
        next == start + fields_len(fs + quint_fields(m[0], m[1], m[2], packed, n)),
        or_fields(*final(bb), o, fs + quint_fields(m[0], m[1], m[2], packed, n), weights, start),
{
    let ghost mut f = fs;
    let mut pos = pos;
    let ghost b0 = *bb;
    pos = put_bits(bb, weights, n, m[0], pos);
    proof {
        lemma_or_step(o, b0, *bb, f, m[0], n, weights, start);
        f = f.push((m[0], n));
    }
    let ghost b0 = *bb;
    pos = put_bits(bb, weights, 3, packed & 7, pos);
    proof {
        lemma_or_step(o, b0, *bb, f, packed & 7, 3, weights, start);
        f = f.push((packed & 7, 3));
    }
    let ghost b0 = *bb;
    pos = put_bits(bb, weights, n, m[1], pos);
    proof {
        lemma_or_step(o, b0, *bb, f, m[1], n, weights, start);
        f = f.push((m[1], n));
    }
    let ghost b0 = *bb;
    pos = put_bits(bb, weights, 2, (packed >> 3u32) & 3, pos);
    proof {
        lemma_or_step(o, b0, *bb, f, (packed >> 3u32) & 3, 2, weights, start);
        f = f.push(((packed >> 3u32) & 3, 2));
    }
    let ghost b0 = *bb;
    pos = put_bits(bb, weights, n, m[2], pos);
    proof {
        lemma_or_step(o, b0, *bb, f, m[2], n, weights, start);
        f = f.push((m[2], n));
    }
    let ghost b0 = *bb;
    pos = put_bits(bb, weights, 2, (packed >> 5u32) & 3, pos);
    proof {
        lemma_or_step(o, b0, *bb, f, (packed >> 5u32) & 3, 2, weights, start);
        f = f.push(((packed >> 5u32) & 3, 2));
    }
    proof {
        assert(f =~= fs + quint_fields(m[0], m[1], m[2], packed, n));
    }
    pos
}

/// Lay the integer sequence `seq` (each value in `range`) out in bounded
/// integer-sequence form from stream position `start`: the colour stream
/// (block bits upward) or the weight stream (block bits downward from
/// 127). Trit values go in groups of five (low bits of each value, the
/// packed trit byte split between them), quint values in groups of three;
/// a short last group is padded with zeros.
fn pack_ise(bb: &mut BlockBuilder, weights: bool, start: u32, seq: &[u32], range: IseRange)
    requires
        start <= 128,
        range.bits <= 8,
        seq@.len() <= 256,
    ensures
        or_fields(*final(bb), *old(bb), ise_fields(seq@, range), weights, start as int),
{
    let ghost o = *bb;
    let ghost mut fs: Seq<(u32, u32)> = seq![];
    let ghost mut g: int = 0;
    proof {
        crate::bitfacts::lemma_block_bits();
        assert(or_fields(*bb, o, fs, weights, start as int));
    }
    let n = range.bits as u32;
    let len = seq.len();
    let mut pos = start;
    let mut i: usize = 0;
    if range.trits {
        while i < len
            invariant
                n <= 8,
                n == range.bits as u32,
                range.trits,
                start <= 128,
                len == seq@.len(),
                len <= 256,
                i <= len + 4,
                pos <= 128 + 8 * (i as int) * 2,
                i == 5 * g,
                g > 0 ==> 5 * (g - 1) < len,
                fs == ise_fields_upto(seq@, range, g),
                pos == start + fields_len(fs),
                or_fields(*bb, o, fs, weights, start as int),
            decreases len + 5 - i,
        {
            let mut trits = [0u32; 5];
            let mut m = [0u32; 5];
            let mut j: usize = 0;
            while j < 5
                invariant
                    n <= 8,
                    len == seq@.len(),
                    len <= 256,
                    i <= len + 4,
                    j <= 5,
                    forall|k: int| 0 <= k < j ==> #[trigger] trits[k] == ise_hi(seq@, n, i + k),
                    forall|k: int| 0 <= k < j ==> #[trigger] m[k] == ise_lo(seq@, n, i + k),
                    forall|k: int| j <= k < 5 ==> #[trigger] trits[k] == 0,
                    forall|k: int| j <= k < 5 ==> #[trigger] m[k] == 0,
                decreases 5 - j,
            {
                if i + j < len {
                    let v = seq[i + j];
                    trits[j] = v >> n;
                    m[j] = low_bits(v, n);
                }

                j += 1;
            }
            let packed = pack_trits(&trits);
            proof {
                lemma_first_trit_code_ext(
                    trits,
                    [ise_hi(seq@, n, i as int), ise_hi(seq@, n, i + 1), ise_hi(seq@, n, i + 2), ise_hi(seq@, n, i + 3), ise_hi(seq@, n, i + 4)],
                    0,
                );
            }
            pos = put_trit_group(bb, weights, n, m, packed, pos, Ghost(o), Ghost(fs), Ghost(start as int));
            proof {
                assert(trit_group(seq@, n, 5 * g) == trit_fields(m[0], m[1], m[2], m[3], m[4], packed, n));
                fs = fs + trit_group(seq@, n, 5 * g);
                g = g + 1;
            }
            i += 5;
        }
    } else if range.quints {
        while i < len
            invariant
                n <= 8,
                n == range.bits as u32,
                !range.trits && range.quints,
                start <= 128,
                len == seq@.len(),
                len <= 256,
                i <= len + 2,
                pos <= 128 + 8 * (i as int) * 2,
                i == 3 * g,
                g > 0 ==> 3 * (g - 1) < len,
                fs == ise_fields_upto(seq@, range, g),
                pos == start + fields_len(fs),
                or_fields(*bb, o, fs, weights, start as int),
            decreases len + 3 - i,
        {
            let mut quints = [0u32; 3];
            let mut m = [0u32; 3];
            let mut j: usize = 0;
            while j < 3
                invariant
                    n <= 8,
                    len == seq@.len(),
                    len <= 256,
                    i <= len + 2,
                    j <= 3,
                    forall|k: int| 0 <= k < j ==> #[trigger] quints[k] == ise_hi(seq@, n, i + k),
                    forall|k: int| 0 <= k < j ==> #[trigger] m[k] == ise_lo(seq@, n, i + k),
                    forall|k: int| j <= k < 3 ==> #[trigger] quints[k] == 0,
                    forall|k: int| j <= k < 3 ==> #[trigger] m[k] == 0,
                decreases 3 - j,
            {
                if i + j < len {
                    let v = seq[i + j];
                    quints[j] = v >> n;
                    m[j] = low_bits(v, n);
                }

                j += 1;
            }
            let packed = pack_quints(&quints);
            proof {
                lemma_first_quint_code_ext(quints, [ise_hi(seq@, n, i as int), ise_hi(seq@, n, i + 1), ise_hi(seq@, n, i + 2)], 0);
            }
            pos = put_quint_group(bb, weights, n, m, packed, pos, Ghost(o), Ghost(fs), Ghost(start as int));
            proof {
                assert(quint_group(seq@, n, 3 * g) == quint_fields(m[0], m[1], m[2], packed, n));
                fs = fs + quint_group(seq@, n, 3 * g);
                g = g + 1;
            }
            i += 3;
        }
    } else {
        while i < len
            invariant
                n <= 8,
                n == range.bits as u32,
                !range.trits && !range.quints,
                start <= 128,
                len == seq@.len(),
                len <= 256,
                i <= len,
                pos <= 128 + 8 * (i as int),
                i == g,
                fs == ise_fields_upto(seq@, range, g),
                pos == start + fields_len(fs),
                or_fields(*bb, o, fs, weights, start as int),
            decreases len - i,
        {
            let v = seq[i];
            let ghost b0 = *bb;
            pos = put_bits(bb, weights, n, v, pos);
            proof {
                lemma_or_step(o, b0, *bb, fs, v, n, weights, start as int);
                fs = fs.push((v, n));
            }
            proof {
                g = g + 1;
            }
            i += 1;
        }
    }
    proof {
        if range.trits {
            assert(g == (len + 4) as int / 5);
        } else if range.quints {
            assert(g == (len + 2) as int / 3);
        }
    }
}

// ---- Block modes, quantizers ----------------------------------------------------------

/// A normal block mode as the encoder looks it up: weight grid, weight
/// range (trits, quints, bits), dual plane, and its 11-bit field.
pub type ModeEntry = (u32, u32, bool, bool, u8, bool, u32);

/// The table entries of the normal block modes among the mode fields
/// below `m`, in ascending order of the field.
pub open spec fn mode_entries(m: nat) -> Seq<ModeEntry>
    decreases m,
{
    if m == 0 {
        Seq::empty()
    } else {
        let prev = mode_entries((m - 1) as nat);
        match block_mode_spec((m - 1) as u32) {
            ModeClass::Normal(bm) => prev.push(
                (bm.weight_w, bm.weight_h, bm.range.trits, bm.range.quints, bm.range.bits, bm.dual_plane, (m - 1) as u32),
            ),
            _ => prev,
        }
    }
}

/// Every normal block mode, in ascending order of the mode field, as the
/// decoder reads the field.
fn block_mode_table() -> (t: Vec<ModeEntry>)
    ensures
        t@ == mode_entries(2048),
        forall|i: int| 0 <= i < t@.len() ==> (#[trigger] t@[i]).6 < 2048,
{
    let mut out: Vec<ModeEntry> = Vec::new();
    let mut m: u32 = 0;
    while m < 2048
        invariant
            m <= 2048,
            out@ == mode_entries(m as nat),
            forall|i: int| 0 <= i < out@.len() ==> (#[trigger] out@[i]).6 < m,
        decreases 2048 - m,
    {
        if let ModeClass::Normal(bm) = decode_block_mode(m) {
            out.push((bm.weight_w, bm.weight_h, bm.range.trits, bm.range.quints, bm.range.bits, bm.dual_plane, m));
        }
        m += 1;
    }
    out
}

/// Table entry `e` has grid `ww × wh`, weight range `range` and the plane count.
pub open spec fn entry_matches(e: ModeEntry, ww: u32, wh: u32, range: WeightRange, dual_plane: bool) -> bool {
    e.0 == ww && e.1 == wh && e.2 == range.trits && e.3 == range.quints && e.4 == range.bits && e.5 == dual_plane
}

/// The lowest mode field realising grid `ww × wh`, weight range `range`
/// and the plane count, if any.
fn find_block_mode(table: &Vec<ModeEntry>, ww: u32, wh: u32, range: WeightRange, dual_plane: bool) -> (r: Option<u32>)
    requires
        forall|i: int| 0 <= i < table@.len() ==> (#[trigger] table@[i]).6 < 2048,
    ensures
        r matches Some(m) ==> m < 2048,
        r is Some <==> exists|i: int| 0 <= i < table@.len() && entry_matches(#[trigger] table@[i], ww, wh, range, dual_plane),
        r matches Some(m) ==> exists|i: int|
            0 <= i < table@.len() && entry_matches(#[trigger] table@[i], ww, wh, range, dual_plane) && table@[i].6 == m
                && forall|k: int| 0 <= k < i ==> !entry_matches(#[trigger] table@[k], ww, wh, range, dual_plane),
{
    let mut i: usize = 0;
    while i < table.len()
        invariant
            i <= table@.len(),
            forall|k: int| 0 <= k < table@.len() ==> (#[trigger] table@[k]).6 < 2048,
            forall|k: int| 0 <= k < i ==> !entry_matches(#[trigger] table@[k], ww, wh, range, dual_plane),
        decreases table.len() - i,
    {
        let e = table[i];
        if e.0 == ww && e.1 == wh && e.2 == range.trits && e.3 == range.quints && e.4 == range.bits && e.5 == dual_plane {
            return Some(e.6);
        }
        i += 1;
    }
    None
}

/// `|a - b|`.
fn abs_diff_u32(a: u32, b: u32) -> (d: u32)
    ensures
        d as int == if a >= b { a - b } else { b - a },
{
    if a >= b {
        a - b
    } else {
        b - a
    }
}

/// The index of `range` whose unquantized colour is nearest `value`
/// (the lowest on ties).
fn quantize_color(value: u32, range: IseRange) -> (q: u32)
    requires
        1 <= range.bits <= 8,
    ensures
        q == nearest_colour(value, range),
        q <= range.max,
        forall|k: u32| k <= range.max ==> abs_int(unquant_color_spec(q, range) - value) <= abs_int(
            #[trigger] unquant_color_spec(k, range) - value,
        ),
        forall|k: u32| k < q ==> abs_int(unquant_color_spec(q, range) - value) < abs_int(
            #[trigger] unquant_color_spec(k, range) - value,
        ),
{
    let mut best: u32 = 0;
    let mut best_err: u32 = u32::MAX;
    let mut q: u64 = 0;
    while q <= range.max as u64
        invariant_except_break
            q == 0 ==> best_err == u32::MAX && best == 0,
            q > 0 ==> best < q && best_err == abs_int(unquant_color_spec(best, range) - value),
        invariant
            best <= range.max,
            1 <= range.bits <= 8,
            q <= range.max as u64 + 1,
            best_err == u32::MAX || best_err == abs_int(unquant_color_spec(best, range) - value),
            forall|k: u32| k < q ==> best_err <= abs_int(#[trigger] unquant_color_spec(k, range) - value),
            forall|k: u32| k < best ==> best_err < abs_int(#[trigger] unquant_color_spec(k, range) - value),
        ensures
            best <= range.max,
            best_err == abs_int(unquant_color_spec(best, range) - value),
            forall|k: u32| k <= range.max ==> best_err <= abs_int(#[trigger] unquant_color_spec(k, range) - value),
            forall|k: u32| k < best ==> best_err < abs_int(#[trigger] unquant_color_spec(k, range) - value),
        decreases range.max as u64 + 1 - q,
    {
        let u = unquant_color(q as u32, range);
        let err = abs_diff_u32(u, value);
        if err < best_err {
            best_err = err;
            best = q as u32;
            if err == 0 {
                break;
            }
        }
        q += 1;
    }
    proof {
        lemma_nearest_colour(best, value, range);
    }
    best
}

/// The index of `range` whose unquantized weight is nearest `value`
/// (the lowest on ties).
fn quantize_weight(value: u32, range: WeightRange) -> (q: u32)
    requires
        range.bits <= 5,
    ensures
        q == nearest_weight(value, range),
        q <= range.max,
        forall|k: u32| k <= range.max ==> abs_int(unquant_weight_spec(q, range) - value) <= abs_int(
            #[trigger] unquant_weight_spec(k, range) - value,
        ),
        forall|k: u32| k < q ==> abs_int(unquant_weight_spec(q, range) - value) < abs_int(
            #[trigger] unquant_weight_spec(k, range) - value,
        ),
{
    let mut best: u32 = 0;
    let mut best_err: u32 = u32::MAX;
    let mut q: u64 = 0;
    while q <= range.max as u64
        invariant_except_break
            q == 0 ==> best_err == u32::MAX && best == 0,
            q > 0 ==> best < q && best_err == abs_int(unquant_weight_spec(best, range) - value),
        invariant
            best <= range.max,
            range.bits <= 5,
            q <= range.max as u64 + 1,
            best_err == u32::MAX || best_err == abs_int(unquant_weight_spec(best, range) - value),
            forall|k: u32| k < q ==> best_err <= abs_int(#[trigger] unquant_weight_spec(k, range) - value),
            forall|k: u32| k < best ==> best_err < abs_int(#[trigger] unquant_weight_spec(k, range) - value),
        ensures
            best <= range.max,
            best_err == abs_int(unquant_weight_spec(best, range) - value),
            forall|k: u32| k <= range.max ==> best_err <= abs_int(#[trigger] unquant_weight_spec(k, range) - value),
            forall|k: u32| k < best ==> best_err < abs_int(#[trigger] unquant_weight_spec(k, range) - value),
        decreases range.max as u64 + 1 - q,
    {
        let u = unquant_weight(q as u32, range);
        let err = abs_diff_u32(u, value);
        if err < best_err {
            best_err = err;
            best = q as u32;
            if err == 0 {
                break;
            }
        }
        q += 1;
    }
    proof {
        lemma_nearest_weight(best, value, range);
    }
    best
}

// ---- Void extent ------------------------------------------------------------------------

/// The void-extent block of the LDR colour `c`: the void-extent mode marker
/// with the LDR flag clear, every extent coordinate all ones (no extent
/// constraint), and each channel as the UNORM16 value `c * 257`.
pub open spec fn void_block(c: [u8; 4]) -> Seq<u8> {
    seq![0xFCu8, 0xFDu8, 0xFFu8, 0xFFu8, 0xFFu8, 0xFFu8, 0xFFu8, 0xFFu8, c[0], c[0], c[1], c[1], c[2], c[2], c[3], c[3]]
}

/// [`void_block`].
fn encode_void_extent(c: [u8; 4]) -> (b: [u8; 16])
    ensures
        b@ == void_block(c),
{
    let b = [0xFCu8, 0xFD, 0xFF, 0xFF, 0xFF, 0xFF, 0xFF, 0xFF, c[0], c[0], c[1], c[1], c[2], c[2], c[3], c[3]];
    assert(b@ =~= void_block(c));
    b
}

// ---- Weight grid, candidates, error ------------------------------------------------------

/// One halving step of a weight grid: the larger axis (the width on ties)
/// halves, never below 2.
pub open spec fn grid_step(gw: u32, gh: u32) -> (u32, u32) {
    if gw >= gh {
        (if gw / 2 > 2 {
            gw / 2
        } else {
            2
        }, gh)
    } else {
        (gw, if gh / 2 > 2 {
            gh / 2
        } else {
            2
        })
    }
}

/// The grid `gw × gh` halved step by step until at most 36 points remain.
pub open spec fn shrink_grid(gw: u32, gh: u32) -> (u32, u32)
    decreases gw + gh,
{
    if gw * gh > 36 {
        proof {
            if gw <= 2 && gh <= 2 {
                assert(gw * gh <= 4) by (nonlinear_arith)
                    requires
                        gw <= 2,
                        gh <= 2,
                ;
            }
        }
        shrink_grid(grid_step(gw, gh).0, grid_step(gw, gh).1)
    } else {
        (gw, gh)
    }
}

/// The weight grid for a footprint: start from the footprint and halve the
/// larger axis (never below 2) until at most 36 grid points remain.
fn choose_weight_grid(bw: u32, bh: u32) -> (g: (u32, u32))
    requires
        2 <= bw <= 12,
        2 <= bh <= 12,
    ensures
        2 <= g.0 <= bw,
        2 <= g.1 <= bh,
        g.0 * g.1 <= 36,
        g == shrink_grid(bw, bh),
{
    let mut gw = bw;
    let mut gh = bh;
    assert(gw * gh <= 144) by (nonlinear_arith)
        requires
            gw <= 12,
            gh <= 12,
    ;
    while gw * gh > 36
        invariant
            2 <= gw <= bw,
            2 <= gh <= bh,
            bw <= 12,
            bh <= 12,
            gw * gh <= 144,
            shrink_grid(gw, gh) == shrink_grid(bw, bh),
        decreases gw + gh,
    {
        if gw >= gh {
            gw = if gw / 2 > 2 {
                gw / 2
            } else {
                2
            };
        } else {
            gh = if gh / 2 > 2 {
                gh / 2
            } else {
                2
            };
        }
        assert(gw * gh <= 144) by (nonlinear_arith)
            requires
                gw <= 12,
                gh <= 12,
        ;
    }
    (gw, gh)
}

/// Weight ranges to try, finest first: `(trits, quints, bits)`.
pub const WEIGHT_CANDIDATES: [(bool, bool, u8); 6] = [
    (false, false, 3),
    (true, false, 1),
    (false, false, 2),
    (true, false, 0),
    (false, false, 1),
    (false, true, 0),
];

/// Sum of absolute channel differences of two texels.
pub open spec fn texel_sad(a: [u8; 4], b: [u8; 4]) -> int {
    abs_int(a[0] - b[0]) + abs_int(a[1] - b[1]) + abs_int(a[2] - b[2]) + abs_int(a[3] - b[3])
}

/// `|x|`.
pub open spec fn abs_int(x: int) -> int {
    if x < 0 {
        -x
    } else {
        x
    }
}

/// Sum of [`texel_sad`] over the first `n` texels of `src` against
/// `dec` (the error colour where `dec` is shorter).
pub open spec fn sad_upto(dec: Seq<[u8; 4]>, src: Seq<[u8; 4]>, n: int) -> int
    decreases n,
{
    if n <= 0 {
        0
    } else {
        sad_upto(dec, src, n - 1) + texel_sad(if n - 1 < dec.len() { dec[n - 1] } else { ERROR_COLOR }, src[n - 1])
    }
}

/// Sum of absolute RGBA differences between the decoded `candidate` and
/// the source texels.
pub fn block_sad(candidate: &[u8; 16], texels: &[[u8; 4]], bw: u32, bh: u32) -> (s: u64)
    requires
        bw * bh <= 144,
        texels@.len() == bw * bh,
    ensures
        s == sad_upto(astc_texels(candidate@, bw, bh), texels@, texels@.len() as int),
{
    let dec = decode_astc_ldr_block(candidate, bw, bh);
    let mut sad: u64 = 0;
    let mut i: usize = 0;
    while i < texels.len()
        invariant
            texels@.len() <= 144,
            i <= texels@.len(),
            sad <= 1020 * i,
            sad == sad_upto(dec@, texels@, i as int),
        decreases texels.len() - i,
    {
        let d = if i < dec.len() {
            dec[i]
        } else {
            ERROR_COLOR
        };
        let t = texels[i];
        let acc: u64 = abs_diff_u32(d[0] as u32, t[0] as u32) as u64 + abs_diff_u32(d[1] as u32, t[1] as u32) as u64
            + abs_diff_u32(d[2] as u32, t[2] as u32) as u64 + abs_diff_u32(d[3] as u32, t[3] as u32) as u64;
        assert(acc == texel_sad(d, t));
        sad = sad + acc;
        i += 1;
    }
    sad
}

// ---- Fitting weights ------------------------------------------------------------------

/// The texel span `[lo, hi)` that grid point `g` of `gs` covers along an
/// axis of `b` texels.
fn cell_span(g: u32, gs: u32, b: u32) -> (r: (u32, u32))
    requires
        g < gs,
        2 <= gs <= b,
        b <= 12,
    ensures
        r.0 < r.1 <= b,
        r.0 == g * b / (gs as int),
        r.1 == if (g + 1) * b / (gs as int) > r.0 + 1 {
            if (g + 1) * b / (gs as int) < b {
                (g + 1) * b / (gs as int)
            } else {
                b as int
            }
        } else {
            r.0 + 1
        },
{
    assert((g + 1) * b <= 144) by (nonlinear_arith)
        requires
            g < gs,
            b <= 12,
            gs <= 12,
    ;
    let ghost q = (g * b) / (gs as int);
    proof {
        vstd::arithmetic::div_mod::lemma_fundamental_div_mod((g * b) as int, gs as int);
        vstd::arithmetic::div_mod::lemma_mod_bound((g * b) as int, gs as int);
        assert((g as int) * (b as int) < (gs as int) * (b as int)) by (nonlinear_arith)
            requires
                g < gs,
                b >= 2,
        ;
        assert((gs as int) * q < (gs as int) * (b as int));
        vstd::arithmetic::mul::lemma_mul_strict_inequality_converse(q, b as int, gs as int);
        assert(q < b);
    }
    let x0 = g * b / gs;
    let x1a = (g + 1) * b / gs;
    let x1b = if x1a > x0 + 1 {
        x1a
    } else {
        x0 + 1
    };
    let x1 = if x1b < b {
        x1b
    } else {
        b
    };
    (x0, x1)
}

/// Rust's truncating quotient of `x` by `y`.
fn trunc_div(x: i64, y: i64) -> (q: i64)
    requires
        y != 0,
        -0x10_0000_0000_0000 <= x <= 0x10_0000_0000_0000,
        -0x10_0000_0000_0000 <= y <= 0x10_0000_0000_0000,
    ensures
        -0x10_0000_0000_0000 <= q <= 0x10_0000_0000_0000,
        -(if x < 0 { -x } else { x as int }) <= q <= (if x < 0 { -x } else { x as int }),
        q == if (x < 0) != (y < 0) {
            -(abs_int(x as int) / abs_int(y as int))
        } else {
            abs_int(x as int) / abs_int(y as int)
        },
{
    let ax: i64 = if x < 0 {
        -x
    } else {
        x
    };
    let ay: i64 = if y < 0 {
        -y
    } else {
        y
    };
    assert(ax / ay <= ax) by (nonlinear_arith)
        requires
            ax >= 0,
            ay >= 1,
    ;
    let q = ax / ay;
    if (x < 0) != (y < 0) {
        -q
    } else {
        q
    }
}

/// `v` held to `0..=64`.
fn clamp64(v: i64) -> (w: u32)
    ensures
        w <= 64,
        w == if v < 0 {
            0
        } else if v > 64 {
            64
        } else {
            v
        },
{
    if v < 0 {
        0
    } else if v > 64 {
        64
    } else {
        v as u32
    }
}

/// Whether every channel value lies in `0..=hi`.
pub open spec fn in_range4(a: [i64; 4], hi: int) -> bool {
    forall|c: int| 0 <= c < 4 ==> 0 <= #[trigger] a[c] <= hi
}

/// Truncating division, as `i64` division rounds.
pub open spec fn trunc_quot(x: int, y: int) -> int {
    if (x < 0) != (y < 0) {
        -(abs_int(x) / abs_int(y))
    } else {
        abs_int(x) / abs_int(y)
    }
}

/// `v` held to `0..=64`.
pub open spec fn clamp_w(v: int) -> int {
    if v < 0 {
        0
    } else if v > 64 {
        64
    } else {
        v
    }
}

/// Sum over the first `n` channels of the projection of `avg` (widened to
/// 16 bits) onto the segment `e0`→`e1`, unnormalised.
pub open spec fn proj_num(avg: [i64; 4], e0: [i64; 4], e1: [i64; 4], n: int) -> int
    decreases n,
{
    if n <= 0 {
        0
    } else {
        proj_num(avg, e0, e1, n - 1) + (avg[n - 1] * 257 - e0[n - 1]) * (e1[n - 1] - e0[n - 1])
    }
}

/// Squared length over the first `n` channels of the segment `e0`→`e1`.
pub open spec fn proj_den(e0: [i64; 4], e1: [i64; 4], n: int) -> int
    decreases n,
{
    if n <= 0 {
        0
    } else {
        proj_den(e0, e1, n - 1) + (e1[n - 1] - e0[n - 1]) * (e1[n - 1] - e0[n - 1])
    }
}

/// The 0..=64 weight of `avg` between `e0` and `e1` over the first
/// `channels` channels: its rounded projection, 0 for a degenerate segment.
pub open spec fn weight_of(avg: [i64; 4], e0: [i64; 4], e1: [i64; 4], channels: int) -> int {
    let d = proj_den(e0, e1, channels);
    if d == 0 {
        0
    } else {
        clamp_w(trunc_quot(proj_num(avg, e0, e1, channels) * 64 + d / 2, d))
    }
}

/// The 0..=64 weight of channel `c` of `avg` alone between `e0` and `e1`.
pub open spec fn channel_weight_of(avg: [i64; 4], e0: [i64; 4], e1: [i64; 4], c: int) -> int {
    let da = e1[c] - e0[c];
    let pa = avg[c] * 257 - e0[c];
    if da == 0 {
        0
    } else {
        clamp_w(trunc_quot(pa * 64 + trunc_quot(da, 2), da))
    }
}

/// The 0..=64 weight that places `avg` best on the line from `e0` to `e1`
/// (16-bit endpoints), over the first `channels` channels: the rounded
/// projection, held to the segment.
#[verifier::spinoff_prover]
fn project_weight(avg: [i64; 4], e0: [i64; 4], e1: [i64; 4], channels: usize) -> (w: u32)
    requires
        channels <= 4,
        in_range4(avg, 255),
        in_range4(e0, 0xffff),
        in_range4(e1, 0xffff),
    ensures
        w <= 64,
        w == weight_of(avg, e0, e1, channels as int),
{
    let mut num: i64 = 0;
    let mut den: i64 = 0;
    let mut c: usize = 0;
    while c < channels
        invariant
            c <= channels,
            channels <= 4,
            in_range4(avg, 255),
            in_range4(e0, 0xffff),
            in_range4(e1, 0xffff),
            -0x1_0000_0000 * (c as int) <= num <= 0x1_0000_0000 * (c as int),
            0 <= den <= 0x1_0000_0000 * (c as int),
            num == proj_num(avg, e0, e1, c as int),
            den == proj_den(e0, e1, c as int),
        decreases channels - c,
    {
        let d = e1[c] - e0[c];
        let pj = avg[c] * 257 - e0[c];
        assert(-0x1_0000_0000 <= pj * d <= 0x1_0000_0000 && 0 <= d * d <= 0x1_0000_0000) by (nonlinear_arith)
            requires
                -0xffff <= d <= 0xffff,
                -0xffff <= pj <= 0xffff,
        ;
        num = num + pj * d;
        den = den + d * d;
        c += 1;
    }
    if den == 0 {
        0
    } else {
        clamp64(trunc_div(num * 64 + den / 2, den))
    }
}

/// The 0..=64 weight of the single channel `c` of `avg` between `e0` and `e1`.
#[verifier::spinoff_prover]
fn project_channel(avg: [i64; 4], e0: [i64; 4], e1: [i64; 4], c: usize) -> (w: u32)
    requires
        c < 4,
        in_range4(avg, 255),
        in_range4(e0, 0xffff),
        in_range4(e1, 0xffff),
    ensures
        w <= 64,
        w == channel_weight_of(avg, e0, e1, c as int),
{
    let da = e1[c] - e0[c];
    let pa = avg[c] * 257 - e0[c];
    if da == 0 {
        0
    } else {
        clamp64(trunc_div(pa * 64 + trunc_div(da, 2), da))
    }
}

/// Texel `(x, y)` counts toward its cell's mean: always without
/// `filter`, else when it lies in partition `p`.
pub open spec fn cell_takes(part: Seq<u8>, bw: u32, x: int, y: int, filter: bool, p: u8) -> bool {
    !filter || part[y * bw + x] == p
}

/// Channel `c` of texel `(x, y)`, or 1 for `c == 4` (to count texels).
pub open spec fn cell_val(t: Seq<[u8; 4]>, bw: u32, x: int, y: int, c: int) -> int {
    if c < 4 {
        t[y * bw + x][c] as int
    } else {
        1
    }
}

/// Sum of [`cell_val`] over the taken texels of row `y` from `x0` up to `x`.
pub open spec fn row_sum(t: Seq<[u8; 4]>, part: Seq<u8>, bw: u32, y: int, x0: int, x: int, filter: bool, p: u8, c: int) -> int
    decreases x - x0,
{
    if x <= x0 {
        0
    } else {
        row_sum(t, part, bw, y, x0, x - 1, filter, p, c) + if cell_takes(part, bw, x - 1, y, filter, p) {
            cell_val(t, bw, x - 1, y, c)
        } else {
            0
        }
    }
}

/// Sum of [`cell_val`] over the taken texels of rows `y0` up to `y`,
/// columns `x0` up to `x1`.
pub open spec fn rect_sum(t: Seq<[u8; 4]>, part: Seq<u8>, bw: u32, y0: int, y: int, x0: int, x1: int, filter: bool, p: u8, c: int) -> int
    decreases y - y0,
{
    if y <= y0 {
        0
    } else {
        rect_sum(t, part, bw, y0, y - 1, x0, x1, filter, p, c) + row_sum(t, part, bw, y - 1, x0, x1, filter, p, c)
    }
}

/// Channel `c` of the mean colour of the cell `[x0, x1) × [y0, y1)`: of its
/// texels in partition `p` with `only` when there are any, else of all of
/// them.
pub open spec fn cell_mean(t: Seq<[u8; 4]>, part: Seq<u8>, bw: u32, x0: int, x1: int, y0: int, y1: int, only: bool, p: u8, c: int) -> int {
    let f = only && rect_sum(t, part, bw, y0, y1, x0, x1, true, p, 4) > 0;
    let n = rect_sum(t, part, bw, y0, y1, x0, x1, f, p, 4);
    rect_sum(t, part, bw, y0, y1, x0, x1, f, p, c) / (if n > 0 { n } else { 1 })
}

/// The sums of the taken texels of the cell `[x0, x1) × [y0, y1)` and
/// their count.
#[verifier::spinoff_prover]
fn cell_sums(texels: &[[u8; 4]], part: &Vec<u8>, bw: u32, bh: u32, x0: u32, x1: u32, y0: u32, y1: u32, filter: bool, p: u8) -> (r: ([i64; 4], i64))
    requires
        texels@.len() == bw * bh,
        part@.len() == bw * bh,
        bw <= 12,
        bh <= 12,
        x0 < x1 <= bw,
        y0 < y1 <= bh,
    ensures
        r.1 == rect_sum(texels@, part@, bw, y0 as int, y1 as int, x0 as int, x1 as int, filter, p, 4),
        0 <= r.1 <= 144,
        forall|c: int| 0 <= c < 4 ==> #[trigger] r.0[c] == rect_sum(texels@, part@, bw, y0 as int, y1 as int, x0 as int, x1 as int, filter, p, c),
        forall|c: int| 0 <= c < 4 ==> 0 <= #[trigger] r.0[c] <= 255 * r.1,
{
    let mut acc = [0i64; 4];
    let mut cnt: i64 = 0;
    let wd = x1 - x0;
    assert((y1 - y0) * wd <= 144) by (nonlinear_arith)
        requires
            y0 < y1 <= bh,
            bh <= 12,
            wd <= 12,
    ;
    let mut ty = y0;
    while ty < y1
        invariant
            texels@.len() == bw * bh,
            part@.len() == bw * bh,
            bw <= 12,
            bh <= 12,
            x0 < x1 <= bw,
            wd == x1 - x0,
            y0 <= ty <= y1,
            y1 <= bh,
            (y1 - y0) * wd <= 144,
            0 <= cnt <= (ty - y0) * wd,
            cnt == rect_sum(texels@, part@, bw, y0 as int, ty as int, x0 as int, x1 as int, filter, p, 4),
            forall|c: int| 0 <= c < 4 ==> #[trigger] acc[c] == rect_sum(texels@, part@, bw, y0 as int, ty as int, x0 as int, x1 as int, filter, p, c),
            forall|c: int| 0 <= c < 4 ==> 0 <= #[trigger] acc[c] <= 255 * cnt,
        decreases y1 - ty,
    {
        let mut tx = x0;
        let ghost cnt0 = cnt;
        let ghost acc0 = acc;
        assert((ty - y0) * wd + wd <= (y1 - y0) * wd) by (nonlinear_arith)
            requires
                ty < y1,
        ;
        while tx < x1
            invariant
                texels@.len() == bw * bh,
                part@.len() == bw * bh,
                bw <= 12,
                bh <= 12,
                x0 <= tx <= x1,
                x1 <= bw,
                y0 <= ty < y1,
                y1 <= bh,
                (ty - y0) * wd + wd <= 144,
                wd == x1 - x0,
                0 <= cnt0 <= (ty - y0) * wd,
                cnt == cnt0 + row_sum(texels@, part@, bw, ty as int, x0 as int, tx as int, filter, p, 4),
                0 <= cnt <= cnt0 + (tx - x0),
                forall|c: int| 0 <= c < 4 ==> #[trigger] acc[c] == acc0[c] + row_sum(texels@, part@, bw, ty as int, x0 as int, tx as int, filter, p, c),
                forall|c: int| 0 <= c < 4 ==> 0 <= #[trigger] acc[c] <= 255 * cnt,
            decreases x1 - tx,
        {
            assert(ty * bw + tx < bw * bh && bw * bh <= 144 && ty * bw <= 144) by (nonlinear_arith)
                requires
                    ty < bh,
                    tx < bw,
                    bw <= 12,
                    bh <= 12,
            ;
            let idx = (ty * bw + tx) as usize;
            if !filter || part[idx] == p {
                let t = texels[idx];
                acc[0] = acc[0] + t[0] as i64;
                acc[1] = acc[1] + t[1] as i64;
                acc[2] = acc[2] + t[2] as i64;
                acc[3] = acc[3] + t[3] as i64;
                cnt = cnt + 1;
            }
            proof {
                assert(cell_takes(part@, bw, tx as int, ty as int, filter, p) == (!filter || part@[idx as int] == p));
            }
            tx += 1;
        }
        assert((ty + 1 - y0) * wd == (ty - y0) * wd + wd) by (nonlinear_arith);
        ty += 1;
    }
    (acc, cnt)
}

/// Mean colour of the texels of the cell `[x0, x1) × [y0, y1)`; with
/// `only`, of those in partition `p` (all of the cell's texels when none is).
fn cell_average(texels: &[[u8; 4]], part: &Vec<u8>, bw: u32, bh: u32, x0: u32, x1: u32, y0: u32, y1: u32, only: bool, p: u8) -> (avg: [i64; 4])
    requires
        texels@.len() == bw * bh,
        part@.len() == bw * bh,
        bw <= 12,
        bh <= 12,
        x0 < x1 <= bw,
        y0 < y1 <= bh,
    ensures
        in_range4(avg, 255),
        forall|c: int| 0 <= c < 4 ==> #[trigger] avg[c] == cell_mean(texels@, part@, bw, x0 as int, x1 as int, y0 as int, y1 as int, only, p, c),
{
    let (mut acc, mut cnt) = cell_sums(texels, part, bw, bh, x0, x1, y0, y1, only, p);
    if cnt == 0 {
        let (a, c) = cell_sums(texels, part, bw, bh, x0, x1, y0, y1, false, p);
        acc = a;
        cnt = c;
    }
    let n: i64 = if cnt > 0 {
        cnt
    } else {
        1
    };
    let ghost f = only && rect_sum(texels@, part@, bw, y0 as int, y1 as int, x0 as int, x1 as int, true, p, 4) > 0;
    proof {
        assert(cnt == rect_sum(texels@, part@, bw, y0 as int, y1 as int, x0 as int, x1 as int, f, p, 4));
        assert(forall|c: int| 0 <= c < 4 ==> #[trigger] acc[c] == rect_sum(texels@, part@, bw, y0 as int, y1 as int, x0 as int, x1 as int, f, p, c));
    }
    let mut avg = [0i64; 4];
    let mut c: usize = 0;
    while c < 4
        invariant
            1 <= n <= 144,
            cnt <= n,
            0 <= cnt,
            n == (if cnt > 0 { cnt } else { 1 }),
            forall|k: int| 0 <= k < 4 ==> 0 <= #[trigger] acc[k] <= 255 * cnt,
            forall|k: int| 0 <= k < c ==> 0 <= #[trigger] avg[k] <= 255,
            forall|k: int| 0 <= k < c ==> #[trigger] avg[k] == (acc[k] as int) / (n as int),
            c <= 4,
        decreases 4 - c,
    {
        assert(acc[c as int] / n <= 255) by (nonlinear_arith)
            requires
                0 <= acc[c as int] <= 255 * cnt,
                0 <= cnt <= n,
                n >= 1,
        ;
        avg[c] = acc[c] / n;
        c += 1;
    }
    avg
}

// ---- Block layouts ----------------------------------------------------------------------

/// A realisable normal-block layout: weight grid, weight range, mode field,
/// weight-stream length and colour range.
#[derive(Clone, Copy)]
struct Layout {
    gw: u32,
    gh: u32,
    wr: WeightRange,
    mode_field: u32,
    weight_bits: u32,
    color_range: IseRange,
}

/// Whether `l` fits a `bw × bh` footprint.
spec fn layout_ok(l: Layout, bw: u32, bh: u32) -> bool {
    &&& 2 <= l.gw <= bw
    &&& 2 <= l.gh <= bh
    &&& l.gw * l.gh <= 36
    &&& l.wr.bits <= 3
    &&& l.mode_field < 2048
    &&& 24 <= l.weight_bits <= 96
    &&& 1 <= l.color_range.bits <= 8
}

/// Weight candidate `k` at grid `gw × gh` gives a layout: a block mode
/// realises it, its weight stream is 24 to 96 bits, and a colour range
/// fits `color_count` values between bit `color_start` and the weights
/// (less the two plane-selector bits with two planes).
pub open spec fn candidate_fits(
    table: Seq<ModeEntry>,
    gw: u32,
    gh: u32,
    k: int,
    dual: bool,
    color_count: u32,
    color_start: u32,
) -> bool {
    let cand = WEIGHT_CANDIDATES[k];
    let wir = ise_range_spec(cand.0, cand.1, cand.2);
    let wr = WeightRange { trits: cand.0, quints: cand.1, bits: cand.2, max: wir.max };
    let total = if dual {
        gw * gh * 2
    } else {
        gw * gh
    };
    let wb = ise_bits_for_count(wir, total as u32);
    let top = 128 - wb - (if dual {
        2int
    } else {
        0int
    });
    &&& exists|i: int| 0 <= i < table.len() && entry_matches(#[trigger] table[i], gw, gh, wr, dual)
    &&& 24 <= wb <= 96
    &&& top > color_start
    &&& pick_color_range_spec(color_count, (top - color_start) as u32) is Some
}

/// Some weight candidate gives a layout at grid `gw × gh`, or at a grid
/// further down the halving steps to `2 × 2`.
pub open spec fn grid_chain_fits(
    table: Seq<ModeEntry>,
    gw: u32,
    gh: u32,
    dual: bool,
    color_count: u32,
    color_start: u32,
) -> bool
    decreases gw + gh,
{
    ||| exists|k: int| 0 <= k < 6 && #[trigger] candidate_fits(table, gw, gh, k, dual, color_count, color_start)
    ||| !(gw <= 2 && gh <= 2) && grid_chain_fits(
        table,
        grid_step(gw, gh).0,
        grid_step(gw, gh).1,
        dual,
        color_count,
        color_start,
    )
}

/// The index of the first table entry matching grid `gw × gh`, weight
/// range `wr` and the plane count.
spec fn first_match(table: Seq<ModeEntry>, gw: u32, gh: u32, wr: WeightRange, dual: bool) -> int {
    choose|i: int|
        0 <= i < table.len() && entry_matches(table[i], gw, gh, wr, dual) && forall|k: int|
            0 <= k < i ==> !entry_matches(#[trigger] table[k], gw, gh, wr, dual)
}

/// The layout weight candidate `k` gives at grid `gw × gh` when it fits.
spec fn cand_layout(table: Seq<ModeEntry>, gw: u32, gh: u32, k: int, dual: bool, color_count: u32, color_start: u32) -> Layout {
    let cand = WEIGHT_CANDIDATES[k];
    let wir = ise_range_spec(cand.0, cand.1, cand.2);
    let wr = WeightRange { trits: cand.0, quints: cand.1, bits: cand.2, max: wir.max };
    let total = if dual {
        gw * gh * 2
    } else {
        gw * gh
    };
    let wb = ise_bits_for_count(wir, total as u32);
    let top = 128 - wb - (if dual {
        2int
    } else {
        0int
    });
    Layout {
        gw,
        gh,
        wr,
        mode_field: table[first_match(table, gw, gh, wr, dual)].6,
        weight_bits: wb as u32,
        color_range: pick_color_range_spec(color_count, (top - color_start) as u32).unwrap(),
    }
}

/// The first weight candidate from `k` on that fits at grid `gw × gh`
/// (6 when none does).
spec fn first_fit_from(table: Seq<ModeEntry>, gw: u32, gh: u32, dual: bool, color_count: u32, color_start: u32, k: int) -> int
    decreases 6 - k,
{
    if k >= 6 {
        6
    } else if candidate_fits(table, gw, gh, k, dual, color_count, color_start) {
        k
    } else {
        first_fit_from(table, gw, gh, dual, color_count, color_start, k + 1)
    }
}

/// The layout the search settles on from grid `gw × gh`: the first fitting
/// candidate there, else at the next grid down.
spec fn chain_layout(table: Seq<ModeEntry>, gw: u32, gh: u32, dual: bool, color_count: u32, color_start: u32) -> Layout
    decreases gw + gh,
{
    let k = first_fit_from(table, gw, gh, dual, color_count, color_start, 0);
    if k < 6 {
        cand_layout(table, gw, gh, k, dual, color_count, color_start)
    } else if !(gw <= 2 && gh <= 2) {
        chain_layout(table, grid_step(gw, gh).0, grid_step(gw, gh).1, dual, color_count, color_start)
    } else {
        cand_layout(table, gw, gh, 0, dual, color_count, color_start)
    }
}

/// The layout weight candidate `k` gives at grid `gw × gh`, if it fits.
fn try_candidate(
    table: &Vec<ModeEntry>,
    bw: u32,
    bh: u32,
    gw: u32,
    gh: u32,
    k: usize,
    dual: bool,
    color_count: u32,
    color_start: u32,
) -> (r: Option<Layout>)
    requires
        4 <= bw <= 12,
        4 <= bh <= 12,
        2 <= gw <= bw,
        2 <= gh <= bh,
        gw * gh <= 36,
        k < 6,
        color_count <= 24,
        color_start <= 29,
        forall|i: int| 0 <= i < table@.len() ==> (#[trigger] table@[i]).6 < 2048,
    ensures
        r is Some <==> candidate_fits(table@, gw, gh, k as int, dual, color_count, color_start),
        r matches Some(l) ==> layout_ok(l, bw, bh) && l.gw == gw && l.gh == gh,
        r matches Some(l) ==> l == cand_layout(table@, gw, gh, k as int, dual, color_count, color_start),
{
    let cand = WEIGHT_CANDIDATES[k];
    let wir = ise_range(cand.0, cand.1, cand.2);
    let wr = WeightRange { trits: cand.0, quints: cand.1, bits: cand.2, max: wir.max };
    let found = find_block_mode(table, gw, gh, wr, dual);
    if let Some(mode_field) = found {
        let total = if dual {
            gw * gh * 2
        } else {
            gw * gh
        };
        let weight_bits = wir.bits_for_count(total);
        if 24 <= weight_bits && weight_bits <= 96 {
            let config_below = 128 - weight_bits;
            let top = if dual {
                config_below - 2
            } else {
                config_below
            };
            if top > color_start {
                if let Some(color_range) = pick_color_range(color_count, top - color_start) {
                    return Some(Layout { gw, gh, wr, mode_field, weight_bits, color_range });
                }
            }
        }
    }
    None
}

/// The first layout, from the footprint's weight grid halved as needed and
/// the weight ranges finest first, whose weight stream is 24 to 96 bits
/// and leaves room for `color_count` colour values from block bit
/// `color_start` (below the two plane-selector bits with two planes).
fn pick_layout(table: &Vec<ModeEntry>, bw: u32, bh: u32, dual: bool, color_count: u32, color_start: u32) -> (r: Option<Layout>)
    requires
        4 <= bw <= 12,
        4 <= bh <= 12,
        color_count <= 24,
        color_start <= 29,
        forall|i: int| 0 <= i < table@.len() ==> (#[trigger] table@[i]).6 < 2048,
    ensures
        r matches Some(l) ==> layout_ok(l, bw, bh),
        r matches Some(l) ==> l == chain_layout(table@, shrink_grid(bw, bh).0, shrink_grid(bw, bh).1, dual, color_count, color_start),
        r is Some <==> grid_chain_fits(
            table@,
            shrink_grid(bw, bh).0,
            shrink_grid(bw, bh).1,
            dual,
            color_count,
            color_start,
        ),
{
    let (mut gw, mut gh) = choose_weight_grid(bw, bh);
    loop
        invariant
            4 <= bw <= 12,
            4 <= bh <= 12,
            2 <= gw <= bw,
            2 <= gh <= bh,
            gw * gh <= 36,
            color_count <= 24,
            color_start <= 29,
            forall|i: int| 0 <= i < table@.len() ==> (#[trigger] table@[i]).6 < 2048,
            grid_chain_fits(table@, shrink_grid(bw, bh).0, shrink_grid(bw, bh).1, dual, color_count, color_start)
                == grid_chain_fits(table@, gw, gh, dual, color_count, color_start),
            chain_layout(table@, shrink_grid(bw, bh).0, shrink_grid(bw, bh).1, dual, color_count, color_start)
                == chain_layout(table@, gw, gh, dual, color_count, color_start),
        decreases gw + gh,
    {
        let mut k: usize = 0;
        while k < 6
            invariant
                4 <= bw <= 12,
                4 <= bh <= 12,
                2 <= gw <= bw,
                2 <= gh <= bh,
                gw * gh <= 36,
                color_count <= 24,
                color_start <= 29,
                forall|i: int| 0 <= i < table@.len() ==> (#[trigger] table@[i]).6 < 2048,
                k <= 6,
                forall|kk: int| 0 <= kk < k ==> !#[trigger] candidate_fits(table@, gw, gh, kk, dual, color_count, color_start),
                grid_chain_fits(table@, shrink_grid(bw, bh).0, shrink_grid(bw, bh).1, dual, color_count, color_start)
                    == grid_chain_fits(table@, gw, gh, dual, color_count, color_start),
                chain_layout(table@, shrink_grid(bw, bh).0, shrink_grid(bw, bh).1, dual, color_count, color_start)
                    == chain_layout(table@, gw, gh, dual, color_count, color_start),
                first_fit_from(table@, gw, gh, dual, color_count, color_start, 0) == first_fit_from(
                    table@,
                    gw,
                    gh,
                    dual,
                    color_count,
                    color_start,
                    k as int,
                ),
            decreases 6 - k,
        {
            let ghost kk = k as int;
            let found = try_candidate(table, bw, bh, gw, gh, k, dual, color_count, color_start);
            k += 1;
            if let Some(l) = found {
                proof {
                    assert(grid_chain_fits(table@, gw, gh, dual, color_count, color_start));
                }
                return Some(l);
            }
        }
        if gw <= 2 && gh <= 2 {
            return None;
        }
        let ghost ow = gw;
        let ghost oh = gh;
        if gw >= gh {
            gw = if gw / 2 > 2 {
                gw / 2
            } else {
                2
            };
        } else {
            gh = if gh / 2 > 2 {
                gh / 2
            } else {
                2
            };
        }
        assert(gw * gh <= 36) by (nonlinear_arith)
            requires
                ow * oh <= 36,
                2 <= gw <= ow,
                2 <= gh <= oh,
        ;
    }
}

// ---- Assembling blocks ------------------------------------------------------------------

/// Bit `j` of the block from a `w`-bit field holding `v` at bit `pos`.
pub(crate) open spec fn fbit(v: u32, pos: int, w: int, j: int) -> u64 {
    if pos <= j < pos + w && j - pos < 32 {
        ((v >> ((j - pos) as u32)) & 1u32) as u64
    } else {
        0
    }
}

proof fn lemma_set_or(o: BlockBuilder, b: BlockBuilder, pos: u32, count: u32, value: u32)
    requires
        forall|j: int|
            0 <= j < 128 ==> #[trigger] b.bit(j) == if pos <= j < pos + count && j - pos < 32 {
                o.bit(j) | (((value >> ((j - pos) as u32)) & 1u32) as u64)
            } else {
                o.bit(j)
            },
    ensures
        forall|j: int| 0 <= j < 128 ==> #[trigger] b.bit(j) == o.bit(j) | fbit(value, pos as int, count as int, j),
{
    crate::bitfacts::lemma_block_bits();
}

/// The weight range `wr` as an integer-sequence range.
spec fn weight_ise(wr: WeightRange) -> IseRange {
    IseRange { trits: wr.trits, quints: wr.quints, bits: wr.bits, max: wr.max }
}

/// Bit `j` of the header of a normal block of layout `l` with `nparts`
/// partitions: the mode field; then the colour endpoint mode (one
/// partition), or the partition count, the seed, a zero single-mode
/// selector and the colour endpoint mode.
spec fn header_bit(l: Layout, nparts: int, seed: u32, cem: u32, j: int) -> u64 {
    if nparts == 1 {
        (0u64 | fbit(l.mode_field, 0, 11, j)) | fbit(cem, 13, 4, j)
    } else {
        ((((0u64 | fbit(l.mode_field, 0, 11, j)) | fbit((nparts - 1) as u32, 11, 2, j)) | fbit(seed & 0x3ff, 13, 10, j))
            | fbit(0, 23, 2, j)) | fbit(cem, 25, 4, j)
    }
}

/// Bit `j` of the normal block of layout `l` with `nparts` partitions of
/// seed `seed` and colour endpoint mode `cem`, colour values `seq` (from
/// bit 17, or 29 with several partitions) and weights `grid` (down from
/// bit 127).
spec fn normal_block_bit(l: Layout, nparts: int, seed: u32, cem: u32, seq: Seq<u32>, grid: Seq<u32>, j: int) -> u64 {
    let start = if nparts == 1 {
        17int
    } else {
        29int
    };
    let c = if start <= j {
        fields_bit(ise_fields(seq, l.color_range), j - start)
    } else {
        0
    };
    (header_bit(l, nparts, seed, cem, j) | c) | fields_bit(ise_fields(grid, weight_ise(l.wr)), 127 - j)
}

/// The weight value of `range` nearest to `v` (the first of equals).
pub open spec fn nearest_weight(v: u32, range: WeightRange) -> u32 {
    choose|q: u32| is_nearest_weight(q, v, range)
}

/// `q` is the first weight value of `range` nearest to `v`.
pub open spec fn is_nearest_weight(q: u32, v: u32, range: WeightRange) -> bool {
    &&& q <= range.max
    &&& forall|k: u32| k <= range.max ==> abs_int(unquant_weight_spec(q, range) - v) <= abs_int(
        #[trigger] unquant_weight_spec(k, range) - v,
    )
    &&& forall|k: u32| k < q ==> abs_int(unquant_weight_spec(q, range) - v) < abs_int(
        #[trigger] unquant_weight_spec(k, range) - v,
    )
}

proof fn lemma_nearest_weight(q: u32, v: u32, range: WeightRange)
    requires
        is_nearest_weight(q, v, range),
    ensures
        q == nearest_weight(v, range),
{
    let q2 = nearest_weight(v, range);
    assert(is_nearest_weight(q2, v, range));
    if q < q2 {
        assert(abs_int(unquant_weight_spec(q2, range) - v) < abs_int(unquant_weight_spec(q, range) - v));
    } else if q2 < q {
        assert(abs_int(unquant_weight_spec(q, range) - v) < abs_int(unquant_weight_spec(q2, range) - v));
    }
}

/// The colour value of `range` nearest to `v` (the first of equals).
pub open spec fn nearest_colour(v: u32, range: IseRange) -> u32 {
    choose|q: u32| is_nearest_colour(q, v, range)
}

/// `q` is the first colour value of `range` nearest to `v`.
pub open spec fn is_nearest_colour(q: u32, v: u32, range: IseRange) -> bool {
    &&& q <= range.max
    &&& forall|k: u32| k <= range.max ==> abs_int(unquant_color_spec(q, range) - v) <= abs_int(
        #[trigger] unquant_color_spec(k, range) - v,
    )
    &&& forall|k: u32| k < q ==> abs_int(unquant_color_spec(q, range) - v) < abs_int(
        #[trigger] unquant_color_spec(k, range) - v,
    )
}

proof fn lemma_nearest_colour(q: u32, v: u32, range: IseRange)
    requires
        is_nearest_colour(q, v, range),
    ensures
        q == nearest_colour(v, range),
{
    let q2 = nearest_colour(v, range);
    assert(is_nearest_colour(q2, v, range));
    if q < q2 {
        assert(abs_int(unquant_color_spec(q2, range) - v) < abs_int(unquant_color_spec(q, range) - v));
    } else if q2 < q {
        assert(abs_int(unquant_color_spec(q, range) - v) < abs_int(unquant_color_spec(q2, range) - v));
    }
}

/// The colour values of one partition with per-channel endpoint bytes
/// `lo` and `hi`: the darker endpoint (smaller R + G + B) first, R, G and
/// B pairs, then A when `alpha`, each the nearest value of `range`.
pub open spec fn colour_group(lo: spec_fn(int) -> u8, hi: spec_fn(int) -> u8, alpha: bool, range: IseRange) -> Seq<u32> {
    let swap = lo(0) + lo(1) + lo(2) > hi(0) + hi(1) + hi(2);
    let e0 = |c: int| if swap { hi(c) } else { lo(c) };
    let e1 = |c: int| if swap { lo(c) } else { hi(c) };
    let base = seq![
        nearest_colour(e0(0) as u32, range),
        nearest_colour(e1(0) as u32, range),
        nearest_colour(e0(1) as u32, range),
        nearest_colour(e1(1) as u32, range),
        nearest_colour(e0(2) as u32, range),
        nearest_colour(e1(2) as u32, range),
    ];
    if alpha {
        base + seq![nearest_colour(e0(3) as u32, range), nearest_colour(e1(3) as u32, range)]
    } else {
        base
    }
}

/// The colour values of the first `n` partitions, whose endpoint bytes
/// are `lo(k, c)` and `hi(k, c)`.
pub open spec fn colour_values(lo: spec_fn(int, int) -> u8, hi: spec_fn(int, int) -> u8, n: int, alpha: bool, range: IseRange) -> Seq<u32>
    decreases n,
{
    if n <= 0 {
        Seq::empty()
    } else {
        colour_values(lo, hi, n - 1, alpha, range) + colour_group(|c: int| lo(n - 1, c), |c: int| hi(n - 1, c), alpha, range)
    }
}

/// Endpoint bytes that agree on the first `n` partitions give the same
/// colour values.
proof fn lemma_colour_values_agree(
    lo: spec_fn(int, int) -> u8,
    hi: spec_fn(int, int) -> u8,
    lo2: spec_fn(int, int) -> u8,
    hi2: spec_fn(int, int) -> u8,
    n: int,
    alpha: bool,
    range: IseRange,
)
    requires
        forall|k: int, c: int| 0 <= k < n && 0 <= c < 4 ==> #[trigger] lo(k, c) == lo2(k, c) && hi(k, c) == hi2(k, c),
    ensures
        colour_values(lo, hi, n, alpha, range) == colour_values(lo2, hi2, n, alpha, range),
    decreases n,
{
    if n > 0 {
        lemma_colour_values_agree(lo, hi, lo2, hi2, n - 1, alpha, range);
        assert(lo(n - 1, 0) == lo2(n - 1, 0) && hi(n - 1, 0) == hi2(n - 1, 0));
        assert(lo(n - 1, 1) == lo2(n - 1, 1) && hi(n - 1, 1) == hi2(n - 1, 1));
        assert(lo(n - 1, 2) == lo2(n - 1, 2) && hi(n - 1, 2) == hi2(n - 1, 2));
        assert(lo(n - 1, 3) == lo2(n - 1, 3) && hi(n - 1, 3) == hi2(n - 1, 3));
        assert(colour_group(|c: int| lo(n - 1, c), |c: int| hi(n - 1, c), alpha, range) =~= colour_group(
            |c: int| lo2(n - 1, c),
            |c: int| hi2(n - 1, c),
            alpha,
            range,
        ));
    }
}

/// `b` is the normal block of layout `l` whose colour values are those of
/// the endpoint bytes `lo`, `hi`, with weights of the layout's range and
/// count.
spec fn fitted_block(b: Seq<u8>, l: Layout, nparts: int, seed: u32, cem: u32, lo: spec_fn(int, int) -> u8, hi: spec_fn(int, int) -> u8) -> bool {
    exists|grid: Seq<u32>| #[trigger] normal_block_of(b, l, nparts, seed, cem, cem_colour_values(lo, hi, nparts, cem, l.color_range), grid)
}

/// [`colour_values`] for endpoint mode `cem` (alpha values with mode 12).
pub open spec fn cem_colour_values(lo: spec_fn(int, int) -> u8, hi: spec_fn(int, int) -> u8, n: int, cem: u32, range: IseRange) -> Seq<u32> {
    colour_values(lo, hi, n, cem == 12, range)
}

/// `seq` holds `count` values of at most `max`.
pub(crate) open spec fn values_within(seq: Seq<u32>, count: int, max: u32) -> bool {
    seq.len() == count && forall|k: int| 0 <= k < seq.len() ==> #[trigger] seq[k] <= max
}

/// `b` is the normal block of layout `l` (`nparts` partitions of seed
/// `seed`, endpoint mode `cem`) for some colour values and weights of
/// the layout's ranges and counts.
spec fn is_normal_block(b: Seq<u8>, l: Layout, nparts: int, seed: u32, cem: u32) -> bool {
    exists|seq: Seq<u32>, grid: Seq<u32>| #[trigger] normal_block_of(b, l, nparts, seed, cem, seq, grid)
}

/// `b` is the normal block of layout `l` with colour values `seq` and
/// weights `grid`, each of its range and count.
spec fn normal_block_of(b: Seq<u8>, l: Layout, nparts: int, seed: u32, cem: u32, seq: Seq<u32>, grid: Seq<u32>) -> bool {
    &&& values_within(seq, nparts * (if cem == 12 { 8int } else { 6int }), l.color_range.max)
    &&& values_within(grid, l.gw * l.gh, l.wr.max)
    &&& forall|j: int| 0 <= j < 128 ==> #[trigger] bit_at(b, j) == normal_block_bit(l, nparts, seed, cem, seq, grid, j)
}


/// `v` widened from 8 to 16 bits by repetition.
fn widen(v: u32) -> (w: i64)
    requires
        v <= 255,
    ensures
        0 <= w <= 0xffff,
        w == v * 257,
{
    (v * 257) as i64
}

/// The endpoint `(r, g, b, a)` whose colour values sit at `base + k` of
/// `seq` (`k` = 0, 2, 4, 6 for the first endpoint, 1, 3, 5, 7 for the
/// second), unquantized and widened; alpha 255 without alpha values.
fn endpoint16(seq: &Vec<u32>, base: usize, second: bool, alpha: bool, range: IseRange) -> (e: [i64; 4])
    requires
        (if alpha { base + 8 } else { base + 6 }) <= seq@.len(),
        seq@.len() <= 64,
        1 <= range.bits <= 8,
    ensures
        in_range4(e, 0xffff),
        ({
            let o = if second {
                1int
            } else {
                0int
            };
            &&& e[0] == unquant_color_spec(seq@[base + o], range) * 257
            &&& e[1] == unquant_color_spec(seq@[base + 2 + o], range) * 257
            &&& e[2] == unquant_color_spec(seq@[base + 4 + o], range) * 257
            &&& e[3] == if alpha {
                unquant_color_spec(seq@[base + 6 + o], range) * 257
            } else {
                255int * 257
            }
        }),
{
    let o: usize = if second {
        1
    } else {
        0
    };
    let r = widen(unquant_color(seq[base + o], range));
    let g = widen(unquant_color(seq[base + 2 + o], range));
    let b = widen(unquant_color(seq[base + 4 + o], range));
    let a = if alpha {
        widen(unquant_color(seq[base + 6 + o], range))
    } else {
        widen(255)
    };
    [r, g, b, a]
}

/// Bit `j` of the dual-plane block of layout `l`: mode field, endpoint
/// mode 12, colour values `seq` from bit 17, the plane selector 3 just
/// below the weights, and the weights `grid` (RGB and alpha per grid
/// point) down from bit 127.
spec fn dual_block_bit(l: Layout, seq: Seq<u32>, grid: Seq<u32>, j: int) -> u64 {
    let c = if 17 <= j {
        fields_bit(ise_fields(seq, l.color_range), j - 17)
    } else {
        0
    };
    (((((0u64 | fbit(l.mode_field, 0, 11, j)) | fbit(12, 13, 4, j)) | c) | fbit(3, 128 - l.weight_bits - 2, 2, j))
        | fields_bit(ise_fields(grid, weight_ise(l.wr)), 127 - j))
}

/// `b` is the dual-plane block of layout `l` with colour values `seq` and
/// weights `grid`, each of its range and count.
spec fn dual_block_of(b: Seq<u8>, l: Layout, seq: Seq<u32>, grid: Seq<u32>) -> bool {
    &&& values_within(seq, 8, l.color_range.max)
    &&& values_within(grid, 2 * (l.gw * l.gh), l.wr.max)
    &&& forall|j: int| 0 <= j < 128 ==> #[trigger] bit_at(b, j) == dual_block_bit(l, seq, grid, j)
}

/// `b` is the dual-plane block of layout `l` whose colour values are
/// those of the endpoint bytes `lo`, `hi` (with alpha), with weights of
/// the layout's range and count.
spec fn fitted_dual(b: Seq<u8>, l: Layout, lo: spec_fn(int) -> u8, hi: spec_fn(int) -> u8) -> bool {
    exists|grid: Seq<u32>| #[trigger] dual_block_of(b, l, dual_colour_values(lo, hi, l.color_range), grid)
}

/// The colour values of a dual-plane block with endpoint bytes `lo`, `hi`.
pub open spec fn dual_colour_values(lo: spec_fn(int) -> u8, hi: spec_fn(int) -> u8, range: IseRange) -> Seq<u32> {
    colour_group(lo, hi, true, range)
}

/// `b` is the dual-plane block of layout `l` for some colour values and
/// weights of the layout's ranges and counts.
spec fn is_dual_block(b: Seq<u8>, l: Layout) -> bool {
    exists|seq: Seq<u32>, grid: Seq<u32>| #[trigger] dual_block_of(b, l, seq, grid)
}

/// Make endpoint 0 the darker one (smaller R + G + B), so the decoder
/// takes its direct branch rather than blue contraction.
fn order_endpoints(lo: [u8; 4], hi: [u8; 4]) -> (r: ([u8; 4], [u8; 4]))
    ensures
        r == (if lo[0] + lo[1] + lo[2] > hi[0] + hi[1] + hi[2] {
            (hi, lo)
        } else {
            (lo, hi)
        }),
{
    let s_lo = lo[0] as u32 + lo[1] as u32 + lo[2] as u32;
    let s_hi = hi[0] as u32 + hi[1] as u32 + hi[2] as u32;
    if s_lo > s_hi {
        (hi, lo)
    } else {
        (lo, hi)
    }
}

/// Cell `[x0, x1)` of grid column `g` of `gs` columns over `b` texels:
/// from `g·b/gs` to `(g+1)·b/gs`, at least one texel wide and within `b`.
pub open spec fn cell_span_spec(g: int, gs: int, b: int) -> (int, int) {
    let x0 = g * b / gs;
    let e = (g + 1) * b / gs;
    (x0, if e > x0 + 1 {
        if e < b {
            e
        } else {
            b
        }
    } else {
        x0 + 1
    })
}

/// Endpoint `second` of the partition whose colour values start at `base`
/// of `seq`, widened to 16 bits (alpha 255 without alpha values).
pub open spec fn endpoint_spec(seq: Seq<u32>, base: int, second: bool, alpha: bool, range: IseRange) -> [i64; 4] {
    let o = if second {
        1int
    } else {
        0int
    };
    [
        (unquant_color_spec(seq[base + o], range) * 257) as i64,
        (unquant_color_spec(seq[base + 2 + o], range) * 257) as i64,
        (unquant_color_spec(seq[base + 4 + o], range) * 257) as i64,
        if alpha {
            (unquant_color_spec(seq[base + 6 + o], range) * 257) as i64
        } else {
            (255int * 257) as i64
        },
    ]
}

/// The mean colour of a cell, channel by channel.
pub open spec fn mean_arr(t: Seq<[u8; 4]>, part: Seq<u8>, bw: u32, x0: int, x1: int, y0: int, y1: int, only: bool, p: u8) -> [i64; 4] {
    [
        cell_mean(t, part, bw, x0, x1, y0, y1, only, p, 0) as i64,
        cell_mean(t, part, bw, x0, x1, y0, y1, only, p, 1) as i64,
        cell_mean(t, part, bw, x0, x1, y0, y1, only, p, 2) as i64,
        cell_mean(t, part, bw, x0, x1, y0, y1, only, p, 3) as i64,
    ]
}

/// The weight of grid point `(gx, gy)` of a normal block of layout `l`:
/// the cell's mean colour (over the partition of its first texel)
/// projected onto that partition's endpoints over `channels` channels,
/// then the nearest weight value.
spec fn grid_weight(
    t: Seq<[u8; 4]>,
    part: Seq<u8>,
    bw: u32,
    bh: u32,
    l: Layout,
    nparts: int,
    seq: Seq<u32>,
    alpha: bool,
    channels: int,
    gx: int,
    gy: int,
) -> u32 {
    let xs = cell_span_spec(gx, l.gw as int, bw as int);
    let ys = cell_span_spec(gy, l.gh as int, bh as int);
    let p: int = if nparts == 1 {
        0
    } else {
        part[ys.0 * bw + xs.0] as int
    };
    let per = if alpha {
        8int
    } else {
        6int
    };
    let e0 = endpoint_spec(seq, p * per, false, alpha, l.color_range);
    let e1 = endpoint_spec(seq, p * per, true, alpha, l.color_range);
    let avg = mean_arr(t, part, bw, xs.0, xs.1, ys.0, ys.1, nparts > 1, p as u8);
    nearest_weight(weight_of(avg, e0, e1, channels) as u32, l.wr)
}

/// The weights of a normal block of layout `l`, row-major.
spec fn normal_grid(
    t: Seq<[u8; 4]>,
    part: Seq<u8>,
    bw: u32,
    bh: u32,
    l: Layout,
    nparts: int,
    seq: Seq<u32>,
    alpha: bool,
    channels: int,
) -> Seq<u32> {
    Seq::new(
        (l.gw * l.gh) as nat,
        |i: int| grid_weight(t, part, bw, bh, l, nparts, seq, alpha, channels, i % (l.gw as int), i / (l.gw as int)),
    )
}

/// No texel in any partition but 0.
pub open spec fn zero_part(bw: u32, bh: u32) -> Seq<u8> {
    Seq::new((bw * bh) as nat, |i: int| 0u8)
}

/// Weight `plane` of grid point `(gx, gy)` of a dual-plane block of
/// layout `l`: the cell's mean colour projected onto the endpoints over
/// RGB (plane 0) or over alpha alone (plane 1), then the nearest weight
/// value.
spec fn dual_weight(t: Seq<[u8; 4]>, bw: u32, bh: u32, l: Layout, seq: Seq<u32>, gx: int, gy: int, alpha_plane: bool) -> u32 {
    let xs = cell_span_spec(gx, l.gw as int, bw as int);
    let ys = cell_span_spec(gy, l.gh as int, bh as int);
    let avg = mean_arr(t, zero_part(bw, bh), bw, xs.0, xs.1, ys.0, ys.1, false, 0);
    let e0 = endpoint_spec(seq, 0, false, true, l.color_range);
    let e1 = endpoint_spec(seq, 0, true, true, l.color_range);
    nearest_weight(
        (if alpha_plane {
            channel_weight_of(avg, e0, e1, 3)
        } else {
            weight_of(avg, e0, e1, 3)
        }) as u32,
        l.wr,
    )
}

/// The weights of a dual-plane block of layout `l`: for each grid point,
/// row-major, its RGB weight then its alpha weight.
spec fn dual_grid(t: Seq<[u8; 4]>, bw: u32, bh: u32, l: Layout, seq: Seq<u32>) -> Seq<u32> {
    Seq::new(
        (2 * (l.gw * l.gh)) as nat,
        |i: int| dual_weight(t, bw, bh, l, seq, (i / 2) % (l.gw as int), (i / 2) / (l.gw as int), i % 2 == 1),
    )
}

/// The weights of a normal block: one per grid point, fitted against the
/// partition owning the first texel of its cell over the first
/// `channels` channels.
#[verifier::spinoff_prover]
#[verifier::rlimit(60)]
fn normal_weights(
    texels: &[[u8; 4]],
    part: &Vec<u8>,
    nparts: usize,
    bw: u32,
    bh: u32,
    l: Layout,
    seq: &Vec<u32>,
    alpha: bool,
    channels: usize,
) -> (grid: Vec<u32>)
    requires
        1 <= nparts <= 3,
        texels@.len() == bw * bh,
        part@.len() == bw * bh,
        forall|i: int| 0 <= i < part@.len() ==> (#[trigger] part@[i]) < nparts,
        4 <= bw <= 12,
        4 <= bh <= 12,
        layout_ok(l, bw, bh),
        channels <= 4,
        seq@.len() == nparts * (if alpha { 8int } else { 6int }),
        forall|k: int| 0 <= k < seq@.len() ==> #[trigger] seq@[k] <= l.color_range.max,
    ensures
        grid@ == normal_grid(texels@, part@, bw, bh, l, nparts as int, seq@, alpha, channels as int),
        values_within(grid@, l.gw * l.gh, l.wr.max),
{
    let per: usize = if alpha {
        8
    } else {
        6
    };
    let mut e0s = [[0i64; 4]; 3];
    let mut e1s = [[0i64; 4]; 3];
    let mut p: usize = 0;
    while p < nparts
        invariant
            p <= nparts,
            nparts <= 3,
            per == (if alpha { 8usize } else { 6usize }),
            seq@.len() == nparts * per,
            1 <= l.color_range.bits <= 8,
            forall|k: int| 0 <= k < seq@.len() ==> #[trigger] seq@[k] <= l.color_range.max,
            forall|k: int| 0 <= k < 3 ==> in_range4(#[trigger] e0s[k], 0xffff),
            forall|k: int| 0 <= k < 3 ==> in_range4(#[trigger] e1s[k], 0xffff),
            forall|k: int| 0 <= k < p ==> #[trigger] e0s[k] == endpoint_spec(seq@, k * per, false, alpha, l.color_range),
            forall|k: int| 0 <= k < p ==> #[trigger] e1s[k] == endpoint_spec(seq@, k * per, true, alpha, l.color_range),
        decreases nparts - p,
    {
        assert((p + 1) * per <= nparts * per) by (nonlinear_arith)
            requires
                p < nparts,
        ;
        let a = endpoint16(seq, p * per, false, alpha, l.color_range);
        let b = endpoint16(seq, p * per, true, alpha, l.color_range);
        proof {
            assert(a =~= endpoint_spec(seq@, p * per, false, alpha, l.color_range));
            assert(b =~= endpoint_spec(seq@, p * per, true, alpha, l.color_range));
        }
        e0s[p] = a;
        e1s[p] = b;
        p += 1;
    }
    let mut grid: Vec<u32> = Vec::new();
    let mut gy: u32 = 0;
    while gy < l.gh
        invariant
            layout_ok(l, bw, bh),
            4 <= bw <= 12,
            4 <= bh <= 12,
            texels@.len() == bw * bh,
            part@.len() == bw * bh,
            forall|i: int| 0 <= i < part@.len() ==> (#[trigger] part@[i]) < nparts,
            1 <= nparts <= 3,
            channels <= 4,
            forall|k: int| 0 <= k < 3 ==> in_range4(#[trigger] e0s[k], 0xffff),
            forall|k: int| 0 <= k < 3 ==> in_range4(#[trigger] e1s[k], 0xffff),
            gy <= l.gh,
            grid@.len() == gy * l.gw,
            forall|k: int| 0 <= k < grid@.len() ==> #[trigger] grid@[k] <= l.wr.max,
            forall|k: int| 0 <= k < seq@.len() ==> #[trigger] seq@[k] <= l.color_range.max,
            seq@.len() == nparts * per,
            forall|k: int| 0 <= k < nparts ==> #[trigger] e0s[k] == endpoint_spec(seq@, k * per, false, alpha, l.color_range),
            forall|k: int| 0 <= k < nparts ==> #[trigger] e1s[k] == endpoint_spec(seq@, k * per, true, alpha, l.color_range),
            per == (if alpha { 8usize } else { 6usize }),
            forall|k: int| 0 <= k < grid@.len() ==> #[trigger] grid@[k] == grid_weight(
                texels@,
                part@,
                bw,
                bh,
                l,
                nparts as int,
                seq@,
                alpha,
                channels as int,
                k % (l.gw as int),
                k / (l.gw as int),
            ),
        decreases l.gh - gy,
    {
        let mut gx: u32 = 0;
        while gx < l.gw
            invariant
                layout_ok(l, bw, bh),
                4 <= bw <= 12,
                4 <= bh <= 12,
                texels@.len() == bw * bh,
                part@.len() == bw * bh,
                forall|i: int| 0 <= i < part@.len() ==> (#[trigger] part@[i]) < nparts,
                1 <= nparts <= 3,
                channels <= 4,
                forall|k: int| 0 <= k < 3 ==> in_range4(#[trigger] e0s[k], 0xffff),
                forall|k: int| 0 <= k < 3 ==> in_range4(#[trigger] e1s[k], 0xffff),
                gy < l.gh,
                gx <= l.gw,
                grid@.len() == gy * l.gw + gx,
                forall|k: int| 0 <= k < grid@.len() ==> #[trigger] grid@[k] <= l.wr.max,
                forall|k: int| 0 <= k < seq@.len() ==> #[trigger] seq@[k] <= l.color_range.max,
                seq@.len() == nparts * per,
                forall|k: int| 0 <= k < nparts ==> #[trigger] e0s[k] == endpoint_spec(seq@, k * per, false, alpha, l.color_range),
                forall|k: int| 0 <= k < nparts ==> #[trigger] e1s[k] == endpoint_spec(seq@, k * per, true, alpha, l.color_range),
                per == (if alpha { 8usize } else { 6usize }),
                forall|k: int| 0 <= k < grid@.len() ==> #[trigger] grid@[k] == grid_weight(
                    texels@,
                    part@,
                    bw,
                    bh,
                    l,
                    nparts as int,
                    seq@,
                    alpha,
                    channels as int,
                    k % (l.gw as int),
                    k / (l.gw as int),
                ),
            decreases l.gw - gx,
        {
            let (x0, x1) = cell_span(gx, l.gw, bw);
            let (y0, y1) = cell_span(gy, l.gh, bh);
            assert(y0 * bw + x0 < bw * bh && y0 * bw <= 144) by (nonlinear_arith)
                requires
                    y0 < bh,
                    x0 < bw,
                    bw <= 12,
                    bh <= 12,
            ;
            let p: u8 = if nparts == 1 {
                0
            } else {
                part[(y0 * bw + x0) as usize]
            };
            let avg = cell_average(texels, part, bw, bh, x0, x1, y0, y1, nparts > 1, p);
            let w = project_weight(avg, e0s[p as usize], e1s[p as usize], channels);
            let q = quantize_weight(w, l.wr);
            let ghost g0 = grid@;
            grid.push(q);
            proof {
                let k = (gy * l.gw + gx) as int;
                vstd::arithmetic::div_mod::lemma_fundamental_div_mod_converse(k, l.gw as int, gy as int, gx as int);
                assert(avg =~= mean_arr(texels@, part@, bw, x0 as int, x1 as int, y0 as int, y1 as int, nparts > 1, p));
                assert(grid@[k] == grid_weight(texels@, part@, bw, bh, l, nparts as int, seq@, alpha, channels as int, gx as int, gy as int));
                assert forall|j: int| 0 <= j < grid@.len() implies #[trigger] grid@[j] == grid_weight(
                    texels@,
                    part@,
                    bw,
                    bh,
                    l,
                    nparts as int,
                    seq@,
                    alpha,
                    channels as int,
                    j % (l.gw as int),
                    j / (l.gw as int),
                ) by {
                    if j < k {
                        assert(grid@[j] == g0[j]);
                    }
                }
            }
            gx += 1;
        }
        assert((gy + 1) * l.gw == gy * l.gw + l.gw) by (nonlinear_arith);
        gy += 1;
    }
    proof {
        assert(grid@.len() == l.gw * l.gh) by (nonlinear_arith)
            requires
                grid@.len() == l.gh * l.gw,
        ;
        assert(grid@ =~= normal_grid(texels@, part@, bw, bh, l, nparts as int, seq@, alpha, channels as int));
    }
    grid
}

/// Assemble a block of `nparts` partitions (one CEM for all) from a fixed
/// layout: the header (mode field; with several partitions, their count,
/// the seed and the single-CEM selector), the colour values (per
/// partition `r0 r1 g0 g1 b0 b1`, then `a0 a1` with CEM 12) and one weight
/// per grid point, fitted against the partition owning the first texel
/// of its cell over the first `channels` channels.
#[verifier::spinoff_prover]
#[verifier::rlimit(100)]
fn assemble_block(
    texels: &[[u8; 4]],
    part: &Vec<u8>,
    nparts: usize,
    bw: u32,
    bh: u32,
    l: Layout,
    seed: u32,
    cem: u32,
    lo: [[u8; 4]; 3],
    hi: [[u8; 4]; 3],
    channels: usize,
) -> (block: [u8; 16])
    requires
        1 <= nparts <= 3,
        texels@.len() == bw * bh,
        part@.len() == bw * bh,
        forall|i: int| 0 <= i < part@.len() ==> (#[trigger] part@[i]) < nparts,
        4 <= bw <= 12,
        4 <= bh <= 12,
        layout_ok(l, bw, bh),
        cem == 8 || cem == 12,
        channels <= 4,
    ensures
        is_normal_block(block@, l, nparts as int, seed, cem),
        fitted_block(block@, l, nparts as int, seed, cem, |k: int, c: int| lo[k][c], |k: int, c: int| hi[k][c]),
        normal_block_of(
            block@,
            l,
            nparts as int,
            seed,
            cem,
            cem_colour_values(|k: int, c: int| lo[k][c], |k: int, c: int| hi[k][c], nparts as int, cem, l.color_range),
            normal_grid(
                texels@,
                part@,
                bw,
                bh,
                l,
                nparts as int,
                cem_colour_values(|k: int, c: int| lo[k][c], |k: int, c: int| hi[k][c], nparts as int, cem, l.color_range),
                cem == 12,
                channels as int,
            ),
        ),
{
    let mut bb = BlockBuilder::new();
    let ghost b0 = bb;
    bb.set(0, 11, l.mode_field);
    proof {
        lemma_set_or(b0, bb, 0, 11, l.mode_field);
    }
    let start: u32 = if nparts == 1 {
        let ghost b1 = bb;
        bb.set(13, 4, cem);
        proof {
            lemma_set_or(b1, bb, 13, 4, cem);
        }
        17
    } else {
        let ghost b1 = bb;
        bb.set(11, 2, (nparts - 1) as u32);
        proof {
            lemma_set_or(b1, bb, 11, 2, (nparts - 1) as u32);
        }
        let ghost b2 = bb;
        bb.set(13, 10, seed & 0x3ff);
        proof {
            lemma_set_or(b2, bb, 13, 10, seed & 0x3ff);
        }
        let ghost b3 = bb;
        bb.set(23, 2, 0);
        proof {
            lemma_set_or(b3, bb, 23, 2, 0);
        }
        let ghost b4 = bb;
        bb.set(25, 4, cem);
        proof {
            lemma_set_or(b4, bb, 25, 4, cem);
        }
        29
    };
    let ghost head = bb;
    assert forall|j: int| 0 <= j < 128 implies #[trigger] head.bit(j) == header_bit(l, nparts as int, seed, cem, j) by {
    }
    let alpha = cem == 12;
    let mut seq: Vec<u32> = Vec::new();
    let mut p: usize = 0;
    while p < nparts
        invariant
            p <= nparts,
            nparts <= 3,
            seq@.len() == p * (if alpha { 8int } else { 6int }),
            1 <= l.color_range.bits <= 8,
            forall|k: int| 0 <= k < seq@.len() ==> #[trigger] seq@[k] <= l.color_range.max,
            seq@ == colour_values(|k: int, c: int| lo[k][c], |k: int, c: int| hi[k][c], p as int, alpha, l.color_range),
        decreases nparts - p,
    {
        let ghost seq0 = seq@;
        let (e0, e1) = order_endpoints(lo[p], hi[p]);
        seq.push(quantize_color(e0[0] as u32, l.color_range));
        seq.push(quantize_color(e1[0] as u32, l.color_range));
        seq.push(quantize_color(e0[1] as u32, l.color_range));
        seq.push(quantize_color(e1[1] as u32, l.color_range));
        seq.push(quantize_color(e0[2] as u32, l.color_range));
        seq.push(quantize_color(e1[2] as u32, l.color_range));
        if alpha {
            seq.push(quantize_color(e0[3] as u32, l.color_range));
            seq.push(quantize_color(e1[3] as u32, l.color_range));
        }
        proof {
            let lf = |k: int, c: int| lo[k][c];
            let hf = |k: int, c: int| hi[k][c];
            let g = colour_group(|c: int| lf(p as int, c), |c: int| hf(p as int, c), alpha, l.color_range);
            assert(seq@ =~= seq0 + g);
        }
        p += 1;
    }
    let ghost before_colour = bb;
    pack_ise(&mut bb, false, start, &seq, l.color_range);
    let ghost coloured = bb;
    let grid = normal_weights(texels, part, nparts, bw, bh, l, &seq, alpha, channels);
    let wir = IseRange { trits: l.wr.trits, quints: l.wr.quints, bits: l.wr.bits, max: l.wr.max };
    pack_ise(&mut bb, true, 0, &grid, wir);
    let block = bb.bytes();
    proof {
        assert(wir == weight_ise(l.wr));
        assert forall|j: int| 0 <= j < 128 implies #[trigger] bit_at(block@, j) == normal_block_bit(
            l,
            nparts as int,
            seed,
            cem,
            seq@,
            grid@,
            j,
        ) by {
            assert(coloured.bit(j) == head.bit(j) | (if start <= j {
                fields_bit(ise_fields(seq@, l.color_range), j - start)
            } else {
                0
            }));
        }
        assert(values_within(seq@, nparts * (if cem == 12 { 8int } else { 6int }), l.color_range.max));
        assert(l.gh * l.gw == l.gw * l.gh) by (nonlinear_arith);
        assert(values_within(grid@, l.gw * l.gh, l.wr.max));
        assert(normal_block_of(block@, l, nparts as int, seed, cem, seq@, grid@));
        assert(seq@ == colour_values(|k: int, c: int| lo[k][c], |k: int, c: int| hi[k][c], nparts as int, cem == 12, l.color_range));
        assert(seq@ == cem_colour_values(|k: int, c: int| lo[k][c], |k: int, c: int| hi[k][c], nparts as int, cem, l.color_range));
        assert(normal_block_of(
            block@,
            l,
            nparts as int,
            seed,
            cem,
            cem_colour_values(|k: int, c: int| lo[k][c], |k: int, c: int| hi[k][c], nparts as int, cem, l.color_range),
            grid@,
        ));
    }
    block
}

/// Assemble a dual-plane single-partition block (CEM 12, alpha on weight
/// plane 1): the header, the eight colour values, the plane selector 3
/// just below the weights, and per grid point an RGB weight then an alpha
/// weight, each fitted to its own channels.
#[verifier::spinoff_prover]
#[verifier::rlimit(100)]
fn assemble_dual_plane(texels: &[[u8; 4]], bw: u32, bh: u32, l: Layout, lo: [u8; 4], hi: [u8; 4]) -> (block: [u8; 16])
    requires
        texels@.len() == bw * bh,
        4 <= bw <= 12,
        4 <= bh <= 12,
        layout_ok(l, bw, bh),
    ensures
        is_dual_block(block@, l),
        fitted_dual(block@, l, |c: int| lo[c], |c: int| hi[c]),
        dual_block_of(
            block@,
            l,
            dual_colour_values(|c: int| lo[c], |c: int| hi[c], l.color_range),
            dual_grid(texels@, bw, bh, l, dual_colour_values(|c: int| lo[c], |c: int| hi[c], l.color_range)),
        ),
{
    let (e0, e1) = order_endpoints(lo, hi);
    let config_below = 128 - l.weight_bits;
    let mut bb = BlockBuilder::new();
    let ghost b0 = bb;
    bb.set(0, 11, l.mode_field);
    proof {
        lemma_set_or(b0, bb, 0, 11, l.mode_field);
    }
    let ghost b1 = bb;
    bb.set(13, 4, 12);
    proof {
        lemma_set_or(b1, bb, 13, 4, 12);
    }
    let ghost head = bb;
    let mut seq: Vec<u32> = Vec::new();
    seq.push(quantize_color(e0[0] as u32, l.color_range));
    seq.push(quantize_color(e1[0] as u32, l.color_range));
    seq.push(quantize_color(e0[1] as u32, l.color_range));
    seq.push(quantize_color(e1[1] as u32, l.color_range));
    seq.push(quantize_color(e0[2] as u32, l.color_range));
    seq.push(quantize_color(e1[2] as u32, l.color_range));
    seq.push(quantize_color(e0[3] as u32, l.color_range));
    seq.push(quantize_color(e1[3] as u32, l.color_range));
    proof {
        assert(seq@ =~= dual_colour_values(|c: int| lo[c], |c: int| hi[c], l.color_range));
    }
    let ghost vals = seq@;
    pack_ise(&mut bb, false, 17, &seq, l.color_range);
    let ghost coloured = bb;
    bb.set(config_below - 2, 2, 3);
    proof {
        lemma_set_or(coloured, bb, (config_below - 2) as u32, 2, 3);
    }
    let ghost selected = bb;
    let f0 = endpoint16(&seq, 0, false, true, l.color_range);
    let f1 = endpoint16(&seq, 0, true, true, l.color_range);
    let mut no_part: Vec<u8> = Vec::new();
    assert(bw * bh <= 144) by (nonlinear_arith)
        requires
            bw <= 12,
            bh <= 12,
    ;
    let n = (bw * bh) as usize;
    while no_part.len() < n
        invariant
            no_part@.len() <= n,
            forall|k: int| 0 <= k < no_part@.len() ==> #[trigger] no_part@[k] == 0,
        decreases n - no_part@.len(),
    {
        no_part.push(0);
    }
    proof {
        assert(no_part@ =~= zero_part(bw, bh));
        assert(f0 =~= endpoint_spec(seq@, 0, false, true, l.color_range));
        assert(f1 =~= endpoint_spec(seq@, 0, true, true, l.color_range));
    }
    let mut grid: Vec<u32> = Vec::new();
    let mut gy: u32 = 0;
    while gy < l.gh
        invariant
            layout_ok(l, bw, bh),
            4 <= bw <= 12,
            4 <= bh <= 12,
            texels@.len() == bw * bh,
            no_part@.len() == bw * bh,
            in_range4(f0, 0xffff),
            in_range4(f1, 0xffff),
            gy <= l.gh,
            grid@.len() == 2 * (gy * l.gw),
            forall|k: int| 0 <= k < grid@.len() ==> #[trigger] grid@[k] <= l.wr.max,
            no_part@ == zero_part(bw, bh),
            f0 == endpoint_spec(seq@, 0, false, true, l.color_range),
            f1 == endpoint_spec(seq@, 0, true, true, l.color_range),
            forall|k: int| 0 <= k < grid@.len() ==> #[trigger] grid@[k] == dual_weight(
                texels@,
                bw,
                bh,
                l,
                seq@,
                (k / 2) % (l.gw as int),
                (k / 2) / (l.gw as int),
                k % 2 == 1,
            ),
        decreases l.gh - gy,
    {
        let mut gx: u32 = 0;
        while gx < l.gw
            invariant
                layout_ok(l, bw, bh),
                4 <= bw <= 12,
                4 <= bh <= 12,
                texels@.len() == bw * bh,
                no_part@.len() == bw * bh,
                in_range4(f0, 0xffff),
                in_range4(f1, 0xffff),
                gy < l.gh,
                gx <= l.gw,
                grid@.len() == 2 * (gy * l.gw + gx),
                forall|k: int| 0 <= k < grid@.len() ==> #[trigger] grid@[k] <= l.wr.max,
                no_part@ == zero_part(bw, bh),
                f0 == endpoint_spec(seq@, 0, false, true, l.color_range),
                f1 == endpoint_spec(seq@, 0, true, true, l.color_range),
                forall|k: int| 0 <= k < grid@.len() ==> #[trigger] grid@[k] == dual_weight(
                    texels@,
                    bw,
                    bh,
                    l,
                    seq@,
                    (k / 2) % (l.gw as int),
                    (k / 2) / (l.gw as int),
                    k % 2 == 1,
                ),
            decreases l.gw - gx,
        {
            let (x0, x1) = cell_span(gx, l.gw, bw);
            let (y0, y1) = cell_span(gy, l.gh, bh);
            let avg = cell_average(texels, &no_part, bw, bh, x0, x1, y0, y1, false, 0);
            let w_rgb = project_weight(avg, f0, f1, 3);
            let w_a = project_channel(avg, f0, f1, 3);
            let q0 = quantize_weight(w_rgb, l.wr);
            let q1 = quantize_weight(w_a, l.wr);
            let ghost g0 = grid@;
            grid.push(q0);
            grid.push(q1);
            proof {
                let c = (gy * l.gw + gx) as int;
                vstd::arithmetic::div_mod::lemma_fundamental_div_mod_converse(c, l.gw as int, gy as int, gx as int);
                vstd::arithmetic::div_mod::lemma_fundamental_div_mod_converse(2 * c, 2, c, 0);
                vstd::arithmetic::div_mod::lemma_fundamental_div_mod_converse(2 * c + 1, 2, c, 1);
                assert(avg =~= mean_arr(texels@, zero_part(bw, bh), bw, x0 as int, x1 as int, y0 as int, y1 as int, false, 0));
                assert forall|k: int| 0 <= k < grid@.len() implies #[trigger] grid@[k] == dual_weight(
                    texels@,
                    bw,
                    bh,
                    l,
                    seq@,
                    (k / 2) % (l.gw as int),
                    (k / 2) / (l.gw as int),
                    k % 2 == 1,
                ) by {
                    if k < 2 * c {
                        assert(grid@[k] == g0[k]);
                    }
                }
            }
            gx += 1;
        }
        assert(2 * ((gy + 1) * l.gw) == 2 * (gy * l.gw + l.gw)) by (nonlinear_arith);
        gy += 1;
    }
    assert(grid@.len() <= 72) by (nonlinear_arith)
        requires
            grid@.len() == 2 * (l.gh * l.gw),
            l.gw * l.gh <= 36,
    ;
    let wir = IseRange { trits: l.wr.trits, quints: l.wr.quints, bits: l.wr.bits, max: l.wr.max };
    pack_ise(&mut bb, true, 0, &grid, wir);
    let block = bb.bytes();
    proof {
        assert(wir == weight_ise(l.wr));
        assert forall|j: int| 0 <= j < 128 implies #[trigger] bit_at(block@, j) == dual_block_bit(l, seq@, grid@, j) by {
            assert(coloured.bit(j) == head.bit(j) | (if 17 <= j {
                fields_bit(ise_fields(seq@, l.color_range), j - 17)
            } else {
                0
            }));
        }
        assert(2 * (l.gh * l.gw) == 2 * (l.gw * l.gh)) by (nonlinear_arith);
        assert(values_within(seq@, 8, l.color_range.max));
        assert(values_within(grid@, 2 * (l.gw * l.gh), l.wr.max));
        assert(dual_block_of(block@, l, seq@, grid@));
        assert(dual_block_of(block@, l, dual_colour_values(|c: int| lo[c], |c: int| hi[c], l.color_range), grid@));
        assert(grid@ =~= dual_grid(texels@, bw, bh, l, seq@));
    }
    block
}

// ---- Candidate blocks -------------------------------------------------------------------

/// Sum of channel `c` over the first `i` texels.
pub open spec fn chan_sum(t: Seq<[u8; 4]>, c: int, i: int) -> int
    decreases i,
{
    if i <= 0 {
        0
    } else {
        chan_sum(t, c, i - 1) + t[i - 1][c]
    }
}

/// The mean colour of the texels, each channel rounded down.
pub open spec fn mean_colour(t: Seq<[u8; 4]>) -> [u8; 4] {
    [
        (chan_sum(t, 0, t.len() as int) / (t.len() as int)) as u8,
        (chan_sum(t, 1, t.len() as int) / (t.len() as int)) as u8,
        (chan_sum(t, 2, t.len() as int) / (t.len() as int)) as u8,
        (chan_sum(t, 3, t.len() as int) / (t.len() as int)) as u8,
    ]
}

/// The partition of every texel of a `bw × bh` block, row-major.
pub open spec fn route_seq(seed: u32, bw: u32, bh: u32, nparts: u32) -> Seq<u8> {
    Seq::new((bw * bh) as nat, |i: int| texel_partition(seed, bw, bh, nparts, i) as u8)
}

/// The endpoint byte the encoder fits to channel `c` of partition `k`:
/// the lowest value of that channel among the partition's texels.
pub open spec fn route_lo(texels: Seq<[u8; 4]>, seed: u32, bw: u32, bh: u32, nparts: u32) -> spec_fn(int, int) -> u8 {
    |k: int, c: int| part_lo(route_seq(seed, bw, bh, nparts), texels, k, c, (bw * bh) as int)
}

/// The endpoint byte the encoder fits to channel `c` of partition `k`:
/// the highest value of that channel among the partition's texels.
pub open spec fn route_hi(texels: Seq<[u8; 4]>, seed: u32, bw: u32, bh: u32, nparts: u32) -> spec_fn(int, int) -> u8 {
    |k: int, c: int| part_hi(route_seq(seed, bw, bh, nparts), texels, k, c, (bw * bh) as int)
}

/// `b` is a normal block of `nparts` partitions of seed `seed` and
/// endpoint mode `cem` on a layout that fits a `bw × bh` footprint, whose
/// colour values are the nearest to each partition's lowest and highest
/// channel values among `texels`.
pub closed spec fn normal_block_form(b: Seq<u8>, texels: Seq<[u8; 4]>, bw: u32, bh: u32, nparts: int, seed: u32, cem: u32) -> bool {
    exists|l: Layout|
        #[trigger] layout_ok(l, bw, bh) && fitted_block(
            b,
            l,
            nparts,
            seed,
            cem,
            route_lo(texels, seed, bw, bh, nparts as u32),
            route_hi(texels, seed, bw, bh, nparts as u32),
        )
}

/// `b` is the single-subset block built with the block modes `table`:
/// when a weight grid fits beside the colour values of endpoint mode
/// [`chosen_cem`], a one-partition normal block of that mode on a layout
/// that fits the `bw × bh` footprint; else the void-extent block of the
/// mean colour of `texels`.
pub open spec fn single_subset_result(table: Seq<ModeEntry>, b: Seq<u8>, texels: Seq<[u8; 4]>, bw: u32, bh: u32) -> bool {
    if grid_chain_fits(table, shrink_grid(bw, bh).0, shrink_grid(bw, bh).1, false, cem_count(chosen_cem(texels)), 17) {
        normal_block_form(b, texels, bw, bh, 1, 0, chosen_cem(texels))
    } else {
        b == void_block(mean_colour(texels))
    }
}

/// `b` is the single-subset block built with every normal block mode.
pub open spec fn single_subset_form(b: Seq<u8>, texels: Seq<[u8; 4]>, bw: u32, bh: u32) -> bool {
    single_subset_result(mode_entries(2048), b, texels, bw, bh)
}

/// `b` is a normal block of `nparts` partitions of seed `seed` on a layout
/// that fits a `bw × bh` footprint, with the endpoint mode [`chosen_cem`]
/// and colour values fitted to the partitions of `texels`.
pub closed spec fn multi_subset_form(b: Seq<u8>, texels: Seq<[u8; 4]>, bw: u32, bh: u32, seed: u32, nparts: u32) -> bool {
    normal_block_form(b, texels, bw, bh, nparts as int, seed, chosen_cem(texels))
}

/// `b` is a dual-plane block on a layout that fits a `bw × bh` footprint,
/// whose colour values are the nearest to the lowest and highest channel
/// values among `texels`.
pub closed spec fn dual_plane_form(b: Seq<u8>, texels: Seq<[u8; 4]>, bw: u32, bh: u32) -> bool {
    exists|l: Layout|
        #[trigger] layout_ok(l, bw, bh) && fitted_dual(
            b,
            l,
            |c: int| route_lo(texels, 0, bw, bh, 1)(0, c),
            |c: int| route_hi(texels, 0, bw, bh, 1)(0, c),
        )
}

/// The normal block of layout `l` (`nparts` partitions of seed `seed`,
/// endpoint mode `cem`) the encoder builds for `texels`: colour values
/// nearest each partition's lowest and highest channel values, weights
/// fitted to each cell over `channels` channels.
spec fn normal_cand(texels: Seq<[u8; 4]>, bw: u32, bh: u32, l: Layout, nparts: int, seed: u32, cem: u32, channels: int) -> Seq<u8> {
    let v = cem_colour_values(
        route_lo(texels, seed, bw, bh, nparts as u32),
        route_hi(texels, seed, bw, bh, nparts as u32),
        nparts,
        cem,
        l.color_range,
    );
    let g = normal_grid(texels, route_seq(seed, bw, bh, nparts as u32), bw, bh, l, nparts, v, cem == 12, channels);
    choose|b: Seq<u8>| b.len() == 16 && normal_block_of(b, l, nparts, seed, cem, v, g)
}

/// The single-subset block the encoder builds for `texels` with the
/// block modes `table`.
pub closed spec fn single_candidate(table: Seq<ModeEntry>, texels: Seq<[u8; 4]>, bw: u32, bh: u32) -> Seq<u8> {
    let cem = chosen_cem(texels);
    let sg = shrink_grid(bw, bh);
    if grid_chain_fits(table, sg.0, sg.1, false, cem_count(cem), 17) {
        normal_cand(texels, bw, bh, chain_layout(table, sg.0, sg.1, false, cem_count(cem), 17), 1, 0, cem, 4)
    } else {
        void_block(mean_colour(texels))
    }
}

/// The block of `nparts` partitions of seed `seed` the encoder builds for
/// `texels` with the block modes `table`, when it builds one.
pub closed spec fn multi_candidate(table: Seq<ModeEntry>, texels: Seq<[u8; 4]>, bw: u32, bh: u32, seed: u32, nparts: u32) -> Option<Seq<u8>> {
    let cem = chosen_cem(texels);
    let sg = shrink_grid(bw, bh);
    if multi_subset_fits(table, texels, bw, bh, seed, nparts) {
        Some(
            normal_cand(
                texels,
                bw,
                bh,
                chain_layout(table, sg.0, sg.1, false, (cem_count(cem) * nparts) as u32, 29),
                nparts as int,
                seed,
                cem,
                if nparts == 3 {
                    3int
                } else {
                    4int
                },
            ),
        )
    } else {
        None
    }
}

/// The dual-plane block the encoder builds for `texels` with the block
/// modes `table`, when it builds one.
pub closed spec fn dual_candidate(table: Seq<ModeEntry>, texels: Seq<[u8; 4]>, bw: u32, bh: u32) -> Option<Seq<u8>> {
    let sg = shrink_grid(bw, bh);
    if grid_chain_fits(table, sg.0, sg.1, true, 8, 17) {
        let l = chain_layout(table, sg.0, sg.1, true, 8, 17);
        let v = dual_colour_values(
            |c: int| route_lo(texels, 0, bw, bh, 1)(0, c),
            |c: int| route_hi(texels, 0, bw, bh, 1)(0, c),
            l.color_range,
        );
        Some(choose|b: Seq<u8>| b.len() == 16 && dual_block_of(b, l, v, dual_grid(texels, bw, bh, l, v)))
    } else {
        None
    }
}

/// A 16-byte block whose bits are those of the normal block with given
/// colour values and weights is that block.
proof fn lemma_normal_unique(b: Seq<u8>, l: Layout, nparts: int, seed: u32, cem: u32, v: Seq<u32>, g: Seq<u32>)
    requires
        b.len() == 16,
        normal_block_of(b, l, nparts, seed, cem, v, g),
    ensures
        b == (choose|b2: Seq<u8>| b2.len() == 16 && normal_block_of(b2, l, nparts, seed, cem, v, g)),
{
    let b2 = choose|b2: Seq<u8>| b2.len() == 16 && normal_block_of(b2, l, nparts, seed, cem, v, g);
    assert(b2.len() == 16 && normal_block_of(b2, l, nparts, seed, cem, v, g));
    assert forall|j: int| 0 <= j < 128 implies #[trigger] bit_at(b, j) == bit_at(b2, j) by {
        assert(bit_at(b, j) == normal_block_bit(l, nparts, seed, cem, v, g, j));
        assert(bit_at(b2, j) == normal_block_bit(l, nparts, seed, cem, v, g, j));
    }
    lemma_block_from_bits(b, b2);
}

/// A 16-byte block whose bits are those of the dual-plane block with
/// given colour values and weights is that block.
proof fn lemma_dual_unique(b: Seq<u8>, l: Layout, v: Seq<u32>, g: Seq<u32>)
    requires
        b.len() == 16,
        dual_block_of(b, l, v, g),
    ensures
        b == (choose|b2: Seq<u8>| b2.len() == 16 && dual_block_of(b2, l, v, g)),
{
    let b2 = choose|b2: Seq<u8>| b2.len() == 16 && dual_block_of(b2, l, v, g);
    assert(b2.len() == 16 && dual_block_of(b2, l, v, g));
    assert forall|j: int| 0 <= j < 128 implies #[trigger] bit_at(b, j) == bit_at(b2, j) by {
        assert(bit_at(b, j) == dual_block_bit(l, v, g, j));
        assert(bit_at(b2, j) == dual_block_bit(l, v, g, j));
    }
    lemma_block_from_bits(b, b2);
}

/// A block assembled from what [`route_partitions`] gives is the block
/// [`normal_cand`] names.
proof fn lemma_normal_cand(
    b: Seq<u8>,
    texels: Seq<[u8; 4]>,
    bw: u32,
    bh: u32,
    l: Layout,
    nparts: u32,
    seed: u32,
    cem: u32,
    channels: int,
    part: Seq<u8>,
    lo: [[u8; 4]; 3],
    hi: [[u8; 4]; 3],
)
    requires
        b.len() == 16,
        1 <= nparts <= 3,
        part.len() == bw * bh,
        routed_as(part, seed, bw, bh, nparts),
        routed_ends(part, texels, lo, hi),
        normal_block_of(
            b,
            l,
            nparts as int,
            seed,
            cem,
            cem_colour_values(|k: int, c: int| lo[k][c], |k: int, c: int| hi[k][c], nparts as int, cem, l.color_range),
            normal_grid(
                texels,
                part,
                bw,
                bh,
                l,
                nparts as int,
                cem_colour_values(|k: int, c: int| lo[k][c], |k: int, c: int| hi[k][c], nparts as int, cem, l.color_range),
                cem == 12,
                channels,
            ),
        ),
    ensures
        b == normal_cand(texels, bw, bh, l, nparts as int, seed, cem, channels),
{
    lemma_route_ends(part, texels, lo, hi, seed, bw, bh, nparts);
    let lr = route_lo(texels, seed, bw, bh, nparts);
    let hr = route_hi(texels, seed, bw, bh, nparts);
    lemma_colour_values_agree(
        |k: int, c: int| lo[k][c],
        |k: int, c: int| hi[k][c],
        lr,
        hr,
        nparts as int,
        cem == 12,
        l.color_range,
    );
    let v = cem_colour_values(lr, hr, nparts as int, cem, l.color_range);
    assert(cem_colour_values(|k: int, c: int| lo[k][c], |k: int, c: int| hi[k][c], nparts as int, cem, l.color_range) == v);
    let g = normal_grid(texels, route_seq(seed, bw, bh, nparts), bw, bh, l, nparts as int, v, cem == 12, channels);
    assert(normal_block_of(b, l, nparts as int, seed, cem, v, g));
    lemma_normal_unique(b, l, nparts as int, seed, cem, v, g);
}

/// What [`route_partitions`] states pins its endpoint bytes to
/// [`route_lo`] and [`route_hi`].
#[verifier::spinoff_prover]
proof fn lemma_route_ends(
    part: Seq<u8>,
    texels: Seq<[u8; 4]>,
    lo: [[u8; 4]; 3],
    hi: [[u8; 4]; 3],
    seed: u32,
    bw: u32,
    bh: u32,
    nparts: u32,
)
    requires
        part.len() == bw * bh,
        routed_as(part, seed, bw, bh, nparts),
        routed_ends(part, texels, lo, hi),
    ensures
        forall|k: int, c: int|
            0 <= k < 3 && 0 <= c < 4 ==> #[trigger] lo[k][c] == route_lo(texels, seed, bw, bh, nparts)(k, c) && hi[k][c]
                == route_hi(texels, seed, bw, bh, nparts)(k, c),
        part == route_seq(seed, bw, bh, nparts),
{
    assert(part =~= route_seq(seed, bw, bh, nparts)) by {
        assert forall|i: int| 0 <= i < part.len() implies part[i] == route_seq(seed, bw, bh, nparts)[i] by {
            assert(part[i] == texel_partition(seed, bw, bh, nparts, i));
        }
    }
}

/// A fitted block stays fitted under endpoint bytes that agree on its
/// partitions.
proof fn lemma_fitted_transfer(
    b: Seq<u8>,
    l: Layout,
    nparts: int,
    seed: u32,
    cem: u32,
    lo: spec_fn(int, int) -> u8,
    hi: spec_fn(int, int) -> u8,
    lo2: spec_fn(int, int) -> u8,
    hi2: spec_fn(int, int) -> u8,
)
    requires
        fitted_block(b, l, nparts, seed, cem, lo, hi),
        forall|k: int, c: int| 0 <= k < nparts && 0 <= c < 4 ==> #[trigger] lo(k, c) == lo2(k, c) && hi(k, c) == hi2(k, c),
    ensures
        fitted_block(b, l, nparts, seed, cem, lo2, hi2),
{
    lemma_colour_values_agree(lo, hi, lo2, hi2, nparts, cem == 12, l.color_range);
    let grid = choose|grid: Seq<u32>| #[trigger] normal_block_of(b, l, nparts, seed, cem, cem_colour_values(lo, hi, nparts, cem, l.color_range), grid);
    assert(normal_block_of(b, l, nparts, seed, cem, cem_colour_values(lo2, hi2, nparts, cem, l.color_range), grid));
}

/// The partition seeds tried for two- and three-subset blocks.
pub const SEEDS: [u32; 8] = [0, 1, 2, 7, 13, 31, 63, 100];

/// The partition of texel `i` (row-major, `bw` texels a row) of a
/// `bw × bh` block among `nparts` partitions of seed `seed`: 0 with one
/// partition, else the partition hash, capped at the last partition.
pub open spec fn texel_partition(seed: u32, bw: u32, bh: u32, nparts: u32, i: int) -> u32 {
    if nparts == 1 {
        0
    } else {
        let q = select_partition_spec(seed, (i % (bw as int)) as u32, (i / (bw as int)) as u32, nparts, bw * bh < 31);
        if q > nparts - 1 {
            (nparts - 1) as u32
        } else {
            q
        }
    }
}

/// The smaller of two bytes.
spec fn min_u8(a: u8, b: u8) -> u8 {
    if a < b {
        a
    } else {
        b
    }
}

/// The larger of two bytes.
spec fn max_u8(a: u8, b: u8) -> u8 {
    if a > b {
        a
    } else {
        b
    }
}

/// Channel `c` of the lowest-valued texel routed to partition `k` among
/// the first `n` texels of the prefix routed as `part` (255 when none is).
pub open spec fn part_lo(part: Seq<u8>, t: Seq<[u8; 4]>, k: int, c: int, n: int) -> u8
    decreases n,
{
    if n <= 0 {
        255
    } else {
        let m = part_lo(part, t, k, c, n - 1);
        if part[n - 1] == k && t[n - 1][c] < m {
            t[n - 1][c]
        } else {
            m
        }
    }
}

/// Channel `c` of the highest-valued texel routed to partition `k` among
/// the first `n` texels of the prefix routed as `part` (0 when none is).
pub open spec fn part_hi(part: Seq<u8>, t: Seq<[u8; 4]>, k: int, c: int, n: int) -> u8
    decreases n,
{
    if n <= 0 {
        0
    } else {
        let m = part_hi(part, t, k, c, n - 1);
        if part[n - 1] == k && t[n - 1][c] > m {
            t[n - 1][c]
        } else {
            m
        }
    }
}

/// The per-partition channel minima and maxima only read the routed prefix.
proof fn lemma_part_ends_prefix(a: Seq<u8>, b: Seq<u8>, t: Seq<[u8; 4]>, k: int, c: int, n: int)
    requires
        0 <= n <= a.len(),
        n <= b.len(),
        forall|i: int| 0 <= i < n ==> a[i] == b[i],
    ensures
        part_lo(a, t, k, c, n) == part_lo(b, t, k, c, n),
        part_hi(a, t, k, c, n) == part_hi(b, t, k, c, n),
    decreases n,
{
    if n > 0 {
        lemma_part_ends_prefix(a, b, t, k, c, n - 1);
    }
}

/// `lo` and `hi` hold, per partition and channel, the minimum and the
/// maximum over the texels of the prefix routed as `part`.
spec fn routed_ends(part: Seq<u8>, texels: Seq<[u8; 4]>, lo: [[u8; 4]; 3], hi: [[u8; 4]; 3]) -> bool {
    forall|k: int, c: int|
        0 <= k < 3 && 0 <= c < 4 ==> #[trigger] lo[k][c] == part_lo(part, texels, k, c, part.len() as int) && hi[k][c]
            == part_hi(part, texels, k, c, part.len() as int)
}

/// Some texel of the prefix routed as `part` is in partition `k`.
spec fn part_has(part: Seq<u8>, k: int) -> bool {
    exists|i: int| 0 <= i < part.len() && part[i] == k
}

/// Every texel of the prefix routed to partition `k` has alpha 255.
spec fn part_opaque(part: Seq<u8>, texels: Seq<[u8; 4]>, k: int) -> bool {
    forall|i: int| 0 <= i < part.len() && part[i] == k ==> #[trigger] texels[i][3] == 255
}

/// Some texel of the prefix routed to partition `k` has alpha 255.
spec fn part_some_opaque(part: Seq<u8>, texels: Seq<[u8; 4]>, k: int) -> bool {
    exists|i: int| 0 <= i < part.len() && part[i] == k && #[trigger] texels[i][3] == 255
}

/// Per partition `k`: `count[k]` is nonzero exactly when a texel of the
/// prefix routed as `part` is in `k`, `lo[k]` has alpha 255 exactly when
/// all of them have, and `hi[k]` exactly when one of them has.
spec fn routed_facts(part: Seq<u8>, texels: Seq<[u8; 4]>, count: [u32; 3], lo: [[u8; 4]; 3], hi: [[u8; 4]; 3]) -> bool {
    forall|k: int|
        0 <= k < 3 ==> (#[trigger] count[k] > 0 <==> part_has(part, k)) && (lo[k][3] == 255 <==> part_opaque(
            part,
            texels,
            k,
        )) && (hi[k][3] == 255 <==> part_some_opaque(part, texels, k))
}

/// Texel `i` of the prefix routed as `part` is in its partition.
spec fn routed_as(part: Seq<u8>, seed: u32, bw: u32, bh: u32, nparts: u32) -> bool {
    forall|i: int|
        0 <= i < part.len() ==> (#[trigger] part[i]) < nparts && part[i] == texel_partition(seed, bw, bh, nparts, i)
}

/// How the three prefix facts change when one more texel is routed.
proof fn lemma_part_push(part: Seq<u8>, texels: Seq<[u8; 4]>, p: u8, k: int)
    requires
        part.len() < texels.len(),
    ensures
        part_has(part.push(p), k) == (part_has(part, k) || p == k),
        part_opaque(part.push(p), texels, k) == (part_opaque(part, texels, k) && (p != k || texels[part.len() as int][3]
            == 255)),
        part_some_opaque(part.push(p), texels, k) == (part_some_opaque(part, texels, k) || (p == k
            && texels[part.len() as int][3] == 255)),
{
    let n = part.len() as int;
    let q = part.push(p);
    assert(q[n] == p);
    assert forall|i: int| 0 <= i < n implies q[i] == part[i] by {}
    if part_has(q, k) {
        let i = choose|i: int| 0 <= i < q.len() && q[i] == k;
        if i < n {
            assert(part[i] == k);
        }
    }
    if part_has(part, k) {
        let i = choose|i: int| 0 <= i < part.len() && part[i] == k;
        assert(q[i] == k);
    }
    if p == k {
        assert(q[n] == k);
    }
    if part_some_opaque(q, texels, k) {
        let i = choose|i: int| 0 <= i < q.len() && q[i] == k && #[trigger] texels[i][3] == 255;
        if i < n {
            assert(part[i] == k);
        }
    }
    if part_some_opaque(part, texels, k) {
        let i = choose|i: int| 0 <= i < part.len() && part[i] == k && #[trigger] texels[i][3] == 255;
        assert(q[i] == k);
    }
    if part_opaque(part, texels, k) && (p != k || texels[n][3] == 255) {
        assert forall|i: int| 0 <= i < q.len() && q[i] == k implies #[trigger] texels[i][3] == 255 by {
            if i < n {
                assert(part[i] == k);
            }
        }
    }
    if part_opaque(q, texels, k) {
        assert forall|i: int| 0 <= i < part.len() && part[i] == k implies #[trigger] texels[i][3] == 255 by {
            assert(q[i] == k);
        }
        if p == k {
            assert(q[n] == k);
        }
    }
}

/// Some texel of a `bw × bh` block is in partition `k` of the `nparts`
/// partitions of seed `seed`.
pub open spec fn partition_filled(seed: u32, bw: u32, bh: u32, nparts: u32, k: int) -> bool {
    exists|i: int| 0 <= i < bw * bh && #[trigger] texel_partition(seed, bw, bh, nparts, i) == k
}

/// Every texel has alpha 255.
pub open spec fn all_opaque(texels: Seq<[u8; 4]>) -> bool {
    forall|i: int| 0 <= i < texels.len() ==> #[trigger] texels[i][3] == 255
}

/// The endpoint mode of a partitioned block: 8 (RGB) when every texel is
/// opaque, else 12 (RGBA).
pub open spec fn chosen_cem(texels: Seq<[u8; 4]>) -> u32 {
    if all_opaque(texels) {
        8
    } else {
        12
    }
}

/// The encoder finds a block of `nparts` partitions of seed `seed`: every
/// partition holds a texel, three partitions only for opaque texels, and
/// a weight grid fits beside the colour values of all partitions.
pub open spec fn multi_subset_fits(
    table: Seq<ModeEntry>,
    texels: Seq<[u8; 4]>,
    bw: u32,
    bh: u32,
    seed: u32,
    nparts: u32,
) -> bool {
    &&& forall|k: int| 0 <= k < nparts ==> #[trigger] partition_filled(seed, bw, bh, nparts, k)
    &&& (nparts == 2 || all_opaque(texels))
    &&& grid_chain_fits(
        table,
        shrink_grid(bw, bh).0,
        shrink_grid(bw, bh).1,
        false,
        (cem_count(chosen_cem(texels)) * nparts) as u32,
        29,
    )
}

/// What the routing facts say of the whole block: a partition's count is
/// nonzero exactly when the partition holds a texel, and with every
/// partition filled, all alpha extremes are 255 exactly when every texel
/// is opaque.
proof fn lemma_routed_summary(
    part: Seq<u8>,
    texels: Seq<[u8; 4]>,
    count: [u32; 3],
    lo: [[u8; 4]; 3],
    hi: [[u8; 4]; 3],
    seed: u32,
    bw: u32,
    bh: u32,
    nparts: u32,
)
    requires
        part.len() == bw * bh,
        texels.len() == bw * bh,
        1 <= nparts <= 3,
        routed_as(part, seed, bw, bh, nparts),
        routed_facts(part, texels, count, lo, hi),
    ensures
        forall|k: int| 0 <= k < 3 ==> (#[trigger] count[k] > 0 <==> partition_filled(seed, bw, bh, nparts, k)),
        (forall|k: int| 0 <= k < nparts ==> #[trigger] partition_filled(seed, bw, bh, nparts, k)) ==> ((forall|k: int|
            0 <= k < nparts ==> #[trigger] lo[k][3] == 255 && hi[k][3] == 255) <==> all_opaque(texels)),
{
    assert forall|k: int| 0 <= k < 3 implies (#[trigger] count[k] > 0 <==> partition_filled(seed, bw, bh, nparts, k)) by {
        assert(count[k] > 0 <==> part_has(part, k));
        if part_has(part, k) {
            let i = choose|i: int| 0 <= i < part.len() && part[i] == k;
            assert(texel_partition(seed, bw, bh, nparts, i) == k);
        }
        if partition_filled(seed, bw, bh, nparts, k) {
            let i = choose|i: int| 0 <= i < bw * bh && #[trigger] texel_partition(seed, bw, bh, nparts, i) == k;
            assert(part[i] == k);
        }
    }
    if forall|k: int| 0 <= k < nparts ==> #[trigger] partition_filled(seed, bw, bh, nparts, k) {
        if all_opaque(texels) {
            assert forall|k: int| 0 <= k < nparts implies #[trigger] lo[k][3] == 255 && hi[k][3] == 255 by {
                assert(partition_filled(seed, bw, bh, nparts, k));
                let i = choose|i: int| 0 <= i < bw * bh && #[trigger] texel_partition(seed, bw, bh, nparts, i) == k;
                assert(part[i] == k);
                assert(texels[i][3] == 255);
                assert((count[k] > 0 <==> part_has(part, k)) && (lo[k][3] == 255 <==> part_opaque(part, texels, k)) && (hi[k][3]
                    == 255 <==> part_some_opaque(part, texels, k)));
                assert(part_some_opaque(part, texels, k));
                assert forall|j: int| 0 <= j < part.len() && part[j] == k implies #[trigger] texels[j][3] == 255 by {}
                assert(part_opaque(part, texels, k));
            }
        }
        if forall|k: int| 0 <= k < nparts ==> #[trigger] lo[k][3] == 255 && hi[k][3] == 255 {
            assert forall|i: int| 0 <= i < texels.len() implies #[trigger] texels[i][3] == 255 by {
                let k = part[i] as int;
                assert(k < nparts);
                assert(lo[k][3] == 255);
                assert((count[k] > 0 <==> part_has(part, k)) && (lo[k][3] == 255 <==> part_opaque(part, texels, k)) && (hi[k][3]
                    == 255 <==> part_some_opaque(part, texels, k)));
                assert(part_opaque(part, texels, k));
            }
        }
    }
}

/// Route every texel to its partition (for `nparts` partitions of seed
/// `seed`) and gather per-partition minimum and maximum channels and
/// texel counts. With one partition every texel is in partition 0.
fn route_partitions(texels: &[[u8; 4]], bw: u32, bh: u32, seed: u32, nparts: u32) -> (r: (Vec<u8>, [[u8; 4]; 3], [[u8; 4]; 3], [u32; 3]))
    requires
        texels@.len() == bw * bh,
        4 <= bw <= 12,
        4 <= bh <= 12,
        1 <= nparts <= 3,
        seed < 1024,
    ensures
        r.0@.len() == bw * bh,
        forall|i: int| 0 <= i < r.0@.len() ==> (#[trigger] r.0@[i]) < nparts,
        routed_as(r.0@, seed, bw, bh, nparts),
        routed_facts(r.0@, texels@, r.3, r.1, r.2),
        routed_ends(r.0@, texels@, r.1, r.2),
{
    let small = bw * bh < 31;
    let mut part: Vec<u8> = Vec::new();
    let mut lo = [[255u8; 4]; 3];
    let mut hi = [[0u8; 4]; 3];
    let mut count = [0u32; 3];
    let mut ty: u32 = 0;
    while ty < bh
        invariant
            texels@.len() == bw * bh,
            4 <= bw <= 12,
            4 <= bh <= 12,
            1 <= nparts <= 3,
            seed < 1024,
            small == (bw * bh < 31),
            ty <= bh,
            part@.len() == ty * bw,
            routed_as(part@, seed, bw, bh, nparts),
            forall|k: int| 0 <= k < 3 ==> #[trigger] count[k] <= ty * bw,
            routed_facts(part@, texels@, count, lo, hi),
            routed_ends(part@, texels@, lo, hi),
        decreases bh - ty,
    {
        let mut tx: u32 = 0;
        while tx < bw
            invariant
                texels@.len() == bw * bh,
                4 <= bw <= 12,
                4 <= bh <= 12,
                1 <= nparts <= 3,
                seed < 1024,
                small == (bw * bh < 31),
                ty < bh,
                tx <= bw,
                part@.len() == ty * bw + tx,
                routed_as(part@, seed, bw, bh, nparts),
                forall|k: int| 0 <= k < 3 ==> #[trigger] count[k] <= ty * bw + tx,
                routed_facts(part@, texels@, count, lo, hi),
                routed_ends(part@, texels@, lo, hi),
            decreases bw - tx,
        {
            let p: u32 = if nparts == 1 {
                0
            } else {
                let q = select_partition(seed, tx, ty, nparts, small);
                if q > nparts - 1 {
                    nparts - 1
                } else {
                    q
                }
            };
            assert(ty * bw + tx < bw * bh && ty * bw <= 144) by (nonlinear_arith)
                requires
                    ty < bh,
                    tx < bw,
                    bw <= 12,
                    bh <= 12,
            ;
            let idx = (ty * bw + tx) as usize;
            proof {
                vstd::arithmetic::div_mod::lemma_fundamental_div_mod_converse(idx as int, bw as int, ty as int, tx as int);
                assert(p == texel_partition(seed, bw, bh, nparts, idx as int));
            }
            let ghost part0 = part@;
            let ghost lo0 = lo;
            let ghost hi0 = hi;
            let ghost count0 = count;
            part.push(p as u8);
            count[p as usize] = count[p as usize] + 1;
            let t = texels[idx];
            let mut c: usize = 0;
            while c < 4
                invariant
                    p < 3,
                    c <= 4,
                    forall|k: int| 0 <= k < 3 && k != p ==> #[trigger] lo[k] == lo0[k],
                    forall|k: int| 0 <= k < 3 && k != p ==> #[trigger] hi[k] == hi0[k],
                    forall|cc: int| 0 <= cc < 4 ==> #[trigger] lo[p as int][cc] == if cc < c {
                        min_u8(t[cc], lo0[p as int][cc])
                    } else {
                        lo0[p as int][cc]
                    },
                    forall|cc: int| 0 <= cc < 4 ==> #[trigger] hi[p as int][cc] == if cc < c {
                        max_u8(t[cc], hi0[p as int][cc])
                    } else {
                        hi0[p as int][cc]
                    },
                decreases 4 - c,
            {
                let ghost lo1 = lo;
                let ghost hi1 = hi;
                if t[c] < lo[p as usize][c] {
                    lo[p as usize][c] = t[c];
                }
                if t[c] > hi[p as usize][c] {
                    hi[p as usize][c] = t[c];
                }
                assert(forall|k: int| 0 <= k < 3 && k != p ==> #[trigger] lo[k] == lo1[k]);
                assert(forall|k: int| 0 <= k < 3 && k != p ==> #[trigger] hi[k] == hi1[k]);
                assert(forall|cc: int| 0 <= cc < 4 && cc != c ==> #[trigger] lo[p as int][cc] == lo1[p as int][cc]);
                assert(forall|cc: int| 0 <= cc < 4 && cc != c ==> #[trigger] hi[p as int][cc] == hi1[p as int][cc]);
                c += 1;
            }
            proof {
                assert(part@ == part0.push(p as u8));
                assert(t == texels@[part0.len() as int]);
                assert(lo[p as int][3] == min_u8(t[3], lo0[p as int][3]));
                assert(hi[p as int][3] == max_u8(t[3], hi0[p as int][3]));
                assert forall|k: int, c: int| 0 <= k < 3 && 0 <= c < 4 implies #[trigger] lo[k][c] == part_lo(
                    part@,
                    texels@,
                    k,
                    c,
                    part@.len() as int,
                ) && hi[k][c] == part_hi(part@, texels@, k, c, part@.len() as int) by {
                    lemma_part_ends_prefix(part@, part0, texels@, k, c, part0.len() as int);
                    assert(lo0[k][c] == part_lo(part0, texels@, k, c, part0.len() as int));
                    if k == p {
                        assert(lo[p as int][c] == min_u8(t[c], lo0[p as int][c]));
                        assert(hi[p as int][c] == max_u8(t[c], hi0[p as int][c]));
                    } else {
                        assert(lo[k] == lo0[k] && hi[k] == hi0[k]);
                    }
                }
                assert forall|k: int| 0 <= k < 3 implies (#[trigger] count[k] > 0 <==> part_has(part@, k)) && (
                lo[k][3] == 255 <==> part_opaque(part@, texels@, k)) && (hi[k][3] == 255 <==> part_some_opaque(
                    part@,
                    texels@,
                    k,
                )) by {
                    lemma_part_push(part0, texels@, p as u8, k);
                    assert(count0[k] > 0 <==> part_has(part0, k));
                    if k != p {
                        assert(lo[k] == lo0[k] && hi[k] == hi0[k] && count[k] == count0[k]);
                    }
                }
                assert forall|i: int| 0 <= i < part@.len() implies (#[trigger] part@[i]) < nparts && part@[i]
                    == texel_partition(seed, bw, bh, nparts, i) by {
                    if i < part0.len() {
                        assert(part@[i] == part0[i]);
                    }
                }
            }
            tx += 1;
        }
        assert((ty + 1) * bw == ty * bw + bw) by (nonlinear_arith);
        ty += 1;
    }
    (part, lo, hi, count)
}

/// The single-subset block: min/max endpoints over the block, CEM 8 when
/// alpha is uniformly opaque (else 12), on the first layout that fits;
/// the void-extent block of the mean colour when none does.
fn single_subset_block(table: &Vec<ModeEntry>, texels: &[[u8; 4]], bw: u32, bh: u32) -> (block: [u8; 16])
    requires
        texels@.len() == bw * bh,
        4 <= bw <= 12,
        4 <= bh <= 12,
        forall|i: int| 0 <= i < table@.len() ==> (#[trigger] table@[i]).6 < 2048,
    ensures
        single_subset_result(table@, block@, texels@, bw, bh),
        block@ == single_candidate(table@, texels@, bw, bh),
{
    let (part, lo, hi, count) = route_partitions(texels, bw, bh, 0, 1);
    proof {
        lemma_routed_summary(part@, texels@, count, lo, hi, 0, bw, bh, 1);
        assert(texel_partition(0, bw, bh, 1, 0) == 0);
        assert(partition_filled(0, bw, bh, 1, 0));
        assert(lo[0][3] == 255 && hi[0][3] == 255 <==> all_opaque(texels@));
    }
    let cem: u32 = if lo[0][3] == 255 && hi[0][3] == 255 {
        8
    } else {
        12
    };
    match pick_layout(table, bw, bh, false, cem_value_count(cem), 17) {
        Some(l) => {
            let b = assemble_block(texels, &part, 1, bw, bh, l, 0, cem, lo, hi, 4);
            proof {
                assert(layout_ok(l, bw, bh));
                lemma_route_ends(part@, texels@, lo, hi, 0, bw, bh, 1);
                lemma_fitted_transfer(
                    b@,
                    l,
                    1,
                    0,
                    cem,
                    |k: int, c: int| lo[k][c],
                    |k: int, c: int| hi[k][c],
                    route_lo(texels@, 0, bw, bh, 1),
                    route_hi(texels@, 0, bw, bh, 1),
                );
                assert(cem == chosen_cem(texels@));
                lemma_normal_cand(b@, texels@, bw, bh, l, 1, 0, cem, 4, part@, lo, hi);
            }
            b
        },
        None => {
            let n = bw * bh;
            let mut acc = [0u32; 4];
            let mut i: usize = 0;
            while i < texels.len()
                invariant
                    texels@.len() == n,
                    n <= 144,
                    i <= n,
                    forall|k: int| 0 <= k < 4 ==> #[trigger] acc[k] <= 255 * i,
                    forall|k: int| 0 <= k < 4 ==> #[trigger] acc[k] == chan_sum(texels@, k, i as int),
                decreases texels.len() - i,
            {
                let t = texels[i];
                acc[0] = acc[0] + t[0] as u32;
                acc[1] = acc[1] + t[1] as u32;
                acc[2] = acc[2] + t[2] as u32;
                acc[3] = acc[3] + t[3] as u32;
                i += 1;
            }
            assert(16 <= n) by (nonlinear_arith)
                requires
                    n == bw * bh,
                    bw >= 4,
                    bh >= 4,
            ;
            assert(forall|k: int| 0 <= k < 4 ==> #[trigger] acc[k] / n <= 255) by {
                assert forall|k: int| 0 <= k < 4 implies #[trigger] acc[k] / n <= 255 by {
                    assert(acc[k] / n <= 255) by (nonlinear_arith)
                        requires
                            acc[k] <= 255 * n,
                            n >= 1,
                    ;
                }
            }
            let b = encode_void_extent([(acc[0] / n) as u8, (acc[1] / n) as u8, (acc[2] / n) as u8, (acc[3] / n) as u8]);
            proof {
                assert(texels@.len() == n);
                assert([(acc[0] / n) as u8, (acc[1] / n) as u8, (acc[2] / n) as u8, (acc[3] / n) as u8] == mean_colour(
                    texels@,
                ));
            }
            b
        },
    }
}

/// The block of `nparts` (2 or 3) partitions of seed `seed`, if the seed
/// fills every partition, the alpha rules allow it (three partitions need
/// uniformly opaque alpha) and a layout fits.
fn encode_multi_subset(table: &Vec<ModeEntry>, texels: &[[u8; 4]], bw: u32, bh: u32, seed: u32, nparts: u32) -> (r: Option<[u8; 16]>)
    requires
        texels@.len() == bw * bh,
        4 <= bw <= 12,
        4 <= bh <= 12,
        2 <= nparts <= 3,
        seed < 1024,
        forall|i: int| 0 <= i < table@.len() ==> (#[trigger] table@[i]).6 < 2048,
    ensures
        r matches Some(b) ==> multi_subset_form(b@, texels@, bw, bh, seed, nparts),
        r is Some <==> multi_subset_fits(table@, texels@, bw, bh, seed, nparts),
        r matches Some(b) ==> multi_candidate(table@, texels@, bw, bh, seed, nparts) == Some(b@),
        r is None ==> multi_candidate(table@, texels@, bw, bh, seed, nparts) is None,
{
    let (part, lo, hi, count) = route_partitions(texels, bw, bh, seed, nparts);
    proof {
        lemma_routed_summary(part@, texels@, count, lo, hi, seed, bw, bh, nparts);
    }
    if count[0] == 0 || count[1] == 0 || (nparts == 3 && count[2] == 0) {
        proof {
            let k: int = if count[0] == 0 {
                0
            } else if count[1] == 0 {
                1
            } else {
                2
            };
            assert(count[k] == 0);
            assert(!partition_filled(seed, bw, bh, nparts, k));
        }
        return None;
    }
    let opaque = lo[0][3] == 255 && hi[0][3] == 255 && lo[1][3] == 255 && hi[1][3] == 255 && (nparts == 2 || (
    lo[2][3] == 255 && hi[2][3] == 255));
    proof {
        assert(count[0] > 0 && count[1] > 0 && (nparts == 3 ==> count[2] > 0));
        assert(forall|k: int| 0 <= k < nparts ==> #[trigger] partition_filled(seed, bw, bh, nparts, k));
        assert(opaque <==> forall|k: int| 0 <= k < nparts ==> #[trigger] lo[k][3] == 255 && hi[k][3] == 255);
        assert(opaque == all_opaque(texels@));
    }
    if nparts == 3 && !opaque {
        return None;
    }
    let cem: u32 = if opaque {
        8
    } else {
        12
    };
    let total = cem_value_count(cem) * nparts;
    assert(total == (cem_count(chosen_cem(texels@)) * nparts) as u32);
    match pick_layout(table, bw, bh, false, total, 29) {
        Some(l) => {
            let b = assemble_block(texels, &part, nparts as usize, bw, bh, l, seed, cem, lo, hi, if nparts == 3 {
                3
            } else {
                4
            });
            proof {
                assert(layout_ok(l, bw, bh));
                lemma_route_ends(part@, texels@, lo, hi, seed, bw, bh, nparts);
                lemma_fitted_transfer(
                    b@,
                    l,
                    nparts as int,
                    seed,
                    cem,
                    |k: int, c: int| lo[k][c],
                    |k: int, c: int| hi[k][c],
                    route_lo(texels@, seed, bw, bh, nparts),
                    route_hi(texels@, seed, bw, bh, nparts),
                );
                assert(cem == chosen_cem(texels@));
                lemma_normal_cand(b@, texels@, bw, bh, l, nparts, seed, cem, if nparts == 3 { 3int } else { 4int }, part@, lo, hi);
            }
            Some(b)
        },
        None => None,
    }
}

/// The dual-plane block (alpha on its own weight plane), if a layout fits.
fn dual_plane_block(table: &Vec<ModeEntry>, texels: &[[u8; 4]], bw: u32, bh: u32) -> (r: Option<[u8; 16]>)
    requires
        texels@.len() == bw * bh,
        4 <= bw <= 12,
        4 <= bh <= 12,
        forall|i: int| 0 <= i < table@.len() ==> (#[trigger] table@[i]).6 < 2048,
    ensures
        r matches Some(b) ==> dual_plane_form(b@, texels@, bw, bh),
        r is Some <==> grid_chain_fits(table@, shrink_grid(bw, bh).0, shrink_grid(bw, bh).1, true, 8, 17),
        r matches Some(b) ==> dual_candidate(table@, texels@, bw, bh) == Some(b@),
        r is None ==> dual_candidate(table@, texels@, bw, bh) is None,
{
    let (part, lo, hi, _count) = route_partitions(texels, bw, bh, 0, 1);
    match pick_layout(table, bw, bh, true, 8, 17) {
        Some(l) => {
            let b = assemble_dual_plane(texels, bw, bh, l, lo[0], hi[0]);
            proof {
                assert(layout_ok(l, bw, bh));
                lemma_route_ends(part@, texels@, lo, hi, 0, bw, bh, 1);
                let lf = |c: int| lo[0][c];
                let hf = |c: int| hi[0][c];
                let lr = |c: int| route_lo(texels@, 0, bw, bh, 1)(0, c);
                let hr = |c: int| route_hi(texels@, 0, bw, bh, 1)(0, c);
                assert(lf(0) == lr(0) && lf(1) == lr(1) && lf(2) == lr(2) && lf(3) == lr(3));
                assert(hf(0) == hr(0) && hf(1) == hr(1) && hf(2) == hr(2) && hf(3) == hr(3));
                assert(dual_colour_values(lf, hf, l.color_range) =~= dual_colour_values(lr, hr, l.color_range));
                let grid = choose|grid: Seq<u32>| #[trigger] dual_block_of(b@, l, dual_colour_values(lf, hf, l.color_range), grid);
                assert(dual_block_of(b@, l, dual_colour_values(lr, hr, l.color_range), grid));
                let v = dual_colour_values(lr, hr, l.color_range);
                assert(dual_block_of(b@, l, v, dual_grid(texels@, bw, bh, l, v)));
                lemma_dual_unique(b@, l, v, dual_grid(texels@, bw, bh, l, v));
            }
            Some(b)
        },
        None => None,
    }
}

/// The single-subset candidate block for a block of texels at a supported
/// footprint.
pub fn encode_single_subset(texels: &[[u8; 4]], bw: u32, bh: u32) -> (block: [u8; 16])
    requires
        footprint_ok(bw, bh),
        texels@.len() == bw * bh,
    ensures
        single_subset_form(block@, texels@, bw, bh),
        block@ == single_candidate(mode_entries(2048), texels@, bw, bh),
{
    proof {
        lemma_footprint_bounds(bw as u8, bh as u8);
    }
    let table = block_mode_table();
    single_subset_block(&table, texels, bw, bh)
}

/// The two-subset candidate block of partition seed `seed`, if both
/// partitions hold a texel and a weight grid fits.
pub fn encode_two_subset(texels: &[[u8; 4]], bw: u32, bh: u32, seed: u32) -> (r: Option<[u8; 16]>)
    requires
        footprint_ok(bw, bh),
        texels@.len() == bw * bh,
        seed < 1024,
    ensures
        r matches Some(b) ==> multi_subset_form(b@, texels@, bw, bh, seed, 2),
        r is Some <==> multi_subset_fits(mode_entries(2048), texels@, bw, bh, seed, 2),
        r matches Some(b) ==> multi_candidate(mode_entries(2048), texels@, bw, bh, seed, 2) == Some(b@),
        r is None ==> multi_candidate(mode_entries(2048), texels@, bw, bh, seed, 2) is None,
{
    proof {
        lemma_footprint_bounds(bw as u8, bh as u8);
    }
    let table = block_mode_table();
    encode_multi_subset(&table, texels, bw, bh, seed, 2)
}

/// The three-subset candidate block of partition seed `seed`, if all three
/// partitions hold a texel, every texel is opaque and a weight grid fits.
pub fn encode_three_subset(texels: &[[u8; 4]], bw: u32, bh: u32, seed: u32) -> (r: Option<[u8; 16]>)
    requires
        footprint_ok(bw, bh),
        texels@.len() == bw * bh,
        seed < 1024,
    ensures
        r matches Some(b) ==> multi_subset_form(b@, texels@, bw, bh, seed, 3),
        r is Some <==> multi_subset_fits(mode_entries(2048), texels@, bw, bh, seed, 3),
        r matches Some(b) ==> multi_candidate(mode_entries(2048), texels@, bw, bh, seed, 3) == Some(b@),
        r is None ==> multi_candidate(mode_entries(2048), texels@, bw, bh, seed, 3) is None,
{
    proof {
        lemma_footprint_bounds(bw as u8, bh as u8);
    }
    let table = block_mode_table();
    encode_multi_subset(&table, texels, bw, bh, seed, 3)
}

/// The dual-plane candidate block, if a weight grid for it fits the footprint.
pub fn encode_dual_plane(texels: &[[u8; 4]], bw: u32, bh: u32) -> (r: Option<[u8; 16]>)
    requires
        footprint_ok(bw, bh),
        texels@.len() == bw * bh,
    ensures
        r matches Some(b) ==> dual_plane_form(b@, texels@, bw, bh),
        r is Some <==> grid_chain_fits(mode_entries(2048), shrink_grid(bw, bh).0, shrink_grid(bw, bh).1, true, 8, 17),
        r matches Some(b) ==> dual_candidate(mode_entries(2048), texels@, bw, bh) == Some(b@),
        r is None ==> dual_candidate(mode_entries(2048), texels@, bw, bh) is None,
{
    proof {
        lemma_footprint_bounds(bw as u8, bh as u8);
    }
    let table = block_mode_table();
    dual_plane_block(&table, texels, bw, bh)
}

// ---- Encoding a block -------------------------------------------------------------------

/// All texels equal the first one.
pub open spec fn uniform(texels: Seq<[u8; 4]>) -> bool {
    forall|i: int| 0 <= i < texels.len() ==> #[trigger] texels[i] == texels[0]
}

/// Whether every texel equals the first one.
fn all_same(texels: &[[u8; 4]]) -> (r: bool)
    requires
        texels@.len() >= 1,
    ensures
        r == uniform(texels@),
{
    let first = texels[0];
    let mut i: usize = 0;
    while i < texels.len()
        invariant
            i <= texels@.len(),
            first == texels@[0],
            forall|k: int| 0 <= k < i ==> #[trigger] texels@[k] == first,
        decreases texels.len() - i,
    {
        let t = texels[i];
        if !(t[0] == first[0] && t[1] == first[1] && t[2] == first[2] && t[3] == first[3]) {
            assert(texels@[i as int] != texels@[0]);
            return false;
        }
        assert(t =~= first);
        i += 1;
    }
    true
}

/// `b` is one of the encoder's candidate blocks for `texels`: the
/// single-subset block, a dual-plane block, or a two- or three-subset
/// block of some seed.
pub open spec fn astc_candidate(b: Seq<u8>, texels: Seq<[u8; 4]>, bw: u32, bh: u32) -> bool {
    ||| single_subset_form(b, texels, bw, bh)
    ||| dual_plane_form(b, texels, bw, bh)
    ||| exists|seed: u32|
        #![trigger multi_subset_form(b, texels, bw, bh, seed, 2)]
        #![trigger multi_subset_form(b, texels, bw, bh, seed, 3)]
        seed < 1024 && (multi_subset_form(b, texels, bw, bh, seed, 2) || multi_subset_form(b, texels, bw, bh, seed, 3))
}

/// Sum of absolute channel differences between what `b` decodes to and
/// `texels`.
pub open spec fn cand_sad(b: Seq<u8>, texels: Seq<[u8; 4]>, bw: u32, bh: u32) -> int {
    sad_upto(astc_texels(b, bw, bh), texels, texels.len() as int)
}

/// Some texel's alpha differs from the first texel's.
pub open spec fn alpha_varies(texels: Seq<[u8; 4]>) -> bool {
    exists|i: int| 0 <= i < texels.len() && #[trigger] texels[i][3] != texels[0][3]
}

/// Try `j` (of 18) of the block encoder, in the order it makes them: the
/// single-subset block; the dual-plane block when alpha varies; the
/// two-subset blocks of the seeds in [`SEEDS`]; the three-subset blocks of
/// those seeds when every texel is opaque. `None` where the try gives no
/// block.
#[verifier::opaque]
pub open spec fn astc_try(texels: Seq<[u8; 4]>, bw: u32, bh: u32, j: int) -> Option<Seq<u8>> {
    let table = mode_entries(2048);
    if j == 0 {
        Some(single_candidate(table, texels, bw, bh))
    } else if j == 1 {
        if alpha_varies(texels) {
            dual_candidate(table, texels, bw, bh)
        } else {
            None
        }
    } else if j < 10 {
        multi_candidate(table, texels, bw, bh, SEEDS[j - 2], 2)
    } else if all_opaque(texels) {
        multi_candidate(table, texels, bw, bh, SEEDS[j - 10], 3)
    } else {
        None
    }
}

/// Of the first `n` tries, `b` is try `bi`, no try decodes closer to
/// `texels` than it, and every earlier try decodes farther.
pub open spec fn least_sad_upto(b: Seq<u8>, texels: Seq<[u8; 4]>, bw: u32, bh: u32, bi: int, n: int) -> bool {
    &&& 0 <= bi < n
    &&& astc_try(texels, bw, bh, bi) == Some(b)
    &&& forall|j: int|
        0 <= j < n && (#[trigger] astc_try(texels, bw, bh, j)) is Some ==> cand_sad(b, texels, bw, bh) <= cand_sad(
            astc_try(texels, bw, bh, j)->0,
            texels,
            bw,
            bh,
        )
    &&& forall|j: int|
        0 <= j < bi && (#[trigger] astc_try(texels, bw, bh, j)) is Some ==> cand_sad(b, texels, bw, bh) < cand_sad(
            astc_try(texels, bw, bh, j)->0,
            texels,
            bw,
            bh,
        )
}

/// `b` is the first of the block encoder's 18 tries that decodes with the
/// least sum of absolute channel differences from `texels`.
pub open spec fn least_sad_choice(b: Seq<u8>, texels: Seq<[u8; 4]>, bw: u32, bh: u32) -> bool {
    exists|bi: int| #[trigger] least_sad_upto(b, texels, bw, bh, bi, 18)
}

/// The block the encoder keeps decodes no farther from the texels than the
/// single-subset block for them does.
pub proof fn lemma_least_sad_no_worse_than_single(b: Seq<u8>, texels: Seq<[u8; 4]>, bw: u32, bh: u32)
    requires
        least_sad_choice(b, texels, bw, bh),
    ensures
        cand_sad(b, texels, bw, bh) <= cand_sad(single_candidate(mode_entries(2048), texels, bw, bh), texels, bw, bh),
{
    let bi = choose|bi: int| #[trigger] least_sad_upto(b, texels, bw, bh, bi, 18);
    assert(astc_try(texels, bw, bh, 0) == Some(single_candidate(mode_entries(2048), texels, bw, bh))) by {
        reveal(astc_try);
    }
}

/// A sum of absolute differences is never negative.
proof fn lemma_sad_nonneg(dec: Seq<[u8; 4]>, src: Seq<[u8; 4]>, n: int)
    ensures
        sad_upto(dec, src, n) >= 0,
    decreases n,
{
    if n > 0 {
        lemma_sad_nonneg(dec, src, n - 1);
    }
}

/// Looking at one more try keeps the better of the best so far and that try.
proof fn lemma_least_step(b: Seq<u8>, c: Option<Seq<u8>>, texels: Seq<[u8; 4]>, bw: u32, bh: u32, bi: int, n: int)
    requires
        least_sad_upto(b, texels, bw, bh, bi, n),
        c == astc_try(texels, bw, bh, n),
    ensures
        c is None ==> least_sad_upto(b, texels, bw, bh, bi, n + 1),
        c is Some && cand_sad(c->0, texels, bw, bh) < cand_sad(b, texels, bw, bh) ==> least_sad_upto(c->0, texels, bw, bh, n, n + 1),
        c is Some && cand_sad(c->0, texels, bw, bh) >= cand_sad(b, texels, bw, bh) ==> least_sad_upto(b, texels, bw, bh, bi, n + 1),
{
}

/// A try that decodes exactly is the least of all tries.
proof fn lemma_least_exact(b: Seq<u8>, texels: Seq<[u8; 4]>, bw: u32, bh: u32, bi: int, n: int)
    requires
        least_sad_upto(b, texels, bw, bh, bi, n),
        n <= 18,
        cand_sad(b, texels, bw, bh) == 0,
    ensures
        least_sad_upto(b, texels, bw, bh, bi, 18),
{
    assert forall|j: int| 0 <= j < 18 && (#[trigger] astc_try(texels, bw, bh, j)) is Some implies cand_sad(b, texels, bw, bh) <= cand_sad(
        astc_try(texels, bw, bh, j)->0,
        texels,
        bw,
        bh,
    ) by {
        lemma_sad_nonneg(astc_texels(astc_try(texels, bw, bh, j)->0, bw, bh), texels, texels.len() as int);
    }
}

/// Tries that give no block leave the best so far as it is.
proof fn lemma_least_skip(b: Seq<u8>, texels: Seq<[u8; 4]>, bw: u32, bh: u32, bi: int, n: int, m: int)
    requires
        least_sad_upto(b, texels, bw, bh, bi, n),
        n <= m,
        forall|j: int| n <= j < m ==> (#[trigger] astc_try(texels, bw, bh, j)) is None,
    ensures
        least_sad_upto(b, texels, bw, bh, bi, m),
{
}

/// Encode one block of `bw × bh` RGBA8 texels (`texels[y * bw + x]`) into
/// a 128-bit ASTC LDR block.
///
/// An unsupported footprint gives the void-extent block of opaque black,
/// and a block of one colour the void-extent block of that colour.
/// Otherwise the encoder keeps, of the single-subset block, the
/// dual-plane block (when alpha varies), the two-subset blocks of the
/// seeds in [`SEEDS`] and (for opaque blocks) the three-subset blocks of
/// those seeds, the first one that decodes with the least sum of absolute
/// channel differences, stopping early at an exact one.
#[verifier::spinoff_prover]
#[verifier::rlimit(40)]
pub fn encode_astc_ldr_block(texels: &[[u8; 4]], bw: u32, bh: u32) -> (block: [u8; 16])
    requires
        texels@.len() == bw * bh,
    ensures
        !footprint_ok(bw, bh) ==> block@ == void_block([0u8, 0u8, 0u8, 255u8]),
        footprint_ok(bw, bh) && uniform(texels@) ==> block@ == void_block(texels@[0]),
        footprint_ok(bw, bh) && uniform(texels@) ==> astc_texels(block@, bw, bh) == texels@,
        footprint_ok(bw, bh) && !uniform(texels@) ==> astc_candidate(block@, texels@, bw, bh),
        footprint_ok(bw, bh) && !uniform(texels@) ==> least_sad_choice(block@, texels@, bw, bh),
        footprint_ok(bw, bh) ==> astc_block_ok(block@, texels@, bw, bh),
{
    if !(bw <= 255 && bh <= 255 && is_valid_footprint(bw as u8, bh as u8)) {
        return encode_void_extent([0, 0, 0, 255]);
    }
    proof {
        lemma_footprint_bounds(bw as u8, bh as u8);
    }
    assert(bw * bh <= 144) by (nonlinear_arith)
        requires
            bw <= 12,
            bh <= 12,
    ;
    assert(bw * bh >= 16) by (nonlinear_arith)
        requires
            bw >= 4,
            bh >= 4,
    ;
    if all_same(texels) {
        let block = encode_void_extent(texels[0]);
        proof {
            lemma_void_block_decodes(texels@[0], bw, bh);
            assert(texels@ =~= Seq::new((bw * bh) as nat, |t: int| texels@[0]));
        }
        return block;
    }
    let table = block_mode_table();
    let mut best = single_subset_block(&table, texels, bw, bh);
    let mut best_sad = block_sad(&best, texels, bw, bh);
    let ghost mut bi: int = 0;
    proof {
        assert(astc_try(texels@, bw, bh, 0) == Some(best@)) by {
            reveal(astc_try);
        }
        assert(least_sad_upto(best@, texels@, bw, bh, 0, 1));
    }
    if best_sad == 0 {
        proof {
            lemma_least_exact(best@, texels@, bw, bh, 0, 1);
        }
        return best;
    }
    let first_alpha = texels[0][3];
    let mut varies = false;
    let mut opaque = true;
    let mut i: usize = 0;
    while i < texels.len()
        invariant
            i <= texels@.len(),
            first_alpha == texels@[0][3],
            varies <==> exists|j: int| 0 <= j < i && #[trigger] texels@[j][3] != first_alpha,
            opaque <==> forall|j: int| 0 <= j < i ==> #[trigger] texels@[j][3] == 255,
        decreases texels.len() - i,
    {
        if texels[i][3] != first_alpha {
            varies = true;
        }
        if texels[i][3] != 255 {
            opaque = false;
        }
        i += 1;
    }
    proof {
        assert(varies == alpha_varies(texels@));
        assert(opaque == all_opaque(texels@));
        assert(astc_try(texels@, bw, bh, 1) == if varies {
            dual_candidate(mode_entries(2048), texels@, bw, bh)
        } else {
            None
        }) by {
            reveal(astc_try);
        }
        lemma_least_step(best@, astc_try(texels@, bw, bh, 1), texels@, bw, bh, bi, 1);
    }
    if varies {
        if let Some(cand) = dual_plane_block(&table, texels, bw, bh) {
            let sad = block_sad(&cand, texels, bw, bh);
            if sad < best_sad {
                best_sad = sad;
                best = cand;
                proof {
                    bi = 1;
                }
                if best_sad == 0 {
                    proof {
                        lemma_least_exact(best@, texels@, bw, bh, bi, 2);
                    }
                    return best;
                }
            }
        }
    }
    let mut k: usize = 0;
    while k < 8
        invariant
            texels@.len() == bw * bh,
            4 <= bw <= 12,
            4 <= bh <= 12,
            bw * bh <= 144,
            footprint_ok(bw, bh),
            !uniform(texels@),
            table@ == mode_entries(2048),
            forall|i: int| 0 <= i < table@.len() ==> (#[trigger] table@[i]).6 < 2048,
            astc_candidate(best@, texels@, bw, bh),
            k <= 8,
            best_sad == cand_sad(best@, texels@, bw, bh),
            least_sad_upto(best@, texels@, bw, bh, bi, 2 + k),
        decreases 8 - k,
    {
        let r = encode_multi_subset(&table, texels, bw, bh, SEEDS[k], 2);
        proof {
            assert(astc_try(texels@, bw, bh, 2 + k) == multi_candidate(mode_entries(2048), texels@, bw, bh, SEEDS[k as int], 2)) by {
                reveal(astc_try);
            }
            lemma_least_step(best@, astc_try(texels@, bw, bh, 2 + k), texels@, bw, bh, bi, 2 + k);
        }
        if let Some(cand) = r {
            proof {
                assert(SEEDS[k as int] < 1024);
                assert(astc_candidate(cand@, texels@, bw, bh));
            }
            let sad = block_sad(&cand, texels, bw, bh);
            if sad < best_sad {
                best_sad = sad;
                best = cand;
                proof {
                    bi = 2 + k;
                }
                if best_sad == 0 {
                    proof {
                        lemma_least_exact(best@, texels@, bw, bh, bi, 3 + k);
                    }
                    return best;
                }
            }
        }
        k += 1;
    }
    if opaque {
        proof {
            assert forall|j: int| 10 <= j < 18 implies #[trigger] astc_try(texels@, bw, bh, j) == multi_candidate(
                mode_entries(2048),
                texels@,
                bw,
                bh,
                SEEDS[j - 10],
                3,
            ) by {
                reveal(astc_try);
            }
        }
        let mut k: usize = 0;
        while k < 8
            invariant
                texels@.len() == bw * bh,
                4 <= bw <= 12,
                4 <= bh <= 12,
                bw * bh <= 144,
                footprint_ok(bw, bh),
                !uniform(texels@),
                forall|j: int|
                    10 <= j < 18 ==> #[trigger] astc_try(texels@, bw, bh, j) == multi_candidate(
                        mode_entries(2048),
                        texels@,
                        bw,
                        bh,
                        SEEDS[j - 10],
                        3,
                    ),
                table@ == mode_entries(2048),
                forall|i: int| 0 <= i < table@.len() ==> (#[trigger] table@[i]).6 < 2048,
                astc_candidate(best@, texels@, bw, bh),
                k <= 8,
                best_sad == cand_sad(best@, texels@, bw, bh),
                least_sad_upto(best@, texels@, bw, bh, bi, 10 + k),
            decreases 8 - k,
        {
            let r = encode_multi_subset(&table, texels, bw, bh, SEEDS[k], 3);
            proof {
                assert(astc_try(texels@, bw, bh, 10 + k) == multi_candidate(mode_entries(2048), texels@, bw, bh, SEEDS[k as int], 3));
                lemma_least_step(best@, astc_try(texels@, bw, bh, 10 + k), texels@, bw, bh, bi, 10 + k);
            }
            if let Some(cand) = r {
                proof {
                    assert(SEEDS[k as int] < 1024);
                    assert(astc_candidate(cand@, texels@, bw, bh));
                }
                let sad = block_sad(&cand, texels, bw, bh);
                if sad < best_sad {
                    best_sad = sad;
                    best = cand;
                    proof {
                        bi = 10 + k;
                    }
                    if best_sad == 0 {
                        proof {
                            lemma_least_exact(best@, texels@, bw, bh, bi, 11 + k);
                        }
                        return best;
                    }
                }
            }
            k += 1;
        }
    } else {
        proof {
            assert forall|j: int| 10 <= j < 18 implies (#[trigger] astc_try(texels@, bw, bh, j)) is None by {
                reveal(astc_try);
            }
            lemma_least_skip(best@, texels@, bw, bh, bi, 10, 18);
        }
    }
    best
}

// ---- The void-extent block decodes to its colour -----------------------------------------

/// Sixteen stream bits read from two bytes, low byte first, make the
/// little-endian word of the two bytes.
proof fn lemma_two_byte_field(x: u8, y: u8)
    by (bit_vector)
    ensures
        ((((((((((((((((0u64 | ((((x >> 0u8) & 1u8) as u64) << 0u64)) | ((((x >> 1u8) & 1u8) as u64) << 1u64)) | ((((x >> 2u8) & 1u8) as u64) << 2u64)) | ((((x >> 3u8) & 1u8) as u64) << 3u64)) | ((((x >> 4u8) & 1u8) as u64) << 4u64)) | ((((x >> 5u8) & 1u8) as u64) << 5u64)) | ((((x >> 6u8) & 1u8) as u64) << 6u64)) | ((((x >> 7u8) & 1u8) as u64) << 7u64)) | ((((y >> 0u8) & 1u8) as u64) << 8u64)) | ((((y >> 1u8) & 1u8) as u64) << 9u64)) | ((((y >> 2u8) & 1u8) as u64) << 10u64)) | ((((y >> 3u8) & 1u8) as u64) << 11u64)) | ((((y >> 4u8) & 1u8) as u64) << 12u64)) | ((((y >> 5u8) & 1u8) as u64) << 13u64)) | ((((y >> 6u8) & 1u8) as u64) << 14u64)) | ((((y >> 7u8) & 1u8) as u64) << 15u64)) == (x as u64) + 256 * (y as u64),
{
}

/// The header bits of a void-extent block: the mode field, the two
/// reserved ones and the LDR flag, and the mode test they pass.
proof fn lemma_void_header(x: u8, y: u8)
    by (bit_vector)
    requires
        x == 0xFC,
        y == 0xFD,
    ensures
        (((((((((((0u64 | ((((x >> 0u8) & 1u8) as u64) << 0u64)) | ((((x >> 1u8) & 1u8) as u64) << 1u64)) | ((((x >> 2u8) & 1u8) as u64) << 2u64)) | ((((x >> 3u8) & 1u8) as u64) << 3u64)) | ((((x >> 4u8) & 1u8) as u64) << 4u64)) | ((((x >> 5u8) & 1u8) as u64) << 5u64)) | ((((x >> 6u8) & 1u8) as u64) << 6u64)) | ((((x >> 7u8) & 1u8) as u64) << 7u64)) | ((((y >> 0u8) & 1u8) as u64) << 8u64)) | ((((y >> 1u8) & 1u8) as u64) << 9u64)) | ((((y >> 2u8) & 1u8) as u64) << 10u64)) == 0x5FC,
        ((0u64 | ((((y >> 2u8) & 1u8) as u64) << 0u64)) | ((((y >> 3u8) & 1u8) as u64) << 1u64)) == 3,
        (0u64 | ((((y >> 1u8) & 1u8) as u64) << 0u64)) == 0,
        (0x5FCu32 & 3u32) == 0u32,
        ((0x5FCu32 >> 2u32) & 0x7fu32) == 0x7fu32,
{
}

/// Block bits `8i .. 8i + 16` read as the little-endian word of bytes
/// `i` and `i + 1`.
proof fn lemma_byte_pair_field(b: Seq<u8>, i: int)
    requires
        b.len() == 16,
        0 <= i <= 14,
    ensures
        block_field(b, 8 * i, 16) == b[i] + 256 * b[i + 1],
{
    reveal_with_fuel(stream_acc, 17);
    lemma_two_byte_field(b[i], b[i + 1]);
}

/// The header of a void-extent block: the mode field marks a void extent,
/// the two reserved bits are set and the HDR flag is clear.
proof fn lemma_void_block_header(c: [u8; 4])
    ensures
        block_mode_spec(block_field(void_block(c), 0, 11)) == ModeClass::VoidExtent,
        block_field(void_block(c), 10, 2) == 3,
        block_field(void_block(c), 9, 1) == 0,
{
    let b = void_block(c);
    reveal_with_fuel(stream_acc, 12);
    lemma_void_header(b[0], b[1]);
    assert(block_field(b, 0, 11) == 0x5FC);
}

/// The colour a void-extent block carries is `c`.
proof fn lemma_void_block_colour(c: [u8; 4])
    ensures
        void_colour(void_block(c)) == c,
{
    let b = void_block(c);
    lemma_void_block_header(c);
    lemma_byte_pair_field(b, 8);
    lemma_byte_pair_field(b, 10);
    lemma_byte_pair_field(b, 12);
    lemma_byte_pair_field(b, 14);
    assert(void_colour(b) =~= c);
}

/// A void-extent block decodes, at every supported footprint, to its
/// colour in every texel.
pub proof fn lemma_void_block_decodes(c: [u8; 4], bw: u32, bh: u32)
    requires
        footprint_ok(bw, bh),
    ensures
        astc_texels(void_block(c), bw, bh) == Seq::new((bw * bh) as nat, |t: int| c),
{
    lemma_void_block_header(c);
    lemma_void_block_colour(c);
    assert(astc_texels(void_block(c), bw, bh) =~= Seq::new((bw * bh) as nat, |t: int| c));
}

// ---- Encoding a surface -----------------------------------------------------------------

/// Texel `t` of block `(bx, by)` of a `w × h` RGBA8 surface at footprint
/// `bw × bh`: the pixel the texel covers, its coordinates clamped to the
/// last row and column.
pub open spec fn gathered_texel(rgba: Seq<u8>, w: u32, h: u32, bw: u32, bh: u32, bx: int, by: int, t: int) -> [u8; 4] {
    let x = bx * bw + t % (bw as int);
    let y = by * bh + t / (bw as int);
    let px = if x < w { x } else { w - 1 };
    let py = if y < h { y } else { h - 1 };
    let o = (py * w + px) * 4;
    [rgba[o], rgba[o + 1], rgba[o + 2], rgba[o + 3]]
}

/// The texels of block `(bx, by)`, row-major.
pub open spec fn gathered_block(rgba: Seq<u8>, w: u32, h: u32, bw: u32, bh: u32, bx: int, by: int) -> Seq<[u8; 4]> {
    Seq::new((bw * bh) as nat, |t: int| gathered_texel(rgba, w, h, bw, bh, bx, by, t))
}

/// Bytes `16k .. 16k + 16` of `s`.
pub open spec fn block_bytes_at(s: Seq<u8>, k: int) -> Seq<u8> {
    s.subrange(16 * k, 16 * k + 16)
}

/// `b` is what the block encoder gives for the texels of a block at a
/// supported `bw × bh` footprint: the void-extent block of their colour
/// when they are all one colour, else the first of its candidate blocks
/// that decodes with the least sum of absolute channel differences.
pub open spec fn astc_block_ok(b: Seq<u8>, texels: Seq<[u8; 4]>, bw: u32, bh: u32) -> bool {
    &&& uniform(texels) ==> b == void_block(texels[0])
    &&& !uniform(texels) ==> astc_candidate(b, texels, bw, bh)
    &&& !uniform(texels) ==> least_sad_choice(b, texels, bw, bh)
}

/// The first `done` blocks of `out` are what the block encoder gives for
/// the texels of the matching blocks of the surface `rgba`.
pub open spec fn blocks_encoded(out: Seq<u8>, rgba: Seq<u8>, w: u32, h: u32, bw: u32, bh: u32, bxc: int, done: int) -> bool {
    forall|k: int|
        0 <= k < done ==> astc_block_ok(
            #[trigger] block_bytes_at(out, k),
            gathered_block(rgba, w, h, bw, bh, k % bxc, k / bxc),
            bw,
            bh,
        )
}

/// Gather the texels of block `(bx, by)`.
fn gather_block(rgba8: &[u8], width: u32, height: u32, bw: u32, bh: u32, bx: u64, by: u64) -> (texels: Vec<[u8; 4]>)
    requires
        4 <= bw <= 12,
        4 <= bh <= 12,
        width >= 1,
        height >= 1,
        width * height * 4 <= rgba8@.len(),
        bx < 0x1_0000_0000,
        by < 0x1_0000_0000,
    ensures
        texels@ == gathered_block(rgba8@, width, height, bw, bh, bx as int, by as int),
{
    let in_len = rgba8.len();
    let mut texels: Vec<[u8; 4]> = Vec::new();
    let mut ly: u32 = 0;
    while ly < bh
        invariant
            4 <= bw <= 12,
            4 <= bh <= 12,
            width >= 1,
            height >= 1,
            width * height * 4 <= rgba8@.len(),
            in_len == rgba8@.len(),
            bx < 0x1_0000_0000,
            by < 0x1_0000_0000,
            ly <= bh,
            texels@.len() == ly * bw,
            forall|t: int| 0 <= t < texels@.len() ==> #[trigger] texels@[t] == gathered_texel(rgba8@, width, height, bw, bh, bx as int, by as int, t),
        decreases bh - ly,
    {
        let mut lx: u32 = 0;
        while lx < bw
            invariant
                4 <= bw <= 12,
                4 <= bh <= 12,
                width >= 1,
                height >= 1,
                width * height * 4 <= rgba8@.len(),
                in_len == rgba8@.len(),
                bx < 0x1_0000_0000,
                by < 0x1_0000_0000,
                ly < bh,
                lx <= bw,
                texels@.len() == ly * bw + lx,
                forall|t: int| 0 <= t < texels@.len() ==> #[trigger] texels@[t] == gathered_texel(rgba8@, width, height, bw, bh, bx as int, by as int, t),
            decreases bw - lx,
        {
            assert(bx * bw + lx <= 0x10_0000_0000 && by * bh + ly <= 0x10_0000_0000) by (nonlinear_arith)
                requires
                    bx < 0x1_0000_0000,
                    by < 0x1_0000_0000,
                    bw <= 12,
                    bh <= 12,
                    lx < bw,
                    ly < bh,
            ;
            let x = bx * (bw as u64) + lx as u64;
            let y = by * (bh as u64) + ly as u64;
            let px: u64 = if x < width as u64 {
                x
            } else {
                (width - 1) as u64
            };
            let py: u64 = if y < height as u64 {
                y
            } else {
                (height - 1) as u64
            };
            assert((py * width + px) * 4 + 4 <= width * height * 4 && py * width <= width * height) by (nonlinear_arith)
                requires
                    px < width,
                    py < height,
            ;
            let o = ((py * (width as u64) + px) * 4) as usize;
            let p = [rgba8[o], rgba8[o + 1], rgba8[o + 2], rgba8[o + 3]];
            proof {
                let t = (ly * bw + lx) as int;
                vstd::arithmetic::div_mod::lemma_fundamental_div_mod_converse(t, bw as int, ly as int, lx as int);
            }
            texels.push(p);
            lx += 1;
        }
        assert((ly + 1) * bw == ly * bw + bw) by (nonlinear_arith);
        ly += 1;
    }
    assert(bh * bw == bw * bh) by (nonlinear_arith);
    assert(texels@ =~= gathered_block(rgba8@, width, height, bw, bh, bx as int, by as int));
    texels
}

/// Encode a `width × height` RGBA8 surface (row-major, tightly packed) as
/// row-major ASTC LDR blocks at footprint `block_w × block_h`,
/// `ceil(width / block_w) × ceil(height / block_h)` of them, each what
/// [`encode_astc_ldr_block`] gives for the block's texels; edge blocks
/// repeat the last row and column. An unsupported footprint or an empty
/// surface gives no bytes.
pub fn encode_astc_ldr(rgba8: &[u8], width: u32, height: u32, block_w: u32, block_h: u32) -> (out: Vec<u8>)
    requires
        footprint_ok(block_w, block_h) && width >= 1 && height >= 1 ==> width * height * 4 <= rgba8@.len()
            && blocks_across(width, block_w) * blocks_across(height, block_h) * 16 <= usize::MAX,
    ensures
        !(footprint_ok(block_w, block_h) && width >= 1 && height >= 1) ==> out@.len() == 0,
        footprint_ok(block_w, block_h) && width >= 1 && height >= 1 ==> out@.len() == blocks_across(width, block_w)
            * blocks_across(height, block_h) * 16 && blocks_encoded(
            out@,
            rgba8@,
            width,
            height,
            block_w,
            block_h,
            blocks_across(width, block_w),
            blocks_across(width, block_w) * blocks_across(height, block_h),
        ),
{
    if !(block_w <= 255 && block_h <= 255 && is_valid_footprint(block_w as u8, block_h as u8)) || width == 0
        || height == 0 {
        return Vec::new();
    }
    proof {
        lemma_footprint_bounds(block_w as u8, block_h as u8);
    }
    let bxc: u64 = (width / block_w) as u64 + if width % block_w == 0 {
        0
    } else {
        1
    };
    let byc: u64 = (height / block_h) as u64 + if height % block_h == 0 {
        0
    } else {
        1
    };
    let ghost total = bxc * byc;
    assert(bxc >= 1 && byc >= 1 && bxc <= 0x4000_0000 && byc <= 0x4000_0000) by (nonlinear_arith)
        requires
            width >= 1,
            height >= 1,
            block_w >= 4,
            block_h >= 4,
            bxc == (width / block_w) as int + if width % block_w == 0 { 0int } else { 1int },
            byc == (height / block_h) as int + if height % block_h == 0 { 0int } else { 1int },
    ;
    let mut out: Vec<u8> = Vec::new();
    let mut by: u64 = 0;
    while by < byc
        invariant
            4 <= block_w <= 12,
            4 <= block_h <= 12,
            footprint_ok(block_w, block_h),
            width >= 1,
            height >= 1,
            width * height * 4 <= rgba8@.len(),
            bxc == blocks_across(width, block_w),
            byc == blocks_across(height, block_h),
            1 <= bxc <= 0x4000_0000,
            1 <= byc <= 0x4000_0000,
            bxc * byc * 16 <= usize::MAX,
            by <= byc,
            out@.len() == by * bxc * 16,
            blocks_encoded(out@, rgba8@, width, height, block_w, block_h, bxc as int, by * bxc),
        decreases byc - by,
    {
        let mut bx: u64 = 0;
        while bx < bxc
            invariant
                4 <= block_w <= 12,
                4 <= block_h <= 12,
                footprint_ok(block_w, block_h),
                width >= 1,
                height >= 1,
                width * height * 4 <= rgba8@.len(),
                bxc == blocks_across(width, block_w),
                byc == blocks_across(height, block_h),
                1 <= bxc <= 0x4000_0000,
                1 <= byc <= 0x4000_0000,
                bxc * byc * 16 <= usize::MAX,
                by < byc,
                bx <= bxc,
                out@.len() == (by * bxc + bx) * 16,
                blocks_encoded(out@, rgba8@, width, height, block_w, block_h, bxc as int, by * bxc + bx),
            decreases bxc - bx,
        {
            let texels = gather_block(rgba8, width, height, block_w, block_h, bx, by);
            assert(texels@.len() == block_w * block_h);
            let block = encode_astc_ldr_block(&texels, block_w, block_h);
            let ghost k = (by * bxc + bx) as int;
            let ghost before = out@;
            proof {
                vstd::arithmetic::div_mod::lemma_fundamental_div_mod_converse(k, bxc as int, by as int, bx as int);
                assert((by * bxc + bx) * 16 + 16 <= bxc * byc * 16) by (nonlinear_arith)
                    requires
                        bx < bxc,
                        by < byc,
                ;
            }
            let mut j: usize = 0;
            while j < 16
                invariant
                    j <= 16,
                    out@.len() == 16 * k + j,
                    16 * k + 16 <= usize::MAX,
                    before.len() == 16 * k,
                    forall|i: int| 0 <= i < 16 * k ==> #[trigger] out@[i] == before[i],
                    forall|i: int| 0 <= i < j ==> #[trigger] out@[16 * k + i] == block@[i],
                decreases 16 - j,
            {
                out.push(block[j]);
                j += 1;
            }
            proof {
                assert forall|i: int| 0 <= i < 16 implies #[trigger] block_bytes_at(out@, k)[i] == block@[i] by {
                    assert(out@[16 * k + i] == block@[i]);
                }
                assert(block_bytes_at(out@, k) =~= block@);
                assert forall|q: int| 0 <= q < k + 1 implies astc_block_ok(
                    #[trigger] block_bytes_at(out@, q),
                    gathered_block(rgba8@, width, height, block_w, block_h, q % (bxc as int), q / (bxc as int)),
                    block_w,
                    block_h,
                ) by {
                    if q < k {
                        assert(block_bytes_at(out@, q) =~= block_bytes_at(before, q));
                    }
                }
            }
            bx += 1;
        }
        assert((by + 1) * bxc == by * bxc + bxc) by (nonlinear_arith);
        by += 1;
    }
    assert(byc * bxc == bxc * byc) by (nonlinear_arith);
    out
}

/// Encode an RGBA8 surface at the footprint that `pix` names: `None` when
/// `pix` is not an ASTC layout, else what [`encode_astc_ldr`] gives.
pub fn encode_astc_ldr_surface(pix: DdsPixelFormat, rgba8: &[u8], width: u32, height: u32) -> (r: Option<Vec<u8>>)
    requires
        pix matches DdsPixelFormat::Astc { block_w, block_h } ==> (footprint_ok(block_w as u32, block_h as u32) && width >= 1
            && height >= 1 ==> width * height * 4 <= rgba8@.len() && blocks_across(width, block_w as u32) * blocks_across(
            height,
            block_h as u32,
        ) * 16 <= usize::MAX),
    ensures
        r is Some <==> pix is Astc,
        r matches Some(v) ==> pix matches DdsPixelFormat::Astc { block_w, block_h } && (!(footprint_ok(block_w as u32, block_h as u32)
            && width >= 1 && height >= 1) ==> v@.len() == 0) && (footprint_ok(block_w as u32, block_h as u32) && width >= 1
            && height >= 1 ==> v@.len() == blocks_across(width, block_w as u32) * blocks_across(height, block_h as u32) * 16
            && blocks_encoded(
            v@,
            rgba8@,
            width,
            height,
            block_w as u32,
            block_h as u32,
            blocks_across(width, block_w as u32),
            blocks_across(width, block_w as u32) * blocks_across(height, block_h as u32),
        )),
{
    match pix.astc_footprint() {
        Some((bw, bh)) => Some(encode_astc_ldr(rgba8, width, height, bw, bh)),
        None => None,
    }
}

} // verus!
