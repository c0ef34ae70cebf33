//! Packing the fields of a BC6H block into its 128 bits, lowest first: the
//! mode prefix, one bit per endpoint field of the mode's layout, the
//! partition number (two subsets), then the pixel indices.
use vstd::prelude::*;
use crate::bc6h::{FieldBit, ModeInfo, mode_info, unpack_field};
use crate::bc6h_tables::{layout_entry, layout_len, lemma_layout10_channels};
use crate::bc7::bit_at;
use crate::bc7_enc::{BitWriter, holds_bits, value_bit};
use crate::bitfacts::lemma_bit_writes;

verus! {

/// Index bits of pixel `px`: with two subsets 2 for pixel 0 and for the
/// second subset's anchor `anchor1`, else 3; with one subset 3 for pixel
/// 0, else 4.
pub open spec fn index_width(two: bool, anchor1: u8, px: int) -> int {
    if two {
        if px == 0 || px == anchor1 {
            2
        } else {
            3
        }
    } else if px == 0 {
        3
    } else {
        4
    }
}

/// Where the index bits of pixel `px` start, counted from the first
/// index bit.
pub open spec fn index_offset(two: bool, anchor1: u8, px: int) -> int
    decreases px,
{
    if px <= 0 {
        0
    } else {
        index_offset(two, anchor1, px - 1) + index_width(two, anchor1, px - 1)
    }
}

/// Where the index bits start: after the prefix, the endpoint field bits
/// and, with two subsets, the 5-bit partition number.
pub open spec fn index_start(prefix_len: u32, nfields: int, two: bool) -> int {
    prefix_len + nfields + if two {
        5int
    } else {
        0int
    }
}

/// The bit endpoint field `f` carries: bit `dest_bit` of the value of its
/// channel and endpoint.
pub open spec fn field_bit(q: [[u32; 4]; 3], f: FieldBit) -> u64 {
    value_bit(q[f.channel as int][f.endpoint as int], f.dest_bit as int)
}

/// `b` holds the BC6H block packed from these parts: `prefix` in the first
/// `prefix_len` bits, then one bit per endpoint field, then (two subsets)
/// the partition in 5 bits, then each pixel's index in
/// [`index_width`] bits, and zero bits after.
pub open spec fn bc6h_packed(
    b: Seq<u8>,
    fields: Seq<FieldBit>,
    two: bool,
    prefix: u32,
    prefix_len: u32,
    q: [[u32; 4]; 3],
    partition: u32,
    indices: Seq<u32>,
    anchor1: u8,
) -> bool {
    let start = index_start(prefix_len, fields.len() as int, two);
    &&& holds_bits(b, 0, prefix_len as int, prefix)
    &&& forall|i: int| 0 <= i < fields.len() ==> #[trigger] bit_at(b, prefix_len + i) == field_bit(q, fields[i])
    &&& two ==> holds_bits(b, prefix_len + fields.len(), 5, partition)
    &&& forall|px: int|
        0 <= px < 16 ==> #[trigger] holds_bits(
            b,
            start + index_offset(two, anchor1, px),
            index_width(two, anchor1, px),
            indices[px],
        )
    &&& forall|j: int| start + index_offset(two, anchor1, 16) <= j < 128 ==> #[trigger] bit_at(b, j) == 0
}

/// Index offsets grow with the pixel and stay within 4 bits a pixel.
proof fn lemma_index_offset(two: bool, anchor1: u8, px: int)
    requires
        0 <= px,
    ensures
        0 <= index_offset(two, anchor1, px) <= 4 * px,
        forall|p: int|
            0 <= p < px ==> #[trigger] index_offset(two, anchor1, p) + index_width(two, anchor1, p) <= index_offset(
                two,
                anchor1,
                px,
            ),
    decreases px,
{
    if px > 0 {
        lemma_index_offset(two, anchor1, px - 1);
    }
}

/// With one subset, pixel `px`'s index starts `4 * px - 1` bits in (pixel
/// 0 at the start).
proof fn lemma_index_offset_one(anchor1: u8, px: int)
    requires
        0 <= px,
    ensures
        index_offset(false, anchor1, px) == if px == 0 {
            0
        } else {
            4 * px - 1
        },
    decreases px,
{
    if px > 0 {
        lemma_index_offset_one(anchor1, px - 1);
    }
}

/// Bits below `limit` that a write left alone still hold a field that
/// lies below `limit`.
proof fn lemma_holds_kept(before: Seq<u8>, after: Seq<u8>, pos: int, n: int, v: u32, limit: int)
    requires
        holds_bits(before, pos, n, v),
        pos + n <= limit,
        forall|j: int| 0 <= j < limit ==> #[trigger] bit_at(after, j) == bit_at(before, j),
        0 <= pos,
    ensures
        holds_bits(after, pos, n, v),
{
    assert forall|j: int| pos <= j < pos + n implies #[trigger] bit_at(after, j) == value_bit(v, j - pos) by {
        assert(bit_at(before, j) == value_bit(v, j - pos));
    }
}

/// Pack a BC6H block: `prefix` in `prefix_len` bits, bit `dest_bit` of
/// `q[channel][endpoint]` for each endpoint field of `mi`, the 5-bit
/// `partition` when `mi` has two subsets, then the 16 pixel indices, the
/// anchors of two-subset blocks (pixel 0 and `anchor_subset1`) one bit
/// shorter.
pub fn pack_bc6h(
    mi: &ModeInfo,
    prefix: u32,
    prefix_len: u32,
    q: [[u32; 4]; 3],
    partition: u32,
    indices: &[u32; 16],
    anchor_subset1: u8,
) -> (block: [u8; 16])
    requires
        prefix_len <= 32,
        forall|i: int|
            0 <= i < mi.fields@.len() ==> (#[trigger] mi.fields@[i]).channel < 3 && mi.fields@[i].endpoint < 4
                && mi.fields@[i].dest_bit < 32,
        index_start(prefix_len, mi.fields@.len() as int, mi.subsets == 2) + index_offset(mi.subsets == 2, anchor_subset1, 16)
            <= 128,
    ensures
        bc6h_packed(block@, mi.fields@, mi.subsets == 2, prefix, prefix_len, q, partition, indices@, anchor_subset1),
{
    let ghost two = mi.subsets == 2;
    let ghost fields = mi.fields@;
    let ghost nf = fields.len() as int;
    let ghost start = index_start(prefix_len, nf, two);
    proof {
        lemma_index_offset(two, anchor_subset1, 16);
        lemma_bit_writes();
    }
    let mut bw = BitWriter::new();
    bw.put(prefix, prefix_len);
    let mut i: usize = 0;
    while i < mi.fields.len()
        invariant
            i <= nf,
            fields == mi.fields@,
            nf == fields.len(),
            two == (mi.subsets == 2),
            start == index_start(prefix_len, nf, two),
            prefix_len <= 32,
            forall|k: int|
                0 <= k < nf ==> (#[trigger] fields[k]).channel < 3 && fields[k].endpoint < 4 && fields[k].dest_bit < 32,
            0 <= index_offset(two, anchor_subset1, 16),
            start + index_offset(two, anchor_subset1, 16) <= 128,
            forall|x: u32| #[trigger] (((x & 1u32) >> 0u32) & 1u32) == (x & 1u32),
            bw.clean(),
            bw.pos == prefix_len + i,
            holds_bits(bw.block@, 0, prefix_len as int, prefix),
            forall|k: int| 0 <= k < i ==> #[trigger] bit_at(bw.block@, prefix_len + k) == field_bit(q, fields[k]),
        decreases nf - i,
    {
        let f = &mi.fields[i];
        let v = q[f.channel as usize][f.endpoint as usize];
        let x = (v >> (f.dest_bit as u32)) & 1;
        bw.put(x, 1);
        proof {
            assert(bit_at(bw.block@, prefix_len + i) == value_bit(x, 0));
            assert(((x >> 0u32) & 1u32) == x);
            assert(bit_at(bw.block@, prefix_len + i) == field_bit(q, fields[i as int]));
        }
        i += 1;
    }
    if mi.subsets == 2 {
        let ghost before = bw.block@;
        let ghost at = bw.pos as int;
        bw.put(partition, 5);
        proof {
            lemma_holds_kept(before, bw.block@, 0, prefix_len as int, prefix, at);
            assert(index_offset(two, anchor_subset1, 0) == 0);
        }
        let mut px: usize = 0;
        while px < 16
            invariant
                px <= 16,
                two,
                nf == fields.len(),
                start == prefix_len + nf + 5,
                forall|p: int|
                    0 <= p < 16 ==> #[trigger] index_offset(two, anchor_subset1, p) + index_width(two, anchor_subset1, p)
                        <= index_offset(two, anchor_subset1, 16),
                0 <= index_offset(two, anchor_subset1, 16),
                start + index_offset(two, anchor_subset1, 16) <= 128,
                bw.clean(),
                bw.pos == start + index_offset(two, anchor_subset1, px as int),
                holds_bits(bw.block@, 0, prefix_len as int, prefix),
                forall|k: int| 0 <= k < nf ==> #[trigger] bit_at(bw.block@, prefix_len + k) == field_bit(q, fields[k]),
                holds_bits(bw.block@, prefix_len + nf, 5, partition),
                forall|p: int|
                    0 <= p < px ==> #[trigger] holds_bits(
                        bw.block@,
                        start + index_offset(two, anchor_subset1, p),
                        index_width(two, anchor_subset1, p),
                        indices@[p],
                    ),
            decreases 16 - px,
        {
            let nbits: u32 = if px == 0 || px as u8 == anchor_subset1 {
                2
            } else {
                3
            };
            proof {
                lemma_index_offset(two, anchor_subset1, px as int);
                lemma_index_offset(two, anchor_subset1, px as int + 1);
            }
            let ghost before = bw.block@;
            let ghost at = bw.pos as int;
            bw.put(indices[px], nbits);
            proof {
                lemma_holds_kept(before, bw.block@, 0, prefix_len as int, prefix, at);
                lemma_holds_kept(before, bw.block@, prefix_len + nf, 5, partition, at);
                assert forall|p: int| 0 <= p < px + 1 implies #[trigger] holds_bits(
                    bw.block@,
                    start + index_offset(two, anchor_subset1, p),
                    index_width(two, anchor_subset1, p),
                    indices@[p],
                ) by {
                    if p < px {
                        lemma_index_offset(two, anchor_subset1, p);
                        lemma_holds_kept(
                            before,
                            bw.block@,
                            start + index_offset(two, anchor_subset1, p),
                            index_width(two, anchor_subset1, p),
                            indices@[p],
                            at,
                        );
                    }
                }
            }
            px += 1;
        }
    } else {
        proof {
            lemma_index_offset(two, anchor_subset1, 1);
            lemma_index_offset_one(anchor_subset1, 1);
            assert(index_offset(two, anchor_subset1, 0) == 0);
        }
        let ghost before = bw.block@;
        let ghost at = bw.pos as int;
        bw.put(indices[0], 3);
        proof {
            lemma_holds_kept(before, bw.block@, 0, prefix_len as int, prefix, at);
        }
        let mut px: usize = 1;
        while px < 16
            invariant
                1 <= px <= 16,
                !two,
                nf == fields.len(),
                start == prefix_len + nf,
                forall|p: int|
                    0 <= p < 16 ==> #[trigger] index_offset(two, anchor_subset1, p) + index_width(two, anchor_subset1, p)
                        <= index_offset(two, anchor_subset1, 16),
                0 <= index_offset(two, anchor_subset1, 16),
                start + index_offset(two, anchor_subset1, 16) <= 128,
                bw.clean(),
                bw.pos == start + index_offset(two, anchor_subset1, px as int),
                holds_bits(bw.block@, 0, prefix_len as int, prefix),
                forall|k: int| 0 <= k < nf ==> #[trigger] bit_at(bw.block@, prefix_len + k) == field_bit(q, fields[k]),
                forall|p: int|
                    0 <= p < px ==> #[trigger] holds_bits(
                        bw.block@,
                        start + index_offset(two, anchor_subset1, p),
                        index_width(two, anchor_subset1, p),
                        indices@[p],
                    ),
            decreases 16 - px,
        {
            proof {
                lemma_index_offset(two, anchor_subset1, px as int);
                lemma_index_offset(two, anchor_subset1, px as int + 1);
            }
            let ghost before = bw.block@;
            let ghost at = bw.pos as int;
            bw.put(indices[px], 4);
            proof {
                lemma_holds_kept(before, bw.block@, 0, prefix_len as int, prefix, at);
                assert forall|p: int| 0 <= p < px + 1 implies #[trigger] holds_bits(
                    bw.block@,
                    start + index_offset(two, anchor_subset1, p),
                    index_width(two, anchor_subset1, p),
                    indices@[p],
                ) by {
                    if p < px {
                        lemma_index_offset(two, anchor_subset1, p);
                        lemma_holds_kept(
                            before,
                            bw.block@,
                            start + index_offset(two, anchor_subset1, p),
                            index_width(two, anchor_subset1, p),
                            indices@[p],
                            at,
                        );
                    }
                }
            }
            px += 1;
        }
    }
    bw.block
}

/// The endpoint fields of mode `m`, as its layout lists them.
pub open spec fn mode_fields(m: int) -> Seq<FieldBit> {
    Seq::new(layout_len(m) as nat, |k: int| unpack_field(layout_entry(m, k)))
}

/// The endpoint values of a signed mode-10 block: the low 10 bits, two's
/// complement, of each channel's two endpoints.
pub open spec fn signed_q10(q0: [i32; 3], q1: [i32; 3]) -> [[u32; 4]; 3] {
    [
        [(q0[0] as u32) & 0x3ff, (q1[0] as u32) & 0x3ff, 0, 0],
        [(q0[1] as u32) & 0x3ff, (q1[1] as u32) & 0x3ff, 0, 0],
        [(q0[2] as u32) & 0x3ff, (q1[2] as u32) & 0x3ff, 0, 0],
    ]
}

/// Pack a one-subset block of mode 10 (prefix `00011`) whose endpoints
/// `q0`, `q1` are signed: each value is stored as its low 10 bits, two's
/// complement, which the decoder sign-extends for the signed format.
pub fn pack_mode10_signed(q0: [i32; 3], q1: [i32; 3], indices: [u32; 16]) -> (block: [u8; 16])
    ensures
        bc6h_packed(block@, mode_fields(10), false, 3, 5, signed_q10(q0, q1), 0, indices@, 15),
{
    let mi = mode_info(10).unwrap();
    let prec_mask: u32 = 0x3ff;
    let q = [
        [(q0[0] as u32) & prec_mask, (q1[0] as u32) & prec_mask, 0, 0],
        [(q0[1] as u32) & prec_mask, (q1[1] as u32) & prec_mask, 0, 0],
        [(q0[2] as u32) & prec_mask, (q1[2] as u32) & prec_mask, 0, 0],
    ];
    proof {
        lemma_layout10_channels();
        assert(mi.fields@ =~= mode_fields(10));
        lemma_index_offset_one(15, 16);
        assert(q == signed_q10(q0, q1));
    }
    pack_bc6h(&mi, 0b00011, 5, q, 0, &indices, 15)
}

} // verus!
