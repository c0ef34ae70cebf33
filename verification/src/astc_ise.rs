//! ASTC bounded integer sequence encoding (BISE) and value unquantization.
//!
//! A BISE range holds the values `0..=max` with `max + 1 = base × 2^bits`
//! and `base` 1, 3 (a trit) or 5 (a quint). Five trit values share an
//! 8-bit packed trit field, three quint values a 7-bit quint field; the
//! `bits` low bits of each value are interleaved with those fields. The
//! colour endpoint stream is read upward from a block bit; the weight
//! stream is read downward from bit 127.
use vstd::prelude::*;
use crate::bc7::bit_at;
use crate::bitfacts::{lemma_byte_bit, lemma_masks, lemma_pow2_shifts, lemma_shl_mono};

verus! {

// ---- Ranges -------------------------------------------------------------------------

/// A BISE range: `bits` low bits, plus one trit or one quint per value.
#[derive(Clone, Copy, PartialEq, Eq, Structural, Debug)]
pub struct IseRange {
    pub trits: bool,
    pub quints: bool,
    pub bits: u8,
    /// Largest value of the range (`0..=max`).
    pub max: u32,
}

/// `2^n` for the bit counts BISE ranges use (0 past 8).
pub open spec fn small_pow2(n: u32) -> u32 {
    if n == 0 {
        1
    } else if n == 1 {
        2
    } else if n == 2 {
        4
    } else if n == 3 {
        8
    } else if n == 4 {
        16
    } else if n == 5 {
        32
    } else if n == 6 {
        64
    } else if n == 7 {
        128
    } else if n == 8 {
        256
    } else {
        0
    }
}

fn small_pow2_of(n: u32) -> (p: u32)
    requires
        n <= 8,
    ensures
        p == small_pow2(n),
        p == (1u32 << n),
{
    proof {
        lemma_pow2_shifts();
    }
    match n {
        0 => 1,
        1 => 2,
        2 => 4,
        3 => 8,
        4 => 16,
        5 => 32,
        6 => 64,
        7 => 128,
        _ => 256,
    }
}

/// Number of values one trit or quint multiplies the range by (1 without).
pub open spec fn range_base(trits: bool, quints: bool) -> u32 {
    if trits {
        3
    } else if quints {
        5
    } else {
        1
    }
}

/// The range of `bits` bits with an optional trit or quint.
pub open spec fn ise_range_spec(trits: bool, quints: bool, bits: u8) -> IseRange {
    IseRange { trits, quints, bits, max: (range_base(trits, quints) * small_pow2(bits as u32) - 1) as u32 }
}

/// A range with its `max` filled in.
pub fn ise_range(trits: bool, quints: bool, bits: u8) -> (r: IseRange)
    requires
        bits <= 8,
    ensures
        r == ise_range_spec(trits, quints, bits),
{
    let base: u32 = if trits {
        3
    } else if quints {
        5
    } else {
        1
    };
    let max = base * small_pow2_of(bits as u32) - 1;
    IseRange { trits, quints, bits, max }
}

/// Bits an integer sequence of `count` values takes in range `r`: eight
/// per started group of five trit values, seven per started group of three
/// quint values, plus `bits` per value.
pub open spec fn ise_bits_for_count(r: IseRange, count: u32) -> int {
    let n = r.bits as int;
    if r.trits {
        ((count + 4) / 5) * 8 + count * n
    } else if r.quints {
        ((count + 2) / 3) * 7 + count * n
    } else {
        count * n
    }
}

impl IseRange {
    /// [`ise_bits_for_count`].
    pub fn bits_for_count(&self, count: u32) -> (b: u32)
        requires
            count <= 256,
            self.bits <= 8,
        ensures
            b == ise_bits_for_count(*self, count),
    {
        let n = self.bits as u32;
        assert(count * n <= 2048) by (nonlinear_arith)
            requires
                count <= 256,
                n <= 8,
        ;
        if self.trits {
            (count + 4) / 5 * 8 + count * n
        } else if self.quints {
            (count + 2) / 3 * 7 + count * n
        } else {
            count * n
        }
    }
}

// ---- Trits and quints -----------------------------------------------------------

/// The 5-bit field `C` of a packed trit byte.
pub open spec fn trit_c(t: u32) -> u32 {
    if (t >> 2u32) & 7 == 7 {
        (((t >> 5u32) & 7) << 2u32) | (t & 3)
    } else {
        t & 31
    }
}

/// Trit 0 of the packed trit byte `t`.
pub open spec fn trit0(t: u32) -> u32 {
    let c = trit_c(t);
    if c & 3 == 3 {
        (((c >> 3u32) & 1) << 1u32) | ((c >> 2u32) & 1 & !((c >> 3u32) & 1) & 1)
    } else if (c >> 2u32) & 3 == 3 {
        c & 3
    } else {
        (((c >> 1u32) & 1) << 1u32) | (c & 1 & !((c >> 1u32) & 1) & 1)
    }
}

/// Trit 1 of the packed trit byte `t`.
pub open spec fn trit1(t: u32) -> u32 {
    let c = trit_c(t);
    if c & 3 == 3 {
        (c >> 4u32) & 1
    } else if (c >> 2u32) & 3 == 3 {
        2
    } else {
        (c >> 2u32) & 3
    }
}

/// Trit 2 of the packed trit byte `t`.
pub open spec fn trit2(t: u32) -> u32 {
    let c = trit_c(t);
    if c & 3 == 3 {
        2
    } else if (c >> 2u32) & 3 == 3 {
        2
    } else {
        (c >> 4u32) & 1
    }
}

/// Trit 3 of the packed trit byte `t`.
pub open spec fn trit3(t: u32) -> u32 {
    if (t >> 2u32) & 7 == 7 {
        2
    } else if (t >> 5u32) & 3 == 3 {
        (t >> 7u32) & 1
    } else {
        (t >> 5u32) & 3
    }
}

/// Trit 4 of the packed trit byte `t`.
pub open spec fn trit4(t: u32) -> u32 {
    if (t >> 2u32) & 7 == 7 {
        2
    } else if (t >> 5u32) & 3 == 3 {
        2
    } else {
        (t >> 7u32) & 1
    }
}

/// Trit `j` (0..5) of the packed trit byte `t`.
pub open spec fn trit_of(t: u32, j: int) -> u32 {
    if j == 0 {
        trit0(t)
    } else if j == 1 {
        trit1(t)
    } else if j == 2 {
        trit2(t)
    } else if j == 3 {
        trit3(t)
    } else {
        trit4(t)
    }
}

/// Every unpacked trit is 0, 1 or 2.
pub proof fn lemma_trits_bounded(t: u32)
    by (bit_vector)
    ensures
        trit0(t) <= 2,
        trit1(t) <= 2,
        trit2(t) <= 2,
        trit3(t) <= 2,
        trit4(t) <= 2,
{
}

/// Unpack the packed trit byte `T7..T0` into five trits.
pub fn unpack_trits(t: u32) -> (out: [u32; 5])
    ensures
        out@ == seq![trit0(t), trit1(t), trit2(t), trit3(t), trit4(t)],
        forall|j: int| 0 <= j < 5 ==> #[trigger] out@[j] <= 2,
{
    let mut out = [0u32; 5];
    let c: u32;
    if (t >> 2) & 0b111 == 0b111 {
        c = (((t >> 5) & 0b111) << 2) | (t & 0b11);
        out[4] = 2;
        out[3] = 2;
    } else {
        c = t & 0b11111;
        if (t >> 5) & 0b11 == 0b11 {
            out[4] = 2;
            out[3] = (t >> 7) & 1;
        } else {
            out[4] = (t >> 7) & 1;
            out[3] = (t >> 5) & 0b11;
        }
    }
    if c & 0b11 == 0b11 {
        out[2] = 2;
        out[1] = (c >> 4) & 1;
        out[0] = (((c >> 3) & 1) << 1) | ((c >> 2) & 1 & !((c >> 3) & 1) & 1);
    } else if (c >> 2) & 0b11 == 0b11 {
        out[2] = 2;
        out[1] = 2;
        out[0] = c & 0b11;
    } else {
        out[2] = (c >> 4) & 1;
        out[1] = (c >> 2) & 0b11;
        out[0] = (((c >> 1) & 1) << 1) | (c & 1 & !((c >> 1) & 1) & 1);
    }
    proof {
        lemma_trits_bounded(t);
        assert(out@ =~= seq![trit0(t), trit1(t), trit2(t), trit3(t), trit4(t)]);
    }
    out
}

/// The packed quint field's special case: `Q[2:1] == 11` and `Q[6:5] == 00`.
pub open spec fn quint_special(q: u32) -> bool {
    (q >> 1u32) & 3 == 3 && (q >> 5u32) & 3 == 0
}

/// The 5-bit field `C` of a packed quint field.
pub open spec fn quint_c(q: u32) -> u32 {
    if (q >> 1u32) & 3 == 3 {
        (((q >> 3u32) & 3) << 3u32) | ((!(q >> 5u32) & 3) << 1u32) | (q & 1)
    } else {
        q & 31
    }
}

/// Quint 0 of the packed quint field `q`.
pub open spec fn quint0(q: u32) -> u32 {
    let c = quint_c(q);
    if quint_special(q) {
        4
    } else if c & 7 == 5 {
        (c >> 3u32) & 3
    } else {
        c & 7
    }
}

/// Quint 1 of the packed quint field `q`.
pub open spec fn quint1(q: u32) -> u32 {
    let c = quint_c(q);
    if quint_special(q) {
        4
    } else if c & 7 == 5 {
        4
    } else {
        (c >> 3u32) & 3
    }
}

/// Quint 2 of the packed quint field `q`.
pub open spec fn quint2(q: u32) -> u32 {
    if quint_special(q) {
        ((q & 1) << 2u32) | ((((q >> 4u32) & 1) & !(q & 1) & 1) << 1u32) | (((q >> 3u32) & 1) & !(q & 1) & 1)
    } else if (q >> 1u32) & 3 == 3 {
        4
    } else {
        (q >> 5u32) & 3
    }
}

/// Quint `j` (0..3) of the packed quint field `q`.
pub open spec fn quint_of(q: u32, j: int) -> u32 {
    if j == 0 {
        quint0(q)
    } else if j == 1 {
        quint1(q)
    } else {
        quint2(q)
    }
}

/// Every unpacked quint is at most 4.
pub proof fn lemma_quints_bounded(q: u32)
    by (bit_vector)
    ensures
        quint0(q) <= 4,
        quint1(q) <= 4,
        quint2(q) <= 4,
{
}

/// Unpack the packed quint field `Q6..Q0` into three quints.
pub fn unpack_quints(q: u32) -> (out: [u32; 3])
    ensures
        out@ == seq![quint0(q), quint1(q), quint2(q)],
        forall|j: int| 0 <= j < 3 ==> #[trigger] out@[j] <= 4,
{
    let mut out = [0u32; 3];
    proof {
        lemma_quints_bounded(q);
    }
    if (q >> 1) & 0b11 == 0b11 && (q >> 5) & 0b11 == 0b00 {
        out[2] = ((q & 1) << 2) | ((((q >> 4) & 1) & !(q & 1) & 1) << 1) | (((q >> 3) & 1) & !(q & 1) & 1);
        out[1] = 4;
        out[0] = 4;
        assert(out@ =~= seq![quint0(q), quint1(q), quint2(q)]);
        return out;
    }
    let c: u32;
    if (q >> 1) & 0b11 == 0b11 {
        out[2] = 4;
        c = (((q >> 3) & 0b11) << 3) | ((!(q >> 5) & 0b11) << 1) | (q & 1);
    } else {
        out[2] = (q >> 5) & 0b11;
        c = q & 0b11111;
    }
    if c & 0b111 == 0b101 {
        out[1] = 4;
        out[0] = (c >> 3) & 0b11;
    } else {
        out[1] = (c >> 3) & 0b11;
        out[0] = c & 0b111;
    }
    assert(out@ =~= seq![quint0(q), quint1(q), quint2(q)]);
    out
}

// ---- Bit streams ------------------------------------------------------------------

/// Bit `i` of a stream over the block `b`: block bit `start + i` read
/// upward, or block bit `127 - i` read downward (0 outside the block).
pub open spec fn stream_bit(b: Seq<u8>, start: int, rev: bool, i: int) -> u64 {
    if rev {
        bit_at(b, 127 - i)
    } else {
        bit_at(b, start + i)
    }
}

/// Stream bits `pos..pos + n`, the first one lowest.
pub open spec fn stream_acc(b: Seq<u8>, start: int, rev: bool, pos: int, n: int) -> u64
    decreases n,
{
    if n <= 0 {
        0
    } else {
        stream_acc(b, start, rev, pos, n - 1) | (stream_bit(b, start, rev, pos + n - 1) << ((n - 1) as u64))
    }
}

/// The `n`-bit field at stream bit `pos`.
pub open spec fn stream_field(b: Seq<u8>, start: int, rev: bool, pos: int, n: int) -> u32 {
    stream_acc(b, start, rev, pos, n) as u32
}

proof fn lemma_stream_bit(b: Seq<u8>, start: int, rev: bool, i: int)
    ensures
        stream_bit(b, start, rev, i) <= 1,
{
    let j = if rev {
        127 - i
    } else {
        start + i
    };
    if 0 <= j < 128 {
        let byte = b[j / 8];
        let sh = (j % 8) as u8;
        lemma_byte_bit();
        assert((byte >> sh) & 1u8 <= 1);
    }
}

proof fn lemma_stream_acc_bound(b: Seq<u8>, start: int, rev: bool, pos: int, n: int)
    requires
        0 <= n <= 32,
    ensures
        stream_acc(b, start, rev, pos, n) < (1u64 << (n as u64)),
        stream_acc(b, start, rev, pos, n) < 0x1_0000_0000,
    decreases n,
{
    lemma_pow2_shifts();
    lemma_shl_mono();
    if n > 0 {
        lemma_stream_acc_bound(b, start, rev, pos, n - 1);
        lemma_stream_bit(b, start, rev, pos + n - 1);
        let prev = stream_acc(b, start, rev, pos, n - 1);
        let bit = stream_bit(b, start, rev, pos + n - 1);
        let k = (n - 1) as u64;
        crate::bitfacts::lemma_or_below(prev, bit, k);
    }
    assert((1u64 << (n as u64)) <= (1u64 << 32u64));
}

/// A reader over a stream of block bits.
pub struct StreamReader {
    pub bytes: [u8; 16],
    pub start: u32,
    pub rev: bool,
    pub pos: u32,
}

impl StreamReader {
    /// Read the next `n` stream bits, the first one lowest.
    pub fn read(&mut self, n: u32) -> (v: u32)
        requires
            n <= 32,
            old(self).start <= 128,
            old(self).pos + n <= 1024,
        ensures
            v == stream_field(old(self).bytes@, old(self).start as int, old(self).rev, old(self).pos as int, n as int),
            (v as u64) < (1u64 << (n as u64)),
            final(self).pos == old(self).pos + n,
            final(self).bytes == old(self).bytes,
            final(self).start == old(self).start,
            final(self).rev == old(self).rev,
    {
        let bytes = self.bytes;
        let start = self.start;
        let rev = self.rev;
        let pos = self.pos;
        let mut out: u64 = 0;
        let mut i: u32 = 0;
        while i < n
            invariant
                i <= n <= 32,
                pos + n <= 1024,
                start <= 128,
                out == stream_acc(bytes@, start as int, rev, pos as int, i as int),
            decreases n - i,
        {
            let p = pos + i;
            let idx: u32 = if rev {
                if p <= 127 {
                    127 - p
                } else {
                    128
                }
            } else {
                start + p
            };
            let b: u64 = if idx < 128 {
                ((bytes[(idx / 8) as usize] >> ((idx % 8) as u8)) & 1u8) as u64
            } else {
                0
            };
            assert(b == stream_bit(bytes@, start as int, rev, p as int));
            out = out | (b << (i as u64));
            i += 1;
        }
        self.pos = pos + n;
        proof {
            lemma_stream_acc_bound(bytes@, start as int, rev, pos as int, n as int);
        }
        out as u32
    }
}

// ---- Integer sequences --------------------------------------------------------------

/// Offset of the low bits of value `j` (0..5) inside a trit group.
pub open spec fn trit_m_offset(j: int, n: int) -> int {
    if j == 0 {
        0
    } else if j == 1 {
        n + 2
    } else if j == 2 {
        2 * n + 4
    } else if j == 3 {
        3 * n + 5
    } else {
        4 * n + 7
    }
}

/// Offset of the low bits of value `j` (0..3) inside a quint group.
pub open spec fn quint_m_offset(j: int, n: int) -> int {
    if j == 0 {
        0
    } else if j == 1 {
        n + 3
    } else {
        2 * n + 5
    }
}

/// The packed trit byte of the trit group at stream bit `g`.
pub open spec fn trit_packed(b: Seq<u8>, start: int, rev: bool, g: int, n: int) -> u32 {
    stream_field(b, start, rev, g + n, 2) | (stream_field(b, start, rev, g + 2 * n + 2, 2) << 2u32) | (
    stream_field(b, start, rev, g + 3 * n + 4, 1) << 4u32) | (stream_field(b, start, rev, g + 4 * n + 5, 2)
        << 5u32) | (stream_field(b, start, rev, g + 5 * n + 7, 1) << 7u32)
}

/// The packed quint field of the quint group at stream bit `g`.
pub open spec fn quint_packed(b: Seq<u8>, start: int, rev: bool, g: int, n: int) -> u32 {
    stream_field(b, start, rev, g + n, 3) | (stream_field(b, start, rev, g + 2 * n + 3, 2) << 3u32) | (
    stream_field(b, start, rev, g + 3 * n + 5, 2) << 5u32)
}

/// Value `i` of the integer sequence in range `r` that starts at stream bit 0.
pub open spec fn ise_value(b: Seq<u8>, start: int, rev: bool, r: IseRange, i: int) -> u32 {
    let n = r.bits as int;
    if r.trits {
        let g = (i / 5) * (8 + 5 * n);
        (trit_of(trit_packed(b, start, rev, g, n), i % 5) << (r.bits as u32)) | stream_field(
            b,
            start,
            rev,
            g + trit_m_offset(i % 5, n),
            n,
        )
    } else if r.quints {
        let g = (i / 3) * (7 + 3 * n);
        (quint_of(quint_packed(b, start, rev, g, n), i % 3) << (r.bits as u32)) | stream_field(
            b,
            start,
            rev,
            g + quint_m_offset(i % 3, n),
            n,
        )
    } else {
        stream_field(b, start, rev, i * n, n)
    }
}

/// Read one trit group (its low bits and its packed trit byte).
fn read_trit_group(sr: &mut StreamReader, n: u32) -> (r: (u32, [u32; 5]))
    requires
        n <= 8,
        old(sr).start <= 128,
        old(sr).pos + 8 + 5 * n <= 1024,
    ensures
        final(sr).bytes == old(sr).bytes,
        final(sr).start == old(sr).start,
        final(sr).rev == old(sr).rev,
        final(sr).pos == old(sr).pos + 8 + 5 * n,
        r.0 == trit_packed(old(sr).bytes@, old(sr).start as int, old(sr).rev, old(sr).pos as int, n as int),
        forall|q: int|
            0 <= q < 5 ==> #[trigger] r.1@[q] == stream_field(
                old(sr).bytes@,
                old(sr).start as int,
                old(sr).rev,
                old(sr).pos + trit_m_offset(q, n as int),
                n as int,
            ),
{
    let m0 = sr.read(n);
    let t01 = sr.read(2);
    let m1 = sr.read(n);
    let t23 = sr.read(2);
    let m2 = sr.read(n);
    let t4 = sr.read(1);
    let m3 = sr.read(n);
    let t56 = sr.read(2);
    let m4 = sr.read(n);
    let t7 = sr.read(1);
    let packed = t01 | (t23 << 2) | (t4 << 4) | (t56 << 5) | (t7 << 7);
    (packed, [m0, m1, m2, m3, m4])
}

/// Read one quint group (its low bits and its packed quint field).
fn read_quint_group(sr: &mut StreamReader, n: u32) -> (r: (u32, [u32; 3]))
    requires
        n <= 8,
        old(sr).start <= 128,
        old(sr).pos + 7 + 3 * n <= 1024,
    ensures
        final(sr).bytes == old(sr).bytes,
        final(sr).start == old(sr).start,
        final(sr).rev == old(sr).rev,
        final(sr).pos == old(sr).pos + 7 + 3 * n,
        r.0 == quint_packed(old(sr).bytes@, old(sr).start as int, old(sr).rev, old(sr).pos as int, n as int),
        forall|q: int|
            0 <= q < 3 ==> #[trigger] r.1@[q] == stream_field(
                old(sr).bytes@,
                old(sr).start as int,
                old(sr).rev,
                old(sr).pos + quint_m_offset(q, n as int),
                n as int,
            ),
{
    let m0 = sr.read(n);
    let q012 = sr.read(3);
    let m1 = sr.read(n);
    let q34 = sr.read(2);
    let m2 = sr.read(n);
    let q56 = sr.read(2);
    let packed = q012 | (q34 << 3) | (q56 << 5);
    (packed, [m0, m1, m2])
}

/// Decode `count` values of range `r` from the stream over `data` that
/// starts at block bit `start` (read upward) or, when `rev`, at bit 127
/// (read downward).
pub fn decode_ise(data: &[u8; 16], start: u32, rev: bool, count: u32, r: IseRange) -> (out: Vec<u32>)
    requires
        start <= 128,
        count <= 64,
        r.bits <= 8,
    ensures
        out@.len() == count,
        forall|i: int| 0 <= i < count ==> #[trigger] out@[i] == ise_value(data@, start as int, rev, r, i),
{
    let ghost b = data@;
    let n = r.bits as u32;
    let mut sr = StreamReader { bytes: *data, start, rev, pos: 0 };
    let mut out: Vec<u32> = Vec::new();
    if r.trits {
        let groups = (count + 4) / 5;
        let mut k: u32 = 0;
        while k < groups
            invariant
                r.trits,
                n == r.bits,
                n <= 8,
                start <= 128,
                count <= 64,
                groups == (count + 4) / 5,
                k <= groups,
                sr.bytes@ == b,
                sr.start == start,
                sr.rev == rev,
                sr.pos == k * (8 + 5 * n),
                out@.len() == if 5 * k <= count { 5 * k } else { count as int },
                forall|i: int| 0 <= i < out@.len() ==> #[trigger] out@[i] == ise_value(b, start as int, rev, r, i),
            decreases groups - k,
        {
            assert(k * (8 + 5 * n) <= 13 * 48) by (nonlinear_arith)
                requires
                    k < groups,
                    groups <= 13,
                    n <= 8,
            ;
            let ghost g = sr.pos as int;
            let (packed, m) = read_trit_group(&mut sr, n);
            let trits = unpack_trits(packed);
            let mut j: u32 = 0;
            while j < 5
                invariant
                    r.trits,
                    n == r.bits,
                    n <= 8,
                    count <= 64,
                    k < groups,
                    groups == (count + 4) / 5,
                    j <= 5,
                    g == k * (8 + 5 * n),
                    packed == trit_packed(b, start as int, rev, g, n as int),
                    trits@ == seq![trit0(packed), trit1(packed), trit2(packed), trit3(packed), trit4(packed)],
                    forall|q: int| 0 <= q < 5 ==> #[trigger] m@[q] == stream_field(b, start as int, rev, g + trit_m_offset(q, n as int), n as int),
                    out@.len() == if 5 * k + j <= count { 5 * k + j } else { count as int },
                    forall|i: int| 0 <= i < out@.len() ==> #[trigger] out@[i] == ise_value(b, start as int, rev, r, i),
                decreases 5 - j,
            {
                if 5 * k + j < count {
                    let v = (trits[j as usize] << n) | m[j as usize];
                    proof {
                        let i = (5 * k + j) as int;
                        assert(i / 5 == k as int && i % 5 == j as int);
                        assert(trits@[j as int] == trit_of(packed, j as int));
                    }
                    out.push(v);
                }
                j += 1;
            }
            assert((k + 1) * (8 + 5 * n) == k * (8 + 5 * n) + 8 + 5 * n) by (nonlinear_arith);
            k += 1;
        }
    } else if r.quints {
        let groups = (count + 2) / 3;
        let mut k: u32 = 0;
        while k < groups
            invariant
                !r.trits,
                r.quints,
                n == r.bits,
                n <= 8,
                start <= 128,
                count <= 64,
                groups == (count + 2) / 3,
                k <= groups,
                sr.bytes@ == b,
                sr.start == start,
                sr.rev == rev,
                sr.pos == k * (7 + 3 * n),
                out@.len() == if 3 * k <= count { 3 * k } else { count as int },
                forall|i: int| 0 <= i < out@.len() ==> #[trigger] out@[i] == ise_value(b, start as int, rev, r, i),
            decreases groups - k,
        {
            assert(k * (7 + 3 * n) <= 22 * 31) by (nonlinear_arith)
                requires
                    k < groups,
                    groups <= 22,
                    n <= 8,
            ;
            let ghost g = sr.pos as int;
            let (packed, m) = read_quint_group(&mut sr, n);
            let quints = unpack_quints(packed);
            let mut j: u32 = 0;
            while j < 3
                invariant
                    !r.trits,
                    r.quints,
                    n == r.bits,
                    n <= 8,
                    count <= 64,
                    k < groups,
                    groups == (count + 2) / 3,
                    j <= 3,
                    g == k * (7 + 3 * n),
                    packed == quint_packed(b, start as int, rev, g, n as int),
                    quints@ == seq![quint0(packed), quint1(packed), quint2(packed)],
                    forall|q: int| 0 <= q < 3 ==> #[trigger] m@[q] == stream_field(b, start as int, rev, g + quint_m_offset(q, n as int), n as int),
                    out@.len() == if 3 * k + j <= count { 3 * k + j } else { count as int },
                    forall|i: int| 0 <= i < out@.len() ==> #[trigger] out@[i] == ise_value(b, start as int, rev, r, i),
                decreases 3 - j,
            {
                if 3 * k + j < count {
                    let v = (quints[j as usize] << n) | m[j as usize];
                    proof {
                        let i = (3 * k + j) as int;
                        assert(i / 3 == k as int && i % 3 == j as int);
                        assert(quints@[j as int] == quint_of(packed, j as int));
                    }
                    out.push(v);
                }
                j += 1;
            }
            assert((k + 1) * (7 + 3 * n) == k * (7 + 3 * n) + 7 + 3 * n) by (nonlinear_arith);
            k += 1;
        }
    } else {
        let mut i: u32 = 0;
        while i < count
            invariant
                !r.trits,
                !r.quints,
                n == r.bits,
                n <= 8,
                start <= 128,
                count <= 64,
                i <= count,
                sr.bytes@ == b,
                sr.start == start,
                sr.rev == rev,
                sr.pos == i * n,
                out@.len() == i,
                forall|q: int| 0 <= q < i ==> #[trigger] out@[q] == ise_value(b, start as int, rev, r, q),
            decreases count - i,
        {
            assert(i * n <= 64 * 8) by (nonlinear_arith)
                requires
                    i < count,
                    count <= 64,
                    n <= 8,
            ;
            let v = sr.read(n);
            out.push(v);
            assert((i + 1) * n == i * n + n) by (nonlinear_arith);
            i += 1;
        }
    }
    out
}

// ---- Unquantization -------------------------------------------------------------------

/// The bits of the loop that widens an `from`-bit `src` to `to` bits by
/// appending its top bits again and again, once `filled` bits are in `acc`.
pub open spec fn rep_acc(src: u32, from: u32, to: u32, filled: u32, acc: u32) -> u32
    decreases to - filled,
{
    if from == 0 || filled >= to {
        acc
    } else {
        let take: u32 = if from < to - filled {
            from
        } else {
            (to - filled) as u32
        };
        rep_acc(src, from, to, (filled + take) as u32, (acc << take) | (src >> ((from - take) as u32)))
    }
}

/// The `from`-bit `value` widened to `to` bits by bit replication
/// (`C2 C1 C0` to `C2 C1 C0 C2 C1 C0 C2 C1`).
pub open spec fn bit_replicate_spec(value: u32, from: u32, to: u32) -> u32 {
    if from == 0 {
        0
    } else if from >= to {
        value & ((small_pow2(to) - 1) as u32)
    } else {
        rep_acc(value & ((small_pow2(from) - 1) as u32), from, to, 0, 0) & ((small_pow2(to) - 1) as u32)
    }
}

/// [`bit_replicate_spec`].
pub fn bit_replicate(value: u32, from: u32, to: u32) -> (r: u32)
    requires
        from <= 8,
        to <= 8,
    ensures
        r == bit_replicate_spec(value, from, to),
        r <= small_pow2(to) - 1,
{
    proof {
        lemma_masks();
    }
    if from == 0 {
        return 0;
    }
    let to_mask = small_pow2_of(to) - 1;
    if from >= to {
        return value & to_mask;
    }
    let src = value & (small_pow2_of(from) - 1);
    let mut acc = 0u32;
    let mut filled = 0u32;
    while filled < to
        invariant
            1 <= from < to <= 8,
            filled <= to,
            rep_acc(src, from, to, filled, acc) == rep_acc(src, from, to, 0, 0),
        decreases to - filled,
    {
        let take = if from < to - filled {
            from
        } else {
            to - filled
        };
        acc = (acc << take) | (src >> (from - take));
        filled += take;
    }
    acc & to_mask
}

/// The 9-bit pattern `cb000cbcb`.
pub open spec fn cb_bits3(b: u32, c: u32) -> u32 {
    (c << 8u32) | (b << 7u32) | (c << 3u32) | (b << 2u32) | (c << 1u32) | b
}

/// The 9-bit pattern `dcb000dcb`.
pub open spec fn dcb_bits4(b: u32, c: u32, d: u32) -> u32 {
    (d << 8u32) | (c << 7u32) | (b << 6u32) | (d << 2u32) | (c << 1u32) | b
}

/// The 9-bit pattern `edcb000ed`.
pub open spec fn edcb_bits5(b: u32, c: u32, d: u32, e: u32) -> u32 {
    (e << 8u32) | (d << 7u32) | (c << 6u32) | (b << 5u32) | (e << 1u32) | d
}

/// The 9-bit pattern `fedcb000f`.
pub open spec fn fedcb_bits6(b: u32, c: u32, d: u32, e: u32, f: u32) -> u32 {
    (f << 8u32) | (e << 7u32) | (d << 6u32) | (c << 5u32) | (b << 4u32) | f
}

/// The 9-bit pattern `cb0000cbc`.
pub open spec fn cb_q3(b: u32, c: u32) -> u32 {
    (c << 8u32) | (b << 7u32) | (c << 2u32) | (b << 1u32) | c
}

/// The 9-bit pattern `dcb0000dc`.
pub open spec fn dcb_q4(b: u32, c: u32, d: u32) -> u32 {
    (d << 8u32) | (c << 7u32) | (b << 6u32) | (d << 1u32) | c
}

/// The 9-bit pattern `edcb0000e`.
pub open spec fn edcb_q5(b: u32, c: u32, d: u32, e: u32) -> u32 {
    (e << 8u32) | (d << 7u32) | (c << 6u32) | (b << 5u32) | e
}

/// Bit `i` of `v`.
pub open spec fn bit_of(v: u32, i: u32) -> u32 {
    (v >> i) & 1
}

/// The `B` term and the `C` multiplier of a trit or quint colour value
/// whose low bits are `m` (`n` of them).
pub open spec fn colour_bc(trits: bool, n: u32, m: u32) -> (u32, u32) {
    let b = bit_of(m, 1);
    let c = bit_of(m, 2);
    let d = bit_of(m, 3);
    let e = bit_of(m, 4);
    let f = bit_of(m, 5);
    if trits {
        if n == 1 {
            (0, 204)
        } else if n == 2 {
            ((b * 0x116) as u32, 93)
        } else if n == 3 {
            (cb_bits3(b, c), 44)
        } else if n == 4 {
            (dcb_bits4(b, c, d), 22)
        } else if n == 5 {
            (edcb_bits5(b, c, d, e), 11)
        } else if n == 6 {
            (fedcb_bits6(b, c, d, e, f), 5)
        } else {
            (0, 204)
        }
    } else {
        if n == 1 {
            (0, 113)
        } else if n == 2 {
            ((b * 0x10c) as u32, 54)
        } else if n == 3 {
            (cb_q3(b, c), 26)
        } else if n == 4 {
            (dcb_q4(b, c, d), 13)
        } else if n == 5 {
            (edcb_q5(b, c, d, e), 6)
        } else {
            (0, 113)
        }
    }
}

/// A colour endpoint value of range `r` widened to 0..=255: bit
/// replication for a bits-only range, else `D × C + B` with the low-bit
/// mask `A` folded in and the top bit of `A` kept.
pub open spec fn unquant_color_spec(value: u32, r: IseRange) -> u32 {
    let n = r.bits as u32;
    if !r.trits && !r.quints {
        bit_replicate_spec(value, n, 8)
    } else {
        let m = value & ((small_pow2(n) - 1) as u32);
        let tq = value >> n;
        let big_a: u64 = if m & 1 != 0 {
            0x1ff
        } else {
            0
        };
        let bc = colour_bc(r.trits, n, m);
        let unq = (((tq as u64) * (bc.1 as u64) + (bc.0 as u64)) as u64) ^ big_a;
        (((big_a & 0x80) | (unq >> 2u64)) & 0xff) as u32
    }
}

/// [`unquant_color_spec`].
pub fn unquant_color(value: u32, r: IseRange) -> (v: u32)
    requires
        1 <= r.bits <= 8,
    ensures
        v == unquant_color_spec(value, r),
        v <= 255,
{
    proof {
        lemma_masks();
    }
    let n = r.bits as u32;
    if !r.trits && !r.quints {
        return bit_replicate(value, n, 8);
    }
    let m = value & (small_pow2_of(n) - 1);
    let tq = value >> n;
    let b = (m >> 1) & 1;
    let c = (m >> 2) & 1;
    let d = (m >> 3) & 1;
    let e = (m >> 4) & 1;
    let f = (m >> 5) & 1;
    let big_a: u64 = if m & 1 != 0 {
        0x1ff
    } else {
        0
    };
    let (big_b, big_c): (u32, u32) = if r.trits {
        match n {
            1 => (0, 204),
            2 => (b * 0x116, 93),
            3 => ((c << 8) | (b << 7) | (c << 3) | (b << 2) | (c << 1) | b, 44),
            4 => ((d << 8) | (c << 7) | (b << 6) | (d << 2) | (c << 1) | b, 22),
            5 => ((e << 8) | (d << 7) | (c << 6) | (b << 5) | (e << 1) | d, 11),
            6 => ((f << 8) | (e << 7) | (d << 6) | (c << 5) | (b << 4) | f, 5),
            _ => (0, 204),
        }
    } else {
        match n {
            1 => (0, 113),
            2 => (b * 0x10c, 54),
            3 => ((c << 8) | (b << 7) | (c << 2) | (b << 1) | c, 26),
            4 => ((d << 8) | (c << 7) | (b << 6) | (d << 1) | c, 13),
            5 => ((e << 8) | (d << 7) | (c << 6) | (b << 5) | e, 6),
            _ => (0, 113),
        }
    };
    assert((big_b, big_c) == colour_bc(r.trits, n, m));
    assert((tq as u64) * (big_c as u64) <= 0xffff_ffffu64 * 204) by (nonlinear_arith)
        requires
            big_c <= 204,
    ;
    let unq = ((tq as u64) * (big_c as u64) + (big_b as u64)) ^ big_a;
    (((big_a & 0x80) | (unq >> 2)) & 0xff) as u32
}

/// A weight range: like an [`IseRange`], for weight values.
#[derive(Clone, Copy, PartialEq, Eq, Structural, Debug)]
pub struct WeightRange {
    pub trits: bool,
    pub quints: bool,
    pub bits: u8,
    pub max: u32,
}

/// The weight range of the 3-bit code `r` and precision bit `p`; `None`
/// for the codes `000` and `001`.
pub open spec fn weight_range_spec(r: u32, p: u32) -> Option<WeightRange> {
    let mk = |t: bool, q: bool, bits: u8| Some(WeightRange { trits: t, quints: q, bits, max: (range_base(t, q) * small_pow2(bits as u32) - 1) as u32 });
    if p == 0 {
        if r == 2 {
            mk(false, false, 1)
        } else if r == 3 {
            mk(true, false, 0)
        } else if r == 4 {
            mk(false, false, 2)
        } else if r == 5 {
            mk(false, true, 0)
        } else if r == 6 {
            mk(true, false, 1)
        } else if r == 7 {
            mk(false, false, 3)
        } else {
            None
        }
    } else if p == 1 {
        if r == 2 {
            mk(false, true, 1)
        } else if r == 3 {
            mk(true, false, 2)
        } else if r == 4 {
            mk(false, false, 4)
        } else if r == 5 {
            mk(false, true, 2)
        } else if r == 6 {
            mk(true, false, 3)
        } else if r == 7 {
            mk(false, false, 5)
        } else {
            None
        }
    } else {
        None
    }
}

fn make_weight_range(trits: bool, quints: bool, bits: u8) -> (w: WeightRange)
    requires
        bits <= 5,
    ensures
        w == (WeightRange { trits, quints, bits, max: (range_base(trits, quints) * small_pow2(bits as u32) - 1) as u32 }),
{
    let base: u32 = if trits {
        3
    } else if quints {
        5
    } else {
        1
    };
    WeightRange { trits, quints, bits, max: base * small_pow2_of(bits as u32) - 1 }
}

/// The weight range table: `(ρ, P)` to the range of the weights.
pub fn weight_range(r: u32, p: u32) -> (w: Option<WeightRange>)
    ensures
        w == weight_range_spec(r, p),
{
    match (r, p) {
        (0b010, 0) => Some(make_weight_range(false, false, 1)),
        (0b011, 0) => Some(make_weight_range(true, false, 0)),
        (0b100, 0) => Some(make_weight_range(false, false, 2)),
        (0b101, 0) => Some(make_weight_range(false, true, 0)),
        (0b110, 0) => Some(make_weight_range(true, false, 1)),
        (0b111, 0) => Some(make_weight_range(false, false, 3)),
        (0b010, 1) => Some(make_weight_range(false, true, 1)),
        (0b011, 1) => Some(make_weight_range(true, false, 2)),
        (0b100, 1) => Some(make_weight_range(false, false, 4)),
        (0b101, 1) => Some(make_weight_range(false, true, 2)),
        (0b110, 1) => Some(make_weight_range(true, false, 3)),
        (0b111, 1) => Some(make_weight_range(false, false, 5)),
        _ => None,
    }
}

/// A weight value of range `r` widened to the interpolation range 0..=64:
/// bit replication to 6 bits for a bits-only range, else the trit or quint
/// formula; values above 32 move up by one.
pub open spec fn unquant_weight_spec(value: u32, r: WeightRange) -> u32 {
    let n = r.bits as u32;
    let unq = if !r.trits && !r.quints {
        bit_replicate_spec(value, n, 6)
    } else {
        let m = value & ((small_pow2(n) - 1) as u32);
        let tq = value >> n;
        let b = bit_of(m, 1);
        let c = bit_of(m, 2);
        let big_a: u64 = if m & 1 != 0 {
            0x7f
        } else {
            0
        };
        let bc: (u32, u32) = if r.trits {
            if n == 2 {
                ((b * 0x45) as u32, 23)
            } else if n == 3 {
                ((c << 6u32) | (b << 5u32) | (c << 1u32) | b, 11)
            } else {
                (0, 50)
            }
        } else {
            if n == 2 {
                ((b * 0x42) as u32, 13)
            } else {
                (0, 28)
            }
        };
        let u = (((tq as u64) * (bc.1 as u64) + (bc.0 as u64)) as u64) ^ big_a;
        (((big_a & 0x20) | (u >> 2u64)) & 0x7f) as u32
    };
    if unq > 32 {
        (unq + 1) as u32
    } else {
        unq
    }
}

/// [`unquant_weight_spec`].
pub fn unquant_weight(value: u32, r: WeightRange) -> (w: u32)
    requires
        r.bits <= 5,
    ensures
        w == unquant_weight_spec(value, r),
        w <= 128,
{
    proof {
        lemma_masks();
    }
    let n = r.bits as u32;
    let unq = if !r.trits && !r.quints {
        bit_replicate(value, n, 6)
    } else {
        let m = value & (small_pow2_of(n) - 1);
        let tq = value >> n;
        let b = (m >> 1) & 1;
        let c = (m >> 2) & 1;
        let big_a: u64 = if m & 1 != 0 {
            0x7f
        } else {
            0
        };
        let (big_b, big_c): (u32, u32) = if r.trits {
            match n {
                2 => (b * 0x45, 23),
                3 => ((c << 6) | (b << 5) | (c << 1) | b, 11),
                _ => (0, 50),
            }
        } else {
            match n {
                2 => (b * 0x42, 13),
                _ => (0, 28),
            }
        };
        assert((tq as u64) * (big_c as u64) <= 0xffff_ffffu64 * 50) by (nonlinear_arith)
            requires
                big_c <= 50,
        ;
        let u = ((tq as u64) * (big_c as u64) + (big_b as u64)) ^ big_a;
        (((big_a & 0x20) | (u >> 2)) & 0x7f) as u32
    };
    if unq > 32 {
        unq + 1
    } else {
        unq
    }
}

} // verus!
