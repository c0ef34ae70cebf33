//! Small facts about shifts and masks that the bit-level decoders share.
use vstd::prelude::*;

verus! {

/// The powers of two the block layouts use, as shifts of one.
pub proof fn lemma_pow2_shifts()
    ensures
        (1u64 << 0u64) == 1,
        (1u64 << 1u64) == 2,
        (1u64 << 2u64) == 4,
        (1u64 << 3u64) == 8,
        (1u64 << 4u64) == 16,
        (1u64 << 5u64) == 32,
        (1u64 << 6u64) == 64,
        (1u64 << 8u64) == 256,
        (1u64 << 10u64) == 1024,
        (1u64 << 11u64) == 2048,
        (1u64 << 16u64) == 0x1_0000,
        (1u64 << 32u64) == 0x1_0000_0000u64,
        (1u64 << 48u64) == 0x1_0000_0000_0000u64,
        (1u32 << 0u32) == 1,
        (1u32 << 1u32) == 2,
        (1u32 << 2u32) == 4,
        (1u32 << 3u32) == 8,
        (1u32 << 4u32) == 16,
        (1u32 << 5u32) == 32,
        (1u32 << 6u32) == 64,
        (1u32 << 7u32) == 128,
        (1u32 << 8u32) == 256,
{
    lemma_word_facts();
}

/// A larger shift of one is no smaller.
pub proof fn lemma_shl_mono()
    ensures
        forall|a: u64, b: u64| a <= b && b <= 32 ==> #[trigger] (1u64 << a) <= #[trigger] (1u64 << b),
        forall|a: u32, b: u32| a <= b && b <= 31 ==> #[trigger] (1u32 << a) <= #[trigger] (1u32 << b),
{
    lemma_word_facts();
}

/// One bit of a byte is 0 or 1.
pub proof fn lemma_byte_bit()
    ensures
        forall|x: u8, s: u8| #[trigger] ((x >> s) & 1u8) <= 1,
{
    lemma_word_facts();
}

/// A mask bounds what it keeps; a single bit is 0 or 1; two bits make at most 3.
pub proof fn lemma_masks()
    ensures
        forall|x: u32, m: u32| #[trigger] (x & m) <= m,
        forall|x: u64, m: u64| #[trigger] (x & m) <= m,
        forall|x: u32, s: u32| #[trigger] ((x >> s) & 1u32) <= 1,
        forall|a: u32, b: u32| a <= 1 && b <= 1 ==> #[trigger] ((a << 1u32) | b) <= 3,
        forall|x: u32, s: u32| #[trigger] (x >> s) <= x,
        forall|x: u32| #[trigger] (x >> 8u32) == x / 256,
        forall|x: u32| #[trigger] (x >> 2u32) < 0x4000_0000,
        forall|x: u32| #[trigger] (x >> 6u32) < 0x0400_0000,
        forall|x: u32| #[trigger] (x >> 10u32) < 0x0040_0000,
        forall|x: u32| #[trigger] (x >> 14u32) < 0x0004_0000,
        forall|x: u32| #[trigger] (x | 0u32) == x,
{
    lemma_word_facts();
}

/// The 10-bit fields of a 32-bit word read by shifting then masking are
/// those read by masking then shifting.
pub proof fn lemma_ten_bit_fields()
    ensures
        forall|x: u32| #[trigger] ((x >> 20u32) & 0x3ffu32) == (x & 0x3ff0_0000u32) >> 20u32,
        forall|x: u32| #[trigger] ((x >> 10u32) & 0x3ffu32) == (x & 0x000f_fc00u32) >> 10u32,
        forall|x: u32| #[trigger] ((x >> 30u32) & 0x3u32) == (x & 0xc000_0000u32) >> 30u32,
{
    lemma_word_facts();
}

/// The fields of an `A8R3G3B2` word read by shifting then masking are
/// those read by masking then shifting.
pub proof fn lemma_r3g3b2_fields()
    ensures
        forall|w: u16| #[trigger] ((w >> 5u16) & 0x7u16) == (w & 0x00e0u16) >> 5u16,
        forall|w: u16| #[trigger] ((w >> 2u16) & 0x7u16) == (w & 0x001cu16) >> 2u16,
        forall|w: u16| #[trigger] ((w >> 8u16) & 0xffu16) == (w & 0xff00u16) >> 8u16,
{
    lemma_word_facts();
}

/// The fields of an RGB565 word read by shifting then masking are those
/// read by masking then shifting.
pub proof fn lemma_rgb565_fields()
    ensures
        forall|w: u16| #[trigger] ((w >> 11u16) & 0x1fu16) == (w & 0xf800u16) >> 11u16,
        forall|w: u16| #[trigger] ((w >> 5u16) & 0x3fu16) == (w & 0x07e0u16) >> 5u16,
{
    lemma_word_facts();
}

/// Appending a bit above a `k`-bit value gives a `k + 1`-bit value.
pub proof fn lemma_or_below(prev: u64, bit: u64, k: u64)
    by (bit_vector)
    requires
        prev < (1u64 << k),
        bit <= 1,
        k < 32,
    ensures
        (prev | (bit << k)) < (1u64 << (k + 1)),
{
}

/// Halving a nonzero word makes it smaller.
pub proof fn lemma_half_smaller()
    ensures
        forall|x: u32| x > 0 ==> #[trigger] (x >> 1u32) < x,
{
    lemma_word_facts();
}

/// A zero word has no bits.
pub proof fn lemma_zero_bits()
    ensures
        forall|s: u64| #[trigger] ((0u64 >> s) & 7u64) == 0u64,
        (0u64 | (0u64 << 8u64) | (0u64 << 16u64) | (0u64 << 24u64) | (0u64 << 32u64) | (0u64 << 40u64)) == 0u64,
{
    lemma_word_facts();
}

/// Two top nibbles packed into a byte, low one first, read back as
/// nibbles and widened by repetition: `(a / 16) * 17` and `(b / 16) * 17`.
pub proof fn lemma_nibble_pair(a: u8, b: u8)
    by (bit_vector)
    ensures
        ((((((a >> 4u8) & 0x0f) | (((b >> 4u8) & 0x0f) << 4u8)) & 0x0f) << 4u8) | ((((a >> 4u8) & 0x0f) | (((b
            >> 4u8) & 0x0f) << 4u8)) & 0x0f)) == (a / 16) * 17,
        (((((((a >> 4u8) & 0x0f) | (((b >> 4u8) & 0x0f) << 4u8)) >> 4u8) & 0x0f) << 4u8) | (((((a >> 4u8)
            & 0x0f) | (((b >> 4u8) & 0x0f) << 4u8)) >> 4u8) & 0x0f)) == (b / 16) * 17,
{
}

/// Bits of a 128-bit block held as two words: setting one, reading one
/// back through a byte, and the low bits of a value as a remainder.
pub proof fn lemma_block_bits()
    ensures
        forall|x: u64, b: u64, i: u64, j: u64| b <= 1 && i < 64 && j < 64 ==> #[trigger] (((x | (b << i)) >> j) & 1u64) == (if j == i {
            ((x >> j) & 1u64) | b
        } else {
            (x >> j) & 1u64
        }),
        forall|j: u64| #[trigger] ((0u64 >> j) & 1u64) == 0u64,
        forall|x: u64, a: u64, s: u8| a <= 56 && s < 8 ==> #[trigger] ((((((x >> a) & 0xffu64) as u8) >> s) & 1u8) as u64) == (x >> ((a + s) as u64)) & 1u64,
        forall|v: u32, n: u32| n <= 8 ==> #[trigger] (v & (((1u32 << n) - 1) as u32)) == v % (1u32 << n),
        forall|x: u64| #[trigger] (x | 0u64) == x,
        forall|x: u32| #[trigger] ((x & 1u32) & 1u32) == (x & 1u32),
{
    lemma_word_facts();
}

/// What writing one bit into a byte does to the byte's bits, and how
/// bits appended one by one above a value build its low bits.
pub proof fn lemma_bit_writes()
    ensures
        forall|b: u8, x: u8, s: u8, t: u8| x <= 1 && s < 8 && t < 8 && ((b >> s) & 1u8) == 0 ==> #[trigger] (((b | (x << s)) >> t) & 1u8) == (if t == s {
            x
        } else {
            (b >> t) & 1u8
        }),
        forall|s: u8| #[trigger] ((0u8 >> s) & 1u8) == 0u8,
        forall|v: u32, k: u64| k < 32 ==> #[trigger] (((v as u64) & (((1u64 << k) - 1) as u64)) | ((((v >> (k as u32)) & 1u32) as u64) << k)) == (v as u64) & (((1u64 << ((k + 1) as u64)) - 1) as u64),
        forall|v: u64, n: u64| n <= 32 && v < (1u64 << n) ==> #[trigger] (v & (((1u64 << n) - 1) as u64)) == v,
        forall|v: u64| #[trigger] (v & 0u64) == 0u64,
        forall|x: u32| #[trigger] ((x & 0xffu32) as u8) == (x as u8),
        (1u64 << 7u64) == 128,
        forall|s: u32| #[trigger] ((0u32 >> s) & 1u32) == 0u32,
        ((1u32 >> 0u32) & 1u32) == 1u32,
        forall|x: u32| #[trigger] (x >> 1u32) == x / 2,
        forall|x: u32| x < 256 ==> #[trigger] (x >> 3u32) < 32,
        forall|x: u32| x < 256 ==> #[trigger] (x >> 2u32) < 64,
        (16352u32 >> 6u32) == 255u32,
        forall|x: u32| #[trigger] (((x & 1u32) >> 0u32) & 1u32) == (x & 1u32),
        forall|x: u32, b: u32| x < 128 && b <= 1 ==> #[trigger] ((x << 1u32) | (b & 1u32)) == 2 * x + b,
        forall|x: u32| #[trigger] (x >> 6u32) == x / 64,
{
    lemma_word_facts();
}

/// The shift, mask and power-of-two facts above, proved in one place.
proof fn lemma_word_facts()
    by (bit_vector)
    ensures
        forall|x: u32| #[trigger] (x | 0u32) == x,
        forall|x: u32| #[trigger] ((x >> 20u32) & 0x3ffu32) == (x & 0x3ff0_0000u32) >> 20u32,
        forall|x: u32| #[trigger] ((x >> 10u32) & 0x3ffu32) == (x & 0x000f_fc00u32) >> 10u32,
        forall|x: u32| #[trigger] ((x >> 30u32) & 0x3u32) == (x & 0xc000_0000u32) >> 30u32,
        forall|w: u16| #[trigger] ((w >> 5u16) & 0x7u16) == (w & 0x00e0u16) >> 5u16,
        forall|w: u16| #[trigger] ((w >> 2u16) & 0x7u16) == (w & 0x001cu16) >> 2u16,
        forall|w: u16| #[trigger] ((w >> 8u16) & 0xffu16) == (w & 0xff00u16) >> 8u16,
        forall|w: u16| #[trigger] ((w >> 11u16) & 0x1fu16) == (w & 0xf800u16) >> 11u16,
        forall|w: u16| #[trigger] ((w >> 5u16) & 0x3fu16) == (w & 0x07e0u16) >> 5u16,
        forall|x: u32| #[trigger] (((x & 1u32) >> 0u32) & 1u32) == (x & 1u32),
        forall|x: u32, b: u32| x < 128 && b <= 1 ==> #[trigger] ((x << 1u32) | (b & 1u32)) == 2 * x + b,
        forall|x: u32| #[trigger] (x >> 6u32) == x / 64,
        (1u64 << 0u64) == 1,
        (1u64 << 1u64) == 2,
        (1u64 << 2u64) == 4,
        (1u64 << 3u64) == 8,
        (1u64 << 4u64) == 16,
        (1u64 << 5u64) == 32,
        (1u64 << 6u64) == 64,
        (1u64 << 8u64) == 256,
        (1u64 << 10u64) == 1024,
        (1u64 << 11u64) == 2048,
        (1u64 << 16u64) == 0x1_0000,
        (1u64 << 32u64) == 0x1_0000_0000u64,
        (1u64 << 48u64) == 0x1_0000_0000_0000u64,
        (1u32 << 0u32) == 1,
        (1u32 << 1u32) == 2,
        (1u32 << 2u32) == 4,
        (1u32 << 3u32) == 8,
        (1u32 << 4u32) == 16,
        (1u32 << 5u32) == 32,
        (1u32 << 6u32) == 64,
        (1u32 << 7u32) == 128,
        (1u32 << 8u32) == 256,
        forall|a: u64, b: u64| a <= b && b <= 32 ==> #[trigger] (1u64 << a) <= #[trigger] (1u64 << b),
        forall|a: u32, b: u32| a <= b && b <= 31 ==> #[trigger] (1u32 << a) <= #[trigger] (1u32 << b),
        forall|x: u8, s: u8| #[trigger] ((x >> s) & 1u8) <= 1,
        forall|x: u32, m: u32| #[trigger] (x & m) <= m,
        forall|x: u64, m: u64| #[trigger] (x & m) <= m,
        forall|x: u32, s: u32| #[trigger] ((x >> s) & 1u32) <= 1,
        forall|a: u32, b: u32| a <= 1 && b <= 1 ==> #[trigger] ((a << 1u32) | b) <= 3,
        forall|x: u32, s: u32| #[trigger] (x >> s) <= x,
        forall|x: u32| #[trigger] (x >> 8u32) == x / 256,
        forall|x: u32| #[trigger] (x >> 2u32) < 0x4000_0000,
        forall|x: u32| #[trigger] (x >> 6u32) < 0x0400_0000,
        forall|x: u32| #[trigger] (x >> 10u32) < 0x0040_0000,
        forall|x: u32| #[trigger] (x >> 14u32) < 0x0004_0000,
        forall|x: u32| x > 0 ==> #[trigger] (x >> 1u32) < x,
        forall|s: u64| #[trigger] ((0u64 >> s) & 7u64) == 0u64,
        (0u64 | (0u64 << 8u64) | (0u64 << 16u64) | (0u64 << 24u64) | (0u64 << 32u64) | (0u64 << 40u64)) == 0u64,
        forall|b: u8, x: u8, s: u8, t: u8| x <= 1 && s < 8 && t < 8 && ((b >> s) & 1u8) == 0 ==> #[trigger] (((b | (x << s)) >> t) & 1u8) == (if t == s {
            x
        } else {
            (b >> t) & 1u8
        }),
        forall|s: u8| #[trigger] ((0u8 >> s) & 1u8) == 0u8,
        forall|v: u32, k: u64| k < 32 ==> #[trigger] (((v as u64) & (((1u64 << k) - 1) as u64)) | ((((v >> (k as u32)) & 1u32) as u64) << k)) == (v as u64) & (((1u64 << ((k + 1) as u64)) - 1) as u64),
        forall|v: u64, n: u64| n <= 32 && v < (1u64 << n) ==> #[trigger] (v & (((1u64 << n) - 1) as u64)) == v,
        forall|v: u64| #[trigger] (v & 0u64) == 0u64,
        forall|x: u32| #[trigger] ((x & 0xffu32) as u8) == (x as u8),
        (1u64 << 7u64) == 128,
        forall|s: u32| #[trigger] ((0u32 >> s) & 1u32) == 0u32,
        ((1u32 >> 0u32) & 1u32) == 1u32,
        forall|x: u32| #[trigger] (x >> 1u32) == x / 2,
        forall|x: u32| x < 256 ==> #[trigger] (x >> 3u32) < 32,
        forall|x: u32| x < 256 ==> #[trigger] (x >> 2u32) < 64,
        (16352u32 >> 6u32) == 255u32,
        forall|x: u64, b: u64, i: u64, j: u64| b <= 1 && i < 64 && j < 64 ==> #[trigger] (((x | (b << i)) >> j) & 1u64) == (if j == i {
            ((x >> j) & 1u64) | b
        } else {
            (x >> j) & 1u64
        }),
        forall|j: u64| #[trigger] ((0u64 >> j) & 1u64) == 0u64,
        forall|x: u64, a: u64, s: u8| a <= 56 && s < 8 ==> #[trigger] ((((((x >> a) & 0xffu64) as u8) >> s) & 1u8) as u64) == (x >> ((a + s) as u64)) & 1u64,
        forall|v: u32, n: u32| n <= 8 ==> #[trigger] (v & (((1u32 << n) - 1) as u32)) == v % (1u32 << n),
        forall|x: u64| #[trigger] (x | 0u64) == x,
        forall|x: u32| #[trigger] ((x & 1u32) & 1u32) == (x & 1u32),
{
}

} // verus!
