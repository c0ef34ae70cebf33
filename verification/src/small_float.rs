//! The bit patterns of small floating-point encodings widened to binary32:
//! binary16 halves and the unsigned 11- and 10-bit floats of
//! `R11G11B10_FLOAT`. Every finite value, infinity and NaN keeps its
//! value (a subnormal becomes a normal binary32 value); only the bits are
//! computed here.
use vstd::prelude::*;
use vstd::arithmetic::power2::{pow2, lemma2_to64, lemma_pow2_adds, lemma_pow2_pos, lemma_pow2_strictly_increases, lemma_pow2_unfold};
use crate::bc6h_enc::pow2_u64;

verus! {

/// Shift a nonzero subnormal mantissa `m` up until its leading one reaches
/// bit `mb`, lowering the exponent `e` by one per shift.
pub open spec fn normalize(m: int, e: int, mb: nat) -> (int, int)
    decreases 2 * pow2(mb) - m,
{
    if m <= 0 || m >= pow2(mb) {
        (m, e)
    } else {
        normalize(2 * m, e - 1, mb)
    }
}

/// The binary32 bits of an unsigned small float with a 5-bit exponent
/// (bias 15) above an `mb`-bit mantissa, read from the low bits of `bits`:
/// zero, a subnormal normalised, infinity or NaN with the mantissa moved
/// to the top, or a normal value with the exponent rebiased to 127.
pub open spec fn packed_float_bits_spec(bits: u32, mb: u32) -> u32 {
    let p = pow2(mb as nat) as int;
    let exp = (bits as int / p) % 32;
    let mant = bits as int % p;
    let shift = pow2((23 - mb) as nat) as int;
    if exp == 0 {
        if mant == 0 {
            0
        } else {
            let n = normalize(mant, -14, mb as nat);
            ((n.1 + 127) * 0x80_0000 + (n.0 - p) * shift) as u32
        }
    } else if exp == 31 {
        (0x7f80_0000 + mant * shift) as u32
    } else {
        ((exp + 112) * 0x80_0000 + mant * shift) as u32
    }
}

/// [`packed_float_bits_spec`].
pub fn packed_float_bits(bits: u32, mantissa_bits: u32) -> (r: u32)
    requires
        1 <= mantissa_bits <= 10,
    ensures
        r == packed_float_bits_spec(bits, mantissa_bits),
        r < 0x8000_0000,
{
    proof {
        lemma2_to64();
        lemma_pow2_adds(mantissa_bits as nat, (23 - mantissa_bits) as nat);
        lemma_pow2_strictly_increases(mantissa_bits as nat, 23);
        if mantissa_bits < 10 {
            lemma_pow2_strictly_increases(mantissa_bits as nat, 10);
        }
    }
    let p = pow2_u64(mantissa_bits);
    let shift = pow2_u64(23 - mantissa_bits);
    let exp = ((bits as u64) / p) % 32;
    let mant = (bits as u64) % p;
    assert(mant * shift < 0x80_0000) by (nonlinear_arith)
        requires
            mant < p,
            p * shift == 0x80_0000,
            shift >= 1,
    ;
    if exp == 0 {
        if mant == 0 {
            0
        } else {
            let mut m = mant;
            let mut e: i64 = -14;
            while m < p
                invariant
                    1 <= mantissa_bits <= 10,
                    p == pow2(mantissa_bits as nat),
                    p <= 1024,
                    1 <= m < 2 * p,
                    e <= -14,
                    m >= pow2((-14 - e) as nat),
                    normalize(m as int, e as int, mantissa_bits as nat) == normalize(mant as int, -14, mantissa_bits as nat),
                decreases 2 * p - m,
            {
                proof {
                    lemma2_to64();
                    let k = (-14 - e) as nat;
                    if k >= 11 {
                        lemma_pow2_strictly_increases(11, k);
                        assert(false);
                    }
                    lemma_pow2_unfold((k + 1) as nat);
                    assert(normalize(m as int, e as int, mantissa_bits as nat) == normalize(2 * m as int, e - 1, mantissa_bits as nat));
                }
                m = 2 * m;
                e = e - 1;
            }
            proof {
                lemma2_to64();
                let k = (-14 - e) as nat;
                if k >= 11 {
                    lemma_pow2_strictly_increases(11, k);
                }
            }
            assert(normalize(m as int, e as int, mantissa_bits as nat) == (m as int, e as int));
            assert((m - p) * shift < 0x80_0000) by (nonlinear_arith)
                requires
                    0 <= m - p < p,
                    p * shift == 0x80_0000,
                    shift >= 1,
            ;
            ((e + 127) as u32) * 0x80_0000 + ((m - p) * shift) as u32
        }
    } else if exp == 31 {
        0x7f80_0000 + (mant * shift) as u32
    } else {
        ((exp + 112) as u32) * 0x80_0000 + (mant * shift) as u32
    }
}

/// The binary32 bits of the binary16 value `h`: the sign moved to bit 31,
/// the rest widened as by [`packed_float_bits_spec`] with a 10-bit mantissa.
pub open spec fn half_to_f32_bits_spec(h: u16) -> u32 {
    ((h / 0x8000) * 0x8000_0000 + packed_float_bits_spec((h % 0x8000) as u32, 10)) as u32
}

/// [`half_to_f32_bits_spec`].
pub fn half_to_f32_bits(h: u16) -> (r: u32)
    ensures
        r == half_to_f32_bits_spec(h),
{
    let rest = packed_float_bits((h % 0x8000) as u32, 10);
    proof {
        lemma2_to64();
        lemma_pow2_strictly_increases(10, 23);
    }
    if h >= 0x8000 {
        0x8000_0000 + rest
    } else {
        rest
    }
}

} // verus!
