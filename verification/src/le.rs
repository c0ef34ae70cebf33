//! Little-endian byte-sequence readers and the arithmetic facts they need.
use vstd::prelude::*;

verus! {

/// The little-endian `u16` stored at `s[off..off + 2]`.
pub open spec fn le_u16(s: Seq<u8>, off: int) -> u16 {
    (s[off] + 256 * s[off + 1]) as u16
}

/// The little-endian `u32` stored at `s[off..off + 4]`.
pub open spec fn le_u32(s: Seq<u8>, off: int) -> u32 {
    (s[off] + 256 * s[off + 1] + 65536 * s[off + 2] + 16777216 * s[off + 3]) as u32
}

/// Read the little-endian `u16` at `off`.
pub fn read_u16_le(buf: &[u8], off: usize) -> (r: u16)
    requires
        off + 2 <= buf@.len(),
    ensures
        r == le_u16(buf@, off as int),
{
    buf[off] as u16 + (buf[off + 1] as u16) * 256
}

/// Read the little-endian `u32` at `off`.
pub fn read_u32_le(buf: &[u8], off: usize) -> (r: u32)
    requires
        off + 4 <= buf@.len(),
    ensures
        r == le_u32(buf@, off as int),
{
    buf[off] as u32 + (buf[off + 1] as u32) * 256 + (buf[off + 2] as u32) * 65536 + (buf[off
        + 3] as u32) * 16777216
}

/// Products of non-negative factors grow when a factor ≥ 1 is appended.
pub proof fn lemma_mul_grows(a: int, b: int)
    requires
        a >= 0,
        b >= 1,
    ensures
        a <= a * b,
{
    assert(a <= a * b) by (nonlinear_arith)
        requires
            a >= 0,
            b >= 1,
    ;
}

/// Multiplication by a non-negative factor preserves order.
pub proof fn lemma_mul_le(a: int, b: int, c: int)
    requires
        0 <= a <= b,
        c >= 0,
    ensures
        a * c <= b * c,
{
    assert(a * c <= b * c) by (nonlinear_arith)
        requires
            0 <= a <= b,
            c >= 0,
    ;
}

/// The byte count `w × h × ch × bps` of a tightly packed surface, with the
/// intermediate products computed in `usize`. `None` when any product
/// overflows; the result is `Some((w × h × ch, w × h × ch × bps))` otherwise.
pub fn surface_need(width: u32, height: u32, channels: usize, bytes_per_sample: usize) -> (r: Option<(usize, usize)>)
    requires
        channels >= 1,
        bytes_per_sample >= 1,
    ensures
        r is Some <==> width * height * channels * bytes_per_sample <= usize::MAX,
        r matches Some((n, need)) ==> n == width * height * channels && need == n * bytes_per_sample,
{
    let px = match (width as usize).checked_mul(height as usize) {
        Some(v) => v,
        None => {
            proof {
                lemma_mul_grows(width * height, channels as int);
                lemma_mul_grows(width * height * channels, bytes_per_sample as int);
            }
            return None;
        },
    };
    let total = match px.checked_mul(channels) {
        Some(v) => v,
        None => {
            proof {
                lemma_mul_grows(width * height * channels, bytes_per_sample as int);
            }
            return None;
        },
    };
    match total.checked_mul(bytes_per_sample) {
        Some(need) => Some((total, need)),
        None => None,
    }
}

} // verus!
