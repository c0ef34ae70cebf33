//! Decoders for the extended integer-valued uncompressed DDS surfaces
//! (16-bit UNORM/SNORM, plain 8/16/32-bit integers, packed 10:10:10:2,
//! 3:3:2 + 8, and the horizontally sub-sampled 4:2:2 RGB layouts).
//!
//! Every sample is stored little-endian with the channels in the order
//! the DXGI name lists them (the first letter at the lowest address or,
//! for packed words, in the least-significant bits). The decoders return
//! the stored integers; no normalisation onto a real range is applied.
use vstd::prelude::*;
use crate::error::{DdsError, Result, is_invalid, is_unsupported};
use crate::image::DdsPixelFormat;
use crate::le::{le_u16, le_u32, read_u16_le, read_u32_le, surface_need, lemma_mul_grows};

verus! {

/// `n` consecutive little-endian `u16` words of `s`, starting at byte 0.
pub open spec fn le_u16_words(s: Seq<u8>, n: nat) -> Seq<u16> {
    Seq::new(n, |i: int| le_u16(s, 2 * i))
}

/// `n` consecutive little-endian `u32` words of `s`, starting at byte 0.
pub open spec fn le_u32_words(s: Seq<u8>, n: nat) -> Seq<u32> {
    Seq::new(n, |i: int| le_u32(s, 4 * i))
}

/// Reinterpret each word as a two's-complement `i16`.
pub open spec fn as_i16s(v: Seq<u16>) -> Seq<i16> {
    Seq::new(v.len(), |i: int| v[i] as i16)
}

/// Reinterpret each byte as a two's-complement `i8`.
pub open spec fn as_i8s(v: Seq<u8>) -> Seq<i8> {
    Seq::new(v.len(), |i: int| v[i] as i8)
}

/// Reinterpret each word as a two's-complement `i32`.
pub open spec fn as_i32s(v: Seq<u32>) -> Seq<i32> {
    Seq::new(v.len(), |i: int| v[i] as i32)
}

/// Read `n` little-endian `u16` words from the start of `data`.
fn read_u16_words(data: &[u8], n: usize) -> (out: Vec<u16>)
    requires
        2 * n <= data@.len(),
    ensures
        out@ == le_u16_words(data@, n as nat),
{
    let mut out: Vec<u16> = Vec::with_capacity(n);
    let len = data.len();
    let mut k: usize = 0;
    while k < n
        invariant
            len == data@.len(),
            2 * n <= data@.len(),
            k <= n,
            out@ == le_u16_words(data@, k as nat),
        decreases n - k,
    {
        out.push(read_u16_le(data, 2 * k));
        k += 1;
        assert(out@ =~= le_u16_words(data@, k as nat));
    }
    out
}

/// Read `n` little-endian `u32` words from the start of `data`.
fn read_u32_words(data: &[u8], n: usize) -> (out: Vec<u32>)
    requires
        4 * n <= data@.len(),
    ensures
        out@ == le_u32_words(data@, n as nat),
{
    let mut out: Vec<u32> = Vec::with_capacity(n);
    let len = data.len();
    let mut k: usize = 0;
    while k < n
        invariant
            len == data@.len(),
            4 * n <= data@.len(),
            k <= n,
            out@ == le_u32_words(data@, k as nat),
        decreases n - k,
    {
        out.push(read_u32_le(data, 4 * k));
        k += 1;
        assert(out@ =~= le_u32_words(data@, k as nat));
    }
    out
}

fn u16_to_i16s(v: Vec<u16>) -> (out: Vec<i16>)
    ensures
        out@ == as_i16s(v@),
{
    let mut out: Vec<i16> = Vec::with_capacity(v.len());
    let mut k: usize = 0;
    while k < v.len()
        invariant
            k <= v.len(),
            out@ == as_i16s(v@).take(k as int),
        decreases v.len() - k,
    {
        out.push(v[k] as i16);
        k += 1;
        assert(out@ =~= as_i16s(v@).take(k as int));
    }
    assert(out@ =~= as_i16s(v@));
    out
}

fn u8_to_i8s(v: Vec<u8>) -> (out: Vec<i8>)
    ensures
        out@ == as_i8s(v@),
{
    let mut out: Vec<i8> = Vec::with_capacity(v.len());
    let mut k: usize = 0;
    while k < v.len()
        invariant
            k <= v.len(),
            out@ == as_i8s(v@).take(k as int),
        decreases v.len() - k,
    {
        out.push(v[k] as i8);
        k += 1;
        assert(out@ =~= as_i8s(v@).take(k as int));
    }
    assert(out@ =~= as_i8s(v@));
    out
}

fn u32_to_i32s(v: Vec<u32>) -> (out: Vec<i32>)
    ensures
        out@ == as_i32s(v@),
{
    let mut out: Vec<i32> = Vec::with_capacity(v.len());
    let mut k: usize = 0;
    while k < v.len()
        invariant
            k <= v.len(),
            out@ == as_i32s(v@).take(k as int),
        decreases v.len() - k,
    {
        out.push(v[k] as i32);
        k += 1;
        assert(out@ =~= as_i32s(v@).take(k as int));
    }
    assert(out@ =~= as_i32s(v@));
    out
}

// ---- R16G16B16A16 UNORM / SNORM -------------------------------------------

/// Number of stored samples of a `w × h` surface with `ch` channels.
pub open spec fn samples(w: u32, h: u32, ch: nat) -> int {
    w * h * ch
}

fn decode_rgba16_raw(width: u32, height: u32, data: &[u8]) -> (r: Result<Vec<u16>>)
    ensures
        samples(width, height, 4) * 2 <= data@.len() ==> (r matches Ok(v) && v@ == le_u16_words(
            data@,
            samples(width, height, 4) as nat,
        )),
        samples(width, height, 4) * 2 > data@.len() ==> is_invalid(r),
{
    let len = data.len();
    match surface_need(width, height, 4, 2) {
        Some((n, need)) => {
            if len < need {
                return Err(DdsError::invalid("decode_rgba16: input shorter than the surface"));
            }
            Ok(read_u16_words(data, n))
        },
        None => Err(DdsError::invalid("decode_rgba16: surface size overflow")),
    }
}

/// Decode a tightly-packed `R16G16B16A16_UNORM` surface into the flat,
/// row-major list of its stored `u16` samples (R, G, B, A per pixel).
pub fn decode_rgba16_unorm_surface(width: u32, height: u32, data: &[u8]) -> (r: Result<Vec<u16>>)
    ensures
        samples(width, height, 4) * 2 <= data@.len() ==> (r matches Ok(v) && v@ == le_u16_words(
            data@,
            samples(width, height, 4) as nat,
        )),
        samples(width, height, 4) * 2 > data@.len() ==> is_invalid(r),
{
    decode_rgba16_raw(width, height, data)
}

/// Decode a tightly-packed `R16G16B16A16_SNORM` surface into the flat,
/// row-major list of its stored two's-complement `i16` samples.
pub fn decode_rgba16_snorm_surface(width: u32, height: u32, data: &[u8]) -> (r: Result<Vec<i16>>)
    ensures
        samples(width, height, 4) * 2 <= data@.len() ==> (r matches Ok(v) && v@ == as_i16s(
            le_u16_words(data@, samples(width, height, 4) as nat),
        )),
        samples(width, height, 4) * 2 > data@.len() ==> is_invalid(r),
{
    let raw = decode_rgba16_raw(width, height, data)?;
    Ok(u16_to_i16s(raw))
}

// ---- 16-bit plain integers -------------------------------------------------

/// Channels of a 16-bit plain-integer layout.
pub open spec fn spec_uint16_channels(p: DdsPixelFormat) -> Option<nat> {
    match p {
        DdsPixelFormat::R16Uint | DdsPixelFormat::R16Sint => Some(1),
        DdsPixelFormat::R16G16Uint | DdsPixelFormat::R16G16Sint => Some(2),
        DdsPixelFormat::R16G16B16A16Uint | DdsPixelFormat::R16G16B16A16Sint => Some(4),
        _ => None,
    }
}

fn uint16_channels(pix: DdsPixelFormat) -> (r: Option<u32>)
    ensures
        r matches Some(c) ==> spec_uint16_channels(pix) == Some(c as nat),
        r is None <==> spec_uint16_channels(pix) is None,
{
    match pix {
        DdsPixelFormat::R16Uint | DdsPixelFormat::R16Sint => Some(1),
        DdsPixelFormat::R16G16Uint | DdsPixelFormat::R16G16Sint => Some(2),
        DdsPixelFormat::R16G16B16A16Uint | DdsPixelFormat::R16G16B16A16Sint => Some(4),
        _ => None,
    }
}

/// The stored samples of a 16-bit integer surface with `ch` channels, or
/// `None` when `data` is too short.
pub open spec fn spec_words16(w: u32, h: u32, ch: nat, data: Seq<u8>) -> Option<Seq<u16>> {
    if samples(w, h, ch) * 2 <= data.len() {
        Some(le_u16_words(data, samples(w, h, ch) as nat))
    } else {
        None
    }
}

fn decode_uint16_raw(pix: DdsPixelFormat, width: u32, height: u32, data: &[u8]) -> (r: Result<Vec<u16>>)
    ensures
        spec_uint16_channels(pix) is None ==> is_unsupported(r),
        spec_uint16_channels(pix) matches Some(ch) ==> match spec_words16(width, height, ch, data@) {
            Some(w) => r matches Ok(v) && v@ == w,
            None => is_invalid(r),
        },
{
    let len = data.len();
    let channels = match uint16_channels(pix) {
        Some(c) => c as usize,
        None => {
            return Err(DdsError::unsupported("decode_uint16_surface: not a 16-bit integer format"));
        },
    };
    match surface_need(width, height, channels, 2) {
        Some((n, need)) => {
            if len < need {
                return Err(DdsError::invalid("decode_uint16: input shorter than the surface"));
            }
            Ok(read_u16_words(data, n))
        },
        None => Err(DdsError::invalid("decode_uint16: surface size overflow")),
    }
}

/// True for `R16_UINT`, `R16G16_UINT`, `R16G16B16A16_UINT`.
pub open spec fn is_uint16_format(p: DdsPixelFormat) -> bool {
    p is R16Uint || p is R16G16Uint || p is R16G16B16A16Uint
}

/// True for `R16_SINT`, `R16G16_SINT`, `R16G16B16A16_SINT`.
pub open spec fn is_sint16_format(p: DdsPixelFormat) -> bool {
    p is R16Sint || p is R16G16Sint || p is R16G16B16A16Sint
}

/// Decode a tightly-packed 16-bit unsigned-integer surface (`R16_UINT`,
/// `R16G16_UINT` or `R16G16B16A16_UINT`) into its flat, row-major list of
/// stored samples. Any other format is `Unsupported`; a short input is
/// `InvalidData`.
pub fn decode_uint16_surface(pix: DdsPixelFormat, width: u32, height: u32, data: &[u8]) -> (r:
    Result<Vec<u16>>)
    ensures
        !is_uint16_format(pix) ==> is_unsupported(r),
        is_uint16_format(pix) ==> match spec_words16(
            width,
            height,
            spec_uint16_channels(pix).unwrap(),
            data@,
        ) {
            Some(w) => r matches Ok(v) && v@ == w,
            None => is_invalid(r),
        },
{
    match pix {
        DdsPixelFormat::R16Uint | DdsPixelFormat::R16G16Uint | DdsPixelFormat::R16G16B16A16Uint => {
            decode_uint16_raw(pix, width, height, data)
        },
        _ => Err(DdsError::unsupported("decode_uint16_surface: not a 16-bit unsigned-integer format")),
    }
}

/// Decode a tightly-packed 16-bit signed-integer surface (`R16_SINT`,
/// `R16G16_SINT` or `R16G16B16A16_SINT`) into its flat, row-major list of
/// stored two's-complement samples.
pub fn decode_sint16_surface(pix: DdsPixelFormat, width: u32, height: u32, data: &[u8]) -> (r:
    Result<Vec<i16>>)
    ensures
        !is_sint16_format(pix) ==> is_unsupported(r),
        is_sint16_format(pix) ==> match spec_words16(
            width,
            height,
            spec_uint16_channels(pix).unwrap(),
            data@,
        ) {
            Some(w) => r matches Ok(v) && v@ == as_i16s(w),
            None => is_invalid(r),
        },
{
    match pix {
        DdsPixelFormat::R16Sint | DdsPixelFormat::R16G16Sint | DdsPixelFormat::R16G16B16A16Sint => {
            let raw = decode_uint16_raw(pix, width, height, data)?;
            Ok(u16_to_i16s(raw))
        },
        _ => Err(DdsError::unsupported("decode_sint16_surface: not a 16-bit signed-integer format")),
    }
}

// ---- 8-bit plain integers --------------------------------------------------

/// Channels of an 8-bit plain-integer layout.
pub open spec fn spec_uint8_channels(p: DdsPixelFormat) -> Option<nat> {
    match p {
        DdsPixelFormat::R8Uint | DdsPixelFormat::R8Sint => Some(1),
        DdsPixelFormat::R8G8Uint | DdsPixelFormat::R8G8Sint => Some(2),
        DdsPixelFormat::R8G8B8A8Uint | DdsPixelFormat::R8G8B8A8Sint => Some(4),
        _ => None,
    }
}

fn uint8_channels(pix: DdsPixelFormat) -> (r: Option<u32>)
    ensures
        r matches Some(c) ==> spec_uint8_channels(pix) == Some(c as nat),
        r is None <==> spec_uint8_channels(pix) is None,
{
    match pix {
        DdsPixelFormat::R8Uint | DdsPixelFormat::R8Sint => Some(1),
        DdsPixelFormat::R8G8Uint | DdsPixelFormat::R8G8Sint => Some(2),
        DdsPixelFormat::R8G8B8A8Uint | DdsPixelFormat::R8G8B8A8Sint => Some(4),
        _ => None,
    }
}

/// The stored samples of an 8-bit integer surface with `ch` channels, or
/// `None` when `data` is too short.
pub open spec fn spec_bytes8(w: u32, h: u32, ch: nat, data: Seq<u8>) -> Option<Seq<u8>> {
    if samples(w, h, ch) <= data.len() {
        Some(data.take(samples(w, h, ch)))
    } else {
        None
    }
}

fn decode_uint8_raw(pix: DdsPixelFormat, width: u32, height: u32, data: &[u8]) -> (r: Result<Vec<u8>>)
    ensures
        spec_uint8_channels(pix) is None ==> is_unsupported(r),
        spec_uint8_channels(pix) matches Some(ch) ==> match spec_bytes8(width, height, ch, data@) {
            Some(w) => r matches Ok(v) && v@ == w,
            None => is_invalid(r),
        },
{
    let len = data.len();
    let channels = match uint8_channels(pix) {
        Some(c) => c as usize,
        None => {
            return Err(DdsError::unsupported("decode_uint8_surface: not an 8-bit integer format"));
        },
    };
    match surface_need(width, height, channels, 1) {
        Some((n, _need)) => {
            if len < n {
                return Err(DdsError::invalid("decode_uint8: input shorter than the surface"));
            }
            let v = vstd::slice::slice_to_vec(vstd::slice::slice_subrange(data, 0, n));
            Ok(v)
        },
        None => Err(DdsError::invalid("decode_uint8: surface size overflow")),
    }
}

/// True for `R8_UINT`, `R8G8_UINT`, `R8G8B8A8_UINT`.
pub open spec fn is_uint8_format(p: DdsPixelFormat) -> bool {
    p is R8Uint || p is R8G8Uint || p is R8G8B8A8Uint
}

/// True for `R8_SINT`, `R8G8_SINT`, `R8G8B8A8_SINT`.
pub open spec fn is_sint8_format(p: DdsPixelFormat) -> bool {
    p is R8Sint || p is R8G8Sint || p is R8G8B8A8Sint
}

/// Decode a tightly-packed 8-bit unsigned-integer surface (`R8_UINT`,
/// `R8G8_UINT` or `R8G8B8A8_UINT`): the stored bytes are the values.
pub fn decode_uint8_surface(pix: DdsPixelFormat, width: u32, height: u32, data: &[u8]) -> (r:
    Result<Vec<u8>>)
    ensures
        !is_uint8_format(pix) ==> is_unsupported(r),
        is_uint8_format(pix) ==> match spec_bytes8(
            width,
            height,
            spec_uint8_channels(pix).unwrap(),
            data@,
        ) {
            Some(w) => r matches Ok(v) && v@ == w,
            None => is_invalid(r),
        },
{
    match pix {
        DdsPixelFormat::R8Uint | DdsPixelFormat::R8G8Uint | DdsPixelFormat::R8G8B8A8Uint => {
            decode_uint8_raw(pix, width, height, data)
        },
        _ => Err(DdsError::unsupported("decode_uint8_surface: not an 8-bit unsigned-integer format")),
    }
}

/// Decode a tightly-packed 8-bit signed-integer surface (`R8_SINT`,
/// `R8G8_SINT` or `R8G8B8A8_SINT`): the stored bytes reinterpreted as `i8`.
pub fn decode_sint8_surface(pix: DdsPixelFormat, width: u32, height: u32, data: &[u8]) -> (r:
    Result<Vec<i8>>)
    ensures
        !is_sint8_format(pix) ==> is_unsupported(r),
        is_sint8_format(pix) ==> match spec_bytes8(
            width,
            height,
            spec_uint8_channels(pix).unwrap(),
            data@,
        ) {
            Some(w) => r matches Ok(v) && v@ == as_i8s(w),
            None => is_invalid(r),
        },
{
    match pix {
        DdsPixelFormat::R8Sint | DdsPixelFormat::R8G8Sint | DdsPixelFormat::R8G8B8A8Sint => {
            let raw = decode_uint8_raw(pix, width, height, data)?;
            Ok(u8_to_i8s(raw))
        },
        _ => Err(DdsError::unsupported("decode_sint8_surface: not an 8-bit signed-integer format")),
    }
}

// ---- 32-bit plain integers -------------------------------------------------

/// Channels of a 32-bit plain-integer layout.
pub open spec fn spec_uint32_channels(p: DdsPixelFormat) -> Option<nat> {
    match p {
        DdsPixelFormat::R32Uint | DdsPixelFormat::R32Sint => Some(1),
        DdsPixelFormat::R32G32Uint | DdsPixelFormat::R32G32Sint => Some(2),
        DdsPixelFormat::R32G32B32Uint | DdsPixelFormat::R32G32B32Sint => Some(3),
        DdsPixelFormat::R32G32B32A32Uint | DdsPixelFormat::R32G32B32A32Sint => Some(4),
        _ => None,
    }
}

fn uint32_channels(pix: DdsPixelFormat) -> (r: Option<u32>)
    ensures
        r matches Some(c) ==> spec_uint32_channels(pix) == Some(c as nat),
        r is None <==> spec_uint32_channels(pix) is None,
{
    match pix {
        DdsPixelFormat::R32Uint | DdsPixelFormat::R32Sint => Some(1),
        DdsPixelFormat::R32G32Uint | DdsPixelFormat::R32G32Sint => Some(2),
        DdsPixelFormat::R32G32B32Uint | DdsPixelFormat::R32G32B32Sint => Some(3),
        DdsPixelFormat::R32G32B32A32Uint | DdsPixelFormat::R32G32B32A32Sint => Some(4),
        _ => None,
    }
}

/// The stored samples of a 32-bit integer surface with `ch` channels, or
/// `None` when `data` is too short.
pub open spec fn spec_words32(w: u32, h: u32, ch: nat, data: Seq<u8>) -> Option<Seq<u32>> {
    if samples(w, h, ch) * 4 <= data.len() {
        Some(le_u32_words(data, samples(w, h, ch) as nat))
    } else {
        None
    }
}

fn decode_uint32_raw(pix: DdsPixelFormat, width: u32, height: u32, data: &[u8]) -> (r: Result<Vec<u32>>)
    ensures
        spec_uint32_channels(pix) is None ==> is_unsupported(r),
        spec_uint32_channels(pix) matches Some(ch) ==> match spec_words32(width, height, ch, data@) {
            Some(w) => r matches Ok(v) && v@ == w,
            None => is_invalid(r),
        },
{
    let len = data.len();
    let channels = match uint32_channels(pix) {
        Some(c) => c as usize,
        None => {
            return Err(DdsError::unsupported("decode_uint32_surface: not a 32-bit integer format"));
        },
    };
    match surface_need(width, height, channels, 4) {
        Some((n, need)) => {
            if len < need {
                return Err(DdsError::invalid("decode_uint32: input shorter than the surface"));
            }
            Ok(read_u32_words(data, n))
        },
        None => Err(DdsError::invalid("decode_uint32: surface size overflow")),
    }
}

/// True for the four `R32*_UINT` layouts.
pub open spec fn is_uint32_format(p: DdsPixelFormat) -> bool {
    p is R32Uint || p is R32G32Uint || p is R32G32B32Uint || p is R32G32B32A32Uint
}

/// True for the four `R32*_SINT` layouts.
pub open spec fn is_sint32_format(p: DdsPixelFormat) -> bool {
    p is R32Sint || p is R32G32Sint || p is R32G32B32Sint || p is R32G32B32A32Sint
}

/// Decode a tightly-packed 32-bit unsigned-integer surface (`R32_UINT`,
/// `R32G32_UINT`, `R32G32B32_UINT` or `R32G32B32A32_UINT`).
pub fn decode_uint32_surface(pix: DdsPixelFormat, width: u32, height: u32, data: &[u8]) -> (r:
    Result<Vec<u32>>)
    ensures
        !is_uint32_format(pix) ==> is_unsupported(r),
        is_uint32_format(pix) ==> match spec_words32(
            width,
            height,
            spec_uint32_channels(pix).unwrap(),
            data@,
        ) {
            Some(w) => r matches Ok(v) && v@ == w,
            None => is_invalid(r),
        },
{
    match pix {
        DdsPixelFormat::R32Uint
        | DdsPixelFormat::R32G32Uint
        | DdsPixelFormat::R32G32B32Uint
        | DdsPixelFormat::R32G32B32A32Uint => decode_uint32_raw(pix, width, height, data),
        _ => Err(DdsError::unsupported("decode_uint32_surface: not a 32-bit unsigned-integer format")),
    }
}

/// Decode a tightly-packed 32-bit signed-integer surface (`R32_SINT`,
/// `R32G32_SINT`, `R32G32B32_SINT` or `R32G32B32A32_SINT`).
pub fn decode_sint32_surface(pix: DdsPixelFormat, width: u32, height: u32, data: &[u8]) -> (r:
    Result<Vec<i32>>)
    ensures
        !is_sint32_format(pix) ==> is_unsupported(r),
        is_sint32_format(pix) ==> match spec_words32(
            width,
            height,
            spec_uint32_channels(pix).unwrap(),
            data@,
        ) {
            Some(w) => r matches Ok(v) && v@ == as_i32s(w),
            None => is_invalid(r),
        },
{
    match pix {
        DdsPixelFormat::R32Sint
        | DdsPixelFormat::R32G32Sint
        | DdsPixelFormat::R32G32B32Sint
        | DdsPixelFormat::R32G32B32A32Sint => {
            let raw = decode_uint32_raw(pix, width, height, data)?;
            Ok(u32_to_i32s(raw))
        },
        _ => Err(DdsError::unsupported("decode_sint32_surface: not a 32-bit signed-integer format")),
    }
}

// ---- Packed 32-bit words -----------------------------------------------------

/// Position facts for the `j`-th element of pixel `k` in a `stride`-wide
/// interleaved layout.
proof fn lemma_interleave(i: int, k: int, stride: int)
    requires
        stride > 0,
        stride * k <= i < stride * k + stride,
    ensures
        i / stride == k,
        i % stride == i - stride * k,
{
    assert(i / stride == k && i % stride == i - stride * k) by (nonlinear_arith)
        requires
            stride > 0,
            stride * k <= i < stride * k + stride,
    ;
}

/// Channel `c` (0 = R, 1 = G, 2 = B, 3 = A) of an `R10G10B10A2` word:
/// R in bits 0..=9, G in 10..=19, B in 20..=29, A in 30..=31.
pub open spec fn r10g10b10a2_channel(w: u32, c: int) -> u16 {
    if c == 0 {
        (w & 0x3ff) as u16
    } else if c == 1 {
        ((w >> 10u32) & 0x3ff) as u16
    } else if c == 2 {
        ((w >> 20u32) & 0x3ff) as u16
    } else {
        ((w >> 30u32) & 0x3) as u16
    }
}

/// Channel `c` (0 = R, 1 = G, 2 = B, 3 = A) of an `A2R10G10B10` word:
/// B in bits 0..=9, G in 10..=19, R in 20..=29, A in 30..=31.
pub open spec fn a2r10g10b10_channel(w: u32, c: int) -> u16 {
    if c == 0 {
        ((w >> 20u32) & 0x3ff) as u16
    } else if c == 1 {
        ((w >> 10u32) & 0x3ff) as u16
    } else if c == 2 {
        (w & 0x3ff) as u16
    } else {
        ((w >> 30u32) & 0x3) as u16
    }
}

/// The RGBA samples of `px` packed 32-bit pixels, channel `c` of pixel `p`
/// at index `4p + c`, with `chan` extracting a channel from a word.
pub open spec fn packed_rgba(data: Seq<u8>, px: nat, bgr: bool) -> Seq<u16> {
    Seq::new(
        4 * px,
        |i: int|
            if bgr {
                a2r10g10b10_channel(le_u32(data, 4 * (i / 4)), i % 4)
            } else {
                r10g10b10a2_channel(le_u32(data, 4 * (i / 4)), i % 4)
            },
    )
}

/// The decoded samples of a packed 10:10:10:2 surface, or `None` when
/// `data` holds fewer than `w × h` words.
pub open spec fn spec_packed_1010102(w: u32, h: u32, data: Seq<u8>, bgr: bool) -> Option<Seq<u16>> {
    if samples(w, h, 1) * 4 <= data.len() {
        Some(packed_rgba(data, samples(w, h, 1) as nat, bgr))
    } else {
        None
    }
}

/// Pixel `p` of a packed 10:10:10:2 surface is the little-endian word at
/// bytes `4p..4p + 4`, split by the Direct3D channel masks: in
/// `R10G10B10A2` red is `0x3ff`, green `0xffc00`, blue `0x3ff00000` and
/// alpha `0xc0000000`; in `A2R10G10B10` red and blue trade masks (red
/// `0x3ff00000`, blue `0x3ff`). Samples `4p..4p + 4` are its R, G, B, A.
pub proof fn lemma_packed_1010102_masks(w: u32, h: u32, data: Seq<u8>, bgr: bool, p: int)
    requires
        spec_packed_1010102(w, h, data, bgr) is Some,
        0 <= p < samples(w, h, 1),
    ensures
        ({
            let v = spec_packed_1010102(w, h, data, bgr)->0;
            let word = (data[4 * p] + 256 * data[4 * p + 1] + 65536 * data[4 * p + 2] + 16777216 * data[4 * p + 3]) as u32;
            &&& v.len() == 4 * samples(w, h, 1)
            &&& bgr ==> v[4 * p] == ((word & 0x3ff0_0000u32) >> 20u32) as u16
            &&& !bgr ==> v[4 * p] == (word & 0x3ffu32) as u16
            &&& v[4 * p + 1] == ((word & 0x000f_fc00u32) >> 10u32) as u16
            &&& bgr ==> v[4 * p + 2] == (word & 0x3ffu32) as u16
            &&& !bgr ==> v[4 * p + 2] == ((word & 0x3ff0_0000u32) >> 20u32) as u16
            &&& v[4 * p + 3] == ((word & 0xc000_0000u32) >> 30u32) as u16
        }),
{
    crate::bitfacts::lemma_ten_bit_fields();
    let n = samples(w, h, 1) as nat;
    let v = packed_rgba(data, n, bgr);
    let word = le_u32(data, 4 * p);
    assert forall|c: int| 0 <= c < 4 implies #[trigger] v[4 * p + c] == if bgr {
        a2r10g10b10_channel(word, c)
    } else {
        r10g10b10a2_channel(word, c)
    } by {
        lemma_interleave(4 * p + c, p, 4);
    }
    assert(v[4 * p + 0] == v[4 * p]);
}

fn decode_packed_1010102(width: u32, height: u32, data: &[u8], bgr: bool) -> (r: Result<Vec<u16>>)
    ensures
        match spec_packed_1010102(width, height, data@, bgr) {
            Some(v) => r matches Ok(o) && o@ == v,
            None => is_invalid(r),
        },
{
    let len = data.len();
    let (px, need) = match surface_need(width, height, 1, 4) {
        Some(p) => p,
        None => {
            return Err(DdsError::invalid("decode_r10g10b10a2: surface size overflow"));
        },
    };
    if len < need {
        return Err(DdsError::invalid("decode_r10g10b10a2: input shorter than the surface"));
    }
    let mut out: Vec<u16> = Vec::with_capacity(need);
    let mut k: usize = 0;
    while k < px
        invariant
            len == data@.len(),
            need == 4 * px,
            need <= len,
            k <= px,
            out@ == packed_rgba(data@, k as nat, bgr),
        decreases px - k,
    {
        let word = read_u32_le(data, 4 * k);
        let lo10 = (word & 0x3ff) as u16;
        let mid10 = ((word >> 10u32) & 0x3ff) as u16;
        let hi10 = ((word >> 20u32) & 0x3ff) as u16;
        let a2 = ((word >> 30u32) & 0x3) as u16;
        let ghost prev = out@;
        if bgr {
            out.push(hi10);
            out.push(mid10);
            out.push(lo10);
        } else {
            out.push(lo10);
            out.push(mid10);
            out.push(hi10);
        }
        out.push(a2);
        proof {
            let kk = k as int;
            assert forall|i: int| 0 <= i < 4 * kk + 4 implies #[trigger] out@[i] == packed_rgba(
                data@,
                (kk + 1) as nat,
                bgr,
            )[i] by {
                if i >= 4 * kk {
                    lemma_interleave(i, kk, 4);
                } else {
                    assert(out@[i] == prev[i]);
                }
            }
        }
        k += 1;
        assert(out@ =~= packed_rgba(data@, k as nat, bgr));
    }
    Ok(out)
}

/// Decode a tightly-packed `R10G10B10A2_UNORM` surface into its flat,
/// row-major stored integers (R, G, B in `0..=1023`, A in `0..=3`).
pub fn decode_r10g10b10a2_unorm_surface(width: u32, height: u32, data: &[u8]) -> (r: Result<Vec<u16>>)
    ensures
        match spec_packed_1010102(width, height, data@, false) {
            Some(v) => r matches Ok(o) && o@ == v,
            None => is_invalid(r),
        },
{
    decode_packed_1010102(width, height, data, false)
}

/// Decode a tightly-packed `R10G10B10A2_UINT` surface: the same packing as
/// the UNORM layout, returned as the plain integers they are.
pub fn decode_r10g10b10a2_uint_surface(width: u32, height: u32, data: &[u8]) -> (r: Result<Vec<u16>>)
    ensures
        match spec_packed_1010102(width, height, data@, false) {
            Some(v) => r matches Ok(o) && o@ == v,
            None => is_invalid(r),
        },
{
    decode_packed_1010102(width, height, data, false)
}

/// Decode a tightly-packed legacy `A2R10G10B10` surface (blue in the low
/// bits, red in bits 20..=29) into flat, row-major R, G, B, A integers.
pub fn decode_a2r10g10b10_surface(width: u32, height: u32, data: &[u8]) -> (r: Result<Vec<u16>>)
    ensures
        match spec_packed_1010102(width, height, data@, true) {
            Some(v) => r matches Ok(o) && o@ == v,
            None => is_invalid(r),
        },
{
    decode_packed_1010102(width, height, data, true)
}

// ---- A8R3G3B2 ------------------------------------------------------------------

/// Widen a 3-bit field to 8 bits by repeating its high bits into the low bits.
pub open spec fn rep3(v: u8) -> u8 {
    (v << 5u8) | (v << 2u8) | (v >> 1u8)
}

/// Widen a 2-bit field to 8 bits by repeating it four times.
pub open spec fn rep2(v: u8) -> u8 {
    (v << 6u8) | (v << 4u8) | (v << 2u8) | v
}

/// Channel `c` (0 = R, 1 = G, 2 = B, 3 = A) of an `A8R3G3B2` word: blue in
/// bits 0..=1, green in 2..=4, red in 5..=7 (each widened to 8 bits),
/// alpha in the high byte.
pub open spec fn a8r3g3b2_channel(w: u16, c: int) -> u8 {
    if c == 0 {
        rep3(((w >> 5u16) & 0x7) as u8)
    } else if c == 1 {
        rep3(((w >> 2u16) & 0x7) as u8)
    } else if c == 2 {
        rep2((w & 0x3) as u8)
    } else {
        ((w >> 8u16) & 0xff) as u8
    }
}

/// The RGBA8 bytes of `px` `A8R3G3B2` pixels.
pub open spec fn a8r3g3b2_rgba(data: Seq<u8>, px: nat) -> Seq<u8> {
    Seq::new(4 * px, |i: int| a8r3g3b2_channel(le_u16(data, 2 * (i / 4)), i % 4))
}

/// Pixel `p` of an `A8R3G3B2` surface is the little-endian word at bytes
/// `2p..2p + 2`, split by the Direct3D masks: red `0x00e0`, green
/// `0x001c`, blue `0x0003`, alpha `0xff00`. Red and green widen from 3 to
/// 8 bits by repeating their bits (`rrrrrrrr` from `rrr`), blue from 2 to
/// 8 bits likewise.
pub proof fn lemma_a8r3g3b2_pixel(data: Seq<u8>, px: nat, p: int)
    requires
        0 <= p < px,
        2 * px <= data.len(),
    ensures
        ({
            let v = a8r3g3b2_rgba(data, px);
            let word = (data[2 * p] + 256 * data[2 * p + 1]) as u16;
            let r3 = ((word & 0x00e0u16) >> 5u16) as u8;
            let g3 = ((word & 0x001cu16) >> 2u16) as u8;
            let b2 = (word & 0x0003u16) as u8;
            &&& v.len() == 4 * px
            &&& v[4 * p] == (r3 << 5u8) | (r3 << 2u8) | (r3 >> 1u8)
            &&& v[4 * p + 1] == (g3 << 5u8) | (g3 << 2u8) | (g3 >> 1u8)
            &&& v[4 * p + 2] == (b2 << 6u8) | (b2 << 4u8) | (b2 << 2u8) | b2
            &&& v[4 * p + 3] == ((word & 0xff00u16) >> 8u16) as u8
        }),
{
    crate::bitfacts::lemma_r3g3b2_fields();
    let v = a8r3g3b2_rgba(data, px);
    let w = le_u16(data, 2 * p);
    assert forall|c: int| 0 <= c < 4 implies #[trigger] v[4 * p + c] == a8r3g3b2_channel(w, c) by {
        lemma_interleave(4 * p + c, p, 4);
    }
    assert(v[4 * p + 0] == v[4 * p]);
}

/// Decode a tightly-packed legacy `A8R3G3B2` surface into interleaved
/// RGBA8 bytes (row-major). `data` must hold `w × h × 2` bytes.
pub fn decode_a8r3g3b2_surface(width: u32, height: u32, data: &[u8]) -> (r: Result<Vec<u8>>)
    ensures
        samples(width, height, 1) * 2 <= data@.len() && samples(width, height, 1) * 4 <= usize::MAX
            ==> (r matches Ok(o) && o@ == a8r3g3b2_rgba(data@, samples(width, height, 1) as nat)),
        !(samples(width, height, 1) * 2 <= data@.len() && samples(width, height, 1) * 4
            <= usize::MAX) ==> is_invalid(r),
{
    let len = data.len();
    let (px, need) = match surface_need(width, height, 1, 2) {
        Some(p) => p,
        None => {
            return Err(DdsError::invalid("decode_a8r3g3b2: surface size overflow"));
        },
    };
    if len < need {
        return Err(DdsError::invalid("decode_a8r3g3b2: input shorter than the surface"));
    }
    let out_len = match px.checked_mul(4) {
        Some(v) => v,
        None => {
            return Err(DdsError::invalid("decode_a8r3g3b2: sample-count overflow"));
        },
    };
    let mut out: Vec<u8> = Vec::with_capacity(out_len);
    let mut k: usize = 0;
    while k < px
        invariant
            len == data@.len(),
            need == 2 * px,
            need <= len,
            k <= px,
            out@ == a8r3g3b2_rgba(data@, k as nat),
        decreases px - k,
    {
        let word = read_u16_le(data, 2 * k);
        let r3 = ((word >> 5u16) & 0x7) as u8;
        let g3 = ((word >> 2u16) & 0x7) as u8;
        let b2 = (word & 0x3) as u8;
        let a = ((word >> 8u16) & 0xff) as u8;
        let ghost prev = out@;
        out.push((r3 << 5u8) | (r3 << 2u8) | (r3 >> 1u8));
        out.push((g3 << 5u8) | (g3 << 2u8) | (g3 >> 1u8));
        out.push((b2 << 6u8) | (b2 << 4u8) | (b2 << 2u8) | b2);
        out.push(a);
        proof {
            let kk = k as int;
            assert forall|i: int| 0 <= i < 4 * kk + 4 implies #[trigger] out@[i] == a8r3g3b2_rgba(
                data@,
                (kk + 1) as nat,
            )[i] by {
                if i >= 4 * kk {
                    lemma_interleave(i, kk, 4);
                } else {
                    assert(out@[i] == prev[i]);
                }
            }
        }
        k += 1;
        assert(out@ =~= a8r3g3b2_rgba(data@, k as nat));
    }
    Ok(out)
}

// ---- Horizontally sub-sampled 4:2:2 RGB --------------------------------------

/// Element `j` (0..8) of the RGBA8 pixel pair reconstructed from the block
/// at `base`: the pair shares red (`data[base + ro]`) and blue
/// (`data[base + bo]`), and carries its own greens (`g0`, `g1`); alpha is 255.
pub open spec fn pair_elem(data: Seq<u8>, base: int, j: int, ro: int, g0: int, g1: int, bo: int) -> u8 {
    if j == 0 || j == 4 {
        data[base + ro]
    } else if j == 1 {
        data[base + g0]
    } else if j == 5 {
        data[base + g1]
    } else if j == 2 || j == 6 {
        data[base + bo]
    } else {
        0xff
    }
}

/// RGBA8 bytes of `blocks` sub-sampled pixel pairs.
pub open spec fn subsampled_rgba(data: Seq<u8>, blocks: nat, ro: int, g0: int, g1: int, bo: int) -> Seq<u8> {
    Seq::new(8 * blocks, |i: int| pair_elem(data, 4 * (i / 8), i % 8, ro, g0, g1, bo))
}

/// Whether a sub-sampled `w × h` surface can be decoded from `len` bytes:
/// even width, `(w / 2) × h` four-byte blocks present, and an RGBA8 output
/// size that fits in `usize`.
pub open spec fn subsampled_ok(w: u32, h: u32, len: int) -> bool {
    &&& w % 2 == 0
    &&& (w / 2) * h * 4 <= len
    &&& w * h * 4 <= usize::MAX
}

fn decode_packed_subsampled_rgb(
    width: u32,
    height: u32,
    data: &[u8],
    r_off: usize,
    g0_off: usize,
    g1_off: usize,
    b_off: usize,
) -> (r: Result<Vec<u8>>)
    requires
        r_off < 4,
        g0_off < 4,
        g1_off < 4,
        b_off < 4,
    ensures
        subsampled_ok(width, height, data@.len() as int) ==> (r matches Ok(o) && o@ == subsampled_rgba(
            data@,
            ((width / 2) * height) as nat,
            r_off as int,
            g0_off as int,
            g1_off as int,
            b_off as int,
        )),
        !subsampled_ok(width, height, data@.len() as int) ==> is_invalid(r),
{
    let len = data.len();
    if width % 2 != 0 {
        return Err(DdsError::invalid("sub-sampled layout: width must be even"));
    }
    let (blocks, need) = match surface_need(width / 2, height, 1, 4) {
        Some(p) => p,
        None => {
            return Err(DdsError::invalid("sub-sampled layout: surface size overflow"));
        },
    };
    if len < need {
        return Err(DdsError::invalid("sub-sampled layout: input shorter than the surface"));
    }
    let total = match surface_need(width, height, 1, 4) {
        Some((_, t)) => t,
        None => {
            return Err(DdsError::invalid("sub-sampled layout: sample-count overflow"));
        },
    };
    proof {
        assert(width * height == 2 * ((width / 2) * height)) by (nonlinear_arith)
            requires
                width % 2 == 0,
        ;
    }
    let mut out: Vec<u8> = Vec::with_capacity(total);
    let mut k: usize = 0;
    while k < blocks
        invariant
            len == data@.len(),
            need == 4 * blocks,
            need <= len,
            k <= blocks,
            r_off < 4,
            g0_off < 4,
            g1_off < 4,
            b_off < 4,
            out@ == subsampled_rgba(data@, k as nat, r_off as int, g0_off as int, g1_off as int, b_off as int),
        decreases blocks - k,
    {
        let off = 4 * k;
        let r = data[off + r_off];
        let g0 = data[off + g0_off];
        let g1 = data[off + g1_off];
        let b = data[off + b_off];
        let ghost prev = out@;
        out.push(r);
        out.push(g0);
        out.push(b);
        out.push(0xff);
        out.push(r);
        out.push(g1);
        out.push(b);
        out.push(0xff);
        proof {
            let kk = k as int;
            assert forall|i: int| 0 <= i < 8 * kk + 8 implies #[trigger] out@[i] == subsampled_rgba(
                data@,
                (kk + 1) as nat,
                r_off as int,
                g0_off as int,
                g1_off as int,
                b_off as int,
            )[i] by {
                if i >= 8 * kk {
                    lemma_interleave(i, kk, 8);
                } else {
                    assert(out@[i] == prev[i]);
                }
            }
        }
        k += 1;
        assert(out@ =~= subsampled_rgba(data@, k as nat, r_off as int, g0_off as int, g1_off as int, b_off as int));
    }
    Ok(out)
}

/// Block `k` of a sub-sampled surface is the four bytes at `4k`, making
/// pixels `2k` and `2k + 1`. In `R8G8_B8G8` the bytes are `[R, G0, B, G1]`,
/// in `G8R8_G8B8` they are `[G0, R, G1, B]`; both pixels take the shared
/// red and blue, the left one green `G0`, the right one `G1`, alpha 255.
pub proof fn lemma_subsampled_pairs(data: Seq<u8>, blocks: nat, k: int)
    requires
        0 <= k < blocks,
    ensures
        ({
            let v = subsampled_rgba(data, blocks, 0, 1, 3, 2);
            let b = 4 * k;
            &&& v.len() == 8 * blocks
            &&& v[8 * k] == data[b] && v[8 * k + 1] == data[b + 1] && v[8 * k + 2] == data[b + 2] && v[8 * k + 3] == 255
            &&& v[8 * k + 4] == data[b] && v[8 * k + 5] == data[b + 3] && v[8 * k + 6] == data[b + 2] && v[8 * k + 7] == 255
        }),
        ({
            let v = subsampled_rgba(data, blocks, 1, 0, 2, 3);
            let b = 4 * k;
            &&& v.len() == 8 * blocks
            &&& v[8 * k] == data[b + 1] && v[8 * k + 1] == data[b] && v[8 * k + 2] == data[b + 3] && v[8 * k + 3] == 255
            &&& v[8 * k + 4] == data[b + 1] && v[8 * k + 5] == data[b + 2] && v[8 * k + 6] == data[b + 3] && v[8 * k + 7]
                == 255
        }),
{
    assert forall|j: int| 0 <= j < 8 implies (8 * k + j) / 8 == k && #[trigger] ((8 * k + j) % 8) == j by {
        lemma_interleave(8 * k + j, k, 8);
    }
    assert((8 * k + 0) / 8 == k && (8 * k + 0) % 8 == 0);
    assert((8 * k + 1) / 8 == k && (8 * k + 1) % 8 == 1);
    assert((8 * k + 2) / 8 == k && (8 * k + 2) % 8 == 2);
    assert((8 * k + 3) / 8 == k && (8 * k + 3) % 8 == 3);
    assert((8 * k + 4) / 8 == k && (8 * k + 4) % 8 == 4);
    assert((8 * k + 5) / 8 == k && (8 * k + 5) % 8 == 5);
    assert((8 * k + 6) / 8 == k && (8 * k + 6) % 8 == 6);
    assert((8 * k + 7) / 8 == k && (8 * k + 7) % 8 == 7);
}

/// Decode a `R8G8_B8G8_UNORM` surface: each 4-byte block `[R, G0, B, G1]`
/// gives the pixel pair `(R, G0, B, 255)`, `(R, G1, B, 255)`. The width
/// must be even.
pub fn decode_r8g8_b8g8_unorm_surface(width: u32, height: u32, data: &[u8]) -> (r: Result<Vec<u8>>)
    ensures
        subsampled_ok(width, height, data@.len() as int) ==> (r matches Ok(o) && o@ == subsampled_rgba(
            data@,
            ((width / 2) * height) as nat,
            0,
            1,
            3,
            2,
        )),
        !subsampled_ok(width, height, data@.len() as int) ==> is_invalid(r),
{
    decode_packed_subsampled_rgb(width, height, data, 0, 1, 3, 2)
}

/// Decode a `G8R8_G8B8_UNORM` surface: each 4-byte block `[G0, R, G1, B]`
/// gives the pixel pair `(R, G0, B, 255)`, `(R, G1, B, 255)`. The width
/// must be even.
pub fn decode_g8r8_g8b8_unorm_surface(width: u32, height: u32, data: &[u8]) -> (r: Result<Vec<u8>>)
    ensures
        subsampled_ok(width, height, data@.len() as int) ==> (r matches Ok(o) && o@ == subsampled_rgba(
            data@,
            ((width / 2) * height) as nat,
            1,
            0,
            2,
            3,
        )),
        !subsampled_ok(width, height, data@.len() as int) ==> is_invalid(r),
{
    decode_packed_subsampled_rgb(width, height, data, 1, 0, 2, 3)
}

} // verus!
