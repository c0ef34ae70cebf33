use oxideav_dds::error::DdsError;
use oxideav_dds::hdr::{
    decode_g8r8_g8b8_unorm_surface, decode_r10g10b10a2_uint_surface,
    decode_r10g10b10a2_unorm_surface, decode_r8g8_b8g8_unorm_surface, decode_rgba16_snorm_surface,
    decode_rgba16_unorm_surface, decode_sint16_surface, decode_sint32_surface, decode_sint8_surface,
    decode_uint16_surface, decode_uint32_surface, decode_uint8_surface,
};
use oxideav_dds::image::DdsPixelFormat;

#[test]
fn rgba16_unorm_raw_channels() {
    let mut data = Vec::new();
    for v in [0u16, 0x8000, 0xffff, 0x0001] {
        data.extend_from_slice(&v.to_le_bytes());
    }
    let out = decode_rgba16_unorm_surface(1, 1, &data).unwrap();
    assert_eq!(out, vec![0, 0x8000, 0xffff, 0x0001]);
}

#[test]
fn rgba16_snorm_sign_interpretation() {
    let mut data = Vec::new();
    // 0x7fff = 32767, 0x8001 = -32767, 0x0000 = 0, 0xffff = -1.
    for v in [0x7fffu16, 0x8001, 0x0000, 0xffff] {
        data.extend_from_slice(&v.to_le_bytes());
    }
    let out = decode_rgba16_snorm_surface(1, 1, &data).unwrap();
    assert_eq!(out, vec![32767, -32767, 0, -1]);
}

/// Build the little-endian 32-bit word for an `R10G10B10A2_UNORM`
/// pixel from raw per-channel integers (R/G/B in 0..=1023, A in 0..=3).
fn pack_r10g10b10a2(r: u32, g: u32, b: u32, a: u32) -> [u8; 4] {
    let word = (r & 0x3ff) | ((g & 0x3ff) << 10) | ((b & 0x3ff) << 20) | ((a & 0x3) << 30);
    word.to_le_bytes()
}

#[test]
fn r10g10b10a2_channel_order_and_widths() {
    // R=1023 (max), G=512, B=1, A=2 — confirms each channel is read
    // from its own bit field with the right width and the right
    // least-significant-bits-first ordering.
    let data = pack_r10g10b10a2(1023, 512, 1, 2);
    let out = decode_r10g10b10a2_unorm_surface(1, 1, &data).unwrap();
    assert_eq!(out, vec![1023, 512, 1, 2]);
}

#[test]
fn r10g10b10a2_zero_word_is_zero() {
    let data = pack_r10g10b10a2(0, 0, 0, 0);
    let out = decode_r10g10b10a2_unorm_surface(1, 1, &data).unwrap();
    assert_eq!(out, vec![0, 0, 0, 0]);
}

#[test]
fn r10g10b10a2_all_ones_word() {
    // 0xffffffff → R=G=B=1023, A=3 (every bit set).
    let data = 0xffff_ffffu32.to_le_bytes();
    let out = decode_r10g10b10a2_unorm_surface(1, 1, &data).unwrap();
    assert_eq!(out, vec![1023, 1023, 1023, 3]);
}

#[test]
fn r10g10b10a2_two_pixels_row_major() {
    let mut data = Vec::new();
    data.extend_from_slice(&pack_r10g10b10a2(1023, 0, 0, 0)); // R max
    data.extend_from_slice(&pack_r10g10b10a2(0, 0, 0, 3)); // A max
    let out = decode_r10g10b10a2_unorm_surface(2, 1, &data).unwrap();
    assert_eq!(out, vec![1023, 0, 0, 0, 0, 0, 0, 3]);
}

#[test]
fn r10g10b10a2_truncated_input_is_invalid() {
    let data = [0u8; 3];
    let err = decode_r10g10b10a2_unorm_surface(1, 1, &data).unwrap_err();
    assert!(matches!(err, DdsError::InvalidData(_)));
}

#[test]
fn r10g10b10a2_uint_channel_order_and_widths() {
    // R=1023 (max), G=512, B=1, A=2 — same packing as the UNORM
    // variant; confirms each channel reads from its own bit field
    // with the least-significant-bits-first ordering.
    let data = pack_r10g10b10a2(1023, 512, 1, 2);
    let out = decode_r10g10b10a2_uint_surface(1, 1, &data).unwrap();
    assert_eq!(out, vec![1023, 512, 1, 2]);
}

#[test]
fn r10g10b10a2_uint_zero_word_is_zero() {
    let data = pack_r10g10b10a2(0, 0, 0, 0);
    let out = decode_r10g10b10a2_uint_surface(1, 1, &data).unwrap();
    assert_eq!(out, vec![0, 0, 0, 0]);
}

#[test]
fn r10g10b10a2_uint_all_ones_word() {
    // 0xffffffff → R=G=B=1023, A=3 (every bit set).
    let data = 0xffff_ffffu32.to_le_bytes();
    let out = decode_r10g10b10a2_uint_surface(1, 1, &data).unwrap();
    assert_eq!(out, vec![1023, 1023, 1023, 3]);
}

#[test]
fn r10g10b10a2_uint_matches_unorm_bit_extraction() {
    // The two layouts share the exact same packing, so the raw
    // extracted integers are identical for any word.
    let data = pack_r10g10b10a2(700, 300, 42, 1);
    let uint = decode_r10g10b10a2_uint_surface(1, 1, &data).unwrap();
    let unorm = decode_r10g10b10a2_unorm_surface(1, 1, &data).unwrap();
    assert_eq!(uint, unorm);
}

#[test]
fn r10g10b10a2_uint_two_pixels_row_major() {
    let mut data = Vec::new();
    data.extend_from_slice(&pack_r10g10b10a2(1023, 0, 0, 0)); // R max
    data.extend_from_slice(&pack_r10g10b10a2(0, 0, 0, 3)); // A max
    let out = decode_r10g10b10a2_uint_surface(2, 1, &data).unwrap();
    assert_eq!(out, vec![1023, 0, 0, 0, 0, 0, 0, 3]);
}

#[test]
fn r10g10b10a2_uint_truncated_input_is_invalid() {
    let data = [0u8; 3];
    let err = decode_r10g10b10a2_uint_surface(1, 1, &data).unwrap_err();
    assert!(matches!(err, DdsError::InvalidData(_)));
}

#[test]
fn r8g8_b8g8_reconstructs_pixel_pair() {
    // One 32-bit block, byte order [R, G0, B, G1] = [10, 20, 30, 40].
    // Pixel 0 = (R=10, G=20, B=30), pixel 1 = (R=10, G=40, B=30),
    // alpha forced to 0xff. 2x1 surface.
    let data = [10u8, 20, 30, 40];
    let out = decode_r8g8_b8g8_unorm_surface(2, 1, &data).unwrap();
    assert_eq!(out, vec![10, 20, 30, 0xff, 10, 40, 30, 0xff]);
}

#[test]
fn g8r8_g8b8_reconstructs_pixel_pair() {
    // One 32-bit block, byte order [G0, R, G1, B] = [20, 10, 40, 30].
    // Same reconstruction as the R8G8_B8G8 case: pixel 0 = (10,20,30),
    // pixel 1 = (10,40,30).
    let data = [20u8, 10, 40, 30];
    let out = decode_g8r8_g8b8_unorm_surface(2, 1, &data).unwrap();
    assert_eq!(out, vec![10, 20, 30, 0xff, 10, 40, 30, 0xff]);
}

#[test]
fn subsampled_two_rows_are_row_major() {
    // 2x2 R8G8_B8G8: row 0 block [1,2,3,4], row 1 block [5,6,7,8].
    let data = [1u8, 2, 3, 4, 5, 6, 7, 8];
    let out = decode_r8g8_b8g8_unorm_surface(2, 2, &data).unwrap();
    assert_eq!(
        out,
        vec![
            1, 2, 3, 0xff, 1, 4, 3, 0xff, // row 0
            5, 6, 7, 0xff, 5, 8, 7, 0xff, // row 1
        ]
    );
}

#[test]
fn subsampled_odd_width_rejected() {
    let data = [0u8; 4];
    let err = decode_r8g8_b8g8_unorm_surface(1, 1, &data).unwrap_err();
    assert!(matches!(err, DdsError::InvalidData(_)));
    let err = decode_g8r8_g8b8_unorm_surface(3, 1, &data).unwrap_err();
    assert!(matches!(err, DdsError::InvalidData(_)));
}

#[test]
fn subsampled_truncated_input_is_invalid() {
    // 4x1 needs two 4-byte blocks (8 bytes); give only 5.
    let data = [0u8; 5];
    let err = decode_r8g8_b8g8_unorm_surface(4, 1, &data).unwrap_err();
    assert!(matches!(err, DdsError::InvalidData(_)));
}

// --- 16-bit integer surfaces ----------------------------------------

#[test]
fn r16_uint_single_channel_row_major() {
    // 2x1 R16_UINT: little-endian words 0x0102, 0xfffe.
    let data = [0x02u8, 0x01, 0xfe, 0xff];
    let out = decode_uint16_surface(DdsPixelFormat::R16Uint, 2, 1, &data).unwrap();
    assert_eq!(out, vec![0x0102, 0xfffe]);
}

#[test]
fn r16g16_uint_two_channels() {
    // One pixel, R=0x1234, G=0x5678.
    let data = [0x34u8, 0x12, 0x78, 0x56];
    let out = decode_uint16_surface(DdsPixelFormat::R16G16Uint, 1, 1, &data).unwrap();
    assert_eq!(out, vec![0x1234, 0x5678]);
}

#[test]
fn r16g16b16a16_uint_four_channels_row_major() {
    // Two pixels: (1,2,3,4) then (5,6,7,8) as raw u16.
    let mut data = Vec::new();
    for v in [1u16, 2, 3, 4, 5, 6, 7, 8] {
        data.extend_from_slice(&v.to_le_bytes());
    }
    let out = decode_uint16_surface(DdsPixelFormat::R16G16B16A16Uint, 2, 1, &data).unwrap();
    assert_eq!(out, vec![1, 2, 3, 4, 5, 6, 7, 8]);
}

#[test]
fn r16_sint_sign_interpretation() {
    // 0xffff -> -1, 0x8000 -> i16::MIN, 0x7fff -> i16::MAX.
    let data = [0xffu8, 0xff, 0x00, 0x80, 0xff, 0x7f];
    let out = decode_sint16_surface(DdsPixelFormat::R16Sint, 3, 1, &data).unwrap();
    assert_eq!(out, vec![-1, i16::MIN, i16::MAX]);
}

#[test]
fn r16g16b16a16_sint_four_channels() {
    // One pixel: R=-2, G=2, B=-32768, A=32767.
    let mut data = Vec::new();
    for v in [-2i16, 2, i16::MIN, i16::MAX] {
        data.extend_from_slice(&v.to_le_bytes());
    }
    let out = decode_sint16_surface(DdsPixelFormat::R16G16B16A16Sint, 1, 1, &data).unwrap();
    assert_eq!(out, vec![-2, 2, i16::MIN, i16::MAX]);
}

#[test]
fn uint16_rejects_non_uint_format() {
    let data = [0u8; 8];
    let err = decode_uint16_surface(DdsPixelFormat::R16Sint, 1, 1, &data).unwrap_err();
    assert!(matches!(err, DdsError::Unsupported(_)));
    // A float format is likewise rejected.
    let err = decode_uint16_surface(DdsPixelFormat::R16Float, 1, 1, &data).unwrap_err();
    assert!(matches!(err, DdsError::Unsupported(_)));
}

#[test]
fn sint16_rejects_non_sint_format() {
    let data = [0u8; 8];
    let err = decode_sint16_surface(DdsPixelFormat::R16Uint, 1, 1, &data).unwrap_err();
    assert!(matches!(err, DdsError::Unsupported(_)));
}

#[test]
fn uint16_truncated_input_is_invalid() {
    // 2x2 R16G16B16A16_UINT needs 4 px * 4 ch * 2 = 32 bytes; give 31.
    let data = [0u8; 31];
    let err = decode_uint16_surface(DdsPixelFormat::R16G16B16A16Uint, 2, 2, &data).unwrap_err();
    assert!(matches!(err, DdsError::InvalidData(_)));
}

// --- 8-bit integer surfaces -----------------------------------------

#[test]
fn r8_uint_single_channel_row_major() {
    // 3x1 R8_UINT: bytes 1, 200, 255.
    let data = [1u8, 200, 255];
    let out = decode_uint8_surface(DdsPixelFormat::R8Uint, 3, 1, &data).unwrap();
    assert_eq!(out, vec![1, 200, 255]);
}

#[test]
fn r8g8_uint_two_channels() {
    // One pixel, R=0x12, G=0x34.
    let data = [0x12u8, 0x34];
    let out = decode_uint8_surface(DdsPixelFormat::R8G8Uint, 1, 1, &data).unwrap();
    assert_eq!(out, vec![0x12, 0x34]);
}

#[test]
fn r8g8b8a8_uint_four_channels_row_major() {
    // Two pixels: (1,2,3,4) then (5,6,7,8).
    let data = [1u8, 2, 3, 4, 5, 6, 7, 8];
    let out = decode_uint8_surface(DdsPixelFormat::R8G8B8A8Uint, 2, 1, &data).unwrap();
    assert_eq!(out, vec![1, 2, 3, 4, 5, 6, 7, 8]);
}

#[test]
fn r8_sint_sign_interpretation() {
    // 0xff -> -1, 0x80 -> i8::MIN, 0x7f -> i8::MAX.
    let data = [0xffu8, 0x80, 0x7f];
    let out = decode_sint8_surface(DdsPixelFormat::R8Sint, 3, 1, &data).unwrap();
    assert_eq!(out, vec![-1, i8::MIN, i8::MAX]);
}

#[test]
fn r8g8b8a8_sint_four_channels() {
    // One pixel: R=-2, G=2, B=-128, A=127.
    let data = [(-2i8) as u8, 2, (i8::MIN) as u8, (i8::MAX) as u8];
    let out = decode_sint8_surface(DdsPixelFormat::R8G8B8A8Sint, 1, 1, &data).unwrap();
    assert_eq!(out, vec![-2, 2, i8::MIN, i8::MAX]);
}

#[test]
fn uint8_rejects_non_uint_format() {
    let data = [0u8; 8];
    let err = decode_uint8_surface(DdsPixelFormat::R8Sint, 1, 1, &data).unwrap_err();
    assert!(matches!(err, DdsError::Unsupported(_)));
    let err = decode_uint8_surface(DdsPixelFormat::R16Uint, 1, 1, &data).unwrap_err();
    assert!(matches!(err, DdsError::Unsupported(_)));
}

#[test]
fn sint8_rejects_non_sint_format() {
    let data = [0u8; 8];
    let err = decode_sint8_surface(DdsPixelFormat::R8Uint, 1, 1, &data).unwrap_err();
    assert!(matches!(err, DdsError::Unsupported(_)));
}

#[test]
fn uint8_truncated_input_is_invalid() {
    // 2x2 R8G8B8A8_UINT needs 4 px * 4 ch = 16 bytes; give 15.
    let data = [0u8; 15];
    let err = decode_uint8_surface(DdsPixelFormat::R8G8B8A8Uint, 2, 2, &data).unwrap_err();
    assert!(matches!(err, DdsError::InvalidData(_)));
}

// --- 32-bit integer surfaces ----------------------------------------

#[test]
fn r32_uint_single_channel_row_major() {
    // 2x1 R32_UINT: little-endian words 0x0102_0304, 0xffff_fffe.
    let mut data = Vec::new();
    for v in [0x0102_0304u32, 0xffff_fffe] {
        data.extend_from_slice(&v.to_le_bytes());
    }
    let out = decode_uint32_surface(DdsPixelFormat::R32Uint, 2, 1, &data).unwrap();
    assert_eq!(out, vec![0x0102_0304, 0xffff_fffe]);
}

#[test]
fn r32g32_uint_two_channels() {
    // One pixel, R=0x1234_5678, G=0x9abc_def0.
    let mut data = Vec::new();
    for v in [0x1234_5678u32, 0x9abc_def0] {
        data.extend_from_slice(&v.to_le_bytes());
    }
    let out = decode_uint32_surface(DdsPixelFormat::R32G32Uint, 1, 1, &data).unwrap();
    assert_eq!(out, vec![0x1234_5678, 0x9abc_def0]);
}

#[test]
fn r32g32b32_uint_three_channels() {
    // One pixel, R=1, G=2, B=3 — confirms the 96-bit (12-byte) stride
    // of the three-component family.
    let mut data = Vec::new();
    for v in [1u32, 2, 3] {
        data.extend_from_slice(&v.to_le_bytes());
    }
    let out = decode_uint32_surface(DdsPixelFormat::R32G32B32Uint, 1, 1, &data).unwrap();
    assert_eq!(out, vec![1, 2, 3]);
}

#[test]
fn r32g32b32a32_uint_four_channels_row_major() {
    // Two pixels: (1,2,3,4) then (5,6,7,8) as raw u32.
    let mut data = Vec::new();
    for v in [1u32, 2, 3, 4, 5, 6, 7, 8] {
        data.extend_from_slice(&v.to_le_bytes());
    }
    let out = decode_uint32_surface(DdsPixelFormat::R32G32B32A32Uint, 2, 1, &data).unwrap();
    assert_eq!(out, vec![1, 2, 3, 4, 5, 6, 7, 8]);
}

#[test]
fn r32_sint_sign_interpretation() {
    // 0xffff_ffff -> -1, 0x8000_0000 -> i32::MIN, 0x7fff_ffff -> i32::MAX.
    let mut data = Vec::new();
    for v in [0xffff_ffffu32, 0x8000_0000, 0x7fff_ffff] {
        data.extend_from_slice(&v.to_le_bytes());
    }
    let out = decode_sint32_surface(DdsPixelFormat::R32Sint, 3, 1, &data).unwrap();
    assert_eq!(out, vec![-1, i32::MIN, i32::MAX]);
}

#[test]
fn r32g32b32a32_sint_four_channels() {
    // One pixel: R=-2, G=2, B=i32::MIN, A=i32::MAX.
    let mut data = Vec::new();
    for v in [-2i32, 2, i32::MIN, i32::MAX] {
        data.extend_from_slice(&v.to_le_bytes());
    }
    let out = decode_sint32_surface(DdsPixelFormat::R32G32B32A32Sint, 1, 1, &data).unwrap();
    assert_eq!(out, vec![-2, 2, i32::MIN, i32::MAX]);
}

#[test]
fn r32g32b32_sint_three_channels() {
    // One pixel: R=-1, G=0, B=i32::MAX over the 12-byte stride.
    let mut data = Vec::new();
    for v in [-1i32, 0, i32::MAX] {
        data.extend_from_slice(&v.to_le_bytes());
    }
    let out = decode_sint32_surface(DdsPixelFormat::R32G32B32Sint, 1, 1, &data).unwrap();
    assert_eq!(out, vec![-1, 0, i32::MAX]);
}

#[test]
fn uint32_rejects_non_uint_format() {
    let data = [0u8; 16];
    let err = decode_uint32_surface(DdsPixelFormat::R32Sint, 1, 1, &data).unwrap_err();
    assert!(matches!(err, DdsError::Unsupported(_)));
    let err = decode_uint32_surface(DdsPixelFormat::R32Float, 1, 1, &data).unwrap_err();
    assert!(matches!(err, DdsError::Unsupported(_)));
}

#[test]
fn sint32_rejects_non_sint_format() {
    let data = [0u8; 16];
    let err = decode_sint32_surface(DdsPixelFormat::R32Uint, 1, 1, &data).unwrap_err();
    assert!(matches!(err, DdsError::Unsupported(_)));
}

#[test]
fn uint32_truncated_input_is_invalid() {
    // 1x1 R32G32B32A32_UINT needs 4 ch * 4 = 16 bytes; give 15.
    let data = [0u8; 15];
    let err = decode_uint32_surface(DdsPixelFormat::R32G32B32A32Uint, 1, 1, &data).unwrap_err();
    assert!(matches!(err, DdsError::InvalidData(_)));
}
