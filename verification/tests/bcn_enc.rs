use oxideav_dds::bcn::{decode_bc1, decode_bc2, decode_bc3, decode_bc4_unorm, decode_bc5_unorm};
use oxideav_dds::bcn_enc::{encode_bc1, encode_bc2, encode_bc3, encode_bc4_unorm, encode_bc5_unorm};


/// Solid white block → encoder picks both endpoints = white →
/// every index = 0 → roundtrip is bit-exact.
#[test]
fn bc1_encode_solid_white_roundtrip() {
    let input = vec![0xffu8; 4 * 4 * 4];
    let mut bc = vec![0u8; 8];
    encode_bc1(&input, 4, 4, false, &mut bc).unwrap();
    let mut decoded = vec![0u8; 4 * 4 * 4];
    decode_bc1(&bc, 4, 4, &mut decoded).unwrap();
    for chunk in decoded.chunks_exact(4) {
        assert_eq!(chunk, &[255, 255, 255, 255]);
    }
}

/// Solid black block → both endpoints = black → roundtrip bit-exact.
#[test]
fn bc1_encode_solid_black_roundtrip() {
    let mut input = vec![0u8; 4 * 4 * 4];
    for chunk in input.chunks_exact_mut(4) {
        chunk[3] = 0xff; // alpha
    }
    let mut bc = vec![0u8; 8];
    encode_bc1(&input, 4, 4, false, &mut bc).unwrap();
    let mut decoded = vec![0u8; 4 * 4 * 4];
    decode_bc1(&bc, 4, 4, &mut decoded).unwrap();
    for chunk in decoded.chunks_exact(4) {
        assert_eq!(chunk, &[0, 0, 0, 255]);
    }
}

/// Two-colour block (left half red, right half blue) → endpoints =
/// (red, blue), every pixel maps to one of the two extremes.
#[test]
fn bc1_encode_two_colour_roundtrip() {
    let mut input = vec![0u8; 4 * 4 * 4];
    for y in 0..4 {
        for x in 0..4 {
            let off = (y * 4 + x) * 4;
            if x < 2 {
                input[off] = 0xff;
                input[off + 1] = 0;
                input[off + 2] = 0;
                input[off + 3] = 0xff;
            } else {
                input[off] = 0;
                input[off + 1] = 0;
                input[off + 2] = 0xff;
                input[off + 3] = 0xff;
            }
        }
    }
    let mut bc = vec![0u8; 8];
    encode_bc1(&input, 4, 4, false, &mut bc).unwrap();
    let mut decoded = vec![0u8; 4 * 4 * 4];
    decode_bc1(&bc, 4, 4, &mut decoded).unwrap();
    for y in 0..4 {
        for x in 0..4 {
            let off = (y * 4 + x) * 4;
            if x < 2 {
                assert_eq!(
                    &decoded[off..off + 4],
                    &[0xff, 0, 0, 0xff],
                    "pixel ({x},{y})"
                );
            } else {
                assert_eq!(
                    &decoded[off..off + 4],
                    &[0, 0, 0xff, 0xff],
                    "pixel ({x},{y})"
                );
            }
        }
    }
}

/// Alpha pass-through: every transparent pixel decodes to the
/// transparent index when 1-bit alpha is enabled.
#[test]
fn bc1_encode_punchthrough_alpha_block() {
    let mut input = vec![0u8; 4 * 4 * 4];
    for y in 0..4 {
        for x in 0..4 {
            let off = (y * 4 + x) * 4;
            input[off] = 0xff;
            input[off + 1] = 0xff;
            input[off + 2] = 0xff;
            input[off + 3] = if x < 2 { 0 } else { 0xff };
        }
    }
    let mut bc = vec![0u8; 8];
    encode_bc1(&input, 4, 4, /*alpha*/ true, &mut bc).unwrap();
    let mut decoded = vec![0u8; 4 * 4 * 4];
    decode_bc1(&bc, 4, 4, &mut decoded).unwrap();
    for y in 0..4 {
        for x in 0..4 {
            let off = (y * 4 + x) * 4;
            if x < 2 {
                assert_eq!(decoded[off + 3], 0, "pixel ({x},{y}) should be transparent");
            } else {
                assert!(
                    decoded[off + 3] >= 200,
                    "pixel ({x},{y}) should be opaque, got alpha {}",
                    decoded[off + 3]
                );
            }
        }
    }
}

#[test]
fn bc1_encode_handles_5x5_surface() {
    let input = vec![0xffu8; 5 * 5 * 4];
    let mut bc = vec![0u8; 4 * 8]; // 2x2 = 4 blocks
    encode_bc1(&input, 5, 5, false, &mut bc).unwrap();
    let mut decoded = vec![0u8; 5 * 5 * 4];
    decode_bc1(&bc, 5, 5, &mut decoded).unwrap();
    for chunk in decoded.chunks_exact(4) {
        assert_eq!(chunk, &[255, 255, 255, 255]);
    }
}

// ---- BC2 / BC3 / BC4 / BC5 encoder roundtrip tests -----------------

/// BC4 encoder: solid r = 200 → roundtrip bit-exact (both endpoints
/// = 200, every index = 0).
#[test]
fn bc4_encode_solid_roundtrip() {
    let input = vec![200u8; 4 * 4];
    let mut bc = vec![0u8; 8];
    encode_bc4_unorm(&input, 4, 4, &mut bc).unwrap();
    let mut decoded = vec![0u8; 4 * 4];
    decode_bc4_unorm(&bc, 4, 4, &mut decoded).unwrap();
    for &v in decoded.iter() {
        assert_eq!(v, 200);
    }
}

/// BC4 encoder: gradient block — endpoints = (max, min); every pixel
/// quantises to one of 8 palette entries and decodes within ±18 of
/// the source (8-value bin width = (255 - 0)/7 ≈ 36, so half-bin is 18).
#[test]
fn bc4_encode_gradient_psnr() {
    let mut input = vec![0u8; 4 * 4];
    for (i, b) in input.iter_mut().enumerate() {
        *b = (i as u8) * 16; // 0, 16, 32, ..., 240
    }
    let mut bc = vec![0u8; 8];
    encode_bc4_unorm(&input, 4, 4, &mut bc).unwrap();
    let mut decoded = vec![0u8; 4 * 4];
    decode_bc4_unorm(&bc, 4, 4, &mut decoded).unwrap();
    let mut sse: u64 = 0;
    for (s, d) in input.iter().zip(decoded.iter()) {
        let diff = *s as i32 - *d as i32;
        sse += (diff * diff) as u64;
    }
    // sqrt(sse / 16) — should be <= ~18 (half a bin).
    let mse = sse as f64 / 16.0;
    let rmse = mse.sqrt();
    assert!(rmse < 20.0, "BC4 gradient rmse = {} (want < 20)", rmse);
}

/// BC2 encoder: opaque white block roundtrips bit-exact.
#[test]
fn bc2_encode_solid_white_roundtrip() {
    let input = vec![0xffu8; 4 * 4 * 4];
    let mut bc = vec![0u8; 16];
    encode_bc2(&input, 4, 4, &mut bc).unwrap();
    let mut decoded = vec![0u8; 4 * 4 * 4];
    decode_bc2(&bc, 4, 4, &mut decoded).unwrap();
    for chunk in decoded.chunks_exact(4) {
        assert_eq!(chunk, &[255, 255, 255, 255]);
    }
}

/// BC2 encoder preserves alpha quantised to top-nibble (loss = 4 LSBs
/// → output = input & 0xf0 | (input >> 4)).
#[test]
fn bc2_encode_alpha_quantises_to_top_nibble() {
    let mut input = vec![0xffu8; 4 * 4 * 4];
    // Set alpha values to 0x10..0x1f (low nibble varies, top = 1).
    for (i, chunk) in input.chunks_exact_mut(4).enumerate() {
        chunk[3] = 0x10 + i as u8;
    }
    let mut bc = vec![0u8; 16];
    encode_bc2(&input, 4, 4, &mut bc).unwrap();
    let mut decoded = vec![0u8; 4 * 4 * 4];
    decode_bc2(&bc, 4, 4, &mut decoded).unwrap();
    // Alpha: top-nibble 1 → expand_to_8 = 0x11. Low nibble dropped.
    for chunk in decoded.chunks_exact(4) {
        assert_eq!(chunk[3], 0x11, "BC2 alpha quantised to top nibble");
    }
}

/// BC3 encoder: solid red opaque block roundtrips bit-exact.
#[test]
fn bc3_encode_solid_red_roundtrip() {
    let mut input = vec![0u8; 4 * 4 * 4];
    for chunk in input.chunks_exact_mut(4) {
        chunk[0] = 0xff;
        chunk[3] = 0xff;
    }
    let mut bc = vec![0u8; 16];
    encode_bc3(&input, 4, 4, &mut bc).unwrap();
    let mut decoded = vec![0u8; 4 * 4 * 4];
    decode_bc3(&bc, 4, 4, &mut decoded).unwrap();
    for chunk in decoded.chunks_exact(4) {
        assert_eq!(chunk, &[0xff, 0, 0, 0xff]);
    }
}

/// BC3 encoder: gradient alpha 0..240 → BC4-encoded alpha decodes
/// within RMSE 20.
#[test]
fn bc3_encode_alpha_gradient_psnr() {
    let mut input = vec![0u8; 4 * 4 * 4];
    for (i, chunk) in input.chunks_exact_mut(4).enumerate() {
        chunk[0] = 128;
        chunk[1] = 128;
        chunk[2] = 128;
        chunk[3] = (i as u8) * 16;
    }
    let mut bc = vec![0u8; 16];
    encode_bc3(&input, 4, 4, &mut bc).unwrap();
    let mut decoded = vec![0u8; 4 * 4 * 4];
    decode_bc3(&bc, 4, 4, &mut decoded).unwrap();
    let mut sse_a: u64 = 0;
    for i in 0..16 {
        let s = input[i * 4 + 3] as i32;
        let d = decoded[i * 4 + 3] as i32;
        sse_a += ((s - d) * (s - d)) as u64;
    }
    let rmse = (sse_a as f64 / 16.0).sqrt();
    assert!(rmse < 20.0, "BC3 alpha gradient rmse = {}", rmse);
}

/// BC5 encoder: solid (r=120, g=80) block roundtrips bit-exact.
#[test]
fn bc5_encode_solid_roundtrip() {
    let mut input = vec![0u8; 4 * 4 * 2];
    for pair in input.chunks_exact_mut(2) {
        pair[0] = 120;
        pair[1] = 80;
    }
    let mut bc = vec![0u8; 16];
    encode_bc5_unorm(&input, 4, 4, &mut bc).unwrap();
    let mut decoded = vec![0u8; 4 * 4 * 2];
    decode_bc5_unorm(&bc, 4, 4, &mut decoded).unwrap();
    for pair in decoded.chunks_exact(2) {
        assert_eq!(pair[0], 120);
        assert_eq!(pair[1], 80);
    }
}

/// Natural-image PSNR check on a synthetic gradient. The
/// furthest-point endpoint heuristic in `encode_bc1_block` gives
/// PSNR-RGB > ~30 dB on smoothly-varying photographic-style content.
#[test]
fn bc1_encode_natural_gradient_psnr_gt_25_db() {
    // 16×16 RGBA gradient (no alpha variation).
    let mut input = vec![0u8; 16 * 16 * 4];
    for y in 0..16 {
        for x in 0..16 {
            let off = (y * 16 + x) * 4;
            input[off] = (x * 16) as u8; // R varies horizontally
            input[off + 1] = (y * 16) as u8; // G varies vertically
            input[off + 2] = ((x + y) * 8) as u8; // B varies diagonally
            input[off + 3] = 0xff;
        }
    }
    let mut bc = vec![0u8; 16 * 8];
    encode_bc1(&input, 16, 16, false, &mut bc).unwrap();
    let mut decoded = vec![0u8; 16 * 16 * 4];
    decode_bc1(&bc, 16, 16, &mut decoded).unwrap();
    let mut sse: u64 = 0;
    let mut count: u64 = 0;
    for i in 0..(16 * 16) {
        for ch in 0..3 {
            let s = input[i * 4 + ch] as i32;
            let d = decoded[i * 4 + ch] as i32;
            sse += ((s - d) * (s - d)) as u64;
            count += 1;
        }
    }
    let mse = sse as f64 / count as f64;
    let psnr = 10.0 * (255.0_f64 * 255.0 / mse).log10();
    assert!(
        psnr > 25.0,
        "BC1 16x16 RGB-gradient PSNR = {:.2} dB (want > 25 dB)",
        psnr
    );
}

#[test]
fn zero_width_surface_encodes_one_column_of_blocks() {
    let mut out = vec![0xAAu8; 8 * 2 + 3];
    assert!(encode_bc1(&[], 0, 8, false, &mut out).is_ok());
    assert_eq!(&out[16..], &[0xAA, 0xAA, 0xAA]);
    let mut out16 = vec![0u8; 16];
    assert!(encode_bc2(&[], 5, 0, &mut out16[..]).is_err());
    let mut out32 = vec![0u8; 32];
    assert!(encode_bc3(&[], 5, 0, &mut out32).is_ok());
    let mut out4 = vec![0u8; 8];
    assert!(encode_bc4_unorm(&[], 0, 0, &mut out4).is_ok());
    let mut out5 = vec![0u8; 16];
    assert!(encode_bc5_unorm(&[], 0, 3, &mut out5).is_ok());
}
