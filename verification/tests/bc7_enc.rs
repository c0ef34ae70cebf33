use oxideav_dds::bc7::{decode_bc7, decode_bc7_block, WEIGHT_2, WEIGHT_3, WEIGHT_4};
use oxideav_dds::bc7_enc::{encode_bc7, quantize_7p};
use oxideav_dds::error::DdsError;

/// The least-squares endpoint fit the encoder's two-subset search runs:
/// for each channel, the endpoints that best reproduce the subset's
/// pixels at their current indices, rounded and clamped to a byte (the
/// subset's mean for both when the fit is degenerate).
fn fit(
    pixels: [[u8; 4]; 16],
    pixel_subset: [u8; 16],
    s: u8,
    indices: [u32; 16],
    idx_bits: u32,
) -> ([u8; 4], [u8; 4]) {
    let weights: &[u32] = match idx_bits {
        2 => &WEIGHT_2,
        3 => &WEIGHT_3,
        _ => &WEIGHT_4,
    };
    let mut e0 = [0u8; 4];
    let mut e1 = [0u8; 4];
    for c in 0..4 {
        let mut aa = 0.0f64;
        let mut bb = 0.0f64;
        let mut ab = 0.0f64;
        let mut ap = 0.0f64;
        let mut bp = 0.0f64;
        for i in 0..16 {
            if pixel_subset[i] != s {
                continue;
            }
            let w = weights[indices[i] as usize] as f64 / 64.0;
            let a = 1.0 - w;
            let b = w;
            let p = pixels[i][c] as f64;
            aa += a * a;
            bb += b * b;
            ab += a * b;
            ap += a * p;
            bp += b * p;
        }
        let det = aa * bb - ab * ab;
        if det.abs() < 1e-9 {
            let mut sum = 0.0f64;
            let mut count = 0u32;
            for i in 0..16 {
                if pixel_subset[i] == s {
                    sum += pixels[i][c] as f64;
                    count += 1;
                }
            }
            let m = if count > 0 { sum / count as f64 } else { 0.0 };
            e0[c] = m.round().clamp(0.0, 255.0) as u8;
            e1[c] = m.round().clamp(0.0, 255.0) as u8;
        } else {
            let v0 = (bb * ap - ab * bp) / det;
            let v1 = (aa * bp - ab * ap) / det;
            e0[c] = v0.round().clamp(0.0, 255.0) as u8;
            e1[c] = v1.round().clamp(0.0, 255.0) as u8;
        }
    }
    (e0, e1)
}

/// A fit that keeps no refit: every subset gets black endpoints.
fn no_fit(_: [[u8; 4]; 16], _: [u8; 16], _: u8, _: [u32; 16], _: u32) -> ([u8; 4], [u8; 4]) {
    ([0; 4], [0; 4])
}

/// Mode of a BC7 block: the position of its lowest set bit among the first 8.
fn block_mode(b: &[u8]) -> u32 {
    (b[0] as u32).trailing_zeros()
}


/// Solid white block → both endpoints quantise to white → roundtrip
/// is bit-exact.
#[test]
fn bc7_encode_solid_white_roundtrip() {
    let input = vec![0xffu8; 4 * 4 * 4];
    let mut bc = vec![0u8; 16];
    encode_bc7(&input, 4, 4, &mut bc, &fit).unwrap();
    let mut decoded = vec![0u8; 4 * 4 * 4];
    decode_bc7(&bc, 4, 4, &mut decoded).unwrap();
    for chunk in decoded.chunks_exact(4) {
        assert_eq!(chunk, &[255, 255, 255, 255]);
    }
}

/// Solid black opaque block. Every candidate mode reconstructs
/// black with equal SSE; the picker takes the first-best (mode 6),
/// which matches the round-3 reference.
#[test]
fn bc7_encode_solid_black_roundtrip() {
    let mut input = vec![0u8; 4 * 4 * 4];
    for chunk in input.chunks_exact_mut(4) {
        chunk[3] = 0xff;
    }
    let mut bc = vec![0u8; 16];
    encode_bc7(&input, 4, 4, &mut bc, &fit).unwrap();
    let mut decoded = vec![0u8; 4 * 4 * 4];
    decode_bc7(&bc, 4, 4, &mut decoded).unwrap();
    // Every pixel reconstructs to black ± 1 LSB on each channel
    // (mode-6's per-endpoint p-bit chooses the alpha-LSB majority).
    for chunk in decoded.chunks_exact(4) {
        assert!(chunk[0] <= 1, "R = {}", chunk[0]);
        assert!(chunk[1] <= 1, "G = {}", chunk[1]);
        assert!(chunk[2] <= 1, "B = {}", chunk[2]);
        assert!(chunk[3] >= 254, "A = {}", chunk[3]);
    }
}

/// 8×8 RGBA grayscale gradient → PSNR ≥ 30 dB. Mode 6 alone hits
/// this; the multi-mode picker still picks mode 6 (lowest SSE on
/// pure 1-axis content).
#[test]
fn bc7_encode_8x8_gradient_psnr_gt_30db() {
    let mut input = vec![0u8; 8 * 8 * 4];
    for y in 0..8 {
        for x in 0..8 {
            let off = (y * 8 + x) * 4;
            let v = ((x + y) * 16) as u8;
            input[off] = v;
            input[off + 1] = v;
            input[off + 2] = v;
            input[off + 3] = 0xff;
        }
    }
    let mut bc = vec![0u8; (8 / 4) * (8 / 4) * 16];
    encode_bc7(&input, 8, 8, &mut bc, &fit).unwrap();
    let mut decoded = vec![0u8; 8 * 8 * 4];
    decode_bc7(&bc, 8, 8, &mut decoded).unwrap();

    let mut sse: u64 = 0;
    let mut count: u64 = 0;
    for (a, b) in input.chunks_exact(4).zip(decoded.chunks_exact(4)) {
        for c in 0..3 {
            let d = a[c] as i32 - b[c] as i32;
            sse += (d * d) as u64;
            count += 1;
        }
    }
    let mse = sse as f64 / count as f64;
    let psnr = if mse == 0.0 {
        f64::INFINITY
    } else {
        10.0 * (255.0_f64 * 255.0 / mse).log10()
    };
    assert!(
        psnr > 30.0,
        "BC7 8x8 grayscale gradient PSNR-RGB = {:.2} dB (want > 30 dB)",
        psnr
    );
}

/// 8×8 three-axis natural-image RGBA → round-4 lift: ≥ 25 dB via
/// the 2-subset mode-1/3 partition search (round-3 mode-6-only
/// ceiling on this specifically 3-independent-axis pattern was
/// ~22 dB; the round-4 lift puts us at ~27 dB). The remaining gap
/// to 30+ dB on this pattern is intrinsic to 2-subset modes —
/// genuinely 3-axis content needs 3-subset modes 0/2 (round-5+).
#[test]
fn bc7_encode_8x8_natural_image_three_axis_psnr_gt_25db() {
    let mut input = vec![0u8; 8 * 8 * 4];
    for y in 0..8 {
        for x in 0..8 {
            let off = (y * 8 + x) * 4;
            input[off] = (x * 32) as u8;
            input[off + 1] = (y * 32) as u8;
            input[off + 2] = ((x + y) * 16) as u8;
            input[off + 3] = 0xff;
        }
    }
    let mut bc = vec![0u8; (8 / 4) * (8 / 4) * 16];
    encode_bc7(&input, 8, 8, &mut bc, &fit).unwrap();
    let mut decoded = vec![0u8; 8 * 8 * 4];
    decode_bc7(&bc, 8, 8, &mut decoded).unwrap();

    let mut sse: u64 = 0;
    let mut count: u64 = 0;
    for (a, b) in input.chunks_exact(4).zip(decoded.chunks_exact(4)) {
        for c in 0..3 {
            let d = a[c] as i32 - b[c] as i32;
            sse += (d * d) as u64;
            count += 1;
        }
    }
    let mse = sse as f64 / count as f64;
    let psnr = 10.0 * (255.0_f64 * 255.0 / mse).log10();
    assert!(
        psnr > 25.0,
        "BC7 8x8 three-axis natural-image PSNR-RGB = {:.2} dB (want > 25 dB)",
        psnr
    );
}

/// 8×8 two-region content — top-left 4×4 quadrant is a colour A
/// gradient, bottom-right is colour B gradient — exactly what the
/// 2-subset BC7 modes are designed for. The 2-subset partition
/// search picks a partition that splits each block into the two
/// regions, then each subset fits its own gradient line on a
/// 7-bit palette → ≥ 30 dB.
#[test]
fn bc7_encode_8x8_two_region_psnr_gt_30db() {
    let mut input = vec![0u8; 8 * 8 * 4];
    for y in 0..8 {
        for x in 0..8 {
            let off = (y * 8 + x) * 4;
            let region_a = x < 4;
            if region_a {
                let v = (x * 32 + y * 16) as u8;
                input[off] = v;
                input[off + 1] = v / 2;
            } else {
                let v = ((x - 4) * 32 + y * 16) as u8;
                input[off + 2] = v;
                input[off + 1] = 128 - v / 2;
            }
            input[off + 3] = 0xff;
        }
    }
    let mut bc = vec![0u8; (8 / 4) * (8 / 4) * 16];
    encode_bc7(&input, 8, 8, &mut bc, &fit).unwrap();
    let mut decoded = vec![0u8; 8 * 8 * 4];
    decode_bc7(&bc, 8, 8, &mut decoded).unwrap();

    let mut sse: u64 = 0;
    let mut count: u64 = 0;
    for (a, b) in input.chunks_exact(4).zip(decoded.chunks_exact(4)) {
        for c in 0..3 {
            let d = a[c] as i32 - b[c] as i32;
            sse += (d * d) as u64;
            count += 1;
        }
    }
    let mse = sse as f64 / count as f64;
    let psnr = if mse == 0.0 {
        f64::INFINITY
    } else {
        10.0 * (255.0_f64 * 255.0 / mse).log10()
    };
    assert!(
        psnr > 30.0,
        "BC7 8x8 two-region PSNR-RGB = {:.2} dB (want > 30 dB)",
        psnr
    );
}

/// Two-colour split block (left half red, right half blue) →
/// either mode 6 (furthest-point endpoints = red & blue) or
/// mode 1/3 (2-subset partition aligns with the split). All
/// candidates reconstruct the two colours faithfully.
#[test]
fn bc7_encode_two_colour_block() {
    let mut input = vec![0u8; 4 * 4 * 4];
    for y in 0..4 {
        for x in 0..4 {
            let off = (y * 4 + x) * 4;
            if x < 2 {
                input[off] = 0xff;
                input[off + 3] = 0xff;
            } else {
                input[off + 2] = 0xff;
                input[off + 3] = 0xff;
            }
        }
    }
    let mut bc = vec![0u8; 16];
    encode_bc7(&input, 4, 4, &mut bc, &fit).unwrap();
    let mut decoded = vec![0u8; 4 * 4 * 4];
    decode_bc7(&bc, 4, 4, &mut decoded).unwrap();
    for y in 0..4 {
        for x in 0..4 {
            let off = (y * 4 + x) * 4;
            let p = &decoded[off..off + 4];
            if x < 2 {
                assert!(p[0] >= 0xfe, "pixel ({x},{y}) red R = {}", p[0]);
                assert!(p[1] <= 1, "pixel ({x},{y}) red G = {}", p[1]);
                assert!(p[2] <= 1, "pixel ({x},{y}) red B = {}", p[2]);
                assert!(p[3] >= 0xfe, "pixel ({x},{y}) red A = {}", p[3]);
            } else {
                assert!(p[0] <= 1, "pixel ({x},{y}) blue R = {}", p[0]);
                assert!(p[1] <= 1, "pixel ({x},{y}) blue G = {}", p[1]);
                assert!(p[2] >= 0xfe, "pixel ({x},{y}) blue B = {}", p[2]);
                assert!(p[3] >= 0xfe, "pixel ({x},{y}) blue A = {}", p[3]);
            }
        }
    }
}

/// quantize_7p is a no-op round-trip — every 8-bit value reproduces.
#[test]
fn quantize_7p_is_lossless() {
    for v in 0..=255u8 {
        let (raw, p) = quantize_7p(v);
        let recon = ((raw << 1) | p) as u8;
        assert_eq!(recon, v, "{v} round-tripped to {recon}");
    }
}

/// 5×5 surface (one 4×4 block + edge replication) — exercises the
/// non-multiple-of-4 padding code.
#[test]
fn bc7_encode_5x5_solid_white() {
    let input = vec![0xffu8; 5 * 5 * 4];
    let mut bc = vec![0u8; 4 * 16];
    encode_bc7(&input, 5, 5, &mut bc, &fit).unwrap();
    let mut decoded = vec![0u8; 5 * 5 * 4];
    decode_bc7(&bc, 5, 5, &mut decoded).unwrap();
    for chunk in decoded.chunks_exact(4) {
        assert_eq!(chunk, &[255, 255, 255, 255]);
    }
}

/// Translucent two-colour block exercises mode 7 (2-subset RGBA).
#[test]
fn bc7_encode_two_colour_translucent_block() {
    let mut input = vec![0u8; 4 * 4 * 4];
    for y in 0..4 {
        for x in 0..4 {
            let off = (y * 4 + x) * 4;
            if x < 2 {
                input[off] = 0xff;
                input[off + 3] = 0x80; // translucent red
            } else {
                input[off + 2] = 0xff;
                input[off + 3] = 0xc0; // mostly-opaque blue
            }
        }
    }
    let mut bc = vec![0u8; 16];
    encode_bc7(&input, 4, 4, &mut bc, &fit).unwrap();
    let mut decoded = vec![0u8; 4 * 4 * 4];
    decode_bc7(&bc, 4, 4, &mut decoded).unwrap();
    // Both halves should reproduce within ~8 LSB on each channel.
    for y in 0..4 {
        for x in 0..4 {
            let off = (y * 4 + x) * 4;
            let p = &decoded[off..off + 4];
            if x < 2 {
                assert!(p[0] >= 240, "pixel ({x},{y}) red R = {}", p[0]);
                assert!(p[3].abs_diff(0x80) <= 8, "red A = {}", p[3]);
            } else {
                assert!(p[2] >= 240, "pixel ({x},{y}) blue B = {}", p[2]);
                assert!(p[3].abs_diff(0xc0) <= 8, "blue A = {}", p[3]);
            }
        }
    }
}


#[test]
fn quantize_7p_splits_top_bits_and_low_bit() {
    assert_eq!(quantize_7p(0), (0, 0));
    assert_eq!(quantize_7p(255), (127, 1));
    assert_eq!(quantize_7p(0x80), (64, 0));
}

/// A solid colour whose four channels are all even or all odd is a mode-6
/// endpoint exactly: the block is mode 6 and decodes to the colour.
#[test]
fn bc7_solid_colour_of_shared_low_bit_is_exact_mode6() {
    for colour in [[0x11u8, 0x21, 0x31, 0xff], [0x20, 0x40, 0x60, 0x80], [0xff, 0xff, 0xff, 0xff]] {
        let mut input = vec![0u8; 4 * 4 * 4];
        for chunk in input.chunks_exact_mut(4) {
            chunk.copy_from_slice(&colour);
        }
        let mut bc = vec![0u8; 16];
        encode_bc7(&input, 4, 4, &mut bc, &fit).unwrap();
        assert_eq!(block_mode(&bc), 6);
        let b: [u8; 16] = bc.clone().try_into().unwrap();
        for px in decode_bc7_block(&b) {
            assert_eq!(px, colour);
        }
    }
}

/// Blocks are written in modes the alpha allows: opaque blocks in mode 6,
/// 1 or 3, translucent ones in 6 or 7.
#[test]
fn bc7_modes_follow_alpha() {
    let mut input = vec![0u8; 8 * 4 * 4];
    for y in 0..4 {
        for x in 0..8 {
            let off = (y * 8 + x) * 4;
            input[off] = (x * 30) as u8;
            input[off + 1] = (y * 60) as u8;
            input[off + 2] = ((x + y) * 20) as u8;
            input[off + 3] = if x < 4 { 0xff } else { (x * 25) as u8 };
        }
    }
    let mut bc = vec![0u8; 32];
    encode_bc7(&input, 8, 4, &mut bc, &fit).unwrap();
    assert!([6, 1, 3].contains(&block_mode(&bc[0..16])));
    assert!([6, 7].contains(&block_mode(&bc[16..32])));
}

/// The encoder runs with any endpoint fit; with one that proposes black it
/// still writes a block that decodes close to a solid colour.
#[test]
fn bc7_any_fit_is_accepted() {
    let input = vec![0xffu8; 4 * 4 * 4];
    let mut bc = vec![0u8; 16];
    encode_bc7(&input, 4, 4, &mut bc, &no_fit).unwrap();
    let mut decoded = vec![0u8; 4 * 4 * 4];
    decode_bc7(&bc, 4, 4, &mut decoded).unwrap();
    for chunk in decoded.chunks_exact(4) {
        assert_eq!(chunk, &[255, 255, 255, 255]);
    }
}

#[test]
fn bc7_short_input_is_invalid() {
    let input = vec![0u8; 4 * 4 * 4 - 1];
    let mut bc = vec![7u8; 16];
    let r = encode_bc7(&input, 4, 4, &mut bc, &fit);
    assert!(matches!(r, Err(DdsError::InvalidData(_))));
    assert_eq!(bc, vec![7u8; 16]);
}

#[test]
fn bc7_short_output_is_invalid() {
    let input = vec![0u8; 4 * 4 * 4];
    let mut bc = vec![7u8; 15];
    let r = encode_bc7(&input, 4, 4, &mut bc, &fit);
    assert!(matches!(r, Err(DdsError::InvalidData(_))));
    assert_eq!(bc, vec![7u8; 15]);
}
