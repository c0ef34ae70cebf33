use oxideav_dds::bcn::{
    decode_bc1, decode_bc1_block, decode_bc2, decode_bc2_alpha_block, decode_bc3, decode_bc4_unorm,
    decode_bc4_unorm_block, decode_bc5_unorm,
};

#[test]
fn bc1_solid_white_block() {
    let block = [0xff, 0xff, 0x00, 0x00, 0, 0, 0, 0];
    let pixels = decode_bc1_block(&block, true);
    for p in pixels.iter() {
        assert_eq!(p, &[255, 255, 255, 255]);
    }
}

#[test]
fn bc1_solid_black_indices_one() {
    // c0 = 0xffff white, c1 = 0x0000 black, indices all = 0b01.
    // 0b01010101 repeated 4× = 0x55555555.
    let block = [0xff, 0xff, 0x00, 0x00, 0x55, 0x55, 0x55, 0x55];
    let pixels = decode_bc1_block(&block, true);
    for p in pixels.iter() {
        assert_eq!(p, &[0, 0, 0, 255]);
    }
}

#[test]
fn bc1_punchthrough_transparent_index_3() {
    // c0 = 0x0000 black, c1 = 0xffff white. Since c0 <= c1,
    // indices 0/1 = c0/c1 (black/white), index 2 = (c0+c1)/2 =
    // grey, index 3 = transparent black.
    // 16 indices = 0b11 → packed 0xffff_ffff.
    let block = [0x00, 0x00, 0xff, 0xff, 0xff, 0xff, 0xff, 0xff];
    let pixels = decode_bc1_block(&block, true);
    for p in pixels.iter() {
        assert_eq!(p, &[0, 0, 0, 0]);
    }
}

#[test]
fn bc4_unorm_solid_endpoints() {
    // a0 = 200, a1 = 100; indices all 0 → all = a0.
    let block = [200, 100, 0, 0, 0, 0, 0, 0];
    let p = decode_bc4_unorm_block(&block);
    for v in p.iter() {
        assert_eq!(*v, 200);
    }
}

#[test]
fn bc4_unorm_interpolated_index_2() {
    // a0 = 255, a1 = 0, 8-value mode (a0 > a1).
    // palette[2] (k=1) = (6*a0 + 1*a1)/7 = 1530/7 = 218.
    let mut idx: u64 = 0;
    for i in 0..16 {
        idx |= 0b010_u64 << (i * 3);
    }
    let bytes = idx.to_le_bytes();
    let block = [
        255, 0, bytes[0], bytes[1], bytes[2], bytes[3], bytes[4], bytes[5],
    ];
    let p = decode_bc4_unorm_block(&block);
    for v in p.iter() {
        assert_eq!(*v, ((6 * 255_u32) / 7) as u8);
    }
}

#[test]
fn bc4_unorm_six_value_mode_endpoints() {
    // a0 = 0, a1 = 100 (a0 < a1, 6-value mode).
    // Index 6 → 0, index 7 → 255.
    let mut idx: u64 = 0;
    idx |= 0b110;
    idx |= 0b111 << 3;
    let bytes = idx.to_le_bytes();
    let block = [
        0, 100, bytes[0], bytes[1], bytes[2], bytes[3], bytes[4], bytes[5],
    ];
    let p = decode_bc4_unorm_block(&block);
    assert_eq!(p[0], 0);
    assert_eq!(p[1], 255);
    assert_eq!(p[2], 0);
}

#[test]
fn bc1_decode_surface_solid_white_8x4() {
    let block = [0xff, 0xff, 0x00, 0x00, 0, 0, 0, 0];
    let mut input = Vec::new();
    input.extend_from_slice(&block);
    input.extend_from_slice(&block);
    let mut out = vec![0u8; 8 * 4 * 4];
    decode_bc1(&input, 8, 4, &mut out).unwrap();
    for chunk in out.chunks_exact(4) {
        assert_eq!(chunk, &[255, 255, 255, 255]);
    }
}

#[test]
fn bc1_handles_non_multiple_of_4() {
    // 5x5 surface — needs 2x2 = 4 blocks. All white.
    let block = [0xff, 0xff, 0x00, 0x00, 0, 0, 0, 0];
    let mut input = Vec::new();
    for _ in 0..4 {
        input.extend_from_slice(&block);
    }
    let mut out = vec![0u8; 5 * 5 * 4];
    decode_bc1(&input, 5, 5, &mut out).unwrap();
    for chunk in out.chunks_exact(4) {
        assert_eq!(chunk, &[255, 255, 255, 255]);
    }
}

#[test]
fn bc2_alpha_block_bit_replication() {
    // First nibble = 0xf → 0xff, rest = 0x0 → 0x00.
    let block = [0x0f, 0, 0, 0, 0, 0, 0, 0];
    let a = decode_bc2_alpha_block(&block);
    assert_eq!(a[0], 0xff);
    for &v in a.iter().skip(1) {
        assert_eq!(v, 0x00);
    }
}

#[test]
fn bc2_decode_surface_solid_opaque_white() {
    let mut input = vec![0xff; 8]; // alpha all 0xff
    input.extend_from_slice(&[0xff, 0xff, 0x00, 0x00, 0, 0, 0, 0]); // colour
    let mut out = vec![0u8; 4 * 4 * 4];
    decode_bc2(&input, 4, 4, &mut out).unwrap();
    for chunk in out.chunks_exact(4) {
        assert_eq!(chunk, &[255, 255, 255, 255]);
    }
}

#[test]
fn bc3_decode_surface_solid_opaque_white() {
    let mut input = vec![255, 0, 0, 0, 0, 0, 0, 0]; // alpha block
    input.extend_from_slice(&[0xff, 0xff, 0x00, 0x00, 0, 0, 0, 0]); // colour
    let mut out = vec![0u8; 4 * 4 * 4];
    decode_bc3(&input, 4, 4, &mut out).unwrap();
    for chunk in out.chunks_exact(4) {
        assert_eq!(chunk, &[255, 255, 255, 255]);
    }
}

#[test]
fn bc4_unorm_decode_surface() {
    let block = [200, 100, 0, 0, 0, 0, 0, 0];
    let mut out = vec![0u8; 4 * 4];
    decode_bc4_unorm(&block, 4, 4, &mut out).unwrap();
    for &v in out.iter() {
        assert_eq!(v, 200);
    }
}

#[test]
fn bc5_unorm_decode_surface_interleaves_rg() {
    let r_block = [200, 100, 0, 0, 0, 0, 0, 0];
    let g_block = [50, 25, 0, 0, 0, 0, 0, 0];
    let mut input = Vec::new();
    input.extend_from_slice(&r_block);
    input.extend_from_slice(&g_block);
    let mut out = vec![0u8; 4 * 4 * 2];
    decode_bc5_unorm(&input, 4, 4, &mut out).unwrap();
    for pair in out.chunks_exact(2) {
        assert_eq!(pair, &[200, 50]);
    }
}
