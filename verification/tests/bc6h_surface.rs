use oxideav_dds::bc6h_surface::{encode_bc6h, encode_bc6h_sf16};

fn first_texel_block(block: [[u16; 3]; 16]) -> [u8; 16] {
    let mut out = [0u8; 16];
    for t in 0..5 {
        out[3 * t] = (block[t][0] & 0xff) as u8;
        out[3 * t + 1] = (block[t][1] & 0xff) as u8;
        out[3 * t + 2] = (block[t][2] & 0xff) as u8;
    }
    out
}

#[test]
fn bc6h_surface_places_blocks_and_clamps_edges() {
    // 5x1 surface: two blocks across; the second block repeats column 4.
    let mut input = vec![0u8; 5 * 8];
    for x in 0..5usize {
        input[x * 8] = x as u8 + 1;
        input[x * 8 + 2] = 10 + x as u8;
        input[x * 8 + 4] = 20 + x as u8;
    }
    let mut out = vec![0xEEu8; 32 + 2];
    assert!(encode_bc6h(&input, 5, 1, &mut out, &first_texel_block).is_ok());
    assert_eq!(&out[0..6], &[1, 10, 20, 2, 11, 21]);
    assert_eq!(&out[16..22], &[5, 14, 24, 5, 14, 24]);
    assert_eq!(&out[32..], &[0xEE, 0xEE]);
}

#[test]
fn bc6h_surface_refuses_short_buffers_untouched() {
    let input = vec![0u8; 4 * 4 * 8 - 1];
    let mut out = vec![7u8; 16];
    assert!(encode_bc6h(&input, 4, 4, &mut out, &first_texel_block).is_err());
    assert_eq!(out, vec![7u8; 16]);
    let input = vec![0u8; 4 * 4 * 8];
    let mut out = vec![7u8; 15];
    assert!(encode_bc6h_sf16(&input, 4, 4, &mut out, &first_texel_block).is_err());
    assert_eq!(out, vec![7u8; 15]);
}
