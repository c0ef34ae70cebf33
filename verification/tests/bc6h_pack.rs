use oxideav_dds::bc6h::mode_info;
use oxideav_dds::bc6h_pack::{pack_bc6h, pack_mode10_signed};

fn bits(block: &[u8; 16], start: usize, n: usize) -> u32 {
    let mut v = 0u32;
    for i in 0..n {
        let p = start + i;
        v |= (((block[p / 8] >> (p % 8)) & 1) as u32) << i;
    }
    v
}

#[test]
fn mode10_signed_stores_low_ten_bits() {
    let block = pack_mode10_signed([1, 2, 3], [-1, 0, 5], [0; 16]);
    assert_eq!(bits(&block, 0, 5), 0b00011);
    assert_eq!(bits(&block, 5, 10), 1);
    assert_eq!(bits(&block, 15, 10), 2);
    assert_eq!(bits(&block, 25, 10), 3);
    assert_eq!(bits(&block, 35, 10), 0x3ff);
    assert_eq!(bits(&block, 45, 10), 0);
    assert_eq!(bits(&block, 55, 10), 5);
    assert_eq!(bits(&block, 65, 32), 0);
    assert_eq!(bits(&block, 97, 31), 0);
}

#[test]
fn one_subset_indices_follow_the_endpoints() {
    let mi = mode_info(10).unwrap();
    let q = [[0x155, 0x2aa, 0, 0], [0x3ff, 0, 0, 0], [7, 0x200, 0, 0]];
    let mut indices = [0u32; 16];
    for (i, v) in indices.iter_mut().enumerate() {
        *v = i as u32;
    }
    let block = pack_bc6h(&mi, 0b00011, 5, q, 0, &indices, 15);
    assert_eq!(bits(&block, 0, 5), 0b00011);
    assert_eq!(bits(&block, 5, 10), 0x155);
    assert_eq!(bits(&block, 15, 10), 0x3ff);
    assert_eq!(bits(&block, 25, 10), 7);
    assert_eq!(bits(&block, 35, 10), 0x2aa);
    assert_eq!(bits(&block, 45, 10), 0);
    assert_eq!(bits(&block, 55, 10), 0x200);
    // Pixel 0's index is its anchor: 3 bits; the rest take 4.
    assert_eq!(bits(&block, 65, 3), 0);
    for px in 1..16 {
        assert_eq!(bits(&block, 68 + 4 * (px - 1), 4), px as u32);
    }
}

#[test]
fn two_subset_partition_and_anchors() {
    let mi = mode_info(1).unwrap();
    let q = [[0u32; 4]; 3];
    let mut indices = [5u32; 16];
    indices[0] = 3;
    indices[15] = 2;
    let block = pack_bc6h(&mi, 0b01, 2, q, 13, &indices, 15);
    let start = 2 + mi.fields.len();
    assert_eq!(bits(&block, 0, 2), 0b01);
    for i in 0..mi.fields.len() {
        assert_eq!(bits(&block, 2 + i, 1), 0);
    }
    assert_eq!(bits(&block, start, 5), 13);
    let idx = start + 5;
    assert_eq!(bits(&block, idx, 2), 3);
    for px in 1..15 {
        assert_eq!(bits(&block, idx + 2 + 3 * (px - 1), 3), 5);
    }
    assert_eq!(bits(&block, idx + 2 + 3 * 14, 2), 2);
    assert_eq!(idx + 2 + 3 * 14 + 2, 128);
}
