use oxideav_dds::bc6h::{decode_bc6h, decode_bc6h_block, mode_info, FieldBit};
use oxideav_dds::bc7::WEIGHT_4;

/// Pack a sequence of `(value, bit_count)` pairs LSB-first into a
/// 16-byte BC6H block. Each value is consumed with its low `n` bits.
fn pack_block(fields: &[(u64, u32)]) -> [u8; 16] {
    let mut block = [0u8; 16];
    let mut pos = 0u32;
    for &(value, n) in fields {
        for i in 0..n {
            let bit = ((value >> i) & 1) as u8;
            let byte = (pos / 8) as usize;
            let shift = pos & 7;
            if byte >= 16 {
                break;
            }
            block[byte] |= bit << shift;
            pos += 1;
        }
    }
    block
}

/// Pack endpoints into the field order specified by `fields` of
/// the relevant ModeInfo. Returns the 16-byte block.
///
/// `endpoints[ch][ep]` provides the integer to encode for channel
/// `ch` (0=R, 1=G, 2=B), endpoint `ep` (0..3).
/// `prefix` is the mode prefix value with `prefix_len` bits.
fn pack_endpoints(
    prefix: u32,
    prefix_len: u32,
    fields: &[FieldBit],
    endpoints: [[u32; 4]; 3],
    partition: u32,
    partition_len: u32,
    indices: &[(u32, u32)],
) -> [u8; 16] {
    let mut block = [0u8; 16];
    let mut pos = 0u32;
    let put = |bit: u32, b: &mut [u8; 16], pos: &mut u32| {
        let byte = (*pos / 8) as usize;
        let shift = *pos & 7;
        b[byte] |= ((bit & 1) as u8) << shift;
        *pos += 1;
    };
    // Mode prefix.
    for i in 0..prefix_len {
        put((prefix >> i) & 1, &mut block, &mut pos);
    }
    // Field bits.
    for f in fields {
        let v = endpoints[f.channel as usize][f.endpoint as usize];
        put((v >> f.dest_bit) & 1, &mut block, &mut pos);
    }
    // Partition.
    for i in 0..partition_len {
        put((partition >> i) & 1, &mut block, &mut pos);
    }
    // Indices.
    for &(value, n) in indices {
        for i in 0..n {
            put((value >> i) & 1, &mut block, &mut pos);
        }
    }
    block
}

/// Mode 10 (1-subset, 10/10 absolute endpoints) — prefix 00011.
/// Both endpoints set to 0x3ff (10-bit max → unquantizes to 0xffff).
/// All indices 0 → every pixel is endpoint 0.
#[test]
fn bc6h_mode10_max_unsigned() {
    // Mode 10 prefix = 00011 (5 bits, value 0b00011 = 3).
    // Then endpoints: rw[9:0] gw[9:0] bw[9:0] rx[9:0] gx[9:0] bx[9:0]
    let mut fields = vec![(0b00011u64, 5)];
    for _ in 0..6 {
        fields.push((0x3ff, 10));
    }
    // 63 index bits all zero.
    fields.push((0, 63));
    let block = pack_block(&fields);
    let pixels = decode_bc6h_block(&block, false).expect("mode 10 decoded");
    let expected = ((0xffffu32) * 31 / 64) as u16;
    for p in pixels.iter() {
        assert_eq!(p[0], expected, "R");
        assert_eq!(p[1], expected, "G");
        assert_eq!(p[2], expected, "B");
        assert_eq!(p[3], 0x3c00, "alpha");
    }
}

/// Mode 10 with split endpoints — pixel 0 anchor (3 bits) vs full
/// indices to validate the 4-bit anchor short-by-1 rule.
#[test]
fn bc6h_mode10_split_endpoints() {
    let mut fields = vec![(0b00011u64, 5)];
    fields.push((0, 10)); // rw = 0
    fields.push((0, 10)); // gw = 0
    fields.push((0, 10)); // bw = 0
    fields.push((0x3ff, 10)); // rx = 0x3ff
    fields.push((0x3ff, 10)); // gx = 0x3ff
    fields.push((0x3ff, 10)); // bx = 0x3ff
                              // Pixel 0: 3-bit anchor index = 7 (max 3-bit). Pixels 1..15: 4-bit = 15.
    fields.push((7, 3));
    for _ in 1..16 {
        fields.push((15, 4));
    }
    let block = pack_block(&fields);
    let pixels = decode_bc6h_block(&block, false).expect("mode 10 decoded");
    // Pixel 0 anchor: weight for index 7 = 30 (out of WEIGHT_4).
    let w0 = WEIGHT_4[7] as i64;
    let unq_a = 0i32;
    let unq_b = 0xffffi32;
    let v = ((unq_a as i64 * (64 - w0) + unq_b as i64 * w0 + 32) >> 6) as i32;
    let exp_anchor = (v as u32 * 31 / 64) as u16;
    assert_eq!(pixels[0][0], exp_anchor);
    // Pixels 1..15: weight 64 → endpoint B exactly → 0xffff * 31 / 64.
    let exp_b = (0xffffu32 * 31 / 64) as u16;
    for p in pixels.iter().skip(1) {
        assert_eq!(p[0], exp_b);
        assert_eq!(p[1], exp_b);
        assert_eq!(p[2], exp_b);
        assert_eq!(p[3], 0x3c00);
    }
}

/// Mode 9 (TWO; 6.6.6.6 absolute) — prefix 11110. Confirms field
/// table works for a 2-subset no-delta mode.
#[test]
fn bc6h_mode9_solid() {
    let mi = mode_info(9).unwrap();
    let endpoints = [[0u32, 0, 0, 0]; 3]; // all endpoints zero
    let mut indices = vec![(0u32, 2)]; // pixel 0 anchor (subset 0): 2 bits
    for _ in 1..16 {
        indices.push((0, 3));
    }
    // Note: subset-1 anchor pixel needs a 2-bit index too, but with all
    // partitions producing pixel-0 anchored at 0, we don't know which
    // pixel is anchor without pinning the partition. For partition 0,
    // anchors are pixel 0 (subset 0) and pixel 15 (subset 1). Use
    // partition=0 and then make pixel 15 an anchor with 2 bits.
    let mut indices = vec![(0u32, 2)]; // pixel 0
    for _ in 1..15 {
        indices.push((0, 3));
    }
    indices.push((0, 2)); // pixel 15 (subset-1 anchor for partition 0)
    let block = pack_endpoints(0b11110, 5, &mi.fields, endpoints, 0, 5, &indices);
    let pixels = decode_bc6h_block(&block, false).expect("mode 9 decoded");
    for p in pixels.iter() {
        assert_eq!(p[0], 0);
        assert_eq!(p[1], 0);
        assert_eq!(p[2], 0);
        assert_eq!(p[3], 0x3c00);
    }
}

/// Mode 0 — TWO 10.5.5.5. With endpoints 0,0,0,0 the output is zero.
#[test]
fn bc6h_mode0_zero() {
    let mi = mode_info(0).unwrap();
    let endpoints = [[0u32, 0, 0, 0]; 3];
    let mut indices = vec![(0u32, 2)];
    for _ in 1..15 {
        indices.push((0, 3));
    }
    indices.push((0, 2));
    let block = pack_endpoints(0b00, 2, &mi.fields, endpoints, 0, 5, &indices);
    let pixels = decode_bc6h_block(&block, false).unwrap();
    for p in pixels.iter() {
        assert_eq!(p[0], 0);
        assert_eq!(p[3], 0x3c00);
    }
}

/// Mode 1 — TWO 7.6.6.6.
#[test]
fn bc6h_mode1_zero() {
    let mi = mode_info(1).unwrap();
    let endpoints = [[0u32, 0, 0, 0]; 3];
    let mut indices = vec![(0u32, 2)];
    for _ in 1..15 {
        indices.push((0, 3));
    }
    indices.push((0, 2));
    let block = pack_endpoints(0b01, 2, &mi.fields, endpoints, 0, 5, &indices);
    let pixels = decode_bc6h_block(&block, false).unwrap();
    for p in pixels.iter() {
        assert_eq!(p[0], 0);
        assert_eq!(p[3], 0x3c00);
    }
}

/// All 12 missing modes (0, 2, 3, 4, 5, 6, 7, 8, 9, 12, 13) decode
/// without panic for a zero-endpoint block; outputs all zero RGB.
#[test]
fn bc6h_all_modes_zero_block_decodes() {
    let prefixes = [
        (0u32, 2, 0u32), // mode 0
        (1, 2, 1),       // mode 1
        (0b00010, 5, 2),
        (0b00110, 5, 3),
        (0b01010, 5, 4),
        (0b01110, 5, 5),
        (0b10010, 5, 6),
        (0b10110, 5, 7),
        (0b11010, 5, 8),
        (0b11110, 5, 9),
        (0b00011, 5, 10),
        (0b00111, 5, 11),
        (0b01011, 5, 12),
        (0b01111, 5, 13),
    ];
    for (prefix, plen, mode) in prefixes {
        let mi = mode_info(mode).unwrap();
        let endpoints = [[0u32, 0, 0, 0]; 3];
        let mut indices: Vec<(u32, u32)> = vec![];
        if mi.subsets == 2 {
            indices.push((0, 2));
            for _ in 1..15 {
                indices.push((0, 3));
            }
            indices.push((0, 2));
        } else {
            indices.push((0, 3));
            for _ in 1..16 {
                indices.push((0, 4));
            }
        }
        let part = 0u32;
        let plen2 = if mi.subsets == 2 { 5 } else { 0 };
        let block = pack_endpoints(prefix, plen, &mi.fields, endpoints, part, plen2, &indices);
        let pixels = decode_bc6h_block(&block, false)
            .unwrap_or_else(|| panic!("mode {} should decode", mode));
        for p in pixels.iter() {
            assert_eq!(p[0], 0, "mode {} R != 0", mode);
            assert_eq!(p[1], 0, "mode {} G != 0", mode);
            assert_eq!(p[2], 0, "mode {} B != 0", mode);
            assert_eq!(p[3], 0x3c00, "mode {} alpha != 1.0", mode);
        }
    }
}

/// Reserved 5-bit prefixes (10011, 10111, 11011, 11111) decode to
/// zero RGB without erroring at the surface level.
#[test]
fn bc6h_reserved_prefix_zero_rgb() {
    let mut block = [0u8; 16];
    block[0] = 0b10011;
    let mut out = vec![0u8; 4 * 4 * 8];
    decode_bc6h(&block, 4, 4, false, &mut out).expect("reserved decodes to zero");
    for chunk in out.chunks_exact(8) {
        let r = u16::from_le_bytes([chunk[0], chunk[1]]);
        let g = u16::from_le_bytes([chunk[2], chunk[3]]);
        let b = u16::from_le_bytes([chunk[4], chunk[5]]);
        let a = u16::from_le_bytes([chunk[6], chunk[7]]);
        assert_eq!(r, 0);
        assert_eq!(g, 0);
        assert_eq!(b, 0);
        assert_eq!(a, 0x3c00);
    }
}

/// Mode 13 — ONE 16.4 with rw / gw / bw set to a moderate value.
#[test]
fn bc6h_mode13_zero_endpoints() {
    let mi = mode_info(13).unwrap();
    let endpoints = [[0u32, 0, 0, 0]; 3];
    let mut indices = vec![(0u32, 3)];
    for _ in 1..16 {
        indices.push((0, 4));
    }
    let block = pack_endpoints(0b01111, 5, &mi.fields, endpoints, 0, 0, &indices);
    let pixels = decode_bc6h_block(&block, false).unwrap();
    for p in pixels.iter() {
        assert_eq!(p[0], 0);
        assert_eq!(p[1], 0);
        assert_eq!(p[2], 0);
        assert_eq!(p[3], 0x3c00);
    }
}

/// Surface-level decode should succeed for all 14 modes.
#[test]
fn bc6h_decode_surface_all_modes() {
    let prefixes = [
        (0u32, 2, 0u32),
        (1, 2, 1),
        (0b00010, 5, 2),
        (0b00110, 5, 3),
        (0b01010, 5, 4),
        (0b01110, 5, 5),
        (0b10010, 5, 6),
        (0b10110, 5, 7),
        (0b11010, 5, 8),
        (0b11110, 5, 9),
        (0b00011, 5, 10),
        (0b00111, 5, 11),
        (0b01011, 5, 12),
        (0b01111, 5, 13),
    ];
    for (prefix, plen, mode) in prefixes {
        let mi = mode_info(mode).unwrap();
        let endpoints = [[0u32, 0, 0, 0]; 3];
        let mut indices: Vec<(u32, u32)> = vec![];
        if mi.subsets == 2 {
            indices.push((0, 2));
            for _ in 1..15 {
                indices.push((0, 3));
            }
            indices.push((0, 2));
        } else {
            indices.push((0, 3));
            for _ in 1..16 {
                indices.push((0, 4));
            }
        }
        let plen2 = if mi.subsets == 2 { 5 } else { 0 };
        let block = pack_endpoints(prefix, plen, &mi.fields, endpoints, 0, plen2, &indices);
        let mut out = vec![0u8; 4 * 4 * 8];
        decode_bc6h(&block, 4, 4, false, &mut out)
            .unwrap_or_else(|e| panic!("mode {} surface decode: {:?}", mode, e));
    }
}

/// Mode 10 with non-trivial endpoints: a graded ramp should produce
/// a smooth interpolated result without overflow.
#[test]
fn bc6h_mode10_ramp() {
    // r0=0, r1=0x3ff. Indices: pixel i = i (4-bit). Pixel 0 = 3-bit
    // anchor. So pixel 0 has index 0 (3 bits stored), pixels 1..15
    // have index i (4 bits).
    let mut fields = vec![(0b00011u64, 5)];
    fields.push((0, 10)); // rw = 0
    fields.push((0, 10)); // gw = 0
    fields.push((0, 10)); // bw = 0
    fields.push((0x3ff, 10)); // rx = 0x3ff
    fields.push((0x3ff, 10)); // gx = 0x3ff
    fields.push((0x3ff, 10)); // bx = 0x3ff
    fields.push((0, 3)); // pixel 0 (anchor, 3 bits) = 0
    for i in 1..16u32 {
        fields.push((i as u64, 4));
    }
    let block = pack_block(&fields);
    let pixels = decode_bc6h_block(&block, false).unwrap();
    // Pixel 0: index 0 → endpoint A → 0.
    assert_eq!(pixels[0][0], 0);
    assert_eq!(pixels[0][1], 0);
    assert_eq!(pixels[0][2], 0);
    // Pixel 15: index 15 → endpoint B → 0xffff*31/64.
    let exp_b = (0xffffu32 * 31 / 64) as u16;
    assert_eq!(pixels[15][0], exp_b);
    assert_eq!(pixels[15][1], exp_b);
    assert_eq!(pixels[15][2], exp_b);
    // Interpolated values strictly increasing.
    for i in 1..16 {
        assert!(
            pixels[i][0] >= pixels[i - 1][0],
            "pixel {} R={:#x} < pixel {} R={:#x}",
            i,
            pixels[i][0],
            i - 1,
            pixels[i - 1][0]
        );
    }
}
