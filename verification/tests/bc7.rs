use oxideav_dds::bc7::{decode_bc7, decode_bc7_block};


/// Helper that packs a sequence of `(value, bit_count)` pairs LSB-first
/// into a 16-byte BC7 block.
fn pack_block(fields: &[(u32, u32)]) -> [u8; 16] {
    let mut block = [0u8; 16];
    let mut pos = 0u32;
    for &(value, n) in fields {
        for i in 0..n {
            let bit = (value >> i) & 1;
            let byte = (pos / 8) as usize;
            let shift = pos & 7;
            if byte >= 16 {
                break;
            }
            block[byte] |= (bit as u8) << shift;
            pos += 1;
        }
    }
    block
}

/// Build a mode-6 BC7 block whose two endpoints are both opaque
/// white and whose 4-bit indices are all 0 → every pixel is white.
/// Mode-6 layout: 7-bit mode prefix `1000000` (mode 6 = bit 6 set,
/// so first 6 bits are 0 and the 7th bit is 1).
#[test]
fn bc7_mode6_solid_white() {
    // Construct the block bit-by-bit at LSB-first (matching the reader).
    let mut bits = [0u8; 128]; // bit array (one byte = one bit)

    // Mode prefix: 6 zeros then a 1 = mode 6 (the leading-zero count).
    bits[6] = 1;
    // No partition, rotation, idx_sel, p-bits-only-from-end-position.
    // Endpoint colours: 7-bit R, then G, then B for each endpoint.
    // 7-bit value 127 + p-bit 1 → 8-bit 255 → bit-replicated to 0xFF.
    let mut pos = 7usize;
    // R, G, B each: 2 endpoints * 7 bits = 14 bits per channel.
    // Then alpha: 2 endpoints * 7 bits = 14 bits.
    // For each endpoint slot we want raw value 127 (seven 1's).
    for _ in 0..(2 * 4) {
        // 2 endpoints * 4 channels (RGBA)
        for _ in 0..7 {
            bits[pos] = 1;
            pos += 1;
        }
    }
    // 2 p-bits, both 1 → endpoint becomes (raw<<1|1)=255.
    bits[pos] = 1;
    pos += 1;
    bits[pos] = 1;
    // 16 indices, 4 bits each. Anchor for subset 0 is pixel 0 → 3 bits.
    // All zero → all map to e0 (white).
    // (We leave the remaining bits as zero — that's "all indices 0".)

    // Pack bit array into bytes.
    let mut block = [0u8; 16];
    for (i, &b) in bits.iter().enumerate() {
        if i >= 128 {
            break;
        }
        block[i / 8] |= (b & 1) << (i % 8);
    }
    let pixels = decode_bc7_block(&block);
    for p in pixels.iter() {
        assert_eq!(*p, [255, 255, 255, 255], "got {:?}", p);
    }
    // Sanity: the pos accounting matches Microsoft's mode-6 layout
    // (1 mode + 56 colour + 14 alpha + 2 p + 63 index = 136 ... wait
    // mode 6's total = 1 + 56 + 14 + 2 + 63 = 136 bits which is 8 over.
    // The indices are 4-bit × 16 = 64 minus 1 (anchor) = 63 bits. Plus
    // mode 1 + colour 56 + alpha 14 + pbit 2 + index 63 = 136 ... but
    // BC7 blocks are exactly 128 bits. Let's recount: alpha 7-bit × 2 = 14,
    // colour 7-bit × 2 × 3 = 42, total endpoint = 56, mode prefix = 7,
    // p-bits = 2, indices = 63 → 7 + 56 + 2 + 63 = 128. Good.
}

#[test]
fn bc7_invalid_mode_returns_black() {
    // All zeros → no leading 1 in the first 8 bits → reserved mode.
    let block = [0u8; 16];
    let pixels = decode_bc7_block(&block);
    for p in pixels.iter() {
        assert_eq!(*p, [0, 0, 0, 0]);
    }
}

#[test]
fn bc7_mode6_endpoint1_via_max_index() {
    // Same as mode6_solid_white but endpoints differ: e0 = black,
    // e1 = white, indices = max (15) for every pixel except the
    // anchor. Anchor pixel 0 has only 3 bits → max index 7 there.
    // Every interpolation therefore hits weight 64 → e1 = white.
    let mut fields: Vec<(u32, u32)> = vec![
        (1u32 << 6, 7), // mode prefix: bit 6 set
    ];
    // Endpoints: 7-bit raw RGBA, e0 then e1, channel-major (R0,R1,G0,G1,B0,B1,A0,A1).
    for _ in 0..4 {
        fields.push((0, 7)); // e0
        fields.push((127, 7)); // e1 = max
    }
    // 2 p-bits — set both to 1 so e1 expands fully to 0xff and e0
    // stays at 0 (raw 0 + p-bit 1 → (0<<1)|1 = 1, which after the
    // bit-replication = 0x00 plus high-bit replicate stays close to 0).
    // For idx=15 we get weight 64 → result = e1 only.
    fields.push((1, 1));
    fields.push((1, 1));
    // Indices: anchor pixel 0 = 3 bits, value 7 (max). Pixels 1..15: 4 bits each, value 15.
    fields.push((7, 3));
    for _ in 1..16 {
        fields.push((15, 4));
    }
    let block = pack_block(&fields);
    let pixels = decode_bc7_block(&block);
    // Pixel 0 is the anchor: stored with one fewer bit, so the
    // 3-bit value 7 corresponds to 4-bit index 7, weight 30 — the
    // result is roughly half-way between e0 (black) and e1 (white).
    // Allow some leeway around (30/64) * 255 = 119.5.
    let p0 = pixels[0];
    assert!(
        p0[0] >= 117 && p0[0] <= 122,
        "anchor pixel R={} not in [117, 122]",
        p0[0]
    );
    // All other pixels have full 4-bit index 15 = weight 64 → e1 = white.
    for p in pixels.iter().skip(1) {
        assert_eq!(*p, [255, 255, 255, 255]);
    }
}

#[test]
fn bc7_mode5_no_rotation_solid_red() {
    // Mode 5: 1 subset, 2-bit rotation, 7-bit colour, 8-bit alpha,
    // no p-bits, 2-bit colour idx + 2-bit alpha idx.
    //
    // Endpoints e0 = e1 = red, alpha 255. Indices all 0 → every
    // pixel = e0 = (255, 0, 0, 255).
    let mut fields: Vec<(u32, u32)> = vec![
        (1u32 << 5, 6), // mode prefix: bit 5 set (mode 5)
        (0, 2),         // rotation = 0 (no swap)
    ];
    // Colour endpoints: R0, R1, G0, G1, B0, B1 — 7 bits each.
    // Want endpoint = 0xFF after expand. raw=127 (7 ones) → 7-bit value
    // 127 → expand_to_8(127, 7, None) = (127<<1) | (127>>6) = 0xFE | 0x01 = 0xFF.
    fields.push((127, 7)); // R0
    fields.push((127, 7)); // R1
    fields.push((0, 7)); // G0
    fields.push((0, 7)); // G1
    fields.push((0, 7)); // B0
    fields.push((0, 7)); // B1
                         // Alpha endpoints: A0, A1 — 8 bits each.
    fields.push((255, 8));
    fields.push((255, 8));
    // No p-bits.
    // Colour indices: anchor pixel 0 = 1 bit, others 2 bits.
    fields.push((0, 1));
    for _ in 1..16 {
        fields.push((0, 2));
    }
    // Alpha indices: anchor pixel 0 = 1 bit, others 2 bits.
    fields.push((0, 1));
    for _ in 1..16 {
        fields.push((0, 2));
    }
    let block = pack_block(&fields);
    let pixels = decode_bc7_block(&block);
    for p in pixels.iter() {
        assert_eq!(*p, [255, 0, 0, 255]);
    }
}

#[test]
fn bc7_decode_surface_solid_white_4x4() {
    // Same single block as bc7_mode6_solid_white, run through the
    // surface entry point.
    let mut bits = [0u8; 128];
    bits[6] = 1;
    let mut pos = 7usize;
    for _ in 0..(2 * 4) {
        for _ in 0..7 {
            bits[pos] = 1;
            pos += 1;
        }
    }
    bits[pos] = 1;
    pos += 1;
    bits[pos] = 1;
    let mut block = [0u8; 16];
    for (i, &b) in bits.iter().enumerate() {
        if i >= 128 {
            break;
        }
        block[i / 8] |= (b & 1) << (i % 8);
    }
    let mut out = vec![0u8; 4 * 4 * 4];
    decode_bc7(&block, 4, 4, &mut out).unwrap();
    for chunk in out.chunks_exact(4) {
        assert_eq!(chunk, &[255, 255, 255, 255]);
    }
}
