use oxideav_dds::astc::{
    decode_astc_ldr_block, hash52, is_valid_footprint, pick_color_range, ERROR_COLOR,
    LDR_BLOCK_FOOTPRINTS,
};
use oxideav_dds::astc_ise::{unpack_quints, unpack_trits, weight_range, IseRange};
use oxideav_dds::astc_enc::{
    block_sad, encode_astc_ldr, encode_astc_ldr_block, encode_astc_ldr_surface, encode_dual_plane,
    encode_single_subset, encode_three_subset, encode_two_subset, SEEDS,
};
use oxideav_dds::astc_surface::{decode_astc_ldr, decode_astc_ldr_surface};
use oxideav_dds::DdsPixelFormat;

/// A 128-bit ASTC block under construction. Bits are written LSB-first by
/// absolute position; the weight stream is written from the top of the
/// block (bit `127 - i`).
struct BlockBuilder {
    lo: u64,
    hi: u64,
}

impl BlockBuilder {
    fn new() -> Self {
        Self { lo: 0, hi: 0 }
    }
    /// Write `count` low bits of `value` starting at absolute bit `pos`.
    fn set(&mut self, pos: u32, count: u32, value: u32) {
        for k in 0..count {
            let b = ((value >> k) & 1) as u64;
            let i = pos + k;
            if i < 64 {
                self.lo |= b << i;
            } else {
                self.hi |= b << (i - 64);
            }
        }
    }
    /// Set weight-stream bit `stream_i` (block bit `127 - stream_i`).
    fn set_weight_bit(&mut self, stream_i: u32, value: u32) {
        let pos = 127 - stream_i;
        let b = (value & 1) as u64;
        if pos < 64 {
            self.lo |= b << pos;
        } else {
            self.hi |= b << (pos - 64);
        }
    }
    fn bytes(&self) -> [u8; 16] {
        let mut out = [0u8; 16];
        out[0..8].copy_from_slice(&self.lo.to_le_bytes());
        out[8..16].copy_from_slice(&self.hi.to_le_bytes());
        out
    }
}

/// Inverse of [`unpack_trits`]: pack five trits (each 0..2) into the
/// 8-bit form by exhaustive search, so it agrees with the decoder for
/// every input (§23.18, Table 23.18).
fn pack_trits(t: [u32; 5]) -> u32 {
    for p in 0u32..256 {
        if unpack_trits(p) == t {
            return p;
        }
    }
    0
}

/// Inverse of [`unpack_quints`]: pack three quints (each 0..4) into the
/// 7-bit form by exhaustive search (§23.18, Table 23.19).
fn pack_quints(q: [u32; 3]) -> u32 {
    for p in 0u32..128 {
        if unpack_quints(p) == q {
            return p;
        }
    }
    0
}

/// Pack the colour-integer sequence `seq` (each value in `range`) into
/// the block at absolute bit `start`, the exact inverse of
/// `decode_ise`.
fn pack_ise_into(bb: &mut BlockBuilder, start: u32, seq: &[u32], range: IseRange) {
    let n = range.bits as u32;
    let mut pos = start;
    if range.trits {
        for chunk in seq.chunks(5) {
            let mut trits = [0u32; 5];
            let mut m = [0u32; 5];
            for (i, &v) in chunk.iter().enumerate() {
                trits[i] = v >> n;
                m[i] = if n > 0 { v & ((1 << n) - 1) } else { 0 };
            }
            let packed = pack_trits(trits);
            bb.set(pos, n, m[0]);
            pos += n;
            bb.set(pos, 2, packed & 0b11);
            pos += 2;
            bb.set(pos, n, m[1]);
            pos += n;
            bb.set(pos, 2, (packed >> 2) & 0b11);
            pos += 2;
            bb.set(pos, n, m[2]);
            pos += n;
            bb.set(pos, 1, (packed >> 4) & 1);
            pos += 1;
            bb.set(pos, n, m[3]);
            pos += n;
            bb.set(pos, 2, (packed >> 5) & 0b11);
            pos += 2;
            bb.set(pos, n, m[4]);
            pos += n;
            bb.set(pos, 1, (packed >> 7) & 1);
            pos += 1;
        }
    } else if range.quints {
        for chunk in seq.chunks(3) {
            let mut quints = [0u32; 3];
            let mut m = [0u32; 3];
            for (i, &v) in chunk.iter().enumerate() {
                quints[i] = v >> n;
                m[i] = if n > 0 { v & ((1 << n) - 1) } else { 0 };
            }
            let packed = pack_quints(quints);
            bb.set(pos, n, m[0]);
            pos += n;
            bb.set(pos, 3, packed & 0b111);
            pos += 3;
            bb.set(pos, n, m[1]);
            pos += n;
            bb.set(pos, 2, (packed >> 3) & 0b11);
            pos += 2;
            bb.set(pos, n, m[2]);
            pos += n;
            bb.set(pos, 2, (packed >> 5) & 0b11);
            pos += 2;
        }
    } else {
        for &v in seq {
            bb.set(pos, n, v);
            pos += n;
        }
    }
}



#[test]
fn footprints_recognised() {
    assert!(is_valid_footprint(4, 4));
    assert!(is_valid_footprint(12, 12));
    assert!(is_valid_footprint(8, 5));
    assert!(!is_valid_footprint(7, 7));
    assert!(!is_valid_footprint(16, 16));
}

#[test]
fn trit_unpack_zero() {
    // All zero packed bits -> all zero trits.
    assert_eq!(unpack_trits(0), [0, 0, 0, 0, 0]);
}

#[test]
fn weight_range_table_matches_spec() {
    // Every (ρ, P) entry of Table 23.9 maps to the documented
    // 0..=max weight range; the two ρ codes 000/001 are invalid.
    // P = 0 (low precision):
    assert_eq!(weight_range(0b000, 0), None);
    assert_eq!(weight_range(0b001, 0), None);
    assert_eq!(weight_range(0b010, 0).unwrap().max, 1); // 0..1
    assert_eq!(weight_range(0b011, 0).unwrap().max, 2); // 0..2
    assert_eq!(weight_range(0b100, 0).unwrap().max, 3); // 0..3
    assert_eq!(weight_range(0b101, 0).unwrap().max, 4); // 0..4
    assert_eq!(weight_range(0b110, 0).unwrap().max, 5); // 0..5
    assert_eq!(weight_range(0b111, 0).unwrap().max, 7); // 0..7
                                                        // P = 1 (high precision):
    assert_eq!(weight_range(0b000, 1), None);
    assert_eq!(weight_range(0b001, 1), None);
    assert_eq!(weight_range(0b010, 1).unwrap().max, 9); // 0..9
    assert_eq!(weight_range(0b011, 1).unwrap().max, 11); // 0..11
    assert_eq!(weight_range(0b100, 1).unwrap().max, 15); // 0..15
                                                         // The 0..19 quint/2-bit entry (the one previously mis-coded as
                                                         // 0..9 quint/1-bit).
    let r = weight_range(0b101, 1).unwrap();
    assert_eq!(r.max, 19);
    assert!(r.quints && !r.trits && r.bits == 2);
    assert_eq!(weight_range(0b110, 1).unwrap().max, 23); // 0..23
    assert_eq!(weight_range(0b111, 1).unwrap().max, 31); // 0..31
}

#[test]
fn quint_unpack_zero() {
    assert_eq!(unpack_quints(0), [0, 0, 0]);
}

#[test]
fn trit_unpack_range() {
    // Every 8-bit input must yield trits each in 0..=2.
    for t in 0u32..256 {
        let tr = unpack_trits(t);
        for &x in &tr {
            assert!(x <= 2, "trit {x} out of range for {t}");
        }
    }
}

#[test]
fn quint_unpack_range() {
    for q in 0u32..128 {
        let qu = unpack_quints(q);
        for &x in &qu {
            assert!(x <= 4, "quint {x} out of range for {q}");
        }
    }
}

#[test]
fn hash52_deterministic() {
    assert_eq!(hash52(0), hash52(0));
    assert_ne!(hash52(1), hash52(2));
}

#[test]
fn void_extent_constant_color() {
    // Build a void-extent block: bits[8..2]=1111111, bits[1..0]=00,
    // bits[11..10]=11, bit9=0 (LDR). Put a known UNORM16 colour.
    let mut b = [0u8; 16];
    // block mode field: bits 0..10. void-extent signature:
    //   bits[1:0]=00, bits[8:2]=1111111 -> low 9 bits = 0b1_1111_1100 = 0x1FC
    //   bits[11:10]=11 -> bits 10,11 set.
    let lo: u64 = 0x1FC | (0b11 << 10);
    // Set colours via the high 64 bits: R[79..64], G[95..80],
    // B[111..96], A[127..112]. R=0xAABB etc -> high byte is the u8.
    let r: u64 = 0x40_00; // high byte 0x40
    let g: u64 = 0x80_00; // 0x80
    let bch: u64 = 0xC0_00; // 0xC0
    let a: u64 = 0xFF_00; // 0xFF
    let hi: u64 = r | (g << 16) | (bch << 32) | (a << 48);
    b[0..8].copy_from_slice(&lo.to_le_bytes());
    b[8..16].copy_from_slice(&hi.to_le_bytes());
    let texels = decode_astc_ldr_block(&b, 4, 4);
    assert_eq!(texels.len(), 16);
    for t in texels {
        assert_eq!(t, [0x40, 0x80, 0xC0, 0xFF]);
    }
}

#[test]
fn hdr_void_extent_is_error() {
    let mut b = [0u8; 16];
    let lo: u64 = 0x1FC | (0b11 << 10) | (1 << 9); // bit9=1 => HDR
    b[0..8].copy_from_slice(&lo.to_le_bytes());
    let texels = decode_astc_ldr_block(&b, 4, 4);
    for t in texels {
        assert_eq!(t, ERROR_COLOR);
    }
}

#[test]
fn all_zero_block_is_error_or_safe() {
    // An all-zero block has block mode 0 -> reserved/illegal.
    let b = [0u8; 16];
    let texels = decode_astc_ldr_block(&b, 4, 4);
    assert_eq!(texels.len(), 16);
    for t in texels {
        assert_eq!(t, ERROR_COLOR);
    }
}

#[test]
fn arbitrary_input_never_panics() {
    // Walk a pseudo-random set of blocks across every footprint.
    let mut seed = 0x1234_5678u32;
    for &(bw, bh) in &LDR_BLOCK_FOOTPRINTS {
        for _ in 0..2000 {
            let mut b = [0u8; 16];
            for byte in b.iter_mut() {
                seed = seed.wrapping_mul(1664525).wrapping_add(1013904223);
                *byte = (seed >> 24) as u8;
            }
            let texels = decode_astc_ldr_block(&b, bw as u32, bh as u32);
            assert_eq!(texels.len(), (bw as usize) * (bh as usize));
        }
    }
}

#[test]
fn single_partition_corners_match_endpoints() {
    // Construct a 4×4, single-partition, single-plane block with a
    // 4×4 weight grid at range 0..7 (3 bits/weight → 48 weight bits,
    // satisfying the ≥24-bit ISE rule), CEM 8 (LDR RGB direct).
    // Corner texels land exactly on grid weights 0 or 7, so they
    // reproduce endpoint 0 / endpoint 1 (the LDR 8→16-bit
    // interpolation returns the endpoint byte exactly at w=0 and
    // w=64).
    let mut bb = BlockBuilder::new();
    // Block mode row "DP P W W H H ρ0 0 0 ρ2 ρ1": Wwidth=W+4,
    // Wheight=H+2. For 4×4: W=0, H=2. Range 0..7 is (P=0, ρ=111):
    //   ρ2=1, ρ1=1, ρ0=1.
    // Layout bits:
    //   bit10=DP=0, bit9=P=0, bits8..7=W=00, bits6..5=H=10,
    //   bit4=ρ0=1, bits3..2=00, bit1=ρ2=1, bit0=ρ1=1.
    bb.set(0, 1, 1); // ρ1 = 1
    bb.set(1, 1, 1); // ρ2 = 1
    bb.set(2, 2, 0); // bits[3:2] = 00
    bb.set(4, 1, 1); // ρ0 = 1
    bb.set(5, 2, 0b10); // H = 2  (bits 6,5)
    bb.set(7, 2, 0b00); // W = 0  (bits 8,7)
    bb.set(9, 1, 0); // P = 0
    bb.set(10, 1, 0); // DP = 0

    // Single partition: partition-count bits [12:11] = 00.
    bb.set(11, 2, 0);
    // CEM bits [16:13] = 8.
    bb.set(13, 4, 8);
    // Colour stream starts at bit 17. CEM 8 needs 6 integers.
    // With a generous budget the picker selects 0..255 (8 bits each).
    // Provide endpoints: e0 = (10, 20, 30), e1 = (200, 210, 220).
    // Mode-8 ordering is (v0=r0, v1=r1, v2=g0, v3=g1, v4=b0, v5=b1)
    // with an s0/s1 branch; pick s1>=s0 so the direct branch holds.
    let vals = [10u32, 200, 20, 210, 30, 220];
    let mut pos = 17;
    for v in vals {
        bb.set(pos, 8, v);
        pos += 8;
    }
    // Weights: 4×4 grid, 3 bits each, 16 weights. Set the top-left
    // grid weight to 0 (→ e0) and the bottom-right quadrant to 7
    // (→ e1). Weight stream bit order is bit-reversed from the top
    // of the block; the BISE range here is plain 3-bit, so value i
    // occupies stream bits [3i .. 3i+2].
    for i in 0..16u32 {
        let gx = i % 4;
        let gy = i / 4;
        let w = if gx >= 2 && gy >= 2 { 7 } else { 0 };
        for k in 0..3 {
            bb.set_weight_bit(i * 3 + k, (w >> k) & 1);
        }
    }
    let block = bb.bytes();
    let texels = decode_astc_ldr_block(&block, 4, 4);
    assert_eq!(texels.len(), 16);
    // Top-left texel (0,0) maps to grid weight 0 -> endpoint 0.
    assert_eq!(&texels[0][0..3], &[10, 20, 30]);
    // Bottom-right texel (3,3) maps to grid weight 1 -> endpoint 1.
    assert_eq!(&texels[15][0..3], &[200, 210, 220]);
    assert_eq!(texels[0][3], 255);
}

#[test]
fn two_partition_routes_texels_by_pattern() {
    // A 4×4, two-partition, single-plane block with a 4×4 weight grid
    // at range 0..3 (2 bits/weight → 32 weight bits ≥ 24). All weights
    // are 0, so each texel reproduces its partition's endpoint 0. Both
    // partitions share CEM 8 (LDR RGB direct) via the selector==00
    // "single CEM" path (block bits [28..25]).
    //
    // Block mode (same DP/P/grid layout as the single-partition test,
    // 4×4 grid) but with the weight range set to 0..3 = (P=0, ρ=100):
    //   ρ2=1, ρ1=0, ρ0=0. The row is "DP P W W H H ρ0 0 0 ρ2 ρ1":
    //   bit1=ρ2=1, bit0=ρ1=0, bit4=ρ0=0, W=0, H=2.
    let mut bb = BlockBuilder::new();
    bb.set(0, 1, 0); // ρ1 = 0
    bb.set(1, 1, 1); // ρ2 = 1
    bb.set(2, 2, 0); // bits[3:2] = 00
    bb.set(4, 1, 0); // ρ0 = 0
    bb.set(5, 2, 0b10); // H = 2
    bb.set(7, 2, 0b00); // W = 0
    bb.set(9, 1, 0); // P = 0
    bb.set(10, 1, 0); // DP = 0

    // Two partitions: bits [12:11] = 01.
    bb.set(11, 2, 1);
    // Partition seed: bits [22:13] = 1 (matches the precomputed map).
    bb.set(13, 10, 1);
    // CEM selector bits [24:23] = 00 (single CEM for all partitions).
    bb.set(23, 2, 0);
    // 4-bit CEM in bits [28:25] = 8 (LDR RGB direct).
    bb.set(25, 4, 8);

    // Colour stream starts at bit 29. CEM 8 = 6 integers/partition ×
    // 2 partitions = 12 integers. Partition 0's endpoint 0 is encoded
    // by (v0,v2,v4) and partition 1's by the next group. Make the two
    // partitions clearly distinct: low values vs high values, and keep
    // s1 >= s0 so the direct (non-blue-contract) branch is taken.
    // The picker chooses the colour ISE range from the bit budget; we
    // only assert the partition *routing*, not exact bytes, so any
    // monotone value choice works. Use ascending values.
    // Determine the range the decoder will use so we can pack values.
    let weight_bits = 32u32;
    let config_bits = 29u32;
    let budget = 128 - config_bits - weight_bits;
    let range = pick_color_range(12, budget).expect("colour range");
    // Pack 12 values: partition 0 = small, partition 1 = large.
    // Mode-8 group i is (r0,r1,g0,g1,b0,b1). Endpoint0 = (r0,g0,b0) =
    // values at indices 0,2,4 within each 6-tuple.
    let p0 = [2u32, 5, 2, 5, 2, 5]; // endpoint0 ~ (2,2,2)
    let p1 = [
        range.max - 1,
        range.max,
        range.max - 1,
        range.max,
        range.max - 1,
        range.max,
    ];
    let mut seq: Vec<u32> = Vec::new();
    seq.extend_from_slice(&p0);
    seq.extend_from_slice(&p1);
    // Encode the integer sequence into the block at bit 29.
    pack_ise_into(&mut bb, 29, &seq, range);

    // All weights zero (already zero in a fresh builder).
    let block = bb.bytes();
    let texels = decode_astc_ldr_block(&block, 4, 4);
    assert_eq!(texels.len(), 16);

    // Precomputed partition map for seed=1, 4×4 small block, 2 parts.
    let map = [0u8, 1, 1, 0, 1, 1, 1, 0, 1, 1, 0, 0, 1, 1, 0, 0];
    // Each partition must decode to a single constant colour (weights
    // are 0 everywhere), and the two partition colours must differ.
    let mut c0 = None;
    let mut c1 = None;
    for (i, t) in texels.iter().enumerate() {
        match map[i] {
            0 => {
                let v = *c0.get_or_insert(*t);
                assert_eq!(*t, v, "partition 0 texel {i} not constant");
            }
            _ => {
                let v = *c1.get_or_insert(*t);
                assert_eq!(*t, v, "partition 1 texel {i} not constant");
            }
        }
    }
    let c0 = c0.unwrap();
    let c1 = c1.unwrap();
    assert_ne!(c0, c1, "the two partitions must decode to distinct colours");
    // Partition 0 is the darker endpoint, partition 1 the brighter one.
    assert!(c1[0] > c0[0] && c1[1] > c0[1] && c1[2] > c0[2]);
}

#[test]
fn dual_plane_alpha_uses_second_plane() {
    // A 4×4 dual-plane single-partition block: CEM 12 (LDR RGBA
    // direct), CCS = 3 (alpha uses weight plane 1). Plane 0 weights are
    // all 0 (→ endpoint0 for RGB), plane 1 weights are all max (→
    // endpoint1 for alpha). Verify RGB follows e0 while A follows e1,
    // proving the two planes are sampled independently.
    //
    // Use weight range 0..3 (P=0, ρ=100) so 16 grid points × 2 planes
    // × 2 bits = 64 weight bits. Block mode row "DP P W W H H ρ0 0 0
    // ρ2 ρ1" with DP=1, W=0, H=2.
    let mut bb = BlockBuilder::new();
    bb.set(0, 1, 0); // ρ1 = 0
    bb.set(1, 1, 1); // ρ2 = 1
    bb.set(2, 2, 0); // bits[3:2] = 00
    bb.set(4, 1, 0); // ρ0 = 0
    bb.set(5, 2, 0b10); // H = 2
    bb.set(7, 2, 0b00); // W = 0
    bb.set(9, 1, 0); // P = 0
    bb.set(10, 1, 1); // DP = 1 (dual plane)

    // Single partition.
    bb.set(11, 2, 0);
    // CEM bits [16:13] = 12 (LDR RGBA direct).
    bb.set(13, 4, 12);

    // CEM 12 = 8 colour integers. Colour stream starts at bit 17.
    // Mode 12 ordering is (r0,r1,g0,g1,b0,b1,a0,a1) with an s0/s1
    // branch; pick s1 >= s0 for the direct branch. Endpoint0 RGB is
    // dark, endpoint1 RGB bright; alpha e0=0x10, e1=0xF0.
    let weight_bits = 64u32;
    let config_bits = 17u32 + 2; // single partition + dual-plane CCS
    let budget = 128 - config_bits - weight_bits;
    let range = pick_color_range(8, budget).expect("colour range");
    // Choose values so s1 = r1+g1+b1 >= s0 = r0+g0+b0 (direct branch).
    let lo = 2u32.min(range.max);
    let hi = range.max;
    // (r0,r1,g0,g1,b0,b1,a0,a1)
    let seq = [lo, hi, lo, hi, lo, hi, lo, hi];
    pack_ise_into(&mut bb, 17, &seq, range);

    // CCS = 3 (alpha → plane 1). CCS sits just below the weight data
    // (no additional CEM bits for a single partition).
    let ccs_pos = (128 - weight_bits) - 2;
    bb.set(ccs_pos, 2, 3);

    // Weights: 16 grid points, 2 planes interleaved (plane0 then
    // plane1 per point), 2 bits each. plane0 = 0 (→ e0), plane1 = 3
    // (max → e1). Stream index for point i: 2*(i*2)+ for plane0,
    // plane1 follows. Value v occupies stream bits [2*v_index .. +1].
    for i in 0..16u32 {
        let idx0 = (i * 2) * 2; // plane 0 value index *2 bits
        let idx1 = (i * 2 + 1) * 2; // plane 1
                                    // plane0 weight = 0 (bits already 0)
        let _ = idx0;
        // plane1 weight = 3
        for k in 0..2 {
            bb.set_weight_bit(idx1 + k, (3 >> k) & 1);
        }
    }

    let block = bb.bytes();
    let texels = decode_astc_ldr_block(&block, 4, 4);
    assert_eq!(texels.len(), 16);
    // RGB should track endpoint0 (the dark values) since plane-0
    // weights are 0; alpha should track endpoint1 (bright) since it
    // is driven by plane 1 at max weight. The exact unquantized bytes
    // depend on the chosen range, but the relationship R,G,B < A must
    // hold for every texel.
    for t in &texels {
        assert!(
            (t[3] as u32) > (t[0] as u32),
            "alpha {} should exceed R {} (plane-1 vs plane-0)",
            t[3],
            t[0]
        );
    }
    // And RGB must be constant across the block (plane-0 weights are
    // uniformly 0).
    let first = texels[0];
    for t in &texels {
        assert_eq!(t[0..3], first[0..3], "RGB must be constant");
    }
}

#[test]
fn surface_decode_sizes_output() {
    let data = vec![0u8; 16 * 4]; // 2x2 blocks of 4x4 -> 8x8 surface
    let out = decode_astc_ldr(&data, 8, 8, 4, 4);
    assert_eq!(out.len(), 8 * 8 * 4);
}

#[test]
fn surface_decode_truncated_is_error_filled() {
    let data = vec![0u8; 8]; // not even one full block
    let out = decode_astc_ldr(&data, 4, 4, 4, 4);
    assert_eq!(out.len(), 4 * 4 * 4);
    for px in out.chunks_exact(4) {
        assert_eq!(px, ERROR_COLOR);
    }
}


/// A void-extent block of the LDR colour `c` (UNORM16 channels `c * 257`).
fn void_block(c: [u8; 4]) -> [u8; 16] {
    [
        0xFC, 0xFD, 0xFF, 0xFF, 0xFF, 0xFF, 0xFF, 0xFF, c[0], c[0], c[1], c[1], c[2], c[2], c[3],
        c[3],
    ]
}

#[test]
fn surface_places_blocks_by_footprint() {
    let mut data = Vec::new();
    data.extend_from_slice(&void_block([10, 20, 30, 255]));
    data.extend_from_slice(&void_block([200, 100, 50, 128]));
    let out = decode_astc_ldr(&data, 6, 3, 4, 4);
    assert_eq!(out.len(), 6 * 3 * 4);
    for y in 0..3usize {
        for x in 0..6usize {
            let px = &out[(y * 6 + x) * 4..(y * 6 + x) * 4 + 4];
            let want: [u8; 4] = if x < 4 { [10, 20, 30, 255] } else { [200, 100, 50, 128] };
            assert_eq!(px, want);
        }
    }
}

#[test]
fn surface_second_block_row_uses_next_blocks() {
    // 5x5 blocks over a 5x10 surface: one block per block row.
    let mut data = Vec::new();
    data.extend_from_slice(&void_block([1, 2, 3, 4]));
    data.extend_from_slice(&void_block([5, 6, 7, 8]));
    let out = decode_astc_ldr(&data, 5, 10, 5, 5);
    assert_eq!(&out[0..4], &[1, 2, 3, 4]);
    assert_eq!(&out[(4 * 5 + 4) * 4..(4 * 5 + 4) * 4 + 4], &[1, 2, 3, 4]);
    assert_eq!(&out[(5 * 5) * 4..(5 * 5) * 4 + 4], &[5, 6, 7, 8]);
    assert_eq!(&out[(9 * 5 + 4) * 4..], &[5, 6, 7, 8]);
}

#[test]
fn surface_unsupported_footprint_is_error_filled() {
    let data = void_block([9, 9, 9, 9]);
    let out = decode_astc_ldr(&data, 3, 2, 7, 7);
    assert_eq!(out.len(), 3 * 2 * 4);
    for px in out.chunks_exact(4) {
        assert_eq!(px, ERROR_COLOR);
    }
}

#[test]
fn surface_from_pixel_format() {
    let data = void_block([40, 50, 60, 70]);
    let pix = DdsPixelFormat::Astc { block_w: 4, block_h: 4 };
    let out = decode_astc_ldr_surface(pix, &data, 2, 2).expect("astc layout");
    assert_eq!(out, vec![40, 50, 60, 70, 40, 50, 60, 70, 40, 50, 60, 70, 40, 50, 60, 70]);
    assert!(decode_astc_ldr_surface(DdsPixelFormat::Bc1, &data, 2, 2).is_none());
}

#[test]
fn void_extent_block_decodes_to_its_colour() {
    let texels = decode_astc_ldr_block(&void_block([0x12, 0x34, 0x56, 0x78]), 6, 5);
    assert_eq!(texels.len(), 30);
    for t in texels {
        assert_eq!(t, [0x12, 0x34, 0x56, 0x78]);
    }
}

#[test]
fn encode_constant_block_is_exact_void_extent() {
    // A constant-colour block must round-trip byte-exact via void
    // extent for every footprint.
    for &(bw, bh) in &LDR_BLOCK_FOOTPRINTS {
        let (bw, bh) = (bw as u32, bh as u32);
        let color = [37u8, 211, 5, 255];
        let texels = vec![color; (bw * bh) as usize];
        let block = encode_astc_ldr_block(&texels, bw, bh);
        let out = decode_astc_ldr_block(&block, bw, bh);
        for t in &out {
            assert_eq!(*t, color, "constant {bw}x{bh}");
        }
    }
}

#[test]
fn encode_two_color_4x4_roundtrips_endpoints() {
    // A 4×4 block split into a dark half and a bright half (exact
    // 1:1 weight grid) should reconstruct both colours closely.
    let dark = [20u8, 30, 40, 255];
    let bright = [200u8, 190, 180, 255];
    let mut texels = vec![dark; 16];
    for (i, t) in texels.iter_mut().enumerate() {
        if i % 4 >= 2 {
            *t = bright;
        }
    }
    let block = encode_astc_ldr_block(&texels, 4, 4);
    let out = decode_astc_ldr_block(&block, 4, 4);
    // Each texel must be within a small tolerance of its source.
    for (i, t) in out.iter().enumerate() {
        let src = texels[i];
        for c in 0..3 {
            let d = (t[c] as i32 - src[c] as i32).abs();
            assert!(d <= 12, "texel {i} ch {c}: got {} want {}", t[c], src[c]);
        }
    }
}

#[test]
fn encode_luma_ramp_roundtrips_within_tolerance() {
    // A single-subset encoder reconstructs every texel on the line
    // between the two block endpoints, so it represents a
    // *collinear* (luminance) gradient well. Build a grey ramp where
    // all channels move together and assert a small mean error.
    let (w, h) = (16u32, 16u32);
    let mut rgba = vec![0u8; (w * h * 4) as usize];
    for y in 0..h {
        for x in 0..w {
            let o = ((y * w + x) * 4) as usize;
            let v = (((x + y) * 255) / (w + h - 2)) as u8;
            rgba[o] = v;
            rgba[o + 1] = v;
            rgba[o + 2] = v;
            rgba[o + 3] = 255;
        }
    }
    for &(bw, bh) in &[(4u8, 4u8), (8, 8), (6, 6), (5, 5)] {
        let enc = encode_astc_ldr(&rgba, w, h, bw as u32, bh as u32);
        assert!(!enc.is_empty());
        let dec = decode_astc_ldr(&enc, w, h, bw as u32, bh as u32);
        let mut sum: u64 = 0;
        for i in 0..(w * h) as usize {
            for c in 0..3 {
                let a = rgba[i * 4 + c] as i64;
                let b = dec[i * 4 + c] as i64;
                sum += (a - b).unsigned_abs();
            }
        }
        let mae = sum as f64 / ((w * h * 3) as f64);
        assert!(mae < 16.0, "{bw}x{bh} MAE {mae} too high");
    }
}

#[test]
fn encode_solid_surface_is_exact() {
    // A solid-colour surface must round-trip byte-exact (void extent)
    // at every footprint.
    let (w, h) = (12u32, 12u32);
    let color = [90u8, 17, 240, 255];
    let mut rgba = vec![0u8; (w * h * 4) as usize];
    for px in rgba.chunks_exact_mut(4) {
        px.copy_from_slice(&color);
    }
    for &(bw, bh) in &LDR_BLOCK_FOOTPRINTS {
        let enc = encode_astc_ldr(&rgba, w, h, bw as u32, bh as u32);
        let dec = decode_astc_ldr(&enc, w, h, bw as u32, bh as u32);
        for px in dec.chunks_exact(4) {
            assert_eq!(px, color, "{bw}x{bh} solid not exact");
        }
    }
}

#[test]
fn encode_alpha_block_uses_rgba_mode() {
    // A block with varying alpha must round-trip alpha too (CEM 12).
    let mut texels = vec![[10u8, 20, 30, 0]; 16];
    for (i, t) in texels.iter_mut().enumerate() {
        t[3] = (i * 16) as u8;
    }
    let block = encode_astc_ldr_block(&texels, 4, 4);
    let out = decode_astc_ldr_block(&block, 4, 4);
    for (i, t) in out.iter().enumerate() {
        let want = texels[i][3] as i32;
        let got = t[3] as i32;
        assert!((got - want).abs() <= 20, "alpha {i}: got {got} want {want}");
    }
}

#[test]
fn encode_large_footprint_roundtrips() {
    // Footprints over 64 texels use a sub-sampled weight grid; ensure
    // they still produce a decodable, reasonably-close result.
    let (w, h) = (24u32, 24u32);
    let mut rgba = vec![0u8; (w * h * 4) as usize];
    for y in 0..h {
        for x in 0..w {
            let o = ((y * w + x) * 4) as usize;
            rgba[o] = (x * 10) as u8;
            rgba[o + 1] = (y * 10) as u8;
            rgba[o + 2] = 128;
            rgba[o + 3] = 255;
        }
    }
    for &(bw, bh) in &[(12u8, 12u8), (10, 10), (10, 8)] {
        let enc = encode_astc_ldr(&rgba, w, h, bw as u32, bh as u32);
        let dec = decode_astc_ldr(&enc, w, h, bw as u32, bh as u32);
        // No texel should be the error colour (a decodable block).
        let err = dec.chunks_exact(4).filter(|p| *p == ERROR_COLOR).count();
        assert_eq!(err, 0, "{bw}x{bh} produced error-colour texels");
    }
}

#[test]
fn encode_block_never_panics_on_random_texels() {
    // Deterministic pseudo-random texels across every footprint.
    let mut state = 0x1234_5678u32;
    let mut next = || {
        state ^= state << 13;
        state ^= state >> 17;
        state ^= state << 5;
        state
    };
    for &(bw, bh) in &LDR_BLOCK_FOOTPRINTS {
        let (bw, bh) = (bw as u32, bh as u32);
        for _ in 0..8 {
            let texels: Vec<[u8; 4]> = (0..bw * bh)
                .map(|_| {
                    let v = next();
                    [v as u8, (v >> 8) as u8, (v >> 16) as u8, (v >> 24) as u8]
                })
                .collect();
            let block = encode_astc_ldr_block(&texels, bw, bh);
            // Decoding the produced block must not yield error colour
            // for these legal blocks.
            let out = decode_astc_ldr_block(&block, bw, bh);
            assert_eq!(out.len(), (bw * bh) as usize);
        }
    }
}

#[test]
fn encode_two_subset_beats_single_on_split_block() {
    // A 4×4 block whose left half is one colour line and right half a
    // very different one is poorly served by a single endpoint pair.
    // The full encoder (which tries 2-subset) must reconstruct it at
    // least as well as the single-subset path, and strictly better on
    // this adversarial case.
    let red = [220u8, 20, 20, 255];
    let blue = [20u8, 20, 220, 255];
    let mut texels = vec![red; 16];
    for (i, t) in texels.iter_mut().enumerate() {
        if i % 4 >= 2 {
            *t = blue;
        }
    }
    let full = encode_astc_ldr_block(&texels, 4, 4);
    let single = encode_single_subset(&texels, 4, 4);
    let full_sad = block_sad(&full, &texels, 4, 4);
    let single_sad = block_sad(&single, &texels, 4, 4);
    assert!(
        full_sad <= single_sad,
        "full {full_sad} should not exceed single {single_sad}"
    );
    // 2-subset must give a meaningful improvement on this split block
    // (at least 20% lower error than the single-pair fit).
    assert!(
        full_sad * 5 < single_sad * 4,
        "2-subset should beat single by >20%: full {full_sad} single {single_sad}"
    );
}

#[test]
fn encode_dual_plane_helps_uncorrelated_alpha() {
    // RGB is a smooth ramp one way, alpha a smooth ramp the *other*
    // way — a single weight per texel (single-plane) can't track both.
    // A dual-plane block gives alpha its own weight axis, so the full
    // encoder must beat the single-subset fit here.
    let mut texels = vec![[0u8; 4]; 16];
    for (i, t) in texels.iter_mut().enumerate() {
        let x = (i % 4) as u8;
        let y = (i / 4) as u8;
        let v = x * 60; // RGB increases with x
        t[0] = v;
        t[1] = v;
        t[2] = v;
        t[3] = 255 - y * 60; // alpha decreases with y
    }
    let full = encode_astc_ldr_block(&texels, 4, 4);
    let single = encode_single_subset(&texels, 4, 4);
    let full_sad = block_sad(&full, &texels, 4, 4);
    let single_sad = block_sad(&single, &texels, 4, 4);
    assert!(
        full_sad < single_sad,
        "dual-plane should beat single: full {full_sad} single {single_sad}"
    );
}

#[test]
fn encode_dual_plane_block_is_decodable() {
    let mut texels = vec![[40u8, 40, 40, 0]; 16];
    for (i, t) in texels.iter_mut().enumerate() {
        t[3] = (i * 16) as u8;
    }
    if let Some(block) = encode_dual_plane(&texels, 4, 4) {
        let out = decode_astc_ldr_block(&block, 4, 4);
        for t in &out {
            assert_ne!(*t, ERROR_COLOR, "dual-plane decoded to error colour");
        }
    }
}

#[test]
fn encode_two_subset_block_is_decodable() {
    // The 2-subset path must produce a legal, non-error block.
    let red = [200u8, 30, 30, 255];
    let green = [30u8, 200, 30, 255];
    let mut texels = vec![red; 16];
    for (i, t) in texels.iter_mut().enumerate() {
        if i >= 8 {
            *t = green;
        }
    }
    if let Some(block) = encode_two_subset(&texels, 4, 4, 1) {
        let out = decode_astc_ldr_block(&block, 4, 4);
        for t in &out {
            assert_ne!(*t, ERROR_COLOR, "2-subset block decoded to error colour");
        }
    }
}

#[test]
fn encode_unsupported_footprint_gives_black_void_extent() {
    let texels = vec![[1u8, 2, 3, 4]; 49];
    let block = encode_astc_ldr_block(&texels, 7, 7);
    assert_eq!(block, void_block([0, 0, 0, 255]));
}

#[test]
fn encode_constant_block_is_the_void_extent_block() {
    let texels = vec![[9u8, 8, 7, 6]; 30];
    assert_eq!(encode_astc_ldr_block(&texels, 6, 5), void_block([9, 8, 7, 6]));
}

#[test]
fn encode_surface_sizes_and_rejects() {
    let rgba = vec![7u8; 10 * 6 * 4];
    assert_eq!(encode_astc_ldr(&rgba, 10, 6, 4, 4).len(), 3 * 2 * 16);
    assert!(encode_astc_ldr(&rgba, 10, 6, 7, 7).is_empty());
    assert!(encode_astc_ldr(&rgba, 0, 6, 4, 4).is_empty());
    let pix = DdsPixelFormat::Astc { block_w: 5, block_h: 5 };
    let enc = encode_astc_ldr_surface(pix, &rgba, 10, 6).expect("astc layout");
    assert_eq!(enc.len(), 2 * 2 * 16);
    assert_eq!(&enc[0..16], &void_block([7, 7, 7, 7]));
    assert!(encode_astc_ldr_surface(DdsPixelFormat::Bc3, &rgba, 10, 6).is_none());
}

#[test]
fn block_sad_counts_channel_differences() {
    let texels = vec![[10u8, 20, 30, 40]; 16];
    assert_eq!(block_sad(&void_block([10, 20, 30, 40]), &texels, 4, 4), 0);
    assert_eq!(block_sad(&void_block([11, 20, 28, 40]), &texels, 4, 4), 16 * 3);
}

#[test]
fn encode_three_subset_refuses_translucent_block() {
    let mut texels = vec![[10u8, 20, 30, 255]; 16];
    texels[5] = [200, 20, 30, 128];
    texels[10] = [10, 220, 30, 255];
    for seed in [0u32, 1, 2, 7, 13] {
        assert_eq!(encode_three_subset(&texels, 4, 4, seed), None);
    }
}

#[test]
fn encode_two_subset_needs_both_partitions_filled_and_gives_decodable_block() {
    let mut texels = vec![[0u8, 0, 0, 255]; 16];
    for t in texels.iter_mut().skip(8) {
        *t = [255, 255, 255, 255];
    }
    let mut found = false;
    for seed in 0u32..64 {
        if let Some(block) = encode_two_subset(&texels, 4, 4, seed) {
            found = true;
            let out = decode_astc_ldr_block(&block, 4, 4);
            assert!(out.iter().all(|p| *p != ERROR_COLOR));
        }
    }
    assert!(found);
}

/// The first, in the encoder's order, of the candidate blocks with the
/// least sum of absolute differences.
fn least_sad_try(texels: &[[u8; 4]], bw: u32, bh: u32) -> [u8; 16] {
    let mut tries: Vec<[u8; 16]> = vec![encode_single_subset(texels, bw, bh)];
    if texels.iter().any(|t| t[3] != texels[0][3]) {
        tries.extend(encode_dual_plane(texels, bw, bh));
    }
    for &seed in SEEDS.iter() {
        tries.extend(encode_two_subset(texels, bw, bh, seed));
    }
    if texels.iter().all(|t| t[3] == 255) {
        for &seed in SEEDS.iter() {
            tries.extend(encode_three_subset(texels, bw, bh, seed));
        }
    }
    let mut best = tries[0];
    for t in tries.iter().skip(1) {
        if block_sad(t, texels, bw, bh) < block_sad(&best, texels, bw, bh) {
            best = *t;
        }
    }
    best
}

#[test]
fn block_encoder_keeps_first_least_sad_try() {
    let mut texels: Vec<[u8; 4]> = Vec::new();
    for i in 0..36u32 {
        let x = (i % 6) as u8;
        let y = (i / 6) as u8;
        texels.push([x * 40, 255 - y * 30, (x * y) * 5, 255]);
    }
    assert_eq!(encode_astc_ldr_block(&texels, 6, 6), least_sad_try(&texels, 6, 6));
    let mut with_alpha = texels.clone();
    for (i, t) in with_alpha.iter_mut().enumerate() {
        t[3] = (i * 7) as u8;
    }
    assert_eq!(encode_astc_ldr_block(&with_alpha, 6, 6), least_sad_try(&with_alpha, 6, 6));
}
