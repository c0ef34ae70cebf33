use oxideav_dds::bc6h_enc::{
    encode_delta, finish_sf16, finish_uf16, half_sf16_to_signed_magnitude, quantize_half_sf16,
    quantize_half_uf16, signed_magnitude_to_half, target_unq_uf16, unq_to_q_uf16, unquantize_sf16,
    unquantize_uf16,
};

/// quantize_half_uf16 round-trips zero exactly.
#[test]
fn quantize_uf16_zero() {
    assert_eq!(quantize_half_uf16(0, 10), 0);
    // Max encodable input maps to max-q.
    assert_eq!(quantize_half_uf16(0xffff, 10), 0x3ff);
}

/// Round 207 — `target_unq_uf16` inverts the decoder's `finish_uf16`
/// non-linearity within ±1 LSB across the half range. Confirms the
/// helper used by the unq-space LSQ to set per-pixel targets.
#[test]
fn target_unq_uf16_round_trips_finish() {
    for h in [
        0x0000u16, 0x0001, 0x00ff, 0x0400, 0x0800, 0x1000, 0x2000, 0x3000, 0x3800, 0x3c00,
        0x4000, 0x5000, 0x6000, 0x7000, 0x7800, 0x7bff,
    ] {
        let t = target_unq_uf16(h);
        let back = finish_uf16(t);
        let err = (h as i32 - back as i32).unsigned_abs();
        assert!(
            err <= 1,
            "target_unq_uf16({:#x}) = {} → finish_uf16 → {:#x} (err {})",
            h,
            t,
            back,
            err
        );
    }
}

/// Round 207 — `unq_to_q_uf16` is the encoder inverse of
/// `unquantize_uf16`: round-trip of `unq → q → unquantize → unq`
/// across the {6, 7, 8, 9, 10, 11} BC6H endpoint precisions yields
/// the original unq within the per-prec lattice spacing.
#[test]
fn unq_to_q_uf16_round_trips_unquantize() {
    for prec in [6u32, 7, 8, 9, 10, 11] {
        let lattice = 1u32 << (16 - prec); // step between adjacent unq values
        for unq_target in [0i32, 0x1000, 0x4000, 0x8000, 0xc000, 0xffff] {
            let q = unq_to_q_uf16(unq_target, prec);
            let unq_back = unquantize_uf16(q, prec);
            // Boundary q=0 / q=max round to {0, 0xffff} (exact);
            // interior q rounds to the lattice nearest unq_target.
            let err = (unq_back - unq_target).unsigned_abs();
            assert!(
                err <= lattice,
                "prec={} unq={} → q={} → unq_back={} (err {} > lattice {})",
                prec,
                unq_target,
                q,
                unq_back,
                err,
                lattice
            );
        }
    }
}

/// encode_delta: zero delta encodes as 0.
#[test]
fn encode_delta_zero() {
    assert_eq!(encode_delta(100, 100, 10, 9), Some(0));
}

/// encode_delta: small positive delta within range.
#[test]
fn encode_delta_small_positive() {
    // q0=100, q1=110 → delta=+10. 9-bit signed range is [-256, 255].
    // 10 fits; encoded raw should be 10.
    assert_eq!(encode_delta(100, 110, 10, 9), Some(10));
}

/// encode_delta: small negative delta wraps under the prec mask.
#[test]
fn encode_delta_small_negative() {
    // q0=100, q1=90 → delta=-10. 9-bit dmask=0x1ff. Raw = (-10 & 0x1ff) = 502.
    assert_eq!(encode_delta(100, 90, 10, 9), Some(0x1f6));
}

/// encode_delta: out-of-range overflow returns None.
#[test]
fn encode_delta_overflow_returns_none() {
    // q0=0, q1=512 with delta_bits=9. Signed range is [-256,255]; 512 > 255.
    assert_eq!(encode_delta(0, 512, 10, 9), None);
}

/// half_sf16_to_signed_magnitude / signed_magnitude_to_half round-trip.
/// Negative zero (`0x8000`) collapses to +0 because sign-magnitude
/// integer 0 has no sign bit; that's the IEEE-equivalent value.
#[test]
fn half_sf16_signed_magnitude_roundtrip() {
    for h in [0x0000u16, 0x3c00, 0x3800, 0x7bff, 0x8001, 0xbc00, 0xfbff] {
        let sm = half_sf16_to_signed_magnitude(h);
        let back = signed_magnitude_to_half(sm);
        assert_eq!(h, back, "roundtrip {:#x} -> {} -> {:#x}", h, sm, back);
    }
    // Negative zero: signed-magnitude integer 0 carries no sign,
    // so the round-trip yields the IEEE-equivalent +0.
    assert_eq!(
        signed_magnitude_to_half(half_sf16_to_signed_magnitude(0x8000)),
        0x0000
    );
}

/// SF16 quantize then unquantize then finish reproduces the input
/// half within ~1 LSB for typical mid-range values.
#[test]
fn quantize_sf16_roundtrip_midrange() {
    // Half(0.5) = 0x3800 (positive); half(-0.5) = 0xb800.
    for h in [0x3800u16, 0x3c00u16, 0x4400u16, 0xb800u16, 0xbc00u16] {
        let s = half_sf16_to_signed_magnitude(h);
        let q = quantize_half_sf16(s, 10);
        let unq = unquantize_sf16(q, 10);
        let back = finish_sf16(unq);
        let s_back = half_sf16_to_signed_magnitude(back);
        // Should be within ~1% relative error after the 31/32 finalise.
        let abs_err = (s - s_back).unsigned_abs();
        assert!(
            abs_err < 200,
            "SF16 roundtrip {:#x}: orig sm={} -> q={} -> unq={} -> back={:#x} (sm={}) abs_err={}",
            h,
            s,
            q,
            unq,
            back,
            s_back,
            abs_err
        );
    }
}

#[test]
fn unquantize_uf16_exact_values() {
    assert_eq!(unquantize_uf16(0, 10), 0);
    assert_eq!(unquantize_uf16(1, 10), 96);
    assert_eq!(unquantize_uf16(512, 10), 32800);
    assert_eq!(unquantize_uf16(1023, 10), 0xffff);
    assert_eq!(unquantize_uf16(1234, 16), 1234);
}

#[test]
fn finish_uf16_scales_and_saturates() {
    assert_eq!(finish_uf16(-5), 0);
    assert_eq!(finish_uf16(64), 31);
    assert_eq!(finish_uf16(0xffff), 31743);
    assert_eq!(finish_uf16(0x30000), 0xffff);
}

#[test]
fn target_unq_uf16_exact_values() {
    assert_eq!(target_unq_uf16(0), 0);
    assert_eq!(target_unq_uf16(31), 65);
    assert_eq!(target_unq_uf16(0xffff), 0xffff);
}

#[test]
fn unq_to_q_uf16_boundaries() {
    assert_eq!(unq_to_q_uf16(-7, 10), 0);
    assert_eq!(unq_to_q_uf16(0x12345, 10), 1023);
    assert_eq!(unq_to_q_uf16(40000, 16), 40000);
    assert_eq!(unq_to_q_uf16(40000, 15), 32767);
    // 96 is the exact image of q = 1 at 10 bits.
    assert_eq!(unq_to_q_uf16(96, 10), 1);
}

#[test]
fn quantize_half_uf16_inverts_forward_image() {
    // q = 512 at 10 bits unquantizes to 32800, which finalises to 15887.
    assert_eq!(quantize_half_uf16(15887, 10), 512);
}

#[test]
fn encode_delta_wraps_to_endpoint_precision() {
    // Precision narrower than the field: the delta keeps only `prec` bits.
    assert_eq!(encode_delta(0, 3, 1, 9), Some(1));
    assert_eq!(encode_delta(10, 2, 3, 9), Some(0));
    assert_eq!(encode_delta(0, 255, 10, 9), Some(255));
    assert_eq!(encode_delta(256, 0, 10, 9), Some(256));
    assert_eq!(encode_delta(257, 0, 10, 9), None);
}

#[test]
fn signed_pipeline_exact_values() {
    assert_eq!(unquantize_sf16(-5, 10), -352);
    assert_eq!(unquantize_sf16(511, 10), 0x7fff);
    assert_eq!(unquantize_sf16(-9, 16), -9);
    assert_eq!(finish_sf16(-100), 0x8000 + 96);
    assert_eq!(finish_sf16(0x10000), 0x7fff);
    assert_eq!(signed_magnitude_to_half(-40000), 0xffff);
    assert_eq!(signed_magnitude_to_half(12), 12);
    assert_eq!(half_sf16_to_signed_magnitude(0x8005), -5);
    assert_eq!(quantize_half_sf16(0, 10), 0);
}
