use oxideav_dds::small_float::{half_to_f32_bits, packed_float_bits};

#[test]
fn half_bits_widen_to_binary32() {
    assert_eq!(half_to_f32_bits(0x3c00), 0x3f80_0000); // 1.0
    assert_eq!(half_to_f32_bits(0xc000), 0xc000_0000); // -2.0
    assert_eq!(half_to_f32_bits(0x0000), 0x0000_0000);
    assert_eq!(half_to_f32_bits(0x8000), 0x8000_0000); // -0.0
    assert_eq!(half_to_f32_bits(0x0001), 0x3380_0000); // 2^-24
    assert_eq!(half_to_f32_bits(0x03ff), 0x387f_c000); // largest subnormal
    assert_eq!(half_to_f32_bits(0x7bff), 0x477f_e000); // 65504
    assert_eq!(half_to_f32_bits(0x7c00), 0x7f80_0000); // +inf
    assert_eq!(half_to_f32_bits(0xfc00), 0xff80_0000); // -inf
    assert_eq!(half_to_f32_bits(0x7e00), 0x7fc0_0000); // NaN
}

#[test]
fn half_bits_match_std_conversion() {
    for h in [0x3555u16, 0x0200, 0x4248, 0xb3ff, 0x0401] {
        let bits = half_to_f32_bits(h);
        let sign = if h & 0x8000 != 0 { -1.0f64 } else { 1.0 };
        let exp = ((h >> 10) & 0x1f) as i32;
        let mant = (h & 0x3ff) as f64;
        let v = if exp == 0 {
            sign * mant * 2f64.powi(-24)
        } else {
            sign * (1.0 + mant / 1024.0) * 2f64.powi(exp - 15)
        };
        assert_eq!(f32::from_bits(bits) as f64, v);
    }
}

#[test]
fn packed_float_bits_widen_to_binary32() {
    assert_eq!(packed_float_bits(0x3c0, 6), 0x3f80_0000); // 1.0 in 11 bits
    assert_eq!(packed_float_bits(0x1e0, 5), 0x3f80_0000); // 1.0 in 10 bits
    assert_eq!(packed_float_bits(1, 6), 0x3580_0000); // 2^-20
    assert_eq!(packed_float_bits(0x7c0, 6), 0x7f80_0000); // inf
    assert_eq!(packed_float_bits(0, 5), 0);
}
