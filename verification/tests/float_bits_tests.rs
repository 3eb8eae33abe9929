use borsh_serde_adapter::float_bits::{
    double_is_finite, double_is_nan, narrow, signed_to_double, single_is_finite, single_is_nan,
    unsigned_to_double, widen,
};

fn next(state: &mut u64) -> u64 {
    // a fixed sequence of scattered bit patterns
    *state = state.wrapping_mul(6364136223846793005).wrapping_add(1442695040888963407);
    let mut x = *state;
    x ^= x >> 33;
    x = x.wrapping_mul(0xff51afd7ed558ccd);
    x ^= x >> 33;
    x
}

fn check_narrow(bits: u64) {
    let value = f64::from_bits(bits);
    if value.is_nan() {
        assert!(f32::from_bits(narrow(bits)).is_nan(), "{bits:#x}");
    } else {
        assert_eq!(narrow(bits), (value as f32).to_bits(), "{bits:#x}");
    }
}

fn check_widen(bits: u32) {
    let value = f32::from_bits(bits);
    if !value.is_nan() {
        assert_eq!(widen(bits), (value as f64).to_bits(), "{bits:#x}");
    }
}

#[test]
fn widen_is_the_hardware_conversion() {
    for bits in [
        0u32,
        0x8000_0000,
        1,
        2,
        3,
        0x7f_ffff,
        0x40_0000,
        0x80_0000,
        0x80_0001,
        0x3f80_0000,
        0x7f7f_ffff,
        0xff7f_ffff,
        0x7f80_0000,
        0xff80_0000,
        0x0000_0100,
        0x8000_0001,
    ] {
        check_widen(bits);
    }
    assert_eq!(widen(f32::MIN.to_bits()), (f32::MIN as f64).to_bits());
    assert_eq!(widen(f32::MAX.to_bits()), (f32::MAX as f64).to_bits());
    assert_eq!(widen(1.5f32.to_bits()), 1.5f64.to_bits());
    let mut state = 7;
    for _ in 0..400_000 {
        check_widen(next(&mut state) as u32);
    }
    // every subnormal exponent
    for shift in 0..23 {
        check_widen(1 << shift);
        check_widen((1 << shift) | 1);
        check_widen(0x8000_0000 | (1 << shift));
    }
}

#[test]
fn narrow_is_the_hardware_conversion() {
    for value in [
        0.0f64,
        -0.0,
        1.0,
        -1.0,
        1.5,
        0.1,
        1e-40,
        1e-45,
        1.4e-45,
        0.7e-45,
        0.700649232162409e-45,
        2.1e-45,
        1e-46,
        1e-50,
        1.1754943508222875e-38,
        1.1754942106924411e-38,
        1.17549435e-38,
        3.4028234663852886e38,
        3.4028235677973366e38,
        3.4028235677973362e38,
        3.402823466385289e38,
        3.5e38,
        1e39,
        1e300,
        f64::MAX,
        f64::MIN,
        f64::MIN_POSITIVE,
        5e-324,
        16777216.0,
        16777217.0,
        16777218.0,
        16777219.0,
        f64::INFINITY,
        f64::NEG_INFINITY,
        f64::NAN,
    ] {
        check_narrow(value.to_bits());
        check_narrow((-value).to_bits());
    }
    let mut state = 11;
    for _ in 0..400_000 {
        check_narrow(next(&mut state));
    }
    // numbers near the binary32 range, where rounding matters
    let mut state = 13;
    for _ in 0..400_000 {
        let raw = next(&mut state);
        let exponent = 1023 - 160 + (raw >> 52) % 300;
        let bits = (raw & 0x800f_ffff_ffff_ffff) | (exponent << 52);
        check_narrow(bits);
        // ties and their neighbours
        let tie = (bits & !0x1fff_ffff) | 0x1000_0000;
        check_narrow(tie);
        check_narrow(tie - 1);
        check_narrow(tie + 1);
    }
}

#[test]
fn every_single_is_narrowed_back() {
    let mut state = 17;
    for _ in 0..400_000 {
        let bits = next(&mut state) as u32;
        if !single_is_nan(bits) {
            assert_eq!(narrow(widen(bits)), bits, "{bits:#x}");
        }
    }
    for bits in [0u32, 1, 0x7f_ffff, 0x80_0000, 0x7f7f_ffff, 0x7f80_0000, 0xff80_0000] {
        assert_eq!(narrow(widen(bits)), bits);
    }
}

#[test]
fn integers_become_the_nearest_double() {
    for n in [
        0u64,
        1,
        2,
        3,
        255,
        (1 << 52) - 1,
        1 << 52,
        (1 << 52) + 1,
        (1 << 53) - 1,
        1 << 53,
        (1 << 53) + 1,
        (1 << 53) + 2,
        (1 << 53) + 3,
        (1 << 54) + 2,
        (1 << 54) + 6,
        (1 << 63) - 1,
        1 << 63,
        (1 << 63) + 1024,
        (1 << 63) + 1025,
        (1 << 63) + 3072,
        u64::MAX,
        u64::MAX - 1023,
        u64::MAX - 1024,
        u64::MAX - 2048,
    ] {
        assert_eq!(unsigned_to_double(n), (n as f64).to_bits(), "{n}");
    }
    for n in [0i64, 1, -1, i64::MIN, i64::MAX, i64::MIN + 1, -(1 << 53) - 1, (1 << 53) + 1, -255] {
        assert_eq!(signed_to_double(n), (n as f64).to_bits(), "{n}");
    }
    let mut state = 19;
    for _ in 0..400_000 {
        let n = next(&mut state);
        let shifted = n >> (next(&mut state) % 64);
        assert_eq!(unsigned_to_double(n), (n as f64).to_bits(), "{n}");
        assert_eq!(unsigned_to_double(shifted), (shifted as f64).to_bits(), "{shifted}");
        assert_eq!(signed_to_double(n as i64), (n as i64 as f64).to_bits(), "{n}");
        assert_eq!(
            signed_to_double(-(shifted as i64 >> 1)),
            (-(shifted as i64 >> 1) as f64).to_bits()
        );
    }
}

#[test]
fn not_a_number_and_infinity_are_told_apart() {
    assert!(single_is_nan(f32::NAN.to_bits()));
    assert!(single_is_nan(0x7f80_0001));
    assert!(single_is_nan(0xffff_ffff));
    assert!(!single_is_nan(f32::INFINITY.to_bits()));
    assert!(!single_is_nan(f32::MAX.to_bits()));
    assert!(!single_is_nan(0));
    assert!(!single_is_finite(f32::INFINITY.to_bits()));
    assert!(!single_is_finite(f32::NEG_INFINITY.to_bits()));
    assert!(!single_is_finite(f32::NAN.to_bits()));
    assert!(single_is_finite(f32::MAX.to_bits()));
    assert!(single_is_finite(f32::MIN.to_bits()));
    assert!(double_is_nan(f64::NAN.to_bits()));
    assert!(double_is_nan(0x7ff0_0000_0000_0001));
    assert!(!double_is_nan(f64::INFINITY.to_bits()));
    assert!(!double_is_nan(0));
    assert!(!double_is_finite(f64::INFINITY.to_bits()));
    assert!(!double_is_finite(f64::NEG_INFINITY.to_bits()));
    assert!(!double_is_finite(f64::NAN.to_bits()));
    assert!(double_is_finite(f64::MAX.to_bits()));
    assert!(double_is_finite(f64::MIN.to_bits()));
    let mut state = 23;
    for _ in 0..100_000 {
        let bits = next(&mut state);
        assert_eq!(double_is_nan(bits), f64::from_bits(bits).is_nan());
        assert_eq!(double_is_finite(bits), f64::from_bits(bits).is_finite());
        assert_eq!(single_is_nan(bits as u32), f32::from_bits(bits as u32).is_nan());
        assert_eq!(single_is_finite(bits as u32), f32::from_bits(bits as u32).is_finite());
    }
}
