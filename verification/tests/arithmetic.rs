use mandel::binary32::Binary32;

fn soft(x: f32) -> Binary32 {
    Binary32::from_bits(x.to_bits())
}

fn same(got: Binary32, want: f32) -> bool {
    if want.is_nan() {
        got.is_nan()
    } else {
        got.to_bits() == want.to_bits()
    }
}

fn next(state: &mut u64) -> u32 {
    *state = state.wrapping_mul(6364136223846793005).wrapping_add(1442695040888963407);
    (*state >> 32) as u32
}

fn sample(state: &mut u64) -> f32 {
    let r = next(state);
    let bits = next(state);
    match r % 8 {
        0 => f32::from_bits(bits & 0x807f_ffff),
        1 => f32::from_bits((bits & 0x807f_ffff) | 0x3f80_0000),
        2 => f32::from_bits((bits & 0x80ff_ffff) | 0x7f00_0000),
        3 => f32::from_bits((bits & 0x83ff_ffff) | 0x3c00_0000),
        4 => f32::from_bits(bits & 0x8000_0000),
        _ => f32::from_bits(bits),
    }
}

#[test]
fn products_match_the_hardware() {
    let mut state: u64 = 1;
    for _ in 0..200000 {
        let a = sample(&mut state);
        let b = sample(&mut state);
        let got = soft(a).times(soft(b));
        assert!(same(got, a * b), "{:?} * {:?}: {:#x} != {:#x}", a, b, got.to_bits(), (a * b).to_bits());
    }
}

#[test]
fn sums_match_the_hardware() {
    let mut state: u64 = 2;
    for _ in 0..200000 {
        let a = sample(&mut state);
        let b = sample(&mut state);
        let got = soft(a).plus(soft(b));
        assert!(same(got, a + b), "{:?} + {:?}: {:#x} != {:#x}", a, b, got.to_bits(), (a + b).to_bits());
    }
}

#[test]
fn differences_match_the_hardware() {
    let mut state: u64 = 3;
    for _ in 0..200000 {
        let a = sample(&mut state);
        let b = sample(&mut state);
        let got = soft(a).minus(soft(b));
        assert!(same(got, a - b), "{:?} - {:?}: {:#x} != {:#x}", a, b, got.to_bits(), (a - b).to_bits());
    }
}

#[test]
fn quotients_match_the_hardware() {
    let mut state: u64 = 4;
    for _ in 0..200000 {
        let a = sample(&mut state);
        let b = sample(&mut state);
        let got = soft(a).divided_by(soft(b));
        assert!(same(got, a / b), "{:?} / {:?}: {:#x} != {:#x}", a, b, got.to_bits(), (a / b).to_bits());
    }
}

#[test]
fn integers_convert_as_the_hardware_converts_them() {
    let mut state: u64 = 5;
    for v in 0..70000u32 {
        assert_eq!(Binary32::from_u32(v).to_bits(), (v as f32).to_bits());
    }
    for _ in 0..200000 {
        let v = next(&mut state);
        assert_eq!(Binary32::from_u32(v).to_bits(), (v as f32).to_bits(), "{}", v);
    }
    assert_eq!(Binary32::from_u32(u32::MAX).to_bits(), (u32::MAX as f32).to_bits());
    assert_eq!(Binary32::from_u32(16_777_217).to_bits(), 16_777_216f32.to_bits());
    assert_eq!(Binary32::from_u32(16_777_219).to_bits(), 16_777_220f32.to_bits());
}

#[test]
fn order_matches_the_hardware() {
    let mut state: u64 = 6;
    for _ in 0..200000 {
        let a = sample(&mut state);
        let b = sample(&mut state);
        assert_eq!(soft(a).greater_than(soft(b)), a > b, "{:?} > {:?}", a, b);
    }
    assert!(!soft(0.0).greater_than(soft(-0.0)));
    assert!(!soft(-0.0).greater_than(soft(0.0)));
    assert!(!soft(f32::NAN).greater_than(soft(1.0)));
    assert!(!soft(1.0).greater_than(soft(f32::NAN)));
    assert!(soft(f32::INFINITY).greater_than(soft(f32::MAX)));
    assert!(soft(f32::MIN).greater_than(soft(f32::NEG_INFINITY)));
    assert!(!soft(4.0).greater_than(soft(4.0)));
}

#[test]
fn special_values_follow_the_standard() {
    let inf = f32::INFINITY;
    assert!(soft(inf).minus(soft(inf)).is_nan());
    assert!(soft(inf).times(soft(0.0)).is_nan());
    assert!(soft(0.0).divided_by(soft(0.0)).is_nan());
    assert!(soft(inf).divided_by(soft(inf)).is_nan());
    assert_eq!(soft(1.0).divided_by(soft(0.0)).to_bits(), inf.to_bits());
    assert_eq!(soft(-1.0).divided_by(soft(0.0)).to_bits(), (-inf).to_bits());
    assert_eq!(soft(1.0).divided_by(soft(-inf)).to_bits(), (-0.0f32).to_bits());
    assert_eq!(soft(1.5).minus(soft(1.5)).to_bits(), 0);
    assert_eq!(soft(-0.0).plus(soft(-0.0)).to_bits(), 0x8000_0000);
    assert_eq!(soft(-0.0).plus(soft(0.0)).to_bits(), 0);
    assert_eq!(soft(f32::MAX).plus(soft(f32::MAX)).to_bits(), inf.to_bits());
    assert_eq!(soft(f32::MAX).times(soft(2.0)).to_bits(), inf.to_bits());
    assert_eq!(soft(f32::NAN).plus(soft(1.0)).to_bits(), 0x7fc0_0000);
    assert!(soft(inf).is_infinite() && !soft(inf).is_finite() && !soft(inf).is_nan());
    assert!(soft(-0.0).is_zero() && soft(-0.0).is_negative() && soft(-0.0).is_finite());
    assert_eq!(soft(-2.5).negate().to_bits(), 2.5f32.to_bits());
    assert_eq!(soft(2.5).magnitude_bits(), 2.5f32.to_bits());
    assert_eq!(soft(1.0).decompose(), (0x80_0000, 126));
}

#[test]
fn ties_go_to_the_even_pattern() {
    // 1 + 2^-24 lies midway between 1 and its successor
    let half_ulp = f32::from_bits(0x3380_0000);
    assert_eq!(soft(1.0).plus(soft(half_ulp)).to_bits(), 0x3f80_0000);
    // the successor of 1 plus 2^-24 lies midway too, and goes up to the even pattern
    assert_eq!(Binary32::from_bits(0x3f80_0001).plus(soft(half_ulp)).to_bits(), 0x3f80_0002);
    // the smallest subnormal halved is a tie between zero and itself
    assert_eq!(Binary32::from_bits(1).divided_by(soft(2.0)).to_bits(), 0);
    assert_eq!(Binary32::from_bits(3).divided_by(soft(2.0)).to_bits(), 2);
}

#[test]
fn bytes_are_truncated_and_wrap() {
    assert_eq!(soft(0.0).truncate_to_byte(), 0);
    assert_eq!(soft(250.0).truncate_to_byte(), 250);
    assert_eq!(soft(255.0).truncate_to_byte(), 255);
    assert_eq!(soft(255.9).truncate_to_byte(), 255);
    assert_eq!(soft(0.99).truncate_to_byte(), 0);
    assert_eq!(soft(256.0).truncate_to_byte(), 0);
    assert_eq!(soft(260.0).truncate_to_byte(), 4);
    assert_eq!(soft(1275.0).truncate_to_byte(), 251);
    assert_eq!(soft(-1.0).truncate_to_byte(), 255);
    assert_eq!(soft(-0.5).truncate_to_byte(), 0);
    assert_eq!(soft(-257.0).truncate_to_byte(), 255);
    assert_eq!(soft(65536.0).truncate_to_byte(), 0);
    assert_eq!(soft(16_777_215.0).truncate_to_byte(), 255);
    assert_eq!(soft(f32::MAX).truncate_to_byte(), 0);
    assert_eq!(soft(f32::NAN).truncate_to_byte(), 0);
    assert_eq!(soft(f32::INFINITY).truncate_to_byte(), 0);
    for v in 0..256u32 {
        let x = v as f32 + 0.75;
        assert_eq!(soft(x).truncate_to_byte(), x as u8);
    }
}
