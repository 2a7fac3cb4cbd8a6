use builtins::float::{Binary32, Binary64, Float};

#[test]
fn binary32_layout() {
    assert_eq!(Binary32::bits(), 32);
    assert_eq!(Binary32::significand_bits(), 23);
    assert_eq!(Binary32::exponent_bits(), 8);
    assert_eq!(Binary32::max_exponent(), 255);
    assert_eq!(Binary32::exponent_bias(), 127);
    assert_eq!(Binary32::implicit_bit(), 1 << 23);
    assert_eq!(Binary32::significand_mask(), (1 << 23) - 1);
    assert_eq!(Binary32::sign_bit(), 1 << 31);
    assert_eq!(Binary32::abs_mask(), 0x7FFF_FFFF);
    assert_eq!(Binary32::exponent_mask(), 0x7F80_0000);
    assert_eq!(Binary32::inf_rep(), f32::INFINITY.to_bits());
    assert_eq!(Binary32::quiet_bit(), 1 << 22);
    assert_eq!(Binary32::qnan_rep(), 0x7FC0_0000);
    assert_eq!(Binary32::one(), 1);
    assert_eq!(Binary32::zero(), 0);
    assert_eq!(Binary32::sign_bit() | Binary32::exponent_mask() | Binary32::significand_mask(), u32::MAX);
    assert_eq!(Binary32::sign_bit() & Binary32::exponent_mask(), 0);
    assert_eq!(Binary32::exponent_mask() & Binary32::significand_mask(), 0);
}

#[test]
fn binary64_layout() {
    assert_eq!(Binary64::bits(), 64);
    assert_eq!(Binary64::significand_bits(), 52);
    assert_eq!(Binary64::exponent_bits(), 11);
    assert_eq!(Binary64::max_exponent(), 2047);
    assert_eq!(Binary64::exponent_bias(), 1023);
    assert_eq!(Binary64::implicit_bit(), 1 << 52);
    assert_eq!(Binary64::significand_mask(), (1 << 52) - 1);
    assert_eq!(Binary64::sign_bit(), 1 << 63);
    assert_eq!(Binary64::abs_mask(), 0x7FFF_FFFF_FFFF_FFFF);
    assert_eq!(Binary64::exponent_mask(), 0x7FF0_0000_0000_0000);
    assert_eq!(Binary64::inf_rep(), f64::INFINITY.to_bits());
    assert_eq!(Binary64::quiet_bit(), 1 << 51);
    assert_eq!(Binary64::qnan_rep(), 0x7FF8_0000_0000_0000);
    assert_eq!(Binary64::sign_bit() | Binary64::exponent_mask() | Binary64::significand_mask(), u64::MAX);
}

#[test]
fn repr_round_trip() {
    let x = Binary32::from_repr(1.5f32.to_bits());
    assert_eq!(f32::from_bits(x.repr()), 1.5);
    let y = Binary64::from_repr((-2.25f64).to_bits());
    assert_eq!(f64::from_bits(y.repr()), -2.25);
}

#[test]
fn from_parts_assembles() {
    assert_eq!(Binary32::from_parts(false, 127, 0).repr(), 1.0f32.to_bits());
    assert_eq!(Binary32::from_parts(true, 128, 0x40_0000).repr(), (-3.0f32).to_bits());
    // Bits beyond each field are dropped.
    assert_eq!(Binary32::from_parts(false, 0x1FF, 0xFF80_0001).repr(), 0x7F80_0001);
    assert_eq!(Binary64::from_parts(false, 1023, 0).repr(), 1.0f64.to_bits());
    assert_eq!(Binary64::from_parts(true, 1024, 1 << 51).repr(), (-3.0f64).to_bits());
}

#[test]
fn normalize_subnormals() {
    assert_eq!(Binary32::normalize(1), (-22, 1 << 23));
    assert_eq!(Binary32::normalize(0x40_0000), (0, 0x80_0000));
    assert_eq!(Binary32::normalize(3), (-21, 3 << 22));
    assert_eq!(Binary64::normalize(1), (-51, 1 << 52));
    assert_eq!(Binary64::normalize(0x8_0000_0000_0000), (0, 1 << 52));
}

#[test]
fn eq_repr_treats_nans_alike() {
    let nan_a = Binary32::from_repr(0x7FC0_0001);
    let nan_b = Binary32::from_repr(0xFF80_0003);
    assert!(nan_a.eq_repr(nan_b));
    assert!(!Binary32::from_repr(0).eq_repr(Binary32::from_repr(0x8000_0000)));
    assert!(Binary32::from_repr(0x3F80_0000).eq_repr(Binary32::from_repr(0x3F80_0000)));
    assert!(!Binary32::from_repr(0x7F80_0000).eq_repr(nan_a));
    let nan_c = Binary64::from_repr(0x7FF0_0000_0000_0001);
    let nan_d = Binary64::from_repr(0xFFF8_0000_0000_0000);
    assert!(nan_c.eq_repr(nan_d));
    assert!(!Binary64::from_repr(0x7FF0_0000_0000_0000).eq_repr(nan_d));
}
