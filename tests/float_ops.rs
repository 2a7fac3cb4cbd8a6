use builtins::add::{__adddf3, __addsf3, __aeabi_dadd, __aeabi_fadd};
use builtins::convert::__floatsisf;
use builtins::float::{Binary32, Binary64, Float};

/// A deterministic generator of bit patterns, mixing uniform patterns with
/// patterns of nearby exponents, subnormals and special values.
struct Patterns {
    state: u64,
}

impl Patterns {
    fn new(seed: u64) -> Patterns {
        Patterns { state: seed }
    }

    fn next_u64(&mut self) -> u64 {
        self.state = self.state.wrapping_mul(6364136223846793005).wrapping_add(1442695040888963407);
        self.state ^ (self.state >> 31)
    }

    fn next_f32_bits(&mut self) -> u32 {
        let w = self.next_u64();
        let sign = ((w >> 63) as u32) << 31;
        match w % 8 {
            0 => (w >> 16) as u32,
            1 => sign | ((w >> 20) as u32 & 0x007F_FFFF),
            2 => sign | 0x7F80_0000 | ((w >> 20) as u32 & 0x007F_FFFF),
            3 => sign | (((120 + (w >> 8) % 16) as u32) << 23) | ((w >> 20) as u32 & 0x007F_FFFF),
            4 => sign | (((w >> 8) % 8) as u32) << 23 | ((w >> 20) as u32 & 0x007F_FFFF),
            5 => sign | (((245 + (w >> 8) % 10) as u32) << 23) | ((w >> 20) as u32 & 0x007F_FFFF),
            _ => sign | (((100 + (w >> 8) % 50) as u32) << 23) | ((w >> 20) as u32 & 0x007F_FFFF),
        }
    }

    fn next_f64_bits(&mut self) -> u64 {
        let w = self.next_u64();
        let v = self.next_u64();
        let sign = (w >> 63) << 63;
        let frac = v & 0x000F_FFFF_FFFF_FFFF;
        match w % 8 {
            0 => v,
            1 => sign | frac,
            2 => sign | 0x7FF0_0000_0000_0000 | frac,
            3 => sign | ((1015 + (w >> 8) % 16) << 52) | frac,
            4 => sign | (((w >> 8) % 8) << 52) | frac,
            5 => sign | ((2038 + (w >> 8) % 9) << 52) | frac,
            _ => sign | ((1000 + (w >> 8) % 60) << 52) | frac,
        }
    }
}

fn add32(a: f32, b: f32) -> f32 {
    f32::from_bits(__addsf3(Binary32::from_repr(a.to_bits()), Binary32::from_repr(b.to_bits())).repr())
}

fn add64(a: f64, b: f64) -> f64 {
    f64::from_bits(__adddf3(Binary64::from_repr(a.to_bits()), Binary64::from_repr(b.to_bits())).repr())
}

fn same32(x: f32, y: f32) -> bool {
    (x.is_nan() && y.is_nan()) || x.to_bits() == y.to_bits()
}

fn same64(x: f64, y: f64) -> bool {
    (x.is_nan() && y.is_nan()) || x.to_bits() == y.to_bits()
}

#[test]
fn addsf3_matches_native() {
    let mut g = Patterns::new(11);
    for _ in 0..200000 {
        let a = f32::from_bits(g.next_f32_bits());
        let b = f32::from_bits(g.next_f32_bits());
        let x = add32(a, b);
        let y = a + b;
        assert!(same32(x, y), "{:e} + {:e}: {:#x} against {:#x}", a, b, x.to_bits(), y.to_bits());
    }
}

#[test]
fn adddf3_matches_native() {
    let mut g = Patterns::new(12);
    for _ in 0..200000 {
        let a = f64::from_bits(g.next_f64_bits());
        let b = f64::from_bits(g.next_f64_bits());
        let x = add64(a, b);
        let y = a + b;
        assert!(same64(x, y), "{:e} + {:e}: {:#x} against {:#x}", a, b, x.to_bits(), y.to_bits());
    }
}

#[test]
fn add_commutes() {
    let mut g = Patterns::new(13);
    for _ in 0..50000 {
        let a = f32::from_bits(g.next_f32_bits());
        let b = f32::from_bits(g.next_f32_bits());
        if !a.is_nan() && !b.is_nan() {
            assert_eq!(add32(a, b).to_bits(), add32(b, a).to_bits());
        }
        let c = f64::from_bits(g.next_f64_bits());
        let d = f64::from_bits(g.next_f64_bits());
        if !c.is_nan() && !d.is_nan() {
            assert_eq!(add64(c, d).to_bits(), add64(d, c).to_bits());
        }
    }
}

#[test]
fn add_positive_zero_is_identity() {
    let mut g = Patterns::new(14);
    for _ in 0..50000 {
        let x = f32::from_bits(g.next_f32_bits());
        if !x.is_nan() && x.to_bits() != 0x8000_0000 {
            assert_eq!(add32(x, 0.0).to_bits(), x.to_bits());
        }
        let y = f64::from_bits(g.next_f64_bits());
        if !y.is_nan() && y.to_bits() != 0x8000_0000_0000_0000 {
            assert_eq!(add64(y, 0.0).to_bits(), y.to_bits());
        }
    }
    assert_eq!(add32(-0.0, 0.0).to_bits(), 0);
    assert_eq!(add64(-0.0, 0.0).to_bits(), 0);
    assert_eq!(add32(-0.0, -0.0).to_bits(), 0x8000_0000);
    assert_eq!(add32(f32::NEG_INFINITY, 0.0), f32::NEG_INFINITY);
}

#[test]
fn add_negation_cancels() {
    let mut g = Patterns::new(15);
    for _ in 0..50000 {
        let x = f32::from_bits(g.next_f32_bits());
        if x.is_finite() && x != 0.0 {
            assert_eq!(add32(x, -x).to_bits(), 0);
        }
        let y = f64::from_bits(g.next_f64_bits());
        if y.is_finite() && y != 0.0 {
            assert_eq!(add64(y, -y).to_bits(), 0);
        }
    }
    assert_eq!(add32(-1.5, 1.5).to_bits(), 0);
    assert_eq!(add32(f32::MIN_POSITIVE, -f32::MIN_POSITIVE).to_bits(), 0);
}

#[test]
fn add_special_operands() {
    // A signaling NaN is quieted, keeping sign and payload.
    assert_eq!(__addsf3(Binary32::from_repr(0xFF80_0001), Binary32::from_repr(0x3F80_0000)).repr(), 0xFFC0_0001);
    assert_eq!(__addsf3(Binary32::from_repr(0x3F80_0000), Binary32::from_repr(0x7F80_0002)).repr(), 0x7FC0_0002);
    // With two NaNs the first wins.
    assert_eq!(__addsf3(Binary32::from_repr(0x7FC0_0005), Binary32::from_repr(0x7FC0_0007)).repr(), 0x7FC0_0005);
    // Infinities of opposite signs give the quiet NaN.
    assert_eq!(__addsf3(Binary32::from_repr(0x7F80_0000), Binary32::from_repr(0xFF80_0000)).repr(), 0x7FC0_0000);
    assert_eq!(
        __adddf3(Binary64::from_repr(0xFFF0_0000_0000_0000), Binary64::from_repr(0x7FF0_0000_0000_0000)).repr(),
        0x7FF8_0000_0000_0000
    );
    assert_eq!(add32(f32::INFINITY, f32::INFINITY), f32::INFINITY);
    assert_eq!(add32(f32::INFINITY, -3.0), f32::INFINITY);
    assert_eq!(add32(-3.0, f32::NEG_INFINITY), f32::NEG_INFINITY);
    assert_eq!(add64(1e300, f64::NEG_INFINITY), f64::NEG_INFINITY);
    assert_eq!(add32(0.0, -2.5), -2.5);
    assert_eq!(add32(-2.5, -0.0), -2.5);
}

#[test]
fn add_rounding_and_range() {
    assert_eq!(add32(1.0, 2.0), 3.0);
    assert_eq!(add32(0.1, 0.2).to_bits(), 0x3E99_999A);
    assert_eq!(add64(0.1, 0.2).to_bits(), 0x3FD3_3333_3333_3334);
    // Ties go to the even significand.
    assert_eq!(add32(16777216.0, 1.0), 16777216.0);
    assert_eq!(add32(16777218.0, 1.0), 16777220.0);
    // Overflow gives infinity; a rounding carry can reach it.
    assert_eq!(add32(f32::MAX, f32::MAX), f32::INFINITY);
    assert_eq!(add32(-f32::MAX, -f32::MAX), f32::NEG_INFINITY);
    assert_eq!(add32(f32::MAX, f32::from_bits(0x7300_0000)), f32::INFINITY);
    assert_eq!(add64(f64::MAX, f64::MAX), f64::INFINITY);
    // Subnormals add exactly, and may carry into the normal range.
    assert_eq!(add32(f32::from_bits(1), f32::from_bits(1)).to_bits(), 2);
    assert_eq!(add32(f32::from_bits(0x007F_FFFF), f32::from_bits(1)).to_bits(), 0x0080_0000);
    assert_eq!(add32(f32::MIN_POSITIVE, -f32::from_bits(1)).to_bits(), 0x007F_FFFF);
    assert_eq!(add64(f64::from_bits(3), -f64::from_bits(1)).to_bits(), 2);
    // Cancellation renormalizes.
    assert_eq!(add32(1.0, -0.99999994), 5.9604645e-8);
    assert_eq!(add64(1.0, -(1.0 - f64::EPSILON / 2.0)), f64::EPSILON / 2.0);
}

#[test]
fn floatsisf_samples() {
    assert_eq!(__floatsisf(0).repr(), 0);
    assert_eq!(f32::from_bits(__floatsisf(1).repr()), 1.0);
    assert_eq!(f32::from_bits(__floatsisf(-1).repr()), -1.0);
    assert_eq!(f32::from_bits(__floatsisf(i32::MIN).repr()), -2147483648.0);
    assert_eq!(__floatsisf(i32::MIN).repr(), 0xCF00_0000);
    assert_eq!(f32::from_bits(__floatsisf(16777217).repr()), 16777216.0);
    assert_eq!(f32::from_bits(__floatsisf(16777219).repr()), 16777220.0);
    assert_eq!(f32::from_bits(__floatsisf(16777218).repr()), 16777218.0);
    assert_eq!(f32::from_bits(__floatsisf(i32::MAX).repr()), 2147483648.0);
    assert_eq!(f32::from_bits(__floatsisf(-33554435).repr()), -33554436.0);
}

#[test]
fn floatsisf_matches_native() {
    let mut g = Patterns::new(16);
    for _ in 0..200000 {
        let w = g.next_u64();
        let a = (w as i32) >> ((w >> 40) % 32);
        assert_eq!(__floatsisf(a).repr(), (a as f32).to_bits(), "{}", a);
    }
    for a in -70000..70000 {
        assert_eq!(__floatsisf(a).repr(), (a as f32).to_bits());
    }
}

#[test]
fn eabi_names_add_alike() {
    let a = Binary32::from_repr(1.25f32.to_bits());
    let b = Binary32::from_repr((-3.5f32).to_bits());
    assert_eq!(f32::from_bits(__aeabi_fadd(a, b).repr()), -2.25);
    let c = Binary64::from_repr(1e16f64.to_bits());
    let d = Binary64::from_repr(1.0f64.to_bits());
    assert_eq!(f64::from_bits(__aeabi_dadd(c, d).repr()), 1e16);
    assert_eq!(__aeabi_dadd(c, d), __adddf3(c, d));
}
