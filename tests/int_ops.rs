use builtins::mul::{__muldi3, __mulodi4, __mulosi4};
use builtins::sdiv::{__divdi3, __divmoddi4, __divmodsi4, __divsi3, __moddi3, __modsi3};
use builtins::shift::{__ashldi3, __ashrdi3, __lshrdi3};
use builtins::wide::LargeInt;

/// A small deterministic generator of 64-bit words, biased toward the
/// values whose high or low half is zero.
struct Words {
    state: u64,
}

impl Words {
    fn new(seed: u64) -> Words {
        Words { state: seed }
    }

    fn next(&mut self) -> u64 {
        self.state = self.state.wrapping_mul(6364136223846793005).wrapping_add(1442695040888963407);
        let x = self.state ^ (self.state >> 29);
        match (self.state >> 61) % 4 {
            0 => x & 0xFFFF_FFFF,
            1 => x << 32,
            _ => x,
        }
    }
}

const EDGES_U64: [u64; 8] = [0, 1, 2, 3, 0xFFFF_FFFF, 0x1_0000_0000, u64::MAX, 0x8000_0000_0000_0000];
const EDGES_I64: [i64; 9] = [0, 1, -1, 2, -2, i64::MAX, i64::MIN, 0x7FFF_FFFF, -0x8000_0000];
const EDGES_I32: [i32; 9] = [0, 1, -1, 2, -2, i32::MAX, i32::MIN, 0xFFFF, -0x10000];

#[test]
fn limbs_round_trip() {
    let x: u64 = 0x1234_5678_9ABC_DEF0;
    assert_eq!(x.low(), 0x9ABC_DEF0);
    assert_eq!(x.high(), 0x1234_5678);
    assert_eq!(u64::from_parts(0x9ABC_DEF0, 0x1234_5678), x);
    let y: i64 = -2;
    assert_eq!(y.low(), 0xFFFF_FFFE);
    assert_eq!(y.high(), -1);
    assert_eq!(i64::from_parts(0xFFFF_FFFE, -1), -2);
    assert_eq!(i64::from_parts(0, i32::MIN), i64::MIN);
}

#[test]
fn muldi3_matches_wrapping_mul() {
    let mut g = Words::new(1);
    for _ in 0..20000 {
        let (a, b) = (g.next(), g.next());
        assert_eq!(__muldi3(a, b), a.wrapping_mul(b), "{} * {}", a, b);
    }
    for &a in EDGES_U64.iter() {
        for &b in EDGES_U64.iter() {
            assert_eq!(__muldi3(a, b), a.wrapping_mul(b));
        }
    }
}

#[test]
fn muldi3_commutes_and_zero() {
    let mut g = Words::new(2);
    for _ in 0..2000 {
        let (a, b) = (g.next(), g.next());
        assert_eq!(__muldi3(a, b), __muldi3(b, a));
        assert_eq!(__muldi3(a, 0), 0);
    }
    assert_eq!(__muldi3(0xFFFF_FFFF_FFFF_FFFF, 2), 0xFFFF_FFFF_FFFF_FFFE);
    assert_eq!(__muldi3(0x1_0000_0000, 0x1_0000_0000), 0);
    assert_eq!(__muldi3(0x1_0000_0001, 0xFFFF_FFFF), 0xFFFF_FFFF_FFFF_FFFF);
}

#[test]
fn mulosi4_flags_overflow() {
    let mut g = Words::new(3);
    let mut cases: Vec<(i32, i32)> = Vec::new();
    for &a in EDGES_I32.iter() {
        for &b in EDGES_I32.iter() {
            cases.push((a, b));
        }
    }
    for _ in 0..20000 {
        let w = g.next();
        cases.push((w as i32, (w >> 32) as i32));
        cases.push(((w & 0xFFFF) as i32 - 0x8000, (w >> 40) as i32));
    }
    for (a, b) in cases {
        let mut overflow = 2;
        let r = __mulosi4(a, b, &mut overflow);
        let (w, o) = a.overflowing_mul(b);
        assert_eq!(r, w);
        assert_eq!(overflow, o as i32, "{} * {}", a, b);
    }
    let mut overflow = 2;
    assert_eq!(__mulosi4(i32::MIN, -1, &mut overflow), i32::MIN);
    assert_eq!(overflow, 1);
    assert_eq!(__mulosi4(i32::MIN, 1, &mut overflow), i32::MIN);
    assert_eq!(overflow, 0);
    assert_eq!(__mulosi4(0x10000, 0x8000, &mut overflow), i32::MIN);
    assert_eq!(overflow, 1);
    assert_eq!(__mulosi4(-0x10000, 0x8000, &mut overflow), i32::MIN);
    assert_eq!(overflow, 0);
}

#[test]
fn mulodi4_flags_overflow() {
    let mut g = Words::new(4);
    let mut cases: Vec<(i64, i64)> = Vec::new();
    for &a in EDGES_I64.iter() {
        for &b in EDGES_I64.iter() {
            cases.push((a, b));
        }
    }
    for _ in 0..20000 {
        cases.push((g.next() as i64, g.next() as i64));
        cases.push(((g.next() >> 31) as i64, -((g.next() >> 33) as i64)));
    }
    for (a, b) in cases {
        let mut overflow = 2;
        let r = __mulodi4(a, b, &mut overflow);
        let (w, o) = a.overflowing_mul(b);
        assert_eq!(r, w);
        assert_eq!(overflow, o as i32, "{} * {}", a, b);
    }
    let mut overflow = 2;
    assert_eq!(__mulodi4(0x1_0000_0000, 0x8000_0000, &mut overflow), i64::MIN);
    assert_eq!(overflow, 1);
    assert_eq!(__mulodi4(0x1_0000_0000, -0x8000_0000, &mut overflow), i64::MIN);
    assert_eq!(overflow, 0);
}

#[test]
fn divide_and_modulo_32() {
    let mut g = Words::new(5);
    let mut cases: Vec<(i32, i32)> = Vec::new();
    for &a in EDGES_I32.iter() {
        for &b in EDGES_I32.iter() {
            cases.push((a, b));
        }
    }
    for _ in 0..20000 {
        let w = g.next();
        cases.push((w as i32, (w >> 32) as i32));
        cases.push((w as i32, ((w >> 32) as i32) >> 20));
    }
    for (n, d) in cases {
        if d == 0 {
            continue;
        }
        let q = __divsi3(n, d);
        let r = __modsi3(n, d);
        assert_eq!(q, n.wrapping_div(d), "{} / {}", n, d);
        assert_eq!(r, n.wrapping_rem(d), "{} % {}", n, d);
        assert_eq!(q.wrapping_mul(d).wrapping_add(r), n);
        assert!(r == 0 || (r < 0) == (n < 0));
        let mut rem = 0;
        assert_eq!(__divmodsi4(n, d, &mut rem), q);
        assert_eq!(rem, r);
    }
}

#[test]
fn divide_and_modulo_64() {
    let mut g = Words::new(6);
    let mut cases: Vec<(i64, i64)> = Vec::new();
    for &a in EDGES_I64.iter() {
        for &b in EDGES_I64.iter() {
            cases.push((a, b));
        }
    }
    for _ in 0..20000 {
        cases.push((g.next() as i64, g.next() as i64));
        cases.push((g.next() as i64, (g.next() as i64) >> 40));
    }
    for (n, d) in cases {
        if d == 0 {
            continue;
        }
        let q = __divdi3(n, d);
        let r = __moddi3(n, d);
        assert_eq!(q, n.wrapping_div(d), "{} / {}", n, d);
        assert_eq!(r, n.wrapping_rem(d), "{} % {}", n, d);
        assert_eq!(q.wrapping_mul(d).wrapping_add(r), n);
        assert!(r == 0 || (r < 0) == (n < 0));
        let mut rem = 0;
        assert_eq!(__divmoddi4(n, d, &mut rem), q);
        assert_eq!(rem, r);
    }
}

#[test]
fn divmod_samples() {
    let mut rem = 0;
    assert_eq!(__divmodsi4(7, 2, &mut rem), 3);
    assert_eq!(rem, 1);
    assert_eq!(__divmodsi4(-7, 2, &mut rem), -3);
    assert_eq!(rem, -1);
    assert_eq!(__divmodsi4(7, -2, &mut rem), -3);
    assert_eq!(rem, 1);
    let mut rem = 0;
    assert_eq!(__divmoddi4(7, 2, &mut rem), 3);
    assert_eq!(rem, 1);
    assert_eq!(__divmoddi4(-7, 2, &mut rem), -3);
    assert_eq!(rem, -1);
    assert_eq!(__divmoddi4(7, -2, &mut rem), -3);
    assert_eq!(rem, 1);
}

#[test]
fn divide_minimum_by_minus_one_wraps() {
    let mut rem = 5;
    assert_eq!(__divsi3(i32::MIN, -1), i32::MIN);
    assert_eq!(__modsi3(i32::MIN, -1), 0);
    assert_eq!(__divmodsi4(i32::MIN, -1, &mut rem), i32::MIN);
    assert_eq!(rem, 0);
    let mut rem = 5;
    assert_eq!(__divdi3(i64::MIN, -1), i64::MIN);
    assert_eq!(__moddi3(i64::MIN, -1), 0);
    assert_eq!(__divmoddi4(i64::MIN, -1, &mut rem), i64::MIN);
    assert_eq!(rem, 0);
    assert_eq!(__divsi3(i32::MIN, 1), i32::MIN);
    assert_eq!(__modsi3(i32::MIN, i32::MIN), 0);
}

#[test]
fn shifts_match_native() {
    let mut g = Words::new(7);
    for _ in 0..5000 {
        let a = g.next();
        for b in 0..64u32 {
            assert_eq!(__ashldi3(a, b), a << b);
            assert_eq!(__lshrdi3(a, b), a >> b);
            assert_eq!(__ashrdi3(a as i64, b), (a as i64) >> b);
        }
    }
}

#[test]
fn shift_edges() {
    assert_eq!(__ashldi3(1, 63), 0x8000_0000_0000_0000);
    assert_eq!(__ashldi3(0xFFFF_FFFF, 32), 0xFFFF_FFFF_0000_0000);
    assert_eq!(__ashldi3(0x1_8000_0000, 1), 0x3_0000_0000);
    assert_eq!(__ashldi3(3, 0), 3);
    assert_eq!(__lshrdi3(0x8000_0000_0000_0000, 63), 1);
    assert_eq!(__lshrdi3(0x8000_0000_0000_0000, 32), 0x8000_0000);
    assert_eq!(__lshrdi3(0x1_0000_0000, 1), 0x8000_0000);
    assert_eq!(__ashrdi3(i64::MIN, 63), -1);
    assert_eq!(__ashrdi3(i64::MIN, 32), -0x8000_0000);
    assert_eq!(__ashrdi3(-0x1_0000_0000, 1), -0x8000_0000);
    assert_eq!(__ashrdi3(i64::MAX, 62), 1);
    assert_eq!(__ashrdi3(-5, 0), -5);
}

#[test]
fn shift_laws() {
    let mut g = Words::new(8);
    for _ in 0..2000 {
        let a = g.next();
        for b in 0..64u32 {
            // a * 2^b modulo 2^64.
            let expected = ((a as u128) << b) as u64;
            assert_eq!(__ashldi3(a, b), expected);
            // The top b bits of a logical shift are zero.
            if b > 0 {
                assert_eq!(__lshrdi3(a, b) >> (64 - b), 0);
            }
            // The top b bits of an arithmetic shift of a negative value are one.
            let n = (a | 0x8000_0000_0000_0000) as i64;
            let r = __ashrdi3(n, b) as u64;
            if b > 0 {
                assert_eq!(r >> (64 - b), (1u64 << b) - 1);
            }
            assert!(__ashrdi3(n, b) < 0);
        }
    }
}
