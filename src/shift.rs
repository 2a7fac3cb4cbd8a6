//! 64-bit shifts built from operations on 32-bit limbs, so that no shift by
//! a full limb width is ever performed.
use vstd::prelude::*;
use vstd::arithmetic::power2::{pow2, lemma_pow2_pos, lemma_pow2_unfold, lemma_pow2_adds, lemma2_to64, lemma2_to64_rest};
use vstd::arithmetic::div_mod::{lemma_fundamental_div_mod_converse, lemma_mul_mod_noop_left, lemma_div_is_ordered};
use vstd::arithmetic::mul::lemma_mul_is_associative;
use vstd::bits::lemma_u64_shr_is_div;
use crate::wide::LargeInt;

verus! {

/// Testing bit 5 of a shift amount under 64 tells whether it reaches a full limb.
proof fn lemma_half_bit(b: u32)
    by (bit_vector)
    requires
        b < 64,
    ensures
        b & 32 != 0 <==> b >= 32,
{
}

/// Each branch of the limb-wise left shift agrees with the native 64-bit shift.
proof fn lemma_shl_limbs(a: u64, b: u32, low: u32, high: u32)
    by (bit_vector)
    requires
        low == a % 0x1_0000_0000,
        high == a / 0x1_0000_0000,
        b < 64,
    ensures
        b & 32 != 0 ==> (low << ((b - 32) as u32)) * 0x1_0000_0000 == a << (b as u64),
        b & 32 == 0 && b != 0 ==> (low << b) + ((high << b) | (low >> ((32 - b) as u32)))
            * 0x1_0000_0000 == a << (b as u64),
        b == 0 ==> a << (b as u64) == a,
{
}

/// Each branch of the limb-wise logical right shift agrees with the native one.
proof fn lemma_lshr_limbs(a: u64, b: u32, low: u32, high: u32)
    by (bit_vector)
    requires
        low == a % 0x1_0000_0000,
        high == a / 0x1_0000_0000,
        b < 64,
    ensures
        b & 32 != 0 ==> (high >> ((b - 32) as u32)) == a >> (b as u64),
        b & 32 == 0 && b != 0 ==> ((high << ((32 - b) as u32)) | (low >> b)) + (high >> b)
            * 0x1_0000_0000 == a >> (b as u64),
        b == 0 ==> a >> (b as u64) == a,
{
}

/// Each branch of the limb-wise arithmetic right shift agrees with the native
/// one, and a negative value keeps its sign in every vacated bit.
proof fn lemma_ashr_limbs(a: i64, b: u32, low: u32, high: i32)
    by (bit_vector)
    requires
        low == #[verifier::truncate] ((#[verifier::truncate] (a as u64)) as u32),
        high == (a >> 32u64) as i32,
        b < 64,
    ensures
        b & 32 != 0 ==> ((#[verifier::truncate] ((high >> ((b - 32) as u32)) as u32)) + (high >> 31u32)
            * 0x1_0000_0000 == a >> (b as u64)),
        b & 32 == 0 && b != 0 ==> (((#[verifier::truncate] (high as u32)) << ((32 - b) as u32))
            | (low >> b)) + (high >> b) * 0x1_0000_0000 == a >> (b as u64),
        b == 0 ==> a >> (b as u64) == a,
        a >= 0 ==> a >> (b as u64) == ((a as u64) >> (b as u64)) as i64,
        a < 0 ==> a >> (b as u64) == -1 - (((-1 - a) as u64) >> (b as u64)),
{
}

/// A native left shift by one more bit doubles the value modulo 2^64.
proof fn lemma_shl_step(a: u64, b: u32)
    by (bit_vector)
    requires
        0 < b < 64,
    ensures
        (a << (b as u64)) == ((a << ((b - 1) as u64)) * 2) % 0x1_0000_0000_0000_0000,
{
}

/// A native left shift multiplies by a power of two, keeping the low 64 bits.
pub proof fn lemma_shl_is_mul_mod(a: u64, b: u32)
    requires
        b < 64,
    ensures
        (a << (b as u64)) as int == (a as int * pow2(b as nat) as int) % (pow2(64) as int),
    decreases b,
{
    lemma2_to64_rest();
    if b == 0 {
        assert(a << 0u64 == a) by (bit_vector);
        lemma2_to64();
        vstd::arithmetic::div_mod::lemma_small_mod(a as nat, pow2(64));
    } else {
        lemma_shl_is_mul_mod(a, (b - 1) as u32);
        lemma_shl_step(a, b);
        let m = pow2(64) as int;
        let p = pow2((b - 1) as nat) as int;
        lemma_mul_mod_noop_left(a * p, 2, m);
        lemma_pow2_unfold(b as nat);
        lemma_mul_is_associative(a as int, p, 2);
    }
}

/// Floor division of a negative number through the complement.
proof fn lemma_floor_div_complement(a: int, d: int)
    requires
        d > 0,
    ensures
        a / d == -1 - (-1 - a) / d,
{
    let q = (-1 - a) / d;
    let r = (-1 - a) % d;
    vstd::arithmetic::div_mod::lemma_fundamental_div_mod(-1 - a, d);
    assert(a == (-1 - q) * d + (d - 1 - r)) by (nonlinear_arith)
        requires -1 - a == d * q + r;
    lemma_fundamental_div_mod_converse(a, d, -1 - q, d - 1 - r);
}

/// Returns `a << b`: the bits of `a` moved up by `b` places, those moved past
/// bit 63 dropped.
pub fn __ashldi3(a: u64, b: u32) -> (r: u64)
    requires
        b < 64,
    ensures
        r == a << (b as u64),
        r == (a as int * pow2(b as nat) as int) % (pow2(64) as int),
{
    let half_bits: u32 = 32;
    let low = a.low();
    let high = a.high();
    proof {
        lemma_half_bit(b);
        lemma_shl_limbs(a, b, low, high);
        lemma_shl_is_mul_mod(a, b);
    }
    if b & half_bits != 0 {
        u64::from_parts(0, low << (b - half_bits))
    } else if b == 0 {
        a
    } else {
        u64::from_parts(low << b, (high << b) | (low >> (half_bits - b)))
    }
}

/// Returns the arithmetic `a >> b`: the floor of `a / 2^b`, the vacated high
/// bits filled with copies of the sign bit.
pub fn __ashrdi3(a: i64, b: u32) -> (r: i64)
    requires
        b < 64,
    ensures
        r == a >> (b as u64),
        r == a as int / (pow2(b as nat) as int),
        a < 0 ==> -(pow2((63 - b) as nat) as int) <= r < 0,
        a >= 0 ==> 0 <= r < pow2((63 - b) as nat),
{
    let half_bits: u32 = 32;
    let low = a.low();
    let high = a.high();
    proof {
        lemma_half_bit(b);
        lemma_ashr_limbs(a, b, low, high);
        lemma_shr_floor(a, b);
    }
    if b & half_bits != 0 {
        i64::from_parts((high >> (b - half_bits)) as u32, high >> (half_bits - 1))
    } else if b == 0 {
        a
    } else {
        let high_unsigned = high as u32;
        i64::from_parts((high_unsigned << (half_bits - b)) | (low >> b), high >> b)
    }
}

/// An arithmetic right shift is floor division by a power of two.
proof fn lemma_shr_floor(a: i64, b: u32)
    requires
        b < 64,
    ensures
        a >> (b as u64) == a as int / (pow2(b as nat) as int),
        a < 0 ==> -(pow2((63 - b) as nat) as int) <= a as int / (pow2(b as nat) as int) < 0,
        a >= 0 ==> 0 <= a as int / (pow2(b as nat) as int) < pow2((63 - b) as nat),
{
    lemma_ashr_limbs(a, b, #[verifier::truncate] ((#[verifier::truncate] (a as u64)) as u32), (a >> 32u64) as i32);
    lemma_pow2_pos(b as nat);
    lemma_pow2_pos((63 - b) as nat);
    lemma_pow2_adds(b as nat, (63 - b) as nat);
    lemma2_to64_rest();
    let d = pow2(b as nat) as int;
    let e = pow2((63 - b) as nat) as int;
    if a >= 0 {
        lemma_u64_shr_is_div(a as u64, b as u64);
        lemma_div_is_ordered(0, a as int, d);
        lemma_div_small_below(a as int, d, e);
    } else {
        let c = -1 - a;
        lemma_u64_shr_is_div(c as u64, b as u64);
        lemma_floor_div_complement(a as int, d);
        lemma_div_small_below(c, d, e);
        lemma_div_is_ordered(0, c, d);
    }
}

/// A value under `d * e` divides by `d` to under `e`.
proof fn lemma_div_small_below(x: int, d: int, e: int)
    by (nonlinear_arith)
    requires
        d > 0,
        e > 0,
        0 <= x < d * e,
    ensures
        x / d < e,
{
}

/// Returns the logical `a >> b`: `a / 2^b`, the vacated high bits zero.
pub fn __lshrdi3(a: u64, b: u32) -> (r: u64)
    requires
        b < 64,
    ensures
        r == a >> (b as u64),
        r == a as int / (pow2(b as nat) as int),
        r < pow2((64 - b) as nat),
{
    let half_bits: u32 = 32;
    let low = a.low();
    let high = a.high();
    proof {
        lemma_half_bit(b);
        lemma_lshr_limbs(a, b, low, high);
        lemma_u64_shr_is_div(a, b as u64);
        lemma_pow2_pos(b as nat);
        lemma_pow2_pos((64 - b) as nat);
        lemma_pow2_adds(b as nat, (64 - b) as nat);
        lemma2_to64_rest();
        lemma_div_small_below(a as int, pow2(b as nat) as int, pow2((64 - b) as nat) as int);
    }
    if b & half_bits != 0 {
        u64::from_parts(high >> (b - half_bits), 0)
    } else if b == 0 {
        a
    } else {
        u64::from_parts((high << (half_bits - b)) | (low >> b), high >> b)
    }
}

} // verus!
