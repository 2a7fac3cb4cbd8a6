//! Wrapping 64-bit multiplication from 32-bit limbs, and signed
//! multiplication that reports overflow.
use vstd::prelude::*;
use vstd::arithmetic::div_mod::{lemma_fundamental_div_mod, lemma_fundamental_div_mod_converse, lemma_mod_bound};
use crate::wide::{LargeInt, limb_base};

verus! {

/// Splitting a 32-bit word into 16-bit halves with masks and shifts.
proof fn lemma_u32_halves(x: u32)
    by (bit_vector)
    ensures
        x & 0xFFFF == x % 0x10000,
        x >> 16u32 == x / 0x10000,
        (x & 0xFFFF) << 16u32 == (x % 0x10000) * 0x10000,
{
}

/// The product of two 16-bit values fits in 32 bits with room for a carry.
proof fn lemma_half_product(x: int, y: int)
    by (nonlinear_arith)
    requires
        0 <= x < 0x10000,
        0 <= y < 0x10000,
    ensures
        0 <= x * y <= 0xFFFE0001,
{
}

/// Schoolbook expansion of a product of two 32-bit words split in halves.
proof fn lemma_schoolbook(x: int, y: int, xl: int, xh: int, yl: int, yh: int)
    by (nonlinear_arith)
    requires
        x == xl + xh * 0x10000,
        y == yl + yh * 0x10000,
    ensures
        x * y == xl * yl + (xh * yl + xl * yh) * 0x10000 + xh * yh * 0x1_0000_0000,
{
}

/// Dropping the multiples of 2^64 from a product assembled from limbs: the
/// low limb of the low product, and the high limb summed modulo 2^32.
proof fn lemma_wrapping_limbs(a0: int, a1: int, b0: int, b1: int, low: int, h: int, c: int)
    requires
        0 <= low < limb_base(),
        0 <= h < limb_base(),
        a0 * b0 == low + h * limb_base(),
        c == ((a1 * b0) % limb_base() + (a0 * b1) % limb_base()) % limb_base(),
    ensures
        low + ((h + c) % limb_base()) * limb_base()
            == ((a0 + a1 * limb_base()) * (b0 + b1 * limb_base())) % 0x1_0000_0000_0000_0000,
{
    let w = limb_base();
    let x = a1 * b0;
    let y = a0 * b1;
    let k = h + x + y;
    vstd::arithmetic::div_mod::lemma_add_mod_noop(x, y, w);
    vstd::arithmetic::div_mod::lemma_add_mod_noop(h, x + y, w);
    vstd::arithmetic::div_mod::lemma_small_mod(h as nat, w as nat);
    assert((h + c) % w == k % w);
    lemma_fundamental_div_mod(k, w);
    lemma_mod_bound(k, w);
    let q = k / w;
    let m = k % w;
    lemma_expand_limbs(a0, a1, b0, b1);
    assert((a0 + a1 * w) * (b0 + b1 * w) == (low + m * w) + (q + a1 * b1) * 0x1_0000_0000_0000_0000);
    lemma_fundamental_div_mod_converse(
        (a0 + a1 * w) * (b0 + b1 * w),
        0x1_0000_0000_0000_0000,
        q + a1 * b1,
        low + m * w,
    );
}

/// Expansion of a product of two numbers written in base 2^32.
proof fn lemma_expand_limbs(a0: int, a1: int, b0: int, b1: int)
    by (nonlinear_arith)
    ensures
        (a0 + a1 * 0x1_0000_0000) * (b0 + b1 * 0x1_0000_0000) == a0 * b0 + (a1 * b0 + a0 * b1)
            * 0x1_0000_0000 + (a1 * b1) * 0x1_0000_0000_0000_0000,
{
}

/// Returns `a * b` modulo 2^64, computed from 32-bit limbs split into 16-bit
/// halves so that no partial product needs more than 32 bits.
#[verifier::rlimit(40)]
pub fn __muldi3(a: u64, b: u64) -> (r: u64)
    ensures
        r == (a * b) % 0x1_0000_0000_0000_0000,
{
    let half_bits: u32 = 64 / 4;
    let lower_mask: u32 = !0u32 >> half_bits;
    assert(!0u32 >> 16u32 == 0xFFFF) by (bit_vector);
    let a_low = a.low();
    let b_low = b.low();
    let a_high = a.high();
    let b_high = b.high();
    let ghost al: int = a_low as int % 0x10000;
    let ghost ah: int = a_low as int / 0x10000;
    let ghost bl: int = b_low as int % 0x10000;
    let ghost bh: int = b_low as int / 0x10000;
    proof {
        lemma_u32_halves(a_low);
        lemma_u32_halves(b_low);
        lemma_half_product(al, bl);
        lemma_half_product(ah, bl);
        lemma_half_product(al, bh);
        lemma_half_product(ah, bh);
        lemma_schoolbook(a_low as int, b_low as int, al, ah, bl, bh);
    }
    let ghost prod_ll = al * bl;
    let ghost prod_hl = ah * bl;
    let ghost prod_lh = al * bh;
    let ghost prod_hh = ah * bh;
    let mut low: u32 = (a_low & lower_mask) * (b_low & lower_mask);
    assert(low == prod_ll);
    proof { lemma_u32_halves(low); }
    let mut t: u32 = low >> half_bits;
    low &= lower_mask;
    assert(low == prod_ll % 0x10000 && t == prod_ll / 0x10000);
    t += (a_low >> half_bits) * (b_low & lower_mask);
    assert(t == prod_ll / 0x10000 + prod_hl);
    proof { lemma_u32_halves(t); }
    low += (t & lower_mask) << half_bits;
    let mut high: u32 = t >> half_bits;
    assert(low == prod_ll % 0x10000 + (t % 0x10000) * 0x10000 && high == t / 0x10000);
    let ghost t2 = t as int;
    proof { lemma_u32_halves(low); }
    t = low >> half_bits;
    low &= lower_mask;
    assert(t == t2 % 0x10000 && low == prod_ll % 0x10000);
    t += (b_low >> half_bits) * (a_low & lower_mask);
    assert(t == t2 % 0x10000 + prod_lh);
    proof { lemma_u32_halves(t); }
    low += (t & lower_mask) << half_bits;
    high += t >> half_bits;
    high += (a_low >> half_bits) * (b_low >> half_bits);
    assert(low == prod_ll % 0x10000 + (t % 0x10000) * 0x10000);
    assert(high == t2 / 0x10000 + t / 0x10000 + prod_hh);
    assert(low + high * limb_base() == prod_ll + (prod_hl + prod_lh) * 0x10000 + prod_hh * 0x1_0000_0000);
    let cross = a_high.wrapping_mul(b_low).wrapping_add(a_low.wrapping_mul(b_high));
    let ghost h = high;
    high = high.wrapping_add(cross);
    proof {
        lemma_wrapping_limbs(a_low as int, a_high as int, b_low as int, b_high as int, low as int, h as int, cross as int);
    }
    u64::from_parts(low, high)
}

/// `x` exceeds the quotient `m / y` exactly when `x * y` exceeds `m`.
proof fn lemma_above_quotient(x: int, y: int, m: int)
    requires
        x >= 0,
        y > 0,
        m >= 0,
    ensures
        x > m / y <==> x * y > m,
{
    lemma_fundamental_div_mod(m, y);
    lemma_mod_bound(m, y);
    let q = m / y;
    let r = m % y;
    if x > q {
        assert(x * y > m) by (nonlinear_arith)
            requires x >= q + 1, y > 0, m == y * q + r, r < y;
    } else {
        assert(x * y <= m) by (nonlinear_arith)
            requires x <= q, y > 0, m == y * q + r, r >= 0;
    }
}

/// The sign mask of a 32-bit value, and its magnitude through that mask.
proof fn lemma_sign_mask_i32(a: i32)
    by (bit_vector)
    ensures
        a >> 31u32 == (if a < 0 { -1i32 } else { 0i32 }),
        a != -0x8000_0000i32 ==> (a ^ (a >> 31u32)) - (a >> 31u32) == (if a < 0 { -a } else { a as int }),
{
}

/// The sign mask of a 64-bit value, and its magnitude through that mask.
proof fn lemma_sign_mask_i64(a: i64)
    by (bit_vector)
    ensures
        a >> 63u32 == (if a < 0 { -1i64 } else { 0i64 }),
        a != -0x8000_0000_0000_0000i64 ==> (a ^ (a >> 63u32)) - (a >> 63u32) == (if a < 0 { -a } else { a as int }),
{
}

/// Magnitudes of at least two decide overflow by comparing one magnitude with
/// the largest factor that the bound allows for the other.
proof fn lemma_overflow_by_magnitude(a: int, b: int, lo: int, hi: int)
    requires
        lo == -hi - 1,
        hi > 0,
        a != 0,
        b != 0,
    ensures
        (a < 0) == (b < 0) ==> ((lo <= a * b <= hi) <==> !(abs(a) * abs(b) > hi)),
        (a < 0) != (b < 0) ==> ((lo <= a * b <= hi) <==> !(abs(a) * abs(b) > -lo)),
{
    assert(abs(a) * abs(b) > 0) by (nonlinear_arith)
        requires a != 0, b != 0;
    if (a < 0) == (b < 0) {
        assert(a * b == abs(a) * abs(b)) by (nonlinear_arith)
            requires (a < 0) == (b < 0);
    } else {
        assert(a * b == -(abs(a) * abs(b))) by (nonlinear_arith)
            requires (a < 0) != (b < 0);
    }
}

/// A factor of magnitude at most one keeps the product within the range of
/// the other factor.
proof fn lemma_small_factor(a: int, b: int, lo: int, hi: int)
    requires
        lo < a <= hi,
        lo < b <= hi,
        abs(a) < 2 || abs(b) < 2,
        lo == -hi - 1,
    ensures
        lo <= a * b <= hi,
{
    if abs(a) < 2 {
        lemma_unit_product(a, b);
    } else {
        lemma_unit_product(b, a);
    }
}

/// A product with a factor in `{-1, 0, 1}`.
proof fn lemma_unit_product(a: int, b: int)
    by (nonlinear_arith)
    requires
        -1 <= a <= 1,
    ensures
        a == -1 ==> a * b == -b && b * a == -b,
        a == 0 ==> a * b == 0 && b * a == 0,
        a == 1 ==> a * b == b && b * a == b,
{
}

/// The magnitude of an integer.
pub open spec fn abs(x: int) -> int {
    if x < 0 { -x } else { x }
}

/// `x` wrapped into the range of a 32-bit two's-complement integer.
pub open spec fn wrap_i32(x: int) -> int {
    (x + 0x8000_0000) % 0x1_0000_0000 - 0x8000_0000
}

/// `x` wrapped into the range of a 64-bit two's-complement integer.
pub open spec fn wrap_i64(x: int) -> int {
    (x + 0x8000_0000_0000_0000) % 0x1_0000_0000_0000_0000 - 0x8000_0000_0000_0000
}

/// Returns `a * b` wrapped to 32 bits, and sets `*overflow` to 1 when the
/// exact product lies outside the range of `i32`, to 0 otherwise.
pub fn __mulosi4(a: i32, b: i32, overflow: &mut i32) -> (r: i32)
    ensures
        r == wrap_i32(a * b),
        *final(overflow) == (if i32::MIN <= a * b <= i32::MAX { 0i32 } else { 1i32 }),
{
    *overflow = 0;
    let result = a.wrapping_mul(b);
    assert(result == wrap_i32(a * b));
    if a == i32::MIN {
        if b != 0 && b != 1 {
            *overflow = 1;
        }
        return result;
    }
    if b == i32::MIN {
        if a != 0 && a != 1 {
            *overflow = 1;
        }
        return result;
    }
    proof {
        lemma_sign_mask_i32(a);
        lemma_sign_mask_i32(b);
    }
    let sa = a >> (32 - 1u32);
    assert(sa == a >> 31u32);
    let abs_a = (a ^ sa) - sa;
    let sb = b >> (32 - 1u32);
    assert(sb == b >> 31u32);
    let abs_b = (b ^ sb) - sb;
    if abs_a < 2 || abs_b < 2 {
        proof { lemma_small_factor(a as int, b as int, i32::MIN as int, i32::MAX as int); }
        return result;
    }
    proof {
        lemma_overflow_by_magnitude(a as int, b as int, i32::MIN as int, i32::MAX as int);
    }
    if sa == sb {
        proof { lemma_above_quotient(abs_a as int, abs_b as int, i32::MAX as int); }
        let limit = i32::MAX / abs_b;
        assert(limit == i32::MAX as int / abs_b as int);
        if abs_a > limit {
            *overflow = 1;
        }
    } else {
        proof { lemma_above_quotient(abs_a as int, abs_b as int, 0x8000_0000); }
        // The magnitude of `i32::MIN`, 2^31, only fits the unsigned type.
        let min_magnitude: u32 = 0x8000_0000;
        let limit = min_magnitude / (abs_b as u32);
        assert(limit == 0x8000_0000int / abs_b as int);
        if abs_a as u32 > limit {
            *overflow = 1;
        }
    }
    result
}

/// Returns `a * b` wrapped to 64 bits, and sets `*overflow` to 1 when the
/// exact product lies outside the range of `i64`, to 0 otherwise.
pub fn __mulodi4(a: i64, b: i64, overflow: &mut i32) -> (r: i64)
    ensures
        r == wrap_i64(a * b),
        *final(overflow) == (if i64::MIN <= a * b <= i64::MAX { 0i32 } else { 1i32 }),
{
    *overflow = 0;
    let result = a.wrapping_mul(b);
    assert(result == wrap_i64(a * b));
    if a == i64::MIN {
        if b != 0 && b != 1 {
            *overflow = 1;
        }
        return result;
    }
    if b == i64::MIN {
        if a != 0 && a != 1 {
            *overflow = 1;
        }
        return result;
    }
    proof {
        lemma_sign_mask_i64(a);
        lemma_sign_mask_i64(b);
    }
    let sa = a >> (64 - 1u32);
    assert(sa == a >> 63u32);
    let abs_a = (a ^ sa) - sa;
    let sb = b >> (64 - 1u32);
    assert(sb == b >> 63u32);
    let abs_b = (b ^ sb) - sb;
    if abs_a < 2 || abs_b < 2 {
        proof { lemma_small_factor(a as int, b as int, i64::MIN as int, i64::MAX as int); }
        return result;
    }
    proof {
        lemma_overflow_by_magnitude(a as int, b as int, i64::MIN as int, i64::MAX as int);
    }
    if sa == sb {
        proof { lemma_above_quotient(abs_a as int, abs_b as int, i64::MAX as int); }
        let limit = i64::MAX / abs_b;
        assert(limit == i64::MAX as int / abs_b as int);
        if abs_a > limit {
            *overflow = 1;
        }
    } else {
        proof { lemma_above_quotient(abs_a as int, abs_b as int, 0x8000_0000_0000_0000); }
        // The magnitude of `i64::MIN`, 2^63, only fits the unsigned type.
        let min_magnitude: u64 = 0x8000_0000_0000_0000;
        let limit = min_magnitude / (abs_b as u64);
        assert(limit == 0x8000_0000_0000_0000int / abs_b as int);
        if abs_a as u64 > limit {
            *overflow = 1;
        }
    }
    result
}

/// Wrapping multiplication commutes, and a zero factor gives zero.
pub proof fn lemma_multiply_laws(a: u64, b: u64)
    ensures
        (a * b) % 0x1_0000_0000_0000_0000 == (b * a) % 0x1_0000_0000_0000_0000,
        (a * 0) % 0x1_0000_0000_0000_0000 == 0,
{
    assert(a * b == b * a) by (nonlinear_arith);
}

} // verus!
