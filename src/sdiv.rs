//! Signed division and remainder built on unsigned division of magnitudes.
use vstd::prelude::*;
use crate::mul::{abs, wrap_i32, wrap_i64};

verus! {

/// The quotient `n / d` rounded toward zero.
pub open spec fn quotient_toward_zero(n: int, d: int) -> int {
    if (n < 0) == (d < 0) {
        abs(n) / abs(d)
    } else {
        -(abs(n) / abs(d))
    }
}

/// The remainder of `n / d` rounded toward zero: it takes the sign of `n`.
pub open spec fn remainder_toward_zero(n: int, d: int) -> int {
    if n < 0 {
        -(abs(n) % abs(d))
    } else {
        abs(n) % abs(d)
    }
}

/// The sign mask of a 32-bit value, and its magnitude through that mask.
proof fn lemma_magnitude_i32(a: i32)
    by (bit_vector)
    ensures
        a >> 31u32 == (if a < 0 { -1i32 } else { 0i32 }),
        (#[verifier::truncate] (((a ^ (a >> 31u32)).wrapping_sub(a >> 31u32)) as u32)) == (if a < 0 {
            -a
        } else {
            a as int
        }),
{
}

/// A sign mask applied to an unsigned result: kept for 0, negated for -1.
proof fn lemma_apply_sign_i32(u: u32, s: i32)
    by (bit_vector)
    requires
        s == 0 || s == -1,
    ensures
        ((#[verifier::truncate] (u as i32)) ^ s).wrapping_sub(s) == (if s == 0 {
            wrap_i32(u as int)
        } else {
            wrap_i32(-u)
        }),
{
}

/// Two sign masks combined: -1 exactly when the signs differ.
proof fn lemma_mask_xor_i32(x: i32, y: i32)
    by (bit_vector)
    requires
        x == 0 || x == -1,
        y == 0 || y == -1,
    ensures
        x ^ y == (if x == y { 0i32 } else { -1i32 }),
{
}

/// Returns `a / b` rounded toward zero (`i32::MIN / -1` wraps to `i32::MIN`).
pub fn __divsi3(a: i32, b: i32) -> (r: i32)
    requires
        b != 0,
    ensures
        r == wrap_i32(quotient_toward_zero(a as int, b as int)),
{
    proof {
        lemma_magnitude_i32(a);
        lemma_magnitude_i32(b);
    }
    let s_a = a >> (32 - 1u32);
    let s_b = b >> (32 - 1u32);
    let ua = (a ^ s_a).wrapping_sub(s_a) as u32;
    let ub = (b ^ s_b).wrapping_sub(s_b) as u32;
    let s = s_a ^ s_b;
    proof {
        lemma_mask_xor_i32(s_a, s_b);
    }
    let r = ua / ub;
    proof {
        lemma_apply_sign_i32(r, s);
    }
    ((r as i32) ^ s).wrapping_sub(s)
}

/// Returns `a % b` rounded toward zero: the remainder takes the sign of `a`.
pub fn __modsi3(a: i32, b: i32) -> (r: i32)
    requires
        b != 0,
    ensures
        r == remainder_toward_zero(a as int, b as int),
{
    proof {
        lemma_magnitude_i32(a);
        lemma_magnitude_i32(b);
    }
    let s = b >> (32 - 1u32);
    let ub = (b ^ s).wrapping_sub(s) as u32;
    let s = a >> (32 - 1u32);
    let ua = (a ^ s).wrapping_sub(s) as u32;
    let r = ua % ub;
    proof {
        lemma_apply_sign_i32(r, s);
    }
    ((r as i32) ^ s).wrapping_sub(s)
}

/// Returns `a / b` rounded toward zero, as `__divsi3` does, and stores the
/// remainder, as `__modsi3` gives it, in `*rem`.
pub fn __divmodsi4(a: i32, b: i32, rem: &mut i32) -> (r: i32)
    requires
        b != 0,
    ensures
        r == wrap_i32(quotient_toward_zero(a as int, b as int)),
        *final(rem) == remainder_toward_zero(a as int, b as int),
{
    let r = __divsi3(a, b);
    *rem = a.wrapping_sub(r.wrapping_mul(b));
    proof {
        lemma_toward_zero(a as int, b as int);
        lemma_wrapped_remainder_i32(a as int, b as int, r as int);
    }
    r
}

/// Truncating division splits `n` into quotient and remainder, the remainder
/// smaller than the divisor and signed like `n`.
pub proof fn lemma_toward_zero(n: int, d: int)
    requires
        d != 0,
    ensures
        quotient_toward_zero(n, d) * d + remainder_toward_zero(n, d) == n,
        abs(remainder_toward_zero(n, d)) < abs(d),
        remainder_toward_zero(n, d) == 0 || (remainder_toward_zero(n, d) < 0) == (n < 0),
        abs(quotient_toward_zero(n, d)) <= abs(n),
{
    let q = abs(n) / abs(d);
    let r = abs(n) % abs(d);
    vstd::arithmetic::div_mod::lemma_fundamental_div_mod(abs(n), abs(d));
    vstd::arithmetic::div_mod::lemma_mod_bound(abs(n), abs(d));
    vstd::arithmetic::div_mod::lemma_div_pos_is_pos(abs(n), abs(d));
    assert(q <= abs(n)) by (nonlinear_arith)
        requires abs(n) == abs(d) * q + r, abs(d) >= 1, r >= 0, q >= 0;
    if n >= 0 && d > 0 {
        assert(q * d == abs(d) * q) by (nonlinear_arith) requires abs(d) == d;
    } else if n >= 0 && d < 0 {
        assert(-q * d == abs(d) * q) by (nonlinear_arith) requires abs(d) == -d;
    } else if n < 0 && d > 0 {
        assert(-q * d == -(abs(d) * q)) by (nonlinear_arith) requires abs(d) == d;
    } else {
        assert(q * d == -(abs(d) * q)) by (nonlinear_arith) requires abs(d) == -d;
    }
}

/// Wrapping to 32 bits depends only on the residue modulo 2^32, and leaves
/// values in range unchanged.
proof fn lemma_wrap_i32(x: int, y: int)
    ensures
        x % 0x1_0000_0000 == y % 0x1_0000_0000 ==> wrap_i32(x) == wrap_i32(y),
        wrap_i32(x) % 0x1_0000_0000 == x % 0x1_0000_0000,
        i32::MIN <= x <= i32::MAX ==> wrap_i32(x) == x,
{
    let m: int = 0x1_0000_0000;
    vstd::arithmetic::div_mod::lemma_add_mod_noop(x, 0x8000_0000, m);
    vstd::arithmetic::div_mod::lemma_add_mod_noop(y, 0x8000_0000, m);
    vstd::arithmetic::div_mod::lemma_mod_bound(x + 0x8000_0000, m);
    vstd::arithmetic::div_mod::lemma_mod_sub_multiples_vanish(x + 0x8000_0000, m);
    vstd::arithmetic::div_mod::lemma_sub_mod_noop((x + 0x8000_0000) % m, 0x8000_0000, m);
    vstd::arithmetic::div_mod::lemma_mod_twice(x + 0x8000_0000, m);
    vstd::arithmetic::div_mod::lemma_sub_mod_noop(x + 0x8000_0000, 0x8000_0000, m);
    if i32::MIN <= x <= i32::MAX {
        vstd::arithmetic::div_mod::lemma_small_mod((x + 0x8000_0000) as nat, m as nat);
    }
}

/// `n - wrap(wrap(q) * d)`, wrapped, is the truncating remainder.
proof fn lemma_wrapped_remainder_i32(n: int, d: int, r: int)
    requires
        d != 0,
        i32::MIN <= n <= i32::MAX,
        i32::MIN <= d <= i32::MAX,
        r == wrap_i32(quotient_toward_zero(n, d)),
    ensures
        wrap_i32(n - wrap_i32(r * d)) == remainder_toward_zero(n, d),
{
    let m: int = 0x1_0000_0000;
    let q = quotient_toward_zero(n, d);
    let rem = remainder_toward_zero(n, d);
    lemma_toward_zero(n, d);
    lemma_wrap_i32(q, q);
    lemma_wrap_i32(r * d, r * d);
    vstd::arithmetic::div_mod::lemma_mul_mod_noop_left(r, d, m);
    vstd::arithmetic::div_mod::lemma_mul_mod_noop_left(q, d, m);
    assert((r * d) % m == (q * d) % m);
    vstd::arithmetic::div_mod::lemma_sub_mod_noop(n, wrap_i32(r * d), m);
    vstd::arithmetic::div_mod::lemma_sub_mod_noop(n, q * d, m);
    assert((n - wrap_i32(r * d)) % m == rem % m);
    lemma_wrap_i32(n - wrap_i32(r * d), rem);
    lemma_wrap_i32(rem, rem);
}

/// The sign mask of a 64-bit value, and its magnitude through that mask.
proof fn lemma_magnitude_i64(a: i64)
    by (bit_vector)
    ensures
        a >> 63u32 == (if a < 0 { -1i64 } else { 0i64 }),
        (#[verifier::truncate] (((a ^ (a >> 63u32)).wrapping_sub(a >> 63u32)) as u64)) == (if a < 0 {
            -a
        } else {
            a as int
        }),
{
}

/// A sign mask applied to an unsigned result: kept for 0, negated for -1.
proof fn lemma_apply_sign_i64(u: u64, s: i64)
    by (bit_vector)
    requires
        s == 0 || s == -1,
    ensures
        ((#[verifier::truncate] (u as i64)) ^ s).wrapping_sub(s) == (if s == 0 {
            wrap_i64(u as int)
        } else {
            wrap_i64(-u)
        }),
{
}

/// Two sign masks combined: -1 exactly when the signs differ.
proof fn lemma_mask_xor_i64(x: i64, y: i64)
    by (bit_vector)
    requires
        x == 0 || x == -1,
        y == 0 || y == -1,
    ensures
        x ^ y == (if x == y { 0i64 } else { -1i64 }),
{
}

/// Returns `a / b` rounded toward zero (`i64::MIN / -1` wraps to `i64::MIN`).
pub fn __divdi3(a: i64, b: i64) -> (r: i64)
    requires
        b != 0,
    ensures
        r == wrap_i64(quotient_toward_zero(a as int, b as int)),
{
    proof {
        lemma_magnitude_i64(a);
        lemma_magnitude_i64(b);
    }
    let s_a = a >> (64 - 1u32);
    let s_b = b >> (64 - 1u32);
    let ua = (a ^ s_a).wrapping_sub(s_a) as u64;
    let ub = (b ^ s_b).wrapping_sub(s_b) as u64;
    let s = s_a ^ s_b;
    proof {
        lemma_mask_xor_i64(s_a, s_b);
    }
    let r = ua / ub;
    proof {
        lemma_apply_sign_i64(r, s);
    }
    ((r as i64) ^ s).wrapping_sub(s)
}

/// Returns `a % b` rounded toward zero: the remainder takes the sign of `a`.
pub fn __moddi3(a: i64, b: i64) -> (r: i64)
    requires
        b != 0,
    ensures
        r == remainder_toward_zero(a as int, b as int),
{
    proof {
        lemma_magnitude_i64(a);
        lemma_magnitude_i64(b);
    }
    let s = b >> (64 - 1u32);
    let ub = (b ^ s).wrapping_sub(s) as u64;
    let s = a >> (64 - 1u32);
    let ua = (a ^ s).wrapping_sub(s) as u64;
    let r = ua % ub;
    proof {
        lemma_apply_sign_i64(r, s);
    }
    ((r as i64) ^ s).wrapping_sub(s)
}

/// Returns `a / b` rounded toward zero, as `__divdi3` does, and stores the
/// remainder, as `__moddi3` gives it, in `*rem`.
pub fn __divmoddi4(a: i64, b: i64, rem: &mut i64) -> (r: i64)
    requires
        b != 0,
    ensures
        r == wrap_i64(quotient_toward_zero(a as int, b as int)),
        *final(rem) == remainder_toward_zero(a as int, b as int),
{
    let r = __divdi3(a, b);
    *rem = a.wrapping_sub(r.wrapping_mul(b));
    proof {
        lemma_toward_zero(a as int, b as int);
        lemma_wrapped_remainder_i64(a as int, b as int, r as int);
    }
    r
}

/// Wrapping to 64 bits depends only on the residue modulo 2^64, and leaves
/// values in range unchanged.
proof fn lemma_wrap_i64(x: int, y: int)
    ensures
        x % 0x1_0000_0000_0000_0000 == y % 0x1_0000_0000_0000_0000 ==> wrap_i64(x) == wrap_i64(y),
        wrap_i64(x) % 0x1_0000_0000_0000_0000 == x % 0x1_0000_0000_0000_0000,
        i64::MIN <= x <= i64::MAX ==> wrap_i64(x) == x,
{
    let m: int = 0x1_0000_0000_0000_0000;
    vstd::arithmetic::div_mod::lemma_add_mod_noop(x, 0x8000_0000_0000_0000, m);
    vstd::arithmetic::div_mod::lemma_add_mod_noop(y, 0x8000_0000_0000_0000, m);
    vstd::arithmetic::div_mod::lemma_mod_bound(x + 0x8000_0000_0000_0000, m);
    vstd::arithmetic::div_mod::lemma_mod_sub_multiples_vanish(x + 0x8000_0000_0000_0000, m);
    vstd::arithmetic::div_mod::lemma_sub_mod_noop((x + 0x8000_0000_0000_0000) % m, 0x8000_0000_0000_0000, m);
    vstd::arithmetic::div_mod::lemma_mod_twice(x + 0x8000_0000_0000_0000, m);
    vstd::arithmetic::div_mod::lemma_sub_mod_noop(x + 0x8000_0000_0000_0000, 0x8000_0000_0000_0000, m);
    if i64::MIN <= x <= i64::MAX {
        vstd::arithmetic::div_mod::lemma_small_mod((x + 0x8000_0000_0000_0000) as nat, m as nat);
    }
}

/// `n - wrap(wrap(q) * d)`, wrapped, is the truncating remainder.
proof fn lemma_wrapped_remainder_i64(n: int, d: int, r: int)
    requires
        d != 0,
        i64::MIN <= n <= i64::MAX,
        i64::MIN <= d <= i64::MAX,
        r == wrap_i64(quotient_toward_zero(n, d)),
    ensures
        wrap_i64(n - wrap_i64(r * d)) == remainder_toward_zero(n, d),
{
    let m: int = 0x1_0000_0000_0000_0000;
    let q = quotient_toward_zero(n, d);
    let rem = remainder_toward_zero(n, d);
    lemma_toward_zero(n, d);
    lemma_wrap_i64(q, q);
    lemma_wrap_i64(r * d, r * d);
    vstd::arithmetic::div_mod::lemma_mul_mod_noop_left(r, d, m);
    vstd::arithmetic::div_mod::lemma_mul_mod_noop_left(q, d, m);
    assert((r * d) % m == (q * d) % m);
    vstd::arithmetic::div_mod::lemma_sub_mod_noop(n, wrap_i64(r * d), m);
    vstd::arithmetic::div_mod::lemma_sub_mod_noop(n, q * d, m);
    assert((n - wrap_i64(r * d)) % m == rem % m);
    lemma_wrap_i64(n - wrap_i64(r * d), rem);
    lemma_wrap_i64(rem, rem);
}

/// Quotient times divisor plus remainder gives the dividend back in 32-bit
/// wrapping arithmetic, and exactly but for `i32::MIN / -1`, whose quotient
/// wraps; the remainder is zero or signed like the dividend.
pub proof fn lemma_divide_modulo_i32(n: i32, d: i32)
    requires
        d != 0,
    ensures
        wrap_i32(wrap_i32(quotient_toward_zero(n as int, d as int)) * d + remainder_toward_zero(n as int, d as int))
            == n,
        !(n == i32::MIN && d == -1) ==> wrap_i32(quotient_toward_zero(n as int, d as int)) * d
            + remainder_toward_zero(n as int, d as int) == n,
        remainder_toward_zero(n as int, d as int) == 0 || (remainder_toward_zero(n as int, d as int) < 0) == (n
            < 0),
{
    let q = quotient_toward_zero(n as int, d as int);
    let rem = remainder_toward_zero(n as int, d as int);
    let m: int = 0x1_0000_0000;
    lemma_toward_zero(n as int, d as int);
    lemma_wrap_i32(q, q);
    vstd::arithmetic::div_mod::lemma_mul_mod_noop_left(wrap_i32(q), d as int, m);
    vstd::arithmetic::div_mod::lemma_mul_mod_noop_left(q, d as int, m);
    vstd::arithmetic::div_mod::lemma_add_mod_noop(wrap_i32(q) * d, rem, m);
    vstd::arithmetic::div_mod::lemma_add_mod_noop(q * d, rem, m);
    lemma_wrap_i32(wrap_i32(q) * d + rem, n as int);
    lemma_wrap_i32(n as int, n as int);
    if !(n == i32::MIN && d == -1) {
        lemma_quotient_in_range(n as int, d as int, i32::MIN as int, i32::MAX as int);
        lemma_wrap_i32(q, q);
    }
}

/// The truncating quotient stays in range but for `MIN / -1`.
proof fn lemma_quotient_in_range(n: int, d: int, lo: int, hi: int)
    requires
        d != 0,
        lo == -hi - 1,
        hi > 0,
        lo <= n <= hi,
        lo <= d <= hi,
        !(n == lo && d == -1),
    ensures
        lo <= quotient_toward_zero(n, d) <= hi,
{
    lemma_toward_zero(n, d);
    let q = abs(n) / abs(d);
    vstd::arithmetic::div_mod::lemma_div_pos_is_pos(abs(n), abs(d));
    if abs(d) >= 2 {
        vstd::arithmetic::div_mod::lemma_div_is_ordered_by_denominator(abs(n), 2, abs(d));
        assert(abs(n) / 2 <= hi) by {
            vstd::arithmetic::div_mod::lemma_fundamental_div_mod(abs(n), 2);
        }
    }
}

/// Quotient times divisor plus remainder gives the dividend back in 64-bit
/// wrapping arithmetic, and exactly but for `i64::MIN / -1`, whose quotient
/// wraps; the remainder is zero or signed like the dividend.
pub proof fn lemma_divide_modulo_i64(n: i64, d: i64)
    requires
        d != 0,
    ensures
        wrap_i64(wrap_i64(quotient_toward_zero(n as int, d as int)) * d + remainder_toward_zero(n as int, d as int))
            == n,
        !(n == i64::MIN && d == -1) ==> wrap_i64(quotient_toward_zero(n as int, d as int)) * d
            + remainder_toward_zero(n as int, d as int) == n,
        remainder_toward_zero(n as int, d as int) == 0 || (remainder_toward_zero(n as int, d as int) < 0) == (n
            < 0),
{
    let q = quotient_toward_zero(n as int, d as int);
    let rem = remainder_toward_zero(n as int, d as int);
    let m: int = 0x1_0000_0000_0000_0000;
    lemma_toward_zero(n as int, d as int);
    lemma_wrap_i64(q, q);
    vstd::arithmetic::div_mod::lemma_mul_mod_noop_left(wrap_i64(q), d as int, m);
    vstd::arithmetic::div_mod::lemma_mul_mod_noop_left(q, d as int, m);
    vstd::arithmetic::div_mod::lemma_add_mod_noop(wrap_i64(q) * d, rem, m);
    vstd::arithmetic::div_mod::lemma_add_mod_noop(q * d, rem, m);
    lemma_wrap_i64(wrap_i64(q) * d + rem, n as int);
    lemma_wrap_i64(n as int, n as int);
    if !(n == i64::MIN && d == -1) {
        lemma_quotient_in_range(n as int, d as int, i64::MIN as int, i64::MAX as int);
        lemma_wrap_i64(q, q);
    }
}

} // verus!
