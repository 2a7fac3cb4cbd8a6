//! Conversion of a signed 32-bit integer to the nearest single-precision
//! value, ties to even.
use vstd::prelude::*;
use vstd::arithmetic::power2::{pow2, lemma_pow2_pos, lemma_pow2_unfold, lemma_pow2_adds, lemma2_to64};
use vstd::bits::{lemma_u32_shl_is_mul, lemma_u32_shr_is_div, lemma_u32_pow2_no_overflow};
use crate::float::{Binary32, Float};
use crate::mul::abs;

verus! {

/// The position of the highest set bit of `n`, for `n >= 1`.
pub open spec fn log2(n: nat) -> nat
    decreases n,
{
    if n <= 1 {
        0
    } else {
        1 + log2(n / 2)
    }
}

/// `m / 2^k` rounded to the nearest integer, ties to the even one.
pub open spec fn round_half_even(m: nat, k: nat) -> nat {
    let q = m / pow2(k);
    let r = m % pow2(k);
    if k == 0 {
        m
    } else if r > pow2((k - 1) as nat) || (r == pow2((k - 1) as nat) && q % 2 == 1) {
        q + 1
    } else {
        q
    }
}

/// The single-precision pattern of the value nearest to the integer `n`,
/// ties to even. A magnitude `m` with top bit `p` has biased exponent
/// `p + 127`; up to 24 significant bits it is exact, above that it keeps the
/// rounded top 24 bits, and a rounding that reaches 2^24 carries into the
/// exponent.
pub open spec fn nearest_binary32(n: int) -> int {
    let m = abs(n) as nat;
    let p = log2(m);
    let sign: int = if n < 0 { 0x8000_0000 } else { 0 };
    if n == 0 {
        0
    } else if p <= 23 {
        sign + (p + 127) * 0x80_0000 + (m * pow2((23 - p) as nat) - 0x80_0000)
    } else {
        sign + (p + 126) * 0x80_0000 + round_half_even(m, (p - 23) as nat)
    }
}

/// `log2(m)` is `p` exactly when `2^p <= m < 2^(p+1)`.
proof fn lemma_log2_bounds(m: nat, p: nat)
    requires
        pow2(p) <= m < pow2(p + 1),
    ensures
        log2(m) == p,
    decreases p,
{
    lemma_pow2_unfold(p + 1);
    if p == 0 {
        lemma2_to64();
    } else {
        lemma_pow2_unfold(p);
        lemma_pow2_pos((p - 1) as nat);
        lemma_log2_bounds(m / 2, (p - 1) as nat);
    }
}

/// The count of leading zeros of a nonzero word locates its top bit.
proof fn lemma_top_bit(m: u32, l: u32)
    by (bit_vector)
    requires
        l <= 32,
        m == 0 <==> l == 32,
        l < 32 ==> (m >> ((31 - l) as u32)) & 1u32 != 0u32,
        m >> ((32 - l) as u32) == 0,
        m != 0,
    ensures
        l < 32,
        m >> ((31 - l) as u32) >= 1,
        l > 0 ==> m < (1u32 << ((32 - l) as u32)),
{
}

/// The magnitude of a 32-bit integer as an unsigned word.
proof fn lemma_magnitude(a: i32)
    by (bit_vector)
    ensures
        a < 0 ==> 0u32.wrapping_sub(#[verifier::truncate] (a as u32)) == -a,
        a >= 0 ==> a as u32 == a,
{
}

/// Facts on words used to assemble the result.
proof fn lemma_assemble(x: u32, m: u32, s: u32, sign: u32)
    by (bit_vector)
    requires
        1 <= s <= 8,
        sign == 0 || sign == 0x8000_0000,
    ensures
        0x80_0000 <= x < 0x100_0000 ==> (x ^ 0x80_0000u32) == x - 0x80_0000,
        x & 1 == x % 2,
        x < 0x8000_0000 ==> (x | sign) == x + sign,
        m << ((32 - s) as u32) == (m & ((1u32 << s) - 1) as u32) << ((32 - s) as u32),
        m & ((1u32 << s) - 1) as u32 == m % (1u32 << s),
        1u32 << s == 2 * (1u32 << ((s - 1) as u32)),
{
}

/// Returns the single-precision value nearest to `a`, ties to even.
pub fn __floatsisf(a: i32) -> (r: Binary32)
    ensures
        r.repr == nearest_binary32(a as int),
{
    if a == 0 {
        return Binary32::from_repr(Binary32::zero());
    }
    let sign_bit = Binary32::sign_bit();
    proof { lemma_magnitude(a); }
    let ghost n = a as int;
    let mut sign: u32 = 0;
    // The magnitude of `a`; that of `i32::MIN` only fits the unsigned type.
    let a: u32 = if a < 0 {
        sign = sign_bit;
        0u32.wrapping_sub(a as u32)
    } else {
        a as u32
    };
    // The biased exponent of the result is that of the top bit of `a`.
    let type_width: u32 = 32;
    proof {
        vstd::std_specs::bits::axiom_u32_leading_zeros(a);
        lemma_top_bit(a, a.leading_zeros());
    }
    let exponent = (type_width - 1) - a.leading_zeros();
    proof {
        lemma_top_bit_pow2(a, exponent);
        lemma_log2_bounds(a as nat, exponent as nat);
    }
    let significand_bits = Binary32::significand_bits();
    let implicit_bit = Binary32::implicit_bit();
    let exponent_bias = Binary32::exponent_bias();
    let mut result: u32;
    if exponent <= significand_bits {
        let shift = significand_bits - exponent;
        proof { lemma_widen_exact(a, exponent, shift); }
        result = (a << shift) ^ implicit_bit;
        proof { lemma_assemble(a << shift, a, 1, sign); }
    } else {
        let shift = exponent - significand_bits;
        proof { lemma_narrow_round(a, exponent, shift, sign); }
        result = (a >> shift) ^ implicit_bit;
        let round = a << (type_width - shift);
        proof { lemma_assemble(result, a, 1, sign); }
        if round > sign_bit {
            result += 1;
        }
        if round == sign_bit {
            result += result & 1;
        }
        assert(result == round_half_even(a as nat, shift as nat) - 0x80_0000);
    }
    proof {
        lemma2_to64();
        lemma_u32_shl_is_mul((exponent + exponent_bias) as u32, significand_bits);
    }
    result = result + ((exponent + exponent_bias) << significand_bits);
    proof { lemma_assemble(result, a, 1, sign); }
    Binary32::from_repr(result | sign)
}

/// The top bit `p` of a nonzero word bounds it between `2^p` and `2^(p+1)`.
proof fn lemma_top_bit_pow2(a: u32, p: u32)
    requires
        p < 32,
        a >> p >= 1,
        p < 31 ==> a < (1u32 << ((p + 1) as u32)),
    ensures
        pow2(p as nat) <= a < pow2(p as nat + 1),
{
    lemma2_to64();
    lemma_u32_shr_is_div(a, p);
    lemma_pow2_pos(p as nat);
    assert(a as nat / pow2(p as nat) >= 1);
    if (a as int) < pow2(p as nat) {
        vstd::arithmetic::div_mod::lemma_basic_div(a as int, pow2(p as nat) as int);
    }
    if p < 31 {
        lemma_u32_pow2_no_overflow((p + 1) as nat);
        lemma_u32_shl_is_mul(1, (p + 1) as u32);
    }
}

/// Up to 24 significant bits the magnitude shifts left into the significand
/// without loss.
proof fn lemma_widen_exact(a: u32, p: u32, shift: u32)
    requires
        p <= 23,
        shift == 23 - p,
        pow2(p as nat) <= a < pow2(p as nat + 1),
    ensures
        a << shift == a * pow2(shift as nat),
        0x80_0000 <= a << shift < 0x100_0000,
{
    lemma2_to64();
    lemma_pow2_adds(p as nat, shift as nat);
    lemma_pow2_adds(p as nat + 1, shift as nat);
    lemma_pow2_pos(shift as nat);
    let k = pow2(shift as nat) as int;
    assert(pow2(p as nat) * k <= a * k < pow2(p as nat + 1) * k) by (nonlinear_arith)
        requires pow2(p as nat) <= a < pow2(p as nat + 1), k > 0;
    lemma_u32_shl_is_mul(a, shift);
}

/// Above 24 significant bits the magnitude shifts right by `shift`, and the
/// bits shifted out, moved to the top of a word, compare with its top bit as
/// the remainder compares with half of `2^shift`.
proof fn lemma_narrow_round(a: u32, p: u32, shift: u32, sign: u32)
    requires
        23 < p < 32,
        shift == p - 23,
        pow2(p as nat) <= a < pow2(p as nat + 1),
        sign == 0 || sign == 0x8000_0000,
    ensures
        a >> shift == a as nat / pow2(shift as nat),
        0x80_0000 <= a >> shift < 0x100_0000,
        (a << ((32 - shift) as u32)) > 0x8000_0000u32 <==> a as nat % pow2(shift as nat) > pow2((shift - 1) as nat),
        (a << ((32 - shift) as u32)) == 0x8000_0000u32 <==> a as nat % pow2(shift as nat) == pow2((shift - 1) as nat),
        ((a >> shift) ^ 0x80_0000u32) == (a >> shift) - 0x80_0000,
        ((a >> shift) ^ 0x80_0000u32) % 2 == (a >> shift) % 2,
{
    lemma2_to64();
    lemma_u32_shr_is_div(a, shift);
    lemma_pow2_pos(shift as nat);
    lemma_pow2_adds(shift as nat, 23);
    lemma_pow2_adds(shift as nat, 24);
    let d = pow2(shift as nat) as int;
    assert(pow2(23) <= a as int / d < pow2(24)) by {
        vstd::arithmetic::div_mod::lemma_div_is_ordered(d * pow2(23), a as int, d);
        vstd::arithmetic::div_mod::lemma_div_is_ordered(a as int, d * pow2(24) - 1, d);
        vstd::arithmetic::div_mod::lemma_div_by_multiple(pow2(23) as int, d);
        vstd::arithmetic::div_mod::lemma_div_by_multiple(pow2(24) as int, d);
        assert((d * pow2(24) - 1) / d < pow2(24)) by (nonlinear_arith)
            requires d > 0;
        assert(pow2(23) * d == d * pow2(23)) by (nonlinear_arith);
        assert(pow2(24) * d == d * pow2(24)) by (nonlinear_arith);
    }
    lemma_assemble(a >> shift, a, shift, sign);
    lemma_u32_shl_is_mul(1, shift);
    lemma_u32_shl_is_mul(1, (shift - 1) as u32);
    let r = a as nat % pow2(shift as nat);
    vstd::arithmetic::div_mod::lemma_mod_bound(a as int, d);
    let t = (32 - shift) as u32;
    lemma_pow2_pos(t as nat);
    lemma_pow2_adds(shift as nat, t as nat);
    lemma_pow2_adds((shift - 1) as nat, t as nat);
    assert(r * pow2(t as nat) < d * pow2(t as nat)) by (nonlinear_arith)
        requires r < d, pow2(t as nat) > 0;
    lemma_u32_shl_is_mul(r as u32, t);
    let h = pow2((shift - 1) as nat) as int;
    let e = pow2(t as nat) as int;
    assert(r > h <==> r * e > h * e) by (nonlinear_arith)
        requires e > 0;
    assert(r == h <==> r * e == h * e) by (nonlinear_arith)
        requires e > 0;
}

} // verus!
