//! IEEE-754 addition on raw bit patterns, for single and double precision.
//!
//! One procedure serves both formats: it works on the pattern held in a
//! `u64` and takes the widths of the significand and of the exponent.
use vstd::prelude::*;
use vstd::std_specs::bits::u64_leading_zeros;
use crate::float::{Binary32, Binary64, Float, known_format};
use crate::nearest::{lemma_add_is_nearest, nearest_sum};

verus! {

/// The width of the format.
pub open spec fn width(sb: u64, eb: u64) -> u64 {
    (sb + eb + 1) as u64
}

/// The bit just above the stored significand.
pub open spec fn implicit(sb: u64) -> u64 {
    1u64 << sb
}

/// The bits of the stored significand.
pub open spec fn sig_mask(sb: u64) -> u64 {
    ((1u64 << sb) - 1) as u64
}

/// The sign bit.
pub open spec fn sign_of_format(sb: u64, eb: u64) -> u64 {
    1u64 << ((sb + eb) as u64)
}

/// Every bit but the sign bit.
pub open spec fn abs_of_format(sb: u64, eb: u64) -> u64 {
    ((1u64 << ((sb + eb) as u64)) - 1) as u64
}

/// The pattern of positive infinity: all exponent bits set.
pub open spec fn inf_of_format(sb: u64, eb: u64) -> u64 {
    abs_of_format(sb, eb) ^ sig_mask(sb)
}

/// The largest biased exponent.
pub open spec fn max_exp(eb: u64) -> u64 {
    ((1u64 << eb) - 1) as u64
}

/// The top significand bit, set in a quiet NaN.
pub open spec fn quiet(sb: u64) -> u64 {
    (1u64 << sb) >> 1u64
}

/// The pattern of the canonical positive quiet NaN.
pub open spec fn qnan_of_format(sb: u64, eb: u64) -> u64 {
    inf_of_format(sb, eb) | quiet(sb)
}

/// `x` shifted right by `n`, with a 1 or-ed into the lowest bit when any bit
/// shifted out was set; a shift by the width or more leaves only that bit.
pub open spec fn shift_right_sticky(x: u64, n: int, w: u64) -> u64 {
    if n <= 0 {
        x
    } else if n < w {
        (x >> (n as u64)) | (if x & (((1u64 << (n as u64)) - 1) as u64) != 0 { 1u64 } else { 0u64 })
    } else {
        1
    }
}

/// The biased exponent and significand of a finite nonzero pattern; a
/// subnormal one is normalized, its significand shifted up to the implicit
/// bit and its exponent lowered to match.
pub open spec fn unpack(x: u64, sb: u64, eb: u64) -> (int, u64) {
    let e = (x >> sb) & max_exp(eb);
    let f = x & sig_mask(sb);
    if e == 0 {
        let shift = u64_leading_zeros(f) - u64_leading_zeros(implicit(sb));
        (1 - shift, f << (shift as u64))
    } else {
        (e as int, f)
    }
}

/// After a subtraction, the significand (with three extra low bits) shifted
/// up until its top bit is at `top`, and the exponent lowered to match.
pub open spec fn renormalize(e: int, s: u64, top: u64) -> (int, u64) {
    if s < top {
        let shift = u64_leading_zeros(s) - u64_leading_zeros(top);
        (e - shift, s << (shift as u64))
    } else {
        (e, s)
    }
}

/// Rounds to nearest, ties to even: `r` is the truncated pattern and `rgs`
/// the three bits below it (round, guard and sticky). A carry may run into
/// the exponent, up to infinity.
pub open spec fn round_nearest_even(r: u64, rgs: u64) -> u64 {
    if rgs > 4 {
        r.wrapping_add(1)
    } else if rgs == 4 {
        r.wrapping_add(r & 1)
    } else {
        r
    }
}

/// Packs exponent `e` and significand `s` (implicit bit at `sb + 3`, three
/// extra low bits) with sign bit `sign`: infinity when the exponent is too
/// large, a subnormal when it is below 1, then rounded.
pub open spec fn pack(e: int, s: u64, sign: u64, sb: u64, eb: u64) -> u64 {
    if e >= max_exp(eb) {
        inf_of_format(sb, eb) | sign
    } else {
        let s2 = if e <= 0 { shift_right_sticky(s, 1 - e, width(sb, eb)) } else { s };
        let e2: u64 = if e <= 0 { 0 } else { e as u64 };
        let r = ((s2 >> 3u64) & sig_mask(sb)) | (e2 << sb) | sign;
        round_nearest_even(r, s2 & 7)
    }
}

/// The sum of two finite nonzero patterns where `a` has the larger magnitude
/// (or an equal one): the result takes the sign of `a`, the significands are
/// aligned on the exponent of `a` with a sticky bit, added or subtracted, and
/// normalized again before packing. Exact cancellation gives +0.
pub open spec fn add_ordered(a: u64, b: u64, sb: u64, eb: u64) -> u64 {
    let (ae, af) = unpack(a, sb, eb);
    let (be, bf) = unpack(b, sb, eb);
    let a_sig = (af | implicit(sb)) << 3u64;
    let b_sig = shift_right_sticky((bf | implicit(sb)) << 3u64, ae - be, width(sb, eb));
    let sign = a & sign_of_format(sb, eb);
    if (a ^ b) & sign_of_format(sb, eb) != 0 {
        let diff = a_sig.wrapping_sub(b_sig);
        if diff == 0 {
            0
        } else {
            let (e, s) = renormalize(ae, diff, implicit(sb) << 3u64);
            pack(e, s, sign, sb, eb)
        }
    } else {
        let sum = a_sig.wrapping_add(b_sig);
        if sum & (implicit(sb) << 4u64) != 0 {
            pack(ae + 1, (sum >> 1u64) | (sum & 1), sign, sb, eb)
        } else {
            pack(ae, sum, sign, sb, eb)
        }
    }
}

/// The pattern of `a + b` in the format with `sb` significand bits and `eb`
/// exponent bits.
/// - A NaN operand gives itself, quieted (`a` first).
/// - Infinities of opposite signs give the quiet NaN; otherwise an infinite
///   operand gives itself.
/// - A zero operand gives the other operand; two zeros give `a & b`, which
///   is -0 only when both are -0.
/// - Otherwise the larger magnitude comes first in `add_ordered`.
pub open spec fn add_spec(a: u64, b: u64, sb: u64, eb: u64) -> u64 {
    let abs = abs_of_format(sb, eb);
    let inf = inf_of_format(sb, eb);
    let a_abs = a & abs;
    let b_abs = b & abs;
    if a_abs > inf {
        a | quiet(sb)
    } else if b_abs > inf {
        b | quiet(sb)
    } else if a_abs == inf {
        if b_abs == inf && a != b {
            qnan_of_format(sb, eb)
        } else {
            a
        }
    } else if b_abs == inf {
        b
    } else if a_abs == 0 {
        if b_abs == 0 {
            a & b
        } else {
            b
        }
    } else if b_abs == 0 {
        a
    } else if b_abs > a_abs {
        add_ordered(b, a, sb, eb)
    } else {
        add_ordered(a, b, sb, eb)
    }
}

/// The layout constants of the two formats.
pub(crate) proof fn lemma_layout(sb: u64, eb: u64)
    by (bit_vector)
    requires
        (sb == 23 && eb == 8) || (sb == 52 && eb == 11),
    ensures
        sb == 23 ==> (1u64 << sb) == 0x80_0000 && (1u64 << ((sb + eb) as u64)) == 0x8000_0000
            && (1u64 << eb) == 0x100,
        sb == 52 ==> (1u64 << sb) == 0x10_0000_0000_0000 && (1u64 << ((sb + eb) as u64))
            == 0x8000_0000_0000_0000 && (1u64 << eb) == 0x800,
        sb == 23 ==> inf_of_format(sb, eb) == 0x7F80_0000 && qnan_of_format(sb, eb) == 0x7FC0_0000
            && quiet(sb) == 0x40_0000,
        sb == 52 ==> inf_of_format(sb, eb) == 0x7FF0_0000_0000_0000 && qnan_of_format(sb, eb)
            == 0x7FF8_0000_0000_0000 && quiet(sb) == 0x8_0000_0000_0000,
        sb == 23 ==> abs_of_format(sb, eb) == 0x7FFF_FFFF,
        sb == 52 ==> abs_of_format(sb, eb) == 0x7FFF_FFFF_FFFF_FFFF,
        0u64 & abs_of_format(sb, eb) == 0,
        inf_of_format(sb, eb) != 0,
{
}

/// The count of leading zeros of a nonzero word below the implicit bit
/// (shifted up by `g` places) exceeds that of the implicit bit by at most
/// the significand width.
pub(crate) proof fn lemma_leading_zeros_below(x: u64, l: u64, m: u64, lm: u64, sb: u64, g: u64)
    by (bit_vector)
    requires
        sb == 23 || sb == 52,
        g <= 3,
        m == (1u64 << sb) << g,
        l <= 64,
        x == 0 <==> l == 64,
        l < 64 ==> (x >> ((63 - l) as u64)) & 1u64 != 0u64,
        x >> ((64 - l) as u64) == 0,
        lm < 64,
        (m >> ((63 - lm) as u64)) & 1u64 != 0u64,
        m >> ((64 - lm) as u64) == 0,
        0 < x < m,
    ensures
        lm < l <= lm + sb + g,
        lm == 63 - sb - g,
{
}

/// A shift of 1 by less than the width is positive.
proof fn lemma_one_shl(n: u64)
    by (bit_vector)
    requires
        n < 64,
    ensures
        (1u64 << n) >= 1,
{
}

/// Exec form of `shift_right_sticky`.
fn shift_right_sticky_exec(x: u64, n: i32, w: u64) -> (r: u64)
    requires
        w <= 64,
    ensures
        r == shift_right_sticky(x, n as int, w),
{
    if n <= 0 {
        x
    } else if (n as u64) < w {
        let n = n as u64;
        proof { lemma_one_shl(n); }
        let sticky: u64 = if x & ((1u64 << n) - 1) != 0 { 1 } else { 0 };
        (x >> n) | sticky
    } else {
        1
    }
}

/// Exec form of `unpack`, for a finite nonzero pattern; the exponent lies
/// between `1 - sb` and the largest biased exponent.
fn unpack_exec(x: u64, sb: u64, eb: u64) -> (r: (i32, u64))
    requires
        known_format(sb, eb),
        x & abs_of_format(sb, eb) != 0,
    ensures
        r == (unpack(x, sb, eb).0 as i32, unpack(x, sb, eb).1),
        r.0 == unpack(x, sb, eb).0,
        1 - (sb as int) <= r.0 <= max_exp(eb),
{
    proof { lemma_layout(sb, eb); lemma_fields(x, sb, eb); }
    let max_exponent = (1u64 << eb) - 1;
    let implicit_bit = 1u64 << sb;
    let e = (x >> sb) & max_exponent;
    let f = x & (implicit_bit - 1);
    if e == 0 {
        proof {
            vstd::std_specs::bits::axiom_u64_leading_zeros(f);
            vstd::std_specs::bits::axiom_u64_leading_zeros(implicit_bit);
            assert(implicit_bit == (1u64 << sb) << 0u64) by (bit_vector)
                requires implicit_bit == 1u64 << sb;
            lemma_leading_zeros_below(f, u64_leading_zeros(f) as u64, implicit_bit, u64_leading_zeros(implicit_bit) as u64, sb, 0);
        }
        let shift = f.leading_zeros() - implicit_bit.leading_zeros();
        (1 - shift as i32, f << (shift as u64))
    } else {
        (e as i32, f)
    }
}

/// The fields of a pattern: a zero exponent and significand leave nothing
/// but the sign; the exponent field is at most its largest value.
proof fn lemma_fields(x: u64, sb: u64, eb: u64)
    by (bit_vector)
    requires
        (sb == 23 && eb == 8) || (sb == 52 && eb == 11),
    ensures
        (x >> sb) & (((1u64 << eb) - 1) as u64) <= ((1u64 << eb) - 1) as u64,
        x & (((1u64 << sb) - 1) as u64) < (1u64 << sb),
        x & 0u64 == 0,
        x & ((((1u64 << ((sb + eb) as u64)) - 1) as u64)) != 0 ==> ((x >> sb) & (((1u64 << eb) - 1) as u64)) != 0
            || (x & (((1u64 << sb) - 1) as u64)) != 0,
{
}

/// Exec form of `renormalize`.
fn renormalize_exec(e: i32, s: u64, sb: u64) -> (r: (i32, u64))
    requires
        sb == 23 || sb == 52,
        s != 0,
        -1000 <= e <= 3000,
    ensures
        r.0 == renormalize(e as int, s, implicit(sb) << 3u64).0,
        r.1 == renormalize(e as int, s, implicit(sb) << 3u64).1,
        e - 60 <= r.0 <= e,
{
    let top = (1u64 << sb) << 3u64;
    if s < top {
        proof {
            vstd::std_specs::bits::axiom_u64_leading_zeros(s);
            vstd::std_specs::bits::axiom_u64_leading_zeros(top);
            lemma_leading_zeros_below(s, u64_leading_zeros(s) as u64, top, u64_leading_zeros(top) as u64, sb, 3);
        }
        let shift = s.leading_zeros() - top.leading_zeros();
        (e - shift as i32, s << (shift as u64))
    } else {
        (e, s)
    }
}

/// Exec form of `round_nearest_even`.
fn round_nearest_even_exec(r: u64, rgs: u64) -> (out: u64)
    ensures
        out == round_nearest_even(r, rgs),
{
    if rgs > 4 {
        r.wrapping_add(1)
    } else if rgs == 4 {
        r.wrapping_add(r & 1)
    } else {
        r
    }
}

/// Exec form of `pack`.
fn pack_exec(e: i32, s: u64, sign: u64, sb: u64, eb: u64) -> (r: u64)
    requires
        known_format(sb, eb),
        -1000 <= e <= 3000,
    ensures
        r == pack(e as int, s, sign, sb, eb),
{
    proof { lemma_layout(sb, eb); }
    let max_exponent = (1u64 << eb) - 1;
    let significand_mask = (1u64 << sb) - 1;
    let bits = sb + eb + 1;
    if e >= max_exponent as i32 {
        let inf_rep = ((1u64 << (sb + eb)) - 1) ^ significand_mask;
        return inf_rep | sign;
    }
    let mut s = s;
    let mut e = e;
    if e <= 0 {
        s = shift_right_sticky_exec(s, 1 - e, bits);
        e = 0;
    }
    let r = ((s >> 3u64) & significand_mask) | ((e as u64) << sb) | sign;
    round_nearest_even_exec(r, s & 7)
}

/// Exec form of `add_ordered`.
fn add_ordered_exec(a: u64, b: u64, sb: u64, eb: u64) -> (r: u64)
    requires
        known_format(sb, eb),
        a & abs_of_format(sb, eb) != 0,
        b & abs_of_format(sb, eb) != 0,
    ensures
        r == add_ordered(a, b, sb, eb),
{
    proof { lemma_layout(sb, eb); }
    let bits = sb + eb + 1;
    let implicit_bit = 1u64 << sb;
    let sign_bit = 1u64 << (sb + eb);
    let (a_exponent, a_significand) = unpack_exec(a, sb, eb);
    let (b_exponent, b_significand) = unpack_exec(b, sb, eb);
    let result_sign = a & sign_bit;
    let subtraction = (a ^ b) & sign_bit != 0;
    // Three extra low bits keep the round, guard and sticky bits.
    let a_sig = (a_significand | implicit_bit) << 3u64;
    let b_sig = shift_right_sticky_exec((b_significand | implicit_bit) << 3u64, a_exponent - b_exponent, bits);
    if subtraction {
        let diff = a_sig.wrapping_sub(b_sig);
        if diff == 0 {
            return 0;
        }
        let (e, s) = renormalize_exec(a_exponent, diff, sb);
        pack_exec(e, s, result_sign, sb, eb)
    } else {
        let sum = a_sig.wrapping_add(b_sig);
        if sum & (implicit_bit << 4u64) != 0 {
            pack_exec(a_exponent + 1, (sum >> 1u64) | (sum & 1), result_sign, sb, eb)
        } else {
            pack_exec(a_exponent, sum, result_sign, sb, eb)
        }
    }
}

/// Exec form of `add_spec`.
fn add_repr(a: u64, b: u64, sb: u64, eb: u64) -> (r: u64)
    requires
        known_format(sb, eb),
    ensures
        r == add_spec(a, b, sb, eb),
{
    proof { lemma_layout(sb, eb); }
    let implicit_bit = 1u64 << sb;
    let significand_mask = implicit_bit - 1;
    let sign_bit = 1u64 << (sb + eb);
    let abs_mask = sign_bit - 1;
    let exponent_mask = abs_mask ^ significand_mask;
    let inf_rep = exponent_mask;
    let quiet_bit = implicit_bit >> 1u64;
    let qnan_rep = exponent_mask | quiet_bit;
    let a_abs = a & abs_mask;
    let b_abs = b & abs_mask;
    if a_abs > inf_rep {
        a | quiet_bit
    } else if b_abs > inf_rep {
        b | quiet_bit
    } else if a_abs == inf_rep {
        if b_abs == inf_rep && a != b {
            qnan_rep
        } else {
            a
        }
    } else if b_abs == inf_rep {
        b
    } else if a_abs == 0 {
        if b_abs == 0 {
            a & b
        } else {
            b
        }
    } else if b_abs == 0 {
        a
    } else if b_abs > a_abs {
        add_ordered_exec(b, a, sb, eb)
    } else {
        add_ordered_exec(a, b, sb, eb)
    }
}

/// A packed single-precision result with an exponent below the largest one,
/// rounded, still fits in 32 bits.
proof fn lemma_pack_fits(s2: u64, e2: u64, sign: u64)
    by (bit_vector)
    requires
        e2 < 0xFF,
        sign == 0 || sign == 0x8000_0000,
    ensures
        (((s2 >> 3u64) & 0x7F_FFFFu64) | (e2 << 23u64) | sign) < 0xFF80_0000,
        (((s2 >> 3u64) & 0x7F_FFFFu64) | (e2 << 23u64) | sign) & 1 <= 1,
        0x7F80_0000u64 | sign < 0x1_0000_0000,
{
}

/// For patterns of single precision, every case of `add_spec` gives a
/// pattern of single precision.
proof fn lemma_add_fits_binary32(a: u64, b: u64)
    requires
        a < 0x1_0000_0000,
        b < 0x1_0000_0000,
    ensures
        add_spec(a, b, 23, 8) < 0x1_0000_0000,
{
    lemma_layout(23, 8);
    assert(a | 0x40_0000u64 < 0x1_0000_0000 && b | 0x40_0000u64 < 0x1_0000_0000 && a & b < 0x1_0000_0000
        && a & 0x8000_0000u64 <= 0x8000_0000 && (a & 0x8000_0000u64 == 0 || a & 0x8000_0000u64 == 0x8000_0000)
        && (b & 0x8000_0000u64 == 0 || b & 0x8000_0000u64 == 0x8000_0000)) by (bit_vector)
        requires a < 0x1_0000_0000, b < 0x1_0000_0000;
    lemma_ordered_fits(a, b);
    lemma_ordered_fits(b, a);
}

/// `add_ordered` keeps single-precision patterns within 32 bits.
proof fn lemma_ordered_fits(a: u64, b: u64)
    requires
        a < 0x1_0000_0000,
        a & 0x8000_0000u64 == 0 || a & 0x8000_0000u64 == 0x8000_0000,
    ensures
        add_ordered(a, b, 23, 8) < 0x1_0000_0000,
{
    lemma_layout(23, 8);
    let sign = a & 0x8000_0000u64;
    assert forall|e: int, s: u64| #![trigger pack(e, s, sign, 23, 8)] pack(e, s, sign, 23, 8) < 0x1_0000_0000 by {
        assert(sig_mask(23) == 0x7F_FFFF);
        if e < 0xFF {
            let s2 = if e <= 0 { shift_right_sticky(s, 1 - e, width(23, 8)) } else { s };
            let e2: u64 = if e <= 0 { 0 } else { e as u64 };
            lemma_pack_fits(s2, e2, sign);
        } else {
            lemma_pack_fits(0, 0, sign);
        }
    }
}

/// The finite-operand statement for single precision, on 32-bit patterns.
proof fn lemma_finite_binary32(a: u32, b: u32)
    ensures
        a & 0x7FFF_FFFF < 0x7F80_0000 && b & 0x7FFF_FFFF < 0x7F80_0000 ==> add_spec(a as u64, b as u64, 23, 8)
            == nearest_sum(a as u64, b as u64, 23, 8),
{
    lemma_layout(23, 8);
    assert((a as u64) & abs_of_format(23, 8) == (a & 0x7FFF_FFFF) as u64 && (b as u64) & abs_of_format(23, 8) == (b
        & 0x7FFF_FFFF) as u64) by (bit_vector);
    if a & 0x7FFF_FFFF < 0x7F80_0000 && b & 0x7FFF_FFFF < 0x7F80_0000 {
        lemma_add_is_nearest(a as u64, b as u64, 23, 8);
    }
}

/// Returns `a + b` in single precision, as `add_spec` describes it; for
/// finite operands that is the correctly rounded sum.
pub fn __addsf3(a: Binary32, b: Binary32) -> (r: Binary32)
    ensures
        r.repr == add_spec(a.repr as u64, b.repr as u64, 23, 8),
        a.repr & 0x7FFF_FFFF < 0x7F80_0000 && b.repr & 0x7FFF_FFFF < 0x7F80_0000 ==> r.repr == nearest_sum(
            a.repr as u64,
            b.repr as u64,
            23,
            8,
        ),
{
    let r = add_repr(
        a.repr as u64,
        b.repr as u64,
        Binary32::significand_bits() as u64,
        Binary32::exponent_bits() as u64,
    );
    proof {
        lemma_add_fits_binary32(a.repr as u64, b.repr as u64);
        lemma_finite_binary32(a.repr, b.repr);
    }
    Binary32 { repr: r as u32 }
}

/// Returns `a + b` in double precision, as `add_spec` describes it; for
/// finite operands that is the correctly rounded sum.
pub fn __adddf3(a: Binary64, b: Binary64) -> (r: Binary64)
    ensures
        r.repr == add_spec(a.repr, b.repr, 52, 11),
        a.repr & 0x7FFF_FFFF_FFFF_FFFF < 0x7FF0_0000_0000_0000 && b.repr & 0x7FFF_FFFF_FFFF_FFFF
            < 0x7FF0_0000_0000_0000 ==> r.repr == nearest_sum(a.repr, b.repr, 52, 11),
{
    proof {
        lemma_layout(52, 11);
        if a.repr & 0x7FFF_FFFF_FFFF_FFFF < 0x7FF0_0000_0000_0000 && b.repr & 0x7FFF_FFFF_FFFF_FFFF
            < 0x7FF0_0000_0000_0000 {
            lemma_add_is_nearest(a.repr, b.repr, 52, 11);
        }
    }
    Binary64 { repr: add_repr(a.repr, b.repr, Binary64::significand_bits(), Binary64::exponent_bits()) }
}

/// The ARM EABI name of `__addsf3`.
pub fn __aeabi_fadd(a: Binary32, b: Binary32) -> (r: Binary32)
    ensures
        r.repr == add_spec(a.repr as u64, b.repr as u64, 23, 8),
        a.repr & 0x7FFF_FFFF < 0x7F80_0000 && b.repr & 0x7FFF_FFFF < 0x7F80_0000 ==> r.repr == nearest_sum(
            a.repr as u64,
            b.repr as u64,
            23,
            8,
        ),
{
    __addsf3(a, b)
}

/// The ARM EABI name of `__adddf3`.
pub fn __aeabi_dadd(a: Binary64, b: Binary64) -> (r: Binary64)
    ensures
        r.repr == add_spec(a.repr, b.repr, 52, 11),
        a.repr & 0x7FFF_FFFF_FFFF_FFFF < 0x7FF0_0000_0000_0000 && b.repr & 0x7FFF_FFFF_FFFF_FFFF
            < 0x7FF0_0000_0000_0000 ==> r.repr == nearest_sum(a.repr, b.repr, 52, 11),
{
    __adddf3(a, b)
}

/// Whether `x` is a pattern of the format: no bit above its width.
pub open spec fn fits_format(x: u64, sb: u64) -> bool {
    sb == 52 || x < 0x1_0000_0000
}

/// Whether the pattern `x` is a NaN.
pub open spec fn is_nan(x: u64, sb: u64, eb: u64) -> bool {
    x & abs_of_format(sb, eb) > inf_of_format(sb, eb)
}

/// Two patterns of a format with equal magnitude differ at most in the sign
/// bit, and then in no field that `unpack` reads.
proof fn lemma_sign_flip(a: u64, b: u64, sb: u64, eb: u64)
    by (bit_vector)
    requires
        (sb == 23 && eb == 8) || (sb == 52 && eb == 11),
        sb == 52 || a < 0x1_0000_0000,
        sb == 52 || b < 0x1_0000_0000,
        a & abs_of_format(sb, eb) == b & abs_of_format(sb, eb),
    ensures
        (a >> sb) & max_exp(eb) == (b >> sb) & max_exp(eb),
        a & sig_mask(sb) == b & sig_mask(sb),
        a != b ==> (a ^ b) & sign_of_format(sb, eb) != 0,
        a == b ==> (a ^ b) & sign_of_format(sb, eb) == 0,
{
}

/// Adding two values of equal magnitude and opposite signs cancels to +0, in
/// either order.
proof fn lemma_cancel(a: u64, b: u64, sb: u64, eb: u64)
    requires
        known_format(sb, eb),
        fits_format(a, sb),
        fits_format(b, sb),
        a != b,
        a & abs_of_format(sb, eb) == b & abs_of_format(sb, eb),
    ensures
        add_ordered(a, b, sb, eb) == 0,
        add_ordered(b, a, sb, eb) == 0,
{
    lemma_sign_flip(a, b, sb, eb);
    lemma_sign_flip(b, a, sb, eb);
    assert(unpack(a, sb, eb) == unpack(b, sb, eb));
    let x = (unpack(a, sb, eb).1 | implicit(sb)) << 3u64;
    assert(x.wrapping_sub(x) == 0);
}

/// Addition commutes, NaN operands aside (whose payloads differ with the
/// order).
pub proof fn lemma_add_commutes(a: u64, b: u64, sb: u64, eb: u64)
    requires
        known_format(sb, eb),
        fits_format(a, sb),
        fits_format(b, sb),
        !is_nan(a, sb, eb),
        !is_nan(b, sb, eb),
    ensures
        add_spec(a, b, sb, eb) == add_spec(b, a, sb, eb),
{
    let abs = abs_of_format(sb, eb);
    crate::nearest::lemma_signs(a, b, sb, eb);
    if a & abs == b & abs && a != b {
        lemma_sign_flip(a, b, sb, eb);
        if a & abs != 0 && a & abs != inf_of_format(sb, eb) {
            lemma_cancel(a, b, sb, eb);
        }
    }
}

/// Adding +0 gives the other operand back, NaNs aside, except that
/// -0 + +0 is +0.
pub proof fn lemma_add_zero(x: u64, sb: u64, eb: u64)
    requires
        known_format(sb, eb),
        fits_format(x, sb),
        !is_nan(x, sb, eb),
    ensures
        add_spec(x, 0, sb, eb) == (if x & abs_of_format(sb, eb) == 0 { 0 } else { x }),
{
    lemma_layout(sb, eb);
    lemma_fields(x, sb, eb);
}

/// A finite nonzero value added to its negation gives +0.
pub proof fn lemma_add_negation(x: u64, sb: u64, eb: u64)
    requires
        known_format(sb, eb),
        fits_format(x, sb),
        x & abs_of_format(sb, eb) != 0,
        x & abs_of_format(sb, eb) < inf_of_format(sb, eb),
    ensures
        add_spec(x, x ^ sign_of_format(sb, eb), sb, eb) == 0,
{
    let y = x ^ sign_of_format(sb, eb);
    assert(y & abs_of_format(sb, eb) == x & abs_of_format(sb, eb) && y != x && (sb == 52
        || y < 0x1_0000_0000)) by (bit_vector)
        requires
            (sb == 23 && eb == 8) || (sb == 52 && eb == 11),
            sb == 52 || x < 0x1_0000_0000,
            y == x ^ sign_of_format(sb, eb),
    ;
    lemma_cancel(x, y, sb, eb);
}

} // verus!
