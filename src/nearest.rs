//! Correct rounding of the addition.
//!
//! The value of a finite pattern, the pattern nearest to a magnitude, and
//! the proof that `add_spec` gives the pattern nearest to the exact sum of
//! two finite operands. The proof rests on one fact of rounding with a
//! sticky bit: shifting right while keeping, in the lowest bit, whether
//! anything nonzero was shifted out, then rounding to nearest, ties to even,
//! with at least two bits below the kept ones, gives what rounding the
//! exact value gives.
use vstd::prelude::*;
use vstd::arithmetic::power2::{pow2, lemma_pow2_pos, lemma_pow2_unfold, lemma_pow2_adds};
use vstd::arithmetic::div_mod::{lemma_div_denominator, lemma_mod_breakdown, lemma_fundamental_div_mod, lemma_mod_bound, lemma_fundamental_div_mod_converse};
use crate::convert::round_half_even;
use crate::add::{abs_of_format, add_ordered, add_spec, fits_format, implicit, unpack, renormalize, shift_right_sticky, max_exp, sig_mask, sign_of_format, inf_of_format, pack, width, round_nearest_even};
use crate::float::known_format;
use vstd::std_specs::bits::u64_leading_zeros;

verus! {

/// `x / 2^t`, with the lowest bit set when the division is inexact.
pub open spec fn sticky_div(x: nat, t: nat) -> nat {
    let q = x / pow2(t);
    if x % pow2(t) != 0 && q % 2 == 0 {
        q + 1
    } else {
        q
    }
}

/// A value `c * p + r` with `0 <= r < p` lies above, at or below `h * p` as
/// `(c, r)` lies above, at or below `(h, 0)`.
proof fn lemma_compare_digits(c: int, r: int, p: int, h: int)
    requires
        p > 0,
        0 <= r < p,
    ensures
        c * p + r > h * p <==> (c > h || (c == h && r > 0)),
        c * p + r == h * p <==> (c == h && r == 0),
{
    if c > h {
        assert(c * p >= h * p + p) by (nonlinear_arith)
            requires c >= h + 1, p > 0;
    } else if c < h {
        assert(c * p + p <= h * p) by (nonlinear_arith)
            requires c + 1 <= h, p > 0;
    }
}

/// Rounding a sticky quotient at `g >= 2` bits rounds the exact value.
pub proof fn lemma_round_sticky(x: nat, t: nat, g: nat)
    requires
        g >= 2,
    ensures
        round_half_even(sticky_div(x, t), g) == round_half_even(x, t + g),
{
    let p = pow2(t) as int;
    let gg = pow2(g) as int;
    let h = pow2((g - 1) as nat) as int;
    lemma_pow2_pos(t);
    lemma_pow2_pos(g);
    lemma_pow2_pos((g - 1) as nat);
    lemma_pow2_pos((g - 2) as nat);
    lemma_pow2_unfold(g);
    lemma_pow2_unfold((g - 1) as nat);
    lemma_pow2_adds(t, g);
    lemma_pow2_adds(t, (g - 1) as nat);
    assert(t + g - 1 == t + (g - 1) as nat);
    let q1 = x as int / p;
    let r1 = x as int % p;
    lemma_fundamental_div_mod(x as int, p);
    lemma_mod_bound(x as int, p);
    vstd::arithmetic::div_mod::lemma_div_pos_is_pos(x as int, p);
    // Quotient and remainder of x at t + g bits, through those at t bits.
    lemma_div_denominator(x as int, p, gg);
    lemma_mod_breakdown(x as int, p, gg);
    let c = q1 % gg;
    lemma_mod_bound(q1, gg);
    lemma_fundamental_div_mod(q1, gg);
    // The parity of q1 is that of c, gg being even.
    vstd::arithmetic::div_mod::lemma_mod_mod(q1, 2, h);
    assert(c % 2 == q1 % 2);
    lemma_compare_digits(c, r1, p, h);
    let y = sticky_div(x, t) as int;
    if r1 != 0 && q1 % 2 == 0 {
        assert(y == q1 + 1);
        assert(c + 1 < gg);
        lemma_fundamental_div_mod_converse(y, gg, q1 / gg, c + 1);
    } else {
        assert(y == q1);
    }
}

/// Scaling a value and the rounding position alike leaves the rounded value.
pub proof fn lemma_round_scale(n: nat, j: nat, c: nat)
    ensures
        round_half_even(n * pow2(c), j + c) == round_half_even(n, j),
{
    let pc = pow2(c) as int;
    let pj = pow2(j) as int;
    lemma_pow2_pos(c);
    lemma_pow2_pos(j);
    lemma_pow2_adds(j, c);
    lemma_fundamental_div_mod(n as int, pj);
    lemma_mod_bound(n as int, pj);
    let q = n as int / pj;
    let r = n as int % pj;
    assert(n * pc == (q * (pj * pc)) + r * pc) by (nonlinear_arith)
        requires n == pj * q + r;
    assert(0 <= r * pc < pj * pc) by (nonlinear_arith)
        requires 0 <= r < pj, pc > 0;
    lemma_fundamental_div_mod_converse(n * pc, pj * pc, q, r * pc);
    let m = n * pow2(c);
    assert(m / pow2(j + c) == q);
    assert(m % pow2(j + c) == r * pc);
    if j == 0 {
        if c > 0 {
            lemma_pow2_unfold(c);
            lemma_pow2_pos((c - 1) as nat);
            vstd::arithmetic::power2::lemma2_to64();
            assert(pj * pc == pc) by (nonlinear_arith)
                requires pj == 1;
            assert(j + c == c);
        } else {
            vstd::arithmetic::power2::lemma2_to64();
            assert(m == n * 1);
        }
        vstd::arithmetic::power2::lemma2_to64();
        assert(pj == 1);
        vstd::arithmetic::div_mod::lemma_div_basics(n as int);
        assert(q == n);
        assert(r == 0);
        assert(round_half_even(n, j) == n);
        assert(round_half_even(m, j + c) == n);
    } else {
        lemma_pow2_adds((j - 1) as nat, c);
        assert((j + c - 1) as nat == (j - 1) as nat + c);
        let h = pow2((j - 1) as nat) as int;
        assert(r * pc > h * pc <==> r > h) by (nonlinear_arith)
            requires pc > 0;
        assert(r * pc == h * pc <==> r == h) by (nonlinear_arith)
            requires pc > 0;
        assert(pow2((j + c - 1) as nat) == h * pc);
    }
}

/// Shifting by nothing is exact.
pub proof fn lemma_sticky_zero(x: nat)
    ensures
        sticky_div(x, 0) == x,
{
    vstd::arithmetic::power2::lemma2_to64();
}

/// The sticky quotient has the exact quotient's bits above the lowest.
pub proof fn lemma_sticky_floor(x: nat, t: nat, g: nat)
    requires
        g >= 1,
    ensures
        sticky_div(x, t) / pow2(g) == x / pow2(t + g),
{
    let p = pow2(t) as int;
    let gg = pow2(g) as int;
    lemma_pow2_pos(t);
    lemma_pow2_pos(g);
    lemma_pow2_unfold(g);
    lemma_pow2_pos((g - 1) as nat);
    lemma_pow2_adds(t, g);
    lemma_div_denominator(x as int, p, gg);
    let q1 = x as int / p;
    vstd::arithmetic::div_mod::lemma_div_pos_is_pos(x as int, p);
    lemma_fundamental_div_mod(q1, gg);
    lemma_mod_bound(q1, gg);
    vstd::arithmetic::div_mod::lemma_mod_mod(q1, 2, pow2((g - 1) as nat) as int);
    if sticky_div(x, t) != q1 {
        lemma_fundamental_div_mod_converse(q1 + 1, gg, q1 / gg, q1 % gg + 1);
    }
}

/// Two sticky shifts make one.
pub proof fn lemma_sticky_compose(x: nat, t1: nat, t2: nat)
    ensures
        sticky_div(sticky_div(x, t1), t2) == sticky_div(x, t1 + t2),
{
    if t2 == 0 {
        lemma_sticky_zero(sticky_div(x, t1));
        assert(t1 + t2 == t1);
    } else {
        let w1 = pow2(t1) as int;
        let w2 = pow2(t2) as int;
        lemma_pow2_pos(t1);
        lemma_pow2_pos(t2);
        lemma_pow2_adds(t1, t2);
        lemma_sticky_floor(x, t1, t2);
        let q1 = x as int / w1;
        let r1 = x as int % w1;
        let y = sticky_div(x, t1) as int;
        lemma_fundamental_div_mod(x as int, w1);
        lemma_mod_bound(x as int, w1);
        vstd::arithmetic::div_mod::lemma_div_pos_is_pos(x as int, w1);
        lemma_mod_breakdown(x as int, w1, w2);
        lemma_fundamental_div_mod(q1, w2);
        lemma_mod_bound(q1, w2);
        lemma_fundamental_div_mod(y, w2);
        lemma_mod_bound(y, w2);
        lemma_div_denominator(x as int, w1, w2);
        // The remainder at t1 + t2 bits is zero exactly when both partial
        // remainders are.
        assert(x as int % (w1 * w2) == w1 * (q1 % w2) + r1);
        assert(w1 * (q1 % w2) >= 0) by (nonlinear_arith)
            requires w1 > 0, q1 % w2 >= 0;
        assert(w1 * (q1 % w2) == 0 <==> q1 % w2 == 0) by (nonlinear_arith)
            requires w1 > 0;
        lemma_pow2_unfold(t2);
        lemma_pow2_pos((t2 - 1) as nat);
        vstd::arithmetic::div_mod::lemma_mod_mod(q1, 2, pow2((t2 - 1) as nat) as int);
        vstd::arithmetic::div_mod::lemma_mod_mod(y, 2, pow2((t2 - 1) as nat) as int);
        if y != q1 {
            lemma_fundamental_div_mod_converse(q1 + 1, w2, q1 / w2, q1 % w2 + 1);
        }
    }
}

/// Adding an even value above a sticky quotient is exact.
pub proof fn lemma_sticky_add(a: nat, b: nat, d: nat)
    requires
        a % 2 == 0,
    ensures
        a + sticky_div(b, d) == sticky_div(a * pow2(d) + b, d),
{
    let p = pow2(d) as int;
    lemma_pow2_pos(d);
    lemma_fundamental_div_mod(b as int, p);
    lemma_mod_bound(b as int, p);
    vstd::arithmetic::div_mod::lemma_div_pos_is_pos(b as int, p);
    let q = b as int / p;
    let r = b as int % p;
    assert(a * p + b == (a + q) * p + r) by (nonlinear_arith)
        requires b == p * q + r;
    lemma_fundamental_div_mod_converse(a * p + b, p, a + q, r);
}

/// Subtracting a sticky quotient from an even value gives the sticky
/// quotient of the exact difference.
pub proof fn lemma_sticky_sub(a: nat, b: nat, d: nat)
    requires
        a % 2 == 0,
        a * pow2(d) >= b,
    ensures
        a - sticky_div(b, d) == sticky_div((a * pow2(d) - b) as nat, d),
        a >= sticky_div(b, d),
{
    let p = pow2(d) as int;
    lemma_pow2_pos(d);
    lemma_fundamental_div_mod(b as int, p);
    lemma_mod_bound(b as int, p);
    vstd::arithmetic::div_mod::lemma_div_pos_is_pos(b as int, p);
    let q = b as int / p;
    let r = b as int % p;
    let x = a * p - b;
    if r == 0 {
        assert(x == (a - q) * p) by (nonlinear_arith)
            requires b == p * q + r, r == 0, x == a * p - b;
        assert(a - q >= 0) by (nonlinear_arith)
            requires x == (a - q) * p, x >= 0, p > 0;
        lemma_fundamental_div_mod_converse(x, p, a - q, 0);
    } else {
        assert(x == (a - q - 1) * p + (p - r)) by (nonlinear_arith)
            requires b == p * q + r, x == a * p - b;
        assert(a - q - 1 >= 0) by (nonlinear_arith)
            requires x == (a - q - 1) * p + (p - r), x >= 0, p > 0, 0 < r < p;
        lemma_fundamental_div_mod_converse(x, p, a - q - 1, p - r);
    }
}

/// The bit-level sticky shift is the sticky quotient, for a nonzero value
/// below 2^w and a width of at most 64.
pub proof fn lemma_shift_right_sticky(x: u64, n: int, w: u64)
    requires
        0 < x,
        0 < w <= 64,
        n >= w ==> (x as nat) < pow2(w as nat),
    ensures
        n >= 0 ==> shift_right_sticky(x, n, w) == sticky_div(x as nat, n as nat),
{
    if n == 0 {
        lemma_sticky_zero(x as nat);
    } else if 0 < n < w {
        let k = n as u64;
        vstd::bits::lemma_u64_shr_is_div(x, k);
        vstd::bits::lemma_u64_pow2_no_overflow(k as nat);
        vstd::bits::lemma_u64_shl_is_mul(1, k);
        vstd::bits::lemma_u64_low_bits_mask_is_mod(x, k as nat);
        assert((((1u64 << k) - 1) as u64) == vstd::bits::low_bits_mask(k as nat) as u64);
        lemma_or_one(x >> k);
    } else if n >= w {
        lemma_pow2_pos(w as nat);
        if n > w {
            vstd::arithmetic::power2::lemma_pow2_strictly_increases(w as nat, n as nat);
        }
        vstd::arithmetic::div_mod::lemma_basic_div(x as int, pow2(n as nat) as int);
        vstd::arithmetic::div_mod::lemma_small_mod(x as nat, pow2(n as nat));
    }
}

/// Setting the lowest bit bumps an even value and leaves an odd one.
proof fn lemma_or_one(q: u64)
    by (bit_vector)
    ensures
        q | 1 == (if q % 2 == 0 { (q + 1) as u64 } else { q }),
        q | 0 == q,
{
}

/// Halving with the shifted-out bit kept as a sticky bit.
pub proof fn lemma_halve_sticky(x: u64)
    ensures
        (x >> 1u64) | (x & 1) == sticky_div(x as nat, 1),
{
    assert((x >> 1u64) == x / 2 && (x & 1) == x % 2) by (bit_vector);
    lemma_or_one(x >> 1u64);
    vstd::arithmetic::power2::lemma2_to64();
}

/// The magnitude of a finite pattern, in units of the smallest subnormal.
pub open spec fn magnitude(x: u64, sb: u64, eb: u64) -> nat {
    let e = (x >> sb) & max_exp(eb);
    let f = x & sig_mask(sb);
    if e == 0 {
        f as nat
    } else {
        ((f + pow2(sb as nat)) * pow2((e - 1) as nat)) as nat
    }
}

/// The value of a finite pattern, in units of the smallest subnormal.
pub open spec fn value(x: u64, sb: u64, eb: u64) -> int {
    if x & sign_of_format(sb, eb) != 0 {
        -magnitude(x, sb, eb)
    } else {
        magnitude(x, sb, eb) as int
    }
}

/// The exponent of the last place kept when `m` is rounded to `sb + 1`
/// significant bits, never below that of the subnormals.
pub open spec fn ulp_scale(m: nat, sb: nat) -> nat
    decreases m,
{
    if m <= 1 || m < pow2(sb + 1) {
        0
    } else {
        1 + ulp_scale(m / 2, sb)
    }
}

/// The pattern, sign bit aside, of the value nearest to the magnitude `m`,
/// ties to even, or infinity when that overflows. With `k` the place kept,
/// the rounded significand `q` lies in `[2^sb, 2^(sb+1)]` (below `2^sb` for
/// a subnormal), and `k * 2^sb + q` is its pattern: a `q` of `2^(sb+1)` is
/// the next binade.
pub open spec fn encode(m: nat, sb: u64, eb: u64) -> nat {
    let k = ulp_scale(m, sb as nat);
    let bits = k * pow2(sb as nat) + round_half_even(m, k);
    if bits >= inf_of_format(sb, eb) {
        inf_of_format(sb, eb) as nat
    } else {
        bits
    }
}

/// The correctly rounded sum of two finite patterns: the pattern nearest to
/// the exact sum, ties to even, infinity on overflow; an exact zero is +0
/// unless both operands are -0.
pub open spec fn nearest_sum(a: u64, b: u64, sb: u64, eb: u64) -> u64 {
    let s = value(a, sb, eb) + value(b, sb, eb);
    if s == 0 {
        a & b & sign_of_format(sb, eb)
    } else if s < 0 {
        (sign_of_format(sb, eb) + encode((-s) as nat, sb, eb)) as u64
    } else {
        encode(s as nat, sb, eb) as u64
    }
}

/// The place kept for a magnitude in `[2^(sb+j), 2^(sb+j+1))` is `j`.
pub proof fn lemma_ulp_scale(m: nat, sb: nat, j: nat)
    requires
        pow2(sb) * pow2(j) <= m < 2 * pow2(sb) * pow2(j),
    ensures
        ulp_scale(m, sb) == j,
    decreases j,
{
    lemma_pow2_pos(sb);
    lemma_pow2_unfold(sb + 1);
    if j == 0 {
        vstd::arithmetic::power2::lemma2_to64();
        assert(2 * pow2(sb) * pow2(j) == 2 * pow2(sb)) by (nonlinear_arith)
            requires pow2(j) == 1;
        assert(m < pow2(sb + 1));
    } else {
        lemma_pow2_unfold(j);
        lemma_pow2_pos((j - 1) as nat);
        let a = pow2(sb) as int;
        let b = pow2((j - 1) as nat) as int;
        assert(a * (2 * b) == 2 * (a * b) && 2 * a * (2 * b) == 2 * (2 * a * b)) by (nonlinear_arith);
        assert(a * b >= 1) by (nonlinear_arith)
            requires a > 0, b > 0;
        assert(m >= 2 * a && m > 1) by (nonlinear_arith)
            requires m >= a * (2 * b), b >= 1, a >= 1;
        lemma_ulp_scale(m / 2, sb, (j - 1) as nat);
        assert(ulp_scale(m, sb) == 1 + ulp_scale(m / 2, sb));
    }
}

/// Values related by powers of two round alike at the matching places.
pub proof fn lemma_round_cross(n1: nat, j1: nat, n2: nat, j2: nat)
    requires
        n1 * pow2(j2) == n2 * pow2(j1),
    ensures
        round_half_even(n1, j1) == round_half_even(n2, j2),
{
    lemma_pow2_pos(j1);
    lemma_pow2_pos(j2);
    if j1 <= j2 {
        let c = (j2 - j1) as nat;
        lemma_pow2_adds(j1, c);
        assert(n2 == n1 * pow2(c)) by (nonlinear_arith)
            requires n1 * (pow2(j1) * pow2(c)) == n2 * pow2(j1), pow2(j1) > 0;
        lemma_round_scale(n1, j1, c);
    } else {
        let c = (j1 - j2) as nat;
        lemma_pow2_adds(j2, c);
        assert(n1 == n2 * pow2(c)) by (nonlinear_arith)
            requires n1 * pow2(j2) == n2 * (pow2(j2) * pow2(c)), pow2(j2) > 0;
        lemma_round_scale(n2, j2, c);
    }
}

/// Bit-level packing of a normal result, of a subnormal one, and of an
/// infinity.
proof fn lemma_pack_bits(z: u64, e: u64, sign: u64, sb: u64, eb: u64)
    by (bit_vector)
    requires
        (sb == 23 && eb == 8) || (sb == 52 && eb == 11),
        sign == 0 || sign == sign_of_format(sb, eb),
    ensures
        (1u64 << sb) * 8 <= z < (1u64 << sb) * 16 && 1 <= e < max_exp(eb) ==> ((z >> 3u64) & sig_mask(sb))
            | (e << sb) | sign == sign + (e - 1) * (1u64 << sb) + (z >> 3u64),
        z < (1u64 << sb) * 8 ==> ((z >> 3u64) & sig_mask(sb)) | (0u64 << sb) | sign == sign + (z >> 3u64),
        inf_of_format(sb, eb) | sign == sign + inf_of_format(sb, eb),
        inf_of_format(sb, eb) == max_exp(eb) * (1u64 << sb),
        z >> 3u64 == z / 8,
        z & 7 == z % 8,
        (((z >> 3u64) & sig_mask(sb)) | (e << sb) | sign) & 1 == (z / 8) % 2,
        (((z >> 3u64) & sig_mask(sb)) | (0u64 << sb) | sign) & 1 == (z / 8) % 2,
        sign % 2 == 0,
        (1u64 << sb) % 2 == 0,
{
}

/// Packing a significand `z` (implicit bit at `sb + 3`) at exponent `e`
/// gives the nearest pattern to the magnitude `mag`, when `z` rounds like
/// the exact `n` shifted right by `t`, and `mag` is `n` at exponent `e`.
pub proof fn lemma_pack_nearest(e: int, z: u64, sign: u64, sb: u64, eb: u64, mag: nat, n: nat, t: nat)
    requires
        known_format(sb, eb),
        -1000 <= e <= 3000,
        8 * pow2(sb as nat) <= z < 16 * pow2(sb as nat),
        sign == 0 || sign == sign_of_format(sb, eb),
        round_half_even(z as nat, 3) == round_half_even(n, t + 3),
        z / 8 == n / pow2(t + 3),
        e <= 0 ==> sticky_div(z as nat, (1 - e) as nat) == sticky_div(n, t + (1 - e) as nat),
        e >= 1 ==> mag * pow2(t + 3) == n * pow2((e - 1) as nat),
        e <= 0 ==> mag * pow2(t + 3) * pow2((1 - e) as nat) == n,
    ensures
        pack(e, z, sign, sb, eb) == (sign + encode(mag, sb, eb)) as u64,
{
    let m = pow2(sb as nat) as int;
    let p = pow2(t + 3) as int;
    vstd::arithmetic::power2::lemma2_to64();
    vstd::arithmetic::power2::lemma2_to64_rest();
    crate::add::lemma_layout(sb, eb);
    lemma_pow2_pos(t + 3);
    lemma_pow2_pos(sb as nat);
    vstd::bits::lemma_u64_shl_is_mul(1, sb);
    lemma_fundamental_div_mod(n as int, p);
    lemma_mod_bound(n as int, p);
    // n lies in [m * p, 2 * m * p).
    assert(m * p <= n < 2 * m * p) by (nonlinear_arith)
        requires n == p * (n as int / p) + n as int % p, 0 <= n as int % p < p, m <= n as int / p < 2 * m;
    let bitsz = z as nat / 8;
    let incz = round_half_even(z as nat, 3) - bitsz;
    assert(round_half_even(z as nat, 3) == bitsz + (if z % 8 > 4 || (z % 8 == 4 && bitsz % 2 == 1) {
        1int
    } else {
        0int
    }));
    if e >= 1 {
        let qq = pow2((e - 1) as nat) as int;
        lemma_pow2_pos((e - 1) as nat);
        assert(m * qq <= mag < 2 * m * qq) by (nonlinear_arith)
            requires mag * p == n * qq, m * p <= n < 2 * m * p, p > 0, qq > 0;
        assert(pow2(sb as nat) * pow2((e - 1) as nat) <= mag < 2 * pow2(sb as nat) * pow2((e - 1) as nat));
        lemma_ulp_scale(mag, sb as nat, (e - 1) as nat);
        lemma_round_cross(mag, (e - 1) as nat, n, t + 3);
        let q = round_half_even(mag, (e - 1) as nat);
        let bits = (e - 1) * m + q;
        assert(encode(mag, sb, eb) == if bits >= inf_of_format(sb, eb) {
            inf_of_format(sb, eb) as int
        } else {
            bits
        });
        if e >= max_exp(eb) {
            assert((e - 1) * m >= (max_exp(eb) - 1) * m) by (nonlinear_arith)
                requires e - 1 >= max_exp(eb) - 1, m > 0;
            lemma_pack_bits(z, 0, sign, sb, eb);
            assert(q >= m);
            assert((max_exp(eb) - 1) * m + m == max_exp(eb) * m) by (nonlinear_arith);
            assert((1u64 << sb) == m);
            assert(bits >= inf_of_format(sb, eb));
            assert(encode(mag, sb, eb) == inf_of_format(sb, eb));
            assert(pack(e, z, sign, sb, eb) == inf_of_format(sb, eb) | sign);
        } else {
            let eu = e as u64;
            lemma_pack_bits(z, eu, sign, sb, eb);
            assert((e - 1) * m <= (max_exp(eb) - 2) * m) by (nonlinear_arith)
                requires e - 1 <= max_exp(eb) - 2, m > 0;
            let r = ((z >> 3u64) & sig_mask(sb)) | (eu << sb) | sign;
            assert(r == sign + (e - 1) * m + bitsz);
            assert((max_exp(eb) - 2) * m + 2 * m == max_exp(eb) * m) by (nonlinear_arith);
            assert((1u64 << sb) == m);
            assert(r + 1 <= u64::MAX);
            assert(pack(e, z, sign, sb, eb) == round_nearest_even(r, z & 7));
            assert(round_nearest_even(r, z & 7) == r + incz);
            assert(q == bitsz + incz);
            assert(bits <= inf_of_format(sb, eb));
        }
    } else {
        let k = (1 - e) as nat;
        let zz = sticky_div(z as nat, k);
        let w = width(sb, eb);
        vstd::bits::lemma_u64_pow2_no_overflow(sb as nat + 4);
        lemma_pow2_adds(sb as nat, 4);
        vstd::arithmetic::power2::lemma_pow2_strictly_increases(sb as nat + 4, w as nat);
        lemma_shift_right_sticky(z, 1 - e, w);
        // One place off already halves the significand.
        lemma_sticky_floor(z as nat, 0, 1);
        lemma_sticky_zero(z as nat);
        lemma_sticky_compose(z as nat, 1, (k - 1) as nat);
        lemma_sticky_below(z as nat, 1, 8 * m);
        lemma_sticky_below(sticky_div(z as nat, 1), (k - 1) as nat, 8 * m);
        lemma_pack_bits(zz as u64, 0, sign, sb, eb);
        let r = ((zz as u64 >> 3u64) & sig_mask(sb)) | (0u64 << sb) | sign;
        assert(r == sign + zz / 8);
        assert(pack(e, z, sign, sb, eb) == round_nearest_even(r, (zz as u64) & 7));
        // The exact magnitude is n shifted right by t + 3 + k: it needs no
        // rounding.
        lemma_pow2_adds(t + 3, k);
        lemma_round_sticky(n, t + k, 3);
        assert(t + k + 3 == (t + 3) + k);
        lemma_round_scale(mag, 0, t + 3 + k);
        assert(mag * pow2(t + 3 + k) == n) by (nonlinear_arith)
            requires mag * pow2(t + 3) * pow2(k) == n, pow2(t + 3 + k) == pow2(t + 3) * pow2(k);
        assert(round_half_even(mag, 0) == mag);
        // It is below 2^sb: a subnormal, or the smallest normal exponent.
        lemma_pow2_pos(k);
        lemma_pow2_unfold(k);
        lemma_pow2_pos((k - 1) as nat);
        assert(mag * p <= n / 2) by (nonlinear_arith)
            requires mag * p * pow2(k) == n, pow2(k) == 2 * pow2((k - 1) as nat), pow2((k - 1) as nat) >= 1, p > 0;
        assert(mag < m) by (nonlinear_arith)
            requires mag * p <= n / 2, n < 2 * m * p, p > 0;
        lemma_ulp_scale_small(mag, sb as nat);
        assert(round_nearest_even(r, (zz as u64) & 7) == sign + round_half_even(zz, 3));
        assert(encode(mag, sb, eb) == mag);
    }
}

/// A sticky quotient of a value below an even bound stays below half of it.
proof fn lemma_sticky_below(x: nat, k: nat, b: int)
    requires
        x < 2 * b,
        b % 2 == 0,
        b > 0,
    ensures
        k >= 1 ==> sticky_div(x, k) < b,
        sticky_div(x, k) <= x,
{
    let p = pow2(k) as int;
    lemma_pow2_pos(k);
    lemma_fundamental_div_mod(x as int, p);
    lemma_mod_bound(x as int, p);
    vstd::arithmetic::div_mod::lemma_div_pos_is_pos(x as int, p);
    let q = x as int / p;
    if k == 0 {
        lemma_sticky_zero(x);
    } else {
        lemma_pow2_unfold(k);
        lemma_pow2_pos((k - 1) as nat);
        assert(x >= 2 * q + x as int % p && q <= b - 1) by (nonlinear_arith)
            requires x == p * q + x as int % p, p >= 2, q >= 0, x < 2 * b, x as int % p >= 0;
    }
}

/// Magnitudes below 2^(sb+1) keep every bit.
proof fn lemma_ulp_scale_small(m: nat, sb: nat)
    requires
        m < pow2(sb),
    ensures
        ulp_scale(m, sb) == 0,
{
    lemma_pow2_unfold(sb + 1);
}

/// The fields of a pattern: its magnitude bits are the exponent field above
/// the significand field; or-ing the implicit bit adds it below 2^sb and
/// keeps a value that has it.
proof fn lemma_field_split(x: u64, y: u64, sb: u64, eb: u64)
    by (bit_vector)
    requires
        (sb == 23 && eb == 8) || (sb == 52 && eb == 11),
    ensures
        x & abs_of_format(sb, eb) == ((x >> sb) & max_exp(eb)) * (1u64 << sb) + (x & sig_mask(sb)),
        (x >> sb) & max_exp(eb) <= max_exp(eb),
        x & sig_mask(sb) < (1u64 << sb),
        (x & sig_mask(sb)) | (1u64 << sb) == (x & sig_mask(sb)) + (1u64 << sb),
        (1u64 << sb) <= y < 2 * (1u64 << sb) ==> y | (1u64 << sb) == y,
{
}

/// The top set bit of a nonzero word, from its count of leading zeros.
proof fn lemma_top_bit_u64(x: u64, l: u64)
    by (bit_vector)
    requires
        1 <= l < 64,
        (x >> ((63 - l) as u64)) & 1u64 != 0u64,
        x >> ((64 - l) as u64) == 0,
    ensures
        (1u64 << ((63 - l) as u64)) <= x < (1u64 << ((64 - l) as u64)),
{
}

/// What `unpack` yields for a finite nonzero pattern: a significand `F`
/// with its implicit bit in `[2^sb, 2^(sb+1))` and an exponent `e` with
/// `magnitude * 2^sb == F * 2^(e - 1 + sb)`.
pub proof fn lemma_unpack_value(x: u64, sb: u64, eb: u64)
    requires
        known_format(sb, eb),
        x & abs_of_format(sb, eb) != 0,
        x & abs_of_format(sb, eb) < inf_of_format(sb, eb),
    ensures
        pow2(sb as nat) <= (unpack(x, sb, eb).1 | implicit(sb)) < 2 * pow2(sb as nat),
        1 - sb <= unpack(x, sb, eb).0 < max_exp(eb),
        magnitude(x, sb, eb) * pow2(sb as nat) == (unpack(x, sb, eb).1 | implicit(sb)) * pow2(
            (unpack(x, sb, eb).0 - 1 + sb) as nat,
        ),
{
    let m = pow2(sb as nat) as int;
    crate::add::lemma_layout(sb, eb);
    vstd::arithmetic::power2::lemma2_to64();
    vstd::bits::lemma_u64_pow2_no_overflow(sb as nat);
    vstd::bits::lemma_u64_shl_is_mul(1, sb);
    lemma_pow2_pos(sb as nat);
    lemma_field_split(x, 0, sb, eb);
    let ef = (x >> sb) & max_exp(eb);
    let f = x & sig_mask(sb);
    assert(inf_of_format(sb, eb) == max_exp(eb) * m) by {
        lemma_pack_bits(0, 0, 0, sb, eb);
    }
    if ef >= max_exp(eb) {
        assert(ef * m >= max_exp(eb) * m) by (nonlinear_arith)
            requires ef >= max_exp(eb), m > 0;
    }
    if ef != 0 {
        lemma_pow2_adds((ef - 1) as nat, sb as nat);
        assert(magnitude(x, sb, eb) == (f + m) * pow2((ef - 1) as nat));
        assert((f + m) * pow2((ef - 1) as nat) * m == (f + m) * (pow2((ef - 1) as nat) * m)) by (nonlinear_arith);
    } else {
        assert(ef * (1u64 << sb) == 0) by (nonlinear_arith)
            requires ef == 0;
        assert(f != 0);
        let l = u64_leading_zeros(f) as u64;
        let lm = u64_leading_zeros(implicit(sb)) as u64;
        vstd::std_specs::bits::axiom_u64_leading_zeros(f);
        vstd::std_specs::bits::axiom_u64_leading_zeros(implicit(sb));
        assert(implicit(sb) == (1u64 << sb) << 0u64) by (bit_vector)
            requires implicit(sb) == 1u64 << sb;
        crate::add::lemma_leading_zeros_below(f, l, implicit(sb), lm, sb, 0);
        lemma_top_bit_u64(f, l);
        let shift = (l - lm) as nat;
        vstd::bits::lemma_u64_pow2_no_overflow((63 - l) as nat);
        vstd::bits::lemma_u64_pow2_no_overflow((64 - l) as nat);
        vstd::bits::lemma_u64_shl_is_mul(1, (63 - l) as u64);
        vstd::bits::lemma_u64_shl_is_mul(1, (64 - l) as u64);
        lemma_pow2_adds((63 - l) as nat, shift);
        lemma_pow2_adds((64 - l) as nat, shift);
        lemma_pow2_pos(shift);
        assert((63 - l) as nat + shift == sb as nat);
        assert((64 - l) as nat + shift == sb as nat + 1);
        lemma_pow2_unfold(sb as nat + 1);
        let ps = pow2(shift) as int;
        assert(pow2((63 - l) as nat) * ps <= f * ps < pow2((64 - l) as nat) * ps) by (nonlinear_arith)
            requires pow2((63 - l) as nat) <= f < pow2((64 - l) as nat), ps > 0;
        vstd::bits::lemma_u64_pow2_no_overflow(sb as nat + 1);
        vstd::bits::lemma_u64_shl_is_mul(f, shift as u64);
        let f0 = f << (shift as u64);
        assert(unpack(x, sb, eb) == (1 - shift as int, f0));
        lemma_field_split(x, f0, sb, eb);
        assert(f0 | implicit(sb) == f0);
        lemma_pow2_adds(shift, (sb - shift) as nat);
        assert(f * m == f0 * pow2((sb - shift) as nat)) by (nonlinear_arith)
            requires f0 == f * ps, m == ps * pow2((sb - shift) as nat);
    }
}

/// Moving the same power of two to both sides of `x * 2^i == y * 2^j`.
proof fn lemma_exp_shift(x: nat, y: nat, i: nat, j: nat, i2: nat, j2: nat)
    requires
        x * pow2(i) == y * pow2(j),
        i + j2 == i2 + j,
    ensures
        x * pow2(i2) == y * pow2(j2),
{
    lemma_pow2_adds(i2, j);
    lemma_pow2_adds(i, j2);
    lemma_pow2_pos(j);
    let a = pow2(i) as int;
    let b = pow2(j) as int;
    let a2 = pow2(i2) as int;
    let b2 = pow2(j2) as int;
    assert(x * a2 * b == y * b2 * b) by (nonlinear_arith)
        requires x * a == y * b, a2 * b == a * b2;
    assert(x * a2 == y * b2) by (nonlinear_arith)
        requires x * a2 * b == y * b2 * b, b > 0;
}

/// What the packing needs of a sticky quotient `z` of `n`.
proof fn lemma_sticky_facts(n: nat, t: nat, k: nat)
    ensures
        round_half_even(sticky_div(n, t), 3) == round_half_even(n, t + 3),
        sticky_div(n, t) / 8 == n / pow2(t + 3),
        sticky_div(sticky_div(n, t), k) == sticky_div(n, t + k),
{
    lemma_round_sticky(n, t, 3);
    lemma_sticky_floor(n, t, 3);
    vstd::arithmetic::power2::lemma2_to64();
    lemma_sticky_compose(n, t, k);
}

/// A sticky quotient of `2y` by `k + 1` places is that of `y` by `k`.
proof fn lemma_sticky_double(y: nat, k: nat)
    ensures
        sticky_div(2 * y, k + 1) == sticky_div(y, k),
{
    let p = pow2(k) as int;
    lemma_pow2_pos(k);
    lemma_pow2_unfold(k + 1);
    lemma_fundamental_div_mod(y as int, p);
    lemma_mod_bound(y as int, p);
    vstd::arithmetic::div_mod::lemma_div_pos_is_pos(y as int, p);
    let q = y as int / p;
    let r = y as int % p;
    assert(2 * y == (2 * p) * q + 2 * r) by (nonlinear_arith)
        requires y == p * q + r;
    lemma_fundamental_div_mod_converse(2 * y as int, 2 * p, q, 2 * r);
}

/// What the packing needs of twice a sticky quotient of `x`, seen as a
/// sticky quotient of `2x`.
proof fn lemma_double_facts(x: nat, d: nat, k: nat)
    requires
        k >= 1,
    ensures
        round_half_even(2 * sticky_div(x, d), 3) == round_half_even(2 * x, d + 3),
        (2 * sticky_div(x, d)) / 8 == (2 * x) / pow2(d + 3),
        sticky_div(2 * sticky_div(x, d), k) == sticky_div(2 * x, d + k),
{
    vstd::arithmetic::power2::lemma2_to64();
    let y = sticky_div(x, d);
    lemma_round_scale(y, 2, 1);
    lemma_round_sticky(x, d, 2);
    lemma_round_scale(x, d + 2, 1);
    assert(y * 2 == 2 * y && x * 2 == 2 * x);
    lemma_sticky_floor(x, d, 2);
    lemma_pow2_unfold(d + 3);
    assert(d + 3 == (d + 2) + 1);
    vstd::arithmetic::div_mod::lemma_div_denominator(2 * y as int, 2, 4);
    lemma_pow2_pos(d + 2);
    vstd::arithmetic::div_mod::lemma_div_denominator(2 * x as int, 2, pow2(d + 2) as int);
    lemma_sticky_double(y, (k - 1) as nat);
    lemma_sticky_compose(x, d, (k - 1) as nat);
    lemma_sticky_double(x, (d + k - 1) as nat);
    assert((d + k - 1) as nat + 1 == d + k);
}

/// The larger magnitude bits give the larger magnitude, an exponent at
/// least as large, and at equal exponents a significand at least as large.
pub proof fn lemma_order(a: u64, b: u64, sb: u64, eb: u64)
    requires
        known_format(sb, eb),
        a & abs_of_format(sb, eb) != 0,
        a & abs_of_format(sb, eb) < inf_of_format(sb, eb),
        b & abs_of_format(sb, eb) != 0,
        b & abs_of_format(sb, eb) < inf_of_format(sb, eb),
        a & abs_of_format(sb, eb) >= b & abs_of_format(sb, eb),
    ensures
        magnitude(a, sb, eb) >= magnitude(b, sb, eb),
        unpack(a, sb, eb).0 >= unpack(b, sb, eb).0,
        unpack(a, sb, eb).0 == unpack(b, sb, eb).0 ==> (unpack(a, sb, eb).1 | implicit(sb)) >= (unpack(
            b,
            sb,
            eb,
        ).1 | implicit(sb)),
{
    let m = pow2(sb as nat) as int;
    crate::add::lemma_layout(sb, eb);
    vstd::bits::lemma_u64_pow2_no_overflow(sb as nat);
    vstd::bits::lemma_u64_shl_is_mul(1, sb);
    lemma_pow2_pos(sb as nat);
    lemma_field_split(a, 0, sb, eb);
    lemma_field_split(b, 0, sb, eb);
    let ea = (a >> sb) & max_exp(eb);
    let fa = a & sig_mask(sb);
    let ebf = (b >> sb) & max_exp(eb);
    let fb = b & sig_mask(sb);
    if ea < ebf {
        assert(ea * m + fa < ebf * m) by (nonlinear_arith)
            requires ea + 1 <= ebf, fa < m, m > 0;
    }
    assert(ea > ebf || (ea == ebf && fa >= fb)) by {
        if ea == ebf {
            assert(ea * m == ebf * m);
        }
    }
    let ma = magnitude(a, sb, eb) as int;
    let mb = magnitude(b, sb, eb) as int;
    if ea == ebf {
        if ea != 0 {
            let p = pow2((ea - 1) as nat) as int;
            assert((fa + m) * p >= (fb + m) * p) by (nonlinear_arith)
                requires fa >= fb, p >= 0;
        }
    } else {
        let pa = pow2((ea - 1) as nat) as int;
        lemma_pow2_pos((ea - 1) as nat);
        assert((fa + m) * pa >= m) by (nonlinear_arith)
            requires fa >= 0, pa >= 1, m > 0;
        if ebf != 0 {
            let pb = pow2((ebf - 1) as nat) as int;
            lemma_pow2_pos((ebf - 1) as nat);
            lemma_pow2_unfold(ebf as nat);
            if ebf < ea - 1 {
                vstd::arithmetic::power2::lemma_pow2_strictly_increases(ebf as nat, (ea - 1) as nat);
            }
            assert((fb + m) * pb < 2 * m * pb) by (nonlinear_arith)
                requires fb < m, pb > 0;
            assert(2 * m * pb <= m * pa) by (nonlinear_arith)
                requires 2 * pb <= pa, m > 0;
            assert(m * pa <= (fa + m) * pa) by (nonlinear_arith)
                requires fa >= 0, pa > 0;
        }
    }
    lemma_unpack_value(a, sb, eb);
    lemma_unpack_value(b, sb, eb);
    let (xa, sa) = unpack(a, sb, eb);
    let (xb, sbb) = unpack(b, sb, eb);
    let fa2 = (sa | implicit(sb)) as int;
    let fb2 = (sbb | implicit(sb)) as int;
    let pa = pow2((xa - 1 + sb) as nat) as int;
    let pb = pow2((xb - 1 + sb) as nat) as int;
    lemma_pow2_pos((xa - 1 + sb) as nat);
    lemma_pow2_pos((xb - 1 + sb) as nat);
    if xa < xb {
        lemma_pow2_unfold((xa + sb) as nat);
        if xa + sb < xb - 1 + sb {
            vstd::arithmetic::power2::lemma_pow2_strictly_increases((xa + sb) as nat, (xb - 1 + sb) as nat);
        }
        assert(2 * pa <= pb);
        assert(fa2 * pa < 2 * m * pa) by (nonlinear_arith)
            requires fa2 < 2 * m, pa > 0;
        assert(2 * m * pa <= m * pb) by (nonlinear_arith)
            requires m > 0, 2 * pa <= pb;
        assert(m * pb <= fb2 * pb) by (nonlinear_arith)
            requires m <= fb2, pb > 0;
        assert(ma * m < mb * m);
        assert(false) by (nonlinear_arith)
            requires ma * m < mb * m, ma >= mb, m > 0;
    }
    if xa == xb {
        assert(ma * m >= mb * m) by (nonlinear_arith)
            requires ma >= mb, m > 0;
        assert(fa2 >= fb2) by (nonlinear_arith)
            requires fa2 * pa >= fb2 * pa, pa > 0;
    }
}

/// After a subtraction, `renormalize` multiplies the significand by a power
/// of two that brings it into `[2^(sb+3), 2^(sb+4))`, lowering the exponent
/// by as many places.
pub proof fn lemma_renormalize_range(e: int, x: u64, sb: u64)
    requires
        sb == 23 || sb == 52,
        0 < x < 16 * pow2(sb as nat),
    ensures
        renormalize(e, x, implicit(sb) << 3u64).0 <= e,
        renormalize(e, x, implicit(sb) << 3u64).1 == x * pow2((e - renormalize(e, x, implicit(sb) << 3u64).0) as nat),
        8 * pow2(sb as nat) <= renormalize(e, x, implicit(sb) << 3u64).1 < 16 * pow2(sb as nat),
{
    let m = pow2(sb as nat) as int;
    vstd::arithmetic::power2::lemma2_to64();
    vstd::bits::lemma_u64_pow2_no_overflow(sb as nat);
    vstd::bits::lemma_u64_shl_is_mul(1, sb);
    let top = implicit(sb) << 3u64;
    assert(top == (1u64 << sb) * 8 && (1u64 << sb) * 8 < 0x1_0000_0000_0000_0000) by (bit_vector)
        requires top == (1u64 << sb) << 3u64, sb == 23 || sb == 52;
    if x >= top {
        assert(x * pow2(0) == x);
    } else {
        let l = u64_leading_zeros(x) as u64;
        let lm = u64_leading_zeros(top) as u64;
        vstd::std_specs::bits::axiom_u64_leading_zeros(x);
        vstd::std_specs::bits::axiom_u64_leading_zeros(top);
        crate::add::lemma_leading_zeros_below(x, l, top, lm, sb, 3);
        lemma_top_bit_u64(x, l);
        let shift = (l - lm) as nat;
        vstd::bits::lemma_u64_pow2_no_overflow((63 - l) as nat);
        vstd::bits::lemma_u64_pow2_no_overflow((64 - l) as nat);
        vstd::bits::lemma_u64_shl_is_mul(1, (63 - l) as u64);
        vstd::bits::lemma_u64_shl_is_mul(1, (64 - l) as u64);
        lemma_pow2_adds((63 - l) as nat, shift);
        lemma_pow2_adds((64 - l) as nat, shift);
        lemma_pow2_pos(shift);
        assert((63 - l) as nat + shift == sb as nat + 3);
        assert((64 - l) as nat + shift == sb as nat + 4);
        lemma_pow2_adds(sb as nat, 3);
        lemma_pow2_adds(sb as nat, 4);
        let ps = pow2(shift) as int;
        assert(pow2((63 - l) as nat) * ps <= x * ps < pow2((64 - l) as nat) * ps) by (nonlinear_arith)
            requires pow2((63 - l) as nat) <= x < pow2((64 - l) as nat), ps > 0;
        vstd::bits::lemma_u64_pow2_no_overflow(sb as nat + 4);
        vstd::bits::lemma_u64_shl_is_mul(x, shift as u64);
    }
}

/// Sign bits of two patterns and of their combination.
pub(crate) proof fn lemma_signs(a: u64, b: u64, sb: u64, eb: u64)
    by (bit_vector)
    requires
        (sb == 23 && eb == 8) || (sb == 52 && eb == 11),
    ensures
        a & sign_of_format(sb, eb) == 0 || a & sign_of_format(sb, eb) == sign_of_format(sb, eb),
        ((a ^ b) & sign_of_format(sb, eb) != 0) == ((a & sign_of_format(sb, eb) != 0) != (b & sign_of_format(
            sb,
            eb,
        ) != 0)),
        (a ^ b) & sign_of_format(sb, eb) != 0 ==> a & b & sign_of_format(sb, eb) == 0,
        a & b == b & a,
        a & b & sign_of_format(sb, eb) == b & a & sign_of_format(sb, eb),
{
}

/// The carry out of a sum below 2^(sb+5) is its bit `sb + 4`.
proof fn lemma_carry_bit(x: u64, sb: u64)
    by (bit_vector)
    requires
        sb == 23 || sb == 52,
        x < (1u64 << sb) * 32,
    ensures
        (x & ((1u64 << sb) << 4u64) != 0) == (x >= (1u64 << sb) * 16),
        ((1u64 << sb) << 3u64) == (1u64 << sb) * 8,
{
}

/// A sticky quotient is zero only for zero.
proof fn lemma_sticky_zero_only(x: nat, d: nat)
    requires
        sticky_div(x, d) == 0,
    ensures
        x == 0,
{
    lemma_pow2_pos(d);
    lemma_fundamental_div_mod(x as int, pow2(d) as int);
    lemma_mod_bound(x as int, pow2(d) as int);
    vstd::arithmetic::div_mod::lemma_div_pos_is_pos(x as int, pow2(d) as int);
    let q = x as int / pow2(d) as int;
    assert(q == 0) by {
        if q > 0 {
            assert(sticky_div(x, d) >= q);
        }
    }
    assert(x as int % pow2(d) as int == 0) by {
        if x as int % pow2(d) as int != 0 {
            assert(sticky_div(x, d) == 1);
        }
    }
    let pd = pow2(d) as int;
    let r = x as int % pd;
    assert(x == 0) by (nonlinear_arith)
        requires x == pd * q + r, q == 0, r == 0;
}

/// An operand two or more places below the other contributes at most a
/// quarter of its significand.
proof fn lemma_far_operand(fb: nat, d: nat, m: int)
    requires
        d >= 2,
        fb < 2 * m,
    ensures
        sticky_div(8 * fb, d) < 4 * m,
{
    vstd::arithmetic::power2::lemma2_to64();
    lemma_sticky_compose(8 * fb, 2, (d - 2) as nat);
    assert(8 * fb == 4 * (2 * fb));
    vstd::arithmetic::div_mod::lemma_div_multiples_vanish(2 * fb as int, 4);
    vstd::arithmetic::div_mod::lemma_mod_multiples_basic(2 * fb as int, 4);
    assert(sticky_div(8 * fb, 2) == 2 * fb);
    lemma_sticky_below(2 * fb, (d - 2) as nat, 4 * m);
}

/// The general case of the addition rounds the exact sum to nearest.
#[verifier::rlimit(100)]
#[verifier::spinoff_prover]
pub proof fn lemma_ordered_nearest(a: u64, b: u64, sb: u64, eb: u64)
    requires
        known_format(sb, eb),
        a & abs_of_format(sb, eb) != 0,
        a & abs_of_format(sb, eb) < inf_of_format(sb, eb),
        b & abs_of_format(sb, eb) != 0,
        b & abs_of_format(sb, eb) < inf_of_format(sb, eb),
        a & abs_of_format(sb, eb) >= b & abs_of_format(sb, eb),
    ensures
        add_ordered(a, b, sb, eb) == nearest_sum(a, b, sb, eb),
{
    let m = pow2(sb as nat) as int;
    crate::add::lemma_layout(sb, eb);
    vstd::arithmetic::power2::lemma2_to64();
    vstd::arithmetic::power2::lemma2_to64_rest();
    vstd::bits::lemma_u64_pow2_no_overflow(sb as nat);
    vstd::bits::lemma_u64_shl_is_mul(1, sb);
    lemma_pow2_pos(sb as nat);
    lemma_unpack_value(a, sb, eb);
    lemma_unpack_value(b, sb, eb);
    lemma_order(a, b, sb, eb);
    lemma_signs(a, b, sb, eb);
    let (ea, af) = unpack(a, sb, eb);
    let (eb2, bf) = unpack(b, sb, eb);
    let fa = (af | implicit(sb)) as nat;
    let fb = (bf | implicit(sb)) as nat;
    let d = (ea - eb2) as nat;
    let ebx = (eb2 - 1 + sb) as nat;
    let ma = magnitude(a, sb, eb);
    let mb = magnitude(b, sb, eb);
    lemma_pow2_adds(ebx, d);
    assert((ea - 1 + sb) as nat == ebx + d);
    assert(ma * m == fa * pow2(d) * pow2(ebx)) by (nonlinear_arith)
        requires ma * m == fa * pow2(ebx + d), pow2(ebx + d) == pow2(ebx) * pow2(d);
    // The significands with three extra low bits.
    let a_sig = (af | implicit(sb)) << 3u64;
    let b8 = (bf | implicit(sb)) << 3u64;
    vstd::bits::lemma_u64_pow2_no_overflow(3);
    vstd::bits::lemma_u64_shl_is_mul((af | implicit(sb)), 3);
    vstd::bits::lemma_u64_shl_is_mul((bf | implicit(sb)), 3);
    lemma_pow2_adds(sb as nat, 4);
    lemma_pow2_pos(d);
    lemma_pow2_pos(ebx);
    let w = width(sb, eb);
    vstd::arithmetic::power2::lemma_pow2_strictly_increases(sb as nat + 4, w as nat);
    lemma_shift_right_sticky(b8, d as int, w);
    let b_sig = shift_right_sticky(b8, ea - eb2, w);
    assert(b_sig == sticky_div(8 * fb, d));
    let sign = a & sign_of_format(sb, eb);
    let s = value(a, sb, eb) + value(b, sb, eb);
    lemma_sticky_below(8 * fb, d, 8 * m);
    if (a ^ b) & sign_of_format(sb, eb) != 0 {
        // Opposite signs: the magnitudes subtract.
        assert(fa * pow2(d) >= fb) by (nonlinear_arith)
            requires ma * m == fa * pow2(d) * pow2(ebx), mb * m == fb * pow2(ebx), ma >= mb, m > 0, pow2(ebx) > 0;
        assert(8 * fa * pow2(d) >= 8 * fb) by (nonlinear_arith)
            requires fa * pow2(d) >= fb;
        let x = (8 * fa * pow2(d) - 8 * fb) as nat;
        lemma_sticky_sub(8 * fa, 8 * fb, d);
        let diff = a_sig.wrapping_sub(b_sig);
        assert(diff == sticky_div(x, d));
        let mag = (ma - mb) as nat;
        assert(mag * pow2(sb as nat + 3) == x * pow2(ebx)) by (nonlinear_arith)
            requires
                ma * m == fa * pow2(d) * pow2(ebx),
                mb * m == fb * pow2(ebx),
                pow2(sb as nat + 3) == m * 8,
                mag == ma - mb,
                x == 8 * fa * pow2(d) - 8 * fb,
        ;
        if diff == 0 {
            lemma_sticky_zero_only(x, d);
            assert(mag * pow2(sb as nat + 3) == 0);
            lemma_pow2_pos(sb as nat + 3);
            assert(mag == 0) by (nonlinear_arith)
                requires mag * pow2(sb as nat + 3) == 0, pow2(sb as nat + 3) > 0;
            assert(s == 0);
            assert(add_ordered(a, b, sb, eb) == 0);
        } else {
            if mag == 0 {
                assert(x * pow2(ebx) == 0) by (nonlinear_arith)
                    requires mag * pow2(sb as nat + 3) == x * pow2(ebx), mag == 0;
                assert(x == 0) by (nonlinear_arith)
                    requires x * pow2(ebx) == 0, pow2(ebx) > 0;
                vstd::arithmetic::div_mod::lemma_div_basics(pow2(d) as int);
                assert(sticky_div(0, d) == 0);
            }
            assert(mag > 0);
            assert(sign != 0 ==> s == -mag);
            assert(sign == 0 ==> s == mag);
            lemma_renormalize_range(ea, diff, sb);
            let (e2, z) = renormalize(ea, diff, implicit(sb) << 3u64);
            let sh = (ea - e2) as nat;
            let n = x * pow2(sh);
            lemma_pow2_pos(sh);
            if sh == 0 {
                assert(z == diff && n == x) by (nonlinear_arith)
                    requires z == diff * pow2(sh), n == x * pow2(sh), pow2(sh) == 1;
                lemma_sticky_facts(x, d, (1 - e2) as nat);
            } else if sh == 1 {
                assert(z == 2 * diff && n == 2 * x) by (nonlinear_arith)
                    requires z == diff * pow2(sh), n == x * pow2(sh), pow2(sh) == 2;
                if e2 <= 0 {
                    lemma_double_facts(x, d, (1 - e2) as nat);
                } else {
                    lemma_double_facts(x, d, 1);
                }
            } else {
                // Two or more places: the operands were at most one place
                // apart, and the difference is exact.
                lemma_pow2_unfold(sh);
                lemma_pow2_pos((sh - 1) as nat);
                vstd::arithmetic::power2::lemma_pow2_strictly_increases(1, sh);
                if d >= 2 {
                    lemma_far_operand(fb, d, m);
                    assert(z >= 16 * m) by (nonlinear_arith)
                        requires z == diff * pow2(sh), diff >= 4 * m, pow2(sh) >= 4;
                }
                assert(d <= 1);
                assert(x % pow2(d) == 0) by {
                    if d == 1 {
                        assert(x == 2 * (4 * fa * 2 - 4 * fb));
                    }
                }
                lemma_fundamental_div_mod(x as int, pow2(d) as int);
                let qx = x as int / pow2(d) as int;
                assert(n == (qx * pow2(sh)) * pow2(d)) by (nonlinear_arith)
                    requires x == pow2(d) * qx, n == x * pow2(sh);
                lemma_fundamental_div_mod_converse(n as int, pow2(d) as int, qx * pow2(sh), 0);
                assert(z == sticky_div(n, d));
                lemma_sticky_facts(n, d, (1 - e2) as nat);
            }
            assert(mag * pow2(sb as nat + 3 + sh) == n * pow2(ebx)) by {
                lemma_pow2_adds(sb as nat + 3, sh);
                assert(mag * (pow2(sb as nat + 3) * pow2(sh)) == (x * pow2(sh)) * pow2(ebx)) by (nonlinear_arith)
                    requires mag * pow2(sb as nat + 3) == x * pow2(ebx);
            }
            if e2 >= 1 {
                lemma_exp_shift(mag, n, sb as nat + 3 + sh, ebx, d + 3, (e2 - 1) as nat);
            } else {
                lemma_exp_shift(mag, n, sb as nat + 3 + sh, ebx, d + 3 + (1 - e2) as nat, 0);
                lemma_pow2_adds(d + 3, (1 - e2) as nat);
                assert(n * pow2(0) == n);
                assert(mag * pow2(d + 3) * pow2((1 - e2) as nat) == mag * pow2(d + 3 + (1 - e2) as nat)) by (nonlinear_arith)
                    requires pow2(d + 3 + (1 - e2) as nat) == pow2(d + 3) * pow2((1 - e2) as nat);
            }
            lemma_pack_nearest(e2, z, sign, sb, eb, mag, n, d);
            assert(add_ordered(a, b, sb, eb) == pack(e2, z, sign, sb, eb));
        }
    } else {
        // Equal signs: the magnitudes add.
        let x = 8 * fa * pow2(d) + 8 * fb;
        lemma_sticky_add(8 * fa, 8 * fb, d);
        let sum = a_sig.wrapping_add(b_sig);
        assert(sum == sticky_div(x, d));
        let mag = ma + mb;
        assert(mag * pow2(sb as nat + 3) == x * pow2(ebx)) by (nonlinear_arith)
            requires
                ma * m == fa * pow2(d) * pow2(ebx),
                mb * m == fb * pow2(ebx),
                pow2(sb as nat + 3) == m * 8,
                mag == ma + mb,
                x == 8 * fa * pow2(d) + 8 * fb,
        ;
        lemma_carry_bit(sum, sb);
        if sum >= 16 * m {
            lemma_halve_sticky(sum);
            lemma_sticky_compose(x, d, 1);
            lemma_sticky_below(sum as nat, 1, 16 * m);
            lemma_sticky_floor(sum as nat, 0, 1);
            lemma_sticky_zero(sum as nat);
            let z = (sum >> 1u64) | (sum & 1);
            let e2 = ea + 1;
            lemma_sticky_facts(x, d + 1, (1 - e2) as nat);
            if e2 >= 1 {
                lemma_exp_shift(mag, x, sb as nat + 3, ebx, d + 1 + 3, (e2 - 1) as nat);
            } else {
                lemma_exp_shift(mag, x, sb as nat + 3, ebx, d + 1 + 3 + (1 - e2) as nat, 0);
                lemma_pow2_adds(d + 1 + 3, (1 - e2) as nat);
                assert(mag * pow2(d + 1 + 3) * pow2((1 - e2) as nat) == mag * pow2(d + 1 + 3 + (1 - e2) as nat)) by (nonlinear_arith)
                    requires pow2(d + 1 + 3 + (1 - e2) as nat) == pow2(d + 1 + 3) * pow2((1 - e2) as nat);
            }
            lemma_pack_nearest(e2, z, sign, sb, eb, mag, x, d + 1);
            assert(add_ordered(a, b, sb, eb) == pack(e2, z, sign, sb, eb));
        } else {
            lemma_sticky_facts(x, d, (1 - ea) as nat);
            if ea >= 1 {
                lemma_exp_shift(mag, x, sb as nat + 3, ebx, d + 3, (ea - 1) as nat);
            } else {
                lemma_exp_shift(mag, x, sb as nat + 3, ebx, d + 3 + (1 - ea) as nat, 0);
                lemma_pow2_adds(d + 3, (1 - ea) as nat);
                assert(mag * pow2(d + 3) * pow2((1 - ea) as nat) == mag * pow2(d + 3 + (1 - ea) as nat)) by (nonlinear_arith)
                    requires pow2(d + 3 + (1 - ea) as nat) == pow2(d + 3) * pow2((1 - ea) as nat);
            }
            lemma_pack_nearest(ea, sum, sign, sb, eb, mag, x, d);
            assert(add_ordered(a, b, sb, eb) == pack(ea, sum, sign, sb, eb));
        }
        assert(ma > 0) by (nonlinear_arith)
            requires ma * m == fa * pow2(d) * pow2(ebx), fa >= m, m > 0, pow2(d) > 0, pow2(ebx) > 0;
        assert(sign != 0 ==> s == -mag);
        assert(sign == 0 ==> s == mag);
        assert(mag > 0);
    }
}

/// A pattern of the format is its sign bit plus its magnitude bits.
proof fn lemma_sign_and_magnitude(x: u64, sb: u64, eb: u64)
    by (bit_vector)
    requires
        (sb == 23 && eb == 8) || (sb == 52 && eb == 11),
        sb == 52 || x < 0x1_0000_0000,
    ensures
        x == (x & sign_of_format(sb, eb)) + (x & abs_of_format(sb, eb)),
        x & abs_of_format(sb, eb) == 0 ==> x == x & sign_of_format(sb, eb),
{
}

/// A finite nonzero pattern is the nearest pattern to its own magnitude.
pub proof fn lemma_encode_exact(x: u64, sb: u64, eb: u64)
    requires
        known_format(sb, eb),
        x & abs_of_format(sb, eb) != 0,
        x & abs_of_format(sb, eb) < inf_of_format(sb, eb),
    ensures
        encode(magnitude(x, sb, eb), sb, eb) == x & abs_of_format(sb, eb),
        magnitude(x, sb, eb) > 0,
{
    let m = pow2(sb as nat) as int;
    crate::add::lemma_layout(sb, eb);
    vstd::arithmetic::power2::lemma2_to64();
    vstd::bits::lemma_u64_pow2_no_overflow(sb as nat);
    vstd::bits::lemma_u64_shl_is_mul(1, sb);
    lemma_pow2_pos(sb as nat);
    lemma_field_split(x, 0, sb, eb);
    let ef = (x >> sb) & max_exp(eb);
    let f = x & sig_mask(sb);
    let mag = magnitude(x, sb, eb);
    if ef == 0 {
        assert(ef * m == 0) by (nonlinear_arith)
            requires ef == 0;
        lemma_ulp_scale_small(mag, sb as nat);
    } else {
        let k = (ef - 1) as nat;
        let p = pow2(k) as int;
        lemma_pow2_pos(k);
        assert(m * p <= mag < 2 * m * p) by (nonlinear_arith)
            requires mag == (f + m) * p, 0 <= f < m, p > 0;
        lemma_ulp_scale(mag, sb as nat, k);
        lemma_fundamental_div_mod_converse(mag as int, p, f + m, 0);
        if k > 0 {
            lemma_pow2_pos((k - 1) as nat);
        }
        if k == 0 {
            assert(mag == f + m) by (nonlinear_arith)
                requires mag == (f + m) * p, p == 1;
        }
        assert(round_half_even(mag, k) == f + m);
        assert(k * m + f + m == ef * m + f) by (nonlinear_arith)
            requires k == ef - 1;
        assert(mag > 0) by (nonlinear_arith)
            requires mag == (f + m) * p, f >= 0, m > 0, p > 0;
    }
}

/// For finite operands the addition gives the correctly rounded sum: the
/// pattern nearest to the exact sum, ties to even, infinity on overflow, and
/// +0 for an exact zero unless both operands are -0.
pub proof fn lemma_add_is_nearest(a: u64, b: u64, sb: u64, eb: u64)
    requires
        known_format(sb, eb),
        fits_format(a, sb),
        fits_format(b, sb),
        a & abs_of_format(sb, eb) < inf_of_format(sb, eb),
        b & abs_of_format(sb, eb) < inf_of_format(sb, eb),
    ensures
        add_spec(a, b, sb, eb) == nearest_sum(a, b, sb, eb),
{
    let abs = abs_of_format(sb, eb);
    let sign = sign_of_format(sb, eb);
    crate::add::lemma_layout(sb, eb);
    lemma_sign_and_magnitude(a, sb, eb);
    lemma_sign_and_magnitude(b, sb, eb);
    lemma_signs(a, b, sb, eb);
    lemma_signs(b, a, sb, eb);
    if a & abs == 0 || b & abs == 0 {
        lemma_field_split(a, 0, sb, eb);
        lemma_field_split(b, 0, sb, eb);
        if a & abs == 0 {
            assert(((a >> sb) & max_exp(eb)) == 0 && a & sig_mask(sb) == 0) by (nonlinear_arith)
                requires ((a >> sb) & max_exp(eb)) * (1u64 << sb) + (a & sig_mask(sb)) == 0, (1u64 << sb) > 0;
            assert(magnitude(a, sb, eb) == 0);
        } else {
            lemma_encode_exact(a, sb, eb);
        }
        if b & abs == 0 {
            assert(((b >> sb) & max_exp(eb)) == 0 && b & sig_mask(sb) == 0) by (nonlinear_arith)
                requires ((b >> sb) & max_exp(eb)) * (1u64 << sb) + (b & sig_mask(sb)) == 0, (1u64 << sb) > 0;
            assert(magnitude(b, sb, eb) == 0);
        } else {
            lemma_encode_exact(b, sb, eb);
        }
        if a & abs == 0 && b & abs == 0 {
            assert(a & b == a & b & sign) by (bit_vector)
                requires a == a & sign, b == b & sign;
        }
    } else if b & abs > a & abs {
        lemma_ordered_nearest(b, a, sb, eb);
    } else {
        lemma_ordered_nearest(a, b, sb, eb);
    }
}

} // verus!
