//! IEEE-754 binary formats as bit patterns: the layout of each format and the
//! conversions between a value and its raw bits.
use vstd::prelude::*;

verus! {

/// The layout of an IEEE-754 binary format, and the raw bit pattern of a
/// value of it.
pub trait Float: Sized + Copy {
    /// An unsigned integer as wide as the format.
    type Int;

    /// The integer 1.
    fn one() -> Self::Int;

    /// The integer 0.
    fn zero() -> Self::Int;

    /// The width of the format in bits.
    fn bits() -> Self::Int;

    /// The width of the stored significand in bits.
    fn significand_bits() -> Self::Int;

    /// The width of the exponent field: `bits - significand_bits - 1`.
    fn exponent_bits() -> Self::Int;

    /// The largest biased exponent, that of infinities and NaNs.
    fn max_exponent() -> Self::Int;

    /// The exponent bias, `max_exponent >> 1`.
    fn exponent_bias() -> Self::Int;

    /// The bit just above the stored significand.
    fn implicit_bit() -> Self::Int;

    /// The bits of the stored significand.
    fn significand_mask() -> Self::Int;

    /// The sign bit, the top bit of the format.
    fn sign_bit() -> Self::Int;

    /// Every bit but the sign bit.
    fn abs_mask() -> Self::Int;

    /// The bits of the exponent field.
    fn exponent_mask() -> Self::Int;

    /// The bits of positive infinity.
    fn inf_rep() -> Self::Int;

    /// The top significand bit, set in a quiet NaN.
    fn quiet_bit() -> Self::Int;

    /// The bits of the canonical positive quiet NaN.
    fn qnan_rep() -> Self::Int;

    /// The raw bit pattern of `self`.
    fn repr(self) -> Self::Int;

    /// Whether `self` and `rhs` have the same bit pattern, any two NaNs
    /// counting as equal whatever their payloads.
    fn eq_repr(self, rhs: Self) -> bool;

    /// The value whose raw bit pattern is `a`.
    fn from_repr(a: Self::Int) -> Self;

    /// The value with the given sign, the low bits of `exponent` as its
    /// biased exponent and the low bits of `significand` as its significand.
    fn from_parts(sign: bool, exponent: Self::Int, significand: Self::Int) -> Self;

    /// For a nonzero subnormal significand, the exponent and significand of
    /// the same value with the implicit bit set.
    fn normalize(significand: Self::Int) -> (i32, Self::Int);
}

/// A single-precision value, held as its 32-bit pattern.
#[derive(Clone, Copy, Debug, PartialEq, Eq, Structural)]
pub struct Binary32 {
    pub repr: u32,
}

/// A double-precision value, held as its 64-bit pattern.
#[derive(Clone, Copy, Debug, PartialEq, Eq, Structural)]
pub struct Binary64 {
    pub repr: u64,
}

/// Whether `(sb, eb)` is the significand and exponent width of single or
/// double precision.
pub open spec fn known_format(sb: u64, eb: u64) -> bool {
    (sb == 23 && eb == 8) || (sb == 52 && eb == 11)
}

/// What the count of leading zeros tells of a 32-bit value: its top set bit,
/// and the shift that moves that bit to position 23.
proof fn lemma_leading_zeros_u32(x: u32, l: u32)
    by (bit_vector)
    requires
        l <= 32,
        x == 0 <==> l == 32,
        l < 32 ==> (x >> ((31 - l) as u32)) & 1u32 != 0u32,
        x >> ((32 - l) as u32) == 0,
    ensures
        x == 0x0080_0000 ==> l == 8,
        0 < x < 0x0080_0000 ==> 8 < l < 32 && 0x0080_0000 <= x << ((l - 8) as u32) < 0x0100_0000,
{
}

/// What the count of leading zeros tells of a 64-bit value: its top set bit,
/// and the shift that moves that bit to position 52.
proof fn lemma_leading_zeros_u64(x: u64, l: u64)
    by (bit_vector)
    requires
        l <= 64,
        x == 0 <==> l == 64,
        l < 64 ==> (x >> ((63 - l) as u64)) & 1u64 != 0u64,
        x >> ((64 - l) as u64) == 0,
    ensures
        x == 0x0010_0000_0000_0000 ==> l == 11,
        0 < x < 0x0010_0000_0000_0000 ==> 11 < l < 64 && 0x0010_0000_0000_0000 <= x << ((l - 11) as u64)
            < 0x0020_0000_0000_0000,
{
}

/// The layout constants of single precision, and the masks splitting a
/// pattern into sign, exponent and significand without gap or overlap.
pub proof fn lemma_binary32_layout()
    by (bit_vector)
    ensures
        0x8000_0000u32 | 0x7F80_0000u32 | 0x007F_FFFFu32 == 0xFFFF_FFFFu32,
        0x8000_0000u32 & 0x7F80_0000u32 == 0,
        0x8000_0000u32 & 0x007F_FFFFu32 == 0,
        0x7F80_0000u32 & 0x007F_FFFFu32 == 0,
        0x7FFF_FFFFu32 == 0x7F80_0000u32 | 0x007F_FFFFu32,
        (1u32 << 8u32) - 1 == 0xFF,
        0xFFu32 >> 1u32 == 127,
        1u32 << 23u32 == 0x0080_0000,
        1u32 << 31u32 == 0x8000_0000,
        0x7FFF_FFFFu32 ^ 0x007F_FFFFu32 == 0x7F80_0000,
        0x0080_0000u32 >> 1u32 == 0x0040_0000,
        0x7F80_0000u32 | 0x0040_0000u32 == 0x7FC0_0000,
        (1u32 << 31u32) == 0x8000_0000u32 && (0u32 << 31u32) == 0u32,
{
}

/// The layout constants of double precision, and the masks splitting a
/// pattern into sign, exponent and significand without gap or overlap.
pub proof fn lemma_binary64_layout()
    by (bit_vector)
    ensures
        0x8000_0000_0000_0000u64 | 0x7FF0_0000_0000_0000u64 | 0x000F_FFFF_FFFF_FFFFu64 == 0xFFFF_FFFF_FFFF_FFFFu64,
        0x8000_0000_0000_0000u64 & 0x7FF0_0000_0000_0000u64 == 0,
        0x8000_0000_0000_0000u64 & 0x000F_FFFF_FFFF_FFFFu64 == 0,
        0x7FF0_0000_0000_0000u64 & 0x000F_FFFF_FFFF_FFFFu64 == 0,
        0x7FFF_FFFF_FFFF_FFFFu64 == 0x7FF0_0000_0000_0000u64 | 0x000F_FFFF_FFFF_FFFFu64,
        (1u64 << 11u64) - 1 == 0x7FF,
        0x7FFu64 >> 1u64 == 1023,
        1u64 << 52u64 == 0x0010_0000_0000_0000,
        1u64 << 63u64 == 0x8000_0000_0000_0000,
        0x7FFF_FFFF_FFFF_FFFFu64 ^ 0x000F_FFFF_FFFF_FFFFu64 == 0x7FF0_0000_0000_0000,
        0x0010_0000_0000_0000u64 >> 1u64 == 0x0008_0000_0000_0000,
        0x7FF0_0000_0000_0000u64 | 0x0008_0000_0000_0000u64 == 0x7FF8_0000_0000_0000,
        (1u64 << 63u64) == 0x8000_0000_0000_0000u64 && (0u64 << 63u64) == 0u64,
{
}

impl Float for Binary32 {
    type Int = u32;

    fn one() -> (r: u32)
        ensures
            r == 1,
    {
        1
    }

    fn zero() -> (r: u32)
        ensures
            r == 0,
    {
        0
    }

    fn bits() -> (r: u32)
        ensures
            r == 32,
    {
        32
    }

    fn significand_bits() -> (r: u32)
        ensures
            r == 23,
    {
        23
    }

    fn exponent_bits() -> (r: u32)
        ensures
            r == 8,
    {
        Self::bits() - Self::significand_bits() - Self::one()
    }

    fn max_exponent() -> (r: u32)
        ensures
            r == 0xFF,
    {
        proof { lemma_binary32_layout(); }
        (Self::one() << Self::exponent_bits()) - Self::one()
    }

    fn exponent_bias() -> (r: u32)
        ensures
            r == 127,
    {
        proof { lemma_binary32_layout(); }
        Self::max_exponent() >> Self::one()
    }

    fn implicit_bit() -> (r: u32)
        ensures
            r == 0x0080_0000,
    {
        proof { lemma_binary32_layout(); }
        Self::one() << Self::significand_bits()
    }

    fn significand_mask() -> (r: u32)
        ensures
            r == 0x007F_FFFF,
    {
        Self::implicit_bit() - Self::one()
    }

    fn sign_bit() -> (r: u32)
        ensures
            r == 0x8000_0000,
    {
        proof { lemma_binary32_layout(); }
        Self::one() << (Self::significand_bits() + Self::exponent_bits())
    }

    fn abs_mask() -> (r: u32)
        ensures
            r == 0x7FFF_FFFF,
    {
        Self::sign_bit() - Self::one()
    }

    fn exponent_mask() -> (r: u32)
        ensures
            r == 0x7F80_0000,
    {
        proof { lemma_binary32_layout(); }
        Self::abs_mask() ^ Self::significand_mask()
    }

    fn inf_rep() -> (r: u32)
        ensures
            r == 0x7F80_0000,
    {
        Self::exponent_mask()
    }

    fn quiet_bit() -> (r: u32)
        ensures
            r == 0x0040_0000,
    {
        proof { lemma_binary32_layout(); }
        Self::implicit_bit() >> Self::one()
    }

    fn qnan_rep() -> (r: u32)
        ensures
            r == 0x7FC0_0000,
    {
        proof { lemma_binary32_layout(); }
        Self::exponent_mask() | Self::quiet_bit()
    }

    fn repr(self) -> (r: u32)
        ensures
            r == self.repr,
    {
        self.repr
    }

    fn eq_repr(self, rhs: Self) -> (r: bool)
        ensures
            r == ((self.repr & 0x7FFF_FFFF > 0x7F80_0000 && rhs.repr & 0x7FFF_FFFF > 0x7F80_0000) || self.repr
                == rhs.repr),
    {
        let abs_mask = Self::abs_mask();
        let inf_rep = Self::inf_rep();
        if self.repr & abs_mask > inf_rep && rhs.repr & abs_mask > inf_rep {
            true
        } else {
            self.repr == rhs.repr
        }
    }

    fn from_repr(a: u32) -> (r: Self)
        ensures
            r.repr == a,
    {
        Binary32 { repr: a }
    }

    fn from_parts(sign: bool, exponent: u32, significand: u32) -> (r: Self)
        ensures
            r.repr == (if sign { 0x8000_0000u32 } else { 0u32 }) | ((exponent << 23u32) & 0x7F80_0000u32)
                | (significand & 0x007F_FFFFu32),
    {
        let s: u32 = if sign { 1 } else { 0 };
        proof { lemma_binary32_layout(); }
        Self::from_repr(
            (s << (Self::bits() - 1)) | ((exponent << Self::significand_bits()) & Self::exponent_mask()) | (
            significand & Self::significand_mask()),
        )
    }

    fn normalize(significand: u32) -> (r: (i32, u32))
        ensures
            0 < significand < 0x0080_0000 ==> {
                &&& r.0 <= 0
                &&& 0x0080_0000 <= r.1 < 0x0100_0000
                &&& r.1 == significand << ((1 - r.0) as u32)
            },
    {
        let implicit_bit = Self::one() << Self::significand_bits();
        proof { lemma_binary32_layout(); }
        proof {
            vstd::std_specs::bits::axiom_u32_leading_zeros(significand);
            vstd::std_specs::bits::axiom_u32_leading_zeros(implicit_bit);
            lemma_leading_zeros_u32(implicit_bit, implicit_bit.leading_zeros());
            lemma_leading_zeros_u32(significand, significand.leading_zeros());
        }
        let shift = significand.leading_zeros().wrapping_sub(implicit_bit.leading_zeros());
        (1i32.wrapping_sub(shift as i32), significand.wrapping_shl(shift))
    }
}

impl Float for Binary64 {
    type Int = u64;

    fn one() -> (r: u64)
        ensures
            r == 1,
    {
        1
    }

    fn zero() -> (r: u64)
        ensures
            r == 0,
    {
        0
    }

    fn bits() -> (r: u64)
        ensures
            r == 64,
    {
        64
    }

    fn significand_bits() -> (r: u64)
        ensures
            r == 52,
    {
        52
    }

    fn exponent_bits() -> (r: u64)
        ensures
            r == 11,
    {
        Self::bits() - Self::significand_bits() - Self::one()
    }

    fn max_exponent() -> (r: u64)
        ensures
            r == 0x7FF,
    {
        proof { lemma_binary64_layout(); }
        (Self::one() << Self::exponent_bits()) - Self::one()
    }

    fn exponent_bias() -> (r: u64)
        ensures
            r == 1023,
    {
        proof { lemma_binary64_layout(); }
        Self::max_exponent() >> Self::one()
    }

    fn implicit_bit() -> (r: u64)
        ensures
            r == 0x0010_0000_0000_0000,
    {
        proof { lemma_binary64_layout(); }
        Self::one() << Self::significand_bits()
    }

    fn significand_mask() -> (r: u64)
        ensures
            r == 0x000F_FFFF_FFFF_FFFF,
    {
        Self::implicit_bit() - Self::one()
    }

    fn sign_bit() -> (r: u64)
        ensures
            r == 0x8000_0000_0000_0000,
    {
        proof { lemma_binary64_layout(); }
        Self::one() << (Self::significand_bits() + Self::exponent_bits())
    }

    fn abs_mask() -> (r: u64)
        ensures
            r == 0x7FFF_FFFF_FFFF_FFFF,
    {
        Self::sign_bit() - Self::one()
    }

    fn exponent_mask() -> (r: u64)
        ensures
            r == 0x7FF0_0000_0000_0000,
    {
        proof { lemma_binary64_layout(); }
        Self::abs_mask() ^ Self::significand_mask()
    }

    fn inf_rep() -> (r: u64)
        ensures
            r == 0x7FF0_0000_0000_0000,
    {
        Self::exponent_mask()
    }

    fn quiet_bit() -> (r: u64)
        ensures
            r == 0x0008_0000_0000_0000,
    {
        proof { lemma_binary64_layout(); }
        Self::implicit_bit() >> Self::one()
    }

    fn qnan_rep() -> (r: u64)
        ensures
            r == 0x7FF8_0000_0000_0000,
    {
        proof { lemma_binary64_layout(); }
        Self::exponent_mask() | Self::quiet_bit()
    }

    fn repr(self) -> (r: u64)
        ensures
            r == self.repr,
    {
        self.repr
    }

    fn eq_repr(self, rhs: Self) -> (r: bool)
        ensures
            r == ((self.repr & 0x7FFF_FFFF_FFFF_FFFF > 0x7FF0_0000_0000_0000 && rhs.repr & 0x7FFF_FFFF_FFFF_FFFF
                > 0x7FF0_0000_0000_0000) || self.repr == rhs.repr),
    {
        let abs_mask = Self::abs_mask();
        let inf_rep = Self::inf_rep();
        if self.repr & abs_mask > inf_rep && rhs.repr & abs_mask > inf_rep {
            true
        } else {
            self.repr == rhs.repr
        }
    }

    fn from_repr(a: u64) -> (r: Self)
        ensures
            r.repr == a,
    {
        Binary64 { repr: a }
    }

    fn from_parts(sign: bool, exponent: u64, significand: u64) -> (r: Self)
        ensures
            r.repr == (if sign { 0x8000_0000_0000_0000u64 } else { 0u64 }) | ((exponent << 52u64) & 0x7FF0_0000_0000_0000u64)
                | (significand & 0x000F_FFFF_FFFF_FFFFu64),
    {
        let s: u64 = if sign { 1 } else { 0 };
        proof { lemma_binary64_layout(); }
        Self::from_repr(
            (s << (Self::bits() - 1)) | ((exponent << Self::significand_bits()) & Self::exponent_mask()) | (
            significand & Self::significand_mask()),
        )
    }

    fn normalize(significand: u64) -> (r: (i32, u64))
        ensures
            0 < significand < 0x0010_0000_0000_0000 ==> {
                &&& r.0 <= 0
                &&& 0x0010_0000_0000_0000 <= r.1 < 0x0020_0000_0000_0000
                &&& r.1 == significand << ((1 - r.0) as u64)
            },
    {
        let implicit_bit = Self::one() << Self::significand_bits();
        proof { lemma_binary64_layout(); }
        proof {
            vstd::std_specs::bits::axiom_u64_leading_zeros(significand);
            vstd::std_specs::bits::axiom_u64_leading_zeros(implicit_bit);
            lemma_leading_zeros_u64(implicit_bit, vstd::std_specs::bits::u64_leading_zeros(implicit_bit) as u64);
            lemma_leading_zeros_u64(significand, vstd::std_specs::bits::u64_leading_zeros(significand) as u64);
        }
        let shift = significand.leading_zeros().wrapping_sub(implicit_bit.leading_zeros());
        (1i32.wrapping_sub(shift as i32), significand.wrapping_shl(shift))
    }
}

} // verus!
