//! A double-width integer seen as two half-width limbs.
use vstd::prelude::*;

verus! {

/// 2^32, the weight of the high limb of a 64-bit integer.
pub open spec fn limb_base() -> int {
    0x1_0000_0000
}

/// An integer of twice the width of its limbs: `value == low + high * 2^N`.
pub trait LargeInt: Sized {
    /// The unsigned type of the low limb.
    type LowHalf;

    /// The type of the high limb, signed where `Self` is.
    type HighHalf;

    /// Bits `[0, N)` of the value.
    fn low(self) -> Self::LowHalf;

    /// Bits `[N, 2N)` of the value, carrying its sign.
    fn high(self) -> Self::HighHalf;

    /// The value whose limbs are `low` and `high`.
    fn from_parts(low: Self::LowHalf, high: Self::HighHalf) -> Self;
}

/// The limbs of a u64 and their reassembly, at the bit level.
proof fn lemma_u64_limbs(x: u64, low: u32, high: u32)
    by (bit_vector)
    ensures
        x as u32 == x % 0x1_0000_0000,
        (x >> 32u64) as u32 == x / 0x1_0000_0000,
        (low as u64) | ((high as u64) << 32u64) == low + high * 0x1_0000_0000,
{
}

/// The low limb of an i64 and the reassembly of limbs, at the bit level.
proof fn lemma_i64_limbs(x: i64, low: u32, high: i32)
    by (bit_vector)
    ensures
        #[verifier::truncate] ((#[verifier::truncate] (x as u64)) as u32) == x % 0x1_0000_0000,
        ((low as u64) | (((high as i64) as u64) << 32u64)) as i64 == low + high * 0x1_0000_0000,
{
}

/// The high limb of an i64 is its floor quotient by 2^32.
proof fn lemma_i64_high(x: i64)
    by (bit_vector)
    ensures
        (x >> 32u64) as i32 == x / 0x1_0000_0000,
{
}

impl LargeInt for u64 {
    type LowHalf = u32;

    type HighHalf = u32;

    fn low(self) -> (r: u32)
        ensures
            r == self as int % limb_base(),
    {
        proof { lemma_u64_limbs(self, 0, 0); }
        self as u32
    }

    fn high(self) -> (r: u32)
        ensures
            r == self as int / limb_base(),
    {
        proof { lemma_u64_limbs(self, 0, 0); }
        (self >> 32u64) as u32
    }

    fn from_parts(low: u32, high: u32) -> (r: u64)
        ensures
            r == low + high * limb_base(),
    {
        proof { lemma_u64_limbs(0, low, high); }
        (low as u64) | ((high as u64) << 32u64)
    }
}

impl LargeInt for i64 {
    type LowHalf = u32;

    type HighHalf = i32;

    fn low(self) -> (r: u32)
        ensures
            r == self as int % limb_base(),
            r == #[verifier::truncate] ((#[verifier::truncate] (self as u64)) as u32),
    {
        proof { lemma_i64_limbs(self, 0, 0); }
        #[verifier::truncate] ((#[verifier::truncate] (self as u64)) as u32)
    }

    fn high(self) -> (r: i32)
        ensures
            r == self as int / limb_base(),
            r == (self >> 32u64) as i32,
    {
        proof { lemma_i64_high(self); }
        (self >> 32u64) as i32
    }

    fn from_parts(low: u32, high: i32) -> (r: i64)
        ensures
            r == low + high * limb_base(),
    {
        let r = ((low as u64) | (((high as i64) as u64) << 32u64)) as i64;
        proof { lemma_i64_limbs(0, low, high); }
        r
    }
}

} // verus!
