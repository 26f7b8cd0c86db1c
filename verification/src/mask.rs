//! The mask generator: the value whose low `bit_width` bits are set.

use crate::model::lemma_pow2_le;
use crate::value::UnsignedInteger;
use vstd::arithmetic::power2::{lemma2_to64, lemma2_to64_rest, lemma_pow2_pos};
use vstd::bits::{
    lemma_u64_pow2_no_overflow, lemma_u64_shl_is_mul, lemma_u8_pow2_no_overflow,
    lemma_u8_shl_is_mul, low_bits_mask,
};
use vstd::prelude::*;

verus! {

/// The 64-bit value with exactly the low `bit_width` bits set. The full-width
/// case is special-cased: computing `(1 << 64) - 1` would overflow.
pub(crate) fn bitmask_u64(bit_width: usize) -> (r: u64)
    requires
        bit_width <= 64,
    ensures
        r as nat == low_bits_mask(bit_width as nat),
{
    if bit_width == 64 {
        proof {
            lemma2_to64_rest();
        }
        u64::MAX
    } else {
        proof {
            lemma_u64_pow2_no_overflow(bit_width as nat);
            lemma_u64_shl_is_mul(1u64, bit_width as u64);
        }
        (1u64 << (bit_width as u64)) - 1
    }
}

/// The byte with exactly the low `bit_width` bits set; used to build the
/// per-byte splice masks of the writer.
pub(crate) fn bitmask_u8(bit_width: usize) -> (r: u8)
    requires
        bit_width <= 8,
    ensures
        r as nat == low_bits_mask(bit_width as nat),
{
    if bit_width == 8 {
        proof {
            lemma2_to64();
        }
        0xffu8
    } else {
        proof {
            lemma_u8_pow2_no_overflow(bit_width as nat);
            lemma_u8_shl_is_mul(1u8, bit_width as u8);
        }
        (1u8 << (bit_width as u8)) - 1
    }
}

/// The value of type `T` with exactly the low `bit_width` bits set and all
/// higher bits zero; `bit_width` must not exceed the storage width of `T`.
pub fn bitmask<T: UnsignedInteger>(bit_width: usize) -> (r: T)
    requires
        bit_width as nat <= T::storage_width(),
    ensures
        r.as_nat() == low_bits_mask(bit_width as nat),
{
    proof {
        T::lemma_storage_width();
        lemma_pow2_le(bit_width as nat, T::storage_width());
        lemma_pow2_pos(bit_width as nat);
    }
    let m = bitmask_u64(bit_width);
    T::from_u64(m)
}

} // verus!
