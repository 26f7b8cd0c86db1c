//! The unsigned integer types a field can be read into or written from.
//!
//! One algorithm serves every width: a value travels through the accessor as
//! a `u64`, and this trait says how a concrete type maps to and from that
//! carrier, and how wide its storage is.

use vstd::arithmetic::power2::{lemma2_to64, lemma2_to64_rest, pow2};
use vstd::prelude::*;

verus! {

/// An unsigned integer type usable as a field value: it has a known storage
/// width of at most 64 bits, and converts losslessly to and from `u64`.
pub trait UnsignedInteger: Sized + Copy {
    /// The value as a mathematical natural number.
    spec fn as_nat(self) -> nat;

    /// The storage width in bits.
    spec fn storage_width() -> nat;

    /// The storage width is between 1 and 64.
    proof fn lemma_storage_width()
        ensures
            0 < Self::storage_width() <= 64,
    ;

    /// Every value fits in the storage width.
    proof fn lemma_value_bound(self)
        ensures
            self.as_nat() < pow2(Self::storage_width()),
    ;

    /// The storage width in bits, as a runtime value.
    fn width() -> (r: usize)
        ensures
            r as nat == Self::storage_width(),
    ;

    /// Widen to the 64-bit carrier.
    fn to_u64(self) -> (r: u64)
        ensures
            r as nat == self.as_nat(),
    ;

    /// Narrow from the 64-bit carrier; the value must fit.
    fn from_u64(v: u64) -> (r: Self)
        requires
            (v as nat) < pow2(Self::storage_width()),
        ensures
            r.as_nat() == v as nat,
    ;
}

impl UnsignedInteger for u8 {
    open spec fn as_nat(self) -> nat {
        self as nat
    }

    open spec fn storage_width() -> nat {
        8
    }

    proof fn lemma_storage_width() {
    }

    proof fn lemma_value_bound(self) {
        lemma2_to64();
    }

    fn width() -> usize {
        8
    }

    fn to_u64(self) -> u64 {
        self as u64
    }

    fn from_u64(v: u64) -> (r: u8) {
        proof {
            lemma2_to64();
        }
        v as u8
    }
}

impl UnsignedInteger for u16 {
    open spec fn as_nat(self) -> nat {
        self as nat
    }

    open spec fn storage_width() -> nat {
        16
    }

    proof fn lemma_storage_width() {
    }

    proof fn lemma_value_bound(self) {
        lemma2_to64();
    }

    fn width() -> usize {
        16
    }

    fn to_u64(self) -> u64 {
        self as u64
    }

    fn from_u64(v: u64) -> (r: u16) {
        proof {
            lemma2_to64();
        }
        v as u16
    }
}

impl UnsignedInteger for u32 {
    open spec fn as_nat(self) -> nat {
        self as nat
    }

    open spec fn storage_width() -> nat {
        32
    }

    proof fn lemma_storage_width() {
    }

    proof fn lemma_value_bound(self) {
        lemma2_to64();
    }

    fn width() -> usize {
        32
    }

    fn to_u64(self) -> u64 {
        self as u64
    }

    fn from_u64(v: u64) -> (r: u32) {
        proof {
            lemma2_to64();
        }
        v as u32
    }
}

impl UnsignedInteger for u64 {
    open spec fn as_nat(self) -> nat {
        self as nat
    }

    open spec fn storage_width() -> nat {
        64
    }

    proof fn lemma_storage_width() {
    }

    proof fn lemma_value_bound(self) {
        lemma2_to64_rest();
    }

    fn width() -> usize {
        64
    }

    fn to_u64(self) -> u64 {
        self
    }

    fn from_u64(v: u64) -> (r: u64) {
        v
    }
}

} // verus!
