//! Laws the accessor obeys, stated over the model the contracts use and
//! proved once for all buffers, ranges and values.

use crate::model::{
    bit_of, bits_outside_unchanged, field_val, lemma_bits_determine_buffer, lemma_byte_position,
    lemma_field_val_bit, lemma_field_val_congruence, lemma_field_val_split,
    lemma_field_val_whole_byte,
};
use vstd::arithmetic::power2::{lemma2_to64, pow2};
use vstd::prelude::*;

verus! {

/// Law: a buffer in the state `write_field` leaves behind — the field holds
/// `v`, everything outside it holds the old bits — reads back exactly `v`
/// through `read_field`, whose result is `field_val` over the field, and no
/// bit outside the field has moved.
pub proof fn lemma_round_trip(b0: Seq<u8>, b1: Seq<u8>, start: int, end: int, v: nat)
    requires
        0 <= start < end <= 8 * b0.len(),
        v < pow2((end - start) as nat),
        field_val(b1, start, end) == v,
        bits_outside_unchanged(b0, b1, start, end),
    ensures
        field_val(b1, start, end) == v,
        forall|j: int|
            0 <= j < 8 * b0.len() && !(start <= j < end) ==> bit_of(b1, j) == bit_of(b0, j),
{
}

/// Law: the writer's contract pins the buffer down completely — two buffers
/// that hold the same value in the field and the old bits of the same base
/// buffer outside it are equal.
pub proof fn lemma_write_determines_buffer(
    b0: Seq<u8>,
    b1: Seq<u8>,
    b2: Seq<u8>,
    start: int,
    end: int,
    v: nat,
)
    requires
        0 <= start < end <= 8 * b0.len(),
        field_val(b1, start, end) == v,
        bits_outside_unchanged(b0, b1, start, end),
        field_val(b2, start, end) == v,
        bits_outside_unchanged(b0, b2, start, end),
    ensures
        b1 == b2,
{
    assert forall|j: int| 0 <= j < 8 * b1.len() implies bit_of(b1, j) == bit_of(b2, j) by {
        if start <= j < end {
            lemma_field_val_bit(b1, start, end, j);
            lemma_field_val_bit(b2, start, end, j);
        }
    }
    lemma_bits_determine_buffer(b1, b2);
}

/// Law: writing the same value to the same range twice yields the same buffer
/// as writing it once — the second write changes nothing.
pub proof fn lemma_write_idempotent(
    b0: Seq<u8>,
    b1: Seq<u8>,
    b2: Seq<u8>,
    start: int,
    end: int,
    v: nat,
)
    requires
        0 <= start < end <= 8 * b0.len(),
        field_val(b1, start, end) == v,
        bits_outside_unchanged(b0, b1, start, end),
        field_val(b2, start, end) == v,
        bits_outside_unchanged(b1, b2, start, end),
    ensures
        b2 == b1,
{
    lemma_write_determines_buffer(b1, b1, b2, start, end, v);
}

/// Law: reading the eight bits of byte `k` gives exactly that byte.
pub proof fn lemma_byte_identity(data: Seq<u8>, k: int)
    requires
        0 <= k < data.len(),
    ensures
        field_val(data, 8 * k, 8 * k + 8) == data[k] as nat,
{
    lemma_field_val_whole_byte(data, k);
}

/// The big-endian integer value of a whole byte sequence.
pub open spec fn be_bytes_val(data: Seq<u8>) -> nat
    decreases data.len(),
{
    if data.len() == 0 {
        0
    } else {
        be_bytes_val(data.drop_last()) * 256 + data.last() as nat
    }
}

/// Law: reading the whole buffer as one field reconstructs it as a single
/// big-endian integer.
pub proof fn lemma_full_width_identity(data: Seq<u8>)
    ensures
        field_val(data, 0, 8 * data.len() as int) == be_bytes_val(data),
    decreases data.len(),
{
    if data.len() != 0 {
        let n = data.len() as int;
        let prefix = data.drop_last();
        lemma_full_width_identity(prefix);
        assert forall|j: int| 0 <= j < 8 * (n - 1) implies bit_of(data, j) == bit_of(prefix, j) by {
            lemma_byte_position(j);
            assert(data[j / 8] == prefix[j / 8]);
        }
        lemma_field_val_congruence(data, prefix, 0, 8 * (n - 1));
        lemma_field_val_split(data, 0, 8 * (n - 1), 8 * n);
        lemma_field_val_whole_byte(data, n - 1);
        lemma2_to64();
    }
}

} // verus!
