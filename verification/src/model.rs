//! The mathematical model of a bit-addressed buffer: what a single bit is,
//! and what unsigned value a range of bits denotes.

use vstd::arithmetic::div_mod::{
    lemma_breakdown, lemma_div_denominator, lemma_fundamental_div_mod,
    lemma_fundamental_div_mod_converse_div, lemma_fundamental_div_mod_converse_mod,
    lemma_mod_mod, lemma_mod_multiples_vanish, lemma_small_mod,
};
use vstd::arithmetic::mul::lemma_mul_is_commutative;
use vstd::arithmetic::power2::{
    lemma2_to64, lemma_pow2_adds, lemma_pow2_pos, lemma_pow2_strictly_increases,
    lemma_pow2_unfold, pow2,
};
use vstd::prelude::*;

verus! {

/// Bit `p` of a single byte, counted from the least-significant end, as 0 or 1.
pub open spec fn byte_bit(b: u8, p: int) -> nat {
    ((b as nat) / pow2(p as nat)) % 2
}

/// Bit `i` of a buffer under MSB-first numbering: bit `i` lives in byte
/// `i / 8` at intra-byte position `7 - (i % 8)` counted from the LSB.
pub open spec fn bit_of(data: Seq<u8>, i: int) -> nat {
    byte_bit(data[i / 8], 7 - i % 8)
}

/// The unsigned value of bits `[start, end)` of the buffer, bit `start` being
/// the most significant.
pub open spec fn field_val(data: Seq<u8>, start: int, end: int) -> nat
    decreases end - start,
{
    if end <= start {
        0
    } else {
        2 * field_val(data, start, end - 1) + bit_of(data, end - 1)
    }
}

/// The buffers agree, bit for bit, everywhere outside `[start, end)`, and
/// have the same length.
pub open spec fn bits_outside_unchanged(b0: Seq<u8>, b1: Seq<u8>, start: int, end: int) -> bool {
    &&& b1.len() == b0.len()
    &&& forall|j: int|
        0 <= j < 8 * b0.len() && !(start <= j < end) ==> bit_of(b1, j) == bit_of(b0, j)
}

/// A nonnegative index sits in byte `i / 8`, `i - 8 * (i / 8)` bits in.
pub proof fn lemma_byte_position(i: int)
    requires
        0 <= i,
    ensures
        8 * (i / 8) <= i < 8 * (i / 8) + 8,
        i % 8 == i - 8 * (i / 8),
{
    lemma_fundamental_div_mod(i, 8);
}

/// Powers of two are monotone.
pub proof fn lemma_pow2_le(e1: nat, e2: nat)
    requires
        e1 <= e2,
    ensures
        pow2(e1) <= pow2(e2),
{
    if e1 < e2 {
        lemma_pow2_strictly_increases(e1, e2);
    }
}

/// A field of `end - start` bits is below `2^(end - start)`.
pub proof fn lemma_field_val_bound(data: Seq<u8>, start: int, end: int)
    requires
        start <= end,
    ensures
        field_val(data, start, end) < pow2((end - start) as nat),
    decreases end - start,
{
    if end <= start {
        lemma2_to64();
    } else {
        lemma_field_val_bound(data, start, end - 1);
        lemma_pow2_unfold((end - start) as nat);
        assert(bit_of(data, end - 1) < 2) by {
            lemma_mod_bound_2((data[(end - 1) / 8] as nat) / pow2((7 - (end - 1) % 8) as nat));
        }
    }
}

proof fn lemma_mod_bound_2(x: nat)
    ensures
        x % 2 < 2,
{
}

/// Splitting a bit range at `mid` splits its value: the high part is shifted
/// up by the width of the low part.
pub proof fn lemma_field_val_split(data: Seq<u8>, start: int, mid: int, end: int)
    requires
        start <= mid <= end,
    ensures
        field_val(data, start, end) == field_val(data, start, mid) * pow2((end - mid) as nat)
            + field_val(data, mid, end),
    decreases end - mid,
{
    if mid == end {
        lemma2_to64();
    } else {
        lemma_field_val_split(data, start, mid, end - 1);
        lemma_pow2_unfold((end - mid) as nat);
        let a = field_val(data, start, mid);
        let p = pow2((end - 1 - mid) as nat);
        assert(2 * (a * p) == a * (2 * p)) by (nonlinear_arith);
    }
}

/// The value of a bit range depends only on the bits in that range.
pub proof fn lemma_field_val_congruence(d1: Seq<u8>, d2: Seq<u8>, start: int, end: int)
    requires
        forall|j: int| start <= j < end ==> bit_of(d1, j) == bit_of(d2, j),
    ensures
        field_val(d1, start, end) == field_val(d2, start, end),
    decreases end - start,
{
    if end > start {
        lemma_field_val_congruence(d1, d2, start, end - 1);
    }
}

/// Dividing twice by powers of two divides by the sum of the exponents.
pub proof fn lemma_div_pow2_add(x: nat, a: nat, b: nat)
    ensures
        (x / pow2(a)) / pow2(b) == x / pow2(a + b),
{
    lemma_pow2_pos(a);
    lemma_pow2_pos(b);
    lemma_div_denominator(x as int, pow2(a) as int, pow2(b) as int);
    lemma_pow2_adds(a, b);
}

/// Reducing modulo a larger power of two first does not change a reduction
/// modulo a smaller one.
pub proof fn lemma_mod_pow2_mod(x: nat, a: nat, b: nat)
    requires
        a <= b,
    ensures
        (x % pow2(b)) % pow2(a) == x % pow2(a),
{
    lemma_pow2_pos(a);
    lemma_pow2_pos((b - a) as nat);
    lemma_pow2_adds(a, (b - a) as nat);
    lemma_mod_mod(x as int, pow2(a) as int, pow2((b - a) as nat) as int);
}

/// A bit below position `m` is unaffected by reduction modulo `2^m`.
pub proof fn lemma_bit_mod(x: nat, p: nat, m: nat)
    requires
        p < m,
    ensures
        ((x % pow2(m)) / pow2(p)) % 2 == (x / pow2(p)) % 2,
{
    lemma_bit_from_low_chunk(x, p);
    lemma_bit_from_low_chunk(x % pow2(m), p);
    lemma_mod_pow2_mod(x, p + 1, m);
}

/// Bit `p` of `x` is determined by `x % 2^(p+1)`.
proof fn lemma_bit_from_low_chunk(x: nat, p: nat)
    ensures
        (x / pow2(p)) % 2 == (x % pow2(p + 1)) / pow2(p),
{
    lemma_pow2_pos(p);
    lemma_pow2_unfold(p + 1);
    lemma_breakdown(x as int, pow2(p) as int, 2);
    // x % (pow2(p) * 2) == pow2(p) * ((x / pow2(p)) % 2) + x % pow2(p)
    let q = (x as int / pow2(p) as int) % 2;
    let r = x as int % pow2(p) as int;
    lemma_mul_is_commutative(pow2(p) as int, q);
    lemma_fundamental_div_mod_converse_div(
        (x % pow2(p + 1)) as int,
        pow2(p) as int,
        q,
        r,
    );
}

/// The value of a bit range lying inside byte `k` is a shifted, masked copy
/// of that byte: shift out the `8k + 8 - end` low bits, keep `end - start`
/// bits.
pub proof fn lemma_field_val_byte(data: Seq<u8>, k: int, start: int, end: int)
    requires
        8 * k <= start <= end <= 8 * k + 8,
    ensures
        field_val(data, start, end) == ((data[k] as nat) / pow2((8 * k + 8 - end) as nat)) % pow2(
            (end - start) as nat,
        ),
    decreases end - start,
{
    let b = data[k] as nat;
    if end <= start {
        lemma2_to64();
        assert(pow2(0) == 1);
        lemma_small_mod(0, 1);
        assert((b / pow2((8 * k + 8 - end) as nat)) % 1 == 0) by {
            lemma_mod_1(b / pow2((8 * k + 8 - end) as nat));
        }
    } else {
        lemma_field_val_byte(data, k, start, end - 1);
        // The last bit of the range lives in byte k.
        assert((end - 1) / 8 == k && (end - 1) % 8 == end - 1 - 8 * k) by {
            lemma_fundamental_div_mod_converse_div(end - 1, 8, k, end - 1 - 8 * k);
            lemma_fundamental_div_mod_converse_mod(end - 1, 8, k, end - 1 - 8 * k);
        }
        let o = (8 * k + 8 - end) as nat;
        let w = (end - start) as nat;
        assert(bit_of(data, end - 1) == (b / pow2(o)) % 2);
        // b / 2^(o+1) == (b / 2^o) / 2
        lemma_div_pow2_add(b, o, 1);
        lemma2_to64();
        assert(pow2(1) == 2);
        // x % 2^w == 2 * ((x/2) % 2^(w-1)) + x % 2  for x = b / 2^o
        let x = b / pow2(o);
        lemma_pow2_pos((w - 1) as nat);
        lemma_breakdown(x as int, 2, pow2((w - 1) as nat) as int);
        lemma_pow2_unfold(w);
    }
}

proof fn lemma_mod_1(x: nat)
    ensures
        x % 1 == 0,
{
}

/// A whole byte read as a field is the byte itself.
pub proof fn lemma_field_val_whole_byte(data: Seq<u8>, k: int)
    requires
        0 <= k,
    ensures
        field_val(data, 8 * k, 8 * k + 8) == data[k] as nat,
{
    lemma_field_val_byte(data, k, 8 * k, 8 * k + 8);
    lemma2_to64();
    assert(pow2(0) == 1 && pow2(8) == 256);
    lemma_div_1(data[k] as nat);
    lemma_small_mod(data[k] as nat, 256);
}

proof fn lemma_div_1(x: nat)
    ensures
        x / 1 == x,
{
}

/// Widening a range to the left and reducing modulo the narrow width gives
/// the narrow field back: the extra high bits vanish.
pub proof fn lemma_field_val_mod(data: Seq<u8>, start0: int, start: int, end: int)
    requires
        start0 <= start <= end,
    ensures
        field_val(data, start0, end) % pow2((end - start) as nat) == field_val(data, start, end),
{
    let w = (end - start) as nat;
    lemma_field_val_split(data, start0, start, end);
    lemma_field_val_bound(data, start, end);
    lemma_pow2_pos(w);
    lemma_mod_multiples_vanish(
        field_val(data, start0, start) as int,
        field_val(data, start, end) as int,
        pow2(w) as int,
    );
    lemma_small_mod(field_val(data, start, end), pow2(w));
}

/// Each bit of a range can be recovered from the range's value: bit `j` is
/// bit `end - 1 - j` of the value.
pub proof fn lemma_field_val_bit(data: Seq<u8>, start: int, end: int, j: int)
    requires
        start <= j < end,
    ensures
        bit_of(data, j) == (field_val(data, start, end) / pow2((end - 1 - j) as nat)) % 2,
{
    let v = field_val(data, start, end);
    let p = (end - 1 - j) as nat;
    lemma_field_val_split(data, start, j + 1, end);
    lemma_field_val_bound(data, j + 1, end);
    lemma_pow2_pos(p);
    lemma_fundamental_div_mod_converse_div(
        v as int,
        pow2(p) as int,
        field_val(data, start, j + 1) as int,
        field_val(data, j + 1, end) as int,
    );
    // v / 2^p == field_val(data, start, j + 1) == 2 * field_val(data, start, j) + bit
    lemma_mod_multiples_vanish(field_val(data, start, j) as int, bit_of(data, j) as int, 2);
    assert(bit_of(data, j) < 2) by {
        lemma_mod_bound_2((data[j / 8] as nat) / pow2((7 - j % 8) as nat));
    }
    lemma_small_mod(bit_of(data, j), 2);
}

/// Buffers of equal length that agree on every bit are equal.
pub proof fn lemma_bits_determine_buffer(b1: Seq<u8>, b2: Seq<u8>)
    requires
        b1.len() == b2.len(),
        forall|j: int| 0 <= j < 8 * b1.len() ==> bit_of(b1, j) == bit_of(b2, j),
    ensures
        b1 == b2,
{
    assert forall|k: int| 0 <= k < b1.len() implies b1[k] == b2[k] by {
        assert forall|j: int| 8 * k <= j < 8 * k + 8 implies bit_of(b1, j) == bit_of(b2, j) by {
            assert(0 <= j < 8 * b1.len());
        }
        lemma_field_val_congruence(b1, b2, 8 * k, 8 * k + 8);
        lemma_field_val_whole_byte(b1, k);
        lemma_field_val_whole_byte(b2, k);
    }
    assert(b1 =~= b2);
}

} // verus!
