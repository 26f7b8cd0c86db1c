//! The field reader and field writer: the byte-wise walk that accumulates a
//! field out of a buffer, and the byte-wise walk that splices one in.

use crate::mask::{bitmask_u64, bitmask_u8};
use crate::model::{
    bit_of, bits_outside_unchanged, byte_bit, field_val, lemma_bit_mod, lemma_byte_position,
    lemma_div_pow2_add,
    lemma_field_val_bound, lemma_field_val_byte, lemma_field_val_congruence, lemma_field_val_mod,
    lemma_field_val_split, lemma_field_val_whole_byte, lemma_mod_pow2_mod, lemma_pow2_le,
};
use crate::range::BitRange;
use crate::value::UnsignedInteger;
use vstd::arithmetic::div_mod::{
    lemma_breakdown, lemma_div_is_ordered, lemma_fundamental_div_mod,
    lemma_fundamental_div_mod_converse_div, lemma_fundamental_div_mod_converse_mod,
    lemma_mod_multiples_vanish, lemma_multiply_divide_lt, lemma_small_mod,
};
use vstd::arithmetic::mul::lemma_mul_is_commutative;
use vstd::arithmetic::power2::{
    lemma2_to64, lemma2_to64_rest, lemma_pow2_adds, lemma_pow2_pos, pow2,
};
use vstd::bits::{
    lemma_u64_low_bits_mask_is_mod, lemma_u64_pow2_no_overflow, lemma_u64_shl_is_mul,
    lemma_u64_shr_is_div, lemma_u8_low_bits_mask_is_mod, lemma_u8_pow2_no_overflow,
    lemma_u8_shl_is_mul, lemma_u8_shr_is_div, lemma_low_bits_mask_values, low_bits_mask,
};
use vstd::prelude::*;

verus! {

/// The ways a field request can violate the accessor's contract. These are
/// programmer errors: the checked entry points report them, the plain entry
/// points exclude them by precondition.
#[derive(Clone, Copy, Debug, PartialEq, Eq, Structural)]
pub enum BitfieldError {
    /// The field is wider than the value type's storage width.
    FieldTooWide,
    /// The value does not fit in the field's width (writes only).
    ValueOutOfRange,
    /// The resolved bit range is empty or reaches outside the buffer.
    IndexOutOfBounds,
}

/// Disjoint bits join by addition: `a` below `2^sh`, `b` a multiple of it.
proof fn lemma_or_disjoint_is_add(a: u64, b: u64, sh: u64)
    requires
        sh < 64,
        (a as nat) < pow2(sh as nat),
        (b as nat) % pow2(sh as nat) == 0,
    ensures
        (a | b) as nat == a as nat + b as nat,
{
    lemma_u64_pow2_no_overflow(sh as nat);
    lemma_u64_shl_is_mul(1u64, sh);
    lemma_u64_low_bits_mask_is_mod(b, sh as nat);
    assert((a | b) == a + b) by (bit_vector)
        requires
            sh < 64,
            a < (1u64 << sh),
            b & (((1u64 << sh) - 1) as u64) == 0,
    ;
}

/// Read bits `[start, end)` of the buffer: seed the accumulator with the last
/// covered byte shifted down to its field bits, then OR in each earlier byte
/// shifted to its position, and mask to the exact field width.
#[verifier::loop_isolation(false)]
#[verifier::rlimit(60)]
fn read_bits(data: &Vec<u8>, start: usize, end: usize) -> (r: u64)
    requires
        start < end,
        end as int <= 8 * data@.len() as int,
        end - start <= 64,
    ensures
        r as nat == field_val(data@, start as int, end as int),
{
    let first_byte: usize = start / 8;
    let last_byte: usize = (end - 1) / 8;
    let num_bytes: usize = last_byte - first_byte + 1;
    let offset: usize = 7 - ((end - 1) % 8);

    proof {
        lemma_byte_position(start as int);
        lemma_byte_position(end - 1);
        lemma_div_is_ordered(start as int, end - 1, 8);
        assert(offset == 8 * (last_byte as int) + 8 - end);
    }

    let mut result: u64 = (data[last_byte] >> (offset as u8)) as u64;

    proof {
        let d = data@;
        let lb = last_byte as int;
        let b = d[lb];
        lemma_u8_shr_is_div(b, offset as u8);
        lemma_field_val_byte(d, lb, 8 * lb, end as int);
        lemma2_to64();
        lemma_pow2_pos(offset as nat);
        lemma_pow2_adds(offset as nat, (8 - offset) as nat);
        lemma_multiply_divide_lt(b as int, pow2(offset as nat) as int, pow2((8 - offset) as nat) as int);
        lemma_small_mod((b as nat) / pow2(offset as nat), pow2((end - 8 * lb) as nat));
        lemma_field_val_bound(d, 8 * lb, end as int);
        lemma_pow2_le((end - 8 * lb) as nat, 64);
        lemma2_to64_rest();
        lemma_small_mod(field_val(d, 8 * lb, end as int), pow2(64));
    }

    let mut i: usize = 1;
    while i < num_bytes
        invariant
            1 <= i <= num_bytes,
            result as nat == field_val(data@, 8 * (last_byte as int - i + 1), end as int) % pow2(
                64,
            ),
        decreases num_bytes - i,
    {
        proof {
            lemma2_to64_rest();
        }
        let b: u8 = data[last_byte - i];
        let sh: usize = 8 * i - offset;
        let piece: u64 = (b as u64) << (sh as u64);
        proof {
            let d = data@;
            let lb = last_byte as int;
            let cur = 8 * (lb - i + 1);
            let nxt = 8 * (lb - i);
            let shn = sh as nat;
            let shu = sh as u64;
            assert(end - cur == sh);
            let fvc = field_val(d, cur, end as int);
            lemma_field_val_bound(d, cur, end as int);
            lemma_pow2_le(shn, 63);
            lemma_small_mod(fvc, pow2(64));
            assert(result as nat == fvc);

            // Only the low 64 - sh bits of the byte survive the shift.
            let t = (64 - sh) as nat;
            let b64 = b as u64;
            assert(b64 << shu == (b64 & (((1u64 << ((64 - shu) as u64)) - 1) as u64)) << shu) by (bit_vector)
                requires
                    1 <= shu < 64,
            ;
            lemma_u64_pow2_no_overflow(t);
            lemma_u64_shl_is_mul(1u64, (64 - shu) as u64);
            let keep = b64 & (((1u64 << ((64 - shu) as u64)) - 1) as u64);
            lemma_u64_low_bits_mask_is_mod(b64, t);
            assert(keep as nat == (b as nat) % pow2(t));
            lemma_pow2_pos(t);
            lemma_pow2_pos(shn);
            lemma_pow2_adds(t, shn);
            assert((keep as nat) * pow2(shn) < pow2(64)) by (nonlinear_arith)
                requires
                    (keep as nat) < pow2(t),
                    0 < pow2(t),
                    0 < pow2(shn),
                    pow2(t) * pow2(shn) == pow2(64),
            ;
            lemma_u64_shl_is_mul(keep, shu);
            assert(piece as nat == ((b as nat) % pow2(t)) * pow2(shn));

            // The next byte contributes its value shifted up by sh.
            lemma_field_val_split(d, nxt, cur, end as int);
            lemma_field_val_whole_byte(d, lb - i);
            let fvn = field_val(d, nxt, end as int);
            assert(fvn == (b as nat) * pow2(shn) + fvc);

            // fvn mod 2^64 is exactly piece + fvc.
            let q = (b as nat) / pow2(t);
            let rr = (b as nat) % pow2(t);
            lemma_fundamental_div_mod(b as int, pow2(t) as int);
            assert((b as nat) * pow2(shn) == q * pow2(64) + rr * pow2(shn)) by (nonlinear_arith)
                requires
                    b as int == pow2(t) as int * (q as int) + rr,
                    pow2(t) * pow2(shn) == pow2(64),
            ;
            assert(rr * pow2(shn) + fvc < pow2(64)) by (nonlinear_arith)
                requires
                    rr < pow2(t),
                    fvc < pow2(shn),
                    0 < pow2(shn),
                    pow2(t) * pow2(shn) == pow2(64),
            ;
            lemma_mod_multiples_vanish(q as int, (rr * pow2(shn) + fvc) as int, pow2(64) as int);
            lemma_small_mod((rr * pow2(shn) + fvc) as nat, pow2(64));
            assert(fvn % pow2(64) == rr * pow2(shn) + fvc);

            // The OR is an addition: the accumulator fits under the piece.
            assert((piece as nat) % pow2(shn) == 0) by (nonlinear_arith)
                requires
                    piece as nat == rr * pow2(shn),
                    0 < pow2(shn),
            ;
            lemma_or_disjoint_is_add(result, piece, shu);
        }
        result = result | piece;
        i = i + 1;
    }

    let mask: u64 = bitmask_u64(end - start);
    proof {
        let d = data@;
        let w = (end - start) as nat;
        let fv0 = field_val(d, 8 * (first_byte as int), end as int);
        lemma_field_val_mod(d, 8 * (first_byte as int), start as int, end as int);
        lemma2_to64_rest();
        if w < 64 {
            lemma_u64_low_bits_mask_is_mod(result, w);
            lemma_mod_pow2_mod(fv0, w, 64);
        } else {
            assert(result & mask == result) by (bit_vector)
                requires
                    mask == 0xffff_ffff_ffff_ffffu64,
            ;
        }
    }
    result & mask
}

/// Read the field at `range` from the buffer. The range must resolve inside
/// the buffer and must not be wider than `T`'s storage width; the result is
/// the value of exactly those bits, bit `start` most significant.
pub fn read_field<T: UnsignedInteger>(data: &Vec<u8>, range: BitRange) -> (r: T)
    requires
        8 * data@.len() as int <= usize::MAX as int,
        range.valid(8 * data@.len() as int),
        range.width(8 * data@.len() as int) <= T::storage_width() as int,
    ensures
        r.as_nat() == field_val(data@, range.start_bit(), range.end_bit(8 * data@.len() as int)),
{
    let total_bits: usize = data.len() * 8;
    let (start, end) = range.normalize(total_bits);
    proof {
        T::lemma_storage_width();
    }
    let v = read_bits(data, start, end);
    proof {
        lemma_field_val_bound(data@, start as int, end as int);
        lemma_pow2_le((end - start) as nat, T::storage_width());
    }
    T::from_u64(v)
}

/// Read the field at `range`, reporting a contract violation instead of
/// requiring its absence: out-of-bounds ranges are rejected first, then
/// over-wide fields.
pub fn try_read_field<T: UnsignedInteger>(data: &Vec<u8>, range: BitRange) -> (r: Result<
    T,
    BitfieldError,
>)
    requires
        8 * data@.len() as int <= usize::MAX as int,
    ensures
        ({
            let total = 8 * data@.len() as int;
            match r {
                Ok(v) => range.valid(total) && range.width(total) <= T::storage_width() as int
                    && v.as_nat() == field_val(data@, range.start_bit(), range.end_bit(total)),
                Err(e) => if !range.valid(total) {
                    e == BitfieldError::IndexOutOfBounds
                } else {
                    range.width(total) > T::storage_width() as int && e
                        == BitfieldError::FieldTooWide
                },
            }
        }),
{
    let total_bits: usize = data.len() * 8;
    match range.try_normalize(total_bits) {
        None => Err(BitfieldError::IndexOutOfBounds),
        Some((start, end)) => {
            if end - start > T::width() {
                Err(BitfieldError::FieldTooWide)
            } else {
                Ok(read_field(data, range))
            }
        },
    }
}

/// Splicing the low `bw` bits of `v` into a byte at offset `off` stores
/// exactly those bits there and preserves every other bit of the byte.
proof fn lemma_splice(b: u8, v: u8, off: u8, bw: u8, bm: u8, nb: u8)
    requires
        1 <= bw,
        off + bw <= 8,
        bm as nat == low_bits_mask(bw as nat) * pow2(off as nat),
        nb == ((b & !bm) | ((v << off) & bm)),
    ensures
        ((nb as nat) / pow2(off as nat)) % pow2(bw as nat) == (v as nat) % pow2(bw as nat),
        forall|p: int| 0 <= p < off ==> byte_bit(nb, p) == byte_bit(b, p),
        forall|p: int| off + bw <= p < 8 ==> byte_bit(nb, p) == byte_bit(b, p),
{
    lemma2_to64();
    if bw == 8 {
        lemma_low_bits_mask_values();
        assert(bm as nat == 255 * pow2(0));
        assert(bm == 0xff);
        assert(nb == v) by (bit_vector)
            requires
                nb == ((b & !0xffu8) | ((v << 0) & 0xffu8)),
        ;
        assert(nb as nat / pow2(0) == nb as nat);
    } else {
        lemma_u8_pow2_no_overflow(bw as nat);
        lemma_u8_shl_is_mul(1u8, bw);
        let m0: u8 = ((1u8 << bw) - 1) as u8;
        assert(m0 as nat == low_bits_mask(bw as nat));
        lemma_pow2_pos(off as nat);
        lemma_pow2_pos(bw as nat);
        lemma_pow2_adds(bw as nat, off as nat);
        lemma_pow2_le((bw + off) as nat, 8);
        assert((m0 as nat) * pow2(off as nat) <= 255) by (nonlinear_arith)
            requires
                m0 as nat == pow2(bw as nat) - 1,
                pow2(bw as nat) * pow2(off as nat) <= 256,
                1 <= pow2(off as nat),
                1 <= pow2(bw as nat),
        ;
        lemma_u8_shl_is_mul(m0, off);
        assert(bm == (m0 << off));

        // The spliced chunk reads back as the low bw bits of v.
        assert((nb >> off) & m0 == v & m0) by (bit_vector)
            requires
                nb == ((b & !bm) | ((v << off) & bm)),
                bm == (m0 << off),
                m0 == (((1u8 << bw) - 1) as u8),
                off + bw <= 8,
                1 <= bw,
                bw < 8,
        ;
        lemma_u8_shr_is_div(nb, off);
        lemma_u8_low_bits_mask_is_mod(nb >> off, bw as nat);
        lemma_u8_low_bits_mask_is_mod(v, bw as nat);

        // Bits below the chunk are untouched.
        if off >= 1 {
            assert(nb & (((1u8 << off) - 1) as u8) == b & (((1u8 << off) - 1) as u8))
                by (bit_vector)
                requires
                    nb == ((b & !bm) | ((v << off) & bm)),
                    bm == (m0 << off),
                    m0 == (((1u8 << bw) - 1) as u8),
                    off + bw <= 8,
                    1 <= bw,
                    bw < 8,
                    1 <= off,
            ;
            lemma_u8_pow2_no_overflow(off as nat);
            lemma_u8_shl_is_mul(1u8, off);
            lemma_u8_low_bits_mask_is_mod(nb, off as nat);
            lemma_u8_low_bits_mask_is_mod(b, off as nat);
            assert forall|p: int| 0 <= p < off implies byte_bit(nb, p) == byte_bit(b, p) by {
                lemma_bit_mod(nb as nat, p as nat, off as nat);
                lemma_bit_mod(b as nat, p as nat, off as nat);
            }
        }

        // Bits above the chunk are untouched.
        assert((nb >> off) >> bw == (b >> off) >> bw) by (bit_vector)
            requires
                nb == ((b & !bm) | ((v << off) & bm)),
                bm == (m0 << off),
                m0 == (((1u8 << bw) - 1) as u8),
                off + bw <= 8,
                1 <= bw,
                bw < 8,
        ;
        lemma_u8_shr_is_div(b, off);
        lemma_u8_shr_is_div(nb >> off, bw);
        lemma_u8_shr_is_div(b >> off, bw);
        lemma_div_pow2_add(nb as nat, off as nat, bw as nat);
        lemma_div_pow2_add(b as nat, off as nat, bw as nat);
        assert(nb as nat / pow2((off + bw) as nat) == b as nat / pow2((off + bw) as nat));
        assert forall|p: int| off + bw <= p < 8 implies byte_bit(nb, p) == byte_bit(b, p) by {
            let s = (off + bw) as nat;
            lemma_div_pow2_add(nb as nat, s, (p - s) as nat);
            lemma_div_pow2_add(b as nat, s, (p - s) as nat);
        }
    }
}

/// Write the low `end - start` bits of `value` into bits `[start, end)` of
/// the buffer: process covered bytes from the last (least significant) to the
/// first, splicing the low bits of the remaining value into each byte and
/// shifting the value down by the bits just placed.
#[verifier::loop_isolation(false)]
#[verifier::rlimit(100)]
fn write_bits(data: &mut Vec<u8>, start: usize, end: usize, value: u64)
    requires
        start < end,
        end as int <= 8 * old(data)@.len() as int,
        end - start <= 64,
        (value as nat) < pow2((end - start) as nat),
    ensures
        final(data)@.len() == old(data)@.len(),
        field_val(final(data)@, start as int, end as int) == value as nat,
        bits_outside_unchanged(old(data)@, final(data)@, start as int, end as int),
{
    let first_byte: usize = start / 8;
    let last_byte: usize = (end - 1) / 8;
    let num_bytes: usize = last_byte - first_byte + 1;

    proof {
        lemma_byte_position(start as int);
        lemma_byte_position(end - 1);
        lemma_div_is_ordered(start as int, end - 1, 8);
        lemma2_to64();
        assert(value as nat % pow2(0) == 0);
        assert(value as nat / pow2(0) == value as nat);
    }

    let mut end_cur: usize = end;
    let mut val: u64 = value;
    let mut k: usize = 0;
    while k < num_bytes
        invariant
            k <= num_bytes,
            end_cur as int == (if k == 0 {
                end as int
            } else if k < num_bytes {
                8 * (last_byte as int - k + 1)
            } else {
                start as int
            }),
            start <= end_cur <= end,
            val as nat == (value as nat) / pow2((end - end_cur) as nat),
            data@.len() == old(data)@.len(),
            field_val(data@, end_cur as int, end as int) == (value as nat) % pow2(
                (end - end_cur) as nat,
            ),
            forall|j: int|
                0 <= j < 8 * data@.len() && !(start <= j < end) ==> bit_of(data@, j) == bit_of(
                    old(data)@,
                    j,
                ),
            forall|bi: int|
                0 <= bi < data@.len() && (bi <= last_byte as int - k || bi > last_byte as int)
                    ==> data@[bi] == old(data)@[bi],
        decreases num_bytes - k,
    {
        let i: usize = last_byte - k;
        proof {
            lemma_fundamental_div_mod_converse_div(
                end_cur - 1,
                8,
                i as int,
                end_cur - 1 - 8 * (i as int),
            );
            lemma_fundamental_div_mod_converse_mod(
                end_cur - 1,
                8,
                i as int,
                end_cur - 1 - 8 * (i as int),
            );
        }
        let bit_offset: usize = 7 - ((end_cur - 1) % 8);
        let avail: usize = 8 - bit_offset;
        let rem: usize = end_cur - start;
        let bw: usize = if avail < rem {
            avail
        } else {
            rem
        };
        let m0: u8 = bitmask_u8(bw);
        let bm: u8 = m0 << (bit_offset as u8);
        proof {
            lemma_pow2_pos(bit_offset as nat);
            lemma_pow2_pos(bw as nat);
            lemma_pow2_adds(bw as nat, bit_offset as nat);
            lemma_pow2_le((bw + bit_offset) as nat, 8);
            lemma2_to64();
            assert((m0 as nat) * pow2(bit_offset as nat) <= 255) by (nonlinear_arith)
                requires
                    m0 as nat == pow2(bw as nat) - 1,
                    pow2(bw as nat) * pow2(bit_offset as nat) <= 256,
                    1 <= pow2(bit_offset as nat),
                    1 <= pow2(bw as nat),
            ;
            lemma_u8_shl_is_mul(m0, bit_offset as u8);
        }
        let new_bits: u8 = (val & 0xffu64) as u8;
        let old_b: u8 = data[i];
        let nb: u8 = (old_b & !bm) | ((new_bits << (bit_offset as u8)) & bm);
        let ghost d0 = data@;
        data[i] = nb;
        proof {
            let d1 = data@;
            let ii = i as int;
            let ec = end_cur as int;
            let ecn = ec - bw;
            let c = (end - end_cur) as nat;
            assert(d1 == d0.update(ii, nb));

            // The chunk sits inside byte ii.
            assert(8 * ii + 8 - ec == bit_offset);
            assert(8 * ii <= ecn);
            assert(start <= ecn);

            // The spliced byte holds the low bw bits of val in the chunk.
            lemma_splice(old_b, new_bits, bit_offset as u8, bw as u8, bm, nb);
            lemma_low_bits_mask_values();
            lemma_u64_low_bits_mask_is_mod(val, 8);
            assert(new_bits as nat == (val as nat) % pow2(8));
            lemma_mod_pow2_mod(val as nat, bw as nat, 8);
            lemma_field_val_byte(d1, ii, ecn, ec);
            assert(field_val(d1, ecn, ec) == (val as nat) % pow2(bw as nat));

            // Bits already written, above end_cur, are untouched.
            assert forall|j: int| ec <= j < end implies bit_of(d1, j) == bit_of(d0, j) by {
                lemma_byte_position(j);
                assert(j / 8 != ii);
                assert(d1[j / 8] == d0[j / 8]);
            }
            lemma_field_val_congruence(d1, d0, ec, end as int);

            // The enlarged written region now holds value mod its width.
            lemma_field_val_split(d1, ecn, ec, end as int);
            lemma_pow2_pos(c);
            lemma_pow2_pos(bw as nat);
            lemma_breakdown(value as int, pow2(c) as int, pow2(bw as nat) as int);
            lemma_pow2_adds(c, bw as nat);
            lemma_mul_is_commutative(
                pow2(c) as int,
                ((value as nat / pow2(c)) % pow2(bw as nat)) as int,
            );
            assert(field_val(d1, ecn, end as int) == (value as nat) % pow2((end - ecn) as nat));

            // Every bit outside the whole field keeps its old value.
            assert forall|j: int|
                0 <= j < 8 * d1.len() && !(start <= j < end) implies bit_of(d1, j) == bit_of(
                old(data)@,
                j,
            ) by {
                lemma_byte_position(j);
                if j / 8 == ii {
                    let p = 7 - (j % 8);
                    assert(j % 8 == j - 8 * ii);
                    if j < ecn {
                        assert(p >= bit_offset + bw);
                    } else {
                        assert(j >= ec);
                        assert(p < bit_offset);
                    }
                    assert(byte_bit(nb, p) == byte_bit(old_b, p));
                    assert(bit_of(d1, j) == bit_of(d0, j));
                } else {
                    assert(d1[j / 8] == d0[j / 8]);
                }
            }

            // The value still to place is the old value shifted down.
            lemma_u64_shr_is_div(val, bw as u64);
            lemma_div_pow2_add(value as nat, c, bw as nat);

            // Bytes not yet reached are untouched.
            assert forall|bi: int|
                0 <= bi < d1.len() && (bi <= last_byte as int - (k + 1) || bi > last_byte as int)
                    implies d1[bi] == old(data)@[bi] by {
                assert(bi != ii);
                assert(d1[bi] == d0[bi]);
            }
        }
        end_cur = end_cur - bw;
        val = val >> (bw as u64);
        k = k + 1;
    }

    proof {
        lemma_small_mod(value as nat, pow2((end - start) as nat));
    }
}

/// Write `value` into the field at `range`. The range must resolve inside the
/// buffer, must not be wider than `T`'s storage width, and the value must fit
/// in the field's width; every bit outside the field is preserved exactly.
pub fn write_field<T: UnsignedInteger>(data: &mut Vec<u8>, range: BitRange, value: T)
    requires
        8 * old(data)@.len() as int <= usize::MAX as int,
        range.valid(8 * old(data)@.len() as int),
        range.width(8 * old(data)@.len() as int) <= T::storage_width() as int,
        value.as_nat() < pow2(range.width(8 * old(data)@.len() as int) as nat),
    ensures
        final(data)@.len() == old(data)@.len(),
        field_val(
            final(data)@,
            range.start_bit(),
            range.end_bit(8 * old(data)@.len() as int),
        ) == value.as_nat(),
        bits_outside_unchanged(
            old(data)@,
            final(data)@,
            range.start_bit(),
            range.end_bit(8 * old(data)@.len() as int),
        ),
{
    let total_bits: usize = data.len() * 8;
    let (start, end) = range.normalize(total_bits);
    proof {
        T::lemma_storage_width();
    }
    write_bits(data, start, end, value.to_u64());
}

/// Write the field at `range`, reporting a contract violation instead of
/// requiring its absence: out-of-bounds ranges are rejected first, then
/// over-wide fields, then values too large for the field. On an error the
/// buffer is untouched.
pub fn try_write_field<T: UnsignedInteger>(data: &mut Vec<u8>, range: BitRange, value: T) -> (r:
    Result<(), BitfieldError>)
    requires
        8 * old(data)@.len() as int <= usize::MAX as int,
    ensures
        ({
            let total = 8 * old(data)@.len() as int;
            match r {
                Ok(_) => range.valid(total) && range.width(total) <= T::storage_width() as int
                    && value.as_nat() < pow2(range.width(total) as nat) && final(data)@.len()
                    == old(data)@.len() && field_val(
                    final(data)@,
                    range.start_bit(),
                    range.end_bit(total),
                ) == value.as_nat() && bits_outside_unchanged(
                    old(data)@,
                    final(data)@,
                    range.start_bit(),
                    range.end_bit(total),
                ),
                Err(e) => final(data)@ == old(data)@ && (if !range.valid(total) {
                    e == BitfieldError::IndexOutOfBounds
                } else if range.width(total) > T::storage_width() as int {
                    e == BitfieldError::FieldTooWide
                } else {
                    value.as_nat() >= pow2(range.width(total) as nat) && e
                        == BitfieldError::ValueOutOfRange
                }),
            }
        }),
{
    let total_bits: usize = data.len() * 8;
    match range.try_normalize(total_bits) {
        None => Err(BitfieldError::IndexOutOfBounds),
        Some((start, end)) => {
            if end - start > T::width() {
                Err(BitfieldError::FieldTooWide)
            } else {
                proof {
                    T::lemma_storage_width();
                }
                let max: u64 = bitmask_u64(end - start);
                if value.to_u64() > max {
                    proof {
                        lemma_pow2_pos((end - start) as nat);
                    }
                    Err(BitfieldError::ValueOutOfRange)
                } else {
                    proof {
                        lemma_pow2_pos((end - start) as nat);
                    }
                    write_field(data, range, value);
                    Ok(())
                }
            }
        },
    }
}

/// Field access as methods on a byte buffer: the trait the accessor presents,
/// with the same contracts as the free functions `read_field` and
/// `write_field`.
pub trait BitfieldAccess {
    /// The bytes of the buffer.
    spec fn bytes(&self) -> Seq<u8>;

    /// Read a bitfield with the given bit indices from the buffer.
    fn read_field<T: UnsignedInteger>(&self, range: BitRange) -> (r: T)
        requires
            8 * self.bytes().len() as int <= usize::MAX as int,
            range.valid(8 * self.bytes().len() as int),
            range.width(8 * self.bytes().len() as int) <= T::storage_width() as int,
        ensures
            r.as_nat() == field_val(
                self.bytes(),
                range.start_bit(),
                range.end_bit(8 * self.bytes().len() as int),
            ),
    ;

    /// Write a bitfield with the given bit indices to the buffer.
    fn write_field<T: UnsignedInteger>(&mut self, range: BitRange, value: T)
        requires
            8 * old(self).bytes().len() as int <= usize::MAX as int,
            range.valid(8 * old(self).bytes().len() as int),
            range.width(8 * old(self).bytes().len() as int) <= T::storage_width() as int,
            value.as_nat() < pow2(range.width(8 * old(self).bytes().len() as int) as nat),
        ensures
            final(self).bytes().len() == old(self).bytes().len(),
            field_val(
                final(self).bytes(),
                range.start_bit(),
                range.end_bit(8 * old(self).bytes().len() as int),
            ) == value.as_nat(),
            bits_outside_unchanged(
                old(self).bytes(),
                final(self).bytes(),
                range.start_bit(),
                range.end_bit(8 * old(self).bytes().len() as int),
            ),
    ;
}

impl BitfieldAccess for Vec<u8> {
    open spec fn bytes(&self) -> Seq<u8> {
        self@
    }

    fn read_field<T: UnsignedInteger>(&self, range: BitRange) -> (r: T) {
        read_field(self, range)
    }

    fn write_field<T: UnsignedInteger>(&mut self, range: BitRange, value: T) {
        write_field(self, range, value)
    }
}

} // verus!
