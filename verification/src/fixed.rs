//! Byte images of the fixed-width scalars: unsigned and signed integers,
//! float bit patterns, and booleans — with their order-preservation laws.

use vstd::prelude::*;
use vstd::arithmetic::power2::{lemma2_to64, pow2};
use crate::bytes::{be_bytes, lemma_be_bytes_lt};
use crate::lex::{lemma_lex_irrefl, lemma_lex_trichotomy, lex_lt};

verus! {

/// A `u8` is one byte of output.
pub open spec fn encoded_u8(v: u8) -> Seq<u8> {
    be_bytes(v as nat, 1)
}

/// A `u16` is its two bytes in big-endian order.
pub open spec fn encoded_u16(v: u16) -> Seq<u8> {
    be_bytes(v as nat, 2)
}

/// A `u32` is its four bytes in big-endian order.
pub open spec fn encoded_u32(v: u32) -> Seq<u8> {
    be_bytes(v as nat, 4)
}

/// A `u64` is its eight bytes in big-endian order.
pub open spec fn encoded_u64(v: u64) -> Seq<u8> {
    be_bytes(v as nat, 8)
}

/// A signed integer is encoded as its value offset by the magnitude of the
/// type's minimum — the same bytes as flipping the sign bit — so that the
/// most negative value maps to `0x00..` and the most positive to `0xFF..`.
pub open spec fn encoded_i8(v: i8) -> Seq<u8> {
    be_bytes((v + 0x80) as nat, 1)
}

pub open spec fn encoded_i16(v: i16) -> Seq<u8> {
    be_bytes((v + 0x8000) as nat, 2)
}

pub open spec fn encoded_i32(v: i32) -> Seq<u8> {
    be_bytes((v + 0x8000_0000) as nat, 4)
}

pub open spec fn encoded_i64(v: i64) -> Seq<u8> {
    be_bytes((v + 0x8000_0000_0000_0000) as nat, 8)
}

/// A boolean is one byte: `0x00` for false, `0x01` for true.
pub open spec fn encoded_bool(v: bool) -> Seq<u8> {
    if v {
        seq![1u8]
    } else {
        seq![0u8]
    }
}

/// The sort key of an `f32` bit pattern: non-negative floats get the sign
/// bit flipped, negative floats get every bit inverted.
pub open spec fn f32_key(bits: u32) -> nat {
    if bits < 0x8000_0000 {
        (bits + 0x8000_0000) as nat
    } else {
        (0xFFFF_FFFFu32 - bits) as nat
    }
}

/// An `f32` is the four big-endian bytes of the sort key of its bit pattern.
pub open spec fn encoded_f32_bits(bits: u32) -> Seq<u8> {
    be_bytes(f32_key(bits), 4)
}

pub open spec fn f64_key(bits: u64) -> nat {
    if bits < 0x8000_0000_0000_0000 {
        (bits + 0x8000_0000_0000_0000) as nat
    } else {
        (0xFFFF_FFFF_FFFF_FFFFu64 - bits) as nat
    }
}

pub open spec fn encoded_f64_bits(bits: u64) -> Seq<u8> {
    be_bytes(f64_key(bits), 8)
}

/// The IEEE total order on `f32` bit patterns: every negative (sign bit set)
/// comes before every non-negative; negatives compare by descending bit
/// pattern, non-negatives by ascending bit pattern. Under this order
/// `-NaN < -inf < ... < -0.0 < +0.0 < ... < +inf < +NaN`.
pub open spec fn f32_total_lt(a: u32, b: u32) -> bool {
    if a >= 0x8000_0000 && b >= 0x8000_0000 {
        a > b
    } else if a >= 0x8000_0000 {
        true
    } else if b >= 0x8000_0000 {
        false
    } else {
        a < b
    }
}

pub open spec fn f64_total_lt(a: u64, b: u64) -> bool {
    if a >= 0x8000_0000_0000_0000 && b >= 0x8000_0000_0000_0000 {
        a > b
    } else if a >= 0x8000_0000_0000_0000 {
        true
    } else if b >= 0x8000_0000_0000_0000 {
        false
    } else {
        a < b
    }
}

/// Big-endian images of bounded values compare exactly like the values:
/// the order of the images is the order of the inputs, and equal images
/// mean equal inputs.
pub proof fn lemma_be_bytes_order(a: nat, b: nat, n: nat)
    requires
        a < pow2(8 * n),
        b < pow2(8 * n),
    ensures
        lex_lt(be_bytes(a, n), be_bytes(b, n)) <==> a < b,
        (be_bytes(a, n) =~= be_bytes(b, n)) <==> a == b,
{
    if a < b {
        lemma_be_bytes_lt(a, b, n);
        lemma_lex_trichotomy(be_bytes(a, n), be_bytes(b, n));
    } else if b < a {
        lemma_be_bytes_lt(b, a, n);
        lemma_lex_trichotomy(be_bytes(a, n), be_bytes(b, n));
    } else {
        lemma_lex_irrefl(be_bytes(a, n));
    }
}

/// Order preservation for `u8`: the images compare like the values.
pub proof fn lemma_u8_order(a: u8, b: u8)
    ensures
        lex_lt(encoded_u8(a), encoded_u8(b)) <==> a < b,
        (encoded_u8(a) =~= encoded_u8(b)) <==> a == b,
{
    lemma2_to64();
    lemma_be_bytes_order(a as nat, b as nat, 1);
}

/// Order preservation for `u16`.
pub proof fn lemma_u16_order(a: u16, b: u16)
    ensures
        lex_lt(encoded_u16(a), encoded_u16(b)) <==> a < b,
        (encoded_u16(a) =~= encoded_u16(b)) <==> a == b,
{
    lemma2_to64();
    lemma_be_bytes_order(a as nat, b as nat, 2);
}

/// Order preservation for `u32`.
pub proof fn lemma_u32_order(a: u32, b: u32)
    ensures
        lex_lt(encoded_u32(a), encoded_u32(b)) <==> a < b,
        (encoded_u32(a) =~= encoded_u32(b)) <==> a == b,
{
    lemma2_to64();
    lemma_be_bytes_order(a as nat, b as nat, 4);
}

/// Order preservation for `u64`.
pub proof fn lemma_u64_order(a: u64, b: u64)
    ensures
        lex_lt(encoded_u64(a), encoded_u64(b)) <==> a < b,
        (encoded_u64(a) =~= encoded_u64(b)) <==> a == b,
{
    lemma2_to64();
    lemma_be_bytes_order(a as nat, b as nat, 8);
}

/// Order preservation for `i8`: the offset encoding compares like the values.
pub proof fn lemma_i8_order(a: i8, b: i8)
    ensures
        lex_lt(encoded_i8(a), encoded_i8(b)) <==> a < b,
        (encoded_i8(a) =~= encoded_i8(b)) <==> a == b,
{
    lemma2_to64();
    lemma_be_bytes_order((a + 0x80) as nat, (b + 0x80) as nat, 1);
}

/// Order preservation for `i16`.
pub proof fn lemma_i16_order(a: i16, b: i16)
    ensures
        lex_lt(encoded_i16(a), encoded_i16(b)) <==> a < b,
        (encoded_i16(a) =~= encoded_i16(b)) <==> a == b,
{
    lemma2_to64();
    lemma_be_bytes_order((a + 0x8000) as nat, (b + 0x8000) as nat, 2);
}

/// Order preservation for `i32`.
pub proof fn lemma_i32_order(a: i32, b: i32)
    ensures
        lex_lt(encoded_i32(a), encoded_i32(b)) <==> a < b,
        (encoded_i32(a) =~= encoded_i32(b)) <==> a == b,
{
    lemma2_to64();
    lemma_be_bytes_order((a + 0x8000_0000) as nat, (b + 0x8000_0000) as nat, 4);
}

/// Order preservation for `i64`.
pub proof fn lemma_i64_order(a: i64, b: i64)
    ensures
        lex_lt(encoded_i64(a), encoded_i64(b)) <==> a < b,
        (encoded_i64(a) =~= encoded_i64(b)) <==> a == b,
{
    lemma2_to64();
    lemma_be_bytes_order(
        (a + 0x8000_0000_0000_0000) as nat,
        (b + 0x8000_0000_0000_0000) as nat,
        8,
    );
}

/// Order preservation for `bool`: false sorts before true.
pub proof fn lemma_bool_order(a: bool, b: bool)
    ensures
        lex_lt(encoded_bool(a), encoded_bool(b)) <==> (!a && b),
        (encoded_bool(a) =~= encoded_bool(b)) <==> a == b,
{
    let z = seq![0u8];
    let o = seq![1u8];
    assert(z[0] == 0u8 && o[0] == 1u8 && z.len() == 1 && o.len() == 1);
    assert(lex_lt(z, o));
    assert(!lex_lt(o, z));
    lemma_lex_irrefl(z);
    lemma_lex_irrefl(o);
    assert(!(z =~= o));
}

/// Order preservation for `f32` bit patterns under the IEEE total order:
/// the images compare like the floats, with `-0.0` directly before `+0.0`
/// and NaN after positive infinity.
pub proof fn lemma_f32_order(a: u32, b: u32)
    ensures
        lex_lt(encoded_f32_bits(a), encoded_f32_bits(b)) <==> f32_total_lt(a, b),
        (encoded_f32_bits(a) =~= encoded_f32_bits(b)) <==> a == b,
{
    lemma2_to64();
    lemma_be_bytes_order(f32_key(a), f32_key(b), 4);
}

/// Order preservation for `f64` bit patterns under the IEEE total order.
pub proof fn lemma_f64_order(a: u64, b: u64)
    ensures
        lex_lt(encoded_f64_bits(a), encoded_f64_bits(b)) <==> f64_total_lt(a, b),
        (encoded_f64_bits(a) =~= encoded_f64_bits(b)) <==> a == b,
{
    lemma2_to64();
    lemma_be_bytes_order(f64_key(a), f64_key(b), 8);
}

} // verus!
