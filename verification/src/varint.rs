//! Byte images of the variable-length integers: a size-prefixed big-endian
//! packing of `u64` and `i64` that stays order-preserving across the size
//! buckets, and the proofs that it does.

use vstd::prelude::*;
use vstd::arithmetic::div_mod::{
    lemma_div_is_ordered, lemma_fundamental_div_mod, lemma_mod_division_less_than_divisor,
    lemma_multiply_divide_lt,
};
use vstd::arithmetic::power2::{lemma2_to64, lemma2_to64_rest, lemma_pow2_pos, pow2};
use crate::bytes::{
    be_bytes, complement, lemma_be_bytes_len, lemma_be_bytes_lt, lemma_be_bytes_mod,
    lemma_complement_reverses,
};
use crate::lex::{
    diverges, lemma_lex_append_same_prefix, lemma_lex_from_diff, lemma_lex_irrefl,
    lemma_lex_same_len_diverges, lemma_lex_trichotomy, lex_lt,
};

verus! {

/// Number of trailing payload bytes in the variable-length unsigned image:
/// the smallest count whose bucket holds the value.
pub open spec fn varu_len(v: u64) -> nat {
    if v < 0x10 {
        0
    } else if v < 0x1000 {
        1
    } else if v < 0x10_0000 {
        2
    } else if v < 0x1000_0000 {
        3
    } else if v < 0x10_0000_0000 {
        4
    } else if v < 0x1000_0000_0000 {
        5
    } else if v < 0x10_0000_0000_0000 {
        6
    } else if v < 0x1000_0000_0000_0000 {
        7
    } else {
        8
    }
}

/// First byte of the variable-length unsigned image: the high nibble is the
/// trailing length, the low nibble holds the value's top bits.
pub open spec fn varu_first(v: u64) -> u8 {
    (16 * varu_len(v) + (v as nat) / pow2(8 * varu_len(v))) as u8
}

/// Image of the variable-length unsigned encoding: a length-coded first
/// byte, then the value's remaining bytes in big-endian order.
pub open spec fn encoded_var_u64(v: u64) -> Seq<u8> {
    seq![varu_first(v)] + be_bytes(v as nat, varu_len(v))
}

/// Bucket facts for the unsigned encoding: the value fits its bucket, so
/// the bits kept in the first byte fit the low nibble.
pub proof fn lemma_varu_bounds(v: u64)
    ensures
        (v as nat) < 16 * pow2(8 * varu_len(v)),
        (v as nat) / pow2(8 * varu_len(v)) < 16,
        varu_first(v) as nat == 16 * varu_len(v) + (v as nat) / pow2(8 * varu_len(v)),
        varu_len(v) > 0 ==> pow2(8 * (varu_len(v) - 1) as nat) * 16 <= v as nat,
{
    lemma2_to64();
    lemma2_to64_rest();
    let l = varu_len(v);
    lemma_pow2_pos(8 * l);
    lemma_multiply_divide_lt(v as int, pow2(8 * l) as int, 16);
}

/// Order preservation for the variable-length unsigned encoding, strict
/// case: the image of the smaller value sorts first, and the two images
/// disagree at a position both of them have.
pub proof fn lemma_var_u64_lt(a: u64, b: u64)
    requires
        a < b,
    ensures
        lex_lt(encoded_var_u64(a), encoded_var_u64(b)),
        diverges(encoded_var_u64(a), encoded_var_u64(b)),
{
    let la = varu_len(a);
    let lb = varu_len(b);
    let ea = encoded_var_u64(a);
    let eb = encoded_var_u64(b);
    lemma_varu_bounds(a);
    lemma_varu_bounds(b);
    lemma_be_bytes_len(a as nat, la);
    lemma_be_bytes_len(b as nat, lb);
    assert(la <= lb);
    if la < lb {
        assert(varu_first(a) < varu_first(b));
        lemma_lex_from_diff(ea, eb, 0);
        assert(diverges(ea, eb));
    } else {
        let l = la;
        let p = pow2(8 * l);
        lemma_pow2_pos(8 * l);
        lemma_div_is_ordered(a as int, b as int, p as int);
        if (a as nat) / p < (b as nat) / p {
            assert(varu_first(a) < varu_first(b));
            lemma_lex_from_diff(ea, eb, 0);
            assert(diverges(ea, eb));
        } else {
            assert((a as nat) / p == (b as nat) / p);
            lemma_fundamental_div_mod(a as int, p as int);
            lemma_fundamental_div_mod(b as int, p as int);
            assert((a as nat) % p < (b as nat) % p);
            lemma_mod_division_less_than_divisor(b as int, p as int);
            lemma_be_bytes_mod(a as nat, l);
            lemma_be_bytes_mod(b as nat, l);
            lemma_be_bytes_lt((a as nat) % p, (b as nat) % p, l);
            lemma_lex_append_same_prefix(
                seq![varu_first(a)],
                be_bytes(a as nat, l),
                be_bytes(b as nat, l),
            );
            assert(ea =~= seq![varu_first(a)] + be_bytes(a as nat, l));
            assert(eb =~= seq![varu_first(a)] + be_bytes(b as nat, l));
            lemma_lex_same_len_diverges(ea, eb);
        }
    }
}

/// Order preservation for the variable-length unsigned encoding: the images
/// compare exactly like the values.
pub proof fn lemma_var_u64_order(a: u64, b: u64)
    ensures
        lex_lt(encoded_var_u64(a), encoded_var_u64(b)) <==> a < b,
        (encoded_var_u64(a) =~= encoded_var_u64(b)) <==> a == b,
{
    if a < b {
        lemma_var_u64_lt(a, b);
        lemma_lex_trichotomy(encoded_var_u64(a), encoded_var_u64(b));
    } else if b < a {
        lemma_var_u64_lt(b, a);
        lemma_lex_trichotomy(encoded_var_u64(a), encoded_var_u64(b));
    } else {
        lemma_lex_irrefl(encoded_var_u64(a));
    }
}

/// Magnitude carried by the payload of the variable-length signed encoding:
/// the value itself when non-negative, one less than the absolute value when
/// negative, so that magnitude zero is reserved for `+0` and `-1` sits
/// immediately before it.
pub open spec fn vari_mag(v: i64) -> nat {
    if v >= 0 {
        v as nat
    } else {
        (-1 - v) as nat
    }
}

/// Number of trailing payload bytes for a signed magnitude.
pub open spec fn vari_len(m: nat) -> nat {
    if m < 0x8 {
        0
    } else if m < 0x800 {
        1
    } else if m < 0x8_0000 {
        2
    } else if m < 0x800_0000 {
        3
    } else if m < 0x8_0000_0000 {
        4
    } else if m < 0x800_0000_0000 {
        5
    } else if m < 0x8_0000_0000_0000 {
        6
    } else if m < 0x800_0000_0000_0000 {
        7
    } else {
        8
    }
}

/// First byte of the signed image before any complement: sign bit set, then
/// four length bits, then the magnitude's top three bits.
pub open spec fn vari_first(m: nat) -> u8 {
    (128 + 8 * vari_len(m) + m / pow2(8 * vari_len(m))) as u8
}

/// Image of a non-negative value's magnitude: a sign-and-length-coded first
/// byte, then the magnitude's remaining bytes in big-endian order.
pub open spec fn vari_mag_bytes(m: nat) -> Seq<u8> {
    seq![vari_first(m)] + be_bytes(m, vari_len(m))
}

/// Image of the variable-length signed encoding: for negative values every
/// byte of the magnitude image is complemented, which clears the sign bit
/// and makes larger magnitudes sort earlier.
pub open spec fn encoded_var_i64(v: i64) -> Seq<u8> {
    if v >= 0 {
        vari_mag_bytes(vari_mag(v))
    } else {
        complement(vari_mag_bytes(vari_mag(v)))
    }
}

/// Bucket facts for the signed encoding.
pub proof fn lemma_vari_bounds(m: nat)
    requires
        m < pow2(63),
    ensures
        m < 8 * pow2(8 * vari_len(m)),
        m / pow2(8 * vari_len(m)) < 8,
        vari_first(m) as nat == 128 + 8 * vari_len(m) + m / pow2(8 * vari_len(m)),
        vari_first(m) >= 128,
{
    lemma2_to64();
    lemma2_to64_rest();
    let l = vari_len(m);
    lemma_pow2_pos(8 * l);
    lemma_multiply_divide_lt(m as int, pow2(8 * l) as int, 8);
}

/// Order preservation for magnitude images of non-negative values.
pub proof fn lemma_vari_mag_lt(ma: nat, mb: nat)
    requires
        ma < mb,
        mb < pow2(63),
    ensures
        lex_lt(vari_mag_bytes(ma), vari_mag_bytes(mb)),
        diverges(vari_mag_bytes(ma), vari_mag_bytes(mb)),
{
    let la = vari_len(ma);
    let lb = vari_len(mb);
    let ea = vari_mag_bytes(ma);
    let eb = vari_mag_bytes(mb);
    lemma_vari_bounds(ma);
    lemma_vari_bounds(mb);
    lemma_be_bytes_len(ma, la);
    lemma_be_bytes_len(mb, lb);
    assert(la <= lb);
    if la < lb {
        assert(vari_first(ma) < vari_first(mb));
        lemma_lex_from_diff(ea, eb, 0);
        assert(diverges(ea, eb));
    } else {
        let l = la;
        let p = pow2(8 * l);
        lemma_pow2_pos(8 * l);
        lemma_div_is_ordered(ma as int, mb as int, p as int);
        if ma / p < mb / p {
            assert(vari_first(ma) < vari_first(mb));
            lemma_lex_from_diff(ea, eb, 0);
            assert(diverges(ea, eb));
        } else {
            assert(ma / p == mb / p);
            lemma_fundamental_div_mod(ma as int, p as int);
            lemma_fundamental_div_mod(mb as int, p as int);
            assert(ma % p < mb % p);
            lemma_mod_division_less_than_divisor(mb as int, p as int);
            lemma_be_bytes_mod(ma, l);
            lemma_be_bytes_mod(mb, l);
            lemma_be_bytes_lt(ma % p, mb % p, l);
            lemma_lex_append_same_prefix(seq![vari_first(ma)], be_bytes(ma, l), be_bytes(mb, l));
            assert(ea =~= seq![vari_first(ma)] + be_bytes(ma, l));
            assert(eb =~= seq![vari_first(ma)] + be_bytes(mb, l));
            lemma_lex_same_len_diverges(ea, eb);
        }
    }
}

/// Order preservation for the variable-length signed encoding, strict case.
pub proof fn lemma_var_i64_lt(a: i64, b: i64)
    requires
        a < b,
    ensures
        lex_lt(encoded_var_i64(a), encoded_var_i64(b)),
        diverges(encoded_var_i64(a), encoded_var_i64(b)),
{
    lemma2_to64();
    lemma2_to64_rest();
    let ma = vari_mag(a);
    let mb = vari_mag(b);
    if a >= 0 {
        lemma_vari_mag_lt(ma, mb);
    } else if b < 0 {
        lemma_vari_mag_lt(mb, ma);
        lemma_complement_reverses(vari_mag_bytes(mb), vari_mag_bytes(ma));
    } else {
        let ea = encoded_var_i64(a);
        let eb = encoded_var_i64(b);
        lemma_vari_bounds(ma);
        lemma_vari_bounds(mb);
        lemma_be_bytes_len(ma, vari_len(ma));
        lemma_be_bytes_len(mb, vari_len(mb));
        assert(ea.len() > 0 && eb.len() > 0);
        assert(ea[0] == (255 - vari_first(ma) as int) as u8);
        assert(ea[0] < 128);
        assert(eb[0] == vari_first(mb));
        lemma_lex_from_diff(ea, eb, 0);
        assert(diverges(ea, eb));
    }
}

/// Order preservation for the variable-length signed encoding: the images
/// compare exactly like the values.
pub proof fn lemma_var_i64_order(a: i64, b: i64)
    ensures
        lex_lt(encoded_var_i64(a), encoded_var_i64(b)) <==> a < b,
        (encoded_var_i64(a) =~= encoded_var_i64(b)) <==> a == b,
{
    if a < b {
        lemma_var_i64_lt(a, b);
        lemma_lex_trichotomy(encoded_var_i64(a), encoded_var_i64(b));
    } else if b < a {
        lemma_var_i64_lt(b, a);
        lemma_lex_trichotomy(encoded_var_i64(a), encoded_var_i64(b));
    } else {
        lemma_lex_irrefl(encoded_var_i64(a));
    }
}

} // verus!
