//! Byte images of characters and strings: UTF-8, with a single NUL
//! terminator after a string — and the proof that UTF-8 byte order is
//! codepoint order.

use vstd::prelude::*;
use vstd::utf8::{
    char_is_scalar, encode_scalar, encode_utf8, has_width_1_encoding, has_width_2_encoding,
    has_width_3_encoding, has_width_4_encoding, is_scalar, last_continuation_byte,
    leading_byte_width_1, leading_byte_width_2, leading_byte_width_3, leading_byte_width_4,
    second_last_continuation_byte, third_last_continuation_byte,
};
use crate::lex::{
    diverges, lemma_lex_append_diverging, lemma_lex_append_same_prefix, lemma_lex_from_diff,
    lemma_lex_irrefl, lemma_lex_proper_prefix, lemma_lex_trichotomy,
    lex_lt,
};

verus! {

/// A character is its UTF-8 encoding, 1 to 4 bytes.
pub open spec fn encoded_char(c: char) -> Seq<u8> {
    encode_scalar(c as u32)
}

/// A string is its UTF-8 bytes followed by a single `0x00` terminator. The
/// terminator keeps a string from becoming a bare prefix of a longer one
/// when more fields follow; a string containing interior NUL bytes only
/// sorts correctly as the final field of a key.
pub open spec fn encoded_str(s: Seq<char>) -> Seq<u8> {
    encode_utf8(s) + seq![0u8]
}

/// The natural order on strings: lexicographic by character.
pub open spec fn str_lt(a: Seq<char>, b: Seq<char>) -> bool
    decreases a.len(),
{
    if b.len() == 0 {
        false
    } else if a.len() == 0 {
        true
    } else if a[0] < b[0] {
        true
    } else if a[0] > b[0] {
        false
    } else {
        str_lt(a.drop_first(), b.drop_first())
    }
}

/// The string order is total: exactly one of `str_lt(a, b)`, `a == b`,
/// `str_lt(b, a)` holds.
pub proof fn lemma_str_trichotomy(a: Seq<char>, b: Seq<char>)
    ensures
        str_lt(a, b) || a =~= b || str_lt(b, a),
        str_lt(a, b) ==> !str_lt(b, a) && !(a =~= b),
    decreases a.len(),
{
    if a.len() == 0 || b.len() == 0 {
        if a.len() == b.len() {
            assert(a =~= b);
        }
    } else if a[0] == b[0] {
        lemma_str_trichotomy(a.drop_first(), b.drop_first());
        if a.drop_first() =~= b.drop_first() {
            assert(forall|j: int|
                1 <= j < a.len() ==> a[j] == a.drop_first()[j - 1] && b[j] == b.drop_first()[j
                    - 1]);
            assert(a =~= b);
        }
        if a =~= b {
            assert(a.drop_first() =~= b.drop_first());
        }
    }
}

/// Byte ranges of the pieces of a scalar's UTF-8 encoding: leading bytes of
/// wider encodings are strictly larger, and continuation bytes never collide
/// with a 1-byte leading byte.
proof fn lemma_scalar_ranges(c: u32)
    by (bit_vector)
    requires
        is_scalar(c),
    ensures
        has_width_1_encoding(c) ==> leading_byte_width_1(c) == c as u8 && c as u8 <= 0x7F,
        has_width_2_encoding(c) ==> 0xC2 <= leading_byte_width_2(c) <= 0xDF,
        has_width_3_encoding(c) ==> 0xE0 <= leading_byte_width_3(c) <= 0xEF,
        has_width_4_encoding(c) ==> 0xF0 <= leading_byte_width_4(c) <= 0xF4,
{
}

/// Within the 2-byte bucket the encoding is byte-wise monotone.
proof fn lemma_scalar_lt_w2(c1: u32, c2: u32)
    by (bit_vector)
    requires
        has_width_2_encoding(c1),
        has_width_2_encoding(c2),
        c1 < c2,
    ensures
        leading_byte_width_2(c1) < leading_byte_width_2(c2) || (leading_byte_width_2(c1)
            == leading_byte_width_2(c2) && last_continuation_byte(c1) < last_continuation_byte(
            c2,
        )),
{
}

/// Within the 3-byte bucket the encoding is byte-wise monotone.
proof fn lemma_scalar_lt_w3(c1: u32, c2: u32)
    by (bit_vector)
    requires
        has_width_3_encoding(c1),
        has_width_3_encoding(c2),
        c1 < c2,
    ensures
        leading_byte_width_3(c1) < leading_byte_width_3(c2) || (leading_byte_width_3(c1)
            == leading_byte_width_3(c2) && (second_last_continuation_byte(c1)
            < second_last_continuation_byte(c2) || (second_last_continuation_byte(c1)
            == second_last_continuation_byte(c2) && last_continuation_byte(c1)
            < last_continuation_byte(c2)))),
{
}

/// Within the 4-byte bucket the encoding is byte-wise monotone.
proof fn lemma_scalar_lt_w4(c1: u32, c2: u32)
    by (bit_vector)
    requires
        has_width_4_encoding(c1),
        has_width_4_encoding(c2),
        c1 < c2,
    ensures
        leading_byte_width_4(c1) < leading_byte_width_4(c2) || (leading_byte_width_4(c1)
            == leading_byte_width_4(c2) && (third_last_continuation_byte(c1)
            < third_last_continuation_byte(c2) || (third_last_continuation_byte(c1)
            == third_last_continuation_byte(c2) && (second_last_continuation_byte(c1)
            < second_last_continuation_byte(c2) || (second_last_continuation_byte(c1)
            == second_last_continuation_byte(c2) && last_continuation_byte(c1)
            < last_continuation_byte(c2)))))),
{
}

/// Casting `char` to `u32` preserves strict order.
proof fn lemma_char_lt_cast(c: char, d: char)
    requires
        c < d,
    ensures
        (c as u32) < (d as u32),
{
    char_is_scalar(c);
    char_is_scalar(d);
    vstd::utf8::char_u32_cast(c, c as u32);
    vstd::utf8::char_u32_cast(d, d as u32);
    if (c as u32) == (d as u32) {
        assert(c == d);
    } else if (d as u32) < (c as u32) {
        assert(d < c);
        assert((d as int) < (c as int));
        assert((c as int) < (d as int));
    }
}

/// UTF-8 encodings of ordered scalars are ordered and disagree at a
/// position both of them have: lexicographic order of UTF-8 byte strings
/// matches codepoint order.
proof fn lemma_encode_scalar_lt(a: u32, b: u32)
    requires
        is_scalar(a),
        is_scalar(b),
        a < b,
    ensures
        lex_lt(encode_scalar(a), encode_scalar(b)),
        diverges(encode_scalar(a), encode_scalar(b)),
{
    lemma_scalar_ranges(a);
    lemma_scalar_ranges(b);
    let ea = encode_scalar(a);
    let eb = encode_scalar(b);
    if has_width_1_encoding(a) && has_width_1_encoding(b) {
        assert(ea[0] < eb[0]);
        lemma_lex_from_diff(ea, eb, 0);
    } else if has_width_2_encoding(a) && has_width_2_encoding(b) {
        lemma_scalar_lt_w2(a, b);
        if ea[0] < eb[0] {
            lemma_lex_from_diff(ea, eb, 0);
        } else {
            lemma_lex_from_diff(ea, eb, 1);
        }
    } else if has_width_3_encoding(a) && has_width_3_encoding(b) {
        lemma_scalar_lt_w3(a, b);
        if ea[0] < eb[0] {
            lemma_lex_from_diff(ea, eb, 0);
        } else if ea[1] < eb[1] {
            lemma_lex_from_diff(ea, eb, 1);
        } else {
            lemma_lex_from_diff(ea, eb, 2);
        }
    } else if has_width_4_encoding(a) && has_width_4_encoding(b) {
        lemma_scalar_lt_w4(a, b);
        if ea[0] < eb[0] {
            lemma_lex_from_diff(ea, eb, 0);
        } else if ea[1] < eb[1] {
            lemma_lex_from_diff(ea, eb, 1);
        } else if ea[2] < eb[2] {
            lemma_lex_from_diff(ea, eb, 2);
        } else {
            lemma_lex_from_diff(ea, eb, 3);
        }
    } else {
        assert(ea[0] < eb[0]);
        lemma_lex_from_diff(ea, eb, 0);
    }
}

/// Order preservation for `char`: the UTF-8 images compare like the
/// codepoints.
pub proof fn lemma_char_order(a: char, b: char)
    ensures
        lex_lt(encoded_char(a), encoded_char(b)) <==> a < b,
        (encoded_char(a) =~= encoded_char(b)) <==> a == b,
{
    char_is_scalar(a);
    char_is_scalar(b);
    vstd::utf8::char_u32_cast(a, a as u32);
    vstd::utf8::char_u32_cast(b, b as u32);
    let ua = a as u32;
    let ub = b as u32;
    if ua == ub {
        assert(a == b);
        lemma_lex_irrefl(encoded_char(a));
        if a < b {
            lemma_char_lt_cast(a, b);
        }
    } else if ua < ub {
        assert(a < b);
        lemma_encode_scalar_lt(ua, ub);
        lemma_lex_trichotomy(encoded_char(a), encoded_char(b));
    } else {
        assert(b < a);
        if a < b {
            lemma_char_lt_cast(a, b);
        }
        lemma_encode_scalar_lt(ub, ua);
        lemma_lex_trichotomy(encoded_char(a), encoded_char(b));
    }
}

/// Order preservation for strings, strict case: the NUL-terminated UTF-8
/// image of the smaller string sorts first.
proof fn lemma_encoded_str_lt(a: Seq<char>, b: Seq<char>)
    requires
        str_lt(a, b),
    ensures
        lex_lt(encoded_str(a), encoded_str(b)),
    decreases a.len(),
{
    let ea = encoded_str(a);
    let eb = encoded_str(b);
    if a.len() == 0 {
        char_is_scalar(b[0]);
        lemma_scalar_ranges(b[0] as u32);
        let h = encode_scalar(b[0] as u32);
        assert(encode_utf8(b) == h + encode_utf8(b.drop_first()));
        assert(h.len() >= 1);
        assert(ea =~= seq![0u8]);
        assert(eb[0] == h[0]);
        assert(eb.len() >= 2);
        if h[0] == 0 {
            lemma_lex_proper_prefix(ea, eb);
        } else {
            lemma_lex_from_diff(ea, eb, 0);
        }
    } else if a[0] == b[0] {
        char_is_scalar(a[0]);
        let h = encode_scalar(a[0] as u32);
        lemma_encoded_str_lt(a.drop_first(), b.drop_first());
        assert(ea =~= h + encoded_str(a.drop_first()));
        assert(eb =~= h + encoded_str(b.drop_first()));
        lemma_lex_append_same_prefix(h, encoded_str(a.drop_first()), encoded_str(b.drop_first()));
    } else {
        char_is_scalar(a[0]);
        char_is_scalar(b[0]);
        assert(a[0] < b[0]);
        lemma_char_lt_cast(a[0], b[0]);
        lemma_encode_scalar_lt(a[0] as u32, b[0] as u32);
        let ha = encode_scalar(a[0] as u32);
        let hb = encode_scalar(b[0] as u32);
        lemma_lex_append_diverging(ha, hb, encoded_str(a.drop_first()), encoded_str(b.drop_first()));
        assert(ea =~= ha + encoded_str(a.drop_first()));
        assert(eb =~= hb + encoded_str(b.drop_first()));
    }
}

/// True when the string contains no NUL character. Only such strings keep
/// their order when more fields follow them in a composite key: an interior
/// NUL collides with the terminator byte.
pub open spec fn nul_free(s: Seq<char>) -> bool {
    forall|i: int| 0 <= i < s.len() ==> s[i] != '\0'
}

/// A character other than NUL has a nonzero scalar value.
proof fn lemma_nonzero_char(c: char)
    requires
        c != '\0',
    ensures
        (c as u32) != 0,
{
    vstd::utf8::char_u32_cast(c, c as u32);
    vstd::utf8::char_u32_cast('\0', 0u32);
}

/// Images of distinct NUL-free strings disagree at a position both images
/// have: the terminator makes a NUL-free string field self-delimiting
/// against whatever fields follow it.
pub proof fn lemma_encoded_str_diverges(a: Seq<char>, b: Seq<char>)
    requires
        nul_free(a),
        nul_free(b),
        !(a =~= b),
    ensures
        diverges(encoded_str(a), encoded_str(b)),
    decreases a.len(),
{
    let ea = encoded_str(a);
    let eb = encoded_str(b);
    if a.len() == 0 {
        char_is_scalar(b[0]);
        lemma_scalar_ranges(b[0] as u32);
        lemma_nonzero_char(b[0]);
        let h = encode_scalar(b[0] as u32);
        assert(encode_utf8(b) == h + encode_utf8(b.drop_first()));
        assert(eb[0] == h[0]);
        assert(h[0] != 0);
        assert(ea[0] == 0);
        assert(diverges(ea, eb));
    } else if b.len() == 0 {
        char_is_scalar(a[0]);
        lemma_scalar_ranges(a[0] as u32);
        lemma_nonzero_char(a[0]);
        let h = encode_scalar(a[0] as u32);
        assert(encode_utf8(a) == h + encode_utf8(a.drop_first()));
        assert(ea[0] == h[0]);
        assert(h[0] != 0);
        assert(eb[0] == 0);
        assert(diverges(ea, eb));
    } else if a[0] == b[0] {
        char_is_scalar(a[0]);
        let h = encode_scalar(a[0] as u32);
        let a1 = a.drop_first();
        let b1 = b.drop_first();
        assert(nul_free(a1) && nul_free(b1)) by {
            assert(forall|j: int| 0 <= j < a1.len() ==> a1[j] == a[j + 1]);
            assert(forall|j: int| 0 <= j < b1.len() ==> b1[j] == b[j + 1]);
        }
        assert(!(a1 =~= b1)) by {
            if a1 =~= b1 {
                assert(forall|j: int|
                    1 <= j < a.len() ==> a[j] == a1[j - 1] && b[j] == b1[j - 1]);
                assert(a =~= b);
            }
        }
        lemma_encoded_str_diverges(a1, b1);
        crate::lex::lemma_diverges_same_prefix(h, encoded_str(a1), encoded_str(b1));
        assert(ea =~= h + encoded_str(a1));
        assert(eb =~= h + encoded_str(b1));
    } else {
        char_is_scalar(a[0]);
        char_is_scalar(b[0]);
        let ha = encode_scalar(a[0] as u32);
        let hb = encode_scalar(b[0] as u32);
        let ta = encoded_str(a.drop_first());
        let tb = encoded_str(b.drop_first());
        if a[0] < b[0] {
            lemma_char_lt_cast(a[0], b[0]);
            lemma_encode_scalar_lt(a[0] as u32, b[0] as u32);
            crate::lex::lemma_diverges_append(ha, hb, ta, tb);
        } else {
            assert(b[0] < a[0]);
            lemma_char_lt_cast(b[0], a[0]);
            lemma_encode_scalar_lt(b[0] as u32, a[0] as u32);
            crate::lex::lemma_diverges_append(hb, ha, tb, ta);
            crate::lex::lemma_diverges_sym(hb + tb, ha + ta);
        }
        assert(ea =~= ha + ta);
        assert(eb =~= hb + tb);
    }
}

/// Order preservation for strings: the images compare like the strings.
pub proof fn lemma_str_order(a: Seq<char>, b: Seq<char>)
    ensures
        lex_lt(encoded_str(a), encoded_str(b)) <==> str_lt(a, b),
        (encoded_str(a) =~= encoded_str(b)) <==> a =~= b,
{
    lemma_str_trichotomy(a, b);
    if str_lt(a, b) {
        lemma_encoded_str_lt(a, b);
        lemma_lex_trichotomy(encoded_str(a), encoded_str(b));
    } else if str_lt(b, a) {
        lemma_encoded_str_lt(b, a);
        lemma_lex_trichotomy(encoded_str(a), encoded_str(b));
    } else {
        assert(a =~= b);
        assert(encoded_str(a) =~= encoded_str(b));
        lemma_lex_irrefl(encoded_str(a));
    }
}

} // verus!

