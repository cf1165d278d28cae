//! Composition laws: concatenating field images in declaration order, with
//! no separators, sorts composites like tuples — because every field image
//! is self-delimiting against its right-hand sibling.

use vstd::prelude::*;
use vstd::arithmetic::power2::lemma2_to64;
use crate::bytes::lemma_be_bytes_lt;
use crate::fixed::{encoded_bool, encoded_u8, lemma_u8_order};
use crate::lex::{
    lemma_lex_append_diverging, lemma_lex_append_same_prefix, lemma_lex_from_diff,
    lemma_lex_irrefl, lemma_lex_trichotomy, lex_lt,
};
use crate::text::{
    encoded_str, lemma_encoded_str_diverges, lemma_str_order, lemma_str_trichotomy, nul_free,
    str_lt,
};
use crate::varint::{encoded_var_u64, lemma_var_u64_lt, lemma_var_u64_order};

verus! {

/// The natural order on optional values: absent sorts before present,
/// present values sort by payload.
pub open spec fn opt_u64_lt(a: Option<u64>, b: Option<u64>) -> bool {
    match b {
        Option::None => false,
        Option::Some(y) => match a {
            Option::None => true,
            Option::Some(x) => x < y,
        },
    }
}

/// Image of an optional variable-length integer: a presence byte, then the
/// payload when present.
pub open spec fn encoded_opt_var_u64(o: Option<u64>) -> Seq<u8> {
    match o {
        Option::None => encoded_bool(false),
        Option::Some(v) => encoded_bool(true) + encoded_var_u64(v),
    }
}

/// Order preservation for optionals: because `false < true`, absent values
/// sort before present ones of any payload, and present values sort by
/// payload.
pub proof fn lemma_option_order(a: Option<u64>, b: Option<u64>)
    ensures
        lex_lt(encoded_opt_var_u64(a), encoded_opt_var_u64(b)) <==> opt_u64_lt(a, b),
        (encoded_opt_var_u64(a) =~= encoded_opt_var_u64(b)) <==> a == b,
{
    let ea = encoded_opt_var_u64(a);
    let eb = encoded_opt_var_u64(b);
    match (a, b) {
        (Option::None, Option::None) => {
            lemma_lex_irrefl(ea);
        },
        (Option::None, Option::Some(y)) => {
            assert(ea[0] == 0u8 && eb[0] == 1u8);
            lemma_lex_from_diff(ea, eb, 0);
            lemma_lex_trichotomy(ea, eb);
        },
        (Option::Some(x), Option::None) => {
            assert(eb[0] == 0u8 && ea[0] == 1u8);
            lemma_lex_from_diff(eb, ea, 0);
            lemma_lex_trichotomy(ea, eb);
        },
        (Option::Some(x), Option::Some(y)) => {
            lemma_var_u64_order(x, y);
            lemma_var_u64_order(y, x);
            lemma_lex_append_same_prefix(
                encoded_bool(true),
                encoded_var_u64(x),
                encoded_var_u64(y),
            );
            lemma_lex_append_same_prefix(
                encoded_bool(true),
                encoded_var_u64(y),
                encoded_var_u64(x),
            );
            if x == y {
                assert(ea =~= eb);
            } else {
                lemma_lex_trichotomy(ea, eb);
            }
        },
    }
}

/// Composite order for a pair of variable-length integers: the
/// concatenation of the field images sorts like the tuple.
pub proof fn lemma_pair_var_u64_order(a1: u64, a2: u64, b1: u64, b2: u64)
    ensures
        lex_lt(
            encoded_var_u64(a1) + encoded_var_u64(a2),
            encoded_var_u64(b1) + encoded_var_u64(b2),
        ) <==> (a1 < b1 || (a1 == b1 && a2 < b2)),
        (encoded_var_u64(a1) + encoded_var_u64(a2) =~= encoded_var_u64(b1) + encoded_var_u64(b2))
            <==> (a1 == b1 && a2 == b2),
{
    let xa = encoded_var_u64(a1) + encoded_var_u64(a2);
    let xb = encoded_var_u64(b1) + encoded_var_u64(b2);
    if a1 < b1 {
        lemma_var_u64_lt(a1, b1);
        lemma_lex_append_diverging(
            encoded_var_u64(a1),
            encoded_var_u64(b1),
            encoded_var_u64(a2),
            encoded_var_u64(b2),
        );
        lemma_lex_trichotomy(xa, xb);
    } else if b1 < a1 {
        lemma_var_u64_lt(b1, a1);
        lemma_lex_append_diverging(
            encoded_var_u64(b1),
            encoded_var_u64(a1),
            encoded_var_u64(b2),
            encoded_var_u64(a2),
        );
        lemma_lex_trichotomy(xa, xb);
    } else {
        lemma_lex_append_same_prefix(
            encoded_var_u64(a1),
            encoded_var_u64(a2),
            encoded_var_u64(b2),
        );
        lemma_lex_append_same_prefix(
            encoded_var_u64(a1),
            encoded_var_u64(b2),
            encoded_var_u64(a2),
        );
        lemma_var_u64_order(a2, b2);
        lemma_var_u64_order(b2, a2);
        if a2 == b2 {
            assert(xa =~= xb);
        } else {
            lemma_lex_trichotomy(xa, xb);
        }
    }
}

/// Composite order for a `u8` field followed by a terminal string field:
/// the fixed-width first field is trivially self-delimiting, so the
/// concatenation sorts like the tuple.
pub proof fn lemma_pair_u8_str_order(a1: u8, a2: Seq<char>, b1: u8, b2: Seq<char>)
    ensures
        lex_lt(encoded_u8(a1) + encoded_str(a2), encoded_u8(b1) + encoded_str(b2)) <==> (a1 < b1
            || (a1 == b1 && str_lt(a2, b2))),
{
    let xa = encoded_u8(a1) + encoded_str(a2);
    let xb = encoded_u8(b1) + encoded_str(b2);
    lemma2_to64();
    if a1 < b1 {
        lemma_be_bytes_lt(a1 as nat, b1 as nat, 1);
        lemma_lex_append_diverging(encoded_u8(a1), encoded_u8(b1), encoded_str(a2), encoded_str(b2));
    } else if b1 < a1 {
        lemma_be_bytes_lt(b1 as nat, a1 as nat, 1);
        lemma_lex_append_diverging(encoded_u8(b1), encoded_u8(a1), encoded_str(b2), encoded_str(a2));
        lemma_lex_trichotomy(xa, xb);
        lemma_str_trichotomy(a2, b2);
    } else {
        lemma_lex_append_same_prefix(encoded_u8(a1), encoded_str(a2), encoded_str(b2));
        lemma_str_order(a2, b2);
    }
}

/// Composite order for a NUL-free string field that is *not* the last field
/// of its key: the terminator byte makes such a field self-delimiting, so
/// the concatenation sorts like the tuple. A string with interior NUL bytes
/// has no such guarantee, which is why only the final field of a key may
/// contain them.
pub proof fn lemma_pair_str_u8_order(a1: Seq<char>, a2: u8, b1: Seq<char>, b2: u8)
    requires
        nul_free(a1),
        nul_free(b1),
    ensures
        lex_lt(encoded_str(a1) + encoded_u8(a2), encoded_str(b1) + encoded_u8(b2)) <==> (str_lt(
            a1,
            b1,
        ) || (a1 =~= b1 && a2 < b2)),
{
    let xa = encoded_str(a1) + encoded_u8(a2);
    let xb = encoded_str(b1) + encoded_u8(b2);
    lemma_str_trichotomy(a1, b1);
    lemma_str_order(a1, b1);
    if str_lt(a1, b1) {
        lemma_encoded_str_diverges(a1, b1);
        lemma_lex_append_diverging(
            encoded_str(a1),
            encoded_str(b1),
            encoded_u8(a2),
            encoded_u8(b2),
        );
    } else if str_lt(b1, a1) {
        lemma_str_order(b1, a1);
        lemma_encoded_str_diverges(b1, a1);
        lemma_lex_append_diverging(
            encoded_str(b1),
            encoded_str(a1),
            encoded_u8(b2),
            encoded_u8(a2),
        );
        lemma_lex_trichotomy(xa, xb);
    } else {
        assert(a1 =~= b1);
        assert(encoded_str(a1) == encoded_str(b1));
        lemma_lex_append_same_prefix(encoded_str(a1), encoded_u8(a2), encoded_u8(b2));
        lemma_u8_order(a2, b2);
    }
}

/// Composite order for tagged unions: the variant index is written first as
/// a variable-length integer, so values of an earlier variant sort before
/// values of a later one whatever the payloads, and values of one variant
/// sort by payload.
pub proof fn lemma_variant_order(ia: u64, pa: Seq<u8>, ib: u64, pb: Seq<u8>)
    ensures
        ia < ib ==> lex_lt(encoded_var_u64(ia) + pa, encoded_var_u64(ib) + pb),
        ia == ib ==> (lex_lt(encoded_var_u64(ia) + pa, encoded_var_u64(ib) + pb) <==> lex_lt(
            pa,
            pb,
        )),
{
    if ia < ib {
        lemma_var_u64_lt(ia, ib);
        lemma_lex_append_diverging(encoded_var_u64(ia), encoded_var_u64(ib), pa, pb);
    } else if ia == ib {
        lemma_lex_append_same_prefix(encoded_var_u64(ia), pa, pb);
    }
}

} // verus!
