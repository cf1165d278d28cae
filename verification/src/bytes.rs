//! Big-endian byte images of unsigned values, and the proof that raw
//! big-endian bytes compare exactly like the values they encode.

use vstd::prelude::*;
use vstd::arithmetic::div_mod::{
    lemma_div_denominator, lemma_div_is_ordered, lemma_fundamental_div_mod,
    lemma_multiply_divide_lt,
};
use vstd::arithmetic::power2::{lemma_pow2_adds, lemma_pow2_pos, pow2};
use crate::lex::{
    diverges, lemma_lex_append_diverging, lemma_lex_from_diff, lemma_lex_same_len_diverges,
    lex_lt,
};

verus! {

/// The low `n` bytes of `v`, most significant first.
pub open spec fn be_bytes(v: nat, n: nat) -> Seq<u8>
    decreases n,
{
    if n == 0 {
        Seq::empty()
    } else {
        be_bytes(v / 256, (n - 1) as nat) + seq![(v % 256) as u8]
    }
}

/// The byte-wise complement of a byte string.
pub open spec fn complement(s: Seq<u8>) -> Seq<u8> {
    s.map_values(|b: u8| (255 - b) as u8)
}

/// A byte string, complemented when `invert` is set.
pub open spec fn mask_bytes(s: Seq<u8>, invert: bool) -> Seq<u8> {
    if invert {
        complement(s)
    } else {
        s
    }
}

pub proof fn lemma_be_bytes_len(v: nat, n: nat)
    ensures
        be_bytes(v, n).len() == n,
    decreases n,
{
    if n > 0 {
        lemma_be_bytes_len(v / 256, (n - 1) as nat);
    }
}

/// Big-endian bytes of values below `2^(8n)` compare exactly like the values.
pub proof fn lemma_be_bytes_lt(a: nat, b: nat, n: nat)
    requires
        a < b,
        b < pow2(8 * n),
    ensures
        lex_lt(be_bytes(a, n), be_bytes(b, n)),
        diverges(be_bytes(a, n), be_bytes(b, n)),
    decreases n,
{
    lemma_be_bytes_len(a, n);
    lemma_be_bytes_len(b, n);
    if n == 0 {
        assert(pow2(0) == 1) by {
            vstd::arithmetic::power2::lemma2_to64();
        }
    } else {
        let a1 = a / 256;
        let b1 = b / 256;
        lemma_fundamental_div_mod(a as int, 256);
        lemma_fundamental_div_mod(b as int, 256);
        lemma_be_bytes_len(a1, (n - 1) as nat);
        lemma_be_bytes_len(b1, (n - 1) as nat);
        if a1 == b1 {
            assert(a % 256 < b % 256);
            let ta = be_bytes(a, n);
            let tb = be_bytes(b, n);
            assert(forall|j: int| 0 <= j < n - 1 ==> ta[j] == tb[j]);
            assert(ta[n - 1] == (a % 256) as u8);
            assert(tb[n - 1] == (b % 256) as u8);
            lemma_lex_from_diff(ta, tb, n - 1);
        } else {
            lemma_div_is_ordered(a as int, b as int, 256);
            assert(a1 < b1);
            assert(b1 < pow2(8 * (n - 1) as nat)) by {
                lemma_pow2_adds(8, 8 * (n - 1) as nat);
                assert(pow2(8) == 256) by {
                    vstd::arithmetic::power2::lemma2_to64();
                }
                assert(b < 256 * pow2(8 * (n - 1) as nat));
                lemma_multiply_divide_lt(b as int, 256, pow2(8 * (n - 1) as nat) as int);
            }
            lemma_be_bytes_lt(a1, b1, (n - 1) as nat);
            lemma_lex_append_diverging(
                be_bytes(a1, (n - 1) as nat),
                be_bytes(b1, (n - 1) as nat),
                seq![(a % 256) as u8],
                seq![(b % 256) as u8],
            );
        }
        lemma_lex_same_len_diverges(be_bytes(a, n), be_bytes(b, n));
    }
}

/// Big-endian bytes depend only on the low `8n` bits of the value.
pub proof fn lemma_be_bytes_mod(v: nat, n: nat)
    ensures
        be_bytes(v, n) =~= be_bytes(v % pow2(8 * n), n),
    decreases n,
{
    if n == 0 {
        lemma_be_bytes_len(v, n);
        lemma_be_bytes_len(v % pow2(8 * n), n);
        assert(be_bytes(v, n) =~= be_bytes(v % pow2(8 * n), n));
    } else {
        let m = pow2(8 * (n - 1) as nat);
        assert(pow2(8 * n) == 256 * m) by {
            lemma_pow2_adds(8, 8 * (n - 1) as nat);
            assert(pow2(8) == 256) by {
                vstd::arithmetic::power2::lemma2_to64();
            }
        }
        lemma_pow2_pos(8 * (n - 1) as nat);
        let w = v % (256 * m);
        assert(w / 256 == (v / 256) % m && w % 256 == v % 256) by {
            vstd::arithmetic::div_mod::lemma_breakdown(v as int, 256, m as int);
            lemma_fundamental_div_mod(w as int, 256);
            assert(w == 256 * ((v / 256) % m) + v % 256);
            vstd::arithmetic::div_mod::lemma_fundamental_div_mod_converse(
                w as int,
                256,
                ((v / 256) % m) as int,
                (v % 256) as int,
            );
        }
        lemma_be_bytes_mod(v / 256, (n - 1) as nat);
        assert(be_bytes(w / 256, (n - 1) as nat) =~= be_bytes((v / 256) % m, (n - 1) as nat));
        assert(be_bytes(v / 256, (n - 1) as nat) =~= be_bytes(w / 256, (n - 1) as nat));
        assert(w == v % pow2(8 * n));
        assert(be_bytes(v, n) =~= be_bytes(w, n));
    }
}

/// Each byte of the image is a base-256 digit of the value.
pub proof fn lemma_be_bytes_index(v: nat, n: nat, i: int)
    requires
        0 <= i < n,
    ensures
        be_bytes(v, n)[i] == ((v / pow2((8 * (n - 1 - i)) as nat)) % 256) as u8,
    decreases n,
{
    lemma_be_bytes_len(v / 256, (n - 1) as nat);
    if i == n - 1 {
        assert(pow2(0) == 1) by {
            vstd::arithmetic::power2::lemma2_to64();
        }
        assert(v / 1 == v) by {
            vstd::arithmetic::div_mod::lemma_div_basics(v as int);
        }
        assert(be_bytes(v, n)[i] == (v % 256) as u8);
    } else {
        lemma_be_bytes_index(v / 256, (n - 1) as nat, i);
        let k = (8 * (n - 2 - i)) as nat;
        assert((v / 256) / pow2(k) == v / pow2((8 * (n - 1 - i)) as nat)) by {
            lemma_pow2_pos(k);
            lemma_div_denominator(v as int, 256, pow2(k) as int);
            lemma_pow2_adds(8, k);
            assert(pow2(8) == 256) by {
                vstd::arithmetic::power2::lemma2_to64();
            }
        }
    }
}


/// Complementing every byte reverses the order of byte strings that
/// disagree at a shared position.
pub proof fn lemma_complement_reverses(x: Seq<u8>, y: Seq<u8>)
    requires
        lex_lt(x, y),
        diverges(x, y),
    ensures
        lex_lt(complement(y), complement(x)),
        diverges(complement(y), complement(x)),
    decreases x.len(),
{
    let i = choose|i: int| 0 <= i < x.len() && i < y.len() && x[i] != y[i];
    assert(complement(x).len() == x.len() && complement(y).len() == y.len());
    assert(complement(y)[i] != complement(x)[i]);
    if x[0] < y[0] {
        lemma_lex_from_diff(complement(y), complement(x), 0);
    } else {
        assert(x[0] == y[0]);
        assert(i >= 1);
        let x1 = x.drop_first();
        let y1 = y.drop_first();
        assert(x1[i - 1] != y1[i - 1]);
        assert(diverges(x1, y1));
        lemma_complement_reverses(x1, y1);
        assert(complement(y).drop_first() =~= complement(y1));
        assert(complement(x).drop_first() =~= complement(x1));
        assert(complement(y)[0] == complement(x)[0]);
    }
}


} // verus!
