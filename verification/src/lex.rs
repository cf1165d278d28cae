//! Unsigned lexicographic order on byte strings, and the composition laws
//! that make concatenated field encodings sort like tuples.

use vstd::prelude::*;

verus! {

/// Strict lexicographic order on byte strings: compare byte by byte as
/// unsigned values; at the first differing position the smaller byte wins;
/// a proper prefix is less than any string that extends it.
pub open spec fn lex_lt(a: Seq<u8>, b: Seq<u8>) -> bool
    decreases a.len(),
{
    if b.len() == 0 {
        false
    } else if a.len() == 0 {
        true
    } else if a[0] < b[0] {
        true
    } else if a[0] > b[0] {
        false
    } else {
        lex_lt(a.drop_first(), b.drop_first())
    }
}

/// True when `a` and `b` disagree at some position that both of them have.
/// Encodings of distinct values of one type always diverge in this sense,
/// which is what makes them self-delimiting against a right-hand sibling.
pub open spec fn diverges(a: Seq<u8>, b: Seq<u8>) -> bool {
    exists|i: int| 0 <= i < a.len() && i < b.len() && a[i] != b[i]
}

/// The order is irreflexive.
pub proof fn lemma_lex_irrefl(a: Seq<u8>)
    ensures
        !lex_lt(a, a),
    decreases a.len(),
{
    if a.len() > 0 {
        lemma_lex_irrefl(a.drop_first());
    }
}

/// The order is total: for any two byte strings exactly one of
/// `lex_lt(a, b)`, `a == b`, `lex_lt(b, a)` holds.
pub proof fn lemma_lex_trichotomy(a: Seq<u8>, b: Seq<u8>)
    ensures
        lex_lt(a, b) || a =~= b || lex_lt(b, a),
        lex_lt(a, b) ==> !lex_lt(b, a),
        a =~= b ==> !lex_lt(a, b) && !lex_lt(b, a),
    decreases a.len(),
{
    if a =~= b {
        lemma_lex_irrefl(a);
    } else if a.len() == 0 || b.len() == 0 {
    } else if a[0] == b[0] {
        lemma_lex_trichotomy(a.drop_first(), b.drop_first());
        if a.drop_first() =~= b.drop_first() {
            assert(forall|j: int|
                1 <= j < a.len() ==> a[j] == a.drop_first()[j - 1] && b[j] == b.drop_first()[j
                    - 1]);
            assert(a =~= b);
        }
    }
}

/// A difference at position `i`, after agreement everywhere before it,
/// decides the order no matter what follows.
pub proof fn lemma_lex_from_diff(a: Seq<u8>, b: Seq<u8>, i: int)
    requires
        0 <= i < a.len(),
        i < b.len(),
        forall|j: int| 0 <= j < i ==> a[j] == b[j],
        a[i] < b[i],
    ensures
        lex_lt(a, b),
    decreases i,
{
    if i > 0 {
        assert(a[0] == b[0]);
        lemma_lex_from_diff(a.drop_first(), b.drop_first(), i - 1);
    }
}

/// A proper prefix comes before every byte string that extends it.
pub proof fn lemma_lex_proper_prefix(a: Seq<u8>, b: Seq<u8>)
    requires
        a.len() < b.len(),
        forall|j: int| 0 <= j < a.len() ==> a[j] == b[j],
    ensures
        lex_lt(a, b),
    decreases a.len(),
{
    if a.len() > 0 {
        lemma_lex_proper_prefix(a.drop_first(), b.drop_first());
    }
}

/// Two ordered byte strings of equal length disagree at a shared position.
pub proof fn lemma_lex_same_len_diverges(a: Seq<u8>, b: Seq<u8>)
    requires
        lex_lt(a, b),
        a.len() == b.len(),
    ensures
        diverges(a, b),
{
    if !diverges(a, b) {
        assert(forall|i: int| 0 <= i < a.len() ==> a[i] == b[i]);
        assert(a =~= b);
        lemma_lex_irrefl(a);
    }
}

/// Composite order, differing leading fields: once the encodings of the
/// leading fields are ordered and disagree at a shared position, any tails
/// may follow and the concatenations stay ordered.
pub proof fn lemma_lex_append_diverging(a: Seq<u8>, b: Seq<u8>, x: Seq<u8>, y: Seq<u8>)
    requires
        lex_lt(a, b),
        diverges(a, b),
    ensures
        lex_lt(a + x, b + y),
{
    let i = choose|i: int| 0 <= i < a.len() && i < b.len() && a[i] != b[i];
    let k = first_diff(a, b);
    lemma_first_diff(a, b, i);
    assert((a + x)[k] == a[k]);
    assert((b + y)[k] == b[k]);
    assert(forall|j: int| 0 <= j < k ==> (a + x)[j] == a[j] && (b + y)[j] == b[j]);
    lemma_lex_decided_at_first_diff(a, b, k);
    lemma_lex_from_diff(a + x, b + y, k);
}

/// A disagreement between two byte strings survives appending anything to
/// either of them.
pub proof fn lemma_diverges_append(a: Seq<u8>, b: Seq<u8>, x: Seq<u8>, y: Seq<u8>)
    requires
        diverges(a, b),
    ensures
        diverges(a + x, b + y),
{
    let i = choose|i: int| 0 <= i < a.len() && i < b.len() && a[i] != b[i];
    assert((a + x)[i] == a[i]);
    assert((b + y)[i] == b[i]);
    assert(diverges(a + x, b + y));
}

/// Disagreement is symmetric.
pub proof fn lemma_diverges_sym(a: Seq<u8>, b: Seq<u8>)
    requires
        diverges(a, b),
    ensures
        diverges(b, a),
{
    let i = choose|i: int| 0 <= i < a.len() && i < b.len() && a[i] != b[i];
    assert(0 <= i < b.len() && i < a.len() && b[i] != a[i]);
}

/// A disagreement between two byte strings survives prefixing both with one
/// shared prefix.
pub proof fn lemma_diverges_same_prefix(p: Seq<u8>, x: Seq<u8>, y: Seq<u8>)
    requires
        diverges(x, y),
    ensures
        diverges(p + x, p + y),
{
    let i = choose|i: int| 0 <= i < x.len() && i < y.len() && x[i] != y[i];
    assert((p + x)[p.len() + i] == x[i]);
    assert((p + y)[p.len() + i] == y[i]);
    assert(diverges(p + x, p + y));
}

/// Composite order, equal leading fields: after a shared prefix the order of
/// the concatenations is the order of the tails.
pub proof fn lemma_lex_append_same_prefix(p: Seq<u8>, a: Seq<u8>, b: Seq<u8>)
    ensures
        lex_lt(p + a, p + b) <==> lex_lt(a, b),
    decreases p.len(),
{
    if p.len() == 0 {
        assert(p + a =~= a);
        assert(p + b =~= b);
    } else {
        assert((p + a).drop_first() =~= p.drop_first() + a);
        assert((p + b).drop_first() =~= p.drop_first() + b);
        lemma_lex_append_same_prefix(p.drop_first(), a, b);
    }
}

/// The position of the first disagreement between `a` and `b`, assuming one
/// exists at a position both strings have.
spec fn first_diff(a: Seq<u8>, b: Seq<u8>) -> int
    decreases a.len(),
{
    if a.len() == 0 || b.len() == 0 {
        0
    } else if a[0] != b[0] {
        0
    } else {
        1 + first_diff(a.drop_first(), b.drop_first())
    }
}

proof fn lemma_first_diff(a: Seq<u8>, b: Seq<u8>, i: int)
    requires
        0 <= i < a.len(),
        i < b.len(),
        a[i] != b[i],
    ensures
        0 <= first_diff(a, b) <= i,
        a[first_diff(a, b)] != b[first_diff(a, b)],
        forall|j: int| 0 <= j < first_diff(a, b) ==> a[j] == b[j],
    decreases i,
{
    if a[0] != b[0] {
    } else {
        lemma_first_diff(a.drop_first(), b.drop_first(), i - 1);
        let k = first_diff(a.drop_first(), b.drop_first());
        assert(a[k + 1] == a.drop_first()[k]);
        assert(forall|j: int| 1 <= j < k + 1 ==> a[j] == a.drop_first()[j - 1] && b[j]
            == b.drop_first()[j - 1]);
    }
}

proof fn lemma_lex_decided_at_first_diff(a: Seq<u8>, b: Seq<u8>, k: int)
    requires
        lex_lt(a, b),
        0 <= k < a.len(),
        k < b.len(),
        a[k] != b[k],
        forall|j: int| 0 <= j < k ==> a[j] == b[j],
    ensures
        a[k] < b[k],
    decreases k,
{
    if k > 0 {
        assert(forall|j: int| 0 <= j < k - 1 ==> a.drop_first()[j] == b.drop_first()[j]);
        lemma_lex_decided_at_first_diff(a.drop_first(), b.drop_first(), k - 1);
    }
}

} // verus!
