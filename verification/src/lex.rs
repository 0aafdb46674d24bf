//! Lexicographic order and longest-common-prefix length on sequences of
//! bucket indices. Every ordering claim that the suffix-array engine makes is
//! stated in terms of these two spec functions.

use vstd::prelude::*;

verus! {

/// Strict lexicographic order: `a` comes strictly before `b`.
pub open spec fn lex_less(a: Seq<int>, b: Seq<int>) -> bool
    decreases b.len(),
{
    if b.len() == 0 {
        false
    } else if a.len() == 0 {
        true
    } else if a[0] < b[0] {
        true
    } else if a[0] > b[0] {
        false
    } else {
        lex_less(a.skip(1), b.skip(1))
    }
}

/// Length of the longest common prefix of `a` and `b`.
pub open spec fn lcp_seq(a: Seq<int>, b: Seq<int>) -> nat
    decreases a.len(),
{
    if a.len() == 0 || b.len() == 0 {
        0
    } else if a[0] != b[0] {
        0
    } else {
        (1 + lcp_seq(a.skip(1), b.skip(1))) as nat
    }
}

/// The order is irreflexive.
pub proof fn lemma_lex_irrefl(a: Seq<int>)
    ensures
        !lex_less(a, a),
    decreases a.len(),
{
    if a.len() > 0 {
        lemma_lex_irrefl(a.skip(1));
    }
}

/// The order is transitive.
pub proof fn lemma_lex_trans(a: Seq<int>, b: Seq<int>, c: Seq<int>)
    requires
        lex_less(a, b),
        lex_less(b, c),
    ensures
        lex_less(a, c),
    decreases c.len(),
{
    if a.len() > 0 && b.len() > 0 && c.len() > 0 && a[0] == b[0] && b[0] == c[0] {
        lemma_lex_trans(a.skip(1), b.skip(1), c.skip(1));
    }
}

/// The order is asymmetric.
pub proof fn lemma_lex_asym(a: Seq<int>, b: Seq<int>)
    requires
        lex_less(a, b),
    ensures
        !lex_less(b, a),
{
    if lex_less(b, a) {
        lemma_lex_trans(a, b, a);
        lemma_lex_irrefl(a);
    }
}

/// How the order is decided at the first index where `a` and `b` differ:
/// if the two agree on their first `k` elements, then a smaller element at
/// `k` (or `a` running out first) puts `a` strictly before `b`, and `b`
/// running out (including both running out) rules `lex_less(a, b)` out.
pub proof fn lemma_lex_first_diff(a: Seq<int>, b: Seq<int>, k: int)
    requires
        0 <= k <= a.len(),
        k <= b.len(),
        forall|j: int| 0 <= j < k ==> a[j] == b[j],
    ensures
        (k < a.len() && k < b.len() && a[k] < b[k]) ==> lex_less(a, b),
        (k == a.len() && k < b.len()) ==> lex_less(a, b),
        k == b.len() ==> !lex_less(a, b),
    decreases k,
{
    if k == 0 {
    } else {
        assert(a[0] == b[0]);
        lemma_lex_first_diff(a.skip(1), b.skip(1), k - 1);
        assert(forall|j: int| 0 <= j < k - 1 ==> a.skip(1)[j] == a[j + 1]);
        assert(forall|j: int| 0 <= j < k - 1 ==> b.skip(1)[j] == b[j + 1]);
        if k < a.len() && k < b.len() && a[k] < b[k] {
            assert(a.skip(1)[k - 1] == a[k]);
            assert(b.skip(1)[k - 1] == b[k]);
            assert(lex_less(a.skip(1), b.skip(1)));
        }
    }
}

/// What `lcp_seq` means index by index: it never exceeds either length, the
/// two sequences agree below it, and differ at it unless one has ended.
pub proof fn lemma_lcp_props(a: Seq<int>, b: Seq<int>)
    ensures
        lcp_seq(a, b) <= a.len(),
        lcp_seq(a, b) <= b.len(),
        forall|j: int| 0 <= j < lcp_seq(a, b) ==> a[j] == b[j],
        (lcp_seq(a, b) < a.len() && lcp_seq(a, b) < b.len()) ==> a[lcp_seq(a, b) as int] != b[lcp_seq(a, b) as int],
    decreases a.len(),
{
    if a.len() == 0 || b.len() == 0 {
    } else if a[0] != b[0] {
    } else {
        lemma_lcp_props(a.skip(1), b.skip(1));
        let l = lcp_seq(a, b) as int;
        assert(l == 1 + lcp_seq(a.skip(1), b.skip(1)));
        assert forall|j: int| 0 <= j < l implies a[j] == b[j] by {
            if j > 0 {
                assert(a.skip(1)[j - 1] == a[j]);
                assert(b.skip(1)[j - 1] == b[j]);
            }
        }
        if l < a.len() && l < b.len() {
            assert(a.skip(1)[l - 1] == a[l]);
            assert(b.skip(1)[l - 1] == b[l]);
        }
    }
}

} // verus!
