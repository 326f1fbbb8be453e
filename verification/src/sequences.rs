//! Lists of which some elements are left out.

use vstd::prelude::*;

verus! {

/// Whether `a` is `b` with some elements left out, the others in their order.
pub open spec fn subsequence(a: Seq<Seq<char>>, b: Seq<Seq<char>>) -> bool
    decreases b.len(),
{
    if a.len() == 0 {
        true
    } else if b.len() == 0 {
        false
    } else {
        (a.last() == b.last() && subsequence(a.drop_last(), b.drop_last())) || subsequence(
            a,
            b.drop_last(),
        )
    }
}

/// What is left of a part of `b` is left of `b`.
pub proof fn lemma_subsequence_more(a: Seq<Seq<char>>, b: Seq<Seq<char>>, k: int)
    requires
        0 <= k <= b.len(),
        subsequence(a, b.take(k)),
    ensures
        subsequence(a, b),
    decreases b.len() - k,
{
    if k == b.len() {
        assert(b.take(k) =~= b);
    } else {
        assert(b.take(k + 1).drop_last() =~= b.take(k));
        lemma_subsequence_more(a, b, k + 1);
    }
}

/// Every list is a subsequence of itself.
pub proof fn lemma_subsequence_reflexive(a: Seq<Seq<char>>)
    ensures
        subsequence(a, a),
    decreases a.len(),
{
    if a.len() > 0 {
        lemma_subsequence_reflexive(a.drop_last());
    }
}

/// A subsequence of a subsequence is a subsequence.
pub proof fn lemma_subsequence_transitive(
    a: Seq<Seq<char>>,
    b: Seq<Seq<char>>,
    c: Seq<Seq<char>>,
)
    requires
        subsequence(a, b),
        subsequence(b, c),
    ensures
        subsequence(a, c),
    decreases c.len(),
{
    if a.len() > 0 {
        if b.last() == c.last() && subsequence(b.drop_last(), c.drop_last()) {
            if a.last() == b.last() && subsequence(a.drop_last(), b.drop_last()) {
                lemma_subsequence_transitive(a.drop_last(), b.drop_last(), c.drop_last());
            } else {
                lemma_subsequence_transitive(a, b.drop_last(), c.drop_last());
            }
        } else {
            lemma_subsequence_transitive(a, b, c.drop_last());
        }
    }
}

/// Leaving out a run leaves a subsequence.
pub proof fn lemma_without_range(b: Seq<Seq<char>>, from: int, to: int)
    requires
        0 <= from <= to <= b.len(),
    ensures
        subsequence(b.take(from) + b.skip(to), b),
    decreases b.len(),
{
    let a = b.take(from) + b.skip(to);
    if to == b.len() {
        assert(a =~= b.take(from));
        lemma_subsequence_reflexive(a);
        lemma_subsequence_more(a, b, from);
    } else {
        lemma_without_range(b.drop_last(), from, to);
        assert(a.drop_last() =~= b.drop_last().take(from) + b.drop_last().skip(to));
        assert(a.last() == b.last());
    }
}

/// A first element may be put before `b`, and before `a` too.
pub proof fn lemma_subsequence_prepend(x: Seq<char>, a: Seq<Seq<char>>, b: Seq<Seq<char>>)
    requires
        subsequence(a, b),
    ensures
        subsequence(seq![x] + a, seq![x] + b),
        subsequence(a, seq![x] + b),
    decreases b.len(),
{
    let xa = seq![x] + a;
    let xb = seq![x] + b;
    if b.len() == 0 {
        assert(a.len() == 0);
        assert(xa =~= xb);
        lemma_subsequence_reflexive(xb);
    } else {
        assert(xb.drop_last() =~= seq![x] + b.drop_last());
        if a.len() == 0 {
            lemma_subsequence_prepend(x, a, b.drop_last());
        } else {
            assert(xa.drop_last() =~= seq![x] + a.drop_last());
            if a.last() == b.last() && subsequence(a.drop_last(), b.drop_last()) {
                lemma_subsequence_prepend(x, a.drop_last(), b.drop_last());
            } else {
                lemma_subsequence_prepend(x, a, b.drop_last());
            }
        }
    }
}

/// A part of a list is no longer than the list.
pub proof fn lemma_subsequence_len(a: Seq<Seq<char>>, b: Seq<Seq<char>>)
    requires
        subsequence(a, b),
    ensures
        a.len() <= b.len(),
    decreases b.len(),
{
    if a.len() > 0 {
        if a.last() == b.last() && subsequence(a.drop_last(), b.drop_last()) {
            lemma_subsequence_len(a.drop_last(), b.drop_last());
        } else {
            lemma_subsequence_len(a, b.drop_last());
        }
    }
}

} // verus!
