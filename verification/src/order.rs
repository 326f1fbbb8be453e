//! The order of texts, and sorting by it.

use crate::text::{texts, to_chars};
use vstd::prelude::*;

verus! {

/// Whether `a` does not come after `b`, character by character.
pub open spec fn text_le(a: Seq<char>, b: Seq<char>) -> bool
    decreases a.len(),
{
    a.len() == 0 || (b.len() > 0 && (a[0] < b[0] || (a[0] == b[0] && text_le(a.skip(1), b.skip(1)))))
}

/// Whether `a` comes before `b`.
pub open spec fn text_lt(a: Seq<char>, b: Seq<char>) -> bool {
    text_le(a, b) && a != b
}

/// Every text is at most itself.
pub proof fn lemma_le_reflexive(a: Seq<char>)
    ensures
        text_le(a, a),
    decreases a.len(),
{
    if a.len() > 0 {
        lemma_le_reflexive(a.skip(1));
    }
}

/// Of two texts one is at most the other.
pub proof fn lemma_le_total(a: Seq<char>, b: Seq<char>)
    ensures
        text_le(a, b) || text_le(b, a),
    decreases a.len(),
{
    if a.len() > 0 && b.len() > 0 && a[0] == b[0] {
        lemma_le_total(a.skip(1), b.skip(1));
    }
}

/// Two texts that are at most one another are equal.
pub proof fn lemma_le_antisymmetric(a: Seq<char>, b: Seq<char>)
    requires
        text_le(a, b),
        text_le(b, a),
    ensures
        a == b,
    decreases a.len(),
{
    if a.len() > 0 {
        lemma_le_antisymmetric(a.skip(1), b.skip(1));
        assert(a =~= seq![a[0]] + a.skip(1));
        assert(b =~= seq![b[0]] + b.skip(1));
    } else {
        assert(a =~= b);
    }
}

/// The order is transitive.
pub proof fn lemma_le_transitive(a: Seq<char>, b: Seq<char>, c: Seq<char>)
    requires
        text_le(a, b),
        text_le(b, c),
    ensures
        text_le(a, c),
    decreases a.len(),
{
    if a.len() > 0 && a[0] == b[0] && b[0] == c[0] {
        lemma_le_transitive(a.skip(1), b.skip(1), c.skip(1));
    }
}

/// Whether `a` comes before `b`.
pub fn str_lt(a: &str, b: &str) -> (res: bool)
    ensures
        res == text_lt(a@, b@),
{
    let v = to_chars(a);
    let w = to_chars(b);
    let mut i: usize = 0;
    assert(v@.skip(0) =~= a@);
    assert(w@.skip(0) =~= b@);
    while i < v.len()
        invariant
            v@ == a@,
            w@ == b@,
            i <= v.len(),
            i <= w.len(),
            text_le(a@, b@) == text_le(v@.skip(i as int), w@.skip(i as int)),
            v@.take(i as int) == w@.take(i as int),
        decreases v.len() - i,
    {
        let ghost p = v@.skip(i as int);
        let ghost q = w@.skip(i as int);
        if i >= w.len() {
            return false;
        }
        if v[i] < w[i] {
            assert(p[0] < q[0]);
            return true;
        }
        if v[i] != w[i] {
            return false;
        }
        proof {
            assert(p.skip(1) =~= v@.skip(i + 1));
            assert(q.skip(1) =~= w@.skip(i + 1));
            assert(v@.take(i + 1) =~= v@.take(i as int).push(v@[i as int]));
            assert(w@.take(i + 1) =~= w@.take(i as int).push(w@[i as int]));
        }
        i += 1;
    }
    proof {
        assert(v@.take(v.len() as int) =~= v@);
        if v.len() == w.len() {
            assert(w@.take(v.len() as int) =~= w@);
        }
    }
    v.len() < w.len()
}

/// Whether a list of texts is in ascending order.
pub open spec fn ascending(v: Seq<Seq<char>>) -> bool {
    forall|i: int, j: int| 0 <= i < j < v.len() ==> text_le(#[trigger] v[i], #[trigger] v[j])
}

/// Whether a list of texts is in ascending order and holds none twice.
pub open spec fn strictly_ascending(v: Seq<Seq<char>>) -> bool {
    forall|i: int, j: int| 0 <= i < j < v.len() ==> text_lt(#[trigger] v[i], #[trigger] v[j])
}

/// Two ascending lists of the same texts are equal.
pub proof fn lemma_ascending_unique(a: Seq<Seq<char>>, b: Seq<Seq<char>>)
    requires
        ascending(a),
        ascending(b),
        a.to_multiset() == b.to_multiset(),
    ensures
        a == b,
{
    let leq = |x: Seq<char>, y: Seq<char>| text_le(x, y);
    assert(vstd::relations::total_ordering(leq)) by {
        assert forall|x: Seq<char>| #[trigger] leq(x, x) by {
            lemma_le_reflexive(x);
        }
        assert forall|x: Seq<char>, y: Seq<char>| #[trigger]
            leq(x, y) && #[trigger] leq(y, x) implies x == y by {
            lemma_le_antisymmetric(x, y);
        }
        assert forall|x: Seq<char>, y: Seq<char>, z: Seq<char>| #[trigger]
            leq(x, y) && #[trigger] leq(y, z) implies leq(x, z) by {
            lemma_le_transitive(x, y, z);
        }
        assert forall|x: Seq<char>, y: Seq<char>| #[trigger] leq(x, y) || #[trigger] leq(y, x) by {
            lemma_le_total(x, y);
        }
    }
    assert(vstd::relations::sorted_by(a, leq));
    assert(vstd::relations::sorted_by(b, leq));
    vstd::seq_lib::lemma_sorted_unique(a, b, leq);
}

/// Two strictly ascending lists with the same members are equal: to be one of them
/// says all of a list.
pub proof fn theorem_strictly_ascending_is_unique(a: Seq<Seq<char>>, b: Seq<Seq<char>>)
    requires
        strictly_ascending(a),
        strictly_ascending(b),
        a.to_set() == b.to_set(),
    ensures
        a == b,
{
    assert(a.no_duplicates());
    assert(b.no_duplicates());
    assert forall|x: Seq<char>| a.to_multiset().count(x) == b.to_multiset().count(x) by {
        a.lemma_multiset_has_no_duplicates();
        b.lemma_multiset_has_no_duplicates();
        broadcast use vstd::seq_lib::group_to_multiset_ensures;
        assert(a.contains(x) == a.to_set().contains(x));
        assert(b.contains(x) == b.to_set().contains(x));
        assert(a.contains(x) <==> a.to_multiset().count(x) > 0);
        assert(b.contains(x) <==> b.to_multiset().count(x) > 0);
        assert(a.to_multiset().contains(x) ==> a.to_multiset().count(x) == 1);
        assert(b.to_multiset().contains(x) ==> b.to_multiset().count(x) == 1);
    }
    assert(a.to_multiset() =~= b.to_multiset());
    lemma_ascending_unique(a, b);
}

/// The number of leading elements of an ascending list that come before `s`.
fn lower_bound(v: &Vec<String>, s: &str) -> (res: usize)
    requires
        ascending(texts(v@)),
    ensures
        res <= v.len(),
        forall|i: int| 0 <= i < res ==> text_lt(#[trigger] texts(v@)[i], s@),
        forall|i: int| res <= i < v.len() ==> text_le(s@, #[trigger] texts(v@)[i]),
{
    let mut lo: usize = 0;
    let mut hi: usize = v.len();
    while lo < hi
        invariant
            lo <= hi <= v.len(),
            ascending(texts(v@)),
            forall|i: int| 0 <= i < lo ==> text_lt(#[trigger] texts(v@)[i], s@),
            forall|i: int| hi <= i < v.len() ==> text_le(s@, #[trigger] texts(v@)[i]),
        decreases hi - lo,
    {
        let mid: usize = lo + (hi - lo) / 2;
        let ghost m = texts(v@)[mid as int];
        if str_lt(v[mid].as_str(), s) {
            proof {
                assert forall|i: int| 0 <= i < mid + 1 implies text_lt(
                    #[trigger] texts(v@)[i],
                    s@,
                ) by {
                    if i < mid {
                        lemma_le_transitive(texts(v@)[i], m, s@);
                        if texts(v@)[i] == s@ {
                            lemma_le_antisymmetric(m, s@);
                        }
                    }
                }
            }
            lo = mid + 1;
        } else {
            proof {
                lemma_le_total(m, s@);
                lemma_le_reflexive(s@);
                assert(text_le(s@, m));
                assert forall|i: int| mid <= i < v.len() implies text_le(
                    s@,
                    #[trigger] texts(v@)[i],
                ) by {
                    if i > mid {
                        lemma_le_transitive(s@, m, texts(v@)[i]);
                    }
                }
            }
            hi = mid;
        }
    }
    lo
}

/// Puts a text where it belongs in an ascending list.
fn insert_sorted(v: &mut Vec<String>, s: String)
    requires
        ascending(texts(old(v)@)),
    ensures
        ascending(texts(final(v)@)),
        texts(final(v)@).to_multiset() == texts(old(v)@).to_multiset().insert(s@),
{
    let at = lower_bound(v, s.as_str());
    let ghost before = texts(v@);
    v.insert(at, s);
    proof {
        assert(texts(v@) =~= before.insert(at as int, s@));
        broadcast use vstd::seq_lib::group_to_multiset_ensures;
        assert(before.insert(at as int, s@).to_multiset() == before.to_multiset().insert(s@));
        assert forall|i: int, j: int| 0 <= i < j < v.len() implies text_le(
            #[trigger] texts(v@)[i],
            #[trigger] texts(v@)[j],
        ) by {
            lemma_le_reflexive(s@);
            if i < at && j > at {
                assert(texts(v@)[j] == before[j - 1]);
            }
        }
    }
}

/// Sorts texts in ascending order.
pub fn sort_texts(v: &[String]) -> (res: Vec<String>)
    ensures
        ascending(texts(res@)),
        texts(res@).to_multiset() == texts(v@).to_multiset(),
{
    let mut out: Vec<String> = Vec::new();
    let mut i: usize = 0;
    assert(texts(out@) =~= texts(v@).take(0));
    while i < v.len()
        invariant
            0 <= i <= v.len(),
            ascending(texts(out@)),
            texts(out@).to_multiset() == texts(v@).take(i as int).to_multiset(),
        decreases v.len() - i,
    {
        insert_sorted(&mut out, v[i].clone());
        proof {
            broadcast use vstd::seq_lib::group_to_multiset_ensures;
            assert(texts(v@).take(i + 1) =~= texts(v@).take(i as int).push(v@[i as int]@));
        }
        i += 1;
    }
    assert(texts(v@).take(v.len() as int) =~= texts(v@));
    out
}

/// Texts are ordered by their first difference, character by character, and a text comes
/// before those that go on from it.
pub proof fn theorem_first_difference_orders(
    p: Seq<char>,
    x: char,
    a: Seq<char>,
    y: char,
    b: Seq<char>,
)
    ensures
        x < y ==> text_lt(p + seq![x] + a, p + seq![y] + b),
        x > y ==> !text_le(p + seq![x] + a, p + seq![y] + b),
        text_lt(p, p + seq![x] + a),
    decreases p.len(),
{
    let s = p + seq![x] + a;
    let t = p + seq![y] + b;
    assert(s[p.len() as int] == x && t[p.len() as int] == y);
    if p.len() > 0 {
        assert(s.skip(1) =~= p.skip(1) + seq![x] + a);
        assert(t.skip(1) =~= p.skip(1) + seq![y] + b);
        theorem_first_difference_orders(p.skip(1), x, a, y, b);
    }
}

} // verus!
