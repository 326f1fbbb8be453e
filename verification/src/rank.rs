//! Ranking the items of a list by a key, without moving them.

use crate::ordered_map::OrderedKey;
use vstd::prelude::*;

verus! {

/// A number that orders backwards: the largest comes first.
#[derive(Clone, Copy, Debug, PartialEq, Eq, Structural)]
pub struct Down {
    pub key: i64,
}

impl OrderedKey for Down {
    type Model = int;

    open spec fn model(&self) -> int {
        self.key as int
    }

    open spec fn before(a: int, b: int) -> bool {
        a > b
    }

    proof fn lemma_irreflexive(a: int) {
    }

    proof fn lemma_transitive(a: int, b: int, c: int) {
    }

    proof fn lemma_total(a: int, b: int) {
    }

    fn is_before(&self, other: &Self) -> (res: bool) {
        self.key > other.key
    }
}

impl OrderedKey for u64 {
    type Model = u64;

    open spec fn model(&self) -> u64 {
        *self
    }

    open spec fn before(a: u64, b: u64) -> bool {
        a < b
    }

    proof fn lemma_irreflexive(a: u64) {
    }

    proof fn lemma_transitive(a: u64, b: u64, c: u64) {
    }

    proof fn lemma_total(a: u64, b: u64) {
    }

    fn is_before(&self, other: &Self) -> (res: bool) {
        *self < *other
    }
}

impl<A: OrderedKey, B: OrderedKey> OrderedKey for (A, B) {
    type Model = (A::Model, B::Model);

    open spec fn model(&self) -> (A::Model, B::Model) {
        (self.0.model(), self.1.model())
    }

    open spec fn before(a: (A::Model, B::Model), b: (A::Model, B::Model)) -> bool {
        A::before(a.0, b.0) || (a.0 == b.0 && B::before(a.1, b.1))
    }

    proof fn lemma_irreflexive(a: (A::Model, B::Model)) {
        A::lemma_irreflexive(a.0);
        B::lemma_irreflexive(a.1);
    }

    proof fn lemma_transitive(
        a: (A::Model, B::Model),
        b: (A::Model, B::Model),
        c: (A::Model, B::Model),
    ) {
        if A::before(a.0, b.0) && A::before(b.0, c.0) {
            A::lemma_transitive(a.0, b.0, c.0);
        }
        if B::before(a.1, b.1) && B::before(b.1, c.1) {
            B::lemma_transitive(a.1, b.1, c.1);
        }
    }

    proof fn lemma_total(a: (A::Model, B::Model), b: (A::Model, B::Model)) {
        A::lemma_total(a.0, b.0);
        B::lemma_total(a.1, b.1);
    }

    fn is_before(&self, other: &Self) -> (res: bool) {
        if self.0.is_before(&other.0) {
            true
        } else if other.0.is_before(&self.0) {
            proof {
                A::lemma_irreflexive(self.0.model());
            }
            false
        } else {
            proof {
                A::lemma_total(self.0.model(), other.0.model());
                A::lemma_irreflexive(self.0.model());
            }
            self.1.is_before(&other.1)
        }
    }
}

/// What the keys of a list stand for.
pub open spec fn models<K: OrderedKey>(keys: Seq<K>) -> Seq<K::Model> {
    Seq::new(keys.len(), |i: int| keys[i].model())
}

/// Whether the item at `a` is ranked before the one at `b`: by key, and by
/// position where the keys are the same.
pub open spec fn ahead<K: OrderedKey>(keys: Seq<K::Model>, a: int, b: int) -> bool {
    K::before(keys[a], keys[b]) || (keys[a] == keys[b] && a < b)
}

/// Whether `order` lists the positions of all items, each before those that it
/// is ranked before.
pub open spec fn ranked<K: OrderedKey>(order: Seq<int>, keys: Seq<K::Model>) -> bool {
    &&& order.len() == keys.len()
    &&& forall|i: int| 0 <= i < order.len() ==> 0 <= #[trigger] order[i] < keys.len()
    &&& forall|i: int, j: int|
        0 <= i < j < order.len() ==> #[trigger] ahead::<K>(keys, order[i], order[j])
}

/// The positions in a list of machine integers, as integers.
pub open spec fn positions(order: Seq<usize>) -> Seq<int> {
    Seq::new(order.len(), |i: int| order[i] as int)
}

proof fn lemma_ahead_antisymmetric<K: OrderedKey>(keys: Seq<K::Model>, a: int, b: int)
    requires
        ahead::<K>(keys, a, b),
    ensures
        !ahead::<K>(keys, b, a),
        a != b,
{
    K::lemma_irreflexive(keys[a]);
    if K::before(keys[a], keys[b]) && K::before(keys[b], keys[a]) {
        K::lemma_transitive(keys[a], keys[b], keys[a]);
    }
}

/// A ranking holds every position, and each once.
pub proof fn theorem_ranking_is_a_permutation<K: OrderedKey>(order: Seq<int>, keys: Seq<K::Model>)
    requires
        ranked::<K>(order, keys),
    ensures
        order.no_duplicates(),
        forall|k: int| 0 <= k < keys.len() ==> #[trigger] order.contains(k),
{
    assert forall|i: int, j: int| 0 <= i < order.len() && 0 <= j < order.len() && i != j implies
        order[i] != order[j] by {
        if i < j {
            assert(ahead::<K>(keys, order[i], order[j]));
            lemma_ahead_antisymmetric::<K>(keys, order[i], order[j]);
        } else {
            assert(ahead::<K>(keys, order[j], order[i]));
            lemma_ahead_antisymmetric::<K>(keys, order[j], order[i]);
        }
    }
    let n = keys.len() as int;
    let range = vstd::set_lib::set_int_range(0, n);
    vstd::set_lib::lemma_int_range(0, n);
    order.unique_seq_to_set();
    assert(order.to_set().subset_of(range)) by {
        assert forall|x: int| order.to_set().contains(x) implies range.contains(x) by {
            let i = choose|i: int| 0 <= i < order.len() && order[i] == x;
            assert(0 <= order[i] < n);
        }
    }
    vstd::set_lib::lemma_subset_equality(order.to_set(), range);
    assert forall|k: int| 0 <= k < n implies #[trigger] order.contains(k) by {
        assert(range.contains(k));
        assert(order.to_set().contains(k));
    }
}

/// There is one ranking.
pub proof fn theorem_ranking_is_unique<K: OrderedKey>(
    a: Seq<int>,
    b: Seq<int>,
    keys: Seq<K::Model>,
)
    requires
        ranked::<K>(a, keys),
        ranked::<K>(b, keys),
    ensures
        a == b,
{
    theorem_ranking_is_a_permutation::<K>(a, keys);
    theorem_ranking_is_a_permutation::<K>(b, keys);
    assert forall|i: int| 0 <= i < a.len() implies a[i] == b[i] by {
        lemma_same_place::<K>(a, b, keys, i);
    }
    assert(a =~= b);
}

proof fn lemma_same_place<K: OrderedKey>(a: Seq<int>, b: Seq<int>, keys: Seq<K::Model>, i: int)
    requires
        ranked::<K>(a, keys),
        ranked::<K>(b, keys),
        a.no_duplicates(),
        b.no_duplicates(),
        forall|k: int| 0 <= k < keys.len() ==> #[trigger] a.contains(k),
        forall|k: int| 0 <= k < keys.len() ==> #[trigger] b.contains(k),
        0 <= i < a.len(),
    ensures
        a[i] == b[i],
    decreases i,
{
    let x = a[i];
    let y = b[i];
    assert(b.contains(x));
    assert(a.contains(y));
    let j = choose|j: int| 0 <= j < b.len() && b[j] == x;
    let k = choose|k: int| 0 <= k < a.len() && a[k] == y;
    if j < i {
        lemma_same_place::<K>(a, b, keys, j);
        assert(a[j] == a[i]);
    } else if k < i {
        lemma_same_place::<K>(a, b, keys, k);
        assert(b[k] == b[i]);
    } else if j > i && k > i {
        assert(ahead::<K>(keys, b[i], b[j]));
        assert(ahead::<K>(keys, a[i], a[k]));
        lemma_ahead_antisymmetric::<K>(keys, x, y);
    }
}

/// Ranks the items of a list by their keys; equal keys keep their order.
pub fn rank<K: OrderedKey>(keys: &[K]) -> (res: Vec<usize>)
    ensures
        ranked::<K>(positions(res@), models(keys@)),
{
    let ghost all = models(keys@);
    let mut order: Vec<usize> = Vec::new();
    let mut n: usize = 0;
    while n < keys.len()
        invariant
            n <= keys.len(),
            all == models(keys@),
            order.len() == n,
            forall|i: int| 0 <= i < order.len() ==> #[trigger] order@[i] < n,
            forall|i: int, j: int|
                0 <= i < j < order.len() ==> #[trigger] ahead::<K>(
                    all,
                    order@[i] as int,
                    order@[j] as int,
                ),
        decreases keys.len() - n,
    {
        let mut at: usize = n;
        while at > 0 && keys[n].is_before(&keys[order[at - 1]])
            invariant
                n < keys.len(),
                at <= n,
                order.len() == n,
                all == models(keys@),
                forall|i: int| 0 <= i < order.len() ==> #[trigger] order@[i] < n,
                forall|i: int|
                    at <= i < order.len() ==> K::before(all[n as int], all[#[trigger] order@[i] as int]),
            decreases at,
        {
            at -= 1;
        }
        let ghost before = order@;
        order.insert(at, n);
        proof {
            assert forall|i: int| 0 <= i < at implies #[trigger] ahead::<K>(
                all,
                before[i] as int,
                n as int,
            ) by {
                let last = before[at - 1] as int;
                K::lemma_total(all[last], all[n as int]);
                assert(ahead::<K>(all, last, n as int));
                if i < at - 1 {
                    assert(ahead::<K>(all, before[i] as int, last));
                    if K::before(all[before[i] as int], all[last]) && K::before(
                        all[last],
                        all[n as int],
                    ) {
                        K::lemma_transitive(all[before[i] as int], all[last], all[n as int]);
                    }
                }
            }
            assert forall|i: int, j: int| 0 <= i < j < order.len() implies #[trigger] ahead::<K>(
                all,
                order@[i] as int,
                order@[j] as int,
            ) by {
                if j == at {
                    assert(ahead::<K>(all, before[i] as int, n as int));
                } else if i == at {
                    assert(order@[j] == before[j - 1]);
                } else {
                    let a = if i < at {
                        i
                    } else {
                        i - 1
                    };
                    let b = if j < at {
                        j
                    } else {
                        j - 1
                    };
                    assert(ahead::<K>(all, before[a] as int, before[b] as int));
                }
            }
            assert forall|i: int| 0 <= i < order.len() implies #[trigger] order@[i] < n + 1 by {
                if i < at {
                    assert(order@[i] == before[i]);
                } else if i > at {
                    assert(order@[i] == before[i - 1]);
                }
            }
        }
        n += 1;
    }
    proof {
        let p = positions(order@);
        assert forall|i: int, j: int| 0 <= i < j < p.len() implies #[trigger] ahead::<K>(
            all,
            p[i],
            p[j],
        ) by {
            assert(ahead::<K>(all, order@[i] as int, order@[j] as int));
        }
    }
    order
}

} // verus!
