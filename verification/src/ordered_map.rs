//! A map kept as a list in ascending order of its keys, and a set likewise.

use crate::order::{
    lemma_le_antisymmetric, lemma_le_reflexive, lemma_le_total, lemma_le_transitive, str_lt,
    text_lt,
};
use vstd::prelude::*;

verus! {

/// A type with a total order, told apart by a model.
pub trait OrderedKey: Sized {
    /// What a key stands for.
    type Model;

    /// What this key stands for.
    spec fn model(&self) -> Self::Model;

    /// Whether one comes before another.
    spec fn before(a: Self::Model, b: Self::Model) -> bool;

    /// Nothing comes before itself.
    proof fn lemma_irreflexive(a: Self::Model)
        ensures
            !Self::before(a, a),
    ;

    /// The order is transitive.
    proof fn lemma_transitive(a: Self::Model, b: Self::Model, c: Self::Model)
        requires
            Self::before(a, b),
            Self::before(b, c),
        ensures
            Self::before(a, c),
    ;

    /// Of two different ones, one comes first.
    proof fn lemma_total(a: Self::Model, b: Self::Model)
        ensures
            a == b || Self::before(a, b) || Self::before(b, a),
    ;

    /// Whether this key comes before another.
    fn is_before(&self, other: &Self) -> (res: bool)
        ensures
            res == Self::before(self.model(), other.model()),
    ;
}

impl OrderedKey for String {
    type Model = Seq<char>;

    open spec fn model(&self) -> Seq<char> {
        self@
    }

    open spec fn before(a: Seq<char>, b: Seq<char>) -> bool {
        text_lt(a, b)
    }

    proof fn lemma_irreflexive(a: Seq<char>) {
    }

    proof fn lemma_transitive(a: Seq<char>, b: Seq<char>, c: Seq<char>) {
        lemma_le_transitive(a, b, c);
        if a == c {
            lemma_le_antisymmetric(a, b);
        }
    }

    proof fn lemma_total(a: Seq<char>, b: Seq<char>) {
        lemma_le_total(a, b);
        lemma_le_reflexive(a);
    }

    fn is_before(&self, other: &Self) -> (res: bool) {
        str_lt(self.as_str(), other.as_str())
    }
}

impl OrderedKey for u32 {
    type Model = u32;

    open spec fn model(&self) -> u32 {
        *self
    }

    open spec fn before(a: u32, b: u32) -> bool {
        a < b
    }

    proof fn lemma_irreflexive(a: u32) {
    }

    proof fn lemma_transitive(a: u32, b: u32, c: u32) {
    }

    proof fn lemma_total(a: u32, b: u32) {
    }

    fn is_before(&self, other: &Self) -> (res: bool) {
        *self < *other
    }
}

/// Keys with their values, in ascending order of the keys, none twice.
pub struct OrderedMap<K: OrderedKey, V> {
    entries: Vec<(K, V)>,
}

/// Whether the keys are in strictly ascending order.
pub open spec fn keys_ascend<K: OrderedKey, V>(l: Seq<(K, V)>) -> bool {
    forall|i: int, j: int|
        0 <= i < j < l.len() ==> K::before((#[trigger] l[i]).0.model(), (#[trigger] l[j]).0.model())
}

/// Whether position `i` holds the key `k`.
pub open spec fn key_at<K: OrderedKey, V>(l: Seq<(K, V)>, i: int, k: K::Model) -> bool {
    0 <= i < l.len() && l[i].0.model() == k
}

/// Where the key `k` stands.
pub open spec fn place<K: OrderedKey, V>(l: Seq<(K, V)>, k: K::Model) -> int {
    choose|i: int| key_at(l, i, k)
}

/// The map that a list of keys and values stands for.
pub open spec fn as_map<K: OrderedKey, V>(l: Seq<(K, V)>) -> Map<K::Model, V> {
    Map::new(|k: K::Model| exists|i: int| key_at(l, i, k), |k: K::Model| l[place(l, k)].1)
}

/// Two maps that agree on every key are equal.
pub proof fn lemma_same_map<K, V>(a: Map<K, V>, b: Map<K, V>)
    requires
        forall|k: K| #[trigger] agree(a, b, k),
    ensures
        a == b,
{
    assert forall|k: K| a.dom().contains(k) == b.dom().contains(k) by {
        assert(agree(a, b, k));
    }
    assert(a.dom() =~= b.dom());
    assert forall|k: K| a.dom().contains(k) implies a[k] == b[k] by {
        assert(agree(a, b, k));
    }
    assert(a =~= b);
}

/// Whether two maps say the same of a key.
pub open spec fn agree<K, V>(a: Map<K, V>, b: Map<K, V>, k: K) -> bool {
    a.contains_key(k) == b.contains_key(k) && (a.contains_key(k) ==> a[k] == b[k])
}

/// An ascending list holds a key at one position at most.
proof fn lemma_place<K: OrderedKey, V>(l: Seq<(K, V)>, i: int)
    requires
        keys_ascend(l),
        0 <= i < l.len(),
    ensures
        place(l, l[i].0.model()) == i,
        as_map(l).contains_key(l[i].0.model()),
        as_map(l)[l[i].0.model()] == l[i].1,
{
    let k = l[i].0.model();
    assert(key_at(l, i, k));
    let j = place(l, k);
    assert(key_at(l, j, k));
    K::lemma_irreflexive(k);
    if i < j {
        assert(K::before(l[i].0.model(), l[j].0.model()));
    } else if j < i {
        assert(K::before(l[j].0.model(), l[i].0.model()));
    }
}

impl<K: OrderedKey, V> View for OrderedMap<K, V> {
    type V = Map<K::Model, V>;

    closed spec fn view(&self) -> Map<K::Model, V> {
        as_map(self.entries@)
    }
}

impl<K: OrderedKey, V> OrderedMap<K, V> {
    #[verifier::type_invariant]
    spec fn ordered(&self) -> bool {
        keys_ascend(self.entries@)
    }

    /// The entries, in ascending order of their keys.
    pub closed spec fn list(&self) -> Seq<(K, V)> {
        self.entries@
    }

    /// An empty map.
    pub fn new() -> (res: Self)
        ensures
            res@ == Map::<K::Model, V>::empty(),
            res.list() == Seq::<(K, V)>::empty(),
    {
        let res = OrderedMap { entries: Vec::new() };
        assert(res@ =~= Map::<K::Model, V>::empty());
        res
    }

    /// The number of keys that come before `key`.
    fn lower_bound(&self, key: &K) -> (res: usize)
        ensures
            res <= self.list().len(),
            forall|i: int|
                0 <= i < res ==> K::before((#[trigger] self.list()[i]).0.model(), key.model()),
            forall|i: int|
                res <= i < self.list().len() ==> !K::before(
                    (#[trigger] self.list()[i]).0.model(),
                    key.model(),
                ),
    {
        proof {
            use_type_invariant(self);
        }
        let ghost l = self.entries@;
        let ghost k = key.model();
        let mut lo: usize = 0;
        let mut hi: usize = self.entries.len();
        while lo < hi
            invariant
                l == self.entries@,
                k == key.model(),
                keys_ascend(l),
                lo <= hi <= l.len(),
                forall|i: int| 0 <= i < lo ==> K::before((#[trigger] l[i]).0.model(), k),
                forall|i: int| hi <= i < l.len() ==> !K::before((#[trigger] l[i]).0.model(), k),
            decreases hi - lo,
        {
            let mid: usize = lo + (hi - lo) / 2;
            let ghost m = l[mid as int].0.model();
            if self.entries[mid].0.is_before(key) {
                assert forall|i: int| 0 <= i < mid + 1 implies K::before(
                    (#[trigger] l[i]).0.model(),
                    k,
                ) by {
                    if i < mid {
                        K::lemma_transitive(l[i].0.model(), m, k);
                    }
                }
                lo = mid + 1;
            } else {
                assert forall|i: int| mid <= i < l.len() implies !K::before(
                    (#[trigger] l[i]).0.model(),
                    k,
                ) by {
                    if i > mid && K::before(l[i].0.model(), k) {
                        K::lemma_transitive(m, l[i].0.model(), k);
                    }
                }
                hi = mid;
            }
        }
        lo
    }

    /// Where `key` stands, or where it belongs.
    fn find(&self, key: &K) -> (res: Result<usize, usize>)
        ensures
            match res {
                Ok(i) => key_at(self.list(), i as int, key.model()) && self@.contains_key(
                    key.model(),
                ) && self@[key.model()] == self.list()[i as int].1,
                Err(i) => {
                    &&& i <= self.list().len()
                    &&& !self@.contains_key(key.model())
                    &&& forall|j: int|
                        0 <= j < i ==> K::before((#[trigger] self.list()[j]).0.model(), key.model())
                    &&& forall|j: int|
                        i <= j < self.list().len() ==> K::before(
                            key.model(),
                            (#[trigger] self.list()[j]).0.model(),
                        )
                },
            },
    {
        let at = self.lower_bound(key);
        proof {
            use_type_invariant(self);
        }
        let ghost l = self.entries@;
        let ghost k = key.model();
        if at < self.entries.len() && !key.is_before(&self.entries[at].0) {
            proof {
                K::lemma_total(l[at as int].0.model(), k);
                lemma_place(l, at as int);
            }
            return Ok(at);
        }
        proof {
            assert forall|j: int| at <= j < l.len() implies K::before(
                k,
                (#[trigger] l[j]).0.model(),
            ) by {
                if j > at {
                    K::lemma_transitive(k, l[at as int].0.model(), l[j].0.model());
                }
            }
            if self@.contains_key(k) {
                let i = place(l, k);
                assert(key_at(l, i, k));
                K::lemma_irreflexive(k);
                if i < at {
                    assert(K::before(l[i].0.model(), k));
                } else {
                    assert(K::before(k, l[i].0.model()));
                }
            }
        }
        Err(at)
    }

    /// The value under a key.
    pub fn get(&self, key: &K) -> (res: Option<&V>)
        ensures
            match res {
                Some(v) => self@.contains_key(key.model()) && *v == self@[key.model()],
                None => !self@.contains_key(key.model()),
            },
    {
        match self.find(key) {
            Ok(i) => Some(&self.entries[i].1),
            Err(_) => None,
        }
    }

    /// Whether there is a value under a key.
    pub fn contains_key(&self, key: &K) -> (res: bool)
        ensures
            res == self@.contains_key(key.model()),
    {
        self.get(key).is_some()
    }

    /// Takes the value under a key out of the map.
    pub fn remove(&mut self, key: &K) -> (res: Option<V>)
        ensures
            final(self)@ == old(self)@.remove(key.model()),
            match res {
                Some(v) => old(self)@.contains_key(key.model()) && v == old(self)@[key.model()],
                None => !old(self)@.contains_key(key.model()),
            },
    {
        match self.find(key) {
            Ok(i) => {
                proof {
                    use_type_invariant(&*self);
                }
                let ghost before = self.entries@;
                let ghost k = key.model();
                let mut entries: Vec<(K, V)> = Vec::new();
                std::mem::swap(&mut entries, &mut self.entries);
                let (_, v) = entries.remove(i);
                proof {
                    let after = entries@;
                    assert(after =~= before.remove(i as int));
                    assert(keys_ascend(after));
                    lemma_place(before, i as int);
                    assert forall|m: K::Model|
                        #[trigger] agree(as_map(after), as_map(before).remove(k), m) by {
                        if as_map(after).contains_key(m) {
                            let j = place(after, m);
                            assert(key_at(after, j, m));
                            lemma_place(after, j);
                            let j2 = if j < i { j } else { j + 1 };
                            assert(before[j2] == after[j]);
                            lemma_place(before, j2);
                            if m == k {
                                assert(j2 == i);
                            }
                        }
                        if as_map(before).remove(k).contains_key(m) {
                            let j = place(before, m);
                            assert(key_at(before, j, m));
                            let j2 = if j < i { j } else { j - 1 };
                            assert(after[j2] == before[j]);
                            assert(key_at(after, j2, m));
                        }
                    }
                    lemma_same_map(as_map(after), as_map(before).remove(k));
                }
                self.entries = entries;
                Some(v)
            },
            Err(_) => {
                assert(self@.remove(key.model()) =~= self@);
                None
            },
        }
    }

    /// Puts a value under a key, in place of the one that was there.
    pub fn insert(&mut self, key: K, value: V)
        ensures
            final(self)@ == old(self)@.insert(key.model(), value),
    {
        let at = self.find(&key);
        proof {
            use_type_invariant(&*self);
        }
        let ghost before = self.entries@;
        let ghost k = key.model();
        let mut entries: Vec<(K, V)> = Vec::new();
        std::mem::swap(&mut entries, &mut self.entries);
        match at {
            Ok(i) => {
                entries.set(i, (key, value));
                proof {
                    let after = entries@;
                    assert(after =~= before.update(i as int, (key, value)));
                    assert(keys_ascend(after));
                    lemma_place(after, i as int);
                    assert forall|m: K::Model|
                        #[trigger] agree(as_map(after), as_map(before).insert(k, value), m) by {
                        if as_map(after).contains_key(m) {
                            let j = place(after, m);
                            assert(key_at(after, j, m));
                            lemma_place(after, j);
                            assert(key_at(before, j, m));
                            lemma_place(before, j);
                        }
                        if as_map(before).contains_key(m) {
                            let j = place(before, m);
                            assert(key_at(before, j, m));
                            assert(key_at(after, j, m));
                        }
                    }
                    lemma_same_map(as_map(after), as_map(before).insert(k, value));
                }
            },
            Err(i) => {
                entries.insert(i, (key, value));
                proof {
                    let after = entries@;
                    assert(after =~= before.insert(i as int, (key, value)));
                    assert forall|a: int, b: int| 0 <= a < b < after.len() implies K::before(
                        (#[trigger] after[a]).0.model(),
                        (#[trigger] after[b]).0.model(),
                    ) by {
                        if a < i && b > i {
                            assert(after[b] == before[b - 1]);
                            assert(after[a] == before[a]);
                        } else if a == i {
                            assert(after[b] == before[b - 1]);
                        } else if b == i {
                            assert(after[a] == before[a]);
                        } else if b < i {
                            assert(after[a] == before[a] && after[b] == before[b]);
                        } else {
                            assert(after[a] == before[a - 1] && after[b] == before[b - 1]);
                        }
                    }
                    lemma_place(after, i as int);
                    assert forall|m: K::Model|
                        #[trigger] agree(as_map(after), as_map(before).insert(k, value), m) by {
                        if as_map(after).contains_key(m) {
                            let j = place(after, m);
                            assert(key_at(after, j, m));
                            lemma_place(after, j);
                            if j != i {
                                let j2 = if j < i { j } else { j - 1 };
                                assert(before[j2] == after[j]);
                                lemma_place(before, j2);
                                if m == k {
                                    lemma_place(after, i as int);
                                }
                            }
                        }
                        if as_map(before).contains_key(m) {
                            let j = place(before, m);
                            assert(key_at(before, j, m));
                            let j2 = if j < i { j } else { j + 1 };
                            assert(after[j2] == before[j]);
                            assert(key_at(after, j2, m));
                        }
                    }
                    lemma_same_map(as_map(after), as_map(before).insert(k, value));
                }
            },
        }
        self.entries = entries;
    }

    /// What the list of entries says of the map: the keys ascend, every entry is
    /// in the map, and every key of the map stands at some position.
    pub open spec fn listed(&self) -> bool {
        &&& keys_ascend(self.list())
        &&& forall|i: int|
            0 <= i < self.list().len() ==> self@.contains_key(
                (#[trigger] self.list()[i]).0.model(),
            ) && self@[self.list()[i].0.model()] == self.list()[i].1
        &&& forall|k: K::Model| #[trigger]
            self@.contains_key(k) ==> exists|i: int| #[trigger] key_at(self.list(), i, k)
    }

    /// The number of entries.
    pub fn len(&self) -> (res: usize)
        ensures
            res == self.list().len(),
            self.listed(),
    {
        proof {
            use_type_invariant(self);
            assert forall|i: int| 0 <= i < self.list().len() implies self@.contains_key(
                (#[trigger] self.list()[i]).0.model(),
            ) && self@[self.list()[i].0.model()] == self.list()[i].1 by {
                lemma_place(self.entries@, i);
            }
        }
        self.entries.len()
    }

    /// The `i`-th entry, in ascending order of the keys.
    pub fn at(&self, i: usize) -> (res: (&K, &V))
        requires
            i < self.list().len(),
        ensures
            *res.0 == self.list()[i as int].0,
            *res.1 == self.list()[i as int].1,
    {
        let e = &self.entries[i];
        (&e.0, &e.1)
    }
}

/// An ascending list of the members of a set is as long as the set.
proof fn lemma_list_len(list: Seq<Seq<char>>, set: Set<Seq<char>>)
    requires
        crate::order::strictly_ascending(list),
        forall|x: Seq<char>| #[trigger] set.contains(x) == list.contains(x),
    ensures
        set.finite(),
        set.len() == list.len(),
{
    assert forall|i: int, j: int| 0 <= i < list.len() && 0 <= j < list.len() && i != j implies
        list[i] != list[j] by {
        if i < j {
            assert(text_lt(list[i], list[j]));
        } else {
            assert(text_lt(list[j], list[i]));
        }
    }
    list.unique_seq_to_set();
    assert(list.to_set() =~= set) by {
        assert forall|x: Seq<char>| list.to_set().contains(x) == set.contains(x) by {
            assert(set.contains(x) == list.contains(x));
        }
    }
}

/// Texts in ascending order, none twice.
pub struct TextSet {
    map: OrderedMap<String, ()>,
}

impl View for TextSet {
    type V = Set<Seq<char>>;

    closed spec fn view(&self) -> Set<Seq<char>> {
        self.map@.dom()
    }
}

impl TextSet {
    /// The members, in ascending order.
    pub closed spec fn list(&self) -> Seq<Seq<char>> {
        Seq::new(self.map.list().len(), |i: int| self.map.list()[i].0@)
    }

    /// What the list says of the set: it ascends, and holds the members.
    pub open spec fn listed(&self) -> bool {
        &&& crate::order::strictly_ascending(self.list())
        &&& forall|x: Seq<char>| #[trigger] self@.contains(x) == self.list().contains(x)
    }

    /// An empty set.
    pub fn new() -> (res: Self)
        ensures
            res@ == Set::<Seq<char>>::empty(),
    {
        let res = TextSet { map: OrderedMap::new() };
        assert(res@ =~= Set::<Seq<char>>::empty());
        res
    }

    /// Whether a text is a member.
    pub fn contains(&self, s: &String) -> (res: bool)
        ensures
            res == self@.contains(s@),
    {
        self.map.contains_key(s)
    }

    /// Adds a text.
    pub fn insert(&mut self, s: String)
        ensures
            final(self)@ == old(self)@.insert(s@),
    {
        let ghost before = self.map@;
        self.map.insert(s, ());
        assert(before.insert(s@, ()).dom() =~= before.dom().insert(s@));
    }

    /// The number of members.
    pub fn len(&self) -> (res: usize)
        ensures
            res == self.list().len(),
            self.listed(),
            self@.finite(),
            res == self@.len(),
    {
        let n = self.map.len();
        proof {
            let l = self.map.list();
            assert forall|x: Seq<char>| #[trigger] self@.contains(x) == self.list().contains(x) by {
                if self@.contains(x) {
                    assert(self.map@.contains_key(x));
                    let i = choose|i: int| #[trigger] key_at(l, i, x);
                    assert(self.list()[i] == x);
                }
                if self.list().contains(x) {
                    let i = choose|i: int| 0 <= i < self.list().len() && self.list()[i] == x;
                    assert(self.map@.contains_key(l[i].0.model()));
                }
            }
            lemma_list_len(self.list(), self@);
        }
        n
    }

    /// Whether the set has no members.
    pub fn is_empty(&self) -> (res: bool)
        ensures
            res == (self@ == Set::<Seq<char>>::empty()),
    {
        let n = self.len();
        proof {
            if n == 0 {
                assert forall|x: Seq<char>| !self@.contains(x) by {
                    assert(self@.contains(x) == self.list().contains(x));
                }
                assert(self@ =~= Set::<Seq<char>>::empty());
            } else {
                assert(self.list()[0] == self.list()[0]);
                assert(self@.contains(self.list()[0]));
            }
        }
        n == 0
    }

    /// The `i`-th member, in ascending order.
    pub fn at(&self, i: usize) -> (res: &String)
        requires
            i < self.list().len(),
        ensures
            res@ == self.list()[i as int],
    {
        self.map.at(i).0
    }

    /// The set of the members of a list.
    pub fn from_list(v: &[String]) -> (res: Self)
        ensures
            res@ == crate::text::texts(v@).to_set(),
    {
        let mut out = TextSet::new();
        let ghost all = crate::text::texts(v@);
        let mut i: usize = 0;
        assert(all.take(0).to_set() =~= Set::<Seq<char>>::empty());
        while i < v.len()
            invariant
                i <= v.len(),
                all == crate::text::texts(v@),
                out@ == all.take(i as int).to_set(),
            decreases v.len() - i,
        {
            out.insert(v[i].clone());
            proof {
                let t = all.take(i as int);
                let u = all.take(i + 1);
                assert(u =~= t.push(v@[i as int]@));
                assert forall|x: Seq<char>| u.to_set().contains(x) == t.to_set().insert(
                    v@[i as int]@,
                ).contains(x) by {
                    if t.contains(x) {
                        let k = choose|k: int| 0 <= k < t.len() && t[k] == x;
                        assert(u[k] == x);
                    }
                    if x == v@[i as int]@ {
                        assert(u[i as int] == x);
                    }
                    if u.contains(x) {
                        let k = choose|k: int| 0 <= k < u.len() && u[k] == x;
                        if k < i {
                            assert(t[k] == x);
                        }
                    }
                }
                assert(u.to_set() =~= t.to_set().insert(v@[i as int]@));
            }
            i += 1;
        }
        assert(all.take(v.len() as int) =~= all);
        out
    }

    /// The members in ascending order, as a list.
    pub fn to_list(&self) -> (res: Vec<String>)
        ensures
            crate::order::strictly_ascending(crate::text::texts(res@)),
            crate::text::texts(res@).to_set() == self@,
    {
        let n = self.len();
        let mut out: Vec<String> = Vec::new();
        let mut i: usize = 0;
        while i < n
            invariant
                i <= n,
                n == self.list().len(),
                crate::text::texts(out@) == self.list().take(i as int),
            decreases n - i,
        {
            let ghost before = crate::text::texts(out@);
            out.push(self.at(i).clone());
            i += 1;
            assert(crate::text::texts(out@) =~= before.push(self.list()[i - 1]));
            assert(self.list().take(i as int) =~= before.push(self.list()[i - 1]));
        }
        proof {
            assert(self.list().take(n as int) =~= self.list());
            assert forall|x: Seq<char>| self.list().to_set().contains(x) == self@.contains(x) by {
                assert(self@.contains(x) == self.list().contains(x));
            }
            assert(self.list().to_set() =~= self@);
        }
        out
    }
}

} // verus!
