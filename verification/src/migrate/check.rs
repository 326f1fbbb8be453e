//! Whether a suite is ready to run in parallel.

use super::audit::{tests_with, with_verdict};
use super::classify::{
    address_pattern, classify, kind_by, time_pattern, uuid_pattern, Kind, Polluter, PolluterModel,
    Verdict,
};
use crate::nodeids::{param_split, split_param};
use crate::numbers::{dec_len, decimal};
use crate::order::strictly_ascending;
use crate::ordered_map::{key_at, OrderedKey, OrderedMap, TextSet};
use crate::patterns::regex_search;
use crate::text::{contains_str, contains_sub, from_range, join, joined, texts, to_chars};
use vstd::prelude::*;

verus! {

broadcast use {crate::text::lemma_texts_push, crate::text::lemma_texts_add};

/// Whether something is accepted: whether any of the accepted texts occurs in it.
pub open spec fn allowed_by(allow: Seq<Seq<char>>, s: Seq<char>) -> bool {
    exists|i: int| 0 <= i < allow.len() && contains_sub(s, #[trigger] allow[i])
}

/// Whether something is accepted.
pub fn is_allowed(allow: &[String], s: &str) -> (res: bool)
    ensures
        res == allowed_by(texts(allow@), s@),
{
    let ghost all = texts(allow@);
    let mut i: usize = 0;
    while i < allow.len()
        invariant
            i <= allow.len(),
            all == texts(allow@),
            forall|j: int| 0 <= j < i ==> !contains_sub(s@, #[trigger] all[j]),
        decreases allow.len() - i,
    {
        assert(all[i as int] == allow@[i as int]@);
        if contains_str(s, allow[i].as_str()) {
            return true;
        }
        i += 1;
    }
    false
}

/// What two collections of a suite have in common.
pub struct Compared {
    /// How many tests there are in either.
    pub total: usize,
    /// How many tests there are in both.
    pub stable: usize,
    /// The tests in one of them only, in ascending order.
    pub unstable: Vec<String>,
}

/// The members of the first that are or are not in the second.
fn split_by(a: &TextSet, b: &TextSet) -> (res: (TextSet, TextSet))
    ensures
        res.0@ == a@.intersect(b@),
        res.1@ == a@.difference(b@),
{
    let n = a.len();
    let ghost list = a.list();
    let mut both = TextSet::new();
    let mut left = TextSet::new();
    let mut i: usize = 0;
    while i < n
        invariant
            i <= n,
            n == list.len(),
            list == a.list(),
            a.listed(),
            forall|x: Seq<char>| #[trigger]
                both@.contains(x) ==> a@.contains(x) && b@.contains(x),
            forall|x: Seq<char>| #[trigger]
                left@.contains(x) ==> a@.contains(x) && !b@.contains(x),
            forall|j: int|
                0 <= j < i ==> (if b@.contains(#[trigger] list[j]) {
                    both@.contains(list[j])
                } else {
                    left@.contains(list[j])
                }),
        decreases n - i,
    {
        let x = a.at(i);
        assert(list.contains(list[i as int]));
        if b.contains(x) {
            both.insert(x.clone());
        } else {
            left.insert(x.clone());
        }
        i += 1;
    }
    proof {
        assert forall|x: Seq<char>| #![auto]
            both@.contains(x) == a@.intersect(b@).contains(x) && left@.contains(x) == a@.difference(
                b@,
            ).contains(x) by {
            if a@.contains(x) {
                assert(list.contains(x));
                let j = choose|j: int| 0 <= j < list.len() && list[j] == x;
                assert(list[j] == x);
            }
        }
        assert(both@ =~= a@.intersect(b@));
        assert(left@ =~= a@.difference(b@));
    }
    (both, left)
}

/// Adds the members of the second to the first.
fn add_all(a: TextSet, b: &TextSet) -> (res: TextSet)
    ensures
        res@ == a@.union(b@),
{
    let n = b.len();
    let ghost list = b.list();
    let ghost start = a@;
    let mut out = a;
    let mut i: usize = 0;
    while i < n
        invariant
            i <= n,
            n == list.len(),
            list == b.list(),
            b.listed(),
            forall|x: Seq<char>| #[trigger]
                out@.contains(x) ==> start.contains(x) || b@.contains(x),
            forall|x: Seq<char>| #[trigger] start.contains(x) ==> out@.contains(x),
            forall|j: int| 0 <= j < i ==> out@.contains(#[trigger] list[j]),
        decreases n - i,
    {
        assert(list.contains(list[i as int]));
        out.insert(b.at(i).clone());
        i += 1;
    }
    proof {
        assert forall|x: Seq<char>| #![auto] out@.contains(x) == start.union(b@).contains(x) by {
            if b@.contains(x) {
                assert(list.contains(x));
                let j = choose|j: int| 0 <= j < list.len() && list[j] == x;
                assert(list[j] == x);
            }
        }
        assert(out@ =~= start.union(b@));
    }
    out
}

/// Compares two collections of a suite.
pub fn compare(run1: &[String], run2: &[String]) -> (res: Compared)
    ensures
        compared(res, texts(run1@), texts(run2@)),
{
    let set1 = TextSet::from_list(run1);
    let set2 = TextSet::from_list(run2);
    let (both, left) = split_by(&set1, &set2);
    let (_, right) = split_by(&set2, &set1);
    let stable = both.len();
    let odd = add_all(left, &right);
    let unstable = odd.to_list();
    let all = add_all(set1, &set2);
    Compared { total: all.len(), stable, unstable }
}

/// An unstable test: where it is, its parameter, and why its id differs.
pub type Item = (Seq<char>, Seq<char>, Kind);

/// Unstable tests with the characters of their texts.
pub open spec fn items_of(items: Seq<(String, String, Kind)>) -> Seq<Item> {
    Seq::new(items.len(), |i: int| (items[i].0@, items[i].1@, items[i].2))
}

/// What is known of the unstable tests at one site.
pub struct Acc {
    /// How many there are of each kind.
    pub counts: OrderedMap<String, usize>,
    /// The first kind that differs in every process, where there is one.
    pub worst: Kind,
    /// The parameter of the first test of that kind, else of the first test.
    pub sample: String,
}

/// What is known of the unstable tests at one site.
#[verifier::ext_equal]
pub ghost struct AccModel {
    pub counts: Map<Seq<char>, usize>,
    pub worst: Kind,
    pub sample: Seq<char>,
}

impl View for Acc {
    type V = AccModel;

    open spec fn view(&self) -> AccModel {
        AccModel { counts: self.counts@, worst: self.worst, sample: self.sample@ }
    }
}

impl AccModel {
    /// Whether no run can succeed with these ids.
    pub open spec fn bails(self) -> bool {
        self.counts.contains_key("address"@) || self.counts.contains_key("uuid"@)
    }

    /// How many there are under a name.
    pub open spec fn count(self, name: Seq<char>) -> int {
        if self.counts.contains_key(name) {
            self.counts[name] as int
        } else {
            0
        }
    }

    /// What is known with one more test.
    pub open spec fn with(self, param: Seq<char>, kind: Kind) -> AccModel {
        let first = kind.bails() && !self.worst.bails();
        AccModel {
            counts: self.counts.insert(kind.name(), (self.count(kind.name()) + 1) as usize),
            worst: if first {
                kind
            } else {
                self.worst
            },
            sample: if first {
                param
            } else {
                self.sample
            },
        }
    }
}

impl Acc {
    /// Whether no run can succeed with these ids.
    pub fn will_bail(&self) -> (res: bool)
        ensures
            res == self@.bails(),
    {
        let address = "address".to_owned();
        let uuid = "uuid".to_owned();
        self.counts.contains_key(&address) || self.counts.contains_key(&uuid)
    }
}

/// What is known of the unstable tests at a site, where there are any.
pub open spec fn acc_of(items: Seq<Item>, site: Seq<char>) -> Option<AccModel>
    decreases items.len(),
{
    if items.len() == 0 {
        None
    } else {
        let before = acc_of(items.drop_last(), site);
        let item = items.last();
        if item.0 == site {
            Some(
                match before {
                    Some(m) => m.with(item.1, item.2),
                    None => (AccModel {
                        counts: Map::empty(),
                        worst: Kind::Other,
                        sample: item.1,
                    }).with(item.1, item.2),
                },
            )
        } else {
            before
        }
    }
}

/// How many unstable tests differ in every process.
pub open spec fn bail_count(items: Seq<Item>) -> nat
    decreases items.len(),
{
    if items.len() == 0 {
        0
    } else {
        bail_count(items.drop_last()) + (if items.last().2.bails() {
            1nat
        } else {
            0
        })
    }
}

/// Whether a map says of a site what is known of it.
pub open spec fn says(by_site: Map<Seq<char>, Acc>, items: Seq<Item>, site: Seq<char>) -> bool {
    match acc_of(items, site) {
        Some(m) => by_site.contains_key(site) && by_site[site]@ == m,
        None => !by_site.contains_key(site),
    }
}

proof fn lemma_counts_fit(items: Seq<Item>, site: Seq<char>)
    ensures
        acc_of(items, site) matches Some(m) ==> forall|k: Seq<char>| #[trigger]
            m.count(k) <= items.len(),
    decreases items.len(),
{
    if items.len() > 0 {
        lemma_counts_fit(items.drop_last(), site);
        if let Some(m) = acc_of(items, site) {
            assert forall|k: Seq<char>| #[trigger] m.count(k) <= items.len() by {
                match acc_of(items.drop_last(), site) {
                    Some(b) => {
                        assert(b.count(k) <= items.len() - 1);
                        assert(b.count(items.last().2.name()) <= items.len() - 1);
                    },
                    None => {},
                }
            }
        }
    }
}

/// Groups unstable tests by site, and counts those that differ in every process.
pub fn accumulate(items: &[(String, String, Kind)]) -> (res: (OrderedMap<String, Acc>, usize))
    ensures
        forall|s: Seq<char>| #[trigger] says(res.0@, items_of(items@), s),
        res.1 == bail_count(items_of(items@)),
{
    let ghost all = items_of(items@);
    let mut by_site: OrderedMap<String, Acc> = OrderedMap::new();
    let mut total: usize = 0;
    let mut i: usize = 0;
    while i < items.len()
        invariant
            i <= items.len(),
            all == items_of(items@),
            total == bail_count(all.take(i as int)),
            total <= i,
            forall|s: Seq<char>| #[trigger] says(by_site@, all.take(i as int), s),
        decreases items.len() - i,
    {
        let (site, param, kind) = &items[i];
        let ghost sofar = all.take(i as int);
        let ghost more = all.take(i + 1);
        let ghost before = by_site@;
        proof {
            assert(more.drop_last() =~= sofar);
            assert(more.last() == (site@, param@, *kind));
            lemma_counts_fit(sofar, site@);
            assert(says(before, sofar, site@));
        }
        if kind.will_bail() {
            total += 1;
        }
        let acc = match by_site.remove(site) {
            Some(a) => a,
            None => Acc { counts: OrderedMap::new(), worst: Kind::Other, sample: param.clone() },
        };
        let ghost was = acc@;
        let Acc { mut counts, mut worst, mut sample } = acc;
        let label = kind.label();
        let n: usize = match counts.get(&label) {
            Some(n) => *n,
            None => 0,
        };
        assert(n == was.count(kind.name()));
        assert(n < usize::MAX);
        counts.insert(label, n + 1);
        if kind.will_bail() && !worst.will_bail() {
            worst = *kind;
            sample = param.clone();
        }
        let acc = Acc { counts, worst, sample };
        assert(acc@ =~= was.with(param@, *kind));
        assert(was.sample == acc@.sample || kind.bails());
        by_site.insert(site.clone(), acc);
        proof {
            assert forall|s: Seq<char>| #[trigger] says(by_site@, more, s) by {
                assert(says(before, sofar, s));
                if s == site@ {
                    if acc_of(sofar, s) is None {
                        assert(was =~= (AccModel {
                            counts: Map::empty(),
                            worst: Kind::Other,
                            sample: param@,
                        }));
                    }
                }
            }
        }
        i += 1;
    }
    assert(all.take(items.len() as int) =~= all);
    (by_site, total)
}

/// An unstable test, by its id.
pub open spec fn item_of(id: Seq<char>) -> Item {
    let parts = param_split(id);
    (
        parts.0,
        parts.1,
        kind_by(
            regex_search(address_pattern(), parts.1),
            regex_search(uuid_pattern(), parts.1),
            regex_search(time_pattern(), parts.1),
        ),
    )
}

/// Unstable tests, by their ids.
pub open spec fn items_by_id(ids: Seq<Seq<char>>) -> Seq<Item> {
    ids.map_values(|id: Seq<char>| item_of(id))
}

/// Groups unstable tests by site, and counts those that differ in every process.
pub fn accumulate_unstable(unstable: &[String]) -> (res: (OrderedMap<String, Acc>, usize))
    ensures
        forall|s: Seq<char>| #[trigger]
            says(res.0@, items_by_id(texts(unstable@)), s),
        res.1 == bail_count(items_by_id(texts(unstable@))),
{
    let mut items: Vec<(String, String, Kind)> = Vec::new();
    let mut i: usize = 0;
    while i < unstable.len()
        invariant
            i <= unstable.len(),
            items.len() == i,
            forall|j: int|
                0 <= j < i ==> ((#[trigger] items@[j]).0@, items@[j].1@, items@[j].2) == item_of(
                    unstable@[j]@,
                ),
        decreases unstable.len() - i,
    {
        let (site, param) = split_param(unstable[i].as_str());
        let kind = classify(param.as_str());
        items.push((site, param, kind));
        i += 1;
    }
    assert(items_of(items@) =~= items_by_id(texts(unstable@)));
    accumulate(items.as_slice())
}

/// How many tests at a site have a kind.
pub open spec fn number_of(items: Seq<Item>, site: Seq<char>, kind: Kind) -> nat
    decreases items.len(),
{
    if items.len() == 0 {
        0
    } else {
        number_of(items.drop_last(), site, kind) + (if items.last().0 == site && items.last().2
            == kind {
            1nat
        } else {
            0
        })
    }
}

proof fn lemma_names_differ(a: Kind, b: Kind)
    ensures
        a.name() == b.name() ==> a == b,
{
    reveal_strlit("address");
    reveal_strlit("uuid");
    reveal_strlit("time");
    reveal_strlit("other");
    assert("uuid"@[0] == 'u');
    assert("time"@[0] == 't');
    assert("address"@[0] == 'a');
    assert("other"@[0] == 'o');
}

/// What is known of a site counts its tests by kind, and calls for a serial run
/// exactly where an id of the site differs in every process.
pub proof fn theorem_sites_are_counted(items: Seq<Item>, site: Seq<char>, kind: Kind)
    requires
        items.len() <= usize::MAX,
    ensures
        match acc_of(items, site) {
            Some(m) => m.count(kind.name()) == number_of(items, site, kind) && (m.bails()
                <==> number_of(items, site, Kind::Address) > 0 || number_of(
                items,
                site,
                Kind::Uuid,
            ) > 0) && (m.bails() <==> m.worst.bails()),
            None => number_of(items, site, kind) == 0,
        },
{
    lemma_counted(items, site, kind);
    lemma_counted(items, site, Kind::Address);
    lemma_counted(items, site, Kind::Uuid);
    lemma_worst(items, site);
}

proof fn lemma_counted(items: Seq<Item>, site: Seq<char>, kind: Kind)
    requires
        items.len() <= usize::MAX,
    ensures
        match acc_of(items, site) {
            Some(m) => m.count(kind.name()) == number_of(items, site, kind)
                && m.counts.contains_key(kind.name()) == (number_of(items, site, kind) > 0),
            None => number_of(items, site, kind) == 0,
        },
    decreases items.len(),
{
    if items.len() > 0 {
        lemma_counted(items.drop_last(), site, kind);
        lemma_counts_fit(items.drop_last(), site);
        lemma_names_differ(items.last().2, kind);
        match acc_of(items.drop_last(), site) {
            Some(b) => {
                assert(b.count(items.last().2.name()) <= items.len() - 1);
            },
            None => {},
        }
    }
}

proof fn lemma_worst(items: Seq<Item>, site: Seq<char>)
    ensures
        acc_of(items, site) matches Some(m) ==> m.bails() == m.worst.bails(),
    decreases items.len(),
{
    if items.len() > 0 {
        lemma_worst(items.drop_last(), site);
        lemma_names_differ(items.last().2, Kind::Address);
        lemma_names_differ(items.last().2, Kind::Uuid);
    }
}

/// What is stored of a site with unstable tests.
pub struct UnstableSite {
    pub allowed: bool,
    pub fix: String,
    /// How many unstable tests there are of each kind.
    pub kinds: OrderedMap<String, usize>,
    pub sample: String,
    pub site: String,
    pub will_bail: bool,
}

fn copy_counts(counts: &OrderedMap<String, usize>) -> (res: OrderedMap<String, usize>)
    ensures
        res@ == counts@,
{
    let n = counts.len();
    let ghost list = counts.list();
    let mut out: OrderedMap<String, usize> = OrderedMap::new();
    let mut i: usize = 0;
    while i < n
        invariant
            i <= n,
            n == list.len(),
            list == counts.list(),
            counts.listed(),
            forall|k: Seq<char>| #[trigger]
                out@.contains_key(k) ==> counts@.contains_key(k) && out@[k] == counts@[k],
            forall|j: int| 0 <= j < i ==> out@.contains_key((#[trigger] list[j]).0@),
        decreases n - i,
    {
        let (k, v) = counts.at(i);
        proof {
            assert(counts@.contains_key(list[i as int].0.model()));
            assert(counts@[list[i as int].0.model()] == list[i as int].1);
        }
        out.insert(k.clone(), *v);
        i += 1;
    }
    proof {
        assert forall|k: Seq<char>| #[trigger] crate::ordered_map::agree(out@, counts@, k) by {
            if counts@.contains_key(k) {
                let j = choose|j: int| #[trigger] key_at(list, j, k);
                assert(list[j].0@ == k);
            }
        }
        crate::ordered_map::lemma_same_map(out@, counts@);
    }
    out
}

/// Whether some call of the predicate on a text gave `answer`.
pub open spec fn judged_allowed<A: Fn(&str) -> bool>(
    allowed: A,
    s: Seq<char>,
    answer: bool,
) -> bool {
    exists|t: &str| t@ == s && #[trigger] call_ensures(allowed, (t,), answer)
}

/// Whether an entry says what is known of a site.
pub open spec fn site_stored<A: Fn(&str) -> bool>(
    u: UnstableSite,
    site: Seq<char>,
    acc: AccModel,
    allowed: A,
) -> bool {
    &&& u.site@ == site
    &&& u.kinds@ == acc.counts
    &&& u.sample@ == acc.sample
    &&& u.fix@ == acc.worst.remedy()
    &&& u.will_bail == acc.bails()
    &&& judged_allowed(allowed, site, u.allowed)
}

/// Makes what is stored of the sites with unstable tests, in ascending order.
pub fn unstable_json<A: Fn(&str) -> bool>(
    by_site: &OrderedMap<String, Acc>,
    allowed: &A,
) -> (res: Vec<UnstableSite>)
    requires
        forall|t: &str| by_site@.contains_key(t@) ==> #[trigger] call_requires(*allowed, (t,)),
    ensures
        res@.len() == by_site.list().len(),
        forall|i: int|
            0 <= i < res@.len() ==> site_stored(
                #[trigger] res@[i],
                by_site.list()[i].0@,
                by_site.list()[i].1@,
                *allowed,
            ),
{
    let n = by_site.len();
    let mut out: Vec<UnstableSite> = Vec::new();
    let mut i: usize = 0;
    while i < n
        invariant
            i <= n,
            n == by_site.list().len(),
            by_site.listed(),
            forall|t: &str| by_site@.contains_key(t@) ==> #[trigger] call_requires(*allowed, (t,)),
            out@.len() == i,
            forall|j: int|
                0 <= j < i ==> site_stored(
                    #[trigger] out@[j],
                    by_site.list()[j].0@,
                    by_site.list()[j].1@,
                    *allowed,
                ),
        decreases n - i,
    {
        let (site, acc) = by_site.at(i);
        assert(by_site@.contains_key(by_site.list()[i as int].0.model()));
        let accepted = allowed(site.as_str());
        assert(judged_allowed(*allowed, site@, accepted));
        out.push(
            UnstableSite {
                allowed: accepted,
                fix: acc.worst.fix(),
                kinds: copy_counts(&acc.counts),
                sample: acc.sample.clone(),
                site: site.clone(),
                will_bail: acc.will_bail(),
            },
        );
        i += 1;
    }
    out
}

/// What is stored of a check.
pub struct MigrateCheckDoc {
    pub meta: MigrateMeta,
    /// What the run in parallel gave, where there was one.
    pub parallel: Option<ParallelReport>,
    pub ready: bool,
    pub tests_collected: usize,
    pub unstable_ids: Vec<UnstableSite>,
    pub will_bail_count: usize,
}

/// What a stored check says of itself.
pub struct MigrateMeta {
    pub kind: String,
    pub runner: String,
    pub schema: u32,
}

/// What a run in parallel gave.
pub struct ParallelReport {
    pub findings: Option<Vec<Finding>>,
    /// How many tests fail in series too.
    pub preexisting: Option<usize>,
    pub ran: bool,
    pub ready: Option<bool>,
}

/// A test that fails only in parallel.
pub struct Finding {
    pub allowed: bool,
    pub fix: String,
    pub nodeid: String,
    pub polluter: Option<PolluterJson>,
    pub verdict: String,
    pub why: String,
}

/// Which file makes a test fail.
pub struct PolluterJson {
    pub file: Option<String>,
    pub kind: String,
}

/// Makes what is stored of a check.
pub fn check_doc(
    ready: bool,
    tests: usize,
    will_bail: usize,
    unstable: Vec<UnstableSite>,
    parallel: Option<ParallelReport>,
) -> (res: MigrateCheckDoc)
    ensures
        is_check_doc(res, ready, tests, will_bail),
        res.parallel == parallel,
        res.unstable_ids == unstable,
{
    MigrateCheckDoc {
        meta: MigrateMeta {
            kind: "migrate-check".to_owned(),
            runner: "rstest".to_owned(),
            schema: 1,
        },
        parallel,
        ready,
        tests_collected: tests,
        unstable_ids: unstable,
        will_bail_count: will_bail,
    }
}

/// Whether an entry says which file makes a test fail.
pub open spec fn polluter_stored(j: Option<PolluterJson>, p: Option<PolluterModel>) -> bool {
    match (j, p) {
        (None, None) => true,
        (Some(j), Some(PolluterModel::OtherFile(f))) => j.kind@ == "other_file"@
            && crate::text::opt_text(j.file) == Some(f),
        (Some(j), Some(PolluterModel::SameFile(f))) => j.kind@ == "same_file"@
            && crate::text::opt_text(j.file) == Some(f),
        (Some(j), Some(PolluterModel::NotReproducible)) => j.kind@ == "not_reproducible"@
            && j.file is None,
        _ => false,
    }
}

/// Which file is blamed, where one was looked for.
pub open spec fn blamed(p: Option<&Polluter>) -> Option<PolluterModel> {
    match p {
        Some(p) => Some(p@),
        None => None,
    }
}

/// Makes what is stored of the file that makes a test fail.
pub fn polluter_json(p: Option<&Polluter>) -> (res: Option<PolluterJson>)
    ensures
        polluter_stored(res, blamed(p)),
{
    match p {
        Some(Polluter::OtherFile(f)) => Some(
            PolluterJson { file: Some(f.clone()), kind: "other_file".to_owned() },
        ),
        Some(Polluter::SameFile(f)) => Some(
            PolluterJson { file: Some(f.clone()), kind: "same_file".to_owned() },
        ),
        Some(Polluter::NotReproducible) => Some(
            PolluterJson { file: None, kind: "not_reproducible".to_owned() },
        ),
        None => None,
    }
}

/// Which file is blamed for the failure of a test.
pub open spec fn blame(polluters: Map<Seq<char>, Polluter>, id: Seq<char>) -> Option<PolluterModel> {
    if polluters.contains_key(id) {
        Some(polluters[id]@)
    } else {
        None
    }
}

/// Whether an entry says what is known of a test that fails only in parallel.
pub open spec fn finding_stored<A: Fn(&str) -> bool>(
    f: Finding,
    id: Seq<char>,
    v: Verdict,
    polluters: Map<Seq<char>, Polluter>,
    allowed: A,
) -> bool {
    &&& f.nodeid@ == id
    &&& f.verdict@ == v.heading()
    &&& f.why@ == v.counsel().0
    &&& f.fix@ == v.counsel().1
    &&& polluter_stored(f.polluter, blame(polluters, id))
    &&& judged_allowed(allowed, id, f.allowed)
}

/// Whether a test is one of those that were found.
pub open spec fn is_found(migration: Seq<(String, Verdict)>, id: Seq<char>) -> bool {
    exists|i: int| 0 <= i < migration.len() && (#[trigger] migration[i]).0@ == id
}

/// Makes what is stored of the tests that fail only in parallel.
pub fn findings_json<A: Fn(&str) -> bool>(
    migration: &[(String, Verdict)],
    polluters: &OrderedMap<String, Polluter>,
    allowed: &A,
) -> (res: Vec<Finding>)
    requires
        forall|t: &str|
            is_found(migration@, t@) ==> #[trigger] call_requires(*allowed, (t,)),
    ensures
        res@.len() == migration@.len(),
        forall|i: int|
            0 <= i < res@.len() ==> finding_stored(
                #[trigger] res@[i],
                migration@[i].0@,
                migration@[i].1,
                polluters@,
                *allowed,
            ),
{
    let mut out: Vec<Finding> = Vec::new();
    let mut i: usize = 0;
    while i < migration.len()
        invariant
            i <= migration.len(),
            forall|t: &str| is_found(migration@, t@) ==> #[trigger] call_requires(*allowed, (t,)),
            out@.len() == i,
            forall|j: int|
                0 <= j < i ==> finding_stored(
                    #[trigger] out@[j],
                    migration@[j].0@,
                    migration@[j].1,
                    polluters@,
                    *allowed,
                ),
        decreases migration.len() - i,
    {
        let (id, v) = &migration[i];
        assert(migration@[i as int].0@ == id@);
        let accepted = allowed(id.as_str());
        assert(judged_allowed(*allowed, id@, accepted));
        let (why, fix) = v.advice();
        let p = polluters.get(id);
        assert(blamed(p) == blame(polluters@, id@));
        out.push(
            Finding {
                allowed: accepted,
                fix,
                nodeid: id.clone(),
                polluter: polluter_json(p),
                verdict: v.title(),
                why,
            },
        );
        i += 1;
    }
    out
}

/// How many bytes a character takes in UTF-8.
pub open spec fn width(c: char) -> nat {
    if (c as u32) < 0x80 {
        1
    } else if (c as u32) < 0x800 {
        2
    } else if (c as u32) < 0x10000 {
        3
    } else {
        4
    }
}

/// How many bytes the first characters of a text take in UTF-8.
pub open spec fn bytes_of(s: Seq<char>, n: nat) -> nat
    decreases n,
{
    if n == 0 {
        0
    } else {
        bytes_of(s, (n - 1) as nat) + width(s[n - 1])
    }
}

/// Whether the first `n` characters are as many as fit in so many bytes.
pub open spec fn fills(s: Seq<char>, n: nat, max: nat) -> bool {
    n <= s.len() && bytes_of(s, n) <= max && (n < s.len() ==> bytes_of(s, n + 1) > max)
}

/// Cuts a text off where it takes more bytes than that, between two characters.
pub fn truncate_on_boundary(s: &str, max: usize) -> (res: String)
    ensures
        exists|n: nat| #[trigger] fills(s@, n, max as nat) && res@ == s@.take(n as int),
{
    let v = to_chars(s);
    let mut n: usize = 0;
    let mut used: usize = 0;
    while n < v.len()
        invariant
            n <= v.len(),
            v@ == s@,
            used == bytes_of(s@, n as nat),
            used <= max,
        decreases v.len() - n,
    {
        let c: u32 = v[n] as u32;
        let w: usize = if c < 0x80 {
            1
        } else if c < 0x800 {
            2
        } else if c < 0x10000 {
            3
        } else {
            4
        };
        if w > max - used {
            assert(fills(s@, n as nat, max as nat));
            let out = from_range(&v, 0, n);
            assert(out@ =~= s@.take(n as int));
            return out;
        }
        used += w;
        n += 1;
    }
    assert(fills(s@, n as nat, max as nat));
    let out = from_range(&v, 0, n);
    assert(out@ =~= s@.take(n as int));
    out
}

proof fn lemma_bytes_grow(s: Seq<char>, a: nat, b: nat)
    requires
        a < b <= s.len(),
    ensures
        bytes_of(s, a) < bytes_of(s, b),
    decreases b,
{
    if a < b - 1 {
        lemma_bytes_grow(s, a, (b - 1) as nat);
    }
}

/// There is one place to cut a text off.
pub proof fn theorem_one_cut(s: Seq<char>, a: nat, b: nat, max: nat)
    requires
        fills(s, a, max),
        fills(s, b, max),
    ensures
        a == b,
{
    if a < b {
        if a + 1 < b {
            lemma_bytes_grow(s, a + 1, b);
        }
    } else if b < a {
        if b + 1 < a {
            lemma_bytes_grow(s, b + 1, a);
        }
    }
}

/// The start of a text, as long as it takes no more bytes than that.
pub open spec fn cut_off(s: Seq<char>, max: nat) -> Seq<char> {
    s.take((choose|n: nat| fills(s, n, max)) as int)
}

fn sample_of(s: &str) -> (res: String)
    ensures
        res@ == cut_off(s@, 90),
{
    let out = truncate_on_boundary(s, 90);
    proof {
        let n = choose|n: nat| #[trigger] fills(s@, n, 90) && out@ == s@.take(n as int);
        theorem_one_cut(s@, n, choose|n: nat| fills(s@, n, 90), 90);
    }
    out
}

/// The kinds of a site with their numbers.
pub open spec fn kind_texts(counts: Seq<(String, usize)>) -> Seq<Seq<char>> {
    Seq::new(counts.len(), |i: int| counts[i].0@ + ":"@ + decimal(counts[i].1 as nat))
}

fn list_kinds(counts: &OrderedMap<String, usize>) -> (res: Vec<String>)
    ensures
        texts(res@) == kind_texts(counts.list()),
{
    let n = counts.len();
    let mut out: Vec<String> = Vec::new();
    let mut i: usize = 0;
    while i < n
        invariant
            i <= n,
            n == counts.list().len(),
            out.len() == i,
            forall|j: int|
                0 <= j < i ==> (#[trigger] out@[j])@ == counts.list()[j].0@ + ":"@ + decimal(
                    counts.list()[j].1 as nat,
                ),
        decreases n - i,
    {
        let (k, v) = counts.at(i);
        let mut line = k.clone();
        line.append(":");
        line.append(dec_len(*v).as_str());
        out.push(line);
        i += 1;
    }
    assert(texts(out@) =~= kind_texts(counts.list()));
    out
}

/// The lines on a site with unstable tests.
pub open spec fn site_lines(site: Seq<char>, acc: Acc) -> Seq<Seq<char>> {
    seq![
        "  "@ + site,
        "    "@ + joined(kind_texts(acc.counts.list()), ", "@) + "   -> "@ + (if acc@.bails() {
            "WILL bail"@
        } else {
            "may bail (timing)"@
        }),
        "    e.g. ["@ + cut_off(acc.sample@, 90) + "]"@,
        "    FIX (upstream): "@ + acc.worst.remedy(),
        if acc@.bails() {
            "    STOPGAP (rstest): -n 0\n"@
        } else {
            "    STOPGAP (rstest): usually runs at -n auto (the id is stable enough within a run); -n 0 only if it bails\n"@
        },
    ]
}

fn list_site(site: &str, acc: &Acc) -> (res: Vec<String>)
    ensures
        texts(res@) == site_lines(site@, *acc),
{
    let mut out: Vec<String> = Vec::new();
    let will = acc.will_bail();
    let mut line = String::from_str("  ");
    line.append(site);
    out.push(line);
    let mut line = String::from_str("    ");
    line.append(join(list_kinds(&acc.counts).as_slice(), ", ").as_str());
    line.append("   -> ");
    if will {
        line.append("WILL bail");
    } else {
        line.append("may bail (timing)");
    }
    out.push(line);
    let mut line = String::from_str("    e.g. [");
    line.append(sample_of(acc.sample.as_str()).as_str());
    line.append("]");
    out.push(line);
    let mut line = String::from_str("    FIX (upstream): ");
    line.append(acc.worst.fix().as_str());
    out.push(line);
    if will {
        out.push("    STOPGAP (rstest): -n 0\n".to_owned());
    } else {
        out.push(
            "    STOPGAP (rstest): usually runs at -n auto (the id is stable enough within a run); -n 0 only if it bails\n".to_owned(),
        );
    }
    assert(texts(out@) =~= site_lines(site@, *acc));
    out
}

/// The lines on the first `n` sites with unstable tests.
pub open spec fn sites_lines(sites: Seq<(String, Acc)>, n: nat) -> Seq<Seq<char>>
    decreases n,
{
    if n == 0 {
        Seq::empty()
    } else {
        sites_lines(sites, (n - 1) as nat) + site_lines(sites[n - 1].0@, sites[n - 1].1)
    }
}

/// The line on what was collected.
pub open spec fn suite_line_text(c: Compared) -> Seq<char> {
    "suite: "@ + decimal(c.total as nat) + " tests collected, "@ + decimal(c.stable as nat)
        + " stable across both runs"@
}

/// Writes the line on what was collected.
fn suite_line(c: &Compared) -> (res: String)
    ensures
        res@ == suite_line_text(*c),
{
    let mut out = String::from_str("suite: ");
    out.append(dec_len(c.total).as_str());
    out.append(" tests collected, ");
    out.append(dec_len(c.stable).as_str());
    out.append(" stable across both runs");
    out
}

/// The line on how many tests are unstable.
pub open spec fn unstable_line_text(n: usize, sites: usize, bail: usize) -> Seq<char> {
    "  UNSTABLE NODEIDS: "@ + decimal(n as nat) + " across "@ + decimal(sites as nat)
        + " sites ("@ + decimal(bail as nat) + " per-process => WILL bail at -n auto)\n"@
}

/// Writes the line on how many tests are unstable.
fn unstable_line(n: usize, sites: usize, bail: usize) -> (res: String)
    ensures
        res@ == unstable_line_text(n, sites, bail),
{
    let mut out = String::from_str("  UNSTABLE NODEIDS: ");
    out.append(dec_len(n).as_str());
    out.append(" across ");
    out.append(dec_len(sites).as_str());
    out.append(" sites (");
    out.append(dec_len(bail).as_str());
    out.append(" per-process => WILL bail at -n auto)\n");
    out
}

/// The line on tests that force a serial run.
pub open spec fn forced_line_text(n: usize) -> Seq<char> {
    "==> "@ + decimal(n as nat)
        + " per-process-unstable id(s) force -n 0. Fix these (stable ids=) before parallel will run; skipping the parallel check."@
}

/// Writes the line on tests that force a serial run.
fn forced_line(n: usize) -> (res: String)
    ensures
        res@ == forced_line_text(n),
{
    let mut out = String::from_str("==> ");
    out.append(dec_len(n).as_str());
    out.append(" per-process-unstable id(s) force -n 0. Fix these (stable ids=) before parallel will run; skipping the parallel check.");
    out
}

/// How many of the first `n` sites force a serial run and are not accepted.
pub open spec fn blocking_sites(
    sites: Seq<(String, Acc)>,
    allow: Seq<Seq<char>>,
    n: nat,
) -> nat
    decreases n,
{
    if n == 0 {
        0
    } else {
        blocking_sites(sites, allow, (n - 1) as nat) + (if sites[n - 1].1@.bails() && !allowed_by(
            allow,
            sites[n - 1].0@,
        ) {
            1nat
        } else {
            0
        })
    }
}

/// The lines on unstable tests, given what is known of their sites.
pub open spec fn survey_lines(
    c: Compared,
    sites: Seq<(String, Acc)>,
    bail: usize,
    allow: Seq<Seq<char>>,
) -> Seq<Seq<char>> {
    let head = seq![suite_line_text(c)];
    let body = if c.unstable@.len() == 0 {
        head.push("  UNSTABLE NODEIDS: none — collection is reproducible.\n"@)
    } else {
        head.push(unstable_line_text(c.unstable@.len() as usize, sites.len() as usize, bail))
            + sites_lines(sites, sites.len())
    };
    if bail == 0 {
        body
    } else if blocking_sites(sites, allow, sites.len()) == 0 {
        body.push(forced_line_text(bail)).push("    (all allow-listed — gate passes.)"@)
    } else {
        body.push(forced_line_text(bail))
    }
}

/// Reports on unstable tests, given what is known of their sites. Where a test
/// forces a serial run, the check ends there, with a code to exit with.
pub fn survey(
    c: &Compared,
    by_site: &OrderedMap<String, Acc>,
    bail: usize,
    allow: &[String],
) -> (res: (Vec<String>, Option<i32>))
    ensures
        texts(res.0@) == survey_lines(*c, by_site.list(), bail, texts(allow@)),
        res.1 == survey_exit(by_site.list(), bail, texts(allow@)),
{
    let ghost sites = by_site.list();
    let n = by_site.len();
    let mut out: Vec<String> = Vec::new();
    out.push(suite_line(c));
    assert(texts(out@) =~= seq![suite_line_text(*c)]);
    if c.unstable.len() == 0 {
        out.push("  UNSTABLE NODEIDS: none — collection is reproducible.\n".to_owned());
    } else {
        out.push(unstable_line(c.unstable.len(), n, bail));
        let ghost head = texts(out@);
        let mut i: usize = 0;
        assert(head + sites_lines(sites, 0) =~= head);
        while i < n
            invariant
                i <= n,
                n == sites.len(),
                sites == by_site.list(),
                texts(out@) == head + sites_lines(sites, i as nat),
            decreases n - i,
        {
            let (site, acc) = by_site.at(i);
            let mut more = list_site(site.as_str(), acc);
            out.append(&mut more);
            i += 1;
            assert(head + sites_lines(sites, i as nat) =~= head + sites_lines(
                sites,
                (i - 1) as nat,
            ) + site_lines(sites[i - 1].0@, sites[i - 1].1));
        }
    }
    if bail == 0 {
        return (out, None);
    }
    let mut blocking: usize = 0;
    let mut i: usize = 0;
    while i < n
        invariant
            i <= n,
            n == sites.len(),
            sites == by_site.list(),
            blocking == blocking_sites(sites, texts(allow@), i as nat),
            blocking <= i,
        decreases n - i,
    {
        let (site, acc) = by_site.at(i);
        if acc.will_bail() && !is_allowed(allow, site.as_str()) {
            blocking += 1;
        }
        i += 1;
    }
    out.push(forced_line(bail));
    if blocking == 0 {
        out.push("    (all allow-listed — gate passes.)".to_owned());
        (out, Some(0))
    } else {
        (out, Some(1))
    }
}

/// The tests that fail only in parallel.
pub open spec fn only_parallel(verdicts: Seq<(String, Verdict)>) -> Seq<(Seq<char>, Verdict)>
    decreases verdicts.len(),
{
    if verdicts.len() == 0 {
        Seq::empty()
    } else {
        let before = only_parallel(verdicts.drop_last());
        if verdicts.last().1 == Verdict::NotParallel {
            before
        } else {
            before.push((verdicts.last().0@, verdicts.last().1))
        }
    }
}

/// Tests with the characters of their ids.
pub open spec fn named(v: Seq<(String, Verdict)>) -> Seq<(Seq<char>, Verdict)> {
    Seq::new(v.len(), |i: int| (v[i].0@, v[i].1))
}

/// Picks the tests that fail only in parallel.
pub fn migration_of(verdicts: &[(String, Verdict)]) -> (res: Vec<(String, Verdict)>)
    ensures
        named(res@) == only_parallel(verdicts@),
{
    let mut out: Vec<(String, Verdict)> = Vec::new();
    let mut i: usize = 0;
    assert(named(out@) =~= only_parallel(verdicts@.take(0)));
    while i < verdicts.len()
        invariant
            i <= verdicts.len(),
            named(out@) == only_parallel(verdicts@.take(i as int)),
        decreases verdicts.len() - i,
    {
        let v = &verdicts[i];
        let ghost before = named(out@);
        proof {
            assert(verdicts@.take(i + 1).drop_last() =~= verdicts@.take(i as int));
            assert(verdicts@.take(i + 1).last() == verdicts@[i as int]);
        }
        if v.1 != Verdict::NotParallel {
            out.push((v.0.clone(), v.1));
            assert(named(out@) =~= before.push((v.0@, v.1)));
        }
        i += 1;
    }
    assert(verdicts@.take(verdicts.len() as int) =~= verdicts@);
    out
}

/// Whether a serial order may show which file makes a test fail.
pub open spec fn may_be_polluted(v: Verdict) -> bool {
    v == Verdict::Isolation || v == Verdict::OrderDependency
}

/// The tests for which the file to blame is worth looking for.
pub open spec fn victims_of(verdicts: Seq<(String, Verdict)>) -> Seq<Seq<char>>
    decreases verdicts.len(),
{
    if verdicts.len() == 0 {
        Seq::empty()
    } else {
        let before = victims_of(verdicts.drop_last());
        if may_be_polluted(verdicts.last().1) {
            before.push(verdicts.last().0@)
        } else {
            before
        }
    }
}

/// Picks the first three tests for which the file to blame is worth looking for.
pub fn victims(verdicts: &[(String, Verdict)]) -> (res: Vec<String>)
    ensures
        texts(res@) == first_victims(verdicts@),
{
    let mut out: Vec<String> = Vec::new();
    let mut i: usize = 0;
    assert(texts(out@) =~= victims_of(verdicts@.take(0)));
    while i < verdicts.len()
        invariant
            i <= verdicts.len(),
            texts(out@) == victims_of(verdicts@.take(i as int)),
        decreases verdicts.len() - i,
    {
        let v = &verdicts[i];
        proof {
            assert(verdicts@.take(i + 1).drop_last() =~= verdicts@.take(i as int));
            assert(verdicts@.take(i + 1).last() == verdicts@[i as int]);
        }
        if v.1 == Verdict::Isolation || v.1 == Verdict::OrderDependency {
            out.push(v.0.clone());
        }
        i += 1;
    }
    assert(verdicts@.take(verdicts.len() as int) =~= verdicts@);
    let ghost all = texts(out@);
    if out.len() > 3 {
        out.truncate(3);
        assert(texts(out@) =~= all.take(3));
    } else {
        assert(texts(out@) =~= all.take(all.len() as int));
    }
    out
}

/// What is printed before files are looked for.
pub open spec fn bisecting_text(n: usize) -> Seq<char> {
    "  bisecting the polluting file for "@ + decimal(n as nat) + " victim(s)…"@
}

/// Writes what is printed before files are looked for.
pub fn bisecting(n: usize) -> (res: String)
    ensures
        res@ == bisecting_text(n),
{
    let mut out = String::from_str("  bisecting the polluting file for ");
    out.append(dec_len(n).as_str());
    out.append(" victim(s)…");
    out
}

/// The line on a suite in which nothing fails in parallel.
pub open spec fn ready_line_text(n: usize) -> Seq<char> {
    "PARALLEL: ready — "@ + decimal(n as nat) + " tests pass at -n auto."@
}

/// Writes the line on a suite in which nothing fails in parallel.
fn ready_line(n: usize) -> (res: String)
    ensures
        res@ == ready_line_text(n),
{
    let mut out = String::from_str("PARALLEL: ready — ");
    out.append(dec_len(n).as_str());
    out.append(" tests pass at -n auto.");
    out
}

/// The line on tests that fail in series too, for a suite that is ready.
pub open spec fn known_line_text(n: usize) -> Seq<char> {
    "  ("@ + decimal(n as nat)
        + " test(s) already fail at -n 0 — pre-existing, not a parallelism issue; see `rstest -n 0`.)"@
}

/// Writes the line on tests that fail in series too.
fn known_line(n: usize) -> (res: String)
    ensures
        res@ == known_line_text(n),
{
    let mut out = String::from_str("  (");
    out.append(dec_len(n).as_str());
    out.append(" test(s) already fail at -n 0 — pre-existing, not a parallelism issue; see `rstest -n 0`.)");
    out
}

/// The line on how many tests fail only in parallel.
pub open spec fn count_line_text(n: usize) -> Seq<char> {
    "PARALLEL: "@ + decimal(n as nat) + " test(s) fail only under parallelism, classified:\n"@
}

/// Writes the line on how many tests fail only in parallel.
fn count_line(n: usize) -> (res: String)
    ensures
        res@ == count_line_text(n),
{
    let mut out = String::from_str("PARALLEL: ");
    out.append(dec_len(n).as_str());
    out.append(" test(s) fail only under parallelism, classified:\n");
    out
}

/// The line on tests that fail in series too.
pub open spec fn plus_line_text(n: usize) -> Seq<char> {
    "  (plus "@ + decimal(n as nat)
        + " test(s) already failing at -n 0 — pre-existing, not shown.)"@
}

/// Writes the line on tests that fail in series too.
fn plus_line(n: usize) -> (res: String)
    ensures
        res@ == plus_line_text(n),
{
    let mut out = String::from_str("  (plus ");
    out.append(dec_len(n).as_str());
    out.append(" test(s) already failing at -n 0 — pre-existing, not shown.)");
    out
}

/// The line on findings that are all accepted.
pub open spec fn accepted_line_text(n: usize) -> Seq<char> {
    "  (all "@ + decimal(n as nat) + " finding(s) allow-listed — gate passes.)"@
}

/// Writes the line on findings that are all accepted.
fn accepted_line(n: usize) -> (res: String)
    ensures
        res@ == accepted_line_text(n),
{
    let mut out = String::from_str("  (all ");
    out.append(dec_len(n).as_str());
    out.append(" finding(s) allow-listed — gate passes.)");
    out
}

/// The line on how many more tests there are.
pub open spec fn rest_line_text(n: usize) -> Seq<char> {
    "      … and "@ + decimal(n as nat) + " more"@
}

/// Writes the line on how many more tests there are.
fn rest_line(n: usize) -> (res: String)
    ensures
        res@ == rest_line_text(n),
{
    let mut out = String::from_str("      … and ");
    out.append(dec_len(n).as_str());
    out.append(" more");
    out
}

/// The line with a verdict and how many tests it was reached on.
pub open spec fn title_line_text(v: Verdict, n: usize) -> Seq<char> {
    "  "@ + v.heading() + " ("@ + decimal(n as nat) + " test(s))"@
}

/// Writes the line with a verdict.
fn title_line(v: &Verdict, n: usize) -> (res: String)
    ensures
        res@ == title_line_text(*v, n),
{
    let mut out = String::from_str("  ");
    out.append(v.title().as_str());
    out.append(" (");
    out.append(dec_len(n).as_str());
    out.append(" test(s))");
    out
}

/// The line on a test that fails only in parallel.
pub open spec fn test_line(
    id: Seq<char>,
    allow: Seq<Seq<char>>,
    polluters: Map<Seq<char>, Polluter>,
) -> Seq<char> {
    let start = "      "@ + id + (if allowed_by(allow, id) {
        "  (allowed)"@
    } else {
        ""@
    });
    match blame(polluters, id) {
        Some(PolluterModel::OtherFile(f)) => start + "\n        POLLUTED BY: "@ + f,
        Some(PolluterModel::SameFile(f)) => start + "\n        SAME-FILE co-location (inspect "@ + f
            + ")"@,
        Some(PolluterModel::NotReproducible) => start
            + "\n        (not reproducible serially — likely a concurrent-resource race, not state pollution)"@,
        None => start,
    }
}

fn write_test(id: &String, allow: &[String], polluters: &OrderedMap<String, Polluter>) -> (res: String)
    ensures
        res@ == test_line(id@, texts(allow@), polluters@),
{
    let mut out = String::from_str("      ");
    out.append(id.as_str());
    if is_allowed(allow, id.as_str()) {
        out.append("  (allowed)");
    } else {
        out.append("");
    }
    match polluters.get(id) {
        Some(Polluter::OtherFile(f)) => {
            out.append("\n        POLLUTED BY: ");
            out.append(f.as_str());
        },
        Some(Polluter::SameFile(f)) => {
            out.append("\n        SAME-FILE co-location (inspect ");
            out.append(f.as_str());
            out.append(")");
        },
        Some(Polluter::NotReproducible) => {
            out.append(
                "\n        (not reproducible serially — likely a concurrent-resource race, not state pollution)",
            );
        },
        None => {},
    }
    out
}

/// The lines on the tests that were classed alike: at most eight of them.
pub open spec fn verdict_lines(
    v: Verdict,
    ids: Seq<Seq<char>>,
    allow: Seq<Seq<char>>,
    polluters: Map<Seq<char>, Polluter>,
) -> Seq<Seq<char>> {
    if ids.len() == 0 {
        Seq::empty()
    } else {
        let n: nat = if ids.len() < 8 {
            ids.len()
        } else {
            8
        };
        let shown = seq![
            title_line_text(v, ids.len() as usize),
            "    "@ + v.counsel().0,
            "    FIX: "@ + v.counsel().1,
        ] + Seq::new(n, |i: int| test_line(ids[i], allow, polluters));
        if ids.len() > 8 {
            shown.push(rest_line_text((ids.len() - 8) as usize)).push(""@)
        } else {
            shown.push(""@)
        }
    }
}

fn list_verdict(
    v: Verdict,
    verdicts: &[(String, Verdict)],
    allow: &[String],
    polluters: &OrderedMap<String, Polluter>,
) -> (res: Vec<String>)
    ensures
        texts(res@) == verdict_lines(v, with_verdict(verdicts@, v), texts(allow@), polluters@),
{
    let ids = tests_with(verdicts, v);
    let ghost all = texts(ids@);
    let mut out: Vec<String> = Vec::new();
    assert(texts(out@) =~= Seq::empty());
    if ids.len() == 0 {
        return out;
    }
    out.push(title_line(&v, ids.len()));
    let (why, fix) = v.advice();
    let mut line = String::from_str("    ");
    line.append(why.as_str());
    out.push(line);
    let mut line = String::from_str("    FIX: ");
    line.append(fix.as_str());
    out.push(line);
    let ghost head = seq![
        title_line_text(v, all.len() as usize),
        "    "@ + v.counsel().0,
        "    FIX: "@ + v.counsel().1,
    ];
    assert(texts(out@) =~= head);
    let n: usize = if ids.len() < 8 { ids.len() } else { 8 };
    let ghost rows = Seq::new(n as nat, |i: int| test_line(all[i], texts(allow@), polluters@));
    let mut i: usize = 0;
    assert(head + rows.take(0) =~= head);
    while i < n
        invariant
            i <= n <= ids.len(),
            all == texts(ids@),
            rows == Seq::new(n as nat, |i: int| test_line(all[i], texts(allow@), polluters@)),
            texts(out@) == head + rows.take(i as int),
        decreases n - i,
    {
        out.push(write_test(&ids[i], allow, polluters));
        i += 1;
        assert(head + rows.take(i as int) =~= (head + rows.take(i - 1)).push(rows[i - 1]));
    }
    assert(rows.take(n as int) =~= rows);
    if ids.len() > 8 {
        out.push(rest_line(ids.len() - 8));
    }
    out.push("".to_owned());
    out
}

/// The lines on all tests that fail only in parallel: verdict by verdict, in
/// ascending order of the titles.
pub open spec fn findings_lines(
    verdicts: Seq<(String, Verdict)>,
    allow: Seq<Seq<char>>,
    polluters: Map<Seq<char>, Polluter>,
) -> Seq<Seq<char>> {
    verdict_lines(
        Verdict::Inconclusive,
        with_verdict(verdicts, Verdict::Inconclusive),
        allow,
        polluters,
    ) + verdict_lines(
        Verdict::IntrinsicFlake,
        with_verdict(verdicts, Verdict::IntrinsicFlake),
        allow,
        polluters,
    ) + verdict_lines(
        Verdict::Isolation,
        with_verdict(verdicts, Verdict::Isolation),
        allow,
        polluters,
    ) + verdict_lines(
        Verdict::OrderDependency,
        with_verdict(verdicts, Verdict::OrderDependency),
        allow,
        polluters,
    ) + verdict_lines(
        Verdict::WallClock,
        with_verdict(verdicts, Verdict::WallClock),
        allow,
        polluters,
    )
}

fn list_findings(
    verdicts: &[(String, Verdict)],
    allow: &[String],
    polluters: &OrderedMap<String, Polluter>,
) -> (res: Vec<String>)
    ensures
        texts(res@) == findings_lines(verdicts@, texts(allow@), polluters@),
{
    let mut out = list_verdict(Verdict::Inconclusive, verdicts, allow, polluters);
    let mut more = list_verdict(Verdict::IntrinsicFlake, verdicts, allow, polluters);
    out.append(&mut more);
    let mut more = list_verdict(Verdict::Isolation, verdicts, allow, polluters);
    out.append(&mut more);
    let mut more = list_verdict(Verdict::OrderDependency, verdicts, allow, polluters);
    out.append(&mut more);
    let mut more = list_verdict(Verdict::WallClock, verdicts, allow, polluters);
    out.append(&mut more);
    out
}

/// How many of the first `n` tests are not accepted.
pub open spec fn unaccepted(
    tests: Seq<(Seq<char>, Verdict)>,
    allow: Seq<Seq<char>>,
    n: nat,
) -> nat
    decreases n,
{
    if n == 0 {
        0
    } else {
        unaccepted(tests, allow, (n - 1) as nat) + (if allowed_by(allow, tests[n - 1].0) {
            0nat
        } else {
            1
        })
    }
}

/// How a check ends.
pub struct Conclusion {
    pub lines: Vec<String>,
    pub ready: bool,
    pub parallel: ParallelReport,
    /// The code to exit with.
    pub exit: i32,
}

/// The lines on a run in parallel of so many tests, given what was found.
pub open spec fn conclusion_lines(
    ran: usize,
    verdicts: Seq<(String, Verdict)>,
    allow: Seq<Seq<char>>,
    polluters: Map<Seq<char>, Polluter>,
) -> Seq<Seq<char>> {
    let found = only_parallel(verdicts);
    let known = with_verdict(verdicts, Verdict::NotParallel).len() as usize;
    if ran == 0 {
        seq!["PARALLEL: could not capture outcomes (no snapshot) — run `rstest` manually."@]
    } else if verdicts.len() == 0 {
        seq![ready_line_text(ran)]
    } else if found.len() == 0 {
        let head = seq![
            "PARALLEL: ready — every test that passes at -n 0 also passes at -n auto."@,
        ];
        if known > 0 {
            head.push(known_line_text(known))
        } else {
            head
        }
    } else {
        let body = seq![count_line_text(found.len() as usize)] + findings_lines(
            verdicts,
            allow,
            polluters,
        );
        let more = if known > 0 {
            body.push(plus_line_text(known))
        } else {
            body
        };
        if unaccepted(found, allow, found.len()) == 0 {
            more.push(accepted_line_text(found.len() as usize))
        } else {
            more
        }
    }
}

/// Whether entries say what is known of tests that fail only in parallel.
pub open spec fn findings_stored(
    entries: Seq<Finding>,
    found: Seq<(Seq<char>, Verdict)>,
    allow: Seq<Seq<char>>,
    polluters: Map<Seq<char>, Polluter>,
) -> bool {
    entries.len() == found.len() && forall|i: int|
        0 <= i < entries.len() ==> {
            let f = #[trigger] entries[i];
            &&& f.nodeid@ == found[i].0
            &&& f.verdict@ == found[i].1.heading()
            &&& f.why@ == found[i].1.counsel().0
            &&& f.fix@ == found[i].1.counsel().1
            &&& polluter_stored(f.polluter, blame(polluters, found[i].0))
            &&& f.allowed == allowed_by(allow, found[i].0)
        }
}

/// Ends a check with a run in parallel of so many tests, given what was found.
pub fn conclude(
    ran: usize,
    verdicts: &[(String, Verdict)],
    allow: &[String],
    polluters: &OrderedMap<String, Polluter>,
) -> (res: Conclusion)
    ensures
        texts(res.lines@) == conclusion_lines(ran, verdicts@, texts(allow@), polluters@),
        res.ready == is_ready(ran, verdicts@),
        res.exit == check_exit(ran, verdicts@, texts(allow@)),
        is_parallel_part(res.parallel, ran, verdicts@, texts(allow@), polluters@),
{
    let ghost all = texts(allow@);
    let mut out: Vec<String> = Vec::new();
    assert(texts(out@) =~= Seq::empty());
    let migration = migration_of(verdicts);
    let ghost found = only_parallel(verdicts@);
    assert(named(migration@).len() == migration@.len());
    let known = tests_with(verdicts, Verdict::NotParallel);
    assert(texts(known@).len() == known@.len());
    let preexisting = known.len();
    let mut blocking: usize = 0;
    let mut i: usize = 0;
    while i < migration.len()
        invariant
            i <= migration.len(),
            all == texts(allow@),
            found == named(migration@),
            blocking == unaccepted(found, all, i as nat),
            blocking <= i,
        decreases migration.len() - i,
    {
        assert(found[i as int].0 == migration@[i as int].0@);
        if !is_allowed(allow, migration[i].0.as_str()) {
            blocking += 1;
        }
        i += 1;
    }
    if ran == 0 {
        assert(verdicts@.len() == 0 || verdicts@.len() > 0);
        out.push(
            "PARALLEL: could not capture outcomes (no snapshot) — run `rstest` manually.".to_owned(),
        );
        assert(texts(out@) =~= conclusion_lines(ran, verdicts@, all, polluters@));
        return Conclusion {
            lines: out,
            ready: false,
            parallel: ParallelReport { findings: None, preexisting: None, ran: false, ready: None },
            exit: 1,
        };
    }
    let accepts = |s: &str| -> (r: bool)
        ensures
            r == allowed_by(texts(allow@), s@),
        { is_allowed(allow, s) };
    let entries = findings_json(migration.as_slice(), polluters, &accepts);
    proof {
        assert forall|i: int| 0 <= i < entries@.len() implies {
            let f = #[trigger] entries@[i];
            &&& f.nodeid@ == found[i].0
            &&& f.verdict@ == found[i].1.heading()
            &&& f.why@ == found[i].1.counsel().0
            &&& f.fix@ == found[i].1.counsel().1
            &&& polluter_stored(f.polluter, blame(polluters@, found[i].0))
            &&& f.allowed == allowed_by(all, found[i].0)
        } by {
            assert(finding_stored(
                entries@[i],
                migration@[i].0@,
                migration@[i].1,
                polluters@,
                accepts,
            ));
            assert(found[i] == (migration@[i].0@, migration@[i].1));
        }
        assert(findings_stored(entries@, found, all, polluters@));
    }
    let ready = migration.len() == 0;
    if verdicts.len() == 0 {
        out.push(ready_line(ran));
    } else if migration.len() == 0 {
        out.push(
            "PARALLEL: ready — every test that passes at -n 0 also passes at -n auto.".to_owned(),
        );
        if preexisting > 0 {
            out.push(known_line(preexisting));
        }
    } else {
        out.push(count_line(migration.len()));
        assert(texts(out@) =~= seq![count_line_text(found.len() as usize)]);
        let mut more = list_findings(verdicts, allow, polluters);
        out.append(&mut more);
        if preexisting > 0 {
            out.push(plus_line(preexisting));
        }
        if blocking == 0 {
            out.push(accepted_line(migration.len()));
        }
    }
    assert(texts(out@) =~= conclusion_lines(ran, verdicts@, all, polluters@));
    Conclusion {
        lines: out,
        ready,
        parallel: ParallelReport {
            findings: Some(entries),
            preexisting: Some(preexisting),
            ran: true,
            ready: Some(ready),
        },
        exit: if blocking > 0 {
            1
        } else {
            0
        },
    }
}

/// Accepting more never makes the check fail.
pub proof fn theorem_accepting_helps(
    tests: Seq<(Seq<char>, Verdict)>,
    allow: Seq<Seq<char>>,
    more: Seq<Seq<char>>,
    n: nat,
)
    requires
        n <= tests.len(),
    ensures
        unaccepted(tests, allow + more, n) <= unaccepted(tests, allow, n),
    decreases n,
{
    if n > 0 {
        theorem_accepting_helps(tests, allow, more, (n - 1) as nat);
        let id = tests[n - 1].0;
        if allowed_by(allow, id) {
            let i = choose|i: int| 0 <= i < allow.len() && contains_sub(id, #[trigger] allow[i]);
            assert((allow + more)[i] == allow[i]);
        }
    }
}

/// Whether `c` compares two collections of a suite.
pub open spec fn compared(c: Compared, a: Seq<Seq<char>>, b: Seq<Seq<char>>) -> bool {
    &&& a.to_set().union(b.to_set()).finite()
    &&& c.total == a.to_set().union(b.to_set()).len()
    &&& c.stable == a.to_set().intersect(b.to_set()).len()
    &&& strictly_ascending(texts(c.unstable@))
    &&& texts(c.unstable@).to_set() == a.to_set().difference(b.to_set()).union(
        b.to_set().difference(a.to_set()),
    )
}

/// With what code the check ends after the collections, where it ends there.
pub open spec fn survey_exit(
    sites: Seq<(String, Acc)>,
    bail: usize,
    allow: Seq<Seq<char>>,
) -> Option<i32> {
    if bail == 0 {
        None
    } else if blocking_sites(sites, allow, sites.len()) == 0 {
        Some(0i32)
    } else {
        Some(1i32)
    }
}

/// The tests whose polluter is sought: the first three that may have one.
pub open spec fn first_victims(verdicts: Seq<(String, Verdict)>) -> Seq<Seq<char>> {
    victims_of(verdicts).take(
        if victims_of(verdicts).len() < 3 {
            victims_of(verdicts).len() as int
        } else {
            3
        },
    )
}

/// Whether a suite is ready to run in parallel.
pub open spec fn is_ready(ran: usize, verdicts: Seq<(String, Verdict)>) -> bool {
    ran > 0 && only_parallel(verdicts).len() == 0
}

/// With what code the check ends after the runs.
pub open spec fn check_exit(
    ran: usize,
    verdicts: Seq<(String, Verdict)>,
    allow: Seq<Seq<char>>,
) -> int {
    if ran == 0 || unaccepted(only_parallel(verdicts), allow, only_parallel(verdicts).len()) > 0 {
        1
    } else {
        0
    }
}

/// A test is unstable just where it is in one of the two collections and not in the other;
/// so which of them came first does not matter, and two that agree have no unstable tests.
pub proof fn theorem_unstable_tests(
    c: Compared,
    a: Seq<Seq<char>>,
    b: Seq<Seq<char>>,
    id: Seq<char>,
)
    requires
        compared(c, a, b),
    ensures
        texts(c.unstable@).contains(id) <==> a.contains(id) != b.contains(id),
        c.total == c.stable + c.unstable@.len(),
        a == b ==> c.unstable@.len() == 0,
{
    let u = texts(c.unstable@);
    let x = a.to_set();
    let y = b.to_set();
    assert(u.contains(id) == u.to_set().contains(id));
    assert(x.contains(id) == a.contains(id) && y.contains(id) == b.contains(id));
    assert(u.no_duplicates()) by {
        assert forall|i: int, j: int| 0 <= i < u.len() && 0 <= j < u.len() && i != j implies u[i]
            != u[j] by {
            if i < j {
                assert(crate::order::text_lt(u[i], u[j]));
            } else {
                assert(crate::order::text_lt(u[j], u[i]));
            }
        }
    }
    u.unique_seq_to_set();
    let both = x.intersect(y);
    assert(both.disjoint(u.to_set()));
    assert(both.union(u.to_set()) =~= x.union(y));
    vstd::set_lib::lemma_set_disjoint_lens(both, u.to_set());
    if a == b {
        assert(u.to_set() =~= Set::empty());
        if u.len() > 0 {
            assert(u.to_set().contains(u[0]));
        }
    }
}

/// What is accepted is what holds one of the accepted texts, anywhere in it; where nothing
/// is accepted, nothing is.
pub proof fn theorem_accepted_by_a_part(
    allow: Seq<Seq<char>>,
    i: int,
    before: Seq<char>,
    after: Seq<char>,
)
    ensures
        0 <= i < allow.len() ==> allowed_by(allow, before + allow[i] + after),
        !allowed_by(Seq::empty(), before),
        allowed_by(allow, before) ==> exists|k: int, at: int|
            0 <= k < allow.len() && #[trigger] crate::text::occurs_at(before, allow[k], at),
{
    if 0 <= i < allow.len() {
        let s = before + allow[i] + after;
        let n = before.len() as int;
        assert(s.subrange(n, n + allow[i].len()) =~= allow[i]);
        assert(crate::text::occurs_at(s, allow[i], n));
        assert(contains_sub(s, allow[i]));
    }
    if allowed_by(allow, before) {
        let k = choose|k: int| 0 <= k < allow.len() && contains_sub(before, #[trigger] allow[k]);
        let at = choose|at: int| crate::text::occurs_at(before, allow[k], at);
        assert(crate::text::occurs_at(before, allow[k], at));
    }
}

proof fn lemma_blocking_sites(sites: Seq<(String, Acc)>, allow: Seq<Seq<char>>, n: nat)
    requires
        n <= sites.len(),
    ensures
        blocking_sites(sites, allow, n) > 0 <==> exists|i: int|
            0 <= i < n && (#[trigger] sites[i]).1@.bails() && !allowed_by(allow, sites[i].0@),
    decreases n,
{
    if n > 0 {
        lemma_blocking_sites(sites, allow, (n - 1) as nat);
        if sites[n - 1].1@.bails() && !allowed_by(allow, sites[n - 1].0@) {
            assert(sites[n - 1].1@.bails());
        }
    }
}

/// Ids that differ in every process end the check: with success where every site that has
/// them is accepted, and else with a failure. Without such ids it goes on.
pub proof fn theorem_unstable_sites_end_the_check(
    sites: Seq<(String, Acc)>,
    bail: usize,
    allow: Seq<Seq<char>>,
)
    ensures
        survey_exit(sites, 0, allow) is None,
        bail > 0 ==> survey_exit(sites, bail, allow) == (if exists|i: int|
            0 <= i < sites.len() && (#[trigger] sites[i]).1@.bails() && !allowed_by(
                allow,
                sites[i].0@,
            ) {
            Some(1i32)
        } else {
            Some(0i32)
        }),
{
    lemma_blocking_sites(sites, allow, sites.len());
}

/// A site stops a parallel run just where it has an address or a UUID in an id.
pub proof fn theorem_sites_that_stop_a_run(m: AccModel, param: Seq<char>, kind: Kind)
    ensures
        m.with(param, kind).bails() <==> m.bails() || kind == Kind::Address || kind == Kind::Uuid,
        m.count(kind.name()) < usize::MAX ==> m.with(param, kind).count(kind.name()) == m.count(
            kind.name(),
        ) + 1,
        (AccModel { counts: Map::empty(), worst: Kind::Other, sample: param }).bails() == false,
{
    reveal_strlit("address");
    reveal_strlit("uuid");
    reveal_strlit("time");
    reveal_strlit("other");
    assert("address"@.len() == 7);
    assert("uuid"@.len() == 4);
    assert("time"@.len() == 4);
    assert("other"@.len() == 5);
    assert("uuid"@[0] == 'u');
    assert("time"@[0] == 't');
}

/// How many ids differ in every process is how many hold an address or a UUID.
pub proof fn theorem_stopping_ids_are_counted(items: Seq<Item>, item: Item)
    ensures
        bail_count(items.push(item)) == bail_count(items) + (if item.2 == Kind::Address || item.2
            == Kind::Uuid {
            1int
        } else {
            0
        }),
        bail_count(Seq::<Item>::empty()) == 0,
{
    assert(items.push(item).drop_last() =~= items);
}

proof fn lemma_only_parallel(verdicts: Seq<(String, Verdict)>)
    ensures
        forall|i: int|
            0 <= i < verdicts.len() && (#[trigger] verdicts[i]).1 != Verdict::NotParallel
                ==> only_parallel(verdicts).contains((verdicts[i].0@, verdicts[i].1)),
        forall|k: int|
            0 <= k < only_parallel(verdicts).len() ==> (#[trigger] only_parallel(verdicts)[k]).1
                != Verdict::NotParallel && exists|i: int|
                0 <= i < verdicts.len() && (#[trigger] verdicts[i]).0@ == only_parallel(
                    verdicts,
                )[k].0 && verdicts[i].1 == only_parallel(verdicts)[k].1,
    decreases verdicts.len(),
{
    if verdicts.len() > 0 {
        let init = verdicts.drop_last();
        let before = only_parallel(init);
        let all = only_parallel(verdicts);
        lemma_only_parallel(init);
        assert forall|i: int|
            0 <= i < verdicts.len() && (#[trigger] verdicts[i]).1 != Verdict::NotParallel implies all.contains(
            (verdicts[i].0@, verdicts[i].1),
        ) by {
            if i < init.len() {
                assert(init[i] == verdicts[i]);
                let k = choose|k: int|
                    0 <= k < before.len() && before[k] == (init[i].0@, init[i].1);
                assert(all[k] == before[k]);
            } else {
                assert(all[all.len() - 1] == (verdicts[i].0@, verdicts[i].1));
            }
        }
        assert forall|k: int| 0 <= k < all.len() implies (#[trigger] all[k]).1
            != Verdict::NotParallel && exists|i: int|
            0 <= i < verdicts.len() && (#[trigger] verdicts[i]).0@ == all[k].0 && verdicts[i].1
                == all[k].1 by {
            if k < before.len() {
                assert(before[k] == all[k]);
                let i = choose|i: int|
                    0 <= i < init.len() && (#[trigger] init[i]).0@ == before[k].0 && init[i].1
                        == before[k].1;
                assert(verdicts[i] == init[i]);
            } else {
                assert(verdicts[verdicts.len() - 1].0@ == all[k].0);
            }
        }
    }
}

proof fn lemma_unaccepted(tests: Seq<(Seq<char>, Verdict)>, allow: Seq<Seq<char>>, n: nat)
    requires
        n <= tests.len(),
    ensures
        unaccepted(tests, allow, n) == 0 <==> forall|k: int|
            0 <= k < n ==> allowed_by(allow, (#[trigger] tests[k]).0),
    decreases n,
{
    if n > 0 {
        lemma_unaccepted(tests, allow, (n - 1) as nat);
        if unaccepted(tests, allow, n) == 0 {
            assert(allowed_by(allow, tests[n - 1].0));
        }
    }
}

/// A suite is ready just where it ran and every test that failed in parallel fails in
/// series too; and the check succeeds just where it ran and every other test that failed
/// is accepted.
pub proof fn theorem_ready_suites(
    ran: usize,
    verdicts: Seq<(String, Verdict)>,
    allow: Seq<Seq<char>>,
)
    ensures
        is_ready(ran, verdicts) <==> ran > 0 && forall|i: int|
            0 <= i < verdicts.len() ==> (#[trigger] verdicts[i]).1 == Verdict::NotParallel,
        check_exit(ran, verdicts, allow) == 0 <==> ran > 0 && forall|i: int|
            0 <= i < verdicts.len() && (#[trigger] verdicts[i]).1 != Verdict::NotParallel
                ==> allowed_by(allow, verdicts[i].0@),
        check_exit(ran, verdicts, allow) == 0 || check_exit(ran, verdicts, allow) == 1,
        is_ready(ran, verdicts) ==> check_exit(ran, verdicts, allow) == 0,
{
    let found = only_parallel(verdicts);
    lemma_only_parallel(verdicts);
    lemma_unaccepted(found, allow, found.len());
    if found.len() > 0 {
        assert(found[0].1 != Verdict::NotParallel);
    }
    if forall|k: int| 0 <= k < found.len() ==> allowed_by(allow, (#[trigger] found[k]).0) {
        assert forall|i: int|
            0 <= i < verdicts.len() && (#[trigger] verdicts[i]).1 != Verdict::NotParallel implies allowed_by(
            allow,
            verdicts[i].0@,
        ) by {
            let k = choose|k: int|
                0 <= k < found.len() && found[k] == (verdicts[i].0@, verdicts[i].1);
            assert(allowed_by(allow, found[k].0));
        }
    }
    if forall|i: int|
        0 <= i < verdicts.len() && (#[trigger] verdicts[i]).1 != Verdict::NotParallel
            ==> allowed_by(allow, verdicts[i].0@) {
        assert forall|k: int| 0 <= k < found.len() implies allowed_by(
            allow,
            (#[trigger] found[k]).0,
        ) by {
            let i = choose|i: int|
                0 <= i < verdicts.len() && (#[trigger] verdicts[i]).0@ == found[k].0
                    && verdicts[i].1 == found[k].1;
            assert(verdicts[i].1 != Verdict::NotParallel);
        }
    }
}

/// A polluter is sought for tests that are not isolated and for those whose order matters,
/// in the order they were judged, and for three at most.
pub proof fn theorem_polluters_are_sought_for_three(verdicts: Seq<(String, Verdict)>, id: Seq<char>)
    ensures
        first_victims(verdicts).len() <= 3,
        first_victims(verdicts).contains(id) ==> exists|i: int|
            0 <= i < verdicts.len() && (#[trigger] verdicts[i]).0@ == id && (verdicts[i].1
                == Verdict::Isolation || verdicts[i].1 == Verdict::OrderDependency),
        first_victims(verdicts).len() < 3 ==> forall|i: int|
            0 <= i < verdicts.len() && ((#[trigger] verdicts[i]).1 == Verdict::Isolation
                || verdicts[i].1 == Verdict::OrderDependency) ==> first_victims(verdicts).contains(
                verdicts[i].0@,
            ),
        crate::sequences::subsequence(victims_of(verdicts), ids_judged(verdicts)),
{
    lemma_victims(verdicts);
    let all = victims_of(verdicts);
    let some = first_victims(verdicts);
    if some.contains(id) {
        let k = choose|k: int| 0 <= k < some.len() && some[k] == id;
        assert(all[k] == id);
        assert(all.contains(id));
    }
    if some.len() < 3 {
        assert(some =~= all);
    }
}

/// The judged tests.
pub open spec fn ids_judged(verdicts: Seq<(String, Verdict)>) -> Seq<Seq<char>> {
    Seq::new(verdicts.len(), |i: int| verdicts[i].0@)
}

proof fn lemma_victims(verdicts: Seq<(String, Verdict)>)
    ensures
        forall|id: Seq<char>| #[trigger]
            victims_of(verdicts).contains(id) ==> exists|i: int|
                0 <= i < verdicts.len() && (#[trigger] verdicts[i]).0@ == id && (verdicts[i].1
                    == Verdict::Isolation || verdicts[i].1 == Verdict::OrderDependency),
        forall|i: int|
            0 <= i < verdicts.len() && ((#[trigger] verdicts[i]).1 == Verdict::Isolation
                || verdicts[i].1 == Verdict::OrderDependency) ==> victims_of(verdicts).contains(
                verdicts[i].0@,
            ),
        crate::sequences::subsequence(victims_of(verdicts), ids_judged(verdicts)),
    decreases verdicts.len(),
{
    if verdicts.len() > 0 {
        let init = verdicts.drop_last();
        let before = victims_of(init);
        let all = victims_of(verdicts);
        lemma_victims(init);
        assert(ids_judged(verdicts).drop_last() =~= ids_judged(init));
        if may_be_polluted(verdicts.last().1) {
            assert(all.drop_last() =~= before);
        }
        assert forall|id: Seq<char>| #[trigger] all.contains(id) implies exists|i: int|
            0 <= i < verdicts.len() && (#[trigger] verdicts[i]).0@ == id && (verdicts[i].1
                == Verdict::Isolation || verdicts[i].1 == Verdict::OrderDependency) by {
            let k = choose|k: int| 0 <= k < all.len() && all[k] == id;
            if k < before.len() {
                assert(before[k] == id);
                assert(before.contains(id));
                let i = choose|i: int|
                    0 <= i < init.len() && (#[trigger] init[i]).0@ == id && (init[i].1
                        == Verdict::Isolation || init[i].1 == Verdict::OrderDependency);
                assert(verdicts[i] == init[i]);
            } else {
                assert(verdicts[verdicts.len() - 1].0@ == id);
            }
        }
        assert forall|i: int|
            0 <= i < verdicts.len() && ((#[trigger] verdicts[i]).1 == Verdict::Isolation
                || verdicts[i].1 == Verdict::OrderDependency) implies all.contains(
            verdicts[i].0@,
        ) by {
            if i < init.len() {
                assert(init[i] == verdicts[i]);
                let k = choose|k: int| 0 <= k < before.len() && before[k] == init[i].0@;
                assert(all[k] == before[k]);
            } else {
                assert(all[all.len() - 1] == verdicts[i].0@);
            }
        }
    }
}

/// A text is cut off at a whole character, takes no more bytes than it may, and is not cut
/// off where it fits.
pub proof fn theorem_texts_are_cut_off_where_needed(s: Seq<char>, n: nat, max: nat)
    requires
        fills(s, n, max),
    ensures
        bytes_of(s, n) <= max,
        bytes_of(s, s.len()) <= max ==> n == s.len(),
        (forall|i: int| 0 <= i < s.len() ==> (#[trigger] s[i]) as u32 <= 127) ==> n == (if s.len()
            <= max {
            s.len()
        } else {
            max
        }),
{
    if bytes_of(s, s.len()) <= max {
        assert(fills(s, s.len(), max));
        theorem_one_cut(s, n, s.len(), max);
    }
    if forall|i: int| 0 <= i < s.len() ==> (#[trigger] s[i]) as u32 <= 127 {
        lemma_plain_bytes(s, s.len());
        lemma_plain_bytes(s, n);
        if n < s.len() {
            lemma_plain_bytes(s, n + 1);
        }
    }
}

proof fn lemma_plain_bytes(s: Seq<char>, n: nat)
    requires
        n <= s.len(),
        forall|i: int| 0 <= i < s.len() ==> (#[trigger] s[i]) as u32 <= 127,
    ensures
        bytes_of(s, n) == n,
    decreases n,
{
    if n > 0 {
        lemma_plain_bytes(s, (n - 1) as nat);
        assert(s[n - 1] as u32 <= 127);
    }
}

/// Whether `p` tells what runs in parallel showed.
pub open spec fn is_parallel_part(
    p: ParallelReport,
    ran: usize,
    verdicts: Seq<(String, Verdict)>,
    allow: Seq<Seq<char>>,
    polluters: Map<Seq<char>, Polluter>,
) -> bool {
    &&& p.ran == (ran > 0)
    &&& match p.ready {
        Some(r) => ran > 0 && r == is_ready(ran, verdicts),
        None => ran == 0,
    }
    &&& match p.preexisting {
        Some(n) => ran > 0 && n == with_verdict(verdicts, Verdict::NotParallel).len(),
        None => ran == 0,
    }
    &&& match p.findings {
        Some(v) => ran > 0 && findings_stored(v@, only_parallel(verdicts), allow, polluters),
        None => ran == 0,
    }
}

/// Where nothing ran, nothing is told of runs; where something did, a test is told of just
/// where it fails in parallel only, as accepted just where it is.
pub proof fn theorem_what_runs_in_parallel_showed(
    p: ParallelReport,
    ran: usize,
    verdicts: Seq<(String, Verdict)>,
    allow: Seq<Seq<char>>,
    polluters: Map<Seq<char>, Polluter>,
    k: int,
    i: int,
)
    requires
        is_parallel_part(p, ran, verdicts, allow, polluters),
    ensures
        p.ran <==> ran >= 1,
        !p.ran ==> p.ready is None && p.preexisting is None && p.findings is None,
        p.ran ==> p.ready is Some && p.preexisting is Some && p.findings is Some,
        p.ready == Some(true) ==> forall|q: int|
            0 <= q < verdicts.len() ==> (#[trigger] verdicts[q]).1 == Verdict::NotParallel,
        p.findings matches Some(v) ==> (0 <= k < v@.len() ==> v@[k].allowed == allowed_by(
            allow,
            v@[k].nodeid@,
        ) && exists|q: int|
            0 <= q < verdicts.len() && (#[trigger] verdicts[q]).0@ == v@[k].nodeid@ && verdicts[q].1
                != Verdict::NotParallel && v@[k].verdict@ == verdicts[q].1.heading()),
        p.findings matches Some(v) ==> (0 <= i < verdicts.len() && verdicts[i].1
            != Verdict::NotParallel ==> exists|q: int|
            0 <= q < v@.len() && (#[trigger] v@[q]).nodeid@ == verdicts[i].0@),
{
    lemma_only_parallel(verdicts);
    theorem_ready_suites(ran, verdicts, allow);
    let found = only_parallel(verdicts);
    if let Some(v) = p.findings {
        if 0 <= k < v@.len() {
            assert(v@[k].nodeid@ == found[k].0);
            assert(found[k].1 != Verdict::NotParallel);
        }
        if 0 <= i < verdicts.len() && verdicts[i].1 != Verdict::NotParallel {
            assert(found.contains((verdicts[i].0@, verdicts[i].1)));
            let q = choose|q: int|
                0 <= q < found.len() && found[q] == (verdicts[i].0@, verdicts[i].1);
            assert(v@[q].nodeid@ == found[q].0);
        }
    }
}

/// Which file is to blame is told by a name for the kind of blame, with the file where there
/// is one.
pub proof fn theorem_kinds_of_blame(j: Option<PolluterJson>, file: Seq<char>)
    ensures
        polluter_stored(j, None) ==> j is None,
        polluter_stored(j, Some(PolluterModel::OtherFile(file))) ==> (j matches Some(p) && p.kind@
            == "other_file"@ && (p.file matches Some(f) && f@ == file)),
        polluter_stored(j, Some(PolluterModel::SameFile(file))) ==> (j matches Some(p) && p.kind@
            == "same_file"@ && (p.file matches Some(f) && f@ == file)),
        polluter_stored(j, Some(PolluterModel::NotReproducible)) ==> (j matches Some(p) && p.kind@
            == "not_reproducible"@ && p.file is None),
{
}

/// What is said after runs in parallel: that there were none; how many tests passed, where
/// none failed; that the suite is ready, where those that failed fail in series too; and else
/// how many fail in parallel only, with a last line where all of those are accepted.
pub proof fn theorem_what_is_said_of_runs(
    ran: usize,
    verdicts: Seq<(String, Verdict)>,
    allow: Seq<Seq<char>>,
    polluters: Map<Seq<char>, Polluter>,
)
    requires
        only_parallel(verdicts).len() <= usize::MAX,
    ensures
        ({
            let lines = conclusion_lines(ran, verdicts, allow, polluters);
            let found = only_parallel(verdicts).len();
            let known = with_verdict(verdicts, Verdict::NotParallel).len() as usize;
            &&& ran == 0 ==> lines == seq![
                "PARALLEL: could not capture outcomes (no snapshot) — run `rstest` manually."@,
            ]
            &&& ran > 0 && verdicts.len() == 0 ==> lines == seq![
                "PARALLEL: ready — "@ + decimal(ran as nat) + " tests pass at -n auto."@,
            ]
            &&& ran > 0 && verdicts.len() > 0 && found == 0 ==> lines[0]
                == "PARALLEL: ready — every test that passes at -n 0 also passes at -n auto."@
                && lines.len() == (if known > 0 {
                2int
            } else {
                1
            })
            &&& ran > 0 && found > 0 ==> lines[0] == "PARALLEL: "@ + decimal(found)
                + " test(s) fail only under parallelism, classified:\n"@
            &&& ran > 0 && found > 0 && check_exit(ran, verdicts, allow) == 0 ==> lines.last()
                == "  (all "@ + decimal(found) + " finding(s) allow-listed — gate passes.)"@
        }),
{
    lemma_only_parallel(verdicts);
    if verdicts.len() == 0 {
        assert(only_parallel(verdicts).len() == 0);
    }
}

/// Of the tests judged alike eight are shown, and how many more there are; a test that is
/// accepted is marked.
pub proof fn theorem_eight_tests_are_shown(
    v: Verdict,
    ids: Seq<Seq<char>>,
    allow: Seq<Seq<char>>,
    polluters: Map<Seq<char>, Polluter>,
    i: int,
)
    ensures
        ({
            let lines = verdict_lines(v, ids, allow, polluters);
            &&& ids.len() == 0 ==> lines.len() == 0
            &&& 0 < ids.len() <= 8 ==> lines.len() == 4 + ids.len()
            &&& ids.len() > 8 ==> lines.len() == 13 && lines[11] == "      … and "@ + decimal(
                ((ids.len() - 8) as usize) as nat,
            ) + " more"@
            &&& ids.len() > 0 ==> lines[1] == "    "@ + v.counsel().0 && lines[2] == "    FIX: "@
                + v.counsel().1
            &&& 0 <= i < ids.len() && i < 8 ==> lines[3 + i] == test_line(ids[i], allow, polluters)
            &&& 0 <= i < ids.len() && !polluters.contains_key(ids[i]) && allowed_by(allow, ids[i])
                ==> test_line(ids[i], allow, polluters) == "      "@ + ids[i] + "  (allowed)"@
            &&& 0 <= i < ids.len() && !polluters.contains_key(ids[i]) && !allowed_by(allow, ids[i])
                ==> test_line(ids[i], allow, polluters) == "      "@ + ids[i] + ""@
        }),
{
}

/// A site says whether it stops a run, and what to do about it.
pub proof fn theorem_what_is_said_of_a_site(site: Seq<char>, acc: Acc)
    ensures
        site_lines(site, acc)[0] == "  "@ + site,
        site_lines(site, acc)[3] == "    FIX (upstream): "@ + acc.worst.remedy(),
        acc@.bails() ==> site_lines(site, acc)[4] == "    STOPGAP (rstest): -n 0\n"@,
        acc@.bails() ==> site_lines(site, acc)[1] == "    "@ + joined(
            kind_texts(acc.counts.list()),
            ", "@,
        ) + "   -> "@ + "WILL bail"@,
        !acc@.bails() ==> site_lines(site, acc)[1] == "    "@ + joined(
            kind_texts(acc.counts.list()),
            ", "@,
        ) + "   -> "@ + "may bail (timing)"@,
{
}

/// A survey says that a collection is stable where it is, and what stops a run where
/// something does.
pub proof fn theorem_what_a_survey_says(
    c: Compared,
    sites: Seq<(String, Acc)>,
    bail: usize,
    allow: Seq<Seq<char>>,
)
    ensures
        ({
            let lines = survey_lines(c, sites, bail, allow);
            &&& lines[0] == suite_line_text(c)
            &&& c.unstable@.len() == 0 ==> lines[1]
                == "  UNSTABLE NODEIDS: none — collection is reproducible.\n"@
            &&& c.unstable@.len() == 0 && bail == 0 ==> lines.len() == 2
            &&& bail > 0 && survey_exit(sites, bail, allow) == Some(0i32) ==> lines.last()
                == "    (all allow-listed — gate passes.)"@
            &&& bail > 0 && survey_exit(sites, bail, allow) == Some(1i32) ==> lines.last()
                == forced_line_text(bail)
        }),
{
}

/// Whether `doc` tells how a check came out.
pub open spec fn is_check_doc(
    doc: MigrateCheckDoc,
    ready: bool,
    tests: usize,
    will_bail: usize,
) -> bool {
    &&& doc.meta.kind@ == "migrate-check"@
    &&& doc.meta.runner@ == "rstest"@
    &&& doc.meta.schema == 1
    &&& doc.ready == ready
    &&& doc.tests_collected == tests
    &&& doc.will_bail_count == will_bail
}

/// What a check stores says whether the suite is ready, and how many tests and ids there were.
pub proof fn theorem_what_a_check_stores(
    doc: MigrateCheckDoc,
    ready: bool,
    tests: usize,
    will_bail: usize,
)
    requires
        is_check_doc(doc, ready, tests, will_bail),
    ensures
        doc.ready <==> ready,
        doc.tests_collected == tests && doc.will_bail_count == will_bail,
        doc.meta.kind@ == "migrate-check"@ && doc.meta.runner@ == "rstest"@,
{
}

/// What is stored of a site is what was gathered of it: its ids by kind, one of them, the fix
/// for the worst, and whether it stops a run.
pub proof fn theorem_what_is_stored_of_a_site<A: Fn(&str) -> bool>(
    u: UnstableSite,
    site: Seq<char>,
    acc: AccModel,
    allowed: A,
)
    requires
        site_stored(u, site, acc, allowed),
    ensures
        u.site@ == site && u.sample@ == acc.sample && u.kinds@ == acc.counts,
        u.fix@ == acc.worst.remedy(),
        u.will_bail <==> acc.bails(),
{
}

/// What is stored of a test is its id, what it was judged to be and why, the fix, and which
/// file is to blame where one was looked for.
pub proof fn theorem_what_is_stored_of_a_test<A: Fn(&str) -> bool>(
    f: Finding,
    id: Seq<char>,
    v: Verdict,
    polluters: Map<Seq<char>, Polluter>,
    allowed: A,
)
    requires
        finding_stored(f, id, v, polluters, allowed),
    ensures
        f.nodeid@ == id && f.verdict@ == v.heading(),
        f.why@ == v.counsel().0 && f.fix@ == v.counsel().1,
        f.polluter is Some <==> polluters.contains_key(id),
{
}

} // verus!
