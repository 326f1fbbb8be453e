//! Which tests fail only in parallel, and how to keep them from it.

use super::classify::Verdict;
use super::outcomes::{Phase, Rec};
use crate::numbers::{dec_len, decimal};
use crate::order::{ascending, sort_texts};
use crate::ordered_map::{key_at, OrderedKey, OrderedMap};
use crate::rank::{positions, rank, ranked};
use crate::text::{clone_texts, concat_all, concat_texts, join, joined, lines, lines_of, texts};
use vstd::prelude::*;

verus! {

broadcast use {crate::text::lemma_texts_push, crate::text::lemma_texts_add};

/// A text as a JSON literal, as `serde_json::to_string` writes it.
pub uninterp spec fn json_literal(text: Seq<char>) -> Seq<char>;

/// `serde_json::to_string` of a text: its JSON literal. It does not fail on a text.
#[verifier::external_body]
pub(crate) fn write_literal(text: &str) -> (res: String)
    ensures
        res@ == json_literal(text@),
{
    serde_json::to_string(text).unwrap_or_default()
}

/// Whether running a test alone, after all others, keeps it from failing.
pub open spec fn helped_by_serial(v: Verdict) -> bool {
    v == Verdict::Isolation || v == Verdict::WallClock
}

/// Whether running a test alone, after all others, keeps it from failing.
pub fn serial_fixable(v: Verdict) -> (res: bool)
    ensures
        res == helped_by_serial(v),
{
    v == Verdict::Isolation || v == Verdict::WallClock
}

/// The tests that failed in parallel, by what can be done about them.
pub struct Buckets {
    /// Tests that are helped by running alone.
    pub serial: Vec<(String, Verdict)>,
    /// Tests that are helped by keeping their file together.
    pub order: Vec<String>,
    pub intrinsic: Vec<String>,
    /// Tests that could not be judged.
    pub inconclusive: Vec<String>,
    /// How many tests fail in series too.
    pub preexisting: usize,
}

impl Buckets {
    /// Whether nothing fails only in parallel.
    pub open spec fn safe(self) -> bool {
        self.serial@.len() == 0 && self.order@.len() == 0 && self.intrinsic@.len() == 0
            && self.inconclusive@.len() == 0
    }

    /// Whether nothing fails only in parallel.
    pub fn parallel_safe(&self) -> (res: bool)
        ensures
            res == self.safe(),
    {
        self.serial.len() == 0 && self.order.len() == 0 && self.intrinsic.len() == 0
            && self.inconclusive.len() == 0
    }
}

/// The tests that are helped by running alone.
pub open spec fn serial_of(verdicts: Seq<(String, Verdict)>) -> Seq<(String, Verdict)> {
    verdicts.filter(|v: (String, Verdict)| helped_by_serial(v.1))
}

/// The ids of tests.
pub open spec fn ids_of(verdicts: Seq<(String, Verdict)>) -> Seq<Seq<char>> {
    Seq::new(verdicts.len(), |i: int| verdicts[i].0@)
}

/// The ids of the tests with a verdict.
pub open spec fn with_verdict(verdicts: Seq<(String, Verdict)>, want: Verdict) -> Seq<Seq<char>>
    decreases verdicts.len(),
{
    if verdicts.len() == 0 {
        Seq::empty()
    } else {
        let before = with_verdict(verdicts.drop_last(), want);
        if verdicts.last().1 == want {
            before.push(verdicts.last().0@)
        } else {
            before
        }
    }
}

/// Whether a list holds the ids of the tests with a verdict, in ascending order.
pub open spec fn sorted_bucket(
    res: Seq<Seq<char>>,
    verdicts: Seq<(String, Verdict)>,
    want: Verdict,
) -> bool {
    ascending(res) && res.to_multiset() == with_verdict(verdicts, want).to_multiset()
}

/// Whether a list holds the tests that are helped by running alone, in ascending
/// order of their ids.
pub open spec fn sorted_serial(
    res: Seq<(String, Verdict)>,
    verdicts: Seq<(String, Verdict)>,
) -> bool {
    exists|order: Seq<int>| #[trigger]
        ranked::<String>(order, ids_of(serial_of(verdicts))) && res.len() == order.len()
            && forall|i: int|
            0 <= i < res.len() ==> (#[trigger] res[i]).0@ == serial_of(verdicts)[order[i]].0@
                && res[i].1 == serial_of(verdicts)[order[i]].1
}

/// The ids of the tests with a verdict.
pub fn tests_with(verdicts: &[(String, Verdict)], want: Verdict) -> (res: Vec<String>)
    ensures
        texts(res@) == with_verdict(verdicts@, want),
{
    let mut out: Vec<String> = Vec::new();
    let mut i: usize = 0;
    assert(texts(out@) =~= with_verdict(verdicts@.take(0), want));
    while i < verdicts.len()
        invariant
            i <= verdicts.len(),
            texts(out@) == with_verdict(verdicts@.take(i as int), want),
        decreases verdicts.len() - i,
    {
        proof {
            assert(verdicts@.take(i + 1).drop_last() =~= verdicts@.take(i as int));
            assert(verdicts@.take(i + 1).last() == verdicts@[i as int]);
        }
        if verdicts[i].1 == want {
            out.push(verdicts[i].0.clone());
        }
        i += 1;
    }
    assert(verdicts@.take(verdicts.len() as int) =~= verdicts@);
    out
}

fn serial_bucket(verdicts: &[(String, Verdict)]) -> (res: Vec<(String, Verdict)>)
    ensures
        sorted_serial(res@, verdicts@),
{
    let mut kept: Vec<usize> = Vec::new();
    let mut keys: Vec<String> = Vec::new();
    let mut i: usize = 0;
    assert(serial_of(verdicts@.take(0)) =~= Seq::empty()) by {
        reveal(Seq::filter);
    }
    while i < verdicts.len()
        invariant
            i <= verdicts.len(),
            kept@.len() == serial_of(verdicts@.take(i as int)).len(),
            keys@.len() == kept@.len(),
            forall|j: int|
                0 <= j < kept@.len() ==> #[trigger] kept@[j] < verdicts.len()
                    && verdicts@[kept@[j] as int] == serial_of(verdicts@.take(i as int))[j],
            forall|j: int|
                0 <= j < keys@.len() ==> (#[trigger] keys@[j])@ == verdicts@[kept@[j] as int].0@,
        decreases verdicts.len() - i,
    {
        proof {
            assert(verdicts@.take(i + 1).drop_last() =~= verdicts@.take(i as int));
            reveal(Seq::filter);
        }
        if serial_fixable(verdicts[i].1) {
            keys.push(verdicts[i].0.clone());
            kept.push(i);
        }
        i += 1;
    }
    assert(verdicts@.take(verdicts.len() as int) =~= verdicts@);
    let ghost all = serial_of(verdicts@);
    let order = rank(keys.as_slice());
    let ghost p = positions(order@);
    assert(crate::rank::models(keys@) =~= ids_of(all));
    let mut out: Vec<(String, Verdict)> = Vec::new();
    let mut k: usize = 0;
    while k < order.len()
        invariant
            k <= order.len(),
            p == positions(order@),
            ranked::<String>(p, ids_of(all)),
            kept@.len() == all.len(),
            forall|j: int|
                0 <= j < kept@.len() ==> #[trigger] kept@[j] < verdicts.len()
                    && verdicts@[kept@[j] as int] == all[j],
            out.len() == k,
            forall|j: int|
                0 <= j < k ==> (#[trigger] out@[j]).0@ == all[p[j]].0@ && out@[j].1 == all[p[j]].1,
        decreases order.len() - k,
    {
        assert(0 <= p[k as int] < ids_of(all).len());
        let v = &verdicts[kept[order[k]]];
        out.push((v.0.clone(), v.1));
        k += 1;
    }
    assert(sorted_serial(out@, verdicts@));
    out
}

/// Splits the tests that failed in parallel by what can be done about them.
pub fn partition(verdicts: &[(String, Verdict)]) -> (res: Buckets)
    ensures
        sorted_serial(res.serial@, verdicts@),
        sorted_bucket(texts(res.order@), verdicts@, Verdict::OrderDependency),
        sorted_bucket(texts(res.intrinsic@), verdicts@, Verdict::IntrinsicFlake),
        sorted_bucket(texts(res.inconclusive@), verdicts@, Verdict::Inconclusive),
        res.preexisting == with_verdict(verdicts@, Verdict::NotParallel).len(),
{
    let serial = serial_bucket(verdicts);
    let order = sort_texts(tests_with(verdicts, Verdict::OrderDependency).as_slice());
    let intrinsic = sort_texts(tests_with(verdicts, Verdict::IntrinsicFlake).as_slice());
    let inconclusive = sort_texts(tests_with(verdicts, Verdict::Inconclusive).as_slice());
    let preexisting = tests_with(verdicts, Verdict::NotParallel);
    assert(texts(preexisting@).len() == preexisting@.len());
    Buckets { serial, order, intrinsic, inconclusive, preexisting: preexisting.len() }
}

/// A suite is called safe only where every test that failed in parallel fails in
/// series too.
pub proof fn theorem_safe_means_preexisting(b: Buckets, verdicts: Seq<(String, Verdict)>, i: int)
    requires
        sorted_serial(b.serial@, verdicts),
        sorted_bucket(texts(b.order@), verdicts, Verdict::OrderDependency),
        sorted_bucket(texts(b.intrinsic@), verdicts, Verdict::IntrinsicFlake),
        sorted_bucket(texts(b.inconclusive@), verdicts, Verdict::Inconclusive),
        b.safe(),
        0 <= i < verdicts.len(),
    ensures
        verdicts[i].1 == Verdict::NotParallel,
{
    lemma_empty_bucket(texts(b.order@), verdicts, Verdict::OrderDependency, i);
    lemma_empty_bucket(texts(b.intrinsic@), verdicts, Verdict::IntrinsicFlake, i);
    lemma_empty_bucket(texts(b.inconclusive@), verdicts, Verdict::Inconclusive, i);
    if helped_by_serial(verdicts[i].1) {
        let all = serial_of(verdicts);
        verdicts.lemma_filter_contains(|v: (String, Verdict)| helped_by_serial(v.1), i);
        assert(all.contains(verdicts[i]));
        assert(all.len() > 0);
    }
}

proof fn lemma_empty_bucket(
    res: Seq<Seq<char>>,
    verdicts: Seq<(String, Verdict)>,
    want: Verdict,
    i: int,
)
    requires
        sorted_bucket(res, verdicts, want),
        res.len() == 0,
        0 <= i < verdicts.len(),
    ensures
        verdicts[i].1 != want,
{
    vstd::seq_lib::to_multiset_len(res);
    vstd::seq_lib::to_multiset_len(with_verdict(verdicts, want));
    lemma_no_verdict(verdicts, want, i);
}

proof fn lemma_no_verdict(verdicts: Seq<(String, Verdict)>, want: Verdict, i: int)
    requires
        with_verdict(verdicts, want).len() == 0,
        0 <= i < verdicts.len(),
    ensures
        verdicts[i].1 != want,
    decreases verdicts.len(),
{
    if i < verdicts.len() - 1 {
        lemma_no_verdict(verdicts.drop_last(), want, i);
    }
}

/// The lines of literals, each with a comma.
pub open spec fn literal_lines(literals: Seq<Seq<char>>) -> Seq<Seq<char>> {
    Seq::new(literals.len(), |i: int| "    "@ + literals[i] + ",\n"@)
}

/// What marks tests as serial, given the literals of their ids.
pub open spec fn block_text(literals: Seq<Seq<char>>) -> Seq<char> {
    "import pytest\n\n_RSTEST_SERIAL = {\n"@ + concat_all(literal_lines(literals))
        + "}\n\n\ndef pytest_collection_modifyitems(items):\n    for item in items:\n        if item.nodeid in _RSTEST_SERIAL:\n            item.add_marker(pytest.mark.serial)\n"@
}

/// The literals of texts.
pub open spec fn literals(v: Seq<Seq<char>>) -> Seq<Seq<char>> {
    Seq::new(v.len(), |i: int| json_literal(v[i]))
}

/// Writes what marks tests as serial, given the literals of their ids.
pub fn conftest_block(literals: &[String]) -> (res: String)
    ensures
        res@ == block_text(texts(literals@)),
{
    let mut rows: Vec<String> = Vec::new();
    let mut i: usize = 0;
    while i < literals.len()
        invariant
            i <= literals.len(),
            rows.len() == i,
            forall|j: int|
                0 <= j < i ==> (#[trigger] rows@[j])@ == "    "@ + literals@[j]@ + ",\n"@,
        decreases literals.len() - i,
    {
        let mut row = String::from_str("    ");
        row.append(literals[i].as_str());
        row.append(",\n");
        rows.push(row);
        i += 1;
    }
    assert(texts(rows@) =~= literal_lines(texts(literals@)));
    let mut out = String::from_str("import pytest\n\n_RSTEST_SERIAL = {\n");
    out.append(concat_texts(rows.as_slice()).as_str());
    out.append(
        "}\n\n\ndef pytest_collection_modifyitems(items):\n    for item in items:\n        if item.nodeid in _RSTEST_SERIAL:\n            item.add_marker(pytest.mark.serial)\n",
    );
    out
}

/// Writes what marks tests as serial: a hook that can be pasted as it is.
pub fn serial_conftest_block(nodeids: &[String]) -> (res: String)
    ensures
        res@ == block_text(literals(texts(nodeids@))),
{
    let mut lits: Vec<String> = Vec::new();
    let mut i: usize = 0;
    while i < nodeids.len()
        invariant
            i <= nodeids.len(),
            lits.len() == i,
            forall|j: int| 0 <= j < i ==> (#[trigger] lits@[j])@ == json_literal(nodeids@[j]@),
        decreases nodeids.len() - i,
    {
        lits.push(write_literal(nodeids[i].as_str()));
        i += 1;
    }
    assert(texts(lits@) =~= literals(texts(nodeids@)));
    conftest_block(lits.as_slice())
}

/// A line with something before it, unless it is empty.
pub open spec fn padded_line(l: Seq<char>, pad: Seq<char>) -> Seq<char> {
    if l.len() == 0 {
        Seq::empty()
    } else {
        pad + l
    }
}

/// Lines with something before them.
pub open spec fn padded_lines(ls: Seq<Seq<char>>, pad: Seq<char>) -> Seq<Seq<char>> {
    Seq::new(ls.len(), |i: int| padded_line(ls[i], pad))
}

/// Puts something before every line of a block that is not empty.
pub fn indent(block: &str, pad: &str) -> (res: String)
    ensures
        res@ == joined(padded_lines(lines_of(block@), pad@), "\n"@),
{
    let ls = lines(block);
    let mut out: Vec<String> = Vec::new();
    let mut i: usize = 0;
    while i < ls.len()
        invariant
            i <= ls.len(),
            out.len() == i,
            forall|j: int| 0 <= j < i ==> (#[trigger] out@[j])@ == padded_line(ls@[j]@, pad@),
        decreases ls.len() - i,
    {
        if ls[i].as_str().is_empty() {
            let none = String::new();
            assert(none@ =~= Seq::empty());
            out.push(none);
        } else {
            let mut line = String::from_str(pad);
            line.append(ls[i].as_str());
            out.push(line);
        }
        i += 1;
    }
    assert(texts(out@) =~= padded_lines(lines_of(block@), pad@));
    join(out.as_slice(), "\n")
}

/// What became of a test over several runs: a failure in any of them stays.
pub open spec fn worst(
    acc: Map<Seq<char>, Rec>,
    run: Map<Seq<char>, Rec>,
) -> Map<Seq<char>, Rec> {
    Map::new(
        |id: Seq<char>| acc.contains_key(id) || run.contains_key(id),
        |id: Seq<char>|
            if run.contains_key(id) && (!acc.contains_key(id) || run[id].phase == Phase::Fail) {
                run[id]
            } else {
                acc[id]
            },
    )
}

/// Adds a run to what became of the tests so far.
pub fn merge_worst(acc: &mut OrderedMap<String, Rec>, run: &OrderedMap<String, Rec>)
    ensures
        final(acc)@ == worst(old(acc)@, run@),
{
    let ghost start = acc@;
    let n = run.len();
    let ghost list = run.list();
    let mut i: usize = 0;
    while i < n
        invariant
            i <= n,
            n == list.len(),
            list == run.list(),
            run.listed(),
            forall|id: Seq<char>| #[trigger]
                acc@.contains_key(id) ==> worst(start, run@).contains_key(id),
            forall|id: Seq<char>| #[trigger]
                start.contains_key(id) ==> acc@.contains_key(id),
            forall|j: int|
                0 <= j < i ==> acc@.contains_key((#[trigger] list[j]).0@) && acc@[list[j].0@]
                    == worst(start, run@)[list[j].0@],
            forall|id: Seq<char>| #[trigger]
                acc@.contains_key(id) && (forall|j: int| 0 <= j < i ==> (#[trigger] list[j]).0@ != id)
                    ==> start.contains_key(id) && acc@[id] == start[id],
        decreases n - i,
    {
        let (id, rec) = run.at(i);
        let ghost before = acc@;
        proof {
            assert(run@.contains_key(list[i as int].0.model()));
            assert(run@[list[i as int].0.model()] == list[i as int].1);
            assert forall|j: int| 0 <= j < i implies (#[trigger] list[j]).0@ != id@ by {
                assert(<String as OrderedKey>::before(
                    list[j].0.model(),
                    list[i as int].0.model(),
                ));
            }
        }
        let keep = match acc.get(id) {
            Some(_) => rec.phase != Phase::Fail,
            None => false,
        };
        if !keep {
            acc.insert(id.clone(), *rec);
        }
        proof {
            assert forall|x: Seq<char>| #[trigger]
                acc@.contains_key(x) && (forall|j: int|
                    0 <= j < i + 1 ==> (#[trigger] list[j]).0@ != x) implies start.contains_key(x)
                && acc@[x] == start[x] by {
                assert(list[i as int].0@ != x);
                assert(before.contains_key(x));
            }
        }
        i += 1;
    }
    proof {
        let goal = worst(start, run@);
        assert forall|id: Seq<char>| #[trigger] crate::ordered_map::agree(acc@, goal, id) by {
            if run@.contains_key(id) {
                let j = choose|j: int| #[trigger] key_at(list, j, id);
                assert(list[j].0@ == id);
            } else {
                if acc@.contains_key(id) {
                    assert forall|j: int| 0 <= j < n implies (#[trigger] list[j]).0@ != id by {
                        assert(run@.contains_key(list[j].0.model()));
                    }
                }
            }
        }
        crate::ordered_map::lemma_same_map(acc@, goal);
    }
}

/// A test that failed in any run counts as failed, whatever came before or after.
pub proof fn theorem_failures_stay(
    acc: Map<Seq<char>, Rec>,
    run: Map<Seq<char>, Rec>,
    id: Seq<char>,
)
    ensures
        (acc.contains_key(id) && acc[id].phase == Phase::Fail) || (run.contains_key(id)
            && run[id].phase == Phase::Fail) <==> worst(acc, run).contains_key(id) && worst(
            acc,
            run,
        )[id].phase == Phase::Fail,
{
}

/// What a stored audit says of itself.
pub struct AuditMeta {
    pub runner: String,
    pub kind: String,
    pub schema: u32,
}

/// What is stored of an audit for tools.
pub struct AuditDoc {
    pub meta: AuditMeta,
    /// Whether the suite was run at all.
    pub ran: bool,
    pub parallel_safe: bool,
    /// What was found, where the suite was run.
    pub found: Option<Audited>,
}

/// What an audit found.
pub struct Audited {
    pub tests: usize,
    /// The ids, titles of verdicts and remedies of the tests that are helped by
    /// running alone.
    pub serial_candidates: Vec<(String, String, String)>,
    pub serial_conftest: String,
    pub order_dependent: Vec<String>,
    pub intrinsic_flakes: Vec<String>,
    pub inconclusive: Vec<String>,
    pub preexisting_failures: usize,
}

impl AuditMeta {
    /// Whether this is what a stored audit says of itself.
    pub open spec fn of_audit(self) -> bool {
        self.runner@ == "rstest"@ && self.kind@ == "audit"@ && self.schema == 1
    }
}

fn audit_meta() -> (res: AuditMeta)
    ensures
        res.of_audit(),
{
    AuditMeta { runner: "rstest".to_owned(), kind: "audit".to_owned(), schema: 1 }
}

/// What is stored of an audit before the suite is run.
pub fn not_run_doc() -> (res: AuditDoc)
    ensures
        res.meta.of_audit(),
        !res.ran,
        !res.parallel_safe,
        res.found is None,
{
    AuditDoc { meta: audit_meta(), ran: false, parallel_safe: false, found: None }
}

fn serial_ids(serial: &Vec<(String, Verdict)>) -> (res: Vec<String>)
    ensures
        texts(res@) == ids_of(serial@),
{
    let mut out: Vec<String> = Vec::new();
    let mut i: usize = 0;
    while i < serial.len()
        invariant
            i <= serial.len(),
            out.len() == i,
            forall|j: int| 0 <= j < i ==> (#[trigger] out@[j])@ == serial@[j].0@,
        decreases serial.len() - i,
    {
        out.push(serial[i].0.clone());
        i += 1;
    }
    assert(texts(out@) =~= ids_of(serial@));
    out
}

/// Whether what is stored is what an audit of so many tests found.
pub open spec fn audited(a: Audited, tests: usize, b: Buckets) -> bool {
    &&& a.tests == tests
    &&& a.serial_candidates@.len() == b.serial@.len()
    &&& forall|i: int|
        0 <= i < b.serial@.len() ==> (#[trigger] a.serial_candidates@[i]).0@ == b.serial@[i].0@
            && a.serial_candidates@[i].1@ == b.serial@[i].1.heading()
            && a.serial_candidates@[i].2@ == b.serial@[i].1.counsel().1
    &&& a.serial_conftest@ == block_text(literals(ids_of(b.serial@)))
    &&& texts(a.order_dependent@) == texts(b.order@)
    &&& texts(a.intrinsic_flakes@) == texts(b.intrinsic@)
    &&& texts(a.inconclusive@) == texts(b.inconclusive@)
    &&& a.preexisting_failures == b.preexisting
}

/// What is stored of an audit.
pub fn audit_doc(tests: usize, b: &Buckets) -> (res: AuditDoc)
    ensures
        res.meta.of_audit(),
        res.ran,
        res.parallel_safe == b.safe(),
        res.found matches Some(a) && audited(a, tests, *b),
{
    let mut candidates: Vec<(String, String, String)> = Vec::new();
    let mut i: usize = 0;
    while i < b.serial.len()
        invariant
            i <= b.serial.len(),
            candidates.len() == i,
            forall|j: int|
                0 <= j < i ==> (#[trigger] candidates@[j]).0@ == b.serial@[j].0@
                    && candidates@[j].1@ == b.serial@[j].1.heading() && candidates@[j].2@
                    == b.serial@[j].1.counsel().1,
        decreases b.serial.len() - i,
    {
        let v = b.serial[i].1;
        let (_, fix) = v.advice();
        candidates.push((b.serial[i].0.clone(), v.title(), fix));
        i += 1;
    }
    let ids = serial_ids(&b.serial);
    let found = Audited {
        tests,
        serial_candidates: candidates,
        serial_conftest: serial_conftest_block(ids.as_slice()),
        order_dependent: clone_texts(b.order.as_slice()),
        intrinsic_flakes: clone_texts(b.intrinsic.as_slice()),
        inconclusive: clone_texts(b.inconclusive.as_slice()),
        preexisting_failures: b.preexisting,
    };
    AuditDoc {
        meta: audit_meta(),
        ran: true,
        parallel_safe: b.parallel_safe(),
        found: Some(found),
    }
}

/// What became of the tests over the first `n` runs.
pub open spec fn worst_of(runs: Seq<Option<OrderedMap<String, Rec>>>, n: nat) -> Map<Seq<char>, Rec>
    decreases n,
{
    if n == 0 {
        Map::empty()
    } else {
        match runs[n - 1] {
            Some(run) => worst(worst_of(runs, (n - 1) as nat), run@),
            None => worst_of(runs, (n - 1) as nat),
        }
    }
}

/// Puts runs together. Nothing comes back where one of them gave no results.
pub fn combine(runs: &[Option<OrderedMap<String, Rec>>]) -> (res: Option<OrderedMap<String, Rec>>)
    ensures
        put_together(res, runs@),
{
    let mut acc: OrderedMap<String, Rec> = OrderedMap::new();
    let mut i: usize = 0;
    while i < runs.len()
        invariant
            i <= runs.len(),
            acc@ == worst_of(runs@, i as nat),
            forall|j: int| 0 <= j < i ==> #[trigger] runs@[j] is Some,
        decreases runs.len() - i,
    {
        match &runs[i] {
            Some(run) => {
                merge_worst(&mut acc, run);
            },
            None => {
                assert(runs@[i as int] is None);
                return None;
            },
        }
        i += 1;
    }
    Some(acc)
}

/// A test counts as failed over several runs exactly where it failed in one of them.
pub proof fn theorem_failed_somewhere(
    runs: Seq<Option<OrderedMap<String, Rec>>>,
    n: nat,
    id: Seq<char>,
)
    requires
        n <= runs.len(),
    ensures
        super::classify::failed_in(worst_of(runs, n), id) <==> exists|i: int|
            0 <= i < n && failed_in_run(#[trigger] runs[i], id),
    decreases n,
{
    if n > 0 {
        let m = (n - 1) as nat;
        theorem_failed_somewhere(runs, m, id);
        if let Some(run) = runs[n - 1] {
            theorem_failures_stay(worst_of(runs, m), run@, id);
        }
        if super::classify::failed_in(worst_of(runs, n), id) {
            if super::classify::failed_in(worst_of(runs, m), id) {
                let i = choose|i: int| 0 <= i < m && failed_in_run(#[trigger] runs[i], id);
                assert(0 <= i < n && failed_in_run(runs[i], id));
            } else {
                assert(failed_in_run(runs[n - 1], id));
            }
        }
        if exists|i: int| 0 <= i < n && failed_in_run(#[trigger] runs[i], id) {
            let i = choose|i: int| 0 <= i < n && failed_in_run(#[trigger] runs[i], id);
            if i < m {
                assert(0 <= i < m && failed_in_run(runs[i], id));
            }
        }
    }
}

/// Whether a test failed in a run that gave results.
pub open spec fn failed_in_run(run: Option<OrderedMap<String, Rec>>, id: Seq<char>) -> bool {
    run matches Some(r) && super::classify::failed_in(r@, id)
}

/// How often the suite runs in parallel: at least once.
pub fn rounds(repeat: u32) -> (res: u32)
    ensures
        res == rounds_for(repeat),
{
    if repeat < 1 {
        1
    } else {
        repeat
    }
}

/// What is said before the suite runs.
pub open spec fn intro_text(rounds: u32) -> Seq<char> {
    "rstest audit: running -n auto "@ + decimal(rounds as nat)
        + "× to surface parallel-only failures…"@
}

/// Writes what is said before the suite runs.
pub fn intro(rounds: u32) -> (res: String)
    ensures
        res@ == intro_text(rounds),
{
    let mut out = String::from_str("rstest audit: running -n auto ");
    out.append(dec_len(rounds as usize).as_str());
    out.append("× to surface parallel-only failures…");
    out
}

/// How an audit ends where there is nothing to judge: with a failure where the suite
/// did not run, with success where no test was selected.
pub open spec fn early_end(tests: Option<nat>) -> Option<(Seq<char>, int)> {
    match tests {
        None => Some(
            (
                "rstest audit: rstest produced no run (it may have refused to dispatch — often an unstable parametrize id). Run `rstest migrate-check` to see why."@,
                2,
            ),
        ),
        Some(n) => if n == 0 {
            Some(
                (
                    "rstest audit: no tests were selected (check your -k/-m/path args); nothing to audit."@,
                    0,
                ),
            )
        } else {
            None
        },
    }
}

/// Ends an audit where there is nothing to judge.
pub fn stop_early(tests: Option<usize>) -> (res: Option<(String, i32)>)
    ensures
        match res {
            Some((line, code)) => early_end(
                match tests {
                    Some(n) => Some(n as nat),
                    None => None,
                },
            ) == Some((line@, code as int)),
            None => early_end(
                match tests {
                    Some(n) => Some(n as nat),
                    None => None,
                },
            ) is None,
        },
{
    match tests {
        None => Some(
            (
                "rstest audit: rstest produced no run (it may have refused to dispatch — often an unstable parametrize id). Run `rstest migrate-check` to see why.".to_owned(),
                2,
            ),
        ),
        Some(n) => if n == 0 {
            Some(
                (
                    "rstest audit: no tests were selected (check your -k/-m/path args); nothing to audit.".to_owned(),
                    0,
                ),
            )
        } else {
            None
        },
    }
}

/// The arguments of the parallel runs of an audit: no limit on failures cuts them
/// short.
pub fn parallel_args(args: &[String]) -> (res: Vec<String>)
    ensures
        texts(res@) == texts(args@).push(super::bisect::maxfail_lift()),
{
    let mut out = clone_texts(args);
    out.push("--maxfail=0".to_owned());
    out
}

/// The line on a suite that is safe.
pub open spec fn safe_line_text(tests: usize) -> Seq<char> {
    "  ✓ parallel-safe: all "@ + decimal(tests as nat)
        + " tests that pass at -n 0 also pass at -n auto."@
}

/// Writes the line on a suite that is safe.
fn safe_line(tests: usize) -> (res: String)
    ensures
        res@ == safe_line_text(tests),
{
    let mut out = String::from_str("  ✓ parallel-safe: all ");
    out.append(dec_len(tests).as_str());
    out.append(" tests that pass at -n 0 also pass at -n auto.");
    out
}

/// The line on tests that fail in series too, for a suite that is safe.
pub open spec fn preexisting_line_text(n: usize) -> Seq<char> {
    "  ("@ + decimal(n as nat)
        + " test(s) already fail at -n 0 — pre-existing, not a parallelism issue.)"@
}

/// Writes the line on tests that fail in series too.
fn preexisting_line(n: usize) -> (res: String)
    ensures
        res@ == preexisting_line_text(n),
{
    let mut out = String::from_str("  (");
    out.append(dec_len(n).as_str());
    out.append(" test(s) already fail at -n 0 — pre-existing, not a parallelism issue.)");
    out
}

/// The line on tests that fail in series too.
pub open spec fn unlisted_line_text(n: usize) -> Seq<char> {
    "\n  ("@ + decimal(n as nat)
        + " test(s) already fail at -n 0 — pre-existing, not a parallelism issue; not listed.)"@
}

/// Writes the line on tests that fail in series too.
fn unlisted_line(n: usize) -> (res: String)
    ensures
        res@ == unlisted_line_text(n),
{
    let mut out = String::from_str("\n  (");
    out.append(dec_len(n).as_str());
    out.append(" test(s) already fail at -n 0 — pre-existing, not a parallelism issue; not listed.)");
    out
}

/// The line on tests that are helped by running alone.
pub open spec fn serial_head_text(n: usize) -> Seq<char> {
    "  ⚠ "@ + decimal(n as nat)
        + " test(s) pass serially but fail under -n auto — mark them serial:\n"@
}

/// Writes the line on tests that are helped by running alone.
fn serial_head(n: usize) -> (res: String)
    ensures
        res@ == serial_head_text(n),
{
    let mut out = String::from_str("  ⚠ ");
    out.append(dec_len(n).as_str());
    out.append(" test(s) pass serially but fail under -n auto — mark them serial:\n");
    out
}

/// The line on tests that depend on order.
pub open spec fn order_head_text(n: usize) -> Seq<char> {
    "\n  "@ + decimal(n as nat)
        + " test(s) are ORDER DEPENDENT: they pass at -n 0 and under --dist loadfile but fail when their file is split across workers. Serial won't fix these (it runs them apart from the tests they depend on):"@
}

/// Writes the line on tests that depend on order.
fn order_head(n: usize) -> (res: String)
    ensures
        res@ == order_head_text(n),
{
    let mut out = String::from_str("\n  ");
    out.append(dec_len(n).as_str());
    out.append(" test(s) are ORDER DEPENDENT: they pass at -n 0 and under --dist loadfile but fail when their file is split across workers. Serial won't fix these (it runs them apart from the tests they depend on):");
    out
}

/// The line on tests that are flaky in any case.
pub open spec fn intrinsic_head_text(n: usize) -> Seq<char> {
    "\n  "@ + decimal(n as nat)
        + " test(s) are INTRINSIC FLAKES (serial repeats disagree) — parallelism only exposed them; serial won't fix these:"@
}

/// Writes the line on tests that are flaky in any case.
fn intrinsic_head(n: usize) -> (res: String)
    ensures
        res@ == intrinsic_head_text(n),
{
    let mut out = String::from_str("\n  ");
    out.append(dec_len(n).as_str());
    out.append(" test(s) are INTRINSIC FLAKES (serial repeats disagree) — parallelism only exposed them; serial won't fix these:");
    out
}

/// The line on tests that could not be judged.
pub open spec fn inconclusive_head_text(n: usize) -> Seq<char> {
    "\n  "@ + decimal(n as nat)
        + " test(s) are INCONCLUSIVE: they failed under -n auto but did not run in the -n 0 / loadfile follow-up runs, so they can't be classified:"@
}

/// Writes the line on tests that could not be judged.
fn inconclusive_head(n: usize) -> (res: String)
    ensures
        res@ == inconclusive_head_text(n),
{
    let mut out = String::from_str("\n  ");
    out.append(dec_len(n).as_str());
    out.append(" test(s) are INCONCLUSIVE: they failed under -n auto but did not run in the -n 0 / loadfile follow-up runs, so they can't be classified:");
    out
}

/// The line on how many more there are.
pub open spec fn more_line_text(n: usize) -> Seq<char> {
    "    … and "@ + decimal(n as nat) + " more"@
}

/// Writes the line on how many more there are.
fn more_line(n: usize) -> (res: String)
    ensures
        res@ == more_line_text(n),
{
    let mut out = String::from_str("    … and ");
    out.append(dec_len(n).as_str());
    out.append(" more");
    out
}

/// The line on a test that is helped by running alone.
pub open spec fn candidate_line_text(t: (String, Verdict)) -> Seq<char> {
    "    "@ + t.0@ + "   ["@ + t.1.heading() + "]"@
}

/// Writes the line on a test that is helped by running alone.
fn candidate_line(t: &(String, Verdict)) -> (res: String)
    ensures
        res@ == candidate_line_text(*t),
{
    let mut out = String::from_str("    ");
    out.append(t.0.as_str());
    out.append("   [");
    out.append(t.1.title().as_str());
    out.append("]");
    out
}

/// The first eight ids, each on a line, and how many more there are.
pub open spec fn id_lines(ids: Seq<Seq<char>>) -> Seq<Seq<char>> {
    let n: nat = if ids.len() < 8 {
        ids.len()
    } else {
        8
    };
    let shown = Seq::new(n, |i: int| "    "@ + ids[i]);
    if ids.len() > 8 {
        shown.push(more_line_text((ids.len() - 8) as usize))
    } else {
        shown
    }
}

fn list_ids(ids: &Vec<String>) -> (res: Vec<String>)
    ensures
        texts(res@) == id_lines(texts(ids@)),
{
    let n: usize = if ids.len() < 8 { ids.len() } else { 8 };
    let mut out: Vec<String> = Vec::new();
    let mut i: usize = 0;
    while i < n
        invariant
            i <= n <= ids.len(),
            out.len() == i,
            forall|j: int| 0 <= j < i ==> (#[trigger] out@[j])@ == "    "@ + ids@[j]@,
        decreases n - i,
    {
        let mut line = String::from_str("    ");
        line.append(ids[i].as_str());
        out.push(line);
        i += 1;
    }
    assert(texts(out@) =~= Seq::new(n as nat, |i: int| "    "@ + texts(ids@)[i]));
    if ids.len() > 8 {
        out.push(more_line(ids.len() - 8));
    }
    out
}

/// The remedies for the verdicts in a list, each verdict once.
pub open spec fn remedies(serial: Seq<(String, Verdict)>) -> Seq<Seq<char>>
    decreases serial.len(),
{
    if serial.len() == 0 {
        Seq::empty()
    } else {
        let before = remedies(serial.drop_last());
        let v = serial.last().1;
        if exists|i: int| 0 <= i < serial.len() - 1 && (#[trigger] serial[i]).1 == v {
            before
        } else {
            before.push("    "@ + v.heading() + ": "@ + v.counsel().1)
        }
    }
}

fn list_remedies(serial: &Vec<(String, Verdict)>) -> (res: Vec<String>)
    ensures
        texts(res@) == remedies(serial@),
{
    let mut out: Vec<String> = Vec::new();
    let mut i: usize = 0;
    assert(texts(out@) =~= remedies(serial@.take(0)));
    while i < serial.len()
        invariant
            i <= serial.len(),
            texts(out@) == remedies(serial@.take(i as int)),
        decreases serial.len() - i,
    {
        let v = serial[i].1;
        let mut seen = false;
        let mut j: usize = 0;
        while j < i
            invariant
                j <= i < serial.len(),
                seen == exists|k: int| 0 <= k < j && (#[trigger] serial@[k]).1 == v,
            decreases i - j,
        {
            if serial[j].1 == v {
                seen = true;
            }
            j += 1;
        }
        proof {
            let t = serial@.take(i + 1);
            assert(t.drop_last() =~= serial@.take(i as int));
            assert(t.last() == serial@[i as int]);
            if seen {
                let k = choose|k: int| 0 <= k < i && (#[trigger] serial@[k]).1 == v;
                assert(t[k].1 == v);
            }
            if exists|k: int| 0 <= k < t.len() - 1 && (#[trigger] t[k]).1 == v {
                let k = choose|k: int| 0 <= k < t.len() - 1 && (#[trigger] t[k]).1 == v;
                assert(serial@[k].1 == v);
            }
        }
        if !seen {
            let (_, fix) = v.advice();
            let mut line = String::from_str("    ");
            line.append(v.title().as_str());
            line.append(": ");
            line.append(fix.as_str());
            out.push(line);
        }
        i += 1;
    }
    assert(serial@.take(serial.len() as int) =~= serial@);
    out
}

/// The lines on tests that are helped by running alone, given what marks them.
pub open spec fn serial_section(serial: Seq<(String, Verdict)>, block: Seq<char>) -> Seq<Seq<char>> {
    if serial.len() == 0 {
        Seq::empty()
    } else {
        (seq![serial_head_text(serial.len() as usize)] + Seq::new(
            serial.len(),
            |i: int| candidate_line_text(serial[i]),
        )).push(
            "\n  Fix-list — paste into conftest.py to run these last, alone (@pytest.mark.serial):\n"@,
        ).push(block).push(
            "\n  If conftest.py already defines pytest_collection_modifyitems, paste only _RSTEST_SERIAL and add the loop to that hook instead: a second definition replaces the first.\n"@,
        ).push("  Serial is a STOPGAP; the underlying fixes:"@) + remedies(serial)
    }
}

fn serial_part(serial: &Vec<(String, Verdict)>, block: String) -> (res: Vec<String>)
    ensures
        texts(res@) == serial_section(serial@, block@),
{
    let mut out: Vec<String> = Vec::new();
    assert(texts(out@) =~= Seq::empty());
    if serial.len() == 0 {
        return out;
    }
    out.push(serial_head(serial.len()));
    let ghost head = seq![serial_head_text(serial@.len() as usize)];
    let ghost rows = Seq::new(serial@.len(), |i: int| candidate_line_text(serial@[i]));
    assert(texts(out@) =~= head + rows.take(0));
    let mut i: usize = 0;
    while i < serial.len()
        invariant
            i <= serial.len(),
            rows == Seq::new(serial@.len(), |i: int| candidate_line_text(serial@[i])),
            texts(out@) == head + rows.take(i as int),
        decreases serial.len() - i,
    {
        let ghost before = rows.take(i as int);
        out.push(candidate_line(&serial[i]));
        i += 1;
        assert(rows.take(i as int) =~= before.push(candidate_line_text(serial@[i - 1])));
        assert(texts(out@) =~= head + rows.take(i as int));
    }
    assert(rows.take(serial.len() as int) =~= rows);
    out.push(
        "\n  Fix-list — paste into conftest.py to run these last, alone (@pytest.mark.serial):\n".to_owned(),
    );
    out.push(block);
    out.push(
        "\n  If conftest.py already defines pytest_collection_modifyitems, paste only _RSTEST_SERIAL and add the loop to that hook instead: a second definition replaces the first.\n".to_owned(),
    );
    out.push("  Serial is a STOPGAP; the underlying fixes:".to_owned());
    let mut more = list_remedies(serial);
    out.append(&mut more);
    out
}

/// The lines on tests that depend on order.
pub open spec fn order_section(ids: Seq<Seq<char>>) -> Seq<Seq<char>> {
    if ids.len() == 0 {
        Seq::empty()
    } else {
        (seq![order_head_text(ids.len() as usize)] + id_lines(ids)).push(
            "  Fix: "@ + Verdict::OrderDependency.counsel().1,
        )
    }
}

/// The lines on tests that are flaky in any case.
pub open spec fn intrinsic_section(ids: Seq<Seq<char>>) -> Seq<Seq<char>> {
    if ids.len() == 0 {
        Seq::empty()
    } else {
        seq![intrinsic_head_text(ids.len() as usize)] + id_lines(ids)
    }
}

/// The lines on tests that could not be judged.
pub open spec fn inconclusive_section(ids: Seq<Seq<char>>) -> Seq<Seq<char>> {
    if ids.len() == 0 {
        Seq::empty()
    } else {
        (seq![inconclusive_head_text(ids.len() as usize)] + id_lines(ids)).push(
            "  Fix: "@ + Verdict::Inconclusive.counsel().1,
        )
    }
}

fn remedy_line(v: Verdict) -> (res: String)
    ensures
        res@ == "  Fix: "@ + v.counsel().1,
{
    let (_, fix) = v.advice();
    let mut out = String::from_str("  Fix: ");
    out.append(fix.as_str());
    out
}

fn order_part(ids: &Vec<String>) -> (res: Vec<String>)
    ensures
        texts(res@) == order_section(texts(ids@)),
{
    let mut out: Vec<String> = Vec::new();
    assert(texts(out@) =~= Seq::empty());
    if ids.len() > 0 {
        out.push(order_head(ids.len()));
        assert(texts(out@) =~= seq![order_head_text(ids@.len() as usize)]);
        let mut more = list_ids(ids);
        out.append(&mut more);
        out.push(remedy_line(Verdict::OrderDependency));
    }
    out
}

fn intrinsic_part(ids: &Vec<String>) -> (res: Vec<String>)
    ensures
        texts(res@) == intrinsic_section(texts(ids@)),
{
    let mut out: Vec<String> = Vec::new();
    assert(texts(out@) =~= Seq::empty());
    if ids.len() > 0 {
        out.push(intrinsic_head(ids.len()));
        assert(texts(out@) =~= seq![intrinsic_head_text(ids@.len() as usize)]);
        let mut more = list_ids(ids);
        out.append(&mut more);
    }
    out
}

fn inconclusive_part(ids: &Vec<String>) -> (res: Vec<String>)
    ensures
        texts(res@) == inconclusive_section(texts(ids@)),
{
    let mut out: Vec<String> = Vec::new();
    assert(texts(out@) =~= Seq::empty());
    if ids.len() > 0 {
        out.push(inconclusive_head(ids.len()));
        assert(texts(out@) =~= seq![inconclusive_head_text(ids@.len() as usize)]);
        let mut more = list_ids(ids);
        out.append(&mut more);
        out.push(remedy_line(Verdict::Inconclusive));
    }
    out
}

/// The lines of the report on an audit, given what marks tests as serial.
pub open spec fn audit_lines(tests: usize, b: Buckets, block: Seq<char>) -> Seq<Seq<char>> {
    let head = seq!["\n================= rstest audit ================="@];
    let rule = "================================================"@;
    if b.safe() {
        let safe = head.push(safe_line_text(tests));
        if b.preexisting > 0 {
            safe.push(preexisting_line_text(b.preexisting)).push(rule)
        } else {
            safe.push(rule)
        }
    } else {
        let body = head + serial_section(b.serial@, block) + order_section(texts(b.order@))
            + intrinsic_section(texts(b.intrinsic@)) + inconclusive_section(
            texts(b.inconclusive@),
        );
        if b.preexisting > 0 {
            body.push(unlisted_line_text(b.preexisting)).push(rule)
        } else {
            body.push(rule)
        }
    }
}

/// What marks the tests of an audit as serial, as it is printed.
pub open spec fn printed_block(serial: Seq<(String, Verdict)>) -> Seq<char> {
    joined(padded_lines(lines_of(block_text(literals(ids_of(serial)))), "    "@), "\n"@)
}

/// Makes the report on an audit, given what marks tests as serial: the lines to
/// print, and the code to exit with.
pub fn report_with(tests: usize, b: &Buckets, block: String) -> (res: (Vec<String>, i32))
    ensures
        texts(res.0@) == audit_lines(tests, *b, block@),
        res.1 == audit_exit(*b),
{
    let mut out: Vec<String> = Vec::new();
    out.push("\n================= rstest audit =================".to_owned());
    assert(texts(out@) =~= seq!["\n================= rstest audit ================="@]);
    if b.parallel_safe() {
        out.push(safe_line(tests));
        if b.preexisting > 0 {
            out.push(preexisting_line(b.preexisting));
        }
        out.push("================================================".to_owned());
        return (out, 0);
    }
    let mut part = serial_part(&b.serial, block);
    out.append(&mut part);
    let mut part = order_part(&b.order);
    out.append(&mut part);
    let mut part = intrinsic_part(&b.intrinsic);
    out.append(&mut part);
    let mut part = inconclusive_part(&b.inconclusive);
    out.append(&mut part);
    if b.preexisting > 0 {
        out.push(unlisted_line(b.preexisting));
    }
    out.push("================================================".to_owned());
    (out, 1)
}

/// Makes the report on an audit: the lines to print, and the code to exit with.
pub fn audit_report(tests: usize, b: &Buckets) -> (res: (Vec<String>, i32))
    ensures
        texts(res.0@) == audit_lines(tests, *b, printed_block(b.serial@)),
        res.1 == audit_exit(*b),
{
    let ids = serial_ids(&b.serial);
    let block = indent(serial_conftest_block(ids.as_slice()).as_str(), "    ");
    report_with(tests, b, block)
}

/// How often the suite runs in parallel.
pub open spec fn rounds_for(repeat: u32) -> u32 {
    if repeat < 1 {
        1
    } else {
        repeat
    }
}

/// With what code an audit ends.
pub open spec fn audit_exit(b: Buckets) -> int {
    if b.safe() {
        0
    } else {
        1
    }
}

/// Running alone helps tests that are not isolated and tests that miss a deadline, and no
/// others.
pub proof fn theorem_running_alone_helps_two_kinds(v: Verdict)
    ensures
        helped_by_serial(Verdict::Isolation) && helped_by_serial(Verdict::WallClock),
        !helped_by_serial(Verdict::NotParallel) && !helped_by_serial(Verdict::IntrinsicFlake)
            && !helped_by_serial(Verdict::OrderDependency) && !helped_by_serial(
            Verdict::Inconclusive,
        ),
{
}

proof fn lemma_with_verdict(verdicts: Seq<(String, Verdict)>, want: Verdict, i: int)
    requires
        0 <= i < verdicts.len(),
        verdicts[i].1 == want,
    ensures
        with_verdict(verdicts, want).contains(verdicts[i].0@),
    decreases verdicts.len(),
{
    let all = with_verdict(verdicts, want);
    if i == verdicts.len() - 1 {
        assert(all[all.len() - 1] == verdicts[i].0@);
    } else {
        let init = verdicts.drop_last();
        assert(init[i] == verdicts[i]);
        lemma_with_verdict(init, want, i);
        let k = choose|k: int|
            0 <= k < with_verdict(init, want).len() && with_verdict(init, want)[k]
                == verdicts[i].0@;
        assert(all[k] == verdicts[i].0@);
    }
}

proof fn lemma_only_with_verdict(verdicts: Seq<(String, Verdict)>, want: Verdict, id: Seq<char>)
    requires
        with_verdict(verdicts, want).contains(id),
    ensures
        exists|i: int| 0 <= i < verdicts.len() && (#[trigger] verdicts[i]).0@ == id && verdicts[i].1
            == want,
    decreases verdicts.len(),
{
    let all = with_verdict(verdicts, want);
    let k = choose|k: int| 0 <= k < all.len() && all[k] == id;
    let init = verdicts.drop_last();
    let before = with_verdict(init, want);
    if k < before.len() {
        assert(before[k] == id);
        assert(before.contains(id));
        lemma_only_with_verdict(init, want, id);
        let i = choose|i: int|
            0 <= i < init.len() && (#[trigger] init[i]).0@ == id && init[i].1 == want;
        assert(verdicts[i] == init[i]);
    } else {
        assert(verdicts[verdicts.len() - 1].0@ == id);
    }
}

/// Every judged test is in the list that its judgement calls for, and every listed test was
/// judged so; the tests that fail in series too are only counted.
pub proof fn theorem_tests_are_sorted_by_judgement(
    b: Buckets,
    verdicts: Seq<(String, Verdict)>,
    i: int,
)
    requires
        sorted_serial(b.serial@, verdicts),
        sorted_bucket(texts(b.order@), verdicts, Verdict::OrderDependency),
        sorted_bucket(texts(b.intrinsic@), verdicts, Verdict::IntrinsicFlake),
        sorted_bucket(texts(b.inconclusive@), verdicts, Verdict::Inconclusive),
        0 <= i < verdicts.len(),
    ensures
        verdicts[i].1 == Verdict::OrderDependency ==> texts(b.order@).contains(verdicts[i].0@),
        verdicts[i].1 == Verdict::IntrinsicFlake ==> texts(b.intrinsic@).contains(verdicts[i].0@),
        verdicts[i].1 == Verdict::Inconclusive ==> texts(b.inconclusive@).contains(verdicts[i].0@),
        verdicts[i].1 == Verdict::Isolation || verdicts[i].1 == Verdict::WallClock ==> exists|k: int|
            0 <= k < b.serial@.len() && (#[trigger] b.serial@[k]).0@ == verdicts[i].0@
                && b.serial@[k].1 == verdicts[i].1,
        forall|id: Seq<char>| #[trigger]
            texts(b.order@).contains(id) ==> exists|k: int|
                0 <= k < verdicts.len() && (#[trigger] verdicts[k]).0@ == id && verdicts[k].1
                    == Verdict::OrderDependency,
        forall|k: int|
            0 <= k < b.serial@.len() ==> (#[trigger] b.serial@[k]).1 == Verdict::Isolation
                || b.serial@[k].1 == Verdict::WallClock,
{
    broadcast use vstd::seq_lib::group_to_multiset_ensures;

    lemma_bucket_contains(texts(b.order@), verdicts, Verdict::OrderDependency, i);
    lemma_bucket_contains(texts(b.intrinsic@), verdicts, Verdict::IntrinsicFlake, i);
    lemma_bucket_contains(texts(b.inconclusive@), verdicts, Verdict::Inconclusive, i);
    let f = |v: (String, Verdict)| helped_by_serial(v.1);
    let all = serial_of(verdicts);
    let order = choose|order: Seq<int>| #[trigger]
        ranked::<String>(order, ids_of(all)) && b.serial@.len() == order.len() && forall|k: int|
            0 <= k < b.serial@.len() ==> (#[trigger] b.serial@[k]).0@ == all[order[k]].0@
                && b.serial@[k].1 == all[order[k]].1;
    if verdicts[i].1 == Verdict::Isolation || verdicts[i].1 == Verdict::WallClock {
        verdicts.lemma_filter_contains(f, i);
        assert(all.contains(verdicts[i]));
        let q = choose|q: int| 0 <= q < all.len() && all[q] == verdicts[i];
        crate::rank::theorem_ranking_is_a_permutation::<String>(order, ids_of(all));
        assert(order.contains(q));
        let k = choose|k: int| 0 <= k < order.len() && order[k] == q;
        assert(b.serial@[k].0@ == verdicts[i].0@);
    }
    assert forall|id: Seq<char>| #[trigger] texts(b.order@).contains(id) implies exists|k: int|
        0 <= k < verdicts.len() && (#[trigger] verdicts[k]).0@ == id && verdicts[k].1
            == Verdict::OrderDependency by {
        let w = with_verdict(verdicts, Verdict::OrderDependency);
        assert(texts(b.order@).to_multiset().count(id) > 0);
        assert(w.to_multiset().count(id) > 0);
        assert(w.contains(id));
        lemma_only_with_verdict(verdicts, Verdict::OrderDependency, id);
    }
    assert forall|k: int| 0 <= k < b.serial@.len() implies (#[trigger] b.serial@[k]).1
        == Verdict::Isolation || b.serial@[k].1 == Verdict::WallClock by {
        assert(0 <= order[k] < ids_of(all).len());
        verdicts.lemma_filter_pred(f, order[k]);
        assert(f(all[order[k]]));
    }
}

proof fn lemma_bucket_contains(
    res: Seq<Seq<char>>,
    verdicts: Seq<(String, Verdict)>,
    want: Verdict,
    i: int,
)
    requires
        sorted_bucket(res, verdicts, want),
        0 <= i < verdicts.len(),
    ensures
        verdicts[i].1 == want ==> res.contains(verdicts[i].0@),
{
    broadcast use vstd::seq_lib::group_to_multiset_ensures;

    if verdicts[i].1 == want {
        lemma_with_verdict(verdicts, want, i);
        let id = verdicts[i].0@;
        let w = with_verdict(verdicts, want);
        assert(w.to_multiset().count(id) > 0);
        assert(res.to_multiset().count(id) > 0);
    }
}

/// A suite is safe to run in parallel just where every test that failed in parallel fails
/// in series too, and only then an audit ends with success.
pub proof fn theorem_safe_suites(b: Buckets, verdicts: Seq<(String, Verdict)>)
    requires
        sorted_serial(b.serial@, verdicts),
        sorted_bucket(texts(b.order@), verdicts, Verdict::OrderDependency),
        sorted_bucket(texts(b.intrinsic@), verdicts, Verdict::IntrinsicFlake),
        sorted_bucket(texts(b.inconclusive@), verdicts, Verdict::Inconclusive),
    ensures
        audit_exit(b) == 0 || audit_exit(b) == 1,
        audit_exit(b) == 0 <==> forall|i: int|
            0 <= i < verdicts.len() ==> (#[trigger] verdicts[i]).1 == Verdict::NotParallel,
{
    broadcast use vstd::seq_lib::group_to_multiset_ensures;

    if b.safe() {
        assert forall|i: int| 0 <= i < verdicts.len() implies (#[trigger] verdicts[i]).1
            == Verdict::NotParallel by {
            theorem_safe_means_preexisting(b, verdicts, i);
        }
    } else if forall|i: int|
        0 <= i < verdicts.len() ==> (#[trigger] verdicts[i]).1 == Verdict::NotParallel {
        if b.serial@.len() > 0 {
            let all = serial_of(verdicts);
            let f = |v: (String, Verdict)| helped_by_serial(v.1);
            let order = choose|order: Seq<int>| #[trigger]
                ranked::<String>(order, ids_of(all)) && b.serial@.len() == order.len() && forall|k: int|
                    0 <= k < b.serial@.len() ==> (#[trigger] b.serial@[k]).0@ == all[order[k]].0@
                        && b.serial@[k].1 == all[order[k]].1;
            assert(0 <= order[0] < ids_of(all).len());
            verdicts.lemma_filter_pred(f, order[0]);
            assert(f(all[order[0]]));
            verdicts.lemma_filter_contains_rev(f, all[order[0]]);
        }
        lemma_bucket_empty(texts(b.order@), verdicts, Verdict::OrderDependency);
        lemma_bucket_empty(texts(b.intrinsic@), verdicts, Verdict::IntrinsicFlake);
        lemma_bucket_empty(texts(b.inconclusive@), verdicts, Verdict::Inconclusive);
        assert(texts(b.order@).len() == b.order@.len());
        assert(texts(b.intrinsic@).len() == b.intrinsic@.len());
        assert(texts(b.inconclusive@).len() == b.inconclusive@.len());
    }
}

proof fn lemma_bucket_empty(
    res: Seq<Seq<char>>,
    verdicts: Seq<(String, Verdict)>,
    want: Verdict,
)
    requires
        sorted_bucket(res, verdicts, want),
        want != Verdict::NotParallel,
        forall|i: int|
            0 <= i < verdicts.len() ==> (#[trigger] verdicts[i]).1 == Verdict::NotParallel,
    ensures
        res.len() == 0,
{
    broadcast use vstd::seq_lib::group_to_multiset_ensures;

    if res.len() > 0 {
        let id = res[0];
        let w = with_verdict(verdicts, want);
        assert(res.contains(id));
        assert(res.to_multiset().count(id) > 0);
        assert(w.to_multiset().count(id) > 0);
        assert(w.contains(id));
        lemma_only_with_verdict(verdicts, want, id);
    }
}

/// Of several runs the worst counts for each test that was in any of them: it failed where
/// it failed in one, and passed where it passed in all it was in.
pub proof fn theorem_worst_of_two_runs(
    acc: Map<Seq<char>, Rec>,
    run: Map<Seq<char>, Rec>,
    id: Seq<char>,
)
    ensures
        worst(acc, run).contains_key(id) <==> acc.contains_key(id) || run.contains_key(id),
        acc.contains_key(id) && !run.contains_key(id) ==> worst(acc, run)[id] == acc[id],
        run.contains_key(id) && !acc.contains_key(id) ==> worst(acc, run)[id] == run[id],
        acc.contains_key(id) && run.contains_key(id) ==> worst(acc, run)[id] == (if run[id].phase
            == Phase::Pass {
            acc[id]
        } else {
            run[id]
        }),
{
}

/// An audit ends early where there was no run, with two, and where there were no tests,
/// with success; else it goes on.
pub proof fn theorem_audits_that_end_early(n: nat)
    ensures
        early_end(None) matches Some((_, code)) && code == 2,
        early_end(Some(0)) matches Some((_, code)) && code == 0,
        n > 0 ==> early_end(Some(n)) is None,
{
}

/// The suite runs as often as asked, and once at least.
pub proof fn theorem_rounds_of_an_audit(repeat: u32)
    ensures
        rounds_for(repeat) >= 1,
        repeat >= 1 ==> rounds_for(repeat) == repeat,
{
}

/// The block for `conftest.py` names every test, each on a line of its own.
pub proof fn theorem_every_test_is_in_the_block(literals: Seq<Seq<char>>, i: int)
    requires
        0 <= i < literals.len(),
    ensures
        crate::text::contains_sub(block_text(literals), "    "@ + literals[i] + ",\n"@),
{
    let lines = literal_lines(literals);
    let line = lines[i];
    let all = concat_all(lines);
    let head = "import pytest\n\n_RSTEST_SERIAL = {\n"@;
    let at = lemma_concat_holds(lines, i);
    let block = block_text(literals);
    let start = head.len() + at;
    assert(block.subrange(start, start + line.len()) =~= all.subrange(at, at + line.len()));
    assert(crate::text::occurs_at(block, line, start));
}

proof fn lemma_concat_holds(v: Seq<Seq<char>>, i: int) -> (at: int)
    requires
        0 <= i < v.len(),
    ensures
        0 <= at && at + v[i].len() <= concat_all(v).len(),
        concat_all(v).subrange(at, at + v[i].len()) == v[i],
    decreases v.len(),
{
    let init = concat_all(v.drop_last());
    let all = concat_all(v);
    if i == v.len() - 1 {
        assert(all.subrange(init.len() as int, (init.len() + v[i].len()) as int) =~= v[i]);
        init.len() as int
    } else {
        assert(v.drop_last()[i] == v[i]);
        let at = lemma_concat_holds(v.drop_last(), i);
        assert(all.subrange(at, at + v[i].len()) =~= init.subrange(at, at + v[i].len()));
        at
    }
}

/// Whether `res` is what runs are put together to.
pub open spec fn put_together(
    res: Option<OrderedMap<String, Rec>>,
    runs: Seq<Option<OrderedMap<String, Rec>>>,
) -> bool {
    match res {
        Some(m) => m@ == worst_of(runs, runs.len()) && forall|i: int|
            0 <= i < runs.len() ==> #[trigger] runs[i] is Some,
        None => exists|i: int| 0 <= i < runs.len() && #[trigger] runs[i] is None,
    }
}

/// Whether a test was in a run.
pub open spec fn was_in(run: Option<OrderedMap<String, Rec>>, id: Seq<char>) -> bool {
    run matches Some(m) && m@.contains_key(id)
}

/// Whether a test failed in a run.
pub open spec fn failed_in(run: Option<OrderedMap<String, Rec>>, id: Seq<char>) -> bool {
    run matches Some(m) && m@.contains_key(id) && m@[id].phase == Phase::Fail
}

proof fn lemma_worst_of(runs: Seq<Option<OrderedMap<String, Rec>>>, n: nat, id: Seq<char>)
    requires
        n <= runs.len(),
    ensures
        worst_of(runs, n).contains_key(id) <==> exists|i: int|
            0 <= i < n && was_in(#[trigger] runs[i], id),
        worst_of(runs, n).contains_key(id) ==> (worst_of(runs, n)[id].phase == Phase::Fail
            <==> exists|i: int| 0 <= i < n && failed_in(#[trigger] runs[i], id)),
    decreases n,
{
    if n > 0 {
        lemma_worst_of(runs, (n - 1) as nat, id);
        let before = worst_of(runs, (n - 1) as nat);
        let last = runs[n - 1];
        if let Some(run) = last {
            theorem_worst_of_two_runs(before, run@, id);
        }
        if exists|i: int| 0 <= i < n && was_in(#[trigger] runs[i], id) {
            let i = choose|i: int| 0 <= i < n && was_in(#[trigger] runs[i], id);
            if i < n - 1 {
                assert(before.contains_key(id));
            }
        }
        if before.contains_key(id) {
            let i = choose|i: int| 0 <= i < n - 1 && was_in(#[trigger] runs[i], id);
            assert(was_in(runs[i], id));
        }
        if was_in(last, id) {
            assert(was_in(runs[n - 1], id));
        }
        if failed_in(last, id) {
            assert(failed_in(runs[n - 1], id));
        }
        if exists|i: int| 0 <= i < n - 1 && failed_in(#[trigger] runs[i], id) {
            let i = choose|i: int| 0 <= i < n - 1 && failed_in(#[trigger] runs[i], id);
            assert(was_in(runs[i], id));
            assert(before.contains_key(id));
        }
    }
}

/// Runs are put together where each gave results; a test is in what comes out where it was in
/// one of them, and failed where it failed in one.
pub proof fn theorem_one_failed_run_is_enough(
    res: Option<OrderedMap<String, Rec>>,
    runs: Seq<Option<OrderedMap<String, Rec>>>,
    id: Seq<char>,
    i: int,
)
    requires
        put_together(res, runs),
        0 <= i < runs.len(),
    ensures
        runs[i] is None ==> res is None,
        (forall|k: int| 0 <= k < runs.len() ==> #[trigger] runs[k] is Some) ==> res is Some,
        res matches Some(m) ==> (was_in(runs[i], id) ==> m@.contains_key(id)),
        res matches Some(m) ==> (failed_in(runs[i], id) ==> m@.contains_key(id) && m@[id].phase
            == Phase::Fail),
        res matches Some(m) ==> (m@.contains_key(id) && m@[id].phase == Phase::Fail ==> exists|k: int|
            0 <= k < runs.len() && failed_in(#[trigger] runs[k], id)),
{
    lemma_worst_of(runs, runs.len(), id);
}

/// Of the tests in a list eight are shown, and how many more there are.
pub proof fn theorem_eight_tests_are_listed(ids: Seq<Seq<char>>, i: int)
    ensures
        ids.len() <= 8 ==> id_lines(ids).len() == ids.len(),
        ids.len() > 8 ==> id_lines(ids).len() == 9 && id_lines(ids).last() == "    … and "@
            + decimal(((ids.len() - 8) as usize) as nat) + " more"@,
        0 <= i < ids.len() && i < 8 ==> id_lines(ids)[i] == "    "@ + ids[i],
{
}

/// A safe suite is called so; one that is not has a part for each list that is not empty, and
/// tests that fail in series too are counted in either case.
pub proof fn theorem_what_an_audit_says(tests: usize, b: Buckets, block: Seq<char>)
    ensures
        ({
            let lines = audit_lines(tests, b, block);
            let known = if b.preexisting > 0 {
                1int
            } else {
                0
            };
            &&& b.safe() ==> lines.len() == 3 + known && lines[1] == safe_line_text(tests)
            &&& !b.safe() ==> lines.len() == 2 + known + serial_section(b.serial@, block).len()
                + order_section(texts(b.order@)).len() + intrinsic_section(
                texts(b.intrinsic@),
            ).len() + inconclusive_section(texts(b.inconclusive@)).len()
            &&& b.safe() && b.preexisting > 0 ==> lines[2] == preexisting_line_text(b.preexisting)
            &&& !b.safe() && b.preexisting > 0 ==> lines[lines.len() - 2] == unlisted_line_text(
                b.preexisting,
            )
        }),
        serial_section(Seq::empty(), block).len() == 0,
        order_section(Seq::empty()).len() == 0,
        intrinsic_section(Seq::empty()).len() == 0,
        inconclusive_section(Seq::empty()).len() == 0,
{
}

/// Each kind of fix is told once.
pub proof fn theorem_each_fix_is_told_once(serial: Seq<(String, Verdict)>, t: (String, Verdict))
    ensures
        (exists|i: int| 0 <= i < serial.len() && (#[trigger] serial[i]).1 == t.1) ==> remedies(
            serial.push(t),
        ) == remedies(serial),
        (forall|i: int| 0 <= i < serial.len() ==> (#[trigger] serial[i]).1 != t.1) ==> remedies(
            serial.push(t),
        ) == remedies(serial).push("    "@ + t.1.heading() + ": "@ + t.1.counsel().1),
        remedies(Seq::empty()).len() == 0,
{
    let all = serial.push(t);
    assert(all.drop_last() =~= serial);
    if exists|i: int| 0 <= i < serial.len() && (#[trigger] serial[i]).1 == t.1 {
        let i = choose|i: int| 0 <= i < serial.len() && (#[trigger] serial[i]).1 == t.1;
        assert(all[i].1 == t.1);
    }
    if forall|i: int| 0 <= i < serial.len() ==> (#[trigger] serial[i]).1 != t.1 {
        assert forall|i: int| 0 <= i < all.len() - 1 implies (#[trigger] all[i]).1 != t.1 by {
            assert(all[i] == serial[i]);
        }
    }
}

/// An audit stores what its lists hold, each candidate with its kind and its fix.
pub proof fn theorem_what_an_audit_stores(a: Audited, tests: usize, b: Buckets, i: int)
    requires
        audited(a, tests, b),
    ensures
        a.tests == tests && a.preexisting_failures == b.preexisting,
        a.serial_candidates@.len() == b.serial@.len(),
        0 <= i < b.serial@.len() ==> a.serial_candidates@[i].0@ == b.serial@[i].0@
            && a.serial_candidates@[i].1@ == b.serial@[i].1.heading()
            && a.serial_candidates@[i].2@ == b.serial@[i].1.counsel().1,
        texts(a.order_dependent@) == texts(b.order@),
        texts(a.intrinsic_flakes@) == texts(b.intrinsic@),
        texts(a.inconclusive@) == texts(b.inconclusive@),
{
}

} // verus!
