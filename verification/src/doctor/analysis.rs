//! From what was measured to a report: what is listed, in which order, and from
//! which size on.

use super::report::{
    CoverageWaste, DoctorReport, FileEntry, FixtureEntry, GateTest, Leak, ParallelEfficiency,
    ParallelFloor, WaitBound, WaitTest, WorkerLoad, SCHEMA_VERSION,
};
use super::waste::{
    candidates_listed, coverage_waste, details_of, is_waste, product_rows, removed_of,
};
use crate::coverage_skip::CoverageIndex;
use crate::double::{Double, FIFTH, HALF, ONE, THREE_FIFTHS, TWENTY, ZERO};
use crate::nodeids::{file_of, file_part};
use crate::order::text_lt;
use crate::ordered_map::{OrderedKey, OrderedMap};
use crate::rank::{positions, rank, ranked, Down};
use crate::text::texts;
use vstd::prelude::*;

verus! {

broadcast use crate::text::lemma_texts_push;

/// The places of numbers in their order.
pub open spec fn places(keys: Seq<Double>) -> Seq<int> {
    Seq::new(keys.len(), |i: int| keys[i].place())
}

/// Ranks numbers, the largest first.
pub fn largest_first(keys: &[Double]) -> (res: Vec<usize>)
    ensures
        ranked::<Down>(positions(res@), places(keys@)),
{
    let mut downs: Vec<Down> = Vec::new();
    let mut i: usize = 0;
    while i < keys.len()
        invariant
            i <= keys.len(),
            downs.len() == i,
            forall|j: int| 0 <= j < i ==> (#[trigger] downs@[j]).key == keys@[j].place(),
        decreases keys.len() - i,
    {
        downs.push(Down { key: keys[i].order_key() });
        i += 1;
    }
    assert(crate::rank::models(downs@) =~= places(keys@));
    rank(downs.as_slice())
}

/// The smaller of two lengths.
pub open spec fn at_most(len: nat, cap: nat) -> nat {
    if len < cap {
        len
    } else {
        cap
    }
}

/// A test with how long it waited.
pub struct WaitRow {
    pub nodeid: String,
    pub duration: Double,
    /// Its duration less its computing time.
    pub wait: Double,
    /// Which part of the duration that is.
    pub ratio: Double,
}

/// Whether a test was mostly waiting, and long enough to be told of.
pub open spec fn waits(r: WaitRow) -> bool {
    r.duration.at_least(Double { bits: FIFTH }) && r.ratio.at_least(Double { bits: THREE_FIFTHS })
}

/// The tests that were mostly waiting.
pub open spec fn waiting(rows: Seq<WaitRow>) -> Seq<WaitRow> {
    rows.filter(|r: WaitRow| waits(r))
}

/// How long tests waited.
pub open spec fn wait_times(rows: Seq<WaitRow>) -> Seq<Double> {
    Seq::new(rows.len(), |i: int| rows[i].wait)
}

/// Whether a listed test is that of a row.
pub open spec fn same_wait(t: WaitTest, r: WaitRow) -> bool {
    t.nodeid@ == r.nodeid@ && t.duration == r.duration && t.wait == r.wait
}

/// Whether `res` lists the tests that waited longest: fifty at most, the longest
/// first.
pub open spec fn longest_waits(res: Seq<WaitTest>, rows: Seq<WaitRow>) -> bool {
    exists|order: Seq<int>| #[trigger]
        ranked::<Down>(order, places(wait_times(waiting(rows)))) && res.len() == at_most(
            order.len(),
            50,
        ) && forall|i: int| 0 <= i < res.len() ==> same_wait(#[trigger] res[i], waiting(rows)[order[i]])
}

/// Whether waiting is worth telling of: a fifth of the time, and a second.
pub open spec fn wait_bound_applies(measured: bool, wait: Double, pct: Double) -> bool {
    measured && pct.at_least(Double { bits: TWENTY }) && wait.at_least(Double { bits: ONE })
}

/// Whether a section on waiting is as it should be.
pub open spec fn is_wait_bound(
    res: Option<WaitBound>,
    measured: bool,
    wait: Double,
    pct: Double,
    rows: Seq<WaitRow>,
) -> bool {
    match res {
        Some(w) => wait_bound_applies(measured, wait, pct) && w.wait_seconds == wait && w.wait_pct
            == pct && longest_waits(w.tests@, rows),
        None => !wait_bound_applies(measured, wait, pct),
    }
}

/// Finds out how much of the time tests were waiting.
pub fn wait_bound(measured: bool, wait: &Double, pct: &Double, rows: &[WaitRow]) -> (res: Option<
    WaitBound,
>)
    ensures
        is_wait_bound(res, measured, *wait, *pct, rows@),
{
    if !(measured && pct.ge(&Double { bits: TWENTY }) && wait.ge(&Double { bits: ONE })) {
        return None;
    }
    let mut kept: Vec<usize> = Vec::new();
    let mut keys: Vec<Double> = Vec::new();
    let mut i: usize = 0;
    assert(waiting(rows@.take(0)) =~= Seq::empty()) by {
        reveal(Seq::filter);
    }
    while i < rows.len()
        invariant
            i <= rows.len(),
            kept@.len() == waiting(rows@.take(i as int)).len(),
            keys@.len() == kept@.len(),
            forall|j: int|
                0 <= j < kept@.len() ==> #[trigger] kept@[j] < rows.len() && rows@[kept@[j] as int]
                    == waiting(rows@.take(i as int))[j],
            forall|j: int|
                0 <= j < keys@.len() ==> #[trigger] keys@[j] == rows@[kept@[j] as int].wait,
        decreases rows.len() - i,
    {
        proof {
            assert(rows@.take(i + 1).drop_last() =~= rows@.take(i as int));
            reveal(Seq::filter);
        }
        let r = &rows[i];
        if r.duration.ge(&Double { bits: FIFTH }) && r.ratio.ge(&Double { bits: THREE_FIFTHS }) {
            keys.push(r.wait);
            kept.push(i);
        }
        i += 1;
    }
    assert(rows@.take(rows.len() as int) =~= rows@);
    let ghost all = waiting(rows@);
    let order = largest_first(keys.as_slice());
    let ghost p = positions(order@);
    assert(places(keys@) =~= places(wait_times(all)));
    let n: usize = if order.len() < 50 { order.len() } else { 50 };
    let mut tests: Vec<WaitTest> = Vec::new();
    let mut k: usize = 0;
    while k < n
        invariant
            k <= n <= order.len(),
            p == positions(order@),
            ranked::<Down>(p, places(wait_times(all))),
            kept@.len() == all.len(),
            forall|j: int|
                0 <= j < kept@.len() ==> #[trigger] kept@[j] < rows.len() && rows@[kept@[j] as int]
                    == all[j],
            tests.len() == k,
            forall|j: int| 0 <= j < k ==> same_wait(#[trigger] tests@[j], all[p[j]]),
        decreases n - k,
    {
        assert(0 <= p[k as int] < places(wait_times(all)).len());
        let r = &rows[kept[order[k]]];
        tests.push(WaitTest { nodeid: r.nodeid.clone(), duration: r.duration, wait: r.wait });
        k += 1;
    }
    assert(longest_waits(tests@, rows@));
    Some(WaitBound { wait_seconds: *wait, wait_pct: *pct, tests })
}

/// How long tests took.
pub open spec fn durations_in(tests: Seq<GateTest>) -> Seq<Double> {
    Seq::new(tests.len(), |i: int| tests[i].duration)
}

/// From which duration on a test holds up the run: a worker's share, and at least
/// a second.
pub open spec fn floor_bar(ideal: Double) -> Double {
    if ideal.nan() || ideal.less(Double { bits: ONE }) {
        Double { bits: ONE }
    } else {
        ideal
    }
}

/// Whether two entries are of the same test.
pub open spec fn same_gate(a: GateTest, b: GateTest) -> bool {
    a.nodeid@ == b.nodeid@ && a.duration == b.duration
}

/// The tests above a bar, of those at some positions.
pub open spec fn above(tests: Seq<GateTest>, order: Seq<int>, bar: Double) -> Seq<int>
    decreases order.len(),
{
    if order.len() == 0 {
        Seq::empty()
    } else {
        let before = above(tests, order.drop_last(), bar);
        if bar.less(tests[order.last()].duration) {
            before.push(order.last())
        } else {
            before
        }
    }
}

/// The longest test, first in the order of durations.
pub open spec fn longest(tests: Seq<GateTest>, order: Seq<int>) -> Option<Double> {
    if order.len() > 0 {
        Some(tests[order[0]].duration)
    } else {
        None
    }
}

/// Whether a section on long tests is as it should be, the tests being ordered by
/// duration: it is there where the longest is above the bar, and lists those of
/// the ten longest that are.
pub open spec fn is_floor(
    res: Option<ParallelFloor>,
    tests: Seq<GateTest>,
    order: Seq<int>,
    ideal: Double,
) -> bool {
    let bar = floor_bar(ideal);
    match res {
        Some(f) => order.len() > 0 && bar.less(tests[order[0]].duration) && f.longest_seconds
            == tests[order[0]].duration && f.ideal_share_seconds == ideal && ({
            let listed = above(tests, order.take(at_most(order.len(), 10) as int), bar);
            f.gate_tests@.len() == listed.len() && forall|i: int|
                0 <= i < listed.len() ==> same_gate(#[trigger] f.gate_tests@[i], tests[listed[i]])
        }),
        None => order.len() == 0 || !bar.less(tests[order[0]].duration),
    }
}

fn parallel_floor(tests: &[GateTest], order: &Vec<usize>, ideal: &Double) -> (res: Option<
    ParallelFloor,
>)
    requires
        ranked::<Down>(positions(order@), places(durations_in(tests@))),
    ensures
        is_floor(res, tests@, positions(order@), *ideal),
{
    let ghost p = positions(order@);
    let bar = if ideal.is_nan() || ideal.lt(&Double { bits: ONE }) {
        Double { bits: ONE }
    } else {
        *ideal
    };
    if order.len() == 0 {
        return None;
    }
    assert(0 <= p[0] < places(durations_in(tests@)).len());
    let longest = tests[order[0]].duration;
    if !bar.lt(&longest) {
        return None;
    }
    let n: usize = if order.len() < 10 { order.len() } else { 10 };
    let ghost head = p.take(n as int);
    let mut listed: Vec<GateTest> = Vec::new();
    let ghost mut at: Seq<int> = Seq::empty();
    let mut i: usize = 0;
    assert(above(tests@, head.take(0), bar) =~= Seq::empty());
    while i < n
        invariant
            i <= n <= order.len(),
            p == positions(order@),
            head == p.take(n as int),
            ranked::<Down>(p, places(durations_in(tests@))),
            at == above(tests@, head.take(i as int), bar),
            listed@.len() == at.len(),
            forall|j: int| 0 <= j < at.len() ==> same_gate(#[trigger] listed@[j], tests@[at[j]]),
        decreases n - i,
    {
        proof {
            assert(0 <= p[i as int] < places(durations_in(tests@)).len());
            assert(head.take(i + 1).drop_last() =~= head.take(i as int));
            assert(head.take(i + 1).last() == order@[i as int]);
        }
        let t = &tests[order[i]];
        if bar.lt(&t.duration) {
            listed.push(GateTest { nodeid: t.nodeid.clone(), duration: t.duration });
            proof {
                at = at.push(order@[i as int] as int);
            }
        }
        i += 1;
    }
    assert(head.take(n as int) =~= head);
    Some(
        ParallelFloor {
            longest_seconds: longest,
            ideal_share_seconds: *ideal,
            gate_tests: listed,
        },
    )
}

/// The values that stand beside a name.
pub open spec fn values_of(names: Seq<Seq<char>>, values: Seq<Double>, name: Seq<char>) -> Seq<Double>
    decreases names.len(),
{
    if names.len() == 0 {
        Seq::empty()
    } else {
        let before = values_of(names.drop_last(), values.drop_last(), name);
        if names.last() == name {
            before.push(values.last())
        } else {
            before
        }
    }
}

/// The values of groups.
pub open spec fn group_values(m: Map<Seq<char>, Vec<Double>>) -> Map<Seq<char>, Seq<Double>> {
    Map::new(|k: Seq<char>| m.contains_key(k), |k: Seq<char>| m[k]@)
}

/// The values grouped by the names that stand beside them, each group in order.
pub open spec fn grouped(names: Seq<Seq<char>>, values: Seq<Double>) -> Map<Seq<char>, Seq<Double>> {
    Map::new(|k: Seq<char>| names.contains(k), |k: Seq<char>| values_of(names, values, k))
}

/// Groups values by the names that stand beside them: durations by worker, or by
/// file.
pub fn group(names: &[String], values: &[Double]) -> (res: OrderedMap<String, Vec<Double>>)
    requires
        names@.len() == values@.len(),
    ensures
        group_values(res@) == grouped(texts(names@), values@),
{
    let mut out: OrderedMap<String, Vec<Double>> = OrderedMap::new();
    let ghost all = texts(names@);
    let mut i: usize = 0;
    assert(group_values(out@) =~= grouped(all.take(0), values@.take(0)));
    while i < names.len()
        invariant
            i <= names.len(),
            names@.len() == values@.len(),
            all == texts(names@),
            group_values(out@) == grouped(all.take(i as int), values@.take(i as int)),
        decreases names.len() - i,
    {
        let ghost before = group_values(out@);
        let ghost was = out@;
        let ghost name = names@[i as int]@;
        let ghost t = all.take(i as int);
        let ghost u = all.take(i + 1);
        proof {
            assert(u.drop_last() =~= t);
            assert(u.last() == name);
            assert(values@.take(i + 1).drop_last() =~= values@.take(i as int));
            if !t.contains(name) {
                lemma_no_values(t, values@.take(i as int), name);
            }
            assert(before.contains_key(name) == was.contains_key(name));
        }
        let mut list: Vec<Double> = match out.remove(&names[i]) {
            Some(l) => l,
            None => Vec::new(),
        };
        assert(list@ == values_of(t, values@.take(i as int), name)) by {
            if was.contains_key(name) {
                assert(before[name] == was[name]@);
            }
        }
        list.push(values[i]);
        let ghost now = list@;
        out.insert(names[i].clone(), list);
        proof {
            let after = grouped(u, values@.take(i + 1));
            assert forall|k: Seq<char>| #[trigger]
                crate::ordered_map::agree(group_values(out@), after, k) by {
                assert(u.contains(k) == (t.contains(k) || k == name)) by {
                    if t.contains(k) {
                        let j = choose|j: int| 0 <= j < t.len() && t[j] == k;
                        assert(u[j] == k);
                    }
                    if k == name {
                        assert(u[i as int] == k);
                    }
                    if u.contains(k) {
                        let j = choose|j: int| 0 <= j < u.len() && u[j] == k;
                        if j < i {
                            assert(t[j] == k);
                        }
                    }
                }
                assert(before.contains_key(k) == was.contains_key(k));
                if was.contains_key(k) {
                    assert(before[k] == was[k]@);
                }
            }
            crate::ordered_map::lemma_same_map(group_values(out@), after);
        }
        i += 1;
    }
    assert(all.take(names.len() as int) =~= all);
    assert(values@.take(names.len() as int) =~= values@);
    out
}

proof fn lemma_no_values(names: Seq<Seq<char>>, values: Seq<Double>, name: Seq<char>)
    requires
        !names.contains(name),
    ensures
        values_of(names, values, name) == Seq::<Double>::empty(),
    decreases names.len(),
{
    if names.len() > 0 {
        assert(names[names.len() - 1] == names.last());
        assert forall|i: int| 0 <= i < names.drop_last().len() implies names.drop_last()[i]
            != name by {
            assert(names[i] == names.drop_last()[i]);
        }
        lemma_no_values(names.drop_last(), values.drop_last(), name);
    }
}

/// How long a test waited.
pub struct Waited {
    /// Its duration less its computing time.
    pub wait: Double,
    /// Which part of the duration that is.
    pub ratio: Double,
}

/// A test with what was measured of it.
pub struct Timed {
    pub nodeid: String,
    pub duration: Double,
    /// The worker that it ran on, where one is known.
    pub worker: Option<String>,
    /// How long it waited, where its computing time was measured.
    pub waited: Option<Waited>,
}

/// The tests with their durations.
pub open spec fn gates(tests: Seq<Timed>) -> Seq<GateTest> {
    Seq::new(
        tests.len(),
        |i: int| GateTest { nodeid: tests[i].nodeid, duration: tests[i].duration },
    )
}

/// The tests whose computing time was measured, with how long they waited.
pub open spec fn wait_rows_of(tests: Seq<Timed>) -> Seq<WaitRow>
    decreases tests.len(),
{
    if tests.len() == 0 {
        Seq::empty()
    } else {
        let before = wait_rows_of(tests.drop_last());
        let t = tests.last();
        match t.waited {
            Some(w) => before.push(
                WaitRow { nodeid: t.nodeid, duration: t.duration, wait: w.wait, ratio: w.ratio },
            ),
            None => before,
        }
    }
}

/// The worker of a test; one that is not known is the only one.
pub open spec fn runner(t: Timed) -> Seq<char> {
    match t.worker {
        Some(w) => w@,
        None => "serial"@,
    }
}

/// The workers of tests.
pub open spec fn runners(tests: Seq<Timed>) -> Seq<Seq<char>> {
    Seq::new(tests.len(), |i: int| runner(tests[i]))
}

/// The files of tests.
pub open spec fn files_of(tests: Seq<Timed>) -> Seq<Seq<char>> {
    Seq::new(tests.len(), |i: int| file_part(tests[i].nodeid@))
}

fn gate_tests(tests: &[Timed]) -> (res: Vec<GateTest>)
    ensures
        res@ == gates(tests@),
{
    let mut out: Vec<GateTest> = Vec::new();
    let mut i: usize = 0;
    while i < tests.len()
        invariant
            i <= tests.len(),
            out.len() == i,
            forall|j: int| 0 <= j < i ==> #[trigger] out@[j] == gates(tests@)[j],
        decreases tests.len() - i,
    {
        out.push(GateTest { nodeid: tests[i].nodeid.clone(), duration: tests[i].duration });
        i += 1;
    }
    assert(out@ =~= gates(tests@));
    out
}

fn wait_rows(tests: &[Timed]) -> (res: Vec<WaitRow>)
    ensures
        res@ == wait_rows_of(tests@),
{
    let mut out: Vec<WaitRow> = Vec::new();
    let mut i: usize = 0;
    assert(wait_rows_of(tests@.take(0)) =~= Seq::empty());
    while i < tests.len()
        invariant
            i <= tests.len(),
            out@ == wait_rows_of(tests@.take(i as int)),
        decreases tests.len() - i,
    {
        proof {
            assert(tests@.take(i + 1).drop_last() =~= tests@.take(i as int));
            assert(tests@.take(i + 1).last() == tests@[i as int]);
        }
        let t = &tests[i];
        if let Some(w) = &t.waited {
            out.push(
                WaitRow {
                    nodeid: t.nodeid.clone(),
                    duration: t.duration,
                    wait: w.wait,
                    ratio: w.ratio,
                },
            );
        }
        i += 1;
    }
    assert(tests@.take(tests.len() as int) =~= tests@);
    out
}

/// Lists the durations of tests.
pub fn times(tests: &[Timed]) -> (res: Vec<Double>)
    ensures
        res@ == durations_in(gates(tests@)),
{
    let mut out: Vec<Double> = Vec::new();
    let mut i: usize = 0;
    while i < tests.len()
        invariant
            i <= tests.len(),
            out.len() == i,
            forall|j: int| 0 <= j < i ==> #[trigger] out@[j] == tests@[j].duration,
        decreases tests.len() - i,
    {
        out.push(tests[i].duration);
        i += 1;
    }
    assert(out@ =~= durations_in(gates(tests@)));
    out
}

/// Lists the workers of tests.
pub fn worker_names(tests: &[Timed]) -> (res: Vec<String>)
    ensures
        texts(res@) == runners(tests@),
{
    let mut out: Vec<String> = Vec::new();
    let mut i: usize = 0;
    while i < tests.len()
        invariant
            i <= tests.len(),
            out.len() == i,
            forall|j: int| 0 <= j < i ==> (#[trigger] out@[j])@ == runner(tests@[j]),
        decreases tests.len() - i,
    {
        let name = match &tests[i].worker {
            Some(w) => w.clone(),
            None => "serial".to_owned(),
        };
        out.push(name);
        i += 1;
    }
    assert(texts(out@) =~= runners(tests@));
    out
}

/// Lists the files of tests.
pub fn file_names(tests: &[Timed]) -> (res: Vec<String>)
    ensures
        texts(res@) == files_of(tests@),
{
    let mut out: Vec<String> = Vec::new();
    let mut i: usize = 0;
    while i < tests.len()
        invariant
            i <= tests.len(),
            out.len() == i,
            forall|j: int| 0 <= j < i ==> (#[trigger] out@[j])@ == file_part(tests@[j].nodeid@),
        decreases tests.len() - i,
    {
        out.push(file_of(tests[i].nodeid.as_str()));
        i += 1;
    }
    assert(texts(out@) =~= files_of(tests@));
    out
}

/// A list in another order.
pub open spec fn reordered<A>(v: Seq<A>, order: Seq<int>) -> Seq<A> {
    Seq::new(order.len(), |i: int| v[order[i]])
}

/// Groups the durations of tests by file, in each file the longest first: in this order
/// they are added up.
pub fn times_by_file(tests: &[Timed]) -> (res: OrderedMap<String, Vec<Double>>)
    ensures
        exists|order: Seq<int>| #[trigger]
            ranked::<Down>(order, places(durations_in(gates(tests@)))) && group_values(res@)
                == grouped(
                reordered(files_of(tests@), order),
                reordered(durations_in(gates(tests@)), order),
            ),
{
    let names = file_names(tests);
    let values = times(tests);
    let order = largest_first(values.as_slice());
    let ghost p = positions(order@);
    let ghost all = places(durations_in(gates(tests@)));
    assert(texts(names@).len() == names@.len());
    let mut files: Vec<String> = Vec::new();
    let mut durations: Vec<Double> = Vec::new();
    let mut k: usize = 0;
    while k < order.len()
        invariant
            k <= order.len(),
            p == positions(order@),
            ranked::<Down>(p, all),
            all.len() == names@.len(),
            all.len() == values@.len(),
            files.len() == k,
            durations.len() == k,
            forall|j: int| 0 <= j < k ==> (#[trigger] files@[j])@ == names@[p[j]]@,
            forall|j: int| 0 <= j < k ==> #[trigger] durations@[j] == values@[p[j]],
        decreases order.len() - k,
    {
        assert(0 <= p[k as int] < all.len());
        files.push(names[order[k]].clone());
        durations.push(values[order[k]]);
        k += 1;
    }
    assert(texts(files@) =~= reordered(files_of(tests@), p)) by {
        assert forall|j: int| 0 <= j < p.len() implies files@[j]@ == files_of(tests@)[p[j]] by {
            assert(0 <= p[j] < all.len());
            assert(texts(names@)[p[j]] == names@[p[j]]@);
        }
    }
    assert(durations@ =~= reordered(durations_in(gates(tests@)), p));
    group(files.as_slice(), durations.as_slice())
}

/// Puts together the workers with tests, what the durations of their tests add up to,
/// and how many tests they are.
pub fn worker_loads(groups: &OrderedMap<String, Vec<Double>>, sums: &[Double]) -> (res: Vec<
    WorkerLoad,
>)
    requires
        groups.list().len() == sums@.len(),
    ensures
        res@.len() == groups.list().len(),
        forall|i: int|
            0 <= i < res@.len() ==> {
                &&& (#[trigger] res@[i]).worker@ == groups.list()[i].0@
                &&& res@[i].tests == groups.list()[i].1@.len()
                &&& res@[i].busy_seconds == sums@[i]
            },
{
    let n = groups.len();
    let mut out: Vec<WorkerLoad> = Vec::new();
    let mut i: usize = 0;
    while i < n
        invariant
            i <= n,
            n == groups.list().len(),
            n == sums@.len(),
            out.len() == i,
            forall|j: int|
                0 <= j < i ==> {
                    &&& (#[trigger] out@[j]).worker@ == groups.list()[j].0@
                    &&& out@[j].tests == groups.list()[j].1@.len()
                    &&& out@[j].busy_seconds == sums@[j]
                },
        decreases n - i,
    {
        let (worker, v) = groups.at(i);
        out.push(WorkerLoad { worker: worker.clone(), busy_seconds: sums[i], tests: v.len() });
        i += 1;
    }
    out
}

/// What is given for a name; nothing where nothing is.
pub open spec fn sum_for(sums: Map<Seq<char>, Double>, name: Seq<char>) -> Double {
    if sums.contains_key(name) {
        sums[name]
    } else {
        Double { bits: ZERO }
    }
}

/// Whether a worker is in a list.
pub open spec fn worker_listed(loads: Seq<WorkerLoad>, worker: Seq<char>) -> bool {
    exists|i: int| 0 <= i < loads.len() && (#[trigger] loads[i]).worker@ == worker
}

/// Whether a list tells of the workers that tests ran on: each once and by name, with
/// as many tests as ran on it, and with the time that is given for it.
pub open spec fn loads_of(
    loads: Seq<WorkerLoad>,
    names: Seq<Seq<char>>,
    values: Seq<Double>,
    busy: Map<Seq<char>, Double>,
) -> bool {
    &&& forall|i: int, j: int|
        0 <= i < j < loads.len() ==> text_lt(
            (#[trigger] loads[i]).worker@,
            (#[trigger] loads[j]).worker@,
        )
    &&& forall|i: int|
        0 <= i < loads.len() ==> names.contains((#[trigger] loads[i]).worker@) && loads[i].tests
            == values_of(names, values, loads[i].worker@).len() && loads[i].busy_seconds == sum_for(
            busy,
            loads[i].worker@,
        )
    &&& forall|i: int| 0 <= i < names.len() ==> worker_listed(loads, #[trigger] names[i])
}

fn loads_by_name(names: &[String], values: &[Double], busy: &OrderedMap<String, Double>) -> (res:
    Vec<WorkerLoad>)
    requires
        names@.len() == values@.len(),
    ensures
        loads_of(res@, texts(names@), values@, busy@),
{
    let groups = group(names, values);
    let n = groups.len();
    let ghost all = texts(names@);
    let ghost list = groups.list();
    let mut sums: Vec<Double> = Vec::new();
    let mut i: usize = 0;
    while i < n
        invariant
            i <= n,
            n == list.len(),
            list == groups.list(),
            sums.len() == i,
            forall|j: int| 0 <= j < i ==> #[trigger] sums@[j] == sum_for(busy@, list[j].0@),
        decreases n - i,
    {
        let (worker, _) = groups.at(i);
        let sum = match busy.get(worker) {
            Some(s) => *s,
            None => Double { bits: ZERO },
        };
        sums.push(sum);
        i += 1;
    }
    let out = worker_loads(&groups, sums.as_slice());
    proof {
        let m = grouped(all, values@);
        assert forall|j: int| 0 <= j < out@.len() implies all.contains((#[trigger] out@[j]).worker@)
            && out@[j].tests == values_of(all, values@, out@[j].worker@).len() by {
            let k = list[j].0@;
            assert(groups@.contains_key(list[j].0.model()));
            assert(group_values(groups@).contains_key(k));
            assert(m.contains_key(k));
            assert(group_values(groups@)[k] == list[j].1@);
        }
        assert forall|a: int, b: int| 0 <= a < b < out@.len() implies text_lt(
            (#[trigger] out@[a]).worker@,
            (#[trigger] out@[b]).worker@,
        ) by {
            assert(<String as OrderedKey>::before(list[a].0.model(), list[b].0.model()));
        }
        assert forall|j: int| 0 <= j < all.len() implies worker_listed(out@, #[trigger] all[j]) by {
            let k = all[j];
            assert(all.contains(k));
            assert(m.contains_key(k));
            assert(group_values(groups@).contains_key(k));
            assert(groups@.contains_key(k));
            let x = choose|x: int| #[trigger] crate::ordered_map::key_at(list, x, k);
            assert(out@[x].worker@ == k);
        }
    }
    out
}

/// What the durations of a file's tests add up to, and which part of the whole it is.
#[derive(Clone, Copy)]
pub struct FileTime {
    pub total: Double,
    pub pct: Double,
}

/// What is given for a file; nothing where nothing is.
pub open spec fn time_for(spent: Map<Seq<char>, FileTime>, file: Seq<char>) -> FileTime {
    if spent.contains_key(file) {
        spent[file]
    } else {
        FileTime { total: Double { bits: ZERO }, pct: Double { bits: ZERO } }
    }
}

/// Whether a file is in a list.
pub open spec fn file_listed(files: Seq<FileEntry>, file: Seq<char>) -> bool {
    exists|i: int| 0 <= i < files.len() && (#[trigger] files[i]).file@ == file
}

/// Whether a list tells of the files of tests: each once and by name, with the times
/// that are given for it.
pub open spec fn entries_of(
    files: Seq<FileEntry>,
    names: Seq<Seq<char>>,
    spent: Map<Seq<char>, FileTime>,
) -> bool {
    &&& forall|i: int, j: int|
        0 <= i < j < files.len() ==> text_lt(
            (#[trigger] files[i]).file@,
            (#[trigger] files[j]).file@,
        )
    &&& forall|i: int|
        0 <= i < files.len() ==> names.contains((#[trigger] files[i]).file@)
            && files[i].total_seconds == time_for(spent, files[i].file@).total && files[i].pct
            == time_for(spent, files[i].file@).pct
    &&& forall|i: int| 0 <= i < names.len() ==> file_listed(files, #[trigger] names[i])
}

fn files_by_name(names: &[String], values: &[Double], spent: &OrderedMap<String, FileTime>) -> (res:
    Vec<FileEntry>)
    requires
        names@.len() == values@.len(),
    ensures
        entries_of(res@, texts(names@), spent@),
{
    let groups = group(names, values);
    let n = groups.len();
    let ghost all = texts(names@);
    let ghost list = groups.list();
    let mut out: Vec<FileEntry> = Vec::new();
    let mut i: usize = 0;
    while i < n
        invariant
            i <= n,
            n == list.len(),
            list == groups.list(),
            out.len() == i,
            forall|j: int|
                0 <= j < i ==> (#[trigger] out@[j]).file@ == list[j].0@ && out@[j].total_seconds
                    == time_for(spent@, list[j].0@).total && out@[j].pct == time_for(
                    spent@,
                    list[j].0@,
                ).pct,
        decreases n - i,
    {
        let (file, _) = groups.at(i);
        let t = match spent.get(file) {
            Some(t) => *t,
            None => FileTime { total: Double { bits: ZERO }, pct: Double { bits: ZERO } },
        };
        out.push(FileEntry { file: file.clone(), total_seconds: t.total, pct: t.pct });
        i += 1;
    }
    proof {
        let m = grouped(all, values@);
        assert forall|j: int| 0 <= j < out@.len() implies all.contains(
            (#[trigger] out@[j]).file@,
        ) by {
            let k = list[j].0@;
            assert(groups@.contains_key(list[j].0.model()));
            assert(group_values(groups@).contains_key(k));
            assert(m.contains_key(k));
        }
        assert forall|a: int, b: int| 0 <= a < b < out@.len() implies text_lt(
            (#[trigger] out@[a]).file@,
            (#[trigger] out@[b]).file@,
        ) by {
            assert(<String as OrderedKey>::before(list[a].0.model(), list[b].0.model()));
        }
        assert forall|j: int| 0 <= j < all.len() implies file_listed(out@, #[trigger] all[j]) by {
            let k = all[j];
            assert(all.contains(k));
            assert(m.contains_key(k));
            assert(group_values(groups@).contains_key(k));
            assert(groups@.contains_key(k));
            let x = choose|x: int| #[trigger] crate::ordered_map::key_at(list, x, k);
            assert(out@[x].file@ == k);
        }
    }
    out
}

/// How many tests ran on workers.
pub open spec fn load_count(loads: Seq<WorkerLoad>) -> nat
    decreases loads.len(),
{
    if loads.len() == 0 {
        0
    } else {
        load_count(loads.drop_last()) + loads.last().tests as nat
    }
}

/// Whether no worker is listed twice.
pub open spec fn distinct_workers(loads: Seq<WorkerLoad>) -> bool {
    forall|i: int, j: int|
        0 <= i < j < loads.len() ==> (#[trigger] loads[i]).worker@ != (#[trigger] loads[j]).worker@
}

/// How many values stand beside the names of a list.
spec fn total_of(keys: Seq<Seq<char>>, names: Seq<Seq<char>>, values: Seq<Double>) -> nat
    decreases keys.len(),
{
    if keys.len() == 0 {
        0
    } else {
        total_of(keys.drop_last(), names, values) + values_of(names, values, keys.last()).len()
    }
}

proof fn lemma_total_step(keys: Seq<Seq<char>>, names: Seq<Seq<char>>, values: Seq<Double>)
    requires
        keys.no_duplicates(),
        names.len() > 0,
    ensures
        total_of(keys, names, values) == total_of(keys, names.drop_last(), values.drop_last()) + (
        if keys.contains(names.last()) {
            1nat
        } else {
            0
        }),
    decreases keys.len(),
{
    if keys.len() > 0 {
        let init = keys.drop_last();
        let x = names.last();
        assert forall|i: int, j: int| 0 <= i < init.len() && 0 <= j < init.len() && i != j implies
            init[i] != init[j] by {
            assert(keys[i] != keys[j]);
        }
        lemma_total_step(init, names, values);
        if keys.last() == x {
            assert(keys[keys.len() - 1] == x);
            if init.contains(x) {
                let i = choose|i: int| 0 <= i < init.len() && init[i] == x;
                assert(keys[i] == x);
            }
        } else if keys.contains(x) {
            let i = choose|i: int| 0 <= i < keys.len() && keys[i] == x;
            assert(init[i] == x);
        } else if init.contains(x) {
            let i = choose|i: int| 0 <= i < init.len() && init[i] == x;
            assert(keys[i] == x);
        }
    }
}

proof fn lemma_total(keys: Seq<Seq<char>>, names: Seq<Seq<char>>, values: Seq<Double>)
    requires
        keys.no_duplicates(),
        forall|i: int| 0 <= i < names.len() ==> keys.contains(#[trigger] names[i]),
    ensures
        total_of(keys, names, values) == names.len(),
    decreases names.len(), keys.len(),
{
    if names.len() > 0 {
        lemma_total_step(keys, names, values);
        let init = names.drop_last();
        assert forall|i: int| 0 <= i < init.len() implies keys.contains(#[trigger] init[i]) by {
            assert(init[i] == names[i]);
        }
        lemma_total(keys, init, values.drop_last());
        assert(keys.contains(names[names.len() - 1]));
    } else if keys.len() > 0 {
        let init = keys.drop_last();
        assert forall|i: int, j: int| 0 <= i < init.len() && 0 <= j < init.len() && i != j implies
            init[i] != init[j] by {
            assert(keys[i] != keys[j]);
        }
        lemma_total(init, names, values);
    }
}

proof fn lemma_load_count(
    loads: Seq<WorkerLoad>,
    keys: Seq<Seq<char>>,
    names: Seq<Seq<char>>,
    values: Seq<Double>,
)
    requires
        keys.len() == loads.len(),
        forall|i: int|
            0 <= i < loads.len() ==> (#[trigger] loads[i]).worker@ == keys[i] && loads[i].tests
                == values_of(names, values, keys[i]).len(),
    ensures
        load_count(loads) == total_of(keys, names, values),
    decreases loads.len(),
{
    if loads.len() > 0 {
        let init = loads.drop_last();
        assert forall|i: int| 0 <= i < init.len() implies (#[trigger] init[i]).worker@
            == keys.drop_last()[i] && init[i].tests == values_of(
            names,
            values,
            keys.drop_last()[i],
        ).len() by {
            assert(init[i] == loads[i]);
        }
        lemma_load_count(init, keys.drop_last(), names, values);
        assert(loads[loads.len() - 1] == loads.last());
    }
}

/// Every test counts for one worker: of workers that are told of in whatever order,
/// none is listed twice, and their tests add up to all tests.
pub proof fn theorem_loads_count_every_test(
    res: Seq<WorkerLoad>,
    loads: Seq<WorkerLoad>,
    names: Seq<Seq<char>>,
    values: Seq<Double>,
    busy: Map<Seq<char>, Double>,
)
    requires
        loads_of(loads, names, values, busy),
        busiest(res, loads),
    ensures
        distinct_workers(res),
        load_count(res) == names.len(),
{
    let order = choose|order: Seq<int>| #[trigger]
        ranked::<Down>(order, places(busy_times(loads))) && res.len() == order.len() && forall|i: int|
            0 <= i < res.len() ==> same_load(#[trigger] res[i], loads[order[i]]);
    let keys = Seq::new(res.len(), |i: int| res[i].worker@);
    crate::rank::theorem_ranking_is_a_permutation::<Down>(order, places(busy_times(loads)));
    assert forall|i: int, j: int| 0 <= i < res.len() && 0 <= j < res.len() && i != j implies keys[i]
        != keys[j] by {
        let a = order[i];
        let b = order[j];
        assert(same_load(res[i], loads[a]) && same_load(res[j], loads[b]));
        assert(a != b);
        if a < b {
            assert(text_lt(loads[a].worker@, loads[b].worker@));
        } else {
            assert(text_lt(loads[b].worker@, loads[a].worker@));
        }
    }
    assert forall|i: int| 0 <= i < res.len() implies (#[trigger] res[i]).worker@ == keys[i]
        && res[i].tests == values_of(names, values, keys[i]).len() by {
        assert(same_load(res[i], loads[order[i]]));
        assert(0 <= order[i] < loads.len());
    }
    assert forall|i: int| 0 <= i < names.len() implies keys.contains(#[trigger] names[i]) by {
        assert(worker_listed(loads, names[i]));
        let x = choose|x: int| 0 <= x < loads.len() && (#[trigger] loads[x]).worker@ == names[i];
        assert(order.contains(x));
        let k = choose|k: int| 0 <= k < order.len() && order[k] == x;
        assert(same_load(res[k], loads[x]));
        assert(keys[k] == names[i]);
    }
    lemma_load_count(res, keys, names, values);
    lemma_total(keys, names, values);
    assert forall|i: int, j: int| 0 <= i < j < res.len() implies (#[trigger] res[i]).worker@ != (
    #[trigger] res[j]).worker@ by {
        assert(keys[i] != keys[j]);
    }
}

/// How long workers were busy.
pub open spec fn busy_times(loads: Seq<WorkerLoad>) -> Seq<Double> {
    Seq::new(loads.len(), |i: int| loads[i].busy_seconds)
}

/// Whether two entries are of the same worker.
pub open spec fn same_load(a: WorkerLoad, b: WorkerLoad) -> bool {
    a.worker@ == b.worker@ && a.busy_seconds == b.busy_seconds && a.tests == b.tests
}

/// Whether `res` lists the workers, the busiest first.
pub open spec fn busiest(res: Seq<WorkerLoad>, loads: Seq<WorkerLoad>) -> bool {
    exists|order: Seq<int>| #[trigger]
        ranked::<Down>(order, places(busy_times(loads))) && res.len() == order.len() && forall|i: int|
            0 <= i < res.len() ==> same_load(#[trigger] res[i], loads[order[i]])
}

/// Orders workers, the busiest first.
pub fn busiest_first(loads: &[WorkerLoad]) -> (res: Vec<WorkerLoad>)
    ensures
        busiest(res@, loads@),
{
    let mut keys: Vec<Double> = Vec::new();
    let mut i: usize = 0;
    while i < loads.len()
        invariant
            i <= loads.len(),
            keys.len() == i,
            forall|j: int| 0 <= j < i ==> #[trigger] keys@[j] == loads@[j].busy_seconds,
        decreases loads.len() - i,
    {
        keys.push(loads[i].busy_seconds);
        i += 1;
    }
    let order = largest_first(keys.as_slice());
    let ghost p = positions(order@);
    assert(places(keys@) =~= places(busy_times(loads@)));
    let mut out: Vec<WorkerLoad> = Vec::new();
    let mut k: usize = 0;
    while k < order.len()
        invariant
            k <= order.len(),
            p == positions(order@),
            ranked::<Down>(p, places(busy_times(loads@))),
            out.len() == k,
            forall|j: int| 0 <= j < k ==> same_load(#[trigger] out@[j], loads@[p[j]]),
        decreases order.len() - k,
    {
        assert(0 <= p[k as int] < places(busy_times(loads@)).len());
        let l = &loads[order[k]];
        out.push(
            WorkerLoad {
                worker: l.worker.clone(),
                busy_seconds: l.busy_seconds,
                tests: l.tests,
            },
        );
        k += 1;
    }
    assert(busiest(out@, loads@));
    out
}

/// The loads between which the imbalance is told: that of the busiest worker, and
/// that of the idlest, which is nothing where some worker had no test.
pub fn load_extremes(sorted: &[WorkerLoad], workers: usize) -> (res: (Double, Double))
    ensures
        res.0 == most_busy(sorted@),
        res.1 == least_busy(sorted@, workers as nat),
{
    let zero = Double { bits: ZERO };
    if sorted.len() == 0 {
        return (zero, zero);
    }
    let low = if sorted.len() < workers { zero } else { sorted[sorted.len() - 1].busy_seconds };
    (sorted[0].busy_seconds, low)
}

/// Whether running in parallel can be judged.
pub open spec fn efficiency_applies(workers: usize, test_time: Double) -> bool {
    workers > 1 && (Double { bits: ZERO }).less(test_time)
}

/// How long fixtures took.
pub open spec fn fixture_times(fx: Seq<FixtureEntry>) -> Seq<Double> {
    Seq::new(fx.len(), |i: int| fx[i].total_seconds)
}

/// Whether two entries are of the same fixture.
pub open spec fn same_fixture(a: FixtureEntry, b: FixtureEntry) -> bool {
    &&& a.name@ == b.name@
    &&& a.scope@ == b.scope@
    &&& a.count == b.count
    &&& a.total_seconds == b.total_seconds
}

/// Whether `res` lists the fixtures that took longest: fifty at most, the longest
/// first.
pub open spec fn hottest(res: Seq<FixtureEntry>, fx: Seq<FixtureEntry>) -> bool {
    exists|order: Seq<int>| #[trigger]
        ranked::<Down>(order, places(fixture_times(fx))) && res.len() == at_most(order.len(), 50)
            && forall|i: int|
            0 <= i < res.len() ==> same_fixture(#[trigger] res[i], fx[order[i]])
}

fn hottest_fixtures(fx: &[FixtureEntry]) -> (res: Vec<FixtureEntry>)
    ensures
        hottest(res@, fx@),
{
    let mut keys: Vec<Double> = Vec::new();
    let mut i: usize = 0;
    while i < fx.len()
        invariant
            i <= fx.len(),
            keys.len() == i,
            forall|j: int| 0 <= j < i ==> #[trigger] keys@[j] == fx@[j].total_seconds,
        decreases fx.len() - i,
    {
        keys.push(fx[i].total_seconds);
        i += 1;
    }
    let order = largest_first(keys.as_slice());
    let ghost p = positions(order@);
    assert(places(keys@) =~= places(fixture_times(fx@)));
    let n: usize = if order.len() < 50 { order.len() } else { 50 };
    let mut out: Vec<FixtureEntry> = Vec::new();
    let mut k: usize = 0;
    while k < n
        invariant
            k <= n <= order.len(),
            p == positions(order@),
            ranked::<Down>(p, places(fixture_times(fx@))),
            out.len() == k,
            forall|j: int| 0 <= j < k ==> same_fixture(#[trigger] out@[j], fx@[p[j]]),
        decreases n - k,
    {
        assert(0 <= p[k as int] < places(fixture_times(fx@)).len());
        let f = &fx[order[k]];
        out.push(
            FixtureEntry {
                name: f.name.clone(),
                scope: f.scope.clone(),
                count: f.count,
                total_seconds: f.total_seconds,
            },
        );
        k += 1;
    }
    assert(hottest(out@, fx@));
    out
}

/// How long the tests of files took.
pub open spec fn file_times(files: Seq<FileEntry>) -> Seq<Double> {
    Seq::new(files.len(), |i: int| files[i].total_seconds)
}

/// Whether two entries are of the same file.
pub open spec fn same_file(a: FileEntry, b: FileEntry) -> bool {
    a.file@ == b.file@ && a.total_seconds == b.total_seconds && a.pct == b.pct
}

/// Whether `res` lists the slowest files: twenty at most, the slowest first.
pub open spec fn slowest(res: Seq<FileEntry>, files: Seq<FileEntry>) -> bool {
    exists|order: Seq<int>| #[trigger]
        ranked::<Down>(order, places(file_times(files))) && res.len() == at_most(order.len(), 20)
            && forall|i: int| 0 <= i < res.len() ==> same_file(#[trigger] res[i], files[order[i]])
}

fn slowest_files(files: &[FileEntry]) -> (res: Vec<FileEntry>)
    ensures
        slowest(res@, files@),
{
    let mut keys: Vec<Double> = Vec::new();
    let mut i: usize = 0;
    while i < files.len()
        invariant
            i <= files.len(),
            keys.len() == i,
            forall|j: int| 0 <= j < i ==> #[trigger] keys@[j] == files@[j].total_seconds,
        decreases files.len() - i,
    {
        keys.push(files[i].total_seconds);
        i += 1;
    }
    let order = largest_first(keys.as_slice());
    let ghost p = positions(order@);
    assert(places(keys@) =~= places(file_times(files@)));
    let n: usize = if order.len() < 20 { order.len() } else { 20 };
    let mut out: Vec<FileEntry> = Vec::new();
    let mut k: usize = 0;
    while k < n
        invariant
            k <= n <= order.len(),
            p == positions(order@),
            ranked::<Down>(p, places(file_times(files@))),
            out.len() == k,
            forall|j: int| 0 <= j < k ==> same_file(#[trigger] out@[j], files@[p[j]]),
        decreases n - k,
    {
        assert(0 <= p[k as int] < places(file_times(files@)).len());
        let f = &files[order[k]];
        out.push(FileEntry { file: f.file.clone(), total_seconds: f.total_seconds, pct: f.pct });
        k += 1;
    }
    assert(slowest(out@, files@));
    out
}

/// How many threads and files a test left open, less those it found.
pub struct TestDeltas {
    pub nodeid: String,
    pub threads: Option<i64>,
    pub fds: Option<i64>,
}

/// What was left open; nothing where it is not known or fewer are open.
pub open spec fn leaked(delta: Option<i64>) -> int {
    match delta {
        Some(n) => if n > 0 {
            n as int
        } else {
            0
        },
        None => 0,
    }
}

/// Whether a test left anything open.
pub open spec fn leaks(t: TestDeltas) -> bool {
    leaked(t.threads) > 0 || leaked(t.fds) > 0
}

/// The tests that left anything open.
pub open spec fn leaking(tests: Seq<TestDeltas>) -> Seq<TestDeltas> {
    tests.filter(|t: TestDeltas| leaks(t))
}

/// By what leaks are ordered: how much was left open, then how many threads, then
/// the id.
pub open spec fn leak_keys(tests: Seq<TestDeltas>) -> Seq<((int, int), Seq<char>)> {
    Seq::new(
        tests.len(),
        |i: int|
            (
                (leaked(tests[i].threads) + leaked(tests[i].fds), leaked(tests[i].threads)),
                tests[i].nodeid@,
            ),
    )
}

/// Whether an entry tells what a test left open.
pub open spec fn is_leak(l: Leak, t: TestDeltas) -> bool {
    l.nodeid@ == t.nodeid@ && l.threads == leaked(t.threads) && l.fds == leaked(t.fds)
}

/// Whether `res` tells of the tests that left anything open, the worst first.
pub open spec fn are_leaks(res: Seq<Leak>, tests: Seq<TestDeltas>) -> bool {
    exists|order: Seq<int>| #[trigger]
        ranked::<((Down, Down), String)>(order, leak_keys(leaking(tests))) && res.len()
            == order.len() && forall|i: int|
            0 <= i < res.len() ==> is_leak(#[trigger] res[i], leaking(tests)[order[i]])
}

/// Whether the number of what a test left open can be written down.
pub open spec fn countable(t: TestDeltas) -> bool {
    leaked(t.threads) + leaked(t.fds) <= i64::MAX
}

fn positive(delta: Option<i64>) -> (res: i64)
    ensures
        res == leaked(delta),
{
    match delta {
        Some(n) => if n > 0 {
            n
        } else {
            0
        },
        None => 0,
    }
}

/// Finds the tests that left threads or files open, the worst first.
pub fn detect_leaks(tests: &[TestDeltas]) -> (res: Vec<Leak>)
    requires
        forall|i: int| 0 <= i < tests@.len() ==> countable(#[trigger] tests@[i]),
    ensures
        are_leaks(res@, tests@),
{
    let mut kept: Vec<usize> = Vec::new();
    let mut keys: Vec<((Down, Down), String)> = Vec::new();
    let mut i: usize = 0;
    assert(leaking(tests@.take(0)) =~= Seq::empty()) by {
        reveal(Seq::filter);
    }
    while i < tests.len()
        invariant
            i <= tests.len(),
            forall|i: int| 0 <= i < tests@.len() ==> countable(#[trigger] tests@[i]),
            kept@.len() == leaking(tests@.take(i as int)).len(),
            keys@.len() == kept@.len(),
            forall|j: int|
                0 <= j < kept@.len() ==> #[trigger] kept@[j] < tests.len() && tests@[kept@[j] as int]
                    == leaking(tests@.take(i as int))[j],
            forall|j: int|
                0 <= j < keys@.len() ==> {
                    let t = tests@[kept@[j] as int];
                    let k = #[trigger] keys@[j];
                    k.0.0.key == leaked(t.threads) + leaked(t.fds) && k.0.1.key == leaked(t.threads)
                        && k.1@ == t.nodeid@
                },
        decreases tests.len() - i,
    {
        proof {
            assert(tests@.take(i + 1).drop_last() =~= tests@.take(i as int));
            reveal(Seq::filter);
            assert(countable(tests@[i as int]));
        }
        let t = &tests[i];
        let threads = positive(t.threads);
        let fds = positive(t.fds);
        if threads > 0 || fds > 0 {
            keys.push(((Down { key: threads + fds }, Down { key: threads }), t.nodeid.clone()));
            kept.push(i);
        }
        i += 1;
    }
    assert(tests@.take(tests.len() as int) =~= tests@);
    let ghost all = leaking(tests@);
    let order = rank(keys.as_slice());
    let ghost p = positions(order@);
    assert(crate::rank::models(keys@) =~= leak_keys(all));
    let mut out: Vec<Leak> = Vec::new();
    let mut k: usize = 0;
    while k < order.len()
        invariant
            k <= order.len(),
            p == positions(order@),
            ranked::<((Down, Down), String)>(p, leak_keys(all)),
            kept@.len() == all.len(),
            forall|j: int|
                0 <= j < kept@.len() ==> #[trigger] kept@[j] < tests.len() && tests@[kept@[j] as int]
                    == all[j],
            out.len() == k,
            forall|j: int| 0 <= j < k ==> is_leak(#[trigger] out@[j], all[p[j]]),
        decreases order.len() - k,
    {
        assert(0 <= p[k as int] < leak_keys(all).len());
        let t = &tests[kept[order[k]]];
        out.push(Leak { nodeid: t.nodeid.clone(), threads: positive(t.threads), fds: positive(t.fds) });
        k += 1;
    }
    out
}

/// From how long a duration on a redundant test counts as waste: half a second.
pub open spec fn waste_min() -> Double {
    Double { bits: HALF }
}

/// How long each test took, by its id.
pub open spec fn time_by_test(tests: Seq<Timed>) -> Map<Seq<char>, Double>
    decreases tests.len(),
{
    if tests.len() == 0 {
        Map::empty()
    } else {
        time_by_test(tests.drop_last()).insert(tests.last().nodeid@, tests.last().duration)
    }
}

fn durations_by_test(tests: &[Timed]) -> (res: OrderedMap<String, Double>)
    ensures
        res@ == time_by_test(tests@),
{
    let mut out: OrderedMap<String, Double> = OrderedMap::new();
    let mut i: usize = 0;
    assert(tests@.take(0) =~= Seq::empty());
    while i < tests.len()
        invariant
            i <= tests.len(),
            out@ == time_by_test(tests@.take(i as int)),
        decreases tests.len() - i,
    {
        assert(tests@.take(i + 1).drop_last() =~= tests@.take(i as int));
        out.insert(tests[i].nodeid.clone(), tests[i].duration);
        i += 1;
    }
    assert(tests@.take(i as int) =~= tests@);
    out
}

/// Whether `total` may give a number for the sum of some times.
pub open spec fn added<F: Fn(&[Double]) -> Double>(total: F, times: Seq<Double>, sum: Double) -> bool {
    exists|t: &[Double]| t@ == times && #[trigger] call_ensures(total, (t,), sum)
}

/// How long some tests took, one after the other.
pub open spec fn times_of(ids: Seq<Seq<char>>, durations: Map<Seq<char>, Double>) -> Seq<Double> {
    Seq::new(ids.len(), |i: int| durations[ids[i]])
}

/// Whether some times are those of the tests that can be deleted together.
pub open spec fn are_wasted(
    index: CoverageIndex,
    durations: Map<Seq<char>, Double>,
    times: Seq<Double>,
) -> bool {
    exists|c: Seq<Seq<char>>| #[trigger]
        candidates_listed(c, product_rows(index), durations, waste_min()) && times == times_of(
            removed_of(product_rows(index), c),
            durations,
        )
}

/// Whether a section on waste tells of the tests that can be deleted together: how many
/// they are, what their times add up to, and details of the first of them. There is none
/// where there are no such tests.
pub open spec fn is_coverage_waste<F: Fn(&[Double]) -> Double>(
    res: Option<CoverageWaste>,
    index: CoverageIndex,
    durations: Map<Seq<char>, Double>,
    total: F,
) -> bool {
    let rows = product_rows(index);
    exists|c: Seq<Seq<char>>| #[trigger]
        candidates_listed(c, rows, durations, waste_min()) && (match res {
            Some(cw) => {
                &&& removed_of(rows, c).len() > 0
                &&& cw.redundant_tests == removed_of(rows, c).len()
                &&& added(total, times_of(removed_of(rows, c), durations), cw.wasted_seconds)
                &&& details_of(cw.tests@, rows, removed_of(rows, c), durations)
            },
            None => removed_of(rows, c).len() == 0,
        })
}

/// Tells of the waste among tests. `total` adds up their times.
pub fn tell_waste<F: Fn(&[Double]) -> Double>(
    durations: &OrderedMap<String, Double>,
    index: &CoverageIndex,
    total: &F,
) -> (res: Option<CoverageWaste>)
    requires
        forall|t: &[Double]|
            are_wasted(*index, durations@, t@) ==> #[trigger] call_requires(*total, (t,)),
    ensures
        is_coverage_waste(res, *index, durations@, *total),
{
    let min = Double { bits: HALF };
    let waste = coverage_waste(durations, index, &min);
    let ghost rows = product_rows(*index);
    let ghost c = choose|c: Seq<Seq<char>>| #[trigger]
        candidates_listed(c, rows, durations@, min) && (match waste {
            Some(w) => removed_of(rows, c).len() > 0 && is_waste(w, rows, durations@, c),
            None => removed_of(rows, c).len() == 0,
        });
    assert(candidates_listed(c, rows, durations@, waste_min()));
    match waste {
        Some(w) => {
            let mut times: Vec<Double> = Vec::new();
            let mut i: usize = 0;
            while i < w.removed.len()
                invariant
                    i <= w.removed.len(),
                    times.len() == i,
                    forall|j: int| 0 <= j < i ==> #[trigger] times@[j] == w.removed@[j].1,
                decreases w.removed.len() - i,
            {
                times.push(w.removed[i].1);
                i += 1;
            }
            let ghost gone = removed_of(rows, c);
            assert(times@ =~= times_of(gone, durations@)) by {
                assert forall|j: int| 0 <= j < gone.len() implies times@[j] == durations@[gone[j]] by {
                    assert(w.removed@[j].1 == durations@[gone[j]]);
                }
            }
            let seconds = total(times.as_slice());
            assert(added(*total, times_of(gone, durations@), seconds));
            Some(
                CoverageWaste {
                    wasted_seconds: seconds,
                    redundant_tests: w.removed.len(),
                    tests: w.tests,
                },
            )
        },
        None => None,
    }
}

/// What was measured of a run, and what was computed from it.
pub struct Measured {
    pub version: String,
    pub workers: usize,
    pub wall: Double,
    /// The sum of all durations.
    pub test_time: Double,
    /// The sum of all computing times.
    pub cpu_time: Double,
    /// The time that tests were waiting, and which part of the whole it is.
    pub wait: Double,
    pub wait_pct: Double,
    pub tests: Vec<Timed>,
    /// A worker's share of the time.
    pub ideal: Double,
    /// What the durations of each worker's tests add up to.
    pub busy: OrderedMap<String, Double>,
    pub realized_speedup: Double,
    pub efficiency_pct: Double,
    pub imbalance_pct: Double,
    pub fixtures: Vec<FixtureEntry>,
    /// What the durations of each file's tests add up to.
    pub spent: OrderedMap<String, FileTime>,
    /// How many threads and files each test left open.
    pub deltas: Vec<TestDeltas>,
}

/// Whether `res` lists the workers that tests ran on, the busiest first.
pub open spec fn balanced(res: Seq<WorkerLoad>, m: Measured) -> bool {
    exists|loads: Seq<WorkerLoad>| #[trigger]
        loads_of(loads, runners(m.tests@), durations_in(gates(m.tests@)), m.busy@) && busiest(
            res,
            loads,
        )
}

/// Whether `res` lists the files of tests, the slowest first and twenty at most.
pub open spec fn slow_files(res: Seq<FileEntry>, m: Measured) -> bool {
    exists|files: Seq<FileEntry>| #[trigger]
        entries_of(files, files_of(m.tests@), m.spent@) && slowest(res, files)
}

/// Whether a section on running in parallel is as it should be.
pub open spec fn is_efficiency(
    res: Option<ParallelEfficiency>,
    m: Measured,
    order: Seq<int>,
) -> bool {
    match res {
        Some(e) => {
            &&& efficiency_applies(m.workers, m.test_time)
            &&& e.realized_speedup == m.realized_speedup
            &&& e.ideal_speedup == m.workers
            &&& e.efficiency_pct == m.efficiency_pct
            &&& balanced(e.workers_busy@, m)
            &&& distinct_workers(e.workers_busy@)
            &&& load_count(e.workers_busy@) == m.tests@.len()
            &&& e.imbalance_pct == m.imbalance_pct
            &&& e.long_pole_seconds == (match longest(gates(m.tests@), order) {
                Some(d) => d,
                None => Double { bits: ZERO },
            })
        },
        None => !efficiency_applies(m.workers, m.test_time),
    }
}

/// Makes the report of what was measured. Waste is told of where it is known which test
/// executed which line; `total` adds up times.
pub fn analyze<F: Fn(&[Double]) -> Double>(
    m: Measured,
    coverage: Option<&CoverageIndex>,
    total: &F,
) -> (res: DoctorReport)
    requires
        forall|i: int| 0 <= i < m.deltas@.len() ==> countable(#[trigger] m.deltas@[i]),
        coverage matches Some(index) ==> forall|t: &[Double]|
            are_wasted(*index, time_by_test(m.tests@), t@) ==> #[trigger] call_requires(*total, (t,)),
    ensures
        is_analysis(res, m),
        match coverage {
            Some(index) => is_coverage_waste(
                res.coverage_waste,
                *index,
                time_by_test(m.tests@),
                *total,
            ),
            None => res.coverage_waste is None,
        },
{
    let rows = wait_rows(m.tests.as_slice());
    let wait = wait_bound(rows.len() > 0, &m.wait, &m.wait_pct, rows.as_slice());
    let tests = gate_tests(m.tests.as_slice());
    let keys = times(m.tests.as_slice());
    let order = largest_first(keys.as_slice());
    let ghost p = positions(order@);
    let floor = parallel_floor(tests.as_slice(), &order, &m.ideal);
    let zero = Double { bits: ZERO };
    assert(p.len() > 0 ==> 0 <= p[0] < places(durations_in(tests@)).len());
    let long_pole = if order.len() > 0 { tests[order[0]].duration } else { zero };
    let names = worker_names(m.tests.as_slice());
    assert(texts(names@).len() == names@.len());
    let efficiency = if m.workers > 1 && zero.lt(&m.test_time) {
        let loads = loads_by_name(names.as_slice(), keys.as_slice(), &m.busy);
        let sorted = busiest_first(loads.as_slice());
        proof {
            theorem_loads_count_every_test(
                sorted@,
                loads@,
                runners(m.tests@),
                durations_in(tests@),
                m.busy@,
            );
            assert(balanced(sorted@, m));
        }
        Some(
            ParallelEfficiency {
                realized_speedup: m.realized_speedup,
                ideal_speedup: m.workers,
                efficiency_pct: m.efficiency_pct,
                workers_busy: sorted,
                imbalance_pct: m.imbalance_pct,
                long_pole_seconds: long_pole,
            },
        )
    } else {
        None
    };
    assert(is_floor(floor, tests@, p, m.ideal));
    assert(is_efficiency(efficiency, m, p));
    let at = file_names(m.tests.as_slice());
    assert(texts(at@).len() == at@.len());
    let files = files_by_name(at.as_slice(), keys.as_slice(), &m.spent);
    let slow = slowest_files(files.as_slice());
    assert(slow_files(slow@, m));
    let waste = match coverage {
        Some(index) => {
            let durations = durations_by_test(m.tests.as_slice());
            tell_waste(&durations, index, total)
        },
        None => None,
    };
    let leaks = detect_leaks(m.deltas.as_slice());
    DoctorReport {
        schema: SCHEMA_VERSION,
        rstest_version: m.version,
        workers: m.workers,
        wall_seconds: m.wall,
        tests: m.tests.len(),
        test_time_seconds: m.test_time,
        cpu_time_seconds: m.cpu_time,
        wait_bound: wait,
        parallel_floor: floor,
        parallel_efficiency: efficiency,
        fixtures: hottest_fixtures(m.fixtures.as_slice()),
        slowest_files: slow,
        coverage_waste: waste,
        leaks,
    }
}

/// The time of the worker that was busy longest.
pub open spec fn most_busy(sorted: Seq<WorkerLoad>) -> Double {
    if sorted.len() > 0 {
        sorted[0].busy_seconds
    } else {
        Double { bits: ZERO }
    }
}

/// The time of the worker that was busy least; none at all where one ran nothing.
pub open spec fn least_busy(sorted: Seq<WorkerLoad>, workers: nat) -> Double {
    if sorted.len() < workers || sorted.len() == 0 {
        Double { bits: ZERO }
    } else {
        sorted[sorted.len() - 1].busy_seconds
    }
}

/// The order of numbers goes down: none comes before a greater one.
proof fn lemma_goes_down(order: Seq<int>, keys: Seq<int>, i: int, j: int)
    requires
        ranked::<Down>(order, keys),
        0 <= i <= j < order.len(),
    ensures
        0 <= order[i] < keys.len() && 0 <= order[j] < keys.len(),
        keys[order[i]] >= keys[order[j]],
{
    if i < j {
        assert(crate::rank::ahead::<Down>(keys, order[i], order[j]));
    }
}

/// A test waits where it took a fifth of a second or more and waited three fifths of that or
/// more, both by their bits.
pub proof fn theorem_tests_that_wait(r: WaitRow)
    requires
        r.duration.bits <= 0x7FF0000000000000,
        r.ratio.bits <= 0x7FF0000000000000,
    ensures
        waits(r) <==> r.duration.bits >= 0x3FC999999999999A && r.ratio.bits >= 0x3FE3333333333333,
{
    crate::double::theorem_numbers_compare_by_their_bits(
        r.duration,
        Double { bits: 0x3FC999999999999A },
    );
    crate::double::theorem_numbers_compare_by_their_bits(
        r.ratio,
        Double { bits: 0x3FE3333333333333 },
    );
}

/// A run is told to wait where its tests were measured, waited a fifth of their time or more
/// and a second or more.
pub proof fn theorem_runs_that_wait(measured: bool, wait: Double, pct: Double)
    requires
        wait.bits <= 0x7FF0000000000000,
        pct.bits <= 0x7FF0000000000000,
    ensures
        wait_bound_applies(measured, wait, pct) <==> measured && pct.bits >= 0x4034000000000000
            && wait.bits >= 0x3FF0000000000000,
{
    crate::double::theorem_numbers_compare_by_their_bits(pct, Double { bits: 0x4034000000000000 });
    crate::double::theorem_numbers_compare_by_their_bits(wait, Double { bits: 0x3FF0000000000000 });
}

/// The tests that wait are listed by how long they waited, the longest first, and fifty at
/// most; with fewer than fifty, all of them.
pub proof fn theorem_longest_waits_come_first(
    res: Seq<WaitTest>,
    rows: Seq<WaitRow>,
    i: int,
    j: int,
    k: int,
)
    requires
        longest_waits(res, rows),
    ensures
        res.len() <= 50,
        0 <= i <= j < res.len() ==> res[i].wait.place() >= res[j].wait.place(),
        0 <= i < res.len() ==> exists|r: WaitRow| #[trigger]
            rows.contains(r) && waits(r) && same_wait(res[i], r),
        res.len() < 50 && 0 <= k < rows.len() && waits(rows[k]) ==> exists|q: int|
            0 <= q < res.len() && same_wait(#[trigger] res[q], rows[k]),
{
    let f = |r: WaitRow| waits(r);
    let w = waiting(rows);
    let keys = places(wait_times(w));
    let order = choose|order: Seq<int>| #[trigger]
        ranked::<Down>(order, keys) && res.len() == at_most(order.len(), 50) && forall|i: int|
            0 <= i < res.len() ==> same_wait(#[trigger] res[i], w[order[i]]);
    if 0 <= i <= j < res.len() {
        lemma_goes_down(order, keys, i, j);
        assert(same_wait(res[i], w[order[i]]) && same_wait(res[j], w[order[j]]));
    }
    if 0 <= i < res.len() {
        assert(0 <= order[i] < keys.len());
        rows.lemma_filter_pred(f, order[i]);
        assert(f(w[order[i]]));
        rows.lemma_filter_contains_rev(f, w[order[i]]);
        assert(rows.contains(w[order[i]]));
        assert(same_wait(res[i], w[order[i]]));
    }
    if res.len() < 50 && 0 <= k < rows.len() && waits(rows[k]) {
        rows.lemma_filter_contains(f, k);
        let p = choose|p: int| 0 <= p < w.len() && w[p] == rows[k];
        crate::rank::theorem_ranking_is_a_permutation::<Down>(order, keys);
        assert(order.contains(p));
        let q = choose|q: int| 0 <= q < order.len() && order[q] == p;
        assert(same_wait(res[q], w[order[q]]));
    }
}

/// A test is held against a worker's share of the time, and against one second at least.
pub proof fn theorem_what_tests_are_held_against(ideal: Double)
    requires
        ideal.bits <= 0x7FF0000000000000,
    ensures
        ideal.bits >= 0x3FF0000000000000 ==> floor_bar(ideal) == ideal,
        ideal.bits < 0x3FF0000000000000 ==> floor_bar(ideal).bits == 0x3FF0000000000000,
{
    crate::double::theorem_numbers_compare_by_their_bits(
        ideal,
        Double { bits: 0x3FF0000000000000 },
    );
}

proof fn lemma_above(tests: Seq<GateTest>, order: Seq<int>, bar: Double)
    ensures
        above(tests, order, bar).len() <= order.len(),
        forall|k: int|
            0 <= k < above(tests, order, bar).len() ==> order.contains(
                #[trigger] above(tests, order, bar)[k],
            ) && bar.less(tests[above(tests, order, bar)[k]].duration),
        forall|i: int|
            0 <= i < order.len() && bar.less(tests[#[trigger] order[i]].duration) ==> above(
                tests,
                order,
                bar,
            ).contains(order[i]),
    decreases order.len(),
{
    if order.len() > 0 {
        let init = order.drop_last();
        let before = above(tests, init, bar);
        let all = above(tests, order, bar);
        lemma_above(tests, init, bar);
        assert forall|k: int| 0 <= k < all.len() implies order.contains(#[trigger] all[k])
            && bar.less(tests[all[k]].duration) by {
            if k < before.len() {
                assert(all[k] == before[k]);
                assert(init.contains(before[k]));
                let q = choose|q: int| 0 <= q < init.len() && init[q] == before[k];
                assert(order[q] == all[k]);
            } else {
                assert(order[order.len() - 1] == all[k]);
            }
        }
        assert forall|i: int|
            0 <= i < order.len() && bar.less(tests[#[trigger] order[i]].duration) implies all.contains(
            order[i],
        ) by {
            if i < init.len() {
                assert(init[i] == order[i]);
                assert(before.contains(order[i]));
                let q = choose|q: int| 0 <= q < before.len() && before[q] == order[i];
                assert(all[q] == order[i]);
            } else {
                assert(all[all.len() - 1] == order[i]);
            }
        }
    }
}

/// A run cannot go below its longest test, where that takes more than it is held against; the
/// tests that are told of, ten at most, all do.
pub proof fn theorem_tests_that_hold_a_run_up(
    res: Option<ParallelFloor>,
    tests: Seq<GateTest>,
    order: Seq<int>,
    ideal: Double,
    k: int,
)
    requires
        is_floor(res, tests, order, ideal),
        ranked::<Down>(order, places(durations_in(tests))),
    ensures
        res matches Some(f) ==> f.gate_tests@.len() <= 10 && floor_bar(ideal).less(
            f.longest_seconds,
        ) && f.ideal_share_seconds == ideal,
        res matches Some(f) ==> (0 <= k < tests.len() ==> f.longest_seconds.place()
            >= tests[k].duration.place()),
        res matches Some(f) ==> (0 <= k < f.gate_tests@.len() ==> floor_bar(ideal).less(
            f.gate_tests@[k].duration,
        )),
        res is None ==> tests.len() == 0 || !floor_bar(ideal).less(tests[order[0]].duration),
{
    let keys = places(durations_in(tests));
    if let Some(f) = res {
        let few = order.take(at_most(order.len(), 10) as int);
        lemma_above(tests, few, floor_bar(ideal));
        if 0 <= k < tests.len() {
            crate::rank::theorem_ranking_is_a_permutation::<Down>(order, keys);
            assert(order.contains(k));
            let q = choose|q: int| 0 <= q < order.len() && order[q] == k;
            lemma_goes_down(order, keys, 0, q);
        }
        let listed = above(tests, few, floor_bar(ideal));
        if 0 <= k < f.gate_tests@.len() {
            assert(same_gate(f.gate_tests@[k], tests[listed[k]]));
        }
    }
}

/// A test that no worker is known of ran in series.
pub proof fn theorem_tests_without_a_worker(t: Timed)
    ensures
        t.worker is None ==> runner(t) == "serial"@,
        t.worker matches Some(w) ==> runner(t) == w@,
{
}

/// The values of a name are those given with it, each once and in their order.
pub proof fn theorem_values_go_with_their_name(
    names: Seq<Seq<char>>,
    values: Seq<Double>,
    name: Seq<char>,
    value: Double,
    asked: Seq<char>,
)
    requires
        names.len() == values.len(),
    ensures
        values_of(names.push(name), values.push(value), asked) == (if asked == name {
            values_of(names, values, asked).push(value)
        } else {
            values_of(names, values, asked)
        }),
        values_of(Seq::empty(), Seq::empty(), asked).len() == 0,
{
    assert(names.push(name).drop_last() =~= names);
    assert(values.push(value).drop_last() =~= values);
}

/// Workers are listed by how long they were busy, the busiest first, and all of them.
pub proof fn theorem_busiest_workers_come_first(
    res: Seq<WorkerLoad>,
    loads: Seq<WorkerLoad>,
    i: int,
    j: int,
    k: int,
)
    requires
        busiest(res, loads),
    ensures
        res.len() == loads.len(),
        0 <= i <= j < res.len() ==> res[i].busy_seconds.place() >= res[j].busy_seconds.place(),
        0 <= k < loads.len() ==> exists|q: int|
            0 <= q < res.len() && same_load(#[trigger] res[q], loads[k]),
{
    let keys = places(busy_times(loads));
    let order = choose|order: Seq<int>| #[trigger]
        ranked::<Down>(order, keys) && res.len() == order.len() && forall|i: int|
            0 <= i < res.len() ==> same_load(#[trigger] res[i], loads[order[i]]);
    if 0 <= i <= j < res.len() {
        lemma_goes_down(order, keys, i, j);
        assert(same_load(res[i], loads[order[i]]) && same_load(res[j], loads[order[j]]));
    }
    if 0 <= k < loads.len() {
        crate::rank::theorem_ranking_is_a_permutation::<Down>(order, keys);
        assert(order.contains(k));
        let q = choose|q: int| 0 <= q < order.len() && order[q] == k;
        assert(same_load(res[q], loads[order[q]]));
    }
}

/// The busiest worker is the first of them, and the least busy one the last, unless some
/// worker ran nothing: that one was not busy at all.
pub proof fn theorem_most_and_least_busy(
    res: Seq<WorkerLoad>,
    loads: Seq<WorkerLoad>,
    workers: nat,
    k: int,
)
    requires
        busiest(res, loads),
        0 <= k < res.len(),
    ensures
        most_busy(res).place() >= res[k].busy_seconds.place(),
        res.len() >= workers ==> least_busy(res, workers).place() <= res[k].busy_seconds.place(),
        res.len() < workers ==> least_busy(res, workers).bits == 0,
{
    theorem_busiest_workers_come_first(res, loads, 0, k, 0);
    theorem_busiest_workers_come_first(res, loads, k, res.len() - 1, 0);
}

/// Fixtures are listed by how long they took, the longest first, and fifty at most; with
/// fewer than fifty, all of them.
pub proof fn theorem_longest_fixtures_come_first(
    res: Seq<FixtureEntry>,
    fx: Seq<FixtureEntry>,
    i: int,
    j: int,
    k: int,
)
    requires
        hottest(res, fx),
    ensures
        res.len() <= 50,
        res.len() < 50 ==> res.len() == fx.len(),
        0 <= i <= j < res.len() ==> res[i].total_seconds.place() >= res[j].total_seconds.place(),
        res.len() < 50 && 0 <= k < fx.len() ==> exists|q: int|
            0 <= q < res.len() && same_fixture(#[trigger] res[q], fx[k]),
{
    let keys = places(fixture_times(fx));
    let order = choose|order: Seq<int>| #[trigger]
        ranked::<Down>(order, keys) && res.len() == at_most(order.len(), 50) && forall|i: int|
            0 <= i < res.len() ==> same_fixture(#[trigger] res[i], fx[order[i]]);
    if 0 <= i <= j < res.len() {
        lemma_goes_down(order, keys, i, j);
        assert(same_fixture(res[i], fx[order[i]]) && same_fixture(res[j], fx[order[j]]));
    }
    if res.len() < 50 && 0 <= k < fx.len() {
        crate::rank::theorem_ranking_is_a_permutation::<Down>(order, keys);
        assert(order.contains(k));
        let q = choose|q: int| 0 <= q < order.len() && order[q] == k;
        assert(same_fixture(res[q], fx[order[q]]));
    }
}

/// Files are listed by how long their tests took, the longest first, and twenty at most; with
/// fewer than twenty, all of them.
pub proof fn theorem_slowest_files_come_first(
    res: Seq<FileEntry>,
    files: Seq<FileEntry>,
    i: int,
    j: int,
    k: int,
)
    requires
        slowest(res, files),
    ensures
        res.len() <= 20,
        res.len() < 20 ==> res.len() == files.len(),
        0 <= i <= j < res.len() ==> res[i].total_seconds.place() >= res[j].total_seconds.place(),
        res.len() < 20 && 0 <= k < files.len() ==> exists|q: int|
            0 <= q < res.len() && same_file(#[trigger] res[q], files[k]),
{
    let keys = places(file_times(files));
    let order = choose|order: Seq<int>| #[trigger]
        ranked::<Down>(order, keys) && res.len() == at_most(order.len(), 20) && forall|i: int|
            0 <= i < res.len() ==> same_file(#[trigger] res[i], files[order[i]]);
    if 0 <= i <= j < res.len() {
        lemma_goes_down(order, keys, i, j);
        assert(same_file(res[i], files[order[i]]) && same_file(res[j], files[order[j]]));
    }
    if res.len() < 20 && 0 <= k < files.len() {
        crate::rank::theorem_ranking_is_a_permutation::<Down>(order, keys);
        assert(order.contains(k));
        let q = choose|q: int| 0 <= q < order.len() && order[q] == k;
        assert(same_file(res[q], files[order[q]]));
    }
}

/// A test leaks what it left open and did not find open; what it closed is no leak.
pub proof fn theorem_what_a_test_leaks(t: TestDeltas, n: i64)
    ensures
        leaked(None) == 0,
        n > 0 ==> leaked(Some(n)) == n,
        n <= 0 ==> leaked(Some(n)) == 0,
        leaks(t) <==> (t.threads matches Some(x) && x >= 1) || (t.fds matches Some(y) && y >= 1),
{
}

/// Every leaking test is told of, the worst first; as bad ones by their threads.
pub proof fn theorem_worst_leaks_come_first(
    res: Seq<Leak>,
    tests: Seq<TestDeltas>,
    i: int,
    j: int,
    k: int,
)
    requires
        are_leaks(res, tests),
    ensures
        0 <= i < res.len() ==> res[i].threads > 0 || res[i].fds > 0,
        0 <= i <= j < res.len() ==> res[i].threads + res[i].fds >= res[j].threads + res[j].fds,
        0 <= i <= j < res.len() && res[i].threads + res[i].fds == res[j].threads + res[j].fds
            ==> res[i].threads >= res[j].threads,
        0 <= k < tests.len() && leaks(tests[k]) ==> exists|q: int|
            0 <= q < res.len() && is_leak(#[trigger] res[q], tests[k]),
{
    let f = |t: TestDeltas| leaks(t);
    let w = leaking(tests);
    let keys = leak_keys(w);
    let order = choose|order: Seq<int>| #[trigger]
        ranked::<((Down, Down), String)>(order, keys) && res.len() == order.len() && forall|i: int|
            0 <= i < res.len() ==> is_leak(#[trigger] res[i], w[order[i]]);
    if 0 <= i < res.len() {
        assert(0 <= order[i] < keys.len());
        tests.lemma_filter_pred(f, order[i]);
        assert(f(w[order[i]]));
        assert(is_leak(res[i], w[order[i]]));
    }
    if 0 <= i < j < res.len() {
        assert(0 <= order[j] < keys.len());
        assert(crate::rank::ahead::<((Down, Down), String)>(keys, order[i], order[j]));
        assert(is_leak(res[j], w[order[j]]));
    }
    if 0 <= k < tests.len() && leaks(tests[k]) {
        tests.lemma_filter_contains(f, k);
        let p = choose|p: int| 0 <= p < w.len() && w[p] == tests[k];
        crate::rank::theorem_ranking_is_a_permutation::<((Down, Down), String)>(order, keys);
        assert(order.contains(p));
        let q = choose|q: int| 0 <= q < order.len() && order[q] == p;
        assert(is_leak(res[q], w[order[q]]));
    }
}

/// How well workers were used is told where there are two or more and tests took any time.
pub proof fn theorem_runs_with_several_workers(workers: usize, test_time: Double)
    requires
        test_time.bits <= 0x7FF0000000000000,
    ensures
        efficiency_applies(workers, test_time) <==> workers >= 2 && test_time.bits > 0,
{
    crate::double::theorem_numbers_compare_by_their_bits(Double { bits: 0 }, test_time);
}

/// A test's time is the last that was measured of it.
pub proof fn theorem_last_time_counts(tests: Seq<Timed>, t: Timed, id: Seq<char>)
    ensures
        time_by_test(tests.push(t)).contains_key(t.nodeid@),
        time_by_test(tests.push(t))[t.nodeid@] == t.duration,
        id != t.nodeid@ ==> (time_by_test(tests.push(t)).contains_key(id) <==> time_by_test(
            tests,
        ).contains_key(id)) && (time_by_test(tests).contains_key(id) ==> time_by_test(
            tests.push(t),
        )[id] == time_by_test(tests)[id]),
        time_by_test(Seq::empty()).dom() =~= Set::<Seq<char>>::empty(),
{
    assert(tests.push(t).drop_last() =~= tests);
}

/// A test is worth telling of as waste from half a second on.
pub proof fn theorem_waste_from_half_a_second_on(d: Double)
    requires
        d.bits <= 0x7FF0000000000000,
    ensures
        d.at_least(waste_min()) <==> d.bits >= 0x3FE0000000000000,
{
    crate::double::theorem_numbers_compare_by_their_bits(d, Double { bits: 0x3FE0000000000000 });
}

/// Every test with a computing time is held against how long it waited, and no other.
pub proof fn theorem_measured_tests_have_a_row(tests: Seq<Timed>, t: Timed)
    ensures
        t.waited is None ==> wait_rows_of(tests.push(t)) == wait_rows_of(tests),
        t.waited matches Some(w) ==> wait_rows_of(tests.push(t)).len() == wait_rows_of(tests).len()
            + 1 && wait_rows_of(tests.push(t)).last().nodeid == t.nodeid && wait_rows_of(
            tests.push(t),
        ).last().duration == t.duration && wait_rows_of(tests.push(t)).last().wait == w.wait
            && wait_rows_of(tests.push(t)).last().ratio == w.ratio,
{
    assert(tests.push(t).drop_last() =~= tests);
}

/// How well workers were used is told with the longest test, which no test outlasts, and with
/// every worker that ran one.
pub proof fn theorem_the_longest_test_is_told(
    res: Option<ParallelEfficiency>,
    m: Measured,
    order: Seq<int>,
    k: int,
)
    requires
        is_efficiency(res, m, order),
        ranked::<Down>(order, places(durations_in(gates(m.tests@)))),
    ensures
        res is Some <==> efficiency_applies(m.workers, m.test_time),
        res matches Some(e) ==> e.ideal_speedup == m.workers,
        res matches Some(e) ==> (0 <= k < m.tests@.len() ==> e.long_pole_seconds.place()
            >= m.tests@[k].duration.place()),
        res matches Some(e) ==> (m.tests@.len() == 0 ==> e.long_pole_seconds.bits == 0),
        res matches Some(e) ==> load_count(e.workers_busy@) == m.tests@.len(),
{
    let keys = places(durations_in(gates(m.tests@)));
    if res is Some && 0 <= k < m.tests@.len() {
        crate::rank::theorem_ranking_is_a_permutation::<Down>(order, keys);
        assert(order.contains(k));
        let q = choose|q: int| 0 <= q < order.len() && order[q] == k;
        lemma_goes_down(order, keys, 0, q);
        assert(keys[k] == m.tests@[k].duration.place());
    }
}

/// Every worker that ran a test is listed once, with as many tests as it ran.
pub proof fn theorem_each_worker_is_listed(
    loads: Seq<WorkerLoad>,
    names: Seq<Seq<char>>,
    values: Seq<Double>,
    busy: Map<Seq<char>, Double>,
    i: int,
    j: int,
    k: int,
)
    requires
        loads_of(loads, names, values, busy),
    ensures
        0 <= i < names.len() ==> exists|q: int|
            0 <= q < loads.len() && (#[trigger] loads[q]).worker@ == names[i],
        0 <= k < loads.len() ==> names.contains(loads[k].worker@) && loads[k].tests == values_of(
            names,
            values,
            loads[k].worker@,
        ).len(),
        0 <= k < loads.len() && busy.contains_key(loads[k].worker@) ==> loads[k].busy_seconds
            == busy[loads[k].worker@],
        0 <= j < k < loads.len() ==> loads[j].worker@ != loads[k].worker@,
{
    if 0 <= i < names.len() {
        assert(worker_listed(loads, names[i]));
    }
    if 0 <= j < k < loads.len() {
        assert(text_lt(loads[j].worker@, loads[k].worker@));
    }
}

/// Every file with a test is listed once, with the time that its tests took.
pub proof fn theorem_each_file_is_listed(
    files: Seq<FileEntry>,
    names: Seq<Seq<char>>,
    spent: Map<Seq<char>, FileTime>,
    i: int,
    j: int,
    k: int,
)
    requires
        entries_of(files, names, spent),
    ensures
        0 <= i < names.len() ==> exists|q: int|
            0 <= q < files.len() && (#[trigger] files[q]).file@ == names[i],
        0 <= k < files.len() ==> names.contains(files[k].file@),
        0 <= k < files.len() && spent.contains_key(files[k].file@) ==> files[k].total_seconds
            == spent[files[k].file@].total && files[k].pct == spent[files[k].file@].pct,
        0 <= j < k < files.len() ==> files[j].file@ != files[k].file@,
{
    if 0 <= i < names.len() {
        assert(file_listed(files, names[i]));
    }
    if 0 <= j < k < files.len() {
        assert(text_lt(files[j].file@, files[k].file@));
    }
}

/// What is wasted is told where a test can go, with how many can; and nothing is told where
/// none can.
pub proof fn theorem_waste_is_told_where_tests_can_go<F: Fn(&[Double]) -> Double>(
    res: Option<CoverageWaste>,
    index: CoverageIndex,
    durations: Map<Seq<char>, Double>,
    total: F,
)
    requires
        is_coverage_waste(res, index, durations, total),
    ensures
        res matches Some(w) ==> w.redundant_tests > 0 && w.tests@.len() <= 20 && w.tests@.len()
            <= w.redundant_tests && (w.redundant_tests <= 20 ==> w.tests@.len()
            == w.redundant_tests),
{
    let rows = product_rows(index);
    if let Some(w) = res {
        let c = choose|c: Seq<Seq<char>>| #[trigger]
            candidates_listed(c, rows, durations, waste_min()) && removed_of(rows, c).len() > 0
                && w.redundant_tests == removed_of(rows, c).len() && added(
                total,
                times_of(removed_of(rows, c), durations),
                w.wasted_seconds,
            ) && details_of(w.tests@, rows, removed_of(rows, c), durations);
        super::waste::theorem_twenty_tests_are_told_of(
            w.tests@,
            rows,
            removed_of(rows, c),
            durations,
            0,
        );
    }
}

/// Whether `res` is the analysis of a run, but for what coverage tells.
pub open spec fn is_analysis(res: DoctorReport, m: Measured) -> bool {
    &&& res.schema == SCHEMA_VERSION
    &&& res.rstest_version@ == m.version@
    &&& res.workers == m.workers
    &&& res.wall_seconds == m.wall
    &&& res.tests == m.tests@.len()
    &&& res.test_time_seconds == m.test_time
    &&& res.cpu_time_seconds == m.cpu_time
    &&& is_wait_bound(
        res.wait_bound,
        wait_rows_of(m.tests@).len() > 0,
        m.wait,
        m.wait_pct,
        wait_rows_of(m.tests@),
    )
    &&& exists|order: Seq<int>| #[trigger]
        ranked::<Down>(order, places(durations_in(gates(m.tests@)))) && is_floor(
            res.parallel_floor,
            gates(m.tests@),
            order,
            m.ideal,
        ) && is_efficiency(res.parallel_efficiency, m, order)
    &&& hottest(res.fixtures@, m.fixtures@)
    &&& slow_files(res.slowest_files@, m)
    &&& are_leaks(res.leaks@, m.deltas@)
}

/// An analysis counts the tests and keeps the times that were measured; it tells of waiting
/// only where a computing time was measured, of how workers were used only where there are
/// two, and of every test that leaks.
pub proof fn theorem_what_an_analysis_tells(res: DoctorReport, m: Measured, i: int)
    requires
        is_analysis(res, m),
    ensures
        res.tests == m.tests@.len() && res.workers == m.workers,
        res.wall_seconds == m.wall && res.test_time_seconds == m.test_time && res.cpu_time_seconds
            == m.cpu_time,
        res.schema == 3,
        wait_rows_of(m.tests@).len() == 0 ==> res.wait_bound is None,
        wait_rows_of(m.tests@).len() > 0 ==> (res.wait_bound is Some <==> wait_bound_applies(
            true,
            m.wait,
            m.wait_pct,
        )),
        res.wait_bound matches Some(w) ==> w.wait_seconds == m.wait && w.wait_pct == m.wait_pct
            && w.tests@.len() <= 50,
        m.workers <= 1 ==> res.parallel_efficiency is None,
        res.fixtures@.len() <= 50 && res.slowest_files@.len() <= 20,
        0 <= i < m.deltas@.len() && leaks(m.deltas@[i]) ==> exists|q: int|
            0 <= q < res.leaks@.len() && (#[trigger] res.leaks@[q]).nodeid@ == m.deltas@[i].nodeid@,
        m.tests@.len() == 0 ==> res.parallel_floor is None,
{
    if let Some(w) = res.wait_bound {
        theorem_longest_waits_come_first(w.tests@, wait_rows_of(m.tests@), 0, 0, 0);
    }
    theorem_longest_fixtures_come_first(res.fixtures@, m.fixtures@, 0, 0, 0);
    let files = choose|files: Seq<FileEntry>| #[trigger]
        entries_of(files, files_of(m.tests@), m.spent@) && slowest(res.slowest_files@, files);
    theorem_slowest_files_come_first(res.slowest_files@, files, 0, 0, 0);
    theorem_worst_leaks_come_first(res.leaks@, m.deltas@, 0, 0, i);
    if 0 <= i < m.deltas@.len() && leaks(m.deltas@[i]) {
        let q = choose|q: int|
            0 <= q < res.leaks@.len() && is_leak(#[trigger] res.leaks@[q], m.deltas@[i]);
        assert(res.leaks@[q].nodeid@ == m.deltas@[i].nodeid@);
    }
}

} // verus!
