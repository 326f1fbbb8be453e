//! Recorded test durations: which tests start first, and which got slower.

use crate::double::{Double, HALF, ONE, TWENTIETH};
use crate::ordered_map::OrderedMap;
use crate::rank::{models, positions, rank, ranked, Down};
use vstd::prelude::*;

verus! {

/// Tests recorded to take at least this long, one second, start first.
pub const SLOW_THRESHOLD: u64 = ONE;

/// Whether a recorded duration makes a test slow.
pub open spec fn slow(d: Double) -> bool {
    d.at_least(Double { bits: SLOW_THRESHOLD })
}

/// By how much a test is favoured: a slow one by its duration, others not.
pub open spec fn weight(cache: Map<Seq<char>, Double>, id: Seq<char>) -> int {
    if cache.contains_key(id) && slow(cache[id]) {
        cache[id].place()
    } else {
        0
    }
}

/// By how much each test of a list is favoured.
pub open spec fn weights(ids: Seq<String>, cache: Map<Seq<char>, Double>) -> Seq<int> {
    Seq::new(ids.len(), |i: int| weight(cache, ids[i]@))
}

/// The order in which to start tests: the slow ones first, longest first, then
/// the others in the order they were collected.
pub fn dispatch_order(ids: &[String], cache: &OrderedMap<String, Double>) -> (res: Vec<u64>)
    ensures
        ranked::<Down>(
            Seq::new(res@.len(), |i: int| res@[i] as int),
            weights(ids@, cache@),
        ),
{
    let mut keys: Vec<Down> = Vec::new();
    let mut i: usize = 0;
    while i < ids.len()
        invariant
            i <= ids.len(),
            keys.len() == i,
            forall|j: int| 0 <= j < i ==> (#[trigger] keys@[j]).key == weight(cache@, ids@[j]@),
        decreases ids.len() - i,
    {
        let key: i64 = match cache.get(&ids[i]) {
            Some(d) => if d.ge(&Double { bits: SLOW_THRESHOLD }) {
                d.order_key()
            } else {
                0
            },
            None => 0,
        };
        keys.push(Down { key });
        i += 1;
    }
    let order = rank(keys.as_slice());
    let mut out: Vec<u64> = Vec::new();
    let mut k: usize = 0;
    while k < order.len()
        invariant
            k <= order.len(),
            out.len() == k,
            forall|j: int| 0 <= j < k ==> (#[trigger] out@[j]) as int == order@[j],
        decreases order.len() - k,
    {
        out.push(order[k] as u64);
        k += 1;
    }
    proof {
        assert(models(keys@) =~= weights(ids@, cache@));
        assert(Seq::new(out@.len(), |i: int| out@[i] as int) =~= positions(order@));
    }
    out
}

/// With nothing recorded, tests start in the order they were collected.
pub proof fn theorem_empty_cache_keeps_order(ids: Seq<String>, order: Seq<int>)
    requires
        ranked::<Down>(order, weights(ids, Map::empty())),
    ensures
        order == Seq::new(ids.len(), |i: int| i),
{
    let w = weights(ids, Map::empty());
    let plain = Seq::new(ids.len(), |i: int| i);
    assert(ranked::<Down>(plain, w));
    crate::rank::theorem_ranking_is_unique::<Down>(order, plain, w);
}

/// A slow test starts before every test that is not slow, and before those that
/// are recorded to be shorter.
pub proof fn theorem_slow_tests_start_first(
    ids: Seq<String>,
    cache: Map<Seq<char>, Double>,
    order: Seq<int>,
    i: int,
    j: int,
)
    requires
        ranked::<Down>(order, weights(ids, cache)),
        0 <= i < order.len(),
        0 <= j < order.len(),
        cache.contains_key(ids[order[i]]@) && slow(cache[ids[order[i]]@]),
        !(cache.contains_key(ids[order[j]]@) && slow(cache[ids[order[j]]@]))
            || cache[ids[order[j]]@].place() < cache[ids[order[i]]@].place(),
    ensures
        i < j,
{
    let w = weights(ids, cache);
    assert(w[order[i]] > w[order[j]]);
    if j < i {
        assert(crate::rank::ahead::<Down>(w, order[j], order[i]));
    }
}

/// The cache after a run: what the run measured replaces what was recorded, and
/// the rest stays.
pub open spec fn merged(
    cache: Map<Seq<char>, Double>,
    run: Seq<(String, Double)>,
) -> Map<Seq<char>, Double>
    decreases run.len(),
{
    if run.len() == 0 {
        cache
    } else {
        merged(cache, run.drop_last()).insert(run.last().0@, run.last().1)
    }
}

/// Records what a run measured.
pub fn save(cache: &mut OrderedMap<String, Double>, run: &[(String, Double)])
    ensures
        final(cache)@ == merged(old(cache)@, run@),
{
    let ghost start = cache@;
    let mut i: usize = 0;
    while i < run.len()
        invariant
            i <= run.len(),
            cache@ == merged(start, run@.take(i as int)),
        decreases run.len() - i,
    {
        cache.insert(run[i].0.clone(), run[i].1);
        assert(run@.take(i + 1).drop_last() =~= run@.take(i as int));
        i += 1;
    }
    assert(run@.take(run.len() as int) =~= run@);
}

/// A test that was not in the run keeps its recorded duration.
pub proof fn theorem_save_keeps_the_rest(
    cache: Map<Seq<char>, Double>,
    run: Seq<(String, Double)>,
    id: Seq<char>,
)
    requires
        forall|i: int| 0 <= i < run.len() ==> (#[trigger] run[i]).0@ != id,
    ensures
        merged(cache, run).contains_key(id) == cache.contains_key(id),
        cache.contains_key(id) ==> merged(cache, run)[id] == cache[id],
    decreases run.len(),
{
    if run.len() > 0 {
        assert(run.last() == run[run.len() - 1]);
        assert forall|i: int| 0 <= i < run.drop_last().len() implies (
        #[trigger] run.drop_last()[i]).0@ != id by {
            assert(run.drop_last()[i] == run[i]);
        }
        theorem_save_keeps_the_rest(cache, run.drop_last(), id);
    }
}

/// A test of the run with what was recorded of it before.
pub struct Timing {
    pub id: String,
    /// The recorded duration.
    pub old: Double,
    /// The duration in this run.
    pub new: Double,
}

/// Whether a row is the comparison of a test of the run with its record.
pub open spec fn compares(t: Timing, id: Seq<char>, old: Double, new: Double) -> bool {
    t.id@ == id && t.old == old && t.new == new
}

/// The tests of a run of which a duration is recorded, by their positions.
pub open spec fn recorded(run: Seq<(String, Double)>, base: Map<Seq<char>, Double>) -> Seq<int>
    decreases run.len(),
{
    if run.len() == 0 {
        Seq::empty()
    } else {
        let before = recorded(run.drop_last(), base);
        if base.contains_key(run.last().0@) {
            before.push(run.len() - 1)
        } else {
            before
        }
    }
}

/// Puts the tests of a run beside their recorded durations; a test of which
/// nothing is recorded is left out.
pub fn compared(run: &[(String, Double)], base: &OrderedMap<String, Double>) -> (res: Vec<Timing>)
    ensures
        res@.len() == recorded(run@, base@).len(),
        forall|i: int|
            0 <= i < res@.len() ==> {
                let r = run@[recorded(run@, base@)[i]];
                compares(#[trigger] res@[i], r.0@, base@[r.0@], r.1)
            },
{
    let mut out: Vec<Timing> = Vec::new();
    let mut i: usize = 0;
    while i < run.len()
        invariant
            i <= run.len(),
            out@.len() == recorded(run@.take(i as int), base@).len(),
            forall|j: int|
                0 <= j < out@.len() ==> {
                    let r = run@[recorded(run@.take(i as int), base@)[j]];
                    compares(#[trigger] out@[j], r.0@, base@[r.0@], r.1)
                },
        decreases run.len() - i,
    {
        proof {
            assert(run@.take(i + 1).drop_last() =~= run@.take(i as int));
        }
        match base.get(&run[i].0) {
            Some(old) => {
                out.push(Timing { id: run[i].0.clone(), old: *old, new: run[i].1 });
            },
            None => {},
        }
        i += 1;
    }
    assert(run@.take(run.len() as int) =~= run@);
    out
}

/// A comparison with the two numbers that decide on it.
pub struct Growth {
    pub timing: Timing,
    /// The recorded duration times the allowed ratio.
    pub bar: Double,
    /// The new duration less the recorded one.
    pub growth: Double,
}

/// Whether a test got slower: what was recorded is no jitter, the new duration
/// reaches the bar, and the growth is at least half a second.
pub open spec fn regressed(g: Growth) -> bool {
    &&& g.timing.old.at_least(Double { bits: TWENTIETH })
    &&& g.timing.new.at_least(g.bar)
    &&& g.growth.at_least(Double { bits: HALF })
}

/// The rows that report a test that got slower.
pub open spec fn regressed_rows(rows: Seq<Growth>) -> Seq<Growth> {
    rows.filter(|g: Growth| regressed(g))
}

/// The growth of each row, by its place in the order of numbers.
pub open spec fn growths(rows: Seq<Growth>) -> Seq<int> {
    Seq::new(rows.len(), |i: int| rows[i].growth.place())
}

/// The tests that got slower, the one that grew most first.
pub fn regressions(rows: &[Growth]) -> (res: Vec<(String, Double, Double)>)
    ensures
        most_grown_first(res@, rows@),
{
    let mut kept: Vec<usize> = Vec::new();
    let mut keys: Vec<Down> = Vec::new();
    let mut i: usize = 0;
    assert(regressed_rows(rows@.take(0)) =~= Seq::empty()) by {
        reveal(Seq::filter);
    }
    while i < rows.len()
        invariant
            i <= rows.len(),
            kept@.len() == regressed_rows(rows@.take(i as int)).len(),
            keys@.len() == kept@.len(),
            forall|j: int|
                0 <= j < kept@.len() ==> #[trigger] kept@[j] < rows.len() && rows@[kept@[j] as int]
                    == regressed_rows(rows@.take(i as int))[j],
            forall|j: int|
                0 <= j < keys@.len() ==> (#[trigger] keys@[j]).key
                    == rows@[kept@[j] as int].growth.place(),
        decreases rows.len() - i,
    {
        proof {
            let t = rows@.take(i + 1);
            assert(t.drop_last() =~= rows@.take(i as int));
            reveal(Seq::filter);
        }
        let g = &rows[i];
        if g.timing.old.ge(&Double { bits: TWENTIETH }) && g.timing.new.ge(&g.bar) && g.growth.ge(
            &Double { bits: HALF },
        ) {
            keys.push(Down { key: g.growth.order_key() });
            kept.push(i);
        }
        i += 1;
    }
    assert(rows@.take(rows.len() as int) =~= rows@);
    let ghost slower = regressed_rows(rows@);
    let order = rank(keys.as_slice());
    let ghost p = positions(order@);
    proof {
        assert(models(keys@) =~= growths(slower));
    }
    let mut out: Vec<(String, Double, Double)> = Vec::new();
    let mut k: usize = 0;
    while k < order.len()
        invariant
            k <= order.len(),
            out@.len() == k,
            p == positions(order@),
            kept@.len() == slower.len(),
            forall|j: int|
                0 <= j < kept@.len() ==> #[trigger] kept@[j] < rows.len() && rows@[kept@[j] as int]
                    == slower[j],
            ranked::<Down>(p, growths(slower)),
            forall|j: int|
                0 <= j < k ==> compares(
                    slower[p[j]].timing,
                    (#[trigger] out@[j]).0@,
                    out@[j].1,
                    out@[j].2,
                ),
        decreases order.len() - k,
    {
        proof {
            assert(0 <= p[k as int] < growths(slower).len());
        }
        let g = &rows[kept[order[k]]];
        out.push((g.timing.id.clone(), g.timing.old, g.timing.new));
        k += 1;
    }
    out
}

/// A test is slow from one second on.
pub proof fn theorem_slow_from_one_second_on(d: Double)
    ensures
        slow(d) <==> 0x3FF0000000000000 <= d.bits <= 0x7FF0000000000000,
{
}

/// Of two tests that are not slow, and of two that are recorded with the same duration,
/// the one that was collected first starts first.
pub proof fn theorem_others_start_as_collected(
    ids: Seq<String>,
    cache: Map<Seq<char>, Double>,
    order: Seq<int>,
    i: int,
    j: int,
)
    requires
        ranked::<Down>(order, weights(ids, cache)),
        0 <= i < order.len(),
        0 <= j < order.len(),
        order[i] < order[j],
        ({
            let (a, b) = (ids[order[i]]@, ids[order[j]]@);
            ||| (!cache.contains_key(a) || cache[a].bits < 0x3FF0000000000000) && (
            !cache.contains_key(b) || cache[b].bits < 0x3FF0000000000000)
            ||| cache.contains_key(a) && cache.contains_key(b) && cache[a] == cache[b]
        }),
    ensures
        i < j,
{
    let w = weights(ids, cache);
    assert(w[order[i]] == w[order[j]]);
    if j < i {
        assert(crate::rank::ahead::<Down>(w, order[j], order[i]));
    }
}

/// Every test starts once.
pub proof fn theorem_every_test_starts_once(
    ids: Seq<String>,
    cache: Map<Seq<char>, Double>,
    order: Seq<int>,
    i: int,
)
    requires
        ranked::<Down>(order, weights(ids, cache)),
        0 <= i < ids.len(),
    ensures
        order.contains(i),
        order.no_duplicates(),
        order.len() == ids.len(),
{
    crate::rank::theorem_ranking_is_a_permutation::<Down>(order, weights(ids, cache));
}

/// What a run measured of a test is what is recorded of it afterwards, longer or shorter
/// than before; where the run measured it twice, the last time counts.
pub proof fn theorem_save_records_the_run(
    cache: Map<Seq<char>, Double>,
    run: Seq<(String, Double)>,
    i: int,
)
    requires
        0 <= i < run.len(),
        forall|j: int| i < j < run.len() ==> (#[trigger] run[j]).0@ != run[i].0@,
    ensures
        merged(cache, run).contains_key(run[i].0@),
        merged(cache, run)[run[i].0@] == run[i].1,
    decreases run.len(),
{
    if i < run.len() - 1 {
        let before = run.drop_last();
        assert(run[run.len() - 1].0@ != run[i].0@);
        assert(before[i] == run[i]);
        assert forall|j: int| i < j < before.len() implies (#[trigger] before[j]).0@
            != before[i].0@ by {
            assert(before[j] == run[j]);
        }
        theorem_save_records_the_run(cache, before, i);
    }
}

/// The tests that are compared with what was recorded are those of which something was:
/// all of them, in their order, and none twice.
pub proof fn theorem_recorded_tests_are_compared(
    run: Seq<(String, Double)>,
    base: Map<Seq<char>, Double>,
)
    ensures
        forall|i: int| #[trigger]
            recorded(run, base).contains(i) <==> 0 <= i < run.len() && base.contains_key(
                run[i].0@,
            ),
        forall|a: int, b: int|
            0 <= a < b < recorded(run, base).len() ==> #[trigger] recorded(run, base)[a]
                < #[trigger] recorded(run, base)[b],
    decreases run.len(),
{
    let r = recorded(run, base);
    if run.len() > 0 {
        let init = run.drop_last();
        let before = recorded(init, base);
        theorem_recorded_tests_are_compared(init, base);
        assert forall|i: int| #[trigger] r.contains(i) <==> 0 <= i < run.len()
            && base.contains_key(run[i].0@) by {
            assert(before.contains(i) <==> 0 <= i < init.len() && base.contains_key(init[i].0@));
            if r.contains(i) {
                let k = choose|k: int| 0 <= k < r.len() && r[k] == i;
                if k < before.len() {
                    assert(before[k] == i);
                    assert(before.contains(i));
                }
            }
            if before.contains(i) {
                let k = choose|k: int| 0 <= k < before.len() && before[k] == i;
                assert(r[k] == i);
            }
            if i == run.len() - 1 && base.contains_key(run[i].0@) {
                assert(r[r.len() - 1] == i);
            }
            if 0 <= i < init.len() {
                assert(init[i] == run[i]);
            }
        }
        assert forall|a: int, b: int| 0 <= a < b < r.len() implies #[trigger] r[a] < #[trigger] r[b] by {
            assert(r[a] == before[a]);
            assert(before.contains(before[a]));
            if b < before.len() {
                assert(r[b] == before[b]);
            }
        }
    }
}

/// A test became slower where it took a twentieth of a second at least before, grew to
/// the allowed multiple of that at least, and by half a second at least. Each of the
/// three is needed.
pub proof fn theorem_slower_by_ratio_and_by_half_a_second(g: Growth)
    requires
        !g.timing.new.nan(),
        !g.bar.nan(),
    ensures
        regressed(g) <==> 0x3FA999999999999A <= g.timing.old.bits <= 0x7FF0000000000000
            && 0x3FE0000000000000 <= g.growth.bits <= 0x7FF0000000000000 && !g.timing.new.less(
            g.bar,
        ),
{
}

/// Whether `res` are the tests that got slower, the one that grew most first.
pub open spec fn most_grown_first(res: Seq<(String, Double, Double)>, rows: Seq<Growth>) -> bool {
    exists|order: Seq<int>| #[trigger]
        ranked::<Down>(order, growths(regressed_rows(rows))) && res.len() == order.len() && forall|i: int|
            0 <= i < res.len() ==> compares(
                regressed_rows(rows)[order[i]].timing,
                (#[trigger] res[i]).0@,
                res[i].1,
                res[i].2,
            )
}

/// Whether one test is told of before another.
pub open spec fn told_before(
    res: Seq<(String, Double, Double)>,
    i: int,
    j: int,
    a: Growth,
    b: Growth,
) -> bool {
    compares(a.timing, res[i].0@, res[i].1, res[i].2) && compares(
        b.timing,
        res[j].0@,
        res[j].1,
        res[j].2,
    )
}

/// Every test that got slower is told of, and no other; the one that grew most comes first.
pub proof fn theorem_tests_that_grew_most_come_first(
    res: Seq<(String, Double, Double)>,
    rows: Seq<Growth>,
    i: int,
    j: int,
    k: int,
)
    requires
        most_grown_first(res, rows),
    ensures
        res.len() == regressed_rows(rows).len(),
        0 <= i <= j < res.len() ==> exists|a: Growth, b: Growth| #[trigger]
            told_before(res, i, j, a, b) && rows.contains(a) && rows.contains(b) && regressed(a)
                && regressed(b) && a.growth.place() >= b.growth.place(),
        0 <= k < rows.len() && regressed(rows[k]) ==> exists|q: int|
            0 <= q < res.len() && compares(
                rows[k].timing,
                (#[trigger] res[q]).0@,
                res[q].1,
                res[q].2,
            ),
{
    let f = |g: Growth| regressed(g);
    let w = regressed_rows(rows);
    let keys = growths(w);
    let order = choose|order: Seq<int>| #[trigger]
        ranked::<Down>(order, keys) && res.len() == order.len() && forall|i: int|
            0 <= i < res.len() ==> compares(
                w[order[i]].timing,
                (#[trigger] res[i]).0@,
                res[i].1,
                res[i].2,
            );
    if 0 <= i <= j < res.len() {
        let a = w[order[i]];
        let b = w[order[j]];
        assert(0 <= order[i] < keys.len() && 0 <= order[j] < keys.len());
        rows.lemma_filter_pred(f, order[i]);
        rows.lemma_filter_pred(f, order[j]);
        assert(f(a) && f(b));
        rows.lemma_filter_contains_rev(f, a);
        rows.lemma_filter_contains_rev(f, b);
        if i < j {
            assert(crate::rank::ahead::<Down>(keys, order[i], order[j]));
        }
        assert(compares(a.timing, res[i].0@, res[i].1, res[i].2));
        assert(compares(b.timing, res[j].0@, res[j].1, res[j].2));
        assert(told_before(res, i, j, a, b));
    }
    if 0 <= k < rows.len() && regressed(rows[k]) {
        rows.lemma_filter_contains(f, k);
        let p = choose|p: int| 0 <= p < w.len() && w[p] == rows[k];
        crate::rank::theorem_ranking_is_a_permutation::<Down>(order, keys);
        assert(order.contains(p));
        let q = choose|q: int| 0 <= q < order.len() && order[q] == p;
        assert(compares(w[order[q]].timing, res[q].0@, res[q].1, res[q].2));
    }
}

} // verus!
