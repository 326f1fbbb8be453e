//! Which tests were seen to flake or fail, over many runs.

use crate::ordered_map::{OrderedKey, OrderedMap, TextSet};
use crate::text::texts;
use vstd::prelude::*;

verus! {

broadcast use crate::text::lemma_texts_push;

/// What is remembered of one test.
#[derive(Clone, Copy, Debug, PartialEq, Eq, Structural)]
pub struct FlakeStats {
    /// Runs in which the test passed only when it was run again.
    pub flaky: u32,
    /// Runs in which the test failed.
    pub failed: u32,
    /// Seconds since the epoch at the last of these.
    pub last_epoch: u64,
}

impl Default for FlakeStats {
    fn default() -> (res: Self)
        ensures
            res == (FlakeStats { flaky: 0, failed: 0, last_epoch: 0 }),
    {
        FlakeStats { flaky: 0, failed: 0, last_epoch: 0 }
    }
}

/// Whether a test is known to be flaky: it passed when it was run again. To have
/// failed is not enough.
pub open spec fn flaked(log: Map<Seq<char>, FlakeStats>, id: Seq<char>) -> bool {
    log.contains_key(id) && log[id].flaky > 0
}

/// The tests that are known to be flaky.
pub fn known_flaky(log: &OrderedMap<String, FlakeStats>) -> (res: TextSet)
    ensures
        forall|id: Seq<char>| #[trigger] res@.contains(id) == flaked(log@, id),
{
    let n = log.len();
    let mut out = TextSet::new();
    let mut i: usize = 0;
    while i < n
        invariant
            i <= n,
            n == log.list().len(),
            log.listed(),
            forall|id: Seq<char>| #[trigger]
                out@.contains(id) ==> flaked(log@, id),
            forall|j: int|
                0 <= j < i && (#[trigger] log.list()[j]).1.flaky > 0 ==> out@.contains(
                    log.list()[j].0@,
                ),
        decreases n - i,
    {
        let (id, s) = log.at(i);
        assert(log@.contains_key(log.list()[i as int].0.model()));
        if s.flaky > 0 {
            out.insert(id.clone());
        }
        i += 1;
    }
    proof {
        assert forall|id: Seq<char>| #[trigger] out@.contains(id) == flaked(log@, id) by {
            if flaked(log@, id) {
                let j = choose|j: int| #[trigger]
                    crate::ordered_map::key_at(log.list(), j, id);
                assert(log.list()[j].1.flaky > 0);
            }
        }
    }
    out
}

/// What is remembered of a test: nothing happened, where there is no entry.
pub open spec fn stats(log: Map<Seq<char>, FlakeStats>, id: Seq<char>) -> FlakeStats {
    if log.contains_key(id) {
        log[id]
    } else {
        FlakeStats { flaky: 0, failed: 0, last_epoch: 0 }
    }
}

/// How often a test stands in a list.
pub open spec fn times(ids: Seq<String>, id: Seq<char>) -> nat {
    texts(ids).to_multiset().count(id)
}

/// The entry of a test after a run in which it flaked and failed that often.
pub open spec fn counted(
    before: FlakeStats,
    flaky: nat,
    failed: nat,
    now: u64,
) -> FlakeStats {
    FlakeStats {
        flaky: (before.flaky + flaky) as u32,
        failed: (before.failed + failed) as u32,
        last_epoch: if flaky + failed > 0 {
            now
        } else {
            before.last_epoch
        },
    }
}

/// The log after a run.
pub open spec fn recorded(
    log: Map<Seq<char>, FlakeStats>,
    flaky: Seq<String>,
    failed: Seq<String>,
    now: u64,
) -> Map<Seq<char>, FlakeStats> {
    Map::new(
        |id: Seq<char>| log.contains_key(id) || times(flaky, id) + times(failed, id) > 0,
        |id: Seq<char>| counted(stats(log, id), times(flaky, id), times(failed, id), now),
    )
}

/// Whether the counts have room for a run.
pub open spec fn roomy(
    log: Map<Seq<char>, FlakeStats>,
    flaky: Seq<String>,
    failed: Seq<String>,
) -> bool {
    forall|id: Seq<char>| #[trigger] fits(log, flaky, failed, id)
}

/// Whether the counts of one test have room for a run.
pub open spec fn fits(
    log: Map<Seq<char>, FlakeStats>,
    flaky: Seq<String>,
    failed: Seq<String>,
    id: Seq<char>,
) -> bool {
    &&& stats(log, id).flaky + times(flaky, id) <= u32::MAX
    &&& stats(log, id).failed + times(failed, id) <= u32::MAX
}

proof fn lemma_times_push(v: Seq<String>, s: String, id: Seq<char>)
    ensures
        times(v.push(s), id) == times(v, id) + (if s@ == id {
            1nat
        } else {
            0nat
        }),
{
    broadcast use vstd::seq_lib::group_to_multiset_ensures;

    assert(texts(v.push(s)) == texts(v).push(s@));
}

proof fn lemma_times_prefix(v: Seq<String>, i: int, id: Seq<char>)
    requires
        0 <= i <= v.len(),
    ensures
        times(v.take(i), id) <= times(v, id),
    decreases v.len() - i,
{
    if i < v.len() {
        assert(v.take(i + 1) =~= v.take(i).push(v[i]));
        lemma_times_push(v.take(i), v[i], id);
        lemma_times_prefix(v, i + 1, id);
    } else {
        assert(v.take(i) =~= v);
    }
}

proof fn lemma_times_none(id: Seq<char>)
    ensures
        times(Seq::empty(), id) == 0,
{
    broadcast use vstd::seq_lib::group_to_multiset_ensures;

    assert(texts(Seq::empty()) =~= Seq::empty());
}

proof fn lemma_recorded_one(
    log: Map<Seq<char>, FlakeStats>,
    flaky: Seq<String>,
    failed: Seq<String>,
    now: u64,
    s: String,
    was_flaky: bool,
    entry: FlakeStats,
)
    requires
        roomy(
            log,
            if was_flaky {
                flaky.push(s)
            } else {
                flaky
            },
            if was_flaky {
                failed
            } else {
                failed.push(s)
            },
        ),
        was_flaky ==> entry == (FlakeStats {
            flaky: (stats(recorded(log, flaky, failed, now), s@).flaky + 1) as u32,
            failed: stats(recorded(log, flaky, failed, now), s@).failed,
            last_epoch: now,
        }),
        !was_flaky ==> entry == (FlakeStats {
            flaky: stats(recorded(log, flaky, failed, now), s@).flaky,
            failed: (stats(recorded(log, flaky, failed, now), s@).failed + 1) as u32,
            last_epoch: now,
        }),
    ensures
        recorded(log, flaky, failed, now).insert(s@, entry) == (if was_flaky {
            recorded(log, flaky.push(s), failed, now)
        } else {
            recorded(log, flaky, failed.push(s), now)
        }),
{
    let before = recorded(log, flaky, failed, now);
    let f2 = if was_flaky {
        flaky.push(s)
    } else {
        flaky
    };
    let g2 = if was_flaky {
        failed
    } else {
        failed.push(s)
    };
    let after = recorded(log, f2, g2, now);
    let inserted = before.insert(s@, entry);
    assert forall|id: Seq<char>| #[trigger] crate::ordered_map::agree(inserted, after, id) by {
        lemma_times_push(flaky, s, id);
        lemma_times_push(failed, s, id);
        assert(fits(log, f2, g2, id));
    }
    crate::ordered_map::lemma_same_map(inserted, after);
}

/// Adds what happened in a run to the log. Says whether there was anything to
/// add.
pub fn record(
    log: &mut OrderedMap<String, FlakeStats>,
    flaky: &[String],
    failed: &[String],
    now: u64,
) -> (res: bool)
    requires
        roomy(old(log)@, flaky@, failed@),
    ensures
        final(log)@ == recorded(old(log)@, flaky@, failed@, now),
        res == (flaky@.len() + failed@.len() > 0),
{
    let ghost start = log@;
    let ghost none = Seq::<String>::empty();
    let mut i: usize = 0;
    proof {
        assert forall|id: Seq<char>| times(none, id) == 0 by {
            lemma_times_none(id);
        }
        assert(recorded(start, none, none, now) =~= start);
        assert(flaky@.take(0) =~= none);
    }
    while i < flaky.len()
        invariant
            i <= flaky.len(),
            none == Seq::<String>::empty(),
            roomy(start, flaky@, failed@),
            log@ == recorded(start, flaky@.take(i as int), none, now),
        decreases flaky.len() - i,
    {
        let ghost t = flaky@.take(i as int);
        proof {
            assert(flaky@.take(i + 1) =~= t.push(flaky@[i as int]));
            assert forall|id: Seq<char>| #[trigger] fits(start, t.push(flaky@[i as int]), none, id) by {
                lemma_times_prefix(flaky@, i + 1, id);
                lemma_times_none(id);
                assert(fits(start, flaky@, failed@, id));
            }
            lemma_times_push(t, flaky@[i as int], flaky@[i as int]@);
            assert(fits(start, t.push(flaky@[i as int]), none, flaky@[i as int]@));
        }
        let mut e: FlakeStats = match log.get(&flaky[i]) {
            Some(s) => *s,
            None => FlakeStats::default(),
        };
        e.flaky = e.flaky + 1;
        e.last_epoch = now;
        proof {
            lemma_recorded_one(start, t, none, now, flaky@[i as int], true, e);
        }
        log.insert(flaky[i].clone(), e);
        i += 1;
    }
    proof {
        assert(flaky@.take(flaky.len() as int) =~= flaky@);
        assert(failed@.take(0) =~= none);
    }
    let mut k: usize = 0;
    while k < failed.len()
        invariant
            k <= failed.len(),
            roomy(start, flaky@, failed@),
            log@ == recorded(start, flaky@, failed@.take(k as int), now),
        decreases failed.len() - k,
    {
        let ghost t = failed@.take(k as int);
        proof {
            assert(failed@.take(k + 1) =~= t.push(failed@[k as int]));
            assert forall|id: Seq<char>| #[trigger]
                fits(start, flaky@, t.push(failed@[k as int]), id) by {
                lemma_times_prefix(failed@, k + 1, id);
                assert(fits(start, flaky@, failed@, id));
            }
            lemma_times_push(t, failed@[k as int], failed@[k as int]@);
            assert(fits(start, flaky@, t.push(failed@[k as int]), failed@[k as int]@));
        }
        let mut e: FlakeStats = match log.get(&failed[k]) {
            Some(s) => *s,
            None => FlakeStats::default(),
        };
        e.failed = e.failed + 1;
        e.last_epoch = now;
        proof {
            lemma_recorded_one(start, flaky@, t, now, failed@[k as int], false, e);
        }
        log.insert(failed[k].clone(), e);
        k += 1;
    }
    assert(failed@.take(failed.len() as int) =~= failed@);
    flaky.len() > 0 || failed.len() > 0
}

/// A run without flakes and failures leaves the log as it was.
pub proof fn theorem_green_run_changes_nothing(log: Map<Seq<char>, FlakeStats>, now: u64)
    ensures
        recorded(log, Seq::empty(), Seq::empty(), now) == log,
{
    assert forall|id: Seq<char>| times(Seq::empty(), id) == 0 by {
        lemma_times_none(id);
    }
    assert(recorded(log, Seq::empty(), Seq::empty(), now) =~= log);
}

/// A run in which tests only failed makes no test known to be flaky.
pub proof fn theorem_failures_are_not_flakes(
    log: Map<Seq<char>, FlakeStats>,
    failed: Seq<String>,
    now: u64,
    id: Seq<char>,
)
    ensures
        flaked(recorded(log, Seq::empty(), failed, now), id) == flaked(log, id),
{
    lemma_times_none(id);
}

/// What is known of a test is not forgotten: its counts do not fall, and a test that
/// is known to be flaky stays so.
pub proof fn theorem_nothing_is_forgotten(
    log: Map<Seq<char>, FlakeStats>,
    flaky: Seq<String>,
    failed: Seq<String>,
    now: u64,
    id: Seq<char>,
)
    requires
        fits(log, flaky, failed, id),
    ensures
        stats(recorded(log, flaky, failed, now), id).flaky >= stats(log, id).flaky,
        stats(recorded(log, flaky, failed, now), id).failed >= stats(log, id).failed,
        flaked(log, id) ==> flaked(recorded(log, flaky, failed, now), id),
{
}

/// A test that passed only when it was run again is flaky from then on, with one more to
/// its count; one that failed has one more failure. The time of the run is noted.
pub proof fn theorem_runs_are_counted(
    log: Map<Seq<char>, FlakeStats>,
    flaky: Seq<String>,
    failed: Seq<String>,
    now: u64,
    i: int,
)
    requires
        roomy(log, flaky, failed),
    ensures
        0 <= i < flaky.len() ==> flaked(recorded(log, flaky, failed, now), flaky[i]@) && recorded(
            log,
            flaky,
            failed,
            now,
        )[flaky[i]@].last_epoch == now && recorded(log, flaky, failed, now)[flaky[i]@].flaky
            > stats(log, flaky[i]@).flaky,
        0 <= i < failed.len() ==> recorded(log, flaky, failed, now).contains_key(failed[i]@)
            && recorded(log, flaky, failed, now)[failed[i]@].last_epoch == now && recorded(
            log,
            flaky,
            failed,
            now,
        )[failed[i]@].failed > stats(log, failed[i]@).failed,
{
    broadcast use vstd::seq_lib::group_to_multiset_ensures;

    if 0 <= i < flaky.len() {
        let id = flaky[i]@;
        assert(texts(flaky)[i] == id);
        assert(texts(flaky).contains(id));
        assert(texts(flaky).to_multiset().count(id) > 0);
        assert(fits(log, flaky, failed, id));
    }
    if 0 <= i < failed.len() {
        let id = failed[i]@;
        assert(texts(failed)[i] == id);
        assert(texts(failed).contains(id));
        assert(texts(failed).to_multiset().count(id) > 0);
        assert(fits(log, flaky, failed, id));
    }
}

/// What was known of a test that neither failed nor was run again stays as it was, its
/// time too, and nothing is recorded of one that is unknown.
pub proof fn theorem_other_tests_stay(
    log: Map<Seq<char>, FlakeStats>,
    flaky: Seq<String>,
    failed: Seq<String>,
    now: u64,
    id: Seq<char>,
)
    requires
        !texts(flaky).contains(id),
        !texts(failed).contains(id),
    ensures
        recorded(log, flaky, failed, now).contains_key(id) == log.contains_key(id),
        log.contains_key(id) ==> recorded(log, flaky, failed, now)[id] == log[id],
{
    broadcast use vstd::seq_lib::group_to_multiset_ensures;

    assert(texts(flaky).to_multiset().count(id) == 0);
    assert(texts(failed).to_multiset().count(id) == 0);
}

/// A test that failed in a run, once, has one more failure and no more flakes; and the
/// other way round.
pub proof fn theorem_each_run_counts_once(
    log: Map<Seq<char>, FlakeStats>,
    flaky: Seq<String>,
    failed: Seq<String>,
    now: u64,
    id: Seq<char>,
)
    requires
        roomy(log, flaky, failed),
    ensures
        times(flaky, id) == 0 && times(failed, id) == 1 ==> recorded(log, flaky, failed, now)[id].failed
            == stats(log, id).failed + 1 && recorded(log, flaky, failed, now)[id].flaky == stats(
            log,
            id,
        ).flaky,
        times(flaky, id) == 1 && times(failed, id) == 0 ==> recorded(log, flaky, failed, now)[id].flaky
            == stats(log, id).flaky + 1 && recorded(log, flaky, failed, now)[id].failed == stats(
            log,
            id,
        ).failed,
        !log.contains_key(id) ==> stats(log, id).flaky == 0 && stats(log, id).failed == 0,
        flaked(log, id) <==> stats(log, id).flaky > 0,
{
    assert(fits(log, flaky, failed, id));
}

} // verus!
