//! What is remembered of interpreters that were run.

use super::request::{Probe, ProbeModel};
use super::resolve::opt_probe;
use crate::ordered_map::{key_at, OrderedKey, OrderedMap};
use crate::paths::{is_same_path, joined_path, path_join, same_path};
use crate::text::opt_text;
use vstd::prelude::*;

verus! {

/// What is remembered of an interpreter, with what its file was like then.
pub struct CacheEntry {
    pub mtime: u64,
    /// The size of its file; zero where it was not recorded.
    pub size: u64,
    pub probe: Probe,
}

/// What is remembered of an interpreter.
pub ghost struct EntryModel {
    pub mtime: u64,
    pub size: u64,
    pub probe: ProbeModel,
}

impl View for CacheEntry {
    type V = EntryModel;

    open spec fn view(&self) -> EntryModel {
        EntryModel { mtime: self.mtime, size: self.size, probe: self.probe@ }
    }
}

impl CacheEntry {
    fn copied(&self) -> (res: CacheEntry)
        ensures
            res@ == self@,
    {
        CacheEntry { mtime: self.mtime, size: self.size, probe: self.probe.copied() }
    }
}

/// The interpreters that are remembered.
pub open spec fn remembered(m: Map<Seq<char>, CacheEntry>) -> Map<Seq<char>, EntryModel> {
    Map::new(|k: Seq<char>| m.contains_key(k), |k: Seq<char>| m[k]@)
}

/// What is remembered of an interpreter whose file has this time and size: nothing
/// where either differs.
pub open spec fn hit(
    m: Map<Seq<char>, EntryModel>,
    key: Seq<char>,
    mtime: u64,
    size: u64,
) -> Option<ProbeModel> {
    if m.contains_key(key) && m[key].mtime == mtime && m[key].size == size {
        Some(m[key].probe)
    } else {
        None
    }
}

/// Looks up an interpreter by its path, and the time and size of its file.
pub fn disk_cache_get(
    entries: &OrderedMap<String, CacheEntry>,
    key: &String,
    mtime: u64,
    size: u64,
) -> (res: Option<Probe>)
    ensures
        opt_probe(res) == hit(remembered(entries@), key@, mtime, size),
{
    match entries.get(key) {
        Some(e) => if e.mtime == mtime && e.size == size {
            Some(e.probe.copied())
        } else {
            None
        },
        None => None,
    }
}

/// What is to be written over a stored cache, where something is: nothing where it
/// holds the same file already, one entry where there is a stored cache, and all
/// that is remembered where there is none.
pub open spec fn contribution(
    base: Option<Map<Seq<char>, EntryModel>>,
    memory: Map<Seq<char>, EntryModel>,
    key: Seq<char>,
    entry: EntryModel,
) -> Option<Map<Seq<char>, EntryModel>> {
    match base {
        Some(b) => if hit(b, key, entry.mtime, entry.size) is Some {
            None
        } else {
            Some(Map::<Seq<char>, EntryModel>::empty().insert(key, entry))
        },
        None => Some(memory),
    }
}

/// A cache, as a model.
pub open spec fn opt_remembered(m: Option<OrderedMap<String, CacheEntry>>) -> Option<
    Map<Seq<char>, EntryModel>,
> {
    match m {
        Some(m) => Some(remembered(m@)),
        None => None,
    }
}

proof fn lemma_remembered_insert(m: Map<Seq<char>, CacheEntry>, k: Seq<char>, e: CacheEntry)
    ensures
        remembered(m.insert(k, e)) == remembered(m).insert(k, e@),
{
    assert(remembered(m.insert(k, e)) =~= remembered(m).insert(k, e@));
}

fn add_all(
    out: &mut OrderedMap<String, CacheEntry>,
    more: &OrderedMap<String, CacheEntry>,
)
    ensures
        remembered(final(out)@) == remembered(old(out)@).union_prefer_right(remembered(more@)),
{
    let ghost start = remembered(out@);
    let n = more.len();
    let mut i: usize = 0;
    let ghost mut added: Map<Seq<char>, EntryModel> = Map::empty();
    assert(start.union_prefer_right(added) =~= start);
    while i < n
        invariant
            i <= n,
            n == more.list().len(),
            more.listed(),
            remembered(out@) == start.union_prefer_right(added),
            forall|k: Seq<char>| #[trigger]
                added.contains_key(k) ==> remembered(more@).contains_key(k) && added[k]
                    == remembered(more@)[k],
            forall|j: int|
                0 <= j < i ==> added.contains_key((#[trigger] more.list()[j]).0@),
        decreases n - i,
    {
        let (k, e) = more.at(i);
        let copy = e.copied();
        proof {
            lemma_remembered_insert(out@, k@, copy);
            assert(more@.contains_key(more.list()[i as int].0.model()));
            let after = added.insert(k@, e@);
            assert(start.union_prefer_right(added).insert(k@, e@) =~= start.union_prefer_right(
                after,
            ));
            added = after;
        }
        out.insert(k.clone(), copy);
        i += 1;
    }
    proof {
        assert forall|k: Seq<char>| remembered(more@).contains_key(k) implies added.contains_key(
            k,
        ) by {
            let j = choose|j: int| #[trigger] key_at(more.list(), j, k);
            assert(more.list()[j].0@ == k);
        }
        assert(added =~= remembered(more@));
    }
}

/// Decides what is to be written over a stored cache.
pub fn put_contribution(
    base: &Option<OrderedMap<String, CacheEntry>>,
    memory: &OrderedMap<String, CacheEntry>,
    key: &String,
    entry: &CacheEntry,
) -> (res: Option<OrderedMap<String, CacheEntry>>)
    ensures
        opt_remembered(res) == contribution(
            opt_remembered(*base),
            remembered(memory@),
            key@,
            entry@,
        ),
{
    let mut out: OrderedMap<String, CacheEntry> = OrderedMap::new();
    assert(remembered(out@) =~= Map::<Seq<char>, EntryModel>::empty());
    match base {
        Some(b) => {
            if let Some(e) = b.get(key) {
                if e.mtime == entry.mtime && e.size == entry.size {
                    return None;
                }
            }
            let copy = entry.copied();
            proof {
                lemma_remembered_insert(out@, key@, copy);
            }
            out.insert(key.clone(), copy);
            Some(out)
        },
        None => {
            add_all(&mut out, memory);
            assert(Map::<Seq<char>, EntryModel>::empty().union_prefer_right(remembered(memory@))
                =~= remembered(memory@));
            Some(out)
        },
    }
}

/// Writes entries over a stored cache: ours win, and what only the stored cache
/// holds stays.
pub fn merge_entries(
    base: Option<OrderedMap<String, CacheEntry>>,
    snapshot: &OrderedMap<String, CacheEntry>,
) -> (res: OrderedMap<String, CacheEntry>)
    ensures
        remembered(res@) == merged_entries(opt_remembered(base), remembered(snapshot@)),
{
    match base {
        Some(b) => {
            let mut out = b;
            add_all(&mut out, snapshot);
            out
        },
        None => {
            let mut out: OrderedMap<String, CacheEntry> = OrderedMap::new();
            assert(remembered(out@) =~= Map::<Seq<char>, EntryModel>::empty());
            add_all(&mut out, snapshot);
            assert(Map::<Seq<char>, EntryModel>::empty().union_prefer_right(
                remembered(snapshot@),
            ) =~= remembered(snapshot@));
            out
        },
    }
}

/// What was written is found again, as long as the file stays the same; and what
/// else a stored cache held is found as before.
pub proof fn theorem_put_then_get(
    base: Map<Seq<char>, EntryModel>,
    memory: Map<Seq<char>, EntryModel>,
    key: Seq<char>,
    entry: EntryModel,
    other: Seq<char>,
    mtime: u64,
    size: u64,
)
    ensures
        ({
            let after = match contribution(Some(base), memory, key, entry) {
                Some(c) => base.union_prefer_right(c),
                None => base,
            };
            &&& hit(after, key, entry.mtime, entry.size) is Some
            &&& hit(base, key, entry.mtime, entry.size) is None ==> hit(
                after,
                key,
                entry.mtime,
                entry.size,
            ) == Some(entry.probe)
            &&& other != key ==> hit(after, other, mtime, size) == hit(base, other, mtime, size)
        }),
{
}

/// Where the cache of probes is, given what the environment says.
pub open spec fn probe_cache(
    set: Option<Seq<char>>,
    windows: bool,
    local: Option<Seq<char>>,
    cache_home: Option<Seq<char>>,
    home: Option<Seq<char>>,
) -> Option<Seq<char>> {
    let base = match set {
        Some(d) => Some(d),
        None => if windows {
            local
        } else {
            match cache_home {
                Some(b) => Some(b),
                None => match home {
                    Some(h) => Some(joined_path(windows, h, ".cache"@)),
                    None => None,
                },
            }
        },
    };
    match base {
        Some(b) => Some(joined_path(windows, joined_path(windows, b, "rstest"@), "interp-probes-v1.json"@)),
        None => None,
    }
}

/// Finds out where the cache of probes is.
pub fn cache_path(
    set: Option<String>,
    windows: bool,
    local: Option<String>,
    cache_home: Option<String>,
    home: Option<String>,
) -> (res: Option<String>)
    ensures
        opt_text(res) == probe_cache(
            opt_text(set),
            windows,
            opt_text(local),
            opt_text(cache_home),
            opt_text(home),
        ),
{
    let base = match set {
        Some(d) => Some(d),
        None => if windows {
            local
        } else {
            match cache_home {
                Some(b) => Some(b),
                None => match home {
                    Some(h) => Some(path_join(windows, h.as_str(), ".cache")),
                    None => None,
                },
            }
        },
    };
    match base {
        Some(b) => Some(
            path_join(windows, path_join(windows, b.as_str(), "rstest").as_str(), "interp-probes-v1.json"),
        ),
        None => None,
    }
}

/// What this process found of a candidate, however its path is written: the answer
/// that was noted last.
pub open spec fn recalled(
    windows: bool,
    memory: Seq<(String, Option<Probe>)>,
    candidate: Seq<char>,
) -> Option<Option<ProbeModel>>
    decreases memory.len(),
{
    if memory.len() == 0 {
        None
    } else if same_path(windows, memory.last().0@, candidate) {
        Some(opt_probe(memory.last().1))
    } else {
        recalled(windows, memory.drop_last(), candidate)
    }
}

/// An answer, as a model.
pub open spec fn opt_answer(a: Option<Option<Probe>>) -> Option<Option<ProbeModel>> {
    match a {
        Some(p) => Some(opt_probe(p)),
        None => None,
    }
}

fn recall(windows: bool, memory: &Vec<(String, Option<Probe>)>, candidate: &str) -> (res: Option<
    Option<Probe>,
>)
    ensures
        opt_answer(res) == recalled(windows, memory@, candidate@),
{
    let mut n = memory.len();
    assert(memory@.take(n as int) =~= memory@);
    while n > 0
        invariant
            n <= memory.len(),
            recalled(windows, memory@.take(n as int), candidate@) == recalled(
                windows,
                memory@,
                candidate@,
            ),
        decreases n,
    {
        assert(memory@.take(n as int).drop_last() =~= memory@.take(n - 1));
        let (path, found) = &memory[n - 1];
        if is_same_path(windows, path.as_str(), candidate) {
            return match found {
                Some(p) => Some(Some(p.copied())),
                None => Some(None),
            };
        }
        n -= 1;
    }
    None
}

/// Notes what this process found of a candidate.
pub fn remember(
    windows: bool,
    memory: &mut Vec<(String, Option<Probe>)>,
    candidate: &str,
    answer: &Option<Probe>,
)
    ensures
        forall|path: Seq<char>| #[trigger]
            recalled(windows, final(memory)@, path) == if same_path(windows, candidate@, path) {
                Some(opt_probe(*answer))
            } else {
                recalled(windows, old(memory)@, path)
            },
{
    let copy = match answer {
        Some(p) => Some(p.copied()),
        None => None,
    };
    let ghost before = memory@;
    memory.push((candidate.to_owned(), copy));
    assert(memory@.drop_last() =~= before);
}

/// What is known of a candidate without running it: what this process found, or
/// what is stored of its file.
pub open spec fn looked_up(
    found: Option<Option<ProbeModel>>,
    stored: Map<Seq<char>, EntryModel>,
    candidate: Seq<char>,
    fingerprint: Option<(u64, u64)>,
) -> Option<Option<ProbeModel>> {
    if found is Some {
        found
    } else {
        match fingerprint {
            Some((mtime, size)) => match hit(stored, candidate, mtime, size) {
                Some(p) => Some(Some(p)),
                None => None,
            },
            None => None,
        }
    }
}

/// Looks up a candidate without running it. The fingerprint of its file is given
/// for absolute paths only: a bare name may stand for another file tomorrow.
pub fn lookup(
    windows: bool,
    memory: &Vec<(String, Option<Probe>)>,
    stored: &OrderedMap<String, CacheEntry>,
    candidate: &String,
    fingerprint: Option<(u64, u64)>,
) -> (res: Option<Option<Probe>>)
    ensures
        opt_answer(res) == looked_up(
            recalled(windows, memory@, candidate@),
            remembered(stored@),
            candidate@,
            fingerprint,
        ),
{
    match recall(windows, memory, candidate.as_str()) {
        Some(found) => Some(found),
        None => match fingerprint {
            Some((mtime, size)) => match disk_cache_get(stored, candidate, mtime, size) {
                Some(p) => Some(Some(p)),
                None => None,
            },
            None => None,
        },
    }
}

/// Whether the answer of an interpreter that was run is stored: only where it can
/// run tests, for that can change while its file stays the same.
pub open spec fn worth_storing(
    fingerprint: Option<(u64, u64)>,
    answer: Option<ProbeModel>,
) -> bool {
    fingerprint is Some && answer is Some && answer.unwrap().worker_importable
}

/// Decides what is stored of an interpreter that was run.
pub fn to_store(fingerprint: Option<(u64, u64)>, answer: &Option<Probe>) -> (res: Option<
    CacheEntry,
>)
    ensures
        is_entry_for(res, fingerprint, opt_probe(*answer)),
{
    match fingerprint {
        Some((mtime, size)) => match answer {
            Some(p) => if p.worker_importable {
                Some(CacheEntry { mtime, size, probe: p.copied() })
            } else {
                None
            },
            None => None,
        },
        None => None,
    }
}

/// An interpreter that cannot run tests is run again every time.
pub proof fn theorem_negatives_are_not_stored(
    fingerprint: Option<(u64, u64)>,
    answer: Option<ProbeModel>,
)
    requires
        answer is Some ==> !answer.unwrap().worker_importable,
    ensures
        !worth_storing(fingerprint, answer),
{
}

/// What is stored after what is on disk and what is in memory are put together.
pub open spec fn merged_entries(
    base: Option<Map<Seq<char>, EntryModel>>,
    snapshot: Map<Seq<char>, EntryModel>,
) -> Map<Seq<char>, EntryModel> {
    match base {
        Some(b) => b.union_prefer_right(snapshot),
        None => snapshot,
    }
}

/// What is in memory counts, and what is only on disk is kept.
pub proof fn theorem_entries_are_put_together(
    base: Map<Seq<char>, EntryModel>,
    snapshot: Map<Seq<char>, EntryModel>,
    key: Seq<char>,
)
    ensures
        snapshot.contains_key(key) ==> merged_entries(Some(base), snapshot).contains_key(key)
            && merged_entries(Some(base), snapshot)[key] == snapshot[key],
        base.contains_key(key) && !snapshot.contains_key(key) ==> merged_entries(
            Some(base),
            snapshot,
        ).contains_key(key) && merged_entries(Some(base), snapshot)[key] == base[key],
        !base.contains_key(key) && !snapshot.contains_key(key) ==> !merged_entries(
            Some(base),
            snapshot,
        ).contains_key(key),
        merged_entries(None, snapshot) == snapshot,
{
}

/// An answer is remembered for the file as it was: one that has another time or another size
/// is asked anew.
pub proof fn theorem_changed_files_are_asked_anew(
    m: Map<Seq<char>, EntryModel>,
    key: Seq<char>,
    mtime: u64,
    size: u64,
)
    ensures
        hit(m, key, mtime, size) is Some <==> m.contains_key(key) && m[key].mtime == mtime
            && m[key].size == size,
        hit(m, key, mtime, size) matches Some(p) ==> p == m[key].probe,
{
}

/// An answer that the disk has already is not stored again; one that it has not is, alone, or
/// with all that is in memory where the disk has nothing.
pub proof fn theorem_what_is_stored(
    base: Map<Seq<char>, EntryModel>,
    memory: Map<Seq<char>, EntryModel>,
    key: Seq<char>,
    e: EntryModel,
)
    ensures
        contribution(None, memory, key, e) == Some(memory),
        base.contains_key(key) && base[key].mtime == e.mtime && base[key].size == e.size
            ==> contribution(Some(base), memory, key, e) is None,
        !base.contains_key(key) || base[key].mtime != e.mtime || base[key].size != e.size ==> (
        contribution(Some(base), memory, key, e) matches Some(m) && m.contains_key(key) && m[key]
            == e && forall|k: Seq<char>| #[trigger] m.contains_key(k) ==> k == key),
{
}

/// Where answers are stored: below the directory that is set, and else where caches are.
pub proof fn theorem_where_answers_are_stored(
    dir: Seq<char>,
    windows: bool,
    local: Option<Seq<char>>,
    cache_home: Option<Seq<char>>,
    home: Option<Seq<char>>,
)
    ensures
        probe_cache(Some(dir), windows, local, cache_home, home) == Some(
            joined_path(windows, joined_path(windows, dir, "rstest"@), "interp-probes-v1.json"@),
        ),
        probe_cache(None, true, Some(dir), cache_home, home) == probe_cache(
            Some(dir),
            true,
            None,
            None,
            None,
        ),
        probe_cache(None, true, None, cache_home, home) is None,
        probe_cache(None, false, local, Some(dir), home) == probe_cache(
            Some(dir),
            false,
            None,
            None,
            None,
        ),
        probe_cache(None, false, local, None, Some(dir)) == probe_cache(
            Some(joined_path(false, dir, ".cache"@)),
            false,
            None,
            None,
            None,
        ),
        probe_cache(None, false, local, None, None) is None,
{
}

/// The last answer for a path counts, and an answer in memory before one on disk.
pub proof fn theorem_last_answer_counts(
    windows: bool,
    memory: Seq<(String, Option<Probe>)>,
    given: (String, Option<Probe>),
    candidate: Seq<char>,
    stored: Map<Seq<char>, EntryModel>,
    fingerprint: Option<(u64, u64)>,
)
    ensures
        same_path(windows, given.0@, candidate) ==> recalled(windows, memory.push(given), candidate)
            == Some(opt_probe(given.1)),
        !same_path(windows, given.0@, candidate) ==> recalled(
            windows,
            memory.push(given),
            candidate,
        ) == recalled(windows, memory, candidate),
        recalled(windows, Seq::empty(), candidate) is None,
        recalled(windows, memory, candidate) is Some ==> looked_up(
            recalled(windows, memory, candidate),
            stored,
            candidate,
            fingerprint,
        ) == recalled(windows, memory, candidate),
        fingerprint is None ==> looked_up(None, stored, candidate, fingerprint) is None,
        fingerprint matches Some((mtime, size)) ==> (hit(
            stored,
            candidate,
            mtime,
            size,
        ) matches Some(p) ==> looked_up(None, stored, candidate, fingerprint) == Some(Some(p))),
{
    assert(memory.push(given).drop_last() =~= memory);
}

/// An answer is worth storing where the file is known and the interpreter can run tests.
pub proof fn theorem_answers_worth_storing(p: ProbeModel, mtime: u64, size: u64)
    ensures
        worth_storing(Some((mtime, size)), Some(p)) <==> p.worker_importable,
        !worth_storing(None, Some(p)),
        !worth_storing(Some((mtime, size)), None),
{
}

/// Whether `res` is what is stored of an answer.
pub open spec fn is_entry_for(
    res: Option<CacheEntry>,
    fingerprint: Option<(u64, u64)>,
    answer: Option<ProbeModel>,
) -> bool {
    match res {
        Some(e) => worth_storing(fingerprint, answer) && (e.mtime, e.size) == fingerprint.unwrap()
            && e.probe@ == answer.unwrap(),
        None => !worth_storing(fingerprint, answer),
    }
}

/// What is stored of an answer is found again for the file as it was, and for no other.
pub proof fn theorem_stored_answers_are_found(
    res: Option<CacheEntry>,
    p: ProbeModel,
    mtime: u64,
    size: u64,
    m: Map<Seq<char>, EntryModel>,
    key: Seq<char>,
    other: (u64, u64),
)
    requires
        is_entry_for(res, Some((mtime, size)), Some(p)),
    ensures
        res is Some <==> p.worker_importable,
        res matches Some(e) ==> hit(m.insert(key, e@), key, mtime, size) == Some(p),
        res matches Some(e) ==> (other != (mtime, size) ==> hit(
            m.insert(key, e@),
            key,
            other.0,
            other.1,
        ) is None),
{
}

} // verus!
