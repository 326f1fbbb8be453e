//! Why test ids differ between runs, and why tests fail only in parallel.

use super::outcomes::{waited, Phase, Rec};
use crate::nodeids::{file_of, file_part};
use crate::numbers::{dec_len, decimal};
use crate::order::strictly_ascending;
use crate::ordered_map::{OrderedMap, TextSet};
use crate::paths::{joined_path, path_join};
use crate::patterns::{regex_search, search};
use crate::text::{clone_texts, opt_text, str_eq, texts};
use vstd::prelude::*;

verus! {

broadcast use {crate::text::lemma_texts_push, crate::text::lemma_texts_add};

/// Why the id of a parameter differs between runs.
#[derive(Clone, Copy, Debug, PartialEq, Eq, Structural)]
pub enum Kind {
    /// An address in memory.
    Address,
    Uuid,
    /// A date or a time.
    Time,
    Other,
}

impl Kind {
    /// Whether such an id differs in every process, so that no run can succeed.
    pub open spec fn bails(self) -> bool {
        self == Kind::Address || self == Kind::Uuid
    }

    /// The name of the kind.
    pub open spec fn name(self) -> Seq<char> {
        match self {
            Kind::Address => "address"@,
            Kind::Uuid => "uuid"@,
            Kind::Time => "time"@,
            Kind::Other => "other"@,
        }
    }

    /// What to do about such an id.
    pub open spec fn remedy(self) -> Seq<char> {
        match self {
            Kind::Address => "give this parametrize stable ids= (its default id falls back to repr(), hence the address)"@,
            Kind::Uuid => "give this parametrize stable ids= (don't derive the id from a uuid)"@,
            Kind::Time => "freeze the clock for this parametrize source, or pass explicit ids="@,
            Kind::Other => "pin this parametrize's ids= to stable labels"@,
        }
    }

    /// Whether such an id differs in every process.
    pub fn will_bail(self) -> (res: bool)
        ensures
            res == self.bails(),
    {
        self == Kind::Address || self == Kind::Uuid
    }

    /// Names the kind.
    pub fn label(self) -> (res: String)
        ensures
            res@ == self.name(),
    {
        match self {
            Kind::Address => "address".to_owned(),
            Kind::Uuid => "uuid".to_owned(),
            Kind::Time => "time".to_owned(),
            Kind::Other => "other".to_owned(),
        }
    }

    /// Says what to do about such an id.
    pub fn fix(self) -> (res: String)
        ensures
            res@ == self.remedy(),
    {
        match self {
            Kind::Address => "give this parametrize stable ids= (its default id falls back to repr(), hence the address)".to_owned(),
            Kind::Uuid => "give this parametrize stable ids= (don't derive the id from a uuid)".to_owned(),
            Kind::Time => "freeze the clock for this parametrize source, or pass explicit ids=".to_owned(),
            Kind::Other => "pin this parametrize's ids= to stable labels".to_owned(),
        }
    }
}

/// What an address in memory looks like.
pub open spec fn address_pattern() -> Seq<char> {
    "0x[0-9a-fA-F]{6,}"@
}

/// What a UUID looks like.
pub open spec fn uuid_pattern() -> Seq<char> {
    "[0-9a-fA-F]{8}-[0-9a-fA-F]{4}-[0-9a-fA-F]{4}-[0-9a-fA-F]{4}-[0-9a-fA-F]{12}"@
}

/// What a date or a time looks like.
pub open spec fn time_pattern() -> Seq<char> {
    "\\b\\d{4}-\\d{2}-\\d{2}\\b|\\b\\d{2}:\\d{2}:\\d{2}\\b|datetime|\\d{10,}"@
}

/// The kind of an id, by what is found in it: an address first, then a UUID, then
/// a time.
pub open spec fn kind_by(
    address: Option<bool>,
    uuid: Option<bool>,
    time: Option<bool>,
) -> Kind {
    if address == Some(true) {
        Kind::Address
    } else if uuid == Some(true) {
        Kind::Uuid
    } else if time == Some(true) {
        Kind::Time
    } else {
        Kind::Other
    }
}

/// Decides on the kind of an id by what is found in it.
pub fn kind_found(address: bool, uuid: bool, time: bool) -> (res: Kind)
    ensures
        res == kind_by(Some(address), Some(uuid), Some(time)),
{
    if address {
        Kind::Address
    } else if uuid {
        Kind::Uuid
    } else if time {
        Kind::Time
    } else {
        Kind::Other
    }
}

/// Decides on the kind of an id.
pub fn classify(param: &str) -> (res: Kind)
    ensures
        res == kind_by(
            regex_search(address_pattern(), param@),
            regex_search(uuid_pattern(), param@),
            regex_search(time_pattern(), param@),
        ),
{
    let address = search("0x[0-9a-fA-F]{6,}", param);
    let uuid = search(
        "[0-9a-fA-F]{8}-[0-9a-fA-F]{4}-[0-9a-fA-F]{4}-[0-9a-fA-F]{4}-[0-9a-fA-F]{12}",
        param,
    );
    let time = search(
        "\\b\\d{4}-\\d{2}-\\d{2}\\b|\\b\\d{2}:\\d{2}:\\d{2}\\b|datetime|\\d{10,}",
        param,
    );
    kind_found(
        matches!(address, Some(true)),
        matches!(uuid, Some(true)),
        matches!(time, Some(true)),
    )
}

/// Why a test failed in parallel.
#[derive(Clone, Copy, Debug, PartialEq, Eq, Structural)]
pub enum Verdict {
    /// It fails in series too.
    NotParallel,
    /// It passes and fails in series.
    IntrinsicFlake,
    /// It passes in series and file by file.
    OrderDependency,
    /// It fails in parallel and was mostly waiting.
    WallClock,
    /// It fails in parallel and file by file.
    Isolation,
    /// It was missing from a run.
    Inconclusive,
}

impl Verdict {
    /// The title of the verdict.
    pub open spec fn heading(self) -> Seq<char> {
        match self {
            Verdict::NotParallel => "NOT PARALLEL-SPECIFIC"@,
            Verdict::IntrinsicFlake => "INTRINSIC FLAKE"@,
            Verdict::OrderDependency => "ORDER DEPENDENCY"@,
            Verdict::WallClock => "WALL-CLOCK / LOAD-SENSITIVE"@,
            Verdict::Isolation => "ISOLATION / CO-LOCATION"@,
            Verdict::Inconclusive => "INCONCLUSIVE"@,
        }
    }

    /// Why the verdict was reached, and what to do.
    pub open spec fn counsel(self) -> (Seq<char>, Seq<char>) {
        match self {
            Verdict::NotParallel => (
                "fails at -n 0 too — not a parallelism issue; a plain bug or env gap"@,
                "fix the test (or its environment)"@,
            ),
            Verdict::IntrinsicFlake => (
                "serial repeats disagree — flaky under ANY runner, not parallelism"@,
                "fix the flake (mock the clock / remove the race); --reruns hides it"@,
            ),
            Verdict::OrderDependency => (
                "passes serial and under --dist loadfile, fails under -n auto (load)"@,
                "run this suite with --dist loadfile, or fix the in-file order coupling"@,
            ),
            Verdict::WallClock => (
                "passes serial, fails parallel, and is wait-bound (wall >> cpu) — a real-time deadline that misses when the machine is oversubscribed"@,
                "mock the clock / drop the tight upper bound; stopgap -n 4 or @pytest.mark.serial"@,
            ),
            Verdict::Isolation => (
                "passes serial, fails under both load and loadfile — co-located state leak"@,
                "reset the leaked global state per test; stopgap @pytest.mark.serial"@,
            ),
            Verdict::Inconclusive => (
                "did not run in a -n 0 / loadfile follow-up run, so it can't be classified"@,
                "check the nodeid is stable across collections (`rstest migrate-check`) and that the follow-up runs collect it"@,
            ),
        }
    }

    /// The title of the verdict.
    pub fn title(&self) -> (res: String)
        ensures
            res@ == self.heading(),
    {
        match self {
            Verdict::NotParallel => "NOT PARALLEL-SPECIFIC".to_owned(),
            Verdict::IntrinsicFlake => "INTRINSIC FLAKE".to_owned(),
            Verdict::OrderDependency => "ORDER DEPENDENCY".to_owned(),
            Verdict::WallClock => "WALL-CLOCK / LOAD-SENSITIVE".to_owned(),
            Verdict::Isolation => "ISOLATION / CO-LOCATION".to_owned(),
            Verdict::Inconclusive => "INCONCLUSIVE".to_owned(),
        }
    }

    /// Why the verdict was reached, and what to do.
    pub fn advice(&self) -> (res: (String, String))
        ensures
            (res.0@, res.1@) == self.counsel(),
    {
        match self {
            Verdict::NotParallel => (
                "fails at -n 0 too — not a parallelism issue; a plain bug or env gap".to_owned(),
                "fix the test (or its environment)".to_owned(),
            ),
            Verdict::IntrinsicFlake => (
                "serial repeats disagree — flaky under ANY runner, not parallelism".to_owned(),
                "fix the flake (mock the clock / remove the race); --reruns hides it".to_owned(),
            ),
            Verdict::OrderDependency => (
                "passes serial and under --dist loadfile, fails under -n auto (load)".to_owned(),
                "run this suite with --dist loadfile, or fix the in-file order coupling".to_owned(),
            ),
            Verdict::WallClock => (
                "passes serial, fails parallel, and is wait-bound (wall >> cpu) — a real-time deadline that misses when the machine is oversubscribed".to_owned(),
                "mock the clock / drop the tight upper bound; stopgap -n 4 or @pytest.mark.serial".to_owned(),
            ),
            Verdict::Isolation => (
                "passes serial, fails under both load and loadfile — co-located state leak".to_owned(),
                "reset the leaked global state per test; stopgap @pytest.mark.serial".to_owned(),
            ),
            Verdict::Inconclusive => (
                "did not run in a -n 0 / loadfile follow-up run, so it can't be classified".to_owned(),
                "check the nodeid is stable across collections (`rstest migrate-check`) and that the follow-up runs collect it".to_owned(),
            ),
        }
    }
}

/// The verdict on a test that failed in parallel, by whether it failed in all and
/// in some serial runs, in a run file by file, and whether it was mostly waiting.
pub open spec fn verdict(all: bool, any: bool, loadfile: bool, waiting: bool) -> Verdict {
    if all && any {
        Verdict::NotParallel
    } else if all || any {
        Verdict::IntrinsicFlake
    } else if !loadfile {
        Verdict::OrderDependency
    } else if waiting {
        Verdict::WallClock
    } else {
        Verdict::Isolation
    }
}

/// Decides on a test that failed in parallel.
pub fn decide(serial1: bool, serial2: bool, loadfile: bool, wait_bound: bool) -> (res: Verdict)
    ensures
        res == verdict(serial1, serial2, loadfile, wait_bound),
{
    if serial1 && serial2 {
        Verdict::NotParallel
    } else if serial1 || serial2 {
        Verdict::IntrinsicFlake
    } else if !loadfile {
        Verdict::OrderDependency
    } else if wait_bound {
        Verdict::WallClock
    } else {
        Verdict::Isolation
    }
}

/// Whether a test failed in a run.
pub open spec fn failed_in(run: Map<Seq<char>, Rec>, id: Seq<char>) -> bool {
    run.contains_key(id) && run[id].phase == Phase::Fail
}

/// Whether a test is in all of some runs.
pub open spec fn ran_in_all(runs: Seq<OrderedMap<String, Rec>>, id: Seq<char>) -> bool {
    forall|i: int| 0 <= i < runs.len() ==> (#[trigger] runs[i])@.contains_key(id)
}

/// Whether a test failed in all of some runs.
pub open spec fn failed_all(runs: Seq<OrderedMap<String, Rec>>, id: Seq<char>) -> bool {
    forall|i: int| 0 <= i < runs.len() ==> failed_in((#[trigger] runs[i])@, id)
}

/// Whether a test failed in some of some runs.
pub open spec fn failed_some(runs: Seq<OrderedMap<String, Rec>>, id: Seq<char>) -> bool {
    exists|i: int| 0 <= i < runs.len() && failed_in((#[trigger] runs[i])@, id)
}

/// The verdict on a test that failed in parallel, given what became of it there,
/// in serial runs and in runs file by file. A test that is missing from any run
/// is not judged.
pub open spec fn judged(
    parallel: Map<Seq<char>, Rec>,
    serial: Seq<OrderedMap<String, Rec>>,
    loadfile: Seq<OrderedMap<String, Rec>>,
    id: Seq<char>,
) -> Verdict {
    if ran_in_all(serial, id) && ran_in_all(loadfile, id) {
        verdict(
            failed_all(serial, id),
            failed_some(serial, id),
            failed_some(loadfile, id),
            parallel.contains_key(id) && waited(parallel[id]),
        )
    } else {
        Verdict::Inconclusive
    }
}

fn check_all(runs: &[OrderedMap<String, Rec>], id: &String) -> (res: (bool, bool, bool))
    ensures
        res.0 == ran_in_all(runs@, id@),
        res.1 == failed_all(runs@, id@),
        res.2 == failed_some(runs@, id@),
{
    let mut ran = true;
    let mut all = true;
    let mut any = false;
    let mut i: usize = 0;
    while i < runs.len()
        invariant
            i <= runs.len(),
            ran == forall|j: int| 0 <= j < i ==> (#[trigger] runs@[j])@.contains_key(id@),
            all == forall|j: int| 0 <= j < i ==> failed_in((#[trigger] runs@[j])@, id@),
            any == exists|j: int| 0 <= j < i && failed_in((#[trigger] runs@[j])@, id@),
        decreases runs.len() - i,
    {
        let found = runs[i].get(id);
        let fails = match found {
            Some(r) => r.phase == Phase::Fail,
            None => false,
        };
        assert(fails == failed_in(runs@[i as int]@, id@));
        if found.is_none() {
            ran = false;
        }
        if !fails {
            all = false;
        } else {
            any = true;
        }
        i += 1;
    }
    (ran, all, any)
}

/// The tests that failed, in ascending order.
pub open spec fn failures(run: Seq<(String, Rec)>) -> Seq<Seq<char>>
    decreases run.len(),
{
    if run.len() == 0 {
        Seq::empty()
    } else {
        let before = failures(run.drop_last());
        if run.last().1.phase == Phase::Fail {
            before.push(run.last().0@)
        } else {
            before
        }
    }
}

/// Lists the tests that failed, in ascending order.
pub fn failed_tests(run: &OrderedMap<String, Rec>) -> (res: Vec<String>)
    ensures
        texts(res@) == failures(run.list()),
{
    let n = run.len();
    let ghost all = run.list();
    let mut out: Vec<String> = Vec::new();
    let mut i: usize = 0;
    assert(texts(out@) =~= failures(all.take(0)));
    while i < n
        invariant
            i <= n,
            n == all.len(),
            all == run.list(),
            texts(out@) == failures(all.take(i as int)),
        decreases n - i,
    {
        let (id, r) = run.at(i);
        proof {
            assert(all.take(i + 1).drop_last() =~= all.take(i as int));
            assert(all.take(i + 1).last() == all[i as int]);
        }
        if r.phase == Phase::Fail {
            out.push(id.clone());
        }
        i += 1;
    }
    assert(all.take(n as int) =~= all);
    out
}

/// Judges the tests that failed in parallel.
pub fn judge_failures(
    parallel: &OrderedMap<String, Rec>,
    serial: &[OrderedMap<String, Rec>],
    loadfile: &[OrderedMap<String, Rec>],
) -> (res: Vec<(String, Verdict)>)
    ensures
        res@.len() == failures(parallel.list()).len(),
        forall|i: int|
            0 <= i < res@.len() ==> (#[trigger] res@[i]).0@ == failures(parallel.list())[i]
                && res@[i].1 == judged(parallel@, serial@, loadfile@, res@[i].0@),
{
    let failed = failed_tests(parallel);
    let mut out: Vec<(String, Verdict)> = Vec::new();
    let mut i: usize = 0;
    while i < failed.len()
        invariant
            i <= failed.len(),
            out@.len() == i,
            forall|j: int|
                0 <= j < i ==> (#[trigger] out@[j]).0@ == failed@[j]@ && out@[j].1 == judged(
                    parallel@,
                    serial@,
                    loadfile@,
                    out@[j].0@,
                ),
        decreases failed.len() - i,
    {
        let id = &failed[i];
        let (ran, all, any) = check_all(serial, id);
        let (ran_too, _, any_loadfile) = check_all(loadfile, id);
        let v = if ran && ran_too {
            let waiting = match parallel.get(id) {
                Some(r) => r.wait_bound(),
                None => false,
            };
            decide(all, any, any_loadfile, waiting)
        } else {
            Verdict::Inconclusive
        };
        out.push((id.clone(), v));
        i += 1;
    }
    proof {
        assert forall|j: int| 0 <= j < out@.len() implies (#[trigger] out@[j]).0@ == failures(
            parallel.list(),
        )[j] by {
            assert(texts(failed@)[j] == failed@[j]@);
        }
    }
    out
}

/// A test that is missing from a serial run or a run file by file is never taken
/// for one that passed.
pub proof fn theorem_missing_is_inconclusive(
    parallel: Map<Seq<char>, Rec>,
    serial: Seq<OrderedMap<String, Rec>>,
    loadfile: Seq<OrderedMap<String, Rec>>,
    id: Seq<char>,
    i: int,
)
    requires
        0 <= i < serial.len() && !serial[i]@.contains_key(id) || 0 <= i < loadfile.len()
            && !loadfile[i]@.contains_key(id),
    ensures
        judged(parallel, serial, loadfile, id) == Verdict::Inconclusive,
{
}

/// With at least one serial run, a test that is blamed on running in parallel
/// passed in every serial run.
pub proof fn theorem_parallel_verdicts_passed_serially(
    parallel: Map<Seq<char>, Rec>,
    serial: Seq<OrderedMap<String, Rec>>,
    loadfile: Seq<OrderedMap<String, Rec>>,
    id: Seq<char>,
    i: int,
)
    requires
        0 <= i < serial.len(),
        judged(parallel, serial, loadfile, id) == Verdict::OrderDependency || judged(
            parallel,
            serial,
            loadfile,
            id,
        ) == Verdict::WallClock || judged(parallel, serial, loadfile, id) == Verdict::Isolation,
    ensures
        serial[i]@.contains_key(id),
        serial[i]@[id].phase == Phase::Pass,
{
    assert(serial[i]@.contains_key(id));
    if failed_in(serial[i]@, id) {
        assert(failed_some(serial, id));
    }
}

/// The files of some tests.
pub open spec fn files_of(ids: Seq<Seq<char>>) -> Set<Seq<char>> {
    ids.map_values(|id: Seq<char>| file_part(id)).to_set()
}

/// The files of some tests.
pub fn test_files(ids: &[String]) -> (res: TextSet)
    ensures
        res@ == files_of(texts(ids@)),
{
    let mut files: Vec<String> = Vec::new();
    let ghost all = texts(ids@);
    let mut i: usize = 0;
    while i < ids.len()
        invariant
            i <= ids.len(),
            files.len() == i,
            forall|j: int| 0 <= j < i ==> (#[trigger] files@[j])@ == file_part(ids@[j]@),
        decreases ids.len() - i,
    {
        files.push(file_of(ids[i].as_str()));
        i += 1;
    }
    assert(texts(files@) =~= all.map_values(|id: Seq<char>| file_part(id)));
    TextSet::from_list(files.as_slice())
}

/// Where the failures come from, as they are looked for.
pub enum Polluter {
    /// The test fails when its own file runs alone.
    SameFile(String),
    /// The test fails when this file runs before it.
    OtherFile(String),
    /// No serial order makes it fail.
    NotReproducible,
}

/// Where a failure comes from.
pub ghost enum PolluterModel {
    SameFile(Seq<char>),
    OtherFile(Seq<char>),
    NotReproducible,
}

impl View for Polluter {
    type V = PolluterModel;

    open spec fn view(&self) -> PolluterModel {
        match self {
            Polluter::SameFile(f) => PolluterModel::SameFile(f@),
            Polluter::OtherFile(f) => PolluterModel::OtherFile(f@),
            Polluter::NotReproducible => PolluterModel::NotReproducible,
        }
    }
}

/// What the search for a polluter asks next: does the test fail when some files run
/// before its own?
pub ghost enum Hunt {
    /// When nothing runs before it.
    Alone,
    /// When all other files do.
    All(Seq<Seq<char>>),
    /// When the first half of some files does, with so many questions left.
    First(Seq<Seq<char>>, int),
    /// When the second half does.
    Second(Seq<Seq<char>>, int),
    /// Nothing more.
    Done(PolluterModel),
}

/// How many questions are asked about halves.
pub const BUDGET: i64 = 14;

impl Hunt {
    /// The files that are asked about.
    pub open spec fn question(self) -> Seq<Seq<char>> {
        match self {
            Hunt::All(files) => files,
            Hunt::First(files, _) => files.take((files.len() / 2) as int),
            Hunt::Second(files, _) => files.skip((files.len() / 2) as int),
            _ => Seq::empty(),
        }
    }

    /// Goes on with files that are known to make the test fail.
    pub open spec fn narrow(files: Seq<Seq<char>>, budget: int) -> Hunt {
        if files.len() > 1 && budget > 0 {
            Hunt::First(files, budget)
        } else if files.len() > 0 {
            Hunt::Done(PolluterModel::OtherFile(files[0]))
        } else {
            Hunt::Done(PolluterModel::NotReproducible)
        }
    }

    /// What comes after an answer, for a test in `own`, with these other files.
    pub open spec fn next(self, own: Seq<char>, others: Seq<Seq<char>>, yes: bool) -> Hunt {
        match self {
            Hunt::Alone => if yes {
                Hunt::Done(PolluterModel::SameFile(own))
            } else {
                Hunt::All(others)
            },
            Hunt::All(files) => if yes {
                Hunt::narrow(files, BUDGET as int)
            } else {
                Hunt::Done(PolluterModel::NotReproducible)
            },
            Hunt::First(files, budget) => if yes {
                Hunt::narrow(files.take((files.len() / 2) as int), budget - 1)
            } else {
                Hunt::Second(files, budget - 1)
            },
            Hunt::Second(files, budget) => if yes {
                Hunt::narrow(files.skip((files.len() / 2) as int), budget - 1)
            } else {
                Hunt::Done(PolluterModel::OtherFile(files[0]))
            },
            Hunt::Done(p) => Hunt::Done(p),
        }
    }
}

/// Whether some call of the oracle on these files gave `answer`.
pub open spec fn reproduced<E, F: FnMut(&[String]) -> Result<bool, E>>(
    oracle: F,
    asked: Seq<Seq<char>>,
    answer: Result<bool, E>,
) -> bool {
    exists|s: &[String]| texts(s@) == asked && #[trigger] call_ensures(oracle, (s,), answer)
}

/// Whether `res` is what the search gives from `h` on when the oracle, asked one
/// question after the other, gives `answers`.
pub open spec fn hunted<E, F: FnMut(&[String]) -> Result<bool, E>>(
    oracle: F,
    h: Hunt,
    own: Seq<char>,
    others: Seq<Seq<char>>,
    answers: Seq<Result<bool, E>>,
    res: Result<PolluterModel, E>,
) -> bool
    decreases answers.len(),
{
    match h {
        Hunt::Done(p) => answers.len() == 0 && res == Ok::<PolluterModel, E>(p),
        _ => answers.len() > 0 && reproduced::<E, F>(oracle, h.question(), answers[0]) && (match answers[0] {
            Err(e) => answers.len() == 1 && res == Err::<PolluterModel, E>(e),
            Ok(yes) => hunted::<E, F>(oracle, h.next(own, others, yes), own, others, answers.skip(1), res),
        }),
    }
}

/// A result with the characters of its file.
pub open spec fn polluter_shown<E>(res: Result<Polluter, E>) -> Result<PolluterModel, E> {
    match res {
        Ok(p) => Ok(p@),
        Err(e) => Err(e),
    }
}

/// Whether every way on from `h` is a way on from the start.
spec fn reachable<E, F: FnMut(&[String]) -> Result<bool, E>>(
    oracle: F,
    h: Hunt,
    own: Seq<char>,
    others: Seq<Seq<char>>,
    asked: Seq<Result<bool, E>>,
) -> bool {
    forall|rest: Seq<Result<bool, E>>, r: Result<PolluterModel, E>|
        hunted::<E, F>(oracle, h, own, others, rest, r) ==> #[trigger] hunted::<E, F>(
            oracle,
            Hunt::Alone,
            own,
            others,
            asked + rest,
            r,
        )
}

proof fn lemma_hunt_on<E, F: FnMut(&[String]) -> Result<bool, E>>(
    oracle: F,
    h: Hunt,
    own: Seq<char>,
    others: Seq<Seq<char>>,
    asked: Seq<Result<bool, E>>,
    yes: bool,
)
    requires
        !(h is Done),
        reachable::<E, F>(oracle, h, own, others, asked),
        reproduced::<E, F>(oracle, h.question(), Ok(yes)),
    ensures
        reachable::<E, F>(oracle, h.next(own, others, yes), own, others, asked.push(Ok(yes))),
{
    assert forall|rest: Seq<Result<bool, E>>, r: Result<PolluterModel, E>|
        hunted::<E, F>(oracle, h.next(own, others, yes), own, others, rest, r) implies #[trigger] hunted::<
        E,
        F,
    >(oracle, Hunt::Alone, own, others, asked.push(Ok(yes)) + rest, r) by {
        let more: Seq<Result<bool, E>> = seq![Ok(yes)] + rest;
        assert(more.skip(1) =~= rest);
        assert(hunted::<E, F>(oracle, h, own, others, more, r));
        assert(asked + more =~= asked.push(Ok(yes)) + rest);
    }
}

proof fn lemma_hunt_fails<E, F: FnMut(&[String]) -> Result<bool, E>>(
    oracle: F,
    h: Hunt,
    own: Seq<char>,
    others: Seq<Seq<char>>,
    asked: Seq<Result<bool, E>>,
    e: E,
)
    requires
        !(h is Done),
        reachable::<E, F>(oracle, h, own, others, asked),
        reproduced::<E, F>(oracle, h.question(), Err(e)),
    ensures
        hunted::<E, F>(oracle, Hunt::Alone, own, others, asked + seq![Err(e)], Err(e)),
{
    let rest: Seq<Result<bool, E>> = seq![Err(e)];
    assert(hunted::<E, F>(oracle, h, own, others, rest, Err(e)));
}

proof fn lemma_hunt_ends<E, F: FnMut(&[String]) -> Result<bool, E>>(
    oracle: F,
    p: PolluterModel,
    own: Seq<char>,
    others: Seq<Seq<char>>,
    asked: Seq<Result<bool, E>>,
)
    requires
        reachable::<E, F>(oracle, Hunt::Done(p), own, others, asked),
    ensures
        hunted::<E, F>(oracle, Hunt::Alone, own, others, asked, Ok(p)),
{
    let rest: Seq<Result<bool, E>> = Seq::empty();
    assert(hunted::<E, F>(oracle, Hunt::Done(p), own, others, rest, Ok(p)));
    assert(asked + rest =~= asked);
}

fn slice_texts(v: &Vec<String>, from: usize, to: usize) -> (res: Vec<String>)
    requires
        from <= to <= v@.len(),
    ensures
        texts(res@) == texts(v@).subrange(from as int, to as int),
{
    let mut out: Vec<String> = Vec::new();
    let mut i: usize = from;
    assert(texts(out@) =~= texts(v@).subrange(from as int, from as int));
    while i < to
        invariant
            from <= i <= to <= v@.len(),
            texts(out@) == texts(v@).subrange(from as int, i as int),
        decreases to - i,
    {
        let ghost before = texts(out@);
        out.push(v[i].clone());
        i += 1;
        assert(texts(v@).subrange(from as int, i as int) =~= before.push(v@[i - 1]@));
    }
    out
}

/// Whether a list is a stretch of another.
pub open spec fn is_stretch(part: Seq<Seq<char>>, all: Seq<Seq<char>>) -> bool {
    exists|from: int, to: int|
        0 <= from <= to <= all.len() && part == #[trigger] all.subrange(from, to)
}

/// A stretch of a stretch is one.
proof fn lemma_stretch(part: Seq<Seq<char>>, all: Seq<Seq<char>>, a: int, b: int)
    requires
        is_stretch(part, all),
        0 <= a <= b <= part.len(),
    ensures
        is_stretch(part.subrange(a, b), all),
{
    let (from, to) = choose|from: int, to: int|
        0 <= from <= to <= all.len() && part == #[trigger] all.subrange(from, to);
    assert(part.subrange(a, b) =~= all.subrange(from + a, from + b));
}

/// Looks for the file that makes a test fail when it runs before it: the test's own
/// file first, then all others, then ever smaller halves of them.
#[verifier::spinoff_prover]
#[verifier::rlimit(60)]
pub fn bisect_polluter<E, F: FnMut(&[String]) -> Result<bool, E>>(
    own: &str,
    others: &[String],
    reproduce: F,
) -> (res: Result<Polluter, E>)
    requires
        forall|s: &[String]|
            is_stretch(texts(s@), texts(others@)) ==> #[trigger] call_requires(reproduce, (s,)),
    ensures
        exists|answers: Seq<Result<bool, E>>| #[trigger]
            hunted::<E, F>(reproduce, Hunt::Alone, own@, texts(others@), answers, polluter_shown(res)),
{
    let ghost oracle = reproduce;
    let mut ask = reproduce;
    let ghost all = texts(others@);
    let ghost mut asked: Seq<Result<bool, E>> = Seq::empty();
    let none: Vec<String> = Vec::new();
    proof {
        assert forall|rest: Seq<Result<bool, E>>, r: Result<PolluterModel, E>|
            hunted::<E, F>(oracle, Hunt::Alone, own@, all, rest, r) implies #[trigger] hunted::<E, F>(
            oracle,
            Hunt::Alone,
            own@,
            all,
            asked + rest,
            r,
        ) by {
            assert(asked + rest =~= rest);
        }
        assert(texts(none@) =~= Hunt::Alone.question());
        assert(texts(none@) =~= all.subrange(0, 0));
        assert(all =~= all.subrange(0, all.len() as int));
        assert(is_stretch(texts(none@), all) && is_stretch(all, all));
    }
    match ask(none.as_slice()) {
        Err(e) => {
            proof {
                lemma_hunt_fails::<E, F>(oracle, Hunt::Alone, own@, all, asked, e);
            }
            return Err(e);
        },
        Ok(yes) => {
            proof {
                lemma_hunt_on::<E, F>(oracle, Hunt::Alone, own@, all, asked, yes);
                asked = asked.push(Ok(yes));
            }
            if yes {
                let p = Polluter::SameFile(own.to_owned());
                proof {
                    lemma_hunt_ends::<E, F>(oracle, p@, own@, all, asked);
                }
                return Ok(p);
            }
        },
    }
    match ask(others) {
        Err(e) => {
            proof {
                lemma_hunt_fails::<E, F>(oracle, Hunt::All(all), own@, all, asked, e);
            }
            return Err(e);
        },
        Ok(yes) => {
            proof {
                lemma_hunt_on::<E, F>(oracle, Hunt::All(all), own@, all, asked, yes);
                asked = asked.push(Ok(yes));
            }
            if !yes {
                proof {
                    lemma_hunt_ends::<E, F>(oracle, PolluterModel::NotReproducible, own@, all, asked);
                }
                return Ok(Polluter::NotReproducible);
            }
        },
    }
    let mut files = clone_texts(others);
    let mut budget: i64 = BUDGET;
    while files.len() > 1 && budget > 0
        invariant
            forall|s: &[String]|
                is_stretch(texts(s@), texts(others@)) ==> #[trigger] call_requires(ask, (s,)),
            is_stretch(texts(files@), all),
            ask == oracle,
            oracle == reproduce,
            all == texts(others@),
            -1 <= budget <= BUDGET,
            reachable::<E, F>(oracle, Hunt::narrow(texts(files@), budget as int), own@, all, asked),
        decreases budget + 1,
    {
        let mid = files.len() / 2;
        let ghost now = texts(files@);
        let first = slice_texts(&files, 0, mid);
        let ghost h = Hunt::First(now, budget as int);
        assert(texts(first@) =~= h.question());
        proof {
            lemma_stretch(now, all, 0, mid as int);
            lemma_stretch(now, all, mid as int, now.len() as int);
        }
        budget -= 1;
        match ask(first.as_slice()) {
            Err(e) => {
                proof {
                    lemma_hunt_fails::<E, F>(oracle, h, own@, all, asked, e);
                }
                return Err(e);
            },
            Ok(yes) => {
                proof {
                    lemma_hunt_on::<E, F>(oracle, h, own@, all, asked, yes);
                    asked = asked.push(Ok(yes));
                }
                if yes {
                    files = first;
                    continue ;
                }
            },
        }
        let second = slice_texts(&files, mid, files.len());
        let ghost h = Hunt::Second(now, budget as int);
        assert(texts(second@) =~= h.question());
        budget -= 1;
        match ask(second.as_slice()) {
            Err(e) => {
                proof {
                    lemma_hunt_fails::<E, F>(oracle, h, own@, all, asked, e);
                }
                return Err(e);
            },
            Ok(yes) => {
                proof {
                    lemma_hunt_on::<E, F>(oracle, h, own@, all, asked, yes);
                    asked = asked.push(Ok(yes));
                }
                if yes {
                    files = second;
                } else {
                    let p = Polluter::OtherFile(files[0].clone());
                    proof {
                        assert(now[0] == files@[0]@);
                        lemma_hunt_ends::<E, F>(oracle, p@, own@, all, asked);
                    }
                    return Ok(p);
                }
            },
        }
    }
    if files.len() > 0 {
        let p = Polluter::OtherFile(files[0].clone());
        proof {
            assert(texts(files@)[0] == files@[0]@);
            lemma_hunt_ends::<E, F>(oracle, p@, own@, all, asked);
        }
        Ok(p)
    } else {
        proof {
            lemma_hunt_ends::<E, F>(oracle, PolluterModel::NotReproducible, own@, all, asked);
        }
        Ok(Polluter::NotReproducible)
    }
}

/// Whether asking about a set of files that begins with `file` gave yes.
pub open spec fn blamed_set<E, F: FnMut(&[String]) -> Result<bool, E>>(
    oracle: F,
    file: Seq<char>,
) -> bool {
    exists|set: Seq<Seq<char>>| #[trigger]
        reproduced::<E, F>(oracle, set, Ok(true)) && set.len() > 0 && set[0] == file
}

/// A file is blamed only where a set of files that begins with it made the test
/// fail; the test's own file only where it fails alone; and another file only
/// where the test did not fail alone.
pub proof fn theorem_blame_was_reproduced<E, F: FnMut(&[String]) -> Result<bool, E>>(
    oracle: F,
    own: Seq<char>,
    others: Seq<Seq<char>>,
    answers: Seq<Result<bool, E>>,
    p: PolluterModel,
)
    requires
        hunted::<E, F>(oracle, Hunt::Alone, own, others, answers, Ok(p)),
    ensures
        match p {
            PolluterModel::SameFile(f) => f == own && reproduced::<E, F>(oracle, Seq::empty(), Ok(true)),
            PolluterModel::OtherFile(f) => others.contains(f) && blamed_set::<E, F>(oracle, f)
                && reproduced::<E, F>(oracle, Seq::empty(), Ok(false)),
            PolluterModel::NotReproducible => reproduced::<E, F>(oracle, Seq::empty(), Ok(false)),
        },
{
    assert(answers[0] is Ok);
    let yes = answers[0]->Ok_0;
    let rest = answers.skip(1);
    assert(answers[0] == Ok::<bool, E>(yes));
    if yes {
        assert(hunted::<E, F>(
            oracle,
            Hunt::Done(PolluterModel::SameFile(own)),
            own,
            others,
            rest,
            Ok(p),
        ));
    } else {
        assert(hunted::<E, F>(oracle, Hunt::All(others), own, others, rest, Ok(p)));
        let second = rest[0]->Ok_0;
        assert(rest[0] == Ok::<bool, E>(second));
        if second {
            lemma_narrow_blames::<E, F>(
                oracle,
                others,
                BUDGET as int,
                own,
                others,
                rest.skip(1),
                p,
            );
        } else {
            assert(hunted::<E, F>(
                oracle,
                Hunt::Done(PolluterModel::NotReproducible),
                own,
                others,
                rest.skip(1),
                Ok(p),
            ));
        }
    }
}

proof fn lemma_narrow_blames<E, F: FnMut(&[String]) -> Result<bool, E>>(
    oracle: F,
    files: Seq<Seq<char>>,
    budget: int,
    own: Seq<char>,
    others: Seq<Seq<char>>,
    answers: Seq<Result<bool, E>>,
    p: PolluterModel,
)
    requires
        hunted::<E, F>(oracle, Hunt::narrow(files, budget), own, others, answers, Ok(p)),
        reproduced::<E, F>(oracle, files, Ok(true)),
        forall|i: int| 0 <= i < files.len() ==> others.contains(#[trigger] files[i]),
    ensures
        match p {
            PolluterModel::OtherFile(f) => others.contains(f) && blamed_set::<E, F>(oracle, f),
            PolluterModel::NotReproducible => true,
            PolluterModel::SameFile(_) => false,
        },
    decreases answers.len(),
{
    if files.len() > 1 && budget > 0 {
        let mid = (files.len() / 2) as int;
        let h = Hunt::First(files, budget);
        assert(hunted::<E, F>(oracle, h, own, others, answers, Ok(p)));
        let yes = answers[0]->Ok_0;
        let rest = answers.skip(1);
        assert(answers[0] == Ok::<bool, E>(yes));
        if yes {
            let half = files.take(mid);
            assert forall|i: int| 0 <= i < half.len() implies others.contains(#[trigger] half[i]) by {
                assert(half[i] == files[i]);
            }
            lemma_narrow_blames::<E, F>(oracle, half, budget - 1, own, others, rest, p);
        } else {
            let h2 = Hunt::Second(files, budget - 1);
            assert(hunted::<E, F>(oracle, h2, own, others, rest, Ok(p)));
            let again = rest[0]->Ok_0;
            assert(rest[0] == Ok::<bool, E>(again));
            if again {
                let half = files.skip(mid);
                assert forall|i: int| 0 <= i < half.len() implies others.contains(
                    #[trigger] half[i],
                ) by {
                    assert(half[i] == files[i + mid]);
                }
                lemma_narrow_blames::<E, F>(oracle, half, budget - 2, own, others, rest.skip(1), p);
            } else {
                assert(hunted::<E, F>(
                    oracle,
                    Hunt::Done(PolluterModel::OtherFile(files[0])),
                    own,
                    others,
                    rest.skip(1),
                    Ok(p),
                ));
                assert(others.contains(files[0]));
                assert(blamed_set::<E, F>(oracle, files[0]));
            }
        }
    } else if files.len() > 0 {
        assert(others.contains(files[0]));
        assert(blamed_set::<E, F>(oracle, files[0]));
    }
}

/// The ids of the tests of a run.
pub open spec fn ids_in(run: Seq<(String, Rec)>) -> Seq<Seq<char>> {
    Seq::new(run.len(), |i: int| run[i].0@)
}

/// Lists the files of the tests of a run but for one, in ascending order.
pub fn other_files(run: &OrderedMap<String, Rec>, own: &str) -> (res: Vec<String>)
    ensures
        strictly_ascending(texts(res@)),
        texts(res@).to_set() == files_of(ids_in(run.list())).remove(own@),
{
    let n = run.len();
    let mut ids: Vec<String> = Vec::new();
    let mut i: usize = 0;
    while i < n
        invariant
            i <= n,
            n == run.list().len(),
            ids.len() == i,
            forall|j: int| 0 <= j < i ==> (#[trigger] ids@[j])@ == run.list()[j].0@,
        decreases n - i,
    {
        ids.push(run.at(i).0.clone());
        i += 1;
    }
    assert(texts(ids@) =~= ids_in(run.list()));
    let all = test_files(ids.as_slice());
    let m = all.len();
    let ghost list = all.list();
    let mut out = TextSet::new();
    let mut k: usize = 0;
    while k < m
        invariant
            k <= m,
            m == list.len(),
            list == all.list(),
            all.listed(),
            forall|x: Seq<char>| #[trigger] out@.contains(x) ==> all@.contains(x) && x != own@,
            forall|j: int| 0 <= j < k && #[trigger] list[j] != own@ ==> out@.contains(list[j]),
        decreases m - k,
    {
        let f = all.at(k);
        assert(list.contains(list[k as int]));
        if !str_eq(f.as_str(), own) {
            out.insert(f.clone());
        }
        k += 1;
    }
    proof {
        assert forall|x: Seq<char>| #![auto] out@.contains(x) == all@.remove(own@).contains(x) by {
            if all@.contains(x) {
                assert(list.contains(x));
                let j = choose|j: int| 0 <= j < list.len() && list[j] == x;
                assert(list[j] == x);
            }
        }
        assert(out@ =~= all@.remove(own@));
    }
    out.to_list()
}

/// What is run to see whether a test fails after some files: the files, the test's
/// own file, and the user's arguments.
pub fn polluter_args(subset: &[String], own: &str, args: &[String]) -> (res: Vec<String>)
    ensures
        texts(res@) == texts(subset@).push(own@) + texts(args@),
{
    let mut out = clone_texts(subset);
    out.push(own.to_owned());
    let mut more = clone_texts(args);
    out.append(&mut more);
    out
}

/// Files as they are named below a directory, where there is one.
pub open spec fn anchored(
    windows: bool,
    files: Seq<Seq<char>>,
    root: Option<Seq<char>>,
) -> Seq<Seq<char>> {
    Seq::new(
        files.len(),
        |i: int|
            match root {
                Some(r) => joined_path(windows, r, files[i]),
                None => files[i],
            },
    )
}

/// The arguments of the runs that tell why tests failed: their files, the pins of
/// the collection, the user's arguments, and no limit on failures.
pub fn scoped_args(
    files: &[String],
    root: &Option<String>,
    pins: &[String],
    args: &[String],
    windows: bool,
) -> (res: Vec<String>)
    ensures
        texts(res@) == scoped(
            windows,
            texts(files@),
            opt_text(*root),
            texts(pins@),
            texts(args@),
        ),
{
    let mut out: Vec<String> = Vec::new();
    let mut i: usize = 0;
    while i < files.len()
        invariant
            i <= files.len(),
            out.len() == i,
            forall|j: int|
                0 <= j < i ==> (#[trigger] out@[j])@ == (match opt_text(*root) {
                    Some(r) => joined_path(windows, r, files@[j]@),
                    None => files@[j]@,
                }),
        decreases files.len() - i,
    {
        out.push(
            match root {
                Some(r) => path_join(windows, r.as_str(), files[i].as_str()),
                None => files[i].clone(),
            },
        );
        i += 1;
    }
    assert(texts(out@) =~= anchored(windows, texts(files@), opt_text(*root)));
    let mut more = clone_texts(pins);
    out.append(&mut more);
    let mut more = clone_texts(args);
    out.append(&mut more);
    out.push("--maxfail=0".to_owned());
    out
}

/// How often the failed tests run again in series and file by file: at least twice
/// and at least once.
pub fn repeats(repeat: usize) -> (res: (usize, usize))
    ensures
        res == runs_for(repeat),
{
    (
        if repeat < 2 {
            2
        } else {
            repeat
        },
        if repeat < 1 {
            1
        } else {
            repeat
        },
    )
}

/// What is printed before the failed tests run again.
pub open spec fn discriminators_text(
    failed: usize,
    files: usize,
    serial: usize,
    loadfile: usize,
) -> Seq<char> {
    "  "@ + decimal(failed as nat) + " parallel failure(s) in "@ + decimal(files as nat)
        + " file(s); running discriminators (serial ×"@ + decimal(serial as nat) + ", loadfile ×"@
        + decimal(loadfile as nat) + ", scoped to those files)…"@
}

/// Writes what is printed before the failed tests run again.
pub fn discriminators(failed: usize, files: usize, serial: usize, loadfile: usize) -> (res: String)
    ensures
        res@ == discriminators_text(failed, files, serial, loadfile),
{
    let mut out = String::from_str("  ");
    out.append(dec_len(failed).as_str());
    out.append(" parallel failure(s) in ");
    out.append(dec_len(files).as_str());
    out.append(" file(s); running discriminators (serial ×");
    out.append(dec_len(serial).as_str());
    out.append(", loadfile ×");
    out.append(dec_len(loadfile).as_str());
    out.append(", scoped to those files)…");
    out
}

/// The arguments of a run whose results are read back from a file.
pub fn session_args(config: &[String], args: &[String], report: &str) -> (res: Vec<String>)
    ensures
        texts(res@) == with_report(texts(config@), texts(args@), report@),
{
    let mut out = clone_texts(config);
    let mut more = clone_texts(args);
    out.append(&mut more);
    let mut last: Vec<String> = Vec::new();
    last.push("--report-json".to_owned());
    last.push(report.to_owned());
    last.push("--worker-timeout".to_owned());
    last.push("120".to_owned());
    last.push("-q".to_owned());
    last.push("--output".to_owned());
    last.push("dots".to_owned());
    assert(texts(last@) =~= seq![
        "--report-json"@,
        report@,
        "--worker-timeout"@,
        "120"@,
        "-q"@,
        "--output"@,
        "dots"@,
    ]);
    out.append(&mut last);
    out
}

/// The arguments of a session that only collects.
pub fn collect_args(args: &[String]) -> (res: Vec<String>)
    ensures
        texts(res@) == collecting(texts(args@)),
{
    let mut out = clone_texts(args);
    if !crate::cli::is_collect_only(args) {
        out.push("--collect-only".to_owned());
    }
    out
}

/// How many serial runs there are, and how many file by file.
pub open spec fn runs_for(repeat: usize) -> (usize, usize) {
    (
        if repeat < 2 {
            2
        } else {
            repeat
        },
        if repeat < 1 {
            1
        } else {
            repeat
        },
    )
}

/// The arguments with which tests are only collected.
pub open spec fn collecting(args: Seq<Seq<char>>) -> Seq<Seq<char>> {
    if args.contains("--collect-only"@) || args.contains("--co"@) {
        args
    } else {
        args.push("--collect-only"@)
    }
}

/// A test that failed in parallel is judged by what it does elsewhere. It is no matter of
/// running in parallel where it fails in every serial run, and flaky where it fails in
/// some of them. Where it passes in all of them, its order matters if it also passes file
/// by file; else it misses a deadline if it was mostly waiting, and is not isolated if
/// not.
pub proof fn theorem_failures_are_judged_by_other_runs(
    parallel: Map<Seq<char>, Rec>,
    serial: Seq<OrderedMap<String, Rec>>,
    loadfile: Seq<OrderedMap<String, Rec>>,
    id: Seq<char>,
    i: int,
    j: int,
)
    requires
        forall|k: int| 0 <= k < serial.len() ==> (#[trigger] serial[k])@.contains_key(id),
        forall|k: int| 0 <= k < loadfile.len() ==> (#[trigger] loadfile[k])@.contains_key(id),
        0 <= i < serial.len(),
        0 <= j < serial.len(),
    ensures
        (forall|k: int|
            0 <= k < serial.len() ==> (#[trigger] serial[k])@[id].phase == Phase::Fail) ==> judged(
            parallel,
            serial,
            loadfile,
            id,
        ) == Verdict::NotParallel,
        serial[i]@[id].phase == Phase::Fail && serial[j]@[id].phase == Phase::Pass ==> judged(
            parallel,
            serial,
            loadfile,
            id,
        ) == Verdict::IntrinsicFlake,
        (forall|k: int|
            0 <= k < serial.len() ==> (#[trigger] serial[k])@[id].phase == Phase::Pass) ==> {
            &&& (forall|k: int|
                0 <= k < loadfile.len() ==> (#[trigger] loadfile[k])@[id].phase == Phase::Pass)
                ==> judged(parallel, serial, loadfile, id) == Verdict::OrderDependency
            &&& (exists|k: int|
                0 <= k < loadfile.len() && (#[trigger] loadfile[k])@[id].phase == Phase::Fail)
                ==> judged(parallel, serial, loadfile, id) == (if parallel.contains_key(id)
                && waited(parallel[id]) {
                Verdict::WallClock
            } else {
                Verdict::Isolation
            })
        },
{
    assert(serial[i]@.contains_key(id) && serial[j]@.contains_key(id));
    if forall|k: int| 0 <= k < serial.len() ==> (#[trigger] serial[k])@[id].phase == Phase::Fail {
        assert(failed_in(serial[i]@, id));
        assert(failed_some(serial, id));
        assert(failed_all(serial, id));
    }
    if serial[i]@[id].phase == Phase::Fail && serial[j]@[id].phase == Phase::Pass {
        assert(failed_in(serial[i]@, id));
        assert(!failed_in(serial[j]@, id));
    }
    if forall|k: int| 0 <= k < serial.len() ==> (#[trigger] serial[k])@[id].phase == Phase::Pass {
        assert(!failed_in(serial[i]@, id));
        assert(!failed_some(serial, id));
        if exists|k: int|
            0 <= k < loadfile.len() && (#[trigger] loadfile[k])@[id].phase == Phase::Fail {
            let k = choose|k: int|
                0 <= k < loadfile.len() && (#[trigger] loadfile[k])@[id].phase == Phase::Fail;
            assert(failed_in(loadfile[k]@, id));
        }
    }
}

/// Two serial runs that agree on a failure clear parallel running of it, and two that do
/// not agree show a flake, whatever the other runs say.
pub proof fn theorem_serial_runs_decide(serial1: bool, serial2: bool, loadfile: bool, waiting: bool)
    ensures
        serial1 && serial2 <==> verdict(serial1, serial2, loadfile, waiting)
            == Verdict::NotParallel,
        serial1 != serial2 <==> verdict(serial1, serial2, loadfile, waiting)
            == Verdict::IntrinsicFlake,
        verdict(false, false, false, waiting) == Verdict::OrderDependency,
        verdict(false, false, true, true) == Verdict::WallClock,
        verdict(false, false, true, false) == Verdict::Isolation,
{
}

/// The failed tests of a run are listed: all of them, and no others.
pub proof fn theorem_failed_tests_are_listed(run: Seq<(String, Rec)>, id: Seq<char>)
    ensures
        failures(run).contains(id) <==> exists|i: int|
            0 <= i < run.len() && (#[trigger] run[i]).0@ == id && run[i].1.phase == Phase::Fail,
        failures(run).len() <= run.len(),
    decreases run.len(),
{
    if run.len() > 0 {
        let init = run.drop_last();
        let before = failures(init);
        let all = failures(run);
        theorem_failed_tests_are_listed(init, id);
        if all.contains(id) {
            let k = choose|k: int| 0 <= k < all.len() && all[k] == id;
            if k < before.len() {
                assert(before[k] == id);
                assert(before.contains(id));
                let i = choose|i: int|
                    0 <= i < init.len() && (#[trigger] init[i]).0@ == id && init[i].1.phase
                        == Phase::Fail;
                assert(run[i] == init[i]);
            } else {
                assert(run[run.len() - 1].0@ == id);
            }
        }
        if exists|i: int|
            0 <= i < run.len() && (#[trigger] run[i]).0@ == id && run[i].1.phase == Phase::Fail {
            let i = choose|i: int|
                0 <= i < run.len() && (#[trigger] run[i]).0@ == id && run[i].1.phase
                    == Phase::Fail;
            if i < init.len() {
                assert(init[i] == run[i]);
                let k = choose|k: int| 0 <= k < before.len() && before[k] == id;
                assert(all[k] == id);
            } else {
                assert(all[all.len() - 1] == id);
            }
        }
    }
}

/// The files of tests are those that their ids name.
pub proof fn theorem_files_of_tests(ids: Seq<Seq<char>>, f: Seq<char>)
    ensures
        files_of(ids).contains(f) <==> exists|i: int|
            0 <= i < ids.len() && file_part(#[trigger] ids[i]) == f,
{
    let v = ids.map_values(|id: Seq<char>| file_part(id));
    if files_of(ids).contains(f) {
        let i = choose|i: int| 0 <= i < v.len() && v[i] == f;
        assert(file_part(ids[i]) == f);
    }
    if exists|i: int| 0 <= i < ids.len() && file_part(#[trigger] ids[i]) == f {
        let i = choose|i: int| 0 <= i < ids.len() && file_part(#[trigger] ids[i]) == f;
        assert(v[i] == f);
    }
}

/// There are as many runs as were asked for, but two serial ones at least, for only two
/// can disagree, and one file by file.
pub proof fn theorem_runs_that_judge(repeat: usize)
    ensures
        runs_for(repeat).0 >= 2 && runs_for(repeat).1 >= 1,
        repeat >= 2 ==> runs_for(repeat) == (repeat, repeat),
        runs_for(1) == (2usize, 1usize),
        runs_for(0) == (2usize, 1usize),
{
}

/// Tests that are to be collected only are not run: the flag is there once it is asked
/// for, and all other arguments stay.
pub proof fn theorem_collecting_asks_for_it(args: Seq<Seq<char>>)
    ensures
        collecting(args).contains("--collect-only"@) || args.contains("--co"@),
        collecting(args).take(args.len() as int) == args,
        args.contains("--collect-only"@) || args.contains("--co"@) ==> collecting(args) == args,
{
    let c = collecting(args);
    assert(c.take(args.len() as int) =~= args);
    if !args.contains("--collect-only"@) && !args.contains("--co"@) {
        assert(c[args.len() as int] == "--collect-only"@);
    }
}

/// Ids that hold an address or a UUID differ in every process; those with a date or a time
/// need not. What is found first in this order counts.
pub proof fn theorem_kinds_of_unstable_ids(uuid: Option<bool>, time: Option<bool>, other: Option<bool>)
    ensures
        kind_by(Some(true), uuid, time) == Kind::Address,
        other != Some(true) ==> kind_by(other, Some(true), time) == Kind::Uuid,
        other != Some(true) && uuid != Some(true) ==> kind_by(other, uuid, Some(true))
            == Kind::Time,
        other != Some(true) && uuid != Some(true) && time != Some(true) ==> kind_by(
            other,
            uuid,
            time,
        ) == Kind::Other,
        Kind::Address.bails() && Kind::Uuid.bails() && !Kind::Time.bails() && !Kind::Other.bails(),
        Kind::Address.name() == "address"@,
        Kind::Uuid.name() == "uuid"@,
        Kind::Time.name() == "time"@,
        Kind::Other.name() == "other"@,
{
}

/// Another file is blamed only where all other files together made the test fail, and no
/// file is where they did not.
pub proof fn theorem_other_files_are_tried_together<E, F: FnMut(&[String]) -> Result<bool, E>>(
    oracle: F,
    own: Seq<char>,
    others: Seq<Seq<char>>,
    answers: Seq<Result<bool, E>>,
    p: PolluterModel,
)
    requires
        hunted::<E, F>(oracle, Hunt::Alone, own, others, answers, Ok(p)),
        others.len() > 0,
    ensures
        p matches PolluterModel::OtherFile(_) ==> reproduced::<E, F>(oracle, others, Ok(true)),
        p matches PolluterModel::NotReproducible ==> reproduced::<E, F>(oracle, others, Ok(false)),
{
    let yes = answers[0]->Ok_0;
    let rest = answers.skip(1);
    assert(answers[0] == Ok::<bool, E>(yes));
    if yes {
        assert(hunted::<E, F>(
            oracle,
            Hunt::Done(PolluterModel::SameFile(own)),
            own,
            others,
            rest,
            Ok(p),
        ));
    } else {
        assert(hunted::<E, F>(oracle, Hunt::All(others), own, others, rest, Ok(p)));
        let second = rest[0]->Ok_0;
        assert(rest[0] == Ok::<bool, E>(second));
        if second {
            lemma_narrow_blames::<E, F>(
                oracle,
                others,
                BUDGET as int,
                own,
                others,
                rest.skip(1),
                p,
            );
            lemma_narrow_finds_one::<E, F>(
                oracle,
                others,
                BUDGET as int,
                own,
                others,
                rest.skip(1),
                p,
            );
        } else {
            assert(hunted::<E, F>(
                oracle,
                Hunt::Done(PolluterModel::NotReproducible),
                own,
                others,
                rest.skip(1),
                Ok(p),
            ));
        }
    }
}

proof fn lemma_narrow_finds_one<E, F: FnMut(&[String]) -> Result<bool, E>>(
    oracle: F,
    files: Seq<Seq<char>>,
    budget: int,
    own: Seq<char>,
    others: Seq<Seq<char>>,
    answers: Seq<Result<bool, E>>,
    p: PolluterModel,
)
    requires
        hunted::<E, F>(oracle, Hunt::narrow(files, budget), own, others, answers, Ok(p)),
        files.len() > 0,
    ensures
        p matches PolluterModel::OtherFile(_),
    decreases answers.len(),
{
    if files.len() > 1 && budget > 0 {
        let half = (files.len() / 2) as int;
        let yes = answers[0]->Ok_0;
        let rest = answers.skip(1);
        assert(answers[0] == Ok::<bool, E>(yes));
        if yes {
            lemma_narrow_finds_one::<E, F>(
                oracle,
                files.take(half),
                budget - 1,
                own,
                others,
                rest,
                p,
            );
        } else {
            assert(hunted::<E, F>(
                oracle,
                Hunt::Second(files, budget - 1),
                own,
                others,
                rest,
                Ok(p),
            ));
            let second = rest[0]->Ok_0;
            assert(rest[0] == Ok::<bool, E>(second));
            if second {
                lemma_narrow_finds_one::<E, F>(
                    oracle,
                    files.skip(half),
                    budget - 2,
                    own,
                    others,
                    rest.skip(1),
                    p,
                );
            } else {
                assert(hunted::<E, F>(
                    oracle,
                    Hunt::Done(PolluterModel::OtherFile(files[0])),
                    own,
                    others,
                    rest.skip(1),
                    Ok(p),
                ));
            }
        }
    }
}

/// How many files can be told apart with so many questions.
spec fn told_apart_with(budget: int) -> nat
    decreases budget + 2,
{
    if budget <= 0 {
        1
    } else {
        2 * told_apart_with(budget - 2)
    }
}

proof fn lemma_more_questions_tell_more(budget: int)
    ensures
        told_apart_with(budget) >= 1,
        told_apart_with(budget - 1) <= told_apart_with(budget),
    decreases budget + 2,
{
    if budget > 0 {
        lemma_more_questions_tell_more(budget - 2);
        lemma_more_questions_tell_more(budget - 1);
    }
}

/// Whether the test fails just where `file` runs before it.
pub open spec fn polluted_by<E, F: FnMut(&[String]) -> Result<bool, E>>(
    oracle: F,
    file: Seq<char>,
) -> bool {
    forall|s: &[String], answer: Result<bool, E>| #[trigger]
        call_ensures(oracle, (s,), answer) ==> answer == Ok::<bool, E>(texts(s@).contains(file))
}

proof fn lemma_narrow_finds<E, F: FnMut(&[String]) -> Result<bool, E>>(
    oracle: F,
    file: Seq<char>,
    files: Seq<Seq<char>>,
    budget: int,
    own: Seq<char>,
    others: Seq<Seq<char>>,
    answers: Seq<Result<bool, E>>,
    res: Result<PolluterModel, E>,
)
    requires
        polluted_by::<E, F>(oracle, file),
        files.contains(file),
        files.len() <= told_apart_with(budget),
        hunted::<E, F>(oracle, Hunt::narrow(files, budget), own, others, answers, res),
    ensures
        res == Ok::<PolluterModel, E>(PolluterModel::OtherFile(file)),
    decreases answers.len(),
{
    if files.len() > 1 && budget > 0 {
        let half = (files.len() / 2) as int;
        let first = files.take(half);
        let last = files.skip(half);
        let rest = answers.skip(1);
        let h = Hunt::First(files, budget);
        assert(h.question() == first);
        let s = choose|s: &[String]|
            texts(s@) == first && #[trigger] call_ensures(oracle, (s,), answers[0]);
        assert(answers[0] == Ok::<bool, E>(first.contains(file)));
        lemma_more_questions_tell_more(budget - 1);
        let at = choose|at: int| 0 <= at < files.len() && files[at] == file;
        if first.contains(file) {
            lemma_narrow_finds::<E, F>(
                oracle,
                file,
                first,
                budget - 1,
                own,
                others,
                rest,
                res,
            );
        } else {
            assert(at >= half) by {
                if at < half {
                    assert(first[at] == file);
                }
            }
            assert(last[at - half] == file);
            let g = Hunt::Second(files, budget - 1);
            assert(hunted::<E, F>(oracle, g, own, others, rest, res));
            assert(g.question() == last);
            let t = choose|t: &[String]|
                texts(t@) == last && #[trigger] call_ensures(oracle, (t,), rest[0]);
            assert(rest[0] == Ok::<bool, E>(last.contains(file)));
            assert(last.contains(file));
            lemma_narrow_finds::<E, F>(
                oracle,
                file,
                last,
                budget - 2,
                own,
                others,
                rest.skip(1),
                res,
            );
        }
    } else {
        lemma_more_questions_tell_more(budget);
        assert(files.len() == 1);
    }
}

/// Where one file of up to a hundred and twenty-eight makes a test fail, that file is
/// found.
pub proof fn theorem_the_polluter_is_found<E, F: FnMut(&[String]) -> Result<bool, E>>(
    oracle: F,
    own: Seq<char>,
    others: Seq<Seq<char>>,
    file: Seq<char>,
    answers: Seq<Result<bool, E>>,
    res: Result<PolluterModel, E>,
)
    requires
        polluted_by::<E, F>(oracle, file),
        others.contains(file),
        others.len() <= 128,
        hunted::<E, F>(oracle, Hunt::Alone, own, others, answers, res),
    ensures
        res == Ok::<PolluterModel, E>(PolluterModel::OtherFile(file)),
{
    let none = Seq::<Seq<char>>::empty();
    let s = choose|s: &[String]|
        texts(s@) == none && #[trigger] call_ensures(oracle, (s,), answers[0]);
    assert(answers[0] == Ok::<bool, E>(none.contains(file)));
    let rest = answers.skip(1);
    assert(hunted::<E, F>(oracle, Hunt::All(others), own, others, rest, res));
    let t = choose|t: &[String]|
        texts(t@) == others && #[trigger] call_ensures(oracle, (t,), rest[0]);
    assert(rest[0] == Ok::<bool, E>(others.contains(file)));
    reveal_with_fuel(told_apart_with, 9);
    lemma_narrow_finds::<E, F>(
        oracle,
        file,
        others,
        BUDGET as int,
        own,
        others,
        rest.skip(1),
        res,
    );
}

/// A test that fails when nothing runs before it is its own file's matter.
pub proof fn theorem_failing_alone_blames_its_own_file<E, F: FnMut(&[String]) -> Result<bool, E>>(
    oracle: F,
    own: Seq<char>,
    others: Seq<Seq<char>>,
    answers: Seq<Result<bool, E>>,
    res: Result<PolluterModel, E>,
)
    requires
        forall|s: &[String], answer: Result<bool, E>| #[trigger]
            call_ensures(oracle, (s,), answer) ==> answer == Ok::<bool, E>(true),
        hunted::<E, F>(oracle, Hunt::Alone, own, others, answers, res),
    ensures
        res == Ok::<PolluterModel, E>(PolluterModel::SameFile(own)),
        answers.len() == 1,
{
    let none = Seq::<Seq<char>>::empty();
    let s = choose|s: &[String]|
        texts(s@) == none && #[trigger] call_ensures(oracle, (s,), answers[0]);
    assert(answers[0] == Ok::<bool, E>(true));
    assert(hunted::<E, F>(
        oracle,
        Hunt::Done(PolluterModel::SameFile(own)),
        own,
        others,
        answers.skip(1),
        res,
    ));
}

/// The arguments of the runs that tell why tests failed.
pub open spec fn scoped(
    windows: bool,
    files: Seq<Seq<char>>,
    root: Option<Seq<char>>,
    pins: Seq<Seq<char>>,
    args: Seq<Seq<char>>,
) -> Seq<Seq<char>> {
    (anchored(windows, files, root) + pins + args).push("--maxfail=0"@)
}

/// The arguments of a run that writes a report.
pub open spec fn with_report(
    config: Seq<Seq<char>>,
    args: Seq<Seq<char>>,
    report: Seq<char>,
) -> Seq<Seq<char>> {
    config + args + seq![
        "--report-json"@,
        report,
        "--worker-timeout"@,
        "120"@,
        "-q"@,
        "--output"@,
        "dots"@,
    ]
}

/// Runs that tell why tests failed have the files of those tests first, below the root where
/// it is known, and no limit on failures, whatever the arguments say.
pub proof fn theorem_runs_have_the_files_first(
    windows: bool,
    files: Seq<Seq<char>>,
    root: Option<Seq<char>>,
    pins: Seq<Seq<char>>,
    args: Seq<Seq<char>>,
    i: int,
)
    ensures
        ({
            let all = scoped(windows, files, root, pins, args);
            &&& all.len() == files.len() + pins.len() + args.len() + 1
            &&& all.last() == "--maxfail=0"@
            &&& 0 <= i < files.len() && root is None ==> all[i] == files[i]
            &&& 0 <= i < files.len() ==> (root matches Some(r) ==> all[i] == joined_path(
                windows,
                r,
                files[i],
            ))
            &&& 0 <= i < pins.len() ==> all[files.len() + i] == pins[i]
            &&& 0 <= i < args.len() ==> all[files.len() + pins.len() + i] == args[i]
        }),
{
}

/// A run writes its report where it is told to, after what is configured and what is given.
pub proof fn theorem_runs_write_their_report(
    config: Seq<Seq<char>>,
    args: Seq<Seq<char>>,
    report: Seq<char>,
    i: int,
)
    ensures
        ({
            let all = with_report(config, args, report);
            let n = (config.len() + args.len()) as int;
            &&& all.len() == n + 7
            &&& all[n] == "--report-json"@ && all[n + 1] == report
            &&& all[n + 2] == "--worker-timeout"@ && all[n + 3] == "120"@
            &&& all[n + 4] == "-q"@ && all[n + 5] == "--output"@ && all[n + 6] == "dots"@
            &&& 0 <= i < config.len() ==> all[i] == config[i]
            &&& 0 <= i < args.len() ==> all[config.len() + i] == args[i]
        }),
{
}

} // verus!
