//! What became of the tests in a run.

use crate::double::{Double, TWENTIETH, ZERO};
use crate::json_doc::{
    json_document, json_entry, json_keys, json_number, json_text, json_tree, parse_json, JsonTree,
};
use crate::ordered_map::OrderedMap;
use crate::text::{str_eq, texts};
use vstd::prelude::*;

verus! {

/// Whether a test passed.
#[derive(Clone, Copy, Debug, PartialEq, Eq, Structural)]
pub enum Phase {
    Pass,
    /// It failed, or broke down in any phase.
    Fail,
}

/// What became of a test.
#[derive(Clone, Copy, Debug, PartialEq, Eq, Structural)]
pub struct Rec {
    pub phase: Phase,
    /// How long it took.
    pub wall: Double,
    /// How long it was computing, where that was measured.
    pub cpu: Option<Double>,
}

/// Whether a test spent more than half of its time waiting, and enough time for
/// that to mean something.
pub open spec fn waited(r: Rec) -> bool {
    r.cpu matches Some(c) && r.wall.at_least(Double { bits: TWENTIETH }) && c.less(r.wall.halved())
}

impl Rec {
    /// Whether a test spent more than half of its time waiting.
    pub fn wait_bound(&self) -> (res: bool)
        ensures
            res == waited(*self),
    {
        match self.cpu {
            Some(c) => self.wall.ge(&Double { bits: TWENTIETH }) && c.lt(&self.wall.half()),
            None => false,
        }
    }
}

/// Whether a phase of a test is reported as failed or broken down.
pub open spec fn phase_failed(entry: JsonTree, phase: Seq<char>) -> bool {
    entry.entry(phase) matches Some(JsonTree::Text(s)) && (s == "failed"@ || s == "error"@)
}

/// Whether a test is reported as failed: in setup, in itself or in teardown.
pub open spec fn failed_entry(entry: JsonTree) -> bool {
    phase_failed(entry, "setup"@) || phase_failed(entry, "call"@) || phase_failed(
        entry,
        "teardown"@,
    )
}

fn is_phase_failed(entry: &serde_json::Value, phase: &str) -> (res: bool)
    ensures
        res == phase_failed(json_tree(*entry), phase@),
{
    match json_entry(entry, phase) {
        Some(v) => match json_text(v) {
            Some(s) => str_eq(s, "failed") || str_eq(s, "error"),
            None => false,
        },
        None => false,
    }
}

/// Whether a test is reported as failed.
pub fn is_fail(entry: &serde_json::Value) -> (res: bool)
    ensures
        res == failed_entry(json_tree(*entry)),
{
    is_phase_failed(entry, "setup") || is_phase_failed(entry, "call") || is_phase_failed(
        entry,
        "teardown",
    )
}

/// A number in an entry.
pub open spec fn number_at(entry: JsonTree, key: Seq<char>) -> Option<Double> {
    match entry.entry(key) {
        Some(JsonTree::Number(bits)) => Some(Double { bits }),
        _ => None,
    }
}

/// What an entry says became of a test.
pub open spec fn rec_of(entry: JsonTree) -> Rec {
    Rec {
        phase: if failed_entry(entry) {
            Phase::Fail
        } else {
            Phase::Pass
        },
        wall: match number_at(entry, "duration"@) {
            Some(d) => d,
            None => Double { bits: ZERO },
        },
        cpu: number_at(entry, "cpu"@),
    }
}

/// What a report says became of the tests; nothing where it does not list any.
pub open spec fn outcomes_of(doc: JsonTree) -> Map<Seq<char>, Rec> {
    match doc.entry("tests"@) {
        Some(JsonTree::Object(tests)) => Map::new(
            |id: Seq<char>| tests.contains_key(id),
            |id: Seq<char>| rec_of(tests[id]),
        ),
        _ => Map::empty(),
    }
}

fn read_number(entry: &serde_json::Value, key: &str) -> (res: Option<Double>)
    ensures
        res == number_at(json_tree(*entry), key@),
{
    match json_entry(entry, key) {
        Some(v) => match json_number(v) {
            Some(bits) => Some(Double { bits }),
            None => None,
        },
        None => None,
    }
}

fn read_rec(entry: &serde_json::Value) -> (res: Rec)
    ensures
        res == rec_of(json_tree(*entry)),
{
    Rec {
        phase: if is_fail(entry) {
            Phase::Fail
        } else {
            Phase::Pass
        },
        wall: match read_number(entry, "duration") {
            Some(d) => d,
            None => Double { bits: ZERO },
        },
        cpu: read_number(entry, "cpu"),
    }
}

/// Reads from a report what became of the tests.
pub fn read_outcomes(doc: &serde_json::Value) -> (res: OrderedMap<String, Rec>)
    ensures
        res@ == outcomes_of(json_tree(*doc)),
{
    let mut out: OrderedMap<String, Rec> = OrderedMap::new();
    let tests = match json_entry(doc, "tests") {
        Some(t) => t,
        None => {
            return out;
        },
    };
    let keys = match json_keys(tests) {
        Some(k) => k,
        None => {
            return out;
        },
    };
    let ghost all = match json_tree(*tests) {
        JsonTree::Object(m) => m,
        _ => Map::empty(),
    };
    let ghost names = texts(keys@);
    let mut i: usize = 0;
    while i < keys.len()
        invariant
            i <= keys.len(),
            names == texts(keys@),
            json_tree(*tests) == JsonTree::Object(all),
            all.dom() == names.to_set(),
            forall|k: Seq<char>| #[trigger]
                out@.contains_key(k) ==> all.contains_key(k) && out@[k] == rec_of(all[k]),
            forall|j: int| 0 <= j < i ==> out@.contains_key(#[trigger] names[j]),
        decreases keys.len() - i,
    {
        let ghost k = names[i as int];
        assert(k == keys@[i as int]@);
        assert(names.to_set().contains(k));
        assert(all.contains_key(k));
        match json_entry(tests, keys[i].as_str()) {
            Some(e) => {
                out.insert(keys[i].clone(), read_rec(e));
            },
            None => {},
        }
        i += 1;
    }
    proof {
        let goal = outcomes_of(json_tree(*doc));
        assert forall|k: Seq<char>| #[trigger] crate::ordered_map::agree(out@, goal, k) by {
            if all.contains_key(k) {
                assert(names.to_set().contains(k));
                let j = choose|j: int| 0 <= j < names.len() && names[j] == k;
                assert(out@.contains_key(names[j]));
            }
        }
        crate::ordered_map::lemma_same_map(out@, goal);
    }
    out
}

/// Reads from the text of a report what became of the tests; nothing where it is
/// not well-formed.
pub fn parse_outcomes(text: &str) -> (res: OrderedMap<String, Rec>)
    ensures
        res@ == outcomes_in(text@),
{
    match parse_json(text) {
        Some(doc) => read_outcomes(&doc),
        None => OrderedMap::new(),
    }
}

/// A test failed where any of its three phases is reported as failed or as broken down,
/// whatever the other two are.
pub proof fn theorem_one_failed_phase_is_enough(entry: JsonTree, phase: Seq<char>, word: Seq<char>)
    requires
        phase == "setup"@ || phase == "call"@ || phase == "teardown"@,
        word == "failed"@ || word == "error"@,
        entry.entry(phase) == Some(JsonTree::Text(word)),
    ensures
        failed_entry(entry),
        rec_of(entry).phase == Phase::Fail,
{
}

/// A test passed where none of its three phases is reported as failed or as broken down,
/// whatever else is reported.
pub proof fn theorem_without_a_failed_phase_a_test_passed(entry: JsonTree)
    requires
        entry.entry("setup"@) != Some(JsonTree::Text("failed"@)),
        entry.entry("setup"@) != Some(JsonTree::Text("error"@)),
        entry.entry("call"@) != Some(JsonTree::Text("failed"@)),
        entry.entry("call"@) != Some(JsonTree::Text("error"@)),
        entry.entry("teardown"@) != Some(JsonTree::Text("failed"@)),
        entry.entry("teardown"@) != Some(JsonTree::Text("error"@)),
    ensures
        !failed_entry(entry),
        rec_of(entry).phase == Phase::Pass,
{
}

/// The times of a test are the numbers that its entry holds for them. Without one for its
/// duration it took no time, and without one for computing that was not measured.
pub proof fn theorem_times_are_those_of_the_entry(entry: JsonTree)
    ensures
        match entry.entry("duration"@) {
            Some(JsonTree::Number(b)) => rec_of(entry).wall.bits == b,
            _ => rec_of(entry).wall.bits == 0,
        },
        match entry.entry("cpu"@) {
            Some(JsonTree::Number(b)) => rec_of(entry).cpu is Some && rec_of(entry).cpu->0.bits
                == b,
            _ => rec_of(entry).cpu is None,
        },
{
}

/// A report tells of the tests that it lists, of each what its own entry says, and of no
/// others.
pub proof fn theorem_each_listed_test_is_told_of(
    doc: JsonTree,
    tests: Map<Seq<char>, JsonTree>,
    id: Seq<char>,
)
    requires
        doc.entry("tests"@) == Some(JsonTree::Object(tests)),
    ensures
        outcomes_of(doc).contains_key(id) <==> tests.contains_key(id),
        tests.contains_key(id) ==> outcomes_of(doc)[id] == rec_of(tests[id]),
{
}

/// For a test of at least a twentieth of a second, to wait is to compute for less than
/// half of the time: twice the computing time is less than the whole. A shorter test, or
/// one whose computing time was not measured, is not said to wait.
pub proof fn theorem_waiting_is_computing_less_than_half(r: Rec)
    ensures
        r.cpu is None ==> !waited(r),
        r.wall.bits < 0x3FA999999999999A ==> !waited(r),
        r.wall.bits > 0x7FF0000000000000 ==> !waited(r),
        r.cpu matches Some(c) ==> 0x3FA999999999999A <= r.wall.bits < 0x7FF0000000000000 && c.bits
            <= 0x7FF0000000000000 ==> (waited(r) <==> c.bits + 0x0010000000000000 < r.wall.bits),
{
}

/// What a document in a text tells of tests.
pub open spec fn outcomes_in(text: Seq<char>) -> Map<Seq<char>, Rec> {
    match json_document(text) {
        Some(doc) => outcomes_of(doc),
        None => Map::empty(),
    }
}

/// A text that is no document, or whose tests are no object, tells of no test.
pub proof fn theorem_what_is_no_document_tells_nothing(text: Seq<char>, doc: JsonTree)
    ensures
        json_document(text) is None ==> outcomes_in(text).dom() =~= Set::<Seq<char>>::empty(),
        json_document(text) == Some(doc) ==> outcomes_in(text) == outcomes_of(doc),
        doc.entry("tests"@) is None ==> outcomes_of(doc).dom() =~= Set::<Seq<char>>::empty(),
        doc.entry("tests"@) matches Some(t) ==> (!(t is Object) ==> outcomes_of(doc).dom() =~= Set::<
            Seq<char>,
        >::empty()),
{
}

} // verus!
