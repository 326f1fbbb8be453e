//! How a run ends: what is said of it, and the code to exit with.

use super::plan::{Dist, Mode};
use crate::coverage_skip::coverage_requested;
use crate::doctor::gate::GateOutcome;
use crate::double::{Double, ONE};
use crate::merged::{warnings_total, WarningEntry};
use crate::numbers::{dec, dec_len, decimal};
use crate::ordered_map::TextSet;
use crate::text::{
    align_right, from_range, matches_at, occurs_at, right_aligned, starts, texts, to_chars,
};
use vstd::prelude::*;

verus! {

broadcast use {crate::text::lemma_texts_push, crate::text::lemma_texts_add};

/// Whether the tests are measured for a diagnosis.
pub fn diagnoses(human: bool, json: bool, markdown: bool, conditions: usize) -> (res: bool)
    ensures
        res == is_diagnosed(human, json, markdown, conditions),
{
    human || json || markdown || conditions > 0
}

/// What stands round a failure in a report.
#[derive(Clone, Copy, Debug, PartialEq, Eq, Structural)]
pub enum FailureWrap {
    Plain,
    GitlabSection,
    BuildkiteGroup,
}

/// Decides what stands round a failure.
pub fn failure_wrap(mode: Mode) -> (res: FailureWrap)
    ensures
        res == wrap_for(mode),
{
    match mode {
        Mode::Gitlab => FailureWrap::GitlabSection,
        Mode::Buildkite => FailureWrap::BuildkiteGroup,
        _ => FailureWrap::Plain,
    }
}

/// What the end of a report consists of.
#[derive(Clone, Copy, Debug, PartialEq, Eq, Structural)]
pub enum Ending {
    /// Nothing: the session wrote its own report.
    Silent,
    /// A last entry of a stream of results.
    Envelope,
    /// A plan of a stream of results.
    Plan,
    /// A summary, with the failures or without them.
    Summary(bool),
}

/// Decides what the end of a report consists of. Failures that were shown as they
/// came are not shown again.
pub fn ending(passthrough: bool, mode: Mode) -> (res: Ending)
    ensures
        res == ending_for(passthrough, mode),
{
    if passthrough {
        Ending::Silent
    } else if mode == Mode::Json {
        Ending::Envelope
    } else if mode == Mode::Tap {
        Ending::Plan
    } else {
        Ending::Summary(mode != Mode::Bar)
    }
}

/// How many tests of a run came out in each way.
#[derive(Clone, Copy, Debug, PartialEq, Eq, Structural)]
pub struct Tally {
    pub passed: u64,
    pub failed: u64,
    pub errors: u64,
    pub collect_errors: u64,
    pub skipped: u64,
    pub xfailed: u64,
    pub xpassed: u64,
}

impl Tally {
    /// How many came out well, badly and neither way.
    pub open spec fn parts(self) -> (nat, nat, nat) {
        (
            self.passed as nat,
            (self.failed + self.errors + self.collect_errors) as nat,
            (self.skipped + self.xfailed + self.xpassed) as nat,
        )
    }

    /// How many there are.
    pub open spec fn total(self) -> nat {
        let (good, bad, other) = self.parts();
        good + bad + other
    }

    /// Counts what came out well, badly and neither way.
    pub fn segments(&self) -> (res: (u64, u64, u64))
        requires
            self.total() <= u64::MAX,
        ensures
            (res.0 as nat, res.1 as nat, res.2 as nat) == self.parts(),
    {
        (
            self.passed,
            self.failed + self.errors + self.collect_errors,
            self.skipped + self.xfailed + self.xpassed,
        )
    }
}

/// What stands above the last line: a bar of the results with how many there are,
/// where results are shown as a bar on a terminal.
pub open spec fn results_text(
    mode: Mode,
    terminal: bool,
    tally: Tally,
    bar: Seq<char>,
    elapsed: Double,
) -> Seq<char> {
    if mode == Mode::Bar && terminal {
        "\nResults ("@ + elapsed.fixed_text(2) + "s):\n  "@ + bar + " "@ + decimal(tally.total())
            + "/"@ + decimal(tally.total())
    } else {
        ""@
    }
}

/// Writes what stands above the last line.
pub fn results(mode: Mode, terminal: bool, tally: &Tally, bar: &str, elapsed: &Double) -> (res:
    String)
    requires
        tally.total() <= u64::MAX,
    ensures
        res@ == results_text(mode, terminal, *tally, bar@, *elapsed),
{
    if !(mode == Mode::Bar && terminal) {
        return "".to_owned();
    }
    let (good, bad, other) = tally.segments();
    let n = dec(good + bad + other);
    let mut out = "\nResults (".to_owned();
    out.append(elapsed.fixed(2).as_str());
    out.append("s):\n  ");
    out.append(bar);
    out.append(" ");
    out.append(n.as_str());
    out.append("/");
    out.append(n.as_str());
    out
}

/// The last line of a report, given what comes before the warnings.
pub open spec fn summary_text(line: Seq<char>, warnings: nat, elapsed: Double) -> Seq<char> {
    let start = if warnings > 0 {
        line + ", "@ + decimal(warnings) + " warnings"@
    } else {
        line
    };
    start + " in "@ + elapsed.fixed_text(2) + "s"@
}

fn count_warnings(ws: &[WarningEntry]) -> (res: u64)
    requires
        warnings_total(ws@) <= u64::MAX,
    ensures
        res == warnings_total(ws@),
{
    let mut n: u64 = 0;
    let mut i: usize = 0;
    assert(ws@.take(0) =~= Seq::empty());
    while i < ws.len()
        invariant
            i <= ws.len(),
            warnings_total(ws@) <= u64::MAX,
            n == warnings_total(ws@.take(i as int)),
        decreases ws.len() - i,
    {
        proof {
            assert(ws@.take(i + 1).drop_last() =~= ws@.take(i as int));
            assert(ws@.take(i + 1).last() == ws@[i as int]);
            crate::merged::lemma_totals_grow(ws@, i + 1);
        }
        n += ws[i].count;
        i += 1;
    }
    assert(ws@.take(ws.len() as int) =~= ws@);
    n
}

/// Writes the last line of a report.
pub fn summary(line: &str, warnings: &[WarningEntry], elapsed: &Double) -> (res: String)
    requires
        warnings_total(warnings@) <= u64::MAX,
    ensures
        res@ == summary_text(line@, warnings_total(warnings@), *elapsed),
{
    let n = count_warnings(warnings);
    let mut out = line.to_owned();
    if n > 0 {
        out.append(", ");
        out.append(dec(n).as_str());
        out.append(" warnings");
    }
    out.append(" in ");
    out.append(elapsed.fixed(2).as_str());
    out.append("s");
    out
}

/// What is said of conditions on a diagnosis.
pub struct GateReport {
    pub lines: Vec<String>,
    /// The lines on the conditions that failed, which stand under a heading.
    pub failures: Vec<String>,
}

/// What is said of the conditions that could not be measured.
pub open spec fn skipped_lines(skipped: Seq<Seq<char>>) -> Seq<Seq<char>> {
    Seq::new(skipped.len(), |i: int| "rstest: --doctor-fail-on: "@ + skipped[i])
}

/// What is said where all conditions hold.
pub open spec fn all_passed_text(n: usize) -> Seq<char> {
    "rstest: --doctor-fail-on: all "@ + decimal(n as nat) + " condition(s) passed"@
}

/// What is said of each condition that does not hold.
pub open spec fn breach_lines(breaches: Seq<Seq<char>>) -> Seq<Seq<char>> {
    Seq::new(breaches.len(), |i: int| "  "@ + breaches[i])
}

fn prefixed(prefix: &str, v: &Vec<String>) -> (res: Vec<String>)
    ensures
        texts(res@) == Seq::new(v@.len(), |i: int| prefix@ + texts(v@)[i]),
{
    let mut out: Vec<String> = Vec::new();
    let mut i: usize = 0;
    while i < v.len()
        invariant
            i <= v.len(),
            out.len() == i,
            forall|j: int| 0 <= j < i ==> (#[trigger] out@[j])@ == prefix@ + v@[j]@,
        decreases v.len() - i,
    {
        let mut line = String::from_str(prefix);
        line.append(v[i].as_str());
        out.push(line);
        i += 1;
    }
    assert(texts(out@) =~= Seq::new(v@.len(), |i: int| prefix@ + texts(v@)[i]));
    out
}

/// Says which of so many conditions on a diagnosis hold: the lines to print, those of
/// the failures apart, and whether there are failures.
pub fn gate_report(outcome: &GateOutcome, conditions: usize) -> (res: (GateReport, bool))
    ensures
        texts(res.0.lines@) == gate_lines(
            texts(outcome.skipped@),
            texts(outcome.breaches@),
            conditions,
        ),
        texts(res.0.failures@) == breach_lines(texts(outcome.breaches@)),
        res.1 == gate_fails(texts(outcome.breaches@)),
{
    let mut lines = prefixed("rstest: --doctor-fail-on: ", &outcome.skipped);
    assert(texts(lines@) =~= skipped_lines(texts(outcome.skipped@)));
    let failures = prefixed("  ", &outcome.breaches);
    assert(texts(failures@) =~= breach_lines(texts(outcome.breaches@)));
    let failed = outcome.breaches.len() > 0;
    if !failed {
        let mut line = String::from_str("rstest: --doctor-fail-on: all ");
        line.append(dec_len(conditions).as_str());
        line.append(" condition(s) passed");
        lines.push(line);
    }
    (GateReport { lines, failures }, failed)
}

/// Where the name of a worker begins in an id.
pub open spec fn worker_at(id: Seq<char>, i: int) -> bool {
    occurs_at(id, " [gw"@, i) && forall|j: int| j > i ==> !#[trigger] occurs_at(id, " [gw"@, j)
}

/// Whether an id is another without the name of a worker.
pub open spec fn is_plain(plain: Seq<char>, id: Seq<char>) -> bool {
    if exists|i: int| occurs_at(id, " [gw"@, i) {
        exists|i: int| #[trigger] worker_at(id, i) && plain == id.take(i)
    } else {
        plain == id
    }
}

/// Takes the name of a worker off the id of a test.
pub fn plain_id(id: &str) -> (res: String)
    ensures
        is_plain(res@, id@),
{
    let v = to_chars(id);
    let pat = to_chars(" [gw");
    let mut i: usize = v.len();
    assert forall|j: int| j > v.len() implies !#[trigger] occurs_at(id@, " [gw"@, j) by {
    }
    loop
        invariant
            i <= v.len(),
            v@ == id@,
            pat@ == " [gw"@,
            forall|j: int| j > i ==> !#[trigger] occurs_at(id@, " [gw"@, j),
        decreases i,
    {
        if matches_at(&v, &pat, i) {
            let out = from_range(&v, 0, i);
            assert(out@ =~= id@.take(i as int));
            assert(worker_at(id@, i as int));
            return out;
        }
        if i == 0 {
            assert forall|j: int| !#[trigger] occurs_at(id@, " [gw"@, j) by {
            }
            return id.to_owned();
        }
        i -= 1;
    }
}

/// Whether a failed test is remembered under a plain id.
pub open spec fn remembered(failed: Seq<Seq<char>>, plain: Seq<char>) -> bool {
    exists|i: int| 0 <= i < failed.len() && is_plain(plain, #[trigger] failed[i])
}

proof fn lemma_plain_once(a: Seq<char>, b: Seq<char>, id: Seq<char>)
    requires
        is_plain(a, id),
        is_plain(b, id),
    ensures
        a == b,
{
    if exists|i: int| occurs_at(id, " [gw"@, i) {
        let i = choose|i: int| #[trigger] worker_at(id, i) && a == id.take(i);
        let j = choose|j: int| #[trigger] worker_at(id, j) && b == id.take(j);
        if i < j {
            assert(!occurs_at(id, " [gw"@, j));
        } else if j < i {
            assert(!occurs_at(id, " [gw"@, i));
        }
    }
}

/// What is remembered of the failed tests of a run, each once.
pub fn last_failed(failed: &[String]) -> (res: TextSet)
    ensures
        forall|p: Seq<char>| #[trigger] res@.contains(p) == remembered(texts(failed@), p),
{
    let ghost all = texts(failed@);
    let mut out = TextSet::new();
    let mut i: usize = 0;
    while i < failed.len()
        invariant
            i <= failed.len(),
            all == texts(failed@),
            forall|p: Seq<char>| #[trigger]
                out@.contains(p) == exists|j: int|
                    0 <= j < i && is_plain(p, #[trigger] all[j]),
        decreases failed.len() - i,
    {
        assert(all[i as int] == failed@[i as int]@);
        let plain = plain_id(failed[i].as_str());
        let ghost before = out@;
        let ghost here = plain@;
        out.insert(plain);
        proof {
            assert forall|p: Seq<char>| #[trigger] out@.contains(p) == exists|j: int|
                0 <= j < i + 1 && is_plain(p, #[trigger] all[j]) by {
                if out@.contains(p) {
                    if before.contains(p) {
                        let j = choose|j: int| 0 <= j < i && is_plain(p, #[trigger] all[j]);
                        assert(0 <= j < i + 1 && is_plain(p, all[j]));
                    } else {
                        assert(is_plain(p, all[i as int]));
                    }
                }
                if exists|j: int| 0 <= j < i + 1 && is_plain(p, #[trigger] all[j]) {
                    let j = choose|j: int| 0 <= j < i + 1 && is_plain(p, #[trigger] all[j]);
                    if j < i {
                        assert(before.contains(p));
                    } else {
                        lemma_plain_once(p, here, all[i as int]);
                    }
                }
            }
        }
        i += 1;
    }
    out
}

/// What is said of a ratio that every test would exceed.
pub open spec fn ratio_text(shown: Seq<char>) -> Seq<char> {
    "--durations-regress ratio must be > 1.0, got "@ + shown
}

/// What is said of tests that became slower.
pub struct SlowReport {
    pub notes: Vec<String>,
    /// The heading and the rows, where tests became slower.
    pub rows: Vec<String>,
    pub slower: usize,
}

/// The row on a test that became slower.
pub open spec fn slow_row(row: (String, Double, Double)) -> Seq<char> {
    "  "@ + right_aligned(row.1.fixed_text(2), 7) + "s -> "@ + right_aligned(
        row.2.fixed_text(2),
        7,
    ) + "s  "@ + row.0@
}

/// The heading of the rows on tests that became slower.
pub open spec fn slow_heading(shown: Seq<char>) -> Seq<char> {
    "=========== duration regressions (>= "@ + shown + "x baseline) ==========="@
}

/// The rows on tests that became slower, with their heading.
pub open spec fn slow_rows(rows: Seq<(String, Double, Double)>, shown: Seq<char>) -> Seq<Seq<char>> {
    if rows.len() == 0 {
        Seq::empty()
    } else {
        seq![slow_heading(shown)] + Seq::new(rows.len(), |i: int| slow_row(rows[i]))
    }
}

/// Says which tests became slower, given how the limit is written. Without times of
/// an earlier run there is nothing to say; a limit of one or less is refused.
pub fn slow_report(
    ratio: &Double,
    shown: &str,
    baseline: bool,
    rows: &[(String, Double, Double)],
) -> (res: Result<SlowReport, String>)
    ensures
        is_slow_report(res, *ratio, shown@, baseline, rows@),
{
    let one = Double { bits: ONE };
    if one.ge(ratio) {
        let mut text = String::from_str("--durations-regress ratio must be > 1.0, got ");
        text.append(shown);
        return Err(text);
    }
    let mut notes: Vec<String> = Vec::new();
    let mut out: Vec<String> = Vec::new();
    assert(texts(notes@) =~= Seq::empty());
    assert(texts(out@) =~= Seq::empty());
    if !baseline {
        notes.push(
            "rstest: --durations-regress: no duration baseline yet (.rstest_cache/durations.json); comparison skipped".to_owned(),
        );
        assert(texts(notes@) =~= seq![
            "rstest: --durations-regress: no duration baseline yet (.rstest_cache/durations.json); comparison skipped"@,
        ]);
        return Ok(SlowReport { notes, rows: out, slower: 0 });
    }
    if rows.len() == 0 {
        let mut line = String::from_str("rstest: --durations-regress: no regressions (>= ");
        line.append(shown);
        line.append("x baseline)");
        notes.push(line);
        assert(texts(notes@) =~= seq![
            "rstest: --durations-regress: no regressions (>= "@ + shown@ + "x baseline)"@,
        ]);
        return Ok(SlowReport { notes, rows: out, slower: 0 });
    }
    let mut line = String::from_str("=========== duration regressions (>= ");
    line.append(shown);
    line.append("x baseline) ===========");
    out.push(line);
    let mut i: usize = 0;
    while i < rows.len()
        invariant
            i <= rows.len(),
            out.len() == i + 1,
            out@[0]@ == slow_heading(shown@),
            forall|j: int| 1 <= j < i + 1 ==> (#[trigger] out@[j])@ == slow_row(rows@[j - 1]),
        decreases rows.len() - i,
    {
        let r = &rows[i];
        let mut line = String::from_str("  ");
        line.append(align_right(r.1.fixed(2).as_str(), 7).as_str());
        line.append("s -> ");
        line.append(align_right(r.2.fixed(2).as_str(), 7).as_str());
        line.append("s  ");
        line.append(r.0.as_str());
        out.push(line);
        i += 1;
    }
    assert(texts(out@) =~= slow_rows(rows@, shown@));
    Ok(SlowReport { notes, rows: out, slower: rows.len() })
}

/// Whether the times and the flakes of a run are remembered: not where every worker
/// ran every test.
pub fn remembers(dist: Dist) -> (res: bool)
    ensures
        res == is_remembered(dist),
{
    dist != Dist::Each
}

/// Whether the coverage of the workers is put together and reported.
pub fn reports_coverage(passthrough: bool, args: &[String]) -> (res: bool)
    ensures
        res == coverage_is_reported(passthrough, texts(args@)),
{
    !passthrough && coverage_requested(args)
}

/// The code to exit with, by the code of the tests, whether the report on coverage
/// succeeded, how many tests became slower, and whether a condition failed.
pub open spec fn exit_for(
    tests: i32,
    coverage: Option<bool>,
    slower: usize,
    gate_failed: bool,
) -> int {
    if tests == 0 && (coverage == Some(false) || slower > 0 || gate_failed) {
        1
    } else {
        tests as int
    }
}

/// What is said of tests that became slower, at the end.
pub open spec fn slower_text(n: usize) -> Seq<char> {
    "rstest: "@ + decimal(n as nat) + " duration regression"@ + (if n > 1 {
        "s"@
    } else {
        ""@
    }) + " vs baseline (--durations-regress)"@
}

/// What is said at the end.
pub open spec fn last_words(slower: usize, gate_failed: bool) -> Seq<Seq<char>> {
    let first = if slower > 0 {
        seq![slower_text(slower)]
    } else {
        Seq::empty()
    };
    if gate_failed {
        first.push(
            "rstest: --doctor-fail-on: threshold breach (see doctor gate failures above)"@,
        )
    } else {
        first
    }
}

/// Ends a run: the lines to print, and the code to exit with.
pub fn final_status(tests: i32, coverage: Option<bool>, slower: usize, gate_failed: bool) -> (res: (
    Vec<String>,
    i32,
))
    ensures
        texts(res.0@) == last_words(slower, gate_failed),
        res.1 == exit_for(tests, coverage, slower, gate_failed),
{
    let mut lines: Vec<String> = Vec::new();
    assert(texts(lines@) =~= Seq::empty());
    let mut code = tests;
    if let Some(ok) = coverage {
        if !ok && code == 0 {
            code = 1;
        }
    }
    if slower > 0 {
        let mut line = String::from_str("rstest: ");
        line.append(dec_len(slower).as_str());
        line.append(" duration regression");
        if slower > 1 {
            line.append("s");
        } else {
            line.append("");
        }
        line.append(" vs baseline (--durations-regress)");
        lines.push(line);
        assert(texts(lines@) =~= seq![slower_text(slower)]);
        if code == 0 {
            code = 1;
        }
    }
    if gate_failed {
        lines.push(
            "rstest: --doctor-fail-on: threshold breach (see doctor gate failures above)".to_owned(),
        );
        if code == 0 {
            code = 1;
        }
    }
    (lines, code)
}

/// A run succeeds exactly where the tests do, the coverage can be reported, no test
/// became slower and no condition failed. A code of the tests that tells of a failure
/// is never replaced.
pub proof fn theorem_success(tests: i32, coverage: Option<bool>, slower: usize, gate_failed: bool)
    ensures
        exit_for(tests, coverage, slower, gate_failed) == 0 <==> tests == 0 && coverage != Some(
            false,
        ) && slower == 0 && !gate_failed,
        tests != 0 ==> exit_for(tests, coverage, slower, gate_failed) == tests,
{
}

/// A run ends with the code of its tests, unless that tells of success and something else
/// failed: then with one.
pub proof fn theorem_other_failures_end_with_one(
    tests: i32,
    coverage: Option<bool>,
    slower: usize,
    gate_failed: bool,
)
    ensures
        coverage == Some(false) ==> exit_for(0, coverage, slower, gate_failed) == 1,
        slower > 0 ==> exit_for(0, coverage, slower, gate_failed) == 1,
        gate_failed ==> exit_for(0, coverage, slower, gate_failed) == 1,
        coverage != Some(false) && slower == 0 && !gate_failed ==> exit_for(
            tests,
            coverage,
            slower,
            gate_failed,
        ) == tests,
        exit_for(tests, coverage, slower, gate_failed) != tests ==> tests == 0,
{
}

/// Every count of a run is in one of the three parts, and in the right one: what passed,
/// what went wrong, and the rest.
pub proof fn theorem_counts_go_into_their_part(t: Tally)
    ensures
        t.total() == t.passed + t.failed + t.errors + t.collect_errors + t.skipped + t.xfailed
            + t.xpassed,
        t.parts().0 == t.passed,
        t.failed == 0 && t.errors == 0 && t.collect_errors == 0 <==> t.parts().1 == 0,
        t.failed <= t.parts().1 && t.errors <= t.parts().1 && t.collect_errors <= t.parts().1,
        t.parts().1 == t.total() - t.passed - (t.skipped + t.xfailed + t.xpassed),
{
}

/// A failed test is remembered without the worker that it ran on, and one whose id names
/// none under the id itself. What is remembered is how the id of a failed test begins.
pub proof fn theorem_failed_tests_are_remembered(
    failed: Seq<Seq<char>>,
    i: int,
    test: Seq<char>,
    worker: Seq<char>,
)
    requires
        0 <= i < failed.len(),
        !crate::text::contains_sub(test, " [gw"@),
        !worker.contains(' '),
    ensures
        failed[i] == test ==> remembered(failed, test),
        failed[i] == test + " [gw"@ + worker ==> remembered(failed, test),
        forall|p: Seq<char>| #[trigger]
            remembered(failed, p) ==> exists|k: int|
                0 <= k < failed.len() && starts(#[trigger] failed[k], p),
{
    if failed[i] == test {
        assert(is_plain(test, failed[i]));
    }
    if failed[i] == test + " [gw"@ + worker {
        reveal_strlit(" [gw");
        let id = failed[i];
        let pat = " [gw"@;
        let n = test.len() as int;
        assert(id.subrange(n, n + pat.len()) =~= pat);
        assert(occurs_at(id, pat, n));
        assert forall|j: int| j > n implies !#[trigger] occurs_at(id, pat, j) by {
            if occurs_at(id, pat, j) {
                assert(id.subrange(j, j + pat.len())[0] == id[j]);
                assert(id[j] == ' ');
                if j < n + 4 {
                    assert(id[j] == pat[j - n]);
                } else {
                    assert(id[j] == worker[j - n - 4]);
                }
            }
        }
        assert(worker_at(id, n));
        assert(id.take(n) =~= test);
        assert(is_plain(test, id));
    }
    assert forall|p: Seq<char>| #[trigger] remembered(failed, p) implies exists|k: int|
        0 <= k < failed.len() && starts(#[trigger] failed[k], p) by {
        let k = choose|k: int| 0 <= k < failed.len() && is_plain(p, #[trigger] failed[k]);
        let id = failed[k];
        assert(id.subrange(0, p.len() as int) =~= p) by {
            if exists|q: int| occurs_at(id, " [gw"@, q) {
                let q = choose|q: int| #[trigger] worker_at(id, q) && p == id.take(q);
                assert(worker_at(id, q));
            }
        }
        assert(starts(id, p));
    }
}

/// Whether a run is diagnosed.
pub open spec fn is_diagnosed(human: bool, json: bool, markdown: bool, conditions: usize) -> bool {
    human || json || markdown || conditions > 0
}

/// What stands round a failure.
pub open spec fn wrap_for(mode: Mode) -> FailureWrap {
    match mode {
        Mode::Gitlab => FailureWrap::GitlabSection,
        Mode::Buildkite => FailureWrap::BuildkiteGroup,
        _ => FailureWrap::Plain,
    }
}

/// What a run ends with.
pub open spec fn ending_for(passthrough: bool, mode: Mode) -> Ending {
    if passthrough {
        Ending::Silent
    } else if mode == Mode::Json {
        Ending::Envelope
    } else if mode == Mode::Tap {
        Ending::Plan
    } else {
        Ending::Summary(mode != Mode::Bar)
    }
}

/// What is said of conditions.
pub open spec fn gate_lines(
    skipped: Seq<Seq<char>>,
    breaches: Seq<Seq<char>>,
    conditions: usize,
) -> Seq<Seq<char>> {
    if breaches.len() == 0 {
        skipped_lines(skipped).push(all_passed_text(conditions))
    } else {
        skipped_lines(skipped)
    }
}

/// Whether conditions fail a run.
pub open spec fn gate_fails(breaches: Seq<Seq<char>>) -> bool {
    breaches.len() > 0
}

/// Whether `res` tells which tests became slower.
pub open spec fn is_slow_report(
    res: Result<SlowReport, String>,
    ratio: Double,
    shown: Seq<char>,
    baseline: bool,
    rows: Seq<(String, Double, Double)>,
) -> bool {
    match res {
        Err(t) => (Double { bits: ONE }).at_least(ratio) && t@ == ratio_text(shown),
        Ok(r) => !(Double { bits: ONE }).at_least(ratio) && r.slower == (if baseline {
            rows.len()
        } else {
            0
        }) && texts(r.rows@) == (if baseline {
            slow_rows(rows, shown)
        } else {
            Seq::empty()
        }) && texts(r.notes@) == (if !baseline {
            seq![
                "rstest: --durations-regress: no duration baseline yet (.rstest_cache/durations.json); comparison skipped"@,
            ]
        } else if rows.len() == 0 {
            seq!["rstest: --durations-regress: no regressions (>= "@ + shown + "x baseline)"@]
        } else {
            Seq::empty()
        }),
    }
}

/// Whether the times and the flakes of a run are remembered.
pub open spec fn is_remembered(dist: Dist) -> bool {
    dist != Dist::Each
}

/// Whether coverage is reported.
pub open spec fn coverage_is_reported(passthrough: bool, args: Seq<Seq<char>>) -> bool {
    !passthrough && crate::coverage_skip::asks_for_coverage(args)
}

/// A run is diagnosed where any of the reports is asked for, or a condition.
pub proof fn theorem_what_is_diagnosed(a: bool, b: bool, n: usize)
    ensures
        is_diagnosed(true, a, b, n),
        is_diagnosed(a, true, b, n),
        is_diagnosed(a, b, true, n),
        n >= 1 ==> is_diagnosed(a, b, false, n),
        !is_diagnosed(false, false, false, 0),
{
}

/// Two services fold failures, each in its own way; everywhere else they stand plain.
pub proof fn theorem_failures_are_folded(mode: Mode)
    ensures
        wrap_for(mode) == FailureWrap::GitlabSection <==> mode == Mode::Gitlab,
        wrap_for(mode) == FailureWrap::BuildkiteGroup <==> mode == Mode::Buildkite,
        wrap_for(mode) == FailureWrap::Plain <==> mode != Mode::Gitlab && mode != Mode::Buildkite,
{
}

/// A session that has the terminal ends by itself; streams end with an entry or with a plan;
/// everything else ends with a summary, which has the failures unless the bar showed them.
pub proof fn theorem_how_runs_end(passthrough: bool, mode: Mode)
    ensures
        ending_for(true, mode) == Ending::Silent,
        ending_for(false, Mode::Json) == Ending::Envelope,
        ending_for(false, Mode::Tap) == Ending::Plan,
        ending_for(false, Mode::Bar) == Ending::Summary(false),
        mode != Mode::Json && mode != Mode::Tap && mode != Mode::Bar ==> ending_for(false, mode)
            == Ending::Summary(true),
{
}

/// Conditions fail a run where one does not hold; that all hold is said where none fails, and
/// what could not be judged in any case.
pub proof fn theorem_what_is_said_of_conditions(
    skipped: Seq<Seq<char>>,
    breaches: Seq<Seq<char>>,
    n: usize,
    i: int,
)
    ensures
        gate_fails(breaches) <==> breaches.len() >= 1,
        gate_fails(breaches) ==> gate_lines(skipped, breaches, n).len() == skipped.len(),
        !gate_fails(breaches) ==> gate_lines(skipped, breaches, n).len() == skipped.len() + 1
            && gate_lines(skipped, breaches, n).last() == "rstest: --doctor-fail-on: all "@
            + decimal(n as nat) + " condition(s) passed"@,
        0 <= i < skipped.len() ==> gate_lines(skipped, breaches, n)[i]
            == "rstest: --doctor-fail-on: "@ + skipped[i],
        0 <= i < breaches.len() ==> breach_lines(breaches)[i] == "  "@ + breaches[i],
        breach_lines(breaches).len() == breaches.len(),
{
}

/// A limit on how much slower a test may become is above one, by its bits; without earlier
/// times no test is slower, and with them every row is one.
pub proof fn theorem_tests_that_became_slower(
    res: Result<SlowReport, String>,
    ratio: Double,
    shown: Seq<char>,
    baseline: bool,
    rows: Seq<(String, Double, Double)>,
)
    requires
        is_slow_report(res, ratio, shown, baseline, rows),
        ratio.bits <= 0x7FF0000000000000,
    ensures
        res is Ok <==> ratio.bits > 0x3FF0000000000000,
        res matches Ok(r) ==> (!baseline ==> r.slower == 0 && r.rows@.len() == 0 && r.notes@.len()
            == 1),
        res matches Ok(r) ==> (baseline ==> r.slower == rows.len()),
        res matches Ok(r) ==> (baseline && rows.len() > 0 ==> r.rows@.len() == rows.len() + 1
            && r.notes@.len() == 0),
        res matches Ok(r) ==> (baseline && rows.len() == 0 ==> r.rows@.len() == 0 && r.notes@.len()
            == 1),
{
    crate::double::theorem_numbers_compare_by_their_bits(
        Double { bits: 0x3FF0000000000000 },
        ratio,
    );
    if let Ok(r) = res {
        assert(texts(r.rows@).len() == r.rows@.len());
        assert(texts(r.notes@).len() == r.notes@.len());
    }
}

/// A run is remembered unless every worker runs every test.
pub proof fn theorem_runs_that_are_remembered(dist: Dist)
    ensures
        !is_remembered(Dist::Each),
        is_remembered(Dist::Load) && is_remembered(Dist::Loadfile) && is_remembered(
            Dist::Loadscope,
        ) && is_remembered(Dist::Loadgroup),
{
}

/// Coverage is reported where it is asked for and the session does not do it itself.
pub proof fn theorem_where_coverage_is_reported(args: Seq<Seq<char>>)
    ensures
        !coverage_is_reported(true, args),
        coverage_is_reported(false, args) <==> crate::coverage_skip::asks_for_coverage(args),
{
}

/// The count of the bar is shown on a terminal, and only with the bar.
pub proof fn theorem_where_the_count_is_shown(
    mode: Mode,
    terminal: bool,
    tally: Tally,
    bar: Seq<char>,
    elapsed: Double,
)
    ensures
        !terminal || mode != Mode::Bar ==> results_text(mode, terminal, tally, bar, elapsed).len()
            == 0,
        results_text(Mode::Bar, true, tally, bar, elapsed) == "\nResults ("@ + elapsed.fixed_text(2)
            + "s):\n  "@ + bar + " "@ + decimal(tally.total()) + "/"@ + decimal(tally.total()),
{
    reveal_strlit("");
}

/// The last line counts warnings where there are any, and ends with the time.
pub proof fn theorem_the_last_line(line: Seq<char>, warnings: nat, elapsed: Double)
    ensures
        summary_text(line, 0, elapsed) == line + " in "@ + elapsed.fixed_text(2) + "s"@,
        warnings > 0 ==> summary_text(line, warnings, elapsed) == line + ", "@ + decimal(warnings)
            + " warnings"@ + " in "@ + elapsed.fixed_text(2) + "s"@,
{
}

/// What failed a run beside its tests is said at the end.
pub proof fn theorem_last_words(slower: usize, gate_failed: bool)
    ensures
        last_words(slower, gate_failed).len() == (if slower > 0 {
            1int
        } else {
            0
        }) + (if gate_failed {
            1int
        } else {
            0
        }),
        slower > 0 ==> last_words(slower, gate_failed)[0] == slower_text(slower),
        gate_failed ==> last_words(slower, gate_failed).last()
            == "rstest: --doctor-fail-on: threshold breach (see doctor gate failures above)"@,
        slower == 1 ==> slower_text(slower) == "rstest: "@ + decimal(1) + " duration regression"@
            + ""@ + " vs baseline (--durations-regress)"@,
        slower >= 2 ==> slower_text(slower) == "rstest: "@ + decimal(slower as nat)
            + " duration regression"@ + "s"@ + " vs baseline (--durations-regress)"@,
{
}

} // verus!
