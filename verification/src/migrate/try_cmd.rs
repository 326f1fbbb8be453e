//! Whether a suite gives the same results under both runners, and how much time
//! is saved.

use super::classify::{failed_tests, failures};
use super::outcomes::Rec;
use crate::double::{Double, ONE, SIXTY, ZERO};
use crate::numbers::{dec, dec_len, decimal, number_up_to, parse_u64};
use crate::ordered_map::{key_at, OrderedKey, OrderedMap, TextSet};
use crate::text::{texts, trim, trimmed};
use vstd::prelude::*;

verus! {

broadcast use {crate::text::lemma_texts_push, crate::text::lemma_texts_add};

/// How far two runs agree.
pub struct Parity {
    /// How many tests there are in either run.
    pub total: usize,
    /// How many tests ended differently.
    pub diffs: usize,
    pub only_py: usize,
    pub only_rs: usize,
    pub identical: bool,
}

/// The tests that are in the first run only.
pub open spec fn only_in(a: Map<Seq<char>, Rec>, b: Map<Seq<char>, Rec>) -> Set<Seq<char>> {
    a.dom().difference(b.dom())
}

/// The tests that are in both runs and ended differently.
pub open spec fn differing(a: Map<Seq<char>, Rec>, b: Map<Seq<char>, Rec>) -> Set<Seq<char>> {
    Set::new(
        |id: Seq<char>| a.contains_key(id) && b.contains_key(id) && a[id].phase != b[id].phase,
    )
}

/// Whether a comparison says how far two runs agree.
pub open spec fn compares(p: Parity, py: Map<Seq<char>, Rec>, rs: Map<Seq<char>, Rec>) -> bool {
    &&& py.dom().union(rs.dom()).finite()
    &&& only_in(py, rs).finite()
    &&& only_in(rs, py).finite()
    &&& differing(py, rs).finite()
    &&& p.total == py.dom().union(rs.dom()).len()
    &&& p.diffs == differing(py, rs).len()
    &&& p.only_py == only_in(py, rs).len()
    &&& p.only_rs == only_in(rs, py).len()
    &&& p.identical == (p.diffs == 0 && p.only_py == 0 && p.only_rs == 0)
}

/// The keys that are marked, among the first `n`.
spec fn marked(list: Seq<(String, Rec)>, marks: Seq<bool>, n: int) -> Set<Seq<char>> {
    Set::new(|x: Seq<char>| exists|j: int| #[trigger] key_at(list, j, x) && j < n && marks[j])
}

fn pick(run: &OrderedMap<String, Rec>, marks: &Vec<bool>) -> (res: TextSet)
    requires
        marks@.len() == run.list().len(),
    ensures
        res@ == marked(run.list(), marks@, run.list().len() as int),
{
    let n = run.len();
    let ghost list = run.list();
    let mut out = TextSet::new();
    let mut i: usize = 0;
    assert(out@ =~= marked(list, marks@, 0));
    while i < n
        invariant
            i <= n,
            n == list.len(),
            list == run.list(),
            marks@.len() == n,
            out@ == marked(list, marks@, i as int),
        decreases n - i,
    {
        let (id, _) = run.at(i);
        let ghost before = marked(list, marks@, i as int);
        let ghost after = marked(list, marks@, i + 1);
        proof {
            assert forall|x: Seq<char>| after.contains(x) == (before.contains(x) || (marks@[i as int]
                && x == id@)) by {
                if after.contains(x) {
                    let j = choose|j: int| #[trigger] key_at(list, j, x) && j < i + 1 && marks@[j];
                    if j < i {
                        assert(key_at(list, j, x) && j < i && marks@[j]);
                    }
                }
                if marks@[i as int] && x == id@ {
                    assert(key_at(list, i as int, x));
                }
                if before.contains(x) {
                    let j = choose|j: int| #[trigger] key_at(list, j, x) && j < i && marks@[j];
                    assert(key_at(list, j, x) && j < i + 1 && marks@[j]);
                }
            }
        }
        if marks[i] {
            out.insert(id.clone());
            assert(out@ =~= after);
        } else {
            assert(out@ =~= after);
        }
        i += 1;
    }
    out
}

/// The tests of a run, and which of them are missing from another or ended
/// differently there.
fn parts(a: &OrderedMap<String, Rec>, b: &OrderedMap<String, Rec>) -> (res: (TextSet, TextSet, TextSet))
    ensures
        res.0@ == a@.dom(),
        res.1@ == only_in(a@, b@),
        res.2@ == differing(a@, b@),
{
    let n = a.len();
    let ghost list = a.list();
    let mut every: Vec<bool> = Vec::new();
    let mut missing: Vec<bool> = Vec::new();
    let mut differs: Vec<bool> = Vec::new();
    let mut i: usize = 0;
    while i < n
        invariant
            i <= n,
            n == list.len(),
            list == a.list(),
            a.listed(),
            every.len() == i,
            missing.len() == i,
            differs.len() == i,
            forall|j: int|
                0 <= j < i ==> every@[j] && missing@[j] == !b@.contains_key((#[trigger] list[j]).0@)
                    && differs@[j] == (b@.contains_key(list[j].0@) && b@[list[j].0@].phase
                    != a@[list[j].0@].phase),
        decreases n - i,
    {
        let (id, r) = a.at(i);
        assert(a@[list[i as int].0.model()] == list[i as int].1);
        let found = b.get(id);
        let gone = found.is_none();
        let other = match found {
            Some(q) => q.phase != r.phase,
            None => false,
        };
        assert(gone == !b@.contains_key(list[i as int].0@));
        assert(a@[list[i as int].0@] == *r);
        assert(other == (b@.contains_key(list[i as int].0@) && b@[list[i as int].0@].phase
            != a@[list[i as int].0@].phase));
        every.push(true);
        missing.push(gone);
        differs.push(other);
        i += 1;
    }
    let s0 = pick(a, &every);
    let s1 = pick(a, &missing);
    let s2 = pick(a, &differs);
    proof {
        assert forall|x: Seq<char>| #![auto]
            s0@.contains(x) == a@.dom().contains(x) && s1@.contains(x) == only_in(a@, b@).contains(x)
                && s2@.contains(x) == differing(a@, b@).contains(x) by {
            if a@.contains_key(x) {
                let j = choose|j: int| #[trigger] key_at(list, j, x);
                assert(list[j].0@ == x);
                assert(key_at(list, j, x) && j < n && every@[j]);
                assert(missing@[j] ==> s1@.contains(x));
                assert(differs@[j] ==> s2@.contains(x));
                if s1@.contains(x) {
                    let k = choose|k: int| #[trigger] key_at(list, k, x) && k < n && missing@[k];
                    assert(list[k].0@ == x);
                }
                if s2@.contains(x) {
                    let k = choose|k: int| #[trigger] key_at(list, k, x) && k < n && differs@[k];
                    assert(list[k].0@ == x);
                }
            } else {
                assert forall|k: int| !#[trigger] key_at(list, k, x) by {
                    if key_at(list, k, x) {
                        assert(a@.contains_key(list[k].0.model()));
                    }
                }
            }
        }
        assert(s0@ =~= a@.dom());
        assert(s1@ =~= only_in(a@, b@));
        assert(s2@ =~= differing(a@, b@));
    }
    (s0, s1, s2)
}

/// Says how far two runs agree.
pub fn compute_parity(py: &OrderedMap<String, Rec>, rs: &OrderedMap<String, Rec>) -> (res: Parity)
    ensures
        compares(res, py@, rs@),
{
    let (all, left, differ) = parts(py, rs);
    let (_, right, _) = parts(rs, py);
    let only_rs = right.len();
    let mut all = all;
    let mut i: usize = 0;
    assert(all@ =~= py@.dom().union(right.list().take(0).to_set()));
    while i < only_rs
        invariant
            i <= only_rs,
            only_rs == right.list().len(),
            all@ == py@.dom().union(right.list().take(i as int).to_set()),
        decreases only_rs - i,
    {
        let ghost before = all@;
        let ghost t = right.list().take(i as int);
        let ghost u = right.list().take(i + 1);
        all.insert(right.at(i).clone());
        proof {
            assert(u =~= t.push(right.list()[i as int]));
            assert forall|x: Seq<char>| u.to_set().contains(x) == (t.to_set().contains(x) || x
                == right.list()[i as int]) by {
                if t.contains(x) {
                    let k = choose|k: int| 0 <= k < t.len() && t[k] == x;
                    assert(u[k] == x);
                }
                if x == right.list()[i as int] {
                    assert(u[i as int] == x);
                }
            }
            assert(all@ =~= py@.dom().union(u.to_set()));
        }
        i += 1;
    }
    proof {
        assert(right.list().take(only_rs as int) =~= right.list());
        assert forall|x: Seq<char>| all@.contains(x) == py@.dom().union(rs@.dom()).contains(x) by {
            assert(right@.contains(x) == right.list().contains(x));
        }
        assert(all@ =~= py@.dom().union(rs@.dom()));
    }
    let total = all.len();
    let diffs = differ.len();
    let only_py = left.len();
    Parity {
        total,
        diffs,
        only_py,
        only_rs,
        identical: only_py == 0 && only_rs == 0 && diffs == 0,
    }
}

/// Runs are called identical exactly where every test is in both or in neither,
/// and passed in both or in neither.
pub proof fn theorem_identical_runs(
    p: Parity,
    py: Map<Seq<char>, Rec>,
    rs: Map<Seq<char>, Rec>,
)
    requires
        compares(p, py, rs),
    ensures
        p.identical <==> forall|id: Seq<char>| #[trigger]
            py.contains_key(id) == rs.contains_key(id) && (py.contains_key(id) ==> py[id].phase
                == rs[id].phase),
{
    if p.identical {
        assert forall|id: Seq<char>| #[trigger]
            py.contains_key(id) == rs.contains_key(id) && (py.contains_key(id) ==> py[id].phase
                == rs[id].phase) by {
            if only_in(py, rs).contains(id) {
                vstd::set_lib::lemma_set_empty_equivalency_len(only_in(py, rs));
                assert(only_in(py, rs) =~= Set::empty());
            }
            if only_in(rs, py).contains(id) {
                vstd::set_lib::lemma_set_empty_equivalency_len(only_in(rs, py));
                assert(only_in(rs, py) =~= Set::empty());
            }
            if differing(py, rs).contains(id) {
                vstd::set_lib::lemma_set_empty_equivalency_len(differing(py, rs));
                assert(differing(py, rs) =~= Set::empty());
            }
        }
    } else {
        if forall|id: Seq<char>| #[trigger]
            py.contains_key(id) == rs.contains_key(id) && (py.contains_key(id) ==> py[id].phase
                == rs[id].phase) {
            assert(only_in(py, rs) =~= Set::empty());
            assert(only_in(rs, py) =~= Set::empty());
            assert(differing(py, rs) =~= Set::empty());
        }
    }
}

/// A time in seconds, with its whole minutes and the seconds beyond them.
#[derive(Clone, Copy, Debug, PartialEq, Eq, Structural)]
pub struct Seconds {
    pub all: Double,
    pub minutes: Double,
    pub rest: Double,
}

/// A text with at least two characters, filled up with a zero in front.
pub open spec fn two_digits(s: Seq<char>) -> Seq<char> {
    if s.len() < 2 {
        "0"@ + s
    } else {
        s
    }
}

/// A time as it is printed: in minutes and seconds from a minute on.
pub open spec fn span_text(s: Seconds) -> Seq<char> {
    if s.all.at_least(Double { bits: SIXTY }) {
        s.minutes.fixed_text(0) + "m"@ + two_digits(s.rest.fixed_text(0)) + "s"@
    } else {
        s.all.fixed_text(1) + "s"@
    }
}

/// Writes a time: in minutes and seconds from a minute on.
pub fn fmt_secs(s: &Seconds) -> (res: String)
    ensures
        res@ == span_text(*s),
{
    if s.all.ge(&Double { bits: SIXTY }) {
        let rest = s.rest.fixed(0);
        let padded = if rest.as_str().unicode_len() < 2 {
            let mut out = String::from_str("0");
            out.append(rest.as_str());
            out
        } else {
            rest
        };
        let mut out = s.minutes.fixed(0);
        out.append("m");
        out.append(padded.as_str());
        out.append("s");
        out
    } else {
        let mut out = s.all.fixed(1);
        out.append("s");
        out
    }
}

/// How many commits there were lately, by what the version control printed.
pub open spec fn commits_in(success: bool, stdout: Seq<char>) -> Option<nat> {
    if success {
        match number_up_to(trimmed(stdout), u64::MAX as nat) {
            Some(n) => if n > 0 {
                Some(n)
            } else {
                None
            },
            None => None,
        }
    } else {
        None
    }
}

/// Reads how many commits there were lately.
pub fn commits(success: bool, stdout: &str) -> (res: Option<u64>)
    ensures
        match res {
            Some(n) => commits_in(success, stdout@) == Some(n as nat),
            None => commits_in(success, stdout@) is None,
        },
{
    if !success {
        return None;
    }
    match parse_u64(trim(stdout).as_str()) {
        Some(n) => if n > 0 {
            Some(n)
        } else {
            None
        },
        None => None,
    }
}

/// How long the runs took.
#[derive(Clone, Copy, Debug)]
pub struct Speed {
    pub py: Seconds,
    pub rs: Seconds,
    /// The first time over the second.
    pub quotient: Double,
    /// The difference of the times.
    pub saved: Seconds,
    /// How many commits there were lately, and the difference times that.
    pub month: Option<(u64, Seconds)>,
}

/// The line on runs that agree.
pub open spec fn identical_line_text(p: Parity) -> Seq<char> {
    "  ✓ parity:  "@ + decimal(p.total as nat) + " tests — identical outcomes to pytest"@
}

/// Writes the line on runs that agree.
fn identical_line(p: &Parity) -> (res: String)
    ensures
        res@ == identical_line_text(*p),
{
    let mut out = String::from_str("  ✓ parity:  ");
    out.append(dec_len(p.total).as_str());
    out.append(" tests — identical outcomes to pytest");
    out
}

/// The line on runs that differ.
pub open spec fn different_line_text(p: Parity) -> Seq<char> {
    "  ⚠ parity:  "@ + decimal((p.diffs + p.only_py + p.only_rs) as nat) + " of "@ + decimal(
        p.total as nat,
    ) + " tests differ ("@ + decimal(p.diffs as nat) + " different outcome, "@ + decimal(
        p.only_py as nat,
    ) + " only in pytest, "@ + decimal(p.only_rs as nat) + " only in rstest)"@
}

fn different_line(p: &Parity) -> (res: String)
    requires
        p.diffs + p.only_py + p.only_rs <= usize::MAX,
    ensures
        res@ == different_line_text(*p),
{
    let mut out = String::from_str("  ⚠ parity:  ");
    out.append(dec_len(p.diffs + p.only_py + p.only_rs).as_str());
    out.append(" of ");
    out.append(dec_len(p.total).as_str());
    out.append(" tests differ (");
    out.append(dec_len(p.diffs).as_str());
    out.append(" different outcome, ");
    out.append(dec_len(p.only_py).as_str());
    out.append(" only in pytest, ");
    out.append(dec_len(p.only_rs).as_str());
    out.append(" only in rstest)");
    out
}

/// How many times faster the second run was.
pub open spec fn speedup(s: Speed) -> Double {
    if (Double { bits: ZERO }).less(s.rs.all) {
        s.quotient
    } else {
        Double { bits: ZERO }
    }
}

/// The line on how long the runs took.
pub open spec fn speed_line_text(s: Speed) -> Seq<char> {
    "  ⚡ speed:   pytest "@ + span_text(s.py) + "  →  rstest "@ + span_text(s.rs) + "   ("@
        + speedup(s).fixed_text(1) + "× at -n auto)"@
}

fn speed_line(s: &Speed) -> (res: String)
    ensures
        res@ == speed_line_text(*s),
{
    let zero = Double { bits: ZERO };
    let times = if zero.lt(&s.rs.all) {
        s.quotient
    } else {
        zero
    };
    let mut out = String::from_str("  ⚡ speed:   pytest ");
    out.append(fmt_secs(&s.py).as_str());
    out.append("  →  rstest ");
    out.append(fmt_secs(&s.rs).as_str());
    out.append("   (");
    out.append(times.fixed(1).as_str());
    out.append("× at -n auto)");
    out
}

/// The line on how much time is saved.
pub open spec fn saved_line_text(s: Speed) -> Seq<char> {
    match s.month {
        Some(m) => "  💸 saves   "@ + span_text(s.saved) + " per run — ≈ "@ + span_text(m.1)
            + " over your last 30 days ("@ + decimal(m.0 as nat) + " commits ≈ CI runs)"@,
        None => "  💸 saves   "@ + span_text(s.saved) + " per run"@,
    }
}

fn saved_line(s: &Speed) -> (res: String)
    ensures
        res@ == saved_line_text(*s),
{
    let mut out = String::from_str("  💸 saves   ");
    out.append(fmt_secs(&s.saved).as_str());
    match s.month {
        Some(m) => {
            out.append(" per run — ≈ ");
            out.append(fmt_secs(&m.1).as_str());
            out.append(" over your last 30 days (");
            out.append(dec(m.0).as_str());
            out.append(" commits ≈ CI runs)");
        },
        None => {
            out.append(" per run");
        },
    }
    out
}

/// The line on a suite that fails under the first runner too.
pub open spec fn red_line_text(n: usize) -> Seq<char> {
    "  note: your pytest run was already red ("@ + decimal(n as nat)
        + " failing) — that's pre-existing, not caused by rstest."@
}

/// Writes the line on a suite that fails under the first runner too.
fn red_line(n: usize) -> (res: String)
    ensures
        res@ == red_line_text(n),
{
    let mut out = String::from_str("  note: your pytest run was already red (");
    out.append(dec_len(n).as_str());
    out.append(" failing) — that's pre-existing, not caused by rstest.");
    out
}

/// What is printed where the first runner gave no results.
pub open spec fn no_baseline_text() -> Seq<char> {
    "rstest try: couldn't run pytest (is it installed and your suite collectable?).\nTry `python -m pytest -q` yourself, then re-run `rstest try`."@
}

/// What is printed where the second runner gave no results.
pub open spec fn no_results_text() -> Seq<char> {
    "rstest try: rstest produced no run (it may have refused to dispatch — often an unstable parametrize id). Run `rstest migrate-check` to see why."@
}

/// The lines of the report on two runs, given how many tests fail under the first.
pub open spec fn try_lines(p: Parity, s: Speed, py_code: i32, failing: usize) -> Seq<Seq<char>> {
    let head = seq![
        "\n================= rstest try ================="@,
        if p.identical {
            identical_line_text(p)
        } else {
            different_line_text(p)
        },
        speed_line_text(s),
    ];
    let saved = if s.saved.all.at_least(Double { bits: ONE }) {
        head.push(saved_line_text(s))
    } else {
        head
    };
    let ruled = saved.push("================================================"@);
    let red = if py_code != 0 {
        ruled.push(red_line_text(failing))
    } else {
        ruled
    };
    red.push(
        if p.identical {
            "  → drop-in ready: `rstest` is `pytest`, in parallel. Switch with confidence."@
        } else {
            "  → some tests differ. Could be a pytest-version difference or a real parallel-only\n    issue — run `rstest migrate-check` to classify each and get the fix."@
        },
    )
}

/// Makes the report on two runs: the lines to print, and the code to exit with.
pub fn report_on(p: &Parity, s: &Speed, py_code: i32, failing: usize) -> (res: (Vec<String>, i32))
    requires
        p.diffs + p.only_py + p.only_rs <= usize::MAX,
    ensures
        texts(res.0@) == try_lines(*p, *s, py_code, failing),
        res.1 == try_exit(*p),
{
    let mut out: Vec<String> = Vec::new();
    out.push("\n================= rstest try =================".to_owned());
    if p.identical {
        out.push(identical_line(p));
    } else {
        out.push(different_line(p));
    }
    out.push(speed_line(s));
    assert(texts(out@) =~= seq![
        "\n================= rstest try ================="@,
        if p.identical {
            identical_line_text(*p)
        } else {
            different_line_text(*p)
        },
        speed_line_text(*s),
    ]);
    if s.saved.all.ge(&Double { bits: ONE }) {
        out.push(saved_line(s));
    }
    out.push("================================================".to_owned());
    if py_code != 0 {
        out.push(red_line(failing));
    }
    if p.identical {
        out.push(
            "  → drop-in ready: `rstest` is `pytest`, in parallel. Switch with confidence.".to_owned(),
        );
    } else {
        out.push(
            "  → some tests differ. Could be a pytest-version difference or a real parallel-only\n    issue — run `rstest migrate-check` to classify each and get the fix.".to_owned(),
        );
    }
    (
        out,
        if p.identical {
            0
        } else {
            1
        },
    )
}

/// The three kinds of tests that differ have no test in common, so there are no more
/// of them than tests.
proof fn lemma_differences_fit(p: Parity, py: Map<Seq<char>, Rec>, rs: Map<Seq<char>, Rec>)
    requires
        compares(p, py, rs),
    ensures
        p.diffs + p.only_py + p.only_rs <= p.total,
{
    let a = differing(py, rs);
    let b = only_in(py, rs);
    let c = only_in(rs, py);
    assert(a.disjoint(b)) by {
        assert(a.intersect(b) =~= Set::empty());
    }
    vstd::set_lib::lemma_set_disjoint_lens(a, b);
    assert(a.union(b).disjoint(c)) by {
        assert(a.union(b).intersect(c) =~= Set::empty());
    }
    vstd::set_lib::lemma_set_disjoint_lens(a.union(b), c);
    let all = py.dom().union(rs.dom());
    assert(a.union(b).union(c).subset_of(all));
    vstd::set_lib::lemma_len_subset(a.union(b).union(c), all);
}

/// Makes the report on two runs, either of which may have given no results: the
/// lines to print, and the code to exit with.
pub fn try_report(
    py: &Option<OrderedMap<String, Rec>>,
    rs: &Option<OrderedMap<String, Rec>>,
    s: &Speed,
    py_code: i32,
) -> (res: (Vec<String>, i32))
    ensures
        tried(*py, *rs, *s, py_code, res.0@, res.1),
{
    let mut out: Vec<String> = Vec::new();
    match py {
        None => {
            out.push(
                "rstest try: couldn't run pytest (is it installed and your suite collectable?).\nTry `python -m pytest -q` yourself, then re-run `rstest try`.".to_owned(),
            );
            assert(texts(out@) =~= seq![no_baseline_text()]);
            (out, 2)
        },
        Some(a) => match rs {
            None => {
                out.push(
                    "rstest try: rstest produced no run (it may have refused to dispatch — often an unstable parametrize id). Run `rstest migrate-check` to see why.".to_owned(),
                );
                assert(texts(out@) =~= seq![no_results_text()]);
                (out, 2)
            },
            Some(b) => {
                let p = compute_parity(a, b);
                proof {
                    lemma_differences_fit(p, a@, b@);
                }
                let failed = failed_tests(a);
                assert(texts(failed@).len() == failed@.len());
                let r = report_on(&p, s, py_code, failed.len());
                assert(compares(p, a@, b@));
                r
            },
        },
    }
}

/// Whether lines and a code are the report on two runs.
pub open spec fn reported(
    py: OrderedMap<String, Rec>,
    rs: OrderedMap<String, Rec>,
    s: Speed,
    py_code: i32,
    lines: Seq<String>,
    code: i32,
) -> bool {
    exists|p: Parity| #[trigger]
        compares(p, py@, rs@) && texts(lines) == try_lines(
            p,
            s,
            py_code,
            failures(py.list()).len() as usize,
        ) && code == try_exit(p)
}

/// With what code a comparison ends.
pub open spec fn try_exit(p: Parity) -> int {
    if p.identical {
        0
    } else {
        1
    }
}

/// A comparison succeeds just where the same tests were in both runs and each ended the same
/// way in both.
pub proof fn theorem_success_is_the_same_outcome(
    p: Parity,
    py: Map<Seq<char>, Rec>,
    rs: Map<Seq<char>, Rec>,
)
    requires
        compares(p, py, rs),
    ensures
        try_exit(p) == 0 || try_exit(p) == 1,
        try_exit(p) == 0 <==> py.dom() =~= rs.dom() && forall|id: Seq<char>| #[trigger]
            py.contains_key(id) ==> py[id].phase == rs[id].phase,
{
    theorem_identical_runs(p, py, rs);
    if try_exit(p) == 0 {
        assert forall|id: Seq<char>| py.dom().contains(id) == rs.dom().contains(id) by {
            assert(py.contains_key(id) == rs.contains_key(id));
        }
        assert(py.dom() =~= rs.dom());
    } else if py.dom() =~= rs.dom() && forall|id: Seq<char>| #[trigger]
        py.contains_key(id) ==> py[id].phase == rs[id].phase {
        assert forall|id: Seq<char>| #[trigger]
            py.contains_key(id) == rs.contains_key(id) && (py.contains_key(id) ==> py[id].phase
                == rs[id].phase) by {
            assert(py.dom().contains(id) == rs.dom().contains(id));
        }
    }
}

/// Which run came first matters only for which tests are called those of one run.
pub proof fn theorem_comparing_the_other_way_round(
    p: Parity,
    q: Parity,
    py: Map<Seq<char>, Rec>,
    rs: Map<Seq<char>, Rec>,
)
    requires
        compares(p, py, rs),
        compares(q, rs, py),
    ensures
        p.total == q.total,
        p.diffs == q.diffs,
        p.only_py == q.only_rs,
        p.only_rs == q.only_py,
        p.identical == q.identical,
{
    assert(py.dom().union(rs.dom()) =~= rs.dom().union(py.dom()));
    assert(differing(py, rs) =~= differing(rs, py));
}

/// Every test is in one run only, or in both with the same outcome or with another.
pub proof fn theorem_tests_that_differ(
    p: Parity,
    py: Map<Seq<char>, Rec>,
    rs: Map<Seq<char>, Rec>,
)
    requires
        compares(p, py, rs),
        py.dom().finite() && rs.dom().finite(),
    ensures
        p.total == rs.dom().len() + p.only_py,
        p.total == py.dom().len() + p.only_rs,
        p.diffs <= p.total - p.only_py - p.only_rs,
{
    let both = py.dom().intersect(rs.dom());
    assert(py.dom().union(rs.dom()) =~= rs.dom().union(only_in(py, rs)));
    assert(rs.dom().disjoint(only_in(py, rs)));
    vstd::set_lib::lemma_set_disjoint_lens(rs.dom(), only_in(py, rs));
    assert(py.dom().union(rs.dom()) =~= py.dom().union(only_in(rs, py)));
    assert(py.dom().disjoint(only_in(rs, py)));
    vstd::set_lib::lemma_set_disjoint_lens(py.dom(), only_in(rs, py));
    assert(both.union(only_in(py, rs)) =~= py.dom());
    assert(both.disjoint(only_in(py, rs)));
    vstd::set_lib::lemma_set_disjoint_lens(both, only_in(py, rs));
    assert(differing(py, rs).subset_of(both));
    vstd::set_lib::lemma_len_subset(differing(py, rs), both);
}

/// A time is shown in minutes and seconds from a minute on, and else in seconds with a
/// tenth. The bound is sixty, by its bits.
pub proof fn theorem_minutes_from_sixty_seconds_on(s: Seconds)
    requires
        s.all.bits <= 0x7FF0000000000000,
    ensures
        s.all.bits >= 0x404E000000000000 ==> span_text(s) == s.minutes.fixed_text(0) + "m"@
            + two_digits(s.rest.fixed_text(0)) + "s"@,
        s.all.bits < 0x404E000000000000 ==> span_text(s) == s.all.fixed_text(1) + "s"@,
        s.rest.fixed_text(0).len() >= 2 ==> two_digits(s.rest.fixed_text(0))
            == s.rest.fixed_text(0),
        s.rest.fixed_text(0).len() == 1 ==> two_digits(s.rest.fixed_text(0)) == seq![
            '0',
            s.rest.fixed_text(0)[0],
        ],
{
    reveal_strlit("0");
    crate::double::theorem_numbers_compare_by_their_bits(
        s.all,
        Double { bits: 0x404E000000000000 },
    );
    let t = s.rest.fixed_text(0);
    if t.len() == 1 {
        assert(two_digits(t) =~= seq!['0', t[0]]);
    }
}

/// What is saved is told of from one second on, a failing run of pytest where it failed, and
/// the last line says whether to switch.
pub proof fn theorem_lines_of_a_comparison(p: Parity, s: Speed, py_code: i32, failing: usize)
    requires
        s.saved.all.bits <= 0x7FF0000000000000,
    ensures
        ({
            let lines = try_lines(p, s, py_code, failing);
            let saved = s.saved.all.bits >= 0x3FF0000000000000;
            &&& lines.len() == 5 + (if saved {
                1int
            } else {
                0
            }) + (if py_code != 0 {
                1int
            } else {
                0
            })
            &&& lines[1] == (if p.identical {
                identical_line_text(p)
            } else {
                different_line_text(p)
            })
            &&& lines[2] == speed_line_text(s)
            &&& saved ==> lines[3] == saved_line_text(s)
            &&& py_code != 0 ==> lines[lines.len() - 2] == red_line_text(failing)
            &&& p.identical ==> lines.last()
                == "  → drop-in ready: `rstest` is `pytest`, in parallel. Switch with confidence."@
            &&& !p.identical ==> lines.last()
                == "  → some tests differ. Could be a pytest-version difference or a real parallel-only\n    issue — run `rstest migrate-check` to classify each and get the fix."@
        }),
{
    crate::double::theorem_numbers_compare_by_their_bits(
        s.saved.all,
        Double { bits: 0x3FF0000000000000 },
    );
}

/// A run is so many times as fast as the quotient of the times says, where it took any time.
pub proof fn theorem_speedup_of_a_run_that_took_time(s: Speed)
    requires
        s.rs.all.bits <= 0x7FF0000000000000,
    ensures
        s.rs.all.bits > 0 ==> speedup(s) == s.quotient,
        s.rs.all.bits == 0 ==> speedup(s).bits == 0,
{
    crate::double::theorem_numbers_compare_by_their_bits(Double { bits: 0 }, s.rs.all);
}

/// Commits are counted where the command succeeded and printed a number that is not zero,
/// with white space around it or without.
pub proof fn theorem_commits_are_counted(success: bool, out: Seq<char>)
    ensures
        !success ==> commits_in(success, out) is None,
        commits_in(success, out) matches Some(n) ==> 0 < n <= u64::MAX && number_up_to(
            trimmed(out),
            u64::MAX as nat,
        ) == Some(n),
        success ==> (number_up_to(trimmed(out), u64::MAX as nat) matches Some(n) ==> (n > 0
            ==> commits_in(success, out) == Some(n)) && (n == 0 ==> commits_in(
            success,
            out,
        ) is None)),
        success && number_up_to(trimmed(out), u64::MAX as nat) is None ==> commits_in(
            success,
            out,
        ) is None,
{
}

/// Whether lines and a code tell of a comparison, where there is one.
pub open spec fn tried(
    py: Option<OrderedMap<String, Rec>>,
    rs: Option<OrderedMap<String, Rec>>,
    s: Speed,
    py_code: i32,
    lines: Seq<String>,
    code: i32,
) -> bool {
    match (py, rs) {
        (None, _) => texts(lines) == seq![no_baseline_text()] && code == 2,
        (Some(_), None) => texts(lines) == seq![no_results_text()] && code == 2,
        (Some(a), Some(b)) => reported(a, b, s, py_code, lines, code),
    }
}

/// Without both runs there is no comparison, which has a code of its own; with both it
/// succeeds just where every test was in both and ended the same way.
pub proof fn theorem_a_comparison_needs_both_runs(
    py: Option<OrderedMap<String, Rec>>,
    rs: Option<OrderedMap<String, Rec>>,
    s: Speed,
    py_code: i32,
    lines: Seq<String>,
    code: i32,
)
    requires
        tried(py, rs, s, py_code, lines, code),
    ensures
        py is None || rs is None <==> code == 2,
        py is None || rs is None ==> lines.len() == 1,
        py matches Some(a) ==> (rs matches Some(b) ==> (code == 0 <==> a@.dom() =~= b@.dom()
            && forall|id: Seq<char>| #[trigger]
            a@.contains_key(id) ==> a@[id].phase == b@[id].phase)),
{
    assert(texts(lines).len() == lines.len());
    if py is Some && rs is Some {
        let a = py.unwrap();
        let b = rs.unwrap();
        let p = choose|p: Parity| #[trigger]
            compares(p, a@, b@) && texts(lines) == try_lines(
                p,
                s,
                py_code,
                failures(a.list()).len() as usize,
            ) && code == try_exit(p);
        theorem_success_is_the_same_outcome(p, a@, b@);
    }
}

} // verus!
