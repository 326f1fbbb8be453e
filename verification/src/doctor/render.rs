//! The report as text: for the terminal, and as a markdown job summary.

use super::report::{
    DoctorReport, FileEntry, FixtureEntry, GateTest, Leak, ParallelEfficiency, ParallelFloor,
    WaitBound, WaitTest, WorkerLoad,
};
use crate::double::{Double, HALF, HUNDRED_FIVE, ONE};
use crate::numbers::{dec, dec_len, decimal};
use crate::text::{
    align_left, align_right, left_aligned, opt_text, right_aligned, str_eq, texts,
};
use vstd::prelude::*;

verus! {

broadcast use {crate::text::lemma_texts_push, crate::text::lemma_texts_add};

/// The ending of a noun after a number.
pub open spec fn ending(n: int) -> Seq<char> {
    if n == 1 {
        ""@
    } else {
        "s"@
    }
}

/// What a test left open, such as `+3 threads +5 fds`.
pub open spec fn leak_delta_text(l: Leak) -> Seq<char> {
    let threads = "+"@ + decimal(l.threads as nat) + " thread"@ + ending(l.threads as int);
    let fds = "+"@ + decimal(l.fds as nat) + " fd"@ + ending(l.fds as int);
    if l.threads > 0 && l.fds > 0 {
        threads + " "@ + fds
    } else if l.threads > 0 {
        threads
    } else if l.fds > 0 {
        fds
    } else {
        ""@
    }
}

fn plural(n: i64) -> (res: String)
    ensures
        res@ == ending(n as int),
{
    if n == 1 {
        "".to_owned()
    } else {
        "s".to_owned()
    }
}

fn counted(n: i64, noun: &str) -> (res: String)
    requires
        n > 0,
    ensures
        res@ == "+"@ + decimal(n as nat) + noun@ + ending(n as int),
{
    let mut out = String::from_str("+");
    out.append(dec(n as u64).as_str());
    out.append(noun);
    out.append(plural(n).as_str());
    out
}

/// Writes what a test left open.
pub fn leak_delta(l: &Leak) -> (res: String)
    ensures
        res@ == leak_delta_text(*l),
{
    if l.threads > 0 && l.fds > 0 {
        let mut out = counted(l.threads, " thread");
        out.append(" ");
        out.append(counted(l.fds, " fd").as_str());
        out
    } else if l.threads > 0 {
        counted(l.threads, " thread")
    } else if l.fds > 0 {
        counted(l.fds, " fd")
    } else {
        "".to_owned()
    }
}

/// A number of items, and no more than so many.
pub open spec fn capped(len: nat, cap: nat) -> nat {
    if len < cap {
        len
    } else {
        cap
    }
}

fn cap_len(len: usize, cap: usize) -> (res: usize)
    ensures
        res == capped(len as nat, cap as nat),
{
    if len < cap {
        len
    } else {
        cap
    }
}

/// The fixtures worth telling of, by position: those that took half a second.
pub open spec fn hot(fx: Seq<FixtureEntry>) -> Seq<int>
    decreases fx.len(),
{
    if fx.len() == 0 {
        Seq::empty()
    } else {
        let before = hot(fx.drop_last());
        if fx.last().total_seconds.at_least(Double { bits: HALF }) {
            before.push(fx.len() - 1)
        } else {
            before
        }
    }
}

/// The first eight fixtures worth telling of.
pub open spec fn shown_fixtures(fx: Seq<FixtureEntry>) -> Seq<int> {
    hot(fx).take(capped(hot(fx).len(), 8) as int)
}

proof fn lemma_hot_in_range(fx: Seq<FixtureEntry>)
    ensures
        forall|i: int| 0 <= i < hot(fx).len() ==> 0 <= #[trigger] hot(fx)[i] < fx.len(),
    decreases fx.len(),
{
    if fx.len() > 0 {
        let before = hot(fx.drop_last());
        lemma_hot_in_range(fx.drop_last());
        assert forall|i: int| 0 <= i < hot(fx).len() implies 0 <= #[trigger] hot(fx)[i]
            < fx.len() by {
            if i < before.len() {
                assert(hot(fx)[i] == before[i]);
            }
        }
    }
}

fn pick_fixtures(fx: &[FixtureEntry]) -> (res: Vec<usize>)
    ensures
        crate::rank::positions(res@) == shown_fixtures(fx@),
        forall|i: int| 0 <= i < res@.len() ==> #[trigger] res@[i] < fx@.len(),
{
    let mut at: Vec<usize> = Vec::new();
    let mut i: usize = 0;
    assert(crate::rank::positions(at@) =~= hot(fx@.take(0)));
    while i < fx.len()
        invariant
            i <= fx.len(),
            crate::rank::positions(at@) == hot(fx@.take(i as int)),
        decreases fx.len() - i,
    {
        assert(fx@.take(i + 1).drop_last() =~= fx@.take(i as int));
        let ghost before = crate::rank::positions(at@);
        if fx[i].total_seconds.ge(&Double { bits: HALF }) {
            at.push(i);
            assert(crate::rank::positions(at@) =~= before.push(i as int));
        }
        i += 1;
    }
    proof {
        assert(fx@.take(fx.len() as int) =~= fx@);
        lemma_hot_in_range(fx@);
        assert forall|i: int| 0 <= i < at@.len() implies #[trigger] at@[i] < fx@.len() by {
            assert(crate::rank::positions(at@)[i] == at@[i]);
        }
    }
    let n = cap_len(at.len(), 8);
    let ghost whole = at@;
    at.truncate(n);
    assert(crate::rank::positions(at@) =~= shown_fixtures(fx@));
    at
}

/// What to do about a fixture that takes long, for the job summary.
pub open spec fn fixture_advice(f: FixtureEntry) -> Seq<char> {
    if f.scope@ == "function"@ && f.count >= 20 && f.total_seconds.at_least(Double { bits: ONE }) {
        "ran many times; widen scope if value is reusable"@
    } else if f.scope@ == "session"@ && f.count > 1 {
        "session fixture ran once per worker; must be safe to duplicate"@
    } else {
        ""@
    }
}

fn advise(f: &FixtureEntry) -> (res: String)
    ensures
        res@ == fixture_advice(*f),
{
    if str_eq(f.scope.as_str(), "function") && f.count >= 20 && f.total_seconds.ge(
        &Double { bits: ONE },
    ) {
        "ran many times; widen scope if value is reusable".to_owned()
    } else if str_eq(f.scope.as_str(), "session") && f.count > 1 {
        "session fixture ran once per worker; must be safe to duplicate".to_owned()
    } else {
        "".to_owned()
    }
}

/// What to do about a fixture that takes long, for the terminal.
pub open spec fn fixture_hint(f: FixtureEntry) -> Seq<char> {
    if f.scope@ == "function"@ && f.count >= 20 && f.total_seconds.at_least(Double { bits: ONE }) {
        "  <- ran many times; widen scope if value is reusable"@
    } else if f.scope@ == "session"@ && f.count > 1 {
        "  <- session fixture ran once PER WORKER; must be safe to duplicate (DBs, servers, ports)"@
    } else {
        ""@
    }
}

fn hint(f: &FixtureEntry) -> (res: String)
    ensures
        res@ == fixture_hint(*f),
{
    if str_eq(f.scope.as_str(), "function") && f.count >= 20 && f.total_seconds.ge(
        &Double { bits: ONE },
    ) {
        "  <- ran many times; widen scope if value is reusable".to_owned()
    } else if str_eq(f.scope.as_str(), "session") && f.count > 1 {
        "  <- session fixture ran once PER WORKER; must be safe to duplicate (DBs, servers, ports)".to_owned()
    } else {
        "".to_owned()
    }
}

/// A row of the table of waiting tests.
pub open spec fn md_wait_text(t: WaitTest) -> Seq<char> {
    "| "@ + t.wait.fixed_text(2) + "s | "@ + t.duration.fixed_text(2) + "s | `"@ + t.nodeid@
        + "` |\n"@
}

/// Writes a row of the table of waiting tests.
fn md_wait(t: &WaitTest) -> (res: String)
    ensures
        res@ == md_wait_text(*t),
{
    let mut out = String::from_str("| ");
    out.append(t.wait.fixed(2).as_str());
    out.append("s | ");
    out.append(t.duration.fixed(2).as_str());
    out.append("s | `");
    out.append(t.nodeid.as_str());
    out.append("` |\n");
    out
}

/// The first rows of the table of waiting tests.
pub open spec fn md_waits_text(rows: Seq<WaitTest>, n: nat) -> Seq<char>
    decreases n,
{
    if n == 0 {
        Seq::empty()
    } else {
        md_waits_text(rows, (n - 1) as nat) + md_wait_text(rows[n - 1])
    }
}

fn md_waits(rows: &[WaitTest], n: usize) -> (res: String)
    requires
        n <= rows@.len(),
    ensures
        res@ == md_waits_text(rows@, n as nat),
{
    let mut out = String::new();
    let mut i: usize = 0;
    assert(out@ =~= md_waits_text(rows@, 0));
    while i < n
        invariant
            i <= n <= rows@.len(),
            out@ == md_waits_text(rows@, i as nat),
        decreases n - i,
    {
        out.append(md_wait(&rows[i]).as_str());
        i += 1;
    }
    out
}

/// A row of the table of long tests.
pub open spec fn md_gate_text(t: GateTest) -> Seq<char> {
    "| "@ + t.duration.fixed_text(2) + "s | `"@ + t.nodeid@ + "` |\n"@
}

/// Writes a row of the table of long tests.
fn md_gate(t: &GateTest) -> (res: String)
    ensures
        res@ == md_gate_text(*t),
{
    let mut out = String::from_str("| ");
    out.append(t.duration.fixed(2).as_str());
    out.append("s | `");
    out.append(t.nodeid.as_str());
    out.append("` |\n");
    out
}

/// The first rows of the table of long tests.
pub open spec fn md_gates_text(rows: Seq<GateTest>, n: nat) -> Seq<char>
    decreases n,
{
    if n == 0 {
        Seq::empty()
    } else {
        md_gates_text(rows, (n - 1) as nat) + md_gate_text(rows[n - 1])
    }
}

fn md_gates(rows: &[GateTest], n: usize) -> (res: String)
    requires
        n <= rows@.len(),
    ensures
        res@ == md_gates_text(rows@, n as nat),
{
    let mut out = String::new();
    let mut i: usize = 0;
    assert(out@ =~= md_gates_text(rows@, 0));
    while i < n
        invariant
            i <= n <= rows@.len(),
            out@ == md_gates_text(rows@, i as nat),
        decreases n - i,
    {
        out.append(md_gate(&rows[i]).as_str());
        i += 1;
    }
    out
}

/// A row of the table of workers.
pub open spec fn md_worker_text(w: WorkerLoad) -> Seq<char> {
    "| `"@ + w.worker@ + "` | "@ + w.busy_seconds.fixed_text(2) + "s | "@
        + decimal(w.tests as nat) + " |\n"@
}

/// Writes a row of the table of workers.
fn md_worker(w: &WorkerLoad) -> (res: String)
    ensures
        res@ == md_worker_text(*w),
{
    let mut out = String::from_str("| `");
    out.append(w.worker.as_str());
    out.append("` | ");
    out.append(w.busy_seconds.fixed(2).as_str());
    out.append("s | ");
    out.append(dec_len(w.tests).as_str());
    out.append(" |\n");
    out
}

/// The first rows of the table of workers.
pub open spec fn md_workers_text(rows: Seq<WorkerLoad>, n: nat) -> Seq<char>
    decreases n,
{
    if n == 0 {
        Seq::empty()
    } else {
        md_workers_text(rows, (n - 1) as nat) + md_worker_text(rows[n - 1])
    }
}

fn md_workers(rows: &[WorkerLoad], n: usize) -> (res: String)
    requires
        n <= rows@.len(),
    ensures
        res@ == md_workers_text(rows@, n as nat),
{
    let mut out = String::new();
    let mut i: usize = 0;
    assert(out@ =~= md_workers_text(rows@, 0));
    while i < n
        invariant
            i <= n <= rows@.len(),
            out@ == md_workers_text(rows@, i as nat),
        decreases n - i,
    {
        out.append(md_worker(&rows[i]).as_str());
        i += 1;
    }
    out
}

/// A row of the table of fixtures.
pub open spec fn md_fixture_text(f: FixtureEntry) -> Seq<char> {
    "| `"@ + f.name@ + "` | "@ + f.scope@ + " | "@ + decimal(f.count as nat) + " | "@
        + f.total_seconds.fixed_text(1) + "s | "@ + fixture_advice(f) + " |\n"@
}

/// Writes a row of the table of fixtures.
fn md_fixture(f: &FixtureEntry) -> (res: String)
    ensures
        res@ == md_fixture_text(*f),
{
    let mut out = String::from_str("| `");
    out.append(f.name.as_str());
    out.append("` | ");
    out.append(f.scope.as_str());
    out.append(" | ");
    out.append(dec(f.count).as_str());
    out.append(" | ");
    out.append(f.total_seconds.fixed(1).as_str());
    out.append("s | ");
    out.append(advise(f).as_str());
    out.append(" |\n");
    out
}

/// A row of the table of files.
pub open spec fn md_file_text(f: FileEntry) -> Seq<char> {
    "| `"@ + f.file@ + "` | "@ + f.total_seconds.fixed_text(2) + "s | "@ + f.pct.fixed_text(0)
        + "% |\n"@
}

/// Writes a row of the table of files.
fn md_file(f: &FileEntry) -> (res: String)
    ensures
        res@ == md_file_text(*f),
{
    let mut out = String::from_str("| `");
    out.append(f.file.as_str());
    out.append("` | ");
    out.append(f.total_seconds.fixed(2).as_str());
    out.append("s | ");
    out.append(f.pct.fixed(0).as_str());
    out.append("% |\n");
    out
}

/// The first rows of the table of files.
pub open spec fn md_files_text(rows: Seq<FileEntry>, n: nat) -> Seq<char>
    decreases n,
{
    if n == 0 {
        Seq::empty()
    } else {
        md_files_text(rows, (n - 1) as nat) + md_file_text(rows[n - 1])
    }
}

fn md_files(rows: &[FileEntry], n: usize) -> (res: String)
    requires
        n <= rows@.len(),
    ensures
        res@ == md_files_text(rows@, n as nat),
{
    let mut out = String::new();
    let mut i: usize = 0;
    assert(out@ =~= md_files_text(rows@, 0));
    while i < n
        invariant
            i <= n <= rows@.len(),
            out@ == md_files_text(rows@, i as nat),
        decreases n - i,
    {
        out.append(md_file(&rows[i]).as_str());
        i += 1;
    }
    out
}

/// A row of the table of leaks.
pub open spec fn md_leak_text(l: Leak) -> Seq<char> {
    "| "@ + leak_delta_text(l) + " | `"@ + l.nodeid@ + "` |\n"@
}

/// Writes a row of the table of leaks.
fn md_leak(l: &Leak) -> (res: String)
    ensures
        res@ == md_leak_text(*l),
{
    let mut out = String::from_str("| ");
    out.append(leak_delta(l).as_str());
    out.append(" | `");
    out.append(l.nodeid.as_str());
    out.append("` |\n");
    out
}

/// The first rows of the table of leaks.
pub open spec fn md_leaks_text(rows: Seq<Leak>, n: nat) -> Seq<char>
    decreases n,
{
    if n == 0 {
        Seq::empty()
    } else {
        md_leaks_text(rows, (n - 1) as nat) + md_leak_text(rows[n - 1])
    }
}

fn md_leaks(rows: &[Leak], n: usize) -> (res: String)
    requires
        n <= rows@.len(),
    ensures
        res@ == md_leaks_text(rows@, n as nat),
{
    let mut out = String::new();
    let mut i: usize = 0;
    assert(out@ =~= md_leaks_text(rows@, 0));
    while i < n
        invariant
            i <= n <= rows@.len(),
            out@ == md_leaks_text(rows@, i as nat),
        decreases n - i,
    {
        out.append(md_leak(&rows[i]).as_str());
        i += 1;
    }
    out
}

/// The rows of the table of fixtures, for those at some positions.
pub open spec fn md_fixtures_text(fx: Seq<FixtureEntry>, at: Seq<int>) -> Seq<char>
    decreases at.len(),
{
    if at.len() == 0 {
        Seq::empty()
    } else {
        md_fixtures_text(fx, at.drop_last()) + md_fixture_text(fx[at.last()])
    }
}

fn md_fixtures(fx: &[FixtureEntry], at: &Vec<usize>) -> (res: String)
    requires
        forall|i: int| 0 <= i < at@.len() ==> #[trigger] at@[i] < fx@.len(),
    ensures
        res@ == md_fixtures_text(fx@, crate::rank::positions(at@)),
{
    let ghost p = crate::rank::positions(at@);
    let mut out = String::new();
    let mut i: usize = 0;
    assert(out@ =~= md_fixtures_text(fx@, p.take(0)));
    while i < at.len()
        invariant
            i <= at.len(),
            p == crate::rank::positions(at@),
            forall|i: int| 0 <= i < at@.len() ==> #[trigger] at@[i] < fx@.len(),
            out@ == md_fixtures_text(fx@, p.take(i as int)),
        decreases at.len() - i,
    {
        proof {
            assert(p.take(i + 1).drop_last() =~= p.take(i as int));
            assert(p.take(i + 1).last() == at@[i as int]);
        }
        out.append(md_fixture(&fx[at[i]]).as_str());
        i += 1;
    }
    assert(p.take(at.len() as int) =~= p);
    out
}

/// What the job summary says of the run as a whole.
pub open spec fn md_head_text(r: DoctorReport) -> Seq<char> {
    "**"@ + decimal(r.tests as nat) + " tests** — test time "@ + r.test_time_seconds.fixed_text(1)
        + "s (wall "@ + r.wall_seconds.fixed_text(1) + "s, "@ + decimal(r.workers as nat)
        + " workers)\n\n"@
}

/// Writes what the job summary says of the run as a whole.
fn md_head(r: &DoctorReport) -> (res: String)
    ensures
        res@ == md_head_text(*r),
{
    let mut out = String::from_str("**");
    out.append(dec_len(r.tests).as_str());
    out.append(" tests** — test time ");
    out.append(r.test_time_seconds.fixed(1).as_str());
    out.append("s (wall ");
    out.append(r.wall_seconds.fixed(1).as_str());
    out.append("s, ");
    out.append(dec_len(r.workers).as_str());
    out.append(" workers)\n\n");
    out
}

/// What the job summary says of waiting.
pub open spec fn md_wait_head_text(w: WaitBound) -> Seq<char> {
    "**Wait-bound:** "@ + w.wait_pct.fixed_text(0) + "% of test time ("@
        + w.wait_seconds.fixed_text(1) + "s) is waiting, not computing (sleeps / IO / timeouts).\n\n"@
}

/// Writes what the job summary says of waiting.
fn md_wait_head(w: &WaitBound) -> (res: String)
    ensures
        res@ == md_wait_head_text(*w),
{
    let mut out = String::from_str("**Wait-bound:** ");
    out.append(w.wait_pct.fixed(0).as_str());
    out.append("% of test time (");
    out.append(w.wait_seconds.fixed(1).as_str());
    out.append("s) is waiting, not computing (sleeps / IO / timeouts).\n\n");
    out
}

/// What the job summary says of long tests.
pub open spec fn md_floor_head_text(p: ParallelFloor, workers: usize) -> Seq<char> {
    "**Parallel floor:** the longest test ("@ + p.longest_seconds.fixed_text(1)
        + "s) exceeds the ideal per-worker share ("@ + p.ideal_share_seconds.fixed_text(1)
        + "s at `-n "@ + decimal(workers as nat)
        + "`); no worker count can finish faster than its longest test.\n\n"@
}

/// Writes what the job summary says of long tests.
fn md_floor_head(p: &ParallelFloor, workers: usize) -> (res: String)
    ensures
        res@ == md_floor_head_text(*p, workers),
{
    let mut out = String::from_str("**Parallel floor:** the longest test (");
    out.append(p.longest_seconds.fixed(1).as_str());
    out.append("s) exceeds the ideal per-worker share (");
    out.append(p.ideal_share_seconds.fixed(1).as_str());
    out.append("s at `-n ");
    out.append(dec_len(workers).as_str());
    out.append("`); no worker count can finish faster than its longest test.\n\n");
    out
}

/// What the job summary says of running in parallel.
pub open spec fn md_efficiency_head_text(e: ParallelEfficiency) -> Seq<char> {
    "**Parallel efficiency:** "@ + e.realized_speedup.fixed_text(1) + "× realized of "@
        + decimal(e.ideal_speedup as nat) + "× possible ("@ + e.efficiency_pct.fixed_text(0)
        + "%). Long pole "@ + e.long_pole_seconds.fixed_text(1) + "s; "@
        + e.imbalance_pct.fixed_text(0) + "% load imbalance between busiest and idlest worker.\n\n"@
}

/// Writes what the job summary says of running in parallel.
fn md_efficiency_head(e: &ParallelEfficiency) -> (res: String)
    ensures
        res@ == md_efficiency_head_text(*e),
{
    let mut out = String::from_str("**Parallel efficiency:** ");
    out.append(e.realized_speedup.fixed(1).as_str());
    out.append("× realized of ");
    out.append(dec_len(e.ideal_speedup).as_str());
    out.append("× possible (");
    out.append(e.efficiency_pct.fixed(0).as_str());
    out.append("%). Long pole ");
    out.append(e.long_pole_seconds.fixed(1).as_str());
    out.append("s; ");
    out.append(e.imbalance_pct.fixed(0).as_str());
    out.append("% load imbalance between busiest and idlest worker.\n\n");
    out
}

/// The part of the job summary on waiting.
pub open spec fn md_wait_section(w: Option<WaitBound>) -> Seq<char> {
    match w {
        Some(w) => if w.tests@.len() == 0 {
            md_wait_head_text(w)
        } else {
            let shown = md_wait_head_text(w) + "| Waiting | Duration | Test |\n|---:|---:|---|\n"@
                + md_waits_text(w.tests@, capped(w.tests@.len(), 8));
            if w.tests@.len() > 8 {
                shown + "\n... and "@ + decimal((w.tests@.len() - 8) as nat) + " more\n"@ + "\n"@
            } else {
                shown + "\n"@
            }
        },
        None => ""@,
    }
}

fn md_wait_part(w: &Option<WaitBound>) -> (res: String)
    ensures
        res@ == md_wait_section(*w),
{
    match w {
        Some(w) => {
            let mut out = md_wait_head(w);
            if w.tests.len() > 0 {
                out.append("| Waiting | Duration | Test |\n|---:|---:|---|\n");
                let n = cap_len(w.tests.len(), 8);
                out.append(md_waits(w.tests.as_slice(), n).as_str());
                if w.tests.len() > 8 {
                    out.append("\n... and ");
                    out.append(dec_len(w.tests.len() - 8).as_str());
                    out.append(" more\n");
                }
                out.append("\n");
            }
            out
        },
        None => "".to_owned(),
    }
}

/// The part of the job summary on long tests.
pub open spec fn md_floor_section(p: Option<ParallelFloor>, workers: usize) -> Seq<char> {
    match p {
        Some(p) => if p.gate_tests@.len() == 0 {
            md_floor_head_text(p, workers)
        } else {
            md_floor_head_text(p, workers) + "| Duration | Gate test |\n|---:|---|\n"@
                + md_gates_text(p.gate_tests@, capped(p.gate_tests@.len(), 5)) + "\n"@
        },
        None => ""@,
    }
}

fn md_floor_part(p: &Option<ParallelFloor>, workers: usize) -> (res: String)
    ensures
        res@ == md_floor_section(*p, workers),
{
    match p {
        Some(p) => {
            let mut out = md_floor_head(p, workers);
            if p.gate_tests.len() > 0 {
                out.append("| Duration | Gate test |\n|---:|---|\n");
                let n = cap_len(p.gate_tests.len(), 5);
                out.append(md_gates(p.gate_tests.as_slice(), n).as_str());
                out.append("\n");
            }
            out
        },
        None => "".to_owned(),
    }
}

/// Whether tests ran at the same time beyond the number of workers.
pub open spec fn overlapping(e: ParallelEfficiency) -> bool {
    (Double { bits: HUNDRED_FIVE }).less(e.efficiency_pct)
}

/// The part of the job summary on running in parallel.
pub open spec fn md_efficiency_section(e: Option<ParallelEfficiency>) -> Seq<char> {
    match e {
        Some(e) => {
            let head = if overlapping(e) {
                md_efficiency_head_text(e)
                    + "> Over 100% means tests overlap beyond core count (wait-bound).\n\n"@
            } else {
                md_efficiency_head_text(e)
            };
            if e.workers_busy@.len() == 0 {
                head
            } else {
                head + "| Worker | Busy | Tests |\n|---|---:|---:|\n"@ + md_workers_text(
                    e.workers_busy@,
                    capped(e.workers_busy@.len(), 8),
                ) + "\n"@
            }
        },
        None => ""@,
    }
}

fn md_efficiency_part(e: &Option<ParallelEfficiency>) -> (res: String)
    ensures
        res@ == md_efficiency_section(*e),
{
    match e {
        Some(e) => {
            let mut out = md_efficiency_head(e);
            if (Double { bits: HUNDRED_FIVE }).lt(&e.efficiency_pct) {
                out.append("> Over 100% means tests overlap beyond core count (wait-bound).\n\n");
            }
            if e.workers_busy.len() > 0 {
                out.append("| Worker | Busy | Tests |\n|---|---:|---:|\n");
                let n = cap_len(e.workers_busy.len(), 8);
                out.append(md_workers(e.workers_busy.as_slice(), n).as_str());
                out.append("\n");
            }
            out
        },
        None => "".to_owned(),
    }
}

/// The part of the job summary on fixtures.
pub open spec fn md_fixture_section(fx: Seq<FixtureEntry>) -> Seq<char> {
    if shown_fixtures(fx).len() == 0 {
        ""@
    } else {
        "### Fixture hotspots (setup time across all workers)\n\n"@
            + "| Fixture | Scope | Runs | Total | |\n|---|---|---:|---:|---|\n"@ + md_fixtures_text(
            fx,
            shown_fixtures(fx),
        ) + "\n"@
    }
}

fn md_fixture_part(fx: &[FixtureEntry]) -> (res: String)
    ensures
        res@ == md_fixture_section(fx@),
{
    let at = pick_fixtures(fx);
    assert(at@.len() == shown_fixtures(fx@).len());
    if at.len() == 0 {
        return "".to_owned();
    }
    let mut out = String::from_str("### Fixture hotspots (setup time across all workers)\n\n");
    out.append("| Fixture | Scope | Runs | Total | |\n|---|---|---:|---:|---|\n");
    out.append(md_fixtures(fx, &at).as_str());
    out.append("\n");
    out
}

/// The part of the job summary on files.
pub open spec fn md_file_section(files: Seq<FileEntry>) -> Seq<char> {
    if files.len() == 0 {
        ""@
    } else {
        "### Slowest files\n\n| File | Time | Share |\n|---|---:|---:|\n"@ + md_files_text(
            files,
            capped(files.len(), 5),
        )
    }
}

fn md_file_part(files: &[FileEntry]) -> (res: String)
    ensures
        res@ == md_file_section(files@),
{
    if files.len() == 0 {
        return "".to_owned();
    }
    let mut out = String::from_str(
        "### Slowest files\n\n| File | Time | Share |\n|---|---:|---:|\n",
    );
    let n = cap_len(files.len(), 5);
    out.append(md_files(files, n).as_str());
    out
}

/// The part of the job summary on leaks.
pub open spec fn md_leak_section(leaks: Seq<Leak>) -> Seq<char> {
    if leaks.len() == 0 {
        ""@
    } else {
        "### Resource leaks\n\n> Net threads/fds still open after teardown.\n\n"@
            + "| Leaked | Test |\n|---|---|\n"@ + md_leaks_text(leaks, capped(leaks.len(), 10))
    }
}

fn md_leak_part(leaks: &[Leak]) -> (res: String)
    ensures
        res@ == md_leak_section(leaks@),
{
    if leaks.len() == 0 {
        return "".to_owned();
    }
    let mut out = String::from_str(
        "### Resource leaks\n\n> Net threads/fds still open after teardown.\n\n",
    );
    out.append("| Leaked | Test |\n|---|---|\n");
    let n = cap_len(leaks.len(), 10);
    out.append(md_leaks(leaks, n).as_str());
    out
}

/// The job summary.
pub open spec fn markdown(r: DoctorReport) -> Seq<char> {
    let title = "## rstest doctor\n\n"@;
    if r.tests == 0 {
        title + "No timing data collected.\n"@
    } else {
        title + md_head_text(r) + md_wait_section(r.wait_bound) + md_floor_section(
            r.parallel_floor,
            r.workers,
        ) + md_efficiency_section(r.parallel_efficiency) + md_fixture_section(r.fixtures@)
            + md_file_section(r.slowest_files@) + md_leak_section(r.leaks@)
    }
}

/// Writes the report as a markdown job summary.
pub fn render_markdown(r: &DoctorReport) -> (res: String)
    ensures
        res@ == markdown(*r),
{
    let mut out = String::from_str("## rstest doctor\n\n");
    if r.tests == 0 {
        out.append("No timing data collected.\n");
        return out;
    }
    out.append(md_head(r).as_str());
    out.append(md_wait_part(&r.wait_bound).as_str());
    out.append(md_floor_part(&r.parallel_floor, r.workers).as_str());
    out.append(md_efficiency_part(&r.parallel_efficiency).as_str());
    out.append(md_fixture_part(r.fixtures.as_slice()).as_str());
    out.append(md_file_part(r.slowest_files.as_slice()).as_str());
    out.append(md_leak_part(r.leaks.as_slice()).as_str());
    out
}

/// A line on a waiting test.
pub open spec fn wait_line_text(t: WaitTest) -> Seq<char> {
    "  "@ + right_aligned(t.wait.fixed_text(2), 7) + "s waiting of "@
        + right_aligned(t.duration.fixed_text(2), 7) + "s  "@ + t.nodeid@
}

/// Writes a line on a waiting test.
fn wait_line(t: &WaitTest) -> (res: String)
    ensures
        res@ == wait_line_text(*t),
{
    let mut out = String::from_str("  ");
    out.append(align_right(t.wait.fixed(2).as_str(), 7).as_str());
    out.append("s waiting of ");
    out.append(align_right(t.duration.fixed(2).as_str(), 7).as_str());
    out.append("s  ");
    out.append(t.nodeid.as_str());
    out
}

/// Lines on the first waiting tests.
pub open spec fn wait_lines_lines(rows: Seq<WaitTest>, n: nat) -> Seq<Seq<char>> {
    Seq::new(n, |i: int| wait_line_text(rows[i]))
}

fn wait_lines(rows: &[WaitTest], n: usize) -> (res: Vec<String>)
    requires
        n <= rows@.len(),
    ensures
        texts(res@) == wait_lines_lines(rows@, n as nat),
{
    let mut out: Vec<String> = Vec::new();
    let mut i: usize = 0;
    while i < n
        invariant
            i <= n <= rows@.len(),
            out.len() == i,
            forall|j: int| 0 <= j < i ==> (#[trigger] out@[j])@ == wait_line_text(rows@[j]),
        decreases n - i,
    {
        out.push(wait_line(&rows[i]));
        i += 1;
    }
    assert(texts(out@) =~= wait_lines_lines(rows@, n as nat));
    out
}

/// A line on a long test.
pub open spec fn gate_line_text(t: GateTest) -> Seq<char> {
    "  "@ + right_aligned(t.duration.fixed_text(2), 7) + "s  "@ + t.nodeid@
}

/// Writes a line on a long test.
fn gate_line(t: &GateTest) -> (res: String)
    ensures
        res@ == gate_line_text(*t),
{
    let mut out = String::from_str("  ");
    out.append(align_right(t.duration.fixed(2).as_str(), 7).as_str());
    out.append("s  ");
    out.append(t.nodeid.as_str());
    out
}

/// Lines on the first long tests.
pub open spec fn gate_lines_lines(rows: Seq<GateTest>, n: nat) -> Seq<Seq<char>> {
    Seq::new(n, |i: int| gate_line_text(rows[i]))
}

fn gate_lines(rows: &[GateTest], n: usize) -> (res: Vec<String>)
    requires
        n <= rows@.len(),
    ensures
        texts(res@) == gate_lines_lines(rows@, n as nat),
{
    let mut out: Vec<String> = Vec::new();
    let mut i: usize = 0;
    while i < n
        invariant
            i <= n <= rows@.len(),
            out.len() == i,
            forall|j: int| 0 <= j < i ==> (#[trigger] out@[j])@ == gate_line_text(rows@[j]),
        decreases n - i,
    {
        out.push(gate_line(&rows[i]));
        i += 1;
    }
    assert(texts(out@) =~= gate_lines_lines(rows@, n as nat));
    out
}

/// A line on a worker.
pub open spec fn worker_line_text(w: WorkerLoad) -> Seq<char> {
    "    "@ + left_aligned(w.worker@, 8) + " "@ + right_aligned(w.busy_seconds.fixed_text(2), 7)
        + "s ("@ + decimal(w.tests as nat) + " tests)"@
}

/// Writes a line on a worker.
fn worker_line(w: &WorkerLoad) -> (res: String)
    ensures
        res@ == worker_line_text(*w),
{
    let mut out = String::from_str("    ");
    out.append(align_left(w.worker.as_str(), 8).as_str());
    out.append(" ");
    out.append(align_right(w.busy_seconds.fixed(2).as_str(), 7).as_str());
    out.append("s (");
    out.append(dec_len(w.tests).as_str());
    out.append(" tests)");
    out
}

/// Lines on the first workers.
pub open spec fn worker_lines_lines(rows: Seq<WorkerLoad>, n: nat) -> Seq<Seq<char>> {
    Seq::new(n, |i: int| worker_line_text(rows[i]))
}

fn worker_lines(rows: &[WorkerLoad], n: usize) -> (res: Vec<String>)
    requires
        n <= rows@.len(),
    ensures
        texts(res@) == worker_lines_lines(rows@, n as nat),
{
    let mut out: Vec<String> = Vec::new();
    let mut i: usize = 0;
    while i < n
        invariant
            i <= n <= rows@.len(),
            out.len() == i,
            forall|j: int| 0 <= j < i ==> (#[trigger] out@[j])@ == worker_line_text(rows@[j]),
        decreases n - i,
    {
        out.push(worker_line(&rows[i]));
        i += 1;
    }
    assert(texts(out@) =~= worker_lines_lines(rows@, n as nat));
    out
}

/// A line on a fixture.
pub open spec fn fixture_line_text(f: FixtureEntry) -> Seq<char> {
    "  "@ + right_aligned(f.total_seconds.fixed_text(2), 7) + "s "@
        + right_aligned(decimal(f.count as nat), 6) + "x  scope="@ + left_aligned(f.scope@, 8) + " "@
        + f.name@ + fixture_hint(f)
}

/// Writes a line on a fixture.
fn fixture_line(f: &FixtureEntry) -> (res: String)
    ensures
        res@ == fixture_line_text(*f),
{
    let mut out = String::from_str("  ");
    out.append(align_right(f.total_seconds.fixed(2).as_str(), 7).as_str());
    out.append("s ");
    out.append(align_right(dec(f.count).as_str(), 6).as_str());
    out.append("x  scope=");
    out.append(align_left(f.scope.as_str(), 8).as_str());
    out.append(" ");
    out.append(f.name.as_str());
    out.append(hint(f).as_str());
    out
}

/// A line on a file.
pub open spec fn file_line_text(f: FileEntry) -> Seq<char> {
    "  "@ + right_aligned(f.total_seconds.fixed_text(2), 7) + "s ("@
        + right_aligned(f.pct.fixed_text(1), 4) + "%)  "@ + f.file@
}

/// Writes a line on a file.
fn file_line(f: &FileEntry) -> (res: String)
    ensures
        res@ == file_line_text(*f),
{
    let mut out = String::from_str("  ");
    out.append(align_right(f.total_seconds.fixed(2).as_str(), 7).as_str());
    out.append("s (");
    out.append(align_right(f.pct.fixed(1).as_str(), 4).as_str());
    out.append("%)  ");
    out.append(f.file.as_str());
    out
}

/// Lines on the first files.
pub open spec fn file_lines_lines(rows: Seq<FileEntry>, n: nat) -> Seq<Seq<char>> {
    Seq::new(n, |i: int| file_line_text(rows[i]))
}

fn file_lines(rows: &[FileEntry], n: usize) -> (res: Vec<String>)
    requires
        n <= rows@.len(),
    ensures
        texts(res@) == file_lines_lines(rows@, n as nat),
{
    let mut out: Vec<String> = Vec::new();
    let mut i: usize = 0;
    while i < n
        invariant
            i <= n <= rows@.len(),
            out.len() == i,
            forall|j: int| 0 <= j < i ==> (#[trigger] out@[j])@ == file_line_text(rows@[j]),
        decreases n - i,
    {
        out.push(file_line(&rows[i]));
        i += 1;
    }
    assert(texts(out@) =~= file_lines_lines(rows@, n as nat));
    out
}

/// A line on a leak.
pub open spec fn leak_line_text(l: Leak) -> Seq<char> {
    "  "@ + leak_delta_text(l) + "  "@ + l.nodeid@
}

/// Writes a line on a leak.
fn leak_line(l: &Leak) -> (res: String)
    ensures
        res@ == leak_line_text(*l),
{
    let mut out = String::from_str("  ");
    out.append(leak_delta(l).as_str());
    out.append("  ");
    out.append(l.nodeid.as_str());
    out
}

/// Lines on the first leaks.
pub open spec fn leak_lines_lines(rows: Seq<Leak>, n: nat) -> Seq<Seq<char>> {
    Seq::new(n, |i: int| leak_line_text(rows[i]))
}

fn leak_lines(rows: &[Leak], n: usize) -> (res: Vec<String>)
    requires
        n <= rows@.len(),
    ensures
        texts(res@) == leak_lines_lines(rows@, n as nat),
{
    let mut out: Vec<String> = Vec::new();
    let mut i: usize = 0;
    while i < n
        invariant
            i <= n <= rows@.len(),
            out.len() == i,
            forall|j: int| 0 <= j < i ==> (#[trigger] out@[j])@ == leak_line_text(rows@[j]),
        decreases n - i,
    {
        out.push(leak_line(&rows[i]));
        i += 1;
    }
    assert(texts(out@) =~= leak_lines_lines(rows@, n as nat));
    out
}

/// The line on the run as a whole.
pub open spec fn head_line_text(r: DoctorReport) -> Seq<char> {
    decimal(r.tests as nat) + " tests, "@ + r.test_time_seconds.fixed_text(1)
        + "s test time (wall "@ + r.wall_seconds.fixed_text(1) + "s, "@ + decimal(r.workers as nat)
        + " workers)"@
}

/// Writes the line on the run as a whole.
fn head_line(r: &DoctorReport) -> (res: String)
    ensures
        res@ == head_line_text(*r),
{
    let mut out = String::from_str(dec_len(r.tests).as_str());
    out.append(" tests, ");
    out.append(r.test_time_seconds.fixed(1).as_str());
    out.append("s test time (wall ");
    out.append(r.wall_seconds.fixed(1).as_str());
    out.append("s, ");
    out.append(dec_len(r.workers).as_str());
    out.append(" workers)");
    out
}

/// The line on waiting.
pub open spec fn wait_head_text(w: WaitBound) -> Seq<char> {
    "\nWAIT-BOUND: "@ + w.wait_pct.fixed_text(0) + "% of test time ("@
        + w.wait_seconds.fixed_text(1) + "s) is waiting, not computing (sleeps / IO / timeouts)."@
}

/// Writes the line on waiting.
fn wait_head(w: &WaitBound) -> (res: String)
    ensures
        res@ == wait_head_text(*w),
{
    let mut out = String::from_str("\nWAIT-BOUND: ");
    out.append(w.wait_pct.fixed(0).as_str());
    out.append("% of test time (");
    out.append(w.wait_seconds.fixed(1).as_str());
    out.append("s) is waiting, not computing (sleeps / IO / timeouts).");
    out
}

/// The line on long tests.
pub open spec fn floor_head_text(p: ParallelFloor, workers: usize) -> Seq<char> {
    "\nPARALLEL FLOOR: the longest test ("@ + p.longest_seconds.fixed_text(1)
        + "s) exceeds the ideal per-worker share ("@ + p.ideal_share_seconds.fixed_text(1)
        + "s at -n "@ + decimal(workers as nat)
        + ");\nno worker count can finish faster than its longest test. Gate tests:"@
}

/// Writes the line on long tests.
fn floor_head(p: &ParallelFloor, workers: usize) -> (res: String)
    ensures
        res@ == floor_head_text(*p, workers),
{
    let mut out = String::from_str("\nPARALLEL FLOOR: the longest test (");
    out.append(p.longest_seconds.fixed(1).as_str());
    out.append("s) exceeds the ideal per-worker share (");
    out.append(p.ideal_share_seconds.fixed(1).as_str());
    out.append("s at -n ");
    out.append(dec_len(workers).as_str());
    out.append(");\nno worker count can finish faster than its longest test. Gate tests:");
    out
}

/// The line on running in parallel.
pub open spec fn efficiency_head_text(e: ParallelEfficiency) -> Seq<char> {
    "\nPARALLEL EFFICIENCY: "@ + e.realized_speedup.fixed_text(1) + "x realized of "@
        + decimal(e.ideal_speedup as nat) + "x possible ("@ + e.efficiency_pct.fixed_text(0) + "%)."@
}

/// Writes the line on running in parallel.
fn efficiency_head(e: &ParallelEfficiency) -> (res: String)
    ensures
        res@ == efficiency_head_text(*e),
{
    let mut out = String::from_str("\nPARALLEL EFFICIENCY: ");
    out.append(e.realized_speedup.fixed(1).as_str());
    out.append("x realized of ");
    out.append(dec_len(e.ideal_speedup).as_str());
    out.append("x possible (");
    out.append(e.efficiency_pct.fixed(0).as_str());
    out.append("%).");
    out
}

/// The line on the longest test.
pub open spec fn long_pole_line_text(e: ParallelEfficiency) -> Seq<char> {
    "  long pole: "@ + e.long_pole_seconds.fixed_text(1) + "s (no worker count finishes faster)"@
}

/// Writes the line on the longest test.
fn long_pole_line(e: &ParallelEfficiency) -> (res: String)
    ensures
        res@ == long_pole_line_text(*e),
{
    let mut out = String::from_str("  long pole: ");
    out.append(e.long_pole_seconds.fixed(1).as_str());
    out.append("s (no worker count finishes faster)");
    out
}

/// The line on how evenly workers were busy.
pub open spec fn imbalance_line_text(e: ParallelEfficiency) -> Seq<char> {
    "  imbalance: "@ + e.imbalance_pct.fixed_text(0) + "% between busiest and idlest worker"@
}

/// Writes the line on how evenly workers were busy.
fn imbalance_line(e: &ParallelEfficiency) -> (res: String)
    ensures
        res@ == imbalance_line_text(*e),
{
    let mut out = String::from_str("  imbalance: ");
    out.append(e.imbalance_pct.fixed(0).as_str());
    out.append("% between busiest and idlest worker");
    out
}

/// The line on how many more there are, after some indentation.
pub open spec fn more_line_text(indent: Seq<char>, n: usize) -> Seq<char> {
    indent + "... and "@ + decimal(n as nat) + " more"@
}

/// Writes the line on how many more there are.
fn more_line(indent: &str, n: usize) -> (res: String)
    ensures
        res@ == more_line_text(indent@, n),
{
    let mut out = String::from_str(indent);
    out.append("... and ");
    out.append(dec_len(n).as_str());
    out.append(" more");
    out
}

/// The lines on waiting.
pub open spec fn wait_section(w: Option<WaitBound>) -> Seq<Seq<char>> {
    match w {
        Some(w) => {
            let shown = seq![wait_head_text(w)] + wait_lines_lines(
                w.tests@,
                capped(w.tests@.len(), 8),
            );
            if w.tests@.len() > 8 {
                shown.push(more_line_text("  "@, (w.tests@.len() - 8) as usize))
            } else {
                shown
            }
        },
        None => Seq::empty(),
    }
}

fn wait_part(w: &Option<WaitBound>) -> (res: Vec<String>)
    ensures
        texts(res@) == wait_section(*w),
{
    let mut out: Vec<String> = Vec::new();
    assert(texts(out@) =~= Seq::empty());
    match w {
        Some(w) => {
            out.push(wait_head(w));
            assert(texts(out@) =~= seq![wait_head_text(*w)]);
            let n = cap_len(w.tests.len(), 8);
            let mut rows = wait_lines(w.tests.as_slice(), n);
            out.append(&mut rows);
            if w.tests.len() > 8 {
                out.push(more_line("  ", w.tests.len() - 8));
            }
        },
        None => {},
    }
    out
}

/// The lines on long tests.
pub open spec fn floor_section(p: Option<ParallelFloor>, workers: usize) -> Seq<Seq<char>> {
    match p {
        Some(p) => seq![floor_head_text(p, workers)] + gate_lines_lines(
            p.gate_tests@,
            capped(p.gate_tests@.len(), 5),
        ),
        None => Seq::empty(),
    }
}

fn floor_part(p: &Option<ParallelFloor>, workers: usize) -> (res: Vec<String>)
    ensures
        texts(res@) == floor_section(*p, workers),
{
    let mut out: Vec<String> = Vec::new();
    assert(texts(out@) =~= Seq::empty());
    match p {
        Some(p) => {
            out.push(floor_head(p, workers));
            assert(texts(out@) =~= seq![floor_head_text(*p, workers)]);
            let n = cap_len(p.gate_tests.len(), 5);
            let mut rows = gate_lines(p.gate_tests.as_slice(), n);
            out.append(&mut rows);
        },
        None => {},
    }
    out
}

/// The lines on running in parallel.
pub open spec fn efficiency_section(e: Option<ParallelEfficiency>) -> Seq<Seq<char>> {
    match e {
        Some(e) => {
            let head = if overlapping(e) {
                seq![efficiency_head_text(e)].push(
                    "  over 100%: tests overlap beyond core count (wait-bound; see WAIT-BOUND above)."@,
                )
            } else {
                seq![efficiency_head_text(e)]
            };
            let shown = head.push(long_pole_line_text(e)).push("  worker load (busy time):"@)
                + worker_lines_lines(e.workers_busy@, capped(e.workers_busy@.len(), 8));
            let all = if e.workers_busy@.len() > 8 {
                shown.push(more_line_text("    "@, (e.workers_busy@.len() - 8) as usize))
            } else {
                shown
            };
            all.push(imbalance_line_text(e))
        },
        None => Seq::empty(),
    }
}

fn efficiency_part(e: &Option<ParallelEfficiency>) -> (res: Vec<String>)
    ensures
        texts(res@) == efficiency_section(*e),
{
    let mut out: Vec<String> = Vec::new();
    assert(texts(out@) =~= Seq::empty());
    match e {
        Some(e) => {
            out.push(efficiency_head(e));
            assert(texts(out@) =~= seq![efficiency_head_text(*e)]);
            if (Double { bits: HUNDRED_FIVE }).lt(&e.efficiency_pct) {
                out.push(
                    "  over 100%: tests overlap beyond core count (wait-bound; see WAIT-BOUND above).".to_owned(),
                );
            }
            out.push(long_pole_line(e));
            out.push("  worker load (busy time):".to_owned());
            let n = cap_len(e.workers_busy.len(), 8);
            let mut rows = worker_lines(e.workers_busy.as_slice(), n);
            out.append(&mut rows);
            if e.workers_busy.len() > 8 {
                out.push(more_line("    ", e.workers_busy.len() - 8));
            }
            out.push(imbalance_line(e));
        },
        None => {},
    }
    out
}

/// The lines on fixtures, for those at some positions.
pub open spec fn fixture_lines(fx: Seq<FixtureEntry>, at: Seq<int>) -> Seq<Seq<char>> {
    Seq::new(at.len(), |i: int| fixture_line_text(fx[at[i]]))
}

/// The lines on fixtures.
pub open spec fn fixture_section(fx: Seq<FixtureEntry>) -> Seq<Seq<char>> {
    if shown_fixtures(fx).len() == 0 {
        Seq::empty()
    } else {
        seq!["\nFIXTURE HOTSPOTS (setup time across all workers):"@] + fixture_lines(
            fx,
            shown_fixtures(fx),
        )
    }
}

fn fixture_part(fx: &[FixtureEntry]) -> (res: Vec<String>)
    ensures
        texts(res@) == fixture_section(fx@),
{
    let at = pick_fixtures(fx);
    let ghost p = crate::rank::positions(at@);
    let mut out: Vec<String> = Vec::new();
    assert(at@.len() == p.len());
    if at.len() == 0 {
        assert(texts(out@) =~= Seq::empty());
        return out;
    }
    out.push("\nFIXTURE HOTSPOTS (setup time across all workers):".to_owned());
    let ghost head = seq!["\nFIXTURE HOTSPOTS (setup time across all workers):"@];
    assert(texts(out@) =~= head + fixture_lines(fx@, p).take(0));
    let mut i: usize = 0;
    while i < at.len()
        invariant
            i <= at.len(),
            p == crate::rank::positions(at@),
            forall|i: int| 0 <= i < at@.len() ==> #[trigger] at@[i] < fx@.len(),
            texts(out@) == head + fixture_lines(fx@, p).take(i as int),
        decreases at.len() - i,
    {
        let ghost before = fixture_lines(fx@, p).take(i as int);
        assert(p[i as int] == at@[i as int]);
        out.push(fixture_line(&fx[at[i]]));
        assert(fixture_lines(fx@, p).take(i + 1) =~= before.push(
            fixture_line_text(fx@[at@[i as int] as int]),
        ));
        assert(texts(out@) =~= head + fixture_lines(fx@, p).take(i + 1));
        i += 1;
    }
    assert(fixture_lines(fx@, p).take(at.len() as int) =~= fixture_lines(fx@, p));
    out
}

/// The lines on leaks.
pub open spec fn leak_section(leaks: Seq<Leak>) -> Seq<Seq<char>> {
    if leaks.len() == 0 {
        Seq::empty()
    } else {
        let shown = seq!["\nRESOURCE LEAKS (net threads/fds still open after teardown):"@]
            + leak_lines_lines(leaks, capped(leaks.len(), 10));
        let all = if leaks.len() > 10 {
            shown.push(more_line_text("  "@, (leaks.len() - 10) as usize))
        } else {
            shown
        };
        all.push(
            "  a test opened a thread/fd it never released; leaked state can flake later tests (reset it, or close in teardown)."@,
        )
    }
}

fn leak_part(leaks: &[Leak]) -> (res: Vec<String>)
    ensures
        texts(res@) == leak_section(leaks@),
{
    let mut out: Vec<String> = Vec::new();
    assert(texts(out@) =~= Seq::empty());
    if leaks.len() == 0 {
        return out;
    }
    out.push("\nRESOURCE LEAKS (net threads/fds still open after teardown):".to_owned());
    assert(texts(out@) =~= seq![
        "\nRESOURCE LEAKS (net threads/fds still open after teardown):"@,
    ]);
    let n = cap_len(leaks.len(), 10);
    let mut rows = leak_lines(leaks, n);
    out.append(&mut rows);
    if leaks.len() > 10 {
        out.push(more_line("  ", leaks.len() - 10));
    }
    out.push(
        "  a test opened a thread/fd it never released; leaked state can flake later tests (reset it, or close in teardown).".to_owned(),
    );
    out
}

/// The report for the terminal, as the lines that are printed.
pub open spec fn rendered(r: DoctorReport) -> Seq<Seq<char>> {
    if r.tests == 0 {
        seq!["\n== rstest doctor: no timing data collected =="@]
    } else {
        let head = seq!["\n================== rstest doctor =================="@].push(
            head_line_text(r),
        );
        let sections = head + wait_section(r.wait_bound) + floor_section(
            r.parallel_floor,
            r.workers,
        ) + efficiency_section(r.parallel_efficiency) + fixture_section(r.fixtures@);
        (sections.push("\nSLOWEST FILES:"@) + file_lines_lines(
            r.slowest_files@,
            capped(r.slowest_files@.len(), 5),
        ) + leak_section(r.leaks@)).push("==================================================="@)
    }
}

/// Makes the report for the terminal: the lines to print.
pub fn render(r: &DoctorReport) -> (res: Vec<String>)
    ensures
        texts(res@) == rendered(*r),
{
    let mut out: Vec<String> = Vec::new();
    assert(texts(out@) =~= Seq::empty());
    if r.tests == 0 {
        out.push("\n== rstest doctor: no timing data collected ==".to_owned());
        assert(texts(out@) =~= rendered(*r));
        return out;
    }
    out.push("\n================== rstest doctor ==================".to_owned());
    assert(texts(out@) =~= seq!["\n================== rstest doctor =================="@]);
    out.push(head_line(r));
    let mut part = wait_part(&r.wait_bound);
    out.append(&mut part);
    let mut part = floor_part(&r.parallel_floor, r.workers);
    out.append(&mut part);
    let mut part = efficiency_part(&r.parallel_efficiency);
    out.append(&mut part);
    let mut part = fixture_part(r.fixtures.as_slice());
    out.append(&mut part);
    out.push("\nSLOWEST FILES:".to_owned());
    let n = cap_len(r.slowest_files.len(), 5);
    let mut part = file_lines(r.slowest_files.as_slice(), n);
    out.append(&mut part);
    let mut part = leak_part(r.leaks.as_slice());
    out.append(&mut part);
    out.push("===================================================".to_owned());
    out
}

/// Where the report of a run on a CI service goes.
pub enum CiTarget {
    /// To a file.
    File(String),
    /// To an agent.
    Buildkite,
    Nowhere,
}

/// Decides where the report of a run on a CI service goes, by what the services set:
/// to the file that GitHub names, else to the agent of Buildkite.
pub fn ci_target(github: &Option<String>, buildkite: &Option<String>) -> (res: CiTarget)
    ensures
        goes_to(res, *github, *buildkite),
{
    if let Some(path) = github {
        if !path.as_str().is_empty() {
            return CiTarget::File(path.clone());
        }
    }
    if let Some(v) = buildkite {
        if !v.as_str().is_empty() {
            return CiTarget::Buildkite;
        }
    }
    CiTarget::Nowhere
}

/// Whether a variable is set to something.
pub open spec fn is_set(v: Option<String>) -> bool {
    opt_text(v) matches Some(s) && s.len() > 0
}

/// Whether the report of a run goes to `res`.
pub open spec fn goes_to(
    res: CiTarget,
    github: Option<String>,
    buildkite: Option<String>,
) -> bool {
    match res {
        CiTarget::File(f) => opt_text(github) == Some(f@) && f@.len() > 0,
        CiTarget::Buildkite => !is_set(github) && is_set(buildkite),
        CiTarget::Nowhere => !is_set(github) && !is_set(buildkite),
    }
}

/// The report of a run goes to the file that one service names, else to the agent of the
/// other, and nowhere without them; an empty name is none.
pub proof fn theorem_where_the_report_goes(
    res: CiTarget,
    github: Option<String>,
    buildkite: Option<String>,
)
    requires
        goes_to(res, github, buildkite),
    ensures
        github matches Some(g) ==> (g@.len() > 0 ==> (res matches CiTarget::File(f) && f@ == g@)),
        github is None ==> !(res is File),
        github matches Some(g) ==> (g@.len() == 0 ==> !(res is File)),
        github is None ==> (buildkite matches Some(b) ==> (b@.len() > 0 ==> res is Buildkite)),
        github is None && buildkite is None ==> res is Nowhere,
        github is None ==> (buildkite matches Some(b) ==> (b@.len() == 0 ==> res is Nowhere)),
{
}

/// What a test leaks is told by its threads and its files, each where it leaks some, and in
/// the plural but for one.
pub proof fn theorem_how_leaks_are_told(l: Leak)
    ensures
        l.threads == 1 && l.fds <= 0 ==> leak_delta_text(l) == "+"@ + decimal(1) + " thread"@ + ""@,
        l.threads >= 2 && l.fds <= 0 ==> leak_delta_text(l) == "+"@ + decimal(l.threads as nat)
            + " thread"@ + "s"@,
        l.threads <= 0 && l.fds == 1 ==> leak_delta_text(l) == "+"@ + decimal(1) + " fd"@ + ""@,
        l.threads <= 0 && l.fds >= 2 ==> leak_delta_text(l) == "+"@ + decimal(l.fds as nat)
            + " fd"@ + "s"@,
        l.threads >= 2 && l.fds >= 2 ==> leak_delta_text(l) == "+"@ + decimal(l.threads as nat)
            + " thread"@ + "s"@ + " "@ + ("+"@ + decimal(l.fds as nat) + " fd"@ + "s"@),
{
}

proof fn lemma_hot(fx: Seq<FixtureEntry>)
    ensures
        forall|k: int|
            0 <= k < hot(fx).len() ==> 0 <= #[trigger] hot(fx)[k] < fx.len() && fx[hot(
                fx,
            )[k]].total_seconds.at_least(Double { bits: 0x3FE0000000000000 }),
        forall|i: int|
            0 <= i < fx.len() && (#[trigger] fx[i]).total_seconds.at_least(
                Double { bits: 0x3FE0000000000000 },
            ) ==> hot(fx).contains(i),
        forall|j: int, k: int| 0 <= j < k < hot(fx).len() ==> hot(fx)[j] < hot(fx)[k],
    decreases fx.len(),
{
    if fx.len() > 0 {
        let init = fx.drop_last();
        let before = hot(init);
        let all = hot(fx);
        lemma_hot(init);
        assert forall|k: int| 0 <= k < all.len() implies 0 <= #[trigger] all[k] < fx.len()
            && fx[all[k]].total_seconds.at_least(Double { bits: 0x3FE0000000000000 }) by {
            if k < before.len() {
                assert(all[k] == before[k]);
                assert(fx[before[k]] == init[before[k]]);
            }
        }
        assert forall|i: int|
            0 <= i < fx.len() && (#[trigger] fx[i]).total_seconds.at_least(
                Double { bits: 0x3FE0000000000000 },
            ) implies all.contains(i) by {
            if i < init.len() {
                assert(init[i] == fx[i]);
                assert(before.contains(i));
                let k = choose|k: int| 0 <= k < before.len() && before[k] == i;
                assert(all[k] == i);
            } else {
                assert(all[all.len() - 1] == i);
            }
        }
        assert forall|j: int, k: int| 0 <= j < k < all.len() implies all[j] < all[k] by {
            if k < before.len() {
                assert(before[j] < before[k]);
            } else {
                assert(all[j] == before[j]);
                assert(0 <= before[j] < init.len());
            }
        }
    }
}

/// Fixtures are shown from half a second on, in their order, and eight at most; with fewer
/// than eight, all of those.
pub proof fn theorem_fixtures_that_are_shown(fx: Seq<FixtureEntry>, k: int, i: int)
    ensures
        shown_fixtures(fx).len() <= 8,
        0 <= k < shown_fixtures(fx).len() ==> 0 <= shown_fixtures(fx)[k] < fx.len()
            && fx[shown_fixtures(fx)[k]].total_seconds.at_least(
            Double { bits: 0x3FE0000000000000 },
        ),
        shown_fixtures(fx).len() < 8 && 0 <= i < fx.len() && fx[i].total_seconds.at_least(
            Double { bits: 0x3FE0000000000000 },
        ) ==> shown_fixtures(fx).contains(i),
        0 <= i < k < shown_fixtures(fx).len() ==> shown_fixtures(fx)[i] < shown_fixtures(fx)[k],
{
    lemma_hot(fx);
    let some = shown_fixtures(fx);
    if 0 <= k < some.len() {
        assert(some[k] == hot(fx)[k]);
    }
    if some.len() < 8 {
        assert(some =~= hot(fx));
    }
    if 0 <= i < k < some.len() {
        assert(some[i] == hot(fx)[i]);
        assert(hot(fx)[i] < hot(fx)[k]);
    }
}

/// A fixture gets advice where it belongs to a test, ran twenty times or more and took a
/// second or more, or where it belongs to the session and ran more than once.
pub proof fn theorem_fixtures_that_get_advice(f: FixtureEntry)
    requires
        f.total_seconds.bits <= 0x7FF0000000000000,
    ensures
        f.scope@ == "function"@ ==> ((fixture_advice(f).len() > 0 <==> f.count >= 20
            && f.total_seconds.bits >= 0x3FF0000000000000) && (fixture_hint(f).len() > 0
            <==> fixture_advice(f).len() > 0)),
        f.scope@ == "session"@ ==> ((fixture_advice(f).len() > 0 <==> f.count >= 2) && (
        fixture_hint(f).len() > 0 <==> fixture_advice(f).len() > 0)),
        f.scope@ != "function"@ && f.scope@ != "session"@ ==> fixture_advice(f).len() == 0
            && fixture_hint(f).len() == 0,
{
    reveal_strlit("function");
    reveal_strlit("session");
    assert("function"@.len() == 8);
    assert("session"@.len() == 7);
    reveal_strlit("ran many times; widen scope if value is reusable");
    reveal_strlit("session fixture ran once per worker; must be safe to duplicate");
    reveal_strlit("  <- ran many times; widen scope if value is reusable");
    reveal_strlit("  <- session fixture ran once PER WORKER; must be safe to duplicate (DBs, servers, ports)");
    reveal_strlit("");
    crate::double::theorem_numbers_compare_by_their_bits(
        f.total_seconds,
        Double { bits: 0x3FF0000000000000 },
    );
}

/// Workers overlap where they did more than five percent more than they could alone.
pub proof fn theorem_workers_that_overlap(e: ParallelEfficiency)
    requires
        e.efficiency_pct.bits <= 0x7FF0000000000000,
    ensures
        overlapping(e) <==> e.efficiency_pct.bits > 0x405A400000000000,
{
    crate::double::theorem_numbers_compare_by_their_bits(
        Double { bits: 0x405A400000000000 },
        e.efficiency_pct,
    );
}

/// Without tests a report says so and nothing else; with them it has a part only for what was
/// found.
pub proof fn theorem_parts_of_a_report(r: DoctorReport)
    ensures
        r.tests == 0 ==> markdown(r) == "## rstest doctor\n\n"@ + "No timing data collected.\n"@
            && rendered(r) == seq!["\n== rstest doctor: no timing data collected =="@],
        wait_section(None).len() == 0 && md_wait_section(None).len() == 0,
        floor_section(None, r.workers).len() == 0 && md_floor_section(None, r.workers).len() == 0,
        efficiency_section(None).len() == 0 && md_efficiency_section(None).len() == 0,
        leak_section(Seq::empty()).len() == 0 && md_leak_section(Seq::empty()).len() == 0,
        fixture_section(Seq::empty()).len() == 0 && md_fixture_section(Seq::empty()).len() == 0,
        md_file_section(Seq::empty()).len() == 0,
        r.tests > 0 ==> rendered(r).len() == 4 + wait_section(r.wait_bound).len() + floor_section(
            r.parallel_floor,
            r.workers,
        ).len() + efficiency_section(r.parallel_efficiency).len() + fixture_section(
            r.fixtures@,
        ).len() + capped(r.slowest_files@.len(), 5) + leak_section(r.leaks@).len(),
        r.tests > 0 ==> rendered(r)[1] == head_line_text(r),
{
    reveal_strlit("");
    assert(hot(Seq::empty()) =~= Seq::empty());
}

/// Eight waiting tests are shown, and how many more there are.
pub proof fn theorem_eight_waiting_tests_are_shown(w: WaitBound, i: int)
    ensures
        w.tests@.len() <= 8 ==> wait_section(Some(w)).len() == 1 + w.tests@.len(),
        w.tests@.len() > 8 ==> wait_section(Some(w)).len() == 10 && wait_section(Some(w)).last()
            == "  "@ + "... and "@ + decimal(((w.tests@.len() - 8) as usize) as nat) + " more"@,
        0 <= i < w.tests@.len() && i < 8 ==> wait_section(Some(w))[1 + i] == wait_line_text(
            w.tests@[i],
        ),
        wait_section(Some(w))[0] == wait_head_text(w),
{
}

/// Five tests that hold a run up are shown, the first of them.
pub proof fn theorem_five_gate_tests_are_shown(p: ParallelFloor, workers: usize, i: int)
    ensures
        p.gate_tests@.len() <= 5 ==> floor_section(Some(p), workers).len() == 1
            + p.gate_tests@.len(),
        p.gate_tests@.len() > 5 ==> floor_section(Some(p), workers).len() == 6,
        0 <= i < p.gate_tests@.len() && i < 5 ==> floor_section(Some(p), workers)[1 + i]
            == gate_line_text(p.gate_tests@[i]),
{
}

/// Eight workers are shown, how many more there are, and between how they were used and how
/// unevenly.
pub proof fn theorem_eight_workers_are_shown(e: ParallelEfficiency, i: int)
    ensures
        ({
            let lines = efficiency_section(Some(e));
            let over = if overlapping(e) {
                1int
            } else {
                0
            };
            &&& lines[0] == efficiency_head_text(e)
            &&& lines[1 + over] == long_pole_line_text(e)
            &&& lines.last() == imbalance_line_text(e)
            &&& e.workers_busy@.len() <= 8 ==> lines.len() == 4 + over + e.workers_busy@.len()
            &&& e.workers_busy@.len() > 8 ==> lines.len() == 13 + over
            &&& 0 <= i < e.workers_busy@.len() && i < 8 ==> lines[3 + over + i] == worker_line_text(
                e.workers_busy@[i],
            )
        }),
{
}

/// Ten leaking tests are shown, how many more there are, and what to do about them.
pub proof fn theorem_ten_leaks_are_shown(leaks: Seq<Leak>, i: int)
    requires
        leaks.len() > 0,
    ensures
        leaks.len() <= 10 ==> leak_section(leaks).len() == 2 + leaks.len(),
        leaks.len() > 10 ==> leak_section(leaks).len() == 13,
        0 <= i < leaks.len() && i < 10 ==> leak_section(leaks)[1 + i] == leak_line_text(leaks[i]),
{
}

} // verus!
