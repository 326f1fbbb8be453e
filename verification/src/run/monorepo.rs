//! A run of several projects, each in a session of its own.

use super::plan::{preferred, workers_in};
use crate::cli::{needs_passthrough_io, needs_terminal};
use crate::numbers::{dec, dec_len, dec_signed, decimal, signed_decimal};
use crate::text::{
    align_left, clone_texts, join, joined, left_aligned, opt_text, replace_char, replaced, str_eq,
    texts,
};
use vstd::prelude::*;

verus! {

broadcast use {crate::text::lemma_texts_push, crate::text::lemma_texts_add};

/// What is said where several projects cannot run: for each of them there would have
/// to be one session, one watch or one stream of results.
pub open spec fn refusal(
    args: Seq<Seq<char>>,
    watch: bool,
    output: Option<Seq<char>>,
) -> Option<Seq<char>> {
    if needs_terminal(args) {
        Some(
            "--pdb/-s/--co need a single pytest session; run inside one project of this monorepo (for --collect-only --report-json discovery, run it once per project)"@,
        )
    } else if watch {
        Some("--watch at a monorepo root is not supported yet; run inside a project"@)
    } else if output == Some("json"@) {
        Some(
            "--output json streams live per-session results and can't be merged across a monorepo's projects; use --report-json <path> for one merged machine-readable document, or run --output json inside a single project"@,
        )
    } else if output == Some("tap"@) {
        Some(
            "--output tap can't be merged across a monorepo's projects; use --junitxml for per-project machine-readable results, or run --output tap inside a single project"@,
        )
    } else {
        None
    }
}

/// Says why several projects cannot run, where they cannot.
pub fn refuse(args: &[String], watch: bool, output: &Option<String>) -> (res: Option<String>)
    ensures
        opt_text(res) == refusal(texts(args@), watch, opt_text(*output)),
{
    if needs_passthrough_io(args) {
        return Some(
            "--pdb/-s/--co need a single pytest session; run inside one project of this monorepo (for --collect-only --report-json discovery, run it once per project)".to_owned(),
        );
    }
    if watch {
        return Some(
            "--watch at a monorepo root is not supported yet; run inside a project".to_owned(),
        );
    }
    if let Some(o) = output {
        if str_eq(o.as_str(), "json") {
            return Some(
                "--output json streams live per-session results and can't be merged across a monorepo's projects; use --report-json <path> for one merged machine-readable document, or run --output json inside a single project".to_owned(),
            );
        }
        if str_eq(o.as_str(), "tap") {
            return Some(
                "--output tap can't be merged across a monorepo's projects; use --junitxml for per-project machine-readable results, or run --output tap inside a single project".to_owned(),
            );
        }
    }
    None
}

/// What a project is called: its path below the root, where it lies there, with
/// slashes.
pub open spec fn key_of(below: Option<Seq<char>>, project: Seq<char>) -> Seq<char> {
    replaced(
        match below {
            Some(rel) => rel,
            None => project,
        },
        '\\',
        "/"@,
    )
}

/// Names a project, given its path and what is left of it below the root.
pub fn project_key(below: &Option<String>, project: &str) -> (res: String)
    ensures
        res@ == key_of(opt_text(*below), project@),
{
    match below {
        Some(rel) => replace_char(rel.as_str(), '\\', "/"),
        None => replace_char(project, '\\', "/"),
    }
}

/// How many workers all projects share.
pub open spec fn budget_for(asked: Option<Seq<char>>, auto: nat) -> nat {
    let n = match workers_in(preferred(asked, None, "auto"@), auto) {
        Some(n) => n,
        None => 4,
    };
    if n < 1 {
        1
    } else {
        n
    }
}

/// Decides how many workers all projects share, given how many there are by default.
pub fn budget(asked: &Option<String>, auto: usize) -> (res: usize)
    ensures
        res == budget_for(opt_text(*asked), auto as nat),
{
    let n: usize = match asked {
        Some(v) => match super::plan::parse_numprocesses(v.as_str(), auto) {
            Some(n) => n,
            None => 4,
        },
        None => auto,
    };
    if n < 1 {
        1
    } else {
        n
    }
}

/// What changes mean for a project.
#[derive(Clone, Copy, Debug, PartialEq, Eq, Structural)]
pub enum Impact {
    /// It was changed itself.
    Direct,
    /// It depends on something that was changed.
    Dependent,
    Unaffected,
}

/// How many of the first `n` projects are affected by changes.
pub open spec fn affected_count(impacts: Seq<Impact>, n: nat) -> nat
    decreases n,
{
    if n == 0 {
        0
    } else {
        affected_count(impacts, (n - 1) as nat) + (if impacts[n - 1] == Impact::Unaffected {
            0nat
        } else {
            1
        })
    }
}

/// What is said of changed files and the projects they affect.
pub open spec fn impact_text(changed: usize, affected: nat, projects: nat) -> Seq<char> {
    "rstest: --changed: "@ + decimal(changed as nat) + " changed file(s) -> "@ + decimal(affected)
        + " of "@ + decimal(projects) + " projects affected"@
}

/// Says how many projects so many changed files affect.
pub fn impact_line(changed: usize, impacts: &[Impact]) -> (res: String)
    ensures
        res@ == impact_text(changed, affected_count(impacts@, impacts@.len()), impacts@.len()),
{
    let mut n: usize = 0;
    let mut i: usize = 0;
    while i < impacts.len()
        invariant
            i <= impacts.len(),
            n == affected_count(impacts@, i as nat),
            n <= i,
        decreases impacts.len() - i,
    {
        if impacts[i] != Impact::Unaffected {
            n += 1;
        }
        i += 1;
    }
    let mut out = String::from_str("rstest: --changed: ");
    out.append(dec_len(changed).as_str());
    out.append(" changed file(s) -> ");
    out.append(dec_len(n).as_str());
    out.append(" of ");
    out.append(dec_len(impacts.len()).as_str());
    out.append(" projects affected");
    out
}

/// Projects with their shares of the workers.
pub open spec fn share_texts(keys: Seq<Seq<char>>, shares: Seq<usize>) -> Seq<Seq<char>> {
    Seq::new(keys.len(), |i: int| keys[i] + ":-n"@ + decimal(shares[i] as nat))
}

/// The first line on several projects.
pub open spec fn heading(
    version: Seq<char>,
    keys: Seq<Seq<char>>,
    shares: Seq<usize>,
    budget: usize,
) -> Seq<char> {
    "rstest "@ + version + " — monorepo: "@ + decimal(keys.len()) + " projects, "@ + decimal(
        budget as nat,
    ) + " workers ("@ + joined(share_texts(keys, shares), ", "@) + ")"@
}

/// Writes the first line on several projects.
pub fn headline(version: &str, keys: &[String], shares: &[usize], budget: usize) -> (res: String)
    requires
        keys@.len() == shares@.len(),
    ensures
        res@ == heading(version@, texts(keys@), shares@, budget),
{
    let mut rows: Vec<String> = Vec::new();
    let mut i: usize = 0;
    while i < keys.len()
        invariant
            i <= keys.len(),
            keys@.len() == shares@.len(),
            rows.len() == i,
            forall|j: int|
                0 <= j < i ==> (#[trigger] rows@[j])@ == keys@[j]@ + ":-n"@ + decimal(
                    shares@[j] as nat,
                ),
        decreases keys.len() - i,
    {
        let mut row = keys[i].clone();
        row.append(":-n");
        row.append(dec_len(shares[i]).as_str());
        rows.push(row);
        i += 1;
    }
    assert(texts(rows@) =~= share_texts(texts(keys@), shares@));
    let mut out = String::from_str("rstest ");
    out.append(version);
    out.append(" — monorepo: ");
    out.append(dec_len(keys.len()).as_str());
    out.append(" projects, ");
    out.append(dec_len(budget).as_str());
    out.append(" workers (");
    out.append(join(rows.as_slice(), ", ").as_str());
    out.append(")");
    out
}

/// What is handed on to the session of a project: what was asked for, with the paths
/// that are its own.
pub struct Child {
    pub share: usize,
    pub python: Option<String>,
    pub dist: Option<String>,
    pub output: Option<String>,
    pub reruns: Option<u32>,
    pub quarantine: Option<String>,
    pub only_rerun: Vec<String>,
    pub worker_timeout: Option<u64>,
    pub doctor: bool,
    pub changed: Option<String>,
    pub changed_strict: bool,
    pub junitxml: Option<String>,
    pub report_json: Option<String>,
    pub doctor_json: Option<String>,
    pub doctor_md: Option<String>,
    pub doctor_fail_on: Vec<String>,
}

/// A flag with its value, where there is one.
pub open spec fn flag(name: Seq<char>, value: Option<Seq<char>>) -> Seq<Seq<char>> {
    match value {
        Some(v) => seq![name, v],
        None => Seq::empty(),
    }
}

/// A flag before each of some values.
pub open spec fn flags(name: Seq<char>, values: Seq<Seq<char>>) -> Seq<Seq<char>>
    decreases values.len(),
{
    if values.len() == 0 {
        Seq::empty()
    } else {
        flags(name, values.drop_last()) + seq![name, values.last()]
    }
}

/// The flags on changes: only a project that was changed itself is narrowed down.
pub open spec fn change_flags(c: Child, impact: Impact) -> Seq<Seq<char>> {
    match c.changed {
        Some(rev) => if impact == Impact::Direct {
            let first = seq!["--changed="@ + rev@];
            if c.changed_strict {
                first.push("--changed-strict"@)
            } else {
                first
            }
        } else {
            Seq::empty()
        },
        None => Seq::empty(),
    }
}

/// A number that may be missing, in decimal notation.
pub open spec fn opt_decimal(n: Option<u64>) -> Option<Seq<char>> {
    match n {
        Some(n) => Some(decimal(n as nat)),
        None => None,
    }
}

/// A count that may be missing, in decimal notation.
pub open spec fn opt_count(n: Option<u32>) -> Option<Seq<char>> {
    match n {
        Some(n) => Some(decimal(n as nat)),
        None => None,
    }
}

/// The arguments of the session of a project.
pub open spec fn child_list(c: Child, impact: Impact, args: Seq<Seq<char>>) -> Seq<Seq<char>> {
    seq!["-n"@, decimal(c.share as nat)] + flag("--python"@, opt_text(c.python)) + flag(
        "--dist"@,
        opt_text(c.dist),
    ) + flag("--output"@, opt_text(c.output)) + flag("--reruns"@, opt_count(c.reruns)) + flag(
        "--quarantine"@,
        opt_text(c.quarantine),
    ) + flags("--only-rerun"@, texts(c.only_rerun@)) + flag(
        "--worker-timeout"@,
        opt_decimal(c.worker_timeout),
    ) + (if c.doctor {
        seq!["--doctor"@]
    } else {
        Seq::empty()
    }) + change_flags(c, impact) + flag("--junitxml"@, opt_text(c.junitxml)) + flag(
        "--report-json"@,
        opt_text(c.report_json),
    ) + flag("--doctor-json"@, opt_text(c.doctor_json)) + flag(
        "--doctor-md"@,
        opt_text(c.doctor_md),
    ) + flags("--doctor-fail-on"@, texts(c.doctor_fail_on@)) + args
}

fn push_flag(out: &mut Vec<String>, name: &str, value: &Option<String>)
    ensures
        texts(final(out)@) == texts(old(out)@) + flag(name@, opt_text(*value)),
{
    let ghost before = texts(out@);
    match value {
        Some(v) => {
            out.push(name.to_owned());
            out.push(v.clone());
            assert(texts(out@) =~= before + seq![name@, v@]);
        },
        None => {
            assert(before + Seq::empty() =~= before);
        },
    }
}

fn push_flags(out: &mut Vec<String>, name: &str, values: &Vec<String>)
    ensures
        texts(final(out)@) == texts(old(out)@) + flags(name@, texts(values@)),
{
    let ghost before = texts(out@);
    let ghost all = texts(values@);
    let mut i: usize = 0;
    assert(before + flags(name@, all.take(0)) =~= before);
    while i < values.len()
        invariant
            i <= values.len(),
            all == texts(values@),
            texts(out@) == before + flags(name@, all.take(i as int)),
        decreases values.len() - i,
    {
        let ghost now = texts(out@);
        proof {
            assert(all.take(i + 1).drop_last() =~= all.take(i as int));
            assert(all.take(i + 1).last() == values@[i as int]@);
        }
        out.push(name.to_owned());
        out.push(values[i].clone());
        assert(texts(out@) =~= now + seq![name@, values@[i as int]@]);
        assert(before + (flags(name@, all.take(i as int)) + seq![name@, values@[i as int]@])
            =~= now + seq![name@, values@[i as int]@]);
        i += 1;
    }
    assert(all.take(values.len() as int) =~= all);
}

/// Makes the arguments of the session of a project.
pub fn child_args(c: &Child, impact: Impact, args: &[String]) -> (res: Vec<String>)
    ensures
        texts(res@) == child_list(*c, impact, texts(args@)),
{
    let mut out: Vec<String> = Vec::new();
    out.push("-n".to_owned());
    out.push(dec_len(c.share));
    assert(texts(out@) =~= seq!["-n"@, decimal(c.share as nat)]);
    push_flag(&mut out, "--python", &c.python);
    push_flag(&mut out, "--dist", &c.dist);
    push_flag(&mut out, "--output", &c.output);
    let reruns = match c.reruns {
        Some(n) => Some(dec(n as u64)),
        None => None,
    };
    assert(opt_text(reruns) == opt_count(c.reruns));
    push_flag(&mut out, "--reruns", &reruns);
    push_flag(&mut out, "--quarantine", &c.quarantine);
    push_flags(&mut out, "--only-rerun", &c.only_rerun);
    let timeout = match c.worker_timeout {
        Some(n) => Some(dec(n)),
        None => None,
    };
    assert(opt_text(timeout) == opt_decimal(c.worker_timeout));
    push_flag(&mut out, "--worker-timeout", &timeout);
    let ghost before = texts(out@);
    if c.doctor {
        out.push("--doctor".to_owned());
        assert(texts(out@) =~= before + seq!["--doctor"@]);
    } else {
        assert(texts(out@) =~= before + Seq::empty());
    }
    let ghost before = texts(out@);
    if let Some(rev) = &c.changed {
        if impact == Impact::Direct {
            let mut arg = String::from_str("--changed=");
            arg.append(rev.as_str());
            out.push(arg);
            if c.changed_strict {
                out.push("--changed-strict".to_owned());
            }
        }
    }
    assert(texts(out@) =~= before + change_flags(*c, impact));
    push_flag(&mut out, "--junitxml", &c.junitxml);
    push_flag(&mut out, "--report-json", &c.report_json);
    push_flag(&mut out, "--doctor-json", &c.doctor_json);
    push_flag(&mut out, "--doctor-md", &c.doctor_md);
    push_flags(&mut out, "--doctor-fail-on", &c.doctor_fail_on);
    let mut more = clone_texts(args);
    out.append(&mut more);
    out
}

/// What the part of the report that a project writes is called.
pub fn report_part_name(uid: &str, slug: &str) -> (res: String)
    ensures
        res@ == part_name(uid@, slug@),
{
    let mut out = String::from_str("rstest-mono-");
    out.append(uid);
    out.append("-");
    out.append(slug);
    out.append(".json");
    out
}

/// What became of a project, in words.
pub open spec fn verdict_text(status: i32) -> Seq<char> {
    if status == 0 {
        "ok"@
    } else if status == 5 {
        "no tests"@
    } else {
        "FAILED (exit "@ + signed_decimal(status as int) + ")"@
    }
}

/// The code of a project, where it ran; a project that gave none counts as broken.
pub open spec fn status_of(result: Option<i32>) -> i32 {
    match result {
        Some(s) => s,
        None => 3,
    }
}

/// The line on a project.
pub open spec fn project_line(key: Seq<char>, impact: Impact, result: Option<i32>) -> Seq<char> {
    "  "@ + left_aligned(key, 40) + " "@ + (if impact == Impact::Unaffected {
        "skipped (no changes)"@
    } else {
        verdict_text(status_of(result))
    })
}

/// The codes of the first `n` projects, as far as they ran.
pub open spec fn statuses_of(impacts: Seq<Impact>, results: Seq<Option<i32>>, n: nat) -> Seq<i32>
    decreases n,
{
    if n == 0 {
        Seq::empty()
    } else {
        let before = statuses_of(impacts, results, (n - 1) as nat);
        if impacts[n - 1] == Impact::Unaffected {
            before
        } else {
            before.push(status_of(results[n - 1]))
        }
    }
}

/// What is printed of all projects.
pub open spec fn summary_lines(
    keys: Seq<Seq<char>>,
    impacts: Seq<Impact>,
    results: Seq<Option<i32>>,
) -> Seq<Seq<char>> {
    let rows = seq!["\n=============== monorepo summary ==============="@] + Seq::new(
        keys.len(),
        |i: int| project_line(keys[i], impacts[i], results[i]),
    );
    if statuses_of(impacts, results, keys.len()).len() == 0 {
        rows.push("no projects affected by the change set"@)
    } else {
        rows
    }
}

/// The codes that the code of the whole run is made of: those of the projects that
/// ran, or one that tells whether it matters that none did.
pub open spec fn all_statuses(
    impacts: Seq<Impact>,
    results: Seq<Option<i32>>,
    strict: bool,
) -> Seq<i32> {
    let ran = statuses_of(impacts, results, impacts.len());
    if ran.len() == 0 {
        seq![
            if strict {
                5i32
            } else {
                0
            },
        ]
    } else {
        ran
    }
}

fn write_project(key: &str, impact: Impact, result: Option<i32>) -> (res: String)
    ensures
        res@ == project_line(key@, impact, result),
{
    let verdict = if impact == Impact::Unaffected {
        "skipped (no changes)".to_owned()
    } else {
        let status: i32 = match result {
            Some(s) => s,
            None => 3,
        };
        if status == 0 {
            "ok".to_owned()
        } else if status == 5 {
            "no tests".to_owned()
        } else {
            let mut v = String::from_str("FAILED (exit ");
            v.append(dec_signed(status as i64).as_str());
            v.append(")");
            v
        }
    };
    let mut out = String::from_str("  ");
    out.append(align_left(key, 40).as_str());
    out.append(" ");
    out.append(verdict.as_str());
    out
}

/// Sums up what became of the projects: the lines to print, and the codes that the
/// code of the whole run is made of.
pub fn sum_up(
    keys: &[String],
    impacts: &[Impact],
    results: &[Option<i32>],
    strict: bool,
) -> (res: (Vec<String>, Vec<i32>))
    requires
        keys@.len() == impacts@.len(),
        keys@.len() == results@.len(),
    ensures
        texts(res.0@) == summary_lines(texts(keys@), impacts@, results@),
        res.1@ == all_statuses(impacts@, results@, strict),
{
    let mut lines: Vec<String> = Vec::new();
    let mut statuses: Vec<i32> = Vec::new();
    lines.push("\n=============== monorepo summary ===============".to_owned());
    let mut i: usize = 0;
    while i < keys.len()
        invariant
            i <= keys.len(),
            keys@.len() == impacts@.len(),
            keys@.len() == results@.len(),
            lines.len() == i + 1,
            lines@[0]@ == "\n=============== monorepo summary ==============="@,
            forall|j: int|
                1 <= j < i + 1 ==> (#[trigger] lines@[j])@ == project_line(
                    keys@[j - 1]@,
                    impacts@[j - 1],
                    results@[j - 1],
                ),
            statuses@ == statuses_of(impacts@, results@, i as nat),
        decreases keys.len() - i,
    {
        lines.push(write_project(keys[i].as_str(), impacts[i], results[i]));
        if impacts[i] != Impact::Unaffected {
            statuses.push(
                match results[i] {
                    Some(s) => s,
                    None => 3,
                },
            );
        }
        i += 1;
    }
    let ghost rows = seq!["\n=============== monorepo summary ==============="@] + Seq::new(
        keys@.len(),
        |i: int| project_line(texts(keys@)[i], impacts@[i], results@[i]),
    );
    assert(texts(lines@) =~= rows);
    if statuses.len() == 0 {
        lines.push("no projects affected by the change set".to_owned());
        statuses.push(
            if strict {
                5
            } else {
                0
            },
        );
        assert(statuses@ =~= all_statuses(impacts@, results@, strict));
    }
    (lines, statuses)
}

/// A project that gave no code, though it was to run, is not taken for a success.
pub proof fn theorem_silence_is_failure(
    impacts: Seq<Impact>,
    results: Seq<Option<i32>>,
    strict: bool,
    i: int,
)
    requires
        impacts.len() == results.len(),
        0 <= i < impacts.len(),
        impacts[i] != Impact::Unaffected,
        results[i] is None,
    ensures
        all_statuses(impacts, results, strict).contains(3),
{
    lemma_status_kept(impacts, results, impacts.len(), i);
    let ran = statuses_of(impacts, results, impacts.len());
    let k = choose|k: int| 0 <= k < ran.len() && ran[k] == 3;
    assert(all_statuses(impacts, results, strict)[k] == 3);
}

proof fn lemma_status_kept(impacts: Seq<Impact>, results: Seq<Option<i32>>, n: nat, i: int)
    requires
        0 <= i < n,
        impacts[i] != Impact::Unaffected,
    ensures
        statuses_of(impacts, results, n).contains(status_of(results[i])),
    decreases n,
{
    let before = statuses_of(impacts, results, (n - 1) as nat);
    let all = statuses_of(impacts, results, n);
    if i < n - 1 {
        lemma_status_kept(impacts, results, (n - 1) as nat, i);
        let k = choose|k: int| 0 <= k < before.len() && before[k] == status_of(results[i]);
        assert(all[k] == before[k]);
    } else {
        assert(all[before.len() as int] == status_of(results[i]));
    }
}

/// A run of several projects is refused where it would need one session, would watch, or
/// would stream one result.
pub proof fn theorem_what_is_refused(args: Seq<Seq<char>>, watch: bool, output: Option<Seq<char>>)
    ensures
        refusal(args, watch, output) is None <==> !needs_terminal(args) && !watch && output
            != Some("json"@) && output != Some("tap"@),
{
}

/// A project is named by where it lies below the root, with slashes.
pub proof fn theorem_names_of_projects(rel: Seq<char>, project: Seq<char>)
    ensures
        !rel.contains('\\') ==> key_of(Some(rel), project) == rel,
        !project.contains('\\') ==> key_of(None, project) == project,
        !key_of(Some(rel), project).contains('\\'),
{
    reveal_strlit("/");
    if !rel.contains('\\') {
        crate::annotate::lemma_replaced_absent(rel, '\\', "/"@);
    }
    if !project.contains('\\') {
        crate::annotate::lemma_replaced_absent(project, '\\', "/"@);
    }
    if key_of(Some(rel), project).contains('\\') {
        crate::junit::lemma_replaced_holds(rel, '\\', "/"@, '\\');
    }
}

/// As many workers are shared out as asked for, and one at least; what is no number is taken
/// for four, and nothing for as many as there are.
pub proof fn theorem_workers_that_are_shared(value: Seq<char>, auto: nat)
    ensures
        auto >= 1 ==> budget_for(None, auto) == auto,
        auto == 0 ==> budget_for(None, auto) == 1,
        auto >= 1 ==> budget_for(Some("auto"@), auto) == auto,
        value != "auto"@ && crate::numbers::number_up_to(value, usize::MAX as nat) is None ==> budget_for(
            Some(value),
            auto,
        ) == 4,
        value != "auto"@ ==> (crate::numbers::number_up_to(value, usize::MAX as nat) matches Some(n) ==> (n >= 1
            ==> budget_for(Some(value), auto) == n) && (n == 0 ==> budget_for(Some(value), auto)
            == 1)),
        budget_for(Some(value), auto) >= 1,
{
}

/// Projects count as affected where they were changed or depend on what was.
pub proof fn theorem_affected_projects_count(impacts: Seq<Impact>, n: nat)
    requires
        n < impacts.len(),
    ensures
        affected_count(impacts, 0) == 0,
        impacts[n as int] == Impact::Direct || impacts[n as int] == Impact::Dependent
            ==> affected_count(impacts, n + 1) == affected_count(impacts, n) + 1,
        impacts[n as int] == Impact::Unaffected ==> affected_count(impacts, n + 1)
            == affected_count(impacts, n),
{
}

/// Only a project that was changed itself runs what changed; one that depends on it runs all.
pub proof fn theorem_changed_projects_run_what_changed(c: Child, impact: Impact)
    ensures
        c.changed is None ==> change_flags(c, impact).len() == 0,
        impact != Impact::Direct ==> change_flags(c, impact).len() == 0,
        c.changed matches Some(rev) ==> change_flags(c, Impact::Direct)[0] == "--changed="@ + rev@,
        c.changed is Some && c.changed_strict ==> change_flags(c, Impact::Direct).len() == 2
            && change_flags(c, Impact::Direct)[1] == "--changed-strict"@,
        c.changed is Some && !c.changed_strict ==> change_flags(c, Impact::Direct).len() == 1,
{
}

proof fn lemma_flags(name: Seq<char>, values: Seq<Seq<char>>, i: int)
    requires
        0 <= i < values.len(),
    ensures
        flags(name, values).len() == 2 * values.len(),
        flags(name, values)[2 * i] == name,
        flags(name, values)[2 * i + 1] == values[i],
    decreases values.len(),
{
    let init = values.drop_last();
    if i < init.len() {
        lemma_flags(name, init, i);
    } else if init.len() > 0 {
        lemma_flags(name, init, 0);
    } else {
        assert(flags(name, init) =~= Seq::empty());
    }
}

/// A flag that has a value is handed on with it, one that may have several once for each, and
/// one that has none not at all.
pub proof fn theorem_flags_are_handed_on(
    name: Seq<char>,
    value: Seq<char>,
    values: Seq<Seq<char>>,
    i: int,
)
    ensures
        flag(name, Some(value)) == seq![name, value],
        flag(name, None).len() == 0,
        flags(name, Seq::empty()).len() == 0,
        0 <= i < values.len() ==> flags(name, values).len() == 2 * values.len() && flags(
            name,
            values,
        )[2 * i] == name && flags(name, values)[2 * i + 1] == values[i],
{
    if 0 <= i < values.len() {
        lemma_flags(name, values, i);
    }
}

/// Whether a list has `name` and `value` one after the other.
pub open spec fn handed_on(all: Seq<Seq<char>>, name: Seq<char>, value: Seq<char>) -> bool {
    exists|k: int| 0 <= k < all.len() - 1 && #[trigger] all[k] == name && all[k + 1] == value
}

spec fn begins(all: Seq<Seq<char>>, head: Seq<Seq<char>>) -> bool {
    head.len() <= all.len() && all.take(head.len() as int) == head
}

proof fn lemma_shorter_beginning(all: Seq<Seq<char>>, head: Seq<Seq<char>>, more: Seq<Seq<char>>)
    requires
        begins(all, head + more),
    ensures
        begins(all, head),
{
    assert(all.take(head.len() as int) =~= (head + more).take(head.len() as int));
    assert((head + more).take(head.len() as int) =~= head);
}

proof fn lemma_first_inside(all: Seq<Seq<char>>, head: Seq<Seq<char>>, more: Seq<Seq<char>>)
    requires
        begins(all, head + more),
        more.len() > 0,
    ensures
        all.contains(more[0]),
{
    let n = head.len() as int;
    assert(all.take((head + more).len() as int)[n] == (head + more)[n]);
    assert(all[n] == more[0]);
}

proof fn lemma_pair_inside(
    all: Seq<Seq<char>>,
    head: Seq<Seq<char>>,
    name: Seq<char>,
    value: Seq<char>,
)
    requires
        begins(all, head + flag(name, Some(value))),
    ensures
        handed_on(all, name, value),
{
    let n = head.len() as int;
    let pair = flag(name, Some(value));
    assert(all.take((head + pair).len() as int)[n] == (head + pair)[n]);
    assert(all.take((head + pair).len() as int)[n + 1] == (head + pair)[n + 1]);
    assert(all[n] == name && all[n + 1] == value);
}

proof fn lemma_pairs_inside(
    all: Seq<Seq<char>>,
    head: Seq<Seq<char>>,
    name: Seq<char>,
    values: Seq<Seq<char>>,
    i: int,
)
    requires
        begins(all, head + flags(name, values)),
        0 <= i < values.len(),
    ensures
        handed_on(all, name, values[i]),
{
    lemma_flags(name, values, i);
    let n = head.len() + 2 * i;
    let pairs = flags(name, values);
    assert(all.take((head + pairs).len() as int)[n] == (head + pairs)[n]);
    assert(all.take((head + pairs).len() as int)[n + 1] == (head + pairs)[n + 1]);
    assert(all[n] == name && all[n + 1] == values[i]);
}

/// A project's run has its share of the workers first and the arguments of the whole last.
#[verifier::spinoff_prover]
#[verifier::rlimit(60)]
pub proof fn theorem_arguments_of_a_project(c: Child, impact: Impact, args: Seq<Seq<char>>)
    ensures
        child_list(c, impact, args)[0] == "-n"@,
        child_list(c, impact, args)[1] == decimal(c.share as nat),
        child_list(c, impact, args).skip(child_list(c, impact, args).len() - args.len()) == args,
{
    let all = child_list(c, impact, args);
    let head = child_list(c, impact, Seq::empty());
    assert(head + args =~= all);
    assert(all.skip(all.len() - args.len()) =~= args);
}

/// Each option of a project that is set is handed on, under its name.
#[verifier::spinoff_prover]
#[verifier::rlimit(80)]
pub proof fn theorem_options_of_a_project(
    c: Child,
    impact: Impact,
    args: Seq<Seq<char>>,
    i: int,
)
    ensures
        c.python matches Some(v) ==> handed_on(child_list(c, impact, args), "--python"@, v@),
        c.dist matches Some(v) ==> handed_on(child_list(c, impact, args), "--dist"@, v@),
        c.output matches Some(v) ==> handed_on(child_list(c, impact, args), "--output"@, v@),
        c.reruns matches Some(v) ==> handed_on(child_list(c, impact, args), "--reruns"@, decimal(v as nat)),
        c.quarantine matches Some(v) ==> handed_on(child_list(c, impact, args), "--quarantine"@, v@),
        0 <= i < c.only_rerun@.len() ==> handed_on(
            child_list(c, impact, args),
            "--only-rerun"@,
            c.only_rerun@[i]@,
        ),
        c.worker_timeout matches Some(v) ==> handed_on(child_list(c, impact, args), "--worker-timeout"@, decimal(v as nat)),
        c.doctor ==> child_list(c, impact, args).contains("--doctor"@),
        c.changed matches Some(rev) ==> (impact == Impact::Direct ==> child_list(
            c,
            impact,
            args,
        ).contains("--changed="@ + rev@)),
        c.junitxml matches Some(v) ==> handed_on(child_list(c, impact, args), "--junitxml"@, v@),
        c.report_json matches Some(v) ==> handed_on(child_list(c, impact, args), "--report-json"@, v@),
        c.doctor_json matches Some(v) ==> handed_on(child_list(c, impact, args), "--doctor-json"@, v@),
        c.doctor_md matches Some(v) ==> handed_on(child_list(c, impact, args), "--doctor-md"@, v@),
        0 <= i < c.doctor_fail_on@.len() ==> handed_on(
            child_list(c, impact, args),
            "--doctor-fail-on"@,
            c.doctor_fail_on@[i]@,
        ),
{
    let all = child_list(c, impact, args);
    let doctor = if c.doctor {
        seq!["--doctor"@]
    } else {
        Seq::empty()
    };
    let h0 = seq!["-n"@, decimal(c.share as nat)];
    let h1 = h0 + flag("--python"@, opt_text(c.python));
    let h2 = h1 + flag("--dist"@, opt_text(c.dist));
    let h3 = h2 + flag("--output"@, opt_text(c.output));
    let h4 = h3 + flag("--reruns"@, opt_count(c.reruns));
    let h5 = h4 + flag("--quarantine"@, opt_text(c.quarantine));
    let h6 = h5 + flags("--only-rerun"@, texts(c.only_rerun@));
    let h7 = h6 + flag("--worker-timeout"@, opt_decimal(c.worker_timeout));
    let h8 = h7 + doctor;
    let h9 = h8 + change_flags(c, impact);
    let h10 = h9 + flag("--junitxml"@, opt_text(c.junitxml));
    let h11 = h10 + flag("--report-json"@, opt_text(c.report_json));
    let h12 = h11 + flag("--doctor-json"@, opt_text(c.doctor_json));
    let h13 = h12 + flag("--doctor-md"@, opt_text(c.doctor_md));
    let h14 = h13 + flags("--doctor-fail-on"@, texts(c.doctor_fail_on@));
    assert(all == h14 + args);
    assert(all.take(h14.len() as int) =~= h14);
    if 0 <= i < c.doctor_fail_on@.len() {
        lemma_pairs_inside(all, h13, "--doctor-fail-on"@, texts(c.doctor_fail_on@), i);
    }
    lemma_shorter_beginning(all, h13, flags("--doctor-fail-on"@, texts(c.doctor_fail_on@)));
    if let Some(v) = c.doctor_md {
        lemma_pair_inside(all, h12, "--doctor-md"@, v@);
    }
    lemma_shorter_beginning(all, h12, flag("--doctor-md"@, opt_text(c.doctor_md)));
    if let Some(v) = c.doctor_json {
        lemma_pair_inside(all, h11, "--doctor-json"@, v@);
    }
    lemma_shorter_beginning(all, h11, flag("--doctor-json"@, opt_text(c.doctor_json)));
    if let Some(v) = c.report_json {
        lemma_pair_inside(all, h10, "--report-json"@, v@);
    }
    lemma_shorter_beginning(all, h10, flag("--report-json"@, opt_text(c.report_json)));
    if let Some(v) = c.junitxml {
        lemma_pair_inside(all, h9, "--junitxml"@, v@);
    }
    lemma_shorter_beginning(all, h9, flag("--junitxml"@, opt_text(c.junitxml)));
    if c.changed is Some && impact == Impact::Direct {
        lemma_first_inside(all, h8, change_flags(c, impact));
    }
    lemma_shorter_beginning(all, h8, change_flags(c, impact));
    if c.doctor {
        lemma_first_inside(all, h7, doctor);
    }
    lemma_shorter_beginning(all, h7, doctor);
    if let Some(v) = c.worker_timeout {
        lemma_pair_inside(all, h6, "--worker-timeout"@, decimal(v as nat));
    }
    lemma_shorter_beginning(all, h6, flag("--worker-timeout"@, opt_decimal(c.worker_timeout)));
    if 0 <= i < c.only_rerun@.len() {
        lemma_pairs_inside(all, h5, "--only-rerun"@, texts(c.only_rerun@), i);
    }
    lemma_shorter_beginning(all, h5, flags("--only-rerun"@, texts(c.only_rerun@)));
    if let Some(v) = c.quarantine {
        lemma_pair_inside(all, h4, "--quarantine"@, v@);
    }
    lemma_shorter_beginning(all, h4, flag("--quarantine"@, opt_text(c.quarantine)));
    if let Some(v) = c.reruns {
        lemma_pair_inside(all, h3, "--reruns"@, decimal(v as nat));
    }
    lemma_shorter_beginning(all, h3, flag("--reruns"@, opt_count(c.reruns)));
    if let Some(v) = c.output {
        lemma_pair_inside(all, h2, "--output"@, v@);
    }
    lemma_shorter_beginning(all, h2, flag("--output"@, opt_text(c.output)));
    if let Some(v) = c.dist {
        lemma_pair_inside(all, h1, "--dist"@, v@);
    }
    lemma_shorter_beginning(all, h1, flag("--dist"@, opt_text(c.dist)));
    if let Some(v) = c.python {
        lemma_pair_inside(all, h0, "--python"@, v@);
    }
}

/// A project succeeded with zero, had no tests with five, and failed with anything else; one
/// that gave no code failed with three.
pub proof fn theorem_what_is_said_of_a_project(status: i32)
    ensures
        verdict_text(0) == "ok"@,
        verdict_text(5) == "no tests"@,
        status != 0 && status != 5 ==> verdict_text(status) == "FAILED (exit "@ + signed_decimal(
            status as int,
        ) + ")"@,
        status_of(None) == 3,
        status_of(Some(status)) == status,
{
}

/// Every project that was to run gives a code, and one that was not gives none; where none
/// was to run, the whole succeeds, and has no tests where that is to be told.
pub proof fn theorem_codes_of_projects(
    impacts: Seq<Impact>,
    results: Seq<Option<i32>>,
    strict: bool,
    n: nat,
)
    requires
        n < impacts.len(),
        impacts.len() == results.len(),
    ensures
        statuses_of(impacts, results, 0).len() == 0,
        impacts[n as int] == Impact::Unaffected ==> statuses_of(impacts, results, n + 1)
            == statuses_of(impacts, results, n),
        impacts[n as int] != Impact::Unaffected ==> statuses_of(impacts, results, n + 1)
            == statuses_of(impacts, results, n).push(status_of(results[n as int])),
        statuses_of(impacts, results, impacts.len()).len() > 0 ==> all_statuses(
            impacts,
            results,
            strict,
        ) == statuses_of(impacts, results, impacts.len()),
        statuses_of(impacts, results, impacts.len()).len() == 0 ==> all_statuses(
            impacts,
            results,
            true,
        ) == seq![5i32] && all_statuses(impacts, results, false) == seq![0i32],
{
}

/// The summary has a line for each project, in order, and says where none was affected.
pub proof fn theorem_each_project_has_a_line(
    keys: Seq<Seq<char>>,
    impacts: Seq<Impact>,
    results: Seq<Option<i32>>,
    i: int,
)
    ensures
        0 <= i < keys.len() ==> summary_lines(keys, impacts, results)[i + 1] == project_line(
            keys[i],
            impacts[i],
            results[i],
        ),
        statuses_of(impacts, results, keys.len()).len() == 0 ==> summary_lines(
            keys,
            impacts,
            results,
        ).last() == "no projects affected by the change set"@ && summary_lines(
            keys,
            impacts,
            results,
        ).len() == keys.len() + 2,
        statuses_of(impacts, results, keys.len()).len() > 0 ==> summary_lines(
            keys,
            impacts,
            results,
        ).len() == keys.len() + 1,
        0 <= i < keys.len() && impacts[i] == Impact::Unaffected ==> project_line(
            keys[i],
            impacts[i],
            results[i],
        ) == "  "@ + left_aligned(keys[i], 40) + " "@ + "skipped (no changes)"@,
        0 <= i < keys.len() && impacts[i] != Impact::Unaffected ==> project_line(
            keys[i],
            impacts[i],
            results[i],
        ) == "  "@ + left_aligned(keys[i], 40) + " "@ + verdict_text(status_of(results[i])),
{
}

/// The name of the file that a project writes its report to.
pub open spec fn part_name(uid: Seq<char>, slug: Seq<char>) -> Seq<char> {
    "rstest-mono-"@ + uid + "-"@ + slug + ".json"@
}

/// Projects of one run do not write to the same file, nor does one project in two runs.
pub proof fn theorem_projects_write_apart(u: Seq<char>, v: Seq<char>, a: Seq<char>, b: Seq<char>)
    ensures
        a != b ==> part_name(u, a) != part_name(u, b),
        u != v ==> part_name(u, a) != part_name(v, a),
{
    let head = "rstest-mono-"@;
    let n = head.len() as int;
    let m = "-"@.len() as int;
    let t = ".json"@.len() as int;
    let ua = part_name(u, a);
    let ub = part_name(u, b);
    let va = part_name(v, a);
    assert(ua.subrange(n + u.len() + m, ua.len() - t) =~= a);
    assert(ub.subrange(n + u.len() + m, ub.len() - t) =~= b);
    assert(ua.subrange(n, ua.len() - t - a.len() - m) =~= u);
    assert(va.subrange(n, va.len() - t - a.len() - m) =~= v);
}

/// A backslash in the name of a project is a slash.
pub proof fn theorem_backslashes_are_slashes(a: Seq<char>, b: Seq<char>, project: Seq<char>)
    ensures
        key_of(Some(a + seq!['\\'] + b), project) == key_of(Some(a), project) + "/"@ + key_of(
            Some(b),
            project,
        ),
{
    crate::annotate::lemma_replaced_add(a + seq!['\\'], b, '\\', "/"@);
    crate::annotate::lemma_replaced_add(a, seq!['\\'], '\\', "/"@);
    crate::annotate::lemma_replaced_one('\\', '\\', "/"@);
}

} // verus!
