//! All that is cached of one test.

use crate::coverage_skip::{CoverageFile, CoverageIndex};
use crate::double::Double;
use crate::flakes::FlakeStats;
use crate::nodeids::{file_of, file_part};
use crate::numbers::{dec, dec_len, decimal};
use crate::ordered_map::{key_at, OrderedKey, OrderedMap, TextSet};
use crate::text::{contains_str, contains_sub, contains_text, texts};
use vstd::prelude::*;

verus! {

broadcast use crate::text::lemma_texts_push;

/// Version of the dossier as it is printed for tools.
pub const SCHEMA: u32 = 1;

/// What a test executed.
pub struct Coverage {
    pub file_count: usize,
    pub line_count: usize,
    /// The files, in ascending order.
    pub files: Vec<String>,
}

/// All that is cached of one test.
pub struct ExplainReport {
    pub nodeid: String,
    /// Whether anything is cached of it.
    pub found: bool,
    pub duration_seconds: Option<Double>,
    /// Whether it passed in the last run that recorded outcomes.
    pub passed: bool,
    /// The line it is defined at, counted from one.
    pub source_line: Option<u64>,
    pub flakes: Option<FlakeStats>,
    pub coverage: Option<Coverage>,
}

/// How many of some lines a test executed.
pub open spec fn lines_hit(lines: Seq<(u32, Vec<String>)>, id: Seq<char>) -> nat
    decreases lines.len(),
{
    if lines.len() == 0 {
        0
    } else {
        lines_hit(lines.drop_last(), id) + (if texts(lines.last().1@).contains(id) {
            1nat
        } else {
            0nat
        })
    }
}

/// How many lines of some files a test executed.
pub open spec fn all_lines_hit(files: Seq<(String, CoverageFile)>, id: Seq<char>) -> nat
    decreases files.len(),
{
    if files.len() == 0 {
        0
    } else {
        all_lines_hit(files.drop_last(), id) + lines_hit(files.last().1.lines.list(), id)
    }
}

/// The files of which a test executed a line.
pub open spec fn files_hit(files: Seq<(String, CoverageFile)>, id: Seq<char>) -> Seq<Seq<char>>
    decreases files.len(),
{
    if files.len() == 0 {
        Seq::empty()
    } else {
        let before = files_hit(files.drop_last(), id);
        if lines_hit(files.last().1.lines.list(), id) > 0 {
            before.push(files.last().0@)
        } else {
            before
        }
    }
}

/// Finds out what a test executed. None where it executed nothing.
pub fn footprint(index: &CoverageIndex, nodeid: &str) -> (res: Option<Coverage>)
    ensures
        match res {
            Some(c) => {
                &&& texts(c.files@) == files_hit(index.files.list(), nodeid@)
                &&& c.files@.len() > 0
                &&& c.file_count == c.files@.len()
                &&& c.line_count == all_lines_hit(index.files.list(), nodeid@)
            },
            None => files_hit(index.files.list(), nodeid@).len() == 0,
        },
{
    let n = index.files.len();
    let ghost all = index.files.list();
    let mut files: Vec<String> = Vec::new();
    let mut hits: Vec<u32> = Vec::new();
    let mut i: usize = 0;
    assert(texts(files@) =~= files_hit(all.take(0), nodeid@));
    assert(all_lines_hit(all.take(0), nodeid@) == 0);
    while i < n
        invariant
            i <= n,
            n == all.len(),
            all == index.files.list(),
            texts(files@) == files_hit(all.take(i as int), nodeid@),
            hits@.len() == all_lines_hit(all.take(i as int), nodeid@),
        decreases n - i,
    {
        let (name, file) = index.files.at(i);
        proof {
            assert(all.take(i + 1).drop_last() =~= all.take(i as int));
            assert(all.take(i + 1).last() == all[i as int]);
        }
        let before = hits.len();
        let m = file.lines.len();
        let ghost lines = file.lines.list();
        let mut j: usize = 0;
        assert(lines_hit(lines.take(0), nodeid@) == 0);
        while j < m
            invariant
                j <= m,
                m == lines.len(),
                lines == file.lines.list(),
                hits@.len() == before + lines_hit(lines.take(j as int), nodeid@),
            decreases m - j,
        {
            let (line, ids) = file.lines.at(j);
            proof {
                assert(lines.take(j + 1).drop_last() =~= lines.take(j as int));
                assert(lines.take(j + 1).last() == lines[j as int]);
            }
            if contains_text(ids.as_slice(), nodeid) {
                hits.push(*line);
            }
            j += 1;
        }
        assert(lines.take(m as int) =~= lines);
        if hits.len() > before {
            files.push(name.clone());
        }
        i += 1;
    }
    assert(all.take(n as int) =~= all);
    if files.len() == 0 {
        return None;
    }
    Some(Coverage { file_count: files.len(), line_count: hits.len(), files })
}

proof fn lemma_lines_hit(lines: Seq<(u32, Vec<String>)>, id: Seq<char>)
    ensures
        lines_hit(lines, id) > 0 <==> exists|i: int|
            0 <= i < lines.len() && texts((#[trigger] lines[i]).1@).contains(id),
    decreases lines.len(),
{
    if lines.len() > 0 {
        let before = lines.drop_last();
        lemma_lines_hit(before, id);
        if lines_hit(lines, id) > 0 {
            if texts(lines.last().1@).contains(id) {
                assert(texts(lines[lines.len() - 1].1@).contains(id));
            } else {
                let i = choose|i: int|
                    0 <= i < before.len() && texts((#[trigger] before[i]).1@).contains(id);
                assert(texts(lines[i].1@).contains(id));
            }
        }
        if exists|i: int| 0 <= i < lines.len() && texts((#[trigger] lines[i]).1@).contains(id) {
            let i = choose|i: int|
                0 <= i < lines.len() && texts((#[trigger] lines[i]).1@).contains(id);
            if i < lines.len() - 1 {
                assert(texts(before[i].1@).contains(id));
            }
        }
    }
}

/// The files that are told of are those that the test covers, in ascending order.
pub proof fn theorem_footprint_lists_what_is_covered(index: CoverageIndex, id: Seq<char>)
    requires
        index.files.listed(),
        forall|i: int|
            0 <= i < index.files.list().len() ==> (#[trigger] index.files.list()[i]).1.lines.listed(),
    ensures
        forall|f: Seq<char>|
            files_hit(index.files.list(), id).contains(f) <==> #[trigger] index.covers(id, f),
        crate::order::strictly_ascending(files_hit(index.files.list(), id)),
{
    let all = index.files.list();
    lemma_files_hit(all, id);
    assert forall|f: Seq<char>|
        files_hit(all, id).contains(f) <==> #[trigger] index.covers(id, f) by {
        if files_hit(all, id).contains(f) {
            let i = choose|i: int|
                0 <= i < all.len() && (#[trigger] all[i]).0@ == f && lines_hit(
                    all[i].1.lines.list(),
                    id,
                ) > 0;
            let lines = all[i].1.lines.list();
            lemma_lines_hit(lines, id);
            let k = choose|k: int| 0 <= k < lines.len() && texts((#[trigger] lines[k]).1@).contains(id);
            assert(index.files@.contains_key(all[i].0.model()));
            assert(index.files@[f] == all[i].1);
            assert(all[i].1.lines@.contains_key(lines[k].0.model()));
            assert(all[i].1.hit(lines[k].0, id));
        }
        if index.covers(id, f) {
            let i = choose|i: int| #[trigger] key_at(all, i, f);
            let file = all[i].1;
            assert(index.files@[all[i].0.model()] == file);
            let line = choose|line: u32| file.hit(line, id);
            let lines = file.lines.list();
            let k = choose|k: int| #[trigger] key_at(lines, k, line);
            assert(file.lines@[lines[k].0.model()] == lines[k].1);
            assert(texts(lines[k].1@).contains(id));
            lemma_lines_hit(lines, id);
            assert(all[i].0@ == f && lines_hit(all[i].1.lines.list(), id) > 0);
        }
    }
}

proof fn lemma_files_hit(all: Seq<(String, CoverageFile)>, id: Seq<char>)
    requires
        crate::ordered_map::keys_ascend(all),
    ensures
        forall|f: Seq<char>| #[trigger]
            files_hit(all, id).contains(f) <==> exists|i: int|
                0 <= i < all.len() && (#[trigger] all[i]).0@ == f && lines_hit(
                    all[i].1.lines.list(),
                    id,
                ) > 0,
        crate::order::strictly_ascending(files_hit(all, id)),
    decreases all.len(),
{
    let out = files_hit(all, id);
    if all.len() > 0 {
        let before = all.drop_last();
        let shorter = files_hit(before, id);
        lemma_files_hit(before, id);
        assert forall|f: Seq<char>| #[trigger] out.contains(f) <==> exists|i: int|
            0 <= i < all.len() && (#[trigger] all[i]).0@ == f && lines_hit(
                all[i].1.lines.list(),
                id,
            ) > 0 by {
            if out.contains(f) {
                let k = choose|k: int| 0 <= k < out.len() && out[k] == f;
                if k < shorter.len() {
                    assert(shorter[k] == f);
                    assert(shorter.contains(f));
                    let i = choose|i: int|
                        0 <= i < before.len() && (#[trigger] before[i]).0@ == f && lines_hit(
                            before[i].1.lines.list(),
                            id,
                        ) > 0;
                    assert(all[i] == before[i]);
                } else {
                    assert(all[all.len() - 1].0@ == f);
                }
            }
            if exists|i: int|
                0 <= i < all.len() && (#[trigger] all[i]).0@ == f && lines_hit(
                    all[i].1.lines.list(),
                    id,
                ) > 0 {
                let i = choose|i: int|
                    0 <= i < all.len() && (#[trigger] all[i]).0@ == f && lines_hit(
                        all[i].1.lines.list(),
                        id,
                    ) > 0;
                if i < before.len() {
                    assert(before[i].0@ == f);
                    assert(shorter.contains(f));
                    let k = choose|k: int| 0 <= k < shorter.len() && shorter[k] == f;
                    assert(out[k] == f);
                } else {
                    assert(out[out.len() - 1] == f);
                }
            }
        }
        assert forall|i: int, j: int| 0 <= i < j < out.len() implies crate::order::text_lt(
            #[trigger] out[i],
            #[trigger] out[j],
        ) by {
            if j < shorter.len() {
                assert(out[i] == shorter[i] && out[j] == shorter[j]);
            } else {
                assert(out[i] == shorter[i]);
                assert(shorter.contains(out[i]));
                let k = choose|k: int|
                    0 <= k < before.len() && (#[trigger] before[k]).0@ == out[i] && lines_hit(
                        before[k].1.lines.list(),
                        id,
                    ) > 0;
                assert(all[k] == before[k]);
                assert(<String as OrderedKey>::before(
                    all[k].0.model(),
                    all[all.len() - 1].0.model(),
                ));
            }
        }
    }
}

/// Whether a dossier holds what is cached of a test.
pub open spec fn gathered(
    r: ExplainReport,
    nodeid: Seq<char>,
    durations: Map<Seq<char>, Double>,
    flakes: Map<Seq<char>, FlakeStats>,
    green: Set<Seq<char>>,
    lines: Map<Seq<char>, u64>,
) -> bool {
    &&& r.nodeid@ == nodeid
    &&& r.duration_seconds == (if durations.contains_key(nodeid) {
        Some(durations[nodeid])
    } else {
        None
    })
    &&& r.flakes == (if flakes.contains_key(nodeid) {
        Some(flakes[nodeid])
    } else {
        None
    })
    &&& r.passed == green.contains(nodeid)
    &&& r.source_line == (if lines.contains_key(nodeid) {
        Some((lines[nodeid] + 1) as u64)
    } else {
        None
    })
    &&& r.found == (r.duration_seconds is Some || r.flakes is Some || r.passed || r.source_line is Some
        || r.coverage is Some)
}

/// Whether the coverage in a dossier is that of a test.
pub open spec fn coverage_of(
    c: Option<Coverage>,
    index: Option<CoverageIndex>,
    nodeid: Seq<char>,
) -> bool {
    match (c, index) {
        (Some(c), Some(idx)) => {
            &&& texts(c.files@) == files_hit(idx.files.list(), nodeid)
            &&& c.files@.len() > 0
            &&& c.file_count == c.files@.len()
            &&& c.line_count == all_lines_hit(idx.files.list(), nodeid)
        },
        (None, Some(idx)) => files_hit(idx.files.list(), nodeid).len() == 0,
        (Some(_), None) => false,
        (None, None) => true,
    }
}

/// Gathers what is cached of a test. Lines are stored counted from zero, and told
/// counted from one.
pub fn gather(
    nodeid: &String,
    durations: &OrderedMap<String, Double>,
    flakes: &OrderedMap<String, FlakeStats>,
    green: &TextSet,
    lines: &OrderedMap<String, u64>,
    index: &Option<CoverageIndex>,
) -> (res: ExplainReport)
    requires
        lines@.contains_key(nodeid@) ==> lines@[nodeid@] < u64::MAX,
    ensures
        gathered(res, nodeid@, durations@, flakes@, green@, lines@),
        coverage_of(res.coverage, *index, nodeid@),
{
    let duration_seconds = match durations.get(nodeid) {
        Some(d) => Some(*d),
        None => None,
    };
    let stats = match flakes.get(nodeid) {
        Some(f) => Some(*f),
        None => None,
    };
    let passed = green.contains(nodeid);
    let source_line = match lines.get(nodeid) {
        Some(l) => Some(*l + 1),
        None => None,
    };
    let coverage = match index {
        Some(idx) => footprint(idx, nodeid.as_str()),
        None => None,
    };
    let found = duration_seconds.is_some() || stats.is_some() || passed || source_line.is_some()
        || coverage.is_some();
    ExplainReport {
        nodeid: nodeid.clone(),
        found,
        duration_seconds,
        passed,
        source_line,
        flakes: stats,
        coverage,
    }
}

/// The cached ids that hold a text.
pub open spec fn similar(
    needle: Seq<char>,
    durations: Map<Seq<char>, Double>,
    flakes: Map<Seq<char>, FlakeStats>,
) -> Set<Seq<char>> {
    Set::new(
        |id: Seq<char>|
            (durations.contains_key(id) || flakes.contains_key(id)) && contains_sub(id, needle),
    )
}

/// Whether `res` lists the first `n` of the cached ids that hold a text.
pub open spec fn suggested(res: Seq<Seq<char>>, all: Set<Seq<char>>, n: nat) -> bool {
    exists|list: Seq<Seq<char>>| #[trigger]
        crate::order::strictly_ascending(list) && list.to_set() == all && res == list.take(
            if list.len() < n {
                list.len() as int
            } else {
                n as int
            },
        )
}

/// The first `n` cached ids, in ascending order, that hold a text.
pub fn suggestions(
    needle: &str,
    n: usize,
    durations: &OrderedMap<String, Double>,
    flakes: &OrderedMap<String, FlakeStats>,
) -> (res: Vec<String>)
    ensures
        suggested(texts(res@), similar(needle@, durations@, flakes@), n as nat),
{
    let mut hits = TextSet::new();
    let ghost goal = similar(needle@, durations@, flakes@);
    let m = durations.len();
    let mut i: usize = 0;
    while i < m
        invariant
            i <= m,
            m == durations.list().len(),
            durations.listed(),
            goal == similar(needle@, durations@, flakes@),
            forall|x: Seq<char>| #[trigger] hits@.contains(x) ==> goal.contains(x),
            forall|j: int|
                0 <= j < i && contains_sub((#[trigger] durations.list()[j]).0@, needle@)
                    ==> hits@.contains(durations.list()[j].0@),
        decreases m - i,
    {
        let (id, _) = durations.at(i);
        assert(durations@.contains_key(durations.list()[i as int].0.model()));
        if contains_str(id.as_str(), needle) {
            hits.insert(id.clone());
        }
        i += 1;
    }
    let k = flakes.len();
    let mut j: usize = 0;
    while j < k
        invariant
            j <= k,
            k == flakes.list().len(),
            flakes.listed(),
            goal == similar(needle@, durations@, flakes@),
            forall|x: Seq<char>| #[trigger] hits@.contains(x) ==> goal.contains(x),
            forall|q: int|
                0 <= q < durations.list().len() && contains_sub(
                    (#[trigger] durations.list()[q]).0@,
                    needle@,
                ) ==> hits@.contains(durations.list()[q].0@),
            forall|q: int|
                0 <= q < j && contains_sub((#[trigger] flakes.list()[q]).0@, needle@)
                    ==> hits@.contains(flakes.list()[q].0@),
        decreases k - j,
    {
        let (id, _) = flakes.at(j);
        assert(flakes@.contains_key(flakes.list()[j as int].0.model()));
        if contains_str(id.as_str(), needle) {
            hits.insert(id.clone());
        }
        j += 1;
    }
    proof {
        assert forall|x: Seq<char>| goal.contains(x) implies hits@.contains(x) by {
            if durations@.contains_key(x) {
                let q = choose|q: int| #[trigger] key_at(durations.list(), q, x);
                assert(durations.list()[q].0@ == x);
            } else {
                let q = choose|q: int| #[trigger] key_at(flakes.list(), q, x);
                assert(flakes.list()[q].0@ == x);
            }
        }
        assert(hits@ =~= goal);
    }
    let mut out = hits.to_list();
    let ghost list = texts(out@);
    out.truncate(n);
    proof {
        assert(texts(out@) =~= list.take(
            if list.len() < n {
                list.len() as int
            } else {
                n as int
            },
        ));
        assert(crate::order::strictly_ascending(list));
    }
    out
}

/// How long ago something was, in words.
pub open spec fn ago_text(epoch: u64, now: u64) -> Seq<char> {
    let secs: nat = if now >= epoch {
        (now - epoch) as nat
    } else {
        0
    };
    if secs < 60 {
        "just now"@
    } else if secs < 3600 {
        decimal(secs / 60) + "m ago"@
    } else if secs < 86400 {
        decimal(secs / 3600) + "h ago"@
    } else {
        decimal(secs / 86400) + "d ago"@
    }
}

/// Says how long ago something was. What lies ahead was just now.
pub fn ago(epoch: u64, now: u64) -> (res: String)
    ensures
        res@ == ago_text(epoch, now),
{
    let secs: u64 = if now >= epoch { now - epoch } else { 0 };
    if secs < 60 {
        String::from_str("just now")
    } else if secs < 3600 {
        let mut out = dec(secs / 60);
        out.append("m ago");
        out
    } else if secs < 86400 {
        let mut out = dec(secs / 3600);
        out.append("h ago");
        out
    } else {
        let mut out = dec(secs / 86400);
        out.append("d ago");
        out
    }
}

/// How a piece of text is shown.
#[derive(Clone, Copy, Debug, PartialEq, Eq, Structural)]
pub enum Style {
    Plain,
    Dim,
    Green,
    Yellow,
    Red,
    /// As the name of an outcome is shown.
    Outcome,
}

/// A piece of a line.
pub struct Span {
    pub style: Style,
    pub text: String,
}

/// The pieces of a line, as they are shown.
pub open spec fn spans(line: Seq<Span>) -> Seq<(Style, Seq<char>)> {
    Seq::new(line.len(), |i: int| (line[i].style, line[i].text@))
}

/// Lines, as they are shown.
pub open spec fn shown(lines: Seq<Vec<Span>>) -> Seq<Seq<(Style, Seq<char>)>> {
    Seq::new(lines.len(), |i: int| spans(lines[i]@))
}

/// A line of one piece.
pub fn one(style: Style, text: String) -> (res: Vec<Span>)
    ensures
        spans(res@) == seq![(style, text@)],
{
    let mut out: Vec<Span> = Vec::new();
    out.push(Span { style, text });
    assert(spans(out@) =~= seq![(style, text@)]);
    out
}

/// A line of two pieces.
pub fn two(a: Style, first: &str, b: Style, second: String) -> (res: Vec<Span>)
    ensures
        spans(res@) == seq![(a, first@), (b, second@)],
{
    let mut out: Vec<Span> = Vec::new();
    out.push(Span { style: a, text: first.to_owned() });
    out.push(Span { style: b, text: second });
    assert(spans(out@) =~= seq![(a, first@), (b, second@)]);
    out
}

/// The line on the duration.
pub open spec fn duration_line(d: Option<Double>) -> Seq<(Style, Seq<char>)> {
    match d {
        Some(d) => seq![
            (Style::Plain, "  duration   "@ + d.fixed_text(4) + "s (last recorded)"@),
        ],
        None => seq![(Style::Plain, "  duration   "@), (Style::Dim, "no cached timing"@)],
    }
}

/// The line on the outcome.
pub open spec fn outcome_line(passed: bool) -> Seq<(Style, Seq<char>)> {
    if passed {
        seq![
            (Style::Plain, "  outcome    "@),
            (Style::Green, "passed"@),
            (Style::Plain, " last incremental run"@),
        ]
    } else {
        seq![(Style::Plain, "  outcome    "@), (Style::Dim, "no last-green record"@)]
    }
}

/// What happened to a test, in pieces.
pub open spec fn events(f: FlakeStats) -> Seq<(Style, Seq<char>)> {
    let flaked = (Style::Yellow, "flaked "@ + decimal(f.flaky as nat) + "x"@);
    let failed = (Style::Red, "failed "@ + decimal(f.failed as nat) + "x"@);
    if f.flaky > 0 && f.failed > 0 {
        seq![flaked, (Style::Plain, ", "@), failed]
    } else if f.flaky > 0 {
        seq![flaked]
    } else if f.failed > 0 {
        seq![failed]
    } else {
        seq![(Style::Plain, "no events"@)]
    }
}

/// The line on flakes and failures.
pub open spec fn flake_line(f: Option<FlakeStats>, now: u64) -> Seq<(Style, Seq<char>)> {
    match f {
        Some(f) => seq![(Style::Plain, "  flakes     "@)] + events(f) + seq![
            (Style::Plain, " (last "@ + ago_text(f.last_epoch, now) + ")"@),
        ],
        None => seq![(Style::Plain, "  flakes     "@), (Style::Dim, "no flake/fail history"@)],
    }
}

fn times(what: &str, n: u32) -> (res: String)
    ensures
        res@ == what@ + decimal(n as nat) + "x"@,
{
    let mut out = String::from_str(what);
    out.append(dec(n as u64).as_str());
    out.append("x");
    out
}

fn show_flakes(f: &Option<FlakeStats>, now: u64) -> (res: Vec<Span>)
    ensures
        spans(res@) == flake_line(*f, now),
{
    match f {
        Some(f) => {
            let mut out = one(Style::Plain, "  flakes     ".to_owned());
            if f.flaky > 0 {
                out.push(Span { style: Style::Yellow, text: times("flaked ", f.flaky) });
                if f.failed > 0 {
                    out.push(Span { style: Style::Plain, text: ", ".to_owned() });
                }
            }
            if f.failed > 0 {
                out.push(Span { style: Style::Red, text: times("failed ", f.failed) });
            } else if f.flaky == 0 {
                out.push(Span { style: Style::Plain, text: "no events".to_owned() });
            }
            let mut last = String::from_str(" (last ");
            last.append(ago(f.last_epoch, now).as_str());
            last.append(")");
            out.push(Span { style: Style::Plain, text: last });
            assert(spans(out@) =~= flake_line(Some(*f), now));
            out
        },
        None => two(
            Style::Plain,
            "  flakes     ",
            Style::Dim,
            "no flake/fail history".to_owned(),
        ),
    }
}

/// The lines on coverage.
pub open spec fn coverage_lines(c: Option<Coverage>) -> Seq<Seq<(Style, Seq<char>)>> {
    match c {
        Some(c) => seq![
            seq![
                (
                    Style::Plain,
                    "  coverage   covers "@ + decimal(c.file_count as nat) + " file(s), "@ + decimal(
                        c.line_count as nat,
                    ) + " line(s):"@,
                ),
            ],
        ] + Seq::new(
            c.files@.len(),
            |i: int| seq![(Style::Plain, "               "@ + c.files@[i]@)],
        ),
        None => seq![
            seq![
                (Style::Plain, "  coverage   "@),
                (Style::Dim, "cold — run with --cov-context=test to populate the index"@),
            ],
        ],
    }
}

fn show_coverage(c: &Option<Coverage>) -> (res: Vec<Vec<Span>>)
    ensures
        shown(res@) == coverage_lines(*c),
{
    let mut out: Vec<Vec<Span>> = Vec::new();
    match c {
        Some(c) => {
            let mut head = String::from_str("  coverage   covers ");
            head.append(dec_len(c.file_count).as_str());
            head.append(" file(s), ");
            head.append(dec_len(c.line_count).as_str());
            head.append(" line(s):");
            out.push(one(Style::Plain, head));
            let ghost goal = coverage_lines(Some(*c));
            let mut i: usize = 0;
            assert(shown(out@) =~= goal.take(1));
            while i < c.files.len()
                invariant
                    i <= c.files.len(),
                    goal == coverage_lines(Some(*c)),
                    goal.len() == c.files.len() + 1,
                    shown(out@) == goal.take(i + 1),
                decreases c.files.len() - i,
            {
                let ghost before = shown(out@);
                let mut line = String::from_str("               ");
                line.append(c.files[i].as_str());
                let line = one(Style::Plain, line);
                let ghost added = spans(line@);
                out.push(line);
                assert(shown(out@) =~= before.push(added));
                assert(goal[i + 1] == added);
                i += 1;
                assert(goal.take(i + 1) =~= before.push(added));
            }
            assert(goal.take(c.files.len() + 1) =~= goal);
        },
        None => {
            let line = two(
                Style::Plain,
                "  coverage   ",
                Style::Dim,
                "cold — run with --cov-context=test to populate the index".to_owned(),
            );
            out.push(line);
            assert(shown(out@) =~= coverage_lines(None));
        },
    }
    out
}

/// The lines on where a test is defined.
pub open spec fn source_lines(nodeid: Seq<char>, line: Option<u64>) -> Seq<
    Seq<(Style, Seq<char>)>,
> {
    match line {
        Some(l) => seq![
            seq![(Style::Dim, "  "@ + file_part(nodeid) + ":"@ + decimal(l as nat))],
        ],
        None => Seq::empty(),
    }
}

/// The dossier of a test of which something is cached.
pub open spec fn dossier(r: ExplainReport, now: u64) -> Seq<Seq<(Style, Seq<char>)>> {
    seq![seq![(Style::Plain, "test: "@ + r.nodeid@)]] + source_lines(r.nodeid@, r.source_line)
        + seq![
        seq![(Style::Plain, ""@)],
        duration_line(r.duration_seconds),
        outcome_line(r.passed),
        flake_line(r.flakes, now),
    ] + coverage_lines(r.coverage)
}

/// The dossier of a test of which something is cached, as lines to print.
pub fn render(r: &ExplainReport, now: u64) -> (res: Vec<Vec<Span>>)
    ensures
        shown(res@) == dossier(*r, now),
{
    let mut out: Vec<Vec<Span>> = Vec::new();
    let mut title = String::from_str("test: ");
    title.append(r.nodeid.as_str());
    out.push(one(Style::Plain, title));
    match r.source_line {
        Some(l) => {
            let mut at = String::from_str("  ");
            at.append(file_of(r.nodeid.as_str()).as_str());
            at.append(":");
            at.append(dec(l).as_str());
            out.push(one(Style::Dim, at));
        },
        None => {},
    }
    let ghost head = seq![seq![(Style::Plain, "test: "@ + r.nodeid@)]] + source_lines(
        r.nodeid@,
        r.source_line,
    );
    assert(shown(out@) =~= head);
    out.push(one(Style::Plain, "".to_owned()));
    match &r.duration_seconds {
        Some(d) => {
            let mut line = String::from_str("  duration   ");
            line.append(d.fixed(4).as_str());
            line.append("s (last recorded)");
            out.push(one(Style::Plain, line));
        },
        None => {
            out.push(
                two(Style::Plain, "  duration   ", Style::Dim, "no cached timing".to_owned()),
            );
        },
    }
    if r.passed {
        let mut line = two(Style::Plain, "  outcome    ", Style::Green, "passed".to_owned());
        let ghost before = spans(line@);
        line.push(Span { style: Style::Plain, text: " last incremental run".to_owned() });
        proof {
            let after = spans(line@);
            assert(after =~= before.push((Style::Plain, " last incremental run"@)));
            assert(after =~= outcome_line(true));
        }
        out.push(line);
    } else {
        out.push(
            two(Style::Plain, "  outcome    ", Style::Dim, "no last-green record".to_owned()),
        );
    }
    out.push(show_flakes(&r.flakes, now));
    let ghost middle = head + seq![
        seq![(Style::Plain, ""@)],
        duration_line(r.duration_seconds),
        outcome_line(r.passed),
        flake_line(r.flakes, now),
    ];
    assert(shown(out@) =~= middle);
    let ghost so_far = out@;
    let mut more = show_coverage(&r.coverage);
    let ghost rest = more@;
    out.append(&mut more);
    assert(out@ == so_far + rest);
    assert(shown(so_far + rest) =~= shown(so_far) + shown(rest));
    out
}

/// What is said where nothing is cached of a test.
pub open spec fn not_found(nodeid: Seq<char>, hints: Seq<Seq<char>>) -> Seq<
    Seq<(Style, Seq<char>)>,
> {
    let first = seq![
        seq![
            (Style::Outcome, "FAILED"@),
            (Style::Plain, " explain: no cached data for "@ + nodeid),
        ],
    ];
    if hints.len() == 0 {
        first
    } else {
        first.push(seq![(Style::Plain, "  did you mean:"@)]) + Seq::new(
            hints.len(),
            |i: int| seq![(Style::Plain, "    "@ + hints[i])],
        )
    }
}

/// Says that nothing is cached of a test, with ids that may have been meant.
pub fn render_not_found(nodeid: &str, hints: &[String]) -> (res: Vec<Vec<Span>>)
    ensures
        shown(res@) == not_found(nodeid@, texts(hints@)),
{
    let mut out: Vec<Vec<Span>> = Vec::new();
    let mut tail = String::from_str(" explain: no cached data for ");
    tail.append(nodeid);
    out.push(two(Style::Outcome, "FAILED", Style::Plain, tail));
    let ghost goal = not_found(nodeid@, texts(hints@));
    if hints.len() == 0 {
        assert(shown(out@) =~= goal);
        return out;
    }
    out.push(one(Style::Plain, "  did you mean:".to_owned()));
    assert(shown(out@) =~= goal.take(2));
    let mut i: usize = 0;
    while i < hints.len()
        invariant
            i <= hints.len(),
            hints.len() > 0,
            goal == not_found(nodeid@, texts(hints@)),
            goal.len() == hints.len() + 2,
            shown(out@) == goal.take(i + 2),
        decreases hints.len() - i,
    {
        let ghost before = shown(out@);
        let mut line = String::from_str("    ");
        line.append(hints[i].as_str());
        let line = one(Style::Plain, line);
        let ghost added = spans(line@);
        out.push(line);
        assert(shown(out@) =~= before.push(added));
        assert(goal[i + 2] == added);
        i += 1;
        assert(goal.take(i + 2) =~= before.push(added));
    }
    assert(goal.take(hints.len() + 2) =~= goal);
    out
}

/// With what code to exit. For tools an unknown test is no error.
pub fn exit_code(found: bool, json: bool) -> (res: i32)
    ensures
        res == explain_exit(found, json),
{
    if json || found {
        0
    } else {
        1
    }
}

/// With what code an explanation ends.
pub open spec fn explain_exit(found: bool, json: bool) -> int {
    if json || found {
        0
    } else {
        1
    }
}

/// Only an explanation for people that has nothing to tell ends with a failure.
pub proof fn theorem_nothing_to_tell_is_a_failure(found: bool, json: bool)
    ensures
        explain_exit(true, json) == 0,
        explain_exit(found, true) == 0,
        explain_exit(false, false) == 1,
{
}

/// What is told of a test is what is cached of it, and a line is counted from one; a test is
/// found where anything is.
pub proof fn theorem_what_is_cached_is_told(
    r: ExplainReport,
    id: Seq<char>,
    durations: Map<Seq<char>, Double>,
    flakes: Map<Seq<char>, FlakeStats>,
    green: Set<Seq<char>>,
    lines: Map<Seq<char>, u64>,
)
    requires
        gathered(r, id, durations, flakes, green, lines),
        lines.contains_key(id) ==> lines[id] < u64::MAX,
    ensures
        r.duration_seconds is Some <==> durations.contains_key(id),
        r.duration_seconds matches Some(d) ==> d == durations[id],
        r.flakes is Some <==> flakes.contains_key(id),
        r.flakes matches Some(f) ==> f == flakes[id],
        r.passed <==> green.contains(id),
        r.source_line is Some <==> lines.contains_key(id),
        r.source_line matches Some(l) ==> l == lines[id] + 1,
        !r.found <==> !durations.contains_key(id) && !flakes.contains_key(id) && !green.contains(id)
            && !lines.contains_key(id) && r.coverage is None,
{
}

/// How long ago something was: in whole minutes from one minute on, in whole hours from one
/// hour on, and in whole days from one day on. What is yet to come was just now.
pub proof fn theorem_how_long_ago(epoch: u64, now: u64, n: nat)
    ensures
        now < epoch + 60 ==> ago_text(epoch, now) == "just now"@,
        1 <= n < 60 && epoch + 60 * n <= now < epoch + 60 * (n + 1) ==> ago_text(epoch, now)
            == decimal(n) + "m ago"@,
        1 <= n < 24 && epoch + 3600 * n <= now < epoch + 3600 * (n + 1) ==> ago_text(epoch, now)
            == decimal(n) + "h ago"@,
        1 <= n && epoch + 86400 * n <= now < epoch + 86400 * (n + 1) ==> ago_text(epoch, now)
            == decimal(n) + "d ago"@,
{
}

/// Tests that hold what was asked for are suggested, in ascending order and as many as fit;
/// where not all of that many are, those are all there are.
pub proof fn theorem_suggestions(res: Seq<Seq<char>>, all: Set<Seq<char>>, n: nat, id: Seq<char>)
    requires
        suggested(res, all, n),
    ensures
        res.len() <= n,
        res.contains(id) ==> all.contains(id),
        res.len() < n && all.contains(id) ==> res.contains(id),
        crate::order::strictly_ascending(res),
{
    let list = choose|list: Seq<Seq<char>>| #[trigger]
        crate::order::strictly_ascending(list) && list.to_set() == all && res == list.take(
            if list.len() < n {
                list.len() as int
            } else {
                n as int
            },
        );
    if res.contains(id) {
        let k = choose|k: int| 0 <= k < res.len() && res[k] == id;
        assert(list[k] == id);
        assert(list.to_set().contains(id));
    }
    if res.len() < n && all.contains(id) {
        assert(res =~= list);
        assert(list.to_set().contains(id));
    }
    assert forall|i: int, j: int| 0 <= i < j < res.len() implies crate::order::text_lt(
        #[trigger] res[i],
        #[trigger] res[j],
    ) by {
        assert(res[i] == list[i] && res[j] == list[j]);
    }
}

/// A suggestion holds what was asked for and is cached with a duration or with a history.
pub proof fn theorem_what_is_suggested(
    needle: Seq<char>,
    durations: Map<Seq<char>, Double>,
    flakes: Map<Seq<char>, FlakeStats>,
    before: Seq<char>,
    after: Seq<char>,
)
    ensures
        similar(needle, durations, flakes).contains(before + needle + after) <==> durations.contains_key(
            before + needle + after,
        ) || flakes.contains_key(before + needle + after),
        !contains_sub(before, needle) ==> !similar(needle, durations, flakes).contains(before),
{
    let id = before + needle + after;
    let n = before.len() as int;
    assert(id.subrange(n, n + needle.len()) =~= needle);
    assert(crate::text::occurs_at(id, needle, n));
}

/// A history is told by how often a test flaked and how often it failed, each where it did.
pub proof fn theorem_what_a_history_tells(f: FlakeStats)
    ensures
        f.flaky > 0 ==> events(f)[0] == (
            Style::Yellow,
            "flaked "@ + decimal(f.flaky as nat) + "x"@,
        ),
        f.failed > 0 ==> events(f).last() == (
            Style::Red,
            "failed "@ + decimal(f.failed as nat) + "x"@,
        ),
        f.flaky == 0 && f.failed == 0 ==> events(f) == seq![(Style::Plain, "no events"@)],
        events(f).len() == (if f.flaky > 0 && f.failed > 0 {
            3int
        } else {
            1
        }),
{
}

/// An explanation begins with the test and, where its line is known, with its place; what is
/// known of it follows in one order, and the files that it covers come last.
pub proof fn theorem_order_of_an_explanation(r: ExplainReport, now: u64, i: int)
    ensures
        ({
            let lines = dossier(r, now);
            let at = if r.source_line is Some {
                2int
            } else {
                1
            };
            &&& lines[0] == seq![(Style::Plain, "test: "@ + r.nodeid@)]
            &&& r.source_line matches Some(l) ==> lines[1] == seq![
                (Style::Dim, "  "@ + file_part(r.nodeid@) + ":"@ + decimal(l as nat)),
            ]
            &&& lines[at + 1] == duration_line(r.duration_seconds)
            &&& lines[at + 2] == outcome_line(r.passed)
            &&& lines[at + 3] == flake_line(r.flakes, now)
            &&& r.coverage is None ==> lines.len() == at + 5
            &&& r.coverage matches Some(c) ==> lines.len() == at + 5 + c.files@.len()
            &&& r.coverage matches Some(c) ==> (0 <= i < c.files@.len() ==> lines[at + 5 + i]
                == seq![(Style::Plain, "               "@ + c.files@[i]@)])
        }),
{
}

/// A line counts for a test where it lists the test, and a file where one of its lines does.
pub proof fn theorem_lines_that_a_test_hit(
    lines: Seq<(u32, Vec<String>)>,
    line: (u32, Vec<String>),
    files: Seq<(String, CoverageFile)>,
    file: (String, CoverageFile),
    id: Seq<char>,
)
    ensures
        lines_hit(lines.push(line), id) == lines_hit(lines, id) + (if texts(line.1@).contains(id) {
            1int
        } else {
            0
        }),
        lines_hit(Seq::<(u32, Vec<String>)>::empty(), id) == 0,
        all_lines_hit(files.push(file), id) == all_lines_hit(files, id) + lines_hit(
            file.1.lines.list(),
            id,
        ),
        lines_hit(file.1.lines.list(), id) > 0 ==> files_hit(files.push(file), id) == files_hit(
            files,
            id,
        ).push(file.0@),
        lines_hit(file.1.lines.list(), id) == 0 ==> files_hit(files.push(file), id) == files_hit(
            files,
            id,
        ),
{
    assert(lines.push(line).drop_last() =~= lines);
    assert(files.push(file).drop_last() =~= files);
}

/// Coverage is told where the index lists the test, with as many files as list it.
pub proof fn theorem_coverage_that_is_told(
    c: Option<Coverage>,
    index: CoverageIndex,
    id: Seq<char>,
)
    requires
        coverage_of(c, Some(index), id),
    ensures
        c is Some <==> files_hit(index.files.list(), id).len() > 0,
        c matches Some(c) ==> c.file_count == files_hit(index.files.list(), id).len() && c.line_count
            == all_lines_hit(index.files.list(), id) && texts(c.files@) == files_hit(
            index.files.list(),
            id,
        ),
{
    if let Some(c) = c {
        assert(texts(c.files@).len() == c.files@.len());
    }
}

/// Where nothing is known of a test, others are named where there are any, each on a line of
/// its own.
pub proof fn theorem_others_are_named(id: Seq<char>, hints: Seq<Seq<char>>, i: int)
    ensures
        not_found(id, hints)[0] == seq![
            (Style::Outcome, "FAILED"@),
            (Style::Plain, " explain: no cached data for "@ + id),
        ],
        hints.len() == 0 ==> not_found(id, hints).len() == 1,
        hints.len() > 0 ==> not_found(id, hints).len() == 2 + hints.len(),
        0 <= i < hints.len() ==> not_found(id, hints)[2 + i] == seq![
            (Style::Plain, "    "@ + hints[i]),
        ],
{
}

} // verus!
