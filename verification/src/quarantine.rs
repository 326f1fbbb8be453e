//! Tests whose failures do not count.

use crate::patterns::{backslashed, escape, regex_set_search, search_any};
use crate::text::{
    join, joined, lines, lines_of, split_char, split_on, starts, starts_with, texts, trim, trimmed,
};
use vstd::prelude::*;

verus! {

broadcast use {crate::text::lemma_texts_push, crate::text::lemma_texts_add};

/// Whether a line of a list of tests names any: it is not empty and no comment.
pub open spec fn names_tests(line: Seq<char>) -> bool {
    line.len() > 0 && !starts(line, "#"@)
}

/// Texts with a backslash before every character that has a meaning of its own in a
/// regular expression.
pub open spec fn all_backslashed(v: Seq<Seq<char>>) -> Seq<Seq<char>> {
    Seq::new(v.len(), |i: int| backslashed(v[i]))
}

/// The regular expression of a pattern in which a star stands for anything.
pub open spec fn pattern_of(line: Seq<char>) -> Seq<char> {
    "^"@ + joined(all_backslashed(split_on(line, '*')), ".*"@) + "$"@
}

/// The regular expressions of the lines of a list of tests.
pub open spec fn patterns_in(lines: Seq<Seq<char>>) -> Seq<Seq<char>>
    decreases lines.len(),
{
    if lines.len() == 0 {
        Seq::empty()
    } else {
        let before = patterns_in(lines.drop_last());
        let line = trimmed(lines.last());
        if names_tests(line) {
            before.push(pattern_of(line))
        } else {
            before
        }
    }
}

/// Makes the regular expression of a pattern in which a star stands for anything.
pub fn glob_pattern(line: &str) -> (res: String)
    ensures
        res@ == pattern_of(line@),
{
    let parts = split_char(line, '*');
    let mut escaped: Vec<String> = Vec::new();
    let mut i: usize = 0;
    while i < parts.len()
        invariant
            i <= parts.len(),
            escaped.len() == i,
            forall|j: int| 0 <= j < i ==> (#[trigger] escaped@[j])@ == backslashed(parts@[j]@),
        decreases parts.len() - i,
    {
        escaped.push(escape(parts[i].as_str()));
        i += 1;
    }
    assert(texts(escaped@) =~= all_backslashed(split_on(line@, '*')));
    let mut out = String::from_str("^");
    out.append(join(escaped.as_slice(), ".*").as_str());
    out.append("$");
    out
}

/// Reads the patterns in a list of tests: one to a line, but for comments and empty
/// lines.
pub fn quarantine_patterns(text: &str) -> (res: Vec<String>)
    ensures
        texts(res@) == patterns_in(lines_of(text@)),
{
    let ls = lines(text);
    let ghost all = lines_of(text@);
    let mut out: Vec<String> = Vec::new();
    let mut i: usize = 0;
    assert(texts(ls@).len() == ls@.len());
    assert(texts(out@) =~= patterns_in(all.take(0)));
    while i < ls.len()
        invariant
            i <= ls.len(),
            all == texts(ls@),
            texts(out@) == patterns_in(all.take(i as int)),
        decreases ls.len() - i,
    {
        proof {
            assert(all.take(i + 1).drop_last() =~= all.take(i as int));
            assert(all.take(i + 1).last() == ls@[i as int]@);
        }
        let line = trim(ls[i].as_str());
        if !line.as_str().is_empty() && !starts_with(line.as_str(), "#") {
            out.push(glob_pattern(line.as_str()));
        }
        i += 1;
    }
    assert(all.take(ls.len() as int) =~= all);
    out
}

/// What is said of a list of tests without patterns.
pub open spec fn no_patterns_text(path: Seq<char>) -> Seq<char> {
    "rstest: --quarantine: "@ + path + " lists no patterns"@
}

/// Says that a list of tests has no patterns.
pub fn no_patterns(path: &str) -> (res: String)
    ensures
        res@ == no_patterns_text(path@),
{
    let mut out = String::from_str("rstest: --quarantine: ");
    out.append(path);
    out.append(" lists no patterns");
    out
}

/// The failed tests that match, by what a search for the patterns gives for each.
pub open spec fn matching(ids: Seq<Seq<char>>, found: Seq<bool>) -> Seq<Seq<char>>
    decreases ids.len(),
{
    if ids.len() == 0 {
        Seq::empty()
    } else {
        let before = matching(ids.drop_last(), found.drop_last());
        if found.last() {
            before.push(ids.last())
        } else {
            before
        }
    }
}

/// Picks the failed tests that match, by what a search gave for each.
pub fn pick_matching(ids: &[String], found: &[bool]) -> (res: Vec<String>)
    requires
        ids@.len() == found@.len(),
    ensures
        texts(res@) == matching(texts(ids@), found@),
{
    let ghost all = texts(ids@);
    let mut out: Vec<String> = Vec::new();
    let mut i: usize = 0;
    assert(texts(out@) =~= matching(all.take(0), found@.take(0)));
    while i < ids.len()
        invariant
            i <= ids.len(),
            ids@.len() == found@.len(),
            all == texts(ids@),
            texts(out@) == matching(all.take(i as int), found@.take(i as int)),
        decreases ids.len() - i,
    {
        proof {
            assert(all.take(i + 1).drop_last() =~= all.take(i as int));
            assert(all.take(i + 1).last() == ids@[i as int]@);
            assert(found@.take(i + 1).drop_last() =~= found@.take(i as int));
            assert(found@.take(i + 1).last() == found@[i as int]);
        }
        if found[i] {
            out.push(ids[i].clone());
        }
        i += 1;
    }
    assert(all.take(ids.len() as int) =~= all);
    assert(found@.take(ids.len() as int) =~= found@);
    out
}

/// Whether some patterns can be searched for.
pub open spec fn searchable(patterns: Seq<Seq<char>>) -> bool {
    regex_set_search(patterns, ""@) is Some
}

/// Which of some tests a search for patterns finds.
pub open spec fn hits(patterns: Seq<Seq<char>>, ids: Seq<Seq<char>>) -> Seq<bool> {
    Seq::new(ids.len(), |i: int| regex_set_search(patterns, ids[i]) == Some(true))
}

/// Picks the failed tests whose failures do not count. Nothing comes back where one
/// of the patterns is no regular expression.
pub fn quarantined(patterns: &[String], failed: &[String]) -> (res: Option<Vec<String>>)
    ensures
        match res {
            Some(v) => searchable(texts(patterns@)) && texts(v@) == matching(
                texts(failed@),
                hits(texts(patterns@), texts(failed@)),
            ),
            None => !searchable(texts(patterns@)),
        },
{
    let ghost all = texts(failed@);
    if search_any(patterns, "").is_none() {
        return None;
    }
    let mut found: Vec<bool> = Vec::new();
    let mut i: usize = 0;
    while i < failed.len()
        invariant
            i <= failed.len(),
            all == texts(failed@),
            found.len() == i,
            forall|j: int|
                0 <= j < i ==> (regex_set_search(texts(patterns@), #[trigger] all[j]) == Some(true))
                    == found@[j],
        decreases failed.len() - i,
    {
        assert(all[i as int] == failed@[i as int]@);
        found.push(matches!(search_any(patterns, failed[i].as_str()), Some(true)));
        i += 1;
    }
    assert(found@ =~= hits(texts(patterns@), all));
    Some(pick_matching(failed, found.as_slice()))
}

/// The code to exit with once the failures that do not count are taken out: success
/// where nothing else failed. Codes that mean more than failed tests are kept.
pub fn status_after(demoted: usize, exitstatus: i32, all_passed: bool) -> (res: i32)
    ensures
        res == quarantined_exit(demoted, exitstatus, all_passed),
{
    if demoted > 0 && exitstatus == 1 && all_passed {
        0
    } else {
        exitstatus
    }
}

/// A failure stops counting exactly where the search found the test.
pub proof fn theorem_only_matching_stop_counting(ids: Seq<Seq<char>>, found: Seq<bool>, id: Seq<char>)
    requires
        ids.len() == found.len(),
    ensures
        matching(ids, found).contains(id) <==> exists|i: int|
            0 <= i < ids.len() && found[i] && #[trigger] ids[i] == id,
    decreases ids.len(),
{
    let all = matching(ids, found);
    if ids.len() > 0 {
        let n = ids.len() - 1;
        let before = matching(ids.drop_last(), found.drop_last());
        theorem_only_matching_stop_counting(ids.drop_last(), found.drop_last(), id);
        if all.contains(id) {
            let k = choose|k: int| 0 <= k < all.len() && all[k] == id;
            if k < before.len() {
                assert(before[k] == id);
                let i = choose|i: int|
                    0 <= i < ids.drop_last().len() && found.drop_last()[i]
                        && #[trigger] ids.drop_last()[i] == id;
                assert(found[i] && ids[i] == id);
            } else {
                assert(found[n] && ids[n] == id);
            }
        }
        if exists|i: int| 0 <= i < ids.len() && found[i] && #[trigger] ids[i] == id {
            let i = choose|i: int| 0 <= i < ids.len() && found[i] && #[trigger] ids[i] == id;
            if i < n {
                assert(found.drop_last()[i] && ids.drop_last()[i] == id);
                let k = choose|k: int| 0 <= k < before.len() && before[k] == id;
                assert(all[k] == id);
            } else {
                assert(all[before.len() as int] == id);
            }
        }
    }
}

/// With what code a run ends after tests stopped counting.
pub open spec fn quarantined_exit(demoted: usize, exitstatus: i32, all_passed: bool) -> int {
    if demoted > 0 && exitstatus == 1 && all_passed {
        0
    } else {
        exitstatus as int
    }
}

/// A run that failed for its tests succeeds where tests stopped counting and all others
/// passed; any other run ends as it did.
pub proof fn theorem_runs_that_succeed_after_all(demoted: usize, status: i32, all_passed: bool)
    ensures
        quarantined_exit(0, status, all_passed) == status,
        !all_passed ==> quarantined_exit(demoted, status, all_passed) == status,
        status != 1 ==> quarantined_exit(demoted, status, all_passed) == status,
        demoted >= 1 && all_passed ==> quarantined_exit(demoted, 1, all_passed) == 0,
{
}

/// Empty lines and comments name no tests; every other line does, without the white space
/// around it.
pub proof fn theorem_lines_that_name_tests(lines: Seq<Seq<char>>, line: Seq<char>)
    ensures
        trimmed(line).len() == 0 ==> patterns_in(lines.push(line)) == patterns_in(lines),
        trimmed(line).len() > 0 && trimmed(line)[0] == '#' ==> patterns_in(lines.push(line))
            == patterns_in(lines),
        trimmed(line).len() > 0 && trimmed(line)[0] != '#' ==> patterns_in(lines.push(line))
            == patterns_in(lines).push(pattern_of(trimmed(line))),
        patterns_in(Seq::<Seq<char>>::empty()).len() == 0,
{
    reveal_strlit("#");
    assert(lines.push(line).drop_last() =~= lines);
    let t = trimmed(line);
    if t.len() > 0 {
        if t[0] == '#' {
            assert(t.subrange(0, 1) =~= "#"@);
        } else if starts(t, "#"@) {
            assert(t.subrange(0, 1)[0] == t[0]);
        }
    }
}

/// A pattern is for the whole name: what stands in a line stands for itself, and a star for
/// anything.
pub proof fn theorem_stars_stand_for_anything(a: Seq<char>, b: Seq<char>)
    requires
        !a.contains('*'),
        !b.contains('*'),
    ensures
        pattern_of(a) == "^"@ + backslashed(a) + "$"@,
        pattern_of(a + seq!['*'] + b) == "^"@ + backslashed(a) + ".*"@ + backslashed(b) + "$"@,
{
    crate::text::lemma_split_two(a, '*', b);
    crate::text::lemma_pos(a, '*');
    crate::text::lemma_pos(b, '*');
    assert(split_on(a, '*') =~= seq![a]);
    let one = all_backslashed(seq![a]);
    assert(one =~= seq![backslashed(a)]);
    let two = all_backslashed(split_on(a + seq!['*'] + b, '*'));
    assert(split_on(b, '*') =~= seq![b]);
    crate::text::lemma_split_at_first(a, '*', b);
    assert(two =~= seq![backslashed(a), backslashed(b)]);
    assert(two.drop_last() =~= seq![backslashed(a)]);
    reveal_with_fuel(joined, 2);
    assert(joined(two, ".*"@) == backslashed(a) + ".*"@ + backslashed(b));
    assert("^"@ + (backslashed(a) + ".*"@ + backslashed(b)) + "$"@ =~= "^"@ + backslashed(a)
        + ".*"@ + backslashed(b) + "$"@);
}

/// A failed test stops counting just where the patterns match its id.
pub proof fn theorem_tests_that_stop_counting(
    patterns: Seq<Seq<char>>,
    failed: Seq<Seq<char>>,
    id: Seq<char>,
)
    ensures
        matching(failed, hits(patterns, failed)).contains(id) <==> failed.contains(id)
            && regex_set_search(patterns, id) == Some(true),
        searchable(patterns) <==> regex_set_search(patterns, ""@) is Some,
    decreases failed.len(),
{
    let found = hits(patterns, failed);
    if failed.len() > 0 {
        let init = failed.drop_last();
        assert(found.drop_last() =~= hits(patterns, init));
        theorem_tests_that_stop_counting(patterns, init, id);
        let before = matching(init, hits(patterns, init));
        let all = matching(failed, found);
        if before.contains(id) {
            let k = choose|k: int| 0 <= k < before.len() && before[k] == id;
            assert(all[k] == id);
        }
        if all.contains(id) && !before.contains(id) {
            let k = choose|k: int| 0 <= k < all.len() && all[k] == id;
            if k < before.len() {
                assert(before[k] == id);
            }
        }
        if found.last() {
            assert(all[all.len() - 1] == failed.last());
        }
        if failed.contains(id) && !init.contains(id) {
            let k = choose|k: int| 0 <= k < failed.len() && failed[k] == id;
            if k < init.len() {
                assert(init[k] == id);
            }
        }
        if init.contains(id) {
            let k = choose|k: int| 0 <= k < init.len() && init[k] == id;
            assert(failed[k] == id);
        }
        assert(failed[failed.len() - 1] == failed.last());
    }
}

} // verus!
