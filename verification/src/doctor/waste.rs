//! Slow tests that could be deleted together without a line losing coverage.

use crate::coverage_skip::{CoverageFile, CoverageIndex};
use crate::double::Double;
use crate::nodeids::{file_of, file_part};
use crate::ordered_map::{OrderedMap, TextSet};
use crate::order::text_lt;
use crate::rank::{positions, rank, ranked, Down};
use crate::text::{contains_text, str_eq, texts};
use vstd::prelude::*;

verus! {

broadcast use crate::text::lemma_texts_push;

/// For each of some lines, the tests that executed it.
pub open spec fn rows_of(lines: Seq<(u32, Vec<String>)>) -> Seq<Seq<Seq<char>>> {
    Seq::new(lines.len(), |i: int| texts(lines[i].1@))
}

/// For each line of some files, without those in `skip`, the tests that executed
/// it.
pub open spec fn rows_in(
    files: Seq<(String, CoverageFile)>,
    skip: Set<Seq<char>>,
) -> Seq<Seq<Seq<char>>>
    decreases files.len(),
{
    if files.len() == 0 {
        Seq::empty()
    } else {
        let before = rows_in(files.drop_last(), skip);
        if skip.contains(files.last().0@) {
            before
        } else {
            before + rows_of(files.last().1.lines.list())
        }
    }
}

/// Whether some row lists a test.
pub open spec fn listed_in(rows: Seq<Seq<Seq<char>>>, id: Seq<char>) -> bool {
    exists|i: int| 0 <= i < rows.len() && (#[trigger] rows[i]).contains(id)
}

/// The files that tests are in.
pub open spec fn homes(rows: Seq<Seq<Seq<char>>>) -> Set<Seq<char>> {
    Set::new(|f: Seq<char>| exists|id: Seq<char>| #[trigger] listed_in(rows, id) && file_part(id) == f)
}

/// For each line of the product's code, the tests that executed it. A file that
/// some test is in is not the product's.
pub open spec fn product_rows(index: CoverageIndex) -> Seq<Seq<Seq<char>>> {
    let files = index.files.list();
    rows_in(files, homes(rows_in(files, Set::empty())))
}

/// How often a row lists a test.
pub open spec fn count_in(row: Seq<Seq<char>>, id: Seq<char>) -> nat
    decreases row.len(),
{
    if row.len() == 0 {
        0
    } else {
        count_in(row.drop_last(), id) + (if row.last() == id {
            1nat
        } else {
            0nat
        })
    }
}

/// How many lines list a test.
pub open spec fn covered_lines(rows: Seq<Seq<Seq<char>>>, id: Seq<char>) -> nat
    decreases rows.len(),
{
    if rows.len() == 0 {
        0
    } else {
        covered_lines(rows.drop_last(), id) + count_in(rows.last(), id)
    }
}

/// Whether a test is the only one on some line.
pub open spec fn alone(rows: Seq<Seq<Seq<char>>>, id: Seq<char>) -> bool {
    exists|i: int| 0 <= i < rows.len() && #[trigger] rows[i] == seq![id]
}

/// Whether a test may be waste: it executed some line, none of them alone, and it
/// is slow.
pub open spec fn candidate(
    rows: Seq<Seq<Seq<char>>>,
    durations: Map<Seq<char>, Double>,
    min: Double,
    id: Seq<char>,
) -> bool {
    &&& listed_in(rows, id)
    &&& !alone(rows, id)
    &&& durations.contains_key(id)
    &&& durations[id].at_least(min)
}

/// Whether one candidate is tried before another: it is slower, or as slow with a
/// smaller id.
pub open spec fn tried_first(
    durations: Map<Seq<char>, Double>,
    a: Seq<char>,
    b: Seq<char>,
) -> bool {
    durations[a].place() > durations[b].place() || (durations[a].place() == durations[b].place()
        && text_lt(a, b))
}

/// Whether `c` lists all candidates in the order in which they are tried.
pub open spec fn candidates_listed(
    c: Seq<Seq<char>>,
    rows: Seq<Seq<Seq<char>>>,
    durations: Map<Seq<char>, Double>,
    min: Double,
) -> bool {
    &&& forall|id: Seq<char>| #[trigger] c.contains(id) == candidate(rows, durations, min, id)
    &&& forall|i: int, j: int|
        0 <= i < j < c.len() ==> tried_first(durations, #[trigger] c[i], #[trigger] c[j])
}

/// How many entries of a row are left without the removed tests.
pub open spec fn live(row: Seq<Seq<char>>, removed: Seq<Seq<char>>) -> nat
    decreases row.len(),
{
    if row.len() == 0 {
        0
    } else {
        live(row.drop_last(), removed) + (if removed.contains(row.last()) {
            0nat
        } else {
            1nat
        })
    }
}

/// Whether a test can be removed too: on each of its lines at least one other
/// entry is left.
pub open spec fn removable(
    rows: Seq<Seq<Seq<char>>>,
    removed: Seq<Seq<char>>,
    id: Seq<char>,
) -> bool {
    forall|i: int|
        0 <= i < rows.len() && (#[trigger] rows[i]).contains(id) ==> live(rows[i], removed) >= 2
}

/// The tests that are removed when the candidates are tried in order.
pub open spec fn removed_of(rows: Seq<Seq<Seq<char>>>, c: Seq<Seq<char>>) -> Seq<Seq<char>>
    decreases c.len(),
{
    if c.len() == 0 {
        Seq::empty()
    } else {
        let before = removed_of(rows, c.drop_last());
        if removable(rows, before, c.last()) {
            before.push(c.last())
        } else {
            before
        }
    }
}

/// The tests that stay and share a line with `id`.
pub open spec fn partners(
    rows: Seq<Seq<Seq<char>>>,
    removed: Seq<Seq<char>>,
    id: Seq<char>,
) -> Set<Seq<char>> {
    Set::new(
        |o: Seq<char>|
            !removed.contains(o) && exists|i: int|
                0 <= i < rows.len() && (#[trigger] rows[i]).len() >= 2 && rows[i].contains(id)
                    && rows[i].contains(o),
    )
}

proof fn lemma_live_less(row: Seq<Seq<char>>, removed: Seq<Seq<char>>, id: Seq<char>)
    ensures
        live(row, removed.push(id)) <= live(row, removed),
        !row.contains(id) ==> live(row, removed.push(id)) == live(row, removed),
    decreases row.len(),
{
    if row.len() > 0 {
        lemma_live_less(row.drop_last(), removed, id);
        let x = row.last();
        assert(row[row.len() - 1] == x);
        let more = removed.push(id);
        if removed.contains(x) {
            let k = choose|k: int| 0 <= k < removed.len() && removed[k] == x;
            assert(more[k] == x);
        }
        if more.contains(x) && !removed.contains(x) {
            let k = choose|k: int| 0 <= k < more.len() && more[k] == x;
            if k < removed.len() {
                assert(removed[k] == x);
            }
            assert(x == id);
        }
        if row.drop_last().contains(id) {
            let k = choose|k: int| 0 <= k < row.drop_last().len() && row.drop_last()[k] == id;
            assert(row[k] == id);
        }
    }
}

proof fn lemma_live_one(row: Seq<Seq<char>>, removed: Seq<Seq<char>>, id: Seq<char>)
    requires
        row.no_duplicates(),
    ensures
        live(row, removed.push(id)) + 1 >= live(row, removed),
    decreases row.len(),
{
    if row.len() > 0 {
        let before = row.drop_last();
        let x = row.last();
        lemma_live_one(before, removed, id);
        lemma_live_less(before, removed, id);
        let more = removed.push(id);
        if removed.contains(x) {
            let k = choose|k: int| 0 <= k < removed.len() && removed[k] == x;
            assert(more[k] == x);
        }
        if more.contains(x) && !removed.contains(x) {
            let k = choose|k: int| 0 <= k < more.len() && more[k] == x;
            if k < removed.len() {
                assert(removed[k] == x);
            }
            assert(x == id);
            if before.contains(id) {
                let j = choose|j: int| 0 <= j < before.len() && before[j] == id;
                assert(row[j] == row[row.len() - 1]);
            }
        }
    }
}

proof fn lemma_live_full(row: Seq<Seq<char>>)
    ensures
        live(row, Seq::empty()) == row.len(),
    decreases row.len(),
{
    if row.len() > 0 {
        lemma_live_full(row.drop_last());
    }
}

/// A row with something left in it lists a test that stays.
proof fn lemma_live_means_kept(row: Seq<Seq<char>>, removed: Seq<Seq<char>>)
    requires
        live(row, removed) >= 1,
    ensures
        exists|id: Seq<char>| #[trigger] row.contains(id) && !removed.contains(id),
    decreases row.len(),
{
    if removed.contains(row.last()) {
        lemma_live_means_kept(row.drop_last(), removed);
        let id = choose|id: Seq<char>| #[trigger]
            row.drop_last().contains(id) && !removed.contains(id);
        let k = choose|k: int| 0 <= k < row.drop_last().len() && row.drop_last()[k] == id;
        assert(row[k] == id);
        assert(row.contains(id));
    } else {
        assert(row[row.len() - 1] == row.last());
        assert(row.contains(row.last()));
    }
}

/// Deleting all removed tests together leaves every executed line executed by a
/// test that stays, where no line lists a test twice.
pub proof fn theorem_every_line_stays_covered(
    rows: Seq<Seq<Seq<char>>>,
    c: Seq<Seq<char>>,
    i: int,
)
    requires
        0 <= i < rows.len(),
        rows[i].len() > 0,
        rows[i].no_duplicates(),
    ensures
        exists|id: Seq<char>| #[trigger] rows[i].contains(id) && !removed_of(rows, c).contains(id),
{
    lemma_row_stays_live(rows, c, i);
    lemma_live_means_kept(rows[i], removed_of(rows, c));
}

proof fn lemma_row_stays_live(rows: Seq<Seq<Seq<char>>>, c: Seq<Seq<char>>, i: int)
    requires
        0 <= i < rows.len(),
        rows[i].len() > 0,
        rows[i].no_duplicates(),
    ensures
        live(rows[i], removed_of(rows, c)) >= 1,
    decreases c.len(),
{
    if c.len() == 0 {
        lemma_live_full(rows[i]);
    } else {
        let before = removed_of(rows, c.drop_last());
        lemma_row_stays_live(rows, c.drop_last(), i);
        lemma_live_less(rows[i], before, c.last());
        lemma_live_one(rows[i], before, c.last());
    }
}

/// No candidate that stays could be removed as well.
pub proof fn theorem_nothing_more_can_go(
    rows: Seq<Seq<Seq<char>>>,
    c: Seq<Seq<char>>,
    id: Seq<char>,
)
    requires
        c.contains(id),
        !removed_of(rows, c).contains(id),
    ensures
        !removable(rows, removed_of(rows, c), id),
    decreases c.len(),
{
    let before = removed_of(rows, c.drop_last());
    let last = c.last();
    let now = removed_of(rows, c);
    if last == id {
        if removable(rows, before, last) {
            assert(now[now.len() - 1] == id);
        }
    } else {
        let k = choose|k: int| 0 <= k < c.len() && c[k] == id;
        assert(c.drop_last()[k] == id);
        if before.contains(id) {
            let j = choose|j: int| 0 <= j < before.len() && before[j] == id;
            assert(now[j] == id);
        }
        theorem_nothing_more_can_go(rows, c.drop_last(), id);
        if removable(rows, before, last) {
            let i = choose|i: int|
                0 <= i < rows.len() && (#[trigger] rows[i]).contains(id) && live(rows[i], before) < 2;
            lemma_live_less(rows[i], before, last);
        }
    }
}

/// A slow test that adds no coverage.
pub struct WasteTest {
    pub nodeid: String,
    pub duration: Double,
    /// Lines of the product that it executed.
    pub covered_lines: u64,
    /// Tests that stay and executed some of them.
    pub also_covered_by: u64,
}

/// The tests that can be deleted together.
pub struct Waste {
    /// All of them, in the order in which they were removed, and how long each
    /// took.
    pub removed: Vec<(String, Double)>,
    /// What is told of the first of them.
    pub tests: Vec<WasteTest>,
}

/// Of how many removed tests details are told.
pub const SHOWN: usize = 20;

/// Whether a detail says of a test what is the case.
pub open spec fn told(
    t: WasteTest,
    rows: Seq<Seq<Seq<char>>>,
    removed: Seq<Seq<char>>,
    durations: Map<Seq<char>, Double>,
    id: Seq<char>,
) -> bool {
    &&& t.nodeid@ == id
    &&& t.duration == durations[id]
    &&& t.covered_lines == covered_lines(rows, id)
    &&& partners(rows, removed, id).finite()
    &&& t.also_covered_by == partners(rows, removed, id).len()
}

/// Whether the details are of the first removed tests, and say what is the case.
pub open spec fn details_of(
    tests: Seq<WasteTest>,
    rows: Seq<Seq<Seq<char>>>,
    removed: Seq<Seq<char>>,
    durations: Map<Seq<char>, Double>,
) -> bool {
    &&& tests.len() == (if removed.len() < SHOWN {
        removed.len()
    } else {
        SHOWN as nat
    })
    &&& forall|i: int|
        0 <= i < tests.len() ==> told(#[trigger] tests[i], rows, removed, durations, removed[i])
}

/// Whether the waste is what removing the candidates in the order `c` gives.
pub open spec fn is_waste(
    w: Waste,
    rows: Seq<Seq<Seq<char>>>,
    durations: Map<Seq<char>, Double>,
    c: Seq<Seq<char>>,
) -> bool {
    let removed = removed_of(rows, c);
    &&& w.removed@.len() == removed.len()
    &&& forall|i: int|
        0 <= i < removed.len() ==> (#[trigger] w.removed@[i]).0@ == removed[i] && w.removed@[i].1
            == durations[removed[i]]
    &&& details_of(w.tests@, rows, removed, durations)
}

/// The texts in rows of strings.
pub open spec fn row_texts(rows: Seq<Vec<String>>) -> Seq<Seq<Seq<char>>> {
    Seq::new(rows.len(), |i: int| texts(rows[i]@))
}

fn gather_rows(index: &CoverageIndex, skip: &TextSet) -> (res: Vec<Vec<String>>)
    ensures
        row_texts(res@) == rows_in(index.files.list(), skip@),
{
    let n = index.files.len();
    let ghost files = index.files.list();
    let mut out: Vec<Vec<String>> = Vec::new();
    let mut i: usize = 0;
    assert(row_texts(out@) =~= rows_in(files.take(0), skip@));
    while i < n
        invariant
            i <= n,
            n == files.len(),
            files == index.files.list(),
            row_texts(out@) == rows_in(files.take(i as int), skip@),
        decreases n - i,
    {
        let (name, file) = index.files.at(i);
        proof {
            assert(files.take(i + 1).drop_last() =~= files.take(i as int));
            assert(files.take(i + 1).last() == files[i as int]);
        }
        if !skip.contains(name) {
            let m = file.lines.len();
            let ghost lines = file.lines.list();
            let ghost before = row_texts(out@);
            let mut j: usize = 0;
            assert(before + rows_of(lines).take(0) =~= before);
            while j < m
                invariant
                    j <= m,
                    m == lines.len(),
                    lines == file.lines.list(),
                    row_texts(out@) == before + rows_of(lines).take(j as int),
                decreases m - j,
            {
                let ids = crate::text::clone_texts(file.lines.at(j).1.as_slice());
                let ghost so_far = row_texts(out@);
                let ghost row = texts(ids@);
                out.push(ids);
                assert(row == rows_of(lines)[j as int]);
                assert(row_texts(out@) =~= so_far.push(row));
                j += 1;
                assert(rows_of(lines).take(j as int) =~= rows_of(lines).take(j - 1).push(row));
                assert(row_texts(out@) =~= before + rows_of(lines).take(j as int));
            }
            assert(rows_of(lines).take(m as int) =~= rows_of(lines));
        }
        i += 1;
    }
    assert(files.take(n as int) =~= files);
    out
}

/// The entries of all rows, one after the other.
pub open spec fn entries(rows: Seq<Seq<Seq<char>>>) -> Seq<Seq<char>>
    decreases rows.len(),
{
    if rows.len() == 0 {
        Seq::empty()
    } else {
        entries(rows.drop_last()) + rows.last()
    }
}

proof fn lemma_entries(rows: Seq<Seq<Seq<char>>>, id: Seq<char>)
    ensures
        entries(rows).contains(id) == listed_in(rows, id),
        count_in(entries(rows), id) == covered_lines(rows, id),
    decreases rows.len(),
{
    if rows.len() > 0 {
        let before = rows.drop_last();
        lemma_entries(before, id);
        lemma_count_add(entries(before), rows.last(), id);
        let all = entries(rows);
        if all.contains(id) {
            let k = choose|k: int| 0 <= k < all.len() && all[k] == id;
            if k < entries(before).len() {
                assert(entries(before)[k] == id);
                let i = choose|i: int| 0 <= i < before.len() && (#[trigger] before[i]).contains(id);
                assert(rows[i].contains(id));
            } else {
                assert(rows.last()[k - entries(before).len()] == id);
                assert(rows[rows.len() - 1].contains(id));
            }
        }
        if listed_in(rows, id) {
            let i = choose|i: int| 0 <= i < rows.len() && (#[trigger] rows[i]).contains(id);
            if i < rows.len() - 1 {
                assert(before[i].contains(id));
                let k = choose|k: int| 0 <= k < entries(before).len() && entries(before)[k] == id;
                assert(all[k] == id);
            } else {
                let k = choose|k: int| 0 <= k < rows[i].len() && rows[i][k] == id;
                assert(all[entries(before).len() + k] == id);
            }
        }
    }
}

proof fn lemma_count_add(a: Seq<Seq<char>>, b: Seq<Seq<char>>, id: Seq<char>)
    ensures
        count_in(a + b, id) == count_in(a, id) + count_in(b, id),
    decreases b.len(),
{
    if b.len() == 0 {
        assert(a + b =~= a);
    } else {
        assert((a + b).drop_last() =~= a + b.drop_last());
        lemma_count_add(a, b.drop_last(), id);
    }
}

fn flatten(rows: &Vec<Vec<String>>) -> (res: Vec<String>)
    ensures
        texts(res@) == entries(row_texts(rows@)),
{
    let mut out: Vec<String> = Vec::new();
    let ghost all = row_texts(rows@);
    let mut i: usize = 0;
    assert(texts(out@) =~= entries(all.take(0)));
    while i < rows.len()
        invariant
            i <= rows.len(),
            all == row_texts(rows@),
            texts(out@) == entries(all.take(i as int)),
        decreases rows.len() - i,
    {
        let row = &rows[i];
        let ghost before = texts(out@);
        let mut j: usize = 0;
        assert(before + texts(row@).take(0) =~= before);
        while j < row.len()
            invariant
                j <= row.len(),
                texts(out@) == before + texts(row@).take(j as int),
            decreases row.len() - j,
        {
            out.push(row[j].clone());
            j += 1;
            assert(texts(out@) =~= before + texts(row@).take(j as int));
        }
        proof {
            assert(texts(row@).take(row.len() as int) =~= texts(row@));
            assert(all.take(i + 1).drop_last() =~= all.take(i as int));
            assert(all.take(i + 1).last() == texts(row@));
        }
        i += 1;
    }
    assert(all.take(rows.len() as int) =~= all);
    out
}

fn home_files(flat: &Vec<String>, Ghost(rows): Ghost<Seq<Seq<Seq<char>>>>) -> (res: TextSet)
    requires
        texts(flat@) == entries(rows),
    ensures
        res@ == homes(rows),
{
    let mut out = TextSet::new();
    let mut i: usize = 0;
    while i < flat.len()
        invariant
            i <= flat.len(),
            texts(flat@) == entries(rows),
            forall|f: Seq<char>| #[trigger] out@.contains(f) ==> homes(rows).contains(f),
            forall|j: int| 0 <= j < i ==> out@.contains(file_part(#[trigger] flat@[j]@)),
        decreases flat.len() - i,
    {
        proof {
            let id = flat@[i as int]@;
            assert(texts(flat@)[i as int] == id);
            assert(entries(rows).contains(id));
            lemma_entries(rows, id);
            assert(listed_in(rows, id));
        }
        out.insert(file_of(flat[i].as_str()));
        i += 1;
    }
    proof {
        assert forall|f: Seq<char>| homes(rows).contains(f) implies out@.contains(f) by {
            let id = choose|id: Seq<char>| #[trigger] listed_in(rows, id) && file_part(id) == f;
            lemma_entries(rows, id);
            let k = choose|k: int| 0 <= k < entries(rows).len() && entries(rows)[k] == id;
            assert(flat@[k]@ == id);
        }
        assert(out@ =~= homes(rows));
    }
    out
}

fn is_alone(rows: &Vec<Vec<String>>, id: &str) -> (res: bool)
    ensures
        res == alone(row_texts(rows@), id@),
{
    let ghost all = row_texts(rows@);
    let mut i: usize = 0;
    while i < rows.len()
        invariant
            i <= rows.len(),
            all == row_texts(rows@),
            forall|j: int| 0 <= j < i ==> #[trigger] all[j] != seq![id@],
        decreases rows.len() - i,
    {
        if rows[i].len() == 1 && str_eq(rows[i][0].as_str(), id) {
            assert(all[i as int] =~= seq![id@]);
            return true;
        }
        proof {
            if all[i as int] == seq![id@] {
                assert(all[i as int].len() == 1);
                assert(all[i as int][0] == id@);
            }
        }
        i += 1;
    }
    false
}

fn count_entries(flat: &Vec<String>, id: &str) -> (res: u64)
    ensures
        res == count_in(texts(flat@), id@),
{
    let ghost all = texts(flat@);
    let mut n: u64 = 0;
    let mut i: usize = 0;
    assert(count_in(all.take(0), id@) == 0);
    while i < flat.len()
        invariant
            i <= flat.len(),
            all == texts(flat@),
            n == count_in(all.take(i as int), id@),
            n <= i,
        decreases flat.len() - i,
    {
        proof {
            assert(all.take(i + 1).drop_last() =~= all.take(i as int));
            assert(all.take(i + 1).last() == flat@[i as int]@);
        }
        if str_eq(flat[i].as_str(), id) {
            n += 1;
        }
        i += 1;
    }
    assert(all.take(flat.len() as int) =~= all);
    n
}

fn count_live(row: &Vec<String>, removed: &Vec<String>) -> (res: usize)
    ensures
        res == live(texts(row@), texts(removed@)),
{
    let ghost all = texts(row@);
    let mut n: usize = 0;
    let mut i: usize = 0;
    assert(live(all.take(0), texts(removed@)) == 0);
    while i < row.len()
        invariant
            i <= row.len(),
            all == texts(row@),
            n == live(all.take(i as int), texts(removed@)),
            n <= i,
        decreases row.len() - i,
    {
        proof {
            assert(all.take(i + 1).drop_last() =~= all.take(i as int));
            assert(all.take(i + 1).last() == row@[i as int]@);
        }
        if !contains_text(removed.as_slice(), row[i].as_str()) {
            n += 1;
        }
        i += 1;
    }
    assert(all.take(row.len() as int) =~= all);
    n
}

fn can_remove(rows: &Vec<Vec<String>>, removed: &Vec<String>, id: &str) -> (res: bool)
    ensures
        res == removable(row_texts(rows@), texts(removed@), id@),
{
    let ghost all = row_texts(rows@);
    let mut i: usize = 0;
    while i < rows.len()
        invariant
            i <= rows.len(),
            all == row_texts(rows@),
            forall|j: int|
                0 <= j < i && (#[trigger] all[j]).contains(id@) ==> live(all[j], texts(removed@))
                    >= 2,
        decreases rows.len() - i,
    {
        assert(all[i as int] == texts(rows@[i as int]@));
        if contains_text(rows[i].as_slice(), id) {
            if count_live(&rows[i], removed) < 2 {
                return false;
            }
        }
        i += 1;
    }
    true
}

fn find_candidates(
    rows: &Vec<Vec<String>>,
    flat: &Vec<String>,
    durations: &OrderedMap<String, Double>,
    min: &Double,
) -> (res: Vec<String>)
    requires
        texts(flat@) == entries(row_texts(rows@)),
    ensures
        candidates_listed(texts(res@), row_texts(rows@), durations@, *min),
{
    let ghost all = row_texts(rows@);
    let ids = TextSet::from_list(flat.as_slice());
    let n = ids.len();
    let mut found: Vec<String> = Vec::new();
    let mut keys: Vec<Down> = Vec::new();
    let mut i: usize = 0;
    while i < n
        invariant
            i <= n,
            n == ids.list().len(),
            ids.listed(),
            ids@ == texts(flat@).to_set(),
            texts(flat@) == entries(all),
            all == row_texts(rows@),
            keys.len() == found.len(),
            forall|j: int|
                0 <= j < found.len() ==> candidate(all, durations@, *min, #[trigger] found@[j]@)
                    && keys@[j].key == durations@[found@[j]@].place(),
            forall|j: int, k: int|
                0 <= j < k < found.len() ==> text_lt(#[trigger] found@[j]@, #[trigger] found@[k]@),
            i < n ==> forall|j: int| 0 <= j < found.len() ==> text_lt(#[trigger] found@[j]@, ids.list()[i as int]),
            forall|j: int|
                0 <= j < i && candidate(all, durations@, *min, #[trigger] ids.list()[j])
                    ==> texts(found@).contains(ids.list()[j]),
        decreases n - i,
    {
        let id = ids.at(i);
        proof {
            lemma_entries(all, id@);
            assert(ids@.contains(ids.list()[i as int]));
        }
        let ghost before = found@;
        if !is_alone(rows, id.as_str()) {
            match durations.get(id) {
                Some(d) => if d.ge(min) {
                    keys.push(Down { key: d.order_key() });
                    found.push(id.clone());
                    assert(texts(found@)[found.len() - 1] == id@);
                    assert(texts(found@).contains(id@));
                },
                None => {},
            }
        }
        proof {
            assert forall|j: int|
                0 <= j < i + 1 && candidate(
                    all,
                    durations@,
                    *min,
                    #[trigger] ids.list()[j],
                ) implies texts(found@).contains(ids.list()[j]) by {
                if j < i {
                    let k = choose|k: int|
                        0 <= k < texts(before).len() && texts(before)[k] == ids.list()[j];
                    assert(texts(found@)[k] == ids.list()[j]);
                }
            }
            if i + 1 < n {
                assert forall|j: int| 0 <= j < found.len() implies text_lt(
                    #[trigger] found@[j]@,
                    ids.list()[i + 1],
                ) by {
                    assert(text_lt(ids.list()[i as int], ids.list()[i + 1]));
                    if j < before.len() {
                        assert(found@[j] == before[j]);
                        <String as crate::ordered_map::OrderedKey>::lemma_transitive(
                            found@[j]@,
                            ids.list()[i as int],
                            ids.list()[i + 1],
                        );
                    }
                }
            }
        }
        i += 1;
    }
    let order = rank(keys.as_slice());
    let ghost p = positions(order@);
    let ghost w = crate::rank::models(keys@);
    let mut out: Vec<String> = Vec::new();
    let mut k: usize = 0;
    while k < order.len()
        invariant
            k <= order.len(),
            p == positions(order@),
            ranked::<Down>(p, w),
            w.len() == found.len(),
            out.len() == k,
            forall|j: int| 0 <= j < k ==> #[trigger] out@[j]@ == found@[p[j]]@,
        decreases order.len() - k,
    {
        assert(0 <= p[k as int] < w.len());
        out.push(found[order[k]].clone());
        k += 1;
    }
    proof {
        let c = texts(out@);
        crate::rank::theorem_ranking_is_a_permutation::<Down>(p, w);
        assert forall|id: Seq<char>| #[trigger] c.contains(id) == candidate(
            all,
            durations@,
            *min,
            id,
        ) by {
            if c.contains(id) {
                let j = choose|j: int| 0 <= j < c.len() && c[j] == id;
                assert(out@[j]@ == found@[p[j]]@);
                assert(0 <= p[j] < w.len());
            }
            if candidate(all, durations@, *min, id) {
                lemma_entries(all, id);
                assert(ids@.contains(id));
                let j = choose|j: int| 0 <= j < ids.list().len() && ids.list()[j] == id;
                assert(texts(found@).contains(ids.list()[j]));
                let m = choose|m: int| 0 <= m < texts(found@).len() && texts(found@)[m] == id;
                assert(p.contains(m));
                let q = choose|q: int| 0 <= q < p.len() && p[q] == m;
                assert(out@[q]@ == found@[p[q]]@);
                assert(c[q] == id);
            }
        }
        assert forall|i: int, j: int| 0 <= i < j < c.len() implies tried_first(
            durations@,
            #[trigger] c[i],
            #[trigger] c[j],
        ) by {
            assert(crate::rank::ahead::<Down>(w, p[i], p[j]));
            assert(out@[i]@ == found@[p[i]]@ && out@[j]@ == found@[p[j]]@);
            assert(0 <= p[i] < w.len() && 0 <= p[j] < w.len());
        }
    }
    out
}

fn count_partners(rows: &Vec<Vec<String>>, removed: &Vec<String>, id: &str) -> (res: u64)
    ensures
        partners(row_texts(rows@), texts(removed@), id@).finite(),
        res == partners(row_texts(rows@), texts(removed@), id@).len(),
{
    let ghost all = row_texts(rows@);
    let ghost gone = texts(removed@);
    let ghost goal = partners(all, gone, id@);
    let mut set = TextSet::new();
    let mut i: usize = 0;
    while i < rows.len()
        invariant
            i <= rows.len(),
            all == row_texts(rows@),
            gone == texts(removed@),
            goal == partners(all, gone, id@),
            forall|o: Seq<char>| #[trigger] set@.contains(o) ==> goal.contains(o),
            forall|o: Seq<char>, j: int|
                0 <= j < i && all[j].len() >= 2 && all[j].contains(id@) && #[trigger] all[j].contains(o)
                    && !gone.contains(o) ==> set@.contains(o),
        decreases rows.len() - i,
    {
        let row = &rows[i];
        assert(all[i as int] == texts(row@));
        if row.len() >= 2 && contains_text(row.as_slice(), id) {
            let ghost before = set@;
            let mut j: usize = 0;
            while j < row.len()
                invariant
                    j <= row.len(),
                    i < rows.len(),
                    all[i as int] == texts(row@),
                    all[i as int].len() >= 2,
                    all.len() == rows.len(),
                    all[i as int].contains(id@),
                    gone == texts(removed@),
                    goal == partners(all, gone, id@),
                    forall|o: Seq<char>| #[trigger] set@.contains(o) ==> goal.contains(o),
                    forall|o: Seq<char>| #[trigger] before.contains(o) ==> set@.contains(o),
                    forall|k: int|
                        0 <= k < j && !gone.contains(#[trigger] row@[k]@) ==> set@.contains(
                            row@[k]@,
                        ),
                decreases row.len() - j,
            {
                assert(texts(row@)[j as int] == row@[j as int]@);
                if !contains_text(removed.as_slice(), row[j].as_str()) {
                    set.insert(row[j].clone());
                    assert(all[i as int].contains(row@[j as int]@));
                }
                j += 1;
            }
            proof {
                assert forall|o: Seq<char>, j: int|
                    0 <= j < i + 1 && all[j].len() >= 2 && all[j].contains(id@)
                        && #[trigger] all[j].contains(o) && !gone.contains(o) implies set@.contains(
                    o,
                ) by {
                    if j == i {
                        let k = choose|k: int| 0 <= k < all[j].len() && all[j][k] == o;
                        assert(row@[k]@ == o);
                    } else {
                        assert(before.contains(o));
                    }
                }
            }
        }
        i += 1;
    }
    let n = set.len();
    proof {
        assert forall|o: Seq<char>| goal.contains(o) implies set@.contains(o) by {
            let j = choose|j: int|
                0 <= j < all.len() && (#[trigger] all[j]).len() >= 2 && all[j].contains(id@)
                    && all[j].contains(o);
            assert(all[j].contains(o));
        }
        assert(goal =~= set@);
    }
    n as u64
}

/// The slow tests that can be deleted together without a line of the product's
/// code losing coverage: the candidates are tried from the slowest on, and one is
/// removed where each of its lines keeps another test.
pub fn coverage_waste(
    durations: &OrderedMap<String, Double>,
    index: &CoverageIndex,
    min: &Double,
) -> (res: Option<Waste>)
    ensures
        exists|c: Seq<Seq<char>>| #[trigger]
            candidates_listed(c, product_rows(*index), durations@, *min) && (match res {
                Some(w) => removed_of(product_rows(*index), c).len() > 0 && is_waste(
                    w,
                    product_rows(*index),
                    durations@,
                    c,
                ),
                None => removed_of(product_rows(*index), c).len() == 0,
            }),
{
    let none = TextSet::new();
    let every = gather_rows(index, &none);
    let every_flat = flatten(&every);
    let skip = home_files(&every_flat, Ghost(row_texts(every@)));
    let rows = gather_rows(index, &skip);
    let ghost all = row_texts(rows@);
    assert(all == product_rows(*index));
    let flat = flatten(&rows);
    let found = find_candidates(&rows, &flat, durations, min);
    let ghost c = texts(found@);
    let mut removed: Vec<String> = Vec::new();
    let mut i: usize = 0;
    assert(texts(removed@) =~= removed_of(all, c.take(0)));
    while i < found.len()
        invariant
            i <= found.len(),
            all == row_texts(rows@),
            c == texts(found@),
            texts(removed@) == removed_of(all, c.take(i as int)),
            forall|id: Seq<char>| #[trigger]
                texts(removed@).contains(id) ==> c.contains(id),
        decreases found.len() - i,
    {
        proof {
            assert(c.take(i + 1).drop_last() =~= c.take(i as int));
            assert(c.take(i + 1).last() == found@[i as int]@);
        }
        if can_remove(&rows, &removed, found[i].as_str()) {
            let ghost before = removed@;
            removed.push(found[i].clone());
            proof {
                assert forall|id: Seq<char>| #[trigger] texts(removed@).contains(id) implies c.contains(
                    id,
                ) by {
                    let k = choose|k: int| 0 <= k < texts(removed@).len() && texts(removed@)[k] == id;
                    if k < before.len() {
                        assert(texts(before)[k] == id);
                        assert(texts(before).contains(id));
                    } else {
                        assert(c[i as int] == id);
                    }
                }
            }
        }
        i += 1;
    }
    assert(c.take(found.len() as int) =~= c);
    if removed.len() == 0 {
        return None;
    }
    let ghost gone = texts(removed@);
    let mut times: Vec<(String, Double)> = Vec::new();
    let mut tests: Vec<WasteTest> = Vec::new();
    let mut k: usize = 0;
    while k < removed.len()
        invariant
            k <= removed.len(),
            all == row_texts(rows@),
            texts(flat@) == entries(all),
            gone == texts(removed@),
            candidates_listed(c, all, durations@, *min),
            forall|id: Seq<char>| #[trigger] gone.contains(id) ==> c.contains(id),
            times.len() == k,
            forall|j: int|
                0 <= j < k ==> (#[trigger] times@[j]).0@ == gone[j] && times@[j].1
                    == durations@[gone[j]],
            tests.len() == (if k < SHOWN {
                k
            } else {
                SHOWN
            }),
            forall|j: int|
                0 <= j < tests.len() ==> told(#[trigger] tests@[j], all, gone, durations@, gone[j]),
        decreases removed.len() - k,
    {
        let id = &removed[k];
        proof {
            assert(gone[k as int] == id@);
            assert(gone.contains(id@));
            assert(c.contains(id@));
        }
        if let Some(d) = durations.get(id) {
            times.push((id.clone(), *d));
            if k < SHOWN {
                proof {
                    lemma_entries(all, id@);
                }
                let covered = count_entries(&flat, id.as_str());
                let also = count_partners(&rows, &removed, id.as_str());
                tests.push(
                    WasteTest {
                        nodeid: id.clone(),
                        duration: *d,
                        covered_lines: covered,
                        also_covered_by: also,
                    },
                );
            }
        }
        k += 1;
    }
    let w = Waste { removed: times, tests };
    assert(is_waste(w, all, durations@, c));
    Some(w)
}

/// There is one order in which candidates are tried.
pub proof fn theorem_candidates_listed_once(
    a: Seq<Seq<char>>,
    b: Seq<Seq<char>>,
    rows: Seq<Seq<Seq<char>>>,
    durations: Map<Seq<char>, Double>,
    min: Double,
)
    requires
        candidates_listed(a, rows, durations, min),
        candidates_listed(b, rows, durations, min),
    ensures
        a == b,
{
    lemma_not_longer(a, b, rows, durations, min);
    lemma_not_longer(b, a, rows, durations, min);
    assert forall|i: int| 0 <= i < a.len() implies a[i] == b[i] by {
        lemma_same_at(a, b, rows, durations, min, i);
    }
    assert(a =~= b);
}

proof fn lemma_distinct(
    a: Seq<Seq<char>>,
    rows: Seq<Seq<Seq<char>>>,
    durations: Map<Seq<char>, Double>,
    min: Double,
)
    requires
        candidates_listed(a, rows, durations, min),
    ensures
        a.no_duplicates(),
{
    assert forall|i: int, j: int| 0 <= i < a.len() && 0 <= j < a.len() && i != j implies a[i]
        != a[j] by {
        if i < j {
            assert(tried_first(durations, a[i], a[j]));
        } else {
            assert(tried_first(durations, a[j], a[i]));
        }
    }
}

proof fn lemma_not_longer(
    a: Seq<Seq<char>>,
    b: Seq<Seq<char>>,
    rows: Seq<Seq<Seq<char>>>,
    durations: Map<Seq<char>, Double>,
    min: Double,
)
    requires
        candidates_listed(a, rows, durations, min),
        candidates_listed(b, rows, durations, min),
    ensures
        a.len() == b.len(),
{
    lemma_distinct(a, rows, durations, min);
    lemma_distinct(b, rows, durations, min);
    a.unique_seq_to_set();
    b.unique_seq_to_set();
    assert forall|x: Seq<char>| a.to_set().contains(x) == b.to_set().contains(x) by {
        assert(a.contains(x) == b.contains(x));
    }
    assert(a.to_set() =~= b.to_set());
}

proof fn lemma_same_at(
    a: Seq<Seq<char>>,
    b: Seq<Seq<char>>,
    rows: Seq<Seq<Seq<char>>>,
    durations: Map<Seq<char>, Double>,
    min: Double,
    i: int,
)
    requires
        candidates_listed(a, rows, durations, min),
        candidates_listed(b, rows, durations, min),
        a.len() == b.len(),
        0 <= i < a.len(),
    ensures
        a[i] == b[i],
    decreases i,
{
    lemma_distinct(a, rows, durations, min);
    lemma_distinct(b, rows, durations, min);
    let x = a[i];
    let y = b[i];
    assert(a.contains(x) && b.contains(y));
    assert(b.contains(x) && a.contains(y));
    let j = choose|j: int| 0 <= j < b.len() && b[j] == x;
    let k = choose|k: int| 0 <= k < a.len() && a[k] == y;
    if j < i {
        lemma_same_at(a, b, rows, durations, min, j);
        assert(a[j] == a[i]);
    } else if k < i {
        lemma_same_at(a, b, rows, durations, min, k);
        assert(b[k] == b[i]);
    } else if j > i && k > i {
        assert(tried_first(durations, b[i], b[j]));
        assert(tried_first(durations, a[i], a[k]));
        if text_lt(x, y) && text_lt(y, x) {
            crate::order::lemma_le_antisymmetric(x, y);
        }
    }
}

/// Whether `row` is a line of a file that holds no tests of the index.
pub open spec fn product_row(index: CoverageIndex, row: Seq<Seq<char>>) -> bool {
    let files = index.files.list();
    exists|i: int, j: int|
        0 <= i < files.len() && 0 <= j < files[i].1.lines.list().len() && !homes(
            rows_in(files, Set::empty()),
        ).contains(files[i].0@) && row == texts((#[trigger] files[i].1.lines.list()[j]).1@)
}

proof fn lemma_rows_in(files: Seq<(String, CoverageFile)>, skip: Set<Seq<char>>, row: Seq<Seq<char>>)
    ensures
        rows_in(files, skip).contains(row) <==> exists|i: int, j: int|
            0 <= i < files.len() && 0 <= j < files[i].1.lines.list().len() && !skip.contains(
                files[i].0@,
            ) && row == texts((#[trigger] files[i].1.lines.list()[j]).1@),
    decreases files.len(),
{
    if files.len() > 0 {
        let init = files.drop_last();
        let before = rows_in(init, skip);
        let all = rows_in(files, skip);
        let last = files.last().1.lines.list();
        let own = rows_of(last);
        lemma_rows_in(init, skip, row);
        if all.contains(row) {
            let k = choose|k: int| 0 <= k < all.len() && all[k] == row;
            if k < before.len() {
                assert(before[k] == row);
                let (i, j) = choose|i: int, j: int|
                    0 <= i < init.len() && 0 <= j < init[i].1.lines.list().len() && !skip.contains(
                        init[i].0@,
                    ) && row == texts((#[trigger] init[i].1.lines.list()[j]).1@);
                assert(files[i] == init[i]);
                assert(row == texts(files[i].1.lines.list()[j].1@));
            } else {
                let j = k - before.len();
                assert(own[j] == row);
                assert(row == texts(files[files.len() - 1].1.lines.list()[j].1@));
            }
        }
        if exists|i: int, j: int|
            0 <= i < files.len() && 0 <= j < files[i].1.lines.list().len() && !skip.contains(
                files[i].0@,
            ) && row == texts((#[trigger] files[i].1.lines.list()[j]).1@) {
            let (i, j) = choose|i: int, j: int|
                0 <= i < files.len() && 0 <= j < files[i].1.lines.list().len() && !skip.contains(
                    files[i].0@,
                ) && row == texts((#[trigger] files[i].1.lines.list()[j]).1@);
            if i < init.len() {
                assert(init[i] == files[i]);
                assert(row == texts(init[i].1.lines.list()[j].1@));
                let k = choose|k: int| 0 <= k < before.len() && before[k] == row;
                assert(all[k] == row);
            } else {
                assert(own[j] == row);
                assert(all[before.len() + j] == row);
            }
        }
    }
}

/// Only lines of the product count: those of files that hold no tests of the index, and all
/// of those.
pub proof fn theorem_lines_of_the_product(index: CoverageIndex, row: Seq<Seq<char>>)
    ensures
        product_rows(index).contains(row) <==> product_row(index, row),
{
    let files = index.files.list();
    lemma_rows_in(files, homes(rows_in(files, Set::empty())), row);
}

proof fn lemma_count_in(row: Seq<Seq<char>>, id: Seq<char>)
    requires
        row.no_duplicates(),
    ensures
        count_in(row, id) == (if row.contains(id) {
            1nat
        } else {
            0nat
        }),
    decreases row.len(),
{
    if row.len() > 0 {
        let init = row.drop_last();
        assert forall|i: int, j: int|
            0 <= i < init.len() && 0 <= j < init.len() && i != j implies init[i] != init[j] by {
            assert(row[i] != row[j]);
        }
        lemma_count_in(init, id);
        if init.contains(id) {
            let k = choose|k: int| 0 <= k < init.len() && init[k] == id;
            assert(row[k] == id);
            assert(row[row.len() - 1] != row[k]);
        }
        if row.contains(id) && !init.contains(id) {
            let k = choose|k: int| 0 <= k < row.len() && row[k] == id;
            if k < init.len() {
                assert(init[k] == id);
            }
        }
        if row.last() == id {
            assert(row[row.len() - 1] == id);
        }
    }
}

/// A test covers as many lines as list it.
pub proof fn theorem_lines_that_a_test_covers(
    rows: Seq<Seq<Seq<char>>>,
    row: Seq<Seq<char>>,
    id: Seq<char>,
)
    requires
        row.no_duplicates(),
    ensures
        covered_lines(Seq::<Seq<Seq<char>>>::empty(), id) == 0,
        covered_lines(rows.push(row), id) == covered_lines(rows, id) + (if row.contains(id) {
            1int
        } else {
            0
        }),
{
    lemma_count_in(row, id);
    assert(rows.push(row).drop_last() =~= rows);
}

/// A test may go where it covers a line, is the only one on none, and took long enough.
pub proof fn theorem_tests_that_may_go(
    rows: Seq<Seq<Seq<char>>>,
    durations: Map<Seq<char>, Double>,
    min: Double,
    id: Seq<char>,
    i: int,
)
    requires
        0 <= i < rows.len(),
        rows[i].contains(id),
    ensures
        rows[i].len() == 1 ==> !candidate(rows, durations, min, id),
        !durations.contains_key(id) ==> !candidate(rows, durations, min, id),
        durations.contains_key(id) && durations[id].less(min) ==> !candidate(
            rows,
            durations,
            min,
            id,
        ),
        durations.contains_key(id) && durations[id].at_least(min) && (forall|k: int|
            0 <= k < rows.len() && (#[trigger] rows[k]).contains(id) ==> rows[k].len() >= 2)
            ==> candidate(rows, durations, min, id),
{
    if rows[i].len() == 1 {
        assert(rows[i] =~= seq![id]);
    }
    if alone(rows, id) {
        let k = choose|k: int| 0 <= k < rows.len() && #[trigger] rows[k] == seq![id];
        assert(rows[k][0] == id);
        assert(rows[k].contains(id));
    }
}

/// The longest of the tests that may go is tried first.
pub proof fn theorem_longest_tests_go_first(
    c: Seq<Seq<char>>,
    rows: Seq<Seq<Seq<char>>>,
    durations: Map<Seq<char>, Double>,
    min: Double,
    i: int,
    j: int,
)
    requires
        candidates_listed(c, rows, durations, min),
        0 <= i < j < c.len(),
    ensures
        durations[c[i]].place() >= durations[c[j]].place(),
        durations[c[i]] == durations[c[j]] ==> text_lt(c[i], c[j]),
{
    assert(tried_first(durations, c[i], c[j]));
}

/// What takes the place of a test that goes: the tests that stay and cover one of its lines
/// together with it.
pub proof fn theorem_tests_that_take_its_place(
    rows: Seq<Seq<Seq<char>>>,
    removed: Seq<Seq<char>>,
    id: Seq<char>,
    other: Seq<char>,
    i: int,
)
    requires
        0 <= i < rows.len(),
        rows[i].contains(id),
        rows[i].contains(other),
        other != id,
    ensures
        partners(rows, removed, id).contains(other) <==> !removed.contains(other),
        partners(rows, removed, other).contains(id) <==> !removed.contains(id),
{
    let a = choose|a: int| 0 <= a < rows[i].len() && rows[i][a] == id;
    let b = choose|b: int| 0 <= b < rows[i].len() && rows[i][b] == other;
    assert(a != b);
    assert(rows[i].len() >= 2);
}

/// At most twenty tests are told of, in the order they went.
pub proof fn theorem_twenty_tests_are_told_of(
    tests: Seq<WasteTest>,
    rows: Seq<Seq<Seq<char>>>,
    removed: Seq<Seq<char>>,
    durations: Map<Seq<char>, Double>,
    i: int,
)
    requires
        details_of(tests, rows, removed, durations),
    ensures
        tests.len() <= 20,
        removed.len() <= 20 ==> tests.len() == removed.len(),
        removed.len() > 20 ==> tests.len() == 20,
        0 <= i < tests.len() ==> tests[i].nodeid@ == removed[i] && tests[i].duration
            == durations[removed[i]] && tests[i].covered_lines == covered_lines(rows, removed[i]),
{
}

/// Every test that can go is told of with the time it took.
pub proof fn theorem_what_is_told_of_waste(
    w: Waste,
    rows: Seq<Seq<Seq<char>>>,
    durations: Map<Seq<char>, Double>,
    c: Seq<Seq<char>>,
    i: int,
)
    requires
        is_waste(w, rows, durations, c),
    ensures
        w.removed@.len() == removed_of(rows, c).len(),
        0 <= i < w.removed@.len() ==> w.removed@[i].0@ == removed_of(rows, c)[i] && w.removed@[i].1
            == durations[w.removed@[i].0@],
        w.tests@.len() <= 20,
        0 <= i < w.tests@.len() ==> w.tests@[i].nodeid@ == w.removed@[i].0@ && w.tests@[i].duration
            == w.removed@[i].1,
{
    theorem_twenty_tests_are_told_of(w.tests@, rows, removed_of(rows, c), durations, i);
}

} // verus!
