//! What is told of the tests of a suite without running them.

use crate::paths::{joined_path, path_join};
use crate::text::{clone_texts, starts, strip_prefix, texts};
use vstd::prelude::*;

verus! {

/// A path without the mark of a path that is taken as it is.
pub open spec fn without_mark(p: Seq<char>) -> Seq<char> {
    if starts(p, "\\\\?\\"@) {
        p.skip("\\\\?\\"@.len() as int)
    } else {
        p
    }
}

/// Takes the mark of a path that is taken as it is off a path.
pub fn strip_verbatim(p: &str) -> (res: String)
    ensures
        res@ == without_mark(p@),
{
    match strip_prefix(p, "\\\\?\\") {
        Some(rest) => rest,
        None => p.to_owned(),
    }
}

/// What is told of a test.
pub struct Discovered {
    pub nodeid: String,
    /// The absolute path of its file; empty where that is not known.
    pub file: String,
    /// The line it begins on, counted from zero.
    pub lineno: Option<u64>,
    pub markers: Vec<String>,
}

/// What is told of the tests of a suite.
pub struct DiscoveryDoc {
    pub runner: String,
    pub kind: String,
    pub schema: u32,
    pub count: usize,
    pub rootdir: String,
    pub tests: Vec<Discovered>,
    /// The files that could not be collected, and why.
    pub collect_errors: Vec<(String, String)>,
}

/// The absolute path of a file that is told as seen from the root.
pub open spec fn absolute_file(windows: bool, rootdir: Seq<char>, rel: Seq<char>) -> Seq<char> {
    if rel.len() == 0 {
        Seq::empty()
    } else if starts(rel, "./"@) {
        joined_path(windows, rootdir, rel.skip(2))
    } else {
        joined_path(windows, rootdir, rel)
    }
}

fn absolute(windows: bool, rootdir: &str, rel: &str) -> (res: String)
    ensures
        res@ == absolute_file(windows, rootdir@, rel@),
{
    if rel.is_empty() {
        let out = String::new();
        assert(out@ =~= Seq::empty());
        return out;
    }
    proof {
        reveal_strlit("./");
    }
    match strip_prefix(rel, "./") {
        Some(rest) => path_join(windows, rootdir, rest.as_str()),
        None => path_join(windows, rootdir, rel),
    }
}

/// Where a test is, as far as that is told.
pub open spec fn place_at(locations: Seq<(String, Option<u64>)>, i: int) -> (Seq<char>, Option<u64>) {
    if i < locations.len() {
        (locations[i].0@, locations[i].1)
    } else {
        (Seq::empty(), None)
    }
}

/// The markers of a test, as far as they are told.
pub open spec fn markers_at(marks: Seq<Vec<String>>, i: int) -> Seq<Seq<char>> {
    if i < marks.len() {
        texts(marks[i]@)
    } else {
        Seq::empty()
    }
}

/// Whether an entry tells of the test at a position what was collected of it.
pub open spec fn describes(
    windows: bool,
    d: Discovered,
    id: Seq<char>,
    locations: Seq<(String, Option<u64>)>,
    marks: Seq<Vec<String>>,
    rootdir: Seq<char>,
    i: int,
) -> bool {
    &&& d.nodeid@ == id
    &&& d.file@ == absolute_file(windows, rootdir, place_at(locations, i).0)
    &&& d.lineno == place_at(locations, i).1
    &&& texts(d.markers@) == markers_at(marks, i)
}

/// Tells of the tests of a suite what was collected of them.
pub fn discovery_doc(
    ids: &[String],
    locations: &[(String, Option<u64>)],
    marks: &[Vec<String>],
    errors: Vec<(String, String)>,
    rootdir: &str,
    windows: bool,
) -> (res: DiscoveryDoc)
    ensures
        res.collect_errors == errors,
        is_discovery(res, texts(ids@), locations@, marks@, rootdir@, windows),
{
    let mut tests: Vec<Discovered> = Vec::new();
    let mut i: usize = 0;
    while i < ids.len()
        invariant
            i <= ids.len(),
            tests.len() == i,
            forall|j: int|
                0 <= j < i ==> describes(
                    windows,
                    #[trigger] tests@[j],
                    ids@[j]@,
                    locations@,
                    marks@,
                    rootdir@,
                    j,
                ),
        decreases ids.len() - i,
    {
        let (file, lineno) = if i < locations.len() {
            (absolute(windows, rootdir, locations[i].0.as_str()), locations[i].1)
        } else {
            let none = String::new();
            assert(none@ =~= Seq::empty());
            (none, None)
        };
        let markers = if i < marks.len() {
            clone_texts(marks[i].as_slice())
        } else {
            let none: Vec<String> = Vec::new();
            assert(texts(none@) =~= Seq::empty());
            none
        };
        tests.push(Discovered { nodeid: ids[i].clone(), file, lineno, markers });
        i += 1;
    }
    DiscoveryDoc {
        runner: "rstest".to_owned(),
        kind: "discovery".to_owned(),
        schema: 1,
        count: ids.len(),
        rootdir: rootdir.to_owned(),
        tests,
        collect_errors: errors,
    }
}

/// The mark of a long path is taken off where a path has it.
pub proof fn theorem_marks_are_taken_off(p: Seq<char>)
    ensures
        without_mark("\\\\?\\"@ + p) == p,
        p.len() > 0 && p[0] != '\\' ==> without_mark(p) == p,
{
    reveal_strlit("\\\\?\\");
    let m = "\\\\?\\"@;
    let s = m + p;
    assert(s.subrange(0, m.len() as int) =~= m);
    assert(starts(s, m));
    assert(s.skip(m.len() as int) =~= p);
    if starts(p, m) {
        assert(p.subrange(0, m.len() as int)[0] == p[0]);
        assert(m[0] == '\\');
    }
}

/// Where a test's file is not known, there is no path of it; else it is below the root, and a
/// path that begins in the directory itself is named without saying so.
pub proof fn theorem_files_below_the_root(windows: bool, rootdir: Seq<char>, rel: Seq<char>)
    ensures
        absolute_file(windows, rootdir, Seq::empty()).len() == 0,
        absolute_file(windows, rootdir, "./"@ + rel) == joined_path(windows, rootdir, rel),
        rel.len() > 0 && rel[0] != '.' ==> absolute_file(windows, rootdir, rel) == joined_path(
            windows,
            rootdir,
            rel,
        ),
{
    reveal_strlit("./");
    let s = "./"@ + rel;
    assert(s.subrange(0, 2) =~= "./"@);
    assert(s.skip(2) =~= rel);
    if starts(rel, "./"@) {
        assert(rel.subrange(0, 2)[0] == rel[0]);
    }
}

/// Tests are told of one for one; what is not known of one is left empty.
pub proof fn theorem_what_is_not_known_is_empty(
    windows: bool,
    d: Discovered,
    id: Seq<char>,
    locations: Seq<(String, Option<u64>)>,
    marks: Seq<Vec<String>>,
    rootdir: Seq<char>,
    i: int,
)
    requires
        describes(windows, d, id, locations, marks, rootdir, i),
        i >= 0,
    ensures
        d.nodeid@ == id,
        i >= locations.len() ==> d.file@.len() == 0 && d.lineno is None,
        i < locations.len() ==> d.lineno == locations[i].1,
        i < locations.len() && locations[i].0@.len() > 0 && locations[i].0@[0] != '.' ==> d.file@
            == joined_path(windows, rootdir, locations[i].0@),
        i >= marks.len() ==> d.markers@.len() == 0,
        i < marks.len() ==> texts(d.markers@) == texts(marks[i]@),
{
    if i < locations.len() {
        theorem_files_below_the_root(windows, rootdir, locations[i].0@);
    }
    assert(texts(d.markers@).len() == d.markers@.len());
}

/// Whether `doc` tells of the tests that were discovered.
pub open spec fn is_discovery(
    doc: DiscoveryDoc,
    ids: Seq<Seq<char>>,
    locations: Seq<(String, Option<u64>)>,
    marks: Seq<Vec<String>>,
    rootdir: Seq<char>,
    windows: bool,
) -> bool {
    &&& doc.runner@ == "rstest"@
    &&& doc.kind@ == "discovery"@
    &&& doc.schema == 1
    &&& doc.count == ids.len()
    &&& doc.rootdir@ == rootdir
    &&& doc.tests@.len() == ids.len()
    &&& forall|i: int|
        0 <= i < ids.len() ==> describes(
            windows,
            #[trigger] doc.tests@[i],
            ids[i],
            locations,
            marks,
            rootdir,
            i,
        )
}

/// Every test that was collected is told of, in its place, and counted.
pub proof fn theorem_each_test_is_discovered(
    doc: DiscoveryDoc,
    ids: Seq<Seq<char>>,
    locations: Seq<(String, Option<u64>)>,
    marks: Seq<Vec<String>>,
    rootdir: Seq<char>,
    windows: bool,
    i: int,
)
    requires
        is_discovery(doc, ids, locations, marks, rootdir, windows),
    ensures
        doc.count == doc.tests@.len() && doc.count == ids.len(),
        doc.rootdir@ == rootdir,
        doc.runner@ == "rstest"@ && doc.kind@ == "discovery"@ && doc.schema == 1,
        0 <= i < ids.len() ==> doc.tests@[i].nodeid@ == ids[i],
        0 <= i < ids.len() && i < locations.len() ==> doc.tests@[i].lineno == locations[i].1,
        0 <= i < ids.len() && i < marks.len() ==> texts(doc.tests@[i].markers@) == texts(
            marks[i]@,
        ),
{
    if 0 <= i < ids.len() {
        assert(describes(windows, doc.tests@[i], ids[i], locations, marks, rootdir, i));
    }
}

} // verus!
