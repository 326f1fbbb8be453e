//! What is told to services, and what is put together from workers.

use rstest_cli::annotate::{
    annotations, az_line, az_prop, buildkite_note, gh_data, gh_prop, Entry, Service,
};
use rstest_cli::digest::content_hash;
use rstest_cli::discovery::{discovery_doc, strip_verbatim};
use rstest_cli::double::Double;
use rstest_cli::merged::{
    merge_fixtures, merge_warnings, warnings_summary, FixtureStat, WarningEntry,
};
use rstest_cli::numbers::{dec, dec_signed, hex, parse_u64, parse_u8};
use rstest_cli::ordered_map::OrderedMap;
use rstest_cli::paths::{components, file_name, path_join, relative_to};
use rstest_cli::quarantine::{
    glob_pattern, no_patterns, pick_matching, quarantine_patterns, quarantined, status_after,
};

fn v(names: &[&str]) -> Vec<String> {
    names.iter().map(|s| s.to_string()).collect()
}

fn d(x: f64) -> Double {
    Double { bits: x.to_bits() }
}

#[test]
fn gh_escaping_covers_command_metacharacters() {
    assert_eq!(gh_data("a%b\nc\rd"), "a%25b%0Ac%0Dd");
    assert_eq!(gh_prop("pkg::test[a,b]"), "pkg%3A%3Atest[a%2Cb]");
    assert_eq!(gh_data("100%"), "100%25");
}

#[test]
fn azure_logissue_escaping() {
    assert_eq!(az_prop("a;b]c"), "a%3Bb%5Dc");
    assert_eq!(az_line("  first line  \nsecond\nthird"), "first line");
    assert_eq!(az_line(""), "");
}

fn entry(call: &str, lineno: Option<u64>) -> Entry {
    Entry {
        setup: None,
        call: Some(call.to_string()),
        teardown: None,
        lineno,
        longrepr: None,
    }
}

#[test]
fn failures_and_flakes_are_annotated() {
    let mut tests = OrderedMap::new();
    tests.insert(
        "a.py::bad".to_string(),
        Entry { longrepr: Some("boom\nhere".to_string()), ..entry("failed", Some(4)) },
    );
    tests.insert("a.py::flaky".to_string(), entry("passed", None));
    tests.insert("a.py::ok".to_string(), entry("passed", None));
    let flaky = [("a.py::flaky".to_string(), 2)];
    assert_eq!(
        annotations(Service::Github, &Some("libs".to_string()), &tests, &flaky),
        v(&[
            "::error file=libs/a.py,title=a.py%3A%3Abad,line=5::boom%0Ahere",
            "::warning file=libs/a.py,title=a.py%3A%3Aflaky::flaky: passed only after 2 reruns",
        ])
    );
    assert_eq!(
        annotations(Service::Azure, &None, &tests, &[]),
        v(&["##vso[task.logissue type=error;sourcepath=a.py;linenumber=5]a.py::bad: boom"])
    );
    assert!(entry("failed", None).failed() && !entry("passed", None).failed());
}

#[test]
fn flakes_are_noted_for_buildkite_only() {
    let flaky = [("a.py::f".to_string(), 1)];
    let there = Some("true".to_string());
    assert!(buildkite_note(&flaky, &there).unwrap().contains("a.py::f"));
    assert_eq!(buildkite_note(&flaky, &None), None);
    assert_eq!(buildkite_note(&[], &there), None);
}

fn warning(lineno: u64, count: u64) -> WarningEntry {
    WarningEntry {
        filename: "a.py".to_string(),
        lineno,
        category: "UserWarning".to_string(),
        message: "one\ntwo\nthree\nfour".to_string(),
        count,
    }
}

#[test]
fn warnings_of_one_place_are_added_up() {
    let merged = merge_warnings(&[warning(9, 1), warning(2, 2), warning(9, 3)]);
    assert_eq!(merged.len(), 2);
    assert_eq!(merged.at(1).1, &4);
    let rows: Vec<String> = warnings_summary(&merged)
        .iter()
        .map(|l| l.iter().map(|s| s.text.as_str()).collect())
        .collect();
    assert_eq!(rows[1], "a.py:2: UserWarning  (2 occurrences)");
    assert_eq!(rows[2..5], v(&["  one", "  two", "  three"])[..]);
    assert_eq!(rows[5], "a.py:9: UserWarning  (4 occurrences)");
    assert_eq!(rows.len(), 10);
    assert!(warnings_summary(&merge_warnings(&[])).is_empty());
}

#[test]
fn fixtures_of_all_workers_are_put_together() {
    let stat = |name: &str, scope: &str, count: u64, total: f64| FixtureStat {
        name: name.to_string(),
        scope: scope.to_string(),
        count,
        total: d(total),
    };
    let merged = merge_fixtures(&[
        stat("db", "session", 1, 2.0),
        stat("app", "module", 4, 1.0),
        stat("db", "session", 1, 3.0),
    ]);
    assert_eq!(merged.len(), 2);
    assert_eq!((merged[0].name.as_str(), merged[0].count), ("app", 4));
    assert_eq!((merged[1].name.as_str(), merged[1].count), ("db", 2));
    assert_eq!(merged[1].totals, vec![d(2.0), d(3.0)]);
}

#[test]
fn quarantined_tests_stop_counting() {
    assert_eq!(glob_pattern("a.py::t[*]"), r"^a\.py::t\[.*\]$");
    let patterns = quarantine_patterns("# known\n\n  a.py::*  \nb.py::t[1]\n");
    assert_eq!(patterns, v(&[r"^a\.py::.*$", r"^b\.py::t\[1\]$"]));
    let failed = v(&["a.py::x", "b.py::t[1]", "b.py::t[2]", "aXpy::y"]);
    assert_eq!(quarantined(&patterns, &failed), Some(v(&["a.py::x", "b.py::t[1]"])));
    assert_eq!(quarantined(&v(&["("]), &failed), None);
    assert_eq!(pick_matching(&v(&["a", "b"]), &[false, true]), v(&["b"]));
    assert_eq!(no_patterns("q.txt"), "rstest: --quarantine: q.txt lists no patterns");
    assert_eq!(status_after(2, 1, true), 0);
    assert_eq!(status_after(2, 1, false), 1);
    assert_eq!(status_after(0, 1, true), 1);
    assert_eq!(status_after(2, 3, true), 3);
}

#[test]
fn a_suite_is_described_for_tools() {
    let doc = discovery_doc(
        &v(&["tests/a.py::x", "tests/a.py::y"]),
        &[("tests/a.py".to_string(), Some(3))],
        &[v(&["slow"])],
        vec![("b.py".to_string(), "SyntaxError".to_string())],
        "/r",
        false,
    );
    assert_eq!((doc.count, doc.schema, doc.kind.as_str()), (2, 1, "discovery"));
    assert_eq!(doc.tests[0].file, "/r/tests/a.py");
    assert_eq!(doc.tests[0].lineno, Some(3));
    assert_eq!(doc.tests[0].markers, v(&["slow"]));
    assert_eq!(doc.tests[1].lineno, None);
    assert_eq!(doc.collect_errors.len(), 1);
    assert_eq!(strip_verbatim(r"\\?\C:\x"), r"C:\x");
    assert_eq!(strip_verbatim("/x"), "/x");
}

#[test]
fn a_digest_is_the_one_everybody_computes() {
    assert_eq!(
        content_hash(b"abc"),
        "ba7816bf8f01cfea414140de5dae2223b00361a396177a9cb410ff61f20015ad"
    );
}

#[test]
fn numbers_are_written_and_read_back() {
    for n in [0, 7, 10, 4096, u64::MAX] {
        assert_eq!(parse_u64(&dec(n)), Some(n));
    }
    assert_eq!(parse_u64("+5"), Some(5));
    assert_eq!(parse_u64("18446744073709551616"), None);
    assert_eq!(parse_u64(""), None);
    assert_eq!(parse_u8("256"), None);
    assert_eq!(dec_signed(i64::MIN), "-9223372036854775808");
    assert_eq!(hex(0xdead_beef), "deadbeef");
}

#[test]
fn numbers_are_written_with_fixed_digits() {
    for x in [0.0, 0.05, 0.125, 1.005, 2.5, 59.96, 1234.5678, 1e15, -0.04, 0.00004999] {
        for digits in 0..=4u8 {
            assert_eq!(d(x).fixed(digits), format!("{:.*}", digits as usize, x), "{x} {digits}");
        }
    }
    assert_eq!(d(f64::INFINITY).fixed(1), "inf");
    assert_eq!(d(f64::NAN).fixed(1), "NaN");
}

#[test]
fn numbers_are_compared_as_numbers() {
    let all = [f64::NEG_INFINITY, -2.5, -0.0, 0.0, 1e-9, 0.6, 1.0, 60.0, f64::INFINITY, f64::NAN];
    for a in all {
        for b in all {
            assert_eq!(d(a).lt(&d(b)), a < b, "{a} {b}");
            assert_eq!(d(a).eq_num(&d(b)), a == b, "{a} {b}");
            assert_eq!(d(a).ge(&d(b)), a >= b, "{a} {b}");
        }
        assert_eq!(d(a).is_nan(), a.is_nan());
    }
    for n in [0u64, 1, 3, 4097, 1 << 53, u64::MAX] {
        assert_eq!(Double::from_count(n), d(n as f64), "{n}");
    }
    assert_eq!(d(0.5).half(), d(0.25));
}

#[test]
fn paths_are_joined_and_taken_apart() {
    assert_eq!(path_join(false, "/a", "b/c"), "/a/b/c");
    assert_eq!(path_join(false, "/a/", "b"), "/a/b");
    assert_eq!(path_join(false, "/a", "/b"), "/b");
    assert_eq!(components(false, "a//b/./c/"), v(&["a", "b", "c"]));
    assert_eq!(file_name(false, "a/b.py"), Some("b.py".to_string()));
    assert_eq!(file_name(false, ".."), None);
    assert_eq!(relative_to(false, "/r/a/b", "/r"), Some("a/b".to_string()));
    assert_eq!(relative_to(false, "/x/a", "/r"), None);
}

#[test]
fn the_order_of_workers_does_not_change_the_counts() {
    let one = merge_warnings(&[warning(9, 1), warning(2, 2), warning(9, 3)]);
    let other = merge_warnings(&[warning(9, 3), warning(9, 1), warning(2, 2)]);
    let rows = |m| -> Vec<String> {
        warnings_summary(m)
            .iter()
            .map(|row| row.iter().map(|s| s.text.as_str()).collect())
            .collect()
    };
    assert_eq!(rows(&one), rows(&other));
}
