//! What is known of one test.

use rstest_cli::coverage_skip::{CoverageFile, CoverageIndex};
use rstest_cli::double::Double;
use rstest_cli::explain::{
    ago, exit_code, footprint, gather, render, render_not_found, suggestions, Coverage,
    ExplainReport, Span,
};
use rstest_cli::flakes::FlakeStats;
use rstest_cli::ordered_map::{OrderedMap, TextSet};

fn d(x: f64) -> Double {
    Double { bits: x.to_bits() }
}

fn file(hash: &str, lines: &[(u32, &[&str])]) -> CoverageFile {
    let mut m = OrderedMap::new();
    for (n, ids) in lines {
        m.insert(*n, ids.iter().map(|s| s.to_string()).collect());
    }
    CoverageFile { hash: hash.to_string(), lines: m }
}

fn index_with(nodeid: &str) -> CoverageIndex {
    let mut files = OrderedMap::new();
    files.insert("src/a.py".to_string(), file("h", &[(1, &[nodeid, "other::t"]), (2, &[nodeid])]));
    files.insert("src/b.py".to_string(), file("h2", &[(9, &["other::t"])]));
    CoverageIndex { schema: 1, files }
}

/// Lines as they are printed without styles.
fn plain(lines: &[Vec<Span>]) -> Vec<String> {
    lines.iter().map(|l| l.iter().map(|s| s.text.as_str()).collect()).collect()
}

fn report(nodeid: &str) -> ExplainReport {
    ExplainReport {
        nodeid: nodeid.to_string(),
        found: true,
        duration_seconds: None,
        passed: false,
        source_line: None,
        flakes: None,
        coverage: None,
    }
}

const NOW: u64 = 1_700_000_000;

fn full_report() -> ExplainReport {
    ExplainReport {
        duration_seconds: Some(d(0.12345)),
        passed: true,
        source_line: Some(42),
        flakes: Some(FlakeStats {
            flaky: 2,
            failed: 1,
            last_epoch: NOW - 3 * 60 * 60,
        }),
        coverage: Some(Coverage {
            file_count: 2,
            line_count: 7,
            files: vec!["src/a.py".to_string(), "src/b.py".to_string()],
        }),
        ..report("tests/test_x.py::TestC::test_m[a::b]")
    }
}

#[test]
fn footprint_inverts_index_for_one_test() {
    let idx = index_with("t/x.py::test_a");
    let cov = footprint(&idx, "t/x.py::test_a").expect("covers something");
    assert_eq!(cov.file_count, 1);
    assert_eq!(cov.files, vec!["src/a.py".to_string()]);
    assert_eq!(cov.line_count, 2);
}

#[test]
fn footprint_none_when_test_covers_nothing() {
    let idx = index_with("t/x.py::test_a");
    assert!(footprint(&idx, "t/x.py::test_absent").is_none());
}

#[test]
fn ago_buckets() {
    let now = 100 * 24 * 60 * 60;
    assert_eq!(ago(now, now), "just now");
    assert_eq!(ago(now - 120, now), "2m ago");
    assert_eq!(ago(now - 3 * 60 * 60, now), "3h ago");
    assert_eq!(ago(now - 5 * 24 * 60 * 60, now), "5d ago");
    assert_eq!(ago(now + 999, now), "just now");
}

#[test]
fn ago_bucket_boundaries() {
    let now = 100 * 24 * 60 * 60;
    assert_eq!(ago(now - 59, now), "just now");
    assert_eq!(ago(now - 60, now), "1m ago");
    assert_eq!(ago(now - (60 * 60 - 1), now), "59m ago");
    assert_eq!(ago(now - 60 * 60, now), "1h ago");
    assert_eq!(ago(now - (24 * 60 * 60 - 1), now), "23h ago");
    assert_eq!(ago(now - 24 * 60 * 60, now), "1d ago");
    assert_eq!(ago(0, now), "100d ago");
}

#[test]
fn footprint_counts_lines_across_files_and_sorts_them() {
    let id = "t/x.py::test_a";
    let mut idx = index_with(id);
    idx.files.insert("src/0_first.py".to_string(), file("h3", &[(3, &[id]), (4, &["other::t"])]));
    let cov = footprint(&idx, id).expect("covers something");
    assert_eq!(cov.file_count, 2);
    assert_eq!(cov.line_count, 3);
    assert_eq!(cov.files, vec!["src/0_first.py", "src/a.py"]);
}

#[test]
fn footprint_matches_nodeid_exactly_not_by_prefix() {
    let mut idx = index_with("t/x.py::test_a[1]");
    idx.files.insert(
        "src/b.py".to_string(),
        file("h2", &[(9, &["other::t"]), (10, &["t/x.py::test_ab"])]),
    );
    assert!(footprint(&idx, "t/x.py::test_a").is_none());
}

#[test]
fn footprint_none_on_empty_index() {
    let idx = CoverageIndex { schema: 1, files: OrderedMap::new() };
    assert!(footprint(&idx, "t/x.py::test_a").is_none());
}

#[test]
fn render_full_dossier() {
    let lines = plain(&render(&full_report(), NOW));
    assert_eq!(lines[0], "test: tests/test_x.py::TestC::test_m[a::b]");
    assert_eq!(lines[1], "  tests/test_x.py:42");
    assert_eq!(lines[2], "");
    assert_eq!(lines[3], "  duration   0.1235s (last recorded)");
    assert_eq!(lines[4], "  outcome    passed last incremental run");
    assert_eq!(lines[5], "  flakes     flaked 2x, failed 1x (last 3h ago)");
    assert_eq!(lines[6], "  coverage   covers 2 file(s), 7 line(s):");
    assert_eq!(lines[7], "               src/a.py");
    assert_eq!(lines[8], "               src/b.py");
    assert_eq!(lines.len(), 9, "out={lines:?}");
}

#[test]
fn render_placeholders_for_absent_sections() {
    let r = ExplainReport { duration_seconds: Some(d(1.0)), ..report("t/x.py::test_a") };
    let lines = plain(&render(&r, NOW));
    assert_eq!(lines[0], "test: t/x.py::test_a");
    assert_eq!(lines[1], "");
    assert_eq!(lines[2], "  duration   1.0000s (last recorded)");
    assert_eq!(lines[3], "  outcome    no last-green record");
    assert_eq!(lines[4], "  flakes     no flake/fail history");
    assert!(lines[5].starts_with("  coverage   cold"), "{}", lines[5]);
    assert!(lines[5].contains("--cov-context=test"));
    assert_eq!(lines.len(), 6, "out={lines:?}");
}

#[test]
fn render_no_cached_timing() {
    let r = ExplainReport { passed: true, ..report("t/x.py::test_a") };
    let lines = plain(&render(&r, NOW));
    assert!(lines.contains(&"  duration   no cached timing".to_string()), "out={lines:?}");
}

#[test]
fn render_flakes_only_failed_or_only_flaky_or_neither() {
    let flakes = |flaky, failed| {
        let r = ExplainReport {
            flakes: Some(FlakeStats { flaky, failed, last_epoch: NOW }),
            ..report("t/x.py::test_a")
        };
        plain(&render(&r, NOW))
    };
    let out = flakes(0, 4);
    assert!(out.contains(&"  flakes     failed 4x (last just now)".to_string()), "out={out:?}");
    let out = flakes(3, 0);
    assert!(out.contains(&"  flakes     flaked 3x (last just now)".to_string()), "out={out:?}");
    let out = flakes(0, 0);
    assert!(out.contains(&"  flakes     no events (last just now)".to_string()), "out={out:?}");
}

#[test]
fn render_not_found_goes_to_stderr_only() {
    let nodeid = "zz/\u{1f600}_nope.py::never_seen";
    let none = suggestions(nodeid, 5, &OrderedMap::new(), &OrderedMap::new());
    let err = plain(&render_not_found(nodeid, &none)).join("\n");
    assert!(err.contains(&format!("explain: no cached data for {nodeid}")), "err={err}");
    assert!(err.contains("FAILED"), "err={err}");
    assert!(!err.contains("did you mean"), "err={err}");
    assert_eq!(exit_code(false, false), 1);
    assert_eq!(exit_code(false, true), 0);
    assert_eq!(exit_code(true, false), 0);
}

#[test]
fn ids_that_hold_the_text_are_suggested_in_order() {
    let mut durations = OrderedMap::new();
    for id in ["t/z.py::test_pay", "t/a.py::test_pay", "t/a.py::test_other"] {
        durations.insert(id.to_string(), d(1.0));
    }
    let mut flakes = OrderedMap::new();
    flakes.insert(
        "t/m.py::test_pay".to_string(),
        FlakeStats { flaky: 1, failed: 0, last_epoch: 0 },
    );
    let hits = suggestions("pay", 2, &durations, &flakes);
    assert_eq!(hits, vec!["t/a.py::test_pay", "t/m.py::test_pay"]);
    let err = plain(&render_not_found("pay", &hits));
    assert_eq!(err[1], "  did you mean:");
    assert_eq!(err[2], "    t/a.py::test_pay");
}

#[test]
fn everything_cached_of_a_test_is_gathered() {
    let id = "t/x.py::test_a".to_string();
    let mut durations = OrderedMap::new();
    durations.insert(id.clone(), d(2.0));
    let mut lines = OrderedMap::new();
    lines.insert(id.clone(), 41);
    let mut green = TextSet::new();
    green.insert(id.clone());
    let r = gather(&id, &durations, &OrderedMap::new(), &green, &lines, &Some(index_with(&id)));
    assert!(r.found && r.passed);
    assert_eq!(r.duration_seconds, Some(d(2.0)));
    assert_eq!(r.source_line, Some(42));
    assert!(r.flakes.is_none());
    assert_eq!(r.coverage.map(|c| c.line_count), Some(2));
    let none: OrderedMap<String, u64> = OrderedMap::new();
    let absent = gather(
        &"t/y.py::test_b".to_string(),
        &durations,
        &OrderedMap::new(),
        &green,
        &none,
        &Some(index_with(&id)),
    );
    assert!(!absent.found);
    assert!(absent.coverage.is_none() && absent.source_line.is_none());
}
