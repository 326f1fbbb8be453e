//! What is found out about a run.

use rstest_cli::coverage_skip::{CoverageFile, CoverageIndex};
use rstest_cli::doctor::analysis::{
    analyze, busiest_first, detect_leaks, group, load_extremes, tell_waste, times, times_by_file,
    worker_loads, worker_names, FileTime, Measured, TestDeltas, Timed, Waited,
};
use rstest_cli::doctor::gate::{
    evaluate, metric_names, parse_condition, parse_conditions, warning, GateCondition, GateError,
    Op,
};
use rstest_cli::doctor::render::{ci_target, leak_delta, render, render_markdown, CiTarget};
use rstest_cli::doctor::report::{
    CoverageWaste, DoctorReport, FileEntry, FixtureEntry, GateTest, Leak, ParallelEfficiency,
    ParallelFloor, WaitBound, WaitTest, WorkerLoad, SCHEMA_VERSION,
};
use rstest_cli::doctor::waste::{coverage_waste, WasteTest};
use rstest_cli::double::Double;
use rstest_cli::ordered_map::OrderedMap;

fn d(x: f64) -> Double {
    Double { bits: x.to_bits() }
}

fn f(x: &Double) -> f64 {
    f64::from_bits(x.bits)
}

/// The sum of some times.
fn total(times: &[Double]) -> Double {
    d(times.iter().map(f).sum())
}

fn report(tests: usize) -> DoctorReport {
    DoctorReport {
        schema: SCHEMA_VERSION,
        rstest_version: "test".to_string(),
        workers: 4,
        wall_seconds: d(9.0),
        tests,
        test_time_seconds: d(30.0),
        cpu_time_seconds: d(6.0),
        wait_bound: Some(WaitBound {
            wait_seconds: d(24.0),
            wait_pct: d(80.0),
            tests: vec![WaitTest {
                nodeid: "tests/test_a.py::test_sleepy".to_string(),
                duration: d(5.1),
                wait: d(5.0),
            }],
        }),
        parallel_floor: Some(ParallelFloor {
            longest_seconds: d(8.4),
            ideal_share_seconds: d(7.5),
            gate_tests: vec![GateTest {
                nodeid: "tests/test_a.py::test_long".to_string(),
                duration: d(8.4),
            }],
        }),
        parallel_efficiency: Some(ParallelEfficiency {
            realized_speedup: d(3.3),
            ideal_speedup: 4,
            efficiency_pct: d(82.5),
            workers_busy: vec![
                WorkerLoad { worker: "gw0".to_string(), busy_seconds: d(16.0), tests: 6 },
                WorkerLoad { worker: "gw1".to_string(), busy_seconds: d(14.0), tests: 6 },
            ],
            imbalance_pct: d(12.5),
            long_pole_seconds: d(8.4),
        }),
        fixtures: vec![FixtureEntry {
            name: "db".to_string(),
            scope: "session".to_string(),
            count: 4,
            total_seconds: d(6.1),
        }],
        slowest_files: vec![FileEntry {
            file: "tests/test_a.py".to_string(),
            total_seconds: d(20.0),
            pct: d(66.7),
        }],
        coverage_waste: Some(CoverageWaste {
            wasted_seconds: d(12.0),
            redundant_tests: 1,
            tests: vec![WasteTest {
                nodeid: "tests/test_a.py::test_redundant".to_string(),
                duration: d(12.0),
                covered_lines: 40,
                also_covered_by: 3,
            }],
        }),
        leaks: Vec::new(),
    }
}

/// What was measured of tests, each on a worker and with a duration. The arithmetic is
/// done on floating-point numbers.
fn measured(tests: &[(&str, &str, f64)], wall: f64, workers: usize) -> Measured {
    let test_time: f64 = tests.iter().map(|t| t.2).sum();
    let timed: Vec<Timed> = tests
        .iter()
        .map(|t| Timed {
            nodeid: t.0.to_string(),
            duration: d(t.2),
            worker: Some(t.1.to_string()),
            waited: None,
        })
        .collect();
    let sum = |v: &Vec<Double>| v.iter().map(f).sum::<f64>();
    let by_worker = group(&worker_names(&timed), &times(&timed));
    let sums: Vec<Double> = (0..by_worker.len()).map(|i| d(sum(by_worker.at(i).1))).collect();
    let loads = worker_loads(&by_worker, &sums);
    let mut busy = OrderedMap::new();
    for l in &loads {
        busy.insert(l.worker.clone(), l.busy_seconds);
    }
    let (max, min) = load_extremes(&busiest_first(&loads), workers);
    let (max, min) = (f(&max), f(&min));
    let by_file = times_by_file(&timed);
    let mut spent = OrderedMap::new();
    for i in 0..by_file.len() {
        let (file, v) = by_file.at(i);
        let time = FileTime { total: d(sum(v)), pct: d(100.0 * sum(v) / test_time) };
        spent.insert(file.clone(), time);
    }
    let realized = test_time / wall;
    Measured {
        version: "test".to_string(),
        workers,
        wall: d(wall),
        test_time: d(test_time),
        cpu_time: d(0.0),
        wait: d(0.0),
        wait_pct: d(0.0),
        tests: timed,
        ideal: d(test_time / workers as f64),
        busy,
        realized_speedup: d(realized),
        efficiency_pct: d(100.0 * realized / workers as f64),
        imbalance_pct: d(if max > 0.0 { 100.0 * (max - min) / max } else { 0.0 }),
        fixtures: Vec::new(),
        spent,
        deltas: Vec::new(),
    }
}

fn efficiency(tests: &[(&str, &str, f64)], wall: f64, workers: usize) -> ParallelEfficiency {
    analyze(measured(tests, wall, workers), None, &total)
        .parallel_efficiency
        .expect("multi-worker run has efficiency")
}

fn near(a: &Double, b: f64) -> bool {
    (f(a) - b).abs() < 1e-6
}

#[test]
fn detect_leaks_flags_positive_deltas_worst_first() {
    let t = |id: &str, threads: Option<i64>, fds: Option<i64>| TestDeltas {
        nodeid: id.to_string(),
        threads,
        fds,
    };
    let leaks = detect_leaks(&[
        t("t.py::clean", None, None),
        t("t.py::released", Some(0), Some(0)),
        t("t.py::one_fd", None, Some(1)),
        t("t.py::big", Some(3), Some(2)),
        t("t.py::negative", Some(-1), None),
    ]);
    let ids: Vec<&str> = leaks.iter().map(|l| l.nodeid.as_str()).collect();
    assert_eq!(ids, vec!["t.py::big", "t.py::one_fd"], "only real leaks, worst first");
    assert_eq!((leaks[0].threads, leaks[0].fds), (3, 2));
}

#[test]
fn doctor_all_work_on_one_worker_reports_max_imbalance() {
    let pe = efficiency(
        &[
            ("t.py::t0", "gw0", 2.0),
            ("t.py::t1", "gw0", 2.0),
            ("t.py::t2", "gw0", 2.0),
            ("t.py::t3", "gw0", 2.0),
        ],
        8.0,
        8,
    );
    assert_eq!(pe.workers_busy.len(), 1);
    assert!(near(&pe.imbalance_pct, 100.0));
    // test_time 8.0 over wall 8.0 => 1x realized of 8x possible.
    assert!(near(&pe.realized_speedup, 1.0));
    assert_eq!(pe.ideal_speedup, 8);
    assert!(near(&pe.efficiency_pct, 12.5));
    assert!(near(&pe.long_pole_seconds, 2.0));
}

#[test]
fn mod_all_work_on_one_worker_reports_max_imbalance() {
    let pe = efficiency(
        &[
            ("t.py::t0", "gw0", 2.0),
            ("t.py::t1", "gw0", 2.0),
            ("t.py::t2", "gw0", 2.0),
            ("t.py::t3", "gw0", 2.0),
        ],
        8.0,
        8,
    );
    assert_eq!(pe.workers_busy.len(), 1);
    assert!(near(&pe.imbalance_pct, 100.0));
    // test_time 8.0 over wall 8.0 => 1x realized of 8x possible.
    assert!(near(&pe.realized_speedup, 1.0));
    assert_eq!(pe.ideal_speedup, 8);
    assert!(near(&pe.efficiency_pct, 12.5));
    assert!(near(&pe.long_pole_seconds, 2.0));
}

#[test]
fn doctor_balanced_workers_report_low_imbalance() {
    let pe = efficiency(&[("t.py::a", "gw0", 10.0), ("t.py::b", "gw1", 10.0)], 10.0, 2);
    assert_eq!(pe.workers_busy.len(), 2);
    assert!(near(&pe.imbalance_pct, 0.0));
    // 20.0s test time over 10.0s wall => 2x of 2x possible.
    assert!(near(&pe.realized_speedup, 2.0));
    assert!(near(&pe.efficiency_pct, 100.0));
}

#[test]
fn mod_balanced_workers_report_low_imbalance() {
    let pe = efficiency(&[("t.py::a", "gw0", 10.0), ("t.py::b", "gw1", 10.0)], 10.0, 2);
    assert_eq!(pe.workers_busy.len(), 2);
    assert!(near(&pe.imbalance_pct, 0.0));
    // 20.0s test time over 10.0s wall => 2x of 2x possible.
    assert!(near(&pe.realized_speedup, 2.0));
    assert!(near(&pe.efficiency_pct, 100.0));
}

#[test]
fn doctor_some_idle_workers_still_counted() {
    let pe = efficiency(
        &[("t.py::a", "gw0", 8.0), ("t.py::b", "gw1", 4.0), ("t.py::c", "gw2", 4.0)],
        9.0,
        4,
    );
    assert_eq!(pe.workers_busy.len(), 3);
    // max 8.0, min 0.0 (idle gw3) => 100%.
    assert!(near(&pe.imbalance_pct, 100.0));
}

#[test]
fn mod_some_idle_workers_still_counted() {
    let pe = efficiency(
        &[("t.py::a", "gw0", 8.0), ("t.py::b", "gw1", 4.0), ("t.py::c", "gw2", 4.0)],
        9.0,
        4,
    );
    assert_eq!(pe.workers_busy.len(), 3);
    // max 8.0, min 0.0 (idle gw3) => 100%.
    assert!(near(&pe.imbalance_pct, 100.0));
}

#[test]
fn doctor_markdown_renders_all_sections() {
    let md = render_markdown(&report(12));
    assert!(md.starts_with("## rstest doctor\n"));
    assert!(md.contains("**12 tests** — test time 30.0s (wall 9.0s, 4 workers)"));
    assert!(md.contains("**Wait-bound:** 80% of test time (24.0s)"));
    assert!(md.contains("| 5.00s | 5.10s | `tests/test_a.py::test_sleepy` |"));
    assert!(md.contains("**Parallel floor:**"));
    assert!(md.contains("| 8.40s | `tests/test_a.py::test_long` |"));
    assert!(md.contains("**Parallel efficiency:** 3.3× realized of 4× possible (82%)"));
    assert!(md.contains("| `gw0` | 16.00s | 6 |"));
    assert!(md.contains("### Fixture hotspots"));
    assert!(md.contains("| `db` | session | 4 | 6.1s | session fixture ran once per worker"));
    assert!(md.contains("### Slowest files"));
    assert!(md.contains("| `tests/test_a.py` | 20.00s | 67% |"));
}

#[test]
fn render_markdown_renders_all_sections() {
    let md = render_markdown(&report(12));
    assert!(md.starts_with("## rstest doctor\n"));
    assert!(md.contains("**12 tests** — test time 30.0s (wall 9.0s, 4 workers)"));
    assert!(md.contains("**Wait-bound:** 80% of test time (24.0s)"));
    assert!(md.contains("| 5.00s | 5.10s | `tests/test_a.py::test_sleepy` |"));
    assert!(md.contains("**Parallel floor:**"));
    assert!(md.contains("| 8.40s | `tests/test_a.py::test_long` |"));
    assert!(md.contains("**Parallel efficiency:** 3.3× realized of 4× possible (82%)"));
    assert!(md.contains("| `gw0` | 16.00s | 6 |"));
    assert!(md.contains("### Fixture hotspots"));
    assert!(md.contains("| `db` | session | 4 | 6.1s | session fixture ran once per worker"));
    assert!(md.contains("### Slowest files"));
    assert!(md.contains("| `tests/test_a.py` | 20.00s | 67% |"));
}

#[test]
fn doctor_markdown_empty_run() {
    let md = render_markdown(&report(0));
    assert!(md.contains("No timing data collected."));
    assert!(!md.contains("Wait-bound"));
}

#[test]
fn render_markdown_empty_run() {
    let md = render_markdown(&report(0));
    assert!(md.contains("No timing data collected."));
    assert!(!md.contains("Wait-bound"));
}

type LineSpec<'a> = (u32, &'a [&'a str]);
type FileSpec<'a> = (&'a str, &'a [LineSpec<'a>]);

fn cov(files: &[FileSpec]) -> CoverageIndex {
    let mut idx = CoverageIndex { schema: 1, files: OrderedMap::new() };
    for (path, lines) in files {
        let mut lm = OrderedMap::new();
        for (ln, ids) in *lines {
            lm.insert(*ln, ids.iter().map(|s| s.to_string()).collect());
        }
        idx.files.insert(path.to_string(), CoverageFile { hash: "H".to_string(), lines: lm });
    }
    idx
}

/// The waste among tests with durations, with the times added on floating-point numbers.
fn waste(pairs: &[(&str, f64)], idx: &CoverageIndex) -> Option<CoverageWaste> {
    let mut durations = OrderedMap::new();
    for (id, t) in pairs {
        durations.insert(id.to_string(), d(*t));
    }
    tell_waste(&durations, idx, &total)
}

#[test]
fn zero_unique_slow_test_is_flagged_as_waste() {
    let idx = cov(&[(
        "mod.py",
        &[
            (1, &["t.py::test_dup", "t.py::test_keep"]),
            (2, &["t.py::test_dup", "t.py::test_keep"]),
            (3, &["t.py::test_keep"]),
        ],
    )]);
    let cw = waste(&[("t.py::test_dup", 5.0), ("t.py::test_keep", 5.0)], &idx)
        .expect("a waste candidate");
    assert_eq!(cw.redundant_tests, 1);
    assert_eq!(cw.tests.len(), 1);
    assert_eq!(cw.tests[0].nodeid, "t.py::test_dup");
    assert_eq!(cw.tests[0].covered_lines, 2);
    assert_eq!(cw.tests[0].also_covered_by, 1);
    assert!(near(&cw.wasted_seconds, 5.0));
}

#[test]
fn a_fast_redundant_test_is_below_the_floor() {
    let idx = cov(&[("mod.py", &[(1, &["t.py::test_dup", "t.py::test_keep"])])]);
    assert!(waste(&[("t.py::test_dup", 0.1), ("t.py::test_keep", 0.1)], &idx).is_none());
}

#[test]
fn a_test_with_any_unique_line_is_not_waste() {
    let idx = cov(&[(
        "mod.py",
        &[(1, &["t.py::test_a", "t.py::test_b"]), (2, &["t.py::test_a"])],
    )]);
    let cw = waste(&[("t.py::test_a", 9.0), ("t.py::test_b", 9.0)], &idx)
        .expect("test_b is redundant");
    let ids: Vec<&str> = cw.tests.iter().map(|t| t.nodeid.as_str()).collect();
    assert_eq!(ids, vec!["t.py::test_b"], "only the fully-shared test");
}

#[test]
fn a_tests_own_file_lines_dont_count_as_unique_coverage() {
    let idx = cov(&[
        ("mod.py", &[(1, &["t.py::test_dup", "t.py::test_keep"])]),
        ("t.py", &[(1, &["t.py::test_dup"]), (2, &["t.py::test_keep"])]),
    ]);
    let cw = waste(&[("t.py::test_dup", 5.0), ("t.py::test_keep", 5.0)], &idx)
        .expect("still redundant on product code");
    let ids: Vec<&str> = cw.tests.iter().map(|t| t.nodeid.as_str()).collect();
    assert_eq!(ids, vec!["t.py::test_dup"], "{ids:?}");
    assert_eq!(cw.redundant_tests, 1);
    assert!(near(&cw.wasted_seconds, 5.0));
    let dup = cw.tests.iter().find(|t| t.nodeid == "t.py::test_dup").unwrap();
    assert_eq!(dup.covered_lines, 1);
}

#[test]
fn an_identical_pair_flags_only_one_and_counts_its_time_once() {
    let idx = cov(&[(
        "mod.py",
        &[
            (1, &["t.py::test_a", "t.py::test_b"]),
            (2, &["t.py::test_a", "t.py::test_b"]),
        ],
    )]);
    let cw = waste(&[("t.py::test_a", 4.0), ("t.py::test_b", 6.0)], &idx)
        .expect("one is redundant");
    let ids: Vec<&str> = cw.tests.iter().map(|t| t.nodeid.as_str()).collect();
    assert_eq!(ids, vec!["t.py::test_b"], "slowest of the pair");
    assert_eq!(cw.redundant_tests, 1);
    assert!(near(&cw.wasted_seconds, 6.0));
    assert_eq!(cw.tests[0].also_covered_by, 1);
}

#[test]
fn an_identical_triple_keeps_one_coverer() {
    let ids3: &[&str] = &["t.py::a", "t.py::b", "t.py::c"];
    let idx = cov(&[("mod.py", &[(1, ids3)])]);
    let cw = waste(&[("t.py::a", 3.0), ("t.py::b", 3.0), ("t.py::c", 3.0)], &idx)
        .expect("two are redundant");
    assert_eq!(cw.redundant_tests, 2);
    assert!(near(&cw.wasted_seconds, 6.0));
}

#[test]
fn no_coverage_index_yields_no_section() {
    let r = analyze(measured(&[("t.py::a", "gw0", 5.0)], 5.0, 1), None, &total);
    assert!(r.coverage_waste.is_none());
    assert!(r.parallel_efficiency.is_none());
}

fn number(s: &str) -> Option<Double> {
    s.parse().ok().map(d)
}

fn condition(s: &str) -> Result<GateCondition, GateError> {
    parse_condition(s, &number)
}

fn conditions(specs: &[&str]) -> Result<Vec<GateCondition>, GateError> {
    let owned: Vec<String> = specs.iter().map(|s| s.to_string()).collect();
    parse_conditions(&owned, &number)
}

fn refusal(specs: &[&str]) -> String {
    match conditions(specs) {
        Ok(_) => panic!("accepted"),
        Err(e) => e.message(),
    }
}

#[test]
fn gate_parse_rejects_unknown_metric_and_bad_grammar() {
    assert!(conditions(&["parallel_efficiency<30"]).is_ok());
    let e = refusal(&["bogus<30"]);
    assert!(e.contains("unknown metric 'bogus'"), "{e}");
    let e = refusal(&["wait_pct 50"]);
    assert!(e.contains("no comparison operator"), "{e}");
    let e = refusal(&["wait_pct>lots"]);
    assert!(e.contains("not a number"), "{e}");
}

#[test]
fn gate_parse_handles_two_char_operators() {
    let c = match condition("efficiency_pct<=30") {
        Ok(c) => c,
        Err(e) => panic!("{}", e.message()),
    };
    assert_eq!(c.metric, "efficiency_pct");
    assert_eq!(c.op, Op::Le);
    assert!((f(&c.threshold) - 30.0).abs() < 1e-9);
}

#[test]
fn gate_breaches_and_passes() {
    let r = report(12);
    let conds =
        conditions(&["parallel_efficiency<90", "wait_pct>50", "wall_seconds>100"]).ok().unwrap();
    let out = evaluate(&r, &conds);
    assert_eq!(out.breaches.len(), 2, "{:?}", out.breaches);
    assert!(out.skipped.is_empty());
    assert!(out.breaches[0].contains("parallel_efficiency = 82.50 < 90.00"));
}

#[test]
fn every_known_metric_resolves_on_a_full_report() {
    let r = report(12);
    for name in metric_names() {
        let c = condition(&format!("{name}>=0")).ok().unwrap();
        let out = evaluate(&r, &[c]);
        assert!(out.skipped.is_empty(), "metric '{name}' did not resolve");
    }
}

#[test]
fn gate_skips_absent_section_never_fails() {
    let mut r = report(4);
    r.parallel_efficiency = None;
    r.wait_bound = None;
    let conds = conditions(&["parallel_efficiency<30", "wait_pct>1"]).ok().unwrap();
    let out = evaluate(&r, &conds);
    assert!(out.breaches.is_empty(), "{:?}", out.breaches);
    assert_eq!(out.skipped.len(), 2);
}

#[test]
fn equality_of_a_measured_number_is_warned_of() {
    assert!(warning(&condition("wall_seconds==3").ok().unwrap()).is_some());
    assert!(warning(&condition("tests==3").ok().unwrap()).is_none());
    assert!(warning(&condition("wall_seconds<3").ok().unwrap()).is_none());
}

#[test]
fn render_terminal_populated_and_empty_dont_panic() {
    assert!(render(&report(12)).iter().any(|l| l.contains("tests/test_a.py::test_sleepy")));
    assert!(!render(&report(0)).iter().any(|l| l.contains("test_sleepy")));
}

#[test]
fn render_truncates_long_lists_after_eight() {
    let mut r = report(12);
    if let Some(wb) = r.wait_bound.as_mut() {
        for i in 0..9 {
            wb.tests.push(WaitTest {
                nodeid: format!("tests/test_a.py::w{i}"),
                duration: d(1.0),
                wait: d(0.5),
            });
        }
    }
    if let Some(pf) = r.parallel_floor.as_mut() {
        for i in 0..9 {
            pf.gate_tests
                .push(GateTest { nodeid: format!("tests/test_a.py::g{i}"), duration: d(1.0) });
        }
    }
    if let Some(pe) = r.parallel_efficiency.as_mut() {
        for i in 0..9 {
            pe.workers_busy.push(WorkerLoad {
                worker: format!("gw{i}"),
                busy_seconds: d(1.0),
                tests: 1,
            });
        }
    }
    for i in 0..9 {
        r.slowest_files.push(FileEntry {
            file: format!("tests/test_{i}.py"),
            total_seconds: d(1.0),
            pct: d(1.0),
        });
    }
    assert!(render(&r).iter().any(|l| l.contains("... and")));
    let md = render_markdown(&r);
    assert!(md.contains("... and"));
}

#[test]
fn leak_delta_pluralizes_and_combines() {
    let l = |threads, fds| leak_delta(&Leak { nodeid: "t".to_string(), threads, fds });
    assert_eq!(l(1, 0), "+1 thread");
    assert_eq!(l(3, 0), "+3 threads");
    assert_eq!(l(0, 1), "+1 fd");
    assert_eq!(l(0, 5), "+5 fds");
    assert_eq!(l(3, 2), "+3 threads +2 fds");
    assert_eq!(l(0, 0), "");
}

#[test]
fn leaks_render_in_terminal_and_markdown() {
    let mut r = report(12);
    r.leaks = vec![
        Leak { nodeid: "tests/test_pool.py::test_executor".to_string(), threads: 3, fds: 0 },
        Leak { nodeid: "tests/test_io.py::test_reader".to_string(), threads: 0, fds: 5 },
    ];
    assert!(render(&r).iter().any(|l| l.contains("tests/test_pool.py::test_executor")));
    let md = render_markdown(&r);
    assert!(md.contains("### Resource leaks"));
    assert!(md.contains("| +3 threads | `tests/test_pool.py::test_executor` |"));
    assert!(md.contains("| +5 fds | `tests/test_io.py::test_reader` |"));
}

#[test]
fn tests_that_wait_are_listed_longest_wait_first() {
    let row = |id: &str, duration: f64, wait: f64| Timed {
        nodeid: id.to_string(),
        duration: d(duration),
        worker: None,
        waited: Some(Waited { wait: d(wait), ratio: d(wait / duration) }),
    };
    let mut m = measured(&[("t.py::a", "gw0", 6.0)], 6.0, 1);
    m.wait = d(5.0);
    m.wait_pct = d(80.0);
    m.tests.extend([
        row("t.py::some", 1.0, 0.7),
        row("t.py::busy", 4.0, 1.0),
        row("t.py::most", 3.0, 2.9),
        row("t.py::short", 0.1, 0.1),
    ]);
    let wb = analyze(m, None, &total).wait_bound.unwrap();
    let ids: Vec<&str> = wb.tests.iter().map(|t| t.nodeid.as_str()).collect();
    assert_eq!(ids, vec!["t.py::most", "t.py::some"]);
}

#[test]
fn every_test_counts_for_one_worker() {
    let mut m = measured(
        &[("a.py::a", "gw1", 1.0), ("b.py::b", "gw0", 4.0), ("a.py::c", "gw1", 2.0)],
        4.0,
        2,
    );
    m.tests.push(Timed {
        nodeid: "c.py::d".to_string(),
        duration: d(0.5),
        worker: None,
        waited: None,
    });
    let r = analyze(m, None, &total);
    let rows: Vec<(String, usize)> = r
        .parallel_efficiency
        .unwrap()
        .workers_busy
        .iter()
        .map(|w| (w.worker.clone(), w.tests))
        .collect();
    assert_eq!(
        rows,
        vec![("gw0".to_string(), 1), ("gw1".to_string(), 2), ("serial".to_string(), 1)]
    );
    assert_eq!(rows.iter().map(|r| r.1).sum::<usize>(), r.tests);
    let files: Vec<&str> = r.slowest_files.iter().map(|f| f.file.as_str()).collect();
    assert_eq!(files, vec!["b.py", "a.py", "c.py"]);
}

#[test]
fn a_long_test_bounds_the_run_from_below() {
    let long = measured(&[("t.py::long", "gw0", 9.0), ("t.py::b", "gw1", 1.0)], 9.0, 2);
    let r = analyze(long, None, &total);
    let floor = r.parallel_floor.unwrap();
    assert!(near(&floor.longest_seconds, 9.0));
    assert!(near(&floor.ideal_share_seconds, 5.0));
    assert_eq!(floor.gate_tests.len(), 1);
    let even = measured(&[("t.py::a", "gw0", 5.0), ("t.py::b", "gw1", 5.0)], 5.0, 2);
    assert!(analyze(even, None, &total).parallel_floor.is_none());
}

#[test]
fn the_times_of_a_file_are_added_up_from_the_longest_on() {
    let timed = |id: &str, t: f64| Timed {
        nodeid: id.to_string(),
        duration: d(t),
        worker: None,
        waited: None,
    };
    let by_file = times_by_file(&[timed("a.py::x", 1.0), timed("b.py::y", 2.0), timed("a.py::z", 3.0)]);
    assert_eq!(by_file.len(), 2);
    assert_eq!(by_file.get(&"a.py".to_string()), Some(&vec![d(3.0), d(1.0)]));
    assert_eq!(by_file.get(&"b.py".to_string()), Some(&vec![d(2.0)]));
}

#[test]
fn a_report_tells_of_leaks_and_waste() {
    let idx = cov(&[("src/m.py", &[(1, &["t.py::dup", "t.py::keep"])])]);
    let report = |dup: f64, keep: f64| {
        let mut m = measured(&[("t.py::dup", "gw0", dup), ("t.py::keep", "gw0", keep)], 9.0, 1);
        let delta = |id: &str, threads| TestDeltas { nodeid: id.to_string(), threads, fds: None };
        m.deltas = vec![delta("t.py::dup", Some(-1)), delta("t.py::keep", Some(2))];
        analyze(m, Some(&idx), &total)
    };
    let r = report(5.0, 4.0);
    let cw = r.coverage_waste.expect("one of the two is redundant");
    assert_eq!(cw.redundant_tests, 1);
    assert_eq!(cw.tests[0].nodeid, "t.py::dup");
    assert!(near(&cw.wasted_seconds, 5.0));
    assert_eq!(r.leaks.len(), 1);
    assert_eq!((r.leaks[0].nodeid.as_str(), r.leaks[0].threads, r.leaks[0].fds), ("t.py::keep", 2, 0));
    // Half a second is the least that counts.
    assert!(report(0.5, 0.1).coverage_waste.is_some());
    assert!(report(0.49, 0.1).coverage_waste.is_none());
}

#[test]
fn the_shortest_waste_can_be_chosen() {
    let idx = cov(&[("src/m.py", &[(1, &["t.py::dup", "t.py::keep"])])]);
    let mut durations = OrderedMap::new();
    durations.insert("t.py::dup".to_string(), d(5.0));
    durations.insert("t.py::keep".to_string(), d(4.0));
    assert!(coverage_waste(&durations, &idx, &d(6.0)).is_none());
    let w = coverage_waste(&durations, &idx, &d(1.0)).unwrap();
    assert_eq!(w.removed, vec![("t.py::dup".to_string(), d(5.0))]);
}

#[test]
fn the_report_goes_where_the_service_wants_it() {
    let s = |v: &str| Some(v.to_string());
    assert!(matches!(ci_target(&s("/summary"), &s("true")), CiTarget::File(p) if p == "/summary"));
    assert!(matches!(ci_target(&s(""), &s("true")), CiTarget::Buildkite));
    assert!(matches!(ci_target(&None, &None), CiTarget::Nowhere));
}
