//! The decisions of a run.

use rstest_cli::config::RstestSettings;
use rstest_cli::double::Double;
use rstest_cli::doctor::gate::GateOutcome;
use rstest_cli::merged::WarningEntry;
use rstest_cli::run::finish::{
    diagnoses, ending, failure_wrap, final_status, gate_report, last_failed, plain_id, remembers,
    reports_coverage, results, slow_report, summary, Ending, FailureWrap, Tally,
};
use rstest_cli::run::monorepo::{
    budget, child_args, headline, impact_line, project_key, refuse, report_part_name, sum_up,
    Child, Impact,
};
use rstest_cli::run::plan::{
    auto_workers, bad_rerun_pattern, banner, choose_mode, collect_lazy, dist_of, lazy_workers, notes,
    parse_numprocesses, plan, route, shard_of, shuffle_seed, steals, verbosity, Choices,
    Collection, Dist, Mode, Plan, PlanError, Route,
};
use rstest_cli::run::run;
use rstest_cli::run::select::{
    after_changes, diff_base, effective_changed, is_monorepo, part_args, Affected, Step,
};

fn v(names: &[&str]) -> Vec<String> {
    names.iter().map(|s| s.to_string()).collect()
}

fn some(s: &str) -> Option<String> {
    Some(s.to_string())
}

fn d(x: f64) -> Double {
    Double { bits: x.to_bits() }
}

fn choices() -> Choices {
    Choices {
        numprocesses: None,
        dist: None,
        reruns: None,
        reruns_only_known_flaky: false,
        worker_timeout: None,
        collect: None,
    }
}

fn planned(c: Choices, args: &[&str]) -> Plan {
    match plan(&c, &RstestSettings::default(), &v(args), 4) {
        Ok(p) => p,
        Err(_) => panic!("refused"),
    }
}

#[test]
fn every_way_of_handing_out_tests_has_a_name() {
    for dist in [Dist::Load, Dist::Loadfile, Dist::Loadscope, Dist::Loadgroup, Dist::Each] {
        assert_eq!(dist_of(&dist.name()), Some(dist));
    }
    assert_eq!(dist_of("no"), None);
}

#[test]
fn workers_are_a_number_or_auto() {
    assert_eq!(parse_numprocesses("auto", 6), Some(6));
    assert_eq!(parse_numprocesses("3", 6), Some(3));
    assert_eq!(parse_numprocesses("three", 6), None);
    assert_eq!(auto_workers(8, Some(3), None), 3);
    assert_eq!(auto_workers(8, Some(0), None), 8);
    assert_eq!(auto_workers(8, Some(5), Some(2)), 2);
    assert_eq!(auto_workers(8, None, Some(0)), 1);
    assert_eq!(auto_workers(0, None, None), 1);
}

#[test]
fn the_command_line_goes_before_the_settings() {
    let p = planned(choices(), &[]);
    assert_eq!((p.workers, p.dist, p.reruns), (4, Dist::Load, 0));
    assert!(!p.passthrough && !p.rerun_pool);
    let settings = RstestSettings {
        numprocesses: some("2"),
        dist: some("loadfile"),
        reruns: Some(3),
        ..RstestSettings::default()
    };
    let from_settings = plan(&choices(), &settings, &[], 4).ok().unwrap();
    assert_eq!(from_settings.workers, 2);
    assert_eq!(from_settings.dist, Dist::Loadfile);
    assert_eq!(from_settings.reruns, 3);
    let c = Choices { numprocesses: some("7"), dist: some("each"), ..choices() };
    let from_both = plan(&c, &settings, &[], 4).ok().unwrap();
    assert_eq!((from_both.workers, from_both.dist), (7, Dist::Each));
}

#[test]
fn a_plan_is_refused_with_a_reason() {
    let bad_dist = Choices { dist: some("worksteal"), ..choices() };
    assert!(matches!(
        plan(&bad_dist, &RstestSettings::default(), &[], 4),
        Err(PlanError::Dist(t))
            if t == "unknown --dist mode: worksteal (use load|loadfile|loadscope|loadgroup|each)"
    ));
    let bad_workers = Choices { numprocesses: some("lots"), ..choices() };
    assert!(matches!(
        plan(&bad_workers, &RstestSettings::default(), &[], 4),
        Err(PlanError::Workers(t)) if t == "lots"
    ));
}

#[test]
fn one_worker_runs_tests_again_in_a_pool() {
    let p = planned(Choices { numprocesses: some("0"), reruns: Some(2), ..choices() }, &[]);
    assert!(p.rerun_pool);
    assert_eq!(p.workers, 1);
    assert_eq!(notes(&p).len(), 1);
    let own = planned(Choices { numprocesses: some("0"), reruns: Some(2), ..choices() }, &["-s"]);
    assert!(own.passthrough && !own.rerun_pool);
    assert!(notes(&own)[0].contains("--reruns is ignored"));
    assert!(notes(&planned(choices(), &[])).is_empty());
}

#[test]
fn the_report_is_chosen_by_name_or_by_the_terminal() {
    assert_eq!(choose_mode(&None, &None, false, true), (Mode::Bar, None));
    assert_eq!(choose_mode(&None, &None, true, true), (Mode::Verbose, None));
    assert_eq!(choose_mode(&None, &None, false, false), (Mode::Dots, None));
    assert_eq!(choose_mode(&some("json"), &some("tap"), false, true), (Mode::Json, None));
    assert_eq!(choose_mode(&None, &some("tap"), false, true), (Mode::Tap, None));
    let (mode, note) = choose_mode(&some("fancy"), &None, false, true);
    assert_eq!(mode, Mode::Dots);
    assert!(note.unwrap().contains("fancy"));
    assert_eq!(verbosity(&v(&["-v"])), (true, false));
    assert_eq!(verbosity(&v(&["-q"])), (false, false));
    assert_eq!(verbosity(&v(&["-vv"])), (true, true));
}

#[test]
fn tests_are_collected_file_by_file_only_where_that_works() {
    let lazy = some("lazy");
    assert_eq!(collect_lazy(&None, &None, Dist::Load, &[]), Ok(Collection::Full));
    assert_eq!(collect_lazy(&lazy, &None, Dist::Loadfile, &[]), Ok(Collection::Lazy));
    assert_eq!(
        collect_lazy(&lazy, &None, Dist::Load, &v(&["a.py::t"])),
        Ok(Collection::FallBack)
    );
    assert!(collect_lazy(&lazy, &None, Dist::Each, &[]).is_err());
    assert!(collect_lazy(&some("eager"), &None, Dist::Load, &[]).is_err());
}

#[test]
fn a_random_order_and_a_shard_need_the_pool() {
    let pool = planned(choices(), &[]);
    let full = Ok(Collection::Full);
    assert_eq!(shuffle_seed(&None, &pool, &full, 9), Ok(None));
    assert_eq!(shuffle_seed(&some("random"), &pool, &full, 9), Ok(Some(9)));
    assert_eq!(shuffle_seed(&some("41"), &pool, &full, 9), Ok(Some(41)));
    assert!(shuffle_seed(&some("x"), &pool, &full, 9).is_err());
    let single = planned(Choices { numprocesses: some("0"), ..choices() }, &[]);
    assert!(shuffle_seed(&some("41"), &single, &full, 9).is_err());
    assert_eq!(shard_of(None, &pool, false), Ok(None));
    assert_eq!(shard_of(Some((1, 1)), &single, true), Ok(None));
    assert_eq!(shard_of(Some((2, 3)), &pool, false), Ok(Some((2, 3))));
    assert!(shard_of(Some((2, 3)), &single, false).is_err());
}

#[test]
fn a_run_takes_one_of_three_routes() {
    let pool = planned(choices(), &[]);
    assert_eq!(route(&pool, &Ok(Collection::Full)), Ok(Route::Pool));
    assert_eq!(route(&pool, &Ok(Collection::FallBack)), Ok(Route::Pool));
    assert_eq!(route(&pool, &Ok(Collection::Lazy)), Ok(Route::Lazy));
    let single = planned(Choices { numprocesses: some("0"), ..choices() }, &[]);
    assert_eq!(route(&single, &Ok(Collection::Full)), Ok(Route::Session(false)));
    assert_eq!(
        route(&planned(choices(), &["--pdb"]), &Ok(Collection::Full)),
        Ok(Route::Session(true))
    );
    let each = planned(Choices { dist: some("each"), reruns: Some(1), ..choices() }, &[]);
    assert!(route(&each, &Ok(Collection::Full)).is_err());
    assert_eq!(lazy_workers(8, 3), 3);
    assert_eq!(lazy_workers(8, 0), 1);
    assert!(steals(&some("load"), &None) && !steals(&None, &None));
}

#[test]
fn the_first_line_tells_of_the_workers() {
    let pool = planned(choices(), &[]);
    assert_eq!(
        banner(&pool, Mode::Dots, "1.2.3").unwrap(),
        "rstest 1.2.3 — 4 workers (parallel by default; -n 0 for single-worker mode)"
    );
    assert_eq!(banner(&pool, Mode::Tap, "1.2.3").unwrap(), "TAP version 13");
    assert_eq!(banner(&pool, Mode::Json, "1.2.3"), None);
}

#[test]
fn watching_excludes_running_once() {
    assert_eq!(run(false, || Ok::<(), ()>(()), || Ok(3)), Ok(3));
    assert_eq!(run(true, || Ok::<(), ()>(()), || Ok(3)), Ok(0));
    assert_eq!(run(true, || Err("stop"), || Ok(3)), Err("stop"));
}

#[test]
fn arguments_are_parted_by_what_exists() {
    let (paths, others) =
        part_args(&v(&["tests", "-k", "word", "a.py"]), &[true, false, false, true]);
    assert_eq!(paths, v(&["tests", "a.py"]));
    assert_eq!(others, v(&["-k", "word"]));
}

#[test]
fn a_monorepo_has_several_projects_and_no_configuration() {
    assert!(is_monorepo(false, false, false, 2, false));
    assert!(!is_monorepo(false, false, false, 1, false));
    assert!(is_monorepo(false, false, false, 1, true));
    assert!(!is_monorepo(true, false, false, 2, false));
    assert!(!is_monorepo(false, true, false, 2, false));
    assert!(!is_monorepo(false, false, true, 2, false));
}

#[test]
fn changes_decide_what_runs() {
    assert_eq!(effective_changed(&None, true), some("HEAD"));
    assert_eq!(effective_changed(&None, false), None);
    assert_eq!(effective_changed(&some("main"), true), some("main"));
    assert_eq!(diff_base("HEAD"), None);
    assert_eq!(diff_base("main"), some("main"));
    let args = v(&["tests", "-q"]);
    let existing = [true, false];
    match after_changes(Affected::FullRun("why".to_string()), 2, false, &args, &existing) {
        Step::Run(t, a) => {
            assert_eq!(t, "rstest: --changed falling back to full run (why)");
            assert_eq!(a, args);
        }
        Step::Stop(..) => panic!("stopped"),
    }
    match after_changes(Affected::Tests(Vec::new()), 2, true, &args, &existing) {
        Step::Stop(t, code) => {
            assert_eq!(t, "rstest: no tests affected by 2 changed file(s)");
            assert_eq!(code, 5);
        }
        Step::Run(..) => panic!("ran"),
    }
    match after_changes(Affected::Tests(v(&["a.py::x"])), 2, true, &args, &existing) {
        Step::Run(t, a) => {
            assert_eq!(t, "rstest: 2 changed file(s) -> 1 affected test target(s)");
            assert_eq!(a, v(&["a.py::x", "-q"]));
        }
        Step::Stop(..) => panic!("stopped"),
    }
}

#[test]
fn the_end_of_a_report_depends_on_its_kind() {
    assert_eq!(ending(true, Mode::Json), Ending::Silent);
    assert_eq!(ending(false, Mode::Json), Ending::Envelope);
    assert_eq!(ending(false, Mode::Tap), Ending::Plan);
    assert_eq!(ending(false, Mode::Bar), Ending::Summary(false));
    assert_eq!(ending(false, Mode::Dots), Ending::Summary(true));
    assert_eq!(failure_wrap(Mode::Gitlab), FailureWrap::GitlabSection);
    assert_eq!(failure_wrap(Mode::Buildkite), FailureWrap::BuildkiteGroup);
    assert_eq!(failure_wrap(Mode::Dots), FailureWrap::Plain);
    assert!(diagnoses(false, false, false, 1) && !diagnoses(false, false, false, 0));
    assert!(remembers(Dist::Load) && !remembers(Dist::Each));
    assert!(reports_coverage(false, &v(&["--cov=src"])));
    assert!(!reports_coverage(true, &v(&["--cov=src"])));
}

fn warning(count: u64) -> WarningEntry {
    WarningEntry {
        filename: "a.py".to_string(),
        lineno: 1,
        category: "UserWarning".to_string(),
        message: "m".to_string(),
        count,
    }
}

#[test]
fn the_summary_counts_warnings() {
    assert_eq!(
        summary("3 passed", &[warning(2), warning(1)], &d(1.234)),
        "3 passed, 3 warnings in 1.23s"
    );
    assert_eq!(summary("3 passed", &[], &d(0.5)), "3 passed in 0.50s");
}

#[test]
fn a_bar_is_followed_by_the_number_of_results() {
    let tally = Tally {
        passed: 5,
        failed: 1,
        errors: 2,
        collect_errors: 3,
        skipped: 4,
        xfailed: 6,
        xpassed: 7,
    };
    assert_eq!(tally.segments(), (5, 6, 17));
    assert_eq!(
        results(Mode::Bar, true, &tally, "###", &d(1.234)),
        "\nResults (1.23s):\n  ### 28/28"
    );
    assert_eq!(results(Mode::Bar, false, &tally, "###", &d(1.234)), "");
    assert_eq!(results(Mode::Dots, true, &tally, "###", &d(1.234)), "");
}

#[test]
fn the_gate_says_what_was_breached_or_that_all_passed() {
    let good = GateOutcome { breaches: Vec::new(), skipped: v(&["wait_pct: no data"]) };
    let (report, failed) = gate_report(&good, 2);
    assert!(!failed);
    assert_eq!(
        report.lines,
        v(&[
            "rstest: --doctor-fail-on: wait_pct: no data",
            "rstest: --doctor-fail-on: all 2 condition(s) passed",
        ])
    );
    let bad = GateOutcome { breaches: v(&["x > 1"]), skipped: Vec::new() };
    let (report, failed) = gate_report(&bad, 2);
    assert!(failed && report.lines.is_empty());
    assert_eq!(report.failures, v(&["  x > 1"]));
}

#[test]
fn failed_tests_are_remembered_without_their_worker() {
    assert_eq!(plain_id("a.py::t [gw1]"), "a.py::t");
    assert_eq!(plain_id("a.py::t[1]"), "a.py::t[1]");
    let kept = last_failed(&v(&["a.py::t [gw0]", "a.py::t [gw1]", "b.py::u"]));
    assert_eq!(kept.to_list(), v(&["a.py::t", "b.py::u"]));
}

#[test]
fn slower_tests_are_listed_against_a_baseline() {
    assert_eq!(
        slow_report(&d(1.0), "1", true, &[]).err().unwrap(),
        "--durations-regress ratio must be > 1.0, got 1"
    );
    let rows = [("a.py::t".to_string(), d(1.0), d(3.5))];
    let r = slow_report(&d(2.0), "2", true, &rows).ok().unwrap();
    assert_eq!(r.slower, 1);
    assert_eq!(r.rows[1], "     1.00s ->    3.50s  a.py::t");
    let none = slow_report(&d(2.0), "2", true, &[]).ok().unwrap();
    assert_eq!(none.notes[0], "rstest: --durations-regress: no regressions (>= 2x baseline)");
    let cold = slow_report(&d(2.0), "2", false, &rows).ok().unwrap();
    assert_eq!(cold.slower, 0);
    assert!(cold.notes[0].contains("no duration baseline yet"));
}

#[test]
fn a_run_succeeds_only_where_everything_does() {
    assert_eq!(final_status(0, Some(true), 0, false), (Vec::new(), 0));
    assert_eq!(final_status(0, Some(false), 0, false).1, 1);
    assert_eq!(final_status(0, None, 2, false).1, 1);
    assert_eq!(final_status(0, None, 0, true).1, 1);
    assert_eq!(final_status(5, Some(false), 0, true).1, 5);
    assert_eq!(
        final_status(0, None, 2, false).0,
        v(&["rstest: 2 duration regressions vs baseline (--durations-regress)"])
    );
}

#[test]
fn several_projects_refuse_what_needs_one_session() {
    assert!(refuse(&v(&["-s"]), false, &None).unwrap().contains("single pytest session"));
    assert!(refuse(&[], true, &None).unwrap().contains("--watch"));
    assert!(refuse(&[], false, &some("json")).unwrap().contains("--output json"));
    assert!(refuse(&[], false, &some("tap")).unwrap().contains("--output tap"));
    assert_eq!(refuse(&[], false, &some("dots")), None);
}

#[test]
fn projects_share_the_workers() {
    assert_eq!(project_key(&some("libs/a"), "/repo/libs/a"), "libs/a");
    assert_eq!(project_key(&some("libs\\a"), "C:\\repo\\libs\\a"), "libs/a");
    assert_eq!(project_key(&None, "/other/a"), "/other/a");
    assert_eq!(budget(&None, 6), 6);
    assert_eq!(budget(&some("3"), 6), 3);
    assert_eq!(budget(&some("0"), 6), 1);
    assert_eq!(budget(&some("lots"), 6), 4);
    assert_eq!(
        headline("1.2.3", &v(&["a", "b"]), &[3, 1], 4),
        "rstest 1.2.3 — monorepo: 2 projects, 4 workers (a:-n3, b:-n1)"
    );
    assert_eq!(
        impact_line(5, &[Impact::Direct, Impact::Dependent, Impact::Unaffected]),
        "rstest: --changed: 5 changed file(s) -> 2 of 3 projects affected"
    );
    assert_eq!(report_part_name("7", "libs-a"), "rstest-mono-7-libs-a.json");
}

fn child() -> Child {
    Child {
        share: 2,
        python: None,
        dist: some("loadfile"),
        output: None,
        reruns: Some(1),
        quarantine: None,
        only_rerun: v(&["Timeout"]),
        worker_timeout: Some(60),
        doctor: true,
        changed: some("main"),
        changed_strict: true,
        junitxml: None,
        report_json: some("/tmp/r.json"),
        doctor_json: None,
        doctor_md: None,
        doctor_fail_on: v(&["wait_pct>50"]),
    }
}

#[test]
fn a_project_gets_the_flags_of_the_run() {
    assert_eq!(
        child_args(&child(), Impact::Direct, &v(&["-q"])),
        v(&[
            "-n", "2", "--dist", "loadfile", "--reruns", "1", "--only-rerun", "Timeout",
            "--worker-timeout", "60", "--doctor", "--changed=main", "--changed-strict",
            "--report-json", "/tmp/r.json", "--doctor-fail-on", "wait_pct>50", "-q",
        ])
    );
    let dependent = child_args(&child(), Impact::Dependent, &[]);
    assert!(!dependent.iter().any(|a| a.starts_with("--changed")));
}

#[test]
fn a_silent_project_counts_as_broken() {
    let keys = v(&["a", "b", "c"]);
    let impacts = [Impact::Direct, Impact::Unaffected, Impact::Dependent];
    let (lines, codes) = sum_up(&keys, &impacts, &[Some(0), None, None], false);
    assert_eq!(codes, vec![0, 3]);
    assert!(lines[1].ends_with(" ok"), "{lines:?}");
    assert!(lines[2].ends_with("skipped (no changes)"));
    assert!(lines[3].ends_with("FAILED (exit 3)"));
    let all = [Impact::Unaffected; 3];
    let (lines, codes) = sum_up(&keys, &all, &[None, None, None], true);
    assert_eq!(codes, vec![5]);
    assert_eq!(lines.last().unwrap(), "no projects affected by the change set");
    assert_eq!(sum_up(&keys, &all, &[None, None, None], false).1, vec![0]);
}

#[test]
fn patterns_of_errors_are_regular_expressions() {
    assert_eq!(bad_rerun_pattern(&v(&["Timeout.*", "Connection(Reset|Refused)"])), None);
    assert_eq!(bad_rerun_pattern(&v(&["ok", "(open", "[open"])), Some(1));
    assert_eq!(bad_rerun_pattern(&[]), None);
}
