//! The search for the tests that make another one fail.

use rstest_cli::config::ConfigDir;
use rstest_cli::ddmin::ddmin;
use rstest_cli::migrate::bisect::{
    any_nested, argsfile_body, bisect, child_args, child_pins, collect_again, cwd_relative,
    error_doc, fails_alone, finding_exit, is_first, needs_bare_collection, needs_fresh_cache, passes_after,
    pinned_inifile, plan, print_report, repro_command, resolve_nodeid, selection_source,
    shell_quote, under_nested_config, verdict_doc, victim_failed, Collected, Finding, NestedDir,
    Pins, ReproCtx, Runner, Selection,
};
use rstest_cli::double::Double;
use rstest_cli::migrate::outcomes::{Phase, Rec};
use rstest_cli::ordered_map::OrderedMap;
use rstest_cli::paths::dirs_between;

fn ids(names: &[&str]) -> Vec<String> {
    names.iter().map(|s| s.to_string()).collect()
}

/// An oracle that never runs out of budget.
fn contains(
    needles: &'static [&'static str],
) -> impl FnMut(&[String]) -> Result<Option<bool>, String> {
    move |s: &[String]| Ok(Some(needles.iter().all(|n| s.iter().any(|x| x == n))))
}

#[test]
fn ddmin_finds_the_single_polluter() {
    let preds = ids(&["a", "b", "poison", "c", "d", "e"]);
    let (out, capped) = ddmin(&preds, contains(&["poison"])).unwrap();
    assert_eq!(out, ids(&["poison"]));
    assert!(!capped);
}

#[test]
fn ddmin_asks_about_proper_parts_only() {
    let preds = ids(&["a", "b", "poison", "c", "d", "e"]);
    let mut asked: Vec<Vec<String>> = Vec::new();
    let mut oracle = contains(&["poison", "d"]);
    ddmin(&preds, |s: &[String]| {
        asked.push(s.to_vec());
        oracle(s)
    })
    .unwrap();
    assert!(!asked.is_empty());
    for part in &asked {
        assert!(!part.is_empty() && part.len() < preds.len(), "{part:?}");
        let places: Vec<usize> =
            part.iter().map(|t| preds.iter().position(|p| p == t).unwrap()).collect();
        assert!(places.windows(2).all(|w| w[0] < w[1]), "{part:?}");
    }
}

#[test]
fn ddmin_keeps_an_interacting_pair() {
    let preds = ids(&["p", "x", "y", "q", "z"]);
    let (out, _) = ddmin(&preds, contains(&["p", "q"])).unwrap();
    assert!(out.contains(&"p".to_string()) && out.contains(&"q".to_string()));
    assert!(!out.contains(&"x".to_string()));
}

#[test]
fn ddmin_single_element_is_returned_as_is() {
    let preds = ids(&["only"]);
    let (out, capped) =
        ddmin(&preds, |s: &[String]| Ok::<_, String>(Some(!s.is_empty()))).unwrap();
    assert_eq!(out, ids(&["only"]));
    assert!(!capped);
}

#[test]
fn ddmin_propagates_oracle_errors() {
    let preds = ids(&["a", "b"]);
    let r = ddmin(&preds, |_: &[String]| Err("boom"));
    assert!(r.is_err());
}

#[test]
fn ddmin_propagates_errors_from_the_complement_pass() {
    let preds = ids(&["a", "b", "c"]);
    let mut calls = 0;
    let r = ddmin(&preds, |_: &[String]| {
        calls += 1;
        if calls > 5 {
            Err("boom")
        } else {
            Ok(Some(false))
        }
    });
    assert!(r.is_err());
    assert_eq!(calls, 6);
}

#[test]
fn ddmin_never_asks_the_same_set_twice_at_two_chunks() {
    let preds = ids(&["p", "a", "b", "c", "q", "d"]);
    let mut asked: Vec<Vec<String>> = Vec::new();
    let mut oracle = contains(&["p", "q"]);
    let (out, _) = ddmin(&preds, |s: &[String]| {
        asked.push(s.to_vec());
        oracle(s)
    })
    .unwrap();
    assert_eq!(out, ids(&["p", "q"]));
    assert_eq!(asked[0], ids(&["p", "a", "b"]));
    assert_eq!(asked[1], ids(&["c", "q", "d"]));
    assert_ne!(asked[2], asked[1]);
    assert_ne!(asked[2], asked[0]);
}

#[test]
fn ddmin_empty_input_asks_nothing() {
    let (out, capped) =
        ddmin(&[], |_: &[String]| -> Result<Option<bool>, String> { panic!("oracle must not run") })
            .unwrap();
    assert!(out.is_empty());
    assert!(!capped);
}

#[test]
fn ddmin_never_interesting_returns_the_input() {
    let preds = ids(&["a", "b", "c", "d"]);
    let (out, capped) = ddmin(&preds, |_: &[String]| Ok::<_, String>(Some(false))).unwrap();
    assert_eq!(out, preds);
    assert!(!capped);
}

#[test]
fn ddmin_stops_at_once_when_the_budget_is_spent() {
    let preds: Vec<String> = (0..16).map(|i| format!("t{i}")).collect();
    let mut calls = 0;
    let (out, capped) = ddmin(&preds, |_: &[String]| {
        calls += 1;
        assert!(calls <= 2, "oracle asked after the budget ran out");
        Ok::<_, String>((calls == 1).then_some(true))
    })
    .unwrap();
    assert!(capped);
    assert_eq!(out, preds[..8].to_vec());
}

#[test]
fn ddmin_spending_the_last_run_on_a_finished_search_is_not_capped() {
    let preds = ids(&["a", "poison"]);
    let mut budget: u32 = 2;
    let mut oracle = contains(&["poison"]);
    let (out, capped) = ddmin(&preds, |s: &[String]| {
        budget = budget.checked_sub(1).expect("asked past the budget");
        oracle(s)
    })
    .unwrap();
    assert_eq!(out, ids(&["poison"]));
    assert!(!capped);
    assert_eq!(budget, 0);
}

#[test]
fn ddmin_stops_when_the_budget_runs_out_in_the_complement_pass() {
    let preds = ids(&["a", "b", "c", "d"]);
    let mut calls = 0;
    let (out, capped) = ddmin(&preds, |_: &[String]| {
        calls += 1;
        Ok::<_, String>(if calls <= 6 { Some(false) } else { None })
    })
    .unwrap();
    assert!(capped);
    assert_eq!(out, preds);
    assert_eq!(calls, 7, "no ask after the budget ran out");
}

#[test]
fn ddmin_finds_the_last_polluter_in_a_long_list() {
    let names: Vec<String> = (0..37).map(|i| format!("t{i}")).collect();
    let (out, _) = ddmin(&names, contains(&["t36"])).unwrap();
    assert_eq!(out, ids(&["t36"]));
}

#[test]
fn ddmin_pair_is_exactly_one_minimal() {
    let preds = ids(&["a", "p", "b", "c", "q", "d", "e"]);
    let (out, _) = ddmin(&preds, contains(&["p", "q"])).unwrap();
    assert_eq!(out, ids(&["p", "q"]));
}

#[test]
fn reproduces_with_no_budget_runs_nothing() {
    let mut r = Runner { victim: "t::v".to_string(), budget: 0 };
    assert_eq!(r.next_run(&ids(&["t::a"])), None);
    assert_eq!(r.budget, 0);
}

#[test]
fn a_run_costs_one_and_ends_with_the_victim() {
    let mut r = Runner { victim: "t::v".to_string(), budget: 2 };
    assert_eq!(r.next_run(&ids(&["t::a"])), Some(ids(&["t::a", "t::v"])));
    assert_eq!(r.budget, 1);
}

fn rec(phase: Phase) -> Rec {
    Rec { phase, wall: Double { bits: 0 }, cpu: None }
}

#[test]
fn victim_failed_reads_the_victims_phase() {
    let mut out = OrderedMap::new();
    out.insert("t::bad".to_string(), rec(Phase::Fail));
    out.insert("t::ok".to_string(), rec(Phase::Pass));
    assert!(victim_failed(&out, &"t::bad".to_string()).unwrap());
    assert!(!victim_failed(&out, &"t::ok".to_string()).unwrap());
}

#[test]
fn victim_missing_from_the_run_is_an_error_not_a_pass() {
    let err = victim_failed(&OrderedMap::new(), &"t::gone".to_string()).unwrap_err();
    assert!(err.contains("t::gone did not run"), "{err}");
}

#[test]
fn argsfile_lists_absolute_ids_one_per_line() {
    let body = argsfile_body("/tmp", &ids(&["tests/a.py::t[x y]", "b.py::C::m"]), false);
    let lines: Vec<&str> = body.lines().collect();
    assert_eq!(lines.len(), 2);
    assert!(lines[0].ends_with("tests/a.py::t[x y]"), "{body}");
    assert!(lines[0].starts_with("/tmp/"));
    assert!(lines[1].ends_with("b.py::C::m"), "{body}");
}

#[test]
fn resolve_nodeid_exact_match() {
    let collected = ids(&["tests/test_a.py::t"]);
    let got = resolve_nodeid("tests/test_a.py::t", &collected, &None, "/x", false);
    assert_eq!(got.as_deref(), Some("tests/test_a.py::t"));
}

#[test]
fn resolve_nodeid_rebases_a_cwd_relative_id() {
    let collected = ids(&["tests/test_a.py::t[1]"]);
    let file = Some("/r/tests/test_a.py".to_string());
    let got = resolve_nodeid("test_a.py::t[1]", &collected, &file, "/r", false);
    let miss = resolve_nodeid("test_a.py::other", &collected, &file, "/r", false);
    let absent = resolve_nodeid("nope.py::t", &collected, &None, "/r", false);
    assert_eq!(got.as_deref(), Some("tests/test_a.py::t[1]"));
    assert_eq!(miss, None);
    assert_eq!(absent, None);
}

#[test]
fn resolve_nodeid_prefers_the_cwd_relative_reading() {
    let collected = ids(&["test_a.py::t", "tests/test_a.py::t"]);
    let below = Some("/r/tests/test_a.py".to_string());
    let from_tests = resolve_nodeid("test_a.py::t", &collected, &below, "/r", false);
    let above = Some("/r/test_a.py".to_string());
    let from_root = resolve_nodeid("test_a.py::t", &collected, &above, "/r", false);
    assert_eq!(from_tests.as_deref(), Some("tests/test_a.py::t"));
    assert_eq!(from_root.as_deref(), Some("test_a.py::t"));
}

#[test]
fn resolve_nodeid_outside_the_rootdir_is_not_found() {
    let collected = ids(&["tests/test_a.py::t"]);
    let file = Some("/r/tests/test_a.py".to_string());
    assert_eq!(resolve_nodeid("test_a.py::t", &collected, &file, "/elsewhere", false), None);
}

#[test]
fn shell_quote_leaves_safe_ids_and_quotes_the_rest() {
    assert_eq!(shell_quote("tests/a.py::t"), "tests/a.py::t");
    assert_eq!(shell_quote("-n"), "-n");
    assert_eq!(shell_quote("a.py::t[1-x]"), "'a.py::t[1-x]'");
    assert_eq!(shell_quote("a.py::t[x y]"), "'a.py::t[x y]'");
    assert_eq!(shell_quote("it's"), r"'it'\''s'");
    assert_eq!(shell_quote(""), "''");
}

#[test]
fn cwd_relative_rebases_ids_onto_the_invocation_dir() {
    assert_eq!(cwd_relative("/r", "/r", "a.py::t[1]", false), "a.py::t[1]");
    assert_eq!(cwd_relative("/r/tests/unit", "/r", "tests/int/b.py::t", false), "../int/b.py::t");
    assert_eq!(cwd_relative("/r/tests", "/r", "tests/b.py::C::m", false), "b.py::C::m");
}

#[test]
fn cwd_relative_without_a_shared_root_stays_absolute() {
    assert_eq!(cwd_relative("elsewhere", "/tmp", "t.py::x", false), "/tmp/t.py::x");
}

fn context(cwd: &str) -> ReproCtx {
    ReproCtx {
        cwd: cwd.to_string(),
        rootdir: "/r".to_string(),
        windows: false,
        inifile: None,
        fresh_cache: None,
        lift_maxfail: false,
        nested: false,
        python_flag: None,
        pytest_args: Vec::new(),
    }
}

#[test]
fn repro_command_quotes_and_keeps_options_verbatim() {
    assert_eq!(
        repro_command(&context("/r"), &ids(&["a.py::p"]), "a.py::v[1]"),
        "rstest -n 0 -p no:randomly a.py::p 'a.py::v[1]'"
    );
    let below = ReproCtx {
        inifile: Some("/r/pytest.ini".to_string()),
        python_flag: Some("/my venv/bin/python".to_string()),
        pytest_args: ids(&["-c", "sub/pytest.ini", "-p", "no:cacheprovider"]),
        ..context("/r/tests/unit")
    };
    assert_eq!(
        repro_command(&below, &ids(&["tests/int/a.py::p"]), "tests/unit/v.py::v"),
        "rstest -n 0 --python '/my venv/bin/python' -p no:randomly -c sub/pytest.ini \
         -p no:cacheprovider ../int/a.py::p v.py::v"
    );
}

#[test]
fn repro_command_pins_the_rootdir_under_a_nested_config() {
    let flat = ReproCtx { inifile: Some("/r/pytest.ini".to_string()), ..context("/r") };
    let nested = ReproCtx {
        inifile: Some("/r/pytest.ini".to_string()),
        nested: true,
        ..context("/r")
    };
    assert_eq!(
        repro_command(&nested, &[], "pkg/tests/test_v.py::v"),
        "rstest -n 0 -p no:randomly --rootdir /r -c /r/pytest.ini pkg/tests/test_v.py::v"
    );
    assert_eq!(
        repro_command(&flat, &[], "tests/test_a.py::v"),
        "rstest -n 0 -p no:randomly tests/test_a.py::v"
    );
}

#[test]
fn repro_command_without_a_config_pins_an_empty_one() {
    let ctx = ReproCtx { nested: true, ..context("/r") };
    assert_eq!(
        repro_command(&ctx, &[], "pkg/test_v.py::v"),
        "rstest -n 0 -p no:randomly --rootdir /r -c /dev/null --confcutdir /r \
         pkg/test_v.py::v"
    );
}

fn nested(path: &str, names: &[&str]) -> NestedDir {
    let ini = |n: &str| if names.contains(&n) { Some(String::new()) } else { None };
    NestedDir {
        names: ids(names),
        config: ConfigDir {
            path: path.to_string(),
            windows: false,
            pytest_ini: ini("pytest.ini"),
            pyproject: ini("pyproject.toml"),
            tox_ini: ini("tox.ini"),
            setup_cfg: ini("setup.cfg"),
        },
    }
}

/// Whether a run of `/r/tests/test_a.py` is rooted elsewhere than at `/r`, given what
/// lies there and in `/r/tests`.
fn re_rooted(root: &[&str], tests: &[&str]) -> bool {
    let look = |dir: &str| nested(dir, if dir == "/r/tests" { tests } else { root });
    under_nested_config(false, "/r", "/r/tests/test_a.py", &look)
}

#[test]
fn a_nearer_setup_py_counts_as_re_rooting() {
    assert!(re_rooted(&[], &["setup.py", "test_a.py"]));
}

#[test]
fn under_nested_config_stops_at_the_rootdir() {
    // The rootdir's own config is not "nested".
    assert!(!re_rooted(&["pytest.ini"], &["test_a.py"]));
}

#[test]
fn an_empty_nested_pytest_ini_counts_as_re_rooting() {
    assert!(re_rooted(&[], &["pytest.ini", "test_a.py"]));
}

#[test]
fn an_empty_nested_tox_ini_does_not_re_root() {
    assert!(!re_rooted(&[], &["tox.ini"]));
}

#[test]
fn the_directories_above_a_file_are_looked_into_up_to_the_root() {
    let between = |windows: bool, root: &str, file: &str| dirs_between(windows, root, file);
    assert_eq!(between(false, "/r", "/r/a/b/t.py"), ids(&["/r/a/b", "/r/a"]));
    assert_eq!(between(false, "/r/", "/r//a/./b/t.py"), ids(&["/r/a/b", "/r/a"]));
    assert!(between(false, "/r", "/r/t.py").is_empty());
    assert!(between(false, "/r", "/r").is_empty());
    assert!(between(false, "/r", "/rr/a/t.py").is_empty());
    assert!(between(false, "/r/a/b", "/r/t.py").is_empty());
    assert_eq!(between(false, "", "a/t.py"), ids(&["a"]));
    assert_eq!(between(false, "", "/a/t.py"), ids(&["/a", "/"]));
    assert_eq!(between(true, "C:\\r", "c:/r/a/t.py"), ids(&["C:\\r\\a"]));
    assert_eq!(between(true, "", "C:\\a\\t.py"), ids(&["C:\\a", "C:\\"]));
}

#[test]
fn one_nested_test_is_enough() {
    let look = |dir: &str| nested(dir, if dir == "/r/pkg" { &["pytest.ini"] } else { &[] });
    let nested_for = |tests: &[&str]| any_nested(false, "/r", &ids(tests), &look);
    assert!(nested_for(&["a/test_a.py::t", "pkg/test_v.py::v"]));
    assert!(!nested_for(&["a/test_a.py::t", "test_b.py::t"]));
    assert!(!nested_for(&[]));
}

#[test]
fn child_pins_carry_rootdir_config_and_cutoff() {
    let pins = child_pins("/r", "/t/pytest.ini", "/r");
    assert_eq!(pins, ids(&["--rootdir", "/r", "-c", "/t/pytest.ini", "--confcutdir", "/r"]));
}

#[test]
fn session_pins_give_every_session_its_own_empty_cache() {
    let pins = Pins { cache_root: "/w/cache".to_string(), windows: false };
    let a = pins.session(0, &ids(&["-k", "x"]));
    let b = pins.session(1, &[]);
    assert_eq!(&a[..3], &ids(&["-p", "no:randomly", "-o"])[..]);
    assert!(a[3].starts_with("cache_dir=/w/cache/s"), "{a:?}");
    assert_eq!(&a[4..], &ids(&["-k", "x"])[..]);
    assert_ne!(a[3], b[3]);
    assert!(!a.iter().any(|x| x == "--cache-clear"));
}

#[test]
fn only_cache_driven_flags_need_a_fresh_cache() {
    assert!(needs_fresh_cache(&ids(&["--ff"])));
    assert!(needs_fresh_cache(&ids(&["--maxfail", "--lf"])));
    assert!(!needs_fresh_cache(&ids(&["--maxfail"])));
    assert!(!needs_fresh_cache(&[]));
    for f in ["--nf", "--sw", "--sw-skip"] {
        assert!(!needs_fresh_cache(&ids(&[f])), "{f} is refused, not refreshed");
    }
}

#[test]
fn a_configuration_is_made_only_where_none_was_loaded() {
    assert_eq!(
        pinned_inifile(Some("/r/pytest.ini".to_string()), "/w", false),
        ("/r/pytest.ini".to_string(), false)
    );
    assert_eq!(pinned_inifile(None, "/w", false), ("/w/config/pytest.ini".to_string(), true));
}

#[test]
fn repro_command_lifts_maxfail_after_the_users_args() {
    let ctx = ReproCtx { lift_maxfail: true, pytest_args: ids(&["-x"]), ..context("/r") };
    assert_eq!(
        repro_command(&ctx, &ids(&["a.py::p"]), "a.py::v"),
        "rstest -n 0 -p no:randomly -x --maxfail=0 a.py::p a.py::v"
    );
}

#[test]
fn repro_command_with_ff_gets_a_fresh_cache() {
    let cache = "/tmp/rstest-bisect-repro-cache";
    let ctx = ReproCtx { fresh_cache: Some(cache.to_string()), ..context("/r") };
    assert_eq!(
        repro_command(&ctx, &[], "a.py::v"),
        format!(
            "rstest -n 0 -p no:randomly -o {} --cache-clear a.py::v",
            shell_quote(&format!("cache_dir={cache}"))
        )
    );
}

#[test]
fn write_error_json_records_a_run_without_a_verdict() {
    let doc = error_doc("t::v", "boom");
    assert_eq!(doc.nodeid, "t::v");
    assert!(!doc.order_dependent);
    assert!(doc.culprits.is_empty());
    assert!(doc.reproduce_command.is_none());
    assert_eq!(doc.error.as_deref(), Some("boom"));
}

#[test]
fn write_json_order_dependent_doc() {
    let cmd = "rstest -n 0 t::a t::b t::v";
    let doc = verdict_doc("t::v", "/r", "/r/sub", &ids(&["t::a", "t::b"]), Some(cmd.to_string()));
    assert_eq!(doc.nodeid, "t::v");
    assert_eq!(doc.rootdir.as_deref(), Some("/r"));
    assert_eq!(doc.cwd.as_deref(), Some("/r/sub"));
    assert!(doc.order_dependent);
    assert_eq!(doc.culprits, ids(&["t::a", "t::b"]));
    assert_eq!(doc.reproduce_command.as_deref(), Some(cmd));
}

#[test]
fn write_json_not_order_dependent_has_null_command() {
    let doc = verdict_doc("t::v", "/r", "/r", &[], None);
    assert!(!doc.order_dependent);
    assert!(doc.culprits.is_empty());
    assert!(doc.reproduce_command.is_none());
}

fn printed(lines: &[String]) -> String {
    lines.iter().map(|l| format!("{l}\n")).collect()
}

#[test]
fn report_single_culprit() {
    let out = printed(&print_report("t::v", &ids(&["t::a"]), "rstest -n 0 t::a t::v", false));
    assert!(out.contains("victim:   t::v"), "{out}");
    assert!(out.contains("culprit: 1 predecessor test(s)"), "{out}");
    assert!(out.contains("    t::a\n"), "{out}");
    assert!(out.contains("    rstest -n 0 t::a t::v\n"), "{out}");
    assert!(!out.contains("run budget reached"), "{out}");
}

#[test]
fn report_plural_culprits_and_budget_cap() {
    let out = printed(&print_report("t::v", &ids(&["t::a", "t::b"]), "x", true));
    assert!(out.contains("culprits: 2 predecessor test(s)"), "{out}");
    assert!(out.contains("run budget reached"), "{out}");
}

#[test]
fn a_selection_is_traced_to_its_source() {
    let args = Some("args".to_string());
    let file = Some("testpaths".to_string());
    assert_eq!(selection_source(&file, 1, &None), Selection::Absent);
    assert_eq!(selection_source(&args, 0, &None), Selection::Config);
    assert_eq!(selection_source(&args, 1, &args), Selection::Config);
    assert_eq!(selection_source(&args, 1, &file), Selection::User);
    assert!(needs_bare_collection(&args, 1) && !needs_bare_collection(&args, 0));
    let here = Some("invocation_dir".to_string());
    assert!(!collect_again(false, &args, "/r", "/r/tests"));
    assert!(collect_again(false, &here, "/r", "/r/tests"));
    assert!(!collect_again(false, &here, "/r", "/r"));
    // Paths are compared, not texts.
    assert!(!collect_again(false, &here, "/r//a/", "/r/a"));
    assert!(!collect_again(true, &here, "c:/r", "C:\\r"));
}

fn collected(flags: &[&str]) -> Collected {
    Collected { ids: ids(&["a::1", "a::2", "a::3"]), order_flags: ids(flags) }
}

#[test]
fn a_search_is_planned_or_refused() {
    let some = |s: &str| Some(s.to_string());
    let p = plan("a::3", Selection::Absent, &collected(&["--ff", "--maxfail"]), some("a::3"))
        .ok()
        .unwrap();
    assert_eq!(p.victim, "a::3");
    assert_eq!(p.preds, ids(&["a::1", "a::2"]));
    assert!(p.fresh_cache && p.lift_maxfail);
    assert!(plan("a::3", Selection::User, &collected(&[]), some("a::3")).is_err());
    assert!(plan("a::3", Selection::Config, &collected(&[]), some("a::3")).is_err());
    let blocked = plan("a::3", Selection::Absent, &collected(&["--sw"]), some("a::3"));
    assert!(matches!(blocked, Err(e) if e.contains("--sw")));
    let unknown = plan("b::1", Selection::Absent, &collected(&[]), None);
    assert!(matches!(unknown, Err(e) if e.contains("b::1")));
}

#[test]
fn a_search_ends_in_one_of_four_ways() {
    let preds = ids(&["a", "b", "c"]);
    let alone = bisect(&preds, |_: &[String]| Ok::<_, ()>(Some(true))).unwrap();
    assert!(matches!(alone, Finding::FailsAlone));
    let first = bisect(&[], |_: &[String]| Ok::<_, ()>(Some(false))).unwrap();
    assert!(matches!(first, Finding::First));
    let passes = bisect(&preds, |_: &[String]| Ok::<_, ()>(Some(false))).unwrap();
    assert!(matches!(passes, Finding::Passes));
    assert_eq!(finding_exit(&passes), 1);
    let found = bisect(&preds, contains(&["b"])).unwrap();
    assert_eq!(finding_exit(&found), 0);
    match found {
        Finding::Culprits { tests, capped } => {
            assert_eq!(tests, ids(&["b"]));
            assert!(!capped);
        }
        _ => panic!("no culprits"),
    }
    assert!(bisect(&preds, |_: &[String]| Err::<Option<bool>, _>("boom")).is_err());
}

#[test]
fn what_a_search_found_is_said() {
    assert!(fails_alone("t::v", "rstest t::v").contains("t::v"));
    assert!(is_first("t::v").contains("t::v"));
    assert!(passes_after("t::v", 7).contains('7'));
    assert_eq!(
        child_args("/r", "/r/pytest.ini", Some("/c"), &ids(&["-q"])),
        ids(&[
            "--rootdir", "/r", "-c", "/r/pytest.ini", "--confcutdir", "/c", "-q", "--maxfail=0",
        ])
    );
    let without = child_args("/r", "/r/pytest.ini", None, &[]);
    assert_eq!(without[4..6], ids(&["--confcutdir", "/r"])[..]);
}
