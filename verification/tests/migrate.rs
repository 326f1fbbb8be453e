//! Moving a suite over: what is unstable, what fails in parallel, what disagrees.

use rstest_cli::double::Double;
use rstest_cli::migrate::audit::{
    audit_doc, audit_report, combine, conftest_block, indent, intro, merge_worst, not_run_doc,
    parallel_args, partition, rounds, serial_conftest_block, serial_fixable, stop_early,
    tests_with, Buckets,
};
use rstest_cli::migrate::check::{
    accumulate_unstable, bisecting, check_doc, compare, conclude, findings_json, is_allowed,
    migration_of, polluter_json, survey, truncate_on_boundary, unstable_json, victims,
};
use rstest_cli::migrate::classify::{
    bisect_polluter, classify, collect_args, decide, discriminators, failed_tests,
    judge_failures, kind_found, other_files, polluter_args, repeats, scoped_args, session_args,
    test_files, Kind, Polluter, Verdict,
};
use rstest_cli::migrate::outcomes::{parse_outcomes, Phase, Rec};
use rstest_cli::migrate::try_cmd::{
    commits, compute_parity, fmt_secs, try_report, Seconds, Speed,
};
use rstest_cli::nodeids::{file_of, split_param};
use rstest_cli::ordered_map::OrderedMap;

fn d(x: f64) -> Double {
    Double { bits: x.to_bits() }
}

fn ids(names: &[&str]) -> Vec<String> {
    names.iter().map(|s| s.to_string()).collect()
}

fn rec(phase: Phase) -> Rec {
    Rec { phase, wall: d(0.0), cpu: None }
}

fn outcomes(entries: &[(&str, Phase)]) -> OrderedMap<String, Rec> {
    let mut m = OrderedMap::new();
    for (id, phase) in entries {
        m.insert(id.to_string(), rec(*phase));
    }
    m
}

#[test]
fn migrate_classify_by_pattern() {
    assert!(matches!(classify("<obj at 0x10ae4e660>-(10+0j)"), Kind::Address));
    assert!(matches!(classify("efc8cccd-21d0-45ee-a84e-5b9e5f2ce0fd"), Kind::Uuid));
    assert!(matches!(classify("06-14-2026 11:56:59"), Kind::Time));
    assert!(matches!(classify("plain-label-2"), Kind::Other));
}

#[test]
fn classify_classify_by_pattern() {
    assert!(matches!(classify("<obj at 0x10ae4e660>-(10+0j)"), Kind::Address));
    assert!(matches!(classify("efc8cccd-21d0-45ee-a84e-5b9e5f2ce0fd"), Kind::Uuid));
    assert!(matches!(classify("06-14-2026 11:56:59"), Kind::Time));
    assert!(matches!(classify("plain-label-2"), Kind::Other));
}

#[test]
fn migrate_will_bail_only_address_and_uuid() {
    assert!(Kind::Address.will_bail());
    assert!(Kind::Uuid.will_bail());
    assert!(!Kind::Time.will_bail());
    assert!(!Kind::Other.will_bail());
}

#[test]
fn classify_will_bail_only_address_and_uuid() {
    assert!(Kind::Address.will_bail());
    assert!(Kind::Uuid.will_bail());
    assert!(!Kind::Time.will_bail());
    assert!(!Kind::Other.will_bail());
}

#[test]
fn migrate_split_param_uses_first_bracket_through_nested_repr() {
    let nid = "test_any.py::test_x[MyModel({ class: Py(0x0000000a1e2c4010), defs: [] })]";
    let (site, param) = split_param(nid);
    assert_eq!(site, "test_any.py::test_x");
    assert!(param.contains("0x0000000a1e2c4010"));
    assert!(matches!(classify(&param), Kind::Address));
}

#[test]
fn classify_split_param_uses_first_bracket_through_nested_repr() {
    let nid = "test_any.py::test_x[MyModel({ class: Py(0x0000000a1e2c4010), defs: [] })]";
    let (site, param) = split_param(nid);
    assert_eq!(site, "test_any.py::test_x");
    assert!(param.contains("0x0000000a1e2c4010"));
    assert!(matches!(classify(&param), Kind::Address));
}

#[test]
fn migrate_split_param_no_brackets() {
    let (site, param) = split_param("a.py::test_plain");
    assert_eq!(site, "a.py::test_plain");
    assert_eq!(param, "");
}

#[test]
fn classify_split_param_no_brackets() {
    let (site, param) = split_param("a.py::test_plain");
    assert_eq!(site, "a.py::test_plain");
    assert_eq!(param, "");
}

#[test]
fn migrate_file_of_strips_at_first_colons() {
    assert_eq!(file_of("tests/test_x.py::TestC::test_m[param]"), "tests/test_x.py");
    assert_eq!(file_of("tests/test_x.py"), "tests/test_x.py");
}

#[test]
fn mod_file_of_strips_at_first_colons() {
    assert_eq!(file_of("tests/test_x.py::TestC::test_m[param]"), "tests/test_x.py");
    assert_eq!(file_of("tests/test_x.py"), "tests/test_x.py");
}

#[test]
fn migrate_decide_covers_every_branch() {
    assert_eq!(decide(true, true, true, false), Verdict::NotParallel);
    assert_eq!(decide(true, true, false, false), Verdict::NotParallel);
    assert_eq!(decide(true, false, true, false), Verdict::IntrinsicFlake);
    assert_eq!(decide(false, true, false, true), Verdict::IntrinsicFlake);
    assert_eq!(decide(false, false, false, false), Verdict::OrderDependency);
    assert_eq!(decide(false, false, true, true), Verdict::WallClock);
    assert_eq!(decide(false, false, true, false), Verdict::Isolation);
}

#[test]
fn classify_decide_covers_every_branch() {
    assert_eq!(decide(true, true, true, false), Verdict::NotParallel);
    assert_eq!(decide(true, true, false, false), Verdict::NotParallel);
    assert_eq!(decide(true, false, true, false), Verdict::IntrinsicFlake);
    assert_eq!(decide(false, true, false, true), Verdict::IntrinsicFlake);
    assert_eq!(decide(false, false, false, false), Verdict::OrderDependency);
    assert_eq!(decide(false, false, true, true), Verdict::WallClock);
    assert_eq!(decide(false, false, true, false), Verdict::Isolation);
}

#[test]
fn migrate_decide_wait_bound_only_splits_the_loadfile_failure() {
    assert_eq!(decide(true, true, true, true), Verdict::NotParallel);
    assert_eq!(decide(false, false, false, true), Verdict::OrderDependency);
}

#[test]
fn classify_decide_wait_bound_only_splits_the_loadfile_failure() {
    assert_eq!(decide(true, true, true, true), Verdict::NotParallel);
    assert_eq!(decide(false, false, false, true), Verdict::OrderDependency);
}

#[test]
fn migrate_wait_bound_signal() {
    let waiting = Rec { phase: Phase::Fail, wall: d(1.0), cpu: Some(d(0.01)) };
    assert!(waiting.wait_bound());
    let computing = Rec { phase: Phase::Fail, wall: d(1.0), cpu: Some(d(0.9)) };
    assert!(!computing.wait_bound());
    let no_cpu = Rec { phase: Phase::Fail, wall: d(1.0), cpu: None };
    assert!(!no_cpu.wait_bound());
    let quick = Rec { phase: Phase::Fail, wall: d(0.001), cpu: Some(d(0.0)) };
    assert!(!quick.wait_bound());
}

#[test]
fn mod_wait_bound_signal() {
    let waiting = Rec { phase: Phase::Fail, wall: d(1.0), cpu: Some(d(0.01)) };
    assert!(waiting.wait_bound());
    let computing = Rec { phase: Phase::Fail, wall: d(1.0), cpu: Some(d(0.9)) };
    assert!(!computing.wait_bound());
    let no_cpu = Rec { phase: Phase::Fail, wall: d(1.0), cpu: None };
    assert!(!no_cpu.wait_bound());
    let quick = Rec { phase: Phase::Fail, wall: d(0.001), cpu: Some(d(0.0)) };
    assert!(!quick.wait_bound());
}

#[test]
fn kind_label_and_fix_distinct_per_variant() {
    for k in [Kind::Address, Kind::Uuid, Kind::Time, Kind::Other] {
        assert!(!k.label().is_empty());
        assert!(!k.fix().is_empty());
    }
    assert_eq!(Kind::Address.label(), "address");
    assert_eq!(Kind::Uuid.label(), "uuid");
    assert_eq!(Kind::Time.label(), "time");
    assert_eq!(Kind::Other.label(), "other");
    assert!(Kind::Address.fix().contains("repr"));
    assert!(Kind::Uuid.fix().contains("uuid"));
    assert!(Kind::Time.fix().contains("clock"));
    let labels = [
        Kind::Address.label(),
        Kind::Uuid.label(),
        Kind::Time.label(),
        Kind::Other.label(),
    ];
    let unique: std::collections::HashSet<_> = labels.iter().collect();
    assert_eq!(unique.len(), 4);
}

#[test]
fn verdict_title_and_advice_present_for_every_variant() {
    let all = [
        Verdict::NotParallel,
        Verdict::IntrinsicFlake,
        Verdict::OrderDependency,
        Verdict::WallClock,
        Verdict::Isolation,
    ];
    for v in all {
        assert!(!v.title().is_empty());
        let (why, fix) = v.advice();
        assert!(!why.is_empty());
        assert!(!fix.is_empty());
    }
    let titles: std::collections::HashSet<_> = all.iter().map(|v| v.title()).collect();
    assert_eq!(titles.len(), 5);
    assert!(Verdict::NotParallel.advice().0.contains("-n 0"));
    assert!(Verdict::WallClock.advice().0.contains("wait-bound"));
}

#[test]
fn split_param_ends_with_bracket_but_no_open_is_left_whole() {
    let (site, param) = split_param("weird]");
    assert_eq!(site, "weird]");
    assert_eq!(param, "");
}

#[test]
fn partition_splits_by_verdict_kind() {
    let verdicts = vec![
        ("z.py::iso".to_string(), Verdict::Isolation),
        ("a.py::order".to_string(), Verdict::OrderDependency),
        ("m.py::wall".to_string(), Verdict::WallClock),
        ("f.py::flake".to_string(), Verdict::IntrinsicFlake),
        ("b.py::bug".to_string(), Verdict::NotParallel),
        ("q.py::gone".to_string(), Verdict::Inconclusive),
    ];
    let Buckets { serial, order, intrinsic, inconclusive, preexisting } = partition(&verdicts);
    assert_eq!(
        serial.iter().map(|(n, _)| n.as_str()).collect::<Vec<_>>(),
        ["m.py::wall", "z.py::iso"]
    );
    assert_eq!(order, ["a.py::order"]);
    assert_eq!(intrinsic, ["f.py::flake"]);
    assert_eq!(inconclusive, ["q.py::gone"]);
    assert_eq!(preexisting, 1);
}

#[test]
fn serial_conftest_block_is_pasteable() {
    let block = serial_conftest_block(&["tests/test_a.py::test_x".to_string()]);
    assert!(block.contains("import pytest"));
    assert!(block.contains("\"tests/test_a.py::test_x\","));
    assert!(block.contains("item.add_marker(pytest.mark.serial)"));
    assert!(block.contains("if item.nodeid in _RSTEST_SERIAL:"));
    assert!(block.starts_with("import pytest\n"));
    assert!(block.contains("\n_RSTEST_SERIAL = {\n"));
    assert!(block.contains("\ndef pytest_collection_modifyitems(items):\n"));
}

#[test]
fn serial_conftest_block_quotes_nodeids_as_python_literals() {
    let block = serial_conftest_block(&["t.py::test[e\u{301}\"q\\\u{7}]".to_string()]);
    assert!(!block.contains("\\u{"));
    assert!(block.contains("    \"t.py::test[e\u{301}\\\"q\\\\\\u0007]\",\n"));
}

#[test]
fn indent_pads_non_empty_lines_only() {
    assert_eq!(indent("a\n\n  b\n", "    "), "    a\n\n      b");
}

#[test]
fn merge_worst_keeps_a_failure_from_any_run() {
    let mut acc = OrderedMap::new();
    merge_worst(&mut acc, &outcomes(&[("t", Phase::Pass)]));
    merge_worst(&mut acc, &outcomes(&[("t", Phase::Fail)]));
    let t = "t".to_string();
    assert!(matches!(acc.get(&t).unwrap().phase, Phase::Fail));
    merge_worst(&mut acc, &outcomes(&[("t", Phase::Pass)]));
    assert!(matches!(acc.get(&t).unwrap().phase, Phase::Fail));
}

#[test]
fn audit_doc_has_versioned_envelope_and_fix_list() {
    let b = Buckets {
        serial: vec![("a.py::iso".to_string(), Verdict::Isolation)],
        order: vec!["o.py::order".to_string()],
        intrinsic: vec!["f.py::flake".to_string()],
        inconclusive: vec!["q.py::gone".to_string()],
        preexisting: 2,
    };
    let doc = audit_doc(10, &b);
    assert!(doc.ran);
    assert_eq!(doc.meta.kind, "audit");
    assert_eq!(doc.meta.schema, 1);
    assert!(!doc.parallel_safe);
    let found = doc.found.unwrap();
    assert_eq!(found.inconclusive[0], "q.py::gone");
    assert_eq!(found.order_dependent[0], "o.py::order");
    assert_eq!(found.tests, 10);
    assert_eq!(found.serial_candidates[0].0, "a.py::iso");
    assert_eq!(found.serial_candidates[0].1, Verdict::Isolation.title());
    assert_eq!(found.intrinsic_flakes[0], "f.py::flake");
    assert_eq!(found.preexisting_failures, 2);
    assert!(found.serial_conftest.contains("a.py::iso"));
}

#[test]
fn inconclusive_alone_is_not_parallel_safe() {
    let b = partition(&[("q.py::gone".to_string(), Verdict::Inconclusive)]);
    assert!(!b.parallel_safe());
}

#[test]
fn order_dependency_fails_the_gate_but_is_not_a_serial_candidate() {
    let b = partition(&[("o.py::order".to_string(), Verdict::OrderDependency)]);
    assert!(b.serial.is_empty());
    assert!(!b.parallel_safe());
}

#[test]
fn not_run_doc_says_it_did_not_run() {
    let doc = not_run_doc();
    assert_eq!(doc.meta.kind, "audit");
    assert!(!doc.ran);
    assert!(!doc.parallel_safe);
    assert!(doc.found.is_none());
}

#[test]
fn accumulate_unstable_groups_by_site_and_counts_will_bail() {
    let (by_site, will_bail) = accumulate_unstable(&ids(&[
        "a.py::t[<obj at 0x10ae4e660>]",
        "a.py::t[plain-label]",
        "b.py::u[efc8cccd-21d0-45ee-a84e-5b9e5f2ce0fd]",
    ]));
    assert_eq!(will_bail, 2, "address + uuid are per-process unstable");
    assert_eq!(by_site.len(), 2, "grouped into two sites");
    let a = by_site.get(&"a.py::t".to_string()).unwrap();
    assert!(a.will_bail(), "the address id makes the site will-bail");
    assert_eq!(a.counts.get(&"address".to_string()), Some(&1));
    assert_eq!(a.counts.get(&"other".to_string()), Some(&1));
    assert!(a.sample.contains("0x10ae4e660"));
    let b = by_site.get(&"b.py::u".to_string()).unwrap();
    assert!(b.will_bail());
    assert_eq!(b.counts.get(&"uuid".to_string()), Some(&1));
}

#[test]
fn accumulate_unstable_may_bail_site_is_not_will_bail() {
    let (by_site, will_bail) = accumulate_unstable(&ids(&["a.py::t[2026-09-08]"]));
    assert_eq!(will_bail, 0);
    let a = by_site.get(&"a.py::t".to_string()).unwrap();
    assert!(!a.will_bail());
    assert_eq!(a.counts.get(&"time".to_string()), Some(&1));
}

#[test]
fn unstable_json_carries_site_kinds_and_allow_flag() {
    let (by_site, _) =
        accumulate_unstable(&ids(&["a.py::t[<obj at 0x10ae4e660>]", "b.py::u[plain]"]));
    let docs = unstable_json(&by_site, &|s: &str| s == "b.py::u");
    assert_eq!(docs.len(), 2);
    let a = docs.iter().find(|d| d.site == "a.py::t").unwrap();
    assert!(a.will_bail);
    assert!(!a.allowed);
    assert_eq!(a.kinds.get(&"address".to_string()), Some(&1));
    assert!(a.fix.contains("repr"));
    let b = docs.iter().find(|d| d.site == "b.py::u").unwrap();
    assert!(!b.will_bail);
    assert!(b.allowed, "the allow predicate marks this site");
}

#[test]
fn check_doc_has_versioned_envelope() {
    let (by_site, _) = accumulate_unstable(&ids(&["a.py::t[<obj at 0x1>]"]));
    let unstable = unstable_json(&by_site, &|_: &str| false);
    let doc = check_doc(false, 12, 3, unstable, None);
    assert_eq!(doc.meta.schema, 1);
    assert_eq!(doc.meta.runner, "rstest");
    assert_eq!(doc.meta.kind, "migrate-check");
    assert!(!doc.ready);
    assert_eq!(doc.tests_collected, 12);
    assert_eq!(doc.will_bail_count, 3);
    assert_eq!(doc.unstable_ids[0].site, "a.py::t");
    assert!(doc.parallel.is_none());
}

#[test]
fn polluter_json_maps_each_variant() {
    let pair = |p: Option<&Polluter>| polluter_json(p).map(|j| (j.kind, j.file));
    let text = |s: &str| s.to_string();
    assert_eq!(
        pair(Some(&Polluter::OtherFile("x.py".to_string()))),
        Some((text("other_file"), Some(text("x.py"))))
    );
    assert_eq!(
        pair(Some(&Polluter::SameFile("y.py".to_string()))),
        Some((text("same_file"), Some(text("y.py"))))
    );
    assert_eq!(pair(Some(&Polluter::NotReproducible)), Some((text("not_reproducible"), None)));
    assert!(polluter_json(None).is_none());
}

#[test]
fn findings_json_joins_verdict_advice_and_polluter() {
    let migration = [
        ("a.py::victim".to_string(), Verdict::Isolation),
        ("b.py::order".to_string(), Verdict::OrderDependency),
    ];
    let mut polluters = OrderedMap::new();
    polluters.insert("a.py::victim".to_string(), Polluter::OtherFile("c.py".to_string()));
    let docs = findings_json(&migration, &polluters, &|n: &str| n == "b.py::order");
    let v = &docs[0];
    assert_eq!(v.nodeid, "a.py::victim");
    assert_eq!(v.verdict, Verdict::Isolation.title());
    assert!(!v.allowed);
    let p = v.polluter.as_ref().unwrap();
    assert_eq!(p.kind, "other_file");
    assert_eq!(p.file.as_deref(), Some("c.py"));
    let (why, fix) = Verdict::Isolation.advice();
    assert_eq!(v.why, why);
    assert_eq!(v.fix, fix);
    let o = &docs[1];
    assert!(o.allowed, "the allow predicate marks this finding");
    assert!(o.polluter.is_none(), "no bisect entry -> null polluter");
}

#[test]
fn compute_parity_identical_when_same_ids_and_phases() {
    let py = outcomes(&[("a", Phase::Pass), ("b", Phase::Fail)]);
    let rs = outcomes(&[("a", Phase::Pass), ("b", Phase::Fail)]);
    let p = compute_parity(&py, &rs);
    assert!(p.identical);
    assert_eq!(p.total, 2);
    assert_eq!(p.diffs, 0);
    assert_eq!(p.only_py, 0);
    assert_eq!(p.only_rs, 0);
}

#[test]
fn compute_parity_flags_phase_divergence() {
    let p = compute_parity(&outcomes(&[("a", Phase::Pass)]), &outcomes(&[("a", Phase::Fail)]));
    assert!(!p.identical);
    assert_eq!(p.diffs, 1);
    assert_eq!(p.total, 1);
}

#[test]
fn compute_parity_counts_ids_unique_to_each_side() {
    let py = outcomes(&[("a", Phase::Pass), ("b", Phase::Pass)]);
    let rs = outcomes(&[("a", Phase::Pass), ("c", Phase::Pass)]);
    let p = compute_parity(&py, &rs);
    assert!(!p.identical);
    assert_eq!(p.diffs, 0, "the shared id agrees");
    assert_eq!(p.only_py, 1);
    assert_eq!(p.only_rs, 1);
    assert_eq!(p.total, 3, "union of a, b, c");
}

/// A time, with its whole minutes and the seconds beside them.
fn seconds(s: f64) -> Seconds {
    Seconds { all: d(s), minutes: d((s / 60.0).floor()), rest: d(s % 60.0) }
}

#[test]
fn fmt_secs_sub_minute_is_one_decimal_seconds() {
    assert_eq!(fmt_secs(&seconds(0.0)), "0.0s");
    assert_eq!(fmt_secs(&seconds(5.2)), "5.2s");
    assert_eq!(fmt_secs(&seconds(59.9)), "59.9s");
}

#[test]
fn fmt_secs_minute_and_over_is_zero_padded_minutes_seconds() {
    assert_eq!(fmt_secs(&seconds(60.0)), "1m00s");
    assert_eq!(fmt_secs(&seconds(90.0)), "1m30s");
    assert_eq!(fmt_secs(&seconds(125.0)), "2m05s");
}

#[test]
fn commits_are_counted_only_where_git_says_so() {
    assert_eq!(commits(true, "41\n"), Some(41));
    assert_eq!(commits(true, "0\n"), None);
    assert_eq!(commits(true, "many"), None);
    assert_eq!(commits(false, "41"), None);
}

fn speed() -> Speed {
    Speed {
        py: seconds(90.0),
        rs: seconds(30.0),
        quotient: d(3.0),
        saved: seconds(60.0),
        month: Some((30, seconds(1800.0))),
    }
}

#[test]
fn a_trial_is_reported_with_its_speed() {
    let run = outcomes(&[("a", Phase::Pass), ("b", Phase::Pass)]);
    let (lines, code) = try_report(&Some(run), &Some(outcomes(&[("a", Phase::Pass), ("b", Phase::Pass)])), &speed(), 0);
    let text = lines.join("\n");
    assert_eq!(code, 0, "{text}");
    assert!(text.contains("3.0"), "{text}");
    assert!(text.contains("1m30s"), "{text}");
    let (lines, code) = try_report(
        &Some(outcomes(&[("a", Phase::Pass)])),
        &Some(outcomes(&[("a", Phase::Fail)])),
        &speed(),
        0,
    );
    assert_eq!(code, 1, "{lines:?}");
    let (_, code) = try_report(&None, &None, &speed(), 0);
    assert_ne!(code, 0);
}

#[test]
fn the_first_kind_found_decides() {
    assert_eq!(kind_found(true, true, true), Kind::Address);
    assert_eq!(kind_found(false, true, true), Kind::Uuid);
    assert_eq!(kind_found(false, false, true), Kind::Time);
    assert_eq!(kind_found(false, false, false), Kind::Other);
}

#[test]
fn outcomes_are_read_from_a_report() {
    let text = r#"{"tests": {
        "a.py::ok": {"setup": "passed", "call": "passed", "duration": 1.5, "cpu": 0.25},
        "a.py::bad": {"setup": "error"},
        "a.py::late": {"call": "passed", "teardown": "failed"}
    }}"#;
    let run = parse_outcomes(text);
    assert_eq!(run.len(), 3);
    assert_eq!(
        run.get(&"a.py::ok".to_string()),
        Some(&Rec { phase: Phase::Pass, wall: d(1.5), cpu: Some(d(0.25)) })
    );
    assert_eq!(run.get(&"a.py::bad".to_string()), Some(&rec(Phase::Fail)));
    assert_eq!(failed_tests(&run), ids(&["a.py::bad", "a.py::late"]));
    assert_eq!(parse_outcomes("not json").len(), 0);
}

#[test]
fn failures_in_parallel_are_judged_by_the_repeats() {
    let parallel = outcomes(&[
        ("a.py::iso", Phase::Fail),
        ("a.py::ok", Phase::Pass),
        ("b.py::bug", Phase::Fail),
        ("c.py::gone", Phase::Fail),
    ]);
    let serial = || {
        outcomes(&[("a.py::iso", Phase::Pass), ("a.py::ok", Phase::Pass), ("b.py::bug", Phase::Fail)])
    };
    let loadfile = outcomes(&[("a.py::iso", Phase::Fail), ("b.py::bug", Phase::Fail)]);
    let found = judge_failures(&parallel, &[serial(), serial()], &[loadfile]);
    assert_eq!(
        found,
        vec![
            ("a.py::iso".to_string(), Verdict::Isolation),
            ("b.py::bug".to_string(), Verdict::NotParallel),
            ("c.py::gone".to_string(), Verdict::Inconclusive),
        ]
    );
    let files = test_files(&ids(&["b.py::x", "a.py::y", "b.py::z"]));
    assert_eq!(files.to_list(), ids(&["a.py", "b.py"]));
}

#[test]
fn the_polluting_file_is_found_by_halving() {
    let others = ids(&["a.py", "b.py", "c.py", "d.py", "e.py"]);
    let mut asked = 0;
    let found: Result<Polluter, ()> = bisect_polluter("v.py", &others, |s: &[String]| {
        asked += 1;
        Ok(s.iter().any(|x| x == "d.py"))
    });
    assert!(matches!(found, Ok(Polluter::OtherFile(f)) if f == "d.py"));
    assert!(asked <= 14);
    let own: Result<Polluter, ()> = bisect_polluter("v.py", &others, |_: &[String]| Ok(true));
    assert!(matches!(own, Ok(Polluter::SameFile(f)) if f == "v.py"));
    let never: Result<Polluter, ()> = bisect_polluter("v.py", &others, |_: &[String]| Ok(false));
    assert!(matches!(never, Ok(Polluter::NotReproducible)));
    let broken: Result<Polluter, u8> = bisect_polluter("v.py", &others, |_: &[String]| Err(7));
    assert!(matches!(broken, Err(7)));
}

#[test]
fn sessions_get_their_arguments_in_order() {
    let run = outcomes(&[("a.py::x", Phase::Pass), ("v.py::y", Phase::Pass), ("b.py::z", Phase::Pass)]);
    assert_eq!(other_files(&run, "v.py"), ids(&["a.py", "b.py"]));
    let args = polluter_args(&ids(&["a.py"]), "v.py", &ids(&["-k", "x"]));
    let at = |s: &str| args.iter().position(|a| a == s).unwrap();
    assert!(at("a.py") < at("v.py"));
    assert!(args.contains(&"-k".to_string()));
    let scoped = scoped_args(&ids(&["a.py"]), &None, &ids(&["--pin"]), &ids(&["-q"]), false);
    assert!(scoped.contains(&"a.py".to_string()) && scoped.contains(&"--pin".to_string()));
    let rooted = scoped_args(&ids(&["a.py"]), &Some("/r".to_string()), &[], &[], false);
    assert!(rooted.contains(&"/r/a.py".to_string()), "{rooted:?}");
    assert!(session_args(&[], &ids(&["-q"]), "/tmp/r.json").contains(&"-q".to_string()));
    assert!(collect_args(&ids(&["tests"])).contains(&"tests".to_string()));
    let (serial, loadfile) = repeats(0);
    assert!(serial >= 2 && loadfile >= 1);
    assert!(discriminators(3, 2, serial, loadfile).contains('3'));
}

#[test]
fn failures_of_any_round_are_kept() {
    let one = outcomes(&[("a", Phase::Pass), ("b", Phase::Fail)]);
    let two = outcomes(&[("a", Phase::Fail), ("b", Phase::Pass), ("c", Phase::Pass)]);
    let all = combine(&[Some(one), Some(two)]).unwrap();
    assert_eq!(failed_tests(&all), ids(&["a", "b"]));
    assert_eq!(all.len(), 3);
    assert!(combine(&[Some(outcomes(&[("a", Phase::Pass)])), None]).is_none());
    assert!(rounds(0) >= 1);
    assert!(intro(3).contains('3'));
    assert!(parallel_args(&ids(&["-q"])).contains(&"-q".to_string()));
    assert!(stop_early(Some(5)).is_none());
    assert!(stop_early(None).is_some() && stop_early(Some(0)).is_some());
}

#[test]
fn an_audit_of_a_safe_suite_exits_with_zero() {
    let safe = partition(&[("b.py::bug".to_string(), Verdict::NotParallel)]);
    assert!(safe.parallel_safe());
    let (_, code) = audit_report(10, &safe);
    assert_eq!(code, 0);
    let unsafe_suite = partition(&[("z.py::iso".to_string(), Verdict::Isolation)]);
    let (lines, code) = audit_report(10, &unsafe_suite);
    assert_eq!(code, 1);
    assert!(lines.join("\n").contains("z.py::iso"));
    assert!(serial_fixable(Verdict::WallClock) && !serial_fixable(Verdict::OrderDependency));
    let found = [("a".to_string(), Verdict::Isolation), ("b".to_string(), Verdict::WallClock)];
    assert_eq!(tests_with(&found, Verdict::WallClock), ids(&["b"]));
    assert!(conftest_block(&ids(&["\"x\""])).contains("    \"x\",\n"));
}

#[test]
fn two_collections_are_compared() {
    let c = compare(&ids(&["a", "b", "c"]), &ids(&["b", "d", "a"]));
    assert_eq!((c.total, c.stable), (4, 2));
    assert_eq!(c.unstable, ids(&["c", "d"]));
    assert!(is_allowed(&ids(&["a.py"]), "a.py::t"));
    assert!(!is_allowed(&ids(&["b.py"]), "a.py::t"));
    assert!(!is_allowed(&[], "a.py::t"));
}

#[test]
fn a_stable_collection_goes_on_to_the_run() {
    let same = ids(&["a.py::x", "a.py::y"]);
    let c = compare(&same, &same);
    let (by_site, bail) = accumulate_unstable(&c.unstable);
    let (lines, stop) = survey(&c, &by_site, bail, &[]);
    assert!(stop.is_none(), "{lines:?}");
    let moved = compare(&ids(&["a.py::t[<o at 0x1a2b3c4d>]"]), &ids(&["a.py::t[<o at 0x9a2b3c4d>]"]));
    let (by_site, bail) = accumulate_unstable(&moved.unstable);
    assert_eq!(bail, 2);
    let (lines, _) = survey(&moved, &by_site, bail, &[]);
    assert!(lines.join("\n").contains("a.py::t"), "{lines:?}");
}

#[test]
fn accepted_findings_do_not_fail_the_check() {
    let found = vec![
        ("a.py::iso".to_string(), Verdict::Isolation),
        ("b.py::bug".to_string(), Verdict::NotParallel),
    ];
    assert_eq!(migration_of(&found).len(), 1);
    assert_eq!(victims(&found), ids(&["a.py::iso"]));
    let none: OrderedMap<String, Polluter> = OrderedMap::new();
    let refused = conclude(5, &found, &[], &none);
    assert!(!refused.ready);
    assert_eq!(refused.exit, 1);
    assert_eq!(refused.parallel.preexisting, Some(1));
    let accepted = conclude(5, &found, &ids(&["a.py"]), &none);
    assert!(!accepted.ready);
    assert_eq!(accepted.exit, 0);
    let clean = conclude(5, &found[1..], &[], &none);
    assert!(clean.ready);
    assert_eq!(clean.exit, 0);
    assert!(bisecting(2).contains('2'));
}

#[test]
fn texts_are_cut_between_characters() {
    assert_eq!(truncate_on_boundary("abc", 10), "abc");
    assert_eq!(truncate_on_boundary("abcdef", 3), "abc");
    assert_eq!(truncate_on_boundary("a\u{e9}b", 2), "a");
}
