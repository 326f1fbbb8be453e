//! Finding an interpreter.

use std::cell::RefCell;

use rstest_cli::discover::candidates::{
    discovery_candidates, managed_exe, managed_in, parse_dir_version, parse_py_list_paths,
    path_python_names, python_version_arg, uv_python_dir, venv_python, ScopeDir,
};
use rstest_cli::discover::probes::{
    cache_path, disk_cache_get, lookup, merge_entries, put_contribution, remember, to_store,
    CacheEntry,
};
use rstest_cli::discover::request::{
    parse_constraint, parse_pyarg, parse_request, Op, Probe, PyArg, Request,
};
use rstest_cli::discover::resolve::{resolve, resolve_versioned, resolve_with};
use rstest_cli::ordered_map::OrderedMap;

fn names(v: &[&str]) -> Vec<String> {
    v.iter().map(|s| s.to_string()).collect()
}

fn probe_at(executable: &str, version: (u8, u8, u8), worker_importable: bool) -> Probe {
    Probe {
        executable: executable.to_string(),
        version,
        implementation: "cpython".to_string(),
        freethreaded: false,
        worker_importable,
    }
}

fn probe_full(version: (u8, u8, u8), implementation: &str, freethreaded: bool) -> Probe {
    Probe {
        executable: "/x".to_string(),
        version,
        implementation: implementation.to_string(),
        freethreaded,
        worker_importable: true,
    }
}

fn req(s: &str) -> Request {
    match parse_pyarg(s, false) {
        PyArg::Request(r) => r,
        PyArg::Path(p) => panic!("{s} parsed as path {p:?}, expected a request"),
    }
}

#[test]
fn discover_first_usable_candidate_wins() {
    let cands = names(&["bad", "good"]);
    let chosen = resolve_with(&cands, None, |c: &str| {
        (c == "good").then(|| probe_at("/usr/bin/good", (3, 12, 0), true))
    })
    .unwrap();
    assert_eq!(chosen, "/usr/bin/good");
}

#[test]
fn mod_first_usable_candidate_wins() {
    let cands = names(&["bad", "good"]);
    let chosen = resolve_with(&cands, None, |c: &str| {
        (c == "good").then(|| probe_at("/usr/bin/good", (3, 12, 0), true))
    })
    .unwrap();
    assert_eq!(chosen, "/usr/bin/good");
}

#[test]
fn discover_returns_canonical_executable_not_candidate_name() {
    let cands = names(&["python3"]);
    let chosen = resolve_with(&cands, None, |_: &str| {
        Some(probe_at("/opt/py/bin/python3.12", (3, 12, 4), true))
    })
    .unwrap();
    assert_eq!(chosen, "/opt/py/bin/python3.12");
}

#[test]
fn mod_returns_canonical_executable_not_candidate_name() {
    let cands = names(&["python3"]);
    let chosen = resolve_with(&cands, None, |_: &str| {
        Some(probe_at("/opt/py/bin/python3.12", (3, 12, 4), true))
    })
    .unwrap();
    assert_eq!(chosen, "/opt/py/bin/python3.12");
}

#[test]
fn discover_too_old_is_rejected_with_reason() {
    let cands = names(&["python3"]);
    let msg =
        resolve_with(&cands, None, |_: &str| Some(probe_at("/x", (3, 7, 0), true))).unwrap_err();
    assert!(msg.contains("3.7.0"), "{msg}");
    assert!(msg.contains("3.9"), "{msg}");
}

#[test]
fn mod_too_old_is_rejected_with_reason() {
    let cands = names(&["python3"]);
    let msg =
        resolve_with(&cands, None, |_: &str| Some(probe_at("/x", (3, 7, 0), true))).unwrap_err();
    assert!(msg.contains("3.7.0"), "{msg}");
    assert!(msg.contains("3.9"), "{msg}");
}

#[test]
fn discover_missing_shim_is_rejected_with_reason() {
    let cands = names(&["python3"]);
    let err =
        resolve_with(&cands, None, |_: &str| Some(probe_at("/x", (3, 12, 0), false))).unwrap_err();
    assert!(err.contains("worker shim"), "{err}");
}

#[test]
fn mod_missing_shim_is_rejected_with_reason() {
    let cands = names(&["python3"]);
    let err =
        resolve_with(&cands, None, |_: &str| Some(probe_at("/x", (3, 12, 0), false))).unwrap_err();
    assert!(err.contains("worker shim"), "{err}");
}

#[test]
fn discover_no_candidates_lists_everything_tried() {
    let cands = names(&["python3.12", "python3"]);
    let msg = resolve_with(&cands, None, |_: &str| None).unwrap_err();
    assert!(msg.contains("python3.12"), "{msg}");
    assert!(msg.contains("python3"), "{msg}");
    assert!(msg.contains("--python"), "{msg}");
}

#[test]
fn mod_no_candidates_lists_everything_tried() {
    let cands = names(&["python3.12", "python3"]);
    let msg = resolve_with(&cands, None, |_: &str| None).unwrap_err();
    assert!(msg.contains("python3.12"), "{msg}");
    assert!(msg.contains("python3"), "{msg}");
    assert!(msg.contains("--python"), "{msg}");
}

#[test]
fn discover_falls_through_old_and_shimless_to_usable() {
    let cands = names(&["old", "noshim", "ok"]);
    let chosen = resolve_with(&cands, None, |c: &str| match c {
        "old" => Some(probe_at("/old", (3, 8, 0), true)),
        "noshim" => Some(probe_at("/noshim", (3, 12, 0), false)),
        "ok" => Some(probe_at("/ok", (3, 11, 0), true)),
        _ => None,
    })
    .unwrap();
    assert_eq!(chosen, "/ok");
}

#[test]
fn mod_falls_through_old_and_shimless_to_usable() {
    let cands = names(&["old", "noshim", "ok"]);
    let chosen = resolve_with(&cands, None, |c: &str| match c {
        "old" => Some(probe_at("/old", (3, 8, 0), true)),
        "noshim" => Some(probe_at("/noshim", (3, 12, 0), false)),
        "ok" => Some(probe_at("/ok", (3, 11, 0), true)),
        _ => None,
    })
    .unwrap();
    assert_eq!(chosen, "/ok");
}

#[test]
fn discover_venv_walk_finds_ancestor_and_stops_at_repo_root() {
    let dir = |venv: Option<&str>, repo_root: bool| ScopeDir {
        venv_python: venv.map(|s| s.to_string()),
        python_version: None,
        repo_root,
    };
    // From repo/a/b/c upwards; the repository has a .venv, and so has the directory above.
    let dirs = [
        dir(None, false),
        dir(None, false),
        dir(None, false),
        dir(Some("/tmp/repo/.venv/bin/python"), true),
        dir(Some("/tmp/.venv/bin/python"), false),
    ];
    let cands = discovery_candidates(&None, &dirs, false, &[], &[]);
    assert!(cands.contains(&"/tmp/repo/.venv/bin/python".to_string()), "{cands:?}");
    assert!(
        !cands.contains(&"/tmp/.venv/bin/python".to_string()),
        "walk leaked past repo root: {cands:?}"
    );
}

#[test]
fn mod_venv_walk_finds_ancestor_and_stops_at_repo_root() {
    let dir = |venv: Option<&str>, repo_root: bool| ScopeDir {
        venv_python: venv.map(|s| s.to_string()),
        python_version: None,
        repo_root,
    };
    // From repo/a/b/c upwards; the repository has a .venv, and so has the directory above.
    let dirs = [
        dir(None, false),
        dir(None, false),
        dir(None, false),
        dir(Some("/tmp/repo/.venv/bin/python"), true),
        dir(Some("/tmp/.venv/bin/python"), false),
    ];
    let cands = discovery_candidates(&None, &dirs, false, &[], &[]);
    assert!(cands.contains(&"/tmp/repo/.venv/bin/python".to_string()), "{cands:?}");
    assert!(
        !cands.contains(&"/tmp/.venv/bin/python".to_string()),
        "walk leaked past repo root: {cands:?}"
    );
}

#[test]
fn discover_path_names_are_version_specific_first() {
    let names = path_python_names(false);
    let generic = names.iter().position(|n| n == "python3" || n == "python.exe");
    assert!(generic.is_some());
    // At least one more specific name precedes the generic fallback.
    assert!(generic.unwrap() > 0);
    let names = path_python_names(true);
    assert!(names.iter().any(|n| n == "python3" || n == "python.exe"));
}

#[test]
fn mod_path_names_are_version_specific_first() {
    let names = path_python_names(false);
    let generic = names.iter().position(|n| n == "python3" || n == "python.exe");
    assert!(generic.is_some());
    // At least one more specific name precedes the generic fallback.
    assert!(generic.unwrap() > 0);
    let names = path_python_names(true);
    assert!(names.iter().any(|n| n == "python3" || n == "python.exe"));
}

#[test]
fn discover_parses_bare_and_ranged_versions() {
    assert!(rstest_cli::discover::request::matches(&probe_full((3, 12, 4), "cpython", false), &req("3.12")));
    assert!(rstest_cli::discover::request::matches(&probe_full((3, 12, 0), "cpython", false), &req("3")));
    assert!(!rstest_cli::discover::request::matches(&probe_full((3, 11, 9), "cpython", false), &req("3.12")));
    let range = req(">=3.12,<3.13");
    assert!(rstest_cli::discover::request::matches(&probe_full((3, 12, 7), "cpython", false), &range));
    assert!(!rstest_cli::discover::request::matches(&probe_full((3, 13, 0), "cpython", false), &range));
    assert!(!rstest_cli::discover::request::matches(&probe_full((3, 11, 0), "cpython", false), &range));
}

#[test]
fn mod_parses_bare_and_ranged_versions() {
    assert!(rstest_cli::discover::request::matches(&probe_full((3, 12, 4), "cpython", false), &req("3.12")));
    assert!(rstest_cli::discover::request::matches(&probe_full((3, 12, 0), "cpython", false), &req("3")));
    assert!(!rstest_cli::discover::request::matches(&probe_full((3, 11, 9), "cpython", false), &req("3.12")));
    let range = req(">=3.12,<3.13");
    assert!(rstest_cli::discover::request::matches(&probe_full((3, 12, 7), "cpython", false), &range));
    assert!(!rstest_cli::discover::request::matches(&probe_full((3, 13, 0), "cpython", false), &range));
    assert!(!rstest_cli::discover::request::matches(&probe_full((3, 11, 0), "cpython", false), &range));
}

#[test]
fn discover_exact_micro_must_match() {
    assert!(rstest_cli::discover::request::matches(&probe_full((3, 12, 4), "cpython", false), &req("==3.12.4")));
    assert!(!rstest_cli::discover::request::matches(&probe_full((3, 12, 5), "cpython", false), &req("==3.12.4")));
}

#[test]
fn mod_exact_micro_must_match() {
    assert!(rstest_cli::discover::request::matches(&probe_full((3, 12, 4), "cpython", false), &req("==3.12.4")));
    assert!(!rstest_cli::discover::request::matches(&probe_full((3, 12, 5), "cpython", false), &req("==3.12.4")));
}

#[test]
fn discover_implementation_and_freethreaded_filter() {
    assert!(rstest_cli::discover::request::matches(&probe_full((3, 10, 0), "pypy", false), &req("pypy@3.10")));
    assert!(!rstest_cli::discover::request::matches(&probe_full((3, 10, 0), "cpython", false), &req("pypy@3.10")));
    assert!(rstest_cli::discover::request::matches(&probe_full((3, 12, 0), "pypy", false), &req("pypy")));
    assert!(rstest_cli::discover::request::matches(&probe_full((3, 13, 0), "cpython", true), &req("3.13t")));
    assert!(!rstest_cli::discover::request::matches(&probe_full((3, 13, 0), "cpython", false), &req("3.13t")));
    // A plain request tolerates either build.
    assert!(rstest_cli::discover::request::matches(&probe_full((3, 13, 0), "cpython", true), &req("3.13")));
}

#[test]
fn mod_implementation_and_freethreaded_filter() {
    assert!(rstest_cli::discover::request::matches(&probe_full((3, 10, 0), "pypy", false), &req("pypy@3.10")));
    assert!(!rstest_cli::discover::request::matches(&probe_full((3, 10, 0), "cpython", false), &req("pypy@3.10")));
    assert!(rstest_cli::discover::request::matches(&probe_full((3, 12, 0), "pypy", false), &req("pypy")));
    assert!(rstest_cli::discover::request::matches(&probe_full((3, 13, 0), "cpython", true), &req("3.13t")));
    assert!(!rstest_cli::discover::request::matches(&probe_full((3, 13, 0), "cpython", false), &req("3.13t")));
    // A plain request tolerates either build.
    assert!(rstest_cli::discover::request::matches(&probe_full((3, 13, 0), "cpython", true), &req("3.13")));
}

#[test]
fn discover_non_version_strings_are_paths_not_requests() {
    assert!(
        matches!(parse_pyarg("/usr/bin/python3", false), PyArg::Path(p) if p == "/usr/bin/python3")
    );
    assert!(matches!(parse_pyarg("./my-python", false), PyArg::Path(p) if p == "./my-python"));
}

#[test]
fn mod_non_version_strings_are_paths_not_requests() {
    assert!(
        matches!(parse_pyarg("/usr/bin/python3", false), PyArg::Path(p) if p == "/usr/bin/python3")
    );
    assert!(matches!(parse_pyarg("./my-python", false), PyArg::Path(p) if p == "./my-python"));
}

#[test]
fn discover_request_selects_first_compatible_in_order() {
    let cands = names(&["a", "b", "c"]);
    let want = req(">=3.12");
    let chosen = resolve_with(&cands, Some(&want), |c: &str| match c {
        "a" => Some(probe_at("/a", (3, 11, 0), true)),
        "b" => Some(probe_at("/b", (3, 12, 5), true)),
        "c" => Some(probe_at("/c", (3, 13, 0), true)),
        _ => None,
    })
    .unwrap();
    assert_eq!(chosen, "/b");
}

#[test]
fn mod_request_selects_first_compatible_in_order() {
    let cands = names(&["a", "b", "c"]);
    let want = req(">=3.12");
    let chosen = resolve_with(&cands, Some(&want), |c: &str| match c {
        "a" => Some(probe_at("/a", (3, 11, 0), true)),
        "b" => Some(probe_at("/b", (3, 12, 5), true)),
        "c" => Some(probe_at("/c", (3, 13, 0), true)),
        _ => None,
    })
    .unwrap();
    assert_eq!(chosen, "/b");
}

#[test]
fn discover_unsatisfiable_request_reports_spec_and_mismatches() {
    let cands = names(&["a"]);
    let want = req(">=3.13");
    let msg = resolve_with(&cands, Some(&want), |_: &str| Some(probe_at("/a", (3, 11, 0), true)))
        .unwrap_err();
    assert!(msg.contains(">=3.13"), "{msg}");
    assert!(msg.contains("does not satisfy"), "{msg}");
}

#[test]
fn mod_unsatisfiable_request_reports_spec_and_mismatches() {
    let cands = names(&["a"]);
    let want = req(">=3.13");
    let msg = resolve_with(&cands, Some(&want), |_: &str| Some(probe_at("/a", (3, 11, 0), true)))
        .unwrap_err();
    assert!(msg.contains(">=3.13"), "{msg}");
    assert!(msg.contains("does not satisfy"), "{msg}");
}

#[test]
fn discover_parses_managed_dir_versions() {
    assert_eq!(parse_dir_version("cpython-3.12.4-macos-aarch64-none"), (3, 12, 4));
    assert_eq!(parse_dir_version("cpython-3.13.0+freethreaded-linux-x86_64-gnu"), (3, 13, 0));
    assert_eq!(parse_dir_version("pypy-3.10-macos-aarch64-none"), (3, 10, 0));
    assert_eq!(parse_dir_version("garbage"), (0, 0, 0));
}

#[test]
fn mod_parses_managed_dir_versions() {
    assert_eq!(parse_dir_version("cpython-3.12.4-macos-aarch64-none"), (3, 12, 4));
    assert_eq!(parse_dir_version("cpython-3.13.0+freethreaded-linux-x86_64-gnu"), (3, 13, 0));
    assert_eq!(parse_dir_version("pypy-3.10-macos-aarch64-none"), (3, 10, 0));
    assert_eq!(parse_dir_version("garbage"), (0, 0, 0));
}

#[test]
fn discover_managed_installs_sorted_newest_first() {
    let installs: Vec<(String, String)> =
        ["cpython-3.11.9-x", "cpython-3.13.1-x", "cpython-3.12.4-x"]
            .iter()
            .map(|n| (n.to_string(), format!("/root/{n}/bin/python3")))
            .collect();
    assert_eq!(
        managed_in(&installs),
        vec![
            "/root/cpython-3.13.1-x/bin/python3",
            "/root/cpython-3.12.4-x/bin/python3",
            "/root/cpython-3.11.9-x/bin/python3",
        ]
    );
}

#[test]
fn mod_managed_installs_sorted_newest_first() {
    let installs: Vec<(String, String)> =
        ["cpython-3.11.9-x", "cpython-3.13.1-x", "cpython-3.12.4-x"]
            .iter()
            .map(|n| (n.to_string(), format!("/root/{n}/bin/python3")))
            .collect();
    assert_eq!(
        managed_in(&installs),
        vec![
            "/root/cpython-3.13.1-x/bin/python3",
            "/root/cpython-3.12.4-x/bin/python3",
            "/root/cpython-3.11.9-x/bin/python3",
        ]
    );
}

#[test]
fn discover_active_venv_wins_over_python_version_pin() {
    let venv = "/venv/bin/python".to_string();
    let cands = names(&["/venv/bin/python", "python3.10"]);
    let chosen = resolve_versioned(Some(venv), &cands, &req("3.10"), |c: &str| match c {
        "/venv/bin/python" => Some(probe_at("/venv/bin/python", (3, 13, 13), true)),
        "python3.10" => Some(probe_at("/usr/bin/python3.10", (3, 10, 0), true)),
        _ => None,
    })
    .unwrap();
    assert_eq!(chosen, "/venv/bin/python");
}

#[test]
fn mod_active_venv_wins_over_python_version_pin() {
    let venv = "/venv/bin/python".to_string();
    let cands = names(&["/venv/bin/python", "python3.10"]);
    let chosen = resolve_versioned(Some(venv), &cands, &req("3.10"), |c: &str| match c {
        "/venv/bin/python" => Some(probe_at("/venv/bin/python", (3, 13, 13), true)),
        "python3.10" => Some(probe_at("/usr/bin/python3.10", (3, 10, 0), true)),
        _ => None,
    })
    .unwrap();
    assert_eq!(chosen, "/venv/bin/python");
}

#[test]
fn discover_unusable_active_venv_falls_back_to_pin() {
    let venv = "/venv/bin/python".to_string();
    let cands = names(&["/venv/bin/python", "python3.10"]);
    let chosen = resolve_versioned(Some(venv), &cands, &req("3.10"), |c: &str| match c {
        "/venv/bin/python" => Some(probe_at("/venv/bin/python", (3, 13, 13), false)),
        "python3.10" => Some(probe_at("/usr/bin/python3.10", (3, 10, 0), true)),
        _ => None,
    })
    .unwrap();
    assert_eq!(chosen, "/usr/bin/python3.10");
}

#[test]
fn mod_unusable_active_venv_falls_back_to_pin() {
    let venv = "/venv/bin/python".to_string();
    let cands = names(&["/venv/bin/python", "python3.10"]);
    let chosen = resolve_versioned(Some(venv), &cands, &req("3.10"), |c: &str| match c {
        "/venv/bin/python" => Some(probe_at("/venv/bin/python", (3, 13, 13), false)),
        "python3.10" => Some(probe_at("/usr/bin/python3.10", (3, 10, 0), true)),
        _ => None,
    })
    .unwrap();
    assert_eq!(chosen, "/usr/bin/python3.10");
}

#[test]
fn discover_no_active_venv_honors_pin() {
    let cands = names(&["python3.13", "python3.10"]);
    let chosen = resolve_versioned(None, &cands, &req("3.10"), |c: &str| match c {
        "python3.13" => Some(probe_at("/usr/bin/python3.13", (3, 13, 0), true)),
        "python3.10" => Some(probe_at("/usr/bin/python3.10", (3, 10, 0), true)),
        _ => None,
    })
    .unwrap();
    assert_eq!(chosen, "/usr/bin/python3.10");
}

#[test]
fn mod_no_active_venv_honors_pin() {
    let cands = names(&["python3.13", "python3.10"]);
    let chosen = resolve_versioned(None, &cands, &req("3.10"), |c: &str| match c {
        "python3.13" => Some(probe_at("/usr/bin/python3.13", (3, 13, 0), true)),
        "python3.10" => Some(probe_at("/usr/bin/python3.10", (3, 10, 0), true)),
        _ => None,
    })
    .unwrap();
    assert_eq!(chosen, "/usr/bin/python3.10");
}

#[test]
fn discover_parses_py_list_paths_legacy_trailing_active_marker() {
    let out = " -3.13-64         C:\\Users\\me\\AppData\\Local\\Programs\\Python\\Python313\\python.exe *\n -3.12-64         C:\\Program Files\\Python312\\python.exe\n -3.9-32          C:\\Python39-32\\python.exe";
    assert_eq!(
        parse_py_list_paths(out),
        vec![
            "C:\\Users\\me\\AppData\\Local\\Programs\\Python\\Python313\\python.exe",
            "C:\\Program Files\\Python312\\python.exe",
            "C:\\Python39-32\\python.exe",
        ]
    );
}

#[test]
fn mod_parses_py_list_paths_legacy_trailing_active_marker() {
    let out = " -3.13-64         C:\\Users\\me\\AppData\\Local\\Programs\\Python\\Python313\\python.exe *\n -3.12-64         C:\\Program Files\\Python312\\python.exe\n -3.9-32          C:\\Python39-32\\python.exe";
    assert_eq!(
        parse_py_list_paths(out),
        vec![
            "C:\\Users\\me\\AppData\\Local\\Programs\\Python\\Python313\\python.exe",
            "C:\\Program Files\\Python312\\python.exe",
            "C:\\Python39-32\\python.exe",
        ]
    );
}

#[test]
fn discover_parses_py_list_paths_newer_leading_active_marker() {
    let out = " -V:3.13          C:\\Program Files\\Python313\\python.exe\n -V:3.12 *        C:\\Users\\me\\AppData\\Local\\Programs\\Python\\Python312\\python.exe";
    assert_eq!(
        parse_py_list_paths(out),
        vec![
            "C:\\Program Files\\Python313\\python.exe",
            "C:\\Users\\me\\AppData\\Local\\Programs\\Python\\Python312\\python.exe",
        ]
    );
}

#[test]
fn mod_parses_py_list_paths_newer_leading_active_marker() {
    let out = " -V:3.13          C:\\Program Files\\Python313\\python.exe\n -V:3.12 *        C:\\Users\\me\\AppData\\Local\\Programs\\Python\\Python312\\python.exe";
    assert_eq!(
        parse_py_list_paths(out),
        vec![
            "C:\\Program Files\\Python313\\python.exe",
            "C:\\Users\\me\\AppData\\Local\\Programs\\Python\\Python312\\python.exe",
        ]
    );
}

#[test]
fn discover_parses_py_list_paths_skips_non_tag_lines() {
    let out = "Installed Pythons found by py Launcher\n\n -3.10-64  C:\\Python310\\python.exe\n";
    assert_eq!(parse_py_list_paths(out), vec!["C:\\Python310\\python.exe"]);
}

#[test]
fn mod_parses_py_list_paths_skips_non_tag_lines() {
    let out = "Installed Pythons found by py Launcher\n\n -3.10-64  C:\\Python310\\python.exe\n";
    assert_eq!(parse_py_list_paths(out), vec!["C:\\Python310\\python.exe"]);
}

#[test]
fn discover_parses_py_list_paths_empty_when_no_installs() {
    assert!(parse_py_list_paths("").is_empty());
    assert!(parse_py_list_paths("No installed Pythons found!\n").is_empty());
}

#[test]
fn mod_parses_py_list_paths_empty_when_no_installs() {
    assert!(parse_py_list_paths("").is_empty());
    assert!(parse_py_list_paths("No installed Pythons found!\n").is_empty());
}

fn entry(size: u64) -> CacheEntry {
    CacheEntry { mtime: 1, size, probe: probe_at("/usr/bin/python3", (3, 12, 0), true) }
}

fn dc(pairs: &[(&str, u64)]) -> OrderedMap<String, CacheEntry> {
    let mut c = OrderedMap::new();
    for (k, s) in pairs {
        c.insert(k.to_string(), entry(*s));
    }
    c
}

fn size_of(c: &OrderedMap<String, CacheEntry>, key: &str) -> u64 {
    c.get(&key.to_string()).unwrap().size
}

fn key(s: &str) -> String {
    s.to_string()
}

#[test]
fn merge_keeps_concurrent_disk_entries_and_ours_win() {
    let on_disk = dc(&[("a", 10), ("b", 20)]);
    let snapshot = dc(&[("a", 11), ("c", 30)]);
    let merged = merge_entries(Some(on_disk), &snapshot);
    assert_eq!(merged.len(), 3);
    assert_eq!(size_of(&merged, "a"), 11);
    assert_eq!(size_of(&merged, "b"), 20);
    assert_eq!(size_of(&merged, "c"), 30);
}

#[test]
fn merge_tolerates_absent_and_corrupt_disk() {
    // A file that cannot be read is given as none.
    assert_eq!(merge_entries(None, &dc(&[("a", 1)])).len(), 1);
}

#[test]
fn put_skips_when_disk_already_holds_same_fingerprint() {
    let base = Some(dc(&[("a", 5)]));
    assert!(put_contribution(&base, &OrderedMap::new(), &key("a"), &entry(5)).is_none());
}

#[test]
fn put_folds_single_entry_when_disk_parsed() {
    let base = Some(dc(&[("b", 20)]));
    let in_mem = dc(&[("a", 5), ("b", 20), ("z", 99)]);
    let c = put_contribution(&base, &in_mem, &key("a"), &entry(5)).unwrap();
    assert_eq!(c.len(), 1);
    assert_eq!(size_of(&c, "a"), 5);
}

#[test]
fn put_overwrites_when_fingerprint_changed() {
    let base = Some(dc(&[("a", 10)]));
    let c = put_contribution(&base, &OrderedMap::new(), &key("a"), &entry(11)).unwrap();
    assert_eq!(c.len(), 1);
    assert_eq!(size_of(&c, "a"), 11);
}

#[test]
fn put_reseeds_from_full_map_when_disk_absent_or_corrupt() {
    let in_mem = dc(&[("a", 5), ("b", 20), ("c", 30)]);
    let c = put_contribution(&None, &in_mem, &key("a"), &entry(5)).unwrap();
    assert_eq!(c.len(), 3);
    assert_eq!(size_of(&c, "b"), 20);
    assert_eq!(size_of(&c, "c"), 30);
}

fn remembered() -> OrderedMap<String, CacheEntry> {
    let mut c = OrderedMap::new();
    c.insert(
        key("/opt/py/bin/python3"),
        CacheEntry {
            mtime: 1000,
            size: 4096,
            probe: probe_at("/opt/py/bin/python3", (3, 12, 4), true),
        },
    );
    c
}

#[test]
fn disk_cache_roundtrips_and_gates_on_mtime_and_size() {
    let c = remembered();
    let at = |mtime: u64, size: u64| disk_cache_get(&c, &key("/opt/py/bin/python3"), mtime, size);
    assert_eq!(at(1000, 4096).unwrap().version, (3, 12, 4));
    assert!(at(1000, 8192).is_none(), "size change must miss");
    assert!(at(1001, 4096).is_none(), "mtime change must miss");
}

#[test]
fn disk_cache_roundtrips_and_gates_on_mtime() {
    let c = remembered();
    let hit = disk_cache_get(&c, &key("/opt/py/bin/python3"), 1000, 4096).unwrap();
    assert_eq!(hit.version, (3, 12, 4));
    assert!(disk_cache_get(&c, &key("/opt/py/bin/python3"), 1001, 4096).is_none());
}

#[test]
fn an_entry_without_a_size_is_missed() {
    let c = dc(&[("p", 0)]);
    assert!(disk_cache_get(&c, &key("p"), 1, 4096).is_none());
}

#[test]
fn what_is_put_is_found_again() {
    let c = put_contribution(&None, &dc(&[("p", 7)]), &key("p"), &entry(7)).unwrap();
    let stored = merge_entries(None, &c);
    assert!(disk_cache_get(&stored, &key("p"), 1, 7).is_some());
}

#[test]
fn answers_are_looked_up_before_an_interpreter_is_run() {
    let mut memory = Vec::new();
    remember(false, &mut memory, "gone", &None);
    let stored = dc(&[("p", 7)]);
    let known = |name: &str, print| lookup(false, &memory, &stored, &key(name), print);
    // It is known that this one gave no answer.
    assert!(matches!(known("gone", Some((1, 7))), Some(None)));
    assert!(matches!(known("p", Some((1, 7))), Some(Some(_))));
    assert!(known("p", Some((2, 7))).is_none());
    assert!(known("new", None).is_none());
}

#[test]
fn answers_are_remembered_by_path_and_stored_by_text() {
    let mut memory = Vec::new();
    let found = Some(probe_at("/v/python", (3, 12, 0), true));
    remember(false, &mut memory, "/v//bin/./python", &found);
    let stored = dc(&[("/w/python", 7)]);
    let known = |name: &str, print| lookup(false, &memory, &stored, &key(name), print);
    assert!(matches!(known("/v/bin/python", None), Some(Some(_))));
    assert!(known("/v/python", None).is_none());
    assert!(matches!(known("/w/python", Some((1, 7))), Some(Some(_))));
    assert!(known("/w//python", Some((1, 7))).is_none());
    remember(false, &mut memory, "/v/bin/python", &None);
    let again = lookup(false, &memory, &stored, &key("/v//bin/python"), None);
    assert!(matches!(again, Some(None)), "the last answer counts");
}

#[test]
fn only_what_was_asked_for_is_run() {
    let tried: RefCell<Vec<String>> = RefCell::new(Vec::new());
    let probe = |c: &str| {
        tried.borrow_mut().push(c.to_string());
        Some(probe_at(c, (3, if c == "/b" { 12 } else { 9 }, 0), c != "/v"))
    };
    let cands = names(&["/a", "/b", "/c"]);
    let pinned = Some(PyArg::Request(req("3.12")));
    assert_eq!(resolve(None, pinned, Some(key("/v")), &cands, probe).unwrap(), "/b");
    assert_eq!(tried.take(), names(&["/v", "/a", "/b"]));
    let explicit = Some(PyArg::Path(key("/e")));
    assert_eq!(resolve(explicit, None, Some(key("/v")), &cands, probe).unwrap(), "/e");
    assert_eq!(tried.take(), names(&["/e"]));
}

#[test]
fn one_interpreter_is_tried_once_however_it_is_written() {
    let dirs = [ScopeDir {
        venv_python: Some(key("/r//.venv/bin/python")),
        python_version: None,
        repo_root: true,
    }];
    let active = Some(key("/r/.venv/bin/python"));
    let got = discovery_candidates(&active, &dirs, false, &[], &names(&["/r/.venv/./bin/python/"]));
    assert_eq!(got.iter().filter(|c| c.starts_with("/r")).count(), 1, "{got:?}");
    assert_eq!(got[0], "/r/.venv/bin/python");
    let got = discovery_candidates(
        &Some(key("C:\\v\\python.exe")),
        &[],
        true,
        &names(&["c:/v/python.exe", "c:/V/python.exe"]),
        &[],
    );
    assert_eq!(got.len(), 5, "{got:?}");
}

#[test]
fn only_answers_are_stored() {
    assert!(to_store(Some((1, 2)), &None).is_none());
    assert!(to_store(None, &Some(probe_at("/x", (3, 12, 0), true))).is_none());
    let e = to_store(Some((1, 2)), &Some(probe_at("/x", (3, 12, 0), true))).unwrap();
    assert_eq!((e.mtime, e.size), (1, 2));
}

#[test]
fn candidates_come_in_order_each_once() {
    let dirs = [ScopeDir {
        venv_python: Some(key("/v/python")),
        python_version: None,
        repo_root: true,
    }];
    let got = discovery_candidates(
        &Some(key("/v/python")),
        &dirs,
        true,
        &names(&["C:/py.exe", "python.exe"]),
        &names(&["/managed"]),
    );
    assert_eq!(got, names(&["/v/python", "python.exe", "python3.exe", "python", "C:/py.exe", "/managed"]));
}

#[test]
fn the_nearest_pin_counts() {
    let dir = |pin: Option<&str>, repo_root: bool| ScopeDir {
        venv_python: None,
        python_version: pin.map(|s| s.to_string()),
        repo_root,
    };
    assert_eq!(
        python_version_arg(&[dir(Some("# note\n\n 3.12 \n"), false), dir(Some("3.9"), true)]),
        Some(key("3.12"))
    );
    assert_eq!(python_version_arg(&[dir(None, true), dir(Some("3.9"), false)]), None);
}

#[test]
fn demands_are_read_and_written() {
    let c = parse_constraint(">=3.12").unwrap();
    assert_eq!((c.op, c.major, c.minor, c.micro), (Op::Ge, 3, Some(12), None));
    assert_eq!(c.to_text(), ">=3.12");
    assert!(parse_constraint(">=x").is_none());
    assert!(parse_request("").is_none());
    assert_eq!(req("pypy@3.10").implementation.as_deref(), Some("pypy"));
    assert!(matches!(parse_pyarg("3.12", true), PyArg::Path(_)));
}

#[test]
fn an_explicit_interpreter_comes_first() {
    let usable = |c: &str| match c {
        "/e" => Some(probe_at("/e", (3, 12, 0), true)),
        "/d" => Some(probe_at("/d", (3, 13, 0), true)),
        _ => None,
    };
    let cands = names(&["/d"]);
    assert_eq!(
        resolve(Some(PyArg::Path(key("/e"))), None, None, &cands, usable).unwrap(),
        "/e"
    );
    assert_eq!(resolve(None, None, None, &cands, usable).unwrap(), "/d");
    assert!(resolve(None, Some(PyArg::Request(req("3.9"))), None, &cands, usable).is_err());
}

#[test]
fn managed_interpreters_are_where_their_manager_puts_them() {
    assert_eq!(
        uv_python_dir(Some(key("/i")), false, None, None, Some(key("/h"))),
        Some(key("/i"))
    );
    assert_eq!(
        uv_python_dir(None, false, None, Some(key("/data")), Some(key("/h"))),
        Some(key("/data/uv/python"))
    );
    assert_eq!(
        uv_python_dir(None, false, None, None, Some(key("/h"))),
        Some(key("/h/.local/share/uv/python"))
    );
    assert_eq!(uv_python_dir(None, true, None, None, Some(key("/h"))), None);
}

#[test]
fn probes_are_cached_below_the_users_cache() {
    let at = cache_path(None, false, None, Some(key("/c")), Some(key("/h"))).unwrap();
    assert!(at.starts_with("/c/"), "{at}");
    let at = cache_path(None, false, None, None, Some(key("/h"))).unwrap();
    assert!(at.starts_with("/h/.cache/"), "{at}");
    assert!(cache_path(None, false, None, None, None).is_none());
}

#[test]
fn a_request_that_is_written_out_reads_back() {
    for text in ["3.12", ">=3.12,<3.13", "pypy@3.10", "3.13t", "PyPy", "pypy@", "==3.9.1", "<=3.8t"] {
        let r = parse_request(text).unwrap();
        let again = parse_request(&r.to_text()).unwrap();
        assert_eq!(again.implementation, r.implementation, "{text}");
        assert_eq!(again.freethreaded, r.freethreaded, "{text}");
        assert_eq!(again.constraints, r.constraints, "{text}");
    }
    for text in [">=3.12", "3", "<3.13.1"] {
        let c = parse_constraint(text).unwrap();
        assert_eq!(c.to_text(), text);
        assert_eq!(parse_constraint(&c.to_text()), Some(c));
    }
}

#[test]
fn an_installation_has_its_interpreter_at_a_usual_place() {
    let at = |a, b, c| managed_exe("/uv/cpython-3.12", a, b, c, false);
    assert_eq!(at(true, true, true), Some("/uv/cpython-3.12/bin/python3".to_string()));
    assert_eq!(at(false, true, true), Some("/uv/cpython-3.12/bin/python".to_string()));
    assert_eq!(at(false, false, true), Some("/uv/cpython-3.12/python.exe".to_string()));
    assert_eq!(at(false, false, false), None);
    assert_eq!(venv_python(".venv", true, true, false), Some(".venv/bin/python".to_string()));
    assert_eq!(
        venv_python(".venv", false, true, true),
        Some(r".venv\Scripts/python.exe".to_string())
    );
    assert_eq!(venv_python(".venv", false, false, false), None);
}
