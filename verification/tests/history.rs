//! What is remembered between runs.

use rstest_cli::cache::{
    dir, file_in, mono_override, temporary_name, with_lock, with_lock_in,
};
use rstest_cli::double::Double;
use rstest_cli::durations::{compared, dispatch_order, regressions, save, Growth};
use rstest_cli::flakes::{known_flaky, record, FlakeStats};
use rstest_cli::incremental::{
    baseline, env_fingerprint, head_sha, record_green, Baseline, FileMeta, Lockfiles,
};
use rstest_cli::ordered_map::OrderedMap;
use rstest_cli::paths::{components, file_name, path_join, relative_to};
use std::cell::RefCell;

fn d(x: f64) -> Double {
    Double { bits: x.to_bits() }
}

fn times(pairs: &[(&str, f64)]) -> OrderedMap<String, Double> {
    let mut m = OrderedMap::new();
    for (id, t) in pairs {
        m.insert(id.to_string(), d(*t));
    }
    m
}

fn run_with(timings: &[(&str, f64)]) -> Vec<(String, Double)> {
    timings.iter().map(|(id, t)| (id.to_string(), d(*t))).collect()
}

/// The regressions of a run, with the arithmetic done on floating-point numbers.
fn grown(run: &[(&str, f64)], base: &[(&str, f64)], ratio: f64) -> Vec<(String, f64, f64)> {
    let rows: Vec<Growth> = compared(&run_with(run), &times(base))
        .into_iter()
        .map(|timing| {
            let old = f64::from_bits(timing.old.bits);
            let new = f64::from_bits(timing.new.bits);
            Growth { timing, bar: d(old * ratio), growth: d(new - old) }
        })
        .collect();
    regressions(&rows)
        .into_iter()
        .map(|(id, old, new)| (id, f64::from_bits(old.bits), f64::from_bits(new.bits)))
        .collect()
}

#[test]
fn empty_cache_keeps_collection_order() {
    let ids: Vec<String> = (0..4).map(|i| format!("t{i}")).collect();
    assert_eq!(dispatch_order(&ids, &OrderedMap::new()), vec![0, 1, 2, 3]);
}

#[test]
fn regression_rows_respect_floors() {
    let rows = grown(
        &[
            ("t/a.py::slow", 2.0),
            ("t/a.py::micro", 0.02),
            ("t/a.py::brand_new", 3.0),
            ("t/a.py::small_growth", 0.9),
        ],
        &[("t/a.py::slow", 0.5), ("t/a.py::micro", 0.005), ("t/a.py::small_growth", 0.42)],
        2.0,
    );
    assert_eq!(rows.len(), 1);
    assert_eq!(rows[0].0, "t/a.py::slow");
    assert_eq!(rows[0].1, 0.5);
}

#[test]
fn regression_threshold_multiplies_baseline_not_divides() {
    assert!(
        grown(&[("t::a", 2.0)], &[("t::a", 1.0)], 3.0).is_empty(),
        "current below old*ratio must not flag"
    );
}

#[test]
fn regressions_sorted_by_absolute_growth_desc() {
    let rows = grown(&[("t::a", 1.1), ("t::b", 5.8)], &[("t::a", 0.1), ("t::b", 5.0)], 1.0);
    assert_eq!(rows.len(), 2);
    assert_eq!(rows[0].0, "t::a", "larger absolute growth ranks first");
    assert_eq!(rows[1].0, "t::b");
}

#[test]
fn regressions_ranked_by_growth_not_ratio() {
    let rows = grown(&[("t::a", 11.0), ("t::b", 0.9)], &[("t::a", 10.0), ("t::b", 0.1)], 1.0);
    assert_eq!(rows.len(), 2);
    assert_eq!(rows[0].0, "t::a", "growth, not ratio, decides the order");
}

#[test]
fn under_threshold_cached_test_is_not_a_long_pole() {
    let ids = vec!["t0".to_string(), "t1".to_string()];
    assert_eq!(dispatch_order(&ids, &times(&[("t1", 0.3)])), vec![0, 1]);
}

#[test]
fn long_poles_first_longest_first() {
    let ids: Vec<String> = (0..5).map(|i| format!("t{i}")).collect();
    let cache = times(&[("t1", 2.0), ("t3", 9.0), ("t0", 0.2)]);
    assert_eq!(dispatch_order(&ids, &cache), vec![3, 1, 0, 2, 4]);
}

#[test]
fn saving_times_keeps_those_of_other_tests() {
    let mut cache = times(&[("a", 1.0), ("b", 2.0)]);
    save(&mut cache, &run_with(&[("b", 5.0), ("c", 3.0)]));
    assert_eq!(cache.get(&"a".to_string()), Some(&d(1.0)));
    assert_eq!(cache.get(&"b".to_string()), Some(&d(5.0)));
    assert_eq!(cache.get(&"c".to_string()), Some(&d(3.0)));
}

fn stats(flaky: u32, failed: u32) -> FlakeStats {
    FlakeStats { flaky, failed, last_epoch: 1 }
}

#[test]
fn known_flaky_keys_on_flaky_not_failed() {
    let mut log = OrderedMap::new();
    log.insert("a::flaked".to_string(), stats(2, 0));
    log.insert("b::failed_only".to_string(), stats(0, 9));
    log.insert("c::both".to_string(), stats(1, 3));
    let set = known_flaky(&log);
    assert!(set.contains(&"a::flaked".to_string()));
    assert!(set.contains(&"c::both".to_string()));
    assert!(!set.contains(&"b::failed_only".to_string()));
    assert_eq!(set.len(), 2);
}

#[test]
fn a_green_run_adds_nothing_to_the_log() {
    let mut log = OrderedMap::new();
    log.insert("a".to_string(), stats(2, 0));
    assert!(!record(&mut log, &[], &[], 9));
    assert_eq!(log.get(&"a".to_string()), Some(&stats(2, 0)));
}

#[test]
fn flakes_and_failures_are_counted_apart() {
    let mut log = OrderedMap::new();
    assert!(record(&mut log, &["a".to_string()], &["b".to_string()], 7));
    assert!(record(&mut log, &["a".to_string()], &[], 8));
    let a = log.get(&"a".to_string()).copied().unwrap();
    assert_eq!((a.flaky, a.failed, a.last_epoch), (2, 0, 8));
    let b = log.get(&"b".to_string()).copied().unwrap();
    assert_eq!((b.flaky, b.failed, b.last_epoch), (0, 1, 7));
}

#[test]
fn mono_override_namespaces_rstest_cache_per_project() {
    let root = "/repo";
    assert_eq!(mono_override(root, "libs-a", None, false), None);
    assert_eq!(
        mono_override(root, "libs-a", Some("/ci/cache"), false),
        Some("/ci/cache/libs-a".to_string())
    );
    assert_eq!(
        mono_override(root, "libs-a", Some("cache"), false),
        Some("/repo/cache/libs-a".to_string())
    );
}

#[test]
fn file_in_uses_project_dir_and_name() {
    assert_eq!(
        file_in("/repo/libs/a", "durations.json", false),
        "/repo/libs/a/.rstest_cache/durations.json"
    );
}

#[test]
fn the_cache_directory_can_be_set() {
    assert_eq!(dir(None), ".rstest_cache");
    assert_eq!(dir(Some("/c")), "/c");
    assert_eq!(rstest_cli::cache::file(None, "x.json", false), ".rstest_cache/x.json");
    assert_eq!(rstest_cli::cache::file(Some("/c"), "x.json", false), "/c/x.json");
}

#[test]
fn with_lock_returns_closure_value_and_creates_dir() {
    let asked = RefCell::new(Vec::new());
    let got = with_lock_in("/c", |d: &str| asked.borrow_mut().push(d.to_string()), |_| 42);
    assert_eq!(got, 42);
    assert_eq!(asked.into_inner(), vec!["/c"]);
}

#[test]
fn with_lock_runs_unlocked_when_dir_uncreatable() {
    let lock: RefCell<Option<u8>> = RefCell::new(Some(1));
    let got = with_lock_in("/nowhere", |_: &str| *lock.borrow_mut() = None, |_| 7);
    assert!(lock.borrow().is_none());
    assert_eq!(got, 7);
}

#[test]
fn with_lock_runs_unlocked_when_lock_file_unopenable() {
    let got = with_lock(Some("/d"), |_: &str| None::<u8>, |_| "ran");
    assert_eq!(got, "ran");
}

/// A lock that tells when it is let go.
struct Held<'a>(&'a RefCell<Vec<&'static str>>);

impl Drop for Held<'_> {
    fn drop(&mut self) {
        self.0.borrow_mut().push("let go");
    }
}

#[test]
fn the_lock_is_held_while_the_work_is_done() {
    let log: RefCell<Vec<&'static str>> = RefCell::new(Vec::new());
    let got = with_lock_in(
        "/c",
        |_: &str| {
            log.borrow_mut().push("taken");
            Held(&log)
        },
        |_| {
            log.borrow_mut().push("worked");
            3
        },
    );
    assert_eq!(got, 3);
    assert_eq!(log.into_inner(), vec!["taken", "worked", "let go"]);
}

#[test]
fn temporary_files_are_told_apart() {
    assert_eq!(temporary_name("a.json", 12, 255, 10), ".a.json.12.ff.a.tmp");
    assert_ne!(temporary_name("a.json", 1, 2, 3), temporary_name("a.json", 1, 2, 4));
    assert_ne!(temporary_name("a.json", 1, 2, 3), temporary_name("a.json", 1, 3, 3));
}

const FP: &str = "fp-A";

#[test]
fn baseline_absent_before_any_green_run() {
    assert_eq!(baseline(None, FP), None);
}

#[test]
fn record_then_read_round_trips() {
    let stored = record_green("abc123", FP);
    assert_eq!(baseline(Some(stored), FP).as_deref(), Some("abc123"));
    let stored = record_green("def456", FP);
    assert_eq!(baseline(Some(stored), FP).as_deref(), Some("def456"));
}

#[test]
fn fingerprint_mismatch_busts_the_baseline() {
    assert_eq!(baseline(Some(record_green("abc123", "fp-A")), "fp-A").as_deref(), Some("abc123"));
    assert_eq!(
        baseline(Some(record_green("abc123", "fp-A")), "fp-B"),
        None,
        "changed env must bust"
    );
}

#[test]
fn schema_mismatch_reads_as_absent() {
    let stored = Baseline {
        schema: 999,
        sha: "abc".to_string(),
        fingerprint: "fp-A".to_string(),
    };
    assert_eq!(baseline(Some(stored), FP), None);
}

#[test]
fn empty_sha_reads_as_absent() {
    assert_eq!(baseline(Some(record_green("", FP)), FP), None);
}

fn locks(uv: Option<&[u8]>) -> Lockfiles {
    Lockfiles { uv: uv.map(|b| b.to_vec()), poetry: None, pdm: None, requirements: None }
}

#[test]
fn env_fingerprint_reflects_interpreter_and_lockfiles() {
    let meta = || Some(FileMeta { len: 7, modified: Some(100) });
    let base = env_fingerprint("/v/python", meta(), &locks(None));
    assert_eq!(base, env_fingerprint("/v/python", meta(), &locks(None)));
    let with_lock = env_fingerprint("/v/python", meta(), &locks(Some(b"a = 1\n")));
    assert_ne!(base, with_lock, "adding a lockfile must change the fp");
    assert_ne!(
        with_lock,
        env_fingerprint("/v/python", meta(), &locks(Some(b"a = 2\n"))),
        "editing lock changes fp"
    );
    assert_eq!(base.len(), 64);
}

#[test]
fn the_commit_is_what_was_printed() {
    assert_eq!(head_sha(true, " abc\n").as_deref(), Some("abc"));
    assert_eq!(head_sha(true, "\n"), None);
    assert_eq!(head_sha(false, "abc\n"), None);
}

#[test]
fn projects_have_their_own_cache_below_the_one_that_is_set() {
    let a = mono_override("/repo", "libs-a", Some("cache"), false);
    let b = mono_override("/repo", "libs-b", Some("cache"), false);
    assert_ne!(a, b);
    assert_eq!(b, Some("/repo/cache/libs-b".to_string()));
}

#[test]
fn a_failure_does_not_undo_a_flake() {
    let mut log = OrderedMap::new();
    log.insert("a".to_string(), stats(2, 1));
    assert!(record(&mut log, &[], &["a".to_string()], 9));
    let a = log.get(&"a".to_string()).copied().unwrap();
    assert_eq!((a.flaky, a.failed), (2, 2));
    assert!(known_flaky(&log).contains(&"a".to_string()));
}

#[test]
fn a_relative_path_leads_back() {
    for (root, path) in [
        ("/", "/a/b.py"),
        ("/repo/", "/repo//tests/./a.py"),
        ("/repo", "/repo"),
        ("repo", "repo/a.py"),
        (".", "./a.py"),
    ] {
        let rel = relative_to(false, path, root).unwrap();
        let back = path_join(false, root, &rel);
        assert_eq!(components(false, &back), components(false, path), "{root} {path}");
    }
    assert_eq!(relative_to(false, "/other/a.py", "/repo"), None);
    assert_eq!(relative_to(false, "/repo//tests/./a.py", "/repo/"), Some("tests/a.py".to_string()));
}

fn parts(path: &str) -> Vec<String> {
    components(true, path)
}

#[test]
fn windows_paths_are_joined_as_windows_does() {
    assert_eq!(path_join(true, r"C:\repo", "cache"), r"C:\repo\cache");
    assert_eq!(path_join(true, r"C:\repo\", "cache"), r"C:\repo\cache");
    assert_eq!(path_join(true, "C:/repo/", "cache"), "C:/repo/cache");
    assert_eq!(path_join(true, r"C:\repo", r"D:\ci\cache"), r"D:\ci\cache");
    assert_eq!(path_join(true, r"C:\repo", "D:cache"), "D:cache");
    assert_eq!(path_join(true, r"C:\repo", r"\ci"), r"C:\ci");
    assert_eq!(path_join(true, r"C:\repo", "/ci"), "C:/ci");
    assert_eq!(path_join(true, "C:", "x"), "C:x");
    assert_eq!(path_join(true, r"\\srv\share\a", r"\b"), r"\\srv\share\b");
    assert_eq!(path_join(true, r"\\?\C:\a", "../b/./c"), r"\\?\C:\b\c");
    assert_eq!(path_join(true, r"\\?\C:\a", r"\b"), r"\\?\C:\b");
    assert_eq!(path_join(true, "", "x"), "x");
    let root = r"C:\repo";
    assert_eq!(
        mono_override(root, "libs-a", Some(r"C:\ci\cache"), true),
        Some(r"C:\ci\cache\libs-a".to_string())
    );
}

#[test]
fn windows_paths_fall_into_components() {
    assert_eq!(parts(r"c:\a/b\.\c"), vec!["C:", "\\", "a", "b", "c"]);
    assert_eq!(parts(r"C:a"), vec!["C:", "a"]);
    assert_eq!(parts("//srv/share/a"), vec![r"\\srv\share", "\\", "a"]);
    assert_eq!(parts(r"\\?\c:\a\.\b"), vec![r"\\?\C:", "\\", "a", ".", "b"]);
    assert_eq!(parts(r".\a"), vec![".", "a"]);
    assert_eq!(parts(r"\a"), vec!["\\", "a"]);
    assert_eq!(relative_to(true, r"c:\repo\tests\a.py", "C:/repo"), Some("tests/a.py".to_string()));
    assert_eq!(relative_to(true, r"D:\repo\a.py", r"C:\repo"), None);
    assert_eq!(file_name(true, r"C:\a\t.py"), Some("t.py".to_string()));
    assert_eq!(file_name(true, r"C:\"), None);
    assert_eq!(file_name(true, "C:"), None);
}
