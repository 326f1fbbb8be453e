//! Which tests need not run.

use rstest_cli::coverage_skip::{
    carry_forward, classify_entry, config_fingerprint, cov_scope_narrowed, coverage_requested,
    covered_files, load, record, skippable, skippable_now, test_file_hashes, Baseline,
    CoverageFile, CoverageIndex, EntryAction,
};
use rstest_cli::digest::content_hash;
use rstest_cli::ordered_map::{OrderedMap, TextSet};
use std::cell::RefCell;

type LineSpec<'a> = (u32, &'a [&'a str]);
type FileSpec<'a> = (&'a str, &'a str, &'a [LineSpec<'a>]);

fn index(files: &[FileSpec]) -> CoverageIndex {
    let mut idx = CoverageIndex { schema: 0, files: OrderedMap::new() };
    for (path, hash, lines) in files {
        let mut lm = OrderedMap::new();
        for (ln, ids) in *lines {
            lm.insert(*ln, ids.iter().map(|s| s.to_string()).collect());
        }
        idx.files.insert((*path).to_string(), CoverageFile { hash: hash.to_string(), lines: lm });
    }
    idx
}

fn set(ids: &[&str]) -> TextSet {
    let owned: Vec<String> = ids.iter().map(|s| s.to_string()).collect();
    TextSet::from_list(&owned)
}

fn holds(s: &TextSet, id: &str) -> bool {
    s.contains(&id.to_string())
}

/// Baseline with `ids` green and each of their test files hashed to `tf_hash`.
fn base(ids: &[&str], tf_hash: &str) -> Baseline {
    let mut test_file_hashes = OrderedMap::new();
    for id in ids {
        let file = id.split("::").next().unwrap().to_string();
        test_file_hashes.insert(file, tf_hash.to_string());
    }
    Baseline { green: set(ids), test_file_hashes, test_lines: OrderedMap::new() }
}

/// A hash stub: test files hash to `tf`, everything else to `src`.
fn stub<'a>(src: &'a str, tf: &'a str) -> impl Fn(&str) -> Option<String> + 'a {
    move |rel: &str| {
        Some(if rel.ends_with(".py") && rel.starts_with('t') { tf } else { src }.to_string())
    }
}

#[test]
fn only_files_that_matter_are_hashed() {
    let idx = index(&[
        ("mod.py", "H", &[(1, &["t.py::test_a"])]),
        ("other.py", "H", &[(1, &["u.py::test_b"])]),
    ]);
    let hashed: RefCell<Vec<String>> = RefCell::new(Vec::new());
    let hash = |rel: &str| {
        hashed.borrow_mut().push(rel.to_string());
        stub("H", "TF")(rel)
    };
    skippable(&idx, &base(&["t.py::test_a"], "TF"), hash);
    let mut files = hashed.take();
    files.sort();
    assert_eq!(files, vec!["mod.py".to_string(), "t.py".to_string()]);
}

#[test]
fn green_and_unchanged_is_skippable() {
    let idx = index(&[("mod.py", "H", &[(1, &["t.py::test_a"])])]);
    let skip = skippable(&idx, &base(&["t.py::test_a"], "TF"), stub("H", "TF"));
    assert!(holds(&skip, "t.py::test_a"));
}

#[test]
fn changed_covered_file_is_not_skippable() {
    let idx = index(&[("mod.py", "H", &[(1, &["t.py::test_a"])])]);
    let skip = skippable(&idx, &base(&["t.py::test_a"], "TF"), stub("DIFFERENT", "TF"));
    assert!(skip.is_empty());
}

#[test]
fn changed_test_file_is_not_skippable() {
    let idx = index(&[("mod.py", "H", &[(1, &["t.py::test_a"])])]);
    let skip = skippable(&idx, &base(&["t.py::test_a"], "TF"), stub("H", "EDITED"));
    assert!(skip.is_empty(), "editing the test file must force a run");
}

#[test]
fn non_green_test_is_not_skippable() {
    let idx = index(&[("mod.py", "H", &[(1, &["t.py::test_a"])])]);
    let skip = skippable(&idx, &base(&["t.py::test_b"], "TF"), stub("H", "TF"));
    assert!(!holds(&skip, "t.py::test_a"));
}

#[test]
fn deleted_covered_file_is_not_skippable() {
    let idx = index(&[("mod.py", "H", &[(1, &["t.py::test_a"])])]);
    let skip = skippable(&idx, &base(&["t.py::test_a"], "TF"), |_: &str| None);
    assert!(skip.is_empty());
}

#[test]
fn test_covering_many_files_needs_all_unchanged() {
    let idx = index(&[
        ("a.py", "H1", &[(1, &["t.py::test_a"])]),
        ("b.py", "H2", &[(2, &["t.py::test_a"])]),
    ]);
    let skip = skippable(&idx, &base(&["t.py::test_a"], "TF"), |rel: &str| {
        Some(
            match rel {
                "a.py" => "CHANGED",
                "b.py" => "H2",
                _ => "TF",
            }
            .to_string(),
        )
    });
    assert!(skip.is_empty(), "one changed dependency must force a run");
}

#[test]
fn carry_forward_restores_cached_test_coverage() {
    let old = index(&[
        ("a.py", "HA", &[(1, &["t.py::test_a"])]),
        ("b.py", "HB", &[(2, &["t.py::test_b"])]),
    ]);
    let mut new = index(&[("b.py", "HB", &[(2, &["t.py::test_b"])])]);
    carry_forward(&old, &mut new, &set(&["t.py::test_a"]));
    let a = new.files.get(&"a.py".to_string()).unwrap();
    assert_eq!(a.hash, "HA");
    assert_eq!(a.lines.get(&1).unwrap(), &vec!["t.py::test_a".to_string()]);
    assert!(new.files.contains_key(&"b.py".to_string()), "ran test's coverage kept");
}

fn conftest(text: &[u8]) -> Vec<(String, Vec<u8>)> {
    vec![("tests/conftest.py".to_string(), text.to_vec())]
}

#[test]
fn conftest_change_busts_config_fingerprint() {
    let none = OrderedMap::new();
    let base = config_fingerprint(&none, &[], false);
    let added = config_fingerprint(&none, &conftest(b"import pytest\n"), false);
    assert_ne!(base, added, "adding a nested conftest must bust");
    let edited = config_fingerprint(&none, &conftest(b"import pytest  # edit\n"), false);
    assert_ne!(added, edited, "editing a conftest must bust");
    assert_eq!(base, config_fingerprint(&none, &[], false), "removing it returns to base");
}

#[test]
fn coverage_requested_detects_cov_flag_only() {
    assert!(coverage_requested(&["--cov=.".to_string()]));
    assert!(coverage_requested(&["--cov".to_string()]));
    assert!(!coverage_requested(&["-n".to_string(), "2".to_string()]));
    assert!(!coverage_requested(&["--cov-report=".to_string()]));
    assert!(!coverage_requested(&["--cov-context=test".to_string()]));
}

#[test]
fn cov_scope_narrowed_flags_subtree_scopes_only() {
    assert!(!cov_scope_narrowed(&["--cov".to_string()]));
    assert!(!cov_scope_narrowed(&["--cov=.".to_string()]));
    assert!(!cov_scope_narrowed(&["--cov=./".to_string()]));
    assert!(!cov_scope_narrowed(&["--cov=".to_string()]));
    assert!(cov_scope_narrowed(&["--cov=pkg".to_string()]));
    assert!(cov_scope_narrowed(&["--cov=src/pkg".to_string()]));
    assert!(!cov_scope_narrowed(&["--cov=pkg".to_string(), "--cov=.".to_string()]));
    assert!(!cov_scope_narrowed(&["--cov=pkg".to_string(), "--cov".to_string()]));
    assert!(!cov_scope_narrowed(&["--cov".to_string(), "--cov=pkg".to_string()]));
    assert!(!cov_scope_narrowed(&["--cov-context=test".to_string()]));
    assert!(!cov_scope_narrowed(&["--cov-report=".to_string()]));
}

#[test]
fn classify_entry_skips_on_file_type_error() {
    assert!(matches!(classify_entry(None, "conftest.py"), EntryAction::Skip));
}

#[test]
fn config_file_change_busts_config_fingerprint() {
    let empty = config_fingerprint(&OrderedMap::new(), &[], false);
    let mut files = OrderedMap::new();
    files.insert("pyproject.toml".to_string(), b"[tool.pytest]\n".to_vec());
    let added = config_fingerprint(&files, &[], false);
    assert_ne!(empty, added, "adding pyproject.toml must bust");
    files.insert("pyproject.toml".to_string(), b"[tool.pytest]  # edit\n".to_vec());
    assert_ne!(added, config_fingerprint(&files, &[], false), "editing it must bust");
}

#[test]
fn config_fingerprint_on_missing_scope_is_stable() {
    let none = OrderedMap::new();
    assert_eq!(config_fingerprint(&none, &[], false), config_fingerprint(&none, &[], false));
}

#[test]
fn the_order_of_conftests_does_not_matter() {
    let none = OrderedMap::new();
    let a = ("a/conftest.py".to_string(), b"1".to_vec());
    let b = ("b/conftest.py".to_string(), b"2".to_vec());
    assert_eq!(
        config_fingerprint(&none, &[a.clone(), b.clone()], false),
        config_fingerprint(&none, &[b, a], false)
    );
}

#[test]
fn test_file_hashes_hashes_existing_files_only() {
    let green = set(&["/d/t_real.py::test_x", "does_not_exist.py::test_y"]);
    let hashes = test_file_hashes(&green, |rel: &str| {
        if rel == "/d/t_real.py" {
            Some(content_hash(b"def test_x(): pass\n"))
        } else {
            None
        }
    });
    assert!(hashes.contains_key(&"/d/t_real.py".to_string()));
    assert!(!hashes.contains_key(&"does_not_exist.py".to_string()));
}

#[test]
fn record_and_read_round_trip_with_config_gate() {
    let stored = || {
        let mut lines = OrderedMap::new();
        lines.insert("t.py::test_a".to_string(), 7u64);
        record("cfg-A", set(&["t.py::test_a"]), lines, |_: &str| Some("H".to_string()))
    };
    let b = load(Some(stored()), "cfg-A");
    assert!(holds(&b.green, "t.py::test_a"));
    assert_eq!(b.test_lines.get(&"t.py::test_a".to_string()), Some(&7));
    assert!(load(Some(stored()), "cfg-B").green.is_empty());
    assert!(load(None, "cfg-A").green.is_empty());
}

#[test]
fn test_file_hashes_dedups_shared_test_file() {
    let asked = RefCell::new(0);
    let green = set(&["t_shared.py::test_x", "t_shared.py::test_y"]);
    let hashes = test_file_hashes(&green, |_: &str| {
        *asked.borrow_mut() += 1;
        Some("H".to_string())
    });
    assert_eq!(hashes.len(), 1);
    assert!(hashes.contains_key(&"t_shared.py".to_string()));
    assert_eq!(asked.into_inner(), 1);
}

#[test]
fn skippable_empty_green_baseline_skips_nothing() {
    let idx = index(&[("mod.py", "H", &[(1, &["t.py::test_a"])])]);
    let empty = Baseline::default();
    assert!(skippable(&idx, &empty, stub("H", "TF")).is_empty());
}

#[test]
fn skippable_now_hashes_live_files() {
    let id = "/d/t.py::test_a";
    let mod_hash = content_hash(b"x = 1\n");
    let test_hash = content_hash(b"def test_a(): pass\n");
    let idx = index(&[("/d/mod.py", mod_hash.as_str(), &[(1, &[id])])]);
    let mut test_file_hashes = OrderedMap::new();
    test_file_hashes.insert("/d/t.py".to_string(), test_hash);
    let baseline =
        Baseline { green: set(&[id]), test_file_hashes, test_lines: OrderedMap::new() };
    let tree = |module: &'static [u8]| {
        move |rel: &str| match rel {
            "/d/mod.py" => Some(module.to_vec()),
            "/d/t.py" => Some(b"def test_a(): pass\n".to_vec()),
            _ => None,
        }
    };
    assert!(holds(&skippable_now(&idx, &baseline, tree(b"x = 1\n")), id));
    // Editing the covered file busts it.
    assert!(skippable_now(&idx, &baseline, tree(b"x = 2\n")).is_empty());
}

#[test]
fn collect_conftests_prunes_and_descends() {
    assert_eq!(classify_entry(Some(false), "conftest.py"), EntryAction::Collect);
    assert_eq!(classify_entry(Some(true), "src"), EntryAction::Descend);
    assert_eq!(classify_entry(Some(false), "not_a_conftest.py"), EntryAction::Skip);
    assert_eq!(classify_entry(Some(true), ".venv"), EntryAction::Skip);
    assert_eq!(classify_entry(Some(true), ".hidden"), EntryAction::Skip);
}

#[test]
fn content_is_hashed_with_sha256() {
    assert_eq!(
        content_hash(b"abc"),
        "ba7816bf8f01cfea414140de5dae2223b00361a396177a9cb410ff61f20015ad"
    );
}

#[test]
fn covered_files_are_listed_by_test() {
    let idx = index(&[
        ("a.py", "H", &[(1, &["t::x"]), (2, &["t::x", "t::y"])]),
        ("b.py", "H", &[(1, &["t::y"])]),
    ]);
    let by_test = covered_files(&idx);
    assert_eq!(by_test.get(&"t::x".to_string()).unwrap().to_list(), vec!["a.py"]);
    assert_eq!(by_test.get(&"t::y".to_string()).unwrap().to_list(), vec!["a.py", "b.py"]);
}
