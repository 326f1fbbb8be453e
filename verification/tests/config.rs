//! Configuration files.

use rstest_cli::collect::{
    collection_roots, glob_match, is_test_file, pick_test_files, walks_into,
};
use rstest_cli::config::{
    discover, has_pytest_config, parse_ini, parse_pyproject, rstest_settings, ConfigDir,
    ProjectConfig, PyprojectFile, RstestSettings,
};

fn bare(path: &str) -> ConfigDir {
    ConfigDir {
        path: path.to_string(),
        windows: false,
        pytest_ini: None,
        pyproject: None,
        tox_ini: None,
        setup_cfg: None,
    }
}

fn with_ini(text: &str) -> ConfigDir {
    ConfigDir { pytest_ini: Some(text.to_string()), ..bare("/d") }
}

fn found(dir: ConfigDir) -> ProjectConfig {
    discover(&[dir]).0
}

fn settings(text: &str) -> RstestSettings {
    rstest_settings(&[PyprojectFile {
        path: "/d/pyproject.toml".to_string(),
        text: Some(text.to_string()),
    }])
    .0
}

#[test]
fn default_python_files_match_pytest() {
    let cfg = ProjectConfig::default();
    assert_eq!(cfg.python_files, vec!["test_*.py", "*_test.py"]);
}

#[test]
fn settings_from_pyproject() {
    let s = settings(
        r#"
[tool.rstest]
numprocesses = 4
dist = "loadfile"
reruns = 2
worker-timeout = 120
"#,
    );
    assert_eq!(s.numprocesses.as_deref(), Some("4"));
    assert_eq!(s.dist.as_deref(), Some("loadfile"));
    assert_eq!(s.reruns, Some(2));
    assert_eq!(s.worker_timeout, Some(120));
}

#[test]
fn settings_accept_auto_string() {
    let s = settings("[tool.rstest]\nnumprocesses = \"auto\"\n");
    assert_eq!(s.numprocesses.as_deref(), Some("auto"));
}

#[test]
fn nearest_pyproject_is_the_boundary() {
    let (s, notes) = rstest_settings(&[
        PyprojectFile {
            path: "/p/sub/pyproject.toml".to_string(),
            text: Some("[project]\nname = \"x\"\n".to_string()),
        },
        PyprojectFile {
            path: "/p/pyproject.toml".to_string(),
            text: Some("[tool.rstest]\nreruns = 9\n".to_string()),
        },
    ]);
    assert_eq!(s.reruns, None);
    assert!(notes.is_empty());
}

#[test]
fn a_missing_pyproject_is_no_boundary() {
    let (s, _) = rstest_settings(&[
        PyprojectFile { path: "/p/sub/pyproject.toml".to_string(), text: None },
        PyprojectFile {
            path: "/p/pyproject.toml".to_string(),
            text: Some("[tool.rstest]\nreruns = 9\n".to_string()),
        },
    ]);
    assert_eq!(s.reruns, Some(9));
}

#[test]
fn discover_reads_pytest_ini_python_files() {
    let cfg = found(with_ini("[pytest]\npython_files = check_*.py\ntestpaths = tests\n"));
    assert_eq!(cfg.python_files, vec!["check_*.py"]);
    assert_eq!(cfg.testpaths, vec!["tests"]);
    assert_eq!(cfg.rootdir, "/d");
}

#[test]
fn discover_reads_pyproject_ini_options_with_string_and_list() {
    let cfg = found(ConfigDir {
        pyproject: Some(
            "[tool.pytest.ini_options]\npython_files = \"check_*.py chk_*.py\"\ntestpaths = [\"a\", \"b\"]\n"
                .to_string(),
        ),
        ..bare("/d")
    });
    assert_eq!(cfg.python_files, vec!["check_*.py", "chk_*.py"]);
    assert_eq!(cfg.testpaths, vec!["a", "b"]);
}

#[test]
fn discover_reads_tox_ini_and_setup_cfg() {
    let cfg = found(ConfigDir {
        tox_ini: Some("[pytest]\npython_files = tox_*.py\n".to_string()),
        ..bare("/d")
    });
    assert_eq!(cfg.python_files, vec!["tox_*.py"]);
    let cfg = found(ConfigDir {
        setup_cfg: Some("[tool:pytest]\npython_files = cfg_*.py\n".to_string()),
        ..bare("/d")
    });
    assert_eq!(cfg.python_files, vec!["cfg_*.py"]);
}

#[test]
fn discover_bare_dir_falls_back_to_default() {
    let cfg = found(bare("/d"));
    assert_eq!(cfg.python_files, vec!["test_*.py", "*_test.py"]);
}

#[test]
fn has_pytest_config_detects_section() {
    assert!(has_pytest_config(&with_ini("[pytest]\n")).0);
    let no = ConfigDir {
        pyproject: Some("[project]\nname = \"x\"\n".to_string()),
        ..bare("/d")
    };
    assert!(!has_pytest_config(&no).0);
}

#[test]
fn ini_skips_comments_and_unknown_keys() {
    let cfg = found(with_ini(
        "[pytest]\n# a comment\n; also a comment\nunknown = whatever\npython_files = k_*.py\n",
    ));
    assert_eq!(cfg.python_files, vec!["k_*.py"]);
}

#[test]
fn settings_projects_and_non_integer_numprocesses() {
    let s = settings(
        "[tool.rstest]\nnumprocesses = 1.5\nprojects = [\"pkg_a\", \"pkg_b\"]\ncollect = \"lazy\"\noutput = \"bar\"\n",
    );
    assert_eq!(s.numprocesses, None);
    assert_eq!(s.projects, Some(vec!["pkg_a".into(), "pkg_b".into()]));
    assert_eq!(s.collect.as_deref(), Some("lazy"));
    assert_eq!(s.output.as_deref(), Some("bar"));
}

#[test]
fn settings_reject_negative_ints() {
    let s = settings("[tool.rstest]\nreruns = -1\nworker-timeout = -5\nnumprocesses = -3\n");
    assert_eq!(s.reruns, None);
    assert_eq!(s.worker_timeout, None);
    assert_eq!(s.numprocesses, None);
}

#[test]
fn ini_reads_multiline_and_colon_values() {
    let cfg = found(with_ini(
        "[pytest]\ntestpaths =\n    tests\n    integration\npython_files:\n    check_*.py\n    chk_*.py\n",
    ));
    assert_eq!(cfg.testpaths, vec!["tests", "integration"]);
    assert_eq!(cfg.python_files, vec!["check_*.py", "chk_*.py"]);
}

#[test]
fn discover_malformed_pyproject_falls_back_to_default() {
    let dir = ConfigDir {
        pyproject: Some("not [[[ valid = toml".to_string()),
        ..bare("/d")
    };
    let (cfg, err) = discover(&[dir]);
    assert_eq!(cfg.python_files, vec!["test_*.py", "*_test.py"]);
    assert_eq!(cfg.testpaths, Vec::<String>::new());
    assert!(
        err.join("\n").contains("ignoring malformed"),
        "expected the malformed-config note on the writer: {err:?}"
    );
}

#[test]
fn ini_empty_value_and_section_header_close() {
    let cfg = found(with_ini("[pytest]\ntestpaths =\n[other]\npython_files = x_*.py\n"));
    assert_eq!(cfg.testpaths, Vec::<String>::new());
    assert_eq!(cfg.python_files, vec!["test_*.py", "*_test.py"]);
}

#[test]
fn ini_blank_lines_do_not_truncate_multiline_value() {
    let cfg = found(with_ini(
        "[pytest]\ntestpaths =\n\n    tests\n\n    integration\npython_files = y_*.py\n",
    ));
    assert_eq!(cfg.testpaths, vec!["tests", "integration"]);
    assert_eq!(cfg.python_files, vec!["y_*.py"]);
}

#[test]
fn settings_bad_toml_falls_back_to_default() {
    let (s, err) = rstest_settings(&[PyprojectFile {
        path: "/d/pyproject.toml".to_string(),
        text: Some("this is : not = valid toml [[[".to_string()),
    }]);
    assert_eq!(s.numprocesses, None);
    assert_eq!(s.reruns, None);
    assert!(
        err.join("\n").contains("ignoring malformed"),
        "expected the malformed-config note on the writer: {err:?}"
    );
}

#[test]
fn an_ini_without_the_section_is_no_configuration() {
    assert!(parse_ini("[other]\npython_files = x.py\n", "pytest").is_none());
    assert!(parse_ini("[pytest]\n", "pytest").is_some());
    assert!(parse_pyproject("[tool.other]\n").unwrap().is_none());
    assert!(parse_pyproject("= 1").is_err());
}

#[test]
fn globs() {
    assert!(glob_match("test_*.py", "test_foo.py"));
    assert!(glob_match("*_test.py", "foo_test.py"));
    assert!(glob_match("tests.py", "tests.py"));
    assert!(!glob_match("test_*.py", "foo_test.py"));
    assert!(!glob_match("tests.py", "tests_extra.py"));
}

#[test]
fn glob_and_test_file_matching() {
    let cfg = ProjectConfig::default();
    assert!(is_test_file("tests/test_a.py", &cfg, false));
    assert!(is_test_file("tests/a_test.py", &cfg, false));
    assert!(!is_test_file("tests/test_a.txt", &cfg, false));
    assert!(!is_test_file("tests/conftest.py", &cfg, false));
    assert!(!is_test_file("test_a.py/..", &cfg, false));
    assert!(glob_match("test_?.py", "test_a.py"));
    assert!(!glob_match("test_?.py", "test_ab.py"));
    assert!(glob_match("a*b*c", "aXbYc"));
    assert!(!glob_match("a*b*c", "aXc"));
}

#[test]
fn the_walk_begins_where_it_is_told() {
    let mut cfg = ProjectConfig::default();
    cfg.rootdir = "/r".to_string();
    assert_eq!(collection_roots(&[], &cfg, false), vec!["/r"]);
    cfg.testpaths = vec!["tests".to_string(), "/abs".to_string()];
    assert_eq!(collection_roots(&[], &cfg, false), vec!["/r/tests", "/abs"]);
    assert_eq!(collection_roots(&["x".to_string()], &cfg, false), vec!["x"]);
    assert!(walks_into("src", false));
    assert!(!walks_into("__pycache__", false));
    assert!(!walks_into("env", true));
}

#[test]
fn found_files_are_ordered_by_component_each_once() {
    let cfg = ProjectConfig::default();
    let found: Vec<String> = ["/r/b/test_z.py", "/r/a-b/test_a.py", "/r/a/test_c.py",
        "/r/a/test_c.py", "/r/a/helper.py", "/r//a/./test_c.py"]
        .iter()
        .map(|s| s.to_string())
        .collect();
    // A directory comes before the names that begin like it.
    assert_eq!(
        pick_test_files(&found, &cfg, false),
        vec!["/r/a/test_c.py", "/r/a-b/test_a.py", "/r/b/test_z.py"]
    );
}

#[test]
fn blank_lines_and_comments_change_nothing() {
    let plain = "[pytest]\ntestpaths =\n    a\n    b\npython_files = t_*.py\n";
    let spaced = "[pytest]\n\n# one\ntestpaths =\n    a\n  ; two\n \n    b\n\npython_files = t_*.py\n";
    let a = parse_ini(plain, "pytest").unwrap();
    let b = parse_ini(spaced, "pytest").unwrap();
    assert_eq!(a.testpaths, vec!["a", "b"]);
    assert_eq!(a.testpaths, b.testpaths);
    assert_eq!(a.python_files, b.python_files);
}
