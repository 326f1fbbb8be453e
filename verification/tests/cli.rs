//! The command line.

use rstest_cli::cli::{
    is_collect_only, needs_passthrough_io, parse_durations, parse_maxfail, split_args,
};
use rstest_cli::double::Double;

fn v(args: &[&str]) -> Vec<String> {
    args.iter().map(|s| s.to_string()).collect()
}

/// The count and the shortest time to show.
fn durations(args: &[&str]) -> Option<(usize, f64)> {
    let number = |s: &str| s.parse().ok().map(|x: f64| Double { bits: x.to_bits() });
    parse_durations(&v(args), &number).map(|(n, min)| (n, f64::from_bits(min.bits)))
}

#[test]
fn the_last_shortest_time_that_is_a_number_counts() {
    let given = ["--durations=1", "--durations-min=2", "--durations-min", "0.5", "--durations-min=x"];
    assert_eq!(durations(&given), Some((1, 0.5)));
    assert_eq!(durations(&["--durations=1", "--durations-min=x"]), Some((1, 0.005)));
    assert_eq!(durations(&["--durations=1", "--durations-min"]), Some((1, 0.005)));
}

#[test]
fn cli_durations_forms() {
    assert_eq!(durations(&[]), None);
    assert_eq!(durations(&["--durations=10"]), Some((10, 0.005)));
    assert_eq!(durations(&["--durations", "3"]), Some((3, 0.005)));
    assert_eq!(durations(&["--durations=0"]), Some((0, 0.005)));
    assert_eq!(durations(&["--durations=5", "--durations-min=0.1"]), Some((5, 0.1)));
    // min alone does nothing
    assert_eq!(durations(&["--durations-min=0.1"]), None);
}

#[test]
fn main_durations_forms() {
    assert_eq!(durations(&[]), None);
    assert_eq!(durations(&["--durations=10"]), Some((10, 0.005)));
    assert_eq!(durations(&["--durations", "3"]), Some((3, 0.005)));
    assert_eq!(durations(&["--durations=0"]), Some((0, 0.005)));
    assert_eq!(durations(&["--durations=5", "--durations-min=0.1"]), Some((5, 0.1)));
    // min alone does nothing
    assert_eq!(durations(&["--durations-min=0.1"]), None);
}

#[test]
fn cli_maxfail_forms() {
    assert_eq!(parse_maxfail(&v(&["-x"])), Some(1));
    assert_eq!(parse_maxfail(&v(&["--exitfirst"])), Some(1));
    assert_eq!(parse_maxfail(&v(&["--maxfail", "3"])), Some(3));
    assert_eq!(parse_maxfail(&v(&["--maxfail=7"])), Some(7));
    // maxfail=0 means "no limit" in pytest.
    assert_eq!(parse_maxfail(&v(&["--maxfail=0"])), None);
    assert_eq!(parse_maxfail(&v(&["-k", "x"])), None);
}

#[test]
fn main_maxfail_forms() {
    assert_eq!(parse_maxfail(&v(&["-x"])), Some(1));
    assert_eq!(parse_maxfail(&v(&["--exitfirst"])), Some(1));
    assert_eq!(parse_maxfail(&v(&["--maxfail", "3"])), Some(3));
    assert_eq!(parse_maxfail(&v(&["--maxfail=7"])), Some(7));
    // maxfail=0 means "no limit" in pytest.
    assert_eq!(parse_maxfail(&v(&["--maxfail=0"])), None);
    assert_eq!(parse_maxfail(&v(&["-k", "x"])), None);
}

#[test]
fn cli_passthrough_flags() {
    assert!(needs_passthrough_io(&v(&["--co"])));
    assert!(needs_passthrough_io(&v(&["-s"])));
    assert!(needs_passthrough_io(&v(&["--pdb"])));
    assert!(needs_passthrough_io(&v(&["--capture=tee-sys"])));
    // Stepwise is sequential: route it to the single-session path so the
    // vendored stepwise plugin owns resume/stop and its cache round-trips.
    assert!(needs_passthrough_io(&v(&["--sw"])));
    assert!(needs_passthrough_io(&v(&["--stepwise"])));
    assert!(needs_passthrough_io(&v(&["--sw-skip"])));
    assert!(needs_passthrough_io(&v(&["--stepwise-skip"])));
    assert!(needs_passthrough_io(&v(&["--sw-reset"])));
    assert!(needs_passthrough_io(&v(&["--stepwise-reset"])));
    assert!(!needs_passthrough_io(&v(&["-k", "x", "-v"])));
}

#[test]
fn main_passthrough_flags() {
    assert!(needs_passthrough_io(&v(&["--co"])));
    assert!(needs_passthrough_io(&v(&["-s"])));
    assert!(needs_passthrough_io(&v(&["--pdb"])));
    assert!(needs_passthrough_io(&v(&["--capture=tee-sys"])));
    // Stepwise is sequential: route it to the single-session path so the
    // vendored stepwise plugin owns resume/stop and its cache round-trips.
    assert!(needs_passthrough_io(&v(&["--sw"])));
    assert!(needs_passthrough_io(&v(&["--stepwise"])));
    assert!(needs_passthrough_io(&v(&["--sw-skip"])));
    assert!(needs_passthrough_io(&v(&["--stepwise-skip"])));
    assert!(needs_passthrough_io(&v(&["--sw-reset"])));
    assert!(needs_passthrough_io(&v(&["--stepwise-reset"])));
    assert!(!needs_passthrough_io(&v(&["-k", "x", "-v"])));
}

#[test]
fn cli_split_owns_rstest_flags_and_forwards_the_rest() {
    let (own, session) = split_args(v(&[
        "-n", "4", "--dist", "loadfile", "tests/", "-k", "smoke", "-x",
    ]));
    assert_eq!(own, v(&["rstest", "-n", "4", "--dist", "loadfile"]));
    assert_eq!(session, v(&["tests/", "-k", "smoke", "-x"]));
}

#[test]
fn main_split_owns_rstest_flags_and_forwards_the_rest() {
    let (own, session) = split_args(v(&[
        "-n", "4", "--dist", "loadfile", "tests/", "-k", "smoke", "-x",
    ]));
    assert_eq!(own, v(&["rstest", "-n", "4", "--dist", "loadfile"]));
    assert_eq!(session, v(&["tests/", "-k", "smoke", "-x"]));
}

#[test]
fn split_owns_attached_short_numprocesses() {
    // Attached `-n4` and `-n=4` are rstest's, not forwarded to pytest.
    let (own, session) = split_args(v(&["-n4", "tests/"]));
    assert_eq!(own, v(&["rstest", "-n4"]));
    assert_eq!(session, v(&["tests/"]));

    let (own, session) = split_args(v(&["-n=4", "tests/"]));
    assert_eq!(own, v(&["rstest", "-n=4"]));
    assert_eq!(session, v(&["tests/"]));
}

#[test]
fn cli_split_forwards_pytest_collect_flags() {
    let (own, session) = split_args(v(&["--collect-only", "--co"]));
    assert_eq!(own, v(&["rstest"]));
    assert_eq!(session, v(&["--collect-only", "--co"]));
}

#[test]
fn main_split_forwards_pytest_collect_flags() {
    let (own, session) = split_args(v(&["--collect-only", "--co"]));
    assert_eq!(own, v(&["rstest"]));
    assert_eq!(session, v(&["--collect-only", "--co"]));
}

#[test]
fn cli_split_double_dash_forwards_everything() {
    let (own, session) = split_args(v(&["--", "-n", "9", "--doctor"]));
    assert_eq!(own, v(&["rstest"]));
    assert_eq!(session, v(&["-n", "9", "--doctor"]));
}

#[test]
fn main_split_double_dash_forwards_everything() {
    let (own, session) = split_args(v(&["--", "-n", "9", "--doctor"]));
    assert_eq!(own, v(&["rstest"]));
    assert_eq!(session, v(&["-n", "9", "--doctor"]));
}

#[test]
fn cli_split_equals_forms() {
    let (own, session) = split_args(v(&["--reruns=2", "--junitxml=o.xml", "-v"]));
    assert_eq!(own, v(&["rstest", "--reruns=2", "--junitxml=o.xml"]));
    assert_eq!(session, v(&["-v"]));
}

#[test]
fn main_split_equals_forms() {
    let (own, session) = split_args(v(&["--reruns=2", "--junitxml=o.xml", "-v"]));
    assert_eq!(own, v(&["rstest", "--reruns=2", "--junitxml=o.xml"]));
    assert_eq!(session, v(&["-v"]));
}

#[test]
fn split_owns_leading_subcommand_and_its_global_flags() {
    // A leading subcommand token is rstest-owned; its paired global flag
    // rides along, and pytest args after it still forward to the session.
    let (own, session) = split_args(v(&[
        "migrate-check",
        "--migrate-check-json",
        "o.json",
        "-k",
        "foo",
        "tests/",
    ]));
    assert_eq!(
        own,
        v(&["rstest", "migrate-check", "--migrate-check-json", "o.json"])
    );
    assert_eq!(session, v(&["-k", "foo", "tests/"]));
}

#[test]
fn split_only_recognizes_subcommand_as_leading_token() {
    // `try` as a non-leading token is a pytest path, not the subcommand.
    let (own, session) = split_args(v(&["tests/", "try"]));
    assert_eq!(own, v(&["rstest"]));
    assert_eq!(session, v(&["tests/", "try"]));
}

#[test]
fn cli_split_owns_doctor_md() {
    let (own, session) = split_args(v(&["--doctor-md", "d.md", "--doctor-md=e.md", "-v"]));
    assert_eq!(
        own,
        v(&["rstest", "--doctor-md", "d.md", "--doctor-md=e.md"])
    );
    assert_eq!(session, v(&["-v"]));
}

#[test]
fn main_split_owns_doctor_md() {
    let (own, session) = split_args(v(&["--doctor-md", "d.md", "--doctor-md=e.md", "-v"]));
    assert_eq!(
        own,
        v(&["rstest", "--doctor-md", "d.md", "--doctor-md=e.md"])
    );
    assert_eq!(session, v(&["-v"]));
}

#[test]
fn split_owns_debug_and_stream_json() {
    // --debug is optional-value (bare consumes nothing, =PORT inline); it
    // must never eat the following path. --stream-json takes a value.
    let (own, session) = split_args(v(&["--debug", "tests/"]));
    assert_eq!(own, v(&["rstest", "--debug"]));
    assert_eq!(session, v(&["tests/"]));

    let (own, session) = split_args(v(&["--debug=5678", "tests/"]));
    assert_eq!(own, v(&["rstest", "--debug=5678"]));
    assert_eq!(session, v(&["tests/"]));

    let (own, session) = split_args(v(&["--stream-json", "out.ndjson", "-k", "x"]));
    assert_eq!(own, v(&["rstest", "--stream-json", "out.ndjson"]));
    assert_eq!(session, v(&["-k", "x"]));
}

#[test]
fn cli_split_owns_doctor_fail_on() {
    // Both spaced and =-joined forms are rstest-owned; the value (which
    // contains a `<`/`>`) must not leak into the pytest session args.
    let (own, session) = split_args(v(&[
        "--doctor-fail-on",
        "parallel_efficiency<30",
        "--doctor-fail-on=wait_pct>50",
        "tests/",
    ]));
    assert_eq!(
        own,
        v(&[
            "rstest",
            "--doctor-fail-on",
            "parallel_efficiency<30",
            "--doctor-fail-on=wait_pct>50",
        ])
    );
    assert_eq!(session, v(&["tests/"]));
}

#[test]
fn main_split_owns_doctor_fail_on() {
    // Both spaced and =-joined forms are rstest-owned; the value (which
    // contains a `<`/`>`) must not leak into the pytest session args.
    let (own, session) = split_args(v(&[
        "--doctor-fail-on",
        "parallel_efficiency<30",
        "--doctor-fail-on=wait_pct>50",
        "tests/",
    ]));
    assert_eq!(
        own,
        v(&[
            "rstest",
            "--doctor-fail-on",
            "parallel_efficiency<30",
            "--doctor-fail-on=wait_pct>50",
        ])
    );
    assert_eq!(session, v(&["tests/"]));
}

#[test]
fn cache_compact_retention_flags_are_owned_not_forwarded() {
    let (own, session) = split_args(v(&[
        "cache-compact",
        "--keep-last",
        "200",
        "--max-age=30d",
        "--cache-remote",
        "./rc",
    ]));
    assert!(session.is_empty(), "nothing should forward, got {session:?}");
    assert_eq!(
        own,
        v(&[
            "rstest",
            "cache-compact",
            "--keep-last",
            "200",
            "--max-age=30d",
            "--cache-remote",
            "./rc",
        ])
    );
}

#[test]
fn the_last_limit_counts_and_zero_lifts_it() {
    assert_eq!(parse_maxfail(&v(&["-x", "--maxfail=5"])), Some(5));
    assert_eq!(parse_maxfail(&v(&["-x", "--maxfail", "many"])), Some(1));
    assert_eq!(parse_maxfail(&v(&["--maxfail=2", "--maxfail=0"])), None);
}

#[test]
fn a_minimum_that_is_no_number_is_passed_over() {
    assert_eq!(
        durations(&["--durations=1", "--durations-min=0.5", "--durations-min=soon"]),
        Some((1, 0.5))
    );
}

#[test]
fn collecting_only_is_asked_for_in_two_ways() {
    assert!(is_collect_only(&v(&["-q", "--co"])));
    assert!(is_collect_only(&v(&["--collect-only"])));
    assert!(!is_collect_only(&v(&["--collect=lazy"])));
}

#[test]
fn every_argument_is_kept_or_forwarded() {
    let argv = v(&["-n", "2", "tests/", "--reruns", "--", "-x"]);
    let (own, session) = split_args(argv.clone());
    let mut all: Vec<String> = own[1..].iter().chain(&session).cloned().collect();
    let mut given = argv;
    all.sort();
    given.sort();
    assert_eq!(all, given);
}
