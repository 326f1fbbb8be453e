//! The JUnit document.

use rstest_cli::double::Double;
use rstest_cli::junit::{classify_case, document, esc, split_nodeid, Case, CaseKind};

fn case(nodeid: &str, call: &str) -> Case {
    Case {
        nodeid: nodeid.to_string(),
        duration: Some(Double { bits: 0.01f64.to_bits() }),
        setup: None,
        call: Some(call.to_string()),
        teardown: None,
        skip_reason: None,
        flaky: false,
        failure_text: None,
    }
}

#[test]
fn escapes_xml_metacharacters() {
    assert_eq!(esc(r#"a<b & "c">"#), "a&lt;b &amp; &quot;c&quot;&gt;");
}

#[test]
fn nodeid_to_classname() {
    assert_eq!(
        split_nodeid("tests/sub/test_a.py::TestX::test_one[p1]"),
        ("tests.sub.test_a.TestX".to_string(), "test_one[p1]".to_string())
    );
    assert_eq!(
        split_nodeid("test_a.py::test_plain"),
        ("test_a".to_string(), "test_plain".to_string())
    );
}

#[test]
fn renders_counts_and_flaky_property() {
    let ok = Case { flaky: true, ..case("a.py::ok", "passed") };
    let bad = Case {
        failure_text: Some("assert 1 == 2".to_string()),
        ..case("a.py::bad", "failed")
    };
    let xml = document(&[ok, bad], &Double { bits: 1.5f64.to_bits() });
    assert!(xml.contains(r#"failures="1""#), "{xml}");
    assert!(xml.contains(r#"tests="2""#), "{xml}");
    assert!(xml.contains(r#"<property name="flaky" value="true"/>"#), "{xml}");
    assert!(xml.contains("assert 1 == 2"), "{xml}");
}

#[test]
fn a_setup_failure_is_an_error_and_a_skip_is_counted() {
    let error = Case { setup: Some("failed".to_string()), ..case("a.py::e", "passed") };
    let skip = Case {
        skip_reason: Some("not <here>".to_string()),
        ..case("a.py::s", "skipped")
    };
    assert_eq!(classify_case(&error), CaseKind::Errored);
    assert_eq!(classify_case(&skip), CaseKind::Skipped);
    assert_eq!(classify_case(&case("a.py::p", "passed")), CaseKind::Passed);
    let xml = document(&[error, skip], &Double { bits: 0.5f64.to_bits() });
    assert!(xml.contains(r#"errors="1""#), "{xml}");
    assert!(xml.contains(r#"skipped="1""#), "{xml}");
    assert!(xml.contains(r#"failures="0""#), "{xml}");
    assert!(xml.contains("not &lt;here&gt;"), "{xml}");
}

#[test]
fn an_id_without_separators_has_no_class() {
    assert_eq!(split_nodeid("lonely"), ("".to_string(), "lonely".to_string()));
}

#[test]
fn every_test_is_of_one_kind() {
    let cases = [
        Case { teardown: Some("failed".to_string()), ..case("a.py::e", "failed") },
        Case { flaky: true, ..case("a.py::f", "failed") },
        Case { flaky: true, ..case("a.py::s", "skipped") },
        Case { flaky: true, ..case("a.py::k", "passed") },
        case("a.py::p", "passed"),
    ];
    let kinds: Vec<CaseKind> = cases.iter().map(classify_case).collect();
    assert_eq!(
        kinds,
        vec![
            CaseKind::Errored,
            CaseKind::Failed,
            CaseKind::Skipped,
            CaseKind::Flaky,
            CaseKind::Passed
        ]
    );
    let xml = document(&cases, &Double { bits: 0.5f64.to_bits() });
    assert!(xml.contains(r#"tests="5""#), "{xml}");
    assert!(xml.contains(r#"errors="1""#), "{xml}");
    assert!(xml.contains(r#"failures="1""#), "{xml}");
    assert!(xml.contains(r#"skipped="1""#), "{xml}");
}
