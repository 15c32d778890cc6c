use lib::lint::{
    lint, Finding, Severity, MAX_AGE_WITH_EXPIRES, NOT_REVALIDATABLE, NO_CACHE_CONTROL,
    NO_CACHE_WITH_IMMUTABLE, NO_STORE_WITH_FRESHNESS,
};
use lib::record::HeaderRecord;

fn record(headers: &[(&str, &str)]) -> HeaderRecord {
    HeaderRecord {
        status_line: Some("HTTP/1.1 200 OK".to_string()),
        headers: headers
            .iter()
            .map(|(k, v)| (k.to_string(), v.to_string()))
            .collect(),
    }
}

fn messages(findings: &[Finding]) -> Vec<(Severity, &str)> {
    findings.iter().map(|f| (f.severity, f.message.as_str())).collect()
}

#[test]
fn flags_missing_cache_control() {
    let findings = lint(&record(&[]));
    assert!(findings.iter().any(|f| f.message.contains("no Cache-Control")));
}

#[test]
fn flags_no_store_with_max_age() {
    let findings = lint(&record(&[("Cache-Control", "no-store, max-age=60")]));
    assert!(findings.iter().any(|f| f.message.contains("no-store")));
}

#[test]
fn quiet_when_headers_are_sane() {
    let findings = lint(&record(&[
        ("Cache-Control", "max-age=300"),
        ("ETag", "\"abc\""),
    ]));
    assert!(findings.is_empty());
}

#[test]
fn missing_cache_control_gives_both_notes_in_order() {
    let findings = lint(&record(&[]));
    assert_eq!(
        messages(&findings),
        vec![(Severity::Info, NO_CACHE_CONTROL), (Severity::Info, NOT_REVALIDATABLE)]
    );
    let findings = lint(&record(&[("ETag", "\"x\"")]));
    assert_eq!(messages(&findings), vec![(Severity::Info, NO_CACHE_CONTROL)]);
}

#[test]
fn no_store_with_max_age_is_one_warning_and_no_revalidation_note() {
    let findings = lint(&record(&[("Cache-Control", "no-store, max-age=60")]));
    assert_eq!(messages(&findings), vec![(Severity::Warning, NO_STORE_WITH_FRESHNESS)]);
    assert!(findings[0].message.contains("no-store wins, so the other directive"));
}

#[test]
fn every_check_at_once() {
    let findings = lint(&record(&[
        ("cache-control", "no-store, no-cache, immutable, max-age=1"),
        ("Expires", "0"),
    ]));
    assert_eq!(
        messages(&findings),
        vec![
            (Severity::Warning, NO_STORE_WITH_FRESHNESS),
            (Severity::Warning, NO_CACHE_WITH_IMMUTABLE),
            (Severity::Info, MAX_AGE_WITH_EXPIRES),
        ]
    );
}

#[test]
fn no_cache_with_immutable_and_last_modified() {
    let findings = lint(&record(&[
        ("CACHE-CONTROL", "No-Cache, Immutable"),
        ("last-modified", "Tue, 01 Sep 2026 00:00:00 GMT"),
    ]));
    assert_eq!(messages(&findings), vec![(Severity::Warning, NO_CACHE_WITH_IMMUTABLE)]);
}

#[test]
fn no_store_with_immutable_only() {
    let findings = lint(&record(&[("Cache-Control", "no-store, immutable"), ("ETag", "1")]));
    assert_eq!(messages(&findings), vec![(Severity::Warning, NO_STORE_WITH_FRESHNESS)]);
}

#[test]
fn only_the_first_cache_control_header_counts() {
    let findings = lint(&record(&[
        ("Cache-Control", "max-age=5"),
        ("Cache-Control", "no-store, immutable"),
        ("Expires", "x"),
    ]));
    assert_eq!(
        messages(&findings),
        vec![(Severity::Info, MAX_AGE_WITH_EXPIRES), (Severity::Info, NOT_REVALIDATABLE)]
    );
}

#[test]
fn lint_never_reports_errors() {
    for headers in [
        vec![],
        vec![("Cache-Control", "no-store, no-cache, immutable, max-age=1"), ("Expires", "0")],
        vec![("Cache-Control", "")],
    ] {
        for f in lint(&record(&headers)) {
            assert!(f.severity != Severity::Error);
        }
    }
}

#[test]
fn severity_names() {
    assert_eq!(Severity::Info.as_str(), "info");
    assert_eq!(Severity::Warning.as_str(), "warning");
    assert_eq!(Severity::Error.as_str(), "error");
}

#[test]
fn finding_clone_keeps_fields() {
    let f = Finding {
        severity: Severity::Warning,
        message: "m".to_string(),
    };
    let g = f.clone();
    assert_eq!(g.severity, Severity::Warning);
    assert_eq!(g.message, "m");
}
