use gfm_store::diagnostics::{export_diagnostics, DiagnosticExportError, DiagnosticPrivacy};
use gfm_store::{Duration, LatencyMetric, Telemetry};

#[test]
fn exports_aggregate_diagnostics_without_sensitive_fields_to_a_report() {
    let mut telemetry = Telemetry::default();
    telemetry.observe_latency(LatencyMetric::Navigation, Duration::from_millis(2));

    let export = export_diagnostics("/tmp/diagnostics.json", &telemetry, DiagnosticPrivacy::default()).unwrap();

    assert_eq!(export.receipt.path, "/tmp/diagnostics.json");
    assert!(export.receipt.privacy.approved);
    assert_eq!(export.receipt.bytes_written, export.report.len() as u64);
    assert!(export.report.contains("\"schema_version\": 1"));
    assert!(export.report.contains("\"navigation\""));
    assert!(!export.report.contains("query_text"));
    assert!(!export.report.contains("user_identifiers"));
}

#[test]
fn rejects_sensitive_diagnostics_before_reporting() {
    let telemetry = Telemetry::default();
    let privacy = DiagnosticPrivacy {
        include_paths: true,
        include_query_text: true,
        include_user_identifiers: false,
    };

    let err = export_diagnostics("/tmp/diagnostics.json", &telemetry, privacy).unwrap_err();

    let DiagnosticExportError::Privacy(review) = err else {
        unreachable!("expected privacy rejection");
    };
    assert!(!review.approved);
    assert_eq!(review.blocked_fields, vec!["paths", "query_text"]);
}
