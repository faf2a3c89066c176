use libdoh::telemetry::{export_interval_secs, otlp_endpoint};

#[test]
fn export_interval_defaults_to_sixty() {
    assert_eq!(export_interval_secs(None), 60);
    assert_eq!(export_interval_secs(Some("15")), 15);
    assert_eq!(export_interval_secs(Some("+15")), 15);
    assert_eq!(export_interval_secs(Some("18446744073709551615")), u64::MAX);
    assert_eq!(export_interval_secs(Some("18446744073709551616")), 60);
    assert_eq!(export_interval_secs(Some("ten")), 60);
    assert_eq!(export_interval_secs(Some("")), 60);
    assert_eq!(export_interval_secs(Some("-1")), 60);
}

#[test]
fn otlp_endpoint_defaults_to_new_relic() {
    assert_eq!(otlp_endpoint(None), "https://otlp.nr-data.net:4318");
    assert_eq!(otlp_endpoint(Some("http://localhost:4318".to_string())), "http://localhost:4318");
}
