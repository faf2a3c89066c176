use hyper::StatusCode;
use libdoh::errors::DoHError;
use std::io;

fn status(e: DoHError) -> StatusCode {
    StatusCode::from_u16(e.status_code()).unwrap()
}

#[test]
fn test_display_simple_variants() {
    assert_eq!(DoHError::Incomplete.to_string(), "Incomplete");
    assert_eq!(DoHError::InvalidData.to_string(), "Invalid data");
    assert_eq!(DoHError::TooLarge.to_string(), "Too large");
    assert_eq!(DoHError::UpstreamIssue.to_string(), "Upstream error");
    assert_eq!(DoHError::UpstreamTimeout.to_string(), "Upstream timeout");
    assert_eq!(DoHError::StaleKey.to_string(), "Stale key material");
    assert_eq!(DoHError::TooManyTcpSessions.to_string(), "Too many TCP sessions");
}

#[test]
fn test_display_io_error() {
    let io_err = io::Error::new(io::ErrorKind::NotFound, "file not found");
    let e = DoHError::Io(io_err.to_string());
    let s = e.to_string();
    assert!(s.starts_with("IO error:"), "got: {s}");
}

#[test]
fn test_display_odoh_config_error() {
    let e = DoHError::ODoHConfigError(anyhow::Error::msg("something went wrong").to_string());
    let s = e.to_string();
    assert!(s.starts_with("ODoH config error:"), "got: {s}");
    assert!(s.contains("something went wrong"), "got: {s}");
}

#[test]
fn test_status_codes_simple_variants() {
    assert_eq!(status(DoHError::Incomplete), StatusCode::UNPROCESSABLE_ENTITY);
    assert_eq!(status(DoHError::InvalidData), StatusCode::BAD_REQUEST);
    assert_eq!(status(DoHError::TooLarge), StatusCode::PAYLOAD_TOO_LARGE);
    assert_eq!(status(DoHError::UpstreamIssue), StatusCode::BAD_GATEWAY);
    assert_eq!(status(DoHError::UpstreamTimeout), StatusCode::BAD_GATEWAY);
    assert_eq!(status(DoHError::StaleKey), StatusCode::UNAUTHORIZED);
    assert_eq!(status(DoHError::TooManyTcpSessions), StatusCode::SERVICE_UNAVAILABLE);
}

#[test]
fn test_status_code_io_error() {
    let io_err = io::Error::new(io::ErrorKind::Other, "test");
    assert_eq!(status(DoHError::Io(io_err.to_string())), StatusCode::INTERNAL_SERVER_ERROR);
}

#[test]
fn test_status_code_odoh_config_error() {
    let e = DoHError::ODoHConfigError(anyhow::Error::msg("test").to_string());
    assert_eq!(status(e), StatusCode::INTERNAL_SERVER_ERROR);
}

#[test]
fn hyper_errors_are_unavailable() {
    assert_eq!(DoHError::Hyper("x".to_string()).status_code(), 503);
    assert_eq!(DoHError::Hyper("boom".to_string()).to_string(), "HTTP error: boom");
    assert_eq!(DoHError::Io("disk".to_string()).to_string(), "IO error: disk");
}
