use vulpini::logger::{level_str, should_log, LogLevel};
use vulpini::utils::{decimal_string, format_bytes, format_duration, generate_session_id};

#[test]
fn test_decimal_string() {
    assert_eq!(decimal_string(0), "0");
    assert_eq!(decimal_string(7), "7");
    assert_eq!(decimal_string(65535), "65535");
    assert_eq!(decimal_string(u64::MAX), "18446744073709551615");
}

#[test]
fn test_format_bytes_units() {
    assert_eq!(format_bytes(512), "512 B");
    assert_eq!(format_bytes(1536), "1.50 KB");
    assert_eq!(format_bytes(2 * 1024 * 1024), "2.00 MB");
    assert_eq!(format_bytes(3 * 1024 * 1024 * 1024), "3.00 GB");
}

#[test]
fn test_format_duration_units() {
    assert_eq!(format_duration(7_000), "7.0s");
    assert_eq!(format_duration(4 * 60_000 + 200), "4m 0.2s");
    assert_eq!(format_duration(3_600_000 + 2 * 60_000 + 3_500), "1h 2m 3.5s");
}

#[test]
fn test_generate_session_id_shape() {
    let id = generate_session_id();
    assert_eq!(id.len(), 32);
    assert!(id.chars().all(|c| c.is_ascii_alphanumeric()));
    // Two draws almost surely differ; equal draws would mean the
    // generator ignores its randomness.
    let other = generate_session_id();
    assert_ne!(id, other);
}

#[test]
fn test_level_str_tags() {
    assert_eq!(level_str(LogLevel::Trace), "TRACE");
    assert_eq!(level_str(LogLevel::Debug), "DEBUG");
    assert_eq!(level_str(LogLevel::Info), "INFO");
    assert_eq!(level_str(LogLevel::Warn), "WARN");
    assert_eq!(level_str(LogLevel::Error), "ERROR");
}

#[test]
fn test_should_log_ordering() {
    assert!(should_log(LogLevel::Error, LogLevel::Info));
    assert!(should_log(LogLevel::Info, LogLevel::Info));
    assert!(!should_log(LogLevel::Debug, LogLevel::Info));
}

#[test]
fn test_api_envelope() {
    let ok = vulpini::api::ApiResponse::ok(42u64);
    assert!(ok.success);
    assert_eq!(ok.data, Some(42));
    assert!(ok.error.is_none());

    let err: vulpini::api::ApiResponse<u64> =
        vulpini::api::ApiResponse::err("Not found".to_string());
    assert!(!err.success);
    assert!(err.data.is_none());
    assert_eq!(err.error, Some("Not found".to_string()));
}
