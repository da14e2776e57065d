use vulpini::anomaly_detector::{AnomalyDetector, AnomalyEvent, AnomalyType, Severity};
use vulpini::config::AnomalyDetectionConfig;

fn create_test_config() -> AnomalyDetectionConfig {
    AnomalyDetectionConfig {
        enabled: true,
        spike_threshold_permille: 3000,
        latency_threshold_ms: 5000,
        error_rate_threshold_permille: 100,
        connection_threshold: 500,
        check_interval_secs: 10,
    }
}

#[test]
fn test_anomaly_type_variants() {
    let _ = AnomalyType::TrafficSpike;
    let _ = AnomalyType::LatencySpike;
    let _ = AnomalyType::ErrorRateHigh;
    let _ = AnomalyType::ConnectionFlood;
}

#[test]
fn test_severity_variants() {
    let _ = Severity::Low;
    let _ = Severity::Medium;
    let _ = Severity::High;
}

#[test]
fn test_anomaly_detector_new() {
    let config = create_test_config();
    let detector = AnomalyDetector::new(config.clone());

    let events = detector.get_event_history();
    assert!(events.is_empty());
}

#[test]
fn test_detect_normal_conditions() {
    let config = create_test_config();
    let mut detector = AnomalyDetector::new(config);

    // 50 req/s, 100 ms, 1% errors, 100 connections: nothing fires.
    let events = detector.detect(50_000, 100, 10, 100, 0);

    assert!(events.is_empty());
}

#[test]
fn test_detect_traffic_spike() {
    let config = create_test_config();
    let mut detector = AnomalyDetector::new(config);

    // Establish a 10 req/s baseline.
    for i in 0..10u64 {
        detector.detect(10_000, 100, 10, 100, i);
    }

    // A 100 req/s burst against that baseline.
    let events = detector.detect(100_000, 100, 10, 100, 10);

    let spike_event = events
        .iter()
        .find(|e| matches!(e.anomaly_type, AnomalyType::TrafficSpike));
    assert!(spike_event.is_some());
}

#[test]
fn test_detect_high_latency() {
    let config = create_test_config();
    let mut detector = AnomalyDetector::new(config);

    detector.detect(50_000, 100, 10, 100, 0);

    let events = detector.detect(50_000, 6000, 10, 100, 1);

    let latency_event = events
        .iter()
        .find(|e| matches!(e.anomaly_type, AnomalyType::LatencySpike));
    assert!(latency_event.is_some());
    assert_eq!(latency_event.unwrap().severity, Severity::Medium);
}

#[test]
fn test_detect_high_error_rate() {
    let config = create_test_config();
    let mut detector = AnomalyDetector::new(config);

    detector.detect(50_000, 100, 10, 100, 0);

    // 20% errors against a 10% alarm level.
    let events = detector.detect(50_000, 100, 200, 100, 1);

    let error_event = events
        .iter()
        .find(|e| matches!(e.anomaly_type, AnomalyType::ErrorRateHigh));
    assert!(error_event.is_some());
    assert_eq!(error_event.unwrap().severity, Severity::High);
}

#[test]
fn test_detect_connection_flood() {
    let config = create_test_config();
    let mut detector = AnomalyDetector::new(config);

    detector.detect(50_000, 100, 10, 100, 0);

    let events = detector.detect(50_000, 100, 10, 600, 1);

    let flood_event = events
        .iter()
        .find(|e| matches!(e.anomaly_type, AnomalyType::ConnectionFlood));
    assert!(flood_event.is_some());
    assert_eq!(flood_event.unwrap().severity, Severity::High);
}

#[test]
fn test_detect_multiple_anomalies() {
    let config = create_test_config();
    let mut detector = AnomalyDetector::new(config);

    for i in 0..10u64 {
        detector.detect(10_000, 100, 10, 100, i);
    }

    let events = detector.detect(100_000, 6000, 200, 600, 10);

    assert!(events.len() >= 3);
}

#[test]
fn test_event_history_limit() {
    let config = create_test_config();
    let mut detector = AnomalyDetector::new(config);

    for i in 0..10u64 {
        detector.detect(10_000, 100, 10, 100, i);
    }

    for i in 0..150u64 {
        detector.detect(100_000, 6000, 200, 600, 10 + i);
    }

    let events = detector.get_event_history();
    assert!(events.len() <= 150);
}

#[test]
fn test_anomaly_event_structure() {
    let event = AnomalyEvent {
        id: "test-id".to_string(),
        timestamp_ms: 42,
        anomaly_type: AnomalyType::TrafficSpike,
        value_milli: 100_000,
        threshold_milli: 30_000,
        description: "Test event".to_string(),
        severity: Severity::High,
    };

    assert_eq!(event.id, "test-id");
    assert_eq!(event.value_milli, 100_000);
    assert_eq!(event.threshold_milli, 30_000);
    assert_eq!(event.description, "Test event");
    assert_eq!(event.severity, Severity::High);
}

#[test]
fn test_disabled_anomaly_detection() {
    let config = AnomalyDetectionConfig {
        enabled: false,
        spike_threshold_permille: 3000,
        latency_threshold_ms: 5000,
        error_rate_threshold_permille: 100,
        connection_threshold: 500,
        check_interval_secs: 10,
    };

    let mut detector = AnomalyDetector::new(config);

    // Even extreme values are ignored while detection is off.
    let events = detector.detect(1_000_000, 10_000, 1000, 10_000, 0);

    assert!(events.is_empty());
}

#[test]
fn test_spike_severity_levels() {
    let config = create_test_config();
    let mut detector = AnomalyDetector::new(config);

    for i in 0..10u64 {
        detector.detect(10_000, 100, 10, 100, i);
    }

    // Exactly at the 3.0x product, nothing fires (the comparison is
    // strict); just over it, a medium spike does.
    let events = detector.detect(30_000, 100, 10, 100, 10);
    let medium_spike = events
        .iter()
        .find(|e| matches!(e.anomaly_type, AnomalyType::TrafficSpike));
    assert!(medium_spike.is_none());

    let events = detector.detect(40_000, 100, 10, 100, 11);
    let medium_spike = events
        .iter()
        .find(|e| matches!(e.anomaly_type, AnomalyType::TrafficSpike));
    assert!(medium_spike.is_some());
    assert_eq!(medium_spike.unwrap().severity, Severity::Medium);
}

#[test]
fn test_spike_cooldown_suppresses_and_releases() {
    // A spike fires, an identical burst inside the 30 s cooldown does not,
    // and one past the cooldown fires again.
    let config = create_test_config();
    let mut detector = AnomalyDetector::new(config);

    for i in 0..6u64 {
        detector.detect(10_000, 100, 10, 100, i);
    }

    let events = detector.detect(100_000, 100, 10, 100, 100);
    assert!(events
        .iter()
        .any(|e| matches!(e.anomaly_type, AnomalyType::TrafficSpike)));
    assert_eq!(events[0].severity, Severity::High);

    let events = detector.detect(100_000, 100, 10, 100, 200);
    assert!(!events
        .iter()
        .any(|e| matches!(e.anomaly_type, AnomalyType::TrafficSpike)));

    let events = detector.detect(100_000, 100, 10, 100, 100 + 31_000);
    assert!(events
        .iter()
        .any(|e| matches!(e.anomaly_type, AnomalyType::TrafficSpike)));
}

#[test]
fn test_event_id_length() {
    let config = create_test_config();
    let mut detector = AnomalyDetector::new(config);
    detector.detect(50_000, 100, 10, 100, 0);
    let events = detector.detect(50_000, 6000, 10, 100, 1);
    assert_eq!(events.len(), 1);
    assert_eq!(events[0].id.chars().count(), 36);
}
