use vulpini::traffic_analyzer::{RequestInfo, TrafficAnalyzer, TrafficStats};

fn req(ts: u64, size: u64, latency: u64) -> RequestInfo {
    RequestInfo {
        timestamp_ms: ts,
        size,
        latency_ms: latency,
        protocol: "http".to_string(),
        success: true,
    }
}

#[test]
fn test_traffic_stats_default() {
    let stats = TrafficStats::default();

    assert_eq!(stats.total_requests, 0);
    assert_eq!(stats.total_bytes_in, 0);
    assert_eq!(stats.total_bytes_out, 0);
    assert_eq!(stats.active_connections, 0);
    assert_eq!(stats.requests_per_sec_milli, 0);
    assert_eq!(stats.bytes_per_sec_milli, 0);
    assert_eq!(stats.avg_latency_ms, 0);
    assert_eq!(stats.error_count, 0);
    assert_eq!(stats.error_rate_permille, 0);
}

#[test]
fn test_traffic_analyzer_new() {
    let analyzer = TrafficAnalyzer::new(60);

    let stats = analyzer.get_stats();
    assert_eq!(stats.total_requests, 0);
    assert_eq!(stats.active_connections, 0);
}

#[test]
fn test_record_request() {
    let mut analyzer = TrafficAnalyzer::new(60);

    analyzer.record_request(req(1_000, 1024, 50), 1_000);

    let stats = analyzer.get_stats();
    assert_eq!(stats.total_requests, 1);
}

#[test]
fn test_record_bytes() {
    let mut analyzer = TrafficAnalyzer::new(60);

    analyzer.record_bytes(2048, 1024, 1_000);
    analyzer.record_request(req(1_001, 100, 10), 1_001);

    let stats = analyzer.get_stats();
    assert_eq!(stats.total_bytes_in, 2048);
    assert_eq!(stats.total_bytes_out, 1024);
}

#[test]
fn test_update_connections() {
    let mut analyzer = TrafficAnalyzer::new(60);

    analyzer.update_connections(100);

    let stats = analyzer.get_stats();
    assert_eq!(stats.active_connections, 100);
}

#[test]
fn test_multiple_requests() {
    let mut analyzer = TrafficAnalyzer::new(60);

    for i in 1..=10u64 {
        analyzer.record_request(req(1_000 + i, i * 100, i * 10), 1_000 + i);
    }

    let stats = analyzer.get_stats();
    assert_eq!(stats.total_requests, 10);
}

#[test]
fn test_request_info() {
    let request = RequestInfo {
        timestamp_ms: 5_000,
        size: 512,
        latency_ms: 25,
        protocol: "http".to_string(),
        success: true,
    };

    assert_eq!(request.size, 512);
    assert_eq!(request.protocol, "http");
    assert!(request.latency_ms < 100);
}

#[test]
fn test_traffic_stats_clone() {
    let stats = TrafficStats::default();
    let cloned = stats.clone();

    assert_eq!(stats.total_requests, cloned.total_requests);
    assert_eq!(stats.total_bytes_in, cloned.total_bytes_in);
    assert_eq!(stats.avg_latency_ms, cloned.avg_latency_ms);
}

#[test]
fn test_analyzer_with_different_window_sizes() {
    let analyzer_30s = TrafficAnalyzer::new(30);
    let analyzer_120s = TrafficAnalyzer::new(120);

    let stats_30s = analyzer_30s.get_stats();
    let stats_120s = analyzer_120s.get_stats();

    assert_eq!(stats_30s.total_requests, stats_120s.total_requests);
}

#[test]
fn test_bytes_accumulation() {
    let mut analyzer = TrafficAnalyzer::new(60);

    for i in 0..5u64 {
        analyzer.record_bytes(1000, 500, 1_000 + i);
        analyzer.record_request(req(1_000 + i, 100, 10), 1_000 + i);
    }

    let stats = analyzer.get_stats();
    assert_eq!(stats.total_bytes_in, 5000);
    assert_eq!(stats.total_bytes_out, 2500);
}

#[test]
fn test_request_size_tracking() {
    let mut analyzer = TrafficAnalyzer::new(60);

    analyzer.record_request(req(1_000, 100, 10), 1_000);
    analyzer.record_request(req(1_001, 200, 20), 1_001);
    analyzer.record_request(req(1_002, 300, 30), 1_002);

    let stats = analyzer.get_stats();
    assert_eq!(stats.total_requests, 3);
}

#[test]
fn test_percentiles_over_hundred_samples() {
    // One hundred requests with latencies 1..=100 ms: the 50th, 95th and
    // 99th percentiles land exactly on 50, 95 and 99.
    let mut analyzer = TrafficAnalyzer::new(60);
    for i in 1..=100u64 {
        analyzer.record_request(req(1_000 + i, 10, i), 1_000 + i);
    }
    let stats = analyzer.get_stats();
    assert_eq!(stats.total_requests, 100);
    assert_eq!(stats.p50_latency_ms, 50);
    assert_eq!(stats.p95_latency_ms, 95);
    assert_eq!(stats.p99_latency_ms, 99);
}

#[test]
fn test_eviction_keeps_only_window() {
    // Window of 60 s: a sample at t=0 is gone once the clock passes t=60 s.
    let mut analyzer = TrafficAnalyzer::new(60);
    analyzer.record_request(req(0, 10, 5), 0);
    analyzer.record_request(req(61_000, 10, 5), 61_000);
    let stats = analyzer.get_stats();
    assert_eq!(stats.total_requests, 1);
}

#[test]
fn test_rates_over_window() {
    // Six requests over a 60 s window: 0.1 req/s, reported in thousandths.
    let mut analyzer = TrafficAnalyzer::new(60);
    for i in 0..6u64 {
        analyzer.record_request(req(1_000 + i, 600, 30), 1_000 + i);
    }
    let stats = analyzer.get_stats();
    assert_eq!(stats.requests_per_sec_milli, 100);
    assert_eq!(stats.bytes_per_sec_milli, 60_000);
    assert_eq!(stats.avg_latency_ms, 30);
}

#[test]
fn test_slow_requests_count_as_errors() {
    let mut analyzer = TrafficAnalyzer::new(60);
    analyzer.record_request(req(1_000, 10, 11_000), 1_000);
    analyzer.record_request(req(1_001, 10, 5), 1_001);
    let stats = analyzer.get_stats();
    assert_eq!(stats.error_count, 1);
    assert_eq!(stats.error_rate_permille, 500);
}
