use vulpini::config::{
    AnomalyDetectionConfig, HttpProxyConfig, IPConfig, ProxyConfig, RoutingConfig, Socks5Config,
};

#[test]
fn test_config_default() {
    let config = ProxyConfig::default();

    assert!(config.socks5.enabled);
    assert_eq!(config.socks5.listen_address, "127.0.0.1");
    assert_eq!(config.socks5.listen_port, 1080);
    assert!(!config.socks5.auth_enabled);

    assert!(config.http_proxy.enabled);
    assert_eq!(config.http_proxy.listen_address, "127.0.0.1");
    assert_eq!(config.http_proxy.listen_port, 8080);

    assert_eq!(config.ip_pool.health_check_interval_secs, 60);
    assert_eq!(config.ip_pool.auto_rotate_interval_secs, 300);
    assert_eq!(config.ip_pool.strategy, "performance");

    assert_eq!(config.routing.max_latency_threshold_ms, 1000);
    assert_eq!(config.routing.min_reliability_permille, 800);
    assert_eq!(config.routing.load_balancing, "fastest");
    assert!(config.routing.fallback_enabled);

    assert!(config.anomaly_detection.enabled);
    assert_eq!(config.anomaly_detection.spike_threshold_permille, 3000);
    assert_eq!(config.anomaly_detection.latency_threshold_ms, 5000);
    assert_eq!(config.anomaly_detection.error_rate_threshold_permille, 100);
    assert_eq!(config.anomaly_detection.connection_threshold, 500);
    assert_eq!(config.anomaly_detection.check_interval_secs, 10);

    assert_eq!(config.logging.level, "info");
    assert!(config.logging.file_enabled);
    assert!(config.logging.console_enabled);
}

#[test]
fn test_ip_config_default() {
    let ip_config = IPConfig {
        address: "192.168.1.1".to_string(),
        port: 1080,
        country: Some("US".to_string()),
        isp: Some("TestISP".to_string()),
    };

    assert_eq!(ip_config.address, "192.168.1.1");
    assert_eq!(ip_config.port, 1080);
    assert_eq!(ip_config.country, Some("US".to_string()));
    assert_eq!(ip_config.isp, Some("TestISP".to_string()));
}

#[test]
fn test_socks5_config() {
    let config = Socks5Config {
        enabled: true,
        listen_address: "0.0.0.0".to_string(),
        listen_port: 1080,
        auth_enabled: true,
        username: Some("user".to_string()),
        password: Some("pass".to_string()),
        max_connections: 500,
    };

    assert!(config.auth_enabled);
    assert_eq!(config.max_connections, 500);
    assert_eq!(config.username, Some("user".to_string()));
}

#[test]
fn test_http_proxy_config() {
    let config = HttpProxyConfig {
        enabled: true,
        listen_address: "0.0.0.0".to_string(),
        listen_port: 8080,
        auth_enabled: false,
        username: None,
        password: None,
        max_connections: 1000,
    };

    assert!(!config.auth_enabled);
    assert!(config.username.is_none());
    assert!(config.password.is_none());
}

#[test]
fn test_routing_config() {
    let config = RoutingConfig {
        max_latency_threshold_ms: 500,
        min_reliability_permille: 900,
        load_balancing: "leastconnections".to_string(),
        fallback_enabled: false,
    };

    assert_eq!(config.max_latency_threshold_ms, 500);
    assert_eq!(config.min_reliability_permille, 900);
    assert_eq!(config.load_balancing, "leastconnections");
    assert!(!config.fallback_enabled);
}

#[test]
fn test_anomaly_detection_config() {
    let config = AnomalyDetectionConfig {
        enabled: false,
        spike_threshold_permille: 5000,
        latency_threshold_ms: 3000,
        error_rate_threshold_permille: 50,
        connection_threshold: 100,
        check_interval_secs: 30,
    };

    assert!(!config.enabled);
    assert_eq!(config.spike_threshold_permille, 5000);
    assert_eq!(config.latency_threshold_ms, 3000);
    assert_eq!(config.error_rate_threshold_permille, 50);
    assert_eq!(config.connection_threshold, 100);
    assert_eq!(config.check_interval_secs, 30);
}

#[test]
fn test_validate_clean_default() {
    let config = ProxyConfig::default();
    assert!(config.validate().is_empty());
}

#[test]
fn test_validate_flags_each_rule() {
    let mut config = ProxyConfig::default();
    // Bind both listeners to the same address and port.
    config.http_proxy.listen_port = config.socks5.listen_port;
    config.http_proxy.listen_address = config.socks5.listen_address.clone();
    // Auth without credentials on both listeners.
    config.socks5.auth_enabled = true;
    config.http_proxy.auth_enabled = true;
    // Unknown tags and out-of-range thresholds.
    config.ip_pool.strategy = "mystery".to_string();
    config.routing.load_balancing = "mystery".to_string();
    config.routing.min_reliability_permille = 1500;
    config.anomaly_detection.spike_threshold_permille = 0;
    config.anomaly_detection.error_rate_threshold_permille = 2000;
    config.logging.level = "shout".to_string();

    let warnings = config.validate();
    assert_eq!(warnings.len(), 9);
}

#[test]
fn test_validate_log_level_case_insensitive() {
    let mut config = ProxyConfig::default();
    config.logging.level = "WARN".to_string();
    assert!(config.validate().is_empty());
}
