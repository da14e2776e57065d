use vulpini::config::{IPConfig, IPPoolConfig};
use vulpini::ip_manager::{HealthStatus, IPManager, RotationStrategy};

fn create_test_ip_pool() -> IPPoolConfig {
    IPPoolConfig {
        ips: vec![
            IPConfig {
                address: "192.168.1.1".to_string(),
                port: 1080,
                country: Some("US".to_string()),
                isp: Some("ISP1".to_string()),
            },
            IPConfig {
                address: "10.0.0.1".to_string(),
                port: 1080,
                country: Some("DE".to_string()),
                isp: Some("ISP2".to_string()),
            },
            IPConfig {
                address: "172.16.0.1".to_string(),
                port: 1080,
                country: Some("JP".to_string()),
                isp: Some("ISP3".to_string()),
            },
        ],
        health_check_interval_secs: 60,
        auto_rotate_interval_secs: 300,
        strategy: "roundrobin".to_string(),
    }
}

fn two_node_pool(strategy: &str) -> IPPoolConfig {
    IPPoolConfig {
        ips: vec![
            IPConfig {
                address: "192.168.1.1".to_string(),
                port: 1080,
                country: None,
                isp: None,
            },
            IPConfig {
                address: "192.168.1.2".to_string(),
                port: 1080,
                country: None,
                isp: None,
            },
        ],
        health_check_interval_secs: 60,
        auto_rotate_interval_secs: 300,
        strategy: strategy.to_string(),
    }
}

#[test]
fn test_rotation_strategy_variants() {
    let _ = RotationStrategy::Random;
    let _ = RotationStrategy::RoundRobin;
    let _ = RotationStrategy::LeastUsed;
    let _ = RotationStrategy::PerformanceBased;
}

#[test]
fn test_health_status_variants() {
    let _ = HealthStatus::Healthy;
    let _ = HealthStatus::Degraded;
    let _ = HealthStatus::Unhealthy;
    let _ = HealthStatus::Unknown;
}

#[test]
fn test_ip_manager_new() {
    let config = create_test_ip_pool();
    let _manager = IPManager::new(config);
}

#[test]
fn test_select_ip_round_robin() {
    let config = create_test_ip_pool();
    let mut manager = IPManager::new(config);

    let ip1 = manager.select_ip();
    let ip2 = manager.select_ip();
    let ip3 = manager.select_ip();

    assert!(ip1.is_some());
    assert!(ip2.is_some());
    assert!(ip3.is_some());
}

#[test]
fn test_select_ip_empty_pool() {
    let config = IPPoolConfig {
        ips: vec![],
        health_check_interval_secs: 60,
        auto_rotate_interval_secs: 300,
        strategy: "roundrobin".to_string(),
    };

    let mut manager = IPManager::new(config);
    let result = manager.select_ip();

    assert!(result.is_none());
}

#[test]
fn test_record_result_success() {
    let config = create_test_ip_pool();
    let mut manager = IPManager::new(config);

    manager.record_result("192.168.1.1", true, 50, 1_000);
}

#[test]
fn test_record_result_failure() {
    let config = create_test_ip_pool();
    let mut manager = IPManager::new(config);

    manager.record_result("192.168.1.1", false, 100, 1_000);
}

#[test]
fn test_record_result_nonexistent_ip() {
    let config = create_test_ip_pool();
    let mut manager = IPManager::new(config);

    // Should not panic, and should change nothing.
    manager.record_result("nonexistent.ip", true, 50, 1_000);
    assert!(manager.get_ip_stats("nonexistent.ip").is_none());
}

#[test]
fn test_round_robin_strategy() {
    let config = two_node_pool("roundrobin");
    let mut manager = IPManager::new(config);

    let ip1 = manager.select_ip();
    let ip2 = manager.select_ip();

    assert!(ip1.is_some());
    assert!(ip2.is_some());
    // Two healthy nodes: consecutive picks alternate.
    assert_ne!(ip1.unwrap().address, ip2.unwrap().address);
}

#[test]
fn test_performance_strategy() {
    let config = two_node_pool("performance");
    let mut manager = IPManager::new(config);

    let ip = manager.select_ip();
    assert!(ip.is_some());
}

#[test]
fn test_random_strategy() {
    let config = two_node_pool("random");
    let mut manager = IPManager::new(config);

    let ip = manager.select_ip();
    assert!(ip.is_some());
}

#[test]
fn test_least_used_strategy() {
    let config = two_node_pool("leastused");
    let mut manager = IPManager::new(config);

    let ip = manager.select_ip();
    assert!(ip.is_some());
}

#[test]
fn test_unknown_strategy_defaults_to_round_robin() {
    let config = IPPoolConfig {
        ips: vec![IPConfig {
            address: "192.168.1.1".to_string(),
            port: 1080,
            country: None,
            isp: None,
        }],
        health_check_interval_secs: 60,
        auto_rotate_interval_secs: 300,
        strategy: "unknown".to_string(),
    };
    let mut manager = IPManager::new(config);

    let ip = manager.select_ip();
    assert!(ip.is_some());
}

#[test]
fn test_multiple_record_results() {
    let config = create_test_ip_pool();
    let mut manager = IPManager::new(config);

    for i in 0..10u64 {
        manager.record_result("192.168.1.1", i % 2 == 0, 50, 1_000 + i);
    }
    let stats = manager.get_ip_stats("192.168.1.1").unwrap();
    assert_eq!(stats.use_count, 10);
    assert_eq!(stats.success_count, 5);
    assert_eq!(stats.failure_count, 5);
    // Outcomes never outnumber attempts.
    assert!(stats.success_count + stats.failure_count <= stats.use_count);
}

#[test]
fn test_health_transition_to_unhealthy() {
    // One node; four successes at 50 ms, then six failures. At ten samples
    // with six failures the rate reaches 0.6 and the node turns unhealthy.
    let config = IPPoolConfig {
        ips: vec![IPConfig {
            address: "10.1.1.1".to_string(),
            port: 1080,
            country: None,
            isp: None,
        }],
        health_check_interval_secs: 60,
        auto_rotate_interval_secs: 300,
        strategy: "random".to_string(),
    };
    let mut manager = IPManager::new(config);

    for i in 0..4u64 {
        manager.record_result("10.1.1.1", true, 50, i);
    }
    for i in 0..5u64 {
        manager.record_result("10.1.1.1", false, 50, 4 + i);
    }
    // Nine samples, five failures: rate 5/9 < 0.6.
    let stats = manager.get_ip_stats("10.1.1.1").unwrap();
    assert_eq!(stats.health_status, HealthStatus::Degraded);

    manager.record_result("10.1.1.1", false, 50, 10);
    let stats = manager.get_ip_stats("10.1.1.1").unwrap();
    assert_eq!(stats.use_count, 10);
    assert_eq!(stats.failure_count, 6);
    assert_eq!(stats.health_status, HealthStatus::Unhealthy);

    // The pool still hands out its only node as a fallback.
    let picked = manager.select_ip();
    assert_eq!(picked.unwrap().address, "10.1.1.1");
}

#[test]
fn test_clean_record_is_healthy() {
    let config = IPPoolConfig {
        ips: vec![IPConfig {
            address: "10.1.1.2".to_string(),
            port: 1080,
            country: None,
            isp: None,
        }],
        health_check_interval_secs: 60,
        auto_rotate_interval_secs: 300,
        strategy: "random".to_string(),
    };
    let mut manager = IPManager::new(config);
    for i in 0..5u64 {
        manager.record_result("10.1.1.2", true, 20, i);
    }
    let stats = manager.get_ip_stats("10.1.1.2").unwrap();
    assert_eq!(stats.health_status, HealthStatus::Healthy);
    assert_eq!(stats.latency_ms, 20);
}

#[test]
fn test_add_remove_toggle_update() {
    let config = IPPoolConfig {
        ips: vec![],
        health_check_interval_secs: 60,
        auto_rotate_interval_secs: 300,
        strategy: "roundrobin".to_string(),
    };
    let mut manager = IPManager::new(config);
    assert!(manager.is_empty());

    let added = manager.add_node(vulpini::ip_manager::AddIPRequest {
        address: "1.2.3.4".to_string(),
        port: 1080,
        country: None,
        isp: None,
        enabled: None,
    });
    assert!(added);
    let dup = manager.add_node(vulpini::ip_manager::AddIPRequest {
        address: "1.2.3.4".to_string(),
        port: 9999,
        country: None,
        isp: None,
        enabled: None,
    });
    assert!(!dup);
    assert_eq!(manager.len(), 1);

    let toggled = manager.toggle_node("1.2.3.4");
    assert_eq!(toggled, Some(false));
    let toggled = manager.toggle_node("1.2.3.4");
    assert_eq!(toggled, Some(true));
    assert_eq!(manager.toggle_node("missing"), None);

    let updated = manager.update_node(
        "1.2.3.4",
        vulpini::ip_manager::UpdateIPRequest {
            address: "1.2.3.4".to_string(),
            port: Some(2080),
            country: Some("US".to_string()),
            isp: None,
            enabled: None,
        },
    );
    assert!(updated);
    let node = manager.get_node("1.2.3.4").unwrap();
    assert_eq!(node.port, 2080);
    assert_eq!(node.country, Some("US".to_string()));

    assert_eq!(manager.get_proxy_endpoint(), Some("1.2.3.4:2080".to_string()));

    let removed = manager.remove_node("1.2.3.4");
    assert!(removed);
    assert!(manager.get_ip_stats("1.2.3.4").is_none());
    assert!(manager.select_ip().is_none());
}

#[test]
fn test_least_used_prefers_idle_node() {
    let config = two_node_pool("leastused");
    let mut manager = IPManager::new(config);
    for i in 0..3u64 {
        manager.record_result("192.168.1.1", true, 10, i);
    }
    let picked = manager.select_ip().unwrap();
    assert_eq!(picked.address, "192.168.1.2");
}

#[test]
fn test_performance_prefers_better_rate() {
    let config = two_node_pool("performance");
    let mut manager = IPManager::new(config);
    manager.record_result("192.168.1.1", false, 10, 0);
    manager.record_result("192.168.1.2", true, 10, 1);
    let picked = manager.select_ip().unwrap();
    assert_eq!(picked.address, "192.168.1.2");
}
