//! Configuration model and its validation. Ratios are fixed-point
//! thousandths (permille), so `min_reliability_permille = 800` stands for
//! 0.8. Reading and writing the configuration file is the caller's job;
//! this module owns the meaning of the values.

use vstd::prelude::*;
use vstd::string::{StringExecFns, StringSliceAdditionalSpecFns};
use crate::bytes::{utf8_of, spec_lower, string_bytes, lower_byte};

verus! {

#[derive(Debug, Clone)]
pub struct Socks5Config {
    pub enabled: bool,
    pub listen_address: String,
    pub listen_port: u16,
    pub auth_enabled: bool,
    pub username: Option<String>,
    pub password: Option<String>,
    pub max_connections: u32,
}

#[derive(Debug, Clone)]
pub struct HttpProxyConfig {
    pub enabled: bool,
    pub listen_address: String,
    pub listen_port: u16,
    pub auth_enabled: bool,
    pub username: Option<String>,
    pub password: Option<String>,
    pub max_connections: u32,
}

#[derive(Debug, Clone)]
pub struct IPConfig {
    pub address: String,
    pub port: u16,
    pub country: Option<String>,
    pub isp: Option<String>,
}

#[derive(Debug, Clone)]
pub struct IPPoolConfig {
    pub ips: Vec<IPConfig>,
    pub health_check_interval_secs: u64,
    pub auto_rotate_interval_secs: u64,
    pub strategy: String,
}

#[derive(Debug, Clone)]
pub struct RoutingConfig {
    pub max_latency_threshold_ms: u64,
    /// Minimum acceptable reliability, in thousandths (0..=1000 is valid).
    pub min_reliability_permille: u32,
    pub load_balancing: String,
    pub fallback_enabled: bool,
}

#[derive(Debug, Clone)]
pub struct AnomalyDetectionConfig {
    pub enabled: bool,
    /// Spike multiplier over the baseline average, in thousandths
    /// (3000 stands for 3.0×).
    pub spike_threshold_permille: u64,
    pub latency_threshold_ms: u64,
    /// Error-rate alarm level, in thousandths (0..=1000 is valid).
    pub error_rate_threshold_permille: u32,
    pub connection_threshold: u32,
    pub check_interval_secs: u64,
}

#[derive(Debug, Clone)]
pub struct LoggingConfig {
    pub level: String,
    pub file_enabled: bool,
    pub file_path: String,
    pub console_enabled: bool,
}

#[derive(Debug, Clone)]
pub struct ProxyConfig {
    pub socks5: Socks5Config,
    pub http_proxy: HttpProxyConfig,
    pub ip_pool: IPPoolConfig,
    pub routing: RoutingConfig,
    pub anomaly_detection: AnomalyDetectionConfig,
    pub logging: LoggingConfig,
}

impl Default for ProxyConfig {
    /// The built-in configuration: both listeners on localhost, no auth,
    /// performance-based node rotation, fastest-response routing.
    fn default() -> (c: Self)
        ensures
            c.socks5.enabled && c.socks5.listen_address@ == "127.0.0.1"@
                && c.socks5.listen_port == 1080 && !c.socks5.auth_enabled
                && c.socks5.username.is_none() && c.socks5.password.is_none()
                && c.socks5.max_connections == 1000,
            c.http_proxy.enabled && c.http_proxy.listen_address@ == "127.0.0.1"@
                && c.http_proxy.listen_port == 8080 && !c.http_proxy.auth_enabled
                && c.http_proxy.username.is_none() && c.http_proxy.password.is_none()
                && c.http_proxy.max_connections == 1000,
            c.ip_pool.ips@.len() == 0 && c.ip_pool.health_check_interval_secs == 60
                && c.ip_pool.auto_rotate_interval_secs == 300 && c.ip_pool.strategy@
                == "performance"@,
            c.routing.max_latency_threshold_ms == 1000 && c.routing.min_reliability_permille
                == 800 && c.routing.load_balancing@ == "fastest"@ && c.routing.fallback_enabled,
            c.anomaly_detection.enabled && c.anomaly_detection.spike_threshold_permille == 3000
                && c.anomaly_detection.latency_threshold_ms == 5000
                && c.anomaly_detection.error_rate_threshold_permille == 100
                && c.anomaly_detection.connection_threshold == 500
                && c.anomaly_detection.check_interval_secs == 10,
            c.logging.level@ == "info"@ && c.logging.file_enabled && c.logging.file_path@
                == "vulpini.log"@ && c.logging.console_enabled,
    {
        ProxyConfig {
            socks5: Socks5Config {
                enabled: true,
                listen_address: String::from_str("127.0.0.1"),
                listen_port: 1080,
                auth_enabled: false,
                username: None,
                password: None,
                max_connections: 1000,
            },
            http_proxy: HttpProxyConfig {
                enabled: true,
                listen_address: String::from_str("127.0.0.1"),
                listen_port: 8080,
                auth_enabled: false,
                username: None,
                password: None,
                max_connections: 1000,
            },
            ip_pool: IPPoolConfig {
                ips: Vec::new(),
                health_check_interval_secs: 60,
                auto_rotate_interval_secs: 300,
                strategy: String::from_str("performance"),
            },
            routing: RoutingConfig {
                max_latency_threshold_ms: 1000,
                min_reliability_permille: 800,
                load_balancing: String::from_str("fastest"),
                fallback_enabled: true,
            },
            anomaly_detection: AnomalyDetectionConfig {
                enabled: true,
                spike_threshold_permille: 3000,
                latency_threshold_ms: 5000,
                error_rate_threshold_permille: 100,
                connection_threshold: 500,
                check_interval_secs: 10,
            },
            logging: LoggingConfig {
                level: String::from_str("info"),
                file_enabled: true,
                file_path: String::from_str("vulpini.log"),
                console_enabled: true,
            },
        }
    }
}

/// The accepted node-rotation strategy tags.
pub open spec fn valid_ip_strategy(tag: Seq<char>) -> bool {
    tag == "random"@ || tag == "roundrobin"@ || tag == "leastused"@ || tag == "performance"@
}

/// The accepted load-balancing tags.
pub open spec fn valid_lb_strategy(tag: Seq<char>) -> bool {
    tag == "roundrobin"@ || tag == "leastconnections"@ || tag == "fastest"@
}

/// ASCII lower-casing of a byte sequence.
pub open spec fn lower_bytes(s: Seq<u8>) -> Seq<u8> {
    s.map_values(|b: u8| spec_lower(b))
}

/// The accepted log-level tags, compared after ASCII lower-casing.
pub open spec fn valid_log_level(level: Seq<char>) -> bool {
    ||| lower_bytes(utf8_of(level)) == utf8_of("trace"@)
    ||| lower_bytes(utf8_of(level)) == utf8_of("debug"@)
    ||| lower_bytes(utf8_of(level)) == utf8_of("info"@)
    ||| lower_bytes(utf8_of(level)) == utf8_of("warn"@)
    ||| lower_bytes(utf8_of(level)) == utf8_of("error"@)
}

/// Compare a configured tag against a fixed tag, byte-wise after ASCII
/// lower-casing of the configured side.
fn tag_matches_lower(s: &String, t: &str) -> (r: bool)
    ensures
        r == (lower_bytes(utf8_of(s@)) == t.spec_bytes()),
{
    let a = string_bytes(s);
    let b = t.as_bytes();
    if a.len() != b.len() {
        assert(lower_bytes(utf8_of(s@)).len() == utf8_of(s@).len());
        return false;
    }
    let ghost la = lower_bytes(utf8_of(s@));
    let mut i: usize = 0;
    while i < a.len()
        invariant
            i <= a.len(),
            a.len() == b.len(),
            a@ == utf8_of(s@),
            b@ == t.spec_bytes(),
            la == lower_bytes(utf8_of(s@)),
            la.len() == a@.len(),
            forall|j: int| 0 <= j < i ==> la[j] == b@[j],
        decreases a.len() - i,
    {
        if lower_byte(a[i]) != b[i] {
            assert(la[i as int] != b@[i as int]);
            return false;
        }
        assert(la[i as int] == b@[i as int]);
        i += 1;
    }
    assert(la =~= b@);
    true
}

impl ProxyConfig {
    /// Every warning `validate` can raise, as a predicate over the
    /// configuration.
    pub open spec fn warning_count(&self) -> int {
        (if self.spec_port_conflict() { 1int } else { 0 })
            + (if self.spec_socks5_auth_incomplete() { 1int } else { 0 })
            + (if self.spec_http_auth_incomplete() { 1int } else { 0 })
            + (if !valid_ip_strategy(self.ip_pool.strategy@) { 1int } else { 0 })
            + (if !valid_lb_strategy(self.routing.load_balancing@) { 1int } else { 0 })
            + (if self.routing.min_reliability_permille > 1000 { 1int } else { 0 })
            + (if self.anomaly_detection.spike_threshold_permille == 0 { 1int } else { 0 })
            + (if self.anomaly_detection.error_rate_threshold_permille > 1000 { 1int } else { 0 })
            + (if !valid_log_level(self.logging.level@) { 1int } else { 0 })
    }

    /// Both listeners enabled and bound to the same address and port.
    pub open spec fn spec_port_conflict(&self) -> bool {
        self.socks5.enabled && self.http_proxy.enabled && self.socks5.listen_address@
            == self.http_proxy.listen_address@ && self.socks5.listen_port
            == self.http_proxy.listen_port
    }

    pub open spec fn spec_socks5_auth_incomplete(&self) -> bool {
        self.socks5.auth_enabled && (self.socks5.username.is_none()
            || self.socks5.password.is_none())
    }

    pub open spec fn spec_http_auth_incomplete(&self) -> bool {
        self.http_proxy.auth_enabled && (self.http_proxy.username.is_none()
            || self.http_proxy.password.is_none())
    }

    /// A configuration is clean when no warning applies.
    pub open spec fn spec_valid(&self) -> bool {
        self.warning_count() == 0
    }

    /// Check the configuration and return one message per violated rule.
    /// The list is empty exactly when the configuration is clean; none of
    /// the warnings is fatal.
    pub fn validate(&self) -> (r: Vec<String>)
        ensures
            r@.len() == self.warning_count(),
            r@.len() == 0 <==> self.spec_valid(),
    {
        let mut warnings: Vec<String> = Vec::new();
        if self.socks5.enabled && self.http_proxy.enabled && self.socks5.listen_address
            == self.http_proxy.listen_address && self.socks5.listen_port
            == self.http_proxy.listen_port {
            warnings.push(
                String::from_str("SOCKS5 and HTTP proxy are bound to the same address:port"),
            );
        }
        if self.socks5.auth_enabled && (self.socks5.username.is_none()
            || self.socks5.password.is_none()) {
            warnings.push(String::from_str("SOCKS5 auth is enabled but username/password not set"));
        }
        if self.http_proxy.auth_enabled && (self.http_proxy.username.is_none()
            || self.http_proxy.password.is_none()) {
            warnings.push(
                String::from_str("HTTP proxy auth is enabled but username/password not set"),
            );
        }
        if !(self.ip_pool.strategy == String::from_str("random") || self.ip_pool.strategy
            == String::from_str("roundrobin") || self.ip_pool.strategy == String::from_str(
            "leastused",
        ) || self.ip_pool.strategy == String::from_str("performance")) {
            warnings.push(String::from_str("Unknown IP rotation strategy"));
        }
        if !(self.routing.load_balancing == String::from_str("roundrobin")
            || self.routing.load_balancing == String::from_str("leastconnections")
            || self.routing.load_balancing == String::from_str("fastest")) {
            warnings.push(String::from_str("Unknown load-balancing strategy"));
        }
        if self.routing.min_reliability_permille > 1000 {
            warnings.push(
                String::from_str("min_reliability_permille must be in 0..=1000"),
            );
        }
        if self.anomaly_detection.spike_threshold_permille == 0 {
            warnings.push(String::from_str("spike_threshold_permille must be > 0"));
        }
        if self.anomaly_detection.error_rate_threshold_permille > 1000 {
            warnings.push(
                String::from_str("error_rate_threshold_permille must be in 0..=1000"),
            );
        }
        if !(tag_matches_lower(&self.logging.level, "trace") || tag_matches_lower(
            &self.logging.level,
            "debug",
        ) || tag_matches_lower(&self.logging.level, "info") || tag_matches_lower(
            &self.logging.level,
            "warn",
        ) || tag_matches_lower(&self.logging.level, "error")) {
            warnings.push(String::from_str("Unknown log level"));
        }
        warnings
    }
}

} // verus!
