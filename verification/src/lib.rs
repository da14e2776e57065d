//! Core logic of a multi-protocol forward proxy: the SOCKS5 and HTTP proxy
//! state machines, an upstream node pool with rotation strategies and health
//! tracking, a rolling-window traffic analyzer, an anomaly detector with
//! per-type cooldown, a per-session behavior monitor, and a target router.
//!
//! Time is represented throughout as milliseconds (`u64`); rates and ratios
//! are fixed-point integers (thousandths), so that every computation is exact
//! and checkable. All I/O lives outside this crate: callers read sockets and
//! clocks, and hand plain values in.

pub mod anomaly_detector;
pub mod api;
pub mod behavior_monitor;
pub mod bytes;
pub mod config;
pub mod ip_manager;
pub mod logger;
pub mod protocol;
pub mod smart_router;
pub mod traffic_analyzer;
pub mod utils;
