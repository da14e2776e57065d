//! Log levels and entries. The sinks that write them (console, file) are
//! the caller's; this module owns the ordering between levels.

use vstd::prelude::*;

verus! {

#[derive(Debug, Clone, Copy, PartialEq, Eq, Structural)]
pub enum LogLevel {
    Trace,
    Debug,
    Info,
    Warn,
    Error,
}

/// One recorded log line.
#[derive(Debug, Clone)]
pub struct LogEntry {
    pub timestamp: u64,
    pub level: LogLevel,
    pub message: String,
}

/// The severity rank of a level; higher is more severe.
pub open spec fn level_rank(l: LogLevel) -> int {
    match l {
        LogLevel::Trace => 0,
        LogLevel::Debug => 1,
        LogLevel::Info => 2,
        LogLevel::Warn => 3,
        LogLevel::Error => 4,
    }
}

/// The fixed tag a level is printed with.
pub fn level_str(level: LogLevel) -> (r: &'static str)
    ensures
        level == LogLevel::Trace ==> r@ == "TRACE"@,
        level == LogLevel::Debug ==> r@ == "DEBUG"@,
        level == LogLevel::Info ==> r@ == "INFO"@,
        level == LogLevel::Warn ==> r@ == "WARN"@,
        level == LogLevel::Error ==> r@ == "ERROR"@,
{
    match level {
        LogLevel::Trace => "TRACE",
        LogLevel::Debug => "DEBUG",
        LogLevel::Info => "INFO",
        LogLevel::Warn => "WARN",
        LogLevel::Error => "ERROR",
    }
}

/// Whether a message at `level` passes a sink configured at `min`.
pub fn should_log(level: LogLevel, min: LogLevel) -> (r: bool)
    ensures
        r == (level_rank(level) >= level_rank(min)),
{
    let lr: u8 = match level {
        LogLevel::Trace => 0,
        LogLevel::Debug => 1,
        LogLevel::Info => 2,
        LogLevel::Warn => 3,
        LogLevel::Error => 4,
    };
    let mr: u8 = match min {
        LogLevel::Trace => 0,
        LogLevel::Debug => 1,
        LogLevel::Info => 2,
        LogLevel::Warn => 3,
        LogLevel::Error => 4,
    };
    lr >= mr
}

} // verus!
