//! Wire-protocol state machines: SOCKS5 (RFC 1928/1929) and HTTP proxying.

pub mod socks5;
pub mod http;
