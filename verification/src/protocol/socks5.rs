//! The SOCKS5 server-side state machine (RFC 1928 with RFC 1929 user/pass
//! sub-negotiation): greeting, method selection, credential check, CONNECT
//! request parsing, and the helpers for chaining through an upstream SOCKS5
//! proxy. Everything here is a pure function from bytes to decisions; the
//! socket reads and writes around it are the caller's.

use vstd::prelude::*;
use crate::bytes::utf8_of;

verus! {

pub const SOCKS5_VERSION: u8 = 0x05;

/// Upstream dial budget, in milliseconds.
pub const CONNECT_TIMEOUT_MS: u64 = 15_000;

pub const REP_SUCCESS: u8 = 0x00;
pub const REP_GENERAL_FAILURE: u8 = 0x01;
pub const REP_HOST_UNREACHABLE: u8 = 0x04;
pub const REP_CONN_REFUSED: u8 = 0x05;
pub const REP_CMD_NOT_SUPPORTED: u8 = 0x07;
pub const REP_ATYP_NOT_SUPPORTED: u8 = 0x08;

/// Build a minimal SOCKS5 reply with an IPv4 zero bound address.
pub fn socks5_reply(rep: u8) -> (r: [u8; 10])
    ensures
        r@ =~= seq![SOCKS5_VERSION, rep, 0x00u8, 0x01u8, 0u8, 0u8, 0u8, 0u8, 0u8, 0u8],
{
    [0x05, rep, 0x00, 0x01, 0x00, 0x00, 0x00, 0x00, 0x00, 0x00]
}

/// What the server does with a client greeting.
#[derive(Clone, Copy, Debug, PartialEq, Eq, Structural)]
pub enum GreetingOutcome {
    /// Short read or wrong version: close without replying.
    Invalid,
    /// Reply `[0x05, 0x00]` and proceed without authentication.
    NoAuth,
    /// Reply `[0x05, 0x02]` and run the user/pass sub-negotiation.
    UserPass,
    /// Reply `[0x05, 0xFF]` and close: auth is required but the client
    /// offered no user/pass method.
    NoAcceptableMethod,
}

/// Whether the greeting `buf[..n]` advertises the user/pass method (0x02):
/// the method bytes start at offset 2 and there are `buf[1]` of them.
pub open spec fn greeting_offers_userpass(buf: Seq<u8>, n: int) -> bool {
    exists|i: int| 0 <= i < buf[1] && 2 + i < n && #[trigger] buf[2 + i] == 0x02
}

/// A greeting is well-formed when at least 3 bytes arrived and the version
/// byte is 5.
pub open spec fn greeting_well_formed(buf: Seq<u8>, n: int) -> bool {
    n >= 3 && buf[0] == SOCKS5_VERSION
}

/// Classify the client greeting in `buf[..n]`.
pub fn parse_greeting(buf: &[u8], n: usize, auth_enabled: bool) -> (r: GreetingOutcome)
    requires
        n <= buf@.len(),
    ensures
        r == GreetingOutcome::Invalid <==> !greeting_well_formed(buf@, n as int),
        greeting_well_formed(buf@, n as int) && !auth_enabled ==> r == GreetingOutcome::NoAuth,
        greeting_well_formed(buf@, n as int) && auth_enabled ==> (
            if greeting_offers_userpass(buf@, n as int) {
                r == GreetingOutcome::UserPass
            } else {
                r == GreetingOutcome::NoAcceptableMethod
            }
        ),
{
    if n < 3 || buf[0] != SOCKS5_VERSION {
        return GreetingOutcome::Invalid;
    }
    if !auth_enabled {
        return GreetingOutcome::NoAuth;
    }
    let method_count = buf[1] as usize;
    let mut i: usize = 0;
    while i < method_count
        invariant
            n <= buf@.len(),
            n >= 3,
            buf@[0] == SOCKS5_VERSION,
            auth_enabled,
            method_count == buf@[1],
            i <= method_count,
            forall|j: int| 0 <= j < i && 2 + j < n ==> #[trigger] buf@[2 + j] != 0x02,
        decreases method_count - i,
    {
        if 2 + i < n && buf[2 + i] == 0x02 {
            assert(greeting_offers_userpass(buf@, n as int));
            return GreetingOutcome::UserPass;
        }
        i += 1;
    }
    assert(!greeting_offers_userpass(buf@, n as int));
    GreetingOutcome::NoAcceptableMethod
}

/// The RFC 1929 frame is well-formed: version byte 1, and the declared
/// username and password lengths fit inside the `n` bytes read.
pub open spec fn auth_frame_well_formed(buf: Seq<u8>, n: int) -> bool {
    &&& n >= 3
    &&& buf[0] == 0x01
    &&& 2 + buf[1] + 1 <= n
    &&& 3 + buf[1] + buf[2 + buf[1]] <= n
}

/// Extract the username and password from an RFC 1929 sub-negotiation frame.
/// Returns `None` exactly when the frame is malformed (the caller then
/// replies `[0x01, 0x01]` and closes).
pub fn parse_auth_frame(buf: &[u8], n: usize) -> (r: Option<(Vec<u8>, Vec<u8>)>)
    requires
        n <= buf@.len(),
    ensures
        r.is_some() <==> auth_frame_well_formed(buf@, n as int),
        r matches Some(up) ==> {
            let ulen = buf@[1] as int;
            let plen = buf@[2 + ulen] as int;
            up.0@ == buf@.subrange(2, 2 + ulen) && up.1@ == buf@.subrange(
                3 + ulen,
                3 + ulen + plen,
            )
        },
{
    if n < 3 || buf[0] != 0x01 {
        return None;
    }
    let ulen = buf[1] as usize;
    if 2 + ulen + 1 > n {
        return None;
    }
    let plen = buf[2 + ulen] as usize;
    if 3 + ulen + plen > n {
        return None;
    }
    let mut user: Vec<u8> = Vec::new();
    let mut i: usize = 2;
    while i < 2 + ulen
        invariant
            2 <= i <= 2 + ulen,
            2 + ulen < n <= buf@.len(),
            user@ == buf@.subrange(2, i as int),
        decreases 2 + ulen - i,
    {
        user.push(buf[i]);
        i += 1;
        assert(user@ =~= buf@.subrange(2, i as int));
    }
    let mut pass: Vec<u8> = Vec::new();
    let mut k: usize = 3 + ulen;
    while k < 3 + ulen + plen
        invariant
            3 + ulen <= k <= 3 + ulen + plen,
            3 + ulen + plen <= n <= buf@.len(),
            pass@ == buf@.subrange(3 + ulen as int, k as int),
        decreases 3 + ulen + plen - k,
    {
        pass.push(buf[k]);
        k += 1;
        assert(pass@ =~= buf@.subrange(3 + ulen as int, k as int));
    }
    Some((user, pass))
}

/// Whether the presented credentials match the configured ones. A side that
/// is not configured matches anything.
pub open spec fn credentials_ok(
    user: Seq<u8>,
    pass: Seq<u8>,
    expected_user: Option<Seq<char>>,
    expected_pass: Option<Seq<char>>,
) -> bool {
    match (expected_user, expected_pass) {
        (Some(eu), Some(ep)) => user == utf8_of(eu) && pass == utf8_of(ep),
        (Some(eu), None) => user == utf8_of(eu),
        (None, Some(ep)) => pass == utf8_of(ep),
        (None, None) => true,
    }
}

/// Compare presented credentials against the configured username/password.
pub fn check_credentials(
    user: &Vec<u8>,
    pass: &Vec<u8>,
    expected_user: &Option<String>,
    expected_pass: &Option<String>,
) -> (r: bool)
    ensures
        r == credentials_ok(
            user@,
            pass@,
            match expected_user {
                Some(u) => Some(u@),
                None => None,
            },
            match expected_pass {
                Some(p) => Some(p@),
                None => None,
            },
        ),
{
    let user_ok = match expected_user {
        Some(eu) => crate::bytes::bytes_eq(user.as_slice(), crate::bytes::string_bytes(eu)),
        None => true,
    };
    let pass_ok = match expected_pass {
        Some(ep) => crate::bytes::bytes_eq(pass.as_slice(), crate::bytes::string_bytes(ep)),
        None => true,
    };
    match (expected_user, expected_pass) {
        (Some(_), Some(_)) => user_ok && pass_ok,
        (Some(_), None) => user_ok,
        (None, Some(_)) => pass_ok,
        (None, None) => true,
    }
}

/// The destination a CONNECT request names, as it stands on the wire.
#[derive(Clone, Debug)]
pub enum TargetAddr {
    /// ATYP 0x01: four address octets.
    V4([u8; 4]),
    /// ATYP 0x03: the domain bytes (without the length prefix).
    Domain(Vec<u8>),
    /// ATYP 0x04: sixteen address octets.
    V6([u8; 16]),
}

#[derive(Clone, Debug)]
pub struct SocksTarget {
    pub addr: TargetAddr,
    pub port: u16,
}

/// How the server answers a request frame.
#[derive(Clone, Debug)]
pub enum ConnectParse {
    /// Short read or wrong version: close without replying.
    Invalid,
    /// Not a CONNECT: reply `REP_CMD_NOT_SUPPORTED` and close.
    BadCommand,
    /// Unknown ATYP: reply `REP_ATYP_NOT_SUPPORTED` and close.
    BadAddressType,
    /// A well-formed CONNECT to this destination.
    Target(SocksTarget),
}

/// The big-endian 16-bit value at `buf[i..i+2]`.
pub open spec fn be_port(buf: Seq<u8>, i: int) -> int {
    buf[i] * 256 + buf[i + 1]
}

/// A request frame is headed correctly: 4 bytes or more, version 5.
pub open spec fn request_headed(buf: Seq<u8>, n: int) -> bool {
    n >= 4 && buf[0] == SOCKS5_VERSION
}

/// The frame is a complete CONNECT: headed, command 1, and long enough for
/// its address type.
pub open spec fn request_complete(buf: Seq<u8>, n: int) -> bool {
    &&& request_headed(buf, n)
    &&& buf[1] == 0x01
    &&& match buf[3] {
        0x01u8 => n >= 10,
        0x03u8 => n >= 5 && n >= 7 + buf[4],
        0x04u8 => n >= 22,
        _ => false,
    }
}

/// Parse a SOCKS5 request frame. Exactly reflects the reply the server owes:
/// malformed frames are dropped, a non-CONNECT command and an unknown
/// address type each get their negative reply, and a complete CONNECT yields
/// the destination.
pub fn parse_connect_request(buf: &[u8], n: usize) -> (r: ConnectParse)
    requires
        n <= buf@.len(),
    ensures
        r matches ConnectParse::BadCommand <==> (request_headed(buf@, n as int) && buf@[1]
            != 0x01),
        r matches ConnectParse::BadAddressType <==> (request_headed(buf@, n as int) && buf@[1]
            == 0x01 && !(buf@[3] == 0x01 || buf@[3] == 0x03 || buf@[3] == 0x04)),
        r matches ConnectParse::Target(t) <==> request_complete(buf@, n as int),
        r matches ConnectParse::Target(t) ==> t.port == be_port(
            buf@,
            match buf@[3] {
                0x01u8 => 8,
                0x03u8 => 5 + buf@[4],
                _ => 20,
            },
        ),
        r matches ConnectParse::Target(t) ==> match t.addr {
            TargetAddr::V4(a) => buf@[3] == 0x01 && a@ =~= buf@.subrange(4, 8),
            TargetAddr::Domain(d) => buf@[3] == 0x03 && d@ =~= buf@.subrange(5, 5 + buf@[4]),
            TargetAddr::V6(a) => buf@[3] == 0x04 && a@ =~= buf@.subrange(4, 20),
        },
{
    if n < 4 || buf[0] != SOCKS5_VERSION {
        return ConnectParse::Invalid;
    }
    if buf[1] != 0x01 {
        return ConnectParse::BadCommand;
    }
    let atyp = buf[3];
    if atyp == 0x01 {
        if n < 10 {
            return ConnectParse::Invalid;
        }
        let addr = [buf[4], buf[5], buf[6], buf[7]];
        let port = (buf[8] as u16) * 256 + (buf[9] as u16);
        assert(addr@ =~= buf@.subrange(4, 8));
        ConnectParse::Target(SocksTarget { addr: TargetAddr::V4(addr), port })
    } else if atyp == 0x03 {
        if n < 5 {
            return ConnectParse::Invalid;
        }
        let domain_len = buf[4] as usize;
        if n < 7 + domain_len {
            return ConnectParse::Invalid;
        }
        let mut domain: Vec<u8> = Vec::new();
        let mut i: usize = 5;
        while i < 5 + domain_len
            invariant
                5 <= i <= 5 + domain_len,
                7 + domain_len <= n <= buf@.len(),
                domain@ == buf@.subrange(5, i as int),
            decreases 5 + domain_len - i,
        {
            domain.push(buf[i]);
            i += 1;
            assert(domain@ =~= buf@.subrange(5, i as int));
        }
        let port = (buf[5 + domain_len] as u16) * 256 + (buf[5 + domain_len + 1] as u16);
        ConnectParse::Target(SocksTarget { addr: TargetAddr::Domain(domain), port })
    } else if atyp == 0x04 {
        if n < 22 {
            return ConnectParse::Invalid;
        }
        let addr = [
            buf[4],
            buf[5],
            buf[6],
            buf[7],
            buf[8],
            buf[9],
            buf[10],
            buf[11],
            buf[12],
            buf[13],
            buf[14],
            buf[15],
            buf[16],
            buf[17],
            buf[18],
            buf[19],
        ];
        let port = (buf[20] as u16) * 256 + (buf[21] as u16);
        assert(addr@ =~= buf@.subrange(4, 20));
        ConnectParse::Target(SocksTarget { addr: TargetAddr::V6(addr), port })
    } else {
        ConnectParse::BadAddressType
    }
}

/// The bytes of a dotted-quad `a.b.c.d:port` target string.
pub open spec fn dotted_quad_utf8(addr: [u8; 4], port: u16) -> Seq<u8> {
    crate::utils::spec_decimal(addr[0] as nat) + seq![46u8] + crate::utils::spec_decimal(
        addr[1] as nat,
    ) + seq![46u8] + crate::utils::spec_decimal(addr[2] as nat) + seq![46u8]
        + crate::utils::spec_decimal(addr[3] as nat) + seq![58u8] + crate::utils::spec_decimal(
        port as nat,
    )
}

/// Render an IPv4 CONNECT destination as `a.b.c.d:port`.
pub fn ipv4_target_string(addr: &[u8; 4], port: u16) -> (r: String)
    ensures
        utf8_of(r@) == dotted_quad_utf8(*addr, port),
{
    let mut v = crate::utils::decimal_bytes(addr[0] as u64);
    v.push(46);
    let mut b1 = crate::utils::decimal_bytes(addr[1] as u64);
    v.append(&mut b1);
    v.push(46);
    let mut b2 = crate::utils::decimal_bytes(addr[2] as u64);
    v.append(&mut b2);
    v.push(46);
    let mut b3 = crate::utils::decimal_bytes(addr[3] as u64);
    v.append(&mut b3);
    v.push(58);
    let mut bp = crate::utils::decimal_bytes(port as u64);
    v.append(&mut bp);
    proof {
        assert(v@ =~= dotted_quad_utf8(*addr, port));
        crate::utils::lemma_decimal_ascii(addr[0] as nat);
        crate::utils::lemma_decimal_ascii(addr[1] as nat);
        crate::utils::lemma_decimal_ascii(addr[2] as nat);
        crate::utils::lemma_decimal_ascii(addr[3] as nat);
        crate::utils::lemma_decimal_ascii(port as nat);
        assert(forall|i: int| 0 <= i < v@.len() ==> v@[i] < 128);
    }
    crate::utils::ascii_to_string(v)
}

/// The greeting this proxy sends when chaining through an upstream SOCKS5
/// proxy: version 5, one method, no-auth.
pub fn upstream_greeting() -> (r: [u8; 3])
    ensures
        r@ =~= seq![SOCKS5_VERSION, 0x01u8, 0x00u8],
{
    [0x05, 0x01, 0x00]
}

/// Whether the upstream accepted the no-auth method.
pub fn upstream_method_ok(resp: &[u8; 2]) -> (r: bool)
    ensures
        r == (resp@[0] == SOCKS5_VERSION && resp@[1] == 0x00),
{
    resp[0] == SOCKS5_VERSION && resp[1] == 0x00
}

/// Whether the upstream's CONNECT reply header reports success.
pub fn upstream_reply_ok(rep_hdr: &[u8; 4]) -> (r: bool)
    ensures
        r == (rep_hdr@[1] == REP_SUCCESS),
{
    rep_hdr[1] == REP_SUCCESS
}

/// How many bytes of bound address and port remain to drain after the
/// 4-byte upstream reply header, per its ATYP. For a domain reply the length
/// byte has been read separately and is passed in. `None` means an unknown
/// ATYP: the chain attempt fails.
pub fn upstream_drain_len(atyp: u8, domain_len: u8) -> (r: Option<usize>)
    ensures
        atyp == 0x01 ==> r == Some(6usize),
        atyp == 0x03 ==> r == Some((domain_len + 2) as usize),
        atyp == 0x04 ==> r == Some(18usize),
        !(atyp == 0x01 || atyp == 0x03 || atyp == 0x04) ==> r.is_none(),
{
    if atyp == 0x01 {
        Some(6)
    } else if atyp == 0x03 {
        Some(domain_len as usize + 2)
    } else if atyp == 0x04 {
        Some(18)
    } else {
        None
    }
}

} // verus!
