use vulpini::protocol::socks5::{
    check_credentials, ipv4_target_string, parse_auth_frame, parse_connect_request,
    parse_greeting, socks5_reply, upstream_drain_len, upstream_greeting, upstream_method_ok,
    upstream_reply_ok, ConnectParse, GreetingOutcome, TargetAddr, CONNECT_TIMEOUT_MS,
    REP_ATYP_NOT_SUPPORTED, REP_CMD_NOT_SUPPORTED, REP_CONN_REFUSED, REP_GENERAL_FAILURE,
    REP_HOST_UNREACHABLE, REP_SUCCESS, SOCKS5_VERSION,
};

#[test]
fn test_socks5_reply_success() {
    let reply = socks5_reply(REP_SUCCESS);
    assert_eq!(reply[0], 0x05); // version
    assert_eq!(reply[1], 0x00); // success
    assert_eq!(reply[2], 0x00); // reserved
    assert_eq!(reply[3], 0x01); // IPv4 address type
    assert_eq!(reply.len(), 10);
}

#[test]
fn test_socks5_reply_general_failure() {
    let reply = socks5_reply(REP_GENERAL_FAILURE);
    assert_eq!(reply[1], 0x01);
}

#[test]
fn test_socks5_reply_host_unreachable() {
    let reply = socks5_reply(REP_HOST_UNREACHABLE);
    assert_eq!(reply[1], 0x04);
}

#[test]
fn test_socks5_reply_conn_refused() {
    let reply = socks5_reply(REP_CONN_REFUSED);
    assert_eq!(reply[1], 0x05);
}

#[test]
fn test_socks5_reply_cmd_not_supported() {
    let reply = socks5_reply(REP_CMD_NOT_SUPPORTED);
    assert_eq!(reply[1], 0x07);
}

#[test]
fn test_socks5_reply_atyp_not_supported() {
    let reply = socks5_reply(REP_ATYP_NOT_SUPPORTED);
    assert_eq!(reply[1], 0x08);
}

#[test]
fn test_socks5_reply_zero_bound_address() {
    let reply = socks5_reply(REP_SUCCESS);
    // Bound address is 0.0.0.0:0.
    assert_eq!(&reply[4..8], &[0x00, 0x00, 0x00, 0x00]); // IP
    assert_eq!(&reply[8..10], &[0x00, 0x00]); // port
}

#[test]
fn test_socks5_version_constant() {
    assert_eq!(SOCKS5_VERSION, 0x05);
}

#[test]
fn test_connect_timeout_constant() {
    assert_eq!(CONNECT_TIMEOUT_MS, 15_000);
}

#[test]
fn test_greeting_no_auth() {
    let buf = [0x05u8, 0x01, 0x00];
    assert_eq!(parse_greeting(&buf, 3, false), GreetingOutcome::NoAuth);
}

#[test]
fn test_greeting_bad_version_dropped() {
    let buf = [0x04u8, 0x01, 0x00];
    assert_eq!(parse_greeting(&buf, 3, false), GreetingOutcome::Invalid);
}

#[test]
fn test_greeting_auth_requires_userpass() {
    // The client offers only no-auth while auth is required.
    let buf = [0x05u8, 0x01, 0x00];
    assert_eq!(parse_greeting(&buf, 3, true), GreetingOutcome::NoAcceptableMethod);
    // Offering user/pass is accepted.
    let buf = [0x05u8, 0x02, 0x00, 0x02];
    assert_eq!(parse_greeting(&buf, 4, true), GreetingOutcome::UserPass);
}

#[test]
fn test_auth_frame_roundtrip() {
    // [0x01, ULEN=4, "user", PLEN=4, "pass"]
    let buf = [0x01u8, 4, b'u', b's', b'e', b'r', 4, b'p', b'a', b's', b's'];
    let (user, pass) = parse_auth_frame(&buf, buf.len()).unwrap();
    assert_eq!(user, b"user");
    assert_eq!(pass, b"pass");
    assert!(check_credentials(
        &user,
        &pass,
        &Some("user".to_string()),
        &Some("pass".to_string()),
    ));
    assert!(!check_credentials(
        &user,
        &pass,
        &Some("user".to_string()),
        &Some("other".to_string()),
    ));
    // An unconfigured side matches anything.
    assert!(check_credentials(&user, &pass, &None, &None));
}

#[test]
fn test_auth_frame_truncated() {
    let buf = [0x01u8, 10, b'u'];
    assert!(parse_auth_frame(&buf, buf.len()).is_none());
}

#[test]
fn test_connect_request_ipv4() {
    let buf = [0x05u8, 0x01, 0x00, 0x01, 127, 0, 0, 1, 0x1F, 0x90];
    match parse_connect_request(&buf, buf.len()) {
        ConnectParse::Target(t) => {
            assert_eq!(t.port, 8080);
            match t.addr {
                TargetAddr::V4(a) => assert_eq!(a, [127, 0, 0, 1]),
                _ => panic!("expected an IPv4 target"),
            }
        }
        _ => panic!("expected a parsed CONNECT"),
    }
}

#[test]
fn test_connect_request_domain() {
    let mut buf = vec![0x05u8, 0x01, 0x00, 0x03, 11];
    buf.extend_from_slice(b"example.com");
    buf.extend_from_slice(&[0x01, 0xBB]);
    match parse_connect_request(&buf, buf.len()) {
        ConnectParse::Target(t) => {
            assert_eq!(t.port, 443);
            match t.addr {
                TargetAddr::Domain(d) => assert_eq!(d, b"example.com"),
                _ => panic!("expected a domain target"),
            }
        }
        _ => panic!("expected a parsed CONNECT"),
    }
}

#[test]
fn test_connect_request_bad_command() {
    // BIND is not supported.
    let buf = [0x05u8, 0x02, 0x00, 0x01, 127, 0, 0, 1, 0x1F, 0x90];
    assert!(matches!(
        parse_connect_request(&buf, buf.len()),
        ConnectParse::BadCommand
    ));
}

#[test]
fn test_connect_request_bad_atyp() {
    let buf = [0x05u8, 0x01, 0x00, 0x09, 127, 0, 0, 1, 0x1F, 0x90];
    assert!(matches!(
        parse_connect_request(&buf, buf.len()),
        ConnectParse::BadAddressType
    ));
}

#[test]
fn test_upstream_handshake_helpers() {
    assert_eq!(upstream_greeting(), [0x05, 0x01, 0x00]);
    assert!(upstream_method_ok(&[0x05, 0x00]));
    assert!(!upstream_method_ok(&[0x05, 0xFF]));
    assert!(upstream_reply_ok(&[0x05, 0x00, 0x00, 0x01]));
    assert!(!upstream_reply_ok(&[0x05, 0x01, 0x00, 0x01]));
    assert_eq!(upstream_drain_len(0x01, 0), Some(6));
    assert_eq!(upstream_drain_len(0x03, 11), Some(13));
    assert_eq!(upstream_drain_len(0x04, 0), Some(18));
    assert_eq!(upstream_drain_len(0x09, 0), None);
}

#[test]
fn test_ipv4_target_string() {
    let s = ipv4_target_string(&[127, 0, 0, 1], 8080);
    assert_eq!(s, "127.0.0.1:8080");
}

#[test]
fn test_direct_connect_byte_flow() {
    // The exact frames of a direct CONNECT to 127.0.0.1:P with auth off:
    // greeting `05 01 00` earns `05 00`, the request parses to the
    // loopback target, and the success frame is ten fixed bytes.
    let greeting = [0x05u8, 0x01, 0x00];
    assert_eq!(parse_greeting(&greeting, 3, false), GreetingOutcome::NoAuth);

    let port: u16 = 4321;
    let request = [
        0x05u8,
        0x01,
        0x00,
        0x01,
        0x7F,
        0x00,
        0x00,
        0x01,
        (port >> 8) as u8,
        (port & 0xFF) as u8,
    ];
    match parse_connect_request(&request, request.len()) {
        ConnectParse::Target(t) => {
            match t.addr {
                TargetAddr::V4(a) => {
                    assert_eq!(ipv4_target_string(&a, t.port), "127.0.0.1:4321");
                }
                _ => panic!("expected an IPv4 target"),
            }
        }
        _ => panic!("expected a parsed CONNECT"),
    }

    assert_eq!(
        socks5_reply(REP_SUCCESS),
        [0x05, 0x00, 0x00, 0x01, 0x00, 0x00, 0x00, 0x00, 0x00, 0x00]
    );
}
