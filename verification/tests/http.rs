use vulpini::protocol::http::{
    check_proxy_auth, decode_base64, parse_connect_target, parse_http_url,
    prepare_forward_request, response_auth_required, response_bad_gateway, response_bad_request,
    response_connection_established, response_gateway_timeout, HTTP_CONNECT_TIMEOUT_MS,
};

// ── decode_base64 ───────────────────────────────────────────────────────

#[test]
fn test_decode_base64_simple() {
    // "hello" = "aGVsbG8="
    let decoded = decode_base64(b"aGVsbG8=").unwrap();
    assert_eq!(decoded, b"hello");
}

#[test]
fn test_decode_base64_with_colon() {
    // "user:pass" = "dXNlcjpwYXNz"
    let decoded = decode_base64(b"dXNlcjpwYXNz").unwrap();
    assert_eq!(decoded, b"user:pass");
}

#[test]
fn test_decode_base64_empty() {
    let decoded = decode_base64(b"").unwrap();
    assert!(decoded.is_empty());
}

#[test]
fn test_decode_base64_invalid() {
    assert!(decode_base64(b"!!!").is_none());
}

// ── check_proxy_auth ────────────────────────────────────────────────────

#[test]
fn test_auth_disabled_always_passes() {
    assert!(check_proxy_auth(b"GET / HTTP/1.1\r\n\r\n", false, &None, &None));
}

#[test]
fn test_auth_enabled_no_header_fails() {
    assert!(!check_proxy_auth(
        b"GET / HTTP/1.1\r\n\r\n",
        true,
        &Some("user".to_string()),
        &Some("pass".to_string()),
    ));
}

#[test]
fn test_auth_correct_credentials() {
    // "user:pass" -> base64 "dXNlcjpwYXNz"
    let req = b"GET / HTTP/1.1\r\nProxy-Authorization: Basic dXNlcjpwYXNz\r\n\r\n";
    assert!(check_proxy_auth(
        req,
        true,
        &Some("user".to_string()),
        &Some("pass".to_string()),
    ));
}

#[test]
fn test_auth_wrong_credentials() {
    // "wrong:creds" -> base64 "d3Jvbmc6Y3JlZHM="
    let req = b"GET / HTTP/1.1\r\nProxy-Authorization: Basic d3Jvbmc6Y3JlZHM=\r\n\r\n";
    assert!(!check_proxy_auth(
        req,
        true,
        &Some("user".to_string()),
        &Some("pass".to_string()),
    ));
}

#[test]
fn test_auth_case_insensitive_header() {
    let req = b"GET / HTTP/1.1\r\nproxy-authorization: Basic dXNlcjpwYXNz\r\n\r\n";
    assert!(check_proxy_auth(
        req,
        true,
        &Some("user".to_string()),
        &Some("pass".to_string()),
    ));
}

#[test]
fn test_auth_username_only() {
    // "admin:" -> base64 "YWRtaW46"
    let req = b"GET / HTTP/1.1\r\nProxy-Authorization: Basic YWRtaW46\r\n\r\n";
    assert!(check_proxy_auth(req, true, &Some("admin".to_string()), &None));
}

// ── parse_connect_target ────────────────────────────────────────────────

#[test]
fn test_parse_connect_host_port() {
    let (host, port) = parse_connect_target(b"example.com:443").unwrap();
    assert_eq!(host, b"example.com");
    assert_eq!(port, 443);
}

#[test]
fn test_parse_connect_ipv4() {
    let (host, port) = parse_connect_target(b"1.2.3.4:8080").unwrap();
    assert_eq!(host, b"1.2.3.4");
    assert_eq!(port, 8080);
}

#[test]
fn test_parse_connect_ipv6() {
    let (host, port) = parse_connect_target(b"[::1]:443").unwrap();
    assert_eq!(host, b"::1");
    assert_eq!(port, 443);
}

#[test]
fn test_parse_connect_default_port() {
    let (host, port) = parse_connect_target(b"[::1]:").unwrap();
    assert_eq!(host, b"::1");
    assert_eq!(port, 443);
}

#[test]
fn test_parse_connect_invalid() {
    assert!(parse_connect_target(b"nocolon").is_none());
}

// ── parse_http_url ──────────────────────────────────────────────────────

#[test]
fn test_parse_http_url_basic() {
    let req = b"GET http://example.com/path HTTP/1.1\r\nHost: example.com\r\n\r\n";
    let (host, port, path) = parse_http_url(req).unwrap();
    assert_eq!(host, b"example.com");
    assert_eq!(port, 80);
    assert_eq!(path, b"/path");
}

#[test]
fn test_parse_http_url_with_port() {
    let req = b"GET http://example.com:8080/api/data HTTP/1.1\r\n\r\n";
    let (host, port, path) = parse_http_url(req).unwrap();
    assert_eq!(host, b"example.com");
    assert_eq!(port, 8080);
    assert_eq!(path, b"/api/data");
}

#[test]
fn test_parse_http_url_no_path() {
    let req = b"GET http://example.com HTTP/1.1\r\n\r\n";
    let (host, port, path) = parse_http_url(req).unwrap();
    assert_eq!(host, b"example.com");
    assert_eq!(port, 80);
    assert_eq!(path, b"/");
}

#[test]
fn test_parse_http_url_not_http() {
    let req = b"CONNECT example.com:443 HTTP/1.1\r\n\r\n";
    assert!(parse_http_url(req).is_none());
}

// ── prepare_forward_request ─────────────────────────────────────────────

#[test]
fn test_prepare_forward_rewrite_path() {
    let req = b"GET http://example.com/page HTTP/1.1\r\nHost: example.com\r\nProxy-Authorization: Basic abc\r\n\r\n";
    let path = b"/page".to_vec();
    let result = String::from_utf8(prepare_forward_request(req, Some(&path))).unwrap();

    assert!(result.starts_with("GET /page HTTP/1.1\r\n"));
    assert!(!result.contains("Proxy-Authorization"));
    assert!(result.contains("Connection: close"));
}

#[test]
fn test_prepare_forward_keep_absolute_url() {
    let req = b"GET http://example.com/page HTTP/1.1\r\nHost: example.com\r\n\r\n";
    let result = String::from_utf8(prepare_forward_request(req, None)).unwrap();

    assert!(result.starts_with("GET http://example.com/page HTTP/1.1\r\n"));
}

#[test]
fn test_prepare_forward_strips_connection_header() {
    let req = b"GET / HTTP/1.1\r\nHost: example.com\r\nConnection: keep-alive\r\n\r\n";
    let path = b"/".to_vec();
    let result = String::from_utf8(prepare_forward_request(req, Some(&path))).unwrap();

    assert!(!result.contains("keep-alive"));
    assert!(result.contains("Connection: close"));
}

#[test]
fn test_prepare_forward_preserves_body() {
    let req = b"POST http://example.com/api HTTP/1.1\r\nHost: example.com\r\nContent-Length: 4\r\n\r\ndata";
    let path = b"/api".to_vec();
    let result = String::from_utf8(prepare_forward_request(req, Some(&path))).unwrap();

    assert!(result.ends_with("data"));
    assert!(result.contains("Content-Length: 4"));
}

#[test]
fn test_prepare_forward_exact_output() {
    let req = b"GET http://x/ HTTP/1.1\r\nHost: x\r\nConnection: keep-alive\r\n\r\n";
    let path = b"/".to_vec();
    let result = prepare_forward_request(req, Some(&path));
    assert_eq!(
        result,
        b"GET / HTTP/1.1\r\nHost: x\r\nConnection: close\r\n\r\n"
    );
}

// ── responses ───────────────────────────────────────────────────────────

#[test]
fn test_response_lines() {
    assert_eq!(response_bad_request(), b"HTTP/1.1 400 Bad Request\r\n\r\n");
    assert_eq!(response_bad_gateway(), b"HTTP/1.1 502 Bad Gateway\r\n\r\n");
    assert_eq!(
        response_gateway_timeout(),
        b"HTTP/1.1 504 Gateway Timeout\r\n\r\n"
    );
    assert_eq!(
        response_connection_established(),
        b"HTTP/1.1 200 Connection Established\r\n\r\n"
    );
    let auth = String::from_utf8(response_auth_required(&"Vulpini".to_string())).unwrap();
    assert!(auth.starts_with("HTTP/1.1 407 Proxy Authentication Required\r\n"));
    assert!(auth.contains("Proxy-Authenticate: Basic realm=\"Vulpini\""));
}

#[test]
fn test_http_connect_timeout_constant() {
    assert_eq!(HTTP_CONNECT_TIMEOUT_MS, 15_000);
}

#[test]
fn test_auth_challenge_flow() {
    // An unauthenticated request earns the 407 challenge; the same
    // request with `Basic dXNlcjpwYXNz` passes the check.
    let bare = b"GET http://x/ HTTP/1.1\r\n\r\n";
    let user = Some("user".to_string());
    let pass = Some("pass".to_string());
    assert!(!check_proxy_auth(bare, true, &user, &pass));
    let challenge = String::from_utf8(response_auth_required(&"Vulpini".to_string())).unwrap();
    assert!(challenge.starts_with("HTTP/1.1 407"));

    let authed = b"GET http://x/ HTTP/1.1\r\nProxy-Authorization: Basic dXNlcjpwYXNz\r\n\r\n";
    assert!(check_proxy_auth(authed, true, &user, &pass));
}
