use tether_core::i18n::resolve_tag;
use tether_core::proxy::{is_loopback, rewrite_origin, rewrite_request_head, ProxyAuth};

fn s(v: &str) -> Option<String> {
    Some(v.to_string())
}

#[test]
fn explicit_lang_wins() {
    assert_eq!(
        resolve_tag(Some("en"), s("zh_CN.UTF-8"), s("zh_CN.UTF-8"), s("zh-CN")),
        "en"
    );
}

#[test]
fn lc_all_before_lang() {
    assert_eq!(resolve_tag(None, s("en_GB.UTF-8"), s("zh_CN.UTF-8"), None), "en_GB.UTF-8");
}

#[test]
fn system_locale_when_env_absent() {
    // On Windows and macOS LC_ALL/LANG are usually absent.
    assert_eq!(resolve_tag(None, None, None, s("en-GB")), "en-GB");
}

#[test]
fn empty_env_does_not_count() {
    // An empty LANG means "not set", not "set to something other than Chinese".
    assert_eq!(resolve_tag(None, s(""), s("  "), s("zh-CN")), "zh-CN");
}

#[test]
fn chinese_when_nothing_is_known() {
    assert_eq!(resolve_tag(None, None, None, None), "zh");
}

fn auth() -> ProxyAuth {
    ProxyAuth { cookie: "dsh-auth-abc=v1.xyz".into(), authority: "127.0.0.1:18000".into() }
}

#[test]
fn plain_request_rewrites_host_injects_cookie_forces_close() {
    let head = "GET /api/x HTTP/1.1\r\nHost: 127.0.0.1:39411\r\nConnection: keep-alive\r\nAccept: */*\r\n\r\n";
    let out = rewrite_request_head(head, &auth());
    assert!(out.starts_with("GET /api/x HTTP/1.1\r\n"));
    assert!(out.contains("host: 127.0.0.1:18000\r\n"), "{out}");
    assert!(out.contains("cookie: dsh-auth-abc=v1.xyz\r\n"), "{out}");
    assert!(out.contains("connection: close\r\n"), "{out}");
    assert!(!out.contains("keep-alive"), "原 Connection 应被移除: {out}");
    assert!(out.contains("Accept: */*\r\n"), "无关头原样保留: {out}");
    assert!(out.ends_with("\r\n\r\n"));
    assert!(!out.contains("Host: 127.0.0.1:39411"), "{out}");
}

#[test]
fn upgrade_request_keeps_connection_and_upgrade_without_close() {
    let head = "GET /stream HTTP/1.1\r\nHost: 127.0.0.1:39411\r\nConnection: Upgrade\r\nUpgrade: websocket\r\nOrigin: http://127.0.0.1:39411\r\n\r\n";
    let out = rewrite_request_head(head, &auth());
    assert!(out.contains("Connection: Upgrade\r\n"), "{out}");
    assert!(out.contains("Upgrade: websocket\r\n"), "{out}");
    assert!(!out.contains("connection: close"), "{out}");
    assert!(out.contains("cookie: dsh-auth-abc=v1.xyz\r\n"), "{out}");
    assert!(out.contains("origin: http://127.0.0.1:18000\r\n"), "{out}");
}

#[test]
fn loopback_origin_rewritten_other_origins_left_for_dsh_fence() {
    assert_eq!(
        rewrite_origin("http://127.0.0.1:39411", "127.0.0.1:18000").as_deref(),
        Some("http://127.0.0.1:18000")
    );
    assert_eq!(
        rewrite_origin("http://localhost:8080", "127.0.0.1:18000").as_deref(),
        Some("http://127.0.0.1:18000")
    );
    assert_eq!(
        rewrite_origin("http://[::1]:8080", "127.0.0.1:18000").as_deref(),
        Some("http://127.0.0.1:18000")
    );
    assert_eq!(rewrite_origin("http://evil.example", "127.0.0.1:18000"), None);
    assert_eq!(rewrite_origin("https://127.0.0.1:39411", "127.0.0.1:18000"), None);
    assert_eq!(rewrite_origin("null", "127.0.0.1:18000"), None);
}

#[test]
fn loopback_boundary_values() {
    assert!(is_loopback("127.0.0.1"));
    assert!(is_loopback("127.255.255.255"));
    assert!(is_loopback("localhost"));
    assert!(is_loopback("::1"));
    // 128/8 is not loopback; 256 is out of range; the short form 127.1 is not four parts.
    assert!(!is_loopback("128.0.0.1"));
    assert!(!is_loopback("127.0.0.256"));
    assert!(!is_loopback("127.1"));
    assert!(!is_loopback("evil.com"));
    assert!(!is_loopback(""));
}

#[test]
fn phone_cookie_header_kept_injected_on_own_line() {
    let head = "GET / HTTP/1.1\r\nHost: 127.0.0.1:39411\r\nCookie: stale=1\r\n\r\n";
    let out = rewrite_request_head(head, &auth());
    assert!(out.contains("Cookie: stale=1\r\n"), "{out}");
    assert!(out.contains("cookie: dsh-auth-abc=v1.xyz\r\n"), "{out}");
}
