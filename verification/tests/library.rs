use tether_core::devices::{device_views, paired_at_stamp, PairedDevice, PairedStore};
use tether_core::files::private_temp_name;
use tether_core::i18n::{lang_from_args, set_from_tag, t, Lang};
use tether_core::local::{
    cookie_exchange_request, cookie_from_response_head, manifests_match, parse_ready_line, response_head_done, unpack_progress, LogRing,
    LOG_LINES,
};
use tether_core::pairing::{
    format_pairing_code, new_pairing_window, pair_attempt, PairOutcome, PairRefusal, PAIRING_TTL_MS,
};
use tether_core::proxy::{rewrite_request_head, HeadStep, ProxyAuth, RequestHeadReader, MAX_HEAD};
use tether_core::wire::{
    admit_first_line, decision_of, first_line_limit, frame_line, opens_proxy, pair_fail_text, sim_outcome, FirstLine,
    LineReader, LineStep, Wire, MAX_LINE, MAX_UNPAIRED_LINE,
};

fn read_line(reader: &mut LineReader, bytes: &[u8]) -> Vec<LineStep> {
    bytes.iter().map(|b| reader.push_byte(*b)).collect()
}

#[test]
fn framed_line_reads_back() {
    let framed = frame_line("{\"type\":\"hello\",\"name\":\"我的手机\"}");
    assert_eq!(*framed.last().unwrap(), b'\n');
    let mut reader = LineReader::new(MAX_LINE);
    let steps = read_line(&mut reader, &framed);
    assert_eq!(*steps.last().unwrap(), LineStep::Line);
    assert!(steps[..steps.len() - 1].iter().all(|s| *s == LineStep::Pending));
    assert_eq!(reader.into_text().unwrap(), "{\"type\":\"hello\",\"name\":\"我的手机\"}");
}

#[test]
fn line_of_exactly_the_bound_is_accepted() {
    let mut reader = LineReader::new(4);
    assert_eq!(read_line(&mut reader, b"abcd\n"), vec![LineStep::Pending; 4].into_iter().chain([LineStep::Line]).collect::<Vec<_>>());
    assert_eq!(reader.into_text().unwrap(), "abcd");
}

#[test]
fn line_over_the_bound_is_refused() {
    let mut reader = LineReader::new(4);
    let steps = read_line(&mut reader, b"abcde");
    assert_eq!(steps[4], LineStep::TooLong);
    let mut unpaired = LineReader::new(first_line_limit(false));
    let long = vec![b'x'; MAX_UNPAIRED_LINE + 1];
    assert_eq!(*read_line(&mut unpaired, &long).last().unwrap(), LineStep::TooLong);
}

#[test]
fn line_that_is_not_utf8_has_no_text() {
    let mut reader = LineReader::new(16);
    read_line(&mut reader, &[0xff, 0xfe, b'\n']);
    assert!(reader.into_text().is_none());
}

#[test]
fn first_line_bounds() {
    assert_eq!(first_line_limit(true), MAX_LINE);
    assert_eq!(first_line_limit(false), 512);
}

#[test]
fn first_line_admission() {
    assert!(matches!(admit_first_line(true, Wire::Hello { name: "p".into() }), FirstLine::Hello { name } if name == "p"));
    assert!(matches!(
        admit_first_line(false, Wire::Pair { code: "123456".into(), name: "p".into() }),
        FirstLine::PairRequest { code, name } if code == "123456" && name == "p"
    ));
    assert!(matches!(admit_first_line(false, Wire::Hello { name: "p".into() }), FirstLine::Refused));
    assert!(matches!(admit_first_line(true, Wire::Pair { code: "1".into(), name: "p".into() }), FirstLine::Refused));
    assert!(matches!(admit_first_line(true, Wire::Proxy), FirstLine::Refused));
}

#[test]
fn proxy_stream_and_decisions() {
    assert!(opens_proxy(&Wire::Proxy));
    assert!(!opens_proxy(&Wire::PairOk));
    assert_eq!(
        decision_of(Wire::Decision { id: "a1".into(), outcome: "allowed-once".into() }),
        Some(("a1".to_string(), "allowed-once".to_string()))
    );
    assert_eq!(decision_of(Wire::ApprovalCancel { id: "a1".into() }), None);
    assert_eq!(sim_outcome("allow"), "allowed-once");
    assert_eq!(sim_outcome("reject"), "rejected");
}

#[test]
fn pair_fail_text_in_both_languages() {
    assert_eq!(pair_fail_text(Lang::En, "no-window"), "the computer has no pairing window open");
    assert_eq!(pair_fail_text(Lang::Zh, "no-window"), "主机上没有开着的配对窗口");
    assert_eq!(pair_fail_text(Lang::En, "expired"), "the pairing window has expired");
    assert_eq!(pair_fail_text(Lang::En, "too-many-attempts"), "too many wrong codes; the window is closed");
    assert_eq!(pair_fail_text(Lang::Zh, "bad-code"), "配对码不正确");
    // An old host sent a sentence in place of a code: shown as it came.
    assert_eq!(pair_fail_text(Lang::En, "配对码不正确"), "配对码不正确");
}

#[test]
fn language_from_tag() {
    let mut lang = Lang::Zh;
    set_from_tag(&mut lang, "en-GB");
    assert_eq!(lang, Lang::En);
    set_from_tag(&mut lang, "  ZH-cn ");
    assert_eq!(lang, Lang::Zh);
    set_from_tag(&mut lang, "z");
    assert_eq!(lang, Lang::En);
    set_from_tag(&mut lang, "zh_CN.UTF-8");
    assert_eq!(lang, Lang::Zh);
    assert_eq!(t(Lang::En, "中", "en"), "en");
    assert_eq!(t(Lang::Zh, "中", "en"), "中");
}

fn args(v: &[&str]) -> Vec<String> {
    v.iter().map(|s| s.to_string()).collect()
}

#[test]
fn lang_flag_on_the_command_line() {
    assert_eq!(lang_from_args(&args(&["tether-host", "--lang=en", "host"])), Some("en".to_string()));
    assert_eq!(lang_from_args(&args(&["tether-host", "host", "--lang", "zh"])), Some("zh".to_string()));
    assert_eq!(lang_from_args(&args(&["tether-host", "--lang"])), None);
    assert_eq!(lang_from_args(&args(&["tether-host", "host"])), None);
    // The program name itself is never read as the flag.
    assert_eq!(lang_from_args(&args(&["--lang=en"])), None);
    assert_eq!(lang_from_args(&Vec::new()), None);
}

#[test]
fn pairing_code_has_six_digits() {
    assert_eq!(format_pairing_code(0), "000000");
    assert_eq!(format_pairing_code(42), "000042");
    assert_eq!(format_pairing_code(999_999), "999999");
    let w = new_pairing_window(1_000);
    assert_eq!(w.code.len(), 6);
    assert!(w.code.bytes().all(|b| b.is_ascii_digit()));
    assert_eq!(w.deadline, 1_000 + PAIRING_TTL_MS);
    assert_eq!(w.attempts, 0);
}

fn window(code: &str) -> Option<tether_core::pairing::PairingWindow> {
    Some(tether_core::pairing::PairingWindow { code: code.into(), deadline: 600_000, attempts: 0 })
}

#[test]
fn right_code_pairs_and_uses_the_window_up() {
    let mut p = window("123456");
    assert_eq!(pair_attempt(&mut p, "123456", 10), PairOutcome::Paired);
    assert!(p.is_none());
    assert_eq!(
        pair_attempt(&mut p, "123456", 10),
        PairOutcome::Refused { reason: PairRefusal::NoWindow, window_closed: false }
    );
}

#[test]
fn three_wrong_codes_close_the_window() {
    let mut p = window("123456");
    assert_eq!(pair_attempt(&mut p, "000000", 1), PairOutcome::Refused { reason: PairRefusal::BadCode, window_closed: false });
    assert_eq!(pair_attempt(&mut p, "000001", 2), PairOutcome::Refused { reason: PairRefusal::BadCode, window_closed: false });
    assert_eq!(p.as_ref().unwrap().attempts, 2);
    assert_eq!(pair_attempt(&mut p, "000002", 3), PairOutcome::Refused { reason: PairRefusal::BadCode, window_closed: true });
    assert!(p.is_none());
    // Even the right code is too late now.
    assert_eq!(
        pair_attempt(&mut p, "123456", 4),
        PairOutcome::Refused { reason: PairRefusal::NoWindow, window_closed: false }
    );
}

#[test]
fn expired_window_refuses_without_a_try() {
    let mut p = window("123456");
    assert_eq!(
        pair_attempt(&mut p, "123456", 600_001),
        PairOutcome::Refused { reason: PairRefusal::Expired, window_closed: false }
    );
    assert_eq!(p.as_ref().unwrap().attempts, 0);
    // At the deadline itself the window is still open.
    assert_eq!(pair_attempt(&mut p, "123456", 600_000), PairOutcome::Paired);
}

#[test]
fn spent_window_is_closed_as_too_many_attempts() {
    let mut p = Some(tether_core::pairing::PairingWindow { code: "123456".into(), deadline: 100, attempts: 3 });
    assert_eq!(
        pair_attempt(&mut p, "123456", 1),
        PairOutcome::Refused { reason: PairRefusal::TooManyAttempts, window_closed: true }
    );
    assert!(p.is_none());
    assert_eq!(PairRefusal::TooManyAttempts.code(), "too-many-attempts");
    assert_eq!(PairRefusal::BadCode.code(), "bad-code");
    assert_eq!(PairRefusal::Expired.code(), "expired");
    assert_eq!(PairRefusal::NoWindow.code(), "no-window");
}

fn device(id: &str, name: &str) -> PairedDevice {
    PairedDevice { id: id.into(), name: name.into(), paired_at: "unix:1".into() }
}

#[test]
fn forgetting_a_device_keeps_the_others_in_order() {
    let mut store = PairedStore::new();
    assert!(store.pairing_at_start(false));
    store.add(device("a", "A"));
    store.add(device("b", "B"));
    store.add(device("a", "A2"));
    store.add(device("c", "C"));
    assert!(!store.pairing_at_start(false));
    assert!(store.pairing_at_start(true));
    assert!(store.is_paired("a"));
    store.forget("a");
    assert!(!store.is_paired("a"));
    let ids: Vec<&str> = store.devices.iter().map(|d| d.id.as_str()).collect();
    assert_eq!(ids, vec!["b", "c"]);
    store.forget("a");
    assert_eq!(store.devices.len(), 2);
}

#[test]
fn device_list_marks_online_phones() {
    let mut store = PairedStore::new();
    store.add(device("a", "A"));
    store.add(device("b", "B"));
    let views = device_views(&store, &vec!["b".to_string(), "z".to_string()]);
    assert_eq!(views.len(), 2);
    assert_eq!((views[0].id.as_str(), views[0].name.as_str(), views[0].online), ("a", "A", false));
    assert_eq!((views[1].id.as_str(), views[1].online), ("b", true));
    assert_eq!(views[1].paired_at, "unix:1");
}

#[test]
fn paired_at_is_unix_seconds() {
    assert_eq!(paired_at_stamp(0), "unix:0");
    assert_eq!(paired_at_stamp(1_700_000_000), "unix:1700000000");
}

#[test]
fn request_head_ends_at_the_blank_line() {
    let mut reader = RequestHeadReader::new();
    let stream = b"GET / HTTP/1.1\r\nHost: x\r\n\r\nBODY";
    let mut taken = 0;
    for b in stream.iter() {
        taken += 1;
        match reader.push_byte(*b) {
            HeadStep::Pending => {}
            HeadStep::Complete => break,
            HeadStep::TooLong => panic!("too long"),
        }
    }
    assert_eq!(taken, stream.len() - 4);
    assert_eq!(reader.into_text().unwrap(), "GET / HTTP/1.1\r\nHost: x\r\n\r\n");
}

#[test]
fn request_head_over_the_bound_is_refused() {
    let mut reader = RequestHeadReader::new();
    let mut last = HeadStep::Pending;
    for _ in 0..MAX_HEAD + 1 {
        last = reader.push_byte(b'a');
    }
    assert_eq!(last, HeadStep::TooLong);
}

#[test]
fn proxy_auth_with_control_characters_is_refused() {
    assert!(ProxyAuth::from_plugin("a=b".into(), "127.0.0.1:1".into()).is_some());
    assert!(ProxyAuth::from_plugin("a=b\r\nX-Evil: 1".into(), "127.0.0.1:1".into()).is_none());
    assert!(ProxyAuth::from_plugin("a=b".into(), "127.0.0.1:1\n".into()).is_none());
    assert!(ProxyAuth::from_plugin("a=b\u{7f}".into(), "h".into()).is_none());
    assert!(ProxyAuth::from_plugin("名=值".into(), "h".into()).is_some());
}

fn auth() -> ProxyAuth {
    ProxyAuth { cookie: "k=v".into(), authority: "127.0.0.1:18000".into() }
}

#[test]
fn rewrite_exact_output() {
    let out = rewrite_request_head("GET / HTTP/1.1\r\nHost: a\r\nProxy-Connection: keep-alive\r\nX: 1\r\n\r\n", &auth());
    assert_eq!(out, "GET / HTTP/1.1\r\nhost: 127.0.0.1:18000\r\nX: 1\r\ncookie: k=v\r\nconnection: close\r\n\r\n");
}

#[test]
fn rewrite_keeps_foreign_origin_and_handles_a_head_without_terminator() {
    let out = rewrite_request_head("POST /a HTTP/1.1\r\norigin:  http://evil.example ", &auth());
    assert_eq!(out, "POST /a HTTP/1.1\r\norigin: http://evil.example\r\ncookie: k=v\r\nconnection: close\r\n\r\n");
    let out = rewrite_request_head("", &auth());
    assert_eq!(out, "\r\ncookie: k=v\r\nconnection: close\r\n\r\n");
}

#[test]
fn ready_line_gives_port_and_token() {
    assert_eq!(
        parse_ready_line("  dsh web: http://127.0.0.1:43210/?token=abc123 \n"),
        Some((43210, "abc123".to_string()))
    );
    assert_eq!(parse_ready_line("dsh web: http://127.0.0.1:+80/?token=t"), Some((80, "t".to_string())));
    assert_eq!(parse_ready_line("dsh web: http://127.0.0.1:70000/?token=t"), None);
    assert_eq!(parse_ready_line("dsh web: http://127.0.0.1:/?token=t"), None);
    assert_eq!(parse_ready_line("dsh web: http://localhost:80/?token=t"), None);
    assert_eq!(parse_ready_line("dsh web: http://127.0.0.1:80/"), None);
    assert_eq!(parse_ready_line("starting"), None);
}

#[test]
fn cookie_exchange_request_text() {
    assert_eq!(
        cookie_exchange_request(43210, "abc"),
        "GET /?token=abc HTTP/1.1\r\nHost: 127.0.0.1:43210\r\nConnection: close\r\n\r\n"
    );
}

#[test]
fn cookie_from_the_exchange_response() {
    let head = "HTTP/1.1 303 See Other\r\nLocation: /\r\nSet-Cookie:  dsh-auth-1=v1.sig; Path=/; HttpOnly; SameSite=Strict\r\n\r\n";
    assert_eq!(cookie_from_response_head(head).as_deref(), Some("dsh-auth-1=v1.sig"));
    assert_eq!(cookie_from_response_head("HTTP/1.1 401\r\nset-cookie: ; Path=/\r\nSET-COOKIE: a=b\r\n").as_deref(), Some("a=b"));
    assert_eq!(cookie_from_response_head("HTTP/1.1 401 Unauthorized\r\n\r\n"), None);
    assert_eq!(cookie_from_response_head(""), None);
}

#[test]
fn response_head_completion() {
    assert!(!response_head_done(&b"HTTP/1.1 303\r\n".to_vec()));
    assert!(response_head_done(&b"HTTP/1.1 303\r\n\r\nbody".to_vec()));
    assert!(response_head_done(&vec![b'a'; 65536]));
}

#[test]
fn manifests_compare_trimmed() {
    assert!(manifests_match("{\"app\":\"1\"}\n", "  {\"app\":\"1\"}"));
    assert!(!manifests_match("{\"app\":\"1\"}", "{\"app\":\"2\"}"));
}

#[test]
fn log_ring_keeps_the_newest_lines() {
    let mut log = LogRing::new();
    for i in 0..LOG_LINES + 5 {
        log.push(format!("line {i}"));
    }
    let lines = log.lines();
    assert_eq!(lines.len(), LOG_LINES);
    assert_eq!(lines[0], "line 5");
    assert_eq!(lines[LOG_LINES - 1], format!("line {}", LOG_LINES + 4));
    assert_eq!(
        log.failure_summary(),
        (LOG_LINES - 3..LOG_LINES + 5).map(|i| format!("line {i}")).collect::<Vec<_>>().join(" | ")
    );
}

#[test]
fn short_log_summary() {
    let mut log = LogRing::new();
    assert_eq!(log.failure_summary(), "");
    log.push("a".into());
    log.push("b".into());
    assert_eq!(log.failure_summary(), "a | b");
}

#[test]
fn temp_file_name() {
    assert_eq!(private_temp_name(Some("identity.key")), ".identity.key.tmp");
    assert_eq!(private_temp_name(None), ".write.tmp");
}

#[test]
fn own_library_found_in_the_memory_map() {
    let maps = "7f000-7f100 r-xp 00000000 fd:01 123 /system/lib64/libc.so\n\
                7f200-7f300 r--p 00000000 fd:01 456    /data/app/~~x/cc.zexa.dshtether-1/lib/arm64/libdsh_tether_app_lib.so\r\n\
                7f400-7f500 rw-p 00000000 00:00 0\n";
    assert_eq!(
        tether_core::local::self_lib_path(maps).as_deref(),
        Some("/data/app/~~x/cc.zexa.dshtether-1/lib/arm64/libdsh_tether_app_lib.so")
    );
    assert_eq!(tether_core::local::self_lib_path("7f0-7f1 r-xp 0 0 0 /system/lib64/libc.so\n"), None);
    assert_eq!(tether_core::local::self_lib_path(""), None);
}

#[test]
fn unpack_progress_every_thousand_entries() {
    assert_eq!(unpack_progress(Lang::En, 999), None);
    assert_eq!(unpack_progress(Lang::En, 2000).as_deref(), Some("Unpacking the runtime… files so far: 2000"));
    assert_eq!(unpack_progress(Lang::Zh, 1000).as_deref(), Some("正在解压运行时… 已解出 1000"));
}
