use tether_core::devices::{PairedDevice, PairedStore};
use tether_core::i18n::{t, Lang};
use tether_core::identity::{identity_from_bytes, load_or_create_identity, IdentityLoad};
use tether_core::pairing::{PairRefusal, PairingWindow};
use tether_core::proxy::rewrite_request_head;
use tether_core::session::{accept_proxy_stream, first_line_action, path_report_step, FirstAction, PathKind, PathStep};
use tether_core::wire::Wire;
use tether_core::ProxyAuth;

fn open_window(code: &str) -> Option<PairingWindow> {
    Some(PairingWindow { code: code.to_string(), deadline: 1_000, attempts: 0 })
}

fn store_with(id: &str) -> PairedStore {
    let mut s = PairedStore::new();
    s.add(PairedDevice { id: id.to_string(), name: "old".to_string(), paired_at: "unix:1".to_string() });
    s
}

#[test]
fn default_language_is_chinese() {
    assert_eq!(Lang::default(), Lang::Zh);
    assert_eq!(t(Lang::default(), "中文", "English"), "中文");
}

#[test]
fn identity_needs_exactly_32_bytes() {
    assert!(identity_from_bytes(&vec![7u8; 32]).is_some());
    assert!(identity_from_bytes(&vec![7u8; 31]).is_none());
    assert!(identity_from_bytes(&vec![7u8; 33]).is_none());
    assert!(identity_from_bytes(&Vec::new()).is_none());
    let key = identity_from_bytes(&vec![7u8; 32]).unwrap();
    assert_eq!(key.to_bytes(), [7u8; 32]);
}

#[test]
fn damaged_identity_file_is_not_replaced() {
    assert!(matches!(load_or_create_identity(Some(vec![1u8; 5])), IdentityLoad::Damaged));
}

#[test]
fn created_identity_reloads_as_the_same_key() {
    let (key, bytes) = match load_or_create_identity(None) {
        IdentityLoad::Created { key, bytes } => (key, bytes),
        _ => panic!("a missing file creates a key"),
    };
    assert_eq!(key.to_bytes(), bytes);
    match load_or_create_identity(Some(bytes.to_vec())) {
        IdentityLoad::Loaded(again) => {
            assert_eq!(again.to_bytes(), bytes);
            assert_eq!(again.public(), key.public());
        }
        _ => panic!("the stored bytes load back"),
    }
}

#[test]
fn hello_from_a_paired_phone_is_admitted() {
    let mut store = store_with("phone-a");
    let mut pairing = None;
    let r = first_line_action(&mut store, &mut pairing, true, "phone-a", Wire::Hello { name: "A".into() }, 0, 0);
    assert!(matches!(r, FirstAction::Admit { ref name } if name == "A"));
    assert_eq!(store.devices.len(), 1);
}

#[test]
fn hello_from_an_unpaired_phone_closes() {
    let mut store = PairedStore::new();
    let mut pairing = open_window("123456");
    let r = first_line_action(&mut store, &mut pairing, false, "phone-b", Wire::Hello { name: "B".into() }, 0, 0);
    assert!(matches!(r, FirstAction::Close));
    assert!(store.devices.is_empty());
    assert_eq!(pairing.unwrap().attempts, 0);
}

#[test]
fn pair_request_from_a_paired_phone_closes() {
    let mut store = store_with("phone-a");
    let mut pairing = open_window("123456");
    let r = first_line_action(&mut store, &mut pairing, true, "phone-a", Wire::Pair { code: "123456".into(), name: "A".into() }, 0, 0);
    assert!(matches!(r, FirstAction::Close));
    assert_eq!(store.devices.len(), 1);
}

#[test]
fn right_code_records_the_phone_and_admits_it() {
    let mut store = PairedStore::new();
    let mut pairing = open_window("123456");
    let r = first_line_action(&mut store, &mut pairing, false, "phone-b", Wire::Pair { code: "123456".into(), name: "B".into() }, 10, 1_700_000_000);
    assert!(matches!(r, FirstAction::PairAndAdmit { ref name } if name == "B"));
    assert!(pairing.is_none());
    assert_eq!(store.devices.len(), 1);
    assert_eq!(store.devices[0].id, "phone-b");
    assert_eq!(store.devices[0].name, "B");
    assert_eq!(store.devices[0].paired_at, "unix:1700000000");
    assert!(store.is_paired("phone-b"));
}

#[test]
fn wrong_code_is_refused_and_nothing_is_recorded() {
    let mut store = PairedStore::new();
    let mut pairing = open_window("123456");
    let r = first_line_action(&mut store, &mut pairing, false, "phone-b", Wire::Pair { code: "000000".into(), name: "B".into() }, 10, 0);
    assert!(matches!(r, FirstAction::RefusePairing { reason: PairRefusal::BadCode, window_closed: false }));
    assert!(store.devices.is_empty());
    assert_eq!(pairing.as_ref().unwrap().attempts, 1);
}

#[test]
fn third_wrong_code_closes_the_window() {
    let mut store = PairedStore::new();
    let mut pairing = open_window("123456");
    for _ in 0..2 {
        first_line_action(&mut store, &mut pairing, false, "x", Wire::Pair { code: "1".into(), name: "x".into() }, 0, 0);
    }
    let r = first_line_action(&mut store, &mut pairing, false, "x", Wire::Pair { code: "1".into(), name: "x".into() }, 0, 0);
    assert!(matches!(r, FirstAction::RefusePairing { reason: PairRefusal::BadCode, window_closed: true }));
    assert!(pairing.is_none());
    let r = first_line_action(&mut store, &mut pairing, false, "x", Wire::Pair { code: "123456".into(), name: "x".into() }, 0, 0);
    assert!(matches!(r, FirstAction::RefusePairing { reason: PairRefusal::NoWindow, window_closed: false }));
    assert!(store.devices.is_empty());
}

#[test]
fn late_code_is_refused_as_expired() {
    let mut store = PairedStore::new();
    let mut pairing = open_window("123456");
    let r = first_line_action(&mut store, &mut pairing, false, "x", Wire::Pair { code: "123456".into(), name: "x".into() }, 1_001, 0);
    assert!(matches!(r, FirstAction::RefusePairing { reason: PairRefusal::Expired, window_closed: false }));
    assert!(store.devices.is_empty());
}

#[test]
fn other_first_lines_close() {
    let mut store = store_with("phone-a");
    let mut pairing = None;
    for w in [Wire::Proxy, Wire::PairOk, Wire::Decision { id: "1".into(), outcome: "allow".into() }] {
        let r = first_line_action(&mut store, &mut pairing, true, "phone-a", w, 0, 0);
        assert!(matches!(r, FirstAction::Close));
    }
    assert_eq!(store.devices.len(), 1);
}

#[test]
fn direct_path_is_reported_at_once_relay_only_at_the_deadline() {
    assert_eq!(path_report_step(Some(PathKind::Direct), false), PathStep::Report(PathKind::Direct));
    assert_eq!(path_report_step(Some(PathKind::Relay), false), PathStep::Wait);
    assert_eq!(path_report_step(Some(PathKind::Relay), true), PathStep::Report(PathKind::Relay));
    assert_eq!(path_report_step(None, false), PathStep::Wait);
    assert_eq!(path_report_step(None, true), PathStep::GiveUp);
    assert_eq!(PathKind::Direct.name(), "direct");
    assert_eq!(PathKind::Relay.name(), "relay");
}

#[test]
fn proxy_is_announced_once() {
    let mut announced = false;
    let first = accept_proxy_stream(&mut announced, true);
    assert!(first.announce && first.serve);
    let second = accept_proxy_stream(&mut announced, true);
    assert!(!second.announce && second.serve);
    let third = accept_proxy_stream(&mut announced, false);
    assert!(!third.announce && !third.serve);
}

#[test]
fn rewritten_head_ends_once_and_keeps_no_client_keep_alive() {
    let auth = ProxyAuth { cookie: "dsh-auth-abc=v1.xyz".into(), authority: "127.0.0.1:18000".into() };
    let head = "GET / HTTP/1.1\r\nHost: 127.0.0.1:39411\r\nProxy-Connection: keep-alive\r\nCONNECTION: Keep-Alive\r\n\r\n";
    let out = rewrite_request_head(head, &auth);
    assert_eq!(out.find("\r\n\r\n"), Some(out.len() - 4));
    let lines: Vec<&str> = out.strip_suffix("\r\n\r\n").unwrap().split("\r\n").skip(1).collect();
    assert_eq!(lines, vec!["host: 127.0.0.1:18000", "cookie: dsh-auth-abc=v1.xyz", "connection: close"]);
}

#[test]
fn header_lines_end_with_cookie_and_close_even_with_an_early_blank_line() {
    let auth = ProxyAuth { cookie: "c=1".into(), authority: "127.0.0.1:18000".into() };
    let head = "GET / HTTP/1.1\r\nConnection: keep-alive\r\n\r\nX: y";
    let out = rewrite_request_head(head, &auth);
    let lines: Vec<&str> = out.strip_suffix("\r\n\r\n").unwrap().split("\r\n").skip(1).collect();
    assert_eq!(lines, vec!["", "X: y", "cookie: c=1", "connection: close"]);
}

#[test]
fn loaded_identity_gives_back_the_file_bytes() {
    let bytes: Vec<u8> = (0u8..32).collect();
    match load_or_create_identity(Some(bytes.clone())) {
        IdentityLoad::Loaded(k) => assert_eq!(k.to_bytes().to_vec(), bytes),
        _ => panic!("32 bytes load"),
    }
}
