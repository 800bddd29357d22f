//! Verified core of the tether: the wire protocol, pairing rules, request-head
//! rewriting and the small text formats that the host, the phone stand-in and
//! the app exchange.
pub mod devices;
pub mod files;
pub mod framing;
pub mod identity;
pub mod i18n;
pub mod local;
pub mod pairing;
pub mod proxy;
pub mod session;
pub mod text;
pub mod wire;

pub use i18n::{set_from_tag, t, Lang};
pub use proxy::{is_loopback, rewrite_origin, rewrite_request_head, ProxyAuth};
pub use wire::{pair_fail_text, Wire, MAX_LINE, MAX_UNPAIRED_LINE, PAIR_BAD_CODE, PAIR_EXPIRED, PAIR_NO_WINDOW, PAIR_TOO_MANY_ATTEMPTS};
