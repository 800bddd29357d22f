# tether-core (verified)

The logic of the dsh approval tether, written in Verus and proved against its
contracts: the JSON-lines control protocol and its line framing, the pairing
window, the list of paired phones, the per-request cookie injection of the
proxy stream, and the text formats of Android local mode.

Layout:

- `src/text.rs` — trimming, case-insensitive comparison, splitting, lines,
  words and decimal numbers over `Seq<char>`, with the executable routines.
- `src/wire.rs` — protocol messages, line framing and bounded line reading,
  first-line admission, pairing-failure texts.
- `src/pairing.rs` — the pairing window and its attempt rule.
- `src/devices.rs` — the paired-phone list.
- `src/session.rs` — what a connection's first line earns it (the access
  rule), when its path is reported, and the one-time proxy announcement.
- `src/proxy.rs` — request-head reading and rewriting, origin and loopback
  rules, acceptance of the injected material.
- `src/framing.rs` — the proof that a rewritten head ends exactly once.
- `src/identity.rs` — the host's identity key and its 32-byte key file.
- `src/local.rs` — readiness line, cookie exchange, log ring, manifest check,
  and finding the app's native library in the memory map.
- `src/i18n.rs` — the two languages and how the language tag is chosen.
- `src/files.rs` — naming of the private credential files.
- `app/` — the `tether-host` program (iroh, stdin/stdout, files, serde) and
  the tauri-free I/O of local mode, built on the library. The tauri command
  that drives local mode on Android is not part of this build, so that I/O
  has no caller here.
