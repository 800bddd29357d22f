//! Per-request cookie injection for the HTTP proxy stream: reading a request
//! head byte by byte, rewriting it for the real dsh web server, and deciding
//! which origins are loopback.
use vstd::prelude::*;

use crate::text::{
    all_digits, before_first, chars_of, digits_value, eq_ignore_ascii_case, eq_ignore_case_range,
    eq_range, find_in, matches_at, parse_digits, pieces, push_range, push_str, split, split_from,
    split_once, split_ranges, starts_with, ends_with, string_of, strip_prefix, strip_suffix, trim, trim_range,
    find_from, is_white_space, trim_end, trim_start,
};
use vstd::utf8::*;

verus! {

broadcast use vstd::string::group_string_axioms;

/// The authentication material that the proxy injects into each request.
pub struct ProxyAuth {
    /// `name=value`, without attributes.
    pub cookie: String,
    /// The canonical authority of dsh web; the cookie signature is bound to
    /// it, so Host and Origin are rewritten to it.
    pub authority: String,
}

// ---------------------------------------------------------------------------
// Specification
// ---------------------------------------------------------------------------

pub open spec fn crlf() -> Seq<char> {
    seq!['\r', '\n']
}

pub open spec fn head_terminator() -> Seq<char> {
    seq!['\r', '\n', '\r', '\n']
}

/// The value of a header line `Name: value` when its name is `name` up to
/// ASCII case, with surrounding white space removed.
pub open spec fn header_value_spec(line: Seq<char>, name: Seq<char>) -> Option<Seq<char>> {
    match split_once(line, seq![':']) {
        Some((key, value)) => if eq_ignore_ascii_case(trim(key), name) {
            Some(trim(value))
        } else {
            None
        },
        None => None,
    }
}

/// A hostname that dsh treats as loopback: `localhost`, `::1`, or four
/// dot-separated decimal octets of which the first is `127`.
pub open spec fn is_loopback_spec(h: Seq<char>) -> bool {
    ||| h == "localhost"@
    ||| h == "::1"@
    ||| {
        let parts = split(h, seq!['.']);
        &&& parts.len() == 4
        &&& parts[0] == "127"@
        &&& forall|i: int| 0 <= i < 4 ==> is_octet(#[trigger] parts[i])
    }
}

/// One to three decimal digits of value at most 255.
pub open spec fn is_octet(p: Seq<char>) -> bool {
    &&& 1 <= p.len() <= 3
    &&& all_digits(p)
    &&& digits_value(p) <= 255
}

/// The host name of an `http://` origin: the authority up to the first `/`,
/// then, for a bracketed IPv6 address, what lies inside the brackets, else
/// what lies before the port.
pub open spec fn origin_hostname(rest: Seq<char>) -> Seq<char> {
    let host = before_first(rest, seq!['/']);
    match strip_prefix(host, seq!['[']) {
        Some(v6) => before_first(v6, seq![']']),
        None => before_first(host, seq![':']),
    }
}

/// `http://<loopback>[:port]` becomes `http://<authority>`; any other origin
/// is left alone (`None`).
pub open spec fn rewrite_origin_spec(origin: Seq<char>, authority: Seq<char>) -> Option<Seq<char>> {
    match strip_prefix(origin, "http://"@) {
        Some(rest) => if is_loopback_spec(origin_hostname(rest)) {
            Some("http://"@ + authority)
        } else {
            None
        },
        None => None,
    }
}

/// One header line of the rewritten head (empty when the line is dropped).
pub open spec fn render_header(line: Seq<char>, upgrade: bool, authority: Seq<char>) -> Seq<char> {
    if header_value_spec(line, "host"@) is Some {
        "host: "@ + authority + crlf()
    } else if header_value_spec(line, "origin"@) is Some {
        let origin = header_value_spec(line, "origin"@)->0;
        "origin: "@ + match rewrite_origin_spec(origin, authority) {
            Some(r) => r,
            None => origin,
        } + crlf()
    } else if !upgrade && (header_value_spec(line, "connection"@) is Some || header_value_spec(
        line,
        "proxy-connection"@,
    ) is Some) {
        Seq::empty()
    } else {
        line + crlf()
    }
}

pub open spec fn render_headers(hs: Seq<Seq<char>>, upgrade: bool, authority: Seq<char>) -> Seq<
    char,
>
    decreases hs.len(),
{
    if hs.len() == 0 {
        Seq::empty()
    } else {
        render_headers(hs.drop_last(), upgrade, authority) + render_header(
            hs.last(),
            upgrade,
            authority,
        )
    }
}

/// Some header line names `upgrade`: a WebSocket upgrade request.
pub open spec fn has_upgrade(hs: Seq<Seq<char>>) -> bool {
    exists|i: int| 0 <= i < hs.len() && (header_value_spec(#[trigger] hs[i], "upgrade"@) is Some)
}

/// The head without its terminating blank line, split into lines.
pub open spec fn head_lines(head: Seq<char>) -> Seq<Seq<char>> {
    let body = match strip_suffix(head, head_terminator()) {
        Some(b) => b,
        None => head,
    };
    split(body, crlf())
}

/// The rewritten request head: the request line, the header lines with Host
/// and a loopback Origin pointed at the real authority, the connection
/// headers dropped unless the request upgrades, the injected cookie, and
/// `connection: close` unless the request upgrades.
pub open spec fn rewrite_head_spec(head: Seq<char>, cookie: Seq<char>, authority: Seq<char>) -> Seq<
    char,
> {
    let lines = head_lines(head);
    let headers = lines.drop_first();
    let upgrade = has_upgrade(headers);
    lines[0] + crlf() + render_headers(headers, upgrade, authority) + "cookie: "@ + cookie + crlf()
        + (if upgrade {
        Seq::empty()
    } else {
        "connection: close\r\n"@
    }) + crlf()
}

// ---------------------------------------------------------------------------
// Lemmas
// ---------------------------------------------------------------------------

pub proof fn lemma_split_from_nonempty(s: Seq<char>, p: Seq<char>, start: int, i: int)
    ensures
        split_from(s, p, start, i).len() >= 1,
    decreases s.len() + 1 - i,
{
    if p.len() == 0 || i < start || start < 0 || i + p.len() > s.len() {
    } else if matches_at(s, p, i) {
        lemma_split_from_nonempty(s, p, i + p.len(), i + p.len());
    } else {
        lemma_split_from_nonempty(s, p, start, i + 1);
    }
}

// ---------------------------------------------------------------------------
// Executable code
// ---------------------------------------------------------------------------

/// The value range of header line `v[lo..hi]` if its name is `name`.
fn header_value(v: &Vec<char>, lo: usize, hi: usize, name: &Vec<char>) -> (r: Option<(usize, usize)>)
    requires
        lo <= hi <= v.len(),
    ensures
        match r {
            Some((a, b)) => lo <= a <= b <= hi && header_value_spec(
                v@.subrange(lo as int, hi as int),
                name@,
            ) == Some(v@.subrange(a as int, b as int)),
            None => header_value_spec(v@.subrange(lo as int, hi as int), name@) is None,
        },
{
    let ghost line = v@.subrange(lo as int, hi as int);
    let colon = vec![':'];
    assert(colon@ =~= seq![':']);
    match find_in(v, lo, hi, &colon) {
        None => None,
        Some(c) => {
            assert(line.take(c - lo) =~= v@.subrange(lo as int, c as int));
            assert(line.skip(c - lo + 1) =~= v@.subrange(c + 1, hi as int));
            let (ka, kb) = trim_range(v, lo, c);
            let (va, vb) = trim_range(v, c + 1, hi);
            if eq_ignore_case_range(v, ka, kb, name) {
                Some((va, vb))
            } else {
                None
            }
        },
    }
}

/// Rewrites a request head for dsh: Host and a loopback Origin point at the
/// real authority, the authentication cookie is injected, and a request that
/// does not upgrade is forced to `Connection: close`.
///
/// Close is what makes per-request injection possible: with one request per
/// connection every request of the browser passes through here, and request
/// bodies never need framing. A WebSocket upgrade keeps its
/// Connection/Upgrade headers and the stream is forwarded as is afterwards.
/// A non-loopback Origin is passed through unchanged so that dsh's own
/// cross-site fence still refuses it.
pub fn rewrite_request_head(head: &str, auth: &ProxyAuth) -> (out: String)
    ensures
        out@ == rewrite_head_spec(head@, auth.cookie@, auth.authority@),
{
    let v = chars_of(head);
    let terminator = vec!['\r', '\n', '\r', '\n'];
    assert(terminator@ =~= head_terminator());
    let mut blen = v.len();
    if v.len() >= 4 && eq_range(&v, v.len() - 4, v.len(), &terminator) {
        blen = v.len() - 4;
    }
    let ghost body = v@.subrange(0, blen as int);
    assert(body =~= (match strip_suffix(head@, head_terminator()) {
        Some(b) => b,
        None => head@,
    }));
    let crlf_v = vec!['\r', '\n'];
    assert(crlf_v@ =~= crlf());
    let rs = split_ranges(&v, 0, blen, &crlf_v);
    let ghost lines = pieces(v@, rs@);
    assert(lines == head_lines(head@));
    proof {
        lemma_split_from_nonempty(body, crlf(), 0, 0);
    }
    let ghost headers = lines.drop_first();

    let upgrade_name = chars_of("upgrade");
    let mut upgrade = false;
    let mut k: usize = 1;
    while k < rs.len()
        invariant
            1 <= k <= rs.len(),
            lines == pieces(v@, rs@),
            headers == lines.drop_first(),
            upgrade_name@ == "upgrade"@,
            forall|m: int| 0 <= m < rs.len() ==> (#[trigger] rs@[m]).0 <= rs@[m].1 <= v.len(),
            upgrade == exists|j: int|
                0 <= j < k - 1 && (header_value_spec(#[trigger] headers[j], "upgrade"@) is Some),
        decreases rs.len() - k,
    {
        let (a, b) = rs[k];
        assert(headers[k - 1] == v@.subrange(a as int, b as int));
        if header_value(&v, a, b, &upgrade_name).is_some() {
            upgrade = true;
        }
        k = k + 1;
    }
    assert(upgrade == has_upgrade(headers));

    let host_name = chars_of("host");
    let origin_name = chars_of("origin");
    let connection_name = chars_of("connection");
    let proxy_connection_name = chars_of("proxy-connection");
    let authority = chars_of(auth.authority.as_str());

    let mut out: Vec<char> = Vec::new();
    let (r0, r1) = rs[0];
    push_range(&mut out, &v, r0, r1);
    push_str(&mut out, "\r\n");
    proof {
        reveal_strlit("\r\n");
    }
    assert(out@ =~= lines[0] + crlf());
    let ghost prefix = out@;
    let mut k: usize = 1;
    while k < rs.len()
        invariant
            1 <= k <= rs.len(),
            lines == pieces(v@, rs@),
            headers == lines.drop_first(),
            upgrade == has_upgrade(headers),
            host_name@ == "host"@,
            origin_name@ == "origin"@,
            connection_name@ == "connection"@,
            proxy_connection_name@ == "proxy-connection"@,
            authority@ == auth.authority@,
            forall|m: int| 0 <= m < rs.len() ==> (#[trigger] rs@[m]).0 <= rs@[m].1 <= v.len(),
            out@ == prefix + render_headers(headers.take(k - 1), upgrade, authority@),
        decreases rs.len() - k,
    {
        let (a, b) = rs[k];
        let ghost line = headers[k - 1];
        assert(line == v@.subrange(a as int, b as int));
        let ghost before = out@;
        proof {
            reveal_strlit("\r\n");
        }
        if header_value(&v, a, b, &host_name).is_some() {
            push_str(&mut out, "host: ");
            push_range(&mut out, &authority, 0, authority.len());
            push_str(&mut out, "\r\n");
            assert(authority@.subrange(0, authority.len() as int) =~= authority@);
            assert(out@ =~= before + render_header(line, upgrade, authority@));
        } else if let Some((oa, ob)) = header_value(&v, a, b, &origin_name) {
            push_str(&mut out, "origin: ");
            let origin: String = string_of_range(&v, oa, ob);
            match rewrite_origin(origin.as_str(), auth.authority.as_str()) {
                Some(rewritten) => push_str(&mut out, rewritten.as_str()),
                None => push_range(&mut out, &v, oa, ob),
            }
            push_str(&mut out, "\r\n");
            assert(out@ =~= before + render_header(line, upgrade, authority@));
        } else if !upgrade && (header_value(&v, a, b, &connection_name).is_some() || header_value(
            &v,
            a,
            b,
            &proxy_connection_name,
        ).is_some()) {
            assert(out@ =~= before + render_header(line, upgrade, authority@));
        } else {
            push_range(&mut out, &v, a, b);
            push_str(&mut out, "\r\n");
            assert(out@ =~= before + render_header(line, upgrade, authority@));
        }
        assert(headers.take(k as int).drop_last() =~= headers.take(k - 1));
        k = k + 1;
        assert(out@ =~= prefix + render_headers(headers.take(k - 1), upgrade, authority@));
    }
    assert(headers.take(k - 1) =~= headers);
    push_str(&mut out, "cookie: ");
    push_str(&mut out, auth.cookie.as_str());
    push_str(&mut out, "\r\n");
    if !upgrade {
        push_str(&mut out, "connection: close\r\n");
    }
    push_str(&mut out, "\r\n");
    let r = string_of(&out);
    assert(r@ =~= rewrite_head_spec(head@, auth.cookie@, auth.authority@));
    r
}

/// A `String` holding `v[lo..hi]`.
fn string_of_range(v: &Vec<char>, lo: usize, hi: usize) -> (s: String)
    requires
        lo <= hi <= v.len(),
    ensures
        s@ == v@.subrange(lo as int, hi as int),
{
    let mut w: Vec<char> = Vec::new();
    push_range(&mut w, v, lo, hi);
    assert(w@ =~= v@.subrange(lo as int, hi as int));
    string_of(&w)
}

/// `http://<loopback>[:port]` becomes `http://<authority>`; any other origin
/// gives `None`.
pub fn rewrite_origin(origin: &str, authority: &str) -> (r: Option<String>)
    ensures
        match r {
            Some(s) => rewrite_origin_spec(origin@, authority@) == Some(s@),
            None => rewrite_origin_spec(origin@, authority@) is None,
        },
{
    let v = chars_of(origin);
    let scheme = chars_of("http://");
    if v.len() < scheme.len() || !eq_range(&v, 0, scheme.len(), &scheme) {
        assert(!starts_with(origin@, "http://"@));
        return None;
    }
    assert(v@.take(scheme.len() as int) =~= v@.subrange(0, scheme.len() as int));
    let ghost rest = v@.skip(scheme.len() as int);
    assert(rest =~= v@.subrange(scheme.len() as int, v.len() as int));
    let slash = vec!['/'];
    assert(slash@ =~= seq!['/']);
    let host_end = match find_in(&v, scheme.len(), v.len(), &slash) {
        Some(j) => j,
        None => v.len(),
    };
    let ghost host = before_first(rest, seq!['/']);
    assert(host =~= v@.subrange(scheme.len() as int, host_end as int));
    let h0 = scheme.len();
    let (name_lo, name_hi) = if h0 < host_end && v[h0] == '[' {
        assert(host[0] == v@[h0 as int]);
        assert(host.take(1) =~= seq!['[']);
        assert(starts_with(host, seq!['[']));
        assert(host.skip(1) =~= v@.subrange(h0 + 1, host_end as int));
        let close = vec![']'];
        assert(close@ =~= seq![']']);
        match find_in(&v, h0 + 1, host_end, &close) {
            Some(j) => {
                assert(host.skip(1).take(j - (h0 + 1)) =~= v@.subrange(h0 + 1, j as int));
                (h0 + 1, j)
            },
            None => (h0 + 1, host_end),
        }
    } else {
        assert(!starts_with(host, seq!['['])) by {
            if starts_with(host, seq!['[']) {
                assert(host.take(1)[0] == host[0]);
            }
        }
        let colon = vec![':'];
        assert(colon@ =~= seq![':']);
        match find_in(&v, h0, host_end, &colon) {
            Some(j) => {
                assert(host.take(j - h0) =~= v@.subrange(h0 as int, j as int));
                (h0, j)
            },
            None => (h0, host_end),
        }
    };
    assert(origin_hostname(rest) == v@.subrange(name_lo as int, name_hi as int));
    if is_loopback_range(&v, name_lo, name_hi) {
        let mut out: Vec<char> = Vec::new();
        push_str(&mut out, "http://");
        push_str(&mut out, authority);
        Some(string_of(&out))
    } else {
        None
    }
}

/// The loopback test of dsh: `localhost`, the IPv6 loopback, or any address
/// in 127.0.0.0/8 written as four decimal octets.
pub fn is_loopback(hostname: &str) -> (b: bool)
    ensures
        b == is_loopback_spec(hostname@),
{
    let v = chars_of(hostname);
    let b = is_loopback_range(&v, 0, v.len());
    assert(v@.subrange(0, v.len() as int) =~= v@);
    b
}

fn is_loopback_range(v: &Vec<char>, lo: usize, hi: usize) -> (b: bool)
    requires
        lo <= hi <= v.len(),
    ensures
        b == is_loopback_spec(v@.subrange(lo as int, hi as int)),
{
    let ghost h = v@.subrange(lo as int, hi as int);
    let localhost = chars_of("localhost");
    let v6 = chars_of("::1");
    if eq_range(v, lo, hi, &localhost) || eq_range(v, lo, hi, &v6) {
        return true;
    }
    let dot = vec!['.'];
    assert(dot@ =~= seq!['.']);
    let rs = split_ranges(v, lo, hi, &dot);
    let ghost parts = pieces(v@, rs@);
    if rs.len() != 4 {
        return false;
    }
    let first = chars_of("127");
    let (a0, b0) = rs[0];
    assert(parts[0] == v@.subrange(a0 as int, b0 as int));
    if !eq_range(v, a0, b0, &first) {
        return false;
    }
    let mut k: usize = 0;
    while k < 4
        invariant
            k <= 4,
            rs.len() == 4,
            parts == pieces(v@, rs@),
            forall|m: int| 0 <= m < rs.len() ==> lo <= (#[trigger] rs@[m]).0 <= rs@[m].1 <= hi,
            lo <= hi <= v.len(),
            forall|m: int| 0 <= m < k ==> is_octet(#[trigger] parts[m]),
            parts == split(v@.subrange(lo as int, hi as int), seq!['.']),
            v@.subrange(lo as int, hi as int) != "localhost"@,
            v@.subrange(lo as int, hi as int) != "::1"@,
        decreases 4 - k,
    {
        let (a, b) = rs[k];
        assert(parts[k as int] == v@.subrange(a as int, b as int));
        if b - a < 1 || b - a > 3 {
            assert(!is_octet(parts[k as int]));
            return false;
        }
        if parse_digits(v, a, b, 255).is_none() {
            assert(!is_octet(parts[k as int]));
            return false;
        }
        k = k + 1;
    }
    true
}

/// A control byte: below 0x20, or DEL.
pub open spec fn is_control_byte(b: u8) -> bool {
    b < 0x20 || b == 0x7f
}

pub open spec fn has_control_byte(s: Seq<u8>) -> bool {
    exists|i: int| 0 <= i < s.len() && is_control_byte(#[trigger] s[i])
}

fn bytes_have_control(b: &[u8]) -> (r: bool)
    ensures
        r == has_control_byte(b@),
{
    let mut i: usize = 0;
    while i < b.len()
        invariant
            i <= b@.len(),
            forall|k: int| 0 <= k < i ==> !is_control_byte(#[trigger] b@[k]),
        decreases b.len() - i,
    {
        if b[i] < 0x20 || b[i] == 0x7f {
            assert(is_control_byte(b@[i as int]));
            return true;
        }
        i = i + 1;
    }
    false
}

impl ProxyAuth {
    /// Accepts the authentication material handed over by the plugin. Both
    /// values are spliced into forwarded request heads; the plugin is a
    /// trusted parent process, but this is a process boundary, so a value
    /// holding a control byte (a CRLF injection) is refused.
    pub fn from_plugin(cookie: String, authority: String) -> (r: Option<ProxyAuth>)
        ensures
            match r {
                Some(a) => a.cookie@ == cookie@ && a.authority@ == authority@ && !has_control_byte(
                    encode_utf8(cookie@) + encode_utf8(authority@),
                ),
                None => has_control_byte(encode_utf8(cookie@) + encode_utf8(authority@)),
            },
    {
        let cb = cookie.as_str().as_bytes();
        let ab = authority.as_str().as_bytes();
        let ghost all = encode_utf8(cookie@) + encode_utf8(authority@);
        let bad_c = bytes_have_control(cb);
        let bad_a = bytes_have_control(ab);
        assert(has_control_byte(all) == (has_control_byte(cb@) || has_control_byte(ab@))) by {
            if has_control_byte(all) {
                let i = choose|i: int| 0 <= i < all.len() && is_control_byte(#[trigger] all[i]);
                if i < cb@.len() {
                    assert(cb@[i] == all[i]);
                } else {
                    assert(ab@[i - cb@.len()] == all[i]);
                }
            }
            if has_control_byte(cb@) {
                let i = choose|i: int| 0 <= i < cb@.len() && is_control_byte(#[trigger] cb@[i]);
                assert(all[i] == cb@[i]);
            }
            if has_control_byte(ab@) {
                let i = choose|i: int| 0 <= i < ab@.len() && is_control_byte(#[trigger] ab@[i]);
                assert(all[i + cb@.len()] == ab@[i]);
            }
        }
        if bad_c || bad_a {
            None
        } else {
            Some(ProxyAuth { cookie, authority })
        }
    }
}

/// A character of the text below 0x80 is a byte of its UTF-8 encoding.
pub proof fn lemma_ascii_char_encoded(chars: Seq<char>, k: int)
    requires
        0 <= k < chars.len(),
        (chars[k] as u32) < 0x80,
    ensures
        encode_utf8(chars).contains(chars[k] as u32 as u8),
    decreases chars.len(),
{
    let c = chars[0];
    let u = c as u32;
    let rest = chars.drop_first();
    assert(encode_utf8(chars) == encode_scalar(u) + encode_utf8(rest));
    if k == 0 {
        assert(u < 0x80 ==> (u & 0x7F) as u8 == u as u8) by (bit_vector);
        assert(encode_utf8(chars)[0] == u as u8);
    } else {
        assert(rest[k - 1] == chars[k]);
        lemma_ascii_char_encoded(rest, k - 1);
        let e = encode_utf8(rest);
        let j = choose|j: int| 0 <= j < e.len() && e[j] == chars[k] as u32 as u8;
        assert(encode_utf8(chars)[encode_scalar(u).len() + j] == e[j]);
    }
}

/// Law of the injected values: accepted authentication material holds no
/// carriage return or line feed, so the injected cookie and host lines can
/// never start a header of their own.
pub proof fn law_accepted_auth_has_no_line_break(cookie: Seq<char>, authority: Seq<char>)
    requires
        !has_control_byte(encode_utf8(cookie) + encode_utf8(authority)),
    ensures
        !cookie.contains('\r'),
        !cookie.contains('\n'),
        !authority.contains('\r'),
        !authority.contains('\n'),
{
    let all = encode_utf8(cookie) + encode_utf8(authority);
    let ec = encode_utf8(cookie);
    let ea = encode_utf8(authority);
    assert forall|k: int| 0 <= k < cookie.len() implies cookie[k] != '\r' && cookie[k] != '\n' by {
        if cookie[k] == '\r' || cookie[k] == '\n' {
            lemma_ascii_char_encoded(cookie, k);
            let j = choose|j: int| 0 <= j < ec.len() && ec[j] == cookie[k] as u32 as u8;
            assert(all[j] == ec[j]);
            assert(is_control_byte(all[j]));
        }
    }
    assert forall|k: int| 0 <= k < authority.len() implies authority[k] != '\r' && authority[k]
        != '\n' by {
        if authority[k] == '\r' || authority[k] == '\n' {
            lemma_ascii_char_encoded(authority, k);
            let j = choose|j: int| 0 <= j < ea.len() && ea[j] == authority[k] as u32 as u8;
            assert(all[ec.len() + j] == ea[j]);
            assert(is_control_byte(all[ec.len() + j]));
        }
    }
}

/// Law of the rewrite: the rewritten head keeps the request line first, ends
/// with the injected cookie line, then `connection: close` unless the
/// request upgrades, then the empty line that ends the head.
pub proof fn law_rewrite_shape(head: Seq<char>, cookie: Seq<char>, authority: Seq<char>)
    ensures
        ({
            let out = rewrite_head_spec(head, cookie, authority);
            let lines = head_lines(head);
            let upgrade = has_upgrade(lines.drop_first());
            let tail = "cookie: "@ + cookie + crlf() + (if upgrade {
                Seq::empty()
            } else {
                "connection: close\r\n"@
            }) + crlf();
            &&& starts_with(out, lines[0] + crlf())
            &&& ends_with(out, tail)
            &&& ends_with(out, head_terminator())
        }),
{
    let lines = head_lines(head);
    let upgrade = has_upgrade(lines.drop_first());
    let first = lines[0] + crlf();
    let mid = render_headers(lines.drop_first(), upgrade, authority);
    let tail = "cookie: "@ + cookie + crlf() + (if upgrade {
        Seq::empty()
    } else {
        "connection: close\r\n"@
    }) + crlf();
    let out = rewrite_head_spec(head, cookie, authority);
    assert(out =~= first + mid + tail);
    assert(out.take(first.len() as int) =~= first);
    assert(out.skip(out.len() - tail.len()) =~= tail);
    reveal_strlit("connection: close\r\n");
    let t4 = out.skip(out.len() - 4);
    if upgrade {
        assert(tail =~= "cookie: "@ + cookie + crlf() + crlf());
    } else {
        assert(tail =~= "cookie: "@ + cookie + crlf() + "connection: close\r\n"@ + crlf());
    }
    assert(t4 =~= head_terminator());
}

/// A line `key:rest` whose key holds no colon and starts and ends with a
/// character that is not white space has the name `key`.
pub(crate) proof fn lemma_header_name(key: Seq<char>, rest: Seq<char>, name: Seq<char>)
    requires
        key.len() > 0,
        !is_white_space(key[0]),
        !is_white_space(key.last()),
        forall|k: int| 0 <= k < key.len() ==> key[k] != ':',
    ensures
        (header_value_spec(key + seq![':'] + rest, name) is Some) == eq_ignore_ascii_case(key, name),
{
    let s = key + seq![':'] + rest;
    lemma_find_colon(s, 0, key.len() as int);
    assert(s.take(key.len() as int) =~= key);
    assert(trim_start(key) == key);
    assert(trim_end(key) == key);
}

proof fn lemma_find_colon(s: Seq<char>, i: int, j: int)
    requires
        0 <= i <= j < s.len(),
        s[j] == ':',
        forall|k: int| i <= k < j ==> s[k] != ':',
    ensures
        find_from(s, seq![':'], i) == Some(j),
    decreases j - i,
{
    if i < j {
        assert(!matches_at(s, seq![':'], i)) by {
            if matches_at(s, seq![':'], i) {
                assert(s.subrange(i, i + 1)[0] == s[i]);
            }
        }
        lemma_find_colon(s, i + 1, j);
    } else {
        assert(s.subrange(j, j + 1) =~= seq![':']);
    }
}

/// A header line is named `name`, in any ASCII case.
pub open spec fn is_named(line: Seq<char>, name: Seq<char>) -> bool {
    header_value_spec(line, name) is Some
}

/// A connection-scoped header: `Connection` or `Proxy-Connection`.
pub open spec fn is_connection_header(line: Seq<char>) -> bool {
    is_named(line, "connection"@) || is_named(line, "proxy-connection"@)
}

/// Law of the keep-alive fence: in a request that does not upgrade, a
/// `Connection` or `Proxy-Connection` line of the client is dropped, and
/// every header line that does reach dsh in its place (the rewritten Host
/// and Origin lines, a line passed through) is `l` plus CRLF for an `l` that
/// is neither. With the `connection: close` that the rewrite appends, one
/// request per connection holds whatever the client sent.
pub proof fn law_no_client_connection_header(line: Seq<char>, authority: Seq<char>)
    ensures
        is_connection_header(line) ==> render_header(line, false, authority).len() == 0,
        ({
            let r = render_header(line, false, authority);
            r.len() == 0 || (r.len() >= 2 && r.skip(r.len() - 2) == crlf()
                && !is_connection_header(r.take(r.len() - 2)))
        }),
{
    reveal_strlit("host");
    reveal_strlit("origin");
    reveal_strlit("connection");
    reveal_strlit("proxy-connection");
    reveal_strlit("host: ");
    reveal_strlit("origin: ");
    let r = render_header(line, false, authority);
    let host = "host"@;
    let origin = "origin"@;
    assert(is_named(line, host) ==> !is_connection_header(line)) by {
        if is_named(line, host) && is_named(line, "connection"@) {
            let (k, v) = split_once(line, seq![':'])->0;
            assert(trim(k).len() == 4 && trim(k).len() == 10);
        }
        if is_named(line, host) && is_named(line, "proxy-connection"@) {
            let (k, v) = split_once(line, seq![':'])->0;
            assert(trim(k).len() == 4 && trim(k).len() == 16);
        }
    }
    assert(is_named(line, origin) ==> !is_connection_header(line)) by {
        if is_named(line, origin) && is_named(line, "connection"@) {
            let (k, v) = split_once(line, seq![':'])->0;
            assert(trim(k).len() == 6 && trim(k).len() == 10);
        }
        if is_named(line, origin) && is_named(line, "proxy-connection"@) {
            let (k, v) = split_once(line, seq![':'])->0;
            assert(trim(k).len() == 6 && trim(k).len() == 16);
        }
    }
    if r.len() > 0 {
        let l = r.take(r.len() - 2);
        if is_named(line, host) {
            let rest = seq![' '] + authority;
            assert(l =~= host + seq![':'] + rest);
            lemma_header_name(host, rest, "connection"@);
            lemma_header_name(host, rest, "proxy-connection"@);
        } else if is_named(line, origin) {
            let o = header_value_spec(line, origin)->0;
            let rest = seq![' '] + match rewrite_origin_spec(o, authority) {
                Some(x) => x,
                None => o,
            };
            assert(l =~= origin + seq![':'] + rest);
            lemma_header_name(origin, rest, "connection"@);
            lemma_header_name(origin, rest, "proxy-connection"@);
        } else {
            assert(l =~= line);
        }
        assert(r.skip(r.len() - 2) =~= crlf());
    }
}

/// Law of the Host rewrite: every line named Host, in any ASCII case, comes
/// out as `host: <authority>`, whether or not the request upgrades; and a
/// rendered line that carries the name Host is exactly that line, so no
/// other Host value reaches dsh.
pub proof fn law_host_always_rewritten(line: Seq<char>, upgrade: bool, authority: Seq<char>)
    ensures
        is_named(line, "host"@) ==> render_header(line, upgrade, authority) == "host: "@
            + authority + crlf(),
        ({
            let r = render_header(line, upgrade, authority);
            r.len() > 0 ==> r.len() >= 2 && (is_named(r.take(r.len() - 2), "host"@) ==> r.take(
                r.len() - 2,
            ) == "host: "@ + authority)
        }),
{
    reveal_strlit("host");
    reveal_strlit("origin");
    reveal_strlit("host: ");
    reveal_strlit("origin: ");
    let r = render_header(line, upgrade, authority);
    let host = "host"@;
    let origin = "origin"@;
    if r.len() > 0 {
        let l = r.take(r.len() - 2);
        if is_named(line, host) {
            assert(l =~= "host: "@ + authority);
        } else if is_named(line, origin) {
            let o = header_value_spec(line, origin)->0;
            let rest = seq![' '] + match rewrite_origin_spec(o, authority) {
                Some(x) => x,
                None => o,
            };
            assert(l =~= origin + seq![':'] + rest);
            lemma_header_name(origin, rest, host);
        } else {
            assert(l =~= line);
        }
    }
}

// ---------------------------------------------------------------------------
// Reading a request head
// ---------------------------------------------------------------------------

/// Upper bound on the size of a request head, in bytes.
pub const MAX_HEAD: usize = 65536;

pub open spec fn ends_with_blank_line(s: Seq<u8>) -> bool {
    s.len() >= 4 && s.skip(s.len() - 4) == seq![13u8, 10u8, 13u8, 10u8]
}

/// What one more byte of a request head leads to.
#[derive(Clone, Copy, Debug, PartialEq, Eq, Structural)]
pub enum HeadStep {
    /// The head is not complete yet.
    Pending,
    /// The byte completed the head (it ends with an empty line).
    Complete,
    /// The head grew past `MAX_HEAD` bytes.
    TooLong,
}

/// The effect of one byte on the bytes of a request head read so far: the
/// byte is kept; the head is refused once it holds more than `MAX_HEAD`
/// bytes, and is complete once it ends with an empty line.
pub open spec fn head_step(buf: Seq<u8>, b: u8) -> (Seq<u8>, HeadStep) {
    let nb = buf.push(b);
    (
        nb,
        if nb.len() > MAX_HEAD {
            HeadStep::TooLong
        } else if ends_with_blank_line(nb) {
            HeadStep::Complete
        } else {
            HeadStep::Pending
        },
    )
}

/// Reading `input` byte by byte after `buf`, up to the first step that is not
/// `Pending`: the bytes held, the last step and the number of bytes taken.
pub open spec fn feed_head(buf: Seq<u8>, input: Seq<u8>) -> (Seq<u8>, HeadStep, nat)
    decreases input.len(),
{
    if input.len() == 0 {
        (buf, HeadStep::Pending, 0)
    } else {
        let (nb, st) = head_step(buf, input[0]);
        if st == HeadStep::Pending {
            let (b2, s2, n) = feed_head(nb, input.drop_first());
            (b2, s2, n + 1)
        } else {
            (nb, st, 1)
        }
    }
}

/// The head of a stream ends at byte `e`: the first `e` bytes end with the
/// first empty line of the stream.
pub open spec fn head_ends_at(input: Seq<u8>, e: int) -> bool {
    &&& 1 <= e <= input.len()
    &&& ends_with_blank_line(input.take(e))
    &&& forall|k: int| 1 <= k < e ==> !ends_with_blank_line(#[trigger] input.take(k))
}

proof fn lemma_feed_head_from(input: Seq<u8>, e: int, i: int)
    requires
        head_ends_at(input, e),
        e <= MAX_HEAD,
        0 <= i < e,
    ensures
        feed_head(input.take(i), input.skip(i)) == (input.take(e), HeadStep::Complete, (e - i) as nat),
    decreases e - i,
{
    let buf = input.take(i);
    let rest = input.skip(i);
    assert(rest[0] == input[i]);
    assert(buf.push(input[i]) =~= input.take(i + 1));
    if i + 1 < e {
        assert(!ends_with_blank_line(input.take(i + 1)));
        lemma_feed_head_from(input, e, i + 1);
        assert(rest.drop_first() =~= input.skip(i + 1));
    }
}

/// Law of the head reader: a request head is complete exactly at the end of
/// the first empty line of the stream, so none of the body that follows is
/// consumed (it is forwarded raw), provided the head fits `MAX_HEAD` bytes.
pub proof fn law_head_ends_at_first_blank_line(input: Seq<u8>, e: int)
    requires
        head_ends_at(input, e),
        e <= MAX_HEAD,
    ensures
        feed_head(Seq::empty(), input) == (input.take(e), HeadStep::Complete, e as nat),
{
    lemma_feed_head_from(input, e, 0);
    assert(input.take(0) =~= Seq::<u8>::empty());
    assert(input.skip(0) =~= input);
}

/// The first `k >= from` at which the first `k` bytes of `s` end with an
/// empty line, or `s.len() + 1` when there is none.
pub open spec fn head_end_from(s: Seq<u8>, from: nat) -> nat
    decreases s.len() + 1 - from,
{
    if from > s.len() {
        (s.len() + 1) as nat
    } else if ends_with_blank_line(s.take(from as int)) {
        from
    } else {
        head_end_from(s, from + 1)
    }
}

/// What reading a request head from a stream whose next bytes are `s`
/// gives, stated directly: with the first empty line ending at byte `e`, the
/// head is `s[..e]` and exactly `e` bytes are consumed when `e <= MAX_HEAD`;
/// otherwise, once the stream holds more than `MAX_HEAD` bytes, the head is
/// refused after exactly `MAX_HEAD + 1` bytes; otherwise the stream ended
/// first and everything was taken while the head is still open.
pub open spec fn head_outcome(s: Seq<u8>) -> (Seq<u8>, HeadStep, nat) {
    let e = head_end_from(s, 1);
    if e <= s.len() && e <= MAX_HEAD {
        (s.take(e as int), HeadStep::Complete, e)
    } else if s.len() > MAX_HEAD {
        (s.take(MAX_HEAD + 1 as int), HeadStep::TooLong, (MAX_HEAD + 1) as nat)
    } else {
        (s, HeadStep::Pending, s.len())
    }
}

proof fn lemma_head_end_from(s: Seq<u8>, from: nat)
    requires
        1 <= from <= s.len() + 1,
    ensures
        from <= head_end_from(s, from) <= s.len() + 1,
        head_end_from(s, from) <= s.len() ==> ends_with_blank_line(s.take(head_end_from(s, from) as int)),
        forall|k: int| from <= k < head_end_from(s, from) ==> !ends_with_blank_line(#[trigger] s.take(k)),
    decreases s.len() + 1 - from,
{
    if from <= s.len() && !ends_with_blank_line(s.take(from as int)) {
        lemma_head_end_from(s, from + 1);
    }
}

proof fn lemma_feed_head_general(s: Seq<u8>, i: nat)
    requires
        i <= s.len(),
        i <= MAX_HEAD,
        forall|k: int| 1 <= k <= i ==> !ends_with_blank_line(#[trigger] s.take(k)),
    ensures
        ({
            let (b, st, n) = head_outcome(s);
            feed_head(s.take(i as int), s.skip(i as int)) == (b, st, (n - i) as nat)
        }),
    decreases s.len() - i,
{
    lemma_head_end_from(s, 1);
    let e = head_end_from(s, 1);
    assert(e > i) by {
        if e <= i {
            assert(!ends_with_blank_line(s.take(e as int)));
        }
    }
    if i == s.len() {
        assert(s.take(i as int) =~= s);
        assert(s.skip(i as int) =~= Seq::<u8>::empty());
    } else {
        let rest = s.skip(i as int);
        assert(rest[0] == s[i as int]);
        assert(s.take(i as int).push(s[i as int]) =~= s.take(i + 1 as int));
        if i + 1 > MAX_HEAD {
        } else if ends_with_blank_line(s.take(i + 1 as int)) {
            assert(e == i + 1) by {
                if e > i + 1 {
                    assert(!ends_with_blank_line(s.take(i + 1 as int)));
                }
            }
        } else {
            lemma_feed_head_general(s, i + 1);
            assert(rest.drop_first() =~= s.skip(i + 1 as int));
        }
    }
}

/// Law of the head reader, complete: reading a request head from a stream
/// whose next bytes are `s` gives exactly `head_outcome`. The head is read
/// if and only if an empty line ends within the first `MAX_HEAD` bytes, and
/// then exactly the head is consumed, so the body stays in the stream; a
/// longer head is refused after exactly `MAX_HEAD + 1` bytes, so no more
/// than that is ever consumed.
pub proof fn law_head_reader(s: Seq<u8>)
    ensures
        feed_head(Seq::empty(), s) == head_outcome(s),
        feed_head(Seq::empty(), s).1 == HeadStep::Complete <==> (exists|e: int|
            1 <= e <= s.len() && e <= MAX_HEAD && ends_with_blank_line(#[trigger] s.take(e))),
        feed_head(Seq::empty(), s).2 <= MAX_HEAD + 1,
        feed_head(Seq::empty(), s).1 == HeadStep::Complete ==> head_ends_at(
            s,
            feed_head(Seq::empty(), s).2 as int,
        ),
{
    lemma_feed_head_general(s, 0);
    assert(s.take(0) =~= Seq::<u8>::empty());
    assert(s.skip(0) =~= s);
    lemma_head_end_from(s, 1);
    let e = head_end_from(s, 1);
    if !(e <= s.len() && e <= MAX_HEAD) {
        assert forall|k: int| !(1 <= k <= s.len() && k <= MAX_HEAD && ends_with_blank_line(
            #[trigger] s.take(k),
        )) by {
            if 1 <= k <= s.len() && k <= MAX_HEAD && ends_with_blank_line(s.take(k)) {
                assert(e <= k);
            }
        }
    } else {
        assert(ends_with_blank_line(s.take(e as int)));
    }
}

/// Law of the origin rewrite: only an `http://` origin whose host is
/// loopback is rewritten, and always to `http://<authority>`; everything else
/// passes through untouched for dsh's own cross-site fence.
pub proof fn law_origin_rewrite(origin: Seq<char>, authority: Seq<char>)
    ensures
        !starts_with(origin, "http://"@) ==> rewrite_origin_spec(origin, authority) is None,
        rewrite_origin_spec(origin, authority) is Some ==> rewrite_origin_spec(origin, authority)
            == Some("http://"@ + authority) && is_loopback_spec(
            origin_hostname(origin.skip(7)),
        ),
{
    reveal_strlit("http://");
}

/// Accumulates an HTTP/1.1 request head one byte at a time, so that no byte
/// after the head (the request body) is consumed: those are forwarded raw.
pub struct RequestHeadReader {
    head: Vec<u8>,
}

impl View for RequestHeadReader {
    type V = Seq<u8>;

    closed spec fn view(&self) -> Seq<u8> {
        self.head@
    }
}

impl RequestHeadReader {
    pub fn new() -> (r: Self)
        ensures
            r@ == Seq::<u8>::empty(),
    {
        RequestHeadReader { head: Vec::new() }
    }

    /// Takes the next byte of the stream. The bytes read so far are kept
    /// whatever the outcome.
    pub fn push_byte(&mut self, b: u8) -> (step: HeadStep)
        ensures
            (final(self)@, step) == head_step(old(self)@, b),
    {
        self.head.push(b);
        let n = self.head.len();
        if n > MAX_HEAD {
            return HeadStep::TooLong;
        }
        if n >= 4 && self.head[n - 4] == 13 && self.head[n - 3] == 10 && self.head[n - 2] == 13
            && self.head[n - 1] == 10 {
            assert(self.head@.skip(n - 4) =~= seq![13u8, 10u8, 13u8, 10u8]);
            HeadStep::Complete
        } else {
            assert(!ends_with_blank_line(self.head@)) by {
                if n >= 4 && self.head@.skip(n - 4) == seq![13u8, 10u8, 13u8, 10u8] {
                    assert(self.head@.skip(n - 4)[0] == self.head@[n - 4]);
                    assert(self.head@.skip(n - 4)[1] == self.head@[n - 3]);
                    assert(self.head@.skip(n - 4)[2] == self.head@[n - 2]);
                    assert(self.head@.skip(n - 4)[3] == self.head@[n - 1]);
                }
            }
            HeadStep::Pending
        }
    }

    /// The head read so far as text, if it is valid UTF-8.
    pub fn into_text(self) -> (r: Option<String>)
        ensures
            match r {
                Some(s) => valid_utf8(self@) && s@ == decode_utf8(self@),
                None => !valid_utf8(self@),
            },
    {
        crate::wire::utf8_to_string(self.head)
    }
}

} // verus!
