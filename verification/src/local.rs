//! Local mode: dsh running on the phone itself. The decisions of bringing it
//! up live here: recognising the readiness line of the node process,
//! exchanging the start-up token for the authentication cookie, keeping the
//! bounded log, and telling whether the unpacked runtime is the one packed.
use vstd::prelude::*;
use std::collections::VecDeque;

use crate::i18n::{t, Lang};
use crate::text::{
    before_first, chars_of, decimal, digits_value, eq_ignore_ascii_case, eq_ignore_case_range,
    find_in, line_ranges, parse_digits, pieces, push_decimal, push_range, push_str, split_once,
    starts_with, string_of, text_lines, trim, trim_range, all_digits, ends_with, nth_word, words,
};

verus! {

broadcast use {vstd::string::group_string_axioms, vstd::std_specs::vecdeque::group_vec_dequeue_axioms};

/// Lines kept in the log ring; enough to see why a start failed.
pub const LOG_LINES: usize = 200;

/// Lines of the log shown when the start fails.
pub const FAILURE_TAIL_LINES: usize = 8;

/// Upper bound on the response head read while exchanging the token.
pub const MAX_RESPONSE_HEAD: usize = 65536;

/// A state change of local mode reported to the web view.
pub struct LocalStateEvent {
    pub status: &'static str,
    pub detail: String,
}

// ---------------------------------------------------------------------------
// The readiness line
// ---------------------------------------------------------------------------

/// `u16::from_str`: an optional `+`, then one or more decimal digits whose
/// value fits in 16 bits.
pub open spec fn parse_u16_spec(s: Seq<char>) -> Option<u16> {
    let d = if s.len() > 0 && s[0] == '+' {
        s.drop_first()
    } else {
        s
    };
    if d.len() > 0 && all_digits(d) && digits_value(d) <= 65535 {
        Some(digits_value(d) as u16)
    } else {
        None
    }
}

/// The first useful stdout line of the node process,
/// `dsh web: http://127.0.0.1:<port>/?token=<token>`, gives the port and the
/// start-up token.
pub open spec fn ready_line_spec(line: Seq<char>) -> Option<(u16, Seq<char>)> {
    let t = trim(line);
    let prefix = "dsh web: http://127.0.0.1:"@;
    if !starts_with(t, prefix) {
        None
    } else {
        match split_once(t.skip(prefix.len() as int), "/?token="@) {
            None => None,
            Some((port, query)) => match parse_u16_spec(port) {
                Some(p) => Some((p, trim(query))),
                None => None,
            },
        }
    }
}

fn parse_u16_range(v: &Vec<char>, lo: usize, hi: usize) -> (r: Option<u16>)
    requires
        lo <= hi <= v.len(),
    ensures
        r == parse_u16_spec(v@.subrange(lo as int, hi as int)),
{
    let ghost s = v@.subrange(lo as int, hi as int);
    let mut a = lo;
    if lo < hi && v[lo] == '+' {
        a = lo + 1;
        assert(s.drop_first() =~= v@.subrange(a as int, hi as int));
    } else {
        assert(s =~= v@.subrange(a as int, hi as int));
    }
    if a == hi {
        return None;
    }
    match parse_digits(v, a, hi, 65535) {
        Some(n) => Some(n as u16),
        None => None,
    }
}

/// Recognises the readiness line of dsh and returns its port and token.
pub fn parse_ready_line(line: &str) -> (r: Option<(u16, String)>)
    ensures
        match r {
            Some((port, token)) => ready_line_spec(line@) == Some((port, token@)),
            None => ready_line_spec(line@) is None,
        },
{
    let v = chars_of(line);
    let (a, b) = trim_range(&v, 0, v.len());
    assert(v@.subrange(0, v.len() as int) =~= v@);
    let ghost t = v@.subrange(a as int, b as int);
    let prefix = chars_of("dsh web: http://127.0.0.1:");
    if b - a < prefix.len() || !crate::text::eq_range(&v, a, a + prefix.len(), &prefix) {
        assert(!starts_with(t, prefix@)) by {
            if starts_with(t, prefix@) {
                assert(t.take(prefix.len() as int) =~= v@.subrange(a as int, a + prefix.len()));
            }
        }
        return None;
    }
    assert(t.take(prefix.len() as int) =~= v@.subrange(a as int, a + prefix.len()));
    let start = a + prefix.len();
    let ghost rest = t.skip(prefix.len() as int);
    assert(rest =~= v@.subrange(start as int, b as int));
    let sep = chars_of("/?token=");
    proof {
        reveal_strlit("/?token=");
    }
    match find_in(&v, start, b, &sep) {
        None => None,
        Some(j) => {
            assert(rest.take(j - start) =~= v@.subrange(start as int, j as int));
            assert(rest.skip(j - start + sep.len()) =~= v@.subrange(j + sep.len(), b as int));
            match parse_u16_range(&v, start, j) {
                None => None,
                Some(port) => {
                    let (qa, qb) = trim_range(&v, j + sep.len(), b);
                    let mut w: Vec<char> = Vec::new();
                    push_range(&mut w, &v, qa, qb);
                    assert(w@ =~= v@.subrange(qa as int, qb as int));
                    Some((port, string_of(&w)))
                },
            }
        },
    }
}

// ---------------------------------------------------------------------------
// Exchanging the start-up token for the cookie
// ---------------------------------------------------------------------------

/// The request that exchanges the start-up token for the authentication
/// cookie: `GET /?token=<token>` on the local dsh, one request per
/// connection.
pub open spec fn exchange_request_spec(port: u16, token: Seq<char>) -> Seq<char> {
    "GET /?token="@ + token + " HTTP/1.1\r\nHost: 127.0.0.1:"@ + decimal(port as nat)
        + "\r\nConnection: close\r\n\r\n"@
}

pub fn cookie_exchange_request(port: u16, token: &str) -> (r: String)
    ensures
        r@ == exchange_request_spec(port, token@),
{
    let mut v: Vec<char> = Vec::new();
    push_str(&mut v, "GET /?token=");
    push_str(&mut v, token);
    push_str(&mut v, " HTTP/1.1\r\nHost: 127.0.0.1:");
    push_decimal(&mut v, port as u64);
    push_str(&mut v, "\r\nConnection: close\r\n\r\n");
    string_of(&v)
}

pub open spec fn has_blank_line(buf: Seq<u8>) -> bool {
    exists|i: int| 0 <= i && i + 4 <= buf.len() && #[trigger] buf.subrange(i, i + 4) == seq![13u8, 10u8, 13u8, 10u8]
}

/// Whether enough of the response has arrived: its head is complete (an
/// empty line has been read) or the bound is reached.
pub fn response_head_done(buf: &Vec<u8>) -> (r: bool)
    ensures
        r == (has_blank_line(buf@) || buf.len() >= MAX_RESPONSE_HEAD),
{
    if buf.len() >= MAX_RESPONSE_HEAD {
        return true;
    }
    let mut i: usize = 0;
    while i < buf.len() && buf.len() - i >= 4
        invariant
            i <= buf.len(),
            forall|k: int| 0 <= k < i ==> #[trigger] buf@.subrange(k, k + 4) != seq![13u8, 10u8, 13u8, 10u8],
        decreases buf.len() - i,
    {
        if buf[i] == 13 && buf[i + 1] == 10 && buf[i + 2] == 13 && buf[i + 3] == 10 {
            assert(buf@.subrange(i as int, i + 4) =~= seq![13u8, 10u8, 13u8, 10u8]);
            return true;
        }
        assert(buf@.subrange(i as int, i + 4) != seq![13u8, 10u8, 13u8, 10u8]) by {
            if buf@.subrange(i as int, i + 4) == seq![13u8, 10u8, 13u8, 10u8] {
                assert(buf@.subrange(i as int, i + 4)[0] == buf@[i as int]);
                assert(buf@.subrange(i as int, i + 4)[1] == buf@[i + 1]);
                assert(buf@.subrange(i as int, i + 4)[2] == buf@[i + 2]);
                assert(buf@.subrange(i as int, i + 4)[3] == buf@[i + 3]);
            }
        }
        i = i + 1;
    }
    false
}

/// The `name=value` pair of a `Set-Cookie` header line, without attributes,
/// when it is not empty.
pub open spec fn cookie_of_line(line: Seq<char>) -> Option<Seq<char>> {
    match split_once(line, seq![':']) {
        Some((key, value)) => if eq_ignore_ascii_case(trim(key), "set-cookie"@) {
            let pair = trim(before_first(trim(value), seq![';']));
            if pair.len() > 0 {
                Some(pair)
            } else {
                None
            }
        } else {
            None
        },
        None => None,
    }
}

pub open spec fn first_cookie(lines: Seq<Seq<char>>) -> Option<Seq<char>>
    decreases lines.len(),
{
    if lines.len() == 0 {
        None
    } else {
        match cookie_of_line(lines[0]) {
            Some(c) => Some(c),
            None => first_cookie(lines.drop_first()),
        }
    }
}

/// The first cookie that a response head sets.
pub open spec fn response_cookie_spec(head: Seq<char>) -> Option<Seq<char>> {
    first_cookie(text_lines(head))
}

fn cookie_of_range(v: &Vec<char>, lo: usize, hi: usize, name: &Vec<char>) -> (r: Option<(usize, usize)>)
    requires
        lo <= hi <= v.len(),
        name@ == "set-cookie"@,
    ensures
        match r {
            Some((a, b)) => a <= b <= v.len() && cookie_of_line(v@.subrange(lo as int, hi as int))
                == Some(v@.subrange(a as int, b as int)),
            None => cookie_of_line(v@.subrange(lo as int, hi as int)) is None,
        },
{
    let ghost line = v@.subrange(lo as int, hi as int);
    let colon = vec![':'];
    assert(colon@ =~= seq![':']);
    let c = match find_in(v, lo, hi, &colon) {
        None => {
            return None;
        },
        Some(c) => c,
    };
    assert(line.take(c - lo) =~= v@.subrange(lo as int, c as int));
    assert(line.skip(c - lo + 1) =~= v@.subrange(c + 1, hi as int));
    let (ka, kb) = trim_range(v, lo, c);
    if !eq_ignore_case_range(v, ka, kb, name) {
        return None;
    }
    let (va, vb) = trim_range(v, c + 1, hi);
    let semi = vec![';'];
    assert(semi@ =~= seq![';']);
    let pe = match find_in(v, va, vb, &semi) {
        Some(j) => {
            assert(v@.subrange(va as int, vb as int).take(j - va) =~= v@.subrange(va as int, j as int));
            j
        },
        None => vb,
    };
    let (pa, pb) = trim_range(v, va, pe);
    if pa == pb {
        None
    } else {
        Some((pa, pb))
    }
}

/// The authentication cookie set by the response head of the exchange.
pub fn cookie_from_response_head(head: &str) -> (r: Option<String>)
    ensures
        match r {
            Some(c) => response_cookie_spec(head@) == Some(c@),
            None => response_cookie_spec(head@) is None,
        },
{
    let v = chars_of(head);
    let rs = line_ranges(&v, 0, v.len());
    assert(v@.subrange(0, v.len() as int) =~= v@);
    let ghost lines = pieces(v@, rs@);
    let name = chars_of("set-cookie");
    assert(lines.skip(0) =~= lines);
    let mut k: usize = 0;
    while k < rs.len()
        invariant
            k <= rs.len(),
            lines == pieces(v@, rs@),
            lines == text_lines(head@),
            name@ == "set-cookie"@,
            forall|m: int| 0 <= m < rs.len() ==> (#[trigger] rs@[m]).0 <= rs@[m].1 <= v.len(),
            first_cookie(lines) == first_cookie(lines.skip(k as int)),
        decreases rs.len() - k,
    {
        let (a, b) = rs[k];
        assert(lines.skip(k as int)[0] == v@.subrange(a as int, b as int));
        match cookie_of_range(&v, a, b, &name) {
            Some((pa, pb)) => {
                let mut w: Vec<char> = Vec::new();
                push_range(&mut w, &v, pa, pb);
                assert(w@ =~= v@.subrange(pa as int, pb as int));
                return Some(string_of(&w));
            },
            None => {},
        }
        assert(lines.skip(k as int).drop_first() =~= lines.skip(k + 1));
        k = k + 1;
    }
    assert(lines.skip(k as int) =~= Seq::<Seq<char>>::empty());
    None
}

// ---------------------------------------------------------------------------
// Finding the app's native library directory
// ---------------------------------------------------------------------------

/// The file name of this app's own shared library, always mapped into the
/// process; its directory is the native library directory of the APK.
pub const SELF_LIB: &'static str = "/libdsh_tether_app_lib.so";

/// The path (sixth field) of the first line of a memory map that maps the
/// app's own library.
pub open spec fn self_lib_in_lines(lines: Seq<Seq<char>>) -> Option<Seq<char>>
    decreases lines.len(),
{
    if lines.len() == 0 {
        None
    } else if words(lines[0]).len() > 5 && ends_with(words(lines[0])[5], SELF_LIB@) {
        Some(words(lines[0])[5])
    } else {
        self_lib_in_lines(lines.drop_first())
    }
}

/// Finds the path of the app's own library in the text of
/// `/proc/self/maps`.
pub fn self_lib_path(maps: &str) -> (r: Option<String>)
    ensures
        match r {
            Some(p) => self_lib_in_lines(text_lines(maps@)) == Some(p@),
            None => self_lib_in_lines(text_lines(maps@)) is None,
        },
{
    let v = chars_of(maps);
    let rs = line_ranges(&v, 0, v.len());
    assert(v@.subrange(0, v.len() as int) =~= v@);
    let ghost lines = pieces(v@, rs@);
    let suffix = chars_of(SELF_LIB);
    assert(lines.skip(0) =~= lines);
    let mut k: usize = 0;
    while k < rs.len()
        invariant
            k <= rs.len(),
            lines == pieces(v@, rs@),
            lines == text_lines(maps@),
            suffix@ == SELF_LIB@,
            forall|m: int| 0 <= m < rs.len() ==> (#[trigger] rs@[m]).0 <= rs@[m].1 <= v.len(),
            self_lib_in_lines(lines) == self_lib_in_lines(lines.skip(k as int)),
        decreases rs.len() - k,
    {
        let (a, b) = rs[k];
        assert(lines.skip(k as int)[0] == v@.subrange(a as int, b as int));
        if let Some((wa, wb)) = nth_word(&v, a, b, 5) {
            if wb - wa >= suffix.len() && crate::text::eq_range(&v, wb - suffix.len(), wb, &suffix) {
                let ghost w = v@.subrange(wa as int, wb as int);
                assert(w.skip(w.len() - suffix.len()) =~= v@.subrange(wb - suffix.len(), wb as int));
                let mut out: Vec<char> = Vec::new();
                push_range(&mut out, &v, wa, wb);
                assert(out@ =~= w);
                return Some(string_of(&out));
            }
            proof {
                let w = v@.subrange(wa as int, wb as int);
                if ends_with(w, SELF_LIB@) {
                    assert(w.skip(w.len() - suffix.len()) =~= v@.subrange(wb - suffix.len(), wb as int));
                }
            }
        }
        assert(lines.skip(k as int).drop_first() =~= lines.skip(k + 1));
        k = k + 1;
    }
    assert(lines.skip(k as int) =~= Seq::<Seq<char>>::empty());
    None
}

// ---------------------------------------------------------------------------
// The runtime manifest
// ---------------------------------------------------------------------------

/// The unpacked runtime is the one in the package when the two manifests
/// (app version plus the bundled Node and dsh versions) agree up to
/// surrounding white space.
pub fn manifests_match(unpacked: &str, packed: &str) -> (r: bool)
    ensures
        r == (trim(unpacked@) == trim(packed@)),
{
    let u = chars_of(unpacked);
    let p = chars_of(packed);
    let (ua, ub) = trim_range(&u, 0, u.len());
    let (pa, pb) = trim_range(&p, 0, p.len());
    assert(u@.subrange(0, u.len() as int) =~= u@);
    assert(p@.subrange(0, p.len() as int) =~= p@);
    let mut pt: Vec<char> = Vec::new();
    push_range(&mut pt, &p, pa, pb);
    assert(pt@ =~= p@.subrange(pa as int, pb as int));
    crate::text::eq_range(&u, ua, ub, &pt)
}

/// Unpacking reports its progress every this many archive entries.
pub const UNPACK_PROGRESS_EVERY: usize = 1000;

/// The progress message after `count` archive entries, every
/// `UNPACK_PROGRESS_EVERY` entries.
pub open spec fn unpack_progress_spec(lang: Lang, count: nat) -> Option<Seq<char>> {
    if count % (UNPACK_PROGRESS_EVERY as nat) == 0 {
        Some(
            (if lang == Lang::En {
                "Unpacking the runtime… files so far: "@
            } else {
                "正在解压运行时… 已解出 "@
            }) + decimal(count),
        )
    } else {
        None
    }
}

pub fn unpack_progress(lang: Lang, count: usize) -> (r: Option<String>)
    ensures
        match r {
            Some(s) => unpack_progress_spec(lang, count as nat) == Some(s@),
            None => unpack_progress_spec(lang, count as nat) is None,
        },
{
    if count % UNPACK_PROGRESS_EVERY != 0 {
        return None;
    }
    let mut v: Vec<char> = Vec::new();
    push_str(&mut v, t(lang, "正在解压运行时… 已解出 ", "Unpacking the runtime… files so far: "));
    push_decimal(&mut v, count as u64);
    Some(string_of(&v))
}

// ---------------------------------------------------------------------------
// The log ring
// ---------------------------------------------------------------------------

/// The character sequences of a sequence of strings.
pub open spec fn string_views(v: Seq<String>) -> Seq<Seq<char>> {
    Seq::new(v.len(), |i: int| v[i]@)
}

/// The log after one more line: the oldest line goes once `LOG_LINES` are
/// held.
pub open spec fn log_push(log: Seq<Seq<char>>, line: Seq<char>) -> Seq<Seq<char>> {
    if log.len() >= LOG_LINES {
        log.drop_first().push(line)
    } else {
        log.push(line)
    }
}

/// The last lines of the node process's output, at most `LOG_LINES` of them.
pub struct LogRing {
    lines: VecDeque<String>,
}

impl View for LogRing {
    type V = Seq<Seq<char>>;

    closed spec fn view(&self) -> Seq<Seq<char>> {
        string_views(self.lines@)
    }
}

impl LogRing {
    #[verifier::type_invariant]
    closed spec fn bounded(self) -> bool {
        self.lines@.len() <= LOG_LINES
    }

    pub fn new() -> (r: Self)
        ensures
            r@ == Seq::<Seq<char>>::empty(),
    {
        let r = LogRing { lines: VecDeque::new() };
        assert(r@ =~= Seq::<Seq<char>>::empty());
        r
    }

    /// Appends a line, dropping the oldest one when the ring is full.
    pub fn push(&mut self, line: String)
        ensures
            final(self)@ == log_push(old(self)@, line@),
            final(self)@.len() <= LOG_LINES,
    {
        proof {
            use_type_invariant(&*self);
        }
        let ghost before = self@;
        let mut lines: VecDeque<String> = VecDeque::new();
        std::mem::swap(&mut lines, &mut self.lines);
        if lines.len() >= LOG_LINES {
            let _ = lines.pop_front();
        }
        lines.push_back(line);
        self.lines = lines;
        assert(self@ =~= log_push(before, line@));
    }

    /// All lines held, oldest first.
    pub fn lines(&self) -> (r: Vec<String>)
        ensures
            string_views(r@) == self@,
    {
        let mut r: Vec<String> = Vec::new();
        let mut i: usize = 0;
        while i < self.lines.len()
            invariant
                i <= self.lines@.len(),
                r@.len() == i,
                forall|k: int| 0 <= k < i ==> (#[trigger] r@[k])@ == self.lines@[k]@,
            decreases self.lines@.len() - i,
        {
            let s = self.lines[i].clone();
            r.push(s);
            i = i + 1;
        }
        assert(string_views(r@) =~= self@);
        r
    }

    /// The last `FAILURE_TAIL_LINES` lines (fewer when fewer are held), in
    /// order, joined by ` | `: what is shown when dsh fails to start.
    pub fn failure_summary(&self) -> (r: String)
        ensures
            r@ == join_bar(tail_lines(self@, FAILURE_TAIL_LINES as nat)),
    {
        let n = self.lines.len();
        let start = if n > FAILURE_TAIL_LINES {
            n - FAILURE_TAIL_LINES
        } else {
            0
        };
        let ghost tail = self@.skip(start as int);
        assert(tail == tail_lines(self@, FAILURE_TAIL_LINES as nat));
        let mut v: Vec<char> = Vec::new();
        let mut i = start;
        while i < n
            invariant
                start <= i <= n,
                n == self.lines@.len(),
                tail == self@.skip(start as int),
                v@ == join_bar(tail.take(i - start)),
            decreases n - i,
        {
            if i > start {
                push_str(&mut v, " | ");
            }
            let line = chars_of(self.lines[i].as_str());
            push_range(&mut v, &line, 0, line.len());
            assert(line@.subrange(0, line.len() as int) =~= line@);
            assert(tail.take(i + 1 - start).drop_last() =~= tail.take(i - start));
            assert(tail.take(i + 1 - start).last() == self@[i as int]);
            i = i + 1;
        }
        assert(tail.take(n - start) =~= tail);
        string_of(&v)
    }
}

/// The last `n` lines of `log`.
pub open spec fn tail_lines(log: Seq<Seq<char>>, n: nat) -> Seq<Seq<char>> {
    if log.len() > n {
        log.skip(log.len() - n)
    } else {
        log
    }
}

/// Lines joined by ` | `.
pub open spec fn join_bar(lines: Seq<Seq<char>>) -> Seq<char>
    decreases lines.len(),
{
    if lines.len() == 0 {
        Seq::empty()
    } else if lines.len() == 1 {
        lines[0]
    } else {
        join_bar(lines.drop_last()) + " | "@ + lines.last()
    }
}

/// Pushing the lines of `input` one by one, starting from `log`.
pub open spec fn log_push_all(log: Seq<Seq<char>>, input: Seq<Seq<char>>) -> Seq<Seq<char>>
    decreases input.len(),
{
    if input.len() == 0 {
        log
    } else {
        log_push(log_push_all(log, input.drop_last()), input.last())
    }
}

/// Law of the log ring: starting empty, after any lines have been pushed the
/// ring holds exactly the last `LOG_LINES` of them (all of them when fewer),
/// oldest first.
pub proof fn law_log_keeps_newest(input: Seq<Seq<char>>)
    ensures
        log_push_all(Seq::empty(), input) == tail_lines(input, LOG_LINES as nat),
    decreases input.len(),
{
    if input.len() > 0 {
        let prev = input.drop_last();
        law_log_keeps_newest(prev);
        let lp = tail_lines(prev, LOG_LINES as nat);
        if prev.len() >= LOG_LINES {
            assert(lp.drop_first().push(input.last()) =~= input.skip(input.len() - LOG_LINES));
        } else {
            assert(lp.push(input.last()) =~= tail_lines(input, LOG_LINES as nat));
        }
    }
}

proof fn lemma_first_cookie_at(lines: Seq<Seq<char>>, i: int)
    requires
        0 <= i < lines.len(),
        cookie_of_line(lines[i]) is Some,
        forall|j: int| 0 <= j < i ==> cookie_of_line(#[trigger] lines[j]) is None,
    ensures
        first_cookie(lines) == cookie_of_line(lines[i]),
    decreases i,
{
    if i > 0 {
        let rest = lines.drop_first();
        assert(cookie_of_line(lines[0]) is None);
        assert forall|j: int| 0 <= j < i - 1 implies cookie_of_line(#[trigger] rest[j]) is None by {
            assert(rest[j] == lines[j + 1]);
        }
        assert(rest[i - 1] == lines[i]);
        lemma_first_cookie_at(rest, i - 1);
    }
}

proof fn lemma_first_cookie_none(lines: Seq<Seq<char>>)
    ensures
        first_cookie(lines) is None <==> forall|j: int|
            0 <= j < lines.len() ==> cookie_of_line(#[trigger] lines[j]) is None,
    decreases lines.len(),
{
    if lines.len() > 0 {
        let rest = lines.drop_first();
        lemma_first_cookie_none(rest);
        if cookie_of_line(lines[0]) is None {
            assert forall|j: int| 0 <= j < lines.len() && cookie_of_line(#[trigger] lines[j]) is Some
                implies first_cookie(lines) is Some by {
                assert(lines[j] == rest[j - 1]);
            }
            assert forall|j: int| 0 <= j < rest.len() && first_cookie(lines) is None implies cookie_of_line(
                #[trigger] rest[j],
            ) is None by {
                assert(rest[j] == lines[j + 1]);
            }
        }
    }
}

/// Law of the cookie exchange: the cookie taken from a response head is the
/// pair of its first `Set-Cookie` line (in `str::lines` order) that carries a
/// non-empty pair; a later line never wins over an earlier one; and there is
/// none exactly when no line carries one.
pub proof fn law_first_set_cookie_wins(head: Seq<char>, i: int)
    ensures
        (0 <= i < text_lines(head).len() && cookie_of_line(text_lines(head)[i]) is Some && forall|
            j: int,
        | 0 <= j < i ==> cookie_of_line(#[trigger] text_lines(head)[j]) is None)
            ==> response_cookie_spec(head) == cookie_of_line(text_lines(head)[i]),
        response_cookie_spec(head) is None <==> forall|j: int|
            0 <= j < text_lines(head).len() ==> cookie_of_line(#[trigger] text_lines(head)[j])
                is None,
{
    let lines = text_lines(head);
    lemma_first_cookie_none(lines);
    if 0 <= i < lines.len() && cookie_of_line(lines[i]) is Some && forall|j: int|
        0 <= j < i ==> cookie_of_line(#[trigger] lines[j]) is None {
        lemma_first_cookie_at(lines, i);
    }
}

} // verus!
