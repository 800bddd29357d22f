//! The approval tether's line protocol: JSON lines on one control stream per
//! connection, the first line being `hello` (paired) or `pair` (pairing).
use vstd::prelude::*;
use vstd::utf8::*;

use crate::i18n::{t, Lang};
use crate::text::{chars_of, eq_range};

verus! {

broadcast use vstd::string::group_string_axioms;

/// Upper bound on one line of the control stream. An approval reason is
/// natural language written by the model, so the bound is generous.
pub const MAX_LINE: usize = 65536;

/// Upper bound on the first line of a connection that is not paired yet:
/// enough for one `pair` message and no more, so that an unauthorised peer
/// cannot feed a large payload.
pub const MAX_UNPAIRED_LINE: usize = 512;

/// Upper bound on the first line of a proxy stream (`{"type":"proxy"}`).
pub const MAX_PROXY_LINE: usize = 256;

/// The messages of the line protocol (one JSON object per line, tagged by
/// `type` in kebab-case).
#[derive(Debug)]
pub enum Wire {
    /// Phone to host, first line of a paired connection.
    Hello { name: String },
    /// Phone to host, first line of a connection that asks to pair.
    Pair { code: String, name: String },
    /// Phone to host, first line of every later stream: the rest of the stream
    /// is raw TCP bytes for dsh web.
    Proxy,
    /// Host to phone: pairing accepted.
    PairOk,
    /// Host to phone: pairing refused. `reason` is one of the reason codes
    /// below, worded by whichever side displays it.
    PairFail { reason: String },
    /// Host to phone: an approval is waiting.
    Approval { id: String, tool_name: String, reason: String },
    /// Host to phone: the approval is no longer waiting.
    ApprovalCancel { id: String },
    /// Phone to host: the answer to an approval.
    Decision { id: String, outcome: String },
}

/// Reason codes of a refused pairing. Only the code travels on the wire.
pub const PAIR_NO_WINDOW: &'static str = "no-window";
pub const PAIR_EXPIRED: &'static str = "expired";
pub const PAIR_TOO_MANY_ATTEMPTS: &'static str = "too-many-attempts";
pub const PAIR_BAD_CODE: &'static str = "bad-code";

/// The sentence for a reason code in the given language. A code that is not
/// known is shown as it came: hosts up to 0.1.16 sent a Chinese sentence in
/// its place, and showing it beats hiding it or showing a code.
pub open spec fn pair_fail_text_spec(lang: Lang, code: Seq<char>) -> Seq<char> {
    let pick = |zh: &str, en: &str| if lang == Lang::En {
        en@
    } else {
        zh@
    };
    if code == "no-window"@ {
        pick("主机上没有开着的配对窗口", "the computer has no pairing window open")
    } else if code == "expired"@ {
        pick("配对窗口已过期", "the pairing window has expired")
    } else if code == "too-many-attempts"@ {
        pick("配对码试错次数超限,窗口已关", "too many wrong codes; the window is closed")
    } else if code == "bad-code"@ {
        pick("配对码不正确", "that pairing code is wrong")
    } else {
        code
    }
}

fn str_eq(a: &Vec<char>, b: &str) -> (r: bool)
    ensures
        r == (a@ == b@),
{
    let w = chars_of(b);
    let r = eq_range(a, 0, a.len(), &w);
    assert(a@.subrange(0, a.len() as int) =~= a@);
    r
}

/// Renders a pairing-failure reason code in the given language.
pub fn pair_fail_text(lang: Lang, code: &str) -> (r: String)
    ensures
        r@ == pair_fail_text_spec(lang, code@),
{
    let c = chars_of(code);
    if str_eq(&c, PAIR_NO_WINDOW) {
        t(lang, "主机上没有开着的配对窗口", "the computer has no pairing window open").to_string()
    } else if str_eq(&c, PAIR_EXPIRED) {
        t(lang, "配对窗口已过期", "the pairing window has expired").to_string()
    } else if str_eq(&c, PAIR_TOO_MANY_ATTEMPTS) {
        t(lang, "配对码试错次数超限,窗口已关", "too many wrong codes; the window is closed").to_string()
    } else if str_eq(&c, PAIR_BAD_CODE) {
        t(lang, "配对码不正确", "that pairing code is wrong").to_string()
    } else {
        code.to_string()
    }
}

/// Calls `String::from_utf8` of std, which succeeds exactly on valid UTF-8
/// and then holds the decoded characters.
#[verifier::external_body]
pub(crate) fn utf8_to_string(bytes: Vec<u8>) -> (r: Option<String>)
    ensures
        match r {
            Some(s) => valid_utf8(bytes@) && s@ == decode_utf8(bytes@),
            None => !valid_utf8(bytes@),
        },
{
    String::from_utf8(bytes).ok()
}

// ---------------------------------------------------------------------------
// Line framing
// ---------------------------------------------------------------------------

/// What one more byte of a line leads to.
#[derive(Clone, Copy, Debug, PartialEq, Eq, Structural)]
pub enum LineStep {
    /// The line goes on.
    Pending,
    /// The byte was the newline that ends the line.
    Line,
    /// The line grew past its bound.
    TooLong,
}

/// The effect of one byte on the bytes of a line read so far: a newline ends
/// the line and is not kept; any other byte is kept, and the line is refused
/// as soon as it holds more than `max` bytes.
pub open spec fn line_step(buf: Seq<u8>, max: nat, b: u8) -> (Seq<u8>, LineStep) {
    if b == 10 {
        (buf, LineStep::Line)
    } else if buf.len() + 1 > max {
        (buf.push(b), LineStep::TooLong)
    } else {
        (buf.push(b), LineStep::Pending)
    }
}

/// Reading `input` byte by byte after `buf`, up to the first step that is not
/// `Pending`: the bytes held, the last step and the number of bytes taken.
pub open spec fn feed_line(buf: Seq<u8>, max: nat, input: Seq<u8>) -> (Seq<u8>, LineStep, nat)
    decreases input.len(),
{
    if input.len() == 0 {
        (buf, LineStep::Pending, 0)
    } else {
        let (nb, st) = line_step(buf, max, input[0]);
        if st == LineStep::Pending {
            let (b2, s2, n) = feed_line(nb, max, input.drop_first());
            (b2, s2, n + 1)
        } else {
            (nb, st, 1)
        }
    }
}

/// Reads one bounded line of the control stream, a byte at a time, so that
/// nothing after the newline is consumed.
pub struct LineReader {
    buf: Vec<u8>,
    max: usize,
}

impl View for LineReader {
    type V = Seq<u8>;

    closed spec fn view(&self) -> Seq<u8> {
        self.buf@
    }
}

impl LineReader {
    /// The bound on the line, in bytes.
    pub closed spec fn limit(&self) -> nat {
        self.max as nat
    }

    pub fn new(max: usize) -> (r: Self)
        ensures
            r@ == Seq::<u8>::empty(),
            r.limit() == max,
    {
        LineReader { buf: Vec::new(), max }
    }

    /// Takes the next byte of the stream.
    pub fn push_byte(&mut self, b: u8) -> (step: LineStep)
        ensures
            final(self).limit() == old(self).limit(),
            (final(self)@, step) == line_step(old(self)@, old(self).limit(), b),
    {
        if b == 10 {
            return LineStep::Line;
        }
        self.buf.push(b);
        if self.buf.len() > self.max {
            LineStep::TooLong
        } else {
            LineStep::Pending
        }
    }

    /// The line read so far as text, if it is valid UTF-8.
    pub fn into_text(self) -> (r: Option<String>)
        ensures
            match r {
                Some(s) => valid_utf8(self@) && s@ == decode_utf8(self@),
                None => !valid_utf8(self@),
            },
    {
        utf8_to_string(self.buf)
    }
}

/// The bytes that send one line: its UTF-8 encoding and a newline.
pub fn frame_line(line: &str) -> (r: Vec<u8>)
    ensures
        r@ == encode_utf8(line@).push(10u8),
{
    let bytes = line.as_bytes();
    let mut r: Vec<u8> = Vec::new();
    let mut i: usize = 0;
    while i < bytes.len()
        invariant
            i <= bytes@.len(),
            bytes@ == encode_utf8(line@),
            r@ == bytes@.take(i as int),
        decreases bytes.len() - i,
    {
        r.push(bytes[i]);
        i = i + 1;
        assert(r@ =~= bytes@.take(i as int));
    }
    assert(bytes@.take(bytes.len() as int) =~= bytes@);
    r.push(10u8);
    r
}

/// The bound on the first line of a connection: a paired peer may send a
/// full line, any other peer only enough for one `pair` message.
pub fn first_line_limit(paired: bool) -> (r: usize)
    ensures
        r == (if paired {
            MAX_LINE
        } else {
            MAX_UNPAIRED_LINE
        }),
{
    if paired {
        MAX_LINE
    } else {
        MAX_UNPAIRED_LINE
    }
}

/// What the host does with the first line of a connection.
pub enum FirstLine {
    /// A paired peer says hello under this device name.
    Hello { name: String },
    /// A peer that is not paired asks to pair with this code and name.
    PairRequest { code: String, name: String },
    /// Anything else breaks the protocol; the connection is closed.
    Refused,
}

/// The first line that the host acts on: `hello` from a peer that was paired
/// when it connected, `pair` from one that was not, anything else refused.
pub open spec fn first_line_of(paired: bool, first: Wire) -> FirstLine {
    match (paired, first) {
        (true, Wire::Hello { name }) => FirstLine::Hello { name },
        (false, Wire::Pair { code, name }) => FirstLine::PairRequest { code, name },
        _ => FirstLine::Refused,
    }
}

/// A paired peer must open with `hello`, any other peer with `pair`.
pub fn admit_first_line(paired: bool, first: Wire) -> (r: FirstLine)
    ensures
        r == first_line_of(paired, first),
{
    match (paired, first) {
        (true, Wire::Hello { name }) => FirstLine::Hello { name },
        (false, Wire::Pair { code, name }) => FirstLine::PairRequest { code, name },
        _ => FirstLine::Refused,
    }
}

/// A proxy stream is served only when its first line is `proxy`.
pub fn opens_proxy(first: &Wire) -> (r: bool)
    ensures
        r == (*first is Proxy),
{
    match first {
        Wire::Proxy => true,
        _ => false,
    }
}

/// The answer carried by a message from the phone, if it is a decision;
/// every other message from the phone is ignored.
pub fn decision_of(msg: Wire) -> (r: Option<(String, String)>)
    ensures
        match msg {
            Wire::Decision { id, outcome } => r == Some((id, outcome)),
            _ => r is None,
        },
{
    match msg {
        Wire::Decision { id, outcome } => Some((id, outcome)),
        _ => None,
    }
}

/// The outcome that the phone stand-in answers under its policy: `allow`
/// allows once, any other policy rejects.
pub fn sim_outcome(auto: &str) -> (r: &'static str)
    ensures
        r@ == (if auto@ == "allow"@ {
            "allowed-once"@
        } else {
            "rejected"@
        }),
{
    let a = chars_of(auto);
    if str_eq(&a, "allow") {
        "allowed-once"
    } else {
        "rejected"
    }
}

// ---------------------------------------------------------------------------
// Laws
// ---------------------------------------------------------------------------

/// The UTF-8 encoding of text without a newline holds no newline byte.
pub proof fn lemma_no_newline_byte(chars: Seq<char>)
    requires
        !chars.contains('\n'),
    ensures
        !encode_utf8(chars).contains(10u8),
    decreases chars.len(),
{
    if chars.len() > 0 {
        let c = chars[0];
        assert(c != '\n');
        let u = c as u32;
        char_u32_cast(c, u);
        char_is_scalar(c);
        assert(u != 10) by {
            if u == 10 {
                assert((10u32 as char) == '\n');
            }
        }
        let rest = chars.drop_first();
        assert(!rest.contains('\n')) by {
            if rest.contains('\n') {
                let k = choose|k: int| 0 <= k < rest.len() && rest[k] == '\n';
                assert(chars[k + 1] == '\n');
            }
        }
        lemma_no_newline_byte(rest);
        let e = encode_scalar(u);
        assert(!e.contains(10u8)) by {
            assert(u != 10 && u < 0x80 ==> (u & 0x7F) as u8 != 10u8) by (bit_vector);
            assert(forall|y: u8| (0xC0u8 | y) != 10u8) by (bit_vector);
            assert(forall|y: u8| (0xE0u8 | y) != 10u8) by (bit_vector);
            assert(forall|y: u8| (0xF0u8 | y) != 10u8) by (bit_vector);
            assert(forall|y: u8| (0x80u8 | y) != 10u8) by (bit_vector);
            if e.contains(10u8) {
                let k = choose|k: int| 0 <= k < e.len() && e[k] == 10u8;
                assert(e[k] == 10u8);
            }
        }
        let all = encode_utf8(chars);
        assert(all == e + encode_utf8(rest));
        if all.contains(10u8) {
            let k = choose|k: int| 0 <= k < all.len() && all[k] == 10u8;
            if k < e.len() {
                assert(e[k] == 10u8);
            } else {
                assert(encode_utf8(rest)[k - e.len()] == 10u8);
            }
        }
    }
}

/// Bytes without a newline, followed by a newline, are read back as one line
/// when they fit the bound.
pub proof fn lemma_feed_line_complete(buf: Seq<u8>, max: nat, s: Seq<u8>)
    requires
        !s.contains(10u8),
        buf.len() + s.len() <= max,
    ensures
        feed_line(buf, max, s.push(10u8)) == (buf + s, LineStep::Line, s.len() + 1),
    decreases s.len(),
{
    if s.len() == 0 {
        assert(s.push(10u8) =~= seq![10u8]);
        assert(buf + s =~= buf);
        assert(seq![10u8].drop_first() =~= Seq::<u8>::empty());
    } else {
        let rest = s.drop_first();
        assert(!rest.contains(10u8)) by {
            if rest.contains(10u8) {
                let k = choose|k: int| 0 <= k < rest.len() && rest[k] == 10u8;
                assert(s[k + 1] == 10u8);
            }
        }
        assert(s[0] != 10u8);
        lemma_feed_line_complete(buf.push(s[0]), max, rest);
        assert(s.push(10u8).drop_first() =~= rest.push(10u8));
        assert(buf.push(s[0]) + rest =~= buf + s);
    }
}

/// Law of the line protocol: what `frame_line` sends is what `LineReader`
/// reads back, for any text without a newline whose encoding fits the bound.
pub proof fn law_framed_line_reads_back(line: Seq<char>, max: nat)
    requires
        !line.contains('\n'),
        encode_utf8(line).len() <= max,
    ensures
        feed_line(Seq::empty(), max, encode_utf8(line).push(10u8)) == (
            encode_utf8(line),
            LineStep::Line,
            encode_utf8(line).len() + 1,
        ),
        valid_utf8(encode_utf8(line)),
        decode_utf8(encode_utf8(line)) == line,
{
    lemma_no_newline_byte(line);
    lemma_feed_line_complete(Seq::empty(), max, encode_utf8(line));
    assert(Seq::<u8>::empty() + encode_utf8(line) =~= encode_utf8(line));
    encode_utf8_valid_utf8(line);
    encode_utf8_decode_utf8(line);
}

/// Law of the line bound: a stream with no newline among its first `max + 1`
/// bytes is refused as too long once exactly `max + 1` bytes are taken.
pub proof fn law_overlong_line_refused(max: nat, input: Seq<u8>)
    requires
        input.len() > max,
        !input.take(max as int + 1).contains(10u8),
    ensures
        feed_line(Seq::empty(), max, input) == (input.take(max as int + 1), LineStep::TooLong, max
            + 1),
{
    lemma_feed_line_overlong(Seq::empty(), max, input);
    assert(Seq::<u8>::empty() + input.take(max as int + 1) =~= input.take(max as int + 1));
}

/// The index of the first newline byte of `s`, or its length when it holds
/// none.
pub open spec fn first_newline(s: Seq<u8>) -> nat
    decreases s.len(),
{
    if s.len() == 0 {
        0
    } else if s[0] == 10 {
        0
    } else {
        1 + first_newline(s.drop_first())
    }
}

/// What reading one bounded line from a stream whose next bytes are `s`
/// gives, stated directly: with the first newline at `i`, the line is
/// `s[..i]` and `i + 1` bytes are taken when `i <= max`; otherwise, once the
/// stream holds more than `max` bytes, the line is refused after exactly
/// `max + 1` bytes; otherwise the stream ended first and everything was
/// taken while the line is still open.
pub open spec fn line_outcome(max: nat, s: Seq<u8>) -> (Seq<u8>, LineStep, nat) {
    let i = first_newline(s);
    if i < s.len() && i <= max {
        (s.take(i as int), LineStep::Line, i + 1)
    } else if s.len() > max {
        (s.take(max + 1 as int), LineStep::TooLong, max + 1)
    } else {
        (s, LineStep::Pending, s.len())
    }
}

proof fn lemma_first_newline(s: Seq<u8>)
    ensures
        first_newline(s) <= s.len(),
        first_newline(s) < s.len() ==> s[first_newline(s) as int] == 10u8,
        forall|k: int| 0 <= k < first_newline(s) ==> s[k] != 10u8,
    decreases s.len(),
{
    if s.len() > 0 && s[0] != 10 {
        lemma_first_newline(s.drop_first());
        assert forall|k: int| 0 <= k < first_newline(s) implies s[k] != 10u8 by {
            if k > 0 {
                assert(s[k] == s.drop_first()[k - 1]);
            }
        }
    }
}

proof fn lemma_feed_line_from(buf: Seq<u8>, max: nat, s: Seq<u8>)
    requires
        buf.len() <= max,
    ensures
        ({
            let room = (max - buf.len()) as nat;
            let (b, st, n) = line_outcome(room, s);
            feed_line(buf, max, s) == (buf + b, st, n)
        }),
    decreases s.len(),
{
    let room = (max - buf.len()) as nat;
    if s.len() == 0 {
        assert(buf + s =~= buf);
    } else if s[0] == 10 {
        assert(buf + s.take(0) =~= buf);
    } else {
        let rest = s.drop_first();
        assert(first_newline(s) == 1 + first_newline(rest));
        if buf.len() + 1 > max {
            assert(s.take(1) =~= seq![s[0]]);
            assert(buf.push(s[0]) =~= buf + s.take(1));
        } else {
            lemma_feed_line_from(buf.push(s[0]), max, rest);
            let i = first_newline(rest);
            let room2 = (room - 1) as nat;
            lemma_first_newline(rest);
            if i < rest.len() && i <= room2 {
                assert(buf.push(s[0]) + rest.take(i as int) =~= buf + s.take(i + 1 as int));
            } else if rest.len() > room2 {
                assert(buf.push(s[0]) + rest.take(room2 + 1 as int) =~= buf + s.take(
                    room + 1 as int,
                ));
            } else {
                assert(buf.push(s[0]) + rest =~= buf + s);
            }
        }
    }
}

/// Law of the bounded line reader, complete: from an empty line, reading a
/// stream whose next bytes are `s` gives exactly `line_outcome`. A line is
/// read if and only if a newline comes within the first `max + 1` bytes, and
/// then exactly the line and its newline are consumed; a longer line is
/// refused after exactly `max + 1` bytes, so no more than that is ever held;
/// and a stream that ends first leaves the line open.
pub proof fn law_line_reader(max: nat, s: Seq<u8>)
    ensures
        feed_line(Seq::empty(), max, s) == line_outcome(max, s),
        feed_line(Seq::empty(), max, s).1 == LineStep::Line <==> (exists|i: int|
            0 <= i < s.len() && i <= max && s[i] == 10u8),
        feed_line(Seq::empty(), max, s).2 <= max + 1,
        feed_line(Seq::empty(), max, s).0.len() <= max + 1,
        feed_line(Seq::empty(), max, s).1 == LineStep::Line ==> !feed_line(Seq::empty(), max, s).0.contains(10u8),
{
    lemma_feed_line_from(Seq::empty(), max, s);
    lemma_first_newline(s);
    let i = first_newline(s);
    let (b, st, n) = line_outcome(max, s);
    assert(Seq::<u8>::empty() + b =~= b);
    if st == LineStep::Line {
        assert(s[i as int] == 10u8);
        assert(!b.contains(10u8)) by {
            if b.contains(10u8) {
                let k = choose|k: int| 0 <= k < b.len() && b[k] == 10u8;
                assert(s[k] == b[k]);
            }
        }
    } else {
        assert forall|j: int| !(0 <= j < s.len() && j <= max && s[j] == 10u8) by {
            if 0 <= j < s.len() && j <= max && s[j] == 10u8 {
                assert(i <= j);
            }
        }
    }
}

proof fn lemma_feed_line_overlong(buf: Seq<u8>, max: nat, input: Seq<u8>)
    requires
        buf.len() <= max,
        buf.len() + input.len() > max,
        !input.take(max - buf.len() + 1).contains(10u8),
    ensures
        feed_line(buf, max, input) == (buf + input.take(max - buf.len() + 1), LineStep::TooLong, (
        max - buf.len() + 1) as nat),
    decreases input.len(),
{
    let n = max - buf.len() + 1;
    assert(input.take(n)[0] == input[0]);
    assert(input[0] != 10u8);
    if buf.len() == max {
        assert(input.take(1) =~= seq![input[0]]);
        assert(buf.push(input[0]) =~= buf + input.take(1));
    } else {
        let rest = input.drop_first();
        assert(!rest.take(n - 1).contains(10u8)) by {
            if rest.take(n - 1).contains(10u8) {
                let t = rest.take(n - 1);
                let k = choose|k: int| 0 <= k < t.len() && t[k] == 10u8;
                assert(input.take(n)[k + 1] == t[k]);
            }
        }
        lemma_feed_line_overlong(buf.push(input[0]), max, rest);
        assert(buf.push(input[0]) + rest.take(n - 1) =~= buf + input.take(n));
    }
}

} // verus!
