//! The framing of a rewritten request head: it ends exactly once, at its
//! very end. No copied, rewritten or injected header line can end the head
//! early and smuggle a second request to dsh.
use vstd::prelude::*;

use crate::proxy::{
    crlf, has_upgrade, head_lines, head_terminator, header_value_spec, render_header,
    render_headers, rewrite_head_spec, rewrite_origin_spec,
};
use crate::text::{
    ends_with, find, find_from, matches_at, split, split_from, split_once, strip_suffix, trim,
    trim_end, trim_start,
};

verus! {

/// `s` holds no CRLF.
pub open spec fn crlf_free(s: Seq<char>) -> bool {
    forall|k: int| !matches_at(s, crlf(), k)
}

/// `s` holds no empty line (no CRLF CRLF).
pub open spec fn no_blank_line(s: Seq<char>) -> bool {
    forall|k: int| !matches_at(s, head_terminator(), k)
}

/// `s` holds neither a carriage return nor a line feed.
pub open spec fn no_line_break(s: Seq<char>) -> bool {
    !s.contains('\r') && !s.contains('\n')
}

proof fn lemma_no_line_break_crlf_free(s: Seq<char>)
    requires
        no_line_break(s),
    ensures
        crlf_free(s),
{
    assert forall|k: int| !matches_at(s, crlf(), k) by {
        if matches_at(s, crlf(), k) {
            assert(s.subrange(k, k + 2)[0] == s[k]);
        }
    }
}

proof fn lemma_concat_no_line_break(a: Seq<char>, b: Seq<char>)
    requires
        no_line_break(a),
        no_line_break(b),
    ensures
        no_line_break(a + b),
{
    let s = a + b;
    assert forall|k: int| 0 <= k < s.len() implies s[k] != '\r' && s[k] != '\n' by {
        if k < a.len() {
            assert(s[k] == a[k]);
        } else {
            assert(s[k] == b[k - a.len()]);
        }
    }
}

/// Two CRLF-free pieces joined where the first does not end with a carriage
/// return hold no CRLF.
proof fn lemma_concat_crlf_free(a: Seq<char>, b: Seq<char>)
    requires
        crlf_free(a),
        crlf_free(b),
        a.len() > 0 ==> a.last() != '\r',
    ensures
        crlf_free(a + b),
{
    let s = a + b;
    assert forall|k: int| !matches_at(s, crlf(), k) by {
        if matches_at(s, crlf(), k) {
            let w = s.subrange(k, k + 2);
            assert(w[0] == s[k] && w[1] == s[k + 1]);
            if k + 2 <= a.len() {
                assert(a.subrange(k, k + 2) =~= w);
                assert(matches_at(a, crlf(), k));
            } else if k >= a.len() {
                assert(b.subrange(k - a.len(), k - a.len() + 2) =~= w);
                assert(matches_at(b, crlf(), k - a.len()));
            } else {
                assert(s[k] == a.last());
                assert(w[0] == '\r');
            }
        }
    }
}

proof fn lemma_crlf_free_subrange(s: Seq<char>, i: int, j: int)
    requires
        crlf_free(s),
        0 <= i <= j <= s.len(),
    ensures
        crlf_free(s.subrange(i, j)),
{
    let t = s.subrange(i, j);
    assert forall|k: int| !matches_at(t, crlf(), k) by {
        if matches_at(t, crlf(), k) {
            assert(s.subrange(i + k, i + k + 2) =~= t.subrange(k, k + 2));
            assert(matches_at(s, crlf(), i + k));
        }
    }
}

proof fn lemma_trim_start_skips(s: Seq<char>) -> (n: int)
    ensures
        0 <= n <= s.len(),
        trim_start(s) == s.skip(n),
    decreases s.len(),
{
    if s.len() > 0 && crate::text::is_white_space(s[0]) {
        let m = lemma_trim_start_skips(s.drop_first());
        assert(s.drop_first().skip(m) =~= s.skip(m + 1));
        m + 1
    } else {
        assert(s.skip(0) =~= s);
        0
    }
}

proof fn lemma_trim_end_takes(s: Seq<char>) -> (n: int)
    ensures
        0 <= n <= s.len(),
        trim_end(s) == s.take(n),
    decreases s.len(),
{
    if s.len() > 0 && crate::text::is_white_space(s.last()) {
        let m = lemma_trim_end_takes(s.drop_last());
        assert(s.drop_last().take(m) =~= s.take(m));
        m
    } else {
        assert(s.take(s.len() as int) =~= s);
        s.len() as int
    }
}

proof fn lemma_trim_crlf_free(s: Seq<char>)
    requires
        crlf_free(s),
    ensures
        crlf_free(trim(s)),
{
    let a = lemma_trim_start_skips(s);
    lemma_crlf_free_subrange(s, a, s.len() as int);
    assert(s.skip(a) =~= s.subrange(a, s.len() as int));
    let t = s.skip(a);
    let b = lemma_trim_end_takes(t);
    lemma_crlf_free_subrange(t, 0, b);
    assert(t.take(b) =~= t.subrange(0, b));
}

/// Appending a line `x` and its CRLF to text that holds no empty line and is
/// empty or ends with CRLF: the result again holds no empty line and ends
/// with CRLF, provided `x` holds no CRLF and is not empty after a CRLF.
proof fn lemma_append_line(q: Seq<char>, x: Seq<char>)
    requires
        no_blank_line(q),
        q.len() == 0 || ends_with(q, crlf()),
        crlf_free(x),
        q.len() == 0 || x.len() > 0,
    ensures
        no_blank_line(q + x + crlf()),
        ends_with(q + x + crlf(), crlf()),
{
    let n = q + x + crlf();
    if q.len() > 0 {
        assert(q.skip(q.len() - 2)[0] == q[q.len() - 2]);
        assert(q.skip(q.len() - 2)[1] == q[q.len() - 1]);
    }
    assert forall|k: int| !matches_at(n, head_terminator(), k) by {
        if matches_at(n, head_terminator(), k) {
            let w = n.subrange(k, k + 4);
            assert(w[0] == n[k] && w[1] == n[k + 1] && w[2] == n[k + 2] && w[3] == n[k + 3]);
            assert(w[0] == '\r' && w[1] == '\n' && w[2] == '\r' && w[3] == '\n');
            if k + 4 <= q.len() {
                assert(q.subrange(k, k + 4) =~= w);
                assert(matches_at(q, head_terminator(), k));
            } else if k >= q.len() {
                let j = k - q.len();
                assert(n[k] == x[j]);
                assert(n[k + 1] == x[j + 1]);
                assert(x.subrange(j, j + 2) =~= crlf());
                assert(matches_at(x, crlf(), j));
            } else if k == q.len() - 1 {
                assert(n[k] == q[q.len() - 1]);
            } else if k == q.len() - 2 {
                assert(n[k + 2] == x[0]);
                if x.len() >= 2 {
                    assert(n[k + 3] == x[1]);
                    assert(x.subrange(0, 2) =~= crlf());
                    assert(matches_at(x, crlf(), 0));
                } else {
                    assert(n[k + 3] == '\r');
                }
            } else {
                assert(n[k + 1] == q[q.len() - 2]);
            }
        }
    }
    assert(n.skip(n.len() - 2) =~= crlf());
}

proof fn lemma_find_from_facts(s: Seq<char>, p: Seq<char>, i: int, j: int)
    requires
        find_from(s, p, i) == Some(j),
    ensures
        i <= j,
        matches_at(s, p, j),
        forall|k: int| i <= k < j ==> !matches_at(s, p, k),
    decreases s.len() + 1 - i,
{
    if !(i < 0 || i + p.len() > s.len()) && !matches_at(s, p, i) {
        lemma_find_from_facts(s, p, i + 1, j);
    }
}

proof fn lemma_find_first(s: Seq<char>, p: Seq<char>, i: int, j: int)
    requires
        0 <= i <= j,
        matches_at(s, p, j),
        forall|k: int| i <= k < j ==> !matches_at(s, p, k),
    ensures
        find_from(s, p, i) == Some(j),
    decreases j - i,
{
    if i < j {
        lemma_find_first(s, p, i + 1, j);
    }
}

/// The pieces of splitting on CRLF hold no CRLF; and when the text holds no
/// empty line and does not end with CRLF, every piece that follows a CRLF
/// is non-empty.
proof fn lemma_split_pieces(s: Seq<char>, start: int, i: int, after_crlf: bool)
    requires
        0 <= start <= i,
        forall|k: int| start <= k < i ==> !matches_at(s, crlf(), k),
        after_crlf ==> start >= 2 && matches_at(s, crlf(), start - 2),
        start <= s.len(),
    ensures
        forall|m: int|
            0 <= m < split_from(s, crlf(), start, i).len() ==> crlf_free(
                #[trigger] split_from(s, crlf(), start, i)[m],
            ),
        (no_blank_line(s) && !ends_with(s, crlf())) ==> forall|m: int|
            0 <= m < split_from(s, crlf(), start, i).len() && (m >= 1 || after_crlf) ==> (
            #[trigger] split_from(s, crlf(), start, i)[m]).len() > 0,
    decreases s.len() + 1 - i,
{
    let p = crlf();
    let r = split_from(s, p, start, i);
    if i + p.len() > s.len() {
        let piece = s.subrange(start, s.len() as int);
        assert(r == seq![piece]);
        assert(r.len() == 1 && r[0] == piece);
        assert(crlf_free(piece)) by {
            assert forall|k: int| !matches_at(piece, crlf(), k) by {
                if matches_at(piece, crlf(), k) {
                    assert(s.subrange(start + k, start + k + 2) =~= piece.subrange(k, k + 2));
                    assert(matches_at(s, crlf(), start + k));
                }
            }
        }
        if no_blank_line(s) && !ends_with(s, crlf()) && after_crlf {
            if piece.len() == 0 {
                assert(s.skip(s.len() - 2) =~= s.subrange(start - 2, start));
            }
        }
    } else if matches_at(s, p, i) {
        let piece = s.subrange(start, i);
        let rest = split_from(s, p, i + 2, i + 2);
        assert(r == seq![piece] + rest);
        assert(crlf_free(piece)) by {
            assert forall|k: int| !matches_at(piece, crlf(), k) by {
                if matches_at(piece, crlf(), k) {
                    assert(s.subrange(start + k, start + k + 2) =~= piece.subrange(k, k + 2));
                    assert(matches_at(s, crlf(), start + k));
                }
            }
        }
        lemma_split_pieces(s, i + 2, i + 2, true);
        assert forall|m: int| 0 <= m < r.len() implies crlf_free(#[trigger] r[m]) by {
            if m > 0 {
                assert(r[m] == rest[m - 1]);
            }
        }
        if no_blank_line(s) && !ends_with(s, crlf()) {
            assert forall|m: int| 0 <= m < r.len() && (m >= 1 || after_crlf) implies (
            #[trigger] r[m]).len() > 0 by {
                if m > 0 {
                    assert(r[m] == rest[m - 1]);
                } else if piece.len() == 0 {
                    let w = s.subrange(start - 2, start + 2);
                    assert(s.subrange(start - 2, start)[0] == s[start - 2]);
                    assert(s.subrange(start - 2, start)[1] == s[start - 1]);
                    assert(s.subrange(i, i + 2)[0] == s[i]);
                    assert(s.subrange(i, i + 2)[1] == s[i + 1]);
                    assert(w =~= head_terminator());
                    assert(matches_at(s, head_terminator(), start - 2));
                }
            }
        }
    } else {
        lemma_split_pieces(s, start, i + 1, after_crlf);
        assert(r == split_from(s, p, start, i + 1));
    }
}

/// One rendered header line is nothing, or a non-empty line without CRLF
/// followed by CRLF.
proof fn lemma_render_header_line(line: Seq<char>, upgrade: bool, authority: Seq<char>) -> (x:
    Option<Seq<char>>)
    requires
        crlf_free(line),
        no_line_break(authority),
    ensures
        match x {
            None => render_header(line, upgrade, authority).len() == 0,
            Some(x) => render_header(line, upgrade, authority) == x + crlf() && (line.len() > 0
                ==> x.len() > 0) && crlf_free(x),
        },
{
    reveal_strlit("host: ");
    reveal_strlit("origin: ");
    reveal_strlit("http://");
    lemma_no_line_break_crlf_free(authority);
    if header_value_spec(line, "host"@) is Some {
        let lit = "host: "@;
        assert(no_line_break(lit));
        lemma_concat_no_line_break(lit, authority);
        lemma_no_line_break_crlf_free(lit + authority);
        Some(lit + authority)
    } else if header_value_spec(line, "origin"@) is Some {
        let lit = "origin: "@;
        let o = header_value_spec(line, "origin"@)->0;
        let (key, value) = split_once(line, seq![':'])->0;
        let j = find(line, seq![':'])->0;
        lemma_find_from_facts(line, seq![':'], 0, j);
        lemma_crlf_free_subrange(line, j + 1, line.len() as int);
        assert(value =~= line.subrange(j + 1, line.len() as int));
        lemma_trim_crlf_free(value);
        let v = match rewrite_origin_spec(o, authority) {
            Some(r) => r,
            None => o,
        };
        if rewrite_origin_spec(o, authority) is Some {
            assert(no_line_break("http://"@));
            lemma_concat_no_line_break("http://"@, authority);
            lemma_no_line_break_crlf_free(v);
        }
        assert(no_line_break(lit));
        lemma_no_line_break_crlf_free(lit);
        lemma_concat_crlf_free(lit, v);
        Some(lit + v)
    } else if render_header(line, upgrade, authority).len() == 0 {
        None
    } else {
        Some(line)
    }
}

proof fn lemma_render_headers(q: Seq<char>, hs: Seq<Seq<char>>, upgrade: bool, authority: Seq<char>)
    requires
        no_blank_line(q),
        ends_with(q, crlf()),
        forall|i: int| 0 <= i < hs.len() ==> (#[trigger] hs[i]).len() > 0 && crlf_free(hs[i]),
        no_line_break(authority),
    ensures
        no_blank_line(q + render_headers(hs, upgrade, authority)),
        ends_with(q + render_headers(hs, upgrade, authority), crlf()),
    decreases hs.len(),
{
    if hs.len() == 0 {
        assert(q + render_headers(hs, upgrade, authority) =~= q);
    } else {
        let init = hs.drop_last();
        assert forall|i: int| 0 <= i < init.len() implies (#[trigger] init[i]).len() > 0
            && crlf_free(init[i]) by {
            assert(init[i] == hs[i]);
        }
        lemma_render_headers(q, init, upgrade, authority);
        let q2 = q + render_headers(init, upgrade, authority);
        assert(hs.last() == hs[hs.len() - 1]);
        let x = lemma_render_header_line(hs.last(), upgrade, authority);
        match x {
            None => {
                assert(q + render_headers(hs, upgrade, authority) =~= q2);
            },
            Some(x) => {
                lemma_append_line(q2, x);
                assert(q + render_headers(hs, upgrade, authority) =~= q2 + x + crlf());
            },
        }
    }
}

/// The lines of a head whose first empty line is its end: the text before
/// the terminator holds no empty line and does not end with CRLF, so its
/// lines hold no CRLF and every header line is non-empty.
proof fn lemma_head_lines(head: Seq<char>)
    requires
        find(head, head_terminator()) == Some(head.len() - 4),
    ensures
        head_lines(head).len() >= 1,
        crlf_free(head_lines(head)[0]),
        forall|i: int|
            1 <= i < head_lines(head).len() ==> (#[trigger] head_lines(head)[i]).len() > 0
                && crlf_free(head_lines(head)[i]),
{
    let t = head_terminator();
    lemma_find_from_facts(head, t, 0, head.len() - 4);
    let n = head.len() as int;
    assert(head.skip(n - 4) =~= head.subrange(n - 4, n));
    assert(ends_with(head, t));
    let body = head.take(n - 4);
    assert(strip_suffix(head, t) == Some(body));
    assert(no_blank_line(body)) by {
        assert forall|k: int| !matches_at(body, t, k) by {
            if matches_at(body, t, k) {
                assert(head.subrange(k, k + 4) =~= body.subrange(k, k + 4));
                assert(matches_at(head, t, k));
            }
        }
    }
    assert(!ends_with(body, crlf())) by {
        if ends_with(body, crlf()) {
            let b = body.len() as int;
            assert(body.skip(b - 2)[0] == head[b - 2]);
            assert(body.skip(b - 2)[1] == head[b - 1]);
            assert(head.subrange(n - 4, n)[0] == head[b]);
            assert(head.subrange(n - 4, n)[1] == head[b + 1]);
            assert(head.subrange(b - 2, b + 2) =~= t);
            assert(matches_at(head, t, b - 2));
        }
    }
    lemma_split_pieces(body, 0, 0, false);
    assert(head_lines(head) == split(body, crlf()));
    crate::proxy::lemma_split_from_nonempty(body, crlf(), 0, 0);
}

/// The end of the rewritten head: after the header lines, the cookie line,
/// `connection: close` unless the request upgrades, and the empty line.
proof fn lemma_head_tail(q1: Seq<char>, cookie: Seq<char>, upgrade: bool) -> (q3: Seq<char>)
    requires
        no_blank_line(q1),
        ends_with(q1, crlf()),
        no_line_break(cookie),
    ensures
        q3 == q1 + "cookie: "@ + cookie + crlf() + (if upgrade {
            Seq::empty()
        } else {
            "connection: close\r\n"@
        }),
        no_blank_line(q3),
        ends_with(q3, crlf()),
{
    reveal_strlit("cookie: ");
    reveal_strlit("connection: close\r\n");
    reveal_strlit("connection: close");
    let cl = "cookie: "@ + cookie;
    assert(no_line_break("cookie: "@));
    lemma_concat_no_line_break("cookie: "@, cookie);
    lemma_no_line_break_crlf_free(cl);
    lemma_append_line(q1, cl);
    let q2 = q1 + cl + crlf();
    if upgrade {
        assert(q2 =~= q1 + "cookie: "@ + cookie + crlf() + Seq::<char>::empty());
        q2
    } else {
        let close = "connection: close"@;
        assert(no_line_break(close));
        lemma_no_line_break_crlf_free(close);
        lemma_append_line(q2, close);
        assert("connection: close\r\n"@ =~= close + crlf());
        assert(q2 + close + crlf() =~= q1 + "cookie: "@ + cookie + crlf()
            + "connection: close\r\n"@);
        q2 + close + crlf()
    }
}

/// Text that holds no empty line and ends with CRLF, followed by one more
/// CRLF: its first empty line is its end.
proof fn lemma_close_head(q: Seq<char>)
    requires
        no_blank_line(q),
        ends_with(q, crlf()),
    ensures
        find(q + crlf(), head_terminator()) == Some((q + crlf()).len() - 4),
{
    let t = head_terminator();
    let out = q + crlf();
    let m = q.len() as int;
    assert(q.skip(m - 2)[0] == q[m - 2]);
    assert(q.skip(m - 2)[1] == q[m - 1]);
    assert(out.subrange(m - 2, m + 2) =~= t);
    assert forall|k: int| 0 <= k < m - 2 implies !matches_at(out, t, k) by {
        if matches_at(out, t, k) {
            if k + 4 <= m {
                assert(q.subrange(k, k + 4) =~= out.subrange(k, k + 4));
                assert(matches_at(q, t, k));
            } else {
                assert(out.subrange(k, k + 4)[1] == out[k + 1]);
                assert(out[k + 1] == q[m - 2]);
            }
        }
    }
    lemma_find_first(out, t, 0, m - 2);
}

/// Law of the head framing: for a head whose first empty line is its end
/// (as the head reader delivers it), and authentication material without
/// carriage return or line feed (as the plugin's material is checked), the
/// rewritten head's first empty line is again exactly its end. No copied,
/// rewritten or injected line can end it early.
pub proof fn law_rewritten_head_ends_once(head: Seq<char>, cookie: Seq<char>, authority: Seq<char>)
    requires
        find(head, head_terminator()) == Some(head.len() - 4),
        no_line_break(cookie),
        no_line_break(authority),
    ensures
        find(rewrite_head_spec(head, cookie, authority), head_terminator()) == Some(
            rewrite_head_spec(head, cookie, authority).len() - 4,
        ),
{
    lemma_head_lines(head);
    let lines = head_lines(head);
    let headers = lines.drop_first();
    assert forall|i: int| 0 <= i < headers.len() implies (#[trigger] headers[i]).len() > 0
        && crlf_free(headers[i]) by {
        assert(headers[i] == lines[i + 1]);
    }
    let upgrade = has_upgrade(headers);
    let q0 = lines[0] + crlf();
    lemma_append_line(Seq::empty(), lines[0]);
    assert(Seq::<char>::empty() + lines[0] + crlf() =~= q0);
    lemma_render_headers(q0, headers, upgrade, authority);
    let q1 = q0 + render_headers(headers, upgrade, authority);
    let q3 = lemma_head_tail(q1, cookie, upgrade);
    lemma_close_head(q3);
    assert(rewrite_head_spec(head, cookie, authority) =~= q3 + crlf());
}

// ---------------------------------------------------------------------------
// The header lines of the rewritten head
// ---------------------------------------------------------------------------

/// Lines joined by CRLF (no CRLF after the last).
pub open spec fn joined(ls: Seq<Seq<char>>) -> Seq<char>
    decreases ls.len(),
{
    if ls.len() == 0 {
        Seq::empty()
    } else if ls.len() == 1 {
        ls[0]
    } else {
        joined(ls.drop_last()) + crlf() + ls.last()
    }
}

/// The header lines that the rewrite emits for `hs`, without their CRLF, in
/// order; dropped lines emit none.
pub open spec fn rendered_lines(hs: Seq<Seq<char>>, upgrade: bool, authority: Seq<char>) -> Seq<
    Seq<char>,
>
    decreases hs.len(),
{
    if hs.len() == 0 {
        Seq::empty()
    } else {
        let r = render_header(hs.last(), upgrade, authority);
        rendered_lines(hs.drop_last(), upgrade, authority) + if r.len() == 0 {
            Seq::<Seq<char>>::empty()
        } else {
            seq![r.take(r.len() - 2)]
        }
    }
}

proof fn lemma_joined_front(ls: Seq<Seq<char>>)
    requires
        ls.len() >= 2,
    ensures
        joined(ls) == ls[0] + crlf() + joined(ls.drop_first()),
    decreases ls.len(),
{
    if ls.len() > 2 {
        lemma_joined_front(ls.drop_last());
        assert(ls.drop_last().drop_first() =~= ls.drop_first().drop_last());
        assert(ls.drop_first().last() == ls.last());
        assert(ls.drop_last()[0] == ls[0]);
        let a = joined(ls.drop_first().drop_last());
        assert(joined(ls.drop_first()) == a + crlf() + ls.last());
        assert(joined(ls.drop_last()) == ls[0] + crlf() + a);
        assert(joined(ls) == joined(ls.drop_last()) + crlf() + ls.last());
        assert(joined(ls) =~= ls[0] + crlf() + joined(ls.drop_first()));
    } else {
        assert(ls.drop_first().len() == 1);
        assert(ls.drop_last().len() == 1);
        assert(joined(ls.drop_first()) == ls[1]);
        assert(joined(ls.drop_last()) == ls[0]);
        assert(joined(ls) =~= ls[0] + crlf() + joined(ls.drop_first()));
    }
}

/// Scanning for CRLF from `i` finds the first one at `j`.
proof fn lemma_split_scan(s: Seq<char>, start: int, i: int, j: int)
    requires
        0 <= start <= i <= j,
        forall|k: int| i <= k < j ==> !matches_at(s, crlf(), k),
        matches_at(s, crlf(), j),
    ensures
        split_from(s, crlf(), start, i) == seq![s.subrange(start, j)] + split_from(
            s,
            crlf(),
            j + 2,
            j + 2,
        ),
    decreases j - i,
{
    if i < j {
        lemma_split_scan(s, start, i + 1, j);
    }
}

/// Scanning for CRLF from `i` finds none: the rest is the last piece.
proof fn lemma_split_scan_end(s: Seq<char>, start: int, i: int)
    requires
        0 <= start <= i,
        start <= s.len(),
        forall|k: int| i <= k ==> !matches_at(s, crlf(), k),
    ensures
        split_from(s, crlf(), start, i) == seq![s.subrange(start, s.len() as int)],
    decreases s.len() + 1 - i,
{
    if i + 2 <= s.len() {
        lemma_split_scan_end(s, start, i + 1);
    }
}

/// Splitting lines without CRLF, joined by CRLF, on CRLF gives them back.
proof fn lemma_split_joined(s: Seq<char>, start: int, ls: Seq<Seq<char>>)
    requires
        0 <= start <= s.len(),
        s.subrange(start, s.len() as int) == joined(ls),
        ls.len() >= 1,
        forall|i: int| 0 <= i < ls.len() ==> crlf_free(#[trigger] ls[i]),
    ensures
        split_from(s, crlf(), start, start) == ls,
    decreases ls.len(),
{
    let x = ls[0];
    let tail = s.subrange(start, s.len() as int);
    if ls.len() == 1 {
        assert(tail == x);
        assert forall|k: int| start <= k implies !matches_at(s, crlf(), k) by {
            if matches_at(s, crlf(), k) {
                assert(tail.subrange(k - start, k - start + 2) =~= s.subrange(k, k + 2));
                assert(matches_at(x, crlf(), k - start));
            }
        }
        lemma_split_scan_end(s, start, start);
        assert(ls =~= seq![x]);
    } else {
        lemma_joined_front(ls);
        let rest = ls.drop_first();
        let j = start + x.len();
        assert(tail =~= x + crlf() + joined(rest));
        assert(s[j] == tail[x.len() as int]);
        assert(s[j + 1] == tail[x.len() + 1 as int]);
        assert(s.subrange(j, j + 2) =~= crlf());
        assert forall|k: int| start <= k < j implies !matches_at(s, crlf(), k) by {
            if matches_at(s, crlf(), k) {
                assert(s.subrange(k, k + 2)[0] == s[k]);
                assert(s.subrange(k, k + 2)[1] == s[k + 1]);
                if k + 1 < j {
                    assert(s[k] == tail[k - start]);
                    assert(s[k + 1] == tail[k - start + 1]);
                    assert(s[k] == x[k - start]);
                    assert(s[k + 1] == x[k - start + 1]);
                    assert(x.subrange(k - start, k - start + 2) =~= crlf());
                    assert(matches_at(x, crlf(), k - start));
                } else {
                    assert(s[k + 1] == tail[x.len() as int]);
                }
            }
        }
        lemma_split_scan(s, start, start, j);
        assert(s.subrange(start, j) =~= x);
        assert(s.subrange(j + 2, s.len() as int) =~= tail.skip(x.len() + 2 as int));
        assert(tail.skip(x.len() + 2 as int) =~= joined(rest));
        assert forall|i: int| 0 <= i < rest.len() implies crlf_free(#[trigger] rest[i]) by {
            assert(rest[i] == ls[i + 1]);
        }
        lemma_split_joined(s, j + 2, rest);
        assert(ls =~= seq![x] + rest);
    }
}

/// The rendered header lines hold no CRLF; in a request that does not
/// upgrade none of them is a connection header; one that is named Host is
/// `host: <authority>`; and there is such a line whenever a header line of
/// the request is named Host.
proof fn lemma_rendered_lines(hs: Seq<Seq<char>>, upgrade: bool, authority: Seq<char>)
    requires
        forall|i: int| 0 <= i < hs.len() ==> crlf_free(#[trigger] hs[i]),
        no_line_break(authority),
    ensures
        forall|i: int|
            0 <= i < rendered_lines(hs, upgrade, authority).len() ==> crlf_free(
                #[trigger] rendered_lines(hs, upgrade, authority)[i],
            ) && (!upgrade ==> !crate::proxy::is_connection_header(
                rendered_lines(hs, upgrade, authority)[i],
            )) && (crate::proxy::is_named(rendered_lines(hs, upgrade, authority)[i], "host"@)
                ==> rendered_lines(hs, upgrade, authority)[i] == "host: "@ + authority),
        (exists|j: int| 0 <= j < hs.len() && crate::proxy::is_named(#[trigger] hs[j], "host"@))
            ==> rendered_lines(hs, upgrade, authority).contains("host: "@ + authority),
    decreases hs.len(),
{
    if hs.len() > 0 {
        let init = hs.drop_last();
        assert forall|i: int| 0 <= i < init.len() implies crlf_free(#[trigger] init[i]) by {
            assert(init[i] == hs[i]);
        }
        lemma_rendered_lines(init, upgrade, authority);
        let line = hs.last();
        assert(line == hs[hs.len() - 1]);
        let r = render_header(line, upgrade, authority);
        let x = lemma_render_header_line(line, upgrade, authority);
        crate::proxy::law_no_client_connection_header(line, authority);
        crate::proxy::law_host_always_rewritten(line, upgrade, authority);
        let prev = rendered_lines(init, upgrade, authority);
        let all = rendered_lines(hs, upgrade, authority);
        let hostline = "host: "@ + authority;
        if r.len() > 0 {
            let xx = x->0;
            assert(r.take(r.len() - 2) =~= xx);
            assert forall|i: int| 0 <= i < all.len() implies crlf_free(#[trigger] all[i]) && (
            !upgrade ==> !crate::proxy::is_connection_header(all[i])) && (crate::proxy::is_named(
                all[i],
                "host"@,
            ) ==> all[i] == hostline) by {
                if i < prev.len() {
                    assert(all[i] == prev[i]);
                } else {
                    assert(all[i] == xx);
                }
            }
        } else {
            assert(all =~= prev);
        }
        if exists|j: int| 0 <= j < hs.len() && crate::proxy::is_named(#[trigger] hs[j], "host"@) {
            let j = choose|j: int| 0 <= j < hs.len() && crate::proxy::is_named(#[trigger] hs[j], "host"@);
            if j < init.len() {
                assert(init[j] == hs[j]);
                let k = choose|k: int| 0 <= k < prev.len() && prev[k] == hostline;
                assert(all[k] == prev[k]);
            } else {
                assert(r == hostline + crlf());
                assert(r.take(r.len() - 2) =~= hostline);
                assert(all[prev.len() as int] == hostline);
            }
        }
    }
}

/// The text of the header lines: a non-empty `ls` joined and followed by
/// CRLF, then the rendered headers, is the join of `ls` and the rendered
/// lines, followed by CRLF.
proof fn lemma_join_rendered(ls: Seq<Seq<char>>, hs: Seq<Seq<char>>, upgrade: bool, authority: Seq<
    char,
>)
    requires
        ls.len() >= 1,
    ensures
        joined(ls) + crlf() + render_headers(hs, upgrade, authority) == joined(
            ls + rendered_lines(hs, upgrade, authority),
        ) + crlf(),
    decreases hs.len(),
{
    if hs.len() == 0 {
        assert(ls + rendered_lines(hs, upgrade, authority) =~= ls);
        assert(joined(ls) + crlf() + render_headers(hs, upgrade, authority) =~= joined(ls)
            + crlf());
    } else {
        let init = hs.drop_last();
        lemma_join_rendered(ls, init, upgrade, authority);
        let r = render_header(hs.last(), upgrade, authority);
        let prev = ls + rendered_lines(init, upgrade, authority);
        if r.len() == 0 {
            assert(ls + rendered_lines(hs, upgrade, authority) =~= prev);
            assert(render_headers(hs, upgrade, authority) =~= render_headers(
                init,
                upgrade,
                authority,
            ));
        } else {
            let x = r.take(r.len() - 2);
            crate::proxy::law_no_client_connection_header(hs.last(), authority);
            assert(r =~= x + crlf()) by {
                lemma_render_ends_crlf(hs.last(), upgrade, authority);
            }
            let next = prev.push(x);
            assert(ls + rendered_lines(hs, upgrade, authority) =~= next);
            assert(next.drop_last() =~= prev);
            assert(joined(next) == joined(prev) + crlf() + x);
            assert(joined(ls) + crlf() + render_headers(hs, upgrade, authority) =~= joined(prev)
                + crlf() + x + crlf());
        }
    }
}

proof fn lemma_render_ends_crlf(line: Seq<char>, upgrade: bool, authority: Seq<char>)
    ensures
        ({
            let r = render_header(line, upgrade, authority);
            r.len() == 0 || (r.len() >= 2 && r == r.take(r.len() - 2) + crlf())
        }),
{
    let r = render_header(line, upgrade, authority);
    if r.len() > 0 {
        assert(r.skip(r.len() - 2) =~= crlf());
        assert(r =~= r.take(r.len() - 2) + crlf());
    }
}

/// The injected lines at the end of the header lines: the cookie line, and
/// `connection: close` unless the request upgrades.
pub open spec fn injected_lines(cookie: Seq<char>, upgrade: bool) -> Seq<Seq<char>> {
    if upgrade {
        seq!["cookie: "@ + cookie]
    } else {
        seq!["cookie: "@ + cookie, "connection: close"@]
    }
}

/// The header lines of the rewritten head: what it holds before its final
/// empty line, split on CRLF, after the request line.
pub open spec fn output_header_lines(head: Seq<char>, cookie: Seq<char>, authority: Seq<char>) -> Seq<
    Seq<char>,
> {
    split(strip_suffix(rewrite_head_spec(head, cookie, authority), head_terminator())->0, crlf()).drop_first()
}

proof fn lemma_output_header_lines(head: Seq<char>, cookie: Seq<char>, authority: Seq<char>)
    requires
        no_line_break(cookie),
        no_line_break(authority),
    ensures
        strip_suffix(rewrite_head_spec(head, cookie, authority), head_terminator()) is Some,
        forall|i: int|
            0 <= i < head_lines(head).drop_first().len() ==> crlf_free(
                #[trigger] head_lines(head).drop_first()[i],
            ),
        output_header_lines(head, cookie, authority) == rendered_lines(
            head_lines(head).drop_first(),
            has_upgrade(head_lines(head).drop_first()),
            authority,
        ) + injected_lines(cookie, has_upgrade(head_lines(head).drop_first())),
{
    reveal_strlit("cookie: ");
    reveal_strlit("connection: close\r\n");
    reveal_strlit("connection: close");
    let body = match strip_suffix(head, head_terminator()) {
        Some(b) => b,
        None => head,
    };
    lemma_split_pieces(body, 0, 0, false);
    crate::proxy::lemma_split_from_nonempty(body, crlf(), 0, 0);
    let lines = head_lines(head);
    assert(lines == split(body, crlf()));
    let headers = lines.drop_first();
    assert forall|i: int| 0 <= i < headers.len() implies crlf_free(#[trigger] headers[i]) by {
        assert(headers[i] == lines[i + 1]);
    }
    let upgrade = has_upgrade(headers);
    let first = seq![lines[0]];
    lemma_join_rendered(first, headers, upgrade, authority);
    lemma_rendered_lines(headers, upgrade, authority);
    let rl = rendered_lines(headers, upgrade, authority);
    let cl = "cookie: "@ + cookie;
    let close = "connection: close"@;
    let base = first + rl;
    let ls = if upgrade {
        base.push(cl)
    } else {
        base.push(cl).push(close)
    };
    assert(joined(first) == lines[0]);
    let out = rewrite_head_spec(head, cookie, authority);
    assert(joined(base.push(cl)) == joined(base) + crlf() + cl) by {
        assert(base.push(cl).drop_last() =~= base);
    }
    if !upgrade {
        assert(joined(ls) == joined(base.push(cl)) + crlf() + close) by {
            assert(ls.drop_last() =~= base.push(cl));
        }
        assert("connection: close\r\n"@ =~= close + crlf());
    }
    assert(out =~= joined(ls) + crlf() + crlf());
    let text = joined(ls);
    assert(out.skip(out.len() - 4) =~= head_terminator());
    assert(strip_suffix(out, head_terminator()) == Some(out.take(out.len() - 4)));
    assert(out.take(out.len() - 4) =~= text);
    assert(no_line_break("cookie: "@));
    lemma_concat_no_line_break("cookie: "@, cookie);
    lemma_no_line_break_crlf_free(cl);
    assert(no_line_break(close));
    lemma_no_line_break_crlf_free(close);
    assert forall|i: int| 0 <= i < ls.len() implies crlf_free(#[trigger] ls[i]) by {
        if i == 0 {
            assert(ls[i] == lines[0]);
        } else if i < base.len() {
            assert(ls[i] == rl[i - 1]);
        } else if i == base.len() {
            assert(ls[i] == cl);
        } else {
            assert(ls[i] == close);
        }
    }
    assert(text.subrange(0, text.len() as int) =~= text);
    lemma_split_joined(text, 0, ls);
    assert(ls.drop_first() =~= rl + injected_lines(cookie, upgrade));
}

/// Law of the keep-alive fence over the whole head: for any head, when the
/// request does not upgrade and the authentication material holds no line
/// break, the header lines that dsh receives (the rewritten head without its
/// final empty line, split on CRLF, after the request line) end with the
/// injected `cookie: ...` and `connection: close`, and no other of them is a
/// `Connection` or `Proxy-Connection` line. A WebSocket upgrade ends with
/// the injected cookie line instead.
pub proof fn law_rewritten_header_lines(head: Seq<char>, cookie: Seq<char>, authority: Seq<char>)
    requires
        no_line_break(cookie),
        no_line_break(authority),
    ensures
        ({
            let out = rewrite_head_spec(head, cookie, authority);
            let upgrade = has_upgrade(head_lines(head).drop_first());
            &&& strip_suffix(out, head_terminator()) is Some
            &&& {
                let hl = split(strip_suffix(out, head_terminator())->0, crlf()).drop_first();
                &&& !upgrade ==> {
                    &&& hl.len() >= 2
                    &&& hl[hl.len() - 2] == "cookie: "@ + cookie
                    &&& hl.last() == "connection: close"@
                    &&& forall|i: int|
                        0 <= i < hl.len() - 2 ==> !crate::proxy::is_connection_header(
                            #[trigger] hl[i],
                        )
                }
                &&& upgrade ==> hl.len() >= 1 && hl.last() == "cookie: "@ + cookie
            }
        }),
{
    lemma_output_header_lines(head, cookie, authority);
    let headers = head_lines(head).drop_first();
    let upgrade = has_upgrade(headers);
    lemma_rendered_lines(headers, upgrade, authority);
    let rl = rendered_lines(headers, upgrade, authority);
    let hl = output_header_lines(head, cookie, authority);
    if !upgrade {
        assert forall|i: int| 0 <= i < hl.len() - 2 implies !crate::proxy::is_connection_header(
            #[trigger] hl[i],
        ) by {
            assert(hl[i] == rl[i]);
        }
    }
}

/// Law of the Host rewrite over the whole head: for any head, upgrade or
/// not, with authentication material free of line breaks, every header line
/// that dsh receives under the name Host (any ASCII case) is exactly
/// `host: <authority>`, and when the request carried a Host line, such a
/// line is there. The phone-side Host never reaches dsh.
pub proof fn law_host_lines(head: Seq<char>, cookie: Seq<char>, authority: Seq<char>)
    requires
        no_line_break(cookie),
        no_line_break(authority),
    ensures
        ({
            let hl = output_header_lines(head, cookie, authority);
            &&& forall|i: int|
                0 <= i < hl.len() && crate::proxy::is_named(#[trigger] hl[i], "host"@) ==> hl[i]
                    == "host: "@ + authority
            &&& (exists|j: int|
                0 <= j < head_lines(head).drop_first().len() && crate::proxy::is_named(
                    #[trigger] head_lines(head).drop_first()[j],
                    "host"@,
                )) ==> hl.contains("host: "@ + authority)
        }),
{
    reveal_strlit("cookie: ");
    reveal_strlit("cookie");
    reveal_strlit("connection: close");
    reveal_strlit("connection");
    reveal_strlit("host");
    lemma_output_header_lines(head, cookie, authority);
    let headers = head_lines(head).drop_first();
    let upgrade = has_upgrade(headers);
    lemma_rendered_lines(headers, upgrade, authority);
    let rl = rendered_lines(headers, upgrade, authority);
    let inj = injected_lines(cookie, upgrade);
    let hl = output_header_lines(head, cookie, authority);
    let cl = "cookie: "@ + cookie;
    assert(cl =~= "cookie"@ + seq![':'] + (seq![' '] + cookie));
    crate::proxy::lemma_header_name("cookie"@, seq![' '] + cookie, "host"@);
    let close = "connection: close"@;
    assert(close =~= "connection"@ + seq![':'] + " close"@) by {
        reveal_strlit(" close");
    }
    crate::proxy::lemma_header_name("connection"@, " close"@, "host"@);
    assert forall|i: int|
        0 <= i < hl.len() && crate::proxy::is_named(#[trigger] hl[i], "host"@) implies hl[i]
        == "host: "@ + authority by {
        if i < rl.len() {
            assert(hl[i] == rl[i]);
        } else if i == rl.len() {
            assert(hl[i] == cl);
        } else {
            assert(hl[i] == close);
        }
    }
    if exists|j: int|
        0 <= j < headers.len() && crate::proxy::is_named(#[trigger] headers[j], "host"@) {
        let k = choose|k: int| 0 <= k < rl.len() && rl[k] == "host: "@ + authority;
        assert(hl[k] == rl[k]);
    }
}

} // verus!
