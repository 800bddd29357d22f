//! Character-level text primitives shared by the protocol code: the
//! mathematical meaning of trimming, case-insensitive comparison, splitting,
//! and decimal numbers over `Seq<char>`, and the executable routines that
//! compute them on `Vec<char>` ranges.
use vstd::prelude::*;

verus! {

broadcast use vstd::string::group_string_axioms;

// ---------------------------------------------------------------------------
// Character classes
// ---------------------------------------------------------------------------

/// The Unicode `White_Space` property, as listed in PropList.txt.
pub open spec fn is_white_space(c: char) -> bool {
    let u = c as u32;
    ||| 0x09 <= u && u <= 0x0D
    ||| u == 0x20
    ||| u == 0x85
    ||| u == 0xA0
    ||| u == 0x1680
    ||| 0x2000 <= u && u <= 0x200A
    ||| u == 0x2028
    ||| u == 0x2029
    ||| u == 0x202F
    ||| u == 0x205F
    ||| u == 0x3000
}

/// Whether `c` has the Unicode `White_Space` property, the class that
/// `char::is_whitespace` of std tests.
pub(crate) fn char_is_whitespace(c: char) -> (b: bool)
    ensures
        b == is_white_space(c),
{
    let u: u32 = c as u32;
    (0x09 <= u && u <= 0x0D) || u == 0x20 || u == 0x85 || u == 0xA0 || u == 0x1680 || (0x2000
        <= u && u <= 0x200A) || u == 0x2028 || u == 0x2029 || u == 0x202F || u == 0x205F || u
        == 0x3000
}

/// Calls `String::push` of std, which appends one character.
#[verifier::external_body]
pub(crate) fn string_push(s: &mut String, c: char)
    ensures
        final(s)@ == old(s)@.push(c),
{
    s.push(c);
}

pub open spec fn ascii_lower(c: char) -> char {
    if 'A' <= c && c <= 'Z' {
        ((c as u32) + 32) as char
    } else {
        c
    }
}

pub open spec fn is_ascii_digit(c: char) -> bool {
    '0' <= c && c <= '9'
}

pub open spec fn digit_value(c: char) -> int {
    (c as int) - ('0' as int)
}

/// The character of a decimal digit `d < 10`.
pub open spec fn digit_char(d: int) -> char {
    (d + ('0' as int)) as char
}

pub fn to_ascii_lower(c: char) -> (r: char)
    ensures
        r == ascii_lower(c),
{
    if 'A' <= c && c <= 'Z' {
        let b: u8 = (c as u32 + 32) as u8;
        b as char
    } else {
        c
    }
}

// ---------------------------------------------------------------------------
// Sequences of characters
// ---------------------------------------------------------------------------

pub open spec fn starts_with(s: Seq<char>, p: Seq<char>) -> bool {
    p.len() <= s.len() && s.take(p.len() as int) == p
}

pub open spec fn ends_with(s: Seq<char>, p: Seq<char>) -> bool {
    p.len() <= s.len() && s.skip(s.len() - p.len()) == p
}

/// `str::strip_suffix`: `s` without `p` at its end, if it ends with `p`.
pub open spec fn strip_suffix(s: Seq<char>, p: Seq<char>) -> Option<Seq<char>> {
    if ends_with(s, p) {
        Some(s.take(s.len() - p.len()))
    } else {
        None
    }
}

/// `str::strip_prefix`.
pub open spec fn strip_prefix(s: Seq<char>, p: Seq<char>) -> Option<Seq<char>> {
    if starts_with(s, p) {
        Some(s.skip(p.len() as int))
    } else {
        None
    }
}

/// Both sequences agree after ASCII lowercasing (`str::eq_ignore_ascii_case`).
pub open spec fn eq_ignore_ascii_case(a: Seq<char>, b: Seq<char>) -> bool {
    a.len() == b.len() && forall|i: int| 0 <= i < a.len() ==> ascii_lower(#[trigger] a[i]) == ascii_lower(b[i])
}

pub open spec fn lowercase(s: Seq<char>) -> Seq<char> {
    s.map_values(|c: char| ascii_lower(c))
}

/// Leading white space removed.
pub open spec fn trim_start(s: Seq<char>) -> Seq<char>
    decreases s.len(),
{
    if s.len() > 0 && is_white_space(s[0]) {
        trim_start(s.drop_first())
    } else {
        s
    }
}

/// Trailing white space removed.
pub open spec fn trim_end(s: Seq<char>) -> Seq<char>
    decreases s.len(),
{
    if s.len() > 0 && is_white_space(s.last()) {
        trim_end(s.drop_last())
    } else {
        s
    }
}

/// `str::trim`: leading and trailing white space removed.
pub open spec fn trim(s: Seq<char>) -> Seq<char> {
    trim_end(trim_start(s))
}

/// `p` occurs in `s` at index `i`.
pub open spec fn matches_at(s: Seq<char>, p: Seq<char>, i: int) -> bool {
    0 <= i && i + p.len() <= s.len() && s.subrange(i, i + p.len()) == p
}

/// The first index `>= i` at which `p` occurs in `s`.
pub open spec fn find_from(s: Seq<char>, p: Seq<char>, i: int) -> Option<int>
    decreases s.len() + 1 - i,
{
    if i < 0 || i + p.len() > s.len() {
        None
    } else if matches_at(s, p, i) {
        Some(i)
    } else {
        find_from(s, p, i + 1)
    }
}

/// The first index at which `p` occurs in `s` (`str::find`).
pub open spec fn find(s: Seq<char>, p: Seq<char>) -> Option<int> {
    find_from(s, p, 0)
}

/// The pieces of `s[start..]` between non-overlapping occurrences of `p`,
/// scanning from `i`.
pub open spec fn split_from(s: Seq<char>, p: Seq<char>, start: int, i: int) -> Seq<Seq<char>>
    decreases s.len() + 1 - i,
{
    if p.len() == 0 || i < start || start < 0 || i + p.len() > s.len() {
        seq![s.subrange(start, s.len() as int)]
    } else if matches_at(s, p, i) {
        seq![s.subrange(start, i)] + split_from(s, p, i + p.len(), i + p.len())
    } else {
        split_from(s, p, start, i + 1)
    }
}

/// `str::split` with a non-empty pattern: the pieces between the
/// occurrences of `p`, always at least one.
pub open spec fn split(s: Seq<char>, p: Seq<char>) -> Seq<Seq<char>> {
    split_from(s, p, 0, 0)
}

/// The piece before the first occurrence of `p`, or all of `s`
/// (`s.split(p).next()`).
pub open spec fn before_first(s: Seq<char>, p: Seq<char>) -> Seq<char> {
    match find(s, p) {
        Some(j) => s.take(j),
        None => s,
    }
}

/// `str::split_once`: the parts before and after the first occurrence of `p`.
pub open spec fn split_once(s: Seq<char>, p: Seq<char>) -> Option<(Seq<char>, Seq<char>)> {
    match find(s, p) {
        Some(j) => Some((s.take(j), s.skip(j + p.len()))),
        None => None,
    }
}

pub open spec fn all_digits(s: Seq<char>) -> bool {
    forall|i: int| 0 <= i < s.len() ==> is_ascii_digit(#[trigger] s[i])
}

/// The number that a string of decimal digits denotes.
pub open spec fn digits_value(s: Seq<char>) -> int
    decreases s.len(),
{
    if s.len() == 0 {
        0
    } else {
        digits_value(s.drop_last()) * 10 + digit_value(s.last())
    }
}

/// The shortest decimal representation of `n`.
pub open spec fn decimal(n: nat) -> Seq<char>
    decreases n,
{
    if n < 10 {
        seq![digit_char(n as int)]
    } else {
        decimal(n / 10).push(digit_char((n % 10) as int))
    }
}

/// `n` in decimal, padded with leading zeros to at least `width` characters
/// (`format!("{:0width$}", n)`).
pub open spec fn zero_padded(n: nat, width: nat) -> Seq<char> {
    let d = decimal(n);
    if d.len() >= width {
        d
    } else {
        Seq::new((width - d.len()) as nat, |_i: int| '0') + d
    }
}

/// A line piece with the carriage return before its newline removed.
pub open spec fn strip_cr(s: Seq<char>) -> Seq<char> {
    if s.len() > 0 && s.last() == '\r' {
        s.drop_last()
    } else {
        s
    }
}

/// The lines of `pieces` (the split of a text at `\n`) as `str::lines`
/// yields them: each piece followed by a newline loses a trailing `\r`, and
/// the piece after the last newline counts only when it is not empty.
pub open spec fn lines_of_pieces(pieces: Seq<Seq<char>>) -> Seq<Seq<char>> {
    let n = pieces.len();
    if n == 0 {
        Seq::empty()
    } else {
        let body = Seq::new((n - 1) as nat, |i: int| strip_cr(pieces[i]));
        if pieces[n - 1].len() == 0 {
            body
        } else {
            body.push(pieces[n - 1])
        }
    }
}

/// `str::lines`.
pub open spec fn text_lines(s: Seq<char>) -> Seq<Seq<char>> {
    lines_of_pieces(split(s, seq!['\n']))
}

/// The end of the word that starts at `i`: the first white space at or after
/// `i`, or the end of `s`.
pub open spec fn word_end(s: Seq<char>, i: int) -> int
    decreases s.len() - i,
{
    if i < 0 || i >= s.len() || is_white_space(s[i]) {
        i
    } else {
        word_end(s, i + 1)
    }
}

pub proof fn lemma_word_end_bounds(s: Seq<char>, i: int)
    requires
        0 <= i <= s.len(),
    ensures
        i <= word_end(s, i) <= s.len(),
        i < s.len() && !is_white_space(s[i]) ==> word_end(s, i) > i,
    decreases s.len() - i,
{
    if i < s.len() && !is_white_space(s[i]) {
        lemma_word_end_bounds(s, i + 1);
    }
}

/// The words of `s[i..]`: its maximal runs of characters that are not white
/// space, in order.
pub open spec fn words_from(s: Seq<char>, i: int) -> Seq<Seq<char>>
    decreases s.len() - i,
{
    if i < 0 || i >= s.len() {
        Seq::empty()
    } else if is_white_space(s[i]) {
        words_from(s, i + 1)
    } else {
        let e = word_end(s, i);
        proof {
            lemma_word_end_bounds(s, i);
        }
        seq![s.subrange(i, e)] + words_from(s, e)
    }
}

/// `str::split_whitespace`.
pub open spec fn words(s: Seq<char>) -> Seq<Seq<char>> {
    words_from(s, 0)
}

/// The sequences that a list of index ranges selects from `v`.
pub open spec fn pieces(v: Seq<char>, rs: Seq<(usize, usize)>) -> Seq<Seq<char>> {
    rs.map_values(|r: (usize, usize)| v.subrange(r.0 as int, r.1 as int))
}

// ---------------------------------------------------------------------------
// Lemmas
// ---------------------------------------------------------------------------

pub proof fn lemma_decimal_digits(n: nat)
    ensures
        decimal(n).len() >= 1,
        all_digits(decimal(n)),
        digits_value(decimal(n)) == n,
    decreases n,
{
    let k = (n % 10) as int;
    assert(digit_value(digit_char(k)) == k);
    if n < 10 {
        let d = decimal(n);
        assert(d.drop_last() =~= Seq::<char>::empty());
        assert(digits_value(Seq::<char>::empty()) == 0);
    } else {
        lemma_decimal_digits(n / 10);
        let d = decimal(n);
        assert(d.drop_last() =~= decimal(n / 10));
        assert forall|i: int| 0 <= i < d.len() implies is_ascii_digit(#[trigger] d[i]) by {
            if i < d.len() - 1 {
                assert(d[i] == decimal(n / 10)[i]);
            }
        }
    }
}

pub proof fn lemma_decimal_len_small(n: nat)
    ensures
        n < 10 ==> decimal(n).len() == 1,
        n < 100 ==> decimal(n).len() <= 2,
        n < 1000 ==> decimal(n).len() <= 3,
        n < 10000 ==> decimal(n).len() <= 4,
        n < 100000 ==> decimal(n).len() <= 5,
        n < 1000000 ==> decimal(n).len() <= 6,
    decreases n,
{
    if n >= 10 {
        lemma_decimal_len_small(n / 10);
    }
}

// ---------------------------------------------------------------------------
// Executable routines
// ---------------------------------------------------------------------------

/// The characters of a string slice.
pub fn chars_of(s: &str) -> (v: Vec<char>)
    ensures
        v@ == s@,
{
    let mut v: Vec<char> = Vec::new();
    for c in it: s.chars()
        invariant
            v@ == it.seq().take(it.index() as int),
    {
        v.push(c);
    }
    assert(v@ =~= s@);
    v
}

/// Appends the characters of `s` to `out`.
pub fn push_str(out: &mut Vec<char>, s: &str)
    ensures
        final(out)@ == old(out)@ + s@,
{
    let ghost start = out@;
    for c in it: s.chars()
        invariant
            out@ == start + it.seq().take(it.index() as int),
    {
        out.push(c);
    }
    assert(out@ =~= start + s@);
}

/// Appends `v[lo..hi]` to `out`.
pub fn push_range(out: &mut Vec<char>, v: &Vec<char>, lo: usize, hi: usize)
    requires
        lo <= hi <= v.len(),
    ensures
        final(out)@ == old(out)@ + v@.subrange(lo as int, hi as int),
{
    let ghost start = out@;
    let mut i = lo;
    while i < hi
        invariant
            lo <= i <= hi <= v.len(),
            out@ == start + v@.subrange(lo as int, i as int),
        decreases hi - i,
    {
        out.push(v[i]);
        i = i + 1;
        assert(out@ =~= start + v@.subrange(lo as int, i as int));
    }
}

/// A `String` holding exactly the characters of `v`.
pub fn string_of(v: &Vec<char>) -> (s: String)
    ensures
        s@ == v@,
{
    let mut s = String::new();
    let mut i: usize = 0;
    while i < v.len()
        invariant
            i <= v.len(),
            s@ == v@.take(i as int),
        decreases v.len() - i,
    {
        string_push(&mut s, v[i]);
        i = i + 1;
        assert(s@ =~= v@.take(i as int));
    }
    assert(v@.take(v.len() as int) =~= v@);
    s
}

/// Whether `p` occurs in `v[lo..hi]` at relative position `i - lo`.
pub fn matches_at_range(v: &Vec<char>, lo: usize, hi: usize, p: &Vec<char>, i: usize) -> (b: bool)
    requires
        lo <= i <= hi <= v.len(),
    ensures
        b == matches_at(v@.subrange(lo as int, hi as int), p@, i - lo),
{
    let ghost s = v@.subrange(lo as int, hi as int);
    if p.len() > hi - i {
        return false;
    }
    let mut k: usize = 0;
    while k < p.len()
        invariant
            lo <= i <= hi <= v.len(),
            p.len() <= hi - i,
            k <= p.len(),
            s == v@.subrange(lo as int, hi as int),
            forall|m: int| 0 <= m < k ==> v@[i + m] == p@[m],
        decreases p.len() - k,
    {
        if v[i + k] != p[k] {
            assert(s.subrange(i - lo, i - lo + p.len())[k as int] == v@[i + k]);
            return false;
        }
        k = k + 1;
    }
    assert(s.subrange(i - lo, i - lo + p.len()) =~= p@);
    true
}

/// The first occurrence of `p` in `v[lo..hi]`, as an absolute index.
pub fn find_in(v: &Vec<char>, lo: usize, hi: usize, p: &Vec<char>) -> (r: Option<usize>)
    requires
        lo <= hi <= v.len(),
        p.len() > 0,
    ensures
        match r {
            Some(j) => lo <= j && j + p.len() <= hi && find(v@.subrange(lo as int, hi as int), p@)
                == Some(j - lo),
            None => find(v@.subrange(lo as int, hi as int), p@) is None,
        },
{
    let ghost s = v@.subrange(lo as int, hi as int);
    let mut i = lo;
    while i < hi && p.len() <= hi - i
        invariant
            lo <= i <= hi <= v.len(),
            s == v@.subrange(lo as int, hi as int),
            find_from(s, p@, 0) == find_from(s, p@, i - lo),
            p.len() > 0,
        decreases hi - i,
    {
        if matches_at_range(v, lo, hi, p, i) {
            assert(find_from(s, p@, i - lo) == Some(i - lo));
            return Some(i);
        }
        i = i + 1;
    }
    None
}

/// The index ranges of `split(v[lo..hi], p)`, for a non-empty `p`.
pub fn split_ranges(v: &Vec<char>, lo: usize, hi: usize, p: &Vec<char>) -> (rs: Vec<(usize, usize)>)
    requires
        lo <= hi <= v.len(),
        p.len() > 0,
    ensures
        pieces(v@, rs@) == split(v@.subrange(lo as int, hi as int), p@),
        forall|k: int| 0 <= k < rs.len() ==> lo <= (#[trigger] rs@[k]).0 <= rs@[k].1 <= hi,
{
    let ghost s = v@.subrange(lo as int, hi as int);
    let mut rs: Vec<(usize, usize)> = Vec::new();
    let mut start = lo;
    let mut i = lo;
    while i < hi && p.len() <= hi - i
        invariant
            lo <= start <= i <= hi <= v.len(),
            p.len() > 0,
            s == v@.subrange(lo as int, hi as int),
            pieces(v@, rs@) + split_from(s, p@, start - lo, i - lo) == split(s, p@),
            forall|k: int| 0 <= k < rs.len() ==> lo <= (#[trigger] rs@[k]).0 <= rs@[k].1 <= hi,
        decreases hi - i,
    {
        if matches_at_range(v, lo, hi, p, i) {
            let ghost before = pieces(v@, rs@);
            let ghost old_start = start;
            let ghost old_i = i;
            rs.push((start, i));
            assert(pieces(v@, rs@) =~= before.push(v@.subrange(start as int, i as int)));
            assert(s.subrange(start - lo, i - lo) =~= v@.subrange(start as int, i as int));
            i = i + p.len();
            start = i;
            assert(split_from(s, p@, old_start - lo, old_i - lo) == seq![
                s.subrange(old_start - lo, old_i - lo)
            ] + split_from(s, p@, start - lo, i - lo));
            assert(pieces(v@, rs@) + split_from(s, p@, start - lo, i - lo) =~= before + (seq![
                s.subrange(old_start - lo, old_i - lo)
            ] + split_from(s, p@, start - lo, i - lo)));
        } else {
            i = i + 1;
        }
    }
    let ghost before = pieces(v@, rs@);
    rs.push((start, hi));
    assert(s.subrange(start - lo, s.len() as int) =~= v@.subrange(start as int, hi as int));
    assert(pieces(v@, rs@) =~= before + seq![v@.subrange(start as int, hi as int)]);
    rs
}

/// The index ranges of `text_lines(v[lo..hi])`.
pub fn line_ranges(v: &Vec<char>, lo: usize, hi: usize) -> (rs: Vec<(usize, usize)>)
    requires
        lo <= hi <= v.len(),
    ensures
        pieces(v@, rs@) == text_lines(v@.subrange(lo as int, hi as int)),
        forall|k: int| 0 <= k < rs.len() ==> lo <= (#[trigger] rs@[k]).0 <= rs@[k].1 <= hi,
{
    let nl = vec!['\n'];
    assert(nl@ =~= seq!['\n']);
    let ps = split_ranges(v, lo, hi, &nl);
    let ghost all = pieces(v@, ps@);
    let mut rs: Vec<(usize, usize)> = Vec::new();
    let n = ps.len();
    if n == 0 {
        assert(pieces(v@, rs@) =~= text_lines(v@.subrange(lo as int, hi as int)));
        return rs;
    }
    let mut k: usize = 0;
    while k + 1 < n
        invariant
            n == ps.len(),
            n >= 1,
            k < n,
            all == pieces(v@, ps@),
            forall|m: int| 0 <= m < ps.len() ==> lo <= (#[trigger] ps@[m]).0 <= ps@[m].1 <= hi,
            hi <= v.len(),
            rs.len() == k,
            forall|m: int| 0 <= m < rs.len() ==> lo <= (#[trigger] rs@[m]).0 <= rs@[m].1 <= hi,
            forall|m: int| 0 <= m < k ==> #[trigger] pieces(v@, rs@)[m] == strip_cr(all[m]),
        decreases n - k,
    {
        let (a, b) = ps[k];
        assert(all[k as int] == v@.subrange(a as int, b as int));
        let e = if b > a && v[b - 1] == '\r' {
            assert(all[k as int].drop_last() =~= v@.subrange(a as int, b - 1));
            b - 1
        } else {
            b
        };
        assert(v@.subrange(a as int, e as int) == strip_cr(all[k as int]));
        let ghost before = rs@;
        rs.push((a, e));
        assert forall|m: int| 0 <= m < k + 1 implies #[trigger] pieces(v@, rs@)[m] == strip_cr(
            all[m],
        ) by {
            if m < k {
                assert(pieces(v@, rs@)[m] == pieces(v@, before)[m]);
            }
        }
        k = k + 1;
    }
    let (a, b) = ps[n - 1];
    assert(all[n - 1] == v@.subrange(a as int, b as int));
    let ghost body = Seq::new((n - 1) as nat, |i: int| strip_cr(all[i]));
    assert(pieces(v@, rs@) =~= body);
    if a < b {
        rs.push((a, b));
        assert(pieces(v@, rs@) =~= body.push(all[n - 1]));
    }
    rs
}

/// The range of word number `n` (from zero) of `v[lo..hi]`, if it has that
/// many words.
pub fn nth_word(v: &Vec<char>, lo: usize, hi: usize, n: usize) -> (r: Option<(usize, usize)>)
    requires
        lo <= hi <= v.len(),
    ensures
        match r {
            Some((a, b)) => lo <= a <= b <= hi && n < words(v@.subrange(lo as int, hi as int)).len()
                && words(v@.subrange(lo as int, hi as int))[n as int] == v@.subrange(a as int, b as int),
            None => n >= words(v@.subrange(lo as int, hi as int)).len(),
        },
{
    let ghost s = v@.subrange(lo as int, hi as int);
    let ghost mut found: Seq<Seq<char>> = Seq::empty();
    let mut k: usize = 0;
    let mut i = lo;
    while i < hi
        invariant
            lo <= i <= hi <= v.len(),
            s == v@.subrange(lo as int, hi as int),
            found.len() == k,
            k <= n,
            words(s) == found + words_from(s, i - lo),
        decreases hi - i,
    {
        if char_is_whitespace(v[i]) {
            i = i + 1;
        } else {
            let start = i;
            let mut j = i;
            while j < hi && !char_is_whitespace(v[j])
                invariant
                    start <= j <= hi <= v.len(),
                    lo <= start,
                    s == v@.subrange(lo as int, hi as int),
                    word_end(s, start - lo) == word_end(s, j - lo),
                decreases hi - j,
            {
                j = j + 1;
            }
            proof {
                lemma_word_end_bounds(s, start - lo);
                assert(s.subrange(start - lo, j - lo) =~= v@.subrange(start as int, j as int));
            }
            if k == n {
                return Some((start, j));
            }
            proof {
                found = found.push(v@.subrange(start as int, j as int));
            }
            k = k + 1;
            i = j;
        }
    }
    None
}

/// The range of `trim(v[lo..hi])` within `v`.
pub fn trim_range(v: &Vec<char>, lo: usize, hi: usize) -> (r: (usize, usize))
    requires
        lo <= hi <= v.len(),
    ensures
        lo <= r.0 <= r.1 <= hi,
        v@.subrange(r.0 as int, r.1 as int) == trim(v@.subrange(lo as int, hi as int)),
{
    let mut i = lo;
    while i < hi && char_is_whitespace(v[i])
        invariant
            lo <= i <= hi <= v.len(),
            trim_start(v@.subrange(lo as int, hi as int)) == trim_start(v@.subrange(i as int, hi as int)),
        decreases hi - i,
    {
        assert(v@.subrange(i as int, hi as int).drop_first() =~= v@.subrange(i + 1, hi as int));
        i = i + 1;
    }
    let mut j = hi;
    while j > i && char_is_whitespace(v[j - 1])
        invariant
            lo <= i <= j <= hi <= v.len(),
            trim_start(v@.subrange(lo as int, hi as int)) == v@.subrange(i as int, hi as int),
            trim(v@.subrange(lo as int, hi as int)) == trim_end(v@.subrange(i as int, j as int)),
        decreases j - i,
    {
        assert(v@.subrange(i as int, j as int).drop_last() =~= v@.subrange(i as int, j - 1));
        j = j - 1;
    }
    (i, j)
}

/// Whether `v[lo..hi]` and `name` agree up to ASCII case.
pub fn eq_ignore_case_range(v: &Vec<char>, lo: usize, hi: usize, name: &Vec<char>) -> (b: bool)
    requires
        lo <= hi <= v.len(),
    ensures
        b == eq_ignore_ascii_case(v@.subrange(lo as int, hi as int), name@),
{
    let ghost s = v@.subrange(lo as int, hi as int);
    if hi - lo != name.len() {
        return false;
    }
    let mut k: usize = 0;
    while k < name.len()
        invariant
            lo <= hi <= v.len(),
            hi - lo == name.len(),
            k <= name.len(),
            s == v@.subrange(lo as int, hi as int),
            forall|m: int| 0 <= m < k ==> ascii_lower(#[trigger] s[m]) == ascii_lower(name@[m]),
        decreases name.len() - k,
    {
        if to_ascii_lower(v[lo + k]) != to_ascii_lower(name[k]) {
            assert(s[k as int] == v@[lo + k]);
            return false;
        }
        assert(s[k as int] == v@[lo + k]);
        k = k + 1;
    }
    true
}

/// Whether `v[lo..hi]` equals `p`.
pub fn eq_range(v: &Vec<char>, lo: usize, hi: usize, p: &Vec<char>) -> (b: bool)
    requires
        lo <= hi <= v.len(),
    ensures
        b == (v@.subrange(lo as int, hi as int) == p@),
{
    if hi - lo != p.len() {
        return false;
    }
    let b = matches_at_range(v, lo, hi, p, lo);
    assert(v@.subrange(lo as int, hi as int).subrange(0, p.len() as int) =~= v@.subrange(
        lo as int,
        hi as int,
    ));
    b
}

/// Appends the decimal representation of `n` to `out`.
pub fn push_decimal(out: &mut Vec<char>, n: u64)
    ensures
        final(out)@ == old(out)@ + decimal(n as nat),
    decreases n,
{
    let ghost start = out@;
    if n >= 10 {
        push_decimal(out, n / 10);
    }
    let d: u8 = (n % 10) as u8;
    let c: char = (d + 48) as char;
    out.push(c);
    assert(c == digit_char((n % 10) as int));
    if n >= 10 {
        assert(decimal(n as nat) == decimal((n / 10) as nat).push(digit_char((n % 10) as int)));
    }
    assert(out@ =~= start + decimal(n as nat));
}

/// Appends `n` padded with zeros to at least `width` characters.
pub fn push_zero_padded(out: &mut Vec<char>, n: u64, width: usize)
    ensures
        final(out)@ == old(out)@ + zero_padded(n as nat, width as nat),
{
    let ghost start = out@;
    let mut digits: Vec<char> = Vec::new();
    push_decimal(&mut digits, n);
    assert(digits@ =~= decimal(n as nat));
    let mut k = digits.len();
    while k < width
        invariant
            digits@ == decimal(n as nat),
            digits.len() <= k,
            k <= width || k == digits.len(),
            out@ == start + Seq::new((k - digits.len()) as nat, |_i: int| '0'),
        decreases width - k,
    {
        out.push('0');
        k = k + 1;
        assert(out@ =~= start + Seq::new((k - digits.len()) as nat, |_i: int| '0'));
    }
    let ghost zeros = out@;
    push_range(out, &digits, 0, digits.len());
    assert(digits@.subrange(0, digits.len() as int) =~= digits@);
    if digits.len() >= width {
        assert(zeros =~= start);
        assert(out@ =~= start + zero_padded(n as nat, width as nat));
    } else {
        assert(out@ =~= start + zero_padded(n as nat, width as nat));
    }
}

/// The value of the decimal digits `v[lo..hi]`, when they are all digits and
/// the value is at most `bound`.
pub fn parse_digits(v: &Vec<char>, lo: usize, hi: usize, bound: u64) -> (r: Option<u64>)
    requires
        lo <= hi <= v.len(),
    ensures
        match r {
            Some(n) => all_digits(v@.subrange(lo as int, hi as int)) && n == digits_value(
                v@.subrange(lo as int, hi as int),
            ) && n <= bound,
            None => !all_digits(v@.subrange(lo as int, hi as int)) || digits_value(
                v@.subrange(lo as int, hi as int),
            ) > bound,
        },
{
    let ghost s = v@.subrange(lo as int, hi as int);
    let mut acc: u64 = 0;
    let mut i = lo;
    let mut over = false;
    while i < hi
        invariant
            lo <= i <= hi <= v.len(),
            s == v@.subrange(lo as int, hi as int),
            all_digits(s.take(i - lo)),
            !over ==> acc == digits_value(s.take(i - lo)) && acc <= bound,
            over ==> digits_value(s.take(i - lo)) > bound,
            digits_value(s.take(i - lo)) >= 0,
        decreases hi - i,
    {
        let c = v[i];
        if !('0' <= c && c <= '9') {
            assert(s[i - lo] == c);
            return None;
        }
        let d: u64 = (c as u32 - 48) as u64;
        assert(s.take(i - lo + 1).drop_last() =~= s.take(i - lo));
        assert(s.take(i - lo + 1).last() == c);
        assert(digits_value(s.take(i - lo + 1)) == digits_value(s.take(i - lo)) * 10 + d);
        if !over {
            if acc > bound / 10 {
                assert(acc * 10 > bound) by (nonlinear_arith)
                    requires
                        acc > bound / 10,
                ;
                over = true;
            } else {
                assert(acc * 10 <= bound) by (nonlinear_arith)
                    requires
                        acc <= bound / 10,
                ;
                let t = acc * 10;
                if d > bound - t {
                    over = true;
                } else {
                    acc = t + d;
                }
            }
        }
        i = i + 1;
        assert forall|m: int| 0 <= m < i - lo implies is_ascii_digit(#[trigger] s.take(i - lo)[m]) by {
            if m < i - lo - 1 {
                assert(s.take(i - lo)[m] == s.take(i - lo - 1)[m]);
            }
        }
    }
    assert(s.take(hi - lo) =~= s);
    if over {
        None
    } else {
        Some(acc)
    }
}

} // verus!
