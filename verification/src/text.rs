//! Character-level text model: whitespace, trimming, searching, line
//! splitting and UTF-8 widths, stated over `Seq<char>` and computed over
//! ranges of a `Vec<char>`.
use vstd::prelude::*;

verus! {

/// The Unicode `White_Space` property, the set that `char::is_whitespace`
/// and `str::trim` use.
pub open spec fn is_ws(c: char) -> bool {
    ||| c == '\t'
    ||| c == '\n'
    ||| c == '\x0B'
    ||| c == '\x0C'
    ||| c == '\r'
    ||| c == ' '
    ||| c == '\u{85}'
    ||| c == '\u{A0}'
    ||| c == '\u{1680}'
    ||| ('\u{2000}' <= c && c <= '\u{200A}')
    ||| c == '\u{2028}'
    ||| c == '\u{2029}'
    ||| c == '\u{202F}'
    ||| c == '\u{205F}'
    ||| c == '\u{3000}'
}

/// Decides `is_ws`.
pub fn is_whitespace_char(c: char) -> (r: bool)
    ensures
        r == is_ws(c),
{
    c == '\t' || c == '\n' || c == '\x0B' || c == '\x0C' || c == '\r' || c == ' ' || c
        == '\u{85}' || c == '\u{A0}' || c == '\u{1680}' || ('\u{2000}' <= c && c <= '\u{200A}')
        || c == '\u{2028}' || c == '\u{2029}' || c == '\u{202F}' || c == '\u{205F}' || c
        == '\u{3000}'
}

/// The first index in `k..hi` of `c` that holds no whitespace (or `hi`).
pub open spec fn ws_fwd(c: Seq<char>, k: int, hi: int) -> int
    decreases hi - k,
{
    if k < hi && is_ws(c[k]) {
        ws_fwd(c, k + 1, hi)
    } else {
        k
    }
}

/// The smallest `j` in `lo..=k` such that `c[j..k]` is all whitespace.
pub open spec fn ws_back(c: Seq<char>, lo: int, k: int) -> int
    decreases k - lo,
{
    if lo < k && is_ws(c[k - 1]) {
        ws_back(c, lo, k - 1)
    } else {
        k
    }
}

/// The bounds of `str::trim` applied to `c[lo..hi]`: leading and trailing
/// whitespace dropped.
pub open spec fn trim_bounds(c: Seq<char>, lo: int, hi: int) -> (int, int) {
    let e = ws_back(c, lo, hi);
    (ws_fwd(c, lo, e), e)
}

/// The first index in `k..hi` of `c` that holds `ch`.
pub open spec fn find_in(c: Seq<char>, ch: char, k: int, hi: int) -> Option<int>
    decreases hi - k,
{
    if k < hi {
        if c[k] == ch {
            Some(k)
        } else {
            find_in(c, ch, k + 1, hi)
        }
    } else {
        None
    }
}

/// Number of bytes that UTF-8 takes for `c`.
pub open spec fn utf8_width(c: char) -> int {
    if (c as u32) < 0x80 {
        1
    } else if (c as u32) < 0x800 {
        2
    } else if (c as u32) < 0x10000 {
        3
    } else {
        4
    }
}

/// Number of bytes that UTF-8 takes for `s`.
pub open spec fn utf8_len(s: Seq<char>) -> int
    decreases s.len(),
{
    if s.len() == 0 {
        0
    } else {
        utf8_len(s.drop_last()) + utf8_width(s.last())
    }
}

/// A line of the source, or the part of one that follows a document
/// separator: the line starts at character index `start` and is line
/// `number` (counting from 0); its text runs from `first` to `end`, where
/// its trailing whitespace begins.
#[derive(Clone, Copy, Debug, PartialEq, Eq, Structural)]
pub struct Line {
    pub start: usize,
    pub first: usize,
    pub end: usize,
    pub number: usize,
}

/// Every line lies inside `c`.
pub open spec fn lines_ok(c: Seq<char>, ls: Seq<Line>) -> bool {
    forall|k: int|
        #![trigger ls[k]]
        0 <= k < ls.len() ==> ls[k].start <= ls[k].first <= ls[k].end <= c.len()
}

/// `line.len() - line.trim_start().len()`: the number of UTF-8 bytes of the
/// leading whitespace of a line's text.
pub open spec fn indent(c: Seq<char>, l: Line) -> int {
    utf8_len(c.subrange(l.first as int, ws_fwd(c, l.first as int, l.end as int)))
}

/// The first index at or after `k` that holds a line feed (or `s.len()`).
pub open spec fn next_newline(s: Seq<char>, k: int) -> int
    decreases s.len() - k,
{
    if 0 <= k < s.len() && s[k] != '\n' {
        next_newline(s, k + 1)
    } else {
        k
    }
}

pub proof fn lemma_next_newline_bounds(s: Seq<char>, k: int)
    requires
        0 <= k <= s.len(),
    ensures
        k <= next_newline(s, k) <= s.len(),
        next_newline(s, k) < s.len() ==> s[next_newline(s, k)] == '\n',
    decreases s.len() - k,
{
    if k < s.len() && s[k] != '\n' {
        lemma_next_newline_bounds(s, k + 1);
    }
}

/// The lines of `c` from index `k` on, the first being line number `n`:
/// `c` is split at line feeds as `str::lines` splits it, and each line's
/// text ends before its trailing whitespace (a carriage return before the
/// line feed included).
pub open spec fn lines_from(c: Seq<char>, k: int, n: int) -> Seq<Line>
    decreases c.len() - k,
{
    if 0 <= k < c.len() {
        let e = next_newline(c, k);
        proof {
            lemma_next_newline_bounds(c, k);
        }
        let line = Line {
            start: k as usize,
            first: k as usize,
            end: ws_back(c, k, e) as usize,
            number: n as usize,
        };
        if e >= c.len() {
            seq![line]
        } else {
            seq![line].add(lines_from(c, e + 1, n + 1))
        }
    } else {
        Seq::empty()
    }
}

/// The lines of `c`.
pub open spec fn yaml_lines(c: Seq<char>) -> Seq<Line> {
    lines_from(c, 0, 0)
}

/// `ws_fwd(text, lo, hi)`.
pub fn skip_ws_forward(text: &Vec<char>, lo: usize, hi: usize) -> (b: usize)
    requires
        lo <= hi <= text.len(),
    ensures
        lo <= b <= hi,
        b == ws_fwd(text@, lo as int, hi as int),
{
    let mut i = lo;
    while i < hi && is_whitespace_char(text[i])
        invariant
            lo <= i <= hi <= text.len(),
            ws_fwd(text@, i as int, hi as int) == ws_fwd(text@, lo as int, hi as int),
        decreases hi - i,
    {
        i = i + 1;
    }
    i
}

/// `ws_back(text, lo, hi)`.
pub fn skip_ws_backward(text: &Vec<char>, lo: usize, hi: usize) -> (e: usize)
    requires
        lo <= hi <= text.len(),
    ensures
        lo <= e <= hi,
        e == ws_back(text@, lo as int, hi as int),
{
    let mut j = hi;
    while j > lo && is_whitespace_char(text[j - 1])
        invariant
            lo <= j <= hi <= text.len(),
            ws_back(text@, lo as int, j as int) == ws_back(text@, lo as int, hi as int),
        decreases j - lo,
    {
        j = j - 1;
    }
    j
}

/// `trim_bounds(text, lo, hi)`.
pub fn trim_range(text: &Vec<char>, lo: usize, hi: usize) -> (r: (usize, usize))
    requires
        lo <= hi <= text.len(),
    ensures
        lo <= r.0 <= r.1 <= hi,
        (r.0 as int, r.1 as int) == trim_bounds(text@, lo as int, hi as int),
{
    let e = skip_ws_backward(text, lo, hi);
    let b = skip_ws_forward(text, lo, e);
    (b, e)
}

/// `find_in(text, ch, lo, hi)`.
pub fn find_in_range(text: &Vec<char>, lo: usize, hi: usize, ch: char) -> (r: Option<usize>)
    requires
        lo <= hi <= text.len(),
    ensures
        r matches Some(p) ==> lo <= p < hi && text[p as int] == ch && find_in(
            text@,
            ch,
            lo as int,
            hi as int,
        ) == Some(p as int),
        r is None ==> find_in(text@, ch, lo as int, hi as int) is None,
{
    let mut i = lo;
    while i < hi
        invariant
            lo <= i <= hi <= text.len(),
            find_in(text@, ch, i as int, hi as int) == find_in(text@, ch, lo as int, hi as int),
        decreases hi - i,
    {
        if text[i] == ch {
            return Some(i);
        }
        i = i + 1;
    }
    None
}

/// Number of UTF-8 bytes of `text[lo..hi]`.
pub fn utf8_len_range(text: &Vec<char>, lo: usize, hi: usize) -> (n: u128)
    requires
        lo <= hi <= text.len(),
    ensures
        n == utf8_len(text@.subrange(lo as int, hi as int)),
{
    let mut acc: u128 = 0;
    let mut i = lo;
    while i < hi
        invariant
            lo <= i <= hi <= text.len(),
            acc == utf8_len(text@.subrange(lo as int, i as int)),
            acc <= 4 * (i - lo),
        decreases hi - i,
    {
        let v: u32 = text[i] as u32;
        let w: u128 = if v < 0x80 {
            1
        } else if v < 0x800 {
            2
        } else if v < 0x10000 {
            3
        } else {
            4
        };
        assert(text@.subrange(lo as int, i + 1).drop_last() =~= text@.subrange(lo as int, i as int));
        assert(w == utf8_width(text@.subrange(lo as int, i + 1).last()));
        acc = acc + w;
        i = i + 1;
    }
    acc
}

/// `indent(text, l)`.
pub fn indent_of(text: &Vec<char>, l: &Line) -> (n: u128)
    requires
        l.start <= l.first <= l.end <= text.len(),
    ensures
        n == indent(text@, *l),
{
    let b = skip_ws_forward(text, l.first, l.end);
    utf8_len_range(text, l.first, b)
}

/// `String::push`: the contract claims that the string afterwards is the
/// string before followed by `c`.
#[verifier::external_body]
fn string_push(s: &mut String, c: char)
    ensures
        final(s)@ == old(s)@.push(c),
{
    s.push(c);
}

/// Appends `text[lo..hi]` to `out`.
pub fn push_range(out: &mut String, text: &Vec<char>, lo: usize, hi: usize)
    requires
        lo <= hi <= text.len(),
    ensures
        final(out)@ == old(out)@ + text@.subrange(lo as int, hi as int),
{
    let mut i = lo;
    while i < hi
        invariant
            lo <= i <= hi <= text.len(),
            out@ == old(out)@ + text@.subrange(lo as int, i as int),
        decreases hi - i,
    {
        string_push(out, text[i]);
        assert(text@.subrange(lo as int, i + 1) =~= text@.subrange(lo as int, i as int).push(
            text[i as int],
        ));
        i = i + 1;
    }
}

/// A new string holding `text[lo..hi]`.
pub fn string_of_range(text: &Vec<char>, lo: usize, hi: usize) -> (r: String)
    requires
        lo <= hi <= text.len(),
    ensures
        r@ == text@.subrange(lo as int, hi as int),
{
    let mut out = String::new();
    push_range(&mut out, text, lo, hi);
    out
}

/// The characters of `s`.
pub fn chars_of(s: &str) -> (r: Vec<char>)
    ensures
        r@ == s@,
{
    let mut out: Vec<char> = Vec::new();
    for ch in it: s.chars()
        invariant
            out@ == it.seq().take(it.index() as int),
    {
        out.push(ch);
    }
    out
}

} // verus!
