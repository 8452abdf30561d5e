//! The text of a token, given by byte positions into the source.
use crate::text::{chars_of, string_of_range, trim_bounds, trim_range, utf8_len, utf8_len_range, utf8_width};
use vstd::prelude::*;

verus! {

/// The first character index `i >= k` such that `c[..i]` takes exactly
/// `b` bytes.
pub open spec fn boundary_from(c: Seq<char>, b: int, k: int) -> Option<int>
    decreases c.len() + 1 - k,
{
    if 0 <= k <= c.len() {
        if utf8_len(c.take(k)) == b {
            Some(k)
        } else {
            boundary_from(c, b, k + 1)
        }
    } else {
        None
    }
}

/// The character index at byte position `b`, if `b` is a character
/// boundary of the UTF-8 encoding of `c`.
pub open spec fn boundary_index(c: Seq<char>, b: int) -> Option<int> {
    boundary_from(c, b, 0)
}

/// The byte positions `start..end` of `c` delimit text: `start < end`,
/// both lie inside the text, and both fall on character boundaries.
pub open spec fn valid_span(start: int, end: int, c: Seq<char>) -> bool {
    let n = utf8_len(c);
    &&& start < n
    &&& end <= n
    &&& start < end
    &&& boundary_index(c, start) is Some
    &&& boundary_index(c, end) is Some
}

/// The trimmed text between the byte positions `start` and `end` of `c`,
/// or nothing where the positions do not delimit text.
pub open spec fn spec_extract(start: int, end: int, c: Seq<char>) -> Seq<char> {
    if valid_span(start, end, c) {
        let t = trim_bounds(c, boundary_index(c, start).unwrap(), boundary_index(c, end).unwrap());
        c.subrange(t.0, t.1)
    } else {
        seq![]
    }
}

/// `boundary_index(text, b)`.
fn char_index_of_byte(text: &Vec<char>, b: usize) -> (r: Option<usize>)
    ensures
        r matches Some(i) ==> i <= text.len() && boundary_index(text@, b as int) == Some(i as int),
        r is None ==> boundary_index(text@, b as int) is None,
{
    let n = text.len();
    let mut i: usize = 0;
    let mut acc: u128 = 0;
    loop
        invariant
            i <= n == text.len(),
            acc == utf8_len(text@.take(i as int)),
            acc <= 4 * i,
            boundary_from(text@, b as int, i as int) == boundary_index(text@, b as int),
        decreases n - i,
    {
        if acc == b as u128 {
            return Some(i);
        }
        if i == n {
            assert(boundary_from(text@, b as int, n + 1) is None);
            return None;
        }
        let v: u32 = text[i] as u32;
        let w: u128 = if v < 0x80 {
            1
        } else if v < 0x800 {
            2
        } else if v < 0x10000 {
            3
        } else {
            4
        };
        assert(text@.take(i + 1).drop_last() =~= text@.take(i as int));
        assert(w == utf8_width(text@.take(i + 1).last()));
        acc = acc + w;
        i = i + 1;
    }
}

/// The character indices of the byte positions `start` and `end` of
/// `text`, where they delimit text.
fn span_indices(start: usize, end: usize, text: &Vec<char>) -> (r: Option<(usize, usize)>)
    ensures
        r is Some <==> valid_span(start as int, end as int, text@),
        r matches Some((i, j)) ==> i <= j <= text.len() && boundary_index(text@, start as int)
            == Some(i as int) && boundary_index(text@, end as int) == Some(j as int),
{
    let len = utf8_len_range(text, 0, text.len());
    assert(text@.subrange(0, text.len() as int) =~= text@);
    if (start as u128) < len && (end as u128) <= len && start < end {
        match (char_index_of_byte(text, start), char_index_of_byte(text, end)) {
            (Some(i), Some(j)) => {
                proof {
                    lemma_boundary_found(text@, start as int, 0);
                    lemma_boundary_found(text@, end as int, 0);
                    if j < i {
                        lemma_prefix_len_monotone(text@, j as int, i as int);
                    }
                }
                Some((i, j))
            },
            _ => None,
        }
    } else {
        None
    }
}

/// Whether the byte positions `start..end` of `yaml_content` delimit text.
pub fn token_span_valid(start: usize, end: usize, yaml_content: &str) -> (r: bool)
    ensures
        r == valid_span(start as int, end as int, yaml_content@),
{
    let text = chars_of(yaml_content);
    span_indices(start, end, &text).is_some()
}

/// The trimmed text of a token that spans the byte positions
/// `start..end` of `yaml_content`; empty where the positions do not
/// delimit text (an empty span, a position outside the text, or one that
/// falls inside a character's encoding).
pub fn extract_token_value(start: usize, end: usize, yaml_content: &str) -> (r: String)
    ensures
        r@ == spec_extract(start as int, end as int, yaml_content@),
{
    let text = chars_of(yaml_content);
    match span_indices(start, end, &text) {
        Some((i, j)) => {
            let (b, e) = trim_range(&text, i, j);
            string_of_range(&text, b, e)
        },
        None => {
            let empty = String::new();
            assert(empty@ =~= seq![]);
            empty
        },
    }
}

proof fn lemma_boundary_found(c: Seq<char>, b: int, k: int)
    ensures
        boundary_from(c, b, k) matches Some(i) ==> 0 <= i <= c.len() && utf8_len(c.take(i)) == b,
    decreases c.len() + 1 - k,
{
    if 0 <= k <= c.len() && utf8_len(c.take(k)) != b {
        lemma_boundary_found(c, b, k + 1);
    }
}

proof fn lemma_prefix_len_monotone(s: Seq<char>, a: int, b: int)
    requires
        0 <= a <= b <= s.len(),
    ensures
        utf8_len(s.take(a)) + (b - a) <= utf8_len(s.take(b)),
    decreases b - a,
{
    if a < b {
        lemma_prefix_len_monotone(s, a, b - 1);
        assert(s.take(b).drop_last() =~= s.take(b - 1));
    }
}

} // verus!
