//! Scalar cleaning: dropping surrounding quotes and resolving `!!type` tags.
use crate::event::opt_str;
use crate::text::{chars_of, find_in, find_in_range, push_range, string_of_range, trim_bounds, trim_range};
use vstd::prelude::*;

verus! {

/// `c[b..e]` is wrapped in a pair of single or double quotes.
pub open spec fn is_quoted(c: Seq<char>, b: int, e: int) -> bool {
    &&& e - b >= 2
    &&& ((c[b] == '\'' && c[e - 1] == '\'') || (c[b] == '"' && c[e - 1] == '"'))
}

/// The bounds of `c[lo..hi]` trimmed and without the pair of quotes that
/// surrounds it, if any.
pub open spec fn clean_bounds(c: Seq<char>, lo: int, hi: int) -> (int, int) {
    let (b, e) = trim_bounds(c, lo, hi);
    if is_quoted(c, b, e) {
        (b + 1, e - 1)
    } else {
        (b, e)
    }
}

/// The trimmed text without the pair of quotes that surrounds it, if any.
pub open spec fn spec_clean(s: Seq<char>) -> Seq<char> {
    let r = clean_bounds(s, 0, s.len() as int);
    s.subrange(r.0, r.1)
}

/// The prefix of full YAML tags: "tag:yaml.org,2002:".
pub open spec fn tag_prefix() -> Seq<char> {
    seq!['t', 'a', 'g', ':', 'y', 'a', 'm', 'l', '.', 'o', 'r', 'g', ',', '2', '0', '0', '2', ':']
}

/// `c[b..e]` starts with "!!" and holds a space: a tagged value.
pub open spec fn is_tagged(c: Seq<char>, b: int, e: int) -> bool {
    e - b >= 2 && c[b] == '!' && c[b + 1] == '!' && find_in(c, ' ', b, e) is Some
}

/// The bounds of the cleaned value and of the tag name of the value
/// `c[lo..hi]`. A trimmed value of the form `!!name rest` (with a space
/// after the name) yields the cleaned `rest` and the tag `name`; any other
/// value yields itself, cleaned, and no tag.
pub open spec fn value_bounds(c: Seq<char>, lo: int, hi: int) -> ((int, int), Option<(int, int)>) {
    let (b, e) = trim_bounds(c, lo, hi);
    if is_tagged(c, b, e) {
        let p = find_in(c, ' ', b, e).unwrap();
        let (vb, ve) = trim_bounds(c, p + 1, e);
        (clean_bounds(c, vb, ve), Some((b + 2, p)))
    } else {
        (clean_bounds(c, b, e), None)
    }
}

/// The full tag of a tag name.
pub open spec fn full_tag_of(c: Seq<char>, t: Option<(int, int)>) -> Option<Seq<char>> {
    match t {
        Some((b, e)) => Some(tag_prefix() + c.subrange(b, e)),
        None => None,
    }
}

/// The value and the full tag ("tag:yaml.org,2002:" and the name) of a
/// value: "!!bool true" gives "true" and "tag:yaml.org,2002:bool".
pub open spec fn spec_process_value(s: Seq<char>) -> (Seq<char>, Option<Seq<char>>) {
    let (v, t) = value_bounds(s, 0, s.len() as int);
    (s.subrange(v.0, v.1), full_tag_of(s, t))
}

/// Cleans `text[lo..hi]`.
pub fn clean_range(text: &Vec<char>, lo: usize, hi: usize) -> (r: String)
    requires
        lo <= hi <= text.len(),
    ensures
        ({
            let cb = clean_bounds(text@, lo as int, hi as int);
            &&& lo <= cb.0 <= cb.1 <= hi
            &&& r@ == text@.subrange(cb.0, cb.1)
        }),
{
    let (b, e) = trim_range(text, lo, hi);
    if e - b >= 2 && ((text[b] == '\'' && text[e - 1] == '\'') || (text[b] == '"' && text[e - 1]
        == '"')) {
        string_of_range(text, b + 1, e - 1)
    } else {
        string_of_range(text, b, e)
    }
}

/// The tag "tag:yaml.org,2002:" followed by `text[lo..hi]`.
fn full_tag(text: &Vec<char>, lo: usize, hi: usize) -> (r: String)
    requires
        lo <= hi <= text.len(),
    ensures
        r@ == tag_prefix() + text@.subrange(lo as int, hi as int),
{
    let prefix = "tag:yaml.org,2002:";
    proof {
        reveal_strlit("tag:yaml.org,2002:");
    }
    let mut tag = String::from_str(prefix);
    assert(tag@ =~= tag_prefix());
    push_range(&mut tag, text, lo, hi);
    tag
}

/// Resolves the value `text[lo..hi]`.
pub fn process_value_range(text: &Vec<char>, lo: usize, hi: usize) -> (r: (String, Option<String>))
    requires
        lo <= hi <= text.len(),
    ensures
        ({
            let (v, t) = value_bounds(text@, lo as int, hi as int);
            &&& lo <= v.0 <= v.1 <= hi
            &&& r.0@ == text@.subrange(v.0, v.1)
            &&& opt_str(r.1) == full_tag_of(text@, t)
            &&& (t matches Some(tb) ==> lo <= tb.0 <= tb.1 <= hi)
        }),
{
    let (b, e) = trim_range(text, lo, hi);
    if e - b >= 2 && text[b] == '!' && text[b + 1] == '!' {
        match find_in_range(text, b, e, ' ') {
            Some(p) => {
                let (vb, ve) = trim_range(text, p + 1, e);
                let v = clean_range(text, vb, ve);
                let tag = full_tag(text, b + 2, p);
                return (v, Some(tag));
            },
            None => {},
        }
    }
    (clean_range(text, b, e), None)
}

/// Trims `input` and drops a pair of single or double quotes around it;
/// a lone quote character is no pair and stays.
pub fn clean_yaml_string(input: &str) -> (r: String)
    ensures
        r@ == spec_clean(input@),
{
    let text = chars_of(input);
    clean_range(&text, 0, text.len())
}

/// Splits a value into its cleaned text and its resolved tag:
/// "!!bool true" gives ("true", "tag:yaml.org,2002:bool").
pub fn process_yaml_value(input: &str) -> (r: (String, Option<String>))
    ensures
        (r.0@, opt_str(r.1)) == spec_process_value(input@),
{
    let text = chars_of(input);
    process_value_range(&text, 0, text.len())
}

} // verus!
