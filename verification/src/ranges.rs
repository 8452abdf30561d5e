//! What the range functions of the text model read: each one reads only
//! the characters of its range, so it gives the same answer on any text
//! that holds the same characters there, shifted by a common offset.
use crate::model::lemma_find_in;
use crate::scalar::{clean_bounds, full_tag_of, is_quoted, is_tagged, value_bounds};
use crate::text::{find_in, is_ws, trim_bounds, ws_back, ws_fwd};
use vstd::prelude::*;

verus! {

/// `c` holds the characters `s[a..b]` at the indices `o + a .. o + b`.
pub open spec fn shifted(c: Seq<char>, o: int, s: Seq<char>, a: int, b: int) -> bool {
    &&& 0 <= a <= b <= s.len()
    &&& 0 <= o
    &&& o + b <= c.len()
    &&& forall|j: int| #![trigger s[j]] a <= j < b ==> c[o + j] == s[j]
}

/// The offset of an optional index.
pub open spec fn shift_opt(o: int, p: Option<int>) -> Option<int> {
    match p {
        Some(q) => Some(o + q),
        None => None,
    }
}

pub proof fn lemma_ws_fwd_bounds(c: Seq<char>, k: int, hi: int)
    requires
        k <= hi,
    ensures
        k <= ws_fwd(c, k, hi) <= hi,
        forall|j: int| k <= j < ws_fwd(c, k, hi) ==> is_ws(#[trigger] c[j]),
        ws_fwd(c, k, hi) < hi ==> !is_ws(c[ws_fwd(c, k, hi)]),
    decreases hi - k,
{
    if k < hi && is_ws(c[k]) {
        lemma_ws_fwd_bounds(c, k + 1, hi);
    }
}

pub proof fn lemma_ws_back_bounds(c: Seq<char>, lo: int, k: int)
    requires
        lo <= k,
    ensures
        lo <= ws_back(c, lo, k) <= k,
        forall|j: int| ws_back(c, lo, k) <= j < k ==> is_ws(#[trigger] c[j]),
        ws_back(c, lo, k) > lo ==> !is_ws(c[ws_back(c, lo, k) - 1]),
    decreases k - lo,
{
    if lo < k && is_ws(c[k - 1]) {
        lemma_ws_back_bounds(c, lo, k - 1);
    }
}

pub proof fn lemma_trim_bounds(c: Seq<char>, lo: int, hi: int)
    requires
        lo <= hi,
    ensures
        ({
            let (b, e) = trim_bounds(c, lo, hi);
            &&& lo <= b <= e <= hi
            &&& forall|j: int| lo <= j < b ==> is_ws(#[trigger] c[j])
            &&& forall|j: int| e <= j < hi ==> is_ws(#[trigger] c[j])
            &&& b < e ==> !is_ws(c[b]) && !is_ws(c[e - 1])
            &&& b == e ==> forall|j: int| lo <= j < hi ==> is_ws(#[trigger] c[j])
        }),
{
    let e = ws_back(c, lo, hi);
    lemma_ws_back_bounds(c, lo, hi);
    lemma_ws_fwd_bounds(c, lo, e);
    let b = ws_fwd(c, lo, e);
    if b == e && e > lo {
        assert(is_ws(c[e - 1]));
    }
}

/// `ws_fwd` is the first index of the range that holds no whitespace.
pub proof fn lemma_ws_fwd_is(c: Seq<char>, k: int, hi: int, r: int)
    requires
        k <= r <= hi,
        forall|j: int| k <= j < r ==> is_ws(#[trigger] c[j]),
        r < hi ==> !is_ws(c[r]),
    ensures
        ws_fwd(c, k, hi) == r,
    decreases hi - k,
{
    if k < r {
        assert(is_ws(c[k]));
        lemma_ws_fwd_is(c, k + 1, hi, r);
    }
}

/// `ws_back` is the last index of the range after which only whitespace
/// follows.
pub proof fn lemma_ws_back_is(c: Seq<char>, lo: int, k: int, r: int)
    requires
        lo <= r <= k,
        forall|j: int| r <= j < k ==> is_ws(#[trigger] c[j]),
        r > lo ==> !is_ws(c[r - 1]),
    ensures
        ws_back(c, lo, k) == r,
    decreases k - lo,
{
    if r < k {
        assert(is_ws(c[k - 1]));
        lemma_ws_back_is(c, lo, k - 1, r);
    }
}

/// The trimmed bounds are determined by where the non-blank text lies.
pub proof fn lemma_trim_is(c: Seq<char>, lo: int, hi: int, b: int, e: int)
    requires
        lo <= b < e <= hi,
        forall|j: int| lo <= j < b ==> is_ws(#[trigger] c[j]),
        forall|j: int| e <= j < hi ==> is_ws(#[trigger] c[j]),
        !is_ws(c[b]),
        !is_ws(c[e - 1]),
    ensures
        trim_bounds(c, lo, hi) == (b, e),
{
    lemma_ws_back_is(c, lo, hi, e);
    lemma_ws_fwd_is(c, lo, e, b);
}

/// Trimming a trimmed range changes nothing.
pub proof fn lemma_trim_twice(c: Seq<char>, lo: int, hi: int)
    requires
        lo <= hi,
    ensures
        ({
            let (b, e) = trim_bounds(c, lo, hi);
            trim_bounds(c, b, e) == (b, e)
        }),
{
    lemma_trim_bounds(c, lo, hi);
    let (b, e) = trim_bounds(c, lo, hi);
    if b < e {
        lemma_trim_is(c, b, e, b, e);
    } else {
        lemma_ws_back_is(c, b, e, b);
        lemma_ws_fwd_is(c, b, b, b);
    }
}

/// Whitespace around the non-blank text may be added to the range.
pub proof fn lemma_trim_widen(c: Seq<char>, lo: int, hi: int, lo2: int, hi2: int)
    requires
        lo2 <= lo <= hi <= hi2,
        forall|j: int| lo2 <= j < lo ==> is_ws(#[trigger] c[j]),
        forall|j: int| hi <= j < hi2 ==> is_ws(#[trigger] c[j]),
        trim_bounds(c, lo, hi).0 < trim_bounds(c, lo, hi).1,
    ensures
        trim_bounds(c, lo2, hi2) == trim_bounds(c, lo, hi),
{
    lemma_trim_bounds(c, lo, hi);
    let (b, e) = trim_bounds(c, lo, hi);
    lemma_trim_is(c, lo2, hi2, b, e);
}

/// The first occurrence of `ch` in the range.
pub proof fn lemma_find_is(c: Seq<char>, ch: char, k: int, hi: int, p: int)
    requires
        k <= p < hi,
        c[p] == ch,
        forall|j: int| k <= j < p ==> #[trigger] c[j] != ch,
    ensures
        find_in(c, ch, k, hi) == Some(p),
    decreases hi - k,
{
    if k < p {
        assert(c[k] != ch);
        lemma_find_is(c, ch, k + 1, hi, p);
    }
}

/// No occurrence of `ch` in the range.
pub proof fn lemma_find_none(c: Seq<char>, ch: char, k: int, hi: int)
    requires
        forall|j: int| k <= j < hi ==> #[trigger] c[j] != ch,
    ensures
        find_in(c, ch, k, hi) is None,
    decreases hi - k,
{
    if k < hi {
        assert(c[k] != ch);
        lemma_find_none(c, ch, k + 1, hi);
    }
}

pub proof fn lemma_ws_fwd_shift(c: Seq<char>, o: int, s: Seq<char>, a: int, b: int)
    requires
        shifted(c, o, s, a, b),
    ensures
        ws_fwd(c, o + a, o + b) == o + ws_fwd(s, a, b),
    decreases b - a,
{
    if a < b {
        assert(c[o + a] == s[a]);
        lemma_ws_fwd_shift(c, o, s, a + 1, b);
    }
}

pub proof fn lemma_ws_back_shift(c: Seq<char>, o: int, s: Seq<char>, a: int, b: int)
    requires
        shifted(c, o, s, a, b),
    ensures
        ws_back(c, o + a, o + b) == o + ws_back(s, a, b),
    decreases b - a,
{
    if a < b {
        assert(c[o + (b - 1)] == s[b - 1]);
        assert(o + b - 1 == o + (b - 1));
        lemma_ws_back_shift(c, o, s, a, b - 1);
    }
}

pub proof fn lemma_find_shift(c: Seq<char>, o: int, s: Seq<char>, ch: char, a: int, b: int)
    requires
        shifted(c, o, s, a, b),
    ensures
        find_in(c, ch, o + a, o + b) == shift_opt(o, find_in(s, ch, a, b)),
    decreases b - a,
{
    if a < b {
        assert(c[o + a] == s[a]);
        lemma_find_shift(c, o, s, ch, a + 1, b);
    }
}

pub proof fn lemma_trim_shift(c: Seq<char>, o: int, s: Seq<char>, a: int, b: int)
    requires
        shifted(c, o, s, a, b),
    ensures
        trim_bounds(c, o + a, o + b) == (
            o + trim_bounds(s, a, b).0,
            o + trim_bounds(s, a, b).1,
        ),
{
    lemma_ws_back_shift(c, o, s, a, b);
    lemma_ws_back_bounds(s, a, b);
    let e = ws_back(s, a, b);
    lemma_ws_fwd_shift(c, o, s, a, e);
}

pub proof fn lemma_clean_shift(c: Seq<char>, o: int, s: Seq<char>, a: int, b: int)
    requires
        shifted(c, o, s, a, b),
    ensures
        clean_bounds(c, o + a, o + b) == (
            o + clean_bounds(s, a, b).0,
            o + clean_bounds(s, a, b).1,
        ),
{
    lemma_trim_shift(c, o, s, a, b);
    lemma_trim_bounds(s, a, b);
    let (tb, te) = trim_bounds(s, a, b);
    if te - tb >= 2 {
        assert(c[o + tb] == s[tb]);
        assert(c[o + (te - 1)] == s[te - 1]);
        assert(o + te - 1 == o + (te - 1));
    }
    assert(is_quoted(c, o + tb, o + te) == is_quoted(s, tb, te));
}

/// The cleaned value and tag name of a shifted range are those of the
/// original range, shifted.
pub proof fn lemma_value_shift(c: Seq<char>, o: int, s: Seq<char>, a: int, b: int)
    requires
        shifted(c, o, s, a, b),
    ensures
        ({
            let (v, t) = value_bounds(s, a, b);
            let (v2, t2) = value_bounds(c, o + a, o + b);
            &&& v2 == (o + v.0, o + v.1)
            &&& t2 == match t {
                Some(x) => Some((o + x.0, o + x.1)),
                None => None::<(int, int)>,
            }
            &&& a <= v.0 <= v.1 <= b
            &&& (t matches Some(x) ==> a <= x.0 <= x.1 <= b)
        }),
{
    lemma_trim_shift(c, o, s, a, b);
    lemma_trim_bounds(s, a, b);
    let (tb, te) = trim_bounds(s, a, b);
    lemma_find_shift(c, o, s, ' ', tb, te);
    if te - tb >= 2 {
        assert(c[o + tb] == s[tb]);
        assert(c[o + (tb + 1)] == s[tb + 1]);
        assert(o + tb + 1 == o + (tb + 1));
    }
    assert(is_tagged(c, o + tb, o + te) == is_tagged(s, tb, te));
    if is_tagged(s, tb, te) {
        let p = find_in(s, ' ', tb, te).unwrap();
        lemma_find_in(s, ' ', tb, te);
        lemma_trim_shift(c, o, s, p + 1, te);
        lemma_trim_bounds(s, p + 1, te);
        let (vb, ve) = trim_bounds(s, p + 1, te);
        lemma_clean_shift(c, o, s, vb, ve);
        lemma_clean_in(s, vb, ve);
    } else {
        lemma_clean_shift(c, o, s, tb, te);
        lemma_clean_in(s, tb, te);
    }
}

pub proof fn lemma_clean_in(s: Seq<char>, a: int, b: int)
    requires
        a <= b,
    ensures
        a <= clean_bounds(s, a, b).0 <= clean_bounds(s, a, b).1 <= b,
{
    lemma_trim_bounds(s, a, b);
}

/// The full tag of a shifted tag name is that of the original name.
pub proof fn lemma_tag_shift(c: Seq<char>, o: int, s: Seq<char>, a: int, b: int, t: Option<(int, int)>)
    requires
        shifted(c, o, s, a, b),
        t matches Some(x) ==> a <= x.0 <= x.1 <= b,
    ensures
        full_tag_of(
            c,
            match t {
                Some(x) => Some((o + x.0, o + x.1)),
                None => None::<(int, int)>,
            },
        ) == full_tag_of(s, t),
{
    if let Some(x) = t {
        assert(c.subrange(o + x.0, o + x.1) =~= s.subrange(x.0, x.1));
    }
}

} // verus!
