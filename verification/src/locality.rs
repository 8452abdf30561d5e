//! What the parse of a block of lines reads: only the characters of its
//! lines' texts. Two texts that agree there give the same events, marks
//! included.
use crate::model::{
    any_dash_line, any_mapping_line, block_events, block_start, content_events, dash_line,
    is_doc_marker, item_events, keep_line, key_event, lemma_find_in, lemma_nested_end_bounds,
    mapping_from, mapping_line, nested_end, sequence_from, value_event, after_marker,
};
use crate::ranges::{
    lemma_clean_shift, lemma_find_shift, lemma_tag_shift, lemma_trim_bounds, lemma_trim_shift,
    lemma_value_shift, lemma_ws_fwd_bounds, lemma_ws_fwd_shift, shifted,
};
use crate::scalar::{clean_bounds, value_bounds};
use crate::text::{find_in, indent, trim_bounds, ws_fwd, Line};
use vstd::prelude::*;

verus! {

/// `c` and `c2` agree on the text of line `l`.
pub open spec fn agree_on(c: Seq<char>, c2: Seq<char>, l: Line) -> bool {
    &&& l.first <= l.end
    &&& l.end <= c.len()
    &&& l.end <= c2.len()
    &&& forall|j: int| #![trigger c2[j]] l.first <= j < l.end ==> c[j] == c2[j]
}

/// `c` and `c2` agree on the texts of all lines of `ls`.
pub open spec fn agree_all(c: Seq<char>, c2: Seq<char>, ls: Seq<Line>) -> bool {
    forall|k: int| 0 <= k < ls.len() ==> #[trigger] agree_on(c, c2, ls[k])
}

/// The scalars of a range on which two texts agree are the same.
pub proof fn lemma_frame_scalar(c: Seq<char>, c2: Seq<char>, l: Line, b: int, e: int)
    requires
        shifted(c, 0, c2, b, e),
    ensures
        value_event(c, l, b, e) == value_event(c2, l, b, e),
        key_event(c, l, b, e) == key_event(c2, l, b, e),
{
    lemma_value_shift(c, 0, c2, b, e);
    let (v, t) = value_bounds(c2, b, e);
    lemma_tag_shift(c, 0, c2, b, e, t);
    assert(c.subrange(v.0, v.1) =~= c2.subrange(v.0, v.1));
    lemma_clean_shift(c, 0, c2, b, e);
    crate::ranges::lemma_clean_in(c2, b, e);
    let k = clean_bounds(c2, b, e);
    assert(c.subrange(k.0, k.1) =~= c2.subrange(k.0, k.1));
}

/// What is read of one line is the same on two texts that agree on it.
#[verifier::rlimit(40)]
pub proof fn lemma_frame_line(c: Seq<char>, c2: Seq<char>, l: Line)
    requires
        agree_on(c, c2, l),
    ensures
        trim_bounds(c, l.first as int, l.end as int) == trim_bounds(
            c2,
            l.first as int,
            l.end as int,
        ),
        ws_fwd(c, l.first as int, l.end as int) == ws_fwd(c2, l.first as int, l.end as int),
        indent(c, l) == indent(c2, l),
        dash_line(c, l) == dash_line(c2, l),
        mapping_line(c, l) == mapping_line(c2, l),
        keep_line(c, l) == keep_line(c2, l),
        is_doc_marker(c, l) == is_doc_marker(c2, l),
        item_events(c, l) == item_events(c2, l),
        after_marker(c, l) == after_marker(c2, l),
        ({
            let (t0, t1) = trim_bounds(c, l.first as int, l.end as int);
            &&& l.first <= t0 <= t1 <= l.end
            &&& find_in(c, ':', t0, t1) == find_in(c2, ':', t0, t1)
        }),
{
    let a = l.first as int;
    let b = l.end as int;
    assert(shifted(c, 0, c2, a, b));
    lemma_trim_shift(c, 0, c2, a, b);
    lemma_ws_fwd_shift(c, 0, c2, a, b);
    lemma_ws_fwd_bounds(c2, a, b);
    lemma_trim_bounds(c2, a, b);
    let f = ws_fwd(c2, a, b);
    assert(c.subrange(a, f) =~= c2.subrange(a, f));
    lemma_find_shift(c, 0, c2, ':', a, b);
    let (t0, t1) = trim_bounds(c2, a, b);
    assert(shifted(c, 0, c2, t0, t1));
    lemma_find_shift(c, 0, c2, ':', t0, t1);
    assert(c.subrange(t0, t1) =~= c2.subrange(t0, t1));
    if t0 < t1 {
        assert(c[t0] == c2[t0]);
    }
    if f < b {
        assert(c[f] == c2[f]);
    }
    // an item
    if t0 < t1 {
        assert(shifted(c, 0, c2, t0 + 1, t1));
        lemma_trim_shift(c, 0, c2, t0 + 1, t1);
        lemma_trim_bounds(c2, t0 + 1, t1);
        let (ib, ie) = trim_bounds(c2, t0 + 1, t1);
        lemma_frame_scalar(c, c2, l, ib, ie);
    }
}

pub proof fn lemma_frame_sequence(c: Seq<char>, c2: Seq<char>, ls: Seq<Line>, i: int)
    requires
        agree_all(c, c2, ls),
    ensures
        sequence_from(c, ls, i) == sequence_from(c2, ls, i),
    decreases ls.len() - i,
{
    if 0 <= i < ls.len() {
        assert(agree_on(c, c2, ls[i]));
        lemma_frame_line(c, c2, ls[i]);
        lemma_frame_sequence(c, c2, ls, i + 1);
    }
}

pub proof fn lemma_frame_nested(c: Seq<char>, c2: Seq<char>, ls: Seq<Line>, k: int, ind: int)
    requires
        agree_all(c, c2, ls),
    ensures
        nested_end(c, ls, k, ind) == nested_end(c2, ls, k, ind),
    decreases ls.len() - k,
{
    if 0 <= k < ls.len() {
        assert(agree_on(c, c2, ls[k]));
        lemma_frame_line(c, c2, ls[k]);
        lemma_frame_nested(c, c2, ls, k + 1, ind);
    }
}

pub proof fn lemma_frame_kinds(c: Seq<char>, c2: Seq<char>, ls: Seq<Line>)
    requires
        agree_all(c, c2, ls),
    ensures
        any_mapping_line(c, ls) == any_mapping_line(c2, ls),
        any_dash_line(c, ls) == any_dash_line(c2, ls),
        ls.len() > 0 ==> block_start(c, ls) == block_start(c2, ls),
{
    assert forall|k: int| 0 <= k < ls.len() implies mapping_line(c, ls[k]) == mapping_line(
        c2,
        ls[k],
    ) && dash_line(c, ls[k]) == dash_line(c2, ls[k]) by {
        assert(agree_on(c, c2, ls[k]));
        lemma_frame_line(c, c2, ls[k]);
    }
    if any_mapping_line(c, ls) {
        let k = choose|k: int| 0 <= k < ls.len() && #[trigger] mapping_line(c, ls[k]);
        assert(mapping_line(c2, ls[k]));
    }
    if any_mapping_line(c2, ls) {
        let k = choose|k: int| 0 <= k < ls.len() && #[trigger] mapping_line(c2, ls[k]);
        assert(mapping_line(c, ls[k]));
    }
    if any_dash_line(c, ls) {
        let k = choose|k: int| 0 <= k < ls.len() && #[trigger] dash_line(c, ls[k]);
        assert(dash_line(c2, ls[k]));
    }
    if any_dash_line(c2, ls) {
        let k = choose|k: int| 0 <= k < ls.len() && #[trigger] dash_line(c2, ls[k]);
        assert(dash_line(c, ls[k]));
    }
    if ls.len() > 0 {
        assert(agree_on(c, c2, ls[0]));
        lemma_frame_line(c, c2, ls[0]);
    }
}

#[verifier::rlimit(40)]
pub proof fn lemma_frame_mapping(c: Seq<char>, c2: Seq<char>, ls: Seq<Line>, i: int)
    requires
        agree_all(c, c2, ls),
    ensures
        mapping_from(c, ls, i) == mapping_from(c2, ls, i),
    decreases ls.len(), ls.len() - i,
{
    if 0 <= i < ls.len() {
        let l = ls[i];
        assert(agree_on(c, c2, l));
        lemma_frame_line(c, c2, l);
        let (t0, t1) = trim_bounds(c, l.first as int, l.end as int);
        match find_in(c, ':', t0, t1) {
            None => {
                lemma_frame_mapping(c, c2, ls, i + 1);
            },
            Some(p) => {
                lemma_find_in(c, ':', t0, t1);
                assert(shifted(c, 0, c2, t0, p));
                lemma_trim_shift(c, 0, c2, t0, p);
                lemma_trim_bounds(c, t0, p);
                let (kb, ke) = trim_bounds(c, t0, p);
                lemma_frame_scalar(c, c2, l, kb, ke);
                assert(shifted(c, 0, c2, p + 1, t1));
                lemma_trim_shift(c, 0, c2, p + 1, t1);
                lemma_trim_bounds(c, p + 1, t1);
                let (vb, ve) = trim_bounds(c, p + 1, t1);
                lemma_frame_scalar(c, c2, l, vb, ve);
                if vb < ve {
                    lemma_frame_mapping(c, c2, ls, i + 1);
                } else {
                    let ind = indent(c, l);
                    lemma_frame_nested(c, c2, ls, i + 1, ind);
                    lemma_nested_end_bounds(c, ls, i + 1, ind);
                    let j = nested_end(c, ls, i + 1, ind);
                    let nested = ls.subrange(i + 1, j);
                    assert(agree_all(c, c2, nested)) by {
                        assert forall|k: int| 0 <= k < nested.len() implies #[trigger] agree_on(
                            c,
                            c2,
                            nested[k],
                        ) by {
                            assert(nested[k] == ls[i + 1 + k]);
                        }
                    }
                    lemma_frame_kinds(c, c2, nested);
                    lemma_frame_mapping(c, c2, nested, 0);
                    lemma_frame_sequence(c, c2, nested, 0);
                    lemma_frame_mapping(c, c2, ls, j);
                }
            },
        }
    }
}

/// The content of a document reads only the texts of its lines.
pub proof fn lemma_frame_content(c: Seq<char>, c2: Seq<char>, dl: Seq<Line>)
    requires
        agree_all(c, c2, dl),
    ensures
        content_events(c, dl) == content_events(c2, dl),
        block_events(c, dl) == block_events(c2, dl),
        dl.len() > 0 ==> block_start(c, dl) == block_start(c2, dl),
{
    lemma_frame_kinds(c, c2, dl);
    lemma_frame_mapping(c, c2, dl, 0);
    lemma_frame_sequence(c, c2, dl, 0);
    if dl.len() == 1 {
        assert(agree_on(c, c2, dl[0]));
        lemma_frame_line(c, c2, dl[0]);
        let (t0, t1) = trim_bounds(c, dl[0].first as int, dl[0].end as int);
        assert(c.subrange(t0, t1) =~= c2.subrange(t0, t1));
    }
}

} // verus!
