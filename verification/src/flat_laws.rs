//! Laws on flat documents: a document of `key: value` lines is a mapping
//! that holds, for each line in turn, its key and the whole of its value;
//! a document of `- item` lines is a sequence that holds, for each line in
//! turn, the whole of its item.
use crate::block_laws::{dashes_line, quiet_line};
use crate::blanking::lemma_markers_none;
use crate::event::{document_start, document_end, origin, stream_end, stream_start_utf8, EventModel};
use crate::line_laws::is_scalar;
use crate::model::{
    any_dash_line, any_mapping_line, block_end, block_start, content_events, dash_line,
    document_lines, documents_from, is_doc_marker, item_events, keep_line, kept_lines, key_event,
    mapping_from, mapping_line, markers, segment_lines, sequence_from, spec_parse, stream_events,
    text_end, value_event,
};
use crate::ranges::{
    lemma_clean_in, lemma_clean_shift, lemma_tag_shift, lemma_trim_bounds, lemma_trim_twice,
    lemma_value_shift, lemma_ws_fwd_is, shifted,
};
use crate::scalar::{clean_bounds, spec_clean, spec_process_value, value_bounds};
use crate::text::{find_in, is_ws, trim_bounds, ws_fwd, yaml_lines, Line};
use vstd::prelude::*;

verus! {

/// The lines of `ls` that are neither blank nor comments, in order.
pub open spec fn content_lines(c: Seq<char>, ls: Seq<Line>) -> Seq<Line>
    decreases ls.len(),
{
    if ls.len() == 0 {
        seq![]
    } else if !quiet_line(c, ls.last()) {
        content_lines(c, ls.drop_last()).push(ls.last())
    } else {
        content_lines(c, ls.drop_last())
    }
}

/// The trimmed text of line `l` of `c` runs from `.0` to `.1`.
pub open spec fn trimmed(c: Seq<char>, l: Line) -> (int, int) {
    trim_bounds(c, l.first as int, l.end as int)
}

/// Index of the first ':' of the trimmed text of line `l`.
pub open spec fn colon(c: Seq<char>, l: Line) -> int {
    find_in(c, ':', trimmed(c, l).0, trimmed(c, l).1).unwrap()
}

/// The trimmed text of `l` before its first ':'.
pub open spec fn key_text(c: Seq<char>, l: Line) -> Seq<char> {
    c.subrange(trimmed(c, l).0, colon(c, l))
}

/// The trimmed text of `l` after its first ':', all of it.
pub open spec fn value_text(c: Seq<char>, l: Line) -> Seq<char> {
    c.subrange(colon(c, l) + 1, trimmed(c, l).1)
}

/// The trimmed text of `l` after its leading '-', all of it.
pub open spec fn item_text(c: Seq<char>, l: Line) -> Seq<char> {
    c.subrange(trimmed(c, l).0 + 1, trimmed(c, l).1)
}

/// Line `l` of `c` is a `key: value` line: its trimmed text begins with
/// neither '-' nor '#', holds a ':', and something that is not blank
/// follows the first ':'.
pub open spec fn pair_line(c: Seq<char>, l: Line) -> bool {
    let (t0, t1) = trimmed(c, l);
    &&& t0 < t1
    &&& c[t0] != '-'
    &&& c[t0] != '#'
    &&& find_in(c, ':', t0, t1) is Some
    &&& exists|j: int| colon(c, l) < j < t1 && !is_ws(#[trigger] c[j])
}

/// Line `l` of `c` is a `- item` line: its trimmed text begins with '-'
/// and something that is not blank follows.
pub open spec fn item_line_of(c: Seq<char>, l: Line) -> bool {
    let (t0, t1) = trimmed(c, l);
    &&& t0 < t1
    &&& c[t0] == '-'
    &&& exists|j: int| t0 < j < t1 && !is_ws(#[trigger] c[j])
}

/// The lines of a text lie in it, each starting where its text does.
proof fn lemma_lines_in(c: Seq<char>)
    requires
        c.len() <= usize::MAX,
    ensures
        forall|j: int|
            0 <= j < yaml_lines(c).len() ==> (#[trigger] yaml_lines(c)[j]).first <= yaml_lines(
                c,
            )[j].end <= c.len(),
{
    crate::blanking::lemma_lines_shape(c, c, 0, 0);
    let ls = yaml_lines(c);
    assert forall|j: int| 0 <= j < ls.len() implies (#[trigger] ls[j]).first <= ls[j].end
        <= c.len() by {
        crate::ranges::lemma_ws_back_bounds(
            c,
            ls[j].start as int,
            crate::text::next_newline(c, ls[j].start as int),
        );
    }
}

/// The kept lines are the lines that are neither blank nor comments.
pub proof fn lemma_kept_content(c: Seq<char>, ls: Seq<Line>)
    requires
        forall|j: int| 0 <= j < ls.len() ==> (#[trigger] ls[j]).first <= ls[j].end,
    ensures
        kept_lines(c, ls) == content_lines(c, ls),
    decreases ls.len(),
{
    if ls.len() > 0 {
        assert(ls.last() == ls[ls.len() - 1]);
        lemma_trim_bounds(c, ls.last().first as int, ls.last().end as int);
        lemma_kept_content(c, ls.drop_last());
    }
}

/// Each content line is a line that is neither blank nor a comment.
proof fn lemma_content_from(c: Seq<char>, ls: Seq<Line>, p: spec_fn(Line) -> bool)
    requires
        forall|j: int| 0 <= j < ls.len() && !quiet_line(c, #[trigger] ls[j]) ==> p(ls[j]),
    ensures
        forall|m: int|
            0 <= m < content_lines(c, ls).len() ==> p(#[trigger] content_lines(c, ls)[m]),
    decreases ls.len(),
{
    if ls.len() > 0 {
        let d = ls.drop_last();
        assert forall|j: int| 0 <= j < d.len() && !quiet_line(c, #[trigger] d[j]) implies p(d[j]) by {
            assert(d[j] == ls[j]);
        }
        lemma_content_from(c, d, p);
        assert(ls.last() == ls[ls.len() - 1]);
        let kd = content_lines(c, d);
        let k = content_lines(c, ls);
        assert forall|m: int| 0 <= m < k.len() implies p(#[trigger] k[m]) by {
            if m < kd.len() {
                assert(k[m] == kd[m]);
            } else {
                assert(k[m] == ls.last());
            }
        }
    }
}

/// A text whose lines are none of them a "---" line, and not all blank or
/// comments, is one document of its content lines.
proof fn lemma_flat_document(c: Seq<char>)
    requires
        c.len() <= usize::MAX,
        forall|j: int| 0 <= j < yaml_lines(c).len() ==> !dashes_line(c, #[trigger] yaml_lines(c)[j]),
        content_lines(c, yaml_lines(c)).len() > 0,
    ensures
        ({
            let dl = content_lines(c, yaml_lines(c));
            spec_parse(c) == seq![
                stream_start_utf8(origin()),
                document_start(block_start(c, dl), false),
            ] + content_events(c, dl) + seq![
                document_end(block_end(dl)),
                stream_end(text_end(c, yaml_lines(c))),
            ]
        }),
{
    let ls = yaml_lines(c);
    lemma_lines_in(c);
    lemma_kept_content(c, ls);
    let dl = content_lines(c, ls);
    assert forall|j: int| 0 <= j < ls.len() implies !is_doc_marker(c, #[trigger] ls[j]) by {
        if is_doc_marker(c, ls[j]) {
            crate::block_laws::lemma_marker_dashes(c, ls[j]);
        }
    }
    lemma_markers_none(c, ls);
    // the text is not blank: a content line has a character that is not
    lemma_content_from(c, ls, |l: Line| !quiet_line(c, l) && l.first <= l.end <= c.len());
    let l = dl[0];
    lemma_trim_bounds(c, l.first as int, l.end as int);
    lemma_trim_bounds(c, 0, c.len() as int);
    let t0 = trimmed(c, l).0;
    assert(!is_ws(c[t0]));
    crate::block_laws::lemma_one_document(c);
}

/// What a `key: value` line yields: its key, and its value, all of it.
pub proof fn lemma_pair_line(c: Seq<char>, l: Line)
    requires
        l.first <= l.end <= c.len(),
        pair_line(c, l),
    ensures
        ({
            let (t0, t1) = trimmed(c, l);
            let p = colon(c, l);
            let (kb, ke) = trim_bounds(c, t0, p);
            let (vb, ve) = trim_bounds(c, p + 1, t1);
            &&& mapping_line(c, l)
            &&& find_in(c, ':', t0, t1) == Some(p)
            &&& t0 <= p < t1
            &&& vb < ve
            &&& is_scalar(key_event(c, l, kb, ke), spec_clean(key_text(c, l)), None)
            &&& is_scalar(
                value_event(c, l, vb, ve),
                spec_process_value(value_text(c, l)).0,
                spec_process_value(value_text(c, l)).1,
            )
        }),
{
    lemma_trim_bounds(c, l.first as int, l.end as int);
    let (t0, t1) = trimmed(c, l);
    crate::model::lemma_find_in(c, ':', t0, t1);
    let p = colon(c, l);
    // a mapping line
    lemma_ws_fwd_is(c, l.first as int, l.end as int, t0);
    crate::model::lemma_find_in(c, ':', l.first as int, l.end as int);
    assert(c[p] == ':');
    assert(find_in(c, ':', l.first as int, l.end as int) is Some);
    // the key
    let ks = c.subrange(t0, p);
    assert(shifted(c, t0, ks, 0, ks.len() as int));
    lemma_clean_shift(c, t0, ks, 0, ks.len() as int);
    lemma_clean_in(ks, 0, ks.len() as int);
    lemma_trim_twice(c, t0, p);
    lemma_trim_bounds(c, t0, p);
    let (kb, ke) = trim_bounds(c, t0, p);
    assert(clean_bounds(c, kb, ke) == clean_bounds(c, t0, p));
    let kc = clean_bounds(ks, 0, ks.len() as int);
    assert(c.subrange(t0 + kc.0, t0 + kc.1) =~= ks.subrange(kc.0, kc.1));
    // the value
    let vs = c.subrange(p + 1, t1);
    let j = choose|j: int| p < j < t1 && !is_ws(#[trigger] c[j]);
    lemma_trim_bounds(c, p + 1, t1);
    let (vb, ve) = trim_bounds(c, p + 1, t1);
    assert(vb < ve) by {
        if vb == ve {
            assert(is_ws(c[j]));
        }
    }
    lemma_trim_twice(c, p + 1, t1);
    assert(value_bounds(c, vb, ve) == value_bounds(c, p + 1, t1));
    assert(shifted(c, p + 1, vs, 0, vs.len() as int));
    lemma_value_shift(c, p + 1, vs, 0, vs.len() as int);
    let (vv, vt) = value_bounds(vs, 0, vs.len() as int);
    lemma_tag_shift(c, p + 1, vs, 0, vs.len() as int, vt);
    assert(c.subrange(p + 1 + vv.0, p + 1 + vv.1) =~= vs.subrange(vv.0, vv.1));
}

/// What a `- item` line yields: its item, all of it.
proof fn lemma_item_line(c: Seq<char>, l: Line)
    requires
        l.first <= l.end <= c.len(),
        item_line_of(c, l),
    ensures
        dash_line(c, l),
        !mapping_line(c, l),
        item_events(c, l).len() == 1,
        is_scalar(
            item_events(c, l)[0],
            spec_process_value(item_text(c, l)).0,
            spec_process_value(item_text(c, l)).1,
        ),
{
    lemma_trim_bounds(c, l.first as int, l.end as int);
    let (t0, t1) = trimmed(c, l);
    lemma_ws_fwd_is(c, l.first as int, l.end as int, t0);
    let vs = c.subrange(t0 + 1, t1);
    let j = choose|j: int| t0 < j < t1 && !is_ws(#[trigger] c[j]);
    lemma_trim_bounds(c, t0 + 1, t1);
    let (ib, ie) = trim_bounds(c, t0 + 1, t1);
    assert(ib < ie) by {
        if ib == ie {
            assert(is_ws(c[j]));
        }
    }
    lemma_trim_twice(c, t0 + 1, t1);
    assert(value_bounds(c, ib, ie) == value_bounds(c, t0 + 1, t1));
    assert(shifted(c, t0 + 1, vs, 0, vs.len() as int));
    lemma_value_shift(c, t0 + 1, vs, 0, vs.len() as int);
    let (vv, vt) = value_bounds(vs, 0, vs.len() as int);
    lemma_tag_shift(c, t0 + 1, vs, 0, vs.len() as int, vt);
    assert(c.subrange(t0 + 1 + vv.0, t0 + 1 + vv.1) =~= vs.subrange(vv.0, vv.1));
}

/// The events of `key: value` lines `ls[i..]`: their keys and values in turn.
proof fn lemma_pairs_from(c: Seq<char>, ls: Seq<Line>, i: int)
    requires
        0 <= i <= ls.len(),
        forall|m: int|
            0 <= m < ls.len() ==> (#[trigger] ls[m]).first <= ls[m].end <= c.len() && pair_line(
                c,
                ls[m],
            ),
    ensures
        mapping_from(c, ls, i).len() == 2 * (ls.len() - i),
        forall|m: int|
            i <= m < ls.len() ==> is_scalar(
                mapping_from(c, ls, i)[2 * (m - i)],
                spec_clean(key_text(c, #[trigger] ls[m])),
                None,
            ) && is_scalar(
                mapping_from(c, ls, i)[2 * (m - i) + 1],
                spec_process_value(value_text(c, ls[m])).0,
                spec_process_value(value_text(c, ls[m])).1,
            ),
    decreases ls.len() - i,
{
    if i < ls.len() {
        lemma_pairs_from(c, ls, i + 1);
        let l = ls[i];
        lemma_pair_line(c, l);
        let (t0, t1) = trimmed(c, l);
        let p = colon(c, l);
        let (kb, ke) = trim_bounds(c, t0, p);
        let (vb, ve) = trim_bounds(c, p + 1, t1);
        let rest = mapping_from(c, ls, i + 1);
        let all = mapping_from(c, ls, i);
        assert(all == seq![key_event(c, l, kb, ke)] + seq![value_event(c, l, vb, ve)] + rest);
        assert forall|m: int| i <= m < ls.len() implies is_scalar(
            all[2 * (m - i)],
            spec_clean(key_text(c, #[trigger] ls[m])),
            None,
        ) && is_scalar(
            all[2 * (m - i) + 1],
            spec_process_value(value_text(c, ls[m])).0,
            spec_process_value(value_text(c, ls[m])).1,
        ) by {
            if m > i {
                assert(all[2 * (m - i)] == rest[2 * (m - (i + 1))]);
                assert(all[2 * (m - i) + 1] == rest[2 * (m - (i + 1)) + 1]);
            }
        }
    }
}

/// The events of `- item` lines `ls[i..]`: their items in turn.
proof fn lemma_items_from(c: Seq<char>, ls: Seq<Line>, i: int)
    requires
        0 <= i <= ls.len(),
        forall|m: int|
            0 <= m < ls.len() ==> (#[trigger] ls[m]).first <= ls[m].end <= c.len() && item_line_of(
                c,
                ls[m],
            ),
    ensures
        sequence_from(c, ls, i).len() == ls.len() - i,
        forall|m: int|
            i <= m < ls.len() ==> is_scalar(
                sequence_from(c, ls, i)[m - i],
                spec_process_value(item_text(c, #[trigger] ls[m])).0,
                spec_process_value(item_text(c, ls[m])).1,
            ),
    decreases ls.len() - i,
{
    if i < ls.len() {
        lemma_items_from(c, ls, i + 1);
        lemma_item_line(c, ls[i]);
        let rest = sequence_from(c, ls, i + 1);
        let all = sequence_from(c, ls, i);
        assert(all == item_events(c, ls[i]) + rest);
        assert forall|m: int| i <= m < ls.len() implies is_scalar(
            all[m - i],
            spec_process_value(item_text(c, #[trigger] ls[m])).0,
            spec_process_value(item_text(c, ls[m])).1,
        ) by {
            if m > i {
                assert(all[m - i] == rest[m - (i + 1)]);
            }
        }
    }
}

/// A document of `key: value` lines is one mapping of their pairs, in
/// order: for each line that is neither blank nor a comment, its key
/// (cleaned as `clean_yaml_string` cleans it) and then its value, the whole
/// of its text after the first ':' (resolved as `process_yaml_value` does
/// it), whatever the line's place or indentation.
#[verifier::rlimit(40)]
pub proof fn flat_mapping(c: Seq<char>)
    requires
        c.len() <= usize::MAX,
        forall|j: int| 0 <= j < yaml_lines(c).len() ==> !dashes_line(c, #[trigger] yaml_lines(c)[j]),
        forall|j: int|
            0 <= j < yaml_lines(c).len() && !quiet_line(c, #[trigger] yaml_lines(c)[j])
                ==> pair_line(c, yaml_lines(c)[j]),
        content_lines(c, yaml_lines(c)).len() > 0,
    ensures
        ({
            let p = spec_parse(c);
            let cl = content_lines(c, yaml_lines(c));
            &&& p.len() == 2 * cl.len() + 6
            &&& p[0] is StreamStart
            &&& p[1] is DocumentStart
            &&& p[2] is MappingStart
            &&& forall|m: int|
                0 <= m < cl.len() ==> is_scalar(
                    p[3 + 2 * m],
                    spec_clean(key_text(c, #[trigger] cl[m])),
                    None,
                ) && is_scalar(
                    p[4 + 2 * m],
                    spec_process_value(value_text(c, cl[m])).0,
                    spec_process_value(value_text(c, cl[m])).1,
                )
            &&& p[p.len() - 3] is MappingEnd
            &&& p[p.len() - 2] is DocumentEnd
            &&& p[p.len() - 1] is StreamEnd
        }),
{
    let ls = yaml_lines(c);
    lemma_lines_in(c);
    lemma_flat_document(c);
    let dl = content_lines(c, ls);
    lemma_content_from(c, ls, |l: Line| l.first <= l.end <= c.len() && pair_line(c, l));
    lemma_pairs_from(c, dl, 0);
    lemma_pair_line(c, dl[0]);
    assert(mapping_line(c, dl[0]));
    assert(any_mapping_line(c, dl));
    let m = mapping_from(c, dl, 0);
    let p = spec_parse(c);
    assert forall|k: int| 0 <= k < dl.len() implies is_scalar(
        p[3 + 2 * k],
        spec_clean(key_text(c, #[trigger] dl[k])),
        None,
    ) && is_scalar(
        p[4 + 2 * k],
        spec_process_value(value_text(c, dl[k])).0,
        spec_process_value(value_text(c, dl[k])).1,
    ) by {
        assert(p[3 + 2 * k] == m[2 * (k - 0)]);
        assert(p[4 + 2 * k] == m[2 * (k - 0) + 1]);
    }
}

/// A document of `- item` lines is one sequence of their items, in order:
/// for each line that is neither blank nor a comment, the whole of its
/// text after its leading '-' (resolved as `process_yaml_value` does it;
/// a second '-' is part of the item).
#[verifier::rlimit(40)]
pub proof fn flat_sequence(c: Seq<char>)
    requires
        c.len() <= usize::MAX,
        forall|j: int| 0 <= j < yaml_lines(c).len() ==> !dashes_line(c, #[trigger] yaml_lines(c)[j]),
        forall|j: int|
            0 <= j < yaml_lines(c).len() && !quiet_line(c, #[trigger] yaml_lines(c)[j])
                ==> item_line_of(c, yaml_lines(c)[j]),
        content_lines(c, yaml_lines(c)).len() > 0,
    ensures
        ({
            let p = spec_parse(c);
            let cl = content_lines(c, yaml_lines(c));
            &&& p.len() == cl.len() + 6
            &&& p[0] is StreamStart
            &&& p[1] is DocumentStart
            &&& p[2] is SequenceStart
            &&& forall|m: int|
                0 <= m < cl.len() ==> is_scalar(
                    p[3 + m],
                    spec_process_value(item_text(c, #[trigger] cl[m])).0,
                    spec_process_value(item_text(c, cl[m])).1,
                )
            &&& p[p.len() - 3] is SequenceEnd
            &&& p[p.len() - 2] is DocumentEnd
            &&& p[p.len() - 1] is StreamEnd
        }),
{
    let ls = yaml_lines(c);
    lemma_lines_in(c);
    lemma_flat_document(c);
    let dl = content_lines(c, ls);
    lemma_content_from(c, ls, |l: Line| l.first <= l.end <= c.len() && item_line_of(c, l));
    lemma_items_from(c, dl, 0);
    assert forall|k: int| 0 <= k < dl.len() implies !mapping_line(c, #[trigger] dl[k]) by {
        lemma_item_line(c, dl[k]);
    }
    lemma_item_line(c, dl[0]);
    assert(!any_mapping_line(c, dl));
    assert(dash_line(c, dl[0]));
    assert(any_dash_line(c, dl));
    let s = sequence_from(c, dl, 0);
    let p = spec_parse(c);
    assert forall|k: int| 0 <= k < dl.len() implies is_scalar(
        p[3 + k],
        spec_process_value(item_text(c, #[trigger] dl[k])).0,
        spec_process_value(item_text(c, dl[k])).1,
    ) by {
        assert(p[3 + k] == s[k - 0]);
    }
}

} // verus!
