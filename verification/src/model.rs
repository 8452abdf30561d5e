//! What parsing a text yields, stated over its characters: the lines of the
//! text, the documents that `---` lines separate, the events of each
//! document's mapping, sequence or scalar, and where in the text each event
//! stands.
use crate::event::{
    document_end, document_start, empty_document_model, mapping_end, mapping_start, models,
    origin, plain_scalar, sequence_end, sequence_start, stream_end, stream_start_utf8,
    EventModel, Mark, PyEvent,
};
use crate::scalar::{clean_bounds, full_tag_of, value_bounds};
use crate::text::{find_in, indent, trim_bounds, ws_fwd, yaml_lines, Line};
use vstd::prelude::*;

verus! {

/// The mark of character index `p` on line `l`: the line's number, the
/// column `p - l.start` and the index `p`, all counted from 0.
pub open spec fn pos(l: Line, p: int) -> Mark {
    Mark { line: l.number, column: (p - l.start) as usize, index: p as usize }
}

/// `body` between an opening and a closing event.
pub open spec fn wrap(open: EventModel, body: Seq<EventModel>, close: EventModel) -> Seq<
    EventModel,
> {
    seq![open] + body + seq![close]
}

/// Going from the events `before` to the events `after` appended exactly
/// the events `d`.
pub open spec fn appended(before: Seq<PyEvent>, after: Seq<PyEvent>, d: Seq<EventModel>) -> bool {
    models(after) == models(before) + d
}

pub proof fn lemma_appended_chain(
    e0: Seq<PyEvent>,
    e1: Seq<PyEvent>,
    e2: Seq<PyEvent>,
    a: Seq<EventModel>,
    b: Seq<EventModel>,
)
    requires
        appended(e0, e1, a),
        appended(e1, e2, b),
    ensures
        appended(e0, e2, a + b),
{
    assert(models(e2) =~= models(e0) + (a + b));
}

pub proof fn lemma_appended_none(e: Seq<PyEvent>)
    ensures
        appended(e, e, Seq::<EventModel>::empty()),
{
    assert(models(e) =~= models(e) + Seq::<EventModel>::empty());
}

pub proof fn lemma_appended_push(e: Seq<PyEvent>, x: PyEvent)
    ensures
        appended(e, e.push(x), seq![x@]),
{
    assert(models(e.push(x)) =~= models(e) + seq![x@]);
}

pub proof fn lemma_cat_assoc(a: Seq<EventModel>, b: Seq<EventModel>, c: Seq<EventModel>)
    ensures
        a + b + c == a + (b + c),
{
    assert(a + b + c =~= a + (b + c));
}

/// After its leading whitespace, the line begins with '-'.
pub open spec fn dash_line(c: Seq<char>, l: Line) -> bool {
    let f = ws_fwd(c, l.first as int, l.end as int);
    f < l.end && c[f] == '-'
}

/// The line holds a ':' and is no sequence item.
pub open spec fn mapping_line(c: Seq<char>, l: Line) -> bool {
    find_in(c, ':', l.first as int, l.end as int) is Some && !dash_line(c, l)
}

pub open spec fn any_mapping_line(c: Seq<char>, ls: Seq<Line>) -> bool {
    exists|k: int| 0 <= k < ls.len() && #[trigger] mapping_line(c, ls[k])
}

pub open spec fn any_dash_line(c: Seq<char>, ls: Seq<Line>) -> bool {
    exists|k: int| 0 <= k < ls.len() && #[trigger] dash_line(c, ls[k])
}

/// Where a block of lines starts: the first non-blank character of its
/// first line.
pub open spec fn block_start(c: Seq<char>, ls: Seq<Line>) -> Mark {
    pos(ls[0], ws_fwd(c, ls[0].first as int, ls[0].end as int))
}

/// Where a block of lines ends: the end of its last line's text.
pub open spec fn block_end(ls: Seq<Line>) -> Mark {
    pos(ls.last(), ls.last().end as int)
}

/// The scalar of the trimmed value `c[b..e]` on line `l`: its cleaned
/// text and resolved tag, spanning `b..e`.
pub open spec fn value_event(c: Seq<char>, l: Line, b: int, e: int) -> EventModel {
    let (v, t) = value_bounds(c, b, e);
    plain_scalar(c.subrange(v.0, v.1), full_tag_of(c, t), pos(l, b), pos(l, e))
}

/// The scalar of the trimmed key `c[b..e]` on line `l`: its cleaned text,
/// spanning `b..e`.
pub open spec fn key_event(c: Seq<char>, l: Line, b: int, e: int) -> EventModel {
    let v = clean_bounds(c, b, e);
    plain_scalar(c.subrange(v.0, v.1), None, pos(l, b), pos(l, e))
}

/// The event of one line of a sequence: a line "- item" with a non-empty
/// item gives the item's scalar; any other line gives nothing.
pub open spec fn item_events(c: Seq<char>, l: Line) -> Seq<EventModel> {
    let (t0, t1) = trim_bounds(c, l.first as int, l.end as int);
    if t0 < t1 && c[t0] == '-' {
        let (ib, ie) = trim_bounds(c, t0 + 1, t1);
        if ib < ie {
            seq![value_event(c, l, ib, ie)]
        } else {
            seq![]
        }
    } else {
        seq![]
    }
}

/// The events of the sequence lines `ls[i..]`.
pub open spec fn sequence_from(c: Seq<char>, ls: Seq<Line>, i: int) -> Seq<EventModel>
    decreases ls.len() - i,
{
    if 0 <= i < ls.len() {
        item_events(c, ls[i]) + sequence_from(c, ls, i + 1)
    } else {
        seq![]
    }
}

/// The first index at or after `k` whose line is not indented deeper than
/// `ind` bytes or is blank: the end of the block nested under a key.
pub open spec fn nested_end(c: Seq<char>, ls: Seq<Line>, k: int, ind: int) -> int
    decreases ls.len() - k,
{
    if 0 <= k < ls.len() && indent(c, ls[k]) > ind && trim_bounds(
        c,
        ls[k].first as int,
        ls[k].end as int,
    ).0 < trim_bounds(c, ls[k].first as int, ls[k].end as int).1 {
        nested_end(c, ls, k + 1, ind)
    } else {
        k
    }
}

pub proof fn lemma_nested_end_bounds(c: Seq<char>, ls: Seq<Line>, k: int, ind: int)
    requires
        0 <= k <= ls.len(),
    ensures
        k <= nested_end(c, ls, k, ind) <= ls.len(),
    decreases ls.len() - k,
{
    if k < ls.len() && indent(c, ls[k]) > ind && trim_bounds(
        c,
        ls[k].first as int,
        ls[k].end as int,
    ).0 < trim_bounds(c, ls[k].first as int, ls[k].end as int).1 {
        lemma_nested_end_bounds(c, ls, k + 1, ind);
    }
}

/// The events of the mapping lines `ls[i..]`. A line with a ':' gives the
/// key's scalar and then one value node: the scalar of a non-empty value
/// after the ':'; else the events of the block of deeper-indented lines
/// that follows (a mapping if one of them is a mapping line, else a
/// sequence if one of them is a sequence item), parsing going on after
/// that block; else an empty scalar just after the ':'. Lines with no ':'
/// give nothing.
pub open spec fn mapping_from(c: Seq<char>, ls: Seq<Line>, i: int) -> Seq<EventModel>
    decreases ls.len(), ls.len() - i,
{
    if 0 <= i < ls.len() {
        let l = ls[i];
        let (t0, t1) = trim_bounds(c, l.first as int, l.end as int);
        match find_in(c, ':', t0, t1) {
            None => mapping_from(c, ls, i + 1),
            Some(p) => {
                let (kb, ke) = trim_bounds(c, t0, p);
                let key = seq![key_event(c, l, kb, ke)];
                let (vb, ve) = trim_bounds(c, p + 1, t1);
                if vb < ve {
                    key + seq![value_event(c, l, vb, ve)] + mapping_from(c, ls, i + 1)
                } else {
                    let j = nested_end(c, ls, i + 1, indent(c, l));
                    proof {
                        lemma_nested_end_bounds(c, ls, i + 1, indent(c, l));
                    }
                    let nested = ls.subrange(i + 1, j);
                    let inner = if nested.len() > 0 && any_mapping_line(c, nested) {
                        wrap(
                            mapping_start(block_start(c, nested)),
                            mapping_from(c, nested, 0),
                            mapping_end(block_end(nested)),
                        )
                    } else if nested.len() > 0 && any_dash_line(c, nested) {
                        wrap(
                            sequence_start(block_start(c, nested)),
                            sequence_from(c, nested, 0),
                            sequence_end(block_end(nested)),
                        )
                    } else {
                        seq![value_event(c, l, vb, ve)]
                    };
                    key + inner + mapping_from(c, ls, j)
                }
            },
        }
    } else {
        seq![]
    }
}

/// The events of a block of lines nested under a key, or of a document's
/// lines: a mapping if one line is a mapping line, else a sequence if one
/// line is a sequence item, else nothing.
pub open spec fn block_events(c: Seq<char>, ls: Seq<Line>) -> Seq<EventModel> {
    if ls.len() == 0 {
        seq![]
    } else if any_mapping_line(c, ls) {
        wrap(mapping_start(block_start(c, ls)), mapping_from(c, ls, 0), mapping_end(block_end(ls)))
    } else if any_dash_line(c, ls) {
        wrap(
            sequence_start(block_start(c, ls)),
            sequence_from(c, ls, 0),
            sequence_end(block_end(ls)),
        )
    } else {
        seq![]
    }
}

/// The events of a document's content lines: those of `block_events`, or,
/// for a single line that is neither a mapping line nor a sequence item,
/// the trimmed line as a scalar.
pub open spec fn content_events(c: Seq<char>, dl: Seq<Line>) -> Seq<EventModel> {
    if dl.len() == 1 && !any_mapping_line(c, dl) && !any_dash_line(c, dl) {
        let l = dl[0];
        let (t0, t1) = trim_bounds(c, l.first as int, l.end as int);
        seq![plain_scalar(c.subrange(t0, t1), None, pos(l, t0), pos(l, t1))]
    } else {
        block_events(c, dl)
    }
}

/// A document separator: the trimmed line is "---" or starts with "--- ".
pub open spec fn is_doc_marker(c: Seq<char>, l: Line) -> bool {
    let (t0, t1) = trim_bounds(c, l.first as int, l.end as int);
    let t = c.subrange(t0, t1);
    ||| t == seq!['-', '-', '-']
    ||| (t.len() >= 4 && t.subrange(0, 4) == seq!['-', '-', '-', ' '])
}

/// Indices of the separator lines, in increasing order.
pub open spec fn markers(c: Seq<char>, ls: Seq<Line>) -> Seq<int>
    decreases ls.len(),
{
    if ls.len() == 0 {
        seq![]
    } else if is_doc_marker(c, ls.last()) {
        markers(c, ls.drop_last()).push(ls.len() - 1)
    } else {
        markers(c, ls.drop_last())
    }
}

/// Neither blank nor a comment.
pub open spec fn keep_line(c: Seq<char>, l: Line) -> bool {
    let (t0, t1) = trim_bounds(c, l.first as int, l.end as int);
    t0 < t1 && c[t0] != '#'
}

/// The lines that `keep_line` keeps, in order.
pub open spec fn kept_lines(c: Seq<char>, ls: Seq<Line>) -> Seq<Line>
    decreases ls.len(),
{
    if ls.len() == 0 {
        seq![]
    } else if keep_line(c, ls.last()) {
        kept_lines(c, ls.drop_last()).push(ls.last())
    } else {
        kept_lines(c, ls.drop_last())
    }
}

/// First line of document `i`: just after the separator before it.
pub open spec fn segment_start(ms: Seq<int>, i: int) -> int {
    if i == 0 {
        0
    } else {
        ms[i - 1] + 1
    }
}

/// End of document `i`: its separator, or the end of the text.
pub open spec fn segment_end(n: int, ms: Seq<int>, i: int) -> int {
    if i == ms.len() {
        n
    } else {
        ms[i]
    }
}

/// The part of the separator line `l` after "--- ": a line whose text
/// starts after those four characters (empty for a bare "---").
pub open spec fn after_marker(c: Seq<char>, l: Line) -> Line {
    let (t0, t1) = trim_bounds(c, l.first as int, l.end as int);
    Line {
        start: l.start,
        first: (if t1 - t0 >= 4 {
            t0 + 4
        } else {
            t1
        }) as usize,
        end: l.end,
        number: l.number,
    }
}

/// The candidate lines of document `i`: for all but the first document,
/// the text after its separator, then the lines up to the next separator.
pub open spec fn segment_lines(ls: Seq<Line>, ms: Seq<int>, i: int, c: Seq<char>) -> Seq<Line> {
    let s = segment_start(ms, i);
    let e = segment_end(ls.len() as int, ms, i);
    let body = if s < e {
        ls.subrange(s, e)
    } else {
        seq![]
    };
    if i == 0 {
        body
    } else {
        seq![after_marker(c, ls[ms[i - 1]])] + body
    }
}

/// The kept lines of document `i`.
pub open spec fn document_lines(c: Seq<char>, ls: Seq<Line>, ms: Seq<int>, i: int) -> Seq<Line> {
    kept_lines(c, segment_lines(ls, ms, i, c))
}

/// The events of document `i`: nothing if it keeps no line, else its
/// content between a document start at its first kept line (explicit for
/// all but the first document) and a document end at the end of its last
/// kept line.
pub open spec fn document_events(c: Seq<char>, ls: Seq<Line>, ms: Seq<int>, i: int) -> Seq<
    EventModel,
> {
    let dl = document_lines(c, ls, ms, i);
    if dl.len() == 0 {
        seq![]
    } else {
        wrap(
            document_start(block_start(c, dl), i > 0),
            content_events(c, dl),
            document_end(block_end(dl)),
        )
    }
}

/// The events of documents `i..=ms.len()`.
pub open spec fn documents_from(c: Seq<char>, ls: Seq<Line>, ms: Seq<int>, i: int) -> Seq<
    EventModel,
>
    decreases ms.len() + 1 - i,
{
    if 0 <= i <= ms.len() {
        document_events(c, ls, ms, i) + documents_from(c, ls, ms, i + 1)
    } else {
        seq![]
    }
}

/// The mark of the end of the text.
pub open spec fn text_end(c: Seq<char>, ls: Seq<Line>) -> Mark {
    if c.len() == 0 {
        origin()
    } else if c.last() == '\n' {
        Mark { line: ls.len() as usize, column: 0, index: c.len() as usize }
    } else {
        pos(ls.last(), c.len() as int)
    }
}

/// The events of a text as its documents: the documents inside a stream
/// that names the encoding "utf-8" and spans the whole text.
pub open spec fn stream_events(c: Seq<char>) -> Seq<EventModel> {
    let ls = yaml_lines(c);
    wrap(
        stream_start_utf8(origin()),
        documents_from(c, ls, markers(c, ls), 0),
        stream_end(text_end(c, ls)),
    )
}

/// The events of a text.
pub open spec fn spec_parse(c: Seq<char>) -> Seq<EventModel> {
    let (b, e) = trim_bounds(c, 0, c.len() as int);
    if b == e {
        empty_document_model()
    } else {
        stream_events(c)
    }
}

pub proof fn lemma_find_in(c: Seq<char>, ch: char, k: int, hi: int)
    requires
        0 <= k <= hi <= c.len(),
    ensures
        find_in(c, ch, k, hi) is Some <==> exists|j: int| k <= j < hi && c[j] == ch,
        find_in(c, ch, k, hi) matches Some(p) ==> k <= p < hi && c[p] == ch,
    decreases hi - k,
{
    if k < hi {
        lemma_find_in(c, ch, k + 1, hi);
        if c[k] != ch && find_in(c, ch, k + 1, hi) is None {
            assert forall|j: int| k <= j < hi implies c[j] != ch by {
                if j > k {
                }
            }
        }
    }
}

} // verus!
