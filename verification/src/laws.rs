//! Properties that hold of every parse: the event stream is framed by a
//! stream start and a stream end, its start and end events nest, every
//! scalar is taken from the text, and every mark is a true position in it.
use crate::event::{
    document_end, document_start, empty_document_model, mapping_end, mapping_start, origin,
    plain_scalar, sequence_end, sequence_start, stream_end, stream_start_utf8, EventModel, Mark,
};
use crate::model::{
    any_dash_line, any_mapping_line, block_end, block_events, block_start, content_events,
    after_marker, document_events, document_lines, documents_from, segment_lines, item_events, key_event, kept_lines,
    lemma_find_in, lemma_nested_end_bounds, mapping_from, markers, nested_end, pos,
    segment_end, segment_start, sequence_from, spec_parse, stream_events, text_end, value_event,
    wrap,
};
use crate::scalar::{clean_bounds, full_tag_of, is_tagged, tag_prefix, value_bounds};
use crate::text::{
    find_in, indent, is_ws, lemma_next_newline_bounds, lines_from, next_newline, trim_bounds,
    ws_back, ws_fwd, yaml_lines, Line,
};
use vstd::prelude::*;

verus! {

/// The kinds of nested regions of an event stream.
pub enum Frame {
    Stream,
    Document,
    Mapping,
    Sequence,
}

/// The region that an event opens, if it is a start event.
pub open spec fn opens(e: EventModel) -> Option<Frame> {
    match e {
        EventModel::StreamStart { .. } => Some(Frame::Stream),
        EventModel::DocumentStart { .. } => Some(Frame::Document),
        EventModel::MappingStart { .. } => Some(Frame::Mapping),
        EventModel::SequenceStart { .. } => Some(Frame::Sequence),
        _ => None,
    }
}

/// The region that an event closes, if it is an end event.
pub open spec fn closes(e: EventModel) -> Option<Frame> {
    match e {
        EventModel::StreamEnd { .. } => Some(Frame::Stream),
        EventModel::DocumentEnd { .. } => Some(Frame::Document),
        EventModel::MappingEnd { .. } => Some(Frame::Mapping),
        EventModel::SequenceEnd { .. } => Some(Frame::Sequence),
        _ => None,
    }
}

/// The stack of open regions after `e`, or `None` if `e` closes a region
/// that is not the innermost open one.
pub open spec fn step(e: EventModel, stack: Seq<Frame>) -> Option<Seq<Frame>> {
    match opens(e) {
        Some(f) => Some(stack.push(f)),
        None => match closes(e) {
            Some(f) => if stack.len() > 0 && stack.last() == f {
                Some(stack.drop_last())
            } else {
                None
            },
            None => Some(stack),
        },
    }
}

/// The stack of open regions after the events `s`, starting from `stack`.
pub open spec fn run(s: Seq<EventModel>, stack: Seq<Frame>) -> Option<Seq<Frame>>
    decreases s.len(),
{
    if s.len() == 0 {
        Some(stack)
    } else {
        match step(s[0], stack) {
            Some(next) => run(s.drop_first(), next),
            None => None,
        }
    }
}

/// Every end event closes the innermost open region of its own kind, and
/// every region that is opened is closed.
pub open spec fn well_nested(s: Seq<EventModel>) -> bool {
    run(s, seq![]) == Some(Seq::<Frame>::empty())
}

/// `s` closes what it opens and leaves the regions around it alone.
pub open spec fn balanced(s: Seq<EventModel>) -> bool {
    forall|stack: Seq<Frame>| #[trigger] run(s, stack) == Some(stack)
}

proof fn lemma_run_concat(a: Seq<EventModel>, b: Seq<EventModel>, stack: Seq<Frame>)
    ensures
        run(a + b, stack) == match run(a, stack) {
            Some(mid) => run(b, mid),
            None => None,
        },
    decreases a.len(),
{
    if a.len() > 0 {
        assert((a + b).drop_first() =~= a.drop_first() + b);
        assert((a + b)[0] == a[0]);
        match step(a[0], stack) {
            Some(next) => lemma_run_concat(a.drop_first(), b, next),
            None => {},
        }
    } else {
        assert(a + b =~= b);
    }
}

proof fn lemma_balanced_cat(a: Seq<EventModel>, b: Seq<EventModel>)
    requires
        balanced(a),
        balanced(b),
    ensures
        balanced(a + b),
{
    assert forall|stack: Seq<Frame>| #[trigger] run(a + b, stack) == Some(stack) by {
        lemma_run_concat(a, b, stack);
        assert(run(a, stack) == Some(stack));
        assert(run(b, stack) == Some(stack));
    }
}

proof fn lemma_balanced_empty()
    ensures
        balanced(Seq::<EventModel>::empty()),
{
}

proof fn lemma_balanced_single(e: EventModel)
    requires
        opens(e) is None,
        closes(e) is None,
    ensures
        balanced(seq![e]),
{
    assert forall|stack: Seq<Frame>| #[trigger] run(seq![e], stack) == Some(stack) by {
        reveal_with_fuel(run, 2);
        assert(seq![e].drop_first() =~= Seq::<EventModel>::empty());
    }
}

proof fn lemma_balanced_wrap(o: EventModel, body: Seq<EventModel>, c: EventModel)
    requires
        opens(o) is Some,
        closes(o) is None,
        closes(c) == opens(o),
        opens(c) is None,
        balanced(body),
    ensures
        balanced(seq![o] + body + seq![c]),
{
    assert forall|stack: Seq<Frame>| #[trigger] run(seq![o] + body + seq![c], stack) == Some(
        stack,
    ) by {
        let f = opens(o).unwrap();
        reveal_with_fuel(run, 2);
        lemma_run_concat(seq![o] + body, seq![c], stack);
        lemma_run_concat(seq![o], body, stack);
        assert(seq![o].drop_first() =~= Seq::<EventModel>::empty());
        assert(run(seq![o], stack) == Some(stack.push(f)));
        assert(run(body, stack.push(f)) == Some(stack.push(f)));
        assert(seq![c].drop_first() =~= Seq::<EventModel>::empty());
        assert(stack.push(f).drop_last() =~= stack);
    }
}

/// `x` is the text between two positions of `c`.
pub open spec fn is_piece(x: Seq<char>, c: Seq<char>) -> bool {
    exists|a: int, b: int| 0 <= a <= b <= c.len() && #[trigger] c.subrange(a, b) == x
}

/// A scalar event's value is a piece of `c`, and its tag, if any, is
/// "tag:yaml.org,2002:" followed by a piece of `c`.
pub open spec fn from_text(e: EventModel, c: Seq<char>) -> bool {
    match e {
        EventModel::Scalar { value, tag, .. } => {
            &&& is_piece(value, c)
            &&& (tag matches Some(t) ==> exists|p: Seq<char>|
                #![trigger is_piece(p, c)]
                is_piece(p, c) && t == tag_prefix() + p)
        },
        _ => true,
    }
}

/// Every scalar of `evs` comes from `c`.
pub open spec fn all_from_text(evs: Seq<EventModel>, c: Seq<char>) -> bool {
    forall|k: int| 0 <= k < evs.len() ==> from_text(#[trigger] evs[k], c)
}

/// Number of line feeds in `s`.
pub open spec fn newlines(s: Seq<char>) -> int
    decreases s.len(),
{
    if s.len() == 0 {
        0
    } else {
        newlines(s.drop_last()) + if s.last() == '\n' {
            1int
        } else {
            0int
        }
    }
}

/// Index of the first character of the line that holds index `p`.
pub open spec fn line_begin(c: Seq<char>, p: int) -> int
    decreases p,
{
    if p > 0 && c[p - 1] != '\n' {
        line_begin(c, p - 1)
    } else {
        p
    }
}

/// `m` is a position of `c`: its index lies in the text (or at its end),
/// its line is the number of line feeds before the index, and its column
/// is the distance from the start of that line, all counted from 0.
pub open spec fn is_position(c: Seq<char>, m: Mark) -> bool {
    &&& m.index <= c.len()
    &&& m.line == newlines(c.take(m.index as int))
    &&& m.column == m.index - line_begin(c, m.index as int)
}

/// Both marks of `e` are positions of `c`.
pub open spec fn placed(e: EventModel, c: Seq<char>) -> bool {
    is_position(c, e.start_mark()) && is_position(c, e.end_mark())
}

/// Every event of `evs` is placed in `c`.
pub open spec fn all_placed(evs: Seq<EventModel>, c: Seq<char>) -> bool {
    forall|k: int| 0 <= k < evs.len() ==> placed(#[trigger] evs[k], c)
}

/// `evs` nests, takes its scalars from `c`, and is placed in `c`.
pub open spec fn sound(evs: Seq<EventModel>, c: Seq<char>) -> bool {
    &&& balanced(evs)
    &&& all_from_text(evs, c)
    &&& all_placed(evs, c)
}

/// `l` is a line of `c` as `yaml_lines` gives it, or the part of one after
/// a separator: it starts a line, holds no line feed, and its number counts
/// the line feeds before it.
pub open spec fn good_line(c: Seq<char>, l: Line) -> bool {
    &&& l.start <= l.first <= l.end <= next_newline(c, l.start as int) <= c.len()
    &&& l.number == newlines(c.take(l.start as int))
    &&& line_begin(c, l.start as int) == l.start
}

pub open spec fn lines_good(c: Seq<char>, ls: Seq<Line>) -> bool {
    forall|k: int| 0 <= k < ls.len() ==> #[trigger] good_line(c, ls[k])
}

proof fn lemma_next_newline_clear(c: Seq<char>, k: int, j: int)
    requires
        0 <= k <= j < next_newline(c, k),
    ensures
        c[j] != '\n',
    decreases j - k,
{
    if k < j {
        assert(next_newline(c, k) == next_newline(c, k + 1));
        lemma_next_newline_clear(c, k + 1, j);
    }
}

/// A character index of a good line is placed where `pos` says.
proof fn lemma_pos_ok(c: Seq<char>, l: Line, p: int)
    requires
        c.len() <= usize::MAX,
        good_line(c, l),
        l.start <= p <= next_newline(c, l.start as int),
    ensures
        is_position(c, pos(l, p)),
    decreases p - l.start,
{
    if p > l.start {
        lemma_pos_ok(c, l, p - 1);
        lemma_next_newline_clear(c, l.start as int, p - 1);
        assert(c.take(p).drop_last() =~= c.take(p - 1));
    }
}

proof fn lemma_sound_cat(a: Seq<EventModel>, b: Seq<EventModel>, c: Seq<char>)
    requires
        sound(a, c),
        sound(b, c),
    ensures
        sound(a + b, c),
{
    lemma_balanced_cat(a, b);
    assert forall|k: int| 0 <= k < (a + b).len() implies from_text(#[trigger] (a + b)[k], c)
        && placed((a + b)[k], c) by {
        if k < a.len() {
            assert((a + b)[k] == a[k]);
        } else {
            assert((a + b)[k] == b[k - a.len()]);
        }
    }
}

proof fn lemma_sound_empty(c: Seq<char>)
    ensures
        sound(Seq::<EventModel>::empty(), c),
{
    lemma_balanced_empty();
}

proof fn lemma_sound_single(e: EventModel, c: Seq<char>)
    requires
        opens(e) is None,
        closes(e) is None,
        from_text(e, c),
        placed(e, c),
    ensures
        sound(seq![e], c),
{
    lemma_balanced_single(e);
    assert(seq![e][0] == e);
}

proof fn lemma_sound_wrap(o: EventModel, body: Seq<EventModel>, e: EventModel, c: Seq<char>)
    requires
        opens(o) is Some,
        closes(o) is None,
        closes(e) == opens(o),
        opens(e) is None,
        placed(o, c),
        placed(e, c),
        sound(body, c),
    ensures
        sound(wrap(o, body, e), c),
{
    lemma_balanced_wrap(o, body, e);
    let w = wrap(o, body, e);
    assert forall|k: int| 0 <= k < w.len() implies from_text(#[trigger] w[k], c) && placed(
        w[k],
        c,
    ) by {
        if 1 <= k < w.len() - 1 {
            assert(w[k] == body[k - 1]);
        } else if k == 0 {
            assert(w[k] == o);
        } else {
            assert(w[k] == e);
        }
    }
}

proof fn lemma_trim_bounds_in(c: Seq<char>, lo: int, hi: int)
    requires
        lo <= hi,
    ensures
        lo <= trim_bounds(c, lo, hi).0 <= trim_bounds(c, lo, hi).1 <= hi,
{
    lemma_ws_back_in(c, lo, hi);
    lemma_ws_fwd_in(c, lo, ws_back(c, lo, hi));
}

proof fn lemma_ws_back_in(c: Seq<char>, lo: int, k: int)
    requires
        lo <= k,
    ensures
        lo <= ws_back(c, lo, k) <= k,
    decreases k - lo,
{
    if lo < k && is_ws(c[k - 1]) {
        lemma_ws_back_in(c, lo, k - 1);
    }
}

proof fn lemma_ws_fwd_in(c: Seq<char>, k: int, hi: int)
    requires
        k <= hi,
    ensures
        k <= ws_fwd(c, k, hi) <= hi,
    decreases hi - k,
{
    if k < hi && is_ws(c[k]) {
        lemma_ws_fwd_in(c, k + 1, hi);
    }
}

proof fn lemma_clean_bounds_in(c: Seq<char>, lo: int, hi: int)
    requires
        lo <= hi,
    ensures
        lo <= clean_bounds(c, lo, hi).0 <= clean_bounds(c, lo, hi).1 <= hi,
{
    lemma_trim_bounds_in(c, lo, hi);
}

proof fn lemma_piece(c: Seq<char>, a: int, b: int)
    requires
        0 <= a <= b <= c.len(),
    ensures
        is_piece(c.subrange(a, b), c),
{
}

/// The scalar of the value `c[b..e]` of a line takes its text and tag
/// from `c` and is placed in it.
proof fn lemma_value_event_sound(c: Seq<char>, l: Line, b: int, e: int)
    requires
        c.len() <= usize::MAX,
        good_line(c, l),
        l.start <= b <= e <= l.end,
    ensures
        sound(seq![value_event(c, l, b, e)], c),
{
    let (tb, te) = trim_bounds(c, b, e);
    lemma_trim_bounds_in(c, b, e);
    let (v, t) = value_bounds(c, b, e);
    if is_tagged(c, tb, te) {
        let p = find_in(c, ' ', tb, te).unwrap();
        lemma_find_in(c, ' ', tb, te);
        lemma_trim_bounds_in(c, p + 1, te);
        let (vb, ve) = trim_bounds(c, p + 1, te);
        lemma_clean_bounds_in(c, vb, ve);
        lemma_piece(c, tb + 2, p);
        assert(full_tag_of(c, t) == Some(tag_prefix() + c.subrange(tb + 2, p)));
    } else {
        lemma_clean_bounds_in(c, tb, te);
    }
    lemma_piece(c, v.0, v.1);
    lemma_pos_ok(c, l, b);
    lemma_pos_ok(c, l, e);
    lemma_sound_single(value_event(c, l, b, e), c);
}

proof fn lemma_key_event_sound(c: Seq<char>, l: Line, b: int, e: int)
    requires
        c.len() <= usize::MAX,
        good_line(c, l),
        l.start <= b <= e <= l.end,
    ensures
        sound(seq![key_event(c, l, b, e)], c),
{
    lemma_clean_bounds_in(c, b, e);
    let v = clean_bounds(c, b, e);
    lemma_piece(c, v.0, v.1);
    lemma_pos_ok(c, l, b);
    lemma_pos_ok(c, l, e);
    lemma_sound_single(key_event(c, l, b, e), c);
}

proof fn lemma_block_marks(c: Seq<char>, ls: Seq<Line>)
    requires
        c.len() <= usize::MAX,
        lines_good(c, ls),
        ls.len() > 0,
    ensures
        is_position(c, block_start(c, ls)),
        is_position(c, block_end(ls)),
{
    assert(good_line(c, ls[0]));
    assert(good_line(c, ls[ls.len() - 1]));
    lemma_ws_fwd_in(c, ls[0].first as int, ls[0].end as int);
    lemma_pos_ok(c, ls[0], ws_fwd(c, ls[0].first as int, ls[0].end as int));
    lemma_pos_ok(c, ls.last(), ls.last().end as int);
}

proof fn lemma_sequence_sound(c: Seq<char>, ls: Seq<Line>, i: int)
    requires
        c.len() <= usize::MAX,
        lines_good(c, ls),
    ensures
        sound(sequence_from(c, ls, i), c),
    decreases ls.len() - i,
{
    lemma_sound_empty(c);
    if 0 <= i < ls.len() {
        lemma_sequence_sound(c, ls, i + 1);
        let l = ls[i];
        assert(good_line(c, l));
        let (t0, t1) = trim_bounds(c, l.first as int, l.end as int);
        lemma_trim_bounds_in(c, l.first as int, l.end as int);
        if t0 < t1 && c[t0] == '-' {
            lemma_trim_bounds_in(c, t0 + 1, t1);
            let (ib, ie) = trim_bounds(c, t0 + 1, t1);
            if ib < ie {
                lemma_value_event_sound(c, l, ib, ie);
            }
        }
        lemma_sound_cat(item_events(c, l), sequence_from(c, ls, i + 1), c);
    }
}

proof fn lemma_lines_good_sub(c: Seq<char>, ls: Seq<Line>, a: int, b: int)
    requires
        lines_good(c, ls),
        0 <= a <= b <= ls.len(),
    ensures
        lines_good(c, ls.subrange(a, b)),
{
    assert forall|k: int| 0 <= k < b - a implies #[trigger] good_line(c, ls.subrange(a, b)[k]) by {
        assert(ls.subrange(a, b)[k] == ls[a + k]);
        assert(good_line(c, ls[a + k]));
    }
}

proof fn lemma_block_sound(c: Seq<char>, ls: Seq<Line>)
    requires
        c.len() <= usize::MAX,
        lines_good(c, ls),
        ls.len() > 0,
        sound(mapping_from(c, ls, 0), c),
        sound(sequence_from(c, ls, 0), c),
    ensures
        sound(
            wrap(
                mapping_start(block_start(c, ls)),
                mapping_from(c, ls, 0),
                mapping_end(block_end(ls)),
            ),
            c,
        ),
        sound(
            wrap(
                sequence_start(block_start(c, ls)),
                sequence_from(c, ls, 0),
                sequence_end(block_end(ls)),
            ),
            c,
        ),
{
    lemma_block_marks(c, ls);
    lemma_sound_wrap(
        mapping_start(block_start(c, ls)),
        mapping_from(c, ls, 0),
        mapping_end(block_end(ls)),
        c,
    );
    lemma_sound_wrap(
        sequence_start(block_start(c, ls)),
        sequence_from(c, ls, 0),
        sequence_end(block_end(ls)),
        c,
    );
}

proof fn lemma_mapping_sound(c: Seq<char>, ls: Seq<Line>, i: int)
    requires
        c.len() <= usize::MAX,
        lines_good(c, ls),
    ensures
        sound(mapping_from(c, ls, i), c),
    decreases ls.len(), ls.len() - i,
{
    lemma_sound_empty(c);
    if 0 <= i < ls.len() {
        let l = ls[i];
        assert(good_line(c, l));
        let (t0, t1) = trim_bounds(c, l.first as int, l.end as int);
        lemma_trim_bounds_in(c, l.first as int, l.end as int);
        match find_in(c, ':', t0, t1) {
            None => {
                lemma_mapping_sound(c, ls, i + 1);
            },
            Some(p) => {
                lemma_find_in(c, ':', t0, t1);
                lemma_trim_bounds_in(c, t0, p);
                let (kb, ke) = trim_bounds(c, t0, p);
                let key = seq![key_event(c, l, kb, ke)];
                lemma_key_event_sound(c, l, kb, ke);
                lemma_trim_bounds_in(c, p + 1, t1);
                let (vb, ve) = trim_bounds(c, p + 1, t1);
                if vb < ve {
                    lemma_value_event_sound(c, l, vb, ve);
                    lemma_mapping_sound(c, ls, i + 1);
                    lemma_sound_cat(key, seq![value_event(c, l, vb, ve)], c);
                    lemma_sound_cat(
                        key + seq![value_event(c, l, vb, ve)],
                        mapping_from(c, ls, i + 1),
                        c,
                    );
                } else {
                    let j = nested_end(c, ls, i + 1, indent(c, l));
                    lemma_nested_end_bounds(c, ls, i + 1, indent(c, l));
                    let nested = ls.subrange(i + 1, j);
                    lemma_lines_good_sub(c, ls, i + 1, j);
                    let inner = if nested.len() > 0 && any_mapping_line(c, nested) {
                        wrap(
                            mapping_start(block_start(c, nested)),
                            mapping_from(c, nested, 0),
                            mapping_end(block_end(nested)),
                        )
                    } else if nested.len() > 0 && any_dash_line(c, nested) {
                        wrap(
                            sequence_start(block_start(c, nested)),
                            sequence_from(c, nested, 0),
                            sequence_end(block_end(nested)),
                        )
                    } else {
                        seq![value_event(c, l, vb, ve)]
                    };
                    if nested.len() > 0 {
                        lemma_mapping_sound(c, nested, 0);
                        lemma_sequence_sound(c, nested, 0);
                        lemma_block_sound(c, nested);
                    }
                    lemma_value_event_sound(c, l, vb, ve);
                    lemma_mapping_sound(c, ls, j);
                    lemma_sound_cat(key, inner, c);
                    lemma_sound_cat(key + inner, mapping_from(c, ls, j), c);
                }
            },
        }
    }
}

proof fn lemma_content_sound(c: Seq<char>, dl: Seq<Line>)
    requires
        c.len() <= usize::MAX,
        lines_good(c, dl),
    ensures
        sound(content_events(c, dl), c),
{
    lemma_sound_empty(c);
    if dl.len() == 1 && !any_mapping_line(c, dl) && !any_dash_line(c, dl) {
        let l = dl[0];
        assert(good_line(c, l));
        lemma_trim_bounds_in(c, l.first as int, l.end as int);
        let (t0, t1) = trim_bounds(c, l.first as int, l.end as int);
        lemma_piece(c, t0, t1);
        lemma_pos_ok(c, l, t0);
        lemma_pos_ok(c, l, t1);
        let e = plain_scalar(c.subrange(t0, t1), None, pos(l, t0), pos(l, t1));
        lemma_sound_single(e, c);
    } else if dl.len() > 0 {
        lemma_mapping_sound(c, dl, 0);
        lemma_sequence_sound(c, dl, 0);
        lemma_block_sound(c, dl);
    }
}

proof fn lemma_lines_good_cat(c: Seq<char>, a: Seq<Line>, b: Seq<Line>)
    requires
        lines_good(c, a),
        lines_good(c, b),
    ensures
        lines_good(c, a + b),
{
    assert forall|k: int| 0 <= k < (a + b).len() implies #[trigger] good_line(c, (a + b)[k]) by {
        if k < a.len() {
            assert((a + b)[k] == a[k]);
        } else {
            assert((a + b)[k] == b[k - a.len()]);
        }
    }
}

proof fn lemma_kept_good(c: Seq<char>, ls: Seq<Line>)
    requires
        lines_good(c, ls),
    ensures
        lines_good(c, kept_lines(c, ls)),
    decreases ls.len(),
{
    if ls.len() > 0 {
        lemma_lines_good_sub(c, ls, 0, ls.len() - 1);
        assert(ls.drop_last() =~= ls.subrange(0, ls.len() - 1));
        lemma_kept_good(c, ls.drop_last());
        assert(good_line(c, ls[ls.len() - 1]));
        let prev = kept_lines(c, ls.drop_last());
        let kl = kept_lines(c, ls);
        assert forall|k: int| 0 <= k < kl.len() implies #[trigger] good_line(c, kl[k]) by {
            if k < prev.len() {
                assert(kl[k] == prev[k]);
            }
        }
    }
}

proof fn lemma_markers_bounds(c: Seq<char>, ls: Seq<Line>)
    ensures
        forall|k: int|
            0 <= k < markers(c, ls).len() ==> 0 <= #[trigger] markers(c, ls)[k] < ls.len(),
    decreases ls.len(),
{
    if ls.len() > 0 {
        let prev = markers(c, ls.drop_last());
        lemma_markers_bounds(c, ls.drop_last());
        assert forall|k: int| 0 <= k < markers(c, ls).len() implies 0 <= #[trigger] markers(
            c,
            ls,
        )[k] < ls.len() by {
            if k < prev.len() {
                assert(markers(c, ls)[k] == prev[k]);
            }
        }
    }
}

proof fn lemma_documents_sound(c: Seq<char>, ls: Seq<Line>, ms: Seq<int>, i: int)
    requires
        c.len() <= usize::MAX,
        lines_good(c, ls),
        forall|k: int| 0 <= k < ms.len() ==> 0 <= #[trigger] ms[k] < ls.len(),
    ensures
        sound(documents_from(c, ls, ms, i), c),
    decreases ms.len() + 1 - i,
{
    lemma_sound_empty(c);
    if 0 <= i <= ms.len() {
        lemma_documents_sound(c, ls, ms, i + 1);
        let s = segment_start(ms, i);
        let e = segment_end(ls.len() as int, ms, i);
        let dl = document_lines(c, ls, ms, i);
        let body = if s < e {
            ls.subrange(s, e)
        } else {
            seq![]
        };
        if s < e {
            lemma_lines_good_sub(c, ls, s, e);
        }
        if i > 0 {
            let m = ls[ms[i - 1]];
            assert(good_line(c, m));
            lemma_trim_bounds_in(c, m.first as int, m.end as int);
            let h = after_marker(c, m);
            assert(good_line(c, h));
            assert(lines_good(c, seq![h]));
            lemma_lines_good_cat(c, seq![h], body);
        }
        lemma_kept_good(c, segment_lines(ls, ms, i, c));
        if dl.len() > 0 {
            lemma_content_sound(c, dl);
            lemma_block_marks(c, dl);
            lemma_sound_wrap(
                document_start(block_start(c, dl), i > 0),
                content_events(c, dl),
                document_end(block_end(dl)),
                c,
            );
        }
        lemma_sound_cat(document_events(c, ls, ms, i), documents_from(c, ls, ms, i + 1), c);
    }
}

proof fn lemma_newlines_le(s: Seq<char>)
    ensures
        0 <= newlines(s) <= s.len(),
    decreases s.len(),
{
    if s.len() > 0 {
        lemma_newlines_le(s.drop_last());
    }
}

/// The lines from index `k` on, numbered from `n`, are good; there are as
/// many as there are line feeds after `k`, plus one for an unterminated
/// last line; and the last one runs to the end of the text.
proof fn lemma_lines_from_good(c: Seq<char>, k: int, n: int)
    requires
        0 <= k <= c.len() <= usize::MAX,
        n == newlines(c.take(k)),
        k == 0 || c[k - 1] == '\n',
    ensures
        lines_good(c, lines_from(c, k, n)),
        lines_from(c, k, n).len() + n == newlines(c) + if k < c.len() && c.last() != '\n' {
            1int
        } else {
            0int
        },
        lines_from(c, k, n).len() > 0 && c.last() != '\n' ==> next_newline(
            c,
            lines_from(c, k, n).last().start as int,
        ) == c.len(),
    decreases c.len() - k,
{
    let ls = lines_from(c, k, n);
    lemma_newlines_le(c.take(k));
    if k < c.len() {
        let e = next_newline(c, k);
        lemma_next_newline_bounds(c, k);
        lemma_ws_back_in(c, k, e);
        assert(line_begin(c, k) == k);
        assert(good_line(c, ls[0]));
        lemma_newlines_run(c, k, e);
        if e < c.len() {
            assert(c.take(e + 1).drop_last() =~= c.take(e));
            lemma_lines_from_good(c, e + 1, n + 1);
            let rest = lines_from(c, e + 1, n + 1);
            assert forall|j: int| 0 <= j < ls.len() implies #[trigger] good_line(c, ls[j]) by {
                if j > 0 {
                    assert(ls[j] == rest[j - 1]);
                }
            }
            if c.last() != '\n' {
                assert(e + 1 < c.len());
            }
            if rest.len() > 0 {
                assert(ls.last() == rest.last());
            }
        } else {
            assert(c.take(c.len() as int) =~= c);
            if c.last() == '\n' {
                lemma_next_newline_clear(c, k, c.len() - 1);
            }
        }
    } else {
        assert(c.take(k) =~= c);
    }
}

/// No line feed lies in `c[k..e]`, so the count up to `e` is that up to `k`.
proof fn lemma_newlines_run(c: Seq<char>, k: int, e: int)
    requires
        0 <= k <= e <= next_newline(c, k) <= c.len(),
    ensures
        newlines(c.take(e)) == newlines(c.take(k)),
    decreases e - k,
{
    if e > k {
        lemma_newlines_run(c, k, e - 1);
        lemma_next_newline_clear(c, k, e - 1);
        assert(c.take(e).drop_last() =~= c.take(e - 1));
    }
}

/// Every parse of a text opens with a stream start and ends with a stream
/// end; its start and end events nest: each end event closes the
/// innermost region still open, of its own kind (stream, document,
/// mapping or sequence), and every region that is opened is closed.
pub proof fn parse_is_well_nested(c: Seq<char>)
    requires
        c.len() <= usize::MAX,
    ensures
        ({
            let evs = spec_parse(c);
            &&& evs.len() >= 2
            &&& evs[0] is StreamStart
            &&& evs.last() is StreamEnd
            &&& well_nested(evs)
        }),
{
    lemma_parse_sound(c);
}

/// Parsing invents no text: the value of every scalar event is a piece of
/// the input between two positions, and every tag is "tag:yaml.org,2002:"
/// followed by such a piece.
pub proof fn scalars_come_from_text(c: Seq<char>)
    requires
        c.len() <= usize::MAX,
    ensures
        all_from_text(spec_parse(c), c),
{
    lemma_parse_sound(c);
}

/// Every mark of every event is a position of the text: its line is the
/// number of line feeds before its index, and its column the distance from
/// the start of that line.
pub proof fn marks_are_positions(c: Seq<char>)
    requires
        c.len() <= usize::MAX,
    ensures
        all_placed(spec_parse(c), c),
{
    lemma_parse_sound(c);
}

proof fn lemma_parse_sound(c: Seq<char>)
    requires
        c.len() <= usize::MAX,
    ensures
        ({
            let evs = spec_parse(c);
            &&& evs.len() >= 2
            &&& evs[0] is StreamStart
            &&& evs.last() is StreamEnd
            &&& well_nested(evs)
            &&& all_from_text(evs, c)
            &&& all_placed(evs, c)
        }),
{
    let (b, e) = trim_bounds(c, 0, c.len() as int);
    assert(c.take(0) =~= Seq::<char>::empty());
    assert(is_position(c, origin()));
    if b == e {
        let evs = empty_document_model();
        let m = origin();
        let ds = seq![document_start(m, false), document_end(m)];
        lemma_balanced_empty();
        lemma_balanced_wrap(document_start(m, false), Seq::empty(), document_end(m));
        assert(seq![document_start(m, false)] + Seq::<EventModel>::empty() + seq![document_end(m)]
            =~= ds);
        lemma_balanced_wrap(evs[0], ds, stream_end(m));
        assert(seq![evs[0]] + ds + seq![stream_end(m)] =~= evs);
        assert(run(evs, seq![]) == Some(Seq::<Frame>::empty()));
        assert(all_from_text(evs, c));
        assert(all_placed(evs, c));
    } else {
        let ls = yaml_lines(c);
        let ms = markers(c, ls);
        lemma_trim_bounds_in(c, 0, c.len() as int);
        lemma_lines_from_good(c, 0, 0);
        lemma_markers_bounds(c, ls);
        lemma_documents_sound(c, ls, ms, 0);
        let docs = documents_from(c, ls, ms, 0);
        let end_mark = text_end(c, ls);
        if c.last() == '\n' {
            assert(c.take(c.len() as int) =~= c);
            lemma_newlines_le(c);
            assert(line_begin(c, c.len() as int) == c.len());
            assert(is_position(c, end_mark));
        } else {
            assert(good_line(c, ls[ls.len() - 1]));
            lemma_pos_ok(c, ls.last(), c.len() as int);
        }
        let end = stream_end(end_mark);
        lemma_sound_wrap(stream_start_utf8(origin()), docs, end, c);
        let evs = wrap(stream_start_utf8(origin()), docs, end);
        assert(stream_events(c) == evs);
        assert(run(evs, seq![]) == Some(Seq::<Frame>::empty()));
        assert(evs[0] == stream_start_utf8(origin()));
        assert(evs.last() == end);
    }
}

/// A text made only of whitespace gives exactly one empty, implicit
/// document: stream start (no encoding), document start, document end,
/// stream end, all at the origin.
pub proof fn blank_text_is_one_empty_document(c: Seq<char>)
    requires
        forall|k: int| 0 <= k < c.len() ==> is_ws(#[trigger] c[k]),
    ensures
        spec_parse(c) == empty_document_model(),
{
    lemma_all_ws_back(c, c.len() as int);
}

proof fn lemma_all_ws_back(c: Seq<char>, k: int)
    requires
        0 <= k <= c.len(),
        forall|j: int| 0 <= j < c.len() ==> is_ws(#[trigger] c[j]),
    ensures
        ws_back(c, 0, k) == 0,
    decreases k,
{
    if k > 0 {
        lemma_all_ws_back(c, k - 1);
    }
}

} // verus!
