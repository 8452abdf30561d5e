//! Mappings hold key/value pairs: in every mapping of a parse, each key is
//! a scalar followed by exactly one value node, a scalar or a whole
//! mapping or sequence.
use crate::event::{
    document_end, document_start, empty_document_model, mapping_end, mapping_start, origin,
    sequence_end, sequence_start, stream_end, stream_start_utf8, EventModel,
};
use crate::laws::{closes, opens, Frame};
use crate::model::{
    any_dash_line, any_mapping_line, block_end, block_start, content_events, document_events,
    document_lines, documents_from, item_events, key_event, lemma_nested_end_bounds, mapping_from,
    markers, nested_end, sequence_from, spec_parse, stream_events, text_end, value_event, wrap,
};
use crate::text::{find_in, indent, trim_bounds, yaml_lines, Line};
use vstd::prelude::*;

verus! {

/// An open region: its kind, and for a mapping whether the next node
/// directly inside it is a key.
pub struct Open {
    pub frame: Frame,
    pub key_next: bool,
}

/// A node starts directly inside the innermost open region: inside a
/// mapping, keys and values alternate.
pub open spec fn note_node(st: Seq<Open>) -> Seq<Open> {
    if st.len() > 0 && st.last().frame == Frame::Mapping {
        st.update(st.len() - 1, Open { frame: Frame::Mapping, key_next: !st.last().key_next })
    } else {
        st
    }
}

/// The innermost open region is a mapping that waits for a key.
pub open spec fn key_awaited(st: Seq<Open>) -> bool {
    st.len() > 0 && st.last().frame == Frame::Mapping && st.last().key_next
}

/// The open regions after the event `e`, or `None` if `e` breaks the
/// pairing: a mapping or sequence in key position, a region closed that is
/// not the innermost open one, or a mapping closed while its last key has
/// no value.
pub open spec fn pair_step(e: EventModel, st: Seq<Open>) -> Option<Seq<Open>> {
    match opens(e) {
        Some(f) => if key_awaited(st) && (f == Frame::Mapping || f == Frame::Sequence) {
            None
        } else {
            Some(note_node(st).push(Open { frame: f, key_next: true }))
        },
        None => match closes(e) {
            Some(f) => if st.len() > 0 && st.last().frame == f && st.last().key_next {
                Some(st.drop_last())
            } else {
                None
            },
            None => if e is Scalar {
                Some(note_node(st))
            } else {
                Some(st)
            },
        },
    }
}

/// The open regions after the events `s`, starting from `st`.
pub open spec fn pair_run(s: Seq<EventModel>, st: Seq<Open>) -> Option<Seq<Open>>
    decreases s.len(),
{
    if s.len() == 0 {
        Some(st)
    } else {
        match pair_step(s[0], st) {
            Some(next) => pair_run(s.drop_first(), next),
            None => None,
        }
    }
}

/// Every mapping of `s` holds key/value pairs: each key is a scalar
/// followed by exactly one value node; and every region is closed.
pub open spec fn keys_paired(s: Seq<EventModel>) -> bool {
    pair_run(s, seq![]) == Some(Seq::<Open>::empty())
}

/// `s` is the content of a region of kind `f`: it leaves the region as it
/// found it, waiting for a key if it is a mapping.
pub open spec fn body_of(s: Seq<EventModel>, f: Frame) -> bool {
    forall|st: Seq<Open>|
        #[trigger] pair_run(s, st.push(Open { frame: f, key_next: true })) == Some(
            st.push(Open { frame: f, key_next: true }),
        )
}

/// `s` is one node: wherever no key is awaited, it counts as one node.
pub open spec fn one_node(s: Seq<EventModel>) -> bool {
    forall|st: Seq<Open>| !key_awaited(st) ==> #[trigger] pair_run(s, st) == Some(note_node(st))
}

proof fn lemma_pair_run_concat(a: Seq<EventModel>, b: Seq<EventModel>, st: Seq<Open>)
    ensures
        pair_run(a + b, st) == match pair_run(a, st) {
            Some(mid) => pair_run(b, mid),
            None => None,
        },
    decreases a.len(),
{
    if a.len() > 0 {
        assert((a + b).drop_first() =~= a.drop_first() + b);
        assert((a + b)[0] == a[0]);
        match pair_step(a[0], st) {
            Some(next) => lemma_pair_run_concat(a.drop_first(), b, next),
            None => {},
        }
    } else {
        assert(a + b =~= b);
    }
}

proof fn lemma_body_cat(a: Seq<EventModel>, b: Seq<EventModel>, f: Frame)
    requires
        body_of(a, f),
        body_of(b, f),
    ensures
        body_of(a + b, f),
{
    assert forall|st: Seq<Open>| #[trigger]
        pair_run(a + b, st.push(Open { frame: f, key_next: true })) == Some(
            st.push(Open { frame: f, key_next: true }),
        ) by {
        lemma_pair_run_concat(a, b, st.push(Open { frame: f, key_next: true }));
        assert(pair_run(a, st.push(Open { frame: f, key_next: true })) == Some(
            st.push(Open { frame: f, key_next: true }),
        ));
        assert(pair_run(b, st.push(Open { frame: f, key_next: true })) == Some(
            st.push(Open { frame: f, key_next: true }),
        ));
    }
}

proof fn lemma_body_empty(f: Frame)
    ensures
        body_of(Seq::<EventModel>::empty(), f),
{
}

/// A scalar is one node, and may also stand where a key is awaited.
proof fn lemma_scalar_node(e: EventModel)
    requires
        e is Scalar,
    ensures
        one_node(seq![e]),
        forall|st: Seq<Open>| #[trigger] pair_run(seq![e], st) == Some(note_node(st)),
{
    assert forall|st: Seq<Open>| #[trigger] pair_run(seq![e], st) == Some(note_node(st)) by {
        reveal_with_fuel(pair_run, 2);
        assert(seq![e].drop_first() =~= Seq::<EventModel>::empty());
    }
}

/// A node inside a region that is no mapping keeps it as it is.
proof fn lemma_node_body(s: Seq<EventModel>, f: Frame)
    requires
        one_node(s),
        f != Frame::Mapping,
    ensures
        body_of(s, f),
{
    assert forall|st: Seq<Open>| #[trigger]
        pair_run(s, st.push(Open { frame: f, key_next: true })) == Some(
            st.push(Open { frame: f, key_next: true }),
        ) by {
        let t = st.push(Open { frame: f, key_next: true });
        assert(!key_awaited(t));
        assert(note_node(t) == t);
    }
}

/// A key scalar and one value node make a pair, the content of a mapping.
proof fn lemma_pair_body(k: EventModel, v: Seq<EventModel>)
    requires
        k is Scalar,
        one_node(v),
    ensures
        body_of(seq![k] + v, Frame::Mapping),
{
    lemma_scalar_node(k);
    assert forall|st: Seq<Open>| #[trigger]
        pair_run(seq![k] + v, st.push(Open { frame: Frame::Mapping, key_next: true })) == Some(
            st.push(Open { frame: Frame::Mapping, key_next: true }),
        ) by {
        let t = st.push(Open { frame: Frame::Mapping, key_next: true });
        let u = st.push(Open { frame: Frame::Mapping, key_next: false });
        lemma_pair_run_concat(seq![k], v, t);
        assert(pair_run(seq![k], t) == Some(note_node(t)));
        assert(note_node(t) =~= u);
        assert(!key_awaited(u));
        assert(pair_run(v, u) == Some(note_node(u)));
        assert(note_node(u) =~= t);
    }
}

/// A start event, the content of its region, and the matching end event
/// make one node.
proof fn lemma_wrap_node(o: EventModel, body: Seq<EventModel>, c: EventModel, f: Frame)
    requires
        opens(o) == Some(f),
        closes(o) is None,
        closes(c) == Some(f),
        opens(c) is None,
        body_of(body, f),
    ensures
        one_node(wrap(o, body, c)),
{
    assert forall|st: Seq<Open>| !key_awaited(st) implies #[trigger] pair_run(
        wrap(o, body, c),
        st,
    ) == Some(note_node(st)) by {
        reveal_with_fuel(pair_run, 2);
        let n = note_node(st);
        let t = n.push(Open { frame: f, key_next: true });
        lemma_pair_run_concat(seq![o] + body, seq![c], st);
        lemma_pair_run_concat(seq![o], body, st);
        assert(seq![o].drop_first() =~= Seq::<EventModel>::empty());
        assert(pair_run(seq![o], st) == Some(t));
        assert(pair_run(body, t) == Some(t));
        assert(seq![c].drop_first() =~= Seq::<EventModel>::empty());
        assert(t.drop_last() =~= n);
    }
}

proof fn lemma_sequence_body(c: Seq<char>, ls: Seq<Line>, i: int)
    ensures
        body_of(sequence_from(c, ls, i), Frame::Sequence),
    decreases ls.len() - i,
{
    lemma_body_empty(Frame::Sequence);
    if 0 <= i < ls.len() {
        lemma_sequence_body(c, ls, i + 1);
        let l = ls[i];
        let (t0, t1) = trim_bounds(c, l.first as int, l.end as int);
        if t0 < t1 && c[t0] == '-' {
            let (ib, ie) = trim_bounds(c, t0 + 1, t1);
            if ib < ie {
                lemma_scalar_node(value_event(c, l, ib, ie));
                lemma_node_body(seq![value_event(c, l, ib, ie)], Frame::Sequence);
            }
        }
        lemma_body_cat(item_events(c, l), sequence_from(c, ls, i + 1), Frame::Sequence);
    }
}

proof fn lemma_mapping_body(c: Seq<char>, ls: Seq<Line>, i: int)
    ensures
        body_of(mapping_from(c, ls, i), Frame::Mapping),
    decreases ls.len(), ls.len() - i,
{
    lemma_body_empty(Frame::Mapping);
    if 0 <= i < ls.len() {
        let l = ls[i];
        let (t0, t1) = trim_bounds(c, l.first as int, l.end as int);
        match find_in(c, ':', t0, t1) {
            None => {
                lemma_mapping_body(c, ls, i + 1);
            },
            Some(p) => {
                let (kb, ke) = trim_bounds(c, t0, p);
                let k = key_event(c, l, kb, ke);
                let (vb, ve) = trim_bounds(c, p + 1, t1);
                if vb < ve {
                    let v = seq![value_event(c, l, vb, ve)];
                    lemma_scalar_node(value_event(c, l, vb, ve));
                    lemma_pair_body(k, v);
                    lemma_mapping_body(c, ls, i + 1);
                    lemma_body_cat(seq![k] + v, mapping_from(c, ls, i + 1), Frame::Mapping);
                } else {
                    let j = nested_end(c, ls, i + 1, indent(c, l));
                    lemma_nested_end_bounds(c, ls, i + 1, indent(c, l));
                    let nested = ls.subrange(i + 1, j);
                    let inner = if nested.len() > 0 && any_mapping_line(c, nested) {
                        wrap(
                            mapping_start(block_start(c, nested)),
                            mapping_from(c, nested, 0),
                            mapping_end(block_end(nested)),
                        )
                    } else if nested.len() > 0 && any_dash_line(c, nested) {
                        wrap(
                            sequence_start(block_start(c, nested)),
                            sequence_from(c, nested, 0),
                            sequence_end(block_end(nested)),
                        )
                    } else {
                        seq![value_event(c, l, vb, ve)]
                    };
                    if nested.len() > 0 && any_mapping_line(c, nested) {
                        lemma_mapping_body(c, nested, 0);
                        lemma_wrap_node(
                            mapping_start(block_start(c, nested)),
                            mapping_from(c, nested, 0),
                            mapping_end(block_end(nested)),
                            Frame::Mapping,
                        );
                    } else if nested.len() > 0 && any_dash_line(c, nested) {
                        lemma_sequence_body(c, nested, 0);
                        lemma_wrap_node(
                            sequence_start(block_start(c, nested)),
                            sequence_from(c, nested, 0),
                            sequence_end(block_end(nested)),
                            Frame::Sequence,
                        );
                    } else {
                        lemma_scalar_node(value_event(c, l, vb, ve));
                    }
                    lemma_pair_body(k, inner);
                    lemma_mapping_body(c, ls, j);
                    assert(seq![k] + inner == seq![key_event(c, l, kb, ke)] + inner);
                    lemma_body_cat(seq![k] + inner, mapping_from(c, ls, j), Frame::Mapping);
                }
            },
        }
    }
}

proof fn lemma_content_body(c: Seq<char>, dl: Seq<Line>)
    ensures
        body_of(content_events(c, dl), Frame::Document),
{
    lemma_body_empty(Frame::Document);
    if dl.len() == 1 && !any_mapping_line(c, dl) && !any_dash_line(c, dl) {
        let e = content_events(c, dl)[0];
        assert(content_events(c, dl) == seq![e]);
        lemma_scalar_node(e);
        lemma_node_body(seq![e], Frame::Document);
    } else if dl.len() > 0 && any_mapping_line(c, dl) {
        lemma_mapping_body(c, dl, 0);
        lemma_wrap_node(
            mapping_start(block_start(c, dl)),
            mapping_from(c, dl, 0),
            mapping_end(block_end(dl)),
            Frame::Mapping,
        );
        lemma_node_body(content_events(c, dl), Frame::Document);
    } else if dl.len() > 0 && any_dash_line(c, dl) {
        lemma_sequence_body(c, dl, 0);
        lemma_wrap_node(
            sequence_start(block_start(c, dl)),
            sequence_from(c, dl, 0),
            sequence_end(block_end(dl)),
            Frame::Sequence,
        );
        lemma_node_body(content_events(c, dl), Frame::Document);
    }
}

proof fn lemma_documents_body(c: Seq<char>, ls: Seq<Line>, ms: Seq<int>, i: int)
    ensures
        body_of(documents_from(c, ls, ms, i), Frame::Stream),
    decreases ms.len() + 1 - i,
{
    lemma_body_empty(Frame::Stream);
    if 0 <= i <= ms.len() {
        lemma_documents_body(c, ls, ms, i + 1);
        let dl = document_lines(c, ls, ms, i);
        if dl.len() > 0 {
            lemma_content_body(c, dl);
            lemma_wrap_node(
                document_start(block_start(c, dl), i > 0),
                content_events(c, dl),
                document_end(block_end(dl)),
                Frame::Document,
            );
            lemma_node_body(document_events(c, ls, ms, i), Frame::Stream);
        }
        lemma_body_cat(document_events(c, ls, ms, i), documents_from(c, ls, ms, i + 1), Frame::Stream);
    }
}

/// In every parse, each mapping holds key/value pairs: each key is a
/// scalar followed by exactly one value node (a scalar, or a whole mapping
/// or sequence), no mapping or sequence stands in key position, and every
/// region that is opened is closed.
pub proof fn mappings_hold_key_value_pairs(c: Seq<char>)
    ensures
        keys_paired(spec_parse(c)),
{
    let (b, e) = trim_bounds(c, 0, c.len() as int);
    let empty = Seq::<Open>::empty();
    assert(!key_awaited(empty));
    assert(note_node(empty) == empty);
    if b == e {
        let m = origin();
        lemma_body_empty(Frame::Document);
        lemma_wrap_node(document_start(m, false), Seq::empty(), document_end(m), Frame::Document);
        let d = wrap(document_start(m, false), Seq::empty(), document_end(m));
        lemma_node_body(d, Frame::Stream);
        let ss = EventModel::StreamStart { start_mark: m, end_mark: m, encoding: None };
        lemma_wrap_node(ss, d, stream_end(m), Frame::Stream);
        assert(wrap(ss, d, stream_end(m)) =~= empty_document_model());
    } else {
        let ls = yaml_lines(c);
        let ms = markers(c, ls);
        lemma_documents_body(c, ls, ms, 0);
        lemma_wrap_node(
            stream_start_utf8(origin()),
            documents_from(c, ls, ms, 0),
            stream_end(text_end(c, ls)),
            Frame::Stream,
        );
        assert(stream_events(c) == wrap(
            stream_start_utf8(origin()),
            documents_from(c, ls, ms, 0),
            stream_end(text_end(c, ls)),
        ));
    }
}

} // verus!
