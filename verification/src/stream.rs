//! Whole-text parsing: lines, document separators, comment filtering and
//! the stream of events.
use crate::document::{mark_at, process_document_content, push_event};
use crate::event::{
    create_empty_document_events, document_end, document_start, empty_document_model, models,
    origin, stream_end, stream_start_utf8, utf8_name, Event, EventModel, Mark, PyEvent,
};
use crate::model::{
    appended, block_end, block_start, content_events, document_events, document_lines,
    documents_from, is_doc_marker, keep_line, kept_lines, lemma_appended_chain,
    lemma_appended_none, lemma_cat_assoc, markers, segment_end, segment_lines, segment_start, spec_parse,
    stream_events, text_end, wrap,
};
use crate::text::{
    chars_of, lemma_next_newline_bounds, lines_from, lines_ok, next_newline, skip_ws_backward,
    skip_ws_forward, trim_range, ws_back, yaml_lines, Line,
};
use vstd::prelude::*;

verus! {

/// The integer values of a list of indices.
pub open spec fn as_ints(v: Seq<usize>) -> Seq<int> {
    Seq::new(v.len(), |k: int| v[k] as int)
}

/// The first line feed at or after `k`, or the end of the text.
fn next_newline_from(text: &Vec<char>, k: usize) -> (e: usize)
    requires
        k <= text.len(),
    ensures
        e == next_newline(text@, k as int),
        k <= e <= text.len(),
{
    proof {
        lemma_next_newline_bounds(text@, k as int);
    }
    let mut e = k;
    while e < text.len() && text[e] != '\n'
        invariant
            k <= e <= text.len(),
            next_newline(text@, e as int) == next_newline(text@, k as int),
        decreases text.len() - e,
    {
        e = e + 1;
    }
    e
}

/// The lines of `text`, numbered from 0, each without trailing whitespace.
pub fn split_lines(text: &Vec<char>) -> (r: Vec<Line>)
    ensures
        lines_ok(text@, r@),
        r@ == yaml_lines(text@),
{
    let n = text.len();
    let mut out: Vec<Line> = Vec::new();
    let mut pos: usize = 0;
    assert(out@ + lines_from(text@, 0, 0) =~= yaml_lines(text@));
    while pos < n
        invariant
            pos <= n == text.len(),
            out.len() <= pos,
            lines_ok(text@, out@),
            out@ + lines_from(text@, pos as int, out.len() as int) == yaml_lines(text@),
        decreases n - pos,
    {
        let e = next_newline_from(text, pos);
        let te = skip_ws_backward(text, pos, e);
        let line = Line { start: pos, first: pos, end: te, number: out.len() };
        let ghost old_out = out@;
        assert(te == ws_back(text@, pos as int, e as int));
        if e >= n {
            assert(lines_from(text@, pos as int, out.len() as int) == seq![line]);
        } else {
            assert(lines_from(text@, pos as int, out.len() as int) == seq![line] + lines_from(
                text@,
                e + 1,
                out.len() + 1,
            ));
        }
        out.push(line);
        proof {
            if e >= n {
                assert(old_out + seq![line] =~= out@ + lines_from(text@, n as int, out.len() as int));
            } else {
                assert(old_out + (seq![line] + lines_from(text@, e + 1, out.len() as int))
                    =~= out@ + lines_from(text@, e + 1, out.len() as int));
            }
        }
        if e >= n {
            pos = n;
        } else {
            pos = e + 1;
        }
    }
    assert(out@ + lines_from(text@, pos as int, out.len() as int) =~= out@);
    out
}

/// Whether the line `l` separates documents.
fn is_marker_line(text: &Vec<char>, l: &Line) -> (r: bool)
    requires
        l.start <= l.first <= l.end <= text.len(),
    ensures
        r == is_doc_marker(text@, *l),
{
    let (tb, te) = trim_range(text, l.first, l.end);
    let ghost t = text@.subrange(tb as int, te as int);
    let len = te - tb;
    let three = len == 3 && text[tb] == '-' && text[tb + 1] == '-' && text[tb + 2] == '-';
    let four = len >= 4 && text[tb] == '-' && text[tb + 1] == '-' && text[tb + 2] == '-' && text[tb
        + 3] == ' ';
    proof {
        if three {
            assert(t =~= seq!['-', '-', '-']);
        }
        if t == seq!['-', '-', '-'] {
            assert(t.len() == 3 && t[0] == '-' && t[1] == '-' && t[2] == '-');
        }
        if four {
            assert(t.subrange(0, 4) =~= seq!['-', '-', '-', ' ']);
        }
        if t.len() >= 4 && t.subrange(0, 4) == seq!['-', '-', '-', ' '] {
            assert(t.subrange(0, 4)[3] == ' ');
            assert(t[0] == '-' && t[1] == '-' && t[2] == '-' && t[3] == ' ');
        }
    }
    three || four
}

/// Indices of the separator lines among `lines`.
pub fn find_markers(text: &Vec<char>, lines: &Vec<Line>) -> (r: Vec<usize>)
    requires
        lines_ok(text@, lines@),
    ensures
        as_ints(r@) == markers(text@, lines@),
        forall|k: int| 0 <= k < r.len() ==> #[trigger] r[k] < lines.len(),
{
    let ghost ls = lines@;
    let mut out: Vec<usize> = Vec::new();
    let mut i: usize = 0;
    assert(as_ints(out@) =~= markers(text@, ls.take(0)));
    while i < lines.len()
        invariant
            i <= lines.len(),
            lines_ok(text@, lines@),
            ls == lines@,
            as_ints(out@) == markers(text@, ls.take(i as int)),
            forall|k: int| 0 <= k < out.len() ==> #[trigger] out[k] < i,
        decreases lines.len() - i,
    {
        let l = lines[i];
        assert(ls.take(i + 1).drop_last() =~= ls.take(i as int));
        assert(ls.take(i + 1).last() == l);
        if is_marker_line(text, &l) {
            out.push(i);
            assert(as_ints(out@) =~= markers(text@, ls.take(i as int)).push(i as int));
        }
        i = i + 1;
    }
    assert(ls.take(lines.len() as int) =~= ls);
    out
}

/// The lines among `lines[s..e]` that are neither blank nor comments.
pub fn kept_ranges(text: &Vec<char>, lines: &Vec<Line>, s: usize, e: usize) -> (r: Vec<Line>)
    requires
        lines_ok(text@, lines@),
        s <= e <= lines.len(),
    ensures
        lines_ok(text@, r@),
        r@ == kept_lines(text@, lines@.subrange(s as int, e as int)),
{
    let ghost ls = lines@;
    let mut out: Vec<Line> = Vec::new();
    let mut k = s;
    assert(out@ =~= kept_lines(text@, ls.subrange(s as int, s as int)));
    while k < e
        invariant
            s <= k <= e <= lines.len(),
            lines_ok(text@, lines@),
            lines_ok(text@, out@),
            ls == lines@,
            out@ == kept_lines(text@, ls.subrange(s as int, k as int)),
        decreases e - k,
    {
        let l = lines[k];
        assert(ls.subrange(s as int, k + 1).drop_last() =~= ls.subrange(s as int, k as int));
        assert(ls.subrange(s as int, k + 1).last() == l);
        let (tb, te) = trim_range(text, l.first, l.end);
        if tb < te && text[tb] != '#' {
            out.push(l);
        }
        k = k + 1;
    }
    out
}

/// Appends the events of document `i`.
fn push_document(
    text: &Vec<char>,
    lines: &Vec<Line>,
    ms: &Vec<usize>,
    i: usize,
    events: &mut Vec<PyEvent>,
)
    requires
        lines_ok(text@, lines@),
        i <= ms.len(),
        forall|k: int| 0 <= k < ms.len() ==> #[trigger] ms[k] < lines.len(),
    ensures
        appended(
            old(events)@,
            final(events)@,
            document_events(text@, lines@, as_ints(ms@), i as int),
        ),
{
    let ghost msi = as_ints(ms@);
    let n = lines.len();
    let s = if i == 0 {
        0
    } else {
        ms[i - 1] + 1
    };
    let e = if i == ms.len() {
        n
    } else {
        ms[i]
    };
    assert(s == segment_start(msi, i as int));
    assert(e == segment_end(n as int, msi, i as int));
    proof {
        lemma_appended_none(events@);
    }
    let mut cand: Vec<Line> = Vec::new();
    if i > 0 {
        let m = lines[ms[i - 1]];
        let (t0, t1) = trim_range(text, m.first, m.end);
        let first = if t1 - t0 >= 4 {
            t0 + 4
        } else {
            t1
        };
        cand.push(Line { start: m.start, first, end: m.end, number: m.number });
    }
    let ghost head = cand@;
    if s < e {
        let mut k = s;
        while k < e
            invariant
                s <= k <= e <= lines.len(),
                lines_ok(text@, lines@),
                lines_ok(text@, cand@),
                cand@ == head + lines@.subrange(s as int, k as int),
            decreases e - k,
        {
            cand.push(lines[k]);
            assert(lines@.subrange(s as int, k + 1) =~= lines@.subrange(s as int, k as int).push(
                lines@[k as int],
            ));
            assert(cand@ =~= head + lines@.subrange(s as int, k + 1));
            k = k + 1;
        }
    } else {
        assert(cand@ =~= head + Seq::<Line>::empty());
    }
    assert(cand@ == segment_lines(lines@, msi, i as int, text@));
    let kept = kept_ranges(text, &cand, 0, cand.len());
    assert(cand@.subrange(0, cand.len() as int) =~= cand@);
    assert(kept@ == document_lines(text@, lines@, msi, i as int));
    if kept.len() > 0 {
        let k = kept.len();
        let first = kept[0];
        let f = skip_ws_forward(text, first.first, first.end);
        let sm = mark_at(&first, f);
        let last = kept[k - 1];
        let em = mark_at(&last, last.end);
        assert(sm == block_start(text@, kept@));
        assert(em == block_end(kept@));
        let ghost e0 = events@;
        push_event(
            events,
            Event::DocumentStart {
                start_mark: sm,
                end_mark: sm,
                explicit: i > 0,
                version: None,
                tags: None,
            },
        );
        let ghost e1 = events@;
        process_document_content(text, &kept, events);
        let ghost e2 = events@;
        push_event(events, Event::DocumentEnd { start_mark: em, end_mark: em, explicit: false });
        proof {
            let body = content_events(text@, kept@);
            let ds = seq![document_start(sm, i > 0)];
            lemma_appended_chain(e0, e1, e2, ds, body);
            lemma_appended_chain(e0, e2, events@, ds + body, seq![document_end(em)]);
        }
    }
}

/// Appends the events of all documents.
fn push_documents(text: &Vec<char>, lines: &Vec<Line>, ms: &Vec<usize>, events: &mut Vec<PyEvent>)
    requires
        lines_ok(text@, lines@),
        forall|k: int| 0 <= k < ms.len() ==> #[trigger] ms[k] < lines.len(),
    ensures
        appended(old(events)@, final(events)@, documents_from(text@, lines@, as_ints(ms@), 0)),
{
    let ghost msi = as_ints(ms@);
    let ghost mut done: Seq<EventModel> = seq![];
    proof {
        lemma_appended_none(events@);
    }
    let mut i: usize = 0;
    loop
        invariant
            i <= ms.len(),
            lines_ok(text@, lines@),
            forall|k: int| 0 <= k < ms.len() ==> #[trigger] ms[k] < lines.len(),
            msi == as_ints(ms@),
            appended(old(events)@, events@, done),
            done + documents_from(text@, lines@, msi, i as int) == documents_from(
                text@,
                lines@,
                msi,
                0,
            ),
        decreases ms.len() - i,
    {
        let ghost before = events@;
        let ghost step = document_events(text@, lines@, msi, i as int);
        let ghost rest = documents_from(text@, lines@, msi, i + 1);
        assert(documents_from(text@, lines@, msi, i as int) == step + rest);
        push_document(text, lines, ms, i, events);
        proof {
            lemma_appended_chain(old(events)@, before, events@, done, step);
            lemma_cat_assoc(done, step, rest);
            done = done + step;
        }
        if i == ms.len() {
            assert(rest == Seq::<EventModel>::empty());
            assert(done + seq![] =~= done);
            return ;
        }
        i = i + 1;
    }
}

/// The events of a text as its documents inside a stream.
fn parse_tokens_to_events(text: &Vec<char>) -> (r: Vec<PyEvent>)
    ensures
        models(r@) == stream_events(text@),
{
    let mut events: Vec<PyEvent> = Vec::new();
    let mark = Mark::new(0, 0, 0);
    let lit = "utf-8";
    proof {
        reveal_strlit("utf-8");
    }
    let encoding = String::from_str(lit);
    assert(encoding@ =~= utf8_name());
    let ghost e0 = events@;
    push_event(
        &mut events,
        Event::StreamStart { start_mark: mark, end_mark: mark, encoding: Some(encoding) },
    );
    let ghost e1 = events@;
    let lines = split_lines(text);
    let ms = find_markers(text, &lines);
    let ghost body = documents_from(text@, lines@, markers(text@, lines@), 0);
    push_documents(text, &lines, &ms, &mut events);
    let ghost e2 = events@;
    let n = text.len();
    let end = if n == 0 {
        Mark::new(0, 0, 0)
    } else if text[n - 1] == '\n' {
        Mark::new(lines.len(), 0, n)
    } else {
        assert(lines@.len() > 0);
        let last = lines[lines.len() - 1];
        mark_at(&last, n)
    };
    assert(end == text_end(text@, lines@));
    push_event(&mut events, Event::StreamEnd { start_mark: end, end_mark: end });
    proof {
        let ss = seq![stream_start_utf8(mark)];
        lemma_appended_chain(e0, e1, e2, ss, body);
        lemma_appended_chain(e0, e2, events@, ss + body, seq![stream_end(end)]);
        assert(models(e0) =~= Seq::<EventModel>::empty());
        assert(models(events@) =~= wrap(stream_start_utf8(mark), body, stream_end(end)));
    }
    events
}

/// Parses YAML text into its events. A blank text gives the events of one
/// empty document; any other text its documents (separated by "---" lines)
/// inside a "utf-8" stream, each event marked with where it stands.
pub fn parse_rust(stream: &str) -> (r: Vec<PyEvent>)
    ensures
        models(r@) == spec_parse(stream@),
{
    let text = chars_of(stream);
    let (b, e) = trim_range(&text, 0, text.len());
    if b == e {
        create_empty_document_events()
    } else {
        parse_tokens_to_events(&text)
    }
}

} // verus!
