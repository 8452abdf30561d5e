//! Turning the lines of a document into events: mappings (nested by
//! indentation), sequences and lone scalars, each placed where it stands.
use crate::event::{
    mapping_end, mapping_start, models, plain_scalar, sequence_end, sequence_start, Event, Mark,
    PyEvent,
};
use crate::model::{
    any_dash_line, any_mapping_line, appended, block_end, block_events, block_start,
    content_events, dash_line, item_events, key_event, lemma_appended_chain, lemma_appended_none,
    lemma_appended_push, lemma_cat_assoc, lemma_find_in, lemma_nested_end_bounds, mapping_from,
    mapping_line, nested_end, pos, sequence_from, value_event, wrap,
};
use crate::scalar::{clean_range, process_value_range};
use crate::text::{find_in_range, indent_of, lines_ok, skip_ws_forward, trim_range, Line};
use vstd::prelude::*;

verus! {

/// The mark of character index `p` on line `l`.
pub fn mark_at(l: &Line, p: usize) -> (m: Mark)
    requires
        l.start <= p,
    ensures
        m == pos(*l, p as int),
{
    Mark::new(l.number, p - l.start, p)
}

/// Appends one event.
pub fn push_event(events: &mut Vec<PyEvent>, e: Event)
    ensures
        appended(old(events)@, final(events)@, seq![e@]),
{
    proof {
        lemma_appended_push(events@, PyEvent { event: e });
    }
    events.push(PyEvent { event: e });
}

/// Where the block `lines[lo..hi]` starts.
fn block_start_mark(text: &Vec<char>, lines: &Vec<Line>, lo: usize, hi: usize) -> (m: Mark)
    requires
        lines_ok(text@, lines@),
        lo < hi <= lines.len(),
    ensures
        m == block_start(text@, lines@.subrange(lo as int, hi as int)),
{
    let l = lines[lo];
    let f = skip_ws_forward(text, l.first, l.end);
    mark_at(&l, f)
}

/// Where the block `lines[lo..hi]` ends.
fn block_end_mark(text: &Vec<char>, lines: &Vec<Line>, lo: usize, hi: usize) -> (m: Mark)
    requires
        lines_ok(text@, lines@),
        lo < hi <= lines.len(),
    ensures
        m == block_end(lines@.subrange(lo as int, hi as int)),
{
    let l = lines[hi - 1];
    mark_at(&l, l.end)
}

/// Appends the scalar of the trimmed value `text[b..e]` on line `l`.
fn push_value(text: &Vec<char>, l: &Line, b: usize, e: usize, events: &mut Vec<PyEvent>)
    requires
        l.start <= b <= e <= text.len(),
    ensures
        appended(old(events)@, final(events)@, seq![value_event(text@, *l, b as int, e as int)]),
{
    let (value, tag) = process_value_range(text, b, e);
    push_event(
        events,
        Event::Scalar {
            anchor: None,
            tag,
            implicit: (true, false),
            value,
            start_mark: mark_at(l, b),
            end_mark: mark_at(l, e),
            style: None,
        },
    );
}

/// Appends the scalar of the trimmed key `text[b..e]` on line `l`.
fn push_key(text: &Vec<char>, l: &Line, b: usize, e: usize, events: &mut Vec<PyEvent>)
    requires
        l.start <= b <= e <= text.len(),
    ensures
        appended(old(events)@, final(events)@, seq![key_event(text@, *l, b as int, e as int)]),
{
    let key = clean_range(text, b, e);
    push_event(
        events,
        Event::Scalar {
            anchor: None,
            tag: None,
            implicit: (true, false),
            value: key,
            start_mark: mark_at(l, b),
            end_mark: mark_at(l, e),
            style: None,
        },
    );
}

/// Whether the line `l` is a sequence item.
fn is_dash_line(text: &Vec<char>, l: &Line) -> (r: bool)
    requires
        l.start <= l.first <= l.end <= text.len(),
    ensures
        r == dash_line(text@, *l),
{
    let s = skip_ws_forward(text, l.first, l.end);
    s < l.end && text[s] == '-'
}

/// Whether the line `l` is a mapping line.
fn is_mapping_line(text: &Vec<char>, l: &Line) -> (r: bool)
    requires
        l.start <= l.first <= l.end <= text.len(),
    ensures
        r == mapping_line(text@, *l),
{
    let has_colon = find_in_range(text, l.first, l.end, ':').is_some();
    has_colon && !is_dash_line(text, l)
}

/// Whether one of `lines[lo..hi]` is a mapping line.
fn has_mapping_line(text: &Vec<char>, lines: &Vec<Line>, lo: usize, hi: usize) -> (r: bool)
    requires
        lines_ok(text@, lines@),
        lo <= hi <= lines.len(),
    ensures
        r == any_mapping_line(text@, lines@.subrange(lo as int, hi as int)),
{
    let ghost ls = lines@.subrange(lo as int, hi as int);
    let mut k = lo;
    while k < hi
        invariant
            lo <= k <= hi <= lines.len(),
            lines_ok(text@, lines@),
            ls == lines@.subrange(lo as int, hi as int),
            forall|j: int| 0 <= j < k - lo ==> !#[trigger] mapping_line(text@, ls[j]),
        decreases hi - k,
    {
        let l = lines[k];
        assert(ls[k - lo] == l);
        if is_mapping_line(text, &l) {
            return true;
        }
        k = k + 1;
    }
    false
}

/// Whether one of `lines[lo..hi]` is a sequence item.
fn has_dash_line(text: &Vec<char>, lines: &Vec<Line>, lo: usize, hi: usize) -> (r: bool)
    requires
        lines_ok(text@, lines@),
        lo <= hi <= lines.len(),
    ensures
        r == any_dash_line(text@, lines@.subrange(lo as int, hi as int)),
{
    let ghost ls = lines@.subrange(lo as int, hi as int);
    let mut k = lo;
    while k < hi
        invariant
            lo <= k <= hi <= lines.len(),
            lines_ok(text@, lines@),
            ls == lines@.subrange(lo as int, hi as int),
            forall|j: int| 0 <= j < k - lo ==> !#[trigger] dash_line(text@, ls[j]),
        decreases hi - k,
    {
        let l = lines[k];
        assert(ls[k - lo] == l);
        if is_dash_line(text, &l) {
            return true;
        }
        k = k + 1;
    }
    false
}

/// Appends the event of one sequence line `l`.
fn push_item(text: &Vec<char>, l: &Line, events: &mut Vec<PyEvent>)
    requires
        l.start <= l.first <= l.end <= text.len(),
    ensures
        appended(old(events)@, final(events)@, item_events(text@, *l)),
{
    let (tb, te) = trim_range(text, l.first, l.end);
    if tb < te && text[tb] == '-' {
        let (ib, ie) = trim_range(text, tb + 1, te);
        if ib < ie {
            push_value(text, l, ib, ie, events);
            return ;
        }
    }
    proof {
        lemma_appended_none(events@);
    }
}

/// Appends the events of the sequence lines `lines[lo..hi]`: one scalar per
/// non-empty "- item" line.
pub fn parse_sequence_lines(
    text: &Vec<char>,
    lines: &Vec<Line>,
    lo: usize,
    hi: usize,
    events: &mut Vec<PyEvent>,
)
    requires
        lines_ok(text@, lines@),
        lo <= hi <= lines.len(),
    ensures
        appended(
            old(events)@,
            final(events)@,
            sequence_from(text@, lines@.subrange(lo as int, hi as int), 0),
        ),
{
    let ghost ls = lines@.subrange(lo as int, hi as int);
    let ghost mut done: Seq<crate::event::EventModel> = seq![];
    proof {
        lemma_appended_none(events@);
    }
    let mut i = lo;
    while i < hi
        invariant
            lo <= i <= hi <= lines.len(),
            lines_ok(text@, lines@),
            ls == lines@.subrange(lo as int, hi as int),
            appended(old(events)@, events@, done),
            done + sequence_from(text@, ls, i - lo) == sequence_from(text@, ls, 0),
        decreases hi - i,
    {
        let ghost before = events@;
        let l = lines[i];
        assert(ls[i - lo] == l);
        let ghost step = item_events(text@, l);
        let ghost rest = sequence_from(text@, ls, i + 1 - lo);
        push_item(text, &l, events);
        proof {
            lemma_appended_chain(old(events)@, before, events@, done, step);
            lemma_cat_assoc(done, step, rest);
            done = done + step;
        }
        i = i + 1;
    }
    assert(done + seq![] =~= done);
}

/// The end of the block of lines nested under a key: the first index at
/// or after `k` whose line is indented by at most `ind` bytes or is blank.
fn find_nested_end(
    text: &Vec<char>,
    lines: &Vec<Line>,
    lo: usize,
    hi: usize,
    k: usize,
    ind: u128,
) -> (j: usize)
    requires
        lines_ok(text@, lines@),
        lo <= k <= hi <= lines.len(),
    ensures
        k <= j <= hi,
        j - lo == nested_end(text@, lines@.subrange(lo as int, hi as int), k - lo, ind as int),
{
    let ghost ls = lines@.subrange(lo as int, hi as int);
    let mut j = k;
    loop
        invariant
            k <= j <= hi <= lines.len(),
            lo <= k,
            lines_ok(text@, lines@),
            ls == lines@.subrange(lo as int, hi as int),
            nested_end(text@, ls, j - lo, ind as int) == nested_end(text@, ls, k - lo, ind as int),
        decreases hi - j,
    {
        if j >= hi {
            return j;
        }
        let l = lines[j];
        assert(ls[j - lo] == l);
        let d = indent_of(text, &l);
        let (tb, te) = trim_range(text, l.first, l.end);
        if d > ind && tb < te {
            j = j + 1;
        } else {
            return j;
        }
    }
}

/// Appends the events of the mapping lines `lines[lo..hi]`: each line with
/// a ':' gives its key and either its value or the block nested under it.
pub fn parse_mapping_lines(
    text: &Vec<char>,
    lines: &Vec<Line>,
    lo: usize,
    hi: usize,
    events: &mut Vec<PyEvent>,
)
    requires
        lines_ok(text@, lines@),
        lo <= hi <= lines.len(),
    ensures
        appended(
            old(events)@,
            final(events)@,
            mapping_from(text@, lines@.subrange(lo as int, hi as int), 0),
        ),
    decreases hi - lo, 1nat,
{
    let ghost ls = lines@.subrange(lo as int, hi as int);
    let ghost mut done: Seq<crate::event::EventModel> = seq![];
    proof {
        lemma_appended_none(events@);
    }
    let mut i = lo;
    while i < hi
        invariant
            lo <= i <= hi <= lines.len(),
            lines_ok(text@, lines@),
            ls == lines@.subrange(lo as int, hi as int),
            appended(old(events)@, events@, done),
            done + mapping_from(text@, ls, i - lo) == mapping_from(text@, ls, 0),
        decreases hi - i,
    {
        let ghost before = events@;
        let l = lines[i];
        assert(ls[i - lo] == l);
        let (tb, te) = trim_range(text, l.first, l.end);
        match find_in_range(text, tb, te, ':') {
            None => {
                i = i + 1;
            },
            Some(p) => {
                let (kb, ke) = trim_range(text, tb, p);
                let ghost key = seq![key_event(text@, l, kb as int, ke as int)];
                push_key(text, &l, kb, ke, events);
                let ghost after_key = events@;
                let (vb, ve) = trim_range(text, p + 1, te);
                if vb < ve {
                    let ghost val = seq![value_event(text@, l, vb as int, ve as int)];
                    let ghost rest = mapping_from(text@, ls, i + 1 - lo);
                    assert(mapping_from(text@, ls, i - lo) == key + val + rest);
                    push_value(text, &l, vb, ve, events);
                    proof {
                        lemma_appended_chain(before, after_key, events@, key, val);
                        lemma_appended_chain(old(events)@, before, events@, done, key + val);
                        lemma_cat_assoc(done, key + val, rest);
                        done = done + (key + val);
                    }
                    i = i + 1;
                } else {
                    let ind = indent_of(text, &l);
                    proof {
                        lemma_nested_end_bounds(text@, ls, i + 1 - lo, ind as int);
                    }
                    let j = find_nested_end(text, lines, lo, hi, i + 1, ind);
                    let ghost nested = ls.subrange(i + 1 - lo, j - lo);
                    assert(nested =~= lines@.subrange(i + 1, j as int));
                    let has_block = j > i + 1 && (has_mapping_line(text, lines, i + 1, j)
                        || has_dash_line(text, lines, i + 1, j));
                    let ghost inner = if has_block {
                        block_events(text@, nested)
                    } else {
                        seq![value_event(text@, l, vb as int, ve as int)]
                    };
                    let ghost rest = mapping_from(text@, ls, j - lo);
                    assert(mapping_from(text@, ls, i - lo) == key + inner + rest);
                    if has_block {
                        push_nested(text, lines, i + 1, j, events);
                    } else {
                        push_value(text, &l, vb, ve, events);
                    }
                    proof {
                        lemma_appended_chain(before, after_key, events@, key, inner);
                        lemma_appended_chain(old(events)@, before, events@, done, key + inner);
                        lemma_cat_assoc(done, key + inner, rest);
                        done = done + (key + inner);
                    }
                    i = j;
                }
            },
        }
    }
    assert(done + seq![] =~= done);
}

/// Appends the events of the block `lines[lo..hi]`: a mapping if one of
/// its lines is a mapping line, else a sequence if one is a sequence item,
/// else nothing. The start event stands at the block's first non-blank
/// character, the end event at the end of its last line.
pub fn push_nested(
    text: &Vec<char>,
    lines: &Vec<Line>,
    lo: usize,
    hi: usize,
    events: &mut Vec<PyEvent>,
)
    requires
        lines_ok(text@, lines@),
        lo <= hi <= lines.len(),
    ensures
        appended(
            old(events)@,
            final(events)@,
            block_events(text@, lines@.subrange(lo as int, hi as int)),
        ),
    decreases hi - lo, 2nat,
{
    let ghost ls = lines@.subrange(lo as int, hi as int);
    proof {
        lemma_appended_none(events@);
    }
    if lo < hi {
        if has_mapping_line(text, lines, lo, hi) {
            let s = block_start_mark(text, lines, lo, hi);
            let e = block_end_mark(text, lines, lo, hi);
            let ghost e0 = events@;
            push_event(events, Event::MappingStart {
                anchor: None,
                tag: None,
                implicit: true,
                start_mark: s,
                end_mark: s,
                flow_style: false,
            });
            let ghost e1 = events@;
            parse_mapping_lines(text, lines, lo, hi, events);
            let ghost e2 = events@;
            push_event(events, Event::MappingEnd { start_mark: e, end_mark: e });
            proof {
                let body = mapping_from(text@, ls, 0);
                lemma_appended_chain(e0, e1, e2, seq![mapping_start(s)], body);
                lemma_appended_chain(
                    e0,
                    e2,
                    events@,
                    seq![mapping_start(s)] + body,
                    seq![mapping_end(e)],
                );
            }
        } else if has_dash_line(text, lines, lo, hi) {
            let s = block_start_mark(text, lines, lo, hi);
            let e = block_end_mark(text, lines, lo, hi);
            let ghost e0 = events@;
            push_event(events, Event::SequenceStart {
                anchor: None,
                tag: None,
                implicit: true,
                start_mark: s,
                end_mark: s,
                flow_style: false,
            });
            let ghost e1 = events@;
            parse_sequence_lines(text, lines, lo, hi, events);
            let ghost e2 = events@;
            push_event(events, Event::SequenceEnd { start_mark: e, end_mark: e });
            proof {
                let body = sequence_from(text@, ls, 0);
                lemma_appended_chain(e0, e1, e2, seq![sequence_start(s)], body);
                lemma_appended_chain(
                    e0,
                    e2,
                    events@,
                    seq![sequence_start(s)] + body,
                    seq![sequence_end(e)],
                );
            }
        }
    }
}

/// Appends the events of a document whose kept lines are `lines`: a
/// mapping if one line is a mapping line, else a sequence if one line is a
/// sequence item, else the trimmed line as a scalar if there is only one.
pub fn process_document_content(text: &Vec<char>, lines: &Vec<Line>, events: &mut Vec<PyEvent>)
    requires
        lines_ok(text@, lines@),
    ensures
        appended(old(events)@, final(events)@, content_events(text@, lines@)),
{
    let n = lines.len();
    assert(lines@.subrange(0, n as int) =~= lines@);
    if n == 1 && !has_mapping_line(text, lines, 0, n) && !has_dash_line(text, lines, 0, n) {
        let l = lines[0];
        let (tb, te) = trim_range(text, l.first, l.end);
        let value = crate::text::string_of_range(text, tb, te);
        push_event(
            events,
            Event::Scalar {
                anchor: None,
                tag: None,
                implicit: (true, false),
                value,
                start_mark: mark_at(&l, tb),
                end_mark: mark_at(&l, te),
                style: None,
            },
        );
    } else {
        push_nested(text, lines, 0, n, events);
    }
}

} // verus!
