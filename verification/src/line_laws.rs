//! What a single line yields: a `key: value` line is a mapping of one key
//! whose value is everything after the first ':', resolved as
//! `process_yaml_value` resolves it; a `- item` line is a sequence of one
//! item, everything after the first '-', resolved the same way.
use crate::event::EventModel;
use crate::model::{
    any_dash_line, any_mapping_line, block_events, content_events, dash_line, document_lines,
    documents_from, is_doc_marker, item_events, keep_line, kept_lines, mapping_from, mapping_line,
    markers, segment_lines, sequence_from, spec_parse, stream_events, value_event,
};
use crate::ranges::{
    lemma_clean_in, lemma_clean_shift, lemma_tag_shift, lemma_trim_bounds, lemma_trim_twice,
    lemma_trim_widen, lemma_value_shift, lemma_ws_back_bounds, lemma_ws_back_is,
    lemma_ws_fwd_is, lemma_find_is, shifted,
};
use crate::scalar::{clean_bounds, full_tag_of, is_quoted, spec_clean, spec_process_value, value_bounds};
use crate::text::{find_in, is_ws, lines_from, next_newline, trim_bounds, ws_back, ws_fwd, yaml_lines, Line};
use vstd::prelude::*;

verus! {

/// `s` holds no `ch`.
pub open spec fn lacks(s: Seq<char>, ch: char) -> bool {
    forall|j: int| 0 <= j < s.len() ==> s[j] != ch
}

/// `s` holds a character that is not whitespace.
pub open spec fn has_text(s: Seq<char>) -> bool {
    exists|j: int| 0 <= j < s.len() && !is_ws(s[j])
}

/// The scalar `e` has the text `value` and the tag `tag`.
pub open spec fn is_scalar(e: EventModel, value: Seq<char>, tag: Option<Seq<char>>) -> bool {
    e matches EventModel::Scalar { value: v, tag: t, .. } && v == value && t == tag
}

proof fn lemma_no_newline(c: Seq<char>, k: int)
    requires
        0 <= k <= c.len(),
        forall|j: int| k <= j < c.len() ==> c[j] != '\n',
    ensures
        next_newline(c, k) == c.len(),
    decreases c.len() - k,
{
    if k < c.len() {
        lemma_no_newline(c, k + 1);
    }
}

/// A text without line feeds is one line.
proof fn lemma_one_line(c: Seq<char>)
    requires
        c.len() > 0,
        lacks(c, '\n'),
    ensures
        yaml_lines(c) == seq![
            Line { start: 0, first: 0, end: ws_back(c, 0, c.len() as int) as usize, number: 0 },
        ],
{
    lemma_no_newline(c, 0);
    lemma_ws_back_bounds(c, 0, c.len() as int);
}

/// The parse of a non-blank one-line text that is kept and is no
/// separator: one document whose content is that of its line.
#[verifier::rlimit(40)]
proof fn lemma_one_line_parse(c: Seq<char>, l: Line)
    requires
        c.len() > 0,
        yaml_lines(c) == seq![l],
        trim_bounds(c, 0, c.len() as int).0 < trim_bounds(c, 0, c.len() as int).1,
        !is_doc_marker(c, l),
        keep_line(c, l),
    ensures
        spec_parse(c) == seq![
            crate::event::stream_start_utf8(crate::event::origin()),
            crate::event::document_start(crate::model::block_start(c, seq![l]), false),
        ] + content_events(c, seq![l]) + seq![
            crate::event::document_end(crate::model::block_end(seq![l])),
            crate::event::stream_end(crate::model::text_end(c, seq![l])),
        ],
{
    let ls = seq![l];
    assert(ls.drop_last() =~= Seq::<Line>::empty());
    assert(markers(c, ls) == Seq::<int>::empty()) by {
        reveal_with_fuel(markers, 2);
    }
    let ms = Seq::<int>::empty();
    assert(ls.subrange(0, 1) =~= ls);
    assert(segment_lines(ls, ms, 0, c) == ls);
    assert(kept_lines(c, ls) == ls) by {
        reveal_with_fuel(kept_lines, 2);
    }
    assert(document_lines(c, ls, ms, 0) == ls);
    assert(documents_from(c, ls, ms, 1) == Seq::<EventModel>::empty());
    assert(documents_from(c, ls, ms, 0) == crate::model::document_events(c, ls, ms, 0) + Seq::<
        EventModel,
    >::empty());
    let body = content_events(c, ls);
    assert(spec_parse(c) == stream_events(c));
    assert(spec_parse(c) =~= seq![
        crate::event::stream_start_utf8(crate::event::origin()),
        crate::event::document_start(crate::model::block_start(c, ls), false),
    ] + body + seq![
        crate::event::document_end(crate::model::block_end(ls)),
        crate::event::stream_end(crate::model::text_end(c, ls)),
    ]);
}

/// Cleaning a trimmed range is cleaning the range it was trimmed from.
proof fn lemma_value_bounds_same(c: Seq<char>, lo: int, hi: int, lo2: int, hi2: int)
    requires
        lo <= hi,
        lo2 <= hi2,
        trim_bounds(c, lo, hi) == trim_bounds(c, lo2, hi2),
    ensures
        value_bounds(c, lo, hi) == value_bounds(c, lo2, hi2),
        clean_bounds(c, lo, hi) == clean_bounds(c, lo2, hi2),
{
}

/// The value after a line's separator: `v` stands at `o..` to the end of
/// the text, the line's text ends at `end`, and `v` is not blank.
proof fn lemma_value_part(c: Seq<char>, o: int, v: Seq<char>, end: int, jv: int, l: Line)
    requires
        shifted(c, o, v, 0, v.len() as int),
        c.len() == o + v.len(),
        o <= end <= c.len(),
        forall|j: int| end <= j < c.len() ==> is_ws(#[trigger] c[j]),
        0 <= jv < v.len(),
        !is_ws(v[jv]),
    ensures
        trim_bounds(c, o, end).0 < trim_bounds(c, o, end).1,
        is_scalar(
            value_event(c, l, trim_bounds(c, o, end).0, trim_bounds(c, o, end).1),
            spec_process_value(v).0,
            spec_process_value(v).1,
        ),
{
    let n = c.len() as int;
    assert(c[o + jv] == v[jv]);
    assert(o + jv < end) by {
        if o + jv >= end {
            assert(is_ws(c[o + jv]));
        }
    }
    lemma_trim_bounds(c, o, end);
    let (vb, ve) = trim_bounds(c, o, end);
    assert(vb < ve) by {
        if vb == ve {
            assert(is_ws(c[o + jv]));
        }
    }
    lemma_trim_widen(c, o, end, o, n);
    lemma_trim_twice(c, o, end);
    lemma_value_bounds_same(c, vb, ve, o, n);
    lemma_value_shift(c, o, v, 0, v.len() as int);
    let (vv, vt) = value_bounds(v, 0, v.len() as int);
    lemma_tag_shift(c, o, v, 0, v.len() as int, vt);
    assert(c.subrange(o + vv.0, o + vv.1) =~= v.subrange(vv.0, vv.1));
}

/// The key before a line's ':': `k` stands at the start of the text, and
/// `f` is its first non-blank index.
proof fn lemma_key_part(c: Seq<char>, k: Seq<char>, f: int, l: Line)
    requires
        shifted(c, 0, k, 0, k.len() as int),
        0 <= f < k.len(),
        !is_ws(k[f]),
        forall|j: int| 0 <= j < f ==> is_ws(#[trigger] k[j]),
    ensures
        trim_bounds(c, f, k.len() as int).0 < trim_bounds(c, f, k.len() as int).1,
        is_scalar(
            crate::model::key_event(
                c,
                l,
                trim_bounds(c, f, k.len() as int).0,
                trim_bounds(c, f, k.len() as int).1,
            ),
            spec_clean(k),
            None,
        ),
{
    let kl = k.len() as int;
    assert(c[f] == k[f]);
    assert forall|j: int| 0 <= j < f implies is_ws(#[trigger] c[j]) by {
        assert(c[j] == k[j]);
    }
    lemma_trim_bounds(c, f, kl);
    let (kb, ke) = trim_bounds(c, f, kl);
    assert(kb < ke) by {
        if kb == ke {
            assert(is_ws(c[f]));
        }
    }
    lemma_trim_widen(c, f, kl, 0, kl);
    lemma_trim_twice(c, f, kl);
    lemma_value_bounds_same(c, kb, ke, 0, kl);
    lemma_clean_shift(c, 0, k, 0, kl);
    lemma_clean_in(k, 0, kl);
    let cb = clean_bounds(k, 0, kl);
    assert(c.subrange(cb.0, cb.1) =~= k.subrange(cb.0, cb.1));
}

/// A '-' followed by a text that does not begin with "--" is no separator.
proof fn lemma_item_no_marker(c: Seq<char>, v: Seq<char>, l: Line)
    requires
        c == seq!['-'] + v,
        l.first == 0,
        trim_bounds(c, 0, l.end as int).0 == 0,
        l.end <= c.len(),
        !(v.len() >= 2 && v[0] == '-' && v[1] == '-'),
    ensures
        !is_doc_marker(c, l),
{
    let end = l.end as int;
    lemma_trim_bounds(c, 0, end);
    let e = trim_bounds(c, 0, end).1;
    let t = c.subrange(0, e);
    if e >= 3 {
        assert(t[1] == c[1]);
        assert(t[2] == c[2]);
        assert(c[1] == v[0] && c[2] == v[1]);
        assert(t.subrange(0, 3) =~= seq![t[0], t[1], t[2]]);
        if t.len() >= 4 {
            assert(t.subrange(0, 4)[1] == t[1]);
            assert(t.subrange(0, 4)[2] == t[2]);
        }
        if t == seq!['-', '-', '-'] {
            assert(seq!['-', '-', '-'][1] == '-');
        }
    }
}

/// A `key: value` line: its text is the key `k`, a ':', and the value `v`,
/// on one line. When `k` holds no ':' and does not begin with '#' or '-',
/// and `v` is not blank, the line is a mapping of one pair: the key is `k`
/// cleaned as `clean_yaml_string` cleans it, and the value is the whole of
/// `v`, up to the end of the line, cleaned and tagged as
/// `process_yaml_value` does it (a ':' inside `v` ends nothing, and quotes
/// around it are dropped).
#[verifier::rlimit(40)]
pub proof fn key_value_line(k: Seq<char>, v: Seq<char>)
    requires
        k.len() + 1 + v.len() <= usize::MAX,
        lacks(k, '\n'),
        lacks(v, '\n'),
        lacks(k, ':'),
        has_text(k),
        has_text(v),
        k[ws_fwd(k, 0, k.len() as int)] != '#',
        k[ws_fwd(k, 0, k.len() as int)] != '-',
    ensures
        ({
            let p = spec_parse(k + seq![':'] + v);
            &&& p.len() == 8
            &&& p[0] is StreamStart
            &&& p[1] is DocumentStart
            &&& p[2] is MappingStart
            &&& is_scalar(p[3], spec_clean(k), None)
            &&& is_scalar(p[4], spec_process_value(v).0, spec_process_value(v).1)
            &&& p[5] is MappingEnd
            &&& p[6] is DocumentEnd
            &&& p[7] is StreamEnd
        }),
{
    let c = k + seq![':'] + v;
    let kl = k.len() as int;
    let o = kl + 1;
    lemma_key_value_text(k, v);
    let (f, end, jv) = lemma_key_value_shape(c, k, v);
    let l = Line { start: 0, first: 0, end: end as usize, number: 0 };
    lemma_first_no_marker(c, l, f);
    assert(keep_line(c, l));
    lemma_one_line_parse(c, l);
    lemma_find_is(c, ':', f, end, kl);
    lemma_find_is(c, ':', 0, end, kl);
    lemma_key_part(c, k, f, l);
    lemma_value_part(c, o, v, end, jv, l);
    lemma_mapping_one_line(c, l, f, kl);
}

/// How `k`, ':' and `v` lie in their concatenation.
proof fn lemma_key_value_text(k: Seq<char>, v: Seq<char>)
    requires
        lacks(k, '\n'),
        lacks(v, '\n'),
    ensures
        ({
            let c = k + seq![':'] + v;
            &&& c.len() == k.len() + 1 + v.len()
            &&& c[k.len() as int] == ':'
            &&& shifted(c, 0, k, 0, k.len() as int)
            &&& shifted(c, k.len() + 1int, v, 0, v.len() as int)
            &&& lacks(c, '\n')
        }),
{
    let c = k + seq![':'] + v;
    let kl = k.len() as int;
    let o = kl + 1;
    assert(forall|j: int| 0 <= j < kl ==> c[j] == k[j]);
    assert(forall|j: int| #![trigger v[j]] 0 <= j < v.len() ==> c[o + j] == v[j]);
    assert forall|j: int| 0 <= j < c.len() implies c[j] != '\n' by {
        if j < kl {
        } else if j > kl {
            assert(c[o + (j - o)] == v[j - o]);
        }
    }
}

/// The one line of `k: v`: its text ends at `end`, after `v`'s last
/// non-blank character, and its trimmed text starts at `f`, `k`'s first
/// non-blank character.
#[verifier::rlimit(40)]
proof fn lemma_key_value_shape(c: Seq<char>, k: Seq<char>, v: Seq<char>) -> (r: (int, int, int))
    requires
        c.len() == k.len() + 1 + v.len(),
        c.len() <= usize::MAX,
        c[k.len() as int] == ':',
        shifted(c, 0, k, 0, k.len() as int),
        shifted(c, k.len() + 1int, v, 0, v.len() as int),
        lacks(c, '\n'),
        has_text(k),
        has_text(v),
        k[ws_fwd(k, 0, k.len() as int)] != '#',
        k[ws_fwd(k, 0, k.len() as int)] != '-',
    ensures
        ({
            let (f, end, jv) = r;
            let l = Line { start: 0, first: 0, end: end as usize, number: 0 };
            &&& 0 <= f < k.len()
            &&& f == ws_fwd(k, 0, k.len() as int)
            &&& k.len() + 1 < end <= c.len()
            &&& l.end as int == end
            &&& yaml_lines(c) == seq![l]
            &&& trim_bounds(c, 0, end) == (f, end)
            &&& trim_bounds(c, 0, c.len() as int) == (f, end)
            &&& forall|j: int| end <= j < c.len() ==> is_ws(#[trigger] c[j])
            &&& c[f] == k[f]
            &&& !is_ws(k[f])
            &&& forall|j: int| 0 <= j < f ==> is_ws(#[trigger] k[j])
            &&& 0 <= jv < v.len()
            &&& !is_ws(v[jv])
        }),
{
    let kl = k.len() as int;
    let n = c.len() as int;
    let o = kl + 1;
    let jk = choose|j: int| 0 <= j < k.len() && !is_ws(k[j]);
    let jv = choose|j: int| 0 <= j < v.len() && !is_ws(v[j]);
    assert(c[o + jv] == v[jv]);
    lemma_one_line(c);
    let end = ws_back(c, 0, n);
    lemma_ws_back_bounds(c, 0, n);
    assert(end > o + jv);
    crate::ranges::lemma_ws_fwd_bounds(k, 0, kl);
    let f = ws_fwd(k, 0, kl);
    assert(f <= jk);
    assert(c[f] == k[f]);
    assert forall|j: int| 0 <= j < f implies is_ws(#[trigger] c[j]) by {
        assert(c[j] == k[j]);
    }
    lemma_ws_fwd_is(c, 0, end, f);
    lemma_ws_fwd_is(c, 0, n, f);
    lemma_ws_back_is(c, 0, end, end);
    (f, end, jv)
}

/// A line whose trimmed text begins with no '-' is no separator.
proof fn lemma_first_no_marker(c: Seq<char>, l: Line, f: int)
    requires
        l.first == 0,
        l.end <= c.len(),
        trim_bounds(c, 0, l.end as int) == (f, l.end as int),
        0 <= f < l.end,
        c[f] != '-',
    ensures
        !is_doc_marker(c, l),
{
    let t = c.subrange(f, l.end as int);
    let three = seq!['-', '-', '-'];
    let four = seq!['-', '-', '-', ' '];
    assert(three[0] == '-' && four[0] == '-');
    assert(t[0] == c[f]);
    if t.len() >= 4 {
        assert(t.subrange(0, 4)[0] == t[0]);
    }
}

/// The content of a one-line document `key: value`: a mapping of that
/// key and that value.
proof fn lemma_mapping_one_line(c: Seq<char>, l: Line, f: int, p: int)
    requires
        l.first == 0,
        trim_bounds(c, 0, l.end as int) == (f, l.end as int),
        find_in(c, ':', f, l.end as int) == Some(p),
        find_in(c, ':', 0, l.end as int) == Some(p),
        f < l.end,
        c[f] != '-',
        trim_bounds(c, p + 1, l.end as int).0 < trim_bounds(c, p + 1, l.end as int).1,
    ensures
        ({
            let (kb, ke) = trim_bounds(c, f, p);
            let (vb, ve) = trim_bounds(c, p + 1, l.end as int);
            content_events(c, seq![l]) == seq![
                crate::event::mapping_start(crate::model::block_start(c, seq![l])),
                crate::model::key_event(c, l, kb, ke),
                value_event(c, l, vb, ve),
                crate::event::mapping_end(crate::model::block_end(seq![l])),
            ]
        }),
{
    let ls = seq![l];
    assert(ws_fwd(c, 0, l.end as int) == f);
    assert(!dash_line(c, l));
    assert(mapping_line(c, ls[0]));
    assert(any_mapping_line(c, ls));
    assert(mapping_from(c, ls, 1) == Seq::<EventModel>::empty());
    let (kb, ke) = trim_bounds(c, f, p);
    let (vb, ve) = trim_bounds(c, p + 1, l.end as int);
    assert(mapping_from(c, ls, 0) =~= seq![
        crate::model::key_event(c, l, kb, ke),
        value_event(c, l, vb, ve),
    ]);
}

/// The content of a one-line document `- item`: a sequence of that item.
proof fn lemma_sequence_one_line(c: Seq<char>, l: Line)
    requires
        l.first == 0,
        trim_bounds(c, 0, l.end as int) == (0int, l.end as int),
        0 < l.end,
        c[0] == '-',
        trim_bounds(c, 1, l.end as int).0 < trim_bounds(c, 1, l.end as int).1,
    ensures
        ({
            let (ib, ie) = trim_bounds(c, 1, l.end as int);
            content_events(c, seq![l]) == seq![
                crate::event::sequence_start(crate::model::block_start(c, seq![l])),
                value_event(c, l, ib, ie),
                crate::event::sequence_end(crate::model::block_end(seq![l])),
            ]
        }),
{
    let ls = seq![l];
    assert(ws_fwd(c, 0, l.end as int) == 0);
    assert(dash_line(c, ls[0]));
    assert(!mapping_line(c, ls[0]));
    assert(!any_mapping_line(c, ls));
    assert(any_dash_line(c, ls));
    let (ib, ie) = trim_bounds(c, 1, l.end as int);
    assert(item_events(c, l) == seq![value_event(c, l, ib, ie)]);
    assert(sequence_from(c, ls, 1) == Seq::<EventModel>::empty());
    assert(sequence_from(c, ls, 0) =~= seq![value_event(c, l, ib, ie)]);
}

/// A `- item` line: a '-' and the item `v`, on one line. When `v` is not
/// blank and does not begin with "--", the line is a sequence of one item
/// whose value is the whole of `v` after that first '-', cleaned and
/// tagged as `process_yaml_value` does it (a second '-' is part of it).
#[verifier::rlimit(40)]
pub proof fn item_line(v: Seq<char>)
    requires
        1 + v.len() <= usize::MAX,
        lacks(v, '\n'),
        has_text(v),
        !(v.len() >= 2 && v[0] == '-' && v[1] == '-'),
    ensures
        ({
            let p = spec_parse(seq!['-'] + v);
            &&& p.len() == 7
            &&& p[0] is StreamStart
            &&& p[1] is DocumentStart
            &&& p[2] is SequenceStart
            &&& is_scalar(p[3], spec_process_value(v).0, spec_process_value(v).1)
            &&& p[4] is SequenceEnd
            &&& p[5] is DocumentEnd
            &&& p[6] is StreamEnd
        }),
{
    let c = seq!['-'] + v;
    let n = c.len() as int;
    let o = 1int;
    assert(c[0] == '-');
    assert(forall|j: int| 0 <= j < v.len() ==> c[o + j] == v[j]);
    assert(lacks(c, '\n')) by {
        assert forall|j: int| 0 <= j < c.len() implies c[j] != '\n' by {
            if j > 0 {
                assert(c[o + (j - o)] == v[j - o]);
            }
        }
    }
    let jv = choose|j: int| 0 <= j < v.len() && !is_ws(v[j]);
    assert(c[o + jv] == v[jv]);
    lemma_one_line(c);
    let end = ws_back(c, 0, n);
    lemma_ws_back_bounds(c, 0, n);
    assert(end > o + jv);
    let l = Line { start: 0, first: 0, end: end as usize, number: 0 };
    lemma_ws_fwd_is(c, 0, end, 0);
    lemma_ws_fwd_is(c, 0, n, 0);
    lemma_trim_bounds(c, 0, n);
    lemma_ws_back_is(c, 0, end, end);
    assert(trim_bounds(c, 0, end) == (0int, end));
    lemma_item_no_marker(c, v, l);
    assert(keep_line(c, l));
    lemma_one_line_parse(c, l);
    assert(shifted(c, o, v, 0, v.len() as int));
    lemma_value_part(c, o, v, end, jv, l);
    lemma_sequence_one_line(c, l);
}

/// A value with no surrounding whitespace, quote or "!!" tag is taken as
/// it is.
pub proof fn plain_value_is_kept(v: Seq<char>)
    requires
        v.len() > 0,
        !is_ws(v[0]),
        !is_ws(v.last()),
        v[0] != '\'',
        v[0] != '"',
        v[0] != '!',
    ensures
        spec_process_value(v) == (v, None::<Seq<char>>),
{
    let n = v.len() as int;
    crate::ranges::lemma_trim_is(v, 0, n, 0, n);
    assert(!is_quoted(v, 0, n));
    assert(v.subrange(0, n) =~= v);
}

/// A value in a pair of single or double quotes is the text between them.
pub proof fn quoted_value_is_unquoted(q: char, s: Seq<char>)
    requires
        q == '\'' || q == '"',
    ensures
        spec_process_value(seq![q] + s + seq![q]) == (s, None::<Seq<char>>),
{
    let v = seq![q] + s + seq![q];
    let n = v.len() as int;
    assert(v[0] == q);
    assert(v[n - 1] == q);
    crate::ranges::lemma_trim_is(v, 0, n, 0, n);
    assert(is_quoted(v, 0, n));
    assert(v.subrange(1, n - 1) =~= s);
}

} // verus!
