//! Laws on lines: a comment line yields nothing, whatever its
//! indentation; and the lines indented under a `key:` line are that key's
//! value, parsed as they would be on their own.
use crate::blanking::{
    blank_line, blanked, lemma_blank_lines, lemma_kept_all, lemma_kept_any,
    lemma_kept_first_dropped, lemma_kept_same, lemma_markers_are, lemma_markers_none,
    lemma_markers_same,
};
use crate::event::{document_start, document_end, origin, stream_end, stream_start_utf8, EventModel};
use crate::locality::{agree_all, agree_on, lemma_frame_content, lemma_frame_kinds, lemma_frame_line};
use crate::model::{
    after_marker, any_dash_line, any_mapping_line, block_end, block_events, block_start,
    content_events, dash_line, document_events, document_lines, documents_from, is_doc_marker,
    keep_line, kept_lines, key_event, mapping_from, mapping_line, markers, nested_end,
    segment_end, segment_lines, segment_start, spec_parse, stream_events, text_end,
};
use crate::ranges::{lemma_find_is, lemma_trim_bounds, lemma_ws_fwd_is};
use crate::text::{find_in, indent, is_ws, trim_bounds, ws_fwd, yaml_lines, Line};
use vstd::prelude::*;

verus! {

/// The trimmed text of line `l` of `c` begins with '#'.
pub open spec fn comment_line(c: Seq<char>, l: Line) -> bool {
    let (t0, t1) = trim_bounds(c, l.first as int, l.end as int);
    t0 < t1 && c[t0] == '#'
}

/// Line `l` of `c` is blank or a comment.
pub open spec fn quiet_line(c: Seq<char>, l: Line) -> bool {
    let (t0, t1) = trim_bounds(c, l.first as int, l.end as int);
    t0 >= t1 || c[t0] == '#'
}

/// A text that is not all whitespace is not taken for an empty one.
pub proof fn lemma_not_blank(c: Seq<char>, p: int)
    requires
        0 <= p < c.len(),
        !is_ws(c[p]),
    ensures
        trim_bounds(c, 0, c.len() as int).0 < trim_bounds(c, 0, c.len() as int).1,
{
    lemma_trim_bounds(c, 0, c.len() as int);
}

/// `keep_line` keeps exactly the lines that are neither blank nor comments.
pub proof fn lemma_keep_quiet(c: Seq<char>, l: Line)
    requires
        l.first <= l.end,
    ensures
        keep_line(c, l) == !quiet_line(c, l),
{
    lemma_trim_bounds(c, l.first as int, l.end as int);
}

/// A blanked line is blank: it is neither kept nor a separator.
proof fn lemma_blanked_quiet(c: Seq<char>, l: Line)
    requires
        l.start <= c.len(),
    ensures
        !keep_line(c, blanked(l)),
        !is_doc_marker(c, blanked(l)),
        quiet_line(c, blanked(l)),
{
    let b = blanked(l);
    assert(c.subrange(l.start as int, l.start as int) =~= Seq::<char>::empty());
}

/// A comment line is no separator.
proof fn lemma_comment_no_marker(c: Seq<char>, l: Line)
    requires
        comment_line(c, l),
        l.first <= l.end <= c.len(),
    ensures
        !is_doc_marker(c, l),
{
    lemma_trim_bounds(c, l.first as int, l.end as int);
    let (t0, t1) = trim_bounds(c, l.first as int, l.end as int);
    let t = c.subrange(t0, t1);
    assert(t[0] == c[t0]);
    if t.len() >= 4 {
        assert(t.subrange(0, 4)[0] == t[0]);
    }
}

/// Blanking a line's text leaves the mark of the end of the text as it was.
proof fn lemma_text_end_blank(c: Seq<char>, i: int)
    requires
        c.len() <= usize::MAX,
        0 <= i < yaml_lines(c).len(),
    ensures
        text_end(blank_line(c, yaml_lines(c)[i]), yaml_lines(blank_line(c, yaml_lines(c)[i])))
            == text_end(c, yaml_lines(c)),
{
    let ls = yaml_lines(c);
    let c2 = blank_line(c, ls[i]);
    lemma_blank_lines(c, i);
    let ls2 = yaml_lines(c2);
    let n = c.len() as int;
    assert(n > 0);
    let a = ls[i].start as int;
    let b = ls[i].end as int;
    if a <= n - 1 < b {
        assert(c2[n - 1] == ' ');
        assert(c[n - 1] != '\n');
    } else {
        assert(c2[n - 1] == c[n - 1]);
    }
    assert(ls2.last().start == ls.last().start && ls2.last().number == ls.last().number) by {
        assert(ls2.last() == ls2[ls.len() - 1]);
    }
}

/// The situation after blanking line `i`: `ls2` are the lines of `c2`.
pub open spec fn blank_setting(c: Seq<char>, ls: Seq<Line>, c2: Seq<char>, ls2: Seq<Line>, i: int) -> bool {
    &&& 0 <= i < ls.len()
    &&& ls2 == ls.update(i, blanked(ls[i]))
    &&& c2.len() == c.len()
    &&& forall|j: int| 0 <= j < ls.len() && j != i ==> #[trigger] agree_on(c, c2, ls[j])
    &&& forall|j: int|
        0 <= j < ls.len() ==> (#[trigger] ls[j]).first == ls[j].start && ls[j].start <= ls[j].end
            <= c.len()
}

proof fn lemma_blank_setting(c: Seq<char>, i: int)
    requires
        c.len() <= usize::MAX,
        0 <= i < yaml_lines(c).len(),
    ensures
        blank_setting(
            c,
            yaml_lines(c),
            blank_line(c, yaml_lines(c)[i]),
            yaml_lines(blank_line(c, yaml_lines(c)[i])),
            i,
        ),
{
    let ls = yaml_lines(c);
    let c2 = blank_line(c, ls[i]);
    lemma_blank_lines(c, i);
    assert forall|j: int| 0 <= j < ls.len() && j != i implies #[trigger] agree_on(c, c2, ls[j]) by {
        assert(ls[j].first == ls[j].start);
        assert forall|p: int| ls[j].first <= p < ls[j].end implies c[p] == #[trigger] c2[p] by {}
    }
}

/// The candidate lines of a document, once line `i` (no separator, not
/// kept) is blanked: the same lines where kept, on which both texts agree.
#[verifier::rlimit(40)]
proof fn lemma_document_lines_blank(
    c: Seq<char>,
    ls: Seq<Line>,
    c2: Seq<char>,
    ls2: Seq<Line>,
    i: int,
    ms: Seq<int>,
    d: int,
)
    requires
        blank_setting(c, ls, c2, ls2, i),
        !keep_line(c, ls[i]),
        forall|m: int| 0 <= m < ms.len() ==> 0 <= #[trigger] ms[m] < ls.len() && ms[m] != i,
        0 <= d <= ms.len(),
    ensures
        document_lines(c2, ls2, ms, d) == document_lines(c, ls, ms, d),
        agree_all(c, c2, document_lines(c, ls, ms, d)),
{
    let s = segment_lines(ls, ms, d, c);
    let s2 = segment_lines(ls2, ms, d, c2);
    let st = segment_start(ms, d);
    let en = segment_end(ls.len() as int, ms, d);
    let body = if st < en {
        ls.subrange(st, en)
    } else {
        seq![]
    };
    let body2 = if st < en {
        ls2.subrange(st, en)
    } else {
        seq![]
    };
    if d > 0 {
        assert(0 <= ms[d - 1] < ls.len());
    }
    if d < ms.len() {
        assert(0 <= ms[d] < ls.len());
    }
    // each candidate line is the same on both sides and both texts agree
    // on it, or it is line `i`, blank on one side and not kept on the other
    assert forall|x: int| 0 <= x < s.len() implies (s2[x] == s[x] && agree_on(c, c2, s[x])) || (
    s[x] == ls[i] && s2[x] == ls2[i]) by {
        if d > 0 && x == 0 {
            let m = ms[d - 1];
            assert(agree_on(c, c2, ls[m]));
            assert(ls2[m] == ls[m]);
            lemma_frame_line(c, c2, ls[m]);
            lemma_trim_bounds(c, ls[m].first as int, ls[m].end as int);
            assert(s[0] == after_marker(c, ls[m]));
            assert(s2[0] == after_marker(c2, ls2[m]));
        } else {
            let y = if d > 0 {
                x - 1
            } else {
                x
            };
            assert(s[x] == body[y]);
            assert(s2[x] == body2[y]);
            assert(body[y] == ls[st + y]);
            assert(body2[y] == ls2[st + y]);
            if st + y != i {
                assert(agree_on(c, c2, ls[st + y]));
            }
        }
    }
    assert forall|x: int| 0 <= x < s.len() implies keep_line(c2, #[trigger] s2[x]) == keep_line(
        c,
        s[x],
    ) && (keep_line(c, s[x]) ==> s2[x] == s[x]) && (keep_line(c, s[x]) ==> agree_on(c, c2, s[x])) by {
        if s2[x] == s[x] && agree_on(c, c2, s[x]) {
            lemma_frame_line(c, c2, s[x]);
        } else {
            lemma_blanked_quiet(c2, ls[i]);
        }
    }
    lemma_kept_same(c, s, c2, s2);
    lemma_kept_all(c, s, |l: Line| agree_on(c, c2, l));
}

/// The documents of `c` and of `c2`, from document `d` on, are the same.
proof fn lemma_documents_blank(
    c: Seq<char>,
    ls: Seq<Line>,
    c2: Seq<char>,
    ls2: Seq<Line>,
    i: int,
    ms: Seq<int>,
    d: int,
)
    requires
        blank_setting(c, ls, c2, ls2, i),
        !keep_line(c, ls[i]),
        forall|m: int| 0 <= m < ms.len() ==> 0 <= #[trigger] ms[m] < ls.len() && ms[m] != i,
        0 <= d,
    ensures
        documents_from(c2, ls2, ms, d) == documents_from(c, ls, ms, d),
    decreases ms.len() + 1 - d,
{
    if d <= ms.len() {
        lemma_document_lines_blank(c, ls, c2, ls2, i, ms, d);
        let dl = document_lines(c, ls, ms, d);
        lemma_frame_content(c, c2, dl);
        assert(document_events(c2, ls2, ms, d) == document_events(c, ls, ms, d));
        lemma_documents_blank(c, ls, c2, ls2, i, ms, d + 1);
    }
}

/// A comment line yields nothing: blanking the text of a line whose first
/// non-blank character is '#', at whatever indentation, leaves the events
/// of the text, marks included, as they were. (Were the text nothing but
/// that comment, blanking it would leave a blank text, which is parsed as
/// one empty document; that case is left out.)
#[verifier::rlimit(40)]
pub proof fn comment_lines_yield_nothing(c: Seq<char>, i: int)
    requires
        c.len() <= usize::MAX,
        0 <= i < yaml_lines(c).len(),
        comment_line(c, yaml_lines(c)[i]),
        exists|p: int|
            0 <= p < c.len() && !(yaml_lines(c)[i].start <= p < yaml_lines(c)[i].end) && !is_ws(
                #[trigger] c[p],
            ),
    ensures
        spec_parse(blank_line(c, yaml_lines(c)[i])) == spec_parse(c),
{
    let ls = yaml_lines(c);
    let c2 = blank_line(c, ls[i]);
    lemma_blank_lines(c, i);
    lemma_blank_setting(c, i);
    let ls2 = yaml_lines(c2);
    let n = c.len() as int;
    // neither text is blank
    let p = choose|p: int|
        0 <= p < c.len() && !(ls[i].start <= p < ls[i].end) && !is_ws(#[trigger] c[p]);
    assert(c2[p] == c[p]);
    lemma_not_blank(c, p);
    lemma_not_blank(c2, p);
    // the same separators, none of them line `i`
    lemma_comment_no_marker(c, ls[i]);
    lemma_blanked_quiet(c2, ls[i]);
    assert forall|j: int| 0 <= j < ls.len() implies is_doc_marker(c, #[trigger] ls[j])
        == is_doc_marker(c2, ls2[j]) by {
        if j != i {
            assert(agree_on(c, c2, ls[j]));
            lemma_frame_line(c, c2, ls[j]);
        }
    }
    lemma_markers_same(c, ls, c2, ls2);
    let ms = markers(c, ls);
    lemma_markers_are(c, ls);
    // line `i` is not kept
    assert(!keep_line(c, ls[i]));
    lemma_documents_blank(c, ls, c2, ls2, i, ms, 0);
    lemma_text_end_blank(c, i);
    assert(spec_parse(c) == stream_events(c));
    assert(spec_parse(c2) == stream_events(c2));
}

/// The trimmed text of line `l` of `c` is a key and a ':' that ends it:
/// it holds no other ':', and begins with neither '-' nor '#'.
pub open spec fn key_only_line(c: Seq<char>, l: Line) -> bool {
    let (t0, t1) = trim_bounds(c, l.first as int, l.end as int);
    &&& t0 < t1
    &&& c[t1 - 1] == ':'
    &&& c[t0] != '-'
    &&& c[t0] != '#'
    &&& forall|j: int| t0 <= j < t1 - 1 ==> #[trigger] c[j] != ':'
}

/// The trimmed text of line `l` of `c` begins with "---".
pub open spec fn dashes_line(c: Seq<char>, l: Line) -> bool {
    let (t0, t1) = trim_bounds(c, l.first as int, l.end as int);
    t1 - t0 >= 3 && c[t0] == '-' && c[t0 + 1] == '-' && c[t0 + 2] == '-'
}

/// Line `l` of `c` holds a ':', or its trimmed text begins with '-'.
pub open spec fn block_line(c: Seq<char>, l: Line) -> bool {
    let (t0, t1) = trim_bounds(c, l.first as int, l.end as int);
    t0 < t1 && (c[t0] == '-' || exists|j: int| t0 <= j < t1 && #[trigger] c[j] == ':')
}

pub proof fn lemma_marker_dashes(c: Seq<char>, l: Line)
    requires
        l.first <= l.end <= c.len(),
        is_doc_marker(c, l),
    ensures
        dashes_line(c, l),
{
    lemma_trim_bounds(c, l.first as int, l.end as int);
    let (t0, t1) = trim_bounds(c, l.first as int, l.end as int);
    let t = c.subrange(t0, t1);
    let three = seq!['-', '-', '-'];
    let four = seq!['-', '-', '-', ' '];
    assert(three.len() == 3 && three[0] == '-' && three[1] == '-' && three[2] == '-');
    assert(four.len() == 4 && four[0] == '-' && four[1] == '-' && four[2] == '-');
    if t == three {
        assert(t[0] == c[t0] && t[1] == c[t0 + 1] && t[2] == c[t0 + 2]);
    } else {
        let u = t.subrange(0, 4);
        assert(u == four);
        assert(u[0] == c[t0] && u[1] == c[t0 + 1] && u[2] == c[t0 + 2]);
    }
}

pub proof fn lemma_block_line_kind(c: Seq<char>, l: Line)
    requires
        l.first <= l.end <= c.len(),
        block_line(c, l),
    ensures
        mapping_line(c, l) || dash_line(c, l),
{
    lemma_trim_bounds(c, l.first as int, l.end as int);
    let (t0, t1) = trim_bounds(c, l.first as int, l.end as int);
    lemma_ws_fwd_is(c, l.first as int, l.end as int, t0);
    if c[t0] != '-' {
        let j = choose|j: int| t0 <= j < t1 && #[trigger] c[j] == ':';
        crate::model::lemma_find_in(c, ':', l.first as int, l.end as int);
    }
}

/// What the parse makes of a key line whose value is empty.
pub proof fn lemma_key_line(c: Seq<char>, l: Line)
    requires
        l.first <= l.end <= c.len(),
        key_only_line(c, l),
    ensures
        ({
            let (t0, t1) = trim_bounds(c, l.first as int, l.end as int);
            &&& mapping_line(c, l)
            &&& keep_line(c, l)
            &&& !is_doc_marker(c, l)
            &&& find_in(c, ':', t0, t1) == Some(t1 - 1)
            &&& trim_bounds(c, t1, t1) == (t1, t1)
        }),
{
    lemma_trim_bounds(c, l.first as int, l.end as int);
    let (t0, t1) = trim_bounds(c, l.first as int, l.end as int);
    lemma_find_is(c, ':', t0, t1, t1 - 1);
    assert(block_line(c, l)) by {
        assert(c[t1 - 1] == ':');
    }
    lemma_ws_fwd_is(c, l.first as int, l.end as int, t0);
    lemma_block_line_kind(c, l);
    if is_doc_marker(c, l) {
        lemma_marker_dashes(c, l);
    }
}

/// Lines that are all deeper than `ind` and not blank are all nested.
pub proof fn lemma_nested_all(c: Seq<char>, ls: Seq<Line>, k: int, ind: int)
    requires
        0 <= k <= ls.len(),
        forall|m: int|
            k <= m < ls.len() ==> indent(c, #[trigger] ls[m]) > ind && keep_line(c, ls[m]),
    ensures
        nested_end(c, ls, k, ind) == ls.len(),
    decreases ls.len() - k,
{
    if k < ls.len() {
        assert(indent(c, ls[k]) > ind && keep_line(c, ls[k]));
        lemma_nested_all(c, ls, k + 1, ind);
    }
}

/// A text with no separator line is one document, of its kept lines.
pub proof fn lemma_one_document(c: Seq<char>)
    requires
        trim_bounds(c, 0, c.len() as int).0 < trim_bounds(c, 0, c.len() as int).1,
        yaml_lines(c).len() > 0,
        markers(c, yaml_lines(c)) == Seq::<int>::empty(),
        kept_lines(c, yaml_lines(c)).len() > 0,
    ensures
        ({
            let dl = kept_lines(c, yaml_lines(c));
            spec_parse(c) == seq![
                stream_start_utf8(origin()),
                document_start(block_start(c, dl), false),
            ] + content_events(c, dl) + seq![
                document_end(block_end(dl)),
                stream_end(text_end(c, yaml_lines(c))),
            ]
        }),
{
    let ls = yaml_lines(c);
    let ms = Seq::<int>::empty();
    assert(ls.subrange(0, ls.len() as int) =~= ls);
    assert(segment_lines(ls, ms, 0, c) == ls);
    let dl = kept_lines(c, ls);
    assert(document_lines(c, ls, ms, 0) == dl);
    assert(documents_from(c, ls, ms, 1) == Seq::<EventModel>::empty());
    assert(spec_parse(c) == stream_events(c));
    assert(spec_parse(c) =~= seq![
        stream_start_utf8(origin()),
        document_start(block_start(c, dl), false),
    ] + content_events(c, dl) + seq![
        document_end(block_end(dl)),
        stream_end(text_end(c, ls)),
    ]);
}

/// The lines of a text of the shape `block_under_key_is_its_value`
/// speaks of, and of the same text with its key line blanked.
#[verifier::rlimit(40)]
proof fn lemma_key_block_lines(c: Seq<char>, i: int)
    requires
        c.len() <= usize::MAX,
        0 <= i < yaml_lines(c).len(),
        forall|j: int| 0 <= j < yaml_lines(c).len() ==> !dashes_line(c, #[trigger] yaml_lines(c)[j]),
        forall|j: int| 0 <= j < i ==> quiet_line(c, #[trigger] yaml_lines(c)[j]),
        key_only_line(c, yaml_lines(c)[i]),
        forall|j: int|
            i < j < yaml_lines(c).len() && !quiet_line(c, #[trigger] yaml_lines(c)[j]) ==> indent(
                c,
                yaml_lines(c)[j],
            ) > indent(c, yaml_lines(c)[i]),
        exists|j: int|
            i < j < yaml_lines(c).len() && !quiet_line(c, #[trigger] yaml_lines(c)[j]) && block_line(
                c,
                yaml_lines(c)[j],
            ),
    ensures
        ({
            let ls = yaml_lines(c);
            let c2 = blank_line(c, ls[i]);
            let ls2 = yaml_lines(c2);
            let dl = kept_lines(c, ls);
            let dl2 = kept_lines(c2, ls2);
            &&& markers(c, ls) == Seq::<int>::empty()
            &&& markers(c2, ls2) == Seq::<int>::empty()
            &&& ls.len() > 0 && ls2.len() > 0
            &&& dl2 == dl.drop_first()
            &&& dl.len() >= 2
            &&& dl[0] == ls[i]
            &&& agree_all(c, c2, dl2)
            &&& forall|m: int|
                1 <= m < dl.len() ==> indent(c, #[trigger] dl[m]) > indent(c, ls[i]) && keep_line(
                    c,
                    dl[m],
                )
            &&& any_mapping_line(c2, dl2) || any_dash_line(c2, dl2)
            &&& trim_bounds(c, 0, c.len() as int).0 < trim_bounds(c, 0, c.len() as int).1
            &&& trim_bounds(c2, 0, c2.len() as int).0 < trim_bounds(c2, 0, c2.len() as int).1
            &&& ls[i].first <= ls[i].end <= c.len()
            &&& text_end(c2, ls2) == text_end(c, ls)
        }),
{
    let ls = yaml_lines(c);
    let l = ls[i];
    let c2 = blank_line(c, l);
    lemma_blank_lines(c, i);
    lemma_blank_setting(c, i);
    let ls2 = yaml_lines(c2);
    let ind = indent(c, l);
    lemma_key_line(c, l);
    lemma_blanked_quiet(c2, l);
    // every line but `i` reads the same in both texts
    assert forall|j: int| 0 <= j < ls.len() && j != i implies ls2[j] == ls[j] && keep_line(
        c2,
        #[trigger] ls2[j],
    ) == keep_line(c, ls[j]) && is_doc_marker(c2, ls2[j]) == is_doc_marker(c, ls[j]) && (mapping_line(
        c2,
        ls2[j],
    ) || dash_line(c2, ls2[j])) == (mapping_line(c, ls[j]) || dash_line(c, ls[j])) by {
        assert(agree_on(c, c2, ls[j]));
        lemma_frame_line(c, c2, ls[j]);
    }
    // no separators
    assert forall|j: int| 0 <= j < ls.len() implies !is_doc_marker(c, #[trigger] ls[j]) by {
        assert(!dashes_line(c, ls[j]));
        if is_doc_marker(c, ls[j]) {
            lemma_marker_dashes(c, ls[j]);
        }
    }
    lemma_markers_none(c, ls);
    assert forall|j: int| 0 <= j < ls2.len() implies !is_doc_marker(c2, #[trigger] ls2[j]) by {
        if j != i {
            assert(!is_doc_marker(c, ls[j]));
        }
    }
    lemma_markers_none(c2, ls2);
    // the kept lines: line `i` first, then the deeper lines
    assert forall|j: int| 0 <= j < ls.len() implies keep_line(c, #[trigger] ls[j]) == !quiet_line(
        c,
        ls[j],
    ) by {
        lemma_keep_quiet(c, ls[j]);
    }
    lemma_kept_first_dropped(c, ls, c2, ls2, i);
    let dl = kept_lines(c, ls);
    let dl2 = kept_lines(c2, ls2);
    assert forall|j: int| 0 <= j < ls2.len() && keep_line(c2, #[trigger] ls2[j]) implies agree_on(
        c,
        c2,
        ls2[j],
    ) && indent(c, ls2[j]) > ind && keep_line(c, ls2[j]) by {
        if j == i {
        } else if j < i {
            assert(!keep_line(c, ls[j]));
        } else {
            assert(agree_on(c, c2, ls[j]));
        }
    }
    lemma_kept_all(c2, ls2, |x: Line| agree_on(c, c2, x) && indent(c, x) > ind && keep_line(c, x));
    assert(agree_all(c, c2, dl2));
    // one of the deeper lines is a mapping line or an item
    let jb = choose|j: int|
        i < j < ls.len() && !quiet_line(c, #[trigger] ls[j]) && block_line(c, ls[j]);
    lemma_block_line_kind(c, ls[jb]);
    assert(keep_line(c2, ls2[jb]) && (mapping_line(c2, ls2[jb]) || dash_line(c2, ls2[jb])));
    lemma_kept_any(c2, ls2, |x: Line| mapping_line(c2, x) || dash_line(c2, x), jb);
    let mb = choose|m: int|
        0 <= m < dl2.len() && (mapping_line(c2, #[trigger] dl2[m]) || dash_line(c2, dl2[m]));
    assert(any_mapping_line(c2, dl2) || any_dash_line(c2, dl2)) by {
        if mapping_line(c2, dl2[mb]) {
        } else {
        }
    }
    assert forall|m: int| 1 <= m < dl.len() implies indent(c, #[trigger] dl[m]) > ind && keep_line(
        c,
        dl[m],
    ) by {
        assert(dl[m] == dl2[m - 1]);
    }
    // neither text is blank
    let (t0, t1) = trim_bounds(c, l.first as int, l.end as int);
    lemma_trim_bounds(c, l.first as int, l.end as int);
    lemma_not_blank(c, t0);
    let l2 = dl2[0];
    assert(keep_line(c2, l2));
    assert(agree_on(c, c2, l2));
    lemma_trim_bounds(c2, l2.first as int, l2.end as int);
    let u0 = trim_bounds(c2, l2.first as int, l2.end as int).0;
    lemma_not_blank(c2, u0);
    lemma_text_end_blank(c, i);
}

/// The content of the document of such a text: a mapping of the key line
/// `dl[0]`, whose value is the block of the other lines.
#[verifier::rlimit(40)]
proof fn lemma_key_block_content(c: Seq<char>, dl: Seq<Line>)
    requires
        dl.len() >= 2,
        dl[0].first <= dl[0].end <= c.len(),
        key_only_line(c, dl[0]),
        forall|m: int|
            1 <= m < dl.len() ==> indent(c, #[trigger] dl[m]) > indent(c, dl[0]) && keep_line(
                c,
                dl[m],
            ),
        any_mapping_line(c, dl.drop_first()) || any_dash_line(c, dl.drop_first()),
    ensures
        ({
            let (t0, t1) = trim_bounds(c, dl[0].first as int, dl[0].end as int);
            let (kb, ke) = trim_bounds(c, t0, t1 - 1);
            content_events(c, dl) == seq![
                crate::event::mapping_start(block_start(c, dl)),
                key_event(c, dl[0], kb, ke),
            ] + block_events(c, dl.drop_first()) + seq![crate::event::mapping_end(block_end(dl))]
        }),
{
    let l = dl[0];
    let ind = indent(c, l);
    lemma_key_line(c, l);
    lemma_nested_all(c, dl, 1, ind);
    let dl2 = dl.drop_first();
    assert(dl.subrange(1, dl.len() as int) =~= dl2);
    assert(mapping_line(c, dl[0]));
    assert(any_mapping_line(c, dl));
    assert(mapping_from(c, dl, dl.len() as int) == Seq::<EventModel>::empty());
    let (t0, t1) = trim_bounds(c, l.first as int, l.end as int);
    let (kb, ke) = trim_bounds(c, t0, t1 - 1);
    let inner = block_events(c, dl2);
    assert(mapping_from(c, dl, 0) == seq![key_event(c, l, kb, ke)] + inner + Seq::<
        EventModel,
    >::empty());
    assert(content_events(c, dl) =~= seq![
        crate::event::mapping_start(block_start(c, dl)),
        key_event(c, l, kb, ke),
    ] + inner + seq![crate::event::mapping_end(block_end(dl))]);
}

/// The block under a key is the key's value, as it parses on its own:
/// take a text with no "---" line whose first line that is neither blank
/// nor a comment, line `i`, is `key:`, and whose later such lines are all
/// indented deeper than it, one of them holding a ':' or beginning with
/// '-'. Its parse is a mapping of that one key, whose value is the parse
/// of the text with line `i` blanked, events and marks alike: every
/// deeper line belongs to the key's value, none is left to the outer
/// mapping, and the nesting is the same at every depth.
#[verifier::rlimit(40)]
pub proof fn block_under_key_is_its_value(c: Seq<char>, i: int)
    requires
        c.len() <= usize::MAX,
        0 <= i < yaml_lines(c).len(),
        forall|j: int| 0 <= j < yaml_lines(c).len() ==> !dashes_line(c, #[trigger] yaml_lines(c)[j]),
        forall|j: int| 0 <= j < i ==> quiet_line(c, #[trigger] yaml_lines(c)[j]),
        key_only_line(c, yaml_lines(c)[i]),
        forall|j: int|
            i < j < yaml_lines(c).len() && !quiet_line(c, #[trigger] yaml_lines(c)[j]) ==> indent(
                c,
                yaml_lines(c)[j],
            ) > indent(c, yaml_lines(c)[i]),
        exists|j: int|
            i < j < yaml_lines(c).len() && !quiet_line(c, #[trigger] yaml_lines(c)[j]) && block_line(
                c,
                yaml_lines(c)[j],
            ),
    ensures
        ({
            let p = spec_parse(c);
            let q = spec_parse(blank_line(c, yaml_lines(c)[i]));
            &&& q.len() >= 4
            &&& p.len() == q.len() + 3
            &&& p[0] == q[0]
            &&& p[1] is DocumentStart
            &&& p[2] is MappingStart
            &&& p[3] is Scalar
            &&& p.subrange(4, p.len() - 3) == q.subrange(2, q.len() - 2)
            &&& p[p.len() - 3] is MappingEnd
            &&& p.subrange(p.len() - 2, p.len() as int) == q.subrange(q.len() - 2, q.len() as int)
            &&& (q[2] is MappingStart || q[2] is SequenceStart)
        }),
{
    let ls = yaml_lines(c);
    let l = ls[i];
    let c2 = blank_line(c, l);
    let ls2 = yaml_lines(c2);
    lemma_key_block_lines(c, i);
    let dl = kept_lines(c, ls);
    let dl2 = kept_lines(c2, ls2);
    lemma_frame_content(c, c2, dl2);
    lemma_frame_kinds(c, c2, dl2);
    lemma_key_block_content(c, dl);
    lemma_one_document(c);
    lemma_one_document(c2);
    let inner = block_events(c, dl2);
    assert(content_events(c2, dl2) == inner);
    assert(block_end(dl) == block_end(dl2)) by {
        assert(dl.last() == dl2.last());
    }
    let p = spec_parse(c);
    let q = spec_parse(c2);
    assert(inner.len() >= 2);
    assert(inner[0] is MappingStart || inner[0] is SequenceStart);
    assert(p.subrange(4, p.len() - 3) =~= q.subrange(2, q.len() - 2));
    assert(p.subrange(p.len() - 2, p.len() as int) =~= q.subrange(q.len() - 2, q.len() as int));
}
} // verus!
