//! The block under a key, wherever the key stands among the pairs of a
//! mapping: every line indented deeper than the key belongs to its value,
//! which is the parse of those lines on their own.
use crate::block_laws::{
    block_line, dashes_line, key_only_line, lemma_keep_quiet, lemma_key_line, lemma_marker_dashes,
    lemma_nested_all, lemma_one_document, quiet_line,
};
use crate::flat_laws::{colon, lemma_pair_line, trimmed};
use crate::model::{block_start, key_event, mapping_from, value_event};
use crate::blanking::{blanked, lemma_kept_same, lemma_lines_shape, lemma_markers_none};
use crate::event::EventModel;
use crate::flat_laws::{content_lines, key_text, pair_line, value_text};
use crate::line_laws::is_scalar;
use crate::locality::{agree_all, agree_on, lemma_frame_content, lemma_frame_kinds, lemma_frame_line};
use crate::model::{
    any_dash_line, any_mapping_line, block_end, block_events, content_events, dash_line,
    is_doc_marker, keep_line, kept_lines, mapping_line, spec_parse, text_end,
};
use crate::ranges::{lemma_trim_bounds, lemma_ws_back_bounds, lemma_ws_back_is, lemma_ws_back_shift, shifted};
use crate::scalar::{spec_clean, spec_process_value};
use crate::text::{indent, is_ws, next_newline, trim_bounds, yaml_lines, Line};
use vstd::prelude::*;

verus! {

/// `c` with every character before index `e` that is no line feed
/// replaced by a space: the lines before keep their places, blank.
pub open spec fn blank_upto(c: Seq<char>, e: int) -> Seq<char> {
    Seq::new(c.len(), |j: int| if j < e && c[j] != '\n' { ' ' } else { c[j] })
}

/// The lines of `ls`, those up to `i` blanked.
pub open spec fn blanked_upto(ls: Seq<Line>, i: int) -> Seq<Line> {
    Seq::new(ls.len(), |j: int| if j <= i { blanked(ls[j]) } else { ls[j] })
}

proof fn lemma_blank_upto_lines(c: Seq<char>, i: int)
    requires
        c.len() <= usize::MAX,
        0 <= i < yaml_lines(c).len(),
    ensures
        ({
            let ls = yaml_lines(c);
            let c2 = blank_upto(c, ls[i].end as int);
            &&& c2.len() == c.len()
            &&& yaml_lines(c2) == blanked_upto(ls, i)
            &&& forall|j: int|
                #![trigger ls[j]]
                0 <= j < ls.len() ==> ls[j].first == ls[j].start && ls[j].start <= ls[j].end
                    <= c.len()
            &&& forall|j: int| i < j < ls.len() ==> #[trigger] agree_on(c, c2, ls[j])
            &&& forall|p: int| #![trigger c2[p]] 0 <= p < c.len() ==> (c2[p] == '\n') == (c[p] == '\n')
            &&& forall|p: int| #![trigger c2[p]] ls[i].end <= p < c.len() ==> c2[p] == c[p]
        }),
{
    let ls = yaml_lines(c);
    let e = ls[i].end as int;
    let c2 = blank_upto(c, e);
    lemma_lines_shape(c, c, 0, 0);
    assert(crate::blanking::same_breaks(c, c2));
    lemma_lines_shape(c, c2, 0, 0);
    let ls2 = yaml_lines(c2);
    let si = ls[i].start as int;
    let ni = next_newline(c, si);
    lemma_ws_back_bounds(c, si, ni);
    assert forall|j: int| 0 <= j < ls.len() implies ls2[j] == (if j <= i {
        blanked(ls[j])
    } else {
        ls[j]
    }) by {
        let s = ls[j].start as int;
        let nj = next_newline(c, s);
        crate::blanking::lemma_newline_clear(c, s);
        lemma_ws_back_bounds(c, s, nj);
        if j < i {
            assert(nj < si);
            assert forall|p: int| s <= p < nj implies is_ws(#[trigger] c2[p]) by {
                assert(c[p] != '\n');
            }
            lemma_ws_back_is(c2, s, nj, s);
        } else if j == i {
            crate::blanking::lemma_newline_clear(c, si);
            assert forall|p: int| s <= p < nj implies is_ws(#[trigger] c2[p]) by {
                if p >= e {
                    assert(is_ws(c[p]));
                } else {
                    assert(c[p] != '\n');
                }
            }
            lemma_ws_back_is(c2, s, nj, s);
        } else {
            assert(ni < s);
            assert(shifted(c2, 0, c, s, nj));
            lemma_ws_back_shift(c2, 0, c, s, nj);
        }
    }
    assert(ls2 =~= blanked_upto(ls, i));
    assert forall|j: int|
        #![trigger ls[j]]
        0 <= j < ls.len() implies ls[j].first == ls[j].start && ls[j].start <= ls[j].end <= c.len() by {
        lemma_ws_back_bounds(c, ls[j].start as int, next_newline(c, ls[j].start as int));
    }
    assert forall|j: int| i < j < ls.len() implies #[trigger] agree_on(c, c2, ls[j]) by {
        assert(ni < ls[j].start);
        assert(ls[j].first == ls[j].start);
    }
}

proof fn lemma_content_cat(c: Seq<char>, a: Seq<Line>, b: Seq<Line>)
    ensures
        content_lines(c, a + b) == content_lines(c, a) + content_lines(c, b),
    decreases b.len(),
{
    if b.len() == 0 {
        assert(a + b =~= a);
        assert(content_lines(c, a) + Seq::<Line>::empty() =~= content_lines(c, a));
    } else {
        assert((a + b).drop_last() =~= a + b.drop_last());
        assert((a + b).last() == b.last());
        lemma_content_cat(c, a, b.drop_last());
        if !quiet_line(c, b.last()) {
            assert(content_lines(c, a) + content_lines(c, b.drop_last()).push(b.last()) =~= (
            content_lines(c, a) + content_lines(c, b.drop_last())).push(b.last()));
        }
    }
}

proof fn lemma_content_none(c: Seq<char>, s: Seq<Line>)
    requires
        forall|j: int| 0 <= j < s.len() ==> quiet_line(c, #[trigger] s[j]),
    ensures
        content_lines(c, s) == Seq::<Line>::empty(),
    decreases s.len(),
{
    if s.len() > 0 {
        assert(s.last() == s[s.len() - 1]);
        lemma_content_none(c, s.drop_last());
    }
}

proof fn lemma_content_all(c: Seq<char>, s: Seq<Line>, p: spec_fn(Line) -> bool)
    requires
        forall|j: int| 0 <= j < s.len() && !quiet_line(c, #[trigger] s[j]) ==> p(s[j]),
    ensures
        forall|m: int| 0 <= m < content_lines(c, s).len() ==> p(#[trigger] content_lines(c, s)[m])
            && !quiet_line(c, content_lines(c, s)[m]),
    decreases s.len(),
{
    if s.len() > 0 {
        let d = s.drop_last();
        assert forall|j: int| 0 <= j < d.len() && !quiet_line(c, #[trigger] d[j]) implies p(d[j]) by {
            assert(d[j] == s[j]);
        }
        lemma_content_all(c, d, p);
        assert(s.last() == s[s.len() - 1]);
        let kd = content_lines(c, d);
        let k = content_lines(c, s);
        assert forall|m: int| 0 <= m < k.len() implies p(#[trigger] k[m]) && !quiet_line(c, k[m]) by {
            if m < kd.len() {
                assert(k[m] == kd[m]);
            } else {
                assert(k[m] == s.last());
            }
        }
    }
}

proof fn lemma_content_any(c: Seq<char>, s: Seq<Line>, p: spec_fn(Line) -> bool, j: int)
    requires
        0 <= j < s.len(),
        !quiet_line(c, s[j]),
        p(s[j]),
    ensures
        exists|m: int| 0 <= m < content_lines(c, s).len() && p(#[trigger] content_lines(c, s)[m]),
    decreases s.len(),
{
    let d = s.drop_last();
    let k = content_lines(c, s);
    if j < s.len() - 1 {
        assert(d[j] == s[j]);
        lemma_content_any(c, d, p, j);
        let m = choose|m: int| 0 <= m < content_lines(c, d).len() && p(#[trigger] content_lines(c, d)[m]);
        assert(k[m] == content_lines(c, d)[m]);
    } else {
        assert(s.last() == s[j]);
        assert(k[content_lines(c, d).len() as int] == s[j]);
    }
}

/// Lines that read alike are kept alike.
proof fn lemma_content_same(c: Seq<char>, s: Seq<Line>, c2: Seq<char>)
    requires
        agree_all(c, c2, s),
    ensures
        content_lines(c2, s) == content_lines(c, s),
    decreases s.len(),
{
    if s.len() > 0 {
        assert(agree_on(c, c2, s.last()));
        lemma_frame_line(c, c2, s.last());
        lemma_trim_bounds(c, s.last().first as int, s.last().end as int);
        let d = s.drop_last();
        assert forall|k: int| 0 <= k < d.len() implies #[trigger] agree_on(c, c2, d[k]) by {
            assert(d[k] == s[k]);
        }
        lemma_content_same(c, d, c2);
    }
}

/// The events of mapping lines `dl[i..]` whose first ones, up to `k0`, are
/// `key: value` pairs: the pairs' keys and values in turn, then the events
/// of the lines from `k0` on.
proof fn lemma_pairs_then(c: Seq<char>, dl: Seq<Line>, i: int, k0: int)
    requires
        0 <= i <= k0 <= dl.len(),
        forall|m: int|
            0 <= m < k0 ==> (#[trigger] dl[m]).first <= dl[m].end <= c.len() && pair_line(c, dl[m]),
    ensures
        mapping_from(c, dl, i).len() == 2 * (k0 - i) + mapping_from(c, dl, k0).len(),
        mapping_from(c, dl, i).subrange(2 * (k0 - i), mapping_from(c, dl, i).len() as int)
            == mapping_from(c, dl, k0),
        forall|m: int|
            i <= m < k0 ==> is_scalar(
                mapping_from(c, dl, i)[2 * (m - i)],
                spec_clean(key_text(c, #[trigger] dl[m])),
                None,
            ) && is_scalar(
                mapping_from(c, dl, i)[2 * (m - i) + 1],
                spec_process_value(value_text(c, dl[m])).0,
                spec_process_value(value_text(c, dl[m])).1,
            ),
    decreases k0 - i,
{
    let all = mapping_from(c, dl, i);
    if i < k0 {
        lemma_pairs_then(c, dl, i + 1, k0);
        let l = dl[i];
        lemma_pair_line(c, l);
        let (t0, t1) = trimmed(c, l);
        let p = colon(c, l);
        let (kb, ke) = trim_bounds(c, t0, p);
        let (vb, ve) = trim_bounds(c, p + 1, t1);
        let rest = mapping_from(c, dl, i + 1);
        assert(all == seq![key_event(c, l, kb, ke)] + seq![value_event(c, l, vb, ve)] + rest);
        assert(all.subrange(2 * (k0 - i), all.len() as int) =~= rest.subrange(
            2 * (k0 - (i + 1)),
            rest.len() as int,
        ));
        assert forall|m: int| i <= m < k0 implies is_scalar(
            all[2 * (m - i)],
            spec_clean(key_text(c, #[trigger] dl[m])),
            None,
        ) && is_scalar(
            all[2 * (m - i) + 1],
            spec_process_value(value_text(c, dl[m])).0,
            spec_process_value(value_text(c, dl[m])).1,
        ) by {
            if m > i {
                assert(all[2 * (m - i)] == rest[2 * (m - (i + 1))]);
                assert(all[2 * (m - i) + 1] == rest[2 * (m - (i + 1)) + 1]);
            }
        }
    } else {
        assert(all.subrange(0, all.len() as int) =~= all);
    }
}

/// The content of a document of pairs, then a `key:` line, then lines
/// indented deeper: a mapping of the pairs, then of the key whose value is
/// the block of the deeper lines.
proof fn lemma_key_block_content_at(c: Seq<char>, dl: Seq<Line>, k0: int)
    requires
        0 <= k0,
        k0 + 2 <= dl.len(),
        forall|m: int| 0 <= m < dl.len() ==> (#[trigger] dl[m]).first <= dl[m].end <= c.len(),
        forall|m: int| 0 <= m < k0 ==> pair_line(c, #[trigger] dl[m]),
        key_only_line(c, dl[k0]),
        forall|m: int|
            k0 < m < dl.len() ==> indent(c, #[trigger] dl[m]) > indent(c, dl[k0]) && !quiet_line(
                c,
                dl[m],
            ),
        any_mapping_line(c, dl.subrange(k0 + 1, dl.len() as int)) || any_dash_line(
            c,
            dl.subrange(k0 + 1, dl.len() as int),
        ),
    ensures
        ({
            let ce = content_events(c, dl);
            let inner = block_events(c, dl.subrange(k0 + 1, dl.len() as int));
            &&& ce.len() == 2 * k0 + 3 + inner.len()
            &&& ce[0] == crate::event::mapping_start(block_start(c, dl))
            &&& forall|m: int|
                0 <= m < k0 ==> is_scalar(
                    ce[1 + 2 * m],
                    spec_clean(key_text(c, #[trigger] dl[m])),
                    None,
                ) && is_scalar(
                    ce[2 + 2 * m],
                    spec_process_value(value_text(c, dl[m])).0,
                    spec_process_value(value_text(c, dl[m])).1,
                )
            &&& ce[1 + 2 * k0] is Scalar
            &&& ce.subrange(2 + 2 * k0, ce.len() - 1) == inner
            &&& ce[ce.len() - 1] == crate::event::mapping_end(block_end(dl))
        }),
{
    let l = dl[k0];
    let ind = indent(c, l);
    lemma_key_line(c, l);
    assert forall|m: int| k0 + 1 <= m < dl.len() implies indent(c, #[trigger] dl[m]) > ind
        && keep_line(c, dl[m]) by {
        lemma_keep_quiet(c, dl[m]);
    }
    lemma_nested_all(c, dl, k0 + 1, ind);
    let after = dl.subrange(k0 + 1, dl.len() as int);
    assert(mapping_line(c, dl[k0]));
    assert(any_mapping_line(c, dl));
    assert(mapping_from(c, dl, dl.len() as int) == Seq::<EventModel>::empty());
    let (t0, t1) = trim_bounds(c, l.first as int, l.end as int);
    let (kb, ke) = trim_bounds(c, t0, t1 - 1);
    let inner = block_events(c, after);
    assert(mapping_from(c, dl, k0) == seq![key_event(c, l, kb, ke)] + inner + Seq::<
        EventModel,
    >::empty());
    lemma_pairs_then(c, dl, 0, k0);
    let mf = mapping_from(c, dl, 0);
    let ce = content_events(c, dl);
    assert(ce == seq![crate::event::mapping_start(block_start(c, dl))] + mf + seq![
        crate::event::mapping_end(block_end(dl)),
    ]);
    assert(mf.subrange(2 * k0, mf.len() as int) == mapping_from(c, dl, k0));
    assert(mf[2 * k0] == mapping_from(c, dl, k0)[0]);
    assert(ce.subrange(2 + 2 * k0, ce.len() - 1) =~= mf.subrange(2 * k0 + 1, mf.len() as int));
    assert(mf.subrange(2 * k0 + 1, mf.len() as int) =~= mapping_from(c, dl, k0).subrange(
        1,
        mapping_from(c, dl, k0).len() as int,
    ));
    assert(mapping_from(c, dl, k0).subrange(1, mapping_from(c, dl, k0).len() as int) =~= inner);
    assert forall|m: int| 0 <= m < k0 implies is_scalar(
        ce[1 + 2 * m],
        spec_clean(key_text(c, #[trigger] dl[m])),
        None,
    ) && is_scalar(
        ce[2 + 2 * m],
        spec_process_value(value_text(c, dl[m])).0,
        spec_process_value(value_text(c, dl[m])).1,
    ) by {
        assert(ce[1 + 2 * m] == mf[2 * (m - 0)]);
        assert(ce[2 + 2 * m] == mf[2 * (m - 0) + 1]);
    }
}

/// The lines of a text of the shape `block_under_key_after_pairs` speaks
/// of, and of the same text with lines `0..=i` blanked.
#[verifier::rlimit(60)]
proof fn lemma_after_pairs_lines(c: Seq<char>, i: int)
    requires
        c.len() <= usize::MAX,
        0 <= i < yaml_lines(c).len(),
        forall|j: int| 0 <= j < yaml_lines(c).len() ==> !dashes_line(c, #[trigger] yaml_lines(c)[j]),
        forall|j: int|
            0 <= j < i ==> quiet_line(c, #[trigger] yaml_lines(c)[j]) || pair_line(
                c,
                yaml_lines(c)[j],
            ),
        key_only_line(c, yaml_lines(c)[i]),
        forall|j: int|
            i < j < yaml_lines(c).len() && !quiet_line(c, #[trigger] yaml_lines(c)[j]) ==> indent(
                c,
                yaml_lines(c)[j],
            ) > indent(c, yaml_lines(c)[i]),
        exists|j: int|
            i < j < yaml_lines(c).len() && !quiet_line(c, #[trigger] yaml_lines(c)[j]) && block_line(
                c,
                yaml_lines(c)[j],
            ),
    ensures
        ({
            let ls = yaml_lines(c);
            let l = ls[i];
            let c2 = blank_upto(c, l.end as int);
            let ls2 = yaml_lines(c2);
            let before = content_lines(c, ls.subrange(0, i));
            let after = content_lines(c, ls.subrange(i + 1, ls.len() as int));
            let dl = content_lines(c, ls);
            &&& ls.len() > 0 && ls2.len() > 0
            &&& dl == before + seq![l] + after
            &&& content_lines(c2, ls2) == after
            &&& kept_lines(c, ls) == dl
            &&& kept_lines(c2, ls2) == after
            &&& crate::model::markers(c, ls) == Seq::<int>::empty()
            &&& crate::model::markers(c2, ls2) == Seq::<int>::empty()
            &&& l.first <= l.end <= c.len()
            &&& key_only_line(c, l)
            &&& forall|m: int|
                0 <= m < before.len() ==> (#[trigger] before[m]).first <= before[m].end <= c.len()
                    && pair_line(c, before[m])
            &&& forall|m: int|
                0 <= m < after.len() ==> agree_on(c, c2, #[trigger] after[m]) && indent(c, after[m])
                    > indent(c, l) && !quiet_line(c, after[m])
            &&& after.len() > 0
            &&& any_mapping_line(c, after) || any_dash_line(c, after)
            &&& trim_bounds(c, 0, c.len() as int).0 < trim_bounds(c, 0, c.len() as int).1
            &&& trim_bounds(c2, 0, c2.len() as int).0 < trim_bounds(c2, 0, c2.len() as int).1
            &&& text_end(c2, ls2) == text_end(c, ls)
            &&& dl.subrange(before.len() + 1int, dl.len() as int) == after
            &&& dl[before.len() as int] == l
            &&& forall|m: int| 0 <= m < before.len() ==> dl[m] == before[m]
            &&& forall|m: int|
                0 <= m < dl.len() ==> (#[trigger] dl[m]).first <= dl[m].end <= c.len() && (m
                    < before.len() ==> pair_line(c, dl[m])) && (before.len() < m ==> indent(
                    c,
                    dl[m],
                ) > indent(c, dl[before.len() as int]) && !quiet_line(c, dl[m]))
        }),
{
    let ls = yaml_lines(c);
    let l = ls[i];
    let e = l.end as int;
    let c2 = blank_upto(c, e);
    lemma_blank_upto_lines(c, i);
    let ls2 = yaml_lines(c2);
    let n = ls.len() as int;
    let ind = indent(c, l);
    // the three parts of the lines
    let pre = ls.subrange(0, i);
    let post = ls.subrange(i + 1, n);
    assert(ls =~= pre + seq![l] + post);
    assert(ls2 =~= ls2.subrange(0, i + 1) + post);
    assert forall|j: int| 0 <= j < i + 1 implies quiet_line(c2, #[trigger] ls2.subrange(0, i + 1)[j]) by {
        assert(ls2.subrange(0, i + 1)[j] == blanked(ls[j]));
        lemma_trim_bounds(c2, ls[j].start as int, ls[j].start as int);
    }
    lemma_content_none(c2, ls2.subrange(0, i + 1));
    assert forall|k: int| 0 <= k < post.len() implies #[trigger] agree_on(c, c2, post[k]) by {
        assert(post[k] == ls[i + 1 + k]);
    }
    lemma_content_same(c, post, c2);
    lemma_content_cat(c2, ls2.subrange(0, i + 1), post);
    let after = content_lines(c, post);
    assert(content_lines(c2, ls2) == after);
    lemma_content_cat(c, pre + seq![l], post);
    lemma_content_cat(c, pre, seq![l]);
    crate::block_laws::lemma_key_line(c, l);
    lemma_trim_bounds(c, l.first as int, l.end as int);
    assert(!quiet_line(c, l));
    assert(content_lines(c, seq![l]) == seq![l]) by {
        assert(seq![l].drop_last() =~= Seq::<Line>::empty());
        assert(seq![l].last() == l);
        reveal_with_fuel(content_lines, 2);
        assert(content_lines(c, seq![l]) =~= seq![l]);
    }
    let before = content_lines(c, pre);
    let dl = content_lines(c, ls);
    assert(dl == before + seq![l] + after);
    let k0 = before.len() as int;
    // the lines before: pairs
    assert forall|j: int| 0 <= j < pre.len() && !quiet_line(c, #[trigger] pre[j]) implies (
    pre[j].first <= pre[j].end <= c.len() && pair_line(c, pre[j])) by {
        assert(pre[j] == ls[j]);
    }
    lemma_content_all(c, pre, |x: Line| x.first <= x.end <= c.len() && pair_line(c, x));
    // the lines after: deeper, kept, agreeing
    assert forall|j: int| 0 <= j < post.len() && !quiet_line(c, #[trigger] post[j]) implies (
    agree_on(c, c2, post[j]) && indent(c, post[j]) > ind && post[j].first <= post[j].end) by {
        assert(post[j] == ls[i + 1 + j]);
    }
    lemma_content_all(c, post, |x: Line| agree_on(c, c2, x) && indent(c, x) > ind && x.first <= x.end);
    assert(agree_all(c, c2, after));
    // one of them a mapping line or an item
    let jb = choose|j: int| i < j < n && !quiet_line(c, #[trigger] ls[j]) && block_line(c, ls[j]);
    crate::block_laws::lemma_block_line_kind(c, ls[jb]);
    assert(post[jb - i - 1] == ls[jb]);
    lemma_content_any(c, post, |x: Line| mapping_line(c, x) || dash_line(c, x), jb - i - 1);
    let mb = choose|m: int|
        0 <= m < after.len() && (mapping_line(c, #[trigger] after[m]) || dash_line(c, after[m]));
    assert(any_mapping_line(c, after) || any_dash_line(c, after)) by {
        if mapping_line(c, after[mb]) {
        } else {
        }
    }
    lemma_frame_content(c, c2, after);
    lemma_frame_kinds(c, c2, after);
    // both texts are one document
    assert forall|j: int| 0 <= j < n implies !is_doc_marker(c, #[trigger] ls[j]) by {
        if is_doc_marker(c, ls[j]) {
            lemma_marker_dashes(c, ls[j]);
        }
    }
    assert forall|j: int| 0 <= j < n implies !is_doc_marker(c2, #[trigger] ls2[j]) by {
        if j <= i {
            assert(ls2[j] == blanked(ls[j]));
            assert(c2.subrange(ls[j].start as int, ls[j].start as int) =~= Seq::<char>::empty());
        } else {
            assert(agree_on(c, c2, ls[j]));
            lemma_frame_line(c, c2, ls[j]);
        }
    }
    lemma_markers_none(c, ls);
    lemma_markers_none(c2, ls2);
    crate::flat_laws::lemma_kept_content(c, ls);
    assert forall|j: int| 0 <= j < n implies (#[trigger] ls2[j]).first <= ls2[j].end by {}
    crate::flat_laws::lemma_kept_content(c2, ls2);
    // neither is blank
    let t0 = trim_bounds(c, l.first as int, l.end as int).0;
    crate::block_laws::lemma_not_blank(c, t0);
    let la = after[0];
    lemma_trim_bounds(c2, la.first as int, la.end as int);
    assert(agree_on(c, c2, la));
    lemma_frame_line(c, c2, la);
    crate::block_laws::lemma_not_blank(c2, trim_bounds(c2, la.first as int, la.end as int).0);
    // the end of the text
    assert(text_end(c2, ls2) == text_end(c, ls)) by {
        let m = c.len() as int;
        assert(c2[m - 1] == '\n' <==> c[m - 1] == '\n');
        assert(ls2.last() == ls2[n - 1]);
    }
    let k0 = before.len() as int;
    assert(dl.subrange(k0 + 1, dl.len() as int) =~= after);
    assert forall|m: int| 0 <= m < dl.len() implies (#[trigger] dl[m]).first <= dl[m].end <= c.len()
        && (m < k0 ==> pair_line(c, dl[m])) && (k0 < m ==> indent(c, dl[m]) > indent(c, dl[k0])
        && !quiet_line(c, dl[m])) by {
        if m < k0 {
            assert(dl[m] == before[m]);
        } else if m == k0 {
            assert(dl[m] == l);
        } else {
            assert(dl[m] == after[m - k0 - 1]);
            assert(agree_on(c, c2, after[m - k0 - 1]));
        }
    }
}

/// The block under a key, after pairs: take a text with no "---" line
/// whose lines before line `i` are all blank, comments or `key: value`
/// pairs, whose line `i` is `key:`, and whose later lines that are
/// neither blank nor comments are all indented deeper than line `i`, one
/// of them holding a ':' or beginning with '-'. Its parse is a mapping of
/// the pairs before line `i` in turn, each key with the whole of its
/// value, then of line `i`'s key, whose value is the parse of the deeper
/// lines on their own (the text with lines `0..=i` blanked), events and
/// marks alike. No deeper line is left to the outer mapping, wherever the
/// key stands.
#[verifier::rlimit(60)]
pub proof fn block_under_key_after_pairs(c: Seq<char>, i: int)
    requires
        c.len() <= usize::MAX,
        0 <= i < yaml_lines(c).len(),
        forall|j: int| 0 <= j < yaml_lines(c).len() ==> !dashes_line(c, #[trigger] yaml_lines(c)[j]),
        forall|j: int|
            0 <= j < i ==> quiet_line(c, #[trigger] yaml_lines(c)[j]) || pair_line(
                c,
                yaml_lines(c)[j],
            ),
        key_only_line(c, yaml_lines(c)[i]),
        forall|j: int|
            i < j < yaml_lines(c).len() && !quiet_line(c, #[trigger] yaml_lines(c)[j]) ==> indent(
                c,
                yaml_lines(c)[j],
            ) > indent(c, yaml_lines(c)[i]),
        exists|j: int|
            i < j < yaml_lines(c).len() && !quiet_line(c, #[trigger] yaml_lines(c)[j]) && block_line(
                c,
                yaml_lines(c)[j],
            ),
    ensures
        ({
            let ls = yaml_lines(c);
            let before = content_lines(c, ls.subrange(0, i));
            let k0 = before.len() as int;
            let p = spec_parse(c);
            let q = spec_parse(blank_upto(c, ls[i].end as int));
            &&& q.len() >= 4
            &&& p.len() == q.len() + 3 + 2 * k0
            &&& p[0] == q[0]
            &&& p[1] is DocumentStart
            &&& p[2] is MappingStart
            &&& forall|m: int|
                0 <= m < k0 ==> is_scalar(
                    p[3 + 2 * m],
                    spec_clean(key_text(c, #[trigger] before[m])),
                    None,
                ) && is_scalar(
                    p[4 + 2 * m],
                    spec_process_value(value_text(c, before[m])).0,
                    spec_process_value(value_text(c, before[m])).1,
                )
            &&& p[3 + 2 * k0] is Scalar
            &&& p.subrange(4 + 2 * k0, p.len() - 3) == q.subrange(2, q.len() - 2)
            &&& p[p.len() - 3] is MappingEnd
            &&& p.subrange(p.len() - 2, p.len() as int) == q.subrange(q.len() - 2, q.len() as int)
            &&& (q[2] is MappingStart || q[2] is SequenceStart)
        }),
{
    let ls = yaml_lines(c);
    let l = ls[i];
    let c2 = blank_upto(c, l.end as int);
    let ls2 = yaml_lines(c2);
    lemma_after_pairs_lines(c, i);
    let before = content_lines(c, ls.subrange(0, i));
    let after = content_lines(c, ls.subrange(i + 1, ls.len() as int));
    let dl = content_lines(c, ls);
    let k0 = before.len() as int;
    assert(agree_all(c, c2, after));
    lemma_frame_content(c, c2, after);
    lemma_frame_kinds(c, c2, after);
    lemma_one_document(c);
    lemma_one_document(c2);
    // the content of `c`
    lemma_key_block_content_at(c, dl, k0);
    let inner = block_events(c, after);
    assert(content_events(c2, after) == inner);
    assert(block_end(dl) == block_end(after)) by {
        assert(dl.last() == after.last());
    }
    let p = spec_parse(c);
    let q = spec_parse(c2);
    assert(inner.len() >= 2);
    assert(inner[0] is MappingStart || inner[0] is SequenceStart);
    assert forall|m: int| 0 <= m < k0 implies is_scalar(
        p[3 + 2 * m],
        spec_clean(key_text(c, #[trigger] before[m])),
        None,
    ) && is_scalar(
        p[4 + 2 * m],
        spec_process_value(value_text(c, before[m])).0,
        spec_process_value(value_text(c, before[m])).1,
    ) by {
        assert(dl[m] == before[m]);
    }
    assert(p.subrange(4 + 2 * k0, p.len() - 3) =~= q.subrange(2, q.len() - 2));
    assert(p.subrange(p.len() - 2, p.len() as int) =~= q.subrange(q.len() - 2, q.len() as int));
}

} // verus!
