//! Lines of a text, and what becomes of them when one line's text is
//! overwritten with spaces: the lines keep their places, and only that
//! line's text changes.
use crate::locality::agree_on;
use crate::model::{is_doc_marker, keep_line, kept_lines, markers};
use crate::ranges::{lemma_ws_back_bounds, lemma_ws_back_is, lemma_ws_back_shift, shifted};
use crate::text::{is_ws, lines_from, next_newline, ws_back, yaml_lines, Line};
use vstd::prelude::*;

verus! {

/// `c` with the characters at `a..b` replaced by spaces.
pub open spec fn blank_range(c: Seq<char>, a: int, b: int) -> Seq<char> {
    Seq::new(c.len(), |j: int| if a <= j < b { ' ' } else { c[j] })
}

/// `c` with the text of line `l` replaced by spaces.
pub open spec fn blank_line(c: Seq<char>, l: Line) -> Seq<char> {
    blank_range(c, l.start as int, l.end as int)
}

/// Line `l` once its text is blank.
pub open spec fn blanked(l: Line) -> Line {
    Line { start: l.start, first: l.start, end: l.start, number: l.number }
}

/// `c` and `c2` have their line feeds at the same places.
pub open spec fn same_breaks(c: Seq<char>, c2: Seq<char>) -> bool {
    &&& c.len() == c2.len()
    &&& forall|j: int| 0 <= j < c.len() ==> (#[trigger] c[j] == '\n') == (c2[j] == '\n')
}

proof fn lemma_newline_same(c: Seq<char>, c2: Seq<char>, k: int)
    requires
        same_breaks(c, c2),
        0 <= k,
    ensures
        next_newline(c2, k) == next_newline(c, k),
    decreases c.len() - k,
{
    if 0 <= k < c.len() {
        assert((c[k] == '\n') == (c2[k] == '\n'));
        if c[k] != '\n' {
            lemma_newline_same(c, c2, k + 1);
        }
    }
}

pub proof fn lemma_newline_clear(c: Seq<char>, k: int)
    requires
        0 <= k <= c.len(),
    ensures
        k <= next_newline(c, k) <= c.len(),
        forall|j: int| k <= j < next_newline(c, k) ==> #[trigger] c[j] != '\n',
    decreases c.len() - k,
{
    if k < c.len() && c[k] != '\n' {
        lemma_newline_clear(c, k + 1);
    }
}

/// Each line starts where the one before ends, at a line feed, and its
/// text is cut there with its trailing whitespace dropped.
#[verifier::rlimit(40)]
pub proof fn lemma_lines_shape(c: Seq<char>, c2: Seq<char>, k: int, n: int)
    requires
        same_breaks(c, c2),
        0 <= k,
        c.len() <= usize::MAX,
    ensures
        lines_from(c2, k, n).len() == lines_from(c, k, n).len(),
        forall|j: int|
            0 <= j < lines_from(c, k, n).len() ==> {
                let l = #[trigger] lines_from(c, k, n)[j];
                let l2 = lines_from(c2, k, n)[j];
                let s = l.start as int;
                let e = next_newline(c, s);
                &&& k <= s < c.len()
                &&& s <= e <= c.len()
                &&& l.first == l.start
                &&& l2.start == l.start
                &&& l2.first == l.start
                &&& l2.number == l.number
                &&& l.end as int == ws_back(c, s, e)
                &&& l2.end as int == ws_back(c2, s, e)
            },
        forall|j1: int, j2: int|
            #![trigger lines_from(c, k, n)[j1], lines_from(c, k, n)[j2]]
            0 <= j1 < j2 < lines_from(c, k, n).len() ==> next_newline(
                c,
                lines_from(c, k, n)[j1].start as int,
            ) < lines_from(c, k, n)[j2].start,
    decreases c.len() - k,
{
    if 0 <= k < c.len() {
        lemma_newline_same(c, c2, k);
        lemma_newline_clear(c, k);
        let e = next_newline(c, k);
        lemma_ws_back_bounds(c, k, e);
        lemma_ws_back_bounds(c2, k, e);
        let ls = lines_from(c, k, n);
        let ls2 = lines_from(c2, k, n);
        if e < c.len() {
            lemma_lines_shape(c, c2, e + 1, n + 1);
            let rest = lines_from(c, e + 1, n + 1);
            let rest2 = lines_from(c2, e + 1, n + 1);
            assert(ls.len() == rest.len() + 1);
            assert forall|j: int| 0 < j < ls.len() implies ls[j] == rest[j - 1] && ls2[j] == rest2[
                j - 1
            ] by {}
            assert forall|j: int| 0 <= j < ls.len() implies {
                let l = #[trigger] ls[j];
                let l2 = ls2[j];
                let s = l.start as int;
                let e = next_newline(c, s);
                &&& k <= s < c.len()
                &&& s <= e <= c.len()
                &&& l.first == l.start
                &&& l2.start == l.start
                &&& l2.first == l.start
                &&& l2.number == l.number
                &&& l.end as int == ws_back(c, s, e)
                &&& l2.end as int == ws_back(c2, s, e)
            } by {
                if j > 0 {
                    assert(ls[j] == rest[j - 1]);
                    assert(ls2[j] == rest2[j - 1]);
                }
            }
            assert forall|j1: int, j2: int|
                #![trigger ls[j1], ls[j2]]
                0 <= j1 < j2 < ls.len() implies next_newline(c, ls[j1].start as int)
                    < ls[j2].start by {
                assert(ls[j2] == rest[j2 - 1]);
                if j1 > 0 {
                    assert(ls[j1] == rest[j1 - 1]);
                }
            }
        }
    }
}

proof fn lemma_blank_same_breaks(c: Seq<char>, a: int, b: int)
    requires
        0 <= a <= b <= c.len(),
        forall|j: int| a <= j < b ==> #[trigger] c[j] != '\n',
    ensures
        same_breaks(c, blank_range(c, a, b)),
{
    let c2 = blank_range(c, a, b);
    assert forall|j: int| 0 <= j < c.len() implies (#[trigger] c[j] == '\n') == (c2[j] == '\n') by {
        if a <= j < b {
            assert(c[j] != '\n');
        }
    }
}

/// Blanking the text of line `i` leaves every line in its place and every
/// other line's text as it was.
#[verifier::rlimit(40)]
pub proof fn lemma_blank_lines(c: Seq<char>, i: int)
    requires
        c.len() <= usize::MAX,
        0 <= i < yaml_lines(c).len(),
    ensures
        ({
            let ls = yaml_lines(c);
            let c2 = blank_line(c, ls[i]);
            &&& c2.len() == c.len()
            &&& yaml_lines(c2) == ls.update(i, blanked(ls[i]))
            &&& ls[i].first == ls[i].start
            &&& ls[i].start <= ls[i].end <= c.len()
            &&& forall|p: int| #![trigger c2[p]] ls[i].start <= p < ls[i].end ==> c2[p] == ' '
            &&& forall|p: int| #![trigger c2[p]] ls[i].start <= p < ls[i].end ==> c[p] != '\n'
            &&& forall|p: int|
                #![trigger c2[p]]
                0 <= p < c.len() && !(ls[i].start <= p < ls[i].end) ==> c2[p] == c[p]
            &&& forall|j: int|
                #![trigger ls[j]]
                0 <= j < ls.len() ==> ls[j].first == ls[j].start && ls[j].start <= ls[j].end
                    <= c.len()
            &&& forall|j: int|
                #![trigger ls[j]]
                0 <= j < ls.len() && j != i ==> forall|p: int|
                    #![trigger c2[p]]
                    ls[j].start <= p < ls[j].end ==> c2[p] == c[p]
        }),
{
    let ls = yaml_lines(c);
    let l = ls[i];
    let a = l.start as int;
    let b = l.end as int;
    let c2 = blank_line(c, l);
    lemma_lines_shape(c, c, 0, 0);
    let ea = next_newline(c, a);
    lemma_newline_clear(c, a);
    lemma_ws_back_bounds(c, a, ea);
    assert(b <= ea);
    lemma_blank_same_breaks(c, a, b);
    lemma_lines_shape(c, c2, 0, 0);
    let ls2 = yaml_lines(c2);
    assert forall|j: int| 0 <= j < ls.len() && j != i implies ls2[j] == ls[j] && forall|p: int|
        ls[j].start <= p < ls[j].end ==> c2[p] == c[p] by {
        let s = ls[j].start as int;
        let e = next_newline(c, s);
        assert(ls[j] == ls[j]);
        lemma_newline_clear(c, s);
        if j < i {
            assert(e < ls[i].start);
        } else {
            assert(ea < ls[j].start);
        }
        assert(shifted(c2, 0, c, s, e));
        lemma_ws_back_shift(c2, 0, c, s, e);
        lemma_ws_back_bounds(c, s, e);
    }
    assert(ls2[i] == blanked(l)) by {
        assert forall|p: int| a <= p < ea implies is_ws(#[trigger] c2[p]) by {
            if p >= b {
                assert(is_ws(c[p]));
            }
        }
        lemma_ws_back_is(c2, a, ea, a);
    }
    assert(ls2 =~= ls.update(i, blanked(l)));
    assert(c2.len() == c.len());
    assert(l.first == l.start);
    assert(l.start <= l.end <= c.len());
    assert(forall|p: int| #![trigger c2[p]] a <= p < b ==> c2[p] == ' ');
    assert(forall|p: int| #![trigger c2[p]] a <= p < b ==> c[p] != '\n');
    assert(forall|p: int|
        #![trigger c2[p]]
        0 <= p < c.len() && !(a <= p < b) ==> c2[p] == c[p]);
    assert forall|j: int|
        #![trigger ls[j]]
        0 <= j < ls.len() implies ls[j].first == ls[j].start && ls[j].start <= ls[j].end <= c.len() by {
        lemma_ws_back_bounds(c, ls[j].start as int, next_newline(c, ls[j].start as int));
    }
}

/// The separator lines are found alike when the lines are alike.
pub proof fn lemma_markers_same(c: Seq<char>, ls: Seq<Line>, c2: Seq<char>, ls2: Seq<Line>)
    requires
        ls.len() == ls2.len(),
        forall|j: int| 0 <= j < ls.len() ==> is_doc_marker(c, #[trigger] ls[j]) == is_doc_marker(c2, ls2[j]),
    ensures
        markers(c, ls) == markers(c2, ls2),
    decreases ls.len(),
{
    if ls.len() > 0 {
        assert(ls.last() == ls[ls.len() - 1]);
        assert(is_doc_marker(c, ls[ls.len() - 1]) == is_doc_marker(c2, ls2[ls.len() - 1]));
        lemma_markers_same(c, ls.drop_last(), c2, ls2.drop_last());
    }
}

/// Every separator index is the index of a separator line.
pub proof fn lemma_markers_are(c: Seq<char>, ls: Seq<Line>)
    ensures
        forall|m: int|
            0 <= m < markers(c, ls).len() ==> 0 <= #[trigger] markers(c, ls)[m] < ls.len()
                && is_doc_marker(c, ls[markers(c, ls)[m]]),
    decreases ls.len(),
{
    if ls.len() > 0 {
        lemma_markers_are(c, ls.drop_last());
        let prev = markers(c, ls.drop_last());
        assert forall|m: int| 0 <= m < prev.len() implies ls.drop_last()[prev[m]] == ls[prev[m]] by {}
    }
}

/// No separator line, no separators.
pub proof fn lemma_markers_none(c: Seq<char>, ls: Seq<Line>)
    requires
        forall|j: int| 0 <= j < ls.len() ==> !is_doc_marker(c, #[trigger] ls[j]),
    ensures
        markers(c, ls) == Seq::<int>::empty(),
    decreases ls.len(),
{
    if ls.len() > 0 {
        assert(ls.last() == ls[ls.len() - 1]);
        lemma_markers_none(c, ls.drop_last());
    }
}

/// The kept lines are alike when the lines that are kept are alike.
pub proof fn lemma_kept_same(c: Seq<char>, s: Seq<Line>, c2: Seq<char>, s2: Seq<Line>)
    requires
        s.len() == s2.len(),
        forall|j: int|
            0 <= j < s.len() ==> keep_line(c2, #[trigger] s2[j]) == keep_line(c, s[j]) && (keep_line(
                c,
                s[j],
            ) ==> s2[j] == s[j]),
    ensures
        kept_lines(c2, s2) == kept_lines(c, s),
    decreases s.len(),
{
    if s.len() > 0 {
        assert(s2.last() == s2[s.len() - 1]);
        lemma_kept_same(c, s.drop_last(), c2, s2.drop_last());
    }
}

/// Each kept line is a line that is kept: what holds of every line that
/// is kept holds of every kept line.
pub proof fn lemma_kept_all(c: Seq<char>, s: Seq<Line>, p: spec_fn(Line) -> bool)
    requires
        forall|j: int| 0 <= j < s.len() && keep_line(c, #[trigger] s[j]) ==> p(s[j]),
    ensures
        forall|m: int|
            0 <= m < kept_lines(c, s).len() ==> p(#[trigger] kept_lines(c, s)[m]) && keep_line(
                c,
                kept_lines(c, s)[m],
            ),
    decreases s.len(),
{
    if s.len() > 0 {
        let d = s.drop_last();
        assert forall|j: int| 0 <= j < d.len() && keep_line(c, #[trigger] d[j]) implies p(d[j]) by {
            assert(d[j] == s[j]);
        }
        lemma_kept_all(c, d, p);
        assert(s.last() == s[s.len() - 1]);
        let kd = kept_lines(c, d);
        let k = kept_lines(c, s);
        assert forall|m: int| 0 <= m < k.len() implies p(#[trigger] k[m]) && keep_line(c, k[m]) by {
            if m < kd.len() {
                assert(k[m] == kd[m]);
            } else {
                assert(k[m] == s.last());
            }
        }
    }
}

/// Each line that is kept is among the kept lines: when some line that is
/// kept has a property, some kept line has it.
pub proof fn lemma_kept_any(c: Seq<char>, s: Seq<Line>, p: spec_fn(Line) -> bool, j: int)
    requires
        0 <= j < s.len(),
        keep_line(c, s[j]),
        p(s[j]),
    ensures
        exists|m: int| 0 <= m < kept_lines(c, s).len() && p(#[trigger] kept_lines(c, s)[m]),
    decreases s.len(),
{
    let d = s.drop_last();
    let k = kept_lines(c, s);
    if j < s.len() - 1 {
        assert(d[j] == s[j]);
        lemma_kept_any(c, d, p, j);
        let m = choose|m: int| 0 <= m < kept_lines(c, d).len() && p(#[trigger] kept_lines(c, d)[m]);
        assert(k[m] == kept_lines(c, d)[m]);
    } else {
        assert(s.last() == s[j]);
        assert(k[kept_lines(c, d).len() as int] == s[j]);
    }
}

/// No line is kept, no kept lines.
pub proof fn lemma_kept_none(c: Seq<char>, s: Seq<Line>)
    requires
        forall|j: int| 0 <= j < s.len() ==> !keep_line(c, #[trigger] s[j]),
    ensures
        kept_lines(c, s) == Seq::<Line>::empty(),
    decreases s.len(),
{
    if s.len() > 0 {
        assert(s.last() == s[s.len() - 1]);
        lemma_kept_none(c, s.drop_last());
    }
}

/// When the first kept line `s[i]` is no longer kept in `s2`, and the
/// other lines are kept alike, the kept lines lose their first one.
#[verifier::rlimit(40)]
pub proof fn lemma_kept_first_dropped(c: Seq<char>, s: Seq<Line>, c2: Seq<char>, s2: Seq<Line>, i: int)
    requires
        s.len() == s2.len(),
        0 <= i < s.len(),
        forall|j: int| 0 <= j < i ==> !keep_line(c, #[trigger] s[j]) && !keep_line(c2, s2[j]),
        keep_line(c, s[i]),
        !keep_line(c2, s2[i]),
        forall|j: int|
            i < j < s.len() ==> keep_line(c2, #[trigger] s2[j]) == keep_line(c, s[j]) && (keep_line(
                c,
                s[j],
            ) ==> s2[j] == s[j]),
    ensures
        kept_lines(c, s).len() > 0,
        kept_lines(c, s)[0] == s[i],
        kept_lines(c2, s2) == kept_lines(c, s).drop_first(),
    decreases s.len(),
{
    let d = s.drop_last();
    let d2 = s2.drop_last();
    assert(s.last() == s[s.len() - 1]);
    assert(s2.last() == s2[s.len() - 1]);
    assert forall|j: int| 0 <= j < d.len() implies d[j] == s[j] && d2[j] == s2[j] by {}
    if s.len() - 1 == i {
        lemma_kept_none(c, d);
        lemma_kept_none(c2, d2);
        assert(kept_lines(c, s) =~= seq![s[i]]);
        assert(kept_lines(c2, s2) =~= Seq::<Line>::empty());
        assert(seq![s[i]].drop_first() =~= Seq::<Line>::empty());
    } else {
        lemma_kept_first_dropped(c, d, c2, d2, i);
        let kd = kept_lines(c, d);
        if keep_line(c, s.last()) {
            assert(kept_lines(c, s) == kd.push(s.last()));
            assert(kept_lines(c2, s2) == kept_lines(c2, d2).push(s2.last()));
            assert(kd.push(s.last()).drop_first() =~= kd.drop_first().push(s.last()));
        }
    }
}

} // verus!
