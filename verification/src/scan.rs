//! The scanner: one left-to-right pass that partitions a character sequence
//! into an ordered, gapless sequence of segments. A triple delimiter is tried
//! before a one-character delimiter at every position, escape pairs inside
//! one-character literals are consumed before the closing delimiter is
//! compared, and an open literal at end of input is reported unclosed rather
//! than failing.

use vstd::prelude::*;

use crate::segment::QuoteStyle;
use crate::segment::SegModel;
use crate::segment::Segment;
use crate::segment::escape_marker;
use crate::segment::is_quote_char;
use crate::segment::seg_span;
use crate::segment::seg_views;
use crate::segment::single_style_of;
use crate::segment::triple_style_of;

verus! {

/// The first position at or after `i` where three consecutive `q` stand.
pub open spec fn find_triple_from(t: Seq<char>, q: char, i: int) -> Option<int>
    decreases t.len() - i,
{
    if i >= t.len() {
        None
    } else if i + 3 <= t.len() && t[i] == q && t[i + 1] == q && t[i + 2] == q {
        Some(i)
    } else {
        find_triple_from(t, q, i + 1)
    }
}

/// Where a one-character literal opened with `q` closes, scanning from `i`.
/// An escape marker with a character after it is skipped as one unit before
/// any comparison with the closing delimiter.
pub open spec fn find_close_from(t: Seq<char>, q: char, i: int) -> Option<int>
    decreases t.len() - i,
{
    if i >= t.len() {
        None
    } else if t[i] == escape_marker() && i + 1 < t.len() {
        find_close_from(t, q, i + 2)
    } else if t[i] == q {
        Some(i)
    } else {
        find_close_from(t, q, i + 1)
    }
}

/// The end of the plain run starting at `i`: the first position that opens a
/// literal or starts an escape pair. A lone escape marker at the very end of
/// the input escapes nothing and belongs to the plain run.
pub open spec fn plain_end_from(t: Seq<char>, i: int) -> int
    decreases t.len() - i,
{
    if i >= t.len() {
        i
    } else if is_quote_char(t[i]) {
        i
    } else if t[i] == escape_marker() {
        if i + 1 < t.len() {
            i
        } else {
            i + 1
        }
    } else {
        plain_end_from(t, i + 1)
    }
}

pub proof fn lemma_find_triple_from_bounds(t: Seq<char>, q: char, i: int)
    ensures
        find_triple_from(t, q, i) matches Some(j) ==> i <= j && j + 3 <= t.len() && t[j] == q
            && t[j + 1] == q && t[j + 2] == q,
    decreases t.len() - i,
{
    if i >= t.len() {
    } else if i + 3 <= t.len() && t[i] == q && t[i + 1] == q && t[i + 2] == q {
    } else {
        lemma_find_triple_from_bounds(t, q, i + 1);
    }
}

pub proof fn lemma_find_close_from_bounds(t: Seq<char>, q: char, i: int)
    ensures
        find_close_from(t, q, i) matches Some(j) ==> i <= j && j < t.len() && t[j] == q,
    decreases t.len() - i,
{
    if i >= t.len() {
    } else if t[i] == escape_marker() && i + 1 < t.len() {
        lemma_find_close_from_bounds(t, q, i + 2);
    } else if t[i] == q {
    } else {
        lemma_find_close_from_bounds(t, q, i + 1);
    }
}

pub proof fn lemma_plain_end_from_bounds(t: Seq<char>, i: int)
    requires
        0 <= i <= t.len(),
    ensures
        i <= plain_end_from(t, i) <= t.len(),
        i < t.len() && !is_quote_char(t[i]) && !(t[i] == escape_marker() && i + 1 < t.len())
            ==> i < plain_end_from(t, i),
    decreases t.len() - i,
{
    if i >= t.len() {
    } else if is_quote_char(t[i]) {
    } else if t[i] == escape_marker() {
    } else {
        lemma_plain_end_from_bounds(t, i + 1);
    }
}

/// The scanner's result from position `i` to the end of the input.
pub open spec fn scan_from(t: Seq<char>, i: int) -> Seq<SegModel>
    decreases t.len() - i,
    via scan_from_decreases
{
    if i < 0 || i >= t.len() {
        Seq::empty()
    } else if is_quote_char(t[i]) && i + 2 < t.len() && t[i + 1] == t[i] && t[i + 2] == t[i] {
        let q = t[i];
        match find_triple_from(t, q, i + 3) {
            Some(j) => seq![
                SegModel::Literal {
                    style: triple_style_of(q),
                    content: t.subrange(i + 3, j),
                    closed: true,
                },
            ] + scan_from(t, j + 3),
            None => seq![
                SegModel::Literal {
                    style: triple_style_of(q),
                    content: t.subrange(i + 3, t.len() as int),
                    closed: false,
                },
            ],
        }
    } else if is_quote_char(t[i]) {
        let q = t[i];
        match find_close_from(t, q, i + 1) {
            Some(j) => seq![
                SegModel::Literal {
                    style: single_style_of(q),
                    content: t.subrange(i + 1, j),
                    closed: true,
                },
            ] + scan_from(t, j + 1),
            None => seq![
                SegModel::Literal {
                    style: single_style_of(q),
                    content: t.subrange(i + 1, t.len() as int),
                    closed: false,
                },
            ],
        }
    } else if t[i] == escape_marker() && i + 1 < t.len() {
        seq![SegModel::EscapedChar { text: t.subrange(i, i + 2) }] + scan_from(t, i + 2)
    } else {
        seq![SegModel::PlainRun { text: t.subrange(i, plain_end_from(t, i)) }] + scan_from(
            t,
            plain_end_from(t, i),
        )
    }
}

#[via_fn]
proof fn scan_from_decreases(t: Seq<char>, i: int) {
    if 0 <= i && i < t.len() {
        if is_quote_char(t[i]) && i + 2 < t.len() && t[i + 1] == t[i] && t[i + 2] == t[i] {
            lemma_find_triple_from_bounds(t, t[i], i + 3);
        } else if is_quote_char(t[i]) {
            lemma_find_close_from_bounds(t, t[i], i + 1);
        } else if t[i] == escape_marker() && i + 1 < t.len() {
        } else {
            lemma_plain_end_from_bounds(t, i);
        }
    }
}

/// The concatenation of the original spans of `segs[k..]`.
pub open spec fn spans_from(segs: Seq<SegModel>, k: int) -> Seq<char>
    decreases segs.len() - k,
{
    if k < 0 || k >= segs.len() {
        Seq::empty()
    } else {
        seg_span(segs[k]) + spans_from(segs, k + 1)
    }
}

pub proof fn lemma_spans_from_shift(g: SegModel, rest: Seq<SegModel>, k: int)
    requires
        0 <= k <= rest.len(),
    ensures
        spans_from(seq![g] + rest, k + 1) == spans_from(rest, k),
    decreases rest.len() - k,
{
    if k >= rest.len() {
    } else {
        assert((seq![g] + rest)[k + 1] == rest[k]);
        lemma_spans_from_shift(g, rest, k + 1);
    }
}

/// Concatenation of spans distributes over a segment put in front.
pub proof fn lemma_spans_from_cons(g: SegModel, rest: Seq<SegModel>)
    ensures
        spans_from(seq![g] + rest, 0) == seg_span(g) + spans_from(rest, 0),
{
    let segs = seq![g] + rest;
    assert(segs[0] == g);
    lemma_spans_from_shift(g, rest, 0);
}

/// The scanner is a lossless partition: the original spans of its segments,
/// concatenated in order, give back exactly the text it scanned.
#[verifier::rlimit(50)]
pub proof fn lemma_scan_lossless(t: Seq<char>, i: int)
    requires
        0 <= i <= t.len(),
    ensures
        spans_from(scan_from(t, i), 0) == t.subrange(i, t.len() as int),
    decreases t.len() - i,
{
    let segs = scan_from(t, i);
    let suffix = t.subrange(i, t.len() as int);
    if i >= t.len() {
        assert(spans_from(segs, 0) =~= suffix);
    } else if is_quote_char(t[i]) && i + 2 < t.len() && t[i + 1] == t[i] && t[i + 2] == t[i] {
        let q = t[i];
        match find_triple_from(t, q, i + 3) {
            Some(j) => {
                lemma_find_triple_from_bounds(t, q, i + 3);
                let g = SegModel::Literal {
                    style: triple_style_of(q),
                    content: t.subrange(i + 3, j),
                    closed: true,
                };
                let rest = scan_from(t, j + 3);
                assert(segs == seq![g] + rest);
                lemma_spans_from_cons(g, rest);
                lemma_scan_lossless(t, j + 3);
                assert(seg_span(g) == seq![q, q, q] + t.subrange(i + 3, j) + seq![q, q, q]);
                assert(spans_from(segs, 0) =~= suffix);
            },
            None => {
                let g = SegModel::Literal {
                    style: triple_style_of(q),
                    content: t.subrange(i + 3, t.len() as int),
                    closed: false,
                };
                assert(segs == seq![g]);
                lemma_spans_from_cons(g, Seq::empty());
                assert(seq![g] + Seq::<SegModel>::empty() =~= seq![g]);
                assert(seg_span(g) == seq![q, q, q] + t.subrange(i + 3, t.len() as int));
                assert(spans_from(segs, 0) =~= suffix);
            },
        }
    } else if is_quote_char(t[i]) {
        let q = t[i];
        match find_close_from(t, q, i + 1) {
            Some(j) => {
                lemma_find_close_from_bounds(t, q, i + 1);
                let g = SegModel::Literal {
                    style: single_style_of(q),
                    content: t.subrange(i + 1, j),
                    closed: true,
                };
                let rest = scan_from(t, j + 1);
                assert(segs == seq![g] + rest);
                lemma_spans_from_cons(g, rest);
                lemma_scan_lossless(t, j + 1);
                assert(seg_span(g) == seq![q] + t.subrange(i + 1, j) + seq![q]);
                assert(spans_from(segs, 0) =~= suffix);
            },
            None => {
                let g = SegModel::Literal {
                    style: single_style_of(q),
                    content: t.subrange(i + 1, t.len() as int),
                    closed: false,
                };
                assert(segs == seq![g]);
                lemma_spans_from_cons(g, Seq::empty());
                assert(seq![g] + Seq::<SegModel>::empty() =~= seq![g]);
                assert(seg_span(g) == seq![q] + t.subrange(i + 1, t.len() as int));
                assert(spans_from(segs, 0) =~= suffix);
            },
        }
    } else if t[i] == escape_marker() && i + 1 < t.len() {
        let g = SegModel::EscapedChar { text: t.subrange(i, i + 2) };
        let rest = scan_from(t, i + 2);
        assert(segs == seq![g] + rest);
        lemma_spans_from_cons(g, rest);
        lemma_scan_lossless(t, i + 2);
        assert(spans_from(segs, 0) =~= suffix);
    } else {
        let j = plain_end_from(t, i);
        lemma_plain_end_from_bounds(t, i);
        let g = SegModel::PlainRun { text: t.subrange(i, j) };
        let rest = scan_from(t, j);
        assert(segs == seq![g] + rest);
        lemma_spans_from_cons(g, rest);
        lemma_scan_lossless(t, j);
        assert(spans_from(segs, 0) =~= suffix);
    }
}

pub proof fn lemma_seg_views_push(segs: Seq<Segment>, g: Segment)
    ensures
        seg_views(segs.push(g)) == seg_views(segs) + seq![g@],
{
    assert(seg_views(segs.push(g)) =~= seg_views(segs) + seq![g@]);
}

/// One scanner step keeps the loop invariant: consuming the head segment of
/// the remaining suffix extends the views accumulated so far.
proof fn lemma_scan_inv_step(vs: Seq<SegModel>, g: SegModel, t: Seq<char>, i0: int, i1: int)
    requires
        vs + scan_from(t, i0) == scan_from(t, 0),
        scan_from(t, i0) == seq![g] + scan_from(t, i1),
    ensures
        (vs + seq![g]) + scan_from(t, i1) == scan_from(t, 0),
{
    assert((vs + seq![g]) + scan_from(t, i1) =~= vs + (seq![g] + scan_from(t, i1)));
}

/// Copies `t[a..b]` into a fresh vector.
fn copy_range(t: &Vec<char>, a: usize, b: usize) -> (r: Vec<char>)
    requires
        a <= b <= t.len(),
    ensures
        r@ == t@.subrange(a as int, b as int),
{
    let mut r: Vec<char> = Vec::new();
    let mut k: usize = a;
    while k < b
        invariant
            a <= k <= b <= t.len(),
            r@ == t@.subrange(a as int, k as int),
        decreases b - k,
    {
        r.push(t[k]);
        assert(r@ =~= t@.subrange(a as int, (k + 1) as int));
        k = k + 1;
    }
    r
}

/// Finds the first triple `q q q` at or after `start`.
fn find_triple_close(t: &Vec<char>, q: char, start: usize) -> (r: Option<usize>)
    requires
        start <= t.len(),
    ensures
        match r {
            Some(j) => find_triple_from(t@, q, start as int) == Some(j as int) && start <= j && j
                + 3 <= t.len(),
            None => find_triple_from(t@, q, start as int) is None,
        },
{
    let mut j: usize = start;
    while j < t.len()
        invariant
            start <= j <= t.len(),
            find_triple_from(t@, q, start as int) == find_triple_from(t@, q, j as int),
        decreases t.len() - j,
    {
        if t.len() - j >= 3 && t[j] == q && t[j + 1] == q && t[j + 2] == q {
            return Some(j);
        }
        assert(find_triple_from(t@, q, j as int) == find_triple_from(t@, q, j + 1));
        j = j + 1;
    }
    None
}

/// Finds the closing delimiter of a one-character literal, skipping escape
/// pairs.
fn find_one_close(t: &Vec<char>, q: char, start: usize) -> (r: Option<usize>)
    requires
        start <= t.len(),
        q != escape_marker(),
    ensures
        match r {
            Some(j) => find_close_from(t@, q, start as int) == Some(j as int) && start <= j && j
                < t.len() && t@[j as int] == q,
            None => find_close_from(t@, q, start as int) is None,
        },
{
    let mut j: usize = start;
    while j < t.len()
        invariant
            start <= j <= t.len(),
            find_close_from(t@, q, start as int) == find_close_from(t@, q, j as int),
        decreases t.len() - j,
    {
        if t[j] == '\\' && j + 1 < t.len() {
            assert(find_close_from(t@, q, j as int) == find_close_from(t@, q, j + 2));
            j = j + 2;
        } else if t[j] == q {
            return Some(j);
        } else {
            assert(find_close_from(t@, q, j as int) == find_close_from(t@, q, j + 1));
            j = j + 1;
        }
    }
    None
}

/// Finds the end of the plain run starting at `start`.
fn find_plain_end(t: &Vec<char>, start: usize) -> (r: usize)
    requires
        start <= t.len(),
    ensures
        r as int == plain_end_from(t@, start as int),
        start <= r <= t.len(),
{
    proof {
        lemma_plain_end_from_bounds(t@, start as int);
    }
    let mut j: usize = start;
    while j < t.len()
        invariant
            start <= j <= t.len(),
            plain_end_from(t@, start as int) == plain_end_from(t@, j as int),
        decreases t.len() - j,
    {
        let c = t[j];
        if c == '\'' || c == '"' {
            return j;
        }
        if c == '\\' {
            if j + 1 < t.len() {
                return j;
            } else {
                return j + 1;
            }
        }
        assert(plain_end_from(t@, j as int) == plain_end_from(t@, j + 1));
        j = j + 1;
    }
    j
}

/// Tokenizes the text into its segment sequence, exactly as `scan_from`
/// describes it.
pub fn scan_segments(text: &Vec<char>) -> (segs: Vec<Segment>)
    ensures
        seg_views(segs@) == scan_from(text@, 0),
{
    let mut segs: Vec<Segment> = Vec::new();
    let mut i: usize = 0;
    while i < text.len()
        invariant
            i <= text.len(),
            seg_views(segs@) + scan_from(text@, i as int) == scan_from(text@, 0),
        decreases text.len() - i,
    {
        let ghost pre = segs@;
        let ghost i0 = i as int;
        let c = text[i];
        if (c == '\'' || c == '"') && text.len() - i > 2 && text[i + 1] == c && text[i + 2] == c {
            let style = if c == '\'' {
                QuoteStyle::TripleSingle
            } else {
                QuoteStyle::TripleDouble
            };
            assert(style == triple_style_of(c));
            match find_triple_close(text, c, i + 3) {
                Some(j) => {
                    let content = copy_range(text, i + 3, j);
                    let g = Segment::Literal { style, content, closed: true };
                    assert(scan_from(text@, i0) == seq![g@] + scan_from(text@, j + 3));
                    proof {
                        lemma_seg_views_push(segs@, g);
                        lemma_scan_inv_step(seg_views(pre), g@, text@, i0, j + 3);
                    }
                    segs.push(g);
                    i = j + 3;
                },
                None => {
                    let content = copy_range(text, i + 3, text.len());
                    let g = Segment::Literal { style, content, closed: false };
                    assert(scan_from(text@, text@.len() as int) == Seq::<SegModel>::empty());
                    assert(scan_from(text@, i0) =~= seq![g@] + scan_from(
                        text@,
                        text@.len() as int,
                    ));
                    proof {
                        lemma_seg_views_push(segs@, g);
                        lemma_scan_inv_step(seg_views(pre), g@, text@, i0, text@.len() as int);
                    }
                    segs.push(g);
                    i = text.len();
                },
            }
        } else if c == '\'' || c == '"' {
            let style = if c == '\'' {
                QuoteStyle::Single
            } else {
                QuoteStyle::Double
            };
            assert(style == single_style_of(c));
            match find_one_close(text, c, i + 1) {
                Some(j) => {
                    let content = copy_range(text, i + 1, j);
                    let g = Segment::Literal { style, content, closed: true };
                    assert(scan_from(text@, i0) == seq![g@] + scan_from(text@, j + 1));
                    proof {
                        lemma_seg_views_push(segs@, g);
                        lemma_scan_inv_step(seg_views(pre), g@, text@, i0, j + 1);
                    }
                    segs.push(g);
                    i = j + 1;
                },
                None => {
                    let content = copy_range(text, i + 1, text.len());
                    let g = Segment::Literal { style, content, closed: false };
                    assert(scan_from(text@, text@.len() as int) == Seq::<SegModel>::empty());
                    assert(scan_from(text@, i0) =~= seq![g@] + scan_from(
                        text@,
                        text@.len() as int,
                    ));
                    proof {
                        lemma_seg_views_push(segs@, g);
                        lemma_scan_inv_step(seg_views(pre), g@, text@, i0, text@.len() as int);
                    }
                    segs.push(g);
                    i = text.len();
                },
            }
        } else if c == '\\' && i + 1 < text.len() {
            let g = Segment::EscapedChar { marker: c, ch: text[i + 1] };
            assert(g@ == SegModel::EscapedChar { text: text@.subrange(i0, i0 + 2) }) by {
                assert(seq![c, text@[i0 + 1]] =~= text@.subrange(i0, i0 + 2));
            }
            assert(scan_from(text@, i0) == seq![g@] + scan_from(text@, i0 + 2));
            proof {
                lemma_seg_views_push(segs@, g);
                lemma_scan_inv_step(seg_views(pre), g@, text@, i0, i0 + 2);
            }
            segs.push(g);
            i = i + 2;
        } else {
            let j = find_plain_end(text, i);
            proof {
                lemma_plain_end_from_bounds(text@, i as int);
            }
            assert(i < j);
            let content = copy_range(text, i, j);
            let g = Segment::PlainRun { text: content };
            assert(scan_from(text@, i0) == seq![g@] + scan_from(text@, j as int));
            proof {
                lemma_seg_views_push(segs@, g);
                lemma_scan_inv_step(seg_views(pre), g@, text@, i0, j as int);
            }
            segs.push(g);
            i = j;
        }
    }
    assert(scan_from(text@, i as int) == Seq::<SegModel>::empty());
    assert(seg_views(segs@) =~= seg_views(segs@) + scan_from(text@, i as int));
    segs
}

} // verus!


