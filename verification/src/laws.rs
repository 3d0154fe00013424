//! Properties of the engine, stated and proved once and for all: the
//! escape-pair walk facts that tie a literal's content to the scanner's
//! behaviour, well-formedness of everything the scanner emits, pass-through
//! of plain text, escape non-interference, triple precedence, idempotence of
//! converting to single quotes, and the round trip between the two
//! one-character styles.

use vstd::prelude::*;

use crate::scan::find_close_from;
use crate::scan::find_triple_from;
use crate::scan::lemma_find_close_from_bounds;
use crate::scan::lemma_find_triple_from_bounds;
use crate::scan::lemma_plain_end_from_bounds;
use crate::scan::lemma_scan_lossless;
use crate::scan::plain_end_from;
use crate::scan::scan_from;
use crate::scan::spans_from;
use crate::segment::ConversionMode;
use crate::segment::QuoteStyle;
use crate::segment::SegModel;
use crate::segment::delim_char;
use crate::segment::escape_marker;
use crate::segment::converts;
use crate::segment::delim_seq;
use crate::segment::has_unescaped_from;
use crate::segment::output_style;
use crate::segment::seg_output;
use crate::segment::target_style;
use crate::segment::is_quote_char;
use crate::segment::is_triple_style;
use crate::segment::lit_span;
use crate::segment::seg_span;
use crate::segment::single_style_of;
use crate::segment::triple_style_of;
use crate::transform::emit_from;
use crate::transform::transform_spec;

verus! {

/// The escape-pair walk over a content sequence lands exactly on its end:
/// no escape marker is left waiting for a character beyond the content.
pub open spec fn units_complete_from(c: Seq<char>, i: int) -> bool
    decreases c.len() - i,
{
    if i >= c.len() {
        i == c.len()
    } else if c[i] == escape_marker() {
        i + 2 <= c.len() && units_complete_from(c, i + 2)
    } else {
        units_complete_from(c, i + 1)
    }
}

/// No run of three consecutive `q` anywhere in `c`.
pub open spec fn no_triple_in(c: Seq<char>, q: char) -> bool {
    forall|j: int|
        0 <= j && j + 3 <= c.len() ==> !(#[trigger] c[j] == q && c[j + 1] == q && c[j + 2] == q)
}

/// Extraction: when the scanner finds the closing delimiter at `b`, the
/// content between `a` and `b` walks cleanly in escape pairs and holds no
/// unescaped `q`.
pub proof fn lemma_close_extract(t: Seq<char>, q: char, a: int, b: int, i: int)
    requires
        q != escape_marker(),
        0 <= a,
        0 <= i,
        a + i <= b < t.len(),
        find_close_from(t, q, a + i) == Some(b),
    ensures
        units_complete_from(t.subrange(a, b), i),
        !has_unescaped_from(t.subrange(a, b), q, i),
    decreases b - (a + i),
{
    let c = t.subrange(a, b);
    lemma_find_close_from_bounds(t, q, a + i);
    if a + i == b {
    } else {
        if t[a + i] == escape_marker() {
            assert(a + i + 1 < t.len());
            lemma_find_close_from_bounds(t, q, a + i + 2);
            assert(find_close_from(t, q, a + i) == find_close_from(t, q, a + i + 2));
            assert(a + i + 2 <= b);
            lemma_close_extract(t, q, a, b, i + 2);
            assert(c[i] == escape_marker());
            assert(i + 2 <= c.len());
            assert(i + 1 < c.len());
        } else if t[a + i] == q {
            assert(false);
        } else {
            lemma_close_extract(t, q, a, b, i + 1);
            assert(c[i] != escape_marker() && c[i] != q);
        }
    }
}

/// Embedding: a content that walks cleanly and holds no unescaped `q`,
/// followed by a `q`, makes the scanner close exactly there.
pub proof fn lemma_close_embed(t: Seq<char>, q: char, a: int, b: int, i: int)
    requires
        q != escape_marker(),
        0 <= a,
        0 <= i,
        a + i <= b < t.len(),
        t[b] == q,
        units_complete_from(t.subrange(a, b), i),
        !has_unescaped_from(t.subrange(a, b), q, i),
    ensures
        find_close_from(t, q, a + i) == Some(b),
    decreases b - (a + i),
{
    let c = t.subrange(a, b);
    if a + i == b {
        assert(t[b] != escape_marker());
    } else {
        assert(0 <= i < c.len());
        if c[i] == escape_marker() {
            assert(i + 2 <= c.len() && units_complete_from(c, i + 2));
            assert(i + 1 < c.len());
            assert(!has_unescaped_from(c, q, i + 2));
            assert(t[a + i] == escape_marker() && a + i + 1 < t.len());
            lemma_close_embed(t, q, a, b, i + 2);
        } else if c[i] == q {
            assert(has_unescaped_from(c, q, i));
            assert(false);
        } else {
            lemma_close_embed(t, q, a, b, i + 1);
        }
    }
}

/// At the end of the input, the scanner finds no closing delimiter exactly
/// when the remaining content holds no unescaped `q`.
pub proof fn lemma_close_none(t: Seq<char>, q: char, a: int, i: int)
    requires
        q != escape_marker(),
        0 <= a,
        0 <= i,
        a + i <= t.len(),
    ensures
        (find_close_from(t, q, a + i) is None) <==> !has_unescaped_from(
            t.subrange(a, t.len() as int),
            q,
            i,
        ),
    decreases t.len() - (a + i),
{
    let c = t.subrange(a, t.len() as int);
    if a + i == t.len() {
    } else {
        assert(0 <= i < c.len());
        assert(c[i] == t[a + i]);
        if c[i] == escape_marker() {
            if a + i + 1 < t.len() {
                lemma_close_none(t, q, a, i + 2);
                assert(i + 1 < c.len());
            } else {
                assert(i + 1 >= c.len());
                assert(!has_unescaped_from(c, q, i));
                assert(t[a + i] != q);
                assert(find_close_from(t, q, a + i) == find_close_from(t, q, a + i + 1));
                assert(find_close_from(t, q, a + i + 1) is None);
            }
        } else if c[i] == q {
        } else {
            lemma_close_none(t, q, a, i + 1);
        }
    }
}

/// Extraction for triple literals: the first triple `q q q` sits at `b`, so
/// no position before it starts one.
pub proof fn lemma_triple_extract(t: Seq<char>, q: char, i: int, b: int)
    requires
        0 <= i <= b,
        find_triple_from(t, q, i) == Some(b),
    ensures
        forall|j: int| i <= j < b ==> !(#[trigger] t[j] == q && t[j + 1] == q && t[j + 2] == q),
    decreases b - i,
{
    lemma_find_triple_from_bounds(t, q, i);
    if i == b {
    } else {
        assert(!(i + 3 <= t.len() && t[i] == q && t[i + 1] == q && t[i + 2] == q));
        assert(i + 3 <= t.len()) by {
            assert(b + 3 <= t.len());
        }
        lemma_triple_extract(t, q, i + 1, b);
    }
}

/// Embedding for triple literals: a content with no internal triple that
/// does not end in `q`, followed by `q q q`, closes exactly there.
pub proof fn lemma_triple_embed(t: Seq<char>, q: char, a: int, b: int, i: int)
    requires
        0 <= a,
        0 <= i,
        a + i <= b,
        b + 3 <= t.len(),
        t[b] == q,
        t[b + 1] == q,
        t[b + 2] == q,
        no_triple_in(t.subrange(a, b), q),
        b - a > 0 ==> t[b - 1] != q,
    ensures
        find_triple_from(t, q, a + i) == Some(b),
    decreases b - (a + i),
{
    let c = t.subrange(a, b);
    let j = a + i;
    if j == b {
    } else {
        assert(!(t[j] == q && t[j + 1] == q && t[j + 2] == q)) by {
            if j + 3 <= b {
                assert(c[j - a] == t[j] && c[j - a + 1] == t[j + 1] && c[j - a + 2] == t[j + 2]);
            } else if j == b - 1 {
                assert(t[b - 1] != q);
            } else {
                assert(j == b - 2);
                assert(t[j + 1] == t[b - 1]);
                assert(t[b - 1] != q);
            }
        }
        lemma_triple_embed(t, q, a, b, i + 1);
    }
}

/// At the end of the input, the scanner finds no closing triple exactly when
/// no position at or after `i` starts one.
pub proof fn lemma_triple_none(t: Seq<char>, q: char, i: int)
    requires
        0 <= i,
    ensures
        (find_triple_from(t, q, i) is None) <==> (forall|j: int|
            i <= j && j + 3 <= t.len() ==> !(#[trigger] t[j] == q && t[j + 1] == q && t[j + 2]
                == q)),
    decreases t.len() - i,
{
    if i >= t.len() {
    } else {
        lemma_triple_none(t, q, i + 1);
    }
}

/// The characters of a plain run: no quote anywhere, and an escape marker
/// only as the very last character of the input.
pub proof fn lemma_plain_end_chars(t: Seq<char>, i: int)
    requires
        0 <= i <= t.len(),
    ensures
        forall|m: int|
            i <= m < plain_end_from(t, i) ==> !is_quote_char(#[trigger] t[m]) && (t[m]
                == escape_marker() ==> m == plain_end_from(t, i) - 1 && plain_end_from(t, i)
                == t.len()),
    decreases t.len() - i,
{
    if i >= t.len() {
    } else if is_quote_char(t[i]) {
    } else if t[i] == escape_marker() {
    } else {
        lemma_plain_end_chars(t, i + 1);
    }
}

/// What stops a plain run: the end of the input, a quote, or an escape pair.
pub proof fn lemma_plain_end_stop(t: Seq<char>, i: int)
    requires
        0 <= i <= t.len(),
    ensures
        plain_end_from(t, i) < t.len() ==> is_quote_char(t[plain_end_from(t, i)])
            || (t[plain_end_from(t, i)] == escape_marker() && plain_end_from(t, i) + 1 < t.len()),
    decreases t.len() - i,
{
    if i >= t.len() {
    } else if is_quote_char(t[i]) {
    } else if t[i] == escape_marker() {
    } else {
        lemma_plain_end_stop(t, i + 1);
    }
}

/// The plain run's end is determined by its characters and its stop: used to
/// rescan a plain run wherever it stands.
pub proof fn lemma_plain_end_value(t: Seq<char>, p: int, e: int)
    requires
        0 <= p <= e <= t.len(),
        forall|m: int|
            p <= m < e ==> !is_quote_char(#[trigger] t[m]) && (t[m] == escape_marker() ==> m == e
                - 1 && e == t.len()),
        e < t.len() ==> is_quote_char(t[e]) || (t[e] == escape_marker() && e + 1 < t.len()),
    ensures
        plain_end_from(t, p) == e,
    decreases e - p,
{
    if p == e {
    } else {
        assert(!is_quote_char(t[p]));
        if t[p] == escape_marker() {
            assert(p == e - 1 && e == t.len());
        } else {
            lemma_plain_end_value(t, p + 1, e);
        }
    }
}

/// Escape non-interference: the character standing right after an escape
/// marker never closes a one-character literal; the scan for the closing
/// delimiter steps over the pair as one unit.
pub proof fn lemma_escaped_char_not_close(t: Seq<char>, q: char, i: int)
    requires
        0 <= i,
        i + 1 < t.len(),
        t[i] == escape_marker(),
    ensures
        find_close_from(t, q, i) != Some(i + 1),
{
    assert(find_close_from(t, q, i) == find_close_from(t, q, i + 2));
    lemma_find_close_from_bounds(t, q, i + 2);
}

/// Triple precedence: text starting with three identical quote characters
/// always scans to a triple-style literal first, never to a one-character
/// literal.
pub proof fn lemma_triple_precedence(t: Seq<char>)
    requires
        t.len() >= 3,
        is_quote_char(t[0]),
        t[1] == t[0],
        t[2] == t[0],
    ensures
        scan_from(t, 0).len() >= 1,
        scan_from(t, 0)[0] is Literal,
        scan_from(t, 0)[0]->Literal_style == triple_style_of(t[0]),
        is_triple_style(scan_from(t, 0)[0]->Literal_style),
    decreases 0int,
{
    let q = t[0];
    match find_triple_from(t, q, 3) {
        Some(j) => {
            assert(scan_from(t, 0)[0] == SegModel::Literal {
                style: triple_style_of(q),
                content: t.subrange(3, j),
                closed: true,
            });
        },
        None => {
            assert(scan_from(t, 0)[0] == SegModel::Literal {
                style: triple_style_of(q),
                content: t.subrange(3, t.len() as int),
                closed: false,
            });
        },
    }
}

/// What the scanner guarantees of one literal's content, relative to its own
/// delimiter character.
pub open spec fn content_ok(style: QuoteStyle, content: Seq<char>, closed: bool) -> bool {
    if is_triple_style(style) {
        if closed {
            no_triple_in(content, delim_char(style)) && (content.len() > 0 ==> content[content.len()
                - 1] != delim_char(style))
        } else {
            no_triple_in(content, delim_char(style))
        }
    } else {
        if closed {
            units_complete_from(content, 0) && !has_unescaped_from(content, delim_char(style), 0)
        } else {
            !has_unescaped_from(content, delim_char(style), 0)
        }
    }
}

/// What the scanner guarantees of one segment; `is_last` says whether it is
/// the final segment of its sequence.
pub open spec fn seg_wf(seg: SegModel, is_last: bool) -> bool {
    match seg {
        SegModel::PlainRun { text } => {
            &&& text.len() > 0
            &&& forall|m: int|
                0 <= m < text.len() ==> !is_quote_char(#[trigger] text[m]) && (text[m]
                    == escape_marker() ==> m == text.len() - 1 && is_last)
        },
        SegModel::EscapedChar { text } => text.len() == 2 && text[0] == escape_marker(),
        SegModel::Literal { style, content, closed } => content_ok(style, content, closed) && (
        !closed ==> is_last),
    }
}

/// What the scanner guarantees of a whole segment sequence: each segment is
/// well formed, only the last can be an unterminated literal, and no two
/// plain runs stand next to each other.
pub open spec fn segs_wf(segs: Seq<SegModel>) -> bool {
    &&& forall|k: int| 0 <= k < segs.len() ==> seg_wf(#[trigger] segs[k], k == segs.len() - 1)
    &&& forall|k: int|
        0 <= k < segs.len() - 1 ==> !((#[trigger] segs[k]) is PlainRun && segs[k + 1] is PlainRun)
}

/// Putting a well-formed head before a well-formed tail keeps the sequence
/// well formed.
pub proof fn lemma_segs_wf_cons(g: SegModel, rest: Seq<SegModel>)
    requires
        segs_wf(rest),
        seg_wf(g, rest.len() == 0),
        rest.len() > 0 ==> !(g is PlainRun && rest[0] is PlainRun),
    ensures
        segs_wf(seq![g] + rest),
{
    let segs = seq![g] + rest;
    assert forall|k: int| 0 <= k < segs.len() implies seg_wf(#[trigger] segs[k], k == segs.len()
        - 1) by {
        if k == 0 {
            assert(segs[0] == g);
        } else {
            assert(segs[k] == rest[k - 1]);
        }
    }
    assert forall|k: int|
        0 <= k < segs.len() - 1 implies !((#[trigger] segs[k]) is PlainRun && segs[k
        + 1] is PlainRun) by {
        if k == 0 {
            assert(segs[0] == g);
            if rest.len() > 0 {
                assert(segs[1] == rest[0]);
            }
        } else {
            assert(segs[k] == rest[k - 1]);
            assert(segs[k + 1] == rest[k]);
        }
    }
}

/// The first segment scanned at a quote or at an escape pair is never a
/// plain run.
pub proof fn lemma_scan_head_kind(t: Seq<char>, j: int)
    requires
        0 <= j < t.len(),
        is_quote_char(t[j]) || (t[j] == escape_marker() && j + 1 < t.len()),
    ensures
        scan_from(t, j).len() >= 1,
        !(scan_from(t, j)[0] is PlainRun),
{
    if is_quote_char(t[j]) && j + 2 < t.len() && t[j + 1] == t[j] && t[j + 2] == t[j] {
        match find_triple_from(t, t[j], j + 3) {
            Some(m) => {
                assert(scan_from(t, j)[0] is Literal);
            },
            None => {
                assert(scan_from(t, j)[0] is Literal);
            },
        }
    } else if is_quote_char(t[j]) {
        match find_close_from(t, t[j], j + 1) {
            Some(m) => {
                assert(scan_from(t, j)[0] is Literal);
            },
            None => {
                assert(scan_from(t, j)[0] is Literal);
            },
        }
    } else {
        assert(scan_from(t, j)[0] is EscapedChar);
    }
}

/// Everything the scanner emits is well formed.
pub proof fn lemma_scan_wf(t: Seq<char>, i: int)
    requires
        0 <= i <= t.len(),
    ensures
        segs_wf(scan_from(t, i)),
    decreases t.len() - i,
{
    let segs = scan_from(t, i);
    if i >= t.len() {
        assert(segs =~= Seq::<SegModel>::empty());
    } else if is_quote_char(t[i]) && i + 2 < t.len() && t[i + 1] == t[i] && t[i + 2] == t[i] {
        let q = t[i];
        assert(delim_char(triple_style_of(q)) == q);
        match find_triple_from(t, q, i + 3) {
            Some(j) => {
                lemma_find_triple_from_bounds(t, q, i + 3);
                lemma_triple_extract(t, q, i + 3, j);
                let c = t.subrange(i + 3, j);
                let g = SegModel::Literal {
                    style: triple_style_of(q),
                    content: c,
                    closed: true,
                };
                let rest = scan_from(t, j + 3);
                assert(no_triple_in(c, q)) by {
                    assert forall|m: int|
                        0 <= m && m + 3 <= c.len() implies !(#[trigger] c[m] == q && c[m + 1] == q
                        && c[m + 2] == q) by {
                        assert(c[m] == t[i + 3 + m] && c[m + 1] == t[i + 3 + m + 1] && c[m + 2]
                            == t[i + 3 + m + 2]);
                        assert(!(t[i + 3 + m] == q && t[i + 3 + m + 1] == q && t[i + 3 + m + 2]
                            == q));
                    }
                }
                if c.len() > 0 {
                    assert(!(t[j - 1] == q && t[j] == q && t[j + 1] == q));
                    assert(c[c.len() - 1] == t[j - 1]);
                }
                lemma_scan_wf(t, j + 3);
                lemma_segs_wf_cons(g, rest);
            },
            None => {
                lemma_triple_none(t, q, i + 3);
                let c = t.subrange(i + 3, t.len() as int);
                let g = SegModel::Literal {
                    style: triple_style_of(q),
                    content: c,
                    closed: false,
                };
                assert(no_triple_in(c, q)) by {
                    assert forall|m: int|
                        0 <= m && m + 3 <= c.len() implies !(#[trigger] c[m] == q && c[m + 1] == q
                        && c[m + 2] == q) by {
                        assert(c[m] == t[i + 3 + m] && c[m + 1] == t[i + 3 + m + 1] && c[m + 2]
                            == t[i + 3 + m + 2]);
                        assert(!(t[i + 3 + m] == q && t[i + 3 + m + 1] == q && t[i + 3 + m + 2]
                            == q));
                    }
                }
                assert(segs == seq![g]);
                lemma_segs_wf_cons(g, Seq::empty());
                assert(seq![g] + Seq::<SegModel>::empty() =~= seq![g]);
            },
        }
    } else if is_quote_char(t[i]) {
        let q = t[i];
        assert(delim_char(single_style_of(q)) == q);
        assert(q != escape_marker());
        match find_close_from(t, q, i + 1) {
            Some(j) => {
                lemma_find_close_from_bounds(t, q, i + 1);
                lemma_close_extract(t, q, i + 1, j, 0);
                let c = t.subrange(i + 1, j);
                let g = SegModel::Literal {
                    style: single_style_of(q),
                    content: c,
                    closed: true,
                };
                let rest = scan_from(t, j + 1);
                lemma_scan_wf(t, j + 1);
                lemma_segs_wf_cons(g, rest);
            },
            None => {
                lemma_close_none(t, q, i + 1, 0);
                let c = t.subrange(i + 1, t.len() as int);
                let g = SegModel::Literal {
                    style: single_style_of(q),
                    content: c,
                    closed: false,
                };
                assert(segs == seq![g]);
                lemma_segs_wf_cons(g, Seq::empty());
                assert(seq![g] + Seq::<SegModel>::empty() =~= seq![g]);
            },
        }
    } else if t[i] == escape_marker() && i + 1 < t.len() {
        let g = SegModel::EscapedChar { text: t.subrange(i, i + 2) };
        let rest = scan_from(t, i + 2);
        assert(t.subrange(i, i + 2)[0] == t[i]);
        lemma_scan_wf(t, i + 2);
        lemma_segs_wf_cons(g, rest);
        if rest.len() > 0 {
            assert(!(g is PlainRun));
        }
    } else {
        let j = plain_end_from(t, i);
        lemma_plain_end_from_bounds(t, i);
        lemma_plain_end_chars(t, i);
        lemma_plain_end_stop(t, i);
        let c = t.subrange(i, j);
        let g = SegModel::PlainRun { text: c };
        let rest = scan_from(t, j);
        lemma_scan_wf(t, j);
        assert(seg_wf(g, rest.len() == 0)) by {
            assert forall|m: int|
                0 <= m < c.len() implies !is_quote_char(#[trigger] c[m]) && (c[m] == escape_marker()
                ==> m == c.len() - 1 && rest.len() == 0) by {
                assert(c[m] == t[i + m]);
                assert(!is_quote_char(t[i + m]));
                if c[m] == escape_marker() {
                    assert(i + m == j - 1 && j == t.len());
                    assert(scan_from(t, j) =~= Seq::<SegModel>::empty());
                }
            }
        }
        if rest.len() > 0 {
            assert(j < t.len());
            lemma_scan_head_kind(t, j);
        }
        lemma_segs_wf_cons(g, rest);
    }
}

/// Rescanning one escape pair.
pub proof fn lemma_scan_head_escaped(t: Seq<char>, p: int)
    requires
        0 <= p,
        p + 1 < t.len(),
        t[p] == escape_marker(),
    ensures
        scan_from(t, p) == seq![SegModel::EscapedChar { text: t.subrange(p, p + 2) }]
            + scan_from(t, p + 2),
{
    assert(!is_quote_char(t[p]));
}

/// Rescanning one plain run: its own characters are harmless and whatever
/// follows starts a literal or an escape pair, so the scanner stops exactly
/// at its end.
pub proof fn lemma_scan_head_plain(t: Seq<char>, p: int, c: Seq<char>)
    requires
        0 <= p,
        c.len() > 0,
        p + c.len() <= t.len(),
        t.subrange(p, p + c.len()) == c,
        forall|m: int| 0 <= m < c.len() ==> !is_quote_char(#[trigger] c[m]),
        forall|m: int|
            0 <= m < c.len() && #[trigger] c[m] == escape_marker() ==> m == c.len() - 1 && p
                + c.len() == t.len(),
        p + c.len() < t.len() ==> is_quote_char(t[p + c.len()]) || (t[p + c.len()]
            == escape_marker() && p + c.len() + 1 < t.len()),
    ensures
        scan_from(t, p) == seq![SegModel::PlainRun { text: c }] + scan_from(t, p + c.len()),
{
    let e = p + c.len();
    assert forall|m: int|
        p <= m < e implies !is_quote_char(#[trigger] t[m]) && (t[m] == escape_marker() ==> m == e
        - 1 && e == t.len()) by {
        assert(c[m - p] == t[m]);
    }
    lemma_plain_end_value(t, p, e);
    assert(t[p] == c[0]);
    assert(!is_quote_char(t[p]));
    if t[p] == escape_marker() {
        assert(c.len() == 1 && e == t.len());
        assert(!(p + 1 < t.len()));
    }
    assert(scan_from(t, p) == seq![SegModel::PlainRun { text: t.subrange(p, e) }] + scan_from(t, e));
}

/// Rescanning one closed one-character literal whose content is clean with
/// respect to its own delimiter.
pub proof fn lemma_scan_head_single(t: Seq<char>, q: char, p: int, c: Seq<char>)
    requires
        0 <= p,
        is_quote_char(q),
        p + c.len() + 2 <= t.len(),
        t[p] == q,
        t.subrange(p + 1, p + 1 + c.len()) == c,
        t[p + c.len() as int + 1] == q,
        units_complete_from(c, 0),
        !has_unescaped_from(c, q, 0),
        c.len() == 0 ==> p + 2 >= t.len() || t[p + 2] != q,
    ensures
        scan_from(t, p) == seq![
            SegModel::Literal { style: single_style_of(q), content: c, closed: true },
        ] + scan_from(t, p + c.len() + 2),
{
    let b = p + 1 + c.len();
    assert(q != escape_marker());
    if c.len() > 0 {
        assert(t[p + 1] == c[0]);
        if c[0] == q {
            assert(has_unescaped_from(c, q, 0));
            assert(false);
        }
    }
    assert(!(is_quote_char(t[p]) && p + 2 < t.len() && t[p + 1] == t[p] && t[p + 2] == t[p]));
    lemma_close_embed(t, q, p + 1, b, 0);
    assert(find_close_from(t, q, p + 1) == Some(b));
    assert(scan_from(t, p) == seq![
        SegModel::Literal { style: single_style_of(q), content: t.subrange(p + 1, b), closed: true },
    ] + scan_from(t, b + 1));
}

/// Rescanning one closed triple literal whose content is clean with respect
/// to its own delimiter.
pub proof fn lemma_scan_head_triple(t: Seq<char>, q: char, p: int, c: Seq<char>)
    requires
        0 <= p,
        is_quote_char(q),
        p + c.len() + 6 <= t.len(),
        t[p] == q,
        t[p + 1] == q,
        t[p + 2] == q,
        t.subrange(p + 3, p + 3 + c.len()) == c,
        t[p + c.len() as int + 3] == q,
        t[p + c.len() as int + 4] == q,
        t[p + c.len() as int + 5] == q,
        no_triple_in(c, q),
        c.len() > 0 ==> c[c.len() - 1] != q,
    ensures
        scan_from(t, p) == seq![
            SegModel::Literal { style: triple_style_of(q), content: c, closed: true },
        ] + scan_from(t, p + c.len() + 6),
{
    let b = p + 3 + c.len();
    assert(p + 2 < t.len());
    if c.len() > 0 {
        assert(t[b - 1] == c[c.len() - 1]);
    }
    lemma_triple_embed(t, q, p + 3, b, 0);
    assert(find_triple_from(t, q, p + 3) == Some(b));
    assert(scan_from(t, p) == seq![
        SegModel::Literal { style: triple_style_of(q), content: t.subrange(p + 3, b), closed: true },
    ] + scan_from(t, b + 3));
}

/// Rescanning an unterminated one-character literal at the end of the text.
pub proof fn lemma_scan_head_single_unclosed(t: Seq<char>, q: char, p: int, c: Seq<char>)
    requires
        0 <= p < t.len(),
        is_quote_char(q),
        t[p] == q,
        p + 1 + c.len() == t.len(),
        t.subrange(p + 1, t.len() as int) == c,
        !has_unescaped_from(c, q, 0),
    ensures
        scan_from(t, p) == seq![
            SegModel::Literal { style: single_style_of(q), content: c, closed: false },
        ],
{
    assert(q != escape_marker());
    if p + 2 < t.len() {
        assert(c[0] == t[p + 1]);
        if c[0] == q {
            assert(has_unescaped_from(c, q, 0));
            assert(false);
        }
    }
    assert(!(is_quote_char(t[p]) && p + 2 < t.len() && t[p + 1] == t[p] && t[p + 2] == t[p]));
    lemma_close_none(t, q, p + 1, 0);
    assert(find_close_from(t, q, p + 1) is None);
}

/// Rescanning an unterminated triple literal at the end of the text.
pub proof fn lemma_scan_head_triple_unclosed(t: Seq<char>, q: char, p: int, c: Seq<char>)
    requires
        0 <= p,
        is_quote_char(q),
        p + 3 + c.len() == t.len(),
        t[p] == q,
        t[p + 1] == q,
        t[p + 2] == q,
        t.subrange(p + 3, t.len() as int) == c,
        no_triple_in(c, q),
    ensures
        scan_from(t, p) == seq![
            SegModel::Literal { style: triple_style_of(q), content: c, closed: false },
        ],
{
    assert(p + 2 < t.len());
    lemma_triple_none(t, q, p + 3);
    assert forall|j: int|
        p + 3 <= j && j + 3 <= t.len() implies !(#[trigger] t[j] == q && t[j + 1] == q && t[j + 2]
        == q) by {
        assert(c[j - (p + 3)] == t[j] && c[j - (p + 3) + 1] == t[j + 1] && c[j - (p + 3) + 2] == t[j
            + 2]);
    }
    assert(find_triple_from(t, q, p + 3) is None);
}

/// A closed literal after rewriting, as a segment of the output text; plain
/// runs, escape pairs and unterminated literals stay as they are.
pub open spec fn rewritten_seg(
    seg: SegModel,
    mode: ConversionMode,
    conflict_override: bool,
) -> SegModel {
    match seg {
        SegModel::Literal { style, content, closed } => {
            if closed {
                SegModel::Literal {
                    style: output_style(style, content, mode, conflict_override),
                    content,
                    closed: true,
                }
            } else {
                seg
            }
        },
        _ => seg,
    }
}

/// The whole segment sequence after rewriting.
pub open spec fn rewritten_segs(
    segs: Seq<SegModel>,
    mode: ConversionMode,
    conflict_override: bool,
) -> Seq<SegModel> {
    segs.map_values(|g: SegModel| rewritten_seg(g, mode, conflict_override))
}

/// No closed one-character literal with empty content stands directly before
/// another literal: such a neighbourhood could fuse into a triple delimiter
/// after rewriting, and the two rescanning laws leave it out.
pub open spec fn no_merge(segs: Seq<SegModel>) -> bool {
    forall|k: int|
        0 <= k < segs.len() - 1 ==> ((#[trigger] segs[k]) matches SegModel::Literal {
            style,
            content,
            closed,
        } ==> (closed && !is_triple_style(style) && content.len() == 0 ==> !(segs[k
            + 1] is Literal)))
}

/// The delimiter character of any style opens a literal.
pub proof fn lemma_delim_char_is_quote(style: QuoteStyle)
    ensures
        is_quote_char(delim_char(style)),
{
}

/// Rewriting keeps the delimiter-length class and the content clean with
/// respect to the delimiter the literal ends up with.
pub proof fn lemma_output_content_ok(style: QuoteStyle, c: Seq<char>, mode: ConversionMode)
    requires
        content_ok(style, c, true),
    ensures
        content_ok(output_style(style, c, mode, false), c, true),
        is_triple_style(output_style(style, c, mode, false)) == is_triple_style(style),
{
    let st2 = output_style(style, c, mode, false);
    assert(is_triple_style(target_style(style, mode)) == is_triple_style(style));
    if converts(style, c, mode, false) {
        let d2 = delim_char(st2);
        if is_triple_style(style) {
            assert(!c.contains(d2));
            assert forall|m: int|
                0 <= m && m + 3 <= c.len() implies !(#[trigger] c[m] == d2 && c[m + 1] == d2 && c[m
                + 2] == d2) by {
                if c[m] == d2 {
                    assert(c.contains(d2));
                }
            }
            if c.len() > 0 && c[c.len() - 1] == d2 {
                assert(c.contains(d2));
                assert(false);
            }
        }
    }
}

/// The first character a literal emits is its output delimiter, a quote.
pub proof fn lemma_literal_output_head(seg: SegModel, mode: ConversionMode, conflict_override: bool)
    requires
        seg is Literal,
    ensures
        seg_output(seg, mode, conflict_override).len() >= 1,
        is_quote_char(seg_output(seg, mode, conflict_override)[0]),
{
    match seg {
        SegModel::Literal { style, content, closed } => {
            if closed {
                let st2 = output_style(style, content, mode, conflict_override);
                assert(seg_output(seg, mode, conflict_override) == delim_seq(st2) + content
                    + delim_seq(st2));
                assert(seg_output(seg, mode, conflict_override)[0] == delim_seq(st2)[0]);
                assert(delim_seq(st2)[0] == delim_char(st2));
            } else {
                assert(seg_output(seg, mode, conflict_override) == delim_seq(style) + content);
                assert(seg_output(seg, mode, conflict_override)[0] == delim_char(style));
            }
        },
        _ => {
            assert(false);
        },
    }
}

/// Dropping the head of a suffix.
pub proof fn lemma_skip_cons(s: Seq<SegModel>, k: int)
    requires
        0 <= k < s.len(),
    ensures
        s.skip(k) == seq![s[k]] + s.skip(k + 1),
{
    assert(s.skip(k) =~= seq![s[k]] + s.skip(k + 1));
}

/// Two segment sequences whose members emit the same text emit the same
/// text overall.
pub proof fn lemma_emit_pointwise(
    s1: Seq<SegModel>,
    s2: Seq<SegModel>,
    mode: ConversionMode,
    conflict_override: bool,
    k: int,
)
    requires
        s1.len() == s2.len(),
        forall|j: int|
            k <= j < s1.len() ==> seg_output(#[trigger] s1[j], mode, conflict_override)
                == seg_output(s2[j], mode, conflict_override),
    ensures
        emit_from(s1, mode, conflict_override, k) == emit_from(s2, mode, conflict_override, k),
    decreases s1.len() - k,
{
    if 0 <= k < s1.len() {
        lemma_emit_pointwise(s1, s2, mode, conflict_override, k + 1);
    }
}

/// A segment sequence whose members emit the original spans of another one
/// emits that other's whole original text.
pub proof fn lemma_emit_is_spans(
    s2: Seq<SegModel>,
    s1: Seq<SegModel>,
    mode: ConversionMode,
    conflict_override: bool,
    k: int,
)
    requires
        s1.len() == s2.len(),
        forall|j: int|
            k <= j < s1.len() ==> seg_output(#[trigger] s2[j], mode, conflict_override) == seg_span(
                s1[j],
            ),
    ensures
        emit_from(s2, mode, conflict_override, k) == spans_from(s1, k),
    decreases s1.len() - k,
{
    if 0 <= k < s1.len() {
        lemma_emit_is_spans(s2, s1, mode, conflict_override, k + 1);
    }
}

/// Rescanning the emitter's output, segment by segment: with no conflict
/// override, scanning the text emitted for `segs[k..]` gives exactly the
/// rewritten segments, one for one.
#[verifier::rlimit(100)]
pub proof fn lemma_rescan(segs: Seq<SegModel>, mode: ConversionMode, t: Seq<char>, k: int, p: int)
    requires
        segs_wf(segs),
        no_merge(segs),
        0 <= k <= segs.len(),
        0 <= p,
        p + emit_from(segs, mode, false, k).len() == t.len(),
        t.subrange(p, t.len() as int) == emit_from(segs, mode, false, k),
    ensures
        scan_from(t, p) == rewritten_segs(segs, mode, false).skip(k),
    decreases segs.len() - k,
{
    let rw = rewritten_segs(segs, mode, false);
    if k == segs.len() {
        assert(p == t.len());
        assert(scan_from(t, p) =~= rw.skip(k));
    } else {
        let g = segs[k];
        let og = seg_output(g, mode, false);
        let rest_out = emit_from(segs, mode, false, k + 1);
        assert(emit_from(segs, mode, false, k) == og + rest_out);
        let p2 = p + og.len();
        assert forall|x: int| 0 <= x < og.len() implies t[p + x] == og[x] by {
            assert(t.subrange(p, t.len() as int)[x] == t[p + x]);
            assert((og + rest_out)[x] == og[x]);
        }
        assert(t.subrange(p2, t.len() as int) =~= rest_out) by {
            assert forall|x: int| 0 <= x < rest_out.len() implies t[p2 + x] == rest_out[x] by {
                assert(t.subrange(p, t.len() as int)[og.len() + x] == t[p2 + x]);
                assert((og + rest_out)[og.len() + x] == rest_out[x]);
            }
        }
        assert(rw[k] == rewritten_seg(g, mode, false));
        lemma_skip_cons(rw, k);
        if p2 < t.len() {
            assert(rest_out.len() > 0);
            assert(k + 1 < segs.len());
            let h2 = segs[k + 1];
            assert(rest_out == seg_output(h2, mode, false) + emit_from(segs, mode, false, k + 2));
            match h2 {
                SegModel::PlainRun { text } => {
                    assert(seg_output(h2, mode, false) == text);
                    assert(text.len() > 0);
                    assert(rest_out[0] == text[0]);
                    assert(!is_quote_char(text[0]));
                },
                SegModel::EscapedChar { text } => {
                    assert(seg_output(h2, mode, false) == text);
                    assert(text.len() == 2 && text[0] == escape_marker());
                    assert(rest_out[0] == text[0]);
                },
                SegModel::Literal { .. } => {
                    lemma_literal_output_head(h2, mode, false);
                    assert(rest_out[0] == seg_output(h2, mode, false)[0]);
                },
            }
            assert(t[p2] == rest_out[0]);
        }
        match g {
            SegModel::PlainRun { text: c } => {
                assert(og == c);
                assert(c.len() > 0);
                if exists|m: int| 0 <= m < c.len() && #[trigger] c[m] == escape_marker() {
                    let m = choose|m: int|
                        0 <= m < c.len() && #[trigger] c[m] == escape_marker();
                    assert(k == segs.len() - 1);
                    assert(rest_out.len() == 0);
                }
                if p2 < t.len() {
                    assert(k + 1 < segs.len());
                    assert(!(segs[k + 1] is PlainRun));
                    match segs[k + 1] {
                        SegModel::PlainRun { .. } => {
                            assert(false);
                        },
                        SegModel::EscapedChar { .. } => {
                            assert(t[p2] == escape_marker());
                            assert(rest_out.len() >= 2);
                            assert(p2 + 1 < t.len());
                        },
                        SegModel::Literal { .. } => {
                            assert(is_quote_char(t[p2]));
                        },
                    }
                }
                assert(t.subrange(p, p2) =~= c);
                lemma_scan_head_plain(t, p, c);
                lemma_rescan(segs, mode, t, k + 1, p2);
                assert(rw[k] == g);
                assert(scan_from(t, p) == rw.skip(k));
            },
            SegModel::EscapedChar { text: c } => {
                assert(og == c);
                assert(c.len() == 2 && c[0] == escape_marker());
                assert(t[p] == c[0]);
                assert(p + 1 < t.len());
                lemma_scan_head_escaped(t, p);
                assert(t.subrange(p, p + 2) =~= c);
                lemma_rescan(segs, mode, t, k + 1, p2);
                assert(rw[k] == g);
                assert(scan_from(t, p) == rw.skip(k));
            },
            SegModel::Literal { style: st, content: c, closed } => {
                if closed {
                    let st2 = output_style(st, c, mode, false);
                    let d2 = delim_char(st2);
                    lemma_output_content_ok(st, c, mode);
                    lemma_delim_char_is_quote(st2);
                    assert(og == delim_seq(st2) + c + delim_seq(st2));
                    if !is_triple_style(st2) {
                        assert(delim_seq(st2) == seq![d2]);
                        assert(og.len() == c.len() + 2);
                        assert(t[p] == og[0] && og[0] == d2);
                        assert(t[p + c.len() as int + 1] == og[c.len() as int + 1] && og[c.len() as int + 1] == d2);
                        assert(t.subrange(p + 1, p + 1 + c.len()) =~= c) by {
                            assert forall|x: int| 0 <= x < c.len() implies t[p + 1 + x] == c[x] by {
                                assert(t[p + 1 + x] == og[1 + x]);
                                assert(og[1 + x] == c[x]);
                            }
                        }
                        if c.len() == 0 && p + 2 < t.len() {
                            assert(p2 == p + 2);
                            assert(k + 1 < segs.len());
                            assert(!(segs[k + 1] is Literal));
                            match segs[k + 1] {
                                SegModel::PlainRun { text } => {
                                    assert(!is_quote_char(t[p2]));
                                    assert(t[p + 2] != d2);
                                },
                                SegModel::EscapedChar { text } => {
                                    assert(t[p + 2] == escape_marker());
                                    assert(t[p + 2] != d2);
                                },
                                SegModel::Literal { .. } => {
                                    assert(false);
                                },
                            }
                        }
                        lemma_scan_head_single(t, d2, p, c);
                        assert(single_style_of(d2) == st2);
                        lemma_rescan(segs, mode, t, k + 1, p2);
                        assert(rw[k] == SegModel::Literal { style: st2, content: c, closed: true });
                        assert(scan_from(t, p) == rw.skip(k));
                    } else {
                        assert(delim_seq(st2) == seq![d2, d2, d2]);
                        assert(og.len() == c.len() + 6);
                        assert(t[p] == og[0] && og[0] == d2);
                        assert(t[p + 1] == og[1] && og[1] == d2);
                        assert(t[p + 2] == og[2] && og[2] == d2);
                        assert(t[p + c.len() as int + 3] == og[c.len() as int + 3] && og[c.len() as int + 3] == d2);
                        assert(t[p + c.len() as int + 4] == og[c.len() as int + 4] && og[c.len() as int + 4] == d2);
                        assert(t[p + c.len() as int + 5] == og[c.len() as int + 5] && og[c.len() as int + 5] == d2);
                        assert(t.subrange(p + 3, p + 3 + c.len()) =~= c) by {
                            assert forall|x: int| 0 <= x < c.len() implies t[p + 3 + x] == c[x] by {
                                assert(t[p + 3 + x] == og[3 + x]);
                                assert(og[3 + x] == c[x]);
                            }
                        }
                        lemma_scan_head_triple(t, d2, p, c);
                        assert(triple_style_of(d2) == st2);
                        lemma_rescan(segs, mode, t, k + 1, p2);
                        assert(rw[k] == SegModel::Literal { style: st2, content: c, closed: true });
                        assert(scan_from(t, p) == rw.skip(k));
                    }
                } else {
                    assert(k == segs.len() - 1);
                    assert(rest_out.len() == 0) by {
                        assert(emit_from(segs, mode, false, k + 1) == Seq::<char>::empty());
                    }
                    assert(p2 == t.len());
                    let q = delim_char(st);
                    lemma_delim_char_is_quote(st);
                    assert(og == delim_seq(st) + c);
                    if !is_triple_style(st) {
                        assert(delim_seq(st) == seq![q]);
                        assert(og.len() == c.len() + 1);
                        assert(t[p] == og[0] && og[0] == q);
                        assert(t.subrange(p + 1, t.len() as int) =~= c) by {
                            assert forall|x: int| 0 <= x < c.len() implies t[p + 1 + x] == c[x] by {
                                assert(t[p + 1 + x] == og[1 + x]);
                                assert(og[1 + x] == c[x]);
                            }
                        }
                        lemma_scan_head_single_unclosed(t, q, p, c);
                        assert(single_style_of(q) == st);
                        assert(rw[k] == g);
                        assert(rw.skip(k + 1) =~= Seq::<SegModel>::empty());
                        assert(scan_from(t, p) == rw.skip(k));
                    } else {
                        assert(delim_seq(st) == seq![q, q, q]);
                        assert(og.len() == c.len() + 3);
                        assert(t[p] == og[0] && og[0] == q);
                        assert(t[p + 1] == og[1] && og[1] == q);
                        assert(t[p + 2] == og[2] && og[2] == q);
                        assert(t.subrange(p + 3, t.len() as int) =~= c) by {
                            assert forall|x: int| 0 <= x < c.len() implies t[p + 3 + x] == c[x] by {
                                assert(t[p + 3 + x] == og[3 + x]);
                                assert(og[3 + x] == c[x]);
                            }
                        }
                        lemma_scan_head_triple_unclosed(t, q, p, c);
                        assert(triple_style_of(q) == st);
                        assert(rw[k] == g);
                        assert(rw.skip(k + 1) =~= Seq::<SegModel>::empty());
                        assert(scan_from(t, p) == rw.skip(k));
                    }
                }
            },
        }
    }
}

/// Plain text passes through: input with no quote character and no escape
/// marker comes back exactly as it went in, whatever the mode and whatever
/// the conflict override.
pub proof fn lemma_plain_text_unchanged(
    t: Seq<char>,
    mode: ConversionMode,
    conflict_override: bool,
)
    requires
        forall|m: int|
            0 <= m < t.len() ==> !is_quote_char(#[trigger] t[m]) && t[m] != escape_marker(),
    ensures
        transform_spec(t, mode, conflict_override) == t,
{
    let segs = scan_from(t, 0);
    if t.len() == 0 {
        assert(segs =~= Seq::<SegModel>::empty());
        assert(transform_spec(t, mode, conflict_override) =~= t);
    } else {
        let c = t.subrange(0, t.len() as int);
        assert forall|m: int| 0 <= m < c.len() implies !is_quote_char(#[trigger] c[m]) by {
            assert(c[m] == t[m]);
        }
        assert forall|m: int|
            0 <= m < c.len() && #[trigger] c[m] == escape_marker() implies m == c.len() - 1 && 0
            + c.len() == t.len() by {
            assert(c[m] == t[m]);
        }
        lemma_scan_head_plain(t, 0, c);
        let g = SegModel::PlainRun { text: c };
        assert(scan_from(t, c.len() as int) =~= Seq::<SegModel>::empty());
        assert(seq![g] + Seq::<SegModel>::empty() =~= seq![g]);
        assert(segs == seq![g]);
        assert(emit_from(segs, mode, conflict_override, 1) == Seq::<char>::empty());
        assert(emit_from(segs, mode, conflict_override, 0) == seg_output(
            segs[0],
            mode,
            conflict_override,
        ) + emit_from(segs, mode, conflict_override, 1));
        assert(transform_spec(t, mode, conflict_override) =~= c);
        assert(c =~= t);
    }
}

/// A second pass of `ToSingle` leaves a once-rewritten segment's output
/// unchanged: what came out is single-style, suppressed with its conflict
/// intact, or unterminated.
proof fn lemma_second_pass_same(seg: SegModel)
    ensures
        seg_output(
            rewritten_seg(seg, ConversionMode::ToSingle, false),
            ConversionMode::ToSingle,
            false,
        ) == seg_output(seg, ConversionMode::ToSingle, false),
{
    let mode = ConversionMode::ToSingle;
    match seg {
        SegModel::Literal { style, content, closed } => {
            if closed {
                let st2 = output_style(style, content, mode, false);
                if converts(style, content, mode, false) {
                    assert(st2 == target_style(style, mode));
                    assert(target_style(st2, mode) == st2);
                    assert(!converts(st2, content, mode, false));
                    assert(output_style(st2, content, mode, false) == st2);
                } else {
                    assert(st2 == style);
                    assert(rewritten_seg(seg, mode, false) == seg);
                }
            }
        },
        _ => {},
    }
}

/// Converting to single quotes is idempotent: with no conflict override, a
/// second `ToSingle` pass returns the first pass's output exactly.
pub proof fn lemma_to_single_idempotent(t: Seq<char>)
    requires
        no_merge(scan_from(t, 0)),
    ensures
        transform_spec(
            transform_spec(t, ConversionMode::ToSingle, false),
            ConversionMode::ToSingle,
            false,
        ) == transform_spec(t, ConversionMode::ToSingle, false),
{
    let mode = ConversionMode::ToSingle;
    let segs = scan_from(t, 0);
    lemma_scan_wf(t, 0);
    let o = emit_from(segs, mode, false, 0);
    assert(o.subrange(0, o.len() as int) =~= o);
    lemma_rescan(segs, mode, o, 0, 0);
    let rw = rewritten_segs(segs, mode, false);
    assert(rw.skip(0) =~= rw);
    assert(scan_from(o, 0) == rw);
    assert(rw.len() == segs.len());
    assert forall|j: int|
        0 <= j < rw.len() implies seg_output(#[trigger] rw[j], mode, false) == seg_output(
        segs[j],
        mode,
        false,
    ) by {
        assert(rw[j] == rewritten_seg(segs[j], mode, false));
        lemma_second_pass_same(segs[j]);
    }
    lemma_emit_pointwise(rw, segs, mode, false, 0);
    assert(transform_spec(o, mode, false) == emit_from(rw, mode, false, 0));
}

/// A literal the round trip law speaks of: closed, single-style, and with a
/// content free of both quote characters, unescaped for a one-character
/// literal and outright for a triple one.
pub open spec fn round_trippable(seg: SegModel) -> bool {
    match seg {
        SegModel::Literal { style, content, closed } => {
            &&& closed
            &&& (!is_triple_style(style) ==> style == QuoteStyle::Single && !has_unescaped_from(
                content,
                '\'',
                0,
            ) && !has_unescaped_from(content, '"', 0))
            &&& (is_triple_style(style) ==> style == QuoteStyle::TripleSingle && !content.contains(
                '\'',
            ) && !content.contains('"'))
        },
        _ => true,
    }
}

/// Round trip: when every literal is round-trippable and no empty literal
/// stands directly before another literal, converting to double quotes and
/// then back to single quotes restores the input exactly.
pub proof fn lemma_round_trip(t: Seq<char>)
    requires
        forall|k: int|
            0 <= k < scan_from(t, 0).len() ==> round_trippable(#[trigger] scan_from(t, 0)[k]),
        no_merge(scan_from(t, 0)),
    ensures
        transform_spec(
            transform_spec(t, ConversionMode::ToDouble, false),
            ConversionMode::ToSingle,
            false,
        ) == t,
{
    let md = ConversionMode::ToDouble;
    let ms = ConversionMode::ToSingle;
    let segs = scan_from(t, 0);
    lemma_scan_wf(t, 0);
    lemma_scan_lossless(t, 0);
    let o = emit_from(segs, md, false, 0);
    assert(o.subrange(0, o.len() as int) =~= o);
    lemma_rescan(segs, md, o, 0, 0);
    let rw = rewritten_segs(segs, md, false);
    assert(rw.skip(0) =~= rw);
    assert(scan_from(o, 0) == rw);
    assert(rw.len() == segs.len());
    assert forall|j: int|
        0 <= j < rw.len() implies seg_output(#[trigger] rw[j], ms, false) == seg_span(segs[j]) by {
        assert(rw[j] == rewritten_seg(segs[j], md, false));
        assert(round_trippable(segs[j]));
        match segs[j] {
            SegModel::Literal { style, content, closed } => {
                if !is_triple_style(style) {
                    assert(style == QuoteStyle::Single);
                    assert(target_style(style, md) == QuoteStyle::Double);
                    assert(delim_char(QuoteStyle::Double) == '"');
                    assert(converts(style, content, md, false));
                    let g2 = SegModel::Literal {
                        style: QuoteStyle::Double,
                        content,
                        closed: true,
                    };
                    assert(rw[j] == g2);
                    assert(target_style(QuoteStyle::Double, ms) == QuoteStyle::Single);
                    assert(delim_char(QuoteStyle::Single) == '\'');
                    assert(converts(QuoteStyle::Double, content, ms, false));
                    assert(seg_output(g2, ms, false) == lit_span(QuoteStyle::Single, content, true));
                    assert(seg_span(segs[j]) == lit_span(QuoteStyle::Single, content, true));
                } else {
                    assert(style == QuoteStyle::TripleSingle);
                    assert(target_style(style, md) == QuoteStyle::TripleDouble);
                    assert(delim_char(QuoteStyle::TripleDouble) == '"');
                    assert(converts(style, content, md, false));
                    let g2 = SegModel::Literal {
                        style: QuoteStyle::TripleDouble,
                        content,
                        closed: true,
                    };
                    assert(rw[j] == g2);
                    assert(target_style(QuoteStyle::TripleDouble, ms) == QuoteStyle::TripleSingle);
                    assert(delim_char(QuoteStyle::TripleSingle) == '\'');
                    assert(converts(QuoteStyle::TripleDouble, content, ms, false));
                    assert(seg_output(g2, ms, false) == lit_span(
                        QuoteStyle::TripleSingle,
                        content,
                        true,
                    ));
                    assert(seg_span(segs[j]) == lit_span(QuoteStyle::TripleSingle, content, true));
                }
            },
            _ => {},
        }
    }
    lemma_emit_is_spans(rw, segs, ms, false, 0);
    assert(transform_spec(o, ms, false) == spans_from(segs, 0));
    assert(t.subrange(0, t.len() as int) =~= t);
}

/// Conflict suppression re-emits the literal byte-identically: when the
/// policy blocks a conversion, the output is exactly the original span,
/// delimiters and content untouched.
pub proof fn lemma_suppression_is_identity(
    style: QuoteStyle,
    content: Seq<char>,
    mode: ConversionMode,
)
    requires
        crate::segment::suppressed(style, content, mode, false),
    ensures
        crate::segment::lit_output(style, content, mode, false) == lit_span(style, content, true),
{
}

/// An unterminated literal passes through verbatim: the emitter hands its
/// original span on unchanged, whatever the mode and the override.
pub proof fn lemma_unterminated_passthrough(
    style: QuoteStyle,
    content: Seq<char>,
    mode: ConversionMode,
    conflict_override: bool,
)
    ensures
        seg_output(
            SegModel::Literal { style, content, closed: false },
            mode,
            conflict_override,
        ) == seg_span(SegModel::Literal { style, content, closed: false }),
{
}

} // verus!
