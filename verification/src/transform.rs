//! The rewriter and the emitter. `transform` scans the text, rewrites each
//! closed literal according to the conversion mode and the conflict policy,
//! passes everything else through verbatim, and reports unterminated
//! literals and suppressed conversions as structured diagnostics.

use vstd::prelude::*;

use crate::scan::lemma_scan_lossless;
use crate::scan::scan_from;
use crate::scan::scan_segments;
use crate::scan::spans_from;
use crate::segment::ConversionMode;
use crate::segment::DiagModel;
use crate::segment::Diagnostic;
use crate::segment::QuoteStyle;
use crate::segment::SegModel;
use crate::segment::Segment;
use crate::segment::conflict_with;
use crate::segment::delim_seq;
use crate::segment::diag_views;
use crate::segment::has_unescaped_from;
use crate::segment::lit_output;
use crate::segment::lit_span;
use crate::segment::seg_output;
use crate::segment::seg_span;
use crate::segment::seg_views;
use crate::segment::suppressed;
use crate::segment::target_style_of;

verus! {

/// The output text of the segments `segs[k..]`, concatenated in order.
pub open spec fn emit_from(
    segs: Seq<SegModel>,
    mode: ConversionMode,
    conflict_override: bool,
    k: int,
) -> Seq<char>
    decreases segs.len() - k,
{
    if k < 0 || k >= segs.len() {
        Seq::empty()
    } else {
        seg_output(segs[k], mode, conflict_override) + emit_from(
            segs,
            mode,
            conflict_override,
            k + 1,
        )
    }
}

/// The diagnostics one segment contributes, given its start position: one
/// entry when it is an unterminated literal, one when its conversion was
/// suppressed, none otherwise.
pub open spec fn seg_diags(
    seg: SegModel,
    mode: ConversionMode,
    conflict_override: bool,
    pos: int,
) -> Seq<DiagModel> {
    match seg {
        SegModel::Literal { style, content, closed } => {
            if !closed {
                seq![DiagModel::UnterminatedLiteral { style, start: pos }]
            } else if suppressed(style, content, mode, conflict_override) {
                seq![DiagModel::ConflictSuppressed { style, start: pos }]
            } else {
                Seq::empty()
            }
        },
        _ => Seq::empty(),
    }
}

/// The diagnostics of the segments `segs[k..]`, where segment `k` starts at
/// input position `pos`, in source order.
pub open spec fn diags_from(
    segs: Seq<SegModel>,
    mode: ConversionMode,
    conflict_override: bool,
    k: int,
    pos: int,
) -> Seq<DiagModel>
    decreases segs.len() - k,
{
    if k < 0 || k >= segs.len() {
        Seq::empty()
    } else {
        seg_diags(segs[k], mode, conflict_override, pos) + diags_from(
            segs,
            mode,
            conflict_override,
            k + 1,
            pos + seg_span(segs[k]).len(),
        )
    }
}

/// What `transform` returns as text for a given input.
pub open spec fn transform_spec(t: Seq<char>, mode: ConversionMode, conflict_override: bool) -> Seq<
    char,
> {
    emit_from(scan_from(t, 0), mode, conflict_override, 0)
}

/// What `transform` reports as diagnostics for a given input.
pub open spec fn transform_diags(
    t: Seq<char>,
    mode: ConversionMode,
    conflict_override: bool,
) -> Seq<DiagModel> {
    diags_from(scan_from(t, 0), mode, conflict_override, 0, 0)
}

/// Appends all of `src` to `out`.
fn push_all(out: &mut Vec<char>, src: &Vec<char>)
    ensures
        final(out)@ == old(out)@ + src@,
{
    let mut k: usize = 0;
    while k < src.len()
        invariant
            k <= src.len(),
            out@ == old(out)@ + src@.subrange(0, k as int),
        decreases src.len() - k,
    {
        out.push(src[k]);
        assert(out@ =~= old(out)@ + src@.subrange(0, (k + 1) as int));
        k = k + 1;
    }
    assert(out@ =~= old(out)@ + src@);
}

/// Appends a style's delimiter to `out`.
fn push_delim(out: &mut Vec<char>, style: QuoteStyle)
    ensures
        final(out)@ == old(out)@ + delim_seq(style),
{
    let d = crate::segment::delim_char_of(style);
    if crate::segment::is_triple(style) {
        out.push(d);
        out.push(d);
        out.push(d);
        assert(out@ =~= old(out)@ + delim_seq(style));
    } else {
        out.push(d);
        assert(out@ =~= old(out)@ + delim_seq(style));
    }
}

/// Whether `content` holds `q` at a position the escape-pair walk does not
/// protect.
fn has_unescaped(content: &Vec<char>, q: char) -> (r: bool)
    ensures
        r == has_unescaped_from(content@, q, 0),
{
    let mut k: usize = 0;
    while k < content.len()
        invariant
            k <= content.len(),
            has_unescaped_from(content@, q, 0) == has_unescaped_from(content@, q, k as int),
        decreases content.len() - k,
    {
        let c = content[k];
        if c == '\\' {
            if k + 1 < content.len() {
                k = k + 2;
            } else {
                return false;
            }
        } else if c == q {
            return true;
        } else {
            k = k + 1;
        }
    }
    false
}

/// Whether `content` holds `q` anywhere at all.
fn contains_char(content: &Vec<char>, q: char) -> (r: bool)
    ensures
        r == content@.contains(q),
{
    let mut k: usize = 0;
    while k < content.len()
        invariant
            k <= content.len(),
            forall|m: int| 0 <= m < k ==> content@[m] != q,
        decreases content.len() - k,
    {
        if content[k] == q {
            return true;
        }
        k = k + 1;
    }
    false
}

/// Whether converting this literal so that `d` becomes its delimiter would
/// collide with the content: escape-aware for one-character literals, a
/// plain occurrence check for triple literals.
fn conflicts(style: QuoteStyle, content: &Vec<char>, d: char) -> (r: bool)
    ensures
        r == conflict_with(style, content@, d),
{
    if crate::segment::is_triple(style) {
        contains_char(content, d)
    } else {
        has_unescaped(content, d)
    }
}

/// Rewrites one closed literal: the replacement text, and whether a wanted
/// conversion was suppressed by the conflict policy.
pub fn emit_literal(
    style: QuoteStyle,
    content: &Vec<char>,
    mode: ConversionMode,
    conflict_override: bool,
) -> (r: (Vec<char>, bool))
    ensures
        r.0@ == lit_output(style, content@, mode, conflict_override),
        r.1 == suppressed(style, content@, mode, conflict_override),
{
    let tgt = target_style_of(style, mode);
    let mut was_suppressed = false;
    let out_style = if tgt == style {
        style
    } else {
        let d = crate::segment::delim_char_of(tgt);
        if !conflict_override && conflicts(style, content, d) {
            was_suppressed = true;
            style
        } else {
            tgt
        }
    };
    let mut out: Vec<char> = Vec::new();
    push_delim(&mut out, out_style);
    push_all(&mut out, content);
    push_delim(&mut out, out_style);
    assert(out@ =~= lit_span(out_style, content@, true));
    (out, was_suppressed)
}

/// The exact length of a segment's original span, for position bookkeeping.
fn seg_span_len(seg: &Segment) -> (r: usize)
    requires
        seg_span(seg@).len() <= usize::MAX,
    ensures
        r as int == seg_span(seg@).len(),
{
    match seg {
        Segment::PlainRun { text } => text.len(),
        Segment::EscapedChar { marker: _, ch: _ } => 2,
        Segment::Literal { style, content, closed } => {
            let dl: usize = if crate::segment::is_triple(*style) {
                3
            } else {
                1
            };
            assert(delim_seq(*style).len() == dl);
            if *closed {
                assert(seg_span(seg@).len() == content@.len() + dl + dl);
                content.len() + dl + dl
            } else {
                assert(seg_span(seg@).len() == content@.len() + dl);
                content.len() + dl
            }
        },
    }
}

/// One emitter step: putting the output of segment `k` after what was
/// already emitted keeps the running concatenation equal to the whole.
proof fn lemma_emit_step(
    before: Seq<char>,
    gs: Seq<SegModel>,
    mode: ConversionMode,
    conflict_override: bool,
    k: int,
)
    requires
        0 <= k < gs.len(),
        before + emit_from(gs, mode, conflict_override, k) == emit_from(
            gs,
            mode,
            conflict_override,
            0,
        ),
    ensures
        (before + seg_output(gs[k], mode, conflict_override)) + emit_from(
            gs,
            mode,
            conflict_override,
            k + 1,
        ) == emit_from(gs, mode, conflict_override, 0),
{
    assert((before + seg_output(gs[k], mode, conflict_override)) + emit_from(
        gs,
        mode,
        conflict_override,
        k + 1,
    ) =~= before + (seg_output(gs[k], mode, conflict_override) + emit_from(
        gs,
        mode,
        conflict_override,
        k + 1,
    )));
}

/// One diagnostics step, in the same shape.
proof fn lemma_diag_step(
    before: Seq<DiagModel>,
    gs: Seq<SegModel>,
    mode: ConversionMode,
    conflict_override: bool,
    k: int,
    pos: int,
)
    requires
        0 <= k < gs.len(),
        before + diags_from(gs, mode, conflict_override, k, pos) == diags_from(
            gs,
            mode,
            conflict_override,
            0,
            0,
        ),
    ensures
        (before + seg_diags(gs[k], mode, conflict_override, pos)) + diags_from(
            gs,
            mode,
            conflict_override,
            k + 1,
            pos + seg_span(gs[k]).len(),
        ) == diags_from(gs, mode, conflict_override, 0, 0),
{
    assert((before + seg_diags(gs[k], mode, conflict_override, pos)) + diags_from(
        gs,
        mode,
        conflict_override,
        k + 1,
        pos + seg_span(gs[k]).len(),
    ) =~= before + (seg_diags(gs[k], mode, conflict_override, pos) + diags_from(
        gs,
        mode,
        conflict_override,
        k + 1,
        pos + seg_span(gs[k]).len(),
    )));
}

proof fn lemma_diag_views_push(ds: Seq<Diagnostic>, d: Diagnostic)
    ensures
        diag_views(ds.push(d)) == diag_views(ds) + seq![d@],
{
    assert(diag_views(ds.push(d)) =~= diag_views(ds) + seq![d@]);
}

/// Rewrites quote styles throughout `text`: every closed literal goes
/// through the rewriter, everything else passes through unchanged. Returns
/// the output text together with the diagnostics, in source order: one
/// `UnterminatedLiteral` per literal still open at end of input (its span
/// passes through verbatim) and one `ConflictSuppressed` per conversion the
/// conflict policy blocked. Total: every finite input yields an output.
pub fn transform(text: &Vec<char>, mode: ConversionMode, conflict_override: bool) -> (r: (
    Vec<char>,
    Vec<Diagnostic>,
))
    ensures
        r.0@ == transform_spec(text@, mode, conflict_override),
        diag_views(r.1@) == transform_diags(text@, mode, conflict_override),
{
    let segs = scan_segments(text);
    let input_len = text.len();
    let ghost gs = seg_views(segs@);
    proof {
        lemma_scan_lossless(text@, 0);
        assert(text@.subrange(0, text@.len() as int) =~= text@);
    }
    let mut out: Vec<char> = Vec::new();
    let mut diags: Vec<Diagnostic> = Vec::new();
    let mut pos: usize = 0;
    let mut k: usize = 0;
    while k < segs.len()
        invariant
            k <= segs.len(),
            input_len == text@.len(),
            gs == seg_views(segs@),
            gs == scan_from(text@, 0),
            pos as int + spans_from(gs, k as int).len() == text@.len(),
            out@ + emit_from(gs, mode, conflict_override, k as int) == emit_from(
                gs,
                mode,
                conflict_override,
                0,
            ),
            diag_views(diags@) + diags_from(gs, mode, conflict_override, k as int, pos as int)
                == diags_from(gs, mode, conflict_override, 0, 0),
        decreases segs.len() - k,
    {
        let ghost k0 = k as int;
        let ghost pos0 = pos as int;
        let ghost out0 = out@;
        let ghost diags0 = diag_views(diags@);
        assert(gs[k0] == segs@[k0]@);
        assert(spans_from(gs, k0) == seg_span(gs[k0]) + spans_from(gs, k0 + 1));
        let seg = &segs[k];
        assert(seg@ == gs[k0]);
        let sl = seg_span_len(seg);
        match seg {
            Segment::PlainRun { text: run } => {
                push_all(&mut out, run);
                assert(out@ == out0 + seg_output(gs[k0], mode, conflict_override));
                assert(diag_views(diags@) =~= diags0 + seg_diags(
                    gs[k0],
                    mode,
                    conflict_override,
                    pos0,
                ));
            },
            Segment::EscapedChar { marker, ch } => {
                out.push(*marker);
                out.push(*ch);
                assert(out@ =~= out0 + seg_output(gs[k0], mode, conflict_override));
                assert(diag_views(diags@) =~= diags0 + seg_diags(
                    gs[k0],
                    mode,
                    conflict_override,
                    pos0,
                ));
            },
            Segment::Literal { style, content, closed } => {
                if *closed {
                    let (piece, was_suppressed) = emit_literal(
                        *style,
                        content,
                        mode,
                        conflict_override,
                    );
                    push_all(&mut out, &piece);
                    assert(out@ == out0 + seg_output(gs[k0], mode, conflict_override));
                    if was_suppressed {
                        let d = Diagnostic::ConflictSuppressed { style: *style, start: pos };
                        proof {
                            lemma_diag_views_push(diags@, d);
                        }
                        diags.push(d);
                        assert(seq![d@] =~= seg_diags(gs[k0], mode, conflict_override, pos0));
                    } else {
                        assert(diag_views(diags@) =~= diags0 + seg_diags(
                            gs[k0],
                            mode,
                            conflict_override,
                            pos0,
                        ));
                    }
                } else {
                    push_delim(&mut out, *style);
                    push_all(&mut out, content);
                    assert(out@ =~= out0 + seg_output(gs[k0], mode, conflict_override));
                    let d = Diagnostic::UnterminatedLiteral { style: *style, start: pos };
                    proof {
                        lemma_diag_views_push(diags@, d);
                    }
                    diags.push(d);
                    assert(seq![d@] =~= seg_diags(gs[k0], mode, conflict_override, pos0));
                }
            },
        }
        assert(diag_views(diags@) == diags0 + seg_diags(gs[k0], mode, conflict_override, pos0));
        proof {
            lemma_emit_step(out0, gs, mode, conflict_override, k0);
            lemma_diag_step(diags0, gs, mode, conflict_override, k0, pos0);
        }
        pos = pos + sl;
        k = k + 1;
    }
    assert(emit_from(gs, mode, conflict_override, k as int) == Seq::<char>::empty());
    assert(out@ =~= out@ + emit_from(gs, mode, conflict_override, k as int));
    assert(diags_from(gs, mode, conflict_override, k as int, pos as int) == Seq::<
        DiagModel,
    >::empty());
    assert(diag_views(diags@) =~= diag_views(diags@) + diags_from(
        gs,
        mode,
        conflict_override,
        k as int,
        pos as int,
    ));
    (out, diags)
}

} // verus!
