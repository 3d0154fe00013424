//! The data model: quote styles, conversion modes, segments and diagnostics,
//! together with the spec-level functions that say what a literal's original
//! span looks like and how the rewriter chooses an output delimiter.

use vstd::prelude::*;

verus! {

/// The four delimiter styles a quoted literal can have.
#[derive(Clone, Copy, Debug, PartialEq, Eq, Structural)]
pub enum QuoteStyle {
    Single,
    Double,
    TripleSingle,
    TripleDouble,
}

/// The caller-selected direction of quote-style rewriting.
#[derive(Clone, Copy, Debug, PartialEq, Eq, Structural)]
pub enum ConversionMode {
    ToSingle,
    ToDouble,
    Toggle,
}

/// One piece of the lossless partition of the input text.
#[derive(Clone, Debug, PartialEq, Eq)]
pub enum Segment {
    /// A run of characters that open no literal and start no escape pair.
    PlainRun { text: Vec<char> },
    /// An escape marker together with the single character it protects.
    EscapedChar { marker: char, ch: char },
    /// A quoted run: its style, the raw characters between the delimiters,
    /// and whether a matching closing delimiter was found.
    Literal { style: QuoteStyle, content: Vec<char>, closed: bool },
}

/// The mathematical counterpart of `Segment`, over `Seq<char>`. An escape
/// pair appears as its two-character text, marker first.
pub enum SegModel {
    PlainRun { text: Seq<char> },
    EscapedChar { text: Seq<char> },
    Literal { style: QuoteStyle, content: Seq<char>, closed: bool },
}

impl View for Segment {
    type V = SegModel;

    open spec fn view(&self) -> SegModel {
        match self {
            Segment::PlainRun { text } => SegModel::PlainRun { text: text@ },
            Segment::EscapedChar { marker, ch } => SegModel::EscapedChar {
                text: seq![*marker, *ch],
            },
            Segment::Literal { style, content, closed } => SegModel::Literal {
                style: *style,
                content: content@,
                closed: *closed,
            },
        }
    }
}

/// The view of a whole segment vector.
pub open spec fn seg_views(segs: Seq<Segment>) -> Seq<SegModel> {
    segs.map_values(|g: Segment| g@)
}

/// A non-fatal condition reported alongside the transformed text.
#[derive(Clone, Copy, Debug, PartialEq, Eq)]
pub enum Diagnostic {
    /// The scanner reached end of input inside an open literal starting here.
    UnterminatedLiteral { style: QuoteStyle, start: usize },
    /// A conversion was skipped because the content holds the target
    /// delimiter unescaped; the literal starting here was left unchanged.
    ConflictSuppressed { style: QuoteStyle, start: usize },
}

/// The mathematical counterpart of `Diagnostic`, with an unbounded position.
pub enum DiagModel {
    UnterminatedLiteral { style: QuoteStyle, start: int },
    ConflictSuppressed { style: QuoteStyle, start: int },
}

impl View for Diagnostic {
    type V = DiagModel;

    open spec fn view(&self) -> DiagModel {
        match self {
            Diagnostic::UnterminatedLiteral { style, start } => DiagModel::UnterminatedLiteral {
                style: *style,
                start: *start as int,
            },
            Diagnostic::ConflictSuppressed { style, start } => DiagModel::ConflictSuppressed {
                style: *style,
                start: *start as int,
            },
        }
    }
}

/// The view of a whole diagnostic vector.
pub open spec fn diag_views(ds: Seq<Diagnostic>) -> Seq<DiagModel> {
    ds.map_values(|d: Diagnostic| d@)
}

/// The escape marker: the character that protects the one that follows it.
pub open spec fn escape_marker() -> char {
    '\\'
}

/// Whether a character can open or close a literal.
pub open spec fn is_quote_char(c: char) -> bool {
    c == '\'' || c == '"'
}

/// Whether a style uses a three-character delimiter.
pub open spec fn is_triple_style(style: QuoteStyle) -> bool {
    match style {
        QuoteStyle::TripleSingle => true,
        QuoteStyle::TripleDouble => true,
        QuoteStyle::Single => false,
        QuoteStyle::Double => false,
    }
}

/// The quote character a style is built from.
pub open spec fn delim_char(style: QuoteStyle) -> char {
    match style {
        QuoteStyle::Single => '\'',
        QuoteStyle::TripleSingle => '\'',
        QuoteStyle::Double => '"',
        QuoteStyle::TripleDouble => '"',
    }
}

/// The one-character style built from a quote character.
pub open spec fn single_style_of(q: char) -> QuoteStyle {
    if q == '\'' {
        QuoteStyle::Single
    } else {
        QuoteStyle::Double
    }
}

/// The three-character style built from a quote character.
pub open spec fn triple_style_of(q: char) -> QuoteStyle {
    if q == '\'' {
        QuoteStyle::TripleSingle
    } else {
        QuoteStyle::TripleDouble
    }
}

/// A style's delimiter as a character sequence.
pub open spec fn delim_seq(style: QuoteStyle) -> Seq<char> {
    if is_triple_style(style) {
        seq![delim_char(style), delim_char(style), delim_char(style)]
    } else {
        seq![delim_char(style)]
    }
}

/// The original span of a literal: both delimiters when it closed, only the
/// opening one when the scanner ran out of input.
pub open spec fn lit_span(style: QuoteStyle, content: Seq<char>, closed: bool) -> Seq<char> {
    if closed {
        delim_seq(style) + content + delim_seq(style)
    } else {
        delim_seq(style) + content
    }
}

/// The original span of any segment. Concatenating these in order gives the
/// input back exactly.
pub open spec fn seg_span(seg: SegModel) -> Seq<char> {
    match seg {
        SegModel::PlainRun { text } => text,
        SegModel::EscapedChar { text } => text,
        SegModel::Literal { style, content, closed } => lit_span(style, content, closed),
    }
}

/// The style a literal is rewritten towards under a mode, before the
/// conflict check. Triple styles stay triple, one-character styles stay
/// one-character; `Toggle` flips the quote character of whatever is there.
pub open spec fn target_style(style: QuoteStyle, mode: ConversionMode) -> QuoteStyle {
    match mode {
        ConversionMode::ToSingle => match style {
            QuoteStyle::Single => QuoteStyle::Single,
            QuoteStyle::Double => QuoteStyle::Single,
            QuoteStyle::TripleSingle => QuoteStyle::TripleSingle,
            QuoteStyle::TripleDouble => QuoteStyle::TripleSingle,
        },
        ConversionMode::ToDouble => match style {
            QuoteStyle::Single => QuoteStyle::Double,
            QuoteStyle::Double => QuoteStyle::Double,
            QuoteStyle::TripleSingle => QuoteStyle::TripleDouble,
            QuoteStyle::TripleDouble => QuoteStyle::TripleDouble,
        },
        ConversionMode::Toggle => match style {
            QuoteStyle::Single => QuoteStyle::Double,
            QuoteStyle::Double => QuoteStyle::Single,
            QuoteStyle::TripleSingle => QuoteStyle::TripleDouble,
            QuoteStyle::TripleDouble => QuoteStyle::TripleSingle,
        },
    }
}

/// Whether the content holds `q` at a position the escape-pair walk does not
/// protect. The walk is the same one the scanner uses inside one-character
/// literals: a marker and the character after it are skipped as a unit.
pub open spec fn has_unescaped_from(c: Seq<char>, q: char, i: int) -> bool
    decreases c.len() - i,
{
    if i >= c.len() {
        false
    } else if c[i] == escape_marker() {
        if i + 1 < c.len() {
            has_unescaped_from(c, q, i + 2)
        } else {
            false
        }
    } else if c[i] == q {
        true
    } else {
        has_unescaped_from(c, q, i + 1)
    }
}

/// The conflict policy: converting a literal of this style so that `d`
/// becomes its delimiter is unsafe when the content would collide with `d`.
/// One-character literals are escape-aware; triple literals are not, so any
/// occurrence of `d` at all blocks them.
pub open spec fn conflict_with(style: QuoteStyle, content: Seq<char>, d: char) -> bool {
    if is_triple_style(style) {
        content.contains(d)
    } else {
        has_unescaped_from(content, d, 0)
    }
}

/// Whether a closed literal actually changes delimiters under the mode.
pub open spec fn converts(
    style: QuoteStyle,
    content: Seq<char>,
    mode: ConversionMode,
    conflict_override: bool,
) -> bool {
    &&& target_style(style, mode) != style
    &&& (conflict_override || !conflict_with(style, content, delim_char(target_style(style, mode))))
}

/// Whether a conversion was wanted but the conflict policy blocked it.
pub open spec fn suppressed(
    style: QuoteStyle,
    content: Seq<char>,
    mode: ConversionMode,
    conflict_override: bool,
) -> bool {
    &&& target_style(style, mode) != style
    &&& !conflict_override
    &&& conflict_with(style, content, delim_char(target_style(style, mode)))
}

/// The style a closed literal carries on output.
pub open spec fn output_style(
    style: QuoteStyle,
    content: Seq<char>,
    mode: ConversionMode,
    conflict_override: bool,
) -> QuoteStyle {
    if converts(style, content, mode, conflict_override) {
        target_style(style, mode)
    } else {
        style
    }
}

/// The replacement text of a closed literal: the output delimiters around
/// the content copied verbatim. When nothing converts this is exactly the
/// original span.
pub open spec fn lit_output(
    style: QuoteStyle,
    content: Seq<char>,
    mode: ConversionMode,
    conflict_override: bool,
) -> Seq<char> {
    lit_span(output_style(style, content, mode, conflict_override), content, true)
}

/// What one segment contributes to the output text. Plain runs and escape
/// pairs pass through; unterminated literals pass through as well, so the
/// transform stays total; closed literals go through the rewriter.
pub open spec fn seg_output(seg: SegModel, mode: ConversionMode, conflict_override: bool) -> Seq<
    char,
> {
    match seg {
        SegModel::PlainRun { text } => text,
        SegModel::EscapedChar { text } => text,
        SegModel::Literal { style, content, closed } => {
            if closed {
                lit_output(style, content, mode, conflict_override)
            } else {
                lit_span(style, content, false)
            }
        },
    }
}

/// Executable counterpart of `target_style`.
pub fn target_style_of(style: QuoteStyle, mode: ConversionMode) -> (r: QuoteStyle)
    ensures
        r == target_style(style, mode),
{
    match mode {
        ConversionMode::ToSingle => match style {
            QuoteStyle::Single => QuoteStyle::Single,
            QuoteStyle::Double => QuoteStyle::Single,
            QuoteStyle::TripleSingle => QuoteStyle::TripleSingle,
            QuoteStyle::TripleDouble => QuoteStyle::TripleSingle,
        },
        ConversionMode::ToDouble => match style {
            QuoteStyle::Single => QuoteStyle::Double,
            QuoteStyle::Double => QuoteStyle::Double,
            QuoteStyle::TripleSingle => QuoteStyle::TripleDouble,
            QuoteStyle::TripleDouble => QuoteStyle::TripleDouble,
        },
        ConversionMode::Toggle => match style {
            QuoteStyle::Single => QuoteStyle::Double,
            QuoteStyle::Double => QuoteStyle::Single,
            QuoteStyle::TripleSingle => QuoteStyle::TripleDouble,
            QuoteStyle::TripleDouble => QuoteStyle::TripleSingle,
        },
    }
}

/// Executable counterpart of `delim_char`.
pub fn delim_char_of(style: QuoteStyle) -> (c: char)
    ensures
        c == delim_char(style),
{
    match style {
        QuoteStyle::Single => '\'',
        QuoteStyle::TripleSingle => '\'',
        QuoteStyle::Double => '"',
        QuoteStyle::TripleDouble => '"',
    }
}

/// Executable counterpart of `is_triple_style`.
pub fn is_triple(style: QuoteStyle) -> (r: bool)
    ensures
        r == is_triple_style(style),
{
    match style {
        QuoteStyle::TripleSingle => true,
        QuoteStyle::TripleDouble => true,
        QuoteStyle::Single => false,
        QuoteStyle::Double => false,
    }
}

} // verus!
