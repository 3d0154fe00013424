use requote::scan::scan_segments;
use requote::segment::ConversionMode;
use requote::segment::QuoteStyle;
use requote::segment::Segment;
use requote::transform::emit_literal;

fn scan(input: &str) -> Vec<Segment> {
    let chars: Vec<char> = input.chars().collect();
    scan_segments(&chars)
}

fn chars_of(s: &str) -> Vec<char> {
    s.chars().collect()
}

#[test]
fn scan_partitions_mixed_text() {
    let segs = scan("a 'b' c");
    assert_eq!(
        segs,
        vec![
            Segment::PlainRun { text: chars_of("a ") },
            Segment::Literal {
                style: QuoteStyle::Single,
                content: chars_of("b"),
                closed: true,
            },
            Segment::PlainRun { text: chars_of(" c") },
        ]
    );
}

#[test]
fn scan_triple_before_single() {
    let segs = scan("'''ab'''");
    assert_eq!(
        segs,
        vec![Segment::Literal {
            style: QuoteStyle::TripleSingle,
            content: chars_of("ab"),
            closed: true,
        }]
    );
}

#[test]
fn scan_escape_pair_outside_literal() {
    let segs = scan("x\\'y");
    assert_eq!(
        segs,
        vec![
            Segment::PlainRun { text: chars_of("x") },
            Segment::EscapedChar { marker: '\\', ch: '\'' },
            Segment::PlainRun { text: chars_of("y") },
        ]
    );
}

#[test]
fn scan_unterminated_literal() {
    let segs = scan("\"abc");
    assert_eq!(
        segs,
        vec![Segment::Literal {
            style: QuoteStyle::Double,
            content: chars_of("abc"),
            closed: false,
        }]
    );
}

#[test]
fn scan_escape_skips_inside_literal() {
    let segs = scan(r"'it\'s'");
    assert_eq!(
        segs,
        vec![Segment::Literal {
            style: QuoteStyle::Single,
            content: chars_of(r"it\'s"),
            closed: true,
        }]
    );
}

#[test]
fn emit_literal_converts_when_clean() {
    let content = chars_of("x");
    let (out, suppressed) = emit_literal(
        QuoteStyle::Single,
        &content,
        ConversionMode::ToDouble,
        false,
    );
    let out: String = out.into_iter().collect();
    assert_eq!(out, "\"x\"");
    assert!(!suppressed);
}

#[test]
fn emit_literal_suppresses_on_conflict() {
    let content = chars_of("it's");
    let (out, suppressed) = emit_literal(
        QuoteStyle::Double,
        &content,
        ConversionMode::ToSingle,
        false,
    );
    let out: String = out.into_iter().collect();
    assert_eq!(out, "\"it's\"");
    assert!(suppressed);
}

#[test]
fn emit_literal_escaped_target_is_no_conflict() {
    let content = chars_of(r"it\'s");
    let (out, suppressed) = emit_literal(
        QuoteStyle::Double,
        &content,
        ConversionMode::ToSingle,
        false,
    );
    let out: String = out.into_iter().collect();
    assert_eq!(out, r"'it\'s'");
    assert!(!suppressed);
}
