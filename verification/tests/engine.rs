use requote::segment::ConversionMode;
use requote::segment::Diagnostic;
use requote::transform::transform;

fn run(input: &str, mode: ConversionMode, conflict_override: bool) -> (String, Vec<Diagnostic>) {
    let chars: Vec<char> = input.chars().collect();
    let (out, diags) = transform(&chars, mode, conflict_override);
    (out.into_iter().collect(), diags)
}

fn text(input: &str, mode: ConversionMode) -> String {
    run(input, mode, false).0
}

#[test]
fn empty_input_stays_empty() {
    for mode in [
        ConversionMode::ToSingle,
        ConversionMode::ToDouble,
        ConversionMode::Toggle,
    ] {
        let (out, diags) = run("", mode, false);
        assert_eq!(out, "");
        assert!(diags.is_empty());
    }
}

#[test]
fn plain_text_is_unchanged() {
    let input = "no quotes here, just text 123 (with punctuation)!";
    for mode in [
        ConversionMode::ToSingle,
        ConversionMode::ToDouble,
        ConversionMode::Toggle,
    ] {
        let (out, diags) = run(input, mode, false);
        assert_eq!(out, input);
        assert!(diags.is_empty());
    }
}

#[test]
fn single_to_double() {
    assert_eq!(text("'hello'", ConversionMode::ToDouble), "\"hello\"");
}

#[test]
fn double_with_escaped_quotes_to_single() {
    assert_eq!(
        text("\"say \\\"hi\\\"\"", ConversionMode::ToSingle),
        "'say \\\"hi\\\"'"
    );
}

#[test]
fn triple_single_to_double() {
    assert_eq!(
        text(r"'''multi\nline'''", ConversionMode::ToDouble),
        "\"\"\"multi\\nline\"\"\""
    );
}

#[test]
fn toggle_flips_both_styles() {
    assert_eq!(
        text("a 'b' c \"d\" e", ConversionMode::Toggle),
        "a \"b\" c 'd' e"
    );
}

#[test]
fn escaped_quote_does_not_terminate_literal() {
    assert_eq!(text(r"'it\'s'", ConversionMode::ToDouble), "\"it\\'s\"");
}

#[test]
fn triple_precedence_over_single() {
    assert_eq!(text("'''abc'''", ConversionMode::ToDouble), "\"\"\"abc\"\"\"");
}

#[test]
fn conflict_suppresses_conversion() {
    let (out, diags) = run("\"it's fine\"", ConversionMode::ToSingle, false);
    assert_eq!(out, "\"it's fine\"");
    assert_eq!(
        diags,
        vec![Diagnostic::ConflictSuppressed {
            style: requote::segment::QuoteStyle::Double,
            start: 0,
        }]
    );
}

#[test]
fn conflict_override_forces_conversion() {
    let (out, diags) = run("\"it's fine\"", ConversionMode::ToSingle, true);
    assert_eq!(out, "'it's fine'");
    assert!(diags.is_empty());
}

#[test]
fn unterminated_literal_passes_through() {
    for mode in [
        ConversionMode::ToSingle,
        ConversionMode::ToDouble,
        ConversionMode::Toggle,
    ] {
        let (out, diags) = run("'unterminated", mode, false);
        assert_eq!(out, "'unterminated");
        assert_eq!(
            diags,
            vec![Diagnostic::UnterminatedLiteral {
                style: requote::segment::QuoteStyle::Single,
                start: 0,
            }]
        );
    }
}

#[test]
fn to_single_twice_equals_once() {
    let input = "x 'a' \"b\" \"it's\" '''t''' \"\"\"u\"\"\" \\\" 'open";
    let once = text(input, ConversionMode::ToSingle);
    let twice = text(&once, ConversionMode::ToSingle);
    assert_eq!(twice, once);
}

#[test]
fn round_trip_restores_original() {
    let input = "a 'b' c '''d''' e";
    let doubled = text(input, ConversionMode::ToDouble);
    assert_eq!(doubled, "a \"b\" c \"\"\"d\"\"\" e");
    let back = text(&doubled, ConversionMode::ToSingle);
    assert_eq!(back, input);
}

#[test]
fn double_to_single_no_op_under_to_double() {
    assert_eq!(text("\"x\"", ConversionMode::ToDouble), "\"x\"");
    assert_eq!(text("'x'", ConversionMode::ToSingle), "'x'");
    assert_eq!(text("'''x'''", ConversionMode::ToSingle), "'''x'''");
    assert_eq!(text("\"\"\"x\"\"\"", ConversionMode::ToDouble), "\"\"\"x\"\"\"");
}

#[test]
fn triple_double_to_single() {
    assert_eq!(text("\"\"\"x\"\"\"", ConversionMode::ToSingle), "'''x'''");
}

#[test]
fn triple_conflict_is_suppressed() {
    let (out, diags) = run("\"\"\"a'b\"\"\"", ConversionMode::ToSingle, false);
    assert_eq!(out, "\"\"\"a'b\"\"\"");
    assert_eq!(
        diags,
        vec![Diagnostic::ConflictSuppressed {
            style: requote::segment::QuoteStyle::TripleDouble,
            start: 0,
        }]
    );
}

#[test]
fn triple_is_not_escape_aware() {
    // A backslash before the quote character does not protect it inside a
    // triple literal, so the conversion is still suppressed.
    let (out, diags) = run("\"\"\"a\\'b\"\"\"", ConversionMode::ToSingle, false);
    assert_eq!(out, "\"\"\"a\\'b\"\"\"");
    assert_eq!(diags.len(), 1);
}

#[test]
fn toggle_on_triple() {
    assert_eq!(text("'''x'''", ConversionMode::Toggle), "\"\"\"x\"\"\"");
    assert_eq!(text("\"\"\"x\"\"\"", ConversionMode::Toggle), "'''x'''");
}

#[test]
fn escape_pair_outside_literal_passes_through() {
    assert_eq!(text("a\\'b", ConversionMode::ToDouble), "a\\'b");
    assert_eq!(text("\\\"", ConversionMode::ToSingle), "\\\"");
}

#[test]
fn lone_trailing_backslash_is_plain() {
    assert_eq!(text("abc\\", ConversionMode::ToDouble), "abc\\");
}

#[test]
fn unterminated_triple_passes_through() {
    let (out, diags) = run("'''abc", ConversionMode::ToDouble, false);
    assert_eq!(out, "'''abc");
    assert_eq!(
        diags,
        vec![Diagnostic::UnterminatedLiteral {
            style: requote::segment::QuoteStyle::TripleSingle,
            start: 0,
        }]
    );
}

#[test]
fn empty_literal_converts() {
    assert_eq!(text("''", ConversionMode::ToDouble), "\"\"");
    assert_eq!(text("\"\"", ConversionMode::ToSingle), "''");
}

#[test]
fn diagnostic_positions_count_from_input_start() {
    let (out, diags) = run("'a' \"b'c\" 'open", ConversionMode::ToSingle, false);
    assert_eq!(out, "'a' \"b'c\" 'open");
    assert_eq!(
        diags,
        vec![
            Diagnostic::ConflictSuppressed {
                style: requote::segment::QuoteStyle::Double,
                start: 4,
            },
            Diagnostic::UnterminatedLiteral {
                style: requote::segment::QuoteStyle::Single,
                start: 10,
            },
        ]
    );
}

#[test]
fn single_with_unescaped_double_inside_suppressed() {
    let (out, diags) = run("'say \"hi\"'", ConversionMode::ToDouble, false);
    assert_eq!(out, "'say \"hi\"'");
    assert_eq!(diags.len(), 1);
}

#[test]
fn six_quotes_form_an_empty_triple() {
    assert_eq!(text("''''''", ConversionMode::ToDouble), "\"\"\"\"\"\"");
}

#[test]
fn four_quotes_form_an_unclosed_triple() {
    let (out, diags) = run("''''", ConversionMode::ToDouble, false);
    assert_eq!(out, "''''");
    assert_eq!(
        diags,
        vec![Diagnostic::UnterminatedLiteral {
            style: requote::segment::QuoteStyle::TripleSingle,
            start: 0,
        }]
    );
}

#[test]
fn toggle_respects_conflict() {
    let (out, diags) = run("\"it's\"", ConversionMode::Toggle, false);
    assert_eq!(out, "\"it's\"");
    assert_eq!(diags.len(), 1);
}

#[test]
fn toggle_override_forces_conversion() {
    let (out, diags) = run("\"it's\"", ConversionMode::Toggle, true);
    assert_eq!(out, "'it's'");
    assert!(diags.is_empty());
}
