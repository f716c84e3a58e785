use lint_rules::nonoctal_escape::{
    get_unicode_escape, is_octal_escape_sequence, AnyJsStringLiteral, LiteralToken, LiteralTokenKind, lex_escape_sequences, safe_replace_by_range,
    EscapeSequence, NoNonoctalDecimalEscape,
};
use lint_rules::text_range::TextRange;

fn escape(previous: Option<&str>, decimal: &str, range: (usize, usize)) -> EscapeSequence {
    EscapeSequence {
        previous_escape: previous.map(|p| p.to_string()),
        decimal_escape: decimal.to_string(),
        decimal_escape_range: range,
    }
}

#[test]
fn test_is_octal_escape_sequence() {
    assert!(!is_octal_escape_sequence(""));
    assert!(!is_octal_escape_sequence("Hello World!"));
    assert!(!is_octal_escape_sequence("\\0"));
    assert!(!is_octal_escape_sequence("\\7"));
    assert!(is_octal_escape_sequence("\\8"));
    assert!(is_octal_escape_sequence("\\9"));
    assert!(!is_octal_escape_sequence("/\\8/"));
    assert!(!is_octal_escape_sequence("/\\9/"));
    assert!(is_octal_escape_sequence("\\0\\8"));
    assert!(is_octal_escape_sequence("\\7\\9"));
}

#[test]
fn test_get_unicode_escape() {
    assert_eq!(get_unicode_escape('\0'), Some("\\u0000".into()));
    assert_eq!(get_unicode_escape('a'), Some("\\u0061".into()));
    assert_eq!(get_unicode_escape('👍'), Some("\\u1f44d".into()));
}

#[test]
fn test_parse_escape_sequences() {
    assert_eq!(
        lex_escape_sequences("test\\8\\9"),
        vec![escape(Some("t"), "\\8", (4, 6)), escape(None, "\\9", (6, 8))]
    );
    assert_eq!(lex_escape_sequences("\\0\\8"), vec![escape(Some("\\0"), "\\8", (2, 4))]);
    assert_eq!(
        lex_escape_sequences("👍\\8\\9"),
        vec![escape(Some("👍"), "\\8", (4, 6)), escape(None, "\\9", (6, 8))]
    );
    assert_eq!(lex_escape_sequences("\\\\ \\8"), vec![escape(Some(" "), "\\8", (3, 5))]);
}

#[test]
fn precheck_escaped_backslash_is_not_an_escape() {
    assert!(!is_octal_escape_sequence("\\\\8"));
    assert!(is_octal_escape_sequence("\\\\\\8"));
    assert!(is_octal_escape_sequence("/a/\\8"));
}

#[test]
fn unicode_escape_of_wide_values() {
    assert_eq!(get_unicode_escape('\u{ff}'), Some("\\u00ff".into()));
    assert_eq!(get_unicode_escape('\u{1234}'), Some("\\u1234".into()));
    assert_eq!(get_unicode_escape('8'), Some("\\u0038".into()));
}

#[test]
fn replace_by_range_on_char_boundaries() {
    assert_eq!(safe_replace_by_range("👍\\8".to_string(), 4..6, "8"), Some("👍8".to_string()));
    assert_eq!(safe_replace_by_range("abc".to_string(), 1..2, "xyz"), Some("axyzc".to_string()));
    assert_eq!(safe_replace_by_range("abc".to_string(), 0..0, ""), Some("abc".to_string()));
}

#[test]
fn replace_by_range_rejects_bad_ranges() {
    assert_eq!(safe_replace_by_range("abc".to_string(), 2..4, "x"), None);
    assert_eq!(safe_replace_by_range("abc".to_string(), 2..1, "x"), None);
    assert_eq!(safe_replace_by_range("👍".to_string(), 1..2, "x"), None);
}

#[test]
fn fix_without_prior_nul_drops_the_backslash() {
    let text = "\"\\8\"";
    let states = NoNonoctalDecimalEscape::run(text, 10);
    assert_eq!(states.len(), 1);
    let st = &states[0];
    assert_eq!(st.diagnostics_text_range, TextRange { start: 11, end: 13 });
    assert_eq!(st.replace_from, "\\8");
    assert_eq!(st.replace_to, "8");
    assert_eq!(st.replace_string_range, 1..3);
    assert_eq!(NoNonoctalDecimalEscape::action(st, text), Some("\"8\"".to_string()));
    assert_eq!(
        st.action_message(),
        "Replace \\8 with 8. This maintains the current functionality."
    );
}

#[test]
fn fix_after_nul_gives_two_stacked_fixes() {
    let text = "\"\\0\\8\"";
    let states = NoNonoctalDecimalEscape::run(text, 0);
    assert_eq!(states.len(), 2);
    assert_eq!(states[0].diagnostics_text_range, TextRange { start: 1, end: 5 });
    assert_eq!(states[0].replace_from, "\\0\\8");
    assert_eq!(states[0].replace_to, "\\u00008");
    assert_eq!(NoNonoctalDecimalEscape::action(&states[0], text), Some("\"\\u00008\"".to_string()));
    assert_eq!(states[1].diagnostics_text_range, TextRange { start: 3, end: 5 });
    assert_eq!(states[1].replace_from, "\\8");
    assert_eq!(states[1].replace_to, "\\u0038");
    assert_eq!(NoNonoctalDecimalEscape::action(&states[1], text), Some("\"\\0\\u0038\"".to_string()));
    assert_ne!(states[0].diagnostics_text_range, states[1].diagnostics_text_range);
}

#[test]
fn fix_after_nul_merges_the_nearest_nul() {
    let states = NoNonoctalDecimalEscape::run("\"\\0a\\0\\9\"", 0);
    assert_eq!(states.len(), 2);
    assert_eq!(states[0].replace_string_range, 4..8);
    assert_eq!(states[0].replace_to, "\\u00009");
}

#[test]
fn every_escape_of_a_run_is_reported() {
    let states = NoNonoctalDecimalEscape::run("\"test\\8\\9\"", 0);
    assert_eq!(states.len(), 2);
    assert_eq!(states[0].diagnostics_text_range, TextRange { start: 5, end: 7 });
    assert_eq!(states[1].diagnostics_text_range, TextRange { start: 7, end: 9 });
    assert_eq!(states[1].replace_to, "9");
}

#[test]
fn no_findings_without_escape_or_inside_regex() {
    assert!(NoNonoctalDecimalEscape::run("\"8\"", 0).is_empty());
    assert!(NoNonoctalDecimalEscape::run("\"\\\\8\"", 0).is_empty());
    assert!(NoNonoctalDecimalEscape::run("\"/\\8/\"", 0).is_empty());
}

#[test]
fn ranges_past_32_bits_are_skipped() {
    assert!(NoNonoctalDecimalEscape::run("\"\\8\"", u32::MAX - 1).is_empty());
}

#[test]
fn diagnostic_at_the_reported_range() {
    let states = NoNonoctalDecimalEscape::run("'\\9'", 7);
    let d = NoNonoctalDecimalEscape::diagnostic(&states[0]);
    assert_eq!(d.range, TextRange { start: 8, end: 10 });
    assert_eq!(d.message, "Don't use `\\8` and `\\9` escape sequences in string literals.");
    assert!(d.detail.is_none());
    assert!(d.note.unwrap().starts_with("The nonoctal decimal escape"));
}

#[test]
fn string_token_of_literals() {
    let expr = AnyJsStringLiteral::JsStringLiteralExpression {
        value_token: Some(LiteralToken { kind: LiteralTokenKind::JsStringLiteral, text: "\"a\"".to_string() }),
    };
    assert_eq!(expr.string_literal_token().unwrap().text, "\"a\"");
    let member = AnyJsStringLiteral::JsLiteralMemberName {
        value: Some(LiteralToken { kind: LiteralTokenKind::JsStringLiteral, text: "'\\8'".to_string() }),
    };
    assert_eq!(member.string_literal_token().unwrap().text, "'\\8'");
    let number = AnyJsStringLiteral::JsLiteralMemberName {
        value: Some(LiteralToken { kind: LiteralTokenKind::JsNumberLiteral, text: "8".to_string() }),
    };
    assert!(number.string_literal_token().is_none());
    let missing = AnyJsStringLiteral::JsStringLiteralExpression { value_token: None };
    assert!(missing.string_literal_token().is_none());
}

#[test]
fn nul_escape_not_adjacent_gives_bare_digit_fix() {
    let text = "\"\\0\\\\\\8\"";
    let states = NoNonoctalDecimalEscape::run(text, 0);
    assert_eq!(states.len(), 1);
    assert_eq!(states[0].replace_string_range, 5..7);
    assert_eq!(states[0].replace_from, "\\8");
    assert_eq!(states[0].replace_to, "8");
    assert_eq!(NoNonoctalDecimalEscape::action(&states[0], text), Some("\"\\0\\\\8\"".to_string()));
}

#[test]
fn run_on_literal_uses_the_string_token() {
    let member = AnyJsStringLiteral::JsLiteralMemberName {
        value: Some(LiteralToken { kind: LiteralTokenKind::JsStringLiteral, text: "'\\9'".to_string() }),
    };
    let states = NoNonoctalDecimalEscape::run_on_literal(&member, 4);
    assert_eq!(states.len(), 1);
    assert_eq!(states[0].diagnostics_text_range, TextRange { start: 5, end: 7 });
    let missing = AnyJsStringLiteral::JsStringLiteralExpression { value_token: None };
    assert!(NoNonoctalDecimalEscape::run_on_literal(&missing, 0).is_empty());
    let ident = AnyJsStringLiteral::JsLiteralMemberName {
        value: Some(LiteralToken { kind: LiteralTokenKind::Ident, text: "\\8".to_string() }),
    };
    assert!(NoNonoctalDecimalEscape::run_on_literal(&ident, 0).is_empty());
}
