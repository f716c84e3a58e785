use lint_rules::text_range::TextRange;
use lint_rules::block_statements::{
    collect_to_first_newline, AnyJsBlockStatement, AnyJsStatement, BlockAncestor, StatementKind,
    TriviaPiece, TriviaPieceKind, UseBlockStatements, UseBlockStatementsOperationType,
};

fn piece(kind: TriviaPieceKind, text: &str) -> TriviaPiece {
    TriviaPiece { kind, text: text.to_string() }
}

fn ws(text: &str) -> TriviaPiece {
    piece(TriviaPieceKind::Whitespace, text)
}

fn nl() -> TriviaPiece {
    piece(TriviaPieceKind::Newline, "\n")
}

fn statement(kind: StatementKind, leading: Vec<TriviaPiece>, text: &str, trailing: Vec<TriviaPiece>) -> AnyJsStatement {
    AnyJsStatement { kind, leading_trivia: leading, text: text.to_string(), trailing_trivia: trailing }
}

fn render(pieces: &[TriviaPiece]) -> String {
    pieces.iter().map(|p| p.text.as_str()).collect()
}

fn block_text(block: &AnyJsStatement) -> String {
    format!("{}{}", render(&block.leading_trivia), block.text)
}

#[test]
fn wrap_single_statement_then_nothing_left() {
    // if (x) x;
    let body = statement(StatementKind::Other, vec![], "x;", vec![]);
    let op = UseBlockStatements::run(AnyJsBlockStatement::JsIfStatement, body).unwrap();
    assert!(matches!(op, UseBlockStatementsOperationType::Wrap(_)));
    let after_paren = vec![ws(" ")];
    let block = UseBlockStatements::action(&op, Some(&after_paren), &vec![], &vec![]);
    assert_eq!(format!("if (x){}{}", render(&after_paren), block_text(&block)), "if (x) { x; }");
    assert_eq!(block.kind, StatementKind::JsBlockStatement);
    assert!(UseBlockStatements::run(AnyJsBlockStatement::JsIfStatement, block).is_none());
}

#[test]
fn wrap_adds_space_before_brace_when_missing() {
    // if(x)x;
    let body = statement(StatementKind::Other, vec![], "x;", vec![]);
    let op = UseBlockStatements::run(AnyJsBlockStatement::JsIfStatement, body).unwrap();
    let block = UseBlockStatements::action(&op, Some(&vec![]), &vec![], &vec![]);
    assert_eq!(block_text(&block), " { x; }");
}

#[test]
fn empty_body_is_replaced_not_wrapped() {
    // while (x);
    let body = statement(StatementKind::JsEmptyStatement, vec![], ";", vec![]);
    let op = UseBlockStatements::run(AnyJsBlockStatement::JsWhileStatement, body).unwrap();
    assert!(matches!(op, UseBlockStatementsOperationType::ReplaceBody));
    let block = UseBlockStatements::action(&op, None, &vec![], &vec![]);
    assert_eq!(format!("while (x){}", block_text(&block)), "while (x) {}");
}

#[test]
fn else_if_chain_is_skipped() {
    // if (x) { x; } else if (y) y;
    let else_body = statement(StatementKind::JsIfStatement, vec![ws(" ")], "if (y) y;", vec![]);
    assert!(UseBlockStatements::run(AnyJsBlockStatement::JsElseClause, else_body).is_none());
    let inner = statement(StatementKind::Other, vec![], "y;", vec![]);
    let op = UseBlockStatements::run(AnyJsBlockStatement::JsIfStatement, inner);
    assert!(matches!(op, Some(UseBlockStatementsOperationType::Wrap(_))));
    let consequent = statement(StatementKind::JsBlockStatement, vec![], "{ x; }", vec![]);
    assert!(UseBlockStatements::run(AnyJsBlockStatement::JsIfStatement, consequent).is_none());
}

#[test]
fn if_after_plain_construct_is_wrapped() {
    let body = statement(StatementKind::JsIfStatement, vec![], "if (y) {}", vec![]);
    let op = UseBlockStatements::run(AnyJsBlockStatement::JsForStatement, body);
    assert!(matches!(op, Some(UseBlockStatementsOperationType::Wrap(_))));
}

#[test]
fn wrap_on_new_line_takes_indentation_of_construct() {
    // \n if (x)\n  x;
    let body = statement(StatementKind::Other, vec![nl(), ws("  ")], "x;", vec![]);
    let op = UseBlockStatements::run(AnyJsBlockStatement::JsIfStatement, body).unwrap();
    let block = UseBlockStatements::action(&op, Some(&vec![]), &vec![nl()], &vec![]);
    assert_eq!(block_text(&block), " {\n  x;\n}");
}

#[test]
fn wrap_in_else_chain_takes_indentation_of_outer_else() {
    let body = statement(StatementKind::Other, vec![nl(), ws("    ")], "y;", vec![]);
    let op = UseBlockStatements::run(AnyJsBlockStatement::JsIfStatement, body).unwrap();
    let parents = vec![
        BlockAncestor { kind: AnyJsBlockStatement::JsElseClause, leading_trivia: vec![ws(" ")] },
        BlockAncestor { kind: AnyJsBlockStatement::JsElseClause, leading_trivia: vec![nl(), ws("  ")] },
        BlockAncestor { kind: AnyJsBlockStatement::JsIfStatement, leading_trivia: vec![nl()] },
    ];
    let block = UseBlockStatements::action(&op, Some(&vec![ws(" ")]), &vec![], &parents);
    assert_eq!(block_text(&block), "{\n    y;\n  }");
}

#[test]
fn wrap_before_line_comment_ends_with_newline() {
    // if (x) x; // done
    let body = statement(
        StatementKind::Other,
        vec![],
        "x;",
        vec![ws(" "), piece(TriviaPieceKind::SingleLineComment, "// done")],
    );
    let op = UseBlockStatements::run(AnyJsBlockStatement::JsIfStatement, body).unwrap();
    let block = UseBlockStatements::action(&op, Some(&vec![ws(" ")]), &vec![], &vec![]);
    assert_eq!(block_text(&block), "{ x; // done\n}");
}

#[test]
fn collect_stops_at_first_newline_from_the_end() {
    let trivia = vec![
        ws("a"),
        nl(),
        ws("b"),
        piece(TriviaPieceKind::MultiLineComment, "/* c */"),
        ws("d"),
    ];
    let got: Vec<String> = collect_to_first_newline(&trivia).iter().map(|p| p.text.clone()).collect();
    assert_eq!(got, vec!["d".to_string(), "b".to_string(), "\n".to_string()]);
    assert!(collect_to_first_newline(&vec![]).is_empty());
}

#[test]
fn diagnostic_and_action_texts() {
    let d = UseBlockStatements::diagnostic(TextRange { start: 2, end: 12 });
    assert_eq!(d.range, TextRange { start: 2, end: 12 });
    assert_eq!(d.message, "Block statements are preferred in this position.");
    assert_eq!(UseBlockStatements::action_message(), "Wrap the statement with a `JsBlockStatement`");
}

#[test]
fn wrap_keeps_brace_out_of_line_comment_after_spaced_statement() {
    // if (x)  x; // c   (the statement carries a leading space)
    let body = statement(
        StatementKind::Other,
        vec![ws(" ")],
        "x;",
        vec![ws(" "), piece(TriviaPieceKind::SingleLineComment, "// c")],
    );
    let op = UseBlockStatements::run(AnyJsBlockStatement::JsIfStatement, body).unwrap();
    let block = UseBlockStatements::action(&op, Some(&vec![]), &vec![], &vec![]);
    assert_eq!(block_text(&block), " { x; // c\n}");
}

#[test]
fn wrap_spaced_statement_on_one_line() {
    let body = statement(StatementKind::Other, vec![ws("  ")], "x;", vec![]);
    let op = UseBlockStatements::run(AnyJsBlockStatement::JsWhileStatement, body).unwrap();
    let block = UseBlockStatements::action(&op, Some(&vec![ws(" ")]), &vec![], &vec![]);
    assert_eq!(block_text(&block), "{  x; }");
}
