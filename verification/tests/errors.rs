use mical::config::Config;
use mical::cst::{parse, CstElement, CstNode};
use mical::error::ConfigError;
use mical::lexer::tokenize;
use mical::syntax::{SyntaxErrorKind, SyntaxKind};

fn syntax_error_kinds(src: &str) -> Vec<SyntaxErrorKind> {
    let ts = tokenize(src);
    let (_, errors) = parse(&ts);
    errors.iter().map(|e| e.kind).collect()
}

#[test]
fn missing_closing_quote_is_reported() {
    assert!(syntax_error_kinds("k 'abc\n").contains(&SyntaxErrorKind::MissingClosingQuote));
    assert!(syntax_error_kinds("'k v\n").contains(&SyntaxErrorKind::MissingClosingQuote));
}

#[test]
fn missing_value_is_reported() {
    assert!(syntax_error_kinds("k\n").contains(&SyntaxErrorKind::MissingValue));
}

#[test]
fn tab_indent_is_reported() {
    assert!(syntax_error_kinds("\tk v\n").contains(&SyntaxErrorKind::TabIndent));
}

#[test]
fn tab_separator_is_reported() {
    assert!(syntax_error_kinds("k\tv\n").contains(&SyntaxErrorKind::TabSeparator));
}

#[test]
fn unexpected_after_value_is_reported() {
    assert!(syntax_error_kinds("k 'v' x\n").contains(&SyntaxErrorKind::UnexpectedAfterValue));
}

#[test]
fn unexpected_after_quoted_key_is_reported() {
    assert!(
        syntax_error_kinds("\"k\"x v\n").contains(&SyntaxErrorKind::UnexpectedAfterQuotedKey)
    );
}

#[test]
fn insufficient_indent_is_reported() {
    assert!(syntax_error_kinds("t |\n  x\n z\n").contains(&SyntaxErrorKind::InsufficientIndent));
}

#[test]
fn missing_closing_brace_is_reported() {
    assert!(syntax_error_kinds("a {\nb v\n").contains(&SyntaxErrorKind::MissingClosingBrace));
}

#[test]
fn well_formed_source_reports_nothing() {
    assert!(syntax_error_kinds("a 1a\nb {\n  c true\n}\n").is_empty());
}

#[test]
fn missing_syntax_is_reported_for_a_bare_entry_node() {
    // an entry node with no key below it only arises in a hand-built
    // tree; evaluation reports it defensively and carries on
    let entry = CstNode { kind: SyntaxKind::ENTRY, children: vec![] };
    let root = CstNode {
        kind: SyntaxKind::SOURCE_FILE,
        children: vec![CstElement::Node(entry)],
    };
    let (config, errors) = Config::from_source_file(&root);
    assert!(config.entries().is_empty());
    assert_eq!(errors.len(), 1);
    assert!(matches!(&errors[0], ConfigError::MissingSyntax { .. }));
}
