use mical::error::ConfigError;
use mical::eval::{apply_chomp, fold_lines, literal_lines, unescape};
use mical::syntax::{SyntaxKind, TextRange};

fn unescape2(text: &str) -> (String, Vec<ConfigError>) {
    let chars: Vec<char> = text.chars().collect();
    let mut out: Vec<char> = Vec::new();
    let mut errors: Vec<ConfigError> = Vec::new();
    unescape(&chars, 0, &mut out, &mut errors);
    (out.into_iter().collect(), errors)
}

fn some(s: &str) -> Option<String> {
    Some(s.to_string())
}

#[test]
fn escape_basic() {
    let (result, errors) = unescape2(r#"hello \"world\""#);
    assert_eq!(result, r#"hello "world""#);
    assert!(errors.is_empty());

    let (result, errors) = unescape2(r"a\\b");
    assert_eq!(result, "a\\b");
    assert!(errors.is_empty());

    let (result, errors) = unescape2(r"line1\nline2");
    assert_eq!(result, "line1\nline2");
    assert!(errors.is_empty());

    let (result, errors) = unescape2(r"\t\r");
    assert_eq!(result, "\t\r");
    assert!(errors.is_empty());

    let (result, errors) = unescape2(r"can\'t");
    assert_eq!(result, "can't");
    assert!(errors.is_empty());
}

#[test]
fn escape_invalid() {
    // decoding is best-effort: the offending character is kept
    let (result, errors) = unescape2(r"\x");
    assert_eq!(result, "x");
    assert_eq!(errors.len(), 1);
    assert!(
        matches!(&errors[0], ConfigError::InvalidEscape { sequence, .. } if sequence == r"\x")
    );
}

#[test]
fn escape_trailing_backslash() {
    // a trailing lone backslash is reported and contributes nothing
    let (result, errors) = unescape2("trail\\");
    assert_eq!(result, "trail");
    assert_eq!(errors.len(), 1);
    assert!(
        matches!(&errors[0], ConfigError::InvalidEscape { sequence, .. } if sequence == r"\")
    );
}

#[test]
fn basic() {
    let (result, errors) = unescape2(r#"hello \"world\""#);
    assert_eq!(result, r#"hello "world""#);
    assert!(errors.is_empty());

    let (result, errors) = unescape2(r"a\\b");
    assert_eq!(result, r"a\b");
    assert!(errors.is_empty());

    let (result, errors) = unescape2(r"line1\nline2");
    assert_eq!(result, "line1\nline2");
    assert!(errors.is_empty());

    let (result, errors) = unescape2(r"\t\r");
    assert_eq!(result, "\t\r");
    assert!(errors.is_empty());

    let (result, errors) = unescape2(r"can\'t");
    assert_eq!(result, "can't");
    assert!(errors.is_empty());
}

#[test]
fn invalid() {
    let (result, errors) = unescape2(r"invalid\escape");
    assert_eq!(result, "invalidescape");
    assert_eq!(errors.len(), 1);
    assert!(
        matches!(&errors[0], ConfigError::InvalidEscape { sequence, range } if sequence == r"\e"
            && *range == TextRange::at(7, 2))
    );
}

#[test]
fn empty() {
    let (result, errors) = unescape2(r"\");
    assert_eq!(result, "");
    assert_eq!(errors.len(), 1);
    assert!(
        matches!(&errors[0], ConfigError::InvalidEscape { sequence, range } if sequence == r"\"
            && *range == TextRange::at(0, 1))
    );

    let (result, errors) = unescape2("empty\\");
    assert_eq!(result, "empty");
    assert_eq!(errors.len(), 1);
    assert!(
        matches!(&errors[0], ConfigError::InvalidEscape { sequence, range } if sequence == r"\"
            && *range == TextRange::at(5, 1))
    );
}

#[test]
fn literal_lines_basic() {
    let lines = vec![some("a"), some("b")];
    assert_eq!(literal_lines(&lines), "a\nb\n");
}

#[test]
fn literal_lines_with_empty() {
    let lines = vec![some("a"), None, some("b")];
    assert_eq!(literal_lines(&lines), "a\n\nb\n");
}

#[test]
fn literal_lines_trailing_empty() {
    let lines = vec![some("x"), None, None];
    assert_eq!(literal_lines(&lines), "x\n\n\n");
}

#[test]
fn fold_lines_basic() {
    let lines = vec![
        some("This is a long"),
        some("sentence split"),
        some("over lines."),
        None,
        some("New paragraph."),
    ];
    assert_eq!(fold_lines(&lines), "This is a long sentence split over lines.\nNew paragraph.\n");
}

#[test]
fn fold_lines_multiple_empty() {
    let lines = vec![some("a"), None, None, some("b")];
    assert_eq!(fold_lines(&lines), "a\n\nb\n");
}

#[test]
fn chomp_clip() {
    assert_eq!(apply_chomp("hello\nworld\n", None), "hello\nworld\n");
    assert_eq!(apply_chomp("hello\nworld\n\n", None), "hello\nworld\n");
    assert_eq!(apply_chomp("a\n\n\n", None), "a\n");
}

#[test]
fn chomp_strip() {
    assert_eq!(apply_chomp("hello\nworld\n", Some(SyntaxKind::MINUS)), "hello\nworld");
    assert_eq!(apply_chomp("hello\nworld\n\n", Some(SyntaxKind::MINUS)), "hello\nworld");
}

#[test]
fn chomp_keep() {
    assert_eq!(apply_chomp("hello\n\n\n", Some(SyntaxKind::PLUS)), "hello\n\n\n");
    assert_eq!(apply_chomp("x\n", Some(SyntaxKind::PLUS)), "x\n");
}
