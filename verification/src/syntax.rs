//! Syntax kinds shared by the parser, the tree, and the evaluator.

use vstd::prelude::*;

verus! {

/// The kind tag of a syntax token or node.
///
/// Token kinds come first (promoted from the lexer), node kinds follow.
#[derive(Clone, Copy, Debug, PartialEq, Eq, Hash, Structural)]
#[allow(non_camel_case_types)]
pub enum SyntaxKind {
    WORD,
    NUMERAL,
    TRUE_KW,
    FALSE_KW,
    TAB,
    NEWLINE,
    SPACE,
    CLOSE_BRACE,
    GREATER,
    MINUS,
    OPEN_BRACE,
    PIPE,
    PLUS,
    SHARP,
    SINGLE_QUOTE,
    DOUBLE_QUOTE,
    STRING,
    SHEBANG,
    SOURCE_FILE,
    DIRECTIVE,
    COMMENT,
    ENTRY,
    PREFIX_BLOCK,
    BOOLEAN,
    INTEGER,
    LINE_STRING,
    QUOTED_STRING,
    BLOCK_STRING,
    BLOCK_STRING_HEADER,
    WORD_KEY,
    QUOTED_KEY,
    ERROR,
}

/// A byte range in the source text.
#[derive(Clone, Copy, Debug, PartialEq, Eq, Hash, Structural)]
pub struct TextRange {
    pub start: u32,
    pub len: u32,
}

impl TextRange {
    /// The range starting at `start` spanning `len` bytes.
    pub fn at(start: u32, len: u32) -> (r: TextRange)
        ensures
            r.start == start,
            r.len == len,
    {
        TextRange { start, len }
    }
}

/// The reason a parse error was recorded.
#[derive(Clone, Copy, Debug, PartialEq, Eq, Structural)]
pub enum SyntaxErrorKind {
    MissingClosingQuote,
    MissingValue,
    TabIndent,
    TabSeparator,
    ExpectedKey,
    UnexpectedAfterValue,
    UnexpectedAfterQuotedKey,
    InsufficientIndent,
    MissingClosingBrace,
}

/// A parse error anchored at a zero-width byte position.
#[derive(Clone, Copy, Debug, PartialEq, Eq, Structural)]
pub struct SyntaxError {
    pub kind: SyntaxErrorKind,
    pub offset: u32,
}

impl SyntaxErrorKind {
    /// The human-readable message of this error.
    pub fn message(&self) -> &'static str {
        match self {
            SyntaxErrorKind::MissingClosingQuote => "missing closing quote",
            SyntaxErrorKind::MissingValue => "missing value for the key",
            SyntaxErrorKind::TabIndent => "tab indent is not allowed, skipping this line",
            SyntaxErrorKind::TabSeparator => "tab separating is not allowed",
            SyntaxErrorKind::ExpectedKey => "expected a key",
            SyntaxErrorKind::UnexpectedAfterValue => "unexpected token after value",
            SyntaxErrorKind::UnexpectedAfterQuotedKey => "unexpected token after quoted key",
            SyntaxErrorKind::InsufficientIndent => "block string line has insufficient indentation",
            SyntaxErrorKind::MissingClosingBrace => "missing closing '}' for prefix block",
        }
    }
}

} // verus!
