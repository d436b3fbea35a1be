//! Lexer-level tokens: a kind tag plus a byte length.

use vstd::prelude::*;

verus! {

/// Which quote character delimits a string token.
#[derive(Clone, Copy, Debug, PartialEq, Eq, Hash, Structural)]
pub enum Quote {
    Single,
    Double,
}

/// The radix of a numeral token.
#[derive(Clone, Copy, Debug, PartialEq, Eq, Hash, Structural)]
pub enum Radix {
    Binary,
    Octal,
    Decimal,
    Hexadecimal,
}

impl Radix {
    /// The numeric base this radix stands for.
    pub open spec fn base(self) -> int {
        match self {
            Radix::Binary => 2,
            Radix::Octal => 8,
            Radix::Decimal => 10,
            Radix::Hexadecimal => 16,
        }
    }
}

/// The kind of a lexer token.
#[derive(Clone, Copy, Debug, PartialEq, Eq, Hash, Structural)]
pub enum TokenKind {
    Word,
    Numeral { radix: Radix, is_empty: bool },
    True,
    False,
    Tab,
    Newline,
    Space,
    CloseBrace,
    Greater,
    Minus,
    OpenBrace,
    Pipe,
    Plus,
    Sharp,
    String { is_terminated: bool, quote: Quote },
}

/// One lexer token: its kind and its length in bytes.
#[derive(Clone, Copy, Debug, PartialEq, Eq, Hash, Structural)]
pub struct Token {
    pub kind: TokenKind,
    pub len: u32,
}

} // verus!
