use mical::lexer::tokenize;
use mical::token::{Quote, Radix, Token, TokenKind};

fn lex(src: &str) -> Vec<Token> {
    tokenize(src).tokens
}

fn t(kind: TokenKind, len: u32) -> Token {
    Token { kind, len }
}

fn num(len: u32, radix: Radix, is_empty: bool) -> Token {
    Token { kind: TokenKind::Numeral { radix, is_empty }, len }
}

fn st(len: u32, is_terminated: bool, quote: Quote) -> Token {
    Token { kind: TokenKind::String { is_terminated, quote }, len }
}

#[test]
fn true_() {
    assert_eq!(lex("t"), vec![t(TokenKind::Word, 1)]);
    assert_eq!(lex("tr"), vec![t(TokenKind::Word, 2)]);
    assert_eq!(lex("tru"), vec![t(TokenKind::Word, 3)]);
    assert_eq!(lex("true"), vec![t(TokenKind::True, 4)]);
    // a keyword must be followed by a terminator or the end of input
    assert_eq!(lex("truex"), vec![t(TokenKind::Word, 5)]);
}

#[test]
fn false_() {
    assert_eq!(lex("f"), vec![t(TokenKind::Word, 1)]);
    assert_eq!(lex("fa"), vec![t(TokenKind::Word, 2)]);
    assert_eq!(lex("fal"), vec![t(TokenKind::Word, 3)]);
    assert_eq!(lex("fals"), vec![t(TokenKind::Word, 4)]);
    assert_eq!(lex("false"), vec![t(TokenKind::False, 5)]);
    // a keyword must be followed by a terminator or the end of input
    assert_eq!(lex("falsex"), vec![t(TokenKind::Word, 6)]);
}

#[test]
fn integer_binary() {
    assert_eq!(lex("0b"), vec![num(2, Radix::Binary, true)]);
    assert_eq!(lex("0b_"), vec![num(3, Radix::Binary, true)]);
    assert_eq!(lex("0b0"), vec![num(3, Radix::Binary, false)]);
    assert_eq!(lex("0b0_"), vec![num(4, Radix::Binary, false)]);
    assert_eq!(lex("0b1010"), vec![num(6, Radix::Binary, false)]);
    assert_eq!(lex("0b0101"), vec![num(6, Radix::Binary, false)]);
    assert_eq!(lex("0b123456789"), vec![num(11, Radix::Binary, false)]);
    assert_eq!(lex("0b10_10"), vec![num(7, Radix::Binary, false)]);
    assert_eq!(lex("0ba"), vec![t(TokenKind::Word, 3)]);
    assert_eq!(lex("0b1a"), vec![t(TokenKind::Word, 4)]);
    assert_eq!(lex("a0b1"), vec![t(TokenKind::Word, 4)]);
}

#[test]
fn integer_octal() {
    assert_eq!(lex("0o"), vec![num(2, Radix::Octal, true)]);
    assert_eq!(lex("0o_"), vec![num(3, Radix::Octal, true)]);
    assert_eq!(lex("0o0"), vec![num(3, Radix::Octal, false)]);
    assert_eq!(lex("0o0_"), vec![num(4, Radix::Octal, false)]);
    assert_eq!(lex("0o1234567"), vec![num(9, Radix::Octal, false)]);
    assert_eq!(lex("0o123456789"), vec![num(11, Radix::Octal, false)]);
    assert_eq!(lex("0o12_34_56"), vec![num(10, Radix::Octal, false)]);
    assert_eq!(lex("0oa"), vec![t(TokenKind::Word, 3)]);
    assert_eq!(lex("0o8a"), vec![t(TokenKind::Word, 4)]);
    assert_eq!(lex("a0o1"), vec![t(TokenKind::Word, 4)]);
}

#[test]
fn integer_hexadecimal() {
    assert_eq!(lex("0x"), vec![num(2, Radix::Hexadecimal, true)]);
    assert_eq!(lex("0x_"), vec![num(3, Radix::Hexadecimal, true)]);
    assert_eq!(lex("0x0"), vec![num(3, Radix::Hexadecimal, false)]);
    assert_eq!(lex("0x0_"), vec![num(4, Radix::Hexadecimal, false)]);
    assert_eq!(lex("0x1234567890ABCDEF"), vec![num(18, Radix::Hexadecimal, false)]);
    assert_eq!(lex("0x1234567890abcdef"), vec![num(18, Radix::Hexadecimal, false)]);
    assert_eq!(lex("0x12_34_56_ab_cd_EF"), vec![num(19, Radix::Hexadecimal, false)]);
    assert_eq!(lex("0xg"), vec![t(TokenKind::Word, 3)]);
    assert_eq!(lex("0xfg"), vec![t(TokenKind::Word, 4)]);
    assert_eq!(lex("a0x1"), vec![t(TokenKind::Word, 4)]);
}

#[test]
fn integer_decimal() {
    assert_eq!(lex("0"), vec![num(1, Radix::Decimal, false)]);
    assert_eq!(lex("00"), vec![num(2, Radix::Decimal, false)]);
    assert_eq!(lex("_"), vec![t(TokenKind::Word, 1)]);
    assert_eq!(lex("_0"), vec![t(TokenKind::Word, 2)]);
    assert_eq!(lex("0123456789"), vec![num(10, Radix::Decimal, false)]);
    assert_eq!(lex("1234567890"), vec![num(10, Radix::Decimal, false)]);
    assert_eq!(lex("0123456789_"), vec![num(11, Radix::Decimal, false)]);
    assert_eq!(lex("01234_56789"), vec![num(11, Radix::Decimal, false)]);
    assert_eq!(lex("0a"), vec![t(TokenKind::Word, 2)]);
    assert_eq!(lex("123a"), vec![t(TokenKind::Word, 4)]);
    assert_eq!(lex("a1"), vec![t(TokenKind::Word, 2)]);
}

#[test]
fn single_punctuation() {
    assert_eq!(lex("{"), vec![t(TokenKind::OpenBrace, 1)]);
    assert_eq!(lex("}"), vec![t(TokenKind::CloseBrace, 1)]);
    assert_eq!(lex(">"), vec![t(TokenKind::Greater, 1)]);
    assert_eq!(lex("-"), vec![t(TokenKind::Minus, 1)]);
    assert_eq!(lex("|"), vec![t(TokenKind::Pipe, 1)]);
    assert_eq!(lex("+"), vec![t(TokenKind::Plus, 1)]);
    assert_eq!(lex("#"), vec![t(TokenKind::Sharp, 1)]);
}

#[test]
fn multiple_punctuation() {
    assert_eq!(lex("{{"), vec![t(TokenKind::OpenBrace, 1), t(TokenKind::OpenBrace, 1)]);
    assert_eq!(
        lex("{ {"),
        vec![t(TokenKind::OpenBrace, 1), t(TokenKind::Space, 1), t(TokenKind::OpenBrace, 1)]
    );
    assert_eq!(lex("}}"), vec![t(TokenKind::CloseBrace, 1), t(TokenKind::CloseBrace, 1)]);
    assert_eq!(
        lex("} }"),
        vec![t(TokenKind::CloseBrace, 1), t(TokenKind::Space, 1), t(TokenKind::CloseBrace, 1)]
    );
    assert_eq!(lex(">>"), vec![t(TokenKind::Greater, 1), t(TokenKind::Greater, 1)]);
    assert_eq!(
        lex("> >"),
        vec![t(TokenKind::Greater, 1), t(TokenKind::Space, 1), t(TokenKind::Greater, 1)]
    );
    assert_eq!(lex("--"), vec![t(TokenKind::Minus, 1), t(TokenKind::Minus, 1)]);
    assert_eq!(
        lex("- -"),
        vec![t(TokenKind::Minus, 1), t(TokenKind::Space, 1), t(TokenKind::Minus, 1)]
    );
    assert_eq!(lex("||"), vec![t(TokenKind::Pipe, 1), t(TokenKind::Pipe, 1)]);
    assert_eq!(
        lex("| |"),
        vec![t(TokenKind::Pipe, 1), t(TokenKind::Space, 1), t(TokenKind::Pipe, 1)]
    );
    assert_eq!(lex("++"), vec![t(TokenKind::Plus, 1), t(TokenKind::Plus, 1)]);
    assert_eq!(
        lex("+ +"),
        vec![t(TokenKind::Plus, 1), t(TokenKind::Space, 1), t(TokenKind::Plus, 1)]
    );
    assert_eq!(lex("##"), vec![t(TokenKind::Sharp, 1), t(TokenKind::Sharp, 1)]);
    assert_eq!(
        lex("# #"),
        vec![t(TokenKind::Sharp, 1), t(TokenKind::Space, 1), t(TokenKind::Sharp, 1)]
    );
}

#[test]
fn single_whitespace() {
    assert_eq!(lex("\t"), vec![t(TokenKind::Tab, 1)]);
    assert_eq!(lex("\n"), vec![t(TokenKind::Newline, 1)]);
    assert_eq!(lex(" "), vec![t(TokenKind::Space, 1)]);
    assert_eq!(lex("\r"), vec![t(TokenKind::Newline, 1)]);
    assert_eq!(lex("\r\n"), vec![t(TokenKind::Newline, 2)]);
}

#[test]
fn multiple_whitespace() {
    assert_eq!(lex("\t\t"), vec![t(TokenKind::Tab, 2)]);
    assert_eq!(lex("\n\n"), vec![t(TokenKind::Newline, 1), t(TokenKind::Newline, 1)]);
    assert_eq!(lex("  "), vec![t(TokenKind::Space, 2)]);
    assert_eq!(lex("\r\r"), vec![t(TokenKind::Newline, 1), t(TokenKind::Newline, 1)]);
    assert_eq!(lex("\r\n\r\n"), vec![t(TokenKind::Newline, 2), t(TokenKind::Newline, 2)]);
}

#[test]
fn multibyte_word() {
    assert_eq!(lex("こんにちは"), vec![t(TokenKind::Word, 15)]);
    assert_eq!(lex("你好"), vec![t(TokenKind::Word, 6)]);
    assert_eq!(lex("안녕하세요"), vec![t(TokenKind::Word, 15)]);
    assert_eq!(lex("🐰👑"), vec![t(TokenKind::Word, 8)]);
}

#[test]
fn punctuation_first_word() {
    assert_eq!(lex("{x"), vec![t(TokenKind::OpenBrace, 1), t(TokenKind::Word, 1)]);
    assert_eq!(lex("}x"), vec![t(TokenKind::CloseBrace, 1), t(TokenKind::Word, 1)]);
    assert_eq!(lex(">x"), vec![t(TokenKind::Greater, 1), t(TokenKind::Word, 1)]);
    assert_eq!(lex("-x"), vec![t(TokenKind::Minus, 1), t(TokenKind::Word, 1)]);
    assert_eq!(lex("|x"), vec![t(TokenKind::Pipe, 1), t(TokenKind::Word, 1)]);
    assert_eq!(lex("+x"), vec![t(TokenKind::Plus, 1), t(TokenKind::Word, 1)]);
    assert_eq!(lex("#x"), vec![t(TokenKind::Sharp, 1), t(TokenKind::Word, 1)]);
    assert_eq!(lex("'x"), vec![st(2, false, Quote::Single)]);
    assert_eq!(lex("\"x"), vec![st(2, false, Quote::Double)]);
}

#[test]
fn punctuation_last_word() {
    assert_eq!(lex("x{"), vec![t(TokenKind::Word, 2)]);
    assert_eq!(lex("x}"), vec![t(TokenKind::Word, 2)]);
    assert_eq!(lex("x>"), vec![t(TokenKind::Word, 2)]);
    assert_eq!(lex("x-"), vec![t(TokenKind::Word, 2)]);
    assert_eq!(lex("x|"), vec![t(TokenKind::Word, 2)]);
    assert_eq!(lex("x+"), vec![t(TokenKind::Word, 2)]);
    assert_eq!(lex("x#"), vec![t(TokenKind::Word, 2)]);
    assert_eq!(lex("x'"), vec![t(TokenKind::Word, 2)]);
    assert_eq!(lex("x\""), vec![t(TokenKind::Word, 2)]);
}

#[test]
fn punctuation_middle_word() {
    assert_eq!(lex("x{y"), vec![t(TokenKind::Word, 3)]);
    assert_eq!(lex("x}y"), vec![t(TokenKind::Word, 3)]);
    assert_eq!(lex("x>y"), vec![t(TokenKind::Word, 3)]);
    assert_eq!(lex("x-y"), vec![t(TokenKind::Word, 3)]);
    assert_eq!(lex("x|y"), vec![t(TokenKind::Word, 3)]);
    assert_eq!(lex("x+y"), vec![t(TokenKind::Word, 3)]);
    assert_eq!(lex("x#y"), vec![t(TokenKind::Word, 3)]);
    assert_eq!(lex("x'y"), vec![t(TokenKind::Word, 3)]);
    assert_eq!(lex("x\"y"), vec![t(TokenKind::Word, 3)]);
}

#[test]
fn empty_string() {
    assert_eq!(lex("\""), vec![st(1, false, Quote::Double)]);
    assert_eq!(lex("'"), vec![st(1, false, Quote::Single)]);
    assert_eq!(lex("''"), vec![st(2, true, Quote::Single)]);
    assert_eq!(lex("\"\""), vec![st(2, true, Quote::Double)]);
}

#[test]
fn string() {
    assert_eq!(lex("\"'\""), vec![st(3, true, Quote::Double)]);
    assert_eq!(lex("\"''\""), vec![st(4, true, Quote::Double)]);
    assert_eq!(lex("'\"\"'"), vec![st(4, true, Quote::Single)]);
    assert_eq!(lex("' '"), vec![st(3, true, Quote::Single)]);
    assert_eq!(lex("\" \""), vec![st(3, true, Quote::Double)]);
    assert_eq!(lex("'foo'"), vec![st(5, true, Quote::Single)]);
    assert_eq!(lex("\"bar\""), vec![st(5, true, Quote::Double)]);
    assert_eq!(lex("'a b'"), vec![st(5, true, Quote::Single)]);
    assert_eq!(lex("\"c d\""), vec![st(5, true, Quote::Double)]);
    assert_eq!(
        lex("'pi\nyo'"),
        vec![st(3, false, Quote::Single), t(TokenKind::Newline, 1), t(TokenKind::Word, 3)]
    );
    assert_eq!(
        lex("\"pi\r\nyo\""),
        vec![st(3, false, Quote::Double), t(TokenKind::Newline, 2), t(TokenKind::Word, 3)]
    );
}

#[test]
fn escaped_string() {
    assert_eq!(lex("'\\'"), vec![st(3, false, Quote::Single)]);
    assert_eq!(lex("'\\''"), vec![st(4, true, Quote::Single)]);
    assert_eq!(lex("\"\\\""), vec![st(3, false, Quote::Double)]);
    assert_eq!(lex("\"\\\"\""), vec![st(4, true, Quote::Double)]);
    assert_eq!(lex("\"hoge\\\"fuga\""), vec![st(12, true, Quote::Double)]);
    assert_eq!(lex("'bar\\'baz'"), vec![st(10, true, Quote::Single)]);
    assert_eq!(
        lex("'\\\n'"),
        vec![st(2, false, Quote::Single), t(TokenKind::Newline, 1), st(1, false, Quote::Single)]
    );
    assert_eq!(
        lex("\"\\\r\n\""),
        vec![st(2, false, Quote::Double), t(TokenKind::Newline, 2), st(1, false, Quote::Double)]
    );
}

#[test]
fn token_lengths_cover_source() {
    for src in ["", "a b c", "true 0x1f\n'q'", "こんにちは 10"] {
        let total: u32 = lex(src).iter().map(|tok| tok.len).sum();
        assert_eq!(total as usize, src.len());
    }
}
