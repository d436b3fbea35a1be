//! The lexer: source text to length-tagged tokens.
//!
//! The scan works on one character of lookahead and is stateless between
//! tokens.  Each token records its byte length; the sum of all token
//! lengths equals the byte length of the source.  The whole scan is
//! specified by [`spec_lex`], a recursive function over the character
//! sequence, and `tokenize` is proved to produce exactly that sequence.

use vstd::prelude::*;

use crate::text::{byte_len, char_utf8_len, crange, lemma_byte_len_bounds, lemma_byte_len_concat, lemma_crange_push, lemma_crange_push_prefix, str_chars, utf8_len};
use crate::token::{Quote, Radix, Token, TokenKind};

verus! {

/// Does `c` end a word or numeral?
pub open spec fn is_term_char(c: char) -> bool {
    c == '\t' || c == '\n' || c == ' '
}

pub open spec fn is_dec_digit(c: char) -> bool {
    ('0' as u32) <= (c as u32) <= ('9' as u32)
}

pub open spec fn is_hex_digit(c: char) -> bool {
    is_dec_digit(c) || ('a' as u32) <= (c as u32) <= ('f' as u32) || ('A' as u32) <= (c as u32)
        <= ('F' as u32)
}

/// The first position at or after `i` holding a terminator, or the end.
pub open spec fn scan_not_term(s: Seq<char>, i: int) -> int
    decreases s.len() - i,
{
    if i >= s.len() {
        i
    } else if is_term_char(s[i]) {
        i
    } else {
        scan_not_term(s, i + 1)
    }
}

/// The first position at or after `i` not holding `c`, or the end.
pub open spec fn scan_run(s: Seq<char>, i: int, c: char) -> int
    decreases s.len() - i,
{
    if i >= s.len() {
        i
    } else if s[i] != c {
        i
    } else {
        scan_run(s, i + 1, c)
    }
}

/// Scans a quoted-string body from `i`: stops unterminated at the end of
/// input or before a newline; `\q` and `\\` never terminate; an unescaped
/// closing quote terminates and is consumed.
pub open spec fn scan_string(s: Seq<char>, i: int, q: char) -> (bool, int)
    decreases s.len() - i,
{
    if i >= s.len() {
        (false, i)
    } else if s[i] == '\\' {
        if i + 1 < s.len() && (s[i + 1] == q || s[i + 1] == '\\') {
            scan_string(s, i + 2, q)
        } else {
            scan_string(s, i + 1, q)
        }
    } else if s[i] == '\n' || s[i] == '\r' {
        (false, i)
    } else if s[i] == q {
        (true, i + 1)
    } else {
        scan_string(s, i + 1, q)
    }
}

/// Consumes digits and underscores from `i`; reports whether any digit
/// (not underscore) was seen.
pub open spec fn scan_digits(s: Seq<char>, i: int, hex: bool) -> (bool, int)
    decreases s.len() - i,
{
    if i >= s.len() {
        (false, i)
    } else if s[i] == '_' {
        scan_digits(s, i + 1, hex)
    } else if (hex && is_hex_digit(s[i])) || (!hex && is_dec_digit(s[i])) {
        let r = scan_digits(s, i + 1, hex);
        (true, r.1)
    } else {
        (false, i)
    }
}

/// The token starting at position `i` (which must hold a character) and
/// the position just after it, following the lexer's decision table.
pub open spec fn next_token(s: Seq<char>, i: int) -> (TokenKind, int) {
    let c = s[i];
    if c == 't' {
        if i + 3 < s.len() && s[i + 1] == 'r' && s[i + 2] == 'u' && s[i + 3] == 'e' && (i + 4
            >= s.len() || is_term_char(s[i + 4])) {
            (TokenKind::True, i + 4)
        } else {
            (TokenKind::Word, scan_not_term(s, i + 1))
        }
    } else if c == 'f' {
        if i + 4 < s.len() && s[i + 1] == 'a' && s[i + 2] == 'l' && s[i + 3] == 's' && s[i + 4]
            == 'e' && (i + 5 >= s.len() || is_term_char(s[i + 5])) {
            (TokenKind::False, i + 5)
        } else {
            (TokenKind::Word, scan_not_term(s, i + 1))
        }
    } else if c == '\t' {
        (TokenKind::Tab, scan_run(s, i + 1, '\t'))
    } else if c == '\n' {
        (TokenKind::Newline, i + 1)
    } else if c == '\r' {
        if i + 1 < s.len() && s[i + 1] == '\n' {
            (TokenKind::Newline, i + 2)
        } else {
            (TokenKind::Newline, i + 1)
        }
    } else if c == ' ' {
        (TokenKind::Space, scan_run(s, i + 1, ' '))
    } else if c == '}' {
        (TokenKind::CloseBrace, i + 1)
    } else if c == '>' {
        (TokenKind::Greater, i + 1)
    } else if c == '-' {
        (TokenKind::Minus, i + 1)
    } else if c == '{' {
        (TokenKind::OpenBrace, i + 1)
    } else if c == '|' {
        (TokenKind::Pipe, i + 1)
    } else if c == '+' {
        (TokenKind::Plus, i + 1)
    } else if c == '#' {
        (TokenKind::Sharp, i + 1)
    } else if c == '"' {
        let r = scan_string(s, i + 1, '"');
        (TokenKind::String { is_terminated: r.0, quote: Quote::Double }, r.1)
    } else if c == '\'' {
        let r = scan_string(s, i + 1, '\'');
        (TokenKind::String { is_terminated: r.0, quote: Quote::Single }, r.1)
    } else if is_dec_digit(c) {
        spec_numeral(s, i)
    } else {
        (TokenKind::Word, scan_not_term(s, i + 1))
    }
}

/// Numeral mode: an optional radix prefix after `0`, a digit run, then a
/// one-character peek that decides between a numeral and a word.
pub open spec fn spec_numeral(s: Seq<char>, i: int) -> (TokenKind, int) {
    let c = s[i];
    let scanned: (Radix, bool, int) = if c == '0' && i + 1 < s.len() && s[i + 1] == 'b' {
        let r = scan_digits(s, i + 2, false);
        (Radix::Binary, r.0, r.1)
    } else if c == '0' && i + 1 < s.len() && s[i + 1] == 'o' {
        let r = scan_digits(s, i + 2, false);
        (Radix::Octal, r.0, r.1)
    } else if c == '0' && i + 1 < s.len() && s[i + 1] == 'x' {
        let r = scan_digits(s, i + 2, true);
        (Radix::Hexadecimal, r.0, r.1)
    } else if c == '0' && i + 1 < s.len() && (is_dec_digit(s[i + 1]) || s[i + 1] == '_') {
        let r = scan_digits(s, i + 1, false);
        (Radix::Decimal, r.0, r.1)
    } else if c == '0' {
        (Radix::Decimal, true, i + 1)
    } else {
        let r = scan_digits(s, i + 1, false);
        (Radix::Decimal, r.0, r.1)
    };
    if scanned.2 >= s.len() || is_term_char(s[scanned.2]) {
        (TokenKind::Numeral { radix: scanned.0, is_empty: !scanned.1 }, scanned.2)
    } else {
        (TokenKind::Word, scan_not_term(s, scanned.2))
    }
}

/// The token sequence of the whole source, as kind and character count.
pub open spec fn spec_lex(s: Seq<char>, i: int) -> Seq<(TokenKind, int)>
    decreases s.len() - i,
{
    if i < 0 || i >= s.len() {
        Seq::empty()
    } else {
        let r = next_token(s, i);
        if r.1 <= i || r.1 > s.len() {
            Seq::empty()
        } else {
            seq![(r.0, r.1 - i)] + spec_lex(s, r.1)
        }
    }
}

/// The sum of the byte lengths of a token list.
pub open spec fn token_byte_sum(tokens: Seq<Token>) -> int
    decreases tokens.len(),
{
    if tokens.len() == 0 {
        0
    } else {
        token_byte_sum(tokens.drop_last()) + tokens.last().len
    }
}

/// The lexer's output: the source characters and the tokens, together
/// with each token's character count.
pub struct TokenStream {
    pub chars: Vec<char>,
    pub tokens: Vec<Token>,
    pub clens: Vec<u32>,
}

impl TokenStream {
    /// The tokens as kind and character count, for comparison with
    /// [`spec_lex`].
    pub open spec fn lex_pairs(self) -> Seq<(TokenKind, int)> {
        Seq::new(self.tokens@.len(), |t: int| (self.tokens@[t].kind, self.clens@[t] as int))
    }

    /// Basic shape facts every lexer output satisfies.
    pub open spec fn wf(self) -> bool {
        &&& self.tokens@.len() == self.clens@.len()
        &&& forall|t: int| 0 <= t < self.clens@.len() ==> (#[trigger] self.clens@[t]) > 0
        &&& forall|t: int|
            0 <= t < self.tokens@.len() ==> match (#[trigger] self.tokens@[t]).kind {
                TokenKind::String { is_terminated, quote } => is_terminated ==> self.clens@[t]
                    >= 2,
                _ => true,
            }
    }
}

pub(crate) proof fn lemma_scan_not_term_bounds(s: Seq<char>, i: int)
    requires
        0 <= i <= s.len(),
    ensures
        i <= scan_not_term(s, i) <= s.len(),
    decreases s.len() - i,
{
    if i < s.len() && !is_term_char(s[i]) {
        lemma_scan_not_term_bounds(s, i + 1);
    }
}

pub(crate) proof fn lemma_scan_run_bounds(s: Seq<char>, i: int, c: char)
    requires
        0 <= i <= s.len(),
    ensures
        i <= scan_run(s, i, c) <= s.len(),
    decreases s.len() - i,
{
    if i < s.len() && s[i] == c {
        lemma_scan_run_bounds(s, i + 1, c);
    }
}

pub(crate) proof fn lemma_scan_string_bounds(s: Seq<char>, i: int, q: char)
    requires
        0 <= i <= s.len(),
    ensures
        i <= scan_string(s, i, q).1 <= s.len(),
        scan_string(s, i, q).0 ==> scan_string(s, i, q).1 >= i + 1,
    decreases s.len() - i,
{
    if i < s.len() {
        if s[i] == '\\' {
            if i + 1 < s.len() && (s[i + 1] == q || s[i + 1] == '\\') {
                lemma_scan_string_bounds(s, i + 2, q);
            } else {
                lemma_scan_string_bounds(s, i + 1, q);
            }
        } else if s[i] == '\n' || s[i] == '\r' || s[i] == q {
        } else {
            lemma_scan_string_bounds(s, i + 1, q);
        }
    }
}

pub(crate) proof fn lemma_scan_digits_bounds(s: Seq<char>, i: int, hex: bool)
    requires
        0 <= i <= s.len(),
    ensures
        i <= scan_digits(s, i, hex).1 <= s.len(),
    decreases s.len() - i,
{
    if i < s.len() {
        if s[i] == '_' || (hex && is_hex_digit(s[i])) || (!hex && is_dec_digit(s[i])) {
            lemma_scan_digits_bounds(s, i + 1, hex);
        }
    }
}

/// Every token spans at least one character and stays inside the source.
pub(crate) proof fn lemma_next_token_bounds(s: Seq<char>, i: int)
    requires
        0 <= i < s.len(),
    ensures
        i < next_token(s, i).1 <= s.len(),
        (next_token(s, i).0 matches TokenKind::String { is_terminated: true, .. }) ==> next_token(
            s,
            i,
        ).1 >= i + 2,
{
    let c = s[i];
    lemma_scan_not_term_bounds(s, i + 1);
    lemma_scan_run_bounds(s, i + 1, '\t');
    lemma_scan_run_bounds(s, i + 1, ' ');
    lemma_scan_string_bounds(s, i + 1, '"');
    lemma_scan_string_bounds(s, i + 1, '\'');
    if is_dec_digit(c) {
        lemma_scan_digits_bounds(s, i + 1, false);
        if i + 2 <= s.len() {
            lemma_scan_digits_bounds(s, i + 2, false);
            lemma_scan_digits_bounds(s, i + 2, true);
        }
        let sc2 = spec_numeral_scan_end(s, i);
        lemma_scan_not_term_bounds(s, sc2);
    }
}

/// The position after the digit scan of numeral mode.
pub(crate) open spec fn spec_numeral_scan_end(s: Seq<char>, i: int) -> int {
    let c = s[i];
    if c == '0' && i + 1 < s.len() && s[i + 1] == 'b' {
        scan_digits(s, i + 2, false).1
    } else if c == '0' && i + 1 < s.len() && s[i + 1] == 'o' {
        scan_digits(s, i + 2, false).1
    } else if c == '0' && i + 1 < s.len() && s[i + 1] == 'x' {
        scan_digits(s, i + 2, true).1
    } else if c == '0' && i + 1 < s.len() && (is_dec_digit(s[i + 1]) || s[i + 1] == '_') {
        scan_digits(s, i + 1, false).1
    } else if c == '0' {
        i + 1
    } else {
        scan_digits(s, i + 1, false).1
    }
}

fn is_dec_digit_x(c: char) -> (r: bool)
    ensures
        r == is_dec_digit(c),
{
    let u = c as u32;
    48 <= u && u <= 57
}

fn is_hex_digit_x(c: char) -> (r: bool)
    ensures
        r == is_hex_digit(c),
{
    let u = c as u32;
    (48 <= u && u <= 57) || (97 <= u && u <= 102) || (65 <= u && u <= 70)
}

fn is_term_char_x(c: char) -> (r: bool)
    ensures
        r == is_term_char(c),
{
    c == '\t' || c == '\n' || c == ' '
}

fn scan_not_term_x(chars: &Vec<char>, start: usize) -> (r: usize)
    requires
        start <= chars@.len(),
    ensures
        r as int == scan_not_term(chars@, start as int),
        start <= r <= chars@.len(),
{
    let mut j = start;
    let mut stop = false;
    while !stop
        invariant
            start <= j <= chars@.len(),
            scan_not_term(chars@, start as int) == scan_not_term(chars@, j as int),
            stop ==> (j >= chars@.len() || is_term_char(chars@[j as int])),
        decreases chars@.len() - j + (if stop { 0int } else { 1int }),
    {
        if j >= chars.len() {
            stop = true;
        } else if is_term_char_x(chars[j]) {
            stop = true;
        } else {
            j = j + 1;
        }
    }
    proof {
        assert(scan_not_term(chars@, j as int) == j as int);
    }
    j
}

fn scan_run_x(chars: &Vec<char>, start: usize, c: char) -> (r: usize)
    requires
        start <= chars@.len(),
    ensures
        r as int == scan_run(chars@, start as int, c),
        start <= r <= chars@.len(),
{
    let mut j = start;
    let mut stop = false;
    while !stop
        invariant
            start <= j <= chars@.len(),
            scan_run(chars@, start as int, c) == scan_run(chars@, j as int, c),
            stop ==> (j >= chars@.len() || chars@[j as int] != c),
        decreases chars@.len() - j + (if stop { 0int } else { 1int }),
    {
        if j >= chars.len() {
            stop = true;
        } else if chars[j] != c {
            stop = true;
        } else {
            j = j + 1;
        }
    }
    proof {
        assert(scan_run(chars@, j as int, c) == j as int);
    }
    j
}

fn scan_string_x(chars: &Vec<char>, start: usize, q: char) -> (r: (bool, usize))
    requires
        start <= chars@.len(),
    ensures
        (r.0, r.1 as int) == scan_string(chars@, start as int, q),
        start <= r.1 <= chars@.len(),
{
    let mut j = start;
    let mut done = false;
    let mut term = false;
    while !done
        invariant
            start <= j <= chars@.len(),
            !done ==> !term && scan_string(chars@, start as int, q) == scan_string(
                chars@,
                j as int,
                q,
            ),
            done ==> scan_string(chars@, start as int, q) == (term, j as int),
        decreases 2 * (chars@.len() - j) + (if done { 0int } else { 1int }),
    {
        if j >= chars.len() {
            proof {
                assert(scan_string(chars@, j as int, q) == (false, j as int));
            }
            done = true;
        } else {
            let c = chars[j];
            if c == '\\' {
                if j + 1 < chars.len() && (chars[j + 1] == q || chars[j + 1] == '\\') {
                    j = j + 2;
                } else {
                    j = j + 1;
                }
            } else if c == '\n' || c == '\r' {
                proof {
                    assert(scan_string(chars@, j as int, q) == (false, j as int));
                }
                done = true;
            } else if c == q {
                proof {
                    assert(scan_string(chars@, j as int, q) == (true, j + 1));
                }
                term = true;
                j = j + 1;
                done = true;
            } else {
                j = j + 1;
            }
        }
    }
    (term, j)
}

fn scan_digits_x(chars: &Vec<char>, start: usize, hex: bool) -> (r: (bool, usize))
    requires
        start <= chars@.len(),
    ensures
        (r.0, r.1 as int) == scan_digits(chars@, start as int, hex),
        start <= r.1 <= chars@.len(),
{
    let mut j = start;
    let mut has = false;
    let mut stop = false;
    while !stop
        invariant
            start <= j <= chars@.len(),
            !stop ==> scan_digits(chars@, start as int, hex) == (
                (has || scan_digits(chars@, j as int, hex).0),
                scan_digits(chars@, j as int, hex).1,
            ),
            stop ==> scan_digits(chars@, start as int, hex) == (has, j as int),
        decreases chars@.len() - j + (if stop { 0int } else { 1int }),
    {
        if j >= chars.len() {
            proof {
                assert(scan_digits(chars@, j as int, hex) == (false, j as int));
            }
            stop = true;
        } else {
            let c = chars[j];
            if c == '_' {
                j = j + 1;
            } else if (hex && is_hex_digit_x(c)) || (!hex && is_dec_digit_x(c)) {
                has = true;
                j = j + 1;
            } else {
                proof {
                    assert(scan_digits(chars@, j as int, hex) == (false, j as int));
                }
                stop = true;
            }
        }
    }
    (has, j)
}

/// Numeral mode, or fall-through into a word.
fn integer_or_word(chars: &Vec<char>, pos: usize) -> (r: (TokenKind, usize))
    requires
        pos < chars@.len(),
        is_dec_digit(chars@[pos as int]),
    ensures
        (r.0, r.1 as int) == next_token(chars@, pos as int),
        pos < r.1 <= chars@.len(),
{
    let n = chars.len();
    let c = chars[pos];
    let scanned: (Radix, bool, usize) = if c == '0' && pos + 1 < n && chars[pos + 1] == 'b' {
        let r = scan_digits_x(chars, pos + 2, false);
        (Radix::Binary, r.0, r.1)
    } else if c == '0' && pos + 1 < n && chars[pos + 1] == 'o' {
        let r = scan_digits_x(chars, pos + 2, false);
        (Radix::Octal, r.0, r.1)
    } else if c == '0' && pos + 1 < n && chars[pos + 1] == 'x' {
        let r = scan_digits_x(chars, pos + 2, true);
        (Radix::Hexadecimal, r.0, r.1)
    } else if c == '0' && pos + 1 < n && (is_dec_digit_x(chars[pos + 1]) || chars[pos + 1]
        == '_') {
        let r = scan_digits_x(chars, pos + 1, false);
        (Radix::Decimal, r.0, r.1)
    } else if c == '0' {
        (Radix::Decimal, true, pos + 1)
    } else {
        let r = scan_digits_x(chars, pos + 1, false);
        (Radix::Decimal, r.0, r.1)
    };
    if scanned.2 >= n || is_term_char_x(chars[scanned.2]) {
        (TokenKind::Numeral { radix: scanned.0, is_empty: !scanned.1 }, scanned.2)
    } else {
        let end = scan_not_term_x(chars, scanned.2);
        proof {
            if scanned.2 == pos {
                assert(false);
            }
        }
        (TokenKind::Word, end)
    }
}

/// Scans the token that starts at `pos`.
fn advance_token(chars: &Vec<char>, pos: usize) -> (r: (TokenKind, usize))
    requires
        pos < chars@.len(),
    ensures
        (r.0, r.1 as int) == next_token(chars@, pos as int),
        pos < r.1 <= chars@.len(),
{
    let n = chars.len();
    let c = chars[pos];
    if c == 't' {
        if n - pos > 3 && chars[pos + 1] == 'r' && chars[pos + 2] == 'u' && chars[pos + 3] == 'e'
            && (n - pos <= 4 || is_term_char_x(chars[pos + 4])) {
            (TokenKind::True, pos + 4)
        } else {
            (TokenKind::Word, scan_not_term_x(chars, pos + 1))
        }
    } else if c == 'f' {
        if n - pos > 4 && chars[pos + 1] == 'a' && chars[pos + 2] == 'l' && chars[pos + 3] == 's'
            && chars[pos + 4] == 'e' && (n - pos <= 5 || is_term_char_x(chars[pos + 5])) {
            (TokenKind::False, pos + 5)
        } else {
            (TokenKind::Word, scan_not_term_x(chars, pos + 1))
        }
    } else if c == '\t' {
        (TokenKind::Tab, scan_run_x(chars, pos + 1, '\t'))
    } else if c == '\n' {
        (TokenKind::Newline, pos + 1)
    } else if c == '\r' {
        if pos + 1 < n && chars[pos + 1] == '\n' {
            (TokenKind::Newline, pos + 2)
        } else {
            (TokenKind::Newline, pos + 1)
        }
    } else if c == ' ' {
        (TokenKind::Space, scan_run_x(chars, pos + 1, ' '))
    } else if c == '}' {
        (TokenKind::CloseBrace, pos + 1)
    } else if c == '>' {
        (TokenKind::Greater, pos + 1)
    } else if c == '-' {
        (TokenKind::Minus, pos + 1)
    } else if c == '{' {
        (TokenKind::OpenBrace, pos + 1)
    } else if c == '|' {
        (TokenKind::Pipe, pos + 1)
    } else if c == '+' {
        (TokenKind::Plus, pos + 1)
    } else if c == '#' {
        (TokenKind::Sharp, pos + 1)
    } else if c == '"' {
        let r = scan_string_x(chars, pos + 1, '"');
        (TokenKind::String { is_terminated: r.0, quote: Quote::Double }, r.1)
    } else if c == '\'' {
        let r = scan_string_x(chars, pos + 1, '\'');
        (TokenKind::String { is_terminated: r.0, quote: Quote::Single }, r.1)
    } else if is_dec_digit_x(c) {
        integer_or_word(chars, pos)
    } else {
        (TokenKind::Word, scan_not_term_x(chars, pos + 1))
    }
}

/// Transforms source text into its token sequence.
///
/// The tokens are exactly [`spec_lex`] of the source characters, and the
/// sum of their byte lengths is the byte length of the source.
pub fn tokenize(source: &str) -> (ts: TokenStream)
    requires
        byte_len(source@) <= u32::MAX,
    ensures
        ts.chars@ == source@,
        ts.wf(),
        ts.lex_pairs() == spec_lex(source@, 0),
        token_byte_sum(ts.tokens@) == byte_len(source@),
        crange(ts.clens@, 0, ts.clens@.len() as int) == ts.chars@.len(),
        forall|t: int|
            0 <= t < ts.tokens@.len() ==> (#[trigger] ts.tokens@[t]).len as int == byte_len(
                ts.chars@.subrange(
                    crange(ts.clens@, 0, t),
                    crange(ts.clens@, 0, t) + ts.clens@[t],
                ),
            ),
{
    let chars = str_chars(source);
    let mut tokens: Vec<Token> = Vec::new();
    let mut clens: Vec<u32> = Vec::new();
    let mut pos: usize = 0;
    let mut byte_pos: u32 = 0;
    while pos < chars.len()
        invariant
            chars@ == source@,
            byte_len(source@) <= u32::MAX,
            pos <= chars@.len(),
            tokens@.len() == clens@.len(),
            byte_pos as int == byte_len(chars@.take(pos as int)),
            token_byte_sum(tokens@) == byte_pos as int,
            Seq::new(tokens@.len(), |t: int| (tokens@[t].kind, clens@[t] as int)) + spec_lex(
                chars@,
                pos as int,
            ) == spec_lex(chars@, 0),
            crange(clens@, 0, clens@.len() as int) == pos,
            forall|t: int|
                0 <= t < tokens@.len() ==> (#[trigger] tokens@[t]).len as int == byte_len(
                    chars@.subrange(
                        crange(clens@, 0, t),
                        crange(clens@, 0, t) + clens@[t],
                    ),
                ),
            forall|t: int| 0 <= t < clens@.len() ==> (#[trigger] clens@[t]) > 0,
            forall|t: int|
                0 <= t < tokens@.len() ==> match (#[trigger] tokens@[t]).kind {
                    TokenKind::String { is_terminated, quote } => is_terminated ==> clens@[t] >= 2,
                    _ => true,
                },
        decreases chars@.len() - pos,
    {
        let r = advance_token(&chars, pos);
        let kind = r.0;
        let end = r.1;
        proof {
            lemma_next_token_bounds(chars@, pos as int);
        }
        // the token's byte length
        let mut b: u32 = 0;
        let mut t = pos;
        proof {
            assert(chars@.subrange(pos as int, pos as int) =~= Seq::<char>::empty());
        }
        while t < end
            invariant
                chars@ == source@,
                byte_len(source@) <= u32::MAX,
                pos <= t <= end <= chars@.len(),
                byte_pos as int == byte_len(chars@.take(pos as int)),
                b as int == byte_len(chars@.subrange(pos as int, t as int)),
                byte_pos as int + b as int == byte_len(chars@.take(t as int)),
            decreases end - t,
        {
            let w = char_utf8_len(chars[t]);
            proof {
                let pre = chars@.take(t as int);
                let one = seq![chars@[t as int]];
                assert(chars@.take(t + 1) =~= pre + one);
                lemma_byte_len_concat(pre, one);
                assert(one.drop_first() =~= Seq::<char>::empty());
                assert(byte_len(Seq::<char>::empty()) == 0);
                assert(byte_len(one) == utf8_len(chars@[t as int]));
                assert(chars@.subrange(pos as int, t + 1) =~= chars@.subrange(
                    pos as int,
                    t as int,
                ) + one);
                lemma_byte_len_concat(chars@.subrange(pos as int, t as int), one);
                // the whole source bounds the prefix
                assert(chars@ =~= chars@.take(t + 1) + chars@.skip(t + 1));
                lemma_byte_len_concat(chars@.take(t + 1), chars@.skip(t + 1));
                lemma_byte_len_bounds(chars@.skip(t + 1));
                assert(byte_len(chars@.take(t + 1)) <= byte_len(chars@));
            }
            b = b + w;
            t = t + 1;
        }
        let clen = end - pos;
        proof {
            let sub = chars@.subrange(pos as int, end as int);
            lemma_byte_len_bounds(sub);
            assert(clen as int == sub.len());
            assert(chars@ =~= chars@.take(end as int) + chars@.skip(end as int));
            lemma_byte_len_concat(chars@.take(end as int), chars@.skip(end as int));
            lemma_byte_len_bounds(chars@.skip(end as int));
            assert(byte_pos as int + b as int <= byte_len(chars@));
        }
        let ghost tokens0 = tokens@;
        let ghost clens0 = clens@;
        tokens.push(Token { kind, len: b });
        clens.push(clen as u32);
        proof {
            lemma_crange_push(clens0, clen as u32);
            assert forall|t: int|
                0 <= t < tokens@.len() implies (#[trigger] tokens@[t]).len as int == byte_len(
                chars@.subrange(
                    crange(clens@, 0, t),
                    crange(clens@, 0, t) + clens@[t],
                ),
            ) by {
                lemma_crange_push_prefix(clens0, clen as u32, 0, t);
                if t < tokens0.len() {
                    assert(tokens@[t] == tokens0[t]);
                    assert(clens@[t] == clens0[t]);
                } else {
                    assert(tokens@[t] == Token { kind, len: b });
                    assert(crange(clens@, 0, t) == pos);
                    assert(clens@[t] == clen as u32);
                    assert(b as int == byte_len(chars@.subrange(pos as int, end as int)));
                }
            }
            // the spec makes the same token here
            assert(spec_lex(chars@, pos as int) == seq![(kind, end - pos as int)] + spec_lex(
                chars@,
                end as int,
            ));
            let pairs0 = Seq::new(tokens0.len(), |t: int| (tokens0[t].kind, clens0[t] as int));
            let pairs1 = Seq::new(
                tokens@.len(),
                |t: int| (tokens@[t].kind, clens@[t] as int),
            );
            assert(pairs1 =~= pairs0 + seq![(kind, end - pos as int)]);
            assert(pairs1 + spec_lex(chars@, end as int) =~= spec_lex(chars@, 0));
            // byte bookkeeping
            assert(tokens@.drop_last() =~= tokens0);
            assert(tokens@.last() == Token { kind, len: b });
            // terminated strings span the quotes
            if kind matches TokenKind::String { is_terminated: true, .. } {
                assert(end - pos >= 2);
            }
        }
        byte_pos = byte_pos + b;
        pos = end;
    }
    proof {
        assert(chars@.take(pos as int) =~= chars@);
        assert(spec_lex(chars@, pos as int) =~= Seq::<(TokenKind, int)>::empty());
        let pairs = Seq::new(tokens@.len(), |t: int| (tokens@[t].kind, clens@[t] as int));
        assert(pairs + Seq::<(TokenKind, int)>::empty() =~= pairs);
    }
    let ts = TokenStream { chars, tokens, clens };
    proof {
        assert(ts.lex_pairs() =~= Seq::new(
            ts.tokens@.len(),
            |t: int| (ts.tokens@[t].kind, ts.clens@[t] as int),
        ));
    }
    ts
}

} // verus!
