//! The grammar: recursive-descent functions that emit events.
//!
//! Each grammar function is specified twice over.  A spec function
//! mirrors its decisions exactly — `source_file` is proved to emit
//! precisely the event log of [`spec_source_file`], so the parse of a
//! given token stream is a function of that stream.  On top of that,
//! every function preserves the driver's conservation invariant
//! ([`grammar_post`]): the source is unchanged, the cursor only moves
//! forward, the event log only grows, and every reserved node slot it
//! opens is completed; `source_file` consumes the whole stream, so the
//! finished log is lossless.

use vstd::prelude::*;

use crate::parser::{grammar_mid, grammar_post, s_bump, s_complete, s_eat, s_eat_upto, s_error, s_start, Marker, PState, Parser};
use crate::parser::s_bump_remap;
use crate::syntax::{SyntaxErrorKind, SyntaxKind};

verus! {

/// The kinds that may start a key.
pub open spec fn is_key_first(k: SyntaxKind) -> bool {
    ||| k == SyntaxKind::WORD
    ||| k == SyntaxKind::NUMERAL
    ||| k == SyntaxKind::TRUE_KW
    ||| k == SyntaxKind::FALSE_KW
    ||| k == SyntaxKind::MINUS
    ||| k == SyntaxKind::PLUS
    ||| k == SyntaxKind::PIPE
    ||| k == SyntaxKind::GREATER
    ||| k == SyntaxKind::DOUBLE_QUOTE
    ||| k == SyntaxKind::SINGLE_QUOTE
    ||| k == SyntaxKind::OPEN_BRACE
    ||| k == SyntaxKind::CLOSE_BRACE
}

/// The kinds that end a key (besides the end of input).
pub open spec fn is_key_last(k: SyntaxKind) -> bool {
    k == SyntaxKind::SPACE || k == SyntaxKind::NEWLINE || k == SyntaxKind::TAB
}

/// The kinds that may start a value.
pub open spec fn is_value_first(k: SyntaxKind) -> bool {
    is_key_first(k) || k == SyntaxKind::SHARP
}


/// The first position at or after `i` holding a newline, or the end.
pub open spec fn line_end(kinds: Seq<SyntaxKind>, i: int) -> int
    decreases kinds.len() - i,
{
    if i >= kinds.len() {
        i
    } else if kinds[i] == SyntaxKind::NEWLINE {
        i
    } else {
        line_end(kinds, i + 1)
    }
}

/// The first position at or after `i` ending a key, or the end.
pub open spec fn key_end(kinds: Seq<SyntaxKind>, i: int) -> int
    decreases kinds.len() - i,
{
    if i >= kinds.len() {
        i
    } else if is_key_last(kinds[i]) {
        i
    } else {
        key_end(kinds, i + 1)
    }
}

/// Is the rest of the line blank from lookahead `n` after `pos`?
pub open spec fn spec_rest_blank(kinds: Seq<SyntaxKind>, pos: int, n: int) -> bool {
    ||| pos + n >= kinds.len()
    ||| kinds[pos + n] == SyntaxKind::NEWLINE
    ||| (kinds[pos + n] == SyntaxKind::SPACE && (pos + n + 1 >= kinds.len() || kinds[pos + n + 1]
        == SyntaxKind::NEWLINE))
}

/// Everything up to the end of the line, token by token.
pub open spec fn spec_skip_eol(kinds: Seq<SyntaxKind>, st: PState) -> PState
    decreases kinds.len() - st.pos,
{
    if st.pos >= kinds.len() || kinds[st.pos] == SyntaxKind::NEWLINE {
        st
    } else {
        spec_skip_eol(kinds, s_bump(kinds, st))
    }
}

/// Blank lines, token by token.
pub open spec fn spec_skip_newlines(kinds: Seq<SyntaxKind>, st: PState) -> PState
    decreases kinds.len() - st.pos,
{
    if st.pos < kinds.len() && kinds[st.pos] == SyntaxKind::NEWLINE {
        spec_skip_newlines(kinds, s_eat(kinds, st, SyntaxKind::NEWLINE))
    } else {
        st
    }
}

/// Everything up to the next key terminator, token by token.
pub open spec fn spec_key_junk(kinds: Seq<SyntaxKind>, st: PState) -> PState
    decreases kinds.len() - st.pos,
{
    if st.pos >= kinds.len() || is_key_last(kinds[st.pos]) {
        st
    } else {
        spec_key_junk(kinds, s_bump(kinds, st))
    }
}

/// A LINE_STRING node: the rest of the line coalesced into one token.
pub open spec fn spec_line_string(kinds: Seq<SyntaxKind>, st: PState) -> PState {
    let m = st.events.len() as int;
    let st1 = s_start(st);
    let cnt = line_end(kinds, st1.pos) - st1.pos;
    s_complete(s_bump_remap(kinds, st1, SyntaxKind::STRING, cnt), m, SyntaxKind::LINE_STRING)
}

/// A COMMENT node: `#` and the rest of the line.
pub open spec fn spec_comment(kinds: Seq<SyntaxKind>, st: PState) -> PState {
    let m = st.events.len() as int;
    let st1 = s_eat(kinds, s_start(st), SyntaxKind::SHARP);
    s_complete(spec_skip_eol(kinds, st1), m, SyntaxKind::COMMENT)
}

/// A DIRECTIVE node: `#`, a word, and a line string.
pub open spec fn spec_directive(kinds: Seq<SyntaxKind>, st: PState) -> PState {
    let m = st.events.len() as int;
    let st1 = s_eat(kinds, s_start(st), SyntaxKind::SHARP);
    let st2 = s_eat(kinds, st1, SyntaxKind::WORD);
    s_complete(spec_line_string(kinds, st2), m, SyntaxKind::DIRECTIVE)
}

/// A WORD_KEY node: everything up to the next terminator as one token.
pub open spec fn spec_word_key(kinds: Seq<SyntaxKind>, st: PState) -> PState {
    let m = st.events.len() as int;
    let st1 = s_start(st);
    let cnt = key_end(kinds, st1.pos) - st1.pos;
    s_complete(s_bump_remap(kinds, st1, SyntaxKind::WORD, cnt), m, SyntaxKind::WORD_KEY)
}

/// A QUOTED_KEY node: quote, body, closing quote, trailing junk handling.
pub open spec fn spec_quoted_key(kinds: Seq<SyntaxKind>, st: PState, quote: SyntaxKind) -> PState {
    let m = st.events.len() as int;
    let st1 = s_eat(kinds, s_eat(kinds, s_start(st), quote), SyntaxKind::STRING);
    let st2 = if st1.pos < kinds.len() && kinds[st1.pos] == quote {
        s_eat(kinds, st1, quote)
    } else {
        s_error(st1, SyntaxErrorKind::MissingClosingQuote)
    };
    let st3 = if st2.pos >= kinds.len() || is_key_last(kinds[st2.pos]) {
        st2
    } else {
        let ste = s_error(st2, SyntaxErrorKind::UnexpectedAfterQuotedKey);
        let m2 = ste.events.len() as int;
        s_complete(spec_key_junk(kinds, s_start(ste)), m2, SyntaxKind::ERROR)
    };
    s_complete(st3, m, SyntaxKind::QUOTED_KEY)
}

/// A key: quoted if it opens with a quote, a word key otherwise.
pub open spec fn spec_key(kinds: Seq<SyntaxKind>, st: PState) -> PState {
    if st.pos < kinds.len() && kinds[st.pos] == SyntaxKind::DOUBLE_QUOTE {
        spec_quoted_key(kinds, st, SyntaxKind::DOUBLE_QUOTE)
    } else if st.pos < kinds.len() && kinds[st.pos] == SyntaxKind::SINGLE_QUOTE {
        spec_quoted_key(kinds, st, SyntaxKind::SINGLE_QUOTE)
    } else {
        spec_word_key(kinds, st)
    }
}

/// A BOOLEAN node: the keyword token.
pub open spec fn spec_boolean(kinds: Seq<SyntaxKind>, st: PState) -> PState {
    let m = st.events.len() as int;
    s_complete(s_bump(kinds, s_start(st)), m, SyntaxKind::BOOLEAN)
}

/// An INTEGER node: an optional sign and the numeral.
pub open spec fn spec_integer(kinds: Seq<SyntaxKind>, st: PState) -> PState {
    let m = st.events.len() as int;
    let st1 = s_start(st);
    let st2 = if st1.pos < kinds.len() && (kinds[st1.pos] == SyntaxKind::PLUS || kinds[st1.pos]
        == SyntaxKind::MINUS) {
        s_bump(kinds, st1)
    } else {
        st1
    };
    s_complete(s_eat(kinds, st2, SyntaxKind::NUMERAL), m, SyntaxKind::INTEGER)
}

/// A QUOTED_STRING node: quote, body, closing quote.
pub open spec fn spec_quoted_value(kinds: Seq<SyntaxKind>, st: PState, quote: SyntaxKind) -> PState {
    let m = st.events.len() as int;
    let st1 = s_eat(kinds, s_eat(kinds, s_start(st), quote), SyntaxKind::STRING);
    let st2 = if st1.pos < kinds.len() && kinds[st1.pos] == quote {
        s_eat(kinds, st1, quote)
    } else {
        s_error(st1, SyntaxErrorKind::MissingClosingQuote)
    };
    s_complete(st2, m, SyntaxKind::QUOTED_STRING)
}

/// A BLOCK_STRING_HEADER node: the style token, an optional chomp
/// indicator, an optional space, and the newline.
pub open spec fn spec_block_header(kinds: Seq<SyntaxKind>, st: PState) -> PState {
    let m = st.events.len() as int;
    let st1 = s_bump(kinds, s_start(st));
    let st2 = if st1.pos < kinds.len() && kinds[st1.pos] == SyntaxKind::PLUS {
        s_eat(kinds, st1, SyntaxKind::PLUS)
    } else if st1.pos < kinds.len() && kinds[st1.pos] == SyntaxKind::MINUS {
        s_eat(kinds, st1, SyntaxKind::MINUS)
    } else {
        st1
    };
    let st3 = s_eat(kinds, s_eat(kinds, st2, SyntaxKind::SPACE), SyntaxKind::NEWLINE);
    s_complete(st3, m, SyntaxKind::BLOCK_STRING_HEADER)
}

/// An empty block-string line: a LINE_STRING node with no token.
pub open spec fn spec_empty_line(st: PState) -> PState {
    let m = st.events.len() as int;
    s_complete(s_start(st), m, SyntaxKind::LINE_STRING)
}

/// Does the block continue on the line after the current newline?
pub open spec fn spec_continues(
    kinds: Seq<SyntaxKind>,
    clens: Seq<u32>,
    pos: int,
    indent_level: u32,
) -> bool {
    if pos + 1 >= kinds.len() {
        false
    } else if kinds[pos + 1] == SyntaxKind::NEWLINE {
        true
    } else if kinds[pos + 1] == SyntaxKind::SPACE {
        clens[pos + 1] > indent_level
    } else {
        false
    }
}

/// The base-indent discovery scan: whether a content line exists and its
/// leading-space count.
pub open spec fn spec_base_scan(
    kinds: Seq<SyntaxKind>,
    clens: Seq<u32>,
    pos: int,
    offset: int,
) -> (bool, u32)
    decreases kinds.len() - pos - offset,
{
    if pos + offset >= kinds.len() {
        (false, 0u32)
    } else if kinds[pos + offset] == SyntaxKind::SPACE {
        if pos + offset + 1 < kinds.len() && kinds[pos + offset + 1] == SyntaxKind::NEWLINE {
            spec_base_scan(kinds, clens, pos, offset + 2)
        } else if pos + offset + 1 >= kinds.len() {
            (false, 0u32)
        } else {
            (true, clens[pos + offset])
        }
    } else if kinds[pos + offset] == SyntaxKind::NEWLINE {
        spec_base_scan(kinds, clens, pos, offset + 1)
    } else {
        (true, 0u32)
    }
}

/// One block-string line after another, with exact base-indent stripping,
/// until a line outside the block or the end of input.
pub open spec fn spec_block_lines(
    kinds: Seq<SyntaxKind>,
    st: PState,
    indent_level: u32,
    base_indent: u32,
) -> PState
    decreases kinds.len() - st.pos,
{
    if st.pos >= kinds.len() {
        st
    } else if kinds[st.pos] == SyntaxKind::NEWLINE {
        let st1 = spec_empty_line(st);
        if st1.pos < kinds.len() && kinds[st1.pos] == SyntaxKind::NEWLINE && spec_continues(
            kinds,
            st1.clens,
            st1.pos,
            indent_level,
        ) {
            let st2 = s_eat(kinds, st1, SyntaxKind::NEWLINE);
            if st2.pos <= st.pos {
                st2
            } else {
                spec_block_lines(kinds, st2, indent_level, base_indent)
            }
        } else {
            st1
        }
    } else if kinds[st.pos] == SyntaxKind::SPACE {
        let li = st.clens[st.pos];
        if li >= base_indent {
            let st1 = s_eat_upto(kinds, st, SyntaxKind::SPACE, base_indent);
            let blank = if st1.pos < kinds.len() && kinds[st1.pos] == SyntaxKind::SPACE {
                st1.pos + 1 >= kinds.len() || kinds[st1.pos + 1] == SyntaxKind::NEWLINE
            } else {
                st1.pos >= kinds.len() || kinds[st1.pos] == SyntaxKind::NEWLINE
            };
            let st2 = if blank {
                spec_empty_line(s_eat(kinds, st1, SyntaxKind::SPACE))
            } else {
                spec_line_string(kinds, st1)
            };
            if st2.pos < kinds.len() && kinds[st2.pos] == SyntaxKind::NEWLINE && spec_continues(
                kinds,
                st2.clens,
                st2.pos,
                indent_level,
            ) {
                let st3 = s_eat(kinds, st2, SyntaxKind::NEWLINE);
                if st3.pos <= st.pos {
                    st3
                } else {
                    spec_block_lines(kinds, st3, indent_level, base_indent)
                }
            } else {
                st2
            }
        } else if li <= indent_level {
            st
        } else {
            let st1 = if st.pos + 1 >= kinds.len() || kinds[st.pos + 1] == SyntaxKind::NEWLINE {
                spec_empty_line(s_eat(kinds, st, SyntaxKind::SPACE))
            } else {
                let ste = s_error(st, SyntaxErrorKind::InsufficientIndent);
                let m2 = ste.events.len() as int;
                s_complete(
                    spec_skip_eol(kinds, s_eat(kinds, s_start(ste), SyntaxKind::SPACE)),
                    m2,
                    SyntaxKind::ERROR,
                )
            };
            if st1.pos < kinds.len() && kinds[st1.pos] == SyntaxKind::NEWLINE && spec_continues(
                kinds,
                st1.clens,
                st1.pos,
                indent_level,
            ) {
                let st2 = s_eat(kinds, st1, SyntaxKind::NEWLINE);
                if st2.pos <= st.pos {
                    st2
                } else {
                    spec_block_lines(kinds, st2, indent_level, base_indent)
                }
            } else {
                st1
            }
        }
    } else {
        st
    }
}

/// A BLOCK_STRING node: the header, the base-indent discovery, then the
/// lines; an empty or out-of-scope block holds only its header.
pub open spec fn spec_block_string(kinds: Seq<SyntaxKind>, st: PState, indent_level: u32) -> PState {
    let m = st.events.len() as int;
    let st1 = spec_block_header(kinds, s_start(st));
    let scan = spec_base_scan(kinds, st1.clens, st1.pos, 0);
    if !scan.0 || scan.1 <= indent_level {
        s_complete(st1, m, SyntaxKind::BLOCK_STRING)
    } else {
        s_complete(spec_block_lines(kinds, st1, indent_level, scan.1), m, SyntaxKind::BLOCK_STRING)
    }
}

/// A value, dispatched on the leading token.
pub open spec fn spec_value(kinds: Seq<SyntaxKind>, st: PState, indent_level: u32) -> PState {
    if st.pos >= kinds.len() {
        st
    } else if kinds[st.pos] == SyntaxKind::DOUBLE_QUOTE {
        spec_quoted_value(kinds, st, SyntaxKind::DOUBLE_QUOTE)
    } else if kinds[st.pos] == SyntaxKind::SINGLE_QUOTE {
        spec_quoted_value(kinds, st, SyntaxKind::SINGLE_QUOTE)
    } else if kinds[st.pos] == SyntaxKind::PIPE || kinds[st.pos] == SyntaxKind::GREATER {
        let shift: int = if st.pos + 1 < kinds.len() && (kinds[st.pos + 1] == SyntaxKind::PLUS
            || kinds[st.pos + 1] == SyntaxKind::MINUS) {
            2
        } else {
            1
        };
        if spec_rest_blank(kinds, st.pos, shift) {
            spec_block_string(kinds, st, indent_level)
        } else {
            spec_line_string(kinds, st)
        }
    } else if (kinds[st.pos] == SyntaxKind::TRUE_KW || kinds[st.pos] == SyntaxKind::FALSE_KW)
        && spec_rest_blank(kinds, st.pos, 1) {
        spec_boolean(kinds, st)
    } else if kinds[st.pos] == SyntaxKind::NUMERAL && spec_rest_blank(kinds, st.pos, 1) {
        spec_integer(kinds, st)
    } else if (kinds[st.pos] == SyntaxKind::PLUS || kinds[st.pos] == SyntaxKind::MINUS) && st.pos
        + 1 < kinds.len() && kinds[st.pos + 1] == SyntaxKind::NUMERAL && spec_rest_blank(
        kinds,
        st.pos,
        2,
    ) {
        spec_integer(kinds, st)
    } else {
        spec_line_string(kinds, st)
    }
}

/// An ENTRY node completing the reserved slot `m`: the value, trailing
/// spaces, and anything unexpected before the line end as an ERROR node.
pub open spec fn spec_entry(kinds: Seq<SyntaxKind>, st: PState, m: int, indent_level: u32) -> PState {
    let st1 = if st.pos < kinds.len() && is_value_first(kinds[st.pos]) {
        spec_value(kinds, st, indent_level)
    } else {
        st
    };
    let st2 = s_eat(kinds, st1, SyntaxKind::SPACE);
    let st3 = if st2.pos < kinds.len() && kinds[st2.pos] != SyntaxKind::NEWLINE {
        let ste = s_error(st2, SyntaxErrorKind::UnexpectedAfterValue);
        let m2 = ste.events.len() as int;
        s_complete(spec_skip_eol(kinds, s_start(ste)), m2, SyntaxKind::ERROR)
    } else {
        st2
    };
    s_complete(st3, m, SyntaxKind::ENTRY)
}

/// A PREFIX_BLOCK node completing the reserved slot `m`: the braces and
/// the items inside.
pub open spec fn spec_prefix_block(kinds: Seq<SyntaxKind>, st: PState, m: int) -> PState
    decreases kinds.len() - st.pos, 1int,
{
    let st1 = s_eat(kinds, s_eat(kinds, st, SyntaxKind::OPEN_BRACE), SyntaxKind::NEWLINE);
    let st2 = if st1.pos <= st.pos {
        st1
    } else {
        spec_block_items(kinds, st1)
    };
    s_complete(st2, m, SyntaxKind::PREFIX_BLOCK)
}

/// The items of a prefix block, up to the closing brace or the end of
/// input (which is an error).
pub open spec fn spec_block_items(kinds: Seq<SyntaxKind>, st: PState) -> PState
    decreases kinds.len() - st.pos, 4int,
{
    let st1 = spec_skip_newlines(kinds, st);
    if st1.pos < st.pos {
        st1
    } else if st1.pos >= kinds.len() {
        s_error(st1, SyntaxErrorKind::MissingClosingBrace)
    } else if kinds[st1.pos] == SyntaxKind::CLOSE_BRACE && (st1.pos + 1 >= kinds.len()
        || kinds[st1.pos + 1] == SyntaxKind::NEWLINE) {
        s_eat(kinds, s_eat(kinds, st1, SyntaxKind::CLOSE_BRACE), SyntaxKind::NEWLINE)
    } else {
        let st2 = spec_item(kinds, st1);
        if st2.pos <= st.pos || st2.pos > kinds.len() {
            st2
        } else {
            spec_block_items(kinds, st2)
        }
    }
}

/// A key line: an ENTRY or a PREFIX_BLOCK, or an ERROR node when no key
/// can start here.
pub open spec fn spec_entry_or_prefix_block(
    kinds: Seq<SyntaxKind>,
    st: PState,
    indent_level: u32,
) -> PState
    decreases kinds.len() - st.pos, 2int,
{
    if !(st.pos < kinds.len() && is_key_first(kinds[st.pos])) {
        let ste = s_error(st, SyntaxErrorKind::ExpectedKey);
        let m = ste.events.len() as int;
        s_complete(spec_skip_eol(kinds, s_bump(kinds, s_start(ste))), m, SyntaxKind::ERROR)
    } else {
        let m = st.events.len() as int;
        let st1 = spec_key(kinds, s_start(st));
        if st1.pos >= kinds.len() || kinds[st1.pos] == SyntaxKind::NEWLINE {
            s_complete(s_error(st1, SyntaxErrorKind::MissingValue), m, SyntaxKind::ENTRY)
        } else {
            let st2 = s_eat(kinds, st1, SyntaxKind::SPACE);
            let st3 = if st2.pos < kinds.len() && kinds[st2.pos] == SyntaxKind::TAB {
                let ste = s_error(st2, SyntaxErrorKind::TabSeparator);
                let m2 = ste.events.len() as int;
                s_complete(s_eat(kinds, s_start(ste), SyntaxKind::TAB), m2, SyntaxKind::ERROR)
            } else {
                st2
            };
            if st3.pos < kinds.len() && kinds[st3.pos] == SyntaxKind::OPEN_BRACE && st3.pos + 1
                < kinds.len() && kinds[st3.pos + 1] == SyntaxKind::NEWLINE {
                if st3.pos <= st.pos {
                    st3
                } else {
                    spec_prefix_block(kinds, st3, m)
                }
            } else {
                spec_entry(kinds, st3, m, indent_level)
            }
        }
    }
}

/// One item: blank lines, then a directive, a comment, a blank
/// spaces-only line, a tab-indent error line, or a key line.
pub open spec fn spec_item(kinds: Seq<SyntaxKind>, st: PState) -> PState
    decreases kinds.len() - st.pos, 3int,
{
    let st1 = spec_skip_newlines(kinds, st);
    if st1.pos < st.pos {
        st1
    } else if st1.pos >= kinds.len() {
        st1
    } else if kinds[st1.pos] == SyntaxKind::SHARP {
        if st1.pos + 1 < kinds.len() && kinds[st1.pos + 1] == SyntaxKind::WORD {
            spec_directive(kinds, st1)
        } else {
            spec_comment(kinds, st1)
        }
    } else {
        let indent_level: u32 = if kinds[st1.pos] == SyntaxKind::SPACE {
            st1.clens[st1.pos]
        } else {
            0u32
        };
        let st2 = s_eat(kinds, st1, SyntaxKind::SPACE);
        if st2.pos < kinds.len() && kinds[st2.pos] == SyntaxKind::TAB {
            let ste = s_error(st2, SyntaxErrorKind::TabIndent);
            let m = ste.events.len() as int;
            s_complete(
                spec_skip_eol(kinds, s_eat(kinds, s_start(ste), SyntaxKind::TAB)),
                m,
                SyntaxKind::ERROR,
            )
        } else if st2.pos < kinds.len() && kinds[st2.pos] == SyntaxKind::SHARP {
            spec_comment(kinds, st2)
        } else if st2.pos >= kinds.len() || kinds[st2.pos] == SyntaxKind::NEWLINE {
            st2
        } else {
            spec_entry_or_prefix_block(kinds, st2, indent_level)
        }
    }
}

/// The items of the whole source, up to the end of input.
pub open spec fn spec_top_items(kinds: Seq<SyntaxKind>, st: PState) -> PState
    decreases kinds.len() - st.pos,
{
    if st.pos >= kinds.len() {
        st
    } else {
        let st1 = spec_item(kinds, st);
        if st1.pos <= st.pos || st1.pos > kinds.len() {
            st1
        } else {
            spec_top_items(kinds, st1)
        }
    }
}

/// The whole parse: an optional shebang, the items, and the SOURCE_FILE
/// node around them.
pub open spec fn spec_source_file(kinds: Seq<SyntaxKind>, st: PState) -> PState {
    let m = st.events.len() as int;
    let st1 = s_eat(kinds, s_start(st), SyntaxKind::SHEBANG);
    s_complete(spec_top_items(kinds, st1), m, SyntaxKind::SOURCE_FILE)
}

fn is_key_first_x(k: SyntaxKind) -> (r: bool)
    ensures
        r == is_key_first(k),
{
    match k {
        SyntaxKind::WORD => true,
        SyntaxKind::NUMERAL => true,
        SyntaxKind::TRUE_KW => true,
        SyntaxKind::FALSE_KW => true,
        SyntaxKind::MINUS => true,
        SyntaxKind::PLUS => true,
        SyntaxKind::PIPE => true,
        SyntaxKind::GREATER => true,
        SyntaxKind::DOUBLE_QUOTE => true,
        SyntaxKind::SINGLE_QUOTE => true,
        SyntaxKind::OPEN_BRACE => true,
        SyntaxKind::CLOSE_BRACE => true,
        _ => false,
    }
}

fn is_key_last_x(k: SyntaxKind) -> (r: bool)
    ensures
        r == is_key_last(k),
{
    match k {
        SyntaxKind::SPACE => true,
        SyntaxKind::NEWLINE => true,
        SyntaxKind::TAB => true,
        _ => false,
    }
}

/// Is the current token a key starter?
fn at_key_first(p: &Parser) -> (r: bool)
    requires
        p.inv(),
    ensures
        r == (!p.at_eof_spec() && is_key_first(p.kinds@[p.pos as int])),
{
    match p.current() {
        Some(k) => is_key_first_x(k),
        None => false,
    }
}

/// Does a key end at lookahead `n` (terminator or end of input)?
fn key_ends_at(p: &Parser, n: usize) -> (r: bool)
    requires
        p.inv(),
    ensures
        r == (p.pos + n >= p.kinds@.len() || is_key_last(p.kinds@[p.pos + n])),
{
    if p.nth_at_eof(n) {
        true
    } else {
        is_key_last_x(p.nth_kind(n))
    }
}

/// Is the rest of the line blank from lookahead `n` on: a newline or the
/// end of input, possibly after one run of spaces?
fn is_rest_of_line_blank(p: &Parser, n: usize) -> (r: bool)
    requires
        p.inv(),
    ensures
        r == spec_rest_blank(p.kinds@, p.pos as int, n as int),
{
    let len = p.kinds.len();
    if p.nth_at(n, SyntaxKind::NEWLINE) || p.nth_at_eof(n) {
        return true;
    }
    if p.nth_at(n, SyntaxKind::SPACE) {
        let n1 = n + 1;
        p.nth_at(n1, SyntaxKind::NEWLINE) || p.nth_at_eof(n1)
    } else {
        false
    }
}

/// Consumes everything up to the end of the line.
fn skip_to_end_of_line(p: &mut Parser)
    requires
        old(p).inv(),
    ensures
        grammar_post(*old(p), *final(p)),
        final(p).gstate() == spec_skip_eol(old(p).kinds@, old(p).gstate()),
{
    let ghost pre = *p;
    let mut stop = false;
    while !stop
        invariant
            pre == *old(p),
            grammar_post(pre, *p),
            !stop ==> spec_skip_eol(pre.kinds@, pre.gstate()) == spec_skip_eol(
                pre.kinds@,
                p.gstate(),
            ),
            stop ==> spec_skip_eol(pre.kinds@, pre.gstate()) == p.gstate(),
        decreases p.kinds@.len() - p.pos + (if stop { 0int } else { 1int }),
    {
        if p.at(SyntaxKind::NEWLINE) || p.at_eof() {
            proof {
                assert(spec_skip_eol(pre.kinds@, p.gstate()) == p.gstate());
            }
            stop = true;
        } else {
            let ghost cur = p.gstate();
            p.bump_any();
            proof {
                assert(spec_skip_eol(pre.kinds@, cur) == spec_skip_eol(
                    pre.kinds@,
                    s_bump(pre.kinds@, cur),
                ));
            }
        }
    }
}

/// Parses the whole source: an optional shebang, then items until the end
/// of input.
pub(crate) fn source_file(p: &mut Parser)
    requires
        old(p).inv(),
    ensures
        grammar_post(*old(p), *final(p)),
        final(p).at_eof_spec(),
        final(p).gstate() == spec_source_file(old(p).kinds@, old(p).gstate()),
{
    let ghost pre = *p;
    let m = p.start();
    p.eat(SyntaxKind::SHEBANG);
    let ghost entry_g = p.gstate();
    while !p.at_eof()
        invariant
            pre == *old(p),
            p.inv(),
            p.total == pre.total,
            p.kinds@ == pre.kinds@,
            p.clens@.len() == pre.clens@.len(),
            pre.pos <= p.pos <= p.kinds@.len(),
            pre.events.events@.len() < p.events.events@.len(),
            forall|i: int|
                0 <= i < pre.events.events@.len() ==> p.events.events@[i] == pre.events.events@[i],
            m.pos == pre.events.events@.len(),
            p.events.events@[m.pos as int] is Tombstone,
            crate::event::tomb_count(p.events.events@) == crate::event::tomb_count(
                pre.events.events@,
            ) + 1,
            spec_top_items(pre.kinds@, entry_g) == spec_top_items(pre.kinds@, p.gstate()),
        decreases p.kinds@.len() - p.pos,
    {
        let ghost cur = p.gstate();
        item(p);
        proof {
            assert(spec_top_items(pre.kinds@, cur) == spec_top_items(pre.kinds@, p.gstate()));
        }
    }
    proof {
        assert(spec_top_items(pre.kinds@, p.gstate()) == p.gstate());
    }
    m.complete(p, SyntaxKind::SOURCE_FILE);
    proof {
        crate::event::lemma_esum_nonneg(p.events.events@);
    }
}

/// Parses one item: blank lines, then a directive, a comment, an entry,
/// or a prefix block.  A line holding only spaces is skipped as blank.
fn item(p: &mut Parser)
    requires
        old(p).inv(),
    ensures
        grammar_post(*old(p), *final(p)),
        !old(p).at_eof_spec() ==> final(p).pos > old(p).pos,
        final(p).gstate() == spec_item(old(p).kinds@, old(p).gstate()),
    decreases old(p).kinds@.len() - old(p).pos, 3int,
{
    let ghost pre = *p;
    let mut more = true;
    while more
        invariant
            pre == *old(p),
            grammar_post(pre, *p),
            !more ==> !p.at_spec(SyntaxKind::NEWLINE),
            more ==> spec_skip_newlines(pre.kinds@, pre.gstate()) == spec_skip_newlines(
                pre.kinds@,
                p.gstate(),
            ),
            !more ==> spec_skip_newlines(pre.kinds@, pre.gstate()) == p.gstate(),
        decreases p.kinds@.len() - p.pos + (if more { 1int } else { 0int }),
    {
        let ghost cur = p.gstate();
        more = p.eat(SyntaxKind::NEWLINE);
        proof {
            if more {
                assert(spec_skip_newlines(pre.kinds@, cur) == spec_skip_newlines(
                    pre.kinds@,
                    s_eat(pre.kinds@, cur, SyntaxKind::NEWLINE),
                ));
            } else {
                assert(spec_skip_newlines(pre.kinds@, cur) == cur);
            }
        }
    }
    if p.at_eof() {
        return ;
    }
    if p.at(SyntaxKind::SHARP) {
        if p.nth_at(1, SyntaxKind::WORD) {
            directive(p);
        } else {
            comment(p);
        }
        return ;
    }
    // leading indent: at most one run of spaces
    let mut indent_level: u32 = 0;
    if p.at(SyntaxKind::SPACE) {
        indent_level = p.current_clen();
        p.bump(SyntaxKind::SPACE);
    }
    if p.at(SyntaxKind::TAB) {
        p.error(SyntaxErrorKind::TabIndent);
        let m = p.start();
        p.bump(SyntaxKind::TAB);
        skip_to_end_of_line(p);
        m.complete(p, SyntaxKind::ERROR);
        return ;
    }
    if p.at(SyntaxKind::SHARP) {
        comment(p);
        return ;
    }
    if p.at(SyntaxKind::NEWLINE) || p.at_eof() {
        // a line of nothing but spaces: treat it as blank
        return ;
    }
    entry_or_prefix_block(p, indent_level);
}

/// `# word <line-string>`.
fn directive(p: &mut Parser)
    requires
        old(p).inv(),
        old(p).at_spec(SyntaxKind::SHARP),
        old(p).nth_at_spec(1, SyntaxKind::WORD),
    ensures
        grammar_post(*old(p), *final(p)),
        final(p).pos > old(p).pos,
        final(p).gstate() == spec_directive(old(p).kinds@, old(p).gstate()),
{
    let m = p.start();
    p.bump(SyntaxKind::SHARP);
    if p.at(SyntaxKind::WORD) {
        p.bump(SyntaxKind::WORD);
    }
    line_string(p);
    m.complete(p, SyntaxKind::DIRECTIVE);
}

/// `#` followed by anything up to the end of the line.
fn comment(p: &mut Parser)
    requires
        old(p).inv(),
        old(p).at_spec(SyntaxKind::SHARP),
    ensures
        grammar_post(*old(p), *final(p)),
        final(p).pos > old(p).pos,
        final(p).gstate() == spec_comment(old(p).kinds@, old(p).gstate()),
{
    let m = p.start();
    p.bump(SyntaxKind::SHARP);
    skip_to_end_of_line(p);
    m.complete(p, SyntaxKind::COMMENT);
}

/// A key, then either a prefix block or an entry.
fn entry_or_prefix_block(p: &mut Parser, indent_level: u32)
    requires
        old(p).inv(),
        !old(p).at_eof_spec(),
        !old(p).at_spec(SyntaxKind::NEWLINE),
    ensures
        grammar_post(*old(p), *final(p)),
        final(p).pos > old(p).pos,
        final(p).gstate() == spec_entry_or_prefix_block(
            old(p).kinds@,
            old(p).gstate(),
            indent_level,
        ),
    decreases old(p).kinds@.len() - old(p).pos, 2int,
{
    if !at_key_first(p) {
        p.error(SyntaxErrorKind::ExpectedKey);
        let m = p.start();
        // the current token is neither a newline nor a key starter, so
        // the error node is never empty
        p.bump_any();
        skip_to_end_of_line(p);
        m.complete(p, SyntaxKind::ERROR);
        return ;
    }
    let m = p.start();
    key(p);

    if p.at(SyntaxKind::NEWLINE) || p.at_eof() {
        p.error(SyntaxErrorKind::MissingValue);
        m.complete(p, SyntaxKind::ENTRY);
        return ;
    }
    // separator
    p.eat(SyntaxKind::SPACE);
    if p.at(SyntaxKind::TAB) {
        p.error(SyntaxErrorKind::TabSeparator);
        let m2 = p.start();
        p.bump(SyntaxKind::TAB);
        m2.complete(p, SyntaxKind::ERROR);
    }
    if p.at(SyntaxKind::OPEN_BRACE) && p.nth_at(1, SyntaxKind::NEWLINE) {
        prefix_block(p, m);
    } else {
        entry(p, m, indent_level);
    }
}

/// `key WS '{' '\n' item* '}' '\n'?`.
fn prefix_block(p: &mut Parser, m: Marker)
    requires
        old(p).inv(),
        old(p).at_spec(SyntaxKind::OPEN_BRACE),
        m.pos < old(p).events.events@.len(),
        old(p).events.events@[m.pos as int] is Tombstone,
    ensures
        final(p).inv(),
        final(p).total == old(p).total,
        final(p).kinds@ == old(p).kinds@,
        final(p).clens@.len() == old(p).clens@.len(),
        old(p).pos < final(p).pos <= final(p).kinds@.len(),
        old(p).events.events@.len() <= final(p).events.events@.len(),
        forall|i: int|
            0 <= i < old(p).events.events@.len() && i != m.pos ==> final(p).events.events@[i]
                == old(p).events.events@[i],
        crate::event::tomb_count(final(p).events.events@) == crate::event::tomb_count(
            old(p).events.events@,
        ) - 1,
        final(p).gstate() == spec_prefix_block(old(p).kinds@, old(p).gstate(), m.pos as int),
    decreases old(p).kinds@.len() - old(p).pos, 1int,
{
    let ghost pre = *p;
    p.bump(SyntaxKind::OPEN_BRACE);
    p.eat(SyntaxKind::NEWLINE);
    let ghost entry_g = p.gstate();
    let mut closed = false;
    while !closed
        invariant
            pre == *old(p),
            grammar_mid(pre, *p, 0),
            p.pos > pre.pos,
            m.pos < pre.events.events@.len(),
            p.events.events@[m.pos as int] is Tombstone,
            !closed ==> spec_block_items(pre.kinds@, entry_g) == spec_block_items(
                pre.kinds@,
                p.gstate(),
            ),
            closed ==> spec_block_items(pre.kinds@, entry_g) == p.gstate(),
        decreases p.kinds@.len() - p.pos + (if closed { 0int } else { 1int }),
    {
        let ghost head = p.gstate();
        // blank lines between items are skipped before the close check
        let ghost pos0 = p.pos;
        let mut more = true;
        while more
            invariant
                pre == *old(p),
                grammar_mid(pre, *p, 0),
                pos0 <= p.pos,
                p.pos > pre.pos,
                m.pos < pre.events.events@.len(),
                p.events.events@[m.pos as int] is Tombstone,
                more ==> spec_skip_newlines(pre.kinds@, head) == spec_skip_newlines(
                    pre.kinds@,
                    p.gstate(),
                ),
                !more ==> spec_skip_newlines(pre.kinds@, head) == p.gstate(),
            decreases p.kinds@.len() - p.pos + (if more { 1int } else { 0int }),
        {
            let ghost cur = p.gstate();
            more = p.eat(SyntaxKind::NEWLINE);
            proof {
                if more {
                    assert(spec_skip_newlines(pre.kinds@, cur) == spec_skip_newlines(
                        pre.kinds@,
                        s_eat(pre.kinds@, cur, SyntaxKind::NEWLINE),
                    ));
                } else {
                    assert(spec_skip_newlines(pre.kinds@, cur) == cur);
                }
            }
        }
        if p.at_eof() {
            p.error(SyntaxErrorKind::MissingClosingBrace);
            proof {
                assert(spec_block_items(pre.kinds@, head) == p.gstate());
            }
            closed = true;
        } else if p.at(SyntaxKind::CLOSE_BRACE) && (p.nth_at(1, SyntaxKind::NEWLINE)
            || p.nth_at_eof(1)) {
            p.bump(SyntaxKind::CLOSE_BRACE);
            p.eat(SyntaxKind::NEWLINE);
            proof {
                assert(spec_block_items(pre.kinds@, head) == p.gstate());
            }
            closed = true;
        } else {
            proof {
                assert(p.kinds@.len() - p.pos < old(p).kinds@.len() - old(p).pos);
            }
            item(p);
            proof {
                assert(spec_block_items(pre.kinds@, head) == spec_block_items(
                    pre.kinds@,
                    p.gstate(),
                ));
            }
        }
    }
    m.complete(p, SyntaxKind::PREFIX_BLOCK);
    proof {
        assert(entry_g.pos > pre.pos);
    }
}

/// `key WS value WS? (newline | end)`.
fn entry(p: &mut Parser, m: Marker, indent_level: u32)
    requires
        old(p).inv(),
        m.pos < old(p).events.events@.len(),
        old(p).events.events@[m.pos as int] is Tombstone,
    ensures
        final(p).inv(),
        final(p).total == old(p).total,
        final(p).kinds@ == old(p).kinds@,
        final(p).clens@.len() == old(p).clens@.len(),
        old(p).pos <= final(p).pos <= final(p).kinds@.len(),
        old(p).events.events@.len() <= final(p).events.events@.len(),
        forall|i: int|
            0 <= i < old(p).events.events@.len() && i != m.pos ==> final(p).events.events@[i]
                == old(p).events.events@[i],
        crate::event::tomb_count(final(p).events.events@) == crate::event::tomb_count(
            old(p).events.events@,
        ) - 1,
        final(p).gstate() == spec_entry(old(p).kinds@, old(p).gstate(), m.pos as int, indent_level),
{
    let ghost pre = *p;
    if at_value_first(p) {
        value(p, indent_level);
    }
    // trailing spaces
    p.eat(SyntaxKind::SPACE);
    if !(p.at(SyntaxKind::NEWLINE) || p.at_eof()) {
        p.error(SyntaxErrorKind::UnexpectedAfterValue);
        let m2 = p.start();
        skip_to_end_of_line(p);
        m2.complete(p, SyntaxKind::ERROR);
    }
    m.complete(p, SyntaxKind::ENTRY);
}

/// Is the current token a value starter?
fn at_value_first(p: &Parser) -> (r: bool)
    requires
        p.inv(),
    ensures
        r == (!p.at_eof_spec() && is_value_first(p.kinds@[p.pos as int])),
{
    match p.current() {
        Some(k) => is_key_first_x(k) || k == SyntaxKind::SHARP,
        None => false,
    }
}

/// A word key or a quoted key.
fn key(p: &mut Parser)
    requires
        old(p).inv(),
        !old(p).at_eof_spec(),
        is_key_first(old(p).kinds@[old(p).pos as int]),
    ensures
        grammar_post(*old(p), *final(p)),
        final(p).pos > old(p).pos,
        final(p).gstate() == spec_key(old(p).kinds@, old(p).gstate()),
{
    if p.at(SyntaxKind::DOUBLE_QUOTE) {
        quoted_key(p, SyntaxKind::DOUBLE_QUOTE);
    } else if p.at(SyntaxKind::SINGLE_QUOTE) {
        quoted_key(p, SyntaxKind::SINGLE_QUOTE);
    } else {
        word_key(p);
    }
}

/// Coalesces everything up to the next terminator into one WORD token.
fn word_key(p: &mut Parser)
    requires
        old(p).inv(),
        !old(p).at_eof_spec(),
        is_key_first(old(p).kinds@[old(p).pos as int]),
        !is_key_last(old(p).kinds@[old(p).pos as int]),
    ensures
        grammar_post(*old(p), *final(p)),
        final(p).pos > old(p).pos,
        final(p).gstate() == spec_word_key(old(p).kinds@, old(p).gstate()),
{
    let ghost pre = *p;
    let m = p.start();
    let ghost started = *p;
    let len = p.kinds.len();
    let mut count: usize = 0;
    let mut stop = false;
    while !stop
        invariant
            *p == started,
            p.inv(),
            len == p.kinds@.len(),
            p.pos == pre.pos,
            p.kinds@ == pre.kinds@,
            p.clens@ == pre.clens@,
            p.pos + count <= p.kinds@.len(),
            m.pos < p.events.events@.len(),
            p.events.events@[m.pos as int] is Tombstone,
            key_end(p.kinds@, p.pos as int) == key_end(p.kinds@, p.pos + count),
            stop ==> (p.pos + count >= p.kinds@.len() || is_key_last(p.kinds@[p.pos + count])),
        decreases p.kinds@.len() - p.pos - count + (if stop { 0int } else { 1int }),
    {
        if key_ends_at(p, count) {
            stop = true;
        } else {
            count = count + 1;
        }
    }
    proof {
        if count == 0 {
            assert(is_key_last(p.kinds@[p.pos as int]));
        }
        assert(key_end(p.kinds@, p.pos + count) == p.pos + count);
        assert(count as int == key_end(pre.kinds@, pre.pos as int) - pre.pos);
    }
    p.bump_remap(SyntaxKind::WORD, count);
    m.complete(p, SyntaxKind::WORD_KEY);
}

/// An opening quote, a string body, and the matching closing quote.
fn quoted_key(p: &mut Parser, quote: SyntaxKind)
    requires
        old(p).inv(),
        old(p).at_spec(quote),
    ensures
        grammar_post(*old(p), *final(p)),
        final(p).pos > old(p).pos,
        final(p).gstate() == spec_quoted_key(old(p).kinds@, old(p).gstate(), quote),
{
    let ghost pre = *p;
    let m = p.start();
    p.bump(quote);
    p.eat(SyntaxKind::STRING);
    if !p.eat(quote) {
        p.error(SyntaxErrorKind::MissingClosingQuote);
    }
    if !(key_ends_at(p, 0)) {
        p.error(SyntaxErrorKind::UnexpectedAfterQuotedKey);
        let m2 = p.start();
        let ghost jstart = p.gstate();
        let mut stop = false;
        while !stop
            invariant
                pre == *old(p),
                grammar_mid(pre, *p, 2),
                p.pos > pre.pos,
                m.pos < p.events.events@.len(),
                p.events.events@[m.pos as int] is Tombstone,
                m2.pos < p.events.events@.len(),
                p.events.events@[m2.pos as int] is Tombstone,
                m.pos != m2.pos,
                !stop ==> spec_key_junk(pre.kinds@, jstart) == spec_key_junk(
                    pre.kinds@,
                    p.gstate(),
                ),
                stop ==> spec_key_junk(pre.kinds@, jstart) == p.gstate(),
            decreases p.kinds@.len() - p.pos + (if stop { 0int } else { 1int }),
        {
            if key_ends_at(p, 0) {
                proof {
                    assert(spec_key_junk(pre.kinds@, p.gstate()) == p.gstate());
                }
                stop = true;
            } else {
                let ghost cur = p.gstate();
                p.bump_any();
                proof {
                    assert(spec_key_junk(pre.kinds@, cur) == spec_key_junk(
                        pre.kinds@,
                        s_bump(pre.kinds@, cur),
                    ));
                }
            }
        }
        m2.complete(p, SyntaxKind::ERROR);
    }
    m.complete(p, SyntaxKind::QUOTED_KEY);
}

/// Dispatches on the leading token to one of the value shapes.
fn value(p: &mut Parser, indent_level: u32)
    requires
        old(p).inv(),
        !old(p).at_eof_spec(),
        is_value_first(old(p).kinds@[old(p).pos as int]),
    ensures
        grammar_post(*old(p), *final(p)),
        final(p).gstate() == spec_value(old(p).kinds@, old(p).gstate(), indent_level),
{
    if p.at(SyntaxKind::DOUBLE_QUOTE) {
        quoted_value(p, SyntaxKind::DOUBLE_QUOTE);
    } else if p.at(SyntaxKind::SINGLE_QUOTE) {
        quoted_value(p, SyntaxKind::SINGLE_QUOTE);
    } else if p.at(SyntaxKind::PIPE) || p.at(SyntaxKind::GREATER) {
        let mut shift: usize = 1;
        if p.nth_at(1, SyntaxKind::PLUS) || p.nth_at(1, SyntaxKind::MINUS) {
            shift = 2;
        }
        if is_rest_of_line_blank(p, shift) {
            block_string(p, indent_level);
        } else {
            line_string(p);
        }
    } else if (p.at(SyntaxKind::TRUE_KW) || p.at(SyntaxKind::FALSE_KW)) && is_rest_of_line_blank(
        p,
        1,
    ) {
        boolean(p);
    } else if p.at(SyntaxKind::NUMERAL) && is_rest_of_line_blank(p, 1) {
        integer(p);
    } else if (p.at(SyntaxKind::PLUS) || p.at(SyntaxKind::MINUS)) && p.nth_at(
        1,
        SyntaxKind::NUMERAL,
    ) && is_rest_of_line_blank(p, 2) {
        integer(p);
    } else {
        line_string(p);
    }
}

/// `true` or `false` alone on the rest of the line.
fn boolean(p: &mut Parser)
    requires
        old(p).inv(),
        !old(p).at_eof_spec(),
    ensures
        grammar_post(*old(p), *final(p)),
        final(p).gstate() == spec_boolean(old(p).kinds@, old(p).gstate()),
{
    let m = p.start();
    p.bump_any();
    m.complete(p, SyntaxKind::BOOLEAN);
}

/// An optional sign and a numeral.
fn integer(p: &mut Parser)
    requires
        old(p).inv(),
        !old(p).at_eof_spec(),
    ensures
        grammar_post(*old(p), *final(p)),
        final(p).gstate() == spec_integer(old(p).kinds@, old(p).gstate()),
{
    let m = p.start();
    if p.at(SyntaxKind::PLUS) || p.at(SyntaxKind::MINUS) {
        p.bump_any();
    }
    p.eat(SyntaxKind::NUMERAL);
    m.complete(p, SyntaxKind::INTEGER);
}

/// Coalesces everything up to the end of the line into one STRING token.
fn line_string(p: &mut Parser)
    requires
        old(p).inv(),
    ensures
        grammar_post(*old(p), *final(p)),
        final(p).gstate() == spec_line_string(old(p).kinds@, old(p).gstate()),
{
    let ghost pre = *p;
    let m = p.start();
    let ghost started = *p;
    let len = p.kinds.len();
    let mut count: usize = 0;
    let mut stop = false;
    while !stop
        invariant
            *p == started,
            p.inv(),
            len == p.kinds@.len(),
            p.pos == pre.pos,
            p.kinds@ == pre.kinds@,
            p.clens@ == pre.clens@,
            p.pos + count <= p.kinds@.len(),
            m.pos < p.events.events@.len(),
            p.events.events@[m.pos as int] is Tombstone,
            line_end(p.kinds@, p.pos as int) == line_end(p.kinds@, p.pos + count),
            stop ==> (p.pos + count >= p.kinds@.len() || p.kinds@[p.pos + count]
                == SyntaxKind::NEWLINE),
        decreases p.kinds@.len() - p.pos - count + (if stop { 0int } else { 1int }),
    {
        if p.nth_at(count, SyntaxKind::NEWLINE) || p.nth_at_eof(count) {
            stop = true;
        } else {
            count = count + 1;
        }
    }
    proof {
        assert(line_end(p.kinds@, p.pos + count) == p.pos + count);
        assert(count as int == line_end(pre.kinds@, pre.pos as int) - pre.pos);
    }
    p.bump_remap(SyntaxKind::STRING, count);
    m.complete(p, SyntaxKind::LINE_STRING);
}

/// An opening quote, the body, and the closing quote, as a value.
fn quoted_value(p: &mut Parser, quote: SyntaxKind)
    requires
        old(p).inv(),
        old(p).at_spec(quote),
    ensures
        grammar_post(*old(p), *final(p)),
        final(p).gstate() == spec_quoted_value(old(p).kinds@, old(p).gstate(), quote),
{
    let m = p.start();
    p.bump(quote);
    p.eat(SyntaxKind::STRING);
    if !p.eat(quote) {
        p.error(SyntaxErrorKind::MissingClosingQuote);
    }
    m.complete(p, SyntaxKind::QUOTED_STRING);
}

/// The block-string header: `|` or `>`, an optional chomp indicator, an
/// optional space, and the newline.
fn block_string_header(p: &mut Parser)
    requires
        old(p).inv(),
        !old(p).at_eof_spec(),
    ensures
        grammar_post(*old(p), *final(p)),
        final(p).pos > old(p).pos,
        final(p).gstate() == spec_block_header(old(p).kinds@, old(p).gstate()),
{
    let m = p.start();
    p.bump_any();
    if p.at(SyntaxKind::PLUS) {
        p.bump(SyntaxKind::PLUS);
    } else if p.at(SyntaxKind::MINUS) {
        p.bump(SyntaxKind::MINUS);
    }
    p.eat(SyntaxKind::SPACE);
    p.eat(SyntaxKind::NEWLINE);
    m.complete(p, SyntaxKind::BLOCK_STRING_HEADER);
}

/// An empty block-string line: a line node with no string token.
fn block_string_empty_line(p: &mut Parser)
    requires
        old(p).inv(),
    ensures
        grammar_post(*old(p), *final(p)),
        final(p).pos == old(p).pos,
        final(p).gstate() == spec_empty_line(old(p).gstate()),
{
    let m = p.start();
    m.complete(p, SyntaxKind::LINE_STRING);
}

/// Does the block continue on the line after the current newline?
fn block_continues_after_newline(p: &Parser, indent_level: u32) -> (r: bool)
    requires
        p.inv(),
        p.at_spec(SyntaxKind::NEWLINE),
    ensures
        r == spec_continues(p.kinds@, p.clens@, p.pos as int, indent_level),
{
    if p.nth_at_eof(1) {
        return false;
    }
    if p.nth_at(1, SyntaxKind::NEWLINE) {
        return true;
    }
    if p.nth_at(1, SyntaxKind::SPACE) {
        let indent = p.nth_clen(1);
        return indent > indent_level;
    }
    false
}

/// The block string: header, base-indent discovery, then line-by-line
/// consumption with exact indent stripping.
fn block_string(p: &mut Parser, indent_level: u32)
    requires
        old(p).inv(),
        !old(p).at_eof_spec(),
    ensures
        grammar_post(*old(p), *final(p)),
        final(p).pos > old(p).pos,
        final(p).gstate() == spec_block_string(old(p).kinds@, old(p).gstate(), indent_level),
{
    let ghost pre = *p;
    let m = p.start();
    block_string_header(p);
    let ghost hdr = *p;

    // base-indent discovery: the leading-space count of the first line
    // with non-whitespace content
    let mut base_indent: u32 = 0;
    let mut found = false;
    let mut offset: usize = 0;
    let mut scanning = true;
    let len = p.kinds.len();
    proof {
        assert(spec_base_scan(p.kinds@, p.clens@, p.pos as int, 0) == spec_base_scan(
            p.kinds@,
            p.clens@,
            p.pos as int,
            0,
        ));
    }
    while scanning
        invariant
            *p == hdr,
            grammar_mid(pre, *p, 1),
            len == p.kinds@.len(),
            p.pos > pre.pos,
            m.pos < p.events.events@.len(),
            p.events.events@[m.pos as int] is Tombstone,
            offset <= p.kinds@.len(),
            scanning ==> base_indent == 0,
            scanning ==> spec_base_scan(p.kinds@, p.clens@, p.pos as int, 0) == spec_base_scan(
                p.kinds@,
                p.clens@,
                p.pos as int,
                offset as int,
            ),
            !scanning ==> spec_base_scan(p.kinds@, p.clens@, p.pos as int, 0) == (
                found,
                base_indent,
            ),
        decreases p.kinds@.len() - offset + (if scanning { 1int } else { 0int }),
    {
        if p.nth_at_eof(offset) {
            proof {
                assert(spec_base_scan(p.kinds@, p.clens@, p.pos as int, offset as int) == (
                    false,
                    0u32,
                ));
            }
            found = false;
            scanning = false;
        } else if p.nth_at(offset, SyntaxKind::SPACE) {
            let indent = p.nth_clen(offset);
            let off1 = offset + 1;
            if p.nth_at(off1, SyntaxKind::NEWLINE) {
                // whitespace-only line: skip it
                offset = offset + 2;
            } else if p.nth_at_eof(off1) {
                proof {
                    assert(spec_base_scan(p.kinds@, p.clens@, p.pos as int, offset as int) == (
                        false,
                        0u32,
                    ));
                }
                found = false;
                scanning = false;
            } else {
                proof {
                    assert(spec_base_scan(p.kinds@, p.clens@, p.pos as int, offset as int) == (
                        true,
                        indent,
                    ));
                }
                base_indent = indent;
                found = true;
                scanning = false;
            }
        } else if p.nth_at(offset, SyntaxKind::NEWLINE) {
            offset = offset + 1;
        } else {
            proof {
                assert(spec_base_scan(p.kinds@, p.clens@, p.pos as int, offset as int) == (
                    true,
                    0u32,
                ));
            }
            base_indent = 0;
            found = true;
            scanning = false;
        }
    }

    if !found || base_indent <= indent_level {
        // no content, or the content belongs to the enclosing scope
        m.complete(p, SyntaxKind::BLOCK_STRING);
        return ;
    }

    let ghost lentry = hdr.gstate();
    let mut run = true;
    while run
        invariant
            pre == *old(p),
            grammar_mid(pre, *p, 1),
            p.pos > pre.pos,
            m.pos < p.events.events@.len(),
            p.events.events@[m.pos as int] is Tombstone,
            base_indent > indent_level,
            p.kinds@ == pre.kinds@,
            run ==> spec_block_lines(pre.kinds@, lentry, indent_level, base_indent)
                == spec_block_lines(pre.kinds@, p.gstate(), indent_level, base_indent),
            !run ==> spec_block_lines(pre.kinds@, lentry, indent_level, base_indent)
                == p.gstate(),
        decreases p.kinds@.len() - p.pos + (if run { 1int } else { 0int }),
    {
        let ghost round = p.gstate();
        if p.at_eof() {
            proof {
                assert(spec_block_lines(pre.kinds@, round, indent_level, base_indent) == round);
            }
            run = false;
        } else if p.at(SyntaxKind::NEWLINE) {
            // completely empty line
            block_string_empty_line(p);
            if p.at(SyntaxKind::NEWLINE) && block_continues_after_newline(p, indent_level) {
                p.bump(SyntaxKind::NEWLINE);
                proof {
                    assert(spec_block_lines(pre.kinds@, round, indent_level, base_indent)
                        == spec_block_lines(pre.kinds@, p.gstate(), indent_level, base_indent));
                }
            } else {
                proof {
                    assert(spec_block_lines(pre.kinds@, round, indent_level, base_indent)
                        == p.gstate());
                }
                run = false;
            }
        } else if p.at(SyntaxKind::SPACE) {
            let line_indent = p.current_clen();
            if line_indent >= base_indent {
                p.eat_upto(SyntaxKind::SPACE, base_indent);
                // after stripping, a remainder of spaces before the line
                // end still counts as blank
                let blank = if p.at(SyntaxKind::SPACE) {
                    p.nth_at(1, SyntaxKind::NEWLINE) || p.nth_at_eof(1)
                } else {
                    p.at(SyntaxKind::NEWLINE) || p.at_eof()
                };
                if blank {
                    p.eat(SyntaxKind::SPACE);
                    block_string_empty_line(p);
                } else {
                    line_string(p);
                }
                if p.at(SyntaxKind::NEWLINE) && block_continues_after_newline(p, indent_level) {
                    p.bump(SyntaxKind::NEWLINE);
                    proof {
                        if p.pos <= round.pos {
                            assert(false);
                        }
                        assert(spec_block_lines(pre.kinds@, round, indent_level, base_indent)
                            == spec_block_lines(
                            pre.kinds@,
                            p.gstate(),
                            indent_level,
                            base_indent,
                        ));
                    }
                } else {
                    proof {
                        assert(spec_block_lines(pre.kinds@, round, indent_level, base_indent)
                            == p.gstate());
                    }
                    run = false;
                }
            } else if line_indent <= indent_level {
                proof {
                    assert(spec_block_lines(pre.kinds@, round, indent_level, base_indent)
                        == round);
                }
                run = false;
            } else {
                // indent_level < line_indent < base_indent
                if p.nth_at(1, SyntaxKind::NEWLINE) || p.nth_at_eof(1) {
                    p.bump(SyntaxKind::SPACE);
                    block_string_empty_line(p);
                } else {
                    p.error(SyntaxErrorKind::InsufficientIndent);
                    let m2 = p.start();
                    p.bump(SyntaxKind::SPACE);
                    skip_to_end_of_line(p);
                    m2.complete(p, SyntaxKind::ERROR);
                }
                if p.at(SyntaxKind::NEWLINE) && block_continues_after_newline(p, indent_level) {
                    p.bump(SyntaxKind::NEWLINE);
                    proof {
                        if p.pos <= round.pos {
                            assert(false);
                        }
                        assert(spec_block_lines(pre.kinds@, round, indent_level, base_indent)
                            == spec_block_lines(
                            pre.kinds@,
                            p.gstate(),
                            indent_level,
                            base_indent,
                        ));
                    }
                } else {
                    proof {
                        assert(spec_block_lines(pre.kinds@, round, indent_level, base_indent)
                            == p.gstate());
                    }
                    run = false;
                }
            }
        } else {
            // non-space content at column zero ends the block
            proof {
                assert(spec_block_lines(pre.kinds@, round, indent_level, base_indent) == round);
            }
            run = false;
        }
    }
    m.complete(p, SyntaxKind::BLOCK_STRING);
}

} // verus!
