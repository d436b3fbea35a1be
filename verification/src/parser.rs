//! The parser driver: a token cursor over remapped syntax kinds, feeding
//! an event log.
//!
//! The driver owns lookahead, token-length peeking, and marker scoping.
//! Its central invariant is conservation: the characters already emitted
//! into events plus the characters still ahead of the cursor always equal
//! the source length, so a parse that consumes every token has emitted a
//! lossless event stream.

use vstd::prelude::*;

use crate::event::{esum, lemma_esum_nonneg, lemma_event_push, lemma_event_replace, tomb_count, Event, EventContainer};
use crate::lexer::TokenStream;
use crate::syntax::{SyntaxErrorKind, SyntaxKind};
use crate::text::{crange, lemma_crange_nonneg, lemma_crange_push, lemma_crange_split, lemma_crange_update};
use crate::token::{Quote, TokenKind};

verus! {

/// The syntax tokens one lexer token flattens to: simple kinds pass
/// through, empty numerals demote to words, and string tokens split into
/// quote, body, and (if terminated) closing quote.
pub open spec fn remap_token(kind: TokenKind, clen: int) -> (Seq<SyntaxKind>, Seq<u32>) {
    match kind {
        TokenKind::Word => (seq![SyntaxKind::WORD], seq![clen as u32]),
        TokenKind::True => (seq![SyntaxKind::TRUE_KW], seq![clen as u32]),
        TokenKind::False => (seq![SyntaxKind::FALSE_KW], seq![clen as u32]),
        TokenKind::Tab => (seq![SyntaxKind::TAB], seq![clen as u32]),
        TokenKind::Newline => (seq![SyntaxKind::NEWLINE], seq![clen as u32]),
        TokenKind::Space => (seq![SyntaxKind::SPACE], seq![clen as u32]),
        TokenKind::CloseBrace => (seq![SyntaxKind::CLOSE_BRACE], seq![clen as u32]),
        TokenKind::Greater => (seq![SyntaxKind::GREATER], seq![clen as u32]),
        TokenKind::Minus => (seq![SyntaxKind::MINUS], seq![clen as u32]),
        TokenKind::OpenBrace => (seq![SyntaxKind::OPEN_BRACE], seq![clen as u32]),
        TokenKind::Pipe => (seq![SyntaxKind::PIPE], seq![clen as u32]),
        TokenKind::Plus => (seq![SyntaxKind::PLUS], seq![clen as u32]),
        TokenKind::Sharp => (seq![SyntaxKind::SHARP], seq![clen as u32]),
        TokenKind::Numeral { radix, is_empty } => if is_empty {
            (seq![SyntaxKind::WORD], seq![clen as u32])
        } else {
            (seq![SyntaxKind::NUMERAL], seq![clen as u32])
        },
        TokenKind::String { is_terminated, quote } => {
            let qk = match quote {
                Quote::Single => SyntaxKind::SINGLE_QUOTE,
                Quote::Double => SyntaxKind::DOUBLE_QUOTE,
            };
            if is_terminated {
                (seq![qk, SyntaxKind::STRING, qk], seq![1u32, (clen - 2) as u32, 1u32])
            } else {
                (seq![qk, SyntaxKind::STRING], seq![1u32, (clen - 1) as u32])
            }
        },
    }
}

/// The flattened kind and length arrays of a whole lexer stream.
pub open spec fn spec_remap(pairs: Seq<(TokenKind, int)>) -> (Seq<SyntaxKind>, Seq<u32>)
    decreases pairs.len(),
{
    if pairs.len() == 0 {
        (Seq::empty(), Seq::empty())
    } else {
        let front = spec_remap(pairs.drop_last());
        let one = remap_token(pairs.last().0, pairs.last().1);
        (front.0 + one.0, front.1 + one.1)
    }
}

/// The state a grammar step transforms: the cursor position, the token
/// lengths (one slot may shrink when a space run is split), and the
/// event log.
pub struct PState {
    pub pos: int,
    pub clens: Seq<u32>,
    pub events: Seq<Event>,
}

/// Consumes the current token if it has kind `k`.
pub open spec fn s_eat(kinds: Seq<SyntaxKind>, st: PState, k: SyntaxKind) -> PState {
    if st.pos < kinds.len() && kinds[st.pos] == k {
        PState {
            pos: st.pos + 1,
            clens: st.clens,
            events: st.events.push(Event::Token { kind: k, clen: st.clens[st.pos] }),
        }
    } else {
        st
    }
}

/// Consumes the current token unconditionally (a no-op at the end).
pub open spec fn s_bump(kinds: Seq<SyntaxKind>, st: PState) -> PState {
    if st.pos < kinds.len() {
        PState {
            pos: st.pos + 1,
            clens: st.clens,
            events: st.events.push(
                Event::Token { kind: kinds[st.pos], clen: st.clens[st.pos] },
            ),
        }
    } else {
        st
    }
}

/// Splits the current token: emits a prefix of exactly `len` characters
/// and keeps the remainder in place.
pub open spec fn s_eat_upto(kinds: Seq<SyntaxKind>, st: PState, k: SyntaxKind, len: u32) -> PState {
    if st.pos < kinds.len() && kinds[st.pos] == k && st.clens[st.pos] >= len {
        let pushed = st.events.push(Event::Token { kind: k, clen: len });
        if st.clens[st.pos] > len {
            PState {
                pos: st.pos,
                clens: st.clens.update(st.pos, (st.clens[st.pos] - len) as u32),
                events: pushed,
            }
        } else {
            PState { pos: st.pos + 1, clens: st.clens, events: pushed }
        }
    } else {
        st
    }
}

/// Coalesces the next `n` tokens into one emitted token of kind `k`.
pub open spec fn s_bump_remap(kinds: Seq<SyntaxKind>, st: PState, k: SyntaxKind, n: int) -> PState {
    PState {
        pos: st.pos + n,
        clens: st.clens,
        events: st.events.push(
            Event::Token { kind: k, clen: crange(st.clens, st.pos, st.pos + n) as u32 },
        ),
    }
}

/// Reserves an event slot for a node whose kind is not yet known.
pub open spec fn s_start(st: PState) -> PState {
    PState { pos: st.pos, clens: st.clens, events: st.events.push(Event::Tombstone) }
}

/// Fills the reserved slot `mpos` and closes the node.
pub open spec fn s_complete(st: PState, mpos: int, kind: SyntaxKind) -> PState {
    PState {
        pos: st.pos,
        clens: st.clens,
        events: st.events.update(mpos, Event::StartNode { kind }).push(Event::FinishNode),
    }
}

/// Records a parse error at the current position.
pub open spec fn s_error(st: PState, kind: SyntaxErrorKind) -> PState {
    PState { pos: st.pos, clens: st.clens, events: st.events.push(Event::Error { kind }) }
}

/// The recursive-descent driver's state.
pub(crate) struct Parser {
    pub(crate) kinds: Vec<SyntaxKind>,
    pub(crate) clens: Vec<u32>,
    pub(crate) pos: usize,
    pub(crate) events: EventContainer,
    pub(crate) total: Ghost<int>,
}

impl Parser {
    /// The characters still ahead of the cursor.
    pub(crate) open spec fn remaining(self) -> int {
        crange(self.clens@, self.pos as int, self.clens@.len() as int)
    }

    /// Conservation: emitted plus remaining characters equal the source.
    pub(crate) open spec fn inv(self) -> bool {
        &&& self.kinds@.len() == self.clens@.len()
        &&& self.pos <= self.kinds@.len()
        &&& esum(self.events.events@) + self.remaining() == self.total@
        &&& 0 <= self.total@ <= u32::MAX
    }

    pub(crate) open spec fn at_spec(self, k: SyntaxKind) -> bool {
        self.pos < self.kinds@.len() && self.kinds@[self.pos as int] == k
    }

    pub(crate) open spec fn nth_at_spec(self, n: int, k: SyntaxKind) -> bool {
        self.pos + n < self.kinds@.len() && self.kinds@[self.pos + n] == k
    }

    pub(crate) open spec fn at_eof_spec(self) -> bool {
        self.pos >= self.kinds@.len()
    }

    /// The driver's state as a grammar-step value.
    pub(crate) open spec fn gstate(self) -> PState {
        PState { pos: self.pos as int, clens: self.clens@, events: self.events.events@ }
    }
}

/// The state relation inside a grammar function while `opened` node
/// slots of its own are still reserved.
pub(crate) open spec fn grammar_mid(pre: Parser, post: Parser, opened: int) -> bool {
    &&& post.inv()
    &&& post.total == pre.total
    &&& post.kinds@ == pre.kinds@
    &&& post.clens@.len() == pre.clens@.len()
    &&& pre.pos <= post.pos <= post.kinds@.len()
    &&& pre.events.events@.len() <= post.events.events@.len()
    &&& forall|i: int|
        0 <= i < pre.events.events@.len() ==> post.events.events@[i] == pre.events.events@[i]
    &&& tomb_count(post.events.events@) == tomb_count(pre.events.events@) + opened
}

/// What every grammar function guarantees: the invariant, an unchanged
/// source, a cursor that only moves forward, an event log that only
/// grows, and a balanced tombstone count.
pub(crate) open spec fn grammar_post(pre: Parser, post: Parser) -> bool {
    grammar_mid(pre, post, 0)
}

impl Parser {
    /// Flattens the lexer stream into parser tokens: empty numerals are
    /// demoted to words, and string tokens split into quote, body, quote.
    pub(crate) fn new(ts: &TokenStream) -> (p: Parser)
        requires
            ts.wf(),
            crange(ts.clens@, 0, ts.clens@.len() as int) <= u32::MAX,
        ensures
            p.inv(),
            p.pos == 0,
            p.events.events@ =~= Seq::<Event>::empty(),
            p.total@ == crange(ts.clens@, 0, ts.clens@.len() as int),
            p.kinds@ == spec_remap(ts.lex_pairs()).0,
            p.clens@ == spec_remap(ts.lex_pairs()).1,
    {
        let mut kinds: Vec<SyntaxKind> = Vec::new();
        let mut clens: Vec<u32> = Vec::new();
        let n = ts.tokens.len();
        let mut i: usize = 0;
        while i < n
            invariant
                ts.wf(),
                n == ts.tokens@.len(),
                i <= n,
                kinds@.len() == clens@.len(),
                crange(ts.clens@, 0, ts.clens@.len() as int) <= u32::MAX,
                crange(clens@, 0, clens@.len() as int) == crange(ts.clens@, 0, i as int),
            kinds@ == spec_remap(ts.lex_pairs().take(i as int)).0,
            clens@ == spec_remap(ts.lex_pairs().take(i as int)).1,
            decreases n - i,
        {
            let ghost kinds0 = kinds@;
            let ghost clens0 = clens@;
            let kind = ts.tokens[i].kind;
            let clen = ts.clens[i];
            proof {
                lemma_crange_split(ts.clens@, 0, i as int, i + 1);
                assert(crange(ts.clens@, i as int, i + 1) == ts.clens@[i as int] + crange(
                    ts.clens@,
                    i + 1,
                    i + 1,
                ));
            }
            match kind {
                TokenKind::Word => { push_tok(&mut kinds, &mut clens, SyntaxKind::WORD, clen); },
                TokenKind::True => { push_tok(&mut kinds, &mut clens, SyntaxKind::TRUE_KW, clen);
                },
                TokenKind::False => {
                    push_tok(&mut kinds, &mut clens, SyntaxKind::FALSE_KW, clen);
                },
                TokenKind::Tab => { push_tok(&mut kinds, &mut clens, SyntaxKind::TAB, clen); },
                TokenKind::Newline => {
                    push_tok(&mut kinds, &mut clens, SyntaxKind::NEWLINE, clen);
                },
                TokenKind::Space => { push_tok(&mut kinds, &mut clens, SyntaxKind::SPACE, clen);
                },
                TokenKind::CloseBrace => {
                    push_tok(&mut kinds, &mut clens, SyntaxKind::CLOSE_BRACE, clen);
                },
                TokenKind::Greater => {
                    push_tok(&mut kinds, &mut clens, SyntaxKind::GREATER, clen);
                },
                TokenKind::Minus => { push_tok(&mut kinds, &mut clens, SyntaxKind::MINUS, clen);
                },
                TokenKind::OpenBrace => {
                    push_tok(&mut kinds, &mut clens, SyntaxKind::OPEN_BRACE, clen);
                },
                TokenKind::Pipe => { push_tok(&mut kinds, &mut clens, SyntaxKind::PIPE, clen); },
                TokenKind::Plus => { push_tok(&mut kinds, &mut clens, SyntaxKind::PLUS, clen); },
                TokenKind::Sharp => { push_tok(&mut kinds, &mut clens, SyntaxKind::SHARP, clen);
                },
                TokenKind::Numeral { radix, is_empty } => {
                    if is_empty {
                        push_tok(&mut kinds, &mut clens, SyntaxKind::WORD, clen);
                    } else {
                        push_tok(&mut kinds, &mut clens, SyntaxKind::NUMERAL, clen);
                    }
                },
                TokenKind::String { is_terminated, quote } => {
                    let qk = match quote {
                        Quote::Single => SyntaxKind::SINGLE_QUOTE,
                        Quote::Double => SyntaxKind::DOUBLE_QUOTE,
                    };
                    if is_terminated {
                        push_tok(&mut kinds, &mut clens, qk, 1);
                        push_tok(&mut kinds, &mut clens, SyntaxKind::STRING, clen - 2);
                        push_tok(&mut kinds, &mut clens, qk, 1);
                    } else {
                        push_tok(&mut kinds, &mut clens, qk, 1);
                        push_tok(&mut kinds, &mut clens, SyntaxKind::STRING, clen - 1);
                    }
                },
            }
            proof {
                let pr = ts.lex_pairs()[i as int];
                assert(pr == (ts.tokens@[i as int].kind, ts.clens@[i as int] as int));
                let one = remap_token(pr.0, pr.1);
                assert(kinds@ =~= kinds0 + one.0);
                assert(clens@ =~= clens0 + one.1);
                assert(ts.lex_pairs().take(i + 1).drop_last() =~= ts.lex_pairs().take(i as int));
                assert(ts.lex_pairs().take(i + 1).last() == pr);
                assert(kinds@ =~= spec_remap(ts.lex_pairs().take(i + 1)).0);
                assert(clens@ =~= spec_remap(ts.lex_pairs().take(i + 1)).1);
            }
            i = i + 1;
        }
        let p = Parser {
            kinds,
            clens,
            pos: 0,
            events: EventContainer::new(),
            total: Ghost(crange(ts.clens@, 0, ts.clens@.len() as int)),
        };
        proof {
            lemma_crange_nonneg(ts.clens@, 0, ts.clens@.len() as int);
            assert(ts.lex_pairs().take(ts.tokens@.len() as int) =~= ts.lex_pairs());
        }
        p
    }

    pub(crate) fn current(&self) -> (r: Option<SyntaxKind>)
        requires
            self.inv(),
        ensures
            r == (if self.pos < self.kinds@.len() {
                Some(self.kinds@[self.pos as int])
            } else {
                Option::<SyntaxKind>::None
            }),
    {
        if self.pos < self.kinds.len() {
            Some(self.kinds[self.pos])
        } else {
            None
        }
    }

    pub(crate) fn at(&self, k: SyntaxKind) -> (r: bool)
        requires
            self.inv(),
        ensures
            r == self.at_spec(k),
    {
        self.pos < self.kinds.len() && self.kinds[self.pos] == k
    }

    pub(crate) fn at_eof(&self) -> (r: bool)
        requires
            self.inv(),
        ensures
            r == self.at_eof_spec(),
    {
        self.pos >= self.kinds.len()
    }

    pub(crate) fn nth_at(&self, n: usize, k: SyntaxKind) -> (r: bool)
        requires
            self.inv(),
        ensures
            r == self.nth_at_spec(n as int, k),
    {
        let len = self.kinds.len();
        n < len - self.pos && self.kinds[self.pos + n] == k
    }

    pub(crate) fn nth_at_eof(&self, n: usize) -> (r: bool)
        requires
            self.inv(),
        ensures
            r == (self.pos + n >= self.kinds@.len()),
    {
        let len = self.kinds.len();
        n >= len - self.pos
    }

    pub(crate) fn current_clen(&self) -> (r: u32)
        requires
            self.inv(),
            !self.at_eof_spec(),
        ensures
            r == self.clens@[self.pos as int],
    {
        self.clens[self.pos]
    }

    pub(crate) fn nth_clen(&self, n: usize) -> (r: u32)
        requires
            self.inv(),
            self.pos + n < self.kinds@.len(),
        ensures
            r == self.clens@[self.pos + n],
    {
        let len = self.clens.len();
        self.clens[self.pos + n]
    }

    pub(crate) fn nth_kind(&self, n: usize) -> (r: SyntaxKind)
        requires
            self.inv(),
            self.pos + n < self.kinds@.len(),
        ensures
            r == self.kinds@[self.pos + n],
    {
        let len = self.kinds.len();
        self.kinds[self.pos + n]
    }

    /// Reserves an event slot for a node whose kind is not yet known.
    pub(crate) fn start(&mut self) -> (m: Marker)
        requires
            old(self).inv(),
        ensures
            final(self).inv(),
            final(self).total == old(self).total,
            final(self).kinds@ == old(self).kinds@,
            final(self).clens@ == old(self).clens@,
            final(self).pos == old(self).pos,
            final(self).events.events@ == old(self).events.events@.push(Event::Tombstone),
            m.pos == old(self).events.events@.len(),
            tomb_count(final(self).events.events@) == tomb_count(old(self).events.events@) + 1,
            final(self).gstate() == s_start(old(self).gstate()),
    {
        let pos = self.events.len();
        proof {
            lemma_event_push(self.events.events@, Event::Tombstone);
        }
        self.events.push_tombstone();
        Marker { pos }
    }

    /// Consumes the current token if it has the given kind.
    pub(crate) fn eat(&mut self, k: SyntaxKind) -> (r: bool)
        requires
            old(self).inv(),
        ensures
            grammar_post(*old(self), *final(self)),
            final(self).clens@ == old(self).clens@,
            r == old(self).at_spec(k),
            r ==> final(self).pos == old(self).pos + 1 && final(self).events.events@ == old(
                self,
            ).events.events@.push(
                Event::Token { kind: k, clen: old(self).clens@[old(self).pos as int] },
            ),
            !r ==> *final(self) == *old(self),
            final(self).gstate() == s_eat(old(self).kinds@, old(self).gstate(), k),
    {
        if self.pos < self.kinds.len() && self.kinds[self.pos] == k {
            let clen = self.clens[self.pos];
            proof {
                lemma_event_push(self.events.events@, Event::Token { kind: k, clen });
                lemma_crange_split(
                    self.clens@,
                    self.pos as int,
                    self.pos + 1,
                    self.clens@.len() as int,
                );
                assert(crange(self.clens@, self.pos as int, self.pos + 1) == clen + crange(
                    self.clens@,
                    self.pos + 1,
                    self.pos + 1,
                ));
            }
            self.events.push(Event::Token { kind: k, clen });
            self.pos = self.pos + 1;
            true
        } else {
            false
        }
    }

    /// Splits the current token: emits a prefix of exactly `len`
    /// characters and keeps the remainder in place.
    pub(crate) fn eat_upto(&mut self, k: SyntaxKind, len: u32) -> (r: bool)
        requires
            old(self).inv(),
        ensures
            grammar_post(*old(self), *final(self)),
            r == (old(self).at_spec(k) && old(self).clens@[old(self).pos as int] >= len),
            !r ==> *final(self) == *old(self),
            r ==> final(self).events.events@ == old(self).events.events@.push(
                Event::Token { kind: k, clen: len },
            ),
            r && old(self).clens@[old(self).pos as int] > len ==> final(self).pos == old(
                self,
            ).pos && final(self).clens@ == old(self).clens@.update(
                old(self).pos as int,
                (old(self).clens@[old(self).pos as int] - len) as u32,
            ),
            r && old(self).clens@[old(self).pos as int] == len ==> final(self).pos == old(
                self,
            ).pos + 1 && final(self).clens@ == old(self).clens@,
            final(self).gstate() == s_eat_upto(old(self).kinds@, old(self).gstate(), k, len),
    {
        let nlen = self.kinds.len();
        if !(self.pos < nlen && self.kinds[self.pos] == k) {
            return false;
        }
        let current = self.clens[self.pos];
        if current < len {
            return false;
        }
        proof {
            lemma_event_push(self.events.events@, Event::Token { kind: k, clen: len });
            lemma_crange_split(
                self.clens@,
                self.pos as int,
                self.pos + 1,
                self.clens@.len() as int,
            );
        }
        self.events.push(Event::Token { kind: k, clen: len });
        if current > len {
            let ghost pre = self.clens@;
            self.clens[self.pos] = current - len;
            proof {
                lemma_crange_update(
                    pre,
                    self.pos as int,
                    pre.len() as int,
                    self.pos as int,
                    (current - len) as u32,
                );
            }
        } else {
            self.pos = self.pos + 1;
        }
        true
    }

    /// Consumes the current token unconditionally.
    pub(crate) fn bump_any(&mut self)
        requires
            old(self).inv(),
            !old(self).at_eof_spec(),
        ensures
            grammar_post(*old(self), *final(self)),
            final(self).clens@ == old(self).clens@,
            final(self).pos == old(self).pos + 1,
            final(self).events.events@ == old(self).events.events@.push(
                Event::Token {
                    kind: old(self).kinds@[old(self).pos as int],
                    clen: old(self).clens@[old(self).pos as int],
                },
            ),
            final(self).gstate() == s_bump(old(self).kinds@, old(self).gstate()),
    {
        let nlen = self.kinds.len();
        let k = self.kinds[self.pos];
        let clen = self.clens[self.pos];
        proof {
            lemma_event_push(self.events.events@, Event::Token { kind: k, clen });
            lemma_crange_split(
                self.clens@,
                self.pos as int,
                self.pos + 1,
                self.clens@.len() as int,
            );
        }
        self.events.push(Event::Token { kind: k, clen });
        self.pos = self.pos + 1;
    }

    /// Consumes the current token, which must have the given kind.
    pub(crate) fn bump(&mut self, k: SyntaxKind)
        requires
            old(self).inv(),
            old(self).at_spec(k),
        ensures
            grammar_post(*old(self), *final(self)),
            final(self).clens@ == old(self).clens@,
            final(self).pos == old(self).pos + 1,
            final(self).events.events@ == old(self).events.events@.push(
                Event::Token { kind: k, clen: old(self).clens@[old(self).pos as int] },
            ),
            final(self).gstate() == s_bump(old(self).kinds@, old(self).gstate()),
            final(self).gstate() == s_eat(old(self).kinds@, old(self).gstate(), k),
    {
        self.bump_any();
    }

    /// Coalesces the next `n` tokens into one emitted token of kind `k`.
    pub(crate) fn bump_remap(&mut self, k: SyntaxKind, n: usize)
        requires
            old(self).inv(),
            old(self).pos + n <= old(self).kinds@.len(),
        ensures
            grammar_post(*old(self), *final(self)),
            final(self).clens@ == old(self).clens@,
            final(self).pos == old(self).pos + n,
            final(self).events.events@.len() == old(self).events.events@.len() + 1,
            final(self).gstate() == s_bump_remap(old(self).kinds@, old(self).gstate(), k, n as int),
    {
        let len = self.clens.len();
        let mut sum: u32 = 0;
        let mut j: usize = 0;
        proof {
            lemma_esum_nonneg(self.events.events@);
            lemma_crange_split(
                self.clens@,
                self.pos as int,
                self.pos + n,
                self.clens@.len() as int,
            );
            lemma_crange_nonneg(self.clens@, self.pos + n, self.clens@.len() as int);
        }
        while j < n
            invariant
                *self == *old(self),
                self.inv(),
                self.pos + n <= self.kinds@.len(),
                len == self.clens@.len(),
                j <= n,
                sum as int == crange(self.clens@, self.pos as int, self.pos + j),
                crange(self.clens@, self.pos as int, self.pos + n) <= u32::MAX,
            decreases n - j,
        {
            proof {
                lemma_crange_split(self.clens@, self.pos as int, self.pos + j, self.pos + n);
                lemma_crange_split(self.clens@, self.pos + j, self.pos + j + 1, self.pos + n);
                lemma_crange_nonneg(self.clens@, self.pos + j + 1, self.pos + n);
                lemma_crange_split(self.clens@, self.pos as int, self.pos + j, self.pos + j + 1);
            }
            let c = self.clens[self.pos + j];
            sum = sum + c;
            j = j + 1;
        }
        proof {
            lemma_event_push(self.events.events@, Event::Token { kind: k, clen: sum });
            lemma_crange_split(
                self.clens@,
                self.pos as int,
                self.pos + n,
                self.clens@.len() as int,
            );
        }
        self.events.push(Event::Token { kind: k, clen: sum });
        self.pos = self.pos + n;
    }

    /// Records a parse error at the current position.
    pub(crate) fn error(&mut self, kind: SyntaxErrorKind)
        requires
            old(self).inv(),
        ensures
            grammar_post(*old(self), *final(self)),
            final(self).clens@ == old(self).clens@,
            final(self).pos == old(self).pos,
            final(self).events.events@ == old(self).events.events@.push(Event::Error { kind }),
            final(self).gstate() == s_error(old(self).gstate(), kind),
    {
        proof {
            lemma_event_push(self.events.events@, Event::Error { kind });
        }
        self.events.push(Event::Error { kind });
    }
}

/// A reserved start-node slot; completing it decides the node's kind.
pub(crate) struct Marker {
    pub(crate) pos: usize,
}

impl Marker {
    /// Fills the reserved slot with a start-node event and closes the
    /// node.
    pub(crate) fn complete(self, p: &mut Parser, kind: SyntaxKind)
        requires
            old(p).inv(),
            self.pos < old(p).events.events@.len(),
            old(p).events.events@[self.pos as int] is Tombstone,
        ensures
            final(p).inv(),
            final(p).total == old(p).total,
            final(p).kinds@ == old(p).kinds@,
            final(p).clens@ == old(p).clens@,
            final(p).pos == old(p).pos,
            final(p).events.events@ == old(p).events.events@.update(
                self.pos as int,
                Event::StartNode { kind },
            ).push(Event::FinishNode),
            tomb_count(final(p).events.events@) == tomb_count(old(p).events.events@) - 1,
            final(p).gstate() == s_complete(old(p).gstate(), self.pos as int, kind),
    {
        proof {
            lemma_event_replace(p.events.events@, self.pos as int, kind);
            lemma_event_push(
                p.events.events@.update(self.pos as int, Event::StartNode { kind }),
                Event::FinishNode,
            );
        }
        p.events.replace_tombstone(self.pos, kind);
        p.events.push(Event::FinishNode);
    }
}

/// Appends one remapped token.
fn push_tok(kinds: &mut Vec<SyntaxKind>, clens: &mut Vec<u32>, k: SyntaxKind, clen: u32)
    requires
        old(kinds)@.len() == old(clens)@.len(),
    ensures
        final(kinds)@ == old(kinds)@.push(k),
        final(clens)@ == old(clens)@.push(clen),
        crange(final(clens)@, 0, final(clens)@.len() as int) == crange(
            old(clens)@,
            0,
            old(clens)@.len() as int,
        ) + clen,
{
    proof {
        lemma_crange_push(old(clens)@, clen);
    }
    kinds.push(k);
    clens.push(clen);
}

} // verus!
