//! The lossless concrete syntax tree, built by replaying parser events.
//!
//! The tree is a plain owned structure: nodes carry a kind and children,
//! tokens carry a kind, their text, and their byte offset in the source.
//! Building is total: however the event log looks, the tree's text is the
//! prefix of the source covered by the log's tokens, and a log that
//! consumed the whole source yields a tree whose text is the source.
//! `parse` pins the result completely: the tree's shape and the reported
//! errors are proved equal to [`spec_parse_tree`] of the grammar's event
//! log, itself a function of the lexer's output.

use vstd::prelude::*;

use crate::event::{esum, lemma_esum_nonneg, Event};
use crate::grammar;
use crate::lexer::TokenStream;
use crate::grammar::spec_source_file;
use crate::parser::{spec_remap, PState, Parser};
use crate::text::crange;
use crate::syntax::{SyntaxError, SyntaxKind};
use crate::text::{byte_len, char_utf8_len, lemma_byte_len_bounds, lemma_byte_len_concat, utf8_len};

verus! {

/// A token of the tree: kind, text, and byte offset in the source.
pub struct CstToken {
    pub kind: SyntaxKind,
    pub text: Vec<char>,
    pub offset: u32,
}

/// A child of a node: an inner node or a token.
pub enum CstElement {
    Node(CstNode),
    Token(CstToken),
}

/// An inner node: kind and children.
pub struct CstNode {
    pub kind: SyntaxKind,
    pub children: Vec<CstElement>,
}

/// The text under one element.
pub open spec fn elem_text(e: CstElement) -> Seq<char>
    decreases e,
{
    match e {
        CstElement::Token(t) => t.text@,
        CstElement::Node(n) => subs_text(n.children@),
    }
}

/// The concatenated text of an element list.
pub open spec fn subs_text(es: Seq<CstElement>) -> Seq<char>
    decreases es,
{
    if es.len() == 0 {
        Seq::empty()
    } else {
        elem_text(es[0]) + subs_text(es.drop_first())
    }
}

/// The text of a whole node.
pub open spec fn node_text(n: CstNode) -> Seq<char> {
    subs_text(n.children@)
}

/// The summed byte lengths of the tokens under one element.
pub open spec fn elem_byte_sum(e: CstElement) -> int
    decreases e,
{
    match e {
        CstElement::Token(t) => byte_len(t.text@),
        CstElement::Node(n) => subs_byte_sum(n.children@),
    }
}

/// The summed byte lengths of the tokens under an element list.
pub open spec fn subs_byte_sum(es: Seq<CstElement>) -> int
    decreases es,
{
    if es.len() == 0 {
        0
    } else {
        elem_byte_sum(es[0]) + subs_byte_sum(es.drop_first())
    }
}

/// The token byte lengths of a tree sum to the byte length of its text.
pub proof fn lemma_subs_byte_sum(es: Seq<CstElement>)
    ensures
        subs_byte_sum(es) == byte_len(subs_text(es)),
    decreases es,
{
    if es.len() == 0 {
        assert(byte_len(Seq::<char>::empty()) == 0);
    } else {
        lemma_elem_byte_sum(es[0]);
        lemma_subs_byte_sum(es.drop_first());
        lemma_byte_len_concat(elem_text(es[0]), subs_text(es.drop_first()));
    }
}

/// The token byte lengths under one element sum to its text's byte length.
pub proof fn lemma_elem_byte_sum(e: CstElement)
    ensures
        elem_byte_sum(e) == byte_len(elem_text(e)),
    decreases e,
{
    match e {
        CstElement::Token(t) => {},
        CstElement::Node(n) => {
            lemma_subs_byte_sum(n.children@);
        },
    }
}

/// Appending an element appends its text.
pub proof fn lemma_subs_push(es: Seq<CstElement>, e: CstElement)
    ensures
        subs_text(es.push(e)) == subs_text(es) + elem_text(e),
    decreases es.len(),
{
    if es.len() == 0 {
        assert(es.push(e).drop_first() =~= Seq::<CstElement>::empty());
        assert(es.push(e)[0] == e);
        assert(subs_text(es) =~= Seq::<char>::empty());
        assert(subs_text(es.push(e)) == elem_text(e) + subs_text(Seq::<CstElement>::empty()));
        assert(subs_text(Seq::<CstElement>::empty()) =~= Seq::<char>::empty());
        assert(elem_text(e) + Seq::<char>::empty() =~= elem_text(e));
        assert(subs_text(es) + elem_text(e) =~= elem_text(e));
    } else {
        assert(es.push(e).drop_first() =~= es.drop_first().push(e));
        assert(es.push(e)[0] == es[0]);
        lemma_subs_push(es.drop_first(), e);
        assert((elem_text(es[0]) + subs_text(es.drop_first())) + elem_text(e) =~= elem_text(
            es[0],
        ) + (subs_text(es.drop_first()) + elem_text(e)));
    }
}


/// The abstract shape of a tree element, for stating what `parse`
/// builds.
pub enum SpecElem {
    Node(SyntaxKind, Seq<SpecElem>),
    Token(SyntaxKind, Seq<char>, int),
}

/// The abstract shape of one built element.
pub open spec fn elem_model(e: CstElement) -> SpecElem
    decreases e,
{
    match e {
        CstElement::Token(t) => SpecElem::Token(t.kind, t.text@, t.offset as int),
        CstElement::Node(n) => SpecElem::Node(n.kind, elems_model(n.children@)),
    }
}

/// The abstract shapes of an element list.
pub open spec fn elems_model(es: Seq<CstElement>) -> Seq<SpecElem>
    decreases es,
{
    if es.len() == 0 {
        Seq::empty()
    } else {
        seq![elem_model(es[0])] + elems_model(es.drop_first())
    }
}

/// A list and its shapes have the same length.
pub proof fn lemma_elems_model_len(es: Seq<CstElement>)
    ensures
        elems_model(es).len() == es.len(),
    decreases es,
{
    if es.len() > 0 {
        lemma_elems_model_len(es.drop_first());
    }
}

/// Appending an element appends its shape.
pub proof fn lemma_elems_model_push(es: Seq<CstElement>, e: CstElement)
    ensures
        elems_model(es.push(e)) == elems_model(es).push(elem_model(e)),
    decreases es.len(),
{
    if es.len() == 0 {
        assert(es.push(e).drop_first() =~= Seq::<CstElement>::empty());
        assert(es.push(e)[0] == e);
        assert(elems_model(Seq::<CstElement>::empty()) =~= Seq::<SpecElem>::empty());
        assert(elems_model(es.push(e)) == seq![elem_model(e)] + Seq::<SpecElem>::empty());
        assert(seq![elem_model(e)] + Seq::<SpecElem>::empty() =~= elems_model(es).push(
            elem_model(e),
        ));
    } else {
        assert(es.push(e).drop_first() =~= es.drop_first().push(e));
        assert(es.push(e)[0] == es[0]);
        lemma_elems_model_push(es.drop_first(), e);
        assert(elems_model(es.push(e)) =~= elems_model(es).push(elem_model(e)));
    }
}

/// The abstract shapes of the builder's open frames.
pub open spec fn stack_model(frames: Seq<(SyntaxKind, Vec<CstElement>)>) -> Seq<
    (SyntaxKind, Seq<SpecElem>),
> {
    Seq::new(frames.len(), |i: int| (frames[i].0, elems_model(frames[i].1@)))
}

/// The builder's abstract state: open frames, the current children, the
/// errors, and the character and byte offsets.
pub struct BState {
    pub stack: Seq<(SyntaxKind, Seq<SpecElem>)>,
    pub cur: Seq<SpecElem>,
    pub errors: Seq<SyntaxError>,
    pub coff: int,
    pub boff: int,
}

/// Replaying one event.
pub open spec fn spec_build_step(chars: Seq<char>, st: BState, ev: Event) -> BState {
    match ev {
        Event::StartNode { kind } => BState {
            stack: st.stack.push((kind, st.cur)),
            cur: Seq::empty(),
            errors: st.errors,
            coff: st.coff,
            boff: st.boff,
        },
        Event::FinishNode => {
            if st.stack.len() == 0 {
                st
            } else {
                let fr = st.stack.last();
                BState {
                    stack: st.stack.drop_last(),
                    cur: fr.1.push(SpecElem::Node(fr.0, st.cur)),
                    errors: st.errors,
                    coff: st.coff,
                    boff: st.boff,
                }
            }
        },
        Event::Token { kind, clen } => {
            let text = chars.subrange(st.coff, st.coff + clen);
            BState {
                stack: st.stack,
                cur: st.cur.push(SpecElem::Token(kind, text, st.boff)),
                errors: st.errors,
                coff: st.coff + clen,
                boff: st.boff + byte_len(text),
            }
        },
        Event::Error { kind } => BState {
            stack: st.stack,
            cur: st.cur,
            errors: st.errors.push(SyntaxError { kind, offset: st.boff as u32 }),
            coff: st.coff,
            boff: st.boff,
        },
        Event::Tombstone => st,
    }
}

/// Replaying a whole event log.
pub open spec fn spec_build_events(chars: Seq<char>, events: Seq<Event>, st: BState) -> BState
    decreases events.len(),
{
    if events.len() == 0 {
        st
    } else {
        spec_build_events(chars, events.drop_first(), spec_build_step(chars, st, events[0]))
    }
}

/// Closing the frames a log left open.
pub open spec fn spec_close_frames(st: BState) -> BState
    decreases st.stack.len(),
{
    if st.stack.len() == 0 {
        st
    } else {
        let fr = st.stack.last();
        spec_close_frames(
            BState {
                stack: st.stack.drop_last(),
                cur: fr.1.push(SpecElem::Node(fr.0, st.cur)),
                errors: st.errors,
                coff: st.coff,
                boff: st.boff,
            },
        )
    }
}

/// The tree and errors an event log builds over the given source: replay
/// the events, close open frames, and unwrap the single source-file node
/// if the log built exactly one.
pub open spec fn spec_parse_tree(chars: Seq<char>, events: Seq<Event>) -> (SpecElem, Seq<
    SyntaxError,
>) {
    let st0 = BState {
        stack: Seq::empty(),
        cur: Seq::empty(),
        errors: Seq::empty(),
        coff: 0,
        boff: 0,
    };
    let st1 = spec_close_frames(spec_build_events(chars, events, st0));
    let root = if st1.cur.len() == 1 && (st1.cur[0] matches SpecElem::Node(
        SyntaxKind::SOURCE_FILE,
        _,
    )) {
        st1.cur[0]
    } else {
        SpecElem::Node(SyntaxKind::SOURCE_FILE, st1.cur)
    };
    (root, st1.errors)
}

/// The concatenated text of the open node frames of the builder.
pub open spec fn frames_text(frames: Seq<(SyntaxKind, Vec<CstElement>)>) -> Seq<char>
    decreases frames.len(),
{
    if frames.len() == 0 {
        Seq::empty()
    } else {
        frames_text(frames.drop_last()) + subs_text(frames.last().1@)
    }
}

/// Replays an event log into a tree, slicing token text out of the
/// source.  Errors get the byte offset current when they were recorded.
fn build_tree(ts: &TokenStream, events: &Vec<Event>) -> (r: (CstNode, Vec<SyntaxError>))
    requires
        byte_len(ts.chars@) <= u32::MAX,
        0 <= esum(events@) <= ts.chars@.len(),
    ensures
        node_text(r.0) == ts.chars@.take(esum(events@)),
        r.0.kind == SyntaxKind::SOURCE_FILE,
        SpecElem::Node(r.0.kind, elems_model(r.0.children@)) == spec_parse_tree(
            ts.chars@,
            events@,
        ).0,
        r.1@ == spec_parse_tree(ts.chars@, events@).1,
{
    let ghost src = ts.chars@;
    let ghost st0 = BState {
        stack: Seq::empty(),
        cur: Seq::empty(),
        errors: Seq::empty(),
        coff: 0,
        boff: 0,
    };
    let srclen = ts.chars.len();
    let mut stack: Vec<(SyntaxKind, Vec<CstElement>)> = Vec::new();
    let mut cur: Vec<CstElement> = Vec::new();
    let mut errors: Vec<SyntaxError> = Vec::new();
    let mut coff: usize = 0;
    let mut boff: u32 = 0;
    let m = events.len();
    let mut i: usize = 0;
    proof {
        assert(events@.skip(0) =~= events@);
        assert(stack_model(stack@) =~= Seq::<(SyntaxKind, Seq<SpecElem>)>::empty());
        assert(elems_model(cur@) =~= Seq::<SpecElem>::empty());
    }
    while i < m
        invariant
            src == ts.chars@,
            srclen == src.len(),
            byte_len(src) <= u32::MAX,
            m == events@.len(),
            i <= m,
            coff <= src.len(),
            esum(events@.take(i as int)) == coff,
            esum(events@) <= src.len(),
            boff as int == byte_len(src.take(coff as int)),
            frames_text(stack@) + subs_text(cur@) == src.take(coff as int),
            spec_build_events(src, events@, st0) == spec_build_events(
                src,
                events@.skip(i as int),
                BState {
                    stack: stack_model(stack@),
                    cur: elems_model(cur@),
                    errors: errors@,
                    coff: coff as int,
                    boff: boff as int,
                },
            ),
        decreases m - i,
    {
        let ev = events[i];
        let ghost bcur = BState {
            stack: stack_model(stack@),
            cur: elems_model(cur@),
            errors: errors@,
            coff: coff as int,
            boff: boff as int,
        };
        proof {
            assert(events@.take(i + 1).drop_last() =~= events@.take(i as int));
            assert(events@.take(i + 1).last() == events@[i as int]);
            lemma_esum_take_snoc(events@, i as int);
            assert(events@.skip(i as int)[0] == events@[i as int]);
            assert(events@.skip(i as int).drop_first() =~= events@.skip(i + 1));
        }
        match ev {
            Event::StartNode { kind } => {
                let ghost stack0 = stack@;
                let ghost cur0 = cur@;
                stack.push((kind, cur));
                cur = Vec::new();
                proof {
                    assert(stack@.drop_last() =~= stack0);
                    assert(frames_text(stack@) == frames_text(stack0) + subs_text(cur0));
                    assert(frames_text(stack@) + subs_text(cur@) =~= src.take(coff as int));
                    assert(stack_model(stack@) =~= stack_model(stack0).push(
                        (kind, elems_model(cur0)),
                    ));
                    assert(elems_model(cur@) =~= Seq::<SpecElem>::empty());
                    assert(BState {
                        stack: stack_model(stack@),
                        cur: elems_model(cur@),
                        errors: errors@,
                        coff: coff as int,
                        boff: boff as int,
                    } == spec_build_step(src, bcur, ev));
                }
            },
            Event::FinishNode => {
                let ghost prestack = stack@;
                match stack.pop() {
                    Some(frame) => {
                        let ghost cur0 = cur@;
                        let node = CstNode { kind: frame.0, children: cur };
                        let ghost nodeg = node;
                        let mut parent = frame.1;
                        let ghost parent0 = parent@;
                        parent.push(CstElement::Node(node));
                        cur = parent;
                        proof {
                            lemma_subs_push(parent0, CstElement::Node(nodeg));
                            assert(frames_text(prestack) == frames_text(prestack.drop_last())
                                + subs_text(prestack.last().1@));
                            assert(frames_text(stack@) + (subs_text(parent0) + subs_text(cur0))
                                =~= (frames_text(stack@) + subs_text(parent0)) + subs_text(cur0));
                            lemma_elems_model_push(parent0, CstElement::Node(nodeg));
                            assert(stack_model(prestack).len() > 0);
                            assert(stack_model(prestack).last() == (
                                frame.0,
                                elems_model(parent0),
                            ));
                            assert(stack_model(stack@) =~= stack_model(prestack).drop_last());
                            assert(elem_model(CstElement::Node(nodeg)) == SpecElem::Node(
                                frame.0,
                                elems_model(cur0),
                            ));
                            assert(BState {
                                stack: stack_model(stack@),
                                cur: elems_model(cur@),
                                errors: errors@,
                                coff: coff as int,
                                boff: boff as int,
                            } == spec_build_step(src, bcur, ev));
                        }
                    },
                    None => {
                        // an unmatched finish: ignore it
                        proof {
                            assert(stack_model(prestack).len() == 0);
                        }
                    },
                }
            },
            Event::Token { kind, clen } => {
                proof {
                    lemma_esum_split(events@, i as int);
                    lemma_esum_nonneg(events@.skip(i + 1));
                    assert(events@.skip(i as int)[0] == events@[i as int]);
                    assert(events@.skip(i as int).drop_first() =~= events@.skip(i + 1));
                    assert(events@.skip(i as int).len() > 0);
                    assert(esum(events@.skip(i as int)) == clen + esum(events@.skip(i + 1)));
                    assert(coff + clen <= src.len());
                }
                let end = coff + clen as usize;
                let text_slice = &ts.chars.as_slice()[coff..end];
                let text = vstd::slice::slice_to_vec(text_slice);
                // advance the byte offset by the token's byte length
                let mut t = coff;
                let mut b: u32 = boff;
                while t < end
                    invariant
                        src == ts.chars@,
                        byte_len(src) <= u32::MAX,
                        coff <= t <= end <= src.len(),
                        b as int == byte_len(src.take(t as int)),
                    decreases end - t,
                {
                    let w = char_utf8_len(ts.chars[t]);
                    proof {
                        let pre = src.take(t as int);
                        let one = seq![src[t as int]];
                        assert(src.take(t + 1) =~= pre + one);
                        lemma_byte_len_concat(pre, one);
                        assert(one.drop_first() =~= Seq::<char>::empty());
                        assert(byte_len(Seq::<char>::empty()) == 0);
                        assert(byte_len(one) == utf8_len(src[t as int]));
                        assert(src =~= src.take(t + 1) + src.skip(t + 1));
                        lemma_byte_len_concat(src.take(t + 1), src.skip(t + 1));
                        lemma_byte_len_bounds(src.skip(t + 1));
                    }
                    b = b + w;
                    t = t + 1;
                }
                let ghost cur0 = cur@;
                let tok = CstToken { kind, text, offset: boff };
                proof {
                    lemma_subs_push(cur0, CstElement::Token(tok));
                    assert(src.take(end as int) =~= src.take(coff as int) + src.subrange(
                        coff as int,
                        end as int,
                    ));
                    assert(frames_text(stack@) + (subs_text(cur0) + tok.text@) =~= (frames_text(
                        stack@,
                    ) + subs_text(cur0)) + tok.text@);
                }
                let ghost tokg = tok;
                cur.push(CstElement::Token(tok));
                proof {
                    lemma_elems_model_push(cur0, CstElement::Token(tokg));
                    assert(tokg.text@ == src.subrange(coff as int, coff as int + clen));
                    assert(src.take(end as int) =~= src.take(coff as int) + src.subrange(
                        coff as int,
                        end as int,
                    ));
                    lemma_byte_len_concat(src.take(coff as int), src.subrange(
                        coff as int,
                        end as int,
                    ));
                    assert(b as int == boff + byte_len(src.subrange(coff as int, end as int)));
                    assert(elem_model(CstElement::Token(tokg)) == SpecElem::Token(
                        kind,
                        src.subrange(coff as int, coff as int + clen),
                        boff as int,
                    ));
                    assert(BState {
                        stack: stack_model(stack@),
                        cur: elems_model(cur@),
                        errors: errors@,
                        coff: end as int,
                        boff: b as int,
                    } == spec_build_step(src, bcur, ev));
                }
                boff = b;
                coff = end;
            },
            Event::Error { kind } => {
                errors.push(SyntaxError { kind, offset: boff });
                proof {
                    assert(BState {
                        stack: stack_model(stack@),
                        cur: elems_model(cur@),
                        errors: errors@,
                        coff: coff as int,
                        boff: boff as int,
                    } == spec_build_step(src, bcur, ev));
                }
            },
            Event::Tombstone => {
                // an uncompleted reservation: nothing to build
            },
        }
        i = i + 1;
    }
    proof {
        assert(events@.take(m as int) =~= events@);
    }
    proof {
        assert(events@.skip(m as int) =~= Seq::<Event>::empty());
    }
    let ghost after_events = BState {
        stack: stack_model(stack@),
        cur: elems_model(cur@),
        errors: errors@,
        coff: coff as int,
        boff: boff as int,
    };
    // close any nodes left open
    while stack.len() > 0
        invariant
            src == ts.chars@,
            frames_text(stack@) + subs_text(cur@) == src.take(esum(events@)),
            spec_close_frames(after_events) == spec_close_frames(
                BState {
                    stack: stack_model(stack@),
                    cur: elems_model(cur@),
                    errors: errors@,
                    coff: coff as int,
                    boff: boff as int,
                },
            ),
        decreases stack@.len(),
    {
        let ghost prestack = stack@;
        let ghost bhead = BState {
            stack: stack_model(stack@),
            cur: elems_model(cur@),
            errors: errors@,
            coff: coff as int,
            boff: boff as int,
        };
        match stack.pop() {
            Some(frame) => {
                let ghost cur0 = cur@;
                let node = CstNode { kind: frame.0, children: cur };
                let ghost nodeg = node;
                let mut parent = frame.1;
                let ghost parent0 = parent@;
                parent.push(CstElement::Node(node));
                cur = parent;
                proof {
                    lemma_subs_push(parent0, CstElement::Node(nodeg));
                    assert(frames_text(prestack) == frames_text(prestack.drop_last()) + subs_text(
                        prestack.last().1@,
                    ));
                    assert(frames_text(stack@) + (subs_text(parent0) + subs_text(cur0)) =~= (
                    frames_text(stack@) + subs_text(parent0)) + subs_text(cur0));
                    lemma_elems_model_push(parent0, CstElement::Node(nodeg));
                    assert(stack_model(prestack).len() > 0);
                    assert(stack_model(prestack).last() == (frame.0, elems_model(parent0)));
                    assert(stack_model(stack@) =~= stack_model(prestack).drop_last());
                    assert(spec_close_frames(bhead) == spec_close_frames(
                        BState {
                            stack: stack_model(stack@),
                            cur: elems_model(cur@),
                            errors: errors@,
                            coff: coff as int,
                            boff: boff as int,
                        },
                    ));
                }
            },
            None => {},
        }
    }
    let ghost closed_state = BState {
        stack: stack_model(stack@),
        cur: elems_model(cur@),
        errors: errors@,
        coff: coff as int,
        boff: boff as int,
    };
    proof {
        assert(frames_text(stack@) =~= Seq::<char>::empty());
        assert(Seq::<char>::empty() + subs_text(cur@) =~= subs_text(cur@));
        assert(stack_model(stack@).len() == 0);
        assert(spec_close_frames(closed_state) == closed_state);
        assert(closed_state == spec_close_frames(spec_build_events(src, events@, st0)));
    }
    // the log normally holds one completed source-file node; unwrap it
    if cur.len() == 1 {
        let ghost cur1 = cur@;
        match cur.pop() {
            Some(el) => {
                proof {
                    assert(cur1[0] == el);
                    assert(cur1.drop_first() =~= Seq::<CstElement>::empty());
                    assert(subs_text(Seq::<CstElement>::empty()) =~= Seq::<char>::empty());
                    assert(subs_text(cur1) =~= elem_text(el));
                    assert(elems_model(Seq::<CstElement>::empty()) =~= Seq::<SpecElem>::empty());
                    assert(elems_model(cur1) =~= seq![elem_model(el)]);
                    assert(closed_state.cur.len() == 1 && closed_state.cur[0] == elem_model(el));
                }
                match el {
                    CstElement::Node(n) => {
                        if n.kind == SyntaxKind::SOURCE_FILE {
                            proof {
                                assert(node_text(n) =~= src.take(esum(events@)));
                                assert(elem_model(el) == SpecElem::Node(
                                    n.kind,
                                    elems_model(n.children@),
                                ));
                                assert(spec_parse_tree(src, events@).0 == elem_model(el));
                            }
                            return (n, errors);
                        }
                        let mut cs: Vec<CstElement> = Vec::new();
                        let ghost ng = n;
                        cs.push(CstElement::Node(n));
                        let root = CstNode { kind: SyntaxKind::SOURCE_FILE, children: cs };
                        proof {
                            assert(root.children@ =~= seq![CstElement::Node(ng)]);
                            assert(root.children@[0] == CstElement::Node(ng));
                            assert(root.children@.drop_first() =~= Seq::<CstElement>::empty());
                            assert(node_text(root) =~= src.take(esum(events@)));
                            assert(elems_model(root.children@) =~= seq![
                                elem_model(CstElement::Node(ng)),
                            ]);
                            assert(elems_model(root.children@) =~= closed_state.cur);
                            assert(spec_parse_tree(src, events@).0 == SpecElem::Node(
                                SyntaxKind::SOURCE_FILE,
                                closed_state.cur,
                            ));
                        }
                        return (root, errors);
                    },
                    CstElement::Token(t) => {
                        let mut cs: Vec<CstElement> = Vec::new();
                        let ghost tg = t;
                        cs.push(CstElement::Token(t));
                        let root = CstNode { kind: SyntaxKind::SOURCE_FILE, children: cs };
                        proof {
                            assert(root.children@ =~= seq![CstElement::Token(tg)]);
                            assert(root.children@[0] == CstElement::Token(tg));
                            assert(root.children@.drop_first() =~= Seq::<CstElement>::empty());
                            assert(node_text(root) =~= src.take(esum(events@)));
                            assert(elems_model(root.children@) =~= seq![
                                elem_model(CstElement::Token(tg)),
                            ]);
                            assert(elems_model(root.children@) =~= closed_state.cur);
                            assert(spec_parse_tree(src, events@).0 == SpecElem::Node(
                                SyntaxKind::SOURCE_FILE,
                                closed_state.cur,
                            ));
                        }
                        return (root, errors);
                    },
                }
            },
            None => {},
        }
    }
    let root = CstNode { kind: SyntaxKind::SOURCE_FILE, children: cur };
    proof {
        assert(node_text(root) =~= src.take(esum(events@)));
        assert(elems_model(root.children@) == closed_state.cur);
        lemma_elems_model_len(root.children@);
        assert(closed_state.cur.len() != 1);
        assert(spec_parse_tree(src, events@).0 == SpecElem::Node(
            SyntaxKind::SOURCE_FILE,
            closed_state.cur,
        ));
    }
    (root, errors)
}

/// The emitted count of a log prefix grows by each event's contribution.
proof fn lemma_esum_take_snoc(events: Seq<Event>, i: int)
    requires
        0 <= i < events.len(),
    ensures
        esum(events.take(i + 1)) == esum(events.take(i)) + (match events[i] {
            Event::Token { kind, clen } => clen as int,
            _ => 0,
        }),
{
    crate::event::lemma_event_push(events.take(i), events[i]);
    assert(events.take(i + 1) =~= events.take(i).push(events[i]));
}

/// Splitting the emitted count at a position.
proof fn lemma_esum_split(events: Seq<Event>, i: int)
    requires
        0 <= i <= events.len(),
    ensures
        esum(events) == esum(events.take(i)) + esum(events.skip(i)),
    decreases i,
{
    if i == 0 {
        assert(events.take(0) =~= Seq::<Event>::empty());
        assert(events.skip(0) =~= events);
    } else {
        lemma_esum_split(events.drop_first(), i - 1);
        assert(events.take(i).drop_first() =~= events.drop_first().take(i - 1));
        assert(events.skip(i) =~= events.drop_first().skip(i - 1));
        assert(events.take(i)[0] == events[0]);
        assert(events.take(i).len() > 0);
    }
}

/// Parses a token stream into a lossless syntax tree and the errors met
/// on the way: the tree's text is exactly the source text.
pub fn parse(ts: &TokenStream) -> (r: (CstNode, Vec<SyntaxError>))
    requires
        ts.wf(),
        byte_len(ts.chars@) <= u32::MAX,
        crange(ts.clens@, 0, ts.clens@.len() as int) == ts.chars@.len(),
    ensures
        node_text(r.0) == ts.chars@,
        r.0.kind == SyntaxKind::SOURCE_FILE,
        ({
            let rm = spec_remap(ts.lex_pairs());
            let done = spec_source_file(rm.0, PState { pos: 0, clens: rm.1, events: Seq::empty() });
            &&& SpecElem::Node(r.0.kind, elems_model(r.0.children@)) == spec_parse_tree(
                ts.chars@,
                done.events,
            ).0
            &&& r.1@ == spec_parse_tree(ts.chars@, done.events).1
        }),
{
    proof {
        lemma_byte_len_bounds(ts.chars@);
    }
    let mut p = Parser::new(ts);
    proof {
        let rm = spec_remap(ts.lex_pairs());
        assert(p.events.events@ =~= Seq::<Event>::empty());
        assert(p.gstate() == PState { pos: 0, clens: rm.1, events: Seq::<Event>::empty() });
    }
    grammar::source_file(&mut p);
    proof {
        assert(p.remaining() == 0);
        lemma_esum_nonneg(p.events.events@);
        let rm = spec_remap(ts.lex_pairs());
        let done = spec_source_file(rm.0, PState { pos: 0, clens: rm.1, events: Seq::empty() });
        assert(p.events.events@ == done.events);
    }
    let r = build_tree(ts, &p.events.events);
    proof {
        assert(ts.chars@.take(esum(p.events.events@)) =~= ts.chars@);
    }
    r
}

} // verus!
