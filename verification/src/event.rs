//! The parser's append-only event log.
//!
//! Events record the tree to build: node starts and finishes, tokens with
//! their character counts, and errors.  A tombstone reserves a slot whose
//! node kind is decided only after its contents were parsed; completing a
//! marker replaces the tombstone with the start event.

use vstd::prelude::*;

use crate::syntax::{SyntaxErrorKind, SyntaxKind};

verus! {

/// One parser event.
#[derive(Clone, Copy, Debug)]
pub enum Event {
    StartNode { kind: SyntaxKind },
    FinishNode,
    Token { kind: SyntaxKind, clen: u32 },
    Error { kind: SyntaxErrorKind },
    Tombstone,
}

/// The characters the event log has emitted: the sum of its token counts.
pub open spec fn esum(events: Seq<Event>) -> int
    decreases events.len(),
{
    if events.len() == 0 {
        0
    } else {
        let head: int = match events[0] {
            Event::Token { kind, clen } => clen as int,
            _ => 0,
        };
        head + esum(events.drop_first())
    }
}

/// How many unreplaced tombstones the log still holds.
pub open spec fn tomb_count(events: Seq<Event>) -> int
    decreases events.len(),
{
    if events.len() == 0 {
        0
    } else {
        let head: int = match events[0] {
            Event::Tombstone => 1,
            _ => 0,
        };
        head + tomb_count(events.drop_first())
    }
}

/// Appending one event grows the sums by that event's contribution.
pub proof fn lemma_event_push(events: Seq<Event>, e: Event)
    ensures
        esum(events.push(e)) == esum(events) + (match e {
            Event::Token { kind, clen } => clen as int,
            _ => 0,
        }),
        tomb_count(events.push(e)) == tomb_count(events) + (match e {
            Event::Tombstone => 1int,
            _ => 0,
        }),
    decreases events.len(),
{
    if events.len() == 0 {
        assert(events.push(e).drop_first() =~= Seq::<Event>::empty());
        assert(events.push(e)[0] == e);
        assert(esum(Seq::<Event>::empty()) == 0);
        assert(tomb_count(Seq::<Event>::empty()) == 0);
    } else {
        assert(events.push(e).drop_first() =~= events.drop_first().push(e));
        assert(events.push(e)[0] == events[0]);
        lemma_event_push(events.drop_first(), e);
    }
}

/// Replacing a tombstone by a start node removes one tombstone and emits
/// no characters.
pub proof fn lemma_event_replace(events: Seq<Event>, i: int, k: SyntaxKind)
    requires
        0 <= i < events.len(),
        events[i] is Tombstone,
    ensures
        esum(events.update(i, Event::StartNode { kind: k })) == esum(events),
        tomb_count(events.update(i, Event::StartNode { kind: k })) == tomb_count(events) - 1,
    decreases events.len(),
{
    let upd = events.update(i, Event::StartNode { kind: k });
    if i == 0 {
        assert(upd.drop_first() =~= events.drop_first());
        assert(upd[0] == (Event::StartNode { kind: k }));
    } else {
        assert(upd.drop_first() =~= events.drop_first().update(i - 1, Event::StartNode { kind: k }));
        assert(upd[0] == events[0]);
        lemma_event_replace(events.drop_first(), i - 1, k);
    }
}

/// The emitted character count is never negative.
pub proof fn lemma_esum_nonneg(events: Seq<Event>)
    ensures
        esum(events) >= 0,
    decreases events.len(),
{
    if events.len() > 0 {
        lemma_esum_nonneg(events.drop_first());
    }
}

/// The append-only event log.
pub struct EventContainer {
    pub events: Vec<Event>,
}

impl EventContainer {
    pub fn new() -> (r: EventContainer)
        ensures
            r.events@ =~= Seq::<Event>::empty(),
    {
        EventContainer { events: Vec::new() }
    }

    pub fn push(&mut self, e: Event)
        ensures
            final(self).events@ == old(self).events@.push(e),
    {
        self.events.push(e);
    }

    pub fn push_tombstone(&mut self)
        ensures
            final(self).events@ == old(self).events@.push(Event::Tombstone),
    {
        self.events.push(Event::Tombstone);
    }

    /// Replaces the reserved slot `index` with a start-node event.
    pub fn replace_tombstone(&mut self, index: usize, kind: SyntaxKind)
        requires
            index < old(self).events@.len(),
            old(self).events@[index as int] is Tombstone,
        ensures
            final(self).events@ == old(self).events@.update(
                index as int,
                Event::StartNode { kind },
            ),
    {
        self.events[index] = Event::StartNode { kind };
    }

    pub fn len(&self) -> (n: usize)
        ensures
            n == self.events@.len(),
    {
        self.events.len()
    }
}

} // verus!
