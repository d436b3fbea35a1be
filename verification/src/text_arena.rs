//! An append-only text arena.
//!
//! The arena owns a single growing character buffer and vends stable
//! `TextId` handles, each naming a slice of that buffer.  Once vended, a
//! handle keeps denoting the same text for the arena's whole lifetime.

use vstd::prelude::*;

verus! {

/// A stable handle into a [`TextArena`]: an offset and a length.
#[derive(Clone, Copy, Debug, PartialEq, Eq, Hash, Structural)]
pub struct TextId {
    offset: usize,
    length: usize,
}

/// An append-only character buffer that vends [`TextId`] handles.
pub struct TextArena {
    buffer: Vec<char>,
}

impl TextArena {
    /// The handle names a slice that lies inside the buffer.
    pub closed spec fn wf_id(self, id: TextId) -> bool {
        id.offset + id.length <= self.buffer@.len()
    }

    /// The text a handle denotes.
    pub closed spec fn text(self, id: TextId) -> Seq<char> {
        self.buffer@.subrange(id.offset as int, id.offset + id.length)
    }

    /// The arena grows only at its end, so existing handles are stable.
    pub closed spec fn extends(self, earlier: TextArena) -> bool {
        earlier.buffer@.len() <= self.buffer@.len() && self.buffer@.subrange(
            0,
            earlier.buffer@.len() as int,
        ) == earlier.buffer@
    }

    pub fn new() -> (arena: TextArena)
        ensures
            arena.extends(arena),
    {
        let arena = TextArena { buffer: Vec::new() };
        proof {
            assert(arena.buffer@.subrange(0, 0) =~= arena.buffer@);
        }
        arena
    }

    /// Appends `chars` to the buffer and returns a handle that denotes
    /// exactly that text.  All earlier handles keep their text.
    pub fn intern(&mut self, chars: &[char]) -> (id: TextId)
        ensures
            final(self).wf_id(id),
            final(self).text(id) == chars@,
            final(self).extends(*old(self)),
    {
        let offset = self.buffer.len();
        let length = chars.len();
        self.buffer.extend_from_slice(chars);
        let id = TextId { offset, length };
        proof {
            assert(self.buffer@.subrange(offset as int, offset + length) =~= chars@);
            assert(self.buffer@.subrange(0, old(self).buffer@.len() as int) =~= old(
                self,
            ).buffer@);
        }
        id
    }

    /// The text a handle denotes, as a character slice.
    pub fn get(&self, id: TextId) -> (r: &[char])
        requires
            self.wf_id(id),
        ensures
            r@ == self.text(id),
    {
        let n = self.buffer.len();
        let end = id.offset + id.length;
        &self.buffer.as_slice()[id.offset..end]
    }

    /// Extension is reflexive.
    pub proof fn lemma_extends_refl(self)
        ensures
            self.extends(self),
    {
        assert(self.buffer@.subrange(0, self.buffer@.len() as int) =~= self.buffer@);
    }

    /// Extension is transitive.
    pub proof fn lemma_extends_trans(self, mid: TextArena, first: TextArena)
        requires
            self.extends(mid),
            mid.extends(first),
        ensures
            self.extends(first),
    {
        assert(self.buffer@.subrange(0, first.buffer@.len() as int) =~= first.buffer@) by {
            assert forall|i: int| 0 <= i < first.buffer@.len() implies #[trigger] self.buffer@[i]
                == first.buffer@[i] by {
                assert(self.buffer@.subrange(0, mid.buffer@.len() as int)[i] == self.buffer@[i]);
                assert(mid.buffer@.subrange(0, first.buffer@.len() as int)[i] == mid.buffer@[i]);
            }
        }
    }

    /// A handle that stays well formed when the arena grows keeps its text.
    pub proof fn lemma_extends_stable(self, earlier: TextArena, id: TextId)
        requires
            self.extends(earlier),
            earlier.wf_id(id),
        ensures
            self.wf_id(id),
            self.text(id) == earlier.text(id),
    {
        assert(self.text(id) =~= earlier.text(id)) by {
            assert forall|i: int| 0 <= i < id.length implies #[trigger] self.buffer@[id.offset
                + i] == earlier.buffer@[id.offset + i] by {
                assert(self.buffer@.subrange(0, earlier.buffer@.len() as int)[id.offset + i]
                    == earlier.buffer@[id.offset + i]);
            }
        }
    }
}

} // verus!
