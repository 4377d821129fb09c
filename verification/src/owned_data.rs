//! An 'owned' datum in an arena, conceptually similar to a `Box<T>` where the
//! data lives in an [`Arena`].  Holding the data handle and the owning arena
//! together keeps the arena — and with it the data — alive for as long as
//! this value exists, so reading through the handle is always in bounds.

use vstd::prelude::*;
use crate::arena::{Arena, ArenaHandle, ArenaS, RawMessage, Span};
use crate::model::{Message, MsgS};

verus! {

/// A data handle paired with the arena that owns the data.
#[derive(Debug)]
pub struct OwnedData<T> {
    data: T,
    arena: Arena,
}

impl<T: ArenaHandle + Copy> OwnedData<T> {
    /// The wrapped handle.
    pub closed spec fn handle(self) -> T {
        self.data
    }

    /// The model of the owning arena.
    pub closed spec fn arena_model(self) -> ArenaS {
        self.arena@
    }

    /// The handle points at live data of the paired arena.  Construction
    /// demands it, nothing later invalidates it.
    pub open spec fn wf(self) -> bool {
        self.handle().valid(self.arena_model())
    }

    /// Pairs `data` with its owning `arena`.  The caller must show that the
    /// handle points at live data of that very arena; nothing is checked at
    /// run time, and no side effect takes place beyond binding the two.
    pub fn new(data: T, arena: Arena) -> (r: Self)
        requires
            data.valid(arena@),
        ensures
            r.handle() == data,
            r.arena_model() == arena@,
            r.wf(),
    {
        OwnedData { data, arena }
    }

    /// The raw handle, for interop with other arena-aware code.  The wrapper
    /// stays intact.
    pub fn data(&self) -> (r: T)
        ensures
            r == self.handle(),
    {
        self.data
    }

    /// Unpacks the pair for manual lifetime management.
    pub fn into_parts(self) -> (r: (T, Arena))
        ensures
            r.0 == self.handle(),
            r.1@ == self.arena_model(),
    {
        (self.data, self.arena)
    }
}

impl OwnedData<Span> {
    /// The model of the owned bytes.
    pub open spec fn bytes_model(self) -> Seq<u8> {
        self.arena_model().bytes.subrange(
            self.handle().off as int,
            self.handle().off + self.handle().len,
        )
    }

    /// Read-only access to the owned bytes.
    pub fn as_ref(&self) -> (r: &[u8])
        requires
            self.wf(),
        ensures
            r@ == self.bytes_model(),
    {
        self.arena.read(self.data)
    }
}

impl OwnedData<RawMessage> {
    /// The model of the owned message.
    pub open spec fn message_model(self) -> MsgS {
        self.arena_model().msgs[self.handle().index as int]
    }

    /// Read-only access to the owned message.
    pub fn as_ref(&self) -> (r: &Message)
        requires
            self.wf(),
        ensures
            r@ == self.message_model(),
    {
        self.arena.message(self.data)
    }
}

} // verus!
