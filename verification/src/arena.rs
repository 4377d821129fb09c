//! The allocation region and the handles that point into it.
//!
//! An [`Arena`] owns a byte region and a message store; everything allocated
//! in it lives exactly as long as the arena itself and is freed with it as
//! one unit.  A [`Span`] is a handle to bytes in the region, a [`RawMessage`]
//! a handle to a message in the store; a handle is meaningless without its
//! arena, and [`ArenaHandle::valid`] says when it points at live data of a
//! given arena.

use vstd::prelude::*;
use crate::model::{empty_msg, msg_view, Message, MiniTable, MsgS};

verus! {

/// Mathematical model of an arena: the byte region and the message store.
#[verifier::ext_equal]
pub struct ArenaS {
    pub bytes: Seq<u8>,
    pub msgs: Seq<MsgS>,
}

/// An allocation region, freed as one unit when dropped.
#[derive(Debug)]
pub struct Arena {
    bytes: Vec<u8>,
    msgs: Vec<Message>,
}

impl View for Arena {
    type V = ArenaS;

    closed spec fn view(&self) -> ArenaS {
        ArenaS {
            bytes: self.bytes@,
            msgs: Seq::new(self.msgs@.len(), |i: int| msg_view(self.msgs@[i])),
        }
    }
}

/// A handle into an arena.  `valid` says that the handle points at data that
/// is live in the given arena.
pub trait ArenaHandle {
    spec fn valid(&self, a: ArenaS) -> bool;
}

/// A handle to a range of bytes inside an arena's region.
#[derive(Clone, Copy, PartialEq, Eq, Structural, Debug)]
pub struct Span {
    pub off: usize,
    pub len: usize,
}

impl ArenaHandle for Span {
    open spec fn valid(&self, a: ArenaS) -> bool {
        self.off + self.len <= a.bytes.len()
    }
}

/// A handle to a message inside an arena's message store.
#[derive(Clone, Copy, PartialEq, Eq, Structural, Debug)]
pub struct RawMessage {
    pub index: usize,
}

impl ArenaHandle for RawMessage {
    open spec fn valid(&self, a: ArenaS) -> bool {
        self.index < a.msgs.len()
    }
}

impl Arena {
    /// A fresh, empty arena.
    pub fn new() -> (a: Arena)
        ensures
            a@.bytes == Seq::<u8>::empty(),
            a@.msgs == Seq::<MsgS>::empty(),
    {
        let a = Arena { bytes: Vec::new(), msgs: Vec::new() };
        proof {
            assert(a@.bytes =~= Seq::<u8>::empty());
            assert(a@.msgs =~= Seq::<MsgS>::empty());
        }
        a
    }

    /// Copies `data` into the region and returns a handle to the copy.
    pub fn alloc_bytes(&mut self, data: &[u8]) -> (r: Span)
        ensures
            final(self)@.bytes == old(self)@.bytes + data@,
            final(self)@.msgs == old(self)@.msgs,
            r.off == old(self)@.bytes.len(),
            r.len == data@.len(),
            r.valid(final(self)@),
    {
        let off = self.bytes.len();
        let mut i: usize = 0;
        let n = data.len();
        while i < n
            invariant
                i <= n,
                n == data@.len(),
                self.bytes@ == old(self).bytes@ + data@.subrange(0, i as int),
                self.msgs@ == old(self).msgs@,
            decreases n - i,
        {
            self.bytes.push(data[i]);
            i += 1;
            proof {
                assert(self.bytes@ =~= old(self).bytes@ + data@.subrange(0, i as int));
            }
        }
        proof {
            assert(data@.subrange(0, n as int) =~= data@);
            assert(self@.bytes =~= old(self)@.bytes + data@);
            assert(self@.msgs =~= old(self)@.msgs);
        }
        Span { off, len: n }
    }

    /// The bytes that `s` points at.
    pub fn read(&self, s: Span) -> (r: &[u8])
        requires
            s.valid(self@),
        ensures
            r@ == self@.bytes.subrange(s.off as int, s.off + s.len),
    {
        let n = self.bytes.len();
        proof {
            assert(s.off + s.len <= n);
        }
        vstd::slice::slice_subrange(self.bytes.as_slice(), s.off, s.off + s.len)
    }

    /// Creates a fresh message associated with `t` inside this arena.
    pub fn new_message(&mut self, t: &MiniTable) -> (h: RawMessage)
        ensures
            final(self)@.bytes == old(self)@.bytes,
            final(self)@.msgs == old(self)@.msgs.push(empty_msg(*t)),
            h.index == old(self)@.msgs.len(),
            h.valid(final(self)@),
    {
        let h = RawMessage { index: self.msgs.len() };
        let m = Message::new_for(t);
        self.msgs.push(m);
        proof {
            assert(self@.msgs =~= old(self)@.msgs.push(empty_msg(*t)));
        }
        h
    }

    /// The message that `h` points at.
    pub fn message(&self, h: RawMessage) -> (r: &Message)
        requires
            h.valid(self@),
        ensures
            r@ == self@.msgs[h.index as int],
    {
        &self.msgs[h.index]
    }

    /// Exchanges the message that `h` points at with `*m`.
    pub(crate) fn swap_message(&mut self, h: RawMessage, m: &mut Message)
        requires
            h.valid(old(self)@),
        ensures
            final(self)@.bytes == old(self)@.bytes,
            final(self)@.msgs == old(self)@.msgs.update(h.index as int, old(m)@),
            final(m)@ == old(self)@.msgs[h.index as int],
    {
        core::mem::swap(&mut self.msgs[h.index], m);
        proof {
            assert(self@.msgs =~= old(self)@.msgs.update(h.index as int, old(m)@));
        }
    }
}

} // verus!
