//! A read position in a byte buffer.
//!
//! Every sub-parser consumes bytes from a cursor and reports the byte that
//! stopped it, so that its caller can branch on what follows without reading
//! anything twice.

use vstd::prelude::*;
use crate::common::ascii::{is_whitespace, SPACE};

verus! {

/// What a sub-parser makes of the bytes from some index on: the value it
/// reads there, and the index of the first byte that it leaves unread.
pub struct Lexed<T> {
    pub value: T,
    pub end: int,
}

/// A byte that ends a literal is reported as it is, but for whitespace of
/// any kind, which is reported as a single space.
pub open spec fn stop_char(ch: u8) -> u8 {
    if is_whitespace(ch) {
        SPACE
    } else {
        ch
    }
}

/// `front` is the beginning of `whole`.
pub open spec fn is_front_of<T>(front: Seq<T>, whole: Seq<T>) -> bool {
    front.len() <= whole.len() && whole.subrange(0, front.len() as int) == front
}

/// A borrowed buffer and the index of the next byte to read.
pub struct Cursor<'a> {
    pub bytes: &'a [u8],
    pub pos: usize,
}

impl<'a> Cursor<'a> {
    /// The position never passes the end of the buffer.
    pub open spec fn wf(&self) -> bool {
        self.pos <= self.bytes@.len()
    }

    /// The whole buffer, read or not.
    pub open spec fn input(&self) -> Seq<u8> {
        self.bytes@
    }

    /// The index of the next byte, as a mathematical integer.
    pub open spec fn index(&self) -> int {
        self.pos as int
    }

    /// `self` reads the same buffer as `before` and has not moved backwards.
    pub open spec fn advanced_from(&self, before: &Cursor<'a>) -> bool {
        &&& self.wf()
        &&& self.bytes@ == before.bytes@
        &&& before.pos <= self.pos
    }

    pub fn new(bytes: &'a [u8]) -> (c: Self)
        ensures
            c.wf(),
            c.input() == bytes@,
            c.index() == 0,
    {
        Cursor { bytes, pos: 0 }
    }

    /// The number of bytes already read.
    pub fn position(&self) -> (p: usize)
        ensures
            p == self.index(),
    {
        self.pos
    }

    /// Reads one byte, if any is left.
    pub fn next(&mut self) -> (r: Option<u8>)
        requires
            old(self).wf(),
        ensures
            final(self).wf(),
            final(self).input() == old(self).input(),
            old(self).index() < old(self).input().len() ==> r == Some(
                old(self).input()[old(self).index()],
            ) && final(self).index() == old(self).index() + 1,
            old(self).index() >= old(self).input().len() ==> r.is_none() && final(self).index()
                == old(self).index(),
    {
        if self.pos < self.bytes.len() {
            let ch = self.bytes[self.pos];
            self.pos += 1;
            Some(ch)
        } else {
            None
        }
    }
}

} // verus!
