//! A byte store of fixed length in memory, with a position.

use vstd::prelude::*;

verus! {

/// The most bytes a store may hold: eight times as many bits still fit in 64 bits.
pub const MAX_STORE_LEN: u64 = 0x1fff_ffff_ffff_ffff;

/// A sequence of bytes and a position in it. Reading and writing go byte by byte from the
/// position on and advance it; neither ever changes the length.
#[derive(Debug)]
pub struct Cursor {
    data: Vec<u8>,
    pos: usize,
}

impl View for Cursor {
    type V = Seq<u8>;

    closed spec fn view(&self) -> Seq<u8> {
        self.data@
    }
}

impl Cursor {
    /// How many bytes lie before the position.
    pub closed spec fn spec_position(&self) -> usize {
        self.pos
    }

    /// The position is at most the length, and the length at most [`MAX_STORE_LEN`].
    pub open spec fn inv(&self) -> bool {
        self.position() <= self@.len() <= MAX_STORE_LEN
    }

    /// A store over `data`, positioned at its first byte.
    pub fn new(data: Vec<u8>) -> (cursor: Cursor)
        requires
            data@.len() <= MAX_STORE_LEN,
        ensures
            cursor.inv(),
            cursor@ == data@,
            cursor.position() == 0,
    {
        Cursor { data, pos: 0 }
    }

    /// The bytes of the store.
    pub fn into_inner(self) -> (data: Vec<u8>)
        ensures
            data@ == self@,
    {
        self.data
    }

    /// The number of bytes in the store.
    pub fn len(&self) -> (len: usize)
        ensures
            len == self@.len(),
    {
        self.data.len()
    }

    /// The position: how many bytes lie before it.
    #[verifier::when_used_as_spec(spec_position)]
    pub fn position(&self) -> (position: usize)
        ensures
            position == self.position(),
    {
        self.pos
    }

    /// Moves to `position` if that is at most the length, and says whether it moved.
    pub fn set_position(&mut self, position: usize) -> (moved: bool)
        requires
            old(self).inv(),
        ensures
            final(self).inv(),
            final(self)@ == old(self)@,
            moved == (position <= old(self)@.len()),
            final(self).position() == (if moved {
                position
            } else {
                old(self).position()
            }),
    {
        if position <= self.data.len() {
            self.pos = position;
            true
        } else {
            false
        }
    }

    /// The byte at the position, which then advances by one; `None` at the end of the store,
    /// where nothing changes.
    pub fn read_byte(&mut self) -> (byte: Option<u8>)
        requires
            old(self).inv(),
        ensures
            final(self).inv(),
            final(self)@ == old(self)@,
            old(self).position() < old(self)@.len() ==> byte == Some(
                old(self)@[old(self).position() as int],
            ) && final(self).position() == old(self).position() + 1,
            old(self).position() >= old(self)@.len() ==> byte.is_none() && final(self).position()
                == old(self).position(),
    {
        if self.pos < self.data.len() {
            let byte = self.data[self.pos];
            self.pos = self.pos + 1;
            Some(byte)
        } else {
            None
        }
    }

    /// Stores `byte` at the position, which then advances by one, and returns `true`; at the
    /// end of the store it returns `false` and nothing changes.
    pub fn write_byte(&mut self, byte: u8) -> (written: bool)
        requires
            old(self).inv(),
        ensures
            final(self).inv(),
            written == (old(self).position() < old(self)@.len()),
            written ==> final(self)@ == old(self)@.update(old(self).position() as int, byte)
                && final(self).position() == old(self).position() + 1,
            !written ==> final(self)@ == old(self)@ && final(self).position() == old(
                self,
            ).position(),
    {
        if self.pos < self.data.len() {
            self.data[self.pos] = byte;
            self.pos = self.pos + 1;
            true
        } else {
            false
        }
    }
}

} // verus!
