//! Reading, writing and seeking bit by bit over a byte store.

use crate::bits::{
    bit_at, lemma_read_bits_byte, lemma_write_bits_byte, read_bits, with_bit, write_bits,
};
use crate::error::{Error, ErrorKind};
use crate::io::cursor::Cursor;
use vstd::prelude::*;

verus! {

/// Where a seek starts from, with its offset in bits.
#[derive(Clone, Copy, Debug)]
pub enum BitSeekFrom {
    /// From the first bit of the store.
    Start(u64),
    /// From the bit after the last one of the store.
    End(i64),
    /// From the current bit.
    Current(i64),
}

/// The bit that a seek aims at, in a store of `len` bytes whose current bit is `position`.
pub open spec fn seek_target(len: nat, position: nat, pos: BitSeekFrom) -> int {
    match pos {
        BitSeekFrom::Start(offset) => offset as int,
        BitSeekFrom::End(offset) => 8 * len + offset,
        BitSeekFrom::Current(offset) => position + offset,
    }
}

/// Whether a seek lands on a bit of the store, which is when it succeeds.
pub open spec fn seek_lands(len: nat, position: nat, pos: BitSeekFrom) -> bool {
    0 <= seek_target(len, position, pos) < 8 * len
}

/// The current bit after a seek: the bit that the seek aims at where it lands on one, and
/// the one before the seek where it does not.
pub open spec fn after_seek(len: nat, position: nat, pos: BitSeekFrom) -> nat {
    if seek_lands(len, position, pos) {
        seek_target(len, position, pos) as nat
    } else {
        position
    }
}

/// The current bit after a seek from the current bit by each of `offsets` in turn.
pub open spec fn after_seeks(len: nat, position: nat, offsets: Seq<i64>) -> nat
    decreases offsets.len(),
{
    if offsets.len() == 0 {
        position
    } else {
        after_seek(
            len,
            after_seeks(len, position, offsets.drop_last()),
            BitSeekFrom::Current(offsets.last()),
        )
    }
}

/// Whether each of the seeks from the current bit by `offsets` in turn lands on a bit of the
/// store.
pub open spec fn seeks_land(len: nat, position: nat, offsets: Seq<i64>) -> bool
    decreases offsets.len(),
{
    offsets.len() > 0 ==> seeks_land(len, position, offsets.drop_last()) && seek_lands(
        len,
        after_seeks(len, position, offsets.drop_last()),
        BitSeekFrom::Current(offsets.last()),
    )
}

/// The sum of `offsets`.
pub open spec fn sum_of(offsets: Seq<i64>) -> int
    decreases offsets.len(),
{
    if offsets.len() == 0 {
        0
    } else {
        sum_of(offsets.drop_last()) + offsets.last()
    }
}

/// A seek by no bits from the current bit aims at the current bit, so it leaves the cursor
/// where it is, however often it is repeated, and returns the cursor's bit where it succeeds.
pub proof fn lemma_seek_current_zero(len: nat, position: nat)
    ensures
        seek_target(len, position, BitSeekFrom::Current(0)) == position,
        after_seek(len, position, BitSeekFrom::Current(0)) == position,
        after_seek(len, after_seek(len, position, BitSeekFrom::Current(0)), BitSeekFrom::Current(0))
            == position,
{
}

/// Seeks forward from the current bit that each land in the store, followed by one seek
/// backward by as many bits as they went forward together, end at the bit from which they
/// started.
pub proof fn lemma_seek_forward_and_back(len: nat, position: nat, offsets: Seq<i64>)
    requires
        forall|i: int| 0 <= i < offsets.len() ==> offsets[i] >= 0,
        seeks_land(len, position, offsets),
        sum_of(offsets) <= i64::MAX,
    ensures
        after_seeks(len, position, offsets) == position + sum_of(offsets),
        after_seek(
            len,
            after_seeks(len, position, offsets),
            BitSeekFrom::Current((-sum_of(offsets)) as i64),
        ) == position,
    decreases offsets.len(),
{
    lemma_sum_of_forward(offsets);
    if offsets.len() > 0 {
        let rest = offsets.drop_last();
        lemma_sum_of_forward(rest);
        lemma_seek_forward_and_back(len, position, rest);
    }
}

/// A sum of offsets none of which is negative is not negative.
proof fn lemma_sum_of_forward(offsets: Seq<i64>)
    requires
        forall|i: int| 0 <= i < offsets.len() ==> offsets[i] >= 0,
    ensures
        sum_of(offsets) >= 0,
    decreases offsets.len(),
{
    if offsets.len() > 0 {
        lemma_sum_of_forward(offsets.drop_last());
    }
}

/// The bytes of the store after a read or a write: the contents, but for the byte in which
/// the cursor then stands, if it stands inside one. That byte is in the store as it was.
pub open spec fn store_after(stored: Seq<u8>, contents: Seq<u8>, position: nat) -> Seq<u8> {
    if position % 8 == 0 {
        contents
    } else {
        contents.update(position as int / 8, stored[position as int / 8])
    }
}

/// A byte store addressed by bits. Bits are numbered from the top bit of the first byte.
///
/// The buffer keeps the byte under the cursor in a one-byte cache. While the cursor stands
/// inside a byte, what was written to that byte is in the cache only; the store gets it when
/// the cursor leaves the byte, on `flush` and on `seek`.
#[derive(Debug)]
pub struct BitBuf {
    buf: Cursor,
    current_byte: u8,
    remaining_bits: u8,
}

impl BitBuf {
    /// The cache holds at most eight bits, and the byte it stands for lies just before the
    /// store's position.
    pub closed spec fn inv(&self) -> bool {
        &&& self.buf.inv()
        &&& self.remaining_bits <= 8
        &&& self.remaining_bits > 0 ==> self.buf.position() >= 1
        &&& self.remaining_bits == 8 ==> self.current_byte == self.buf@[self.buf.position() - 1]
    }

    /// The bytes as a reader of this buffer sees them: the store, with the cached byte in its
    /// place.
    pub closed spec fn contents(&self) -> Seq<u8> {
        if self.remaining_bits > 0 {
            self.buf@.update(self.buf.position() - 1, self.current_byte)
        } else {
            self.buf@
        }
    }

    /// The bytes of the store itself, without what only the cache holds.
    pub closed spec fn stored(&self) -> Seq<u8> {
        self.buf@
    }

    /// The number of the next bit to be read or written.
    pub closed spec fn bit_position(&self) -> nat {
        (8 * self.buf.position() - self.remaining_bits) as nat
    }

    /// The position of the store: the number of the byte after the cached one.
    pub closed spec fn byte_position(&self) -> nat {
        self.buf.position() as nat
    }

    /// What the invariant says of the public views: the cursor is inside the store or at its
    /// end, and the store differs from the contents at most in the byte under the cursor, and
    /// not at all when the cursor stands on a byte boundary.
    pub proof fn lemma_inv(&self)
        requires
            self.inv(),
        ensures
            self.bit_position() <= 8 * self.contents().len(),
            self.contents().len() <= crate::io::cursor::MAX_STORE_LEN,
            self.stored().len() == self.contents().len(),
            forall|i: int|
                0 <= i < self.contents().len() && i != self.bit_position() / 8 ==> self.stored()[i]
                    == self.contents()[i],
            self.bit_position() % 8 == 0 ==> self.stored() == self.contents(),
    {
        if self.remaining_bits > 0 {
            assert(self.bit_position() / 8 == self.buf.position() - 1);
            if self.remaining_bits == 8 {
                assert(self.stored() =~= self.contents());
            }
        }
    }

    /// Wraps a store. The first bit to be read or written is the top bit of the byte at the
    /// store's position.
    pub fn from(buf: Cursor) -> (bits: BitBuf)
        requires
            buf.inv(),
        ensures
            bits.inv(),
            bits.contents() == buf@,
            bits.stored() == buf@,
            bits.bit_position() == 8 * buf.position(),
            bits.byte_position() == buf.position(),
    {
        BitBuf { buf, current_byte: 0, remaining_bits: 0 }
    }

    /// Gives the store back as it is: a byte that is only partly written and not flushed is
    /// not in it.
    pub fn into_inner(self) -> (buf: Cursor)
        requires
            self.inv(),
        ensures
            buf.inv(),
            buf@ == self.stored(),
            buf.position() == self.byte_position(),
    {
        self.buf
    }

    /// Reads the next `bits` bits and returns them as a number, first bit read on top.
    ///
    /// With more than 32 bits asked nothing is read. Where the store ends before `bits` bits
    /// are read, the read fails and leaves the cursor at the end of the store.
    pub fn read(&mut self, bits: u8) -> (r: Result<u32, Error>)
        requires
            old(self).inv(),
        ensures
            final(self).inv(),
            final(self).contents() == old(self).contents(),
            final(self).stored() == store_after(
                old(self).stored(),
                final(self).contents(),
                final(self).bit_position(),
            ),
            bits > 32 ==> (r matches Err(e) && e.kind() == ErrorKind::BitWidth) && final(
                self
            ).bit_position() == old(self).bit_position(),
            bits <= 32 && old(self).bit_position() + bits <= 8 * old(self).contents().len() ==> (r
                matches Ok(v) && v == read_bits(
                old(self).contents(),
                old(self).bit_position() as int,
                bits as nat,
            )) && final(self).bit_position() == old(self).bit_position() + bits,
            bits <= 32 && old(self).bit_position() + bits > 8 * old(self).contents().len() ==> (r
                matches Err(e) && e.kind() == ErrorKind::IoExhausted) && final(self).bit_position()
                == 8 * old(self).contents().len(),
    {
        if bits > 32 {
            return Err(Error::with_kind(ErrorKind::BitWidth, "Invalid number of bits"));
        }
        let ghost bytes = self.contents();
        let ghost start = self.bit_position() as int;
        let mut left: u8 = bits;
        let mut result: u32 = 0;
        while left > 0 && self.remaining_bits > 0
            invariant
                self.inv(),
                self.contents() == bytes,
                bytes == old(self).contents(),
                start == old(self).bit_position(),
                self.stored().len() == bytes.len(),
                forall|i: int|
                    self.bit_position() / 8 <= i < bytes.len() ==> #[trigger] self.stored()[i]
                        == old(self).stored()[i],
                left <= bits <= 32,
                self.bit_position() == start + (bits - left),
                result == read_bits(bytes, start, (bits - left) as nat),
            decreases left,
        {
            left -= 1;
            let bit = self.read_bit();
            result = result << 1 | (if bit { 1u32 } else { 0u32 });
        }
        while left >= 8
            invariant
                self.inv(),
                self.contents() == bytes,
                bytes == old(self).contents(),
                start == old(self).bit_position(),
                self.stored().len() == bytes.len(),
                forall|i: int|
                    self.bit_position() / 8 <= i < bytes.len() ==> #[trigger] self.stored()[i]
                        == old(self).stored()[i],
                left <= bits <= 32,
                left > 0 ==> self.remaining_bits == 0,
                self.bit_position() == start + (bits - left),
                result == read_bits(bytes, start, (bits - left) as nat),
            decreases left,
        {
            proof {
                self.lemma_inv();
            }
            match self.read_byte() {
                Ok(byte) => {
                    proof {
                        lemma_read_bits_byte(bytes, start, (bits - left) as nat);
                    }
                    left -= 8;
                    result = result << 8 | (byte as u32);
                },
                Err(e) => {
                    return Err(e);
                },
            }
        }
        if left > 0 {
            proof {
                self.lemma_inv();
            }
            match self.read_byte() {
                Ok(byte) => {
                    self.current_byte = byte;
                    self.remaining_bits = 8;
                    assert(self.contents() =~= bytes);
                },
                Err(e) => {
                    return Err(e);
                },
            }
            while left > 0
                invariant
                    self.inv(),
                    self.contents() == bytes,
                    bytes == old(self).contents(),
                    start == old(self).bit_position(),
                    self.stored().len() == bytes.len(),
                    forall|i: int|
                        self.bit_position() / 8 <= i < bytes.len() ==> #[trigger] self.stored()[i]
                            == old(self).stored()[i],
                    left <= bits <= 32,
                    left <= self.remaining_bits,
                    self.bit_position() == start + (bits - left),
                    result == read_bits(bytes, start, (bits - left) as nat),
                decreases left,
            {
                left -= 1;
                let bit = self.read_bit();
                result = result << 1 | (if bit { 1u32 } else { 0u32 });
            }
        }
        proof {
            self.lemma_inv();
            assert(self.stored() =~= store_after(
                old(self).stored(),
                self.contents(),
                self.bit_position(),
            ));
        }
        Ok(result)
    }

    /// Writes the low `bits` bits of `data`, highest of them first, and returns `bits`.
    ///
    /// With more than 32 bits asked nothing is written. Where the store ends before `bits`
    /// bits are written, the write fails after filling the store to its end with the leading
    /// bits, and leaves the cursor there.
    pub fn write(&mut self, data: u32, bits: u8) -> (r: Result<u8, Error>)
        requires
            old(self).inv(),
        ensures
            final(self).inv(),
            final(self).contents().len() == old(self).contents().len(),
            final(self).stored() == store_after(
                old(self).stored(),
                final(self).contents(),
                final(self).bit_position(),
            ),
            bits > 32 ==> (r matches Err(e) && e.kind() == ErrorKind::BitWidth) && final(
                self
            ).contents() == old(self).contents() && final(self).bit_position() == old(
                self
            ).bit_position(),
            bits <= 32 && old(self).bit_position() + bits <= 8 * old(self).contents().len() ==> (r
                matches Ok(n) && n == bits) && final(self).contents() == write_bits(
                old(self).contents(),
                old(self).bit_position() as int,
                bits as nat,
                data,
            ) && final(self).bit_position() == old(self).bit_position() + bits,
            bits <= 32 && old(self).bit_position() + bits > 8 * old(self).contents().len() ==> (r
                matches Err(e) && e.kind() == ErrorKind::IoExhausted) && final(self).contents()
                == write_bits(
                old(self).contents(),
                old(self).bit_position() as int,
                (8 * old(self).contents().len() - old(self).bit_position()) as nat,
                data >> ((old(self).bit_position() + bits - 8 * old(self).contents().len()) as u32),
            ) && final(self).bit_position() == 8 * old(self).contents().len(),
    {
        if bits > 32 {
            return Err(Error::with_kind(ErrorKind::BitWidth, "Invalid number of bits"));
        }
        let ghost bytes = self.contents();
        let ghost start = self.bit_position() as int;
        proof {
            self.lemma_inv();
        }
        if bits == 0 {
            assert(data >> 0u32 == data) by (bit_vector);
            return Ok(0);
        }
        let mut left: u8 = bits;
        let mut rest: u32 = data << ((32 - bits) as u32);
        let mut result: u8 = 0;
        while left > 0 && self.remaining_bits > 0
            invariant
                self.inv(),
                bytes == old(self).contents(),
                start == old(self).bit_position(),
                self.stored().len() == bytes.len(),
                forall|i: int|
                    self.bit_position() / 8 <= i < bytes.len() ==> #[trigger] self.stored()[i]
                        == old(self).stored()[i],
                1 <= bits <= 32,
                left <= bits,
                result == bits - left,
                start + (bits - left) <= 8 * bytes.len(),
                self.contents().len() == bytes.len(),
                self.bit_position() == start + (bits - left),
                self.contents() == write_bits(
                    bytes,
                    start,
                    (bits - left) as nat,
                    data >> (left as u32),
                ),
                left > 0 ==> rest == data << ((32 - left) as u32),
            decreases left,
        {
            proof {
                self.lemma_inv();
                lemma_field_step(data, left);
            }
            self.write_bit(rest & 0x8000_0000u32 != 0u32);
            left -= 1;
            rest = rest << 1;
            result += 1;
            proof {
                self.lemma_inv();
            }
        }
        while left >= 8
            invariant
                self.inv(),
                bytes == old(self).contents(),
                start == old(self).bit_position(),
                self.stored().len() == bytes.len(),
                forall|i: int|
                    self.bit_position() / 8 <= i < bytes.len() ==> #[trigger] self.stored()[i]
                        == old(self).stored()[i],
                1 <= bits <= 32,
                left <= bits,
                result == bits - left,
                left > 0 ==> self.remaining_bits == 0,
                start + (bits - left) <= 8 * bytes.len(),
                self.contents().len() == bytes.len(),
                self.bit_position() == start + (bits - left),
                self.contents() == write_bits(
                    bytes,
                    start,
                    (bits - left) as nat,
                    data >> (left as u32),
                ),
                left > 0 ==> rest == data << ((32 - left) as u32),
            decreases left,
        {
            proof {
                self.lemma_inv();
                lemma_field_byte(data, left);
            }
            match self.write_byte(#[verifier::truncate] ((rest >> 24) as u8)) {
                Ok(()) => {
                    proof {
                        lemma_write_bits_byte(
                            bytes,
                            start,
                            (bits - left) as nat,
                            data >> ((left - 8) as u32),
                        );
                    }
                    left -= 8;
                    rest = rest << 8;
                    result += 8;
                },
                Err(e) => {
                    return Err(e);
                },
            }
        }
        if left > 0 {
            proof {
                self.lemma_inv();
            }
            match self.read_byte() {
                Ok(byte) => {
                    self.current_byte = byte;
                    self.remaining_bits = 8;
                    assert(self.contents() =~= write_bits(
                        bytes,
                        start,
                        (bits - left) as nat,
                        data >> (left as u32),
                    ));
                },
                Err(e) => {
                    return Err(e);
                },
            }
            while left > 0
                invariant
                    self.inv(),
                    bytes == old(self).contents(),
                    start == old(self).bit_position(),
                    self.stored().len() == bytes.len(),
                    forall|i: int|
                        self.bit_position() / 8 <= i < bytes.len() ==> #[trigger] self.stored()[i]
                            == old(self).stored()[i],
                    1 <= bits <= 32,
                    left <= bits,
                    left <= self.remaining_bits,
                    result == bits - left,
                    start + (bits - left) <= 8 * bytes.len(),
                    self.contents().len() == bytes.len(),
                    self.bit_position() == start + (bits - left),
                    self.contents() == write_bits(
                        bytes,
                        start,
                        (bits - left) as nat,
                        data >> (left as u32),
                    ),
                    left > 0 ==> rest == data << ((32 - left) as u32),
                decreases left,
            {
                proof {
                    self.lemma_inv();
                    lemma_field_step(data, left);
                }
                self.write_bit(rest & 0x8000_0000u32 != 0u32);
                left -= 1;
                rest = rest << 1;
                result += 1;
                proof {
                    self.lemma_inv();
                }
            }
        }
        assert(data >> 0u32 == data) by (bit_vector);
        Ok(result)
    }

    /// Brings the store up to date with the cache. The contents and the cursor stay as they
    /// are.
    pub fn flush(&mut self) -> (r: Result<(), Error>)
        requires
            old(self).inv(),
        ensures
            final(self).inv(),
            r is Ok,
            final(self).contents() == old(self).contents(),
            final(self).stored() == old(self).contents(),
            final(self).bit_position() == old(self).bit_position(),
            final(self).byte_position() == old(self).byte_position(),
    {
        if self.remaining_bits > 0 {
            self.store_current();
            assert(self.contents() =~= old(self).contents());
        }
        Ok(())
    }

    /// Moves the cursor to the bit that `pos` names, after a flush, and returns its number.
    ///
    /// The seek fails, and leaves the cursor where it was, unless that bit is one of the
    /// store's.
    pub fn seek(&mut self, pos: BitSeekFrom) -> (r: Result<u64, Error>)
        requires
            old(self).inv(),
        ensures
            final(self).inv(),
            final(self).contents() == old(self).contents(),
            final(self).stored() == old(self).contents(),
            final(self).bit_position() == after_seek(
                old(self).contents().len(),
                old(self).bit_position(),
                pos,
            ),
            if seek_lands(old(self).contents().len(), old(self).bit_position(), pos) {
                r matches Ok(p) && p == seek_target(
                    old(self).contents().len(),
                    old(self).bit_position(),
                    pos,
                )
            } else {
                r matches Err(e) && e.kind() == ErrorKind::IoExhausted
            },
    {
        let _ = self.flush();
        proof {
            self.lemma_inv();
        }
        let end: i128 = 8 * (self.buf.len() as i128);
        let current: i128 = 8 * (self.buf.position() as i128) - (self.remaining_bits as i128);
        let target: i128 = match pos {
            BitSeekFrom::Start(offset) => offset as i128,
            BitSeekFrom::End(offset) => end + (offset as i128),
            BitSeekFrom::Current(offset) => current + (offset as i128),
        };
        if target < 0 || target >= end {
            return Err(Error::with_kind(ErrorKind::IoExhausted, "End of file"));
        }
        let bit: u64 = target as u64;
        let _ = self.buf.set_position((bit / 8) as usize);
        match self.buf.read_byte() {
            Some(byte) => {
                self.current_byte = byte;
                self.remaining_bits = 8 - ((bit % 8) as u8);
                assert(self.contents() =~= old(self).contents());
                Ok(bit)
            },
            None => Err(Error::with_kind(ErrorKind::IoExhausted, "End of file")),
        }
    }

    /// Takes the next bit out of the cache.
    fn read_bit(&mut self) -> (bit: bool)
        requires
            old(self).inv(),
            old(self).remaining_bits > 0,
        ensures
            final(self).inv(),
            final(self).contents() == old(self).contents(),
            final(self).remaining_bits == old(self).remaining_bits - 1,
            final(self).bit_position() == old(self).bit_position() + 1,
            bit == bit_at(old(self).contents(), old(self).bit_position() as int),
            final(self).stored().len() == old(self).stored().len(),
            forall|i: int|
                0 <= i < old(self).stored().len() && i != old(self).bit_position() / 8
                    ==> #[trigger] final(self).stored()[i] == old(self).stored()[i],
            final(self).remaining_bits > 0 ==> final(self).stored() == old(self).stored(),
    {
        self.remaining_bits -= 1;
        let bit = self.current_byte & (1u8 << self.remaining_bits) != 0u8;
        if self.remaining_bits == 0 {
            self.store_current();
        }
        assert(self.contents() =~= old(self).contents());
        assert(old(self).bit_position() / 8 == self.buf.position() - 1);
        bit
    }

    /// Puts the next bit into the cache, and the cache into the store once it is full.
    fn write_bit(&mut self, bit: bool)
        requires
            old(self).inv(),
            old(self).remaining_bits > 0,
        ensures
            final(self).inv(),
            final(self).contents() == with_bit(
                old(self).contents(),
                old(self).bit_position() as int,
                bit,
            ),
            final(self).remaining_bits == old(self).remaining_bits - 1,
            final(self).bit_position() == old(self).bit_position() + 1,
            final(self).stored().len() == old(self).stored().len(),
            forall|i: int|
                0 <= i < old(self).stored().len() && i != old(self).bit_position() / 8
                    ==> #[trigger] final(self).stored()[i] == old(self).stored()[i],
            final(self).remaining_bits > 0 ==> final(self).stored() == old(self).stored(),
    {
        self.remaining_bits -= 1;
        if bit {
            self.current_byte |= 1u8 << self.remaining_bits;
        } else {
            self.current_byte &= !(1u8 << self.remaining_bits);
        }
        if self.remaining_bits == 0 {
            self.store_current();
        }
        assert(old(self).bit_position() / 8 == self.buf.position() - 1);
        assert(self.contents() =~= with_bit(
            old(self).contents(),
            old(self).bit_position() as int,
            bit,
        ));
    }

    /// Writes the cached byte to its place in the store.
    fn store_current(&mut self)
        requires
            old(self).buf.inv(),
            old(self).buf.position() >= 1,
        ensures
            final(self).buf.inv(),
            final(self).buf@ == old(self).buf@.update(
                old(self).buf.position() - 1,
                old(self).current_byte,
            ),
            final(self).buf.position() == old(self).buf.position(),
            final(self).current_byte == old(self).current_byte,
            final(self).remaining_bits == old(self).remaining_bits,
    {
        let position = self.buf.position();
        let _ = self.buf.set_position(position - 1);
        let _ = self.buf.write_byte(self.current_byte);
    }

    /// Reads one byte straight from the store.
    fn read_byte(&mut self) -> (r: Result<u8, Error>)
        requires
            old(self).buf.inv(),
        ensures
            final(self).buf.inv(),
            final(self).buf@ == old(self).buf@,
            final(self).current_byte == old(self).current_byte,
            final(self).remaining_bits == old(self).remaining_bits,
            old(self).buf.position() < old(self).buf@.len() ==> (r matches Ok(byte) && byte == old(
                self
            ).buf@[old(self).buf.position() as int]) && final(self).buf.position() == old(
                self
            ).buf.position() + 1,
            old(self).buf.position() >= old(self).buf@.len() ==> (r matches Err(e) && e.kind()
                == ErrorKind::IoExhausted) && final(self).buf.position() == old(
                self
            ).buf.position(),
    {
        match self.buf.read_byte() {
            Some(byte) => Ok(byte),
            None => Err(Error::with_kind(ErrorKind::IoExhausted, "End of file")),
        }
    }

    /// Writes one byte straight to the store.
    fn write_byte(&mut self, byte: u8) -> (r: Result<(), Error>)
        requires
            old(self).buf.inv(),
        ensures
            final(self).buf.inv(),
            final(self).current_byte == old(self).current_byte,
            final(self).remaining_bits == old(self).remaining_bits,
            old(self).buf.position() < old(self).buf@.len() ==> r is Ok && final(self).buf@ == old(
                self
            ).buf@.update(old(self).buf.position() as int, byte) && final(self).buf.position()
                == old(self).buf.position() + 1,
            old(self).buf.position() >= old(self).buf@.len() ==> (r matches Err(e) && e.kind()
                == ErrorKind::IoExhausted) && final(self).buf@ == old(self).buf@ && final(
                self
            ).buf.position() == old(self).buf.position(),
    {
        if self.buf.write_byte(byte) {
            Ok(())
        } else {
            Err(Error::with_kind(ErrorKind::IoExhausted, "End of file"))
        }
    }
}

/// With `left` bits of a field still to go, the top bit of the shifted value is the next
/// digit of the field.
proof fn lemma_field_step(data: u32, left: u8)
    by (bit_vector)
    requires
        1 <= left <= 32,
    ensures
        ((data << ((32 - left) as u32)) & 0x8000_0000u32 != 0u32) == ((data >> ((left - 1) as u32))
            & 1u32 == 1u32),
        (data >> ((left - 1) as u32)) >> 1u32 == data >> (left as u32),
        left > 1 ==> (data << ((32 - left) as u32)) << 1u32 == data << ((32 - (left - 1)) as u32),
{
}

/// With `left` bits of a field still to go, eight or more, the top byte of the shifted value
/// holds the next eight digits of the field.
proof fn lemma_field_byte(data: u32, left: u8)
    by (bit_vector)
    requires
        8 <= left <= 32,
    ensures
        ((data << ((32 - left) as u32)) >> 24u32) as u8 == ((data >> ((left - 8) as u32))
            & 0xffu32) as u8,
        (data >> ((left - 8) as u32)) >> 8u32 == data >> (left as u32),
        left > 8 ==> (data << ((32 - left) as u32)) << 8u32 == data << ((32 - (left - 8)) as u32),
{
}

} // verus!
