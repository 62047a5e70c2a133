//! Numbers in byte buffers.

use vstd::prelude::*;

verus! {

/// The number whose four bytes, lowest first, are `b0`, `b1`, `b2` and `b3`.
pub open spec fn u32_of_bytes(b0: u8, b1: u8, b2: u8, b3: u8) -> u32 {
    (b0 as u32) | (b1 as u32) << 8u32 | (b2 as u32) << 16u32 | (b3 as u32) << 24u32
}

/// The number whose two bytes, lowest first, are `b0` and `b1`.
pub open spec fn u16_of_bytes(b0: u8, b1: u8) -> u16 {
    (b0 as u16) | (b1 as u16) << 8u16
}

/// Byte `i` of `number`, counted from the lowest.
pub open spec fn byte_of_u32(number: u32, i: nat) -> u8 {
    ((number >> ((8 * i) as u32)) & 0xffu32) as u8
}

/// The little-endian number in the four bytes of `bytes` from `position` on.
pub open spec fn le_u32_at(bytes: Seq<u8>, position: int) -> u32 {
    u32_of_bytes(bytes[position], bytes[position + 1], bytes[position + 2], bytes[position + 3])
}

/// The big-endian number in the four bytes of `bytes` from `position` on.
pub open spec fn be_u32_at(bytes: Seq<u8>, position: int) -> u32 {
    u32_of_bytes(bytes[position + 3], bytes[position + 2], bytes[position + 1], bytes[position])
}

/// The little-endian number in the two bytes of `bytes` from `position` on.
pub open spec fn le_u16_at(bytes: Seq<u8>, position: int) -> u16 {
    u16_of_bytes(bytes[position], bytes[position + 1])
}

/// `bytes` with the four bytes from `position` on replaced by `number`, lowest byte first.
pub open spec fn with_le_u32(bytes: Seq<u8>, position: int, number: u32) -> Seq<u8> {
    bytes.update(position, byte_of_u32(number, 0)).update(
        position + 1,
        byte_of_u32(number, 1),
    ).update(position + 2, byte_of_u32(number, 2)).update(position + 3, byte_of_u32(number, 3))
}

/// The four bytes of `number`, lowest first.
pub open spec fn le_bytes_of_u32(number: u32) -> Seq<u8> {
    seq![
        byte_of_u32(number, 0),
        byte_of_u32(number, 1),
        byte_of_u32(number, 2),
        byte_of_u32(number, 3),
    ]
}

/// A number is the one that its four bytes spell.
pub proof fn lemma_u32_of_its_bytes(number: u32)
    ensures
        u32_of_bytes(
            byte_of_u32(number, 0),
            byte_of_u32(number, 1),
            byte_of_u32(number, 2),
            byte_of_u32(number, 3),
        ) == number,
{
    assert(u32_of_bytes(
        ((number >> 0u32) & 0xffu32) as u8,
        ((number >> 8u32) & 0xffu32) as u8,
        ((number >> 16u32) & 0xffu32) as u8,
        ((number >> 24u32) & 0xffu32) as u8,
    ) == number) by (bit_vector);
}

/// Reading a number where it was just written gives that number.
pub proof fn lemma_read_le_u32_after_write(bytes: Seq<u8>, position: int, number: u32)
    requires
        0 <= position,
        position + 4 <= bytes.len(),
    ensures
        le_u32_at(with_le_u32(bytes, position, number), position) == number,
        with_le_u32(bytes, position, number).len() == bytes.len(),
{
    lemma_u32_of_its_bytes(number);
}

/// Reads a `u32` from `buf` at `position`, lowest byte first.
pub fn read_le_u32(buf: &[u8], position: usize) -> (number: u32)
    requires
        position + 4 <= buf@.len(),
    ensures
        number == le_u32_at(buf@, position as int),
{
    (buf[position] as u32) | (buf[position + 1] as u32) << 8 | (buf[position + 2] as u32) << 16 | (
    buf[position + 3] as u32) << 24
}

/// Reads a `u32` from `buf` at `position`, highest byte first.
pub fn read_be_u32(buf: &[u8], position: usize) -> (number: u32)
    requires
        position + 4 <= buf@.len(),
    ensures
        number == be_u32_at(buf@, position as int),
{
    let b0 = buf[position];
    let b1 = buf[position + 1];
    let b2 = buf[position + 2];
    let b3 = buf[position + 3];
    (b3 as u32) | (b2 as u32) << 8 | (b1 as u32) << 16 | (b0 as u32) << 24
}

/// Reads a `u16` from `buf` at `position`, lowest byte first.
pub fn read_le_u16(buf: &[u8], position: usize) -> (number: u16)
    requires
        position + 2 <= buf@.len(),
    ensures
        number == le_u16_at(buf@, position as int),
{
    (buf[position] as u16) | (buf[position + 1] as u16) << 8
}

/// Writes `number` into `buf` at `position`, lowest byte first.
pub fn write_le_u32(buf: &mut [u8], position: usize, number: u32)
    requires
        position + 4 <= old(buf)@.len(),
    ensures
        final(buf)@ == with_le_u32(old(buf)@, position as int, number),
{
    let len = buf.len();
    let mut i: usize = 0;
    while i < 4
        invariant
            i <= 4,
            position + 4 <= len,
            len == buf@.len(),
            buf@.len() == old(buf)@.len(),
            forall|k: int|
                0 <= k < buf@.len() ==> #[trigger] buf@[k] == (if position <= k < position + i {
                    byte_of_u32(number, (k - position) as nat)
                } else {
                    old(buf)@[k]
                }),
        decreases 4 - i,
    {
        let shift: u32 = 8 * (i as u32);
        buf[position + i] = #[verifier::truncate] (((number >> shift) & 0xff) as u8);
        i += 1;
    }
    assert(buf@ =~= with_le_u32(old(buf)@, position as int, number));
}

} // verus!
