//! A byte sequence seen as a sequence of bits, most significant bit of each byte first.
//!
//! Bit `k` of a sequence lives in byte `k / 8`; within that byte, bit `0` is the top bit and
//! bit `7` the lowest one. A field of up to 32 bits is read as a big-endian number and written
//! from the low bits of a number, most significant bit first.

use vstd::prelude::*;

verus! {

/// Whether the bit of weight `2^r` is set in `b`.
pub open spec fn test_bit(b: u8, r: u8) -> bool {
    b & (1u8 << r) != 0
}

/// `b` with the bit of weight `2^r` set to `x`.
pub open spec fn put_bit(b: u8, r: u8, x: bool) -> u8 {
    if x {
        b | (1u8 << r)
    } else {
        b & !(1u8 << r)
    }
}

/// Bit `j` of `b`, counted from the most significant bit.
pub open spec fn byte_bit(b: u8, j: int) -> bool {
    test_bit(b, (7 - j) as u8)
}

/// `b` with bit `j`, counted from the most significant bit, set to `x`.
pub open spec fn with_byte_bit(b: u8, j: int, x: bool) -> u8 {
    put_bit(b, (7 - j) as u8, x)
}

/// Bit `k` of `bytes`.
pub open spec fn bit_at(bytes: Seq<u8>, k: int) -> bool {
    byte_bit(bytes[k / 8], k % 8)
}

/// `bytes` with bit `k` set to `x`.
pub open spec fn with_bit(bytes: Seq<u8>, k: int, x: bool) -> Seq<u8> {
    bytes.update(k / 8, with_byte_bit(bytes[k / 8], k % 8, x))
}

/// The number with the `count` lowest bits set and no other; all 32 for a larger `count`.
pub open spec fn low_mask(count: nat) -> u32 {
    if count >= 32 {
        0xffff_ffffu32
    } else {
        !(0xffff_ffffu32 << (count as u32))
    }
}

/// Whether the bit of weight `2^i` is set in `value`.
pub open spec fn value_bit(value: u32, i: nat) -> bool {
    (value >> (i as u32)) & 1u32 == 1u32
}

/// The number whose binary digits are the `count` bits of `bytes` from bit `start` on, most
/// significant first.
pub open spec fn read_bits(bytes: Seq<u8>, start: int, count: nat) -> u32
    recommends
        count <= 32,
    decreases count,
{
    if count == 0 {
        0u32
    } else {
        (read_bits(bytes, start, (count - 1) as nat) << 1u32) | (if bit_at(
            bytes,
            start + count - 1,
        ) {
            1u32
        } else {
            0u32
        })
    }
}

/// `bytes` with the `count` bits from bit `start` on replaced by the low `count` bits of
/// `value`, most significant first.
pub open spec fn write_bits(bytes: Seq<u8>, start: int, count: nat, value: u32) -> Seq<u8>
    recommends
        count <= 32,
    decreases count,
{
    if count == 0 {
        bytes
    } else {
        with_bit(
            write_bits(bytes, start, (count - 1) as nat, value >> 1u32),
            start + count - 1,
            value & 1u32 == 1u32,
        )
    }
}

/// Setting one bit of a byte changes that bit and no other.
pub proof fn lemma_put_bit_test_bit(b: u8, r: u8, x: bool, s: u8)
    by (bit_vector)
    requires
        r < 8,
        s < 8,
    ensures
        test_bit(put_bit(b, r, x), s) == (if r == s {
            x
        } else {
            test_bit(b, s)
        }),
{
}

/// Setting bit `k` leaves the length alone, gives bit `k` the new value and keeps every other
/// bit.
pub proof fn lemma_with_bit(bytes: Seq<u8>, k: int, x: bool, k2: int)
    requires
        0 <= k < 8 * bytes.len(),
        0 <= k2 < 8 * bytes.len(),
    ensures
        with_bit(bytes, k, x).len() == bytes.len(),
        bit_at(with_bit(bytes, k, x), k2) == (if k2 == k {
            x
        } else {
            bit_at(bytes, k2)
        }),
{
    if k2 / 8 == k / 8 {
        lemma_put_bit_test_bit(bytes[k / 8], (7 - k % 8) as u8, x, (7 - k2 % 8) as u8);
    }
}

/// Writing a field inside the sequence keeps its length.
pub proof fn lemma_write_bits_len(bytes: Seq<u8>, start: int, count: nat, value: u32)
    requires
        0 <= start,
        start + count <= 8 * bytes.len(),
    ensures
        write_bits(bytes, start, count, value).len() == bytes.len(),
    decreases count,
{
    if count > 0 {
        lemma_write_bits_len(bytes, start, (count - 1) as nat, value >> 1u32);
    }
}

/// Writing a field keeps every byte that lies before the field.
pub proof fn lemma_write_bits_keeps_before(
    bytes: Seq<u8>,
    start: int,
    count: nat,
    value: u32,
    k: int,
)
    requires
        0 <= k,
        8 * (k + 1) <= start,
        start + count <= 8 * bytes.len(),
    ensures
        write_bits(bytes, start, count, value)[k] == bytes[k],
    decreases count,
{
    if count > 0 {
        lemma_write_bits_len(bytes, start, (count - 1) as nat, value >> 1u32);
        lemma_write_bits_keeps_before(bytes, start, (count - 1) as nat, value >> 1u32, k);
    }
}

/// After a field is written, each of its bits is the matching digit of the value, and every
/// bit outside the field is what it was.
pub proof fn lemma_write_bits_bit_at(bytes: Seq<u8>, start: int, count: nat, value: u32, k: int)
    requires
        0 <= start,
        count <= 32,
        start + count <= 8 * bytes.len(),
        0 <= k < 8 * bytes.len(),
    ensures
        bit_at(write_bits(bytes, start, count, value), k) == (if start <= k < start + count {
            value_bit(value, (start + count - 1 - k) as nat)
        } else {
            bit_at(bytes, k)
        }),
    decreases count,
{
    if count > 0 {
        let rest = write_bits(bytes, start, (count - 1) as nat, value >> 1u32);
        lemma_write_bits_len(bytes, start, (count - 1) as nat, value >> 1u32);
        lemma_write_bits_bit_at(bytes, start, (count - 1) as nat, value >> 1u32, k);
        lemma_with_bit(rest, start + count - 1, value & 1u32 == 1u32, k);
        if k == start + count - 1 {
            assert((value >> 0u32) & 1u32 == value & 1u32) by (bit_vector);
        } else if start <= k < start + count {
            let e = (start + count - 2 - k) as u32;
            assert(((value >> 1u32) >> e) & 1u32 == (value >> ((e + 1) as u32)) & 1u32)
                by (bit_vector)
                requires
                    e < 31,
            ;
        }
    }
}

/// Two sequences that agree on every bit of a field hold the same number in it.
pub proof fn lemma_read_bits_agree(a: Seq<u8>, b: Seq<u8>, start: int, count: nat)
    requires
        forall|k: int| start <= k < start + count ==> bit_at(a, k) == bit_at(b, k),
    ensures
        read_bits(a, start, count) == read_bits(b, start, count),
    decreases count,
{
    if count > 0 {
        lemma_read_bits_agree(a, b, start, (count - 1) as nat);
    }
}

/// A field of `count` bits holds a number that fits in `count` bits.
pub proof fn lemma_read_bits_bound(bytes: Seq<u8>, start: int, count: nat)
    requires
        count <= 32,
    ensures
        read_bits(bytes, start, count) & low_mask(count) == read_bits(bytes, start, count),
    decreases count,
{
    if count == 0 {
        assert(0u32 & !(0xffff_ffffu32 << 0u32) == 0u32) by (bit_vector);
    } else {
        lemma_read_bits_bound(bytes, start, (count - 1) as nat);
        let c = count as u32;
        let prev = read_bits(bytes, start, (count - 1) as nat);
        let low: u32 = if bit_at(bytes, start + count - 1) {
            1
        } else {
            0
        };
        let prev_mask = low_mask((count - 1) as nat);
        let mask = low_mask(count);
        assert(((prev << 1u32) | low) & mask == (prev << 1u32) | low) by (bit_vector)
            requires
                1 <= c <= 32,
                low <= 1,
                prev & prev_mask == prev,
                prev_mask == !(0xffff_ffffu32 << ((c - 1) as u32)),
                mask == (if c >= 32 {
                    0xffff_ffffu32
                } else {
                    !(0xffff_ffffu32 << c)
                }),
        ;
    }
}

/// Reading a field back right after writing it gives the value's low bits, as many as the
/// field is wide.
pub proof fn lemma_read_after_write(bytes: Seq<u8>, start: int, count: nat, value: u32)
    requires
        0 <= start,
        count <= 32,
        start + count <= 8 * bytes.len(),
    ensures
        read_bits(write_bits(bytes, start, count, value), start, count) == value & low_mask(count),
    decreases count,
{
    if count == 0 {
        assert(value & !(0xffff_ffffu32 << 0u32) == 0u32) by (bit_vector);
    } else {
        let rest = write_bits(bytes, start, (count - 1) as nat, value >> 1u32);
        let done = write_bits(bytes, start, count, value);
        lemma_write_bits_len(bytes, start, (count - 1) as nat, value >> 1u32);
        lemma_read_after_write(bytes, start, (count - 1) as nat, value >> 1u32);
        assert forall|k: int| start <= k < start + count - 1 implies bit_at(done, k) == bit_at(
            rest,
            k,
        ) by {
            lemma_with_bit(rest, start + count - 1, value & 1u32 == 1u32, k);
        }
        lemma_read_bits_agree(done, rest, start, (count - 1) as nat);
        lemma_with_bit(rest, start + count - 1, value & 1u32 == 1u32, start + count - 1);
        let c = count as u32;
        let prev = read_bits(done, start, (count - 1) as nat);
        let low: u32 = if value & 1u32 == 1u32 {
            1
        } else {
            0
        };
        let prev_mask = low_mask((count - 1) as nat);
        let mask = low_mask(count);
        assert((prev << 1u32) | low == value & mask) by (bit_vector)
            requires
                1 <= c <= 32,
                low == (if value & 1u32 == 1u32 {
                    1u32
                } else {
                    0u32
                }),
                prev == (value >> 1u32) & prev_mask,
                prev_mask == !(0xffff_ffffu32 << ((c - 1) as u32)),
                mask == (if c >= 32 {
                    0xffff_ffffu32
                } else {
                    !(0xffff_ffffu32 << c)
                }),
        ;
    }
}

/// Only the low `count` bits of the value reach the sequence.
pub proof fn lemma_write_bits_masked(bytes: Seq<u8>, start: int, count: nat, value: u32)
    requires
        count <= 32,
    ensures
        write_bits(bytes, start, count, value) == write_bits(
            bytes,
            start,
            count,
            value & low_mask(count),
        ),
    decreases count,
{
    if count > 0 {
        let c = count as u32;
        let low = value & low_mask(count);
        let mask = low_mask(count);
        let prev_mask = low_mask((count - 1) as nat);
        assert(low & 1u32 == value & 1u32 && low >> 1u32 == (value >> 1u32) & prev_mask)
            by (bit_vector)
            requires
                1 <= c <= 32,
                low == value & mask,
                prev_mask == !(0xffff_ffffu32 << ((c - 1) as u32)),
                mask == (if c >= 32 {
                    0xffff_ffffu32
                } else {
                    !(0xffff_ffffu32 << c)
                }),
        ;
        lemma_write_bits_masked(bytes, start, (count - 1) as nat, value >> 1u32);
    }
}

/// Writing a field does not change the number held in a field that it does not overlap.
pub proof fn lemma_write_bits_elsewhere(
    bytes: Seq<u8>,
    start: int,
    count: nat,
    value: u32,
    other_start: int,
    other_count: nat,
)
    requires
        0 <= start,
        count <= 32,
        start + count <= 8 * bytes.len(),
        0 <= other_start,
        other_start + other_count <= 8 * bytes.len(),
        other_start + other_count <= start || start + count <= other_start,
    ensures
        read_bits(write_bits(bytes, start, count, value), other_start, other_count) == read_bits(
            bytes,
            other_start,
            other_count,
        ),
{
    let done = write_bits(bytes, start, count, value);
    assert forall|k: int| other_start <= k < other_start + other_count implies bit_at(done, k)
        == bit_at(bytes, k) by {
        lemma_write_bits_bit_at(bytes, start, count, value, k);
    }
    lemma_read_bits_agree(done, bytes, other_start, other_count);
}

/// `r` with a bit shifted in at its low end.
pub open spec fn shift_in(r: u32, bit: bool) -> u32 {
    (r << 1u32) | (if bit {
        1u32
    } else {
        0u32
    })
}

/// Shifting the eight bits of a byte in one by one, top bit first, is shifting in the byte.
proof fn lemma_shift_in_byte(r: u32, b: u8)
    by (bit_vector)
    ensures
        shift_in(
            shift_in(
                shift_in(
                    shift_in(
                        shift_in(
                            shift_in(
                                shift_in(shift_in(r, test_bit(b, 7)), test_bit(b, 6)),
                                test_bit(b, 5),
                            ),
                            test_bit(b, 4),
                        ),
                        test_bit(b, 3),
                    ),
                    test_bit(b, 2),
                ),
                test_bit(b, 1),
            ),
            test_bit(b, 0),
        ) == (r << 8u32) | (b as u32),
{
}

/// A field that ends on a byte boundary and is extended by the next byte holds its number
/// shifted left by eight bits, with that byte in the low eight.
pub proof fn lemma_read_bits_byte(bytes: Seq<u8>, start: int, count: nat)
    requires
        0 <= start,
        (start + count) % 8 == 0,
        start + count + 8 <= 8 * bytes.len(),
    ensures
        read_bits(bytes, start, count + 8) == (read_bits(bytes, start, count) << 8u32) | (bytes[(
        start + count) / 8] as u32),
{
    let q = (start + count) / 8;
    let b = bytes[q];
    let r0 = read_bits(bytes, start, count);
    let r1 = read_bits(bytes, start, count + 1);
    let r2 = read_bits(bytes, start, count + 2);
    let r3 = read_bits(bytes, start, count + 3);
    let r4 = read_bits(bytes, start, count + 4);
    let r5 = read_bits(bytes, start, count + 5);
    let r6 = read_bits(bytes, start, count + 6);
    let r7 = read_bits(bytes, start, count + 7);
    let r8 = read_bits(bytes, start, count + 8);
    assert(r1 == shift_in(r0, test_bit(b, 7)));
    assert(r2 == shift_in(r1, test_bit(b, 6)));
    assert(r3 == shift_in(r2, test_bit(b, 5)));
    assert(r4 == shift_in(r3, test_bit(b, 4)));
    assert(r5 == shift_in(r4, test_bit(b, 3)));
    assert(r6 == shift_in(r5, test_bit(b, 2)));
    assert(r7 == shift_in(r6, test_bit(b, 1)));
    assert(r8 == shift_in(r7, test_bit(b, 0)));
    lemma_shift_in_byte(r0, b);
}

/// Setting each of the eight bits of a byte to the matching bit of `x` gives `x`.
proof fn lemma_put_all_bits(b: u8, x: u8)
    by (bit_vector)
    ensures
        put_bit(
            put_bit(
                put_bit(
                    put_bit(
                        put_bit(
                            put_bit(
                                put_bit(put_bit(b, 7, test_bit(x, 7)), 6, test_bit(x, 6)),
                                5,
                                test_bit(x, 5),
                            ),
                            4,
                            test_bit(x, 4),
                        ),
                        3,
                        test_bit(x, 3),
                    ),
                    2,
                    test_bit(x, 2),
                ),
                1,
                test_bit(x, 1),
            ),
            0,
            test_bit(x, 0),
        ) == x,
{
}

/// Extending a written field by one bit sets that bit in the byte that holds it.
proof fn lemma_write_bits_step(bytes: Seq<u8>, start: int, count: nat, value: u32, q: int, r: u8)
    requires
        0 <= start,
        r < 8,
        start + count == 8 * q + (7 - r),
    ensures
        write_bits(bytes, start, count + 1, value) == ({
            let rest = write_bits(bytes, start, count, value >> 1u32);
            rest.update(q, put_bit(rest[q], r, value & 1u32 == 1u32))
        }),
{
    let k = start + count + 1 - 1;
    assert(k / 8 == q);
    assert(k % 8 == 7 - r);
    assert((count + 1 - 1) as nat == count);
}

/// The bits of the low byte of a number are the number's eight lowest binary digits.
proof fn lemma_low_byte_digits(value: u32)
    by (bit_vector)
    ensures
        test_bit((value & 0xffu32) as u8, 0) == (value & 1u32 == 1u32),
        test_bit((value & 0xffu32) as u8, 1) == ((value >> 1u32) & 1u32 == 1u32),
        test_bit((value & 0xffu32) as u8, 2) == ((value >> 2u32) & 1u32 == 1u32),
        test_bit((value & 0xffu32) as u8, 3) == ((value >> 3u32) & 1u32 == 1u32),
        test_bit((value & 0xffu32) as u8, 4) == ((value >> 4u32) & 1u32 == 1u32),
        test_bit((value & 0xffu32) as u8, 5) == ((value >> 5u32) & 1u32 == 1u32),
        test_bit((value & 0xffu32) as u8, 6) == ((value >> 6u32) & 1u32 == 1u32),
        test_bit((value & 0xffu32) as u8, 7) == ((value >> 7u32) & 1u32 == 1u32),
        (value >> 1u32) >> 1u32 == value >> 2u32,
        (value >> 2u32) >> 1u32 == value >> 3u32,
        (value >> 3u32) >> 1u32 == value >> 4u32,
        (value >> 4u32) >> 1u32 == value >> 5u32,
        (value >> 5u32) >> 1u32 == value >> 6u32,
        (value >> 6u32) >> 1u32 == value >> 7u32,
        (value >> 7u32) >> 1u32 == value >> 8u32,
{
}

/// Writing a field that ends on a byte boundary and is extended by one byte is writing the
/// field without that byte and then storing the value's low byte whole.
pub proof fn lemma_write_bits_byte(bytes: Seq<u8>, start: int, count: nat, value: u32)
    requires
        0 <= start,
        (start + count) % 8 == 0,
        start + count + 8 <= 8 * bytes.len(),
    ensures
        write_bits(bytes, start, count + 8, value) == write_bits(
            bytes,
            start,
            count,
            value >> 8u32,
        ).update((start + count) / 8, (value & 0xffu32) as u8),
{
    let q = (start + count) / 8;
    let x = (value & 0xffu32) as u8;
    let t0 = write_bits(bytes, start, count, value >> 8u32);
    let t1 = write_bits(bytes, start, count + 1, value >> 7u32);
    let t2 = write_bits(bytes, start, count + 2, value >> 6u32);
    let t3 = write_bits(bytes, start, count + 3, value >> 5u32);
    let t4 = write_bits(bytes, start, count + 4, value >> 4u32);
    let t5 = write_bits(bytes, start, count + 5, value >> 3u32);
    let t6 = write_bits(bytes, start, count + 6, value >> 2u32);
    let t7 = write_bits(bytes, start, count + 7, value >> 1u32);
    let t8 = write_bits(bytes, start, count + 8, value);
    lemma_write_bits_len(bytes, start, count, value >> 8u32);
    lemma_low_byte_digits(value);
    lemma_write_bits_step(bytes, start, count, value >> 7u32, q, 7);
    lemma_write_bits_step(bytes, start, count + 1, value >> 6u32, q, 6);
    lemma_write_bits_step(bytes, start, count + 2, value >> 5u32, q, 5);
    lemma_write_bits_step(bytes, start, count + 3, value >> 4u32, q, 4);
    lemma_write_bits_step(bytes, start, count + 4, value >> 3u32, q, 3);
    lemma_write_bits_step(bytes, start, count + 5, value >> 2u32, q, 2);
    lemma_write_bits_step(bytes, start, count + 6, value >> 1u32, q, 1);
    lemma_write_bits_step(bytes, start, count + 7, value, q, 0);
    assert(t1 == t0.update(q, put_bit(t0[q], 7, test_bit(x, 7))));
    assert(t2 == t1.update(q, put_bit(t1[q], 6, test_bit(x, 6))));
    assert(t3 == t2.update(q, put_bit(t2[q], 5, test_bit(x, 5))));
    assert(t4 == t3.update(q, put_bit(t3[q], 4, test_bit(x, 4))));
    assert(t5 == t4.update(q, put_bit(t4[q], 3, test_bit(x, 3))));
    assert(t6 == t5.update(q, put_bit(t5[q], 2, test_bit(x, 2))));
    assert(t7 == t6.update(q, put_bit(t6[q], 1, test_bit(x, 1))));
    assert(t8 == t7.update(q, put_bit(t7[q], 0, test_bit(x, 0))));
    lemma_put_all_bits(t0[q], x);
    assert(t8 =~= t0.update(q, x));
}

} // verus!
