//! The slots of an image: the bits of its pixels that carry a payload.
//!
//! Each pixel lends one bit per colour channel that the image has: the lowest bit of the
//! channel's mask. These bits are the slots. They are numbered pixel by pixel in raster order
//! and, within a pixel, from the highest mask down.

use crate::bitmap::pixel::PixelFormat;
use crate::bitmap::ImageDescriptor;
use crate::bits::{
    byte_bit, lemma_read_after_write, lemma_read_bits_bound, lemma_write_bits_elsewhere,
    lemma_write_bits_keeps_before, lemma_write_bits_len, low_mask, read_bits, test_bit,
    write_bits,
};
use vstd::arithmetic::div_mod::{
    lemma_fundamental_div_mod, lemma_fundamental_div_mod_converse, lemma_mod_pos_bound,
    lemma_multiply_divide_lt,
};
use vstd::prelude::*;
use vstd::std_specs::bits::{axiom_u32_trailing_zeros, u32_trailing_zeros};

verus! {

/// The lowest set bit of `mask`, or zero where `mask` is zero.
pub open spec fn lowest_bit_of(mask: u32) -> u32 {
    if mask == 0 {
        0u32
    } else {
        1u32 << u32_trailing_zeros(mask)
    }
}

/// Whether exactly one bit of `m` is set.
pub open spec fn is_single_bit(m: u32) -> bool {
    m != 0 && m & ((m - 1) as u32) == 0
}

/// The lowest set bit of a mask is one of the mask's bits and the only bit of its own, and
/// the mask has no bit below it.
pub proof fn lemma_lowest_bit_of(mask: u32)
    ensures
        lowest_bit_of(mask) == 0 <==> mask == 0,
        lowest_bit_of(mask) & mask == lowest_bit_of(mask),
        mask != 0 ==> is_single_bit(lowest_bit_of(mask)),
        mask != 0 ==> mask & ((lowest_bit_of(mask) - 1) as u32) == 0,
{
    axiom_u32_trailing_zeros(mask);
    let zeros = u32_trailing_zeros(mask);
    if mask != 0 {
        let bit = 1u32 << zeros;
        assert(bit != 0 && bit & ((bit - 1) as u32) == 0 && bit & mask == bit && mask & ((bit
            - 1) as u32) == 0) by (bit_vector)
            requires
                zeros < 32,
                bit == 1u32 << zeros,
                (mask >> zeros) & 1u32 == 1u32,
                mask << ((32 - zeros) as u32) == 0,
        ;
    } else {
        assert(0u32 & mask == 0u32) by (bit_vector);
    }
}

/// `x` and `y`, the larger one first.
pub open spec fn larger_first(x: u32, y: u32) -> (u32, u32) {
    if x >= y {
        (x, y)
    } else {
        (y, x)
    }
}

/// The four numbers in descending order.
pub open spec fn descending(x0: u32, x1: u32, x2: u32, x3: u32) -> Seq<u32> {
    let (a, b) = larger_first(x0, x1);
    let (c, d) = larger_first(x2, x3);
    let (a, c) = larger_first(a, c);
    let (b, d) = larger_first(b, d);
    let (b, c) = larger_first(b, c);
    seq![a, b, c, d]
}

/// The masks of a channel's slots within a pixel: the lowest bit of each colour channel's
/// mask, in descending order. A colour channel that the image does not have gives zero.
pub open spec fn channel_masks(format: PixelFormat) -> Seq<u32> {
    descending(
        lowest_bit_of(format.red_mask),
        lowest_bit_of(format.green_mask),
        lowest_bit_of(format.blue_mask),
        lowest_bit_of(format.alpha_mask),
    )
}

/// How many of the four masks are not zero.
pub open spec fn count_nonzero(masks: Seq<u32>) -> nat {
    (if masks[0] != 0 { 1nat } else { 0nat }) + (if masks[1] != 0 { 1nat } else { 0nat })
        + (if masks[2] != 0 { 1nat } else { 0nat }) + (if masks[3] != 0 { 1nat } else { 0nat })
}

/// The number of slots in a pixel: the number of colour channels that the image has.
pub open spec fn slots_per_pixel(format: PixelFormat) -> nat {
    count_nonzero(channel_masks(format))
}

/// The colour channels of a pixel layout can carry a payload: the lowest bits of the masks
/// of any two channels that the image has differ, and all of them lie inside the pixel.
pub open spec fn channels_separate(format: PixelFormat) -> bool {
    let r = lowest_bit_of(format.red_mask);
    let g = lowest_bit_of(format.green_mask);
    let b = lowest_bit_of(format.blue_mask);
    let a = lowest_bit_of(format.alpha_mask);
    let inside = low_mask(format.depth as nat);
    &&& r & inside == r
    &&& g & inside == g
    &&& b & inside == b
    &&& a & inside == a
    &&& r != 0 && g != 0 ==> r != g
    &&& r != 0 && b != 0 ==> r != b
    &&& r != 0 && a != 0 ==> r != a
    &&& g != 0 && b != 0 ==> g != b
    &&& g != 0 && a != 0 ==> g != a
    &&& b != 0 && a != 0 ==> b != a
}

/// The masks of the slots are in descending order, so the ones that are not zero come
/// first, as many as there are slots in a pixel.
pub proof fn lemma_channel_masks(format: PixelFormat)
    ensures
        channel_masks(format).len() == 4,
        slots_per_pixel(format) <= 4,
        channel_masks(format)[0] >= channel_masks(format)[1] >= channel_masks(format)[2]
            >= channel_masks(format)[3],
        forall|j: int|
            0 <= j < 4 ==> (#[trigger] channel_masks(format)[j] != 0 <==> j < slots_per_pixel(
                format
            )),
{
}

/// Where the colour channels are separate, each slot of a pixel has a mask of one bit inside
/// the pixel, and no two slots share one.
pub proof fn lemma_channel_masks_separate(format: PixelFormat)
    requires
        channels_separate(format),
    ensures
        forall|j: int|
            0 <= j < slots_per_pixel(format) ==> is_single_bit(#[trigger] channel_masks(format)[j])
                && channel_masks(format)[j] & low_mask(format.depth as nat) == channel_masks(
                format
            )[j],
        forall|j: int, k: int|
            0 <= j < k < slots_per_pixel(format) ==> #[trigger] channel_masks(format)[j]
                & #[trigger] channel_masks(format)[k] == 0,
{
    lemma_channel_masks(format);
    lemma_lowest_bit_of(format.red_mask);
    lemma_lowest_bit_of(format.green_mask);
    lemma_lowest_bit_of(format.blue_mask);
    lemma_lowest_bit_of(format.alpha_mask);
    let masks = channel_masks(format);
    assert forall|j: int, k: int| 0 <= j < k < slots_per_pixel(format) implies #[trigger] masks[j]
        & #[trigger] masks[k] == 0 by {
        lemma_single_bits_apart(masks[j], masks[k]);
    }
}

/// Two different numbers of one bit each have no bit in common.
proof fn lemma_single_bits_apart(x: u32, y: u32)
    requires
        is_single_bit(x),
        is_single_bit(y),
        x != y,
    ensures
        x & y == 0,
{
    assert(x & y == 0) by (bit_vector)
        requires
            x != 0,
            y != 0,
            x != y,
            x & ((x - 1) as u32) == 0,
            y & ((y - 1) as u32) == 0,
    ;
}

/// The number of slots that an image offers.
pub open spec fn slot_count(d: ImageDescriptor) -> nat {
    d.pixel_count() * slots_per_pixel(d.pixel_format)
}

/// The number of the first bit of the pixel that holds `slot`.
pub open spec fn slot_offset(d: ImageDescriptor, slot: nat) -> nat {
    let pixel = slot / slots_per_pixel(d.pixel_format);
    d.pixel_offset(pixel / (d.width as nat), pixel % (d.width as nat))
}

/// The bit of its pixel's value that `slot` stands for.
pub open spec fn slot_mask(d: ImageDescriptor, slot: nat) -> u32 {
    channel_masks(d.pixel_format)[(slot % slots_per_pixel(d.pixel_format)) as int]
}

/// The bit that `slot` holds in an image whose bytes are `bytes`.
pub open spec fn slot_bit(d: ImageDescriptor, bytes: Seq<u8>, slot: nat) -> bool {
    read_bits(bytes, slot_offset(d, slot) as int, d.pixel_format.depth as nat) & slot_mask(d, slot)
        != 0
}

/// A pixel value with the bits of `mask` set where `bit` is true, and cleared where it is not.
pub open spec fn with_mask(value: u32, mask: u32, bit: bool) -> u32 {
    if bit {
        value | mask
    } else {
        value & !mask
    }
}

/// The bytes of an image after `bit` is put into `slot`: the pixel that holds the slot is
/// read, changed in the slot's bit and written back.
pub open spec fn with_slot(d: ImageDescriptor, bytes: Seq<u8>, slot: nat, bit: bool) -> Seq<u8> {
    let offset = slot_offset(d, slot) as int;
    let depth = d.pixel_format.depth as nat;
    write_bits(
        bytes,
        offset,
        depth,
        with_mask(read_bits(bytes, offset, depth), slot_mask(d, slot), bit),
    )
}

/// The bytes of an image after `bits` are put into the slots from `slot` on, one after the
/// other.
pub open spec fn with_slots(d: ImageDescriptor, bytes: Seq<u8>, slot: nat, bits: Seq<bool>) -> Seq<
    u8,
>
    decreases bits.len(),
{
    if bits.len() == 0 {
        bytes
    } else {
        with_slot(
            d,
            with_slots(d, bytes, slot, bits.drop_last()),
            (slot + bits.len() - 1) as nat,
            bits.last(),
        )
    }
}

/// The number whose binary digits are the bits of the `count` slots from `slot` on, first
/// slot on top.
pub open spec fn slots_value(d: ImageDescriptor, bytes: Seq<u8>, slot: nat, count: nat) -> u8
    recommends
        count <= 8,
    decreases count,
{
    if count == 0 {
        0u8
    } else {
        (slots_value(d, bytes, slot, (count - 1) as nat) << 1u8) | (if slot_bit(
            d,
            bytes,
            (slot + count - 1) as nat,
        ) {
            1u8
        } else {
            0u8
        })
    }
}

/// The bits of `payload`, byte after byte, the highest bit of each byte first.
pub open spec fn payload_bits(payload: Seq<u8>) -> Seq<bool> {
    Seq::new(8 * payload.len(), |k: int| byte_bit(payload[k / 8], k % 8))
}

/// The number of the cell at `row` and `column` in raster order.
pub open spec fn cell_index(d: ImageDescriptor, row: nat, column: nat) -> nat {
    (row * d.width + column) as nat
}

/// A cell of the image has a number below the number of cells, from which its row and
/// column can be read off, and the cell after it has the next number.
pub proof fn lemma_cell(d: ImageDescriptor, row: u32, column: u32)
    requires
        d.has_cell(row, column),
    ensures
        cell_index(d, row as nat, column as nat) < d.pixel_count(),
        cell_index(d, row as nat, column as nat) / (d.width as nat) == row,
        cell_index(d, row as nat, column as nat) % (d.width as nat) == column,
        ({
            let (next_row, next_column) = d.next_cell(row, column);
            &&& cell_index(d, next_row as nat, next_column as nat) == cell_index(
                d,
                row as nat,
                column as nat,
            ) + 1
            &&& d.has_cell(next_row, next_column) <==> cell_index(d, row as nat, column as nat) + 1
                < d.pixel_count()
        }),
{
    let w = d.width as int;
    let h = d.height as int;
    let r = row as int;
    let c = column as int;
    assert((r + 1) * w <= w * h) by (nonlinear_arith)
        requires
            r + 1 <= h,
            0 <= w,
    ;
    assert((r + 1) * w == r * w + w) by (nonlinear_arith);
    assert(0 <= r * w) by (nonlinear_arith)
        requires
            0 <= r,
            0 <= w,
    ;
    lemma_fundamental_div_mod_converse(r * w + c, w, r, c);
    if r + 1 < h {
        assert((r + 2) * w <= w * h) by (nonlinear_arith)
            requires
                r + 2 <= h,
                0 <= w,
        ;
        assert((r + 2) * w == r * w + w + w) by (nonlinear_arith);
    } else {
        assert((r + 1) * w == w * h) by (nonlinear_arith)
            requires
                r + 1 == h,
        ;
    }
}

/// Slot `j` of the pixel with number `index` is one of the image's slots, and the pixel and
/// `j` can be read off its number.
pub proof fn lemma_slot(d: ImageDescriptor, index: nat, j: nat)
    requires
        index < d.pixel_count(),
        j < slots_per_pixel(d.pixel_format),
    ensures
        index * slots_per_pixel(d.pixel_format) + j < slot_count(d),
        (index * slots_per_pixel(d.pixel_format) + j) / slots_per_pixel(d.pixel_format) == index,
        (index * slots_per_pixel(d.pixel_format) + j) % slots_per_pixel(d.pixel_format) == j,
{
    let per = slots_per_pixel(d.pixel_format) as int;
    let n = d.pixel_count() as int;
    let i = index as int;
    assert((i + 1) * per <= n * per) by (nonlinear_arith)
        requires
            i + 1 <= n,
            0 <= per,
    ;
    assert((i + 1) * per == i * per + per) by (nonlinear_arith);
    assert(0 <= i * per) by (nonlinear_arith)
        requires
            0 <= i,
            0 <= per,
    ;
    lemma_fundamental_div_mod_converse(i * per + j, per, i, j as int);
}

/// A slot of the image is one of the slots of one of its cells.
pub proof fn lemma_slot_parts(d: ImageDescriptor, slot: nat)
    requires
        slot < slot_count(d),
    ensures
        ({
            let per = slots_per_pixel(d.pixel_format);
            let index = slot / per;
            let row = index / (d.width as nat);
            let column = index % (d.width as nat);
            &&& 0 < per <= 4
            &&& slot % per < per
            &&& slot == index * per + slot % per
            &&& index < d.pixel_count()
            &&& row < d.height
            &&& column < d.width
            &&& index == cell_index(d, row, column)
        }),
{
    let per = slots_per_pixel(d.pixel_format) as int;
    let count = d.pixel_count() as int;
    let w = d.width as int;
    let h = d.height as int;
    assert(per != 0 && count != 0) by (nonlinear_arith)
        requires
            0 <= slot < count * per,
    ;
    assert(w != 0) by (nonlinear_arith)
        requires
            count == w * h,
            count != 0,
    ;
    assert(slot < per * count) by (nonlinear_arith)
        requires
            slot < count * per,
    ;
    lemma_multiply_divide_lt(slot as int, per, count);
    lemma_fundamental_div_mod(slot as int, per);
    lemma_mod_pos_bound(slot as int, per);
    let index = slot as int / per;
    assert(index * per == per * index) by (nonlinear_arith);
    lemma_multiply_divide_lt(index, w, h);
    lemma_fundamental_div_mod(index, w);
    lemma_mod_pos_bound(index, w);
    assert((index / w) * w == w * (index / w)) by (nonlinear_arith);
}

/// The pixels of two different cells of the image do not overlap.
pub proof fn lemma_pixels_apart(
    d: ImageDescriptor,
    len: nat,
    row: nat,
    column: nat,
    other_row: nat,
    other_column: nat,
)
    requires
        d.fits(len),
        row < d.height,
        column < d.width,
        other_row < d.height,
        other_column < d.width,
        row != other_row || column != other_column,
    ensures
        d.pixel_offset(row, column) + d.pixel_format.depth <= d.pixel_offset(
            other_row,
            other_column,
        ) || d.pixel_offset(other_row, other_column) + d.pixel_format.depth <= d.pixel_offset(
            row,
            column,
        ),
{
    let depth = d.pixel_format.depth as int;
    let stride = d.row_length as int;
    let r1 = row as int;
    let r2 = other_row as int;
    let c1 = column as int;
    let c2 = other_column as int;
    d.lemma_pixel_inside(len, row, column);
    d.lemma_pixel_inside(len, other_row, other_column);
    assert(0 <= c1 * depth && 0 <= c2 * depth) by (nonlinear_arith)
        requires
            0 <= c1,
            0 <= c2,
            0 <= depth,
    ;
    if r1 < r2 {
        assert((r1 + 1) * stride <= r2 * stride) by (nonlinear_arith)
            requires
                r1 + 1 <= r2,
                0 <= stride,
        ;
    } else if r2 < r1 {
        assert((r2 + 1) * stride <= r1 * stride) by (nonlinear_arith)
            requires
                r2 + 1 <= r1,
                0 <= stride,
        ;
    } else if c1 < c2 {
        assert(c1 * depth + depth <= c2 * depth) by (nonlinear_arith)
            requires
                c1 + 1 <= c2,
                0 <= depth,
        ;
    } else {
        assert(c2 * depth + depth <= c1 * depth) by (nonlinear_arith)
            requires
                c2 + 1 <= c1,
                0 <= depth,
        ;
    }
}

/// Setting or clearing one bit of a pixel value of `inside` bits sets that bit and leaves
/// the bit of any other mask alone.
proof fn lemma_with_mask(value: u32, mask: u32, bit: bool, other: u32, inside: u32)
    requires
        mask != 0,
        mask & inside == mask,
        value & inside == value,
    ensures
        (with_mask(value, mask, bit) & inside) & mask != 0 <==> bit,
        mask & other == 0 ==> (with_mask(value, mask, bit) & inside) & other == value & other,
{
    assert(((value | mask) & inside) & mask != 0 && ((value & !mask) & inside) & mask == 0 && (mask
        & other == 0 ==> ((value | mask) & inside) & other == value & other && ((value & !mask)
        & inside) & other == value & other)) by (bit_vector)
        requires
            mask != 0,
            mask & inside == mask,
            value & inside == value,
    ;
}

/// Putting a bit into a slot keeps the length of the bytes, gives the slot that bit and
/// keeps the bit of every other slot, where the colour channels are separate.
pub proof fn lemma_with_slot(d: ImageDescriptor, bytes: Seq<u8>, slot: nat, bit: bool, other: nat)
    requires
        d.fits(bytes.len()),
        channels_separate(d.pixel_format),
        slot < slot_count(d),
        other < slot_count(d),
    ensures
        with_slot(d, bytes, slot, bit).len() == bytes.len(),
        slot_bit(d, with_slot(d, bytes, slot, bit), other) == (if other == slot {
            bit
        } else {
            slot_bit(d, bytes, other)
        }),
{
    let per = slots_per_pixel(d.pixel_format);
    let depth = d.pixel_format.depth as nat;
    let width = d.width as nat;
    let masks = channel_masks(d.pixel_format);
    let inside = low_mask(depth);
    let index = slot / per;
    let other_index = other / per;
    let offset = slot_offset(d, slot) as int;
    let other_offset = slot_offset(d, other) as int;
    let mask = slot_mask(d, slot);
    let other_mask = slot_mask(d, other);
    let value = read_bits(bytes, offset, depth);
    let changed = with_mask(value, mask, bit);
    let done = write_bits(bytes, offset, depth, changed);
    lemma_slot_parts(d, slot);
    lemma_slot_parts(d, other);
    lemma_channel_masks_separate(d.pixel_format);
    d.lemma_pixel_inside(bytes.len(), index / width, index % width);
    d.lemma_pixel_inside(bytes.len(), other_index / width, other_index % width);
    lemma_write_bits_len(bytes, offset, depth, changed);
    assert(is_single_bit(masks[(slot % per) as int]));
    assert(is_single_bit(masks[(other % per) as int]));
    if index == other_index {
        lemma_read_after_write(bytes, offset, depth, changed);
        lemma_read_bits_bound(bytes, offset, depth);
        lemma_with_mask(value, mask, bit, other_mask, inside);
        if slot % per < other % per {
            assert(masks[(slot % per) as int] & masks[(other % per) as int] == 0);
        } else if other % per < slot % per {
            assert(masks[(other % per) as int] & masks[(slot % per) as int] == 0);
            assert(mask & other_mask == 0) by (bit_vector)
                requires
                    other_mask & mask == 0,
            ;
        }
    } else {
        lemma_pixels_apart(
            d,
            bytes.len(),
            index / width,
            index % width,
            other_index / width,
            other_index % width,
        );
        lemma_write_bits_elsewhere(bytes, offset, depth, changed, other_offset, depth);
    }
}

/// Putting bits into a run of slots keeps the length of the bytes, gives each slot of the
/// run its bit and keeps the bit of every other slot, where the colour channels are separate.
pub proof fn lemma_with_slots(
    d: ImageDescriptor,
    bytes: Seq<u8>,
    start: nat,
    bits: Seq<bool>,
    other: nat,
)
    requires
        d.fits(bytes.len()),
        channels_separate(d.pixel_format),
        start + bits.len() <= slot_count(d),
        other < slot_count(d),
    ensures
        with_slots(d, bytes, start, bits).len() == bytes.len(),
        slot_bit(d, with_slots(d, bytes, start, bits), other) == (if start <= other < start
            + bits.len() {
            bits[other - start]
        } else {
            slot_bit(d, bytes, other)
        }),
    decreases bits.len(),
{
    if bits.len() > 0 {
        let rest = with_slots(d, bytes, start, bits.drop_last());
        lemma_with_slots(d, bytes, start, bits.drop_last(), other);
        lemma_with_slot(d, rest, (start + bits.len() - 1) as nat, bits.last(), other);
    }
}

/// `r` with a bit shifted in at its low end.
pub open spec fn shift_in_u8(r: u8, bit: bool) -> u8 {
    (r << 1u8) | (if bit {
        1u8
    } else {
        0u8
    })
}

/// Shifting the eight bits of a byte into zero, top bit first, gives the byte.
proof fn lemma_shift_in_all(x: u8)
    by (bit_vector)
    ensures
        shift_in_u8(
            shift_in_u8(
                shift_in_u8(
                    shift_in_u8(
                        shift_in_u8(
                            shift_in_u8(
                                shift_in_u8(shift_in_u8(0u8, test_bit(x, 7)), test_bit(x, 6)),
                                test_bit(x, 5),
                            ),
                            test_bit(x, 4),
                        ),
                        test_bit(x, 3),
                    ),
                    test_bit(x, 2),
                ),
                test_bit(x, 1),
            ),
            test_bit(x, 0),
        ) == x,
{
}

/// Eight slots that hold the bits of a byte, highest first, spell that byte.
pub proof fn lemma_slots_value_of_byte(d: ImageDescriptor, bytes: Seq<u8>, slot: nat, x: u8)
    requires
        forall|j: int| 0 <= j < 8 ==> slot_bit(d, bytes, (slot + j) as nat) == byte_bit(x, j),
    ensures
        slots_value(d, bytes, slot, 8) == x,
{
    let v0 = slots_value(d, bytes, slot, 0);
    let v1 = slots_value(d, bytes, slot, 1);
    let v2 = slots_value(d, bytes, slot, 2);
    let v3 = slots_value(d, bytes, slot, 3);
    let v4 = slots_value(d, bytes, slot, 4);
    let v5 = slots_value(d, bytes, slot, 5);
    let v6 = slots_value(d, bytes, slot, 6);
    let v7 = slots_value(d, bytes, slot, 7);
    let v8 = slots_value(d, bytes, slot, 8);
    assert(slot_bit(d, bytes, (slot + 0) as nat) == byte_bit(x, 0));
    assert(slot_bit(d, bytes, (slot + 1) as nat) == byte_bit(x, 1));
    assert(slot_bit(d, bytes, (slot + 2) as nat) == byte_bit(x, 2));
    assert(slot_bit(d, bytes, (slot + 3) as nat) == byte_bit(x, 3));
    assert(slot_bit(d, bytes, (slot + 4) as nat) == byte_bit(x, 4));
    assert(slot_bit(d, bytes, (slot + 5) as nat) == byte_bit(x, 5));
    assert(slot_bit(d, bytes, (slot + 6) as nat) == byte_bit(x, 6));
    assert(slot_bit(d, bytes, (slot + 7) as nat) == byte_bit(x, 7));
    assert(v0 == 0);
    assert(v1 == shift_in_u8(v0, test_bit(x, 7)));
    assert(v2 == shift_in_u8(v1, test_bit(x, 6)));
    assert(v3 == shift_in_u8(v2, test_bit(x, 5)));
    assert(v4 == shift_in_u8(v3, test_bit(x, 4)));
    assert(v5 == shift_in_u8(v4, test_bit(x, 3)));
    assert(v6 == shift_in_u8(v5, test_bit(x, 2)));
    assert(v7 == shift_in_u8(v6, test_bit(x, 1)));
    assert(v8 == shift_in_u8(v7, test_bit(x, 0)));
    lemma_shift_in_all(x);
}

/// Bytes that are read from the slots into which they were just written are the bytes that
/// were written, where the colour channels are separate: byte `i` of `payload`, written from
/// slot `start` on, is read back from the eight slots that it went into.
pub proof fn lemma_read_slots_after_write(
    d: ImageDescriptor,
    bytes: Seq<u8>,
    start: nat,
    payload: Seq<u8>,
    i: int,
)
    requires
        d.fits(bytes.len()),
        channels_separate(d.pixel_format),
        start + 8 * payload.len() <= slot_count(d),
        0 <= i < payload.len(),
    ensures
        slots_value(
            d,
            with_slots(d, bytes, start, payload_bits(payload)),
            (start + 8 * i) as nat,
            8,
        ) == payload[i],
        with_slots(d, bytes, start, payload_bits(payload)).len() == bytes.len(),
{
    let bits = payload_bits(payload);
    let done = with_slots(d, bytes, start, bits);
    assert forall|j: int| 0 <= j < 8 implies slot_bit(d, done, (start + 8 * i + j) as nat)
        == byte_bit(payload[i], j) by {
        lemma_with_slots(d, bytes, start, bits, (start + 8 * i + j) as nat);
        assert(bits[8 * i + j] == byte_bit(payload[(8 * i + j) / 8], (8 * i + j) % 8));
    }
    lemma_slots_value_of_byte(d, done, (start + 8 * i) as nat, payload[i]);
    lemma_with_slots(d, bytes, start, bits, (start + 8 * i) as nat);
}

/// Putting a bit into a slot keeps the length of the bytes and every byte that lies before
/// the pixel data.
pub proof fn lemma_with_slot_keeps_before(
    d: ImageDescriptor,
    bytes: Seq<u8>,
    slot: nat,
    bit: bool,
    k: int,
)
    requires
        d.fits(bytes.len()),
        slot < slot_count(d),
        0 <= k < d.offset,
    ensures
        with_slot(d, bytes, slot, bit).len() == bytes.len(),
        with_slot(d, bytes, slot, bit)[k] == bytes[k],
{
    let per = slots_per_pixel(d.pixel_format);
    let depth = d.pixel_format.depth as nat;
    let width = d.width as nat;
    let index = slot / per;
    let row = index / width;
    let column = index % width;
    let offset = slot_offset(d, slot) as int;
    let changed = with_mask(read_bits(bytes, offset, depth), slot_mask(d, slot), bit);
    lemma_slot_parts(d, slot);
    d.lemma_pixel_inside(bytes.len(), row, column);
    assert(0 <= row * d.row_length && 0 <= column * d.pixel_format.depth) by (nonlinear_arith)
        requires
            0 <= d.row_length,
            0 <= d.pixel_format.depth,
    ;
    lemma_write_bits_len(bytes, offset, depth, changed);
    lemma_write_bits_keeps_before(bytes, offset, depth, changed, k);
}

/// Putting bits into a run of slots keeps the length of the bytes and every byte that lies
/// before the pixel data.
pub proof fn lemma_with_slots_keeps_before(
    d: ImageDescriptor,
    bytes: Seq<u8>,
    start: nat,
    bits: Seq<bool>,
    k: int,
)
    requires
        d.fits(bytes.len()),
        start + bits.len() <= slot_count(d),
        0 <= k < d.offset,
    ensures
        with_slots(d, bytes, start, bits).len() == bytes.len(),
        with_slots(d, bytes, start, bits)[k] == bytes[k],
    decreases bits.len(),
{
    if bits.len() > 0 {
        let rest = with_slots(d, bytes, start, bits.drop_last());
        lemma_with_slots_keeps_before(d, bytes, start, bits.drop_last(), k);
        lemma_with_slot_keeps_before(d, rest, (start + bits.len() - 1) as nat, bits.last(), k);
    }
}

} // verus!
