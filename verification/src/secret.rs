//! A byte stream over the slots of an image, eight slots to a byte, highest bit first.

use crate::bitmap::pixel::{pixel_inside, Pixel};
use crate::bitmap::{Bitmap, ImageDescriptor};
use crate::bits::{byte_bit, lemma_read_after_write, read_bits};
use crate::error::Error;
use crate::slots::{
    cell_index, channel_masks, larger_first, lemma_cell, lemma_slot, lowest_bit_of, payload_bits,
    slot_bit, slot_count, slot_mask, slot_offset, slots_per_pixel, slots_value, with_slot,
    with_slots,
};
use vstd::prelude::*;
use vstd::std_specs::bits::axiom_u32_trailing_zeros;

verus! {

/// The lowest set bit of `mask`, or zero where `mask` is zero.
pub fn lowest_set_bit(mask: u32) -> (bit: u32)
    ensures
        bit == lowest_bit_of(mask),
{
    proof {
        axiom_u32_trailing_zeros(mask);
    }
    let zeros = mask.trailing_zeros();
    if zeros >= 32 {
        0
    } else {
        1u32 << zeros
    }
}

/// A stream of bytes over the slots of an image.
#[derive(Debug)]
pub struct BitmapStream {
    /// The masks of the slots of a pixel, in descending order.
    masks: [u32; 4],
    /// The number of slots in a pixel.
    bits_per_pixel: u8,
    /// The image.
    bitmap: Bitmap,
    /// The pixel that holds the slot at which the stream stands; none before the first use.
    cur_pixel: Option<Pixel>,
    /// The number of slots of the current pixel that are used up.
    bit_pos: u8,
}

impl BitmapStream {
    /// The image is in order, the masks are those of its pixel layout, and the current pixel
    /// is one of the image's and remembers no value but the one that the image holds.
    pub closed spec fn inv(&self) -> bool {
        &&& self.bitmap.inv()
        &&& self.masks@ == channel_masks(self.bitmap.descriptor().pixel_format)
        &&& self.bits_per_pixel == slots_per_pixel(self.bitmap.descriptor().pixel_format)
        &&& self.bit_pos <= self.bits_per_pixel
        &&& match self.cur_pixel {
            None => self.bit_pos == 0,
            Some(pixel) => self.bitmap.owns(pixel) && (pixel.cached() matches Some(v) ==> v
                == read_bits(
                self.bitmap.contents(),
                pixel.offset() as int,
                pixel.format().depth as nat,
            )),
        }
    }

    /// The image under the stream.
    pub closed spec fn bitmap(&self) -> Bitmap {
        self.bitmap
    }

    /// The masks of the slots of a pixel, the first slot's first.
    pub closed spec fn masks(&self) -> Seq<u32> {
        self.masks@
    }

    /// The number of slots in a pixel.
    pub closed spec fn bits_per_pixel(&self) -> nat {
        self.bits_per_pixel as nat
    }

    /// Where the pixels of the image lie.
    pub open spec fn descriptor(&self) -> ImageDescriptor {
        self.bitmap().descriptor()
    }

    /// The bytes of the image.
    pub open spec fn contents(&self) -> Seq<u8> {
        self.bitmap().contents()
    }

    /// The number of the slot at which the stream stands: the number of slots that are used
    /// up.
    pub closed spec fn position(&self) -> nat {
        match self.cur_pixel {
            None => 0,
            Some(pixel) => cell_index(
                self.bitmap.descriptor(),
                pixel.row() as nat,
                pixel.column() as nat,
            ) * (self.bits_per_pixel as nat) + (self.bit_pos as nat),
        }
    }

    /// A stream over the slots of `bitmap`, at the first slot.
    pub fn from_bitmap(bitmap: Bitmap) -> (stream: BitmapStream)
        requires
            bitmap.inv(),
        ensures
            stream.inv(),
            stream.bitmap() == bitmap,
            stream.masks() == channel_masks(bitmap.descriptor().pixel_format),
            stream.bits_per_pixel() == slots_per_pixel(bitmap.descriptor().pixel_format),
            stream.position() == 0,
    {
        let pixel_format = bitmap.pixel_format();
        let mut masks: [u32; 4] = [
            lowest_set_bit(pixel_format.red_mask),
            lowest_set_bit(pixel_format.green_mask),
            lowest_set_bit(pixel_format.blue_mask),
            lowest_set_bit(pixel_format.alpha_mask),
        ];
        sort_pair(&mut masks, 0, 1);
        sort_pair(&mut masks, 2, 3);
        sort_pair(&mut masks, 0, 2);
        sort_pair(&mut masks, 1, 3);
        sort_pair(&mut masks, 1, 2);
        let mut bits_per_pixel: u8 = 0;
        let mut i: usize = 0;
        while i < 4
            invariant
                i <= 4,
                bits_per_pixel <= i,
                bits_per_pixel == (if i > 0 && masks@[0] != 0 { 1nat } else { 0nat }) + (if i > 1
                    && masks@[1] != 0 { 1nat } else { 0nat }) + (if i > 2 && masks@[2] != 0 {
                    1nat
                } else {
                    0nat
                }) + (if i > 3 && masks@[3] != 0 { 1nat } else { 0nat }),
            decreases 4 - i,
        {
            if masks[i] != 0 {
                bits_per_pixel += 1;
            }
            i += 1;
        }
        assert(masks@ =~= channel_masks(bitmap.descriptor().pixel_format));
        BitmapStream { bitmap, masks, bits_per_pixel, cur_pixel: None, bit_pos: 0 }
    }

    /// The number of cells of the image that come after the current pixel.
    pub closed spec fn cells_ahead(&self) -> nat {
        match self.cur_pixel {
            None => self.bitmap.descriptor().pixel_count(),
            Some(pixel) => (self.bitmap.descriptor().pixel_count() - cell_index(
                self.bitmap.descriptor(),
                pixel.row() as nat,
                pixel.column() as nat,
            ) - 1) as nat,
        }
    }

    /// The image under the stream is in order, the masks are those of its pixel layout, and
    /// the stream stands at one of the image's slots or after the last one.
    pub proof fn lemma_inv(&self)
        requires
            self.inv(),
        ensures
            self.bitmap().inv(),
            self.masks() == channel_masks(self.descriptor().pixel_format),
            self.bits_per_pixel() == slots_per_pixel(self.descriptor().pixel_format),
            self.position() <= slot_count(self.descriptor()),
    {
        let d = self.bitmap.descriptor();
        match self.cur_pixel {
            None => {},
            Some(pixel) => {
                lemma_cell(d, pixel.row(), pixel.column());
                let index = cell_index(d, pixel.row() as nat, pixel.column() as nat) as int;
                let count = d.pixel_count() as int;
                let per = self.bits_per_pixel as int;
                assert(index * per + per <= count * per) by (nonlinear_arith)
                    requires
                        index + 1 <= count,
                        0 <= per,
                ;
            },
        }
    }

    /// The number of bytes that the image can carry: an eighth of the number of its slots,
    /// rounded down.
    pub fn capacity(&self) -> (bytes: u64)
        requires
            self.inv(),
        ensures
            bytes == slot_count(self.descriptor()) / 8,
    {
        let d = self.bitmap.descriptor();
        proof {
            self.bitmap.lemma_inv();
            d.lemma_pixel_count(self.bitmap.contents().len());
            let count = d.pixel_count() as int;
            let per = self.bits_per_pixel as int;
            assert(0 <= count * per <= 0xffff_ffff * 4) by (nonlinear_arith)
                requires
                    0 <= count <= 0xffff_ffff,
                    0 <= per <= 4,
            ;
            assert(d.width * d.height >= 0) by (nonlinear_arith)
                requires
                    d.width >= 0,
                    d.height >= 0,
            ;
        }
        (d.width as u64) * (d.height as u64) * (self.bits_per_pixel as u64) / 8
    }

    /// The number of slots from the one at which the stream stands to the end.
    pub fn remaining(&self) -> (left: u64)
        requires
            self.inv(),
        ensures
            left == slot_count(self.descriptor()) - self.position(),
    {
        let d = self.bitmap.descriptor();
        proof {
            self.lemma_inv();
            self.bitmap.lemma_inv();
            d.lemma_pixel_count(self.bitmap.contents().len());
            let count = d.pixel_count() as int;
            let per = self.bits_per_pixel as int;
            assert(0 <= count * per <= 0xffff_ffff * 4) by (nonlinear_arith)
                requires
                    0 <= count <= 0xffff_ffff,
                    0 <= per <= 4,
            ;
            assert(d.width * d.height >= 0) by (nonlinear_arith)
                requires
                    d.width >= 0,
                    d.height >= 0,
            ;
        }
        let total: u64 = (d.width as u64) * (d.height as u64) * (self.bits_per_pixel as u64);
        let used: u64 = match self.cur_pixel {
            None => 0,
            Some(pixel) => {
                proof {
                    lemma_cell(d, pixel.row(), pixel.column());
                    let index = cell_index(d, pixel.row() as nat, pixel.column() as nat) as int;
                    let per = self.bits_per_pixel as int;
                    assert(0 <= pixel.row() * d.width) by (nonlinear_arith)
                        requires
                            0 <= pixel.row(),
                            0 <= d.width,
                    ;
                    assert(0 <= index * per <= 0xffff_ffff * 4) by (nonlinear_arith)
                        requires
                            0 <= index <= 0xffff_ffff,
                            0 <= per <= 4,
                    ;
                }
                ((pixel.row() as u64) * (d.width as u64) + (pixel.column() as u64)) * (
                self.bits_per_pixel as u64) + (self.bit_pos as u64)
            },
        };
        total - used
    }

    /// Reads up to `buf.len()` bytes from the slots at which the stream stands, eight slots
    /// to a byte, and returns how many it read: fewer than asked only where the slots run
    /// out, and then the stream is at the end.
    #[verifier::rlimit(50)]
    pub fn read(&mut self, buf: &mut [u8]) -> (r: Result<usize, Error>)
        requires
            old(self).inv(),
        ensures
            final(self).inv(),
            final(self).descriptor() == old(self).descriptor(),
            final(self).contents() == old(self).contents(),
            final(buf)@.len() == old(buf)@.len(),
            ({
                let d = old(self).descriptor();
                let start = old(self).position();
                let left = (slot_count(d) - start) as nat;
                let count = if old(buf)@.len() <= left / 8 {
                    old(buf)@.len()
                } else {
                    left / 8
                };
                &&& r matches Ok(n) && n == count
                &&& forall|i: int|
                    0 <= i < count ==> #[trigger] final(buf)@[i] == slots_value(
                        d,
                        old(self).contents(),
                        (start + 8 * i) as nat,
                        8,
                    )
                &&& forall|i: int|
                    count <= i < old(buf)@.len() ==> #[trigger] final(buf)@[i] == old(buf)@[i]
                &&& final(self).position() == (if count == old(buf)@.len() {
                    start + 8 * count
                } else {
                    slot_count(d)
                })
            }),
    {
        let ghost d = self.descriptor();
        let ghost bytes = self.contents();
        let ghost start = self.position();
        let len = buf.len();
        let mut byte: u8 = 0;
        let mut read_bytes: usize = 0;
        let mut read_bits: u8 = 0;
        proof {
            self.lemma_inv();
        }
        while read_bytes != len
            invariant
                self.inv(),
                self.descriptor() == d,
                self.contents() == bytes,
                d == old(self).descriptor(),
                bytes == old(self).contents(),
                start == old(self).position(),
                len == buf@.len(),
                len == old(buf)@.len(),
                read_bytes <= len,
                read_bits < 8,
                read_bytes == len ==> read_bits == 0,
                self.position() == start + 8 * read_bytes + read_bits,
                self.position() <= slot_count(d),
                byte == slots_value(d, bytes, (start + 8 * read_bytes) as nat, read_bits as nat),
                forall|i: int|
                    0 <= i < read_bytes ==> #[trigger] buf@[i] == slots_value(
                        d,
                        bytes,
                        (start + 8 * i) as nat,
                        8,
                    ),
                forall|i: int| read_bytes <= i < len ==> #[trigger] buf@[i] == old(buf)@[i],
            decreases self.cells_ahead(), self.bits_per_pixel - self.bit_pos,
        {
            let mut used = false;
            match self.cur_pixel {
                Some(current) => {
                    let mut pixel = current;
                    match self.read_bit(&mut pixel) {
                        Some(bit) => {
                            byte = byte << 1 | (if bit { 1u8 } else { 0u8 });
                            read_bits += 1;
                            if read_bits == 8 {
                                buf[read_bytes] = byte;
                                read_bytes += 1;
                                read_bits = 0;
                                byte = 0;
                            }
                            self.cur_pixel = Some(pixel);
                            used = true;
                        },
                        None => {},
                    }
                },
                None => {},
            }
            if !used {
                if !self.next_pixel() {
                    return Ok(read_bytes);
                }
            }
            proof {
                self.lemma_inv();
            }
        }
        Ok(read_bytes)
    }

    /// Writes the bytes of `buf` into the slots at which the stream stands, eight slots to a
    /// byte, and returns how many bytes it wrote whole: fewer than given only where the slots
    /// run out. The bits of a byte that fits only in part are written as far as the slots go.
    #[verifier::rlimit(50)]
    pub fn write(&mut self, buf: &[u8]) -> (r: Result<usize, Error>)
        requires
            old(self).inv(),
        ensures
            final(self).inv(),
            final(self).descriptor() == old(self).descriptor(),
            ({
                let d = old(self).descriptor();
                let start = old(self).position();
                let left = (slot_count(d) - start) as nat;
                let count = if buf@.len() <= left / 8 {
                    buf@.len()
                } else {
                    left / 8
                };
                let slots = if 8 * buf@.len() <= left {
                    8 * buf@.len()
                } else {
                    left
                };
                &&& r matches Ok(n) && n == count
                &&& final(self).contents() == with_slots(
                    d,
                    old(self).contents(),
                    start,
                    payload_bits(buf@).take(slots as int),
                )
                &&& final(self).position() == start + slots
            }),
    {
        let ghost d = self.descriptor();
        let ghost bytes = self.contents();
        let ghost start = self.position();
        let ghost bits = payload_bits(buf@);
        let len = buf.len();
        proof {
            self.lemma_inv();
            assert(bits.take(0) =~= Seq::<bool>::empty());
        }
        if len == 0 {
            return Ok(0);
        }
        let mut byte: u8 = buf[0];
        let mut write_bytes: usize = 0;
        let mut write_bits: u8 = 0;
        assert(byte == buf@[0] << 0u8) by {
            let b = buf@[0];
            assert(b == b << 0u8) by (bit_vector);
        }
        while write_bytes != len
            invariant
                self.inv(),
                self.descriptor() == d,
                d == old(self).descriptor(),
                bytes == old(self).contents(),
                start == old(self).position(),
                bits == payload_bits(buf@),
                len == buf@.len(),
                write_bytes <= len,
                write_bits < 8,
                write_bytes == len ==> write_bits == 0,
                self.position() == start + 8 * write_bytes + write_bits,
                self.position() <= slot_count(d),
                write_bytes < len ==> byte == buf@[write_bytes as int] << write_bits,
                self.contents() == with_slots(
                    d,
                    bytes,
                    start,
                    bits.take(8 * write_bytes + write_bits),
                ),
            decreases self.cells_ahead(), self.bits_per_pixel - self.bit_pos,
        {
            let mut used = false;
            match self.cur_pixel {
                Some(current) => {
                    let mut pixel = current;
                    let bit = byte & 0x80 == 0x80;
                    proof {
                        let b = buf@[write_bytes as int];
                        let k = write_bits;
                        assert(((b << k) & 0x80u8 == 0x80u8) == (b & (1u8 << ((7 - k) as u8)) != 0)
                            && (b << k) << 1u8 == b << ((k + 1) as u8)) by (bit_vector)
                            requires
                                k < 8,
                        ;
                        let m = 8 * write_bytes + write_bits;
                        assert(bits.take(m + 1).drop_last() =~= bits.take(m as int));
                        assert(bits.take(m + 1).last() == bits[m as int]);
                        assert(bits[m as int] == byte_bit(b, write_bits as int));
                    }
                    match self.write_bit(&mut pixel, bit) {
                        Ok(()) => {
                            byte = byte << 1;
                            write_bits += 1;
                            if write_bits == 8 {
                                write_bytes += 1;
                                write_bits = 0;
                                if write_bytes < len {
                                    byte = buf[write_bytes];
                                    proof {
                                        let b = buf@[write_bytes as int];
                                        assert(b == b << 0u8) by (bit_vector);
                                    }
                                }
                            }
                            self.cur_pixel = Some(pixel);
                            used = true;
                        },
                        Err(_) => {},
                    }
                },
                None => {},
            }
            if !used {
                if !self.next_pixel() {
                    return Ok(write_bytes);
                }
            }
            proof {
                self.lemma_inv();
            }
        }
        assert(bits.take(8 * len as int) =~= bits);
        Ok(write_bytes)
    }

    /// Brings the image's store up to date with what was written.
    pub fn flush(&mut self) -> (r: Result<(), Error>)
        requires
            old(self).inv(),
        ensures
            final(self).inv(),
            r is Ok,
            final(self).descriptor() == old(self).descriptor(),
            final(self).contents() == old(self).contents(),
            final(self).position() == old(self).position(),
            final(self).bitmap().stored() == old(self).contents(),
    {
        self.bitmap.flush()
    }

    /// Moves on to the pixel after the current one and says whether there is one; where
    /// there is none nothing changes.
    fn next_pixel(&mut self) -> (moved: bool)
        requires
            old(self).inv(),
            old(self).cur_pixel.is_some() ==> old(self).bit_pos == old(self).bits_per_pixel,
        ensures
            final(self).inv(),
            final(self).bitmap == old(self).bitmap,
            final(self).position() == old(self).position(),
            moved ==> final(self).cells_ahead() < old(self).cells_ahead(),
            !moved ==> *final(self) == *old(self),
            !moved ==> old(self).position() == slot_count(old(self).descriptor()),
    {
        let ghost d = self.bitmap.descriptor();
        proof {
            self.bitmap.lemma_inv();
            match self.cur_pixel {
                Some(pixel) => {
                    lemma_cell(d, pixel.row(), pixel.column());
                    let index = cell_index(d, pixel.row() as nat, pixel.column() as nat) as int;
                    let per = self.bits_per_pixel as int;
                    let count = d.pixel_count() as int;
                    assert((index + 1) * per == index * per + per) by (nonlinear_arith);
                    if index + 1 == count {
                        assert(count * per == index * per + per) by (nonlinear_arith)
                            requires
                                index + 1 == count,
                        ;
                    }
                },
                None => {
                    if d.has_cell(0, 0) {
                        lemma_cell(d, 0, 0);
                    } else {
                        assert(d.width * d.height == 0) by (nonlinear_arith)
                            requires
                                d.width == 0 || d.height == 0,
                        ;
                        assert(slot_count(d) == 0) by (nonlinear_arith)
                            requires
                                d.pixel_count() == 0,
                                slot_count(d) == d.pixel_count() * slots_per_pixel(d.pixel_format),
                        ;
                    }
                },
            }
        }
        let mut pixels = self.bitmap.pixels_from(&self.cur_pixel);
        match pixels.next() {
            Some(pixel) => {
                self.bit_pos = 0;
                self.cur_pixel = Some(pixel);
                true
            },
            None => false,
        }
    }

    /// Reads the next slot of `pixel`, the current pixel, if it has one left.
    fn read_bit(&mut self, pixel: &mut Pixel) -> (bit: Option<bool>)
        requires
            old(self).inv(),
            old(self).cur_pixel == Some(*old(pixel)),
        ensures
            final(self).bitmap.inv(),
            final(self).bitmap.descriptor() == old(self).bitmap.descriptor(),
            final(self).bitmap.contents() == old(self).bitmap.contents(),
            final(self).masks == old(self).masks,
            final(self).bits_per_pixel == old(self).bits_per_pixel,
            final(self).cur_pixel == old(self).cur_pixel,
            old(self).bit_pos >= old(self).bits_per_pixel ==> bit.is_none() && *final(self)
                == *old(self) && *final(pixel) == *old(pixel),
            old(self).bit_pos < old(self).bits_per_pixel ==> bit == Some(
                slot_bit(
                    old(self).bitmap.descriptor(),
                    old(self).bitmap.contents(),
                    old(self).position(),
                ),
            ) && final(self).bit_pos == old(self).bit_pos + 1 && final(pixel).row() == old(
                pixel
            ).row() && final(pixel).column() == old(pixel).column() && final(self).bitmap.owns(
                *final(pixel),
            ) && final(pixel).cached() == Some(
                read_bits(
                    old(self).bitmap.contents(),
                    old(pixel).offset() as int,
                    old(pixel).format().depth as nat,
                ),
            ),
    {
        if self.bit_pos >= self.bits_per_pixel {
            return None;
        }
        proof {
            self.lemma_current_slot();
        }
        let mask = self.masks[self.bit_pos as usize];
        self.bit_pos += 1;
        match self.bitmap.value_of(pixel) {
            Ok(value) => Some(value & mask != 0),
            Err(_) => None,
        }
    }

    /// Puts `bit` into the next slot of `pixel`, the current pixel, if it has one left.
    fn write_bit(&mut self, pixel: &mut Pixel, bit: bool) -> (r: Result<(), Error>)
        requires
            old(self).inv(),
            old(self).cur_pixel == Some(*old(pixel)),
        ensures
            final(self).bitmap.inv(),
            final(self).bitmap.descriptor() == old(self).bitmap.descriptor(),
            final(self).masks == old(self).masks,
            final(self).bits_per_pixel == old(self).bits_per_pixel,
            final(self).cur_pixel == old(self).cur_pixel,
            old(self).bit_pos >= old(self).bits_per_pixel ==> r is Err && *final(self) == *old(self)
                && *final(pixel) == *old(pixel),
            old(self).bit_pos < old(self).bits_per_pixel ==> r is Ok && final(
                self
            ).bitmap.contents() == with_slot(
                old(self).bitmap.descriptor(),
                old(self).bitmap.contents(),
                old(self).position(),
                bit,
            ) && final(self).bit_pos == old(self).bit_pos + 1 && final(pixel).row() == old(
                pixel
            ).row() && final(pixel).column() == old(pixel).column() && final(self).bitmap.owns(
                *final(pixel),
            ) && final(pixel).cached() == Some(
                read_bits(
                    final(self).bitmap.contents(),
                    old(pixel).offset() as int,
                    old(pixel).format().depth as nat,
                ),
            ),
    {
        if self.bit_pos >= self.bits_per_pixel {
            return Err(Error::new("End of pixel"));
        }
        proof {
            self.lemma_current_slot();
            self.bitmap.lemma_inv();
        }
        let mask = self.masks[self.bit_pos as usize];
        let value = match self.bitmap.value_of(pixel) {
            Ok(value) => value,
            Err(e) => {
                return Err(e);
            },
        };
        let data = if bit {
            value | mask
        } else {
            value & !mask
        };
        self.bit_pos += 1;
        proof {
            lemma_read_after_write(
                old(self).bitmap.contents(),
                old(pixel).offset() as int,
                old(pixel).format().depth as nat,
                data,
            );
        }
        match self.bitmap.set_value_of(pixel, data) {
            Ok(()) => Ok(()),
            Err(e) => Err(e),
        }
    }

    /// Where the current pixel has a slot left, the stream stands at that slot: the slot's
    /// pixel is the current one, which lies inside the image's bytes, and its mask is the
    /// next of the pixel's masks.
    proof fn lemma_current_slot(&self)
        requires
            self.inv(),
            self.cur_pixel.is_some(),
            self.bit_pos < self.bits_per_pixel,
        ensures
            self.bits_per_pixel <= 4,
            self.position() < slot_count(self.bitmap.descriptor()),
            slot_offset(self.bitmap.descriptor(), self.position())
                == self.cur_pixel.unwrap().offset(),
            slot_mask(self.bitmap.descriptor(), self.position())
                == self.masks@[self.bit_pos as int],
            self.cur_pixel.unwrap().format().depth <= 32,
            pixel_inside(
                self.bitmap.contents().len(),
                self.cur_pixel.unwrap().offset() as nat,
                self.cur_pixel.unwrap().format().depth as nat,
            ),
    {
        let d = self.bitmap.descriptor();
        let pixel = self.cur_pixel.unwrap();
        self.bitmap.lemma_inv();
        lemma_cell(d, pixel.row(), pixel.column());
        lemma_slot(
            d,
            cell_index(d, pixel.row() as nat, pixel.column() as nat),
            self.bit_pos as nat,
        );
        d.lemma_pixel_inside(
            self.bitmap.contents().len(),
            pixel.row() as nat,
            pixel.column() as nat,
        );
    }

    /// The image, as the stream leaves it.
    pub fn into_bitmap(self) -> (bitmap: Bitmap)
        ensures
            bitmap == self.bitmap(),
            self.inv() ==> bitmap.inv(),
    {
        self.bitmap
    }
}

/// Puts the larger of the two masks at `i` and `j` first.
fn sort_pair(masks: &mut [u32; 4], i: usize, j: usize)
    requires
        i < j < 4,
    ensures
        final(masks)@ == old(masks)@.update(
            i as int,
            larger_first(old(masks)@[i as int], old(masks)@[j as int]).0,
        ).update(j as int, larger_first(old(masks)@[i as int], old(masks)@[j as int]).1),
{
    if masks[i] < masks[j] {
        let smaller = masks[i];
        masks[i] = masks[j];
        masks[j] = smaller;
    }
    assert(masks@ =~= old(masks)@.update(
        i as int,
        larger_first(old(masks)@[i as int], old(masks)@[j as int]).0,
    ).update(j as int, larger_first(old(masks)@[i as int], old(masks)@[j as int]).1));
}

} // verus!
