//! One pixel of an image: where it lies in the image's bytes, and its value.

use crate::bits::{lemma_write_bits_masked, low_mask, read_bits, write_bits};
use crate::error::{Error, ErrorKind};
use crate::io::bitbuf::{BitBuf, BitSeekFrom};
use vstd::prelude::*;

verus! {

/// How a pixel's bits are laid out: how many there are, and which of them belong to each
/// colour channel. A mask of zero stands for a channel that the image does not have.
#[derive(Clone, Copy, Debug)]
pub struct PixelFormat {
    /// Bits in a pixel.
    pub depth: u8,
    /// The bits of the red channel.
    pub red_mask: u32,
    /// The bits of the green channel.
    pub green_mask: u32,
    /// The bits of the blue channel.
    pub blue_mask: u32,
    /// The bits of the alpha channel.
    pub alpha_mask: u32,
}

impl PixelFormat {
    /// A pixel has between 1 and 32 bits.
    pub open spec fn wf(&self) -> bool {
        1 <= self.depth <= 32
    }
}

/// Whether a pixel of `depth` bits at bit `offset` lies inside a store of `len` bytes.
pub open spec fn pixel_inside(len: nat, offset: nat, depth: nat) -> bool {
    offset < 8 * len && offset + depth <= 8 * len
}

/// A handle on one cell of an image. It knows where the cell's bits lie and remembers the
/// value once it has read or set it; the bits themselves stay in the image's buffer, which
/// every access names.
#[derive(Clone, Copy, Debug)]
pub struct Pixel {
    offset: u32,
    column: u32,
    row: u32,
    pixel_format: PixelFormat,
    cache: Option<u32>,
}

impl Pixel {
    /// The number of the pixel's first bit in the image's bytes.
    pub closed spec fn offset(&self) -> u32 {
        self.offset
    }

    /// The pixel's column.
    pub closed spec fn spec_column(&self) -> u32 {
        self.column
    }

    /// The pixel's row.
    pub closed spec fn spec_row(&self) -> u32 {
        self.row
    }

    /// The layout of the pixel's bits.
    pub closed spec fn format(&self) -> PixelFormat {
        self.pixel_format
    }

    /// The value that the handle remembers, if it has read or set one.
    pub closed spec fn cached(&self) -> Option<u32> {
        self.cache
    }

    /// A handle on the pixel at `column` and `row` whose bits start at bit `offset`. It has
    /// no value yet.
    pub fn new(offset: u32, column: u32, row: u32, pixel_format: PixelFormat) -> (pixel: Pixel)
        ensures
            pixel.offset() == offset,
            pixel.column() == column,
            pixel.row() == row,
            pixel.format() == pixel_format,
            pixel.cached().is_none(),
    {
        Pixel { offset, column, row, pixel_format, cache: None }
    }

    /// What [`Pixel::value`] returns, and what the handle then is, for a handle `before` and a
    /// store that holds `bytes`.
    pub open spec fn value_outcome(
        before: Pixel,
        after: Pixel,
        bytes: Seq<u8>,
        r: Result<u32, Error>,
    ) -> bool {
        &&& after.offset() == before.offset()
        &&& after.column() == before.column()
        &&& after.row() == before.row()
        &&& after.format() == before.format()
        &&& match before.cached() {
            Some(v) => (r matches Ok(x) && x == v) && after == before,
            None => if before.format().depth <= 32 && pixel_inside(
                bytes.len(),
                before.offset() as nat,
                before.format().depth as nat,
            ) {
                r matches Ok(x) && x == read_bits(
                    bytes,
                    before.offset() as int,
                    before.format().depth as nat,
                ) && after.cached() == Some(x)
            } else {
                (r matches Err(e) && e.kind() == (if before.offset() < 8 * bytes.len()
                    && before.format().depth > 32 {
                    ErrorKind::BitWidth
                } else {
                    ErrorKind::IoExhausted
                })) && after.cached().is_none()
            },
        }
    }

    /// The pixel's value. The first call reads it from `data` and remembers it; later calls
    /// return what is remembered and leave `data` alone.
    ///
    /// The read fails, and nothing is remembered, where the pixel does not start inside the
    /// store, runs over its end or has more than 32 bits.
    pub fn value(&mut self, data: &mut BitBuf) -> (r: Result<u32, Error>)
        requires
            old(data).inv(),
        ensures
            final(data).inv(),
            final(data).contents() == old(data).contents(),
            Self::value_outcome(*old(self), *final(self), old(data).contents(), r),
            old(self).cached().is_some() ==> *final(data) == *old(data),
            old(self).cached().is_none() && r is Ok ==> final(data).bit_position() == old(
                self
            ).offset() + old(self).format().depth,
    {
        match self.cache {
            Some(value) => Ok(value),
            None => {
                match data.seek(BitSeekFrom::Start(self.offset as u64)) {
                    Ok(_) => {},
                    Err(e) => {
                        return Err(e);
                    },
                }
                match data.read(self.pixel_format.depth) {
                    Ok(value) => {
                        self.cache = Some(value);
                        Ok(value)
                    },
                    Err(e) => Err(e),
                }
            },
        }
    }

    /// What [`Pixel::set_value`] with `value` returns, what the handle then is and what the
    /// store then holds, for a handle `before` and a store that held `bytes`.
    pub open spec fn set_value_outcome(
        before: Pixel,
        after: Pixel,
        bytes: Seq<u8>,
        bytes_after: Seq<u8>,
        value: u32,
        r: Result<(), Error>,
    ) -> bool {
        let depth = before.format().depth;
        let kept = value & low_mask(depth as nat);
        &&& after.offset() == before.offset()
        &&& after.column() == before.column()
        &&& after.row() == before.row()
        &&& after.format() == before.format()
        &&& after.cached() == Some(kept)
        &&& if depth <= 32 && pixel_inside(bytes.len(), before.offset() as nat, depth as nat) {
            r is Ok && bytes_after == write_bits(bytes, before.offset() as int, depth as nat, value)
        } else if before.offset() >= 8 * bytes.len() {
            (r matches Err(e) && e.kind() == ErrorKind::IoExhausted) && bytes_after == bytes
        } else if depth > 32 {
            (r matches Err(e) && e.kind() == ErrorKind::BitWidth) && bytes_after == bytes
        } else {
            (r matches Err(e) && e.kind() == ErrorKind::IoExhausted) && bytes_after == write_bits(
                bytes,
                before.offset() as int,
                (8 * bytes.len() - before.offset()) as nat,
                kept >> ((before.offset() + depth - 8 * bytes.len()) as u32),
            )
        }
    }

    /// Sets the pixel's value to the low bits of `value`, as many as the pixel has, remembers
    /// that and writes it to `data`.
    ///
    /// The write fails where the pixel does not start inside the store, runs over its end or
    /// has more than 32 bits; one that runs over the end is written as far as the store goes.
    pub fn set_value(&mut self, data: &mut BitBuf, value: u32) -> (r: Result<(), Error>)
        requires
            old(data).inv(),
        ensures
            final(data).inv(),
            final(data).contents().len() == old(data).contents().len(),
            Self::set_value_outcome(
                *old(self),
                *final(self),
                old(data).contents(),
                final(data).contents(),
                value,
                r,
            ),
            r is Ok ==> final(data).bit_position() == old(self).offset() + old(self).format().depth,
    {
        let depth = self.pixel_format.depth;
        let mask: u32 = if depth >= 32 {
            0xffff_ffffu32
        } else {
            !(0xffff_ffffu32 << depth)
        };
        let truncated = value & mask;
        self.cache = Some(truncated);
        match data.seek(BitSeekFrom::Start(self.offset as u64)) {
            Ok(_) => {},
            Err(e) => {
                return Err(e);
            },
        }
        proof {
            if depth <= 32 {
                lemma_write_bits_masked(
                    old(data).contents(),
                    self.offset as int,
                    depth as nat,
                    value,
                );
            }
        }
        match data.write(truncated, depth) {
            Ok(_) => Ok(()),
            Err(e) => Err(e),
        }
    }

    /// The pixel's column.
    #[verifier::when_used_as_spec(spec_column)]
    pub fn column(&self) -> (column: u32)
        ensures
            column == self.column(),
    {
        self.column
    }

    /// The pixel's row.
    #[verifier::when_used_as_spec(spec_row)]
    pub fn row(&self) -> (row: u32)
        ensures
            row == self.row(),
    {
        self.row
    }
}

} // verus!
