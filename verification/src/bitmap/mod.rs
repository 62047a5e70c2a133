//! An image: its bytes, and where its pixels lie in them.

pub mod consts;
pub mod pixel;

use crate::bitmap::consts::{
    ALPHA_MASK_POSITION, BI_BITFIELDS_COMPRESSION, BI_RGB_COMPRESSION, BLUE_MASK_POSITION,
    COMPRESSION_POSITION, GREEN_MASK_POSITION, HEADER_SIZE, HEIGHT_POSITION, MIN_FILE_SIZE,
    OFFSET_TO_PIXELS_POSITION, PIXEL_DEPTH_POSITION, RAW_BITMAP_DATA_SIZE_POSITION,
    RED_MASK_POSITION, SIGNATURE_FIRST, SIGNATURE_SECOND, WIDTH_POSITION,
};
use crate::bitmap::pixel::{Pixel, PixelFormat};
use crate::error::{Error, ErrorKind};
use crate::io::bitbuf::BitBuf;
use crate::io::cursor::{Cursor, MAX_STORE_LEN};
use crate::util::{be_u32_at, le_u16_at, le_u32_at, read_be_u32, read_le_u16, read_le_u32};
use vstd::prelude::*;

verus! {

/// Where the pixels of an image lie in its bytes.
#[derive(Clone, Copy, Debug)]
pub struct ImageDescriptor {
    /// The number of the byte at which the pixel data start.
    pub offset: u32,
    /// Pixels in a row.
    pub width: u32,
    /// Rows.
    pub height: u32,
    /// Bits from the start of one row to the start of the next, padding included.
    pub row_length: u32,
    /// The layout of a pixel.
    pub pixel_format: PixelFormat,
}

impl ImageDescriptor {
    /// The pixels of an image so described lie inside a store of `len` bytes, one after the
    /// other without overlap, and their bit numbers fit in 32 bits.
    pub open spec fn fits(&self, len: nat) -> bool {
        &&& self.pixel_format.wf()
        &&& self.width * self.pixel_format.depth <= self.row_length
        &&& 8 * self.offset + self.height * self.row_length <= 8 * len
        &&& 8 * self.offset + self.height * self.row_length <= u32::MAX
    }

    /// The number of pixels.
    pub open spec fn pixel_count(&self) -> nat {
        (self.width * self.height) as nat
    }

    /// The number of the first bit of the pixel at `row` and `column`.
    pub open spec fn pixel_offset(&self, row: nat, column: nat) -> nat {
        (8 * self.offset + row * self.row_length + column * self.pixel_format.depth) as nat
    }

    /// The cell after `(row, column)` in raster order: the next one in the row, or the first
    /// one of the next row.
    pub open spec fn next_cell(&self, row: u32, column: u32) -> (u32, u32) {
        if column + 1 < self.width {
            (row, (column + 1) as u32)
        } else if row < u32::MAX {
            ((row + 1) as u32, 0u32)
        } else {
            (row, 0u32)
        }
    }

    /// Whether `(row, column)` is a cell of the image.
    pub open spec fn has_cell(&self, row: u32, column: u32) -> bool {
        row < self.height && column < self.width
    }

    /// An image that fits has at most as many pixels as its bytes have bits.
    pub proof fn lemma_pixel_count(&self, len: nat)
        requires
            self.fits(len),
        ensures
            self.pixel_count() <= 8 * len,
            self.pixel_count() <= u32::MAX,
    {
        let w = self.width as int;
        let h = self.height as int;
        let d = self.pixel_format.depth as int;
        let s = self.row_length as int;
        assert(w * h <= h * s) by (nonlinear_arith)
            requires
                w * d <= s,
                1 <= d,
                0 <= w,
                0 <= h,
        ;
    }

    /// Every pixel of an image that fits lies inside the store, and before the pixel of any
    /// later cell.
    pub proof fn lemma_pixel_inside(&self, len: nat, row: nat, column: nat)
        requires
            self.fits(len),
            row < self.height,
            column < self.width,
        ensures
            self.pixel_offset(row, column) + self.pixel_format.depth <= 8 * self.offset + (row
                + 1) * self.row_length,
            8 * self.offset + (row + 1) * self.row_length <= 8 * len,
            8 * self.offset + (row + 1) * self.row_length <= u32::MAX,
            self.pixel_offset(row, column) + self.pixel_format.depth <= 8 * len,
            self.pixel_offset(row, column) + self.pixel_format.depth <= u32::MAX,
            self.pixel_offset(row, column) < 8 * len,
    {
        let w = self.width as int;
        let h = self.height as int;
        let d = self.pixel_format.depth as int;
        let s = self.row_length as int;
        let r = row as int;
        let c = column as int;
        assert((c + 1) * d <= w * d) by (nonlinear_arith)
            requires
                c + 1 <= w,
                0 <= d,
        ;
        assert((c + 1) * d == c * d + d) by (nonlinear_arith);
        assert((r + 1) * s <= h * s) by (nonlinear_arith)
            requires
                r + 1 <= h,
                0 <= s,
        ;
        assert((r + 1) * s == r * s + s) by (nonlinear_arith);
    }
}

/// Whether a file has at least [`MIN_FILE_SIZE`] bytes and starts with the signature.
pub open spec fn has_signature(file: Seq<u8>) -> bool {
    file.len() >= MIN_FILE_SIZE && file[0] == SIGNATURE_FIRST && file[1] == SIGNATURE_SECOND
}

/// The first [`HEADER_SIZE`] bytes of a file, filled up with zeros where the file is shorter.
pub open spec fn header_of(file: Seq<u8>) -> Seq<u8> {
    Seq::new(
        HEADER_SIZE as nat,
        |i: int|
            if i < file.len() {
                file[i]
            } else {
                0u8
            },
    )
}

/// The pixel layout that a header states, or `None` where the library does not read it: the
/// header must state plain colours of 24 bits, or bit fields with a depth from 1 to 32.
pub open spec fn pixel_format_of(header: Seq<u8>) -> Option<PixelFormat> {
    let depth = le_u16_at(header, PIXEL_DEPTH_POSITION as int);
    let compression = le_u32_at(header, COMPRESSION_POSITION as int);
    if compression == BI_RGB_COMPRESSION && depth == 24 {
        Some(
            PixelFormat {
                depth: 24,
                red_mask: 0xff0000,
                green_mask: 0xff00,
                blue_mask: 0xff,
                alpha_mask: 0,
            },
        )
    } else if compression == BI_BITFIELDS_COMPRESSION && 1 <= depth <= 32 {
        Some(
            PixelFormat {
                depth: depth as u8,
                red_mask: be_u32_at(header, RED_MASK_POSITION as int),
                green_mask: be_u32_at(header, GREEN_MASK_POSITION as int),
                blue_mask: be_u32_at(header, BLUE_MASK_POSITION as int),
                alpha_mask: be_u32_at(header, ALPHA_MASK_POSITION as int),
            },
        )
    } else {
        None
    }
}

/// The description that a file gives of its image, or `None` where the file is not an image
/// that the library reads: it must start with the signature and have at least
/// [`MIN_FILE_SIZE`] bytes, state a pixel layout that the library reads and a height other
/// than zero, and its pixels must lie inside it.
pub open spec fn descriptor_of(file: Seq<u8>) -> Option<ImageDescriptor> {
    let header = header_of(file);
    let height = le_u32_at(header, HEIGHT_POSITION as int);
    let data_size = le_u32_at(header, RAW_BITMAP_DATA_SIZE_POSITION as int);
    if !has_signature(file) || file.len() > MAX_STORE_LEN {
        None
    } else if height == 0 || (data_size / height) * 8 > u32::MAX {
        None
    } else {
        match pixel_format_of(header) {
            None => None,
            Some(pixel_format) => {
                let descriptor = ImageDescriptor {
                    offset: le_u32_at(header, OFFSET_TO_PIXELS_POSITION as int),
                    width: le_u32_at(header, WIDTH_POSITION as int),
                    height,
                    row_length: ((data_size / height) * 8) as u32,
                    pixel_format,
                };
                if descriptor.fits(file.len()) {
                    Some(descriptor)
                } else {
                    None
                }
            },
        }
    }
}

/// An image: a bit buffer over the bytes of its file, and the description of where its pixels
/// lie.
#[derive(Debug)]
pub struct Bitmap {
    data: BitBuf,
    descriptor: ImageDescriptor,
}

impl Bitmap {
    /// The buffer is in order and the pixels lie inside it.
    pub closed spec fn inv(&self) -> bool {
        &&& self.data.inv()
        &&& self.descriptor.fits(self.data.contents().len())
    }

    /// The bytes of the image as a reader of its buffer sees them.
    pub closed spec fn contents(&self) -> Seq<u8> {
        self.data.contents()
    }

    /// The bytes of the image's store, without what only the buffer's cache holds.
    pub closed spec fn stored(&self) -> Seq<u8> {
        self.data.stored()
    }

    /// The number of the bit at which the buffer stands.
    pub closed spec fn bit_position(&self) -> nat {
        self.data.bit_position()
    }

    /// Where the pixels lie.
    pub closed spec fn spec_descriptor(&self) -> ImageDescriptor {
        self.descriptor
    }

    /// Whether `pixel` is a handle on a cell of this image.
    pub open spec fn owns(&self, pixel: Pixel) -> bool {
        &&& self.descriptor().has_cell(pixel.row(), pixel.column())
        &&& pixel.offset() == self.descriptor().pixel_offset(
            pixel.row() as nat,
            pixel.column() as nat,
        )
        &&& pixel.format() == self.descriptor().pixel_format
    }

    /// What the invariant says of the public views.
    pub proof fn lemma_inv(&self)
        requires
            self.inv(),
        ensures
            self.descriptor().fits(self.contents().len()),
            self.contents().len() <= MAX_STORE_LEN,
            self.stored().len() == self.contents().len(),
            self.bit_position() % 8 == 0 ==> self.stored() == self.contents(),
    {
        self.data.lemma_inv();
    }

    /// An image over `data` whose pixels lie as `descriptor` says. It is refused unless they
    /// lie inside `data`.
    pub fn new(data: Vec<u8>, descriptor: ImageDescriptor) -> (r: Result<Bitmap, Error>)
        ensures
            data@.len() <= MAX_STORE_LEN && descriptor.fits(data@.len()) ==> (r matches Ok(bitmap)
                && bitmap.inv() && bitmap.contents() == data@ && bitmap.stored() == data@
                && bitmap.descriptor() == descriptor && bitmap.bit_position() == 0),
            !(data@.len() <= MAX_STORE_LEN && descriptor.fits(data@.len())) ==> (r matches Err(e)
                && e.kind() == ErrorKind::Format),
    {
        let len = data.len();
        let depth = descriptor.pixel_format.depth;
        if len as u64 > MAX_STORE_LEN || depth < 1 || depth > 32 {
            return Err(Error::with_kind(ErrorKind::Format, "Invalid File"));
        }
        assert(descriptor.width * depth <= 0xffff_ffff * 32) by (nonlinear_arith)
            requires
                descriptor.width <= 0xffff_ffff,
                depth <= 32,
        ;
        assert(descriptor.height * descriptor.row_length <= 0xffff_ffff * 0xffff_ffff)
            by (nonlinear_arith)
            requires
                descriptor.height <= 0xffff_ffff,
                descriptor.row_length <= 0xffff_ffff,
        ;
        let row_bits: u64 = (descriptor.width as u64) * (depth as u64);
        let end: u128 = 8 * (descriptor.offset as u128) + (descriptor.height as u128) * (
        descriptor.row_length as u128);
        if row_bits > descriptor.row_length as u64 || end > 8 * (len as u128) || end
            > 0xffff_ffffu128 {
            return Err(Error::with_kind(ErrorKind::Format, "Invalid File"));
        }
        Ok(Bitmap { data: BitBuf::from(Cursor::new(data)), descriptor })
    }

    /// Reads the header of an image file and wraps the file's bytes.
    ///
    /// The file is refused unless it describes an image that the library reads, as
    /// [`descriptor_of`] tells.
    pub fn try_from(data: Vec<u8>) -> (r: Result<Bitmap, Error>)
        ensures
            match descriptor_of(data@) {
                Some(descriptor) => r matches Ok(bitmap) && bitmap.inv() && bitmap.contents()
                    == data@ && bitmap.stored() == data@ && bitmap.descriptor() == descriptor
                    && bitmap.bit_position() == 0,
                None => r matches Err(e) && e.kind() == ErrorKind::Format,
            },
    {
        if data.len() < 2 || data[0] != SIGNATURE_FIRST || data[1] != SIGNATURE_SECOND {
            return Err(Error::with_kind(ErrorKind::Format, "Invalid file signature"));
        }
        if data.len() as u64 > MAX_STORE_LEN {
            return Err(Error::with_kind(ErrorKind::Format, "Invalid File"));
        }
        let header = match Self::read_header(&data) {
            Ok(header) => header,
            Err(e) => {
                return Err(e);
            },
        };
        let offset = read_le_u32(header.as_slice(), OFFSET_TO_PIXELS_POSITION);
        let width = read_le_u32(header.as_slice(), WIDTH_POSITION);
        let height = read_le_u32(header.as_slice(), HEIGHT_POSITION);
        let data_size = read_le_u32(header.as_slice(), RAW_BITMAP_DATA_SIZE_POSITION);
        let pixel_format = match Self::read_pixel_format(header.as_slice()) {
            Ok(pixel_format) => pixel_format,
            Err(e) => {
                return Err(e);
            },
        };
        if height == 0 {
            return Err(Error::with_kind(ErrorKind::Format, "Invalid File"));
        }
        let row_bytes = data_size / height;
        if row_bytes > 0x1fff_ffff {
            return Err(Error::with_kind(ErrorKind::Format, "Invalid File"));
        }
        Self::new(
            data,
            ImageDescriptor { offset, width, height, row_length: row_bytes * 8, pixel_format },
        )
    }

    /// Takes the image apart and gives back the bytes of its store. A byte that is only
    /// partly written and not flushed is not in them.
    pub fn try_unwrap_data(this: Bitmap) -> (r: Result<Vec<u8>, Bitmap>)
        requires
            this.inv(),
        ensures
            r matches Ok(data) && data@ == this.stored(),
    {
        Ok(this.data.into_inner().into_inner())
    }

    /// The pixels of the image in raster order, from the cell after `pos` on, or from the
    /// first cell where `pos` is `None`.
    pub fn pixels_from<'a>(&'a self, pos: &Option<Pixel>) -> (pixels: Pixels<'a>)
        ensures
            pixels.bitmap() == *self,
            (pixels.row(), pixels.column()) == (match *pos {
                Some(pixel) => self.descriptor().next_cell(pixel.row(), pixel.column()),
                None => (0u32, 0u32),
            }),
    {
        Pixels::new(self, pos)
    }

    /// Where the pixels lie.
    #[verifier::when_used_as_spec(spec_descriptor)]
    pub fn descriptor(&self) -> (descriptor: ImageDescriptor)
        ensures
            descriptor == self.descriptor(),
    {
        self.descriptor
    }

    /// The layout of the image's pixels.
    pub fn pixel_format(&self) -> (pixel_format: &PixelFormat)
        ensures
            *pixel_format == self.descriptor().pixel_format,
    {
        &self.descriptor.pixel_format
    }

    /// Brings the image's store up to date with its buffer.
    pub fn flush(&mut self) -> (r: Result<(), Error>)
        requires
            old(self).inv(),
        ensures
            final(self).inv(),
            r is Ok,
            final(self).contents() == old(self).contents(),
            final(self).stored() == old(self).contents(),
            final(self).descriptor() == old(self).descriptor(),
            final(self).bit_position() == old(self).bit_position(),
    {
        self.data.flush()
    }

    /// The value of `pixel`, read from this image's buffer: see [`Pixel::value`].
    pub fn value_of(&mut self, pixel: &mut Pixel) -> (r: Result<u32, Error>)
        requires
            old(self).inv(),
        ensures
            final(self).inv(),
            final(self).contents() == old(self).contents(),
            final(self).descriptor() == old(self).descriptor(),
            Pixel::value_outcome(*old(pixel), *final(pixel), old(self).contents(), r),
    {
        pixel.value(&mut self.data)
    }

    /// Sets the value of `pixel` in this image's buffer: see [`Pixel::set_value`].
    pub fn set_value_of(&mut self, pixel: &mut Pixel, value: u32) -> (r: Result<(), Error>)
        requires
            old(self).inv(),
        ensures
            final(self).inv(),
            final(self).descriptor() == old(self).descriptor(),
            final(self).contents().len() == old(self).contents().len(),
            Pixel::set_value_outcome(
                *old(pixel),
                *final(pixel),
                old(self).contents(),
                final(self).contents(),
                value,
                r,
            ),
    {
        pixel.set_value(&mut self.data, value)
    }

    /// The first [`HEADER_SIZE`] bytes of a file, filled up with zeros. A file of fewer than
    /// [`MIN_FILE_SIZE`] bytes, or one that does not start with the signature, is refused.
    pub fn read_header(data: &Vec<u8>) -> (r: Result<Vec<u8>, Error>)
        ensures
            has_signature(data@) ==> (r matches Ok(header) && header@ == header_of(data@)),
            !has_signature(data@) ==> (r matches Err(e) && e.kind() == ErrorKind::Format),
    {
        if data.len() < MIN_FILE_SIZE {
            return Err(Error::with_kind(ErrorKind::Format, "Invalid File"));
        }
        if data[0] != SIGNATURE_FIRST || data[1] != SIGNATURE_SECOND {
            return Err(Error::with_kind(ErrorKind::Format, "Invalid File"));
        }
        let mut header: Vec<u8> = Vec::new();
        let mut i: usize = 0;
        while i < HEADER_SIZE
            invariant
                i <= HEADER_SIZE,
                header@.len() == i,
                forall|k: int| 0 <= k < i ==> header@[k] == header_of(data@)[k],
            decreases HEADER_SIZE - i,
        {
            header.push(
                if i < data.len() {
                    data[i]
                } else {
                    0u8
                },
            );
            i += 1;
        }
        assert(header@ =~= header_of(data@));
        Ok(header)
    }

    /// The pixel layout that a header states. A header that states a compression or a depth
    /// that the library does not read is refused.
    pub fn read_pixel_format(buf: &[u8]) -> (r: Result<PixelFormat, Error>)
        requires
            buf@.len() >= ALPHA_MASK_POSITION + 4,
        ensures
            match pixel_format_of(buf@) {
                Some(pixel_format) => r matches Ok(f) && f == pixel_format,
                None => r matches Err(e) && e.kind() == ErrorKind::Format,
            },
    {
        let depth = read_le_u16(buf, PIXEL_DEPTH_POSITION);
        let compression = read_le_u32(buf, COMPRESSION_POSITION);
        if compression != BI_RGB_COMPRESSION && compression != BI_BITFIELDS_COMPRESSION {
            return Err(Error::with_kind(ErrorKind::Format, "Unsupported pixel compression type"));
        }
        if compression == BI_RGB_COMPRESSION && depth == 24 {
            Ok(
                PixelFormat {
                    depth: 24,
                    red_mask: 0xff0000,
                    green_mask: 0xff00,
                    blue_mask: 0xff,
                    alpha_mask: 0,
                },
            )
        } else if compression == BI_BITFIELDS_COMPRESSION && 1 <= depth && depth <= 32 {
            Ok(
                PixelFormat {
                    depth: depth as u8,
                    red_mask: read_be_u32(buf, RED_MASK_POSITION),
                    green_mask: read_be_u32(buf, GREEN_MASK_POSITION),
                    blue_mask: read_be_u32(buf, BLUE_MASK_POSITION),
                    alpha_mask: read_be_u32(buf, ALPHA_MASK_POSITION),
                },
            )
        } else {
            Err(Error::with_kind(ErrorKind::Format, "Unsupported pixel depth"))
        }
    }
}

/// The cells of an image in raster order: each row from left to right, the rows from the
/// top down. The sequence ends after the last cell of the last row.
pub struct Pixels<'a> {
    bitmap: &'a Bitmap,
    cur_row: u32,
    cur_column: u32,
}

impl<'a> Pixels<'a> {
    /// The image whose cells these are.
    pub closed spec fn bitmap(&self) -> Bitmap {
        *self.bitmap
    }

    /// The row of the cell that comes next.
    pub closed spec fn row(&self) -> u32 {
        self.cur_row
    }

    /// The column of the cell that comes next.
    pub closed spec fn column(&self) -> u32 {
        self.cur_column
    }

    /// The cells of `bitmap` from the one after `pos` on, or from the first one where `pos`
    /// is `None`.
    pub fn new(bitmap: &'a Bitmap, pos: &Option<Pixel>) -> (pixels: Pixels<'a>)
        ensures
            pixels.bitmap() == *bitmap,
            (pixels.row(), pixels.column()) == (match *pos {
                Some(pixel) => bitmap.descriptor().next_cell(pixel.row(), pixel.column()),
                None => (0u32, 0u32),
            }),
    {
        match pos {
            Some(pixel) => {
                let mut pixels = Pixels {
                    bitmap,
                    cur_row: pixel.row(),
                    cur_column: pixel.column(),
                };
                pixels.iterate();
                pixels
            },
            None => Pixels { bitmap, cur_row: 0, cur_column: 0 },
        }
    }

    /// Steps to the next cell: the next one in the row, or the first one of the next row.
    pub fn iterate(&mut self)
        ensures
            final(self).bitmap() == old(self).bitmap(),
            (final(self).row(), final(self).column()) == old(self).bitmap().descriptor().next_cell(
                old(self).row(),
                old(self).column(),
            ),
    {
        if self.cur_column < u32::MAX && self.cur_column + 1 < self.bitmap.descriptor.width {
            self.cur_column = self.cur_column + 1;
        } else {
            if self.cur_row < u32::MAX {
                self.cur_row = self.cur_row + 1;
            }
            self.cur_column = 0;
        }
    }

    /// A handle on the cell that comes next, which has no value yet, and a step to the cell
    /// after it; `None` once the cells are used up.
    pub fn next(&mut self) -> (next: Option<Pixel>)
        requires
            old(self).bitmap().inv(),
        ensures
            final(self).bitmap() == old(self).bitmap(),
            old(self).bitmap().descriptor().has_cell(old(self).row(), old(self).column()) ==> (next
                matches Some(pixel) && pixel.row() == old(self).row() && pixel.column() == old(
                self
            ).column() && pixel.cached().is_none() && old(self).bitmap().owns(pixel)) && (
            final(self).row(), final(self).column()) == old(self).bitmap().descriptor().next_cell(
                old(self).row(),
                old(self).column(),
            ),
            !old(self).bitmap().descriptor().has_cell(old(self).row(), old(self).column())
                ==> next.is_none() && final(self).row() == old(self).row() && final(self).column()
                == old(self).column(),
    {
        let descriptor = &self.bitmap.descriptor;
        if self.cur_row < descriptor.height && self.cur_column < descriptor.width {
            proof {
                descriptor.lemma_pixel_inside(
                    self.bitmap.data.contents().len(),
                    self.cur_row as nat,
                    self.cur_column as nat,
                );
                assert(self.cur_row * descriptor.row_length >= 0) by (nonlinear_arith)
                    requires
                        self.cur_row >= 0,
                        descriptor.row_length >= 0,
                ;
                assert(self.cur_column * descriptor.pixel_format.depth >= 0) by (nonlinear_arith)
                    requires
                        self.cur_column >= 0,
                        descriptor.pixel_format.depth >= 0,
                ;
            }
            let offset = descriptor.offset * 8 + self.cur_row * descriptor.row_length
                + self.cur_column * (descriptor.pixel_format.depth as u32);
            let pixel = Pixel::new(offset, self.cur_column, self.cur_row, descriptor.pixel_format);
            self.iterate();
            Some(pixel)
        } else {
            None
        }
    }
}

} // verus!
