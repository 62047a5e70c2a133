//! Where the fields of the image header lie, and the values that they take.

use vstd::prelude::*;

verus! {

/// The first byte of an image file: the letter `B`.
pub const SIGNATURE_FIRST: u8 = 0x42;

/// The second byte of an image file: the letter `M`.
pub const SIGNATURE_SECOND: u8 = 0x4d;

/// How many bytes of the file are read as its header; a shorter file is filled up with zeros.
pub const HEADER_SIZE: usize = 256;

/// How many bytes a file must have at least.
pub const MIN_FILE_SIZE: usize = 14;

/// Position of the offset of the pixel data, in bytes from the start of the file.
pub const OFFSET_TO_PIXELS_POSITION: usize = 0xA;

/// Position of the image width in pixels.
pub const WIDTH_POSITION: usize = 0x12;

/// Position of the image height in pixels.
pub const HEIGHT_POSITION: usize = 0x16;

/// Position of the pixel depth in bits.
pub const PIXEL_DEPTH_POSITION: usize = 0x1C;

/// Position of the compression type.
pub const COMPRESSION_POSITION: usize = 0x1E;

/// Position of the size of the pixel data in bytes, padding included.
pub const RAW_BITMAP_DATA_SIZE_POSITION: usize = 0x22;

/// Position of the red channel's mask, for bit field images.
pub const RED_MASK_POSITION: usize = 0x36;

/// Position of the green channel's mask, for bit field images.
pub const GREEN_MASK_POSITION: usize = 0x3A;

/// Position of the blue channel's mask, for bit field images.
pub const BLUE_MASK_POSITION: usize = 0x3E;

/// Position of the alpha channel's mask, for bit field images.
pub const ALPHA_MASK_POSITION: usize = 0x42;

/// Compression type of plain 24 bit images.
pub const BI_RGB_COMPRESSION: u32 = 0;

/// Compression type of images whose channels are given by bit masks.
pub const BI_BITFIELDS_COMPRESSION: u32 = 3;

} // verus!
