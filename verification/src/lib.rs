//! Hides a message in the lowest bits of the colour channels of a bitmap image, and shows
//! it again.
//!
//! - [`bits`]: a byte sequence seen as a sequence of bits, and what reading and writing a
//!   field of bits means.
//! - [`io`]: a byte store in memory and the bit buffer over it, with reads, writes and seeks
//!   in bits.
//! - [`bitmap`]: an image file, the layout of its pixels and the pixels themselves.
//! - [`slots`]: the bits of the pixels that carry a payload, and what a payload in them is.
//! - [`secret`]: the byte stream over those bits.
//! - [`message`]: a text with its length before it, hidden in an image and shown again.
//! - [`args`]: the words of the command line.
//! - [`util`], [`error`]: numbers in byte buffers, and the error type.

pub mod args;
pub mod bitmap;
pub mod bits;
pub mod error;
pub mod io;
pub mod message;
pub mod secret;
pub mod slots;
pub mod util;
