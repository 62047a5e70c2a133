//! Byte and bit stores.

pub mod bitbuf;
pub mod cursor;
