//! Encoding of byte buffers as strings over the 62 symbols `0-9A-Za-z`, and back.
//!
//! A buffer is prefixed with the byte `0x01` and read as a big-endian unsigned
//! integer; its base-62 digits, least significant first, are written as symbols.
//! Decoding runs the same steps backwards and drops the prefix byte.
pub mod magnitude;
pub mod base62;

pub use self::base62::{decode, encode, Error};
