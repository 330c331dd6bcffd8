//! A verified implementation of the classic uuencode/uudecode text encoding:
//! a reversible transform of arbitrary binary data into printable characters,
//! organized into length-prefixed lines, and its inverse.

mod ascii;
mod decode;
mod encode;
pub mod error;
pub mod laws;
pub mod model;

pub use decode::decode_char;
pub use decode::uudecode;
pub use encode::encode_char;
pub use encode::uuencode;
pub use error::UUEncodeError;
