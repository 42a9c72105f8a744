//! Conversion of UTF-8 encoded text into its UTF-16 code-unit form, written
//! into a bounded output buffer with an explicit logical length.
//!
//! The decoder walks a byte sequence one code point at a time; the encoder
//! consumes each code point and emits one code unit or a surrogate pair.

pub mod decoder;
pub mod encoder;
pub mod utf16;

pub use decoder::CodePointIterator;
pub use encoder::encode;
pub use encoder::encode_with_terminating_null;
pub use encoder::EncodeError;
pub use encoder::Utf16Buffer;
