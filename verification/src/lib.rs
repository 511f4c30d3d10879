//! A codec for a plain-text, literal-style notation of structured values.
//!
//! Values are written by an [`Encoder`] through a pluggable [`encode::Formatter`]
//! and read back by a [`Decoder`] that reports the exact position of the first
//! offending byte.

pub mod number;
pub mod text;
pub mod value;
pub mod error;
pub mod encode;
pub mod shape;
pub mod lexer;
pub mod grammar;
pub mod decode;
pub mod progress;
pub mod reading;
pub mod layout;
pub mod roundtrip;

pub use self::error::{Error, ErrorCode};
pub use self::decode::{Decoder, from_slice, from_str};
pub use self::encode::{
    Encoder,
    to_string,
    to_string_pretty,
    to_vec,
    to_vec_pretty,
    to_writer,
    to_writer_pretty,
};
pub use self::shape::{EntryShape, FieldShape, PayloadShape, Shape, VariantShape};
pub use self::value::{FloatKind, IntKind, Payload, Value};
