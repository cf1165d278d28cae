//! An order-preserving binary encoding for keys.
//!
//! Values are encoded into byte strings whose unsigned lexicographic byte
//! order equals the natural order of the original values, so that composite
//! keys built by concatenating fields can be compared with a plain byte-wise
//! comparison.
//!
//! [`Encoder`] writes the images. Each emitter's contract pins the appended
//! bytes to a function of the emitted value alone, which makes encodings
//! deterministic across calls and sinks. The byte images themselves are
//! specified in [`fixed`], [`varint`] and [`text`], together with the proofs
//! that each image compares exactly like the value it encodes; [`lex`]
//! defines the byte order, and [`composite`] proves that concatenated field
//! images sort like tuples.

pub mod bytes;
pub mod composite;
pub mod encoder;
pub mod fixed;
pub mod lex;
pub mod text;
pub mod varint;

pub use encoder::EncodeError;
pub use encoder::Encoder;
