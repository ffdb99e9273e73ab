//! Variable-length unsigned integers in the continuation-bit format: seven
//! payload bits per byte, least-significant group first, the high bit of a
//! byte set while more bytes follow.
//!
//! * [`wire`] defines the format as mathematics over `nat` and `Seq<u8>`.
//! * [`laws`] proves what holds of it: round trip, minimality, canonical form.
//! * [`uint`] holds the integer types that a varint can be read into.
//! * [`stream`] holds byte sources and sinks.
//! * [`codec`] holds the length calculator, the decoder and the encoder.

pub mod codec;
pub mod laws;
pub mod stream;
pub mod uint;
pub mod wire;

pub use codec::{
    read_le_varint, varint_length, write_le_varint, VarintError, VarintReader, VarintWriter,
};
pub use stream::{BoundedSink, ByteSink, ByteSource, IoError, IoErrorKind, SliceSource};
pub use uint::Varint;
