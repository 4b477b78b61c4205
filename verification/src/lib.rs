//! Bit-level writing and reading over byte streams.
//!
//! [`BitWriter`] packs values of up to fifteen bits into a byte sink, and
//! [`BitReader`] unpacks values of up to sixteen bits from a byte source.
//! Both treat the byte stream as one contiguous little-endian bit sequence:
//! the first bit written is the least significant bit of the first byte.
//!
//! The streams themselves are any `std::io::Write` and `std::io::Read`, and
//! opaque to the verifier. Each wrapper therefore keeps a record of the
//! bytes that went through it, and the contracts speak of that record and
//! of the bits that are buffered: see [`writer::WriterView`] and
//! [`reader::ReaderView`]. The module [`bits`] holds the model of bits and
//! bytes, [`laws`] what holds of writing and reading together, and
//! [`stream`] the calls into the streams, which are trusted.

pub mod bits;
pub mod laws;
pub mod reader;
pub mod stream;
pub mod writer;

pub use reader::BitReader;
pub use writer::BitWriter;
