//! The byte streams underneath: the calls that hand bytes to a sink and ask
//! a source for bytes.
//!
//! A stream is opaque to the verifier, and what it does with a call is its
//! own business: it may take the bytes, fail, or sit on a file that is full.
//! So none of these calls carries a promise. The writer and the reader keep
//! their own record of the calls that went through, and their contracts
//! speak of that record.

use vstd::prelude::*;
use byteorder::{LittleEndian, ReadBytesExt, WriteBytesExt};
use std::io::{Read, Write};

verus! {

/// `std::io::Error`. It is carried from the stream to the caller and never
/// looked into.
#[verifier::external_type_specification]
#[verifier::external_body]
pub struct ExIoError(std::io::Error);

/// Calls `byteorder::WriteBytesExt::write_u8`, which hands the one byte to
/// the sink's `write_all`.
///
/// Trusted: nothing is claimed of the outcome, nor of the sink after the
/// call.
#[verifier::external_body]
pub(crate) fn put_u8<W: Write>(sink: &mut W, byte: u8) -> (outcome: Result<(), std::io::Error>) {
    sink.write_u8(byte)
}

/// Calls `byteorder::WriteBytesExt::write_u16` with `LittleEndian`, which
/// hands the low byte of `pair` and then its high byte to the sink's
/// `write_all`, both in one go.
///
/// Trusted: nothing is claimed of the outcome, nor of the sink after the
/// call.
#[verifier::external_body]
pub(crate) fn put_u16_le<W: Write>(sink: &mut W, pair: u16) -> (outcome: Result<
    (),
    std::io::Error,
>) {
    sink.write_u16::<LittleEndian>(pair)
}

/// Calls `std::io::Write::flush` on the sink.
///
/// Trusted: nothing is claimed of the outcome, nor of the sink after the
/// call.
#[verifier::external_body]
pub(crate) fn flush_sink<W: Write>(sink: &mut W) -> (outcome: Result<(), std::io::Error>) {
    sink.flush()
}

/// Calls `byteorder::ReadBytesExt::read_u8`, which asks the source's
/// `read_exact` for one byte.
///
/// Trusted: nothing is claimed of the outcome, nor of the source after the
/// call.
#[verifier::external_body]
pub(crate) fn take_u8<R: Read>(source: &mut R) -> (outcome: Result<u8, std::io::Error>) {
    source.read_u8()
}

} // verus!
