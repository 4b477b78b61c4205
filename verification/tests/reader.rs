use bitio::BitReader;
use std::io;

/// A source that never delivers.
struct Locked;

impl io::Read for Locked {
    fn read(&mut self, _buf: &mut [u8]) -> io::Result<usize> {
        Err(io::Error::new(io::ErrorKind::PermissionDenied, "locked"))
    }
}

#[test]
fn reads_sixteen_bits_at_once() {
    let mut reader = BitReader::new(io::Cursor::new(vec![0xcd, 0xab]));
    assert_eq!(reader.read_bits(16).unwrap(), 0xabcd);
}

#[test]
fn peeks_sixteen_bits_across_three_bytes() {
    let mut reader = BitReader::new(io::Cursor::new(vec![0xf1, 0x5a, 0x0c]));
    assert_eq!(reader.read_bits(4).unwrap(), 0x1);
    assert_eq!(reader.peek_bits(16).unwrap(), 0xc5af);
    assert_eq!(reader.read_bits(16).unwrap(), 0xc5af);
    assert_eq!(reader.read_bits(4).unwrap(), 0x0);
}

#[test]
fn bits_come_least_significant_first() {
    let mut reader = BitReader::new(io::Cursor::new(vec![0b0000_0110]));
    assert_eq!(reader.read_bit().unwrap(), false);
    assert_eq!(reader.read_bit().unwrap(), true);
    assert_eq!(reader.read_bits(2).unwrap(), 0b01);
    assert_eq!(reader.read_bits(4).unwrap(), 0);
}

#[test]
fn zero_width_read_takes_nothing() {
    let mut reader = BitReader::new(io::Cursor::new(Vec::<u8>::new()));
    assert_eq!(reader.read_bits(0).unwrap(), 0);
    assert_eq!(reader.peek_bits(0).unwrap(), 0);
    assert_eq!(reader.as_inner_ref().position(), 0);
}

#[test]
fn bytes_are_taken_only_when_needed() {
    let mut reader = BitReader::new(io::Cursor::new(vec![0xff, 0xff, 0xff]));
    assert_eq!(reader.as_inner_ref().position(), 0);
    assert_eq!(reader.read_bits(3).unwrap(), 0b111);
    assert_eq!(reader.as_inner_ref().position(), 1);
    assert_eq!(reader.read_bits(5).unwrap(), 0b11111);
    assert_eq!(reader.as_inner_ref().position(), 1);
    assert_eq!(reader.read_bits(9).unwrap(), 0x1ff);
    assert_eq!(reader.as_inner_ref().position(), 3);
}

#[test]
fn peek_is_repeatable() {
    let mut reader = BitReader::new(io::Cursor::new(vec![0x3c, 0x5a]));
    let first = reader.peek_bits(11).unwrap();
    let second = reader.peek_bits(11).unwrap();
    assert_eq!(first, 0x23c);
    assert_eq!(second, first);
    assert_eq!(reader.read_bits(11).unwrap(), first);
}

#[test]
fn skip_consumes_without_reading() {
    let mut reader = BitReader::new(io::Cursor::new(vec![0b1011_0100]));
    assert_eq!(reader.peek_bits(8).unwrap(), 0b1011_0100);
    reader.skip_bits(2);
    reader.skip_bits(0);
    assert_eq!(reader.read_bits(3).unwrap(), 0b101);
    reader.skip_bits(3);
    assert!(reader.read_bit().is_err());
}

#[test]
fn reset_drops_pending_bits_and_keeps_the_position() {
    let mut reader = BitReader::new(io::Cursor::new(vec![0xff, 0x01, 0x02]));
    assert_eq!(reader.read_bits(4).unwrap(), 0xf);
    reader.reset();
    assert_eq!(reader.as_inner_ref().position(), 1);
    assert_eq!(reader.read_bits(8).unwrap(), 0x01);
    assert_eq!(reader.read_bits(8).unwrap(), 0x02);
}

#[test]
fn reset_of_a_fresh_reader_changes_nothing() {
    let mut reader = BitReader::new(io::Cursor::new(vec![0x81]));
    reader.reset();
    assert_eq!(reader.read_bits(8).unwrap(), 0x81);
}

#[test]
fn empty_source_is_end_of_stream() {
    let mut reader = BitReader::new(io::Cursor::new(Vec::<u8>::new()));
    assert_eq!(
        reader.read_bit().map_err(|e| e.kind()),
        Err(io::ErrorKind::UnexpectedEof)
    );
    assert_eq!(
        reader.peek_bits(1).map_err(|e| e.kind()),
        Err(io::ErrorKind::UnexpectedEof)
    );
}

#[test]
fn failed_read_consumes_nothing() {
    let mut reader = BitReader::new(io::Cursor::new(vec![0xa5]));
    assert_eq!(reader.read_bits(4).unwrap(), 0x5);
    assert_eq!(
        reader.read_bits(8).map_err(|e| e.kind()),
        Err(io::ErrorKind::UnexpectedEof)
    );
    assert_eq!(reader.read_bits(4).unwrap(), 0xa);
}

#[test]
fn read_goes_on_once_the_source_has_more() {
    let mut reader = BitReader::new(io::Cursor::new(vec![0xa5]));
    assert_eq!(reader.read_bits(4).unwrap(), 0x5);
    assert!(reader.read_bits(8).is_err());
    reader.as_inner_mut().get_mut().push(0x3c);
    assert_eq!(reader.read_bits(8).unwrap(), 0xca);
    assert_eq!(reader.read_bits(4).unwrap(), 0x3);
}

#[test]
fn source_error_is_handed_on() {
    let mut reader = BitReader::new(Locked);
    assert_eq!(
        reader.read_bits(5).map_err(|e| e.kind()),
        Err(io::ErrorKind::PermissionDenied)
    );
    assert_eq!(
        reader.read_bit().map_err(|e| e.kind()),
        Err(io::ErrorKind::PermissionDenied)
    );
}

#[test]
fn accessors_reach_the_source() {
    let mut reader = BitReader::new(io::Cursor::new(vec![0x11, 0x22, 0x33]));
    assert_eq!(reader.read_bits(8).unwrap(), 0x11);
    reader.as_inner_mut().set_position(2);
    assert_eq!(reader.read_bits(8).unwrap(), 0x33);
    let source = reader.into_inner();
    assert_eq!(source.position(), 3);
    assert_eq!(source.into_inner(), [0x11, 0x22, 0x33]);
}
