use bitio::BitWriter;
use std::io;

/// A sink that takes `room` bytes in all and counts the flushes.
struct Bounded {
    taken: Vec<u8>,
    room: usize,
    flushes: usize,
}

impl Bounded {
    fn with_room(room: usize) -> Self {
        Bounded { taken: Vec::new(), room, flushes: 0 }
    }
}

impl io::Write for Bounded {
    fn write(&mut self, buf: &[u8]) -> io::Result<usize> {
        if self.taken.len() + buf.len() > self.room {
            return Err(io::Error::new(io::ErrorKind::Other, "no room"));
        }
        self.taken.extend_from_slice(buf);
        Ok(buf.len())
    }

    fn flush(&mut self) -> io::Result<()> {
        self.flushes += 1;
        Ok(())
    }
}

#[test]
fn nothing_leaves_before_sixteen_bits() {
    let mut writer = BitWriter::new(Vec::new());
    writer.write_bits(15, 0x7fff).unwrap();
    assert!(writer.as_inner_ref().is_empty());
    writer.write_bit(false).unwrap();
    assert_eq!(writer.as_inner_ref().len(), 2);
}

#[test]
fn pair_leaves_low_byte_first() {
    let mut writer = BitWriter::new(Vec::new());
    writer.write_bits(8, 0x34).unwrap();
    writer.write_bits(8, 0x12).unwrap();
    assert_eq!(writer.as_inner_ref(), &vec![0x34, 0x12]);
    writer.flush().unwrap();
    assert_eq!(writer.into_inner(), [0x34, 0x12]);
}

#[test]
fn bits_beyond_sixteen_stay_pending() {
    let mut writer = BitWriter::new(Vec::new());
    writer.write_bits(15, 0x7fff).unwrap();
    writer.write_bits(15, 0).unwrap();
    assert_eq!(writer.as_inner_ref(), &vec![0xff, 0x7f]);
    writer.flush().unwrap();
    assert_eq!(writer.into_inner(), [0xff, 0x7f, 0x00, 0x00]);
}

#[test]
fn value_is_masked_to_its_width() {
    let mut writer = BitWriter::new(Vec::new());
    writer.write_bits(3, 0xffff).unwrap();
    writer.write_bits(5, 0).unwrap();
    writer.write_bits(4, 0xfff0).unwrap();
    writer.flush().unwrap();
    assert_eq!(writer.into_inner(), [0b0000_0111, 0b0000_0000]);
}

#[test]
fn zero_width_write_adds_nothing() {
    let mut writer = BitWriter::new(Vec::new());
    writer.write_bits(0, 0xffff).unwrap();
    writer.flush().unwrap();
    assert!(writer.into_inner().is_empty());
}

#[test]
fn flush_fills_the_last_byte_with_zeros() {
    let mut writer = BitWriter::new(Vec::new());
    writer.write_bit(true).unwrap();
    writer.flush().unwrap();
    assert_eq!(writer.into_inner(), [0b0000_0001]);
}

#[test]
fn flush_sends_a_full_byte_and_a_partial_one() {
    let mut writer = BitWriter::new(Vec::new());
    writer.write_bits(12, 0xabc).unwrap();
    writer.flush().unwrap();
    assert_eq!(writer.into_inner(), [0xbc, 0x0a]);
}

#[test]
fn second_flush_sends_no_byte() {
    let mut writer = BitWriter::new(Bounded::with_room(8));
    writer.write_bits(5, 0b10101).unwrap();
    writer.flush().unwrap();
    assert_eq!(writer.as_inner_ref().taken, [0b0001_0101]);
    writer.flush().unwrap();
    let sink = writer.into_inner();
    assert_eq!(sink.taken, [0b0001_0101]);
    assert_eq!(sink.flushes, 2);
}

#[test]
fn flush_of_a_fresh_writer_only_flushes_the_sink() {
    let mut writer = BitWriter::new(Bounded::with_room(0));
    writer.flush().unwrap();
    let sink = writer.into_inner();
    assert!(sink.taken.is_empty());
    assert_eq!(sink.flushes, 1);
}

#[test]
fn sink_error_is_handed_on() {
    let mut writer = BitWriter::new(Bounded::with_room(1));
    writer.write_bits(15, 0x1234).unwrap();
    let refused = writer.write_bit(true);
    assert_eq!(refused.map_err(|e| e.kind()), Err(io::ErrorKind::Other));
    assert!(writer.as_inner_ref().taken.is_empty());
}

#[test]
fn refused_bits_stay_pending() {
    let mut writer = BitWriter::new(Bounded::with_room(0));
    writer.write_bits(15, 0x1234).unwrap();
    assert!(writer.write_bit(true).is_err());
    writer.as_inner_mut().room = 4;
    writer.write_bits(0, 0).unwrap();
    assert_eq!(writer.as_inner_ref().taken, [0x34, 0x92]);
    writer.flush().unwrap();
    assert_eq!(writer.into_inner().taken, [0x34, 0x92]);
}

#[test]
fn failed_flush_keeps_the_unsent_bits() {
    let mut writer = BitWriter::new(Bounded::with_room(1));
    writer.write_bits(12, 0xabc).unwrap();
    let refused = writer.flush();
    assert_eq!(refused.map_err(|e| e.kind()), Err(io::ErrorKind::Other));
    assert_eq!(writer.as_inner_ref().taken, [0xbc]);
    assert_eq!(writer.as_inner_ref().flushes, 0);
    writer.as_inner_mut().room = 2;
    writer.flush().unwrap();
    let sink = writer.into_inner();
    assert_eq!(sink.taken, [0xbc, 0x0a]);
    assert_eq!(sink.flushes, 1);
}

#[test]
fn accessors_reach_the_sink() {
    let mut writer = BitWriter::new(vec![0xee]);
    assert_eq!(writer.as_inner_ref(), &vec![0xee]);
    writer.as_inner_mut().push(0xdd);
    writer.write_bits(4, 0x9).unwrap();
    writer.flush().unwrap();
    assert_eq!(writer.into_inner(), [0xee, 0xdd, 0x09]);
}

#[test]
fn into_inner_loses_pending_bits() {
    let mut writer = BitWriter::new(Vec::new());
    writer.write_bits(7, 0x55).unwrap();
    assert!(writer.into_inner().is_empty());
}
