use bitio::{BitReader, BitWriter};
use std::io;

#[test]
fn writer_works() {
    let mut writer = BitWriter::new(Vec::new());
    writer.write_bit(true).unwrap();
    writer.write_bits(3, 0b010).unwrap();
    writer.write_bits(11, 0b10101011010).unwrap();
    writer.flush().unwrap();
    writer.write_bit(true).unwrap();
    writer.flush().unwrap();

    let buf = writer.into_inner();
    assert_eq!(buf, [0b10100101, 0b01010101, 0b00000001]);
}

#[test]
fn reader_works() {
    let buf = vec![0b10100101, 0b11010101];
    let mut reader = BitReader::new(io::Cursor::new(buf));
    assert_eq!(reader.read_bit().unwrap(), true);
    assert_eq!(reader.read_bit().unwrap(), false);
    assert_eq!(reader.read_bits(8).unwrap(), 0b01101001);
    assert_eq!(reader.peek_bits(3).unwrap(), 0b101);
    assert_eq!(reader.peek_bits(3).unwrap(), 0b101);
    reader.skip_bits(1);
    assert_eq!(reader.peek_bits(3).unwrap(), 0b010);
    assert_eq!(
        reader.read_bits(8).map_err(|e| e.kind()),
        Err(io::ErrorKind::UnexpectedEof)
    );
}
