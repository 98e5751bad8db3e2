use chapter_codec::buffer_reader::BufferReader;
use chapter_codec::buffer_writer::BufferWriter;
use chapter_codec::error::CodecError;

#[test]
fn reader_reads_little_endian() {
    let mut r = BufferReader::new(vec![
        0x01, 0x02, 0x03, 0x04, 0x05, 0x06, 0x07, 0x08, 0x09, 0x0a, 0x0b, 0x0c, 0x0d, 0x0e, 0x0f,
    ]);
    assert_eq!(r.read_u8(), Ok(0x01));
    assert_eq!(r.read_u16(), Ok(0x0302));
    assert_eq!(r.read_u32(), Ok(0x0706_0504));
    assert_eq!(r.read_u64(), Ok(0x0f0e_0d0c_0b0a_0908));
    assert_eq!(r.read_u8(), Err(CodecError::OutOfBounds));
}

#[test]
fn reader_fails_without_enough_bytes_and_keeps_position() {
    let mut r = BufferReader::new(vec![0xaa, 0xbb, 0xcc]);
    assert_eq!(r.read_u32(), Err(CodecError::OutOfBounds));
    assert_eq!(r.read_u64(), Err(CodecError::OutOfBounds));
    assert_eq!(r.read_u16(), Ok(0xbbaa));
    assert_eq!(r.read_u16(), Err(CodecError::OutOfBounds));
    assert_eq!(r.read_u8(), Ok(0xcc));
}

#[test]
fn reader_byte_arrays_and_strings() {
    let mut r = BufferReader::new(b"Hello, world".to_vec());
    assert_eq!(r.read_u8_array(5), Ok(b"Hello".to_vec()));
    r.skip(2);
    assert_eq!(r.read_string(5), Ok("world".to_string()));
    assert_eq!(r.read_u8_array(1), Err(CodecError::OutOfBounds));
    assert_eq!(r.read_u8_array(0), Ok(Vec::new()));
}

#[test]
fn reader_string_rejects_invalid_utf8() {
    let mut r = BufferReader::new(vec![0x61, 0xff, 0xfe]);
    assert_eq!(r.read_string(3), Err(CodecError::InvalidEncoding));
    let mut s = BufferReader::new(vec![0x61]);
    assert_eq!(s.read_string(2), Err(CodecError::OutOfBounds));
    assert_eq!(s.read_string(1), Ok("a".to_string()));
}

#[test]
fn reader_skip_past_end_fails_next_read() {
    let mut r = BufferReader::new(vec![1, 2]);
    r.skip(10);
    assert_eq!(r.read_u8(), Err(CodecError::OutOfBounds));
    assert_eq!(r.read_u8_array(0), Err(CodecError::OutOfBounds));
}

#[test]
fn writer_writes_little_endian() {
    let mut w = BufferWriter::new(16);
    w.write_u8(0x01);
    w.write_u16(0x0302);
    w.write_u32(0x0706_0504);
    w.write_u64(0x0f0e_0d0c_0b0a_0908);
    assert_eq!(
        w.buffer,
        vec![0x01, 0x02, 0x03, 0x04, 0x05, 0x06, 0x07, 0x08, 0x09, 0x0a, 0x0b, 0x0c, 0x0d, 0x0e, 0x0f]
    );
}

#[test]
fn writer_moves_byte_arrays() {
    let mut w = BufferWriter::new(0);
    let mut bytes = vec![9, 8, 7];
    w.write_u8_array(&mut bytes);
    assert!(bytes.is_empty());
    w.write_u16(u16::MAX);
    assert_eq!(w.buffer, vec![9, 8, 7, 0xff, 0xff]);
}

#[test]
fn writer_then_reader_round_trip() {
    let mut w = BufferWriter::new(0);
    w.write_u64(u64::MAX - 1);
    w.write_u32(0);
    let mut r = BufferReader::new(w.buffer);
    assert_eq!(r.read_u64(), Ok(u64::MAX - 1));
    assert_eq!(r.read_u32(), Ok(0));
}
