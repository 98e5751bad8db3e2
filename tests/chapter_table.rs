use chapter_codec::chapter_table::{ChapterHeader, ChapterTable};
use chapter_codec::error::CodecError;

fn sample() -> ChapterTable {
    let mut t = ChapterTable::from_chapter_names_array(&["Intro", "Ch1"]).unwrap();
    t.update_chapter(0, 8, 1024, 3).unwrap();
    t.update_chapter(1, 1032, 2048, 5).unwrap();
    t
}

fn sample_bytes() -> Vec<u8> {
    let mut v: Vec<u8> = vec![0x34, 0x00, 0x00, 0x00, 0x02, 0x00];
    v.push(5);
    v.extend_from_slice(b"Intro");
    v.extend_from_slice(&[0x08, 0, 0, 0, 0, 0, 0, 0]);
    v.extend_from_slice(&[0x00, 0x04, 0, 0, 0, 0, 0, 0]);
    v.extend_from_slice(&[0x03, 0x00]);
    v.push(3);
    v.extend_from_slice(b"Ch1");
    v.extend_from_slice(&[0x08, 0x04, 0, 0, 0, 0, 0, 0]);
    v.extend_from_slice(&[0x00, 0x08, 0, 0, 0, 0, 0, 0]);
    v.extend_from_slice(&[0x05, 0x00]);
    v
}

fn fields(h: &ChapterHeader) -> (String, u64, u64, u16) {
    (h.name.clone(), h.byte_offset, h.byte_length, h.page_count)
}

fn decode_block(block: &[u8]) -> Result<ChapterTable, CodecError> {
    let block_length = u32::from_le_bytes([block[0], block[1], block[2], block[3]]);
    ChapterTable::decode(block_length, block[4..].to_vec())
}

#[test]
fn empty_directory_encodes_to_six_bytes() {
    let t = ChapterTable::from_chapter_names_array(&[]).unwrap();
    assert_eq!(t.encode(), vec![0x06, 0x00, 0x00, 0x00, 0x00, 0x00]);
    assert_eq!(t.byte_length(), 6);
}

#[test]
fn from_names_gives_zeroed_entries_in_order() {
    let t = ChapterTable::from_chapter_names_array(&["Intro", "Ch1"]).unwrap();
    assert_eq!(t.get_chapter_names(), vec!["Intro", "Ch1"]);
    assert_eq!(fields(t.get_chapter_by_index(0).unwrap()), ("Intro".to_string(), 0, 0, 0));
    assert_eq!(fields(t.get_chapter_by_index(1).unwrap()), ("Ch1".to_string(), 0, 0, 0));
    assert_eq!(t.get_chapter_by_index(2).err(), Some(CodecError::OutOfBounds));
}

#[test]
fn index_past_end_is_out_of_bounds() {
    let t = sample();
    assert_eq!(t.get_chapter_by_index(5).err(), Some(CodecError::OutOfBounds));
}

#[test]
fn absent_name_is_not_found() {
    let t = sample();
    assert_eq!(t.get_chapter_by_name("Epilogue").err(), Some(CodecError::NotFound));
    let empty = ChapterTable::from_chapter_names_array(&[]).unwrap();
    assert_eq!(empty.get_chapter_by_name("Intro").err(), Some(CodecError::NotFound));
}

#[test]
fn name_lookup_finds_first_match() {
    let mut t = ChapterTable::from_chapter_names_array(&["A", "B", "A"]).unwrap();
    t.update_chapter(0, 1, 2, 3).unwrap();
    t.update_chapter(2, 7, 8, 9).unwrap();
    assert_eq!(fields(t.get_chapter_by_name("A").unwrap()), ("A".to_string(), 1, 2, 3));
    assert_eq!(fields(t.get_chapter_by_name("B").unwrap()), ("B".to_string(), 0, 0, 0));
}

#[test]
fn name_of_256_bytes_is_rejected() {
    let long = "a".repeat(256);
    let names = ["ok", long.as_str()];
    assert_eq!(ChapterTable::from_chapter_names_array(&names).err(), Some(CodecError::NameTooLong));
    let multi = "é".repeat(128);
    assert_eq!(multi.len(), 256);
    assert_eq!(
        ChapterTable::from_chapter_names_array(&[multi.as_str()]).err(),
        Some(CodecError::NameTooLong)
    );
}

#[test]
fn name_of_255_bytes_is_accepted() {
    let long = "b".repeat(255);
    let t = ChapterTable::from_chapter_names_array(&[long.as_str()]).unwrap();
    assert_eq!(t.byte_length(), 6 + 19 + 255);
    let bytes = t.encode();
    assert_eq!(bytes.len(), 280);
    assert_eq!(bytes[6], 255);
    let back = decode_block(&bytes).unwrap();
    assert_eq!(back.get_chapter_names(), vec![long.as_str()]);
}

#[test]
fn concrete_directory_encodes_byte_for_byte() {
    let t = sample();
    assert_eq!(t.byte_length(), 52);
    assert_eq!(t.encode(), sample_bytes());
}

#[test]
fn byte_length_matches_encoded_length() {
    let names = ["", "x", "Chapter Two", "日本語"];
    let t = ChapterTable::from_chapter_names_array(&names).unwrap();
    assert_eq!(t.byte_length(), t.encode().len());
    assert_eq!(t.byte_length(), 6 + 4 * 19 + 0 + 1 + 11 + 9);
    let s = sample();
    assert_eq!(s.byte_length(), s.encode().len());
}

#[test]
fn decode_of_encode_gives_same_directory() {
    let t = sample();
    let back = decode_block(&t.encode()).unwrap();
    assert_eq!(back.get_chapter_names(), vec!["Intro", "Ch1"]);
    assert_eq!(fields(back.get_chapter_by_index(0).unwrap()), ("Intro".to_string(), 8, 1024, 3));
    assert_eq!(fields(back.get_chapter_by_index(1).unwrap()), ("Ch1".to_string(), 1032, 2048, 5));
    assert_eq!(back.get_chapter_by_index(2).err(), Some(CodecError::OutOfBounds));
}

#[test]
fn decode_round_trips_large_numbers_and_unicode() {
    let mut t = ChapterTable::from_chapter_names_array(&["Ünïcödé ✓", "z"]).unwrap();
    t.update_chapter(0, u64::MAX, 0x0102_0304_0506_0708, u16::MAX).unwrap();
    let back = decode_block(&t.encode()).unwrap();
    assert_eq!(
        fields(back.get_chapter_by_index(0).unwrap()),
        ("Ünïcödé ✓".to_string(), u64::MAX, 0x0102_0304_0506_0708, u16::MAX)
    );
    assert_eq!(fields(back.get_chapter_by_index(1).unwrap()), ("z".to_string(), 0, 0, 0));
}

#[test]
fn zero_block_length_is_empty_directory() {
    assert_eq!(ChapterTable::body_length(0), Ok(0));
    let t = ChapterTable::decode(0, Vec::new()).unwrap();
    assert_eq!(t.get_chapter_names().len(), 0);
    let ignored = ChapterTable::decode(0, vec![0xff, 0xff, 0xff]).unwrap();
    assert_eq!(ignored.get_chapter_names().len(), 0);
}

#[test]
fn body_length_of_block() {
    assert_eq!(ChapterTable::body_length(52), Ok(48));
    assert_eq!(ChapterTable::body_length(4), Ok(0));
    assert_eq!(ChapterTable::body_length(3), Err(CodecError::OutOfBounds));
    assert_eq!(ChapterTable::body_length(1), Err(CodecError::OutOfBounds));
}

#[test]
fn truncated_block_fails_whole_decode() {
    let bytes = sample_bytes();
    for cut in 4..bytes.len() {
        let block_length = 52u32;
        let r = ChapterTable::decode(block_length, bytes[4..cut].to_vec());
        assert_eq!(r.err(), Some(CodecError::OutOfBounds), "cut at {}", cut);
    }
}

#[test]
fn invalid_name_bytes_fail_decode() {
    let mut bytes = sample_bytes();
    bytes[7] = 0xff;
    assert_eq!(decode_block(&bytes).err(), Some(CodecError::InvalidEncoding));
}

#[test]
fn trailing_bytes_after_records_are_ignored() {
    let mut bytes = sample_bytes();
    bytes.extend_from_slice(&[1, 2, 3]);
    let back = decode_block(&bytes).unwrap();
    assert_eq!(back.get_chapter_names(), vec!["Intro", "Ch1"]);
}

#[test]
fn update_out_of_range_changes_nothing() {
    let mut t = sample();
    assert_eq!(t.update_chapter(2, 1, 1, 1), Err(CodecError::OutOfBounds));
    assert_eq!(t.encode(), sample_bytes());
}
