use mview::error::Error;
use mview::source::ByteSource;
use mview::utils::{next_or_eof, read_bytes, read_cstr, read_u32};

#[test]
fn source_hands_out_its_bytes_in_order() {
    let mut source = ByteSource::new(vec![7, 8]);
    assert_eq!(source.remaining(), 2);
    assert!(!source.is_exhausted());
    assert_eq!(source.next(), Some(7));
    assert_eq!(source.next(), Some(8));
    assert_eq!(source.next(), None);
    assert!(source.is_exhausted());
    assert_eq!(source.next(), None);
}

#[test]
fn discard_skips_bytes_and_stops_at_the_end() {
    let mut source = ByteSource::new(vec![1, 2, 3, 4, 5]);
    source.discard(2);
    assert_eq!(source.next(), Some(3));
    source.discard(0);
    assert_eq!(source.remaining(), 2);
    source.discard(9);
    assert_eq!(source.remaining(), 0);
    assert_eq!(source.next(), None);
}

#[test]
fn next_or_eof_reads_one_byte() {
    let mut source = ByteSource::new(vec![0xAB, 0xCD]);
    assert_eq!(next_or_eof(&mut source), Ok(0xAB));
    assert_eq!(source.remaining(), 1);
    assert_eq!(next_or_eof(&mut source), Ok(0xCD));
    assert_eq!(next_or_eof(&mut source), Err(Error::UnexpectedEnd));
    assert_eq!(next_or_eof(&mut source), Err(Error::UnexpectedEnd));
}

#[test]
fn read_u32_is_little_endian() {
    let mut source = ByteSource::new(vec![0x78, 0x56, 0x34, 0x12, 0xFF, 0xFF, 0xFF, 0xFF, 1, 0, 0, 0]);
    assert_eq!(read_u32(&mut source), Ok(0x1234_5678));
    assert_eq!(read_u32(&mut source), Ok(u32::MAX));
    assert_eq!(read_u32(&mut source), Ok(1));
    assert_eq!(source.remaining(), 0);
}

#[test]
fn read_u32_fails_on_a_short_source_and_uses_it_up() {
    let mut source = ByteSource::new(vec![1, 2, 3]);
    assert_eq!(read_u32(&mut source), Err(Error::UnexpectedEnd));
    assert_eq!(source.remaining(), 0);
    let mut empty = ByteSource::new(Vec::new());
    assert_eq!(read_u32(&mut empty), Err(Error::UnexpectedEnd));
}

#[test]
fn read_cstr_stops_at_the_terminator() {
    let mut source = ByteSource::new(b"a.txt\0text/plain\0rest".to_vec());
    assert_eq!(read_cstr(&mut source), Ok(String::from("a.txt")));
    assert_eq!(source.remaining(), 15);
    assert_eq!(read_cstr(&mut source), Ok(String::from("text/plain")));
    assert_eq!(source.remaining(), 4);
    assert_eq!(next_or_eof(&mut source), Ok(b'r'));
}

#[test]
fn read_cstr_accepts_an_empty_string() {
    let mut source = ByteSource::new(vec![0, 0x41]);
    assert_eq!(read_cstr(&mut source), Ok(String::new()));
    assert_eq!(source.remaining(), 1);
}

#[test]
fn read_cstr_decodes_multi_byte_characters() {
    let mut source = ByteSource::new(vec![0x68, 0xC3, 0xA9, 0xE2, 0x82, 0xAC, 0xF0, 0x9F, 0x98, 0x80, 0]);
    let text = read_cstr(&mut source).unwrap();
    assert_eq!(text, "h\u{e9}\u{20ac}\u{1f600}");
    assert_eq!(text.chars().count(), 4);
    assert!(source.is_exhausted());
}

#[test]
fn read_cstr_rejects_invalid_utf8_behind_the_terminator() {
    let mut source = ByteSource::new(vec![0x61, 0xFF, 0x62, 0, 0x63]);
    assert_eq!(read_cstr(&mut source), Err(Error::InvalidEncoding));
    assert_eq!(source.remaining(), 1);
    let mut overlong = ByteSource::new(vec![0xC0, 0x80, 0]);
    assert_eq!(read_cstr(&mut overlong), Err(Error::InvalidEncoding));
    let mut surrogate = ByteSource::new(vec![0xED, 0xA0, 0x80, 0]);
    assert_eq!(read_cstr(&mut surrogate), Err(Error::InvalidEncoding));
    let mut cut_short = ByteSource::new(vec![0xE2, 0x82, 0]);
    assert_eq!(read_cstr(&mut cut_short), Err(Error::InvalidEncoding));
}

#[test]
fn read_cstr_without_terminator_is_an_unexpected_end() {
    let mut source = ByteSource::new(b"abc".to_vec());
    assert_eq!(read_cstr(&mut source), Err(Error::UnexpectedEnd));
    assert_eq!(source.remaining(), 0);
    let mut invalid = ByteSource::new(vec![0xFF, 0xFE]);
    assert_eq!(read_cstr(&mut invalid), Err(Error::UnexpectedEnd));
    let mut empty = ByteSource::new(Vec::new());
    assert_eq!(read_cstr(&mut empty), Err(Error::UnexpectedEnd));
}

#[test]
fn read_bytes_takes_exactly_the_count() {
    let mut source = ByteSource::new(vec![1, 2, 3, 4, 5]);
    assert_eq!(read_bytes(&mut source, 0), Ok(Vec::new()));
    assert_eq!(read_bytes(&mut source, 3), Ok(vec![1, 2, 3]));
    assert_eq!(source.remaining(), 2);
    assert_eq!(read_bytes(&mut source, 3), Err(Error::UnexpectedEnd));
    assert_eq!(source.remaining(), 0);
    assert_eq!(read_bytes(&mut source, 0), Ok(Vec::new()));
}
