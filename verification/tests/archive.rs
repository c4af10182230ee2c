use mview::error::Error;
use mview::extract_mview;
use mview::mview_entry::MViewEntry;
use mview::mview_file::MViewFile;
use mview::source::ByteSource;

fn header(name: &str, mime: &str, flags: u32, stored: u32, decoded: u32) -> Vec<u8> {
    let mut bytes = Vec::new();
    bytes.extend_from_slice(name.as_bytes());
    bytes.push(0);
    bytes.extend_from_slice(mime.as_bytes());
    bytes.push(0);
    bytes.extend_from_slice(&flags.to_le_bytes());
    bytes.extend_from_slice(&stored.to_le_bytes());
    bytes.extend_from_slice(&decoded.to_le_bytes());
    bytes
}

fn stored_entry(name: &str, mime: &str, payload: &[u8]) -> Vec<u8> {
    let mut bytes = header(name, mime, 0, payload.len() as u32, payload.len() as u32);
    bytes.extend_from_slice(payload);
    bytes
}

fn items(bytes: Vec<u8>) -> Vec<Result<(String, String, Vec<u8>), Error>> {
    let mut file = MViewFile::new(bytes);
    let mut found = Vec::new();
    while let Some(item) = file.next() {
        found.push(item.map(|entry| (entry.name, entry.mime_type, entry.data)));
    }
    assert!(file.next().is_none());
    found
}

fn entry(name: &str, mime: &str, data: &[u8]) -> Result<(String, String, Vec<u8>), Error> {
    Ok((name.to_string(), mime.to_string(), data.to_vec()))
}

#[test]
fn stored_entry_is_copied_verbatim() {
    let mut bytes = Vec::new();
    bytes.extend_from_slice(b"a.txt\0text/plain\0");
    bytes.extend_from_slice(&[0, 0, 0, 0]);
    bytes.extend_from_slice(&[1, 0, 0, 0]);
    bytes.extend_from_slice(&[1, 0, 0, 0]);
    bytes.push(0x41);
    let mut file = MViewFile::new(bytes);
    let entry = file.next().unwrap().unwrap();
    assert_eq!(entry.name, "a.txt");
    assert_eq!(entry.mime_type, "text/plain");
    assert_eq!(entry.data, vec![0x41]);
    assert!(file.next().is_none());
}

#[test]
fn packed_entry_with_budget_of_two_holds_its_first_byte() {
    let mut bytes = header("x", "y", 1, 2, 1);
    bytes.push(0x58);
    bytes.push(0xEE);
    let mut source = ByteSource::new(bytes);
    let entry = MViewEntry::try_from(&mut source).unwrap();
    assert_eq!(entry.name, "x");
    assert_eq!(entry.mime_type, "y");
    assert_eq!(entry.data, vec![0x58]);
    assert!(source.is_exhausted());
}

#[test]
fn stored_payload_has_the_stored_size_whatever_the_decoded_size_says() {
    let mut bytes = header("n", "m", 0, 3, 99);
    bytes.extend_from_slice(&[5, 6, 7, 8]);
    let mut source = ByteSource::new(bytes);
    let entry = MViewEntry::try_from(&mut source).unwrap();
    assert_eq!(entry.data, vec![5, 6, 7]);
    assert_eq!(source.remaining(), 1);
}

#[test]
fn only_bit_zero_of_the_flags_selects_unpacking() {
    let mut bytes = header("n", "m", 0xFFFF_FFFE, 2, 9);
    bytes.extend_from_slice(&[5, 6]);
    assert_eq!(items(bytes), vec![entry("n", "m", &[5, 6])]);
    let mut bytes = header("n", "m", 0x8000_0001, 3, 2);
    bytes.extend_from_slice(&[97, 32, 6]);
    assert_eq!(items(bytes), vec![entry("n", "m", &[97, 98])]);
}

#[test]
fn packed_entry_is_unpacked_to_its_decoded_size() {
    let mut bytes = header("p", "application/octet-stream", 1, 6, 8);
    bytes.extend_from_slice(&[97, 32, 6, 0, 17, 16]);
    bytes.extend_from_slice(&stored_entry("q", "r", &[1]));
    assert_eq!(
        items(bytes),
        vec![
            entry("p", "application/octet-stream", &[97, 98, 97, 98, 98, 97, 0, 0]),
            entry("q", "r", &[1]),
        ]
    );
}

#[test]
fn empty_archive_has_no_entries() {
    assert!(items(Vec::new()).is_empty());
    assert_eq!(extract_mview(Vec::new()).unwrap().len(), 0);
}

#[test]
fn archive_cut_at_an_entry_boundary_ends_without_an_error() {
    let first = stored_entry("one", "a/b", &[1, 2]);
    let second = stored_entry("two", "c/d", &[3]);
    let mut bytes = first.clone();
    bytes.extend_from_slice(&second);
    assert_eq!(
        items(bytes.clone()),
        vec![entry("one", "a/b", &[1, 2]), entry("two", "c/d", &[3])]
    );
    assert_eq!(items(bytes[..first.len()].to_vec()), vec![entry("one", "a/b", &[1, 2])]);
}

#[test]
fn archive_cut_inside_a_header_ends_with_one_error() {
    let first = stored_entry("one", "a/b", &[1, 2]);
    let second = stored_entry("two", "c/d", &[3]);
    let mut bytes = first.clone();
    bytes.extend_from_slice(&second);
    let header_end = bytes.len() - 1;
    for cut in first.len() + 1..header_end {
        assert_eq!(
            items(bytes[..cut].to_vec()),
            vec![entry("one", "a/b", &[1, 2]), Err(Error::UnexpectedEnd)]
        );
    }
    for cut in 1..first.len() - 2 {
        assert_eq!(items(bytes[..cut].to_vec()), vec![Err(Error::UnexpectedEnd)]);
    }
}

#[test]
fn archive_cut_inside_a_stored_payload_ends_with_one_error() {
    let bytes = stored_entry("one", "a/b", &[1, 2, 3]);
    assert_eq!(items(bytes[..bytes.len() - 1].to_vec()), vec![Err(Error::UnexpectedEnd)]);
    assert_eq!(items(bytes[..bytes.len() - 3].to_vec()), vec![Err(Error::UnexpectedEnd)]);
}

#[test]
fn archive_cut_inside_a_packed_payload_ends_with_one_error() {
    let mut bytes = header("p", "q", 1, 5, 3);
    bytes.extend_from_slice(&[97, 32, 6, 99]);
    assert_eq!(items(bytes), vec![Err(Error::UnexpectedEnd)]);
}

#[test]
fn name_that_is_not_utf8_is_an_invalid_encoding() {
    let mut bytes = vec![0xFF, 0];
    bytes.extend_from_slice(b"m\0");
    let mut source = ByteSource::new(bytes);
    assert_eq!(MViewEntry::try_from(&mut source).unwrap_err(), Error::InvalidEncoding);
    assert_eq!(source.remaining(), 2);
}

#[test]
fn mime_type_that_is_not_utf8_is_an_invalid_encoding() {
    let mut bytes = b"name\0".to_vec();
    bytes.extend_from_slice(&[0x80, 0]);
    bytes.extend_from_slice(&[0; 12]);
    let mut source = ByteSource::new(bytes);
    assert_eq!(MViewEntry::try_from(&mut source).unwrap_err(), Error::InvalidEncoding);
    assert_eq!(source.remaining(), 12);
}

#[test]
fn packed_entry_that_overruns_its_decoded_size_is_an_error() {
    let mut bytes = header("p", "q", 1, 5, 2);
    bytes.extend_from_slice(&[97, 32, 6, 99, 0]);
    let mut source = ByteSource::new(bytes);
    assert_eq!(MViewEntry::try_from(&mut source).unwrap_err(), Error::Overrun);
}

#[test]
fn try_from_on_an_empty_source_is_an_unexpected_end() {
    let mut source = ByteSource::new(Vec::new());
    assert_eq!(MViewEntry::try_from(&mut source).unwrap_err(), Error::UnexpectedEnd);
}

#[test]
fn reading_goes_on_behind_a_failed_entry() {
    let mut bytes = vec![0xFF, 0];
    bytes.extend_from_slice(&stored_entry("", "ok", &[9]));
    assert_eq!(
        items(bytes),
        vec![Err(Error::InvalidEncoding), entry("", "ok", &[9])]
    );
}

#[test]
fn extract_returns_every_entry_in_order() {
    let mut bytes = stored_entry("one", "a/b", &[1, 2]);
    bytes.extend_from_slice(&header("two", "c/d", 0, 0, 7));
    let entries = extract_mview(bytes).unwrap();
    assert_eq!(entries.len(), 2);
    assert_eq!(entries[0].name, "one");
    assert_eq!(entries[0].mime_type, "a/b");
    assert_eq!(entries[0].data, vec![1, 2]);
    assert_eq!(entries[1].name, "two");
    assert_eq!(entries[1].mime_type, "c/d");
    assert!(entries[1].data.is_empty());
}

#[test]
fn extract_returns_the_first_failure() {
    let mut bytes = stored_entry("one", "a/b", &[1, 2]);
    bytes.extend_from_slice(b"tw");
    assert_eq!(extract_mview(bytes).unwrap_err(), Error::UnexpectedEnd);
    let mut bytes = stored_entry("one", "a/b", &[1, 2]);
    bytes.extend_from_slice(&[0xC3, 0]);
    bytes.extend_from_slice(&stored_entry("two", "c/d", &[3]));
    assert_eq!(extract_mview(bytes).unwrap_err(), Error::InvalidEncoding);
}
