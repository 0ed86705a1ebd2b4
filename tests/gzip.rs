use compress::crc::{State32, Table32};
use compress::gzip::{Decoder, GzError};

fn crc_of(table: &Table32, data: &[u8]) -> u32 {
    let mut s = State32::new(table);
    s.feed(data);
    s.crc32()
}

/// A member whose compressed body is `body` and whose decompressed content is
/// `content`; the trailer is right for `content`.
fn member_bytes(table: &Table32, flags: u8, extra: &[u8], body: &[u8], content: &[u8]) -> Vec<u8> {
    let mut v = vec![0x1f, 0x8b, 8, flags, 0, 0, 0, 0, 0, 0xff];
    v.extend_from_slice(extra);
    v.extend_from_slice(body);
    v.extend_from_slice(&crc_of(table, content).to_le_bytes());
    v.extend_from_slice(&(content.len() as u32).to_le_bytes());
    v
}

#[test]
fn gzip_two_members_then_exhausted() {
    let table = Table32::new();
    let mut stream = member_bytes(&table, 0, &[], b"BODY1", b"hello");
    stream.extend(member_bytes(&table, 0, &[], b"B2", b"world!"));
    let mut d = Decoder::new_with_crc(stream, &table);
    for (body_len, content) in [(5usize, &b"hello"[..]), (2, &b"world!"[..])] {
        let mut m = d.member().unwrap().unwrap();
        assert!(m.file_name.is_empty());
        assert!(m.file_comment.is_empty());
        m.feed(&content[..2]);
        m.feed(&content[2..]);
        assert_eq!(m.crc32(), crc_of(&table, content));
        d.finish_member(&m, body_len).unwrap();
    }
    assert!(d.eof());
    assert!(d.member().unwrap().is_none());
    assert!(d.unwrap().is_empty());
}

#[test]
fn gzip_bad_magic() {
    let table = Table32::new();
    let mut stream = member_bytes(&table, 0, &[], b"x", b"x");
    stream[1] = 0x8c;
    let mut d = Decoder::new_with_crc(stream, &table);
    assert_eq!(d.member().err(), Some(GzError::MalformedHeader));
}

#[test]
fn gzip_unsupported_method() {
    let table = Table32::new();
    let mut stream = member_bytes(&table, 0, &[], b"x", b"x");
    stream[2] = 7;
    let mut d = Decoder::new_with_crc(stream, &table);
    assert_eq!(d.member().err(), Some(GzError::MalformedHeader));
}

#[test]
fn gzip_reserved_flags() {
    let table = Table32::new();
    for flag in [0x20u8, 0x40, 0x80] {
        let stream = member_bytes(&table, flag, &[], b"x", b"x");
        let mut d = Decoder::new_with_crc(stream, &table);
        assert_eq!(d.member().err(), Some(GzError::MalformedHeader));
    }
}

#[test]
fn gzip_truncated_header() {
    let table = Table32::new();
    let mut d = Decoder::new_with_crc(vec![0x1f, 0x8b, 8, 0], &table);
    assert_eq!(d.member().err(), Some(GzError::TruncatedInput));
    // A name that never ends.
    let mut d = Decoder::new_with_crc(vec![0x1f, 0x8b, 8, 8, 0, 0, 0, 0, 0, 0, b'a', b'b'], &table);
    assert_eq!(d.member().err(), Some(GzError::TruncatedInput));
    // An extra field longer than the stream.
    let mut d = Decoder::new_with_crc(vec![0x1f, 0x8b, 8, 4, 0, 0, 0, 0, 0, 0, 9, 0, 1], &table);
    assert_eq!(d.member().err(), Some(GzError::TruncatedInput));
}

#[test]
fn gzip_trailer_checksum_mismatch() {
    let table = Table32::new();
    let stream = member_bytes(&table, 0, &[], b"BODY", b"content");
    let mut d = Decoder::new_with_crc(stream, &table);
    let mut m = d.member().unwrap().unwrap();
    m.feed(b"contenT");
    assert_eq!(d.finish_member(&m, 4), Err(GzError::ChecksumMismatch));
}

#[test]
fn gzip_trailer_length_mismatch() {
    let table = Table32::new();
    let stream = member_bytes(&table, 0, &[], b"BODY", b"content");
    let mut d = Decoder::new_with_crc(stream, &table);
    let mut m = d.member().unwrap().unwrap();
    m.feed(b"content");
    m.feed(b"");
    assert_eq!(d.finish_member(&m, 3), Err(GzError::ChecksumMismatch));
}

#[test]
fn gzip_trailer_truncated() {
    let table = Table32::new();
    let mut stream = member_bytes(&table, 0, &[], b"BODY", b"content");
    stream.pop();
    let mut d = Decoder::new_with_crc(stream, &table);
    let mut m = d.member().unwrap().unwrap();
    m.feed(b"content");
    assert_eq!(d.finish_member(&m, 4), Err(GzError::TruncatedInput));
}

#[test]
fn gzip_optional_fields() {
    let table = Table32::new();
    let mut fields = vec![3, 0, 1, 2, 3];
    fields.extend_from_slice(b"name.txt\0");
    fields.extend_from_slice(b"a comment\0");
    let mut header = vec![0x1f, 0x8b, 8, 4 | 8 | 16 | 2, 0, 0, 0, 0, 0, 0xff];
    header.extend_from_slice(&fields);
    let hcrc = (crc_of(&table, &header) & 0xffff) as u16;
    let mut with_crc = hcrc.to_le_bytes().to_vec();
    with_crc.extend_from_slice(b"Z");
    let stream = member_bytes(&table, 4 | 8 | 16 | 2, &[&fields[..], &hcrc.to_le_bytes()[..]].concat(), b"Z", b"zz");
    let mut d = Decoder::new_with_crc(stream.clone(), &table);
    let mut m = d.member().unwrap().unwrap();
    assert_eq!(m.file_name, b"name.txt".to_vec());
    assert_eq!(m.file_comment, b"a comment".to_vec());
    let (bytes, pos) = d.stream();
    assert_eq!(&bytes[pos..pos + 1], b"Z");
    m.feed(b"zz");
    assert_eq!(d.finish_member(&m, 1), Ok(()));
    assert!(d.eof());

    let mut bad = stream;
    bad[10 + fields.len()] ^= 1;
    let mut d = Decoder::new_with_crc(bad, &table);
    assert_eq!(d.member().err(), Some(GzError::ChecksumMismatch));
}
