use compress::crc::{Reader32, State32, Table32};
use compress::shared::MemReader;

fn checksum(table: &Table32, data: &[u8]) -> u32 {
    let mut s = State32::new(table);
    s.feed(data);
    s.crc32()
}

#[test]
fn crc_of_empty_input_is_zero() {
    let table = Table32::new();
    assert_eq!(checksum(&table, b""), 0);
}

#[test]
fn crc_check_value() {
    let table = Table32::new();
    assert_eq!(checksum(&table, b"123456789"), 0xcbf4_3926);
    assert_eq!(checksum(&table, b"a"), 0xe8b7_be43);
}

#[test]
fn crc_is_order_sensitive() {
    let table = Table32::new();
    assert_ne!(checksum(&table, b"ab"), checksum(&table, b"ba"));
}

#[test]
fn crc_feed_in_pieces_and_reset() {
    let table = Table32::new();
    let mut s = State32::new(&table);
    s.feed(b"1234");
    s.feed(b"56789");
    assert_eq!(s.crc32(), 0xcbf4_3926);
    s.reset();
    assert_eq!(s.crc32(), 0);
    s.feed(b"123456789");
    assert_eq!(s.crc32(), 0xcbf4_3926);
}

#[test]
fn crc_reader_passes_bytes_through() {
    let table = Table32::new();
    let mut r = Reader32::new(MemReader::with_chunk_size(b"123456789".to_vec(), 4), &table);
    let mut seen = Vec::new();
    loop {
        let part = r.read(100).unwrap();
        if part.is_empty() {
            break;
        }
        assert!(part.len() <= 4);
        seen.extend_from_slice(&part);
    }
    assert_eq!(seen, b"123456789".to_vec());
    assert_eq!(r.crc32(), 0xcbf4_3926);
    r.reset();
    assert_eq!(r.crc32(), 0);
    let _inner = r.unwrap();
}
