use compress::mtf::{Decoder, Encoder, MTF};
use compress::shared::MemReader;

fn roundtrip(bytes: &[u8]) {
    let mut e = Encoder::new(Vec::new());
    e.write(bytes).unwrap();
    let encoded = e.finish();
    assert_eq!(encoded.len(), bytes.len());
    let mut d = Decoder::new(MemReader::new(encoded));
    let decoded = d.read_to_end().unwrap();
    assert_eq!(&decoded[..], bytes);
}

const TEXT: &[u8] = b"The quick brown fox jumps over the lazy dog.\n\
Move-to-front coding turns recently seen symbols into small ranks,\n\
so that runs of equal bytes become runs of zeroes: aaaaaaaabbbbbbbbcccccccc.\n\
0123456789 !\"#$%&'()*+,-./:;<=>?@[\\]^_`{|}~\n";

#[test]
fn some_roundtrips() {
    roundtrip(b"teeesst_mtf");
    roundtrip(b"");
    roundtrip(TEXT);
}

#[test]
fn mtf_ranks_of_known_input() {
    let mut e = Encoder::new(Vec::new());
    e.write(b"aab").unwrap();
    let ranks = e.finish();
    // 'a' is at rank 97; then at rank 0; 'b' (98) has not moved.
    assert_eq!(ranks, vec![97, 0, 98]);
}

#[test]
fn mtf_repeated_symbol_is_rank_zero() {
    let mut m = MTF::new();
    m.reset_alphabetical();
    for s in [200u8, 3, 3, 77, 77, 0, 0] {
        m.encode(s);
        assert_eq!(m.encode(s), 0);
    }
}

#[test]
fn mtf_decode_moves_symbol_to_front() {
    let mut m = MTF::new();
    assert!(m.symbols.iter().all(|&s| s == 0));
    m.reset_alphabetical();
    assert_eq!(m.decode(5), 5);
    assert_eq!(&m.symbols[..7], &[5, 0, 1, 2, 3, 4, 6]);
    assert_eq!(m.encode(4), 5);
    assert_eq!(&m.symbols[..7], &[4, 5, 0, 1, 2, 3, 6]);
}

#[test]
fn mtf_chunked_decoding() {
    let mut e = Encoder::new(Vec::new());
    e.write(TEXT).unwrap();
    let encoded = e.finish();
    let mut d = Decoder::new(MemReader::with_chunk_size(encoded, 1));
    let mut out = Vec::new();
    loop {
        let part = d.read(3).unwrap();
        if part.is_empty() {
            break;
        }
        assert!(part.len() <= 1);
        out.extend_from_slice(&part);
    }
    assert_eq!(&out[..], TEXT);
}

#[test]
fn mtf_read_of_nothing() {
    let mut d = Decoder::new(MemReader::new(vec![1, 2]));
    assert_eq!(d.read(0).unwrap(), Vec::<u8>::new());
    assert_eq!(d.read(5).unwrap(), vec![1, 2]);
}
