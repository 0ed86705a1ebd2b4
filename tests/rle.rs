use compress::rle::{Decoder, Encoder, RleError};
use compress::shared::{FiniteWriter, MemReader};

fn test_encode(input: &[u8], output: &[u8]) {
    let mut encoder = Encoder::new(Vec::new());
    encoder.write(input).unwrap();
    let (buf, _) = encoder.finish();
    assert_eq!(output, &buf[..]);
}

fn test_decode(input: &[u8], output: &[u8]) {
    let mut decoder = Decoder::new(MemReader::new(input.to_vec()));
    let buf = decoder.read_to_end().unwrap();
    assert_eq!(output, &buf[..]);
}

fn test_roundtrip(input: &[u8]) {
    let mut encoder = Encoder::new(Vec::new());
    encoder.write(input).unwrap();
    let (buf, _) = encoder.finish();
    let mut decoder = Decoder::new(MemReader::new(buf));
    let decoder_buf = decoder.read_to_end().unwrap();
    assert_eq!(input, &decoder_buf[..]);
}

#[test]
fn simple_encoding() {
    test_encode(b"", b"");
    test_encode(b"a", b"a");
    test_encode(b"abca123", b"abca123");
    test_encode(&[20, 20, 20, 20, 20, 15], &[20, 20, 5 - 2 + 128, 15]);
    test_encode(&[0, 0], &[0, 0, 2 - 2 + 128]);
}

#[test]
fn long_run_encoding() {
    let mut data = std::iter::repeat(5).take(129).collect::<Vec<_>>();
    test_encode(&data[..], &[5, 5, 255]);

    data = [1, 3, 4, 4].iter().map(|&x| x).chain(std::iter::repeat(100).take(2 + 52 + 128)).collect::<Vec<_>>();
    test_encode(&data[..], &[1, 3, 4, 4, 0 + 128, 100, 100, 52, 1 + 128]);
}

#[test]
fn simple_decoding() {
    test_decode(b"", b"");
    test_decode(b"a", b"a");
    test_decode(b"abca123", b"abca123");
    test_decode(&[20, 20, 5 - 2 + 128, 15], &[20, 20, 20, 20, 20, 15]);
    test_decode(&[0, 0, 2 - 2 + 128], &[0, 0]);
}

#[test]
fn long_run_decoding() {
    let data = [1, 3, 4, 4].iter().map(|&x| x).chain(std::iter::repeat(100).take(2 + 52 + 128)).collect::<Vec<_>>();

    test_decode(&[1, 3, 4, 4, 0 + 128, 100, 100, 52, 1 + 128], &data[..]);
}

/// A small deterministic generator, so that the inputs repeat from run to run.
struct XorShift(u64);

impl XorShift {
    fn fill_bytes(&mut self, buf: &mut [u8]) {
        for b in buf.iter_mut() {
            self.0 ^= self.0 << 13;
            self.0 ^= self.0 >> 7;
            self.0 ^= self.0 << 17;
            *b = (self.0 >> 24) as u8;
        }
    }
}

#[test]
fn random_roundtrips() {
    let mut rng = XorShift(0x9e37_79b9_7f4a_7c15);

    for _ in 0..100 {
        let mut buf = [0; 13579];
        rng.fill_bytes(&mut buf[..]);
        test_roundtrip(&buf);
    }
}

#[test]
fn roundtrip_with_runs() {
    let mut rng = XorShift(12345);
    let mut data = Vec::new();
    for _ in 0..200 {
        let mut pick = [0u8; 2];
        rng.fill_bytes(&mut pick);
        let len = 1 + (pick[1] as usize) * 3;
        data.extend(std::iter::repeat(pick[0] % 4).take(len));
    }
    test_roundtrip(&data);
    test_roundtrip(&[]);
    test_roundtrip(&[7]);
}

#[test]
fn writes_in_pieces_match_one_write() {
    let data = [9u8, 9, 9, 1, 1, 2, 2, 2, 2, 3];
    let mut whole = Encoder::new(Vec::new());
    whole.write(&data).unwrap();
    let (whole, _) = whole.finish();
    let mut pieces = Encoder::new(Vec::new());
    for chunk in data.chunks(2) {
        pieces.write(chunk).unwrap();
    }
    assert_eq!(pieces.finish().0, whole);
    assert_eq!(whole, vec![9, 9, 129, 1, 1, 128, 2, 2, 130, 3]);
}

#[test]
fn fragmented_source_gives_same_output() {
    let data = [1, 3, 4, 4].iter().map(|&x| x).chain(std::iter::repeat(100).take(182)).chain([7, 7, 8]).collect::<Vec<_>>();
    let mut encoder = Encoder::new(Vec::new());
    encoder.write(&data).unwrap();
    let (encoded, _) = encoder.finish();
    let whole = Decoder::new(MemReader::new(encoded.clone())).read_to_end().unwrap();
    for chunk in [1usize, 2, 3, 7, 32] {
        let mut d = Decoder::new(MemReader::with_chunk_size(encoded.clone(), chunk));
        assert_eq!(d.read_to_end().unwrap(), whole);
    }
    assert_eq!(whole, data);
}

#[test]
fn bounded_reads() {
    let mut d = Decoder::new(MemReader::with_chunk_size(vec![20, 20, 131, 15], 1));
    assert_eq!(d.read(2).unwrap(), vec![20, 20]);
    assert_eq!(d.read(10).unwrap(), vec![20, 20, 20, 15]);
    assert_eq!(d.read(10).unwrap(), Vec::<u8>::new());
}

#[test]
fn overlong_run_is_an_error() {
    let mut input = vec![5u8, 5];
    input.extend(std::iter::repeat(0u8).take(10));
    let mut d = Decoder::new(MemReader::new(input));
    assert_eq!(d.read_to_end(), Err(RleError::OverlongRun));
}

#[test]
fn bytes_before_an_overlong_run_come_out_first() {
    let mut input = vec![1u8, 2, 5, 5];
    input.extend(std::iter::repeat(0u8).take(10));
    let mut d = Decoder::new(MemReader::new(input));
    assert_eq!(d.read(2).unwrap(), vec![1, 2]);
    assert_eq!(d.read(1), Err(RleError::OverlongRun));
}

#[test]
fn unterminated_length_is_finalised_at_end_of_input() {
    // The length groups stop without a terminating byte: the groups seen count.
    test_decode(&[6, 6, 1], &[6, 6, 6]);
    test_decode(&[6, 6], &[6, 6]);
}

#[test]
fn nine_length_groups_are_accepted() {
    let mut input = vec![5u8, 5];
    input.extend(std::iter::repeat(0u8).take(8));
    input.push(129);
    let mut d = Decoder::new(MemReader::new(input));
    let mut first = d.read(4).unwrap();
    assert_eq!(first.len(), 4);
    first.dedup();
    assert_eq!(first, vec![5]);
}

#[test]
fn default_terminator_flushes() {
    let mut v: Vec<u8> = vec![4];
    assert_eq!(FiniteWriter::write_terminator(&mut v), Ok(()));
    assert_eq!(v, vec![4]);
}
