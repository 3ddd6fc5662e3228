use dssc::chunked::ChunkedCompressor;
use dssc::error::DecodeError;
use dssc::session::{DSSCDecoder, DSSCEncoder, Threshold, DEFAULT_THRESHOLD, THRESHOLD_ONE};

fn threshold(millionths: u32) -> Threshold {
    Threshold::new(millionths).unwrap()
}

#[test]
fn threshold_is_at_most_one() {
    assert_eq!(THRESHOLD_ONE, 1_000_000);
    assert_eq!(Threshold::new(0).map(|t| t.millionths()), Some(0));
    assert_eq!(Threshold::new(250_000).map(|t| t.millionths()), Some(250_000));
    assert_eq!(Threshold::new(1_000_000).map(|t| t.millionths()), Some(1_000_000));
    assert_eq!(Threshold::new(1_000_001), None);
    assert_eq!(Threshold::new(u32::MAX), None);
}

#[test]
fn default_threshold_is_one_half() {
    assert_eq!(DEFAULT_THRESHOLD, 500_000);
    assert_eq!(Threshold::default().millionths(), 500_000);
    assert_eq!(Threshold::default(), threshold(500_000));
}

#[test]
fn admits_compares_frame_to_record_length() {
    let half = threshold(500_000);
    assert!(half.admits(5, 10));
    assert!(half.admits(6, 10));
    assert!(!half.admits(4, 10));
    assert!(half.admits(11, 8));
    assert!(!half.admits(3, 8));
    assert!(half.admits(4, 8));
    let third = threshold(333_333);
    assert!(third.admits(1, 3));
    assert!(!third.admits(333_332, 1_000_000));
    assert!(third.admits(333_333, 1_000_000));
}

#[test]
fn admits_at_the_ends_of_the_range() {
    let zero = threshold(0);
    assert!(zero.admits(0, 10));
    assert!(zero.admits(1, usize::MAX));
    let one = threshold(1_000_000);
    assert!(one.admits(10, 10));
    assert!(!one.admits(9, 10));
    assert!(one.admits(usize::MAX, usize::MAX));
    assert!(!one.admits(usize::MAX - 1, usize::MAX));
}

#[test]
fn admits_an_empty_record() {
    assert!(threshold(1_000_000).admits(1, 0));
    assert!(threshold(1_000_000).admits(0, 0));
    assert!(threshold(500_000).admits(3, 0));
}

#[test]
fn first_record_is_sent_whole_and_admitted() {
    let mut encoder = DSSCEncoder::new(ChunkedCompressor {}, Threshold::default());
    assert_eq!(encoder.cache_len(), 0);
    let frame = encoder.encode(b"abcdefgh");
    assert_eq!(frame, vec![0u8, 0, 8, b'a', b'b', b'c', b'd', b'e', b'f', b'g', b'h']);
    assert_eq!(encoder.cache_len(), 1);
}

#[test]
fn well_compressed_record_is_not_admitted() {
    let mut encoder = DSSCEncoder::new(ChunkedCompressor {}, Threshold::default());
    encoder.encode(b"abcdefgh");
    let frame = encoder.encode(b"abcdefgh");
    assert_eq!(frame, vec![0u8, 1, 8]);
    assert_eq!(encoder.cache_len(), 1);
}

#[test]
fn poorly_compressed_record_is_admitted() {
    let mut encoder = DSSCEncoder::new(ChunkedCompressor {}, Threshold::default());
    encoder.encode(b"abcdefgh");
    // four of eight bytes are found: the frame has 8 bytes, as the record
    let frame = encoder.encode(b"abcdXYZW");
    assert_eq!(frame, vec![0u8, 1, 4, 0, 4, b'X', b'Y', b'Z', b'W']);
    assert_eq!(encoder.cache_len(), 2);
    let frame = encoder.encode(b"abcdXYZW");
    assert_eq!(frame, vec![1u8, 1, 8]);
    assert_eq!(encoder.cache_len(), 2);
}

#[test]
fn record_at_the_threshold_is_admitted() {
    // a frame of 3 bytes for a record of 8: admitted at 3/8, not above
    let mut encoder = DSSCEncoder::new(ChunkedCompressor {}, threshold(375_000));
    encoder.encode(b"abcdefgh");
    assert_eq!(encoder.encode(b"abcdefgh").len(), 3);
    assert_eq!(encoder.cache_len(), 2);
    let mut encoder = DSSCEncoder::new(ChunkedCompressor {}, threshold(375_001));
    encoder.encode(b"abcdefgh");
    assert_eq!(encoder.encode(b"abcdefgh").len(), 3);
    assert_eq!(encoder.cache_len(), 1);
}

#[test]
fn threshold_zero_admits_every_record() {
    let mut encoder = DSSCEncoder::new(ChunkedCompressor {}, threshold(0));
    for i in 0..10 {
        encoder.encode(b"the same line\n");
        assert_eq!(encoder.cache_len(), i + 1);
    }
}

#[test]
fn empty_record_is_admitted() {
    let mut encoder = DSSCEncoder::new(ChunkedCompressor {}, threshold(1_000_000));
    let mut decoder = DSSCDecoder::new(ChunkedCompressor {}, threshold(1_000_000));
    let frame = encoder.encode(b"");
    assert_eq!(frame, vec![0u8, 0, 0]);
    assert_eq!(encoder.cache_len(), 1);
    assert_eq!(decoder.decode(&frame), Ok(Vec::new()));
    assert_eq!(decoder.cache_len(), 1);
    let frame = encoder.encode(b"");
    assert_eq!(frame, vec![0u8]);
    assert_eq!(encoder.cache_len(), 2);
    assert_eq!(decoder.decode(&frame), Ok(Vec::new()));
    assert_eq!(decoder.cache_len(), 2);
}

#[test]
fn decoder_follows_the_encoder() {
    let lines: [&[u8]; 8] = [
        b"GET /index.html 200\n",
        b"GET /index.html 200\n",
        b"GET /about.html 200\n",
        b"POST /login user=alice 302\n",
        b"GET /index.html 404\n",
        b"POST /login user=bob 302\n",
        b"\n",
        b"GET /about.html 200\n",
    ];
    let mut encoder = DSSCEncoder::new(ChunkedCompressor {}, Threshold::default());
    let mut decoder = DSSCDecoder::new(ChunkedCompressor {}, Threshold::default());
    let admitted = [1, 1, 2, 3, 3, 3, 4, 4];
    for (line, after) in lines.iter().zip(admitted) {
        let frame = encoder.encode(line);
        assert_eq!(decoder.decode(&frame), Ok(line.to_vec()));
        assert_eq!(encoder.cache_len(), after);
        assert_eq!(decoder.cache_len(), after);
    }
}

#[test]
fn failed_decode_leaves_the_cache_as_it_was() {
    let mut decoder = DSSCDecoder::new(ChunkedCompressor {}, threshold(0));
    assert_eq!(decoder.decode(&[0, 0, 3, b'a', b'b', b'c']), Ok(b"abc".to_vec()));
    assert_eq!(decoder.cache_len(), 1);
    assert_eq!(decoder.decode(&[]), Err(DecodeError::FrameTooShort));
    assert_eq!(decoder.decode(&[1, 1, 1]), Err(DecodeError::HaystackIndexOutOfRange));
    assert_eq!(decoder.decode(&[0, 1, 9]), Err(DecodeError::FrameTooShort));
    assert_eq!(decoder.decode(&[0, 1]), Err(DecodeError::TruncatedVarint));
    assert_eq!(decoder.cache_len(), 1);
    assert_eq!(decoder.decode(&[0, 1, 3]), Ok(b"abc".to_vec()));
    assert_eq!(decoder.cache_len(), 2);
}

#[test]
fn full_cache_admits_no_more_on_either_side() {
    let mut encoder = DSSCEncoder::new(ChunkedCompressor {}, threshold(0));
    let mut decoder = DSSCDecoder::new(ChunkedCompressor {}, threshold(0));
    for i in 0..300u32 {
        let line = format!("line number {} of the stream\n", i * 7919);
        let frame = encoder.encode(line.as_bytes());
        assert_eq!(decoder.decode(&frame), Ok(line.into_bytes()));
        assert_eq!(decoder.cache_len(), encoder.cache_len());
        assert_eq!(encoder.cache_len(), std::cmp::min(i as usize + 1, 256));
    }
}
