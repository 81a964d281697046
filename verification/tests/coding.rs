use hutter::arith::{decode_weighted_bit, encode_weighted_bit, ArithmeticDecoder, ArithmeticEncoder, QUARTER};
use hutter::bits::{frame_header, read_frame};
use hutter::candidates::{candidates_fit, WeightedSymbol};
use hutter::error::CodecError;

#[test]
fn weighted_bits_roundtrip() {
    let bits = [0u8, 1, 1, 0, 1, 0, 0, 0, 1, 1, 1, 1, 0];
    let weights = [(1u32, 1u32), (3, 5), (16383, 1), (1, 16383), (100, 200)];
    let mut encoder = ArithmeticEncoder::new();
    for (i, &bit) in bits.iter().enumerate() {
        let (w0, w1) = weights[i % weights.len()];
        encode_weighted_bit(&mut encoder, bit, w0, w1).unwrap();
    }
    let payload = encoder.finish().unwrap();
    let mut decoder = ArithmeticDecoder::new(&payload);
    for (i, &bit) in bits.iter().enumerate() {
        let (w0, w1) = weights[i % weights.len()];
        assert_eq!(decode_weighted_bit(&mut decoder, w0, w1), Ok(bit));
    }
}

#[test]
fn weighted_bit_errors() {
    let mut encoder = ArithmeticEncoder::new();
    assert_eq!(encode_weighted_bit(&mut encoder, 2, 1, 1), Err(CodecError::BitOutOfRange));
    assert_eq!(encode_weighted_bit(&mut encoder, 0, 0, 5), Err(CodecError::InvalidFrequencies));
    let big = QUARTER as u32;
    assert_eq!(encode_weighted_bit(&mut encoder, 1, big, 1), Err(CodecError::InvalidFrequencies));
    let payload = [0u8; 8];
    let mut decoder = ArithmeticDecoder::new(&payload);
    assert_eq!(decode_weighted_bit(&mut decoder, 0, 0), Err(CodecError::InvalidFrequencies));
    assert_eq!(decode_weighted_bit(&mut decoder, big, 1), Err(CodecError::InvalidFrequencies));
    // A zero weight leaves only the other bit.
    assert_eq!(decode_weighted_bit(&mut decoder, 0, 7), Ok(1));
    assert_eq!(decode_weighted_bit(&mut decoder, 7, 0), Ok(0));
}

#[test]
fn frame_header_layout_and_parse() {
    let h = frame_header(*b"ABCD", 0x0102_0304_0506_0708);
    assert_eq!(h, vec![b'A', b'B', b'C', b'D', 8, 7, 6, 5, 4, 3, 2, 1]);
    let mut archive = h.clone();
    archive.extend_from_slice(&[9, 9]);
    assert_eq!(read_frame(&archive, *b"ABCD"), Ok((0x0102_0304_0506_0708, &[9u8, 9][..])));
    assert_eq!(read_frame(&archive, *b"ABCE"), Err(CodecError::InvalidMagic));
    assert_eq!(read_frame(b"ABC", *b"ABCD"), Err(CodecError::UnexpectedEof));
    assert_eq!(read_frame(b"ABCD\x01\x02", *b"ABCD"), Err(CodecError::UnexpectedEof));
}

#[test]
fn candidate_lists_the_coder_accepts() {
    let ok = [WeightedSymbol { symbol: 1, weight: 5 }, WeightedSymbol { symbol: 2, weight: 7 }];
    assert!(candidates_fit(&ok, 8));
    assert!(!candidates_fit(&ok, 0));
    let zero = [WeightedSymbol { symbol: 1, weight: 0 }];
    assert!(!candidates_fit(&zero, 8));
    let big = [WeightedSymbol { symbol: 1, weight: (QUARTER as u32) - 7 }];
    assert!(candidates_fit(&big, 7));
    assert!(!candidates_fit(&big, 8));
    assert!(candidates_fit(&[], 1));
}

#[test]
fn encoder_takes_totals_up_to_its_interval() {
    let total: u32 = 3_000_000_000;
    let mut encoder = ArithmeticEncoder::new();
    encoder.encode(1_000_000_000, 7, total).unwrap();
    encoder.encode(2, 3, 10).unwrap();
    assert_eq!(encoder.encode(0, 0, total), Err(CodecError::InvalidFrequencies));
    let payload = encoder.finish().unwrap();
    let mut decoder = ArithmeticDecoder::new(&payload);
    let t = decoder.target(total).unwrap();
    assert!((1_000_000_000..1_000_000_007).contains(&t));
    decoder.consume(1_000_000_000, 7, total).unwrap();
    let t = decoder.target(10).unwrap();
    assert!((2..5).contains(&t));
}
