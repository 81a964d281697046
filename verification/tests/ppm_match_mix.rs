use hutter::error::CodecError;
use hutter::ppm_match_mix::{compress_match_only, decompress_match_only, HybridModel, MatchModel, ModelConfig};

#[test]
fn roundtrip_match_only_text() {
    roundtrip_match_only(b"banana bandana banana bandana");
}

#[test]
fn match_model_predicts_repeated_continuation() {
    let mut model = MatchModel::new(1 << 15, 4, 8);
    for &byte in b"banana bandana banana bandan" {
        model.observe(byte);
    }
    let (zeros, ones) = model.bit_counts(0, 0).unwrap();
    let p1 = (ones as f64 + 0.5) / ((zeros + ones) as f64 + 1.0);
    assert!(p1 > 0.0 && p1 < 1.0);
}

#[test]
fn match_only_binary_and_empty() {
    let input: Vec<u8> = (0..=255).cycle().take(4096).collect();
    roundtrip_match_only(&input);
    roundtrip_match_only(b"");
}

#[test]
fn match_only_archive_layout_and_errors() {
    let compressed = compress_match_only(b"abcabcabc").unwrap();
    assert_eq!(&compressed[..4], b"PMAT");
    assert_eq!(&compressed[4..12], &9u64.to_le_bytes());
    assert_eq!(&compressed[12..16], b"MBY1");
    assert_eq!(decompress_match_only(b"PM"), Err(CodecError::UnexpectedEof));
    assert_eq!(decompress_match_only(b"PMM2\x00\x00\x00\x00\x00\x00\x00\x00"), Err(CodecError::InvalidMagic));
    assert_eq!(decompress_match_only(b"PMAT\x01\x00\x00\x00\x00\x00\x00\x00OLD!"), Err(CodecError::LegacyFormat));
}

#[test]
fn match_model_predicts_after_a_repeat() {
    let mut model = MatchModel::new(1 << 15, 4, 8);
    for &byte in b"abcdefabcde" {
        model.observe(byte);
    }
    // "bcde" was seen before followed by "f".
    let symbols = model.symbols();
    assert_eq!(symbols.len(), 1);
    assert_eq!(symbols[0].symbol, b'f');
    let candidates = model.candidates();
    assert_eq!(candidates.len(), 1);
    assert_eq!(model.predicted_total(), symbols[0].weight);
    assert!(model.bit_counts(0, 0).is_some());
}

fn roundtrip_match_only(input: &[u8]) {
    let compressed = compress_match_only(input).unwrap();
    let restored = decompress_match_only(&compressed[..]).unwrap();
    assert_eq!(restored, input);
}

#[test]
fn match_model_is_silent_before_a_full_key() {
    let mut model = MatchModel::new(1 << 15, 4, 8);
    for &byte in b"aaa" {
        model.observe(byte);
        assert!(model.candidates().is_empty());
        assert!(model.symbols().is_empty());
    }
    for &byte in b"aaaaaaaaaaaaaaaaaaaaaaaaaaaaaaaaaaa" {
        model.observe(byte);
        assert!(model.candidates().len() <= 8);
        assert!(model.symbols().len() <= 1);
        assert!(model.candidates().iter().all(|c| c.symbol == b'a' && c.weight >= 1));
    }
}

#[test]
fn hybrid_predictions_grow_with_the_history() {
    let mut model = HybridModel::new(64, 6, ModelConfig::new(true, true, false));
    let bits: Vec<u8> = b"hello, hello"
        .iter()
        .flat_map(|&b| (0..8).rev().map(move |i| (b >> i) & 1))
        .collect();
    for (k, &bit) in bits.iter().enumerate() {
        let r = model.predictions();
        assert_eq!(r.bit.len(), 1 + k.min(64));
        assert_eq!(r.byte.len(), 1 + (k / 8).min(6));
        assert!(r.bit.iter().enumerate().all(|(i, p)| p.order == i));
        assert!(r.byte.iter().enumerate().all(|(i, p)| p.order == i));
        assert!(r.match_counts.is_none());
        model.observe_bit(bit);
    }
}
