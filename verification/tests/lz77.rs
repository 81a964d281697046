use hutter::error::CodecError;
use hutter::lz77::{compress, decompress};

#[test]
fn lz77_roundtrip_repeated_text() {
    let input = b"banana bandana banana bandana banana bandana";
    let compressed = compress(&input[..]);
    let restored = decompress(&compressed[..]).unwrap();
    assert_eq!(restored, input);
}

#[test]
fn lz77_roundtrip_binary() {
    let input: Vec<u8> = (0..=255).cycle().take(2048).collect();
    let compressed = compress(&input[..]);
    let restored = decompress(&compressed[..]).unwrap();
    assert_eq!(restored, input);
}

#[test]
fn lz77_repetition_shrinks() {
    let input = vec![7u8; 1000];
    let compressed = compress(&input);
    assert!(compressed.len() < 100);
    assert_eq!(&compressed[..4], b"LZ77");
    assert_eq!(decompress(&compressed).unwrap(), input);
}

#[test]
fn lz77_rejects_bad_archives() {
    assert_eq!(decompress(b"LZ"), Err(CodecError::UnexpectedEof));
    assert_eq!(decompress(b"AHF1\x00\x00\x00\x00\x00\x00\x00\x00"), Err(CodecError::InvalidMagic));
    assert_eq!(decompress(b"LZ77\x01\x00"), Err(CodecError::UnexpectedEof));
}
