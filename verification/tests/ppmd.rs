use hutter::error::CodecError;
use hutter::ppmd::{compress, decompress};

#[test]
fn ppmd_roundtrip_text() {
    roundtrip(b"banana bandana banana bandana banana bandana");
}

#[test]
fn ppmd_roundtrip_binary() {
    let input: Vec<u8> = (0..=255).cycle().take(4096).collect();
    roundtrip(&input);
}

#[test]
fn ppmd_roundtrip_empty() {
    roundtrip(b"");
}

#[test]
fn ppmd_header_and_errors() {
    let compressed = compress(b"hello").unwrap();
    assert_eq!(&compressed[..4], b"PPMD");
    assert_eq!(&compressed[4..12], &5u64.to_le_bytes());
    assert_eq!(decompress(b"PPM"), Err(CodecError::UnexpectedEof));
    assert_eq!(decompress(b"PP13\x00\x00\x00\x00\x00\x00\x00\x00"), Err(CodecError::InvalidMagic));
}

fn roundtrip(input: &[u8]) {
    let compressed = compress(input).unwrap();
    let restored = decompress(&compressed[..]).unwrap();
    assert_eq!(restored, input);
}
