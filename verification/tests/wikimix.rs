use hutter::error::CodecError;
use hutter::wikimix::{compress, decompress};

#[test]
fn wikimix_roundtrip_repeated_text() {
    let input = b"<page><title>banana</title>[[Category:Fruit]] banana banana</page>";
    let compressed = compress(&input[..]).unwrap();
    let restored = decompress(&compressed[..]).unwrap();
    assert_eq!(restored, input);
}

#[test]
fn wikimix_roundtrip_binary() {
    let input: Vec<u8> = (0..=255).cycle().take(4096).collect();
    let compressed = compress(&input[..]).unwrap();
    let restored = decompress(&compressed[..]).unwrap();
    assert_eq!(restored, input);
}

#[test]
fn wikimix_empty_and_errors() {
    let compressed = compress(b"").unwrap();
    assert_eq!(&compressed[..4], b"WMX5");
    assert_eq!(&compressed[4..12], &0u64.to_le_bytes());
    assert_eq!(decompress(&compressed).unwrap(), Vec::<u8>::new());
    assert_eq!(decompress(b"WM"), Err(CodecError::UnexpectedEof));
    assert_eq!(decompress(b"PPMD\x00\x00\x00\x00\x00\x00\x00\x00"), Err(CodecError::InvalidMagic));
    assert_eq!(decompress(b"WMX5\x00"), Err(CodecError::UnexpectedEof));
}
