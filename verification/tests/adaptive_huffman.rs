use hutter::adaptive_huffman::{compress, decompress, encode_block};
use hutter::error::CodecError;

/// Restores `archive` into a fresh output, keeping it only on success.
fn restore(archive: &[u8]) -> Result<Vec<u8>, CodecError> {
    let mut out = Vec::new();
    decompress(archive, &mut out)?;
    Ok(out)
}

#[test]
fn roundtrip_small_text() {
    let input = b"banana bandana banana bandana";
    let compressed = compress(&input[..]).unwrap();
    let restored = restore(&compressed[..]).unwrap();
    assert_eq!(restored, input);
}

#[test]
fn adaptive_huffman_roundtrip_binary() {
    let input: Vec<u8> = (0..=255).chain(0..=255).collect();
    let compressed = compress(&input[..]).unwrap();
    let restored = restore(&compressed[..]).unwrap();
    assert_eq!(restored, input);
}

#[test]
fn adaptive_huffman_roundtrip_empty() {
    let compressed = compress(b"").unwrap();
    assert_eq!(&compressed[..4], b"AHF1");
    assert_eq!(restore(&compressed).unwrap(), Vec::<u8>::new());
}

#[test]
fn adaptive_huffman_rejects_short_and_foreign_archives() {
    assert_eq!(restore(b"AH"), Err(CodecError::UnexpectedEof));
    assert_eq!(restore(b"LZ77xxxxxxxxxxxxxxxx"), Err(CodecError::InvalidMagic));
    assert_eq!(restore(b"AHF1\x00"), Err(CodecError::UnexpectedEof));
    assert_eq!(restore(b"AHF1\x00\x00\x00\x00\x00\x00\x00\x00\x00\x00\x00\x00"), Err(CodecError::InvalidBlockSize));
}

#[test]
fn adaptive_huffman_code_depends_on_previous_byte() {
    let mut freqs = vec![1u32; 65536];
    freqs[256 * (b'a' as usize) + (b'b' as usize)] = 100_000;
    let ab = b"abababababababab";
    let cb = b"cbcbcbcbcbcbcbcb";
    let after_a = encode_block(ab, 0, ab.len(), &freqs).unwrap();
    let after_c = encode_block(cb, 0, cb.len(), &freqs).unwrap();
    // After `a`, `b` is by far the likeliest byte and gets a one-bit code;
    // after `c` every byte is as likely, and `b` takes eight bits.
    assert!(after_a.len() < after_c.len());
}

#[test]
fn adaptive_huffman_roundtrip_two_blocks() {
    let input: Vec<u8> = (0..70_000u32).map(|i| (i % 251) as u8 ^ (i / 1000) as u8).collect();
    let compressed = compress(&input).unwrap();
    assert_eq!(restore(&compressed).unwrap(), input);
}

#[test]
fn adaptive_huffman_keeps_complete_blocks_on_error() {
    let input: Vec<u8> = (0..70_000u32).map(|i| (i % 7) as u8).collect();
    let mut compressed = compress(&input).unwrap();
    // The second block's header follows the first block's payload.
    let first_payload = u32::from_le_bytes([compressed[20], compressed[21], compressed[22], compressed[23]]) as usize;
    let second = 16 + 8 + first_payload;
    compressed[second..second + 4].copy_from_slice(&0u32.to_le_bytes());
    let mut out = b"old".to_vec();
    assert_eq!(decompress(&compressed, &mut out), Err(CodecError::InvalidBlockLength));
    assert_eq!(&out[..3], b"old");
    assert_eq!(&out[3..], &input[..65536]);
    assert_eq!(restore(&compressed), Err(CodecError::InvalidBlockLength));
}
