use hutter::arith::{ArithmeticDecoder, ArithmeticEncoder, decode_weighted_bit, encode_weighted_bit};
use hutter::bits::{frame_header, read_frame, ByteBits, ByteCollector};
use hutter::error::CodecError;
use hutter::ppmd_bit::{magic, BitModel};

#[test]
fn ppmd_bit_roundtrip_text() {
    roundtrip(b"banana bandana banana bandana banana bandana");
}

#[test]
fn ppmd_bit_roundtrip_binary() {
    let input: Vec<u8> = (0..=255).cycle().take(4096).collect();
    roundtrip(&input);
}

#[test]
fn ppmd_bit_roundtrip_empty() {
    roundtrip(b"");
}

fn roundtrip(input: &[u8]) {
    let compressed = compress(input).unwrap();
    let restored = decompress(&compressed[..]).unwrap();
    assert_eq!(restored, input);
}

// The codec's floating-point driver, as the program runs it.

fn bit_probability(model: &BitModel) -> f64 {
    let (count0, count1) = model.bit_counts();
    let total = u64::from(count0) + u64::from(count1);
    if total == 0 {
        0.5
    } else {
        (f64::from(count1) + 0.5) / (total as f64 + 1.0)
    }
}

fn compress(data: &[u8]) -> Result<Vec<u8>, CodecError> {
    let mut out = header(magic(), data.len());
    let mut model = BitModel::new();
    let mut encoder = ArithmeticEncoder::new();
    for &byte in data {
        let mut bits = ByteBits::new(byte);
        while let Some(bit) = bits.next() {
            encode_probability(bit, bit_probability(&model), &mut encoder)?;
            model.observe_bit(bit);
        }
    }
    out.extend_from_slice(&encoder.finish()?);
    Ok(out)
}

fn decompress(archive: &[u8]) -> Result<Vec<u8>, CodecError> {
    let (size, payload) = read_header(archive, magic())?;
    let mut model = BitModel::new();
    let mut decoder = ArithmeticDecoder::new(payload);
    let mut restored = ByteCollector::with_capacity(size);
    while restored.len() < size {
        let bit = decode_probability(bit_probability(&model), &mut decoder)?;
        restored.push(bit)?;
        model.observe_bit(bit);
    }
    restored.finish()
}

fn stretch(p: f64) -> f64 {
    let p = p.clamp(0.001, 0.999);
    (p / (1.0 - p)).ln()
}

fn squash(logit: f64) -> f64 {
    1.0 / (1.0 + (-logit).exp())
}

/// Laplace-smoothed probability of a one from zero and one counts.
fn counts_probability(zeros: u64, ones: u64) -> f64 {
    (ones as f64 + 0.5) / ((zeros + ones) as f64 + 1.0)
}

/// The zero and one frequencies for a probability of a one.
fn bit_weights(p1: f64) -> (u32, u32) {
    let scale = 16384.0;
    let p1 = p1.clamp(1.0 / scale, 1.0 - (1.0 / scale));
    let w1 = (p1 * scale).round().max(1.0) as u32;
    let w0 = ((1.0 - p1) * scale).round().max(1.0) as u32;
    (w0, w1)
}


fn encode_probability(bit: u8, p1: f64, encoder: &mut ArithmeticEncoder) -> Result<(), CodecError> {
    let (w0, w1) = bit_weights(p1);
    encode_weighted_bit(encoder, bit, w0, w1)
}

fn decode_probability(p1: f64, decoder: &mut ArithmeticDecoder<'_>) -> Result<u8, CodecError> {
    let (w0, w1) = bit_weights(p1);
    decode_weighted_bit(decoder, w0, w1)
}

/// The tag and the length as eight little-endian bytes.
fn header(magic: [u8; 4], len: usize) -> Vec<u8> {
    frame_header(magic, len as u64)
}

/// Checks the tag and returns the stored length and the payload.
fn read_header(archive: &[u8], magic: [u8; 4]) -> Result<(usize, &[u8]), CodecError> {
    let (size, payload) = read_frame(archive, magic)?;
    Ok((size as usize, payload))
}
