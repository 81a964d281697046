use hutter::arith::{ArithmeticDecoder, ArithmeticEncoder};
use hutter::bits::{frame_header, read_frame, ByteBits, ByteCollector};
use hutter::candidates::{candidates_fit, WeightedSymbol};
use hutter::error::CodecError;
use hutter::ppm::{
    compress_order16, compress_order32, compress_order64, compress_order8, decode_mixed_symbol,
    decompress_order16, decompress_order32, decompress_order64, decompress_order8, encode_mixed_symbol, magic_mix,
    BitHistory, Model, OrderPrediction, MAX_ORDER, MIX_ESCAPE_FREQ,
};

#[test]
fn roundtrip_repeated_text_all_orders() {
    let input = b"banana bandana banana bandana banana bandana";
    roundtrip_mix(input);
    roundtrip_order8(input);
    roundtrip_order16(input);
    roundtrip_order32(input);
    roundtrip_order64(input);
}

#[test]
fn roundtrip_binary_all_orders() {
    let input: Vec<u8> = (0..=255).cycle().take(4096).collect();
    roundtrip_mix(&input);
    roundtrip_order8(&input);
    roundtrip_order16(&input);
    roundtrip_order32(&input);
    roundtrip_order64(&input);
}

#[test]
fn roundtrip_empty_input() {
    roundtrip_order8(b"");
    roundtrip_mix(b"");
}

#[test]
fn order64_produces_distinct_archive_from_order32() {
    let mut input = Vec::new();
    for _ in 0..1024 {
        input.extend_from_slice(&[0x55, 0x54, 0x55, 0x57]);
    }
    let compressed32 = compress_order32(&input[..]).unwrap();
    let compressed64 = compress_order64(&input[..]).unwrap();
    assert_ne!(compressed64, compressed32);
}

#[test]
fn bit_ppm_archive_header_and_errors() {
    let compressed = compress_order16(b"xy").unwrap();
    assert_eq!(&compressed[..4], b"PB16");
    assert_eq!(&compressed[4..12], &2u64.to_le_bytes());
    assert_eq!(decompress_order8(&compressed), Err(CodecError::InvalidMagic));
    assert_eq!(decompress_order16(b"PB"), Err(CodecError::UnexpectedEof));
}

fn roundtrip_order8(input: &[u8]) {
    let compressed = compress_order8(input).unwrap();
    assert_eq!(decompress_order8(&compressed[..]).unwrap(), input);
}

fn roundtrip_order16(input: &[u8]) {
    let compressed = compress_order16(input).unwrap();
    assert_eq!(decompress_order16(&compressed[..]).unwrap(), input);
}

fn roundtrip_order32(input: &[u8]) {
    let compressed = compress_order32(input).unwrap();
    assert_eq!(decompress_order32(&compressed[..]).unwrap(), input);
}

fn roundtrip_order64(input: &[u8]) {
    let compressed = compress_order64(input).unwrap();
    assert_eq!(decompress_order64(&compressed[..]).unwrap(), input);
}

fn roundtrip_mix(input: &[u8]) {
    let compressed = compress_mix(input).unwrap();
    assert_eq!(&compressed[..4], b"PBMX");
    assert_eq!(decompress_mix(&compressed[..]).unwrap(), input);
}

// The mixing codec's floating-point driver, as the program runs it.

fn stretch(p: f64) -> f64 {
    let p = p.clamp(0.001, 0.999);
    (p / (1.0 - p)).ln()
}

fn squash(logit: f64) -> f64 {
    1.0 / (1.0 + (-logit).exp())
}

fn header(magic: [u8; 4], len: usize) -> Vec<u8> {
    frame_header(magic, len as u64)
}

fn read_header(archive: &[u8], magic: [u8; 4]) -> Result<(usize, &[u8]), CodecError> {
    let (size, payload) = read_frame(archive, magic)?;
    Ok((size as usize, payload))
}

const MIX_LEARNING_RATE: f64 = 0.3;

fn initial_mix_weight(order: usize) -> f64 {
    match order {
        0 => 0.3,
        1..=8 => 0.3 + (order as f64 * 0.12),
        9..=16 => 1.3 + ((order - 8) as f64 * 0.09),
        17..=32 => 2.1 + ((order - 16) as f64 * 0.05),
        _ => 2.9 + ((order - 32) as f64 * 0.025),
    }
}

struct OrderMixer {
    weights: Vec<[f64; 8]>,
    bit_position: usize,
}

impl OrderMixer {
    fn new(max_order: usize) -> Self {
        let weights = (0..=max_order).map(|order| [initial_mix_weight(order); 8]).collect();
        Self { weights, bit_position: 0 }
    }

    fn combine(&self, predictions: &[OrderPrediction]) -> Vec<WeightedSymbol> {
        let mixed_p1 = self.mixed_probability(predictions);
        let scale = 16384.0;
        let w0 = ((1.0 - mixed_p1) * scale).round().max(1.0) as u32;
        let w1 = (mixed_p1 * scale).round().max(1.0) as u32;
        vec![WeightedSymbol { symbol: 0, weight: w0 }, WeightedSymbol { symbol: 1, weight: w1 }]
    }

    fn observe(&mut self, symbol: u8, predictions: &[OrderPrediction]) {
        let bp = self.bit_position;
        let mixed_p1 = self.mixed_probability(predictions);
        let error = f64::from(symbol) - mixed_p1;
        for prediction in predictions {
            if let Some(p1) = order_probability(prediction) {
                self.weights[prediction.order][bp] += MIX_LEARNING_RATE * error * stretch(p1);
            }
        }
        self.bit_position = (self.bit_position + 1) % 8;
    }

    fn mixed_probability(&self, predictions: &[OrderPrediction]) -> f64 {
        let bp = self.bit_position;
        let mut logit_sum = 0.0;
        let mut any_context = false;
        for prediction in predictions {
            if let Some(p1) = order_probability(prediction) {
                logit_sum += self.weights[prediction.order][bp] * stretch(p1);
                any_context = true;
            }
        }
        if !any_context {
            return 0.5;
        }
        squash(logit_sum)
    }
}

fn order_probability(prediction: &OrderPrediction) -> Option<f64> {
    if prediction.symbols.is_empty() {
        return None;
    }
    let mut count0 = 0u32;
    let mut count1 = 0u32;
    for &(symbol, count) in &prediction.symbols {
        match symbol {
            0 => count0 = count,
            _ => count1 = count,
        }
    }
    let total = count0 + count1;
    if total == 0 {
        return None;
    }
    Some((count1 as f64 + 0.5) / (total as f64 + 1.0))
}

struct MixedModel {
    model: Model,
    mixer: OrderMixer,
    max_order: usize,
}

impl MixedModel {
    fn new(max_order: usize) -> Self {
        Self { model: Model::new(), mixer: OrderMixer::new(max_order), max_order }
    }

    fn candidates(&self, history: &BitHistory) -> Result<Vec<WeightedSymbol>, CodecError> {
        let candidates = self.mixer.combine(&self.model.predictions(history, self.max_order));
        if candidates_fit(&candidates, MIX_ESCAPE_FREQ) {
            Ok(candidates)
        } else {
            Err(CodecError::InvalidFrequencies)
        }
    }

    fn observe(&mut self, bit: u8, history: &BitHistory) {
        let predictions = self.model.predictions(history, self.max_order);
        self.mixer.observe(bit, &predictions);
        self.model.observe(bit, history, self.max_order);
    }
}

fn compress_mix(data: &[u8]) -> Result<Vec<u8>, CodecError> {
    let mut out = header(magic_mix(), data.len());
    let mut model = MixedModel::new(MAX_ORDER);
    let mut encoder = ArithmeticEncoder::new();
    let mut history = BitHistory::new(MAX_ORDER);
    for &byte in data {
        let mut bits = ByteBits::new(byte);
        while let Some(bit) = bits.next() {
            let candidates = model.candidates(&history)?;
            encode_mixed_symbol(bit, &candidates, &mut encoder)?;
            model.observe(bit, &history);
            history.push(bit);
        }
    }
    out.extend_from_slice(&encoder.finish()?);
    Ok(out)
}

fn decompress_mix(archive: &[u8]) -> Result<Vec<u8>, CodecError> {
    let (size, payload) = read_header(archive, magic_mix())?;
    let mut model = MixedModel::new(MAX_ORDER);
    let mut decoder = ArithmeticDecoder::new(payload);
    let mut history = BitHistory::new(MAX_ORDER);
    let mut restored = ByteCollector::with_capacity(size);
    while restored.len() < size {
        let candidates = model.candidates(&history)?;
        let bit = decode_mixed_symbol(&candidates, &mut decoder)?;
        restored.push(bit)?;
        model.observe(bit, &history);
        history.push(bit);
    }
    restored.finish()
}
