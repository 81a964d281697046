use hutter::arith::{ArithmeticDecoder, ArithmeticEncoder, decode_weighted_bit, encode_weighted_bit};
use hutter::bits::{frame_header, read_frame, ByteBits, ByteCollector};
use hutter::error::CodecError;
use hutter::hybrid_ppm::{OrderCounts, BIT_MAX_ORDER, BYTE_MAX_ORDER};
use hutter::ppm_match_mix::{magic, HybridModel, HybridPredictions, ModelConfig};

#[test]
fn ppm_match_mix_roundtrip_text() {
    roundtrip(b"banana bandana banana bandana");
}

#[test]
fn ppm_match_mix_roundtrip_binary() {
    let input: Vec<u8> = (0..=255).cycle().take(4096).collect();
    roundtrip(&input);
}

#[test]
fn ppm_match_mix_roundtrip_empty() {
    roundtrip(b"");
}

fn roundtrip(input: &[u8]) {
    let compressed = compress(input).unwrap();
    let restored = decompress(&compressed[..]).unwrap();
    assert_eq!(restored, input);
}

// The codec's floating-point driver, as the program runs it.

const MIX_LEARNING_RATE: f64 = 0.2;

fn match_initial_weight() -> f64 {
    2.4
}

fn match_p1(predictions: &HybridPredictions) -> Option<f64> {
    predictions.match_counts.map(|(zeros, ones)| counts_probability(zeros, ones))
}

struct HybridMixer {
    bit_weights: Vec<[f64; 8]>,
    byte_weights: Vec<[f64; 8]>,
    match_weight: [f64; 8],
    bit_position: usize,
}

impl HybridMixer {
    fn new(bit_max_order: usize, byte_max_order: usize) -> Self {
        Self {
            bit_weights: (0..=bit_max_order).map(|order| [bit_initial_weight(order); 8]).collect(),
            byte_weights: (0..=byte_max_order).map(|order| [byte_initial_weight(order); 8]).collect(),
            match_weight: [match_initial_weight(); 8],
            bit_position: 0,
        }
    }

    fn mixed_probability(&self, predictions: &HybridPredictions) -> f64 {
        let bp = self.bit_position;
        let mut logit_sum = 0.0;
        let mut any_context = false;
        for prediction in &predictions.bit {
            if let Some(p1) = order_p1(prediction) {
                logit_sum += self.bit_weights[prediction.order][bp] * stretch(p1);
                any_context = true;
            }
        }
        for prediction in &predictions.byte {
            if let Some(p1) = order_p1(prediction) {
                logit_sum += self.byte_weights[prediction.order][bp] * stretch(p1);
                any_context = true;
            }
        }
        if let Some(p1) = match_p1(predictions) {
            logit_sum += self.match_weight[bp] * stretch(p1);
            any_context = true;
        }
        if !any_context {
            0.5
        } else {
            squash(logit_sum)
        }
    }

    fn observe(&mut self, bit: u8, predictions: &HybridPredictions) {
        let bp = self.bit_position;
        let error = f64::from(bit) - self.mixed_probability(predictions);
        for prediction in &predictions.bit {
            if let Some(p1) = order_p1(prediction) {
                let weight = &mut self.bit_weights[prediction.order][bp];
                *weight = (*weight + MIX_LEARNING_RATE * error * stretch(p1)).clamp(-6.0, 6.0);
            }
        }
        for prediction in &predictions.byte {
            if let Some(p1) = order_p1(prediction) {
                let weight = &mut self.byte_weights[prediction.order][bp];
                *weight = (*weight + MIX_LEARNING_RATE * error * stretch(p1)).clamp(-6.0, 6.0);
            }
        }
        if let Some(p1) = match_p1(predictions) {
            let weight = &mut self.match_weight[bp];
            *weight = (*weight + MIX_LEARNING_RATE * error * stretch(p1)).clamp(-6.0, 6.0);
        }
        self.bit_position = (self.bit_position + 1) % 8;
    }
}

struct Mixed {
    model: HybridModel,
    mixer: HybridMixer,
}

impl Mixed {
    fn new(config: ModelConfig) -> Self {
        Self {
            model: HybridModel::new(BIT_MAX_ORDER, BYTE_MAX_ORDER, config),
            mixer: HybridMixer::new(BIT_MAX_ORDER, BYTE_MAX_ORDER),
        }
    }

    fn observe(&mut self, bit: u8, predictions: &HybridPredictions) {
        self.mixer.observe(bit, predictions);
        self.model.observe_bit(bit);
    }
}

fn compress_with_config(data: &[u8], magic: [u8; 4], config: ModelConfig) -> Result<Vec<u8>, CodecError> {
    let mut out = header(magic, data.len());
    let mut model = Mixed::new(config);
    let mut encoder = ArithmeticEncoder::new();
    for &byte in data {
        let mut bits = ByteBits::new(byte);
        while let Some(bit) = bits.next() {
            let predictions = model.model.predictions();
            encode_probability(bit, model.mixer.mixed_probability(&predictions), &mut encoder)?;
            model.observe(bit, &predictions);
        }
    }
    out.extend_from_slice(&encoder.finish()?);
    Ok(out)
}

fn decode_bits(payload: &[u8], size: usize, config: ModelConfig) -> Result<Vec<u8>, CodecError> {
    let mut model = Mixed::new(config);
    let mut decoder = ArithmeticDecoder::new(payload);
    let mut restored = ByteCollector::with_capacity(size);
    while restored.len() < size {
        let predictions = model.model.predictions();
        let bit = decode_probability(model.mixer.mixed_probability(&predictions), &mut decoder)?;
        restored.push(bit)?;
        model.observe(bit, &predictions);
    }
    restored.finish()
}

fn all_models() -> ModelConfig {
    ModelConfig::new(true, true, true)
}

fn compress(data: &[u8]) -> Result<Vec<u8>, CodecError> {
    compress_with_config(data, magic(), all_models())
}

fn decompress(archive: &[u8]) -> Result<Vec<u8>, CodecError> {
    let (size, payload) = read_header(archive, magic())?;
    decode_bits(payload, size, all_models())
}

fn bit_initial_weight(order: usize) -> f64 {
    match order {
        0 => 0.2,
        1..=8 => 0.2 + (order as f64 * 0.11),
        9..=16 => 1.08 + ((order - 8) as f64 * 0.08),
        17..=32 => 1.72 + ((order - 16) as f64 * 0.045),
        _ => 2.44 + ((order - 32) as f64 * 0.02),
    }
}

fn byte_initial_weight(order: usize) -> f64 {
    match order {
        0 => 0.2,
        1 => 0.4,
        2 => 0.7,
        3 => 1.0,
        4 => 1.3,
        5 => 1.7,
        _ => 2.0,
    }
}

fn order_p1(prediction: &OrderCounts) -> Option<f64> {
    prediction.counts.map(|(zeros, ones)| counts_probability(u64::from(zeros), u64::from(ones)))
}

fn stretch(p: f64) -> f64 {
    let p = p.clamp(0.001, 0.999);
    (p / (1.0 - p)).ln()
}

fn squash(logit: f64) -> f64 {
    1.0 / (1.0 + (-logit).exp())
}

/// Laplace-smoothed probability of a one from zero and one counts.
fn counts_probability(zeros: u64, ones: u64) -> f64 {
    (ones as f64 + 0.5) / ((zeros + ones) as f64 + 1.0)
}

/// The zero and one frequencies for a probability of a one.
fn bit_weights(p1: f64) -> (u32, u32) {
    let scale = 16384.0;
    let p1 = p1.clamp(1.0 / scale, 1.0 - (1.0 / scale));
    let w1 = (p1 * scale).round().max(1.0) as u32;
    let w0 = ((1.0 - p1) * scale).round().max(1.0) as u32;
    (w0, w1)
}


fn encode_probability(bit: u8, p1: f64, encoder: &mut ArithmeticEncoder) -> Result<(), CodecError> {
    let (w0, w1) = bit_weights(p1);
    encode_weighted_bit(encoder, bit, w0, w1)
}

fn decode_probability(p1: f64, decoder: &mut ArithmeticDecoder<'_>) -> Result<u8, CodecError> {
    let (w0, w1) = bit_weights(p1);
    decode_weighted_bit(decoder, w0, w1)
}

/// The tag and the length as eight little-endian bytes.
fn header(magic: [u8; 4], len: usize) -> Vec<u8> {
    frame_header(magic, len as u64)
}

/// Checks the tag and returns the stored length and the payload.
fn read_header(archive: &[u8], magic: [u8; 4]) -> Result<(usize, &[u8]), CodecError> {
    let (size, payload) = read_frame(archive, magic)?;
    Ok((size as usize, payload))
}
