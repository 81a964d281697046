use hutter::arith::{ArithmeticDecoder, ArithmeticEncoder, decode_weighted_bit, encode_weighted_bit};
use hutter::bits::{frame_header, read_frame, ByteBits, ByteCollector};
use hutter::context::{byte_matches_prefix, next_bit};
use hutter::error::CodecError;
use hutter::hybrid_ppm::OrderCounts;
use hutter::ppmd_mix::{magic, HybridModel, Plan, BIT_MAX_ORDER, BYTE_MAX_ORDER};

#[test]
fn ppmd_mix_roundtrip_text() {
    roundtrip(b"banana bandana banana bandana");
}

#[test]
fn ppmd_mix_roundtrip_binary() {
    let input: Vec<u8> = (0..=255).cycle().take(4096).collect();
    roundtrip(&input);
}

fn roundtrip(input: &[u8]) {
    let compressed = compress(input).unwrap();
    let restored = decompress(&compressed[..]).unwrap();
    assert_eq!(restored, input);
}

// The codec's floating-point driver, as the program runs it.

const MIX_LEARNING_RATE: f64 = 0.2;

struct Predictions {
    bit: Vec<OrderCounts>,
    ppmd_p1: Option<f64>,
}

/// The PPMD distribution over bytes: each level takes its counts' share of
/// the mass still left and passes on its escape's share; what is left at
/// the end goes evenly to the unseen bytes.  (The mass left never reaches
/// zero: it is a product of at most seven positive escape shares.)
fn distribution(plan: &Plan) -> [f64; 256] {
    let mut distribution = [0.0; 256];
    let mut remaining_mass = 1.0;
    for level in &plan.levels {
        if remaining_mass <= 0.0 {
            continue;
        }
        let total = f64::from(level.total);
        for entry in &level.symbols {
            distribution[entry.symbol as usize] += remaining_mass * (f64::from(entry.weight) / total);
        }
        remaining_mass *= f64::from(level.escape) / total;
    }
    if !plan.unseen.is_empty() && remaining_mass > 0.0 {
        let share = remaining_mass / plan.unseen.len() as f64;
        for &symbol in &plan.unseen {
            distribution[symbol as usize] += share;
        }
    }
    distribution
}

fn distribution_bit_probability(distribution: &[f64; 256], prefix: u8, used_bits: u8) -> Option<f64> {
    let mut count0 = 0.0;
    let mut count1 = 0.0;
    for symbol in 0..=u8::MAX {
        let weight = distribution[symbol as usize];
        if weight == 0.0 || !byte_matches_prefix(symbol, prefix, used_bits) {
            continue;
        }
        if next_bit(symbol, used_bits) == 0 {
            count0 += weight;
        } else {
            count1 += weight;
        }
    }
    let total = count0 + count1;
    if total == 0.0 {
        None
    } else {
        Some((count1 + 1e-9) / (total + 2e-9))
    }
}

struct HybridMixer {
    bit_weights: Vec<[f64; 8]>,
    ppmd_weight: [f64; 8],
    bit_position: usize,
}

impl HybridMixer {
    fn new(bit_max_order: usize) -> Self {
        Self {
            bit_weights: (0..=bit_max_order).map(|order| [bit_initial_weight(order); 8]).collect(),
            ppmd_weight: [2.4; 8],
            bit_position: 0,
        }
    }

    fn mixed_probability(&self, predictions: &Predictions) -> f64 {
        let bp = self.bit_position;
        let mut logit_sum = 0.0;
        let mut any = false;
        for prediction in &predictions.bit {
            if let Some(p1) = order_p1(prediction) {
                logit_sum += self.bit_weights[prediction.order][bp] * stretch(p1);
                any = true;
            }
        }
        if let Some(p1) = predictions.ppmd_p1 {
            logit_sum += self.ppmd_weight[bp] * stretch(p1);
            any = true;
        }
        if any {
            squash(logit_sum)
        } else {
            0.5
        }
    }

    fn observe(&mut self, bit: u8, predictions: &Predictions) {
        let bp = self.bit_position;
        let error = f64::from(bit) - self.mixed_probability(predictions);
        for prediction in &predictions.bit {
            if let Some(p1) = order_p1(prediction) {
                let weight = &mut self.bit_weights[prediction.order][bp];
                *weight = (*weight + MIX_LEARNING_RATE * error * stretch(p1)).clamp(-6.0, 6.0);
            }
        }
        if let Some(p1) = predictions.ppmd_p1 {
            let weight = &mut self.ppmd_weight[bp];
            *weight = (*weight + MIX_LEARNING_RATE * error * stretch(p1)).clamp(-6.0, 6.0);
        }
        self.bit_position = (self.bit_position + 1) % 8;
    }
}

struct Mixed {
    model: HybridModel,
    mixer: HybridMixer,
    distribution: Option<[f64; 256]>,
}

impl Mixed {
    fn new() -> Self {
        Self {
            model: HybridModel::new(BIT_MAX_ORDER, BYTE_MAX_ORDER),
            mixer: HybridMixer::new(BIT_MAX_ORDER),
            distribution: None,
        }
    }

    fn predictions(&mut self) -> Predictions {
        if self.distribution.is_none() {
            self.distribution = Some(distribution(&self.model.ppmd_plan()));
        }
        let distribution = self.distribution.as_ref().unwrap();
        Predictions {
            bit: self.model.bit_predictions(),
            ppmd_p1: distribution_bit_probability(distribution, self.model.current_byte(), self.model.used_bits()),
        }
    }

    fn observe(&mut self, bit: u8, predictions: &Predictions) {
        self.mixer.observe(bit, predictions);
        let completes_byte = self.model.used_bits() == 7;
        self.model.observe_bit(bit);
        if completes_byte {
            self.distribution = None;
        }
    }
}

fn compress(data: &[u8]) -> Result<Vec<u8>, CodecError> {
    let mut out = header(magic(), data.len());
    let mut model = Mixed::new();
    let mut encoder = ArithmeticEncoder::new();
    for &byte in data {
        let mut bits = ByteBits::new(byte);
        while let Some(bit) = bits.next() {
            let predictions = model.predictions();
            encode_probability(bit, model.mixer.mixed_probability(&predictions), &mut encoder)?;
            model.observe(bit, &predictions);
        }
    }
    out.extend_from_slice(&encoder.finish()?);
    Ok(out)
}

fn decompress(archive: &[u8]) -> Result<Vec<u8>, CodecError> {
    let (size, payload) = read_header(archive, magic())?;
    let mut model = Mixed::new();
    let mut decoder = ArithmeticDecoder::new(payload);
    let mut restored = ByteCollector::with_capacity(size);
    while restored.len() < size {
        let predictions = model.predictions();
        let bit = decode_probability(model.mixer.mixed_probability(&predictions), &mut decoder)?;
        restored.push(bit)?;
        model.observe(bit, &predictions);
    }
    restored.finish()
}

fn bit_initial_weight(order: usize) -> f64 {
    match order {
        0 => 0.2,
        1..=8 => 0.2 + (order as f64 * 0.11),
        9..=16 => 1.08 + ((order - 8) as f64 * 0.08),
        17..=32 => 1.72 + ((order - 16) as f64 * 0.045),
        _ => 2.44 + ((order - 32) as f64 * 0.02),
    }
}

fn byte_initial_weight(order: usize) -> f64 {
    match order {
        0 => 0.2,
        1 => 0.4,
        2 => 0.7,
        3 => 1.0,
        4 => 1.3,
        5 => 1.7,
        _ => 2.0,
    }
}

fn order_p1(prediction: &OrderCounts) -> Option<f64> {
    prediction.counts.map(|(zeros, ones)| counts_probability(u64::from(zeros), u64::from(ones)))
}

fn stretch(p: f64) -> f64 {
    let p = p.clamp(0.001, 0.999);
    (p / (1.0 - p)).ln()
}

fn squash(logit: f64) -> f64 {
    1.0 / (1.0 + (-logit).exp())
}

/// Laplace-smoothed probability of a one from zero and one counts.
fn counts_probability(zeros: u64, ones: u64) -> f64 {
    (ones as f64 + 0.5) / ((zeros + ones) as f64 + 1.0)
}

/// The zero and one frequencies for a probability of a one.
fn bit_weights(p1: f64) -> (u32, u32) {
    let scale = 16384.0;
    let p1 = p1.clamp(1.0 / scale, 1.0 - (1.0 / scale));
    let w1 = (p1 * scale).round().max(1.0) as u32;
    let w0 = ((1.0 - p1) * scale).round().max(1.0) as u32;
    (w0, w1)
}


fn encode_probability(bit: u8, p1: f64, encoder: &mut ArithmeticEncoder) -> Result<(), CodecError> {
    let (w0, w1) = bit_weights(p1);
    encode_weighted_bit(encoder, bit, w0, w1)
}

fn decode_probability(p1: f64, decoder: &mut ArithmeticDecoder<'_>) -> Result<u8, CodecError> {
    let (w0, w1) = bit_weights(p1);
    decode_weighted_bit(decoder, w0, w1)
}

/// The tag and the length as eight little-endian bytes.
fn header(magic: [u8; 4], len: usize) -> Vec<u8> {
    frame_header(magic, len as u64)
}

/// Checks the tag and returns the stored length and the payload.
fn read_header(archive: &[u8], magic: [u8; 4]) -> Result<(usize, &[u8]), CodecError> {
    let (size, payload) = read_frame(archive, magic)?;
    Ok((size as usize, payload))
}
