use hutter::arith::{ArithmeticDecoder, ArithmeticEncoder};
use hutter::bits::{frame_header, read_frame};
use hutter::byte_ppm::{
    compress_order1, compress_order2, compress_order3, compress_order4, compress_order5, compress_order6,
    decode_mixed_symbol, decompress_order1, decompress_order2, decompress_order3, decompress_order4,
    decompress_order5, decompress_order6, encode_mixed_symbol, magic_mix, Model, OrderPrediction, MAX_ORDER,
    MIX_ESCAPE_FREQ,
};
use hutter::candidates::{candidates_fit, WeightedSymbol};
use hutter::error::CodecError;
use hutter::history::ByteHistory;
use std::collections::HashMap;

#[test]
fn roundtrip_all_orders() {
    let input = b"banana bandana banana bandana banana bandana";
    roundtrip_order1(input);
    roundtrip_order2(input);
    roundtrip_order3(input);
    roundtrip_order4(input);
    roundtrip_order5(input);
    roundtrip_order6(input);
    roundtrip_mix(input);
}

#[test]
fn byte_ppm_roundtrip_binary() {
    let input: Vec<u8> = (0..=255).cycle().take(4096).collect();
    roundtrip_order3(&input);
    roundtrip_order6(&input);
    roundtrip_mix(&input);
}

#[test]
fn order6_differs_from_order1_on_structured_input() {
    let input = b"abc123abc123abc123abc123abc123abc123";
    let compressed1 = compress_order1(&input[..]).unwrap();
    let compressed6 = compress_order6(&input[..]).unwrap();
    assert_ne!(compressed1, compressed6);
}

#[test]
fn mix_roundtrip_empty() {
    roundtrip_mix(b"");
}

#[test]
fn byte_ppm_archive_header() {
    let compressed = compress_order3(b"abc").unwrap();
    assert_eq!(&compressed[..4], b"PP13");
    assert_eq!(&compressed[4..12], &3u64.to_le_bytes());
}

#[test]
fn byte_ppm_rejects_wrong_order_archive() {
    let compressed = compress_order2(b"abcabc").unwrap();
    assert_eq!(decompress_order3(&compressed), Err(CodecError::InvalidMagic));
    assert_eq!(decompress_order2(b"PP1"), Err(CodecError::UnexpectedEof));
    assert_eq!(decompress_order2(b"PP12\x01\x00"), Err(CodecError::UnexpectedEof));
}

fn roundtrip_order1(input: &[u8]) {
    let compressed = compress_order1(input).unwrap();
    assert_eq!(decompress_order1(&compressed[..]).unwrap(), input);
}

fn roundtrip_order2(input: &[u8]) {
    let compressed = compress_order2(input).unwrap();
    assert_eq!(decompress_order2(&compressed[..]).unwrap(), input);
}

fn roundtrip_order3(input: &[u8]) {
    let compressed = compress_order3(input).unwrap();
    assert_eq!(decompress_order3(&compressed[..]).unwrap(), input);
}

fn roundtrip_order4(input: &[u8]) {
    let compressed = compress_order4(input).unwrap();
    assert_eq!(decompress_order4(&compressed[..]).unwrap(), input);
}

fn roundtrip_order5(input: &[u8]) {
    let compressed = compress_order5(input).unwrap();
    assert_eq!(decompress_order5(&compressed[..]).unwrap(), input);
}

fn roundtrip_order6(input: &[u8]) {
    let compressed = compress_order6(input).unwrap();
    assert_eq!(decompress_order6(&compressed[..]).unwrap(), input);
}

fn roundtrip_mix(input: &[u8]) {
    let compressed = compress_mix(input).unwrap();
    assert_eq!(&compressed[..4], b"PPMX");
    assert_eq!(decompress_mix(&compressed[..]).unwrap(), input);
}

// The mixing codec's floating-point driver, as the program runs it.

fn header(magic: [u8; 4], len: usize) -> Vec<u8> {
    frame_header(magic, len as u64)
}

fn read_header(archive: &[u8], magic: [u8; 4]) -> Result<(usize, &[u8]), CodecError> {
    let (size, payload) = read_frame(archive, magic)?;
    Ok((size as usize, payload))
}

const MIX_LEARNING_RATE: f64 = 0.2;
const MIX_INITIAL_WEIGHTS: [f64; MAX_ORDER + 1] = [0.3, 0.5, 0.7, 1.0, 1.4, 1.9, 2.5];
const MIX_SCALE: f64 = 16384.0;
const SYMBOLS: f64 = 256.0;

struct OrderMixer {
    weights: Vec<f64>,
}

impl OrderMixer {
    fn new(max_order: usize) -> Self {
        let weights = (0..=max_order)
            .map(|order| {
                if order < MIX_INITIAL_WEIGHTS.len() {
                    MIX_INITIAL_WEIGHTS[order]
                } else {
                    *MIX_INITIAL_WEIGHTS.last().unwrap()
                }
            })
            .collect();
        Self { weights }
    }

    fn combine(&self, predictions: &[OrderPrediction]) -> Vec<WeightedSymbol> {
        let mut scores = HashMap::<u8, f64>::new();
        for prediction in predictions {
            let total = prediction_total(prediction);
            if total == 0.0 {
                continue;
            }
            for &(symbol, count) in &prediction.symbols {
                let probability = (f64::from(count) + 0.5) / (total + 0.5 * SYMBOLS);
                *scores.entry(symbol).or_insert(0.0) += self.weights[prediction.order] * probability;
            }
        }
        let mut candidates: Vec<WeightedSymbol> = scores
            .into_iter()
            .filter_map(|(symbol, score)| {
                let weight = (score * MIX_SCALE).round() as u32;
                if weight > 0 {
                    Some(WeightedSymbol { symbol, weight })
                } else {
                    None
                }
            })
            .collect();
        candidates.sort_by_key(|candidate| candidate.symbol);
        candidates
    }

    fn observe(&mut self, symbol: u8, predictions: &[OrderPrediction]) {
        let mixed = self.symbol_probability(symbol, predictions);
        for prediction in predictions {
            if prediction_total(prediction) == 0.0 {
                continue;
            }
            let own = prediction_symbol_probability(prediction, symbol);
            let weight = &mut self.weights[prediction.order];
            *weight += MIX_LEARNING_RATE * (own - mixed);
            *weight = weight.clamp(0.05, 8.0);
        }
    }

    fn symbol_probability(&self, symbol: u8, predictions: &[OrderPrediction]) -> f64 {
        let mut weighted_sum = 0.0;
        let mut total_weight = 0.0;
        for prediction in predictions {
            if prediction_total(prediction) == 0.0 {
                continue;
            }
            weighted_sum += self.weights[prediction.order] * prediction_symbol_probability(prediction, symbol);
            total_weight += self.weights[prediction.order];
        }
        if total_weight == 0.0 {
            1.0 / SYMBOLS
        } else {
            weighted_sum / total_weight
        }
    }
}

fn prediction_total(prediction: &OrderPrediction) -> f64 {
    prediction.symbols.iter().map(|&(_, count)| f64::from(count)).sum()
}

fn prediction_symbol_probability(prediction: &OrderPrediction, symbol: u8) -> f64 {
    let total = prediction_total(prediction);
    if total == 0.0 {
        return 1.0 / SYMBOLS;
    }
    let count = prediction
        .symbols
        .iter()
        .find(|&&(candidate, _)| candidate == symbol)
        .map(|&(_, count)| count)
        .unwrap_or(0);
    (f64::from(count) + 0.5) / (total + 0.5 * SYMBOLS)
}

/// The coder accepts the list: positive weights within its total.
fn check_candidates(candidates: &[WeightedSymbol]) -> Result<(), CodecError> {
    if candidates_fit(candidates, MIX_ESCAPE_FREQ) {
        Ok(())
    } else {
        Err(CodecError::InvalidFrequencies)
    }
}

struct MixedModel {
    model: Model,
    mixer: OrderMixer,
    max_order: usize,
}

impl MixedModel {
    fn new(max_order: usize) -> Self {
        Self { model: Model::new(), mixer: OrderMixer::new(max_order), max_order }
    }

    fn candidates(&self, history: &ByteHistory) -> Result<Vec<WeightedSymbol>, CodecError> {
        let candidates = self.mixer.combine(&self.model.predictions(history, self.max_order));
        check_candidates(&candidates)?;
        Ok(candidates)
    }

    fn observe(&mut self, symbol: u8, history: &ByteHistory) {
        let predictions = self.model.predictions(history, self.max_order);
        self.mixer.observe(symbol, &predictions);
        self.model.observe(symbol, history, self.max_order);
    }
}

fn compress_mix(data: &[u8]) -> Result<Vec<u8>, CodecError> {
    let mut out = header(magic_mix(), data.len());
    let mut model = MixedModel::new(MAX_ORDER);
    let mut encoder = ArithmeticEncoder::new();
    let mut history = ByteHistory::new(MAX_ORDER);
    for &symbol in data {
        let candidates = model.candidates(&history)?;
        encode_mixed_symbol(symbol, &candidates, &mut encoder)?;
        model.observe(symbol, &history);
        history.push(symbol);
    }
    out.extend_from_slice(&encoder.finish()?);
    Ok(out)
}

fn decompress_mix(archive: &[u8]) -> Result<Vec<u8>, CodecError> {
    let (size, payload) = read_header(archive, magic_mix())?;
    let mut model = MixedModel::new(MAX_ORDER);
    let mut decoder = ArithmeticDecoder::new(payload);
    let mut history = ByteHistory::new(MAX_ORDER);
    let mut restored = Vec::new();
    while restored.len() < size {
        let candidates = model.candidates(&history)?;
        let symbol = decode_mixed_symbol(&candidates, &mut decoder)?;
        restored.push(symbol);
        model.observe(symbol, &history);
        history.push(symbol);
    }
    Ok(restored)
}
