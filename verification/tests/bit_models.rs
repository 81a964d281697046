use hutter::context::{byte_matches_prefix, next_bit};
use hutter::hybrid_ppm::{BitContext, HybridModel};
use hutter::ppmd_bit::BitModel;
use hutter::ppmd_mix::HybridModel as PpmdMixModel;

fn feed_bits(byte: u8, mut observe: impl FnMut(u8)) {
    for shift in (0..8).rev() {
        observe((byte >> shift) & 1);
    }
}

#[test]
fn prefix_matching_and_next_bit() {
    assert!(byte_matches_prefix(0b1010_0000, 0, 0));
    assert!(byte_matches_prefix(0b1010_0000, 0b101, 3));
    assert!(!byte_matches_prefix(0b1010_0000, 0b100, 3));
    assert!(byte_matches_prefix(0x41, 0x41, 8));
    assert!(!byte_matches_prefix(0x41, 0x42, 8));
    assert_eq!(next_bit(0b1000_0000, 0), 1);
    assert_eq!(next_bit(0b1000_0000, 1), 0);
    assert_eq!(next_bit(0b0000_0001, 7), 1);
}

#[test]
fn bit_context_counts_and_halves() {
    let mut context = BitContext::new();
    assert_eq!(context.counts(), None);
    context.observe(1);
    context.observe(1);
    context.observe(0);
    assert_eq!(context.counts(), Some((1, 2)));
    assert_eq!(context.total, 3);
    let mut big = BitContext { zeros: 32766, ones: 1, total: 32767 };
    big.observe(1);
    assert_eq!(big, BitContext { zeros: 16383, ones: 1, total: 16384 });
}

#[test]
fn hybrid_model_predictions_follow_the_bits() {
    let mut model = HybridModel::new(64, 6);
    let first = model.predictions();
    assert_eq!(first.bit.len(), 1);
    assert_eq!(first.bit[0].counts, None);
    assert_eq!(first.byte.len(), 1);
    assert_eq!(first.byte[0].counts, None);

    feed_bits(b'a', |bit| model.observe_bit(bit));
    feed_bits(b'a', |bit| model.observe_bit(bit));
    // Two bytes seen: eight bit orders so far bounded by the 16 bits seen.
    let p = model.predictions();
    assert_eq!(p.bit.len(), 17);
    assert_eq!(p.byte.len(), 3);
    // 'a' = 0110_0001 twice: the order-0 bit context saw 10 zeros, 6 ones.
    assert_eq!(p.bit[0].counts, Some((10, 6)));
    // Order-0 byte counts: both bytes were 'a', whose first bit is 0.
    assert_eq!(p.byte[0].counts, Some((2, 0)));
    // Order 1 ('a' followed by 'a').
    assert_eq!(p.byte[1].order, 1);
    assert_eq!(p.byte[1].counts, Some((1, 0)));
    assert_eq!(model.current_byte(), 0);
    assert_eq!(model.used_bits(), 0);
}

#[test]
fn ppmd_bit_counts_start_flat_and_learn() {
    let mut model = BitModel::new();
    // Nothing seen: every byte counts once.
    assert_eq!(model.bit_counts(), (128, 128));
    feed_bits(b'a', |bit| model.observe_bit(bit));
    // 'a' seen once at order 0 (count 1, first bit 0) and excluded from
    // the 255 unseen bytes: 127 of them start with 0, 128 with 1.
    assert_eq!(model.bit_counts(), (1 + 127, 128));
    model.observe_bit(0);
    // After a 0: bytes below 0x80; 'a' continues with 1.
    assert_eq!(model.bit_counts(), (64, 1 + 63));
}

#[test]
fn ppmd_plan_levels() {
    let mut model = PpmdMixModel::new(64, 6);
    let plan = model.ppmd_plan();
    assert!(plan.levels.is_empty());
    assert_eq!(plan.unseen.len(), 256);
    feed_bits(b'x', |bit| model.observe_bit(bit));
    feed_bits(b'y', |bit| model.observe_bit(bit));
    // History "xy": no order-1 context for 'y' yet; order 0 has x and y.
    let plan = model.ppmd_plan();
    assert_eq!(plan.levels.len(), 1);
    assert_eq!(plan.levels[0].symbols.len(), 2);
    assert_eq!(plan.levels[0].escape, 1);
    assert_eq!(plan.levels[0].total, 3);
    assert_eq!(plan.unseen.len(), 254);
    assert!(!plan.unseen.contains(&b'x'));
    feed_bits(b'x', |bit| model.observe_bit(bit));
    // History "xyx": the order-1 context after 'x' holds y.
    let plan = model.ppmd_plan();
    assert_eq!(plan.levels.len(), 2);
    assert_eq!(plan.levels[0].symbols[0].symbol, b'y');
    assert_eq!(plan.levels[0].total, 2);
    // Order 0 then holds x (twice) with y excluded.
    assert_eq!(plan.levels[1].symbols.len(), 1);
    assert_eq!(plan.levels[1].symbols[0].weight, 2);
    assert_eq!(plan.levels[1].total, 3);
    assert_eq!(model.bit_predictions().len(), 25);
}
