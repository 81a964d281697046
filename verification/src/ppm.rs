//! Bit-level PPM: every byte is coded as eight binary decisions.  The
//! context of a decision is the last `order` bits together with the bits
//! already seen of the current byte; the longest usable context that has
//! seen the bit codes it, longer ones escape, order 0 and a flat binary
//! choice catch the rest.  A mixing variant blends the orders' counts into
//! one pair of weights.
use vstd::prelude::*;
use std::collections::HashMap;
use crate::arith::{ArithmeticEncoder, ArithmeticDecoder, CodeRange, DecState, dec_init, code_range, enc_seq, enc_run, dec_step, dec_run, dec_target, in_range, range_codable, synced, coded_bits, lemma_enc_seq_append, lemma_enc_seq_one, lemma_enc_run_append, lemma_synced_step};
use crate::bits::{ByteBits, ByteCollector, byte_bit, bytes_to_bits, bit_value, le_bytes_u64, le_u64, push_u64_le, read_u64, lemma_le_u64_roundtrip, lemma_bytes_to_bits_injective};
use crate::candidates::{WeightedSymbol, candidates_codable, candidate_ranges, encode_candidates, decode_candidates, decode_outcome, total_weight, weight_sum};
use crate::byte_ppm::ranges_overlap;
use crate::error::CodecError;

verus! {

broadcast use vstd::std_specs::hash::group_hash_axioms;

/// The longest context, in bits.
pub const MAX_ORDER: usize = 64;
/// A context's total is halved once it reaches this.
pub const MAX_CONTEXT_TOTAL: u32 = 32768;
/// Weight of the escape in a mixed candidate list.
pub const MIX_ESCAPE_FREQ: u32 = 8;

pub open spec fn magic_order3_spec() -> Seq<u8> { seq![80u8, 66u8, 48u8, 51u8] }
pub open spec fn magic_order8_spec() -> Seq<u8> { seq![80u8, 66u8, 48u8, 56u8] }
pub open spec fn magic_order16_spec() -> Seq<u8> { seq![80u8, 66u8, 49u8, 54u8] }
pub open spec fn magic_order32_spec() -> Seq<u8> { seq![80u8, 66u8, 51u8, 50u8] }
pub open spec fn magic_order64_spec() -> Seq<u8> { seq![80u8, 66u8, 54u8, 52u8] }
pub open spec fn magic_mix_spec() -> Seq<u8> { seq![80u8, 66u8, 77u8, 88u8] }

/// The archive tag `PB03`.
pub fn magic_order3() -> (m: [u8; 4]) ensures m@ == magic_order3_spec() {
    let m = [80u8, 66u8, 48u8, 51u8]; assert(m@ =~= magic_order3_spec()); m
}
/// The archive tag `PB08`.
pub fn magic_order8() -> (m: [u8; 4]) ensures m@ == magic_order8_spec() {
    let m = [80u8, 66u8, 48u8, 56u8]; assert(m@ =~= magic_order8_spec()); m
}
/// The archive tag `PB16`.
pub fn magic_order16() -> (m: [u8; 4]) ensures m@ == magic_order16_spec() {
    let m = [80u8, 66u8, 49u8, 54u8]; assert(m@ =~= magic_order16_spec()); m
}
/// The archive tag `PB32`.
pub fn magic_order32() -> (m: [u8; 4]) ensures m@ == magic_order32_spec() {
    let m = [80u8, 66u8, 51u8, 50u8]; assert(m@ =~= magic_order32_spec()); m
}
/// The archive tag `PB64`.
pub fn magic_order64() -> (m: [u8; 4]) ensures m@ == magic_order64_spec() {
    let m = [80u8, 66u8, 54u8, 52u8]; assert(m@ =~= magic_order64_spec()); m
}
/// The archive tag `PBMX`.
pub fn magic_mix() -> (m: [u8; 4]) ensures m@ == magic_mix_spec() {
    let m = [80u8, 66u8, 77u8, 88u8]; assert(m@ =~= magic_mix_spec()); m
}

// ---------------------------------------------------------------------------
// Binary context statistics

/// How often a context saw a 0 and a 1, and their sum.
#[derive(Clone, Copy, Debug, PartialEq, Eq, Structural)]
pub struct BitContext {
    pub zeros: u16,
    pub ones: u16,
    pub total: u32,
}

pub open spec fn bctx_wf(c: BitContext) -> bool {
    c.total == c.zeros + c.ones && c.total < MAX_CONTEXT_TOTAL
}

pub open spec fn bctx_empty() -> BitContext {
    BitContext { zeros: 0, ones: 0, total: 0 }
}

/// The count of bit `s` (0 for anything but a bit).
pub open spec fn bcount(c: BitContext, s: u8) -> int {
    if s == 0 {
        c.zeros as int
    } else if s == 1 {
        c.ones as int
    } else {
        0
    }
}

/// Number of distinct bits seen, at least 1.
pub open spec fn besc(c: BitContext) -> int {
    let n = (if c.zeros > 0 { 1int } else { 0int }) + (if c.ones > 0 { 1int } else { 0int });
    if n == 0 {
        1
    } else {
        n
    }
}

pub open spec fn btotal(c: BitContext) -> int {
    c.total + besc(c)
}

/// The range coding bit `s` in context `c`: zeros first, then ones.
pub open spec fn bsym_range(c: BitContext, s: u8) -> CodeRange {
    code_range(
        (if s == 0 { 0 } else { c.zeros as int }) as u32,
        bcount(c, s) as u32,
        btotal(c) as u32,
    )
}

/// The escape takes the top of the context's range.
pub open spec fn besc_range(c: BitContext) -> CodeRange {
    code_range(c.total, besc(c) as u32, btotal(c) as u32)
}

pub open spec fn bhalf(x: int) -> int {
    if x > 0 {
        (x + 1) / 2
    } else {
        0
    }
}

/// The statistics after seeing bit `s`, halved once the total reaches the limit.
pub open spec fn bctx_observe(c: BitContext, s: u8) -> BitContext {
    let z = if s == 0 { c.zeros + 1 } else { c.zeros as int };
    let o = if s == 1 { c.ones + 1 } else { c.ones as int };
    if c.total + 1 >= MAX_CONTEXT_TOTAL {
        BitContext {
            zeros: bhalf(z) as u16,
            ones: bhalf(o) as u16,
            total: (bhalf(z) + bhalf(o)) as u32,
        }
    } else {
        BitContext { zeros: z as u16, ones: o as u16, total: (c.total + 1) as u32 }
    }
}

/// The total a context of order `order` needs before it is used.
pub open spec fn min_total_spec(order: int) -> int {
    if order <= 31 {
        1
    } else if order <= 63 {
        3
    } else {
        5
    }
}

pub open spec fn usable(order: int, c: BitContext) -> bool {
    c.total >= min_total_spec(order)
}

/// Seeing a bit keeps a bit context well formed.
pub proof fn lemma_bctx_observe_wf(c: BitContext, s: u8)
    requires
        bctx_wf(c),
        s <= 1,
    ensures
        bctx_wf(bctx_observe(c, s)),
{
}

/// The ranges of a well-formed context are codable; a seen bit's range and
/// the escape, and the two bits' ranges, do not overlap.
pub proof fn lemma_bctx_ranges(c: BitContext, s: u8)
    requires
        bctx_wf(c),
        s <= 1,
    ensures
        bcount(c, s) > 0 ==> range_codable(bsym_range(c, s)),
        range_codable(besc_range(c)),
        btotal(c) <= MAX_CONTEXT_TOTAL + 1,
        bsym_range(c, s).total == besc_range(c).total,
        bcount(c, s) > 0 ==> bsym_range(c, s).cum + bsym_range(c, s).freq <= c.total,
        besc_range(c).cum == c.total,
        bsym_range(c, 0).cum == 0,
        bsym_range(c, 1).cum == c.zeros,
        bsym_range(c, 0).freq == c.zeros,
        bsym_range(c, 1).freq == c.ones,
{
}

/// What decoding against bit context `c` gives from decoder state `d`: the
/// escape (`None`) past the counts, else the bit whose range holds the
/// target; with the state afterwards.
pub open spec fn bctx_decode(c: BitContext, d: DecState, data: Seq<u8>) -> (Option<u8>, DecState) {
    let t = dec_target(d, btotal(c));
    if t >= c.total {
        (None, dec_step(d, besc_range(c), data))
    } else if t < c.zeros {
        (Some(0u8), dec_step(d, bsym_range(c, 0), data))
    } else {
        (Some(1u8), dec_step(d, bsym_range(c, 1), data))
    }
}

impl BitContext {
    /// An empty context.
    pub fn new() -> (c: Self)
        ensures
            c == bctx_empty(),
            bctx_wf(c),
    {
        BitContext { zeros: 0, ones: 0, total: 0 }
    }

    /// Whether bit `symbol` has been seen here.
    pub fn contains(&self, symbol: u8) -> (b: bool)
        requires
            symbol <= 1,
        ensures
            b == (bcount(*self, symbol) > 0),
    {
        if symbol == 0 {
            self.zeros > 0
        } else {
            self.ones > 0
        }
    }

    /// The count below bit `symbol`.
    pub fn cumulative(&self, symbol: u8) -> (c: u32)
        ensures
            c == (if symbol == 0 { 0 } else { self.zeros as int }),
    {
        if symbol == 0 {
            0
        } else {
            self.zeros as u32
        }
    }

    /// Number of distinct bits seen, at least 1.
    pub fn escape_freq(&self) -> (f: u32)
        ensures
            f == besc(*self),
    {
        let mut n: u32 = 0;
        if self.zeros > 0 {
            n = n + 1;
        }
        if self.ones > 0 {
            n = n + 1;
        }
        if n == 0 {
            1
        } else {
            n
        }
    }

    /// The coding total: the counts plus the escape.
    pub fn total_with_escape(&self) -> (t: u32)
        requires
            bctx_wf(*self),
        ensures
            t == btotal(*self),
    {
        self.total + self.escape_freq()
    }

    /// Codes bit `symbol`, which the context must have seen.
    pub fn encode_symbol(&self, symbol: u8, encoder: &mut ArithmeticEncoder) -> (r: Result<
        (),
        CodecError,
    >)
        requires
            bctx_wf(*self),
            symbol <= 1,
            bcount(*self, symbol) > 0,
            old(encoder).wf(),
        ensures
            r is Ok ==> final(encoder).wf(),
            match enc_seq(old(encoder).view(), seq![bsym_range(*self, symbol)]) {
                Some(s) => r is Ok && final(encoder).view() == s,
                None => r == Err::<(), CodecError>(CodecError::PendingOverflow),
            },
    {
        proof {
            lemma_bctx_ranges(*self, symbol);
            lemma_enc_seq_one(encoder.view(), bsym_range(*self, symbol));
        }
        let cum = self.cumulative(symbol);
        let freq: u32 = if symbol == 0 { self.zeros as u32 } else { self.ones as u32 };
        encoder.encode(cum, freq, self.total_with_escape())
    }

    /// Codes the escape out of this context.
    pub fn encode_escape(&self, encoder: &mut ArithmeticEncoder) -> (r: Result<(), CodecError>)
        requires
            bctx_wf(*self),
            old(encoder).wf(),
        ensures
            r is Ok ==> final(encoder).wf(),
            match enc_seq(old(encoder).view(), seq![besc_range(*self)]) {
                Some(s) => r is Ok && final(encoder).view() == s,
                None => r == Err::<(), CodecError>(CodecError::PendingOverflow),
            },
    {
        proof {
            lemma_bctx_ranges(*self, 0);
            lemma_enc_seq_one(encoder.view(), besc_range(*self));
        }
        encoder.encode(self.total, self.escape_freq(), self.total_with_escape())
    }

    /// Decodes a bit of this context, or the escape (`None`).
    pub fn decode_symbol(&self, decoder: &mut ArithmeticDecoder) -> (r: Result<
        Option<u8>,
        CodecError,
    >)
        requires
            bctx_wf(*self),
            old(decoder).wf(),
        ensures
            final(decoder).wf(),
            final(decoder).data() == old(decoder).data(),
            r == Ok::<Option<u8>, CodecError>(bctx_decode(*self, old(decoder).view(), old(decoder).data()).0),
            final(decoder).view() == bctx_decode(*self, old(decoder).view(), old(decoder).data()).1,
            r matches Ok(Some(b)) ==> b <= 1,
            ({
                let c = *self;
                let t = dec_target(old(decoder).view(), btotal(c));
                &&& in_range(t, besc_range(c)) ==> r == Ok::<Option<u8>, CodecError>(None)
                    && final(decoder).view() == dec_step(
                    old(decoder).view(),
                    besc_range(c),
                    old(decoder).data(),
                )
                &&& forall|s: u8|
                    s <= 1 && bcount(c, s) > 0 && in_range(t, #[trigger] bsym_range(c, s)) ==> r
                        == Ok::<Option<u8>, CodecError>(Some(s)) && final(decoder).view()
                        == dec_step(old(decoder).view(), bsym_range(c, s), old(decoder).data())
            }),
    {
        proof {
            lemma_bctx_ranges(*self, 0);
            lemma_bctx_ranges(*self, 1);
        }
        let total = self.total_with_escape();
        let value = match decoder.target(total) {
            Ok(t) => t,
            Err(e) => {
                return Err(e);
            },
        };
        if value >= self.total {
            let _ = decoder.consume(self.total, self.escape_freq(), total);
            return Ok(None);
        }
        let zero_freq = self.zeros as u32;
        if value < zero_freq {
            let _ = decoder.consume(0, zero_freq, total);
            return Ok(Some(0));
        }
        let one_freq = self.ones as u32;
        let _ = decoder.consume(zero_freq, one_freq, total);
        Ok(Some(1))
    }

    /// Halves both counts, keeping a seen bit at least 1.
    pub fn rescale(&mut self)
        requires
            old(self).total == old(self).zeros + old(self).ones,
        ensures
            final(self).zeros == bhalf(old(self).zeros as int),
            final(self).ones == bhalf(old(self).ones as int),
            final(self).total == final(self).zeros + final(self).ones,
    {
        if self.zeros > 0 {
            self.zeros = (self.zeros / 2) + (self.zeros % 2);
        }
        if self.ones > 0 {
            self.ones = (self.ones / 2) + (self.ones % 2);
        }
        self.total = self.zeros as u32 + self.ones as u32;
    }

    /// Counts bit `symbol`, halving once the total reaches the limit.
    pub fn observe(&mut self, symbol: u8)
        requires
            bctx_wf(*old(self)),
            symbol <= 1,
        ensures
            *final(self) == bctx_observe(*old(self), symbol),
            bctx_wf(*final(self)),
    {
        if symbol == 0 {
            self.zeros = self.zeros + 1;
        } else {
            self.ones = self.ones + 1;
        }
        self.total = self.total + 1;
        if self.total >= MAX_CONTEXT_TOTAL {
            self.rescale();
        }
    }

    /// The seen bits with their counts, most frequent first (ties by bit),
    /// at most `limit` of them.
    pub fn top_symbols(&self, limit: usize) -> (r: Vec<(u8, u32)>)
        ensures
            r@ == top_symbols_spec(*self, limit as int),
    {
        let mut top: Vec<(u8, u32)> = Vec::new();
        let z = self.zeros as u32;
        let o = self.ones as u32;
        if z > 0 && o > 0 {
            if o > z {
                top.push((1u8, o));
                top.push((0u8, z));
            } else {
                top.push((0u8, z));
                top.push((1u8, o));
            }
        } else if z > 0 {
            top.push((0u8, z));
        } else if o > 0 {
            top.push((1u8, o));
        }
        if top.len() > limit {
            top.truncate(limit);
        }
        assert(top@ =~= top_symbols_spec(*self, limit as int));
        top
    }
}

/// The seen bits by falling count, ties by bit, cut to `limit`.
pub open spec fn top_symbols_spec(c: BitContext, limit: int) -> Seq<(u8, u32)> {
    let z = c.zeros as u32;
    let o = c.ones as u32;
    let all = if z > 0 && o > 0 {
        if o > z {
            seq![(1u8, o), (0u8, z)]
        } else {
            seq![(0u8, z), (1u8, o)]
        }
    } else if z > 0 {
        seq![(0u8, z)]
    } else if o > 0 {
        seq![(1u8, o)]
    } else {
        Seq::empty()
    };
    if all.len() > limit {
        all.take(limit)
    } else {
        all
    }
}

/// The total a context of order `order` needs before it is used.
pub fn min_context_total(order: usize) -> (t: u32)
    ensures
        t == min_total_spec(order as int),
{
    if order <= 31 {
        1
    } else if order <= 63 {
        3
    } else {
        5
    }
}

/// Whether a context of order `order` has seen enough to be used.
pub fn context_is_usable(order: usize, context: &BitContext) -> (b: bool)
    ensures
        b == usable(order as int, *context),
{
    context.total >= min_context_total(order)
}

// ---------------------------------------------------------------------------
// Bit history

/// The last bits seen (up to `max_order` of them) and the bits so far of
/// the current byte.
#[derive(Clone, Copy, Debug, PartialEq, Eq, Structural)]
pub struct BitHistory {
    pub bits: u64,
    pub len: usize,
    pub max_order: usize,
    pub current_byte: u8,
    pub used_bits: u8,
}

/// The `order` low bits set (all 64 from order 64 on).
pub open spec fn hist_mask(order: int) -> u64 {
    if order >= 64 {
        u64::MAX
    } else {
        ((1u64 << (order as u64)) - 1) as u64
    }
}

pub open spec fn hist_wf(h: BitHistory) -> bool {
    &&& 1 <= h.max_order <= MAX_ORDER
    &&& h.len <= h.max_order
    &&& h.used_bits < 8
}

pub open spec fn hist_init(max_order: int) -> BitHistory {
    BitHistory { bits: 0, len: 0, max_order: max_order as usize, current_byte: 0, used_bits: 0 }
}

/// The history after bit `bit`.
pub open spec fn hist_push(h: BitHistory, bit: u8) -> BitHistory {
    BitHistory {
        bits: ((h.bits << 1u64) | (bit as u64)) & hist_mask(h.max_order as int),
        len: if h.len + 1 < h.max_order { (h.len + 1) as usize } else { h.max_order },
        max_order: h.max_order,
        current_byte: if (h.used_bits + 1) % 8 == 0 {
            0u8
        } else {
            ((h.current_byte << 1u8) | bit) as u8
        },
        used_bits: ((h.used_bits + 1) % 8) as u8,
    }
}

/// The key of the order-`order` context: the last `order` bits, the bit
/// position within the byte, and the byte's bits so far.
pub open spec fn hist_key(h: BitHistory, order: int) -> u128 {
    (((h.bits & hist_mask(order)) as u128) | ((h.used_bits as u128) << (order as u128))) | ((
    h.current_byte as u128) << ((order + 3) as u128))
}

/// The `order` low bits set (all 64 from order 64 on).
pub fn history_mask(order: usize) -> (m: u64)
    ensures
        m == hist_mask(order as int),
{
    if order >= 64 {
        u64::MAX
    } else {
        let o = order as u64;
        assert(o < 64 ==> (1u64 << o) >= 1) by (bit_vector);
        (1u64 << o) - 1
    }
}

impl BitHistory {
    /// An empty history keeping up to `max_order` bits.
    pub fn new(max_order: usize) -> (h: Self)
        requires
            1 <= max_order <= MAX_ORDER,
        ensures
            h == hist_init(max_order as int),
            hist_wf(h),
    {
        BitHistory { bits: 0, len: 0, max_order, current_byte: 0, used_bits: 0 }
    }

    /// Number of bits kept.
    pub fn len(&self) -> (n: usize)
        ensures
            n == self.len,
    {
        self.len
    }

    /// Appends a bit.
    pub fn push(&mut self, bit: u8)
        requires
            hist_wf(*old(self)),
            bit <= 1,
        ensures
            *final(self) == hist_push(*old(self), bit),
            hist_wf(*final(self)),
    {
        let mask = history_mask(self.max_order);
        self.bits = ((self.bits << 1u64) | (bit as u64)) & mask;
        self.len = if self.len + 1 < self.max_order { self.len + 1 } else { self.max_order };
        let used = (self.used_bits + 1) % 8;
        self.current_byte = if used == 0 { 0 } else { (self.current_byte << 1u8) | bit };
        self.used_bits = used;
    }

    /// The key of the order-`order` context.
    pub fn key(&self, order: usize) -> (k: u128)
        requires
            order <= MAX_ORDER,
        ensures
            k == hist_key(*self, order as int),
    {
        let suffix = (self.bits & history_mask(order)) as u128;
        let bit_position = self.used_bits as u128;
        let prefix = self.current_byte as u128;
        (suffix | (bit_position << (order as u128))) | (prefix << ((order + 3) as u128))
    }
}

// ---------------------------------------------------------------------------
// The model

/// What the model has learned: order-0 counts and, per order, a map from
/// context key to counts.
pub struct ModelView {
    pub order0: BitContext,
    pub ctxs: Seq<Map<u128, BitContext>>,
}

pub open spec fn model_init() -> ModelView {
    ModelView { order0: bctx_empty(), ctxs: Seq::new(MAX_ORDER as nat, |_i: int| Map::empty()) }
}

pub open spec fn model_wf(m: ModelView) -> bool {
    &&& bctx_wf(m.order0)
    &&& m.ctxs.len() == MAX_ORDER
    &&& forall|i: int, k: u128|
        0 <= i < MAX_ORDER && #[trigger] m.ctxs[i].contains_key(k) ==> bctx_wf(m.ctxs[i][k])
}

pub open spec fn top_order(h: BitHistory, max_order: int) -> int {
    if (h.len as int) < max_order {
        h.len as int
    } else {
        max_order
    }
}

pub open spec fn get_or_empty(m: Map<u128, BitContext>, k: u128) -> BitContext {
    if m.contains_key(k) {
        m[k]
    } else {
        bctx_empty()
    }
}

/// The model after seeing bit `s` with history `h`.
pub open spec fn model_observe(m: ModelView, h: BitHistory, max_order: int, s: u8) -> ModelView {
    ModelView {
        order0: bctx_observe(m.order0, s),
        ctxs: Seq::new(
            m.ctxs.len(),
            |i: int|
                if i + 1 <= top_order(h, max_order) {
                    let k = hist_key(h, i + 1);
                    m.ctxs[i].insert(k, bctx_observe(get_or_empty(m.ctxs[i], k), s))
                } else {
                    m.ctxs[i]
                },
        ),
    }
}

/// The ranges coding bit `s` at order 0 and below.
pub open spec fn order0_ranges(c: BitContext, s: u8) -> Seq<CodeRange> {
    if bcount(c, s) > 0 {
        seq![bsym_range(c, s)]
    } else {
        seq![besc_range(c), code_range(s as u32, 1, 2)]
    }
}

/// The ranges coding bit `s`, trying usable contexts from `order` down.
pub open spec fn ranges_from(m: ModelView, h: BitHistory, s: u8, order: int) -> Seq<CodeRange>
    decreases order,
{
    if order <= 0 {
        order0_ranges(m.order0, s)
    } else {
        let k = hist_key(h, order);
        if m.ctxs[order - 1].contains_key(k) && usable(order, m.ctxs[order - 1][k]) {
            let c = m.ctxs[order - 1][k];
            if bcount(c, s) > 0 {
                seq![bsym_range(c, s)]
            } else {
                seq![besc_range(c)] + ranges_from(m, h, s, order - 1)
            }
        } else {
            ranges_from(m, h, s, order - 1)
        }
    }
}

pub open spec fn symbol_ranges(m: ModelView, h: BitHistory, max_order: int, s: u8) -> Seq<
    CodeRange,
> {
    ranges_from(m, h, s, top_order(h, max_order))
}

/// What decoding a bit gives from decoder state `d`: the usable contexts
/// from order `order` down to 1 are tried in turn, each giving the bit or
/// escaping, then order 0, then a flat choice between 0 and 1.
pub open spec fn decode_from(m: ModelView, h: BitHistory, order: int, d: DecState, data: Seq<u8>) -> (u8, DecState)
    decreases order,
{
    if order <= 0 {
        let (o, d1) = bctx_decode(m.order0, d, data);
        match o {
            Some(s) => (s, d1),
            None => {
                let v = dec_target(d1, 2);
                (v as u8, dec_step(d1, code_range(v as u32, 1, 2), data))
            },
        }
    } else {
        let k = hist_key(h, order);
        if m.ctxs[order - 1].contains_key(k) && usable(order, m.ctxs[order - 1][k]) {
            let (o, d1) = bctx_decode(m.ctxs[order - 1][k], d, data);
            match o {
                Some(s) => (s, d1),
                None => decode_from(m, h, order - 1, d1, data),
            }
        } else {
            decode_from(m, h, order - 1, d, data)
        }
    }
}

/// The bit-context model.
pub struct Model {
    order0: BitContext,
    contexts: Vec<HashMap<u128, BitContext>>,
}

impl Model {
    pub closed spec fn view(&self) -> ModelView {
        ModelView {
            order0: self.order0,
            ctxs: Seq::new(self.contexts@.len(), |i: int| self.contexts@[i]@),
        }
    }

    pub closed spec fn wf(&self) -> bool {
        model_wf(self.view())
    }

    /// An empty model with maps for orders 1 to 64.
    pub fn new() -> (m: Self)
        ensures
            m.wf(),
            m.view() == model_init(),
    {
        let mut contexts: Vec<HashMap<u128, BitContext>> = Vec::new();
        let mut i: usize = 0;
        while i < MAX_ORDER
            invariant
                i <= MAX_ORDER,
                contexts@.len() == i,
                forall|j: int| 0 <= j < i ==> #[trigger] contexts@[j]@ == Map::<
                    u128,
                    BitContext,
                >::empty(),
            decreases MAX_ORDER - i,
        {
            contexts.push(HashMap::new());
            i = i + 1;
        }
        let m = Model { order0: BitContext::new(), contexts };
        assert(m.view().ctxs =~= model_init().ctxs);
        m
    }

    /// The context of order `order` for `history`, if it exists.
    pub fn context_for_order(&self, order: usize, history: &BitHistory) -> (r: Option<
        &BitContext,
    >)
        requires
            self.wf(),
            1 <= order <= MAX_ORDER,
        ensures
            match r {
                Some(c) => self.view().ctxs[order - 1].contains_key(
                    hist_key(*history, order as int),
                ) && bctx_wf(*c) && *c == self.view().ctxs[order - 1][hist_key(
                    *history,
                    order as int,
                )],
                None => !self.view().ctxs[order - 1].contains_key(
                    hist_key(*history, order as int),
                ),
            },
    {
        let key = history.key(order);
        let r = self.contexts[order - 1].get(&key);
        proof {
            if r is Some {
                assert(self.view().ctxs[order - 1].contains_key(key));
            }
        }
        r
    }

    /// Codes bit `symbol`: escapes out of longer usable contexts that have
    /// not seen it, codes it in the first that has, falling back to order 0
    /// and a flat binary choice.
    pub fn encode_symbol(
        &self,
        symbol: u8,
        history: &BitHistory,
        max_order: usize,
        encoder: &mut ArithmeticEncoder,
    ) -> (r: Result<(), CodecError>)
        requires
            self.wf(),
            symbol <= 1,
            1 <= max_order <= MAX_ORDER,
            old(encoder).wf(),
        ensures
            r is Ok ==> final(encoder).wf(),
            match enc_seq(
                old(encoder).view(),
                symbol_ranges(self.view(), *history, max_order as int, symbol),
            ) {
                Some(s) => r is Ok && final(encoder).view() == s,
                None => r == Err::<(), CodecError>(CodecError::PendingOverflow),
            },
    {
        let ghost m = self.view();
        let ghost h = *history;
        let top = if history.len() < max_order { history.len() } else { max_order };
        let mut order = top;
        while order > 0
            invariant
                self.wf(),
                m == self.view(),
                h == *history,
                symbol <= 1,
                order <= top <= max_order <= MAX_ORDER,
                top as int == top_order(h, max_order as int),
                encoder.wf(),
                enc_seq(old(encoder).view(), ranges_from(m, h, symbol, top as int)) == enc_seq(
                    encoder.view(),
                    ranges_from(m, h, symbol, order as int),
                ),
            decreases order,
        {
            match self.context_for_order(order, history) {
                Some(context) => {
                    if context_is_usable(order, context) {
                        if context.contains(symbol) {
                            return context.encode_symbol(symbol, encoder);
                        }
                        proof {
                            lemma_enc_seq_append(
                                encoder.view(),
                                seq![besc_range(*context)],
                                ranges_from(m, h, symbol, order - 1),
                            );
                        }
                        match context.encode_escape(encoder) {
                            Ok(()) => {},
                            Err(e) => {
                                return Err(e);
                            },
                        }
                    }
                },
                None => {},
            }
            order = order - 1;
        }
        if self.order0.contains(symbol) {
            self.order0.encode_symbol(symbol, encoder)
        } else {
            proof {
                lemma_enc_seq_append(
                    encoder.view(),
                    seq![besc_range(m.order0)],
                    seq![code_range(symbol as u32, 1, 2)],
                );
                assert(seq![besc_range(m.order0)] + seq![code_range(symbol as u32, 1, 2)]
                    =~= order0_ranges(m.order0, symbol));
            }
            match self.order0.encode_escape(encoder) {
                Ok(()) => {},
                Err(e) => {
                    return Err(e);
                },
            }
            proof {
                lemma_enc_seq_one(encoder.view(), code_range(symbol as u32, 1, 2));
            }
            encoder.encode(symbol as u32, 1, 2)
        }
    }

    /// Decodes one bit, mirroring `encode_symbol`.  When the decoder is in
    /// step with an encoder that coded bit `s` next, the result is `s`.
    pub fn decode_symbol(
        &self,
        history: &BitHistory,
        max_order: usize,
        decoder: &mut ArithmeticDecoder,
        Ghost(rs): Ghost<Seq<CodeRange>>,
        Ghost(k): Ghost<int>,
        Ghost(s): Ghost<u8>,
    ) -> (r: Result<u8, CodecError>)
        requires
            self.wf(),
            1 <= max_order <= MAX_ORDER,
            old(decoder).wf(),
        ensures
            final(decoder).wf(),
            final(decoder).data() == old(decoder).data(),
            r == Ok::<u8, CodecError>(decode_from(
                self.view(),
                *history,
                top_order(*history, max_order as int),
                old(decoder).view(),
                old(decoder).data(),
            ).0),
            final(decoder).view() == decode_from(
                self.view(),
                *history,
                top_order(*history, max_order as int),
                old(decoder).view(),
                old(decoder).data(),
            ).1,
            r->Ok_0 <= 1,
            ({
                let sr = symbol_ranges(self.view(), *history, max_order as int, s);
                s <= 1 && synced(old(decoder).view(), old(decoder).data(), rs, k) && k + sr.len()
                    <= rs.len() && rs.subrange(k, k + sr.len()) == sr ==> r == Ok::<u8, CodecError>(
                    s,
                ) && synced(final(decoder).view(), final(decoder).data(), rs, k + sr.len())
            }),
    {
        let ghost m = self.view();
        let ghost h = *history;
        let ghost data = decoder.data();
        let ghost sr = symbol_ranges(m, h, max_order as int, s);
        let ghost cond = s <= 1 && synced(decoder.view(), data, rs, k) && k + sr.len() <= rs.len()
            && rs.subrange(k, k + sr.len()) == sr;
        let ghost mut kc = k;
        let top = if history.len() < max_order { history.len() } else { max_order };
        let mut order = top;
        while order > 0
            invariant
                self.wf(),
                model_wf(m),
                m == self.view(),
                h == *history,
                order <= top <= max_order <= MAX_ORDER,
                top as int == top_order(h, max_order as int),
                sr == ranges_from(m, h, s, top as int),
                decoder.wf(),
                decoder.data() == data,
                data == old(decoder).data(),
                cond == (s <= 1 && synced(old(decoder).view(), data, rs, k) && k + sr.len()
                    <= rs.len() && rs.subrange(k, k + sr.len()) == sr),
                cond ==> synced(decoder.view(), data, rs, kc) && kc + ranges_from(
                    m,
                    h,
                    s,
                    order as int,
                ).len() == k + sr.len() && rs.subrange(
                    kc,
                    kc + ranges_from(m, h, s, order as int).len(),
                ) == ranges_from(m, h, s, order as int),
                decode_from(m, h, top as int, old(decoder).view(), data) == decode_from(
                    m,
                    h,
                    order as int,
                    decoder.view(),
                    data,
                ),
            decreases order,
        {
            match self.context_for_order(order, history) {
                Some(context) => {
                    if context_is_usable(order, context) {
                        let ghost c = *context;
                        let ghost d0 = decoder.view();
                        proof {
                            if cond {
                                lemma_bctx_ranges(c, s);
                                let rf = ranges_from(m, h, s, order as int);
                                assert(rf.len() >= 1);
                                assert(rs.subrange(kc, kc + rf.len())[0] == rs[kc]);
                                lemma_synced_step(d0, data, rs, kc);
                            }
                        }
                        match context.decode_symbol(decoder) {
                            Ok(Some(sym)) => {
                                proof {
                                    if cond {
                                        kc = kc + 1;
                                    }
                                }
                                return Ok(sym);
                            },
                            Ok(None) => {
                                proof {
                                    if cond {
                                        let rf = ranges_from(m, h, s, order as int);
                                        let rest = ranges_from(m, h, s, order - 1);
                                        if bcount(c, s) > 0 {
                                            assert(in_range(
                                                dec_target(d0, btotal(c)),
                                                bsym_range(c, s),
                                            ));
                                        }
                                        assert(rf == seq![besc_range(c)] + rest);
                                        assert(rs.subrange(kc + 1, kc + 1 + rest.len()) =~= rest)
                                            by {
                                            assert forall|i: int|
                                                0 <= i < rest.len() implies rs.subrange(
                                                kc + 1,
                                                kc + 1 + rest.len(),
                                            )[i] == rest[i] by {
                                                assert(rs.subrange(kc, kc + rf.len())[i + 1]
                                                    == rf[i + 1]);
                                            }
                                        }
                                        kc = kc + 1;
                                    }
                                }
                            },
                            Err(e) => {
                                return Err(e);
                            },
                        }
                    }
                },
                None => {},
            }
            order = order - 1;
        }
        let ghost c = self.order0;
        let ghost d0 = decoder.view();
        proof {
            if cond {
                lemma_bctx_ranges(c, s);
                let rf = ranges_from(m, h, s, 0);
                assert(rf.len() >= 1);
                assert(rs.subrange(kc, kc + rf.len())[0] == rs[kc]);
                lemma_synced_step(d0, data, rs, kc);
            }
        }
        match self.order0.decode_symbol(decoder) {
            Ok(Some(sym)) => {
                proof {
                    if cond {
                        kc = kc + 1;
                    }
                }
                return Ok(sym);
            },
            Ok(None) => {
                proof {
                    if cond {
                        if bcount(c, s) > 0 {
                            assert(in_range(dec_target(d0, btotal(c)), bsym_range(c, s)));
                        }
                        assert(rs[kc + 1] == code_range(s as u32, 1, 2)) by {
                            assert(rs.subrange(kc, kc + 2)[1] == order0_ranges(c, s)[1]);
                        }
                        kc = kc + 1;
                    }
                }
            },
            Err(e) => {
                return Err(e);
            },
        }
        let ghost d1 = decoder.view();
        proof {
            if cond {
                lemma_synced_step(d1, data, rs, kc);
            }
        }
        let value = match decoder.target(2) {
            Ok(v) => v,
            Err(e) => {
                return Err(e);
            },
        };
        let _ = decoder.consume(value, 1, 2);
        proof {
            if cond {
                assert(value as u8 == s);
                kc = kc + 1;
            }
        }
        Ok(value as u8)
    }

    /// Counts bit `symbol` at order 0 and in every context up to
    /// `max_order` of `history`.
    pub fn observe(&mut self, symbol: u8, history: &BitHistory, max_order: usize)
        requires
            old(self).wf(),
            symbol <= 1,
            1 <= max_order <= MAX_ORDER,
        ensures
            final(self).wf(),
            final(self).view() == model_observe(old(self).view(), *history, max_order as int, symbol),
    {
        let ghost m0 = self.view();
        let ghost h = *history;
        self.order0.observe(symbol);
        let top = if history.len() < max_order { history.len() } else { max_order };
        let mut order: usize = 1;
        while order <= top
            invariant
                self.wf(),
                symbol <= 1,
                1 <= order <= top + 1,
                top <= max_order <= MAX_ORDER,
                top as int == top_order(h, max_order as int),
                h == *history,
                model_wf(m0),
                self.view().order0 == bctx_observe(m0.order0, symbol),
                self.contexts@.len() == MAX_ORDER,
                forall|i: int|
                    0 <= i < MAX_ORDER ==> #[trigger] self.view().ctxs[i] == if i + 1 < order {
                        let k = hist_key(h, i + 1);
                        m0.ctxs[i].insert(k, bctx_observe(get_or_empty(m0.ctxs[i], k), symbol))
                    } else {
                        m0.ctxs[i]
                    },
            decreases top + 1 - order,
        {
            let key = history.key(order);
            let idx = order - 1;
            let ghost cur = self.view();
            let ghost cur_contexts = self.contexts@;
            assert(cur.ctxs[idx as int] == m0.ctxs[idx as int]);
            let mut map = self.contexts.remove(idx);
            let ghost before = map@;
            assert(before == cur_contexts[idx as int]@);
            assert(before == m0.ctxs[idx as int]);
            let mut ctx = match map.remove(&key) {
                Some(c) => c,
                None => BitContext::new(),
            };
            assert(ctx == get_or_empty(m0.ctxs[idx as int], key));
            ctx.observe(symbol);
            map.insert(key, ctx);
            let ghost newmap = map@;
            assert(newmap =~= m0.ctxs[idx as int].insert(
                key,
                bctx_observe(get_or_empty(m0.ctxs[idx as int], key), symbol),
            ));
            self.contexts.insert(idx, map);
            assert(self.contexts@ =~= cur_contexts.update(idx as int, map));
            proof {
                assert forall|i: int| 0 <= i < MAX_ORDER implies #[trigger] self.view().ctxs[i]
                    == (if i + 1 < order + 1 {
                    let k = hist_key(h, i + 1);
                    m0.ctxs[i].insert(k, bctx_observe(get_or_empty(m0.ctxs[i], k), symbol))
                } else {
                    m0.ctxs[i]
                }) by {
                    if i != idx {
                        assert(self.contexts@[i] == cur_contexts[i]);
                        assert(self.view().ctxs[i] == cur.ctxs[i]);
                    }
                }
                assert forall|i: int, k: u128|
                    0 <= i < MAX_ORDER && #[trigger] self.view().ctxs[i].contains_key(k) implies bctx_wf(
                    self.view().ctxs[i][k],
                ) by {
                    if i == idx && k == key {
                    } else if i == idx {
                        assert(m0.ctxs[i].contains_key(k));
                    } else {
                        assert(self.view().ctxs[i] == cur.ctxs[i]);
                    }
                }
            }
            order = order + 1;
        }
        assert(self.view().ctxs =~= model_observe(m0, h, max_order as int, symbol).ctxs);
    }

    /// Each order's seen bits for the mixer: order 0 first, then orders 1 up
    /// to the history length, an unusable or missing context contributing
    /// nothing.
    pub fn predictions(&self, history: &BitHistory, max_order: usize) -> (r: Vec<OrderPrediction>)
        requires
            self.wf(),
            1 <= max_order <= MAX_ORDER,
        ensures
            r@.len() == top_order(*history, max_order as int) + 1,
            forall|i: int|
                #![trigger r@[i]] 0 <= i < r@.len() ==> r@[i].order == i && r@[i].symbols@
                    == prediction_spec(self.view(), *history, i),
    {
        let ghost m = self.view();
        let mut predictions: Vec<OrderPrediction> = Vec::new();
        predictions.push(OrderPrediction { order: 0, symbols: self.order0.top_symbols(2) });
        let top = if history.len() < max_order { history.len() } else { max_order };
        let mut order: usize = 1;
        while order <= top
            invariant
                self.wf(),
                m == self.view(),
                1 <= order <= top + 1,
                top <= max_order <= MAX_ORDER,
                top as int == top_order(*history, max_order as int),
                predictions@.len() == order,
                forall|i: int|
                    #![trigger predictions@[i]] 0 <= i < predictions@.len() ==> predictions@[i].order == i
                        && predictions@[i].symbols@ == prediction_spec(m, *history, i),
            decreases top + 1 - order,
        {
            let symbols = match self.context_for_order(order, history) {
                Some(context) => {
                    if context_is_usable(order, context) {
                        context.top_symbols(2)
                    } else {
                        Vec::new()
                    }
                },
                None => Vec::new(),
            };
            let ghost prev = predictions@;
            predictions.push(OrderPrediction { order, symbols });
            assert forall|i: int|
                #![trigger predictions@[i]] 0 <= i < predictions@.len() implies predictions@[i].order == i
                    && predictions@[i].symbols@ == prediction_spec(m, *history, i) by {
                if i < prev.len() {
                    assert(predictions@[i] == prev[i]);
                }
            }
            order = order + 1;
        }
        assert forall|i: int|
            #![trigger predictions@[i]] 0 <= i < predictions@.len() implies predictions@[i].order == i
                && predictions@[i].symbols@ == prediction_spec(self.view(), *history, i) by {
            assert(predictions@[i].symbols@ == prediction_spec(m, *history, i));
        }
        predictions
    }
}

/// One order's view for the mixer: the bits its context has seen, with counts.
pub struct OrderPrediction {
    pub order: usize,
    pub symbols: Vec<(u8, u32)>,
}

/// What order `i` offers the mixer.
pub open spec fn prediction_spec(m: ModelView, h: BitHistory, i: int) -> Seq<(u8, u32)> {
    if i == 0 {
        top_symbols_spec(m.order0, 2)
    } else {
        let k = hist_key(h, i);
        if m.ctxs[i - 1].contains_key(k) && usable(i, m.ctxs[i - 1][k]) {
            top_symbols_spec(m.ctxs[i - 1][k], 2)
        } else {
            Seq::empty()
        }
    }
}


// ---------------------------------------------------------------------------
// Runs over a whole input

/// The bits of `data`, most significant first, as 0/1 symbols.
pub open spec fn bit_syms(data: Seq<u8>) -> Seq<u8> {
    Seq::new((8 * data.len()) as nat, |i: int| if byte_bit(data[i / 8], i % 8) { 1u8 } else { 0u8 })
}

pub open spec fn all_bits(bs: Seq<u8>) -> bool {
    forall|i: int| 0 <= i < bs.len() ==> #[trigger] bs[i] <= 1
}

/// The history after the bits `bs`.
pub open spec fn hist_after(bs: Seq<u8>, max_order: int) -> BitHistory
    decreases bs.len(),
{
    if bs.len() == 0 {
        hist_init(max_order)
    } else {
        hist_push(hist_after(bs.drop_last(), max_order), bs.last())
    }
}

/// The model after the bits `bs`.
pub open spec fn model_after(bs: Seq<u8>, max_order: int) -> ModelView
    decreases bs.len(),
{
    if bs.len() == 0 {
        model_init()
    } else {
        let d = bs.drop_last();
        model_observe(model_after(d, max_order), hist_after(d, max_order), max_order, bs.last())
    }
}

/// Every range the compressor codes for the bits `bs`.
pub open spec fn all_ranges(bs: Seq<u8>, max_order: int) -> Seq<CodeRange>
    decreases bs.len(),
{
    if bs.len() == 0 {
        Seq::empty()
    } else {
        let d = bs.drop_last();
        all_ranges(d, max_order) + symbol_ranges(
            model_after(d, max_order),
            hist_after(d, max_order),
            max_order,
            bs.last(),
        )
    }
}

/// `archive` is what the order-`max_order` compressor tagged `magic` makes of `data`.
pub open spec fn is_archive_of(archive: Seq<u8>, data: Seq<u8>, magic: Seq<u8>, max_order: int) -> bool {
    &&& archive.len() >= 12
    &&& archive.subrange(0, 4) == magic
    &&& archive.subrange(4, 12) == le_bytes_u64(data.len() as u64)
    &&& data.len() <= u64::MAX
    &&& enc_run(all_ranges(bit_syms(data), max_order)) is Some
    &&& bytes_to_bits(archive.subrange(12, archive.len() as int)) == coded_bits(
        all_ranges(bit_syms(data), max_order),
    )
}

/// The coder's deferred-bit counter stays within the machine word.
pub open spec fn compress_ok(data: Seq<u8>, max_order: int) -> bool {
    &&& enc_run(all_ranges(bit_syms(data), max_order)) is Some
    &&& enc_run(all_ranges(bit_syms(data), max_order)).unwrap().pending < usize::MAX
}

proof fn lemma_hist_after_wf(bs: Seq<u8>, max_order: int)
    requires
        1 <= max_order <= MAX_ORDER,
    ensures
        hist_wf(hist_after(bs, max_order)),
        hist_after(bs, max_order).max_order == max_order,
    decreases bs.len(),
{
    if bs.len() > 0 {
        lemma_hist_after_wf(bs.drop_last(), max_order);
    }
}

proof fn lemma_model_observe_wf(m: ModelView, h: BitHistory, max_order: int, s: u8)
    requires
        model_wf(m),
        s <= 1,
    ensures
        model_wf(model_observe(m, h, max_order, s)),
{
    let m2 = model_observe(m, h, max_order, s);
    assert forall|i: int, k: u128|
        0 <= i < MAX_ORDER && #[trigger] m2.ctxs[i].contains_key(k) implies bctx_wf(m2.ctxs[i][k]) by {
        if i + 1 <= top_order(h, max_order) {
            let key = hist_key(h, i + 1);
            if k != key {
                assert(m.ctxs[i].contains_key(k));
            }
        } else {
            assert(m.ctxs[i].contains_key(k));
        }
    }
}

proof fn lemma_model_after_wf(bs: Seq<u8>, max_order: int)
    requires
        all_bits(bs),
    ensures
        model_wf(model_after(bs, max_order)),
    decreases bs.len(),
{
    if bs.len() > 0 {
        let d = bs.drop_last();
        assert(all_bits(d)) by {
            assert forall|i: int| 0 <= i < d.len() implies #[trigger] d[i] <= 1 by {
                assert(d[i] == bs[i]);
            }
        }
        lemma_model_after_wf(d, max_order);
        assert(bs.last() == bs[bs.len() - 1]);
        lemma_model_observe_wf(model_after(d, max_order), hist_after(d, max_order), max_order, bs.last());
    } else {
        assert(model_init().ctxs =~= Seq::new(MAX_ORDER as nat, |_i: int| Map::<u128, BitContext>::empty()));
    }
}

proof fn lemma_ranges_from_codable(m: ModelView, h: BitHistory, s: u8, order: int)
    requires
        model_wf(m),
        s <= 1,
        order <= MAX_ORDER,
    ensures
        forall|i: int|
            0 <= i < ranges_from(m, h, s, order).len() ==> range_codable(
                #[trigger] ranges_from(m, h, s, order)[i],
            ),
        ranges_from(m, h, s, order).len() >= 1,
    decreases order,
{
    if order <= 0 {
        lemma_bctx_ranges(m.order0, s);
    } else {
        let k = hist_key(h, order);
        lemma_ranges_from_codable(m, h, s, order - 1);
        if m.ctxs[order - 1].contains_key(k) && usable(order, m.ctxs[order - 1][k]) {
            let c = m.ctxs[order - 1][k];
            lemma_bctx_ranges(c, s);
            let rest = ranges_from(m, h, s, order - 1);
            if bcount(c, s) == 0 {
                assert forall|i: int| 0 <= i < (seq![besc_range(c)] + rest).len() implies range_codable(
                    #[trigger] (seq![besc_range(c)] + rest)[i],
                ) by {
                    if i > 0 {
                        assert((seq![besc_range(c)] + rest)[i] == rest[i - 1]);
                    }
                }
            }
        }
    }
}

proof fn lemma_all_ranges_codable(bs: Seq<u8>, max_order: int)
    requires
        1 <= max_order <= MAX_ORDER,
        all_bits(bs),
    ensures
        forall|i: int|
            0 <= i < all_ranges(bs, max_order).len() ==> range_codable(
                #[trigger] all_ranges(bs, max_order)[i],
            ),
    decreases bs.len(),
{
    if bs.len() > 0 {
        let d = bs.drop_last();
        assert(all_bits(d)) by {
            assert forall|i: int| 0 <= i < d.len() implies #[trigger] d[i] <= 1 by {
                assert(d[i] == bs[i]);
            }
        }
        lemma_all_ranges_codable(d, max_order);
        lemma_model_after_wf(d, max_order);
        let a = all_ranges(d, max_order);
        let h = hist_after(d, max_order);
        let sr = symbol_ranges(model_after(d, max_order), h, max_order, bs.last());
        assert(bs.last() == bs[bs.len() - 1]);
        lemma_ranges_from_codable(model_after(d, max_order), h, bs.last(), top_order(h, max_order));
        assert forall|i: int| 0 <= i < (a + sr).len() implies range_codable(#[trigger] (a + sr)[i]) by {
            if i >= a.len() {
                assert((a + sr)[i] == sr[i - a.len()]);
            } else {
                assert((a + sr)[i] == a[i]);
            }
        }
    }
}

/// The ranges of a prefix of the bits begin the ranges of the bits.
proof fn lemma_all_ranges_prefix(bs: Seq<u8>, max_order: int, j: int)
    requires
        0 <= j <= bs.len(),
    ensures
        all_ranges(bs.take(j), max_order).len() <= all_ranges(bs, max_order).len(),
        all_ranges(bs, max_order).take(all_ranges(bs.take(j), max_order).len() as int)
            == all_ranges(bs.take(j), max_order),
    decreases bs.len() - j,
{
    if j == bs.len() {
        assert(bs.take(j) =~= bs);
        assert(all_ranges(bs, max_order).take(all_ranges(bs, max_order).len() as int)
            =~= all_ranges(bs, max_order));
    } else {
        lemma_all_ranges_prefix(bs, max_order, j + 1);
        let a = all_ranges(bs.take(j), max_order);
        let b = all_ranges(bs.take(j + 1), max_order);
        assert(bs.take(j + 1).drop_last() =~= bs.take(j));
        assert(b == a + symbol_ranges(
            model_after(bs.take(j), max_order),
            hist_after(bs.take(j), max_order),
            max_order,
            bs[j],
        ));
        assert(all_ranges(bs, max_order).take(a.len() as int) =~= b.take(a.len() as int));
        assert(b.take(a.len() as int) =~= a);
    }
}

proof fn lemma_bit_syms(data: Seq<u8>)
    ensures
        all_bits(bit_syms(data)),
        bit_syms(data).len() == 8 * data.len(),
        forall|i: int, j: int|
            0 <= i < data.len() && 0 <= j < 8 ==> #[trigger] bit_syms(data)[8 * i + j] == (if byte_bit(
                data[i],
                j,
            ) {
                1u8
            } else {
                0u8
            }),
{
    assert forall|i: int, j: int| 0 <= i < data.len() && 0 <= j < 8 implies #[trigger] bit_syms(
        data,
    )[8 * i + j] == (if byte_bit(data[i], j) { 1u8 } else { 0u8 }) by {
        assert((8 * i + j) / 8 == i);
        assert((8 * i + j) % 8 == j);
    }
}

/// Compresses `data` with bit contexts of up to `max_order` bits.
#[verifier::spinoff_prover]
#[verifier::rlimit(40)]
pub fn compress_with_order(data: &[u8], magic: [u8; 4], max_order: usize) -> (r: Result<
    Vec<u8>,
    CodecError,
>)
    requires
        1 <= max_order <= MAX_ORDER,
    ensures
        r is Ok <==> compress_ok(data@, max_order as int),
        r is Ok ==> is_archive_of(r->Ok_0@, data@, magic@, max_order as int),
        r is Err ==> r == Err::<Vec<u8>, CodecError>(CodecError::PendingOverflow),
{
    let mut out: Vec<u8> = Vec::new();
    out.push(magic[0]);
    out.push(magic[1]);
    out.push(magic[2]);
    out.push(magic[3]);
    push_u64_le(&mut out, data.len() as u64);
    let ghost header = out@;
    let mut model = Model::new();
    let mut encoder = ArithmeticEncoder::new();
    let mut history = BitHistory::new(max_order);
    let ghost m = max_order as int;
    let ghost bs = bit_syms(data@);
    proof {
        lemma_bit_syms(data@);
    }
    assert(bs.take(0) =~= Seq::<u8>::empty());
    let mut i: usize = 0;
    while i < data.len()
        invariant
            1 <= max_order <= MAX_ORDER,
            m == max_order as int,
            i <= data@.len(),
            bs == bit_syms(data@),
            all_bits(bs),
            bs.len() == 8 * data@.len(),
            forall|a: int, b: int|
                0 <= a < data@.len() && 0 <= b < 8 ==> #[trigger] bs[8 * a + b] == (if byte_bit(
                    data@[a],
                    b,
                ) {
                    1u8
                } else {
                    0u8
                }),
            model.wf(),
            model.view() == model_after(bs.take(8 * i), m),
            history == hist_after(bs.take(8 * i), m),
            hist_wf(history),
            encoder.wf(),
            enc_run(all_ranges(bs.take(8 * i), m)) == Some(encoder.view()),
            out@ == header,
        decreases data@.len() - i,
    {
        let byte = data[i];
        let mut bits = ByteBits::new(byte);
        let mut j: usize = 0;
        while j < 8
            invariant
                1 <= max_order <= MAX_ORDER,
                m == max_order as int,
                i < data@.len(),
                byte == data@[i as int],
                j <= 8,
                bits.wf(),
                bits.byte() == byte,
                bits.emitted() == j,
                bs == bit_syms(data@),
                all_bits(bs),
                bs.len() == 8 * data@.len(),
                forall|a: int, b: int|
                    0 <= a < data@.len() && 0 <= b < 8 ==> #[trigger] bs[8 * a + b] == (if byte_bit(
                        data@[a],
                        b,
                    ) {
                        1u8
                    } else {
                        0u8
                    }),
                model.wf(),
                model.view() == model_after(bs.take(8 * i + j), m),
                history == hist_after(bs.take(8 * i + j), m),
                hist_wf(history),
                encoder.wf(),
                enc_run(all_ranges(bs.take(8 * i + j), m)) == Some(encoder.view()),
                out@ == header,
            decreases 8 - j,
        {
            let bit = bits.next().unwrap();
            let ghost n = 8 * i + j;
            proof {
                assert(bs[8 * i + j] == bit);
                assert(bs.take(n + 1).drop_last() =~= bs.take(n));
                assert(bs.take(n + 1).last() == bit);
                lemma_hist_after_wf(bs.take(n), m);
                lemma_enc_run_append(
                    all_ranges(bs.take(n), m),
                    symbol_ranges(model.view(), history, m, bit),
                );
            }
            match model.encode_symbol(bit, &history, max_order, &mut encoder) {
                Ok(()) => {},
                Err(e) => {
                    proof {
                        lemma_all_ranges_prefix(bs, m, n + 1);
                        let a = all_ranges(bs.take(n + 1), m);
                        let full = all_ranges(bs, m);
                        assert(full =~= a + full.subrange(a.len() as int, full.len() as int));
                        lemma_enc_run_append(a, full.subrange(a.len() as int, full.len() as int));
                        assert(bs =~= bit_syms(data@));
                    }
                    return Err(e);
                },
            }
            model.observe(bit, &history, max_order);
            history.push(bit);
            j = j + 1;
        }
        i = i + 1;
    }
    assert(bs.take(8 * data@.len() as int) =~= bs);
    match encoder.finish() {
        Ok(payload) => {
            let ghost p = payload@;
            let mut k: usize = 0;
            while k < payload.len()
                invariant
                    k <= payload@.len(),
                    p == payload@,
                    out@ == header + p.take(k as int),
                decreases payload@.len() - k,
            {
                out.push(payload[k]);
                k = k + 1;
                assert(out@ =~= header + p.take(k as int));
            }
            assert(p.take(p.len() as int) =~= p);
            assert(out@.subrange(0, 4) =~= magic@);
            assert(out@.subrange(4, 12) =~= le_bytes_u64(data@.len() as u64));
            assert(out@.subrange(12, out@.len() as int) =~= p);
            Ok(out)
        },
        Err(e) => Err(e),
    }
}


/// The 0/1 symbols read as bits.
pub open spec fn sym_bools(bs: Seq<u8>) -> Seq<bool> {
    Seq::new(bs.len(), |i: int| bs[i] == 1u8)
}

proof fn lemma_sym_bools_of_data(data: Seq<u8>)
    ensures
        sym_bools(bit_syms(data)) == bytes_to_bits(data),
{
    assert(sym_bools(bit_syms(data)) =~= bytes_to_bits(data));
}

/// The first `n` bits decoded from `payload` with contexts of up to
/// `max_order` bits, and the decoder's state after them.
pub open spec fn bits_decoded(payload: Seq<u8>, n: nat, max_order: int) -> (Seq<u8>, DecState)
    decreases n,
{
    if n == 0 {
        (Seq::empty(), dec_init(payload))
    } else {
        let (prev, d) = bits_decoded(payload, (n - 1) as nat, max_order);
        let h = hist_after(prev, max_order);
        let (b, d2) = decode_from(model_after(prev, max_order), h, top_order(h, max_order), d, payload);
        (prev.push(b), d2)
    }
}

proof fn lemma_bits_decoded_len(payload: Seq<u8>, n: nat, max_order: int)
    ensures
        bits_decoded(payload, n, max_order).0.len() == n,
    decreases n,
{
    if n > 0 {
        lemma_bits_decoded_len(payload, (n - 1) as nat, max_order);
    }
}

/// Restores the bytes of an archive made by `compress_with_order`.
#[verifier::spinoff_prover]
#[verifier::rlimit(40)]
pub fn decompress_with_order(archive: &[u8], magic: [u8; 4], max_order: usize) -> (r: Result<
    Vec<u8>,
    CodecError,
>)
    requires
        1 <= max_order <= MAX_ORDER,
    ensures
        archive@.len() < 4 ==> r == Err::<Vec<u8>, CodecError>(CodecError::UnexpectedEof),
        archive@.len() >= 4 && archive@.subrange(0, 4) != magic@ ==> r == Err::<
            Vec<u8>,
            CodecError,
        >(CodecError::InvalidMagic),
        archive@.len() >= 4 && archive@.subrange(0, 4) == magic@ && archive@.len() < 12 ==> r
            == Err::<Vec<u8>, CodecError>(CodecError::UnexpectedEof),
        archive@.len() >= 12 && archive@.subrange(0, 4) == magic@ ==> r is Ok
            && r->Ok_0@.len() == le_u64(archive@.subrange(4, 12)) && bytes_to_bits(r->Ok_0@) == sym_bools(
            bits_decoded(
                archive@.subrange(12, archive@.len() as int),
                8 * le_u64(archive@.subrange(4, 12)) as nat,
                max_order as int,
            ).0,
        ),
        forall|d: Seq<u8>|
            is_archive_of(archive@, d, magic@, max_order as int) ==> r == Ok::<
                Vec<u8>,
                CodecError,
            >(r->Ok_0) && r->Ok_0@ == d,
{
    if archive.len() < 4 {
        return Err(CodecError::UnexpectedEof);
    }
    if archive[0] != magic[0] || archive[1] != magic[1] || archive[2] != magic[2] || archive[3]
        != magic[3] {
        assert(archive@.subrange(0, 4) != magic@) by {
            if archive@.subrange(0, 4) == magic@ {
                assert(archive@.subrange(0, 4)[0] == archive@[0]);
                assert(archive@.subrange(0, 4)[1] == archive@[1]);
                assert(archive@.subrange(0, 4)[2] == archive@[2]);
                assert(archive@.subrange(0, 4)[3] == archive@[3]);
            }
        }
        return Err(CodecError::InvalidMagic);
    }
    assert(archive@.subrange(0, 4) =~= magic@);
    let expected_len = match read_u64(archive, 4) {
        Some(v) => v,
        None => {
            return Err(CodecError::UnexpectedEof);
        },
    };
    let payload = vstd::slice::slice_subrange(archive, 12, archive.len());
    let ghost m = max_order as int;
    let ghost cond = exists|d: Seq<u8>| is_archive_of(archive@, d, magic@, m);
    let ghost d = choose|d: Seq<u8>| is_archive_of(archive@, d, magic@, m);
    let ghost bs = bit_syms(d);
    let ghost rs = all_ranges(bs, m);
    let mut model = Model::new();
    let mut decoder = ArithmeticDecoder::new(payload);
    let mut history = BitHistory::new(max_order);
    let mut restored = ByteCollector::with_capacity(0);
    let ghost mut dec: Seq<u8> = Seq::empty();
    proof {
        lemma_bit_syms(d);
        if cond {
            lemma_le_u64_roundtrip(d.len() as u64);
            lemma_all_ranges_codable(bs, m);
            assert(bs.take(0) =~= Seq::<u8>::empty());
            assert(rs.take(0) =~= Seq::<CodeRange>::empty());
        }
        assert(sym_bools(dec) =~= restored.view());
    }
    while (restored.len() as u64) < expected_len
        invariant
            1 <= max_order <= MAX_ORDER,
            m == max_order as int,
            dec.len() <= 8 * expected_len,
            expected_len == le_u64(archive@.subrange(4, 12)),
            model.wf(),
            model.view() == model_after(dec, m),
            history == hist_after(dec, m),
            hist_wf(history),
            history.max_order == max_order,
            restored.wf(),
            restored.view() == sym_bools(dec),
            all_bits(dec),
            dec == bits_decoded(payload@, dec.len(), m).0,
            decoder.view() == bits_decoded(payload@, dec.len(), m).1,
            decoder.wf(),
            decoder.data() == payload@,
            payload@ == archive@.subrange(12, archive@.len() as int),
            bs == bit_syms(d),
            all_bits(bs),
            bs.len() == 8 * d.len(),
            rs == all_ranges(bs, m),
            cond ==> is_archive_of(archive@, d, magic@, m),
            cond ==> expected_len == d.len(),
            cond ==> dec == bs.take(dec.len() as int) && synced(
                decoder.view(),
                payload@,
                rs,
                all_ranges(dec, m).len() as int,
            ),
        decreases 8 * expected_len - dec.len(),
    {
        let ghost n = dec.len() as int;
        let ghost sb = bs[n];
        let ghost k = all_ranges(dec, m).len() as int;
        proof {
            assert(n < 8 * expected_len);
            if cond {
                assert(bs.take(n + 1).drop_last() =~= bs.take(n));
                assert(bs.take(n + 1).last() == sb);
                lemma_all_ranges_prefix(bs, m, n + 1);
                let a = all_ranges(bs.take(n), m);
                let sr = symbol_ranges(model.view(), history, m, sb);
                assert(all_ranges(bs.take(n + 1), m) == a + sr);
                assert(rs.subrange(k, k + sr.len()) =~= sr) by {
                    assert forall|j: int| 0 <= j < sr.len() implies rs.subrange(k, k + sr.len())[j]
                        == sr[j] by {
                        assert(rs.take((a + sr).len() as int)[k + j] == (a + sr)[k + j]);
                    }
                }
            }
        }
        let bit = match model.decode_symbol(
            &history,
            max_order,
            &mut decoder,
            Ghost(rs),
            Ghost(k),
            Ghost(sb),
        ) {
            Ok(b) => b,
            Err(e) => {
                return Err(e);
            },
        };
        let _ = restored.push(bit);
        let ghost before = dec;
        proof {
            dec = dec.push(bit);
            assert(restored.view() =~= sym_bools(dec));
            assert(dec.drop_last() =~= before);
            lemma_bits_decoded_len(payload@, before.len(), m);
            assert(all_bits(dec)) by {
                assert forall|i: int| 0 <= i < dec.len() implies #[trigger] dec[i] <= 1 by {
                    if i < before.len() {
                        assert(dec[i] == before[i]);
                    }
                }
            }
            if cond {
                assert(dec =~= bs.take(n + 1));
            }
        }
        model.observe(bit, &history, max_order);
        history.push(bit);
    }
    proof {
        assert(dec.len() == 8 * expected_len);
        lemma_bits_decoded_len(payload@, dec.len(), m);
    }
    let out = match restored.finish() {
        Ok(v) => v,
        Err(e) => {
            return Err(e);
        },
    };
    proof {
        assert(bytes_to_bits(out@).len() == 8 * out@.len());
        assert(out@.len() == expected_len) by (nonlinear_arith)
            requires
                8 * out@.len() == 8 * expected_len,
        ;
        if cond {
            assert(dec =~= bs);
            lemma_sym_bools_of_data(d);
            lemma_bytes_to_bits_injective(out@, d);
            assert forall|d2: Seq<u8>| is_archive_of(archive@, d2, magic@, m) implies d2 == d by {
                lemma_archive_unique(archive@, d, d2, magic@, m);
            }
        }
    }
    Ok(out)
}

// --- the code is prefix-free ---

/// For distinct bits the range sequences agree up to a position where the
/// two ranges share a total but not a value.
proof fn lemma_ranges_diverge(m: ModelView, h: BitHistory, a: u8, b: u8, order: int) -> (j: int)
    requires
        model_wf(m),
        a <= 1,
        b <= 1,
        a != b,
        order <= MAX_ORDER,
    ensures
        0 <= j < ranges_from(m, h, a, order).len(),
        j < ranges_from(m, h, b, order).len(),
        ranges_from(m, h, a, order).take(j) == ranges_from(m, h, b, order).take(j),
        ranges_from(m, h, a, order)[j].total == ranges_from(m, h, b, order)[j].total,
        !ranges_overlap(ranges_from(m, h, a, order)[j], ranges_from(m, h, b, order)[j]),
    decreases order,
{
    let ra = ranges_from(m, h, a, order);
    let rb = ranges_from(m, h, b, order);
    if order <= 0 {
        let c = m.order0;
        lemma_bctx_ranges(c, a);
        lemma_bctx_ranges(c, b);
        if bcount(c, a) > 0 || bcount(c, b) > 0 {
            assert(ra.take(0) =~= rb.take(0));
            0
        } else {
            assert(ra.take(1) =~= rb.take(1));
            1
        }
    } else {
        let k = hist_key(h, order);
        if m.ctxs[order - 1].contains_key(k) && usable(order, m.ctxs[order - 1][k]) {
            let c = m.ctxs[order - 1][k];
            lemma_bctx_ranges(c, a);
            lemma_bctx_ranges(c, b);
            if bcount(c, a) > 0 || bcount(c, b) > 0 {
                assert(ra.take(0) =~= rb.take(0));
                0
            } else {
                let j = lemma_ranges_diverge(m, h, a, b, order - 1);
                let xa = ranges_from(m, h, a, order - 1);
                let xb = ranges_from(m, h, b, order - 1);
                assert(ra == seq![besc_range(c)] + xa);
                assert(rb == seq![besc_range(c)] + xb);
                assert(ra.take(j + 1) =~= seq![besc_range(c)] + xa.take(j));
                assert(rb.take(j + 1) =~= seq![besc_range(c)] + xb.take(j));
                assert(ra[j + 1] == xa[j]);
                assert(rb[j + 1] == xb[j]);
                j + 1
            }
        } else {
            lemma_ranges_diverge(m, h, a, b, order - 1)
        }
    }
}

/// Two inputs never produce the same archive.
pub proof fn lemma_archive_unique(archive: Seq<u8>, d1: Seq<u8>, d2: Seq<u8>, magic: Seq<u8>, max_order: int)
    requires
        1 <= max_order <= MAX_ORDER,
        is_archive_of(archive, d1, magic, max_order),
        is_archive_of(archive, d2, magic, max_order),
    ensures
        d1 == d2,
{
    lemma_le_u64_roundtrip(d1.len() as u64);
    lemma_le_u64_roundtrip(d2.len() as u64);
    assert(d1.len() == d2.len());
    lemma_bit_syms(d1);
    lemma_bit_syms(d2);
    let b1 = bit_syms(d1);
    let b2 = bit_syms(d2);
    assert(b1.take(0) =~= b2.take(0));
    lemma_unique_from(archive, d1, d2, magic, max_order, 0);
    lemma_sym_bools_of_data(d1);
    lemma_sym_bools_of_data(d2);
    lemma_bytes_to_bits_injective(d1, d2);
}

#[verifier::spinoff_prover]
#[verifier::rlimit(50)]
proof fn lemma_unique_from(archive: Seq<u8>, d1: Seq<u8>, d2: Seq<u8>, magic: Seq<u8>, max_order: int, i: int)
    requires
        1 <= max_order <= MAX_ORDER,
        is_archive_of(archive, d1, magic, max_order),
        is_archive_of(archive, d2, magic, max_order),
        d1.len() == d2.len(),
        0 <= i <= 8 * d1.len(),
        bit_syms(d1).take(i) == bit_syms(d2).take(i),
    ensures
        bit_syms(d1) == bit_syms(d2),
    decreases 8 * d1.len() - i,
{
    let b1 = bit_syms(d1);
    let b2 = bit_syms(d2);
    lemma_bit_syms(d1);
    lemma_bit_syms(d2);
    if i == 8 * d1.len() {
        assert(b1 =~= b1.take(i));
        assert(b2 =~= b2.take(i));
    } else if b1[i] == b2[i] {
        assert(b1.take(i + 1) =~= b1.take(i).push(b1[i]));
        assert(b2.take(i + 1) =~= b2.take(i).push(b2[i]));
        lemma_unique_from(archive, d1, d2, magic, max_order, i + 1);
    } else {
        let p = b1.take(i);
        assert(all_bits(p)) by {
            assert forall|x: int| 0 <= x < p.len() implies #[trigger] p[x] <= 1 by {
                assert(p[x] == b1[x]);
            }
        }
        let mm = model_after(p, max_order);
        let h = hist_after(p, max_order);
        let a = b1[i];
        let b = b2[i];
        lemma_model_after_wf(p, max_order);
        let j = lemma_ranges_diverge(mm, h, a, b, top_order(h, max_order));
        let ra = symbol_ranges(mm, h, max_order, a);
        let rb = symbol_ranges(mm, h, max_order, b);
        let pre = all_ranges(p, max_order);
        let k = pre.len() as int;
        let rs1 = all_ranges(b1, max_order);
        let rs2 = all_ranges(b2, max_order);
        lemma_all_ranges_prefix(b1, max_order, i + 1);
        lemma_all_ranges_prefix(b2, max_order, i + 1);
        assert(b1.take(i + 1).drop_last() =~= b1.take(i));
        assert(b2.take(i + 1).drop_last() =~= b2.take(i));
        assert(all_ranges(b1.take(i + 1), max_order) == pre + ra);
        assert(all_ranges(b2.take(i + 1), max_order) == pre + rb);
        assert(rs1.take(k + j) =~= pre + ra.take(j)) by {
            assert(rs1.take((pre + ra).len() as int) == pre + ra);
            assert forall|x: int| 0 <= x < k + j implies rs1.take(k + j)[x] == (pre + ra.take(j))[x] by {
                assert(rs1.take((pre + ra).len() as int)[x] == (pre + ra)[x]);
            }
        }
        assert(rs2.take(k + j) =~= pre + rb.take(j)) by {
            assert(rs2.take((pre + rb).len() as int) == pre + rb);
            assert forall|x: int| 0 <= x < k + j implies rs2.take(k + j)[x] == (pre + rb.take(j))[x] by {
                assert(rs2.take((pre + rb).len() as int)[x] == (pre + rb)[x]);
            }
        }
        assert(rs1[k + j] == ra[j]) by {
            assert(rs1.take((pre + ra).len() as int)[k + j] == (pre + ra)[k + j]);
        }
        assert(rs2[k + j] == rb[j]) by {
            assert(rs2.take((pre + rb).len() as int)[k + j] == (pre + rb)[k + j]);
        }
        let payload = archive.subrange(12, archive.len() as int);
        lemma_all_ranges_codable(b1, max_order);
        lemma_all_ranges_codable(b2, max_order);
        crate::arith::lemma_decode_finds_range(rs1, payload, k + j);
        crate::arith::lemma_decode_finds_range(rs2, payload, k + j);
        let t = dec_target(dec_run(payload, rs1.take(k + j)), ra[j].total as int);
        assert(in_range(t, ra[j]) && in_range(t, rb[j]));
        assert(ranges_overlap(ra[j], rb[j]));
    }
}


/// Compresses `data` with bit contexts of up to 3 bits.
pub fn compress_order3(data: &[u8]) -> (r: Result<Vec<u8>, CodecError>)
    ensures
        r is Ok <==> compress_ok(data@, 3),
        r is Ok ==> is_archive_of(r->Ok_0@, data@, magic_order3_spec(), 3),
        r is Err ==> r == Err::<Vec<u8>, CodecError>(CodecError::PendingOverflow),
{
    compress_with_order(data, magic_order3(), 3)
}

/// Restores the bytes of an archive made by `compress_order3`.
pub fn decompress_order3(archive: &[u8]) -> (r: Result<Vec<u8>, CodecError>)
    ensures
        archive@.len() < 4 ==> r == Err::<Vec<u8>, CodecError>(CodecError::UnexpectedEof),
        archive@.len() >= 4 && archive@.subrange(0, 4) != magic_order3_spec() ==> r == Err::<
            Vec<u8>,
            CodecError,
        >(CodecError::InvalidMagic),
        archive@.len() >= 4 && archive@.subrange(0, 4) == magic_order3_spec() && archive@.len() < 12
            ==> r == Err::<Vec<u8>, CodecError>(CodecError::UnexpectedEof),
        archive@.len() >= 12 && archive@.subrange(0, 4) == magic_order3_spec() ==> r is Ok
            && r->Ok_0@.len() == le_u64(archive@.subrange(4, 12)) && bytes_to_bits(r->Ok_0@) == sym_bools(
            bits_decoded(
                archive@.subrange(12, archive@.len() as int),
                8 * le_u64(archive@.subrange(4, 12)) as nat,
                3,
            ).0,
        ),
        forall|d: Seq<u8>|
            is_archive_of(archive@, d, magic_order3_spec(), 3) ==> r is Ok && r->Ok_0@ == d,
{
    decompress_with_order(archive, magic_order3(), 3)
}

/// Compresses `data` with bit contexts of up to 8 bits.
pub fn compress_order8(data: &[u8]) -> (r: Result<Vec<u8>, CodecError>)
    ensures
        r is Ok <==> compress_ok(data@, 8),
        r is Ok ==> is_archive_of(r->Ok_0@, data@, magic_order8_spec(), 8),
        r is Err ==> r == Err::<Vec<u8>, CodecError>(CodecError::PendingOverflow),
{
    compress_with_order(data, magic_order8(), 8)
}

/// Restores the bytes of an archive made by `compress_order8`.
pub fn decompress_order8(archive: &[u8]) -> (r: Result<Vec<u8>, CodecError>)
    ensures
        archive@.len() < 4 ==> r == Err::<Vec<u8>, CodecError>(CodecError::UnexpectedEof),
        archive@.len() >= 4 && archive@.subrange(0, 4) != magic_order8_spec() ==> r == Err::<
            Vec<u8>,
            CodecError,
        >(CodecError::InvalidMagic),
        archive@.len() >= 4 && archive@.subrange(0, 4) == magic_order8_spec() && archive@.len() < 12
            ==> r == Err::<Vec<u8>, CodecError>(CodecError::UnexpectedEof),
        archive@.len() >= 12 && archive@.subrange(0, 4) == magic_order8_spec() ==> r is Ok
            && r->Ok_0@.len() == le_u64(archive@.subrange(4, 12)) && bytes_to_bits(r->Ok_0@) == sym_bools(
            bits_decoded(
                archive@.subrange(12, archive@.len() as int),
                8 * le_u64(archive@.subrange(4, 12)) as nat,
                8,
            ).0,
        ),
        forall|d: Seq<u8>|
            is_archive_of(archive@, d, magic_order8_spec(), 8) ==> r is Ok && r->Ok_0@ == d,
{
    decompress_with_order(archive, magic_order8(), 8)
}

/// Compresses `data` with bit contexts of up to 16 bits.
pub fn compress_order16(data: &[u8]) -> (r: Result<Vec<u8>, CodecError>)
    ensures
        r is Ok <==> compress_ok(data@, 16),
        r is Ok ==> is_archive_of(r->Ok_0@, data@, magic_order16_spec(), 16),
        r is Err ==> r == Err::<Vec<u8>, CodecError>(CodecError::PendingOverflow),
{
    compress_with_order(data, magic_order16(), 16)
}

/// Restores the bytes of an archive made by `compress_order16`.
pub fn decompress_order16(archive: &[u8]) -> (r: Result<Vec<u8>, CodecError>)
    ensures
        archive@.len() < 4 ==> r == Err::<Vec<u8>, CodecError>(CodecError::UnexpectedEof),
        archive@.len() >= 4 && archive@.subrange(0, 4) != magic_order16_spec() ==> r == Err::<
            Vec<u8>,
            CodecError,
        >(CodecError::InvalidMagic),
        archive@.len() >= 4 && archive@.subrange(0, 4) == magic_order16_spec() && archive@.len() < 12
            ==> r == Err::<Vec<u8>, CodecError>(CodecError::UnexpectedEof),
        archive@.len() >= 12 && archive@.subrange(0, 4) == magic_order16_spec() ==> r is Ok
            && r->Ok_0@.len() == le_u64(archive@.subrange(4, 12)) && bytes_to_bits(r->Ok_0@) == sym_bools(
            bits_decoded(
                archive@.subrange(12, archive@.len() as int),
                8 * le_u64(archive@.subrange(4, 12)) as nat,
                16,
            ).0,
        ),
        forall|d: Seq<u8>|
            is_archive_of(archive@, d, magic_order16_spec(), 16) ==> r is Ok && r->Ok_0@ == d,
{
    decompress_with_order(archive, magic_order16(), 16)
}

/// Compresses `data` with bit contexts of up to 32 bits.
pub fn compress_order32(data: &[u8]) -> (r: Result<Vec<u8>, CodecError>)
    ensures
        r is Ok <==> compress_ok(data@, 32),
        r is Ok ==> is_archive_of(r->Ok_0@, data@, magic_order32_spec(), 32),
        r is Err ==> r == Err::<Vec<u8>, CodecError>(CodecError::PendingOverflow),
{
    compress_with_order(data, magic_order32(), 32)
}

/// Restores the bytes of an archive made by `compress_order32`.
pub fn decompress_order32(archive: &[u8]) -> (r: Result<Vec<u8>, CodecError>)
    ensures
        archive@.len() < 4 ==> r == Err::<Vec<u8>, CodecError>(CodecError::UnexpectedEof),
        archive@.len() >= 4 && archive@.subrange(0, 4) != magic_order32_spec() ==> r == Err::<
            Vec<u8>,
            CodecError,
        >(CodecError::InvalidMagic),
        archive@.len() >= 4 && archive@.subrange(0, 4) == magic_order32_spec() && archive@.len() < 12
            ==> r == Err::<Vec<u8>, CodecError>(CodecError::UnexpectedEof),
        archive@.len() >= 12 && archive@.subrange(0, 4) == magic_order32_spec() ==> r is Ok
            && r->Ok_0@.len() == le_u64(archive@.subrange(4, 12)) && bytes_to_bits(r->Ok_0@) == sym_bools(
            bits_decoded(
                archive@.subrange(12, archive@.len() as int),
                8 * le_u64(archive@.subrange(4, 12)) as nat,
                32,
            ).0,
        ),
        forall|d: Seq<u8>|
            is_archive_of(archive@, d, magic_order32_spec(), 32) ==> r is Ok && r->Ok_0@ == d,
{
    decompress_with_order(archive, magic_order32(), 32)
}

/// Compresses `data` with bit contexts of up to 64 bits.
pub fn compress_order64(data: &[u8]) -> (r: Result<Vec<u8>, CodecError>)
    ensures
        r is Ok <==> compress_ok(data@, 64),
        r is Ok ==> is_archive_of(r->Ok_0@, data@, magic_order64_spec(), 64),
        r is Err ==> r == Err::<Vec<u8>, CodecError>(CodecError::PendingOverflow),
{
    compress_with_order(data, magic_order64(), 64)
}

/// Restores the bytes of an archive made by `compress_order64`.
pub fn decompress_order64(archive: &[u8]) -> (r: Result<Vec<u8>, CodecError>)
    ensures
        archive@.len() < 4 ==> r == Err::<Vec<u8>, CodecError>(CodecError::UnexpectedEof),
        archive@.len() >= 4 && archive@.subrange(0, 4) != magic_order64_spec() ==> r == Err::<
            Vec<u8>,
            CodecError,
        >(CodecError::InvalidMagic),
        archive@.len() >= 4 && archive@.subrange(0, 4) == magic_order64_spec() && archive@.len() < 12
            ==> r == Err::<Vec<u8>, CodecError>(CodecError::UnexpectedEof),
        archive@.len() >= 12 && archive@.subrange(0, 4) == magic_order64_spec() ==> r is Ok
            && r->Ok_0@.len() == le_u64(archive@.subrange(4, 12)) && bytes_to_bits(r->Ok_0@) == sym_bools(
            bits_decoded(
                archive@.subrange(12, archive@.len() as int),
                8 * le_u64(archive@.subrange(4, 12)) as nat,
                64,
            ).0,
        ),
        forall|d: Seq<u8>|
            is_archive_of(archive@, d, magic_order64_spec(), 64) ==> r is Ok && r->Ok_0@ == d,
{
    decompress_with_order(archive, magic_order64(), 64)
}

// ---------------------------------------------------------------------------
// Coding against the mixer's weights

/// The coding total of a mixed candidate list: its weights plus the escape.
pub fn mixed_total(candidates: &[WeightedSymbol]) -> (t: u32)
    requires
        weight_sum(candidates@) + MIX_ESCAPE_FREQ <= u32::MAX,
    ensures
        t == weight_sum(candidates@) + MIX_ESCAPE_FREQ,
{
    total_weight(candidates, MIX_ESCAPE_FREQ)
}

/// Codes bit `symbol` against the mixer's weighted candidates; a bit not
/// listed escapes and is then coded flat.
pub fn encode_mixed_symbol(
    symbol: u8,
    candidates: &[WeightedSymbol],
    encoder: &mut ArithmeticEncoder,
) -> (r: Result<(), CodecError>)
    requires
        candidates_codable(candidates@, MIX_ESCAPE_FREQ),
        symbol <= 1,
        old(encoder).wf(),
    ensures
        r is Ok ==> final(encoder).wf(),
        match enc_seq(
            old(encoder).view(),
            candidate_ranges(candidates@, symbol, MIX_ESCAPE_FREQ, 2),
        ) {
            Some(s) => r is Ok && final(encoder).view() == s,
            None => r == Err::<(), CodecError>(CodecError::PendingOverflow),
        },
{
    encode_candidates(symbol, candidates, MIX_ESCAPE_FREQ, 2, encoder)
}

/// Decodes a bit coded by `encode_mixed_symbol` with the same candidates.
pub fn decode_mixed_symbol(candidates: &[WeightedSymbol], decoder: &mut ArithmeticDecoder) -> (r: Result<
    u8,
    CodecError,
>)
    requires
        candidates_codable(candidates@, MIX_ESCAPE_FREQ),
        old(decoder).wf(),
    ensures
        final(decoder).wf(),
        final(decoder).data() == old(decoder).data(),
        r == Ok::<u8, CodecError>(
            decode_outcome(candidates@, MIX_ESCAPE_FREQ, 2, old(decoder).view(), old(decoder).data()).0,
        ),
        final(decoder).view() == decode_outcome(
            candidates@,
            MIX_ESCAPE_FREQ,
            2,
            old(decoder).view(),
            old(decoder).data(),
        ).1,
{
    decode_candidates(
        candidates,
        MIX_ESCAPE_FREQ,
        2,
        decoder,
        Ghost(Seq::<CodeRange>::empty()),
        Ghost(0int),
        Ghost(0u8),
    )
}

} // verus!

verus! {

proof fn lemma_key_fields(a: u128, b: u128, c: u128, o: u128)
    by (bit_vector)
    requires
        o <= 64,
        a < (1u128 << o),
        b < 8,
        c < 256,
    ensures
        (((a | (b << o)) | (c << (o + 3))) >> (o + 3)) == c,
        ((((a | (b << o)) | (c << (o + 3))) >> o) & 7) == b,
        (((a | (b << o)) | (c << (o + 3))) & (((1u128 << o) - 1) as u128)) == a,
{
}

proof fn lemma_masked_below(x: u64, o: u64)
    by (bit_vector)
    requires
        o < 64,
    ensures
        ((x & (((1u64 << o) - 1) as u64)) as u128) < (1u128 << (o as u128)),
{
}

/// A bit context's key tells apart everything it is made of: the last
/// `order` bits of the history, how many bits of the current byte are
/// known, and those bits themselves. So two histories share a context
/// exactly when they agree on all three.
pub proof fn lemma_key_injective(h1: BitHistory, h2: BitHistory, order: int)
    requires
        0 <= order <= MAX_ORDER,
        h1.used_bits < 8,
        h2.used_bits < 8,
    ensures
        (hist_key(h1, order) == hist_key(h2, order)) <==> (h1.bits & hist_mask(order) == h2.bits & hist_mask(order)
            && h1.used_bits == h2.used_bits && h1.current_byte == h2.current_byte),
{
    lemma_key_parts(h1, order);
    lemma_key_parts(h2, order);
}

/// The key of a bit context holds, from its low bits up, the last `order`
/// bits of the history, the number of bits of the current byte already
/// seen, and those bits.
pub proof fn lemma_key_parts(h: BitHistory, order: int)
    requires
        0 <= order <= MAX_ORDER,
        h.used_bits < 8,
    ensures
        hist_key(h, order) >> ((order + 3) as u128) == h.current_byte as u128,
        (hist_key(h, order) >> (order as u128)) & 7 == h.used_bits as u128,
        hist_key(h, order) & (((1u128 << (order as u128)) - 1) as u128) == (h.bits & hist_mask(order)) as u128,
{
    let x: u64 = h.bits & hist_mask(order);
    let a = x as u128;
    let o = order as u128;
    if order < 64 {
        lemma_masked_below(h.bits, order as u64);
    } else {
        assert((x as u128) < (1u128 << 64u128)) by (bit_vector);
    }
    lemma_key_fields(a, h.used_bits as u128, h.current_byte as u128, o);
}

} // verus!
