//! The mixed bit-and-byte context model: bit contexts of up to 64 bits and
//! byte contexts of up to six bytes, each turned into a bit prediction.  The
//! counting and the bit predictions' integer parts live here; blending them
//! with adaptive weights is floating-point work done by the program.
use vstd::prelude::*;
use std::collections::HashMap;
use crate::byte_ppm::{Model, ModelView, model_wf, model_observe, model_init};
use crate::context::{ByteContext, CtxView, prefix_count};
use crate::history::{ByteHistory, history_push, history_key};
use crate::ppm::{hist_mask, history_mask};

verus! {

pub open spec fn magic_spec() -> Seq<u8> {
    seq![80u8, 77u8, 73u8, 88u8]
}

/// The archive tag `PMIX`.
pub fn magic() -> (m: [u8; 4])
    ensures
        m@ == magic_spec(),
{
    let m = [80u8, 77u8, 73u8, 88u8];
    assert(m@ =~= magic_spec());
    m
}

pub const BIT_MAX_ORDER: usize = 64;
pub const BYTE_MAX_ORDER: usize = 6;
pub const MAX_CONTEXT_TOTAL: u32 = 32768;

// ---------------------------------------------------------------------------
// Bit contexts

/// How often a 0 and a 1 followed a bit context, and their sum.
#[derive(Clone, Copy, Debug, PartialEq, Eq, Structural)]
pub struct BitContext {
    pub zeros: u16,
    pub ones: u16,
    pub total: u32,
}

pub open spec fn bit_ctx_wf(c: BitContext) -> bool {
    c.total == c.zeros + c.ones && c.total < MAX_CONTEXT_TOTAL
}

pub open spec fn bit_ctx_empty() -> BitContext {
    BitContext { zeros: 0, ones: 0, total: 0 }
}

/// A count halved, rounding up; a zero count stays zero.
pub open spec fn bit_half(x: int) -> int {
    if x > 0 {
        (x + 1) / 2
    } else {
        0
    }
}

/// The context after bit `bit`: one more of it, and both counts halved once
/// the total reaches 2^15.
pub open spec fn bit_ctx_observe(c: BitContext, bit: u8) -> BitContext {
    let z = if bit == 0 { c.zeros + 1 } else { c.zeros as int };
    let o = if bit == 1 { c.ones + 1 } else { c.ones as int };
    if c.total + 1 >= MAX_CONTEXT_TOTAL {
        BitContext {
            zeros: bit_half(z) as u16,
            ones: bit_half(o) as u16,
            total: (bit_half(z) + bit_half(o)) as u32,
        }
    } else {
        BitContext { zeros: z as u16, ones: o as u16, total: (c.total + 1) as u32 }
    }
}

/// The counts a bit context offers a prediction, if it has seen any bit.
pub open spec fn bit_counts_spec(c: BitContext) -> Option<(u32, u32)> {
    if c.zeros + c.ones == 0 {
        None
    } else {
        Some((c.zeros as u32, c.ones as u32))
    }
}

/// Seeing a bit keeps a bit context well formed.
pub proof fn lemma_bit_ctx_observe_wf(c: BitContext, bit: u8)
    requires
        bit_ctx_wf(c),
        bit <= 1,
    ensures
        bit_ctx_wf(bit_ctx_observe(c, bit)),
{
}

impl BitContext {
    pub fn new() -> (c: Self)
        ensures
            c == bit_ctx_empty(),
            bit_ctx_wf(c),
    {
        BitContext { zeros: 0, ones: 0, total: 0 }
    }

    /// Records bit `bit`.
    pub fn observe(&mut self, bit: u8)
        requires
            bit_ctx_wf(*old(self)),
            bit <= 1,
        ensures
            *final(self) == bit_ctx_observe(*old(self), bit),
            bit_ctx_wf(*final(self)),
    {
        if bit == 0 {
            self.zeros = self.zeros + 1;
        } else {
            self.ones = self.ones + 1;
        }
        self.total = self.total + 1;
        if self.total >= MAX_CONTEXT_TOTAL {
            self.rescale();
        }
    }

    /// Halves both counts, rounding up, and recounts the total.
    pub fn rescale(&mut self)
        requires
            old(self).zeros + old(self).ones <= MAX_CONTEXT_TOTAL,
        ensures
            final(self).zeros == bit_half(old(self).zeros as int),
            final(self).ones == bit_half(old(self).ones as int),
            final(self).total == final(self).zeros + final(self).ones,
    {
        if self.zeros > 0 {
            self.zeros = self.zeros / 2 + self.zeros % 2;
        }
        if self.ones > 0 {
            self.ones = self.ones / 2 + self.ones % 2;
        }
        self.total = self.zeros as u32 + self.ones as u32;
    }

    /// The zero and one counts, once any bit has been seen.
    pub fn counts(&self) -> (r: Option<(u32, u32)>)
        ensures
            r == bit_counts_spec(*self),
    {
        let total = self.zeros as u32 + self.ones as u32;
        if total == 0 {
            None
        } else {
            Some((self.zeros as u32, self.ones as u32))
        }
    }
}

// ---------------------------------------------------------------------------
// The last bits

/// The last bits seen, up to `max_order` of them, newest lowest.
#[derive(Clone, Copy, Debug, PartialEq, Eq, Structural)]
pub struct BitHistory {
    pub bits: u64,
    pub len: usize,
    pub max_order: usize,
}

pub open spec fn bhist_wf(h: BitHistory) -> bool {
    1 <= h.max_order <= BIT_MAX_ORDER && h.len <= h.max_order
}

pub open spec fn bhist_push(h: BitHistory, bit: u8) -> BitHistory {
    BitHistory {
        bits: ((h.bits << 1u64) | (bit as u64)) & hist_mask(h.max_order as int),
        len: if h.len + 1 < h.max_order { (h.len + 1) as usize } else { h.max_order },
        max_order: h.max_order,
    }
}

/// The key of the order-`order` bit context: the last `order` bits.
pub open spec fn bhist_key(h: BitHistory, order: int) -> u64 {
    h.bits & hist_mask(order)
}

impl BitHistory {
    pub fn new(max_order: usize) -> (h: Self)
        requires
            1 <= max_order <= BIT_MAX_ORDER,
        ensures
            h == (BitHistory { bits: 0, len: 0, max_order }),
            bhist_wf(h),
    {
        BitHistory { bits: 0, len: 0, max_order }
    }

    pub fn len(&self) -> (n: usize)
        ensures
            n == self.len,
    {
        self.len
    }

    /// Appends a bit, forgetting the oldest beyond `max_order`.
    pub fn push(&mut self, bit: u8)
        requires
            bhist_wf(*old(self)),
        ensures
            *final(self) == bhist_push(*old(self), bit),
            bhist_wf(*final(self)),
    {
        let mask = history_mask(self.max_order);
        self.bits = ((self.bits << 1u64) | (bit as u64)) & mask;
        self.len = if self.len + 1 < self.max_order { self.len + 1 } else { self.max_order };
    }

    /// The key of the order-`order` context.
    pub fn key(&self, order: usize) -> (k: u64)
        ensures
            k == bhist_key(*self, order as int),
    {
        self.bits & history_mask(order)
    }
}

// ---------------------------------------------------------------------------
// The model

/// Everything the model has counted, and where it stands in the current byte.
pub struct HybridView {
    pub bit0: BitContext,
    pub bit_ctxs: Seq<Map<u64, BitContext>>,
    pub bytes: ModelView,
    pub bit_hist: BitHistory,
    pub byte_hist: Seq<u8>,
    pub current_byte: u8,
    pub used_bits: u8,
    pub byte_max_order: int,
}

pub open spec fn hybrid_wf(v: HybridView) -> bool {
    &&& bit_ctx_wf(v.bit0)
    &&& bhist_wf(v.bit_hist)
    &&& v.bit_ctxs.len() == v.bit_hist.max_order
    &&& forall|i: int, k: u64|
        0 <= i < v.bit_ctxs.len() && #[trigger] v.bit_ctxs[i].contains_key(k) ==> bit_ctx_wf(
            v.bit_ctxs[i][k],
        )
    &&& model_wf(v.bytes)
    &&& 1 <= v.byte_max_order <= BYTE_MAX_ORDER
    &&& v.byte_hist.len() <= v.byte_max_order
    &&& v.used_bits < 8
}

pub open spec fn hybrid_init(bit_max_order: int, byte_max_order: int) -> HybridView {
    HybridView {
        bit0: bit_ctx_empty(),
        bit_ctxs: Seq::new(bit_max_order as nat, |_i: int| Map::empty()),
        bytes: model_init(),
        bit_hist: BitHistory { bits: 0, len: 0, max_order: bit_max_order as usize },
        byte_hist: Seq::empty(),
        current_byte: 0,
        used_bits: 0,
        byte_max_order,
    }
}

pub open spec fn bit_top(v: HybridView) -> int {
    v.bit_hist.len as int
}

pub open spec fn byte_top(v: HybridView) -> int {
    if v.byte_hist.len() < v.byte_max_order {
        v.byte_hist.len() as int
    } else {
        v.byte_max_order
    }
}

pub open spec fn bit_get(m: Map<u64, BitContext>, k: u64) -> BitContext {
    if m.contains_key(k) {
        m[k]
    } else {
        bit_ctx_empty()
    }
}

/// The current byte with bit `bit` appended.
pub open spec fn shifted(current: u8, bit: u8) -> u8 {
    ((current << 1u8) | bit) as u8
}

/// The model after bit `bit`.
pub open spec fn hybrid_observe(v: HybridView, bit: u8) -> HybridView {
    let cb = shifted(v.current_byte, bit);
    let full = v.used_bits + 1 == 8;
    HybridView {
        bit0: bit_ctx_observe(v.bit0, bit),
        bit_ctxs: Seq::new(
            v.bit_ctxs.len(),
            |i: int|
                if i + 1 <= bit_top(v) {
                    let k = bhist_key(v.bit_hist, i + 1);
                    v.bit_ctxs[i].insert(k, bit_ctx_observe(bit_get(v.bit_ctxs[i], k), bit))
                } else {
                    v.bit_ctxs[i]
                },
        ),
        bytes: if full {
            model_observe(v.bytes, v.byte_hist, v.byte_max_order, cb)
        } else {
            v.bytes
        },
        bit_hist: bhist_push(v.bit_hist, bit),
        byte_hist: if full {
            history_push(v.byte_hist, cb, v.byte_max_order)
        } else {
            v.byte_hist
        },
        current_byte: if full { 0 } else { cb },
        used_bits: if full { 0 } else { (v.used_bits + 1) as u8 },
        byte_max_order: v.byte_max_order,
    }
}

/// One order's counts for the next bit: `(zeros, ones)`, or `None` when
/// the order has nothing to say.
#[derive(Clone, Copy, Debug)]
pub struct OrderCounts {
    pub order: usize,
    pub counts: Option<(u32, u32)>,
}

/// The prediction of bit context order `i` (0 for the order-0 context).
pub open spec fn bit_prediction(v: HybridView, i: int) -> OrderCounts {
    if i == 0 {
        OrderCounts { order: 0, counts: bit_counts_spec(v.bit0) }
    } else {
        let k = bhist_key(v.bit_hist, i);
        OrderCounts {
            order: i as usize,
            counts: if v.bit_ctxs[i - 1].contains_key(k) {
                bit_counts_spec(v.bit_ctxs[i - 1][k])
            } else {
                None
            },
        }
    }
}

/// The counts of the bytes a byte context has seen that begin with the bits
/// of the current byte, split by their next bit.
pub open spec fn byte_counts_spec(c: CtxView, prefix: u8, used: u8) -> Option<(u32, u32)> {
    let z = prefix_count(c.counts, Seq::empty(), prefix, used, 0);
    let o = prefix_count(c.counts, Seq::empty(), prefix, used, 1);
    if z + o == 0 {
        None
    } else {
        Some((z as u32, o as u32))
    }
}

/// The prediction of byte context order `i`.
pub open spec fn byte_prediction(v: HybridView, i: int) -> OrderCounts {
    if i == 0 {
        OrderCounts { order: 0, counts: byte_counts_spec(v.bytes.order0, v.current_byte, v.used_bits) }
    } else {
        let k = history_key(v.byte_hist, i);
        OrderCounts {
            order: i as usize,
            counts: if v.bytes.ctxs[i - 1].contains_key(k) {
                byte_counts_spec(v.bytes.ctxs[i - 1][k], v.current_byte, v.used_bits)
            } else {
                None
            },
        }
    }
}

/// The bit contexts' counts from order 0 up to the bits seen (at most the
/// maximal order).
pub open spec fn bit_predictions_spec(v: HybridView) -> Seq<OrderCounts> {
    Seq::new((bit_top(v) + 1) as nat, |i: int| bit_prediction(v, i))
}

/// The byte contexts' counts from order 0 up to the bytes seen (at most the
/// maximal order).
pub open spec fn byte_predictions_spec(v: HybridView) -> Seq<OrderCounts> {
    Seq::new((byte_top(v) + 1) as nat, |i: int| byte_prediction(v, i))
}

/// The model after the bits `bits`, from `v` on.
pub open spec fn hybrid_run(v: HybridView, bits: Seq<u8>) -> HybridView
    decreases bits.len(),
{
    if bits.len() == 0 {
        v
    } else {
        hybrid_observe(hybrid_run(v, bits.drop_last()), bits.last())
    }
}

/// The smaller of `a` and `b`.
pub open spec fn min_int(a: int, b: int) -> int {
    if a < b {
        a
    } else {
        b
    }
}

proof fn lemma_run_shape(bmo: int, ymo: int, bits: Seq<u8>)
    requires
        1 <= bmo <= BIT_MAX_ORDER,
        1 <= ymo <= BYTE_MAX_ORDER,
    ensures
        ({
            let v = hybrid_run(hybrid_init(bmo, ymo), bits);
            &&& v.bit_hist.max_order == bmo
            &&& v.bit_hist.len == min_int(bits.len() as int, bmo)
            &&& v.byte_max_order == ymo
            &&& v.used_bits == bits.len() % 8
            &&& v.byte_hist.len() == min_int((bits.len() / 8) as int, ymo)
        }),
    decreases bits.len(),
{
    if bits.len() > 0 {
        lemma_run_shape(bmo, ymo, bits.drop_last());
    }
}

/// After `n` bits from a fresh model there are `1 + min(n, bit_max_order)`
/// bit orders and `1 + min(n / 8, byte_max_order)` byte orders, entry `i`
/// of each being order `i`.
pub proof fn lemma_predictions_shape(bit_max_order: int, byte_max_order: int, bits: Seq<u8>)
    requires
        1 <= bit_max_order <= BIT_MAX_ORDER,
        1 <= byte_max_order <= BYTE_MAX_ORDER,
    ensures
        ({
            let v = hybrid_run(hybrid_init(bit_max_order, byte_max_order), bits);
            &&& bit_predictions_spec(v).len() == 1 + min_int(bits.len() as int, bit_max_order)
            &&& byte_predictions_spec(v).len() == 1 + min_int((bits.len() / 8) as int, byte_max_order)
            &&& forall|i: int| 0 <= i < bit_predictions_spec(v).len() ==> #[trigger] bit_predictions_spec(v)[i].order == i
            &&& forall|i: int| 0 <= i < byte_predictions_spec(v).len() ==> #[trigger] byte_predictions_spec(v)[i].order == i
        }),
{
    lemma_run_shape(bit_max_order, byte_max_order, bits);
}

/// Every order's counts, bit contexts and byte contexts.
pub struct Predictions {
    pub bit: Vec<OrderCounts>,
    pub byte: Vec<OrderCounts>,
}

/// Bit and byte contexts, the bit and byte histories, and the current byte.
pub struct HybridModel {
    bit_order0: BitContext,
    bit_contexts: Vec<HashMap<u64, BitContext>>,
    bytes: Model,
    bit_history: BitHistory,
    byte_history: ByteHistory,
    current_byte: u8,
    used_bits: u8,
    byte_max_order: usize,
}

impl HybridModel {
    pub closed spec fn view(&self) -> HybridView {
        HybridView {
            bit0: self.bit_order0,
            bit_ctxs: Seq::new(self.bit_contexts@.len(), |i: int| self.bit_contexts@[i]@),
            bytes: self.bytes.view(),
            bit_hist: self.bit_history,
            byte_hist: self.byte_history.view(),
            current_byte: self.current_byte,
            used_bits: self.used_bits,
            byte_max_order: self.byte_max_order as int,
        }
    }

    pub closed spec fn wf(&self) -> bool {
        &&& hybrid_wf(self.view())
        &&& self.bytes.wf()
        &&& self.byte_history.wf()
        &&& self.byte_history.max_len() == self.byte_max_order
    }

    /// A well-formed model's view is well formed.
    pub proof fn lemma_wf(&self)
        requires
            self.wf(),
        ensures
            hybrid_wf(self.view()),
    {
    }

    pub fn new(bit_max_order: usize, byte_max_order: usize) -> (m: Self)
        requires
            1 <= bit_max_order <= BIT_MAX_ORDER,
            1 <= byte_max_order <= BYTE_MAX_ORDER,
        ensures
            m.wf(),
            m.view() == hybrid_init(bit_max_order as int, byte_max_order as int),
    {
        let mut bit_contexts: Vec<HashMap<u64, BitContext>> = Vec::new();
        let mut i: usize = 0;
        while i < bit_max_order
            invariant
                i <= bit_max_order,
                bit_contexts@.len() == i,
                forall|j: int| 0 <= j < i ==> #[trigger] bit_contexts@[j]@ == Map::<u64, BitContext>::empty(),
            decreases bit_max_order - i,
        {
            bit_contexts.push(HashMap::new());
            i = i + 1;
        }
        let bytes = Model::new();
        proof {
            bytes.lemma_wf();
        }
        let m = HybridModel {
            bit_order0: BitContext::new(),
            bit_contexts,
            bytes,
            bit_history: BitHistory::new(bit_max_order),
            byte_history: ByteHistory::new(byte_max_order),
            current_byte: 0,
            used_bits: 0,
            byte_max_order,
        };
        assert(m.view().bit_ctxs =~= hybrid_init(bit_max_order as int, byte_max_order as int).bit_ctxs);
        m
    }

    /// The counts every order offers for the next bit.
    pub fn predictions(&self) -> (r: Predictions)
        requires
            self.wf(),
        ensures
            r.bit@ == bit_predictions_spec(self.view()),
            r.byte@ == byte_predictions_spec(self.view()),
    {
        Predictions { bit: self.bit_predictions(), byte: self.byte_predictions() }
    }

    /// The bit contexts' counts, from order 0 up.
    pub fn bit_predictions(&self) -> (r: Vec<OrderCounts>)
        requires
            self.wf(),
        ensures
            r@ == bit_predictions_spec(self.view()),
    {
        let ghost v = self.view();
        let mut bit: Vec<OrderCounts> = Vec::new();
        bit.push(OrderCounts { order: 0, counts: self.bit_order0.counts() });
        let top = self.bit_history.len();
        let mut order: usize = 1;
        while order <= top
            invariant
                self.wf(),
                v == self.view(),
                top as int == bit_top(v),
                1 <= order <= top + 1,
                bit@.len() == order,
                forall|j: int| 0 <= j < order ==> #[trigger] bit@[j] == bit_prediction(v, j),
            decreases top + 1 - order,
        {
            let key = self.bit_history.key(order);
            let counts = match self.bit_contexts[order - 1].get(&key) {
                Some(c) => c.counts(),
                None => None,
            };
            proof {
                assert(v.bit_ctxs[order - 1] == self.bit_contexts@[order - 1]@);
            }
            bit.push(OrderCounts { order, counts });
            order = order + 1;
        }
        assert(bit@ =~= bit_predictions_spec(v));
        bit
    }

    /// The byte contexts' counts for the next bit, from order 0 up.
    pub fn byte_predictions(&self) -> (r: Vec<OrderCounts>)
        requires
            self.wf(),
        ensures
            r@ == byte_predictions_spec(self.view()),
    {
        let ghost v = self.view();
        proof {
            self.bytes.lemma_wf();
        }
        let none: Vec<bool> = Vec::new();
        let mut byte: Vec<OrderCounts> = Vec::new();
        let (z, o) = self.bytes.order0().prefix_counts(self.current_byte, self.used_bits, &none);
        let counts0 = if z + o == 0 { None } else { Some((z, o)) };
        byte.push(OrderCounts { order: 0, counts: counts0 });
        let btop = if self.byte_history.len() < self.byte_max_order {
            self.byte_history.len()
        } else {
            self.byte_max_order
        };
        let mut order: usize = 1;
        while order <= btop
            invariant
                self.wf(),
                v == self.view(),
                none@ == Seq::<bool>::empty(),
                btop as int == byte_top(v),
                1 <= order <= btop + 1,
                byte@.len() == order,
                forall|j: int| 0 <= j < order ==> #[trigger] byte@[j] == byte_prediction(v, j),
            decreases btop + 1 - order,
        {
            let counts = match self.bytes.context_for_order(order, &self.byte_history) {
                Some(c) => {
                    let (z, o) = c.prefix_counts(self.current_byte, self.used_bits, &none);
                    if z + o == 0 {
                        None
                    } else {
                        Some((z, o))
                    }
                },
                None => None,
            };
            byte.push(OrderCounts { order, counts });
            order = order + 1;
        }
        assert(byte@ =~= byte_predictions_spec(v));
        byte
    }

    /// The byte statistics.
    pub fn byte_model(&self) -> (m: &Model)
        requires
            self.wf(),
        ensures
            m.wf(),
            m.view() == self.view().bytes,
    {
        &self.bytes
    }

    /// The bytes before the current one.
    pub fn byte_history(&self) -> (h: &ByteHistory)
        requires
            self.wf(),
        ensures
            h.wf(),
            h.view() == self.view().byte_hist,
            h.max_len() == self.view().byte_max_order,
    {
        &self.byte_history
    }

    /// The longest byte context.
    pub fn byte_max_order(&self) -> (n: usize)
        ensures
            n == self.view().byte_max_order,
    {
        self.byte_max_order
    }

    /// The current byte's bits so far.
    pub fn current_byte(&self) -> (b: u8)
        ensures
            b == self.view().current_byte,
    {
        self.current_byte
    }

    /// How many bits of the current byte have been seen.
    pub fn used_bits(&self) -> (n: u8)
        ensures
            n == self.view().used_bits,
    {
        self.used_bits
    }

    /// Counts bit `bit` in every bit context, and, once it completes a
    /// byte, that byte in every byte context.
    pub fn observe_bit(&mut self, bit: u8)
        requires
            old(self).wf(),
            bit <= 1,
        ensures
            final(self).wf(),
            final(self).view() == hybrid_observe(old(self).view(), bit),
    {
        let ghost v0 = self.view();
        proof {
            lemma_bit_ctx_observe_wf(self.bit_order0, bit);
        }
        self.bit_order0.observe(bit);
        let top = self.bit_history.len();
        let mut order: usize = 1;
        while order <= top
            invariant
                self.bytes.wf(),
                self.bytes.view() == v0.bytes,
                self.byte_history.wf(),
                self.byte_history.view() == v0.byte_hist,
                self.byte_history.max_len() == self.byte_max_order,
                self.byte_max_order == v0.byte_max_order,
                1 <= v0.byte_max_order <= BYTE_MAX_ORDER,
                self.current_byte == v0.current_byte,
                self.used_bits == v0.used_bits,
                v0.used_bits < 8,
                bit_ctx_wf(self.bit_order0),
                self.bit_order0 == bit_ctx_observe(v0.bit0, bit),
                bit <= 1,
                top as int == bit_top(v0),
                1 <= order <= top + 1,
                self.bit_history == v0.bit_hist,
                self.bit_contexts@.len() == v0.bit_ctxs.len(),
                bhist_wf(v0.bit_hist),
                v0.bit_ctxs.len() == v0.bit_hist.max_order,
                forall|i: int, k: u64|
                    0 <= i < v0.bit_ctxs.len() && #[trigger] v0.bit_ctxs[i].contains_key(k) ==> bit_ctx_wf(
                        v0.bit_ctxs[i][k],
                    ),
                forall|i: int|
                    0 <= i < v0.bit_ctxs.len() ==> #[trigger] self.bit_contexts@[i]@ == if i + 1 < order {
                        let k = bhist_key(v0.bit_hist, i + 1);
                        v0.bit_ctxs[i].insert(k, bit_ctx_observe(bit_get(v0.bit_ctxs[i], k), bit))
                    } else {
                        v0.bit_ctxs[i]
                    },
            decreases top + 1 - order,
        {
            let key = self.bit_history.key(order);
            let idx = order - 1;
            let ghost cur = self.bit_contexts@;
            let mut map = self.bit_contexts.remove(idx);
            let ghost before = map@;
            assert(before == v0.bit_ctxs[idx as int]);
            let mut ctx = match map.remove(&key) {
                Some(c) => c,
                None => BitContext::new(),
            };
            assert(ctx == bit_get(v0.bit_ctxs[idx as int], key));
            proof {
                lemma_bit_ctx_observe_wf(ctx, bit);
            }
            ctx.observe(bit);
            map.insert(key, ctx);
            self.bit_contexts.insert(idx, map);
            proof {
                assert(self.bit_contexts@ =~= cur.update(idx as int, map));
                assert forall|i: int| 0 <= i < v0.bit_ctxs.len() implies #[trigger] self.bit_contexts@[i]@
                    == (if i + 1 < order + 1 {
                    let k = bhist_key(v0.bit_hist, i + 1);
                    v0.bit_ctxs[i].insert(k, bit_ctx_observe(bit_get(v0.bit_ctxs[i], k), bit))
                } else {
                    v0.bit_ctxs[i]
                }) by {
                    if i == idx as int {
                        assert(map@ =~= before.insert(key, bit_ctx_observe(bit_get(before, key), bit)));
                    }
                }
            }
            order = order + 1;
        }
        self.bit_history.push(bit);
        let cb: u8 = (self.current_byte << 1u8) | bit;
        if self.used_bits + 1 == 8 {
            self.bytes.observe(cb, &self.byte_history, self.byte_max_order);
            self.byte_history.push(cb);
            self.current_byte = 0;
            self.used_bits = 0;
        } else {
            self.current_byte = cb;
            self.used_bits = self.used_bits + 1;
        }
        proof {
            let v1 = self.view();
            let v2 = hybrid_observe(v0, bit);
            assert(v1.bit_ctxs =~= v2.bit_ctxs);
            assert forall|i: int, k: u64|
                0 <= i < v1.bit_ctxs.len() && #[trigger] v1.bit_ctxs[i].contains_key(k) implies bit_ctx_wf(
                v1.bit_ctxs[i][k],
            ) by {
                if i + 1 <= bit_top(v0) {
                    let kk = bhist_key(v0.bit_hist, i + 1);
                    if k != kk {
                        assert(v0.bit_ctxs[i].contains_key(k));
                    } else {
                        lemma_bit_ctx_observe_wf(bit_get(v0.bit_ctxs[i], kk), bit);
                    }
                }
            }
            self.bytes.lemma_wf();
        }
    }
}

} // verus!
