//! PPMD statistics coded bit by bit: each byte's bits are predicted from
//! the counts of the bytes that agree with the bits seen so far, with
//! exclusion across orders.  The counting lives here; turning the counts
//! into a probability is floating-point work done by the program.
use vstd::prelude::*;
use crate::byte_ppm::{Model, ModelView, model_wf, model_observe, model_init, min_order};
use crate::context::{CtxView, ctx_wf, prefix_count, prefix_match, bit_at, excl_add, byte_matches_prefix, next_bit, MAX_CONTEXT_TOTAL};
use crate::history::{ByteHistory, history_push, history_key};

verus! {

pub open spec fn magic_spec() -> Seq<u8> {
    seq![80u8, 68u8, 66u8, 84u8]
}

/// The archive tag `PDBT`.
pub fn magic() -> (m: [u8; 4])
    ensures
        m@ == magic_spec(),
{
    let m = [80u8, 68u8, 66u8, 84u8];
    assert(m@ =~= magic_spec());
    m
}

pub const MAX_ORDER: usize = 6;

/// What the model has counted, the bytes before the current one, and the
/// current byte's bits so far.
pub struct BitView {
    pub bytes: ModelView,
    pub hist: Seq<u8>,
    pub current_byte: u8,
    pub used_bits: u8,
}

pub open spec fn bit_view_wf(v: BitView) -> bool {
    &&& model_wf(v.bytes)
    &&& v.hist.len() <= MAX_ORDER
    &&& v.used_bits < 8
}

pub open spec fn bit_view_init() -> BitView {
    BitView { bytes: model_init(), hist: Seq::empty(), current_byte: 0, used_bits: 0 }
}

/// The model after bit `bit`.
pub open spec fn bit_view_observe(v: BitView, bit: u8) -> BitView {
    let cb = ((v.current_byte << 1u8) | bit) as u8;
    if v.used_bits + 1 == 8 {
        BitView {
            bytes: model_observe(v.bytes, v.hist, MAX_ORDER as int, cb),
            hist: history_push(v.hist, cb, MAX_ORDER as int),
            current_byte: 0,
            used_bits: 0,
        }
    } else {
        BitView { bytes: v.bytes, hist: v.hist, current_byte: cb, used_bits: (v.used_bits + 1) as u8 }
    }
}

/// Counts gathered so far and the bytes excluded from lower orders.
pub struct Walk {
    pub zeros: int,
    pub ones: int,
    pub excluded: Seq<bool>,
}

pub open spec fn no_exclusion() -> Seq<bool> {
    Seq::new(256, |_i: int| false)
}

/// One context's contribution: the counts of its unexcluded bytes that
/// agree with the current byte so far; when there are any, they are added
/// and all its bytes are excluded below.
pub open spec fn walk_step(w: Walk, c: CtxView, prefix: u8, used: u8) -> Walk {
    let z = prefix_count(c.counts, w.excluded, prefix, used, 0);
    let o = prefix_count(c.counts, w.excluded, prefix, used, 1);
    if z + o == 0 {
        w
    } else {
        Walk { zeros: w.zeros + z, ones: w.ones + o, excluded: excl_add(w.excluded, c.counts) }
    }
}

/// The walk through the `n` highest orders that exist, from the highest.
pub open spec fn walk_orders(v: BitView, n: int) -> Walk
    decreases n,
{
    if n <= 0 {
        Walk { zeros: 0, ones: 0, excluded: no_exclusion() }
    } else {
        let w = walk_orders(v, n - 1);
        let order = min_order(v.hist, MAX_ORDER as int) - n + 1;
        let k = history_key(v.hist, order);
        if v.bytes.ctxs[order - 1].contains_key(k) {
            walk_step(w, v.bytes.ctxs[order - 1][k], v.current_byte, v.used_bits)
        } else {
            w
        }
    }
}

/// How many of the bytes `0..n` are not excluded, agree with the current
/// byte so far, and continue with `bit`.
pub open spec fn tail_count(x: Seq<bool>, prefix: u8, used: u8, bit: u8, n: int) -> int
    decreases n,
{
    if n <= 0 {
        0
    } else {
        let s = (n - 1) as u8;
        tail_count(x, prefix, used, bit, n - 1) + if !x[n - 1] && prefix_match(s, prefix, used) && bit_at(
            s,
            used,
        ) == bit {
            1int
        } else {
            0int
        }
    }
}

/// The zero and one counts for the next bit: every order from the highest
/// down to 0 with exclusion, then one for each byte no context has seen.
pub open spec fn bit_counts_spec(v: BitView) -> (int, int) {
    let w = walk_step(walk_orders(v, min_order(v.hist, MAX_ORDER as int)), v.bytes.order0, v.current_byte, v.used_bits);
    (
        w.zeros + tail_count(w.excluded, v.current_byte, v.used_bits, 0, 256),
        w.ones + tail_count(w.excluded, v.current_byte, v.used_bits, 1, 256),
    )
}

proof fn lemma_prefix_count_bound(c: CtxView, x: Seq<bool>, prefix: u8, used: u8)
    requires
        ctx_wf(c),
    ensures
        0 <= prefix_count(c.counts, x, prefix, used, 0),
        0 <= prefix_count(c.counts, x, prefix, used, 1),
        prefix_count(c.counts, x, prefix, used, 0) + prefix_count(c.counts, x, prefix, used, 1) < MAX_CONTEXT_TOTAL,
    decreases c.counts.len(),
{
    lemma_count_sum(c.counts, x, prefix, used);
}

proof fn lemma_count_sum(c: Seq<crate::context::SymbolCount>, x: Seq<bool>, prefix: u8, used: u8)
    ensures
        0 <= prefix_count(c, x, prefix, used, 0),
        0 <= prefix_count(c, x, prefix, used, 1),
        prefix_count(c, x, prefix, used, 0) + prefix_count(c, x, prefix, used, 1) <= crate::context::sum_counts(c),
    decreases c.len(),
{
    if c.len() > 0 {
        lemma_count_sum(c.drop_last(), x, prefix, used);
    }
}

proof fn lemma_walk_bound(v: BitView, n: int)
    requires
        bit_view_wf(v),
        0 <= n <= min_order(v.hist, MAX_ORDER as int),
    ensures
        0 <= walk_orders(v, n).zeros,
        0 <= walk_orders(v, n).ones,
        walk_orders(v, n).zeros + walk_orders(v, n).ones <= n * MAX_CONTEXT_TOTAL,
        walk_orders(v, n).excluded.len() == 256,
    decreases n,
{
    if n > 0 {
        lemma_walk_bound(v, n - 1);
        let order = min_order(v.hist, MAX_ORDER as int) - n + 1;
        let k = history_key(v.hist, order);
        if v.bytes.ctxs[order - 1].contains_key(k) {
            lemma_prefix_count_bound(v.bytes.ctxs[order - 1][k], walk_orders(v, n - 1).excluded, v.current_byte, v.used_bits);
        }
    }
}

proof fn lemma_tail_bound(x: Seq<bool>, prefix: u8, used: u8, bit: u8, n: int)
    requires
        0 <= n,
    ensures
        0 <= tail_count(x, prefix, used, bit, n) <= n,
    decreases n,
{
    if n > 0 {
        lemma_tail_bound(x, prefix, used, bit, n - 1);
    }
}

/// The byte contexts, the bytes before the current one, and the current
/// byte's bits so far.
pub struct BitModel {
    bytes: Model,
    history: ByteHistory,
    current_byte: u8,
    used_bits: u8,
}

impl BitModel {
    pub closed spec fn view(&self) -> BitView {
        BitView {
            bytes: self.bytes.view(),
            hist: self.history.view(),
            current_byte: self.current_byte,
            used_bits: self.used_bits,
        }
    }

    pub closed spec fn wf(&self) -> bool {
        &&& self.bytes.wf()
        &&& self.history.wf()
        &&& self.history.max_len() == MAX_ORDER
        &&& self.used_bits < 8
    }

    pub fn new() -> (m: Self)
        ensures
            m.wf(),
            m.view() == bit_view_init(),
    {
        BitModel { bytes: Model::new(), history: ByteHistory::new(MAX_ORDER), current_byte: 0, used_bits: 0 }
    }

    /// The zero and one counts the next bit is predicted from.
    pub fn bit_counts(&self) -> (r: (u32, u32))
        requires
            self.wf(),
        ensures
            r.0 == bit_counts_spec(self.view()).0,
            r.1 == bit_counts_spec(self.view()).1,
    {
        let ghost v = self.view();
        proof {
            self.bytes.lemma_wf();
        }
        let mut excluded: Vec<bool> = Vec::new();
        let mut b: usize = 0;
        while b < 256
            invariant
                b <= 256,
                excluded@.len() == b,
                forall|j: int| 0 <= j < b ==> !#[trigger] excluded@[j],
            decreases 256 - b,
        {
            excluded.push(false);
            b = b + 1;
        }
        assert(excluded@ =~= no_exclusion());
        let mut count0: u32 = 0;
        let mut count1: u32 = 0;
        let top = if self.history.len() < MAX_ORDER { self.history.len() } else { MAX_ORDER };
        let mut n: usize = 0;
        while n < top
            invariant
                self.wf(),
                v == self.view(),
                model_wf(v.bytes),
                top as int == min_order(v.hist, MAX_ORDER as int),
                n <= top,
                count0 == walk_orders(v, n as int).zeros,
                count1 == walk_orders(v, n as int).ones,
                excluded@ == walk_orders(v, n as int).excluded,
            decreases top - n,
        {
            proof {
                lemma_walk_bound(v, n as int);
                lemma_walk_bound(v, n as int + 1);
            }
            let order = top - n;
            match self.bytes.context_for_order(order, &self.history) {
                Some(context) => {
                    let (z, o) = context.prefix_counts(self.current_byte, self.used_bits, &excluded);
                    if z + o != 0 {
                        count0 = count0 + z;
                        count1 = count1 + o;
                        context.exclude_all(&mut excluded);
                    }
                },
                None => {},
            }
            n = n + 1;
        }
        proof {
            lemma_walk_bound(v, top as int);
            lemma_prefix_count_bound(v.bytes.order0, excluded@, v.current_byte, v.used_bits);
        }
        let (z, o) = self.bytes.order0().prefix_counts(self.current_byte, self.used_bits, &excluded);
        if z + o != 0 {
            count0 = count0 + z;
            count1 = count1 + o;
            self.bytes.order0().exclude_all(&mut excluded);
        }
        let ghost w = walk_step(walk_orders(v, top as int), v.bytes.order0, v.current_byte, v.used_bits);
        assert(count0 == w.zeros && count1 == w.ones && excluded@ == w.excluded);
        let mut tail0: u32 = 0;
        let mut tail1: u32 = 0;
        let mut s: u32 = 0;
        while s < 256
            invariant
                s <= 256,
                excluded@ == w.excluded,
                excluded@.len() == 256,
                self.used_bits < 8,
                tail0 == tail_count(w.excluded, self.current_byte, self.used_bits, 0, s as int),
                tail1 == tail_count(w.excluded, self.current_byte, self.used_bits, 1, s as int),
            decreases 256 - s,
        {
            proof {
                lemma_tail_bound(w.excluded, self.current_byte, self.used_bits, 0, s as int);
                lemma_tail_bound(w.excluded, self.current_byte, self.used_bits, 1, s as int);
            }
            let symbol = s as u8;
            if !excluded[s as usize] && byte_matches_prefix(symbol, self.current_byte, self.used_bits) {
                if next_bit(symbol, self.used_bits) == 0 {
                    tail0 = tail0 + 1;
                } else {
                    tail1 = tail1 + 1;
                }
            }
            s = s + 1;
        }
        proof {
            lemma_tail_bound(w.excluded, self.current_byte, self.used_bits, 0, 256);
            lemma_tail_bound(w.excluded, self.current_byte, self.used_bits, 1, 256);
        }
        (count0 + tail0, count1 + tail1)
    }

    /// Appends bit `bit` to the current byte; a completed byte is counted
    /// in every context and joins the history.
    pub fn observe_bit(&mut self, bit: u8)
        requires
            old(self).wf(),
            bit <= 1,
        ensures
            final(self).wf(),
            final(self).view() == bit_view_observe(old(self).view(), bit),
    {
        let cb: u8 = (self.current_byte << 1u8) | bit;
        if self.used_bits + 1 == 8 {
            self.bytes.observe(cb, &self.history, MAX_ORDER);
            self.history.push(cb);
            self.current_byte = 0;
            self.used_bits = 0;
        } else {
            self.current_byte = cb;
            self.used_bits = self.used_bits + 1;
        }
    }
}

} // verus!
