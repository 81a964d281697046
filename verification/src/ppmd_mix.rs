//! PPMD byte statistics mixed with bit contexts.  The PPMD side spreads
//! probability over the bytes level by level: the longest context that has
//! seen anything takes its share, its escape passes the rest on to shorter
//! contexts with those bytes excluded, and what is left after order 0 goes
//! evenly to the bytes never seen.  Which bytes fall to which level, with
//! which counts, totals and escapes, is decided here; multiplying out the
//! shares is floating-point work done by the program.
use vstd::prelude::*;
use crate::byte_ppm::{Model, ModelView, model_wf, min_order};
use crate::candidates::{WeightedSymbol, weight_sum};
use crate::context::{CtxView, ctx_wf, filtered, ppmd_escape, excl_add, lemma_filtered, MAX_CONTEXT_TOTAL};
use crate::history::{ByteHistory, history_key};
use crate::hybrid_ppm::{HybridView, OrderCounts, bit_predictions_spec, hybrid_wf, hybrid_init, hybrid_observe};

verus! {

pub open spec fn magic_spec() -> Seq<u8> {
    seq![80u8, 68u8, 77u8, 88u8]
}

/// The archive tag `PDMX`.
pub fn magic() -> (m: [u8; 4])
    ensures
        m@ == magic_spec(),
{
    let m = [80u8, 68u8, 77u8, 88u8];
    assert(m@ =~= magic_spec());
    m
}

pub const BIT_MAX_ORDER: usize = 64;
pub const BYTE_MAX_ORDER: usize = 6;

/// One context's share: the bytes it newly covers with their counts, the
/// total they are divided by (counts plus escape), and the escape.
pub struct LevelView {
    pub symbols: Seq<WeightedSymbol>,
    pub total: int,
    pub escape: int,
}

/// The levels so far and the bytes they cover.
pub struct PlanView {
    pub levels: Seq<LevelView>,
    pub excluded: Seq<bool>,
}

pub open spec fn no_exclusion() -> Seq<bool> {
    Seq::new(256, |_i: int| false)
}

/// Context `c`'s level, if it still covers any count.
pub open spec fn plan_step(p: PlanView, c: CtxView) -> PlanView {
    let f = filtered(c.counts, p.excluded);
    if weight_sum(f) == 0 {
        p
    } else {
        PlanView {
            levels: p.levels.push(
                LevelView {
                    symbols: f,
                    total: weight_sum(f) + ppmd_escape(f.len() as int),
                    escape: ppmd_escape(f.len() as int),
                },
            ),
            excluded: excl_add(p.excluded, c.counts),
        }
    }
}

/// The levels of the `n` longest contexts that exist, longest first.
pub open spec fn plan_orders(m: ModelView, h: Seq<u8>, max_order: int, n: int) -> PlanView
    decreases n,
{
    if n <= 0 {
        PlanView { levels: Seq::empty(), excluded: no_exclusion() }
    } else {
        let p = plan_orders(m, h, max_order, n - 1);
        let order = min_order(h, max_order) - n + 1;
        let k = history_key(h, order);
        if m.ctxs[order - 1].contains_key(k) {
            plan_step(p, m.ctxs[order - 1][k])
        } else {
            p
        }
    }
}

/// Every level, down to order 0.
pub open spec fn plan_spec(m: ModelView, h: Seq<u8>, max_order: int) -> PlanView {
    plan_step(plan_orders(m, h, max_order, min_order(h, max_order)), m.order0)
}

/// The bytes below `n` that `x` does not mark, ascending.
pub open spec fn unmarked(x: Seq<bool>, n: int) -> Seq<u8>
    decreases n,
{
    if n <= 0 {
        Seq::empty()
    } else if x[n - 1] {
        unmarked(x, n - 1)
    } else {
        unmarked(x, n - 1).push((n - 1) as u8)
    }
}

/// One level of the spread.
pub struct Level {
    pub symbols: Vec<WeightedSymbol>,
    pub total: u32,
    pub escape: u32,
}

/// The levels, longest context first, and the bytes no context has seen.
pub struct Plan {
    pub levels: Vec<Level>,
    pub unseen: Vec<u8>,
}

/// `levels` holds exactly the levels `lv`.
pub open spec fn levels_match(levels: Seq<Level>, lv: Seq<LevelView>) -> bool {
    &&& levels.len() == lv.len()
    &&& forall|i: int|
        0 <= i < lv.len() ==> (#[trigger] levels[i]).symbols@ == lv[i].symbols && levels[i].total == lv[i].total
            && levels[i].escape == lv[i].escape
}

proof fn lemma_plan_orders(m: ModelView, h: Seq<u8>, max_order: int, n: int)
    requires
        model_wf(m),
        1 <= max_order <= BYTE_MAX_ORDER,
        0 <= n <= min_order(h, max_order),
    ensures
        plan_orders(m, h, max_order, n).excluded.len() == 256,
        plan_orders(m, h, max_order, n).levels.len() <= n,
    decreases n,
{
    if n > 0 {
        lemma_plan_orders(m, h, max_order, n - 1);
    }
}

/// The levels the PPMD side spreads probability by, for the contexts of
/// `history` (up to `max_order` bytes) in `model`.
pub fn distribution_plan(model: &Model, history: &ByteHistory, max_order: usize) -> (r: Plan)
    requires
        model.wf(),
        1 <= max_order <= BYTE_MAX_ORDER,
    ensures
        levels_match(r.levels@, plan_spec(model.view(), history.view(), max_order as int).levels),
        r.unseen@ == unmarked(plan_spec(model.view(), history.view(), max_order as int).excluded, 256),
{
    let ghost m = model.view();
    let ghost h = history.view();
    proof {
        model.lemma_wf();
    }
    let mut excluded: Vec<bool> = Vec::new();
    let mut b: usize = 0;
    while b < 256
        invariant
            b <= 256,
            excluded@.len() == b,
            forall|j: int| 0 <= j < b ==> !#[trigger] excluded@[j],
        decreases 256 - b,
    {
        excluded.push(false);
        b = b + 1;
    }
    assert(excluded@ =~= no_exclusion());
    let mut levels: Vec<Level> = Vec::new();
    let top = if history.len() < max_order { history.len() } else { max_order };
    let mut n: usize = 0;
    while n < top
        invariant
            model.wf(),
            m == model.view(),
            h == history.view(),
            model_wf(m),
            1 <= max_order <= BYTE_MAX_ORDER,
            top as int == min_order(h, max_order as int),
            n <= top,
            levels_match(levels@, plan_orders(m, h, max_order as int, n as int).levels),
            excluded@ == plan_orders(m, h, max_order as int, n as int).excluded,
        decreases top - n,
    {
        proof {
            lemma_plan_orders(m, h, max_order as int, n as int);
        }
        let order = top - n;
        match model.context_for_order(order, history) {
            Some(context) => {
                let stats = context.stats(&excluded);
                if stats.total != 0 {
                    let symbols = context.filtered_symbols(&excluded);
                    let ghost before = levels@;
                    levels.push(Level { symbols, total: stats.total_with_escape(), escape: stats.escape_freq });
                    context.exclude_all(&mut excluded);
                    proof {
                        let lv = plan_orders(m, h, max_order as int, n as int + 1).levels;
                        assert forall|i: int| 0 <= i < lv.len() implies (#[trigger] levels@[i]).symbols@
                            == lv[i].symbols && levels@[i].total == lv[i].total && levels@[i].escape
                            == lv[i].escape by {
                            if i < before.len() {
                                assert(levels@[i] == before[i]);
                            }
                        }
                    }
                }
            },
            None => {},
        }
        n = n + 1;
    }
    proof {
        lemma_plan_orders(m, h, max_order as int, top as int);
    }
    let order0 = model.order0();
    let stats = order0.stats(&excluded);
    if stats.total != 0 {
        let symbols = order0.filtered_symbols(&excluded);
        let ghost before = levels@;
        levels.push(Level { symbols, total: stats.total_with_escape(), escape: stats.escape_freq });
        order0.exclude_all(&mut excluded);
        proof {
            let lv = plan_spec(m, h, max_order as int).levels;
            assert forall|i: int| 0 <= i < lv.len() implies (#[trigger] levels@[i]).symbols@
                == lv[i].symbols && levels@[i].total == lv[i].total && levels@[i].escape
                == lv[i].escape by {
                if i < before.len() {
                    assert(levels@[i] == before[i]);
                }
            }
        }
    }
    let ghost x = excluded@;
    assert(x == plan_spec(m, h, max_order as int).excluded);
    let mut unseen: Vec<u8> = Vec::new();
    let mut s: usize = 0;
    while s < 256
        invariant
            s <= 256,
            excluded@ == x,
            x.len() == 256,
            unseen@ == unmarked(x, s as int),
        decreases 256 - s,
    {
        if !excluded[s] {
            unseen.push(s as u8);
        }
        s = s + 1;
    }
    Plan { levels, unseen }
}

/// Bit contexts beside PPMD byte statistics, which the plain mixed model
/// keeps in the same form.
pub struct HybridModel {
    inner: crate::hybrid_ppm::HybridModel,
}

impl HybridModel {
    pub closed spec fn view(&self) -> HybridView {
        self.inner.view()
    }

    pub closed spec fn wf(&self) -> bool {
        self.inner.wf()
    }

    pub fn new(bit_max_order: usize, byte_max_order: usize) -> (m: Self)
        requires
            1 <= bit_max_order <= BIT_MAX_ORDER,
            1 <= byte_max_order <= BYTE_MAX_ORDER,
        ensures
            m.wf(),
            m.view() == hybrid_init(bit_max_order as int, byte_max_order as int),
    {
        HybridModel { inner: crate::hybrid_ppm::HybridModel::new(bit_max_order, byte_max_order) }
    }

    /// The bit contexts' counts, from order 0 up.
    pub fn bit_predictions(&self) -> (r: Vec<OrderCounts>)
        requires
            self.wf(),
        ensures
            r@ == bit_predictions_spec(self.view()),
    {
        self.inner.bit_predictions()
    }

    /// The PPMD levels for the current byte.
    pub fn ppmd_plan(&self) -> (r: Plan)
        requires
            self.wf(),
        ensures
            levels_match(
                r.levels@,
                plan_spec(self.view().bytes, self.view().byte_hist, self.view().byte_max_order).levels,
            ),
            r.unseen@ == unmarked(
                plan_spec(self.view().bytes, self.view().byte_hist, self.view().byte_max_order).excluded,
                256,
            ),
    {
        proof {
            self.inner.lemma_wf();
        }
        distribution_plan(self.inner.byte_model(), self.inner.byte_history(), self.inner.byte_max_order())
    }

    /// The current byte's bits so far.
    pub fn current_byte(&self) -> (b: u8)
        ensures
            b == self.view().current_byte,
    {
        self.inner.current_byte()
    }

    /// How many bits of the current byte have been seen.
    pub fn used_bits(&self) -> (n: u8)
        ensures
            n == self.view().used_bits,
    {
        self.inner.used_bits()
    }

    /// Counts bit `bit`; a completed byte goes to the PPMD statistics.
    pub fn observe_bit(&mut self, bit: u8)
        requires
            old(self).wf(),
            bit <= 1,
        ensures
            final(self).wf(),
            final(self).view() == hybrid_observe(old(self).view(), bit),
    {
        self.inner.observe_bit(bit);
    }
}

} // verus!
