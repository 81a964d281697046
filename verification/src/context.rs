//! Adaptive symbol statistics for one context: a list of (byte, count)
//! pairs kept sorted by byte, with a running total that is halved once it
//! reaches 2^15.  Shared by every byte-oriented model.
use vstd::prelude::*;
use crate::arith::{ArithmeticEncoder, ArithmeticDecoder, CodeRange, code_range, enc_step, dec_step, dec_target, in_range, QUARTER, EncState, DecState};
use crate::candidates::{WeightedSymbol, weight_sum, first_index};
use crate::ranking::{top_k, select_top};
use crate::error::CodecError;

verus! {

pub const MAX_CONTEXT_TOTAL: u32 = 32768;

/// One byte and how often it followed the context.
#[derive(Clone, Copy)]
pub struct SymbolCount {
    pub symbol: u8,
    pub count: u16,
}

/// What a context has seen: counts sorted by byte, and their sum.
pub struct CtxView {
    pub counts: Seq<SymbolCount>,
    pub total: int,
}

pub open spec fn sorted_symbols(c: Seq<SymbolCount>) -> bool {
    forall|i: int, j: int| 0 <= i < j < c.len() ==> c[i].symbol < c[j].symbol
}

pub open spec fn sum_counts(c: Seq<SymbolCount>) -> int
    decreases c.len(),
{
    if c.len() == 0 {
        0
    } else {
        sum_counts(c.drop_last()) + c.last().count
    }
}

pub open spec fn ctx_wf(v: CtxView) -> bool {
    &&& sorted_symbols(v.counts)
    &&& forall|i: int| 0 <= i < v.counts.len() ==> #[trigger] v.counts[i].count >= 1
    &&& v.total == sum_counts(v.counts)
    &&& v.total < MAX_CONTEXT_TOTAL
}

pub open spec fn ctx_empty() -> CtxView {
    CtxView { counts: Seq::empty(), total: 0 }
}

/// Number of entries whose byte is below `s` (for sorted counts).
pub open spec fn lower_bound(c: Seq<SymbolCount>, s: u8) -> int
    decreases c.len(),
{
    if c.len() == 0 || c[0].symbol >= s {
        0
    } else {
        1 + lower_bound(c.drop_first(), s)
    }
}

pub open spec fn has_symbol(c: Seq<SymbolCount>, s: u8) -> bool {
    lower_bound(c, s) < c.len() && c[lower_bound(c, s)].symbol == s
}

pub open spec fn half_up(x: u16) -> u16 {
    (x / 2 + x % 2) as u16
}

pub open spec fn halve_counts(c: Seq<SymbolCount>) -> Seq<SymbolCount> {
    c.map_values(|e: SymbolCount| SymbolCount { symbol: e.symbol, count: half_up(e.count) })
}

/// The counts after one more occurrence of `s`, before any halving.
pub open spec fn ctx_bump(v: CtxView, s: u8) -> Seq<SymbolCount> {
    let p = lower_bound(v.counts, s);
    if has_symbol(v.counts, s) {
        v.counts.update(p, SymbolCount { symbol: s, count: (v.counts[p].count + 1) as u16 })
    } else {
        v.counts.insert(p, SymbolCount { symbol: s, count: 1 })
    }
}

/// The context after seeing byte `s`.
pub open spec fn ctx_observe(v: CtxView, s: u8) -> CtxView {
    let c1 = ctx_bump(v, s);
    if v.total + 1 >= MAX_CONTEXT_TOTAL {
        CtxView { counts: halve_counts(c1), total: sum_counts(halve_counts(c1)) }
    } else {
        CtxView { counts: c1, total: v.total + 1 }
    }
}

pub open spec fn escape_freq_spec(v: CtxView) -> int {
    if v.counts.len() == 0 {
        1
    } else {
        v.counts.len() as int
    }
}

/// The range coding byte `s` (which the context holds) takes.
pub open spec fn symbol_range(v: CtxView, s: u8) -> CodeRange {
    let p = lower_bound(v.counts, s);
    code_range(
        sum_counts(v.counts.take(p)) as u32,
        v.counts[p].count as u32,
        (v.total + escape_freq_spec(v)) as u32,
    )
}

/// The range the escape out of this context takes.
pub open spec fn escape_range(v: CtxView) -> CodeRange {
    code_range(v.total as u32, escape_freq_spec(v) as u32, (v.total + escape_freq_spec(v)) as u32)
}

// --- lemmas about sorted counts ---

/// The count of a one-entry list is that entry's count.
pub proof fn lemma_sum_single(x: SymbolCount)
    ensures
        sum_counts(seq![x]) == x.count,
{
    assert(seq![x].drop_last() =~= Seq::<SymbolCount>::empty());
    reveal_with_fuel(sum_counts, 2);
}

/// The count of two lists joined is the sum of their counts.
pub proof fn lemma_sum_counts_append(a: Seq<SymbolCount>, b: Seq<SymbolCount>)
    ensures
        sum_counts(a + b) == sum_counts(a) + sum_counts(b),
    decreases b.len(),
{
    if b.len() == 0 {
        assert(a + b =~= a);
    } else {
        assert((a + b).drop_last() =~= a + b.drop_last());
        lemma_sum_counts_append(a, b.drop_last());
    }
}

/// A list's count is never negative.
pub proof fn lemma_sum_counts_nonneg(c: Seq<SymbolCount>)
    ensures
        sum_counts(c) >= 0,
    decreases c.len(),
{
    if c.len() > 0 {
        lemma_sum_counts_nonneg(c.drop_last());
    }
}

/// Prefix sums grow with the prefix.
pub proof fn lemma_sum_counts_take(c: Seq<SymbolCount>, i: int, j: int)
    requires
        0 <= i <= j <= c.len(),
    ensures
        sum_counts(c.take(i)) <= sum_counts(c.take(j)),
        j == i + 1 ==> sum_counts(c.take(j)) == sum_counts(c.take(i)) + c[i].count,
        sum_counts(c.take(j)) <= sum_counts(c),
{
    assert(c.take(j) =~= c.take(i) + c.subrange(i, j));
    lemma_sum_counts_append(c.take(i), c.subrange(i, j));
    lemma_sum_counts_nonneg(c.subrange(i, j));
    assert(c =~= c.take(j) + c.subrange(j, c.len() as int));
    lemma_sum_counts_append(c.take(j), c.subrange(j, c.len() as int));
    lemma_sum_counts_nonneg(c.subrange(j, c.len() as int));
    if j == i + 1 {
        assert(c.subrange(i, j) =~= seq![c[i]]);
        assert(seq![c[i]].drop_last() =~= Seq::<SymbolCount>::empty());
        lemma_sum_single(c[i]);
    }
}

/// In counts sorted by byte, the entries before the lower bound of `s` hold
/// smaller bytes and those from it on hold `s` or larger.
pub proof fn lemma_lower_bound(c: Seq<SymbolCount>, s: u8)
    requires
        sorted_symbols(c),
    ensures
        0 <= lower_bound(c, s) <= c.len(),
        forall|i: int| 0 <= i < lower_bound(c, s) ==> #[trigger] c[i].symbol < s,
        forall|i: int| lower_bound(c, s) <= i < c.len() ==> #[trigger] c[i].symbol >= s,
    decreases c.len(),
{
    if c.len() > 0 && c[0].symbol < s {
        let d = c.drop_first();
        assert(sorted_symbols(d));
        lemma_lower_bound(d, s);
        assert forall|i: int| 1 <= i < c.len() implies c[i] == d[i - 1] by {}
    }
}

/// In sorted counts, the entry at `i` is found at `i`.
pub proof fn lemma_lower_bound_at(c: Seq<SymbolCount>, i: int)
    requires
        sorted_symbols(c),
        0 <= i < c.len(),
    ensures
        lower_bound(c, c[i].symbol) == i,
        has_symbol(c, c[i].symbol),
{
    lemma_lower_bound(c, c[i].symbol);
    let p = lower_bound(c, c[i].symbol);
    if p < i {
        assert(c[p].symbol < c[i].symbol);
        assert(c[p].symbol >= c[i].symbol);
    }
    if p > i {
        assert(c[i].symbol < c[i].symbol);
    }
}

/// Sorted distinct bytes number at most 256.
pub proof fn lemma_sorted_len(c: Seq<SymbolCount>)
    requires
        sorted_symbols(c),
    ensures
        c.len() <= 256,
{
    if c.len() > 256 {
        assert forall|i: int| 0 <= i < c.len() implies #[trigger] c[i].symbol >= i by {
            lemma_sorted_index_ge(c, i);
        }
        assert(c[256].symbol >= 256);
    }
}

proof fn lemma_sorted_index_ge(c: Seq<SymbolCount>, i: int)
    requires
        sorted_symbols(c),
        0 <= i < c.len(),
    ensures
        c[i].symbol >= i,
    decreases i,
{
    if i > 0 {
        lemma_sorted_index_ge(c, i - 1);
    }
}

proof fn lemma_halve_sum(c: Seq<SymbolCount>)
    ensures
        2 * sum_counts(halve_counts(c)) <= sum_counts(c) + c.len(),
        halve_counts(c).len() == c.len(),
    decreases c.len(),
{
    if c.len() > 0 {
        assert(halve_counts(c).drop_last() =~= halve_counts(c.drop_last()));
        lemma_halve_sum(c.drop_last());
    }
}

proof fn lemma_bump_existing(v: CtxView, s: u8)
    requires
        ctx_wf(v),
        has_symbol(v.counts, s),
    ensures
        sorted_symbols(ctx_bump(v, s)),
        ctx_bump(v, s).len() == v.counts.len(),
        sum_counts(ctx_bump(v, s)) == v.total + 1,
        forall|i: int| 0 <= i < ctx_bump(v, s).len() ==> #[trigger] ctx_bump(v, s)[i].count >= 1,
        v.counts[lower_bound(v.counts, s)].count < MAX_CONTEXT_TOTAL,
        lower_bound(ctx_bump(v, s), s) == lower_bound(v.counts, s),
        has_symbol(ctx_bump(v, s), s),
{
    let c = v.counts;
    lemma_lower_bound(c, s);
    let p = lower_bound(c, s);
    let c1 = ctx_bump(v, s);
    lemma_sum_counts_take(c, p, p + 1);
    assert(c[p].count <= v.total) by {
        lemma_sum_counts_nonneg(c.take(p));
        lemma_sum_counts_take(c, p + 1, c.len() as int);
        assert(c.take(c.len() as int) =~= c);
    }
    assert(c1[p].count == c[p].count + 1);
    let rest = c.subrange(p + 1, c.len() as int);
    assert(c =~= c.take(p) + seq![c[p]] + rest);
    assert(c1 =~= c.take(p) + seq![c1[p]] + rest);
    lemma_sum_counts_append(c.take(p) + seq![c[p]], rest);
    lemma_sum_counts_append(c.take(p), seq![c[p]]);
    lemma_sum_counts_append(c.take(p) + seq![c1[p]], rest);
    lemma_sum_counts_append(c.take(p), seq![c1[p]]);
    lemma_sum_single(c[p]);
    lemma_sum_single(c1[p]);
    assert(sorted_symbols(c1));
    lemma_lower_bound_at(c1, p);
}

proof fn lemma_bump_new(v: CtxView, s: u8)
    requires
        ctx_wf(v),
        !has_symbol(v.counts, s),
    ensures
        sorted_symbols(ctx_bump(v, s)),
        sum_counts(ctx_bump(v, s)) == v.total + 1,
        forall|i: int| 0 <= i < ctx_bump(v, s).len() ==> #[trigger] ctx_bump(v, s)[i].count >= 1,
        lower_bound(ctx_bump(v, s), s) == lower_bound(v.counts, s),
        has_symbol(ctx_bump(v, s), s),
{
    let c = v.counts;
    lemma_lower_bound(c, s);
    let p = lower_bound(c, s);
    let c1 = ctx_bump(v, s);
    let x = SymbolCount { symbol: s, count: 1 };
    let rest = c.subrange(p, c.len() as int);
    assert(c =~= c.take(p) + rest);
    assert(c1 =~= c.take(p) + seq![x] + rest);
    lemma_sum_counts_append(c.take(p), rest);
    lemma_sum_counts_append(c.take(p) + seq![x], rest);
    lemma_sum_counts_append(c.take(p), seq![x]);
    lemma_sum_single(x);
    assert forall|i: int, j: int| 0 <= i < j < c1.len() implies c1[i].symbol < c1[j].symbol by {
        if p < c.len() && c[p].symbol == s {
        }
    }
    lemma_lower_bound_at(c1, p);
}

/// Seeing a byte keeps a context well formed.
pub proof fn lemma_observe_wf(v: CtxView, s: u8)
    requires
        ctx_wf(v),
    ensures
        ctx_wf(ctx_observe(v, s)),
        has_symbol(ctx_observe(v, s).counts, s),
        sorted_symbols(ctx_bump(v, s)),
        ctx_bump(v, s).len() <= 256,
        sum_counts(ctx_bump(v, s)) == v.total + 1,
        forall|i: int| 0 <= i < ctx_bump(v, s).len() ==> #[trigger] ctx_bump(v, s)[i].count >= 1,
        has_symbol(v.counts, s) ==> v.counts[lower_bound(v.counts, s)].count < MAX_CONTEXT_TOTAL,
{
    let c = v.counts;
    lemma_lower_bound(c, s);
    let p = lower_bound(c, s);
    let c1 = ctx_bump(v, s);
    if has_symbol(c, s) {
        lemma_bump_existing(v, s);
    } else {
        lemma_bump_new(v, s);
    }
    lemma_sorted_len(c1);
    if v.total + 1 >= MAX_CONTEXT_TOTAL {
        let h = halve_counts(c1);
        lemma_halve_sum(c1);
        assert(sorted_symbols(h));
        lemma_lower_bound_at(c1, p);
        lemma_lower_bound_at(h, p);
        assert forall|i: int| 0 <= i < h.len() implies #[trigger] h[i].count >= 1 by {
            assert(c1[i].count >= 1);
        }
    }
}

/// A fresh context's wf.
pub proof fn lemma_empty_wf()
    ensures
        ctx_wf(ctx_empty()),
{
}

/// Symbol ranges and the escape range are codable and tile `[0, total + escape)`.
pub proof fn lemma_ranges_codable(v: CtxView, s: u8)
    requires
        ctx_wf(v),
    ensures
        crate::arith::range_codable(escape_range(v)),
        has_symbol(v.counts, s) ==> crate::arith::range_codable(symbol_range(v, s)),
        has_symbol(v.counts, s) ==> symbol_range(v, s).cum + symbol_range(v, s).freq <= v.total,
{
    lemma_sorted_len(v.counts);
    lemma_sum_counts_nonneg(v.counts);
    lemma_lower_bound(v.counts, s);
    if has_symbol(v.counts, s) {
        let p = lower_bound(v.counts, s);
        lemma_sum_counts_take(v.counts, p, p + 1);
        lemma_sum_counts_nonneg(v.counts.take(p));
    }
}

/// The coded ranges carry the context's numbers unchanged.
pub proof fn lemma_range_values(v: CtxView, s: u8)
    requires
        ctx_wf(v),
    ensures
        escape_range(v).total as int == v.total + escape_freq_spec(v),
        escape_range(v).cum as int == v.total,
        escape_range(v).freq as int == escape_freq_spec(v),
        has_symbol(v.counts, s) ==> symbol_range(v, s).total as int == v.total + escape_freq_spec(
            v,
        ),
{
    lemma_sorted_len(v.counts);
    lemma_sum_counts_nonneg(v.counts);
}

/// Statistics for the bytes that followed one context.
pub struct ByteContext {
    counts: Vec<SymbolCount>,
    total: u32,
}

impl ByteContext {
    pub closed spec fn view(&self) -> CtxView {
        CtxView { counts: self.counts@, total: self.total as int }
    }

    pub open spec fn wf(&self) -> bool {
        ctx_wf(self.view())
    }

    pub fn new() -> (c: Self)
        ensures
            c.view() == ctx_empty(),
            c.wf(),
    {
        let c = ByteContext { counts: Vec::new(), total: 0 };
        assert(c.view().counts =~= ctx_empty().counts);
        c
    }

    /// The position of `symbol` among the counts, if present.
    pub fn find(&self, symbol: u8) -> (r: Option<usize>)
        requires
            self.wf(),
        ensures
            has_symbol(self.view().counts, symbol) ==> r == Some(
                lower_bound(self.view().counts, symbol) as usize,
            ),
            !has_symbol(self.view().counts, symbol) ==> r is None,
    {
        let p = self.lower_bound(symbol);
        if p < self.counts.len() && self.counts[p].symbol == symbol {
            Some(p)
        } else {
            None
        }
    }

    fn lower_bound(&self, symbol: u8) -> (p: usize)
        requires
            self.wf(),
        ensures
            p as int == lower_bound(self.view().counts, symbol),
    {
        proof {
            lemma_lower_bound(self.counts@, symbol);
        }
        let mut lo: usize = 0;
        let mut hi: usize = self.counts.len();
        while lo < hi
            invariant
                0 <= lo <= hi <= self.counts@.len(),
                self.wf(),
                lo <= lower_bound(self.counts@, symbol) <= hi,
            decreases hi - lo,
        {
            proof {
                lemma_lower_bound(self.counts@, symbol);
            }
            let mid = lo + (hi - lo) / 2;
            if self.counts[mid].symbol < symbol {
                lo = mid + 1;
            } else {
                hi = mid;
            }
        }
        lo
    }

    /// Whether `symbol` has followed this context.
    pub fn contains(&self, symbol: u8) -> (b: bool)
        requires
            self.wf(),
        ensures
            b == has_symbol(self.view().counts, symbol),
    {
        self.find(symbol).is_some()
    }

    /// Number of distinct bytes seen, at least 1.
    pub fn escape_freq(&self) -> (f: u32)
        requires
            self.wf(),
        ensures
            f as int == escape_freq_spec(self.view()),
            1 <= f <= 256,
    {
        proof {
            lemma_sorted_len(self.counts@);
        }
        if self.counts.len() == 0 {
            1
        } else {
            self.counts.len() as u32
        }
    }

    /// The total of all counts plus the escape frequency.
    pub fn total_with_escape(&self) -> (t: u32)
        requires
            self.wf(),
        ensures
            t as int == self.view().total + escape_freq_spec(self.view()),
            t <= MAX_CONTEXT_TOTAL + 256,
    {
        self.total + self.escape_freq()
    }

    /// The running total.
    pub fn total(&self) -> (t: u32)
        ensures
            t as int == self.view().total,
    {
        self.total
    }

    /// Records one more occurrence of `symbol`, halving every count once the
    /// total reaches 2^15.
    pub fn observe(&mut self, symbol: u8)
        requires
            old(self).wf(),
        ensures
            final(self).wf(),
            final(self).view() == ctx_observe(old(self).view(), symbol),
    {
        proof {
            lemma_observe_wf(self.view(), symbol);
            lemma_lower_bound(self.counts@, symbol);
            lemma_sorted_len(self.counts@);
        }
        let p = self.lower_bound(symbol);
        if p < self.counts.len() && self.counts[p].symbol == symbol {
            let e = self.counts[p];
            proof {
                lemma_sum_counts_take(self.counts@, p as int, p as int + 1);
                lemma_sum_counts_nonneg(self.counts@.take(p as int));
            }
            self.counts.set(p, SymbolCount { symbol, count: e.count + 1 });
        } else {
            self.counts.insert(p, SymbolCount { symbol, count: 1 });
        }
        assert(self.counts@ == ctx_bump(old(self).view(), symbol));
        self.total = self.total + 1;
        if self.total >= MAX_CONTEXT_TOTAL {
            self.rescale();
        }
    }

    /// Halves every count, rounding up, and recomputes the total.
    fn rescale(&mut self)
        requires
            sorted_symbols(old(self).counts@),
            old(self).counts@.len() <= 256,
            sum_counts(old(self).counts@) <= MAX_CONTEXT_TOTAL,
            forall|i: int| 0 <= i < old(self).counts@.len() ==> #[trigger] old(self).counts@[i].count
                >= 1,
        ensures
            final(self).counts@ == halve_counts(old(self).counts@),
            final(self).total as int == sum_counts(halve_counts(old(self).counts@)),
    {
        let ghost orig = self.counts@;
        proof {
            lemma_halve_sum(orig);
            lemma_sum_counts_nonneg(halve_counts(orig));
            assert(halve_counts(orig).take(0) =~= Seq::<SymbolCount>::empty());
            lemma_sum_counts_take(halve_counts(orig), 0, halve_counts(orig).len() as int);
        }
        self.total = 0;
        let n = self.counts.len();
        let mut i: usize = 0;
        while i < n
            invariant
                n == orig.len(),
                n <= 256,
                i <= n,
                self.counts@.len() == n,
                forall|k: int| 0 <= k < i ==> self.counts@[k] == #[trigger] halve_counts(orig)[k],
                forall|k: int| i <= k < n ==> self.counts@[k] == #[trigger] orig[k],
                forall|k: int| 0 <= k < n ==> #[trigger] orig[k].count >= 1,
                self.total as int == sum_counts(halve_counts(orig).take(i as int)),
                sum_counts(halve_counts(orig).take(i as int)) <= sum_counts(halve_counts(orig)),
                2 * sum_counts(halve_counts(orig)) <= sum_counts(orig) + n,
                sum_counts(orig) <= MAX_CONTEXT_TOTAL,
            decreases n - i,
        {
            let e = self.counts[i];
            let c = e.count / 2 + e.count % 2;
            let c = if c < 1 { 1 } else { c };
            proof {
                assert(halve_counts(orig)[i as int].count == half_up(orig[i as int].count));
                assert(orig[i as int].count >= 1);
                lemma_sum_counts_take(halve_counts(orig), i as int, i as int + 1);
                lemma_sum_counts_take(halve_counts(orig), i as int + 1, n as int);
                lemma_sum_counts_nonneg(halve_counts(orig));
            }
            self.counts.set(i, SymbolCount { symbol: e.symbol, count: c });
            self.total = self.total + c as u32;
            i = i + 1;
        }
        assert(self.counts@ =~= halve_counts(orig));
        assert(halve_counts(orig).take(n as int) =~= halve_counts(orig));
    }

    /// The (byte, count) pairs in byte order.
    pub fn symbols(&self) -> (r: Vec<(u8, u32)>)
        requires
            self.wf(),
        ensures
            r@ == symbol_pairs(self.view()),
    {
        let mut r: Vec<(u8, u32)> = Vec::new();
        let mut i: usize = 0;
        while i < self.counts.len()
            invariant
                i <= self.counts@.len(),
                r@.len() == i,
                forall|k: int| 0 <= k < i ==> #[trigger] r@[k] == (
                    self.counts@[k].symbol,
                    self.counts@[k].count as u32,
                ),
            decreases self.counts@.len() - i,
        {
            r.push((self.counts[i].symbol, self.counts[i].count as u32));
            i = i + 1;
        }
        assert(r@ =~= symbol_pairs(self.view()));
        r
    }
}


impl ByteContext {
    /// The `limit` most frequent bytes with their counts, most frequent
    /// first, ties to the lower byte.
    pub fn top_symbols(&self, limit: usize) -> (r: Vec<(u8, u32)>)
        requires
            self.wf(),
        ensures
            r@ == top_k(symbol_pairs(self.view()), limit as int),
    {
        select_top(self.symbols(), limit)
    }
}

/// The (byte, count) pairs of a context in byte order.
pub open spec fn symbol_pairs(v: CtxView) -> Seq<(u8, u32)> {
    Seq::new(v.counts.len(), |i: int| (v.counts[i].symbol, v.counts[i].count as u32))
}

/// Distinct symbols of a context own disjoint ranges, all below the escape.
pub proof fn lemma_ranges_disjoint(v: CtxView, a: u8, b: u8, t: int)
    requires
        ctx_wf(v),
        has_symbol(v.counts, a),
        in_range(t, symbol_range(v, a)),
    ensures
        t < v.total,
        !in_range(t, escape_range(v)),
        has_symbol(v.counts, b) && in_range(t, symbol_range(v, b)) ==> a == b,
{
    lemma_ranges_codable(v, a);
    lemma_ranges_codable(v, b);
    lemma_lower_bound(v.counts, a);
    lemma_lower_bound(v.counts, b);
    let pa = lower_bound(v.counts, a);
    let pb = lower_bound(v.counts, b);
    lemma_sum_counts_take(v.counts, pa, pa + 1);
    lemma_sum_counts_nonneg(v.counts.take(pa));
    assert(symbol_range(v, a).cum as int == sum_counts(v.counts.take(pa)));
    assert(symbol_range(v, a).freq as int == v.counts[pa].count);
    if has_symbol(v.counts, b) && in_range(t, symbol_range(v, b)) && a != b {
        lemma_sum_counts_take(v.counts, pb, pb + 1);
        lemma_sum_counts_nonneg(v.counts.take(pb));
        assert(symbol_range(v, b).cum as int == sum_counts(v.counts.take(pb)));
        assert(symbol_range(v, b).freq as int == v.counts[pb].count);
        if pa < pb {
            lemma_sum_counts_take(v.counts, pa, pa + 1);
            lemma_sum_counts_take(v.counts, pa + 1, pb);
        } else if pb < pa {
            lemma_sum_counts_take(v.counts, pb, pb + 1);
            lemma_sum_counts_take(v.counts, pb + 1, pa);
        }
    }
}

/// What decoding against a context gives from decoder state `d`: the
/// escape (`None`) when the target falls past the counts, otherwise the byte
/// whose range holds it; with the state afterwards.
pub open spec fn ctx_decode(v: CtxView, d: DecState, data: Seq<u8>) -> (Option<u8>, DecState) {
    let t = dec_target(d, v.total + escape_freq_spec(v));
    if in_range(t, escape_range(v)) {
        (None, dec_step(d, escape_range(v), data))
    } else {
        let s = choose|s: u8| has_symbol(v.counts, s) && in_range(t, symbol_range(v, s));
        (Some(s), dec_step(d, symbol_range(v, s), data))
    }
}

impl ByteContext {
    /// Codes `symbol`, which must have followed this context.
    pub fn encode_symbol(&self, symbol: u8, encoder: &mut ArithmeticEncoder) -> (r: Result<
        (),
        CodecError,
    >)
        requires
            self.wf(),
            old(encoder).wf(),
        ensures
            r is Ok ==> final(encoder).wf(),
            !has_symbol(self.view().counts, symbol) ==> r == Err::<(), CodecError>(
                CodecError::SymbolMissing,
            ) && final(encoder).view() == old(encoder).view() && final(encoder).wf(),
            has_symbol(self.view().counts, symbol) ==> match enc_step(
                old(encoder).view(),
                symbol_range(self.view(), symbol),
            ) {
                Some(s) => r is Ok && final(encoder).view() == s,
                None => r == Err::<(), CodecError>(CodecError::PendingOverflow),
            },
    {
        let index = match self.find(symbol) {
            Some(i) => i,
            None => {
                return Err(CodecError::SymbolMissing);
            },
        };
        proof {
            lemma_ranges_codable(self.view(), symbol);
            lemma_lower_bound(self.counts@, symbol);
        }
        let mut cum: u32 = 0;
        let mut i: usize = 0;
        while i < index
            invariant
                self.wf(),
                index < self.counts@.len(),
                i <= index,
                cum as int == sum_counts(self.counts@.take(i as int)),
            decreases index - i,
        {
            proof {
                lemma_sum_counts_take(self.counts@, i as int, i as int + 1);
                lemma_sum_counts_take(self.counts@, i as int + 1, self.counts@.len() as int);
            }
            cum = cum + self.counts[i].count as u32;
            i = i + 1;
        }
        let tot = self.total_with_escape();
        encoder.encode(cum, self.counts[index].count as u32, tot)
    }

    /// Codes the escape out of this context.
    pub fn encode_escape(&self, encoder: &mut ArithmeticEncoder) -> (r: Result<(), CodecError>)
        requires
            self.wf(),
            old(encoder).wf(),
        ensures
            r is Ok ==> final(encoder).wf(),
            match enc_step(old(encoder).view(), escape_range(self.view())) {
                Some(s) => r is Ok && final(encoder).view() == s,
                None => r == Err::<(), CodecError>(CodecError::PendingOverflow),
            },
    {
        proof {
            lemma_ranges_codable(self.view(), 0);
        }
        let tot = self.total_with_escape();
        encoder.encode(self.total, self.escape_freq(), tot)
    }

    /// Decodes either a symbol of this context or the escape (`None`).
    pub fn decode_symbol(&self, decoder: &mut ArithmeticDecoder) -> (r: Result<
        Option<u8>,
        CodecError,
    >)
        requires
            self.wf(),
            old(decoder).wf(),
        ensures
            final(decoder).wf(),
            final(decoder).data() == old(decoder).data(),
            r == Ok::<Option<u8>, CodecError>(ctx_decode(self.view(), old(decoder).view(), old(decoder).data()).0),
            final(decoder).view() == ctx_decode(self.view(), old(decoder).view(), old(decoder).data()).1,
            ({
                let v = self.view();
                let t = dec_target(old(decoder).view(), v.total + escape_freq_spec(v));
                &&& in_range(t, escape_range(v)) ==> r == Ok::<Option<u8>, CodecError>(None)
                    && final(decoder).view() == dec_step(
                    old(decoder).view(),
                    escape_range(v),
                    old(decoder).data(),
                )
                &&& forall|s: u8|
                    has_symbol(v.counts, s) && in_range(t, #[trigger] symbol_range(v, s)) ==> r
                        == Ok::<Option<u8>, CodecError>(Some(s)) && final(decoder).view()
                        == dec_step(old(decoder).view(), symbol_range(v, s), old(decoder).data())
            }),
    {
        let ghost v = self.view();
        proof {
            lemma_ranges_codable(v, 0);
            lemma_sum_counts_nonneg(self.counts@);
        }
        let total = self.total_with_escape();
        let value = match decoder.target(total) {
            Ok(t) => t,
            Err(e) => {
                return Err(e);
            },
        };
        if value >= self.total {
            let esc = self.escape_freq();
            let _ = decoder.consume(self.total, esc, total);
            proof {
                assert forall|s: u8|
                    has_symbol(v.counts, s) && in_range(
                        value as int,
                        #[trigger] symbol_range(v, s),
                    ) implies false by {
                    lemma_ranges_disjoint(v, s, s, value as int);
                }
            }
            return Ok(None);
        }
        let mut cum: u32 = 0;
        let mut i: usize = 0;
        while i < self.counts.len()
            invariant
                self.wf(),
                v == self.view(),
                i <= self.counts@.len(),
                cum as int == sum_counts(self.counts@.take(i as int)),
                cum <= value,
                value < self.total,
                total as int == v.total + escape_freq_spec(v),
                decoder.wf(),
                decoder.view() == old(decoder).view(),
                decoder.data() == old(decoder).data(),
                value as int == dec_target(old(decoder).view(), total as int),
            decreases self.counts@.len() - i,
        {
            proof {
                lemma_sum_counts_take(self.counts@, i as int, i as int + 1);
                lemma_sum_counts_take(self.counts@, i as int + 1, self.counts@.len() as int);
            }
            let entry = self.counts[i];
            let freq = entry.count as u32;
            if value < cum + freq {
                proof {
                    lemma_lower_bound_at(self.counts@, i as int);
                    assert(symbol_range(v, entry.symbol) == code_range(cum, freq, total));
                    lemma_ranges_codable(v, entry.symbol);
                    assert forall|s: u8|
                        has_symbol(v.counts, s) && in_range(
                            value as int,
                            #[trigger] symbol_range(v, s),
                        ) implies s == entry.symbol by {
                        lemma_ranges_disjoint(v, entry.symbol, s, value as int);
                    }
                    lemma_ranges_disjoint(v, entry.symbol, entry.symbol, value as int);
                }
                let _ = decoder.consume(cum, freq, total);
                return Ok(Some(entry.symbol));
            }
            cum = cum + freq;
            i = i + 1;
        }
        proof {
            assert(self.counts@.take(self.counts@.len() as int) =~= self.counts@);
        }
        Err(CodecError::TargetOutOfRange)
    }
}

// ---------------------------------------------------------------------------
// Statistics with exclusion: a context's counts restricted to the bytes that
// no longer context has ruled out.

/// The entries of `c` whose byte is not excluded by `x`, as candidates, in order.
pub open spec fn filtered(c: Seq<SymbolCount>, x: Seq<bool>) -> Seq<WeightedSymbol>
    decreases c.len(),
{
    if c.len() == 0 {
        Seq::empty()
    } else {
        let rest = filtered(c.drop_last(), x);
        if x[c.last().symbol as int] {
            rest
        } else {
            rest.push(WeightedSymbol { symbol: c.last().symbol, weight: c.last().count as u32 })
        }
    }
}

/// The escape weight for `n` remaining bytes: none for none, one for one,
/// half of them rounded up otherwise.
pub open spec fn ppmd_escape(n: int) -> int {
    if n == 0 {
        0
    } else if n == 1 {
        1
    } else {
        (n + 1) / 2
    }
}

/// Byte `b` occurs among the counts.
pub open spec fn in_counts(c: Seq<SymbolCount>, b: int) -> bool {
    exists|j: int| 0 <= j < c.len() && #[trigger] c[j].symbol == b
}

/// The exclusion `x` extended by every byte of `c`.
pub open spec fn excl_add(x: Seq<bool>, c: Seq<SymbolCount>) -> Seq<bool> {
    Seq::new(x.len(), |i: int| x[i] || in_counts(c, i))
}

/// Filtering out excluded bytes keeps every counted byte that is not
/// excluded, each with a positive weight, and no more weight than the counts.
pub proof fn lemma_filtered(c: Seq<SymbolCount>, x: Seq<bool>)
    requires
        x.len() == 256,
        forall|i: int| 0 <= i < c.len() ==> #[trigger] c[i].count >= 1,
    ensures
        filtered(c, x).len() <= c.len(),
        0 <= weight_sum(filtered(c, x)) <= sum_counts(c),
        forall|i: int|
            0 <= i < filtered(c, x).len() ==> #[trigger] filtered(c, x)[i].weight >= 1
                && !x[filtered(c, x)[i].symbol as int] && in_counts(c, filtered(c, x)[i].symbol as int),
        forall|b: u8| #[trigger] in_counts(c, b as int) && !x[b as int] ==> first_index(filtered(c, x), b)
            < filtered(c, x).len(),
    decreases c.len(),
{
    if c.len() > 0 {
        let d = c.drop_last();
        lemma_filtered(d, x);
        let rest = filtered(d, x);
        let e = c.last();
        assert(e == c[c.len() - 1]);
        assert forall|j: int| 0 <= j < d.len() implies d[j] == c[j] by {}
        crate::candidates::lemma_weight_sum_nonneg(rest);
        if !x[e.symbol as int] {
            let w = WeightedSymbol { symbol: e.symbol, weight: e.count as u32 };
            assert(rest.push(w).drop_last() =~= rest);
        }
        assert forall|i: int|
            0 <= i < filtered(c, x).len() implies #[trigger] filtered(c, x)[i].weight >= 1
                && !x[filtered(c, x)[i].symbol as int] && in_counts(c, filtered(c, x)[i].symbol as int) by {
            if i < rest.len() {
                assert(filtered(c, x)[i] == rest[i]);
                assert(rest[i].weight >= 1 && in_counts(d, rest[i].symbol as int));
                let j = choose|j: int| 0 <= j < d.len() && #[trigger] d[j].symbol == rest[i].symbol as int;
                assert(c[j].symbol == rest[i].symbol);
            } else {
                assert(c[c.len() - 1].symbol == e.symbol);
            }
        }
        assert forall|b: u8| #[trigger] in_counts(c, b as int) && !x[b as int] implies first_index(
            filtered(c, x),
            b,
        ) < filtered(c, x).len() by {
            let f = filtered(c, x);
            let j = choose|j: int| 0 <= j < c.len() && #[trigger] c[j].symbol == b as int;
            crate::candidates::lemma_first_index(f, b);
            crate::candidates::lemma_first_index(rest, b);
            if j < d.len() {
                assert(d[j].symbol == b);
                assert(in_counts(d, b as int));
                assert(first_index(rest, b) < rest.len());
                assert(f[first_index(rest, b)] == rest[first_index(rest, b)]);
            } else {
                assert(f[f.len() - 1].symbol == b);
            }
        }
    }
}

/// The filtered entries of a prefix of the counts begin the filtered entries.
pub proof fn lemma_filtered_prefix(c: Seq<SymbolCount>, x: Seq<bool>, i: int)
    requires
        0 <= i < c.len(),
    ensures
        filtered(c.take(i + 1), x) == (if x[c[i].symbol as int] {
            filtered(c.take(i), x)
        } else {
            filtered(c.take(i), x).push(WeightedSymbol { symbol: c[i].symbol, weight: c[i].count as u32 })
        }),
        filtered(c.take(i), x).len() <= filtered(c, x).len(),
        filtered(c, x).take(filtered(c.take(i), x).len() as int) == filtered(c.take(i), x),
    decreases c.len() - i,
{
    assert(c.take(i + 1).drop_last() =~= c.take(i));
    if i + 1 == c.len() {
        assert(c.take(i + 1) =~= c);
        let f = filtered(c, x);
        let p = filtered(c.take(i), x);
        assert(f.take(p.len() as int) =~= p);
    } else {
        lemma_filtered_prefix(c, x, i + 1);
        let f = filtered(c, x);
        let p = filtered(c.take(i), x);
        let q = filtered(c.take(i + 1), x);
        assert(q.take(p.len() as int) =~= p);
        assert(f.take(p.len() as int) =~= q.take(p.len() as int));
    }
}

/// Totals of a context restricted by an exclusion.
#[derive(Clone, Copy)]
pub struct FilteredStats {
    pub total: u32,
    pub symbols: usize,
    pub escape_freq: u32,
}

impl FilteredStats {
    /// The coding total: the remaining counts plus the escape.
    pub fn total_with_escape(self) -> (t: u32)
        requires
            self.total + self.escape_freq <= u32::MAX,
        ensures
            t == self.total + self.escape_freq,
    {
        self.total + self.escape_freq
    }

    /// The range of `symbol` in `context` under `excluded`, with this total.
    pub fn symbol_range_with_context(
        self,
        context: &ByteContext,
        symbol: u8,
        excluded: &Vec<bool>,
    ) -> (r: Option<(u32, u32, u32)>)
        requires
            context.wf(),
            excluded@.len() == 256,
            self.total + self.escape_freq <= u32::MAX,
        ensures
            ({
                let f = filtered(context.view().counts, excluded@);
                let i = first_index(f, symbol);
                r == (if i < f.len() {
                    Some((weight_sum(f.take(i)) as u32, f[i].weight, (self.total + self.escape_freq) as u32))
                } else {
                    None::<(u32, u32, u32)>
                })
            }),
    {
        match context.symbol_range(symbol, excluded) {
            Some((cum, freq)) => Some((cum, freq, self.total_with_escape())),
            None => None,
        }
    }
}

impl ByteContext {
    /// The remaining total, number of bytes and escape weight under `excluded`.
    pub fn stats(&self, excluded: &Vec<bool>) -> (st: FilteredStats)
        requires
            self.wf(),
            excluded@.len() == 256,
        ensures
            st.total == weight_sum(filtered(self.view().counts, excluded@)),
            st.symbols == filtered(self.view().counts, excluded@).len(),
            st.escape_freq == ppmd_escape(st.symbols as int),
            st.total + st.escape_freq < MAX_CONTEXT_TOTAL + 256,
    {
        let ghost c = self.counts@;
        let ghost x = excluded@;
        let mut total: u32 = 0;
        let mut symbols: usize = 0;
        let mut i: usize = 0;
        proof {
            lemma_filtered(c, x);
            lemma_sorted_len(c);
            assert(c.take(0) =~= Seq::<SymbolCount>::empty());
        }
        while i < self.counts.len()
            invariant
                self.wf(),
                c == self.counts@,
                x == excluded@,
                x.len() == 256,
                i <= c.len(),
                c.len() <= 256,
                total == weight_sum(filtered(c.take(i as int), x)),
                symbols == filtered(c.take(i as int), x).len(),
                weight_sum(filtered(c, x)) <= sum_counts(c),
                sum_counts(c) < MAX_CONTEXT_TOTAL,
            decreases c.len() - i,
        {
            proof {
                let ci = c.take(i as int + 1);
                let p = filtered(c.take(i as int), x);
                assert(ci.drop_last() =~= c.take(i as int));
                assert(ci.last() == c[i as int]);
                assert forall|j: int| 0 <= j < ci.len() implies #[trigger] ci[j].count >= 1 by {
                    assert(ci[j] == c[j]);
                }
                lemma_filtered(ci, x);
                lemma_sum_counts_take(c, i as int + 1, c.len() as int);
                let w = WeightedSymbol { symbol: c[i as int].symbol, weight: c[i as int].count as u32 };
                assert(p.push(w).drop_last() =~= p);
            }
            let entry = self.counts[i];
            if !excluded[entry.symbol as usize] {
                total = total + entry.count as u32;
                symbols = symbols + 1;
            }
            i = i + 1;
        }
        assert(c.take(c.len() as int) =~= c);
        let escape_freq: u32 = if symbols == 0 {
            0
        } else if symbols == 1 {
            1
        } else {
            ((symbols as u32) / 2) + ((symbols as u32) % 2)
        };
        FilteredStats { total, symbols, escape_freq }
    }

    /// The cumulative count and count of `symbol` among the bytes not
    /// excluded, or `None` when it is not among them.
    pub fn symbol_range(&self, symbol: u8, excluded: &Vec<bool>) -> (r: Option<(u32, u32)>)
        requires
            self.wf(),
            excluded@.len() == 256,
        ensures
            ({
                let f = filtered(self.view().counts, excluded@);
                let i = first_index(f, symbol);
                r == (if i < f.len() {
                    Some((weight_sum(f.take(i)) as u32, f[i].weight))
                } else {
                    None::<(u32, u32)>
                })
            }),
    {
        let ghost c = self.counts@;
        let ghost x = excluded@;
        let ghost f = filtered(c, x);
        proof {
            lemma_filtered(c, x);
            crate::candidates::lemma_first_index(f, symbol);
            assert(c.take(0) =~= Seq::<SymbolCount>::empty());
        }
        let mut cum: u32 = 0;
        let mut i: usize = 0;
        while i < self.counts.len()
            invariant
                self.wf(),
                c == self.counts@,
                x == excluded@,
                x.len() == 256,
                f == filtered(c, x),
                i <= c.len(),
                filtered(c.take(i as int), x).len() <= f.len(),
                f.take(filtered(c.take(i as int), x).len() as int) == filtered(c.take(i as int), x),
                cum == weight_sum(filtered(c.take(i as int), x)),
                weight_sum(f) < MAX_CONTEXT_TOTAL,
                forall|q: int| 0 <= q < filtered(c.take(i as int), x).len() ==> #[trigger] f[q].symbol != symbol,
            decreases c.len() - i,
        {
            let ghost p = filtered(c.take(i as int), x);
            proof {
                lemma_filtered_prefix(c, x, i as int);
                crate::candidates::lemma_weight_sum_take(f, p.len() as int, f.len() as int);
                if (i as int) + 1 < c.len() {
                    lemma_filtered_prefix(c, x, i as int + 1);
                } else {
                    assert(c.take(i as int + 1) =~= c);
                    assert(f.take(f.len() as int) =~= f);
                }
            }
            let entry = self.counts[i];
            if !excluded[entry.symbol as usize] {
                let w = WeightedSymbol { symbol: entry.symbol, weight: entry.count as u32 };
                proof {
                    assert(p.push(w).drop_last() =~= p);
                    assert(f[p.len() as int] == w) by {
                        assert(f.take(p.len() as int + 1)[p.len() as int] == p.push(w)[p.len() as int]);
                    }
                    crate::candidates::lemma_weight_sum_take(f, p.len() as int, p.len() as int + 1);
                    crate::candidates::lemma_weight_sum_take(f, p.len() as int + 1, f.len() as int);
                    assert(f.take(p.len() as int) == p);
                }
                if entry.symbol == symbol {
                    proof {
                        crate::candidates::lemma_first_index(f, symbol);
                        let fi = first_index(f, symbol);
                        if fi < p.len() {
                            assert(f[fi].symbol == symbol);
                        }
                        if fi > p.len() {
                            assert(f[p.len() as int].symbol != symbol);
                        }
                        assert(fi == p.len());
                    }
                    return Some((cum, entry.count as u32));
                }
                cum = cum + entry.count as u32;
                proof {
                    assert(p.push(w) == filtered(c.take(i as int + 1), x));
                    assert forall|q: int| 0 <= q < p.push(w).len() implies #[trigger] f[q].symbol != symbol by {
                        if q < p.len() {
                        }
                    }
                }
            }
            i = i + 1;
        }
        proof {
            assert(c.take(c.len() as int) =~= c);
        }
        None
    }

    /// The byte among those not excluded whose range holds `target`, with
    /// its cumulative count and count.
    pub fn decode_filtered_symbol(&self, target: u32, excluded: &Vec<bool>) -> (r: Result<
        (u8, u32, u32),
        CodecError,
    >)
        requires
            self.wf(),
            excluded@.len() == 256,
            target < weight_sum(filtered(self.view().counts, excluded@)),
        ensures
            r is Ok,
            r matches Ok((sym, cum, freq)) ==> cum <= target < cum + freq,
            ({
                let f = filtered(self.view().counts, excluded@);
                forall|i: int|
                    0 <= i < f.len() && weight_sum(#[trigger] f.take(i)) <= target < weight_sum(f.take(i))
                        + f[i].weight ==> r == Ok::<(u8, u32, u32), CodecError>(
                        (f[i].symbol, weight_sum(f.take(i)) as u32, f[i].weight),
                    )
            }),
    {
        let ghost c = self.counts@;
        let ghost x = excluded@;
        let ghost f = filtered(c, x);
        proof {
            lemma_filtered(c, x);
            assert(c.take(0) =~= Seq::<SymbolCount>::empty());
        }
        let mut cum: u32 = 0;
        let mut i: usize = 0;
        while i < self.counts.len()
            invariant
                self.wf(),
                c == self.counts@,
                x == excluded@,
                x.len() == 256,
                f == filtered(c, x),
                i <= c.len(),
                filtered(c.take(i as int), x).len() <= f.len(),
                f.take(filtered(c.take(i as int), x).len() as int) == filtered(c.take(i as int), x),
                cum == weight_sum(filtered(c.take(i as int), x)),
                cum <= target,
                target < weight_sum(f),
                weight_sum(f) < MAX_CONTEXT_TOTAL,
                forall|q: int| 0 <= q < f.len() ==> #[trigger] f[q].weight >= 1,
            decreases c.len() - i,
        {
            let ghost p = filtered(c.take(i as int), x);
            proof {
                lemma_filtered_prefix(c, x, i as int);
                crate::candidates::lemma_weight_sum_take(f, p.len() as int, f.len() as int);
                if (i as int) + 1 < c.len() {
                    lemma_filtered_prefix(c, x, i as int + 1);
                } else {
                    assert(c.take(i as int + 1) =~= c);
                    assert(f.take(f.len() as int) =~= f);
                }
            }
            let entry = self.counts[i];
            if !excluded[entry.symbol as usize] {
                let w = WeightedSymbol { symbol: entry.symbol, weight: entry.count as u32 };
                let freq = entry.count as u32;
                proof {
                    assert(p.push(w).drop_last() =~= p);
                    assert(f[p.len() as int] == w) by {
                        assert(f.take(p.len() as int + 1)[p.len() as int] == p.push(w)[p.len() as int]);
                    }
                    crate::candidates::lemma_weight_sum_take(f, p.len() as int, p.len() as int + 1);
                    crate::candidates::lemma_weight_sum_take(f, p.len() as int + 1, f.len() as int);
                    assert(f.take(p.len() as int) == p);
                }
                if target < cum + freq {
                    proof {
                        let j = p.len() as int;
                        assert forall|q: int|
                            0 <= q < f.len() && weight_sum(#[trigger] f.take(q)) <= target < weight_sum(
                                f.take(q),
                            ) + f[q].weight implies q == j by {
                            if q < j {
                                crate::candidates::lemma_weight_sum_take(f, q, q + 1);
                                crate::candidates::lemma_weight_sum_take(f, q + 1, j);
                            } else if q > j {
                                crate::candidates::lemma_weight_sum_take(f, j + 1, q);
                            }
                        }
                    }
                    return Ok((entry.symbol, cum, freq));
                }
                cum = cum + freq;
                proof {
                    assert(p.push(w) == filtered(c.take(i as int + 1), x));
                }
            }
            i = i + 1;
        }
        proof {
            assert(c.take(c.len() as int) =~= c);
        }
        Err(CodecError::TargetOutOfRange)
    }

    /// Marks every byte of this context as excluded.
    pub fn exclude_all(&self, excluded: &mut Vec<bool>)
        requires
            old(excluded)@.len() == 256,
        ensures
            final(excluded)@ == excl_add(old(excluded)@, self.view().counts),
    {
        let ghost c = self.counts@;
        let ghost x0 = excluded@;
        let mut i: usize = 0;
        while i < self.counts.len()
            invariant
                c == self.counts@,
                x0.len() == 256,
                excluded@.len() == 256,
                i <= c.len(),
                forall|b: int| 0 <= b < 256 ==> #[trigger] excluded@[b] == (x0[b] || in_counts(c.take(i as int), b)),
            decreases c.len() - i,
        {
            let sym = self.counts[i].symbol;
            excluded.set(sym as usize, true);
            proof {
                assert forall|b: int| 0 <= b < 256 implies #[trigger] excluded@[b] == (x0[b] || in_counts(c.take(i as int + 1), b)) by {
                    if in_counts(c.take(i as int), b) {
                        let j = choose|j: int| 0 <= j < c.take(i as int).len() && #[trigger] c.take(i as int)[j].symbol == b;
                        assert(c.take(i as int + 1)[j].symbol == b);
                    }
                    if in_counts(c.take(i as int + 1), b) {
                        let j = choose|j: int| 0 <= j < c.take(i as int + 1).len() && #[trigger] c.take(i as int + 1)[j].symbol == b;
                        if j < i {
                            assert(c.take(i as int)[j].symbol == b);
                        }
                    }
                    if b == sym as int {
                        assert(c.take(i as int + 1)[i as int].symbol == b);
                    }
                }
            }
            i = i + 1;
        }
        assert(c.take(c.len() as int) =~= c);
        assert(excluded@ =~= excl_add(x0, c));
    }
}


// ---------------------------------------------------------------------------
// Bit predictions from byte counts

/// Byte `symbol` begins with the `used` bits of the current byte seen so
/// far, which are the low `used` bits of `prefix`.
pub open spec fn prefix_match(symbol: u8, prefix: u8, used: u8) -> bool {
    used == 0 || (symbol >> ((8 - used) as u8)) == (prefix & (0xffu8 >> ((8 - used) as u8)))
}

/// Bit number `used` of `symbol`, counted from the top.
pub open spec fn bit_at(symbol: u8, used: u8) -> u8 {
    (symbol >> ((7 - used) as u8)) & 1u8
}

/// Byte `s` is marked in `x` (an empty `x` marks nothing).
pub open spec fn is_excluded(x: Seq<bool>, s: u8) -> bool {
    (s as int) < x.len() && x[s as int]
}

/// The counts of the unmarked bytes in `c` that begin with the prefix and
/// whose next bit is `bit`.
pub open spec fn prefix_count(c: Seq<SymbolCount>, x: Seq<bool>, prefix: u8, used: u8, bit: u8) -> int
    decreases c.len(),
{
    if c.len() == 0 {
        0
    } else {
        let e = c.last();
        prefix_count(c.drop_last(), x, prefix, used, bit) + if !is_excluded(x, e.symbol) && prefix_match(
            e.symbol,
            prefix,
            used,
        ) && bit_at(e.symbol, used) == bit {
            e.count as int
        } else {
            0
        }
    }
}

proof fn lemma_prefix_mask(symbol: u8, prefix: u8, shift: u8)
    by (bit_vector)
    requires
        shift < 8,
    ensures
        ((symbol & (0xffu8 << shift)) == (prefix << shift)) == ((symbol >> shift) == (prefix & (0xffu8
            >> shift))),
{
}

proof fn lemma_low_bit(x: u8)
    by (bit_vector)
    ensures
        x & 1u8 <= 1u8,
{
}

/// Whether `symbol` begins with the `used_bits` bits held in `prefix`.
pub fn byte_matches_prefix(symbol: u8, prefix: u8, used_bits: u8) -> (b: bool)
    requires
        used_bits <= 8,
    ensures
        b == prefix_match(symbol, prefix, used_bits),
{
    if used_bits == 0 {
        return true;
    }
    let shift: u8 = 8 - used_bits;
    let mask: u8 = u8::MAX << shift;
    proof {
        lemma_prefix_mask(symbol, prefix, shift);
    }
    (symbol & mask) == (prefix << shift)
}

/// The bit of `symbol` that follows the first `used_bits`.
pub fn next_bit(symbol: u8, used_bits: u8) -> (b: u8)
    requires
        used_bits <= 7,
    ensures
        b == bit_at(symbol, used_bits),
        b <= 1,
{
    proof {
        lemma_low_bit(symbol >> ((7 - used_bits) as u8));
    }
    (symbol >> (7 - used_bits)) & 1
}

proof fn lemma_prefix_count_bound(c: Seq<SymbolCount>, x: Seq<bool>, prefix: u8, used: u8)
    ensures
        0 <= prefix_count(c, x, prefix, used, 0),
        0 <= prefix_count(c, x, prefix, used, 1),
        prefix_count(c, x, prefix, used, 0) + prefix_count(c, x, prefix, used, 1) <= sum_counts(c),
    decreases c.len(),
{
    if c.len() > 0 {
        lemma_prefix_count_bound(c.drop_last(), x, prefix, used);
    }
}

impl ByteContext {
    /// The counts of the bytes not marked in `excluded` that begin with the
    /// `used_bits` bits of `prefix`, split by their next bit: `(zeros, ones)`.
    pub fn prefix_counts(&self, prefix: u8, used_bits: u8, excluded: &Vec<bool>) -> (r: (u32, u32))
        requires
            self.wf(),
            used_bits <= 7,
        ensures
            r.0 == prefix_count(self.view().counts, excluded@, prefix, used_bits, 0),
            r.1 == prefix_count(self.view().counts, excluded@, prefix, used_bits, 1),
            r.0 + r.1 <= self.view().total,
    {
        let ghost c = self.counts@;
        let ghost x = excluded@;
        let mut count0: u32 = 0;
        let mut count1: u32 = 0;
        let mut i: usize = 0;
        proof {
            lemma_prefix_count_bound(c, x, prefix, used_bits);
            assert(c.take(0) =~= Seq::<SymbolCount>::empty());
        }
        while i < self.counts.len()
            invariant
                self.wf(),
                c == self.counts@,
                x == excluded@,
                used_bits <= 7,
                i <= c.len(),
                count0 == prefix_count(c.take(i as int), x, prefix, used_bits, 0),
                count1 == prefix_count(c.take(i as int), x, prefix, used_bits, 1),
                sum_counts(c) < MAX_CONTEXT_TOTAL,
            decreases c.len() - i,
        {
            proof {
                let ci = c.take(i as int + 1);
                assert(ci.drop_last() =~= c.take(i as int));
                assert(ci.last() == c[i as int]);
                lemma_prefix_count_bound(ci, x, prefix, used_bits);
                lemma_sum_counts_take(c, i as int + 1, c.len() as int);
            }
            let entry = self.counts[i];
            let skip = (entry.symbol as usize) < excluded.len() && excluded[entry.symbol as usize];
            if !skip && byte_matches_prefix(entry.symbol, prefix, used_bits) {
                if next_bit(entry.symbol, used_bits) == 0 {
                    count0 = count0 + entry.count as u32;
                } else {
                    count1 = count1 + entry.count as u32;
                }
            }
            i = i + 1;
        }
        assert(c.take(c.len() as int) =~= c);
        (count0, count1)
    }
}


impl ByteContext {
    /// The entries whose byte `excluded` does not mark, in order, as
    /// candidates.
    pub fn filtered_symbols(&self, excluded: &Vec<bool>) -> (r: Vec<WeightedSymbol>)
        requires
            self.wf(),
            excluded@.len() == 256,
        ensures
            r@ == filtered(self.view().counts, excluded@),
    {
        let ghost c = self.counts@;
        let ghost x = excluded@;
        let mut r: Vec<WeightedSymbol> = Vec::new();
        let mut i: usize = 0;
        assert(c.take(0) =~= Seq::<SymbolCount>::empty());
        while i < self.counts.len()
            invariant
                c == self.counts@,
                x == excluded@,
                x.len() == 256,
                i <= c.len(),
                r@ == filtered(c.take(i as int), x),
            decreases c.len() - i,
        {
            proof {
                lemma_filtered_prefix(c, x, i as int);
            }
            let entry = self.counts[i];
            if !excluded[entry.symbol as usize] {
                r.push(WeightedSymbol { symbol: entry.symbol, weight: entry.count as u32 });
            }
            i = i + 1;
        }
        assert(c.take(c.len() as int) =~= c);
        r
    }
}

} // verus!
