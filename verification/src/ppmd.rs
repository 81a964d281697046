//! PPM with exclusion: a byte is coded in the longest context of up to six
//! preceding bytes that has seen it, but each context codes only among the
//! bytes that no longer context has already offered.  The escape weight is
//! half the number of remaining bytes; a flat order -1 over the bytes never
//! offered catches the rest.
use vstd::prelude::*;
use crate::arith::{ArithmeticEncoder, ArithmeticDecoder, CodeRange, DecState, dec_init, code_range, enc_seq, enc_run, dec_step, dec_run, dec_target, in_range, range_codable, synced, coded_bits, lemma_enc_seq_append, lemma_enc_seq_one, lemma_enc_run_append, lemma_synced_step};
use crate::bits::{bytes_to_bits, le_bytes_u64, le_u64, push_u64_le, read_u64, lemma_le_u64_roundtrip};
use crate::byte_ppm::{ModelView, model_init, model_wf, model_observe, model_after, hist_after, min_order, lemma_model_after_wf, lemma_take_step, ranges_overlap};
use crate::candidates::{WeightedSymbol, weight_sum, first_index, lemma_first_index, lemma_weight_sum_take, lemma_weight_sum_nonneg, target_index, lemma_target_exists};
use crate::context::{ByteContext, CtxView, SymbolCount, filtered, ppmd_escape, excl_add, in_counts, lemma_filtered, MAX_CONTEXT_TOTAL};
use crate::history::{ByteHistory, history_key};
use crate::error::CodecError;

verus! {

/// The longest context, in bytes.
pub const MAX_ORDER: usize = 6;
pub const SYMBOLS: u32 = 256;

pub open spec fn magic_spec() -> Seq<u8> {
    seq![80u8, 80u8, 77u8, 68u8]
}

/// The archive tag `PPMD`.
pub fn magic() -> (m: [u8; 4])
    ensures
        m@ == magic_spec(),
{
    let m = [80u8, 80u8, 77u8, 68u8];
    assert(m@ =~= magic_spec());
    m
}

// ---------------------------------------------------------------------------
// Order -1: a flat choice among the bytes not yet excluded

/// Nothing excluded.
pub open spec fn no_exclusion() -> Seq<bool> {
    Seq::new(256, |_i: int| false)
}

/// How many of the bytes below `n` are excluded.
pub open spec fn count_excluded(x: Seq<bool>, n: int) -> int
    decreases n,
{
    if n <= 0 {
        0
    } else {
        count_excluded(x, n - 1) + (if x[n - 1] { 1int } else { 0int })
    }
}

/// The flat range of byte `s` among the bytes not excluded.
pub open spec fn minus_one_range(x: Seq<bool>, s: u8) -> CodeRange {
    code_range((s - count_excluded(x, s as int)) as u32, 1, (256 - count_excluded(x, 256)) as u32)
}

/// The number of excluded bytes below `b` grows with `b`, by at most one a
/// byte, and not at a byte that is not excluded.
pub proof fn lemma_count_excluded(x: Seq<bool>, a: int, b: int)
    requires
        0 <= a <= b,
    ensures
        0 <= count_excluded(x, a) <= count_excluded(x, b) <= count_excluded(x, a) + (b - a),
        a < b && !x[a] ==> count_excluded(x, b) <= count_excluded(x, a) + (b - a - 1),
    decreases b - a,
{
    if a < b {
        lemma_count_excluded(x, a, b - 1);
        if a == b - 1 {
        }
    } else {
        lemma_count_excluded_nonneg(x, a);
    }
}

proof fn lemma_count_excluded_nonneg(x: Seq<bool>, n: int)
    ensures
        count_excluded(x, n) >= 0,
    decreases n,
{
    if n > 0 {
        lemma_count_excluded_nonneg(x, n - 1);
    }
}

/// Distinct bytes not excluded have distinct flat positions, in byte order.
pub proof fn lemma_minus_one_order(x: Seq<bool>, a: u8, b: u8)
    requires
        x.len() == 256,
        !x[a as int],
        !x[b as int],
        a < b,
    ensures
        range_codable(minus_one_range(x, a)),
        range_codable(minus_one_range(x, b)),
        minus_one_range(x, a).cum < minus_one_range(x, b).cum,
{
    lemma_count_excluded(x, a as int, b as int);
    lemma_count_excluded(x, b as int, 256);
    lemma_count_excluded(x, 0, a as int);
}

/// A byte that is not excluded has a codable flat range.
pub proof fn lemma_minus_one_codable(x: Seq<bool>, s: u8)
    requires
        x.len() == 256,
        !x[s as int],
    ensures
        range_codable(minus_one_range(x, s)),
{
    lemma_count_excluded(x, s as int, 256);
    lemma_count_excluded(x, 0, s as int);
}

/// Counts the excluded bytes.
fn excluded_count(excluded: &Vec<bool>) -> (n: u32)
    requires
        excluded@.len() == 256,
    ensures
        n == count_excluded(excluded@, 256),
        n <= 256,
{
    let mut n: u32 = 0;
    let mut i: usize = 0;
    while i < 256
        invariant
            excluded@.len() == 256,
            i <= 256,
            n == count_excluded(excluded@, i as int),
            n <= i,
        decreases 256 - i,
    {
        if excluded[i] {
            n = n + 1;
        }
        i = i + 1;
    }
    n
}

/// What the flat stage gives: an error when every byte is excluded, else
/// the byte not excluded whose flat range holds the target; with the
/// decoder's state afterwards.
pub open spec fn minus_one_decode(x: Seq<bool>, d: DecState, data: Seq<u8>) -> (Result<u8, CodecError>, DecState) {
    if count_excluded(x, 256) >= 256 {
        (Err(CodecError::InvalidFrequencies), d)
    } else {
        let t = dec_target(d, 256 - count_excluded(x, 256));
        let v = choose|v: u8| !x[v as int] && in_range(t, minus_one_range(x, v));
        (Ok(v), dec_step(d, minus_one_range(x, v), data))
    }
}

/// Codes `symbol` flat among the bytes not excluded; an excluded byte is refused.
pub fn encode_order_minus_one(symbol: u8, excluded: &Vec<bool>, encoder: &mut ArithmeticEncoder) -> (r:
    Result<(), CodecError>)
    requires
        excluded@.len() == 256,
        old(encoder).wf(),
    ensures
        excluded@[symbol as int] ==> r == Err::<(), CodecError>(CodecError::SymbolExcluded)
            && final(encoder).view() == old(encoder).view() && final(encoder).wf() == old(encoder).wf(),
        !excluded@[symbol as int] ==> (r is Ok ==> final(encoder).wf()) && match enc_seq(
            old(encoder).view(),
            seq![minus_one_range(excluded@, symbol)],
        ) {
            Some(s) => r is Ok && final(encoder).view() == s,
            None => r == Err::<(), CodecError>(CodecError::PendingOverflow),
        },
{
    if excluded[symbol as usize] {
        return Err(CodecError::SymbolExcluded);
    }
    let ghost x = excluded@;
    let mut cum: u32 = 0;
    let mut candidate: u8 = 0;
    while candidate < symbol
        invariant
            x == excluded@,
            x.len() == 256,
            candidate <= symbol,
            cum == candidate - count_excluded(x, candidate as int),
        decreases symbol - candidate,
    {
        proof {
            lemma_count_excluded(x, candidate as int, candidate as int + 1);
            lemma_count_excluded(x, 0, candidate as int);
        }
        if !excluded[candidate as usize] {
            cum = cum + 1;
        }
        candidate = candidate + 1;
    }
    proof {
        lemma_minus_one_codable(x, symbol);
        lemma_enc_seq_one(encoder.view(), minus_one_range(x, symbol));
    }
    let total = SYMBOLS - excluded_count(excluded);
    encoder.encode(cum, 1, total)
}

/// Decodes a byte coded by `encode_order_minus_one` under the same exclusion.
pub fn decode_order_minus_one(excluded: &Vec<bool>, decoder: &mut ArithmeticDecoder) -> (r: Result<
    u8,
    CodecError,
>)
    requires
        excluded@.len() == 256,
        old(decoder).wf(),
    ensures
        final(decoder).wf(),
        final(decoder).data() == old(decoder).data(),
        r == minus_one_decode(excluded@, old(decoder).view(), old(decoder).data()).0,
        final(decoder).view() == minus_one_decode(excluded@, old(decoder).view(), old(decoder).data()).1,
        count_excluded(excluded@, 256) == 256 ==> r == Err::<u8, CodecError>(
            CodecError::InvalidFrequencies,
        ),
        count_excluded(excluded@, 256) < 256 ==> r is Ok && !excluded@[r->Ok_0 as int]
            && in_range(
            dec_target(old(decoder).view(), 256 - count_excluded(excluded@, 256)),
            minus_one_range(excluded@, r->Ok_0),
        ) && final(decoder).view() == dec_step(
            old(decoder).view(),
            minus_one_range(excluded@, r->Ok_0),
            old(decoder).data(),
        ),
{
    let ghost x = excluded@;
    proof {
        lemma_count_excluded(x, 0, 256);
    }
    let total = SYMBOLS - excluded_count(excluded);
    let target = match decoder.target(total) {
        Ok(t) => t,
        Err(e) => {
            return Err(e);
        },
    };
    let mut cum: u32 = 0;
    let mut symbol: u32 = 0;
    while symbol < 256
        invariant
            x == excluded@,
            x.len() == 256,
            symbol <= 256,
            cum == symbol - count_excluded(x, symbol as int),
            cum <= target,
            target < total,
            total == 256 - count_excluded(x, 256),
            target as int == dec_target(old(decoder).view(), total as int),
            decoder.wf(),
            decoder.view() == old(decoder).view(),
            decoder.data() == old(decoder).data(),
        decreases 256 - symbol,
    {
        proof {
            lemma_count_excluded(x, symbol as int, symbol as int + 1);
            lemma_count_excluded(x, 0, symbol as int);
        }
        if !excluded[symbol as usize] {
            if target == cum {
                proof {
                    lemma_minus_one_codable(x, symbol as u8);
                    let v = choose|v: u8| !x[v as int] && in_range(target as int, minus_one_range(x, v));
                    assert(!x[symbol as int] && in_range(target as int, minus_one_range(x, symbol as u8)));
                    if v != symbol as u8 {
                        if v < symbol as u8 {
                            lemma_minus_one_order(x, v, symbol as u8);
                        } else {
                            lemma_minus_one_order(x, symbol as u8, v);
                        }
                    }
                }
                let _ = decoder.consume(cum, 1, total);
                return Ok(symbol as u8);
            }
            cum = cum + 1;
        }
        symbol = symbol + 1;
    }
    Err(CodecError::TargetOutOfRange)
}

// ---------------------------------------------------------------------------
// The ranges the model codes

/// The range coding `s` in a context whose remaining candidates are `f`:
/// its own range when it is among them, the escape otherwise.
pub open spec fn ctx_step_range(f: Seq<WeightedSymbol>, s: u8) -> CodeRange {
    let n = f.len() as int;
    let t = weight_sum(f) + ppmd_escape(n);
    let i = first_index(f, s);
    if i < n {
        code_range(weight_sum(f.take(i)) as u32, f[i].weight, t as u32)
    } else {
        code_range(weight_sum(f) as u32, ppmd_escape(n) as u32, t as u32)
    }
}

/// The ranges coding `s` at order 0 and -1 under exclusion `x`.
pub open spec fn order0_ranges(c: CtxView, x: Seq<bool>, s: u8) -> Seq<CodeRange> {
    let f = filtered(c.counts, x);
    if f.len() == 0 {
        seq![minus_one_range(x, s)]
    } else if first_index(f, s) < f.len() {
        seq![ctx_step_range(f, s)]
    } else {
        seq![ctx_step_range(f, s), minus_one_range(excl_add(x, c.counts), s)]
    }
}

/// The ranges coding `s`, trying contexts from `order` down under exclusion `x`.
pub open spec fn ranges_from(m: ModelView, h: Seq<u8>, s: u8, order: int, x: Seq<bool>) -> Seq<
    CodeRange,
>
    decreases order,
{
    if order <= 0 {
        order0_ranges(m.order0, x, s)
    } else {
        let k = history_key(h, order);
        if m.ctxs[order - 1].contains_key(k) {
            let c = m.ctxs[order - 1][k];
            let f = filtered(c.counts, x);
            if f.len() == 0 {
                ranges_from(m, h, s, order - 1, x)
            } else if first_index(f, s) < f.len() {
                seq![ctx_step_range(f, s)]
            } else {
                seq![ctx_step_range(f, s)] + ranges_from(m, h, s, order - 1, excl_add(x, c.counts))
            }
        } else {
            ranges_from(m, h, s, order - 1, x)
        }
    }
}

pub open spec fn symbol_ranges(m: ModelView, h: Seq<u8>, s: u8) -> Seq<CodeRange> {
    ranges_from(m, h, s, min_order(h, MAX_ORDER as int), no_exclusion())
}

/// A context's step range is codable and sits where the decoder looks.
proof fn lemma_ctx_step(c: CtxView, x: Seq<bool>, s: u8)
    requires
        crate::context::ctx_wf(c),
        x.len() == 256,
        filtered(c.counts, x).len() > 0,
    ensures
        ({
            let f = filtered(c.counts, x);
            let r = ctx_step_range(f, s);
            let i = first_index(f, s);
            &&& range_codable(r)
            &&& r.total == weight_sum(f) + ppmd_escape(f.len() as int)
            &&& weight_sum(f) + ppmd_escape(f.len() as int) < MAX_CONTEXT_TOTAL + 256
            &&& i < f.len() ==> r.cum + r.freq <= weight_sum(f) && f[i].symbol == s
                && r.cum == weight_sum(f.take(i)) && r.freq == f[i].weight
            &&& i >= f.len() ==> r.cum == weight_sum(f) && r.freq == ppmd_escape(f.len() as int)
            &&& i >= f.len() && !x[s as int] ==> !excl_add(x, c.counts)[s as int]
            &&& excl_add(x, c.counts).len() == 256
        }),
{
    let f = filtered(c.counts, x);
    lemma_filtered(c.counts, x);
    lemma_first_index(f, s);
    crate::context::lemma_sorted_len(c.counts);
    let i = first_index(f, s);
    if i < f.len() {
        lemma_weight_sum_take(f, i, i + 1);
        lemma_weight_sum_take(f, i + 1, f.len() as int);
    }
    if i >= f.len() && !x[s as int] {
        if in_counts(c.counts, s as int) {
            assert(in_counts(c.counts, s as int) && !x[s as int]);
        }
    }
}

// ---------------------------------------------------------------------------
// The model

/// What one context gives under exclusion `x` when some of its bytes are
/// left: the byte whose part holds the target (`Some`), or the escape
/// (`None`); with the decoder's state afterwards.
pub open spec fn ctx_excl_decode(c: CtxView, x: Seq<bool>, d: DecState, data: Seq<u8>) -> (Option<u8>, DecState) {
    let f = filtered(c.counts, x);
    let ws = weight_sum(f);
    let esc = ppmd_escape(f.len() as int);
    let total = ws + esc;
    let t = dec_target(d, total);
    if t < ws {
        let i = target_index(f, t);
        (Some(f[i].symbol), dec_step(d, code_range(weight_sum(f.take(i)) as u32, f[i].weight, total as u32), data))
    } else {
        (None, dec_step(d, code_range(ws as u32, esc as u32, total as u32), data))
    }
}

/// What decoding a byte gives from decoder state `d` under exclusion `x`:
/// the contexts from order `order` down to 0 that still hold bytes are
/// tried in turn, each giving the byte or escaping with its bytes
/// excluded, then the flat stage.
pub open spec fn ppmd_decode_from(m: ModelView, h: Seq<u8>, order: int, x: Seq<bool>, d: DecState, data: Seq<u8>) -> (
    Result<u8, CodecError>,
    DecState,
)
    decreases order,
{
    if order <= 0 {
        let c = m.order0;
        if filtered(c.counts, x).len() == 0 {
            minus_one_decode(x, d, data)
        } else {
            let (o, d1) = ctx_excl_decode(c, x, d, data);
            match o {
                Some(s) => (Ok(s), d1),
                None => minus_one_decode(excl_add(x, c.counts), d1, data),
            }
        }
    } else {
        let k = history_key(h, order);
        if m.ctxs[order - 1].contains_key(k) && filtered(m.ctxs[order - 1][k].counts, x).len() > 0 {
            let c = m.ctxs[order - 1][k];
            let (o, d1) = ctx_excl_decode(c, x, d, data);
            match o {
                Some(s) => (Ok(s), d1),
                None => ppmd_decode_from(m, h, order - 1, excl_add(x, c.counts), d1, data),
            }
        } else {
            ppmd_decode_from(m, h, order - 1, x, d, data)
        }
    }
}

/// PPMD shares the byte-context model of `byte_ppm` with a maximal order of
/// six and codes with exclusion.
pub struct Model {
    stats: crate::byte_ppm::Model,
}

impl Model {
    pub closed spec fn view(&self) -> ModelView {
        self.stats.view()
    }

    pub closed spec fn wf(&self) -> bool {
        self.stats.wf()
    }

    pub fn new() -> (m: Self)
        ensures
            m.wf(),
            m.view() == model_init(),
    {
        Model { stats: crate::byte_ppm::Model::new() }
    }

    /// The context of order `order` for `history`, if it exists.
    pub fn context_for_order(&self, order: usize, history: &ByteHistory) -> (r: Option<&ByteContext>)
        requires
            self.wf(),
            1 <= order <= MAX_ORDER,
        ensures
            match r {
                Some(c) => self.view().ctxs[order - 1].contains_key(
                    history_key(history.view(), order as int),
                ) && c.wf() && c.view() == self.view().ctxs[order - 1][history_key(
                    history.view(),
                    order as int,
                )],
                None => !self.view().ctxs[order - 1].contains_key(
                    history_key(history.view(), order as int),
                ),
            },
    {
        self.stats.context_for_order(order, history)
    }

    /// Counts `symbol` at order 0 and in every context of `history`.
    pub fn observe(&mut self, symbol: u8, history: &ByteHistory)
        requires
            old(self).wf(),
        ensures
            final(self).wf(),
            final(self).view() == model_observe(old(self).view(), history.view(), MAX_ORDER as int, symbol),
    {
        self.stats.observe(symbol, history, MAX_ORDER);
    }

    /// Codes `symbol`: each context codes among the bytes no longer context
    /// offered, escaping when it has not seen it; order -1 catches the rest.
    pub fn encode_symbol(&self, symbol: u8, history: &ByteHistory, encoder: &mut ArithmeticEncoder) -> (r:
        Result<(), CodecError>)
        requires
            self.wf(),
            old(encoder).wf(),
        ensures
            r is Ok ==> final(encoder).wf(),
            match enc_seq(old(encoder).view(), symbol_ranges(self.view(), history.view(), symbol)) {
                Some(s) => r is Ok && final(encoder).view() == s,
                None => r == Err::<(), CodecError>(CodecError::PendingOverflow),
            },
    {
        let ghost m = self.view();
        let ghost h = history.view();
        proof {
            self.stats.lemma_wf();
        }
        let mut excluded: Vec<bool> = Vec::new();
        let mut b: usize = 0;
        while b < 256
            invariant
                b <= 256,
                excluded@.len() == b,
                forall|i: int| 0 <= i < b ==> !#[trigger] excluded@[i],
            decreases 256 - b,
        {
            excluded.push(false);
            b = b + 1;
        }
        assert(excluded@ =~= no_exclusion());
        let top = if history.len() < MAX_ORDER { history.len() } else { MAX_ORDER };
        let mut order = top;
        while order > 0
            invariant
                self.wf(),
                m == self.view(),
                model_wf(m),
                h == history.view(),
                order <= top <= MAX_ORDER,
                top as int == min_order(h, MAX_ORDER as int),
                excluded@.len() == 256,
                !excluded@[symbol as int],
                encoder.wf(),
                enc_seq(old(encoder).view(), symbol_ranges(m, h, symbol)) == enc_seq(
                    encoder.view(),
                    ranges_from(m, h, symbol, order as int, excluded@),
                ),
            decreases order,
        {
            match self.context_for_order(order, history) {
                Some(context) => {
                    let ghost x = excluded@;
                    let ghost f = filtered(context.view().counts, x);
                    let stats = context.stats(&excluded);
                    if stats.symbols > 0 {
                        proof {
                            lemma_ctx_step(context.view(), x, symbol);
                            lemma_enc_seq_one(encoder.view(), ctx_step_range(f, symbol));
                        }
                        match stats.symbol_range_with_context(context, symbol, &excluded) {
                            Some((cum, freq, total)) => {
                                return encoder.encode(cum, freq, total);
                            },
                            None => {},
                        }
                        proof {
                            lemma_enc_seq_append(
                                encoder.view(),
                                seq![ctx_step_range(f, symbol)],
                                ranges_from(m, h, symbol, order - 1, excl_add(x, context.view().counts)),
                            );
                        }
                        match encoder.encode(stats.total, stats.escape_freq, stats.total_with_escape()) {
                            Ok(()) => {},
                            Err(e) => {
                                return Err(e);
                            },
                        }
                        context.exclude_all(&mut excluded);
                    }
                },
                None => {},
            }
            order = order - 1;
        }
        let order0 = self.stats.order0();
        let ghost x = excluded@;
        let ghost f = filtered(order0.view().counts, x);
        let stats = order0.stats(&excluded);
        if stats.symbols > 0 {
            proof {
                lemma_ctx_step(order0.view(), x, symbol);
                lemma_enc_seq_one(encoder.view(), ctx_step_range(f, symbol));
            }
            match stats.symbol_range_with_context(order0, symbol, &excluded) {
                Some((cum, freq, total)) => {
                    return encoder.encode(cum, freq, total);
                },
                None => {},
            }
            proof {
                lemma_enc_seq_append(
                    encoder.view(),
                    seq![ctx_step_range(f, symbol)],
                    seq![minus_one_range(excl_add(x, order0.view().counts), symbol)],
                );
                assert(seq![ctx_step_range(f, symbol)] + seq![
                    minus_one_range(excl_add(x, order0.view().counts), symbol),
                ] =~= order0_ranges(m.order0, x, symbol));
            }
            match encoder.encode(stats.total, stats.escape_freq, stats.total_with_escape()) {
                Ok(()) => {},
                Err(e) => {
                    return Err(e);
                },
            }
            order0.exclude_all(&mut excluded);
        }
        encode_order_minus_one(symbol, &excluded, encoder)
    }

    /// Decodes one byte, mirroring `encode_symbol`.  When the decoder is in
    /// step with an encoder that coded `s` next, the result is `s`.
    #[verifier::spinoff_prover]
    #[verifier::rlimit(60)]
    pub fn decode_symbol(
        &self,
        history: &ByteHistory,
        decoder: &mut ArithmeticDecoder,
        Ghost(rs): Ghost<Seq<CodeRange>>,
        Ghost(k): Ghost<int>,
        Ghost(s): Ghost<u8>,
    ) -> (r: Result<u8, CodecError>)
        requires
            self.wf(),
            old(decoder).wf(),
        ensures
            final(decoder).wf(),
            final(decoder).data() == old(decoder).data(),
            r == ppmd_decode_from(
                self.view(),
                history.view(),
                min_order(history.view(), MAX_ORDER as int),
                no_exclusion(),
                old(decoder).view(),
                old(decoder).data(),
            ).0,
            final(decoder).view() == ppmd_decode_from(
                self.view(),
                history.view(),
                min_order(history.view(), MAX_ORDER as int),
                no_exclusion(),
                old(decoder).view(),
                old(decoder).data(),
            ).1,
            ({
                let sr = symbol_ranges(self.view(), history.view(), s);
                synced(old(decoder).view(), old(decoder).data(), rs, k) && k + sr.len() <= rs.len()
                    && rs.subrange(k, k + sr.len()) == sr ==> r == Ok::<u8, CodecError>(s)
                    && synced(final(decoder).view(), final(decoder).data(), rs, k + sr.len())
            }),
    {
        let ghost m = self.view();
        let ghost h = history.view();
        let ghost data = decoder.data();
        let ghost sr = symbol_ranges(m, h, s);
        let ghost cond = synced(decoder.view(), data, rs, k) && k + sr.len() <= rs.len()
            && rs.subrange(k, k + sr.len()) == sr;
        let ghost mut kc = k;
        proof {
            self.stats.lemma_wf();
        }
        let mut excluded: Vec<bool> = Vec::new();
        let mut b: usize = 0;
        while b < 256
            invariant
                b <= 256,
                excluded@.len() == b,
                forall|i: int| 0 <= i < b ==> !#[trigger] excluded@[i],
            decreases 256 - b,
        {
            excluded.push(false);
            b = b + 1;
        }
        assert(excluded@ =~= no_exclusion());
        let top = if history.len() < MAX_ORDER { history.len() } else { MAX_ORDER };
        let mut order = top;
        while order > 0
            invariant
                self.wf(),
                m == self.view(),
                model_wf(m),
                h == history.view(),
                order <= top <= MAX_ORDER,
                top as int == min_order(h, MAX_ORDER as int),
                excluded@.len() == 256,
                sr == symbol_ranges(m, h, s),
                decoder.wf(),
                decoder.data() == data,
                data == old(decoder).data(),
                cond == (synced(old(decoder).view(), data, rs, k) && k + sr.len() <= rs.len()
                    && rs.subrange(k, k + sr.len()) == sr),
                cond ==> !excluded@[s as int] && synced(decoder.view(), data, rs, kc) && kc
                    + ranges_from(m, h, s, order as int, excluded@).len() == k + sr.len()
                    && rs.subrange(kc, kc + ranges_from(m, h, s, order as int, excluded@).len())
                    == ranges_from(m, h, s, order as int, excluded@),
                ppmd_decode_from(m, h, top as int, no_exclusion(), old(decoder).view(), data)
                    == ppmd_decode_from(m, h, order as int, excluded@, decoder.view(), data),
            decreases order,
        {
            match self.context_for_order(order, history) {
                Some(context) => {
                    let ghost x = excluded@;
                    let ghost c = context.view();
                    let ghost f = filtered(c.counts, x);
                    let stats = context.stats(&excluded);
                    if stats.symbols > 0 {
                        let ghost d0 = decoder.view();
                        proof {
                            lemma_ctx_step(c, x, s);
                            lemma_filtered(c.counts, x);
                            if cond {
                                let rf = ranges_from(m, h, s, order as int, x);
                                assert(rs.subrange(kc, kc + rf.len())[0] == rs[kc]);
                                assert(rf[0] == ctx_step_range(f, s));
                                lemma_synced_step(d0, data, rs, kc);
                            }
                        }
                        let total = stats.total_with_escape();
                        let target = match decoder.target(total) {
                            Ok(t) => t,
                            Err(e) => {
                                return Err(e);
                            },
                        };
                        if target < stats.total {
                            proof {
                                lemma_target_exists(f, target as int);
                                let ti = target_index(f, target as int);
                                lemma_weight_sum_take(f, ti, ti + 1);
                                assert(weight_sum(f.take(ti)) <= target < weight_sum(f.take(ti)) + f[ti].weight);
                            }
                            let (symbol, cum, freq) = match context.decode_filtered_symbol(
                                target,
                                &excluded,
                            ) {
                                Ok(v) => v,
                                Err(e) => {
                                    return Err(e);
                                },
                            };
                            let _ = decoder.consume(cum, freq, total);
                            proof {
                                if cond {
                                    let i = first_index(f, s);
                                    lemma_first_index(f, s);
                                    assert(i < f.len());
                                    kc = kc + 1;
                                }
                            }
                            return Ok(symbol);
                        }
                        let _ = decoder.consume(stats.total, stats.escape_freq, total);
                        context.exclude_all(&mut excluded);
                        proof {
                            if cond {
                                let i = first_index(f, s);
                                if i < f.len() {
                                    lemma_weight_sum_take(f, i + 1, f.len() as int);
                                    lemma_weight_sum_take(f, i, i + 1);
                                }
                                assert(i >= f.len());
                                let rf = ranges_from(m, h, s, order as int, x);
                                let rest = ranges_from(m, h, s, order - 1, excluded@);
                                assert(rf == seq![ctx_step_range(f, s)] + rest);
                                assert(rs.subrange(kc + 1, kc + 1 + rest.len()) =~= rest) by {
                                    assert forall|j: int| 0 <= j < rest.len() implies rs.subrange(
                                        kc + 1,
                                        kc + 1 + rest.len(),
                                    )[j] == rest[j] by {
                                        assert(rs.subrange(kc, kc + rf.len())[j + 1] == rf[j + 1]);
                                    }
                                }
                                kc = kc + 1;
                            }
                        }
                    }
                },
                None => {},
            }
            order = order - 1;
        }
        let order0 = self.stats.order0();
        let ghost x = excluded@;
        let ghost c = order0.view();
        let ghost f = filtered(c.counts, x);
        let stats = order0.stats(&excluded);
        if stats.symbols > 0 {
            let ghost d0 = decoder.view();
            proof {
                lemma_ctx_step(c, x, s);
                lemma_filtered(c.counts, x);
                if cond {
                    let rf = ranges_from(m, h, s, 0, x);
                    assert(rs.subrange(kc, kc + rf.len())[0] == rs[kc]);
                    assert(rf[0] == ctx_step_range(f, s));
                    lemma_synced_step(d0, data, rs, kc);
                }
            }
            let total = stats.total_with_escape();
            let target = match decoder.target(total) {
                Ok(t) => t,
                Err(e) => {
                    return Err(e);
                },
            };
            if target < stats.total {
                proof {
                    lemma_target_exists(f, target as int);
                    let ti = target_index(f, target as int);
                    lemma_weight_sum_take(f, ti, ti + 1);
                    assert(weight_sum(f.take(ti)) <= target < weight_sum(f.take(ti)) + f[ti].weight);
                }
                let (symbol, cum, freq) = match order0.decode_filtered_symbol(target, &excluded) {
                    Ok(v) => v,
                    Err(e) => {
                        return Err(e);
                    },
                };
                let _ = decoder.consume(cum, freq, total);
                proof {
                    if cond {
                        lemma_first_index(f, s);
                        kc = kc + 1;
                    }
                }
                return Ok(symbol);
            }
            let _ = decoder.consume(stats.total, stats.escape_freq, total);
            order0.exclude_all(&mut excluded);
            proof {
                if cond {
                    let i = first_index(f, s);
                    if i < f.len() {
                        lemma_weight_sum_take(f, i + 1, f.len() as int);
                        lemma_weight_sum_take(f, i, i + 1);
                    }
                    assert(i >= f.len());
                    assert(!excluded@[s as int]);
                    assert(rs[kc + 1] == minus_one_range(excluded@, s)) by {
                        assert(rs.subrange(kc, kc + 2)[1] == order0_ranges(c, x, s)[1]);
                    }
                    kc = kc + 1;
                }
            }
        } else {
            proof {
                if cond {
                    assert(rs[kc] == minus_one_range(excluded@, s)) by {
                        assert(rs.subrange(kc, kc + 1)[0] == order0_ranges(c, x, s)[0]);
                    }
                }
            }
        }
        let ghost d1 = decoder.view();
        proof {
            if cond {
                lemma_synced_step(d1, data, rs, kc);
                lemma_minus_one_codable(excluded@, s);
            }
        }
        let ghost x1 = excluded@;
        let r = decode_order_minus_one(&excluded, decoder);
        proof {
            if cond {
                lemma_count_excluded(x1, s as int, 256);
                lemma_count_excluded(x1, 0, s as int);
                assert(count_excluded(x1, 256) < 256);
                assert(rs[kc] == minus_one_range(x1, s));
                let v = r->Ok_0;
                assert(!x1[v as int]);
                if v != s {
                    if v < s {
                        lemma_minus_one_order(excluded@, v, s);
                    } else {
                        lemma_minus_one_order(excluded@, s, v);
                    }
                }
                kc = kc + 1;
            }
        }
        r
    }
}

// ---------------------------------------------------------------------------
// Runs over a whole input

/// Every range the compressor codes for `data`.
pub open spec fn all_ranges(data: Seq<u8>) -> Seq<CodeRange>
    decreases data.len(),
{
    if data.len() == 0 {
        Seq::empty()
    } else {
        let d = data.drop_last();
        all_ranges(d) + symbol_ranges(
            model_after(d, MAX_ORDER as int),
            hist_after(d, MAX_ORDER as int),
            data.last(),
        )
    }
}

/// `archive` is what `compress` makes of `data`.
pub open spec fn is_archive_of(archive: Seq<u8>, data: Seq<u8>) -> bool {
    &&& archive.len() >= 12
    &&& archive.subrange(0, 4) == magic_spec()
    &&& archive.subrange(4, 12) == le_bytes_u64(data.len() as u64)
    &&& data.len() <= u64::MAX
    &&& enc_run(all_ranges(data)) is Some
    &&& bytes_to_bits(archive.subrange(12, archive.len() as int)) == coded_bits(all_ranges(data))
}

/// The coder's deferred-bit counter stays within the machine word.
pub open spec fn compress_ok(data: Seq<u8>) -> bool {
    &&& enc_run(all_ranges(data)) is Some
    &&& enc_run(all_ranges(data)).unwrap().pending < usize::MAX
}

proof fn lemma_ranges_from_codable(m: ModelView, h: Seq<u8>, s: u8, order: int, x: Seq<bool>)
    requires
        model_wf(m),
        x.len() == 256,
        !x[s as int],
        order <= MAX_ORDER,
    ensures
        forall|i: int|
            0 <= i < ranges_from(m, h, s, order, x).len() ==> range_codable(
                #[trigger] ranges_from(m, h, s, order, x)[i],
            ),
        ranges_from(m, h, s, order, x).len() >= 1,
    decreases order,
{
    if order <= 0 {
        let c = m.order0;
        let f = filtered(c.counts, x);
        if f.len() == 0 {
            lemma_minus_one_codable(x, s);
        } else {
            lemma_ctx_step(c, x, s);
            if first_index(f, s) >= f.len() {
                lemma_minus_one_codable(excl_add(x, c.counts), s);
            }
        }
    } else {
        let k = history_key(h, order);
        lemma_ranges_from_codable(m, h, s, order - 1, x);
        if m.ctxs[order - 1].contains_key(k) {
            let c = m.ctxs[order - 1][k];
            let f = filtered(c.counts, x);
            if f.len() > 0 {
                lemma_ctx_step(c, x, s);
                if first_index(f, s) >= f.len() {
                    let x2 = excl_add(x, c.counts);
                    lemma_ranges_from_codable(m, h, s, order - 1, x2);
                    let rest = ranges_from(m, h, s, order - 1, x2);
                    assert forall|i: int| 0 <= i < (seq![ctx_step_range(f, s)] + rest).len() implies range_codable(
                        #[trigger] (seq![ctx_step_range(f, s)] + rest)[i],
                    ) by {
                        if i > 0 {
                            assert((seq![ctx_step_range(f, s)] + rest)[i] == rest[i - 1]);
                        }
                    }
                }
            }
        }
    }
}

proof fn lemma_all_ranges_codable(data: Seq<u8>)
    ensures
        forall|i: int|
            0 <= i < all_ranges(data).len() ==> range_codable(#[trigger] all_ranges(data)[i]),
    decreases data.len(),
{
    if data.len() > 0 {
        let d = data.drop_last();
        let m = MAX_ORDER as int;
        lemma_all_ranges_codable(d);
        lemma_model_after_wf(d, m);
        let a = all_ranges(d);
        let h = hist_after(d, m);
        let sr = symbol_ranges(model_after(d, m), h, data.last());
        lemma_ranges_from_codable(model_after(d, m), h, data.last(), min_order(h, m), no_exclusion());
        assert forall|i: int| 0 <= i < (a + sr).len() implies range_codable(#[trigger] (a + sr)[i]) by {
            if i >= a.len() {
                assert((a + sr)[i] == sr[i - a.len()]);
            } else {
                assert((a + sr)[i] == a[i]);
            }
        }
    }
}

/// The ranges of a prefix of the data begin the ranges of the data.
proof fn lemma_all_ranges_prefix(data: Seq<u8>, j: int)
    requires
        0 <= j <= data.len(),
    ensures
        all_ranges(data.take(j)).len() <= all_ranges(data).len(),
        all_ranges(data).take(all_ranges(data.take(j)).len() as int) == all_ranges(data.take(j)),
    decreases data.len() - j,
{
    if j == data.len() {
        assert(data.take(j) =~= data);
        assert(all_ranges(data).take(all_ranges(data).len() as int) =~= all_ranges(data));
    } else {
        lemma_all_ranges_prefix(data, j + 1);
        let a = all_ranges(data.take(j));
        let b = all_ranges(data.take(j + 1));
        assert(data.take(j + 1).drop_last() =~= data.take(j));
        assert(all_ranges(data).take(a.len() as int) =~= b.take(a.len() as int));
        assert(b.take(a.len() as int) =~= a);
    }
}

/// Compresses `data`.
#[verifier::spinoff_prover]
#[verifier::rlimit(40)]
pub fn compress(data: &[u8]) -> (r: Result<Vec<u8>, CodecError>)
    ensures
        r is Ok <==> compress_ok(data@),
        r is Ok ==> is_archive_of(r->Ok_0@, data@),
        r is Err ==> r == Err::<Vec<u8>, CodecError>(CodecError::PendingOverflow),
{
    let mut out: Vec<u8> = Vec::new();
    let magic = magic();
    out.push(magic[0]);
    out.push(magic[1]);
    out.push(magic[2]);
    out.push(magic[3]);
    push_u64_le(&mut out, data.len() as u64);
    let ghost header = out@;
    let mut model = Model::new();
    let mut encoder = ArithmeticEncoder::new();
    let mut history = ByteHistory::new(MAX_ORDER);
    let ghost m = MAX_ORDER as int;
    assert(data@.take(0) =~= Seq::<u8>::empty());
    let mut i: usize = 0;
    while i < data.len()
        invariant
            m == MAX_ORDER as int,
            i <= data@.len(),
            model.wf(),
            model.view() == model_after(data@.take(i as int), m),
            history.wf(),
            history.max_len() == m,
            history.view() == hist_after(data@.take(i as int), m),
            encoder.wf(),
            enc_run(all_ranges(data@.take(i as int))) == Some(encoder.view()),
            out@ == header,
            magic@ == magic_spec(),
        decreases data@.len() - i,
    {
        let symbol = data[i];
        proof {
            lemma_take_step(data@, i as int);
            lemma_enc_run_append(
                all_ranges(data@.take(i as int)),
                symbol_ranges(model.view(), history.view(), symbol),
            );
        }
        match model.encode_symbol(symbol, &history, &mut encoder) {
            Ok(()) => {},
            Err(e) => {
                proof {
                    lemma_all_ranges_prefix(data@, i as int + 1);
                    let a = all_ranges(data@.take(i as int + 1));
                    let full = all_ranges(data@);
                    assert(full =~= a + full.subrange(a.len() as int, full.len() as int));
                    lemma_enc_run_append(a, full.subrange(a.len() as int, full.len() as int));
                }
                return Err(e);
            },
        }
        model.observe(symbol, &history);
        history.push(symbol);
        i = i + 1;
    }
    assert(data@.take(data@.len() as int) =~= data@);
    match encoder.finish() {
        Ok(payload) => {
            let ghost p = payload@;
            let mut k: usize = 0;
            while k < payload.len()
                invariant
                    k <= payload@.len(),
                    p == payload@,
                    out@ == header + p.take(k as int),
                decreases payload@.len() - k,
            {
                out.push(payload[k]);
                k = k + 1;
                assert(out@ =~= header + p.take(k as int));
            }
            assert(p.take(p.len() as int) =~= p);
            assert(out@.subrange(0, 4) =~= magic_spec());
            assert(out@.subrange(4, 12) =~= le_bytes_u64(data@.len() as u64));
            assert(out@.subrange(12, out@.len() as int) =~= p);
            Ok(out)
        },
        Err(e) => Err(e),
    }
}

/// Decoding `n` bytes from `payload`: the bytes decoded, the decoder's
/// state after them, and the error that stopped decoding, if any.
pub open spec fn ppmd_decoded(payload: Seq<u8>, n: nat) -> (Seq<u8>, DecState, Option<CodecError>)
    decreases n,
{
    if n == 0 {
        (Seq::empty(), dec_init(payload), None)
    } else {
        let (prev, d, e) = ppmd_decoded(payload, (n - 1) as nat);
        if e is Some {
            (prev, d, e)
        } else {
            let h = hist_after(prev, MAX_ORDER as int);
            let (r, d2) = ppmd_decode_from(
                model_after(prev, MAX_ORDER as int),
                h,
                min_order(h, MAX_ORDER as int),
                no_exclusion(),
                d,
                payload,
            );
            match r {
                Ok(b) => (prev.push(b), d2, None),
                Err(err) => (prev, d2, Some(err)),
            }
        }
    }
}

proof fn lemma_ppmd_decoded(payload: Seq<u8>, i: nat, n: nat)
    requires
        i <= n,
    ensures
        ppmd_decoded(payload, n).2 is None ==> ppmd_decoded(payload, n).0.len() == n,
        ppmd_decoded(payload, i).2 is Some ==> ppmd_decoded(payload, n).2 == ppmd_decoded(payload, i).2,
    decreases n,
{
    if n > 0 {
        if i == n {
            lemma_ppmd_decoded(payload, (i - 1) as nat, (n - 1) as nat);
        } else {
            lemma_ppmd_decoded(payload, i, (n - 1) as nat);
        }
    }
}

/// Restores the bytes of an archive made by `compress`.
#[verifier::spinoff_prover]
#[verifier::rlimit(40)]
pub fn decompress(archive: &[u8]) -> (r: Result<Vec<u8>, CodecError>)
    ensures
        archive@.len() < 4 ==> r == Err::<Vec<u8>, CodecError>(CodecError::UnexpectedEof),
        archive@.len() >= 4 && archive@.subrange(0, 4) != magic_spec() ==> r == Err::<
            Vec<u8>,
            CodecError,
        >(CodecError::InvalidMagic),
        archive@.len() >= 4 && archive@.subrange(0, 4) == magic_spec() && archive@.len() < 12 ==> r
            == Err::<Vec<u8>, CodecError>(CodecError::UnexpectedEof),
        archive@.len() >= 12 && archive@.subrange(0, 4) == magic_spec() ==> match ppmd_decoded(
            archive@.subrange(12, archive@.len() as int),
            le_u64(archive@.subrange(4, 12)) as nat,
        ).2 {
            None => r is Ok && r->Ok_0@ == ppmd_decoded(
                archive@.subrange(12, archive@.len() as int),
                le_u64(archive@.subrange(4, 12)) as nat,
            ).0,
            Some(e) => r == Err::<Vec<u8>, CodecError>(e),
        },
        r is Ok ==> r->Ok_0@.len() == le_u64(archive@.subrange(4, 12)),
        forall|d: Seq<u8>| is_archive_of(archive@, d) ==> r is Ok && r->Ok_0@ == d,
{
    if archive.len() < 4 {
        return Err(CodecError::UnexpectedEof);
    }
    let magic = magic();
    if archive[0] != magic[0] || archive[1] != magic[1] || archive[2] != magic[2] || archive[3]
        != magic[3] {
        assert(archive@.subrange(0, 4) != magic_spec()) by {
            if archive@.subrange(0, 4) == magic_spec() {
                assert(archive@.subrange(0, 4)[0] == archive@[0]);
                assert(archive@.subrange(0, 4)[1] == archive@[1]);
                assert(archive@.subrange(0, 4)[2] == archive@[2]);
                assert(archive@.subrange(0, 4)[3] == archive@[3]);
            }
        }
        return Err(CodecError::InvalidMagic);
    }
    assert(archive@.subrange(0, 4) =~= magic_spec());
    let expected_len = match read_u64(archive, 4) {
        Some(v) => v,
        None => {
            return Err(CodecError::UnexpectedEof);
        },
    };
    let payload = vstd::slice::slice_subrange(archive, 12, archive.len());
    let ghost m = MAX_ORDER as int;
    let ghost cond = exists|d: Seq<u8>| is_archive_of(archive@, d);
    let ghost d = choose|d: Seq<u8>| is_archive_of(archive@, d);
    let ghost rs = all_ranges(d);
    let mut model = Model::new();
    let mut decoder = ArithmeticDecoder::new(payload);
    let mut history = ByteHistory::new(MAX_ORDER);
    let mut restored: Vec<u8> = Vec::new();
    proof {
        if cond {
            lemma_le_u64_roundtrip(d.len() as u64);
            lemma_all_ranges_codable(d);
            assert(d.take(0) =~= Seq::<u8>::empty());
            assert(rs.take(0) =~= Seq::<CodeRange>::empty());
        }
    }
    while (restored.len() as u64) < expected_len
        invariant
            m == MAX_ORDER as int,
            archive@.len() >= 12,
            archive@.subrange(0, 4) == magic_spec(),
            cond == exists|d: Seq<u8>| is_archive_of(archive@, d),
            restored@.len() <= expected_len,
            expected_len == le_u64(archive@.subrange(4, 12)),
            model.wf(),
            model.view() == model_after(restored@, m),
            history.wf(),
            history.max_len() == m,
            history.view() == hist_after(restored@, m),
            ppmd_decoded(payload@, restored@.len()) == (restored@, decoder.view(), None::<CodecError>),
            decoder.wf(),
            decoder.data() == payload@,
            payload@ == archive@.subrange(12, archive@.len() as int),
            rs == all_ranges(d),
            cond ==> is_archive_of(archive@, d),
            cond ==> expected_len == d.len(),
            cond ==> restored@ == d.take(restored@.len() as int) && synced(
                decoder.view(),
                payload@,
                rs,
                all_ranges(restored@).len() as int,
            ),
        decreases expected_len - restored@.len(),
    {
        let i = restored.len();
        let ghost s = d[i as int];
        let ghost k = all_ranges(restored@).len() as int;
        proof {
            if cond {
                lemma_take_step(d, i as int);
                lemma_all_ranges_prefix(d, i as int + 1);
                let a = all_ranges(d.take(i as int));
                let sr = symbol_ranges(model.view(), history.view(), s);
                assert(all_ranges(d.take(i as int + 1)) == a + sr);
                assert(rs.subrange(k, k + sr.len()) =~= sr) by {
                    assert forall|j: int| 0 <= j < sr.len() implies rs.subrange(k, k + sr.len())[j]
                        == sr[j] by {
                        assert(rs.take((a + sr).len() as int)[k + j] == (a + sr)[k + j]);
                    }
                }
            }
        }
        let symbol = match model.decode_symbol(&history, &mut decoder, Ghost(rs), Ghost(k), Ghost(s)) {
            Ok(sym) => sym,
            Err(e) => {
                proof {
                    assert forall|d2: Seq<u8>| is_archive_of(archive@, d2) implies false by {
                        assert(cond);
                    }
                    assert(ppmd_decoded(payload@, (i + 1) as nat).2 == Some(e));
                    lemma_ppmd_decoded(payload@, (i + 1) as nat, expected_len as nat);
                }
                return Err(e);
            },
        };
        let ghost before = restored@;
        restored.push(symbol);
        proof {
            assert(restored@.drop_last() =~= before);
            assert(ppmd_decoded(payload@, restored@.len()) == (restored@, decoder.view(), None::<CodecError>));
            if cond {
                assert(restored@ =~= d.take(i as int + 1));
            }
        }
        model.observe(symbol, &history);
        history.push(symbol);
    }
    proof {
        assert(restored@.len() == expected_len);
        if cond {
            assert(restored@ =~= d);
            assert forall|d2: Seq<u8>| is_archive_of(archive@, d2) implies d2 == d by {
                lemma_archive_unique(archive@, d, d2);
            }
        }
    }
    Ok(restored)
}

// --- the code is prefix-free ---

/// For distinct bytes neither of which is excluded, the range sequences
/// agree up to a position where the two ranges share a total but not a value.
proof fn lemma_ranges_diverge(m: ModelView, h: Seq<u8>, a: u8, b: u8, order: int, x: Seq<bool>) -> (j: int)
    requires
        model_wf(m),
        a != b,
        x.len() == 256,
        !x[a as int],
        !x[b as int],
        order <= MAX_ORDER,
    ensures
        0 <= j < ranges_from(m, h, a, order, x).len(),
        j < ranges_from(m, h, b, order, x).len(),
        ranges_from(m, h, a, order, x).take(j) == ranges_from(m, h, b, order, x).take(j),
        ranges_from(m, h, a, order, x)[j].total == ranges_from(m, h, b, order, x)[j].total,
        !ranges_overlap(ranges_from(m, h, a, order, x)[j], ranges_from(m, h, b, order, x)[j]),
    decreases order,
{
    let ra = ranges_from(m, h, a, order, x);
    let rb = ranges_from(m, h, b, order, x);
    if order <= 0 {
        let c = m.order0;
        let f = filtered(c.counts, x);
        if f.len() == 0 {
            if a < b {
                lemma_minus_one_order(x, a, b);
            } else {
                lemma_minus_one_order(x, b, a);
            }
            assert(ra.take(0) =~= rb.take(0));
            0
        } else {
            lemma_ctx_step(c, x, a);
            lemma_ctx_step(c, x, b);
            lemma_filtered(c.counts, x);
            lemma_steps_disjoint(f, a, b);
            if first_index(f, a) < f.len() || first_index(f, b) < f.len() {
                assert(ra.take(0) =~= rb.take(0));
                0
            } else {
                let x2 = excl_add(x, c.counts);
                if a < b {
                    lemma_minus_one_order(x2, a, b);
                } else {
                    lemma_minus_one_order(x2, b, a);
                }
                assert(ra.take(1) =~= rb.take(1));
                1
            }
        }
    } else {
        let k = history_key(h, order);
        if m.ctxs[order - 1].contains_key(k) {
            let c = m.ctxs[order - 1][k];
            let f = filtered(c.counts, x);
            if f.len() == 0 {
                lemma_ranges_diverge(m, h, a, b, order - 1, x)
            } else {
                lemma_ctx_step(c, x, a);
                lemma_ctx_step(c, x, b);
                lemma_filtered(c.counts, x);
                lemma_steps_disjoint(f, a, b);
                if first_index(f, a) < f.len() || first_index(f, b) < f.len() {
                    assert(ra.take(0) =~= rb.take(0));
                    0
                } else {
                    let x2 = excl_add(x, c.counts);
                    let j = lemma_ranges_diverge(m, h, a, b, order - 1, x2);
                    let xa = ranges_from(m, h, a, order - 1, x2);
                    let xb = ranges_from(m, h, b, order - 1, x2);
                    let e = ctx_step_range(f, a);
                    assert(e == ctx_step_range(f, b));
                    assert(ra == seq![e] + xa);
                    assert(rb == seq![e] + xb);
                    assert(ra.take(j + 1) =~= seq![e] + xa.take(j));
                    assert(rb.take(j + 1) =~= seq![e] + xb.take(j));
                    assert(ra[j + 1] == xa[j]);
                    assert(rb[j + 1] == xb[j]);
                    j + 1
                }
            }
        } else {
            lemma_ranges_diverge(m, h, a, b, order - 1, x)
        }
    }
}

/// In one context, the step ranges of two bytes either coincide (both
/// escape) or do not overlap.
proof fn lemma_steps_disjoint(f: Seq<WeightedSymbol>, a: u8, b: u8)
    requires
        a != b,
        f.len() > 0,
        forall|i: int| 0 <= i < f.len() ==> #[trigger] f[i].weight >= 1,
        weight_sum(f) + 256 < MAX_CONTEXT_TOTAL + 512,
    ensures
        first_index(f, a) < f.len() || first_index(f, b) < f.len() ==> !ranges_overlap(
            ctx_step_range(f, a),
            ctx_step_range(f, b),
        ),
        ctx_step_range(f, a).total == ctx_step_range(f, b).total,
{
    lemma_first_index(f, a);
    lemma_first_index(f, b);
    let ia = first_index(f, a);
    let ib = first_index(f, b);
    let ra = ctx_step_range(f, a);
    let rb = ctx_step_range(f, b);
    if ia < f.len() || ib < f.len() {
        if ranges_overlap(ra, rb) {
            let t = choose|t: int| in_range(t, ra) && in_range(t, rb);
            if ia < f.len() {
                lemma_weight_sum_take(f, ia, ia + 1);
                lemma_weight_sum_take(f, ia + 1, f.len() as int);
            }
            if ib < f.len() {
                lemma_weight_sum_take(f, ib, ib + 1);
                lemma_weight_sum_take(f, ib + 1, f.len() as int);
            }
            lemma_weight_sum_nonneg(f);
            if ia < f.len() && ib < f.len() {
                assert(f[ia].symbol == a);
                assert(f[ib].symbol == b);
                assert(ia != ib);
                if ia < ib {
                    lemma_weight_sum_take(f, ia + 1, ib);
                } else {
                    lemma_weight_sum_take(f, ib + 1, ia);
                }
            }
        }
    }
}

/// Two inputs never produce the same archive.
pub proof fn lemma_archive_unique(archive: Seq<u8>, d1: Seq<u8>, d2: Seq<u8>)
    requires
        is_archive_of(archive, d1),
        is_archive_of(archive, d2),
    ensures
        d1 == d2,
{
    lemma_le_u64_roundtrip(d1.len() as u64);
    lemma_le_u64_roundtrip(d2.len() as u64);
    assert(d1.take(0) =~= d2.take(0));
    lemma_unique_from(archive, d1, d2, 0);
}

proof fn lemma_unique_from(archive: Seq<u8>, d1: Seq<u8>, d2: Seq<u8>, i: int)
    requires
        is_archive_of(archive, d1),
        is_archive_of(archive, d2),
        d1.len() == d2.len(),
        0 <= i <= d1.len(),
        d1.take(i) == d2.take(i),
    ensures
        d1 == d2,
    decreases d1.len() - i,
{
    if i == d1.len() {
        assert(d1 =~= d1.take(i));
        assert(d2 =~= d2.take(i));
    } else if d1[i] == d2[i] {
        assert(d1.take(i + 1) =~= d1.take(i).push(d1[i]));
        assert(d2.take(i + 1) =~= d2.take(i).push(d2[i]));
        lemma_unique_from(archive, d1, d2, i + 1);
    } else {
        let mo = MAX_ORDER as int;
        let p = d1.take(i);
        let mm = model_after(p, mo);
        let h = hist_after(p, mo);
        let a = d1[i];
        let b = d2[i];
        lemma_model_after_wf(p, mo);
        let j = lemma_ranges_diverge(mm, h, a, b, min_order(h, mo), no_exclusion());
        let ra = symbol_ranges(mm, h, a);
        let rb = symbol_ranges(mm, h, b);
        let pre = all_ranges(p);
        let k = pre.len() as int;
        let rs1 = all_ranges(d1);
        let rs2 = all_ranges(d2);
        lemma_all_ranges_prefix(d1, i + 1);
        lemma_all_ranges_prefix(d2, i + 1);
        lemma_take_step(d1, i);
        lemma_take_step(d2, i);
        assert(all_ranges(d1.take(i + 1)) == pre + ra);
        assert(all_ranges(d2.take(i + 1)) == pre + rb);
        assert(rs1.take(k + j) =~= pre + ra.take(j)) by {
            assert(rs1.take((pre + ra).len() as int) == pre + ra);
            assert forall|x: int| 0 <= x < k + j implies rs1.take(k + j)[x] == (pre + ra.take(j))[x] by {
                assert(rs1.take((pre + ra).len() as int)[x] == (pre + ra)[x]);
            }
        }
        assert(rs2.take(k + j) =~= pre + rb.take(j)) by {
            assert(rs2.take((pre + rb).len() as int) == pre + rb);
            assert forall|x: int| 0 <= x < k + j implies rs2.take(k + j)[x] == (pre + rb.take(j))[x] by {
                assert(rs2.take((pre + rb).len() as int)[x] == (pre + rb)[x]);
            }
        }
        assert(rs1[k + j] == ra[j]) by {
            assert(rs1.take((pre + ra).len() as int)[k + j] == (pre + ra)[k + j]);
        }
        assert(rs2[k + j] == rb[j]) by {
            assert(rs2.take((pre + rb).len() as int)[k + j] == (pre + rb)[k + j]);
        }
        let payload = archive.subrange(12, archive.len() as int);
        lemma_all_ranges_codable(d1);
        lemma_all_ranges_codable(d2);
        crate::arith::lemma_decode_finds_range(rs1, payload, k + j);
        crate::arith::lemma_decode_finds_range(rs2, payload, k + j);
        let t = dec_target(dec_run(payload, rs1.take(k + j)), ra[j].total as int);
        assert(in_range(t, ra[j]) && in_range(t, rb[j]));
        assert(ranges_overlap(ra[j], rb[j]));
    }
}

} // verus!
