//! Byte-level PPM: for each byte, the longest context of up to `max_order`
//! preceding bytes that has seen it codes it, longer contexts that have not
//! escape; order 0 and a flat order -1 catch the rest.  A mixing variant
//! combines all orders' counts into one candidate list.
use vstd::prelude::*;
use std::collections::HashMap;
use crate::arith::{ArithmeticEncoder, ArithmeticDecoder, CodeRange, code_range, enc_step, enc_seq, enc_run, dec_step, dec_run, dec_target, in_range, range_codable, synced, coded_bits, EncState, DecState, dec_init, lemma_enc_seq_append, lemma_enc_seq_one, lemma_enc_run_append, lemma_synced_step};
use crate::bits::{bytes_to_bits, le_bytes_u64, le_u64, push_u64_le, read_u64, lemma_le_u64_roundtrip};
use crate::context::{ByteContext, symbol_pairs, CtxView, ctx_empty, ctx_observe, ctx_wf, has_symbol, symbol_range, escape_range, lemma_observe_wf, lemma_ranges_codable, lemma_ranges_disjoint, lemma_range_values, ctx_decode};
use crate::history::{ByteHistory, history_key, history_push};
use crate::candidates::{WeightedSymbol, candidates_codable, candidate_ranges, encode_candidates, decode_candidates, decode_outcome, total_weight, weight_sum};
use crate::error::CodecError;

verus! {

broadcast use vstd::std_specs::hash::group_hash_axioms;

pub const MAX_ORDER: usize = 6;
pub const SYMBOLS: u32 = 256;

pub open spec fn magic_order1_spec() -> Seq<u8> { seq![80u8, 80u8, 49u8, 49u8] }
pub open spec fn magic_order2_spec() -> Seq<u8> { seq![80u8, 80u8, 49u8, 50u8] }
pub open spec fn magic_order3_spec() -> Seq<u8> { seq![80u8, 80u8, 49u8, 51u8] }
pub open spec fn magic_order4_spec() -> Seq<u8> { seq![80u8, 80u8, 49u8, 52u8] }
pub open spec fn magic_order5_spec() -> Seq<u8> { seq![80u8, 80u8, 49u8, 53u8] }
pub open spec fn magic_order6_spec() -> Seq<u8> { seq![80u8, 80u8, 49u8, 54u8] }
pub open spec fn magic_mix_spec() -> Seq<u8> { seq![80u8, 80u8, 77u8, 88u8] }

/// The archive tag `PP11`.
pub fn magic_order1() -> (m: [u8; 4]) ensures m@ == magic_order1_spec() {
    let m = [80u8, 80, 49, 49]; assert(m@ =~= magic_order1_spec()); m
}
/// The archive tag `PP12`.
pub fn magic_order2() -> (m: [u8; 4]) ensures m@ == magic_order2_spec() {
    let m = [80u8, 80, 49, 50]; assert(m@ =~= magic_order2_spec()); m
}
/// The archive tag `PP13`.
pub fn magic_order3() -> (m: [u8; 4]) ensures m@ == magic_order3_spec() {
    let m = [80u8, 80, 49, 51]; assert(m@ =~= magic_order3_spec()); m
}
/// The archive tag `PP14`.
pub fn magic_order4() -> (m: [u8; 4]) ensures m@ == magic_order4_spec() {
    let m = [80u8, 80, 49, 52]; assert(m@ =~= magic_order4_spec()); m
}
/// The archive tag `PP15`.
pub fn magic_order5() -> (m: [u8; 4]) ensures m@ == magic_order5_spec() {
    let m = [80u8, 80, 49, 53]; assert(m@ =~= magic_order5_spec()); m
}
/// The archive tag `PP16`.
pub fn magic_order6() -> (m: [u8; 4]) ensures m@ == magic_order6_spec() {
    let m = [80u8, 80, 49, 54]; assert(m@ =~= magic_order6_spec()); m
}
/// The archive tag `PPMX`.
pub fn magic_mix() -> (m: [u8; 4]) ensures m@ == magic_mix_spec() {
    let m = [80u8, 80, 77, 88]; assert(m@ =~= magic_mix_spec()); m
}

/// What the model has learned: order-0 counts and, per order, a map from
/// context key to counts.
pub struct ModelView {
    pub order0: CtxView,
    pub ctxs: Seq<Map<u64, CtxView>>,
}

pub open spec fn model_init() -> ModelView {
    ModelView { order0: ctx_empty(), ctxs: Seq::new(MAX_ORDER as nat, |_i: int| Map::empty()) }
}

pub open spec fn model_wf(m: ModelView) -> bool {
    &&& ctx_wf(m.order0)
    &&& m.ctxs.len() == MAX_ORDER
    &&& forall|i: int, k: u64|
        0 <= i < MAX_ORDER && #[trigger] m.ctxs[i].contains_key(k) ==> ctx_wf(m.ctxs[i][k])
}

pub open spec fn min_order(h: Seq<u8>, max_order: int) -> int {
    if (h.len() as int) < max_order {
        h.len() as int
    } else {
        max_order
    }
}

pub open spec fn get_or_empty(m: Map<u64, CtxView>, k: u64) -> CtxView {
    if m.contains_key(k) {
        m[k]
    } else {
        ctx_empty()
    }
}

/// The model after seeing `s` with history `h`.
pub open spec fn model_observe(m: ModelView, h: Seq<u8>, max_order: int, s: u8) -> ModelView {
    ModelView {
        order0: ctx_observe(m.order0, s),
        ctxs: Seq::new(
            m.ctxs.len(),
            |i: int|
                if i + 1 <= min_order(h, max_order) {
                    let k = history_key(h, i + 1);
                    m.ctxs[i].insert(k, ctx_observe(get_or_empty(m.ctxs[i], k), s))
                } else {
                    m.ctxs[i]
                },
        ),
    }
}

/// The ranges coding `s` at order 0 and below.
pub open spec fn order0_ranges(c: CtxView, s: u8) -> Seq<CodeRange> {
    if has_symbol(c.counts, s) {
        seq![symbol_range(c, s)]
    } else {
        seq![escape_range(c), code_range(s as u32, 1, SYMBOLS)]
    }
}

/// The ranges coding `s`, trying contexts from `order` down.
pub open spec fn ranges_from(m: ModelView, h: Seq<u8>, s: u8, order: int) -> Seq<CodeRange>
    decreases order,
{
    if order <= 0 {
        order0_ranges(m.order0, s)
    } else {
        let k = history_key(h, order);
        if m.ctxs[order - 1].contains_key(k) {
            let c = m.ctxs[order - 1][k];
            if has_symbol(c.counts, s) {
                seq![symbol_range(c, s)]
            } else {
                seq![escape_range(c)] + ranges_from(m, h, s, order - 1)
            }
        } else {
            ranges_from(m, h, s, order - 1)
        }
    }
}

pub open spec fn symbol_ranges(m: ModelView, h: Seq<u8>, max_order: int, s: u8) -> Seq<
    CodeRange,
> {
    ranges_from(m, h, s, min_order(h, max_order))
}

/// The history after `data`.
pub open spec fn hist_after(data: Seq<u8>, max_order: int) -> Seq<u8>
    decreases data.len(),
{
    if data.len() == 0 {
        Seq::empty()
    } else {
        history_push(hist_after(data.drop_last(), max_order), data.last(), max_order)
    }
}

/// The model after `data`.
pub open spec fn model_after(data: Seq<u8>, max_order: int) -> ModelView
    decreases data.len(),
{
    if data.len() == 0 {
        model_init()
    } else {
        let d = data.drop_last();
        model_observe(model_after(d, max_order), hist_after(d, max_order), max_order, data.last())
    }
}

/// Every range the compressor codes for `data`.
pub open spec fn all_ranges(data: Seq<u8>, max_order: int) -> Seq<CodeRange>
    decreases data.len(),
{
    if data.len() == 0 {
        Seq::empty()
    } else {
        let d = data.drop_last();
        all_ranges(d, max_order) + symbol_ranges(
            model_after(d, max_order),
            hist_after(d, max_order),
            max_order,
            data.last(),
        )
    }
}

/// `archive` is what the order-`max_order` compressor tagged `magic` makes of `data`.
pub open spec fn is_archive_of(archive: Seq<u8>, data: Seq<u8>, magic: Seq<u8>, max_order: int) -> bool {
    &&& archive.len() >= 12
    &&& archive.subrange(0, 4) == magic
    &&& archive.subrange(4, 12) == le_bytes_u64(data.len() as u64)
    &&& data.len() <= u64::MAX
    &&& enc_run(all_ranges(data, max_order)) is Some
    &&& bytes_to_bits(archive.subrange(12, archive.len() as int)) == coded_bits(
        all_ranges(data, max_order),
    )
}

/// What decoding a byte gives from decoder state `d`: the contexts from
/// order `order` down to 1 that exist are tried in turn, each either giving
/// the byte or escaping, then order 0, then a flat choice among all 256.
pub open spec fn decode_from(m: ModelView, h: Seq<u8>, order: int, d: DecState, data: Seq<u8>) -> (u8, DecState)
    decreases order,
{
    if order <= 0 {
        let (o, d1) = ctx_decode(m.order0, d, data);
        match o {
            Some(s) => (s, d1),
            None => {
                let v = dec_target(d1, SYMBOLS as int);
                (v as u8, dec_step(d1, code_range(v as u32, 1, SYMBOLS), data))
            },
        }
    } else {
        let k = history_key(h, order);
        if m.ctxs[order - 1].contains_key(k) {
            let (o, d1) = ctx_decode(m.ctxs[order - 1][k], d, data);
            match o {
                Some(s) => (s, d1),
                None => decode_from(m, h, order - 1, d1, data),
            }
        } else {
            decode_from(m, h, order - 1, d, data)
        }
    }
}

/// The first `n` bytes decoded from `payload` with contexts of up to
/// `max_order` bytes, and the decoder's state after them.
pub open spec fn decoded(payload: Seq<u8>, n: nat, max_order: int) -> (Seq<u8>, DecState)
    decreases n,
{
    if n == 0 {
        (Seq::empty(), dec_init(payload))
    } else {
        let (prev, d) = decoded(payload, (n - 1) as nat, max_order);
        let h = hist_after(prev, max_order);
        let (b, d2) = decode_from(model_after(prev, max_order), h, min_order(h, max_order), d, payload);
        (prev.push(b), d2)
    }
}

proof fn lemma_decoded_len(payload: Seq<u8>, n: nat, max_order: int)
    ensures
        decoded(payload, n, max_order).0.len() == n,
    decreases n,
{
    if n > 0 {
        lemma_decoded_len(payload, (n - 1) as nat, max_order);
    }
}

/// The bytes-and-counts model for a fixed maximal order.
pub struct Model {
    order0: ByteContext,
    contexts: Vec<HashMap<u64, ByteContext>>,
}

impl Model {
    pub closed spec fn view(&self) -> ModelView {
        ModelView {
            order0: self.order0.view(),
            ctxs: Seq::new(
                self.contexts@.len(),
                |i: int| self.contexts@[i]@.map_values(|c: ByteContext| c.view()),
            ),
        }
    }

    pub closed spec fn wf(&self) -> bool {
        &&& self.order0.wf()
        &&& self.contexts@.len() == MAX_ORDER
        &&& forall|i: int, k: u64|
            0 <= i < MAX_ORDER && #[trigger] self.contexts@[i]@.contains_key(k)
                ==> self.contexts@[i]@[k].wf()
    }

    /// A well-formed model has well-formed counts in every context.
    pub proof fn lemma_wf(&self)
        requires
            self.wf(),
        ensures
            model_wf(self.view()),
    {
        assert forall|i: int, k: u64|
            0 <= i < MAX_ORDER && #[trigger] self.view().ctxs[i].contains_key(k) implies ctx_wf(
            self.view().ctxs[i][k],
        ) by {
            assert(self.contexts@[i]@.contains_key(k));
            assert(self.contexts@[i]@[k].wf());
        }
    }

    pub fn new() -> (m: Self)
        ensures
            m.wf(),
            m.view() == model_init(),
    {
        let mut contexts: Vec<HashMap<u64, ByteContext>> = Vec::new();
        let mut i: usize = 0;
        while i < MAX_ORDER
            invariant
                i <= MAX_ORDER,
                contexts@.len() == i,
                forall|j: int| 0 <= j < i ==> #[trigger] contexts@[j]@ == Map::<
                    u64,
                    ByteContext,
                >::empty(),
            decreases MAX_ORDER - i,
        {
            contexts.push(HashMap::new());
            i = i + 1;
        }
        let m = Model { order0: ByteContext::new(), contexts };
        assert(m.view().ctxs =~= model_init().ctxs) by {
            assert forall|j: int| 0 <= j < MAX_ORDER implies #[trigger] m.view().ctxs[j]
                =~= model_init().ctxs[j] by {}
        }
        m
    }

    /// The order-0 statistics.
    pub fn order0(&self) -> (c: &ByteContext)
        requires
            self.wf(),
        ensures
            c.wf(),
            c.view() == self.view().order0,
    {
        &self.order0
    }

    /// The context of order `order` (1 to 6) for `history`, if it exists.
    pub fn context_for_order(&self, order: usize, history: &ByteHistory) -> (r: Option<
        &ByteContext,
    >)
        requires
            self.wf(),
            1 <= order <= MAX_ORDER,
        ensures
            match r {
                Some(c) => self.view().ctxs[order - 1].contains_key(
                    history_key(history.view(), order as int),
                ) && c.wf() && c.view() == self.view().ctxs[order - 1][history_key(
                    history.view(),
                    order as int,
                )],
                None => !self.view().ctxs[order - 1].contains_key(
                    history_key(history.view(), order as int),
                ),
            },
    {
        let key = history.key(order);
        let r = self.contexts[order - 1].get(&key);
        proof {
            if r is Some {
                assert(self.contexts@[order - 1]@.contains_key(key));
            }
        }
        r
    }

    /// Codes `symbol`: escapes out of longer contexts that have not seen it,
    /// then codes it in the first that has, falling back to order 0 and -1.
    pub fn encode_symbol(
        &self,
        symbol: u8,
        history: &ByteHistory,
        max_order: usize,
        encoder: &mut ArithmeticEncoder,
    ) -> (r: Result<(), CodecError>)
        requires
            self.wf(),
            1 <= max_order <= MAX_ORDER,
            old(encoder).wf(),
        ensures
            r is Ok ==> final(encoder).wf(),
            match enc_seq(
                old(encoder).view(),
                symbol_ranges(self.view(), history.view(), max_order as int, symbol),
            ) {
                Some(s) => r is Ok && final(encoder).view() == s,
                None => r == Err::<(), CodecError>(CodecError::PendingOverflow),
            },
    {
        let ghost m = self.view();
        let ghost h = history.view();
        let top = if history.len() < max_order { history.len() } else { max_order };
        let mut order = top;
        while order > 0
            invariant
                self.wf(),
                m == self.view(),
                h == history.view(),
                order <= top <= max_order <= MAX_ORDER,
                top as int == crate::byte_ppm::min_order(h, max_order as int),
                encoder.wf(),
                enc_seq(old(encoder).view(), ranges_from(m, h, symbol, top as int)) == enc_seq(
                    encoder.view(),
                    ranges_from(m, h, symbol, order as int),
                ),
            decreases order,
        {
            match self.context_for_order(order, history) {
                Some(context) => {
                    if context.contains(symbol) {
                        proof {
                            lemma_enc_seq_one(encoder.view(), symbol_range(context.view(), symbol));
                        }
                        return context.encode_symbol(symbol, encoder);
                    }
                    proof {
                        lemma_enc_seq_append(
                            encoder.view(),
                            seq![escape_range(context.view())],
                            ranges_from(m, h, symbol, order - 1),
                        );
                        lemma_enc_seq_one(encoder.view(), escape_range(context.view()));
                    }
                    match context.encode_escape(encoder) {
                        Ok(()) => {},
                        Err(e) => {
                            return Err(e);
                        },
                    }
                },
                None => {},
            }
            order = order - 1;
        }
        if self.order0.contains(symbol) {
            proof {
                lemma_enc_seq_one(encoder.view(), symbol_range(m.order0, symbol));
            }
            self.order0.encode_symbol(symbol, encoder)
        } else {
            proof {
                lemma_enc_seq_append(
                    encoder.view(),
                    seq![escape_range(m.order0)],
                    seq![code_range(symbol as u32, 1, SYMBOLS)],
                );
                assert(seq![escape_range(m.order0)] + seq![code_range(symbol as u32, 1, SYMBOLS)]
                    =~= order0_ranges(m.order0, symbol));
                lemma_enc_seq_one(encoder.view(), escape_range(m.order0));
            }
            match self.order0.encode_escape(encoder) {
                Ok(()) => {},
                Err(e) => {
                    return Err(e);
                },
            }
            proof {
                lemma_enc_seq_one(encoder.view(), code_range(symbol as u32, 1, SYMBOLS));
            }
            encoder.encode(symbol as u32, 1, SYMBOLS)
        }
    }

    /// Decodes one byte, mirroring `encode_symbol`.  When the decoder is in
    /// step with an encoder that coded `s` next, the result is `s`.
    pub fn decode_symbol(
        &self,
        history: &ByteHistory,
        max_order: usize,
        decoder: &mut ArithmeticDecoder,
        Ghost(rs): Ghost<Seq<CodeRange>>,
        Ghost(k): Ghost<int>,
        Ghost(s): Ghost<u8>,
    ) -> (r: Result<u8, CodecError>)
        requires
            self.wf(),
            1 <= max_order <= MAX_ORDER,
            old(decoder).wf(),
        ensures
            final(decoder).wf(),
            final(decoder).data() == old(decoder).data(),
            r == Ok::<u8, CodecError>(decode_from(
                self.view(),
                history.view(),
                min_order(history.view(), max_order as int),
                old(decoder).view(),
                old(decoder).data(),
            ).0),
            final(decoder).view() == decode_from(
                self.view(),
                history.view(),
                min_order(history.view(), max_order as int),
                old(decoder).view(),
                old(decoder).data(),
            ).1,
            ({
                let sr = symbol_ranges(self.view(), history.view(), max_order as int, s);
                synced(old(decoder).view(), old(decoder).data(), rs, k) && k + sr.len() <= rs.len()
                    && rs.subrange(k, k + sr.len()) == sr ==> r == Ok::<u8, CodecError>(s)
                    && synced(final(decoder).view(), final(decoder).data(), rs, k + sr.len())
            }),
    {
        let ghost m = self.view();
        let ghost h = history.view();
        let ghost data = decoder.data();
        let ghost sr = symbol_ranges(m, h, max_order as int, s);
        let ghost cond = synced(decoder.view(), data, rs, k) && k + sr.len() <= rs.len()
            && rs.subrange(k, k + sr.len()) == sr;
        let ghost mut kc = k;
        proof {
            self.lemma_wf();
        }
        let top = if history.len() < max_order { history.len() } else { max_order };
        let mut order = top;
        while order > 0
            invariant
                self.wf(),
                model_wf(m),
                m == self.view(),
                h == history.view(),
                order <= top <= max_order <= MAX_ORDER,
                top as int == crate::byte_ppm::min_order(h, max_order as int),
                sr == ranges_from(m, h, s, top as int),
                decoder.wf(),
                decoder.data() == data,
                data == old(decoder).data(),
                cond == (synced(old(decoder).view(), data, rs, k) && k + sr.len() <= rs.len()
                    && rs.subrange(k, k + sr.len()) == sr),
                cond ==> synced(decoder.view(), data, rs, kc) && kc + ranges_from(
                    m,
                    h,
                    s,
                    order as int,
                ).len() == k + sr.len() && rs.subrange(
                    kc,
                    kc + ranges_from(m, h, s, order as int).len(),
                ) == ranges_from(m, h, s, order as int),
                decode_from(m, h, top as int, old(decoder).view(), data) == decode_from(
                    m,
                    h,
                    order as int,
                    decoder.view(),
                    data,
                ),
            decreases order,
        {
            match self.context_for_order(order, history) {
                Some(context) => {
                    let ghost c = context.view();
                    let ghost d0 = decoder.view();
                    proof {
                        lemma_range_values(c, s);
                        if cond {
                            let rf = ranges_from(m, h, s, order as int);
                            assert(rf.len() >= 1);
                            assert(rs.subrange(kc, kc + rf.len())[0] == rs[kc]);
                            assert(rs[kc] == rf[0]);
                            lemma_synced_step(d0, data, rs, kc);
                            if has_symbol(c.counts, s) {
                                assert(rf[0] == symbol_range(c, s));
                            } else {
                                assert(rf[0] == escape_range(c));
                            }
                        }
                    }
                    match context.decode_symbol(decoder) {
                        Ok(Some(sym)) => {
                            proof {
                                if cond {
                                    if !has_symbol(c.counts, s) {
                                        assert(in_range(
                                            dec_target(d0, (c.total + crate::context::escape_freq_spec(c))),
                                            escape_range(c),
                                        ));
                                    }
                                    assert(symbol_range(c, s) == symbol_range(c, s));
                                    kc = kc + 1;
                                }
                            }
                            return Ok(sym);
                        },
                        Ok(None) => {
                            proof {
                                if cond {
                                    if has_symbol(c.counts, s) {
                                        assert(symbol_range(c, s) == symbol_range(c, s));
                                    }
                                    let rf = ranges_from(m, h, s, order as int);
                                    let rest = ranges_from(m, h, s, order - 1);
                                    assert(rf == seq![escape_range(c)] + rest);
                                    assert(rs.subrange(kc + 1, kc + 1 + rest.len()) =~= rest) by {
                                        assert forall|i: int| 0 <= i < rest.len() implies rs.subrange(
                                            kc + 1,
                                            kc + 1 + rest.len(),
                                        )[i] == rest[i] by {
                                            assert(rs.subrange(kc, kc + rf.len())[i + 1] == rf[i + 1]);
                                        }
                                    }
                                    kc = kc + 1;
                                }
                            }
                        },
                        Err(e) => {
                            return Err(e);
                        },
                    }
                },
                None => {},
            }
            order = order - 1;
        }
        let ghost c = self.order0.view();
        let ghost d0 = decoder.view();
        proof {
            lemma_range_values(c, s);
            if cond {
                let rf = ranges_from(m, h, s, 0);
                assert(rf.len() >= 1);
                assert(rs.subrange(kc, kc + rf.len())[0] == rs[kc]);
                assert(rs[kc] == rf[0]);
                lemma_synced_step(d0, data, rs, kc);
                if has_symbol(c.counts, s) {
                    assert(rf[0] == symbol_range(c, s));
                } else {
                    assert(rf[0] == escape_range(c));
                }
            }
        }
        match self.order0.decode_symbol(decoder) {
            Ok(Some(sym)) => {
                proof {
                    if cond {
                        if !has_symbol(c.counts, s) {
                            assert(in_range(
                                dec_target(d0, (c.total + crate::context::escape_freq_spec(c))),
                                escape_range(c),
                            ));
                        }
                        assert(symbol_range(c, s) == symbol_range(c, s));
                        kc = kc + 1;
                    }
                }
                return Ok(sym);
            },
            Ok(None) => {
                proof {
                    if cond {
                        if has_symbol(c.counts, s) {
                            assert(symbol_range(c, s) == symbol_range(c, s));
                        }
                        assert(rs[kc + 1] == code_range(s as u32, 1, SYMBOLS)) by {
                            assert(rs.subrange(kc, kc + 2)[1] == order0_ranges(c, s)[1]);
                        }
                        kc = kc + 1;
                    }
                }
            },
            Err(e) => {
                return Err(e);
            },
        }
        let ghost d1 = decoder.view();
        proof {
            if cond {
                lemma_synced_step(d1, data, rs, kc);
            }
        }
        let value = match decoder.target(SYMBOLS) {
            Ok(v) => v,
            Err(e) => {
                return Err(e);
            },
        };
        match decoder.consume(value, 1, SYMBOLS) {
            Ok(()) => {},
            Err(e) => {
                return Err(e);
            },
        }
        proof {
            if cond {
                assert(value as u8 == s);
                kc = kc + 1;
            }
        }
        Ok(value as u8)
    }

    /// Adds `symbol` to the order-0 counts and to every context up to
    /// `max_order` of `history`.
    pub fn observe(&mut self, symbol: u8, history: &ByteHistory, max_order: usize)
        requires
            old(self).wf(),
            1 <= max_order <= MAX_ORDER,
        ensures
            final(self).wf(),
            final(self).view() == model_observe(
                old(self).view(),
                history.view(),
                max_order as int,
                symbol,
            ),
    {
        let ghost m0 = self.view();
        let ghost h = history.view();
        proof {
            lemma_observe_wf(self.order0.view(), symbol);
        }
        self.order0.observe(symbol);
        let top = if history.len() < max_order { history.len() } else { max_order };
        let mut order: usize = 1;
        while order <= top
            invariant
                self.wf(),
                1 <= order <= top + 1,
                top <= max_order <= MAX_ORDER,
                top as int == crate::byte_ppm::min_order(h, max_order as int),
                h == history.view(),
                self.view().order0 == ctx_observe(m0.order0, symbol),
                m0.ctxs.len() == MAX_ORDER,
                forall|i: int|
                    0 <= i < MAX_ORDER ==> #[trigger] self.view().ctxs[i] == if i + 1 < order {
                        let k = history_key(h, i + 1);
                        m0.ctxs[i].insert(k, ctx_observe(get_or_empty(m0.ctxs[i], k), symbol))
                    } else {
                        m0.ctxs[i]
                    },
            decreases top + 1 - order,
        {
            let key = history.key(order);
            let idx = order - 1;
            let ghost cur = self.view();
            let ghost cur_contexts = self.contexts@;
            assert(cur.ctxs[idx as int] == m0.ctxs[idx as int]);
            let mut map = self.contexts.remove(idx);
            let ghost before = map@;
            let mut ctx = match map.remove(&key) {
                Some(c) => c,
                None => ByteContext::new(),
            };
            proof {
                if before.contains_key(key) {
                    assert(self.contexts@.len() == MAX_ORDER - 1);
                }
                assert(ctx.wf());
                assert(ctx.view() == get_or_empty(m0.ctxs[idx as int], key)) by {
                    assert(before == cur_contexts[idx as int]@);
                    assert(cur.ctxs[idx as int] == before.map_values(|c: ByteContext| c.view()));
                }
                lemma_observe_wf(ctx.view(), symbol);
            }
            ctx.observe(symbol);
            let ghost cview = ctx.view();
            map.insert(key, ctx);
            let ghost newmap = map@;
            assert(newmap.map_values(|c: ByteContext| c.view()) =~= m0.ctxs[idx as int].insert(
                key,
                ctx_observe(get_or_empty(m0.ctxs[idx as int], key), symbol),
            )) by {
                assert(cur.ctxs[idx as int] == before.map_values(|c: ByteContext| c.view()));
            }
            self.contexts.insert(idx, map);
            assert(self.contexts@ =~= cur_contexts.update(idx as int, map));
            proof {
                assert forall|i: int| 0 <= i < MAX_ORDER implies #[trigger] self.view().ctxs[i]
                    == (if i + 1 < order + 1 {
                    let k = history_key(h, i + 1);
                    m0.ctxs[i].insert(k, ctx_observe(get_or_empty(m0.ctxs[i], k), symbol))
                } else {
                    m0.ctxs[i]
                }) by {
                    if i == idx {
                        assert(self.contexts@[i]@ == newmap);
                    } else {
                        assert(self.contexts@[i] == cur_contexts[i]);
                        assert(self.view().ctxs[i] == cur.ctxs[i]);
                    }
                }
            }
            order = order + 1;
        }
        assert(self.view().ctxs =~= model_observe(m0, h, max_order as int, symbol).ctxs);
    }
}


/// The ranges of a prefix of the data begin the ranges of the data.
pub proof fn lemma_all_ranges_prefix(data: Seq<u8>, max_order: int, j: int)
    requires
        0 <= j <= data.len(),
    ensures
        all_ranges(data.take(j), max_order).len() <= all_ranges(data, max_order).len(),
        all_ranges(data, max_order).take(all_ranges(data.take(j), max_order).len() as int)
            == all_ranges(data.take(j), max_order),
    decreases data.len() - j,
{
    if j == data.len() {
        assert(data.take(j) =~= data);
        assert(all_ranges(data, max_order).take(all_ranges(data, max_order).len() as int)
            =~= all_ranges(data, max_order));
    } else {
        lemma_all_ranges_prefix(data, max_order, j + 1);
        let a = all_ranges(data.take(j), max_order);
        let b = all_ranges(data.take(j + 1), max_order);
        assert(data.take(j + 1).drop_last() =~= data.take(j));
        assert(b == a + symbol_ranges(
            model_after(data.take(j), max_order),
            hist_after(data.take(j), max_order),
            max_order,
            data[j],
        ));
        assert(all_ranges(data, max_order).take(a.len() as int) =~= b.take(a.len() as int));
        assert(b.take(a.len() as int) =~= a);
    }
}

/// One more byte extends the spec run functions by one step.
pub proof fn lemma_take_step(data: Seq<u8>, i: int)
    requires
        0 <= i < data.len(),
    ensures
        data.take(i + 1).drop_last() == data.take(i),
        data.take(i + 1).last() == data[i],
{
    assert(data.take(i + 1).drop_last() =~= data.take(i));
}

/// A run that fails on a prefix fails on the whole.
pub proof fn lemma_enc_run_prefix_none(a: Seq<CodeRange>, b: Seq<CodeRange>)
    requires
        enc_run(a) is None,
    ensures
        enc_run(a + b) is None,
{
    lemma_enc_run_append(a, b);
}

pub open spec fn compress_ok(data: Seq<u8>, max_order: int) -> bool {
    &&& enc_run(all_ranges(data, max_order)) is Some
    &&& enc_run(all_ranges(data, max_order)).unwrap().pending < usize::MAX
}

/// Compresses `data` with contexts of up to `max_order` bytes.
#[verifier::spinoff_prover]
#[verifier::rlimit(40)]
pub fn compress_with_order(data: &[u8], magic: [u8; 4], max_order: usize) -> (r: Result<
    Vec<u8>,
    CodecError,
>)
    requires
        1 <= max_order <= MAX_ORDER,
    ensures
        r is Ok <==> compress_ok(data@, max_order as int),
        r is Ok ==> is_archive_of(r->Ok_0@, data@, magic@, max_order as int),
        r is Err ==> r == Err::<Vec<u8>, CodecError>(CodecError::PendingOverflow),
{
    let mut out: Vec<u8> = Vec::new();
    out.push(magic[0]);
    out.push(magic[1]);
    out.push(magic[2]);
    out.push(magic[3]);
    push_u64_le(&mut out, data.len() as u64);
    let ghost header = out@;
    let mut model = Model::new();
    let mut encoder = ArithmeticEncoder::new();
    let mut history = ByteHistory::new(max_order);
    let ghost m = max_order as int;
    assert(data@.take(0) =~= Seq::<u8>::empty());
    let mut i: usize = 0;
    while i < data.len()
        invariant
            1 <= max_order <= MAX_ORDER,
            m == max_order as int,
            i <= data@.len(),
            model.wf(),
            model.view() == model_after(data@.take(i as int), m),
            history.wf(),
            history.max_len() == m,
            history.view() == hist_after(data@.take(i as int), m),
            encoder.wf(),
            enc_run(all_ranges(data@.take(i as int), m)) == Some(encoder.view()),
            out@ == header,
        decreases data@.len() - i,
    {
        let symbol = data[i];
        proof {
            lemma_take_step(data@, i as int);
            lemma_enc_run_append(
                all_ranges(data@.take(i as int), m),
                symbol_ranges(model.view(), history.view(), m, symbol),
            );
        }
        match model.encode_symbol(symbol, &history, max_order, &mut encoder) {
            Ok(()) => {},
            Err(e) => {
                proof {
                    lemma_all_ranges_prefix(data@, m, i as int + 1);
                    let a = all_ranges(data@.take(i as int + 1), m);
                    let full = all_ranges(data@, m);
                    assert(full =~= a + full.subrange(a.len() as int, full.len() as int));
                    lemma_enc_run_prefix_none(a, full.subrange(a.len() as int, full.len() as int));
                }
                return Err(e);
            },
        }
        model.observe(symbol, &history, max_order);
        history.push(symbol);
        i = i + 1;
    }
    assert(data@.take(data@.len() as int) =~= data@);
    let ghost fin = encoder.view();
    match encoder.finish() {
        Ok(payload) => {
            let ghost p = payload@;
            let mut k: usize = 0;
            while k < payload.len()
                invariant
                    k <= payload@.len(),
                    p == payload@,
                    out@ == header + p.take(k as int),
                decreases payload@.len() - k,
            {
                out.push(payload[k]);
                k = k + 1;
                assert(out@ =~= header + p.take(k as int));
            }
            assert(p.take(p.len() as int) =~= p);
            assert(out@.subrange(0, 4) =~= magic@);
            assert(out@.subrange(4, 12) =~= le_bytes_u64(data@.len() as u64));
            assert(out@.subrange(12, out@.len() as int) =~= p);
            Ok(out)
        },
        Err(e) => Err(e),
    }
}

/// Restores the bytes of an archive made by `compress_with_order`.
#[verifier::spinoff_prover]
#[verifier::rlimit(40)]
pub fn decompress_with_order(archive: &[u8], magic: [u8; 4], max_order: usize) -> (r: Result<
    Vec<u8>,
    CodecError,
>)
    requires
        1 <= max_order <= MAX_ORDER,
    ensures
        archive@.len() < 4 ==> r == Err::<Vec<u8>, CodecError>(CodecError::UnexpectedEof),
        archive@.len() >= 4 && archive@.subrange(0, 4) != magic@ ==> r == Err::<
            Vec<u8>,
            CodecError,
        >(CodecError::InvalidMagic),
        archive@.len() >= 4 && archive@.subrange(0, 4) == magic@ && archive@.len() < 12 ==> r
            == Err::<Vec<u8>, CodecError>(CodecError::UnexpectedEof),
        archive@.len() >= 12 && archive@.subrange(0, 4) == magic@ ==> r is Ok
            && r->Ok_0@.len() == le_u64(archive@.subrange(4, 12)) && r->Ok_0@ == decoded(
            archive@.subrange(12, archive@.len() as int),
            le_u64(archive@.subrange(4, 12)) as nat,
            max_order as int,
        ).0,
        forall|d: Seq<u8>|
            is_archive_of(archive@, d, magic@, max_order as int) ==> r == Ok::<
                Vec<u8>,
                CodecError,
            >(r->Ok_0) && r->Ok_0@ == d,
{
    if archive.len() < 4 {
        return Err(CodecError::UnexpectedEof);
    }
    if archive[0] != magic[0] || archive[1] != magic[1] || archive[2] != magic[2] || archive[3]
        != magic[3] {
        assert(archive@.subrange(0, 4) != magic@) by {
            if archive@.subrange(0, 4) == magic@ {
                assert(archive@.subrange(0, 4)[0] == archive@[0]);
                assert(archive@.subrange(0, 4)[1] == archive@[1]);
                assert(archive@.subrange(0, 4)[2] == archive@[2]);
                assert(archive@.subrange(0, 4)[3] == archive@[3]);
            }
        }
        return Err(CodecError::InvalidMagic);
    }
    assert(archive@.subrange(0, 4) =~= magic@);
    let expected_len = match read_u64(archive, 4) {
        Some(v) => v,
        None => {
            return Err(CodecError::UnexpectedEof);
        },
    };
    let payload = vstd::slice::slice_subrange(archive, 12, archive.len());
    let ghost m = max_order as int;
    let ghost cond = exists|d: Seq<u8>| is_archive_of(archive@, d, magic@, m);
    let ghost d = choose|d: Seq<u8>| is_archive_of(archive@, d, magic@, m);
    let ghost rs = all_ranges(d, m);
    let mut model = Model::new();
    let mut decoder = ArithmeticDecoder::new(payload);
    let mut history = ByteHistory::new(max_order);
    let mut restored: Vec<u8> = Vec::new();
    proof {
        if cond {
            lemma_le_u64_roundtrip(d.len() as u64);
            lemma_all_ranges_codable(d, m);
            assert(d.take(0) =~= Seq::<u8>::empty());
            assert(rs.take(0) =~= Seq::<CodeRange>::empty());
            lemma_all_ranges_prefix(d, m, 0);
        }
    }
    while (restored.len() as u64) < expected_len
        invariant
            1 <= max_order <= MAX_ORDER,
            m == max_order as int,
            restored@.len() <= expected_len,
            expected_len == le_u64(archive@.subrange(4, 12)),
            model.wf(),
            history.wf(),
            history.max_len() == m,
            decoder.wf(),
            decoder.data() == payload@,
            payload@ == archive@.subrange(12, archive@.len() as int),
            rs == all_ranges(d, m),
            model.view() == model_after(restored@, m),
            history.view() == hist_after(restored@, m),
            restored@ == decoded(payload@, restored@.len(), m).0,
            decoder.view() == decoded(payload@, restored@.len(), m).1,
            cond ==> is_archive_of(archive@, d, magic@, m),
            cond ==> expected_len == d.len(),
            cond ==> restored@ == d.take(restored@.len() as int) && model.view() == model_after(
                restored@,
                m,
            ) && history.view() == hist_after(restored@, m) && synced(
                decoder.view(),
                payload@,
                rs,
                all_ranges(restored@, m).len() as int,
            ),
        decreases expected_len - restored@.len(),
    {
        let i = restored.len();
        let ghost s = d[i as int];
        let ghost k = all_ranges(restored@, m).len() as int;
        proof {
            if cond {
                lemma_take_step(d, i as int);
                lemma_all_ranges_prefix(d, m, i as int + 1);
                let a = all_ranges(d.take(i as int), m);
                let sr = symbol_ranges(model.view(), history.view(), m, s);
                assert(all_ranges(d.take(i as int + 1), m) == a + sr);
                assert(rs.subrange(k, k + sr.len()) =~= sr) by {
                    assert forall|j: int| 0 <= j < sr.len() implies rs.subrange(k, k + sr.len())[j]
                        == sr[j] by {
                        assert(rs.take((a + sr).len() as int)[k + j] == (a + sr)[k + j]);
                    }
                }
            }
        }
        let symbol = match model.decode_symbol(
            &history,
            max_order,
            &mut decoder,
            Ghost(rs),
            Ghost(k),
            Ghost(s),
        ) {
            Ok(sym) => sym,
            Err(e) => {
                return Err(e);
            },
        };
        let ghost before = restored@;
        restored.push(symbol);
        proof {
            assert(restored@.drop_last() =~= before);
            lemma_decoded_len(payload@, before.len(), m);
            assert(restored@ == decoded(payload@, restored@.len(), m).0);
            if cond {
                assert(restored@ =~= d.take(i as int + 1));
                assert(restored@.drop_last() =~= before);
                assert(all_ranges(restored@, m) == all_ranges(before, m) + symbol_ranges(
                    model.view(),
                    history.view(),
                    m,
                    s,
                ));
            }
        }
        model.observe(symbol, &history, max_order);
        history.push(symbol);
    }
    proof {
        lemma_decoded_len(payload@, restored@.len(), m);
        if cond {
            assert(restored@ =~= d);
            assert forall|d2: Seq<u8>| is_archive_of(archive@, d2, magic@, m) implies d2 == d by {
                lemma_archive_unique(archive@, d, d2, magic@, m);
            }
        }
    }
    Ok(restored)
}


// --- every coded range is codable ---

/// Seeing a byte keeps every context of the model well formed.
pub proof fn lemma_model_observe_wf(m: ModelView, h: Seq<u8>, max_order: int, s: u8)
    requires
        model_wf(m),
    ensures
        model_wf(model_observe(m, h, max_order, s)),
{
    lemma_observe_wf(m.order0, s);
    let m2 = model_observe(m, h, max_order, s);
    assert forall|i: int, k: u64|
        0 <= i < MAX_ORDER && #[trigger] m2.ctxs[i].contains_key(k) implies ctx_wf(m2.ctxs[i][k]) by {
        if i + 1 <= min_order(h, max_order) {
            let key = history_key(h, i + 1);
            if k == key {
                let c = get_or_empty(m.ctxs[i], key);
                if !m.ctxs[i].contains_key(key) {
                    crate::context::lemma_empty_wf();
                }
                lemma_observe_wf(c, s);
            } else {
                assert(m.ctxs[i].contains_key(k));
            }
        } else {
            assert(m.ctxs[i].contains_key(k));
        }
    }
}

/// The model after any input is well formed.
pub proof fn lemma_model_after_wf(data: Seq<u8>, max_order: int)
    ensures
        model_wf(model_after(data, max_order)),
    decreases data.len(),
{
    if data.len() == 0 {
        crate::context::lemma_empty_wf();
    } else {
        lemma_model_after_wf(data.drop_last(), max_order);
        lemma_model_observe_wf(
            model_after(data.drop_last(), max_order),
            hist_after(data.drop_last(), max_order),
            max_order,
            data.last(),
        );
    }
}

proof fn lemma_ranges_from_codable(m: ModelView, h: Seq<u8>, s: u8, order: int)
    requires
        model_wf(m),
        order <= MAX_ORDER,
    ensures
        forall|i: int|
            0 <= i < ranges_from(m, h, s, order).len() ==> range_codable(
                #[trigger] ranges_from(m, h, s, order)[i],
            ),
        ranges_from(m, h, s, order).len() >= 1,
    decreases order,
{
    if order <= 0 {
        lemma_ranges_codable(m.order0, s);
    } else {
        let k = history_key(h, order);
        lemma_ranges_from_codable(m, h, s, order - 1);
        if m.ctxs[order - 1].contains_key(k) {
            let c = m.ctxs[order - 1][k];
            lemma_ranges_codable(c, s);
            let rest = ranges_from(m, h, s, order - 1);
            if !has_symbol(c.counts, s) {
                assert forall|i: int| 0 <= i < (seq![escape_range(c)] + rest).len() implies range_codable(
                    #[trigger] (seq![escape_range(c)] + rest)[i],
                ) by {
                    if i > 0 {
                        assert((seq![escape_range(c)] + rest)[i] == rest[i - 1]);
                    }
                }
            }
        }
    }
}

proof fn lemma_all_ranges_codable(data: Seq<u8>, max_order: int)
    requires
        1 <= max_order <= MAX_ORDER,
    ensures
        forall|i: int|
            0 <= i < all_ranges(data, max_order).len() ==> range_codable(
                #[trigger] all_ranges(data, max_order)[i],
            ),
    decreases data.len(),
{
    if data.len() > 0 {
        let d = data.drop_last();
        lemma_all_ranges_codable(d, max_order);
        lemma_model_after_wf(d, max_order);
        let a = all_ranges(d, max_order);
        let h = hist_after(d, max_order);
        let sr = symbol_ranges(model_after(d, max_order), h, max_order, data.last());
        lemma_ranges_from_codable(model_after(d, max_order), h, data.last(), min_order(h, max_order));
        assert forall|i: int| 0 <= i < (a + sr).len() implies range_codable(#[trigger] (a + sr)[i]) by {
            if i >= a.len() {
                assert((a + sr)[i] == sr[i - a.len()]);
            } else {
                assert((a + sr)[i] == a[i]);
            }
        }
    }
}

// --- the code is prefix-free ---

pub open spec fn ranges_overlap(x: CodeRange, y: CodeRange) -> bool {
    exists|t: int| in_range(t, x) && in_range(t, y)
}

/// For distinct bytes, the range sequences agree up to a position where the
/// two ranges share a total but not a value.
proof fn lemma_ranges_diverge(m: ModelView, h: Seq<u8>, a: u8, b: u8, order: int) -> (j: int)
    requires
        model_wf(m),
        a != b,
        order <= MAX_ORDER,
    ensures
        0 <= j < ranges_from(m, h, a, order).len(),
        j < ranges_from(m, h, b, order).len(),
        ranges_from(m, h, a, order).take(j) == ranges_from(m, h, b, order).take(j),
        ranges_from(m, h, a, order)[j].total == ranges_from(m, h, b, order)[j].total,
        !ranges_overlap(ranges_from(m, h, a, order)[j], ranges_from(m, h, b, order)[j]),
    decreases order,
{
    let ra = ranges_from(m, h, a, order);
    let rb = ranges_from(m, h, b, order);
    if order <= 0 {
        let c = m.order0;
        lemma_range_values(c, a);
        lemma_range_values(c, b);
        if has_symbol(c.counts, a) || has_symbol(c.counts, b) {
            assert(!ranges_overlap(ra[0], rb[0])) by {
                if ranges_overlap(ra[0], rb[0]) {
                    let t = choose|t: int| in_range(t, ra[0]) && in_range(t, rb[0]);
                    if has_symbol(c.counts, a) {
                        lemma_ranges_disjoint(c, a, b, t);
                    } else {
                        lemma_ranges_disjoint(c, b, a, t);
                    }
                }
            }
            assert(ra.take(0) =~= rb.take(0));
            0
        } else {
            assert(ra.take(1) =~= rb.take(1));
            1
        }
    } else {
        let k = history_key(h, order);
        if m.ctxs[order - 1].contains_key(k) {
            let c = m.ctxs[order - 1][k];
            lemma_range_values(c, a);
            lemma_range_values(c, b);
            if has_symbol(c.counts, a) || has_symbol(c.counts, b) {
                assert(!ranges_overlap(ra[0], rb[0])) by {
                    if ranges_overlap(ra[0], rb[0]) {
                        let t = choose|t: int| in_range(t, ra[0]) && in_range(t, rb[0]);
                        if has_symbol(c.counts, a) {
                            lemma_ranges_disjoint(c, a, b, t);
                        } else {
                            lemma_ranges_disjoint(c, b, a, t);
                        }
                    }
                }
                assert(ra.take(0) =~= rb.take(0));
                0
            } else {
                let j = lemma_ranges_diverge(m, h, a, b, order - 1);
                let xa = ranges_from(m, h, a, order - 1);
                let xb = ranges_from(m, h, b, order - 1);
                assert(ra == seq![escape_range(c)] + xa);
                assert(rb == seq![escape_range(c)] + xb);
                assert(ra.take(j + 1) =~= seq![escape_range(c)] + xa.take(j));
                assert(rb.take(j + 1) =~= seq![escape_range(c)] + xb.take(j));
                assert(ra[j + 1] == xa[j]);
                assert(rb[j + 1] == xb[j]);
                j + 1
            }
        } else {
            lemma_ranges_diverge(m, h, a, b, order - 1)
        }
    }
}

/// Two inputs never produce the same archive.
pub proof fn lemma_archive_unique(archive: Seq<u8>, d1: Seq<u8>, d2: Seq<u8>, magic: Seq<u8>, max_order: int)
    requires
        1 <= max_order <= MAX_ORDER,
        is_archive_of(archive, d1, magic, max_order),
        is_archive_of(archive, d2, magic, max_order),
    ensures
        d1 == d2,
{
    lemma_le_u64_roundtrip(d1.len() as u64);
    lemma_le_u64_roundtrip(d2.len() as u64);
    assert(d1.len() == d2.len());
    assert(d1.take(0) =~= d2.take(0));
    lemma_unique_from(archive, d1, d2, magic, max_order, 0);
}

proof fn lemma_unique_from(archive: Seq<u8>, d1: Seq<u8>, d2: Seq<u8>, magic: Seq<u8>, max_order: int, i: int)
    requires
        1 <= max_order <= MAX_ORDER,
        is_archive_of(archive, d1, magic, max_order),
        is_archive_of(archive, d2, magic, max_order),
        d1.len() == d2.len(),
        0 <= i <= d1.len(),
        d1.take(i) == d2.take(i),
    ensures
        d1 == d2,
    decreases d1.len() - i,
{
    if i == d1.len() {
        assert(d1 =~= d1.take(i));
        assert(d2 =~= d2.take(i));
    } else if d1[i] == d2[i] {
        assert(d1.take(i + 1) =~= d1.take(i).push(d1[i]));
        assert(d2.take(i + 1) =~= d2.take(i).push(d2[i]));
        lemma_unique_from(archive, d1, d2, magic, max_order, i + 1);
    } else {
        let p = d1.take(i);
        let mm = model_after(p, max_order);
        let h = hist_after(p, max_order);
        let a = d1[i];
        let b = d2[i];
        lemma_model_after_wf(p, max_order);
        let j = lemma_ranges_diverge(mm, h, a, b, min_order(h, max_order));
        let ra = symbol_ranges(mm, h, max_order, a);
        let rb = symbol_ranges(mm, h, max_order, b);
        let pre = all_ranges(p, max_order);
        let k = pre.len() as int;
        let rs1 = all_ranges(d1, max_order);
        let rs2 = all_ranges(d2, max_order);
        lemma_all_ranges_prefix(d1, max_order, i + 1);
        lemma_all_ranges_prefix(d2, max_order, i + 1);
        lemma_take_step(d1, i);
        lemma_take_step(d2, i);
        assert(all_ranges(d1.take(i + 1), max_order) == pre + ra);
        assert(all_ranges(d2.take(i + 1), max_order) == pre + rb);
        assert(rs1.take(k + j) =~= pre + ra.take(j)) by {
            assert(rs1.take((pre + ra).len() as int) == pre + ra);
            assert forall|x: int| 0 <= x < k + j implies rs1.take(k + j)[x] == (pre + ra.take(j))[x] by {
                assert(rs1.take((pre + ra).len() as int)[x] == (pre + ra)[x]);
            }
        }
        assert(rs2.take(k + j) =~= pre + rb.take(j)) by {
            assert(rs2.take((pre + rb).len() as int) == pre + rb);
            assert forall|x: int| 0 <= x < k + j implies rs2.take(k + j)[x] == (pre + rb.take(j))[x] by {
                assert(rs2.take((pre + rb).len() as int)[x] == (pre + rb)[x]);
            }
        }
        assert(rs1[k + j] == ra[j]) by {
            assert(rs1.take((pre + ra).len() as int)[k + j] == (pre + ra)[k + j]);
        }
        assert(rs2[k + j] == rb[j]) by {
            assert(rs2.take((pre + rb).len() as int)[k + j] == (pre + rb)[k + j]);
        }
        let payload = archive.subrange(12, archive.len() as int);
        lemma_all_ranges_codable(d1, max_order);
        lemma_all_ranges_codable(d2, max_order);
        crate::arith::lemma_decode_finds_range(rs1, payload, k + j);
        crate::arith::lemma_decode_finds_range(rs2, payload, k + j);
        let t = dec_target(dec_run(payload, rs1.take(k + j)), ra[j].total as int);
        assert(in_range(t, ra[j]) && in_range(t, rb[j]));
        assert(ranges_overlap(ra[j], rb[j]));
    }
}


/// Compresses `data` with byte contexts of up to 1 preceding byte(s).
pub fn compress_order1(data: &[u8]) -> (r: Result<Vec<u8>, CodecError>)
    ensures
        r is Ok <==> compress_ok(data@, 1),
        r is Ok ==> is_archive_of(r->Ok_0@, data@, magic_order1_spec(), 1),
        r is Err ==> r == Err::<Vec<u8>, CodecError>(CodecError::PendingOverflow),
{
    compress_with_order(data, magic_order1(), 1)
}

/// Restores the bytes of an archive made by `compress_order1`.
pub fn decompress_order1(archive: &[u8]) -> (r: Result<Vec<u8>, CodecError>)
    ensures
        archive@.len() < 4 ==> r == Err::<Vec<u8>, CodecError>(CodecError::UnexpectedEof),
        archive@.len() >= 4 && archive@.subrange(0, 4) != magic_order1_spec() ==> r == Err::<
            Vec<u8>,
            CodecError,
        >(CodecError::InvalidMagic),
        archive@.len() >= 4 && archive@.subrange(0, 4) == magic_order1_spec() && archive@.len() < 12
            ==> r == Err::<Vec<u8>, CodecError>(CodecError::UnexpectedEof),
        archive@.len() >= 12 && archive@.subrange(0, 4) == magic_order1_spec() ==> r is Ok
            && r->Ok_0@.len() == le_u64(archive@.subrange(4, 12)) && r->Ok_0@ == decoded(
            archive@.subrange(12, archive@.len() as int),
            le_u64(archive@.subrange(4, 12)) as nat,
            1,
        ).0,
        forall|d: Seq<u8>|
            is_archive_of(archive@, d, magic_order1_spec(), 1) ==> r is Ok && r->Ok_0@ == d,
{
    decompress_with_order(archive, magic_order1(), 1)
}

/// Compresses `data` with byte contexts of up to 2 preceding byte(s).
pub fn compress_order2(data: &[u8]) -> (r: Result<Vec<u8>, CodecError>)
    ensures
        r is Ok <==> compress_ok(data@, 2),
        r is Ok ==> is_archive_of(r->Ok_0@, data@, magic_order2_spec(), 2),
        r is Err ==> r == Err::<Vec<u8>, CodecError>(CodecError::PendingOverflow),
{
    compress_with_order(data, magic_order2(), 2)
}

/// Restores the bytes of an archive made by `compress_order2`.
pub fn decompress_order2(archive: &[u8]) -> (r: Result<Vec<u8>, CodecError>)
    ensures
        archive@.len() < 4 ==> r == Err::<Vec<u8>, CodecError>(CodecError::UnexpectedEof),
        archive@.len() >= 4 && archive@.subrange(0, 4) != magic_order2_spec() ==> r == Err::<
            Vec<u8>,
            CodecError,
        >(CodecError::InvalidMagic),
        archive@.len() >= 4 && archive@.subrange(0, 4) == magic_order2_spec() && archive@.len() < 12
            ==> r == Err::<Vec<u8>, CodecError>(CodecError::UnexpectedEof),
        archive@.len() >= 12 && archive@.subrange(0, 4) == magic_order2_spec() ==> r is Ok
            && r->Ok_0@.len() == le_u64(archive@.subrange(4, 12)) && r->Ok_0@ == decoded(
            archive@.subrange(12, archive@.len() as int),
            le_u64(archive@.subrange(4, 12)) as nat,
            2,
        ).0,
        forall|d: Seq<u8>|
            is_archive_of(archive@, d, magic_order2_spec(), 2) ==> r is Ok && r->Ok_0@ == d,
{
    decompress_with_order(archive, magic_order2(), 2)
}

/// Compresses `data` with byte contexts of up to 3 preceding byte(s).
pub fn compress_order3(data: &[u8]) -> (r: Result<Vec<u8>, CodecError>)
    ensures
        r is Ok <==> compress_ok(data@, 3),
        r is Ok ==> is_archive_of(r->Ok_0@, data@, magic_order3_spec(), 3),
        r is Err ==> r == Err::<Vec<u8>, CodecError>(CodecError::PendingOverflow),
{
    compress_with_order(data, magic_order3(), 3)
}

/// Restores the bytes of an archive made by `compress_order3`.
pub fn decompress_order3(archive: &[u8]) -> (r: Result<Vec<u8>, CodecError>)
    ensures
        archive@.len() < 4 ==> r == Err::<Vec<u8>, CodecError>(CodecError::UnexpectedEof),
        archive@.len() >= 4 && archive@.subrange(0, 4) != magic_order3_spec() ==> r == Err::<
            Vec<u8>,
            CodecError,
        >(CodecError::InvalidMagic),
        archive@.len() >= 4 && archive@.subrange(0, 4) == magic_order3_spec() && archive@.len() < 12
            ==> r == Err::<Vec<u8>, CodecError>(CodecError::UnexpectedEof),
        archive@.len() >= 12 && archive@.subrange(0, 4) == magic_order3_spec() ==> r is Ok
            && r->Ok_0@.len() == le_u64(archive@.subrange(4, 12)) && r->Ok_0@ == decoded(
            archive@.subrange(12, archive@.len() as int),
            le_u64(archive@.subrange(4, 12)) as nat,
            3,
        ).0,
        forall|d: Seq<u8>|
            is_archive_of(archive@, d, magic_order3_spec(), 3) ==> r is Ok && r->Ok_0@ == d,
{
    decompress_with_order(archive, magic_order3(), 3)
}

/// Compresses `data` with byte contexts of up to 4 preceding byte(s).
pub fn compress_order4(data: &[u8]) -> (r: Result<Vec<u8>, CodecError>)
    ensures
        r is Ok <==> compress_ok(data@, 4),
        r is Ok ==> is_archive_of(r->Ok_0@, data@, magic_order4_spec(), 4),
        r is Err ==> r == Err::<Vec<u8>, CodecError>(CodecError::PendingOverflow),
{
    compress_with_order(data, magic_order4(), 4)
}

/// Restores the bytes of an archive made by `compress_order4`.
pub fn decompress_order4(archive: &[u8]) -> (r: Result<Vec<u8>, CodecError>)
    ensures
        archive@.len() < 4 ==> r == Err::<Vec<u8>, CodecError>(CodecError::UnexpectedEof),
        archive@.len() >= 4 && archive@.subrange(0, 4) != magic_order4_spec() ==> r == Err::<
            Vec<u8>,
            CodecError,
        >(CodecError::InvalidMagic),
        archive@.len() >= 4 && archive@.subrange(0, 4) == magic_order4_spec() && archive@.len() < 12
            ==> r == Err::<Vec<u8>, CodecError>(CodecError::UnexpectedEof),
        archive@.len() >= 12 && archive@.subrange(0, 4) == magic_order4_spec() ==> r is Ok
            && r->Ok_0@.len() == le_u64(archive@.subrange(4, 12)) && r->Ok_0@ == decoded(
            archive@.subrange(12, archive@.len() as int),
            le_u64(archive@.subrange(4, 12)) as nat,
            4,
        ).0,
        forall|d: Seq<u8>|
            is_archive_of(archive@, d, magic_order4_spec(), 4) ==> r is Ok && r->Ok_0@ == d,
{
    decompress_with_order(archive, magic_order4(), 4)
}

/// Compresses `data` with byte contexts of up to 5 preceding byte(s).
pub fn compress_order5(data: &[u8]) -> (r: Result<Vec<u8>, CodecError>)
    ensures
        r is Ok <==> compress_ok(data@, 5),
        r is Ok ==> is_archive_of(r->Ok_0@, data@, magic_order5_spec(), 5),
        r is Err ==> r == Err::<Vec<u8>, CodecError>(CodecError::PendingOverflow),
{
    compress_with_order(data, magic_order5(), 5)
}

/// Restores the bytes of an archive made by `compress_order5`.
pub fn decompress_order5(archive: &[u8]) -> (r: Result<Vec<u8>, CodecError>)
    ensures
        archive@.len() < 4 ==> r == Err::<Vec<u8>, CodecError>(CodecError::UnexpectedEof),
        archive@.len() >= 4 && archive@.subrange(0, 4) != magic_order5_spec() ==> r == Err::<
            Vec<u8>,
            CodecError,
        >(CodecError::InvalidMagic),
        archive@.len() >= 4 && archive@.subrange(0, 4) == magic_order5_spec() && archive@.len() < 12
            ==> r == Err::<Vec<u8>, CodecError>(CodecError::UnexpectedEof),
        archive@.len() >= 12 && archive@.subrange(0, 4) == magic_order5_spec() ==> r is Ok
            && r->Ok_0@.len() == le_u64(archive@.subrange(4, 12)) && r->Ok_0@ == decoded(
            archive@.subrange(12, archive@.len() as int),
            le_u64(archive@.subrange(4, 12)) as nat,
            5,
        ).0,
        forall|d: Seq<u8>|
            is_archive_of(archive@, d, magic_order5_spec(), 5) ==> r is Ok && r->Ok_0@ == d,
{
    decompress_with_order(archive, magic_order5(), 5)
}

/// Compresses `data` with byte contexts of up to 6 preceding byte(s).
pub fn compress_order6(data: &[u8]) -> (r: Result<Vec<u8>, CodecError>)
    ensures
        r is Ok <==> compress_ok(data@, 6),
        r is Ok ==> is_archive_of(r->Ok_0@, data@, magic_order6_spec(), 6),
        r is Err ==> r == Err::<Vec<u8>, CodecError>(CodecError::PendingOverflow),
{
    compress_with_order(data, magic_order6(), 6)
}

/// Restores the bytes of an archive made by `compress_order6`.
pub fn decompress_order6(archive: &[u8]) -> (r: Result<Vec<u8>, CodecError>)
    ensures
        archive@.len() < 4 ==> r == Err::<Vec<u8>, CodecError>(CodecError::UnexpectedEof),
        archive@.len() >= 4 && archive@.subrange(0, 4) != magic_order6_spec() ==> r == Err::<
            Vec<u8>,
            CodecError,
        >(CodecError::InvalidMagic),
        archive@.len() >= 4 && archive@.subrange(0, 4) == magic_order6_spec() && archive@.len() < 12
            ==> r == Err::<Vec<u8>, CodecError>(CodecError::UnexpectedEof),
        archive@.len() >= 12 && archive@.subrange(0, 4) == magic_order6_spec() ==> r is Ok
            && r->Ok_0@.len() == le_u64(archive@.subrange(4, 12)) && r->Ok_0@ == decoded(
            archive@.subrange(12, archive@.len() as int),
            le_u64(archive@.subrange(4, 12)) as nat,
            6,
        ).0,
        forall|d: Seq<u8>|
            is_archive_of(archive@, d, magic_order6_spec(), 6) ==> r is Ok && r->Ok_0@ == d,
{
    decompress_with_order(archive, magic_order6(), 6)
}

// ---------------------------------------------------------------------------
// What the mixing variant needs from the model

/// One order's statistics for the mixer: the bytes its context has seen,
/// with counts, in byte order.
pub struct OrderPrediction {
    pub order: usize,
    pub symbols: Vec<(u8, u32)>,
}

/// What order `i` offers the mixer.
pub open spec fn prediction_spec(m: ModelView, h: Seq<u8>, i: int) -> Seq<(u8, u32)> {
    if i == 0 {
        symbol_pairs(m.order0)
    } else {
        let k = history_key(h, i);
        if m.ctxs[i - 1].contains_key(k) {
            symbol_pairs(m.ctxs[i - 1][k])
        } else {
            Seq::empty()
        }
    }
}

impl Model {
    /// Each order's statistics: order 0 first, then orders 1 up to the
    /// history length (at most `max_order`), a missing context offering
    /// nothing.
    pub fn predictions(&self, history: &ByteHistory, max_order: usize) -> (r: Vec<OrderPrediction>)
        requires
            self.wf(),
            1 <= max_order <= MAX_ORDER,
        ensures
            r@.len() == min_order(history.view(), max_order as int) + 1,
            forall|i: int|
                #![trigger r@[i]]
                0 <= i < r@.len() ==> r@[i].order == i && r@[i].symbols@ == prediction_spec(
                    self.view(),
                    history.view(),
                    i,
                ),
    {
        let ghost m = self.view();
        let ghost h = history.view();
        let mut predictions: Vec<OrderPrediction> = Vec::new();
        predictions.push(OrderPrediction { order: 0, symbols: self.order0.symbols() });
        let top = if history.len() < max_order { history.len() } else { max_order };
        let mut order: usize = 1;
        while order <= top
            invariant
                self.wf(),
                m == self.view(),
                h == history.view(),
                1 <= order <= top + 1,
                top <= max_order <= MAX_ORDER,
                top as int == min_order(h, max_order as int),
                predictions@.len() == order,
                forall|i: int|
                    #![trigger predictions@[i]]
                    0 <= i < predictions@.len() ==> predictions@[i].order == i
                        && predictions@[i].symbols@ == prediction_spec(m, h, i),
            decreases top + 1 - order,
        {
            let symbols = match self.context_for_order(order, history) {
                Some(context) => context.symbols(),
                None => Vec::new(),
            };
            let ghost prev = predictions@;
            predictions.push(OrderPrediction { order, symbols });
            assert forall|i: int|
                #![trigger predictions@[i]]
                0 <= i < predictions@.len() implies predictions@[i].order == i
                    && predictions@[i].symbols@ == prediction_spec(m, h, i) by {
                if i < prev.len() {
                    assert(predictions@[i] == prev[i]);
                }
            }
            order = order + 1;
        }
        predictions
    }
}

/// Weight of the escape in a mixed candidate list.
pub const MIX_ESCAPE_FREQ: u32 = 32;

/// The coding total of a mixed candidate list: its weights plus the escape.
pub fn mixed_total(candidates: &[WeightedSymbol]) -> (t: u32)
    requires
        weight_sum(candidates@) + MIX_ESCAPE_FREQ <= u32::MAX,
    ensures
        t == weight_sum(candidates@) + MIX_ESCAPE_FREQ,
{
    total_weight(candidates, MIX_ESCAPE_FREQ)
}

/// Codes `symbol` against the mixer's weighted candidates; a byte not
/// listed escapes and is then coded flat among all 256.
pub fn encode_mixed_symbol(
    symbol: u8,
    candidates: &[WeightedSymbol],
    encoder: &mut ArithmeticEncoder,
) -> (r: Result<(), CodecError>)
    requires
        candidates_codable(candidates@, MIX_ESCAPE_FREQ),
        old(encoder).wf(),
    ensures
        r is Ok ==> final(encoder).wf(),
        match enc_seq(
            old(encoder).view(),
            candidate_ranges(candidates@, symbol, MIX_ESCAPE_FREQ, SYMBOLS),
        ) {
            Some(s) => r is Ok && final(encoder).view() == s,
            None => r == Err::<(), CodecError>(CodecError::PendingOverflow),
        },
{
    encode_candidates(symbol, candidates, MIX_ESCAPE_FREQ, SYMBOLS, encoder)
}

/// Decodes a byte coded by `encode_mixed_symbol` with the same candidates.
pub fn decode_mixed_symbol(candidates: &[WeightedSymbol], decoder: &mut ArithmeticDecoder) -> (r: Result<
    u8,
    CodecError,
>)
    requires
        candidates_codable(candidates@, MIX_ESCAPE_FREQ),
        old(decoder).wf(),
    ensures
        final(decoder).wf(),
        final(decoder).data() == old(decoder).data(),
        r == Ok::<u8, CodecError>(
            decode_outcome(candidates@, MIX_ESCAPE_FREQ, SYMBOLS, old(decoder).view(), old(decoder).data()).0,
        ),
        final(decoder).view() == decode_outcome(
            candidates@,
            MIX_ESCAPE_FREQ,
            SYMBOLS,
            old(decoder).view(),
            old(decoder).data(),
        ).1,
{
    decode_candidates(
        candidates,
        MIX_ESCAPE_FREQ,
        SYMBOLS,
        decoder,
        Ghost(Seq::<CodeRange>::empty()),
        Ghost(0int),
        Ghost(0u8),
    )
}

} // verus!
