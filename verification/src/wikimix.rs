//! WikiMix-5: five byte predictors (byte contexts, markup state, words,
//! matches and character classes) whose candidate lists are merged with
//! fixed weights; only the strongest is coded, anything else escapes to a
//! flat byte.
use vstd::prelude::*;
use std::collections::{HashMap, VecDeque};
use crate::candidates::{WeightedSymbol, weight_sum, first_index};
use crate::context::{ByteContext, CtxView, ctx_wf, ctx_empty, ctx_observe, symbol_pairs};
use crate::history::{ByteHistory, history_push, history_key};
use crate::byte_ppm::{ModelView, model_wf, model_observe, min_order};
use crate::ranking::{top_k, by_symbol, select_top, sort_by_symbol, pair_sum};
use crate::error::CodecError;
use crate::arith::{ArithmeticEncoder, ArithmeticDecoder, CodeRange, DecState, dec_init, enc_seq, enc_run, dec_run, dec_target, in_range, range_codable, synced, coded_bits, lemma_enc_run_append};
use crate::bits::{bytes_to_bits, le_bytes_u64, le_u64, push_u64_le, read_u64, lemma_le_u64_roundtrip};
use crate::byte_ppm::{lemma_take_step, ranges_overlap};
use crate::candidates::{candidates_codable, candidate_ranges, encode_candidates, decode_candidates, decode_outcome, lemma_candidate_ranges, lemma_candidate_ranges_diverge};

verus! {

pub open spec fn magic_spec() -> Seq<u8> {
    seq![87u8, 77u8, 88u8, 53u8]
}

/// The archive tag `WMX5`.
pub fn magic() -> (m: [u8; 4])
    ensures
        m@ == magic_spec(),
{
    let m = [87u8, 77u8, 88u8, 53u8];
    assert(m@ =~= magic_spec());
    m
}

pub const ESCAPE_FREQ: u32 = 32;
pub const MAX_ORDER: usize = 6;
pub const MATCH_KEY_LEN: usize = 4;
pub const MATCH_CANDIDATES: usize = 8;
pub const MATCH_WINDOW: usize = 65536;
pub const WORD_HISTORY: usize = 3;
/// The mixer keeps only the strongest weighted candidate.
pub const MIXED_CANDIDATES: usize = 1;

// ---------------------------------------------------------------------------
// Candidate lists

/// `l` with `w` more weight on `s` (a zero weight adds nothing).
pub open spec fn add_weight_spec(l: Seq<WeightedSymbol>, s: u8, w: u32) -> Seq<WeightedSymbol> {
    if w == 0 {
        l
    } else {
        crate::ppm_match_mix::add_weight_spec(l, s, w)
    }
}

/// Adds `weight` to `symbol` in `target`; a zero weight adds nothing.
pub fn add_weight(target: &mut Vec<WeightedSymbol>, symbol: u8, weight: u32)
    ensures
        final(target)@ == add_weight_spec(old(target)@, symbol, weight),
{
    if weight == 0 {
        return;
    }
    crate::ppm_match_mix::add_weight(target, symbol, weight);
}

pub open spec fn sat_add32(a: u32, b: u32) -> u32 {
    if a + b > u32::MAX {
        u32::MAX
    } else {
        (a + b) as u32
    }
}

/// `l` with each (byte, count) of `src` added with `bonus` more weight.
pub open spec fn add_preds(l: Seq<WeightedSymbol>, src: Seq<(u8, u32)>, bonus: u32) -> Seq<WeightedSymbol>
    decreases src.len(),
{
    if src.len() == 0 {
        l
    } else {
        let prev = add_preds(l, src.drop_last(), bonus);
        add_weight_spec(prev, src.last().0, sat_add32(src.last().1, bonus))
    }
}

/// Adds each (byte, count) of `source` to `target` with `bonus` more weight.
pub fn add_predictions(target: &mut Vec<WeightedSymbol>, source: &Vec<(u8, u32)>, bonus: u32)
    ensures
        final(target)@ == add_preds(old(target)@, source@, bonus),
{
    let mut i: usize = 0;
    assert(source@.take(0) =~= Seq::<(u8, u32)>::empty());
    while i < source.len()
        invariant
            i <= source@.len(),
            target@ == add_preds(old(target)@, source@.take(i as int), bonus),
        decreases source@.len() - i,
    {
        let (symbol, count) = source[i];
        assert(source@.take(i as int + 1).drop_last() =~= source@.take(i as int));
        let w = if count > u32::MAX - bonus { u32::MAX } else { count + bonus };
        add_weight(target, symbol, w);
        i = i + 1;
    }
    assert(source@.take(source@.len() as int) =~= source@);
}

// ---------------------------------------------------------------------------
// Markup state

/// What kind of text the coder is in.
#[derive(Clone, Copy, Debug, PartialEq, Eq, Structural)]
pub enum SyntaxState {
    PlainText,
    XmlTag,
    WikiLink,
    Template,
    Table,
    Heading,
    Entity,
    Number,
    Utf8,
}

pub open spec fn state_index(s: SyntaxState) -> int {
    match s {
        SyntaxState::PlainText => 0,
        SyntaxState::XmlTag => 1,
        SyntaxState::WikiLink => 2,
        SyntaxState::Template => 3,
        SyntaxState::Table => 4,
        SyntaxState::Heading => 5,
        SyntaxState::Entity => 6,
        SyntaxState::Number => 7,
        SyntaxState::Utf8 => 8,
    }
}

impl SyntaxState {
    /// The state's slot among the nine.
    pub fn index(self) -> (i: usize)
        ensures
            i == state_index(self),
            i < 9,
    {
        match self {
            SyntaxState::PlainText => 0,
            SyntaxState::XmlTag => 1,
            SyntaxState::WikiLink => 2,
            SyntaxState::Template => 3,
            SyntaxState::Table => 4,
            SyntaxState::Heading => 5,
            SyntaxState::Entity => 6,
            SyntaxState::Number => 7,
            SyntaxState::Utf8 => 8,
        }
    }
}

pub open spec fn last_byte(h: Seq<u8>) -> Option<u8> {
    if h.len() > 0 {
        Some(h.last())
    } else {
        None
    }
}

pub open spec fn ends_with(h: Seq<u8>, tail: Seq<u8>) -> bool {
    tail.len() <= h.len() && h.subrange(h.len() - tail.len(), h.len() as int) == tail
}

pub open spec fn is_digit(b: u8) -> bool {
    48 <= b <= 57
}

/// The state after `byte`, given the bytes before it.
pub open spec fn next_state_spec(current: SyntaxState, h: Seq<u8>, byte: u8) -> SyntaxState {
    let last = last_byte(h);
    if current == SyntaxState::XmlTag && byte == 62 {
        SyntaxState::PlainText
    } else if current == SyntaxState::Entity && byte == 59 {
        SyntaxState::PlainText
    } else if current == SyntaxState::Heading && byte == 10 {
        SyntaxState::PlainText
    } else if current == SyntaxState::WikiLink && last == Some(93u8) && byte == 93 {
        SyntaxState::PlainText
    } else if current == SyntaxState::Template && last == Some(125u8) && byte == 125 {
        SyntaxState::PlainText
    } else if current == SyntaxState::Table && byte == 10 {
        SyntaxState::PlainText
    } else if last == Some(60u8) {
        SyntaxState::XmlTag
    } else if last == Some(38u8) {
        SyntaxState::Entity
    } else if last == Some(91u8) && byte == 91 {
        SyntaxState::WikiLink
    } else if last == Some(123u8) && byte == 123 {
        SyntaxState::Template
    } else if last == Some(123u8) && byte == 124 {
        SyntaxState::Table
    } else if last == Some(61u8) && byte == 61 {
        SyntaxState::Heading
    } else if is_digit(byte) && (current == SyntaxState::PlainText || current == SyntaxState::Number) {
        SyntaxState::Number
    } else if byte < 128 {
        if ends_with(h, seq![104u8, 116u8, 116u8, 112u8, 58u8]) || ends_with(h, seq![119u8, 119u8, 119u8, 46u8]) {
            SyntaxState::WikiLink
        } else {
            SyntaxState::PlainText
        }
    } else {
        SyntaxState::Utf8
    }
}

/// The markup state after `byte`: tags, entities and headings end at their
/// closing byte, links and templates at a doubled closing bracket, tables at
/// a line end; an opening byte before `byte` starts the matching state;
/// digits continue a number; `http:` or `www.` start a link.
pub fn next_state(current: SyntaxState, history: &ByteHistory, byte: u8) -> (s: SyntaxState)
    ensures
        s == next_state_spec(current, history.view(), byte),
{
    let last = history.last();
    if current == SyntaxState::XmlTag && byte == 62 {
        SyntaxState::PlainText
    } else if current == SyntaxState::Entity && byte == 59 {
        SyntaxState::PlainText
    } else if current == SyntaxState::Heading && byte == 10 {
        SyntaxState::PlainText
    } else if current == SyntaxState::WikiLink && last == Some(93u8) && byte == 93 {
        SyntaxState::PlainText
    } else if current == SyntaxState::Template && last == Some(125u8) && byte == 125 {
        SyntaxState::PlainText
    } else if current == SyntaxState::Table && byte == 10 {
        SyntaxState::PlainText
    } else if last == Some(60u8) {
        SyntaxState::XmlTag
    } else if last == Some(38u8) {
        SyntaxState::Entity
    } else if last == Some(91u8) && byte == 91 {
        SyntaxState::WikiLink
    } else if last == Some(123u8) && byte == 123 {
        SyntaxState::Template
    } else if last == Some(123u8) && byte == 124 {
        SyntaxState::Table
    } else if last == Some(61u8) && byte == 61 {
        SyntaxState::Heading
    } else if 48 <= byte && byte <= 57 && (current == SyntaxState::PlainText || current == SyntaxState::Number) {
        SyntaxState::Number
    } else if byte < 128 {
        let http = [104u8, 116u8, 116u8, 112u8, 58u8];
        let www = [119u8, 119u8, 119u8, 46u8];
        assert(http@ =~= seq![104u8, 116u8, 116u8, 112u8, 58u8]);
        assert(www@ =~= seq![119u8, 119u8, 119u8, 46u8]);
        if history.ends_with(&http) || history.ends_with(&www) {
            SyntaxState::WikiLink
        } else {
            SyntaxState::PlainText
        }
    } else {
        SyntaxState::Utf8
    }
}

/// What kind of byte was seen, for the class model.
#[derive(Clone, Copy, Debug, PartialEq, Eq, Structural)]
pub enum SymbolClass {
    Plain,
    Digit,
    Delimiter,
    Entity,
    Utf8Lead,
    Utf8Continuation,
}

pub open spec fn class_index(c: SymbolClass) -> int {
    match c {
        SymbolClass::Plain => 0,
        SymbolClass::Digit => 1,
        SymbolClass::Delimiter => 2,
        SymbolClass::Entity => 3,
        SymbolClass::Utf8Lead => 4,
        SymbolClass::Utf8Continuation => 5,
    }
}

pub open spec fn is_delimiter(b: u8) -> bool {
    b == 60 || b == 62 || b == 91 || b == 93 || b == 123 || b == 125 || b == 124 || b == 61 || b == 38
}

/// The class of `byte` seen in `state`.
pub open spec fn class_of(state: SyntaxState, byte: u8) -> SymbolClass {
    if state == SyntaxState::Entity {
        SymbolClass::Entity
    } else if is_digit(byte) {
        SymbolClass::Digit
    } else if is_delimiter(byte) {
        SymbolClass::Delimiter
    } else if byte & 0xC0u8 == 0x80u8 {
        SymbolClass::Utf8Continuation
    } else if byte & 0x80u8 != 0 {
        SymbolClass::Utf8Lead
    } else {
        SymbolClass::Plain
    }
}

/// The class the class model predicts from in `state`.
pub open spec fn class_for_state(state: SyntaxState) -> SymbolClass {
    match state {
        SyntaxState::Entity => SymbolClass::Entity,
        SyntaxState::Number => SymbolClass::Digit,
        SyntaxState::Utf8 => SymbolClass::Utf8Lead,
        SyntaxState::PlainText => SymbolClass::Plain,
        _ => SymbolClass::Delimiter,
    }
}

impl SymbolClass {
    /// The class's slot among the six.
    pub fn index(self) -> (i: usize)
        ensures
            i == class_index(self),
            i < 6,
    {
        match self {
            SymbolClass::Plain => 0,
            SymbolClass::Digit => 1,
            SymbolClass::Delimiter => 2,
            SymbolClass::Entity => 3,
            SymbolClass::Utf8Lead => 4,
            SymbolClass::Utf8Continuation => 5,
        }
    }

    /// The class of `byte` seen in `state`: inside an entity everything is
    /// entity; otherwise digits, markup delimiters, UTF-8 continuation and
    /// lead bytes, and the rest.
    pub fn from_state(state: SyntaxState, byte: u8) -> (c: SymbolClass)
        ensures
            c == class_of(state, byte),
    {
        if state == SyntaxState::Entity {
            return SymbolClass::Entity;
        }
        if 48 <= byte && byte <= 57 {
            return SymbolClass::Digit;
        }
        if byte == 60 || byte == 62 || byte == 91 || byte == 93 || byte == 123 || byte == 125 || byte == 124
            || byte == 61 || byte == 38 {
            return SymbolClass::Delimiter;
        }
        if byte & 0xC0 == 0x80 {
            return SymbolClass::Utf8Continuation;
        }
        if byte & 0x80 != 0 {
            return SymbolClass::Utf8Lead;
        }
        SymbolClass::Plain
    }
}

// ---------------------------------------------------------------------------
// Hashes

pub open spec fn fnv_step(h: u64, x: u64) -> u64 {
    (h ^ x).wrapping_mul(0x100000001b3u64)
}

/// FNV-1a over bytes.
pub open spec fn hash_spec(bytes: Seq<u8>) -> u64
    decreases bytes.len(),
{
    if bytes.len() == 0 {
        0xcbf29ce484222325u64
    } else {
        fnv_step(hash_spec(bytes.drop_last()), bytes.last() as u64)
    }
}

/// FNV-1a over bytes.
pub fn hash_bytes(bytes: &Vec<u8>) -> (h: u64)
    ensures
        h == hash_spec(bytes@),
{
    let mut hash: u64 = 0xcbf29ce484222325;
    let mut i: usize = 0;
    assert(bytes@.take(0) =~= Seq::<u8>::empty());
    while i < bytes.len()
        invariant
            i <= bytes@.len(),
            hash == hash_spec(bytes@.take(i as int)),
        decreases bytes@.len() - i,
    {
        assert(bytes@.take(i as int + 1).drop_last() =~= bytes@.take(i as int));
        hash = hash ^ (bytes[i] as u64);
        hash = hash.wrapping_mul(0x100000001b3);
        i = i + 1;
    }
    assert(bytes@.take(bytes@.len() as int) =~= bytes@);
    hash
}

/// The FNV fold of the recent word hashes.
pub open spec fn fold_words(words: Seq<u64>) -> u64
    decreases words.len(),
{
    if words.len() == 0 {
        0xcbf29ce484222325u64
    } else {
        fnv_step(fold_words(words.drop_last()), words.last())
    }
}

/// The key of the word model's context: the recent words, then the word in progress.
pub open spec fn word_key(words: Seq<u64>, current: Seq<u8>) -> u64 {
    if current.len() == 0 {
        fold_words(words)
    } else {
        fnv_step(fold_words(words), hash_spec(current))
    }
}

/// The lowercase of an ASCII letter, any other byte unchanged.
pub open spec fn lower(b: u8) -> u8 {
    if 65 <= b <= 90 {
        (b + 32) as u8
    } else {
        b
    }
}

pub open spec fn is_alnum(b: u8) -> bool {
    (48 <= b <= 57) || (65 <= b <= 90) || (97 <= b <= 122)
}

// ---------------------------------------------------------------------------
// The byte-context submodel

/// The highest order from `order` down whose context exists (0 if none).
pub open spec fn found_order(m: ModelView, h: Seq<u8>, order: int) -> int
    decreases order,
{
    if order <= 0 {
        0
    } else if m.ctxs[order - 1].contains_key(history_key(h, order)) {
        order
    } else {
        found_order(m, h, order - 1)
    }
}

/// The byte-context predictions: the top three of the longest existing
/// context (bonus three per order plus four), then the top two at order 0
/// (bonus two).
pub open spec fn ppm_predict(m: ModelView, h: Seq<u8>) -> Seq<WeightedSymbol> {
    let o = found_order(m, h, min_order(h, MAX_ORDER as int));
    let l1 = if o > 0 {
        add_preds(Seq::empty(), top_k(symbol_pairs(m.ctxs[o - 1][history_key(h, o)]), 3), (o * 3 + 4) as u32)
    } else {
        Seq::empty()
    };
    add_preds(l1, top_k(symbol_pairs(m.order0), 2), 2)
}

/// Byte contexts of up to six preceding bytes.
pub struct BytePpmModel {
    stats: crate::byte_ppm::Model,
    max_order: usize,
}

impl BytePpmModel {
    pub closed spec fn view(&self) -> ModelView {
        self.stats.view()
    }

    pub closed spec fn wf(&self) -> bool {
        self.stats.wf() && self.max_order == MAX_ORDER
    }

    pub fn new(max_order: usize) -> (m: Self)
        requires
            max_order == MAX_ORDER,
        ensures
            m.wf(),
            m.view() == crate::byte_ppm::model_init(),
    {
        BytePpmModel { stats: crate::byte_ppm::Model::new(), max_order }
    }

    /// The byte-context predictions for `history`.
    pub fn predict(&self, history: &ByteHistory) -> (r: Vec<WeightedSymbol>)
        requires
            self.wf(),
        ensures
            r@ == ppm_predict(self.view(), history.view()),
    {
        let ghost m = self.view();
        let ghost h = history.view();
        let mut predictions: Vec<WeightedSymbol> = Vec::new();
        let top = if history.len() < self.max_order { history.len() } else { self.max_order };
        let mut order = top;
        loop
            invariant_except_break
                predictions@ == Seq::<WeightedSymbol>::empty(),
                found_order(m, h, top as int) == found_order(m, h, order as int),
                order <= top,
            invariant
                self.wf(),
                m == self.view(),
                h == history.view(),
                top <= MAX_ORDER,
                top as int == min_order(h, MAX_ORDER as int),
            ensures
                predictions@ == (if found_order(m, h, top as int) > 0 {
                    add_preds(
                        Seq::empty(),
                        top_k(symbol_pairs(m.ctxs[found_order(m, h, top as int) - 1][history_key(h, found_order(m, h, top as int))]), 3),
                        (found_order(m, h, top as int) * 3 + 4) as u32,
                    )
                } else {
                    Seq::<WeightedSymbol>::empty()
                }),
            decreases order,
        {
            if order == 0 {
                break;
            }
            match self.stats.context_for_order(order, history) {
                Some(context) => {
                    let top3 = context.top_symbols(3);
                    add_predictions(&mut predictions, &top3, (order as u32) * 3 + 4);
                    break;
                },
                None => {},
            }
            order = order - 1;
        }
        let top2 = self.stats.order0().top_symbols(2);
        add_predictions(&mut predictions, &top2, 2);
        predictions
    }

    /// Counts `symbol` at order 0 and in every context of `history`.
    pub fn observe(&mut self, history: &ByteHistory, symbol: u8)
        requires
            old(self).wf(),
        ensures
            final(self).wf(),
            final(self).view() == model_observe(old(self).view(), history.view(), MAX_ORDER as int, symbol),
    {
        self.stats.observe(symbol, history, self.max_order);
    }
}

// ---------------------------------------------------------------------------
// Contexts kept in a list

pub open spec fn ctx_views(v: Seq<ByteContext>) -> Seq<CtxView> {
    Seq::new(v.len(), |i: int| v[i].view())
}

pub open spec fn all_wf(v: Seq<CtxView>) -> bool {
    forall|i: int| 0 <= i < v.len() ==> ctx_wf(#[trigger] v[i])
}

fn empty_contexts(n: usize) -> (v: Vec<ByteContext>)
    ensures
        v@.len() == n,
        ctx_views(v@) == Seq::new(n as nat, |_i: int| ctx_empty()),
        all_wf(ctx_views(v@)),
{
    let mut v: Vec<ByteContext> = Vec::new();
    let mut i: usize = 0;
    while i < n
        invariant
            i <= n,
            v@.len() == i,
            forall|j: int| 0 <= j < i ==> #[trigger] v@[j].view() == ctx_empty(),
        decreases n - i,
    {
        v.push(ByteContext::new());
        i = i + 1;
    }
    assert(ctx_views(v@) =~= Seq::new(n as nat, |_i: int| ctx_empty()));
    proof {
        crate::context::lemma_empty_wf();
    }
    v
}

/// Counts `symbol` in the context at `idx` of a list.
fn observe_at(v: &mut Vec<ByteContext>, idx: usize, symbol: u8)
    requires
        idx < old(v)@.len(),
        all_wf(ctx_views(old(v)@)),
    ensures
        ctx_views(final(v)@) == ctx_views(old(v)@).update(idx as int, ctx_observe(ctx_views(old(v)@)[idx as int], symbol)),
        all_wf(ctx_views(final(v)@)),
        final(v)@.len() == old(v)@.len(),
{
    let ghost before = ctx_views(v@);
    let mut c = v.remove(idx);
    assert(ctx_wf(before[idx as int]));
    proof {
        crate::context::lemma_observe_wf(c.view(), symbol);
    }
    c.observe(symbol);
    v.insert(idx, c);
    assert(ctx_views(v@) =~= before.update(idx as int, ctx_observe(before[idx as int], symbol)));
    proof {
        assert forall|i: int| 0 <= i < ctx_views(v@).len() implies ctx_wf(#[trigger] ctx_views(v@)[i]) by {
            if i != idx {
                assert(ctx_views(v@)[i] == before[i]);
            }
        }
    }
}

// ---------------------------------------------------------------------------
// The markup-state submodel

pub open spec fn struct_predict(counts: Seq<CtxView>, state: SyntaxState) -> Seq<WeightedSymbol> {
    add_preds(Seq::empty(), top_k(symbol_pairs(counts[state_index(state)]), 3), 5)
}

/// Byte counts per markup state.
pub struct StructStateModel {
    state: SyntaxState,
    counts: Vec<ByteContext>,
}

impl StructStateModel {
    pub closed spec fn state_spec(&self) -> SyntaxState {
        self.state
    }

    pub closed spec fn counts_view(&self) -> Seq<CtxView> {
        ctx_views(self.counts@)
    }

    pub closed spec fn wf(&self) -> bool {
        self.counts@.len() == 9 && all_wf(ctx_views(self.counts@))
    }

    pub fn new() -> (m: Self)
        ensures
            m.wf(),
            m.state_spec() == SyntaxState::PlainText,
            m.counts_view() == Seq::new(9, |_i: int| ctx_empty()),
    {
        StructStateModel { state: SyntaxState::PlainText, counts: empty_contexts(9) }
    }

    /// The current markup state.
    pub fn state(&self) -> (s: SyntaxState)
        ensures
            s == self.state_spec(),
    {
        self.state
    }

    /// The top three bytes of the current state (bonus five).
    pub fn predict(&self, _history: &ByteHistory) -> (r: Vec<WeightedSymbol>)
        requires
            self.wf(),
        ensures
            r@ == struct_predict(self.counts_view(), self.state_spec()),
    {
        let mut predictions: Vec<WeightedSymbol> = Vec::new();
        let idx = self.state.index();
        assert(ctx_wf(ctx_views(self.counts@)[idx as int]));
        let top3 = self.counts[idx].top_symbols(3);
        add_predictions(&mut predictions, &top3, 5);
        predictions
    }

    /// Counts `byte` in the current state, then moves to the next state.
    pub fn observe(&mut self, history: &ByteHistory, byte: u8)
        requires
            old(self).wf(),
        ensures
            final(self).wf(),
            final(self).state_spec() == next_state_spec(old(self).state_spec(), history.view(), byte),
            final(self).counts_view() == old(self).counts_view().update(
                state_index(old(self).state_spec()),
                ctx_observe(old(self).counts_view()[state_index(old(self).state_spec())], byte),
            ),
    {
        let idx = self.state.index();
        observe_at(&mut self.counts, idx, byte);
        self.state = next_state(self.state, history, byte);
    }
}

// ---------------------------------------------------------------------------
// The word submodel

pub open spec fn ctx_or_empty(m: Map<u64, CtxView>, k: u64) -> CtxView {
    if m.contains_key(k) {
        m[k]
    } else {
        ctx_empty()
    }
}

pub open spec fn word_predict(ctxs: Map<u64, CtxView>, key: u64) -> Seq<WeightedSymbol> {
    if ctxs.contains_key(key) {
        add_preds(Seq::empty(), top_k(symbol_pairs(ctxs[key]), 2), 4)
    } else {
        Seq::empty()
    }
}

/// The recent words after finishing the word `current`.
pub open spec fn push_word(words: Seq<u64>, h: u64, max: int) -> Seq<u64> {
    if words.len() == max && words.len() > 0 {
        words.drop_first().push(h)
    } else {
        words.push(h)
    }
}

/// Byte counts after the recent words and the word in progress.
pub struct WordModel {
    contexts: HashMap<u64, ByteContext>,
    recent_words: VecDeque<u64>,
    current_word: Vec<u8>,
    max_history: usize,
}

impl WordModel {
    pub closed spec fn ctxs(&self) -> Map<u64, CtxView> {
        self.contexts@.map_values(|c: ByteContext| c.view())
    }

    pub closed spec fn words(&self) -> Seq<u64> {
        self.recent_words@
    }

    pub closed spec fn current(&self) -> Seq<u8> {
        self.current_word@
    }

    pub closed spec fn wf(&self) -> bool {
        &&& self.max_history == WORD_HISTORY
        &&& self.recent_words@.len() <= WORD_HISTORY
        &&& forall|k: u64| #[trigger] self.contexts@.contains_key(k) ==> self.contexts@[k].wf()
    }

    pub fn new(max_history: usize) -> (m: Self)
        requires
            max_history == WORD_HISTORY,
        ensures
            m.wf(),
            m.ctxs() == Map::<u64, CtxView>::empty(),
            m.words() == Seq::<u64>::empty(),
            m.current() == Seq::<u8>::empty(),
    {
        let m = WordModel {
            contexts: HashMap::new(),
            recent_words: VecDeque::new(),
            current_word: Vec::new(),
            max_history,
        };
        assert(m.ctxs() =~= Map::<u64, CtxView>::empty());
        m
    }

    /// The key of the current context.
    pub fn context_key(&self) -> (k: u64)
        ensures
            k == word_key(self.words(), self.current()),
    {
        let mut key: u64 = 0xcbf29ce484222325;
        let mut i: usize = 0;
        let ghost w = self.recent_words@;
        assert(w.take(0) =~= Seq::<u64>::empty());
        while i < self.recent_words.len()
            invariant
                w == self.recent_words@,
                i <= w.len(),
                key == fold_words(w.take(i as int)),
            decreases w.len() - i,
        {
            assert(w.take(i as int + 1).drop_last() =~= w.take(i as int));
            key = key ^ self.recent_words[i];
            key = key.wrapping_mul(0x100000001b3);
            i = i + 1;
        }
        assert(w.take(w.len() as int) =~= w);
        if self.current_word.len() > 0 {
            key = key ^ hash_bytes(&self.current_word);
            key = key.wrapping_mul(0x100000001b3);
        }
        key
    }

    /// The top two bytes of the current context (bonus four), if it exists.
    pub fn predict(&self) -> (r: Vec<WeightedSymbol>)
        requires
            self.wf(),
        ensures
            r@ == word_predict(self.ctxs(), word_key(self.words(), self.current())),
    {
        let key = self.context_key();
        match self.contexts.get(&key) {
            Some(context) => {
                let mut predictions: Vec<WeightedSymbol> = Vec::new();
                let top2 = context.top_symbols(2);
                add_predictions(&mut predictions, &top2, 4);
                predictions
            },
            None => Vec::new(),
        }
    }

    /// Counts `byte` in the current context, then extends the word in
    /// progress (letters and digits, lowercased) or ends it.
    pub fn observe(&mut self, byte: u8)
        requires
            old(self).wf(),
        ensures
            final(self).wf(),
            ({
                let k = word_key(old(self).words(), old(self).current());
                final(self).ctxs() == old(self).ctxs().insert(k, ctx_observe(ctx_or_empty(old(self).ctxs(), k), byte))
            }),
            is_alnum(byte) ==> final(self).words() == old(self).words() && final(self).current() == old(self).current().push(lower(byte)),
            !is_alnum(byte) && old(self).current().len() > 0 ==> final(self).words() == push_word(old(self).words(), hash_spec(old(self).current()), WORD_HISTORY as int)
                && final(self).current() == Seq::<u8>::empty(),
            !is_alnum(byte) && old(self).current().len() == 0 ==> final(self).words() == old(self).words()
                && final(self).current() == old(self).current(),
    {
        let key = self.context_key();
        let ghost m0 = self.ctxs();
        let mut ctx = match self.contexts.remove(&key) {
            Some(c) => c,
            None => ByteContext::new(),
        };
        proof {
            if m0.contains_key(key) {
                assert(old(self).contexts@.contains_key(key));
            } else {
                crate::context::lemma_empty_wf();
            }
            crate::context::lemma_observe_wf(ctx.view(), byte);
        }
        assert(ctx.view() == ctx_or_empty(m0, key));
        ctx.observe(byte);
        self.contexts.insert(key, ctx);
        assert(self.ctxs() =~= m0.insert(key, ctx_observe(ctx_or_empty(m0, key), byte)));
        if (48 <= byte && byte <= 57) || (65 <= byte && byte <= 90) || (97 <= byte && byte <= 122) {
            let lowered = if 65 <= byte && byte <= 90 { byte + 32 } else { byte };
            self.current_word.push(lowered);
            return;
        }
        if self.current_word.len() > 0 {
            let word_hash = hash_bytes(&self.current_word);
            if self.recent_words.len() == self.max_history {
                let _ = self.recent_words.pop_front();
            }
            self.recent_words.push_back(word_hash);
            self.current_word.clear();
            assert(self.words() =~= push_word(old(self).words(), hash_spec(old(self).current()), WORD_HISTORY as int));
            assert(self.current() =~= Seq::<u8>::empty());
        }
    }
}

// ---------------------------------------------------------------------------
// The match submodel

/// The big-endian value of the four bytes at `position`.
pub open spec fn key4(data: Seq<u8>, position: int) -> u32 {
    ((((data[position] as u32) << 8u32 | (data[position + 1] as u32)) << 8u32 | (data[position + 2] as u32))
        << 8u32 | (data[position + 3] as u32))
}

/// The four bytes at `position` as a big-endian key.
pub fn match_key_at(data: &Vec<u8>, position: usize) -> (k: u32)
    requires
        position + MATCH_KEY_LEN <= data.len(),
    ensures
        k == key4(data@, position as int),
{
    let mut key: u32 = 0;
    key = (key << 8u32) | (data[position] as u32);
    key = (key << 8u32) | (data[position + 1] as u32);
    key = (key << 8u32) | (data[position + 2] as u32);
    key = (key << 8u32) | (data[position + 3] as u32);
    let b0 = data[position] as u32;
    assert((0u32 << 8u32) | b0 == b0) by (bit_vector);
    key
}

/// The weight of a continuation `distance` bytes back.
pub open spec fn distance_weight(distance: int) -> u32 {
    if distance <= 64 {
        32
    } else if distance <= 512 {
        20
    } else {
        10
    }
}

/// The match predictions from positions `ps[..j]`, newest first, stopping
/// once two bytes are predicted.
pub open spec fn match_predict_from(data: Seq<u8>, ps: Seq<usize>, j: int, acc: Seq<WeightedSymbol>) -> Seq<WeightedSymbol>
    decreases j,
{
    if j <= 0 || j > ps.len() {
        acc
    } else {
        let p = ps[j - 1] as int;
        if p + MATCH_KEY_LEN >= data.len() {
            match_predict_from(data, ps, j - 1, acc)
        } else {
            let acc2 = add_weight_spec(acc, data[p + MATCH_KEY_LEN], distance_weight(data.len() - p));
            if acc2.len() >= 2 {
                acc2
            } else {
                match_predict_from(data, ps, j - 1, acc2)
            }
        }
    }
}

pub open spec fn match_predict(data: Seq<u8>, positions: Map<u32, Seq<usize>>) -> Seq<WeightedSymbol> {
    if data.len() < MATCH_KEY_LEN {
        Seq::empty()
    } else {
        let key = key4(data, data.len() - MATCH_KEY_LEN);
        if positions.contains_key(key) {
            match_predict_from(data, positions[key], positions[key].len() as int, Seq::empty())
        } else {
            Seq::empty()
        }
    }
}

pub open spec fn mpositions_of(m: Map<u32, Seq<usize>>, k: u32) -> Seq<usize> {
    if m.contains_key(k) {
        m[k]
    } else {
        Seq::empty()
    }
}

/// The match state after byte `b`.
pub open spec fn match_observe_positions(data: Seq<u8>, positions: Map<u32, Seq<usize>>) -> Map<u32, Seq<usize>> {
    if data.len() < MATCH_KEY_LEN {
        positions
    } else {
        let position = data.len() - MATCH_KEY_LEN;
        let key = key4(data, position);
        let q = mpositions_of(positions, key).push(position as usize);
        positions.insert(
            key,
            crate::ppm_match_mix::trim_window(crate::ppm_match_mix::trim_count(q, MATCH_CANDIDATES as int), position, MATCH_WINDOW as int),
        )
    }
}

/// Recent positions of each four-byte key, predicting the bytes that followed.
pub struct MatchModel {
    data: Vec<u8>,
    positions: HashMap<u32, VecDeque<usize>>,
    window: usize,
}

impl MatchModel {
    pub closed spec fn data(&self) -> Seq<u8> {
        self.data@
    }

    pub closed spec fn positions(&self) -> Map<u32, Seq<usize>> {
        self.positions@.map_values(|q: VecDeque<usize>| q@)
    }

    pub closed spec fn wf(&self) -> bool {
        self.window == MATCH_WINDOW
    }

    pub fn new(window: usize) -> (m: Self)
        requires
            window == MATCH_WINDOW,
        ensures
            m.wf(),
            m.data() == Seq::<u8>::empty(),
            m.positions() == Map::<u32, Seq<usize>>::empty(),
    {
        let m = MatchModel { data: Vec::new(), positions: HashMap::new(), window };
        assert(m.positions() =~= Map::<u32, Seq<usize>>::empty());
        m
    }

    /// Up to two bytes that followed earlier occurrences of the last four bytes.
    pub fn predict(&self) -> (r: Vec<WeightedSymbol>)
        ensures
            r@ == match_predict(self.data(), self.positions()),
    {
        if self.data.len() < MATCH_KEY_LEN {
            return Vec::new();
        }
        let key = match_key_at(&self.data, self.data.len() - MATCH_KEY_LEN);
        let positions = match self.positions.get(&key) {
            Some(p) => p,
            None => {
                return Vec::new();
            },
        };
        let ghost ps = positions@;
        let ghost data = self.data@;
        assert(self.positions().contains_key(key) && self.positions()[key] == ps);
        let mut predictions: Vec<WeightedSymbol> = Vec::new();
        let mut j: usize = positions.len();
        loop
            invariant_except_break
                match_predict_from(data, ps, j as int, predictions@) == match_predict_from(data, ps, ps.len() as int, Seq::empty()),
            invariant
                j <= ps.len(),
                ps == positions@,
                data == self.data@,
            ensures
                predictions@ == match_predict_from(data, ps, ps.len() as int, Seq::empty()),
            decreases j,
        {
            if j == 0 {
                break;
            }
            let position = positions[j - 1];
            if position < self.data.len() && self.data.len() - position > MATCH_KEY_LEN {
                let distance = self.data.len() - position;
                let weight: u32 = if distance <= 64 {
                    32
                } else if distance <= 512 {
                    20
                } else {
                    10
                };
                add_weight(&mut predictions, self.data[position + MATCH_KEY_LEN], weight);
                if predictions.len() >= 2 {
                    break;
                }
            }
            j = j - 1;
        }
        predictions
    }

    /// Appends `byte` and records the position of the key that now ends
    /// the bytes, keeping the eight newest positions within the window.
    pub fn observe(&mut self, byte: u8)
        requires
            old(self).wf(),
        ensures
            final(self).wf(),
            final(self).data() == old(self).data().push(byte),
            final(self).positions() == match_observe_positions(old(self).data().push(byte), old(self).positions()),
    {
        let ghost p0 = self.positions();
        self.data.push(byte);
        if self.data.len() < MATCH_KEY_LEN {
            return;
        }
        let position = self.data.len() - MATCH_KEY_LEN;
        let key = match_key_at(&self.data, position);
        let mut entry = match self.positions.remove(&key) {
            Some(q) => q,
            None => VecDeque::new(),
        };
        assert(entry@ == mpositions_of(p0, key));
        entry.push_back(position);
        let ghost q1 = entry@;
        while entry.len() > MATCH_CANDIDATES
            invariant
                crate::ppm_match_mix::trim_count(entry@, MATCH_CANDIDATES as int) == crate::ppm_match_mix::trim_count(q1, MATCH_CANDIDATES as int),
            decreases entry@.len(),
        {
            let _ = entry.pop_front();
        }
        let ghost q2 = entry@;
        loop
            invariant
                crate::ppm_match_mix::trim_window(entry@, position as int, self.window as int)
                    == crate::ppm_match_mix::trim_window(q2, position as int, self.window as int),
            ensures
                entry@ == crate::ppm_match_mix::trim_window(q2, position as int, self.window as int),
            decreases entry@.len(),
        {
            if entry.len() == 0 {
                break;
            }
            let oldest = entry[0];
            let age = if position >= oldest { position - oldest } else { 0 };
            if age <= self.window {
                break;
            }
            let _ = entry.pop_front();
        }
        self.positions.insert(key, entry);
        assert(self.positions() =~= match_observe_positions(old(self).data().push(byte), p0));
    }
}

// ---------------------------------------------------------------------------
// The class submodel

pub open spec fn class_predict(counts: Seq<CtxView>, state: SyntaxState) -> Seq<WeightedSymbol> {
    add_preds(Seq::empty(), top_k(symbol_pairs(counts[class_index(class_for_state(state))]), 2), 4)
}

/// Byte counts per byte class.
pub struct ClassModel {
    counts: Vec<ByteContext>,
}

impl ClassModel {
    pub closed spec fn counts_view(&self) -> Seq<CtxView> {
        ctx_views(self.counts@)
    }

    pub closed spec fn wf(&self) -> bool {
        self.counts@.len() == 6 && all_wf(ctx_views(self.counts@))
    }

    pub fn new() -> (m: Self)
        ensures
            m.wf(),
            m.counts_view() == Seq::new(6, |_i: int| ctx_empty()),
    {
        ClassModel { counts: empty_contexts(6) }
    }

    /// The top two bytes of the class `state` suggests (bonus four).
    pub fn predict(&self, state: SyntaxState) -> (r: Vec<WeightedSymbol>)
        requires
            self.wf(),
        ensures
            r@ == class_predict(self.counts_view(), state),
    {
        let class = match state {
            SyntaxState::Entity => SymbolClass::Entity,
            SyntaxState::Number => SymbolClass::Digit,
            SyntaxState::Utf8 => SymbolClass::Utf8Lead,
            SyntaxState::XmlTag | SyntaxState::WikiLink | SyntaxState::Template | SyntaxState::Table
            | SyntaxState::Heading => SymbolClass::Delimiter,
            SyntaxState::PlainText => SymbolClass::Plain,
        };
        let mut predictions: Vec<WeightedSymbol> = Vec::new();
        let idx = class.index();
        assert(ctx_wf(ctx_views(self.counts@)[idx as int]));
        let top2 = self.counts[idx].top_symbols(2);
        add_predictions(&mut predictions, &top2, 4);
        predictions
    }

    /// Counts `byte` in its class.
    pub fn observe(&mut self, state: SyntaxState, byte: u8)
        requires
            old(self).wf(),
        ensures
            final(self).wf(),
            final(self).counts_view() == old(self).counts_view().update(
                class_index(class_of(state, byte)),
                ctx_observe(old(self).counts_view()[class_index(class_of(state, byte))], byte),
            ),
    {
        let class = SymbolClass::from_state(state, byte);
        observe_at(&mut self.counts, class.index(), byte);
    }
}

// ---------------------------------------------------------------------------
// The mixer

pub open spec fn sat_mul32(a: u32, b: u32) -> u32 {
    if a * b > u32::MAX {
        u32::MAX
    } else {
        (a * b) as u32
    }
}

/// `acc` with every prediction of `preds` added at `mult` times its weight.
pub open spec fn add_all(acc: Seq<WeightedSymbol>, preds: Seq<WeightedSymbol>, mult: u32) -> Seq<WeightedSymbol>
    decreases preds.len(),
{
    if preds.len() == 0 {
        acc
    } else {
        let prev = add_all(acc, preds.drop_last(), mult);
        add_weight_spec(prev, preds.last().symbol, sat_mul32(preds.last().weight, mult))
    }
}

/// The first `n` inputs added with their model weights.
pub open spec fn combine_fold(inputs: Seq<Seq<WeightedSymbol>>, weights: Seq<u32>, n: int) -> Seq<WeightedSymbol>
    decreases n,
{
    if n <= 0 {
        Seq::empty()
    } else {
        add_all(combine_fold(inputs, weights, n - 1), inputs[n - 1], weights[n - 1])
    }
}

pub open spec fn to_pairs(l: Seq<WeightedSymbol>) -> Seq<(u8, u32)> {
    Seq::new(l.len(), |i: int| (l[i].symbol, l[i].weight))
}

pub open spec fn to_symbols(p: Seq<(u8, u32)>) -> Seq<WeightedSymbol> {
    Seq::new(p.len(), |i: int| WeightedSymbol { symbol: p[i].0, weight: p[i].1 })
}

/// The mixed candidates: all predictions weighted by model, of which only
/// the strongest is kept (ties to the lower byte).
pub open spec fn mix_spec(inputs: Seq<Seq<WeightedSymbol>>, weights: Seq<u32>) -> Seq<WeightedSymbol> {
    to_symbols(by_symbol(top_k(to_pairs(combine_fold(inputs, weights, 5)), MIXED_CANDIDATES as int)))
}

/// The mixer keeps nothing when no model predicts, and otherwise exactly
/// one candidate: the heaviest weighted byte, the lower byte on a tie.
pub proof fn lemma_mix_strongest(inputs: Seq<Seq<WeightedSymbol>>, weights: Seq<u32>)
    ensures
        ({
            let c = combine_fold(inputs, weights, 5);
            let m = mix_spec(inputs, weights);
            &&& c.len() == 0 ==> m.len() == 0
            &&& c.len() > 0 ==> m.len() == 1 && exists|b: int|
                0 <= b < c.len() && m[0] == c[b] && forall|i: int|
                    0 <= i < c.len() ==> (#[trigger] c[i]).weight < c[b].weight || (c[i].weight == c[b].weight
                        && c[i].symbol >= c[b].symbol)
        }),
{
    let c = combine_fold(inputs, weights, 5);
    let p = to_pairs(c);
    if c.len() > 0 {
        crate::ranking::lemma_best_is_best(p);
        crate::ranking::lemma_best_index(p);
        let b = crate::ranking::best_index(p);
        let t = top_k(p, 1);
        assert(top_k(p.remove(b), 0) =~= Seq::<(u8, u32)>::empty());
        assert(t =~= seq![p[b]]);
        reveal_with_fuel(by_symbol, 2);
        assert(seq![p[b]].remove(0) =~= Seq::<(u8, u32)>::empty());
        assert(by_symbol(t) =~= seq![p[b]]);
        let m = mix_spec(inputs, weights);
        assert(m[0] == c[b]);
        assert forall|i: int| 0 <= i < c.len() implies (#[trigger] c[i]).weight < c[b].weight || (c[i].weight
            == c[b].weight && c[i].symbol >= c[b].symbol) by {
            assert(!crate::ranking::ranks_before(p[i], p[b]));
        }
    } else {
        assert(p =~= Seq::<(u8, u32)>::empty());
    }
}

pub open spec fn mixer_weights() -> Seq<u32> {
    seq![14u32, 8u32, 5u32, 10u32, 6u32]
}

/// Fixed per-model weights.
pub struct Mixer {
    weights: [u32; 5],
}

impl Mixer {
    pub closed spec fn weights_spec(&self) -> Seq<u32> {
        self.weights@
    }

    pub fn new(weights: [u32; 5]) -> (m: Self)
        ensures
            m.weights_spec() == weights@,
    {
        Mixer { weights }
    }

    /// Adds up the five models' predictions with their weights and keeps the
    /// strongest (ties to the lower byte).
    pub fn combine(&self, inputs: Vec<Vec<WeightedSymbol>>) -> (r: Vec<WeightedSymbol>)
        requires
            inputs@.len() == 5,
        ensures
            r@ == mix_spec(Seq::new(5, |i: int| inputs@[i]@), self.weights_spec()),
    {
        let ghost ins = Seq::new(5, |i: int| inputs@[i]@);
        let mut combined: Vec<WeightedSymbol> = Vec::new();
        let mut index: usize = 0;
        while index < 5
            invariant
                index <= 5,
                inputs@.len() == 5,
                ins == Seq::new(5, |i: int| inputs@[i]@),
                combined@ == combine_fold(ins, self.weights@, index as int),
            decreases 5 - index,
        {
            let weight = self.weights[index];
            let predictions = &inputs[index];
            let ghost ps = predictions@;
            let ghost base = combined@;
            let mut j: usize = 0;
            assert(ps.take(0) =~= Seq::<WeightedSymbol>::empty());
            while j < predictions.len()
                invariant
                    j <= ps.len(),
                    ps == predictions@,
                    combined@ == add_all(base, ps.take(j as int), weight),
                decreases ps.len() - j,
            {
                let p = predictions[j];
                assert(ps.take(j as int + 1).drop_last() =~= ps.take(j as int));
                let w = match p.weight.checked_mul(weight) {
                    Some(v) => v,
                    None => u32::MAX,
                };
                add_weight(&mut combined, p.symbol, w);
                j = j + 1;
            }
            assert(ps.take(ps.len() as int) =~= ps);
            index = index + 1;
        }
        let mut pairs: Vec<(u8, u32)> = Vec::new();
        let mut k: usize = 0;
        while k < combined.len()
            invariant
                k <= combined@.len(),
                pairs@ == to_pairs(combined@).take(k as int),
            decreases combined@.len() - k,
        {
            pairs.push((combined[k].symbol, combined[k].weight));
            k = k + 1;
            assert(pairs@ =~= to_pairs(combined@).take(k as int));
        }
        assert(to_pairs(combined@).take(combined@.len() as int) =~= to_pairs(combined@));
        let top = select_top(pairs, MIXED_CANDIDATES);
        let sorted = sort_by_symbol(top);
        let mut out: Vec<WeightedSymbol> = Vec::new();
        let mut m: usize = 0;
        while m < sorted.len()
            invariant
                m <= sorted@.len(),
                out@ == to_symbols(sorted@).take(m as int),
            decreases sorted@.len() - m,
        {
            out.push(WeightedSymbol { symbol: sorted[m].0, weight: sorted[m].1 });
            m = m + 1;
            assert(out@ =~= to_symbols(sorted@).take(m as int));
        }
        assert(to_symbols(sorted@).take(sorted@.len() as int) =~= to_symbols(sorted@));
        out
    }
}

// ---------------------------------------------------------------------------
// The whole model

/// Everything the five models have learned.
pub struct WikiView {
    pub hist: Seq<u8>,
    pub ppm: ModelView,
    pub state: SyntaxState,
    pub scounts: Seq<CtxView>,
    pub wctxs: Map<u64, CtxView>,
    pub words: Seq<u64>,
    pub current: Seq<u8>,
    pub mdata: Seq<u8>,
    pub mpos: Map<u32, Seq<usize>>,
    pub ccounts: Seq<CtxView>,
}

pub open spec fn wiki_init() -> WikiView {
    WikiView {
        hist: Seq::empty(),
        ppm: crate::byte_ppm::model_init(),
        state: SyntaxState::PlainText,
        scounts: Seq::new(9, |_i: int| ctx_empty()),
        wctxs: Map::empty(),
        words: Seq::empty(),
        current: Seq::empty(),
        mdata: Seq::empty(),
        mpos: Map::empty(),
        ccounts: Seq::new(6, |_i: int| ctx_empty()),
    }
}

/// The five models' predictions.
pub open spec fn wiki_inputs(v: WikiView) -> Seq<Seq<WeightedSymbol>> {
    seq![
        ppm_predict(v.ppm, v.hist),
        struct_predict(v.scounts, v.state),
        word_predict(v.wctxs, word_key(v.words, v.current)),
        match_predict(v.mdata, v.mpos),
        class_predict(v.ccounts, v.state),
    ]
}

/// The mixed candidates the next byte is coded against.
pub open spec fn wiki_predict(v: WikiView) -> Seq<WeightedSymbol> {
    mix_spec(wiki_inputs(v), mixer_weights())
}

/// Everything after byte `s`.
pub open spec fn wiki_observe(v: WikiView, s: u8) -> WikiView {
    let k = word_key(v.words, v.current);
    let si = state_index(v.state);
    let ci = class_index(class_of(v.state, s));
    WikiView {
        hist: history_push(v.hist, s, MAX_ORDER as int),
        ppm: model_observe(v.ppm, v.hist, MAX_ORDER as int, s),
        state: next_state_spec(v.state, v.hist, s),
        scounts: v.scounts.update(si, ctx_observe(v.scounts[si], s)),
        wctxs: v.wctxs.insert(k, ctx_observe(ctx_or_empty(v.wctxs, k), s)),
        words: if is_alnum(s) || v.current.len() == 0 {
            v.words
        } else {
            push_word(v.words, hash_spec(v.current), WORD_HISTORY as int)
        },
        current: if is_alnum(s) {
            v.current.push(lower(s))
        } else if v.current.len() == 0 {
            v.current
        } else {
            Seq::empty()
        },
        mdata: v.mdata.push(s),
        mpos: match_observe_positions(v.mdata.push(s), v.mpos),
        ccounts: v.ccounts.update(ci, ctx_observe(v.ccounts[ci], s)),
    }
}

/// The five models and their mixer.
pub struct WikiMix5Model {
    history: ByteHistory,
    byte_ppm: BytePpmModel,
    struct_state: StructStateModel,
    word: WordModel,
    matcher: MatchModel,
    class: ClassModel,
    mixer: Mixer,
}

impl WikiMix5Model {
    pub closed spec fn view(&self) -> WikiView {
        WikiView {
            hist: self.history.view(),
            ppm: self.byte_ppm.view(),
            state: self.struct_state.state_spec(),
            scounts: self.struct_state.counts_view(),
            wctxs: self.word.ctxs(),
            words: self.word.words(),
            current: self.word.current(),
            mdata: self.matcher.data(),
            mpos: self.matcher.positions(),
            ccounts: self.class.counts_view(),
        }
    }

    pub closed spec fn wf(&self) -> bool {
        &&& self.history.wf()
        &&& self.history.max_len() == MAX_ORDER
        &&& self.byte_ppm.wf()
        &&& self.struct_state.wf()
        &&& self.word.wf()
        &&& self.matcher.wf()
        &&& self.class.wf()
        &&& self.mixer.weights_spec() == mixer_weights()
    }

    pub fn new() -> (m: Self)
        ensures
            m.wf(),
            m.view() == wiki_init(),
    {
        let weights = [14u32, 8u32, 5u32, 10u32, 6u32];
        assert(weights@ =~= mixer_weights());
        WikiMix5Model {
            history: ByteHistory::new(MAX_ORDER),
            byte_ppm: BytePpmModel::new(MAX_ORDER),
            struct_state: StructStateModel::new(),
            word: WordModel::new(WORD_HISTORY),
            matcher: MatchModel::new(MATCH_WINDOW),
            class: ClassModel::new(),
            mixer: Mixer::new(weights),
        }
    }

    /// The mixed candidates for the next byte.
    pub fn predict(&self) -> (r: Vec<WeightedSymbol>)
        requires
            self.wf(),
        ensures
            r@ == wiki_predict(self.view()),
    {
        let state = self.struct_state.state();
        let mut inputs: Vec<Vec<WeightedSymbol>> = Vec::new();
        inputs.push(self.byte_ppm.predict(&self.history));
        inputs.push(self.struct_state.predict(&self.history));
        inputs.push(self.word.predict());
        inputs.push(self.matcher.predict());
        inputs.push(self.class.predict(state));
        let ghost ins = Seq::new(5, |i: int| inputs@[i]@);
        assert(ins =~= wiki_inputs(self.view()));
        self.mixer.combine(inputs)
    }

    /// Updates every model with `symbol`.
    pub fn observe(&mut self, symbol: u8)
        requires
            old(self).wf(),
        ensures
            final(self).wf(),
            final(self).view() == wiki_observe(old(self).view(), symbol),
    {
        let state_before = self.struct_state.state();
        self.byte_ppm.observe(&self.history, symbol);
        self.word.observe(symbol);
        self.matcher.observe(symbol);
        self.class.observe(state_before, symbol);
        self.struct_state.observe(&self.history, symbol);
        self.history.push(symbol);
    }
}

// ---------------------------------------------------------------------------
// The mixed candidates can always be coded

/// Every weight at least 1 and the total at most `max`.
pub open spec fn bounded(l: Seq<WeightedSymbol>, max: int) -> bool {
    &&& forall|i: int| 0 <= i < l.len() ==> #[trigger] l[i].weight >= 1
    &&& weight_sum(l) <= max
}

/// What the model's parts keep well formed.
pub open spec fn wiki_wf(v: WikiView) -> bool {
    &&& model_wf(v.ppm)
    &&& v.scounts.len() == 9
    &&& all_wf(v.scounts)
    &&& v.ccounts.len() == 6
    &&& all_wf(v.ccounts)
    &&& forall|k: u64| #[trigger] v.wctxs.contains_key(k) ==> ctx_wf(v.wctxs[k])
    &&& forall|k: u32| #[trigger] v.mpos.contains_key(k) ==> v.mpos[k].len() <= MATCH_CANDIDATES
}

proof fn lemma_pairs_bounded(v: CtxView, k: int)
    requires
        ctx_wf(v),
    ensures
        top_k(symbol_pairs(v), k).len() <= (if k >= 0 { k } else { 0 }),
        forall|i: int| 0 <= i < top_k(symbol_pairs(v), k).len() ==> 1 <= (#[trigger] top_k(symbol_pairs(v), k)[i]).1 <= 32767,
{
    let p = symbol_pairs(v);
    crate::ranking::lemma_top_k(p, k);
    if k < 0 {
        assert(top_k(p, k) =~= Seq::<(u8, u32)>::empty());
    }
    assert forall|i: int| 0 <= i < top_k(p, k).len() implies 1 <= (#[trigger] top_k(p, k)[i]).1 <= 32767 by {
        let j = choose|j: int| 0 <= j < p.len() && #[trigger] top_k(p, k)[i] == p[j];
        crate::context::lemma_sum_counts_take(v.counts, j, j + 1);
        crate::context::lemma_sum_counts_nonneg(v.counts.take(j));
    }
}

proof fn lemma_add_weight_bounded(l: Seq<WeightedSymbol>, s: u8, w: u32, max: int)
    requires
        bounded(l, max),
    ensures
        bounded(add_weight_spec(l, s, w), max + w),
{
    if w != 0 {
        let i = first_index(l, s);
        crate::candidates::lemma_first_index(l, s);
        crate::candidates::lemma_weight_sum_nonneg(l);
        if i < l.len() {
            let nw = WeightedSymbol { symbol: s, weight: (if l[i].weight + w > u32::MAX { u32::MAX as int } else { l[i].weight + w }) as u32 };
            crate::ppm_match_mix::lemma_weight_sum_update(l, i, nw);
        } else {
            let nw = WeightedSymbol { symbol: s, weight: w };
            assert(l.push(nw).drop_last() =~= l);
        }
    }
}

proof fn lemma_add_preds_bounded(l: Seq<WeightedSymbol>, src: Seq<(u8, u32)>, bonus: u32, max: int)
    requires
        bounded(l, max),
        1 <= bonus <= 22,
        forall|i: int| 0 <= i < src.len() ==> (#[trigger] src[i]).1 <= 32767,
    ensures
        bounded(add_preds(l, src, bonus), max + src.len() * 32789),
    decreases src.len(),
{
    if src.len() > 0 {
        let d = src.drop_last();
        assert forall|i: int| 0 <= i < d.len() implies (#[trigger] d[i]).1 <= 32767 by {
            assert(d[i] == src[i]);
        }
        lemma_add_preds_bounded(l, d, bonus, max);
        assert(src.last() == src[src.len() - 1]);
        lemma_add_weight_bounded(add_preds(l, d, bonus), src.last().0, sat_add32(src.last().1, bonus), max + d.len() * 32789);
    }
}

proof fn lemma_ctx_input_bounded(v: CtxView, k: int, bonus: u32, l: Seq<WeightedSymbol>, max: int)
    requires
        ctx_wf(v),
        0 <= k <= 3,
        1 <= bonus <= 22,
        bounded(l, max),
    ensures
        bounded(add_preds(l, top_k(symbol_pairs(v), k), bonus), max + 3 * 32789),
{
    lemma_pairs_bounded(v, k);
    let t = top_k(symbol_pairs(v), k);
    assert forall|i: int| 0 <= i < t.len() implies (#[trigger] t[i]).1 <= 32767 by {}
    lemma_add_preds_bounded(l, t, bonus, max);
}

proof fn lemma_match_predict_bounded(data: Seq<u8>, ps: Seq<usize>, j: int, acc: Seq<WeightedSymbol>, max: int)
    requires
        bounded(acc, max),
        0 <= j <= ps.len(),
    ensures
        bounded(match_predict_from(data, ps, j, acc), max + 32 * j),
    decreases j,
{
    if j > 0 {
        let p = ps[j - 1] as int;
        if p + MATCH_KEY_LEN >= data.len() {
            lemma_match_predict_bounded(data, ps, j - 1, acc, max);
        } else {
            let w = distance_weight(data.len() - p);
            lemma_add_weight_bounded(acc, data[p + MATCH_KEY_LEN], w, max);
            let acc2 = add_weight_spec(acc, data[p + MATCH_KEY_LEN], w);
            if acc2.len() < 2 {
                lemma_match_predict_bounded(data, ps, j - 1, acc2, max + w);
            }
        }
    }
}

proof fn lemma_add_all_bounded(acc: Seq<WeightedSymbol>, preds: Seq<WeightedSymbol>, mult: u32, max: int, pmax: int)
    requires
        bounded(acc, max),
        bounded(preds, pmax),
        1 <= mult <= 14,
    ensures
        bounded(add_all(acc, preds, mult), max + mult * weight_sum(preds)),
    decreases preds.len(),
{
    crate::candidates::lemma_weight_sum_nonneg(preds);
    if preds.len() > 0 {
        let d = preds.drop_last();
        crate::candidates::lemma_weight_sum_nonneg(d);
        assert forall|i: int| 0 <= i < d.len() implies #[trigger] d[i].weight >= 1 by {
            assert(d[i] == preds[i]);
        }
        lemma_add_all_bounded(acc, d, mult, max, weight_sum(d));
        let last = preds.last();
        assert(last == preds[preds.len() - 1]);
        let w = sat_mul32(last.weight, mult);
        assert(w <= mult * last.weight) by (nonlinear_arith)
            requires
                w == sat_mul32(last.weight, mult),
        ;
        assert(mult * weight_sum(d) + mult * last.weight == mult * weight_sum(preds)) by (nonlinear_arith)
            requires
                weight_sum(preds) == weight_sum(d) + last.weight,
        ;
        assert(w >= 1) by (nonlinear_arith)
            requires
                w == sat_mul32(last.weight, mult),
                last.weight >= 1,
                mult >= 1,
        ;
        lemma_add_weight_bounded(add_all(acc, d, mult), last.symbol, w, max + mult * weight_sum(d));
    }
}

proof fn lemma_combine_bounded(ins: Seq<Seq<WeightedSymbol>>, weights: Seq<u32>, n: int)
    requires
        0 <= n <= ins.len(),
        n <= weights.len(),
        forall|i: int| 0 <= i < ins.len() ==> bounded(#[trigger] ins[i], 200000),
        forall|i: int| 0 <= i < weights.len() ==> 1 <= #[trigger] weights[i] <= 14,
    ensures
        bounded(combine_fold(ins, weights, n), 2800000 * n),
    decreases n,
{
    if n > 0 {
        lemma_combine_bounded(ins, weights, n - 1);
        let x = ins[n - 1];
        let m = weights[n - 1];
        assert(bounded(x, 200000));
        crate::candidates::lemma_weight_sum_nonneg(x);
        lemma_add_all_bounded(combine_fold(ins, weights, n - 1), x, m, 2800000 * (n - 1), weight_sum(x));
        assert(m * weight_sum(x) <= 2800000) by (nonlinear_arith)
            requires
                1 <= m <= 14,
                0 <= weight_sum(x) <= 200000,
        {
        }
    } else {
        assert(weight_sum(Seq::<WeightedSymbol>::empty()) == 0);
    }
}

proof fn lemma_pairs_sum(l: Seq<WeightedSymbol>)
    ensures
        pair_sum(to_pairs(l)) == weight_sum(l),
    decreases l.len(),
{
    if l.len() > 0 {
        lemma_pairs_sum(l.drop_last());
        assert(to_pairs(l).drop_last() =~= to_pairs(l.drop_last()));
    } else {
        assert(to_pairs(l) =~= Seq::<(u8, u32)>::empty());
    }
}

proof fn lemma_symbols_sum(p: Seq<(u8, u32)>)
    ensures
        weight_sum(to_symbols(p)) == pair_sum(p),
    decreases p.len(),
{
    if p.len() > 0 {
        lemma_symbols_sum(p.drop_last());
        assert(to_symbols(p).drop_last() =~= to_symbols(p.drop_last()));
    } else {
        assert(to_symbols(p) =~= Seq::<WeightedSymbol>::empty());
    }
}

/// The mixed candidates of well-formed models have positive weights and a
/// total the coder can take with the escape.
pub proof fn lemma_wiki_codable(v: WikiView)
    requires
        wiki_wf(v),
    ensures
        crate::candidates::candidates_codable(wiki_predict(v), ESCAPE_FREQ),
{
    let ins = wiki_inputs(v);
    let e = Seq::<WeightedSymbol>::empty();
    assert(bounded(e, 0));
    // byte contexts
    let o = found_order(v.ppm, v.hist, min_order(v.hist, MAX_ORDER as int));
    lemma_found_order(v.ppm, v.hist, min_order(v.hist, MAX_ORDER as int));
    let l1 = if o > 0 {
        add_preds(e, top_k(symbol_pairs(v.ppm.ctxs[o - 1][history_key(v.hist, o)]), 3), (o * 3 + 4) as u32)
    } else {
        e
    };
    if o > 0 {
        lemma_ctx_input_bounded(v.ppm.ctxs[o - 1][history_key(v.hist, o)], 3, (o * 3 + 4) as u32, e, 0);
    }
    assert(bounded(l1, 3 * 32789int));
    lemma_ctx_input_bounded(v.ppm.order0, 2, 2, l1, 3 * 32789int);
    assert(bounded(ins[0], 200000));
    // markup state, words, classes
    let si = state_index(v.state);
    assert(ctx_wf(v.scounts[si]));
    lemma_ctx_input_bounded(v.scounts[si], 3, 5, e, 0);
    assert(bounded(ins[1], 200000));
    let k = word_key(v.words, v.current);
    if v.wctxs.contains_key(k) {
        lemma_ctx_input_bounded(v.wctxs[k], 2, 4, e, 0);
    }
    assert(bounded(ins[2], 200000));
    let ci = class_index(class_for_state(v.state));
    assert(ctx_wf(v.ccounts[ci]));
    lemma_ctx_input_bounded(v.ccounts[ci], 2, 4, e, 0);
    assert(bounded(ins[4], 200000));
    // matches
    if v.mdata.len() >= MATCH_KEY_LEN {
        let key = key4(v.mdata, v.mdata.len() - MATCH_KEY_LEN);
        if v.mpos.contains_key(key) {
            lemma_match_predict_bounded(v.mdata, v.mpos[key], v.mpos[key].len() as int, e, 0);
        }
    }
    assert(bounded(ins[3], 200000));
    let w = mixer_weights();
    assert forall|i: int| 0 <= i < ins.len() implies bounded(#[trigger] ins[i], 200000) by {}
    lemma_combine_bounded(ins, w, 5);
    let c = combine_fold(ins, w, 5);
    let p = to_pairs(c);
    lemma_pairs_sum(c);
    crate::ranking::lemma_top_k(p, MIXED_CANDIDATES as int);
    let t = top_k(p, MIXED_CANDIDATES as int);
    crate::ranking::lemma_by_symbol(t);
    let b = by_symbol(t);
    lemma_symbols_sum(b);
    let r = to_symbols(b);
    assert forall|i: int| 0 <= i < r.len() implies #[trigger] r[i].weight >= 1 by {
        let j1 = choose|j: int| 0 <= j < t.len() && #[trigger] b[i] == t[j];
        let j2 = choose|j: int| 0 <= j < p.len() && #[trigger] t[j1] == p[j];
        assert(c[j2].weight >= 1);
    }
}

proof fn lemma_found_order(m: ModelView, h: Seq<u8>, order: int)
    requires
        model_wf(m),
        order <= MAX_ORDER,
    ensures
        0 <= found_order(m, h, order) <= (if order > 0 { order } else { 0 }),
        found_order(m, h, order) > 0 ==> m.ctxs[found_order(m, h, order) - 1].contains_key(
            history_key(h, found_order(m, h, order)),
        ) && ctx_wf(m.ctxs[found_order(m, h, order) - 1][history_key(h, found_order(m, h, order))]),
    decreases order,
{
    if order > 0 && !m.ctxs[order - 1].contains_key(history_key(h, order)) {
        lemma_found_order(m, h, order - 1);
    }
}

/// The model after any input stays well formed.
proof fn lemma_wiki_observe_wf(v: WikiView, s: u8)
    requires
        wiki_wf(v),
    ensures
        wiki_wf(wiki_observe(v, s)),
{
    let v2 = wiki_observe(v, s);
    crate::byte_ppm::lemma_model_observe_wf(v.ppm, v.hist, MAX_ORDER as int, s);
    let si = state_index(v.state);
    crate::context::lemma_observe_wf(v.scounts[si], s);
    assert forall|i: int| 0 <= i < v2.scounts.len() implies ctx_wf(#[trigger] v2.scounts[i]) by {
        if i != si {
            assert(v2.scounts[i] == v.scounts[i]);
        }
    }
    let ci = class_index(class_of(v.state, s));
    crate::context::lemma_observe_wf(v.ccounts[ci], s);
    assert forall|i: int| 0 <= i < v2.ccounts.len() implies ctx_wf(#[trigger] v2.ccounts[i]) by {
        if i != ci {
            assert(v2.ccounts[i] == v.ccounts[i]);
        }
    }
    let k = word_key(v.words, v.current);
    if !v.wctxs.contains_key(k) {
        crate::context::lemma_empty_wf();
    }
    crate::context::lemma_observe_wf(ctx_or_empty(v.wctxs, k), s);
    assert forall|kk: u64| #[trigger] v2.wctxs.contains_key(kk) implies ctx_wf(v2.wctxs[kk]) by {
        if kk != k {
            assert(v.wctxs.contains_key(kk));
        }
    }
    let d = v.mdata.push(s);
    if d.len() >= MATCH_KEY_LEN {
        let position = d.len() - MATCH_KEY_LEN;
        let key = key4(d, position);
        let q = mpositions_of(v.mpos, key).push(position as usize);
        crate::ppm_match_mix::lemma_trim_count(q, MATCH_CANDIDATES as int);
        crate::ppm_match_mix::lemma_trim_window(crate::ppm_match_mix::trim_count(q, MATCH_CANDIDATES as int), position, MATCH_WINDOW as int);
        assert forall|kk: u32| #[trigger] v2.mpos.contains_key(kk) implies v2.mpos[kk].len() <= MATCH_CANDIDATES by {
            if kk != key {
                assert(v.mpos.contains_key(kk));
            }
        }
    }
}

/// The model after the bytes `data`.
pub open spec fn wiki_after(data: Seq<u8>) -> WikiView
    decreases data.len(),
{
    if data.len() == 0 {
        wiki_init()
    } else {
        wiki_observe(wiki_after(data.drop_last()), data.last())
    }
}

proof fn lemma_wiki_after_wf(data: Seq<u8>)
    ensures
        wiki_wf(wiki_after(data)),
    decreases data.len(),
{
    if data.len() > 0 {
        lemma_wiki_after_wf(data.drop_last());
        lemma_wiki_observe_wf(wiki_after(data.drop_last()), data.last());
    } else {
        crate::context::lemma_empty_wf();
        let v = wiki_init();
        assert(model_wf(v.ppm)) by {
            assert(v.ppm.ctxs =~= Seq::new(crate::byte_ppm::MAX_ORDER as nat, |_i: int| Map::<u64, CtxView>::empty()));
        }
    }
}


// ---------------------------------------------------------------------------
// Coding bytes against the mixed candidates

/// Codes `symbol` against the mixed candidates: a listed byte takes its
/// share of the total, any other byte escapes and is then coded flat among
/// all 256 values.
fn encode_symbol(symbol: u8, candidates: &[WeightedSymbol], encoder: &mut ArithmeticEncoder) -> (r: Result<(), CodecError>)
    requires
        candidates_codable(candidates@, ESCAPE_FREQ),
        old(encoder).wf(),
    ensures
        r is Ok ==> final(encoder).wf(),
        match enc_seq(old(encoder).view(), candidate_ranges(candidates@, symbol, ESCAPE_FREQ, 256)) {
            Some(s) => r is Ok && final(encoder).view() == s,
            None => r == Err::<(), CodecError>(CodecError::PendingOverflow),
        },
{
    encode_candidates(symbol, candidates, ESCAPE_FREQ, 256, encoder)
}

/// Decodes a byte against the mixed candidates, mirroring `encode_symbol`.
fn decode_symbol(
    candidates: &[WeightedSymbol],
    decoder: &mut ArithmeticDecoder,
    Ghost(rs): Ghost<Seq<CodeRange>>,
    Ghost(k): Ghost<int>,
    Ghost(s): Ghost<u8>,
) -> (r: Result<u8, CodecError>)
    requires
        candidates_codable(candidates@, ESCAPE_FREQ),
        old(decoder).wf(),
    ensures
        final(decoder).wf(),
        final(decoder).data() == old(decoder).data(),
        r == Ok::<u8, CodecError>(decode_outcome(candidates@, ESCAPE_FREQ, 256, old(decoder).view(), old(decoder).data()).0),
        final(decoder).view() == decode_outcome(candidates@, ESCAPE_FREQ, 256, old(decoder).view(), old(decoder).data()).1,
        ({
            let sr = candidate_ranges(candidates@, s, ESCAPE_FREQ, 256);
            synced(old(decoder).view(), old(decoder).data(), rs, k) && k + sr.len() <= rs.len()
                && rs.subrange(k, k + sr.len()) == sr ==> r == Ok::<u8, CodecError>(s) && synced(
                final(decoder).view(),
                final(decoder).data(),
                rs,
                k + sr.len(),
            )
        }),
{
    decode_candidates(candidates, ESCAPE_FREQ, 256, decoder, Ghost(rs), Ghost(k), Ghost(s))
}

/// The ranges that code byte `s` after the model state `v`.
pub open spec fn symbol_ranges(v: WikiView, s: u8) -> Seq<CodeRange> {
    candidate_ranges(wiki_predict(v), s, ESCAPE_FREQ, 256)
}

/// Every range the compressor codes for `data`.
pub open spec fn all_ranges(data: Seq<u8>) -> Seq<CodeRange>
    decreases data.len(),
{
    if data.len() == 0 {
        Seq::empty()
    } else {
        let d = data.drop_last();
        all_ranges(d) + symbol_ranges(wiki_after(d), data.last())
    }
}

/// `archive` is what `compress` makes of `data`: the tag, the length as
/// eight little-endian bytes, and the coder's output.
pub open spec fn is_archive_of(archive: Seq<u8>, data: Seq<u8>) -> bool {
    &&& archive.len() >= 12
    &&& archive.subrange(0, 4) == magic_spec()
    &&& archive.subrange(4, 12) == le_bytes_u64(data.len() as u64)
    &&& data.len() <= u64::MAX
    &&& enc_run(all_ranges(data)) is Some
    &&& bytes_to_bits(archive.subrange(12, archive.len() as int)) == coded_bits(all_ranges(data))
}

/// The coder's deferred-bit counter stays within the machine word.
pub open spec fn compress_ok(data: Seq<u8>) -> bool {
    &&& enc_run(all_ranges(data)) is Some
    &&& enc_run(all_ranges(data)).unwrap().pending < usize::MAX
}

proof fn lemma_symbol_codable(data: Seq<u8>)
    ensures
        candidates_codable(wiki_predict(wiki_after(data)), ESCAPE_FREQ),
{
    lemma_wiki_after_wf(data);
    lemma_wiki_codable(wiki_after(data));
}

proof fn lemma_all_ranges_codable(data: Seq<u8>)
    ensures
        forall|i: int| 0 <= i < all_ranges(data).len() ==> range_codable(#[trigger] all_ranges(data)[i]),
    decreases data.len(),
{
    if data.len() > 0 {
        let d = data.drop_last();
        lemma_all_ranges_codable(d);
        lemma_symbol_codable(d);
        let a = all_ranges(d);
        let sr = symbol_ranges(wiki_after(d), data.last());
        lemma_candidate_ranges(wiki_predict(wiki_after(d)), data.last(), ESCAPE_FREQ, 256);
        assert forall|i: int| 0 <= i < (a + sr).len() implies range_codable(#[trigger] (a + sr)[i]) by {
            if i >= a.len() {
                assert((a + sr)[i] == sr[i - a.len()]);
            } else {
                assert((a + sr)[i] == a[i]);
            }
        }
    }
}

proof fn lemma_all_ranges_prefix(data: Seq<u8>, j: int)
    requires
        0 <= j <= data.len(),
    ensures
        all_ranges(data.take(j)).len() <= all_ranges(data).len(),
        all_ranges(data).take(all_ranges(data.take(j)).len() as int) == all_ranges(data.take(j)),
    decreases data.len() - j,
{
    if j == data.len() {
        assert(data.take(j) =~= data);
        assert(all_ranges(data).take(all_ranges(data).len() as int) =~= all_ranges(data));
    } else {
        lemma_all_ranges_prefix(data, j + 1);
        let a = all_ranges(data.take(j));
        let b = all_ranges(data.take(j + 1));
        assert(data.take(j + 1).drop_last() =~= data.take(j));
        assert(all_ranges(data).take(a.len() as int) =~= b.take(a.len() as int));
        assert(b.take(a.len() as int) =~= a);
    }
}

/// Compresses `data`: `WMX5`, the length, then every byte coded against
/// the mixed prediction of the five models.
#[verifier::spinoff_prover]
#[verifier::rlimit(40)]
pub fn compress(data: &[u8]) -> (r: Result<Vec<u8>, CodecError>)
    ensures
        r is Ok <==> compress_ok(data@),
        r is Ok ==> is_archive_of(r->Ok_0@, data@),
        r is Err ==> r == Err::<Vec<u8>, CodecError>(CodecError::PendingOverflow),
{
    let mut out: Vec<u8> = Vec::new();
    let tag = magic();
    out.push(tag[0]);
    out.push(tag[1]);
    out.push(tag[2]);
    out.push(tag[3]);
    push_u64_le(&mut out, data.len() as u64);
    let ghost header = out@;
    assert(header.subrange(0, 4) =~= magic_spec());
    assert(header.subrange(4, 12) =~= le_bytes_u64(data@.len() as u64));
    let mut model = WikiMix5Model::new();
    let mut encoder = ArithmeticEncoder::new();
    assert(data@.take(0) =~= Seq::<u8>::empty());
    let mut i: usize = 0;
    while i < data.len()
        invariant
            i <= data@.len(),
            model.wf(),
            model.view() == wiki_after(data@.take(i as int)),
            encoder.wf(),
            enc_run(all_ranges(data@.take(i as int))) == Some(encoder.view()),
            out@ == header,
        decreases data@.len() - i,
    {
        let byte = data[i];
        let candidates = model.predict();
        proof {
            lemma_take_step(data@, i as int);
            lemma_symbol_codable(data@.take(i as int));
            lemma_enc_run_append(all_ranges(data@.take(i as int)), symbol_ranges(model.view(), byte));
        }
        match encode_symbol(byte, candidates.as_slice(), &mut encoder) {
            Ok(()) => {},
            Err(e) => {
                proof {
                    lemma_all_ranges_prefix(data@, i as int + 1);
                    let a = all_ranges(data@.take(i as int + 1));
                    let full = all_ranges(data@);
                    assert(full =~= a + full.subrange(a.len() as int, full.len() as int));
                    lemma_enc_run_append(a, full.subrange(a.len() as int, full.len() as int));
                }
                return Err(e);
            },
        }
        model.observe(byte);
        i = i + 1;
    }
    assert(data@.take(data@.len() as int) =~= data@);
    match encoder.finish() {
        Ok(payload) => {
            let ghost p = payload@;
            let mut k: usize = 0;
            while k < payload.len()
                invariant
                    k <= payload@.len(),
                    p == payload@,
                    out@ == header + p.take(k as int),
                decreases payload@.len() - k,
            {
                out.push(payload[k]);
                k = k + 1;
                assert(out@ =~= header + p.take(k as int));
            }
            assert(p.take(p.len() as int) =~= p);
            assert(out@.subrange(0, 4) =~= magic_spec());
            assert(out@.subrange(4, 12) =~= le_bytes_u64(data@.len() as u64));
            assert(out@.subrange(12, out@.len() as int) =~= p);
            Ok(out)
        },
        Err(e) => Err(e),
    }
}


/// The first `n` bytes decoded from `payload`, and the decoder's state
/// after them: each byte is decoded against the model's prediction after
/// the bytes before it.
pub open spec fn decoded(payload: Seq<u8>, n: nat) -> (Seq<u8>, DecState)
    decreases n,
{
    if n == 0 {
        (Seq::empty(), dec_init(payload))
    } else {
        let (prev, d) = decoded(payload, (n - 1) as nat);
        let (b, d2) = decode_outcome(wiki_predict(wiki_after(prev)), ESCAPE_FREQ, 256, d, payload);
        (prev.push(b), d2)
    }
}

proof fn lemma_decoded_len(payload: Seq<u8>, n: nat)
    ensures
        decoded(payload, n).0.len() == n,
    decreases n,
{
    if n > 0 {
        lemma_decoded_len(payload, (n - 1) as nat);
    }
}

/// The ranges of byte `i` of `data` stand in `all_ranges(data)` right after
/// those of the bytes before it.
proof fn lemma_next_ranges(data: Seq<u8>, i: int)
    requires
        0 <= i < data.len(),
    ensures
        ({
            let k = all_ranges(data.take(i)).len() as int;
            let sr = symbol_ranges(wiki_after(data.take(i)), data[i]);
            &&& k + sr.len() <= all_ranges(data).len()
            &&& all_ranges(data).subrange(k, k + sr.len()) == sr
        }),
{
    let rs = all_ranges(data);
    let k = all_ranges(data.take(i)).len() as int;
    lemma_take_step(data, i);
    lemma_all_ranges_prefix(data, i + 1);
    let a = all_ranges(data.take(i));
    let sr = symbol_ranges(wiki_after(data.take(i)), data[i]);
    assert(all_ranges(data.take(i + 1)) == a + sr);
    assert(rs.subrange(k, k + sr.len()) =~= sr) by {
        assert forall|j: int| 0 <= j < sr.len() implies rs.subrange(k, k + sr.len())[j] == sr[j] by {
            assert(rs.take((a + sr).len() as int)[k + j] == (a + sr)[k + j]);
        }
    }
}

/// Restores the bytes of a `WMX5` archive.
#[verifier::spinoff_prover]
#[verifier::rlimit(60)]
pub fn decompress(archive: &[u8]) -> (r: Result<Vec<u8>, CodecError>)
    ensures
        archive@.len() < 4 ==> r == Err::<Vec<u8>, CodecError>(CodecError::UnexpectedEof),
        archive@.len() >= 4 && archive@.subrange(0, 4) != magic_spec() ==> r == Err::<
            Vec<u8>,
            CodecError,
        >(CodecError::InvalidMagic),
        archive@.len() >= 4 && archive@.subrange(0, 4) == magic_spec() && archive@.len() < 12
            ==> r == Err::<Vec<u8>, CodecError>(CodecError::UnexpectedEof),
        archive@.len() >= 12 && archive@.subrange(0, 4) == magic_spec() ==> r is Ok && r->Ok_0@ == decoded(
            archive@.subrange(12, archive@.len() as int),
            le_u64(archive@.subrange(4, 12)) as nat,
        ).0,
        r is Ok ==> archive@.len() >= 12 && r->Ok_0@.len() == le_u64(archive@.subrange(4, 12)),
        forall|d: Seq<u8>| is_archive_of(archive@, d) ==> r is Ok && r->Ok_0@ == d,
{
    if archive.len() < 4 {
        return Err(CodecError::UnexpectedEof);
    }
    let tag = magic();
    if archive[0] != tag[0] || archive[1] != tag[1] || archive[2] != tag[2] || archive[3] != tag[3] {
        assert(archive@.subrange(0, 4) != magic_spec()) by {
            if archive@.subrange(0, 4) == magic_spec() {
                assert(archive@.subrange(0, 4)[0] == archive@[0]);
                assert(archive@.subrange(0, 4)[1] == archive@[1]);
                assert(archive@.subrange(0, 4)[2] == archive@[2]);
                assert(archive@.subrange(0, 4)[3] == archive@[3]);
            }
        }
        return Err(CodecError::InvalidMagic);
    }
    assert(archive@.subrange(0, 4) =~= magic_spec());
    let expected_len = match read_u64(archive, 4) {
        Some(v) => v,
        None => {
            return Err(CodecError::UnexpectedEof);
        },
    };
    let payload = vstd::slice::slice_subrange(archive, 12, archive.len());
    let ghost cond = exists|d: Seq<u8>| is_archive_of(archive@, d);
    let ghost d = choose|d: Seq<u8>| is_archive_of(archive@, d);
    let ghost rs = all_ranges(d);
    let mut model = WikiMix5Model::new();
    let mut decoder = ArithmeticDecoder::new(payload);
    let mut restored: Vec<u8> = Vec::new();
    proof {
        if cond {
            lemma_le_u64_roundtrip(d.len() as u64);
            lemma_all_ranges_codable(d);
            assert(d.take(0) =~= Seq::<u8>::empty());
            assert(rs.take(0) =~= Seq::<CodeRange>::empty());
        }
    }
    while (restored.len() as u64) < expected_len
        invariant
            archive@.len() >= 12,
            archive@.subrange(0, 4) == magic_spec(),
            cond == exists|d: Seq<u8>| is_archive_of(archive@, d),
            restored@.len() <= expected_len,
            expected_len == le_u64(archive@.subrange(4, 12)),
            model.wf(),
            model.view() == wiki_after(restored@),
            decoder.wf(),
            decoder.data() == payload@,
            payload@ == archive@.subrange(12, archive@.len() as int),
            rs == all_ranges(d),
            cond ==> is_archive_of(archive@, d),
            cond ==> expected_len == d.len(),
            cond ==> restored@ == d.take(restored@.len() as int) && synced(
                decoder.view(),
                payload@,
                rs,
                all_ranges(restored@).len() as int,
            ),
            restored@ == decoded(payload@, restored@.len()).0,
            decoder.view() == decoded(payload@, restored@.len()).1,
        decreases expected_len - restored@.len(),
    {
        let i = restored.len();
        let ghost s = d[i as int];
        let ghost k = all_ranges(restored@).len() as int;
        let candidates = model.predict();
        proof {
            lemma_symbol_codable(restored@);
            if cond {
                lemma_next_ranges(d, i as int);
            }
        }
        let byte = match decode_symbol(candidates.as_slice(), &mut decoder, Ghost(rs), Ghost(k), Ghost(s)) {
            Ok(b) => b,
            Err(e) => {
                return Err(e);
            },
        };
        let ghost before = restored@;
        restored.push(byte);
        proof {
            assert(restored@.drop_last() =~= before);
            lemma_decoded_len(payload@, before.len());
            assert(restored@ == decoded(payload@, restored@.len()).0);
            if cond {
                assert(restored@ =~= d.take(i as int + 1));
            }
        }
        model.observe(byte);
    }
    proof {
        lemma_decoded_len(payload@, restored@.len());
        if cond {
            assert(restored@ =~= d);
            assert forall|d2: Seq<u8>| is_archive_of(archive@, d2) implies d2 == d by {
                lemma_archive_unique(archive@, d, d2);
            }
        }
    }
    Ok(restored)
}

/// Two inputs never produce the same archive.
pub proof fn lemma_archive_unique(archive: Seq<u8>, d1: Seq<u8>, d2: Seq<u8>)
    requires
        is_archive_of(archive, d1),
        is_archive_of(archive, d2),
    ensures
        d1 == d2,
{
    lemma_le_u64_roundtrip(d1.len() as u64);
    lemma_le_u64_roundtrip(d2.len() as u64);
    assert(d1.take(0) =~= d2.take(0));
    lemma_unique_from(archive, d1, d2, 0);
}

#[verifier::rlimit(60)]
proof fn lemma_unique_from(archive: Seq<u8>, d1: Seq<u8>, d2: Seq<u8>, i: int)
    requires
        is_archive_of(archive, d1),
        is_archive_of(archive, d2),
        d1.len() == d2.len(),
        0 <= i <= d1.len(),
        d1.take(i) == d2.take(i),
    ensures
        d1 == d2,
    decreases d1.len() - i,
{
    if i == d1.len() {
        assert(d1 =~= d1.take(i));
        assert(d2 =~= d2.take(i));
    } else if d1[i] == d2[i] {
        assert(d1.take(i + 1) =~= d1.take(i).push(d1[i]));
        assert(d2.take(i + 1) =~= d2.take(i).push(d2[i]));
        lemma_unique_from(archive, d1, d2, i + 1);
    } else {
        let p = d1.take(i);
        let c = wiki_predict(wiki_after(p));
        let a = d1[i];
        let b = d2[i];
        lemma_symbol_codable(p);
        let j = lemma_candidate_ranges_diverge(c, a, b, ESCAPE_FREQ, 256);
        let ra = symbol_ranges(wiki_after(p), a);
        let rb = symbol_ranges(wiki_after(p), b);
        let pre = all_ranges(p);
        let k = pre.len() as int;
        let rs1 = all_ranges(d1);
        let rs2 = all_ranges(d2);
        lemma_all_ranges_prefix(d1, i + 1);
        lemma_all_ranges_prefix(d2, i + 1);
        lemma_take_step(d1, i);
        lemma_take_step(d2, i);
        assert(all_ranges(d1.take(i + 1)) == pre + ra);
        assert(all_ranges(d2.take(i + 1)) == pre + rb);
        assert(rs1.take(k + j) =~= pre + ra.take(j)) by {
            assert(rs1.take((pre + ra).len() as int) == pre + ra);
            assert forall|x: int| 0 <= x < k + j implies rs1.take(k + j)[x] == (pre + ra.take(j))[x] by {
                assert(rs1.take((pre + ra).len() as int)[x] == (pre + ra)[x]);
            }
        }
        assert(rs2.take(k + j) =~= pre + rb.take(j)) by {
            assert(rs2.take((pre + rb).len() as int) == pre + rb);
            assert forall|x: int| 0 <= x < k + j implies rs2.take(k + j)[x] == (pre + rb.take(j))[x] by {
                assert(rs2.take((pre + rb).len() as int)[x] == (pre + rb)[x]);
            }
        }
        assert(rs1[k + j] == ra[j]) by {
            assert(rs1.take((pre + ra).len() as int)[k + j] == (pre + ra)[k + j]);
        }
        assert(rs2[k + j] == rb[j]) by {
            assert(rs2.take((pre + rb).len() as int)[k + j] == (pre + rb)[k + j]);
        }
        let payload = archive.subrange(12, archive.len() as int);
        lemma_all_ranges_codable(d1);
        lemma_all_ranges_codable(d2);
        crate::arith::lemma_decode_finds_range(rs1, payload, k + j);
        crate::arith::lemma_decode_finds_range(rs2, payload, k + j);
        let t = dec_target(dec_run(payload, rs1.take(k + j)), ra[j].total as int);
        assert(in_range(t, ra[j]) && in_range(t, rb[j]));
        assert(ranges_overlap(ra[j], rb[j]));
    }
}

} // verus!
