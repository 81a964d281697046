//! The match model: earlier positions whose preceding bytes hash like the
//! last four bytes predict what came after them.  On its own it codes each
//! byte as "one of the predicted bytes" (with weights from match length and
//! recency) or an escape to a flat choice; inside the mixing codec it also
//! offers bit predictions.
use vstd::prelude::*;
use std::collections::{HashMap, VecDeque};
use crate::arith::{ArithmeticEncoder, ArithmeticDecoder, CodeRange, DecState, dec_init, code_range, enc_seq, enc_run, dec_step, dec_run, dec_target, in_range, range_codable, synced, coded_bits, QUARTER, lemma_enc_seq_append, lemma_enc_seq_one, lemma_enc_run_append, lemma_synced_step};
use crate::bits::{bytes_to_bits, le_bytes_u64, le_u64, push_u64_le, read_u64, lemma_le_u64_roundtrip};
use crate::byte_ppm::{lemma_take_step, ranges_overlap};
use crate::candidates::{WeightedSymbol, weight_sum, first_index, lemma_first_index, lemma_weight_sum_take, lemma_weight_sum_nonneg, target_index, lemma_target_index};
use crate::error::CodecError;
use crate::context::{prefix_match, bit_at, byte_matches_prefix, next_bit};
use crate::hybrid_ppm::{HybridView, OrderCounts, bit_predictions_spec, byte_predictions_spec, hybrid_init, hybrid_observe, shifted};

verus! {

broadcast use vstd::std_specs::hash::group_hash_axioms;

pub const MATCH_HASH_LEN: usize = 4;
pub const MATCH_MAX_CANDIDATES: usize = 8;
pub const MATCH_WINDOW: usize = 32768;
pub const MATCH_MAX_LOOKAHEAD: usize = 64;
pub const MATCH_ESCAPE_WEIGHT: u32 = 16;

pub open spec fn magic_spec() -> Seq<u8> {
    seq![80u8, 77u8, 77u8, 50u8]
}

pub open spec fn magic_match_only_spec() -> Seq<u8> {
    seq![80u8, 77u8, 65u8, 84u8]
}

pub open spec fn marker_spec() -> Seq<u8> {
    seq![77u8, 66u8, 89u8, 49u8]
}

/// The archive tag `PMM2` of the mixing codec.
pub fn magic() -> (m: [u8; 4])
    ensures
        m@ == magic_spec(),
{
    let m = [80u8, 77u8, 77u8, 50u8];
    assert(m@ =~= magic_spec());
    m
}

/// The archive tag `PMAT` of the match-only codec.
pub fn magic_match_only() -> (m: [u8; 4])
    ensures
        m@ == magic_match_only_spec(),
{
    let m = [80u8, 77u8, 65u8, 84u8];
    assert(m@ =~= magic_match_only_spec());
    m
}

/// The tag `MBY1` that marks a byte-coded match-only payload.
pub fn match_byte_marker() -> (m: [u8; 4])
    ensures
        m@ == marker_spec(),
{
    let m = [77u8, 66u8, 89u8, 49u8];
    assert(m@ =~= marker_spec());
    m
}

// ---------------------------------------------------------------------------
// Match scoring

/// The score of a match: its length beyond the hash (plus one, at most 64)
/// times a recency factor.
pub open spec fn match_weight_spec(length: int, distance: int) -> u32 {
    let extra = if length > MATCH_HASH_LEN { length - MATCH_HASH_LEN } else { 0 };
    let length_score = if extra + 1 < MATCH_MAX_LOOKAHEAD { extra + 1 } else { MATCH_MAX_LOOKAHEAD as int };
    let recency = if 1 <= distance <= 64 {
        25int
    } else if 65 <= distance <= 512 {
        18
    } else if 513 <= distance <= 4096 {
        13
    } else {
        9
    };
    (length_score * recency) as u32
}

/// The score of a match of `length` bytes `distance` back.
pub fn match_weight(length: usize, distance: usize) -> (w: u32)
    ensures
        w == match_weight_spec(length as int, distance as int),
        1 <= w <= 1600,
{
    let extra = if length > MATCH_HASH_LEN { length - MATCH_HASH_LEN } else { 0 };
    let length_score: u32 = if extra + 1 < MATCH_MAX_LOOKAHEAD { (extra + 1) as u32 } else { MATCH_MAX_LOOKAHEAD as u32 };
    let recency: u32 = if 1 <= distance && distance <= 64 {
        25
    } else if 65 <= distance && distance <= 512 {
        18
    } else if 513 <= distance && distance <= 4096 {
        13
    } else {
        9
    };
    length_score * recency
}

/// How far the bytes from `current` repeat those from `candidate` (the copy
/// may overlap), counting from `k`, up to 64.
pub open spec fn match_length_from(data: Seq<u8>, candidate: int, current: int, k: int) -> int
    decreases MATCH_MAX_LOOKAHEAD - k,
{
    if 0 <= k < MATCH_MAX_LOOKAHEAD && current + k < data.len() && candidate < current
        && data[candidate + k % (current - candidate)] == data[current + k] {
        match_length_from(data, candidate, current, k + 1)
    } else {
        k
    }
}

/// How far the bytes from `current` repeat those from `candidate`.
pub fn match_length(data: &Vec<u8>, candidate: usize, current: usize) -> (n: usize)
    requires
        candidate < current <= data@.len(),
    ensures
        n == match_length_from(data@, candidate as int, current as int, 0),
        n <= MATCH_MAX_LOOKAHEAD,
{
    let distance = current - candidate;
    let mut length: usize = 0;
    while length < MATCH_MAX_LOOKAHEAD && length < data.len() - current
        && data[candidate + (length % distance)] == data[current + length]
        invariant
            candidate < current <= data@.len(),
            distance == current - candidate,
            length <= MATCH_MAX_LOOKAHEAD,
            match_length_from(data@, candidate as int, current as int, length as int)
                == match_length_from(data@, candidate as int, current as int, 0),
        decreases MATCH_MAX_LOOKAHEAD - length,
    {
        length = length + 1;
    }
    length
}

/// The hash of the `len` bytes at `position`, FNV-1a over 32 bits.
pub open spec fn match_key_spec(data: Seq<u8>, position: int, len: int) -> u32
    decreases len,
{
    if len <= 0 {
        0x811c9dc5u32
    } else {
        let prev = match_key_spec(data, position, len - 1);
        (prev ^ (data[position + len - 1] as u32)).wrapping_mul(0x0100_0193u32)
    }
}

/// The hash of the `len` bytes at `position`.
pub fn match_key_at(data: &Vec<u8>, position: usize, len: usize) -> (k: u32)
    requires
        position + len <= data@.len(),
    ensures
        k == match_key_spec(data@, position as int, len as int),
{
    let mut key: u32 = 0x811c9dc5;
    let mut i: usize = 0;
    while i < len
        invariant
            position + len <= data.len(),
            i <= len,
            key == match_key_spec(data@, position as int, i as int),
        decreases len - i,
    {
        key = key ^ (data[position + i] as u32);
        key = key.wrapping_mul(0x0100_0193);
        i = i + 1;
    }
    key
}

// ---------------------------------------------------------------------------
// The model

/// A predicted byte and the score of the match behind it.
#[derive(Clone, Copy, Debug, PartialEq, Eq, Structural)]
pub struct MatchCandidate {
    pub symbol: u8,
    pub weight: u32,
}

/// What the match model knows: the bytes so far, the recent positions of
/// each hash, and the current predictions.
pub struct MatchView {
    pub data: Seq<u8>,
    pub positions: Map<u32, Seq<usize>>,
    pub cands: Seq<MatchCandidate>,
    pub syms: Seq<WeightedSymbol>,
}

/// Keeps at most the `max` newest positions.
pub open spec fn trim_count(q: Seq<usize>, max: int) -> Seq<usize>
    decreases q.len(),
{
    if q.len() > max && q.len() > 0 {
        trim_count(q.drop_first(), max)
    } else {
        q
    }
}

/// Drops positions more than `window` before `position`.
pub open spec fn trim_window(q: Seq<usize>, position: int, window: int) -> Seq<usize>
    decreases q.len(),
{
    if q.len() > 0 && (if position >= q[0] { position - q[0] } else { 0 }) > window {
        trim_window(q.drop_first(), position, window)
    } else {
        q
    }
}

/// The candidate a recorded position offers, if any.
pub open spec fn candidate_at(data: Seq<u8>, candidate: int, suffix_start: int, window: int, hash_len: int) -> Option<
    MatchCandidate,
> {
    if candidate >= suffix_start {
        None
    } else {
        let distance = suffix_start - candidate;
        if distance == 0 || distance > window {
            None
        } else {
            let length = match_length_from(data, candidate, suffix_start, 0);
            if length < hash_len {
                None
            } else {
                Some(
                    MatchCandidate {
                        symbol: data[candidate + length % distance],
                        weight: match_weight_spec(length, distance),
                    },
                )
            }
        }
    }
}

/// The candidates of the positions `ps`, newest first.
pub open spec fn candidates_of(data: Seq<u8>, ps: Seq<usize>, suffix_start: int, window: int, hash_len: int) -> Seq<
    MatchCandidate,
>
    decreases ps.len(),
{
    if ps.len() == 0 {
        Seq::empty()
    } else {
        let rest = candidates_of(data, ps.drop_last(), suffix_start, window, hash_len);
        match candidate_at(data, ps.last() as int, suffix_start, window, hash_len) {
            Some(c) => seq![c] + rest,
            None => rest,
        }
    }
}

/// Adds `w` to the weight of `s` in `l`, or appends it.
pub open spec fn add_weight_spec(l: Seq<WeightedSymbol>, s: u8, w: u32) -> Seq<WeightedSymbol> {
    let i = first_index(l, s);
    if i < l.len() {
        l.update(i, WeightedSymbol { symbol: s, weight: (if l[i].weight + w > u32::MAX { u32::MAX as int } else { l[i].weight + w }) as u32 })
    } else {
        l.push(WeightedSymbol { symbol: s, weight: w })
    }
}

/// The candidates merged by byte, in order of first appearance.
pub open spec fn merge_candidates(cs: Seq<MatchCandidate>) -> Seq<WeightedSymbol>
    decreases cs.len(),
{
    if cs.len() == 0 {
        Seq::empty()
    } else {
        add_weight_spec(merge_candidates(cs.drop_last()), cs.last().symbol, cs.last().weight)
    }
}

pub open spec fn positions_of(m: Map<u32, Seq<usize>>, k: u32) -> Seq<usize> {
    if m.contains_key(k) {
        m[k]
    } else {
        Seq::empty()
    }
}

/// The predictions for the bytes `data` with recorded `positions`.
pub open spec fn refresh_spec(data: Seq<u8>, positions: Map<u32, Seq<usize>>, window: int, hash_len: int) -> (Seq<
    MatchCandidate,
>, Seq<WeightedSymbol>) {
    if data.len() < hash_len {
        (Seq::empty(), Seq::empty())
    } else {
        let suffix_start = data.len() - hash_len;
        let key = match_key_spec(data, suffix_start, hash_len);
        if positions.contains_key(key) {
            let cs = candidates_of(data, positions[key], suffix_start, window, hash_len);
            (cs, merge_candidates(cs))
        } else {
            (Seq::empty(), Seq::empty())
        }
    }
}

/// The model after byte `b`.
pub open spec fn match_observe(v: MatchView, b: u8, window: int, hash_len: int, max_candidates: int) -> MatchView {
    let data = v.data.push(b);
    if data.len() < hash_len {
        MatchView { data, positions: v.positions, cands: v.cands, syms: v.syms }
    } else {
        let position = data.len() - hash_len;
        let key = match_key_spec(data, position, hash_len);
        let q = positions_of(v.positions, key).push(position as usize);
        let positions = v.positions.insert(key, trim_window(trim_count(q, max_candidates), position, window));
        let (cands, syms) = refresh_spec(data, positions, window, hash_len);
        MatchView { data, positions, cands, syms }
    }
}

pub open spec fn match_init() -> MatchView {
    MatchView { data: Seq::empty(), positions: Map::empty(), cands: Seq::empty(), syms: Seq::empty() }
}

/// Candidate weights are positive and bounded, merged weights are too.
pub open spec fn syms_wf(syms: Seq<WeightedSymbol>, max_candidates: int) -> bool {
    &&& forall|i: int| 0 <= i < syms.len() ==> #[trigger] syms[i].weight >= 1
    &&& weight_sum(syms) <= 1600 * max_candidates
}

pub open spec fn view_wf(v: MatchView, max_candidates: int) -> bool {
    &&& forall|k: u32| #[trigger] v.positions.contains_key(k) ==> v.positions[k].len() <= max_candidates
    &&& syms_wf(v.syms, max_candidates)
    &&& v.cands.len() <= max_candidates
}

/// The match model with its cached predictions.
pub struct MatchModel {
    data: Vec<u8>,
    positions: HashMap<u32, VecDeque<usize>>,
    window: usize,
    hash_len: usize,
    max_candidates: usize,
    cached_candidates: Vec<MatchCandidate>,
    cached_symbols: Vec<WeightedSymbol>,
}

/// Trimming to `max` positions leaves at most `max` of them (or none) and
/// never adds any.
pub proof fn lemma_trim_count(q: Seq<usize>, max: int)
    requires
        max >= 0,
    ensures
        trim_count(q, max).len() <= max || trim_count(q, max).len() == 0,
        trim_count(q, max).len() <= q.len(),
    decreases q.len(),
{
    if q.len() > max && q.len() > 0 {
        lemma_trim_count(q.drop_first(), max);
    }
}

/// Dropping positions outside the window never adds any.
pub proof fn lemma_trim_window(q: Seq<usize>, position: int, window: int)
    ensures
        trim_window(q, position, window).len() <= q.len(),
    decreases q.len(),
{
    if q.len() > 0 && (if position >= q[0] { position - q[0] } else { 0 }) > window {
        lemma_trim_window(q.drop_first(), position, window);
    }
}

proof fn lemma_candidates_of(data: Seq<u8>, ps: Seq<usize>, suffix_start: int, window: int, hash_len: int)
    ensures
        candidates_of(data, ps, suffix_start, window, hash_len).len() <= ps.len(),
        forall|i: int|
            0 <= i < candidates_of(data, ps, suffix_start, window, hash_len).len() ==> 1 <= (
            #[trigger] candidates_of(data, ps, suffix_start, window, hash_len)[i]).weight <= 1600,
    decreases ps.len(),
{
    if ps.len() > 0 {
        lemma_candidates_of(data, ps.drop_last(), suffix_start, window, hash_len);
        let rest = candidates_of(data, ps.drop_last(), suffix_start, window, hash_len);
        match candidate_at(data, ps.last() as int, suffix_start, window, hash_len) {
            Some(c) => {
                assert forall|i: int| 0 <= i < (seq![c] + rest).len() implies 1 <= (#[trigger] (seq![c]
                    + rest)[i]).weight <= 1600 by {
                    if i > 0 {
                        assert((seq![c] + rest)[i] == rest[i - 1]);
                    }
                }
            },
            None => {},
        }
    }
}

proof fn lemma_merge_candidates(cs: Seq<MatchCandidate>)
    requires
        forall|i: int| 0 <= i < cs.len() ==> 1 <= (#[trigger] cs[i]).weight <= 1600,
    ensures
        forall|i: int| 0 <= i < merge_candidates(cs).len() ==> #[trigger] merge_candidates(cs)[i].weight >= 1,
        weight_sum(merge_candidates(cs)) <= 1600 * cs.len(),
        merge_candidates(cs).len() <= cs.len(),
    decreases cs.len(),
{
    if cs.len() > 0 {
        let d = cs.drop_last();
        assert forall|i: int| 0 <= i < d.len() implies 1 <= (#[trigger] d[i]).weight <= 1600 by {
            assert(d[i] == cs[i]);
        }
        lemma_merge_candidates(d);
        let l = merge_candidates(d);
        let c = cs.last();
        assert(c == cs[cs.len() - 1]);
        let i = first_index(l, c.symbol);
        lemma_first_index(l, c.symbol);
        lemma_weight_sum_nonneg(l);
        if i < l.len() {
            let nw = WeightedSymbol { symbol: c.symbol, weight: (if l[i].weight + c.weight > u32::MAX { u32::MAX as int } else { l[i].weight + c.weight }) as u32 };
            lemma_weight_sum_update(l, i, nw);
        } else {
            let nw = WeightedSymbol { symbol: c.symbol, weight: c.weight };
            assert(l.push(nw).drop_last() =~= l);
        }
    }
}

/// Replacing one entry changes the weight by the difference of the two.
pub proof fn lemma_weight_sum_update(l: Seq<WeightedSymbol>, i: int, w: WeightedSymbol)
    requires
        0 <= i < l.len(),
    ensures
        weight_sum(l.update(i, w)) == weight_sum(l) - l[i].weight + w.weight,
    decreases l.len(),
{
    if i == l.len() - 1 {
        assert(l.update(i, w).drop_last() =~= l.drop_last());
    } else {
        lemma_weight_sum_update(l.drop_last(), i, w);
        assert(l.update(i, w).drop_last() =~= l.drop_last().update(i, w));
    }
}

impl MatchModel {
    pub closed spec fn view(&self) -> MatchView {
        MatchView {
            data: self.data@,
            positions: self.positions@.map_values(|q: VecDeque<usize>| q@),
            cands: self.cached_candidates@,
            syms: self.cached_symbols@,
        }
    }

    pub closed spec fn window(&self) -> int {
        self.window as int
    }

    pub closed spec fn hash_len(&self) -> int {
        self.hash_len as int
    }

    pub closed spec fn max_candidates(&self) -> int {
        self.max_candidates as int
    }

    pub closed spec fn wf(&self) -> bool {
        &&& self.max_candidates <= 1024
        &&& view_wf(self.view(), self.max_candidates as int)
    }

    /// An empty model matching `hash_len`-byte hashes within `window` bytes,
    /// keeping up to `max_candidates` positions per hash. At most 1024
    /// positions are kept, so that the candidates' weights (at most 1600
    /// each) stay within the arithmetic coder's total.
    pub fn new(window: usize, hash_len: usize, max_candidates: usize) -> (m: Self)
        requires
            max_candidates <= 1024,
        ensures
            m.wf(),
            m.view() == match_init(),
            m.window() == window,
            m.hash_len() == hash_len,
            m.max_candidates() == max_candidates,
    {
        let m = MatchModel {
            data: Vec::new(),
            positions: HashMap::new(),
            window,
            hash_len,
            max_candidates,
            cached_candidates: Vec::new(),
            cached_symbols: Vec::new(),
        };
        assert(m.view().positions =~= Map::<u32, Seq<usize>>::empty());
        m
    }

    /// The predictions: the candidate matches, newest first.
    pub fn candidates(&self) -> (r: &Vec<MatchCandidate>)
        ensures
            r@ == self.view().cands,
    {
        &self.cached_candidates
    }

    /// The predicted bytes with their merged weights.
    pub fn symbols(&self) -> (r: &Vec<WeightedSymbol>)
        ensures
            r@ == self.view().syms,
    {
        &self.cached_symbols
    }

    /// Recomputes the predictions for the current suffix.
    fn refresh_candidates(&mut self)
        requires
            old(self).max_candidates <= 1024,
            forall|k: u32| #[trigger] old(self).view().positions.contains_key(k) ==> old(self).view().positions[k].len()
                <= old(self).max_candidates,
        ensures
            final(self).data@ == old(self).data@,
            final(self).positions@ == old(self).positions@,
            final(self).window == old(self).window,
            final(self).hash_len == old(self).hash_len,
            final(self).max_candidates == old(self).max_candidates,
            (final(self).view().cands, final(self).view().syms) == refresh_spec(
                old(self).view().data,
                old(self).view().positions,
                old(self).window as int,
                old(self).hash_len as int,
            ),
            final(self).wf(),
    {
        self.cached_candidates.clear();
        self.cached_symbols.clear();
        assert(self.cached_candidates@ =~= Seq::<MatchCandidate>::empty());
        assert(self.cached_symbols@ =~= Seq::<WeightedSymbol>::empty());
        if self.data.len() < self.hash_len {
            return;
        }
        let suffix_start = self.data.len() - self.hash_len;
        let key = match_key_at(&self.data, suffix_start, self.hash_len);
        let positions = match self.positions.get(&key) {
            Some(p) => p,
            None => {
                return;
            },
        };
        let ghost ps = positions@;
        let ghost data = self.data@;
        assert(self.view().positions.contains_key(key));
        assert(self.view().positions[key] == ps);
        let mut j: usize = positions.len();
        let mut cands: Vec<MatchCandidate> = Vec::new();
        proof {
            assert(ps.take(ps.len() as int) =~= ps);
        }
        while j > 0
            invariant
                j <= ps.len(),
                ps == positions@,
                data == self.data@,
                suffix_start == data.len() - self.hash_len,
                cands@ + candidates_of(data, ps.take(j as int), suffix_start as int, self.window as int, self.hash_len as int)
                    == candidates_of(data, ps, suffix_start as int, self.window as int, self.hash_len as int),
            decreases j,
        {
            let candidate = positions[j - 1];
            let ghost pre = ps.take(j - 1);
            assert(ps.take(j as int).drop_last() =~= pre);
            assert(ps.take(j as int).last() == candidate);
            let ghost before = cands@;
            if candidate < suffix_start {
                let distance = suffix_start - candidate;
                if distance != 0 && distance <= self.window {
                    let length = match_length(&self.data, candidate, suffix_start);
                    if length >= self.hash_len {
                        proof {
                            vstd::arithmetic::div_mod::lemma_mod_bound(length as int, distance as int);
                        }
                        let c = MatchCandidate {
                            symbol: self.data[candidate + (length % distance)],
                            weight: match_weight(length, distance),
                        };
                        cands.push(c);
                        assert(cands@ + candidates_of(data, pre, suffix_start as int, self.window as int, self.hash_len as int)
                            =~= before + candidates_of(data, ps.take(j as int), suffix_start as int, self.window as int, self.hash_len as int));
                    }
                }
            }
            j = j - 1;
        }
        assert(ps.take(0) =~= Seq::<usize>::empty());
        assert(cands@ =~= candidates_of(data, ps, suffix_start as int, self.window as int, self.hash_len as int));
        proof {
            lemma_candidates_of(data, ps, suffix_start as int, self.window as int, self.hash_len as int);
        }
        let ghost cs = cands@;
        let mut syms: Vec<WeightedSymbol> = Vec::new();
        let mut i: usize = 0;
        assert(cs.take(0) =~= Seq::<MatchCandidate>::empty());
        while i < cands.len()
            invariant
                i <= cs.len(),
                cs == cands@,
                syms@ == merge_candidates(cs.take(i as int)),
            decreases cs.len() - i,
        {
            let c = cands[i];
            assert(cs.take(i as int + 1).drop_last() =~= cs.take(i as int));
            add_weight(&mut syms, c.symbol, c.weight);
            i = i + 1;
        }
        assert(cs.take(cs.len() as int) =~= cs);
        proof {
            lemma_merge_candidates(cs);
        }
        self.cached_candidates = cands;
        self.cached_symbols = syms;
    }

    /// Appends `byte`, records the position of the hash that now ends the
    /// bytes (keeping the newest positions within the window) and refreshes
    /// the predictions.
    pub fn observe(&mut self, byte: u8)
        requires
            old(self).wf(),
        ensures
            final(self).wf(),
            final(self).view() == match_observe(old(self).view(), byte, old(self).window(), old(self).hash_len(), old(self).max_candidates()),
            final(self).window() == old(self).window(),
            final(self).hash_len() == old(self).hash_len(),
            final(self).max_candidates() == old(self).max_candidates(),
    {
        let ghost v0 = self.view();
        self.data.push(byte);
        if self.data.len() < self.hash_len {
            assert(self.view().positions == v0.positions);
            assert(self.view().syms == v0.syms);
            assert(self.view().cands == v0.cands);
            return;
        }
        let position = self.data.len() - self.hash_len;
        let key = match_key_at(&self.data, position, self.hash_len);
        let ghost p0 = self.positions@;
        let mut entry = match self.positions.remove(&key) {
            Some(q) => q,
            None => VecDeque::new(),
        };
        assert(entry@ == positions_of(v0.positions, key));
        entry.push_back(position);
        let ghost q1 = entry@;
        proof {
            assert(trim_count(q1, self.max_candidates as int) == trim_count(entry@, self.max_candidates as int));
        }
        while entry.len() > self.max_candidates
            invariant
                trim_count(entry@, self.max_candidates as int) == trim_count(q1, self.max_candidates as int),
            decreases entry@.len(),
        {
            let _ = entry.pop_front();
        }
        let ghost q2 = entry@;
        loop
            invariant
                trim_window(entry@, position as int, self.window as int) == trim_window(q2, position as int, self.window as int),
            ensures
                entry@ == trim_window(q2, position as int, self.window as int),
            decreases entry@.len(),
        {
            if entry.len() == 0 {
                break;
            }
            let oldest = entry[0];
            let age = if position >= oldest { position - oldest } else { 0 };
            if age <= self.window {
                break;
            }
            let _ = entry.pop_front();
        }
        proof {
            lemma_trim_count(q1, self.max_candidates as int);
            lemma_trim_window(q2, position as int, self.window as int);
            assert(entry@ == trim_window(trim_count(q1, self.max_candidates as int), position as int, self.window as int));
        }
        self.positions.insert(key, entry);
        proof {
            assert(self.view().positions =~= v0.positions.insert(
                key,
                trim_window(trim_count(q1, self.max_candidates as int), position as int, self.window as int),
            ));
            assert forall|k: u32| #[trigger] self.view().positions.contains_key(k) implies self.view().positions[k].len()
                <= self.max_candidates by {
                if k != key {
                    assert(v0.positions.contains_key(k));
                }
            }
        }
        self.refresh_candidates();
    }

    /// The sum of the predicted weights.
    pub fn predicted_total(&self) -> (t: u32)
        requires
            self.wf(),
        ensures
            t == weight_sum(self.view().syms),
    {
        crate::candidates::total_weight(self.cached_symbols.as_slice(), 0)
    }

    /// The cumulative weight, weight and coding total of `byte` among the
    /// predictions, if it is predicted.
    pub fn predicted_byte_range(&self, byte: u8) -> (r: Option<(u32, u32, u32)>)
        requires
            self.wf(),
        ensures
            ({
                let l = self.view().syms;
                let i = first_index(l, byte);
                r == (if l.len() > 0 && i < l.len() {
                    Some((weight_sum(l.take(i)) as u32, l[i].weight, (MATCH_ESCAPE_WEIGHT + weight_sum(l)) as u32))
                } else {
                    None::<(u32, u32, u32)>
                })
            }),
    {
        let ghost l = self.cached_symbols@;
        if self.cached_symbols.len() == 0 {
            return None;
        }
        proof {
            lemma_first_index(l, byte);
            lemma_weight_sum_nonneg(l);
        }
        let mut cum: u32 = 0;
        let mut i: usize = 0;
        while i < self.cached_symbols.len()
            invariant
                self.wf(),
                l == self.cached_symbols@,
                l == self.view().syms,
                i <= l.len(),
                cum == weight_sum(l.take(i as int)),
                forall|q: int| 0 <= q < i ==> #[trigger] l[q].symbol != byte,
            decreases l.len() - i,
        {
            proof {
                lemma_weight_sum_take(l, i as int, i as int + 1);
                lemma_weight_sum_take(l, i as int + 1, l.len() as int);
            }
            let s = self.cached_symbols[i];
            if s.symbol == byte {
                proof {
                    lemma_first_index(l, byte);
                }
                let total = MATCH_ESCAPE_WEIGHT + self.predicted_total();
                return Some((cum, s.weight, total));
            }
            cum = cum + s.weight;
            i = i + 1;
        }
        proof {
            lemma_first_index(l, byte);
        }
        None
    }
}

/// Adds `weight` to the weight of `symbol` in `target`, or appends it.
pub fn add_weight(target: &mut Vec<WeightedSymbol>, symbol: u8, weight: u32)
    ensures
        final(target)@ == add_weight_spec(old(target)@, symbol, weight),
{
    let ghost l = target@;
    proof {
        lemma_first_index(l, symbol);
    }
    let mut i: usize = 0;
    while i < target.len()
        invariant
            l == target@,
            l == old(target)@,
            i <= l.len(),
            forall|q: int| 0 <= q < i ==> #[trigger] l[q].symbol != symbol,
        decreases l.len() - i,
    {
        if target[i].symbol == symbol {
            proof {
                lemma_first_index(l, symbol);
                let fi = first_index(l, symbol);
                if fi < i {
                    assert(l[fi].symbol == symbol);
                }
                if fi > i {
                    assert(l[i as int].symbol != symbol);
                }
                assert(fi == i);
            }
            let w = target[i].weight;
            let nw = if w > u32::MAX - weight { u32::MAX } else { w + weight };
            target.set(i, WeightedSymbol { symbol, weight: nw });
            return;
        }
        i = i + 1;
    }
    proof {
        lemma_first_index(l, symbol);
    }
    target.push(WeightedSymbol { symbol, weight });
}

// ---------------------------------------------------------------------------
// Coding bytes with the match model alone

/// The ranges coding byte `b` against predictions `syms`: the "predicted"
/// branch and the byte's share, or the escape and a flat byte.
pub open spec fn byte_ranges(syms: Seq<WeightedSymbol>, b: u8) -> Seq<CodeRange> {
    let p = weight_sum(syms);
    let i = first_index(syms, b);
    if syms.len() > 0 && i < syms.len() {
        seq![
            code_range(MATCH_ESCAPE_WEIGHT, p as u32, (MATCH_ESCAPE_WEIGHT + p) as u32),
            code_range(weight_sum(syms.take(i)) as u32, syms[i].weight, p as u32),
        ]
    } else {
        seq![code_range(0, MATCH_ESCAPE_WEIGHT, (MATCH_ESCAPE_WEIGHT + p) as u32), code_range(b as u32, 1, 256)]
    }
}

proof fn lemma_byte_ranges(syms: Seq<WeightedSymbol>, b: u8)
    requires
        syms_wf(syms, 1024),
    ensures
        forall|j: int| 0 <= j < byte_ranges(syms, b).len() ==> range_codable(#[trigger] byte_ranges(syms, b)[j]),
        byte_ranges(syms, b).len() == 2,
{
    lemma_first_index(syms, b);
    lemma_weight_sum_nonneg(syms);
    let i = first_index(syms, b);
    if syms.len() > 0 && i < syms.len() {
        lemma_weight_sum_take(syms, i, i + 1);
        lemma_weight_sum_take(syms, i + 1, syms.len() as int);
    }
}

/// What decoding one byte against predictions `syms` gives from decoder
/// state `d`: either the escape and a flat byte, or the predicted branch and
/// the prediction whose share holds the target; with the state afterwards.
pub open spec fn match_decode_outcome(syms: Seq<WeightedSymbol>, d: DecState, data: Seq<u8>) -> (u8, DecState) {
    let p = weight_sum(syms);
    let total = MATCH_ESCAPE_WEIGHT + p;
    let t = dec_target(d, total);
    if t < MATCH_ESCAPE_WEIGHT {
        let d1 = dec_step(d, code_range(0, MATCH_ESCAPE_WEIGHT, total as u32), data);
        let v = dec_target(d1, 256);
        (v as u8, dec_step(d1, code_range(v as u32, 1, 256), data))
    } else {
        let d1 = dec_step(d, code_range(MATCH_ESCAPE_WEIGHT, p as u32, total as u32), data);
        let t2 = dec_target(d1, p);
        let i = target_index(syms, t2);
        (syms[i].symbol, dec_step(d1, code_range(weight_sum(syms.take(i)) as u32, syms[i].weight, p as u32), data))
    }
}

impl MatchModel {
    /// Codes `byte`: first whether it is among the predictions, then which.
    pub fn encode_byte(&self, byte: u8, encoder: &mut ArithmeticEncoder) -> (r: Result<(), CodecError>)
        requires
            self.wf(),
            old(encoder).wf(),
        ensures
            r is Ok ==> final(encoder).wf(),
            match enc_seq(old(encoder).view(), byte_ranges(self.view().syms, byte)) {
                Some(s) => r is Ok && final(encoder).view() == s,
                None => r == Err::<(), CodecError>(CodecError::PendingOverflow),
            },
    {
        let ghost syms = self.view().syms;
        proof {
            lemma_byte_ranges(syms, byte);
        }
        let predicted_total = self.predicted_total();
        let ghost rs = byte_ranges(syms, byte);
        proof {
            lemma_enc_seq_append(encoder.view(), seq![rs[0]], seq![rs[1]]);
            assert(seq![rs[0]] + seq![rs[1]] =~= rs);
            lemma_enc_seq_one(encoder.view(), rs[0]);
        }
        match self.predicted_byte_range(byte) {
            Some((cum, freq, total)) => {
                match encoder.encode(MATCH_ESCAPE_WEIGHT, total - MATCH_ESCAPE_WEIGHT, total) {
                    Ok(()) => {},
                    Err(e) => {
                        return Err(e);
                    },
                }
                proof {
                    lemma_enc_seq_one(encoder.view(), rs[1]);
                }
                encoder.encode(cum, freq, total - MATCH_ESCAPE_WEIGHT)
            },
            None => {
                let total = MATCH_ESCAPE_WEIGHT + predicted_total;
                match encoder.encode(0, MATCH_ESCAPE_WEIGHT, total) {
                    Ok(()) => {},
                    Err(e) => {
                        return Err(e);
                    },
                }
                proof {
                    lemma_enc_seq_one(encoder.view(), rs[1]);
                }
                encoder.encode(byte as u32, 1, 256)
            },
        }
    }

    /// Decodes a byte coded by `encode_byte` with the same predictions.
    pub fn decode_byte(
        &self,
        decoder: &mut ArithmeticDecoder,
        Ghost(rs): Ghost<Seq<CodeRange>>,
        Ghost(k): Ghost<int>,
        Ghost(s): Ghost<u8>,
    ) -> (r: Result<u8, CodecError>)
        requires
            self.wf(),
            old(decoder).wf(),
        ensures
            final(decoder).wf(),
            final(decoder).data() == old(decoder).data(),
            r == Ok::<u8, CodecError>(match_decode_outcome(self.view().syms, old(decoder).view(), old(decoder).data()).0),
            final(decoder).view() == match_decode_outcome(self.view().syms, old(decoder).view(), old(decoder).data()).1,
            ({
                let sr = byte_ranges(self.view().syms, s);
                synced(old(decoder).view(), old(decoder).data(), rs, k) && k + 2 <= rs.len()
                    && rs.subrange(k, k + 2) == sr ==> r == Ok::<u8, CodecError>(s) && synced(
                    final(decoder).view(),
                    final(decoder).data(),
                    rs,
                    k + 2,
                )
            }),
    {
        let ghost syms = self.view().syms;
        let ghost data = decoder.data();
        let ghost sr = byte_ranges(syms, s);
        let ghost cond = synced(decoder.view(), data, rs, k) && k + 2 <= rs.len() && rs.subrange(k, k + 2) == sr;
        let ghost d0 = decoder.view();
        proof {
            lemma_byte_ranges(syms, s);
            lemma_first_index(syms, s);
            lemma_weight_sum_nonneg(syms);
            if cond {
                assert(rs[k] == sr[0]) by {
                    assert(rs.subrange(k, k + 2)[0] == rs[k]);
                }
                assert(rs[k + 1] == sr[1]) by {
                    assert(rs.subrange(k, k + 2)[1] == rs[k + 1]);
                }
                lemma_synced_step(d0, data, rs, k);
            }
        }
        let predicted_total = self.predicted_total();
        let total = MATCH_ESCAPE_WEIGHT + predicted_total;
        let target = match decoder.target(total) {
            Ok(t) => t,
            Err(e) => {
                return Err(e);
            },
        };
        if target < MATCH_ESCAPE_WEIGHT {
            let _ = decoder.consume(0, MATCH_ESCAPE_WEIGHT, total);
            let ghost d1 = decoder.view();
            proof {
                if cond {
                    lemma_synced_step(d1, data, rs, k + 1);
                }
            }
            let symbol = match decoder.target(256) {
                Ok(v) => v,
                Err(e) => {
                    return Err(e);
                },
            };
            let _ = decoder.consume(symbol, 1, 256);
            return Ok(symbol as u8);
        }
        let _ = decoder.consume(MATCH_ESCAPE_WEIGHT, predicted_total, total);
        let ghost d1 = decoder.view();
        proof {
            if cond {
                lemma_synced_step(d1, data, rs, k + 1);
            }
        }
        let symbol_target = match decoder.target(predicted_total) {
            Ok(t) => t,
            Err(e) => {
                return Err(e);
            },
        };
        let mut cum: u32 = 0;
        let mut i: usize = 0;
        while i < self.cached_symbols.len()
            invariant
                self.wf(),
                syms == self.view().syms,
                syms == self.cached_symbols@,
                i <= syms.len(),
                cum == weight_sum(syms.take(i as int)),
                cum <= symbol_target,
                symbol_target < predicted_total,
                predicted_total == weight_sum(syms),
                decoder.wf(),
                decoder.view() == d1,
                decoder.data() == data,
                data == old(decoder).data(),
                symbol_target as int == dec_target(d1, predicted_total as int),
                d0 == old(decoder).view(),
                total == MATCH_ESCAPE_WEIGHT + predicted_total,
                dec_target(d0, total as int) >= MATCH_ESCAPE_WEIGHT,
                d1 == dec_step(d0, code_range(MATCH_ESCAPE_WEIGHT, predicted_total, total), data),
                cond == (synced(old(decoder).view(), data, rs, k) && k + 2 <= rs.len() && rs.subrange(k, k + 2) == sr),
                sr == byte_ranges(syms, s),
                cond ==> first_index(syms, s) < syms.len() && i <= first_index(syms, s) && in_range(
                    symbol_target as int,
                    sr[1],
                ) && synced(dec_step(d1, sr[1], data), data, rs, k + 2) && rs[k + 1] == sr[1],
            decreases syms.len() - i,
        {
            proof {
                lemma_weight_sum_take(syms, i as int, i as int + 1);
                lemma_weight_sum_take(syms, i as int + 1, syms.len() as int);
            }
            let w = self.cached_symbols[i];
            let next = cum + w.weight;
            if symbol_target < next {
                let _ = decoder.consume(cum, w.weight, predicted_total);
                proof {
                    lemma_target_index(syms, symbol_target as int, i as int);
                    if cond {
                        let fi = first_index(syms, s);
                        lemma_first_index(syms, s);
                        if (i as int) < fi {
                            lemma_weight_sum_take(syms, i as int + 1, fi);
                        }
                    }
                }
                return Ok(w.symbol);
            }
            proof {
                if cond {
                    let fi = first_index(syms, s);
                    if (i as int) == fi {
                        assert(false);
                    }
                }
            }
            cum = next;
            i = i + 1;
        }
        proof {
            assert(syms.take(syms.len() as int) =~= syms);
        }
        Err(CodecError::TargetOutOfRange)
    }
}

/// The match model (hash of 4 bytes, 8 positions per hash, 32 KiB window)
/// after the bytes `data`.
pub open spec fn match_after(data: Seq<u8>) -> MatchView
    decreases data.len(),
{
    if data.len() == 0 {
        match_init()
    } else {
        match_observe(
            match_after(data.drop_last()),
            data.last(),
            MATCH_WINDOW as int,
            MATCH_HASH_LEN as int,
            MATCH_MAX_CANDIDATES as int,
        )
    }
}

/// Every range the match-only compressor codes for `data`.
pub open spec fn all_ranges(data: Seq<u8>) -> Seq<CodeRange>
    decreases data.len(),
{
    if data.len() == 0 {
        Seq::empty()
    } else {
        let d = data.drop_last();
        all_ranges(d) + byte_ranges(match_after(d).syms, data.last())
    }
}

/// `archive` is what `compress_match_only` makes of `data`.
pub open spec fn is_archive_of(archive: Seq<u8>, data: Seq<u8>) -> bool {
    &&& archive.len() >= 16
    &&& archive.subrange(0, 4) == magic_match_only_spec()
    &&& archive.subrange(4, 12) == le_bytes_u64(data.len() as u64)
    &&& archive.subrange(12, 16) == marker_spec()
    &&& data.len() <= u64::MAX
    &&& enc_run(all_ranges(data)) is Some
    &&& bytes_to_bits(archive.subrange(16, archive.len() as int)) == coded_bits(all_ranges(data))
}

/// The coder's deferred-bit counter stays within the machine word.
pub open spec fn compress_ok(data: Seq<u8>) -> bool {
    &&& enc_run(all_ranges(data)) is Some
    &&& enc_run(all_ranges(data)).unwrap().pending < usize::MAX
}

proof fn lemma_match_after_wf(data: Seq<u8>)
    ensures
        view_wf(match_after(data), MATCH_MAX_CANDIDATES as int),
    decreases data.len(),
{
    if data.len() > 0 {
        lemma_match_after_wf(data.drop_last());
        let v = match_after(data.drop_last());
        let b = data.last();
        let d = v.data.push(b);
        if d.len() >= MATCH_HASH_LEN {
            let position = d.len() - MATCH_HASH_LEN as int;
            let key = match_key_spec(d, position, MATCH_HASH_LEN as int);
            let q = positions_of(v.positions, key).push(position as usize);
            lemma_trim_count(q, 8);
            lemma_trim_window(trim_count(q, 8), position, MATCH_WINDOW as int);
            let positions = v.positions.insert(key, trim_window(trim_count(q, 8), position, MATCH_WINDOW as int));
            assert forall|k: u32| #[trigger] positions.contains_key(k) implies positions[k].len() <= 8 by {
                if k != key {
                    assert(v.positions.contains_key(k));
                }
            }
            let suffix_start = d.len() - MATCH_HASH_LEN as int;
            let key2 = match_key_spec(d, suffix_start, MATCH_HASH_LEN as int);
            if positions.contains_key(key2) {
                lemma_candidates_of(d, positions[key2], suffix_start, MATCH_WINDOW as int, MATCH_HASH_LEN as int);
                lemma_merge_candidates(candidates_of(d, positions[key2], suffix_start, MATCH_WINDOW as int, MATCH_HASH_LEN as int));
            }
        }
    } else {
        assert(weight_sum(Seq::<WeightedSymbol>::empty()) == 0);
    }
}

proof fn lemma_all_ranges_codable(data: Seq<u8>)
    ensures
        forall|i: int| 0 <= i < all_ranges(data).len() ==> range_codable(#[trigger] all_ranges(data)[i]),
    decreases data.len(),
{
    if data.len() > 0 {
        let d = data.drop_last();
        lemma_all_ranges_codable(d);
        lemma_match_after_wf(d);
        let a = all_ranges(d);
        let sr = byte_ranges(match_after(d).syms, data.last());
        lemma_byte_ranges(match_after(d).syms, data.last());
        assert forall|i: int| 0 <= i < (a + sr).len() implies range_codable(#[trigger] (a + sr)[i]) by {
            if i >= a.len() {
                assert((a + sr)[i] == sr[i - a.len()]);
            } else {
                assert((a + sr)[i] == a[i]);
            }
        }
    }
}

proof fn lemma_all_ranges_prefix(data: Seq<u8>, j: int)
    requires
        0 <= j <= data.len(),
    ensures
        all_ranges(data.take(j)).len() <= all_ranges(data).len(),
        all_ranges(data).take(all_ranges(data.take(j)).len() as int) == all_ranges(data.take(j)),
    decreases data.len() - j,
{
    if j == data.len() {
        assert(data.take(j) =~= data);
        assert(all_ranges(data).take(all_ranges(data).len() as int) =~= all_ranges(data));
    } else {
        lemma_all_ranges_prefix(data, j + 1);
        let a = all_ranges(data.take(j));
        let b = all_ranges(data.take(j + 1));
        assert(data.take(j + 1).drop_last() =~= data.take(j));
        assert(all_ranges(data).take(a.len() as int) =~= b.take(a.len() as int));
        assert(b.take(a.len() as int) =~= a);
    }
}

/// Compresses `data` with the match model alone.
#[verifier::spinoff_prover]
#[verifier::rlimit(40)]
pub fn compress_match_only(data: &[u8]) -> (r: Result<Vec<u8>, CodecError>)
    ensures
        r is Ok <==> compress_ok(data@),
        r is Ok ==> is_archive_of(r->Ok_0@, data@),
        r is Err ==> r == Err::<Vec<u8>, CodecError>(CodecError::PendingOverflow),
{
    let mut out: Vec<u8> = Vec::new();
    let magic = magic_match_only();
    out.push(magic[0]);
    out.push(magic[1]);
    out.push(magic[2]);
    out.push(magic[3]);
    push_u64_le(&mut out, data.len() as u64);
    let marker = match_byte_marker();
    out.push(marker[0]);
    out.push(marker[1]);
    out.push(marker[2]);
    out.push(marker[3]);
    let ghost header = out@;
    assert(header.subrange(0, 4) =~= magic_match_only_spec());
    assert(header.subrange(4, 12) =~= le_bytes_u64(data@.len() as u64));
    assert(header.subrange(12, 16) =~= marker_spec());
    let mut model = MatchModel::new(MATCH_WINDOW, MATCH_HASH_LEN, MATCH_MAX_CANDIDATES);
    let mut encoder = ArithmeticEncoder::new();
    assert(data@.take(0) =~= Seq::<u8>::empty());
    let mut i: usize = 0;
    while i < data.len()
        invariant
            i <= data@.len(),
            model.wf(),
            model.window() == MATCH_WINDOW,
            model.hash_len() == MATCH_HASH_LEN,
            model.max_candidates() == MATCH_MAX_CANDIDATES,
            model.view() == match_after(data@.take(i as int)),
            encoder.wf(),
            enc_run(all_ranges(data@.take(i as int))) == Some(encoder.view()),
            out@ == header,
        decreases data@.len() - i,
    {
        let byte = data[i];
        proof {
            lemma_take_step(data@, i as int);
            lemma_enc_run_append(all_ranges(data@.take(i as int)), byte_ranges(model.view().syms, byte));
        }
        match model.encode_byte(byte, &mut encoder) {
            Ok(()) => {},
            Err(e) => {
                proof {
                    lemma_all_ranges_prefix(data@, i as int + 1);
                    let a = all_ranges(data@.take(i as int + 1));
                    let full = all_ranges(data@);
                    assert(full =~= a + full.subrange(a.len() as int, full.len() as int));
                    lemma_enc_run_append(a, full.subrange(a.len() as int, full.len() as int));
                }
                return Err(e);
            },
        }
        model.observe(byte);
        i = i + 1;
    }
    assert(data@.take(data@.len() as int) =~= data@);
    match encoder.finish() {
        Ok(payload) => {
            let ghost p = payload@;
            let mut k: usize = 0;
            while k < payload.len()
                invariant
                    k <= payload@.len(),
                    p == payload@,
                    out@ == header + p.take(k as int),
                decreases payload@.len() - k,
            {
                out.push(payload[k]);
                k = k + 1;
                assert(out@ =~= header + p.take(k as int));
            }
            assert(p.take(p.len() as int) =~= p);
            assert(out@.subrange(0, 4) =~= magic_match_only_spec());
            assert(out@.subrange(4, 12) =~= le_bytes_u64(data@.len() as u64));
            assert(out@.subrange(12, 16) =~= marker_spec());
            assert(out@.subrange(16, out@.len() as int) =~= p);
            Ok(out)
        },
        Err(e) => Err(e),
    }
}

/// The first `n` bytes decoded from `payload` with the match model alone,
/// and the decoder's state after them.
pub open spec fn match_decoded(payload: Seq<u8>, n: nat) -> (Seq<u8>, DecState)
    decreases n,
{
    if n == 0 {
        (Seq::empty(), dec_init(payload))
    } else {
        let (prev, d) = match_decoded(payload, (n - 1) as nat);
        let (b, d2) = match_decode_outcome(match_after(prev).syms, d, payload);
        (prev.push(b), d2)
    }
}

proof fn lemma_match_decoded_len(payload: Seq<u8>, n: nat)
    ensures
        match_decoded(payload, n).0.len() == n,
    decreases n,
{
    if n > 0 {
        lemma_match_decoded_len(payload, (n - 1) as nat);
    }
}

/// Restores the bytes of a match-only archive.  Archives without the
/// byte-coding marker hold the older bit-coded payload and are refused
/// with `LegacyFormat`.
#[verifier::spinoff_prover]
#[verifier::rlimit(40)]
pub fn decompress_match_only(archive: &[u8]) -> (r: Result<Vec<u8>, CodecError>)
    ensures
        archive@.len() < 4 ==> r == Err::<Vec<u8>, CodecError>(CodecError::UnexpectedEof),
        archive@.len() >= 4 && archive@.subrange(0, 4) != magic_match_only_spec() ==> r == Err::<
            Vec<u8>,
            CodecError,
        >(CodecError::InvalidMagic),
        archive@.len() >= 4 && archive@.subrange(0, 4) == magic_match_only_spec() && archive@.len() < 12
            ==> r == Err::<Vec<u8>, CodecError>(CodecError::UnexpectedEof),
        archive@.len() >= 12 && archive@.subrange(0, 4) == magic_match_only_spec() && !(archive@.len() >= 16
            && archive@.subrange(12, 16) == marker_spec()) ==> r == Err::<Vec<u8>, CodecError>(
            CodecError::LegacyFormat,
        ),
        archive@.len() >= 16 && archive@.subrange(0, 4) == magic_match_only_spec() && archive@.subrange(12, 16)
            == marker_spec() ==> r is Ok && r->Ok_0@ == match_decoded(
            archive@.subrange(16, archive@.len() as int),
            le_u64(archive@.subrange(4, 12)) as nat,
        ).0,
        r is Ok ==> r->Ok_0@.len() == le_u64(archive@.subrange(4, 12)),
        forall|d: Seq<u8>| is_archive_of(archive@, d) ==> r is Ok && r->Ok_0@ == d,
{
    if archive.len() < 4 {
        return Err(CodecError::UnexpectedEof);
    }
    let magic = magic_match_only();
    if archive[0] != magic[0] || archive[1] != magic[1] || archive[2] != magic[2] || archive[3]
        != magic[3] {
        assert(archive@.subrange(0, 4) != magic_match_only_spec()) by {
            if archive@.subrange(0, 4) == magic_match_only_spec() {
                assert(archive@.subrange(0, 4)[0] == archive@[0]);
                assert(archive@.subrange(0, 4)[1] == archive@[1]);
                assert(archive@.subrange(0, 4)[2] == archive@[2]);
                assert(archive@.subrange(0, 4)[3] == archive@[3]);
            }
        }
        return Err(CodecError::InvalidMagic);
    }
    assert(archive@.subrange(0, 4) =~= magic_match_only_spec());
    let expected_len = match read_u64(archive, 4) {
        Some(v) => v,
        None => {
            return Err(CodecError::UnexpectedEof);
        },
    };
    let marker = match_byte_marker();
    if archive.len() < 16 || archive[12] != marker[0] || archive[13] != marker[1] || archive[14] != marker[2]
        || archive[15] != marker[3] {
        assert(!(archive@.len() >= 16 && archive@.subrange(12, 16) == marker_spec())) by {
            if archive@.len() >= 16 && archive@.subrange(12, 16) == marker_spec() {
                assert(archive@.subrange(12, 16)[0] == archive@[12]);
                assert(archive@.subrange(12, 16)[1] == archive@[13]);
                assert(archive@.subrange(12, 16)[2] == archive@[14]);
                assert(archive@.subrange(12, 16)[3] == archive@[15]);
            }
        }
        return Err(CodecError::LegacyFormat);
    }
    assert(archive@.subrange(12, 16) =~= marker_spec());
    let payload = vstd::slice::slice_subrange(archive, 16, archive.len());
    let ghost cond = exists|d: Seq<u8>| is_archive_of(archive@, d);
    let ghost d = choose|d: Seq<u8>| is_archive_of(archive@, d);
    let ghost rs = all_ranges(d);
    let mut model = MatchModel::new(MATCH_WINDOW, MATCH_HASH_LEN, MATCH_MAX_CANDIDATES);
    let mut decoder = ArithmeticDecoder::new(payload);
    let mut restored: Vec<u8> = Vec::new();
    proof {
        if cond {
            lemma_le_u64_roundtrip(d.len() as u64);
            lemma_all_ranges_codable(d);
            assert(d.take(0) =~= Seq::<u8>::empty());
            assert(rs.take(0) =~= Seq::<CodeRange>::empty());
        }
    }
    while (restored.len() as u64) < expected_len
        invariant
            archive@.len() >= 16,
            archive@.subrange(0, 4) == magic_match_only_spec(),
            archive@.subrange(12, 16) == marker_spec(),
            cond == exists|d: Seq<u8>| is_archive_of(archive@, d),
            restored@.len() <= expected_len,
            expected_len == le_u64(archive@.subrange(4, 12)),
            model.wf(),
            model.window() == MATCH_WINDOW,
            model.hash_len() == MATCH_HASH_LEN,
            model.max_candidates() == MATCH_MAX_CANDIDATES,
            model.view() == match_after(restored@),
            decoder.wf(),
            decoder.data() == payload@,
            payload@ == archive@.subrange(16, archive@.len() as int),
            rs == all_ranges(d),
            cond ==> is_archive_of(archive@, d),
            cond ==> expected_len == d.len(),
            cond ==> restored@ == d.take(restored@.len() as int) && synced(
                decoder.view(),
                payload@,
                rs,
                all_ranges(restored@).len() as int,
            ),
            restored@ == match_decoded(payload@, restored@.len()).0,
            decoder.view() == match_decoded(payload@, restored@.len()).1,
        decreases expected_len - restored@.len(),
    {
        let i = restored.len();
        let ghost s = d[i as int];
        let ghost k = all_ranges(restored@).len() as int;
        proof {
            if cond {
                lemma_take_step(d, i as int);
                lemma_all_ranges_prefix(d, i as int + 1);
                let a = all_ranges(d.take(i as int));
                let sr = byte_ranges(model.view().syms, s);
                lemma_match_after_wf(restored@);
                lemma_byte_ranges(model.view().syms, s);
                assert(all_ranges(d.take(i as int + 1)) == a + sr);
                assert(rs.subrange(k, k + 2) =~= sr) by {
                    assert forall|j: int| 0 <= j < 2 implies rs.subrange(k, k + 2)[j] == sr[j] by {
                        assert(rs.take((a + sr).len() as int)[k + j] == (a + sr)[k + j]);
                    }
                }
            }
        }
        let byte = match model.decode_byte(&mut decoder, Ghost(rs), Ghost(k), Ghost(s)) {
            Ok(b) => b,
            Err(e) => {
                proof {
                    assert forall|d2: Seq<u8>| is_archive_of(archive@, d2) implies false by {
                        assert(cond);
                    }
                }
                return Err(e);
            },
        };
        let ghost before = restored@;
        restored.push(byte);
        proof {
            assert(restored@.drop_last() =~= before);
            lemma_match_decoded_len(payload@, before.len());
            assert(restored@ == match_decoded(payload@, restored@.len()).0);
            if cond {
                assert(restored@ =~= d.take(i as int + 1));
                lemma_byte_ranges(match_after(before).syms, s);
            }
        }
        model.observe(byte);
    }
    proof {
        lemma_match_decoded_len(payload@, restored@.len());
        if cond {
            assert(restored@ =~= d);
            assert forall|d2: Seq<u8>| is_archive_of(archive@, d2) implies d2 == d by {
                lemma_archive_unique(archive@, d, d2);
            }
        }
    }
    Ok(restored)
}

/// For distinct bytes, the two-range codings agree up to a position where
/// they share a total but not a value.
proof fn lemma_byte_ranges_diverge(syms: Seq<WeightedSymbol>, a: u8, b: u8) -> (j: int)
    requires
        syms_wf(syms, 1024),
        a != b,
    ensures
        0 <= j < 2,
        byte_ranges(syms, a).take(j) == byte_ranges(syms, b).take(j),
        byte_ranges(syms, a)[j].total == byte_ranges(syms, b)[j].total,
        !ranges_overlap(byte_ranges(syms, a)[j], byte_ranges(syms, b)[j]),
{
    let ra = byte_ranges(syms, a);
    let rb = byte_ranges(syms, b);
    lemma_first_index(syms, a);
    lemma_first_index(syms, b);
    lemma_weight_sum_nonneg(syms);
    let ia = first_index(syms, a);
    let ib = first_index(syms, b);
    let pa = syms.len() > 0 && ia < syms.len();
    let pb = syms.len() > 0 && ib < syms.len();
    if pa != pb {
        assert(ra.take(0) =~= rb.take(0));
        0
    } else {
        assert(ra.take(1) =~= rb.take(1));
        if pa {
            assert(ia != ib);
            if ranges_overlap(ra[1], rb[1]) {
                let t = choose|t: int| in_range(t, ra[1]) && in_range(t, rb[1]);
                if ia < ib {
                    lemma_weight_sum_take(syms, ia, ia + 1);
                    lemma_weight_sum_take(syms, ia + 1, ib);
                } else {
                    lemma_weight_sum_take(syms, ib, ib + 1);
                    lemma_weight_sum_take(syms, ib + 1, ia);
                }
                lemma_weight_sum_take(syms, ia, syms.len() as int);
                lemma_weight_sum_take(syms, ib, syms.len() as int);
            }
        }
        1
    }
}

/// Two inputs never produce the same match-only archive.
pub proof fn lemma_archive_unique(archive: Seq<u8>, d1: Seq<u8>, d2: Seq<u8>)
    requires
        is_archive_of(archive, d1),
        is_archive_of(archive, d2),
    ensures
        d1 == d2,
{
    lemma_le_u64_roundtrip(d1.len() as u64);
    lemma_le_u64_roundtrip(d2.len() as u64);
    assert(d1.take(0) =~= d2.take(0));
    lemma_unique_from(archive, d1, d2, 0);
}

proof fn lemma_unique_from(archive: Seq<u8>, d1: Seq<u8>, d2: Seq<u8>, i: int)
    requires
        is_archive_of(archive, d1),
        is_archive_of(archive, d2),
        d1.len() == d2.len(),
        0 <= i <= d1.len(),
        d1.take(i) == d2.take(i),
    ensures
        d1 == d2,
    decreases d1.len() - i,
{
    if i == d1.len() {
        assert(d1 =~= d1.take(i));
        assert(d2 =~= d2.take(i));
    } else if d1[i] == d2[i] {
        assert(d1.take(i + 1) =~= d1.take(i).push(d1[i]));
        assert(d2.take(i + 1) =~= d2.take(i).push(d2[i]));
        lemma_unique_from(archive, d1, d2, i + 1);
    } else {
        let p = d1.take(i);
        let syms = match_after(p).syms;
        let a = d1[i];
        let b = d2[i];
        lemma_match_after_wf(p);
        let j = lemma_byte_ranges_diverge(syms, a, b);
        let ra = byte_ranges(syms, a);
        let rb = byte_ranges(syms, b);
        let pre = all_ranges(p);
        let k = pre.len() as int;
        let rs1 = all_ranges(d1);
        let rs2 = all_ranges(d2);
        lemma_all_ranges_prefix(d1, i + 1);
        lemma_all_ranges_prefix(d2, i + 1);
        lemma_take_step(d1, i);
        lemma_take_step(d2, i);
        assert(all_ranges(d1.take(i + 1)) == pre + ra);
        assert(all_ranges(d2.take(i + 1)) == pre + rb);
        assert(rs1.take(k + j) =~= pre + ra.take(j)) by {
            assert(rs1.take((pre + ra).len() as int) == pre + ra);
            assert forall|x: int| 0 <= x < k + j implies rs1.take(k + j)[x] == (pre + ra.take(j))[x] by {
                assert(rs1.take((pre + ra).len() as int)[x] == (pre + ra)[x]);
            }
        }
        assert(rs2.take(k + j) =~= pre + rb.take(j)) by {
            assert(rs2.take((pre + rb).len() as int) == pre + rb);
            assert forall|x: int| 0 <= x < k + j implies rs2.take(k + j)[x] == (pre + rb.take(j))[x] by {
                assert(rs2.take((pre + rb).len() as int)[x] == (pre + rb)[x]);
            }
        }
        assert(rs1[k + j] == ra[j]) by {
            assert(rs1.take((pre + ra).len() as int)[k + j] == (pre + ra)[k + j]);
        }
        assert(rs2[k + j] == rb[j]) by {
            assert(rs2.take((pre + rb).len() as int)[k + j] == (pre + rb)[k + j]);
        }
        let payload = archive.subrange(16, archive.len() as int);
        lemma_all_ranges_codable(d1);
        lemma_all_ranges_codable(d2);
        crate::arith::lemma_decode_finds_range(rs1, payload, k + j);
        crate::arith::lemma_decode_finds_range(rs2, payload, k + j);
        let t = dec_target(dec_run(payload, rs1.take(k + j)), ra[j].total as int);
        assert(in_range(t, ra[j]) && in_range(t, rb[j]));
        assert(ranges_overlap(ra[j], rb[j]));
    }
}


// ---------------------------------------------------------------------------
// Bit predictions for the mixing codec

/// The weights of the candidates that begin with the current byte's bits
/// so far and continue with `bit`.
pub open spec fn cand_prefix_count(cs: Seq<MatchCandidate>, prefix: u8, used: u8, bit: u8) -> int
    decreases cs.len(),
{
    if cs.len() == 0 {
        0
    } else {
        let c = cs.last();
        cand_prefix_count(cs.drop_last(), prefix, used, bit) + if prefix_match(c.symbol, prefix, used)
            && bit_at(c.symbol, used) == bit {
            c.weight as int
        } else {
            0
        }
    }
}

/// The candidates' weights for the next bit, `(zeros, ones)`: none without
/// candidates or without any that fits the bits so far.
pub open spec fn match_bit_counts_spec(cs: Seq<MatchCandidate>, prefix: u8, used: u8) -> Option<(u64, u64)> {
    let z = cand_prefix_count(cs, prefix, used, 0);
    let o = cand_prefix_count(cs, prefix, used, 1);
    if cs.len() == 0 || z + o == 0 {
        None
    } else {
        Some((z as u64, o as u64))
    }
}

proof fn lemma_cand_prefix_bound(cs: Seq<MatchCandidate>, prefix: u8, used: u8)
    ensures
        0 <= cand_prefix_count(cs, prefix, used, 0) <= cs.len() * u32::MAX,
        0 <= cand_prefix_count(cs, prefix, used, 1) <= cs.len() * u32::MAX,
    decreases cs.len(),
{
    if cs.len() > 0 {
        lemma_cand_prefix_bound(cs.drop_last(), prefix, used);
    }
}

impl MatchModel {
    /// The candidates' weights for the next bit, given the current byte's
    /// first `used_bits` bits in `prefix`.
    pub fn bit_counts(&self, prefix: u8, used_bits: u8) -> (r: Option<(u64, u64)>)
        requires
            self.wf(),
            used_bits <= 7,
        ensures
            r == match_bit_counts_spec(self.view().cands, prefix, used_bits),
    {
        let ghost cs = self.view().cands;
        if self.cached_candidates.len() == 0 {
            return None;
        }
        let mut count0: u64 = 0;
        let mut count1: u64 = 0;
        let mut i: usize = 0;
        assert(cs.take(0) =~= Seq::<MatchCandidate>::empty());
        while i < self.cached_candidates.len()
            invariant
                cs == self.cached_candidates@,
                cs.len() <= 1024,
                used_bits <= 7,
                i <= cs.len(),
                count0 == cand_prefix_count(cs.take(i as int), prefix, used_bits, 0),
                count1 == cand_prefix_count(cs.take(i as int), prefix, used_bits, 1),
            decreases cs.len() - i,
        {
            proof {
                let ci = cs.take(i as int + 1);
                assert(ci.drop_last() =~= cs.take(i as int));
                assert(ci.last() == cs[i as int]);
                lemma_cand_prefix_bound(ci, prefix, used_bits);
                assert((i + 1) * u32::MAX <= 1024 * u32::MAX) by (nonlinear_arith)
                    requires
                        i + 1 <= 1024,
                ;
            }
            let c = self.cached_candidates[i];
            if byte_matches_prefix(c.symbol, prefix, used_bits) {
                if next_bit(c.symbol, used_bits) == 0 {
                    count0 = count0 + c.weight as u64;
                } else {
                    count1 = count1 + c.weight as u64;
                }
            }
            i = i + 1;
        }
        assert(cs.take(cs.len() as int) =~= cs);
        if count0 == 0 && count1 == 0 {
            None
        } else {
            Some((count0, count1))
        }
    }
}

/// Which of the three model families take part in the mix.
#[derive(Clone, Copy, Debug, PartialEq, Eq, Structural)]
pub struct ModelConfig {
    pub use_bit_model: bool,
    pub use_byte_model: bool,
    pub use_match_model: bool,
}

impl ModelConfig {
    pub fn new(use_bit_model: bool, use_byte_model: bool, use_match_model: bool) -> (c: Self)
        ensures
            c == (ModelConfig { use_bit_model, use_byte_model, use_match_model }),
    {
        ModelConfig { use_bit_model, use_byte_model, use_match_model }
    }
}

/// Every family's counts for the next bit.
pub struct HybridPredictions {
    pub bit: Vec<OrderCounts>,
    pub byte: Vec<OrderCounts>,
    pub match_counts: Option<(u64, u64)>,
}

/// The same orders with nothing to say, for a family left out of the mix.
pub open spec fn silenced(p: Seq<OrderCounts>, on: bool) -> Seq<OrderCounts> {
    if on {
        p
    } else {
        p.map_values(|c: OrderCounts| OrderCounts { order: c.order, counts: None })
    }
}

fn silence(p: Vec<OrderCounts>, on: bool) -> (r: Vec<OrderCounts>)
    ensures
        r@ == silenced(p@, on),
{
    if on {
        return p;
    }
    let mut r: Vec<OrderCounts> = Vec::new();
    let mut i: usize = 0;
    while i < p.len()
        invariant
            i <= p@.len(),
            r@ == silenced(p@.take(i as int), false),
        decreases p@.len() - i,
    {
        r.push(OrderCounts { order: p[i].order, counts: None });
        i = i + 1;
        assert(r@ =~= silenced(p@.take(i as int), false));
    }
    assert(p@.take(p@.len() as int) =~= p@);
    r
}

/// The model state behind the mixing codec.
pub struct HybridMatchView {
    pub contexts: HybridView,
    pub matcher: MatchView,
}

/// The model after bit `bit`: the contexts count it, and a completed byte
/// also goes to the match model.
pub open spec fn hybrid_match_observe(v: HybridMatchView, bit: u8) -> HybridMatchView {
    HybridMatchView {
        contexts: hybrid_observe(v.contexts, bit),
        matcher: if v.contexts.used_bits + 1 == 8 {
            match_observe(
                v.matcher,
                shifted(v.contexts.current_byte, bit),
                MATCH_WINDOW as int,
                MATCH_HASH_LEN as int,
                MATCH_MAX_CANDIDATES as int,
            )
        } else {
            v.matcher
        },
    }
}

/// Bit and byte contexts beside the match model, with the families that
/// take part.
pub struct HybridModel {
    contexts: crate::hybrid_ppm::HybridModel,
    matcher: MatchModel,
    config: ModelConfig,
}

impl HybridModel {
    pub closed spec fn view(&self) -> HybridMatchView {
        HybridMatchView { contexts: self.contexts.view(), matcher: self.matcher.view() }
    }

    pub closed spec fn config(&self) -> ModelConfig {
        self.config
    }

    pub closed spec fn wf(&self) -> bool {
        &&& self.contexts.wf()
        &&& self.matcher.wf()
        &&& self.matcher.window() == MATCH_WINDOW
        &&& self.matcher.hash_len() == MATCH_HASH_LEN
        &&& self.matcher.max_candidates() == MATCH_MAX_CANDIDATES
    }

    pub fn new(bit_max_order: usize, byte_max_order: usize, config: ModelConfig) -> (m: Self)
        requires
            1 <= bit_max_order <= crate::hybrid_ppm::BIT_MAX_ORDER,
            1 <= byte_max_order <= crate::hybrid_ppm::BYTE_MAX_ORDER,
        ensures
            m.wf(),
            m.config() == config,
            m.view() == (HybridMatchView {
                contexts: hybrid_init(bit_max_order as int, byte_max_order as int),
                matcher: match_init(),
            }),
    {
        HybridModel {
            contexts: crate::hybrid_ppm::HybridModel::new(bit_max_order, byte_max_order),
            matcher: MatchModel::new(MATCH_WINDOW, MATCH_HASH_LEN, MATCH_MAX_CANDIDATES),
            config,
        }
    }

    /// Every family's counts for the next bit; a family left out of the mix
    /// says nothing.
    pub fn predictions(&self) -> (r: HybridPredictions)
        requires
            self.wf(),
        ensures
            r.bit@ == silenced(bit_predictions_spec(self.view().contexts), self.config().use_bit_model),
            r.byte@ == silenced(byte_predictions_spec(self.view().contexts), self.config().use_byte_model),
            r.match_counts == (if self.config().use_match_model {
                match_bit_counts_spec(
                    self.view().matcher.cands,
                    self.view().contexts.current_byte,
                    self.view().contexts.used_bits,
                )
            } else {
                None
            }),
    {
        proof {
            self.contexts.lemma_wf();
        }
        let bit = silence(self.contexts.bit_predictions(), self.config.use_bit_model);
        let byte = silence(self.contexts.byte_predictions(), self.config.use_byte_model);
        let match_counts = if self.config.use_match_model {
            self.matcher.bit_counts(self.contexts.current_byte(), self.contexts.used_bits())
        } else {
            None
        };
        HybridPredictions { bit, byte, match_counts }
    }

    /// Counts bit `bit`; a completed byte also goes to the match model.
    pub fn observe_bit(&mut self, bit: u8)
        requires
            old(self).wf(),
            bit <= 1,
        ensures
            final(self).wf(),
            final(self).config() == old(self).config(),
            final(self).view() == hybrid_match_observe(old(self).view(), bit),
    {
        proof {
            self.contexts.lemma_wf();
        }
        let cb: u8 = (self.contexts.current_byte() << 1u8) | bit;
        let full = self.contexts.used_bits() + 1 == 8;
        self.contexts.observe_bit(bit);
        if full {
            self.matcher.observe(cb);
        }
    }
}


// ---------------------------------------------------------------------------
// What the match model predicts after any bytes

/// The match model after the bytes `bytes`, from `v` on.
pub open spec fn match_run(v: MatchView, bytes: Seq<u8>, window: int, hash_len: int, max_candidates: int) -> MatchView
    decreases bytes.len(),
{
    if bytes.len() == 0 {
        v
    } else {
        match_observe(
            match_run(v, bytes.drop_last(), window, hash_len, max_candidates),
            bytes.last(),
            window,
            hash_len,
            max_candidates,
        )
    }
}

proof fn lemma_match_length_prefix(data: Seq<u8>, c: int, cur: int, k: int, q: int)
    requires
        0 <= k <= q < match_length_from(data, c, cur, k),
    ensures
        cur + q < data.len(),
        c < cur,
        data[c + q % (cur - c)] == data[cur + q],
    decreases MATCH_MAX_LOOKAHEAD - k,
{
    if k < q {
        lemma_match_length_prefix(data, c, cur, k + 1, q);
    }
}

/// A recorded position offers a candidate only from within the window, when
/// the bytes after it repeat the last `hash_len` bytes; the candidate is the
/// byte that followed the repeat, weighted by its length and distance.
proof fn lemma_candidate_at(data: Seq<u8>, c: int, ss: int, window: int, hash_len: int)
    requires
        candidate_at(data, c, ss, window, hash_len) is Some,
    ensures
        ({
            let x = candidate_at(data, c, ss, window, hash_len)->Some_0;
            let d = ss - c;
            let len = match_length_from(data, c, ss, 0);
            &&& 0 < d <= window
            &&& len >= hash_len
            &&& forall|k: int| 0 <= k < hash_len ==> #[trigger] data[c + k % d] == data[ss + k]
            &&& x.symbol == data[c + len % d]
            &&& x.weight == match_weight_spec(len, d)
            &&& x.weight >= 1
        }),
{
    let d = ss - c;
    let len = match_length_from(data, c, ss, 0);
    assert forall|k: int| 0 <= k < hash_len implies #[trigger] data[c + k % d] == data[ss + k] by {
        lemma_match_length_prefix(data, c, ss, 0, k);
    }
}

proof fn lemma_candidates_from(data: Seq<u8>, ps: Seq<usize>, ss: int, window: int, hash_len: int)
    ensures
        candidates_of(data, ps, ss, window, hash_len).len() <= ps.len(),
        forall|i: int|
            0 <= i < candidates_of(data, ps, ss, window, hash_len).len() ==> exists|j: int|
                0 <= j < ps.len() && candidate_at(data, ps[j] as int, ss, window, hash_len) == Some(
                    #[trigger] candidates_of(data, ps, ss, window, hash_len)[i],
                ),
    decreases ps.len(),
{
    if ps.len() > 0 {
        let d = ps.drop_last();
        lemma_candidates_from(data, d, ss, window, hash_len);
        let rest = candidates_of(data, d, ss, window, hash_len);
        let all = candidates_of(data, ps, ss, window, hash_len);
        assert forall|i: int| 0 <= i < all.len() implies exists|j: int|
            0 <= j < ps.len() && candidate_at(data, ps[j] as int, ss, window, hash_len) == Some(#[trigger] all[i]) by {
            match candidate_at(data, ps.last() as int, ss, window, hash_len) {
                Some(x) => {
                    if i == 0 {
                        assert(candidate_at(data, ps[ps.len() - 1] as int, ss, window, hash_len) == Some(all[i]));
                    } else {
                        assert(all[i] == rest[i - 1]);
                        let j = choose|j: int| 0 <= j < d.len() && candidate_at(data, d[j] as int, ss, window, hash_len) == Some(rest[i - 1]);
                        assert(ps[j] == d[j]);
                    }
                },
                None => {
                    let j = choose|j: int| 0 <= j < d.len() && candidate_at(data, d[j] as int, ss, window, hash_len) == Some(rest[i]);
                    assert(ps[j] == d[j]);
                },
            }
        }
    }
}

/// The (saturating) sum of the weights of the candidates offering `s`.
pub open spec fn offered_weight(cs: Seq<MatchCandidate>, s: u8) -> u32
    decreases cs.len(),
{
    if cs.len() == 0 {
        0
    } else {
        let w = offered_weight(cs.drop_last(), s);
        if cs.last().symbol == s {
            if w + cs.last().weight > u32::MAX {
                u32::MAX
            } else {
                (w + cs.last().weight) as u32
            }
        } else {
            w
        }
    }
}

proof fn lemma_first_index_at(l: Seq<WeightedSymbol>, s: u8, k: int)
    requires
        0 <= k <= l.len(),
        k < l.len() ==> l[k].symbol == s,
        forall|i: int| 0 <= i < k ==> (#[trigger] l[i]).symbol != s,
    ensures
        first_index(l, s) == k,
    decreases k,
{
    if k > 0 {
        assert forall|i: int| 0 <= i < k - 1 implies (#[trigger] l.drop_first()[i]).symbol != s by {
            assert(l.drop_first()[i] == l[i + 1]);
        }
        if k < l.len() {
            assert(l.drop_first()[k - 1] == l[k]);
        }
        assert(l[0].symbol != s);
        lemma_first_index_at(l.drop_first(), s, k - 1);
    }
}

/// Each merged entry weighs the (saturating) sum of the candidates
/// offering its byte; a byte no candidate offers weighs nothing.
proof fn lemma_merge_weights(cs: Seq<MatchCandidate>)
    ensures
        forall|s: u8|
            #[trigger] first_index(merge_candidates(cs), s) < merge_candidates(cs).len() ==> merge_candidates(
                cs,
            )[first_index(merge_candidates(cs), s)].weight == offered_weight(cs, s),
        forall|s: u8|
            #[trigger] first_index(merge_candidates(cs), s) >= merge_candidates(cs).len() ==> offered_weight(cs, s)
                == 0,
    decreases cs.len(),
{
    if cs.len() > 0 {
        let d = cs.drop_last();
        lemma_merge_weights(d);
        let m = merge_candidates(d);
        let x = cs.last();
        let r = merge_candidates(cs);
        lemma_first_index(m, x.symbol);
        let k = first_index(m, x.symbol);
        assert forall|s: u8| #[trigger] first_index(r, s) < r.len() implies r[first_index(r, s)].weight
            == offered_weight(cs, s) by {
            lemma_first_index(m, s);
            let p = first_index(m, s);
            if s == x.symbol {
                if k < m.len() {
                    assert forall|i: int| 0 <= i < k implies (#[trigger] r[i]).symbol != s by {
                        assert(r[i] == m[i]);
                    }
                    lemma_first_index_at(r, s, k);
                } else {
                    assert forall|i: int| 0 <= i < m.len() implies (#[trigger] r[i]).symbol != s by {
                        assert(r[i] == m[i]);
                    }
                    lemma_first_index_at(r, s, m.len() as int);
                }
            } else {
                if p < m.len() {
                    assert(p != k);
                    assert forall|i: int| 0 <= i < p implies (#[trigger] r[i]).symbol != s by {
                        if k < m.len() && i == k {
                        } else {
                            assert(r[i] == m[i]);
                        }
                    }
                    lemma_first_index_at(r, s, p);
                } else {
                    assert forall|i: int| 0 <= i < r.len() implies (#[trigger] r[i]).symbol != s by {
                        if i < m.len() && !(k < m.len() && i == k) {
                            assert(r[i] == m[i]);
                        }
                    }
                    lemma_first_index_at(r, s, r.len() as int);
                }
            }
        }
        assert forall|s: u8| #[trigger] first_index(r, s) >= r.len() implies offered_weight(cs, s) == 0 by {
            lemma_first_index(m, s);
            lemma_first_index(r, s);
            let p = first_index(m, s);
            if s == x.symbol {
                if k < m.len() {
                    assert forall|i: int| 0 <= i < k implies (#[trigger] r[i]).symbol != s by {
                        assert(r[i] == m[i]);
                    }
                    lemma_first_index_at(r, s, k);
                } else {
                    assert forall|i: int| 0 <= i < m.len() implies (#[trigger] r[i]).symbol != s by {
                        assert(r[i] == m[i]);
                    }
                    lemma_first_index_at(r, s, m.len() as int);
                }
            } else if p < m.len() {
                assert(p != k);
                assert forall|i: int| 0 <= i < p implies (#[trigger] r[i]).symbol != s by {
                    if k < m.len() && i == k {
                    } else {
                        assert(r[i] == m[i]);
                    }
                }
                lemma_first_index_at(r, s, p);
            }
        }
    }
}

/// Merging keeps one entry per byte, and a byte has an entry exactly when
/// some candidate offers it.
proof fn lemma_merge_distinct(cs: Seq<MatchCandidate>)
    ensures
        forall|i: int, j: int|
            0 <= i < j < merge_candidates(cs).len() ==> (#[trigger] merge_candidates(cs)[i]).symbol
                != (#[trigger] merge_candidates(cs)[j]).symbol,
        forall|s: u8|
            (first_index(merge_candidates(cs), s) < merge_candidates(cs).len()) == (exists|i: int|
                0 <= i < cs.len() && (#[trigger] cs[i]).symbol == s),
    decreases cs.len(),
{
    if cs.len() > 0 {
        let d = cs.drop_last();
        lemma_merge_distinct(d);
        let m = merge_candidates(d);
        let x = cs.last();
        let r = merge_candidates(cs);
        lemma_first_index(m, x.symbol);
        let k = first_index(m, x.symbol);
        assert forall|s: u8| (first_index(r, s) < r.len()) == (exists|i: int| 0 <= i < cs.len() && (#[trigger] cs[i]).symbol == s) by {
            lemma_first_index(r, s);
            lemma_first_index(m, s);
            if exists|i: int| 0 <= i < d.len() && (#[trigger] d[i]).symbol == s {
                let i = choose|i: int| 0 <= i < d.len() && (#[trigger] d[i]).symbol == s;
                assert(cs[i] == d[i]);
                let p = first_index(m, s);
                assert(r[p].symbol == s);
            } else if s == x.symbol {
                assert(cs[cs.len() - 1].symbol == s);
                if k < m.len() {
                    assert(r[k].symbol == s);
                } else {
                    assert(r[m.len() as int].symbol == s);
                }
            } else {
                assert forall|i: int| 0 <= i < cs.len() implies (#[trigger] cs[i]).symbol != s by {
                    if i < d.len() {
                        assert(cs[i] == d[i]);
                    }
                }
                assert forall|i: int| 0 <= i < r.len() implies (#[trigger] r[i]).symbol != s by {
                    if i < m.len() {
                        assert(m[i].symbol != s) by {
                            if m[i].symbol == s {
                                lemma_first_index(m, s);
                            }
                        }
                    }
                }
                if first_index(r, s) < r.len() {
                    assert(r[first_index(r, s)].symbol == s);
                }
            }
        }
        assert forall|i: int, j: int| 0 <= i < j < r.len() implies (#[trigger] r[i]).symbol != (#[trigger] r[j]).symbol by {
            if k >= m.len() && j == m.len() {
                assert(m[i].symbol != x.symbol);
            } else {
                assert(r[i].symbol == m[i].symbol);
                assert(r[j].symbol == m[j].symbol);
            }
        }
    }
}

/// The positions recorded under every hash are strictly increasing (oldest
/// first, so each at most once), and each starts a full key within `data`.
pub open spec fn positions_ordered(positions: Map<u32, Seq<usize>>, data: Seq<u8>, hash_len: int) -> bool {
    forall|k: u32|
        #[trigger] positions.contains_key(k) ==> {
            let ps = positions[k];
            &&& forall|i: int, j: int| 0 <= i < j < ps.len() ==> ps[i] < ps[j]
            &&& forall|i: int| 0 <= i < ps.len() ==> ps[i] + hash_len <= data.len()
        }
}

proof fn lemma_trim_count_suffix(q: Seq<usize>, max: int)
    ensures
        trim_count(q, max).len() <= q.len(),
        trim_count(q, max) == q.subrange(q.len() - trim_count(q, max).len(), q.len() as int),
    decreases q.len(),
{
    if q.len() > max && q.len() > 0 {
        lemma_trim_count_suffix(q.drop_first(), max);
        let t = trim_count(q.drop_first(), max);
        assert(q.drop_first().subrange(q.drop_first().len() - t.len(), q.drop_first().len() as int) =~= q.subrange(
            q.len() - t.len(),
            q.len() as int,
        ));
    } else {
        assert(q.subrange(0, q.len() as int) =~= q);
    }
}

proof fn lemma_trim_window_suffix(q: Seq<usize>, position: int, window: int)
    ensures
        trim_window(q, position, window).len() <= q.len(),
        trim_window(q, position, window) == q.subrange(
            q.len() - trim_window(q, position, window).len(),
            q.len() as int,
        ),
    decreases q.len(),
{
    if q.len() > 0 && (if position >= q[0] { position - q[0] } else { 0 }) > window {
        lemma_trim_window_suffix(q.drop_first(), position, window);
        let t = trim_window(q.drop_first(), position, window);
        assert(q.drop_first().subrange(q.drop_first().len() - t.len(), q.drop_first().len() as int) =~= q.subrange(
            q.len() - t.len(),
            q.len() as int,
        ));
    } else {
        assert(q.subrange(0, q.len() as int) =~= q);
    }
}

/// Observing a byte keeps the recorded positions ordered.
proof fn lemma_observe_ordered(v: MatchView, b: u8, window: int, hash_len: int, max_candidates: int)
    requires
        hash_len >= 0,
        v.data.len() < usize::MAX,
        positions_ordered(v.positions, v.data, hash_len),
    ensures
        ({
            let w = match_observe(v, b, window, hash_len, max_candidates);
            &&& w.data == v.data.push(b)
            &&& positions_ordered(w.positions, w.data, hash_len)
        }),
{
    let data = v.data.push(b);
    let w = match_observe(v, b, window, hash_len, max_candidates);
    if data.len() >= hash_len {
        let position = data.len() - hash_len;
        let key = match_key_spec(data, position, hash_len);
        let old = positions_of(v.positions, key);
        let q = old.push(position as usize);
        let t = trim_count(q, max_candidates);
        let u = trim_window(t, position, window);
        lemma_trim_count_suffix(q, max_candidates);
        lemma_trim_window_suffix(t, position, window);
        assert forall|i: int, j: int| 0 <= i < j < q.len() implies q[i] < q[j] by {
            assert(v.positions.contains_key(key));
            assert(q[i] == old[i]);
            if j == q.len() - 1 {
                assert(q[j] as int == position);
                assert(old[i] + hash_len <= v.data.len());
            } else {
                assert(q[j] == old[j]);
            }
        }
        assert forall|i: int| 0 <= i < q.len() implies q[i] + hash_len <= data.len() by {
            if i < q.len() - 1 {
                assert(v.positions.contains_key(key));
                assert(q[i] == old[i]);
            } else {
                assert(q[i] as int == position);
            }
        }
        assert forall|i: int, j: int| 0 <= i < j < u.len() implies u[i] < u[j] by {
            let a = q.len() - t.len();
            let c = t.len() - u.len();
            assert(u[i] == t[c + i] && u[j] == t[c + j]);
            assert(t[c + i] == q[a + c + i] && t[c + j] == q[a + c + j]);
        }
        assert forall|i: int| 0 <= i < u.len() implies u[i] + hash_len <= data.len() by {
            let a = q.len() - t.len();
            let c = t.len() - u.len();
            assert(u[i] == t[c + i]);
            assert(t[c + i] == q[a + c + i]);
        }
        assert forall|k: u32| #[trigger] w.positions.contains_key(k) implies {
            let ps = w.positions[k];
            &&& forall|i: int, j: int| 0 <= i < j < ps.len() ==> ps[i] < ps[j]
            &&& forall|i: int| 0 <= i < ps.len() ==> ps[i] + hash_len <= data.len()
        } by {
            if k != key {
                assert(v.positions.contains_key(k));
            }
        }
    } else {
        assert forall|k: u32| #[trigger] w.positions.contains_key(k) implies {
            let ps = w.positions[k];
            &&& forall|i: int, j: int| 0 <= i < j < ps.len() ==> ps[i] < ps[j]
            &&& forall|i: int| 0 <= i < ps.len() ==> ps[i] + hash_len <= data.len()
        } by {
            assert(v.positions.contains_key(k));
        }
    }
}

/// After any bytes from a fresh model the recorded positions are ordered.
proof fn lemma_run_ordered(bytes: Seq<u8>, window: int, hash_len: int, max_candidates: int)
    requires
        hash_len >= 0,
        bytes.len() <= usize::MAX,
    ensures
        positions_ordered(
            match_run(match_init(), bytes, window, hash_len, max_candidates).positions,
            bytes,
            hash_len,
        ),
    decreases bytes.len(),
{
    if bytes.len() == 0 {
    } else {
        lemma_run_ordered(bytes.drop_last(), window, hash_len, max_candidates);
        let u = match_run(match_init(), bytes.drop_last(), window, hash_len, max_candidates);
        lemma_match_run_data(bytes.drop_last(), window, hash_len, max_candidates);
        lemma_observe_ordered(u, bytes.last(), window, hash_len, max_candidates);
        assert(bytes.drop_last().push(bytes.last()) =~= bytes);
    }
}

proof fn lemma_match_run_data(bytes: Seq<u8>, window: int, hash_len: int, max_candidates: int)
    ensures
        match_run(match_init(), bytes, window, hash_len, max_candidates).data == bytes,
    decreases bytes.len(),
{
    if bytes.len() > 0 {
        lemma_match_run_data(bytes.drop_last(), window, hash_len, max_candidates);
        assert(bytes.drop_last().push(bytes.last()) =~= bytes);
    }
}

/// After any bytes, the match model predicts nothing until `hash_len`
/// bytes are seen. The positions recorded under each hash are strictly
/// increasing and start full keys. The candidates, newest first and at most
/// `max_candidates`, are those of the positions recorded under the hash of
/// the last `hash_len` bytes (one per position offering a match); each comes
/// from a position within the window whose following bytes repeat the last
/// `hash_len` bytes, offers the byte that followed the repeat and weighs
/// `match_weight_spec` of the repeat's length and distance, at least 1. The
/// merged predictions hold each offered byte exactly once, weighing the
/// (saturating) sum of the candidates offering it.
pub proof fn lemma_match_predictions(bytes: Seq<u8>, window: int, hash_len: int, max_candidates: int)
    requires
        hash_len >= 0,
        max_candidates >= 0,
        bytes.len() <= usize::MAX,
    ensures
        ({
            let v = match_run(match_init(), bytes, window, hash_len, max_candidates);
            let ss = bytes.len() - hash_len;
            &&& v.data == bytes
            &&& bytes.len() < hash_len ==> v.cands.len() == 0 && v.syms.len() == 0
            &&& bytes.len() >= hash_len ==> (v.cands, v.syms) == refresh_spec(bytes, v.positions, window, hash_len)
            &&& v.cands.len() <= max_candidates
            &&& v.syms == merge_candidates(v.cands)
            &&& forall|i: int|
                #![trigger v.cands[i]]
                0 <= i < v.cands.len() ==> exists|c: int|
                    #![trigger candidate_at(bytes, c, ss, window, hash_len)]
                    candidate_at(bytes, c, ss, window, hash_len) == Some(v.cands[i]) && 0 < ss - c <= window
                        && match_length_from(bytes, c, ss, 0) >= hash_len && v.cands[i].weight >= 1
                        && v.cands[i].weight == match_weight_spec(match_length_from(bytes, c, ss, 0), ss - c)
                        && v.cands[i].symbol == bytes[c + match_length_from(bytes, c, ss, 0) % (ss - c)]
            &&& positions_ordered(v.positions, bytes, hash_len)
            &&& forall|s: u8|
                #[trigger] first_index(v.syms, s) < v.syms.len() ==> v.syms[first_index(v.syms, s)].weight
                    == offered_weight(v.cands, s)
            &&& forall|i: int, j: int|
                0 <= i < j < v.syms.len() ==> (#[trigger] v.syms[i]).symbol != (#[trigger] v.syms[j]).symbol
            &&& forall|s: u8|
                (first_index(v.syms, s) < v.syms.len()) == (exists|i: int|
                    0 <= i < v.cands.len() && (#[trigger] v.cands[i]).symbol == s)
        }),
    decreases bytes.len(),
{
    let v = match_run(match_init(), bytes, window, hash_len, max_candidates);
    let ss = bytes.len() - hash_len;
    lemma_run_ordered(bytes, window, hash_len, max_candidates);
    lemma_merge_weights(v.cands);
    if bytes.len() == 0 {
        assert(merge_candidates(Seq::<MatchCandidate>::empty()) =~= Seq::<WeightedSymbol>::empty());
    } else {
        lemma_match_predictions(bytes.drop_last(), window, hash_len, max_candidates);
        let u = match_run(match_init(), bytes.drop_last(), window, hash_len, max_candidates);
        assert(bytes.drop_last().push(bytes.last()) =~= bytes);
        if bytes.len() >= hash_len {
            let position = bytes.len() - hash_len;
            let key = match_key_spec(bytes, position, hash_len);
            let q = positions_of(u.positions, key).push(position as usize);
            let t = trim_count(q, max_candidates);
            lemma_trim_count(q, max_candidates);
            lemma_trim_window(t, position, window);
            assert(v.positions.contains_key(key));
            let ps = v.positions[key];
            lemma_candidates_from(bytes, ps, ss, window, hash_len);
            let cs = candidates_of(bytes, ps, ss, window, hash_len);
            assert(v.cands == cs);
            assert forall|i: int| #![trigger v.cands[i]] 0 <= i < v.cands.len() implies exists|c: int|
                #![trigger candidate_at(bytes, c, ss, window, hash_len)]
                candidate_at(bytes, c, ss, window, hash_len) == Some(v.cands[i]) && 0 < ss - c <= window
                    && match_length_from(bytes, c, ss, 0) >= hash_len && v.cands[i].weight >= 1
                    && v.cands[i].symbol == bytes[c + match_length_from(bytes, c, ss, 0) % (ss - c)] by {
                let j = choose|j: int| 0 <= j < ps.len() && candidate_at(bytes, ps[j] as int, ss, window, hash_len) == Some(#[trigger] cs[i]);
                lemma_candidate_at(bytes, ps[j] as int, ss, window, hash_len);
            }
            lemma_merge_distinct(v.cands);
        } else {
            lemma_merge_distinct(v.cands);
        }
    }
}

} // verus!
