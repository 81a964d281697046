//! Coding a byte against a weighted candidate list: a listed byte takes
//! its share of the list's weight, any other byte escapes and is then
//! coded flat among all values.
use vstd::prelude::*;
use crate::arith::{ArithmeticEncoder, ArithmeticDecoder, CodeRange, DecState, code_range, enc_seq, enc_step, dec_step, dec_target, in_range, range_codable, synced, QUARTER, lemma_enc_seq_append, lemma_enc_seq_one, lemma_synced_step};
use crate::error::CodecError;
use crate::byte_ppm::ranges_overlap;

verus! {

/// A candidate byte and its weight.
#[derive(Clone, Copy, Debug, PartialEq, Eq, Structural)]
pub struct WeightedSymbol {
    pub symbol: u8,
    pub weight: u32,
}

pub open spec fn weight_sum(c: Seq<WeightedSymbol>) -> int
    decreases c.len(),
{
    if c.len() == 0 {
        0
    } else {
        weight_sum(c.drop_last()) + c.last().weight
    }
}

/// Index of the first candidate for `s`, or the list length.
pub open spec fn first_index(c: Seq<WeightedSymbol>, s: u8) -> int
    decreases c.len(),
{
    if c.len() == 0 || c[0].symbol == s {
        0
    } else {
        1 + first_index(c.drop_first(), s)
    }
}

/// The list can be coded with escape weight `esc`: every weight positive and
/// the whole total within the coder's limit.
pub open spec fn candidates_codable(c: Seq<WeightedSymbol>, esc: u32) -> bool {
    &&& forall|i: int| 0 <= i < c.len() ==> #[trigger] c[i].weight >= 1
    &&& 1 <= esc
    &&& weight_sum(c) + esc <= QUARTER
}

/// The ranges coding `s` against candidates `c`, escape weight `esc` and
/// `flat` equally likely values after an escape.
pub open spec fn candidate_ranges(c: Seq<WeightedSymbol>, s: u8, esc: u32, flat: u32) -> Seq<
    CodeRange,
> {
    let total = (weight_sum(c) + esc) as u32;
    let i = first_index(c, s);
    if i < c.len() {
        seq![code_range(weight_sum(c.take(i)) as u32, c[i].weight, total)]
    } else {
        seq![code_range(weight_sum(c) as u32, esc, total), code_range(s as u32, 1, flat)]
    }
}

/// The weight of two lists joined is the sum of their weights.
pub proof fn lemma_weight_sum_append(a: Seq<WeightedSymbol>, b: Seq<WeightedSymbol>)
    ensures
        weight_sum(a + b) == weight_sum(a) + weight_sum(b),
    decreases b.len(),
{
    if b.len() == 0 {
        assert(a + b =~= a);
    } else {
        assert((a + b).drop_last() =~= a + b.drop_last());
        lemma_weight_sum_append(a, b.drop_last());
    }
}

/// Prefix weights grow with the prefix; one more entry adds its weight.
pub proof fn lemma_weight_sum_take(c: Seq<WeightedSymbol>, i: int, j: int)
    requires
        0 <= i <= j <= c.len(),
    ensures
        0 <= weight_sum(c.take(i)) <= weight_sum(c.take(j)) <= weight_sum(c),
        j == i + 1 ==> weight_sum(c.take(j)) == weight_sum(c.take(i)) + c[i].weight,
    decreases c.len(),
{
    lemma_weight_sum_nonneg(c.take(i));
    assert(c.take(j) =~= c.take(i) + c.subrange(i, j));
    lemma_weight_sum_append(c.take(i), c.subrange(i, j));
    lemma_weight_sum_nonneg(c.subrange(i, j));
    assert(c =~= c.take(j) + c.subrange(j, c.len() as int));
    lemma_weight_sum_append(c.take(j), c.subrange(j, c.len() as int));
    lemma_weight_sum_nonneg(c.subrange(j, c.len() as int));
    if j == i + 1 {
        assert(c.subrange(i, j) =~= seq![c[i]]);
        assert(seq![c[i]].drop_last() =~= Seq::<WeightedSymbol>::empty());
        reveal_with_fuel(weight_sum, 2);
    }
}

/// A list's weight is never negative.
pub proof fn lemma_weight_sum_nonneg(c: Seq<WeightedSymbol>)
    ensures
        weight_sum(c) >= 0,
    decreases c.len(),
{
    if c.len() > 0 {
        lemma_weight_sum_nonneg(c.drop_last());
    }
}

/// The first index of a byte is in range, holds the byte if it is listed,
/// and no earlier entry holds it.
pub proof fn lemma_first_index(c: Seq<WeightedSymbol>, s: u8)
    ensures
        0 <= first_index(c, s) <= c.len(),
        first_index(c, s) < c.len() ==> c[first_index(c, s)].symbol == s,
        forall|i: int| 0 <= i < first_index(c, s) ==> #[trigger] c[i].symbol != s,
    decreases c.len(),
{
    if c.len() > 0 && c[0].symbol != s {
        lemma_first_index(c.drop_first(), s);
        assert forall|i: int| 1 <= i < c.len() implies c[i] == c.drop_first()[i - 1] by {}
    }
}

/// The ranges are codable and the ones for distinct bytes diverge.
pub proof fn lemma_candidate_ranges(c: Seq<WeightedSymbol>, s: u8, esc: u32, flat: u32)
    requires
        candidates_codable(c, esc),
        1 <= flat <= QUARTER,
        (s as int) < flat,
    ensures
        forall|i: int|
            0 <= i < candidate_ranges(c, s, esc, flat).len() ==> range_codable(
                #[trigger] candidate_ranges(c, s, esc, flat)[i],
            ),
{
    lemma_first_index(c, s);
    lemma_weight_sum_nonneg(c);
    let i = first_index(c, s);
    if i < c.len() {
        lemma_weight_sum_take(c, i, i + 1);
        lemma_weight_sum_take(c, i + 1, c.len() as int);
    }
}

/// For distinct bytes the two codings agree up to a range where they share
/// a total but no value.
pub proof fn lemma_candidate_ranges_diverge(c: Seq<WeightedSymbol>, a: u8, b: u8, esc: u32, flat: u32) -> (j: int)
    requires
        candidates_codable(c, esc),
        1 <= flat <= QUARTER,
        (a as int) < flat,
        (b as int) < flat,
        a != b,
    ensures
        0 <= j < candidate_ranges(c, a, esc, flat).len(),
        j < candidate_ranges(c, b, esc, flat).len(),
        candidate_ranges(c, a, esc, flat).take(j) == candidate_ranges(c, b, esc, flat).take(j),
        candidate_ranges(c, a, esc, flat)[j].total == candidate_ranges(c, b, esc, flat)[j].total,
        !ranges_overlap(candidate_ranges(c, a, esc, flat)[j], candidate_ranges(c, b, esc, flat)[j]),
{
    let ra = candidate_ranges(c, a, esc, flat);
    let rb = candidate_ranges(c, b, esc, flat);
    lemma_first_index(c, a);
    lemma_first_index(c, b);
    lemma_weight_sum_nonneg(c);
    let ia = first_index(c, a);
    let ib = first_index(c, b);
    if ia < c.len() && ib < c.len() {
        assert(ia != ib);
        assert(ra.take(0) =~= rb.take(0));
        if ia < ib {
            lemma_weight_sum_take(c, ia, ia + 1);
            lemma_weight_sum_take(c, ia + 1, ib);
        } else {
            lemma_weight_sum_take(c, ib, ib + 1);
            lemma_weight_sum_take(c, ib + 1, ia);
        }
        0
    } else if ia < c.len() {
        assert(ra.take(0) =~= rb.take(0));
        lemma_weight_sum_take(c, ia, ia + 1);
        lemma_weight_sum_take(c, ia + 1, c.len() as int);
        assert(c.take(c.len() as int) =~= c);
        0
    } else if ib < c.len() {
        assert(ra.take(0) =~= rb.take(0));
        lemma_weight_sum_take(c, ib, ib + 1);
        lemma_weight_sum_take(c, ib + 1, c.len() as int);
        assert(c.take(c.len() as int) =~= c);
        0
    } else {
        assert(ra.take(1) =~= rb.take(1));
        1
    }
}

/// Whether the coder accepts the candidates with escape weight `esc`: every
/// weight positive and their sum, with the escape, within the coder's total.
pub fn candidates_fit(candidates: &[WeightedSymbol], esc: u32) -> (b: bool)
    ensures
        b == candidates_codable(candidates@, esc),
{
    if esc == 0 || esc as u64 > QUARTER {
        if esc != 0 {
            proof {
                lemma_weight_sum_nonneg(candidates@);
            }
        }
        return false;
    }
    let mut sum: u64 = esc as u64;
    let mut i: usize = 0;
    while i < candidates.len()
        invariant
            i <= candidates@.len(),
            1 <= esc,
            sum == weight_sum(candidates@.take(i as int)) + esc,
            sum <= QUARTER,
            forall|j: int| 0 <= j < i ==> #[trigger] candidates@[j].weight >= 1,
        decreases candidates@.len() - i,
    {
        proof {
            lemma_weight_sum_take(candidates@, i as int, i as int + 1);
            lemma_weight_sum_take(candidates@, i as int + 1, candidates@.len() as int);
        }
        if candidates[i].weight == 0 {
            return false;
        }
        sum = sum + candidates[i].weight as u64;
        if sum > QUARTER {
            return false;
        }
        i = i + 1;
    }
    assert(candidates@.take(candidates@.len() as int) =~= candidates@);
    true
}

/// Sums a candidate list's weights, starting from `start`.
pub fn total_weight(candidates: &[WeightedSymbol], start: u32) -> (t: u32)
    requires
        weight_sum(candidates@) + start <= u32::MAX,
    ensures
        t == weight_sum(candidates@) + start,
{
    let mut t = start;
    let mut i: usize = 0;
    while i < candidates.len()
        invariant
            i <= candidates@.len(),
            weight_sum(candidates@) + start <= u32::MAX,
            t == weight_sum(candidates@.take(i as int)) + start,
        decreases candidates@.len() - i,
    {
        proof {
            lemma_weight_sum_take(candidates@, i as int, i as int + 1);
            lemma_weight_sum_take(candidates@, i as int + 1, candidates@.len() as int);
        }
        t = t + candidates[i].weight;
        i = i + 1;
    }
    assert(candidates@.take(candidates@.len() as int) =~= candidates@);
    t
}

/// Codes `symbol` against `candidates`.
pub fn encode_candidates(
    symbol: u8,
    candidates: &[WeightedSymbol],
    esc: u32,
    flat: u32,
    encoder: &mut ArithmeticEncoder,
) -> (r: Result<(), CodecError>)
    requires
        candidates_codable(candidates@, esc),
        1 <= flat <= QUARTER,
        (symbol as int) < flat,
        old(encoder).wf(),
    ensures
        r is Ok ==> final(encoder).wf(),
        match enc_seq(old(encoder).view(), candidate_ranges(candidates@, symbol, esc, flat)) {
            Some(s) => r is Ok && final(encoder).view() == s,
            None => r == Err::<(), CodecError>(CodecError::PendingOverflow),
        },
{
    let ghost c = candidates@;
    proof {
        lemma_first_index(c, symbol);
        lemma_weight_sum_nonneg(c);
        lemma_candidate_ranges(c, symbol, esc, flat);
    }
    let total = total_weight(candidates, esc);
    let mut cum: u32 = 0;
    let mut i: usize = 0;
    while i < candidates.len()
        invariant
            c == candidates@,
            candidates_codable(c, esc),
            i <= c.len(),
            i <= first_index(c, symbol),
            0 <= first_index(c, symbol) <= c.len(),
            first_index(c, symbol) < c.len() ==> c[first_index(c, symbol)].symbol == symbol,
            forall|j: int| 0 <= j < first_index(c, symbol) ==> #[trigger] c[j].symbol != symbol,
            cum == weight_sum(c.take(i as int)),
            total == weight_sum(c) + esc,
            encoder.view() == old(encoder).view(),
            encoder.wf(),
        decreases c.len() - i,
    {
        proof {
            lemma_weight_sum_take(c, i as int, i as int + 1);
            lemma_weight_sum_take(c, i as int + 1, c.len() as int);
        }
        if candidates[i].symbol == symbol {
            proof {
                lemma_enc_seq_one(encoder.view(), code_range(cum, candidates[i as int].weight, total));
            }
            return encoder.encode(cum, candidates[i].weight, total);
        }
        cum = cum + candidates[i].weight;
        i = i + 1;
    }
    assert(c.take(c.len() as int) =~= c);
    proof {
        lemma_enc_seq_append(
            encoder.view(),
            seq![code_range(cum, esc, total)],
            seq![code_range(symbol as u32, 1, flat)],
        );
        assert(seq![code_range(cum, esc, total)] + seq![code_range(symbol as u32, 1, flat)]
            =~= candidate_ranges(c, symbol, esc, flat));
        lemma_enc_seq_one(encoder.view(), code_range(cum, esc, total));
    }
    match encoder.encode(cum, esc, total) {
        Ok(()) => {},
        Err(e) => {
            return Err(e);
        },
    }
    proof {
        lemma_enc_seq_one(encoder.view(), code_range(symbol as u32, 1, flat));
    }
    encoder.encode(symbol as u32, 1, flat)
}

/// Candidate `i` takes the part of the total that holds target `t`.
pub open spec fn holds_target(c: Seq<WeightedSymbol>, t: int, i: int) -> bool {
    0 <= i < c.len() && weight_sum(c.take(i)) <= t < weight_sum(c.take(i + 1))
}

/// The candidate whose part holds target `t`.
pub open spec fn target_index(c: Seq<WeightedSymbol>, t: int) -> int {
    choose|i: int| holds_target(c, t, i)
}

/// What decoding against candidates `c` gives from decoder state `d`: the
/// candidate whose part holds the target, or, past them, the escape and then
/// a flat choice; with the decoder's state afterwards.
pub open spec fn decode_outcome(c: Seq<WeightedSymbol>, esc: u32, flat: u32, d: DecState, data: Seq<u8>) -> (u8, DecState) {
    let ws = weight_sum(c);
    let total = ws + esc;
    let t = dec_target(d, total);
    if t < ws {
        let i = target_index(c, t);
        (c[i].symbol, dec_step(d, code_range(weight_sum(c.take(i)) as u32, c[i].weight, total as u32), data))
    } else {
        let d1 = dec_step(d, code_range(ws as u32, esc, total as u32), data);
        let v = dec_target(d1, flat as int);
        (v as u8, dec_step(d1, code_range(v as u32, 1, flat), data))
    }
}

/// Only one candidate's part holds a target.
pub proof fn lemma_target_index(c: Seq<WeightedSymbol>, t: int, i: int)
    requires
        holds_target(c, t, i),
    ensures
        target_index(c, t) == i,
{
    let j = target_index(c, t);
    assert(holds_target(c, t, j));
    if j < i {
        lemma_weight_sum_take(c, j + 1, i);
    } else if i < j {
        lemma_weight_sum_take(c, i + 1, j);
    }
}

/// A target below the candidates' total falls in some candidate's part.
pub proof fn lemma_target_exists(c: Seq<WeightedSymbol>, t: int)
    requires
        0 <= t < weight_sum(c),
    ensures
        holds_target(c, t, target_index(c, t)),
    decreases c.len(),
{
    let d = c.drop_last();
    let n = c.len() - 1;
    assert(c.take(n) =~= d);
    assert(c.take(n + 1) =~= c);
    if t < weight_sum(d) {
        lemma_weight_sum_nonneg(d);
        lemma_target_exists(d, t);
        let i = target_index(d, t);
        assert(c.take(i) =~= d.take(i));
        assert(c.take(i + 1) =~= d.take(i + 1));
        assert(holds_target(c, t, i));
    } else {
        assert(holds_target(c, t, n));
    }
}

/// Decodes a byte against `candidates`, mirroring `encode_candidates`.
pub fn decode_candidates(
    candidates: &[WeightedSymbol],
    esc: u32,
    flat: u32,
    decoder: &mut ArithmeticDecoder,
    Ghost(rs): Ghost<Seq<CodeRange>>,
    Ghost(k): Ghost<int>,
    Ghost(s): Ghost<u8>,
) -> (r: Result<u8, CodecError>)
    requires
        candidates_codable(candidates@, esc),
        1 <= flat <= QUARTER,
        flat <= 256,
        old(decoder).wf(),
    ensures
        final(decoder).wf(),
        final(decoder).data() == old(decoder).data(),
        r == Ok::<u8, CodecError>(decode_outcome(candidates@, esc, flat, old(decoder).view(), old(decoder).data()).0),
        final(decoder).view() == decode_outcome(candidates@, esc, flat, old(decoder).view(), old(decoder).data()).1,
        ({
            let sr = candidate_ranges(candidates@, s, esc, flat);
            synced(old(decoder).view(), old(decoder).data(), rs, k) && (s as int) < flat && k
                + sr.len() <= rs.len() && rs.subrange(k, k + sr.len()) == sr ==> r == Ok::<
                u8,
                CodecError,
            >(s) && synced(final(decoder).view(), final(decoder).data(), rs, k + sr.len())
        }),
{
    let ghost c = candidates@;
    let ghost data = decoder.data();
    let ghost sr = candidate_ranges(c, s, esc, flat);
    let ghost cond = synced(decoder.view(), data, rs, k) && (s as int) < flat && k + sr.len()
        <= rs.len() && rs.subrange(k, k + sr.len()) == sr;
    let ghost d0 = decoder.view();
    proof {
        lemma_first_index(c, s);
        lemma_weight_sum_nonneg(c);
        if cond {
            lemma_candidate_ranges(c, s, esc, flat);
            assert(rs.subrange(k, k + sr.len())[0] == rs[k]);
            lemma_synced_step(d0, data, rs, k);
        }
    }
    let total = total_weight(candidates, esc);
    let target = match decoder.target(total) {
        Ok(t) => t,
        Err(e) => {
            return Err(e);
        },
    };
    let mut cum: u32 = 0;
    let mut i: usize = 0;
    while i < candidates.len()
        invariant
            c == candidates@,
            candidates_codable(c, esc),
            i <= c.len(),
            cum == weight_sum(c.take(i as int)),
            cum <= target,
            target < total,
            total == weight_sum(c) + esc,
            decoder.view() == d0,
            decoder.wf(),
            decoder.data() == data,
            data == old(decoder).data(),
            d0 == old(decoder).view(),
            sr == candidate_ranges(c, s, esc, flat),
            cond == (synced(d0, data, rs, k) && (s as int) < flat && k + sr.len() <= rs.len()
                && rs.subrange(k, k + sr.len()) == sr),
            target as int == dec_target(d0, total as int),
            cond ==> i <= first_index(c, s),
            0 <= first_index(c, s) <= c.len(),
            first_index(c, s) < c.len() ==> c[first_index(c, s)].symbol == s,
            forall|j: int| 0 <= j < first_index(c, s) ==> #[trigger] c[j].symbol != s,
            cond ==> in_range(target as int, sr[0]),
            cond ==> synced(d0, data, rs, k) && rs[k] == sr[0],
            cond ==> synced(dec_step(d0, rs[k], data), data, rs, k + 1),
        decreases c.len() - i,
    {
        proof {
            lemma_weight_sum_take(c, i as int, i as int + 1);
            lemma_weight_sum_take(c, i as int + 1, c.len() as int);
        }
        let w = candidates[i].weight;
        if target < cum + w {
            let _ = decoder.consume(cum, w, total);
            proof {
                lemma_target_index(c, target as int, i as int);
                if cond {
                    if (i as int) < first_index(c, s) {
                        lemma_weight_sum_take(c, i as int + 1, first_index(c, s));
                    }
                    assert(i as int == first_index(c, s));
                    assert(sr[0] == code_range(cum, w, total));
                }
            }
            return Ok(candidates[i].symbol);
        }
        proof {
            if cond && (i as int) == first_index(c, s) {
                assert(sr[0] == code_range(cum, w, total));
            }
        }
        cum = cum + w;
        i = i + 1;
    }
    assert(c.take(c.len() as int) =~= c);
    let _ = decoder.consume(cum, esc, total);
    let ghost d1 = decoder.view();
    proof {
        if cond {
            assert(sr[0] == code_range(cum, esc, total));
            assert(rs.subrange(k, k + sr.len())[1] == rs[k + 1]);
            lemma_synced_step(d1, data, rs, k + 1);
        }
    }
    let value = match decoder.target(flat) {
        Ok(v) => v,
        Err(e) => {
            return Err(e);
        },
    };
    let _ = decoder.consume(value, 1, flat);
    Ok(value as u8)
}

} // verus!
