//! The binary arithmetic coder shared by every PPM-style codec: a 32-bit
//! range coder with bit-plus-follow carry handling, its exact state
//! transitions as spec functions, and the proof that the decoder recovers
//! every coded range from the encoder's output.
use vstd::prelude::*;
use vstd::arithmetic::power2::pow2;
use crate::bits::{BitReader, BitWriter, bytes_to_bits, padding, repeat_bit, stream_bit, bit_value};
use crate::error::CodecError;

verus! {

pub const MAX_RANGE: u64 = 0xFFFF_FFFF;
pub const HALF: u64 = 0x8000_0000;
pub const QUARTER: u64 = 0x4000_0000;
pub const THREE_QUARTERS: u64 = 0xC000_0000;

/// One coding decision: the sub-range `[cum, cum + freq)` of `[0, total)`.
pub struct CodeRange {
    pub cum: u32,
    pub freq: u32,
    pub total: u32,
}

pub open spec fn code_range(cum: u32, freq: u32, total: u32) -> CodeRange {
    CodeRange { cum, freq, total }
}

/// The frequencies describe a non-empty sub-range; the encoder accepts them.
pub open spec fn freqs_valid(cum: u32, freq: u32, total: u32) -> bool {
    freq != 0 && total != 0 && cum <= total && freq <= total - cum
}

/// A range the coder can represent: valid and with a total of at most 2^30.
pub open spec fn range_codable(r: CodeRange) -> bool {
    freqs_valid(r.cum, r.freq, r.total) && r.total <= QUARTER
}

/// The encoder's state: interval bounds, deferred bits and bits emitted.
pub struct EncState {
    pub low: int,
    pub high: int,
    pub pending: nat,
    pub out: Seq<bool>,
}

/// The decoder's state: interval bounds, code window and bits consumed.
pub struct DecState {
    pub low: int,
    pub high: int,
    pub code: int,
    pub reads: nat,
}

pub open spec fn renorm_needed(low: int, high: int) -> bool {
    high < HALF || low >= HALF || (low >= QUARTER && high < THREE_QUARTERS)
}

/// Interval bounds after renormalisation: within 32 bits and wider than a quarter.
pub open spec fn interval_wf(low: int, high: int) -> bool {
    0 <= low <= high <= MAX_RANGE && !renorm_needed(low, high)
}

pub open spec fn narrow_low(low: int, high: int, cum: int, total: int) -> int {
    low + (high - low + 1) * cum / total
}

pub open spec fn narrow_high(low: int, high: int, cum: int, freq: int, total: int) -> int {
    low + (high - low + 1) * (cum + freq) / total - 1
}

pub open spec fn enc_narrow(s: EncState, r: CodeRange) -> EncState {
    EncState {
        low: narrow_low(s.low, s.high, r.cum as int, r.total as int),
        high: narrow_high(s.low, s.high, r.cum as int, r.freq as int, r.total as int),
        ..s
    }
}

/// Shifts out settled bits until the interval is wider than a quarter;
/// `None` when the count of deferred bits would leave `usize`.
pub open spec fn enc_renorm(s: EncState) -> Option<EncState>
    decreases 0x1_0000_0000 - (s.high - s.low),
    when 0 <= s.low <= s.high <= MAX_RANGE
{
    if !renorm_needed(s.low, s.high) {
        Some(s)
    } else if s.high < HALF {
        enc_renorm(
            EncState {
                low: 2 * s.low,
                high: 2 * s.high + 1,
                pending: 0,
                out: s.out.push(false) + repeat_bit(true, s.pending),
            },
        )
    } else if s.low >= HALF {
        enc_renorm(
            EncState {
                low: 2 * (s.low - HALF),
                high: 2 * (s.high - HALF) + 1,
                pending: 0,
                out: s.out.push(true) + repeat_bit(false, s.pending),
            },
        )
    } else if s.pending >= usize::MAX {
        None
    } else {
        enc_renorm(
            EncState {
                low: 2 * (s.low - QUARTER),
                high: 2 * (s.high - QUARTER) + 1,
                pending: s.pending + 1,
                out: s.out,
            },
        )
    }
}

/// The encoder state after coding one range.
pub open spec fn enc_step(s: EncState, r: CodeRange) -> Option<EncState> {
    enc_renorm(enc_narrow(s, r))
}

pub open spec fn enc_init() -> EncState {
    EncState { low: 0, high: MAX_RANGE as int, pending: 0, out: Seq::empty() }
}

/// The encoder state after coding a sequence of ranges from the start.
pub open spec fn enc_run(rs: Seq<CodeRange>) -> Option<EncState>
    decreases rs.len(),
{
    if rs.len() == 0 {
        Some(enc_init())
    } else {
        match enc_run(rs.drop_last()) {
            Some(s) => enc_step(s, rs.last()),
            None => None,
        }
    }
}

/// The bits the encoder emits when it is finished in state `s`.
pub open spec fn enc_final_bits(s: EncState) -> Seq<bool> {
    let b = s.low >= QUARTER;
    s.out.push(b) + repeat_bit(!b, s.pending + 1)
}

/// The bytes a finished encoder hands out for a run of ranges.
pub open spec fn coded_bits(rs: Seq<CodeRange>) -> Seq<bool> {
    let f = enc_final_bits(enc_run(rs).unwrap());
    f + padding(f.len())
}

pub open spec fn bit_int(b: bool) -> int {
    if b { 1 } else { 0 }
}

/// The value of the first `n` bits of the zero-extended stream.
pub open spec fn stream_val(data: Seq<u8>, n: nat) -> int
    decreases n,
{
    if n == 0 {
        0
    } else {
        2 * stream_val(data, (n - 1) as nat) + bit_int(stream_bit(data, n - 1))
    }
}

pub open spec fn dec_init(data: Seq<u8>) -> DecState {
    DecState { low: 0, high: MAX_RANGE as int, code: stream_val(data, 32), reads: 32 }
}

pub open spec fn dec_narrow(d: DecState, r: CodeRange) -> DecState {
    DecState {
        low: narrow_low(d.low, d.high, r.cum as int, r.total as int),
        high: narrow_high(d.low, d.high, r.cum as int, r.freq as int, r.total as int),
        ..d
    }
}

pub open spec fn dec_renorm(d: DecState, data: Seq<u8>) -> DecState
    decreases 0x1_0000_0000 - (d.high - d.low),
    when 0 <= d.low <= d.high <= MAX_RANGE
{
    if !renorm_needed(d.low, d.high) {
        d
    } else {
        let c = if d.high < HALF {
            0
        } else if d.low >= HALF {
            HALF as int
        } else {
            QUARTER as int
        };
        dec_renorm(
            DecState {
                low: 2 * (d.low - c),
                high: 2 * (d.high - c) + 1,
                code: 2 * (d.code - c) + bit_int(stream_bit(data, d.reads as int)),
                reads: d.reads + 1,
            },
            data,
        )
    }
}

/// The decoder state after consuming one range.
pub open spec fn dec_step(d: DecState, r: CodeRange, data: Seq<u8>) -> DecState {
    dec_renorm(dec_narrow(d, r), data)
}

/// The decoder state after consuming a sequence of ranges from the start.
pub open spec fn dec_run(data: Seq<u8>, rs: Seq<CodeRange>) -> DecState
    decreases rs.len(),
{
    if rs.len() == 0 {
        dec_init(data)
    } else {
        dec_step(dec_run(data, rs.drop_last()), rs.last(), data)
    }
}

/// The value the decoder reports for a total in state `d`.
pub open spec fn dec_target(d: DecState, total: int) -> int {
    ((d.code - d.low + 1) * total - 1) / (d.high - d.low + 1)
}

pub open spec fn in_range(t: int, r: CodeRange) -> bool {
    r.cum <= t < r.cum + r.freq
}

proof fn lemma_narrow_bounds(low: int, high: int, cum: int, freq: int, total: int)
    requires
        0 <= low <= high,
        0 < freq,
        0 <= cum,
        cum + freq <= total,
        0 < total <= high - low + 1,
    ensures
        low <= narrow_low(low, high, cum, total) <= narrow_high(low, high, cum, freq, total) <= high,
{
    let r = high - low + 1;
    assert(0 <= r * cum / total) by (nonlinear_arith)
        requires
            r > 0,
            cum >= 0,
            total > 0,
    ;
    assert(r * (cum + freq) / total <= r) by (nonlinear_arith)
        requires
            r > 0,
            cum + freq <= total,
            total > 0,
    {
        assert(r * (cum + freq) <= r * total);
        vstd::arithmetic::div_mod::lemma_div_is_ordered(r * (cum + freq), r * total, total);
        vstd::arithmetic::div_mod::lemma_div_multiples_vanish(r, total);
    }
    assert(r * cum / total + 1 <= r * (cum + freq) / total) by (nonlinear_arith)
        requires
            r >= total,
            freq >= 1,
            cum >= 0,
            total > 0,
    {
        assert(r * (cum + freq) >= r * cum + total);
        vstd::arithmetic::div_mod::lemma_div_is_ordered(r * cum + total, r * (cum + freq), total);
        vstd::arithmetic::div_mod::lemma_div_plus_one(r * cum, total);
    }
}

proof fn lemma_double(x: u64)
    requires
        x <= MAX_RANGE,
    ensures
        x << 1 == 2 * x,
        (x << 1) | 1 == 2 * x + 1,
{
    assert(x <= 0xFFFF_FFFFu64 ==> x << 1 == 2 * x && (x << 1) | 1 == 2 * x + 1) by (bit_vector);
}

/// Encodes ranges into a stream of bits.
pub struct ArithmeticEncoder {
    low: u64,
    high: u64,
    pending: usize,
    bits: BitWriter,
}

impl ArithmeticEncoder {
    pub closed spec fn view(&self) -> EncState {
        EncState {
            low: self.low as int,
            high: self.high as int,
            pending: self.pending as nat,
            out: self.bits.view(),
        }
    }

    pub closed spec fn wf(&self) -> bool {
        self.bits.wf() && interval_wf(self.low as int, self.high as int)
    }

    pub fn new() -> (e: Self)
        ensures
            e.wf(),
            e.view() == enc_init(),
    {
        ArithmeticEncoder { low: 0, high: MAX_RANGE, pending: 0, bits: BitWriter::new() }
    }

    /// Codes the range `[cum, cum + freq)` of `[0, total)`.
    /// Invalid frequencies are refused whatever the total; valid ones need a
    /// total no larger than the width of the current interval (which is
    /// always above 2^30), without which the range could narrow to nothing.
    pub fn encode(&mut self, cum: u32, freq: u32, total: u32) -> (r: Result<(), CodecError>)
        requires
            old(self).wf(),
            freqs_valid(cum, freq, total) ==> total <= QUARTER || total <= old(self).view().high
                - old(self).view().low + 1,
        ensures
            r is Ok || !freqs_valid(cum, freq, total) ==> final(self).wf(),
            !freqs_valid(cum, freq, total) ==> r == Err::<(), CodecError>(
                CodecError::InvalidFrequencies,
            ) && final(self).view() == old(self).view(),
            freqs_valid(cum, freq, total) ==> match enc_step(
                old(self).view(),
                code_range(cum, freq, total),
            ) {
                Some(s) => r is Ok && final(self).view() == s,
                None => r == Err::<(), CodecError>(CodecError::PendingOverflow),
            },
    {
        if freq == 0 || total == 0 || cum > total || freq > total - cum {
            return Err(CodecError::InvalidFrequencies);
        }
        let ghost rg = code_range(cum, freq, total);
        proof {
            lemma_narrow_bounds(
                self.low as int,
                self.high as int,
                cum as int,
                freq as int,
                total as int,
            );
        }
        let range = self.high - self.low + 1;
        assert(range * ((cum + freq) as u64) <= 0x1_0000_0000u64 * 0xFFFF_FFFFu64) by (
        nonlinear_arith)
            requires
                range <= 0x1_0000_0000u64,
                (cum + freq) as u64 <= 0xFFFF_FFFFu64,
        ;
        assert(range * (cum as u64) <= 0x1_0000_0000u64 * 0xFFFF_FFFFu64) by (nonlinear_arith)
            requires
                range <= 0x1_0000_0000u64,
                cum as u64 <= 0xFFFF_FFFFu64,
        ;
        let new_high = self.low + (range * ((cum + freq) as u64) / (total as u64)) - 1;
        let new_low = self.low + range * (cum as u64) / (total as u64);
        self.high = new_high;
        self.low = new_low;
        assert(self.view() == enc_narrow(old(self).view(), rg));
        let ghost start = self.view();
        loop
            invariant
                self.bits.wf(),
                freqs_valid(cum, freq, total),
                0 <= self.low <= self.high <= MAX_RANGE,
                enc_renorm(self.view()) == enc_renorm(start),
                enc_renorm(start) == enc_step(old(self).view(), code_range(cum, freq, total)),
            ensures
                self.bits.wf(),
                interval_wf(self.low as int, self.high as int),
                enc_renorm(self.view()) == enc_renorm(start),
                enc_renorm(start) == enc_step(old(self).view(), code_range(cum, freq, total)),
            decreases 0x1_0000_0000 - (self.high - self.low),
        {
            if self.high < HALF {
                self.emit_bit(0);
            } else if self.low >= HALF {
                self.emit_bit(1);
                self.low = self.low - HALF;
                self.high = self.high - HALF;
            } else if self.low >= QUARTER && self.high < THREE_QUARTERS {
                if self.pending == usize::MAX {
                    assert(enc_renorm(self.view()) is None);
                    return Err(CodecError::PendingOverflow);
                }
                self.pending = self.pending + 1;
                self.low = self.low - QUARTER;
                self.high = self.high - QUARTER;
            } else {
                break;
            }
            let l = self.low;
            let h = self.high;
            proof {
                lemma_double(l);
                lemma_double(h);
            }
            self.low = l << 1;
            self.high = (h << 1) | 1;
        }
        assert(enc_renorm(self.view()) == Some(self.view()));
        Ok(())
    }

    /// Emits `bit` followed by the deferred opposite bits.
    fn emit_bit(&mut self, bit: u8)
        requires
            old(self).bits.wf(),
            bit <= 1,
        ensures
            final(self).bits.wf(),
            final(self).low == old(self).low,
            final(self).high == old(self).high,
            final(self).pending == 0,
            final(self).view().out == old(self).view().out.push(bit_value(bit)) + repeat_bit(
                !bit_value(bit),
                old(self).pending as nat,
            ),
    {
        let _ = self.bits.write_bit(bit);
        let fill: u8 = if bit == 0 { 1 } else { 0 };
        let n = self.pending;
        let mut i: usize = 0;
        while i < n
            invariant
                self.bits.wf(),
                i <= n,
                n == old(self).pending,
                self.low == old(self).low,
                self.high == old(self).high,
                fill <= 1,
                bit_value(fill) == !bit_value(bit),
                self.bits.view() == old(self).view().out.push(bit_value(bit)) + repeat_bit(
                    !bit_value(bit),
                    i as nat,
                ),
            decreases n - i,
        {
            let _ = self.bits.write_bit(fill);
            i = i + 1;
            assert(self.bits.view() =~= old(self).view().out.push(bit_value(bit)) + repeat_bit(
                !bit_value(bit),
                i as nat,
            ));
        }
        self.pending = 0;
    }

    /// Flushes the interval and hands out the coded bytes.
    pub fn finish(self) -> (r: Result<Vec<u8>, CodecError>)
        requires
            self.wf(),
        ensures
            self.view().pending < usize::MAX ==> r is Ok && bytes_to_bits(r->Ok_0@) == enc_final_bits(
                self.view(),
            ) + padding(enc_final_bits(self.view()).len()),
            self.view().pending >= usize::MAX ==> r == Err::<Vec<u8>, CodecError>(
                CodecError::PendingOverflow,
            ),
    {
        let mut this = self;
        if this.pending == usize::MAX {
            return Err(CodecError::PendingOverflow);
        }
        let ghost v = this.view();
        this.pending = this.pending + 1;
        if this.low < QUARTER {
            this.emit_bit(0);
        } else {
            this.emit_bit(1);
        }
        assert(this.bits.view() =~= enc_final_bits(v));
        Ok(this.bits.finish())
    }
}


/// `x / r` reaches `c` exactly when `x` reaches `c * r`.
proof fn lemma_div_ge(x: int, r: int, c: int)
    requires
        r > 0,
    ensures
        x / r >= c <==> x >= c * r,
{
    vstd::arithmetic::div_mod::lemma_fundamental_div_mod(x, r);
    let q = x / r;
    let m = x % r;
    assert(x / r >= c ==> x >= c * r) by (nonlinear_arith)
        requires
            x == r * q + m,
            0 <= m < r,
            q == x / r,
            r > 0,
    ;
    assert(x >= c * r ==> x / r >= c) by (nonlinear_arith)
        requires
            x == r * q + m,
            0 <= m < r,
            q == x / r,
            r > 0,
    ;
}

/// The target lies in a range exactly when the code lies in the range's sub-interval.
pub proof fn lemma_target_in_range(d: DecState, r: CodeRange)
    requires
        0 <= d.low <= d.code <= d.high,
        freqs_valid(r.cum, r.freq, r.total),
        r.total <= d.high - d.low + 1,
    ensures
        in_range(dec_target(d, r.total as int), r) <==> narrow_low(
            d.low,
            d.high,
            r.cum as int,
            r.total as int,
        ) <= d.code <= narrow_high(d.low, d.high, r.cum as int, r.freq as int, r.total as int),
{
    let rr = d.high - d.low + 1;
    let t = r.total as int;
    let c = r.cum as int;
    let f = r.freq as int;
    let a = d.code - d.low + 1;
    lemma_div_ge(a * t - 1, rr, c);
    lemma_div_ge(a * t - 1, rr, c + f);
    lemma_div_ge(rr * c, t, a);
    lemma_div_ge(rr * (c + f), t, a);
    assert(rr * c / t <= a - 1 <==> !(rr * c / t >= a));
    assert((a * t - 1 >= c * rr) <==> (a * t > rr * c)) by (nonlinear_arith);
    assert((a * t - 1 >= (c + f) * rr) <==> (a * t > rr * (c + f))) by (nonlinear_arith);
    assert((rr * c >= a * t) <==> !(a * t > rr * c));
    assert((rr * (c + f) >= a * t) <==> !(a * t > rr * (c + f)));
}

/// The first `n` bits of a stream, read as a number, stay below 2^n.
pub proof fn lemma_stream_val_bound(data: Seq<u8>, n: nat)
    ensures
        0 <= stream_val(data, n) < pow2(n),
    decreases n,
{
    vstd::arithmetic::power2::lemma_pow2_pos(n);
    if n > 0 {
        lemma_stream_val_bound(data, (n - 1) as nat);
        vstd::arithmetic::power2::lemma_pow2_unfold(n);
    }
}

/// Where a reader that stops at the end of `n` bytes stands after `reads` reads.
pub open spec fn saturate(reads: nat, n: nat) -> int {
    if reads < 8 * n {
        reads as int
    } else {
        (8 * n) as int
    }
}

/// Decodes ranges from a stream of bits.
pub struct ArithmeticDecoder<'a> {
    low: u64,
    high: u64,
    code: u64,
    bits: BitReader<'a>,
    reads: Ghost<nat>,
}

impl<'a> ArithmeticDecoder<'a> {
    pub closed spec fn view(&self) -> DecState {
        DecState {
            low: self.low as int,
            high: self.high as int,
            code: self.code as int,
            reads: self.reads@,
        }
    }

    /// The payload being decoded.
    pub closed spec fn data(&self) -> Seq<u8> {
        self.bits.data()
    }

    pub closed spec fn wf(&self) -> bool {
        &&& interval_wf(self.low as int, self.high as int)
        &&& self.low <= self.code <= self.high
        &&& self.bits.wf()
        &&& self.bits.pos() == saturate(self.reads@, self.bits.data().len())
    }

    fn read_bit(&mut self) -> (bit: u8)
        requires
            old(self).bits.wf(),
            old(self).bits.pos() == saturate(old(self).reads@, old(self).bits.data().len()),
        ensures
            final(self).bits.wf(),
            final(self).low == old(self).low,
            final(self).high == old(self).high,
            final(self).code == old(self).code,
            final(self).data() == old(self).data(),
            final(self).reads@ == old(self).reads@ + 1,
            final(self).bits.pos() == saturate(final(self).reads@, final(self).bits.data().len()),
            bit as int == bit_int(stream_bit(old(self).data(), old(self).reads@ as int)),
    {
        let bit = self.bits.read_bit_or_zero();
        self.reads = Ghost((self.reads@ + 1) as nat);
        bit
    }

    /// Starts decoding `payload`, reading its first 32 bits.
    pub fn new(payload: &'a [u8]) -> (d: Self)
        ensures
            d.wf(),
            d.data() == payload@,
            d.view() == dec_init(payload@),
    {
        let mut d = ArithmeticDecoder {
            low: 0,
            high: MAX_RANGE,
            code: 0,
            bits: BitReader::new(payload),
            reads: Ghost(0),
        };
        let mut i: u32 = 0;
        while i < 32
            invariant
                i <= 32,
                d.bits.wf(),
                d.low == 0,
                d.high == MAX_RANGE,
                d.data() == payload@,
                d.reads@ == i,
                d.bits.pos() == saturate(d.reads@, d.bits.data().len()),
                d.code as int == stream_val(payload@, i as nat),
            decreases 32 - i,
        {
            let bit = d.read_bit();
            let c = d.code;
            proof {
                lemma_stream_val_bound(payload@, i as nat);
                vstd::arithmetic::power2::lemma_pow2_strictly_increases(i as nat, 32);
                vstd::arithmetic::power2::lemma2_to64();
                assert(c < 0x8000_0000u64 ==> c << 1u64 == 2 * c) by (bit_vector);
                assert(bit <= 1 && c < 0x8000_0000u64 ==> (c << 1u64) | (bit as u64) == 2 * c
                    + bit) by (bit_vector);
            }
            d.code = (c << 1) | (bit as u64);
            i = i + 1;
        }
        proof {
            lemma_stream_val_bound(payload@, 32);
            vstd::arithmetic::power2::lemma2_to64();
        }
        d
    }

    /// The value in `[0, total)` that selects the next range; a zero total is refused.
    pub fn target(&self, total: u32) -> (r: Result<u32, CodecError>)
        requires
            self.wf(),
        ensures
            total == 0 ==> r == Err::<u32, CodecError>(CodecError::InvalidFrequencies),
            total != 0 ==> r is Ok && r->Ok_0 as int == dec_target(self.view(), total as int)
                && r->Ok_0 < total,
    {
        if total == 0 {
            return Err(CodecError::InvalidFrequencies);
        }
        let range = self.high - self.low + 1;
        let a = self.code - self.low + 1;
        assert(a * (total as u64) <= 0x1_0000_0000u64 * 0xFFFF_FFFFu64) by (nonlinear_arith)
            requires
                a <= 0x1_0000_0000u64,
                total as u64 <= 0xFFFF_FFFFu64,
        ;
        assert(a * (total as u64) >= 1) by (nonlinear_arith)
            requires
                a >= 1,
                total as u64 >= 1,
        ;
        let t = (a * (total as u64) - 1) / range;
        proof {
            lemma_div_ge((a * total - 1) as int, range as int, total as int);
            assert(!((a * total - 1) as int >= total * range)) by (nonlinear_arith)
                requires
                    a <= range,
                    total >= 1,
            ;
        }
        Ok(t as u32)
    }

    /// Consumes the range `[cum, cum + freq)` of `[0, total)`, which must hold the target.
    pub fn consume(&mut self, cum: u32, freq: u32, total: u32) -> (r: Result<(), CodecError>)
        requires
            old(self).wf(),
            freqs_valid(cum, freq, total) ==> total <= QUARTER || total <= old(self).view().high
                - old(self).view().low + 1,
            freqs_valid(cum, freq, total) ==> in_range(
                dec_target(old(self).view(), total as int),
                code_range(cum, freq, total),
            ),
        ensures
            final(self).wf(),
            final(self).data() == old(self).data(),
            !freqs_valid(cum, freq, total) ==> r == Err::<(), CodecError>(
                CodecError::InvalidFrequencies,
            ) && final(self).view() == old(self).view(),
            freqs_valid(cum, freq, total) ==> r is Ok && final(self).view() == dec_step(
                old(self).view(),
                code_range(cum, freq, total),
                old(self).data(),
            ),
    {
        if freq == 0 || total == 0 || cum > total || freq > total - cum {
            return Err(CodecError::InvalidFrequencies);
        }
        let ghost rg = code_range(cum, freq, total);
        proof {
            lemma_narrow_bounds(
                self.low as int,
                self.high as int,
                cum as int,
                freq as int,
                total as int,
            );
            lemma_target_in_range(self.view(), rg);
        }
        let range = self.high - self.low + 1;
        assert(range * ((cum + freq) as u64) <= 0x1_0000_0000u64 * 0xFFFF_FFFFu64) by (
        nonlinear_arith)
            requires
                range <= 0x1_0000_0000u64,
                (cum + freq) as u64 <= 0xFFFF_FFFFu64,
        ;
        assert(range * (cum as u64) <= 0x1_0000_0000u64 * 0xFFFF_FFFFu64) by (nonlinear_arith)
            requires
                range <= 0x1_0000_0000u64,
                cum as u64 <= 0xFFFF_FFFFu64,
        ;
        let new_high = self.low + (range * ((cum + freq) as u64) / (total as u64)) - 1;
        let new_low = self.low + range * (cum as u64) / (total as u64);
        self.high = new_high;
        self.low = new_low;
        let ghost start = self.view();
        assert(start == dec_narrow(old(self).view(), rg));
        loop
            invariant
                self.bits.wf(),
                self.bits.pos() == saturate(self.reads@, self.bits.data().len()),
                self.data() == old(self).data(),
                0 <= self.low <= self.code <= self.high <= MAX_RANGE,
                dec_renorm(self.view(), self.data()) == dec_renorm(start, self.data()),
            ensures
                self.bits.wf(),
                self.bits.pos() == saturate(self.reads@, self.bits.data().len()),
                self.data() == old(self).data(),
                interval_wf(self.low as int, self.high as int),
                self.low <= self.code <= self.high,
                dec_renorm(self.view(), self.data()) == dec_renorm(start, self.data()),
            decreases 0x1_0000_0000 - (self.high - self.low),
        {
            if self.high < HALF {
            } else if self.low >= HALF {
                self.low = self.low - HALF;
                self.high = self.high - HALF;
                self.code = self.code - HALF;
            } else if self.low >= QUARTER && self.high < THREE_QUARTERS {
                self.low = self.low - QUARTER;
                self.high = self.high - QUARTER;
                self.code = self.code - QUARTER;
            } else {
                break;
            }
            let bit = self.read_bit();
            let l = self.low;
            let h = self.high;
            let c = self.code;
            proof {
                lemma_double(l);
                lemma_double(h);
                assert(bit <= 1 && c <= 0x7FFF_FFFFu64 ==> (c << 1u64) | (bit as u64) == 2 * c
                    + bit) by (bit_vector);
            }
            self.low = l << 1;
            self.high = (h << 1) | 1;
            self.code = (c << 1) | (bit as u64);
        }
        assert(dec_renorm(self.view(), self.data()) == self.view());
        Ok(())
    }
}


// ---------------------------------------------------------------------------
// Why decoding recovers what was encoded.
//
// The encoder's interval, together with the bits it has emitted and the
// deferred bits it still owes, denotes an interval of the whole output read
// as a binary number.  Every coding step narrows that interval and every
// renormalisation doubles its scale; the finished output lies inside the
// last interval, hence inside every earlier one.  The decoder performs the
// same interval arithmetic and keeps its code window at the same offset
// from the interval's low end as the output is from the denoted interval.
// ---------------------------------------------------------------------------

/// A bit string read as a binary number, most significant bit first.
pub open spec fn bits_val(s: Seq<bool>) -> int
    decreases s.len(),
{
    if s.len() == 0 {
        0
    } else {
        2 * bits_val(s.drop_last()) + bit_int(s.last())
    }
}

/// Shifts the encoder has performed: bits emitted plus bits owed.
pub open spec fn enc_shifts(s: EncState) -> nat {
    s.out.len() + s.pending
}

/// Low end of the interval the encoder state denotes, at scale 2^(32 + shifts).
pub open spec fn enc_abs_low(s: EncState) -> int {
    bits_val(s.out) * pow2(32 + s.pending) + (pow2(s.pending) - 1) * HALF + s.low
}

/// High end of the interval the encoder state denotes.
pub open spec fn enc_abs_high(s: EncState) -> int {
    enc_abs_low(s) - s.low + s.high
}

/// The first `n` bits of the zero-extended stream.
pub open spec fn stream_prefix(data: Seq<u8>, n: nat) -> Seq<bool> {
    Seq::new(n, |i: int| stream_bit(data, i))
}

proof fn lemma_bits_val_append(s: Seq<bool>, t: Seq<bool>)
    ensures
        bits_val(s + t) == bits_val(s) * pow2(t.len()) + bits_val(t),
    decreases t.len(),
{
    if t.len() == 0 {
        assert(s + t =~= s);
        vstd::arithmetic::power2::lemma2_to64();
        assert(pow2(t.len()) == 1);
        assert(bits_val(t) == 0);
        assert(bits_val(s) * 1 == bits_val(s));
    } else {
        let t2 = t.drop_last();
        assert((s + t).drop_last() =~= s + t2);
        assert((s + t).last() == t.last());
        lemma_bits_val_append(s, t2);
        vstd::arithmetic::power2::lemma_pow2_unfold(t.len());
        let x = bits_val(s);
        let p = pow2(t2.len());
        assert(pow2(t.len()) == 2 * p);
        assert(bits_val(s + t) == 2 * bits_val(s + t2) + bit_int(t.last()));
        assert(bits_val(t) == 2 * bits_val(t2) + bit_int(t.last()));
        assert(2 * (x * p) == x * (2 * p)) by (nonlinear_arith);
    }
}

proof fn lemma_bits_val_repeat(b: bool, n: nat)
    ensures
        bits_val(repeat_bit(b, n)) == if b { pow2(n) - 1 } else { 0 },
    decreases n,
{
    vstd::arithmetic::power2::lemma2_to64();
    if n > 0 {
        assert(repeat_bit(b, n).drop_last() =~= repeat_bit(b, (n - 1) as nat));
        lemma_bits_val_repeat(b, (n - 1) as nat);
        vstd::arithmetic::power2::lemma_pow2_unfold(n);
    }
}

proof fn lemma_bits_val_bound(s: Seq<bool>)
    ensures
        0 <= bits_val(s) < pow2(s.len()),
    decreases s.len(),
{
    vstd::arithmetic::power2::lemma_pow2_pos(s.len());
    if s.len() > 0 {
        lemma_bits_val_bound(s.drop_last());
        vstd::arithmetic::power2::lemma_pow2_unfold(s.len());
    }
}

proof fn lemma_stream_val_prefix(data: Seq<u8>, n: nat)
    ensures
        stream_val(data, n) == bits_val(stream_prefix(data, n)),
    decreases n,
{
    if n > 0 {
        assert(stream_prefix(data, n).drop_last() =~= stream_prefix(data, (n - 1) as nat));
        lemma_stream_val_prefix(data, (n - 1) as nat);
    }
}

/// Reading `r` more bits scales the value by 2^r and adds less than 2^r.
proof fn lemma_stream_val_extend(data: Seq<u8>, n: nat, r: nat)
    ensures
        stream_val(data, n) * pow2(r) <= stream_val(data, n + r) < (stream_val(data, n) + 1)
            * pow2(r),
{
    lemma_stream_val_prefix(data, n);
    lemma_stream_val_prefix(data, n + r);
    let tail = Seq::new(r, |i: int| stream_bit(data, n + i));
    assert(stream_prefix(data, n + r) =~= stream_prefix(data, n) + tail);
    lemma_bits_val_append(stream_prefix(data, n), tail);
    lemma_bits_val_bound(tail);
    let v = stream_val(data, n);
    let q = pow2(r);
    assert((v + 1) * q == v * q + q) by (nonlinear_arith);
}

/// One renormalisation iteration doubles the denoted interval's scale.
proof fn lemma_renorm_iteration(s: EncState, s2: EncState)
    requires
        0 <= s.low <= s.high <= MAX_RANGE,
        renorm_needed(s.low, s.high),
        s2 == (if s.high < HALF {
            EncState {
                low: 2 * s.low,
                high: 2 * s.high + 1,
                pending: 0,
                out: s.out.push(false) + repeat_bit(true, s.pending),
            }
        } else if s.low >= HALF {
            EncState {
                low: 2 * (s.low - HALF),
                high: 2 * (s.high - HALF) + 1,
                pending: 0,
                out: s.out.push(true) + repeat_bit(false, s.pending),
            }
        } else {
            EncState {
                low: 2 * (s.low - QUARTER),
                high: 2 * (s.high - QUARTER) + 1,
                pending: s.pending + 1,
                out: s.out,
            }
        }),
    ensures
        enc_shifts(s2) == enc_shifts(s) + 1,
        enc_abs_low(s2) == 2 * enc_abs_low(s),
        enc_abs_high(s2) == 2 * enc_abs_high(s) + 1,
{
    let p = s.pending;
    let x = bits_val(s.out);
    let pp = pow2(p);
    let l = s.low;
    vstd::arithmetic::power2::lemma2_to64();
    vstd::arithmetic::power2::lemma_pow2_adds(32, p);
    assert(pow2(32 + p) == 0x1_0000_0000 * pp);
    let a = enc_abs_low(s);
    assert(a == x * (0x1_0000_0000 * pp) + (pp - 1) * 0x8000_0000 + l);
    if s.high < HALF || s.low >= HALF {
        let b = s.low >= HALF;
        let o1 = s.out.push(b);
        let rep = repeat_bit(!b, p);
        let o2 = o1 + rep;
        assert(o2 == s2.out);
        lemma_bits_val_append(o1, rep);
        lemma_bits_val_repeat(!b, p);
        assert(o1.drop_last() =~= s.out);
        assert(bits_val(o1) == 2 * x + bit_int(b));
        let c = if !b { pp - 1 } else { 0 };
        assert(bits_val(rep) == c);
        assert(bits_val(o2) == (2 * x + bit_int(b)) * pp + c);
        assert(s2.pending == 0);
        assert(pow2(32 + s2.pending) == 0x1_0000_0000);
        assert(enc_abs_low(s2) == bits_val(o2) * 0x1_0000_0000 + s2.low);
        assert(s2.low == 2 * l - bit_int(b) * 0x1_0000_0000);
        assert(((2 * x + bit_int(b)) * pp + c) * 0x1_0000_0000 == 2 * (x * (0x1_0000_0000 * pp))
            + bit_int(b) * pp * 0x1_0000_0000 + c * 0x1_0000_0000) by (nonlinear_arith);
        if b {
            assert(pp * 0x1_0000_0000 - 0x1_0000_0000 == 2 * ((pp - 1) * 0x8000_0000)) by (
            nonlinear_arith);
        } else {
            assert((pp - 1) * 0x1_0000_0000 == 2 * ((pp - 1) * 0x8000_0000)) by (nonlinear_arith);
        }
    } else {
        vstd::arithmetic::power2::lemma_pow2_adds(32, p + 1);
        vstd::arithmetic::power2::lemma_pow2_unfold(p + 1);
        assert(pow2(p + 1) == 2 * pp);
        assert(pow2(32 + (p + 1)) == 0x1_0000_0000 * (2 * pp));
        assert(enc_abs_low(s2) == x * (0x1_0000_0000 * (2 * pp)) + (2 * pp - 1) * 0x8000_0000
            + s2.low);
        assert(x * (0x1_0000_0000 * (2 * pp)) == 2 * (x * (0x1_0000_0000 * pp))) by (
        nonlinear_arith);
        assert((2 * pp - 1) * 0x8000_0000 == 2 * ((pp - 1) * 0x8000_0000) + 0x8000_0000) by (
        nonlinear_arith);
    }
}

/// Renormalisation scales the denoted interval by a power of two.
proof fn lemma_renorm_scales(s: EncState)
    requires
        0 <= s.low <= s.high <= MAX_RANGE,
        enc_renorm(s) is Some,
    ensures
        ({
            let s2 = enc_renorm(s).unwrap();
            let r = (enc_shifts(s2) - enc_shifts(s)) as nat;
            &&& enc_shifts(s2) >= enc_shifts(s)
            &&& enc_abs_low(s2) == pow2(r) * enc_abs_low(s)
            &&& enc_abs_high(s2) + 1 == pow2(r) * (enc_abs_high(s) + 1)
            &&& interval_wf(s2.low, s2.high)
        }),
    decreases 0x1_0000_0000 - (s.high - s.low),
{
    vstd::arithmetic::power2::lemma2_to64();
    if renorm_needed(s.low, s.high) {
        let s1 = if s.high < HALF {
            EncState {
                low: 2 * s.low,
                high: 2 * s.high + 1,
                pending: 0,
                out: s.out.push(false) + repeat_bit(true, s.pending),
            }
        } else if s.low >= HALF {
            EncState {
                low: 2 * (s.low - HALF),
                high: 2 * (s.high - HALF) + 1,
                pending: 0,
                out: s.out.push(true) + repeat_bit(false, s.pending),
            }
        } else {
            EncState {
                low: 2 * (s.low - QUARTER),
                high: 2 * (s.high - QUARTER) + 1,
                pending: s.pending + 1,
                out: s.out,
            }
        };
        lemma_renorm_iteration(s, s1);
        assert(enc_renorm(s) == enc_renorm(s1));
        lemma_renorm_scales(s1);
        let s2 = enc_renorm(s).unwrap();
        let r1 = (enc_shifts(s2) - enc_shifts(s1)) as nat;
        let r = (enc_shifts(s2) - enc_shifts(s)) as nat;
        assert(r == r1 + 1);
        vstd::arithmetic::power2::lemma_pow2_unfold(r);
        let q = pow2(r1);
        assert(pow2(r) == 2 * q);
        assert(enc_abs_low(s2) == q * enc_abs_low(s1));
        assert(enc_abs_high(s2) + 1 == q * (enc_abs_high(s1) + 1));
        assert(q * (2 * enc_abs_low(s)) == (2 * q) * enc_abs_low(s)) by (nonlinear_arith);
        assert(q * (2 * enc_abs_high(s) + 1 + 1) == (2 * q) * (enc_abs_high(s) + 1)) by (
        nonlinear_arith);
    } else {
        assert(enc_renorm(s) == Some(s));
        assert(pow2(0) == 1);
        assert(1 * enc_abs_low(s) == enc_abs_low(s));
        assert(1 * (enc_abs_high(s) + 1) == enc_abs_high(s) + 1);
    }
}

/// Prefixes of a run that completes also complete.
proof fn lemma_enc_run_prefix(rs: Seq<CodeRange>, j: int)
    requires
        0 <= j <= rs.len(),
        enc_run(rs) is Some,
    ensures
        enc_run(rs.take(j)) is Some,
    decreases rs.len() - j,
{
    if j < rs.len() {
        assert(rs.take(rs.len() as int) =~= rs);
        lemma_enc_run_prefix(rs, j + 1);
        assert(rs.take(j + 1).drop_last() =~= rs.take(j));
    } else {
        assert(rs.take(j) =~= rs);
    }
}

/// Every state of a completed run of codable ranges has a well-formed interval.
proof fn lemma_enc_run_wf(rs: Seq<CodeRange>)
    requires
        enc_run(rs) is Some,
        forall|i: int| 0 <= i < rs.len() ==> range_codable(#[trigger] rs[i]),
    ensures
        interval_wf(enc_run(rs).unwrap().low, enc_run(rs).unwrap().high),
    decreases rs.len(),
{
    if rs.len() > 0 {
        let pre = rs.drop_last();
        assert forall|i: int| 0 <= i < pre.len() implies range_codable(#[trigger] pre[i]) by {
            assert(pre[i] == rs[i]);
        }
        lemma_enc_run_wf(pre);
        let s = enc_run(pre).unwrap();
        let r = rs.last();
        assert(range_codable(rs[rs.len() - 1]));
        lemma_narrow_bounds(s.low, s.high, r.cum as int, r.freq as int, r.total as int);
        lemma_renorm_scales(enc_narrow(s, r));
    }
}

/// The `j`-th state of a run, and the interval it narrows to for range `j`.
pub open spec fn run_state(rs: Seq<CodeRange>, j: int) -> EncState {
    enc_run(rs.take(j)).unwrap()
}

/// The finished output lies in the interval of every coding step.
proof fn lemma_output_in_interval(rs: Seq<CodeRange>, data: Seq<u8>, j: int)
    requires
        0 <= j <= rs.len(),
        enc_run(rs) is Some,
        forall|i: int| 0 <= i < rs.len() ==> range_codable(#[trigger] rs[i]),
        forall|i: int| #![trigger stream_bit(data, i)] 0 <= i ==> stream_bit(data, i) == (i
            < enc_final_bits(enc_run(rs).unwrap()).len() && enc_final_bits(
            enc_run(rs).unwrap(),
        )[i]),
    ensures
        ({
            let s = run_state(rs, j);
            let v = stream_val(data, 32 + enc_shifts(s));
            &&& enc_abs_low(s) <= v <= enc_abs_high(s)
            &&& j < rs.len() ==> enc_abs_low(enc_narrow(s, rs[j])) <= v <= enc_abs_high(
                enc_narrow(s, rs[j]),
            )
        }),
    decreases rs.len() - j,
{
    vstd::arithmetic::power2::lemma2_to64();
    lemma_enc_run_prefix(rs, j);
    let s = run_state(rs, j);
    assert forall|i: int| 0 <= i < rs.take(j).len() implies range_codable(
        #[trigger] rs.take(j)[i],
    ) by {
        assert(rs.take(j)[i] == rs[i]);
    }
    lemma_enc_run_wf(rs.take(j));
    if j == rs.len() {
        // The flushed bits land inside the final interval.
        assert(rs.take(j) =~= rs);
        let k = enc_shifts(s);
        let f = enc_final_bits(s);
        let p = s.pending;
        let b = s.low >= QUARTER;
        assert(f.len() == k + 2);
        let pre = stream_prefix(data, 32 + k);
        assert(pre =~= f + repeat_bit(false, 30));
        lemma_stream_val_prefix(data, 32 + k);
        lemma_bits_val_append(f, repeat_bit(false, 30));
        lemma_bits_val_repeat(false, 30);
        lemma_bits_val_append(s.out.push(b), repeat_bit(!b, p + 1));
        lemma_bits_val_repeat(!b, p + 1);
        assert(s.out.push(b).drop_last() =~= s.out);
        let x = bits_val(s.out);
        let pp = pow2(p);
        vstd::arithmetic::power2::lemma_pow2_unfold(p + 1);
        vstd::arithmetic::power2::lemma_pow2_adds(32, p);
        assert(pow2(30) == 0x4000_0000);
        assert(pow2(32) == 0x1_0000_0000);
        let v = stream_val(data, 32 + k);
        let bf = bits_val(f);
        assert(bf == (2 * x + bit_int(b)) * (2 * pp) + (if !b { 2 * pp - 1 } else { 0 }));
        assert(v == bf * 0x4000_0000);
        assert(enc_abs_low(s) == x * (0x1_0000_0000 * pp) + (pp - 1) * 0x8000_0000 + s.low);
        assert(((2 * x + bit_int(b)) * (2 * pp)) * 0x4000_0000 == x * (0x1_0000_0000 * pp)
            + bit_int(b) * pp * 0x8000_0000) by (nonlinear_arith);
        assert((2 * pp - 1) * 0x4000_0000 == pp * 0x8000_0000 - 0x4000_0000) by (nonlinear_arith);
        assert((pp - 1) * 0x8000_0000 == pp * 0x8000_0000 - 0x8000_0000) by (nonlinear_arith);
        assert(s.low < HALF && s.high >= HALF);
        let xx = x * (0x1_0000_0000 * pp);
        if b {
            assert(bf == (2 * x + 1) * (2 * pp));
            assert(((2 * x + 1) * (2 * pp)) * 0x4000_0000 == xx + pp * 0x8000_0000) by (
            nonlinear_arith)
                requires
                    xx == x * (0x1_0000_0000 * pp),
            ;
            assert(v == xx + pp * 0x8000_0000);
        } else {
            assert(bf == (2 * x) * (2 * pp) + (2 * pp - 1));
            assert(((2 * x) * (2 * pp) + (2 * pp - 1)) * 0x4000_0000 == xx + pp * 0x8000_0000
                - 0x4000_0000) by (nonlinear_arith)
                requires
                    xx == x * (0x1_0000_0000 * pp),
            ;
            assert(v == xx + pp * 0x8000_0000 - 0x4000_0000);
        }
        assert(enc_abs_low(s) <= v);
        assert(v <= enc_abs_high(s));
    } else {
        lemma_output_in_interval(rs, data, j + 1);
        lemma_enc_run_prefix(rs, j + 1);
        assert(rs.take(j + 1).drop_last() =~= rs.take(j));
        assert(enc_run(rs.take(j + 1)) == enc_step(s, rs[j]));
        assert(rs.take(j + 1).last() == rs[j]);
        let n = enc_narrow(s, rs[j]);
        let r = rs[j];
        assert(range_codable(r));
        lemma_narrow_bounds(s.low, s.high, r.cum as int, r.freq as int, r.total as int);
        lemma_renorm_scales(n);
        let s2 = run_state(rs, j + 1);
        assert(s2 == enc_renorm(n).unwrap());
        let rr = (enc_shifts(s2) - enc_shifts(n)) as nat;
        let q = pow2(rr);
        vstd::arithmetic::power2::lemma_pow2_pos(rr);
        let k = enc_shifts(s);
        assert(enc_shifts(n) == k);
        lemma_stream_val_extend(data, 32 + k, rr);
        let v = stream_val(data, 32 + k);
        let v2 = stream_val(data, (32 + k + rr) as nat);
        assert((32 + k + rr) as nat == 32 + enc_shifts(s2));
        let al = enc_abs_low(n);
        let ah = enc_abs_high(n);
        // q * al <= v2 < (v + 1) * q  gives  al <= v
        assert(al <= v) by (nonlinear_arith)
            requires
                q * al <= v2,
                v2 < (v + 1) * q,
                q > 0,
        ;
        // v * q <= v2 <= q * (ah + 1) - 1  gives  v <= ah
        assert(v <= ah) by (nonlinear_arith)
            requires
                v * q <= v2,
                v2 + 1 <= q * (ah + 1),
                q > 0,
        ;
        assert(enc_abs_low(n) == enc_abs_low(s) + (n.low - s.low));
        assert(enc_abs_low(s) <= al);
        assert(ah <= enc_abs_high(s));
    }
}

/// The decoder, fed the finished output, tracks the encoder step by step.
proof fn lemma_decoder_tracks(rs: Seq<CodeRange>, data: Seq<u8>, j: int)
    requires
        0 <= j <= rs.len(),
        enc_run(rs) is Some,
        forall|i: int| 0 <= i < rs.len() ==> range_codable(#[trigger] rs[i]),
        forall|i: int| #![trigger stream_bit(data, i)] 0 <= i ==> stream_bit(data, i) == (i
            < enc_final_bits(enc_run(rs).unwrap()).len() && enc_final_bits(
            enc_run(rs).unwrap(),
        )[i]),
    ensures
        ({
            let s = run_state(rs, j);
            let d = dec_run(data, rs.take(j));
            &&& d.low == s.low
            &&& d.high == s.high
            &&& d.reads == 32 + enc_shifts(s)
            &&& d.code - d.low == stream_val(data, d.reads) - enc_abs_low(s)
        }),
    decreases j,
{
    vstd::arithmetic::power2::lemma2_to64();
    lemma_enc_run_prefix(rs, j);
    if j == 0 {
        assert(rs.take(0) =~= Seq::<CodeRange>::empty());
        assert(pow2(0) == 1);
    } else {
        lemma_decoder_tracks(rs, data, j - 1);
        let pre = rs.take(j - 1);
        assert(rs.take(j).drop_last() =~= pre);
        assert(rs.take(j).last() == rs[j - 1]);
        lemma_enc_run_prefix(rs, j - 1);
        let s = run_state(rs, j - 1);
        let d = dec_run(data, pre);
        let r = rs[j - 1];
        let n = enc_narrow(s, r);
        assert forall|i: int| 0 <= i < pre.len() implies range_codable(#[trigger] pre[i]) by {
            assert(pre[i] == rs[i]);
        }
        lemma_enc_run_wf(pre);
        lemma_narrow_bounds(s.low, s.high, r.cum as int, r.freq as int, r.total as int);
        lemma_renorm_tracks(n, dec_narrow(d, r), data);
    }
}

/// Renormalising encoder and decoder in step preserves the tracking relation.
proof fn lemma_renorm_tracks(s: EncState, d: DecState, data: Seq<u8>)
    requires
        0 <= s.low <= s.high <= MAX_RANGE,
        enc_renorm(s) is Some,
        d.low == s.low,
        d.high == s.high,
        d.reads == 32 + enc_shifts(s),
        d.code - d.low == stream_val(data, d.reads) - enc_abs_low(s),
    ensures
        ({
            let s2 = enc_renorm(s).unwrap();
            let d2 = dec_renorm(d, data);
            &&& d2.low == s2.low
            &&& d2.high == s2.high
            &&& d2.reads == 32 + enc_shifts(s2)
            &&& d2.code - d2.low == stream_val(data, d2.reads) - enc_abs_low(s2)
        }),
    decreases 0x1_0000_0000 - (s.high - s.low),
{
    if renorm_needed(s.low, s.high) {
        let s1 = if s.high < HALF {
            EncState {
                low: 2 * s.low,
                high: 2 * s.high + 1,
                pending: 0,
                out: s.out.push(false) + repeat_bit(true, s.pending),
            }
        } else if s.low >= HALF {
            EncState {
                low: 2 * (s.low - HALF),
                high: 2 * (s.high - HALF) + 1,
                pending: 0,
                out: s.out.push(true) + repeat_bit(false, s.pending),
            }
        } else {
            EncState {
                low: 2 * (s.low - QUARTER),
                high: 2 * (s.high - QUARTER) + 1,
                pending: s.pending + 1,
                out: s.out,
            }
        };
        lemma_renorm_iteration(s, s1);
        assert(enc_renorm(s) == enc_renorm(s1));
        let c = if d.high < HALF {
            0
        } else if d.low >= HALF {
            HALF as int
        } else {
            QUARTER as int
        };
        let d1 = DecState {
            low: 2 * (d.low - c),
            high: 2 * (d.high - c) + 1,
            code: 2 * (d.code - c) + bit_int(stream_bit(data, d.reads as int)),
            reads: d.reads + 1,
        };
        assert(dec_renorm(d, data) == dec_renorm(d1, data));
        assert(stream_val(data, d1.reads) == 2 * stream_val(data, d.reads) + bit_int(
            stream_bit(data, d.reads as int),
        ));
        lemma_renorm_tracks(s1, d1, data);
    }
}

/// Fed the bytes an encoder produced for codable ranges `rs`, the decoder
/// reports, before each range `j`, a target inside that range.
pub proof fn lemma_decode_finds_range(rs: Seq<CodeRange>, data: Seq<u8>, j: int)
    requires
        0 <= j < rs.len(),
        enc_run(rs) is Some,
        forall|i: int| 0 <= i < rs.len() ==> range_codable(#[trigger] rs[i]),
        bytes_to_bits(data) == coded_bits(rs),
    ensures
        ({
            let d = dec_run(data, rs.take(j));
            &&& 0 <= d.low <= d.code <= d.high <= MAX_RANGE
            &&& interval_wf(d.low, d.high)
            &&& in_range(dec_target(d, rs[j].total as int), rs[j])
        }),
{
    let f = enc_final_bits(enc_run(rs).unwrap());
    let cb = coded_bits(rs);
    assert(cb == f + padding(f.len()));
    assert(bytes_to_bits(data).len() == 8 * data.len());
    assert forall|i: int| #![trigger stream_bit(data, i)] 0 <= i implies stream_bit(data, i) == (i
        < f.len() && f[i]) by {
        assert(cb.len() == 8 * data.len());
        if i < 8 * data.len() {
            assert(stream_bit(data, i) == bytes_to_bits(data)[i]);
            assert(bytes_to_bits(data)[i] == cb[i]);
            if i >= f.len() {
                assert(cb[i] == padding(f.len())[i - f.len()]);
            } else {
                assert(cb[i] == f[i]);
            }
        } else {
            assert(!stream_bit(data, i));
            assert(i >= f.len());
        }
    }
    lemma_output_in_interval(rs, data, j);
    lemma_decoder_tracks(rs, data, j);
    lemma_enc_run_prefix(rs, j);
    let pre = rs.take(j);
    assert forall|i: int| 0 <= i < pre.len() implies range_codable(#[trigger] pre[i]) by {
        assert(pre[i] == rs[i]);
    }
    lemma_enc_run_wf(pre);
    let s = run_state(rs, j);
    let d = dec_run(data, pre);
    let r = rs[j];
    lemma_narrow_bounds(s.low, s.high, r.cum as int, r.freq as int, r.total as int);
    lemma_target_in_range(d, r);
}


/// The encoder state after coding `rs` from state `s`.
pub open spec fn enc_seq(s: EncState, rs: Seq<CodeRange>) -> Option<EncState>
    decreases rs.len(),
{
    if rs.len() == 0 {
        Some(s)
    } else {
        match enc_seq(s, rs.drop_last()) {
            Some(t) => enc_step(t, rs.last()),
            None => None,
        }
    }
}

/// Coding `a` then `b` is coding `a + b`.
pub proof fn lemma_enc_run_append(a: Seq<CodeRange>, b: Seq<CodeRange>)
    ensures
        enc_run(a + b) == match enc_run(a) {
            Some(s) => enc_seq(s, b),
            None => None::<EncState>,
        },
    decreases b.len(),
{
    if b.len() == 0 {
        assert(a + b =~= a);
    } else {
        assert((a + b).drop_last() =~= a + b.drop_last());
        assert((a + b).last() == b.last());
        lemma_enc_run_append(a, b.drop_last());
    }
}

/// A single range.
pub proof fn lemma_enc_seq_one(s: EncState, r: CodeRange)
    ensures
        enc_seq(s, seq![r]) == enc_step(s, r),
{
    assert(seq![r].drop_last() =~= Seq::<CodeRange>::empty());
    assert(seq![r].last() == r);
    reveal_with_fuel(enc_seq, 2);
}

/// Coding `a` then `b` from a state is coding `a + b` from it.
pub proof fn lemma_enc_seq_append(s: EncState, a: Seq<CodeRange>, b: Seq<CodeRange>)
    ensures
        enc_seq(s, a + b) == match enc_seq(s, a) {
            Some(t) => enc_seq(t, b),
            None => None::<EncState>,
        },
    decreases b.len(),
{
    if b.len() == 0 {
        assert(a + b =~= a);
    } else {
        assert((a + b).drop_last() =~= a + b.drop_last());
        assert((a + b).last() == b.last());
        lemma_enc_seq_append(s, a, b.drop_last());
    }
}

/// The decoder is at range `k` of an encoder run it can decode.
pub open spec fn synced(d: DecState, data: Seq<u8>, rs: Seq<CodeRange>, k: int) -> bool {
    &&& 0 <= k <= rs.len()
    &&& enc_run(rs) is Some
    &&& forall|i: int| 0 <= i < rs.len() ==> range_codable(#[trigger] rs[i])
    &&& bytes_to_bits(data) == coded_bits(rs)
    &&& d == dec_run(data, rs.take(k))
}

/// A synced decoder finds the next range, and consuming it keeps it synced.
pub proof fn lemma_synced_step(d: DecState, data: Seq<u8>, rs: Seq<CodeRange>, k: int)
    requires
        synced(d, data, rs, k),
        k < rs.len(),
    ensures
        in_range(dec_target(d, rs[k].total as int), rs[k]),
        synced(dec_step(d, rs[k], data), data, rs, k + 1),
{
    lemma_decode_finds_range(rs, data, k);
    assert(rs.take(k + 1).drop_last() =~= rs.take(k));
    assert(rs.take(k + 1).last() == rs[k]);
}

/// The range that codes `bit` when a zero weighs `w0` and a one `w1`.
pub open spec fn bit_range(bit: u8, w0: u32, w1: u32) -> CodeRange {
    if bit == 0 {
        code_range(0, w0, (w0 + w1) as u32)
    } else {
        code_range(w0, w1, (w0 + w1) as u32)
    }
}

/// The bit a decoder in state `d` reads when a zero weighs `w0` and a one `w1`.
pub open spec fn weighted_bit(d: DecState, w0: u32, w1: u32) -> u8 {
    if dec_target(d, w0 + w1) < w0 {
        0
    } else {
        1
    }
}

/// Codes `bit` with a zero weighing `w0` and a one `w1`.
pub fn encode_weighted_bit(encoder: &mut ArithmeticEncoder, bit: u8, w0: u32, w1: u32) -> (r: Result<
    (),
    CodecError,
>)
    requires
        old(encoder).wf(),
    ensures
        r is Ok || w0 + w1 > QUARTER || bit > 1 || !range_codable(bit_range(bit, w0, w1))
            ==> final(encoder).wf(),
        w0 + w1 > QUARTER ==> r == Err::<(), CodecError>(CodecError::InvalidFrequencies)
            && final(encoder).view() == old(encoder).view(),
        w0 + w1 <= QUARTER && bit > 1 ==> r == Err::<(), CodecError>(CodecError::BitOutOfRange)
            && final(encoder).view() == old(encoder).view(),
        w0 + w1 <= QUARTER && bit <= 1 && !range_codable(bit_range(bit, w0, w1)) ==> r == Err::<
            (),
            CodecError,
        >(CodecError::InvalidFrequencies) && final(encoder).view() == old(encoder).view(),
        w0 + w1 <= QUARTER && bit <= 1 && range_codable(bit_range(bit, w0, w1)) ==> match enc_step(
            old(encoder).view(),
            bit_range(bit, w0, w1),
        ) {
            Some(s) => r is Ok && final(encoder).view() == s,
            None => r == Err::<(), CodecError>(CodecError::PendingOverflow),
        },
{
    if (w0 as u64) + (w1 as u64) > QUARTER {
        return Err(CodecError::InvalidFrequencies);
    }
    let total = w0 + w1;
    if bit == 0 {
        encoder.encode(0, w0, total)
    } else if bit == 1 {
        encoder.encode(w0, w1, total)
    } else {
        Err(CodecError::BitOutOfRange)
    }
}

/// Reads one bit with a zero weighing `w0` and a one `w1`.
pub fn decode_weighted_bit(decoder: &mut ArithmeticDecoder, w0: u32, w1: u32) -> (r: Result<u8, CodecError>)
    requires
        old(decoder).wf(),
    ensures
        final(decoder).wf(),
        final(decoder).data() == old(decoder).data(),
        w0 + w1 > QUARTER || w0 + w1 == 0 ==> r == Err::<u8, CodecError>(CodecError::InvalidFrequencies)
            && final(decoder).view() == old(decoder).view(),
        0 < w0 + w1 <= QUARTER ==> ({
            let b = weighted_bit(old(decoder).view(), w0, w1);
            &&& r == Ok::<u8, CodecError>(b)
            &&& final(decoder).view() == dec_step(old(decoder).view(), bit_range(b, w0, w1), old(decoder).data())
        }),
{
    if (w0 as u64) + (w1 as u64) > QUARTER {
        return Err(CodecError::InvalidFrequencies);
    }
    let total = w0 + w1;
    let target = match decoder.target(total) {
        Ok(t) => t,
        Err(e) => {
            return Err(e);
        },
    };
    if target < w0 {
        match decoder.consume(0, w0, total) {
            Ok(()) => Ok(0),
            Err(e) => Err(e),
        }
    } else {
        match decoder.consume(w0, w1, total) {
            Ok(()) => Ok(1),
            Err(e) => Err(e),
        }
    }
}

} // verus!
