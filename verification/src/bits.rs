//! Bit-level plumbing shared by the codecs: an MSB-first bit writer and
//! reader over bytes, the eight bits of a byte, a collector that packs
//! bits back into bytes, and little-endian integer fields.
use vstd::prelude::*;
use crate::error::CodecError;

verus! {

/// Bit `j` (0 = most significant) of byte `b`.
pub open spec fn byte_bit(b: u8, j: int) -> bool {
    ((b >> ((7 - j) as u8)) & 1u8) == 1u8
}

/// The bits of a byte string, most significant bit of each byte first.
pub open spec fn bytes_to_bits(bytes: Seq<u8>) -> Seq<bool> {
    Seq::new((8 * bytes.len()) as nat, |i: int| byte_bit(bytes[i / 8], i % 8))
}

/// Bit `i` of a byte string read as an endless stream: zero past the end.
pub open spec fn stream_bit(bytes: Seq<u8>, i: int) -> bool {
    if 0 <= i < 8 * bytes.len() {
        byte_bit(bytes[i / 8], i % 8)
    } else {
        false
    }
}

/// The `n` low bits of `c`, most significant first.
pub open spec fn low_bits(c: u8, n: u8) -> Seq<bool> {
    Seq::new(n as nat, |j: int| ((c >> ((n - 1 - j) as u8)) & 1u8) == 1u8)
}

/// `n` copies of `b`.
pub open spec fn repeat_bit(b: bool, n: nat) -> Seq<bool> {
    Seq::new(n, |_i: int| b)
}

/// The zero bits that pad a bit string of length `n` to whole bytes.
pub open spec fn padding(n: nat) -> Seq<bool> {
    repeat_bit(false, ((8 - n % 8) % 8) as nat)
}

pub open spec fn bit_value(b: u8) -> bool {
    b == 1u8
}

pub(crate) proof fn lemma_shift_in(c: u8, u: u8, bit: u8, j: u8)
    requires
        u < 8,
        c >> u == 0,
        bit <= 1,
        j <= u,
    ensures
        ((c << 1u8) | bit) >> ((u + 1) as u8) == 0,
        j < u ==> (((c << 1u8) | bit) >> ((u - j) as u8)) & 1u8 == (c >> ((u - 1 - j) as u8))
            & 1u8,
        j == u ==> ((c << 1u8) | bit) & 1u8 == bit,
{
    assert(
        u < 8 && c >> u == 0 && bit <= 1 && j <= u ==> {
            &&& ((c << 1u8) | bit) >> ((u + 1) as u8) == 0
            &&& (j < u ==> (((c << 1u8) | bit) >> ((u - j) as u8)) & 1u8 == (c >> ((u - 1 - j)
                as u8)) & 1u8)
            &&& (j == u ==> ((c << 1u8) | bit) & 1u8 == bit)
        }
    ) by (bit_vector);
}

proof fn lemma_shift_out(c: u8, u: u8, j: u8)
    requires
        0 < u < 8,
        c >> u == 0,
        j < 8,
    ensures
        j < u ==> ((c << ((8 - u) as u8)) >> ((7 - j) as u8)) & 1u8 == (c >> ((u - 1 - j) as u8))
            & 1u8,
        j >= u ==> ((c << ((8 - u) as u8)) >> ((7 - j) as u8)) & 1u8 == 0,
{
    assert(
        0 < u < 8 && c >> u == 0 && j < 8 ==> {
            &&& (j < u ==> ((c << ((8 - u) as u8)) >> ((7 - j) as u8)) & 1u8 == (c >> ((u - 1 - j)
                as u8)) & 1u8)
            &&& (j >= u ==> ((c << ((8 - u) as u8)) >> ((7 - j) as u8)) & 1u8 == 0)
        }
    ) by (bit_vector);
}

/// Appending one byte appends its eight bits.
pub proof fn lemma_bytes_to_bits_push(bytes: Seq<u8>, b: u8)
    ensures
        bytes_to_bits(bytes.push(b)) =~= bytes_to_bits(bytes) + Seq::new(
            8,
            |j: int| byte_bit(b, j),
        ),
{
    let n = bytes.len() as int;
    assert forall|i: int| 8 * n <= i < 8 * n + 8 implies #[trigger] (i / 8) == n && i % 8 == i - 8
        * n by {
        vstd::arithmetic::div_mod::lemma_fundamental_div_mod(i, 8);
    }
    assert forall|i: int| 0 <= i < 8 * n implies #[trigger] (i / 8) < n by {
        vstd::arithmetic::div_mod::lemma_fundamental_div_mod(i, 8);
    }
}

/// The bits of a byte string determine it.
pub proof fn lemma_bytes_to_bits_injective(a: Seq<u8>, b: Seq<u8>)
    requires
        bytes_to_bits(a) == bytes_to_bits(b),
    ensures
        a == b,
{
    assert(bytes_to_bits(a).len() == bytes_to_bits(b).len());
    assert(bytes_to_bits(a).len() == 8 * a.len());
    assert(bytes_to_bits(b).len() == 8 * b.len());
    assert(a.len() == b.len()) by (nonlinear_arith)
        requires
            8 * a.len() == 8 * b.len(),
    ;
    assert forall|k: int| 0 <= k < a.len() implies a[k] == b[k] by {
        let x = a[k];
        let y = b[k];
        assert forall|j: int| 0 <= j < 8 implies byte_bit(x, j) == byte_bit(y, j) by {
            let i = 8 * k + j;
            vstd::arithmetic::div_mod::lemma_fundamental_div_mod(i, 8);
            assert(i / 8 == k && i % 8 == j) by {
                vstd::arithmetic::div_mod::lemma_fundamental_div_mod_converse(i, 8, k, j);
            }
            assert(0 <= i < 8 * a.len());
            assert(bytes_to_bits(a)[i] == byte_bit(a[k], j));
            assert(bytes_to_bits(b)[i] == byte_bit(b[k], j));
        }
        assert(byte_bit(x, 0) == byte_bit(y, 0));
        assert(byte_bit(x, 1) == byte_bit(y, 1));
        assert(byte_bit(x, 2) == byte_bit(y, 2));
        assert(byte_bit(x, 3) == byte_bit(y, 3));
        assert(byte_bit(x, 4) == byte_bit(y, 4));
        assert(byte_bit(x, 5) == byte_bit(y, 5));
        assert(byte_bit(x, 6) == byte_bit(y, 6));
        assert(byte_bit(x, 7) == byte_bit(y, 7));
        assert(
            ((x >> 7u8) & 1u8 == 1u8) == ((y >> 7u8) & 1u8 == 1u8) && ((x >> 6u8) & 1u8 == 1u8) == ((
            y >> 6u8) & 1u8 == 1u8) && ((x >> 5u8) & 1u8 == 1u8) == ((y >> 5u8) & 1u8 == 1u8) && ((x
                >> 4u8) & 1u8 == 1u8) == ((y >> 4u8) & 1u8 == 1u8) && ((x >> 3u8) & 1u8 == 1u8) == ((y
                >> 3u8) & 1u8 == 1u8) && ((x >> 2u8) & 1u8 == 1u8) == ((y >> 2u8) & 1u8 == 1u8) && ((x
                >> 1u8) & 1u8 == 1u8) == ((y >> 1u8) & 1u8 == 1u8) && ((x >> 0u8) & 1u8 == 1u8) == ((y
                >> 0u8) & 1u8 == 1u8) ==> x == y
        ) by (bit_vector);
    }
    assert(a =~= b);
}

/// Collects bits most significant first into bytes.
pub struct BitWriter {
    bytes: Vec<u8>,
    current: u8,
    used_bits: u8,
}

impl BitWriter {
    /// The bits written so far.
    pub closed spec fn view(&self) -> Seq<bool> {
        bytes_to_bits(self.bytes@) + low_bits(self.current, self.used_bits)
    }

    pub closed spec fn wf(&self) -> bool {
        self.used_bits < 8 && self.current >> self.used_bits == 0
    }

    /// Number of whole bytes filled so far.
    pub fn byte_len(&self) -> (n: usize)
        requires
            self.wf(),
        ensures
            n == self.view().len() / 8,
    {
        proof {
            vstd::arithmetic::div_mod::lemma_fundamental_div_mod_converse(
                self.view().len() as int,
                8,
                self.bytes@.len() as int,
                self.used_bits as int,
            );
        }
        self.bytes.len()
    }

    /// Whether the bits written so far fill whole bytes.
    pub fn at_byte_boundary(&self) -> (b: bool)
        requires
            self.wf(),
        ensures
            b == (self.view().len() % 8 == 0),
    {
        proof {
            vstd::arithmetic::div_mod::lemma_fundamental_div_mod_converse(
                self.view().len() as int,
                8,
                self.bytes@.len() as int,
                self.used_bits as int,
            );
        }
        self.used_bits == 0
    }

    pub fn new() -> (w: Self)
        ensures
            w.wf(),
            w.view() == Seq::<bool>::empty(),
    {
        let w = BitWriter { bytes: Vec::new(), current: 0, used_bits: 0 };
        assert(w.view() =~= Seq::<bool>::empty());
        assert(0u8 >> 0u8 == 0) by (bit_vector);
        w
    }

    /// Appends one bit; fails, changing nothing, when `bit` is neither 0 nor 1.
    pub fn write_bit(&mut self, bit: u8) -> (r: Result<(), CodecError>)
        requires
            old(self).wf(),
        ensures
            final(self).wf(),
            bit <= 1 ==> r is Ok && final(self).view() == old(self).view().push(bit_value(bit)),
            bit > 1 ==> r == Err::<(), CodecError>(CodecError::BitOutOfRange) && final(self).view()
                == old(self).view(),
    {
        if bit > 1 {
            return Err(CodecError::BitOutOfRange);
        }
        let ghost old_view = self.view();
        let c = self.current;
        let u = self.used_bits;
        let c2 = (c << 1u8) | bit;
        proof {
            lemma_shift_in(c, u, bit, u);
            assert forall|j: int| 0 <= j < u + 1 implies #[trigger] low_bits(c2, (u + 1) as u8)[j]
                == low_bits(c, u).push(bit_value(bit))[j] by {
                lemma_shift_in(c, u, bit, j as u8);
                if j < u {
                    assert(((u + 1) - 1 - j) as u8 == (u - j) as u8);
                } else {
                    assert(((u + 1) - 1 - j) as u8 == 0u8);
                    assert(c2 >> 0u8 == c2) by (bit_vector);
                    assert(bit <= 1 ==> ((bit & 1u8) == 1u8) == (bit == 1u8)) by (bit_vector);
                }
            }
            assert(low_bits(c2, (u + 1) as u8) =~= low_bits(c, u).push(bit_value(bit)));
        }
        if u + 1 == 8 {
            let ghost old_bytes = self.bytes@;
            self.bytes.push(c2);
            self.current = 0;
            self.used_bits = 0;
            proof {
                lemma_bytes_to_bits_push(old_bytes, c2);
                assert(Seq::new(8, |j: int| byte_bit(c2, j)) =~= low_bits(c2, 8u8));
                assert(low_bits(0u8, 0u8) =~= Seq::<bool>::empty());
                assert(0u8 >> 0u8 == 0) by (bit_vector);
                assert(self.view() =~= old_view.push(bit_value(bit)));
            }
        } else {
            self.current = c2;
            self.used_bits = u + 1;
            assert(self.view() =~= old_view.push(bit_value(bit)));
        }
        Ok(())
    }

    /// Appends the `len` low bits of `bits`, most significant first; a zero
    /// length is refused.
    pub fn write_bits(&mut self, bits: u64, len: u8) -> (r: Result<(), CodecError>)
        requires
            old(self).wf(),
            len <= 64,
        ensures
            final(self).wf(),
            len == 0 ==> r == Err::<(), CodecError>(CodecError::ZeroLengthCode) && final(self).view()
                == old(self).view(),
            len > 0 ==> r is Ok && final(self).view() == old(self).view() + code_bits(bits, len),
    {
        if len == 0 {
            return Err(CodecError::ZeroLengthCode);
        }
        let mut shift = len;
        while shift > 0
            invariant
                self.wf(),
                shift <= len,
                len <= 64,
                self.view() == old(self).view() + code_bits(bits, len).take(len - shift),
            decreases shift,
        {
            shift = shift - 1;
            let bit = ((bits >> shift) & 1) as u8;
            assert(((bits >> shift) & 1) <= 1) by (bit_vector);
            let r = self.write_bit(bit);
            proof {
                let k = len - 1 - shift;
                assert(code_bits(bits, len).take(len - shift) =~= code_bits(bits, len).take(
                    k as int,
                ).push(code_bits(bits, len)[k as int]));
                assert(((len - 1 - k) as u64) == shift as u64);
                assert(((bits >> (shift as u64)) & 1u64) <= 1 ==> ((((bits >> (shift as u64))
                    & 1u64) as u8) == 1u8) == (((bits >> (shift as u64)) & 1u64) == 1u64))
                    by (bit_vector);
            }
            match r {
                Ok(()) => {},
                Err(e) => {
                    return Err(e);
                },
            }
        }
        assert(code_bits(bits, len).take(len as int) =~= code_bits(bits, len));
        Ok(())
    }

    /// Pads the last byte with zero bits and hands out the bytes.
    pub fn finish(self) -> (r: Vec<u8>)
        requires
            self.wf(),
        ensures
            bytes_to_bits(r@) == self.view() + padding(self.view().len()),
    {
        let mut bytes = self.bytes;
        let c = self.current;
        let u = self.used_bits;
        let ghost view = self.view();
        if u != 0 {
            let ghost old_bytes = bytes@;
            let c2 = c << (8 - u);
            bytes.push(c2);
            proof {
                lemma_bytes_to_bits_push(old_bytes, c2);
                assert forall|j: int| 0 <= j < 8 implies #[trigger] byte_bit(c2, j) == (
                low_bits(c, u) + repeat_bit(false, (8 - u) as nat))[j] by {
                    lemma_shift_out(c, u, j as u8);
                    if j < u {
                        assert(((7 - j) as u8) == (7 - j as u8) as u8);
                    }
                }
                assert(view.len() == 8 * old_bytes.len() + u);
                assert((8 - view.len() % 8) % 8 == 8 - u) by {
                    vstd::arithmetic::div_mod::lemma_fundamental_div_mod_converse(
                        view.len() as int,
                        8,
                        old_bytes.len() as int,
                        u as int,
                    );
                }
                assert(bytes_to_bits(bytes@) =~= view + padding(view.len()));
            }
        } else {
            proof {
                assert(view.len() == 8 * bytes@.len());
                assert(view.len() % 8 == 0) by {
                    vstd::arithmetic::div_mod::lemma_fundamental_div_mod_converse(
                        view.len() as int,
                        8,
                        bytes@.len() as int,
                        0,
                    );
                }
                assert(bytes_to_bits(bytes@) =~= view + padding(view.len()));
            }
        }
        bytes
    }
}

/// The `len` low bits of `bits`, most significant first.
pub open spec fn code_bits(bits: u64, len: u8) -> Seq<bool> {
    Seq::new(len as nat, |j: int| ((bits >> ((len - 1 - j) as u64)) & 1u64) == 1u64)
}


/// Reads bits most significant first from a byte slice.
pub struct BitReader<'a> {
    bytes: &'a [u8],
    index: usize,
    used_bits: u8,
}

impl<'a> BitReader<'a> {
    /// The bytes being read.
    pub closed spec fn data(&self) -> Seq<u8> {
        self.bytes@
    }

    /// Number of bits consumed so far.
    pub closed spec fn pos(&self) -> int {
        self.index * 8 + self.used_bits
    }

    pub closed spec fn wf(&self) -> bool {
        &&& self.used_bits < 8
        &&& self.index <= self.bytes@.len()
        &&& self.index == self.bytes@.len() ==> self.used_bits == 0
    }

    pub fn new(bytes: &'a [u8]) -> (r: Self)
        ensures
            r.wf(),
            r.data() == bytes@,
            r.pos() == 0,
    {
        BitReader { bytes, index: 0, used_bits: 0 }
    }

    proof fn lemma_pos(&self)
        requires
            self.wf(),
        ensures
            0 <= self.pos() <= 8 * self.data().len(),
            self.index < self.bytes@.len() <==> self.pos() < 8 * self.data().len(),
            self.index < self.bytes@.len() ==> self.pos() / 8 == self.index && self.pos() % 8
                == self.used_bits,
    {
        vstd::arithmetic::div_mod::lemma_fundamental_div_mod_converse(
            self.pos(),
            8,
            self.index as int,
            self.used_bits as int,
        );
    }

    fn advance(&mut self)
        requires
            old(self).wf(),
            old(self).index < old(self).bytes@.len(),
        ensures
            final(self).wf(),
            final(self).data() == old(self).data(),
            final(self).pos() == old(self).pos() + 1,
    {
        let i = self.index;
        let n = self.bytes.len();
        assert(i < n);
        self.used_bits = self.used_bits + 1;
        if self.used_bits == 8 {
            self.used_bits = 0;
            self.index = i + 1;
        }
    }

    /// The next bit, or 0 once every byte has been read.
    pub fn read_bit_or_zero(&mut self) -> (bit: u8)
        requires
            old(self).wf(),
        ensures
            final(self).wf(),
            final(self).data() == old(self).data(),
            bit == (if stream_bit(old(self).data(), old(self).pos()) { 1u8 } else { 0u8 }),
            final(self).pos() == if old(self).pos() < 8 * old(self).data().len() {
                old(self).pos() + 1
            } else {
                old(self).pos()
            },
    {
        proof {
            self.lemma_pos();
        }
        if self.index >= self.bytes.len() {
            return 0;
        }
        let byte = self.bytes[self.index];
        let u = self.used_bits;
        let bit = (byte >> (7 - u)) & 1;
        assert(((byte >> (7 - u) as u8) & 1u8) <= 1u8) by (bit_vector);
        self.advance();
        bit
    }

    /// The next bit, or `None` once every byte has been read.
    pub fn read_bit(&mut self) -> (bit: Option<u8>)
        requires
            old(self).wf(),
        ensures
            final(self).wf(),
            final(self).data() == old(self).data(),
            old(self).pos() >= 8 * old(self).data().len() ==> bit is None && final(self).pos()
                == old(self).pos(),
            old(self).pos() < 8 * old(self).data().len() ==> bit == Some(
                if stream_bit(old(self).data(), old(self).pos()) { 1u8 } else { 0u8 },
            ) && final(self).pos() == old(self).pos() + 1,
    {
        proof {
            self.lemma_pos();
        }
        if self.index >= self.bytes.len() {
            return None;
        }
        let byte = self.bytes[self.index];
        let u = self.used_bits;
        let bit = (byte >> (7 - u)) & 1;
        assert(((byte >> (7 - u) as u8) & 1u8) <= 1u8) by (bit_vector);
        self.advance();
        Some(bit)
    }
}

/// The eight bits of a byte, most significant first.
pub struct ByteBits {
    byte: u8,
    shift: i8,
}

impl ByteBits {
    /// How many bits have been handed out.
    pub closed spec fn emitted(&self) -> int {
        7 - self.shift
    }

    pub closed spec fn byte(&self) -> u8 {
        self.byte
    }

    pub closed spec fn wf(&self) -> bool {
        -1 <= self.shift <= 7
    }

    pub fn new(byte: u8) -> (r: Self)
        ensures
            r.wf(),
            r.byte() == byte,
            r.emitted() == 0,
    {
        ByteBits { byte, shift: 7 }
    }

    /// The next bit of the byte, or `None` after all eight.
    pub fn next(&mut self) -> (bit: Option<u8>)
        requires
            old(self).wf(),
        ensures
            final(self).wf(),
            final(self).byte() == old(self).byte(),
            old(self).emitted() >= 8 ==> bit is None && final(self).emitted() == old(
                self,
            ).emitted(),
            old(self).emitted() < 8 ==> bit == Some(
                if byte_bit(old(self).byte(), old(self).emitted()) { 1u8 } else { 0u8 },
            ) && final(self).emitted() == old(self).emitted() + 1,
    {
        if self.shift < 0 {
            return None;
        }
        let s = self.shift as u8;
        let b = self.byte;
        let bit = (b >> s) & 1;
        assert(((b >> s) & 1u8) <= 1u8) by (bit_vector);
        assert(((7 - (7 - s)) as u8) == s);
        self.shift = self.shift - 1;
        Some(bit)
    }
}

/// Packs decoded bits back into bytes.
pub struct ByteCollector {
    writer: BitWriter,
}

impl ByteCollector {
    /// The bits pushed so far.
    pub closed spec fn view(&self) -> Seq<bool> {
        self.writer.view()
    }

    pub closed spec fn wf(&self) -> bool {
        self.writer.wf()
    }

    pub fn with_capacity(_capacity: usize) -> (r: Self)
        ensures
            r.wf(),
            r.view() == Seq::<bool>::empty(),
    {
        ByteCollector { writer: BitWriter::new() }
    }

    /// Appends one bit; a value other than 0 or 1 is refused.
    pub fn push(&mut self, bit: u8) -> (r: Result<(), CodecError>)
        requires
            old(self).wf(),
        ensures
            final(self).wf(),
            bit <= 1 ==> r is Ok && final(self).view() == old(self).view().push(bit_value(bit)),
            bit > 1 ==> r == Err::<(), CodecError>(CodecError::BitOutOfRange) && final(self).view()
                == old(self).view(),
    {
        self.writer.write_bit(bit)
    }

    /// Number of whole bytes collected.
    pub fn len(&self) -> (n: usize)
        requires
            self.wf(),
        ensures
            n == self.view().len() / 8,
    {
        self.writer.byte_len()
    }

    /// The collected bytes; fails when the bits stop inside a byte.
    pub fn finish(self) -> (r: Result<Vec<u8>, CodecError>)
        requires
            self.wf(),
        ensures
            self.view().len() % 8 != 0 ==> r == Err::<Vec<u8>, CodecError>(
                CodecError::EndedMidByte,
            ),
            self.view().len() % 8 == 0 ==> r is Ok && bytes_to_bits(r->Ok_0@) == self.view(),
    {
        if !self.writer.at_byte_boundary() {
            return Err(CodecError::EndedMidByte);
        }
        let ghost v = self.view();
        let out = self.writer.finish();
        assert(padding(v.len()) =~= Seq::<bool>::empty());
        assert(v + padding(v.len()) =~= v);
        Ok(out)
    }
}

/// The little-endian bytes of a 64-bit value.
pub open spec fn le_bytes_u64(v: u64) -> Seq<u8> {
    seq![
        (v & 0xff) as u8,
        ((v >> 8u64) & 0xff) as u8,
        ((v >> 16u64) & 0xff) as u8,
        ((v >> 24u64) & 0xff) as u8,
        ((v >> 32u64) & 0xff) as u8,
        ((v >> 40u64) & 0xff) as u8,
        ((v >> 48u64) & 0xff) as u8,
        ((v >> 56u64) & 0xff) as u8,
    ]
}

/// The little-endian bytes of a 32-bit value.
pub open spec fn le_bytes_u32(v: u32) -> Seq<u8> {
    seq![
        (v & 0xff) as u8,
        ((v >> 8u32) & 0xff) as u8,
        ((v >> 16u32) & 0xff) as u8,
        ((v >> 24u32) & 0xff) as u8,
    ]
}

/// The little-endian bytes of a 16-bit value.
pub open spec fn le_bytes_u16(v: u16) -> Seq<u8> {
    seq![(v & 0xff) as u8, ((v >> 8u16) & 0xff) as u8]
}

/// The value of eight little-endian bytes.
pub open spec fn le_u64(s: Seq<u8>) -> u64 {
    (s[0] as u64) | ((s[1] as u64) << 8u64) | ((s[2] as u64) << 16u64) | ((s[3] as u64) << 24u64)
        | ((s[4] as u64) << 32u64) | ((s[5] as u64) << 40u64) | ((s[6] as u64) << 48u64) | ((
    s[7] as u64) << 56u64)
}

/// The value of four little-endian bytes.
pub open spec fn le_u32(s: Seq<u8>) -> u32 {
    (s[0] as u32) | ((s[1] as u32) << 8u32) | ((s[2] as u32) << 16u32) | ((s[3] as u32) << 24u32)
}

/// The value of two little-endian bytes.
pub open spec fn le_u16(s: Seq<u8>) -> u16 {
    (s[0] as u16) | ((s[1] as u16) << 8u16)
}

/// Writing a 64-bit value and reading it back gives the value.
pub proof fn lemma_le_u64_roundtrip(v: u64)
    ensures
        le_u64(le_bytes_u64(v)) == v,
{
    let s = le_bytes_u64(v);
    let (b0, b1, b2, b3, b4, b5, b6, b7) = (s[0], s[1], s[2], s[3], s[4], s[5], s[6], s[7]);
    assert(b0 == (v & 0xff) as u8 && b1 == ((v >> 8u64) & 0xff) as u8 && b2 == ((v >> 16u64)
        & 0xff) as u8 && b3 == ((v >> 24u64) & 0xff) as u8 && b4 == ((v >> 32u64) & 0xff) as u8
        && b5 == ((v >> 40u64) & 0xff) as u8 && b6 == ((v >> 48u64) & 0xff) as u8 && b7 == ((v
        >> 56u64) & 0xff) as u8);
    assert(b0 == (v & 0xff) as u8 && b1 == ((v >> 8u64) & 0xff) as u8 && b2 == ((v >> 16u64)
        & 0xff) as u8 && b3 == ((v >> 24u64) & 0xff) as u8 && b4 == ((v >> 32u64) & 0xff) as u8
        && b5 == ((v >> 40u64) & 0xff) as u8 && b6 == ((v >> 48u64) & 0xff) as u8 && b7 == ((v
        >> 56u64) & 0xff) as u8 ==> (b0 as u64) | ((b1 as u64) << 8u64) | ((b2 as u64) << 16u64)
        | ((b3 as u64) << 24u64) | ((b4 as u64) << 32u64) | ((b5 as u64) << 40u64) | ((b6 as u64)
        << 48u64) | ((b7 as u64) << 56u64) == v) by (bit_vector);
}

/// Writing a 32-bit value and reading it back gives the value.
pub proof fn lemma_le_u32_roundtrip(v: u32)
    ensures
        le_u32(le_bytes_u32(v)) == v,
{
    let s = le_bytes_u32(v);
    let (b0, b1, b2, b3) = (s[0], s[1], s[2], s[3]);
    assert(b0 == (v & 0xff) as u8 && b1 == ((v >> 8u32) & 0xff) as u8 && b2 == ((v >> 16u32)
        & 0xff) as u8 && b3 == ((v >> 24u32) & 0xff) as u8 ==> (b0 as u32) | ((b1 as u32) << 8u32)
        | ((b2 as u32) << 16u32) | ((b3 as u32) << 24u32) == v) by (bit_vector);
}

/// Writing a 16-bit value and reading it back gives the value.
pub proof fn lemma_le_u16_roundtrip(v: u16)
    ensures
        le_u16(le_bytes_u16(v)) == v,
{
    let s = le_bytes_u16(v);
    let (b0, b1) = (s[0], s[1]);
    assert(b0 == (v & 0xff) as u8 && b1 == ((v >> 8u16) & 0xff) as u8 ==> (b0 as u16) | ((
    b1 as u16) << 8u16) == v) by (bit_vector);
}

/// Appends the little-endian bytes of `v`.
pub fn push_u64_le(out: &mut Vec<u8>, v: u64)
    ensures
        final(out)@ == old(out)@ + le_bytes_u64(v),
{
    out.push((v & 0xff) as u8);
    out.push(((v >> 8) & 0xff) as u8);
    out.push(((v >> 16) & 0xff) as u8);
    out.push(((v >> 24) & 0xff) as u8);
    out.push(((v >> 32) & 0xff) as u8);
    out.push(((v >> 40) & 0xff) as u8);
    out.push(((v >> 48) & 0xff) as u8);
    out.push(((v >> 56) & 0xff) as u8);
    assert(out@ =~= old(out)@ + le_bytes_u64(v));
}

/// Appends the little-endian bytes of `v`.
pub fn push_u32_le(out: &mut Vec<u8>, v: u32)
    ensures
        final(out)@ == old(out)@ + le_bytes_u32(v),
{
    out.push((v & 0xff) as u8);
    out.push(((v >> 8) & 0xff) as u8);
    out.push(((v >> 16) & 0xff) as u8);
    out.push(((v >> 24) & 0xff) as u8);
    assert(out@ =~= old(out)@ + le_bytes_u32(v));
}

/// Appends the little-endian bytes of `v`.
pub fn push_u16_le(out: &mut Vec<u8>, v: u16)
    ensures
        final(out)@ == old(out)@ + le_bytes_u16(v),
{
    out.push((v & 0xff) as u8);
    out.push(((v >> 8) & 0xff) as u8);
    assert(out@ =~= old(out)@ + le_bytes_u16(v));
}

/// The 64-bit little-endian field at `pos`, or `None` when the input ends first.
pub fn read_u64(input: &[u8], pos: usize) -> (r: Option<u64>)
    ensures
        pos + 8 <= input@.len() ==> r == Some(le_u64(input@.subrange(pos as int, pos + 8))),
        pos + 8 > input@.len() ==> r is None,
{
    if pos > input.len() || input.len() - pos < 8 {
        return None;
    }
    let v = (input[pos] as u64) | ((input[pos + 1] as u64) << 8) | ((input[pos + 2] as u64) << 16)
        | ((input[pos + 3] as u64) << 24) | ((input[pos + 4] as u64) << 32) | ((input[pos
        + 5] as u64) << 40) | ((input[pos + 6] as u64) << 48) | ((input[pos + 7] as u64) << 56);
    Some(v)
}

/// The 32-bit little-endian field at `pos`, or `None` when the input ends first.
pub fn read_u32(input: &[u8], pos: usize) -> (r: Option<u32>)
    ensures
        pos + 4 <= input@.len() ==> r == Some(le_u32(input@.subrange(pos as int, pos + 4))),
        pos + 4 > input@.len() ==> r is None,
{
    if pos > input.len() || input.len() - pos < 4 {
        return None;
    }
    let v = (input[pos] as u32) | ((input[pos + 1] as u32) << 8) | ((input[pos + 2] as u32) << 16)
        | ((input[pos + 3] as u32) << 24);
    Some(v)
}

/// The 16-bit little-endian field at `pos`, or `None` when the input ends first.
pub fn read_u16(input: &[u8], pos: usize) -> (r: Option<u16>)
    ensures
        pos + 2 <= input@.len() ==> r == Some(le_u16(input@.subrange(pos as int, pos + 2))),
        pos + 2 > input@.len() ==> r is None,
{
    if pos > input.len() || input.len() - pos < 2 {
        return None;
    }
    let v = (input[pos] as u16) | ((input[pos + 1] as u16) << 8);
    Some(v)
}

/// The header of an archive: its four-byte tag, then the length of the
/// restored data as eight little-endian bytes.
pub fn frame_header(magic: [u8; 4], len: u64) -> (out: Vec<u8>)
    ensures
        out@ == magic@ + le_bytes_u64(len),
{
    let mut out: Vec<u8> = Vec::new();
    out.push(magic[0]);
    out.push(magic[1]);
    out.push(magic[2]);
    out.push(magic[3]);
    assert(out@ =~= magic@);
    push_u64_le(&mut out, len);
    out
}

/// Checks an archive's tag and gives the length its header records and the
/// payload that follows the header.
pub fn read_frame<'a>(archive: &'a [u8], magic: [u8; 4]) -> (r: Result<(u64, &'a [u8]), CodecError>)
    ensures
        archive@.len() < 4 ==> r == Err::<(u64, &'a [u8]), CodecError>(CodecError::UnexpectedEof),
        archive@.len() >= 4 && archive@.subrange(0, 4) != magic@ ==> r == Err::<(u64, &'a [u8]), CodecError>(
            CodecError::InvalidMagic,
        ),
        archive@.len() >= 4 && archive@.subrange(0, 4) == magic@ && archive@.len() < 12 ==> r == Err::<
            (u64, &'a [u8]),
            CodecError,
        >(CodecError::UnexpectedEof),
        archive@.len() >= 12 && archive@.subrange(0, 4) == magic@ ==> r is Ok && r->Ok_0.0 == le_u64(
            archive@.subrange(4, 12),
        ) && r->Ok_0.1@ == archive@.subrange(12, archive@.len() as int),
{
    if archive.len() < 4 {
        return Err(CodecError::UnexpectedEof);
    }
    if archive[0] != magic[0] || archive[1] != magic[1] || archive[2] != magic[2] || archive[3] != magic[3] {
        assert(archive@.subrange(0, 4) != magic@) by {
            if archive@.subrange(0, 4) == magic@ {
                assert(archive@.subrange(0, 4)[0] == archive@[0]);
                assert(archive@.subrange(0, 4)[1] == archive@[1]);
                assert(archive@.subrange(0, 4)[2] == archive@[2]);
                assert(archive@.subrange(0, 4)[3] == archive@[3]);
            }
        }
        return Err(CodecError::InvalidMagic);
    }
    assert(archive@.subrange(0, 4) =~= magic@);
    let len = match read_u64(archive, 4) {
        Some(v) => v,
        None => {
            return Err(CodecError::UnexpectedEof);
        },
    };
    let payload = vstd::slice::slice_subrange(archive, 12, archive.len());
    Ok((len, payload))
}

} // verus!
