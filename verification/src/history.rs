//! The recent bytes a model conditions on, and the integer keys that name
//! the contexts formed by their suffixes.
use vstd::prelude::*;
use std::collections::VecDeque;

verus! {

/// Bytes read as a big-endian number, each shifted in from the right.
pub open spec fn horner(s: Seq<u8>) -> u64
    decreases s.len(),
{
    if s.len() == 0 {
        0
    } else {
        (horner(s.drop_last()) << 8u64) | (s.last() as u64)
    }
}

/// The last `n` bytes of `h` (all of them when fewer).
pub open spec fn suffix(h: Seq<u8>, n: int) -> Seq<u8> {
    if n >= h.len() {
        h
    } else {
        h.subrange(h.len() - n, h.len() as int)
    }
}

/// The key of the order-`order` context: the last `order` bytes, the most
/// recent one in the low byte.
pub open spec fn history_key(h: Seq<u8>, order: int) -> u64 {
    horner(suffix(h, order))
}

/// The history after `byte`, keeping at most `max_len` bytes.
pub open spec fn history_push(h: Seq<u8>, byte: u8, max_len: int) -> Seq<u8> {
    if h.len() == max_len && h.len() > 0 {
        h.drop_first().push(byte)
    } else {
        h.push(byte)
    }
}

/// The most recent bytes, at most `max_len` of them.
pub struct ByteHistory {
    bytes: VecDeque<u8>,
    max_len: usize,
}

impl ByteHistory {
    pub closed spec fn view(&self) -> Seq<u8> {
        self.bytes@
    }

    pub closed spec fn max_len(&self) -> int {
        self.max_len as int
    }

    pub open spec fn wf(&self) -> bool {
        1 <= self.max_len() && self.view().len() <= self.max_len()
    }

    pub fn new(max_len: usize) -> (h: Self)
        requires
            max_len >= 1,
        ensures
            h.wf(),
            h.view() == Seq::<u8>::empty(),
            h.max_len() == max_len,
    {
        ByteHistory { bytes: VecDeque::with_capacity(max_len), max_len }
    }

    pub fn len(&self) -> (n: usize)
        ensures
            n == self.view().len(),
    {
        self.bytes.len()
    }

    /// Appends `byte`, dropping the oldest byte when full.
    pub fn push(&mut self, byte: u8)
        requires
            old(self).wf(),
        ensures
            final(self).wf(),
            final(self).max_len() == old(self).max_len(),
            final(self).view() == history_push(old(self).view(), byte, old(self).max_len()),
    {
        if self.bytes.len() == self.max_len {
            let _ = self.bytes.pop_front();
        }
        self.bytes.push_back(byte);
    }

    /// The most recent byte, if any.
    pub fn last(&self) -> (b: Option<u8>)
        ensures
            self.view().len() == 0 ==> b is None,
            self.view().len() > 0 ==> b == Some(self.view().last()),
    {
        let n = self.bytes.len();
        if n == 0 {
            None
        } else {
            Some(self.bytes[n - 1])
        }
    }

    /// Whether the history ends with `suffix`.
    pub fn ends_with(&self, tail: &[u8]) -> (b: bool)
        ensures
            b == (tail@.len() <= self.view().len() && self.view().subrange(
                self.view().len() - tail@.len(),
                self.view().len() as int,
            ) == tail@),
    {
        let n = self.bytes.len();
        let m = tail.len();
        if m > n {
            return false;
        }
        let start = n - m;
        let mut i: usize = 0;
        while i < m
            invariant
                n == self.view().len(),
                m == tail@.len(),
                start == n - m,
                i <= m,
                forall|k: int| 0 <= k < i ==> self.view()[start + k] == tail@[k],
            decreases m - i,
        {
            if self.bytes[start + i] != tail[i] {
                assert(self.view().subrange(start as int, n as int)[i as int] != tail@[i as int]);
                return false;
            }
            i = i + 1;
        }
        assert(self.view().subrange(start as int, n as int) =~= tail@);
        true
    }

    /// The key of the order-`order` context.
    pub fn key(&self, order: usize) -> (k: u64)
        ensures
            k == history_key(self.view(), order as int),
    {
        let n = self.bytes.len();
        let start = if order >= n { 0 } else { n - order };
        let ghost h = self.view();
        assert(suffix(h, order as int) =~= h.subrange(start as int, n as int));
        let mut key: u64 = 0;
        let mut j = start;
        assert(h.subrange(start as int, start as int) =~= Seq::<u8>::empty());
        while j < n
            invariant
                start <= j <= n,
                n == h.len(),
                h == self.view(),
                key == horner(h.subrange(start as int, j as int)),
            decreases n - j,
        {
            assert(h.subrange(start as int, j + 1).drop_last() =~= h.subrange(start as int, j as int));
            key = (key << 8) | (self.bytes[j] as u64);
            j = j + 1;
        }
        key
    }
}

} // verus!
