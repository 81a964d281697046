//! Naive LZ77: literal tokens and back-references into a 4 KiB window.
use vstd::prelude::*;
use crate::bits::{le_bytes_u64, le_u64, le_u16, push_u64_le, push_u16_le, read_u64, read_u16, lemma_le_u64_roundtrip, lemma_le_u16_roundtrip};
use crate::error::CodecError;

verus! {

pub const WINDOW_SIZE: usize = 4096;
pub const MIN_MATCH: usize = 3;
pub const MAX_MATCH: usize = 255;

pub open spec fn magic_spec() -> Seq<u8> {
    seq![76u8, 90u8, 55u8, 55u8]
}

/// The archive tag `LZ77`.
pub fn magic() -> (m: [u8; 4])
    ensures
        m@ == magic_spec(),
{
    let m = [76u8, 90u8, 55u8, 55u8];
    assert(m@ =~= magic_spec());
    m
}

/// How far the match against the earlier position `cand` extends from `index`,
/// counting from `k` already-matched bytes (the copy may overlap `index`).
pub open spec fn match_len_from(data: Seq<u8>, cand: int, index: int, k: int) -> int
    decreases MAX_MATCH - k,
{
    if 0 <= k < MAX_MATCH && index + k < data.len() && cand < index && data[cand + k % (index
        - cand)] == data[index + k] {
        match_len_from(data, cand, index, k + 1)
    } else {
        k
    }
}

pub open spec fn match_len(data: Seq<u8>, cand: int, index: int) -> int {
    match_len_from(data, cand, index, 0)
}

pub open spec fn window_start(index: int) -> int {
    if index > WINDOW_SIZE {
        index - WINDOW_SIZE
    } else {
        0
    }
}

/// The longest match among candidates `[window_start(index), end)`; the
/// earliest candidate wins a tie.
pub open spec fn best_match(data: Seq<u8>, index: int, end: int) -> (int, int)
    decreases end - window_start(index),
{
    if end <= window_start(index) {
        (0, 0)
    } else {
        let prev = best_match(data, index, end - 1);
        let l = match_len(data, end - 1, index);
        if l > prev.1 {
            (index - (end - 1), l)
        } else {
            prev
        }
    }
}

/// The (distance, length) the compressor picks at `index`.
pub open spec fn find_match_spec(data: Seq<u8>, index: int) -> (int, int) {
    if index + MIN_MATCH > data.len() {
        (0, 0)
    } else {
        best_match(data, index, index)
    }
}

/// The token stream for `data` from `index` on.
pub open spec fn tokens_from(data: Seq<u8>, index: int) -> Seq<u8>
    decreases data.len() - index,
{
    if index >= data.len() || index < 0 {
        Seq::empty()
    } else {
        let (d, l) = find_match_spec(data, index);
        if l >= MIN_MATCH && l <= MAX_MATCH && index + l <= data.len() {
            seq![1u8] + crate::bits::le_bytes_u16(d as u16) + seq![l as u8] + tokens_from(
                data,
                index + l,
            )
        } else {
            seq![0u8, data[index]] + tokens_from(data, index + 1)
        }
    }
}

/// The archive `compress` produces for `data`.
pub open spec fn compress_spec(data: Seq<u8>) -> Seq<u8> {
    magic_spec() + le_bytes_u64(data.len() as u64) + tokens_from(data, 0)
}

/// `restored` extended by `length` bytes copied from `distance` back.
pub open spec fn copy_back(restored: Seq<u8>, distance: int, length: int) -> Seq<u8> {
    restored + Seq::new(
        length as nat,
        |k: int| restored[restored.len() - distance + k % distance],
    )
}

/// Decoding tokens from `pos` onward, having restored `restored` of `size` bytes.
pub open spec fn decode_tokens(archive: Seq<u8>, pos: int, restored: Seq<u8>, size: int) -> Result<
    Seq<u8>,
    CodecError,
>
    decreases size - restored.len(),
{
    if restored.len() >= size {
        Ok(restored)
    } else if pos < 0 || pos >= archive.len() {
        Err(CodecError::UnexpectedEof)
    } else if archive[pos] == 0 {
        if pos + 1 >= archive.len() {
            Err(CodecError::UnexpectedEof)
        } else {
            decode_tokens(archive, pos + 2, restored.push(archive[pos + 1]), size)
        }
    } else if archive[pos] == 1 {
        if pos + 4 > archive.len() {
            Err(CodecError::UnexpectedEof)
        } else {
            let distance = le_u16(archive.subrange(pos + 1, pos + 3)) as int;
            let length = archive[pos + 3] as int;
            if distance == 0 || distance > restored.len() || length < MIN_MATCH {
                Err(CodecError::InvalidBackReference)
            } else if restored.len() + length > size {
                Err(CodecError::DecodedPastEnd)
            } else {
                decode_tokens(archive, pos + 4, copy_back(restored, distance, length), size)
            }
        }
    } else {
        Err(CodecError::InvalidTokenTag)
    }
}

/// What `decompress` returns for an archive.
pub open spec fn decompress_spec(archive: Seq<u8>) -> Result<Seq<u8>, CodecError> {
    if archive.len() < 4 {
        Err(CodecError::UnexpectedEof)
    } else if archive.subrange(0, 4) != magic_spec() {
        Err(CodecError::InvalidMagic)
    } else if archive.len() < 12 {
        Err(CodecError::UnexpectedEof)
    } else {
        decode_tokens(archive, 12, Seq::empty(), le_u64(archive.subrange(4, 12)) as int)
    }
}

fn find_match(data: &[u8], index: usize) -> (r: (usize, usize))
    requires
        index <= data@.len(),
    ensures
        r.0 as int == find_match_spec(data@, index as int).0,
        r.1 as int == find_match_spec(data@, index as int).1,
        r.1 <= MAX_MATCH,
        r.0 <= WINDOW_SIZE,
{
    if data.len() - index < MIN_MATCH {
        return (0, 0);
    }
    let window_start = if index > WINDOW_SIZE { index - WINDOW_SIZE } else { 0 };
    let mut best_distance: usize = 0;
    let mut best_length: usize = 0;
    let mut candidate = window_start;
    while candidate < index
        invariant
            window_start == crate::lz77::window_start(index as int),
            window_start <= candidate <= index,
            index < data@.len(),
            best_distance as int == best_match(data@, index as int, candidate as int).0,
            best_length as int == best_match(data@, index as int, candidate as int).1,
            best_length <= MAX_MATCH,
            best_distance <= WINDOW_SIZE,
        decreases index - candidate,
    {
        let mut length: usize = 0;
        let dist = index - candidate;
        while length < MAX_MATCH && length < data.len() - index && data[candidate + (length
            % dist)] == data[index + length]
            invariant
                candidate < index < data@.len(),
                dist == index - candidate,
                length <= MAX_MATCH,
                match_len_from(data@, candidate as int, index as int, length as int) == match_len(
                    data@,
                    candidate as int,
                    index as int,
                ),
            decreases MAX_MATCH - length,
        {
            length = length + 1;
        }
        proof {
            lemma_match_len_bound(data@, candidate as int, index as int, 0);
        }
        if length > best_length {
            best_length = length;
            best_distance = dist;
        }
        candidate = candidate + 1;
    }
    (best_distance, best_length)
}

proof fn lemma_match_len_bound(data: Seq<u8>, cand: int, index: int, k: int)
    requires
        0 <= k <= MAX_MATCH,
    ensures
        k <= match_len_from(data, cand, index, k) <= MAX_MATCH,
    decreases MAX_MATCH - k,
{
    if 0 <= k < MAX_MATCH && index + k < data.len() && cand < index && data[cand + k % (index
        - cand)] == data[index + k] {
        lemma_match_len_bound(data, cand, index, k + 1);
    }
}

/// Compresses `data` into an LZ77 archive.
pub fn compress(data: &[u8]) -> (out: Vec<u8>)
    ensures
        out@ == compress_spec(data@),
{
    let mut out: Vec<u8> = Vec::new();
    let m = magic();
    out.push(m[0]);
    out.push(m[1]);
    out.push(m[2]);
    out.push(m[3]);
    push_u64_le(&mut out, data.len() as u64);
    let ghost header = out@;
    assert(header =~= magic_spec() + le_bytes_u64(data@.len() as u64));
    let mut index: usize = 0;
    while index < data.len()
        invariant
            index <= data@.len(),
            header + tokens_from(data@, 0) == out@ + tokens_from(data@, index as int),
        decreases data@.len() - index,
    {
        let (distance, length) = find_match(data, index);
        let ghost before = out@;
        if length >= MIN_MATCH && length <= data.len() - index {
            out.push(1);
            push_u16_le(&mut out, distance as u16);
            out.push(length as u8);
            assert(out@ =~= before + (seq![1u8] + crate::bits::le_bytes_u16(distance as u16)
                + seq![length as u8]));
            index = index + length;
        } else {
            out.push(0);
            out.push(data[index]);
            assert(out@ =~= before + seq![0u8, data@[index as int]]);
            index = index + 1;
        }
    }
    assert(tokens_from(data@, index as int) =~= Seq::<u8>::empty());
    assert(out@ =~= compress_spec(data@));
    out
}

/// Restores the bytes an LZ77 archive holds.
pub fn decompress(archive: &[u8]) -> (r: Result<Vec<u8>, CodecError>)
    ensures
        match r {
            Ok(v) => decompress_spec(archive@) == Ok::<Seq<u8>, CodecError>(v@),
            Err(e) => decompress_spec(archive@) == Err::<Seq<u8>, CodecError>(e),
        },
{
    if archive.len() < 4 {
        return Err(CodecError::UnexpectedEof);
    }
    let m = magic();
    if archive[0] != m[0] || archive[1] != m[1] || archive[2] != m[2] || archive[3] != m[3] {
        assert(archive@.subrange(0, 4) != magic_spec()) by {
            if archive@.subrange(0, 4) == magic_spec() {
                assert(archive@.subrange(0, 4)[0] == archive@[0]);
                assert(archive@.subrange(0, 4)[1] == archive@[1]);
                assert(archive@.subrange(0, 4)[2] == archive@[2]);
                assert(archive@.subrange(0, 4)[3] == archive@[3]);
            }
        }
        return Err(CodecError::InvalidMagic);
    }
    assert(archive@.subrange(0, 4) =~= magic_spec());
    let size64 = match read_u64(archive, 4) {
        Some(v) => v,
        None => {
            return Err(CodecError::UnexpectedEof);
        },
    };
    let expected_len = size64;
    let mut restored: Vec<u8> = Vec::new();
    let mut pos: usize = 12;
    while (restored.len() as u64) < expected_len
        invariant
            12 <= pos,
            archive@.len() >= 12,
            expected_len as int == le_u64(archive@.subrange(4, 12)) as int,
            decompress_spec(archive@) == decode_tokens(
                archive@,
                pos as int,
                restored@,
                expected_len as int,
            ),
            restored@.len() <= expected_len,
        decreases expected_len - restored@.len(),
    {
        if pos >= archive.len() {
            return Err(CodecError::UnexpectedEof);
        }
        let tag = archive[pos];
        if tag == 0 {
            if pos + 1 >= archive.len() {
                return Err(CodecError::UnexpectedEof);
            }
            restored.push(archive[pos + 1]);
            pos = pos + 2;
        } else if tag == 1 {
            if archive.len() - pos < 4 {
                return Err(CodecError::UnexpectedEof);
            }
            let distance = match read_u16(archive, pos + 1) {
                Some(d) => d as usize,
                None => {
                    return Err(CodecError::UnexpectedEof);
                },
            };
            let length = archive[pos + 3] as usize;
            if distance == 0 || distance > restored.len() || length < MIN_MATCH {
                return Err(CodecError::InvalidBackReference);
            }
            if length as u64 > expected_len - restored.len() as u64 {
                return Err(CodecError::DecodedPastEnd);
            }
            let ghost before = restored@;
            let start = restored.len() - distance;
            let mut offset: usize = 0;
            while offset < length
                invariant
                    offset <= length,
                    start == before.len() - distance,
                    start + distance <= usize::MAX,
                    0 < distance <= before.len(),
                    restored@ == before + Seq::new(
                        offset as nat,
                        |k: int| before[before.len() - distance as int + k % (distance as int)],
                    ),
                decreases length - offset,
            {
                let ghost cur = restored@;
                let m = offset % distance;
                assert(m < distance);
                let byte = restored[start + m];
                restored.push(byte);
                offset = offset + 1;
                assert(restored@ =~= before + Seq::new(
                    offset as nat,
                    |k: int| before[before.len() - distance as int + k % (distance as int)],
                ));
            }
            assert(restored@ == copy_back(before, distance as int, length as int));
            pos = pos + 4;
        } else {
            return Err(CodecError::InvalidTokenTag);
        }
    }
    Ok(restored)
}


proof fn lemma_match_len_facts(data: Seq<u8>, cand: int, index: int, k: int)
    requires
        0 <= cand < index,
        0 <= k <= MAX_MATCH,
        index + k <= data.len(),
        forall|j: int| 0 <= j < k ==> data[cand + j % (index - cand)] == #[trigger] data[index + j],
    ensures
        ({
            let l = match_len_from(data, cand, index, k);
            &&& k <= l <= MAX_MATCH
            &&& index + l <= data.len()
            &&& forall|j: int| 0 <= j < l ==> data[cand + j % (index - cand)] == #[trigger] data[index
                + j]
        }),
    decreases MAX_MATCH - k,
{
    if 0 <= k < MAX_MATCH && index + k < data.len() && data[cand + k % (index - cand)] == data[index
        + k] {
        lemma_match_len_facts(data, cand, index, k + 1);
    }
}

proof fn lemma_best_match_valid(data: Seq<u8>, index: int, end: int)
    requires
        0 <= index < data.len(),
        end <= index,
    ensures
        ({
            let (d, l) = best_match(data, index, end);
            l > 0 ==> {
                &&& 1 <= d <= index
                &&& d <= WINDOW_SIZE
                &&& l <= MAX_MATCH
                &&& index + l <= data.len()
                &&& forall|j: int| 0 <= j < l ==> data[index - d + j % d] == #[trigger] data[index
                    + j]
            }
        }),
    decreases end - window_start(index),
{
    if end > window_start(index) {
        lemma_best_match_valid(data, index, end - 1);
        let c = end - 1;
        lemma_match_len_facts(data, c, index, 0);
    }
}

proof fn lemma_tokens_decode(data: Seq<u8>, prefix: Seq<u8>, index: int)
    requires
        0 <= index <= data.len(),
        data.len() <= u64::MAX,
    ensures
        decode_tokens(
            prefix + tokens_from(data, index),
            prefix.len() as int,
            data.take(index),
            data.len() as int,
        ) == Ok::<Seq<u8>, CodecError>(data),
    decreases data.len() - index,
{
    let archive = prefix + tokens_from(data, index);
    let pos = prefix.len() as int;
    if index >= data.len() {
        assert(data.take(index) =~= data);
    } else {
        let (d, l) = find_match_spec(data, index);
        if l >= MIN_MATCH && l <= MAX_MATCH && index + l <= data.len() {
            lemma_best_match_valid(data, index, index);
            let t = seq![1u8] + crate::bits::le_bytes_u16(d as u16) + seq![l as u8];
            assert(tokens_from(data, index) == t + tokens_from(data, index + l));
            assert(archive =~= (prefix + t) + tokens_from(data, index + l));
            lemma_tokens_decode(data, prefix + t, index + l);
            assert(archive[pos] == 1u8);
            assert(archive.subrange(pos + 1, pos + 3) =~= crate::bits::le_bytes_u16(d as u16));
            lemma_le_u16_roundtrip(d as u16);
            assert(archive[pos + 3] == l as u8);
            let restored = data.take(index);
            assert(copy_back(restored, d, l) =~= data.take(index + l)) by {
                assert forall|i: int| 0 <= i < index + l implies #[trigger] copy_back(restored, d, l)[i]
                    == data.take(index + l)[i] by {
                    if i >= index {
                        let k = i - index;
                        assert(0 <= k % d < d) by {
                            vstd::arithmetic::div_mod::lemma_mod_bound(k, d);
                        }
                        assert(data[index - d + k % d] == data[index + k]);
                        assert(copy_back(restored, d, l)[i] == restored[index - d + k % d]);
                    }
                }
            }
            assert((prefix + t).len() == pos + 4);
        } else {
            let t = seq![0u8, data[index]];
            assert(tokens_from(data, index) == t + tokens_from(data, index + 1));
            assert(archive =~= (prefix + t) + tokens_from(data, index + 1));
            lemma_tokens_decode(data, prefix + t, index + 1);
            assert(archive[pos] == 0u8);
            assert(archive[pos + 1] == data[index]);
            assert(data.take(index).push(data[index]) =~= data.take(index + 1));
        }
    }
}

/// Decompressing what `compress` produced gives back the input.
pub proof fn lemma_roundtrip(data: Seq<u8>)
    requires
        data.len() <= u64::MAX,
    ensures
        decompress_spec(compress_spec(data)) == Ok::<Seq<u8>, CodecError>(data),
{
    let header = magic_spec() + le_bytes_u64(data.len() as u64);
    let archive = compress_spec(data);
    assert(archive =~= header + tokens_from(data, 0));
    assert(archive.subrange(0, 4) =~= magic_spec());
    assert(archive.subrange(4, 12) =~= le_bytes_u64(data.len() as u64));
    lemma_le_u64_roundtrip(data.len() as u64);
    assert(data.take(0) =~= Seq::<u8>::empty());
    lemma_tokens_decode(data, header, 0);
}

} // verus!

verus! {

proof fn lemma_match_len_from(data: Seq<u8>, cand: int, index: int, k: int)
    requires
        0 <= cand < index <= data.len(),
        0 <= k <= MAX_MATCH,
        index + k <= data.len(),
        forall|j: int| 0 <= j < k ==> data[cand + j % (index - cand)] == #[trigger] data[index + j],
    ensures
        ({
            let l = match_len_from(data, cand, index, k);
            &&& k <= l <= MAX_MATCH
            &&& index + l <= data.len()
            &&& forall|j: int| 0 <= j < l ==> data[cand + j % (index - cand)] == #[trigger] data[index + j]
            &&& (l < MAX_MATCH && index + l < data.len()) ==> data[cand + l % (index - cand)] != data[index + l]
        }),
    decreases MAX_MATCH - k,
{
    if k < MAX_MATCH && index + k < data.len() && data[cand + k % (index - cand)] == data[index + k] {
        lemma_match_len_from(data, cand, index, k + 1);
    }
}

/// The match at an earlier position `cand` is the longest run, at most
/// `MAX_MATCH` bytes and within the data, in which each byte from `index` on
/// repeats the byte `index - cand` before it (the copy may run past `index`,
/// repeating itself): every byte of the run matches, and the next one does
/// not unless the run hit `MAX_MATCH` or the end of the data.
pub proof fn lemma_match_len_longest(data: Seq<u8>, cand: int, index: int)
    requires
        0 <= cand < index <= data.len(),
    ensures
        ({
            let l = match_len(data, cand, index);
            &&& 0 <= l <= MAX_MATCH
            &&& index + l <= data.len()
            &&& forall|j: int| 0 <= j < l ==> data[cand + j % (index - cand)] == #[trigger] data[index + j]
            &&& (l < MAX_MATCH && index + l < data.len()) ==> data[cand + l % (index - cand)] != data[index + l]
        }),
{
    lemma_match_len_from(data, cand, index, 0);
}

/// In a run of one repeated byte, the match at any earlier position reaches
/// `MAX_MATCH` bytes or the end of the data.
pub proof fn lemma_match_len_run(data: Seq<u8>, cand: int, index: int)
    requires
        0 <= cand < index <= data.len(),
        forall|i: int, j: int| 0 <= i < data.len() && 0 <= j < data.len() ==> data[i] == data[j],
    ensures
        match_len(data, cand, index) == if data.len() - index < MAX_MATCH {
            data.len() - index
        } else {
            MAX_MATCH as int
        },
{
    lemma_match_len_longest(data, cand, index);
    let l = match_len(data, cand, index);
    let d = index - cand;
    if l < MAX_MATCH && index + l < data.len() {
        assert(0 <= l % d < d) by {
            vstd::arithmetic::div_mod::lemma_mod_bound(l, d);
        }
        assert(data[cand + l % d] == data[index + l]);
    }
}

} // verus!
