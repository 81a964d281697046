//! Order-1 block-adaptive Huffman coding: the input is cut into 64 KiB
//! blocks, and each byte of a block is coded with a Huffman code selected by
//! the byte before it, built from how often each byte followed that byte in
//! all earlier blocks (every count starts at 1, and all are halved once
//! their sum passes 2^20).
use vstd::prelude::*;
use crate::bits::{BitWriter, BitReader, bytes_to_bits, stream_bit, code_bits, padding, le_bytes_u32, le_bytes_u64, le_u32, le_u64, push_u32_le, push_u64_le, read_u32, read_u64, lemma_le_u32_roundtrip, lemma_le_u64_roundtrip};
use crate::error::CodecError;

verus! {

pub const DEFAULT_BLOCK_SIZE: usize = 65536;
pub const SYMBOLS: usize = 256;
/// The counts are halved once their sum passes this.
pub const MAX_FREQUENCY_SUM: u64 = 1048576;

pub open spec fn magic_spec() -> Seq<u8> {
    seq![65u8, 72u8, 70u8, 49u8]
}

/// The archive tag `AHF1`.
pub fn magic() -> (m: [u8; 4])
    ensures
        m@ == magic_spec(),
{
    let m = [65u8, 72u8, 70u8, 49u8];
    assert(m@ =~= magic_spec());
    m
}

// ---------------------------------------------------------------------------
// The adaptive counts: one row of 256 byte counts for each preceding byte

pub open spec fn sat_add(a: u32, b: u32) -> u32 {
    if a + b > u32::MAX {
        u32::MAX
    } else {
        (a + b) as u32
    }
}

pub open spec fn sum_freqs(f: Seq<u32>) -> int
    decreases f.len(),
{
    if f.len() == 0 {
        0
    } else {
        sum_freqs(f.drop_last()) + f.last()
    }
}

/// The byte before position `j` of `data`, which selects the code of the
/// byte at `j`; the first byte follows a zero byte.
pub open spec fn ctx(data: Seq<u8>, j: int) -> u8 {
    if j <= 0 {
        0
    } else {
        data[j - 1]
    }
}

/// The counts of the bytes following `c`.
pub open spec fn row(f: Seq<u32>, c: u8) -> Seq<u32> {
    f.subrange(256 * c, 256 * c + 256)
}

/// The counts after one more occurrence of each byte of `data[off..k]`,
/// each counted in the row of the byte before it.
pub open spec fn count_range(f: Seq<u32>, data: Seq<u8>, off: int, k: int) -> Seq<u32>
    decreases k - off,
{
    if k <= off {
        f
    } else {
        let g = count_range(f, data, off, k - 1);
        let i = 256 * ctx(data, k - 1) + data[k - 1];
        g.update(i, sat_add(g[i], 1))
    }
}

pub open spec fn halve(x: u32) -> u32 {
    if x <= 1 {
        1
    } else {
        ((x + 1) / 2) as u32
    }
}

/// The counts after the block `data[off..end]`: counted, then all halved
/// when their sum passes the limit.
pub open spec fn observe_spec(f: Seq<u32>, data: Seq<u8>, off: int, end: int) -> Seq<u32> {
    let g = count_range(f, data, off, end);
    if sum_freqs(g) > MAX_FREQUENCY_SUM {
        g.map_values(|x: u32| halve(x))
    } else {
        g
    }
}

/// Every count starts at 1.
pub open spec fn init_freqs() -> Seq<u32> {
    Seq::new(65536, |_i: int| 1u32)
}

proof fn lemma_sum_freqs_bound(f: Seq<u32>)
    ensures
        0 <= sum_freqs(f) <= f.len() * 0xFFFF_FFFF,
    decreases f.len(),
{
    if f.len() > 0 {
        lemma_sum_freqs_bound(f.drop_last());
    }
}

proof fn lemma_count_range_len(f: Seq<u32>, data: Seq<u8>, off: int, k: int)
    requires
        f.len() == 65536,
    ensures
        count_range(f, data, off, k).len() == 65536,
    decreases k - off,
{
    if k > off {
        lemma_count_range_len(f, data, off, k - 1);
    }
}

/// Counting reads only the bytes before `k`.
proof fn lemma_count_range_prefix(f: Seq<u32>, a: Seq<u8>, b: Seq<u8>, off: int, k: int)
    requires
        0 <= off,
        k <= a.len(),
        k <= b.len(),
        a.take(k) == b.take(k),
    ensures
        count_range(f, a, off, k) == count_range(f, b, off, k),
    decreases k - off,
{
    if k > off {
        assert(a.take(k - 1) =~= a.take(k).take(k - 1));
        assert(b.take(k - 1) =~= b.take(k).take(k - 1));
        lemma_count_range_prefix(f, a, b, off, k - 1);
        assert(a[k - 1] == a.take(k)[k - 1]);
        assert(b[k - 1] == b.take(k)[k - 1]);
        if k - 1 > 0 {
            assert(a[k - 2] == a.take(k)[k - 2]);
            assert(b[k - 2] == b.take(k)[k - 2]);
        }
    }
}

proof fn lemma_observe_len(f: Seq<u32>, data: Seq<u8>, off: int, end: int)
    requires
        f.len() == 65536,
    ensures
        observe_spec(f, data, off, end).len() == 65536,
{
    lemma_count_range_len(f, data, off, end);
}

/// The byte counts that drive the codes of the next block.
pub struct Model {
    freqs: Vec<u32>,
}

impl Model {
    pub closed spec fn view(&self) -> Seq<u32> {
        self.freqs@
    }

    /// Every count starts at 1.
    pub fn new() -> (m: Self)
        ensures
            m.view() == init_freqs(),
    {
        let mut freqs: Vec<u32> = Vec::new();
        let mut i: usize = 0;
        while i < 65536
            invariant
                i <= 65536,
                freqs@.len() == i,
                forall|j: int| 0 <= j < i ==> #[trigger] freqs@[j] == 1u32,
            decreases 65536 - i,
        {
            freqs.push(1);
            i = i + 1;
        }
        assert(freqs@ =~= init_freqs());
        Model { freqs }
    }

    /// Counts the bytes of the block `data[off..end]`, each in the row of
    /// the byte before it, halving every count (rounding up, at least 1)
    /// once their sum passes the limit.
    pub fn observe(&mut self, data: &[u8], off: usize, end: usize)
        requires
            old(self).view().len() == 65536,
            off <= end <= data@.len(),
        ensures
            final(self).view() == observe_spec(old(self).view(), data@, off as int, end as int),
            final(self).view().len() == 65536,
    {
        let ghost f0 = self.freqs@;
        let mut k: usize = off;
        while k < end
            invariant
                off <= k <= end <= data@.len(),
                f0.len() == 65536,
                self.freqs@ == count_range(f0, data@, off as int, k as int),
                self.freqs@.len() == 65536,
            decreases end - k,
        {
            let c: u8 = if k == 0 { 0 } else { data[k - 1] };
            let i = 256 * (c as usize) + data[k] as usize;
            proof {
                lemma_count_range_len(f0, data@, off as int, k as int);
            }
            let v = self.freqs[i];
            let nv = if v == u32::MAX { v } else { v + 1 };
            self.freqs.set(i, nv);
            k = k + 1;
        }
        let ghost g = self.freqs@;
        let mut sum: u64 = 0;
        let mut j: usize = 0;
        while j < 65536
            invariant
                j <= 65536,
                self.freqs@ == g,
                g.len() == 65536,
                sum == sum_freqs(g.take(j as int)),
                sum <= j * 0xFFFF_FFFF,
            decreases 65536 - j,
        {
            assert(g.take(j as int + 1).drop_last() =~= g.take(j as int));
            sum = sum + self.freqs[j] as u64;
            j = j + 1;
        }
        assert(g.take(65536) =~= g);
        if sum > MAX_FREQUENCY_SUM {
            let mut k: usize = 0;
            while k < 65536
                invariant
                    k <= 65536,
                    g.len() == 65536,
                    self.freqs@.len() == 65536,
                    forall|q: int| 0 <= q < k ==> #[trigger] self.freqs@[q] == halve(g[q]),
                    forall|q: int| k <= q < 65536 ==> #[trigger] self.freqs@[q] == g[q],
                decreases 65536 - k,
            {
                let v = self.freqs[k];
                let h = if v <= 1 { 1 } else { v / 2 + v % 2 };
                self.freqs.set(k, h);
                k = k + 1;
            }
            assert(self.freqs@ =~= g.map_values(|x: u32| halve(x)));
        }
    }
}

/// The counts of the bytes following `c`, as a table of 256.
pub fn row_of(freqs: &Vec<u32>, c: u8) -> (r: Vec<u32>)
    requires
        freqs@.len() == 65536,
    ensures
        r@ == row(freqs@, c),
        r@.len() == 256,
{
    let base = 256 * (c as usize);
    let mut r: Vec<u32> = Vec::new();
    let mut i: usize = 0;
    while i < 256
        invariant
            i <= 256,
            base == 256 * c,
            freqs@.len() == 65536,
            r@ == row(freqs@, c).take(i as int),
        decreases 256 - i,
    {
        r.push(freqs[base + i]);
        i = i + 1;
        assert(r@ =~= row(freqs@, c).take(i as int));
    }
    assert(row(freqs@, c).take(256) =~= row(freqs@, c));
    r
}
// ---------------------------------------------------------------------------
// Building the tree

/// A codeword: its `len` low bits, most significant first.
#[derive(Clone, Copy, Debug, PartialEq, Eq, Structural)]
pub struct Code {
    pub bits: u64,
    pub len: u8,
}

/// A tree node: a leaf holds a byte, an inner node two children.
#[derive(Clone, Copy, Debug, PartialEq, Eq, Structural)]
pub struct Node {
    pub left: Option<usize>,
    pub right: Option<usize>,
    pub symbol: Option<u8>,
}

/// A Huffman tree: its nodes and the index of its root.
pub struct DecodeTree {
    pub nodes: Vec<Node>,
    pub root: usize,
}

/// A pending subtree: its weight, its tie-breaking rank and its node index.
pub type Entry = (u32, usize, usize);

/// `a` is taken before `b`: lighter first, then lower rank, then lower index.
pub open spec fn entry_before(a: Entry, b: Entry) -> bool {
    a.0 < b.0 || (a.0 == b.0 && (a.1 < b.1 || (a.1 == b.1 && a.2 < b.2)))
}

/// The position of the entry taken next.
pub open spec fn min_pos(h: Seq<Entry>) -> int
    decreases h.len(),
{
    if h.len() <= 1 {
        0
    } else {
        let p = min_pos(h.drop_last());
        if entry_before(h.last(), h[p]) {
            h.len() - 1
        } else {
            p
        }
    }
}

pub open spec fn leaf(s: int) -> Node {
    Node { left: None, right: None, symbol: Some(s as u8) }
}

pub open spec fn init_nodes() -> Seq<Node> {
    Seq::new(256, |i: int| leaf(i))
}

pub open spec fn init_heap(f: Seq<u32>) -> Seq<Entry> {
    Seq::new(256, |i: int| (f[i], i as usize, i as usize))
}

/// Merges the two entries taken first until one subtree remains.
pub open spec fn merge_all(nodes: Seq<Node>, heap: Seq<Entry>, tie: int) -> (Seq<Node>, Seq<Entry>)
    decreases heap.len(),
{
    if heap.len() <= 1 {
        (nodes, heap)
    } else {
        let p1 = min_pos(heap);
        let e1 = heap[p1];
        let h1 = heap.remove(p1);
        let p2 = min_pos(h1);
        let e2 = h1[p2];
        let h2 = h1.remove(p2);
        let idx = nodes.len();
        proof {
            lemma_min_pos(heap);
            lemma_min_pos(h1);
        }
        merge_all(
            nodes.push(Node { left: Some(e1.2), right: Some(e2.2), symbol: None }),
            h2.push((sat_add(e1.0, e2.0), tie as usize, idx as usize)),
            tie + 1,
        )
    }
}

/// The nodes of the tree built from counts `f`.
pub open spec fn tree_nodes(f: Seq<u32>) -> Seq<Node> {
    merge_all(init_nodes(), init_heap(f), 256).0
}

/// The root of the tree built from counts `f`.
pub open spec fn tree_root(f: Seq<u32>) -> int {
    merge_all(init_nodes(), init_heap(f), 256).1[0].2 as int
}

/// Every inner node has two children that come before it; every leaf has a byte.
pub open spec fn tree_wf(nodes: Seq<Node>, root: int) -> bool {
    &&& 0 <= root < nodes.len()
    &&& nodes[root].symbol is None
    &&& nodes.len() < usize::MAX
    &&& forall|i: int|
        0 <= i < nodes.len() ==> #[trigger] inner_ok(nodes, i)
}

pub open spec fn inner_ok(nodes: Seq<Node>, i: int) -> bool {
    nodes[i].symbol is None ==> (nodes[i].left matches Some(l) && l < i) && (
    nodes[i].right matches Some(r) && r < i)
}

pub open spec fn heap_wf(nodes: Seq<Node>, heap: Seq<Entry>) -> bool {
    forall|i: int| 0 <= i < heap.len() ==> #[trigger] heap[i].2 < nodes.len()
}

/// The lightest entry of a non-empty heap is one of its entries.
pub proof fn lemma_min_pos(h: Seq<Entry>)
    requires
        h.len() >= 1,
    ensures
        0 <= min_pos(h) < h.len(),
    decreases h.len(),
{
    if h.len() > 1 {
        lemma_min_pos(h.drop_last());
    }
}

proof fn lemma_merge_all(nodes: Seq<Node>, heap: Seq<Entry>, tie: int)
    requires
        heap.len() >= 1,
        heap_wf(nodes, heap),
        forall|i: int| 0 <= i < nodes.len() ==> #[trigger] inner_ok(nodes, i),
        nodes.len() + heap.len() < 1000,
        heap.len() > 1 || nodes[heap[0].2 as int].symbol is None,
    ensures
        ({
            let (n2, h2) = merge_all(nodes, heap, tie);
            &&& h2.len() == 1
            &&& heap_wf(n2, h2)
            &&& forall|i: int| 0 <= i < n2.len() ==> #[trigger] inner_ok(n2, i)
            &&& n2.len() == nodes.len() + heap.len() - 1
            &&& n2[h2[0].2 as int].symbol is None
        }),
    decreases heap.len(),
{
    if heap.len() > 1 {
        lemma_min_pos(heap);
        let p1 = min_pos(heap);
        let e1 = heap[p1];
        let h1 = heap.remove(p1);
        lemma_min_pos(h1);
        let p2 = min_pos(h1);
        let e2 = h1[p2];
        let h2 = h1.remove(p2);
        let idx = nodes.len();
        let n2 = nodes.push(Node { left: Some(e1.2), right: Some(e2.2), symbol: None });
        let h3 = h2.push((sat_add(e1.0, e2.0), tie as usize, idx as usize));
        assert forall|i: int| 0 <= i < h3.len() implies #[trigger] h3[i].2 < n2.len() by {
            if i < h2.len() {
                if i < p2 {
                    assert(h2[i] == h1[i]);
                } else {
                    assert(h2[i] == h1[i + 1]);
                }
                if i < p2 && i < p1 {
                    assert(h1[i] == heap[i]);
                }
            }
        }
        assert forall|i: int| 0 <= i < h1.len() implies #[trigger] h1[i].2 < nodes.len() by {
            if i < p1 {
                assert(h1[i] == heap[i]);
            } else {
                assert(h1[i] == heap[i + 1]);
            }
        }
        assert forall|i: int| 0 <= i < h2.len() implies #[trigger] h2[i].2 < nodes.len() by {
            if i < p2 {
                assert(h2[i] == h1[i]);
            } else {
                assert(h2[i] == h1[i + 1]);
            }
        }
        assert forall|i: int| 0 <= i < n2.len() implies #[trigger] inner_ok(n2, i) by {
            if i < nodes.len() {
                assert(n2[i] == nodes[i]);
                assert(inner_ok(nodes, i));
            }
        }
        lemma_merge_all(n2, h3, tie + 1);
    }
}

/// The tree built from counts `f` is well formed and has 511 nodes.
pub proof fn lemma_tree_wf(f: Seq<u32>)
    requires
        f.len() == 256,
    ensures
        tree_wf(tree_nodes(f), tree_root(f)),
        tree_nodes(f).len() == 511,
{
    let n0 = init_nodes();
    let h0 = init_heap(f);
    assert forall|i: int| 0 <= i < n0.len() implies #[trigger] inner_ok(n0, i) by {}
    lemma_merge_all(n0, h0, 256);
}

/// The position of the entry taken next.
fn min_entry(heap: &Vec<Entry>) -> (p: usize)
    requires
        heap@.len() >= 1,
    ensures
        p == min_pos(heap@),
        p < heap@.len(),
{
    let mut best: usize = 0;
    let mut j: usize = 1;
    proof {
        lemma_min_pos(heap@);
    }
    while j < heap.len()
        invariant
            1 <= j <= heap@.len(),
            best == min_pos(heap@.take(j as int)),
            best < j,
        decreases heap@.len() - j,
    {
        proof {
            assert(heap@.take(j as int + 1).drop_last() =~= heap@.take(j as int));
            lemma_min_pos(heap@.take(j as int));
        }
        let a = heap[j];
        let b = heap[best];
        if a.0 < b.0 || (a.0 == b.0 && (a.1 < b.1 || (a.1 == b.1 && a.2 < b.2))) {
            best = j;
        }
        j = j + 1;
    }
    assert(heap@.take(heap@.len() as int) =~= heap@);
    best
}

/// Builds the Huffman tree of counts `freqs`: starting from one leaf per
/// byte, repeatedly joins the two lightest subtrees (ties by rank).
pub fn build_tree(freqs: &Vec<u32>) -> (r: Result<DecodeTree, CodecError>)
    requires
        freqs@.len() == 256,
    ensures
        r is Ok,
        r->Ok_0.nodes@ == tree_nodes(freqs@),
        r->Ok_0.root == tree_root(freqs@),
{
    let mut nodes: Vec<Node> = Vec::new();
    let mut heap: Vec<Entry> = Vec::new();
    let mut symbol: usize = 0;
    while symbol < SYMBOLS
        invariant
            symbol <= SYMBOLS,
            freqs@.len() == 256,
            nodes@.len() == symbol,
            heap@.len() == symbol,
            forall|i: int| 0 <= i < symbol ==> #[trigger] nodes@[i] == leaf(i),
            forall|i: int| 0 <= i < symbol ==> #[trigger] heap@[i] == (freqs@[i], i as usize, i as usize),
        decreases SYMBOLS - symbol,
    {
        nodes.push(Node { left: None, right: None, symbol: Some(symbol as u8) });
        heap.push((freqs[symbol], symbol, symbol));
        symbol = symbol + 1;
    }
    assert(nodes@ =~= init_nodes());
    assert(heap@ =~= init_heap(freqs@));
    let mut next_tie: usize = SYMBOLS;
    while heap.len() > 1
        invariant
            merge_all(nodes@, heap@, next_tie as int) == merge_all(init_nodes(), init_heap(freqs@), 256),
            nodes@.len() + heap@.len() == 512,
            next_tie == nodes@.len(),
            heap@.len() >= 1,
        decreases heap@.len(),
    {
        let p1 = min_entry(&heap);
        let e1 = heap.remove(p1);
        let p2 = min_entry(&heap);
        let e2 = heap.remove(p2);
        let idx = nodes.len();
        nodes.push(Node { left: Some(e1.2), right: Some(e2.2), symbol: None });
        let w = if e1.0 > u32::MAX - e2.0 { u32::MAX } else { e1.0 + e2.0 };
        heap.push((w, next_tie, idx));
        next_tie = next_tie + 1;
    }
    let root = heap[0].2;
    Ok(DecodeTree { nodes, root })
}

// ---------------------------------------------------------------------------
// Codes: the paths from the root to the leaves

/// The child of `n` that bit `b` selects.
pub open spec fn child(n: Node, b: bool) -> int {
    if b {
        n.right.unwrap() as int
    } else {
        n.left.unwrap() as int
    }
}

/// The node reached from `idx` by following path `p`.
pub open spec fn follow(nodes: Seq<Node>, idx: int, p: Seq<bool>) -> int
    decreases p.len(),
{
    if p.len() == 0 {
        idx
    } else {
        child(nodes[follow(nodes, idx, p.drop_last())], p.last())
    }
}

/// Every proper prefix of `p` leads from `root` to an inner node.
pub open spec fn path_inner(nodes: Seq<Node>, root: int, p: Seq<bool>) -> bool {
    forall|j: int| 0 <= j < p.len() ==> #[trigger] nodes[follow(nodes, root, p.take(j))].symbol is None
}

/// `c` is the path from `root` to a leaf holding `s`.
pub open spec fn valid_code(nodes: Seq<Node>, root: int, s: u8, c: Code) -> bool {
    let p = code_bits(c.bits, c.len);
    &&& 1 <= c.len <= 63
    &&& path_inner(nodes, root, p)
    &&& 0 <= follow(nodes, root, p) < nodes.len()
    &&& nodes[follow(nodes, root, p)].symbol == Some(s)
}

pub open spec fn default_codes() -> Seq<Code> {
    Seq::new(256, |_i: int| Code { bits: 0, len: 0 })
}

/// Codes every leaf below `idx`, reached by the path `bits` of length `len`.
pub open spec fn assign_spec(nodes: Seq<Node>, idx: int, bits: u64, len: u8, codes: Seq<Code>) -> Result<
    Seq<Code>,
    CodecError,
>
    decreases idx,
{
    if !(0 <= idx < nodes.len()) {
        Err(CodecError::MissingChild)
    } else {
        let node = nodes[idx];
        match node.symbol {
            Some(sym) => Ok(codes.update(sym as int, Code { bits, len: if len >= 1 { len } else { 1 } })),
            None => {
                match (node.left, node.right) {
                    (Some(l), Some(r)) => {
                        if len >= 63 {
                            Err(CodecError::CodeTooLong)
                        } else if l >= idx || r >= idx {
                            Err(CodecError::MissingChild)
                        } else {
                            match assign_spec(nodes, l as int, bits << 1u64, (len + 1) as u8, codes) {
                                Ok(c1) => assign_spec(nodes, r as int, (bits << 1u64) | 1u64, (len + 1) as u8, c1),
                                Err(e) => Err(e),
                            }
                        }
                    },
                    _ => Err(CodecError::MissingChild),
                }
            },
        }
    }
}

/// The codes of the tree built from counts `f`.
pub open spec fn codes_spec(f: Seq<u32>) -> Result<Seq<Code>, CodecError> {
    assign_spec(tree_nodes(f), tree_root(f), 0, 0, default_codes())
}

proof fn lemma_code_bits_push(bits: u64, len: u8, b: u64)
    requires
        len < 63,
        b <= 1,
    ensures
        code_bits((bits << 1u64) | b, (len + 1) as u8) == code_bits(bits, len).push(b == 1),
{
    let p = code_bits(bits, len);
    let q = code_bits((bits << 1u64) | b, (len + 1) as u8);
    assert forall|j: int| 0 <= j < q.len() implies q[j] == p.push(b == 1)[j] by {
        if j < len {
            let sh = (len - 1 - j) as u64;
            assert((((bits << 1u64) | b) >> ((sh + 1) as u64)) & 1u64 == (bits >> sh) & 1u64)
                by (bit_vector)
                requires
                    sh < 63,
                    b <= 1,
            ;
            assert(((len + 1) as u8 - 1 - j) as u64 == (sh + 1) as u64);
        } else {
            assert((((bits << 1u64) | b) >> 0u64) & 1u64 == b) by (bit_vector)
                requires
                    b <= 1,
            ;
        }
    }
    assert(q =~= p.push(b == 1));
}

proof fn lemma_follow_push(nodes: Seq<Node>, root: int, p: Seq<bool>, b: bool)
    ensures
        follow(nodes, root, p.push(b)) == child(nodes[follow(nodes, root, p)], b),
        p.push(b).take(p.len() as int) == p,
{
    assert(p.push(b).drop_last() =~= p);
    assert(p.push(b).take(p.len() as int) =~= p);
}

/// Every code `assign_spec` sets is the path to a leaf holding its byte.
proof fn lemma_assign_valid(nodes: Seq<Node>, root: int, idx: int, bits: u64, len: u8, codes: Seq<Code>)
    requires
        tree_wf(nodes, root),
        0 <= idx < nodes.len(),
        len <= 63,
        follow(nodes, root, code_bits(bits, len)) == idx,
        path_inner(nodes, root, code_bits(bits, len)),
        len == 0 ==> nodes[idx].symbol is None,
        codes.len() == 256,
    ensures
        assign_spec(nodes, idx, bits, len, codes) matches Ok(c) ==> c.len() == 256 && forall|s: u8|
            #[trigger] c[s as int] == codes[s as int] || valid_code(nodes, root, s, c[s as int]),
    decreases idx,
{
    let node = nodes[idx];
    assert(inner_ok(nodes, idx));
    match node.symbol {
        Some(sym) => {},
        None => {
            if len < 63 {
                let l = node.left.unwrap() as int;
                let r = node.right.unwrap() as int;
                let p = code_bits(bits, len);
                lemma_code_bits_push(bits, len, 0);
                lemma_code_bits_push(bits, len, 1);
                assert((bits << 1u64) | 0u64 == bits << 1u64) by (bit_vector);
                lemma_follow_push(nodes, root, p, false);
                lemma_follow_push(nodes, root, p, true);
                assert(path_inner(nodes, root, p.push(false))) by {
                    assert forall|j: int| 0 <= j < p.push(false).len() implies #[trigger] nodes[follow(
                        nodes,
                        root,
                        p.push(false).take(j),
                    )].symbol is None by {
                        if j < p.len() {
                            assert(p.push(false).take(j) =~= p.take(j));
                        }
                    }
                }
                assert(path_inner(nodes, root, p.push(true))) by {
                    assert forall|j: int| 0 <= j < p.push(true).len() implies #[trigger] nodes[follow(
                        nodes,
                        root,
                        p.push(true).take(j),
                    )].symbol is None by {
                        if j < p.len() {
                            assert(p.push(true).take(j) =~= p.take(j));
                        }
                    }
                }
                lemma_assign_valid(nodes, root, l, bits << 1u64, (len + 1) as u8, codes);
                match assign_spec(nodes, l, bits << 1u64, (len + 1) as u8, codes) {
                    Ok(c1) => {
                        lemma_assign_valid(nodes, root, r, (bits << 1u64) | 1u64, (len + 1) as u8, c1);
                    },
                    Err(_) => {},
                }
            }
        },
    }
}

/// Codes every leaf below `idx`, reached by the path `bits` of length `len`.
pub fn assign_codes(nodes: &Vec<Node>, idx: usize, bits: u64, len: u8, codes: &mut Vec<Code>) -> (r:
    Result<(), CodecError>)
    requires
        forall|i: int| 0 <= i < nodes@.len() ==> #[trigger] inner_ok(nodes@, i),
        idx < nodes@.len(),
        old(codes)@.len() == 256,
    ensures
        match assign_spec(nodes@, idx as int, bits, len, old(codes)@) {
            Ok(c) => r is Ok && final(codes)@ == c,
            Err(e) => r == Err::<(), CodecError>(e),
        },
        final(codes)@.len() == 256,
    decreases idx,
{
    let node = nodes[idx];
    assert(inner_ok(nodes@, idx as int));
    match node.symbol {
        Some(symbol) => {
            let l = if len >= 1 { len } else { 1 };
            codes.set(symbol as usize, Code { bits, len: l });
            return Ok(());
        },
        None => {},
    }
    let left = match node.left {
        Some(l) => l,
        None => {
            return Err(CodecError::MissingChild);
        },
    };
    let right = match node.right {
        Some(r) => r,
        None => {
            return Err(CodecError::MissingChild);
        },
    };
    if len >= 63 {
        return Err(CodecError::CodeTooLong);
    }
    match assign_codes(nodes, left, bits << 1u64, len + 1, codes) {
        Ok(()) => {},
        Err(e) => {
            return Err(e);
        },
    }
    assign_codes(nodes, right, (bits << 1u64) | 1u64, len + 1, codes)
}

/// The code of every byte in the tree built from `freqs`.
pub fn build_codes(freqs: &Vec<u32>) -> (r: Result<Vec<Code>, CodecError>)
    requires
        freqs@.len() == 256,
    ensures
        match codes_spec(freqs@) {
            Ok(c) => r is Ok && r->Ok_0@ == c,
            Err(e) => r == Err::<Vec<Code>, CodecError>(e),
        },
{
    let tree = match build_tree(freqs) {
        Ok(t) => t,
        Err(e) => {
            return Err(e);
        },
    };
    proof {
        lemma_tree_wf(freqs@);
    }
    let mut codes: Vec<Code> = Vec::new();
    let mut i: usize = 0;
    while i < SYMBOLS
        invariant
            i <= SYMBOLS,
            codes@.len() == i,
            forall|j: int| 0 <= j < i ==> #[trigger] codes@[j] == (Code { bits: 0, len: 0 }),
        decreases SYMBOLS - i,
    {
        codes.push(Code { bits: 0, len: 0 });
        i = i + 1;
    }
    assert(codes@ =~= default_codes());
    match assign_codes(&tree.nodes, tree.root, 0, 0, &mut codes) {
        Ok(()) => Ok(codes),
        Err(e) => Err(e),
    }
}

/// The codes built from counts `f`, where they exist, are paths to the
/// leaves of the same tree (or still empty).
pub proof fn lemma_codes_valid(f: Seq<u32>)
    requires
        f.len() == 256,
    ensures
        codes_spec(f) matches Ok(c) ==> c.len() == 256 && forall|s: u8|
            #[trigger] c[s as int].len == 0 || valid_code(tree_nodes(f), tree_root(f), s, c[s as int]),
{
    lemma_tree_wf(f);
    let nodes = tree_nodes(f);
    let root = tree_root(f);
    assert(code_bits(0, 0) =~= Seq::<bool>::empty());
    assert(path_inner(nodes, root, code_bits(0, 0)));
    lemma_assign_valid(nodes, root, root, 0, 0, default_codes());
}

/// The codes built from counts `f` are prefix-free: no byte's code begins
/// another byte's code; each is 1 to 63 bits long.
pub proof fn lemma_codes_prefix_free(f: Seq<u32>, s: u8, t: u8)
    requires
        f.len() == 256,
        codes_spec(f) is Ok,
        s != t,
        codes_spec(f)->Ok_0[s as int].len >= 1,
        codes_spec(f)->Ok_0[t as int].len >= 1,
    ensures
        ({
            let c = codes_spec(f)->Ok_0;
            let p = code_bits(c[s as int].bits, c[s as int].len);
            let q = code_bits(c[t as int].bits, c[t as int].len);
            &&& 1 <= p.len() <= 63
            &&& !(p.len() <= q.len() && q.take(p.len() as int) == p)
        }),
{
    lemma_codes_valid(f);
    let c = codes_spec(f)->Ok_0;
    let nodes = tree_nodes(f);
    let root = tree_root(f);
    let p = code_bits(c[s as int].bits, c[s as int].len);
    let q = code_bits(c[t as int].bits, c[t as int].len);
    assert(valid_code(nodes, root, s, c[s as int]));
    assert(valid_code(nodes, root, t, c[t as int]));
    if p.len() <= q.len() && q.take(p.len() as int) == p {
        if p.len() == q.len() {
            assert(q.take(q.len() as int) =~= q);
            assert(p == q);
        } else {
            assert(nodes[follow(nodes, root, q.take(p.len() as int))].symbol is None);
        }
    }
}

// ---------------------------------------------------------------------------
// Coding a block: each byte with the code of the row of the byte before it

/// The code of the byte at `j`, from the counts of the bytes that followed
/// the byte before it.
pub open spec fn code_at(f: Seq<u32>, data: Seq<u8>, j: int) -> Code {
    codes_spec(row(f, ctx(data, j)))->Ok_0[data[j] as int]
}

/// The bits coding `data[off..k]`.
pub open spec fn enc_range(f: Seq<u32>, data: Seq<u8>, off: int, k: int) -> Seq<bool>
    decreases k - off,
{
    if k <= off {
        Seq::empty()
    } else {
        let c = code_at(f, data, k - 1);
        enc_range(f, data, off, k - 1) + code_bits(c.bits, c.len)
    }
}

/// Every byte of `data[off..end]` has a code.
pub open spec fn all_coded(f: Seq<u32>, data: Seq<u8>, off: int, end: int) -> bool {
    forall|j: int| off <= j < end ==> #[trigger] coded_at(f, data, j)
}

/// The row of the byte before `j` has a code, and it codes the byte at `j`.
pub open spec fn coded_at(f: Seq<u32>, data: Seq<u8>, j: int) -> bool {
    &&& codes_spec(row(f, ctx(data, j))) is Ok
    &&& code_at(f, data, j).len >= 1
}

/// The error of the first byte from `j` on whose row has no code, or whose
/// code is empty.
pub open spec fn block_error(f: Seq<u32>, data: Seq<u8>, j: int, end: int) -> CodecError
    decreases end - j,
{
    if j >= end {
        CodecError::ZeroLengthCode
    } else {
        match codes_spec(row(f, ctx(data, j))) {
            Err(e) => e,
            Ok(c) => if c[data[j] as int].len == 0 {
                CodecError::ZeroLengthCode
            } else {
                block_error(f, data, j + 1, end)
            },
        }
    }
}

proof fn lemma_row_len(f: Seq<u32>, c: u8)
    requires
        f.len() == 65536,
    ensures
        row(f, c).len() == 256,
{
}

/// Codes the block `data[off..end]`; the code of a row is built when a byte
/// first needs it.
pub fn encode_block(data: &[u8], off: usize, end: usize, freqs: &Vec<u32>) -> (r: Result<Vec<u8>, CodecError>)
    requires
        off <= end <= data@.len(),
        freqs@.len() == 65536,
    ensures
        all_coded(freqs@, data@, off as int, end as int) ==> r is Ok && bytes_to_bits(r->Ok_0@) == enc_range(
            freqs@,
            data@,
            off as int,
            end as int,
        ) + padding(enc_range(freqs@, data@, off as int, end as int).len()),
        !all_coded(freqs@, data@, off as int, end as int) ==> r == Err::<Vec<u8>, CodecError>(
            block_error(freqs@, data@, off as int, end as int),
        ),
{
    let ghost f = freqs@;
    let mut tables: Vec<Vec<Code>> = Vec::new();
    let mut c: usize = 0;
    while c < 256
        invariant
            c <= 256,
            tables@.len() == c,
            forall|q: int| 0 <= q < c ==> (#[trigger] tables@[q])@.len() == 0,
        decreases 256 - c,
    {
        tables.push(Vec::new());
        c = c + 1;
    }
    let mut writer = BitWriter::new();
    let mut j: usize = off;
    while j < end
        invariant
            off <= j <= end <= data@.len(),
            f == freqs@,
            f.len() == 65536,
            tables@.len() == 256,
            forall|q: int|
                0 <= q < 256 ==> (#[trigger] tables@[q])@.len() == 0 || codes_spec(row(f, q as u8))
                    == Ok::<Seq<Code>, CodecError>(tables@[q]@),
            writer.wf(),
            writer.view() == enc_range(f, data@, off as int, j as int),
            all_coded(f, data@, off as int, j as int),
            block_error(f, data@, off as int, end as int) == block_error(f, data@, j as int, end as int),
        decreases end - j,
    {
        let cb: u8 = if j == 0 { 0 } else { data[j - 1] };
        let ci = cb as usize;
        assert(cb == ctx(data@, j as int));
        proof {
            lemma_row_len(f, cb);
            lemma_codes_valid(row(f, cb));
        }
        if tables[ci].len() == 0 {
            let r = row_of(freqs, cb);
            assert(r@ == row(f, cb));
            match build_codes(&r) {
                Ok(codes) => {
                    tables.set(ci, codes);
                },
                Err(e) => {
                    assert(codes_spec(row(f, cb)) == Err::<Seq<Code>, CodecError>(e));
                    assert(block_error(f, data@, j as int, end as int) == e);
                    assert(!all_coded(f, data@, off as int, end as int)) by {
                        assert(!(codes_spec(row(f, ctx(data@, j as int))) is Ok));
                        assert(off <= j < end);
                        if all_coded(f, data@, off as int, end as int) {
                            assert(coded_at(f, data@, j as int));
                        }
                    }
                    return Err(e);
                },
            }
        } else {
            assert(codes_spec(row(f, (ci as int) as u8)) == Ok::<Seq<Code>, CodecError>(tables@[ci as int]@));
        }
        assert(codes_spec(row(f, cb)) == Ok::<Seq<Code>, CodecError>(tables@[ci as int]@));
        let code = tables[ci][data[j] as usize];
        assert(code == code_at(f, data@, j as int));
        assert(code.len <= 63) by {
            let cs = tables@[ci as int]@;
            assert(cs[data@[j as int] as int].len == 0 || valid_code(
                tree_nodes(row(f, cb)),
                tree_root(row(f, cb)),
                data@[j as int],
                cs[data@[j as int] as int],
            ));
        }
        match writer.write_bits(code.bits, code.len) {
            Ok(()) => {},
            Err(e) => {
                assert(!all_coded(f, data@, off as int, end as int)) by {
                    if all_coded(f, data@, off as int, end as int) {
                        assert(coded_at(f, data@, j as int));
                    }
                }
                return Err(e);
            },
        }
        proof {
            assert(coded_at(f, data@, j as int));
            assert forall|q: int| off <= q < j + 1 implies #[trigger] coded_at(f, data@, q) by {
                if q < j {
                    assert(coded_at(f, data@, q));
                }
            }
        }
        j = j + 1;
    }
    Ok(writer.finish())
}

/// Decoding one byte: walk from `idx` along the bits from `pos` to a leaf.
pub open spec fn decode_one(nodes: Seq<Node>, idx: int, bits: Seq<bool>, pos: int) -> Result<
    (u8, int),
    CodecError,
>
    decreases idx,
{
    if !(0 <= idx < nodes.len()) {
        Err(CodecError::MissingChild)
    } else {
        match nodes[idx].symbol {
            Some(s) => Ok((s, pos)),
            None => {
                if pos < 0 || pos >= bits.len() {
                    Err(CodecError::RanOutOfBits)
                } else {
                    let c = if bits[pos] { nodes[idx].right } else { nodes[idx].left };
                    match c {
                        Some(ci) => if ci < idx {
                            decode_one(nodes, ci as int, bits, pos + 1)
                        } else {
                            Err(CodecError::MissingChild)
                        },
                        None => Err(CodecError::MissingChild),
                    }
                }
            },
        }
    }
}

/// The byte whose row codes the next byte of a block: the last one decoded,
/// or `c0` before the first.
pub open spec fn prev_byte(out: Seq<u8>, c0: u8) -> u8 {
    if out.len() == 0 {
        c0
    } else {
        out.last()
    }
}

/// Decoding bytes, each with the tree of the row of the byte before it,
/// until `out` holds `n` of them.
pub open spec fn decode_from(f: Seq<u32>, bits: Seq<bool>, pos: int, out: Seq<u8>, n: int, c0: u8) -> Result<
    Seq<u8>,
    CodecError,
>
    decreases n - out.len(),
{
    if out.len() >= n {
        Ok(out)
    } else {
        let c = prev_byte(out, c0);
        match decode_one(tree_nodes(row(f, c)), tree_root(row(f, c)), bits, pos) {
            Ok((s, p2)) => decode_from(f, bits, p2, out.push(s), n, c0),
            Err(e) => Err(e),
        }
    }
}

/// A successful decoding holds exactly the bytes asked for.
pub proof fn lemma_decode_from_len(f: Seq<u32>, bits: Seq<bool>, pos: int, out: Seq<u8>, n: int, c0: u8)
    requires
        out.len() <= n,
    ensures
        decode_from(f, bits, pos, out, n, c0) matches Ok(v) ==> v.len() == n,
    decreases n - out.len(),
{
    if out.len() < n {
        let c = prev_byte(out, c0);
        match decode_one(tree_nodes(row(f, c)), tree_root(row(f, c)), bits, pos) {
            Ok((s, p2)) => lemma_decode_from_len(f, bits, p2, out.push(s), n, c0),
            Err(_) => {},
        }
    }
}

/// An empty tree, standing for a row whose tree is not built yet.
fn unbuilt() -> (t: DecodeTree)
    ensures
        t.nodes@.len() == 0,
{
    DecodeTree { nodes: Vec::new(), root: 0 }
}

/// Decodes `output_len` bytes from `payload`, the first following `c0`;
/// the tree of a row is built when a byte first needs it.
pub fn decode_block(payload: &[u8], output_len: usize, c0: u8, freqs: &Vec<u32>) -> (r: Result<Vec<u8>, CodecError>)
    requires
        freqs@.len() == 65536,
    ensures
        match decode_from(freqs@, bytes_to_bits(payload@), 0, Seq::empty(), output_len as int, c0) {
            Ok(v) => r is Ok && r->Ok_0@ == v,
            Err(e) => r == Err::<Vec<u8>, CodecError>(e),
        },
{
    let ghost f = freqs@;
    let ghost bits = bytes_to_bits(payload@);
    let mut trees: Vec<DecodeTree> = Vec::new();
    let mut c: usize = 0;
    while c < 256
        invariant
            c <= 256,
            trees@.len() == c,
            forall|q: int| 0 <= q < c ==> (#[trigger] trees@[q]).nodes@.len() == 0,
        decreases 256 - c,
    {
        trees.push(unbuilt());
        c = c + 1;
    }
    let mut reader = BitReader::new(payload);
    let mut output: Vec<u8> = Vec::new();
    while output.len() < output_len
        invariant
            f == freqs@,
            f.len() == 65536,
            trees@.len() == 256,
            forall|q: int|
                0 <= q < 256 ==> (#[trigger] trees@[q]).nodes@.len() == 0 || (trees@[q].nodes@ == tree_nodes(
                    row(f, q as u8),
                ) && trees@[q].root == tree_root(row(f, q as u8))),
            bits == bytes_to_bits(payload@),
            reader.wf(),
            reader.data() == payload@,
            0 <= reader.pos() <= bits.len(),
            decode_from(f, bits, reader.pos(), output@, output_len as int, c0) == decode_from(
                f,
                bits,
                0,
                Seq::empty(),
                output_len as int,
                c0,
            ),
        decreases output_len - output@.len(),
    {
        let cb: u8 = if output.len() == 0 { c0 } else { output[output.len() - 1] };
        let ci = cb as usize;
        assert(cb == prev_byte(output@, c0));
        proof {
            lemma_row_len(f, cb);
            lemma_tree_wf(row(f, cb));
        }
        if trees[ci].nodes.len() == 0 {
            let r = row_of(freqs, cb);
            let t = match build_tree(&r) {
                Ok(t) => t,
                Err(e) => {
                    return Err(e);
                },
            };
            trees.set(ci, t);
        } else {
            assert(trees@[ci as int].nodes@ == tree_nodes(row(f, (ci as int) as u8)));
        }
        let ghost nodes = tree_nodes(row(f, cb));
        let ghost root = tree_root(row(f, cb));
        let tree = &trees[ci];
        assert(tree.nodes@ == nodes && tree.root == root);
        let ghost start = reader.pos();
        let ghost out0 = output@;
        let mut node_idx = tree.root;
        loop
            invariant_except_break
                output@ == out0,
                node_idx < nodes.len(),
                decode_one(nodes, node_idx as int, bits, reader.pos()) == decode_one(nodes, root, bits, start),
            invariant
                tree_wf(nodes, root),
                nodes == tree.nodes@,
                root == tree.root,
                nodes == tree_nodes(row(f, cb)),
                root == tree_root(row(f, cb)),
                cb == prev_byte(out0, c0),
                bits == bytes_to_bits(payload@),
                reader.wf(),
                reader.data() == payload@,
                0 <= reader.pos() <= bits.len(),
                out0.len() < output_len,
                f == freqs@,
                f.len() == 65536,
                trees@.len() == 256,
                forall|q: int|
                    0 <= q < 256 ==> (#[trigger] trees@[q]).nodes@.len() == 0 || (trees@[q].nodes@ == tree_nodes(
                        row(f, q as u8),
                    ) && trees@[q].root == tree_root(row(f, q as u8))),
                decode_from(f, bits, start, out0, output_len as int, c0) == decode_from(
                    f,
                    bits,
                    0,
                    Seq::empty(),
                    output_len as int,
                    c0,
                ),
            ensures
                output@.len() == out0.len() + 1,
                output@ == out0.push(output@.last()),
                decode_one(nodes, root, bits, start) == Ok::<(u8, int), CodecError>((output@.last(), reader.pos())),
            decreases node_idx,
        {
            let node = tree.nodes[node_idx];
            assert(inner_ok(nodes, node_idx as int));
            match node.symbol {
                Some(symbol) => {
                    output.push(symbol);
                    break;
                },
                None => {},
            }
            let ghost p = reader.pos();
            let bit = match reader.read_bit() {
                Some(b) => b,
                None => {
                    return Err(CodecError::RanOutOfBits);
                },
            };
            proof {
                assert(stream_bit(payload@, p) == bits[p]);
            }
            if bit == 0 {
                node_idx = match node.left {
                    Some(l) => l,
                    None => {
                        return Err(CodecError::MissingChild);
                    },
                };
            } else {
                node_idx = match node.right {
                    Some(r) => r,
                    None => {
                        return Err(CodecError::MissingChild);
                    },
                };
            }
        }
    }
    Ok(output)
}

/// A valid code decodes to its byte, consuming exactly its bits.
proof fn lemma_decode_code(nodes: Seq<Node>, root: int, c: Code, s: u8, bits: Seq<bool>, pos: int)
    requires
        tree_wf(nodes, root),
        valid_code(nodes, root, s, c),
        0 <= pos,
        pos + c.len <= bits.len(),
        bits.subrange(pos, pos + c.len) == code_bits(c.bits, c.len),
    ensures
        decode_one(nodes, root, bits, pos) == Ok::<(u8, int), CodecError>((s, pos + c.len)),
{
    let p = code_bits(c.bits, c.len);
    lemma_decode_walk(nodes, root, p, bits, pos, p.len() as int);
    assert(p.take(p.len() as int) =~= p);
}

proof fn lemma_decode_walk(nodes: Seq<Node>, root: int, p: Seq<bool>, bits: Seq<bool>, pos: int, j: int)
    requires
        tree_wf(nodes, root),
        path_inner(nodes, root, p),
        0 <= follow(nodes, root, p) < nodes.len(),
        0 <= pos,
        0 <= j <= p.len(),
        pos + p.len() <= bits.len(),
        bits.subrange(pos, pos + p.len()) == p,
    ensures
        0 <= follow(nodes, root, p.take(j)) < nodes.len(),
        decode_one(nodes, root, bits, pos) == decode_one(nodes, follow(nodes, root, p.take(j)), bits, pos + j),
    decreases j,
{
    if j == 0 {
        assert(p.take(0) =~= Seq::<bool>::empty());
    } else {
        lemma_decode_walk(nodes, root, p, bits, pos, j - 1);
        let q = p.take(j - 1);
        let n = follow(nodes, root, q);
        assert(nodes[n].symbol is None);
        assert(inner_ok(nodes, n));
        assert(p.take(j).drop_last() =~= q);
        assert(p.take(j).last() == p[j - 1]);
        assert(bits[pos + j - 1] == p[j - 1]) by {
            assert(bits.subrange(pos, pos + p.len())[j - 1] == bits[pos + j - 1]);
        }
    }
}

proof fn lemma_enc_range_prefix(f: Seq<u32>, data: Seq<u8>, off: int, k: int, end: int)
    requires
        off <= k <= end,
    ensures
        enc_range(f, data, off, k).len() <= enc_range(f, data, off, end).len(),
        enc_range(f, data, off, end).take(enc_range(f, data, off, k).len() as int) == enc_range(f, data, off, k),
    decreases end - k,
{
    let a = enc_range(f, data, off, k);
    if k == end {
        assert(a.take(a.len() as int) =~= a);
    } else {
        lemma_enc_range_prefix(f, data, off, k, end - 1);
        let b = enc_range(f, data, off, end - 1);
        assert(enc_range(f, data, off, end).take(a.len() as int) =~= b.take(a.len() as int));
    }
}

/// The coded bits of the byte at `i` follow those of the bytes before it.
proof fn lemma_decode_range(f: Seq<u32>, data: Seq<u8>, off: int, end: int, extra: Seq<bool>, i: int)
    requires
        f.len() == 65536,
        0 <= off <= i <= end <= data.len(),
        all_coded(f, data, off, end),
    ensures
        decode_from(
            f,
            enc_range(f, data, off, end) + extra,
            enc_range(f, data, off, i).len() as int,
            data.subrange(off, i),
            end - off,
            ctx(data, off),
        ) == Ok::<Seq<u8>, CodecError>(data.subrange(off, end)),
    decreases end - i,
{
    let bits = enc_range(f, data, off, end) + extra;
    if i < end {
        lemma_decode_range(f, data, off, end, extra, i + 1);
        let s = data[i];
        let cb = ctx(data, i);
        let c = code_at(f, data, i);
        assert(coded_at(f, data, i));
        lemma_row_len(f, cb);
        lemma_codes_valid(row(f, cb));
        lemma_tree_wf(row(f, cb));
        assert(valid_code(tree_nodes(row(f, cb)), tree_root(row(f, cb)), s, c));
        let out = data.subrange(off, i);
        assert(prev_byte(out, ctx(data, off)) == cb) by {
            if i > off {
                assert(out.last() == data[i - 1]);
            }
        }
        let a = enc_range(f, data, off, i);
        lemma_enc_range_prefix(f, data, off, i + 1, end);
        let b = enc_range(f, data, off, i + 1);
        assert(bits.subrange(a.len() as int, a.len() + c.len) =~= code_bits(c.bits, c.len)) by {
            assert forall|q: int| 0 <= q < c.len implies bits.subrange(a.len() as int, a.len() + c.len)[q]
                == code_bits(c.bits, c.len)[q] by {
                assert(enc_range(f, data, off, end).take(b.len() as int)[a.len() + q] == b[a.len() + q]);
            }
        }
        lemma_decode_code(tree_nodes(row(f, cb)), tree_root(row(f, cb)), c, s, bits, a.len() as int);
        assert(out.push(s) =~= data.subrange(off, i + 1));
    }
}

/// Decoding the coded bits of a block gives the block back, whatever
/// follows them.
pub proof fn lemma_block_roundtrip(f: Seq<u32>, data: Seq<u8>, off: int, end: int, extra: Seq<bool>)
    requires
        f.len() == 65536,
        0 <= off <= end <= data.len(),
        all_coded(f, data, off, end),
    ensures
        decode_from(f, enc_range(f, data, off, end) + extra, 0, Seq::empty(), end - off, ctx(data, off))
            == Ok::<Seq<u8>, CodecError>(data.subrange(off, end)),
{
    lemma_decode_range(f, data, off, end, extra, off);
    assert(data.subrange(off, off) =~= Seq::<u8>::empty());
}

proof fn lemma_enc_range_len(f: Seq<u32>, data: Seq<u8>, off: int, k: int)
    requires
        f.len() == 65536,
        0 <= off <= k <= data.len(),
        all_coded(f, data, off, k),
    ensures
        enc_range(f, data, off, k).len() <= 63 * (k - off),
    decreases k - off,
{
    if k > off {
        lemma_enc_range_len(f, data, off, k - 1);
        let cb = ctx(data, k - 1);
        assert(coded_at(f, data, k - 1));
        lemma_row_len(f, cb);
        lemma_codes_valid(row(f, cb));
        let cs = codes_spec(row(f, cb))->Ok_0;
        assert(cs[data[k - 1] as int].len == 0 || valid_code(tree_nodes(row(f, cb)), tree_root(row(f, cb)), data[k - 1], cs[data[k - 1] as int]));
    }
}
// ---------------------------------------------------------------------------
// Whole archives

/// Where the block starting at `off` ends.
pub open spec fn block_end(n: int, off: int) -> int {
    if off + DEFAULT_BLOCK_SIZE < n {
        off + DEFAULT_BLOCK_SIZE
    } else {
        n
    }
}

/// Every block from `off` on gets codes for all its bytes.
pub open spec fn blocks_ok(data: Seq<u8>, off: int, f: Seq<u32>) -> bool
    decreases data.len() - off,
{
    if off >= data.len() || off < 0 {
        true
    } else {
        let end = block_end(data.len() as int, off);
        &&& all_coded(f, data, off, end)
        &&& blocks_ok(data, end, observe_spec(f, data, off, end))
    }
}

/// The error of the first byte, from the block at `off` on, whose row has
/// no code or whose code is empty.
pub open spec fn blocks_error(data: Seq<u8>, off: int, f: Seq<u32>) -> CodecError
    decreases data.len() - off,
{
    if off >= data.len() || off < 0 {
        CodecError::ZeroLengthCode
    } else {
        let end = block_end(data.len() as int, off);
        if !all_coded(f, data, off, end) {
            block_error(f, data, off, end)
        } else {
            blocks_error(data, end, observe_spec(f, data, off, end))
        }
    }
}

/// The compressor succeeds on `data`.
pub open spec fn compress_ok(data: Seq<u8>) -> bool {
    blocks_ok(data, 0, init_freqs())
}

/// From archive position `pos` on, `a` holds the blocks of `data` from `off` on.
pub open spec fn archive_blocks(a: Seq<u8>, pos: int, data: Seq<u8>, off: int, f: Seq<u32>) -> bool
    decreases data.len() - off,
{
    if off >= data.len() || off < 0 {
        0 <= pos <= a.len()
    } else {
        let end = block_end(data.len() as int, off);
        let bits = enc_range(f, data, off, end);
        let plen = le_u32(a.subrange(pos + 4, pos + 8)) as int;
        &&& all_coded(f, data, off, end)
        &&& 0 <= pos
        &&& pos + 8 + plen <= a.len()
        &&& a.subrange(pos, pos + 4) == le_bytes_u32((end - off) as u32)
        &&& bytes_to_bits(a.subrange(pos + 8, pos + 8 + plen)) == bits + padding(bits.len())
        &&& archive_blocks(a, pos + 8 + plen, data, end, observe_spec(f, data, off, end))
    }
}

/// `archive` is what `compress` makes of `data`.
pub open spec fn is_archive_of(archive: Seq<u8>, data: Seq<u8>) -> bool {
    &&& archive.len() >= 16
    &&& archive.subrange(0, 4) == magic_spec()
    &&& archive.subrange(4, 8) == le_bytes_u32(DEFAULT_BLOCK_SIZE as u32)
    &&& archive.subrange(8, 16) == le_bytes_u64(data.len() as u64)
    &&& data.len() <= u64::MAX
    &&& archive_blocks(archive, 16, data, 0, init_freqs())
}

/// Archive positions only move forward when more bytes are appended.
proof fn lemma_archive_blocks_extend(a: Seq<u8>, b: Seq<u8>, pos: int, data: Seq<u8>, off: int, f: Seq<u32>)
    requires
        archive_blocks(a, pos, data, off, f),
    ensures
        archive_blocks(a + b, pos, data, off, f),
    decreases data.len() - off,
{
    if off < data.len() && off >= 0 {
        let end = block_end(data.len() as int, off);
        let plen = le_u32(a.subrange(pos + 4, pos + 8)) as int;
        assert((a + b).subrange(pos + 4, pos + 8) =~= a.subrange(pos + 4, pos + 8));
        assert((a + b).subrange(pos, pos + 4) =~= a.subrange(pos, pos + 4));
        assert((a + b).subrange(pos + 8, pos + 8 + plen) =~= a.subrange(pos + 8, pos + 8 + plen));
        lemma_archive_blocks_extend(a, b, pos + 8 + plen, data, end, observe_spec(f, data, off, end));
    }
}

/// Compresses `data` block by block, each byte with the code of the row of
/// the byte before it.
#[verifier::spinoff_prover]
#[verifier::rlimit(60)]
pub fn compress(data: &[u8]) -> (r: Result<Vec<u8>, CodecError>)
    ensures
        r is Ok <==> compress_ok(data@),
        r is Ok ==> is_archive_of(r->Ok_0@, data@),
        r is Err ==> r->Err_0 == blocks_error(data@, 0, init_freqs()),
{
    let mut out: Vec<u8> = Vec::new();
    let m = magic();
    out.push(m[0]);
    out.push(m[1]);
    out.push(m[2]);
    out.push(m[3]);
    push_u32_le(&mut out, DEFAULT_BLOCK_SIZE as u32);
    push_u64_le(&mut out, data.len() as u64);
    let ghost header = out@;
    assert(header.subrange(0, 4) =~= magic_spec());
    assert(header.subrange(4, 8) =~= le_bytes_u32(DEFAULT_BLOCK_SIZE as u32));
    assert(header.subrange(8, 16) =~= le_bytes_u64(data@.len() as u64));
    let mut model = Model::new();
    let mut offset: usize = 0;
    while offset < data.len()
        invariant
            offset <= data@.len(),
            header.len() == 16,
            model.view().len() == 65536,
            out@.len() >= 16,
            out@.subrange(0, 16) == header,
            blocks_ok(data@, 0, init_freqs()) == blocks_ok(data@, offset as int, model.view()),
            blocks_error(data@, 0, init_freqs()) == blocks_error(data@, offset as int, model.view()),
            forall|tail: Seq<u8>|
                #[trigger] archive_blocks(out@ + tail, out@.len() as int, data@, offset as int, model.view())
                    ==> archive_blocks(out@ + tail, 16, data@, 0, init_freqs()),
        decreases data@.len() - offset,
    {
        let end = if data.len() - offset > DEFAULT_BLOCK_SIZE { offset + DEFAULT_BLOCK_SIZE } else { data.len() };
        let ghost f = model.view();
        assert(end as int == block_end(data@.len() as int, offset as int));
        let encoded = match encode_block(data, offset, end, &model.freqs) {
            Ok(v) => v,
            Err(e) => {
                return Err(e);
            },
        };
        proof {
            lemma_enc_range_len(f, data@, offset as int, end as int);
            let eb = enc_range(f, data@, offset as int, end as int);
            assert(bytes_to_bits(encoded@).len() == 8 * encoded@.len());
            assert(8 * encoded@.len() <= 63 * 65536 + 8);
        }
        let ghost before = out@;
        push_u32_le(&mut out, (end - offset) as u32);
        push_u32_le(&mut out, encoded.len() as u32);
        let mut k: usize = 0;
        let ghost mid = out@;
        while k < encoded.len()
            invariant
                k <= encoded@.len(),
                out@ == mid + encoded@.take(k as int),
            decreases encoded@.len() - k,
        {
            out.push(encoded[k]);
            k = k + 1;
            assert(out@ =~= mid + encoded@.take(k as int));
        }
        assert(encoded@.take(encoded@.len() as int) =~= encoded@);
        proof {
            lemma_le_u32_roundtrip(encoded@.len() as u32);
            assert forall|tail: Seq<u8>|
                #[trigger] archive_blocks(out@ + tail, out@.len() as int, data@, end as int, observe_spec(f, data@, offset as int, end as int))
                    implies archive_blocks(out@ + tail, 16, data@, 0, init_freqs()) by {
                let a = before + (le_bytes_u32((end - offset) as u32) + le_bytes_u32(encoded@.len() as u32) + encoded@ + tail);
                assert(out@ + tail =~= a);
                let p = before.len() as int;
                assert(a.subrange(p, p + 4) =~= le_bytes_u32((end - offset) as u32));
                assert(a.subrange(p + 4, p + 8) =~= le_bytes_u32(encoded@.len() as u32));
                assert(a.subrange(p + 8, p + 8 + encoded@.len()) =~= encoded@);
                assert(archive_blocks(a, p, data@, offset as int, f));
                let tail2 = le_bytes_u32((end - offset) as u32) + le_bytes_u32(encoded@.len() as u32) + encoded@ + tail;
                assert(a == before + tail2);
            }
            assert(out@.subrange(0, 16) =~= header);
            lemma_observe_len(f, data@, offset as int, end as int);
        }
        model.observe(data, offset, end);
        offset = end;
    }
    proof {
        assert(archive_blocks(out@ + Seq::<u8>::empty(), out@.len() as int, data@, offset as int, model.view()));
        assert(out@ + Seq::<u8>::empty() =~= out@);
        assert(out@.subrange(0, 4) =~= header.subrange(0, 4));
        assert(out@.subrange(4, 8) =~= header.subrange(4, 8));
        assert(out@.subrange(8, 16) =~= header.subrange(8, 16));
    }
    Ok(out)
}

/// Decoding the blocks of archive `a` from position `pos` on, with counts
/// `f`, after the bytes `done`, until `n` bytes are restored: each block
/// gives its length, at most `block_size` and at most what remains, its
/// payload length and its payload, decoded with the codes of the counts so
/// far. The result is every byte of the blocks restored in full, and the
/// error that stopped the decoding, if any.
pub open spec fn blocks_decoded(a: Seq<u8>, pos: int, f: Seq<u32>, done: Seq<u8>, n: int, block_size: int) -> (
    Seq<u8>,
    Option<CodecError>,
)
    decreases n - done.len(),
{
    if done.len() >= n {
        (done, None)
    } else if pos < 0 || pos + 8 > a.len() {
        (done, Some(CodecError::UnexpectedEof))
    } else {
        let block_len = le_u32(a.subrange(pos, pos + 4)) as int;
        let payload_len = le_u32(a.subrange(pos + 4, pos + 8)) as int;
        if block_len == 0 || block_len > block_size || n - done.len() < block_len {
            (done, Some(CodecError::InvalidBlockLength))
        } else if a.len() - (pos + 8) < payload_len {
            (done, Some(CodecError::UnexpectedEof))
        } else {
            let payload = a.subrange(pos + 8, pos + 8 + payload_len);
            let c0 = ctx(done, done.len() as int);
            match decode_from(f, bytes_to_bits(payload), 0, Seq::empty(), block_len, c0) {
                Err(e) => (done, Some(e)),
                Ok(blk) => {
                    proof {
                        lemma_decode_from_len(f, bytes_to_bits(payload), 0, Seq::empty(), block_len, c0);
                    }
                    blocks_decoded(
                        a,
                        pos + 8 + payload_len,
                        observe_spec(f, done + blk, done.len() as int, done.len() + block_len),
                        done + blk,
                        n,
                        block_size,
                    )
                },
            }
        }
    }
}

/// What decoding archive `a` gives: the restored bytes and the error that
/// stopped it, if any; a bad header stops it before any block.
pub open spec fn restored_spec(a: Seq<u8>) -> (Seq<u8>, Option<CodecError>) {
    if a.len() < 4 {
        (Seq::empty(), Some(CodecError::UnexpectedEof))
    } else if a.subrange(0, 4) != magic_spec() {
        (Seq::empty(), Some(CodecError::InvalidMagic))
    } else if a.len() < 8 {
        (Seq::empty(), Some(CodecError::UnexpectedEof))
    } else if le_u32(a.subrange(4, 8)) == 0 {
        (Seq::empty(), Some(CodecError::InvalidBlockSize))
    } else if a.len() < 16 {
        (Seq::empty(), Some(CodecError::UnexpectedEof))
    } else {
        blocks_decoded(
            a,
            16,
            init_freqs(),
            Seq::empty(),
            le_u64(a.subrange(8, 16)) as int,
            le_u32(a.subrange(4, 8)) as int,
        )
    }
}

proof fn lemma_blocks_decoded_len(a: Seq<u8>, pos: int, f: Seq<u32>, done: Seq<u8>, n: int, block_size: int)
    requires
        done.len() <= n,
    ensures
        blocks_decoded(a, pos, f, done, n, block_size).0.len() <= n,
        blocks_decoded(a, pos, f, done, n, block_size).1 is None ==> blocks_decoded(a, pos, f, done, n, block_size).0.len() == n,
    decreases n - done.len(),
{
    if done.len() < n && !(pos < 0 || pos + 8 > a.len()) {
        let block_len = le_u32(a.subrange(pos, pos + 4)) as int;
        let payload_len = le_u32(a.subrange(pos + 4, pos + 8)) as int;
        if !(block_len == 0 || block_len > block_size || n - done.len() < block_len) && !(a.len() - (pos + 8) < payload_len) {
            let payload = a.subrange(pos + 8, pos + 8 + payload_len);
            let c0 = ctx(done, done.len() as int);
            lemma_decode_from_len(f, bytes_to_bits(payload), 0, Seq::empty(), block_len, c0);
            match decode_from(f, bytes_to_bits(payload), 0, Seq::empty(), block_len, c0) {
                Err(e) => {},
                Ok(blk) => {
                    lemma_blocks_decoded_len(
                        a,
                        pos + 8 + payload_len,
                        observe_spec(f, done + blk, done.len() as int, done.len() + block_len),
                        done + blk,
                        n,
                        block_size,
                    );
                },
            }
        }
    }
}

/// Decodes an archive: the bytes of every block restored in full, and the
/// error that stopped the decoding, if any.
#[verifier::spinoff_prover]
#[verifier::rlimit(60)]
fn restore(archive: &[u8]) -> (r: (Vec<u8>, Option<CodecError>))
    ensures
        r.0@ == restored_spec(archive@).0,
        r.1 == restored_spec(archive@).1,
        forall|d: Seq<u8>| is_archive_of(archive@, d) ==> r.1 is None && r.0@ == d,
{
    if archive.len() < 4 {
        return (Vec::new(), Some(CodecError::UnexpectedEof));
    }
    let m = magic();
    if archive[0] != m[0] || archive[1] != m[1] || archive[2] != m[2] || archive[3] != m[3] {
        assert(archive@.subrange(0, 4) != magic_spec()) by {
            if archive@.subrange(0, 4) == magic_spec() {
                assert(archive@.subrange(0, 4)[0] == archive@[0]);
                assert(archive@.subrange(0, 4)[1] == archive@[1]);
                assert(archive@.subrange(0, 4)[2] == archive@[2]);
                assert(archive@.subrange(0, 4)[3] == archive@[3]);
            }
        }
        return (Vec::new(), Some(CodecError::InvalidMagic));
    }
    assert(archive@.subrange(0, 4) =~= magic_spec());
    let block_size = match read_u32(archive, 4) {
        Some(v) => v,
        None => {
            return (Vec::new(), Some(CodecError::UnexpectedEof));
        },
    };
    if block_size == 0 {
        proof {
            lemma_le_u32_roundtrip(DEFAULT_BLOCK_SIZE as u32);
        }
        return (Vec::new(), Some(CodecError::InvalidBlockSize));
    }
    let expected_len = match read_u64(archive, 8) {
        Some(v) => v,
        None => {
            return (Vec::new(), Some(CodecError::UnexpectedEof));
        },
    };
    proof {
        lemma_le_u32_roundtrip(DEFAULT_BLOCK_SIZE as u32);
        assert forall|d: Seq<u8>| is_archive_of(archive@, d) implies d.len() == expected_len by {
            lemma_le_u64_roundtrip(d.len() as u64);
        }
    }
    let mut model = Model::new();
    let mut restored: Vec<u8> = Vec::new();
    let mut pos: usize = 16;
    while (restored.len() as u64) < expected_len
        invariant
            archive@.len() >= 16,
            archive@.subrange(0, 4) == magic_spec(),
            expected_len == le_u64(archive@.subrange(8, 16)),
            block_size == le_u32(archive@.subrange(4, 8)),
            block_size != 0,
            restored@.len() <= expected_len,
            model.view().len() == 65536,
            16 <= pos <= archive@.len(),
            restored_spec(archive@) == blocks_decoded(
                archive@,
                pos as int,
                model.view(),
                restored@,
                expected_len as int,
                block_size as int,
            ),
            forall|d: Seq<u8>|
                #[trigger] is_archive_of(archive@, d) ==> d.len() == expected_len && block_size
                    == DEFAULT_BLOCK_SIZE && restored@ == d.take(restored@.len() as int)
                    && archive_blocks(archive@, pos as int, d, restored@.len() as int, model.view()),
        decreases expected_len - restored@.len(),
    {
        let off_x: usize = restored.len();
        let ghost off = off_x as int;
        let ghost f = model.view();
        let block_len = match read_u32(archive, pos) {
            Some(v) => v,
            None => {
                assert forall|d: Seq<u8>| is_archive_of(archive@, d) implies false by {}
                return (restored, Some(CodecError::UnexpectedEof));
            },
        };
        assert(pos + 4 <= archive.len());
        let pos4 = pos + 4;
        let payload_len = match read_u32(archive, pos4) {
            Some(v) => v,
            None => {
                assert forall|d: Seq<u8>| is_archive_of(archive@, d) implies false by {}
                return (restored, Some(CodecError::UnexpectedEof));
            },
        };
        proof {
            assert forall|d: Seq<u8>| is_archive_of(archive@, d) implies block_len as int == block_end(
                d.len() as int,
                off,
            ) - off by {
                lemma_le_u32_roundtrip((block_end(d.len() as int, off) - off) as u32);
            }
        }
        if block_len == 0 || block_len > block_size || (expected_len - restored.len() as u64)
            < block_len as u64 {
            assert forall|d: Seq<u8>| is_archive_of(archive@, d) implies false by {}
            return (restored, Some(CodecError::InvalidBlockLength));
        }
        if archive.len() - (pos + 8) < payload_len as usize {
            assert forall|d: Seq<u8>| is_archive_of(archive@, d) implies false by {}
            return (restored, Some(CodecError::UnexpectedEof));
        }
        let payload = vstd::slice::slice_subrange(archive, pos + 8, pos + 8 + payload_len as usize);
        let c0: u8 = if restored.len() == 0 { 0 } else { restored[restored.len() - 1] };
        assert(c0 == ctx(restored@, restored@.len() as int));
        proof {
            lemma_decode_from_len(f, bytes_to_bits(payload@), 0, Seq::empty(), block_len as int, c0);
            assert(payload@ == archive@.subrange(pos + 8, pos + 8 + payload_len));
            assert forall|d: Seq<u8>| is_archive_of(archive@, d) implies decode_from(
                f,
                bytes_to_bits(payload@),
                0,
                Seq::empty(),
                block_len as int,
                c0,
            ) == Ok::<Seq<u8>, CodecError>(d.subrange(off, block_end(d.len() as int, off))) by {
                let end = block_end(d.len() as int, off);
                assert(ctx(d, off) == c0) by {
                    if off > 0 {
                        assert(restored@[off - 1] == d.take(off)[off - 1]);
                    }
                }
                lemma_block_roundtrip(f, d, off, end, padding(enc_range(f, d, off, end).len()));
            }
        }
        let block = match decode_block(payload, block_len as usize, c0, &model.freqs) {
            Ok(b) => b,
            Err(e) => {
                assert forall|d: Seq<u8>| is_archive_of(archive@, d) implies false by {}
                return (restored, Some(e));
            },
        };
        let ghost before = restored@;
        let mut k: usize = 0;
        while k < block.len()
            invariant
                k <= block@.len(),
                restored@ == before + block@.take(k as int),
            decreases block@.len() - k,
        {
            restored.push(block[k]);
            k = k + 1;
            assert(restored@ =~= before + block@.take(k as int));
        }
        assert(block@.take(block@.len() as int) =~= block@);
        let end: usize = restored.len();
        proof {
            lemma_observe_len(f, restored@, off, end as int);
            assert forall|d: Seq<u8>| #[trigger] is_archive_of(archive@, d) implies d.len() == expected_len
                && block_size == DEFAULT_BLOCK_SIZE && restored@ == d.take(restored@.len() as int)
                && archive_blocks(archive@, pos + 8 + payload_len, d, restored@.len() as int, observe_spec(f, restored@, off, end as int)) by {
                let e = block_end(d.len() as int, off);
                assert(restored@ =~= d.take(e)) by {
                    assert(before == d.take(off));
                }
                assert(restored@.take(e) =~= restored@);
                assert(d.take(e).take(e) =~= d.take(e));
                lemma_count_range_prefix(f, restored@, d, off, e);
            }
        }
        model.observe(restored.as_slice(), off_x, end);
        pos = pos + 8 + payload_len as usize;
    }
    proof {
        assert forall|d: Seq<u8>| is_archive_of(archive@, d) implies restored@ == d by {
            assert(restored@ =~= d.take(d.len() as int));
            assert(d.take(d.len() as int) =~= d);
        }
    }
    (restored, None)
}

/// Restores the bytes of an archive made by `compress`, appending to `out`
/// the bytes of every block restored in full, also when a later block fails.
pub fn decompress(archive: &[u8], out: &mut Vec<u8>) -> (r: Result<(), CodecError>)
    ensures
        final(out)@ == old(out)@ + restored_spec(archive@).0,
        match restored_spec(archive@).1 {
            None => r is Ok,
            Some(e) => r == Err::<(), CodecError>(e),
        },
        forall|d: Seq<u8>| is_archive_of(archive@, d) ==> r is Ok && final(out)@ == old(out)@ + d,
{
    let (v, e) = restore(archive);
    let ghost start = out@;
    let mut k: usize = 0;
    while k < v.len()
        invariant
            k <= v@.len(),
            out@ == start + v@.take(k as int),
        decreases v@.len() - k,
    {
        out.push(v[k]);
        k = k + 1;
        assert(out@ =~= start + v@.take(k as int));
    }
    assert(v@.take(v@.len() as int) =~= v@);
    match e {
        None => Ok(()),
        Some(e) => Err(e),
    }
}

} // verus!

verus! {

/// Where the count of the byte at `j`, following the byte before it (a zero
/// byte before the first), is kept.
pub open spec fn pair_index(data: Seq<u8>, j: int) -> int {
    if j == 0 {
        data[0] as int
    } else {
        256 * (data[j - 1] as int) + (data[j] as int)
    }
}

/// How many bytes of `data[off..end]`, each with the byte before it, form
/// the pair whose count is kept at `i`.
pub open spec fn pair_occurrences(data: Seq<u8>, off: int, end: int, i: int) -> nat
    decreases end - off,
{
    if end <= off {
        0
    } else {
        pair_occurrences(data, off, end - 1, i) + if pair_index(data, end - 1) == i {
            1nat
        } else {
            0nat
        }
    }
}

/// `x`, capped at the largest count.
pub open spec fn capped(x: int) -> u32 {
    if x > u32::MAX {
        u32::MAX
    } else {
        x as u32
    }
}

/// The counts `f` with each pair's occurrences in `data[off..end]` added.
pub open spec fn counted(f: Seq<u32>, data: Seq<u8>, off: int, end: int) -> Seq<u32> {
    Seq::new(f.len(), |i: int| capped(f[i] + pair_occurrences(data, off, end, i)))
}

proof fn lemma_count_range_counted(f: Seq<u32>, data: Seq<u8>, off: int, k: int)
    requires
        f.len() == 65536,
        0 <= off,
        k <= data.len(),
    ensures
        count_range(f, data, off, k) == counted(f, data, off, k),
    decreases k - off,
{
    if k > off {
        lemma_count_range_counted(f, data, off, k - 1);
        let g = count_range(f, data, off, k - 1);
        let idx = pair_index(data, k - 1);
        assert(0 <= idx < 65536);
        assert(count_range(f, data, off, k) =~= counted(f, data, off, k));
    } else {
        assert(counted(f, data, off, k) =~= f);
    }
}

/// The counts after a block are the earlier counts plus one for every
/// occurrence of each (previous byte, byte) pair in the block, capped at the
/// largest count; all halved (rounding up, at least 1) when their sum then
/// passes the limit.
pub proof fn lemma_observe_counts(f: Seq<u32>, data: Seq<u8>, off: int, end: int)
    requires
        f.len() == 65536,
        0 <= off,
        end <= data.len(),
    ensures
        ({
            let g = counted(f, data, off, end);
            observe_spec(f, data, off, end) == if sum_freqs(g) > MAX_FREQUENCY_SUM {
                g.map_values(|x: u32| halve(x))
            } else {
                g
            }
        }),
{
    lemma_count_range_counted(f, data, off, end);
}

proof fn lemma_pair_occurrences_pos(data: Seq<u8>, off: int, end: int, j: int)
    requires
        off <= j < end,
    ensures
        pair_occurrences(data, off, end, pair_index(data, j)) >= 1,
    decreases end - off,
{
    if j < end - 1 {
        lemma_pair_occurrences_pos(data, off, end - 1, j);
    }
}

proof fn lemma_pair_occurrences_bound(data: Seq<u8>, off: int, end: int, i: int)
    ensures
        pair_occurrences(data, off, end, i) <= if end > off { end - off } else { 0 },
    decreases end - off,
{
    if end > off {
        lemma_pair_occurrences_bound(data, off, end - 1, i);
    }
}

proof fn lemma_sum_freqs_elem(f: Seq<u32>, i: int)
    requires
        0 <= i < f.len(),
    ensures
        f[i] <= sum_freqs(f),
    decreases f.len(),
{
    lemma_sum_freqs_bound(f.drop_last());
    if i < f.len() - 1 {
        lemma_sum_freqs_elem(f.drop_last(), i);
    }
}

proof fn lemma_sum_update(s: Seq<u32>, i: int, v: u32)
    requires
        0 <= i < s.len(),
    ensures
        sum_freqs(s.update(i, v)) == sum_freqs(s) - s[i] + v,
    decreases s.len(),
{
    let t = s.update(i, v);
    if i < s.len() - 1 {
        assert(t.drop_last() =~= s.drop_last().update(i, v));
        lemma_sum_update(s.drop_last(), i, v);
    } else {
        assert(t.drop_last() =~= s.drop_last());
    }
}

proof fn lemma_count_range_sum(f: Seq<u32>, data: Seq<u8>, off: int, k: int)
    requires
        f.len() == 65536,
        0 <= off <= k <= data.len(),
    ensures
        sum_freqs(count_range(f, data, off, k)) <= sum_freqs(f) + (k - off),
    decreases k - off,
{
    if k > off {
        lemma_count_range_sum(f, data, off, k - 1);
        lemma_count_range_len(f, data, off, k - 1);
        let g = count_range(f, data, off, k - 1);
        let idx = pair_index(data, k - 1);
        lemma_sum_update(g, idx, sat_add(g[idx], 1));
    }
}

/// After a block whose counts stay below the halving limit, the count of
/// every (previous byte, byte) pair that occurs in the block has grown, and
/// every other count is unchanged: the next block's codes are built from
/// counts that include this block.
pub proof fn lemma_observe_grows(f: Seq<u32>, data: Seq<u8>, off: int, end: int)
    requires
        f.len() == 65536,
        0 <= off <= end <= data.len(),
        sum_freqs(f) + (end - off) <= MAX_FREQUENCY_SUM,
    ensures
        forall|j: int|
            off <= j < end ==> #[trigger] observe_spec(f, data, off, end)[pair_index(data, j)] > f[pair_index(
                data,
                j,
            )],
        forall|i: int|
            0 <= i < 65536 && pair_occurrences(data, off, end, i) == 0 ==> #[trigger] observe_spec(
                f,
                data,
                off,
                end,
            )[i] == f[i],
{
    lemma_count_range_sum(f, data, off, end);
    lemma_count_range_counted(f, data, off, end);
    let g = counted(f, data, off, end);
    assert(!(sum_freqs(g) > MAX_FREQUENCY_SUM));
    assert forall|i: int| 0 <= i < 65536 implies g[i] == f[i] + pair_occurrences(data, off, end, i) by {
        lemma_sum_freqs_elem(f, i);
        lemma_pair_occurrences_bound(data, off, end, i);
    }
    assert forall|j: int| off <= j < end implies #[trigger] observe_spec(f, data, off, end)[pair_index(data, j)]
        > f[pair_index(data, j)] by {
        lemma_pair_occurrences_pos(data, off, end, j);
        assert(0 <= pair_index(data, j) < 65536);
    }
}

/// Each byte after the first is coded with the code built from the counts
/// of the bytes that followed the byte before it; the first byte with the
/// counts of the bytes that followed a zero byte.
pub proof fn lemma_code_follows_previous(f: Seq<u32>, data: Seq<u8>, j: int)
    requires
        0 <= j < data.len(),
    ensures
        j > 0 ==> code_at(f, data, j) == codes_spec(
            f.subrange(256 * (data[j - 1] as int), 256 * (data[j - 1] as int) + 256),
        )->Ok_0[data[j] as int],
        j == 0 ==> code_at(f, data, j) == codes_spec(f.subrange(0, 256))->Ok_0[data[j] as int],
{
}

} // verus!
