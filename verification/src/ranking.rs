//! Ranking (byte, weight) pairs: the heaviest first with ties to the lower
//! byte, and ordering by byte.
use vstd::prelude::*;

verus! {

/// `a` ranks before `b`: heavier, or as heavy with a lower byte.
pub open spec fn ranks_before(a: (u8, u32), b: (u8, u32)) -> bool {
    a.1 > b.1 || (a.1 == b.1 && a.0 < b.0)
}

/// The position of the best-ranked pair (the first one on a tie).
pub open spec fn best_index(l: Seq<(u8, u32)>) -> int
    decreases l.len(),
{
    if l.len() <= 1 {
        0
    } else {
        let p = best_index(l.drop_last());
        if ranks_before(l.last(), l[p]) {
            l.len() - 1
        } else {
            p
        }
    }
}

/// The best-ranked entry of a non-empty list is one of its entries.
pub proof fn lemma_best_index(l: Seq<(u8, u32)>)
    requires
        l.len() >= 1,
    ensures
        0 <= best_index(l) < l.len(),
    decreases l.len(),
{
    if l.len() > 1 {
        lemma_best_index(l.drop_last());
    }
}

/// No pair ranks before the best-ranked one.
pub proof fn lemma_best_is_best(l: Seq<(u8, u32)>)
    requires
        l.len() >= 1,
    ensures
        forall|i: int| 0 <= i < l.len() ==> !ranks_before(#[trigger] l[i], l[best_index(l)]),
    decreases l.len(),
{
    lemma_best_index(l);
    if l.len() > 1 {
        let d = l.drop_last();
        lemma_best_is_best(d);
        lemma_best_index(d);
        assert forall|i: int| 0 <= i < l.len() implies !ranks_before(#[trigger] l[i], l[best_index(l)]) by {
            if i < l.len() - 1 {
                assert(l[i] == d[i]);
            }
        }
    }
}

/// The `k` best-ranked pairs, best first.
pub open spec fn top_k(l: Seq<(u8, u32)>, k: int) -> Seq<(u8, u32)>
    decreases l.len(),
{
    if k <= 0 || l.len() == 0 {
        Seq::empty()
    } else {
        let b = best_index(l);
        proof {
            lemma_best_index(l);
        }
        seq![l[b]] + top_k(l.remove(b), k - 1)
    }
}

/// The position of the pair with the lowest byte (the first one on a tie).
pub open spec fn lowest_index(l: Seq<(u8, u32)>) -> int
    decreases l.len(),
{
    if l.len() <= 1 {
        0
    } else {
        let p = lowest_index(l.drop_last());
        if l.last().0 < l[p].0 {
            l.len() - 1
        } else {
            p
        }
    }
}

/// The lowest byte's entry of a non-empty list is one of its entries.
pub proof fn lemma_lowest_index(l: Seq<(u8, u32)>)
    requires
        l.len() >= 1,
    ensures
        0 <= lowest_index(l) < l.len(),
    decreases l.len(),
{
    if l.len() > 1 {
        lemma_lowest_index(l.drop_last());
    }
}

/// The pairs ordered by byte.
pub open spec fn by_symbol(l: Seq<(u8, u32)>) -> Seq<(u8, u32)>
    decreases l.len(),
{
    if l.len() == 0 {
        Seq::empty()
    } else {
        let m = lowest_index(l);
        proof {
            lemma_lowest_index(l);
        }
        seq![l[m]] + by_symbol(l.remove(m))
    }
}

/// The total weight of the pairs.
pub open spec fn pair_sum(l: Seq<(u8, u32)>) -> int
    decreases l.len(),
{
    if l.len() == 0 {
        0
    } else {
        pair_sum(l.drop_last()) + l.last().1
    }
}

/// Removing an entry takes its weight off the total.
pub proof fn lemma_pair_sum_remove(l: Seq<(u8, u32)>, i: int)
    requires
        0 <= i < l.len(),
    ensures
        pair_sum(l.remove(i)) == pair_sum(l) - l[i].1,
    decreases l.len(),
{
    if i == l.len() - 1 {
        assert(l.remove(i) =~= l.drop_last());
    } else {
        lemma_pair_sum_remove(l.drop_last(), i);
        assert(l.remove(i).drop_last() =~= l.drop_last().remove(i));
        assert(l.remove(i).last() == l.last());
    }
}

/// Putting an entry first adds its weight to the total.
pub proof fn lemma_pair_sum_prepend(x: (u8, u32), l: Seq<(u8, u32)>)
    ensures
        pair_sum(seq![x] + l) == x.1 + pair_sum(l),
    decreases l.len(),
{
    if l.len() == 0 {
        assert(seq![x] + l =~= seq![x]);
        assert(seq![x].drop_last() =~= Seq::<(u8, u32)>::empty());
        assert(seq![x].last() == x);
        assert(pair_sum(Seq::<(u8, u32)>::empty()) == 0);
    } else {
        lemma_pair_sum_prepend(x, l.drop_last());
        assert((seq![x] + l).drop_last() =~= seq![x] + l.drop_last());
        assert((seq![x] + l).last() == l.last());
    }
}

/// A list's total is never negative.
pub proof fn lemma_pair_sum_nonneg(l: Seq<(u8, u32)>)
    ensures
        pair_sum(l) >= 0,
    decreases l.len(),
{
    if l.len() > 0 {
        lemma_pair_sum_nonneg(l.drop_last());
    }
}

/// Selecting keeps a part of the pairs: no more weight, each weight one of
/// theirs, and no more than `k` of them.
pub proof fn lemma_top_k(l: Seq<(u8, u32)>, k: int)
    ensures
        pair_sum(top_k(l, k)) <= pair_sum(l),
        top_k(l, k).len() <= l.len(),
        k >= 0 ==> top_k(l, k).len() <= k,
        forall|i: int| 0 <= i < top_k(l, k).len() ==> exists|j: int| 0 <= j < l.len() && #[trigger] top_k(l, k)[i] == l[j],
    decreases l.len(),
{
    lemma_pair_sum_nonneg(l);
    if k > 0 && l.len() > 0 {
        let b = best_index(l);
        lemma_best_index(l);
        let rest = l.remove(b);
        lemma_top_k(rest, k - 1);
        lemma_pair_sum_remove(l, b);
        lemma_pair_sum_prepend(l[b], top_k(rest, k - 1));
        assert forall|i: int| 0 <= i < top_k(l, k).len() implies exists|j: int| 0 <= j < l.len() && #[trigger] top_k(l, k)[i] == l[j] by {
            if i == 0 {
                assert(top_k(l, k)[0] == l[b]);
            } else {
                assert(top_k(l, k)[i] == top_k(rest, k - 1)[i - 1]);
                let j = choose|j: int| 0 <= j < rest.len() && #[trigger] top_k(rest, k - 1)[i - 1] == rest[j];
                if j < b {
                    assert(rest[j] == l[j]);
                } else {
                    assert(rest[j] == l[j + 1]);
                }
            }
        }
    } else {
        assert(top_k(l, k) =~= Seq::<(u8, u32)>::empty());
    }
}

/// Ordering by byte keeps the pairs and their total.
pub proof fn lemma_by_symbol(l: Seq<(u8, u32)>)
    ensures
        pair_sum(by_symbol(l)) == pair_sum(l),
        by_symbol(l).len() == l.len(),
        forall|i: int| 0 <= i < by_symbol(l).len() ==> exists|j: int| 0 <= j < l.len() && #[trigger] by_symbol(l)[i] == l[j],
    decreases l.len(),
{
    if l.len() > 0 {
        let m = lowest_index(l);
        lemma_lowest_index(l);
        let rest = l.remove(m);
        lemma_by_symbol(rest);
        lemma_pair_sum_remove(l, m);
        lemma_pair_sum_prepend(l[m], by_symbol(rest));
        assert forall|i: int| 0 <= i < by_symbol(l).len() implies exists|j: int| 0 <= j < l.len() && #[trigger] by_symbol(l)[i] == l[j] by {
            if i == 0 {
                assert(by_symbol(l)[0] == l[m]);
            } else {
                assert(by_symbol(l)[i] == by_symbol(rest)[i - 1]);
                let j = choose|j: int| 0 <= j < rest.len() && #[trigger] by_symbol(rest)[i - 1] == rest[j];
                if j < m {
                    assert(rest[j] == l[j]);
                } else {
                    assert(rest[j] == l[j + 1]);
                }
            }
        }
    } else {
        assert(by_symbol(l) =~= Seq::<(u8, u32)>::empty());
    }
}

fn best_of(l: &Vec<(u8, u32)>) -> (b: usize)
    requires
        l@.len() >= 1,
    ensures
        b == best_index(l@),
        b < l@.len(),
{
    proof {
        lemma_best_index(l@);
    }
    let mut best: usize = 0;
    let mut j: usize = 1;
    while j < l.len()
        invariant
            1 <= j <= l@.len(),
            best == best_index(l@.take(j as int)),
            best < j,
        decreases l@.len() - j,
    {
        proof {
            assert(l@.take(j as int + 1).drop_last() =~= l@.take(j as int));
            lemma_best_index(l@.take(j as int));
        }
        let a = l[j];
        let c = l[best];
        if a.1 > c.1 || (a.1 == c.1 && a.0 < c.0) {
            best = j;
        }
        j = j + 1;
    }
    assert(l@.take(l@.len() as int) =~= l@);
    best
}

fn lowest_of(l: &Vec<(u8, u32)>) -> (m: usize)
    requires
        l@.len() >= 1,
    ensures
        m == lowest_index(l@),
        m < l@.len(),
{
    proof {
        lemma_lowest_index(l@);
    }
    let mut low: usize = 0;
    let mut j: usize = 1;
    while j < l.len()
        invariant
            1 <= j <= l@.len(),
            low == lowest_index(l@.take(j as int)),
            low < j,
        decreases l@.len() - j,
    {
        proof {
            assert(l@.take(j as int + 1).drop_last() =~= l@.take(j as int));
            lemma_lowest_index(l@.take(j as int));
        }
        if l[j].0 < l[low].0 {
            low = j;
        }
        j = j + 1;
    }
    assert(l@.take(l@.len() as int) =~= l@);
    low
}

/// The `limit` best-ranked pairs, best first.
pub fn select_top(list: Vec<(u8, u32)>, limit: usize) -> (r: Vec<(u8, u32)>)
    ensures
        r@ == top_k(list@, limit as int),
{
    let mut rest = list;
    let mut out: Vec<(u8, u32)> = Vec::new();
    let mut k = limit;
    while k > 0 && rest.len() > 0
        invariant
            out@ + top_k(rest@, k as int) == top_k(list@, limit as int),
        decreases k,
    {
        let b = best_of(&rest);
        let ghost r0 = rest@;
        let x = rest.remove(b);
        let ghost before = out@;
        out.push(x);
        assert(top_k(r0, k as int) == seq![x] + top_k(rest@, k - 1));
        assert(out@ + top_k(rest@, k - 1) =~= before + top_k(r0, k as int));
        k = k - 1;
    }
    proof {
        assert(top_k(rest@, k as int) =~= Seq::<(u8, u32)>::empty());
    }
    assert(out@ =~= top_k(list@, limit as int));
    out
}

/// The pairs ordered by byte.
pub fn sort_by_symbol(list: Vec<(u8, u32)>) -> (r: Vec<(u8, u32)>)
    ensures
        r@ == by_symbol(list@),
{
    let mut rest = list;
    let mut out: Vec<(u8, u32)> = Vec::new();
    while rest.len() > 0
        invariant
            out@ + by_symbol(rest@) == by_symbol(list@),
        decreases rest@.len(),
    {
        let m = lowest_of(&rest);
        let ghost r0 = rest@;
        let x = rest.remove(m);
        let ghost before = out@;
        out.push(x);
        assert(by_symbol(r0) == seq![x] + by_symbol(rest@));
        assert(out@ + by_symbol(rest@) =~= before + by_symbol(r0));
    }
    assert(by_symbol(rest@) =~= Seq::<(u8, u32)>::empty());
    assert(out@ =~= by_symbol(list@));
    out
}

} // verus!
