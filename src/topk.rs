//! Bounded top-k selection over scored candidates.
//!
//! The selector keeps at most `k` candidates in a vector sorted from the best
//! score to the worst, so the worst retained candidate is always the last
//! one and is the one evicted when a better candidate arrives. Partial
//! selections over disjoint slices of a candidate stream are combined with
//! the same bounded-insert rule.
use crate::score::{rank_of, ScoredIndex};
use vstd::multiset::Multiset;
use vstd::prelude::*;

verus! {

broadcast use vstd::seq_lib::group_to_multiset_ensures;

/// Candidates are ordered from the best score to the worst.
pub open spec fn sorted_desc(s: Seq<ScoredIndex>) -> bool {
    forall|i: int, j: int| 0 <= i < j < s.len() ==> s[i].key() >= s[j].key()
}

pub open spec fn min_nat(a: nat, b: nat) -> nat {
    if a <= b {
        a
    } else {
        b
    }
}

/// `r` is a selection of the `k` best candidates of `c`, best first: it
/// holds `min(k, |c|)` of the candidates of `c` (counted with multiplicity),
/// and no candidate left out ranks above the worst one kept.
pub open spec fn is_top_k(r: Seq<ScoredIndex>, c: Seq<ScoredIndex>, k: nat) -> bool {
    &&& r.len() == min_nat(k, c.len())
    &&& sorted_desc(r)
    &&& r.to_multiset().subset_of(c.to_multiset())
    &&& r.len() > 0 ==> forall|x: ScoredIndex|
        #[trigger] c.to_multiset().count(x) > r.to_multiset().count(x) ==> x.key() <= r.last().key()
}

proof fn lemma_insert_to_multiset(s: Seq<ScoredIndex>, i: int, x: ScoredIndex)
    requires
        0 <= i <= s.len(),
    ensures
        s.insert(i, x).to_multiset() =~= s.to_multiset().insert(x),
{
    let t = s.insert(i, x);
    assert(t.remove(i) =~= s);
    assert(t[i] == x);
    assert(t.contains(x));
    assert(t.to_multiset().count(x) > 0);
    assert(t.remove(i).to_multiset() =~= t.to_multiset().remove(x));
}

proof fn lemma_pop_to_multiset(s: Seq<ScoredIndex>)
    requires
        s.len() > 0,
    ensures
        s.drop_last().to_multiset().insert(s.last()) =~= s.to_multiset(),
{
    assert(s.drop_last().push(s.last()) =~= s);
}

/// Places `item` after every candidate that ranks at least as high.
fn insert_sorted(heap: &mut Vec<ScoredIndex>, item: ScoredIndex)
    requires
        sorted_desc(old(heap)@),
    ensures
        sorted_desc(final(heap)@),
        final(heap)@.to_multiset() =~= old(heap)@.to_multiset().insert(item),
        final(heap)@.len() == old(heap)@.len() + 1,
        final(heap)@.last().key() == item.key() || (old(heap)@.len() > 0
            && final(heap)@.last() == old(heap)@.last()),
{
    let key = rank_of(item.score);
    let mut p: usize = heap.len();
    loop
        invariant
            0 <= p <= heap.len(),
            heap@ == old(heap)@,
            sorted_desc(heap@),
            key as int == item.key(),
            forall|j: int| p <= j < heap.len() ==> #[trigger] heap@[j].key() < item.key(),
        ensures
            0 <= p <= heap.len(),
            heap@ == old(heap)@,
            forall|j: int| p <= j < heap.len() ==> #[trigger] heap@[j].key() < item.key(),
            p == 0 || heap@[p - 1].key() >= item.key(),
        decreases p,
    {
        if p == 0 {
            break;
        }
        if rank_of(heap[p - 1].score) >= key {
            break;
        }
        p = p - 1;
    }
    proof {
        lemma_insert_to_multiset(heap@, p as int, item);
    }
    let ghost before = heap@;
    heap.insert(p, item);
    proof {
        let f = heap@;
        assert(f =~= before.insert(p as int, item));
        assert forall|i: int, j: int| 0 <= i < j < f.len() implies f[i].key() >= f[j].key() by {
            if j < p {
                assert(f[i] == before[i] && f[j] == before[j]);
            } else if j == p {
                assert(f[i] == before[i]);
                assert(before[i].key() >= before[p - 1].key());
            } else if i == p {
                assert(f[j] == before[j - 1]);
            } else if i < p {
                assert(f[i] == before[i] && f[j] == before[j - 1]);
            } else {
                assert(f[i] == before[i - 1] && f[j] == before[j - 1]);
            }
        }
    }
}

proof fn lemma_member_key(s: Seq<ScoredIndex>, y: ScoredIndex)
    requires
        sorted_desc(s),
        s.to_multiset().count(y) > 0,
    ensures
        y.key() >= s.last().key(),
{
    assert(s.contains(y));
    let j = choose|j: int| 0 <= j < s.len() && s[j] == y;
    if j < s.len() - 1 {
        assert(s[j].key() >= s[s.len() - 1].key());
    }
}

/// A full selection `rp` drawn from `u` cannot have its worst candidate
/// rank above the worst one of a `k`-selection `r` of `u`.
proof fn lemma_full_part_last(rp: Seq<ScoredIndex>, u: Seq<ScoredIndex>, r: Seq<ScoredIndex>, k: nat)
    requires
        sorted_desc(rp),
        rp.len() == k,
        k > 0,
        rp.to_multiset().subset_of(u.to_multiset()),
        is_top_k(r, u, k),
        r.len() > 0,
    ensures
        rp.last().key() <= r.last().key(),
{
    let rpm = rp.to_multiset();
    let rm = r.to_multiset();
    let um = u.to_multiset();
    if rp.last().key() > r.last().key() {
        assert forall|y: ScoredIndex| #[trigger] rpm.count(y) <= rm.count(y) by {
            if rpm.count(y) > 0 {
                lemma_member_key(rp, y);
                if um.count(y) > rm.count(y) {
                    assert(y.key() <= r.last().key());
                }
            }
        }
        assert(rpm.subset_of(rm));
        let z = r.last();
        assert(r.contains(z)) by {
            assert(r[r.len() - 1] == z);
        }
        assert(rm.count(z) > 0);
        if rpm.count(z) > 0 {
            lemma_member_key(rp, z);
        }
        assert(rm.sub(rpm).count(z) > 0);
        assert(rm.sub(rpm).len() == rm.len() - rpm.len());
        assert(rm.sub(rpm).count(z) <= rm.sub(rpm).len());
        assert(rm.len() == r.len() && rpm.len() == rp.len());
    }
}

/// A selection with room to spare holds every candidate.
proof fn lemma_partial_is_complete(rp: Seq<ScoredIndex>, p: Seq<ScoredIndex>, k: nat, x: ScoredIndex)
    requires
        is_top_k(rp, p, k),
        rp.len() < k,
    ensures
        p.to_multiset().count(x) <= rp.to_multiset().count(x),
{
    let pm = p.to_multiset();
    let rpm = rp.to_multiset();
    assert(pm.sub(rpm).len() == pm.len() - rpm.len());
    assert(pm.len() == p.len() && rpm.len() == rp.len());
    assert(pm.sub(rpm).count(x) <= pm.sub(rpm).len());
}

/// Selecting the `k` best of two partial selections, each the `k` best of
/// its own part of a candidate stream, selects the `k` best of the whole
/// stream: splitting the work into partitions does not change the result
/// (up to candidates of equal rank).
pub proof fn lemma_merge_partitions(
    a: Seq<ScoredIndex>,
    b: Seq<ScoredIndex>,
    ra: Seq<ScoredIndex>,
    rb: Seq<ScoredIndex>,
    r: Seq<ScoredIndex>,
    k: nat,
)
    requires
        is_top_k(ra, a, k),
        is_top_k(rb, b, k),
        is_top_k(r, ra + rb, k),
    ensures
        is_top_k(r, a + b, k),
{
    vstd::seq_lib::lemma_multiset_commutative(a, b);
    vstd::seq_lib::lemma_multiset_commutative(ra, rb);
    let am = a.to_multiset();
    let bm = b.to_multiset();
    let ram = ra.to_multiset();
    let rbm = rb.to_multiset();
    let rm = r.to_multiset();
    let um = (ra + rb).to_multiset();
    let wm = (a + b).to_multiset();
    assert forall|x: ScoredIndex| #[trigger] rm.count(x) <= wm.count(x) by {
        assert(rm.count(x) <= um.count(x));
    }
    assert(rm.subset_of(wm));
    if r.len() > 0 {
        assert forall|x: ScoredIndex| #[trigger] wm.count(x) > rm.count(x) implies x.key() <= r.last().key() by {
            if um.count(x) <= rm.count(x) {
                if am.count(x) > ram.count(x) {
                    if ra.len() < k {
                        lemma_partial_is_complete(ra, a, k, x);
                    }
                    assert forall|y: ScoredIndex| #[trigger] ram.count(y) <= um.count(y) by {}
                    lemma_full_part_last(ra, ra + rb, r, k);
                } else {
                    assert(bm.count(x) > rbm.count(x));
                    if rb.len() < k {
                        lemma_partial_is_complete(rb, b, k, x);
                    }
                    assert forall|y: ScoredIndex| #[trigger] rbm.count(y) <= um.count(y) by {}
                    lemma_full_part_last(rb, ra + rb, r, k);
                }
            }
        }
    }
}

/// Offers `item` to a selection that keeps at most `k` candidates.
///
/// While the selection has room the item joins it. Once it holds `k`
/// candidates, the item replaces the worst one only if it ranks strictly
/// higher. The candidate that leaves (or the item itself, when it is not
/// kept) is returned.
pub fn bounded_insert(heap: &mut Vec<ScoredIndex>, item: ScoredIndex, k: usize) -> (evicted:
    Option<ScoredIndex>)
    requires
        old(heap)@.len() <= k,
        sorted_desc(old(heap)@),
    ensures
        sorted_desc(final(heap)@),
        final(heap)@.len() == min_nat(k as nat, old(heap)@.len() + 1),
        evicted is None <==> old(heap)@.len() < k,
        evicted is None ==> final(heap)@.to_multiset() =~= old(heap)@.to_multiset().insert(item),
        evicted matches Some(e) ==> {
            &&& final(heap)@.to_multiset().insert(e) =~= old(heap)@.to_multiset().insert(item)
            &&& forall|j: int| 0 <= j < final(heap)@.len() ==> e.key() <= #[trigger] final(heap)@[j].key()
            &&& (old(heap)@.len() > 0 ==> e.key() <= old(heap)@.last().key())
            &&& (final(heap)@.len() > 0 ==> final(heap)@.last().key() >= old(heap)@.last().key())
        },
{
    if heap.len() == k {
        if k == 0 {
            return Some(item);
        }
        let last = heap[k - 1];
        if rank_of(item.score) <= rank_of(last.score) {
            return Some(item);
        }
        let ghost before = heap@;
        heap.pop();
        proof {
            lemma_pop_to_multiset(before);
            assert(heap@ =~= before.drop_last());
        }
        insert_sorted(heap, item);
        proof {
            let f = heap@;
            assert forall|j: int| 0 <= j < f.len() implies last.key() <= #[trigger] f[j].key() by {
                assert(f.to_multiset().count(f[j]) > 0);
                if f[j] != item {
                    assert(before.drop_last().to_multiset().count(f[j]) > 0);
                    assert(before.drop_last().contains(f[j]));
                    let jj = choose|jj: int| 0 <= jj < before.len() - 1 && before[jj] == f[j];
                    assert(before[jj] == f[j]);
                }
            }
        }
        Some(last)
    } else {
        insert_sorted(heap, item);
        None
    }
}

/// Offers every candidate of `cands` to `heap`, in order.
fn offer_all(heap: &mut Vec<ScoredIndex>, cands: &Vec<ScoredIndex>, k: usize)
    requires
        old(heap)@.len() <= k,
        sorted_desc(old(heap)@),
    ensures
        is_top_k(final(heap)@, old(heap)@ + cands@, k as nat),
{
    let ghost start = heap@;
    let ghost mut dropped: Multiset<ScoredIndex> = Multiset::empty();
    let mut i: usize = 0;
    while i < cands.len()
        invariant
            0 <= i <= cands.len(),
            start.len() <= k,
            heap@.len() <= k,
            heap@.len() == min_nat(k as nat, (start.len() + i) as nat),
            sorted_desc(heap@),
            heap@.to_multiset().add(dropped) =~= (start + cands@.take(i as int)).to_multiset(),
            forall|x: ScoredIndex| #[trigger] dropped.count(x) > 0 ==> heap@.len() == 0 || x.key() <= heap@.last().key(),
            heap@.len() < k ==> dropped.len() == 0,
        decreases cands.len() - i,
    {
        let item = cands[i];
        let ghost prev = heap@;
        let ghost prev_dropped = dropped;
        assert((start + cands@.take(i + 1)) =~= (start + cands@.take(i as int)).push(item));
        let evicted = bounded_insert(heap, item, k);
        proof {
            match evicted {
                None => {
                    assert forall|x: ScoredIndex| #[trigger] dropped.count(x) > 0 implies heap@.len() == 0 || x.key() <= heap@.last().key() by {
                        assert(dropped.count(x) <= dropped.len());
                    }
                },
                Some(e) => {
                    dropped = dropped.insert(e);
                    assert forall|x: ScoredIndex| #[trigger] dropped.count(x) > 0 implies heap@.len() == 0 || x.key() <= heap@.last().key() by {
                        if x == e {
                            if heap@.len() > 0 {
                                assert(e.key() <= heap@[heap@.len() - 1].key());
                            }
                        } else {
                            assert(prev_dropped.count(x) > 0);
                        }
                    }
                    assert(heap@.to_multiset().add(dropped) =~= heap@.to_multiset().insert(e).add(prev_dropped));
                },
            }
            assert((start + cands@.take(i as int)).push(item).to_multiset() =~= (start + cands@.take(i as int)).to_multiset().insert(item));
            assert(heap@.to_multiset().add(dropped) =~= (start + cands@.take(i + 1)).to_multiset());
        }
        i = i + 1;
    }
    assert(cands@.take(i as int) =~= cands@);
    let ghost c = start + cands@;
    assert(heap@.len() > 0 ==> forall|x: ScoredIndex| #[trigger] c.to_multiset().count(x) > heap@.to_multiset().count(x) ==> x.key() <= heap@.last().key()) by {
        assert forall|x: ScoredIndex| heap@.len() > 0 && #[trigger] c.to_multiset().count(x) > heap@.to_multiset().count(x) implies x.key() <= heap@.last().key() by {
            assert(dropped.count(x) > 0);
        }
    }
}

/// Selects the `k` best candidates of `cands`, best first.
pub fn select_top_k(cands: &Vec<ScoredIndex>, k: usize) -> (r: Vec<ScoredIndex>)
    ensures
        is_top_k(r@, cands@, k as nat),
{
    let mut heap: Vec<ScoredIndex> = Vec::new();
    offer_all(&mut heap, cands, k);
    proof {
        assert(Seq::<ScoredIndex>::empty() + cands@ =~= cands@);
    }
    heap
}

/// Combines two partial selections bounded by `k`: every candidate of `other`
/// is offered to `into` with the bounded-insert rule.
pub fn merge_top_k(into: Vec<ScoredIndex>, other: &Vec<ScoredIndex>, k: usize) -> (r: Vec<
    ScoredIndex,
>)
    requires
        into@.len() <= k,
        sorted_desc(into@),
    ensures
        is_top_k(r@, into@ + other@, k as nat),
{
    let mut heap = into;
    offer_all(&mut heap, other, k);
    heap
}

} // verus!
