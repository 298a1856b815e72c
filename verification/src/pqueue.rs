//! The ordered ready-set container: a min-heap of `(key, index)` pairs from
//! the `binary_heap_plus` crate, used with its `MinComparator` so that `pop`
//! yields the least pair in the `Ord` order of integer tuples. The heap's
//! contents are modelled as a multiset of pairs; the engines keep a ghost
//! sequence whose multiset mirrors it.

use vstd::multiset::Multiset;
use vstd::prelude::*;

use crate::model::{pair_le, Process};

verus! {

#[verifier::external_type_specification]
#[verifier::external_body]
#[verifier::reject_recursive_types(T)]
#[verifier::reject_recursive_types(C)]
pub struct ExBinaryHeap<T, C>(binary_heap_plus::BinaryHeap<T, C>);

#[verifier::external_type_specification]
#[verifier::external_body]
pub struct ExMinComparator(binary_heap_plus::MinComparator);

/// A min-heap of `(key, workload index)` pairs.
pub type PairHeap = binary_heap_plus::BinaryHeap<(u64, u64), binary_heap_plus::MinComparator>;

/// What the heap holds, as a multiset of pairs.
pub uninterp spec fn heap_model(h: PairHeap) -> Multiset<(u64, u64)>;

/// Relies on `binary_heap_plus::BinaryHeap::new_min`, which builds an empty
/// min-heap over the item type's `Ord` order.
#[verifier::external_body]
pub(crate) fn heap_new() -> (h: PairHeap)
    ensures
        heap_model(h) == Multiset::<(u64, u64)>::empty(),
{
    binary_heap_plus::BinaryHeap::new_min()
}

/// Relies on `binary_heap_plus::BinaryHeap::push`: the item joins the
/// heap's contents.
#[verifier::external_body]
pub(crate) fn heap_push(h: &mut PairHeap, item: (u64, u64))
    ensures
        heap_model(*final(h)) == heap_model(*old(h)).insert(item),
{
    h.push(item)
}

/// Relies on `binary_heap_plus::BinaryHeap::len`: the number of items held.
#[verifier::external_body]
pub(crate) fn heap_len(h: &PairHeap) -> (n: usize)
    ensures
        n == heap_model(*h).len(),
{
    h.len()
}

/// Relies on `binary_heap_plus::BinaryHeap::pop` on a min-heap: it removes
/// and returns a least item of the contents (for pairs of integers, least
/// in the lexicographic `Ord` order), or `None` when the heap is empty.
#[verifier::external_body]
pub(crate) fn heap_pop(h: &mut PairHeap) -> (r: Option<(u64, u64)>)
    ensures
        heap_model(*old(h)).len() == 0 ==> r is None && heap_model(*final(h)) == heap_model(
            *old(h),
        ),
        heap_model(*old(h)).len() > 0 ==> match r {
            Some(m) => heap_model(*old(h)).contains(m) && heap_model(*final(h)) == heap_model(
                *old(h),
            ).remove(m) && forall|x: (u64, u64)|
                heap_model(*old(h)).contains(x) ==> pair_le(m, x),
            None => false,
        },
{
    h.pop()
}

/// Relies on `binary_heap_plus::BinaryHeap::peek`: it returns the item
/// `pop` would return, without removing it.
#[verifier::external_body]
pub(crate) fn heap_peek(h: &PairHeap) -> (r: Option<(u64, u64)>)
    ensures
        heap_model(*h).len() == 0 ==> r is None,
        heap_model(*h).len() > 0 ==> match r {
            Some(m) => heap_model(*h).contains(m) && forall|x: (u64, u64)|
                heap_model(*h).contains(x) ==> pair_le(m, x),
            None => false,
        },
{
    h.peek().copied()
}

/// The arrival pairs `(arrival, index)` of the whole workload, in index order.
pub open spec fn arrival_pairs(w: Seq<Process>) -> Seq<(u64, u64)> {
    Seq::new(w.len(), |i: int| (w[i].arrival, i as u64))
}

/// A heap holding the arrival pairs of the not-yet-admitted suffix `k..`
/// hands out `(w[k].arrival, k)` first: with the workload sorted by arrival,
/// that pair is least among the suffix in the `(arrival, index)` order.
pub proof fn lemma_next_arrival_min(w: Seq<Process>, k: int, m: (u64, u64))
    requires
        crate::model::wl_sorted(w),
        w.len() <= u64::MAX,
        0 <= k < w.len(),
        arrival_pairs(w).skip(k).to_multiset().contains(m),
        forall|x: (u64, u64)| arrival_pairs(w).skip(k).to_multiset().contains(x) ==> pair_le(m, x),
    ensures
        m == (w[k].arrival, k as u64),
{
    let s = arrival_pairs(w).skip(k);
    broadcast use vstd::seq_lib::group_to_multiset_ensures;

    assert(s.contains(m));
    let j = choose|j: int| 0 <= j < s.len() && s[j] == m;
    assert(s[j] == (w[k + j].arrival, (k + j) as u64));
    assert(s[0] == (w[k].arrival, k as u64));
    assert(s.contains(s[0]));
    assert(s.to_multiset().contains(s[0]));
    assert(pair_le(m, (w[k].arrival, k as u64)));
    assert(w[k].arrival <= w[k + j].arrival);
}

/// Removing the least pair from the pending suffix leaves the next suffix.
pub proof fn lemma_skip_shift(s: Seq<(u64, u64)>, k: int)
    requires
        0 <= k < s.len(),
    ensures
        s.skip(k).to_multiset().remove(s[k]) =~= s.skip(k + 1).to_multiset(),
        s.skip(k).to_multiset().len() == s.len() - k,
{
    broadcast use vstd::seq_lib::group_to_multiset_ensures;

    assert(s.skip(k).remove(0) =~= s.skip(k + 1));
    assert(s.skip(k)[0] == s[k]);
    assert(s.skip(k).remove(0).to_multiset() =~= s.skip(k).to_multiset().remove(s.skip(k)[0]));
}

/// A popped least pair of a ghost pair sequence's multiset is the pair at
/// `min_pos`: the least pair is unique because `pair_le` is antisymmetric.
pub proof fn lemma_pop_is_min_pos(q: Seq<(u64, u64)>, m: (u64, u64))
    requires
        q.len() > 0,
        q.to_multiset().contains(m),
        forall|x: (u64, u64)| q.to_multiset().contains(x) ==> pair_le(m, x),
    ensures
        m == q[crate::model::min_pos(q)],
        q.to_multiset().remove(m) =~= q.remove(crate::model::min_pos(q)).to_multiset(),
{
    broadcast use vstd::seq_lib::group_to_multiset_ensures;

    crate::model::lemma_min_pos_in_range(q);
    let p = crate::model::min_pos(q);
    assert(q.contains(q[p]));
    assert(q.to_multiset().contains(q[p]));
    assert(pair_le(m, q[p]));
    assert(q.contains(m));
    let j = choose|j: int| 0 <= j < q.len() && q[j] == m;
    assert(pair_le(q[p], q[j]));
    assert(q.remove(p).to_multiset() =~= q.to_multiset().remove(q[p]));
}

} // verus!
