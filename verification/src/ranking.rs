//! Ranking by size, largest first.
//!
//! The scanners rank positions of a list rather than the items themselves: the
//! ranking is a permutation of the positions, and the caller lays its items out
//! by it.

use vstd::prelude::*;
use vstd::multiset::Multiset;
use vstd::relations::{sorted_by, total_ordering};

verus! {

/// Position `a` may stand before position `b`: its key is larger, or the keys
/// are equal and `a` is not the later position.
pub open spec fn precedes(keys: Seq<u64>, a: int, b: int) -> bool {
    keys[a] > keys[b] || (keys[a] == keys[b] && a <= b)
}

/// `order` holds positions of `keys`, each before all that it may stand before:
/// keys never increase, and equal keys keep the order of their positions.
pub open spec fn ranked(keys: Seq<u64>, order: Seq<usize>) -> bool {
    &&& forall|k: int| 0 <= k < order.len() ==> (#[trigger] order[k]) < keys.len()
    &&& forall|a: int, b: int|
        0 <= a <= b < order.len() ==> precedes(keys, #[trigger] order[a] as int, #[trigger] order[b] as int)
}

/// The order of positions by which `keys` are ranked.
pub open spec fn by_rank(keys: Seq<u64>) -> spec_fn(usize, usize) -> bool {
    |a: usize, b: usize| precedes(keys, a as int, b as int)
}

/// The ranking of `keys`: the one permutation of their positions in which
/// each stands before all that it may stand before.
pub open spec fn ranking(keys: Seq<u64>) -> Seq<usize> {
    positions(0, keys.len() as int).sort_by(by_rank(keys))
}

/// The positions `lo`, `lo + 1`, ..., `hi - 1`.
pub open spec fn positions(lo: int, hi: int) -> Seq<usize> {
    Seq::new((hi - lo) as nat, |k: int| (lo + k) as usize)
}

/// A stretch of positions holds what its two halves hold.
proof fn lemma_positions_split(lo: int, mid: int, hi: int)
    requires
        0 <= lo <= mid <= hi,
    ensures
        positions(lo, hi).to_multiset() == positions(lo, mid).to_multiset().add(
            positions(mid, hi).to_multiset(),
        ),
{
    assert(positions(lo, hi) =~= positions(lo, mid) + positions(mid, hi));
    vstd::seq_lib::lemma_multiset_commutative(positions(lo, mid), positions(mid, hi));
}

/// The empty list holds nothing.
proof fn lemma_empty_multiset<A>()
    ensures
        Seq::<A>::empty().to_multiset() == Multiset::<A>::empty(),
{
    broadcast use vstd::multiset::group_multiset_axioms;

    vstd::seq_lib::to_multiset_len(Seq::<A>::empty());
    assert(Seq::<A>::empty().to_multiset() =~= Multiset::<A>::empty());
}

/// Merges two rankings of disjoint stretches of positions, the first stretch
/// lying before the second.
fn merge(keys: &Vec<u64>, left: &Vec<usize>, right: &Vec<usize>, Ghost(mid): Ghost<int>) -> (order:
    Vec<usize>)
    requires
        ranked(keys@, left@),
        ranked(keys@, right@),
        forall|k: int| 0 <= k < left@.len() ==> (#[trigger] left@[k]) < mid,
        forall|k: int| 0 <= k < right@.len() ==> (#[trigger] right@[k]) >= mid,
    ensures
        ranked(keys@, order@),
        order@.to_multiset() == left@.to_multiset().add(right@.to_multiset()),
{
    broadcast use vstd::multiset::group_multiset_axioms;

    let mut order: Vec<usize> = Vec::new();
    let mut i: usize = 0;
    let mut j: usize = 0;
    proof {
        assert(left@.take(0) =~= Seq::empty());
        assert(right@.take(0) =~= Seq::empty());
        assert(order@ =~= Seq::empty());
        lemma_empty_multiset::<usize>();
    }
    while i < left.len() || j < right.len()
        invariant
            i <= left@.len(),
            j <= right@.len(),
            ranked(keys@, left@),
            ranked(keys@, right@),
            forall|k: int| 0 <= k < left@.len() ==> (#[trigger] left@[k]) < mid,
            forall|k: int| 0 <= k < right@.len() ==> (#[trigger] right@[k]) >= mid,
            ranked(keys@, order@),
            order@.to_multiset() == left@.take(i as int).to_multiset().add(
                right@.take(j as int).to_multiset(),
            ),
            forall|k: int|
                0 <= k < order@.len() && i < left@.len() ==> precedes(
                    keys@,
                    #[trigger] order@[k] as int,
                    left@[i as int] as int,
                ),
            forall|k: int|
                0 <= k < order@.len() && j < right@.len() ==> precedes(
                    keys@,
                    #[trigger] order@[k] as int,
                    right@[j as int] as int,
                ),
        decreases left@.len() - i + right@.len() - j,
    {
        let take_left: bool = if j >= right.len() {
            true
        } else if i >= left.len() {
            false
        } else {
            keys[left[i]] >= keys[right[j]]
        };
        let ghost before = order@;
        if take_left {
            let x: usize = left[i];
            order.push(x);
            proof {
                assert(left@.take(i + 1) =~= left@.take(i as int).push(x));
                assert(order@ =~= before.push(x));
                vstd::seq_lib::to_multiset_build(before, x);
                vstd::seq_lib::to_multiset_build(left@.take(i as int), x);
                assert(order@.to_multiset() =~= left@.take(i + 1).to_multiset().add(
                    right@.take(j as int).to_multiset(),
                ));
                assert forall|a: int, b: int| 0 <= a <= b < order@.len() implies precedes(
                    keys@,
                    #[trigger] order@[a] as int,
                    #[trigger] order@[b] as int,
                ) by {
                    if b < before.len() {
                        assert(order@[a] == before[a] && order@[b] == before[b]);
                    } else if a < before.len() {
                        assert(order@[a] == before[a]);
                    }
                }
                if i + 1 < left@.len() {
                    assert(precedes(keys@, left@[i as int] as int, left@[i + 1] as int));
                }
            }
            i += 1;
        } else {
            let x: usize = right[j];
            order.push(x);
            proof {
                assert(right@.take(j + 1) =~= right@.take(j as int).push(x));
                assert(order@ =~= before.push(x));
                vstd::seq_lib::to_multiset_build(before, x);
                vstd::seq_lib::to_multiset_build(right@.take(j as int), x);
                assert(order@.to_multiset() =~= left@.take(i as int).to_multiset().add(
                    right@.take(j + 1).to_multiset(),
                ));
                assert forall|a: int, b: int| 0 <= a <= b < order@.len() implies precedes(
                    keys@,
                    #[trigger] order@[a] as int,
                    #[trigger] order@[b] as int,
                ) by {
                    if b < before.len() {
                        assert(order@[a] == before[a] && order@[b] == before[b]);
                    } else if a < before.len() {
                        assert(order@[a] == before[a]);
                    }
                }
                if j + 1 < right@.len() {
                    assert(precedes(keys@, right@[j as int] as int, right@[j + 1] as int));
                }
            }
            j += 1;
        }
    }
    assert(left@.take(i as int) =~= left@);
    assert(right@.take(j as int) =~= right@);
    order
}

/// Ranks the positions `lo..hi` of `keys`.
fn rank_range(keys: &Vec<u64>, lo: usize, hi: usize) -> (order: Vec<usize>)
    requires
        lo <= hi <= keys@.len(),
    ensures
        ranked(keys@, order@),
        order@.to_multiset() == positions(lo as int, hi as int).to_multiset(),
        forall|k: int| 0 <= k < order@.len() ==> lo <= (#[trigger] order@[k]) < hi,
    decreases hi - lo,
{
    broadcast use vstd::seq_lib::group_to_multiset_ensures;

    let mut order: Vec<usize> = Vec::new();
    if hi - lo == 0 {
        assert(positions(lo as int, hi as int) =~= Seq::empty());
        return order;
    }
    if hi - lo == 1 {
        order.push(lo);
        assert(positions(lo as int, hi as int) =~= Seq::<usize>::empty().push(lo));
        return order;
    }
    let mid: usize = lo + (hi - lo) / 2;
    let left = rank_range(keys, lo, mid);
    let right = rank_range(keys, mid, hi);
    let order = merge(keys, &left, &right, Ghost(mid as int));
    proof {
        lemma_positions_split(lo as int, mid as int, hi as int);
        assert forall|k: int| 0 <= k < order@.len() implies lo <= (#[trigger] order@[k]) < hi by {
            let x = order@[k];
            assert(order@.to_multiset().count(x) > 0);
            if left@.to_multiset().count(x) > 0 {
                let w = choose|w: int| 0 <= w < left@.len() && left@[w] == x;
            } else {
                assert(right@.to_multiset().count(x) > 0);
                let w = choose|w: int| 0 <= w < right@.len() && right@[w] == x;
            }
        }
    }
    order
}

/// The ranking is a ranked permutation of the positions.
pub proof fn lemma_ranking_is_ranked(keys: Seq<u64>)
    requires
        keys.len() <= usize::MAX,
    ensures
        ranked(keys, ranking(keys)),
        ranking(keys).to_multiset() == positions(0, keys.len() as int).to_multiset(),
        ranking(keys).len() == keys.len(),
        ranking(keys).no_duplicates(),
{
    let rank = by_rank(keys);
    assert(total_ordering(rank)) by {
        assert(vstd::relations::reflexive(rank));
        assert(vstd::relations::antisymmetric(rank));
        assert(vstd::relations::transitive(rank));
        assert(vstd::relations::strongly_connected(rank));
    }
    positions(0, keys.len() as int).lemma_sort_by_ensures(rank);
    lemma_permutation_is_injective(ranking(keys), keys.len());
    assert forall|a: int, b: int| 0 <= a <= b < ranking(keys).len() implies precedes(
        keys,
        #[trigger] ranking(keys)[a] as int,
        #[trigger] ranking(keys)[b] as int,
    ) by {
        if a < b {
            assert(rank(ranking(keys)[a], ranking(keys)[b]));
        }
    }
}

/// There is one ranking only: a ranked permutation of the positions of `keys`
/// is their ranking.
pub proof fn lemma_ranking_is_unique(keys: Seq<u64>, order: Seq<usize>)
    requires
        ranked(keys, order),
        order.to_multiset() == positions(0, keys.len() as int).to_multiset(),
    ensures
        order == ranking(keys),
{
    let rank = by_rank(keys);
    assert(total_ordering(rank)) by {
        assert(vstd::relations::reflexive(rank));
        assert(vstd::relations::antisymmetric(rank));
        assert(vstd::relations::transitive(rank));
        assert(vstd::relations::strongly_connected(rank));
    }
    positions(0, keys.len() as int).lemma_sort_by_ensures(rank);
    assert(sorted_by(order, rank)) by {
        assert forall|i: int, j: int| 0 <= i < j < order.len() implies #[trigger] rank(
            order[i],
            order[j],
        ) by {
            assert(precedes(keys, order[i] as int, order[j] as int));
        }
    }
    vstd::seq_lib::lemma_sorted_unique(order, ranking(keys), rank);
}

/// Ranks all positions of `keys`: the result is the permutation of the
/// positions in which keys never increase and equal keys keep their order.
pub fn descending_order(keys: &Vec<u64>) -> (order: Vec<usize>)
    ensures
        order@ == ranking(keys@),
        ranked(keys@, order@),
        order@.to_multiset() == positions(0, keys@.len() as int).to_multiset(),
{
    let order = rank_range(keys, 0, keys.len());
    proof {
        lemma_ranking_is_unique(keys@, order@);
    }
    order
}

/// A permutation of the positions below `n` names no position twice.
pub proof fn lemma_permutation_is_injective(order: Seq<usize>, n: nat)
    requires
        n <= usize::MAX,
        order.to_multiset() == positions(0, n as int).to_multiset(),
    ensures
        order.no_duplicates(),
        order.len() == n,
        forall|k: int| 0 <= k < order.len() ==> (#[trigger] order[k]) < n,
{
    let all = positions(0, n as int);
    assert(all.no_duplicates());
    all.lemma_multiset_has_no_duplicates();
    order.lemma_multiset_has_no_duplicates_conv();
    vstd::seq_lib::to_multiset_len(order);
    vstd::seq_lib::to_multiset_len(all);
    assert forall|k: int| 0 <= k < order.len() implies (#[trigger] order[k]) < n by {
        vstd::seq_lib::to_multiset_contains(order, order[k]);
        vstd::seq_lib::to_multiset_contains(all, order[k]);
        assert(order.contains(order[k]));
        let w = choose|w: int| 0 <= w < all.len() && all[w] == order[k];
    }
}

/// The items of `items` laid out by `order`.
pub open spec fn arranged<A>(items: Seq<A>, order: Seq<usize>) -> Seq<A> {
    Seq::new(order.len(), |k: int| items[order[k] as int])
}

/// Two lists with the same elements still have the same elements after one
/// function has been applied to every element of both.
pub proof fn lemma_map_keeps_multiset<A, B>(first: Seq<A>, second: Seq<A>, f: spec_fn(A) -> B)
    requires
        first.to_multiset() == second.to_multiset(),
    ensures
        first.map_values(f).to_multiset() == second.map_values(f).to_multiset(),
    decreases first.len(),
{
    broadcast use vstd::multiset::group_multiset_axioms;

    vstd::seq_lib::to_multiset_len(first);
    vstd::seq_lib::to_multiset_len(second);
    if first.len() == 0 {
        assert(first.map_values(f) =~= second.map_values(f));
    } else {
        let x = first.last();
        let rest = first.drop_last();
        assert(first =~= rest.push(x));
        vstd::seq_lib::to_multiset_build(rest, x);
        vstd::seq_lib::to_multiset_contains(second, x);
        assert(second.to_multiset().count(x) > 0);
        let k = choose|k: int| 0 <= k < second.len() && second[k] == x;
        let other = second.remove(k);
        vstd::seq_lib::to_multiset_remove(second, k);
        assert(rest.to_multiset() =~= other.to_multiset());
        lemma_map_keeps_multiset(rest, other, f);
        assert(first.map_values(f) =~= rest.map_values(f).push(f(x)));
        vstd::seq_lib::to_multiset_build(rest.map_values(f), f(x));
        assert(second.map_values(f).remove(k) =~= other.map_values(f));
        vstd::seq_lib::to_multiset_remove(second.map_values(f), k);
        vstd::seq_lib::to_multiset_contains(second.map_values(f), f(x));
        assert(second.map_values(f)[k] == f(x));
        assert(second.map_values(f).contains(f(x)));
        assert(second.map_values(f).to_multiset() =~= other.map_values(f).to_multiset().insert(
            f(x),
        ));
    }
}

/// Laying items out by a permutation of their positions neither loses nor adds
/// an item.
pub proof fn lemma_arranged_keeps_items<A>(items: Seq<A>, order: Seq<usize>)
    requires
        items.len() <= usize::MAX,
        order.to_multiset() == positions(0, items.len() as int).to_multiset(),
    ensures
        arranged(items, order).to_multiset() == items.to_multiset(),
{
    let pick = |p: usize| items[p as int];
    lemma_map_keeps_multiset(order, positions(0, items.len() as int), pick);
    vstd::seq_lib::to_multiset_len(order);
    vstd::seq_lib::to_multiset_len(positions(0, items.len() as int));
    assert(order.map_values(pick) =~= arranged(items, order));
    assert(positions(0, items.len() as int).map_values(pick) =~= items);
}

} // verus!
