//! Stable ordering of indices by key.
//!
//! Both the pending queue and the channel pool are served in ascending order of
//! a key (declared processing time, outstanding load); entries with equal keys
//! keep the order in which they stood. This module computes that order as a
//! sequence of indices and proves what it is.

use vstd::prelude::*;
use vstd::seq_lib::*;

verus! {

/// Index `a` is served before index `b`: its key is smaller, or the keys are
/// equal and `a` stood first.
pub open spec fn comes_before(keys: Seq<int>, a: int, b: int) -> bool {
    keys[a] < keys[b] || (keys[a] == keys[b] && a < b)
}

/// Where an index with key `key` joins `order`: directly behind the last entry
/// whose key is not larger.
pub open spec fn slot(order: Seq<int>, keys: Seq<int>, key: int) -> int
    decreases order.len(),
{
    if order.len() == 0 {
        0
    } else if keys[order.last()] <= key {
        order.len() as int
    } else {
        slot(order.drop_last(), keys, key)
    }
}

/// The indices of `keys` in ascending order of key, equal keys in ascending
/// order of index.
pub open spec fn stable_order(keys: Seq<int>) -> Seq<int>
    decreases keys.len(),
{
    if keys.len() == 0 {
        Seq::empty()
    } else {
        let rest = stable_order(keys.drop_last());
        rest.insert(slot(rest, keys, keys.last()), keys.len() - 1)
    }
}

/// `items` read in the order that `order` gives.
pub open spec fn arrange<T>(items: Seq<T>, order: Seq<int>) -> Seq<T> {
    Seq::new(order.len(), |i: int| items[order[i]])
}

/// `order` lists every index of `keys` exactly once, ascending by key and,
/// among equal keys, by index.
pub open spec fn is_stable_order(order: Seq<int>, keys: Seq<int>) -> bool {
    &&& order.len() == keys.len()
    &&& forall|i: int| 0 <= i < order.len() ==> 0 <= #[trigger] order[i] < keys.len()
    &&& forall|i: int, j: int|
        0 <= i < j < order.len() ==> comes_before(keys, #[trigger] order[i], #[trigger] order[j])
    &&& forall|a: int| 0 <= a < keys.len() ==> #[trigger] order.contains(a)
}

/// `slot` lies inside `order`, every entry from it on has a larger key, and
/// the entry before it, if any, has not.
pub proof fn lemma_slot_splits(order: Seq<int>, keys: Seq<int>, key: int)
    ensures
        0 <= slot(order, keys, key) <= order.len(),
        forall|j: int|
            slot(order, keys, key) <= j < order.len() ==> keys[#[trigger] order[j]] > key,
        slot(order, keys, key) > 0 ==> keys[order[slot(order, keys, key) - 1]] <= key,
    decreases order.len(),
{
    if order.len() > 0 && keys[order.last()] > key {
        let front = order.drop_last();
        lemma_slot_splits(front, keys, key);
        assert forall|j: int| slot(order, keys, key) <= j < order.len() implies keys[#[trigger] order[j]]
            > key by {
            if j < front.len() {
                assert(order[j] == front[j]);
            }
        }
    }
}

/// `slot` reads `keys` only at the indices that `order` holds.
pub proof fn lemma_slot_reads_listed_keys(
    order: Seq<int>,
    keys: Seq<int>,
    n: int,
    key: int,
)
    requires
        0 <= n <= keys.len(),
        forall|i: int| 0 <= i < order.len() ==> 0 <= #[trigger] order[i] < n,
    ensures
        slot(order, keys.take(n), key) == slot(order, keys, key),
    decreases order.len(),
{
    if order.len() > 0 {
        assert(order.last() < n);
        lemma_slot_reads_listed_keys(order.drop_last(), keys, n, key);
    }
}

/// The order that `stable_order` gives is sorted by key, keeps entries with
/// equal keys in the order in which they stood, and holds every index exactly
/// once.
pub proof fn lemma_stable_order(keys: Seq<int>)
    ensures
        is_stable_order(stable_order(keys), keys),
    decreases keys.len(),
{
    if keys.len() > 0 {
        let shorter = keys.drop_last();
        let rest = stable_order(shorter);
        let last = keys.len() - 1;
        let at = slot(rest, keys, keys.last());
        let order = stable_order(keys);
        lemma_stable_order(shorter);
        lemma_slot_splits(rest, keys, keys.last());
        assert(order == rest.insert(at, last));
        assert forall|i: int, j: int| 0 <= i < j < order.len() implies comes_before(
            keys,
            #[trigger] order[i],
            #[trigger] order[j],
        ) by {
            if j < at {
                assert(comes_before(shorter, rest[i], rest[j]));
            } else if j == at {
                if i < at - 1 {
                    assert(comes_before(shorter, rest[i], rest[at - 1]));
                }
            } else if i < at {
                assert(comes_before(shorter, rest[i], rest[j - 1]));
            } else if i == at {
                assert(keys[rest[j - 1]] > keys.last());
            } else {
                assert(comes_before(shorter, rest[i - 1], rest[j - 1]));
            }
        }
        assert forall|a: int| 0 <= a < keys.len() implies #[trigger] order.contains(a) by {
            if a == last {
                assert(order[at] == a);
            } else {
                assert(rest.contains(a));
                let i = choose|i: int| 0 <= i < rest.len() && rest[i] == a;
                if i < at {
                    assert(order[i] == a);
                } else {
                    assert(order[i + 1] == a);
                }
            }
        }
    }
}

/// Two orders of the same keys that both pass `is_stable_order` agree on
/// their first `upto` entries.
proof fn lemma_orders_agree(first: Seq<int>, second: Seq<int>, keys: Seq<int>, upto: int)
    requires
        is_stable_order(first, keys),
        is_stable_order(second, keys),
        0 <= upto <= keys.len(),
    ensures
        forall|k: int| 0 <= k < upto ==> first[k] == second[k],
    decreases upto,
{
    if upto > 0 {
        let i = upto - 1;
        lemma_orders_agree(first, second, keys, i);
        assert(0 <= first[i] < keys.len() && 0 <= second[i] < keys.len());
        assert(second.contains(first[i]));
        assert(first.contains(second[i]));
        let p = choose|p: int| 0 <= p < second.len() && second[p] == first[i];
        let q = choose|q: int| 0 <= q < first.len() && first[q] == second[i];
        if p < i {
            assert(first[p] == second[p]);
            assert(comes_before(keys, first[p], first[i]));
        } else if q < i {
            assert(first[q] == second[q]);
            assert(comes_before(keys, second[q], second[i]));
        } else if p > i && q > i {
            assert(comes_before(keys, second[i], second[p]));
            assert(comes_before(keys, first[i], first[q]));
        } else if p > i {
            assert(comes_before(keys, second[i], second[p]));
        } else if q > i {
            assert(comes_before(keys, first[i], first[q]));
        }
    }
}

/// `stable_order` is the only order that passes `is_stable_order`.
pub proof fn lemma_stable_order_is_unique(order: Seq<int>, keys: Seq<int>)
    requires
        is_stable_order(order, keys),
    ensures
        order == stable_order(keys),
{
    lemma_stable_order(keys);
    lemma_orders_agree(order, stable_order(keys), keys, keys.len() as int);
    assert(order =~= stable_order(keys));
}

/// Reading `items` in stable order neither drops nor repeats an item.
pub proof fn lemma_arrange_keeps_items<T>(items: Seq<T>, keys: Seq<int>)
    requires
        items.len() == keys.len(),
    ensures
        arrange(items, stable_order(keys)).len() == items.len(),
        arrange(items, stable_order(keys)).to_multiset() == items.to_multiset(),
    decreases keys.len(),
{
    lemma_stable_order(keys);
    if keys.len() == 0 {
        assert(arrange(items, stable_order(keys)) =~= items);
    } else {
        let shorter = keys.drop_last();
        let rest = stable_order(shorter);
        let at = slot(rest, keys, keys.last());
        let fewer = items.drop_last();
        lemma_stable_order(shorter);
        lemma_slot_splits(rest, keys, keys.last());
        lemma_arrange_keeps_items(fewer, shorter);
        let moved = arrange(fewer, rest).insert(at, items.last());
        assert forall|i: int| 0 <= i < moved.len() implies moved[i] == arrange(
            items,
            stable_order(keys),
        )[i] by {
            if i < at {
                assert(0 <= rest[i] < shorter.len());
            } else if i > at {
                assert(0 <= rest[i - 1] < shorter.len());
            }
        }
        assert(arrange(items, stable_order(keys)) =~= moved);
        to_multiset_insert(arrange(fewer, rest), at, items.last());
        to_multiset_build(fewer, items.last());
        assert(fewer.push(items.last()) =~= items);
    }
}

/// The first index in stable order has the least key, and among the indices
/// with that key it is the smallest.
pub proof fn lemma_first_is_least(keys: Seq<int>, a: int)
    requires
        0 <= a < keys.len(),
    ensures
        0 <= stable_order(keys)[0] < keys.len(),
        a == stable_order(keys)[0] || comes_before(keys, stable_order(keys)[0], a),
{
    let order = stable_order(keys);
    lemma_stable_order(keys);
    assert(order.contains(a));
    let i = choose|i: int| 0 <= i < order.len() && order[i] == a;
    if i > 0 {
        assert(comes_before(keys, order[0], order[i]));
    }
}

/// Adding the same amount to every key moves no slot.
pub proof fn lemma_slot_shift(order: Seq<int>, keys: Seq<int>, key: int, by: int)
    requires
        forall|i: int| 0 <= i < order.len() ==> 0 <= #[trigger] order[i] < keys.len(),
    ensures
        slot(order, keys.map_values(|k: int| k + by), key + by) == slot(order, keys, key),
    decreases order.len(),
{
    if order.len() > 0 {
        assert(0 <= order.last() < keys.len());
        lemma_slot_shift(order.drop_last(), keys, key, by);
    }
}

/// Adding the same amount to every key leaves the stable order as it is.
pub proof fn lemma_stable_order_shift(keys: Seq<int>, by: int)
    ensures
        stable_order(keys.map_values(|k: int| k + by)) == stable_order(keys),
    decreases keys.len(),
{
    if keys.len() > 0 {
        let shifted = keys.map_values(|k: int| k + by);
        let shorter = keys.drop_last();
        lemma_stable_order_shift(shorter, by);
        lemma_stable_order(shorter);
        assert(shifted.drop_last() =~= shorter.map_values(|k: int| k + by));
        lemma_slot_shift(stable_order(shorter), keys, keys.last(), by);
    }
}

/// The entries of an index vector as mathematical integers.
pub open spec fn as_ints(indices: Seq<usize>) -> Seq<int> {
    indices.map_values(|i: usize| i as int)
}

/// The entries of a key vector as mathematical integers.
pub open spec fn key_ints(keys: Seq<u128>) -> Seq<int> {
    keys.map_values(|k: u128| k as int)
}

/// Computes the stable order of `keys`.
pub fn order_by_key(keys: &Vec<u128>) -> (order: Vec<usize>)
    ensures
        as_ints(order@) == stable_order(key_ints(keys@)),
        order@.len() == keys@.len(),
        forall|k: int| 0 <= k < order@.len() ==> (#[trigger] order@[k]) < keys@.len(),
{
    let ghost all = key_ints(keys@);
    let mut order: Vec<usize> = Vec::new();
    let mut i: usize = 0;
    while i < keys.len()
        invariant
            i <= keys.len(),
            all == key_ints(keys@),
            as_ints(order@) =~= stable_order(all.take(i as int)),
            order@.len() == i,
            forall|k: int| 0 <= k < order@.len() ==> (#[trigger] order@[k]) < i,
        decreases keys.len() - i,
    {
        let key = keys[i];
        let mut j: usize = order.len();
        let ghost listed = as_ints(order@);
        proof {
            assert(listed.take(j as int) =~= listed);
        }
        while j > 0 && keys[order[j - 1]] > key
            invariant
                j <= order@.len(),
                key == keys@[i as int],
                i < keys@.len(),
                all == key_ints(keys@),
                listed == as_ints(order@),
                forall|k: int| 0 <= k < order@.len() ==> (#[trigger] order@[k]) < i,
                slot(listed, all, key as int) == slot(listed.take(j as int), all, key as int),
            decreases j,
        {
            proof {
                assert(listed.take(j as int).drop_last() =~= listed.take(j - 1));
                assert(listed.take(j as int).last() == order@[j - 1] as int);
            }
            j -= 1;
        }
        proof {
            let grown = all.take(i + 1);
            assert(grown.drop_last() =~= all.take(i as int));
            assert(grown.last() == key as int);
            lemma_slot_reads_listed_keys(listed, all, i + 1, key as int);
            if j > 0 {
                assert(listed.take(j as int).last() == order@[j - 1] as int);
            }
            assert(slot(listed, grown, key as int) == j);
            assert(as_ints(order@.insert(j as int, i)) =~= listed.insert(j as int, i as int));
        }
        order.insert(j, i);
        i += 1;
    }
    proof {
        assert(all.take(all.len() as int) =~= all);
    }
    order
}

} // verus!
