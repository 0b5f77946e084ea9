//! Packet queues read in ascending order of a key.

use crate::order::{
    arrange, as_ints, comes_before, key_ints, lemma_arrange_keeps_items, lemma_first_is_least,
    lemma_stable_order, lemma_stable_order_shift, order_by_key, stable_order,
};
use crate::packet::Packet;
use std::collections::VecDeque;
use vstd::prelude::*;

verus! {

/// The declared processing time of each packet of `queue`.
pub open spec fn processing_times(queue: Seq<Packet>) -> Seq<int> {
    queue.map_values(|packet: Packet| packet.processing_time as int)
}

/// The arrival time of each packet of `queue`.
pub open spec fn arrival_times(queue: Seq<Packet>) -> Seq<int> {
    queue.map_values(|packet: Packet| packet.arrival_time as int)
}

/// The identity of each packet of `queue`.
pub open spec fn packet_ids(queue: Seq<Packet>) -> Seq<u32> {
    queue.map_values(|packet: Packet| packet.packet_id)
}

/// `queue` with the packets that are quickest to process first; packets of
/// equal processing time keep their order.
pub open spec fn shortest_first(queue: Seq<Packet>) -> Seq<Packet> {
    arrange(queue, stable_order(processing_times(queue)))
}

/// `queue` with the packets that arrived earliest first; packets of equal
/// arrival time keep their order.
pub open spec fn earliest_first(queue: Seq<Packet>) -> Seq<Packet> {
    arrange(queue, stable_order(arrival_times(queue)))
}

/// `shortest_first` holds the packets of `queue`, each as often as `queue`
/// does, in ascending order of processing time.
pub proof fn lemma_shortest_first(queue: Seq<Packet>)
    ensures
        shortest_first(queue).len() == queue.len(),
        shortest_first(queue).to_multiset() == queue.to_multiset(),
        packet_ids(shortest_first(queue)).to_multiset() == packet_ids(queue).to_multiset(),
        forall|i: int, j: int|
            0 <= i <= j < queue.len() ==> (#[trigger] shortest_first(queue)[i]).processing_time
                <= (#[trigger] shortest_first(queue)[j]).processing_time,
{
    let keys = processing_times(queue);
    let order = stable_order(keys);
    lemma_stable_order(keys);
    lemma_arrange_keeps_items(queue, keys);
    lemma_arrange_keeps_items(packet_ids(queue), keys);
    assert(packet_ids(shortest_first(queue)) =~= arrange(packet_ids(queue), order));
    assert forall|i: int, j: int| 0 <= i <= j < queue.len() implies (#[trigger] shortest_first(
        queue,
    )[i]).processing_time <= (#[trigger] shortest_first(queue)[j]).processing_time by {
        if i < j {
            assert(comes_before(keys, order[i], order[j]));
        }
    }
}

/// No packet of `queue` is quicker to process than the front of
/// `shortest_first`, and of those that are as quick it stood first.
pub proof fn lemma_shortest_first_front(queue: Seq<Packet>, a: int)
    requires
        0 <= a < queue.len(),
    ensures
        shortest_first(queue)[0].processing_time <= queue[a].processing_time,
        shortest_first(queue)[0] == queue[stable_order(processing_times(queue))[0]],
        shortest_first(queue)[0].processing_time == queue[a].processing_time ==> stable_order(
            processing_times(queue),
        )[0] <= a,
{
    lemma_stable_order(processing_times(queue));
    lemma_first_is_least(processing_times(queue), a);
}

/// `earliest_first` holds the packets of `queue`, each as often as `queue`
/// does, in ascending order of arrival time.
pub proof fn lemma_earliest_first(queue: Seq<Packet>)
    ensures
        earliest_first(queue).len() == queue.len(),
        earliest_first(queue).to_multiset() == queue.to_multiset(),
        packet_ids(earliest_first(queue)).to_multiset() == packet_ids(queue).to_multiset(),
        forall|i: int, j: int|
            0 <= i <= j < queue.len() ==> (#[trigger] earliest_first(queue)[i]).arrival_time
                <= (#[trigger] earliest_first(queue)[j]).arrival_time,
{
    let keys = arrival_times(queue);
    let order = stable_order(keys);
    lemma_stable_order(keys);
    lemma_arrange_keeps_items(queue, keys);
    lemma_arrange_keeps_items(packet_ids(queue), keys);
    assert(packet_ids(earliest_first(queue)) =~= arrange(packet_ids(queue), order));
    assert forall|i: int, j: int| 0 <= i <= j < queue.len() implies (#[trigger] earliest_first(
        queue,
    )[i]).arrival_time <= (#[trigger] earliest_first(queue)[j]).arrival_time by {
        if i < j {
            assert(comes_before(keys, order[i], order[j]));
        }
    }
}

/// Reads `queue` in the order that `order` gives.
pub fn arranged(queue: &VecDeque<Packet>, order: &Vec<usize>) -> (result: VecDeque<Packet>)
    requires
        forall|k: int| 0 <= k < order@.len() ==> (#[trigger] order@[k]) < queue@.len(),
    ensures
        result@ == arrange(queue@, as_ints(order@)),
{
    let mut result: VecDeque<Packet> = VecDeque::new();
    let mut k: usize = 0;
    while k < order.len()
        invariant
            k <= order@.len(),
            forall|k: int| 0 <= k < order@.len() ==> (#[trigger] order@[k]) < queue@.len(),
            result@ =~= arrange(queue@, as_ints(order@)).take(k as int),
        decreases order.len() - k,
    {
        let at = order[k];
        result.push_back(queue[at]);
        k += 1;
    }
    result
}

/// Sorts `queue` by declared processing time, shortest first, keeping the
/// order of packets whose processing times are equal.
pub fn sort_by_processing_time(queue: &VecDeque<Packet>) -> (sorted: VecDeque<Packet>)
    ensures
        sorted@ == shortest_first(queue@),
{
    let mut keys: Vec<u128> = Vec::new();
    let mut k: usize = 0;
    while k < queue.len()
        invariant
            k <= queue@.len(),
            key_ints(keys@) =~= processing_times(queue@).take(k as int),
        decreases queue.len() - k,
    {
        proof {
            let times = processing_times(queue@);
            assert(times.take(k + 1) =~= times.take(k as int).push(times[k as int]));
            assert(key_ints(keys@.push(queue@[k as int].processing_time as u128)) =~= key_ints(
                keys@,
            ).push(times[k as int]));
        }
        keys.push(queue[k].processing_time as u128);
        k += 1;
    }
    proof {
        let times = processing_times(queue@);
        assert(times.take(times.len() as int) =~= times);
    }
    let order = order_by_key(&keys);
    arranged(queue, &order)
}

/// Sorts `queue` by arrival time, earliest first, keeping the order of
/// packets that arrived at the same time.
pub fn sort_by_arrival_time(queue: &VecDeque<Packet>) -> (sorted: VecDeque<Packet>)
    ensures
        sorted@ == earliest_first(queue@),
{
    let ghost since_earliest = 0x8000_0000_0000_0000int;
    let mut keys: Vec<u128> = Vec::new();
    let mut k: usize = 0;
    while k < queue.len()
        invariant
            k <= queue@.len(),
            since_earliest == 0x8000_0000_0000_0000int,
            key_ints(keys@) =~= arrival_times(queue@).map_values(
                |t: int| t + since_earliest,
            ).take(k as int),
        decreases queue.len() - k,
    {
        let rank = (queue[k].arrival_time as i128 + 0x8000_0000_0000_0000i128) as u128;
        proof {
            let ranks = arrival_times(queue@).map_values(|t: int| t + since_earliest);
            assert(ranks.take(k + 1) =~= ranks.take(k as int).push(ranks[k as int]));
            assert(key_ints(keys@.push(rank)) =~= key_ints(keys@).push(ranks[k as int]));
        }
        keys.push(rank);
        k += 1;
    }
    proof {
        let ranks = arrival_times(queue@).map_values(|t: int| t + since_earliest);
        assert(ranks.take(ranks.len() as int) =~= ranks);
        lemma_stable_order_shift(arrival_times(queue@), since_earliest);
    }
    let order = order_by_key(&keys);
    arranged(queue, &order)
}

} // verus!
