//! The dispatcher: which channel is preferred, what one attempt to distribute
//! a packet does, and how a packet that waited too long is resent.

use crate::clock::now_millis;
use crate::gateway::{DistributeStatus, Gateway, GatewayState, CHANNEL_COUNT};
use crate::order::{
    as_ints, comes_before, key_ints, lemma_stable_order, order_by_key, stable_order,
};
use crate::packet::Packet;
use crate::queue::{
    lemma_shortest_first, lemma_shortest_first_front, processing_times, shortest_first,
    sort_by_processing_time,
};
use vstd::prelude::*;

verus! {

/// The first channel of `order` whose queue has room left.
pub open spec fn first_with_room(
    order: Seq<int>,
    channels: Seq<Seq<Packet>>,
    capacity: nat,
) -> Option<int>
    decreases order.len(),
{
    if order.len() == 0 {
        None
    } else if channels[order[0]].len() < capacity {
        Some(order[0])
    } else {
        first_with_room(order.drop_first(), channels, capacity)
    }
}

impl GatewayState {
    /// The channels in ascending order of outstanding load; channels of equal
    /// load in ascending order of index.
    pub open spec fn channel_order(self) -> Seq<int> {
        stable_order(self.loads())
    }

    /// The channel that receives the next packet, if any has room.
    pub open spec fn preferred_channel(self) -> Option<int> {
        first_with_room(self.channel_order(), self.channels, self.channel_capacity)
    }

    /// What an attempt to distribute a packet at time `now` reports.
    pub open spec fn outcome(self, now: int) -> DistributeStatus {
        if self.pending.len() == 0 {
            DistributeStatus::EmptyQueue
        } else if self.timed_out(self.pending[0], now) {
            DistributeStatus::Timeout
        } else {
            match self.preferred_channel() {
                Some(c) => DistributeStatus::Success(c as usize),
                None => DistributeStatus::AllChannelsFull,
            }
        }
    }

    /// The gateway after an attempt to distribute a packet at time `now`.
    ///
    /// An empty pending queue or a timeout leaves everything as it is.
    /// Otherwise the pending queue is put in order of processing time; if a
    /// channel has room, the new front moves to the back of the preferred
    /// channel.
    pub open spec fn after_distribute(self, now: int) -> GatewayState {
        match self.outcome(now) {
            DistributeStatus::EmptyQueue => self,
            DistributeStatus::Timeout => self,
            DistributeStatus::AllChannelsFull => GatewayState {
                pending: shortest_first(self.pending),
                ..self
            },
            DistributeStatus::Success(c) => GatewayState {
                pending: shortest_first(self.pending).drop_first(),
                channels: self.channels.update(
                    c as int,
                    self.channels[c as int].push(shortest_first(self.pending)[0]),
                ),
                ..self
            },
        }
    }

    /// The gateway after the packet at the front of the pending queue has
    /// been resent at time `now`: it stands at the back with `now` as its
    /// arrival time.
    pub open spec fn after_resend(self, now: i64) -> GatewayState {
        GatewayState {
            pending: self.pending.drop_first().push(self.pending[0].arrived_at(now)),
            ..self
        }
    }
}

/// `first_with_room` gives the earliest entry of `order` whose channel has
/// room, and none exactly when every entry's channel is full.
pub proof fn lemma_first_with_room(order: Seq<int>, channels: Seq<Seq<Packet>>, capacity: nat)
    ensures
        match first_with_room(order, channels, capacity) {
            Some(c) => exists|k: int|
                0 <= k < order.len() && #[trigger] order[k] == c && channels[c].len() < capacity
                    && forall|j: int| 0 <= j < k ==> channels[#[trigger] order[j]].len() >= capacity,
            None => forall|j: int|
                0 <= j < order.len() ==> channels[#[trigger] order[j]].len() >= capacity,
        },
    decreases order.len(),
{
    if order.len() > 0 && channels[order[0]].len() >= capacity {
        let rest = order.drop_first();
        lemma_first_with_room(rest, channels, capacity);
        match first_with_room(rest, channels, capacity) {
            Some(c) => {
                let k = choose|k: int|
                    0 <= k < rest.len() && #[trigger] rest[k] == c && channels[c].len() < capacity
                        && forall|j: int|
                        0 <= j < k ==> channels[#[trigger] rest[j]].len() >= capacity;
                assert forall|j: int| 0 <= j < k + 1 implies channels[#[trigger] order[j]].len()
                    >= capacity by {
                    if j > 0 {
                        assert(order[j] == rest[j - 1]);
                    }
                }
                assert(order[k + 1] == c);
            },
            None => {
                assert forall|j: int| 0 <= j < order.len() implies channels[#[trigger] order[j]].len()
                    >= capacity by {
                    if j > 0 {
                        assert(order[j] == rest[j - 1]);
                    }
                }
            },
        }
    } else if order.len() > 0 {
        assert(order[0] == order[0]);
    }
}

/// The preferred channel has room, and no channel with room has a smaller
/// load, nor the same load and a smaller index. There is none exactly when
/// every channel is full.
pub proof fn lemma_preferred_channel(state: GatewayState)
    ensures
        match state.preferred_channel() {
            Some(c) => {
                &&& 0 <= c < state.channels.len()
                &&& !state.channel_is_full(c)
                &&& forall|d: int|
                    0 <= d < state.channels.len() && !#[trigger] state.channel_is_full(d)
                        ==> state.loads()[c] < state.loads()[d] || (state.loads()[c]
                        == state.loads()[d] && c <= d)
            },
            None => forall|d: int|
                0 <= d < state.channels.len() ==> #[trigger] state.channel_is_full(d),
        },
{
    let loads = state.loads();
    let order = state.channel_order();
    lemma_stable_order(loads);
    lemma_first_with_room(order, state.channels, state.channel_capacity);
    match state.preferred_channel() {
        Some(c) => {
            let k = choose|k: int|
                0 <= k < order.len() && #[trigger] order[k] == c && state.channels[c].len()
                    < state.channel_capacity && forall|j: int|
                    0 <= j < k ==> state.channels[#[trigger] order[j]].len()
                        >= state.channel_capacity;
            assert forall|d: int|
                0 <= d < state.channels.len() && !#[trigger] state.channel_is_full(
                    d,
                ) implies loads[c] < loads[d] || (loads[c] == loads[d] && c <= d) by {
                assert(order.contains(d));
                let j = choose|j: int| 0 <= j < order.len() && order[j] == d;
                if k < j {
                    assert(comes_before(loads, order[k], order[j]));
                }
            }
        },
        None => {
            assert forall|d: int| 0 <= d < state.channels.len() implies #[trigger] state.channel_is_full(
                d,
            ) by {
                assert(order.contains(d));
                let j = choose|j: int| 0 <= j < order.len() && order[j] == d;
                assert(state.channels[order[j]].len() >= state.channel_capacity);
            }
        },
    }
}

/// A success is greedy on both sides: the packet that moves is the first of
/// the pending packets with the least declared processing time, and the
/// channel that receives it is the first of the channels with room that has
/// the least load. It comes exactly when a packet is pending, the front has
/// not timed out and some channel has room.
pub proof fn lemma_success_is_greedy(state: GatewayState, now: int)
    requires
        state.wf(),
    ensures
        state.outcome(now) matches DistributeStatus::Success(c) ==> {
            let from = stable_order(processing_times(state.pending))[0];
            let moved = state.pending[from];
            &&& 0 <= from < state.pending.len()
            &&& 0 <= c < state.channels.len()
            &&& !state.channel_is_full(c as int)
            &&& state.after_distribute(now).channels[c as int].last() == moved
            &&& forall|a: int|
                0 <= a < state.pending.len() ==> moved.processing_time < (
                #[trigger] state.pending[a]).processing_time || (moved.processing_time
                    == state.pending[a].processing_time && from <= a)
            &&& forall|d: int|
                0 <= d < state.channels.len() && !#[trigger] state.channel_is_full(d)
                    ==> state.loads()[c as int] < state.loads()[d] || (state.loads()[c as int]
                    == state.loads()[d] && c <= d)
        },
        state.outcome(now) is Success <==> state.pending.len() > 0 && !state.timed_out(
            state.pending[0],
            now,
        ) && exists|d: int| 0 <= d < state.channels.len() && !#[trigger] state.channel_is_full(d),
{
    lemma_preferred_channel(state);
    lemma_shortest_first(state.pending);
    match state.outcome(now) {
        DistributeStatus::Success(c) => {
            let keys = processing_times(state.pending);
            let from = stable_order(keys)[0];
            let moved = state.pending[from];
            let preferred = state.preferred_channel()->Some_0;
            assert(c as int == preferred);
            lemma_shortest_first_front(state.pending, 0);
            assert(0 <= from < state.pending.len()) by {
                lemma_stable_order(keys);
            }
            assert(shortest_first(state.pending)[0] == moved);
            assert forall|a: int| 0 <= a < state.pending.len() implies moved.processing_time < (
            #[trigger] state.pending[a]).processing_time || (moved.processing_time
                == state.pending[a].processing_time && from <= a) by {
                lemma_shortest_first_front(state.pending, a);
            }
            assert(state.after_distribute(now).channels[c as int] == state.channels[c as int].push(
                moved,
            ));
        },
        _ => {},
    }
}

impl Gateway {
    /// The channel indices in ascending order of outstanding load, channels
    /// of equal load in ascending order of index.
    pub fn channels_by_load(&self) -> (order: Vec<usize>)
        ensures
            as_ints(order@) == self@.channel_order(),
            order@.len() == CHANNEL_COUNT,
            forall|k: int| 0 <= k < order@.len() ==> (#[trigger] order@[k]) < CHANNEL_COUNT,
    {
        let mut loads: Vec<u128> = Vec::new();
        let mut i: usize = 0;
        while i < CHANNEL_COUNT
            invariant
                i <= CHANNEL_COUNT,
                key_ints(loads@) =~= self@.loads().take(i as int),
            decreases CHANNEL_COUNT - i,
        {
            let load = self.channel_load(i);
            proof {
                let all = self@.loads();
                assert(all.take(i + 1) =~= all.take(i as int).push(all[i as int]));
                assert(key_ints(loads@.push(load)) =~= key_ints(loads@).push(load as int));
            }
            loads.push(load);
            i += 1;
        }
        proof {
            let all = self@.loads();
            assert(all.take(all.len() as int) =~= all);
        }
        order_by_key(&loads)
    }

    /// Tries to move one packet from the pending queue into a channel, with
    /// `now` as the current time.
    ///
    /// Reports `EmptyQueue` if nothing is pending and `Timeout` if the packet
    /// at the front has waited longer than the threshold; neither changes the
    /// gateway. Otherwise the pending queue is sorted by processing time,
    /// shortest first, and its new front goes to the back of the channel with
    /// the least load that has room; if none has, the report is
    /// `AllChannelsFull` and no packet moves.
    pub fn distribute_one_packet_at(&mut self, now: i64) -> (status: DistributeStatus)
        ensures
            status == old(self)@.outcome(now as int),
            final(self)@ == old(self)@.after_distribute(now as int),
            old(self).wf() ==> final(self).wf(),
    {
        if self.is_pending_queue_empty() {
            return DistributeStatus::EmptyQueue;
        }
        let front = self.pending_queue[0];
        if self.is_timeout_at(&front, now) {
            return DistributeStatus::Timeout;
        }
        let sorted = sort_by_processing_time(&self.pending_queue);
        self.pending_queue = sorted;
        proof {
            assert(self@.channels =~~= old(self)@.channels);
            lemma_shortest_first(old(self)@.pending);
        }
        let order = self.channels_by_load();
        let ghost listed = as_ints(order@);
        let ghost channels = old(self)@.channels;
        let ghost capacity = old(self)@.channel_capacity;
        let mut k: usize = 0;
        proof {
            assert(listed.skip(0) =~= listed);
        }
        while k < order.len()
            invariant
                k <= order@.len(),
                listed == as_ints(order@),
                listed == old(self)@.channel_order(),
                channels == old(self)@.channels,
                capacity == old(self)@.channel_capacity,
                forall|k: int| 0 <= k < order@.len() ==> (#[trigger] order@[k]) < CHANNEL_COUNT,
                first_with_room(listed, channels, capacity) == first_with_room(
                    listed.skip(k as int),
                    channels,
                    capacity,
                ),
                self@ == (GatewayState {
                    pending: shortest_first(old(self)@.pending),
                    ..old(self)@
                }),
                self@.pending.len() == old(self)@.pending.len(),
                old(self)@.outcome(now as int) != DistributeStatus::EmptyQueue,
                old(self)@.outcome(now as int) != DistributeStatus::Timeout,
            decreases order.len() - k,
        {
            let c = order[k];
            proof {
                assert(listed.skip(k as int)[0] == c as int);
                assert(listed.skip(k as int).drop_first() =~= listed.skip(k + 1));
            }
            if !self.is_channel_queue_full(c) {
                let moved = self.pending_queue.pop_front();
                let packet = moved.unwrap();
                self.channel_queues[c].push_back(packet);
                proof {
                    let before = old(self)@;
                    let after = before.after_distribute(now as int);
                    assert(before.preferred_channel() == Some(c as int));
                    assert(self@.pending =~= after.pending);
                    assert(self@.channels =~~= after.channels);
                    if before.wf() {
                        assert forall|d: int| 0 <= d < self@.channels.len() implies (
                        #[trigger] self@.channels[d]).len() <= self@.channel_capacity by {
                            assert(before.channels[d].len() <= before.channel_capacity);
                        }
                    }
                }
                return DistributeStatus::Success(c);
            }
            k += 1;
        }
        proof {
            assert(listed.skip(k as int).len() == 0);
        }
        DistributeStatus::AllChannelsFull
    }

    /// Tries to move one packet from the pending queue into a channel. The
    /// result is that of `distribute_one_packet_at` for the time the clock
    /// gave.
    pub fn distribute_one_packet(&mut self) -> (status: DistributeStatus)
        ensures
            exists|now: i64|
                status == old(self)@.outcome(now as int) && final(self)@ == old(
                    self,
                )@.after_distribute(now as int),
            old(self)@.pending.len() == 0 <==> status == DistributeStatus::EmptyQueue,
            old(self).wf() ==> final(self).wf(),
    {
        let now = now_millis();
        self.distribute_one_packet_at(now)
    }

    /// Takes the packet at the front of the pending queue, sets its arrival
    /// time to `now` and puts it at the back of the queue.
    pub fn resend_packet_at(&mut self, now: i64)
        requires
            old(self)@.pending.len() > 0,
        ensures
            final(self)@ == old(self)@.after_resend(now),
            old(self).wf() ==> final(self).wf(),
    {
        let taken = self.pending_queue.pop_front();
        let mut packet = taken.unwrap();
        packet.restamp(now);
        self.pending_queue.push_back(packet);
        proof {
            assert(self@.pending =~= old(self)@.after_resend(now).pending);
            assert(self@.channels =~~= old(self)@.channels);
        }
    }

    /// Resends the packet at the front of the pending queue with the time the
    /// clock gives as its new arrival time.
    pub fn resend_packet(&mut self)
        requires
            old(self)@.pending.len() > 0,
        ensures
            exists|now: i64| final(self)@ == old(self)@.after_resend(now),
            old(self).wf() ==> final(self).wf(),
    {
        let now = now_millis();
        self.resend_packet_at(now);
    }
}

} // verus!
