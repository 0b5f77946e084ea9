//! Which packets the gateway holds: distributing and resending neither lose
//! nor repeat a packet, and a packet is never in two queues at once.

use crate::dispatch::lemma_preferred_channel;
use crate::gateway::{DistributeStatus, GatewayState};
use crate::lifecycle::WorkerAction;
use crate::packet::Packet;
use crate::queue::{lemma_shortest_first, packet_ids, shortest_first};
use vstd::multiset::Multiset;
use vstd::prelude::*;
use vstd::seq_lib::{to_multiset_build, to_multiset_remove};

verus! {

/// The identities of the packets of `queue`, each as often as it occurs.
pub open spec fn ids(queue: Seq<Packet>) -> Multiset<u32> {
    packet_ids(queue).to_multiset()
}

/// The identities of the packets of all `channels` together.
pub open spec fn ids_in_channels(channels: Seq<Seq<Packet>>) -> Multiset<u32>
    decreases channels.len(),
{
    if channels.len() == 0 {
        Multiset::empty()
    } else {
        ids_in_channels(channels.drop_last()).add(ids(channels.last()))
    }
}

impl GatewayState {
    /// The identities of all packets that the gateway holds, pending or in a
    /// channel.
    pub open spec fn held_ids(self) -> Multiset<u32> {
        ids(self.pending).add(ids_in_channels(self.channels))
    }

    /// No identity is held twice.
    pub open spec fn ids_are_distinct(self) -> bool {
        forall|id: u32| self.held_ids().count(id) <= 1
    }
}

/// A packet put at the back of a queue adds its identity once.
pub proof fn lemma_ids_push(queue: Seq<Packet>, packet: Packet)
    ensures
        ids(queue.push(packet)) == ids(queue).insert(packet.packet_id),
{
    assert(packet_ids(queue.push(packet)) =~= packet_ids(queue).push(packet.packet_id));
    to_multiset_build(packet_ids(queue), packet.packet_id);
}

/// A packet taken from the front of a queue takes its identity away once.
pub proof fn lemma_ids_drop_first(queue: Seq<Packet>)
    requires
        queue.len() > 0,
    ensures
        ids(queue).count(queue[0].packet_id) > 0,
        ids(queue.drop_first()) == ids(queue).remove(queue[0].packet_id),
{
    assert(packet_ids(queue.drop_first()) =~= packet_ids(queue).remove(0));
    to_multiset_remove(packet_ids(queue), 0);
    packet_ids(queue).to_multiset_ensures();
    assert(packet_ids(queue).contains(packet_ids(queue)[0]));
}

/// Replacing the queue of one channel changes the identities in the channels
/// by what that queue lost and gained.
pub proof fn lemma_ids_channel_update(channels: Seq<Seq<Packet>>, c: int, queue: Seq<Packet>)
    requires
        0 <= c < channels.len(),
    ensures
        ids_in_channels(channels.update(c, queue)).add(ids(channels[c])) == ids_in_channels(
            channels,
        ).add(ids(queue)),
    decreases channels.len(),
{
    broadcast use vstd::multiset::group_multiset_axioms;

    let updated = channels.update(c, queue);
    let fewer = channels.drop_last();
    assert(ids_in_channels(updated) == ids_in_channels(updated.drop_last()).add(
        ids(updated.last()),
    ));
    assert(ids_in_channels(channels) == ids_in_channels(fewer).add(ids(channels.last())));
    if c == channels.len() - 1 {
        assert(updated.drop_last() =~= fewer);
        assert(updated.last() == queue);
    } else {
        lemma_ids_channel_update(fewer, c, queue);
        assert(updated.drop_last() =~= fewer.update(c, queue));
        assert(updated.last() == channels.last());
        assert(fewer[c] == channels[c]);
    }
    assert forall|id: u32|
        ids_in_channels(updated).add(ids(channels[c])).count(id) == ids_in_channels(channels).add(
            ids(queue),
        ).count(id) by {
        if c < channels.len() - 1 {
            assert(ids_in_channels(fewer.update(c, queue)).add(ids(fewer[c])).count(id)
                == ids_in_channels(fewer).add(ids(queue)).count(id));
        }
    }
    assert(ids_in_channels(updated).add(ids(channels[c])) =~= ids_in_channels(channels).add(
        ids(queue),
    ));
}

/// The identities in two different channels are counted apart in the
/// identities of all channels.
pub proof fn lemma_ids_of_two_channels(channels: Seq<Seq<Packet>>, c: int, d: int, id: u32)
    requires
        0 <= c < d < channels.len(),
    ensures
        ids(channels[c]).count(id) + ids(channels[d]).count(id) <= ids_in_channels(channels).count(
            id,
        ),
    decreases channels.len(),
{
    if d == channels.len() - 1 {
        lemma_ids_of_one_channel(channels.drop_last(), c, id);
    } else {
        lemma_ids_of_two_channels(channels.drop_last(), c, d, id);
    }
}

/// The identities in one channel are among the identities of all channels.
pub proof fn lemma_ids_of_one_channel(channels: Seq<Seq<Packet>>, c: int, id: u32)
    requires
        0 <= c < channels.len(),
    ensures
        ids(channels[c]).count(id) <= ids_in_channels(channels).count(id),
    decreases channels.len(),
{
    if c < channels.len() - 1 {
        lemma_ids_of_one_channel(channels.drop_last(), c, id);
    }
}

/// An attempt to distribute a packet neither loses nor repeats one: the
/// gateway holds the same identities after it as before. When it succeeds,
/// the packet that the channel gained is the one that the pending queue lost.
pub proof fn lemma_distribute_keeps_packets(state: GatewayState, now: int)
    ensures
        state.after_distribute(now).held_ids() == state.held_ids(),
        state.ids_are_distinct() ==> state.after_distribute(now).ids_are_distinct(),
        state.outcome(now) matches DistributeStatus::Success(c) ==> {
            let moved = shortest_first(state.pending)[0];
            let after = state.after_distribute(now);
            &&& ids(after.pending) == ids(state.pending).remove(moved.packet_id)
            &&& ids(after.channels[c as int]) == ids(state.channels[c as int]).insert(
                moved.packet_id,
            )
            &&& after.pending.len() == state.pending.len() - 1
            &&& after.channels[c as int].len() == state.channels[c as int].len() + 1
            &&& forall|d: int|
                0 <= d < state.channels.len() && d != c ==> after.channels[d] == state.channels[d]
        },
{
    broadcast use vstd::multiset::group_multiset_axioms;

    let after = state.after_distribute(now);
    lemma_shortest_first(state.pending);
    match state.outcome(now) {
        DistributeStatus::Success(c) => {
            let queue = shortest_first(state.pending);
            let moved = queue[0];
            lemma_preferred_channel(state);
            lemma_ids_drop_first(queue);
            lemma_ids_push(state.channels[c as int], moved);
            lemma_ids_channel_update(
                state.channels,
                c as int,
                state.channels[c as int].push(moved),
            );
            let id = moved.packet_id;
            let grown = state.channels[c as int].push(moved);
            assert(after.pending == queue.drop_first());
            assert(after.channels == state.channels.update(c as int, grown));
            assert(ids(queue) == ids(state.pending));
            assert forall|other: u32| after.held_ids().count(other) == state.held_ids().count(
                other,
            ) by {
                assert(ids_in_channels(after.channels).add(ids(state.channels[c as int])).count(
                    other,
                ) == ids_in_channels(state.channels).add(ids(grown)).count(other));
                assert(ids(grown).count(other) == ids(state.channels[c as int]).insert(id).count(
                    other,
                ));
                assert(ids(after.pending).count(other) == ids(state.pending).remove(id).count(
                    other,
                ));
            }
            assert(after.held_ids() =~= state.held_ids());
        },
        _ => {},
    }
}

/// Resending the front packet neither loses nor repeats a packet, and the
/// pending queue stays as long as it was.
pub proof fn lemma_resend_keeps_packets(state: GatewayState, now: i64)
    requires
        state.pending.len() > 0,
    ensures
        state.after_resend(now).held_ids() == state.held_ids(),
        state.after_resend(now).pending.len() == state.pending.len(),
        state.after_resend(now).pending.last() == state.pending[0].arrived_at(now),
        forall|i: int|
            0 <= i < state.pending.len() - 1 ==> #[trigger] state.after_resend(now).pending[i]
                == state.pending[i + 1],
        state.after_resend(now).channels == state.channels,
        state.ids_are_distinct() ==> state.after_resend(now).ids_are_distinct(),
{
    broadcast use vstd::multiset::group_multiset_axioms;

    let front = state.pending[0];
    lemma_ids_drop_first(state.pending);
    lemma_ids_push(state.pending.drop_first(), front.arrived_at(now));
    assert(state.after_resend(now).held_ids() =~= state.held_ids());
}

/// A worker that takes a packet takes exactly that one out of the gateway's
/// hands; a worker that waits or leaves takes none.
pub proof fn lemma_worker_takes_one_packet(state: GatewayState, c: int)
    requires
        0 <= c < state.channels.len(),
    ensures
        match state.worker_action(c) {
            WorkerAction::Process(packet) => state.after_worker_step(c).held_ids()
                == state.held_ids().remove(packet.packet_id) && state.held_ids().count(
                packet.packet_id,
            ) > 0,
            _ => state.after_worker_step(c) == state,
        },
        state.after_worker_step(c).pending == state.pending,
        state.ids_are_distinct() ==> state.after_worker_step(c).ids_are_distinct(),
{
    broadcast use vstd::multiset::group_multiset_axioms;

    match state.worker_action(c) {
        WorkerAction::Process(packet) => {
            let after = state.after_worker_step(c);
            let rest = state.channels[c].drop_first();
            lemma_ids_drop_first(state.channels[c]);
            lemma_ids_channel_update(state.channels, c, rest);
            lemma_ids_of_one_channel(state.channels, c, packet.packet_id);
            assert forall|other: u32| after.held_ids().count(other) == state.held_ids().remove(
                packet.packet_id,
            ).count(other) by {
                assert(ids_in_channels(after.channels).add(ids(state.channels[c])).count(other)
                    == ids_in_channels(state.channels).add(ids(rest)).count(other));
            }
            assert(after.held_ids() =~= state.held_ids().remove(packet.packet_id));
        },
        _ => {},
    }
}

/// While no identity is held twice, no packet is in two channels at once,
/// nor pending and in a channel.
pub proof fn lemma_no_packet_in_two_queues(state: GatewayState, c: int, d: int, id: u32)
    requires
        state.ids_are_distinct(),
        0 <= c < state.channels.len(),
        0 <= d < state.channels.len(),
        c != d,
    ensures
        !(ids(state.channels[c]).count(id) > 0 && ids(state.channels[d]).count(id) > 0),
        !(ids(state.pending).count(id) > 0 && ids(state.channels[c]).count(id) > 0),
        ids(state.channels[c]).count(id) <= 1,
        ids(state.pending).count(id) <= 1,
{
    assert(state.held_ids().count(id) <= 1);
    if c < d {
        lemma_ids_of_two_channels(state.channels, c, d, id);
    } else {
        lemma_ids_of_two_channels(state.channels, d, c, id);
    }
    lemma_ids_of_one_channel(state.channels, c, id);
}

} // verus!
