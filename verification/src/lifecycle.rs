//! The course of a run: loading the pending queue, the dispatcher's cycle,
//! a worker's step, and the exit flag that ends both.

use crate::clock::now_millis;
use crate::gateway::{DistributeStatus, Gateway, GatewayState, LoadError, CHANNEL_COUNT};
use crate::packet::Packet;
use std::collections::VecDeque;
use vstd::prelude::*;

verus! {

/// Microseconds the dispatcher pauses after it placed a packet.
pub const PLACED_PAUSE_MICROS: u64 = 100;

/// Microseconds the dispatcher backs off when every channel is full.
pub const BACKOFF_PAUSE_MICROS: u64 = 1000;

/// Microseconds the dispatcher pauses after it resent a packet.
pub const RESENT_PAUSE_MICROS: u64 = 500;

/// Milliseconds a worker waits before it looks at an empty channel again.
pub const IDLE_WAIT_MILLIS: u64 = 1;

/// What the dispatcher does after one cycle.
#[derive(Debug, Clone, Copy, PartialEq, Eq, Structural)]
pub enum DispatcherAction {
    /// Sleep for this many microseconds, then run the next cycle.
    Pause(u64),
    /// Nothing is pending: the run is over.
    Stop,
}

/// What one cycle of the dispatcher came to: what the attempt to distribute
/// reported, and what the dispatcher does next.
#[derive(Debug, Clone, Copy, PartialEq, Eq, Structural)]
pub struct Cycle {
    pub status: DistributeStatus,
    pub action: DispatcherAction,
}

/// What a worker does after one step.
#[derive(Debug, Clone, Copy, PartialEq, Eq, Structural)]
pub enum WorkerAction {
    /// The exit flag is set: leave the loop.
    Exit,
    /// The channel is empty: sleep for this many milliseconds, then retry.
    Wait(u64),
    /// Process this packet, which has left the channel.
    Process(Packet),
}

/// What the dispatcher does after an attempt to distribute that reported
/// `status`: a short pause after a success, a longer one when the channels
/// are full or a packet was resent, and an end when nothing is pending.
pub open spec fn action_after(status: DistributeStatus) -> DispatcherAction {
    match status {
        DistributeStatus::Success(_) => DispatcherAction::Pause(PLACED_PAUSE_MICROS),
        DistributeStatus::AllChannelsFull => DispatcherAction::Pause(BACKOFF_PAUSE_MICROS),
        DistributeStatus::Timeout => DispatcherAction::Pause(RESENT_PAUSE_MICROS),
        DistributeStatus::EmptyQueue => DispatcherAction::Stop,
    }
}

impl GatewayState {
    /// What the dispatcher does after a cycle that starts at time `now`.
    pub open spec fn cycle_action(self, now: int) -> DispatcherAction {
        action_after(self.outcome(now))
    }

    /// What a cycle that starts at time `now` comes to.
    pub open spec fn cycle(self, now: int) -> Cycle {
        Cycle { status: self.outcome(now), action: self.cycle_action(now) }
    }

    /// The gateway after a dispatcher cycle that starts at time `now`: a
    /// packet that timed out is resent at `resend_time`, an empty pending
    /// queue sets the exit flag, and otherwise the attempt to distribute
    /// stands.
    pub open spec fn after_cycle(self, now: int, resend_time: i64) -> GatewayState {
        match self.outcome(now) {
            DistributeStatus::Timeout => self.after_resend(resend_time),
            DistributeStatus::EmptyQueue => GatewayState { should_exit: true, ..self },
            _ => self.after_distribute(now),
        }
    }

    /// What the worker of channel `c` does next.
    pub open spec fn worker_action(self, c: int) -> WorkerAction {
        if self.should_exit {
            WorkerAction::Exit
        } else if self.channels[c].len() == 0 {
            WorkerAction::Wait(IDLE_WAIT_MILLIS)
        } else {
            WorkerAction::Process(self.channels[c][0])
        }
    }

    /// The gateway after a step of the worker of channel `c`: the packet to
    /// process, if there is one, has left the front of the channel.
    pub open spec fn after_worker_step(self, c: int) -> GatewayState {
        match self.worker_action(c) {
            WorkerAction::Process(_) => GatewayState {
                channels: self.channels.update(c, self.channels[c].drop_first()),
                ..self
            },
            _ => self,
        }
    }
}

/// Whether processing took more than twice the declared time.
pub open spec fn overdue(elapsed_nanos: int, declared_millis: int) -> bool {
    elapsed_nanos > 2 * (declared_millis * 1_000_000)
}

/// Whether processing `packet` took more than twice its declared processing
/// time, given the nanoseconds that it took.
pub fn is_overdue(elapsed_nanos: u128, packet: &Packet) -> (slow: bool)
    ensures
        slow == overdue(elapsed_nanos as int, packet.processing_time as int),
{
    elapsed_nanos > 2 * (packet.processing_time as u128 * 1_000_000)
}

/// Once the pending queue is empty the run ends: the dispatcher stops and
/// sets the exit flag, and from then on every worker leaves its loop without
/// touching its channel. The dispatcher stops on nothing else, and nothing
/// clears the flag.
pub proof fn lemma_empty_queue_ends_run(state: GatewayState, now: int, resend_time: i64, c: int)
    ensures
        state.cycle_action(now) == DispatcherAction::Stop <==> state.pending.len() == 0,
        state.after_cycle(now, resend_time).should_exit == (state.should_exit
            || state.pending.len() == 0),
        state.pending.len() == 0 ==> {
            let ended = state.after_cycle(now, resend_time);
            &&& ended.pending.len() == 0
            &&& ended.channels == state.channels
            &&& ended.worker_action(c) == WorkerAction::Exit
            &&& ended.after_worker_step(c) == ended
        },
        state.should_exit ==> state.after_worker_step(c).should_exit,
{
}

/// A packet whose wait at the front of the pending queue exceeds the
/// threshold is not distributed but resent: the cycle reports a timeout, and
/// afterwards the packet stands at the back of the pending queue, once, with
/// `resend_time` as its arrival time; no channel has changed.
pub proof fn lemma_late_front_is_resent(state: GatewayState, now: int, resend_time: i64)
    requires
        state.pending.len() > 0,
    ensures
        state.outcome(now) == DistributeStatus::Timeout <==> state.pending[0].waited(now)
            > state.time_threshold,
        state.outcome(now) == DistributeStatus::Timeout ==> {
            let after = state.after_cycle(now, resend_time);
            &&& state.cycle_action(now) == DispatcherAction::Pause(RESENT_PAUSE_MICROS)
            &&& after == state.after_resend(resend_time)
            &&& after.pending.len() == state.pending.len()
            &&& after.pending.last() == state.pending[0].arrived_at(resend_time)
            &&& after.channels == state.channels
            &&& after.held_ids() == state.held_ids()
        },
{
    crate::custody::lemma_resend_keeps_packets(state, resend_time);
}

/// No queue ever holds more than its capacity: a gateway within its bounds
/// stays within them through every cycle of the dispatcher and every step of
/// a worker, and the capacities themselves never change.
pub proof fn lemma_queues_stay_bounded(state: GatewayState, now: int, resend_time: i64, c: int)
    requires
        state.wf(),
        0 <= c < state.channels.len(),
    ensures
        state.after_distribute(now).wf(),
        state.pending.len() > 0 ==> state.after_resend(resend_time).wf(),
        state.after_cycle(now, resend_time).wf(),
        state.after_worker_step(c).wf(),
        state.after_cycle(now, resend_time).channel_capacity == state.channel_capacity,
        state.after_cycle(now, resend_time).pending_capacity == state.pending_capacity,
        state.after_worker_step(c).channel_capacity == state.channel_capacity,
        state.after_cycle(now, resend_time).pending.len() <= state.pending.len(),
{
    crate::queue::lemma_shortest_first(state.pending);
    crate::dispatch::lemma_preferred_channel(state);
    let placed = state.after_distribute(now);
    assert forall|d: int| 0 <= d < placed.channels.len() implies (#[trigger] placed.channels[d]).len()
        <= placed.channel_capacity by {
        assert(state.channels[d].len() <= state.channel_capacity);
    }
    let taken = state.after_worker_step(c);
    assert forall|d: int| 0 <= d < taken.channels.len() implies (#[trigger] taken.channels[d]).len()
        <= taken.channel_capacity by {
        assert(state.channels[d].len() <= state.channel_capacity);
    }
}

impl Gateway {
    /// Replaces the pending queue by `packets`, which are no more than the
    /// queue may hold.
    pub fn init(&mut self, packets: VecDeque<Packet>)
        requires
            packets@.len() <= old(self)@.pending_capacity,
        ensures
            final(self)@ == (GatewayState { pending: packets@, ..old(self)@ }),
            old(self).wf() ==> final(self).wf(),
    {
        let mut admitted = packets;
        self.pending_queue.clear();
        self.pending_queue.append(&mut admitted);
        proof {
            assert(self@.pending =~= packets@);
            assert(self@.channels =~~= old(self)@.channels);
        }
    }

    /// Replaces the pending queue by `packets`, unless they are more than the
    /// queue may hold: then nothing changes and the error says how many they
    /// were.
    pub fn try_init(&mut self, packets: VecDeque<Packet>) -> (result: Result<(), LoadError>)
        ensures
            packets@.len() <= old(self)@.pending_capacity ==> result == Ok::<(), LoadError>(())
                && final(self)@ == (GatewayState { pending: packets@, ..old(self)@ }),
            packets@.len() > old(self)@.pending_capacity ==> result == Err::<(), LoadError>(
                LoadError::TooManyPackets { count: packets@.len() as usize },
            ) && final(self)@ == old(self)@,
            old(self).wf() ==> final(self).wf(),
    {
        if packets.len() > self.pending_queue_capacity {
            return Err(LoadError::TooManyPackets { count: packets.len() });
        }
        self.init(packets);
        Ok(())
    }

    /// Ends a dispatcher cycle whose attempt to distribute reported `status`.
    fn settle(&mut self, status: DistributeStatus, resend_time: i64) -> (action: DispatcherAction)
        requires
            status == DistributeStatus::Timeout ==> old(self)@.pending.len() > 0,
        ensures
            action == action_after(status),
            final(self)@ == match status {
                DistributeStatus::Timeout => old(self)@.after_resend(resend_time),
                DistributeStatus::EmptyQueue => GatewayState { should_exit: true, ..old(self)@ },
                _ => old(self)@,
            },
            old(self).wf() ==> final(self).wf(),
    {
        match status {
            DistributeStatus::Success(_) => DispatcherAction::Pause(PLACED_PAUSE_MICROS),
            DistributeStatus::AllChannelsFull => DispatcherAction::Pause(BACKOFF_PAUSE_MICROS),
            DistributeStatus::Timeout => {
                self.resend_packet_at(resend_time);
                DispatcherAction::Pause(RESENT_PAUSE_MICROS)
            },
            DistributeStatus::EmptyQueue => {
                self.should_exit = true;
                proof {
                    assert(self@.channels =~~= old(self)@.channels);
                }
                DispatcherAction::Stop
            },
        }
    }

    /// One cycle of the dispatcher, with `now` as the time at its start and
    /// `resend_time` as the time at which a packet that timed out is resent.
    ///
    /// Tries to distribute a packet. A success asks for a short pause, full
    /// channels for a longer one. A timeout resends the front packet. An
    /// empty pending queue sets the exit flag and stops the dispatcher.
    pub fn dispatch_cycle_at(&mut self, now: i64, resend_time: i64) -> (cycle: Cycle)
        ensures
            cycle == old(self)@.cycle(now as int),
            final(self)@ == old(self)@.after_cycle(now as int, resend_time),
            old(self).wf() ==> final(self).wf(),
    {
        let status = self.distribute_one_packet_at(now);
        let action = self.settle(status, resend_time);
        Cycle { status, action }
    }

    /// One cycle of the dispatcher by the clock: the result is that of
    /// `dispatch_cycle_at` for the times the clock gave.
    pub fn dispatch_cycle(&mut self) -> (cycle: Cycle)
        ensures
            exists|now: i64, resend_time: i64|
                cycle == old(self)@.cycle(now as int) && final(self)@ == old(self)@.after_cycle(
                    now as int,
                    resend_time,
                ),
            cycle.action == DispatcherAction::Stop <==> old(self)@.pending.len() == 0,
            old(self).wf() ==> final(self).wf(),
    {
        let now = now_millis();
        let status = self.distribute_one_packet_at(now);
        let resend_time = match status {
            DistributeStatus::Timeout => now_millis(),
            _ => now,
        };
        let action = self.settle(status, resend_time);
        let cycle = Cycle { status, action };
        proof {
            assert(cycle == old(self)@.cycle(now as int));
            assert(self@ == old(self)@.after_cycle(now as int, resend_time));
        }
        cycle
    }

    /// One step of the worker of channel `i`.
    ///
    /// With the exit flag set the worker leaves; with an empty channel it
    /// waits; otherwise it takes the packet at the front of its channel.
    pub fn worker_step(&mut self, i: usize) -> (action: WorkerAction)
        requires
            i < CHANNEL_COUNT,
        ensures
            action == old(self)@.worker_action(i as int),
            final(self)@ == old(self)@.after_worker_step(i as int),
            old(self).wf() ==> final(self).wf(),
    {
        if self.should_exit {
            return WorkerAction::Exit;
        }
        if self.is_channel_queue_empty(i) {
            return WorkerAction::Wait(IDLE_WAIT_MILLIS);
        }
        let taken = self.channel_queues[i].pop_front();
        let packet = taken.unwrap();
        proof {
            let after = old(self)@.after_worker_step(i as int);
            assert(self@.channels[i as int] =~= old(self)@.channels[i as int].drop_first());
            assert(self@.channels =~~= after.channels);
            if old(self).wf() {
                assert forall|d: int| 0 <= d < self@.channels.len() implies (
                #[trigger] self@.channels[d]).len() <= self@.channel_capacity by {
                    assert(old(self)@.channels[d].len() <= old(self)@.channel_capacity);
                }
            }
        }
        WorkerAction::Process(packet)
    }
}

} // verus!
