//! Whole runs: what holds after any number of dispatcher cycles and worker
//! steps, taken in any order and at any times.

use crate::custody::{
    ids, ids_in_channels, lemma_ids_channel_update, lemma_ids_drop_first, lemma_ids_push,
};
use crate::dispatch::lemma_preferred_channel;
use crate::gateway::{DistributeStatus, GatewayState, CHANNEL_COUNT};
use crate::lifecycle::{lemma_queues_stay_bounded, DispatcherAction, WorkerAction};
use crate::queue::{lemma_shortest_first, shortest_first};
use vstd::multiset::Multiset;
use vstd::prelude::*;

verus! {

/// One step of a run. The gateway is shared under one lock, so a run is a
/// sequence of such steps.
pub enum Step {
    /// A cycle of the dispatcher that starts at time `now` and resends, if
    /// it does, at `resend_time`.
    Cycle { now: int, resend_time: i64 },
    /// A step of the worker of channel `channel`.
    Work { channel: int },
}

/// Every worker step of `steps` names one of the eight channels.
pub open spec fn names_channels(steps: Seq<Step>) -> bool {
    forall|i: int|
        0 <= i < steps.len() ==> (#[trigger] steps[i] matches Step::Work { channel } ==> 0
            <= channel < CHANNEL_COUNT)
}

impl GatewayState {
    /// The gateway after `step`.
    pub open spec fn after_step(self, step: Step) -> GatewayState {
        match step {
            Step::Cycle { now, resend_time } => self.after_cycle(now, resend_time),
            Step::Work { channel } => self.after_worker_step(channel),
        }
    }

    /// The gateway after `steps`, taken one after the other.
    pub open spec fn after_run(self, steps: Seq<Step>) -> GatewayState
        decreases steps.len(),
    {
        if steps.len() == 0 {
            self
        } else {
            self.after_run(steps.drop_last()).after_step(steps.last())
        }
    }

    /// The identity of the packet that `step` places in a channel, if it
    /// places one.
    pub open spec fn placed_by(self, step: Step) -> Multiset<u32> {
        match step {
            Step::Cycle { now, resend_time } => if self.outcome(now) is Success {
                Multiset::singleton(shortest_first(self.pending)[0].packet_id)
            } else {
                Multiset::empty()
            },
            Step::Work { channel } => Multiset::empty(),
        }
    }

    /// The identity of the packet that a worker takes up in `step`, if one
    /// does.
    pub open spec fn taken_by(self, step: Step) -> Multiset<u32> {
        match step {
            Step::Cycle { now, resend_time } => Multiset::empty(),
            Step::Work { channel } => match self.worker_action(channel) {
                WorkerAction::Process(packet) => Multiset::singleton(packet.packet_id),
                _ => Multiset::empty(),
            },
        }
    }

    /// The identities of the packets placed in a channel during `steps`, each
    /// as often as it was placed.
    pub open spec fn placed_in(self, steps: Seq<Step>) -> Multiset<u32>
        decreases steps.len(),
    {
        if steps.len() == 0 {
            Multiset::empty()
        } else {
            self.placed_in(steps.drop_last()).add(
                self.after_run(steps.drop_last()).placed_by(steps.last()),
            )
        }
    }

    /// The identities of the packets that workers took up during `steps`,
    /// each as often as it was taken.
    pub open spec fn taken_in(self, steps: Seq<Step>) -> Multiset<u32>
        decreases steps.len(),
    {
        if steps.len() == 0 {
            Multiset::empty()
        } else {
            self.taken_in(steps.drop_last()).add(
                self.after_run(steps.drop_last()).taken_by(steps.last()),
            )
        }
    }

    /// The run is over: the exit flag is set and nothing is pending.
    pub open spec fn is_over(self) -> bool {
        self.should_exit && self.pending.len() == 0
    }
}

/// One step accounts for every packet: what left the pending queue was
/// placed in a channel, and what left a channel was taken up by its worker.
pub proof fn lemma_step_accounts_for_packets(state: GatewayState, step: Step)
    requires
        state.wf(),
        step matches Step::Work { channel } ==> 0 <= channel < CHANNEL_COUNT,
    ensures
        ids(state.after_step(step).pending).add(state.placed_by(step)) == ids(state.pending),
        ids_in_channels(state.after_step(step).channels).add(state.taken_by(step))
            == ids_in_channels(state.channels).add(state.placed_by(step)),
{
    broadcast use vstd::multiset::group_multiset_axioms;

    let after = state.after_step(step);
    match step {
        Step::Cycle { now, resend_time } => {
            match state.outcome(now) {
                DistributeStatus::Success(c) => {
                    let queue = shortest_first(state.pending);
                    let moved = queue[0];
                    let grown = state.channels[c as int].push(moved);
                    lemma_shortest_first(state.pending);
                    lemma_preferred_channel(state);
                    lemma_ids_drop_first(queue);
                    lemma_ids_push(state.channels[c as int], moved);
                    lemma_ids_channel_update(state.channels, c as int, grown);
                    assert(after.pending == queue.drop_first());
                    assert(after.channels == state.channels.update(c as int, grown));
                    assert(ids(queue) == ids(state.pending));
                    assert forall|id: u32|
                        ids_in_channels(after.channels).add(state.taken_by(step)).count(id)
                            == ids_in_channels(state.channels).add(state.placed_by(step)).count(
                            id,
                        ) by {
                        assert(ids_in_channels(after.channels).add(
                            ids(state.channels[c as int]),
                        ).count(id) == ids_in_channels(state.channels).add(ids(grown)).count(id));
                    }
                    assert(ids(after.pending).add(state.placed_by(step)) =~= ids(state.pending));
                    assert(ids_in_channels(after.channels).add(state.taken_by(step))
                        =~= ids_in_channels(state.channels).add(state.placed_by(step)));
                },
                DistributeStatus::AllChannelsFull => {
                    lemma_shortest_first(state.pending);
                    assert(ids(after.pending).add(state.placed_by(step)) =~= ids(state.pending));
                    assert(ids_in_channels(after.channels).add(state.taken_by(step))
                        =~= ids_in_channels(state.channels).add(state.placed_by(step)));
                },
                DistributeStatus::Timeout => {
                    let front = state.pending[0];
                    lemma_ids_drop_first(state.pending);
                    lemma_ids_push(state.pending.drop_first(), front.arrived_at(resend_time));
                    assert(ids(after.pending).add(state.placed_by(step)) =~= ids(state.pending));
                    assert(ids_in_channels(after.channels).add(state.taken_by(step))
                        =~= ids_in_channels(state.channels).add(state.placed_by(step)));
                },
                DistributeStatus::EmptyQueue => {
                    assert(ids(after.pending).add(state.placed_by(step)) =~= ids(state.pending));
                    assert(ids_in_channels(after.channels).add(state.taken_by(step))
                        =~= ids_in_channels(state.channels).add(state.placed_by(step)));
                },
            }
        },
        Step::Work { channel } => {
            match state.worker_action(channel) {
                WorkerAction::Process(packet) => {
                    let rest = state.channels[channel].drop_first();
                    lemma_ids_drop_first(state.channels[channel]);
                    lemma_ids_channel_update(state.channels, channel, rest);
                    assert forall|id: u32|
                        ids_in_channels(after.channels).add(state.taken_by(step)).count(id)
                            == ids_in_channels(state.channels).add(state.placed_by(step)).count(
                            id,
                        ) by {
                        assert(ids_in_channels(after.channels).add(
                            ids(state.channels[channel]),
                        ).count(id) == ids_in_channels(state.channels).add(ids(rest)).count(id));
                    }
                },
                _ => {},
            }
            assert(ids(after.pending).add(state.placed_by(step)) =~= ids(state.pending));
            assert(ids_in_channels(after.channels).add(state.taken_by(step)) =~= ids_in_channels(
                state.channels,
            ).add(state.placed_by(step)));
        },
    }
}

/// Throughout a run no queue holds more than its capacity, the capacities
/// and the threshold stay as they were, and the pending queue never grows.
pub proof fn lemma_run_stays_bounded(state: GatewayState, steps: Seq<Step>)
    requires
        state.wf(),
        names_channels(steps),
    ensures
        state.after_run(steps).wf(),
        state.after_run(steps).channel_capacity == state.channel_capacity,
        state.after_run(steps).pending_capacity == state.pending_capacity,
        state.after_run(steps).time_threshold == state.time_threshold,
        state.after_run(steps).pending.len() <= state.pending.len(),
    decreases steps.len(),
{
    if steps.len() > 0 {
        let earlier = steps.drop_last();
        assert forall|i: int| 0 <= i < earlier.len() implies (#[trigger] earlier[i] matches Step::Work {
            channel,
        } ==> 0 <= channel < CHANNEL_COUNT) by {
            assert(earlier[i] == steps[i]);
        }
        lemma_run_stays_bounded(state, earlier);
        let before = state.after_run(earlier);
        assert(steps[steps.len() - 1] == steps.last());
        match steps.last() {
            Step::Cycle { now, resend_time } => {
                lemma_queues_stay_bounded(before, now, resend_time, 0);
            },
            Step::Work { channel } => {
                lemma_queues_stay_bounded(before, 0, 0, channel);
            },
        }
    }
}

/// A run accounts for every packet. Each packet that was pending at the
/// start is still pending or was placed in a channel, exactly once; each
/// packet that was in a channel at the start or was placed there is still
/// there or was taken up by a worker, exactly once. So as many packets were
/// placed as the pending queue lost, and while no identity is held twice at
/// the start, none is held, placed or taken twice.
pub proof fn lemma_run_accounts_for_packets(state: GatewayState, steps: Seq<Step>)
    requires
        state.wf(),
        names_channels(steps),
    ensures
        ids(state.after_run(steps).pending).add(state.placed_in(steps)) == ids(state.pending),
        ids_in_channels(state.after_run(steps).channels).add(state.taken_in(steps))
            == ids_in_channels(state.channels).add(state.placed_in(steps)),
        state.after_run(steps).held_ids().add(state.taken_in(steps)) == state.held_ids(),
        state.placed_in(steps).len() + state.after_run(steps).pending.len()
            == state.pending.len(),
        state.ids_are_distinct() ==> {
            &&& state.after_run(steps).ids_are_distinct()
            &&& forall|id: u32| state.placed_in(steps).count(id) <= 1
            &&& forall|id: u32| state.taken_in(steps).count(id) <= 1
            &&& forall|id: u32|
                !(state.taken_in(steps).count(id) > 0 && state.after_run(steps).held_ids().count(id)
                    > 0)
        },
    decreases steps.len(),
{
    broadcast use vstd::multiset::group_multiset_axioms;

    let after = state.after_run(steps);
    if steps.len() > 0 {
        let earlier = steps.drop_last();
        assert forall|i: int| 0 <= i < earlier.len() implies (#[trigger] earlier[i] matches Step::Work {
            channel,
        } ==> 0 <= channel < CHANNEL_COUNT) by {
            assert(earlier[i] == steps[i]);
        }
        assert(steps[steps.len() - 1] == steps.last());
        lemma_run_accounts_for_packets(state, earlier);
        lemma_run_stays_bounded(state, earlier);
        let before = state.after_run(earlier);
        lemma_step_accounts_for_packets(before, steps.last());
        let placed = before.placed_by(steps.last());
        let taken = before.taken_by(steps.last());
        assert forall|id: u32|
            ids(after.pending).add(state.placed_in(steps)).count(id) == ids(state.pending).count(
                id,
            ) by {
            assert(ids(after.pending).add(placed).count(id) == ids(before.pending).count(id));
            assert(ids(before.pending).add(state.placed_in(earlier)).count(id) == ids(
                state.pending,
            ).count(id));
        }
        assert forall|id: u32|
            ids_in_channels(after.channels).add(state.taken_in(steps)).count(id)
                == ids_in_channels(state.channels).add(state.placed_in(steps)).count(id) by {
            assert(ids_in_channels(after.channels).add(taken).count(id) == ids_in_channels(
                before.channels,
            ).add(placed).count(id));
            assert(ids_in_channels(before.channels).add(state.taken_in(earlier)).count(id)
                == ids_in_channels(state.channels).add(state.placed_in(earlier)).count(id));
        }
    }
    assert(ids(after.pending).add(state.placed_in(steps)) =~= ids(state.pending));
    assert(ids_in_channels(after.channels).add(state.taken_in(steps)) =~= ids_in_channels(
        state.channels,
    ).add(state.placed_in(steps)));
    assert forall|id: u32|
        after.held_ids().add(state.taken_in(steps)).count(id) == state.held_ids().count(id) by {
        assert(ids(after.pending).add(state.placed_in(steps)).count(id) == ids(
            state.pending,
        ).count(id));
        assert(ids_in_channels(after.channels).add(state.taken_in(steps)).count(id)
            == ids_in_channels(state.channels).add(state.placed_in(steps)).count(id));
    }
    assert(after.held_ids().add(state.taken_in(steps)) =~= state.held_ids());
    crate::queue::packet_ids(after.pending).to_multiset_ensures();
    crate::queue::packet_ids(state.pending).to_multiset_ensures();
    assert(ids(after.pending).add(state.placed_in(steps)).len() == ids(after.pending).len()
        + state.placed_in(steps).len());
    if state.ids_are_distinct() {
        assert forall|id: u32|
            #![trigger after.held_ids().count(id)]
            #![trigger state.placed_in(steps).count(id)]
            #![trigger state.taken_in(steps).count(id)]
            after.held_ids().count(id) <= 1 && state.placed_in(steps).count(id) <= 1
                && state.taken_in(steps).count(id) <= 1 && !(state.taken_in(steps).count(id) > 0
                && after.held_ids().count(id) > 0) by {
            assert(state.held_ids().count(id) <= 1);
            assert(after.held_ids().add(state.taken_in(steps)).count(id) == state.held_ids().count(
                id,
            ));
            assert(ids(after.pending).add(state.placed_in(steps)).count(id) == ids(
                state.pending,
            ).count(id));
        }
        assert(after.ids_are_distinct());
    }
}

/// The dispatcher places at most as many packets as were pending at the
/// start, and it has placed them all exactly when nothing is pending any
/// more, which is exactly when its next cycle stops it.
pub proof fn lemma_dispatcher_stops_when_all_are_placed(
    state: GatewayState,
    steps: Seq<Step>,
    now: int,
)
    requires
        state.wf(),
        names_channels(steps),
    ensures
        state.placed_in(steps).len() <= state.pending.len(),
        state.placed_in(steps).len() == state.pending.len() <==> state.after_run(
            steps,
        ).pending.len() == 0,
        state.after_run(steps).pending.len() == 0 <==> state.after_run(steps).cycle_action(now)
            == DispatcherAction::Stop,
{
    lemma_run_accounts_for_packets(state, steps);
}

/// The exit flag ends the run for good. It is never cleared; where it
/// stands only over an empty pending queue at the start, it does so ever
/// after; and once the run is over, no cycle and no worker step changes the
/// gateway: every cycle stops the dispatcher and every worker leaves.
pub proof fn lemma_run_ends_for_good(state: GatewayState, steps: Seq<Step>)
    ensures
        state.should_exit ==> state.after_run(steps).should_exit,
        (state.should_exit ==> state.pending.len() == 0) ==> (state.after_run(steps).should_exit
            ==> state.after_run(steps).pending.len() == 0),
        state.is_over() ==> state.after_run(steps) == state,
        state.is_over() ==> forall|now: int, c: int|
            state.after_run(steps).outcome(now) == DistributeStatus::EmptyQueue && state.after_run(
                steps,
            ).worker_action(c) == WorkerAction::Exit,
    decreases steps.len(),
{
    if steps.len() > 0 {
        lemma_run_ends_for_good(state, steps.drop_last());
        let before = state.after_run(steps.drop_last());
        match steps.last() {
            Step::Cycle { now, resend_time } => {
                lemma_shortest_first(before.pending);
            },
            Step::Work { channel } => {},
        }
    }
}

} // verus!
