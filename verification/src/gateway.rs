//! The gateway: a bounded pending queue, eight bounded channel queues and
//! the exit flag that ends a run.

use crate::clock::now_millis;
use crate::packet::Packet;
use std::collections::VecDeque;
use vstd::prelude::*;

verus! {

/// Number of channels.
pub const CHANNEL_COUNT: usize = 8;

/// Capacity of the pending queue of a new gateway.
pub const PENDING_QUEUE_CAPACITY: usize = 1000;

/// Capacity of each channel queue of a new gateway.
pub const CHANNEL_QUEUE_CAPACITY: usize = 10;

/// Wait, in milliseconds, after which the packet at the front of the pending
/// queue of a new gateway is resent.
pub const TIME_THRESHOLD_MILLIS: i64 = 10_000;

/// What one attempt to distribute a packet came to.
#[derive(Debug, Clone, Copy, PartialEq, Eq, Structural)]
pub enum DistributeStatus {
    /// The packet was placed in the channel with this index.
    Success(usize),
    /// Every channel is at capacity.
    AllChannelsFull,
    /// The pending queue is empty.
    EmptyQueue,
    /// The packet at the front of the pending queue has waited too long.
    Timeout,
}

/// Why a workload was not accepted.
#[derive(Debug, Clone, Copy, PartialEq, Eq, Structural)]
pub enum LoadError {
    /// The workload holds `count` packets, more than the pending queue may.
    TooManyPackets { count: usize },
}

/// A gateway: packets wait in the pending queue until the dispatcher moves
/// them into one of eight channel queues, where a worker takes them up.
#[derive(Debug, Clone)]
pub struct Gateway {
    pub id: u32,
    /// Packets waiting to be distributed, front first.
    pub pending_queue: VecDeque<Packet>,
    /// Packets waiting to be processed, one queue per channel.
    pub channel_queues: [VecDeque<Packet>; 8],
    pub pending_queue_capacity: usize,
    pub channel_queue_capacity: usize,
    /// Set once the pending queue has been found empty; workers stop on it.
    pub should_exit: bool,
    /// Longest wait at the front of the pending queue, in milliseconds.
    pub time_threshold: i64,
}

/// The gateway as a mathematical value.
pub struct GatewayState {
    pub id: u32,
    pub pending: Seq<Packet>,
    pub channels: Seq<Seq<Packet>>,
    pub pending_capacity: nat,
    pub channel_capacity: nat,
    pub should_exit: bool,
    pub time_threshold: int,
}

/// The sum of the declared processing times of the packets in `queue`.
pub open spec fn total_processing(queue: Seq<Packet>) -> nat
    decreases queue.len(),
{
    if queue.len() == 0 {
        0
    } else {
        total_processing(queue.drop_last()) + queue.last().processing_time as nat
    }
}

impl GatewayState {
    /// There are eight channels and no queue holds more than its capacity.
    pub open spec fn wf(self) -> bool {
        &&& self.channels.len() == CHANNEL_COUNT
        &&& self.pending.len() <= self.pending_capacity
        &&& forall|c: int|
            0 <= c < self.channels.len() ==> (#[trigger] self.channels[c]).len()
                <= self.channel_capacity
    }

    /// Channel `c` has no room for another packet.
    pub open spec fn channel_is_full(self, c: int) -> bool {
        self.channels[c].len() >= self.channel_capacity
    }

    /// `packet` has waited longer than the threshold at time `now`.
    pub open spec fn timed_out(self, packet: Packet, now: int) -> bool {
        packet.waited(now) > self.time_threshold
    }

    /// The outstanding declared processing time of each channel.
    pub open spec fn loads(self) -> Seq<int> {
        self.channels.map_values(|queue: Seq<Packet>| total_processing(queue) as int)
    }
}

impl View for Gateway {
    type V = GatewayState;

    open spec fn view(&self) -> GatewayState {
        GatewayState {
            id: self.id,
            pending: self.pending_queue@,
            channels: Seq::new(8, |c: int| self.channel_queues[c]@),
            pending_capacity: self.pending_queue_capacity as nat,
            channel_capacity: self.channel_queue_capacity as nat,
            should_exit: self.should_exit,
            time_threshold: self.time_threshold as int,
        }
    }
}

/// The total of `queue` is at most as many times the largest declared
/// processing time as the queue has packets.
pub proof fn lemma_total_processing_bound(queue: Seq<Packet>)
    ensures
        total_processing(queue) <= queue.len() * u64::MAX,
    decreases queue.len(),
{
    if queue.len() > 0 {
        lemma_total_processing_bound(queue.drop_last());
        assert((queue.len() - 1) * u64::MAX + u64::MAX == queue.len() * u64::MAX)
            by (nonlinear_arith);
    }
}

impl Gateway {
    /// No queue holds more than its capacity.
    pub open spec fn wf(&self) -> bool {
        self@.wf()
    }

    /// Creates a gateway with empty queues, room for 1000 pending packets and
    /// 10 packets per channel, and a timeout threshold of ten seconds.
    pub fn new(id: u32) -> (gateway: Gateway)
        ensures
            gateway.wf(),
            gateway@ == (GatewayState {
                id,
                pending: Seq::empty(),
                channels: Seq::new(8, |c: int| Seq::empty()),
                pending_capacity: 1000,
                channel_capacity: 10,
                should_exit: false,
                time_threshold: 10_000,
            }),
    {
        let gateway = Gateway {
            id,
            pending_queue: VecDeque::new(),
            channel_queues: [
                VecDeque::new(),
                VecDeque::new(),
                VecDeque::new(),
                VecDeque::new(),
                VecDeque::new(),
                VecDeque::new(),
                VecDeque::new(),
                VecDeque::new(),
            ],
            pending_queue_capacity: PENDING_QUEUE_CAPACITY,
            channel_queue_capacity: CHANNEL_QUEUE_CAPACITY,
            should_exit: false,
            time_threshold: TIME_THRESHOLD_MILLIS,
        };
        proof {
            assert(gateway@.channels =~~= Seq::new(8, |c: int| Seq::<Packet>::empty()));
        }
        gateway
    }

    /// Whether no packet is pending.
    pub fn is_pending_queue_empty(&self) -> (empty: bool)
        ensures
            empty == (self@.pending.len() == 0),
    {
        self.pending_queue.len() == 0
    }

    /// Whether the pending queue holds as many packets as its capacity allows.
    pub fn is_pending_queue_full(&self) -> (full: bool)
        ensures
            full == (self@.pending.len() >= self@.pending_capacity),
    {
        self.pending_queue.len() >= self.pending_queue_capacity
    }

    /// Whether channel `i` holds no packet.
    pub fn is_channel_queue_empty(&self, i: usize) -> (empty: bool)
        requires
            i < CHANNEL_COUNT,
        ensures
            empty == (self@.channels[i as int].len() == 0),
    {
        self.channel_queues[i].len() == 0
    }

    /// Whether channel `i` has no room for another packet.
    pub fn is_channel_queue_full(&self, i: usize) -> (full: bool)
        requires
            i < CHANNEL_COUNT,
        ensures
            full == self@.channel_is_full(i as int),
    {
        self.channel_queues[i].len() >= self.channel_queue_capacity
    }

    /// Whether `packet` has waited longer than the threshold at time `now`.
    pub fn is_timeout_at(&self, packet: &Packet, now: i64) -> (late: bool)
        ensures
            late == self@.timed_out(*packet, now as int),
    {
        now as i128 - packet.arrival_time as i128 > self.time_threshold as i128
    }

    /// Whether `packet` has waited longer than the threshold by now. The
    /// answer is that of `is_timeout_at` for the time the clock gave.
    pub fn is_timeout(&self, packet: &Packet) -> (late: bool)
        ensures
            exists|now: i64| late == self@.timed_out(*packet, now as int),
    {
        let now = now_millis();
        self.is_timeout_at(packet, now)
    }

    /// The outstanding declared processing time of channel `i`.
    pub fn channel_load(&self, i: usize) -> (load: u128)
        requires
            i < CHANNEL_COUNT,
        ensures
            load == self@.loads()[i as int],
    {
        let queue = &self.channel_queues[i];
        let mut load: u128 = 0;
        let mut k: usize = 0;
        while k < queue.len()
            invariant
                k <= queue@.len(),
                load == total_processing(queue@.take(k as int)),
            decreases queue.len() - k,
        {
            proof {
                lemma_total_processing_bound(queue@.take(k as int));
                assert(k * u64::MAX + u64::MAX <= u128::MAX) by (nonlinear_arith)
                    requires
                        k <= usize::MAX,
                ;
                assert(queue@.take(k + 1).drop_last() =~= queue@.take(k as int));
            }
            load = load + queue[k].processing_time as u128;
            k += 1;
        }
        proof {
            assert(queue@.take(queue@.len() as int) =~= queue@);
        }
        load
    }
}

} // verus!
