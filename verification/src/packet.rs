//! Work items.

use crate::clock::now_millis;
use vstd::prelude::*;

verus! {

/// A unit of simulated work.
///
/// Times are whole milliseconds: `arrival_time` counts from the Unix epoch,
/// `processing_time` is the declared cost of processing the packet.
#[derive(Debug, Clone, Copy, PartialEq, Eq, Structural)]
pub struct Packet {
    pub packet_id: u32,
    pub arrival_time: i64,
    pub processing_time: u64,
}

impl Packet {
    /// How long the packet has waited at time `now`, in milliseconds.
    pub open spec fn waited(self, now: int) -> int {
        now - self.arrival_time
    }

    /// The same packet with its arrival set to `now`.
    pub open spec fn arrived_at(self, now: i64) -> Packet {
        Packet { packet_id: self.packet_id, arrival_time: now, processing_time: self.processing_time }
    }

    /// Creates a packet that arrives at time `now`.
    pub fn new_at(packet_id: u32, processing_time: u64, now: i64) -> (packet: Packet)
        ensures
            packet == (Packet { packet_id, arrival_time: now, processing_time }),
    {
        Packet { packet_id, arrival_time: now, processing_time }
    }

    /// Creates a packet that arrives at the moment of the call: the packet is
    /// that of `new_at` for the time the clock gave.
    pub fn new(packet_id: u32, processing_time: u64) -> (packet: Packet)
        ensures
            exists|now: i64| packet == (Packet { packet_id, arrival_time: now, processing_time }),
            packet.packet_id == packet_id,
            packet.processing_time == processing_time,
    {
        Packet::new_at(packet_id, processing_time, now_millis())
    }

    /// Restarts the packet's wait: identity and declared cost stay, the
    /// arrival time becomes `now`.
    pub fn restamp(&mut self, now: i64)
        ensures
            *final(self) == old(self).arrived_at(now),
    {
        self.arrival_time = now;
    }
}

} // verus!
