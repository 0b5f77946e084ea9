//! Where the packets of a run come from: a fresh random workload, or a stored
//! one whose packets arrive anew when it is loaded.

use crate::gateway::LoadError;
use crate::order::{lemma_stable_order, stable_order};
use crate::packet::Packet;
use crate::queue::{
    arrival_times, earliest_first, lemma_earliest_first, packet_ids, processing_times,
    sort_by_arrival_time,
};
use std::collections::VecDeque;
use vstd::prelude::*;

verus! {

/// Number of packets of a generated workload, and the most that a stored one
/// may hold.
pub const WORKLOAD_SIZE: usize = 1000;

/// Least declared processing time of a generated packet, in milliseconds.
pub const SHORTEST_PROCESSING_MILLIS: u64 = 50;

/// Greatest declared processing time of a generated packet, in milliseconds.
pub const LONGEST_PROCESSING_MILLIS: u64 = 150;

/// Where the packets of a run come from.
#[derive(Debug, Clone, Copy, PartialEq, Eq, Structural)]
pub enum PacketSource {
    /// A workload generated for this run.
    Random,
    /// The workload that an earlier run stored.
    Stored,
}

/// One of the arguments is `--random`.
pub open spec fn asks_for_random(args: Seq<String>) -> bool {
    exists|i: int| 0 <= i < args.len() && (#[trigger] args[i])@ == "--random"@
}

/// The source that the command line asks for: a random workload if one of
/// the arguments is `--random`, the stored one otherwise.
pub fn packet_source(args: &Vec<String>) -> (source: PacketSource)
    ensures
        source == if asks_for_random(args@) {
            PacketSource::Random
        } else {
            PacketSource::Stored
        },
{
    let flag = "--random".to_owned();
    let mut i: usize = 0;
    while i < args.len()
        invariant
            i <= args@.len(),
            flag@ == "--random"@,
            forall|k: int| 0 <= k < i ==> (#[trigger] args@[k])@ != "--random"@,
        decreases args.len() - i,
    {
        if args[i] == flag {
            return PacketSource::Random;
        }
        i += 1;
    }
    PacketSource::Stored
}

/// A random number of the closed range from `low` to `high`.
///
/// Calls `rand::Rng::gen_range` on `rand::thread_rng()` with the inclusive
/// range `low..=high`, which samples a value of that range and panics only
/// when the range is empty. Which value comes is left open.
#[verifier::external_body]
fn random_between(low: u64, high: u64) -> (value: u64)
    requires
        low <= high,
    ensures
        low <= value <= high,
{
    rand::Rng::gen_range(&mut rand::thread_rng(), low..=high)
}

/// `raw` is a workload as it is drawn: a thousand packets numbered from zero
/// in the order in which they were made, each with a declared processing
/// time between 50 and 150 milliseconds.
pub open spec fn is_fresh_workload(raw: Seq<Packet>) -> bool {
    &&& raw.len() == WORKLOAD_SIZE
    &&& forall|i: int|
        0 <= i < raw.len() ==> (#[trigger] raw[i]).packet_id == i && SHORTEST_PROCESSING_MILLIS
            <= raw[i].processing_time <= LONGEST_PROCESSING_MILLIS
}

/// `loaded` holds the work of `stored`: as many packets, in the same order,
/// each with the identity and the declared processing time of its stored
/// counterpart. Arrival times are not compared.
pub open spec fn same_work(stored: Seq<Packet>, loaded: Seq<Packet>) -> bool {
    &&& loaded.len() == stored.len()
    &&& forall|i: int|
        0 <= i < stored.len() ==> (#[trigger] loaded[i]).packet_id == stored[i].packet_id
            && loaded[i].processing_time == stored[i].processing_time
}

/// A fresh workload in order of arrival still holds a thousand packets with
/// processing times between 50 and 150 milliseconds, each number below a
/// thousand exactly once, and no packet stands before one that arrived
/// earlier.
pub proof fn lemma_generated_workload(raw: Seq<Packet>)
    requires
        is_fresh_workload(raw),
    ensures
        earliest_first(raw).len() == WORKLOAD_SIZE,
        forall|i: int|
            0 <= i < WORKLOAD_SIZE ==> SHORTEST_PROCESSING_MILLIS <= (#[trigger] earliest_first(
                raw,
            )[i]).processing_time <= LONGEST_PROCESSING_MILLIS,
        forall|i: int, j: int|
            0 <= i <= j < WORKLOAD_SIZE ==> (#[trigger] earliest_first(raw)[i]).arrival_time <= (
            #[trigger] earliest_first(raw)[j]).arrival_time,
        forall|id: u32|
            packet_ids(earliest_first(raw)).to_multiset().count(id) == if id < WORKLOAD_SIZE {
                1nat
            } else {
                0nat
            },
{
    let sorted = earliest_first(raw);
    let order = stable_order(arrival_times(raw));
    lemma_earliest_first(raw);
    lemma_stable_order(arrival_times(raw));
    assert forall|i: int| 0 <= i < WORKLOAD_SIZE implies SHORTEST_PROCESSING_MILLIS <= (
    #[trigger] sorted[i]).processing_time <= LONGEST_PROCESSING_MILLIS by {
        assert(0 <= order[i] < raw.len());
        assert(sorted[i] == raw[order[i]]);
    }
    let numbers = packet_ids(raw);
    assert forall|i: int, j: int|
        0 <= i < numbers.len() && 0 <= j < numbers.len() && i != j implies numbers[i]
        != numbers[j] by {
        assert(raw[i].packet_id == i && raw[j].packet_id == j);
    }
    numbers.lemma_multiset_has_no_duplicates();
    numbers.to_multiset_ensures();
    assert forall|id: u32|
        packet_ids(sorted).to_multiset().count(id) == if id < WORKLOAD_SIZE {
            1nat
        } else {
            0nat
        } by {
        if id < WORKLOAD_SIZE {
            assert(raw[id as int].packet_id == id);
            assert(numbers[id as int] == id);
            assert(numbers.contains(id));
        } else if numbers.contains(id) {
            let i = choose|i: int| 0 <= i < numbers.len() && numbers[i] == id;
            assert(raw[i].packet_id == i);
        }
    }
}

/// A generated workload can always be loaded, and what is loaded has its
/// shape: a thousand packets, each number below a thousand exactly once, and
/// processing times between 50 and 150 milliseconds.
pub proof fn lemma_generated_workload_loads(raw: Seq<Packet>, loaded: Seq<Packet>)
    requires
        is_fresh_workload(raw),
        same_work(earliest_first(raw), loaded),
    ensures
        earliest_first(raw).len() <= WORKLOAD_SIZE,
        loaded.len() == WORKLOAD_SIZE,
        packet_ids(loaded) == packet_ids(earliest_first(raw)),
        processing_times(loaded) == processing_times(earliest_first(raw)),
        forall|i: int|
            0 <= i < WORKLOAD_SIZE ==> SHORTEST_PROCESSING_MILLIS <= (
            #[trigger] loaded[i]).processing_time <= LONGEST_PROCESSING_MILLIS,
        forall|id: u32|
            packet_ids(loaded).to_multiset().count(id) == if id < WORKLOAD_SIZE {
                1nat
            } else {
                0nat
            },
{
    let sorted = earliest_first(raw);
    lemma_generated_workload(raw);
    assert(packet_ids(loaded) =~= packet_ids(sorted));
    assert(processing_times(loaded) =~= processing_times(sorted));
    assert forall|i: int| 0 <= i < WORKLOAD_SIZE implies SHORTEST_PROCESSING_MILLIS <= (
    #[trigger] loaded[i]).processing_time <= LONGEST_PROCESSING_MILLIS by {
        assert(loaded[i].processing_time == sorted[i].processing_time);
    }
}

/// Work that is loaded again and again stays the same work.
pub proof fn lemma_same_work_chains(first: Seq<Packet>, second: Seq<Packet>, third: Seq<Packet>)
    requires
        same_work(first, second),
        same_work(second, third),
    ensures
        same_work(first, first),
        same_work(second, first),
        same_work(first, third),
        packet_ids(first) == packet_ids(third),
        processing_times(first) == processing_times(third),
{
    assert forall|i: int| 0 <= i < first.len() implies (#[trigger] third[i]).packet_id
        == first[i].packet_id && third[i].processing_time == first[i].processing_time by {
        assert(second[i].packet_id == first[i].packet_id);
    }
    assert forall|i: int| 0 <= i < first.len() implies (#[trigger] first[i]).packet_id
        == second[i].packet_id && first[i].processing_time == second[i].processing_time by {
        assert(second[i].packet_id == first[i].packet_id);
    }
    assert(packet_ids(first) =~= packet_ids(third));
    assert(processing_times(first) =~= processing_times(third));
}

/// Generates a workload: a thousand packets numbered from zero, each made at
/// the moment it is drawn with a random processing time between 50 and 150
/// milliseconds, then put in order of arrival.
pub fn generate_random_packet() -> (packets: VecDeque<Packet>)
    ensures
        exists|raw: Seq<Packet>| is_fresh_workload(raw) && packets@ == earliest_first(raw),
        packets@.len() == WORKLOAD_SIZE,
{
    let mut raw: VecDeque<Packet> = VecDeque::new();
    let mut id: u32 = 0;
    while id < 1000
        invariant
            id <= 1000,
            raw@.len() == id,
            forall|i: int|
                0 <= i < raw@.len() ==> (#[trigger] raw@[i]).packet_id == i
                    && SHORTEST_PROCESSING_MILLIS <= raw@[i].processing_time
                    <= LONGEST_PROCESSING_MILLIS,
        decreases 1000 - id,
    {
        let processing_time = random_between(
            SHORTEST_PROCESSING_MILLIS,
            LONGEST_PROCESSING_MILLIS,
        );
        raw.push_back(Packet::new(id, processing_time));
        id += 1;
    }
    let packets = sort_by_arrival_time(&raw);
    proof {
        lemma_earliest_first(raw@);
        assert(is_fresh_workload(raw@));
    }
    packets
}

/// Loads a stored workload of at most a thousand packets: every packet
/// arrives anew, with the identity and the declared processing time that
/// were stored.
pub fn load_data(stored: &Vec<Packet>) -> (packets: VecDeque<Packet>)
    requires
        stored@.len() <= WORKLOAD_SIZE,
    ensures
        same_work(stored@, packets@),
{
    let mut packets: VecDeque<Packet> = VecDeque::new();
    let mut k: usize = 0;
    while k < stored.len()
        invariant
            k <= stored@.len(),
            packets@.len() == k,
            forall|i: int|
                0 <= i < k ==> (#[trigger] packets@[i]).packet_id == stored@[i].packet_id
                    && packets@[i].processing_time == stored@[i].processing_time,
        decreases stored.len() - k,
    {
        packets.push_back(Packet::new(stored[k].packet_id, stored[k].processing_time));
        k += 1;
    }
    packets
}

/// Loads a stored workload if it holds at most a thousand packets, and
/// refuses it otherwise, saying how many it holds.
pub fn try_load_data(stored: &Vec<Packet>) -> (result: Result<VecDeque<Packet>, LoadError>)
    ensures
        stored@.len() > WORKLOAD_SIZE ==> result == Err::<VecDeque<Packet>, LoadError>(
            LoadError::TooManyPackets { count: stored@.len() as usize },
        ),
        stored@.len() <= WORKLOAD_SIZE ==> result is Ok && same_work(stored@, result->Ok_0@),
{
    if stored.len() > WORKLOAD_SIZE {
        return Err(LoadError::TooManyPackets { count: stored.len() });
    }
    Ok(load_data(stored))
}

} // verus!
