use packet_gateway::gateway::{DistributeStatus, Gateway};
use packet_gateway::packet::Packet;

fn packet(id: u32, arrival: i64, cost: u64) -> Packet {
    Packet { packet_id: id, arrival_time: arrival, processing_time: cost }
}

fn ids(gateway: &Gateway, channel: usize) -> Vec<u32> {
    gateway.channel_queues[channel].iter().map(|p| p.packet_id).collect()
}

fn pending_ids(gateway: &Gateway) -> Vec<u32> {
    gateway.pending_queue.iter().map(|p| p.packet_id).collect()
}

fn all_ids_sorted(gateway: &Gateway) -> Vec<u32> {
    let mut all = pending_ids(gateway);
    for c in 0..8 {
        all.extend(ids(gateway, c));
    }
    all.sort();
    all
}

fn fill_all_channels(gateway: &mut Gateway) {
    for c in 0..8 {
        for k in 0..10 {
            gateway.channel_queues[c].push_back(packet(1000 + (c * 10 + k) as u32, 0, 20));
        }
    }
}

#[test]
fn new_gateway_has_empty_queues_and_default_limits() {
    let gateway = Gateway::new(7);
    assert_eq!(gateway.id, 7);
    assert!(gateway.pending_queue.is_empty());
    assert_eq!(gateway.channel_queues.len(), 8);
    for c in 0..8 {
        assert!(gateway.channel_queues[c].is_empty());
        assert!(gateway.is_channel_queue_empty(c));
        assert!(!gateway.is_channel_queue_full(c));
    }
    assert_eq!(gateway.pending_queue_capacity, 1000);
    assert_eq!(gateway.channel_queue_capacity, 10);
    assert!(!gateway.should_exit);
    assert_eq!(gateway.time_threshold, 10_000);
    assert!(gateway.is_pending_queue_empty());
    assert!(!gateway.is_pending_queue_full());
}

#[test]
fn empty_pending_queue_reports_empty_queue() {
    let mut gateway = Gateway::new(0);
    assert_eq!(gateway.distribute_one_packet_at(5), DistributeStatus::EmptyQueue);
    assert_eq!(gateway.distribute_one_packet(), DistributeStatus::EmptyQueue);
    assert!(all_ids_sorted(&gateway).is_empty());
}

#[test]
fn next_packet_goes_to_the_channel_with_no_load() {
    let mut gateway = Gateway::new(0);
    let loads: [u64; 8] = [30, 10, 50, 0, 60, 70, 80, 90];
    for (c, load) in loads.iter().enumerate() {
        if *load > 0 {
            gateway.channel_queues[c].push_back(packet(100 + c as u32, 0, *load));
        }
    }
    gateway.pending_queue.push_back(packet(1, 0, 40));
    assert_eq!(gateway.channel_load(0), 30);
    assert_eq!(gateway.channel_load(3), 0);
    assert_eq!(gateway.channels_by_load(), vec![3, 1, 0, 2, 4, 5, 6, 7]);
    assert_eq!(gateway.distribute_one_packet_at(0), DistributeStatus::Success(3));
    assert_eq!(ids(&gateway, 3), vec![1]);
    assert!(gateway.pending_queue.is_empty());
}

#[test]
fn among_channels_of_equal_load_the_lowest_index_wins() {
    let mut gateway = Gateway::new(0);
    gateway.channel_queues[0].push_back(packet(100, 0, 30));
    gateway.channel_queues[1].push_back(packet(101, 0, 10));
    gateway.channel_queues[2].push_back(packet(102, 0, 50));
    gateway.pending_queue.push_back(packet(1, 0, 40));
    gateway.pending_queue.push_back(packet(2, 0, 45));
    assert_eq!(gateway.distribute_one_packet_at(0), DistributeStatus::Success(3));
    assert_eq!(gateway.distribute_one_packet_at(0), DistributeStatus::Success(4));
    assert_eq!(ids(&gateway, 3), vec![1]);
    assert_eq!(ids(&gateway, 4), vec![2]);
}

#[test]
fn load_is_the_sum_of_declared_times_not_the_count() {
    let mut gateway = Gateway::new(0);
    for c in 0..8 {
        gateway.channel_queues[c].push_back(packet(100 + c as u32, 0, 100));
    }
    gateway.channel_queues[5].clear();
    gateway.channel_queues[5].push_back(packet(200, 0, 20));
    gateway.channel_queues[5].push_back(packet(201, 0, 30));
    gateway.channel_queues[5].push_back(packet(202, 0, 40));
    assert_eq!(gateway.channel_load(5), 90);
    gateway.pending_queue.push_back(packet(1, 0, 10));
    assert_eq!(gateway.distribute_one_packet_at(0), DistributeStatus::Success(5));
    assert_eq!(ids(&gateway, 5), vec![200, 201, 202, 1]);
}

#[test]
fn load_of_large_declared_times_does_not_wrap() {
    let mut gateway = Gateway::new(0);
    gateway.channel_queues[2].push_back(packet(1, 0, u64::MAX));
    gateway.channel_queues[2].push_back(packet(2, 0, u64::MAX));
    assert_eq!(gateway.channel_load(2), 2 * (u64::MAX as u128));
}

#[test]
fn a_full_channel_is_passed_over_even_if_least_loaded() {
    let mut gateway = Gateway::new(0);
    for k in 0..10 {
        gateway.channel_queues[0].push_back(packet(100 + k, 0, 1));
    }
    for c in 1..8 {
        gateway.channel_queues[c].push_back(packet(200 + c as u32, 0, 1000 + c as u64));
    }
    gateway.pending_queue.push_back(packet(1, 0, 5));
    assert!(gateway.is_channel_queue_full(0));
    assert_eq!(gateway.distribute_one_packet_at(0), DistributeStatus::Success(1));
    assert_eq!(gateway.channel_queues[0].len(), 10);
}

#[test]
fn shorter_packet_is_assigned_first() {
    let mut gateway = Gateway::new(0);
    gateway.pending_queue.push_back(packet(1, 0, 150));
    gateway.pending_queue.push_back(packet(2, 0, 50));
    assert_eq!(gateway.distribute_one_packet_at(0), DistributeStatus::Success(0));
    assert_eq!(ids(&gateway, 0), vec![2]);
    assert_eq!(pending_ids(&gateway), vec![1]);
    assert_eq!(gateway.distribute_one_packet_at(0), DistributeStatus::Success(1));
    assert_eq!(ids(&gateway, 1), vec![1]);
    assert!(gateway.pending_queue.is_empty());
}

#[test]
fn packets_of_equal_cost_keep_their_order() {
    let mut gateway = Gateway::new(0);
    gateway.pending_queue.push_back(packet(1, 0, 70));
    gateway.pending_queue.push_back(packet(2, 0, 60));
    gateway.pending_queue.push_back(packet(3, 0, 70));
    gateway.pending_queue.push_back(packet(4, 0, 60));
    gateway.pending_queue.push_back(packet(5, 0, 60));
    fill_all_channels(&mut gateway);
    assert_eq!(gateway.distribute_one_packet_at(0), DistributeStatus::AllChannelsFull);
    assert_eq!(pending_ids(&gateway), vec![2, 4, 5, 1, 3]);
}

#[test]
fn full_channels_move_no_packet() {
    let mut gateway = Gateway::new(0);
    fill_all_channels(&mut gateway);
    gateway.pending_queue.push_back(packet(1, 0, 90));
    gateway.pending_queue.push_back(packet(2, 0, 80));
    let before = all_ids_sorted(&gateway);
    assert_eq!(gateway.distribute_one_packet_at(100), DistributeStatus::AllChannelsFull);
    assert_eq!(gateway.pending_queue.len(), 2);
    for c in 0..8 {
        assert_eq!(gateway.channel_queues[c].len(), 10);
    }
    assert_eq!(all_ids_sorted(&gateway), before);
}

#[test]
fn timeout_is_reported_only_past_the_threshold() {
    let mut gateway = Gateway::new(0);
    let waiting = packet(1, 5_000, 50);
    assert!(!gateway.is_timeout_at(&waiting, 15_000));
    assert!(gateway.is_timeout_at(&waiting, 15_001));
    assert!(!gateway.is_timeout_at(&waiting, 0));
    gateway.pending_queue.push_back(waiting);
    assert_eq!(gateway.distribute_one_packet_at(15_001), DistributeStatus::Timeout);
    assert_eq!(pending_ids(&gateway), vec![1]);
    assert!(gateway.channel_queues.iter().all(|q| q.is_empty()));
    assert_eq!(gateway.distribute_one_packet_at(15_000), DistributeStatus::Success(0));
}

#[test]
fn timeout_does_not_overflow_at_the_ends_of_time() {
    let gateway = Gateway::new(0);
    assert!(gateway.is_timeout_at(&packet(1, i64::MIN, 1), i64::MAX));
    assert!(!gateway.is_timeout_at(&packet(1, i64::MAX, 1), i64::MIN));
}

#[test]
fn timeout_looks_at_the_front_before_sorting() {
    let mut gateway = Gateway::new(0);
    gateway.pending_queue.push_back(packet(1, 0, 150));
    gateway.pending_queue.push_back(packet(2, 20_000, 50));
    assert_eq!(gateway.distribute_one_packet_at(20_000), DistributeStatus::Timeout);
    assert_eq!(pending_ids(&gateway), vec![1, 2]);
}

#[test]
fn stalled_packet_is_resent_to_the_tail_with_a_fresh_arrival_time() {
    let mut gateway = Gateway::new(0);
    fill_all_channels(&mut gateway);
    gateway.pending_queue.push_back(packet(1, 0, 60));
    gateway.pending_queue.push_back(packet(2, 0, 70));
    gateway.pending_queue.push_back(packet(3, 0, 80));
    assert_eq!(gateway.distribute_one_packet_at(9_000), DistributeStatus::AllChannelsFull);
    assert_eq!(gateway.distribute_one_packet_at(10_001), DistributeStatus::Timeout);
    gateway.resend_packet_at(10_002);
    assert_eq!(pending_ids(&gateway), vec![2, 3, 1]);
    assert_eq!(gateway.pending_queue[2], packet(1, 10_002, 60));
    assert_eq!(gateway.pending_queue[0], packet(2, 0, 70));
    assert_eq!(gateway.pending_queue.len(), 3);
    let held = all_ids_sorted(&gateway);
    assert_eq!(held.iter().filter(|id| **id == 1).count(), 1);
    for c in 0..8 {
        assert!(!ids(&gateway, c).contains(&1));
    }
}

#[test]
fn resend_by_the_clock_refreshes_the_arrival_time() {
    let mut gateway = Gateway::new(0);
    gateway.pending_queue.push_back(packet(1, 0, 60));
    gateway.pending_queue.push_back(packet(2, 0, 70));
    assert!(gateway.is_timeout(&packet(1, 0, 60)));
    assert_eq!(gateway.distribute_one_packet(), DistributeStatus::Timeout);
    gateway.resend_packet();
    assert_eq!(pending_ids(&gateway), vec![2, 1]);
    let resent = gateway.pending_queue[1];
    assert_eq!(resent.processing_time, 60);
    assert!(resent.arrival_time > 1_600_000_000_000);
    assert!(!gateway.is_timeout(&resent));
}

#[test]
fn fresh_packets_are_distributed_by_the_clock() {
    let mut gateway = Gateway::new(0);
    gateway.pending_queue.push_back(Packet::new(1, 150));
    gateway.pending_queue.push_back(Packet::new(2, 50));
    assert_eq!(gateway.distribute_one_packet(), DistributeStatus::Success(0));
    assert_eq!(ids(&gateway, 0), vec![2]);
}

#[test]
fn channels_never_hold_more_than_their_bound() {
    let mut gateway = Gateway::new(0);
    for id in 0..200u32 {
        gateway.pending_queue.push_back(packet(id, 0, 50 + (id as u64 * 37) % 101));
    }
    let before = all_ids_sorted(&gateway);
    let mut placed = 0;
    loop {
        match gateway.distribute_one_packet_at(1) {
            DistributeStatus::Success(c) => {
                placed += 1;
                assert!(c < 8);
            }
            DistributeStatus::AllChannelsFull => break,
            other => panic!("unexpected status {:?}", other),
        }
        for c in 0..8 {
            assert!(gateway.channel_queues[c].len() <= 10);
        }
        assert_eq!(all_ids_sorted(&gateway), before);
    }
    assert_eq!(placed, 80);
    assert_eq!(gateway.pending_queue.len(), 120);
    for c in 0..8 {
        assert!(gateway.is_channel_queue_full(c));
    }
}

#[test]
fn no_packet_is_in_two_channels() {
    let mut gateway = Gateway::new(0);
    for id in 0..80u32 {
        gateway.pending_queue.push_back(packet(id, 0, 50 + (id as u64 * 13) % 101));
    }
    while gateway.distribute_one_packet_at(0) != DistributeStatus::EmptyQueue {}
    let mut seen = Vec::new();
    for c in 0..8 {
        for id in ids(&gateway, c) {
            assert!(!seen.contains(&id));
            seen.push(id);
        }
    }
    seen.sort();
    assert_eq!(seen, (0..80u32).collect::<Vec<u32>>());
}

#[test]
fn pending_queue_fullness_follows_its_capacity() {
    let mut gateway = Gateway::new(0);
    gateway.pending_queue_capacity = 2;
    gateway.pending_queue.push_back(packet(1, 0, 1));
    assert!(!gateway.is_pending_queue_full());
    gateway.pending_queue.push_back(packet(2, 0, 1));
    assert!(gateway.is_pending_queue_full());
    assert!(!gateway.is_pending_queue_empty());
}
