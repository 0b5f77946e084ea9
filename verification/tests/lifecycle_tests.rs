use packet_gateway::gateway::{DistributeStatus, Gateway, LoadError};
use packet_gateway::lifecycle::{is_overdue, Cycle, DispatcherAction, WorkerAction};
use packet_gateway::packet::Packet;
use packet_gateway::workload::{
    generate_random_packet, load_data, packet_source, try_load_data, PacketSource,
};
use std::collections::VecDeque;

fn packet(id: u32, arrival: i64, cost: u64) -> Packet {
    Packet { packet_id: id, arrival_time: arrival, processing_time: cost }
}

fn workload(count: u32) -> VecDeque<Packet> {
    (0..count).map(|id| packet(id, 0, 50 + (id as u64 * 7) % 101)).collect()
}

#[test]
fn new_packet_keeps_identity_and_cost_and_arrives_now() {
    let made = Packet::new(42, 75);
    assert_eq!(made.packet_id, 42);
    assert_eq!(made.processing_time, 75);
    assert!(made.arrival_time > 1_600_000_000_000);
    let later = Packet::new(43, 80);
    assert!(later.arrival_time - made.arrival_time < 60_000);
}

#[test]
fn new_packet_at_a_given_time_arrives_then() {
    assert_eq!(Packet::new_at(5, 90, 1234), packet(5, 1234, 90));
    assert_eq!(Packet::new_at(0, 0, i64::MIN), packet(0, i64::MIN, 0));
    let gateway = Gateway::new(0);
    assert!(!gateway.is_timeout_at(&Packet::new_at(5, 90, 1234), 1234));
    assert!(!gateway.is_timeout(&Packet::new(6, 90)));
}

#[test]
fn restamp_changes_only_the_arrival_time() {
    let mut resent = packet(9, 100, 60);
    resent.restamp(7_000);
    assert_eq!(resent, packet(9, 7_000, 60));
}

#[test]
fn init_replaces_the_pending_queue() {
    let mut gateway = Gateway::new(0);
    gateway.pending_queue.push_back(packet(999, 0, 1));
    gateway.channel_queues[2].push_back(packet(998, 0, 1));
    gateway.init(workload(3));
    let ids: Vec<u32> = gateway.pending_queue.iter().map(|p| p.packet_id).collect();
    assert_eq!(ids, vec![0, 1, 2]);
    assert_eq!(gateway.channel_queues[2].len(), 1);
    assert!(!gateway.should_exit);
}

#[test]
fn init_accepts_a_thousand_packets() {
    let mut gateway = Gateway::new(0);
    assert_eq!(gateway.try_init(workload(1000)), Ok(()));
    assert_eq!(gateway.pending_queue.len(), 1000);
    assert!(gateway.is_pending_queue_full());
    assert_eq!(gateway.pending_queue[999].packet_id, 999);
}

#[test]
fn checked_init_replaces_the_pending_queue() {
    let mut gateway = Gateway::new(0);
    gateway.pending_queue.push_back(packet(999, 0, 1));
    gateway.channel_queues[2].push_back(packet(998, 0, 1));
    gateway.should_exit = true;
    assert_eq!(gateway.try_init(workload(2)), Ok(()));
    let ids: Vec<u32> = gateway.pending_queue.iter().map(|p| p.packet_id).collect();
    assert_eq!(ids, vec![0, 1]);
    assert_eq!(gateway.channel_queues[2].len(), 1);
    assert!(gateway.should_exit);
}

#[test]
fn init_refuses_more_than_a_thousand_packets() {
    let mut gateway = Gateway::new(0);
    gateway.pending_queue.push_back(packet(5, 0, 1));
    assert_eq!(gateway.try_init(workload(1001)), Err(LoadError::TooManyPackets { count: 1001 }));
    assert_eq!(gateway.pending_queue.len(), 1);
    assert_eq!(gateway.pending_queue[0], packet(5, 0, 1));
}

#[test]
fn load_keeps_count_identity_and_cost() {
    let stored: Vec<Packet> = vec![packet(3, 11, 150), packet(1, 12, 50), packet(2, 13, 99)];
    let loaded = load_data(&stored);
    assert_eq!(loaded.len(), 3);
    for (old, new) in stored.iter().zip(loaded.iter()) {
        assert_eq!(old.packet_id, new.packet_id);
        assert_eq!(old.processing_time, new.processing_time);
        assert!(new.arrival_time > 1_600_000_000_000);
    }
}

#[test]
fn load_refuses_more_than_a_thousand_packets() {
    let stored: Vec<Packet> = workload(1001).into_iter().collect();
    assert_eq!(try_load_data(&stored), Err(LoadError::TooManyPackets { count: 1001 }));
    let stored: Vec<Packet> = workload(1000).into_iter().collect();
    assert_eq!(try_load_data(&stored).unwrap().len(), 1000);
    assert_eq!(load_data(&stored).len(), 1000);
    assert_eq!(load_data(&Vec::new()).len(), 0);
    let few = vec![packet(8, 1, 120), packet(9, 2, 130)];
    let loaded = try_load_data(&few).unwrap();
    assert_eq!(loaded[0].packet_id, 8);
    assert_eq!(loaded[1].processing_time, 130);
}

#[test]
fn generated_workload_reloads_with_the_same_work() {
    let generated = generate_random_packet();
    let stored: Vec<Packet> = generated.iter().copied().collect();
    let loaded = load_data(&stored);
    assert_eq!(loaded.len(), generated.len());
    for (old, new) in generated.iter().zip(loaded.iter()) {
        assert_eq!(old.packet_id, new.packet_id);
        assert_eq!(old.processing_time, new.processing_time);
    }
    let again: Vec<Packet> = loaded.iter().copied().collect();
    let reloaded = try_load_data(&again).unwrap();
    for (old, new) in generated.iter().zip(reloaded.iter()) {
        assert_eq!(old.packet_id, new.packet_id);
        assert_eq!(old.processing_time, new.processing_time);
    }
}

#[test]
fn generated_workload_has_a_thousand_numbered_packets_in_range() {
    let generated = generate_random_packet();
    assert_eq!(generated.len(), 1000);
    let mut ids: Vec<u32> = generated.iter().map(|p| p.packet_id).collect();
    ids.sort();
    assert_eq!(ids, (0..1000u32).collect::<Vec<u32>>());
    for made in generated.iter() {
        assert!(made.processing_time >= 50 && made.processing_time <= 150);
    }
    for k in 1..generated.len() {
        assert!(generated[k - 1].arrival_time <= generated[k].arrival_time);
    }
    let first = generated[0].processing_time;
    assert!(generated.iter().any(|p| p.processing_time != first));
    let mut gateway = Gateway::new(0);
    assert_eq!(gateway.try_init(generated), Ok(()));
    assert_eq!(gateway.pending_queue.len(), 1000);
}

#[test]
fn source_is_random_only_with_the_flag() {
    let args = |list: &[&str]| list.iter().map(|s| s.to_string()).collect::<Vec<String>>();
    assert_eq!(packet_source(&args(&["gateway", "--random"])), PacketSource::Random);
    assert_eq!(packet_source(&args(&["--random", "x"])), PacketSource::Random);
    assert_eq!(packet_source(&args(&["gateway"])), PacketSource::Stored);
    assert_eq!(packet_source(&args(&[])), PacketSource::Stored);
    assert_eq!(packet_source(&args(&["--randomly", "-random", "random"])), PacketSource::Stored);
}

#[test]
fn dispatcher_pauses_briefly_after_a_success() {
    let mut gateway = Gateway::new(0);
    gateway.pending_queue.push_back(packet(1, 0, 50));
    assert_eq!(
        gateway.dispatch_cycle_at(0, 0),
        Cycle { status: DistributeStatus::Success(0), action: DispatcherAction::Pause(100) }
    );
    assert_eq!(gateway.channel_queues[0].len(), 1);
    assert!(!gateway.should_exit);
}

#[test]
fn dispatcher_backs_off_when_channels_are_full() {
    let mut gateway = Gateway::new(0);
    for c in 0..8 {
        for k in 0..10 {
            gateway.channel_queues[c].push_back(packet(100 + (c * 10 + k) as u32, 0, 10));
        }
    }
    gateway.pending_queue.push_back(packet(1, 0, 50));
    assert_eq!(
        gateway.dispatch_cycle_at(0, 0),
        Cycle { status: DistributeStatus::AllChannelsFull, action: DispatcherAction::Pause(1000) }
    );
    assert_eq!(gateway.pending_queue.len(), 1);
    assert!(!gateway.should_exit);
}

#[test]
fn dispatcher_resends_on_timeout() {
    let mut gateway = Gateway::new(0);
    gateway.pending_queue.push_back(packet(1, 0, 50));
    gateway.pending_queue.push_back(packet(2, 0, 60));
    assert_eq!(
        gateway.dispatch_cycle_at(10_001, 10_005),
        Cycle { status: DistributeStatus::Timeout, action: DispatcherAction::Pause(500) }
    );
    assert_eq!(gateway.pending_queue[0], packet(2, 0, 60));
    assert_eq!(gateway.pending_queue[1], packet(1, 10_005, 50));
    assert!(gateway.channel_queues.iter().all(|q| q.is_empty()));
    assert!(!gateway.should_exit);
}

#[test]
fn dispatcher_stops_and_sets_the_exit_flag_on_an_empty_queue() {
    let mut gateway = Gateway::new(0);
    gateway.channel_queues[4].push_back(packet(1, 0, 50));
    assert_eq!(
        gateway.dispatch_cycle_at(0, 0),
        Cycle { status: DistributeStatus::EmptyQueue, action: DispatcherAction::Stop }
    );
    assert!(gateway.should_exit);
    assert_eq!(gateway.channel_queues[4].len(), 1);
    for c in 0..8 {
        assert_eq!(gateway.worker_step(c), WorkerAction::Exit);
    }
    assert_eq!(gateway.channel_queues[4].len(), 1);
    assert_eq!(gateway.dispatch_cycle().action, DispatcherAction::Stop);
    assert!(gateway.should_exit);
}

#[test]
fn dispatcher_by_the_clock_places_a_fresh_packet() {
    let mut gateway = Gateway::new(0);
    gateway.pending_queue.push_back(Packet::new(1, 50));
    gateway.pending_queue.push_back(packet(2, 0, 60));
    assert_eq!(gateway.dispatch_cycle().action, DispatcherAction::Pause(100));
    assert_eq!(gateway.dispatch_cycle().status, DistributeStatus::Timeout);
    assert_eq!(gateway.pending_queue.len(), 1);
    assert!(gateway.pending_queue[0].arrival_time > 1_600_000_000_000);
}

#[test]
fn worker_waits_on_an_empty_channel() {
    let mut gateway = Gateway::new(0);
    gateway.channel_queues[1].push_back(packet(1, 0, 50));
    assert_eq!(gateway.worker_step(0), WorkerAction::Wait(1));
    assert_eq!(gateway.channel_queues[1].len(), 1);
}

#[test]
fn worker_takes_packets_from_the_front_of_its_channel() {
    let mut gateway = Gateway::new(0);
    gateway.channel_queues[6].push_back(packet(1, 3, 50));
    gateway.channel_queues[6].push_back(packet(2, 4, 60));
    gateway.channel_queues[5].push_back(packet(3, 5, 70));
    assert_eq!(gateway.worker_step(6), WorkerAction::Process(packet(1, 3, 50)));
    assert_eq!(gateway.worker_step(6), WorkerAction::Process(packet(2, 4, 60)));
    assert_eq!(gateway.worker_step(6), WorkerAction::Wait(1));
    assert_eq!(gateway.channel_queues[5].len(), 1);
}

#[test]
fn processing_is_overdue_past_twice_the_declared_time() {
    let declared = packet(1, 0, 50);
    assert!(!is_overdue(0, &declared));
    assert!(!is_overdue(100_000_000, &declared));
    assert!(is_overdue(100_000_001, &declared));
    assert!(is_overdue(1, &packet(2, 0, 0)));
    assert!(!is_overdue(0, &packet(2, 0, 0)));
    assert!(!is_overdue(u64::MAX as u128, &packet(3, 0, u64::MAX)));
}

#[test]
fn a_run_places_every_packet_once_and_ends() {
    let mut gateway = Gateway::new(0);
    gateway.init(workload(300));
    let mut processed: Vec<u32> = Vec::new();
    let mut cycles = 0;
    let mut placed = 0;
    loop {
        cycles += 1;
        assert!(cycles < 10_000);
        let cycle = gateway.dispatch_cycle_at(1, 1);
        let action = cycle.action;
        if let DistributeStatus::Success(_) = cycle.status {
            placed += 1;
        }
        assert_eq!(placed + gateway.pending_queue.len(), 300);
        for c in 0..8 {
            assert!(gateway.channel_queues[c].len() <= 10);
        }
        if action == DispatcherAction::Stop {
            break;
        }
        if action == DispatcherAction::Pause(1000) {
            for c in 0..8 {
                if let WorkerAction::Process(done) = gateway.worker_step(c) {
                    processed.push(done.packet_id);
                }
            }
        }
    }
    assert!(gateway.should_exit);
    assert!(gateway.pending_queue.is_empty());
    assert_eq!(placed, 300);
    for c in 0..8 {
        for left in gateway.channel_queues[c].iter() {
            processed.push(left.packet_id);
        }
        assert_eq!(gateway.worker_step(c), WorkerAction::Exit);
    }
    processed.sort();
    assert_eq!(processed, (0..300u32).collect::<Vec<u32>>());
    assert_eq!(gateway.distribute_one_packet_at(1), DistributeStatus::EmptyQueue);
}
