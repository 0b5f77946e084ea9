use packet_gateway::order::order_by_key;
use packet_gateway::packet::Packet;
use packet_gateway::queue::{arranged, sort_by_arrival_time, sort_by_processing_time};
use std::collections::VecDeque;

fn queue_of(items: &[(u32, i64, u64)]) -> VecDeque<Packet> {
    items
        .iter()
        .map(|(id, arrival, cost)| Packet {
            packet_id: *id,
            arrival_time: *arrival,
            processing_time: *cost,
        })
        .collect()
}

fn ids(queue: &VecDeque<Packet>) -> Vec<u32> {
    queue.iter().map(|p| p.packet_id).collect()
}

#[test]
fn order_of_no_keys_is_empty() {
    assert_eq!(order_by_key(&vec![]), Vec::<usize>::new());
}

#[test]
fn order_lists_indices_by_ascending_key() {
    assert_eq!(order_by_key(&vec![30, 10, 50, 0]), vec![3, 1, 0, 2]);
}

#[test]
fn order_keeps_equal_keys_in_place() {
    assert_eq!(order_by_key(&vec![3, 1, 2, 1, 3, 1]), vec![1, 3, 5, 2, 0, 4]);
    assert_eq!(order_by_key(&vec![7, 7, 7]), vec![0, 1, 2]);
}

#[test]
fn order_handles_the_largest_keys() {
    assert_eq!(order_by_key(&vec![u128::MAX, 0, u128::MAX - 1]), vec![1, 2, 0]);
}

#[test]
fn order_of_sorted_and_reversed_keys() {
    assert_eq!(order_by_key(&vec![1, 2, 3, 4]), vec![0, 1, 2, 3]);
    assert_eq!(order_by_key(&vec![4, 3, 2, 1]), vec![3, 2, 1, 0]);
}

#[test]
fn arranged_reads_the_queue_in_the_given_order() {
    let queue = queue_of(&[(10, 0, 1), (11, 0, 2), (12, 0, 3)]);
    assert_eq!(ids(&arranged(&queue, &vec![2, 0, 1])), vec![12, 10, 11]);
    assert_eq!(ids(&arranged(&queue, &vec![])), Vec::<u32>::new());
}

#[test]
fn sorting_by_processing_time_is_stable() {
    let queue = queue_of(&[(1, 5, 150), (2, 4, 50), (3, 3, 100), (4, 2, 50), (5, 1, 150)]);
    let sorted = sort_by_processing_time(&queue);
    assert_eq!(ids(&sorted), vec![2, 4, 3, 1, 5]);
    assert_eq!(sorted[0], Packet { packet_id: 2, arrival_time: 4, processing_time: 50 });
    assert_eq!(ids(&queue), vec![1, 2, 3, 4, 5]);
}

#[test]
fn sorting_by_arrival_time_orders_negative_times_first() {
    let queue = queue_of(&[(1, 5, 1), (2, -7, 1), (3, 0, 1), (4, i64::MIN, 1), (5, i64::MAX, 1), (6, -7, 1)]);
    assert_eq!(ids(&sort_by_arrival_time(&queue)), vec![4, 2, 6, 3, 1, 5]);
}

#[test]
fn sorting_an_empty_queue_gives_an_empty_queue() {
    let queue: VecDeque<Packet> = VecDeque::new();
    assert!(sort_by_processing_time(&queue).is_empty());
    assert!(sort_by_arrival_time(&queue).is_empty());
}
