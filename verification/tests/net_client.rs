use rollback_netcode::net_client::{due, DelayedPackets};

#[test]
fn a_packet_is_due_once_it_has_waited_longer_than_the_delay() {
    assert!(!due(100, 100, 50));
    assert!(!due(100, 150, 50));
    assert!(due(100, 151, 50));
    assert!(due(0, 1, 0));
}

#[test]
fn without_a_delay_every_packet_is_due() {
    assert!(due(100, 0, 0));
    assert!(due(u128::MAX, 0, 0));
}

#[test]
fn a_packet_whose_time_never_comes_waits() {
    assert!(!due(u128::MAX, u128::MAX, 1));
    assert!(!due(u128::MAX - 1, u128::MAX, 1));
    assert!(due(u128::MAX - 2, u128::MAX, 1));
}

#[test]
fn the_last_length_is_of_the_packet_queued_last() {
    let mut queue = DelayedPackets::new();
    assert_eq!(queue.last_len(), 0);
    queue.push(vec![1, 2, 3], 10);
    assert_eq!(queue.last_len(), 3);
    queue.push(vec![], 11);
    assert_eq!(queue.last_len(), 0);
    queue.push(vec![4, 5], 12);
    assert_eq!(queue.last_len(), 2);
    assert_eq!(queue.len(), 3);
}

#[test]
fn due_packets_come_in_the_order_they_were_queued() {
    let mut queue = DelayedPackets::new();
    queue.push(vec![1], 10);
    queue.push(vec![2], 30);
    queue.push(vec![3], 20);
    queue.push(vec![4], 40);
    assert_eq!(queue.due_packets(36, 15), vec![&[1u8][..], &[3u8][..]]);
    assert_eq!(queue.len(), 4);
    queue.drop_due(36, 15);
    assert_eq!(queue.len(), 2);
    assert!(queue.due_packets(36, 15).is_empty());
    assert_eq!(queue.due_packets(46, 15), vec![&[2u8][..]]);
    assert_eq!(queue.due_packets(0, 0), vec![&[2u8][..], &[4u8][..]]);
    queue.drop_due(0, 0);
    assert_eq!(queue.len(), 0);
    assert!(queue.due_packets(100, 0).is_empty());
}
