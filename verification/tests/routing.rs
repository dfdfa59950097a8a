use dht::bucket::{Bucket, BUCKET_SIZE};
use dht::routing_table::{RoutingTable, RoutingTableEntry};

fn entry(node_id: u128, address: u64) -> RoutingTableEntry {
    RoutingTableEntry { node_id, address }
}

#[test]
fn bucket_basics() {
    let mut b = Bucket::new(10, 20);
    assert!(b.node_in_range(10) && b.node_in_range(20) && b.node_in_range(15));
    assert!(!b.node_in_range(9) && !b.node_in_range(21));
    assert!(b.nodes.is_empty());
    for i in 0..BUCKET_SIZE {
        assert!(!b.is_full());
        b.insert(entry(10 + i as u128, i as u64));
    }
    assert!(b.is_full());
    assert_eq!(b.nodes.len(), 8);
}

#[test]
fn bucket_find_returns_first_match() {
    let mut b = Bucket::new(0, 100);
    b.insert(entry(5, 1));
    b.insert(entry(7, 2));
    b.insert(entry(5, 3));
    assert_eq!(b.find(5), Some(entry(5, 1)));
    assert_eq!(b.find(7), Some(entry(7, 2)));
    assert_eq!(b.find(6), None);
}

#[test]
fn bucket_split_partitions_at_midpoint() {
    let mut b = Bucket::new(0, 100);
    for (i, id) in [3u128, 70, 50, 51, 99, 0].iter().enumerate() {
        b.insert(entry(*id, i as u64));
    }
    let high = b.split();
    assert_eq!((b.min, b.max), (0, 50));
    assert_eq!((high.min, high.max), (50, 100));
    assert_eq!(b.nodes, vec![entry(3, 0), entry(50, 2), entry(0, 5)]);
    assert_eq!(high.nodes, vec![entry(70, 1), entry(51, 3), entry(99, 4)]);
}

#[test]
fn bucket_split_of_full_range() {
    let mut b = Bucket::new(0, u128::MAX);
    let high = b.split();
    assert_eq!(b.max, u128::MAX / 2);
    assert_eq!(high.min, u128::MAX / 2);
    assert_eq!(high.max, u128::MAX);
}

#[test]
fn fresh_table_covers_everything() {
    let t = RoutingTable::new(42);
    assert!(t.covers(0) && t.covers(u128::MAX) && t.covers(42));
    assert_eq!(t.find_exact(7), None);
    assert!(t.find_closest(7).is_empty());
}

#[test]
fn insert_then_find() {
    let mut t = RoutingTable::new(42);
    t.insert(entry(7, 1));
    t.insert(entry(u128::MAX, 2));
    t.insert(entry(7, 3));
    assert_eq!(t.find_exact(7), Some(entry(7, 1)));
    assert_eq!(t.find_exact(u128::MAX), Some(entry(u128::MAX, 2)));
    assert_eq!(t.find_exact(8), None);
    assert_eq!(t.find_closest(0), vec![entry(7, 1), entry(u128::MAX, 2), entry(7, 3)]);
}

#[test]
fn full_bucket_holding_own_id_splits_and_keeps_upper_half() {
    // Own id 0 lies in the lower half; the new contact lies in the upper half.
    let mut t = RoutingTable::new(0);
    let mid = u128::MAX / 2;
    for i in 0..8u128 {
        t.insert(entry(if i % 2 == 0 { i } else { mid + 1 + i }, i as u64));
    }
    t.insert(entry(u128::MAX, 99));
    assert_eq!(
        t.find_closest(1),
        vec![entry(0, 0), entry(2, 2), entry(4, 4), entry(6, 6)]
    );
    assert_eq!(
        t.find_closest(u128::MAX),
        vec![
            entry(mid + 2, 1),
            entry(mid + 4, 3),
            entry(mid + 6, 5),
            entry(mid + 8, 7),
            entry(u128::MAX, 99)
        ]
    );
    assert_eq!(t.find_exact(u128::MAX), Some(entry(u128::MAX, 99)));
    assert!(t.covers(mid) && t.covers(mid + 1));
}

#[test]
fn split_with_contact_in_lower_half_discards_upper_half() {
    let mut t = RoutingTable::new(0);
    let mid = u128::MAX / 2;
    for i in 0..8u128 {
        t.insert(entry(if i % 2 == 0 { i } else { mid + 1 + i }, i as u64));
    }
    t.insert(entry(100, 99));
    assert_eq!(
        t.find_closest(1),
        vec![entry(0, 0), entry(2, 2), entry(4, 4), entry(6, 6), entry(100, 99)]
    );
    // The upper half and its contacts are gone: nothing covers those ids any more.
    assert!(t.covers(mid));
    assert!(!t.covers(mid + 1));
    assert!(!t.covers(u128::MAX));
}

#[test]
fn split_with_empty_upper_half_keeps_every_entry() {
    // Every contact lies in the lower half, as does the ninth: the discarded
    // upper half held nothing, so the table ends with all nine contacts.
    let mut t = RoutingTable::new(0);
    for i in 0..8u128 {
        t.insert(entry(10 + i, i as u64));
    }
    t.insert(entry(3, 99));
    let mut ids: Vec<u128> = t.entries().iter().map(|e| e.node_id).collect();
    ids.sort();
    assert_eq!(ids, vec![3, 10, 11, 12, 13, 14, 15, 16, 17]);
    assert_eq!(t.find_exact(3), Some(entry(3, 99)));
    assert!(!t.covers(u128::MAX));
}

#[test]
fn full_bucket_without_own_id_drops_contact() {
    let mut t = RoutingTable::new(0);
    let mid = u128::MAX / 2;
    // Eight contacts in the upper half; the ninth splits the only bucket,
    // and the upper bucket (which does not hold the own id 0) takes it.
    for i in 0..8u128 {
        t.insert(entry(mid + 1 + i, i as u64));
    }
    t.insert(entry(mid + 100, 8));
    assert_eq!(t.find_closest(u128::MAX).len(), 9);
    assert!(t.find_closest(0).is_empty());
    // The upper bucket is full and does not hold the own id: contacts are dropped.
    t.insert(entry(mid + 500, 50));
    assert_eq!(t.find_exact(mid + 500), None);
    assert_eq!(t.find_closest(u128::MAX).len(), 9);
    // The lower bucket still has room.
    t.insert(entry(5, 51));
    assert_eq!(t.find_exact(5), Some(entry(5, 51)));
}

#[test]
fn remove_then_find() {
    let mut t = RoutingTable::new(42);
    t.insert(entry(7, 1));
    t.insert(entry(9, 2));
    t.insert(entry(7, 3));
    t.remove(7);
    assert_eq!(t.find_exact(7), None);
    assert_eq!(t.find_exact(9), Some(entry(9, 2)));
    assert_eq!(t.find_closest(0), vec![entry(9, 2)]);
    t.remove(1234);
    assert_eq!(t.find_closest(0), vec![entry(9, 2)]);
}
