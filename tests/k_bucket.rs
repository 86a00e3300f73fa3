use kademlia::address::PeerAddress;
use kademlia::k_bucket::{KBucket, KBucketEntry, K};
use kademlia::node_id::NodeId;

fn id(n: u8) -> NodeId {
    let mut id = NodeId { id: [0; 20] };
    id.id[0] = n;
    id.id[19] = n;
    id
}

fn addr(port: u16) -> PeerAddress {
    PeerAddress::V4 { octets: [127, 0, 0, 1], port }
}

fn order(bucket: &KBucket) -> Vec<u8> {
    bucket.entries().iter().map(|e| e.id().id[0]).collect()
}

#[test]
fn bucket_keeps_order_of_insertion() {
    let mut bucket = KBucket::new();
    assert!(bucket.saw_node(&id(1), &addr(1)).is_none());
    assert!(bucket.saw_node(&id(2), &addr(2)).is_none());
    assert!(bucket.saw_node(&id(3), &addr(3)).is_none());
    assert_eq!(order(&bucket), vec![1, 2, 3]);
}

#[test]
fn bucket_promotes_seen_node() {
    let mut bucket = KBucket::new();
    bucket.saw_node(&id(1), &addr(1));
    bucket.saw_node(&id(2), &addr(2));
    bucket.saw_node(&id(3), &addr(3));
    assert!(bucket.saw_node(&id(1), &addr(9)).is_none());
    assert_eq!(order(&bucket), vec![2, 3, 1]);
    // The promoted entry keeps the address it was first seen at.
    assert_eq!(*bucket.entries()[2].address(), addr(1));
}

#[test]
fn bucket_evicts_least_recently_seen() {
    assert_eq!(K, 6);
    let mut bucket = KBucket::new();
    for n in 1..=6u8 {
        assert!(bucket.saw_node(&id(n), &addr(n as u16)).is_none());
    }
    let evicted = bucket.saw_node(&id(7), &addr(7)).unwrap();
    assert_eq!(*evicted.id(), id(1));
    assert_eq!(*evicted.address(), addr(1));
    assert_eq!(order(&bucket), vec![2, 3, 4, 5, 6, 7]);
}

#[test]
fn bucket_never_holds_duplicates_or_more_than_k() {
    let mut bucket = KBucket::new();
    for round in 0..5u8 {
        for n in 1..=9u8 {
            let n = (n * (round + 1)) % 11 + 1;
            bucket.saw_node(&id(n), &addr(n as u16));
            let ids = order(&bucket);
            assert!(ids.len() <= K);
            assert_eq!(*ids.last().unwrap(), n);
            let mut sorted = ids.clone();
            sorted.sort();
            sorted.dedup();
            assert_eq!(sorted.len(), ids.len());
        }
    }
}

#[test]
fn collect_into_skips_seen_ids() {
    let mut bucket = KBucket::new();
    for n in 1..=4u8 {
        bucket.saw_node(&id(n), &addr(n as u16));
    }
    let mut out = vec![KBucketEntry::new(id(9), addr(9))];
    bucket.collect_into(&mut out, &vec![id(2), id(4), id(8)]);
    let ids: Vec<u8> = out.iter().map(|e| e.id().id[0]).collect();
    assert_eq!(ids, vec![9, 1, 3]);
}
