use kademlia::node_id::NodeId;
use kademlia::storage::{hash, key_from_hash, Store};
#[allow(deprecated)]
use std::hash::{Hasher, SipHasher};

#[test]
fn key_from_hash_is_little_endian() {
    let key = key_from_hash(0x0807_0605_0403_0201);
    let mut expected = [0u8; 20];
    for i in 0..8 {
        expected[i] = (i + 1) as u8;
    }
    assert_eq!(key.id, expected);
    assert_eq!(key_from_hash(0).id, [0u8; 20]);
}

#[test]
#[allow(deprecated)]
fn hash_is_siphash_of_the_bytes() {
    let mut hasher = SipHasher::new();
    hasher.write(b"foo");
    let expected = key_from_hash(hasher.finish());
    assert_eq!(hash(b"foo"), expected);
    assert_eq!(hash(b"foo"), hash(b"foo"));
    assert_ne!(hash(b"foo"), hash(b"bar"));
    assert_ne!(hash(b"foo"), NodeId { id: [0; 20] });
    assert_eq!(&hash(b"foo").id[8..], &[0u8; 12]);
}

#[test]
fn store_overwrites_and_gets() {
    let mut store = Store::new();
    let k1 = hash(b"one");
    let k2 = hash(b"two");
    assert_eq!(store.get(&k1), None);
    store.insert(k1, b"a".to_vec());
    store.insert(k2, b"b".to_vec());
    assert_eq!(store.get(&k1), Some(&b"a".to_vec()));
    store.insert(k1, b"c".to_vec());
    assert_eq!(store.get(&k1), Some(&b"c".to_vec()));
    assert_eq!(store.get(&k2), Some(&b"b".to_vec()));
    assert_eq!(store.get(&hash(b"three")), None);
}
