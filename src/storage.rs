//! The keys and values a node stores, and the key of a value.

use crate::node_id::NodeId;
use vstd::prelude::*;

verus! {

/// A key in the distributed store.
pub type Key = NodeId;

/// A value in the store: an opaque blob.
pub type Value = Vec<u8>;

/// The 64-bit SipHash-2-4, with both keys zero, of a byte string.
pub uninterp spec fn sip_hash_of(bytes: Seq<u8>) -> u64;

/// Relies on `std::hash::SipHasher`: `new` sets both keys to zero, and
/// `finish` after one `write` gives the SipHash-2-4 of the bytes, which depends
/// on the bytes alone.
#[verifier::external_body]
#[allow(deprecated)]
fn sip_hash(val: &[u8]) -> (r: u64)
    ensures
        r == sip_hash_of(val@),
{
    let mut hasher = std::hash::SipHasher::new();
    std::hash::Hasher::write(&mut hasher, val);
    std::hash::Hasher::finish(&hasher)
}

/// The key bytes for a 64-bit hash: the hash little-endian in the first eight
/// bytes, zero after.
pub open spec fn key_bytes_of_hash(h: u64) -> Seq<u8> {
    Seq::new(20, |i: int| if i < 8 { ((h >> ((8 * i) as u64)) & 0xffu64) as u8 } else { 0u8 })
}

/// The key for a 64-bit hash of a value.
pub fn key_from_hash(h: u64) -> (r: Key)
    ensures
        r@ == key_bytes_of_hash(h),
{
    let mut bytes = [0u8; 20];
    let mut i: usize = 0;
    while i < 8
        invariant
            i <= 8,
            forall|j: int| 0 <= j < i ==> bytes@[j] == key_bytes_of_hash(h)[j],
            forall|j: int| 8 <= j < 20 ==> bytes@[j] == 0u8,
        decreases 8 - i,
    {
        bytes[i] = ((h >> (8 * i as u64)) & 0xff) as u8;
        i += 1;
    }
    let r = NodeId::from_bytes(bytes);
    assert(r@ =~= key_bytes_of_hash(h));
    r
}

/// Map unequivocally a given `Value` to a `Key`: the key of the value's
/// 64-bit SipHash.
pub fn hash(val: &[u8]) -> (r: Key)
    ensures
        r@ == key_bytes_of_hash(sip_hash_of(val@)),
{
    let h = sip_hash(val);
    key_from_hash(h)
}

/// The keys and values a node stores, each key at most once. Inserting a
/// key that is there overwrites its value.
pub struct Store {
    entries: Vec<(Key, Value)>,
}

impl View for Store {
    type V = Map<Seq<u8>, Seq<u8>>;

    closed spec fn view(&self) -> Map<Seq<u8>, Seq<u8>> {
        Map::new(
            |k: Seq<u8>| self.holds_key(k),
            |k: Seq<u8>| self.entries@[self.index_of(k)].1@,
        )
    }
}

impl Store {
    /// Some entry has key `k`.
    closed spec fn holds_key(&self, k: Seq<u8>) -> bool {
        exists|i: int| 0 <= i < self.entries@.len() && self.entries@[i].0@ == k
    }

    /// The position of key `k`, where it is held.
    closed spec fn index_of(&self, k: Seq<u8>) -> int {
        choose|i: int| 0 <= i < self.entries@.len() && self.entries@[i].0@ == k
    }

    /// No key is held twice.
    pub closed spec fn wf(&self) -> bool {
        forall|i: int, j: int|
            0 <= i < self.entries@.len() && 0 <= j < self.entries@.len() && i != j
                ==> self.entries@[i].0@ != self.entries@[j].0@
    }

    proof fn lemma_entry(&self, i: int)
        requires
            self.wf(),
            0 <= i < self.entries@.len(),
        ensures
            self@.contains_key(self.entries@[i].0@),
            self.index_of(self.entries@[i].0@) == i,
            self@[self.entries@[i].0@] == self.entries@[i].1@,
    {
        let k = self.entries@[i].0@;
        assert(self.holds_key(k));
    }

    /// An empty store.
    pub fn new() -> (r: Store)
        ensures
            r.wf(),
            r@ == Map::<Seq<u8>, Seq<u8>>::empty(),
    {
        let r = Store { entries: Vec::new() };
        assert(r@ =~= Map::<Seq<u8>, Seq<u8>>::empty());
        r
    }

    fn position(&self, key: &Key) -> (r: Option<usize>)
        ensures
            match r {
                Some(i) => i < self.entries@.len() && self.entries@[i as int].0@ == key@,
                None => !self.holds_key(key@),
            },
    {
        let mut i: usize = 0;
        while i < self.entries.len()
            invariant
                i <= self.entries@.len(),
                forall|j: int| 0 <= j < i ==> self.entries@[j].0@ != key@,
            decreases self.entries@.len() - i,
        {
            if self.entries[i].0 == *key {
                return Some(i);
            }
            i += 1;
        }
        None
    }

    /// The value stored under `key`, if any.
    pub fn get(&self, key: &Key) -> (r: Option<&Value>)
        requires
            self.wf(),
        ensures
            r is Some <==> self@.contains_key(key@),
            r matches Some(v) ==> v@ == self@[key@],
    {
        match self.position(key) {
            Some(i) => {
                proof {
                    self.lemma_entry(i as int);
                }
                Some(&self.entries[i].1)
            },
            None => None,
        }
    }

    /// Stores `value` under `key`, replacing any value it had.
    pub fn insert(&mut self, key: Key, value: Value)
        requires
            old(self).wf(),
        ensures
            final(self).wf(),
            final(self)@ == old(self)@.insert(key@, value@),
    {
        let ghost old_store = *self;
        match self.position(&key) {
            Some(i) => {
                self.entries.set(i, (key, value));
                proof {
                    assert forall|k: Seq<u8>|
                        #![trigger self@.contains_key(k)]
                        self@.contains_key(k) <==> old_store@.insert(key@, value@).contains_key(k)
                    by {
                        if old_store.holds_key(k) {
                            let j = old_store.index_of(k);
                            assert(self.entries@[j].0@ == k);
                        }
                        if self.holds_key(k) {
                            let j = self.index_of(k);
                            assert(old_store.entries@[j].0@ == k);
                        }
                    }
                    assert forall|k: Seq<u8>| #[trigger]
                        self@.contains_key(k) implies self@[k] == old_store@.insert(
                            key@,
                            value@,
                        )[k] by {
                        let j = self.index_of(k);
                        self.lemma_entry(j);
                        if j != i {
                            old_store.lemma_entry(j);
                        }
                    }
                    assert(self@ =~= old_store@.insert(key@, value@));
                }
            },
            None => {
                self.entries.push((key, value));
                proof {
                    let n = old_store.entries@.len() as int;
                    assert forall|k: Seq<u8>|
                        #![trigger self@.contains_key(k)]
                        self@.contains_key(k) <==> old_store@.insert(key@, value@).contains_key(k)
                    by {
                        if old_store.holds_key(k) {
                            let j = old_store.index_of(k);
                            assert(self.entries@[j].0@ == k);
                        }
                        if self.holds_key(k) && k != key@ {
                            let j = self.index_of(k);
                            assert(old_store.entries@[j].0@ == k);
                        }
                        if k == key@ {
                            assert(self.entries@[n].0@ == k);
                        }
                    }
                    assert forall|k: Seq<u8>| #[trigger]
                        self@.contains_key(k) implies self@[k] == old_store@.insert(
                            key@,
                            value@,
                        )[k] by {
                        let j = self.index_of(k);
                        self.lemma_entry(j);
                        if j != n {
                            old_store.lemma_entry(j);
                        }
                    }
                    assert(self@ =~= old_store@.insert(key@, value@));
                }
            },
        }
    }
}

} // verus!
