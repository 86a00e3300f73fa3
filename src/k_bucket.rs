//! A K-bucket.

use crate::address::PeerAddress;
use crate::node_id::NodeId;
use std::collections::VecDeque;
use vstd::prelude::*;

verus! {

/// The `k` constant as described in the paper:
///
/// > k is chosen such that any given k nodes are very unlikely to
/// > fail within an hour of each other (for example k = 20).
///
/// In our application, since we don't have that many nodes, 6 is probably fine.
pub const K: usize = 6;

/// A k-bucket entry representing a single node, with information necessary to
/// contact it.
#[derive(Clone, Copy, Debug)]
pub struct KBucketEntry {
    /// The id of this node.
    pub node_id: NodeId,
    /// The socket address of the node.
    pub ip: PeerAddress,
}

impl KBucketEntry {
    /// Trivially constructs a new KBucketEntry for a given node.
    pub fn new(node_id: NodeId, ip: PeerAddress) -> (r: KBucketEntry)
        ensures
            r.node_id == node_id,
            r.ip == ip,
    {
        KBucketEntry { node_id, ip }
    }

    /// Get the id associated with this entry.
    pub fn id(&self) -> (r: &NodeId)
        ensures
            *r == self.node_id,
    {
        &self.node_id
    }

    /// Get the address associated with this entry.
    pub fn address(&self) -> (r: &PeerAddress)
        ensures
            *r == self.ip,
    {
        &self.ip
    }
}

/// Some id of `ids` has the bytes `id`.
pub open spec fn id_in(ids: Seq<NodeId>, id: Seq<u8>) -> bool {
    exists|i: int| 0 <= i < ids.len() && ids[i]@ == id
}

/// Some entry of `s` has the id `id`.
pub open spec fn has_id(s: Seq<KBucketEntry>, id: Seq<u8>) -> bool {
    exists|i: int| 0 <= i < s.len() && s[i].node_id@ == id
}

/// No two entries of `s` share an id.
pub open spec fn ids_unique(s: Seq<KBucketEntry>) -> bool {
    forall|i: int, j: int|
        0 <= i < s.len() && 0 <= j < s.len() && i != j ==> s[i].node_id@ != s[j].node_id@
}

/// The entries of `s` whose id is not in `seen`, in their order.
pub open spec fn unseen(s: Seq<KBucketEntry>, seen: Seq<NodeId>) -> Seq<KBucketEntry>
    decreases s.len(),
{
    if s.len() == 0 {
        Seq::empty()
    } else {
        let rest = unseen(s.drop_last(), seen);
        if id_in(seen, s.last().node_id@) {
            rest
        } else {
            rest.push(s.last())
        }
    }
}

/// The entries after `id` was seen at `addr`, before any eviction: an entry
/// with that id moves to the back, keeping its address; otherwise a new entry
/// joins at the back.
pub open spec fn promote(s: Seq<KBucketEntry>, id: NodeId, addr: PeerAddress) -> Seq<
    KBucketEntry,
> {
    if has_id(s, id@) {
        let i = choose|i: int| 0 <= i < s.len() && s[i].node_id@ == id@;
        s.remove(i).push(s[i])
    } else {
        s.push(KBucketEntry { node_id: id, ip: addr })
    }
}

/// The entries after `id` was seen at `addr`: promoted, then the front entry
/// evicted where more than `K` remain.
pub open spec fn saw(s: Seq<KBucketEntry>, id: NodeId, addr: PeerAddress) -> Seq<KBucketEntry> {
    let p = promote(s, id, addr);
    if p.len() > K {
        p.drop_first()
    } else {
        p
    }
}

/// Every entry after `saw` was there before, or is the new entry for `id`.
pub proof fn lemma_saw_entries(s: Seq<KBucketEntry>, id: NodeId, addr: PeerAddress)
    ensures
        forall|k: int|
            0 <= k < saw(s, id, addr).len() ==> s.contains(#[trigger] saw(s, id, addr)[k])
                || saw(s, id, addr)[k] == (KBucketEntry { node_id: id, ip: addr }),
{
    let p = promote(s, id, addr);
    assert forall|k: int| 0 <= k < p.len() implies s.contains(#[trigger] p[k]) || p[k] == (
    KBucketEntry { node_id: id, ip: addr }) by {
        if has_id(s, id@) {
            let i = choose|i: int| 0 <= i < s.len() && s[i].node_id@ == id@;
            if k < p.len() - 1 {
                let k0 = if k < i { k } else { k + 1 };
                assert(p[k] == s[k0]);
            } else {
                assert(p[k] == s[i]);
            }
        } else if k < s.len() {
            assert(p[k] == s[k]);
        }
    }
    let t = saw(s, id, addr);
    assert forall|k: int| 0 <= k < t.len() implies s.contains(#[trigger] t[k]) || t[k] == (
    KBucketEntry { node_id: id, ip: addr }) by {
        if p.len() > K {
            assert(t[k] == p[k + 1]);
        }
    }
}

/// The entries of `unseen(s, seen)` are entries of `s` whose id is not in
/// `seen`, and keep the ids of `s` distinct.
pub proof fn lemma_unseen(s: Seq<KBucketEntry>, seen: Seq<NodeId>)
    ensures
        forall|k: int|
            0 <= k < unseen(s, seen).len() ==> s.contains(#[trigger] unseen(s, seen)[k])
                && !id_in(seen, unseen(s, seen)[k].node_id@),
        unseen(s, seen).len() <= s.len(),
        ids_unique(s) ==> ids_unique(unseen(s, seen)),
    decreases s.len(),
{
    if s.len() > 0 {
        let init = s.drop_last();
        lemma_unseen(init, seen);
        let rest = unseen(init, seen);
        let u = unseen(s, seen);
        assert forall|k: int| 0 <= k < u.len() implies s.contains(#[trigger] u[k]) && !id_in(
            seen,
            u[k].node_id@,
        ) by {
            if k < rest.len() {
                assert(u[k] == rest[k]);
                let w = choose|w: int| 0 <= w < init.len() && init[w] == rest[k];
                assert(s[w] == u[k]);
            } else {
                assert(u[k] == s.last());
                assert(s[s.len() - 1] == u[k]);
            }
        }
        if ids_unique(s) {
            assert(ids_unique(init)) by {
                assert forall|a: int, b: int|
                    0 <= a < init.len() && 0 <= b < init.len() && a != b implies init[a].node_id@
                    != init[b].node_id@ by {
                    assert(init[a] == s[a] && init[b] == s[b]);
                }
            }
            assert forall|a: int, b: int|
                0 <= a < u.len() && 0 <= b < u.len() && a != b implies u[a].node_id@
                != u[b].node_id@ by {
                if a < rest.len() && b < rest.len() {
                    assert(u[a] == rest[a] && u[b] == rest[b]);
                } else if a < rest.len() {
                    assert(u[a] == rest[a]);
                    let w = choose|w: int| 0 <= w < init.len() && init[w] == rest[a];
                    assert(s[w] == u[a]);
                    assert(u[b] == s[s.len() - 1]);
                } else if b < rest.len() {
                    assert(u[b] == rest[b]);
                    let w = choose|w: int| 0 <= w < init.len() && init[w] == rest[b];
                    assert(s[w] == u[b]);
                    assert(u[a] == s[s.len() - 1]);
                }
            }
        }
    }
}

/// Whether `ids` holds an id equal to `id`.
pub fn contains_id(ids: &Vec<NodeId>, id: &NodeId) -> (r: bool)
    ensures
        r == id_in(ids@, id@),
{
    let mut i: usize = 0;
    while i < ids.len()
        invariant
            i <= ids@.len(),
            forall|j: int| 0 <= j < i ==> ids@[j]@ != id@,
        decreases ids@.len() - i,
    {
        if ids[i] == *id {
            return true;
        }
        i += 1;
    }
    false
}

/// A k-bucket, that is, a list of up-to k entries representing the most
/// recently seen nodes in the range corresponding to this bucket.
#[derive(Debug)]
pub struct KBucket {
    /// An ordered list of nodes, ordered from least-recently seen to
    /// most-recently seen.
    entries: VecDeque<KBucketEntry>,
}

impl View for KBucket {
    type V = Seq<KBucketEntry>;

    closed spec fn view(&self) -> Seq<KBucketEntry> {
        self.entries@
    }
}

impl KBucket {
    /// At most `K` entries, no id twice.
    pub open spec fn wf(&self) -> bool {
        self@.len() <= K && ids_unique(self@)
    }

    /// Trivially constructs a new `KBucket`.
    pub fn new() -> (r: KBucket)
        ensures
            r.wf(),
            r@ == Seq::<KBucketEntry>::empty(),
    {
        KBucket { entries: VecDeque::with_capacity(K + 1) }
    }

    /// The entries, from least-recently seen to most-recently seen.
    pub fn entries(&self) -> (r: &VecDeque<KBucketEntry>)
        ensures
            r@ == self@,
    {
        &self.entries
    }

    /// Collects all the entries of this bucket into `result` that are not
    /// present into `seen`.
    pub fn collect_into(&self, result: &mut Vec<KBucketEntry>, seen: &Vec<NodeId>)
        ensures
            final(result)@ == old(result)@ + unseen(self@, seen@),
    {
        let mut i: usize = 0;
        while i < self.entries.len()
            invariant
                i <= self.entries@.len(),
                result@ == old(result)@ + unseen(self.entries@.take(i as int), seen@),
            decreases self.entries@.len() - i,
        {
            let entry = self.entries[i];
            assert(self.entries@.take(i as int + 1).drop_last() =~= self.entries@.take(i as int));
            if !contains_id(seen, &entry.node_id) {
                result.push(entry);
            }
            i += 1;
        }
        assert(self.entries@.take(i as int) =~= self.entries@);
    }

    /// Called when the owner node saw a node that belongs in this bucket.
    ///
    /// This moves the entry of that node to the last position if it exists,
    /// or adds a new entry there.
    ///
    /// If the entry count runs bigger than `K`, returns the evicted entry from
    /// the front of the list.
    pub fn saw_node(&mut self, id: &NodeId, address: &PeerAddress) -> (r: Option<KBucketEntry>)
        requires
            old(self).wf(),
        ensures
            final(self).wf(),
            final(self)@ == saw(old(self)@, *id, *address),
            ({
                let p = promote(old(self)@, *id, *address);
                if p.len() > K {
                    r == Some(p[0])
                } else {
                    r is None
                }
            }),
            final(self)@.len() > 0,
            final(self)@.last().node_id@ == id@,
            forall|i: int| 0 <= i < final(self)@.len() - 1 ==> final(self)@[i].node_id@ != id@,
    {
        let ghost s = self@;
        let mut i: usize = 0;
        let mut found = false;
        while i < self.entries.len()
            invariant
                self@ == s,
                i <= s.len(),
                !found ==> forall|j: int| 0 <= j < i ==> s[j].node_id@ != id@,
                found ==> i < s.len() && s[i as int].node_id@ == id@,
            ensures
                self@ == s,
                !found ==> i == s.len() && forall|j: int| 0 <= j < i ==> s[j].node_id@ != id@,
                found ==> i < s.len() && s[i as int].node_id@ == id@,
            decreases s.len() - i + (if found { 0int } else { 1int }),
        {
            if self.entries[i].node_id == *id {
                found = true;
                break;
            }
            i += 1;
        }
        let new_entry = if found {
            match self.entries.remove(i) {
                Some(e) => e,
                None => KBucketEntry::new(*id, *address),
            }
        } else {
            KBucketEntry::new(*id, *address)
        };
        proof {
            let p = promote(s, *id, *address);
            if found {
                assert(has_id(s, id@));
                let c = choose|c: int| 0 <= c < s.len() && s[c].node_id@ == id@;
                assert(c == i);
                assert(p == s.remove(i as int).push(s[i as int]));
            } else {
                assert(!has_id(s, id@));
            }
        }
        self.entries.push_back(new_entry);
        proof {
            let t = self@;
            assert(t == promote(s, *id, *address));
            assert(t.last().node_id@ == id@);
            assert forall|a: int, b: int|
                0 <= a < t.len() && 0 <= b < t.len() && a != b implies t[a].node_id@
                != t[b].node_id@ by {
                if found {
                    let u = s.remove(i as int);
                    assert(t == u.push(s[i as int]));
                    if a < t.len() - 1 && b < t.len() - 1 {
                        let a0 = if a < i { a } else { a + 1 };
                        let b0 = if b < i { b } else { b + 1 };
                        assert(t[a] == s[a0] && t[b] == s[b0]);
                    } else if a < t.len() - 1 {
                        let a0 = if a < i { a } else { a + 1 };
                        assert(t[a] == s[a0]);
                    } else if b < t.len() - 1 {
                        let b0 = if b < i { b } else { b + 1 };
                        assert(t[b] == s[b0]);
                    }
                }
            }
            assert forall|j: int| 0 <= j < t.len() - 1 implies t[j].node_id@ != id@ by {
                assert(t[j].node_id@ != t[t.len() - 1].node_id@);
            }
        }
        if self.entries.len() > K {
            let evicted = self.entries.pop_front();
            proof {
                let p = promote(s, *id, *address);
                assert(self@ =~= p.drop_first());
                let t = self@;
                assert forall|a: int, b: int|
                    0 <= a < t.len() && 0 <= b < t.len() && a != b implies t[a].node_id@
                    != t[b].node_id@ by {
                    assert(t[a] == p[a + 1] && t[b] == p[b + 1]);
                }
                assert forall|j: int| 0 <= j < t.len() - 1 implies t[j].node_id@ != id@ by {
                    assert(t[j] == p[j + 1]);
                }
            }
            evicted
        } else {
            None
        }
    }
}

} // verus!
