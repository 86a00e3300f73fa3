//! The routing table: one k-bucket for each bucket index, and the selection
//! of the known nodes closest to a target.

use crate::address::PeerAddress;
use crate::k_bucket::{
    ids_unique, id_in, lemma_saw_entries, lemma_unseen, saw, unseen, KBucket, KBucketEntry, K,
};
use crate::node_id::{
    dist_le, dist_lt, is_bucket_index, lemma_bucket_index_unique, lemma_dist_antisym,
    lemma_dist_total, lemma_dist_trans, lemma_xor_injective, xor_bytes, NodeId,
};
use vstd::prelude::*;

verus! {

/// The number of buckets: one for each bit of an id.
pub const BUCKETS: usize = 160;

/// Bucket `i` is where entry `e` belongs in the table of `owner`.
pub open spec fn placed(owner: NodeId, e: KBucketEntry, i: int) -> bool {
    is_bucket_index(xor_bytes(owner@, e.node_id@), i)
}

/// The bucket index of `id` in the table of `owner`.
pub open spec fn bucket_of(owner: NodeId, id: NodeId) -> int {
    choose|i: int| is_bucket_index(xor_bytes(owner@, id@), i)
}

/// The distance of an entry to a target.
pub open spec fn dist_to(e: KBucketEntry, target: NodeId) -> Seq<u8> {
    xor_bytes(e.node_id@, target@)
}

/// The entries not in `excluded` of the buckets at most `r` away from bucket
/// `b`: bucket `b` first, then for each step outwards the bucket below and
/// the bucket above, where they exist.
pub open spec fn gathered(bs: Seq<Seq<KBucketEntry>>, b: int, excluded: Seq<NodeId>, r: nat) -> Seq<
    KBucketEntry,
>
    decreases r,
{
    if r == 0 {
        unseen(bs[b], excluded)
    } else {
        let prev = gathered(bs, b, excluded, (r - 1) as nat);
        let below = if b - r >= 0 {
            unseen(bs[b - r], excluded)
        } else {
            Seq::empty()
        };
        let above = if b + r < 160 {
            unseen(bs[b + r], excluded)
        } else {
            Seq::empty()
        };
        prev + below + above
    }
}

/// Radius `r` around bucket `b` takes in every bucket.
pub open spec fn covers_all(b: int, r: nat) -> bool {
    b - r <= 0 && b + r >= 159
}

/// The radius at which gathering stops: the first from `r` on at which `K`
/// entries are gathered or every bucket is taken in.
pub open spec fn stop_radius(bs: Seq<Seq<KBucketEntry>>, b: int, excluded: Seq<NodeId>, r: nat) -> nat
    decreases 160 - r,
{
    if r >= 160 || gathered(bs, b, excluded, r).len() >= K || covers_all(b, r) {
        r
    } else {
        stop_radius(bs, b, excluded, r + 1)
    }
}

/// The candidates for the nodes closest to a target whose home bucket is `b`.
pub open spec fn candidates(bs: Seq<Seq<KBucketEntry>>, b: int, excluded: Seq<NodeId>) -> Seq<
    KBucketEntry,
> {
    gathered(bs, b, excluded, stop_radius(bs, b, excluded, 0))
}

/// Strictly ascending by distance to `target`.
pub open spec fn sorted_by_distance(s: Seq<KBucketEntry>, target: NodeId) -> bool {
    forall|i: int, j: int|
        0 <= i < j < s.len() ==> dist_lt(dist_to(s[i], target), dist_to(s[j], target))
}

/// `r` is the `K` entries of `c` closest to `target` (all of them where `c`
/// has fewer), closest first.
pub open spec fn is_closest(r: Seq<KBucketEntry>, c: Seq<KBucketEntry>, target: NodeId) -> bool {
    &&& r.len() == if c.len() < K {
        c.len()
    } else {
        K as nat
    }
    &&& forall|i: int| 0 <= i < r.len() ==> c.contains(#[trigger] r[i])
    &&& sorted_by_distance(r, target)
    &&& forall|e: KBucketEntry|
        c.contains(e) && !r.contains(e) ==> forall|i: int|
            0 <= i < r.len() ==> dist_lt(#[trigger] dist_to(r[i], target), dist_to(e, target))
}

/// No id occurs in both `a` and `b`, each of which has distinct ids: then
/// neither does their concatenation.
proof fn lemma_unique_concat(a: Seq<KBucketEntry>, b: Seq<KBucketEntry>)
    requires
        ids_unique(a),
        ids_unique(b),
        forall|i: int, j: int|
            0 <= i < a.len() && 0 <= j < b.len() ==> a[i].node_id@ != b[j].node_id@,
    ensures
        ids_unique(a + b),
{
    let c = a + b;
    assert forall|i: int, j: int|
        0 <= i < c.len() && 0 <= j < c.len() && i != j implies c[i].node_id@ != c[j].node_id@ by {
        if i < a.len() && j >= a.len() {
            assert(c[j] == b[j - a.len()]);
        } else if i >= a.len() && j < a.len() {
            assert(c[i] == b[i - a.len()]);
        } else if i >= a.len() && j >= a.len() {
            assert(c[i] == b[i - a.len()] && c[j] == b[j - a.len()]);
        }
    }
}

/// Sorts entries with distinct ids by their distance to `target`, closest
/// first.
fn sort_by_distance(v: &Vec<KBucketEntry>, target: &NodeId) -> (r: Vec<KBucketEntry>)
    requires
        ids_unique(v@),
    ensures
        r@.len() == v@.len(),
        sorted_by_distance(r@, *target),
        forall|x: KBucketEntry| r@.contains(x) <==> v@.contains(x),
{
    let ghost t = *target;
    let mut out: Vec<KBucketEntry> = Vec::new();
    let mut i: usize = 0;
    while i < v.len()
        invariant
            t == *target,
            i <= v@.len(),
            ids_unique(v@),
            out@.len() == i,
            sorted_by_distance(out@, t),
            forall|x: KBucketEntry| out@.contains(x) <==> v@.take(i as int).contains(x),
        decreases v@.len() - i,
    {
        let e = v[i];
        let d = e.node_id.xor(target);
        let mut j: usize = 0;
        while j < out.len() && out[j].node_id.xor(target) <= d
            invariant
                t == *target,
                j <= out@.len(),
                d@ == dist_to(e, t),
                forall|k: int| 0 <= k < j ==> dist_le(dist_to(out@[k], t), d@),
            decreases out@.len() - j,
        {
            j += 1;
        }
        proof {
            assert forall|k: int| 0 <= k < out@.len() implies out@[k].node_id@ != e.node_id@ by {
                assert(out@.contains(out@[k]));
                assert(v@.take(i as int).contains(out@[k]));
                let w = choose|w: int| 0 <= w < i && v@.take(i as int)[w] == out@[k];
                assert(v@[w] == out@[k]);
            }
            assert forall|k: int| 0 <= k < out@.len() implies dist_to(out@[k], t) != dist_to(
                e,
                t,
            ) by {
                if dist_to(out@[k], t) == dist_to(e, t) {
                    lemma_xor_injective(out@[k].node_id, e.node_id, t);
                }
            }
            assert forall|k: int| 0 <= k < j implies dist_lt(dist_to(out@[k], t), d@) by {
                lemma_dist_total(dist_to(out@[k], t), d@);
                if dist_le(d@, dist_to(out@[k], t)) {
                    lemma_dist_antisym(d@, dist_to(out@[k], t));
                }
            }
            if j < out@.len() {
                lemma_dist_total(d@, dist_to(out@[j as int], t));
                assert forall|k: int| j <= k < out@.len() implies dist_lt(
                    d@,
                    dist_to(out@[k], t),
                ) by {
                    if k > j {
                        assert(sorted_by_distance(out@, t));
                        assert(dist_lt(dist_to(out@[j as int], t), dist_to(out@[k], t)));
                        lemma_dist_trans(d@, dist_to(out@[j as int], t), dist_to(out@[k], t));
                    }
                }
            }
        }
        let ghost old_out = out@;
        out.insert(j, e);
        proof {
            let n = out@;
            assert forall|a: int, b: int| 0 <= a < b < n.len() implies dist_lt(
                dist_to(n[a], t),
                dist_to(n[b], t),
            ) by {
                if b < j {
                    assert(n[a] == old_out[a] && n[b] == old_out[b]);
                } else if b == j {
                    assert(n[a] == old_out[a] && n[b] == e);
                } else if a < j {
                    assert(n[a] == old_out[a] && n[b] == old_out[b - 1]);
                    lemma_dist_trans(dist_to(n[a], t), d@, dist_to(n[b], t));
                } else if a == j {
                    assert(n[a] == e && n[b] == old_out[b - 1]);
                } else {
                    assert(n[a] == old_out[a - 1] && n[b] == old_out[b - 1]);
                }
            }
            let vt = v@.take(i as int + 1);
            assert(vt == v@.take(i as int).push(e));
            assert forall|x: KBucketEntry| n.contains(x) <==> vt.contains(x) by {
                if n.contains(x) {
                    let w = choose|w: int| 0 <= w < n.len() && n[w] == x;
                    if w < j {
                        assert(old_out[w] == x);
                    } else if w > j {
                        assert(old_out[w - 1] == x);
                    } else {
                        assert(vt[i as int] == x);
                    }
                    if x != e {
                        assert(old_out.contains(x));
                        let u = choose|u: int| 0 <= u < i && v@.take(i as int)[u] == x;
                        assert(vt[u] == x);
                    }
                }
                if vt.contains(x) {
                    if x == e {
                        assert(n[j as int] == x);
                    } else {
                        let u = choose|u: int| 0 <= u < vt.len() && vt[u] == x;
                        assert(u < i);
                        assert(v@.take(i as int)[u] == x);
                        assert(old_out.contains(x));
                        let w = choose|w: int| 0 <= w < old_out.len() && old_out[w] == x;
                        if w < j {
                            assert(n[w] == x);
                        } else {
                            assert(n[w + 1] == x);
                        }
                    }
                }
            }
        }
        i += 1;
    }
    assert(v@.take(v@.len() as int) =~= v@);
    out
}

/// The routing table of one owner node: 160 k-buckets, where bucket `i`
/// holds peers whose distance to the owner has bucket index `i`.
#[derive(Debug)]
pub struct RoutingTable {
    owner: NodeId,
    buckets: Vec<KBucket>,
}

impl View for RoutingTable {
    type V = Seq<Seq<KBucketEntry>>;

    closed spec fn view(&self) -> Seq<Seq<KBucketEntry>> {
        Seq::new(self.buckets@.len(), |i: int| self.buckets@[i]@)
    }
}

impl RoutingTable {
    /// The owner of the table.
    pub closed spec fn spec_owner(&self) -> NodeId {
        self.owner
    }

    /// 160 buckets, each with at most `K` entries and distinct ids, each
    /// entry in the bucket its distance to the owner gives.
    pub open spec fn wf(&self) -> bool {
        &&& self@.len() == 160
        &&& forall|i: int| 0 <= i < 160 ==> self@[i].len() <= K && ids_unique(#[trigger] self@[i])
        &&& forall|i: int, j: int|
            0 <= i < 160 && 0 <= j < self@[i].len() ==> placed(
                self.spec_owner(),
                #[trigger] self@[i][j],
                i,
            )
    }

    /// An empty table for `owner`.
    pub fn new(owner: NodeId) -> (r: RoutingTable)
        ensures
            r.wf(),
            r.spec_owner() == owner,
            forall|i: int| 0 <= i < 160 ==> (#[trigger] r@[i]).len() == 0,
    {
        let mut buckets: Vec<KBucket> = Vec::with_capacity(BUCKETS);
        let mut i: usize = 0;
        while i < BUCKETS
            invariant
                i <= BUCKETS,
                buckets@.len() == i,
                forall|j: int| 0 <= j < i ==> (#[trigger] buckets@[j])@.len() == 0,
            decreases BUCKETS - i,
        {
            buckets.push(KBucket::new());
            i += 1;
        }
        RoutingTable { owner, buckets }
    }

    /// The owner's id.
    pub fn owner(&self) -> (r: &NodeId)
        ensures
            *r == self.spec_owner(),
    {
        &self.owner
    }

    /// Notes that node `id` was seen at `address`: unless it is the owner,
    /// its bucket sees it (see `KBucket::saw_node`). An evicted entry is
    /// dropped.
    pub fn note(&mut self, id: &NodeId, address: &PeerAddress)
        requires
            old(self).wf(),
        ensures
            final(self).wf(),
            final(self).spec_owner() == old(self).spec_owner(),
            id@ == old(self).spec_owner()@ ==> final(self)@ == old(self)@,
            id@ != old(self).spec_owner()@ ==> final(self)@ == old(self)@.update(
                bucket_of(old(self).spec_owner(), *id),
                saw(old(self)@[bucket_of(old(self).spec_owner(), *id)], *id, *address),
            ),
    {
        if *id == self.owner {
            return;
        }
        let distance = self.owner.xor(id);
        let b = distance.bucket_index();
        let ghost old_table = *self;
        proof {
            let c = bucket_of(self.owner, *id);
            assert(is_bucket_index(xor_bytes(self.owner@, id@), b as int));
            lemma_bucket_index_unique(xor_bytes(self.owner@, id@), c, b as int);
            assert(self@[b as int] == self.buckets@[b as int]@);
            assert(self.buckets@[b as int].wf());
        }
        let _evicted = self.buckets[b].saw_node(id, address);
        proof {
            let owner = self.owner;
            let nb = saw(old_table@[b as int], *id, *address);
            assert(self@ =~= old_table@.update(b as int, nb));
            lemma_saw_entries(old_table@[b as int], *id, *address);
            assert forall|i: int, j: int|
                0 <= i < 160 && 0 <= j < self@[i].len() implies placed(
                owner,
                #[trigger] self@[i][j],
                i,
            ) by {
                if i == b {
                    if self@[i][j] != (KBucketEntry { node_id: *id, ip: *address }) {
                        let w = choose|w: int|
                            0 <= w < old_table@[i].len() && old_table@[i][w] == self@[i][j];
                        assert(placed(owner, old_table@[i][w], i));
                    }
                }
            }
        }
    }

    proof fn lemma_part(&self, i: int, excluded: Seq<NodeId>)
        requires
            self.wf(),
            0 <= i < 160,
        ensures
            ids_unique(unseen(self@[i], excluded)),
            forall|k: int|
                0 <= k < unseen(self@[i], excluded).len() ==> {
                    let e = #[trigger] unseen(self@[i], excluded)[k];
                    &&& !id_in(excluded, e.node_id@)
                    &&& bucket_of(self.spec_owner(), e.node_id) == i
                },
    {
        lemma_unseen(self@[i], excluded);
        let u = unseen(self@[i], excluded);
        assert forall|k: int| 0 <= k < u.len() implies bucket_of(
            self.spec_owner(),
            (#[trigger] u[k]).node_id,
        ) == i by {
            let w = choose|w: int| 0 <= w < self@[i].len() && self@[i][w] == u[k];
            assert(placed(self.spec_owner(), self@[i][w], i));
            let d = xor_bytes(self.spec_owner()@, u[k].node_id@);
            lemma_bucket_index_unique(d, bucket_of(self.spec_owner(), u[k].node_id), i);
        }
    }

    proof fn lemma_gathered(&self, b: int, excluded: Seq<NodeId>, r: nat)
        requires
            self.wf(),
            0 <= b < 160,
        ensures
            ids_unique(gathered(self@, b, excluded, r)),
            forall|k: int|
                0 <= k < gathered(self@, b, excluded, r).len() ==> {
                    let e = #[trigger] gathered(self@, b, excluded, r)[k];
                    &&& !id_in(excluded, e.node_id@)
                    &&& b - r <= bucket_of(self.spec_owner(), e.node_id) <= b + r
                },
        decreases r,
    {
        let owner = self.spec_owner();
        if r == 0 {
            self.lemma_part(b, excluded);
        } else {
            let prev = gathered(self@, b, excluded, (r - 1) as nat);
            let below = if b - r >= 0 {
                unseen(self@[b - r], excluded)
            } else {
                Seq::empty()
            };
            let above = if b + r < 160 {
                unseen(self@[b + r], excluded)
            } else {
                Seq::empty()
            };
            self.lemma_gathered(b, excluded, (r - 1) as nat);
            if b - r >= 0 {
                self.lemma_part(b - r, excluded);
            }
            if b + r < 160 {
                self.lemma_part(b + r, excluded);
            }
            assert forall|i: int, j: int|
                0 <= i < prev.len() && 0 <= j < below.len() implies prev[i].node_id@
                != below[j].node_id@ by {
                assert(bucket_of(owner, below[j].node_id) == b - r);
                assert(b - r < bucket_of(owner, prev[i].node_id));
            }
            lemma_unique_concat(prev, below);
            let pb = prev + below;
            assert forall|i: int, j: int|
                0 <= i < pb.len() && 0 <= j < above.len() implies pb[i].node_id@
                != above[j].node_id@ by {
                assert(bucket_of(owner, above[j].node_id) == b + r);
                if i < prev.len() {
                    assert(pb[i] == prev[i]);
                    assert(bucket_of(owner, prev[i].node_id) < b + r);
                } else {
                    assert(pb[i] == below[i - prev.len()]);
                    assert(bucket_of(owner, below[i - prev.len()].node_id) == b - r);
                }
            }
            lemma_unique_concat(pb, above);
            let g = gathered(self@, b, excluded, r);
            assert(g == pb + above);
            assert forall|k: int| 0 <= k < g.len() implies {
                let e = #[trigger] g[k];
                &&& !id_in(excluded, e.node_id@)
                &&& b - r <= bucket_of(owner, e.node_id) <= b + r
            } by {
                if k < prev.len() {
                    assert(g[k] == prev[k]);
                } else if k < pb.len() {
                    assert(g[k] == below[k - prev.len()]);
                } else {
                    assert(g[k] == above[k - pb.len()]);
                }
            }
        }
    }

    /// Gets the `K` known nodes closest to `target` whose ids are not in
    /// `excluded`, closest first.
    ///
    /// The candidates come from the home bucket of `target` and, while fewer
    /// than `K` are gathered, from the buckets next to it on both sides,
    /// one step further out at a time.
    pub fn closest_k(&self, target: &NodeId, excluded: &Vec<NodeId>) -> (r: Vec<KBucketEntry>)
        requires
            self.wf(),
        ensures
            is_closest(
                r@,
                candidates(self@, bucket_of(self.spec_owner(), *target), excluded@),
                *target,
            ),
            r@.len() <= K,
            forall|i: int| 0 <= i < r@.len() ==> !id_in(excluded@, (#[trigger] r@[i]).node_id@),
            sorted_by_distance(r@, *target),
    {
        let distance = self.owner.xor(target);
        let index = distance.bucket_index();
        let ghost bs = self@;
        let ghost b = index as int;
        let ghost ex = excluded@;
        proof {
            let c = bucket_of(self.owner, *target);
            assert(is_bucket_index(xor_bytes(self.owner@, target@), b));
            lemma_bucket_index_unique(xor_bytes(self.owner@, target@), c, b);
            assert(self.buckets@[b]@ == bs[b]);
        }
        let mut ret: Vec<KBucketEntry> = Vec::with_capacity(K);
        self.buckets[index].collect_into(&mut ret, excluded);
        assert(ret@ =~= gathered(bs, b, ex, 0));
        let mut delta: usize = 1;
        while ret.len() < K
            invariant
                bs == self@,
                ex == excluded@,
                b == index as int,
                index < 160,
                self.buckets@.len() == 160,
                forall|i: int| 0 <= i < 160 ==> (#[trigger] self.buckets@[i])@ == bs[i],
                1 <= delta <= 160,
                ret@ == gathered(bs, b, ex, (delta - 1) as nat),
                stop_radius(bs, b, ex, 0) == stop_radius(bs, b, ex, (delta - 1) as nat),
            ensures
                ret@ == candidates(bs, b, ex),
            decreases 160 - delta,
        {
            let ghost prev = ret@;
            let mut found_to_one_side = false;
            if index >= delta {
                found_to_one_side = true;
                self.buckets[index - delta].collect_into(&mut ret, excluded);
            }
            let ghost mid = ret@;
            if index + delta < BUCKETS {
                found_to_one_side = true;
                self.buckets[index + delta].collect_into(&mut ret, excluded);
            }
            if !found_to_one_side {
                assert(covers_all(b, (delta - 1) as nat));
                break;
            }
            proof {
                let r = delta as nat;
                assert(!covers_all(b, (r - 1) as nat));
                assert(stop_radius(bs, b, ex, (r - 1) as nat) == stop_radius(bs, b, ex, r));
                let below = if b - r >= 0 {
                    unseen(bs[b - r], ex)
                } else {
                    Seq::empty()
                };
                let above = if b + r < 160 {
                    unseen(bs[b + r], ex)
                } else {
                    Seq::empty()
                };
                assert(mid =~= prev + below);
                assert(ret@ =~= prev + below + above);
            }
            delta += 1;
        }
        proof {
            self.lemma_gathered(b, ex, stop_radius(bs, b, ex, 0));
        }
        let mut sorted = sort_by_distance(&ret, target);
        let ghost all = sorted@;
        sorted.truncate(K);
        proof {
            let c = candidates(bs, b, ex);
            let r = sorted@;
            assert forall|i: int| 0 <= i < r.len() implies c.contains(#[trigger] r[i]) by {
                assert(r[i] == all[i]);
                assert(all.contains(all[i]));
            }
            assert forall|i: int, j: int| 0 <= i < j < r.len() implies dist_lt(
                dist_to(r[i], *target),
                dist_to(r[j], *target),
            ) by {
                assert(r[i] == all[i] && r[j] == all[j]);
            }
            assert forall|e: KBucketEntry| c.contains(e) && !r.contains(e) implies forall|i: int|
                0 <= i < r.len() ==> dist_lt(
                    #[trigger] dist_to(r[i], *target),
                    dist_to(e, *target),
                ) by {
                assert(all.contains(e));
                let w = choose|w: int| 0 <= w < all.len() && all[w] == e;
                if w < r.len() {
                    assert(r[w] == e);
                }
                assert forall|i: int| 0 <= i < r.len() implies dist_lt(
                    #[trigger] dist_to(r[i], *target),
                    dist_to(e, *target),
                ) by {
                    assert(r[i] == all[i]);
                }
            }
            assert forall|i: int| 0 <= i < r.len() implies !id_in(
                ex,
                (#[trigger] r[i]).node_id@,
            ) by {
                assert(c.contains(r[i]));
                let w = choose|w: int| 0 <= w < c.len() && c[w] == r[i];
                assert(c[w] == r[i]);
            }
        }
        sorted
    }

    /// The buckets, indexed by bucket index.
    pub fn buckets(&self) -> (r: &Vec<KBucket>)
        ensures
            r@.len() == self@.len(),
            forall|i: int| 0 <= i < r@.len() ==> (#[trigger] r@[i])@ == self@[i],
    {
        &self.buckets
    }
}

} // verus!
