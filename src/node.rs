//! A [Kademlia][kademlia] node: its id, store and routing table, how it
//! serves requests, and the iterative lookup of a value.
//!
//! The node does no I/O. Each operation returns the messages to send; the
//! caller owns the socket and the codec, sends them, and hands every received
//! message back.
//!
//! [kademlia]: http://www.scs.stanford.edu/%7Edm/home/papers/kpos.pdf

use crate::address::PeerAddress;
use crate::k_bucket::{contains_id, id_in, saw, KBucket, KBucketEntry, K};
use crate::node_id::NodeId;
use crate::routing::{bucket_of, candidates, is_closest, RoutingTable};
use crate::rpc::{FindValueResponse, MessageKind, Outgoing, RPCMessage, RequestKind, ResponseKind};
use crate::storage::{Key, Store, Value};
use vstd::prelude::*;

verus! {

/// An interface in order to handle a given message.
pub trait MessageHandler {
    /// Handle a given message, possibly taking ownership of it.
    ///
    /// The `message` variable is guaranteed to be non-`None`.
    ///
    /// If it's taken, other handlers won't see the message.
    fn handle_message(&mut self, from: &PeerAddress, message: &mut Option<RPCMessage>);
}

/// A token identifying a message handler, which must be kept in order for the
/// handler to be removed.
pub struct HandlerToken(pub usize);

/// The peers an outgoing batch is addressed to, as entries.
pub open spec fn targets(out: Seq<Outgoing>) -> Seq<KBucketEntry> {
    Seq::new(out.len(), |i: int| KBucketEntry { node_id: out[i].id, ip: out[i].address })
}

/// `o` is a message from `me` to node `id` at `address`.
pub open spec fn is_message_to(o: Outgoing, me: NodeId, id: NodeId, address: PeerAddress) -> bool {
    o.id == id && o.address == address && o.message.sender == me
}

/// `kind` is a `Pong`.
pub open spec fn is_pong(kind: MessageKind) -> bool {
    kind matches MessageKind::Response(ResponseKind::Pong)
}

/// `kind` is a `FindNode` response with the `K` nodes of `cands` closest to
/// `target`.
pub open spec fn is_nodes_reply(kind: MessageKind, cands: Seq<KBucketEntry>, target: NodeId) -> bool {
    match kind {
        MessageKind::Response(ResponseKind::FindNode(nodes)) => is_closest(nodes@, cands, target),
        _ => false,
    }
}

/// `kind` is a `FindValue` response with `value` under `key`.
pub open spec fn is_value_reply(kind: MessageKind, key: NodeId, value: Seq<u8>) -> bool {
    match kind {
        MessageKind::Response(ResponseKind::FindValue(FindValueResponse::Value(k, v))) => k == key
            && v@ == value,
        _ => false,
    }
}

/// `kind` is a `FindValue` response with the `K` nodes of `cands` closest to
/// `key`.
pub open spec fn is_closer_reply(kind: MessageKind, cands: Seq<KBucketEntry>, key: NodeId) -> bool {
    match kind {
        MessageKind::Response(
            ResponseKind::FindValue(FindValueResponse::CloserNodes(nodes)),
        ) => is_closest(nodes@, cands, key),
        _ => false,
    }
}

/// `reply` is a message from `me` to `sender` at `source`.
pub open spec fn is_reply(reply: Option<Outgoing>, me: NodeId, sender: NodeId, source: PeerAddress) -> bool {
    reply is Some && is_message_to(reply->0, me, sender, source)
}

/// `kind` is a `Store` request of `value` under `key`.
pub open spec fn is_store_request(kind: MessageKind, key: NodeId, value: Seq<u8>) -> bool {
    match kind {
        MessageKind::Request(RequestKind::Store(k, v)) => k == key && v@ == value,
        _ => false,
    }
}

/// How a node serves a request from `sender` at `source`: `after` is the node
/// afterwards and `reply` the message it sends back, if any.
///
/// `Ping` is answered with `Pong`. `FindNode(target)` is answered with the
/// known nodes closest to `target`, unless `target` is the node itself, which
/// gets no answer. `Store(key, value)` stores the value and is not answered.
/// `FindValue(key)` is answered with the stored value, key echoed, or else
/// with the known nodes closest to `key`. The routing table is left as it is.
pub open spec fn serves(
    before: Node,
    after: Node,
    request: RequestKind,
    sender: NodeId,
    source: PeerAddress,
    reply: Option<Outgoing>,
) -> bool {
    let me = before.spec_id();
    &&& after.spec_id() == me
    &&& after.known() == before.known()
    &&& match request {
        RequestKind::Ping => {
            &&& after.stored() == before.stored()
            &&& is_reply(reply, me, sender, source)
            &&& is_pong(reply->0.message.kind)
        },
        RequestKind::FindNode(target) => {
            &&& after.stored() == before.stored()
            &&& target@ == me@ ==> reply is None
            &&& target@ != me@ ==> is_reply(reply, me, sender, source) && is_nodes_reply(
                reply->0.message.kind,
                before.candidates_for(target, Seq::empty()),
                target,
            )
        },
        RequestKind::Store(key, value) => {
            &&& after.stored() == before.stored().insert(key@, value@)
            &&& reply is None
        },
        RequestKind::FindValue(key) => {
            &&& after.stored() == before.stored()
            &&& is_reply(reply, me, sender, source)
            &&& before.stored().contains_key(key@) ==> is_value_reply(
                reply->0.message.kind,
                key,
                before.stored()[key@],
            )
            &&& !before.stored().contains_key(key@) ==> is_closer_reply(
                reply->0.message.kind,
                before.candidates_for(key, Seq::empty()),
                key,
            )
        },
    }
}

/// A `FindNode` request for the node's own id gets no reply.
pub proof fn lemma_find_self_unanswered(
    before: Node,
    after: Node,
    sender: NodeId,
    source: PeerAddress,
    reply: Option<Outgoing>,
)
    requires
        serves(before, after, RequestKind::FindNode(before.spec_id()), sender, source, reply),
    ensures
        reply is None,
{
}

/// Each round of a lookup queries only nodes not queried before, and adds
/// every one of them to the queried ones: a lookup that goes on learns new
/// ids.
pub proof fn lemma_round_queries_new_nodes(
    node: Node,
    key: NodeId,
    seen: Seq<NodeId>,
    carry: Seq<KBucketEntry>,
    after: Lookup,
    r: FindStep,
)
    requires
        is_round(node, key, seen, carry, after, r),
    ensures
        r is Continue ==> queries(r).len() > 0 && after.spec_seen().len() == seen.len() + queries(
            r,
        ).len(),
        forall|i: int| 0 <= i < queries(r).len() ==> !id_in(seen, (#[trigger] queries(r)[i]).id@),
{
    let cands = node.candidates_for(key, seen);
    let n: int = if cands.len() < K {
        cands.len() as int
    } else {
        K as int
    };
    if r is Continue {
        let out = queries(r);
        if out.len() == 0 {
            assert(targets(out).take(n).len() == 0);
            assert(targets(out).skip(n).len() == 0);
        }
    }
}

/// The state of one iterative lookup of a key: the nodes already queried,
/// and the nodes learned in the last round that are still to be queried.
pub struct Lookup {
    key: Key,
    seen: Vec<NodeId>,
    carryover: Vec<KBucketEntry>,
}

/// What the caller of a lookup does next.
#[derive(Debug)]
pub enum FindStep {
    /// The value was found: the lookup is over.
    Found(Value),
    /// No known node is left to query: the lookup is over.
    NotFound,
    /// Send these messages (there may be none), then hand the next message
    /// received to `Node::find_on_message`.
    Continue(Vec<Outgoing>),
}

/// The messages a step asks to send.
pub open spec fn queries(step: FindStep) -> Seq<Outgoing> {
    match step {
        FindStep::Continue(out) => out@,
        _ => Seq::empty(),
    }
}

/// `kind` is a `FindValue` request for `key`.
pub open spec fn is_find_value(kind: MessageKind, key: NodeId) -> bool {
    match kind {
        MessageKind::Request(RequestKind::FindValue(k)) => k == key,
        _ => false,
    }
}

impl Lookup {
    /// The key looked up.
    pub closed spec fn spec_key(&self) -> NodeId {
        self.key
    }

    /// The ids of the nodes queried so far.
    pub closed spec fn spec_seen(&self) -> Seq<NodeId> {
        self.seen@
    }

    /// The nodes learned in the last round, still to be queried.
    pub closed spec fn spec_carryover(&self) -> Seq<KBucketEntry> {
        self.carryover@
    }

    /// A lookup of `key` that has queried nobody yet.
    pub fn new(key: Key) -> (r: Lookup)
        ensures
            r.spec_key() == key,
            r.spec_seen() == Seq::<NodeId>::empty(),
            r.spec_carryover() == Seq::<KBucketEntry>::empty(),
    {
        Lookup { key, seen: Vec::new(), carryover: Vec::new() }
    }

    /// The key looked up.
    pub fn key(&self) -> (r: &Key)
        ensures
            *r == self.spec_key(),
    {
        &self.key
    }

    /// The ids of the nodes queried so far.
    pub fn seen(&self) -> (r: &Vec<NodeId>)
        ensures
            r@ == self.spec_seen(),
    {
        &self.seen
    }
}

/// The ids of some entries.
pub open spec fn ids_of(s: Seq<KBucketEntry>) -> Seq<NodeId> {
    Seq::new(s.len(), |i: int| s[i].node_id)
}

/// The entries of `carry` not yet queried, in order: those whose id is not in
/// `seen` nor taken earlier in `carry`.
pub open spec fn fresh(carry: Seq<KBucketEntry>, seen: Seq<NodeId>) -> Seq<KBucketEntry>
    decreases carry.len(),
{
    if carry.len() == 0 {
        Seq::empty()
    } else if id_in(seen, carry[0].node_id@) {
        fresh(carry.drop_first(), seen)
    } else {
        seq![carry[0]] + fresh(carry.drop_first(), seen.push(carry[0].node_id))
    }
}

/// One round of the lookup of `key` by `node`, after the nodes `seen` were
/// queried and `carry` was learned in the last round. The frontier is the
/// known nodes closest to `key` that were not queried, then the carried nodes
/// not queried yet. An empty frontier ends the lookup. Otherwise each node of
/// the frontier is sent `FindValue(key)` and joins the queried ones, and the
/// carried nodes are cleared.
pub open spec fn is_round(
    node: Node,
    key: NodeId,
    seen: Seq<NodeId>,
    carry: Seq<KBucketEntry>,
    after: Lookup,
    r: FindStep,
) -> bool {
    let cands = node.candidates_for(key, seen);
    let n: int = if cands.len() < K {
        cands.len() as int
    } else {
        K as int
    };
    let out = queries(r);
    let closest = targets(out).take(n);
    &&& after.spec_key() == key
    &&& after.spec_carryover() == Seq::<KBucketEntry>::empty()
    &&& n == 0 && fresh(carry, seen).len() == 0 ==> r is NotFound && after.spec_seen() == seen
    &&& !(n == 0 && fresh(carry, seen).len() == 0) ==> {
        &&& r is Continue
        &&& out.len() >= n
        &&& is_closest(closest, cands, key)
        &&& targets(out).skip(n) == fresh(carry, seen + ids_of(closest))
        &&& forall|i: int|
            0 <= i < out.len() ==> (#[trigger] out[i]).message.sender == node.spec_id()
                && is_find_value(out[i].message.kind, key) && !id_in(seen, out[i].id@)
        &&& after.spec_seen() == seen + ids_of(targets(out))
    }
}

/// The reply a step asks to send: its first message, if any.
pub open spec fn reply_of(step: FindStep) -> Option<Outgoing> {
    if queries(step).len() == 0 {
        None
    } else {
        Some(queries(step)[0])
    }
}

/// How a lookup takes the next message received, from `source`: a request is
/// served (see `serves`) and the lookup goes on waiting; a value for the key
/// ends the lookup; a value for another key is stale and ignored; closer
/// nodes become the carried nodes of the next round, which is run at once
/// (see `is_round`); any other response is stale and ignored.
pub open spec fn takes_message(
    node: Node,
    node_after: Node,
    lookup: Lookup,
    lookup_after: Lookup,
    source: PeerAddress,
    message: RPCMessage,
    r: FindStep,
) -> bool {
    match message.kind {
        MessageKind::Request(request) => {
            &&& serves(node, node_after, request, message.sender, source, reply_of(r))
            &&& r is Continue
            &&& queries(r).len() <= 1
            &&& lookup_after == lookup
        },
        MessageKind::Response(ResponseKind::FindValue(FindValueResponse::Value(k, v))) => {
            &&& node_after == node
            &&& lookup_after == lookup
            &&& k@ == lookup.spec_key()@ ==> r == FindStep::Found(v)
            &&& k@ != lookup.spec_key()@ ==> r is Continue && queries(r).len() == 0
        },
        MessageKind::Response(ResponseKind::FindValue(FindValueResponse::CloserNodes(nodes))) => {
            &&& node_after == node
            &&& is_round(node, lookup.spec_key(), lookup.spec_seen(), nodes@, lookup_after, r)
        },
        MessageKind::Response(_) => {
            &&& node_after == node
            &&& lookup_after == lookup
            &&& r is Continue
            &&& queries(r).len() == 0
        },
    }
}

/// A node in this Kademlia network.
pub struct Node {
    /// Id of this node.
    id: NodeId,
    /// Keys and values stored by this node.
    store: Store,
    /// The set of buckets for each bit of the key.
    table: RoutingTable,
}

impl Node {
    /// The id of the node.
    pub closed spec fn spec_id(&self) -> NodeId {
        self.id
    }

    /// What the node stores.
    pub closed spec fn stored(&self) -> Map<Seq<u8>, Seq<u8>> {
        self.store@
    }

    /// The node's buckets, indexed by bucket index.
    pub closed spec fn known(&self) -> Seq<Seq<KBucketEntry>> {
        self.table@
    }

    /// The store and the routing table are well formed, and the table is the
    /// node's own.
    pub closed spec fn wf(&self) -> bool {
        &&& self.store.wf()
        &&& self.table.wf()
        &&& self.table.spec_owner() == self.id
    }

    /// The known entries that `closest_k(target, excluded)` chooses from.
    pub open spec fn candidates_for(&self, target: NodeId, excluded: Seq<NodeId>) -> Seq<
        KBucketEntry,
    > {
        candidates(self.known(), bucket_of(self.spec_id(), target), excluded)
    }

    /// Creates a node with the given id, an empty store and empty buckets.
    pub fn new(id: NodeId) -> (r: Node)
        ensures
            r.wf(),
            r.spec_id() == id,
            r.stored() == Map::<Seq<u8>, Seq<u8>>::empty(),
            r.known().len() == 160,
            forall|i: int| 0 <= i < 160 ==> (#[trigger] r.known()[i]).len() == 0,
    {
        Node { id, store: Store::new(), table: RoutingTable::new(id) }
    }

    /// Gets the id of the node.
    pub fn id(&self) -> (r: &NodeId)
        ensures
            *r == self.spec_id(),
    {
        &self.id
    }

    /// Gets a view on the buckets of the node, mostly for debugging.
    pub fn buckets(&self) -> (r: &Vec<KBucket>)
        ensures
            r@.len() == self.known().len(),
            forall|i: int| 0 <= i < r@.len() ==> (#[trigger] r@[i])@ == self.known()[i],
    {
        self.table.buckets()
    }

    /// Go through the raw storage mechanism.
    pub fn store(&self) -> (r: &Store)
        ensures
            r@ == self.stored(),
            self.wf() ==> r.wf(),
    {
        &self.store
    }

    /// A callback that gets executed for each message received: the sender
    /// is noted in the routing table.
    pub fn on_message(&mut self, id: &NodeId, address: &PeerAddress)
        requires
            old(self).wf(),
        ensures
            final(self).wf(),
            final(self).spec_id() == old(self).spec_id(),
            final(self).stored() == old(self).stored(),
            id@ == old(self).spec_id()@ ==> final(self).known() == old(self).known(),
            id@ != old(self).spec_id()@ ==> final(self).known() == old(self).known().update(
                bucket_of(old(self).spec_id(), *id),
                saw(old(self).known()[bucket_of(old(self).spec_id(), *id)], *id, *address),
            ),
    {
        self.note_node(id, address);
    }

    /// A function used to note the ID and address of a node: unless it is
    /// this node, the bucket it belongs in sees it.
    pub fn note_node(&mut self, id: &NodeId, address: &PeerAddress)
        requires
            old(self).wf(),
        ensures
            final(self).wf(),
            final(self).spec_id() == old(self).spec_id(),
            final(self).stored() == old(self).stored(),
            id@ == old(self).spec_id()@ ==> final(self).known() == old(self).known(),
            id@ != old(self).spec_id()@ ==> final(self).known() == old(self).known().update(
                bucket_of(old(self).spec_id(), *id),
                saw(old(self).known()[bucket_of(old(self).spec_id(), *id)], *id, *address),
            ),
    {
        self.table.note(id, address);
    }

    /// Gets the `k` nodes we know closer to `id`. This is the main search
    /// procedure for the `FIND_VALUE` and `FIND_NODE` messages.
    pub fn find_k_known_nodes_closer_to(&self, id: &NodeId) -> (r: Vec<KBucketEntry>)
        requires
            self.wf(),
        ensures
            is_closest(r@, self.candidates_for(*id, Seq::empty()), *id),
    {
        let none: Vec<NodeId> = Vec::new();
        let r = self.table.closest_k(id, &none);
        assert(none@ =~= Seq::<NodeId>::empty());
        r
    }

    /// Handles a given request message from `sender`, received from
    /// `source`, and returns the reply to send, if any (see `serves`).
    pub fn handle_request(&mut self, request: RequestKind, sender: NodeId, source: PeerAddress) -> (r:
        Option<Outgoing>)
        requires
            old(self).wf(),
        ensures
            final(self).wf(),
            serves(*old(self), *final(self), request, sender, source, r),
    {
        match request {
            RequestKind::Ping => {
                let msg = MessageKind::Response(ResponseKind::Pong);
                let msg = RPCMessage::new(self.id, msg);
                Some(Outgoing { id: sender, address: source, message: msg })
            },
            RequestKind::FindNode(node_id) => {
                if node_id == self.id {
                    // That's quite a nonsensical request, since they needed our
                    // address and ID to find us.
                    return None;
                }
                let nodes = self.find_k_known_nodes_closer_to(&node_id);
                let response = ResponseKind::FindNode(nodes);
                let msg = MessageKind::Response(response);
                let msg = RPCMessage::new(self.id, msg);
                Some(Outgoing { id: sender, address: source, message: msg })
            },
            RequestKind::Store(key, val) => {
                self.store.insert(key, val);
                None
            },
            RequestKind::FindValue(key) => {
                let response = match self.store.get(&key) {
                    Some(v) => FindValueResponse::Value(key, v.clone()),
                    None => {
                        let nodes = self.find_k_known_nodes_closer_to(&key);
                        FindValueResponse::CloserNodes(nodes)
                    },
                };
                let msg = MessageKind::Response(ResponseKind::FindValue(response));
                let msg = RPCMessage::new(self.id, msg);
                Some(Outgoing { id: sender, address: source, message: msg })
            },
        }
    }

    /// Stores `value` under `key` here, and returns a `Store` request for
    /// each of the known nodes closest to `key`, closest first.
    pub fn try_store(&mut self, key: Key, value: Value) -> (r: Vec<Outgoing>)
        requires
            old(self).wf(),
        ensures
            final(self).wf(),
            final(self).spec_id() == old(self).spec_id(),
            final(self).known() == old(self).known(),
            final(self).stored() == old(self).stored().insert(key@, value@),
            is_closest(targets(r@), old(self).candidates_for(key, Seq::empty()), key),
            forall|i: int|
                0 <= i < r@.len() ==> (#[trigger] r@[i]).message.sender == old(self).spec_id()
                    && is_store_request(r@[i].message.kind, key, value@),
    {
        self.store.insert(key, value.clone());
        let nodes = self.find_k_known_nodes_closer_to(&key);
        let mut out: Vec<Outgoing> = Vec::new();
        let mut i: usize = 0;
        while i < nodes.len()
            invariant
                i <= nodes@.len(),
                out@.len() == i,
                forall|j: int|
                    0 <= j < i ==> (#[trigger] out@[j]).id == nodes@[j].node_id && out@[j].address
                        == nodes@[j].ip && out@[j].message.sender == self.id
                        && is_store_request(out@[j].message.kind, key, value@),
            decreases nodes@.len() - i,
        {
            let node = nodes[i];
            let msg = MessageKind::Request(RequestKind::Store(key, value.clone()));
            let msg = RPCMessage::new(self.id, msg);
            out.push(Outgoing { id: node.node_id, address: node.ip, message: msg });
            i += 1;
        }
        assert(targets(out@) =~= nodes@);
        out
    }

    /// Runs one round of `lookup` (see `is_round`).
    pub fn lookup_round(&self, lookup: &mut Lookup) -> (r: FindStep)
        requires
            self.wf(),
        ensures
            is_round(
                *self,
                old(lookup).spec_key(),
                old(lookup).spec_seen(),
                old(lookup).spec_carryover(),
                *final(lookup),
                r,
            ),
    {
        let ghost seen0 = lookup.seen@;
        let ghost carry = lookup.carryover@;
        let key = lookup.key;
        let nodes = self.find_k_known_nodes_closer_to_not_in(&key, &lookup.seen);
        let mut out: Vec<Outgoing> = Vec::new();
        let mut i: usize = 0;
        while i < nodes.len()
            invariant
                lookup.key == key,
                lookup.carryover@ == carry,
                i <= nodes@.len(),
                forall|j: int| 0 <= j < nodes@.len() ==> !id_in(seen0, (#[trigger] nodes@[j]).node_id@),
                out@.len() == i,
                targets(out@) =~= nodes@.take(i as int),
                lookup.seen@ =~= seen0 + ids_of(targets(out@)),
                forall|j: int|
                    0 <= j < i ==> (#[trigger] out@[j]).message.sender == self.id
                        && is_find_value(out@[j].message.kind, key) && !id_in(seen0, out@[j].id@),
            decreases nodes@.len() - i,
        {
            let node = nodes[i];
            lookup.seen.push(node.node_id);
            let msg = RPCMessage::new(self.id, MessageKind::Request(RequestKind::FindValue(key)));
            out.push(Outgoing { id: node.node_id, address: node.ip, message: msg });
            i += 1;
        }
        let ghost seen1 = lookup.seen@;
        let ghost n = nodes@.len() as int;
        assert(targets(out@) =~= nodes@);
        assert(carry.skip(0) =~= carry);
        assert(targets(out@).skip(n) =~= Seq::<KBucketEntry>::empty());
        let mut j: usize = 0;
        while j < lookup.carryover.len()
            invariant
                lookup.key == key,
                lookup.carryover@ == carry,
                j <= carry.len(),
                n == nodes@.len(),
                out@.len() >= n,
                targets(out@).take(n) =~= nodes@,
                seen1 == seen0 + ids_of(nodes@),
                fresh(carry, seen1) =~= targets(out@).skip(n) + fresh(carry.skip(j as int), lookup.seen@),
                lookup.seen@ =~= seen0 + ids_of(targets(out@)),
                forall|k: int|
                    0 <= k < out@.len() ==> (#[trigger] out@[k]).message.sender == self.id
                        && is_find_value(out@[k].message.kind, key) && !id_in(seen0, out@[k].id@),
            decreases carry.len() - j,
        {
            let node = lookup.carryover[j];
            assert(carry.skip(j as int)[0] == node);
            assert(carry.skip(j as int).drop_first() =~= carry.skip(j as int + 1));
            let ghost rest = fresh(carry.skip(j as int + 1), lookup.seen@);
            if !contains_id(&lookup.seen, &node.node_id) {
                let ghost seen_before = lookup.seen@;
                let ghost t0 = targets(out@);
                assert(t0.len() == out@.len() && t0.len() >= n);
                assert(fresh(carry.skip(j as int), seen_before) =~= seq![node] + fresh(
                    carry.skip(j as int + 1),
                    seen_before.push(node.node_id),
                ));
                lookup.seen.push(node.node_id);
                let msg = RPCMessage::new(self.id, MessageKind::Request(RequestKind::FindValue(key)));
                out.push(Outgoing { id: node.node_id, address: node.ip, message: msg });
                proof {
                    let t1 = targets(out@);
                    assert(t1 =~= t0.push(node));
                    assert(t1.len() == t0.len() + 1);
                    assert forall|k: int| 0 <= k < t0.len() implies t1[k] == t0[k] by {
                        assert(t0.push(node)[k] == t0[k]);
                    }
                    assert(t1[t0.len() as int] == node);
                    assert(t1.take(n) =~= t0.take(n));
                    assert(t1.skip(n) =~= t0.skip(n).push(node));
                    assert(lookup.seen@ =~= seen_before.push(node.node_id));
                    assert(ids_of(targets(out@)) =~= ids_of(t0).push(node.node_id));
                    assert(t0.skip(n) + (seq![node] + fresh(
                        carry.skip(j as int + 1),
                        lookup.seen@,
                    )) =~= t0.skip(n).push(node) + fresh(carry.skip(j as int + 1), lookup.seen@));
                    if id_in(seen0, node.node_id@) {
                        let w = choose|w: int| 0 <= w < seen0.len() && seen0[w]@ == node.node_id@;
                        assert(seen_before[w] == seen0[w]);
                    }
                }
            } else {
                assert(fresh(carry.skip(j as int), lookup.seen@) == rest);
            }
            j += 1;
        }
        lookup.carryover = Vec::new();
        proof {
            assert(carry.skip(carry.len() as int) =~= Seq::<KBucketEntry>::empty());
            assert(lookup.carryover@ =~= Seq::<KBucketEntry>::empty());
        }
        if out.len() == 0 {
            return FindStep::NotFound;
        }
        FindStep::Continue(out)
    }

    /// Starts the lookup of `key`: a value stored here is found at once;
    /// otherwise the first round is run (see `is_round`).
    pub fn find(&self, key: Key) -> (r: (Lookup, FindStep))
        requires
            self.wf(),
        ensures
            r.0.spec_key() == key,
            self.stored().contains_key(key@) ==> r.0.spec_seen() == Seq::<NodeId>::empty() && (
            r.1 matches FindStep::Found(v) && v@ == self.stored()[key@]),
            !self.stored().contains_key(key@) ==> is_round(
                *self,
                key,
                Seq::empty(),
                Seq::empty(),
                r.0,
                r.1,
            ),
    {
        let mut lookup = Lookup::new(key);
        if let Some(v) = self.store.get(&key) {
            return (lookup, FindStep::Found(v.clone()));
        }
        let step = self.lookup_round(&mut lookup);
        (lookup, step)
    }

    /// Hands `lookup` the next message received, from `source` (see
    /// `takes_message`). The caller has already noted the sender with
    /// `on_message`, as for every message received.
    pub fn find_on_message(&mut self, lookup: &mut Lookup, source: PeerAddress, message: RPCMessage) -> (r:
        FindStep)
        requires
            old(self).wf(),
        ensures
            final(self).wf(),
            takes_message(*old(self), *final(self), *old(lookup), *final(lookup), source, message, r),
    {
        let sender = message.sender;
        match message.kind {
            MessageKind::Request(request) => {
                let reply = self.handle_request(request, sender, source);
                let mut out: Vec<Outgoing> = Vec::new();
                if let Some(o) = reply {
                    out.push(o);
                }
                FindStep::Continue(out)
            },
            MessageKind::Response(ResponseKind::FindValue(FindValueResponse::Value(key, v))) => {
                if key == lookup.key {
                    FindStep::Found(v)
                } else {
                    FindStep::Continue(Vec::new())
                }
            },
            MessageKind::Response(ResponseKind::FindValue(FindValueResponse::CloserNodes(nodes))) => {
                lookup.carryover = nodes;
                self.lookup_round(lookup)
            },
            MessageKind::Response(_) => FindStep::Continue(Vec::new()),
        }
    }

    /// Gets the `k` nodes we know closer to `id` whose ids are not in `seen`.
    pub fn find_k_known_nodes_closer_to_not_in(&self, id: &NodeId, seen: &Vec<NodeId>) -> (r: Vec<
        KBucketEntry,
    >)
        requires
            self.wf(),
        ensures
            is_closest(r@, self.candidates_for(*id, seen@), *id),
            r@.len() <= K,
            forall|i: int| 0 <= i < r@.len() ==> !id_in(seen@, (#[trigger] r@[i]).node_id@),
    {
        self.table.closest_k(id, seen)
    }
}

} // verus!
