use kademlia::address::PeerAddress;
use kademlia::node::{FindStep, Node};
use kademlia::node_id::NodeId;
use kademlia::rpc::{FindValueResponse, MessageKind, RPCMessage, RequestKind, ResponseKind};
use kademlia::storage::hash;
use std::collections::VecDeque;

fn addr(port: u16) -> PeerAddress {
    PeerAddress::V4 { octets: [127, 0, 0, 1], port }
}

fn node_id(seed: u8) -> NodeId {
    let mut bytes = [0u8; 20];
    for (i, b) in bytes.iter_mut().enumerate() {
        *b = seed.wrapping_mul(31).wrapping_add((i as u8).wrapping_mul(seed | 1));
    }
    bytes[0] = seed.wrapping_mul(13).wrapping_add(7);
    NodeId::from_bytes(bytes)
}

fn knows(node: &Node, id: &NodeId) -> bool {
    node.buckets().iter().any(|b| b.entries().iter().any(|e| e.id() == id))
}

/// Peers that only serve requests, wired together by an in-memory queue.
struct Network {
    peers: Vec<(PeerAddress, Node)>,
    queue: VecDeque<(PeerAddress, PeerAddress, RPCMessage)>,
}

impl Network {
    fn send(&mut self, from: PeerAddress, to: PeerAddress, message: RPCMessage) {
        self.queue.push_back((from, to, message));
    }

    /// Delivers queued messages to the serving peers until one for `me`
    /// comes up.
    fn next_for(&mut self, me: PeerAddress) -> (PeerAddress, RPCMessage) {
        loop {
            let (from, to, message) = self.queue.pop_front().expect("nothing left to receive");
            if to == me {
                return (from, message);
            }
            let peer = &mut self.peers.iter_mut().find(|(a, _)| *a == to).unwrap().1;
            peer.on_message(&message.sender, &from);
            if let MessageKind::Request(request) = message.kind {
                if let Some(reply) = peer.handle_request(request, message.sender, from) {
                    self.queue.push_back((to, reply.address, reply.message));
                }
            }
        }
    }

    /// Runs a lookup by `node`, at `me`, to its end.
    fn find(&mut self, node: &mut Node, me: PeerAddress, key: NodeId) -> Option<Vec<u8>> {
        let (mut lookup, mut step) = node.find(key);
        loop {
            match step {
                FindStep::Found(v) => return Some(v),
                FindStep::NotFound => return None,
                FindStep::Continue(out) => {
                    for o in out {
                        self.send(me, o.address, o.message);
                    }
                }
            }
            let (from, message) = self.next_for(me);
            node.on_message(&message.sender, &from);
            step = node.find_on_message(&mut lookup, from, message);
        }
    }

    /// `node` at `me` learns every peer and pings it; the pongs come back.
    fn bootstrap(&mut self, node: &mut Node, me: PeerAddress) {
        let peers: Vec<(NodeId, PeerAddress)> =
            self.peers.iter().map(|(a, n)| (*n.id(), *a)).collect();
        for (id, a) in &peers {
            node.note_node(id, a);
            let ping = RPCMessage::new(*node.id(), MessageKind::Request(RequestKind::Ping));
            self.send(me, *a, ping);
        }
        for _ in 0..peers.len() {
            let (from, message) = self.next_for(me);
            assert!(matches!(message.kind, MessageKind::Response(ResponseKind::Pong)));
            node.on_message(&message.sender, &from);
        }
    }
}

#[test]
fn ping_gets_pong_from_node() {
    let me = node_id(1);
    let mut node = Node::new(me);
    let reply = node.handle_request(RequestKind::Ping, node_id(2), addr(2)).unwrap();
    assert_eq!(reply.address, addr(2));
    assert_eq!(reply.id, node_id(2));
    assert_eq!(reply.message.sender, me);
    assert!(matches!(reply.message.kind, MessageKind::Response(ResponseKind::Pong)));
}

#[test]
fn find_node_for_self_gets_no_reply() {
    let me = node_id(1);
    let mut node = Node::new(me);
    node.note_node(&node_id(3), &addr(3));
    assert!(node.handle_request(RequestKind::FindNode(me), node_id(2), addr(2)).is_none());
}

#[test]
fn find_node_replies_with_closest() {
    let mut node = Node::new(node_id(1));
    node.note_node(&node_id(3), &addr(3));
    node.note_node(&node_id(4), &addr(4));
    let reply = node
        .handle_request(RequestKind::FindNode(node_id(3)), node_id(2), addr(2))
        .unwrap();
    match reply.message.kind {
        MessageKind::Response(ResponseKind::FindNode(nodes)) => {
            assert_eq!(nodes.len(), 2);
            assert_eq!(*nodes[0].id(), node_id(3));
            assert_eq!(*nodes[1].id(), node_id(4));
        }
        other => panic!("unexpected reply {:?}", other),
    }
}

#[test]
fn store_then_find_value_replies_with_value() {
    let mut node = Node::new(node_id(1));
    let key = hash(b"foo");
    let stored = RequestKind::Store(key, b"bar".to_vec());
    assert!(node.handle_request(stored, node_id(2), addr(2)).is_none());
    assert_eq!(node.store().get(&key), Some(&b"bar".to_vec()));
    let reply = node.handle_request(RequestKind::FindValue(key), node_id(2), addr(2)).unwrap();
    match reply.message.kind {
        MessageKind::Response(ResponseKind::FindValue(FindValueResponse::Value(k, v))) => {
            assert_eq!(k, key);
            assert_eq!(v, b"bar".to_vec());
        }
        other => panic!("unexpected reply {:?}", other),
    }
}

#[test]
fn find_value_without_value_replies_with_nodes() {
    let mut node = Node::new(node_id(1));
    node.note_node(&node_id(5), &addr(5));
    let reply = node
        .handle_request(RequestKind::FindValue(hash(b"nothing")), node_id(2), addr(2))
        .unwrap();
    match reply.message.kind {
        MessageKind::Response(ResponseKind::FindValue(FindValueResponse::CloserNodes(nodes))) => {
            assert_eq!(nodes.len(), 1);
            assert_eq!(*nodes[0].id(), node_id(5));
            assert_eq!(*nodes[0].address(), addr(5));
        }
        other => panic!("unexpected reply {:?}", other),
    }
}

#[test]
fn ping_pong_teaches_routing_table() {
    let (x_addr, y_addr) = (addr(4300), addr(4301));
    let mut x = Node::new(node_id(10));
    let mut y = Node::new(node_id(20));
    let ping = RPCMessage::new(*x.id(), MessageKind::Request(RequestKind::Ping));
    // Y receives the ping.
    y.on_message(&ping.sender, &x_addr);
    let request = match ping.kind {
        MessageKind::Request(r) => r,
        _ => unreachable!(),
    };
    let reply = y.handle_request(request, ping.sender, x_addr).unwrap();
    assert_eq!(reply.address, x_addr);
    // X receives the pong.
    x.on_message(&reply.message.sender, &y_addr);
    assert_eq!(reply.message.sender, *y.id());
    assert!(matches!(reply.message.kind, MessageKind::Response(ResponseKind::Pong)));
    assert!(knows(&x, y.id()));
    assert!(knows(&y, x.id()));
}

#[test]
fn find_local_value_needs_no_network() {
    let mut x = Node::new(node_id(10));
    x.note_node(&node_id(11), &addr(11));
    let k = hash(b"foo");
    let out = x.try_store(k, b"bar".to_vec());
    assert_eq!(out.len(), 1);
    assert_eq!(out[0].address, addr(11));
    match &out[0].message.kind {
        MessageKind::Request(RequestKind::Store(key, value)) => {
            assert_eq!(*key, k);
            assert_eq!(*value, b"bar".to_vec());
        }
        other => panic!("unexpected request {:?}", other),
    }
    let (lookup, step) = x.find(k);
    assert!(lookup.seen().is_empty());
    match step {
        FindStep::Found(v) => assert_eq!(v, b"bar".to_vec()),
        other => panic!("unexpected step {:?}", other),
    }
}

#[test]
fn find_with_nobody_to_ask_is_not_found() {
    let x = Node::new(node_id(10));
    let (_, step) = x.find(hash(b"foo"));
    assert!(matches!(step, FindStep::NotFound));
}

#[test]
fn find_remote_value_through_servers() {
    let mut net = Network { peers: Vec::new(), queue: VecDeque::new() };
    for i in 0..20u8 {
        net.peers.push((addr(4302 + i as u16), Node::new(node_id(100 + i))));
    }
    let x_addr = addr(4300);
    let mut x = Node::new(node_id(1));
    net.bootstrap(&mut x, x_addr);

    let z_addr = addr(4301);
    let mut z = Node::new(node_id(2));
    net.bootstrap(&mut z, z_addr);

    let k = hash(b"foo");
    let stores = x.try_store(k, b"bar".to_vec());
    assert!(!stores.is_empty());
    for o in stores {
        net.send(x_addr, o.address, o.message);
    }
    // X serves requests too.
    net.peers.push((x_addr, x));

    assert_eq!(net.find(&mut z, z_addr, k), Some(b"bar".to_vec()));
    assert_eq!(net.find(&mut z, z_addr, hash(b"absent")), None);
}

#[test]
fn lookup_ignores_stale_values_and_serves_requests() {
    let mut z = Node::new(node_id(2));
    z.note_node(&node_id(3), &addr(3));
    let k = hash(b"foo");
    let (mut lookup, step) = z.find(k);
    match step {
        FindStep::Continue(out) => {
            assert_eq!(out.len(), 1);
            assert_eq!(out[0].id, node_id(3));
        }
        other => panic!("unexpected step {:?}", other),
    }
    assert_eq!(lookup.seen(), &vec![node_id(3)]);
    // A value for another key is stale.
    let stale = RPCMessage::new(
        node_id(3),
        MessageKind::Response(ResponseKind::FindValue(FindValueResponse::Value(
            hash(b"other"),
            b"x".to_vec(),
        ))),
    );
    match z.find_on_message(&mut lookup, addr(3), stale) {
        FindStep::Continue(out) => assert!(out.is_empty()),
        other => panic!("unexpected step {:?}", other),
    }
    // A request is served, and the lookup goes on.
    let ping = RPCMessage::new(node_id(4), MessageKind::Request(RequestKind::Ping));
    match z.find_on_message(&mut lookup, addr(4), ping) {
        FindStep::Continue(out) => {
            assert_eq!(out.len(), 1);
            assert_eq!(out[0].address, addr(4));
        }
        other => panic!("unexpected step {:?}", other),
    }
    // Closer nodes already queried leave nothing to do.
    let closer = RPCMessage::new(
        node_id(3),
        MessageKind::Response(ResponseKind::FindValue(FindValueResponse::CloserNodes(vec![
            kademlia::k_bucket::KBucketEntry::new(node_id(3), addr(3)),
        ]))),
    );
    assert!(matches!(z.find_on_message(&mut lookup, addr(3), closer), FindStep::NotFound));
    // The value for the key ends the lookup.
    let found = RPCMessage::new(
        node_id(3),
        MessageKind::Response(ResponseKind::FindValue(FindValueResponse::Value(k, b"v".to_vec()))),
    );
    match z.find_on_message(&mut lookup, addr(3), found) {
        FindStep::Found(v) => assert_eq!(v, b"v".to_vec()),
        other => panic!("unexpected step {:?}", other),
    }
}
