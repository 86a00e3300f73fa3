//! The RPC protocol used by Kademlia.

use crate::address::PeerAddress;
use crate::k_bucket::KBucketEntry;
use crate::node_id::NodeId;
use crate::storage::{Key, Value};
use vstd::prelude::*;

verus! {

/// The largest encoded message: the largest payload of a UDP datagram over
/// IPv4. It sizes both the send and the receive buffers.
pub const RPC_MESSAGE_MAX_SIZE: usize = 65507;

/// A single RPC message.
#[derive(Debug, Clone)]
pub struct RPCMessage {
    /// The sender of the message.
    pub sender: NodeId,
    /// The message that was sent.
    pub kind: MessageKind,
}

impl RPCMessage {
    /// Trivially constructs a `RPCMessage`.
    pub fn new(sender: NodeId, kind: MessageKind) -> (r: RPCMessage)
        ensures
            r.sender == sender,
            r.kind == kind,
    {
        RPCMessage { sender, kind }
    }
}

/// The different messages defined by the RPC protocol.
#[derive(Debug, Clone)]
pub enum MessageKind {
    /// A request message.
    Request(RequestKind),
    /// A response message.
    Response(ResponseKind),
}

/// The different request kinds defined by the RPC protocol.
#[derive(Debug, Clone)]
pub enum RequestKind {
    /// A `PING` message.
    Ping,
    /// A `FIND_NODE` message.
    FindNode(NodeId),
    /// A `STORE` message.
    Store(Key, Value),
    /// A `FIND_VALUE` message.
    FindValue(Key),
}

/// The different response kinds defined by the RPC protocol.
#[derive(Debug, Clone)]
pub enum ResponseKind {
    /// A `PONG` message, as a response to a ping.
    Pong,
    /// A `FIND_NODE` response, with the known nodes closest to the target.
    FindNode(Vec<KBucketEntry>),
    /// A `FIND_VALUE` reply, with either a value or a list of closer nodes.
    FindValue(FindValueResponse),
}

/// A response for a `FIND_VALUE`
#[derive(Debug, Clone)]
pub enum FindValueResponse {
    /// A value was found for this key; the key is echoed so that stale
    /// responses can be told apart.
    Value(Key, Value),
    /// The value was not found on this node, but here are some nodes that are
    /// closer.
    CloserNodes(Vec<KBucketEntry>),
}

/// A message to send, and the node to send it to.
#[derive(Debug, Clone)]
pub struct Outgoing {
    /// The id of the node the message is for.
    pub id: NodeId,
    /// Where to send the message.
    pub address: PeerAddress,
    /// The message.
    pub message: RPCMessage,
}

} // verus!
