//! A node of a Kademlia distributed hash table.
//!
//! The library holds the protocol's logic: identifiers and the XOR metric,
//! k-buckets, the routing table with its closest-nodes selection, the store,
//! the dispatch of requests and the iterative lookup as a state machine.
//! Sockets and the wire codec stay with the caller.

pub mod address;
pub mod hex;
pub mod k_bucket;
pub mod node;
pub mod node_id;
pub mod routing;
pub mod rpc;
pub mod storage;
