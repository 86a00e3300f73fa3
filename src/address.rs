//! Transport addresses of peers.

use vstd::prelude::*;

verus! {

/// The socket address of a peer: an IPv4 or IPv6 address and a port, as the
/// datagram transport reports it.
#[derive(Clone, Copy, Debug, PartialEq, Eq, Hash)]
pub enum PeerAddress {
    /// An IPv4 address and port.
    V4 { octets: [u8; 4], port: u16 },
    /// An IPv6 address (eight 16-bit segments), port, flow information and
    /// scope id.
    V6 { segments: [u16; 8], port: u16, flowinfo: u32, scope_id: u32 },
}

} // verus!
