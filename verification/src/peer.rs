//! Peer identity: the address-based value that tells two connections apart.

use vstd::prelude::*;

verus! {

/// The transport address of one peer: a numeric host (wide enough for any
/// common address family) and a port. Two live connections never share a
/// peer identifier; the registry relies on the transport for that.
#[derive(Clone, Copy, PartialEq, Eq, Structural, Debug)]
pub struct PeerId {
    pub host: u128,
    pub port: u16,
}

impl PeerId {
    /// Builds the identifier from its two address components.
    pub fn new(host: u128, port: u16) -> (id: PeerId)
        ensures
            id.host == host,
            id.port == port,
    {
        PeerId { host, port }
    }
}

} // verus!
