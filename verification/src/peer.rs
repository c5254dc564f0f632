//! Peers: their ids, the extension bits they announce, and their
//! addresses in compact form.
use crate::dht::contact::{be_bytes, be_num, SockAddr};
use vstd::prelude::*;

verus! {

/// The twenty-byte id a peer gives itself.
pub type PeerId = [u8; 20];

/// The eight reserved bytes of a handshake, whose bits announce protocol
/// extensions.
#[derive(Clone, Copy, Debug, Default, PartialEq, Eq)]
pub struct Extensions(pub [u8; 8]);

impl Extensions {
    /// The extensions of these eight bytes.
    pub fn new(b: [u8; 8]) -> (r: Self)
        ensures
            r.0 == b,
    {
        Extensions(b)
    }
}

/// A peer address in compact IPv4 form: four bytes of address and two of
/// port, big-endian.
pub fn v4(b: &[u8]) -> (r: SockAddr)
    requires
        b@.len() == 6,
    ensures
        r == SockAddr::V4(be_num(b@.subrange(0, 4)) as u32, be_num(b@.subrange(4, 6)) as u16),
{
    SockAddr::V4(be_bytes(b, 0, 4) as u32, be_bytes(b, 4, 2) as u16)
}

/// A peer address in compact IPv6 form: sixteen bytes of address and two
/// of port, big-endian.
pub fn v6(b: &[u8]) -> (r: SockAddr)
    requires
        b@.len() == 18,
    ensures
        r == SockAddr::V6(be_num(b@.subrange(0, 16)) as u128, be_num(b@.subrange(16, 18)) as u16),
{
    SockAddr::V6(be_bytes(b, 0, 16), be_bytes(b, 16, 2) as u16)
}

} // verus!
