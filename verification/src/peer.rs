//! A peer endpoint as a tracker reports it: an address as raw bytes (four
//! octets from the compact form, or the byte string the dictionary form
//! carries) and a port. Turning it into a socket address is the caller's
//! business.

use vstd::prelude::*;

verus! {

/// One peer in the swarm.
#[derive(Debug, Clone, PartialEq, Eq)]
pub struct Peer {
    /// The address bytes exactly as the tracker sent them.
    pub ip: Vec<u8>,
    /// The port, host byte order.
    pub port: u16,
}

impl View for Peer {
    type V = (Seq<u8>, u16);

    open spec fn view(&self) -> (Seq<u8>, u16) {
        (self.ip@, self.port)
    }
}

impl DeepView for Peer {
    type V = (Seq<u8>, u16);

    open spec fn deep_view(&self) -> (Seq<u8>, u16) {
        self.view()
    }
}

impl Peer {
    pub fn new(ip: Vec<u8>, port: u16) -> (r: Self)
        ensures
            r.ip == ip,
            r.port == port,
    {
        Self { ip, port }
    }
}

} // verus!
