//! Packets on their way through the proxy.
use vstd::prelude::*;

use crate::addr::SocketAddr;
use crate::time::Instant;

verus! {

/// The room for one packet.
pub const BUFFER_SIZE: usize = 4096;

/// A packet on its way to the upstream server.
pub struct UpstreamPacket {
    pub data: [u8; BUFFER_SIZE],
    pub len: usize,
    pub recv_time: Instant,
}

/// A packet on its way to a downstream client.
pub struct DownstreamPacket {
    pub data: [u8; BUFFER_SIZE],
    pub len: usize,
    pub target: SocketAddr,
    pub recv_time: Instant,
}

impl UpstreamPacket {
    /// The bytes that were received.
    pub fn payload(&self) -> (r: &[u8])
        requires
            self.len <= BUFFER_SIZE,
        ensures
            r@ == self.data@.subrange(0, self.len as int),
    {
        vstd::slice::slice_subrange(vstd::array::array_as_slice(&self.data), 0, self.len)
    }
}

impl DownstreamPacket {
    /// The bytes that were received.
    pub fn payload(&self) -> (r: &[u8])
        requires
            self.len <= BUFFER_SIZE,
        ensures
            r@ == self.data@.subrange(0, self.len as int),
    {
        vstd::slice::slice_subrange(vstd::array::array_as_slice(&self.data), 0, self.len)
    }
}

} // verus!
