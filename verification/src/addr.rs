//! Addresses of sockets.
use vstd::prelude::*;

verus! {

/// An address of a host, as the number that its octets make, the first one highest.
#[derive(Clone, Copy, Debug, PartialEq, Eq, Structural)]
pub enum IpAddr {
    V4(u32),
    V6(u128),
}

/// An address of a socket: a host and a port.
#[derive(Clone, Copy, Debug, PartialEq, Eq, Structural)]
pub enum SocketAddr {
    V4 { ip: u32, port: u16 },
    V6 { ip: u128, port: u16, flowinfo: u32, scope_id: u32 },
}

impl SocketAddr {
    /// The address of a port of a host.
    pub open spec fn at(ip: IpAddr, port: u16) -> SocketAddr {
        match ip {
            IpAddr::V4(ip) => SocketAddr::V4 { ip, port },
            IpAddr::V6(ip) => SocketAddr::V6 { ip, port, flowinfo: 0, scope_id: 0 },
        }
    }

    /// The host of an address.
    pub open spec fn host(self) -> IpAddr {
        match self {
            SocketAddr::V4 { ip, .. } => IpAddr::V4(ip),
            SocketAddr::V6 { ip, .. } => IpAddr::V6(ip),
        }
    }

    pub fn new(ip: IpAddr, port: u16) -> (r: SocketAddr)
        ensures
            r == SocketAddr::at(ip, port),
    {
        match ip {
            IpAddr::V4(ip) => SocketAddr::V4 { ip, port },
            IpAddr::V6(ip) => SocketAddr::V6 { ip, port, flowinfo: 0, scope_id: 0 },
        }
    }

    pub fn ip(self) -> (r: IpAddr)
        ensures
            r == self.host(),
    {
        match self {
            SocketAddr::V4 { ip, .. } => IpAddr::V4(ip),
            SocketAddr::V6 { ip, .. } => IpAddr::V6(ip),
        }
    }
}

impl SocketAddr {
    /// The port of a host is on that host.
    pub proof fn law_port_is_on_its_host(ip: IpAddr, port: u16)
        ensures
            SocketAddr::at(ip, port).host() == ip,
            SocketAddr::at(ip, port) matches SocketAddr::V4 { port: p, .. } ==> p == port,
            SocketAddr::at(ip, port) matches SocketAddr::V6 { port: p, flowinfo, scope_id, .. }
                ==> p == port && flowinfo == 0 && scope_id == 0,
            SocketAddr::at(ip, port) is V4 <==> ip is V4,
    {
    }

    /// The host of an address is where its numbers say, whatever the port.
    pub proof fn law_host_is_the_number(self)
        ensures
            self matches SocketAddr::V4 { ip, .. } ==> self.host() == IpAddr::V4(ip),
            self matches SocketAddr::V6 { ip, .. } ==> self.host() == IpAddr::V6(ip),
    {
    }
}

} // verus!
