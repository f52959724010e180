//! Peer socket addresses.

use vstd::prelude::*;

verus! {

/// The socket address of a peer: an IP address, held as its number, and a port.
#[allow(inconsistent_fields)]
#[derive(Debug, Clone, Copy, PartialEq, Eq, Hash, Structural)]
pub enum PeerAddr {
    /// An IPv4 address and a port.
    V4 { ip: u32, port: u16 },
    /// An IPv6 address, a port, and the flow information and scope identifier of the socket.
    V6 { ip: u128, port: u16, flowinfo: u32, scope_id: u32 },
}

impl PeerAddr {
    /// Creates an IPv4 socket address from the address's four octets and a port.
    pub fn new_v4(octets: [u8; 4], port: u16) -> (addr: PeerAddr)
        ensures
            addr == (PeerAddr::V4 {
                ip: (octets[0] * 0x1000000 + octets[1] * 0x10000 + octets[2] * 0x100
                    + octets[3]) as u32,
                port,
            }),
    {
        let ip = (octets[0] as u32) * 0x1000000 + (octets[1] as u32) * 0x10000 + (octets[2] as u32)
            * 0x100 + (octets[3] as u32);
        PeerAddr::V4 { ip, port }
    }

    /// Returns the port of the address.
    pub fn port(&self) -> (port: u16)
        ensures
            port == match *self {
                PeerAddr::V4 { port, .. } => port,
                PeerAddr::V6 { port, .. } => port,
            },
    {
        match self {
            PeerAddr::V4 { port, .. } => *port,
            PeerAddr::V6 { port, .. } => *port,
        }
    }
}

} // verus!
