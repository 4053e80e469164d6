//! IP and socket addresses as plain values.

use vstd::prelude::*;

verus! {

/// An IP address: four octets, or eight 16-bit segments.
#[derive(Debug, Clone, Copy, PartialEq, Eq, Structural)]
pub enum IpAddress {
    V4(u8, u8, u8, u8),
    V6(u16, u16, u16, u16, u16, u16, u16, u16),
}

/// A UDP/TCP peer: address and port.
#[derive(Debug, Clone, Copy, PartialEq, Eq, Structural)]
pub struct PeerAddr {
    pub ip: IpAddress,
    pub port: u16,
}

impl PeerAddr {
    pub open spec fn unspecified_spec() -> PeerAddr {
        PeerAddr { ip: IpAddress::V4(0, 0, 0, 0), port: 0 }
    }

    /// `0.0.0.0:0`, the address that empty packet slots carry.
    pub fn unspecified() -> (r: Self)
        ensures
            r == Self::unspecified_spec(),
    {
        PeerAddr { ip: IpAddress::V4(0, 0, 0, 0), port: 0 }
    }
}

} // verus!
