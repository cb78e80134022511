//! Peer addresses as plain values.
//!
//! The protocol never resolves or routes; it only compares addresses and
//! writes them into tokens. An address is therefore held as plain numbers:
//! the 16 IP bytes as two little-endian halves (an IPv4 address sits in the
//! low half with the high half zero), and the port.

use vstd::prelude::*;

verus! {

/// A peer address: IP bytes as two 64-bit halves, and the port.
#[derive(Clone, Copy, Debug, PartialEq, Eq, Structural)]
pub struct Addr {
    /// Whether this is an IPv6 address.
    pub v6: bool,
    /// Low eight bytes of the IP address, little-endian.
    pub ip_lo: u64,
    /// High eight bytes of the IP address, little-endian.
    pub ip_hi: u64,
    /// Port number.
    pub port: u16,
}

impl Addr {
    /// An IPv4 address from its four octets (in written order) and port.
    pub fn v4(a: u8, b: u8, c: u8, d: u8, port: u16) -> (r: Addr)
        ensures
            r.v6 == false,
            r.ip_hi == 0,
            r.port == port,
            r.ip_lo == a + b * 0x100 + c * 0x1_0000 + d * 0x100_0000,
    {
        Addr {
            v6: false,
            ip_lo: (a as u64) + (b as u64) * 0x100 + (c as u64) * 0x1_0000 + (d as u64)
                * 0x100_0000,
            ip_hi: 0,
            port,
        }
    }
}

} // verus!
