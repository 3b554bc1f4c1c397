//! IPv4 addresses.
use vstd::prelude::*;

verus! {

/// An IPv4 address, most significant octet first.
#[derive(Debug, Clone, Copy, PartialEq, Eq, Structural, Hash)]
pub struct Ipv4Addr {
    pub a: u8,
    pub b: u8,
    pub c: u8,
    pub d: u8,
}

/// The four octets of `addr` in the order they travel on the wire.
pub open spec fn addr_bytes(addr: Ipv4Addr) -> Seq<u8> {
    seq![addr.a, addr.b, addr.c, addr.d]
}

/// The address as one big-endian number.
pub open spec fn addr_number(addr: Ipv4Addr) -> int {
    addr.a * 0x100_0000 + addr.b * 0x1_0000 + addr.c * 0x100 + addr.d
}

impl Ipv4Addr {
    pub fn new(a: u8, b: u8, c: u8, d: u8) -> (addr: Ipv4Addr)
        ensures
            addr == (Ipv4Addr { a, b, c, d }),
    {
        Ipv4Addr { a, b, c, d }
    }

    pub fn octets(&self) -> (octets: [u8; 4])
        ensures
            octets@ == addr_bytes(*self),
    {
        [self.a, self.b, self.c, self.d]
    }

    /// The address as a big-endian 32-bit number.
    pub fn to_bits(&self) -> (bits: u32)
        ensures
            bits == addr_number(*self),
    {
        self.a as u32 * 0x100_0000 + self.b as u32 * 0x1_0000 + self.c as u32 * 0x100
            + self.d as u32
    }
}

} // verus!
