//! Address scope: whether a source address is one the server is meant to
//! serve.
use vstd::prelude::*;

verus! {

/// An IP address as a number: IPv4 in 32 bits, IPv6 in 128.
#[derive(PartialEq, Eq, Structural, Clone, Copy, Debug, Hash)]
pub enum IpAddress {
    V4(u32),
    V6(u128),
}

/// 2 to the 24th: the weight of an IPv4 address's first octet.
pub const V4_FIRST_OCTET: u32 = 0x100_0000;

/// 2 to the 120th: the weight of an IPv6 address's first byte.
pub const V6_FIRST_BYTE: u128 = 0x100_0000_0000_0000_0000_0000_0000_0000;

/// 2 to the 96th: the weight of an IPv6 address's first 32 bits.
pub const V6_FIRST_WORD: u128 = 0x1_0000_0000_0000_0000_0000_0000;

/// 2 to the 32nd: what an IPv4-mapped address is above its IPv4 part.
pub const V6_MAPPED_SHIFT: u128 = 0x1_0000_0000;

impl IpAddress {
    /// An address in 2001::/32, the Teredo tunnelling prefix.
    pub open spec fn spec_is_teredo(self) -> bool {
        match self {
            IpAddress::V4(_) => false,
            IpAddress::V6(a) => a / V6_FIRST_WORD == 0x2001_0000,
        }
    }

    /// A unicast address of global scope: for IPv4 none of 0.0.0.0/8,
    /// 127.0.0.0/8, 169.254.0.0/16, 224.0.0.0/4 and 255.255.255.255; for IPv6
    /// none of ::, ::1, fc00::/7, ff00::/8 and ::ffff:0:0/96.
    pub open spec fn spec_is_global_unicast(self) -> bool {
        match self {
            IpAddress::V4(a) => {
                let first = a / V4_FIRST_OCTET;
                &&& first != 0
                &&& first != 127
                &&& a / 0x1_0000 != 0xa9fe
                &&& !(224 <= first <= 239)
                &&& a != 0xffff_ffff
            },
            IpAddress::V6(a) => {
                let first = a / V6_FIRST_BYTE;
                &&& a != 0
                &&& a != 1
                &&& first != 0xfc && first != 0xfd
                &&& first != 0xff
                &&& a / V6_MAPPED_SHIFT != 0xffff
            },
        }
    }

    pub fn is_teredo(&self) -> (r: bool)
        ensures
            r == self.spec_is_teredo(),
    {
        match self {
            IpAddress::V4(_) => false,
            IpAddress::V6(a) => *a / V6_FIRST_WORD == 0x2001_0000,
        }
    }

    pub fn is_global_unicast(&self) -> (r: bool)
        ensures
            r == self.spec_is_global_unicast(),
    {
        match self {
            IpAddress::V4(a) => {
                let first = *a / V4_FIRST_OCTET;
                first != 0 && first != 127 && *a / 0x1_0000 != 0xa9fe && !(224 <= first && first <= 239)
                    && *a != 0xffff_ffff
            },
            IpAddress::V6(a) => {
                let first = *a / V6_FIRST_BYTE;
                *a != 0 && *a != 1 && first != 0xfc && first != 0xfd && first != 0xff && *a / V6_MAPPED_SHIFT
                    != 0xffff
            },
        }
    }
}

/// A source outside the server's serving scope: port zero, or an address
/// that is not global unicast.
pub fn is_bogon(addr: IpAddress, port: u16) -> (r: bool)
    ensures
        r == !(port > 0 && addr.spec_is_global_unicast()),
{
    !(port > 0 && addr.is_global_unicast())
}

} // verus!
