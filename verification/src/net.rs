//! IP addresses and networks, as plain values, and network membership.
use vstd::prelude::*;

verus! {

/// An IP address: four octets for IPv4, sixteen for IPv6.
#[derive(Debug, Clone, Copy, PartialEq, Eq)]
pub enum IpAddress {
    V4([u8; 4]),
    V6([u8; 16]),
}

/// An IP network: an address and a prefix length (at most 32 for IPv4, 128 for IPv6).
#[derive(Debug, Clone, Copy, PartialEq, Eq)]
pub struct IpNetwork {
    pub addr: IpAddress,
    pub prefix_len: u8,
}

/// Whether an address is IPv6, and its octets.
pub open spec fn addr_parts(a: IpAddress) -> (bool, Seq<u8>) {
    match a {
        IpAddress::V4(o) => (false, o@),
        IpAddress::V6(o) => (true, o@),
    }
}

/// Bit `i` of some octets, most significant first.
pub open spec fn octet_bit(octets: Seq<u8>, i: int) -> u8 {
    (octets[i / 8] >> ((7 - i % 8) as u8)) & 1u8
}

/// Whether `net` contains `ip`: same family, and the first `prefix_len` bits
/// (all bits where the prefix is longer) agree, so that the address lies between
/// the network's first and last address.
pub open spec fn spec_contains(net: IpNetwork, ip: IpAddress) -> bool {
    let (v6n, n) = addr_parts(net.addr);
    let (v6a, a) = addr_parts(ip);
    let width = 8 * n.len();
    &&& v6n == v6a
    &&& forall|i: int|
        0 <= i < net.prefix_len && i < width ==> #[trigger] octet_bit(n, i) == octet_bit(a, i)
}

fn octets_of(a: &IpAddress) -> (res: Vec<u8>)
    ensures
        res@ == addr_parts(*a).1,
{
    match a {
        IpAddress::V4(o) => vstd::slice::slice_to_vec(o.as_slice()),
        IpAddress::V6(o) => vstd::slice::slice_to_vec(o.as_slice()),
    }
}

fn is_v6(a: &IpAddress) -> (res: bool)
    ensures
        res == addr_parts(*a).0,
{
    match a {
        IpAddress::V4(_) => false,
        IpAddress::V6(_) => true,
    }
}

impl IpNetwork {
    /// Whether this network contains the address.
    pub fn contains(&self, ip: &IpAddress) -> (res: bool)
        ensures
            res == spec_contains(*self, *ip),
    {
        if is_v6(&self.addr) != is_v6(ip) {
            return false;
        }
        let n = octets_of(&self.addr);
        let a = octets_of(ip);
        assert(n@.len() == a@.len());
        let width = 8 * n.len();
        let limit = if (self.prefix_len as usize) < width {
            self.prefix_len as usize
        } else {
            width
        };
        let mut i: usize = 0;
        while i < limit
            invariant
                n@ == addr_parts(self.addr).1,
                a@ == addr_parts(*ip).1,
                n@.len() == a@.len(),
                width == 8 * n@.len(),
                limit <= width,
                limit <= self.prefix_len,
                i <= limit,
                forall|j: int| 0 <= j < i ==> #[trigger] octet_bit(n@, j) == octet_bit(a@, j),
            decreases limit - i,
        {
            let nb = (n[i / 8] >> (7 - (i % 8) as u8)) & 1;
            let ab = (a[i / 8] >> (7 - (i % 8) as u8)) & 1;
            if nb != ab {
                assert(octet_bit(n@, i as int) != octet_bit(a@, i as int));
                return false;
            }
            i = i + 1;
        }
        true
    }
}

} // verus!
