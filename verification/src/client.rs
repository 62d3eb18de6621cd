//! What a client needs to pick a server: the well-known port, and the key
//! derived from a server's IP address (the wrapping sum of its octets).

use vstd::prelude::*;
use crate::addr::IpAddress;
use crate::digits::pos_of;

verus! {

/// The default base port a server listens on.
pub const DEFAULT_LINKSEEKER_PORT: u16 = 61990;

/// The plain sum of a digit sequence.
pub open spec fn octet_sum(s: Seq<nat>) -> nat
    decreases s.len(),
{
    if s.len() == 0 {
        0
    } else {
        octet_sum(s.drop_last()) + s.last()
    }
}

/// The key of a server address: the sum of its address octets, modulo 256.
pub open spec fn spec_linkseeker_key(ip: IpAddress) -> nat {
    match ip {
        IpAddress::V4 { bits } => octet_sum(pos_of(bits as nat, 256, 4)) % 256,
        IpAddress::V6 { bits } => octet_sum(pos_of(bits as nat, 256, 16)) % 256,
    }
}

/// Sums the low `k` octets of a number, wrapping at a byte.
fn sum_octets(bits: u128, k: usize) -> (r: u8)
    ensures
        r as nat == octet_sum(pos_of(bits as nat, 256, k as nat)) % 256,
    decreases k,
{
    if k == 0 {
        0
    } else {
        let rest = sum_octets(bits / 256, k - 1);
        let o = (bits % 256) as u8;
        let r = ((rest as u16 + o as u16) % 256) as u8;
        proof {
            let b = bits as nat;
            let ds = pos_of(b, 256, k as nat);
            assert((bits / 256) as nat == b / 256);
            assert((bits % 256) as nat == b % 256);
            assert(ds.drop_last() =~= pos_of(b / 256, 256, (k - 1) as nat));
            assert(ds.last() == b % 256);
            let prev = octet_sum(pos_of(b / 256, 256, (k - 1) as nat));
            assert(octet_sum(ds) == prev + b % 256);
            assert((prev % 256 + b % 256) % 256 == (prev + b % 256) % 256) by (nonlinear_arith);
        }
        r
    }
}

/// The key a client derives from a server's IP address.
pub fn compute_linkseeker_key(ip_addr: IpAddress) -> (r: u8)
    ensures
        r as nat == spec_linkseeker_key(ip_addr),
{
    match ip_addr {
        IpAddress::V4 { bits } => sum_octets(bits as u128, 4),
        IpAddress::V6 { bits } => sum_octets(bits, 16),
    }
}

} // verus!
