//! Addressing report for a single network, with no allocation involved.

use vstd::prelude::*;
use vstd::arithmetic::power2::{lemma2_to64, lemma_pow2_strictly_increases};
use crate::addr::{Address, addr_from, mask_spec, spec_network, spec_broadcast, to_integer,
    to_address, mask_for_prefix, network_address, broadcast_address, lemma_network_align,
    lemma_broadcast_or};

verus! {

/// The addressing details of one network: the given address and prefix, the
/// derived mask, network and broadcast addresses, and the usable host range.
/// The range is absent for prefixes 31 and 32, whose blocks reserve no
/// distinct network and broadcast addresses for hosts.
#[derive(Clone, Copy, Debug, PartialEq, Eq)]
pub struct NetworkReport {
    pub ip: Address,
    pub prefix: u8,
    pub mask: Address,
    pub network: Address,
    pub broadcast: Address,
    pub first_usable: Option<Address>,
    pub last_usable: Option<Address>,
}

/// Derives mask, network address, broadcast address and the usable host
/// range for one network.
pub fn single_network_report(ip: Address, prefix: u8) -> (r: NetworkReport)
    requires
        prefix <= 32,
    ensures
        r.ip == ip,
        r.prefix == prefix,
        r.mask == addr_from(mask_spec(prefix as int) as int),
        r.network == addr_from(spec_network(ip.value(), prefix as int)),
        r.broadcast == addr_from(spec_broadcast(ip.value(), prefix as int)),
        prefix >= 31 ==> r.first_usable is None && r.last_usable is None,
        prefix < 31 ==> r.first_usable == Some(
            addr_from(spec_network(ip.value(), prefix as int) + 1),
        ) && r.last_usable == Some(addr_from(spec_broadcast(ip.value(), prefix as int) - 1)),
{
    let ip_num = to_integer(ip);
    let mask = mask_for_prefix(prefix);
    let net = network_address(ip_num, mask);
    let bc = broadcast_address(net, mask);
    proof {
        lemma_network_align(ip_num, prefix as int);
        lemma_broadcast_or(net, prefix as int);
    }
    if prefix >= 31 {
        NetworkReport {
            ip,
            prefix,
            mask: to_address(mask),
            network: to_address(net),
            broadcast: to_address(bc),
            first_usable: None,
            last_usable: None,
        }
    } else {
        proof {
            lemma2_to64();
            if (32 - prefix) as nat > 2 {
                lemma_pow2_strictly_increases(2, (32 - prefix) as nat);
            }
        }
        NetworkReport {
            ip,
            prefix,
            mask: to_address(mask),
            network: to_address(net),
            broadcast: to_address(bc),
            first_usable: Some(to_address(net + 1)),
            last_usable: Some(to_address(bc - 1)),
        }
    }
}

} // verus!
