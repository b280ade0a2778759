//! The order of addresses, of prefix lengths and of networks.

use core::cmp::Ordering;
use vstd::prelude::*;
use vstd::std_specs::cmp::PartialOrdSpecImpl;
use crate::address::Ipv4Address;
use crate::cidr::Cidr;
use crate::network::{Network, NetworkView};

verus! {

/// How the address with number `left` stands to that with number `right`.
pub open spec fn address_order_of(left: u32, right: u32) -> Ordering {
    if left < right {
        Ordering::Less
    } else if left == right {
        Ordering::Equal
    } else {
        Ordering::Greater
    }
}

/// How the prefix length `left` stands to the prefix length `right`.
pub open spec fn prefix_order_of(left: nat, right: nat) -> Ordering {
    if left < right {
        Ordering::Less
    } else if left == right {
        Ordering::Equal
    } else {
        Ordering::Greater
    }
}

/// How the network `left` stands to the network `right`: as their network
/// addresses do, and where these are the same, as their prefix lengths do.
pub open spec fn network_order_of(left: NetworkView, right: NetworkView) -> Ordering {
    if left.network_id == right.network_id {
        prefix_order_of(left.prefix, right.prefix)
    } else {
        address_order_of(left.network_id, right.network_id)
    }
}

impl PartialOrdSpecImpl for Ipv4Address {
    open spec fn obeys_partial_cmp_spec() -> bool {
        true
    }

    open spec fn partial_cmp_spec(&self, other: &Ipv4Address) -> Option<Ordering> {
        Some(address_order_of(self@, other@))
    }
}

impl PartialOrd for Ipv4Address {
    /// Addresses stand in the order of their numbers.
    fn partial_cmp(&self, other: &Ipv4Address) -> (order: Option<Ordering>)
        ensures
            order == Some(address_order_of(self@, other@)),
    {
        let left = self.to_bits();
        let right = other.to_bits();
        if left < right {
            Some(Ordering::Less)
        } else if left == right {
            Some(Ordering::Equal)
        } else {
            Some(Ordering::Greater)
        }
    }
}

impl PartialOrdSpecImpl for Cidr {
    open spec fn obeys_partial_cmp_spec() -> bool {
        true
    }

    open spec fn partial_cmp_spec(&self, other: &Cidr) -> Option<Ordering> {
        Some(prefix_order_of(self@, other@))
    }
}

impl PartialOrd for Cidr {
    /// Prefix lengths stand in the order of their numbers.
    fn partial_cmp(&self, other: &Cidr) -> (order: Option<Ordering>)
        ensures
            order == Some(prefix_order_of(self@, other@)),
    {
        let left: u8 = **self;
        let right: u8 = **other;
        if left < right {
            Some(Ordering::Less)
        } else if left == right {
            Some(Ordering::Equal)
        } else {
            Some(Ordering::Greater)
        }
    }
}

impl PartialOrdSpecImpl for Network {
    open spec fn obeys_partial_cmp_spec() -> bool {
        true
    }

    open spec fn partial_cmp_spec(&self, other: &Network) -> Option<Ordering> {
        Some(network_order_of(self@, other@))
    }
}

impl PartialOrd for Network {
    /// Networks stand in the order of their network addresses, and those
    /// with one network address in the order of their prefix lengths.
    fn partial_cmp(&self, other: &Network) -> (order: Option<Ordering>)
        ensures
            order == Some(network_order_of(self@, other@)),
    {
        let left = self.network_id().to_bits();
        let right = other.network_id().to_bits();
        if left < right {
            Some(Ordering::Less)
        } else if left > right {
            Some(Ordering::Greater)
        } else {
            self.cidr().partial_cmp(&other.cidr())
        }
    }
}

} // verus!
