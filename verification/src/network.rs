//! Networks: an address range named by its first address and a prefix
//! length, and the addresses derived from it.

use vstd::prelude::*;
use crate::address::{Ipv4Address, address_bits, bits_to_octets, lemma_address_by_bits};
use vstd::bits::lemma_u64_low_bits_mask_is_mod;
use crate::cidr::{
    Cidr,
    bitmask,
    block_size,
    lemma_block_size,
    lemma_block_size_divides,
    lemma_cidr_by_length,
};
use crate::network_error::NetworkError;

verus! {

/// What a network is: the number of its first address and the length of its
/// prefix.
pub struct NetworkView {
    pub network_id: u32,
    pub prefix: nat,
}

impl NetworkView {
    /// The network that `address` lies in under a prefix of `prefix` bits:
    /// the host bits of the address are cleared.
    pub open spec fn of(address: u32, prefix: nat) -> NetworkView {
        NetworkView { network_id: address & bitmask(prefix), prefix }
    }

    /// The prefix is at most 32 bits long and no host bit of the network
    /// address is set.
    pub open spec fn wf(self) -> bool {
        &&& self.prefix <= 32
        &&& self.network_id & bitmask(self.prefix) == self.network_id
    }

    /// The number of addresses in the network.
    pub open spec fn size(self) -> nat {
        block_size(self.prefix)
    }

    /// The number of the last address in the network.
    pub open spec fn last(self) -> int {
        self.network_id + self.size() - 1
    }

    /// Whether the address with number `address` lies in the network.
    pub open spec fn contains(self, address: int) -> bool {
        self.network_id <= address <= self.last()
    }

    /// The broadcast address: the network address with every host bit set.
    /// A network of one address has none.
    pub open spec fn broadcast_address(self) -> Option<u32> {
        if self.prefix == 32 {
            None
        } else {
            Some(self.network_id | !bitmask(self.prefix))
        }
    }

    /// The first address that a host can have: the one after the network
    /// address, but the network address itself where the network has only
    /// two addresses, and none where it has only one.
    pub open spec fn first_host_address(self) -> Option<u32> {
        if self.prefix == 32 {
            None
        } else if self.prefix == 31 {
            Some(self.network_id)
        } else {
            Some((self.network_id + 1) as u32)
        }
    }

    /// The last address that a host can have: the one before the broadcast
    /// address, but the broadcast address itself where the network has only
    /// two addresses, and none where it has only one.
    pub open spec fn last_host_address(self) -> Option<u32> {
        if self.prefix == 32 {
            None
        } else if self.prefix == 31 {
            self.broadcast_address()
        } else {
            Some((self.broadcast_address()->Some_0 - 1) as u32)
        }
    }

    /// The number of addresses that hosts can have.
    pub open spec fn number_of_hosts(self) -> nat {
        if self.prefix == 32 {
            0
        } else if self.prefix == 31 {
            2
        } else {
            (self.size() - 2) as nat
        }
    }
}

/// Clearing the host bits of an address gives a network address, and
/// clearing them once more changes nothing.
pub proof fn lemma_masking_idempotent(address: u32, prefix: nat)
    requires
        prefix <= 32,
    ensures
        NetworkView::of(address, prefix).wf(),
        NetworkView::of(NetworkView::of(address, prefix).network_id, prefix) == NetworkView::of(
            address,
            prefix,
        ),
        (address & bitmask(prefix)) & bitmask(prefix) == address & bitmask(prefix),
{
    let m = bitmask(prefix);
    assert((address & m) & m == address & m) by (bit_vector);
}

/// Clearing the host bits of an address rounds its number down to a
/// multiple of the block size, so the addresses that masking leaves as they
/// are, are the multiples of the block size.
pub proof fn lemma_masking_rounds_down(address: u32, prefix: nat)
    requires
        prefix <= 32,
    ensures
        address & bitmask(prefix) == address - address as int % block_size(prefix) as int,
        address & bitmask(prefix) == address <==> address as int % block_size(prefix) as int == 0,
{
    lemma_block_size(prefix);
    let k: u32 = (32 - prefix) as u32;
    let b: u64 = 1u64 << (k as u64);
    let m: u32 = bitmask(prefix);
    let low: u64 = (b - 1) as u64;
    assert(address & m == address - (address as u64 & low)) by (bit_vector)
        requires
            k <= 32,
            b == 1u64 << (k as u64),
            m == 0x1_0000_0000u64 - b,
            low == b - 1,
    ;
    lemma_u64_low_bits_mask_is_mod(address as u64, k as nat);
}

/// The address range of a network: it starts at a multiple of its size,
/// ends at the broadcast address within the 32-bit address space, and holds
/// exactly the addresses that the netmask maps to the network address.
pub proof fn lemma_network_range(network: NetworkView)
    requires
        network.wf(),
    ensures
        1 <= network.size() <= 0x1_0000_0000,
        network.network_id as int % network.size() as int == 0,
        network.last() <= u32::MAX,
        network.network_id | !bitmask(network.prefix) == network.last(),
        network.prefix < 32 ==> network.broadcast_address() == Some(network.last() as u32),
        forall|address: u32|
            network.contains(address as int) <==> #[trigger] (address & bitmask(network.prefix))
                == network.network_id,
{
    lemma_block_size(network.prefix);
    let id: u32 = network.network_id;
    let k: u32 = (32 - network.prefix) as u32;
    let b: u64 = 1u64 << (k as u64);
    let m: u32 = bitmask(network.prefix);
    let low: u64 = (b - 1) as u64;
    assert((id | !m) == id + b - 1 && id as u64 & low == 0) by (bit_vector)
        requires
            k <= 32,
            b == 1u64 << (k as u64),
            m == 0x1_0000_0000u64 - b,
            id & m == id,
            low == b - 1,
    ;
    assert(id as u64 % b == 0) by {
        lemma_u64_low_bits_mask_is_mod(id as u64, k as nat);
    }
    assert forall|address: u32|
        network.contains(address as int) <==> #[trigger] (address & bitmask(network.prefix))
            == network.network_id by {
        assert((address & m == id) <==> (id <= address && address <= id + b - 1)) by (bit_vector)
            requires
                k <= 32,
                b == 1u64 << (k as u64),
                m == 0x1_0000_0000u64 - b,
                id & m == id,
        ;
    }
}

/// In a network of four addresses or more, the first host address differs
/// from the network address, and the last host address from the broadcast
/// address, in the last octet only, by one.
pub proof fn lemma_host_addresses_by_octet(network: NetworkView)
    requires
        network.wf(),
        network.prefix <= 30,
    ensures
        ({
            let id = bits_to_octets(network.network_id);
            let first = bits_to_octets(network.first_host_address()->Some_0);
            first == seq![id[0], id[1], id[2], (id[3] + 1) as u8] && id[3] < 255
        }),
        ({
            let broadcast = bits_to_octets(network.broadcast_address()->Some_0);
            let last = bits_to_octets(network.last_host_address()->Some_0);
            last == seq![broadcast[0], broadcast[1], broadcast[2], (broadcast[3] - 1) as u8]
                && broadcast[3] > 0
        }),
{
    lemma_block_size(network.prefix);
    let id: u32 = network.network_id;
    let k: u32 = (32 - network.prefix) as u32;
    let b: u64 = 1u64 << (k as u64);
    let m: u32 = bitmask(network.prefix);
    let bc: u32 = id | !m;
    assert(id % 4 == 0 && bc % 4 == 3) by (bit_vector)
        requires
            2 <= k <= 32,
            b == 1u64 << (k as u64),
            m == 0x1_0000_0000u64 - b,
            id & m == id,
            bc == id | !m,
    ;
    lemma_step_in_last_octet(id, bc);
}

/// Going up by one from a multiple of four, or down by one from the address
/// before such a multiple, changes the last octet only.
proof fn lemma_step_in_last_octet(low: u32, high: u32)
    requires
        low % 4 == 0,
        high % 4 == 3,
    ensures
        ({
            let from = bits_to_octets(low);
            bits_to_octets((low + 1) as u32) == seq![from[0], from[1], from[2], (from[3] + 1) as u8]
                && from[3] < 255
        }),
        ({
            let from = bits_to_octets(high);
            bits_to_octets((high - 1) as u32) == seq![from[0], from[1], from[2], (from[3] - 1) as u8]
                && from[3] > 0
        }),
{
    let up = (low + 1) as u32;
    let down = (high - 1) as u32;
    assert(up / 0x100_0000 == low / 0x100_0000 && up / 0x1_0000 % 0x100 == low / 0x1_0000 % 0x100
        && up / 0x100 % 0x100 == low / 0x100 % 0x100 && up % 0x100 == low % 0x100 + 1) by (bit_vector)
        requires
            low % 4 == 0,
            up == low + 1,
    ;
    assert(down / 0x100_0000 == high / 0x100_0000 && down / 0x1_0000 % 0x100 == high / 0x1_0000
        % 0x100 && down / 0x100 % 0x100 == high / 0x100 % 0x100 && down % 0x100 == high % 0x100 - 1)
        by (bit_vector)
        requires
            high % 4 == 3,
            down == high - 1,
    ;
    assert(bits_to_octets(up) =~= seq![
        bits_to_octets(low)[0],
        bits_to_octets(low)[1],
        bits_to_octets(low)[2],
        (bits_to_octets(low)[3] + 1) as u8,
    ]);
    assert(bits_to_octets(down) =~= seq![
        bits_to_octets(high)[0],
        bits_to_octets(high)[1],
        bits_to_octets(high)[2],
        (bits_to_octets(high)[3] - 1) as u8,
    ]);
}

/// A network is known by its view: there is one network for each
/// well-formed view, and two networks with the same view are the same.
pub proof fn lemma_network_by_view(x: Network, y: Network, view: NetworkView)
    ensures
        view.wf() ==> Network::from_view(view)@ == view && Network::from_view(view).wf(),
        Network::from_view(x@) == x,
        x@ == y@ ==> x == y,
{
    lemma_address_by_bits(x.network_id, y.network_id, view.network_id);
    lemma_cidr_by_length(x.cidr, y.cidr, view.prefix);
}

/// The view of the outcome of an attempt to make a network.
pub open spec fn outcome_view(outcome: Result<Network, NetworkError>) -> Result<
    NetworkView,
    NetworkError,
> {
    match outcome {
        Ok(network) => Ok(network@),
        Err(error) => Err(error),
    }
}

/// An IPv4 network: its network address and its prefix length.
#[derive(Debug, PartialEq, Eq, Structural, Ord, Clone, Copy)]
pub struct Network {
    network_id: Ipv4Address,
    cidr: Cidr,
}

impl View for Network {
    type V = NetworkView;

    closed spec fn view(&self) -> NetworkView {
        NetworkView { network_id: self.network_id@, prefix: self.cidr@ }
    }
}

impl Network {
    /// A network never holds an address with a host bit set.
    #[verifier::type_invariant]
    pub open spec fn wf(self) -> bool {
        self@.wf()
    }

    /// The network whose view is `view`.
    pub closed spec fn from_view(view: NetworkView) -> Network {
        Network { network_id: Ipv4Address::from_bits(view.network_id), cidr: Cidr::of(view.prefix) }
    }

    /// The network that `ip_address` lies in under the prefix `cidr`. This
    /// never fails.
    pub fn new(ip_address: Ipv4Address, cidr: Cidr) -> (result: Result<Network, NetworkError>)
        ensures
            outcome_view(result) == Ok::<NetworkView, NetworkError>(
                NetworkView::of(ip_address@, cidr@),
            ),
            NetworkView::of(ip_address@, cidr@).wf(),
    {
        proof {
            use_type_invariant(cidr);
            lemma_masking_idempotent(ip_address@, cidr@);
        }
        let bitmask = cidr.to_bitmask();
        let id = ip_address.to_bits() & bitmask;
        Ok(Network { network_id: Ipv4Address::from_bits(id), cidr })
    }

    /// The broadcast address of the network, if it has one.
    pub fn broadcast_address(&self) -> (address: Option<Ipv4Address>)
        ensures
            address_bits(address) == self@.broadcast_address(),
    {
        if *self.cidr == 32 {
            return None;
        }
        let bitmask = !self.cidr.to_bitmask();
        let broadcast = self.network_id.to_bits() | bitmask;
        Some(Ipv4Address::from_bits(broadcast))
    }

    /// The first host address of the network, if it has one.
    pub fn first_host_address(&self) -> (address: Option<Ipv4Address>)
        ensures
            address_bits(address) == self@.first_host_address(),
    {
        if *self.cidr == 32 {
            return None;
        }
        if *self.cidr == 31 {
            return Some(self.network_id());
        }
        proof {
            use_type_invariant(self);
            lemma_network_range(self@);
            lemma_host_addresses_by_octet(self@);
        }
        Some(Ipv4Address::from_bits(self.network_id.to_bits() + 1))
    }

    /// The last host address of the network, if it has one.
    pub fn last_host_address(&self) -> (address: Option<Ipv4Address>)
        ensures
            address_bits(address) == self@.last_host_address(),
    {
        if *self.cidr == 32 {
            return None;
        }
        if *self.cidr == 31 {
            return self.broadcast_address();
        }
        proof {
            use_type_invariant(self);
            lemma_network_range(self@);
            lemma_host_addresses_by_octet(self@);
        }
        match self.broadcast_address() {
            Some(broadcast) => Some(Ipv4Address::from_bits(broadcast.to_bits() - 1)),
            None => None,
        }
    }

    /// The number of host addresses in the network.
    pub fn number_of_hosts(&self) -> (hosts: u32)
        ensures
            hosts == self@.number_of_hosts(),
    {
        if *self.cidr == 32 {
            return 0;
        }
        if *self.cidr == 31 {
            return 2;
        }
        proof {
            use_type_invariant(self);
            use_type_invariant(self.cidr);
            lemma_block_size(self.cidr@);
            lemma_block_size_divides(self.cidr@, 30);
        }
        let host_bits: u8 = 32 - *self.cidr;
        let size: u64 = 1u64 << (host_bits as u64);
        (size - 2) as u32
    }

    /// The network address.
    pub fn network_id(&self) -> (address: Ipv4Address)
        ensures
            address@ == self@.network_id,
    {
        self.network_id
    }

    /// The prefix length.
    pub fn cidr(&self) -> (cidr: Cidr)
        ensures
            cidr@ == self@.prefix,
    {
        self.cidr
    }
}

} // verus!
