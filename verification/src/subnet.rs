//! Partitioning a network into subnets: into equal parts, and into parts
//! sized by the number of hosts that each has to hold.

use vstd::prelude::*;
use vstd::arithmetic::power2::{
    pow2,
    lemma2_to64,
    lemma2_to64_rest,
    lemma_pow2_strictly_increases,
    lemma_pow2_unfold,
};
use crate::address::Ipv4Address;
use crate::cidr::{Cidr, block_size, lemma_block_size};
use crate::network::{Network, NetworkView};
use crate::network_error::NetworkError;
use crate::slsm_view::{SlsmView, lemma_slsm_partition, lemma_slsm_subnet};
use crate::sort::{is_descending, sort_descending};
use crate::vlsm_view::{
    VlsmView,
    host_bits,
    is_host_bits,
    lemma_cursor_at_same,
    lemma_host_bits,
    lemma_vlsm_subnet,
    required_prefix,
};

verus! {

/// The views of the networks in `networks`.
pub open spec fn views(networks: Seq<Network>) -> Seq<NetworkView> {
    networks.map_values(|network: Network| network@)
}

/// Partitions a network into subnets of one prefix length, which it hands
/// out one by one in the order of their addresses.
#[derive(Debug, PartialEq, Eq)]
pub struct Slsm {
    base_network: Network,
    cidr: Cidr,
    number_of_subnet_bits: u8,
    length: u64,
    current_subnet: u64,
}

impl View for Slsm {
    type V = SlsmView;

    closed spec fn view(&self) -> SlsmView {
        SlsmView {
            base: self.base_network@,
            prefix: self.cidr@,
            position: self.current_subnet as nat,
        }
    }
}

impl Clone for Slsm {
    /// A second partition in the same state, to be handed out on its own.
    fn clone(&self) -> (copy: Slsm)
        ensures
            copy@ == self@,
    {
        proof {
            use_type_invariant(self);
        }
        Slsm {
            base_network: self.base_network,
            cidr: self.cidr,
            number_of_subnet_bits: self.number_of_subnet_bits,
            length: self.length,
            current_subnet: self.current_subnet,
        }
    }
}

impl Slsm {
    /// The partition is well formed, and the numbers kept beside it are
    /// those of its view.
    #[verifier::type_invariant]
    closed spec fn inv(self) -> bool {
        &&& self@.wf()
        &&& self.number_of_subnet_bits == self.cidr@ - self.base_network@.prefix
        &&& self.length == self@.len()
    }

    /// The partition of `base_network` into subnets of prefix `cidr`, none
    /// of them handed out yet. A prefix shorter than that of the network is
    /// refused.
    pub fn new(base_network: Network, cidr: Cidr) -> (result: Result<Slsm, NetworkError>)
        ensures
            match result {
                Ok(slsm) => {
                    &&& base_network@.prefix <= cidr@
                    &&& slsm@ == SlsmView { base: base_network@, prefix: cidr@, position: 0 }
                    &&& slsm@.wf()
                },
                Err(error) => {
                    &&& base_network@.prefix > cidr@
                    &&& error == NetworkError::InvalidSubnetCidr
                },
            },
    {
        proof {
            use_type_invariant(base_network);
            use_type_invariant(cidr);
        }
        if base_network.cidr() > cidr {
            return Err(NetworkError::InvalidSubnetCidr);
        }
        let number_of_subnet_bits: u8 = *cidr - *base_network.cidr();
        proof {
            lemma_block_size((32 - number_of_subnet_bits) as nat);
        }
        let length: u64 = 1u64 << (number_of_subnet_bits as u64);

        Ok(Slsm { base_network, cidr, number_of_subnet_bits, length, current_subnet: 0 })
    }

    /// The network that is partitioned.
    pub fn base_network(&self) -> (network: &Network)
        ensures
            network@ == self@.base,
    {
        &self.base_network
    }

    /// The prefix length of the subnets.
    pub fn cidr(&self) -> (cidr: Cidr)
        ensures
            cidr@ == self@.prefix,
    {
        self.cidr
    }

    /// Hands out the next subnet, or nothing when all have been handed out.
    pub fn next(&mut self) -> (subnet: Option<Network>)
        ensures
            old(self)@.position < old(self)@.len() ==> {
                &&& subnet is Some
                &&& subnet->Some_0@ == old(self)@.subnet(old(self)@.position)
                &&& subnet->Some_0@.network_id == old(self)@.base.network_id + old(self)@.position
                    * block_size(old(self)@.prefix)
                &&& final(self)@ == SlsmView { position: old(self)@.position + 1, ..old(self)@ }
            },
            old(self)@.position >= old(self)@.len() ==> subnet is None && final(self)@ == old(
                self,
            )@,
            final(self)@.wf(),
    {
        proof {
            use_type_invariant(&*self);
            use_type_invariant(self.base_network);
            use_type_invariant(self.cidr);
        }
        if self.current_subnet >= self.length {
            return None;
        }
        proof {
            lemma_slsm_subnet(self@, self.current_subnet as nat);
            lemma_slsm_partition(self@);
        }
        let host_bits: u8 = 32 - *self.base_network.cidr() - self.number_of_subnet_bits;
        let offset: u64 = self.current_subnet << (host_bits as u64);
        let subnet_network: u64 = self.base_network.network_id().to_bits() as u64 + offset;

        self.current_subnet += 1;

        Network::new(Ipv4Address::from_bits(subnet_network as u32), self.cidr).ok()
    }

    /// Hands out all the subnets that are left, in their order.
    pub fn collect(self) -> (subnets: Vec<Network>)
        ensures
            views(subnets@) == self@.remaining(),
    {
        let mut rest = self;
        let mut subnets: Vec<Network> = Vec::new();
        proof {
            use_type_invariant(&rest);
        }
        loop
            invariant_except_break
                rest@.wf(),
                rest@.base == self@.base,
                rest@.prefix == self@.prefix,
                self@.position <= rest@.position,
                subnets@.len() == rest@.position - self@.position,
                forall|i: int|
                    0 <= i < subnets@.len() ==> (#[trigger] subnets@[i])@ == self@.subnet(
                        (self@.position + i) as nat,
                    ),
            ensures
                subnets@.len() == self@.len() - self@.position,
                forall|i: int|
                    0 <= i < subnets@.len() ==> (#[trigger] subnets@[i])@ == self@.subnet(
                        (self@.position + i) as nat,
                    ),
            decreases rest@.len() - rest@.position,
        {
            match rest.next() {
                Some(subnet) => {
                    subnets.push(subnet);
                },
                None => {
                    break ;
                },
            }
        }
        assert(views(subnets@) =~= self@.remaining());
        subnets
    }
}

/// How far a partition by numbers of hosts has been handed out: the place
/// of the next requirement, and the number of the address at which the next
/// subnet starts.
#[derive(Debug, PartialEq, Eq, Clone, Copy)]
struct Progress {
    current_subnet: usize,
    next_network_id: u64,
}

/// Partitions a network into subnets of which each holds a required number
/// of hosts. It hands them out one by one, the largest first, each at the
/// address after the one before it.
#[derive(Debug, PartialEq, Eq)]
pub struct Vlsm {
    base_network: Network,
    required_hosts: Vec<u32>,
    progress: Progress,
}

impl View for Vlsm {
    type V = VlsmView;

    closed spec fn view(&self) -> VlsmView {
        VlsmView {
            base: self.base_network@,
            required_hosts: self.required_hosts@,
            position: self.progress.current_subnet as nat,
        }
    }
}

impl Clone for Vlsm {
    /// A second partition in the same state, to be handed out on its own.
    fn clone(&self) -> (copy: Vlsm)
        ensures
            copy@ == self@,
    {
        proof {
            use_type_invariant(self);
        }
        let required_hosts = self.required_hosts.clone();
        assert(required_hosts@ =~= self.required_hosts@);
        Vlsm { base_network: self.base_network, required_hosts, progress: self.progress }
    }
}

impl Vlsm {
    /// The partition is well formed, and the address kept beside it is the
    /// start of its next subnet.
    #[verifier::type_invariant]
    closed spec fn inv(self) -> bool {
        &&& self@.wf()
        &&& self.progress.next_network_id == self@.cursor_at(self@.position)
    }

    /// The partition of `base_network` into subnets for the numbers of
    /// hosts in `required_hosts`, which it puts in order from the greatest
    /// to the least. None of the subnets is handed out yet. This never
    /// fails.
    pub fn new(base_network: Network, required_hosts: Vec<u32>) -> (result: Result<
        Vlsm,
        NetworkError,
    >)
        ensures
            result is Ok,
            result->Ok_0@.base == base_network@,
            result->Ok_0@.position == 0,
            is_descending(result->Ok_0@.required_hosts),
            result->Ok_0@.required_hosts.to_multiset() == required_hosts@.to_multiset(),
            result->Ok_0@.wf(),
    {
        proof {
            use_type_invariant(base_network);
        }
        let required_hosts = sort_descending(required_hosts.as_slice());

        let next_network_id = base_network.network_id().to_bits() as u64;

        Ok(
            Vlsm {
                base_network,
                required_hosts,
                progress: Progress { current_subnet: 0, next_network_id },
            },
        )
    }

    /// The network that is partitioned.
    pub fn base_network(&self) -> (network: &Network)
        ensures
            network@ == self@.base,
    {
        &self.base_network
    }

    /// The prefix length of the smallest network that holds `hosts` hosts
    /// beside its network address and its broadcast address. No network
    /// holds more than `2^32 - 2` hosts.
    pub fn required_cidr_for_host_count(hosts: u32) -> (result: Result<Cidr, NetworkError>)
        ensures
            match result {
                Ok(cidr) => required_prefix(hosts as nat) == Some(cidr@),
                Err(error) => error == NetworkError::CidrOutOfRangeError && required_prefix(
                    hosts as nat,
                ) is None,
            },
    {
        let needed: u64 = hosts as u64 + 2;
        let mut bits: u8 = 0;
        let mut capacity: u64 = 1;
        proof {
            lemma2_to64();
            lemma2_to64_rest();
        }
        while capacity < needed
            invariant
                needed == hosts + 2,
                capacity == pow2(bits as nat),
                capacity >= 1,
                bits <= 33,
                bits > 0 ==> pow2((bits - 1) as nat) < needed,
                pow2(32) == 0x1_0000_0000,
                pow2(33) == 0x2_0000_0000,
            decreases 33 - bits,
        {
            proof {
                if bits >= 33 {
                } else {
                    if bits < 32 {
                        lemma_pow2_strictly_increases(bits as nat, 32);
                    }
                    lemma_pow2_unfold((bits + 1) as nat);
                }
            }
            capacity = capacity * 2;
            bits = bits + 1;
        }
        proof {
            assert(is_host_bits(hosts as nat, bits as nat));
            lemma_host_bits(hosts as nat);
        }
        if bits > 32 {
            return Err(NetworkError::CidrOutOfRangeError);
        }
        Cidr::new(32 - bits)
    }

    /// Hands out the next subnet, or nothing when there is none: when every
    /// requirement has been met, when the next subnet would not start
    /// before the broadcast address of the network, or when the next
    /// requirement asks for more than a network of this prefix can hold.
    pub fn next(&mut self) -> (subnet: Option<Network>)
        ensures
            old(self)@.emits(old(self)@.position) ==> {
                &&& subnet is Some
                &&& subnet->Some_0@ == old(self)@.subnet(old(self)@.position)
                &&& subnet->Some_0@.network_id == old(self)@.cursor_at(old(self)@.position)
                &&& final(self)@ == VlsmView { position: old(self)@.position + 1, ..old(self)@ }
            },
            !old(self)@.emits(old(self)@.position) ==> subnet is None && final(self)@ == old(
                self,
            )@,
            final(self)@.wf(),
    {
        proof {
            use_type_invariant(&*self);
            use_type_invariant(self.base_network);
        }
        let current_subnet = self.progress.current_subnet;
        let next_network_id = self.progress.next_network_id;
        if current_subnet >= self.required_hosts.len() {
            return None;
        }
        // Past the range of the network there is nothing left to hand out.
        let broadcast = match self.base_network.broadcast_address() {
            Some(address) => address.to_bits(),
            None => {
                return None;
            },
        };
        if next_network_id >= broadcast as u64 {
            return None;
        }
        let required_cidr = match Vlsm::required_cidr_for_host_count(
            self.required_hosts[current_subnet],
        ) {
            Ok(cidr) => cidr,
            Err(_) => {
                return None;
            },
        };

        // A requirement that takes more host bits than the network has does not fit.
        let number_of_subnet_bits = match (*required_cidr).checked_sub(*self.base_network.cidr()) {
            Some(bits) => bits,
            None => {
                return None;
            },
        };

        let result = Network::new(Ipv4Address::from_bits(next_network_id as u32), required_cidr).ok();

        proof {
            use_type_invariant(required_cidr);
            lemma_block_size(required_cidr@);
            lemma_host_bits(self.required_hosts[current_subnet as int] as nat);
        }
        let host_bits: u8 = 32 - *self.base_network.cidr() - number_of_subnet_bits;
        let subnet_network: u64 = next_network_id + (1u64 << (host_bits as u64));
        proof {
            let view = self@;
            let place = current_subnet as nat;
            assert(view.emits(place));
            assert forall|i: nat| i <= place implies view.emits(i) by {
                if i < place {
                    assert(view.emits(i));
                }
            }
            lemma_vlsm_subnet(view, place);
            assert(host_bits == crate::vlsm_view::host_bits(
                view.required_hosts[place as int] as nat,
            ));
            assert(subnet_network == view.cursor_at(place + 1));
            let after = VlsmView { position: place + 1, ..view };
            assert forall|i: nat| i < after.position implies after.emits(i) by {
                lemma_cursor_at_same(view, after, i);
                if i < place {
                    assert(view.emits(i));
                }
            }
            lemma_cursor_at_same(view, after, place + 1);
        }
        self.progress = Progress {
            current_subnet: current_subnet + 1,
            next_network_id: subnet_network,
        };

        result
    }

    /// Hands out all the subnets that are left, in their order.
    pub fn collect(self) -> (subnets: Vec<Network>)
        ensures
            views(subnets@) == self@.remaining(),
    {
        let mut rest = self;
        let mut subnets: Vec<Network> = Vec::new();
        proof {
            use_type_invariant(&rest);
        }
        loop
            invariant_except_break
                rest@.wf(),
                rest@.base == self@.base,
                rest@.required_hosts == self@.required_hosts,
                self@.position <= rest@.position,
                self@.end_from(self@.position) == self@.end_from(rest@.position),
                subnets@.len() == rest@.position - self@.position,
                forall|i: int|
                    0 <= i < subnets@.len() ==> (#[trigger] subnets@[i])@ == self@.subnet(
                        (self@.position + i) as nat,
                    ),
            ensures
                subnets@.len() == self@.end_from(self@.position) - self@.position,
                forall|i: int|
                    0 <= i < subnets@.len() ==> (#[trigger] subnets@[i])@ == self@.subnet(
                        (self@.position + i) as nat,
                    ),
            decreases rest@.required_hosts.len() - rest@.position,
        {
            proof {
                lemma_cursor_at_same(self@, rest@, rest@.position);
            }
            match rest.next() {
                Some(subnet) => {
                    subnets.push(subnet);
                },
                None => {
                    break ;
                },
            }
        }
        assert(views(subnets@) =~= self@.remaining());
        subnets
    }
}

} // verus!
