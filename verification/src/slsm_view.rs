//! The partition of a network into subnets of one size, as a mathematical
//! object, and what holds of it.

use vstd::prelude::*;
use vstd::arithmetic::power2::{pow2, lemma_pow2_pos};
use vstd::bits::lemma_u64_shl_is_mul;
use crate::cidr::{bitmask, block_size, lemma_block_size, lemma_block_size_divides};
use crate::network::{NetworkView, lemma_network_range};

verus! {

/// A partition of a network into subnets of one size, and how far it has
/// been handed out.
pub struct SlsmView {
    /// The network that is split.
    pub base: NetworkView,
    /// The prefix length of each subnet.
    pub prefix: nat,
    /// The number of subnets handed out so far.
    pub position: nat,
}

impl SlsmView {
    /// The subnets are no larger than the network, and no more of them have
    /// been handed out than there are.
    pub open spec fn wf(self) -> bool {
        &&& self.base.wf()
        &&& self.base.prefix <= self.prefix <= 32
        &&& self.position <= self.len()
    }

    /// The number of subnets.
    pub open spec fn len(self) -> nat {
        pow2((self.prefix - self.base.prefix) as nat)
    }

    /// The subnet at place `i`, counting from 0 in the order of their
    /// addresses.
    pub open spec fn subnet(self, i: nat) -> NetworkView {
        NetworkView::of((self.base.network_id + i * block_size(self.prefix)) as u32, self.prefix)
    }

    /// The subnets that are still to be handed out, in their order.
    pub open spec fn remaining(self) -> Seq<NetworkView> {
        Seq::new((self.len() - self.position) as nat, |j: int| self.subnet((self.position + j) as nat))
    }
}

/// The subnets of a partition into equal parts are as many as two to the
/// power of the bits added to the prefix. Each starts where the one before
/// it ends, the first at the network address, and the last ends with the
/// network: no host bit of a subnet address is set, every subnet lies in the
/// network, every address of the network lies in one subnet, and in no
/// second one.
pub proof fn lemma_slsm_partition(slsm: SlsmView)
    requires
        slsm.wf(),
    ensures
        slsm.len() * block_size(slsm.prefix) == slsm.base.size(),
        1 <= slsm.len() <= 0x1_0000_0000,
        forall|i: nat|
            i < slsm.len() ==> {
                &&& (#[trigger] slsm.subnet(i)).wf()
                &&& slsm.subnet(i).prefix == slsm.prefix
                &&& slsm.subnet(i).network_id == slsm.base.network_id + i * block_size(slsm.prefix)
                &&& slsm.subnet(i).last() + 1 == slsm.base.network_id + (i + 1) * block_size(
                    slsm.prefix,
                )
            },
        slsm.subnet(0).network_id == slsm.base.network_id,
        slsm.subnet((slsm.len() - 1) as nat).last() == slsm.base.last(),
        forall|i: nat, address: int|
            i < slsm.len() && #[trigger] slsm.subnet(i).contains(address) ==> slsm.base.contains(
                address,
            ),
        forall|address: int|
            slsm.base.contains(address) ==> exists|i: nat|
                i < slsm.len() && #[trigger] slsm.subnet(i).contains(address),
        forall|i: nat, j: nat, address: int|
            i < slsm.len() && j < slsm.len() && #[trigger] slsm.subnet(i).contains(address)
                && #[trigger] slsm.subnet(j).contains(address) ==> i == j,
{
    let size = block_size(slsm.prefix) as int;
    let len = slsm.len() as int;
    let id = slsm.base.network_id as int;
    lemma_block_size_divides(slsm.base.prefix, slsm.prefix);
    lemma_block_size(slsm.prefix);
    lemma_block_size(slsm.base.prefix);
    lemma_network_range(slsm.base);
    lemma_pow2_pos((slsm.prefix - slsm.base.prefix) as nat);
    assert(len * size == slsm.base.size());
    assert(len <= 0x1_0000_0000) by (nonlinear_arith)
        requires
            len * size <= 0x1_0000_0000,
            size >= 1,
            len >= 1,
    ;
    assert forall|i: nat| i < slsm.len() implies {
        &&& (#[trigger] slsm.subnet(i)).wf()
        &&& slsm.subnet(i).prefix == slsm.prefix
        &&& slsm.subnet(i).network_id == slsm.base.network_id + i * block_size(slsm.prefix)
        &&& slsm.subnet(i).last() + 1 == slsm.base.network_id + (i + 1) * block_size(slsm.prefix)
    } by {
        lemma_slsm_subnet(slsm, i);
    }
    lemma_slsm_subnet(slsm, 0);
    lemma_slsm_subnet(slsm, (len - 1) as nat);
    assert((len - 1 + 1) * size == len * size);
    assert forall|i: nat, address: int|
        i < slsm.len() && #[trigger] slsm.subnet(i).contains(address) implies slsm.base.contains(
        address,
    ) by {
        lemma_slsm_subnet(slsm, i);
        assert(0 <= i * size && (i + 1) * size <= len * size) by (nonlinear_arith)
            requires
                0 <= i < len,
                size >= 1,
        ;
    }
    assert forall|address: int| slsm.base.contains(address) implies exists|i: nat|
        i < slsm.len() && #[trigger] slsm.subnet(i).contains(address) by {
        let offset = address - id;
        let i = (offset / size) as nat;
        assert(0 <= offset / size < len && (offset / size) * size <= offset < (offset / size + 1)
            * size) by (nonlinear_arith)
            requires
                0 <= offset < len * size,
                size >= 1,
        ;
        lemma_slsm_subnet(slsm, i);
        assert(slsm.subnet(i).contains(address));
    }
    assert forall|i: nat, j: nat, address: int|
        i < slsm.len() && j < slsm.len() && #[trigger] slsm.subnet(i).contains(address)
            && #[trigger] slsm.subnet(j).contains(address) implies i == j by {
        lemma_slsm_subnet(slsm, i);
        lemma_slsm_subnet(slsm, j);
        let offset = address - id;
        assert(i == j) by (nonlinear_arith)
            requires
                i * size <= offset < (i + 1) * size,
                j * size <= offset < (j + 1) * size,
                size >= 1,
        ;
    }
}

/// The subnet at place `i` starts `i` subnet sizes after the network
/// address, where no host bit of its prefix is set.
pub proof fn lemma_slsm_subnet(slsm: SlsmView, i: nat)
    requires
        slsm.wf(),
        i < slsm.len(),
    ensures
        slsm.subnet(i).wf(),
        slsm.subnet(i).prefix == slsm.prefix,
        slsm.subnet(i).network_id == slsm.base.network_id + i * block_size(slsm.prefix),
        slsm.subnet(i).last() + 1 == slsm.base.network_id + (i + 1) * block_size(slsm.prefix),
        slsm.base.network_id + (i + 1) * block_size(slsm.prefix) <= 0x1_0000_0000,
        i * block_size(slsm.prefix) == (i as u64) << ((32 - slsm.prefix) as u64),
{
    let size = block_size(slsm.prefix) as int;
    let len = slsm.len() as int;
    let id: u32 = slsm.base.network_id;
    lemma_block_size_divides(slsm.base.prefix, slsm.prefix);
    lemma_block_size(slsm.prefix);
    lemma_block_size(slsm.base.prefix);
    lemma_network_range(slsm.base);
    assert(len * size == slsm.base.size());
    assert(0 <= i * size && (i + 1) * size <= len * size && (i + 1) * size == i * size + size
        && len <= len * size) by (nonlinear_arith)
        requires
            0 <= i < len,
            size >= 1,
    ;
    assert(i < 0x1_0000_0000 && i * size < slsm.base.size());
    let k1: u32 = (32 - slsm.base.prefix) as u32;
    let k2: u32 = (32 - slsm.prefix) as u32;
    let b1: u64 = 1u64 << (k1 as u64);
    let b2: u64 = 1u64 << (k2 as u64);
    let m1: u32 = bitmask(slsm.base.prefix);
    let m2: u32 = bitmask(slsm.prefix);
    let n: u64 = i as u64;
    assert(pow2(k2 as nat) == size);
    lemma_u64_shl_is_mul(n, k2 as u64);
    let step: u64 = n << (k2 as u64);
    assert(step == i * size);
    let start: u32 = (id + step) as u32;
    assert(start & m2 == start) by (bit_vector)
        requires
            k2 <= k1 <= 32,
            b1 == 1u64 << (k1 as u64),
            b2 == 1u64 << (k2 as u64),
            m1 == 0x1_0000_0000u64 - b1,
            m2 == 0x1_0000_0000u64 - b2,
            id & m1 == id,
            step == n << (k2 as u64),
            step < b1,
            start == id + step,
    ;
}

} // verus!
