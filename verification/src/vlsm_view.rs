//! The partition of a network into subnets sized by numbers of hosts, as
//! a mathematical object, and what holds of it.

use vstd::prelude::*;
use vstd::arithmetic::div_mod::{lemma_fundamental_div_mod, lemma_mod_multiples_basic};
use vstd::arithmetic::power2::{
    pow2,
    lemma2_to64,
    lemma_pow2_adds,
    lemma_pow2_pos,
    lemma_pow2_strictly_increases,
    lemma_pow2_unfold,
};
use crate::cidr::{lemma_block_size, lemma_block_size_divides};
use crate::network::{NetworkView, lemma_masking_rounds_down, lemma_network_range};
use crate::sort::is_descending;

verus! {

/// Whether a block of `2^bits` addresses is the smallest that holds `hosts`
/// hosts beside its network address and its broadcast address.
pub open spec fn is_host_bits(hosts: nat, bits: nat) -> bool {
    &&& hosts + 2 <= pow2(bits)
    &&& bits > 0 ==> pow2((bits - 1) as nat) < hosts + 2
}

/// The number of host bits of the smallest block that holds `hosts` hosts:
/// the logarithm to the base two of `hosts + 2`, rounded up.
pub open spec fn host_bits(hosts: nat) -> nat {
    choose|bits: nat| is_host_bits(hosts, bits)
}

/// The prefix length of the smallest network that holds `hosts` hosts; none
/// where no network does.
pub open spec fn required_prefix(hosts: nat) -> Option<nat> {
    if host_bits(hosts) <= 32 {
        Some((32 - host_bits(hosts)) as nat)
    } else {
        None
    }
}

/// A number of bits that covers `n`, found by halving.
proof fn lemma_covering_bits(n: nat) -> (bits: nat)
    ensures
        n <= pow2(bits),
        bits > 0 ==> pow2((bits - 1) as nat) < n,
    decreases n,
{
    lemma2_to64();
    if n <= 1 {
        0
    } else {
        let half = ((n + 1) / 2) as nat;
        let below = lemma_covering_bits(half);
        lemma_pow2_unfold(below + 1);
        if below > 0 {
            lemma_pow2_unfold(below);
        }
        below + 1
    }
}

/// Every number of hosts has its number of host bits, and one only: it is
/// at least one, it does not fall when the number of hosts grows, and only
/// more than `2^32 - 2` hosts need more than 32.
pub proof fn lemma_host_bits(hosts: nat)
    ensures
        is_host_bits(hosts, host_bits(hosts)),
        forall|bits: nat| #[trigger] is_host_bits(hosts, bits) ==> bits == host_bits(hosts),
        host_bits(hosts) >= 1,
        forall|fewer: nat| fewer <= hosts ==> #[trigger] host_bits(fewer) <= host_bits(hosts),
        host_bits(hosts) <= 32 <==> hosts + 2 <= 0x1_0000_0000,
{
    let found = lemma_covering_bits(hosts + 2);
    assert(is_host_bits(hosts, found));
    lemma2_to64();
    assert forall|bits: nat| #[trigger] is_host_bits(hosts, bits) implies bits == host_bits(
        hosts,
    ) by {
        lemma_host_bits_unique(hosts, bits, host_bits(hosts));
    }
    assert forall|fewer: nat| fewer <= hosts implies #[trigger] host_bits(fewer) <= host_bits(
        hosts,
    ) by {
        let few = lemma_covering_bits(fewer + 2);
        assert(is_host_bits(fewer, few));
        if host_bits(fewer) > host_bits(hosts) {
            if host_bits(hosts) < host_bits(fewer) - 1 {
                lemma_pow2_strictly_increases(host_bits(hosts), (host_bits(fewer) - 1) as nat);
            }
        }
    }
    if host_bits(hosts) <= 32 {
        if host_bits(hosts) < 32 {
            lemma_pow2_strictly_increases(host_bits(hosts), 32);
        }
    } else {
        if host_bits(hosts) > 33 {
            lemma_pow2_strictly_increases(32, (host_bits(hosts) - 1) as nat);
        }
    }
}

/// Two numbers of bits that are both the least for `hosts` are one number.
proof fn lemma_host_bits_unique(hosts: nat, a: nat, b: nat)
    requires
        is_host_bits(hosts, a),
        is_host_bits(hosts, b),
    ensures
        a == b,
{
    if a < b {
        if a < b - 1 {
            lemma_pow2_strictly_increases(a, (b - 1) as nat);
        }
    } else if b < a {
        if b < a - 1 {
            lemma_pow2_strictly_increases(b, (a - 1) as nat);
        }
    }
}

/// A partition of a network into subnets that are sized by the number of
/// hosts that each has to hold, and how far it has been handed out.
pub struct VlsmView {
    /// The network that is split.
    pub base: NetworkView,
    /// The number of hosts of each subnet, from the greatest to the least.
    pub required_hosts: Seq<u32>,
    /// The number of subnets handed out so far.
    pub position: nat,
}

impl VlsmView {
    /// The requirements stand from the greatest to the least, and each
    /// subnet handed out so far was there to hand out.
    pub open spec fn wf(self) -> bool {
        &&& self.base.wf()
        &&& is_descending(self.required_hosts)
        &&& self.position <= self.required_hosts.len()
        &&& forall|i: nat| i < self.position ==> self.emits(i)
    }

    /// The number of the address at which the subnet at place `i` starts:
    /// each subnet starts where the one before it ends, the first at the
    /// network address.
    pub open spec fn cursor_at(self, i: nat) -> nat
        decreases i,
    {
        if i == 0 {
            self.base.network_id as nat
        } else {
            self.cursor_at((i - 1) as nat) + pow2(
                host_bits(self.required_hosts[i - 1] as nat),
            )
        }
    }

    /// Whether there is a subnet at place `i`: there is a requirement at
    /// that place, the network has a broadcast address and the subnet
    /// starts before it, and the requirement asks for no more than what the
    /// prefix of the network leaves.
    pub open spec fn emits(self, i: nat) -> bool {
        &&& i < self.required_hosts.len()
        &&& self.base.broadcast_address() is Some
        &&& self.cursor_at(i) < self.base.broadcast_address()->Some_0
        &&& required_prefix(self.required_hosts[i as int] as nat) is Some
        &&& self.base.prefix <= required_prefix(self.required_hosts[i as int] as nat)->Some_0
    }

    /// The subnet at place `i`, counting from 0.
    pub open spec fn subnet(self, i: nat) -> NetworkView {
        NetworkView::of(
            self.cursor_at(i) as u32,
            required_prefix(self.required_hosts[i as int] as nat)->Some_0,
        )
    }

    /// The place at which handing out ends when it goes on from place `i`:
    /// the first place from `i` on at which there is no subnet.
    pub open spec fn end_from(self, i: nat) -> nat
        decreases self.required_hosts.len() - i,
    {
        if self.emits(i) {
            self.end_from(i + 1)
        } else {
            i
        }
    }

    /// The subnets that are still to be handed out, in their order.
    pub open spec fn remaining(self) -> Seq<NetworkView> {
        Seq::new(
            (self.end_from(self.position) - self.position) as nat,
            |j: int| self.subnet((self.position + j) as nat),
        )
    }
}

/// Where the subnets start does not depend on how many were handed out.
pub proof fn lemma_cursor_at_same(a: VlsmView, b: VlsmView, i: nat)
    requires
        a.base == b.base,
        a.required_hosts == b.required_hosts,
    ensures
        a.cursor_at(i) == b.cursor_at(i),
        a.emits(i) == b.emits(i),
        a.subnet(i) == b.subnet(i),
    decreases i,
{
    if i > 0 {
        lemma_cursor_at_same(a, b, (i - 1) as nat);
    }
}

/// A multiple of a power of two is a multiple of every smaller power of
/// two, and stays one when the greater power is added to it.
proof fn lemma_multiple_of_pow2(x: int, big: nat, small: nat)
    requires
        small <= big,
        x % pow2(big) as int == 0,
    ensures
        x % pow2(small) as int == 0,
        (x + pow2(big)) % pow2(small) as int == 0,
        pow2(big) as int % pow2(small) as int == 0,
        pow2(small) <= pow2(big),
{
    let b = pow2(big) as int;
    let d = pow2(small) as int;
    let r = pow2((big - small) as nat) as int;
    lemma_pow2_pos(big);
    lemma_pow2_pos(small);
    lemma_pow2_pos((big - small) as nat);
    lemma_pow2_adds((big - small) as nat, small);
    assert(b == r * d);
    lemma_fundamental_div_mod(x, b);
    let q = x / b;
    assert(x == b * q);
    assert(x == (r * q) * d && x + b == (r * q + r) * d && d <= b) by (nonlinear_arith)
        requires
            x == b * q,
            b == r * d,
            r >= 1,
            d >= 1,
    ;
    lemma_mod_multiples_basic(r * q, d);
    lemma_mod_multiples_basic(r * q + r, d);
    lemma_mod_multiples_basic(r, d);
}

/// Whether there is a subnet at each place up to `i`.
pub open spec fn emits_up_to(vlsm: VlsmView, i: nat) -> bool {
    forall|j: nat| j <= i ==> vlsm.emits(j)
}

/// Each subnet starts at a multiple of its size, counted from the network
/// address.
proof fn lemma_vlsm_aligned(vlsm: VlsmView, i: nat)
    requires
        vlsm.base.wf(),
        is_descending(vlsm.required_hosts),
        emits_up_to(vlsm, i),
    ensures
        vlsm.cursor_at(i) >= vlsm.base.network_id,
        (vlsm.cursor_at(i) - vlsm.base.network_id) % pow2(
            host_bits(vlsm.required_hosts[i as int] as nat),
        ) as int == 0,
    decreases i,
{
    assert(vlsm.emits(i));
    let bits = host_bits(vlsm.required_hosts[i as int] as nat);
    lemma_pow2_pos(bits);
    if i > 0 {
        let before = (i - 1) as nat;
        assert forall|j: nat| j <= before implies vlsm.emits(j) by {
            assert(vlsm.emits(j));
        }
        lemma_vlsm_aligned(vlsm, before);
        assert(vlsm.emits(before));
        let more = host_bits(vlsm.required_hosts[before as int] as nat);
        lemma_host_bits(vlsm.required_hosts[before as int] as nat);
        assert(vlsm.required_hosts[before as int] >= vlsm.required_hosts[i as int]);
        assert(bits <= more);
        lemma_multiple_of_pow2(vlsm.cursor_at(before) - vlsm.base.network_id, more, bits);
        assert(vlsm.cursor_at(i) - vlsm.base.network_id == vlsm.cursor_at(before)
            - vlsm.base.network_id + pow2(more));
    } else {
        assert(vlsm.cursor_at(i) - vlsm.base.network_id == 0);
        lemma_mod_multiples_basic(0, pow2(bits) as int);
        assert(0 * pow2(bits) as int == 0);
    }
}

/// The subnet at a place that is reached starts where the one before it
/// ends, with no host bit set. It has the least size that holds the number
/// of hosts required at its place, and it lies within the network.
pub proof fn lemma_vlsm_subnet(vlsm: VlsmView, i: nat)
    requires
        vlsm.base.wf(),
        is_descending(vlsm.required_hosts),
        emits_up_to(vlsm, i),
    ensures
        vlsm.subnet(i).wf(),
        vlsm.subnet(i).network_id == vlsm.cursor_at(i),
        vlsm.subnet(i).last() + 1 == vlsm.cursor_at(i + 1),
        vlsm.subnet(i).prefix + host_bits(vlsm.required_hosts[i as int] as nat) == 32,
        is_host_bits(vlsm.required_hosts[i as int] as nat, (32 - vlsm.subnet(i).prefix) as nat),
        vlsm.required_hosts[i as int] + 2 <= vlsm.subnet(i).size(),
        vlsm.base.contains(vlsm.subnet(i).network_id as int),
        vlsm.base.contains(vlsm.subnet(i).last()),
{
    assert(vlsm.emits(i));
    let hosts = vlsm.required_hosts[i as int] as nat;
    let bits = host_bits(hosts);
    let prefix = (32 - bits) as nat;
    let id = vlsm.base.network_id as int;
    let cursor = vlsm.cursor_at(i) as int;
    let size = pow2(bits) as int;
    let whole = vlsm.base.size() as int;
    lemma_host_bits(hosts);
    lemma_vlsm_aligned(vlsm, i);
    lemma_network_range(vlsm.base);
    lemma_block_size(prefix);
    // The network address is a multiple of the size of the subnet too.
    lemma_multiple_of_pow2(id, (32 - vlsm.base.prefix) as nat, bits);
    let offset = cursor - id;
    lemma_fundamental_div_mod(offset, size);
    lemma_fundamental_div_mod(id, size);
    lemma_fundamental_div_mod(whole, size);
    let q = offset / size;
    let t = whole / size;
    let p = id / size;
    assert(offset + size <= whole && cursor == (q + p) * size) by (nonlinear_arith)
        requires
            offset == size * q,
            whole == size * t,
            id == size * p,
            cursor == offset + id,
            0 <= offset < whole,
            size >= 1,
    ;
    lemma_mod_multiples_basic(q + p, size);
    lemma_masking_rounds_down(cursor as u32, prefix);
}

/// The subnets stand in the order of their addresses, none reaching into
/// the next, and in the order of their sizes, the largest first.
pub proof fn lemma_vlsm_order(vlsm: VlsmView, i: nat, j: nat)
    requires
        vlsm.base.wf(),
        is_descending(vlsm.required_hosts),
        emits_up_to(vlsm, j),
        i < j,
    ensures
        vlsm.subnet(i).last() < vlsm.subnet(j).network_id,
        vlsm.required_hosts[i as int] >= vlsm.required_hosts[j as int],
        vlsm.subnet(i).prefix <= vlsm.subnet(j).prefix,
        vlsm.subnet(i).size() >= vlsm.subnet(j).size(),
    decreases j - i,
{
    assert(vlsm.emits(i) && vlsm.emits(j));
    assert forall|k: nat| k <= i implies vlsm.emits(k) by {
        assert(vlsm.emits(k));
    }
    lemma_vlsm_subnet(vlsm, i);
    lemma_vlsm_subnet(vlsm, j);
    lemma_host_bits(vlsm.required_hosts[i as int] as nat);
    lemma_block_size_divides(vlsm.subnet(i).prefix, vlsm.subnet(j).prefix);
    if i + 1 < j {
        let before = (j - 1) as nat;
        assert forall|k: nat| k <= before implies vlsm.emits(k) by {
            assert(vlsm.emits(k));
        }
        lemma_vlsm_order(vlsm, i, before);
        lemma_vlsm_subnet(vlsm, before);
    }
}

/// Handing out ends at a place that is no place of a subnet, and there is a
/// subnet at each place before it.
pub proof fn lemma_end_from(vlsm: VlsmView, i: nat)
    ensures
        i <= vlsm.end_from(i),
        i <= vlsm.required_hosts.len() ==> vlsm.end_from(i) <= vlsm.required_hosts.len(),
        !vlsm.emits(vlsm.end_from(i)),
        forall|j: nat| i <= j < vlsm.end_from(i) ==> vlsm.emits(j),
    decreases vlsm.required_hosts.len() - i,
{
    if vlsm.emits(i) {
        lemma_end_from(vlsm, i + 1);
    }
}

/// The subnets that are still to be handed out: each lies within the
/// network, with no host bit set in its address, and has the least size that
/// holds the hosts required at its place. Each starts where the one before
/// it ends, and none is larger than one before it.
pub proof fn lemma_vlsm_remaining(vlsm: VlsmView)
    requires
        vlsm.wf(),
    ensures
        vlsm.position + vlsm.remaining().len() == vlsm.end_from(vlsm.position),
        vlsm.end_from(vlsm.position) <= vlsm.required_hosts.len(),
        forall|k: int|
            0 <= k < vlsm.remaining().len() ==> {
                let subnet = #[trigger] vlsm.remaining()[k];
                let hosts = vlsm.required_hosts[vlsm.position + k] as nat;
                &&& subnet == vlsm.subnet((vlsm.position + k) as nat)
                &&& subnet.wf()
                &&& subnet.network_id == vlsm.cursor_at((vlsm.position + k) as nat)
                &&& vlsm.base.contains(subnet.network_id as int)
                &&& vlsm.base.contains(subnet.last())
                &&& is_host_bits(hosts, (32 - subnet.prefix) as nat)
                &&& hosts <= subnet.number_of_hosts()
            },
        forall|k: int|
            0 <= k < vlsm.remaining().len() - 1 ==> (#[trigger] vlsm.remaining()[k]).last() + 1
                == vlsm.remaining()[k + 1].network_id,
        forall|k: int, l: int|
            0 <= k < l < vlsm.remaining().len() ==> {
                &&& (#[trigger] vlsm.remaining()[k]).last() < (#[trigger] vlsm.remaining()[
                    l
                ]).network_id
                &&& vlsm.remaining()[k].size() >= vlsm.remaining()[l].size()
            },
{
    let start = vlsm.position;
    let end = vlsm.end_from(start);
    lemma_end_from(vlsm, start);
    assert forall|j: nat| j < end implies vlsm.emits(j) by {
        if j < start {
            assert(vlsm.emits(j));
        }
    }
    assert forall|k: int| 0 <= k < vlsm.remaining().len() implies {
        let subnet = #[trigger] vlsm.remaining()[k];
        let hosts = vlsm.required_hosts[vlsm.position + k] as nat;
        &&& subnet == vlsm.subnet((vlsm.position + k) as nat)
        &&& subnet.wf()
        &&& subnet.network_id == vlsm.cursor_at((vlsm.position + k) as nat)
        &&& vlsm.base.contains(subnet.network_id as int)
        &&& vlsm.base.contains(subnet.last())
        &&& is_host_bits(hosts, (32 - subnet.prefix) as nat)
        &&& hosts <= subnet.number_of_hosts()
    } by {
        let place = (start + k) as nat;
        assert(emits_up_to(vlsm, place));
        lemma_vlsm_subnet(vlsm, place);
        let subnet = vlsm.subnet(place);
        lemma_host_bits(vlsm.required_hosts[place as int] as nat);
        lemma_block_size_divides(subnet.prefix, 31);
    }
    assert forall|k: int| 0 <= k < vlsm.remaining().len() - 1 implies (
    #[trigger] vlsm.remaining()[k]).last() + 1 == vlsm.remaining()[k + 1].network_id by {
        assert(emits_up_to(vlsm, (start + k + 1) as nat));
        assert(emits_up_to(vlsm, (start + k) as nat));
        lemma_vlsm_subnet(vlsm, (start + k) as nat);
        lemma_vlsm_subnet(vlsm, (start + k + 1) as nat);
    }
    assert forall|k: int, l: int| 0 <= k < l < vlsm.remaining().len() implies {
        &&& (#[trigger] vlsm.remaining()[k]).last() < (#[trigger] vlsm.remaining()[l]).network_id
        &&& vlsm.remaining()[k].size() >= vlsm.remaining()[l].size()
    } by {
        assert(emits_up_to(vlsm, (start + l) as nat));
        lemma_vlsm_order(vlsm, (start + k) as nat, (start + l) as nat);
    }
}

} // verus!
