//! Prefix lengths and the netmasks they stand for.

use vstd::prelude::*;
use vstd::arithmetic::power2::{
    pow2,
    lemma2_to64,
    lemma2_to64_rest,
    lemma_pow2_adds,
    lemma_pow2_pos,
    lemma_pow2_strictly_increases,
};
use vstd::bits::lemma_u64_shl_is_mul;
use crate::network_error::NetworkError;

verus! {

/// The number of addresses that share a prefix of `prefix` bits: two to the
/// power of the number of host bits.
pub open spec fn block_size(prefix: nat) -> nat {
    pow2((32 - prefix) as nat)
}

/// The netmask of a prefix of `prefix` bits, as a number: of its 32 bits the
/// upper `prefix` are set and the others are clear.
pub open spec fn bitmask(prefix: nat) -> u32 {
    (0x1_0000_0000 - block_size(prefix)) as u32
}

/// Whether bit `i` of `x` is set, bit 0 being the least significant.
pub open spec fn bit_is_set(x: u32, i: nat) -> bool {
    (x >> (i as u32)) & 1 == 1
}

/// A block size is a power of two up to `2^32`, which one shift computes, and
/// the netmask is what is left of `2^32` after taking the block away.
pub proof fn lemma_block_size(prefix: nat)
    requires
        prefix <= 32,
    ensures
        block_size(prefix) == 1u64 << ((32 - prefix) as u64),
        1 <= block_size(prefix) <= 0x1_0000_0000,
        bitmask(prefix) == 0x1_0000_0000 - block_size(prefix),
        prefix > 0 ==> bitmask(prefix) == u32::MAX << ((32 - prefix) as u32),
        prefix == 0 ==> bitmask(prefix) == 0,
{
    let k = (32 - prefix) as nat;
    lemma2_to64();
    lemma2_to64_rest();
    if k < 32 {
        lemma_pow2_strictly_increases(k, 32);
    }
    if k > 0 {
        lemma_pow2_strictly_increases(0, k);
    }
    lemma_u64_shl_is_mul(1u64, k as u64);
    let b: u64 = 1u64 << (k as u64);
    let k32: u32 = k as u32;
    if prefix > 0 {
        assert((0x1_0000_0000u64 - b) as u32 == u32::MAX << k32) by (bit_vector)
            requires
                k32 < 32,
                b == 1u64 << (k32 as u64),
        ;
    }
}

/// The block of a shorter prefix is made of whole blocks of a longer one,
/// two to the power of the difference in length of them.
pub proof fn lemma_block_size_divides(shorter: nat, longer: nat)
    requires
        shorter <= longer <= 32,
    ensures
        block_size(shorter) == pow2((longer - shorter) as nat) * block_size(longer),
        block_size(longer) <= block_size(shorter),
        block_size(30) == 4,
        block_size(31) == 2,
        block_size(32) == 1,
{
    lemma_pow2_adds((longer - shorter) as nat, (32 - longer) as nat);
    lemma_pow2_pos((longer - shorter) as nat);
    lemma_pow2_pos((32 - longer) as nat);
    lemma2_to64();
    assert(block_size(longer) <= block_size(shorter)) by (nonlinear_arith)
        requires
            block_size(shorter) == pow2((longer - shorter) as nat) * block_size(longer),
            pow2((longer - shorter) as nat) > 0,
            block_size(longer) > 0,
    ;
}

/// Bit `i` of the netmask of a prefix is set exactly when it is one of the
/// upper `prefix` bits.
pub proof fn lemma_bitmask_bits(prefix: nat, i: nat)
    requires
        prefix <= 32,
        i < 32,
    ensures
        bit_is_set(bitmask(prefix), i) <==> i >= 32 - prefix,
{
    lemma_block_size(prefix);
    let k: u32 = (32 - prefix) as u32;
    let b: u64 = 1u64 << (k as u64);
    let m: u32 = bitmask(prefix);
    let j: u32 = i as u32;
    assert(((m >> j) & 1 == 1) <==> j >= k) by (bit_vector)
        requires
            k <= 32,
            j < 32,
            b == 1u64 << (k as u64),
            m == 0x1_0000_0000u64 - b,
    ;
}

/// The netmask of a shorter prefix is a bitwise prefix of the netmask of a
/// longer one: every bit set in the first is set in the second, the second
/// agrees with the first on the bits that the first covers, and as numbers
/// the masks grow with the prefix.
pub proof fn lemma_bitmask_monotonic(shorter: nat, longer: nat)
    requires
        shorter <= longer <= 32,
    ensures
        bitmask(shorter) & bitmask(longer) == bitmask(shorter),
        bitmask(shorter) | bitmask(longer) == bitmask(longer),
        bitmask(shorter) <= bitmask(longer),
        shorter < longer ==> bitmask(shorter) < bitmask(longer),
        forall|i: nat| i < 32 && bit_is_set(bitmask(shorter), i) ==> bit_is_set(bitmask(longer), i),
{
    lemma_block_size(shorter);
    lemma_block_size(longer);
    let k1: u32 = (32 - shorter) as u32;
    let k2: u32 = (32 - longer) as u32;
    let b1: u64 = 1u64 << (k1 as u64);
    let b2: u64 = 1u64 << (k2 as u64);
    let m1: u32 = bitmask(shorter);
    let m2: u32 = bitmask(longer);
    assert(m1 & m2 == m1 && m1 | m2 == m2 && m1 <= m2 && (k2 < k1 ==> m1 < m2)) by (bit_vector)
        requires
            k2 <= k1 <= 32,
            b1 == 1u64 << (k1 as u64),
            b2 == 1u64 << (k2 as u64),
            m1 == 0x1_0000_0000u64 - b1,
            m2 == 0x1_0000_0000u64 - b2,
    ;
    assert forall|i: nat| i < 32 && bit_is_set(bitmask(shorter), i) implies bit_is_set(
        bitmask(longer),
        i,
    ) by {
        lemma_bitmask_bits(shorter, i);
        lemma_bitmask_bits(longer, i);
    }
}

/// A prefix length between 0 and 32. Its view is that length.
#[derive(Debug, PartialEq, Eq, Structural, Ord, Clone, Copy)]
pub struct Cidr {
    inner: u8,
}

impl View for Cidr {
    type V = nat;

    closed spec fn view(&self) -> nat {
        self.inner as nat
    }
}

impl Cidr {
    /// Every prefix length is at most 32.
    #[verifier::type_invariant]
    pub open spec fn wf(self) -> bool {
        self@ <= 32
    }

    /// The prefix length `length`.
    pub closed spec fn of(length: nat) -> Cidr {
        Cidr { inner: length as u8 }
    }

    /// Accepts `cidr` as a prefix length when it is at most 32, and reports
    /// it as out of range otherwise.
    pub fn new(cidr: u8) -> (result: Result<Cidr, NetworkError>)
        ensures
            cidr <= 32 ==> result == Ok::<Cidr, NetworkError>(Cidr::of(cidr as nat)) && result->Ok_0@
                == cidr,
            cidr > 32 ==> result == Err::<Cidr, NetworkError>(NetworkError::CidrOutOfRangeError),
    {
        if cidr > 32 {
            return Err(NetworkError::CidrOutOfRangeError);
        }
        Ok(Cidr { inner: cidr })
    }

    /// The netmask of this prefix length.
    pub fn to_bitmask(self) -> (mask: u32)
        ensures
            mask == bitmask(self@),
    {
        proof {
            use_type_invariant(self);
            lemma_block_size(self@);
        }
        if self.inner == 0 {
            return 0;
        }
        u32::MAX << (32 - self.inner)
    }
}

/// A prefix length is known by its number: there is one for each number up
/// to 32, and two with the same number are the same.
pub proof fn lemma_cidr_by_length(x: Cidr, y: Cidr, length: nat)
    ensures
        length <= 32 ==> Cidr::of(length)@ == length && Cidr::of(length).wf(),
        Cidr::of(x@) == x,
        x@ == y@ ==> x == y,
{
}

impl core::ops::Deref for Cidr {
    type Target = u8;

    /// The prefix length as a number.
    fn deref(&self) -> (value: &u8)
        ensures
            *value == self@,
            *value <= 32,
    {
        proof {
            use_type_invariant(self);
        }
        &self.inner
    }
}

} // verus!
