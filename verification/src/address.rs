//! IPv4 addresses as 32-bit numbers.

use vstd::prelude::*;

verus! {

/// The number whose four bytes, most significant first, are `a`, `b`, `c`
/// and `d`.
pub open spec fn octets_to_bits(a: u8, b: u8, c: u8, d: u8) -> u32 {
    (a * 0x100_0000 + b * 0x1_0000 + c * 0x100 + d) as u32
}

/// The four bytes of `bits`, most significant first.
pub open spec fn bits_to_octets(bits: u32) -> Seq<u8> {
    seq![
        (bits / 0x100_0000) as u8,
        (bits / 0x1_0000 % 0x100) as u8,
        (bits / 0x100 % 0x100) as u8,
        (bits % 0x100) as u8,
    ]
}

/// An IPv4 address. Its view is the address as a 32-bit number, the first
/// octet in the most significant byte.
#[derive(Debug, PartialEq, Eq, Structural, Ord, Hash, Clone, Copy)]
pub struct Ipv4Address {
    bits: u32,
}

impl View for Ipv4Address {
    type V = u32;

    closed spec fn view(&self) -> u32 {
        self.bits
    }
}

impl Ipv4Address {
    /// The address whose number is `bits`.
    pub closed spec fn spec_from_bits(bits: u32) -> Ipv4Address {
        Ipv4Address { bits }
    }

    /// The address `a.b.c.d`.
    pub fn new(a: u8, b: u8, c: u8, d: u8) -> (address: Ipv4Address)
        ensures
            address@ == octets_to_bits(a, b, c, d),
    {
        let bits: u32 = ((a as u32) << 24) | ((b as u32) << 16) | ((c as u32) << 8) | (d as u32);
        assert(bits == a * 0x100_0000 + b * 0x1_0000 + c * 0x100 + d) by (bit_vector)
            requires
                bits == ((a as u32) << 24) | ((b as u32) << 16) | ((c as u32) << 8) | (d as u32),
        ;
        Ipv4Address { bits }
    }

    /// The address whose number is `bits`.
    #[verifier::when_used_as_spec(spec_from_bits)]
    pub fn from_bits(bits: u32) -> (address: Ipv4Address)
        ensures
            address@ == bits,
            address == Ipv4Address::spec_from_bits(bits),
    {
        Ipv4Address { bits }
    }

    /// The address as a number.
    pub fn to_bits(&self) -> (bits: u32)
        ensures
            bits == self@,
    {
        self.bits
    }

    /// The four octets of the address, in the order in which they are
    /// written.
    pub fn octets(&self) -> (octets: [u8; 4])
        ensures
            octets@ == bits_to_octets(self@),
    {
        let bits: u32 = self.bits;
        let a: u8 = (bits >> 24) as u8;
        let b: u8 = ((bits >> 16) & 0xff) as u8;
        let c: u8 = ((bits >> 8) & 0xff) as u8;
        let d: u8 = (bits & 0xff) as u8;
        assert(bits >> 24 == bits / 0x100_0000 && (bits >> 16) & 0xff == bits / 0x1_0000 % 0x100
            && (bits >> 8) & 0xff == bits / 0x100 % 0x100 && bits & 0xff == bits % 0x100)
            by (bit_vector);
        let octets: [u8; 4] = [a, b, c, d];
        assert(octets@ =~= bits_to_octets(self@));
        octets
    }
}

/// The number of an address that may be absent.
pub open spec fn address_bits(address: Option<Ipv4Address>) -> Option<u32> {
    match address {
        Some(a) => Some(a@),
        None => None,
    }
}

/// An address is known by its number: there is one address for each
/// number, and two addresses with the same number are the same address.
pub proof fn lemma_address_by_bits(x: Ipv4Address, y: Ipv4Address, bits: u32)
    ensures
        Ipv4Address::from_bits(bits)@ == bits,
        Ipv4Address::from_bits(x@) == x,
        x@ == y@ ==> x == y,
{
}

/// Writing an address as octets and reading the octets back gives the
/// address.
pub proof fn lemma_octets_of_bits(bits: u32)
    ensures
        ({
            let o = bits_to_octets(bits);
            octets_to_bits(o[0], o[1], o[2], o[3]) == bits
        }),
{
    let a: u8 = (bits / 0x100_0000) as u8;
    let b: u8 = (bits / 0x1_0000 % 0x100) as u8;
    let c: u8 = (bits / 0x100 % 0x100) as u8;
    let d: u8 = (bits % 0x100) as u8;
    assert(a * 0x100_0000 + b * 0x1_0000 + c * 0x100 + d == bits) by (bit_vector)
        requires
            a == bits / 0x100_0000,
            b == bits / 0x1_0000 % 0x100,
            c == bits / 0x100 % 0x100,
            d == bits % 0x100,
    ;
}

/// Reading four octets as an address and writing the address as octets
/// gives the four octets.
pub proof fn lemma_bits_of_octets(a: u8, b: u8, c: u8, d: u8)
    ensures
        bits_to_octets(octets_to_bits(a, b, c, d)) == seq![a, b, c, d],
        octets_to_bits(a, b, c, d) == a * 0x100_0000 + b * 0x1_0000 + c * 0x100 + d,
{
    let bits: u32 = (a * 0x100_0000 + b * 0x1_0000 + c * 0x100 + d) as u32;
    assert(bits / 0x100_0000 == a && bits / 0x1_0000 % 0x100 == b && bits / 0x100 % 0x100 == c
        && bits % 0x100 == d) by (bit_vector)
        requires
            bits == a * 0x100_0000 + b * 0x1_0000 + c * 0x100 + d,
    ;
    assert(bits_to_octets(bits) =~= seq![a, b, c, d]);
}

} // verus!
