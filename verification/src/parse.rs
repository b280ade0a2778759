//! The textual notations of a network, `address/prefix` and
//! `address netmask`, as functions on sequences of characters.

use vstd::prelude::*;
use vstd::std_specs::bits::{
    u32_leading_ones,
    u32_trailing_zeros,
    axiom_u32_leading_ones,
    axiom_u32_trailing_zeros,
};
use vstd::std_specs::convert::TryFromSpecImpl;
use crate::address::{Ipv4Address, octets_to_bits};
use crate::cidr::{Cidr, bitmask, lemma_block_size};
use crate::network::{Network, NetworkView, outcome_view, lemma_network_by_view};
use crate::network_error::NetworkError;

verus! {

/// Whether `c` is white space: one of the characters that Unicode classes
/// as `White_Space`.
pub open spec fn is_whitespace(c: char) -> bool {
    let n = c as u32;
    ||| 0x09 <= n <= 0x0d
    ||| n == 0x20
    ||| n == 0x85
    ||| n == 0xa0
    ||| n == 0x1680
    ||| 0x2000 <= n <= 0x200a
    ||| n == 0x2028
    ||| n == 0x2029
    ||| n == 0x202f
    ||| n == 0x205f
    ||| n == 0x3000
}

/// `s` without the white space at its start.
pub open spec fn without_leading_whitespace(s: Seq<char>) -> Seq<char>
    decreases s.len(),
{
    if s.len() > 0 && is_whitespace(s.first()) {
        without_leading_whitespace(s.drop_first())
    } else {
        s
    }
}

/// `s` without the white space at its end.
pub open spec fn without_trailing_whitespace(s: Seq<char>) -> Seq<char>
    decreases s.len(),
{
    if s.len() > 0 && is_whitespace(s.last()) {
        without_trailing_whitespace(s.drop_last())
    } else {
        s
    }
}

/// `s` without the white space at its start and at its end.
pub open spec fn trimmed(s: Seq<char>) -> Seq<char> {
    without_trailing_whitespace(without_leading_whitespace(s))
}

/// The number of characters of `s` that stand before the first `c`: the
/// length of `s` where `c` does not occur in it.
pub open spec fn offset_of(s: Seq<char>, c: char) -> nat
    decreases s.len(),
{
    if s.len() == 0 || s.first() == c {
        0
    } else {
        1 + offset_of(s.drop_first(), c)
    }
}

/// Whether `c` is one of the digits `0` to `9`.
pub open spec fn is_digit(c: char) -> bool {
    '0' as u32 <= c as u32 <= '9' as u32
}

/// Whether `s` holds digits only.
pub open spec fn is_digits(s: Seq<char>) -> bool {
    forall|i: int| 0 <= i < s.len() ==> is_digit(#[trigger] s[i])
}

/// The number that the digits `s` are the decimal numeral of.
pub open spec fn decimal_value(s: Seq<char>) -> nat
    decreases s.len(),
{
    if s.len() == 0 {
        0
    } else {
        decimal_value(s.drop_last()) * 10 + (s.last() as u32 - '0' as u32) as nat
    }
}

/// The octet that `s` is a numeral of: an optional `+`, then one digit or
/// more, with a value of 255 at most.
pub open spec fn octet_of(s: Seq<char>) -> Option<u8> {
    let digits = if s.len() > 0 && s[0] == '+' {
        s.skip(1)
    } else {
        s
    };
    if digits.len() > 0 && is_digits(digits) && decimal_value(digits) <= 255 {
        Some(decimal_value(digits) as u8)
    } else {
        None
    }
}

/// The octets that the fields of `s` are numerals of, the fields being what
/// the dots in `s` separate; none if one of the fields is no such numeral.
pub open spec fn octets_of(s: Seq<char>) -> Option<Seq<u8>>
    decreases s.len(),
{
    let dot = offset_of(s, '.');
    if dot < s.len() {
        match (octet_of(s.take(dot as int)), octets_of(s.skip(dot + 1 as int))) {
            (Some(octet), Some(octets)) => Some(seq![octet] + octets),
            _ => None,
        }
    } else {
        match octet_of(s) {
            Some(octet) => Some(seq![octet]),
            None => None,
        }
    }
}

/// The address that `s` is the dotted-decimal notation of: four numerals of
/// an octet each, separated by dots.
pub open spec fn address_of(s: Seq<char>) -> Option<u32> {
    match octets_of(s) {
        Some(octets) => if octets.len() == 4 {
            Some(octets_to_bits(octets[0], octets[1], octets[2], octets[3]))
        } else {
            None
        },
        None => None,
    }
}

/// What `offset_of` finds: the first occurrence.
pub proof fn lemma_offset_of(s: Seq<char>, c: char)
    ensures
        offset_of(s, c) <= s.len(),
        offset_of(s, c) < s.len() ==> s[offset_of(s, c) as int] == c,
        forall|i: int| 0 <= i < offset_of(s, c) ==> s[i] != c,
    decreases s.len(),
{
    if s.len() == 0 || s.first() == c {
    } else {
        lemma_offset_of(s.drop_first(), c);
        assert forall|i: int| 0 <= i < offset_of(s, c) implies s[i] != c by {
            if i > 0 {
                assert(s[i] == s.drop_first()[i - 1]);
            }
        }
    }
}

/// Whether `c` is white space.
fn is_space(c: char) -> (space: bool)
    ensures
        space == is_whitespace(c),
{
    let n: u32 = c as u32;
    (0x09 <= n && n <= 0x0d) || n == 0x20 || n == 0x85 || n == 0xa0 || n == 0x1680 || (0x2000 <= n
        && n <= 0x200a) || n == 0x2028 || n == 0x2029 || n == 0x202f || n == 0x205f || n == 0x3000
}

/// The characters of `text`, one by one.
fn to_chars(text: &str) -> (chars: Vec<char>)
    ensures
        chars@ == text@,
{
    let mut chars: Vec<char> = Vec::new();
    for c in it: text.chars()
        invariant
            chars@ == it.seq().take(it.index()),
            it.seq() == text@,
    {
        chars.push(c);
    }
    chars
}

/// The part of `text` between the white space at its start and at its end.
fn trim(text: &[char]) -> (part: &[char])
    ensures
        part@ == trimmed(text@),
{
    let mut start: usize = 0;
    assert(text@.skip(0) =~= text@);
    while start < text.len() && is_space(text[start])
        invariant
            start <= text.len(),
            without_leading_whitespace(text@) == without_leading_whitespace(
                text@.skip(start as int),
            ),
        decreases text.len() - start,
    {
        assert(text@.skip(start as int).drop_first() =~= text@.skip(start + 1));
        start += 1;
    }
    let mut end: usize = text.len();
    assert(text@.skip(start as int) =~= text@.subrange(start as int, end as int));
    while end > start && is_space(text[end - 1])
        invariant
            start <= end <= text.len(),
            without_trailing_whitespace(text@.skip(start as int)) == without_trailing_whitespace(
                text@.subrange(start as int, end as int),
            ),
        decreases end,
    {
        assert(text@.subrange(start as int, end as int).drop_last() =~= text@.subrange(
            start as int,
            end - 1,
        ));
        end -= 1;
    }
    &text[start..end]
}

/// The place of the first `c` in `text`.
fn find(text: &[char], c: char) -> (place: Option<usize>)
    ensures
        match place {
            Some(i) => i == offset_of(text@, c) && i < text@.len(),
            None => offset_of(text@, c) == text@.len(),
        },
{
    let mut i: usize = 0;
    assert(text@.skip(0) =~= text@);
    while i < text.len()
        invariant
            i <= text.len(),
            offset_of(text@, c) == i + offset_of(text@.skip(i as int), c),
        decreases text.len() - i,
    {
        if text[i] == c {
            return Some(i);
        }
        assert(text@.skip(i as int).drop_first() =~= text@.skip(i + 1));
        i += 1;
    }
    None
}

/// A numeral does not stand for less than what it starts with.
proof fn lemma_decimal_value_grows(s: Seq<char>, n: int)
    requires
        0 <= n <= s.len(),
        is_digits(s),
    ensures
        decimal_value(s.take(n)) <= decimal_value(s),
    decreases s.len(),
{
    if n == s.len() {
        assert(s.take(n) =~= s);
    } else {
        assert(s.drop_last().take(n) =~= s.take(n));
        assert(is_digit(s.last()));
        lemma_decimal_value_grows(s.drop_last(), n);
    }
}

/// The octet that `text` is a numeral of.
fn parse_octet(text: &[char]) -> (octet: Option<u8>)
    ensures
        octet == octet_of(text@),
{
    let len = text.len();
    let start: usize = if len > 0 && text[0] == '+' {
        1
    } else {
        0
    };
    if start == len {
        return None;
    }
    let ghost digits = text@.skip(start as int);
    let mut value: u32 = 0;
    let mut i: usize = start;
    assert(text@.skip(0) =~= text@);
    while i < len
        invariant
            start <= i <= len,
            len == text@.len(),
            digits == text@.skip(start as int),
            octet_of(text@) == if is_digits(digits) && decimal_value(digits) <= 255 {
                Some(decimal_value(digits) as u8)
            } else {
                None
            },
            is_digits(digits.take(i - start)),
            value == decimal_value(digits.take(i - start)),
            value <= 255,
        decreases len - i,
    {
        let n: u32 = text[i] as u32;
        if n < 0x30 || n > 0x39 {
            assert(!is_digit(digits[i - start]));
            return None;
        }
        assert(digits.take(i + 1 - start).drop_last() =~= digits.take(i - start));
        value = value * 10 + (n - 0x30);
        if value > 255 {
            proof {
                if is_digits(digits) {
                    lemma_decimal_value_grows(digits, i + 1 - start);
                }
            }
            return None;
        }
        i += 1;
    }
    assert(digits.take(len - start) =~= digits);
    Some(value as u8)
}

/// `octets`, then those of `more`; none where there is none of `more`.
spec fn followed_by(octets: Seq<u8>, more: Option<Seq<u8>>) -> Option<Seq<u8>> {
    match more {
        Some(more) => Some(octets + more),
        None => None,
    }
}

impl Network {
    /// The address that `text` is the dotted-decimal notation of: four
    /// numerals of an octet each, separated by dots.
    fn try_str_to_ipv4addr(text: &[char]) -> (result: Result<Ipv4Address, NetworkError>)
        ensures
            match result {
                Ok(address) => address_of(text@) == Some(address@),
                Err(error) => error == NetworkError::IPv4AddressError && address_of(text@) is None,
            },
    {
        let mut octets: Vec<u8> = Vec::with_capacity(4);
        let mut start: usize = 0;
        assert(text@.skip(0) =~= text@);
        loop
            invariant_except_break
                start <= text.len(),
                octets_of(text@) == followed_by(octets@, octets_of(text@.skip(start as int))),
            ensures
                octets_of(text@) == Some(octets@),
            decreases text.len() - start,
        {
            let rest = &text[start..text.len()];
            assert(rest@ =~= text@.skip(start as int));
            let ghost before = octets@;
            match find(rest, '.') {
                Some(dot) => {
                    match parse_octet(&rest[0..dot]) {
                        Some(octet) => {
                            octets.push(octet);
                        },
                        None => {
                            return Err(NetworkError::IPv4AddressError);
                        },
                    }
                    assert(rest@.skip(dot + 1) =~= text@.skip(start + dot + 1));
                    assert forall|more: Seq<u8>|
                        before + (seq![octets@.last()] + more) == #[trigger] (octets@ + more) by {
                        assert(before + (seq![octets@.last()] + more) =~= octets@ + more);
                    }
                    start = start + dot + 1;
                },
                None => {
                    match parse_octet(rest) {
                        Some(octet) => {
                            octets.push(octet);
                        },
                        None => {
                            return Err(NetworkError::IPv4AddressError);
                        },
                    }
                    assert(before + seq![octets@.last()] =~= octets@);
                    break ;
                },
            }
        }
        if octets.len() == 4 {
            Ok(Ipv4Address::new(octets[0], octets[1], octets[2], octets[3]))
        } else {
            Err(NetworkError::IPv4AddressError)
        }
    }
}

/// Whether `mask` is the netmask of a prefix of `prefix` bits.
pub open spec fn is_netmask(mask: u32, prefix: nat) -> bool {
    prefix <= 32 && mask == bitmask(prefix)
}

/// The length of the prefix that `mask` is the netmask of; none where the
/// set bits of `mask` are not all above its clear bits.
pub open spec fn prefix_of_netmask(mask: u32) -> Option<nat> {
    if exists|prefix: nat| is_netmask(mask, prefix) {
        Some(choose|prefix: nat| is_netmask(mask, prefix))
    } else {
        None
    }
}

/// A number is a netmask exactly when its leading ones and its trailing
/// zeros are all its bits, and its prefix is then as long as the run of
/// ones. So a number is the netmask of one prefix at most.
pub proof fn lemma_prefix_of_netmask(mask: u32)
    ensures
        prefix_of_netmask(mask) == if u32_leading_ones(mask) + u32_trailing_zeros(mask) == 32 {
            Some(u32_leading_ones(mask) as nat)
        } else {
            None
        },
        forall|prefix: nat| #[trigger] is_netmask(mask, prefix) ==> prefix_of_netmask(mask) == Some(prefix),
{
    let ones: u32 = u32_leading_ones(mask);
    let zeros: u32 = u32_trailing_zeros(mask);
    axiom_u32_leading_ones(mask);
    axiom_u32_trailing_zeros(mask);
    let above: u32 = if ones < 32 {
        (31 - ones) as u32
    } else {
        0
    };
    let over: u32 = (32 - ones) as u32;
    let under: u32 = (32 - zeros) as u32;
    assert forall|prefix: nat| #[trigger] is_netmask(mask, prefix) implies prefix == ones && ones
        + zeros == 32 by {
        lemma_block_size(prefix);
        let k: u32 = (32 - prefix) as u32;
        let b: u64 = 1u64 << (k as u64);
        assert(ones == 32 - k && zeros == k) by (bit_vector)
            requires
                k <= 32,
                b == 1u64 << (k as u64),
                mask == 0x1_0000_0000u64 - b,
                ones <= 32,
                zeros <= 32,
                ones < 32 ==> above == 31 - ones,
                over == 32 - ones,
                under == 32 - zeros,
                ones < 32 ==> (mask >> above) & 1u32 == 0u32,
                (!mask) >> over == 0,
                zeros < 32 ==> (mask >> zeros) & 1u32 == 1u32,
                mask << under == 0,
        ;
    }
    if ones + zeros == 32 {
        lemma_block_size(ones as nat);
        let b: u64 = 1u64 << (zeros as u64);
        assert(mask == 0x1_0000_0000u64 - b) by (bit_vector)
            requires
                ones + zeros == 32,
                b == 1u64 << (zeros as u64),
                over == 32 - ones,
                under == 32 - zeros,
                (!mask) >> over == 0,
                mask << under == 0,
        ;
        assert(is_netmask(mask, ones as nat));
    }
}

/// What the notation `address/prefix` makes of `s`. There is none where
/// `s` holds no slash, or no numeral of an octet after its first slash: the
/// other notation is then to be tried.
pub open spec fn prefix_notation(s: Seq<char>) -> Option<Result<NetworkView, NetworkError>> {
    let slash = offset_of(s, '/');
    if slash < s.len() {
        match address_of(s.take(slash as int)) {
            None => Some(Err(NetworkError::IPv4AddressError)),
            Some(address) => match octet_of(s.skip(slash + 1 as int)) {
                None => None,
                Some(prefix) => if prefix <= 32 {
                    Some(Ok(NetworkView::of(address, prefix as nat)))
                } else {
                    Some(Err(NetworkError::CidrOutOfRangeError))
                },
            },
        }
    } else {
        None
    }
}

/// What the notation `address netmask` makes of `s`. There is none where
/// `s` holds no space, or two addresses of which the second is no netmask.
pub open spec fn netmask_notation(s: Seq<char>) -> Option<Result<NetworkView, NetworkError>> {
    let space = offset_of(s, ' ');
    if space < s.len() {
        match address_of(s.take(space as int)) {
            None => Some(Err(NetworkError::IPv4AddressError)),
            Some(address) => match address_of(s.skip(space + 1 as int)) {
                None => Some(Err(NetworkError::IPv4AddressError)),
                Some(mask) => match prefix_of_netmask(mask) {
                    None => None,
                    Some(prefix) => Some(Ok(NetworkView::of(address, prefix))),
                },
            },
        }
    } else {
        None
    }
}

/// The network that `text` denotes: `text` is trimmed, then read in the
/// notation `address/prefix`, and failing that in the notation
/// `address netmask`.
pub open spec fn network_of(text: Seq<char>) -> Result<NetworkView, NetworkError> {
    let s = trimmed(text);
    match prefix_notation(s) {
        Some(outcome) => outcome,
        None => match netmask_notation(s) {
            Some(outcome) => outcome,
            None => Err(NetworkError::ParsingError),
        },
    }
}

impl TryFromSpecImpl<&str> for Network {
    open spec fn obeys_try_from_spec() -> bool {
        true
    }

    open spec fn try_from_spec(s: &str) -> Result<Network, NetworkError> {
        match network_of(s@) {
            Ok(view) => Ok(Network::from_view(view)),
            Err(error) => Err(error),
        }
    }
}

impl TryFrom<&str> for Network {
    type Error = NetworkError;

    /// The network that `s` denotes, in one of the notations
    /// `address/prefix` and `address netmask`.
    fn try_from(s: &str) -> (result: Result<Network, NetworkError>)
        ensures
            outcome_view(result) == network_of(s@),
    {
        let chars = to_chars(s);
        let text = trim(chars.as_slice());

        if let Some(pos) = find(text, '/') {
            let ip_addr = match Network::try_str_to_ipv4addr(&text[0..pos]) {
                Ok(address) => address,
                Err(error) => {
                    return Err(error);
                },
            };
            assert(pos < text.len());
            assert(text@.subrange(pos + 1, text@.len() as int) =~= text@.skip(pos + 1));
            if let Some(num) = parse_octet(&text[pos + 1..text.len()]) {
                return match Cidr::new(num) {
                    Ok(cidr) => {
                        let network = Network::new(ip_addr, cidr);
                        proof {
                            lemma_network_by_view(
                                network->Ok_0,
                                network->Ok_0,
                                NetworkView::of(ip_addr@, cidr@),
                            );
                        }
                        network
                    },
                    Err(error) => Err(error),
                };
            }
        }
        if let Some(pos) = find(text, ' ') {
            let ip_addr = match Network::try_str_to_ipv4addr(&text[0..pos]) {
                Ok(address) => address,
                Err(error) => {
                    return Err(error);
                },
            };
            assert(pos < text.len());
            assert(text@.subrange(pos + 1, text@.len() as int) =~= text@.skip(pos + 1));
            let bitmask = match Network::try_str_to_ipv4addr(&text[pos + 1..text.len()]) {
                Ok(address) => address.to_bits(),
                Err(error) => {
                    return Err(error);
                },
            };
            let leading_ones = bitmask.leading_ones();
            let trailing_zeros = bitmask.trailing_zeros();
            proof {
                lemma_prefix_of_netmask(bitmask);
                axiom_u32_leading_ones(bitmask);
                axiom_u32_trailing_zeros(bitmask);
            }
            if leading_ones + trailing_zeros == 32 {
                return match Cidr::new(leading_ones as u8) {
                    Ok(cidr) => {
                        let network = Network::new(ip_addr, cidr);
                        proof {
                            lemma_network_by_view(
                                network->Ok_0,
                                network->Ok_0,
                                NetworkView::of(ip_addr@, cidr@),
                            );
                        }
                        network
                    },
                    Err(error) => Err(error),
                };
            }
        }
        Err(NetworkError::ParsingError)
    }
}

} // verus!
