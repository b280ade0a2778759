//! Writing a network down and reading it back: the notations of `parse`
//! give back the network that was written.

use vstd::prelude::*;
use crate::address::{bits_to_octets, octets_to_bits, lemma_octets_of_bits};
use crate::cidr::bitmask;
use crate::network::NetworkView;
use crate::network_error::NetworkError;
use crate::parse::{
    address_of,
    decimal_value,
    is_digit,
    is_digits,
    is_whitespace,
    is_netmask,
    lemma_offset_of,
    lemma_prefix_of_netmask,
    network_of,
    octet_of,
    octets_of,
    offset_of,
    prefix_notation,
    trimmed,
};

verus! {

/// The digit that stands for `d`, a number below ten.
pub open spec fn digit_of(d: nat) -> char {
    ('0' as u32 + d) as char
}

/// The decimal numeral of `n`, without a sign and without leading zeros.
pub open spec fn decimal(n: nat) -> Seq<char>
    decreases n,
{
    if n < 10 {
        seq![digit_of(n)]
    } else {
        decimal(n / 10).push(digit_of(n % 10))
    }
}

/// The dotted-decimal notation of the address with number `bits`.
pub open spec fn dotted(bits: u32) -> Seq<char> {
    let octets = bits_to_octets(bits);
    decimal(octets[0] as nat) + seq!['.'] + decimal(octets[1] as nat) + seq!['.'] + decimal(
        octets[2] as nat,
    ) + seq!['.'] + decimal(octets[3] as nat)
}

/// Whether `c` can stand in the dotted-decimal notation of an address.
pub open spec fn is_address_char(c: char) -> bool {
    is_digit(c) || c == '+' || c == '.'
}

/// The numeral of a number holds digits only, and stands for that number.
pub proof fn lemma_decimal(n: nat)
    ensures
        decimal(n).len() > 0,
        is_digits(decimal(n)),
        decimal_value(decimal(n)) == n,
        n <= 255 ==> octet_of(decimal(n)) == Some(n as u8),
    decreases n,
{
    if n < 10 {
        assert(decimal(n).drop_last() =~= Seq::<char>::empty());
        assert(decimal_value(decimal(n).drop_last()) == 0);
    } else {
        lemma_decimal(n / 10);
        assert(decimal(n).drop_last() =~= decimal(n / 10));
        assert(decimal(n).last() == digit_of(n % 10));
    }
    assert(is_digit(decimal(n)[0]));
}

/// A numeral of an octet is not empty, holds nothing but digits after an
/// optional sign, and ends in a digit.
pub proof fn lemma_octet_chars(s: Seq<char>)
    requires
        octet_of(s) is Some,
    ensures
        s.len() > 0,
        is_digit(s.last()),
        forall|i: int| 0 <= i < s.len() ==> is_digit(#[trigger] s[i]) || s[i] == '+',
{
    let digits = if s.len() > 0 && s[0] == '+' {
        s.skip(1)
    } else {
        s
    };
    assert(is_digit(digits.last()));
    assert forall|i: int| 0 <= i < s.len() implies is_digit(#[trigger] s[i]) || s[i] == '+' by {
        if s[0] == '+' {
            if i > 0 {
                assert(s[i] == digits[i - 1]);
            }
        } else {
            assert(s[i] == digits[i]);
        }
    }
}

/// Where `c` does not occur in `head`, the first `c` in `head`, `c`, `tail`
/// is the one between them.
pub proof fn lemma_offset_of_joined(head: Seq<char>, c: char, tail: Seq<char>)
    requires
        forall|i: int| 0 <= i < head.len() ==> head[i] != c,
    ensures
        offset_of(head + seq![c] + tail, c) == head.len(),
        (head + seq![c] + tail).take(head.len() as int) == head,
        (head + seq![c] + tail).skip(head.len() + 1 as int) == tail,
    decreases head.len(),
{
    let whole = head + seq![c] + tail;
    assert(whole.take(head.len() as int) =~= head);
    assert(whole.skip(head.len() + 1 as int) =~= tail);
    if head.len() > 0 {
        assert(whole.first() == head[0]);
        assert(whole.drop_first() =~= head.drop_first() + seq![c] + tail);
        lemma_offset_of_joined(head.drop_first(), c, tail);
    }
}

/// Where `c` does not occur in `s`, its offset is the length of `s`.
pub proof fn lemma_offset_of_absent(s: Seq<char>, c: char)
    requires
        forall|i: int| 0 <= i < s.len() ==> s[i] != c,
    ensures
        offset_of(s, c) == s.len(),
    decreases s.len(),
{
    if s.len() > 0 {
        lemma_offset_of_absent(s.drop_first(), c);
    }
}

/// A text that neither starts nor ends with white space is trimmed already.
pub proof fn lemma_trimmed_already(s: Seq<char>)
    requires
        s.len() > 0 ==> !is_whitespace(s.first()) && !is_whitespace(s.last()),
    ensures
        trimmed(s) == s,
{
}

/// The notation of an address reads as its fields do: a numeral of an
/// octet, a dot and more fields give that octet and then those of the
/// fields that follow, and a numeral alone gives its octet alone.
pub proof fn lemma_octets_of_fields(field: Seq<char>, more: Seq<char>)
    requires
        octet_of(field) is Some,
    ensures
        octets_of(field) == Some(seq![octet_of(field)->Some_0]),
        octets_of(field + seq!['.'] + more) == match octets_of(more) {
            Some(octets) => Some(seq![octet_of(field)->Some_0] + octets),
            None => None,
        },
{
    lemma_octet_chars(field);
    lemma_offset_of_absent(field, '.');
    lemma_offset_of_joined(field, '.', more);
}

/// Four numerals of an octet each, joined by dots, are the notation of the
/// address with those octets.
pub proof fn lemma_address_of_fields(a: Seq<char>, b: Seq<char>, c: Seq<char>, d: Seq<char>)
    requires
        octet_of(a) is Some,
        octet_of(b) is Some,
        octet_of(c) is Some,
        octet_of(d) is Some,
    ensures
        address_of(a + seq!['.'] + b + seq!['.'] + c + seq!['.'] + d) == Some(
            octets_to_bits(
                octet_of(a)->Some_0,
                octet_of(b)->Some_0,
                octet_of(c)->Some_0,
                octet_of(d)->Some_0,
            ),
        ),
{
    let dot = seq!['.'];
    lemma_octets_of_fields(d, Seq::empty());
    lemma_octets_of_fields(c, d);
    lemma_octets_of_fields(b, c + dot + d);
    lemma_octets_of_fields(a, b + dot + (c + dot + d));
    assert(a + dot + b + dot + c + dot + d =~= a + dot + (b + dot + (c + dot + d)));
    let octets = octets_of(a + dot + b + dot + c + dot + d)->Some_0;
    assert(octets =~= seq![
        octet_of(a)->Some_0,
        octet_of(b)->Some_0,
        octet_of(c)->Some_0,
        octet_of(d)->Some_0,
    ]);
}

/// The dotted-decimal notation of an address reads as that address.
pub proof fn lemma_address_of_dotted(bits: u32)
    ensures
        address_of(dotted(bits)) == Some(bits),
{
    let octets = bits_to_octets(bits);
    lemma_decimal(octets[0] as nat);
    lemma_decimal(octets[1] as nat);
    lemma_decimal(octets[2] as nat);
    lemma_decimal(octets[3] as nat);
    lemma_address_of_fields(
        decimal(octets[0] as nat),
        decimal(octets[1] as nat),
        decimal(octets[2] as nat),
        decimal(octets[3] as nat),
    );
    lemma_octets_of_bits(bits);
}

/// The notation of an address is not empty, starts with a sign or a digit,
/// ends with a digit, and holds signs, digits and dots only.
pub proof fn lemma_address_chars(s: Seq<char>)
    requires
        octets_of(s) is Some,
    ensures
        s.len() > 0,
        is_digit(s.first()) || s.first() == '+',
        is_digit(s.last()),
        forall|i: int| 0 <= i < s.len() ==> is_address_char(#[trigger] s[i]),
    decreases s.len(),
{
    let dot = offset_of(s, '.');
    if dot < s.len() {
        let field = s.take(dot as int);
        let more = s.skip(dot + 1 as int);
        lemma_octet_chars(field);
        lemma_address_chars(more);
        lemma_offset_of(s, '.');
        assert(s.first() == field.first());
        assert(s.last() == more.last());
        assert forall|i: int| 0 <= i < s.len() implies is_address_char(#[trigger] s[i]) by {
            if i < dot {
                assert(s[i] == field[i]);
            } else if i > dot {
                assert(s[i] == more[i - dot - 1]);
            }
        }
    } else {
        lemma_octet_chars(s);
    }
}

/// An address, a slash and a numeral of an octet denote the network of the
/// address under a prefix as long as the numeral says, where that is at
/// most 32. A greater number is reported as out of range.
pub proof fn lemma_network_of_prefix_notation(address: Seq<char>, prefix: Seq<char>)
    requires
        address_of(address) is Some,
        octet_of(prefix) is Some,
    ensures
        network_of(address + seq!['/'] + prefix) == if octet_of(prefix)->Some_0 <= 32 {
            Ok::<NetworkView, NetworkError>(
                NetworkView::of(address_of(address)->Some_0, octet_of(prefix)->Some_0 as nat),
            )
        } else {
            Err::<NetworkView, NetworkError>(NetworkError::CidrOutOfRangeError)
        },
{
    let text = address + seq!['/'] + prefix;
    lemma_address_chars(address);
    lemma_octet_chars(prefix);
    assert(text.first() == address.first());
    assert(text.last() == prefix.last());
    lemma_trimmed_already(text);
    lemma_offset_of_joined(address, '/', prefix);
}

/// Two addresses with a space between them, of which the second is the
/// netmask of a prefix, denote the network of the first under that prefix.
pub proof fn lemma_network_of_netmask_notation(address: Seq<char>, mask: Seq<char>, prefix: nat)
    requires
        address_of(address) is Some,
        address_of(mask) == Some(bitmask(prefix)),
        prefix <= 32,
    ensures
        network_of(address + seq![' '] + mask) == Ok::<NetworkView, NetworkError>(
            NetworkView::of(address_of(address)->Some_0, prefix),
        ),
{
    let text = address + seq![' '] + mask;
    lemma_address_chars(address);
    lemma_address_chars(mask);
    assert(text.first() == address.first());
    assert(text.last() == mask.last());
    lemma_trimmed_already(text);
    lemma_offset_of_joined(address, ' ', mask);
    assert forall|i: int| 0 <= i < text.len() implies text[i] != '/' by {
        if i < address.len() {
            assert(text[i] == address[i]);
        } else if i > address.len() {
            assert(text[i] == mask[i - address.len() - 1]);
        }
    }
    lemma_offset_of_absent(text, '/');
    assert(prefix_notation(text) is None);
    lemma_prefix_of_netmask(bitmask(prefix));
    assert(is_netmask(bitmask(prefix), prefix));
}

/// A network written as the dotted-decimal notation of an address, a slash
/// and the decimal numeral of a prefix length reads as the network of that
/// address under that prefix.
pub proof fn lemma_round_trip_prefix_notation(address: u32, prefix: nat)
    requires
        prefix <= 32,
    ensures
        network_of(dotted(address) + seq!['/'] + decimal(prefix)) == Ok::<
            NetworkView,
            NetworkError,
        >(NetworkView::of(address, prefix)),
{
    lemma_address_of_dotted(address);
    lemma_decimal(prefix);
    lemma_network_of_prefix_notation(dotted(address), decimal(prefix));
}

/// A network written as the dotted-decimal notation of an address, a space
/// and the dotted-decimal notation of a netmask reads as the network of
/// that address under the prefix of that netmask.
pub proof fn lemma_round_trip_netmask_notation(address: u32, prefix: nat)
    requires
        prefix <= 32,
    ensures
        network_of(dotted(address) + seq![' '] + dotted(bitmask(prefix))) == Ok::<
            NetworkView,
            NetworkError,
        >(NetworkView::of(address, prefix)),
{
    lemma_address_of_dotted(address);
    lemma_address_of_dotted(bitmask(prefix));
    lemma_network_of_netmask_notation(dotted(address), dotted(bitmask(prefix)), prefix);
}

} // verus!
