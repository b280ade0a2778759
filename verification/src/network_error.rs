//! The errors reported by this library.

use vstd::prelude::*;

verus! {

/// Everything that can go wrong when building or parsing a network.
#[derive(Debug, PartialEq, Eq, Structural, Clone, Copy)]
pub enum NetworkError {
    /// The value given as a prefix length is greater than 32.
    CidrOutOfRangeError,
    /// A dotted-decimal IPv4 address was malformed.
    IPv4AddressError,
    /// The text matches none of the accepted notations.
    ParsingError,
    /// The subnet prefix is shorter than the prefix of the network to split.
    InvalidSubnetCidr,
}

} // verus!
