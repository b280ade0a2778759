//! IPv4 network arithmetic: prefix lengths, networks and their derived
//! addresses, textual notations, and partitioning of a network into subnets.

pub mod address;
pub mod cidr;
pub mod network;
pub mod network_error;
pub mod ordering;
pub mod parse;
pub mod round_trip;
pub mod slsm_view;
pub mod sort;
pub mod subnet;
pub mod vlsm_view;

pub use address::Ipv4Address;
pub use cidr::Cidr;
pub use network::Network;
pub use network_error::NetworkError;
pub use subnet::{Slsm, Vlsm};
