//! IPv4 subnet arithmetic and Variable Length Subnet Masking (VLSM)
//! allocation.
//!
//! The crate converts between dotted-quad addresses and 32-bit integers,
//! derives masks, network and broadcast addresses from prefix lengths, sizes
//! blocks for host-count demands, and packs a list of demands into
//! non-overlapping sub-networks of a base network.

pub mod addr;
pub mod report;
pub mod vlsm;
