//! Verified core of a local-subnet TCP service scanner.
//!
//! The crate contains the pure logic of the scanner: port-to-service
//! classification, construction of the effective port list, IPv4 address
//! formatting and prefix parsing, per-host record assembly, hostname
//! filtering, and ordered aggregation of scan results. Network I/O (TCP
//! connect probes, UDP-based local-address discovery, reverse DNS lookups)
//! is performed by the embedding application, which feeds plain values into
//! these functions and consumes the records they build.

pub mod addr;
pub mod net;
pub mod resolve;
pub mod scan;
pub mod service;
