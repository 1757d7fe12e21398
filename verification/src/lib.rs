//! Management of scarce numeric Internet resources: autonomous-system
//! numbers, IPv4 prefixes and IPv6 prefixes, arranged in a three-level
//! hierarchy of assignment spaces, assignment pools and assignments.
//!
//! The heart of the crate is an allocation engine that keeps every child
//! range inside its parent's range and keeps sibling ranges disjoint; all
//! of its operations carry machine-checked contracts.

pub mod asn;
pub mod engine;
pub mod inet;
pub mod ipv4;
pub mod ipv6;
pub mod key;
pub mod laws;
pub mod schema;
pub mod store;
pub mod types;
pub mod user;

pub use store::Store;
pub use types::Error;
pub use types::ErrorKind;
