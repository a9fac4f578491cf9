//! Approximate counting of spaced k-mers in DNA data with a counting sketch,
//! followed by exact extraction, sorting and collapsing of the frequent keys.
//!
//! - `encoding`: two-bit packing of bases into integers and back.
//! - `hashing`: eight table-index lanes from one SHA-512 digest.
//! - `table`: the counting table of saturating one-byte cells, its estimate
//!   and its back-off increment policy.
//! - `windows`: the spaced windows of a record.
//! - `passes`: the build, classify and pick-up scans of one record.
//! - `dedup`: sorting and run-length collapsing of the picked keys.

pub mod dedup;
pub mod encoding;
pub mod hashing;
pub mod passes;
pub mod table;
pub mod windows;
