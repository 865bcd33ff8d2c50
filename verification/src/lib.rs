//! Verified core of a pack-archive unpacker: compiling inclusion filters,
//! joining a manifest against a pack index into ordered per-archive batches,
//! and deciding every extraction step of one archive — lookups, destinations,
//! diagnostics — so that the surrounding I/O shell has nothing left to decide.

pub mod archive;
pub mod checksum;
pub mod errors;
pub mod filter;
pub mod laws;
pub mod plan;
