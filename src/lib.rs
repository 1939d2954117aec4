//! Planning of unsafe recovery for a range-sharded key-value store.
//!
//! Stores report the boundaries of regions that lost their leader; the plan
//! decides, for every piece of the reported keyspace, whether an existing
//! region is kept or a new empty region is created to close a hole.
pub mod keys;
pub mod region;
pub mod ranges;
pub mod plan;
pub mod laws;
