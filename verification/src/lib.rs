//! Core of a partitioned, append-only message streaming platform:
//! the binary wire codec for stream listings, the consumer-group
//! partition-assignment protocol, keyed and round-robin producer
//! routing, and offset-tracked polling.

pub mod codec;
pub mod engine;
pub mod error;
pub mod group;
pub mod registry;
pub mod topic;
