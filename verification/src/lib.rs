//! An in-process cache library built around serially-executing container
//! owners: a keyed map, a set and an ordered sequence, each with per-entry
//! time-to-live expiration, optional LRU/LFU capacity eviction,
//! primary-to-follower replication and CRC-16 based sharding.
//!
//! The verified core models each owner as a state machine: every command and
//! the periodic maintenance tick is a function from the old storage state to
//! the new one, with its contract. The asynchronous shell that feeds an owner
//! its commands lives outside this crate.
pub mod cache_key;
pub mod cluster;
pub mod compute;
pub mod data_struct;
pub mod error;
pub mod expiration_policy;
pub mod keyed_multi;
pub mod keyed_store;
pub mod laws;
pub mod owner;
pub mod routed;
pub mod seq_multi;
pub mod seq_store;
