//! Capacity-bounded eviction configuration for a container owner.
use vstd::prelude::*;

verus! {

/// How an owner trims its storage on each maintenance tick.
///
/// With `LRU(c)` or `LFU(c)` the owner evicts, after the TTL sweep, the entry
/// with the smallest `last_accessed` (respectively `call_cnt`) until at most
/// `c` entries remain. `NoEviction` disables capacity eviction; only TTL applies.
#[derive(Clone, Copy, Debug)]
pub enum ExpirationPolicy {
    LFU(usize),
    LRU(usize),
    NoEviction,
}

impl ExpirationPolicy {
    /// The capacity bound, if this policy has one.
    pub open spec fn capacity_spec(self) -> Option<usize> {
        match self {
            ExpirationPolicy::LFU(c) => Some(c),
            ExpirationPolicy::LRU(c) => Some(c),
            ExpirationPolicy::NoEviction => None,
        }
    }
}

} // verus!
