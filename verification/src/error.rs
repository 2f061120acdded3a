//! The closed set of failure causes surfaced to callers of the cache.
use vstd::prelude::*;

verus! {

/// Everything a cache call can fail with.
///
/// - `NodeNotExists`: cluster routing computed a shard id with no owner
///   behind it (only possible for an empty cluster).
/// - `InconsistentLen`: a multi-argument call received argument arrays of
///   differing lengths; nothing was dispatched.
/// - `Receive`: the owner dropped the reply channel before answering.
/// - `Send`: the command could not be queued at the owner's inbox.
#[derive(Clone, Copy, Debug, PartialEq, Eq, Structural)]
pub enum TokioActorCacheError {
    NodeNotExists,
    InconsistentLen,
    Receive,
    Send,
}

} // verus!
