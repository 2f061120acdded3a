//! The stored record: a payload together with its expiration deadline and
//! access statistics, and the spec-level operations the owners apply to it.
//!
//! All instants are owner-local milliseconds on a monotonic clock; a deadline
//! of `None` means the entry never expires. `call_cnt` counts every touching
//! operation (it saturates at `u64::MAX` instead of wrapping), `last_accessed`
//! is the instant of the latest touching operation.
use vstd::prelude::*;

verus! {

/// A stored record: the payload plus its time-to-live and access statistics.
pub struct ValueEx<V> {
    pub val: V,
    pub expiration: Option<u64>,
    pub call_cnt: u64,
    pub last_accessed: u64,
}

impl<V: View> View for ValueEx<V> {
    type V = ValueEx<V::V>;

    open spec fn view(&self) -> ValueEx<V::V> {
        ValueEx {
            val: self.val@,
            expiration: self.expiration,
            call_cnt: self.call_cnt,
            last_accessed: self.last_accessed,
        }
    }
}

/// Whether the entry is live (not yet expired) at instant `now`. An entry
/// whose deadline has just been reached already counts as expired.
pub open spec fn live_at<VV>(e: ValueEx<VV>, now: u64) -> bool {
    match e.expiration {
        Option::Some(t) => now < t,
        Option::None => true,
    }
}

/// One more recorded access, saturating at the counter's maximum.
pub open spec fn bump_count(c: u64) -> u64 {
    if c == u64::MAX {
        c
    } else {
        (c + 1) as u64
    }
}

/// The entry after a read touched it at instant `now`.
pub open spec fn touched<VV>(e: ValueEx<VV>, now: u64) -> ValueEx<VV> {
    ValueEx {
        val: e.val,
        expiration: e.expiration,
        call_cnt: bump_count(e.call_cnt),
        last_accessed: now,
    }
}

/// The absolute deadline for a relative time-to-live granted at `now`,
/// saturating at the end of time.
pub open spec fn deadline(ex: Option<u64>, now: u64) -> Option<u64> {
    match ex {
        Option::Some(d) => Option::Some(
            if now + d > u64::MAX {
                u64::MAX
            } else {
                (now + d) as u64
            },
        ),
        Option::None => Option::None,
    }
}

/// The record written for a key that was absent (or only held an expired
/// entry) at write time.
pub open spec fn fresh_entry<VV>(v: VV, ex: Option<u64>, now: u64) -> ValueEx<VV> {
    ValueEx { val: v, expiration: deadline(ex, now), call_cnt: 0, last_accessed: now }
}

/// The record written over a live prior entry: the access counter carries on
/// from the prior record.
pub open spec fn overwrite_entry<VV>(v: VV, ex: Option<u64>, prior_cnt: u64, now: u64) -> ValueEx<
    VV,
> {
    ValueEx {
        val: v,
        expiration: deadline(ex, now),
        call_cnt: bump_count(prior_cnt),
        last_accessed: now,
    }
}

/// The statistic capacity eviction compares entries by: the access counter
/// under LFU, the last-access instant under LRU.
pub open spec fn stat_of<VV>(e: ValueEx<VV>, by_count: bool) -> u64 {
    if by_count {
        e.call_cnt
    } else {
        e.last_accessed
    }
}

impl<V: crate::cache_key::CacheValue> ValueEx<V> {
    /// An exact copy of the record.
    pub fn dup(&self) -> (r: Self)
        ensures
            r@ == self@,
    {
        ValueEx {
            val: self.val.dup(),
            expiration: self.expiration,
            call_cnt: self.call_cnt,
            last_accessed: self.last_accessed,
        }
    }

    /// Whether the entry is live at instant `now`.
    pub fn is_live(&self, now: u64) -> (r: bool)
        ensures
            r == live_at(self@, now),
    {
        match self.expiration {
            Option::Some(t) => now < t,
            Option::None => true,
        }
    }

    /// The record after a read touched it at instant `now`.
    pub fn touch(&self, now: u64) -> (r: Self)
        ensures
            r@ == touched(self@, now),
    {
        let cnt: u64 = if self.call_cnt == u64::MAX {
            self.call_cnt
        } else {
            self.call_cnt + 1
        };
        ValueEx {
            val: self.val.dup(),
            expiration: self.expiration,
            call_cnt: cnt,
            last_accessed: now,
        }
    }
}

/// The absolute deadline for a relative time-to-live granted at `now`.
pub fn make_deadline(ex: Option<u64>, now: u64) -> (r: Option<u64>)
    ensures
        r == deadline(ex, now),
{
    match ex {
        Option::Some(d) => {
            if now > u64::MAX - d {
                Option::Some(u64::MAX)
            } else {
                Option::Some(now + d)
            }
        },
        Option::None => Option::None,
    }
}

} // verus!
