//! The container owners: the state each serially-executing owner task holds
//! (storage, eviction policy, replication mode) and the transition every
//! command and maintenance tick applies to it.
//!
//! An owner is driven from outside: a shell delivers one command at a time
//! and fires the periodic tick, pulling the primary's snapshot first when the
//! owner is replicating. Everything the shell may do to the state is a method
//! here, with its contract.
use vstd::prelude::*;

use crate::cache_key::{opt_view, views_of, CacheKey, CacheValue};
use crate::data_struct::{live_at, ValueEx};
use crate::error::TokioActorCacheError;
use crate::expiration_policy::ExpirationPolicy;
use crate::keyed_multi::{
    opt_views, spec_minsert, spec_mremove, spec_mremove_out, spec_mtouch,
};
use crate::keyed_store::{
    live_keys_of, live_pairs_of, spec_insert, spec_read, spec_touch, spec_touch_all, spec_ttl,
    tick_rel, KeyedStore,
};
use crate::seq_multi::spec_mpush;
use crate::seq_store::{
    seq_has_live, seq_tick_rel, spec_live_vals, spec_mremove_vals, spec_mremove_vals_out,
    spec_mtouch_vals, spec_mttl_out, spec_mttl_state, spec_push, spec_touch_all_seq, SeqStore,
};

verus! {

/// What a follower's maintenance tick may do, given the primary it would
/// pull from: when the owner is replicating the tick acts on the primary's
/// snapshot, otherwise on the follower's own storage alone.
pub open spec fn follower_tick_allowed<KV, VV>(
    own: Map<KV, ValueEx<VV>>,
    replicating: bool,
    policy: ExpirationPolicy,
    primary: Map<KV, ValueEx<VV>>,
    post: Map<KV, ValueEx<VV>>,
    now: u64,
) -> bool {
    if replicating {
        tick_rel(primary, post, policy, now)
    } else {
        tick_rel(own, post, policy, now)
    }
}

/// The owner of one map-shaped container: unique-key storage, the eviction
/// policy fixed at construction, and the replication mode.
pub struct MapOwner<K: CacheKey, V: CacheValue> {
    store: KeyedStore<K, V>,
    policy: ExpirationPolicy,
    replicating: bool,
}

impl<K: CacheKey, V: CacheValue> MapOwner<K, V> {
    /// The abstract storage contents.
    pub closed spec fn store_view(self) -> Map<K::V, ValueEx<V::V>> {
        self.store@
    }

    /// The eviction policy the owner was created with.
    pub closed spec fn policy_spec(self) -> ExpirationPolicy {
        self.policy
    }

    /// Whether the owner currently mirrors a primary.
    pub closed spec fn is_follower_spec(self) -> bool {
        self.replicating
    }

    /// The storage invariant.
    pub closed spec fn wf(self) -> bool {
        self.store.wf()
    }

    /// A fresh standalone owner with empty storage.
    pub fn new(policy: ExpirationPolicy) -> (r: Self)
        ensures
            r.wf(),
            r.store_view() == Map::<K::V, ValueEx<V::V>>::empty(),
            r.policy_spec() == policy,
            !r.is_follower_spec(),
    {
        MapOwner { store: KeyedStore::new(), policy, replicating: false }
    }

    /// Writes `val` under `key`; see `spec_insert` for the exact transition.
    pub fn insert(&mut self, key: K, val: V, ex: Option<u64>, nx: bool, now: u64)
        requires
            old(self).wf(),
        ensures
            final (self).wf(),
            final (self).store_view() == spec_insert(
                old(self).store_view(),
                key@,
                val@,
                ex,
                nx,
                now,
            ),
            final (self).policy_spec() == old(self).policy_spec(),
            final (self).is_follower_spec() == old(self).is_follower_spec(),
    {
        self.store.insert(key, val, ex, nx, now);
    }

    /// Writes many keys in index order; arrays of differing lengths fail
    /// with `InconsistentLen` before anything is written.
    pub fn minsert(
        &mut self,
        keys: &Vec<K>,
        vals: &Vec<V>,
        exs: &Vec<Option<u64>>,
        nxs: &Vec<bool>,
        now: u64,
    ) -> (r: Result<(), TokioActorCacheError>)
        requires
            old(self).wf(),
        ensures
            final (self).wf(),
            final (self).policy_spec() == old(self).policy_spec(),
            final (self).is_follower_spec() == old(self).is_follower_spec(),
            keys@.len() == vals@.len() && vals@.len() == exs@.len() && exs@.len() == nxs@.len()
                ==> r == Result::<(), TokioActorCacheError>::Ok(()) && final (self).store_view()
                == spec_minsert(
                old(self).store_view(),
                views_of(keys@),
                views_of(vals@),
                exs@,
                nxs@,
                now,
            ),
            !(keys@.len() == vals@.len() && vals@.len() == exs@.len() && exs@.len() == nxs@.len())
                ==> r == Result::<(), TokioActorCacheError>::Err(
                TokioActorCacheError::InconsistentLen,
            ) && final (self).store_view() == old(self).store_view(),
    {
        if keys.len() != vals.len() || vals.len() != exs.len() || exs.len() != nxs.len() {
            return Result::Err(TokioActorCacheError::InconsistentLen);
        }
        self.store.minsert_all(keys, vals, exs, nxs, now);
        Result::Ok(())
    }

    /// Reads one key; a hit bumps the entry's access statistics.
    pub fn get(&mut self, key: &K, now: u64) -> (r: Option<V>)
        requires
            old(self).wf(),
        ensures
            final (self).wf(),
            final (self).store_view() == spec_touch(old(self).store_view(), key@, now),
            opt_view(r) == spec_read(old(self).store_view(), key@, now),
            final (self).policy_spec() == old(self).policy_spec(),
            final (self).is_follower_spec() == old(self).is_follower_spec(),
    {
        self.store.get(key, now)
    }

    /// Reads many keys; answers align with the input and reflect the storage
    /// as it stood before the call.
    pub fn mget(&mut self, keys: &Vec<K>, now: u64) -> (r: Vec<Option<V>>)
        requires
            old(self).wf(),
        ensures
            final (self).wf(),
            final (self).store_view() == spec_mtouch(old(self).store_view(), views_of(keys@), now),
            r@.len() == keys@.len(),
            forall|i: int|
                0 <= i < keys@.len() ==> opt_view(#[trigger] r@[i]) == spec_read(
                    old(self).store_view(),
                    keys@[i]@,
                    now,
                ),
            final (self).policy_spec() == old(self).policy_spec(),
            final (self).is_follower_spec() == old(self).is_follower_spec(),
    {
        self.store.mget(keys, now)
    }

    /// Per-key membership; hits bump access statistics.
    pub fn contains_key(&mut self, keys: &Vec<K>, now: u64) -> (r: Vec<bool>)
        requires
            old(self).wf(),
        ensures
            final (self).wf(),
            final (self).store_view() == spec_mtouch(old(self).store_view(), views_of(keys@), now),
            r@.len() == keys@.len(),
            forall|i: int|
                0 <= i < keys@.len() ==> (#[trigger] r@[i]) == (old(self).store_view().contains_key(
                    keys@[i]@,
                ) && live_at(old(self).store_view()[keys@[i]@], now)),
            final (self).policy_spec() == old(self).policy_spec(),
            final (self).is_follower_spec() == old(self).is_follower_spec(),
    {
        self.store.mcontains(keys, now)
    }

    /// Removes many keys in order, answering each key's live payload at its
    /// own removal instant.
    pub fn remove(&mut self, keys: &Vec<K>, now: u64) -> (r: Vec<Option<V>>)
        requires
            old(self).wf(),
        ensures
            final (self).wf(),
            final (self).store_view() == spec_mremove(old(self).store_view(), views_of(keys@)),
            opt_views(r@) == spec_mremove_out(old(self).store_view(), views_of(keys@), now),
            r@.len() == keys@.len(),
            final (self).policy_spec() == old(self).policy_spec(),
            final (self).is_follower_spec() == old(self).is_follower_spec(),
    {
        self.store.mremove(keys, now)
    }

    /// Per-key remaining time-to-live; hits bump access statistics.
    pub fn ttl(&mut self, keys: &Vec<K>, now: u64) -> (r: Vec<Option<u64>>)
        requires
            old(self).wf(),
        ensures
            final (self).wf(),
            final (self).store_view() == spec_mtouch(old(self).store_view(), views_of(keys@), now),
            r@.len() == keys@.len(),
            forall|i: int|
                0 <= i < keys@.len() ==> (#[trigger] r@[i]) == spec_ttl(
                    old(self).store_view(),
                    keys@[i]@,
                    now,
                ),
            final (self).policy_spec() == old(self).policy_spec(),
            final (self).is_follower_spec() == old(self).is_follower_spec(),
    {
        self.store.mttl(keys, now)
    }

    /// Every live key/payload pair; each returned entry's access statistics
    /// are bumped.
    pub fn get_all(&mut self, now: u64) -> (r: Vec<(K, V)>)
        requires
            old(self).wf(),
        ensures
            final (self).wf(),
            final (self).store_view() == spec_touch_all(old(self).store_view(), now),
            live_pairs_of(r@, old(self).store_view(), now),
            final (self).policy_spec() == old(self).policy_spec(),
            final (self).is_follower_spec() == old(self).is_follower_spec(),
    {
        self.store.get_all(now)
    }

    /// The raw storage snapshot a primary answers a replication pull with.
    pub fn get_all_raw(&self) -> (r: KeyedStore<K, V>)
        requires
            self.wf(),
        ensures
            r.wf(),
            r@ == self.store_view(),
    {
        self.store.snapshot()
    }

    /// Empties the storage.
    pub fn clear(&mut self)
        requires
            old(self).wf(),
        ensures
            final (self).wf(),
            final (self).store_view() == Map::<K::V, ValueEx<V::V>>::empty(),
            final (self).policy_spec() == old(self).policy_spec(),
            final (self).is_follower_spec() == old(self).is_follower_spec(),
    {
        self.store.clear();
    }

    /// How many entries the storage holds, live or not.
    pub fn len(&self) -> (n: usize)
        requires
            self.wf(),
        ensures
            n == self.store_view().dom().len(),
    {
        self.store.len()
    }

    /// Starts mirroring a primary; storage is kept until the next tick pulls.
    pub fn replicate(&mut self)
        requires
            old(self).wf(),
        ensures
            final (self).wf(),
            final (self).store_view() == old(self).store_view(),
            final (self).policy_spec() == old(self).policy_spec(),
            final (self).is_follower_spec(),
    {
        self.replicating = true;
    }

    /// Stops mirroring; storage keeps whatever was last replicated in.
    pub fn stop_replicating(&mut self)
        requires
            old(self).wf(),
        ensures
            final (self).wf(),
            final (self).store_view() == old(self).store_view(),
            final (self).policy_spec() == old(self).policy_spec(),
            !final (self).is_follower_spec(),
    {
        self.replicating = false;
    }

    /// Whether the owner currently mirrors a primary.
    pub fn is_replica(&self) -> (r: bool)
        ensures
            r == self.is_follower_spec(),
    {
        self.replicating
    }

    /// One maintenance tick at instant `now`. A replicating owner is handed
    /// the primary's snapshot, which replaces its storage before the TTL
    /// sweep and eviction; a standalone owner is handed nothing.
    pub fn tick(&mut self, now: u64, pulled: Option<KeyedStore<K, V>>)
        requires
            old(self).wf(),
            match pulled {
                Option::Some(p) => p.wf() && old(self).is_follower_spec(),
                Option::None => true,
            },
        ensures
            final (self).wf(),
            final (self).policy_spec() == old(self).policy_spec(),
            final (self).is_follower_spec() == old(self).is_follower_spec(),
            tick_rel(
                match pulled {
                    Option::Some(p) => p@,
                    Option::None => old(self).store_view(),
                },
                final (self).store_view(),
                old(self).policy_spec(),
                now,
            ),
    {
        match pulled {
            Option::Some(p) => {
                self.store = p;
            },
            Option::None => {},
        }
        self.store.tick(&self.policy, now);
    }

    /// One maintenance tick against the primary this owner would pull from:
    /// the pull happens exactly when the owner is replicating.
    pub fn follower_tick(&mut self, primary: &Self, now: u64)
        requires
            old(self).wf(),
            primary.wf(),
        ensures
            final (self).wf(),
            final (self).policy_spec() == old(self).policy_spec(),
            final (self).is_follower_spec() == old(self).is_follower_spec(),
            follower_tick_allowed(
                old(self).store_view(),
                old(self).is_follower_spec(),
                old(self).policy_spec(),
                primary.store_view(),
                final (self).store_view(),
                now,
            ),
    {
        if self.replicating {
            let snap = primary.get_all_raw();
            self.tick(now, Option::Some(snap));
        } else {
            self.tick(now, Option::None);
        }
    }
}

} // verus!

verus! {

/// The owner of one set-shaped container: a unique-value store where the
/// member itself is the key and the stored payload is empty.
pub struct SetOwner<V: CacheKey> {
    store: KeyedStore<V, ()>,
    policy: ExpirationPolicy,
    replicating: bool,
}

impl<V: CacheKey> SetOwner<V> {
    /// The abstract storage contents: each member's state record under the
    /// member's abstract value.
    pub closed spec fn store_view(self) -> Map<V::V, ValueEx<()>> {
        self.store@
    }

    /// The eviction policy the owner was created with.
    pub closed spec fn policy_spec(self) -> ExpirationPolicy {
        self.policy
    }

    /// Whether the owner currently mirrors a primary.
    pub closed spec fn is_follower_spec(self) -> bool {
        self.replicating
    }

    /// The storage invariant.
    pub closed spec fn wf(self) -> bool {
        self.store.wf()
    }

    /// A fresh standalone owner with empty storage.
    pub fn new(policy: ExpirationPolicy) -> (r: Self)
        ensures
            r.wf(),
            r.store_view() == Map::<V::V, ValueEx<()>>::empty(),
            r.policy_spec() == policy,
            !r.is_follower_spec(),
    {
        SetOwner { store: KeyedStore::new(), policy, replicating: false }
    }

    /// Adds `val` to the set; see `spec_insert` for the exact transition.
    pub fn insert(&mut self, val: V, ex: Option<u64>, nx: bool, now: u64)
        requires
            old(self).wf(),
        ensures
            final (self).wf(),
            final (self).store_view() == spec_insert(old(self).store_view(), val@, (), ex, nx, now),
            final (self).policy_spec() == old(self).policy_spec(),
            final (self).is_follower_spec() == old(self).is_follower_spec(),
    {
        self.store.insert(val, (), ex, nx, now);
    }

    /// Adds many members in index order; arrays of differing lengths fail
    /// with `InconsistentLen` before anything is written.
    pub fn minsert(
        &mut self,
        vals: &Vec<V>,
        exs: &Vec<Option<u64>>,
        nxs: &Vec<bool>,
        now: u64,
    ) -> (r: Result<(), TokioActorCacheError>)
        requires
            old(self).wf(),
        ensures
            final (self).wf(),
            final (self).policy_spec() == old(self).policy_spec(),
            final (self).is_follower_spec() == old(self).is_follower_spec(),
            vals@.len() == exs@.len() && exs@.len() == nxs@.len() ==> r == Result::<
                (),
                TokioActorCacheError,
            >::Ok(()) && final (self).store_view() == spec_minsert(
                old(self).store_view(),
                views_of(vals@),
                views_of(unit_vals(vals@.len())),
                exs@,
                nxs@,
                now,
            ),
            !(vals@.len() == exs@.len() && exs@.len() == nxs@.len()) ==> r == Result::<
                (),
                TokioActorCacheError,
            >::Err(TokioActorCacheError::InconsistentLen) && final (self).store_view() == old(
                self,
            ).store_view(),
    {
        if vals.len() != exs.len() || exs.len() != nxs.len() {
            return Result::Err(TokioActorCacheError::InconsistentLen);
        }
        let mut units: Vec<()> = Vec::new();
        let mut i: usize = 0;
        while i < vals.len()
            invariant
                i <= vals@.len(),
                units@.len() == i,
            decreases vals@.len() - i,
        {
            units.push(());
            i = i + 1;
        }
        proof {
            assert(units@ =~= unit_vals(vals@.len()));
            assert(views_of(units@) =~= views_of(unit_vals(vals@.len())));
        }
        self.store.minsert_all(vals, &units, exs, nxs, now);
        Result::Ok(())
    }

    /// Per-member presence; hits bump access statistics.
    pub fn contains(&mut self, vals: &Vec<V>, now: u64) -> (r: Vec<bool>)
        requires
            old(self).wf(),
        ensures
            final (self).wf(),
            final (self).store_view() == spec_mtouch(old(self).store_view(), views_of(vals@), now),
            r@.len() == vals@.len(),
            forall|i: int|
                0 <= i < vals@.len() ==> (#[trigger] r@[i]) == (old(self).store_view().contains_key(
                    vals@[i]@,
                ) && live_at(old(self).store_view()[vals@[i]@], now)),
            final (self).policy_spec() == old(self).policy_spec(),
            final (self).is_follower_spec() == old(self).is_follower_spec(),
    {
        self.store.mcontains(vals, now)
    }

    /// Removes many members in order, answering per member whether it was
    /// still live at its own removal instant.
    pub fn remove(&mut self, vals: &Vec<V>, now: u64) -> (r: Vec<bool>)
        requires
            old(self).wf(),
        ensures
            final (self).wf(),
            final (self).store_view() == spec_mremove(old(self).store_view(), views_of(vals@)),
            r@.len() == vals@.len(),
            forall|i: int|
                0 <= i < vals@.len() ==> (#[trigger] r@[i]) == (spec_mremove_out(
                    old(self).store_view(),
                    views_of(vals@),
                    now,
                )[i] is Some),
            final (self).policy_spec() == old(self).policy_spec(),
            final (self).is_follower_spec() == old(self).is_follower_spec(),
    {
        let raw = self.store.mremove(vals, now);
        let ghost outs = spec_mremove_out(old(self).store_view(), views_of(vals@), now);
        let mut r: Vec<bool> = Vec::new();
        let mut i: usize = 0;
        while i < raw.len()
            invariant
                i <= raw@.len(),
                r@.len() == i,
                raw@.len() == outs.len(),
                opt_views(raw@) == outs,
                forall|j: int| 0 <= j < i ==> (#[trigger] r@[j]) == (outs[j] is Some),
            decreases raw@.len() - i,
        {
            let b = match raw[i] {
                Option::Some(_) => true,
                Option::None => false,
            };
            proof {
                assert(opt_views(raw@)[i as int] == opt_view(raw@[i as int]));
            }
            r.push(b);
            i = i + 1;
        }
        r
    }

    /// Per-member remaining time-to-live; hits bump access statistics.
    pub fn ttl(&mut self, vals: &Vec<V>, now: u64) -> (r: Vec<Option<u64>>)
        requires
            old(self).wf(),
        ensures
            final (self).wf(),
            final (self).store_view() == spec_mtouch(old(self).store_view(), views_of(vals@), now),
            r@.len() == vals@.len(),
            forall|i: int|
                0 <= i < vals@.len() ==> (#[trigger] r@[i]) == spec_ttl(
                    old(self).store_view(),
                    vals@[i]@,
                    now,
                ),
            final (self).policy_spec() == old(self).policy_spec(),
            final (self).is_follower_spec() == old(self).is_follower_spec(),
    {
        self.store.mttl(vals, now)
    }

    /// Every live member; each returned entry's access statistics are
    /// bumped.
    pub fn get_all(&mut self, now: u64) -> (r: Vec<V>)
        requires
            old(self).wf(),
        ensures
            final (self).wf(),
            final (self).store_view() == spec_touch_all(old(self).store_view(), now),
            live_keys_of(r@, old(self).store_view(), now),
            final (self).policy_spec() == old(self).policy_spec(),
            final (self).is_follower_spec() == old(self).is_follower_spec(),
    {
        let ghost m0 = self.store_view();
        let pairs = self.store.get_all(now);
        let mut r: Vec<V> = Vec::new();
        let mut i: usize = 0;
        while i < pairs.len()
            invariant
                i <= pairs@.len(),
                r@.len() == i,
                forall|j: int| 0 <= j < i ==> (#[trigger] r@[j])@ == pairs@[j].0@,
            decreases pairs@.len() - i,
        {
            let k = pairs[i].0.dup();
            r.push(k);
            i = i + 1;
        }
        proof {
            assert forall|k: V::V| #[trigger]
                m0.contains_key(k) && live_at(m0[k], now) implies exists|t: int|
                0 <= t < r@.len() && (#[trigger] r@[t])@ == k by {
                let t = choose|t: int| 0 <= t < pairs@.len() && (#[trigger] pairs@[t]).0@ == k;
                assert(r@[t]@ == k);
            }
        }
        r
    }

    /// The raw storage snapshot a primary answers a replication pull with.
    pub fn get_all_raw(&self) -> (r: KeyedStore<V, ()>)
        requires
            self.wf(),
        ensures
            r.wf(),
            r@ == self.store_view(),
    {
        self.store.snapshot()
    }

    /// Empties the storage.
    pub fn clear(&mut self)
        requires
            old(self).wf(),
        ensures
            final (self).wf(),
            final (self).store_view() == Map::<V::V, ValueEx<()>>::empty(),
            final (self).policy_spec() == old(self).policy_spec(),
            final (self).is_follower_spec() == old(self).is_follower_spec(),
    {
        self.store.clear();
    }

    /// How many members the storage holds, live or not.
    pub fn len(&self) -> (n: usize)
        requires
            self.wf(),
        ensures
            n == self.store_view().dom().len(),
    {
        self.store.len()
    }

    /// Starts mirroring a primary; storage is kept until the next tick pulls.
    pub fn replicate(&mut self)
        requires
            old(self).wf(),
        ensures
            final (self).wf(),
            final (self).store_view() == old(self).store_view(),
            final (self).policy_spec() == old(self).policy_spec(),
            final (self).is_follower_spec(),
    {
        self.replicating = true;
    }

    /// Stops mirroring; storage keeps whatever was last replicated in.
    pub fn stop_replicating(&mut self)
        requires
            old(self).wf(),
        ensures
            final (self).wf(),
            final (self).store_view() == old(self).store_view(),
            final (self).policy_spec() == old(self).policy_spec(),
            !final (self).is_follower_spec(),
    {
        self.replicating = false;
    }

    /// Whether the owner currently mirrors a primary.
    pub fn is_replica(&self) -> (r: bool)
        ensures
            r == self.is_follower_spec(),
    {
        self.replicating
    }

    /// One maintenance tick at instant `now`; a replicating owner is handed
    /// the primary's snapshot first.
    pub fn tick(&mut self, now: u64, pulled: Option<KeyedStore<V, ()>>)
        requires
            old(self).wf(),
            match pulled {
                Option::Some(p) => p.wf() && old(self).is_follower_spec(),
                Option::None => true,
            },
        ensures
            final (self).wf(),
            final (self).policy_spec() == old(self).policy_spec(),
            final (self).is_follower_spec() == old(self).is_follower_spec(),
            tick_rel(
                match pulled {
                    Option::Some(p) => p@,
                    Option::None => old(self).store_view(),
                },
                final (self).store_view(),
                old(self).policy_spec(),
                now,
            ),
    {
        match pulled {
            Option::Some(p) => {
                self.store = p;
            },
            Option::None => {},
        }
        self.store.tick(&self.policy, now);
    }

    /// One maintenance tick against the primary this owner would pull from:
    /// the pull happens exactly when the owner is replicating.
    pub fn follower_tick(&mut self, primary: &Self, now: u64)
        requires
            old(self).wf(),
            primary.wf(),
        ensures
            final (self).wf(),
            final (self).policy_spec() == old(self).policy_spec(),
            final (self).is_follower_spec() == old(self).is_follower_spec(),
            follower_tick_allowed(
                old(self).store_view(),
                old(self).is_follower_spec(),
                old(self).policy_spec(),
                primary.store_view(),
                final (self).store_view(),
                now,
            ),
    {
        if self.replicating {
            let snap = primary.get_all_raw();
            self.tick(now, Option::Some(snap));
        } else {
            self.tick(now, Option::None);
        }
    }
}

/// A run of empty payloads.
pub open spec fn unit_vals(n: nat) -> Seq<()> {
    Seq::new(n, |i: int| ())
}

} // verus!

verus! {

/// What a sequence follower's maintenance tick may do, given the primary it
/// would pull from.
pub open spec fn follower_tick_allowed_seq<VV>(
    own: Seq<ValueEx<VV>>,
    replicating: bool,
    policy: ExpirationPolicy,
    primary: Seq<ValueEx<VV>>,
    post: Seq<ValueEx<VV>>,
    now: u64,
) -> bool {
    if replicating {
        seq_tick_rel(primary, post, policy, now)
    } else {
        seq_tick_rel(own, post, policy, now)
    }
}

/// The owner of one sequence-shaped container: insertion-ordered storage
/// with duplicates, the eviction policy fixed at construction, and the
/// replication mode.
pub struct VecOwner<V: CacheKey> {
    store: SeqStore<V>,
    policy: ExpirationPolicy,
    replicating: bool,
}

impl<V: CacheKey> VecOwner<V> {
    /// The abstract storage contents, in insertion order.
    pub closed spec fn store_view(self) -> Seq<ValueEx<V::V>> {
        self.store@
    }

    /// The eviction policy the owner was created with.
    pub closed spec fn policy_spec(self) -> ExpirationPolicy {
        self.policy
    }

    /// Whether the owner currently mirrors a primary.
    pub closed spec fn is_follower_spec(self) -> bool {
        self.replicating
    }

    /// A fresh standalone owner with empty storage.
    pub fn new(policy: ExpirationPolicy) -> (r: Self)
        ensures
            r.store_view() == Seq::<ValueEx<V::V>>::empty(),
            r.policy_spec() == policy,
            !r.is_follower_spec(),
    {
        VecOwner { store: SeqStore::new(), policy, replicating: false }
    }

    /// Appends `val`; see `spec_push` for the exact transition.
    pub fn push(&mut self, val: V, ex: Option<u64>, nx: bool, now: u64)
        ensures
            final (self).store_view() == spec_push(old(self).store_view(), val@, ex, nx, now),
            final (self).policy_spec() == old(self).policy_spec(),
            final (self).is_follower_spec() == old(self).is_follower_spec(),
    {
        self.store.push(val, ex, nx, now);
    }

    /// Appends many payloads in index order; arrays of differing lengths
    /// fail with `InconsistentLen` before anything is written.
    pub fn mpush(
        &mut self,
        vals: &Vec<V>,
        exs: &Vec<Option<u64>>,
        nxs: &Vec<bool>,
        now: u64,
    ) -> (r: Result<(), TokioActorCacheError>)
        ensures
            final (self).policy_spec() == old(self).policy_spec(),
            final (self).is_follower_spec() == old(self).is_follower_spec(),
            vals@.len() == exs@.len() && exs@.len() == nxs@.len() ==> r == Result::<
                (),
                TokioActorCacheError,
            >::Ok(()) && final (self).store_view() == spec_mpush(
                old(self).store_view(),
                views_of(vals@),
                exs@,
                nxs@,
                now,
            ),
            !(vals@.len() == exs@.len() && exs@.len() == nxs@.len()) ==> r == Result::<
                (),
                TokioActorCacheError,
            >::Err(TokioActorCacheError::InconsistentLen) && final (self).store_view() == old(
                self,
            ).store_view(),
    {
        if vals.len() != exs.len() || exs.len() != nxs.len() {
            return Result::Err(TokioActorCacheError::InconsistentLen);
        }
        self.store.mpush_all(vals, exs, nxs, now);
        Result::Ok(())
    }

    /// Per-payload presence among live entries; every live duplicate of a
    /// queried payload has its access statistics bumped.
    pub fn contains(&mut self, vals: &Vec<V>, now: u64) -> (r: Vec<bool>)
        ensures
            final (self).store_view() == spec_mtouch_vals(
                old(self).store_view(),
                views_of(vals@),
                now,
            ),
            r@.len() == vals@.len(),
            forall|i: int|
                0 <= i < vals@.len() ==> (#[trigger] r@[i]) == seq_has_live(
                    old(self).store_view(),
                    vals@[i]@,
                    now,
                ),
            final (self).policy_spec() == old(self).policy_spec(),
            final (self).is_follower_spec() == old(self).is_follower_spec(),
    {
        self.store.mcontains_vals(vals, now)
    }

    /// Removes, for each payload in order, every entry holding it; answers
    /// whether a live entry held it at its own removal instant. Survivors
    /// keep their order.
    pub fn remove(&mut self, vals: &Vec<V>, now: u64) -> (r: Vec<bool>)
        ensures
            final (self).store_view() == spec_mremove_vals(old(self).store_view(), views_of(vals@)),
            r@ == spec_mremove_vals_out(old(self).store_view(), views_of(vals@), now),
            final (self).policy_spec() == old(self).policy_spec(),
            final (self).is_follower_spec() == old(self).is_follower_spec(),
    {
        self.store.mremove_vals(vals, now)
    }

    /// Per-payload remaining time-to-live of the first live match, in order.
    pub fn ttl(&mut self, vals: &Vec<V>, now: u64) -> (r: Vec<Option<u64>>)
        ensures
            final (self).store_view() == spec_mttl_state(
                old(self).store_view(),
                views_of(vals@),
                now,
            ),
            r@ == spec_mttl_out(old(self).store_view(), views_of(vals@), now),
            final (self).policy_spec() == old(self).policy_spec(),
            final (self).is_follower_spec() == old(self).is_follower_spec(),
    {
        self.store.mttl_vals(vals, now)
    }

    /// Every live payload in insertion order; each returned entry's access
    /// statistics are bumped.
    pub fn get_all(&mut self, now: u64) -> (r: Vec<V>)
        ensures
            final (self).store_view() == spec_touch_all_seq(old(self).store_view(), now),
            views_of(r@) == spec_live_vals(old(self).store_view(), now),
            final (self).policy_spec() == old(self).policy_spec(),
            final (self).is_follower_spec() == old(self).is_follower_spec(),
    {
        self.store.get_all(now)
    }

    /// The raw storage snapshot a primary answers a replication pull with.
    pub fn get_all_raw(&self) -> (r: SeqStore<V>)
        ensures
            r@ == self.store_view(),
    {
        self.store.snapshot()
    }

    /// Empties the storage.
    pub fn clear(&mut self)
        ensures
            final (self).store_view() == Seq::<ValueEx<V::V>>::empty(),
            final (self).policy_spec() == old(self).policy_spec(),
            final (self).is_follower_spec() == old(self).is_follower_spec(),
    {
        self.store.clear();
    }

    /// How many entries the storage holds, live or not.
    pub fn len(&self) -> (n: usize)
        ensures
            n == self.store_view().len(),
    {
        self.store.len()
    }

    /// Starts mirroring a primary; storage is kept until the next tick pulls.
    pub fn replicate(&mut self)
        ensures
            final (self).store_view() == old(self).store_view(),
            final (self).policy_spec() == old(self).policy_spec(),
            final (self).is_follower_spec(),
    {
        self.replicating = true;
    }

    /// Stops mirroring; storage keeps whatever was last replicated in.
    pub fn stop_replicating(&mut self)
        ensures
            final (self).store_view() == old(self).store_view(),
            final (self).policy_spec() == old(self).policy_spec(),
            !final (self).is_follower_spec(),
    {
        self.replicating = false;
    }

    /// Whether the owner currently mirrors a primary.
    pub fn is_replica(&self) -> (r: bool)
        ensures
            r == self.is_follower_spec(),
    {
        self.replicating
    }

    /// One maintenance tick at instant `now`; a replicating owner is handed
    /// the primary's snapshot first.
    pub fn tick(&mut self, now: u64, pulled: Option<SeqStore<V>>)
        requires
            match pulled {
                Option::Some(p) => old(self).is_follower_spec(),
                Option::None => true,
            },
        ensures
            final (self).policy_spec() == old(self).policy_spec(),
            final (self).is_follower_spec() == old(self).is_follower_spec(),
            seq_tick_rel(
                match pulled {
                    Option::Some(p) => p@,
                    Option::None => old(self).store_view(),
                },
                final (self).store_view(),
                old(self).policy_spec(),
                now,
            ),
    {
        match pulled {
            Option::Some(p) => {
                self.store = p;
            },
            Option::None => {},
        }
        self.store.tick(&self.policy, now);
    }

    /// One maintenance tick against the primary this owner would pull from:
    /// the pull happens exactly when the owner is replicating.
    pub fn follower_tick(&mut self, primary: &Self, now: u64)
        ensures
            final (self).policy_spec() == old(self).policy_spec(),
            final (self).is_follower_spec() == old(self).is_follower_spec(),
            follower_tick_allowed_seq(
                old(self).store_view(),
                old(self).is_follower_spec(),
                old(self).policy_spec(),
                primary.store_view(),
                final (self).store_view(),
                now,
            ),
    {
        if self.replicating {
            let snap = primary.get_all_raw();
            self.tick(now, Option::Some(snap));
        } else {
            self.tick(now, Option::None);
        }
    }
}

} // verus!

verus! {

impl<K: CacheKey, V: CacheValue> MapOwner<K, V> {
    /// A well-formed owner's key set is finite.
    pub proof fn lemma_store_finite(self)
        requires
            self.wf(),
        ensures
            self.store_view().dom().finite(),
    {
        self.store.lemma_dom_finite();
    }
}

} // verus!
