//! The sharded cluster: a fixed fan-out of map-shaped owners, keyed by the
//! CRC-16 hash of a key's textual form.
//!
//! To its callers the cluster behaves as one big map: every operation's
//! contract is stated against the union of the shard contents, the same spec
//! transitions the single owner obeys. Routing is deterministic, so the union
//! stays well-defined: each key lives only in the shard its hash names.
use vstd::map::*;
use vstd::prelude::*;

use crate::cache_key::{opt_view, CacheValue};
use crate::compute::{crc16, crc16_of};
use crate::data_struct::ValueEx;
use crate::error::TokioActorCacheError;
use crate::expiration_policy::ExpirationPolicy;
use crate::cache_key::views_of;
use crate::keyed_multi::{
    lemma_read_after_mtouch, opt_views, spec_minsert, spec_mremove, spec_mremove_out, spec_mtouch,
};
use crate::keyed_store::{spec_insert, spec_read, spec_touch, spec_ttl};
use crate::owner::MapOwner;
use crate::routed::RoutedKey;

verus! {

/// The shard a key routes to in a cluster of `n` shards.
pub open spec fn shard_of<K: RoutedKey>(k: K::V, n: int) -> int {
    crc16_of(K::route_of(k)) as int % n
}

/// Every shard's storage invariant holds.
pub open spec fn shards_wf<K: RoutedKey, V: CacheValue>(ss: Seq<MapOwner<K, V>>) -> bool {
    forall|i: int| 0 <= i < ss.len() ==> (#[trigger] ss[i]).wf()
}

/// Every key sits in the shard its hash names.
pub open spec fn shards_routed<K: RoutedKey, V: CacheValue>(ss: Seq<MapOwner<K, V>>) -> bool {
    forall|i: int, k: K::V|
        0 <= i < ss.len() && (#[trigger] ss[i].store_view().contains_key(k)) ==> shard_of::<K>(
            k,
            ss.len() as int,
        ) == i
}

/// The union of the shard contents; under `shards_routed` the shards are
/// disjoint, so which side wins is immaterial.
pub open spec fn shards_map<K: RoutedKey, V: CacheValue>(ss: Seq<MapOwner<K, V>>) -> Map<
    K::V,
    ValueEx<V::V>,
>
    decreases ss.len(),
{
    if ss.len() == 0 {
        Map::empty()
    } else {
        shards_map(ss.drop_last()).union_prefer_right(ss.last().store_view())
    }
}

proof fn lemma_shards_map_contains<K: RoutedKey, V: CacheValue>(ss: Seq<MapOwner<K, V>>, k: K::V)
    ensures
        shards_map(ss).contains_key(k) <==> exists|i: int|
            0 <= i < ss.len() && (#[trigger] ss[i]).store_view().contains_key(k),
    decreases ss.len(),
{
    if ss.len() > 0 {
        lemma_shards_map_contains(ss.drop_last(), k);
        if ss.last().store_view().contains_key(k) {
            assert(ss[ss.len() - 1].store_view().contains_key(k));
        } else {
            if shards_map(ss).contains_key(k) {
                let i = choose|i: int|
                    0 <= i < ss.drop_last().len() && (
                    #[trigger] ss.drop_last()[i]).store_view().contains_key(k);
                assert(ss[i].store_view().contains_key(k));
            }
            if exists|i: int| 0 <= i < ss.len() && (#[trigger] ss[i]).store_view().contains_key(k) {
                let i = choose|i: int|
                    0 <= i < ss.len() && (#[trigger] ss[i]).store_view().contains_key(k);
                assert(i < ss.len() - 1);
                assert(ss.drop_last()[i].store_view().contains_key(k));
            }
        }
    }
}

proof fn lemma_shards_map_lookup<K: RoutedKey, V: CacheValue>(
    ss: Seq<MapOwner<K, V>>,
    i: int,
    k: K::V,
)
    requires
        0 <= i < ss.len(),
        ss[i].store_view().contains_key(k),
        forall|j: int|
            0 <= j < ss.len() && j != i ==> !(#[trigger] ss[j]).store_view().contains_key(k),
    ensures
        shards_map(ss).contains_key(k),
        shards_map(ss)[k] == ss[i].store_view()[k],
    decreases ss.len(),
{
    if i == ss.len() - 1 {
    } else {
        assert(!ss[ss.len() - 1].store_view().contains_key(k));
        assert(ss.drop_last()[i] == ss[i]);
        assert forall|j: int|
            0 <= j < ss.drop_last().len() && j != i implies !(
        #[trigger] ss.drop_last()[j]).store_view().contains_key(k) by {
            assert(ss.drop_last()[j] == ss[j]);
        }
        lemma_shards_map_lookup(ss.drop_last(), i, k);
    }
}

proof fn lemma_shards_map_absent<K: RoutedKey, V: CacheValue>(ss: Seq<MapOwner<K, V>>, k: K::V)
    requires
        forall|j: int| 0 <= j < ss.len() ==> !(#[trigger] ss[j]).store_view().contains_key(k),
    ensures
        !shards_map(ss).contains_key(k),
    decreases ss.len(),
{
    if ss.len() > 0 {
        assert forall|j: int|
            0 <= j < ss.drop_last().len() implies !(
        #[trigger] ss.drop_last()[j]).store_view().contains_key(k) by {
            assert(ss.drop_last()[j] == ss[j]);
        }
        lemma_shards_map_absent(ss.drop_last(), k);
        assert(!ss[ss.len() - 1].store_view().contains_key(k));
    }
}

proof fn lemma_shards_map_frame<K: RoutedKey, V: CacheValue>(
    ss: Seq<MapOwner<K, V>>,
    s2: Seq<MapOwner<K, V>>,
    i: int,
    k: K::V,
)
    requires
        ss.len() == s2.len(),
        0 <= i < ss.len(),
        forall|j: int| 0 <= j < ss.len() && j != i ==> (#[trigger] s2[j]) == ss[j],
        forall|k2: K::V|
            k2 != k ==> (#[trigger] s2[i].store_view().contains_key(k2))
                == ss[i].store_view().contains_key(k2) && (ss[i].store_view().contains_key(k2)
                ==> s2[i].store_view()[k2] == ss[i].store_view()[k2]),
    ensures
        forall|k2: K::V|
            k2 != k ==> (#[trigger] shards_map(s2).contains_key(k2)) == shards_map(
                ss,
            ).contains_key(k2) && (shards_map(ss).contains_key(k2) ==> shards_map(s2)[k2]
                == shards_map(ss)[k2]),
    decreases ss.len(),
{
    if ss.len() > 0 {
        if i == ss.len() - 1 {
            assert(s2.drop_last() =~= ss.drop_last());
            assert forall|k2: K::V|
                k2 != k implies (#[trigger] shards_map(s2).contains_key(k2)) == shards_map(
                ss,
            ).contains_key(k2) && (shards_map(ss).contains_key(k2) ==> shards_map(s2)[k2]
                == shards_map(ss)[k2]) by {
                assert(s2.last() == s2[i]);
                assert(ss.last() == ss[i]);
                assert(s2[i].store_view().contains_key(k2) == ss[i].store_view().contains_key(k2));
            }
        } else {
            assert forall|j: int|
                0 <= j < ss.drop_last().len() && j != i implies (#[trigger] s2.drop_last()[j])
                == ss.drop_last()[j] by {
                assert(s2.drop_last()[j] == s2[j]);
                assert(ss.drop_last()[j] == ss[j]);
            }
            assert(s2.drop_last()[i] == s2[i]);
            assert(ss.drop_last()[i] == ss[i]);
            lemma_shards_map_frame(ss.drop_last(), s2.drop_last(), i, k);
            assert(s2.last() == ss.last());
            assert forall|k2: K::V|
                k2 != k implies (#[trigger] shards_map(s2).contains_key(k2)) == shards_map(
                ss,
            ).contains_key(k2) && (shards_map(ss).contains_key(k2) ==> shards_map(s2)[k2]
                == shards_map(ss)[k2]) by {
                assert(shards_map(s2.drop_last()).contains_key(k2) == shards_map(
                    ss.drop_last(),
                ).contains_key(k2));
            }
        }
    }
}

/// A fixed fan-out of map-shaped owners routed by key hash. To callers it
/// behaves as one map over the union of the shards.
pub struct MapCluster<K: RoutedKey, V: CacheValue> {
    shards: Vec<MapOwner<K, V>>,
}

impl<K: RoutedKey, V: CacheValue> MapCluster<K, V> {
    /// The shards' states, for the per-shard contracts below.
    pub closed spec fn shards_spec(self) -> Seq<MapOwner<K, V>> {
        self.shards@
    }

    /// The cluster's abstract contents: the union of the shard contents.
    pub open spec fn cluster_view(self) -> Map<K::V, ValueEx<V::V>> {
        shards_map(self.shards_spec())
    }

    /// How many shards the cluster was built with.
    pub open spec fn shard_count(self) -> nat {
        self.shards_spec().len()
    }

    /// The cluster invariant: every shard well-formed, every key in the
    /// shard its hash names, and a fan-out that fits the router's width.
    pub open spec fn wf(self) -> bool {
        &&& shards_wf(self.shards_spec())
        &&& shards_routed(self.shards_spec())
        &&& self.shard_count() <= 0xFFFF
    }

    /// A cluster of `n_node` empty shards, each with the given policy.
    pub fn new(policy: ExpirationPolicy, n_node: u16) -> (r: Self)
        ensures
            r.wf(),
            r.shard_count() == n_node,
            r.cluster_view() == Map::<K::V, ValueEx<V::V>>::empty(),
            forall|i: int|
                0 <= i < n_node ==> (#[trigger] r.shards_spec()[i]).store_view() == Map::<
                    K::V,
                    ValueEx<V::V>,
                >::empty() && r.shards_spec()[i].policy_spec() == policy && !r.shards_spec()[
                    i
                ].is_follower_spec(),
    {
        let mut shards: Vec<MapOwner<K, V>> = Vec::new();
        let mut i: u16 = 0;
        while i < n_node
            invariant
                i <= n_node,
                shards@.len() == i,
                forall|j: int|
                    0 <= j < i ==> (#[trigger] shards@[j]).wf() && shards@[j].store_view() == Map::<
                        K::V,
                        ValueEx<V::V>,
                    >::empty() && shards@[j].policy_spec() == policy && !shards@[
                        j
                    ].is_follower_spec(),
            decreases n_node - i,
        {
            shards.push(MapOwner::new(policy));
            i = i + 1;
        }
        let r = MapCluster { shards };
        proof {
            lemma_empty_union(r.shards@);
        }
        r
    }

    /// The shard `key` routes to, or `NodeNotExists` for an empty cluster.
    fn route(&self, key: &K) -> (r: Result<usize, TokioActorCacheError>)
        requires
            self.wf(),
        ensures
            match r {
                Result::Ok(i) => self.shard_count() > 0 && i == shard_of::<K>(
                    key@,
                    self.shard_count() as int,
                ),
                Result::Err(e) => self.shard_count() == 0 && e
                    == TokioActorCacheError::NodeNotExists,
            },
    {
        if self.shards.len() == 0 {
            return Result::Err(TokioActorCacheError::NodeNotExists);
        }
        let bytes = key.render_bytes();
        let n: u16 = self.shards.len() as u16;
        let h = crc16(bytes.as_slice()) % n;
        Result::Ok(h as usize)
    }
}

proof fn lemma_empty_union<K: RoutedKey, V: CacheValue>(ss: Seq<MapOwner<K, V>>)
    requires
        forall|j: int|
            0 <= j < ss.len() ==> (#[trigger] ss[j]).store_view() == Map::<
                K::V,
                ValueEx<V::V>,
            >::empty(),
    ensures
        shards_map(ss) == Map::<K::V, ValueEx<V::V>>::empty(),
    decreases ss.len(),
{
    if ss.len() > 0 {
        assert forall|j: int|
            0 <= j < ss.drop_last().len() implies (#[trigger] ss.drop_last()[j]).store_view()
            == Map::<K::V, ValueEx<V::V>>::empty() by {
            assert(ss.drop_last()[j] == ss[j]);
        }
        lemma_empty_union(ss.drop_last());
        assert(ss[ss.len() - 1].store_view() == Map::<K::V, ValueEx<V::V>>::empty());
        assert(shards_map(ss) =~= Map::<K::V, ValueEx<V::V>>::empty());
    }
}

} // verus!

verus! {

proof fn lemma_shard_op_lifts<K: RoutedKey, V: CacheValue>(
    ss: Seq<MapOwner<K, V>>,
    s2: Seq<MapOwner<K, V>>,
    i: int,
    k: K::V,
)
    requires
        ss.len() == s2.len(),
        ss.len() > 0,
        0 <= i < ss.len(),
        i == shard_of::<K>(k, ss.len() as int),
        shards_wf(ss),
        shards_routed(ss),
        s2[i].wf(),
        forall|j: int| 0 <= j < ss.len() && j != i ==> (#[trigger] s2[j]) == ss[j],
        forall|k2: K::V|
            k2 != k ==> (#[trigger] s2[i].store_view().contains_key(k2))
                == ss[i].store_view().contains_key(k2) && (ss[i].store_view().contains_key(k2)
                ==> s2[i].store_view()[k2] == ss[i].store_view()[k2]),
    ensures
        shards_wf(s2),
        shards_routed(s2),
        forall|k2: K::V|
            k2 != k ==> (#[trigger] shards_map(s2).contains_key(k2)) == shards_map(
                ss,
            ).contains_key(k2) && (shards_map(ss).contains_key(k2) ==> shards_map(s2)[k2]
                == shards_map(ss)[k2]),
        shards_map(ss).contains_key(k) == ss[i].store_view().contains_key(k),
        ss[i].store_view().contains_key(k) ==> shards_map(ss)[k] == ss[i].store_view()[k],
        shards_map(s2).contains_key(k) == s2[i].store_view().contains_key(k),
        s2[i].store_view().contains_key(k) ==> shards_map(s2)[k] == s2[i].store_view()[k],
{
    assert forall|j: int| 0 <= j < s2.len() implies (#[trigger] s2[j]).wf() by {
        if j != i {
            assert(s2[j] == ss[j]);
        }
    }
    assert forall|j: int, k2: K::V|
        0 <= j < s2.len() && (#[trigger] s2[j].store_view().contains_key(k2)) implies shard_of::<
        K,
    >(k2, s2.len() as int) == j by {
        if j != i {
            assert(s2[j] == ss[j]);
            assert(ss[j].store_view().contains_key(k2));
        } else {
            if k2 != k {
                assert(ss[i].store_view().contains_key(k2));
            }
        }
    }
    lemma_shards_map_frame(ss, s2, i, k);
    assert forall|j: int|
        0 <= j < ss.len() && j != i implies !(#[trigger] ss[j]).store_view().contains_key(k) by {
        if ss[j].store_view().contains_key(k) {
            assert(shard_of::<K>(k, ss.len() as int) == j);
        }
    }
    if ss[i].store_view().contains_key(k) {
        lemma_shards_map_lookup(ss, i, k);
    } else {
        lemma_shards_map_absent(ss, k);
    }
    assert forall|j: int|
        0 <= j < s2.len() && j != i implies !(#[trigger] s2[j]).store_view().contains_key(k) by {
        assert(s2[j] == ss[j]);
    }
    if s2[i].store_view().contains_key(k) {
        lemma_shards_map_lookup(s2, i, k);
    } else {
        lemma_shards_map_absent(s2, k);
    }
}

impl<K: RoutedKey, V: CacheValue> MapCluster<K, V> {
    /// Writes `val` under `key` in the shard the key routes to; to the
    /// cluster as a whole this is exactly one map write. An empty cluster
    /// fails with `NodeNotExists` and holds nothing.
    pub fn insert(&mut self, key: K, val: V, ex: Option<u64>, nx: bool, now: u64) -> (r: Result<
        (),
        TokioActorCacheError,
    >)
        requires
            old(self).wf(),
        ensures
            final (self).wf(),
            final (self).shard_count() == old(self).shard_count(),
            old(self).shard_count() == 0 ==> r == Result::<(), TokioActorCacheError>::Err(
                TokioActorCacheError::NodeNotExists,
            ) && final (self).cluster_view() == old(self).cluster_view(),
            old(self).shard_count() > 0 ==> r == Result::<(), TokioActorCacheError>::Ok(())
                && final (self).cluster_view() == spec_insert(
                old(self).cluster_view(),
                key@,
                val@,
                ex,
                nx,
                now,
            ),
    {
        let ghost k = key@;
        let ghost vv = val@;
        let idx = match self.route(&key) {
            Result::Ok(i) => i,
            Result::Err(e) => {
                return Result::Err(e);
            },
        };
        let ghost ss = self.shards@;
        proof {
            assert(0 <= shard_of::<K>(k, ss.len() as int) < ss.len() as int);
        }
        let mut owner = self.shards.remove(idx);
        owner.insert(key, val, ex, nx, now);
        self.shards.insert(idx, owner);
        proof {
            let s2 = self.shards@;
            assert forall|j: int| 0 <= j < ss.len() && j != idx implies (#[trigger] s2[j])
                == ss[j] by {
                if j < idx {
                    assert(s2[j] == ss.remove(idx as int)[j]);
                } else {
                    assert(s2[j] == ss.remove(idx as int)[j - 1]);
                    assert(ss.remove(idx as int)[j - 1] == ss[j]);
                }
            }
            assert(s2[idx as int].store_view() == spec_insert(
                ss[idx as int].store_view(),
                k,
                vv,
                ex,
                nx,
                now,
            ));
            lemma_shard_op_lifts(ss, s2, idx as int, k);
            let m0 = shards_map(ss);
            let m2 = shards_map(s2);
            assert(m2 =~= spec_insert(m0, k, vv, ex, nx, now)) by {
                assert forall|k2: K::V|
                    m2.contains_key(k2) == spec_insert(m0, k, vv, ex, nx, now).contains_key(k2) && (
                    m2.contains_key(k2) ==> m2[k2] == spec_insert(m0, k, vv, ex, nx, now)[k2]) by {}
            }
        }
        Result::Ok(())
    }

    /// Reads `key` from the shard it routes to; to the cluster as a whole
    /// this is exactly one map read.
    pub fn get(&mut self, key: &K, now: u64) -> (r: Result<Option<V>, TokioActorCacheError>)
        requires
            old(self).wf(),
        ensures
            final (self).wf(),
            final (self).shard_count() == old(self).shard_count(),
            old(self).shard_count() == 0 ==> r == Result::<Option<V>, TokioActorCacheError>::Err(
                TokioActorCacheError::NodeNotExists,
            ) && final (self).cluster_view() == old(self).cluster_view(),
            old(self).shard_count() > 0 ==> match r {
                Result::Ok(v) => opt_view(v) == spec_read(old(self).cluster_view(), key@, now)
                    && final (self).cluster_view() == spec_touch(
                    old(self).cluster_view(),
                    key@,
                    now,
                ),
                Result::Err(_) => false,
            },
    {
        let ghost k = key@;
        let idx = match self.route(key) {
            Result::Ok(i) => i,
            Result::Err(e) => {
                return Result::Err(e);
            },
        };
        let ghost ss = self.shards@;
        proof {
            assert(0 <= shard_of::<K>(k, ss.len() as int) < ss.len() as int);
        }
        let mut owner = self.shards.remove(idx);
        let out = owner.get(key, now);
        self.shards.insert(idx, owner);
        proof {
            let s2 = self.shards@;
            assert forall|j: int| 0 <= j < ss.len() && j != idx implies (#[trigger] s2[j])
                == ss[j] by {
                if j < idx {
                    assert(s2[j] == ss.remove(idx as int)[j]);
                } else {
                    assert(s2[j] == ss.remove(idx as int)[j - 1]);
                    assert(ss.remove(idx as int)[j - 1] == ss[j]);
                }
            }
            assert(s2[idx as int].store_view() == spec_touch(ss[idx as int].store_view(), k, now));
            lemma_shard_op_lifts(ss, s2, idx as int, k);
            let m0 = shards_map(ss);
            let m2 = shards_map(s2);
            assert(m2 =~= spec_touch(m0, k, now)) by {
                assert forall|k2: K::V|
                    m2.contains_key(k2) == spec_touch(m0, k, now).contains_key(k2) && (
                    m2.contains_key(k2) ==> m2[k2] == spec_touch(m0, k, now)[k2]) by {}
            }
        }
        Result::Ok(out)
    }
}

} // verus!

verus! {

impl<K: RoutedKey, V: CacheValue> MapCluster<K, V> {
    fn contains_one(&mut self, key: &K, now: u64) -> (r: Result<bool, TokioActorCacheError>)
        requires
            old(self).wf(),
        ensures
            final (self).wf(),
            final (self).shard_count() == old(self).shard_count(),
            old(self).shard_count() == 0 ==> r == Result::<bool, TokioActorCacheError>::Err(
                TokioActorCacheError::NodeNotExists,
            ) && final (self).cluster_view() == old(self).cluster_view(),
            old(self).shard_count() > 0 ==> match r {
                Result::Ok(b) => b == (old(self).cluster_view().contains_key(key@)
                    && crate::data_struct::live_at(old(self).cluster_view()[key@], now)) && final (
                self).cluster_view() == spec_touch(old(self).cluster_view(), key@, now),
                Result::Err(_) => false,
            },
    {
        let out = self.get(key, now);
        match out {
            Result::Ok(v) => match v {
                Option::Some(_) => Result::Ok(true),
                Option::None => Result::Ok(false),
            },
            Result::Err(e) => Result::Err(e),
        }
    }

    fn ttl_one(&mut self, key: &K, now: u64) -> (r: Result<Option<u64>, TokioActorCacheError>)
        requires
            old(self).wf(),
        ensures
            final (self).wf(),
            final (self).shard_count() == old(self).shard_count(),
            old(self).shard_count() == 0 ==> r == Result::<Option<u64>, TokioActorCacheError>::Err(
                TokioActorCacheError::NodeNotExists,
            ) && final (self).cluster_view() == old(self).cluster_view(),
            old(self).shard_count() > 0 ==> match r {
                Result::Ok(t) => t == spec_ttl(old(self).cluster_view(), key@, now) && final (
                self).cluster_view() == spec_touch(old(self).cluster_view(), key@, now),
                Result::Err(_) => false,
            },
    {
        let ghost k = key@;
        let idx = match self.route(key) {
            Result::Ok(i) => i,
            Result::Err(e) => {
                return Result::Err(e);
            },
        };
        let ghost ss = self.shards@;
        proof {
            assert(0 <= shard_of::<K>(k, ss.len() as int) < ss.len() as int);
        }
        let mut owner = self.shards.remove(idx);
        let keys1 = vec![key.dup()];
        let outs = owner.ttl(&keys1, now);
        let out = outs[0];
        self.shards.insert(idx, owner);
        proof {
            let s2 = self.shards@;
            assert forall|j: int| 0 <= j < ss.len() && j != idx implies (#[trigger] s2[j])
                == ss[j] by {
                if j < idx {
                    assert(s2[j] == ss.remove(idx as int)[j]);
                } else {
                    assert(s2[j] == ss.remove(idx as int)[j - 1]);
                    assert(ss.remove(idx as int)[j - 1] == ss[j]);
                }
            }
            let kv = crate::cache_key::views_of(keys1@);
            assert(kv.len() == 1 && kv[0] == k);
            assert(kv.drop_last() =~= Seq::<K::V>::empty());
            assert(kv.last() == k);
            let m1 = ss[idx as int].store_view();
            assert(crate::keyed_multi::spec_mtouch(m1, kv.drop_last(), now) == m1);
            assert(crate::keyed_multi::spec_mtouch(m1, kv, now) == spec_touch(m1, k, now));
            assert(s2[idx as int].store_view() == spec_touch(m1, k, now));
            assert(out == spec_ttl(m1, k, now));
            lemma_shard_op_lifts(ss, s2, idx as int, k);
            let m0 = shards_map(ss);
            let m2 = shards_map(s2);
            assert(m2 =~= spec_touch(m0, k, now)) by {
                assert forall|k2: K::V|
                    m2.contains_key(k2) == spec_touch(m0, k, now).contains_key(k2) && (
                    m2.contains_key(k2) ==> m2[k2] == spec_touch(m0, k, now)[k2]) by {}
            }
        }
        Result::Ok(out)
    }

    fn remove_one(&mut self, key: &K, now: u64) -> (r: Result<Option<V>, TokioActorCacheError>)
        requires
            old(self).wf(),
        ensures
            final (self).wf(),
            final (self).shard_count() == old(self).shard_count(),
            old(self).shard_count() == 0 ==> r == Result::<Option<V>, TokioActorCacheError>::Err(
                TokioActorCacheError::NodeNotExists,
            ) && final (self).cluster_view() == old(self).cluster_view(),
            old(self).shard_count() > 0 ==> match r {
                Result::Ok(v) => opt_view(v) == spec_read(old(self).cluster_view(), key@, now)
                    && final (self).cluster_view() == old(self).cluster_view().remove(key@),
                Result::Err(_) => false,
            },
    {
        let ghost k = key@;
        let idx = match self.route(key) {
            Result::Ok(i) => i,
            Result::Err(e) => {
                return Result::Err(e);
            },
        };
        let ghost ss = self.shards@;
        proof {
            assert(0 <= shard_of::<K>(k, ss.len() as int) < ss.len() as int);
        }
        let mut owner = self.shards.remove(idx);
        let keys1 = vec![key.dup()];
        let mut outs = owner.remove(&keys1, now);
        let ghost routs = outs@;
        let out = outs.pop().unwrap();
        self.shards.insert(idx, owner);
        proof {
            let s2 = self.shards@;
            assert forall|j: int| 0 <= j < ss.len() && j != idx implies (#[trigger] s2[j])
                == ss[j] by {
                if j < idx {
                    assert(s2[j] == ss.remove(idx as int)[j]);
                } else {
                    assert(s2[j] == ss.remove(idx as int)[j - 1]);
                    assert(ss.remove(idx as int)[j - 1] == ss[j]);
                }
            }
            let kv = crate::cache_key::views_of(keys1@);
            assert(kv.len() == 1 && kv[0] == k);
            assert(kv.drop_last() =~= Seq::<K::V>::empty());
            assert(kv.last() == k);
            let m1 = ss[idx as int].store_view();
            assert(crate::keyed_multi::spec_mremove(m1, kv.drop_last()) == m1);
            assert(crate::keyed_multi::spec_mremove(m1, kv) == m1.remove(k));
            assert(s2[idx as int].store_view() == m1.remove(k));
            assert(routs.len() == 1);
            assert(crate::keyed_multi::spec_mremove_out(m1, kv, now) == crate::keyed_multi::spec_mremove_out(m1, kv.drop_last(), now).push(spec_read(m1, k, now)));
            assert(crate::keyed_multi::opt_views(routs)[0] == opt_view(routs[0]));
            assert(out == routs[0]);
            assert(opt_view(out) == spec_read(m1, k, now));
            lemma_shard_op_lifts(ss, s2, idx as int, k);
            let m0 = shards_map(ss);
            let m2 = shards_map(s2);
            assert(m2 =~= m0.remove(k)) by {
                assert forall|k2: K::V|
                    m2.contains_key(k2) == m0.remove(k).contains_key(k2) && (m2.contains_key(k2)
                        ==> m2[k2] == m0.remove(k)[k2]) by {
                    if k2 == k {
                    } else {
                    }
                }
            }
        }
        Result::Ok(out)
    }
}

} // verus!

verus! {

impl<K: RoutedKey, V: CacheValue> MapCluster<K, V> {
    /// Reads every key in order, each from the shard it routes to; answers
    /// align with the input and reflect the cluster as it stood before the
    /// whole call.
    pub fn mget(&mut self, keys: &Vec<K>, now: u64) -> (r: Result<
        Vec<Option<V>>,
        TokioActorCacheError,
    >)
        requires
            old(self).wf(),
        ensures
            final (self).wf(),
            final (self).shard_count() == old(self).shard_count(),
            old(self).shard_count() == 0 ==> r == Result::<Vec<Option<V>>, TokioActorCacheError>::Err(
                TokioActorCacheError::NodeNotExists,
            ) && final (self).cluster_view() == old(self).cluster_view(),
            old(self).shard_count() > 0 ==> match r {
                Result::Ok(out) => out@.len() == keys@.len() && final (self).cluster_view()
                    == spec_mtouch(old(self).cluster_view(), views_of(keys@), now) && forall|i: int|
                    0 <= i < keys@.len() ==> opt_view(#[trigger] out@[i]) == spec_read(
                        old(self).cluster_view(),
                        keys@[i]@,
                        now,
                    ),
                Result::Err(_) => false,
            },
    {
        if self.shards.len() == 0 {
            return Result::Err(TokioActorCacheError::NodeNotExists);
        }
        let ghost m0 = self.cluster_view();
        let ghost kv = views_of(keys@);
        let mut out: Vec<Option<V>> = Vec::new();
        let mut i: usize = 0;
        while i < keys.len()
            invariant
                self.wf(),
                self.shard_count() == old(self).shard_count(),
                self.shard_count() > 0,
                i <= keys@.len(),
                out@.len() == i,
                kv == views_of(keys@),
                self.cluster_view() == spec_mtouch(m0, kv.take(i as int), now),
                forall|j: int|
                    0 <= j < i ==> opt_view(#[trigger] out@[j]) == spec_read(m0, kv[j], now),
            decreases keys@.len() - i,
        {
            let kd = keys[i].dup();
            proof {
                lemma_read_after_mtouch(m0, kv.take(i as int), kv[i as int], now);
                assert(kv.take(i + 1).drop_last() =~= kv.take(i as int));
                assert(kv.take(i + 1).last() == kv[i as int]);
            }
            let v = match self.get(&kd, now) {
                Result::Ok(v) => v,
                Result::Err(e) => {
                    proof {
                        assert(false);
                    }
                    return Result::Err(e);
                },
            };
            out.push(v);
            i = i + 1;
        }
        proof {
            assert(kv.take(kv.len() as int) =~= kv);
        }
        Result::Ok(out)
    }

    /// Per-key membership, each key asked of its shard; hits bump access
    /// statistics.
    pub fn contains_key(&mut self, keys: &Vec<K>, now: u64) -> (r: Result<
        Vec<bool>,
        TokioActorCacheError,
    >)
        requires
            old(self).wf(),
        ensures
            final (self).wf(),
            final (self).shard_count() == old(self).shard_count(),
            old(self).shard_count() == 0 ==> r == Result::<Vec<bool>, TokioActorCacheError>::Err(
                TokioActorCacheError::NodeNotExists,
            ) && final (self).cluster_view() == old(self).cluster_view(),
            old(self).shard_count() > 0 ==> match r {
                Result::Ok(out) => out@.len() == keys@.len() && final (self).cluster_view()
                    == spec_mtouch(old(self).cluster_view(), views_of(keys@), now) && forall|i: int|
                    0 <= i < keys@.len() ==> (#[trigger] out@[i]) == (
                    old(self).cluster_view().contains_key(keys@[i]@) && crate::data_struct::live_at(
                        old(self).cluster_view()[keys@[i]@],
                        now,
                    )),
                Result::Err(_) => false,
            },
    {
        if self.shards.len() == 0 {
            return Result::Err(TokioActorCacheError::NodeNotExists);
        }
        let ghost m0 = self.cluster_view();
        let ghost kv = views_of(keys@);
        let mut out: Vec<bool> = Vec::new();
        let mut i: usize = 0;
        while i < keys.len()
            invariant
                self.wf(),
                self.shard_count() == old(self).shard_count(),
                self.shard_count() > 0,
                i <= keys@.len(),
                out@.len() == i,
                kv == views_of(keys@),
                self.cluster_view() == spec_mtouch(m0, kv.take(i as int), now),
                forall|j: int|
                    0 <= j < i ==> (#[trigger] out@[j]) == (m0.contains_key(kv[j])
                        && crate::data_struct::live_at(m0[kv[j]], now)),
            decreases keys@.len() - i,
        {
            let kd = keys[i].dup();
            proof {
                lemma_read_after_mtouch(m0, kv.take(i as int), kv[i as int], now);
                assert(kv.take(i + 1).drop_last() =~= kv.take(i as int));
                assert(kv.take(i + 1).last() == kv[i as int]);
            }
            let b = match self.contains_one(&kd, now) {
                Result::Ok(b) => b,
                Result::Err(e) => {
                    proof {
                        assert(false);
                    }
                    return Result::Err(e);
                },
            };
            out.push(b);
            i = i + 1;
        }
        proof {
            assert(kv.take(kv.len() as int) =~= kv);
        }
        Result::Ok(out)
    }

    /// Per-key remaining time-to-live, each key asked of its shard.
    pub fn ttl(&mut self, keys: &Vec<K>, now: u64) -> (r: Result<
        Vec<Option<u64>>,
        TokioActorCacheError,
    >)
        requires
            old(self).wf(),
        ensures
            final (self).wf(),
            final (self).shard_count() == old(self).shard_count(),
            old(self).shard_count() == 0 ==> r == Result::<Vec<Option<u64>>, TokioActorCacheError>::Err(
                TokioActorCacheError::NodeNotExists,
            ) && final (self).cluster_view() == old(self).cluster_view(),
            old(self).shard_count() > 0 ==> match r {
                Result::Ok(out) => out@.len() == keys@.len() && final (self).cluster_view()
                    == spec_mtouch(old(self).cluster_view(), views_of(keys@), now) && forall|i: int|
                    0 <= i < keys@.len() ==> (#[trigger] out@[i]) == spec_ttl(
                        old(self).cluster_view(),
                        keys@[i]@,
                        now,
                    ),
                Result::Err(_) => false,
            },
    {
        if self.shards.len() == 0 {
            return Result::Err(TokioActorCacheError::NodeNotExists);
        }
        let ghost m0 = self.cluster_view();
        let ghost kv = views_of(keys@);
        let mut out: Vec<Option<u64>> = Vec::new();
        let mut i: usize = 0;
        while i < keys.len()
            invariant
                self.wf(),
                self.shard_count() == old(self).shard_count(),
                self.shard_count() > 0,
                i <= keys@.len(),
                out@.len() == i,
                kv == views_of(keys@),
                self.cluster_view() == spec_mtouch(m0, kv.take(i as int), now),
                forall|j: int| 0 <= j < i ==> (#[trigger] out@[j]) == spec_ttl(m0, kv[j], now),
            decreases keys@.len() - i,
        {
            let kd = keys[i].dup();
            proof {
                lemma_read_after_mtouch(m0, kv.take(i as int), kv[i as int], now);
                assert(kv.take(i + 1).drop_last() =~= kv.take(i as int));
                assert(kv.take(i + 1).last() == kv[i as int]);
            }
            let t = match self.ttl_one(&kd, now) {
                Result::Ok(t) => t,
                Result::Err(e) => {
                    proof {
                        assert(false);
                    }
                    return Result::Err(e);
                },
            };
            out.push(t);
            i = i + 1;
        }
        proof {
            assert(kv.take(kv.len() as int) =~= kv);
        }
        Result::Ok(out)
    }

    /// Removes every key in order from its shard, answering each key's live
    /// payload at its own removal instant.
    pub fn remove(&mut self, keys: &Vec<K>, now: u64) -> (r: Result<
        Vec<Option<V>>,
        TokioActorCacheError,
    >)
        requires
            old(self).wf(),
        ensures
            final (self).wf(),
            final (self).shard_count() == old(self).shard_count(),
            old(self).shard_count() == 0 ==> r == Result::<Vec<Option<V>>, TokioActorCacheError>::Err(
                TokioActorCacheError::NodeNotExists,
            ) && final (self).cluster_view() == old(self).cluster_view(),
            old(self).shard_count() > 0 ==> match r {
                Result::Ok(out) => out@.len() == keys@.len() && final (self).cluster_view()
                    == spec_mremove(old(self).cluster_view(), views_of(keys@)) && opt_views(out@)
                    == spec_mremove_out(old(self).cluster_view(), views_of(keys@), now),
                Result::Err(_) => false,
            },
    {
        if self.shards.len() == 0 {
            return Result::Err(TokioActorCacheError::NodeNotExists);
        }
        let ghost m0 = self.cluster_view();
        let ghost kv = views_of(keys@);
        let mut out: Vec<Option<V>> = Vec::new();
        let mut i: usize = 0;
        while i < keys.len()
            invariant
                self.wf(),
                self.shard_count() == old(self).shard_count(),
                self.shard_count() > 0,
                i <= keys@.len(),
                out@.len() == i,
                kv == views_of(keys@),
                self.cluster_view() == spec_mremove(m0, kv.take(i as int)),
                opt_views(out@) == spec_mremove_out(m0, kv.take(i as int), now),
            decreases keys@.len() - i,
        {
            let kd = keys[i].dup();
            proof {
                assert(kv.take(i + 1).drop_last() =~= kv.take(i as int));
                assert(kv.take(i + 1).last() == kv[i as int]);
            }
            let ghost out0 = out@;
            let v = match self.remove_one(&kd, now) {
                Result::Ok(v) => v,
                Result::Err(e) => {
                    proof {
                        assert(false);
                    }
                    return Result::Err(e);
                },
            };
            out.push(v);
            i = i + 1;
            proof {
                assert(opt_views(out@) =~= opt_views(out0).push(opt_view(out@.last())));
            }
        }
        proof {
            assert(kv.take(kv.len() as int) =~= kv);
        }
        Result::Ok(out)
    }

    /// Writes every key/payload pair in index order, each to its shard.
    /// Arrays of differing lengths fail with `InconsistentLen` before
    /// anything is dispatched; an empty cluster fails with `NodeNotExists`.
    pub fn minsert(
        &mut self,
        keys: &Vec<K>,
        vals: &Vec<V>,
        exs: &Vec<Option<u64>>,
        nxs: &Vec<bool>,
        now: u64,
    ) -> (r: Result<(), TokioActorCacheError>)
        requires
            old(self).wf(),
        ensures
            final (self).wf(),
            final (self).shard_count() == old(self).shard_count(),
            !(keys@.len() == vals@.len() && vals@.len() == exs@.len() && exs@.len() == nxs@.len())
                ==> r == Result::<(), TokioActorCacheError>::Err(
                TokioActorCacheError::InconsistentLen,
            ) && final (self).cluster_view() == old(self).cluster_view(),
            keys@.len() == vals@.len() && vals@.len() == exs@.len() && exs@.len() == nxs@.len()
                && old(self).shard_count() == 0 ==> r == Result::<(), TokioActorCacheError>::Err(
                TokioActorCacheError::NodeNotExists,
            ) && final (self).cluster_view() == old(self).cluster_view(),
            keys@.len() == vals@.len() && vals@.len() == exs@.len() && exs@.len() == nxs@.len()
                && old(self).shard_count() > 0 ==> r == Result::<(), TokioActorCacheError>::Ok(())
                && final (self).cluster_view() == spec_minsert(
                old(self).cluster_view(),
                views_of(keys@),
                views_of(vals@),
                exs@,
                nxs@,
                now,
            ),
    {
        if keys.len() != vals.len() || vals.len() != exs.len() || exs.len() != nxs.len() {
            return Result::Err(TokioActorCacheError::InconsistentLen);
        }
        if self.shards.len() == 0 {
            return Result::Err(TokioActorCacheError::NodeNotExists);
        }
        let ghost m0 = self.cluster_view();
        let ghost kv = views_of(keys@);
        let ghost vv = views_of(vals@);
        let mut i: usize = 0;
        while i < keys.len()
            invariant
                self.wf(),
                self.shard_count() == old(self).shard_count(),
                self.shard_count() > 0,
                i <= keys@.len(),
                kv == views_of(keys@),
                vv == views_of(vals@),
                keys@.len() == vals@.len(),
                vals@.len() == exs@.len(),
                exs@.len() == nxs@.len(),
                self.cluster_view() == spec_minsert(m0, kv.take(i as int), vv.take(i as int), exs@.take(i as int), nxs@.take(i as int), now),
            decreases keys@.len() - i,
        {
            let kd = keys[i].dup();
            let vd = vals[i].dup();
            let ex = exs[i];
            let nx = nxs[i];
            proof {
                assert(kv.take(i + 1).drop_last() =~= kv.take(i as int));
                assert(vv.take(i + 1).drop_last() =~= vv.take(i as int));
                assert(exs@.take(i + 1).drop_last() =~= exs@.take(i as int));
                assert(nxs@.take(i + 1).drop_last() =~= nxs@.take(i as int));
                assert(kv.take(i + 1).last() == kv[i as int]);
                assert(vv.take(i + 1).last() == vv[i as int]);
                assert(exs@.take(i + 1).last() == exs@[i as int]);
                assert(nxs@.take(i + 1).last() == nxs@[i as int]);
            }
            match self.insert(kd, vd, ex, nx, now) {
                Result::Ok(u) => u,
                Result::Err(e) => {
                    proof {
                        assert(false);
                    }
                    return Result::Err(e);
                },
            };
            i = i + 1;
        }
        proof {
            assert(kv.take(kv.len() as int) =~= kv);
            assert(vv.take(vv.len() as int) =~= vv);
            assert(exs@.take(exs@.len() as int) =~= exs@);
            assert(nxs@.take(nxs@.len() as int) =~= nxs@);
        }
        Result::Ok(())
    }
}

} // verus!

verus! {

/// The sum of the shard sizes, each counted live or not.
pub open spec fn sizes_total<K: RoutedKey, V: CacheValue>(ss: Seq<MapOwner<K, V>>) -> nat
    decreases ss.len(),
{
    if ss.len() == 0 {
        0
    } else {
        sizes_total(ss.drop_last()) + ss.last().store_view().dom().len()
    }
}

/// The sum of the shard sizes equals the size of the cluster's abstract
/// map: routing keeps the shards disjoint, so no key is counted twice.
pub proof fn law_shard_sizes_sum<K: RoutedKey, V: CacheValue>(ss: Seq<MapOwner<K, V>>)
    requires
        shards_wf(ss),
        forall|i: int, j: int, k: K::V|
            0 <= i < j < ss.len() && (#[trigger] ss[i].store_view().contains_key(k)) ==> !(
            #[trigger] ss[j].store_view().contains_key(k)),
    ensures
        shards_map(ss).dom().finite(),
        sizes_total(ss) == shards_map(ss).dom().len(),
    decreases ss.len(),
{
    if ss.len() > 0 {
        assert forall|j: int| 0 <= j < ss.drop_last().len() implies (#[trigger] ss.drop_last()[j])
            == ss[j] by {}
        assert(shards_wf(ss.drop_last()));
        assert forall|i: int, j: int, k: K::V|
            0 <= i < j < ss.drop_last().len() && (
            #[trigger] ss.drop_last()[i].store_view().contains_key(k)) implies !(
        #[trigger] ss.drop_last()[j].store_view().contains_key(k)) by {
            assert(ss[i].store_view().contains_key(k));
            assert(!ss[j].store_view().contains_key(k));
        }
        law_shard_sizes_sum(ss.drop_last());
        let a = shards_map(ss.drop_last()).dom();
        let b = ss.last().store_view().dom();
        assert(ss[ss.len() - 1].wf());
        assert(ss.last().store_view().dom().finite()) by {
            ss.last().lemma_store_finite();
        }
        assert(a.disjoint(b)) by {
            assert forall|k: K::V| a.contains(k) implies !b.contains(k) by {
                lemma_shards_map_contains(ss.drop_last(), k);
                let i = choose|i: int|
                    0 <= i < ss.drop_last().len() && (
                    #[trigger] ss.drop_last()[i]).store_view().contains_key(k);
                assert(ss[i].store_view().contains_key(k));
                assert(!ss[ss.len() - 1].store_view().contains_key(k));
            }
        }
        assert(shards_map(ss).dom() =~= a + b);
        vstd::set_lib::lemma_set_disjoint_lens(a, b);
    }
}

impl<K: RoutedKey, V: CacheValue> MapCluster<K, V> {
    /// Every shard's entry count, in shard order; their sum is the size of
    /// the cluster's abstract map.
    pub fn shard_sizes(&self) -> (r: Vec<usize>)
        requires
            self.wf(),
        ensures
            r@.len() == self.shard_count(),
            forall|i: int|
                0 <= i < r@.len() ==> (#[trigger] r@[i]) == self.shards_spec()[
                    i
                ].store_view().dom().len(),
    {
        let mut out: Vec<usize> = Vec::new();
        let mut i: usize = 0;
        while i < self.shards.len()
            invariant
                self.wf(),
                i <= self.shards@.len(),
                out@.len() == i,
                forall|j: int|
                    0 <= j < i ==> (#[trigger] out@[j]) == self.shards@[
                        j
                    ].store_view().dom().len(),
            decreases self.shards@.len() - i,
        {
            let n = self.shards[i].len();
            out.push(n);
            i = i + 1;
        }
        out
    }

    /// Empties every shard.
    pub fn clear(&mut self)
        requires
            old(self).wf(),
        ensures
            final (self).wf(),
            final (self).shard_count() == old(self).shard_count(),
            final (self).cluster_view() == Map::<K::V, ValueEx<V::V>>::empty(),
    {
        let mut i: usize = 0;
        while i < self.shards.len()
            invariant
                self.shards@.len() == old(self).shards@.len(),
                shards_wf(self.shards@),
                shards_routed(self.shards@),
                i <= self.shards@.len(),
                forall|j: int|
                    0 <= j < i ==> (#[trigger] self.shards@[j]).store_view() == Map::<
                        K::V,
                        ValueEx<V::V>,
                    >::empty(),
            decreases self.shards@.len() - i,
        {
            let ghost ss = self.shards@;
            let mut owner = self.shards.remove(i);
            owner.clear();
            self.shards.insert(i, owner);
            proof {
                let s2 = self.shards@;
                assert forall|j: int| 0 <= j < ss.len() && j != i implies (#[trigger] s2[j])
                    == ss[j] by {
                    if j < i {
                        assert(s2[j] == ss.remove(i as int)[j]);
                    } else {
                        assert(s2[j] == ss.remove(i as int)[j - 1]);
                        assert(ss.remove(i as int)[j - 1] == ss[j]);
                    }
                }
                assert forall|j: int, k: K::V|
                    0 <= j < s2.len() && (#[trigger] s2[j].store_view().contains_key(
                        k,
                    )) implies shard_of::<K>(k, s2.len() as int) == j by {
                    if j != i {
                        assert(s2[j] == ss[j]);
                        assert(ss[j].store_view().contains_key(k));
                    }
                }
            }
            i = i + 1;
        }
        proof {
            lemma_empty_union(self.shards@);
        }
    }
}

} // verus!

verus! {

impl<K: RoutedKey, V: CacheValue> MapCluster<K, V> {
    /// Every live key/payload pair across all shards; each returned entry's
    /// access statistics are bumped in its shard.
    #[verifier::rlimit(100)]
    pub fn get_all(&mut self, now: u64) -> (r: Vec<(K, V)>)
        requires
            old(self).wf(),
        ensures
            final (self).wf(),
            final (self).shard_count() == old(self).shard_count(),
            final (self).cluster_view() == crate::keyed_store::spec_touch_all(
                old(self).cluster_view(),
                now,
            ),
            crate::keyed_store::live_pairs_of(r@, old(self).cluster_view(), now),
    {
        let ghost ss = self.shards@;
        let mut out: Vec<(K, V)> = Vec::new();
        let mut i: usize = 0;
        while i < self.shards.len()
            invariant
                old(self).wf(),
                ss == old(self).shards@,
                self.shards@.len() == ss.len(),
                shards_wf(self.shards@),
                i <= ss.len(),
                forall|j: int| i <= j < ss.len() ==> (#[trigger] self.shards@[j]) == ss[j],
                forall|j: int|
                    0 <= j < i ==> (#[trigger] self.shards@[j]).store_view()
                        == crate::keyed_store::spec_touch_all(ss[j].store_view(), now),
                forall|t: int|
                    0 <= t < out@.len() ==> exists|j: int|
                        0 <= j < i && ss[j].store_view().contains_key((#[trigger] out@[t]).0@)
                            && crate::data_struct::live_at(ss[j].store_view()[out@[t].0@], now)
                            && out@[t].1@ == ss[j].store_view()[out@[t].0@].val && shard_of::<K>(
                            out@[t].0@,
                            ss.len() as int,
                        ) == j,
                forall|j: int, k: K::V|
                    0 <= j < i && (#[trigger] ss[j].store_view().contains_key(k))
                        && crate::data_struct::live_at(ss[j].store_view()[k], now) ==> exists|
                        t: int,
                    |
                        0 <= t < out@.len() && (#[trigger] out@[t]).0@ == k,
                forall|t1: int, t2: int|
                    0 <= t1 < t2 < out@.len() ==> (#[trigger] out@[t1].0@) != (
                    #[trigger] out@[t2].0@),
            decreases ss.len() - i,
        {
            let ghost cur = self.shards@;
            let ghost out0 = out@;
            let mut owner = self.shards.remove(i);
            let mut pairs = owner.get_all(now);
            let ghost pv = pairs@;
            self.shards.insert(i, owner);
            out.append(&mut pairs);
            proof {
                let s2 = self.shards@;
                assert forall|j: int| 0 <= j < ss.len() && j != i implies (#[trigger] s2[j])
                    == cur[j] by {
                    if j < i {
                        assert(s2[j] == cur.remove(i as int)[j]);
                    } else {
                        assert(s2[j] == cur.remove(i as int)[j - 1]);
                        assert(cur.remove(i as int)[j - 1] == cur[j]);
                    }
                }
                assert(out@ == out0 + pv);
                assert forall|t: int| 0 <= t < out@.len() implies exists|j: int|
                    0 <= j < i + 1 && ss[j].store_view().contains_key((#[trigger] out@[t]).0@)
                        && crate::data_struct::live_at(ss[j].store_view()[out@[t].0@], now)
                        && out@[t].1@ == ss[j].store_view()[out@[t].0@].val && shard_of::<K>(
                        out@[t].0@,
                        ss.len() as int,
                    ) == j by {
                    if t < out0.len() {
                        assert(out@[t] == out0[t]);
                        let j = choose|j: int|
                            0 <= j < i && ss[j].store_view().contains_key(
                                (#[trigger] out0[t]).0@,
                            ) && crate::data_struct::live_at(ss[j].store_view()[out0[t].0@], now)
                                && out0[t].1@ == ss[j].store_view()[out0[t].0@].val && shard_of::<
                                K,
                            >(out0[t].0@, ss.len() as int) == j;
                        assert(0 <= j < i + 1 && ss[j].store_view().contains_key(out@[t].0@)
                            && crate::data_struct::live_at(ss[j].store_view()[out@[t].0@], now)
                            && out@[t].1@ == ss[j].store_view()[out@[t].0@].val && shard_of::<K>(
                            out@[t].0@,
                            ss.len() as int,
                        ) == j);
                    } else {
                        assert(out@[t] == pv[t - out0.len()]);
                        assert(ss[i as int].store_view().contains_key(out@[t].0@)
                            && crate::data_struct::live_at(ss[i as int].store_view()[out@[t].0@], now)
                            && out@[t].1@ == ss[i as int].store_view()[out@[t].0@].val);
                        assert(shard_of::<K>(out@[t].0@, ss.len() as int) == i as int);
                    }
                }
                assert forall|j: int, k: K::V|
                    0 <= j < i + 1 && (#[trigger] ss[j].store_view().contains_key(k))
                        && crate::data_struct::live_at(ss[j].store_view()[k], now) implies exists|
                    t: int,
                |
                    0 <= t < out@.len() && (#[trigger] out@[t]).0@ == k by {
                    if j < i {
                        let t = choose|t: int| 0 <= t < out0.len() && (#[trigger] out0[t]).0@ == k;
                        assert(out@[t] == out0[t]);
                        assert(0 <= t < out@.len() && out@[t].0@ == k);
                    } else {
                        let t = choose|t: int| 0 <= t < pv.len() && (#[trigger] pv[t]).0@ == k;
                        assert(out@[out0.len() + t] == pv[t]);
                        assert(0 <= out0.len() + t < out@.len() && out@[out0.len() + t].0@ == k);
                    }
                }
                assert forall|t1: int, t2: int|
                    0 <= t1 < t2 < out@.len() implies (#[trigger] out@[t1].0@) != (
                #[trigger] out@[t2].0@) by {
                    if t2 < out0.len() {
                    } else if t1 >= out0.len() {
                        assert(out@[t1] == pv[t1 - out0.len()]);
                        assert(out@[t2] == pv[t2 - out0.len()]);
                    } else {
                        assert(out@[t1] == out0[t1]);
                        assert(out@[t2] == pv[t2 - out0.len()]);
                        let j = choose|j: int|
                            0 <= j < i && ss[j].store_view().contains_key(
                                (#[trigger] out0[t1]).0@,
                            ) && crate::data_struct::live_at(ss[j].store_view()[out0[t1].0@], now)
                                && out0[t1].1@ == ss[j].store_view()[out0[t1].0@].val && shard_of::<
                                K,
                            >(out0[t1].0@, ss.len() as int) == j;
                        assert(ss[i as int].store_view().contains_key(out@[t2].0@));
                        assert(shard_of::<K>(out@[t2].0@, ss.len() as int) == i as int);
                    }
                }
                assert forall|j: int, k: K::V|
                    0 <= j < s2.len() && (#[trigger] s2[j].store_view().contains_key(
                        k,
                    )) implies shard_of::<K>(k, s2.len() as int) == j by {
                    if j != i {
                        assert(s2[j] == cur[j]);
                        assert(cur[j].store_view().contains_key(k));
                    } else {
                        assert(ss[i as int].store_view().contains_key(k));
                    }
                }
            }
            i = i + 1;
        }
        proof {
            let s2 = self.shards@;
            let m0 = shards_map(ss);
            let m2 = shards_map(s2);
            assert_maps_equal!(m2, crate::keyed_store::spec_touch_all(m0, now), k => {
                    lemma_shards_map_contains(ss, k);
                    lemma_shards_map_contains(s2, k);
                    if m0.contains_key(k) {
                        let j = choose|j: int|
                            0 <= j < ss.len() && (#[trigger] ss[j]).store_view().contains_key(k);
                        assert forall|j2: int|
                            0 <= j2 < ss.len() && j2 != j implies !(
                        #[trigger] ss[j2]).store_view().contains_key(k) by {
                            if ss[j2].store_view().contains_key(k) {
                                assert(shard_of::<K>(k, ss.len() as int) == j2);
                                assert(shard_of::<K>(k, ss.len() as int) == j);
                            }
                        }
                        lemma_shards_map_lookup(ss, j, k);
                        assert(s2[j].store_view().contains_key(k));
                        assert forall|j2: int|
                            0 <= j2 < s2.len() && j2 != j implies !(
                        #[trigger] s2[j2]).store_view().contains_key(k) by {
                            if s2[j2].store_view().contains_key(k) {
                                assert(ss[j2].store_view().contains_key(k));
                                assert(shard_of::<K>(k, ss.len() as int) == j2);
                                assert(shard_of::<K>(k, ss.len() as int) == j);
                            }
                        }
                        lemma_shards_map_lookup(s2, j, k);
                    } else {
                        assert forall|j2: int|
                            0 <= j2 < s2.len() implies !(
                        #[trigger] s2[j2]).store_view().contains_key(k) by {
                            assert(!ss[j2].store_view().contains_key(k));
                        }
                        lemma_shards_map_absent(s2, k);
                    }
            });
            assert forall|t: int| 0 <= t < out@.len() implies m0.contains_key(
                (#[trigger] out@[t]).0@,
            ) && crate::data_struct::live_at(m0[out@[t].0@], now) && out@[t].1@ == m0[
                out@[t].0@
            ].val by {
                let j = choose|j: int|
                    0 <= j < ss.len() && ss[j].store_view().contains_key((#[trigger] out@[t]).0@)
                        && crate::data_struct::live_at(ss[j].store_view()[out@[t].0@], now) && out@[
                        t
                    ].1@ == ss[j].store_view()[out@[t].0@].val && shard_of::<K>(
                        out@[t].0@,
                        ss.len() as int,
                    ) == j;
                assert forall|j2: int|
                    0 <= j2 < ss.len() && j2 != j implies !(
                #[trigger] ss[j2]).store_view().contains_key(out@[t].0@) by {
                    if ss[j2].store_view().contains_key(out@[t].0@) {
                        assert(shard_of::<K>(out@[t].0@, ss.len() as int) == j2);
                    }
                }
                lemma_shards_map_lookup(ss, j, out@[t].0@);
            }
            assert forall|k: K::V| #[trigger]
                m0.contains_key(k) && crate::data_struct::live_at(m0[k], now) implies exists|t: int|
                0 <= t < out@.len() && (#[trigger] out@[t]).0@ == k by {
                lemma_shards_map_contains(ss, k);
                let j = choose|j: int|
                    0 <= j < ss.len() && (#[trigger] ss[j]).store_view().contains_key(k);
                assert forall|j2: int|
                    0 <= j2 < ss.len() && j2 != j implies !(
                #[trigger] ss[j2]).store_view().contains_key(k) by {
                    if ss[j2].store_view().contains_key(k) {
                        assert(shard_of::<K>(k, ss.len() as int) == j2);
                        assert(shard_of::<K>(k, ss.len() as int) == j);
                    }
                }
                lemma_shards_map_lookup(ss, j, k);
                assert(ss[j].store_view().contains_key(k) && crate::data_struct::live_at(
                    ss[j].store_view()[k],
                    now,
                ));
            }
        }
        out
    }
}

} // verus!

verus! {

/// A fixed fan-out of set-shaped owners routed by member hash: the map
/// cluster with the member as key and an empty payload.
pub struct SetCluster<V: RoutedKey> {
    inner: MapCluster<V, ()>,
}

impl<V: RoutedKey> SetCluster<V> {
    /// The cluster's abstract contents: each member's state record under the
    /// member's abstract value.
    pub closed spec fn cluster_view(self) -> Map<V::V, ValueEx<()>> {
        self.inner.cluster_view()
    }

    /// How many shards the cluster was built with.
    pub closed spec fn shard_count(self) -> nat {
        self.inner.shard_count()
    }

    /// The cluster invariant.
    pub closed spec fn wf(self) -> bool {
        self.inner.wf()
    }

    /// A cluster of `n_node` empty shards, each with the given policy.
    pub fn new(policy: ExpirationPolicy, n_node: u16) -> (r: Self)
        ensures
            r.wf(),
            r.shard_count() == n_node,
            r.cluster_view() == Map::<V::V, ValueEx<()>>::empty(),
    {
        SetCluster { inner: MapCluster::new(policy, n_node) }
    }

    /// Adds `val` to the shard it routes to; to the cluster as a whole this
    /// is exactly one set write.
    pub fn insert(&mut self, val: V, ex: Option<u64>, nx: bool, now: u64) -> (r: Result<
        (),
        TokioActorCacheError,
    >)
        requires
            old(self).wf(),
        ensures
            final (self).wf(),
            final (self).shard_count() == old(self).shard_count(),
            old(self).shard_count() == 0 ==> r == Result::<(), TokioActorCacheError>::Err(
                TokioActorCacheError::NodeNotExists,
            ) && final (self).cluster_view() == old(self).cluster_view(),
            old(self).shard_count() > 0 ==> r == Result::<(), TokioActorCacheError>::Ok(())
                && final (self).cluster_view() == spec_insert(
                old(self).cluster_view(),
                val@,
                (),
                ex,
                nx,
                now,
            ),
    {
        self.inner.insert(val, (), ex, nx, now)
    }

    /// Adds many members in index order, each to its shard. Arrays of
    /// differing lengths fail with `InconsistentLen` before anything is
    /// dispatched; an empty cluster fails with `NodeNotExists`.
    pub fn minsert(
        &mut self,
        vals: &Vec<V>,
        exs: &Vec<Option<u64>>,
        nxs: &Vec<bool>,
        now: u64,
    ) -> (r: Result<(), TokioActorCacheError>)
        requires
            old(self).wf(),
        ensures
            final (self).wf(),
            final (self).shard_count() == old(self).shard_count(),
            !(vals@.len() == exs@.len() && exs@.len() == nxs@.len()) ==> r == Result::<
                (),
                TokioActorCacheError,
            >::Err(TokioActorCacheError::InconsistentLen) && final (self).cluster_view() == old(
                self,
            ).cluster_view(),
            vals@.len() == exs@.len() && exs@.len() == nxs@.len() && old(self).shard_count() == 0
                ==> r == Result::<(), TokioActorCacheError>::Err(
                TokioActorCacheError::NodeNotExists,
            ) && final (self).cluster_view() == old(self).cluster_view(),
            vals@.len() == exs@.len() && exs@.len() == nxs@.len() && old(self).shard_count() > 0
                ==> r == Result::<(), TokioActorCacheError>::Ok(()) && final (self).cluster_view()
                == spec_minsert(
                old(self).cluster_view(),
                views_of(vals@),
                views_of(crate::owner::unit_vals(vals@.len())),
                exs@,
                nxs@,
                now,
            ),
    {
        if vals.len() != exs.len() || exs.len() != nxs.len() {
            return Result::Err(TokioActorCacheError::InconsistentLen);
        }
        let mut units: Vec<()> = Vec::new();
        let mut i: usize = 0;
        while i < vals.len()
            invariant
                i <= vals@.len(),
                units@.len() == i,
            decreases vals@.len() - i,
        {
            units.push(());
            i = i + 1;
        }
        proof {
            assert(units@ =~= crate::owner::unit_vals(vals@.len()));
            assert(views_of(units@) =~= views_of(crate::owner::unit_vals(vals@.len())));
        }
        self.inner.minsert(vals, &units, exs, nxs, now)
    }

    /// Per-member presence, each member asked of its shard.
    pub fn contains(&mut self, vals: &Vec<V>, now: u64) -> (r: Result<
        Vec<bool>,
        TokioActorCacheError,
    >)
        requires
            old(self).wf(),
        ensures
            final (self).wf(),
            final (self).shard_count() == old(self).shard_count(),
            old(self).shard_count() == 0 ==> r == Result::<Vec<bool>, TokioActorCacheError>::Err(
                TokioActorCacheError::NodeNotExists,
            ) && final (self).cluster_view() == old(self).cluster_view(),
            old(self).shard_count() > 0 ==> match r {
                Result::Ok(out) => out@.len() == vals@.len() && final (self).cluster_view()
                    == spec_mtouch(old(self).cluster_view(), views_of(vals@), now) && forall|i: int|
                    0 <= i < vals@.len() ==> (#[trigger] out@[i]) == (
                    old(self).cluster_view().contains_key(vals@[i]@) && crate::data_struct::live_at(
                        old(self).cluster_view()[vals@[i]@],
                        now,
                    )),
                Result::Err(_) => false,
            },
    {
        self.inner.contains_key(vals, now)
    }

    /// Removes every member in order from its shard, answering per member
    /// whether it was still live at its own removal instant.
    pub fn remove(&mut self, vals: &Vec<V>, now: u64) -> (r: Result<
        Vec<bool>,
        TokioActorCacheError,
    >)
        requires
            old(self).wf(),
        ensures
            final (self).wf(),
            final (self).shard_count() == old(self).shard_count(),
            old(self).shard_count() == 0 ==> r == Result::<Vec<bool>, TokioActorCacheError>::Err(
                TokioActorCacheError::NodeNotExists,
            ) && final (self).cluster_view() == old(self).cluster_view(),
            old(self).shard_count() > 0 ==> match r {
                Result::Ok(out) => out@.len() == vals@.len() && final (self).cluster_view()
                    == spec_mremove(old(self).cluster_view(), views_of(vals@)) && forall|i: int|
                    0 <= i < vals@.len() ==> (#[trigger] out@[i]) == (spec_mremove_out(
                        old(self).cluster_view(),
                        views_of(vals@),
                        now,
                    )[i] is Some),
                Result::Err(_) => false,
            },
    {
        let raw = match self.inner.remove(vals, now) {
            Result::Ok(raw) => raw,
            Result::Err(e) => {
                return Result::Err(e);
            },
        };
        let ghost outs = spec_mremove_out(old(self).cluster_view(), views_of(vals@), now);
        let mut r: Vec<bool> = Vec::new();
        let mut i: usize = 0;
        while i < raw.len()
            invariant
                i <= raw@.len(),
                r@.len() == i,
                raw@.len() == outs.len(),
                opt_views(raw@) == outs,
                forall|j: int| 0 <= j < i ==> (#[trigger] r@[j]) == (outs[j] is Some),
            decreases raw@.len() - i,
        {
            let b = match raw[i] {
                Option::Some(_) => true,
                Option::None => false,
            };
            proof {
                assert(opt_views(raw@)[i as int] == opt_view(raw@[i as int]));
            }
            r.push(b);
            i = i + 1;
        }
        Result::Ok(r)
    }

    /// Per-member remaining time-to-live, each member asked of its shard.
    pub fn ttl(&mut self, vals: &Vec<V>, now: u64) -> (r: Result<
        Vec<Option<u64>>,
        TokioActorCacheError,
    >)
        requires
            old(self).wf(),
        ensures
            final (self).wf(),
            final (self).shard_count() == old(self).shard_count(),
            old(self).shard_count() == 0 ==> r == Result::<Vec<Option<u64>>, TokioActorCacheError>::Err(
                TokioActorCacheError::NodeNotExists,
            ) && final (self).cluster_view() == old(self).cluster_view(),
            old(self).shard_count() > 0 ==> match r {
                Result::Ok(out) => out@.len() == vals@.len() && final (self).cluster_view()
                    == spec_mtouch(old(self).cluster_view(), views_of(vals@), now) && forall|i: int|
                    0 <= i < vals@.len() ==> (#[trigger] out@[i]) == spec_ttl(
                        old(self).cluster_view(),
                        vals@[i]@,
                        now,
                    ),
                Result::Err(_) => false,
            },
    {
        self.inner.ttl(vals, now)
    }

    /// Every live member across all shards; each returned entry's access
    /// statistics are bumped in its shard.
    pub fn get_all(&mut self, now: u64) -> (r: Vec<V>)
        requires
            old(self).wf(),
        ensures
            final (self).wf(),
            final (self).shard_count() == old(self).shard_count(),
            final (self).cluster_view() == crate::keyed_store::spec_touch_all(
                old(self).cluster_view(),
                now,
            ),
            crate::keyed_store::live_keys_of(r@, old(self).cluster_view(), now),
    {
        let ghost m0 = self.cluster_view();
        let pairs = self.inner.get_all(now);
        let mut r: Vec<V> = Vec::new();
        let mut i: usize = 0;
        while i < pairs.len()
            invariant
                i <= pairs@.len(),
                r@.len() == i,
                forall|j: int| 0 <= j < i ==> (#[trigger] r@[j])@ == pairs@[j].0@,
            decreases pairs@.len() - i,
        {
            let k = pairs[i].0.dup();
            r.push(k);
            i = i + 1;
        }
        proof {
            assert forall|k: V::V| #[trigger]
                m0.contains_key(k) && crate::data_struct::live_at(m0[k], now) implies exists|t: int|
                0 <= t < r@.len() && (#[trigger] r@[t])@ == k by {
                let t = choose|t: int| 0 <= t < pairs@.len() && (#[trigger] pairs@[t]).0@ == k;
                assert(r@[t]@ == k);
            }
        }
        r
    }

    /// Empties every shard.
    pub fn clear(&mut self)
        requires
            old(self).wf(),
        ensures
            final (self).wf(),
            final (self).shard_count() == old(self).shard_count(),
            final (self).cluster_view() == Map::<V::V, ValueEx<()>>::empty(),
    {
        self.inner.clear();
    }

    /// Every shard's member count, in shard order.
    pub fn shard_sizes(&self) -> (r: Vec<usize>)
        requires
            self.wf(),
        ensures
            r@.len() == self.shard_count(),
    {
        self.inner.shard_sizes()
    }
}

} // verus!

verus! {

/// After writing pairwise-distinct keys into a fresh cluster, the per-shard
/// sizes add up to exactly the number of keys written: each insert landed in
/// one shard and no key was counted twice.
pub proof fn law_cluster_distinct_inserts_count<K: RoutedKey, V: CacheValue>(
    ss: Seq<MapOwner<K, V>>,
    keys: Seq<K::V>,
    vals: Seq<V::V>,
    exs: Seq<Option<u64>>,
    nxs: Seq<bool>,
    now: u64,
)
    requires
        shards_wf(ss),
        shards_routed(ss),
        shards_map(ss) == spec_minsert(
            Map::<K::V, ValueEx<V::V>>::empty(),
            keys,
            vals,
            exs,
            nxs,
            now,
        ),
        forall|i: int, j: int| 0 <= i < j < keys.len() ==> keys[i] != keys[j],
    ensures
        sizes_total(ss) == keys.len(),
{
    assert forall|i: int, j: int, k: K::V|
        0 <= i < j < ss.len() && (#[trigger] ss[i].store_view().contains_key(k)) implies !(
    #[trigger] ss[j].store_view().contains_key(k)) by {
        if ss[j].store_view().contains_key(k) {
            assert(shard_of::<K>(k, ss.len() as int) == i);
            assert(shard_of::<K>(k, ss.len() as int) == j);
        }
    }
    law_shard_sizes_sum(ss);
    crate::laws::law_distinct_inserts_count::<K::V, V::V>(keys, vals, exs, nxs, now);
}

} // verus!
