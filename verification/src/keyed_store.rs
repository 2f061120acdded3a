//! The unique-key storage shared by the map-shaped and set-shaped containers.
//!
//! Storage is an association list with pairwise-distinct abstract keys; its
//! abstract value is the finite map from key views to stored records. Every
//! operation's contract is stated against that map through the spec
//! transition functions below, which are also what the crate's laws and the
//! replication model reason over.
use vstd::prelude::*;

use crate::cache_key::{opt_view, CacheKey, CacheValue};
use crate::data_struct::{fresh_entry, live_at, overwrite_entry, stat_of, touched, ValueEx};
use crate::expiration_policy::ExpirationPolicy;

verus! {

/// Unique-key storage: at most one entry per abstract key.
pub struct KeyedStore<K: CacheKey, V: CacheValue> {
    slots: Vec<(K, ValueEx<V>)>,
}

/// Pairwise-distinct abstract keys.
pub open spec fn keys_distinct<K: CacheKey, V: CacheValue>(s: Seq<(K, ValueEx<V>)>) -> bool {
    forall|i: int, j: int|
        0 <= i < j < s.len() ==> (#[trigger] s[i].0@) != (#[trigger] s[j].0@)
}

/// The finite map denoted by a run of slots; later slots win, though under
/// `keys_distinct` there is nothing to win over.
pub open spec fn slots_map<K: CacheKey, V: CacheValue>(s: Seq<(K, ValueEx<V>)>) -> Map<
    K::V,
    ValueEx<V::V>,
>
    decreases s.len(),
{
    if s.len() == 0 {
        Map::empty()
    } else {
        slots_map(s.drop_last()).insert(s.last().0@, s.last().1@)
    }
}

impl<K: CacheKey, V: CacheValue> View for KeyedStore<K, V> {
    type V = Map<K::V, ValueEx<V::V>>;

    closed spec fn view(&self) -> Map<K::V, ValueEx<V::V>> {
        slots_map(self.slots@)
    }
}

impl<K: CacheKey, V: CacheValue> KeyedStore<K, V> {
    /// The storage invariant: no two slots share an abstract key.
    pub closed spec fn wf(self) -> bool {
        keys_distinct(self.slots@)
    }
}

proof fn lemma_map_contains<K: CacheKey, V: CacheValue>(s: Seq<(K, ValueEx<V>)>, k: K::V)
    ensures
        slots_map(s).contains_key(k) <==> exists|i: int| 0 <= i < s.len() && (#[trigger] s[i].0@)
            == k,
    decreases s.len(),
{
    if s.len() > 0 {
        lemma_map_contains(s.drop_last(), k);
        if s.last().0@ == k {
            assert(s[s.len() - 1].0@ == k);
        } else {
            if slots_map(s).contains_key(k) {
                let i = choose|i: int| 0 <= i < s.drop_last().len() && (#[trigger] s.drop_last()[i].0@) == k;
                assert(s[i].0@ == k);
            }
            if exists|i: int| 0 <= i < s.len() && (#[trigger] s[i].0@) == k {
                let i = choose|i: int| 0 <= i < s.len() && (#[trigger] s[i].0@) == k;
                assert(i < s.len() - 1);
                assert(s.drop_last()[i].0@ == k);
            }
        }
    }
}

proof fn lemma_map_at_index<K: CacheKey, V: CacheValue>(s: Seq<(K, ValueEx<V>)>, i: int)
    requires
        keys_distinct(s),
        0 <= i < s.len(),
    ensures
        slots_map(s).contains_key(s[i].0@),
        slots_map(s)[s[i].0@] == s[i].1@,
    decreases s.len(),
{
    if i == s.len() - 1 {
    } else {
        assert(s.drop_last()[i] == s[i]);
        assert(keys_distinct(s.drop_last())) by {
            assert forall|a: int, b: int|
                0 <= a < b < s.drop_last().len() implies (#[trigger] s.drop_last()[a].0@)
                != (#[trigger] s.drop_last()[b].0@) by {
                assert(s[a] == s.drop_last()[a]);
                assert(s[b] == s.drop_last()[b]);
            }
        }
        lemma_map_at_index(s.drop_last(), i);
        assert(s[i].0@ != s.last().0@);
    }
}

proof fn lemma_distinct_prefix<K: CacheKey, V: CacheValue>(s: Seq<(K, ValueEx<V>)>)
    requires
        keys_distinct(s),
        s.len() > 0,
    ensures
        keys_distinct(s.drop_last()),
        !slots_map(s.drop_last()).contains_key(s.last().0@),
{
    assert forall|a: int, b: int|
        0 <= a < b < s.drop_last().len() implies (#[trigger] s.drop_last()[a].0@)
        != (#[trigger] s.drop_last()[b].0@) by {
        assert(s[a] == s.drop_last()[a]);
        assert(s[b] == s.drop_last()[b]);
    }
    lemma_map_contains(s.drop_last(), s.last().0@);
    if slots_map(s.drop_last()).contains_key(s.last().0@) {
        let i = choose|i: int|
            0 <= i < s.drop_last().len() && (#[trigger] s.drop_last()[i].0@) == s.last().0@;
        assert(s[i].0@ == s[s.len() - 1].0@);
        assert(false);
    }
}

proof fn lemma_map_len<K: CacheKey, V: CacheValue>(s: Seq<(K, ValueEx<V>)>)
    requires
        keys_distinct(s),
    ensures
        slots_map(s).dom().finite(),
        slots_map(s).dom().len() == s.len(),
    decreases s.len(),
{
    if s.len() > 0 {
        lemma_distinct_prefix(s);
        lemma_map_len(s.drop_last());
        assert(slots_map(s).dom() =~= slots_map(s.drop_last()).dom().insert(s.last().0@));
    }
}

impl<K: CacheKey, V: CacheValue> KeyedStore<K, V> {
    /// An empty store.
    pub fn new() -> (r: Self)
        ensures
            r.wf(),
            r@ == Map::<K::V, ValueEx<V::V>>::empty(),
    {
        KeyedStore { slots: Vec::new() }
    }

    /// How many entries the store holds, live or not.
    pub fn len(&self) -> (n: usize)
        requires
            self.wf(),
        ensures
            n == self@.dom().len(),
    {
        proof {
            lemma_map_len(self.slots@);
        }
        self.slots.len()
    }

    /// Empties the store.
    pub fn clear(&mut self)
        ensures
            final (self).wf(),
            final (self)@ == Map::<K::V, ValueEx<V::V>>::empty(),
    {
        self.slots.clear();
    }

    fn find(slots: &Vec<(K, ValueEx<V>)>, key: &K) -> (r: Option<usize>)
        ensures
            match r {
                Option::Some(i) => 0 <= i < slots@.len() && slots@[i as int].0@ == key@,
                Option::None => forall|i: int| 0 <= i < slots@.len() ==> (#[trigger] slots@[i].0@) != key@,
            },
    {
        let mut i: usize = 0;
        while i < slots.len()
            invariant
                i <= slots@.len(),
                forall|j: int| 0 <= j < i ==> (#[trigger] slots@[j].0@) != key@,
            decreases slots@.len() - i,
        {
            if slots[i].0.key_eq(key) {
                return Option::Some(i);
            }
            i = i + 1;
        }
        Option::None
    }
}

} // verus!

verus! {

/// The map after a write of `v` under `k` with time-to-live `ex` at instant
/// `now`. A live prior entry is kept as-is when `nx` is set and overwritten
/// (carrying its access counter on) otherwise; an absent or expired prior
/// entry is always replaced by a fresh record.
pub open spec fn spec_insert<KV, VV>(
    m: Map<KV, ValueEx<VV>>,
    k: KV,
    v: VV,
    ex: Option<u64>,
    nx: bool,
    now: u64,
) -> Map<KV, ValueEx<VV>> {
    if m.contains_key(k) && live_at(m[k], now) {
        if nx {
            m
        } else {
            m.insert(k, overwrite_entry(v, ex, m[k].call_cnt, now))
        }
    } else {
        m.insert(k, fresh_entry(v, ex, now))
    }
}

/// What a read of `k` at instant `now` returns: the stored payload when a
/// live entry is present, nothing otherwise (expired entries read as absent).
pub open spec fn spec_read<KV, VV>(m: Map<KV, ValueEx<VV>>, k: KV, now: u64) -> Option<VV> {
    if m.contains_key(k) && live_at(m[k], now) {
        Option::Some(m[k].val)
    } else {
        Option::None
    }
}

/// The map after a read of `k` at instant `now`: a hit bumps the entry's
/// access statistics, a miss changes nothing.
pub open spec fn spec_touch<KV, VV>(m: Map<KV, ValueEx<VV>>, k: KV, now: u64) -> Map<
    KV,
    ValueEx<VV>,
> {
    if m.contains_key(k) && live_at(m[k], now) {
        m.insert(k, touched(m[k], now))
    } else {
        m
    }
}

/// The remaining time-to-live of `k` at instant `now`: present only for a
/// live entry that carries a deadline.
pub open spec fn spec_ttl<KV, VV>(m: Map<KV, ValueEx<VV>>, k: KV, now: u64) -> Option<u64> {
    if m.contains_key(k) && live_at(m[k], now) {
        match m[k].expiration {
            Option::Some(t) => Option::Some((t - now) as u64),
            Option::None => Option::None,
        }
    } else {
        Option::None
    }
}

proof fn lemma_map_update<K: CacheKey, V: CacheValue>(
    s: Seq<(K, ValueEx<V>)>,
    i: int,
    p: (K, ValueEx<V>),
)
    requires
        keys_distinct(s),
        0 <= i < s.len(),
        p.0@ == s[i].0@,
    ensures
        keys_distinct(s.update(i, p)),
        slots_map(s.update(i, p)) == slots_map(s).insert(p.0@, p.1@),
    decreases s.len(),
{
    let t = s.update(i, p);
    assert forall|a: int, b: int| 0 <= a < b < t.len() implies (#[trigger] t[a].0@)
        != (#[trigger] t[b].0@) by {
        assert(t[a].0@ == s[a].0@);
        assert(t[b].0@ == s[b].0@);
    }
    if i == s.len() - 1 {
        assert(t.drop_last() =~= s.drop_last());
        assert(slots_map(t) == slots_map(s.drop_last()).insert(p.0@, p.1@));
        assert(slots_map(s.drop_last()).insert(s.last().0@, s.last().1@).insert(p.0@, p.1@)
            =~= slots_map(s.drop_last()).insert(p.0@, p.1@));
    } else {
        lemma_distinct_prefix(s);
        lemma_map_update(s.drop_last(), i, p);
        assert(t.drop_last() =~= s.drop_last().update(i, p));
        assert(t.last() == s.last());
        assert(p.0@ != s.last().0@);
        assert(slots_map(s.drop_last()).insert(p.0@, p.1@).insert(s.last().0@, s.last().1@)
            =~= slots_map(s.drop_last()).insert(s.last().0@, s.last().1@).insert(p.0@, p.1@));
    }
}

proof fn lemma_map_remove_at<K: CacheKey, V: CacheValue>(s: Seq<(K, ValueEx<V>)>, i: int)
    requires
        keys_distinct(s),
        0 <= i < s.len(),
    ensures
        keys_distinct(s.remove(i)),
        slots_map(s.remove(i)) == slots_map(s).remove(s[i].0@),
    decreases s.len(),
{
    let t = s.remove(i);
    assert forall|a: int, b: int| 0 <= a < b < t.len() implies (#[trigger] t[a].0@)
        != (#[trigger] t[b].0@) by {
        if b < i {
            assert(t[a] == s[a]);
            assert(t[b] == s[b]);
        } else if a < i {
            assert(t[a] == s[a]);
            assert(t[b] == s[b + 1]);
        } else {
            assert(t[a] == s[a + 1]);
            assert(t[b] == s[b + 1]);
        }
    }
    lemma_distinct_prefix(s);
    if i == s.len() - 1 {
        assert(t =~= s.drop_last());
        lemma_map_contains(s.drop_last(), s.last().0@);
        assert(slots_map(s).remove(s[i].0@) =~= slots_map(s.drop_last()));
    } else {
        lemma_map_remove_at(s.drop_last(), i);
        assert(t.drop_last() =~= s.drop_last().remove(i)) by {
            assert forall|j: int| 0 <= j < t.len() - 1 implies t.drop_last()[j] == s.drop_last().remove(
                i,
            )[j] by {
                if j < i {
                    assert(t[j] == s[j]);
                } else {
                    assert(t[j] == s[j + 1]);
                }
            }
        }
        assert(t.last() == s.last());
        assert(s[i].0@ != s.last().0@);
        assert(slots_map(t) == slots_map(s.drop_last()).remove(s[i].0@).insert(
            s.last().0@,
            s.last().1@,
        ));
        assert(slots_map(s.drop_last()).remove(s[i].0@).insert(s.last().0@, s.last().1@)
            =~= slots_map(s.drop_last()).insert(s.last().0@, s.last().1@).remove(s[i].0@));
    }
}

proof fn lemma_map_push<K: CacheKey, V: CacheValue>(s: Seq<(K, ValueEx<V>)>, p: (K, ValueEx<V>))
    requires
        keys_distinct(s),
        forall|i: int| 0 <= i < s.len() ==> (#[trigger] s[i].0@) != p.0@,
    ensures
        keys_distinct(s.push(p)),
        slots_map(s.push(p)) == slots_map(s).insert(p.0@, p.1@),
{
    let t = s.push(p);
    assert forall|a: int, b: int| 0 <= a < b < t.len() implies (#[trigger] t[a].0@)
        != (#[trigger] t[b].0@) by {
        assert(t[a] == s[a]);
        if b < s.len() {
            assert(t[b] == s[b]);
        } else {
            assert(t[b] == p);
        }
    }
    assert(t.drop_last() =~= s);
    assert(t.last() == p);
}

impl<K: CacheKey, V: CacheValue> KeyedStore<K, V> {
    /// Writes `val` under `key`. A live prior entry survives untouched when
    /// `nx` is set and is overwritten otherwise; an expired prior entry
    /// counts as absent.
    pub fn insert(&mut self, key: K, val: V, ex: Option<u64>, nx: bool, now: u64)
        requires
            old(self).wf(),
        ensures
            final (self).wf(),
            final (self)@ == spec_insert(old(self)@, key@, val@, ex, nx, now),
    {
        let ghost s0 = self.slots@;
        let idx = Self::find(&self.slots, &key);
        match idx {
            Option::Some(i) => {
                proof {
                    lemma_map_at_index(self.slots@, i as int);
                }
                let live = self.slots[i].1.is_live(now);
                if live && nx {
                    // a live entry is kept under nx
                } else {
                    let cnt: u64 = if live {
                        let c = self.slots[i].1.call_cnt;
                        if c == u64::MAX {
                            c
                        } else {
                            c + 1
                        }
                    } else {
                        0
                    };
                    let e = ValueEx {
                        val,
                        expiration: crate::data_struct::make_deadline(ex, now),
                        call_cnt: cnt,
                        last_accessed: now,
                    };
                    let p = (key, e);
                    proof {
                        lemma_map_update(s0, i as int, p);
                    }
                    self.slots.set(i, p);
                }
            },
            Option::None => {
                let e = ValueEx {
                    val,
                    expiration: crate::data_struct::make_deadline(ex, now),
                    call_cnt: 0,
                    last_accessed: now,
                };
                let p = (key, e);
                proof {
                    lemma_map_contains(s0, p.0@);
                    lemma_map_push(s0, p);
                }
                self.slots.push(p);
            },
        }
    }

    /// Reads `key`: returns the stored payload of a live entry and bumps its
    /// access statistics; an absent or expired entry reads as nothing.
    pub fn get(&mut self, key: &K, now: u64) -> (r: Option<V>)
        requires
            old(self).wf(),
        ensures
            final (self).wf(),
            final (self)@ == spec_touch(old(self)@, key@, now),
            opt_view(r) == spec_read(old(self)@, key@, now),
    {
        let ghost s0 = self.slots@;
        let idx = Self::find(&self.slots, key);
        match idx {
            Option::Some(i) => {
                proof {
                    lemma_map_at_index(self.slots@, i as int);
                }
                if self.slots[i].1.is_live(now) {
                    let out = self.slots[i].1.val.dup();
                    let k2 = self.slots[i].0.dup();
                    let e2 = self.slots[i].1.touch(now);
                    let p = (k2, e2);
                    proof {
                        lemma_map_update(s0, i as int, p);
                    }
                    self.slots.set(i, p);
                    Option::Some(out)
                } else {
                    Option::None
                }
            },
            Option::None => {
                proof {
                    lemma_map_contains(s0, key@);
                }
                Option::None
            },
        }
    }

    /// Whether a live entry is stored under `key`; a hit bumps the entry's
    /// access statistics.
    pub fn contains_key_one(&mut self, key: &K, now: u64) -> (r: bool)
        requires
            old(self).wf(),
        ensures
            final (self).wf(),
            final (self)@ == spec_touch(old(self)@, key@, now),
            r == (old(self)@.contains_key(key@) && live_at(old(self)@[key@], now)),
    {
        let found = self.get(key, now);
        match found {
            Option::Some(_) => true,
            Option::None => false,
        }
    }

    /// The remaining time-to-live under `key` at instant `now`; a hit bumps
    /// the entry's access statistics.
    pub fn ttl_one(&mut self, key: &K, now: u64) -> (r: Option<u64>)
        requires
            old(self).wf(),
        ensures
            final (self).wf(),
            final (self)@ == spec_touch(old(self)@, key@, now),
            r == spec_ttl(old(self)@, key@, now),
    {
        let ghost s0 = self.slots@;
        let idx = Self::find(&self.slots, key);
        match idx {
            Option::Some(i) => {
                proof {
                    lemma_map_at_index(self.slots@, i as int);
                }
                if self.slots[i].1.is_live(now) {
                    let exp = self.slots[i].1.expiration;
                    let k2 = self.slots[i].0.dup();
                    let e2 = self.slots[i].1.touch(now);
                    let p = (k2, e2);
                    proof {
                        lemma_map_update(s0, i as int, p);
                    }
                    self.slots.set(i, p);
                    match exp {
                        Option::Some(t) => Option::Some(t - now),
                        Option::None => Option::None,
                    }
                } else {
                    Option::None
                }
            },
            Option::None => {
                proof {
                    lemma_map_contains(s0, key@);
                }
                Option::None
            },
        }
    }

    /// Removes whatever is stored under `key` and returns the payload if the
    /// removed entry was still live.
    pub fn remove_one(&mut self, key: &K, now: u64) -> (r: Option<V>)
        requires
            old(self).wf(),
        ensures
            final (self).wf(),
            final (self)@ == old(self)@.remove(key@),
            opt_view(r) == spec_read(old(self)@, key@, now),
    {
        let ghost s0 = self.slots@;
        let idx = Self::find(&self.slots, key);
        match idx {
            Option::Some(i) => {
                proof {
                    lemma_map_at_index(self.slots@, i as int);
                    lemma_map_remove_at(s0, i as int);
                }
                let out = if self.slots[i].1.is_live(now) {
                    Option::Some(self.slots[i].1.val.dup())
                } else {
                    Option::None
                };
                self.slots.remove(i);
                out
            },
            Option::None => {
                proof {
                    lemma_map_contains(s0, key@);
                    assert(slots_map(s0).remove(key@) =~= slots_map(s0));
                }
                Option::None
            },
        }
    }
}

} // verus!

verus! {

/// The map after a full read at instant `now`: every live entry's access
/// statistics are bumped, expired entries are left for the next sweep.
pub open spec fn spec_touch_all<KV, VV>(m: Map<KV, ValueEx<VV>>, now: u64) -> Map<
    KV,
    ValueEx<VV>,
> {
    Map::new(
        |k: KV| m.contains_key(k),
        |k: KV|
            if live_at(m[k], now) {
                touched(m[k], now)
            } else {
                m[k]
            },
    )
}

/// The map after a TTL sweep at instant `now`: exactly the live entries
/// survive, unchanged.
pub open spec fn spec_sweep<KV, VV>(m: Map<KV, ValueEx<VV>>, now: u64) -> Map<KV, ValueEx<VV>> {
    Map::new(|k: KV| m.contains_key(k) && live_at(m[k], now), |k: KV| m[k])
}

/// `pairs` lists exactly the live key/payload pairs of `m` at instant `now`,
/// each key once.
pub open spec fn live_pairs_of<K: CacheKey, V: CacheValue>(
    pairs: Seq<(K, V)>,
    m: Map<K::V, ValueEx<V::V>>,
    now: u64,
) -> bool {
    &&& forall|t: int|
        0 <= t < pairs.len() ==> m.contains_key((#[trigger] pairs[t]).0@) && live_at(
            m[pairs[t].0@],
            now,
        ) && pairs[t].1@ == m[pairs[t].0@].val
    &&& forall|t1: int, t2: int|
        0 <= t1 < t2 < pairs.len() ==> (#[trigger] pairs[t1]).0@ != (#[trigger] pairs[t2]).0@
    &&& forall|k: K::V|
        #[trigger] m.contains_key(k) && live_at(m[k], now) ==> exists|t: int|
            0 <= t < pairs.len() && (#[trigger] pairs[t]).0@ == k
}

/// What one capacity-eviction pass leaves behind: a sub-map of `pre` of size
/// `cap` (or all of `pre`, if it already fits), every evicted entry ranking
/// no higher than any retained one under the policy's statistic.
pub open spec fn evict_rel<KV, VV>(
    pre: Map<KV, ValueEx<VV>>,
    post: Map<KV, ValueEx<VV>>,
    cap: usize,
    by_count: bool,
) -> bool {
    &&& forall|k: KV| #[trigger] post.contains_key(k) ==> pre.contains_key(k) && post[k] == pre[k]
    &&& (pre.dom().len() <= cap ==> post == pre)
    &&& (pre.dom().len() > cap ==> post.dom().len() == cap)
    &&& forall|k1: KV, k2: KV|
        pre.contains_key(k1) && !(#[trigger] post.contains_key(k1)) && #[trigger] post.contains_key(
            k2,
        ) ==> stat_of(pre[k1], by_count) <= stat_of(pre[k2], by_count)
}

/// What a full maintenance tick (TTL sweep, then capacity eviction) does to
/// a store.
pub open spec fn tick_rel<KV, VV>(
    pre: Map<KV, ValueEx<VV>>,
    post: Map<KV, ValueEx<VV>>,
    policy: ExpirationPolicy,
    now: u64,
) -> bool {
    match policy {
        ExpirationPolicy::LFU(c) => evict_rel(spec_sweep(pre, now), post, c, true),
        ExpirationPolicy::LRU(c) => evict_rel(spec_sweep(pre, now), post, c, false),
        ExpirationPolicy::NoEviction => post == spec_sweep(pre, now),
    }
}

proof fn lemma_map_pointwise<K: CacheKey, V: CacheValue>(
    s1: Seq<(K, ValueEx<V>)>,
    s2: Seq<(K, ValueEx<V>)>,
)
    requires
        s1.len() == s2.len(),
        forall|i: int|
            0 <= i < s1.len() ==> (#[trigger] s1[i].0@) == s2[i].0@ && s1[i].1@ == s2[i].1@,
    ensures
        slots_map(s1) == slots_map(s2),
    decreases s1.len(),
{
    if s1.len() > 0 {
        assert forall|i: int| 0 <= i < s1.len() - 1 implies (#[trigger] s1.drop_last()[i].0@)
            == s2.drop_last()[i].0@ && s1.drop_last()[i].1@ == s2.drop_last()[i].1@ by {
            assert(s1.drop_last()[i] == s1[i]);
            assert(s2.drop_last()[i] == s2[i]);
        }
        lemma_map_pointwise(s1.drop_last(), s2.drop_last());
        assert(s1.last().0@ == s2.last().0@ && s1.last().1@ == s2.last().1@);
    }
}

impl<K: CacheKey, V: CacheValue> KeyedStore<K, V> {
    /// An exact copy of the store, for the replication pull.
    pub fn snapshot(&self) -> (r: Self)
        requires
            self.wf(),
        ensures
            r.wf(),
            r@ == self@,
    {
        let mut out: Vec<(K, ValueEx<V>)> = Vec::new();
        let mut i: usize = 0;
        while i < self.slots.len()
            invariant
                self.wf(),
                i <= self.slots@.len(),
                out@.len() == i,
                forall|j: int|
                    0 <= j < i ==> (#[trigger] out@[j].0@) == self.slots@[j].0@ && out@[j].1@
                        == self.slots@[j].1@,
            decreases self.slots@.len() - i,
        {
            let p = (self.slots[i].0.dup(), self.slots[i].1.dup());
            out.push(p);
            i = i + 1;
        }
        proof {
            lemma_map_pointwise(out@, self.slots@);
            assert forall|a: int, b: int| 0 <= a < b < out@.len() implies (#[trigger] out@[a].0@)
                != (#[trigger] out@[b].0@) by {
                assert(self.slots@[a].0@ != self.slots@[b].0@);
            }
        }
        KeyedStore { slots: out }
    }

    /// Every live key/payload pair, bumping each returned entry's access
    /// statistics.
    #[verifier::rlimit(50)]
    pub fn get_all(&mut self, now: u64) -> (r: Vec<(K, V)>)
        requires
            old(self).wf(),
        ensures
            final (self).wf(),
            final (self)@ == spec_touch_all(old(self)@, now),
            live_pairs_of(r@, old(self)@, now),
    {
        let ghost s0 = self.slots@;
        let mut out: Vec<(K, V)> = Vec::new();
        let ghost mut idxs: Seq<int> = Seq::empty();
        let ghost mut pos: Seq<int> = Seq::empty();
        let mut i: usize = 0;
        while i < self.slots.len()
            invariant
                keys_distinct(s0),
                self.slots@.len() == s0.len(),
                i <= s0.len(),
                forall|j: int| 0 <= j < s0.len() ==> (#[trigger] self.slots@[j].0@) == s0[j].0@,
                forall|j: int| i <= j < s0.len() ==> (#[trigger] self.slots@[j]) == s0[j],
                forall|j: int|
                    0 <= j < i ==> (#[trigger] self.slots@[j].1@) == if live_at(s0[j].1@, now) {
                        touched(s0[j].1@, now)
                    } else {
                        s0[j].1@
                    },
                idxs.len() == out@.len(),
                pos.len() == i,
                forall|t: int|
                    0 <= t < out@.len() ==> 0 <= (#[trigger] idxs[t]) < i && out@[t].0@
                        == s0[idxs[t]].0@ && out@[t].1@ == s0[idxs[t]].1@.val && live_at(
                        s0[idxs[t]].1@,
                        now,
                    ),
                forall|t1: int, t2: int|
                    0 <= t1 < t2 < idxs.len() ==> (#[trigger] idxs[t1]) < (#[trigger] idxs[t2]),
                forall|j: int|
                    0 <= j < i && live_at(#[trigger] s0[j].1@, now) ==> 0 <= pos[j] < out@.len()
                        && idxs[pos[j]] == j,
            decreases s0.len() - i,
        {
            if self.slots[i].1.is_live(now) {
                let pr = (self.slots[i].0.dup(), self.slots[i].1.val.dup());
                proof {
                    pos = pos.push(out@.len() as int);
                    idxs = idxs.push(i as int);
                }
                out.push(pr);
                let p = (self.slots[i].0.dup(), self.slots[i].1.touch(now));
                self.slots.set(i, p);
            } else {
                proof {
                    pos = pos.push(-1);
                }
            }
            i = i + 1;
        }
        proof {
            let cur = self.slots@;
            assert forall|a: int, b: int| 0 <= a < b < cur.len() implies (#[trigger] cur[a].0@)
                != (#[trigger] cur[b].0@) by {
                assert(s0[a].0@ != s0[b].0@);
            }
            assert(slots_map(cur) =~= spec_touch_all(slots_map(s0), now)) by {
                assert forall|k: K::V|
                    slots_map(cur).contains_key(k) == spec_touch_all(
                        slots_map(s0),
                        now,
                    ).contains_key(k) by {
                    lemma_map_contains(cur, k);
                    lemma_map_contains(s0, k);
                    if slots_map(cur).contains_key(k) {
                        let j = choose|j: int| 0 <= j < cur.len() && (#[trigger] cur[j].0@) == k;
                        assert(s0[j].0@ == k);
                    }
                    if slots_map(s0).contains_key(k) {
                        let j = choose|j: int| 0 <= j < s0.len() && (#[trigger] s0[j].0@) == k;
                        assert(cur[j].0@ == k);
                    }
                }
                assert forall|k: K::V| #[trigger]
                    slots_map(cur).contains_key(k) implies slots_map(cur)[k] == spec_touch_all(
                    slots_map(s0),
                    now,
                )[k] by {
                    lemma_map_contains(cur, k);
                    let j = choose|j: int| 0 <= j < cur.len() && (#[trigger] cur[j].0@) == k;
                    lemma_map_at_index(cur, j);
                    lemma_map_at_index(s0, j);
                }
            }
            assert forall|t1: int, t2: int| 0 <= t1 < t2 < out@.len() implies (
            #[trigger] out@[t1].0@) != (#[trigger] out@[t2].0@) by {
                assert(s0[idxs[t1]].0@ != s0[idxs[t2]].0@);
            }
            assert forall|t: int| 0 <= t < out@.len() implies slots_map(s0).contains_key(
                (#[trigger] out@[t].0@),
            ) && live_at(slots_map(s0)[out@[t].0@], now) && out@[t].1@ == slots_map(
                s0,
            )[out@[t].0@].val by {
                lemma_map_at_index(s0, idxs[t]);
            }
            assert forall|k: K::V| #[trigger]
                slots_map(s0).contains_key(k) && live_at(slots_map(s0)[k], now) implies exists|
                t: int,
            |
                0 <= t < out@.len() && (#[trigger] out@[t].0@) == k by {
                lemma_map_contains(s0, k);
                let j = choose|j: int| 0 <= j < s0.len() && (#[trigger] s0[j].0@) == k;
                lemma_map_at_index(s0, j);
                let t = pos[j];
                assert(0 <= t < out@.len() && out@[t].0@ == k);
            }
        }
        out
    }

    /// Removes every expired entry; live entries survive untouched.
    #[verifier::rlimit(50)]
    pub fn sweep(&mut self, now: u64)
        requires
            old(self).wf(),
        ensures
            final (self).wf(),
            final (self)@ == spec_sweep(old(self)@, now),
    {
        let ghost s0 = self.slots@;
        let mut kept: Vec<(K, ValueEx<V>)> = Vec::new();
        let ghost mut idxs: Seq<int> = Seq::empty();
        let ghost mut pos: Seq<int> = Seq::empty();
        let mut i: usize = 0;
        while i < self.slots.len()
            invariant
                self.slots@ == s0,
                keys_distinct(s0),
                i <= s0.len(),
                idxs.len() == kept@.len(),
                pos.len() == i,
                forall|t: int|
                    0 <= t < kept@.len() ==> 0 <= (#[trigger] idxs[t]) < i && kept@[t].0@
                        == s0[idxs[t]].0@ && kept@[t].1@ == s0[idxs[t]].1@ && live_at(
                        s0[idxs[t]].1@,
                        now,
                    ),
                forall|t1: int, t2: int|
                    0 <= t1 < t2 < idxs.len() ==> (#[trigger] idxs[t1]) < (#[trigger] idxs[t2]),
                forall|j: int|
                    0 <= j < i && live_at(#[trigger] s0[j].1@, now) ==> 0 <= pos[j] < kept@.len()
                        && idxs[pos[j]] == j,
            decreases s0.len() - i,
        {
            if self.slots[i].1.is_live(now) {
                let p = (self.slots[i].0.dup(), self.slots[i].1.dup());
                proof {
                    pos = pos.push(kept@.len() as int);
                    idxs = idxs.push(i as int);
                }
                kept.push(p);
            } else {
                proof {
                    pos = pos.push(-1);
                }
            }
            i = i + 1;
        }
        proof {
            assert forall|t1: int, t2: int| 0 <= t1 < t2 < kept@.len() implies (
            #[trigger] kept@[t1].0@) != (#[trigger] kept@[t2].0@) by {
                assert(s0[idxs[t1]].0@ != s0[idxs[t2]].0@);
            }
            assert(slots_map(kept@) =~= spec_sweep(slots_map(s0), now)) by {
                assert forall|k: K::V|
                    slots_map(kept@).contains_key(k) == spec_sweep(
                        slots_map(s0),
                        now,
                    ).contains_key(k) by {
                    lemma_map_contains(kept@, k);
                    lemma_map_contains(s0, k);
                    if slots_map(kept@).contains_key(k) {
                        let t = choose|t: int|
                            0 <= t < kept@.len() && (#[trigger] kept@[t].0@) == k;
                        lemma_map_at_index(s0, idxs[t]);
                    } else {
                        if slots_map(s0).contains_key(k) {
                            let j = choose|j: int| 0 <= j < s0.len() && (#[trigger] s0[j].0@) == k;
                            lemma_map_at_index(s0, j);
                            if live_at(s0[j].1@, now) {
                                assert(kept@[pos[j]].0@ == k);
                            }
                        }
                    }
                }
                assert forall|k: K::V| #[trigger]
                    slots_map(kept@).contains_key(k) implies slots_map(kept@)[k] == slots_map(
                    s0,
                )[k] by {
                    lemma_map_contains(kept@, k);
                    let t = choose|t: int| 0 <= t < kept@.len() && (#[trigger] kept@[t].0@) == k;
                    lemma_map_at_index(kept@, t);
                    lemma_map_at_index(s0, idxs[t]);
                }
            }
        }
        self.slots = kept;
    }
}

} // verus!

verus! {

impl<K: CacheKey, V: CacheValue> KeyedStore<K, V> {
    fn find_min_stat(slots: &Vec<(K, ValueEx<V>)>, by_count: bool) -> (r: usize)
        requires
            slots@.len() > 0,
        ensures
            0 <= r < slots@.len(),
            forall|j: int|
                0 <= j < slots@.len() ==> stat_of(slots@[r as int].1@, by_count) <= stat_of(
                    (#[trigger] slots@[j]).1@,
                    by_count,
                ),
    {
        let mut best: usize = 0;
        let mut j: usize = 1;
        while j < slots.len()
            invariant
                0 <= best < slots@.len(),
                1 <= j <= slots@.len(),
                forall|t: int|
                    0 <= t < j ==> stat_of(slots@[best as int].1@, by_count) <= stat_of(
                        (#[trigger] slots@[t]).1@,
                        by_count,
                    ),
            decreases slots@.len() - j,
        {
            let sb = if by_count {
                slots[best].1.call_cnt
            } else {
                slots[best].1.last_accessed
            };
            let sj = if by_count {
                slots[j].1.call_cnt
            } else {
                slots[j].1.last_accessed
            };
            if sj < sb {
                best = j;
            }
            j = j + 1;
        }
        best
    }

    /// Removes lowest-ranking entries (by access count under LFU, by
    /// last-access instant under LRU) until at most `cap` remain.
    #[verifier::rlimit(50)]
    pub fn evict(&mut self, cap: usize, by_count: bool)
        requires
            old(self).wf(),
        ensures
            final (self).wf(),
            evict_rel(old(self)@, final (self)@, cap, by_count),
    {
        let ghost m0 = slots_map(self.slots@);
        proof {
            lemma_map_len(self.slots@);
        }
        if self.slots.len() <= cap {
            return ;
        }
        while self.slots.len() > cap
            invariant
                keys_distinct(self.slots@),
                forall|k: K::V| #[trigger]
                    slots_map(self.slots@).contains_key(k) ==> m0.contains_key(k) && slots_map(
                        self.slots@,
                    )[k] == m0[k],
                forall|k1: K::V, k2: K::V|
                    (#[trigger] m0.contains_key(k1)) && !slots_map(self.slots@).contains_key(k1)
                        && (#[trigger] slots_map(self.slots@).contains_key(k2)) ==> stat_of(
                        m0[k1],
                        by_count,
                    ) <= stat_of(m0[k2], by_count),
                slots_map(self.slots@).dom().len() == self.slots@.len(),
                self.slots@.len() >= cap,
                m0.dom().len() > cap,
            decreases self.slots@.len(),
        {
            let i = Self::find_min_stat(&self.slots, by_count);
            let ghost cur = self.slots@;
            let ghost rk = cur[i as int].0@;
            proof {
                lemma_map_at_index(cur, i as int);
                lemma_map_remove_at(cur, i as int);
                lemma_map_len(cur.remove(i as int));
                assert forall|k2: K::V| #[trigger]
                    slots_map(cur).contains_key(k2) implies stat_of(m0[rk], by_count) <= stat_of(
                    m0[k2],
                    by_count,
                ) by {
                    lemma_map_contains(cur, k2);
                    let j = choose|j: int| 0 <= j < cur.len() && (#[trigger] cur[j].0@) == k2;
                    lemma_map_at_index(cur, j);
                }
            }
            self.slots.remove(i);
            proof {
                assert(slots_map(self.slots@) == slots_map(cur).remove(rk));
                assert forall|k1: K::V, k2: K::V|
                    (#[trigger] m0.contains_key(k1)) && !slots_map(self.slots@).contains_key(k1)
                        && (#[trigger] slots_map(self.slots@).contains_key(k2)) implies stat_of(
                    m0[k1],
                    by_count,
                ) <= stat_of(m0[k2], by_count) by {
                    if slots_map(cur).contains_key(k1) {
                        assert(k1 == rk);
                    }
                }
            }
        }
    }

    /// One full maintenance pass at instant `now`: the TTL sweep, then
    /// capacity eviction as the policy directs.
    pub fn tick(&mut self, policy: &ExpirationPolicy, now: u64)
        requires
            old(self).wf(),
        ensures
            final (self).wf(),
            tick_rel(old(self)@, final (self)@, *policy, now),
    {
        self.sweep(now);
        let p = *policy;
        match p {
            ExpirationPolicy::LFU(c) => self.evict(c, true),
            ExpirationPolicy::LRU(c) => self.evict(c, false),
            ExpirationPolicy::NoEviction => {},
        }
    }
}

} // verus!

verus! {

/// `ks` lists exactly the live keys of `m` at instant `now`, each once.
pub open spec fn live_keys_of<K: CacheKey, VV>(
    ks: Seq<K>,
    m: Map<K::V, ValueEx<VV>>,
    now: u64,
) -> bool {
    &&& forall|t: int|
        0 <= t < ks.len() ==> m.contains_key((#[trigger] ks[t])@) && live_at(m[ks[t]@], now)
    &&& forall|t1: int, t2: int|
        0 <= t1 < t2 < ks.len() ==> (#[trigger] ks[t1])@ != (#[trigger] ks[t2])@
    &&& forall|k: K::V|
        #[trigger] m.contains_key(k) && live_at(m[k], now) ==> exists|t: int|
            0 <= t < ks.len() && (#[trigger] ks[t])@ == k
}

} // verus!

verus! {

impl<K: CacheKey, V: CacheValue> KeyedStore<K, V> {
    /// A well-formed store's key set is finite.
    pub proof fn lemma_dom_finite(self)
        requires
            self.wf(),
        ensures
            self@.dom().finite(),
    {
        lemma_map_len(self.slots@);
    }
}

} // verus!
