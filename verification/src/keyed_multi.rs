//! Multi-key operations over the unique-key storage: each is the in-order
//! fold of its single-key counterpart, and its contract says so.
use vstd::prelude::*;

use crate::cache_key::{opt_view, views_of, CacheKey, CacheValue};
use crate::data_struct::{live_at, ValueEx};
use crate::keyed_store::{
    spec_insert, spec_read, spec_touch, spec_ttl, KeyedStore,
};

verus! {

/// The map after reads of `keys` in order at instant `now`.
pub open spec fn spec_mtouch<KV, VV>(m: Map<KV, ValueEx<VV>>, keys: Seq<KV>, now: u64) -> Map<
    KV,
    ValueEx<VV>,
>
    decreases keys.len(),
{
    if keys.len() == 0 {
        m
    } else {
        spec_touch(spec_mtouch(m, keys.drop_last(), now), keys.last(), now)
    }
}

/// The map after writes of `keys[i] := vals[i]` in index order at instant
/// `now`; meaningful when the four argument runs have equal length.
pub open spec fn spec_minsert<KV, VV>(
    m: Map<KV, ValueEx<VV>>,
    keys: Seq<KV>,
    vals: Seq<VV>,
    exs: Seq<Option<u64>>,
    nxs: Seq<bool>,
    now: u64,
) -> Map<KV, ValueEx<VV>>
    decreases keys.len(),
{
    if keys.len() == 0 {
        m
    } else {
        spec_insert(
            spec_minsert(m, keys.drop_last(), vals.drop_last(), exs.drop_last(), nxs.drop_last(), now),
            keys.last(),
            vals.last(),
            exs.last(),
            nxs.last(),
            now,
        )
    }
}

/// The map after removals of `keys` in order.
pub open spec fn spec_mremove<KV, VV>(m: Map<KV, ValueEx<VV>>, keys: Seq<KV>) -> Map<
    KV,
    ValueEx<VV>,
>
    decreases keys.len(),
{
    if keys.len() == 0 {
        m
    } else {
        spec_mremove(m, keys.drop_last()).remove(keys.last())
    }
}

/// What removals of `keys` in order return: each key's live payload at its
/// own removal instant, so a repeated key answers only once.
pub open spec fn spec_mremove_out<KV, VV>(m: Map<KV, ValueEx<VV>>, keys: Seq<KV>, now: u64) -> Seq<
    Option<VV>,
>
    decreases keys.len(),
{
    if keys.len() == 0 {
        Seq::empty()
    } else {
        spec_mremove_out(m, keys.drop_last(), now).push(
            spec_read(spec_mremove(m, keys.drop_last()), keys.last(), now),
        )
    }
}

/// The abstract values of a run of optional payloads.
pub open spec fn opt_views<V: View>(s: Seq<Option<V>>) -> Seq<Option<V::V>> {
    Seq::new(s.len(), |i: int| opt_view(s[i]))
}

proof fn lemma_read_after_touch<KV, VV>(m: Map<KV, ValueEx<VV>>, k2: KV, k: KV, now: u64)
    ensures
        spec_read(spec_touch(m, k2, now), k, now) == spec_read(m, k, now),
        spec_ttl(spec_touch(m, k2, now), k, now) == spec_ttl(m, k, now),
{
}

/// Reads only bump access statistics, so any run of reads leaves every
/// later read's answer unchanged.
pub proof fn lemma_read_after_mtouch<KV, VV>(m: Map<KV, ValueEx<VV>>, ks: Seq<KV>, k: KV, now: u64)
    ensures
        spec_read(spec_mtouch(m, ks, now), k, now) == spec_read(m, k, now),
        spec_ttl(spec_mtouch(m, ks, now), k, now) == spec_ttl(m, k, now),
    decreases ks.len(),
{
    if ks.len() > 0 {
        lemma_read_after_mtouch(m, ks.drop_last(), k, now);
        lemma_read_after_touch(spec_mtouch(m, ks.drop_last(), now), ks.last(), k, now);
    }
}

impl<K: CacheKey, V: CacheValue> KeyedStore<K, V> {
    /// Reads every key in order; each answer reflects the store as it stood
    /// before the whole call, since reads only bump access statistics.
    pub fn mget(&mut self, keys: &Vec<K>, now: u64) -> (r: Vec<Option<V>>)
        requires
            old(self).wf(),
        ensures
            final (self).wf(),
            final (self)@ == spec_mtouch(old(self)@, views_of(keys@), now),
            r@.len() == keys@.len(),
            forall|i: int|
                0 <= i < keys@.len() ==> opt_view(#[trigger] r@[i]) == spec_read(
                    old(self)@,
                    keys@[i]@,
                    now,
                ),
    {
        let ghost m0 = self@;
        let ghost kv = views_of(keys@);
        let mut out: Vec<Option<V>> = Vec::new();
        let mut i: usize = 0;
        while i < keys.len()
            invariant
                self.wf(),
                i <= keys@.len(),
                out@.len() == i,
                kv == views_of(keys@),
                self@ == spec_mtouch(m0, kv.take(i as int), now),
                forall|j: int|
                    0 <= j < i ==> opt_view(#[trigger] out@[j]) == spec_read(m0, kv[j], now),
            decreases keys@.len() - i,
        {
            let kd = keys[i].dup();
            proof {
                lemma_read_after_mtouch(m0, kv.take(i as int), kv[i as int], now);
                assert(kv.take(i + 1).drop_last() =~= kv.take(i as int));
                assert(kv.take(i + 1).last() == kv[i as int]);
            }
            let v = self.get(&kd, now);
            out.push(v);
            i = i + 1;
        }
        proof {
            assert(kv.take(kv.len() as int) =~= kv);
        }
        out
    }

    /// Per-key membership in order; hits bump access statistics.
    pub fn mcontains(&mut self, keys: &Vec<K>, now: u64) -> (r: Vec<bool>)
        requires
            old(self).wf(),
        ensures
            final (self).wf(),
            final (self)@ == spec_mtouch(old(self)@, views_of(keys@), now),
            r@.len() == keys@.len(),
            forall|i: int|
                0 <= i < keys@.len() ==> (#[trigger] r@[i]) == (old(self)@.contains_key(keys@[i]@)
                    && live_at(old(self)@[keys@[i]@], now)),
    {
        let ghost m0 = self@;
        let ghost kv = views_of(keys@);
        let mut out: Vec<bool> = Vec::new();
        let mut i: usize = 0;
        while i < keys.len()
            invariant
                self.wf(),
                i <= keys@.len(),
                out@.len() == i,
                kv == views_of(keys@),
                self@ == spec_mtouch(m0, kv.take(i as int), now),
                forall|j: int|
                    0 <= j < i ==> (#[trigger] out@[j]) == (m0.contains_key(kv[j]) && live_at(
                        m0[kv[j]],
                        now,
                    )),
            decreases keys@.len() - i,
        {
            let kd = keys[i].dup();
            proof {
                lemma_read_after_mtouch(m0, kv.take(i as int), kv[i as int], now);
                assert(kv.take(i + 1).drop_last() =~= kv.take(i as int));
                assert(kv.take(i + 1).last() == kv[i as int]);
            }
            let v = self.contains_key_one(&kd, now);
            out.push(v);
            i = i + 1;
        }
        proof {
            assert(kv.take(kv.len() as int) =~= kv);
        }
        out
    }

    /// Per-key remaining time-to-live in order; hits bump access statistics.
    pub fn mttl(&mut self, keys: &Vec<K>, now: u64) -> (r: Vec<Option<u64>>)
        requires
            old(self).wf(),
        ensures
            final (self).wf(),
            final (self)@ == spec_mtouch(old(self)@, views_of(keys@), now),
            r@.len() == keys@.len(),
            forall|i: int|
                0 <= i < keys@.len() ==> (#[trigger] r@[i]) == spec_ttl(
                    old(self)@,
                    keys@[i]@,
                    now,
                ),
    {
        let ghost m0 = self@;
        let ghost kv = views_of(keys@);
        let mut out: Vec<Option<u64>> = Vec::new();
        let mut i: usize = 0;
        while i < keys.len()
            invariant
                self.wf(),
                i <= keys@.len(),
                out@.len() == i,
                kv == views_of(keys@),
                self@ == spec_mtouch(m0, kv.take(i as int), now),
                forall|j: int| 0 <= j < i ==> (#[trigger] out@[j]) == spec_ttl(m0, kv[j], now),
            decreases keys@.len() - i,
        {
            let kd = keys[i].dup();
            proof {
                lemma_read_after_mtouch(m0, kv.take(i as int), kv[i as int], now);
                assert(kv.take(i + 1).drop_last() =~= kv.take(i as int));
                assert(kv.take(i + 1).last() == kv[i as int]);
            }
            let v = self.ttl_one(&kd, now);
            out.push(v);
            i = i + 1;
        }
        proof {
            assert(kv.take(kv.len() as int) =~= kv);
        }
        out
    }

    /// Removes every key in order, answering each key's live payload at its
    /// own removal instant.
    pub fn mremove(&mut self, keys: &Vec<K>, now: u64) -> (r: Vec<Option<V>>)
        requires
            old(self).wf(),
        ensures
            final (self).wf(),
            final (self)@ == spec_mremove(old(self)@, views_of(keys@)),
            opt_views(r@) == spec_mremove_out(old(self)@, views_of(keys@), now),
            r@.len() == keys@.len(),
    {
        let ghost m0 = self@;
        let ghost kv = views_of(keys@);
        let mut out: Vec<Option<V>> = Vec::new();
        let mut i: usize = 0;
        while i < keys.len()
            invariant
                self.wf(),
                i <= keys@.len(),
                out@.len() == i,
                kv == views_of(keys@),
                self@ == spec_mremove(m0, kv.take(i as int)),
                opt_views(out@) == spec_mremove_out(m0, kv.take(i as int), now),
            decreases keys@.len() - i,
        {
            let kd = keys[i].dup();
            proof {
                assert(kv.take(i + 1).drop_last() =~= kv.take(i as int));
                assert(kv.take(i + 1).last() == kv[i as int]);
            }
            let ghost out0 = out@;
            let v = self.remove_one(&kd, now);
            out.push(v);
            i = i + 1;
            proof {
                assert(opt_views(out@) =~= opt_views(out0).push(opt_view(out@.last())));
            }
        }
        proof {
            assert(kv.take(kv.len() as int) =~= kv);
        }
        out
    }

    /// Writes every key/payload pair in index order. The caller has already
    /// checked that the four runs have equal length.
    pub fn minsert_all(
        &mut self,
        keys: &Vec<K>,
        vals: &Vec<V>,
        exs: &Vec<Option<u64>>,
        nxs: &Vec<bool>,
        now: u64,
    )
        requires
            old(self).wf(),
            keys@.len() == vals@.len(),
            vals@.len() == exs@.len(),
            exs@.len() == nxs@.len(),
        ensures
            final (self).wf(),
            final (self)@ == spec_minsert(
                old(self)@,
                views_of(keys@),
                views_of(vals@),
                exs@,
                nxs@,
                now,
            ),
    {
        let ghost m0 = self@;
        let ghost kv = views_of(keys@);
        let ghost vv = views_of(vals@);
        let mut i: usize = 0;
        while i < keys.len()
            invariant
                self.wf(),
                i <= keys@.len(),
                kv == views_of(keys@),
                vv == views_of(vals@),
                keys@.len() == vals@.len(),
                vals@.len() == exs@.len(),
                exs@.len() == nxs@.len(),
                self@ == spec_minsert(m0, kv.take(i as int), vv.take(i as int), exs@.take(i as int), nxs@.take(i as int), now),
            decreases keys@.len() - i,
        {
            let kd = keys[i].dup();
            let vd = vals[i].dup();
            let ex = exs[i];
            let nx = nxs[i];
            proof {
                assert(kv.take(i + 1).drop_last() =~= kv.take(i as int));
                assert(vv.take(i + 1).drop_last() =~= vv.take(i as int));
                assert(exs@.take(i + 1).drop_last() =~= exs@.take(i as int));
                assert(nxs@.take(i + 1).drop_last() =~= nxs@.take(i as int));
                assert(kv.take(i + 1).last() == kv[i as int]);
                assert(vv.take(i + 1).last() == vv[i as int]);
                assert(exs@.take(i + 1).last() == exs@[i as int]);
                assert(nxs@.take(i + 1).last() == nxs@[i as int]);
            }
            self.insert(kd, vd, ex, nx, now);
            i = i + 1;
        }
        proof {
            assert(kv.take(kv.len() as int) =~= kv);
            assert(vv.take(vv.len() as int) =~= vv);
            assert(exs@.take(exs@.len() as int) =~= exs@);
            assert(nxs@.take(nxs@.len() as int) =~= nxs@);
        }
    }
}

} // verus!
