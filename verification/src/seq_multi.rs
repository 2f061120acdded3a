//! Multi-value operations over the insertion-ordered storage: each is the
//! in-order fold of its single-value counterpart, and its contract says so.
use vstd::prelude::*;

use crate::cache_key::{views_of, CacheKey};
use crate::data_struct::{live_at, ValueEx};
use crate::seq_store::{
    seq_has_live, spec_mremove_vals, spec_mremove_vals_out, spec_mtouch_vals, spec_mttl_out,
    spec_mttl_state, spec_push, spec_touch_matching, SeqStore,
};

verus! {

/// The sequence after pushes of `vals[i]` in index order at instant `now`;
/// meaningful when the three argument runs have equal length.
pub open spec fn spec_mpush<VV>(
    s: Seq<ValueEx<VV>>,
    vals: Seq<VV>,
    exs: Seq<Option<u64>>,
    nxs: Seq<bool>,
    now: u64,
) -> Seq<ValueEx<VV>>
    decreases vals.len(),
{
    if vals.len() == 0 {
        s
    } else {
        spec_push(
            spec_mpush(s, vals.drop_last(), exs.drop_last(), nxs.drop_last(), now),
            vals.last(),
            exs.last(),
            nxs.last(),
            now,
        )
    }
}

proof fn lemma_has_live_after_touch<VV>(s: Seq<ValueEx<VV>>, v2: VV, v: VV, now: u64)
    ensures
        seq_has_live(spec_touch_matching(s, v2, now), v, now) == seq_has_live(s, v, now),
{
    let t = spec_touch_matching(s, v2, now);
    if seq_has_live(s, v, now) {
        let i = choose|i: int| 0 <= i < s.len() && (#[trigger] s[i]).val == v && live_at(s[i], now);
        assert(t[i].val == v && live_at(t[i], now));
    }
    if seq_has_live(t, v, now) {
        let i = choose|i: int| 0 <= i < t.len() && (#[trigger] t[i]).val == v && live_at(t[i], now);
        assert(s[i].val == v && live_at(s[i], now));
    }
}

proof fn lemma_has_live_after_mtouch<VV>(s: Seq<ValueEx<VV>>, vs: Seq<VV>, v: VV, now: u64)
    ensures
        seq_has_live(spec_mtouch_vals(s, vs, now), v, now) == seq_has_live(s, v, now),
    decreases vs.len(),
{
    if vs.len() > 0 {
        lemma_has_live_after_mtouch(s, vs.drop_last(), v, now);
        lemma_has_live_after_touch(spec_mtouch_vals(s, vs.drop_last(), now), vs.last(), v, now);
    }
}

impl<V: CacheKey> SeqStore<V> {
    /// Pushes every payload in index order. The caller has already checked
    /// that the three runs have equal length.
    pub fn mpush_all(
        &mut self,
        vals: &Vec<V>,
        exs: &Vec<Option<u64>>,
        nxs: &Vec<bool>,
        now: u64,
    )
        requires
            vals@.len() == exs@.len(),
            exs@.len() == nxs@.len(),
        ensures
            final (self)@ == spec_mpush(old(self)@, views_of(vals@), exs@, nxs@, now),
    {
        let ghost s0 = self@;
        let ghost vv = views_of(vals@);
        let mut i: usize = 0;
        while i < vals.len()
            invariant
                i <= vals@.len(),
                vv == views_of(vals@),
                vals@.len() == exs@.len(),
                exs@.len() == nxs@.len(),
                self@ == spec_mpush(s0, vv.take(i as int), exs@.take(i as int), nxs@.take(i as int), now),
            decreases vals@.len() - i,
        {
            let vd = vals[i].dup();
            let ex = exs[i];
            let nx = nxs[i];
            proof {
                assert(vv.take(i + 1).drop_last() =~= vv.take(i as int));
                assert(exs@.take(i + 1).drop_last() =~= exs@.take(i as int));
                assert(nxs@.take(i + 1).drop_last() =~= nxs@.take(i as int));
                assert(vv.take(i + 1).last() == vv[i as int]);
                assert(exs@.take(i + 1).last() == exs@[i as int]);
                assert(nxs@.take(i + 1).last() == nxs@[i as int]);
            }
            self.push(vd, ex, nx, now);
            i = i + 1;
        }
        proof {
            assert(vv.take(vv.len() as int) =~= vv);
            assert(exs@.take(exs@.len() as int) =~= exs@);
            assert(nxs@.take(nxs@.len() as int) =~= nxs@);
        }
    }

    /// Per-payload membership in order; each answer reflects the store as it
    /// stood before the whole call, since membership queries only bump
    /// access statistics.
    pub fn mcontains_vals(&mut self, vals: &Vec<V>, now: u64) -> (r: Vec<bool>)
        ensures
            final (self)@ == spec_mtouch_vals(old(self)@, views_of(vals@), now),
            r@.len() == vals@.len(),
            forall|i: int|
                0 <= i < vals@.len() ==> (#[trigger] r@[i]) == seq_has_live(
                    old(self)@,
                    vals@[i]@,
                    now,
                ),
    {
        let ghost s0 = self@;
        let ghost vv = views_of(vals@);
        let mut out: Vec<bool> = Vec::new();
        let mut i: usize = 0;
        while i < vals.len()
            invariant
                i <= vals@.len(),
                out@.len() == i,
                vv == views_of(vals@),
                self@ == spec_mtouch_vals(s0, vv.take(i as int), now),
                forall|j: int| 0 <= j < i ==> (#[trigger] out@[j]) == seq_has_live(s0, vv[j], now),
            decreases vals@.len() - i,
        {
            let vd = vals[i].dup();
            proof {
                lemma_has_live_after_mtouch(s0, vv.take(i as int), vv[i as int], now);
                assert(vv.take(i + 1).drop_last() =~= vv.take(i as int));
                assert(vv.take(i + 1).last() == vv[i as int]);
            }
            let b = self.contains_val(&vd, now);
            out.push(b);
            i = i + 1;
        }
        proof {
            assert(vv.take(vv.len() as int) =~= vv);
        }
        out
    }

    /// Removes every payload in order, answering per payload whether a live
    /// entry holding it existed at its own removal instant.
    pub fn mremove_vals(&mut self, vals: &Vec<V>, now: u64) -> (r: Vec<bool>)
        ensures
            final (self)@ == spec_mremove_vals(old(self)@, views_of(vals@)),
            r@ == spec_mremove_vals_out(old(self)@, views_of(vals@), now),
    {
        let ghost s0 = self@;
        let ghost vv = views_of(vals@);
        let mut out: Vec<bool> = Vec::new();
        let mut i: usize = 0;
        while i < vals.len()
            invariant
                i <= vals@.len(),
                vv == views_of(vals@),
                self@ == spec_mremove_vals(s0, vv.take(i as int)),
                out@ == spec_mremove_vals_out(s0, vv.take(i as int), now),
            decreases vals@.len() - i,
        {
            let vd = vals[i].dup();
            proof {
                assert(vv.take(i + 1).drop_last() =~= vv.take(i as int));
                assert(vv.take(i + 1).last() == vv[i as int]);
            }
            let b = self.remove_val(&vd, now);
            out.push(b);
            i = i + 1;
        }
        proof {
            assert(vv.take(vv.len() as int) =~= vv);
        }
        out
    }

    /// Per-payload remaining time-to-live in order, each against the store
    /// as the preceding queries left it.
    pub fn mttl_vals(&mut self, vals: &Vec<V>, now: u64) -> (r: Vec<Option<u64>>)
        ensures
            final (self)@ == spec_mttl_state(old(self)@, views_of(vals@), now),
            r@ == spec_mttl_out(old(self)@, views_of(vals@), now),
    {
        let ghost s0 = self@;
        let ghost vv = views_of(vals@);
        let mut out: Vec<Option<u64>> = Vec::new();
        let mut i: usize = 0;
        while i < vals.len()
            invariant
                i <= vals@.len(),
                vv == views_of(vals@),
                self@ == spec_mttl_state(s0, vv.take(i as int), now),
                out@ == spec_mttl_out(s0, vv.take(i as int), now),
            decreases vals@.len() - i,
        {
            let vd = vals[i].dup();
            proof {
                assert(vv.take(i + 1).drop_last() =~= vv.take(i as int));
                assert(vv.take(i + 1).last() == vv[i as int]);
            }
            let t = self.ttl_val(&vd, now);
            out.push(t);
            i = i + 1;
        }
        proof {
            assert(vv.take(vv.len() as int) =~= vv);
        }
        out
    }
}

} // verus!
