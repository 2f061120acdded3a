//! The insertion-ordered storage behind the sequence-shaped container.
//!
//! Entries keep the order of their pushes; duplicates are allowed. Removal,
//! expiration and eviction preserve the relative order of the survivors. The
//! abstract value is the sequence of stored records, and every operation's
//! contract is stated against the spec transition functions below.
use vstd::prelude::*;

use crate::cache_key::{views_of, CacheKey, CacheValue};
use crate::data_struct::{fresh_entry, live_at, overwrite_entry, stat_of, touched, ValueEx};
use crate::expiration_policy::ExpirationPolicy;

verus! {

/// Insertion-ordered storage; duplicates allowed.
pub struct SeqStore<V: CacheKey> {
    slots: Vec<ValueEx<V>>,
}

impl<V: CacheKey> View for SeqStore<V> {
    type V = Seq<ValueEx<V::V>>;

    closed spec fn view(&self) -> Seq<ValueEx<V::V>> {
        views_of(self.slots@)
    }
}

/// The position of the first live entry holding `v`, or -1 when none does.
pub open spec fn seq_live_index<VV>(s: Seq<ValueEx<VV>>, v: VV, now: u64) -> int
    decreases s.len(),
{
    if s.len() == 0 {
        -1
    } else if s[0].val == v && live_at(s[0], now) {
        0
    } else {
        let r = seq_live_index(s.skip(1), v, now);
        if r >= 0 {
            r + 1
        } else {
            -1
        }
    }
}

/// Whether some live entry holds `v` at instant `now`.
pub open spec fn seq_has_live<VV>(s: Seq<ValueEx<VV>>, v: VV, now: u64) -> bool {
    exists|i: int| 0 <= i < s.len() && (#[trigger] s[i]).val == v && live_at(s[i], now)
}

proof fn lemma_live_index<VV>(s: Seq<ValueEx<VV>>, v: VV, now: u64)
    ensures
        seq_has_live(s, v, now) <==> seq_live_index(s, v, now) >= 0,
        seq_live_index(s, v, now) >= 0 ==> {
            let idx = seq_live_index(s, v, now);
            &&& 0 <= idx < s.len()
            &&& s[idx].val == v && live_at(s[idx], now)
            &&& forall|j: int| 0 <= j < idx ==> !((#[trigger] s[j]).val == v && live_at(s[j], now))
        },
    decreases s.len(),
{
    if s.len() > 0 {
        if s[0].val == v && live_at(s[0], now) {
        } else {
            lemma_live_index(s.skip(1), v, now);
            let r = seq_live_index(s.skip(1), v, now);
            assert forall|i: int|
                0 <= i < s.len() && (#[trigger] s[i]).val == v && live_at(s[i], now) implies i
                >= 1 by {}
            if seq_has_live(s, v, now) {
                let i = choose|i: int|
                    0 <= i < s.len() && (#[trigger] s[i]).val == v && live_at(s[i], now);
                assert(s.skip(1)[i - 1] == s[i]);
                assert(seq_has_live(s.skip(1), v, now));
            }
            if r >= 0 {
                assert(s[r + 1] == s.skip(1)[r]);
                assert(seq_has_live(s, v, now));
                assert forall|j: int|
                    0 <= j < r + 1 implies !((#[trigger] s[j]).val == v && live_at(s[j], now)) by {
                    if j >= 1 {
                        assert(s.skip(1)[j - 1] == s[j]);
                    }
                }
            }
        }
    }
}

/// The sequence after a push of `v` with time-to-live `ex` at instant `now`.
/// Under `nx` a live duplicate suppresses the push; otherwise the new record
/// is appended, carrying on the access counter of the first live duplicate if
/// one exists.
pub open spec fn spec_push<VV>(
    s: Seq<ValueEx<VV>>,
    v: VV,
    ex: Option<u64>,
    nx: bool,
    now: u64,
) -> Seq<ValueEx<VV>> {
    let idx = seq_live_index(s, v, now);
    if nx {
        if idx >= 0 {
            s
        } else {
            s.push(fresh_entry(v, ex, now))
        }
    } else {
        if idx >= 0 {
            s.push(overwrite_entry(v, ex, s[idx].call_cnt, now))
        } else {
            s.push(fresh_entry(v, ex, now))
        }
    }
}

/// The sequence after a membership query for `v`: every live entry holding
/// `v` has its access statistics bumped.
pub open spec fn spec_touch_matching<VV>(s: Seq<ValueEx<VV>>, v: VV, now: u64) -> Seq<
    ValueEx<VV>,
> {
    Seq::new(
        s.len(),
        |i: int|
            if s[i].val == v && live_at(s[i], now) {
                touched(s[i], now)
            } else {
                s[i]
            },
    )
}

/// The sequence after all entries holding `v` are removed, live or not;
/// survivors keep their order.
pub open spec fn spec_remove_val<VV>(s: Seq<ValueEx<VV>>, v: VV) -> Seq<ValueEx<VV>>
    decreases s.len(),
{
    if s.len() == 0 {
        Seq::empty()
    } else {
        let rest = spec_remove_val(s.drop_last(), v);
        if s.last().val == v {
            rest
        } else {
            rest.push(s.last())
        }
    }
}

/// The live payloads in storage order.
pub open spec fn spec_live_vals<VV>(s: Seq<ValueEx<VV>>, now: u64) -> Seq<VV>
    decreases s.len(),
{
    if s.len() == 0 {
        Seq::empty()
    } else {
        let rest = spec_live_vals(s.drop_last(), now);
        if live_at(s.last(), now) {
            rest.push(s.last().val)
        } else {
            rest
        }
    }
}

/// The sequence after a full read at instant `now`: every live entry's
/// access statistics are bumped.
pub open spec fn spec_touch_all_seq<VV>(s: Seq<ValueEx<VV>>, now: u64) -> Seq<ValueEx<VV>> {
    Seq::new(
        s.len(),
        |i: int|
            if live_at(s[i], now) {
                touched(s[i], now)
            } else {
                s[i]
            },
    )
}

/// The sequence after a TTL sweep: exactly the live entries survive, in
/// order and unchanged.
pub open spec fn spec_sweep_seq<VV>(s: Seq<ValueEx<VV>>, now: u64) -> Seq<ValueEx<VV>>
    decreases s.len(),
{
    if s.len() == 0 {
        Seq::empty()
    } else {
        let rest = spec_sweep_seq(s.drop_last(), now);
        if live_at(s.last(), now) {
            rest.push(s.last())
        } else {
            rest
        }
    }
}

/// `sel` lists, in increasing order, the positions of `pre` that `post`
/// retains.
pub open spec fn selection_of<VV>(
    pre: Seq<ValueEx<VV>>,
    post: Seq<ValueEx<VV>>,
    sel: Seq<int>,
) -> bool {
    &&& sel.len() == post.len()
    &&& forall|t: int| 0 <= t < sel.len() ==> 0 <= (#[trigger] sel[t]) < pre.len() && post[t] == pre[sel[t]]
    &&& forall|t1: int, t2: int| 0 <= t1 < t2 < sel.len() ==> (#[trigger] sel[t1]) < (#[trigger] sel[t2])
}

/// What one capacity-eviction pass leaves of a sequence: an order-preserving
/// selection of size `cap` (or everything, if it already fits), every dropped
/// entry ranking no higher than any retained one under the policy's
/// statistic.
pub open spec fn evict_seq_rel<VV>(
    pre: Seq<ValueEx<VV>>,
    post: Seq<ValueEx<VV>>,
    cap: usize,
    by_count: bool,
) -> bool {
    &&& (pre.len() <= cap ==> post == pre)
    &&& (pre.len() > cap ==> post.len() == cap)
    &&& exists|sel: Seq<int>|
        #[trigger] selection_of(pre, post, sel) && forall|j: int, t: int|
            0 <= j < pre.len() && !(#[trigger] sel.contains(j)) && 0 <= t < sel.len() ==> stat_of(
                pre[j],
                by_count,
            ) <= stat_of(pre[#[trigger] sel[t]], by_count)
}

/// What a full maintenance tick (TTL sweep, then capacity eviction) does to
/// a sequence store.
pub open spec fn seq_tick_rel<VV>(
    pre: Seq<ValueEx<VV>>,
    post: Seq<ValueEx<VV>>,
    policy: ExpirationPolicy,
    now: u64,
) -> bool {
    match policy {
        ExpirationPolicy::LFU(c) => evict_seq_rel(spec_sweep_seq(pre, now), post, c, true),
        ExpirationPolicy::LRU(c) => evict_seq_rel(spec_sweep_seq(pre, now), post, c, false),
        ExpirationPolicy::NoEviction => post == spec_sweep_seq(pre, now),
    }
}

} // verus!

verus! {

/// The remaining time-to-live of the first live entry holding `v`.
pub open spec fn spec_seq_ttl<VV>(s: Seq<ValueEx<VV>>, v: VV, now: u64) -> Option<u64> {
    let idx = seq_live_index(s, v, now);
    if idx >= 0 {
        match s[idx].expiration {
            Option::Some(t) => Option::Some((t - now) as u64),
            Option::None => Option::None,
        }
    } else {
        Option::None
    }
}

/// The sequence after a TTL query for `v`: the first live entry holding `v`,
/// if any, has its access statistics bumped.
pub open spec fn spec_ttl_touch<VV>(s: Seq<ValueEx<VV>>, v: VV, now: u64) -> Seq<ValueEx<VV>> {
    let idx = seq_live_index(s, v, now);
    if idx >= 0 {
        s.update(idx, touched(s[idx], now))
    } else {
        s
    }
}

impl<V: CacheKey> SeqStore<V> {
    /// An empty store.
    pub fn new() -> (r: Self)
        ensures
            r@ == Seq::<ValueEx<V::V>>::empty(),
    {
        let r = SeqStore { slots: Vec::new() };
        proof {
            assert(r@ =~= Seq::<ValueEx<V::V>>::empty());
        }
        r
    }

    /// How many entries the store holds, live or not.
    pub fn len(&self) -> (n: usize)
        ensures
            n == self@.len(),
    {
        self.slots.len()
    }

    /// Empties the store.
    pub fn clear(&mut self)
        ensures
            final (self)@ == Seq::<ValueEx<V::V>>::empty(),
    {
        self.slots.clear();
        proof {
            assert(self@ =~= Seq::<ValueEx<V::V>>::empty());
        }
    }

    /// An exact copy of the store, for the replication pull.
    pub fn snapshot(&self) -> (r: Self)
        ensures
            r@ == self@,
    {
        let mut out: Vec<ValueEx<V>> = Vec::new();
        let mut i: usize = 0;
        while i < self.slots.len()
            invariant
                i <= self.slots@.len(),
                out@.len() == i,
                forall|j: int| 0 <= j < i ==> (#[trigger] out@[j])@ == self.slots@[j]@,
            decreases self.slots@.len() - i,
        {
            let e = self.slots[i].dup();
            out.push(e);
            i = i + 1;
        }
        let r = SeqStore { slots: out };
        proof {
            assert(r@ =~= self@);
        }
        r
    }

    fn find_live(slots: &Vec<ValueEx<V>>, val: &V, now: u64) -> (r: Option<usize>)
        ensures
            match r {
                Option::Some(i) => 0 <= i < slots@.len() && slots@[i as int]@.val == val@ && live_at(
                    slots@[i as int]@,
                    now,
                ) && forall|j: int|
                    0 <= j < i ==> !((#[trigger] slots@[j])@.val == val@ && live_at(
                        slots@[j]@,
                        now,
                    )),
                Option::None => forall|j: int|
                    0 <= j < slots@.len() ==> !((#[trigger] slots@[j])@.val == val@ && live_at(
                        slots@[j]@,
                        now,
                    )),
            },
    {
        let mut i: usize = 0;
        while i < slots.len()
            invariant
                i <= slots@.len(),
                forall|j: int|
                    0 <= j < i ==> !((#[trigger] slots@[j])@.val == val@ && live_at(
                        slots@[j]@,
                        now,
                    )),
            decreases slots@.len() - i,
        {
            if slots[i].val.key_eq(val) && slots[i].is_live(now) {
                return Option::Some(i);
            }
            i = i + 1;
        }
        Option::None
    }

    proof fn lemma_find_matches_spec(s: Seq<ValueEx<V::V>>, v: V::V, now: u64, i: int)
        requires
            0 <= i < s.len(),
            s[i].val == v && live_at(s[i], now),
            forall|j: int| 0 <= j < i ==> !((#[trigger] s[j]).val == v && live_at(s[j], now)),
        ensures
            seq_live_index(s, v, now) == i,
    {
        lemma_live_index(s, v, now);
        assert(seq_has_live(s, v, now));
        let idx = seq_live_index(s, v, now);
        if idx < i {
            assert(s[idx].val == v && live_at(s[idx], now));
            assert(false);
        }
        if idx > i {
            assert(!(s[i].val == v && live_at(s[i], now)));
            assert(false);
        }
    }

    /// Appends a record holding `val`. Under `nx` a live duplicate suppresses
    /// the push; otherwise the new record carries on the access counter of
    /// the first live duplicate, if one exists.
    pub fn push(&mut self, val: V, ex: Option<u64>, nx: bool, now: u64)
        ensures
            final (self)@ == spec_push(old(self)@, val@, ex, nx, now),
    {
        let ghost s0 = self@;
        let found = Self::find_live(&self.slots, &val, now);
        proof {
            match found {
                Option::Some(i) => {
                    Self::lemma_find_matches_spec(s0, val@, now, i as int);
                },
                Option::None => {
                    lemma_live_index(s0, val@, now);
                    if seq_has_live(s0, val@, now) {
                        let i = choose|i: int|
                            0 <= i < s0.len() && (#[trigger] s0[i]).val == val@ && live_at(
                                s0[i],
                                now,
                            );
                        assert(false);
                    }
                },
            }
        }
        match found {
            Option::Some(i) => {
                if !nx {
                    let prior = self.slots[i].call_cnt;
                    let cnt: u64 = if prior == u64::MAX {
                        prior
                    } else {
                        prior + 1
                    };
                    let e = ValueEx {
                        val,
                        expiration: crate::data_struct::make_deadline(ex, now),
                        call_cnt: cnt,
                        last_accessed: now,
                    };
                    self.slots.push(e);
                    proof {
                        assert(self@ =~= spec_push(s0, old(self).slots@[i as int].val@, ex, nx, now));
                    }
                }
            },
            Option::None => {
                let e = ValueEx {
                    val,
                    expiration: crate::data_struct::make_deadline(ex, now),
                    call_cnt: 0,
                    last_accessed: now,
                };
                self.slots.push(e);
                proof {
                    assert(self@ =~= spec_push(s0, self.slots@.last()@.val, ex, nx, now));
                }
            },
        }
    }

    /// Whether some live entry holds `val`; every live match has its access
    /// statistics bumped.
    pub fn contains_val(&mut self, val: &V, now: u64) -> (r: bool)
        ensures
            final (self)@ == spec_touch_matching(old(self)@, val@, now),
            r == seq_has_live(old(self)@, val@, now),
    {
        let ghost s0 = self@;
        let mut found = false;
        let ghost mut wit: int = 0;
        let mut i: usize = 0;
        while i < self.slots.len()
            invariant
                self.slots@.len() == s0.len(),
                i <= s0.len(),
                forall|j: int| i <= j < s0.len() ==> (#[trigger] self.slots@[j])@ == s0[j],
                forall|j: int|
                    0 <= j < i ==> (#[trigger] self.slots@[j])@ == if s0[j].val == val@ && live_at(
                        s0[j],
                        now,
                    ) {
                        touched(s0[j], now)
                    } else {
                        s0[j]
                    },
                found ==> 0 <= wit < i && s0[wit].val == val@ && live_at(s0[wit], now),
                !found ==> forall|j: int|
                    0 <= j < i ==> !((#[trigger] s0[j]).val == val@ && live_at(s0[j], now)),
            decreases s0.len() - i,
        {
            if self.slots[i].val.key_eq(val) && self.slots[i].is_live(now) {
                let e = self.slots[i].touch(now);
                self.slots.set(i, e);
                found = true;
                proof {
                    wit = i as int;
                }
            }
            i = i + 1;
        }
        proof {
            assert(self@ =~= spec_touch_matching(s0, val@, now));
            if found {
                assert(seq_has_live(s0, val@, now));
            } else {
                if seq_has_live(s0, val@, now) {
                    let j = choose|j: int|
                        0 <= j < s0.len() && (#[trigger] s0[j]).val == val@ && live_at(s0[j], now);
                    assert(false);
                }
            }
        }
        found
    }

    /// Removes every entry holding `val`, live or not, preserving the order
    /// of the survivors; answers whether a live entry holding `val` existed.
    pub fn remove_val(&mut self, val: &V, now: u64) -> (r: bool)
        ensures
            final (self)@ == spec_remove_val(old(self)@, val@),
            r == seq_has_live(old(self)@, val@, now),
    {
        let ghost s0 = self@;
        let mut kept: Vec<ValueEx<V>> = Vec::new();
        let mut found = false;
        let ghost mut wit: int = 0;
        let mut i: usize = 0;
        while i < self.slots.len()
            invariant
                self@ == s0,
                i <= s0.len(),
                views_of(kept@) == spec_remove_val(s0.take(i as int), val@),
                found ==> 0 <= wit < i && s0[wit].val == val@ && live_at(s0[wit], now),
                !found ==> forall|j: int|
                    0 <= j < i ==> !((#[trigger] s0[j]).val == val@ && live_at(s0[j], now)),
            decreases s0.len() - i,
        {
            proof {
                assert(s0.take(i + 1).drop_last() =~= s0.take(i as int));
                assert(s0.take(i + 1).last() == s0[i as int]);
            }
            let ghost kept0 = kept@;
            if self.slots[i].val.key_eq(val) {
                if self.slots[i].is_live(now) {
                    found = true;
                    proof {
                        wit = i as int;
                    }
                }
            } else {
                let e = self.slots[i].dup();
                kept.push(e);
                proof {
                    assert(views_of(kept@) =~= views_of(kept0).push(kept@.last()@));
                }
            }
            i = i + 1;
        }
        proof {
            assert(s0.take(s0.len() as int) =~= s0);
            if !found && seq_has_live(s0, val@, now) {
                let j = choose|j: int|
                    0 <= j < s0.len() && (#[trigger] s0[j]).val == val@ && live_at(s0[j], now);
                assert(false);
            }
        }
        self.slots = kept;
        found
    }

    /// The remaining time-to-live of the first live entry holding `val`; a
    /// hit bumps that entry's access statistics.
    pub fn ttl_val(&mut self, val: &V, now: u64) -> (r: Option<u64>)
        ensures
            final (self)@ == spec_ttl_touch(old(self)@, val@, now),
            r == spec_seq_ttl(old(self)@, val@, now),
    {
        let ghost s0 = self@;
        let found = Self::find_live(&self.slots, val, now);
        match found {
            Option::Some(i) => {
                proof {
                    Self::lemma_find_matches_spec(s0, val@, now, i as int);
                }
                let exp = self.slots[i].expiration;
                let e = self.slots[i].touch(now);
                self.slots.set(i, e);
                proof {
                    assert(self@ =~= s0.update(i as int, touched(s0[i as int], now)));
                }
                match exp {
                    Option::Some(t) => Option::Some(t - now),
                    Option::None => Option::None,
                }
            },
            Option::None => {
                proof {
                    lemma_live_index(s0, val@, now);
                    if seq_has_live(s0, val@, now) {
                        let j = choose|j: int|
                            0 <= j < s0.len() && (#[trigger] s0[j]).val == val@ && live_at(
                                s0[j],
                                now,
                            );
                        assert(false);
                    }
                }
                Option::None
            },
        }
    }

    /// Every live payload in storage order, bumping each returned entry's
    /// access statistics.
    pub fn get_all(&mut self, now: u64) -> (r: Vec<V>)
        ensures
            final (self)@ == spec_touch_all_seq(old(self)@, now),
            views_of(r@) == spec_live_vals(old(self)@, now),
    {
        let ghost s0 = self@;
        let mut out: Vec<V> = Vec::new();
        let mut i: usize = 0;
        while i < self.slots.len()
            invariant
                self.slots@.len() == s0.len(),
                i <= s0.len(),
                forall|j: int| i <= j < s0.len() ==> (#[trigger] self.slots@[j])@ == s0[j],
                forall|j: int|
                    0 <= j < i ==> (#[trigger] self.slots@[j])@ == if live_at(s0[j], now) {
                        touched(s0[j], now)
                    } else {
                        s0[j]
                    },
                views_of(out@) == spec_live_vals(s0.take(i as int), now),
            decreases s0.len() - i,
        {
            proof {
                assert(s0.take(i + 1).drop_last() =~= s0.take(i as int));
                assert(s0.take(i + 1).last() == s0[i as int]);
            }
            let ghost out0 = out@;
            if self.slots[i].is_live(now) {
                let v = self.slots[i].val.dup();
                out.push(v);
                let e = self.slots[i].touch(now);
                self.slots.set(i, e);
                proof {
                    assert(views_of(out@) =~= views_of(out0).push(out@.last()@));
                }
            }
            i = i + 1;
        }
        proof {
            assert(s0.take(s0.len() as int) =~= s0);
            assert(self@ =~= spec_touch_all_seq(s0, now));
        }
        out
    }

    /// Removes every expired entry; live entries survive in order.
    pub fn sweep(&mut self, now: u64)
        ensures
            final (self)@ == spec_sweep_seq(old(self)@, now),
    {
        let ghost s0 = self@;
        let mut kept: Vec<ValueEx<V>> = Vec::new();
        let mut i: usize = 0;
        while i < self.slots.len()
            invariant
                self@ == s0,
                i <= s0.len(),
                views_of(kept@) == spec_sweep_seq(s0.take(i as int), now),
            decreases s0.len() - i,
        {
            proof {
                assert(s0.take(i + 1).drop_last() =~= s0.take(i as int));
                assert(s0.take(i + 1).last() == s0[i as int]);
            }
            let ghost kept0 = kept@;
            if self.slots[i].is_live(now) {
                let e = self.slots[i].dup();
                kept.push(e);
                proof {
                    assert(views_of(kept@) =~= views_of(kept0).push(kept@.last()@));
                }
            }
            i = i + 1;
        }
        proof {
            assert(s0.take(s0.len() as int) =~= s0);
        }
        self.slots = kept;
    }
}

} // verus!

verus! {

impl<V: CacheKey> SeqStore<V> {
    fn find_min(slots: &Vec<ValueEx<V>>, by_count: bool) -> (r: usize)
        requires
            slots@.len() > 0,
        ensures
            0 <= r < slots@.len(),
            forall|j: int|
                0 <= j < slots@.len() ==> stat_of(slots@[r as int]@, by_count) <= stat_of(
                    (#[trigger] slots@[j])@,
                    by_count,
                ),
    {
        let mut best: usize = 0;
        let mut j: usize = 1;
        while j < slots.len()
            invariant
                0 <= best < slots@.len(),
                1 <= j <= slots@.len(),
                forall|t: int|
                    0 <= t < j ==> stat_of(slots@[best as int]@, by_count) <= stat_of(
                        (#[trigger] slots@[t])@,
                        by_count,
                    ),
            decreases slots@.len() - j,
        {
            let sb = if by_count {
                slots[best].call_cnt
            } else {
                slots[best].last_accessed
            };
            let sj = if by_count {
                slots[j].call_cnt
            } else {
                slots[j].last_accessed
            };
            if sj < sb {
                best = j;
            }
            j = j + 1;
        }
        best
    }

    /// Removes lowest-ranking entries (by access count under LFU, by
    /// last-access instant under LRU) until at most `cap` remain, preserving
    /// the order of the survivors.
    #[verifier::rlimit(50)]
    pub fn evict(&mut self, cap: usize, by_count: bool)
        ensures
            evict_seq_rel(old(self)@, final (self)@, cap, by_count),
    {
        let ghost s0 = self@;
        if self.slots.len() <= cap {
            proof {
                let sel0 = Seq::new(s0.len(), |t: int| t);
                assert(selection_of(s0, s0, sel0));
                assert forall|j: int| 0 <= j < s0.len() implies #[trigger] sel0.contains(j) by {
                    assert(sel0[j] == j);
                }
            }
            return ;
        }
        let ghost mut sel: Seq<int> = Seq::new(s0.len(), |t: int| t);
        proof {
            assert(selection_of(s0, self@, sel));
            assert forall|j: int| 0 <= j < s0.len() implies #[trigger] sel.contains(j) by {
                assert(sel[j] == j);
            }
        }
        while self.slots.len() > cap
            invariant
                sel.len() == self.slots@.len(),
                selection_of(s0, self@, sel),
                forall|j: int, t: int|
                    0 <= j < s0.len() && !(#[trigger] sel.contains(j)) && 0 <= t < sel.len()
                        ==> stat_of(s0[j], by_count) <= stat_of(s0[#[trigger] sel[t]], by_count),
                self.slots@.len() >= cap,
                s0.len() > cap,
            decreases self.slots@.len(),
        {
            let i = Self::find_min(&self.slots, by_count);
            let ghost cur = self@;
            let ghost p = sel[i as int];
            proof {
                assert forall|t: int| 0 <= t < sel.len() implies stat_of(s0[p], by_count)
                    <= stat_of(s0[#[trigger] sel[t]], by_count) by {
                    assert(cur[t] == s0[sel[t]]);
                    assert(cur[i as int] == s0[p]);
                    assert(stat_of(cur[i as int], by_count) <= stat_of(cur[t], by_count));
                }
            }
            let ghost slots0 = self.slots@;
            self.slots.remove(i);
            proof {
                let sel2 = sel.remove(i as int);
                assert(self@ =~= cur.remove(i as int)) by {
                    assert forall|j: int| 0 <= j < self@.len() implies self@[j] == cur.remove(
                        i as int,
                    )[j] by {
                        if j < i {
                            assert(self.slots@[j] == slots0[j]);
                        } else {
                            assert(self.slots@[j] == slots0[j + 1]);
                        }
                    }
                }
                assert(selection_of(s0, self@, sel2)) by {
                    assert forall|t: int| 0 <= t < sel2.len() implies 0 <= (#[trigger] sel2[t])
                        < s0.len() && self@[t] == s0[sel2[t]] by {
                        if t < i {
                            assert(sel2[t] == sel[t]);
                            assert(self@[t] == cur[t]);
                        } else {
                            assert(sel2[t] == sel[t + 1]);
                            assert(self@[t] == cur[t + 1]);
                        }
                    }
                    assert forall|t1: int, t2: int| 0 <= t1 < t2 < sel2.len() implies (
                    #[trigger] sel2[t1]) < (#[trigger] sel2[t2]) by {
                        if t2 < i {
                        } else if t1 < i {
                            assert(sel2[t1] == sel[t1] && sel2[t2] == sel[t2 + 1]);
                        } else {
                            assert(sel2[t1] == sel[t1 + 1] && sel2[t2] == sel[t2 + 1]);
                        }
                    }
                }
                assert forall|j: int, t: int|
                    0 <= j < s0.len() && !(#[trigger] sel2.contains(j)) && 0 <= t
                        < sel2.len() implies stat_of(s0[j], by_count) <= stat_of(
                    s0[#[trigger] sel2[t]],
                    by_count,
                ) by {
                    assert(sel2[t] == sel[if t < i { t } else { t + 1 }]);
                    assert(sel.contains(sel2[t])) by {
                        let u: int = if t < i {
                            t
                        } else {
                            t + 1
                        };
                        assert(sel[u] == sel2[t]);
                    }
                    if j != p {
                        if sel.contains(j) {
                            let u = choose|u: int| 0 <= u < sel.len() && (#[trigger] sel[u]) == j;
                            assert(u != i);
                            if u < i {
                                assert(sel2[u] == j);
                            } else {
                                assert(sel2[u - 1] == j);
                            }
                            assert(sel2.contains(j));
                            assert(false);
                        }
                    } else {
                        assert(stat_of(s0[p], by_count) <= stat_of(s0[sel2[t]], by_count)) by {
                            let u: int = if t < i {
                                t
                            } else {
                                t + 1
                            };
                            assert(sel[u] == sel2[t]);
                        }
                    }
                }
                sel = sel2;
            }
        }
        proof {
            assert(final (self)@.len() == cap);
        }
    }

    /// One full maintenance pass at instant `now`: the TTL sweep, then
    /// capacity eviction as the policy directs.
    pub fn tick(&mut self, policy: &ExpirationPolicy, now: u64)
        ensures
            seq_tick_rel(old(self)@, final (self)@, *policy, now),
    {
        self.sweep(now);
        let p = *policy;
        match p {
            ExpirationPolicy::LFU(c) => self.evict(c, true),
            ExpirationPolicy::LRU(c) => self.evict(c, false),
            ExpirationPolicy::NoEviction => {},
        }
    }
}

} // verus!

verus! {

/// The sequence after membership queries for `vs` in order at instant `now`.
pub open spec fn spec_mtouch_vals<VV>(s: Seq<ValueEx<VV>>, vs: Seq<VV>, now: u64) -> Seq<
    ValueEx<VV>,
>
    decreases vs.len(),
{
    if vs.len() == 0 {
        s
    } else {
        spec_touch_matching(spec_mtouch_vals(s, vs.drop_last(), now), vs.last(), now)
    }
}

/// The sequence after removals of `vs` in order.
pub open spec fn spec_mremove_vals<VV>(s: Seq<ValueEx<VV>>, vs: Seq<VV>) -> Seq<ValueEx<VV>>
    decreases vs.len(),
{
    if vs.len() == 0 {
        s
    } else {
        spec_remove_val(spec_mremove_vals(s, vs.drop_last()), vs.last())
    }
}

/// What removals of `vs` in order answer: per payload, whether a live entry
/// holding it existed at its own removal instant.
pub open spec fn spec_mremove_vals_out<VV>(s: Seq<ValueEx<VV>>, vs: Seq<VV>, now: u64) -> Seq<
    bool,
>
    decreases vs.len(),
{
    if vs.len() == 0 {
        Seq::empty()
    } else {
        spec_mremove_vals_out(s, vs.drop_last(), now).push(
            seq_has_live(spec_mremove_vals(s, vs.drop_last()), vs.last(), now),
        )
    }
}

/// The sequence after TTL queries for `vs` in order at instant `now`.
pub open spec fn spec_mttl_state<VV>(s: Seq<ValueEx<VV>>, vs: Seq<VV>, now: u64) -> Seq<
    ValueEx<VV>,
>
    decreases vs.len(),
{
    if vs.len() == 0 {
        s
    } else {
        spec_ttl_touch(spec_mttl_state(s, vs.drop_last(), now), vs.last(), now)
    }
}

/// What TTL queries for `vs` in order answer.
pub open spec fn spec_mttl_out<VV>(s: Seq<ValueEx<VV>>, vs: Seq<VV>, now: u64) -> Seq<
    Option<u64>,
>
    decreases vs.len(),
{
    if vs.len() == 0 {
        Seq::empty()
    } else {
        spec_mttl_out(s, vs.drop_last(), now).push(
            spec_seq_ttl(spec_mttl_state(s, vs.drop_last(), now), vs.last(), now),
        )
    }
}

} // verus!
