//! The guarantees that span several operations, each stated and proved over
//! the spec transitions the executable operations are contracted to.
use vstd::prelude::*;

use crate::data_struct::{live_at, stat_of, ValueEx};
use crate::expiration_policy::ExpirationPolicy;
use crate::keyed_multi::spec_minsert;
use crate::keyed_store::{
    spec_insert, spec_read, spec_sweep, spec_touch, spec_touch_all, tick_rel,
};
use crate::owner::follower_tick_allowed;
use crate::seq_store::{selection_of, seq_tick_rel, spec_sweep_seq};

verus! {

/// One command of a standalone map-shaped owner, as far as the storage is
/// concerned; reads of any arity reduce to touches of single keys.
pub enum MapOp<KV, VV> {
    Insert { k: KV, v: VV, ex: Option<u64>, nx: bool },
    Get { k: KV },
    ContainsKey { k: KV },
    Ttl { k: KV },
    GetAll,
    Tick,
}

/// The storage transition of one command of a standalone owner under the
/// no-eviction policy, taken at instant `now` (the tick is then exactly the
/// TTL sweep).
pub open spec fn map_op_step<KV, VV>(
    m: Map<KV, ValueEx<VV>>,
    op: MapOp<KV, VV>,
    now: u64,
) -> Map<KV, ValueEx<VV>> {
    match op {
        MapOp::Insert { k, v, ex, nx } => spec_insert(m, k, v, ex, nx, now),
        MapOp::Get { k } => spec_touch(m, k, now),
        MapOp::ContainsKey { k } => spec_touch(m, k, now),
        MapOp::Ttl { k } => spec_touch(m, k, now),
        MapOp::GetAll => spec_touch_all(m, now),
        MapOp::Tick => spec_sweep(m, now),
    }
}

/// The storage after a run of commands, each paired with its instant,
/// applied in order.
pub open spec fn run_map_ops<KV, VV>(
    m: Map<KV, ValueEx<VV>>,
    ops: Seq<(MapOp<KV, VV>, u64)>,
) -> Map<KV, ValueEx<VV>>
    decreases ops.len(),
{
    if ops.len() == 0 {
        m
    } else {
        map_op_step(run_map_ops(m, ops.drop_last()), ops.last().0, ops.last().1)
    }
}

/// Every write in the run is a plain one: no time-to-live, no `nx` guard.
pub open spec fn writes_plain<KV, VV>(ops: Seq<(MapOp<KV, VV>, u64)>) -> bool {
    forall|i: int|
        0 <= i < ops.len() ==> match (#[trigger] ops[i]).0 {
            MapOp::Insert { ex, nx, .. } => ex is None && !nx,
            _ => true,
        }
}

/// No stored entry carries a deadline.
pub open spec fn never_expiring<KV, VV>(m: Map<KV, ValueEx<VV>>) -> bool {
    forall|k: KV| #[trigger] m.contains_key(k) ==> m[k].expiration is None
}

/// The payload of the last write to `k` in the run, if the run writes `k`.
pub open spec fn last_written<KV, VV>(ops: Seq<(MapOp<KV, VV>, u64)>, k: KV) -> Option<VV>
    decreases ops.len(),
{
    if ops.len() == 0 {
        Option::None
    } else {
        match ops.last().0 {
            MapOp::Insert { k: k2, v, .. } => if k2 == k {
                Option::Some(v)
            } else {
                last_written(ops.drop_last(), k)
            },
            _ => last_written(ops.drop_last(), k),
        }
    }
}

proof fn lemma_plain_run_never_expiring<KV, VV>(
    m: Map<KV, ValueEx<VV>>,
    ops: Seq<(MapOp<KV, VV>, u64)>,
)
    requires
        never_expiring(m),
        writes_plain(ops),
    ensures
        never_expiring(run_map_ops(m, ops)),
    decreases ops.len(),
{
    if ops.len() > 0 {
        assert(writes_plain(ops.drop_last())) by {
            assert forall|i: int| 0 <= i < ops.len() - 1 implies match (
            #[trigger] ops.drop_last()[i]).0 {
                MapOp::Insert { ex, nx, .. } => ex is None && !nx,
                _ => true,
            } by {
                assert(ops.drop_last()[i] == ops[i]);
            }
        }
        lemma_plain_run_never_expiring(m, ops.drop_last());
        let pre = run_map_ops(m, ops.drop_last());
        let now = ops.last().1;
        assert(ops[ops.len() - 1] == ops.last());
        assert forall|k: KV| #[trigger]
            run_map_ops(m, ops).contains_key(k) implies run_map_ops(m, ops)[k].expiration
            is None by {
            match ops.last().0 {
                MapOp::Insert { k: k2, v, ex, nx } => {},
                MapOp::Get { k: k2 } => {},
                MapOp::ContainsKey { k: k2 } => {},
                MapOp::Ttl { k: k2 } => {},
                MapOp::GetAll => {},
                MapOp::Tick => {},
            }
        }
    }
}

/// Whoever wrote a key last decides what every later read of it returns: in
/// a standalone map with no time-to-live and no eviction, a run of plain
/// writes, reads and ticks leaves under each written key the payload of its
/// last write, live forever.
pub proof fn law_read_your_writes<KV, VV>(
    m0: Map<KV, ValueEx<VV>>,
    ops: Seq<(MapOp<KV, VV>, u64)>,
    k: KV,
    at: u64,
)
    requires
        never_expiring(m0),
        writes_plain(ops),
        last_written(ops, k) is Some,
    ensures
        spec_read(run_map_ops(m0, ops), k, at) == last_written(ops, k),
    decreases ops.len(),
{
    lemma_plain_run_never_expiring(m0, ops);
    assert(writes_plain(ops.drop_last())) by {
        assert forall|i: int| 0 <= i < ops.len() - 1 implies match (
        #[trigger] ops.drop_last()[i]).0 {
            MapOp::Insert { ex, nx, .. } => ex is None && !nx,
            _ => true,
        } by {
            assert(ops.drop_last()[i] == ops[i]);
        }
    }
    lemma_plain_run_never_expiring(m0, ops.drop_last());
    let pre = run_map_ops(m0, ops.drop_last());
    let now = ops.last().1;
    assert(ops[ops.len() - 1] == ops.last());
    match ops.last().0 {
        MapOp::Insert { k: k2, v, ex, nx } => {
            if k2 == k {
                assert(ex is None && !nx);
            } else {
                law_read_your_writes(m0, ops.drop_last(), k, at);
            }
        },
        MapOp::Get { k: k2 } => {
            law_read_your_writes(m0, ops.drop_last(), k, at);
        },
        MapOp::ContainsKey { k: k2 } => {
            law_read_your_writes(m0, ops.drop_last(), k, at);
        },
        MapOp::Ttl { k: k2 } => {
            law_read_your_writes(m0, ops.drop_last(), k, at);
        },
        MapOp::GetAll => {
            law_read_your_writes(m0, ops.drop_last(), k, at);
        },
        MapOp::Tick => {
            law_read_your_writes(m0, ops.drop_last(), k, at);
        },
    }
}

/// An entry written with a time-to-live reads as absent from its deadline
/// on, and any maintenance sweep at or past the deadline removes it.
pub proof fn law_ttl_expiry<KV, VV>(
    m: Map<KV, ValueEx<VV>>,
    k: KV,
    v: VV,
    d: u64,
    t0: u64,
    t: u64,
)
    requires
        t0 + d <= u64::MAX,
        t0 + d <= t,
    ensures
        spec_read(spec_insert(m, k, v, Option::Some(d), false, t0), k, t) == Option::<VV>::None,
        !spec_sweep(spec_insert(m, k, v, Option::Some(d), false, t0), t).contains_key(k),
{
}

/// Before its deadline, and from the instant it was written, the entry is
/// there to read.
pub proof fn law_ttl_live_until_deadline<KV, VV>(
    m: Map<KV, ValueEx<VV>>,
    k: KV,
    v: VV,
    d: u64,
    t0: u64,
    t: u64,
)
    requires
        t0 + d <= u64::MAX,
        t < t0 + d,
    ensures
        spec_read(spec_insert(m, k, v, Option::Some(d), false, t0), k, t) == Option::Some(v),
{
}

/// A standalone owner's tick pulls nothing: what it may do to the storage
/// does not depend on any primary.
pub proof fn law_standalone_tick_ignores_primary<KV, VV>(
    own: Map<KV, ValueEx<VV>>,
    policy: ExpirationPolicy,
    p1: Map<KV, ValueEx<VV>>,
    p2: Map<KV, ValueEx<VV>>,
    post: Map<KV, ValueEx<VV>>,
    now: u64,
)
    ensures
        follower_tick_allowed(own, false, policy, p1, post, now) == follower_tick_allowed(
            own,
            false,
            policy,
            p2,
            post,
            now,
        ),
{
}

/// One tick of a replicating follower with no capacity bound makes it agree
/// with its primary: the follower holds exactly the primary's live entries,
/// and every read answers as the primary would.
pub proof fn law_replication_convergence<KV, VV>(
    own: Map<KV, ValueEx<VV>>,
    p: Map<KV, ValueEx<VV>>,
    post: Map<KV, ValueEx<VV>>,
    now: u64,
    k: KV,
)
    requires
        follower_tick_allowed(own, true, ExpirationPolicy::NoEviction, p, post, now),
    ensures
        post == spec_sweep(p, now),
        spec_read(post, k, now) == spec_read(p, k, now),
{
}

/// After any tick under LRU(c): at most `c` entries remain, every survivor
/// is an entry the store held live before the tick, and no evicted live
/// entry had been accessed more recently than a retained one.
pub proof fn law_lru_retains_most_recent<KV, VV>(
    pre: Map<KV, ValueEx<VV>>,
    post: Map<KV, ValueEx<VV>>,
    c: usize,
    now: u64,
    k1: KV,
    k2: KV,
)
    requires
        tick_rel(pre, post, ExpirationPolicy::LRU(c), now),
    ensures
        post.dom().len() <= c,
        post.contains_key(k2) ==> pre.contains_key(k2) && live_at(pre[k2], now) && post[k2]
            == pre[k2],
        pre.contains_key(k1) && live_at(pre[k1], now) && !post.contains_key(k1)
            && post.contains_key(k2) ==> pre[k1].last_accessed <= pre[k2].last_accessed,
{
    let swept = spec_sweep(pre, now);
    if swept.dom().len() <= c {
        assert(post == swept);
    }
    if post.contains_key(k2) {
        assert(swept.contains_key(k2));
        assert(post[k2] == swept[k2]);
    }
    if pre.contains_key(k1) && live_at(pre[k1], now) && !post.contains_key(k1)
        && post.contains_key(k2) {
        assert(swept.contains_key(k1));
        assert(stat_of(swept[k1], false) <= stat_of(swept[k2], false));
    }
}

/// After any tick under LFU(c): the same, with the access counter in place
/// of the last-access instant.
pub proof fn law_lfu_retains_most_frequent<KV, VV>(
    pre: Map<KV, ValueEx<VV>>,
    post: Map<KV, ValueEx<VV>>,
    c: usize,
    now: u64,
    k1: KV,
    k2: KV,
)
    requires
        tick_rel(pre, post, ExpirationPolicy::LFU(c), now),
    ensures
        post.dom().len() <= c,
        post.contains_key(k2) ==> pre.contains_key(k2) && live_at(pre[k2], now) && post[k2]
            == pre[k2],
        pre.contains_key(k1) && live_at(pre[k1], now) && !post.contains_key(k1)
            && post.contains_key(k2) ==> pre[k1].call_cnt <= pre[k2].call_cnt,
{
    let swept = spec_sweep(pre, now);
    if swept.dom().len() <= c {
        assert(post == swept);
    }
    if post.contains_key(k2) {
        assert(swept.contains_key(k2));
        assert(post[k2] == swept[k2]);
    }
    if pre.contains_key(k1) && live_at(pre[k1], now) && !post.contains_key(k1)
        && post.contains_key(k2) {
        assert(swept.contains_key(k1));
        assert(stat_of(swept[k1], true) <= stat_of(swept[k2], true));
    }
}

/// Writing pairwise-distinct keys into an empty store leaves exactly one
/// entry per key, whatever the per-key payloads, deadlines and `nx` flags.
pub proof fn law_distinct_inserts_count<KV, VV>(
    keys: Seq<KV>,
    vals: Seq<VV>,
    exs: Seq<Option<u64>>,
    nxs: Seq<bool>,
    now: u64,
)
    requires
        forall|i: int, j: int| 0 <= i < j < keys.len() ==> keys[i] != keys[j],
    ensures
        ({
            let m = spec_minsert(Map::<KV, ValueEx<VV>>::empty(), keys, vals, exs, nxs, now);
            &&& m.dom().finite()
            &&& m.dom().len() == keys.len()
            &&& forall|k: KV| m.contains_key(k) <==> keys.contains(k)
        }),
    decreases keys.len(),
{
    if keys.len() == 0 {
        let m = spec_minsert(Map::<KV, ValueEx<VV>>::empty(), keys, vals, exs, nxs, now);
        assert(forall|k: KV| !m.contains_key(k) && !keys.contains(k));
    } else {
        law_distinct_inserts_count(
            keys.drop_last(),
            vals.drop_last(),
            exs.drop_last(),
            nxs.drop_last(),
            now,
        );
        let pre = spec_minsert(
            Map::<KV, ValueEx<VV>>::empty(),
            keys.drop_last(),
            vals.drop_last(),
            exs.drop_last(),
            nxs.drop_last(),
            now,
        );
        let m = spec_minsert(Map::<KV, ValueEx<VV>>::empty(), keys, vals, exs, nxs, now);
        let lk = keys.last();
        assert(!keys.drop_last().contains(lk)) by {
            if keys.drop_last().contains(lk) {
                let i = choose|i: int|
                    0 <= i < keys.drop_last().len() && keys.drop_last()[i] == lk;
                assert(keys[i] == keys[keys.len() - 1]);
            }
        }
        assert(!pre.contains_key(lk));
        assert(m == pre.insert(lk, crate::data_struct::fresh_entry(vals.last(), exs.last(), now)));
        assert(m.dom() =~= pre.dom().insert(lk));
        assert forall|k: KV| m.contains_key(k) <==> keys.contains(k) by {
            if m.contains_key(k) {
                if k == lk {
                    assert(keys[keys.len() - 1] == lk);
                    assert(keys.contains(k));
                } else {
                    assert(pre.contains_key(k));
                    assert(keys.drop_last().contains(k));
                    let i = choose|i: int|
                        0 <= i < keys.drop_last().len() && (#[trigger] keys.drop_last()[i]) == k;
                    assert(keys.drop_last()[i] == keys[i]);
                    assert(keys[i] == k);
                    assert(keys.contains(k));
                }
            }
            if keys.contains(k) {
                let i = choose|i: int| 0 <= i < keys.len() && (#[trigger] keys[i]) == k;
                if i < keys.len() - 1 {
                    assert(keys.drop_last()[i] == keys[i]);
                    assert(keys.drop_last().contains(k));
                    assert(pre.contains_key(k));
                    assert(m.contains_key(k));
                } else {
                    assert(k == lk);
                    assert(m.contains_key(k));
                }
            }
        }
    }
}

} // verus!

verus! {

proof fn lemma_sweep_seq_elems<VV>(s: Seq<ValueEx<VV>>, now: u64)
    ensures
        forall|t: int|
            0 <= t < spec_sweep_seq(s, now).len() ==> live_at(
                #[trigger] spec_sweep_seq(s, now)[t],
                now,
            ) && exists|j: int| 0 <= j < s.len() && spec_sweep_seq(s, now)[t] == (#[trigger] s[j]),
    decreases s.len(),
{
    if s.len() > 0 {
        lemma_sweep_seq_elems(s.drop_last(), now);
        let rest = spec_sweep_seq(s.drop_last(), now);
        assert forall|t: int|
            0 <= t < spec_sweep_seq(s, now).len() implies live_at(
            #[trigger] spec_sweep_seq(s, now)[t],
            now,
        ) && exists|j: int| 0 <= j < s.len() && spec_sweep_seq(s, now)[t] == (#[trigger] s[j]) by {
            if t < rest.len() {
                assert(spec_sweep_seq(s, now)[t] == rest[t]);
                let j = choose|j: int|
                    0 <= j < s.drop_last().len() && rest[t] == (#[trigger] s.drop_last()[j]);
                assert(s.drop_last()[j] == s[j]);
                assert(spec_sweep_seq(s, now)[t] == s[j]);
            } else {
                assert(live_at(s.last(), now));
                assert(spec_sweep_seq(s, now)[t] == s[s.len() - 1]);
            }
        }
    }
}

/// After any tick of the sequence store under LRU(c): at most `c` entries
/// remain, and every survivor is a live pre-tick entry. With `LFU(c)` the
/// same holds; which survivors they are is pinned down by the tick's
/// eviction relation (lowest-ranking entries leave first).
pub proof fn law_seq_capacity_bound<VV>(
    pre: Seq<ValueEx<VV>>,
    post: Seq<ValueEx<VV>>,
    c: usize,
    by_count: bool,
    now: u64,
    t: int,
)
    requires
        seq_tick_rel(
            pre,
            post,
            if by_count {
                ExpirationPolicy::LFU(c)
            } else {
                ExpirationPolicy::LRU(c)
            },
            now,
        ),
        0 <= t < post.len(),
    ensures
        post.len() <= c,
        live_at(post[t], now),
        exists|j: int| 0 <= j < pre.len() && post[t] == (#[trigger] pre[j]),
{
    let swept = spec_sweep_seq(pre, now);
    lemma_sweep_seq_elems(pre, now);
    let sel = choose|sel: Seq<int>|
        #[trigger] selection_of(swept, post, sel) && forall|j: int, u: int|
            0 <= j < swept.len() && !(#[trigger] sel.contains(j)) && 0 <= u < sel.len() ==> stat_of(
                swept[j],
                by_count,
            ) <= stat_of(swept[#[trigger] sel[u]], by_count);
    assert(post[t] == swept[sel[t]]);
    assert(live_at(swept[sel[t]], now));
    let j = choose|j: int| 0 <= j < pre.len() && swept[sel[t]] == (#[trigger] pre[j]);
    assert(post[t] == pre[j]);
    if swept.len() <= c {
        assert(post == swept);
    }
}

} // verus!
