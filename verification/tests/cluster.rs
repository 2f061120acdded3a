use actor_cache::cluster::{MapCluster, SetCluster};
use actor_cache::compute::hash_id;
use actor_cache::error::TokioActorCacheError;
use actor_cache::expiration_policy::ExpirationPolicy;

fn key(s: &str) -> String {
    s.to_string()
}

#[test]
fn test_hash_id_in_range_and_deterministic() {
    for s in ["", "a", "b", "some longer key", "k7"] {
        for n in [1u16, 2, 3, 16, 999] {
            let h1 = hash_id(s, n);
            let h2 = hash_id(s, n);
            assert!(h1 < n);
            assert_eq!(h1, h2);
        }
    }
}

#[test]
fn test_hash_id_single_shard() {
    assert_eq!(hash_id("anything", 1), 0);
}

#[test]
fn test_cluster_routing_stability() {
    // seven distinct keys over three shards: every key reads back, and the
    // shard sizes add up to seven
    let mut c = MapCluster::<String, i32>::new(ExpirationPolicy::NoEviction, 3);
    let names = ["a", "b", "c", "d", "e", "f", "g"];
    for (i, n) in names.iter().enumerate() {
        c.insert(key(n), i as i32, None, false, 0).unwrap();
    }
    for (i, n) in names.iter().enumerate() {
        assert_eq!(c.get(&key(n), 1).unwrap(), Some(i as i32));
    }
    let sizes = c.shard_sizes();
    assert_eq!(sizes.len(), 3);
    let total: usize = sizes.iter().sum();
    assert_eq!(total, 7);
    let all = c.get_all(2);
    assert_eq!(all.len(), 7);
}

#[test]
fn test_cluster_insert_overwrites_once() {
    // writing the same key twice leaves one entry, wherever it routes
    let mut c = MapCluster::<String, i32>::new(ExpirationPolicy::NoEviction, 4);
    c.insert(key("x"), 1, None, false, 0).unwrap();
    c.insert(key("x"), 2, None, false, 1).unwrap();
    assert_eq!(c.get(&key("x"), 2).unwrap(), Some(2));
    let total: usize = c.shard_sizes().iter().sum();
    assert_eq!(total, 1);
}

#[test]
fn test_cluster_mget_and_contains() {
    let mut c = MapCluster::<String, i32>::new(ExpirationPolicy::NoEviction, 3);
    c.minsert(
        &vec![key("a"), key("b"), key("c")],
        &vec![10, 20, 30],
        &vec![None, None, None],
        &vec![false, false, false],
        0,
    )
    .unwrap();
    let vals = c.mget(&vec![key("a"), key("b"), key("c"), key("d")], 1).unwrap();
    assert_eq!(vals, vec![Some(10), Some(20), Some(30), None]);
    let has = c.contains_key(&vec![key("a"), key("d")], 2).unwrap();
    assert_eq!(has, vec![true, false]);
}

#[test]
fn test_cluster_remove() {
    let mut c = MapCluster::<String, i32>::new(ExpirationPolicy::NoEviction, 3);
    c.insert(key("a"), 10, None, false, 0).unwrap();
    c.insert(key("b"), 20, None, false, 0).unwrap();
    let removed = c.remove(&vec![key("a"), key("b"), key("c"), key("d")], 1).unwrap();
    assert_eq!(removed, vec![Some(10), Some(20), None, None]);
    let total: usize = c.shard_sizes().iter().sum();
    assert_eq!(total, 0);
}

#[test]
fn test_cluster_ttl() {
    let mut c = MapCluster::<String, i32>::new(ExpirationPolicy::NoEviction, 3);
    c.insert(key("a"), 10, Some(1000), false, 0).unwrap();
    let ttls = c.ttl(&vec![key("a"), key("b")], 400).unwrap();
    assert_eq!(ttls, vec![Some(600), None]);
}

#[test]
fn test_cluster_clear() {
    let mut c = MapCluster::<String, i32>::new(ExpirationPolicy::NoEviction, 3);
    c.insert(key("a"), 10, None, false, 0).unwrap();
    c.insert(key("b"), 12, None, false, 0).unwrap();
    c.insert(key("c"), 20, None, false, 0).unwrap();
    let all = c.get_all(1);
    assert!(!all.is_empty());
    c.clear();
    let all = c.get_all(2);
    assert!(all.is_empty());
}

#[test]
fn test_empty_cluster_node_not_exists() {
    let mut c = MapCluster::<String, i32>::new(ExpirationPolicy::NoEviction, 0);
    assert_eq!(
        c.insert(key("a"), 1, None, false, 0),
        Err(TokioActorCacheError::NodeNotExists)
    );
    assert_eq!(c.get(&key("a"), 0), Err(TokioActorCacheError::NodeNotExists));
    assert_eq!(
        c.mget(&vec![key("a")], 0),
        Err(TokioActorCacheError::NodeNotExists)
    );
}

#[test]
fn test_cluster_minsert_inconsistent_len_before_dispatch() {
    let mut c = MapCluster::<String, i32>::new(ExpirationPolicy::NoEviction, 3);
    let r = c.minsert(
        &vec![key("a"), key("b")],
        &vec![1],
        &vec![None],
        &vec![false],
        0,
    );
    assert_eq!(r, Err(TokioActorCacheError::InconsistentLen));
    let total: usize = c.shard_sizes().iter().sum();
    assert_eq!(total, 0);
    // the length check fires even on an empty cluster
    let mut empty = MapCluster::<String, i32>::new(ExpirationPolicy::NoEviction, 0);
    let r = empty.minsert(&vec![key("a")], &vec![], &vec![], &vec![], 0);
    assert_eq!(r, Err(TokioActorCacheError::InconsistentLen));
}

#[test]
fn test_cluster_integer_keys() {
    let mut c = MapCluster::<u64, i32>::new(ExpirationPolicy::NoEviction, 5);
    for k in 0u64..20 {
        c.insert(k, (k * 2) as i32, None, false, 0).unwrap();
    }
    for k in 0u64..20 {
        assert_eq!(c.get(&k, 1).unwrap(), Some((k * 2) as i32));
    }
    let total: usize = c.shard_sizes().iter().sum();
    assert_eq!(total, 20);
}

#[test]
fn test_set_cluster_membership_across_shards() {
    let mut c = SetCluster::<i32>::new(ExpirationPolicy::NoEviction, 3);
    for v in [10, 20, 30, 40, 50] {
        c.insert(v, None, false, 0).unwrap();
    }
    let has = c.contains(&vec![10, 20, 60], 1).unwrap();
    assert_eq!(has, vec![true, true, false]);
    let total: usize = c.shard_sizes().iter().sum();
    assert_eq!(total, 5);
    let mut all = c.get_all(2);
    all.sort();
    assert_eq!(all, vec![10, 20, 30, 40, 50]);
    let removed = c.remove(&vec![10, 10, 60], 3).unwrap();
    assert_eq!(removed, vec![true, false, false]);
    c.clear();
    assert_eq!(c.get_all(4), Vec::<i32>::new());
}

#[test]
fn test_set_cluster_minsert_and_ttl() {
    let mut c = SetCluster::<i32>::new(ExpirationPolicy::NoEviction, 2);
    let r = c.minsert(&vec![1, 2], &vec![Some(1000), None], &vec![false, false], 0);
    assert!(r.is_ok());
    let ttls = c.ttl(&vec![1, 2, 3], 250).unwrap();
    assert_eq!(ttls, vec![Some(750), None, None]);
    let r = c.minsert(&vec![1], &vec![], &vec![], 0);
    assert_eq!(r, Err(TokioActorCacheError::InconsistentLen));
}
