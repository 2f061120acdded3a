use actor_cache::error::TokioActorCacheError;
use actor_cache::expiration_policy::ExpirationPolicy;
use actor_cache::owner::MapOwner;

fn key(s: &str) -> String {
    s.to_string()
}

#[test]
fn test_insert_and_get() {
    let mut m = MapOwner::<String, i32>::new(ExpirationPolicy::NoEviction);
    m.insert(key("a"), 10, None, false, 0);
    assert_eq!(m.get(&key("a"), 1), Some(10));
    assert_eq!(m.get(&key("b"), 1), None);
}

#[test]
fn test_basic_insert_get_remove() {
    // map with no eviction: write, read, remove, read again
    let mut m = MapOwner::<String, i32>::new(ExpirationPolicy::NoEviction);
    m.insert(key("a"), 10, None, false, 0);
    assert_eq!(m.get(&key("a"), 1), Some(10));
    let removed = m.remove(&vec![key("a")], 2);
    assert_eq!(removed, vec![Some(10)]);
    assert_eq!(m.get(&key("a"), 3), None);
}

#[test]
fn test_last_write_wins() {
    let mut m = MapOwner::<String, i32>::new(ExpirationPolicy::NoEviction);
    m.insert(key("a"), 1, None, false, 0);
    m.insert(key("a"), 2, None, false, 1);
    m.insert(key("b"), 9, None, false, 2);
    m.insert(key("a"), 3, None, false, 3);
    // interleave reads and a tick; the last write still decides
    let _ = m.get(&key("b"), 4);
    m.tick(5, None);
    assert_eq!(m.get(&key("a"), 6), Some(3));
}

#[test]
fn test_insert_nx_preserves_existing() {
    let mut m = MapOwner::<String, i32>::new(ExpirationPolicy::NoEviction);
    m.insert(key("a"), 10, None, false, 0);
    m.insert(key("a"), 20, None, true, 1);
    assert_eq!(m.get(&key("a"), 2), Some(10));
    // nx on an absent key still writes
    m.insert(key("b"), 20, None, true, 3);
    assert_eq!(m.get(&key("b"), 4), Some(20));
}

#[test]
fn test_minsert_nx_if_not_exists() {
    let mut m = MapOwner::<String, i32>::new(ExpirationPolicy::NoEviction);
    m.insert(key("a"), 10, None, false, 0);
    let r = m.minsert(
        &vec![key("a"), key("b"), key("c")],
        &vec![20, 20, 30],
        &vec![None, None, None],
        &vec![true, true, true],
        1,
    );
    assert!(r.is_ok());
    assert_eq!(m.get(&key("a"), 2), Some(10));
    assert_eq!(m.get(&key("b"), 2), Some(20));
    assert_eq!(m.get(&key("c"), 2), Some(30));
}

#[test]
fn test_minsert_equal_lengths_never_fails() {
    let mut m = MapOwner::<String, i32>::new(ExpirationPolicy::NoEviction);
    for n in 0..4usize {
        let keys: Vec<String> = (0..n).map(|i| format!("k{}", i)).collect();
        let vals: Vec<i32> = (0..n).map(|i| i as i32).collect();
        let exs: Vec<Option<u64>> = (0..n).map(|_| None).collect();
        let nxs: Vec<bool> = (0..n).map(|_| false).collect();
        assert!(m.minsert(&keys, &vals, &exs, &nxs, 0).is_ok());
    }
}

#[test]
fn test_minsert_inconsistent_len_no_mutation() {
    let mut m = MapOwner::<String, i32>::new(ExpirationPolicy::NoEviction);
    let r = m.minsert(
        &vec![key("a"), key("b")],
        &vec![1],
        &vec![None],
        &vec![false],
        0,
    );
    assert_eq!(r, Err(TokioActorCacheError::InconsistentLen));
    // nothing was written
    assert_eq!(m.len(), 0);
    assert_eq!(m.get(&key("a"), 1), None);
}

#[test]
fn test_mget_aligned_with_input() {
    let mut m = MapOwner::<String, i32>::new(ExpirationPolicy::NoEviction);
    m.insert(key("a"), 10, None, false, 0);
    m.insert(key("c"), 30, None, false, 0);
    let got = m.mget(&vec![key("a"), key("b"), key("c")], 1);
    assert_eq!(got, vec![Some(10), None, Some(30)]);
}

#[test]
fn test_contains_key() {
    let mut m = MapOwner::<String, i32>::new(ExpirationPolicy::NoEviction);
    m.insert(key("a"), 10, None, false, 0);
    let got = m.contains_key(&vec![key("a"), key("b")], 1);
    assert_eq!(got, vec![true, false]);
}

#[test]
fn test_remove_answers_per_key() {
    let mut m = MapOwner::<String, i32>::new(ExpirationPolicy::NoEviction);
    m.insert(key("a"), 10, None, false, 0);
    m.insert(key("b"), 20, None, false, 0);
    let removed = m.remove(&vec![key("a"), key("x"), key("a")], 1);
    assert_eq!(removed, vec![Some(10), None, None]);
    assert_eq!(m.len(), 1);
}

#[test]
fn test_clear() {
    let mut m = MapOwner::<String, i32>::new(ExpirationPolicy::NoEviction);
    m.insert(key("a"), 10, None, false, 0);
    m.insert(key("b"), 12, None, false, 0);
    assert_eq!(m.len(), 2);
    m.clear();
    assert_eq!(m.len(), 0);
    assert_eq!(m.get(&key("a"), 1), None);
}

#[test]
fn test_ttl_reports_remaining_time() {
    let mut m = MapOwner::<String, i32>::new(ExpirationPolicy::NoEviction);
    m.insert(key("a"), 10, Some(1000), false, 0);
    m.insert(key("b"), 20, None, false, 0);
    let ttls = m.ttl(&vec![key("a"), key("b"), key("c")], 400);
    assert_eq!(ttls, vec![Some(600), None, None]);
}

#[test]
fn test_get_all_snapshot() {
    let mut m = MapOwner::<String, i32>::new(ExpirationPolicy::NoEviction);
    m.insert(key("a"), 1, None, false, 0);
    m.insert(key("b"), 2, None, false, 0);
    let mut all = m.get_all(1);
    all.sort();
    assert_eq!(all, vec![(key("a"), 1), (key("b"), 2)]);
}

#[test]
fn test_access_count_carries_over_on_overwrite() {
    // an overwrite keeps the entry "hot" for LFU: a's counter exceeds b's
    let mut m = MapOwner::<String, i32>::new(ExpirationPolicy::LFU(1));
    m.insert(key("a"), 1, None, false, 0);
    m.insert(key("a"), 1, None, false, 1);
    m.insert(key("b"), 1, None, false, 2);
    m.tick(10, None);
    let all = m.get_all(11);
    assert_eq!(all, vec![(key("a"), 1)]);
}
