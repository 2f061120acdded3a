use actor_cache::expiration_policy::ExpirationPolicy;
use actor_cache::owner::{MapOwner, SetOwner, VecOwner};

fn key(s: &str) -> String {
    s.to_string()
}

#[test]
fn test_entry_expires_after_deadline() {
    // a 1000 ms entry written at 0: reads at 2000 see nothing, even before
    // the sweep; the sweep then removes it physically
    let mut m = MapOwner::<String, i32>::new(ExpirationPolicy::NoEviction);
    m.insert(key("a"), 10, None, false, 0);
    m.insert(key("b"), 20, Some(1000), false, 0);
    assert_eq!(m.get(&key("b"), 999), Some(20));
    assert_eq!(m.get(&key("a"), 2000), Some(10));
    assert_eq!(m.get(&key("b"), 2000), None);
    assert_eq!(m.len(), 2);
    m.tick(2000, None);
    assert_eq!(m.len(), 1);
}

#[test]
fn test_entry_absent_exactly_from_deadline() {
    let mut m = MapOwner::<String, i32>::new(ExpirationPolicy::NoEviction);
    m.insert(key("a"), 1, Some(100), false, 0);
    assert_eq!(m.get(&key("a"), 99), Some(1));
    assert_eq!(m.get(&key("a"), 100), None);
}

#[test]
fn test_double_duration_sleep_expires() {
    // duration 100 ms or less, waiting twice the duration: absent
    for d in [1u64, 50, 100] {
        let mut m = MapOwner::<String, i32>::new(ExpirationPolicy::NoEviction);
        m.insert(key("v"), 7, Some(d), false, 0);
        m.tick(2 * d, None);
        assert_eq!(m.get(&key("v"), 2 * d), None);
        assert_eq!(m.len(), 0);
    }
}

#[test]
fn test_lru_eviction_keeps_most_recent() {
    let mut m = MapOwner::<String, i32>::new(ExpirationPolicy::LRU(1));
    m.insert(key("a"), 1, None, false, 0);
    m.insert(key("b"), 1, None, false, 10);
    m.tick(100, None);
    let all = m.get_all(101);
    assert_eq!(all, vec![(key("b"), 1)]);
}

#[test]
fn test_lru_read_refreshes_entry() {
    let mut m = MapOwner::<String, i32>::new(ExpirationPolicy::LRU(1));
    m.insert(key("a"), 1, None, false, 0);
    m.insert(key("b"), 2, None, false, 10);
    // touching "a" after "b" was written makes "a" the most recent
    assert_eq!(m.get(&key("a"), 20), Some(1));
    m.tick(100, None);
    let all = m.get_all(101);
    assert_eq!(all, vec![(key("a"), 1)]);
}

#[test]
fn test_lfu_eviction_keeps_most_frequent() {
    let mut m = MapOwner::<String, i32>::new(ExpirationPolicy::LFU(1));
    m.insert(key("a"), 1, None, false, 0);
    m.insert(key("a"), 1, None, false, 1);
    m.insert(key("b"), 1, None, false, 2);
    m.tick(100, None);
    let all = m.get_all(101);
    assert_eq!(all, vec![(key("a"), 1)]);
}

#[test]
fn test_lru_bound_holds_after_tick() {
    let mut m = MapOwner::<String, i32>::new(ExpirationPolicy::LRU(2));
    for i in 0..5 {
        m.insert(format!("k{}", i), i, None, false, i as u64);
    }
    assert_eq!(m.len(), 5);
    m.tick(100, None);
    assert_eq!(m.len(), 2);
    // the two most recently accessed survive
    let mut all = m.get_all(101);
    all.sort();
    assert_eq!(all, vec![(key("k3"), 3), (key("k4"), 4)]);
}

#[test]
fn test_capacity_zero_evicts_everything() {
    let mut m = MapOwner::<String, i32>::new(ExpirationPolicy::LRU(0));
    m.insert(key("a"), 1, None, false, 0);
    m.insert(key("b"), 2, None, false, 1);
    m.tick(10, None);
    assert_eq!(m.len(), 0);
}

#[test]
fn test_between_ticks_capacity_may_be_exceeded() {
    let mut m = MapOwner::<String, i32>::new(ExpirationPolicy::LRU(1));
    m.insert(key("a"), 1, None, false, 0);
    m.insert(key("b"), 2, None, false, 1);
    m.insert(key("c"), 3, None, false, 2);
    assert_eq!(m.len(), 3);
    m.tick(10, None);
    assert_eq!(m.len(), 1);
}

#[test]
fn test_sweep_runs_before_eviction() {
    // both live entries fit once the expired one is swept: nothing is evicted
    let mut m = MapOwner::<String, i32>::new(ExpirationPolicy::LRU(2));
    m.insert(key("old"), 0, Some(10), false, 0);
    m.insert(key("a"), 1, None, false, 1);
    m.insert(key("b"), 2, None, false, 2);
    m.tick(100, None);
    let mut all = m.get_all(101);
    all.sort();
    assert_eq!(all, vec![(key("a"), 1), (key("b"), 2)]);
}

#[test]
fn test_set_ttl_and_eviction() {
    let mut s = SetOwner::<i32>::new(ExpirationPolicy::LFU(1));
    s.insert(10, Some(50), false, 0);
    s.insert(20, None, false, 0);
    s.insert(20, None, false, 1);
    s.insert(30, None, false, 2);
    assert_eq!(s.contains(&vec![10, 20, 30], 10), vec![true, true, true]);
    s.tick(100, None);
    // 10 expired; 30 was used less often than 20
    let all = s.get_all(101);
    assert_eq!(all, vec![20]);
}

#[test]
fn test_vec_ttl_expiry() {
    let mut v = VecOwner::<i32>::new(ExpirationPolicy::NoEviction);
    v.push(10, Some(1000), false, 0);
    v.push(20, None, false, 0);
    let ttls = v.ttl(&vec![10, 20, 30], 400);
    assert_eq!(ttls, vec![Some(600), None, None]);
    v.tick(2000, None);
    assert_eq!(v.get_all(2001), vec![20]);
}

#[test]
fn test_vec_lru_eviction_preserves_order() {
    let mut v = VecOwner::<i32>::new(ExpirationPolicy::LRU(2));
    v.push(10, None, false, 0);
    v.push(20, None, false, 1);
    v.push(30, None, false, 2);
    v.tick(100, None);
    // the oldest-accessed entry is dropped; order of survivors is kept
    assert_eq!(v.get_all(101), vec![20, 30]);
}
