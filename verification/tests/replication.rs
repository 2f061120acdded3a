use actor_cache::expiration_policy::ExpirationPolicy;
use actor_cache::owner::{MapOwner, SetOwner, VecOwner};

fn key(s: &str) -> String {
    s.to_string()
}

#[test]
fn test_replicate() {
    let mut p = MapOwner::<String, i32>::new(ExpirationPolicy::NoEviction);
    let mut f = MapOwner::<String, i32>::new(ExpirationPolicy::NoEviction);
    f.replicate();
    assert!(f.is_replica());
    p.insert(key("a"), 1, None, false, 0);
    f.follower_tick(&p, 100);
    assert_eq!(f.get(&key("a"), 100), Some(1));
}

#[test]
fn test_replicated_data_persist() {
    // what was pulled stays after replication stops
    let mut p = MapOwner::<String, i32>::new(ExpirationPolicy::NoEviction);
    let mut f = MapOwner::<String, i32>::new(ExpirationPolicy::NoEviction);
    f.replicate();
    p.insert(key("a"), 1, None, false, 0);
    f.follower_tick(&p, 100);
    f.stop_replicating();
    f.follower_tick(&p, 200);
    assert_eq!(f.get(&key("a"), 200), Some(1));
}

#[test]
fn test_stop_replicating() {
    // the full convergence-then-divergence story
    let mut p = MapOwner::<String, i32>::new(ExpirationPolicy::NoEviction);
    let mut f = MapOwner::<String, i32>::new(ExpirationPolicy::NoEviction);
    f.replicate();
    p.insert(key("a"), 1, None, false, 0);
    f.follower_tick(&p, 100);
    assert_eq!(f.get(&key("a"), 100), Some(1));
    f.stop_replicating();
    assert!(!f.is_replica());
    p.insert(key("a"), 10, None, false, 150);
    f.follower_tick(&p, 200);
    f.follower_tick(&p, 300);
    // primary mutations no longer reach the follower
    assert_eq!(f.get(&key("a"), 300), Some(1));
    assert_eq!(p.get(&key("a"), 300), Some(10));
}

#[test]
fn test_follower_mirrors_whole_state() {
    let mut p = MapOwner::<String, i32>::new(ExpirationPolicy::NoEviction);
    let mut f = MapOwner::<String, i32>::new(ExpirationPolicy::NoEviction);
    f.insert(key("stale"), 99, None, false, 0);
    f.replicate();
    p.insert(key("a"), 1, None, false, 0);
    p.insert(key("b"), 2, None, false, 0);
    f.follower_tick(&p, 100);
    // the pull replaces the follower's storage wholesale
    assert_eq!(f.get(&key("stale"), 100), None);
    let mut all = f.get_all(100);
    all.sort();
    assert_eq!(all, vec![(key("a"), 1), (key("b"), 2)]);
}

#[test]
fn test_follower_sweeps_replicated_state() {
    let mut p = MapOwner::<String, i32>::new(ExpirationPolicy::NoEviction);
    let mut f = MapOwner::<String, i32>::new(ExpirationPolicy::NoEviction);
    f.replicate();
    p.insert(key("a"), 1, Some(50), false, 0);
    p.insert(key("b"), 2, None, false, 0);
    // at pull time "a" has already expired: the follower's sweep drops it
    f.follower_tick(&p, 100);
    let all = f.get_all(100);
    assert_eq!(all, vec![(key("b"), 2)]);
}

#[test]
fn test_follower_with_capacity_may_diverge() {
    let mut p = MapOwner::<String, i32>::new(ExpirationPolicy::NoEviction);
    let mut f = MapOwner::<String, i32>::new(ExpirationPolicy::LRU(1));
    f.replicate();
    p.insert(key("a"), 1, None, false, 0);
    p.insert(key("b"), 2, None, false, 10);
    f.follower_tick(&p, 100);
    // the follower evicts down to its own bound; the primary keeps both
    assert_eq!(f.len(), 1);
    assert_eq!(p.len(), 2);
}

#[test]
fn test_set_replication() {
    let mut p = SetOwner::<i32>::new(ExpirationPolicy::NoEviction);
    let mut f = SetOwner::<i32>::new(ExpirationPolicy::NoEviction);
    f.replicate();
    p.insert(7, None, false, 0);
    f.follower_tick(&p, 100);
    assert_eq!(f.contains(&vec![7, 8], 100), vec![true, false]);
    f.stop_replicating();
    p.insert(8, None, false, 150);
    f.follower_tick(&p, 200);
    assert_eq!(f.contains(&vec![7, 8], 200), vec![true, false]);
}

#[test]
fn test_vec_replication() {
    let mut p = VecOwner::<i32>::new(ExpirationPolicy::NoEviction);
    let mut f = VecOwner::<i32>::new(ExpirationPolicy::NoEviction);
    f.replicate();
    p.push(1, None, false, 0);
    p.push(2, None, false, 1);
    f.follower_tick(&p, 100);
    assert_eq!(f.get_all(100), vec![1, 2]);
    f.stop_replicating();
    p.push(3, None, false, 150);
    f.follower_tick(&p, 200);
    assert_eq!(f.get_all(200), vec![1, 2]);
    assert_eq!(p.get_all(200), vec![1, 2, 3]);
}
