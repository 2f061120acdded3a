use actor_cache::error::TokioActorCacheError;
use actor_cache::expiration_policy::ExpirationPolicy;
use actor_cache::owner::{SetOwner, VecOwner};

#[test]
fn test_vec_push_and_get_all_in_order() {
    let mut v = VecOwner::<i32>::new(ExpirationPolicy::NoEviction);
    v.push(10, None, false, 0);
    v.push(20, None, false, 1);
    v.push(30, None, false, 2);
    assert_eq!(v.get_all(3), vec![10, 20, 30]);
}

#[test]
fn test_vec_push_accumulates_duplicates() {
    // a repeated push appends rather than replaces
    let mut v = VecOwner::<i32>::new(ExpirationPolicy::NoEviction);
    v.push(10, None, false, 0);
    v.push(10, None, false, 1);
    assert_eq!(v.get_all(2), vec![10, 10]);
    assert_eq!(v.len(), 2);
}

#[test]
fn test_vec_push_nx_suppressed_by_live_duplicate() {
    let mut v = VecOwner::<i32>::new(ExpirationPolicy::NoEviction);
    v.push(10, None, false, 0);
    v.push(10, None, true, 1);
    assert_eq!(v.len(), 1);
    // once the duplicate has expired, nx pushes again
    let mut w = VecOwner::<i32>::new(ExpirationPolicy::NoEviction);
    w.push(10, Some(50), false, 0);
    w.push(10, None, true, 100);
    assert_eq!(w.len(), 2);
}

#[test]
fn test_vec_contains() {
    let mut v = VecOwner::<i32>::new(ExpirationPolicy::NoEviction);
    v.push(10, None, false, 0);
    v.push(20, None, false, 1);
    assert_eq!(v.contains(&vec![10, 20, 30], 2), vec![true, true, false]);
}

#[test]
fn test_vec_remove_all_matching() {
    let mut v = VecOwner::<i32>::new(ExpirationPolicy::NoEviction);
    v.push(10, None, false, 0);
    v.push(20, None, false, 1);
    v.push(10, None, false, 2);
    v.push(30, None, false, 3);
    let removed = v.remove(&vec![10, 40], 4);
    assert_eq!(removed, vec![true, false]);
    // both copies of 10 are gone; the rest keep their order
    assert_eq!(v.get_all(5), vec![20, 30]);
}

#[test]
fn test_vec_remove_reports_once_per_call() {
    let mut v = VecOwner::<i32>::new(ExpirationPolicy::NoEviction);
    v.push(10, None, false, 0);
    // the second ask finds nothing: the first removal already took it
    let removed = v.remove(&vec![10, 10], 1);
    assert_eq!(removed, vec![true, false]);
}

#[test]
fn test_vec_mpush_inconsistent_len() {
    let mut v = VecOwner::<i32>::new(ExpirationPolicy::NoEviction);
    let r = v.mpush(&vec![1, 2], &vec![None], &vec![false], 0);
    assert_eq!(r, Err(TokioActorCacheError::InconsistentLen));
    assert_eq!(v.len(), 0);
    let r = v.mpush(&vec![1, 2], &vec![None, None], &vec![false, false], 0);
    assert!(r.is_ok());
    assert_eq!(v.get_all(1), vec![1, 2]);
}

#[test]
fn test_set_insert_is_idempotent_on_membership() {
    let mut s = SetOwner::<i32>::new(ExpirationPolicy::NoEviction);
    s.insert(10, None, false, 0);
    s.insert(10, None, false, 1);
    assert_eq!(s.len(), 1);
    assert_eq!(s.contains(&vec![10], 2), vec![true]);
}

#[test]
fn test_set_remove() {
    let mut s = SetOwner::<i32>::new(ExpirationPolicy::NoEviction);
    s.insert(10, None, false, 0);
    let removed = s.remove(&vec![10, 20, 10], 1);
    assert_eq!(removed, vec![true, false, false]);
    assert_eq!(s.len(), 0);
}

#[test]
fn test_set_minsert_and_ttl() {
    let mut s = SetOwner::<i32>::new(ExpirationPolicy::NoEviction);
    let r = s.minsert(&vec![1, 2], &vec![Some(1000), None], &vec![false, false], 0);
    assert!(r.is_ok());
    assert_eq!(s.ttl(&vec![1, 2, 3], 250), vec![Some(750), None, None]);
    let r = s.minsert(&vec![1, 2], &vec![None], &vec![false], 0);
    assert_eq!(r, Err(TokioActorCacheError::InconsistentLen));
}

#[test]
fn test_set_get_all() {
    let mut s = SetOwner::<i32>::new(ExpirationPolicy::NoEviction);
    s.insert(3, None, false, 0);
    s.insert(1, None, false, 0);
    s.insert(2, Some(10), false, 0);
    let mut all = s.get_all(50);
    all.sort();
    assert_eq!(all, vec![1, 3]);
}

#[test]
fn test_set_clear() {
    let mut s = SetOwner::<i32>::new(ExpirationPolicy::NoEviction);
    s.insert(1, None, false, 0);
    s.clear();
    assert_eq!(s.len(), 0);
    assert_eq!(s.contains(&vec![1], 1), vec![false]);
}
