use rcore_os::deadlock::{DeadlockDetector, Resource};
use rcore_os::sync::{Condvar, DownOutcome, LockOutcome, Mutex, MutexBlocking, MutexSpin, Semaphore};

#[test]
fn detector_rejects_request_that_closes_a_cycle() {
    let mut d = DeadlockDetector::default();
    d.set_enabled(true);
    let r0 = Resource::new(&mut d, 1);
    let r1 = Resource::new(&mut d, 1);
    assert!(r0.request(&mut d, 0));
    r0.acquire(&mut d, 0);
    assert!(r1.request(&mut d, 1));
    r1.acquire(&mut d, 1);
    assert!(r1.request(&mut d, 0));
    assert!(!r0.request(&mut d, 1));
    assert!(d.is_safe());
}

#[test]
fn detector_disabled_grants_every_request() {
    let mut d = DeadlockDetector::default();
    let r0 = Resource::new(&mut d, 1);
    let r1 = Resource::new(&mut d, 1);
    r0.acquire(&mut d, 0);
    r1.acquire(&mut d, 1);
    assert!(r1.request(&mut d, 0));
    assert!(r0.request(&mut d, 1));
    assert!(!d.is_safe());
}

#[test]
fn release_returns_unit_and_restores_safety() {
    let mut d = DeadlockDetector::default();
    let r0 = Resource::new(&mut d, 1);
    r0.acquire(&mut d, 2);
    assert_eq!(r0.wait(&mut d, 3), 3);
    assert!(d.is_safe());
    r0.release(&mut d, 2);
    assert!(d.is_safe());
    d.remove_thread(3);
    assert!(d.is_safe());
}

#[test]
fn spin_mutex_lock_retry_unlock() {
    let mut d = DeadlockDetector::default();
    let res = Resource::new(&mut d, 1);
    let mut m = MutexSpin::new(res);
    assert!(m.lock(&mut d, 0) == LockOutcome::Acquired);
    assert!(m.lock(&mut d, 1) == LockOutcome::Retry);
    assert!(m.unlock(&mut d, 0).is_none());
    assert!(m.lock(&mut d, 1) == LockOutcome::Acquired);
}

#[test]
fn blocking_mutex_hands_lock_to_first_waiter() {
    let mut d = DeadlockDetector::default();
    let res = Resource::new(&mut d, 1);
    let mut m = MutexBlocking::new(res);
    assert!(m.lock(&mut d, 0) == LockOutcome::Acquired);
    assert!(m.lock(&mut d, 1) == LockOutcome::Blocked);
    assert!(m.lock(&mut d, 2) == LockOutcome::Blocked);
    assert_eq!(m.unlock(&mut d, 0), Some(1));
    assert_eq!(m.unlock(&mut d, 1), Some(2));
    assert_eq!(m.unlock(&mut d, 2), None);
}

#[test]
fn semaphore_counts_permits_and_wakes_in_order() {
    let mut d = DeadlockDetector::default();
    let res = Resource::new(&mut d, 2);
    let mut s = Semaphore::new(2, res);
    assert!(s.down(&mut d, 0) == DownOutcome::Acquired);
    assert!(s.down(&mut d, 1) == DownOutcome::Acquired);
    assert!(s.down(&mut d, 2) == DownOutcome::Blocked);
    assert!(s.down(&mut d, 3) == DownOutcome::Blocked);
    assert_eq!(s.up(&mut d, 0), Some(2));
    assert_eq!(s.up(&mut d, 1), Some(3));
    assert_eq!(s.up(&mut d, 2), None);
}

#[test]
fn condvar_signal_wakes_waiters_in_order() {
    let mut d = DeadlockDetector::default();
    let res = Resource::new(&mut d, 1);
    let mut m = MutexSpin::new(res);
    let mut cv = Condvar::new();
    assert_eq!(cv.signal(), None);
    assert!(m.lock(&mut d, 4) == LockOutcome::Acquired);
    assert_eq!(cv.wait(&mut m, &mut d, 4), None);
    assert!(m.lock(&mut d, 5) == LockOutcome::Acquired);
    assert_eq!(cv.wait(&mut m, &mut d, 5), None);
    assert_eq!(cv.signal(), Some(4));
    assert_eq!(cv.signal(), Some(5));
    assert_eq!(cv.signal(), None);
}
