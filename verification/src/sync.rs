//! Mutexes, semaphores and condition variables with deadlock accounting.
//!
//! Tasks are named by their thread identifiers. Waiting and waking are done
//! by the caller: an operation that must wait says so in its result, and an
//! operation that hands ownership to a waiting task names that task.
use vstd::prelude::*;
use crate::deadlock::{col_sum, pad_hold, pad_needs, DeadlockDetector, Resource};

verus! {

/// The accounting of a lock's resource: one unit in all, free exactly when
/// the lock is free and otherwise held by one thread.
pub open spec fn lock_accounting(detector: DeadlockDetector, id: usize, locked: bool) -> bool {
    &&& detector.wf()
    &&& id < detector.avail().len()
    &&& detector.avail()[id as int] == if locked { 0usize } else { 1usize }
    &&& col_sum(detector.hold(), id as int) == if locked { 1int } else { 0int }
}

/// Thread `tid` holds a unit of resource `id`.
pub open spec fn holds(detector: DeadlockDetector, id: usize, tid: usize) -> bool {
    tid < detector.hold().len() && detector.hold()[tid as int][id as int] > 0
}

/// The result of an attempt to take a lock.
#[derive(Copy, Clone, PartialEq, Eq, Structural)]
pub enum LockOutcome {
    /// The caller now holds the lock.
    Acquired,
    /// The lock is held: yield and try again.
    Retry,
    /// The caller was queued; it holds the lock when it is woken.
    Blocked,
}

/// Mutual exclusion locks with resource accounting.
pub trait Mutex {
    /// Whether the lock is held.
    spec fn is_locked(&self) -> bool;

    /// The column of the lock's resource in the detector.
    spec fn resource_id(&self) -> usize;

    /// The lock's invariant.
    spec fn inv(&self) -> bool;

    /// The threads blocked on the lock, first to be served first; a lock
    /// whose waiters retry has none.
    spec fn waiting(&self) -> Seq<usize>;

    /// Resource accounting for this mutex.
    fn resource(&self) -> (r: &Resource)
        ensures
            r.id() == self.resource_id(),
    ;

    /// Try to take the lock for thread `tid`, recording its request first.
    fn lock(&mut self, detector: &mut DeadlockDetector, tid: usize) -> (r: LockOutcome)
        requires
            old(self).inv(),
            lock_accounting(*old(detector), old(self).resource_id(), old(self).is_locked()),
            tid < usize::MAX,
        ensures
            final(self).inv(),
            final(self).resource_id() == old(self).resource_id(),
            lock_accounting(*final(detector), final(self).resource_id(), final(self).is_locked()),
            r == LockOutcome::Acquired ==> !old(self).is_locked() && final(self).is_locked()
                && holds(*final(detector), final(self).resource_id(), tid),
            r != LockOutcome::Acquired ==> old(self).is_locked() && final(self).is_locked(),
            r == LockOutcome::Blocked ==> final(self).waiting() == old(self).waiting().push(tid),
            r != LockOutcome::Blocked ==> final(self).waiting() == old(self).waiting(),
    ;

    /// Release the lock held by thread `tid`; returns the waiting thread that
    /// now holds it, if the lock was handed over.
    fn unlock(&mut self, detector: &mut DeadlockDetector, tid: usize) -> (r: Option<usize>)
        requires
            old(self).inv(),
            old(self).is_locked(),
            lock_accounting(*old(detector), old(self).resource_id(), true),
            holds(*old(detector), old(self).resource_id(), tid),
            tid < usize::MAX,
        ensures
            final(self).inv(),
            final(self).resource_id() == old(self).resource_id(),
            lock_accounting(*final(detector), final(self).resource_id(), final(self).is_locked()),
            r is None ==> !final(self).is_locked(),
            r matches Some(w) ==> final(self).is_locked() && holds(
                *final(detector),
                final(self).resource_id(),
                w,
            ),
            r is None <==> old(self).waiting().len() == 0,
            r is None ==> final(self).waiting() == old(self).waiting(),
            r is Some ==> r == Some(old(self).waiting()[0]) && final(self).waiting() == old(
                self,
            ).waiting().drop_first(),
            r != Some(tid) ==> !holds(*final(detector), final(self).resource_id(), tid),
    ;
}

/// A lock whose waiters yield and retry.
pub struct MutexSpin {
    locked: bool,
    resource: Resource,
}

impl MutexSpin {
    /// Create a new unlocked spin mutex over a resource.
    pub fn new(resource: Resource) -> (r: Self)
        ensures
            !r.is_locked(),
            r.inv(),
            r.resource_id() == resource.id(),
    {
        Self { locked: false, resource }
    }
}

proof fn lemma_single_holder(detector: DeadlockDetector, id: usize, tid: usize)
    requires
        detector.wf(),
        id < detector.avail().len(),
        tid < detector.hold().len(),
        detector.hold()[tid as int][id as int] > 0,
        col_sum(detector.hold(), id as int) == 1,
    ensures
        detector.hold()[tid as int][id as int] == 1,
{
    let h = detector.hold();
    let zeroed = h[tid as int].update(id as int, 0usize);
    crate::deadlock::lemma_col_sum_update(h, tid as int, zeroed, id as int);
    crate::deadlock::lemma_col_sum_nonneg(h.update(tid as int, zeroed), id as int);
}

impl Mutex for MutexSpin {
    closed spec fn is_locked(&self) -> bool {
        self.locked
    }

    closed spec fn resource_id(&self) -> usize {
        self.resource.id()
    }

    closed spec fn inv(&self) -> bool {
        true
    }

    closed spec fn waiting(&self) -> Seq<usize> {
        Seq::empty()
    }

    fn resource(&self) -> (r: &Resource) {
        &self.resource
    }

    /// Record the request of `tid`; take the lock if it is free, and
    /// otherwise ask the caller to yield and retry.
    fn lock(&mut self, detector: &mut DeadlockDetector, tid: usize) -> (r: LockOutcome) {
        let ghost id = self.resource.id();
        self.resource.wait(detector, tid);
        if self.locked {
            return LockOutcome::Retry;
        }
        self.locked = true;
        self.resource.acquire(detector, tid);
        LockOutcome::Acquired
    }

    /// Return the unit held by `tid` and clear the lock.
    fn unlock(&mut self, detector: &mut DeadlockDetector, tid: usize) -> (r: Option<usize>) {
        proof {
            lemma_single_holder(*detector, self.resource.id(), tid);
        }
        self.resource.release(detector, tid);
        self.locked = false;
        None
    }
}

/// A lock whose waiters block in FIFO order and are handed the lock.
pub struct MutexBlocking {
    inner: MutexBlockingInner,
    resource: Resource,
}

/// Lock state and FIFO of blocked tasks awaiting ownership.
pub struct MutexBlockingInner {
    locked: bool,
    wait_queue: std::collections::VecDeque<usize>,
}

impl MutexBlocking {
    /// Create a new unlocked blocking mutex over a resource.
    pub fn new(resource: Resource) -> (r: Self)
        ensures
            !r.is_locked(),
            r.inv(),
            r.waiters() == Seq::<usize>::empty(),
            r.resource_id() == resource.id(),
    {
        Self {
            resource,
            inner: MutexBlockingInner { locked: false, wait_queue: std::collections::VecDeque::new() },
        }
    }

    /// The blocked tasks, first to be served first.
    pub closed spec fn waiters(&self) -> Seq<usize> {
        self.inner.wait_queue@
    }
}

impl Mutex for MutexBlocking {
    closed spec fn is_locked(&self) -> bool {
        self.inner.locked
    }

    closed spec fn resource_id(&self) -> usize {
        self.resource.id()
    }

    /// Only a held lock has waiters, and waiters are valid thread numbers.
    closed spec fn waiting(&self) -> Seq<usize> {
        self.inner.wait_queue@
    }

    closed spec fn inv(&self) -> bool {
        &&& (!self.inner.locked ==> self.inner.wait_queue@.len() == 0)
        &&& forall|i: int|
            0 <= i < self.inner.wait_queue@.len() ==> #[trigger] self.inner.wait_queue@[i]
                < usize::MAX
    }

    fn resource(&self) -> (r: &Resource) {
        &self.resource
    }

    /// Record the request of `tid`; take the lock if it is free, and
    /// otherwise queue `tid` at the back, to block until it is handed over.
    fn lock(&mut self, detector: &mut DeadlockDetector, tid: usize) -> (r: LockOutcome) {
        let ghost id = self.resource.id();
        self.resource.wait(detector, tid);
        if self.inner.locked {
            self.inner.wait_queue.push_back(tid);
            return LockOutcome::Blocked;
        }
        self.inner.locked = true;
        self.resource.acquire(detector, tid);
        LockOutcome::Acquired
    }

    /// Return the unit held by `tid`. With a waiter, hand the lock to the
    /// first one, which then holds the unit; only an empty queue frees it.
    fn unlock(&mut self, detector: &mut DeadlockDetector, tid: usize) -> (r: Option<usize>) {
        let ghost id = self.resource.id();
        proof {
            lemma_single_holder(*detector, self.resource.id(), tid);
        }
        self.resource.release(detector, tid);
        match self.inner.wait_queue.pop_front() {
            Some(waiter) => {
                assert(self.inner.wait_queue@.len() >= 0);
                self.resource.acquire(detector, waiter);
                Some(waiter)
            },
            None => {
                self.inner.locked = false;
                None
            },
        }
    }
}

/// The accounting of a semaphore's resource: while permits are left, the
/// free units are the permits and nobody waits; otherwise no unit is free and
/// as many tasks wait as the count is below zero.
pub open spec fn semaphore_accounting(
    detector: DeadlockDetector,
    id: usize,
    count: isize,
    waiting: nat,
) -> bool {
    &&& detector.wf()
    &&& id < detector.avail().len()
    &&& count >= 0 ==> detector.avail()[id as int] == count && waiting == 0
    &&& count < 0 ==> detector.avail()[id as int] == 0 && waiting == -count
}

/// The result of an attempt to take a permit.
#[derive(Copy, Clone, PartialEq, Eq, Structural)]
pub enum DownOutcome {
    /// The request would risk a deadlock and was refused.
    Rejected,
    /// The caller now holds a permit.
    Acquired,
    /// The caller was queued; it holds a permit when it is woken.
    Blocked,
}

/// A counting semaphore with a FIFO of blocked tasks.
pub struct Semaphore {
    /// Count and wait queue.
    pub inner: SemaphoreInner,
    resource: Resource,
}

/// Signed permit count and FIFO of blocked tasks.
pub struct SemaphoreInner {
    /// Available permits, or minus the number of waiting tasks when negative.
    count: isize,
    /// Tasks awaiting a permit handed over by `up`.
    wait_queue: std::collections::VecDeque<usize>,
}

impl Semaphore {
    /// The permit count.
    pub closed spec fn count(&self) -> isize {
        self.inner.count
    }

    /// The blocked tasks, first to be served first.
    pub closed spec fn waiters(&self) -> Seq<usize> {
        self.inner.wait_queue@
    }

    /// The column of the semaphore's resource in the detector.
    pub closed spec fn resource_id(&self) -> usize {
        self.resource.id()
    }

    /// Waiters are valid thread numbers.
    pub closed spec fn inv(&self) -> bool {
        forall|i: int|
            0 <= i < self.inner.wait_queue@.len() ==> #[trigger] self.inner.wait_queue@[i]
                < usize::MAX
    }

    /// Create a semaphore with `res_count` permits over a resource.
    pub fn new(res_count: usize, resource: Resource) -> (r: Self)
        requires
            res_count <= isize::MAX,
        ensures
            r.inv(),
            r.count() == res_count as isize,
            r.waiters() == Seq::<usize>::empty(),
            r.resource_id() == resource.id(),
    {
        Self {
            resource,
            inner: SemaphoreInner {
                count: res_count as isize,
                wait_queue: std::collections::VecDeque::new(),
            },
        }
    }

    /// Resource accounting for this semaphore.
    pub fn resource(&self) -> (r: &Resource)
        ensures
            r.id() == self.resource_id(),
    {
        &self.resource
    }

    /// Return one permit from thread `tid` and hand it to the first waiting
    /// task, if any; that task is returned and must be woken.
    pub fn up(&mut self, detector: &mut DeadlockDetector, tid: usize) -> (r: Option<usize>)
        requires
            old(self).inv(),
            semaphore_accounting(
                *old(detector),
                old(self).resource_id(),
                old(self).count(),
                old(self).waiters().len(),
            ),
            old(self).count() < isize::MAX,
            tid < usize::MAX,
            holds(*old(detector), old(self).resource_id(), tid) || old(detector).avail()[old(self).resource_id() as int] + col_sum(old(detector).hold(), old(self).resource_id() as int)
                < usize::MAX,
        ensures
            final(self).inv(),
            final(self).resource_id() == old(self).resource_id(),
            final(self).count() == old(self).count() + 1,
            semaphore_accounting(
                *final(detector),
                final(self).resource_id(),
                final(self).count(),
                final(self).waiters().len(),
            ),
            final(self).count() <= 0 ==> {
                &&& r == Some(old(self).waiters()[0])
                &&& final(self).waiters() == old(self).waiters().drop_first()
                &&& holds(*final(detector), final(self).resource_id(), old(self).waiters()[0])
            },
            final(self).count() > 0 ==> r is None && final(self).waiters() == old(self).waiters(),
    {
        self.resource.release(detector, tid);
        self.inner.count = self.inner.count + 1;
        if self.inner.count <= 0 {
            match self.inner.wait_queue.pop_front() {
                Some(waiter) => {
                    self.resource.acquire(detector, waiter);
                    Some(waiter)
                },
                None => None,
            }
        } else {
            None
        }
    }

    /// Ask for a permit for thread `tid`. A request refused by the deadlock
    /// detector changes neither count nor queue. Otherwise the count drops by
    /// one; `tid` gets a permit at once if one was left, and is queued to
    /// block otherwise.
    pub fn down(&mut self, detector: &mut DeadlockDetector, tid: usize) -> (r: DownOutcome)
        requires
            old(self).inv(),
            semaphore_accounting(
                *old(detector),
                old(self).resource_id(),
                old(self).count(),
                old(self).waiters().len(),
            ),
            old(self).count() > isize::MIN,
            tid < usize::MAX,
        ensures
            final(self).inv(),
            final(self).resource_id() == old(self).resource_id(),
            semaphore_accounting(
                *final(detector),
                final(self).resource_id(),
                final(self).count(),
                final(self).waiters().len(),
            ),
            (r == DownOutcome::Rejected) == (old(detector).detection() && !crate::deadlock::all_can_finish(
                old(detector).avail(),
                pad_hold(
                    old(detector).hold(),
                    old(detector).avail().len() as int,
                    pad_needs(old(detector).needs(), tid as int).len() as int,
                ),
                pad_needs(old(detector).needs(), tid as int).update(
                    tid as int,
                    Some(old(self).resource_id()),
                ),
            )),
            r == DownOutcome::Rejected ==> final(self).count() == old(self).count()
                && final(self).waiters() == old(self).waiters(),
            r == DownOutcome::Acquired ==> old(self).count() > 0 && final(self).count() == old(self).count() - 1 && final(self).waiters() == old(self).waiters() && holds(
                *final(detector),
                final(self).resource_id(),
                tid,
            ),
            r == DownOutcome::Blocked ==> old(self).count() <= 0 && final(self).count() == old(self).count() - 1 && final(self).waiters() == old(self).waiters().push(tid),
    {
        if !self.resource.request(detector, tid) {
            return DownOutcome::Rejected;
        }
        self.inner.count = self.inner.count - 1;
        if self.inner.count >= 0 {
            self.resource.acquire(detector, tid);
            DownOutcome::Acquired
        } else {
            self.inner.wait_queue.push_back(tid);
            DownOutcome::Blocked
        }
    }
}

/// A condition variable: a FIFO of tasks waiting for a notification.
pub struct Condvar {
    /// The waiting tasks.
    pub inner: CondvarInner,
}

/// FIFO of tasks waiting for a notification.
pub struct CondvarInner {
    /// Tasks to make ready one at a time with `signal`.
    pub wait_queue: std::collections::VecDeque<usize>,
}

impl Condvar {
    /// Create a condition variable with no waiters.
    pub fn new() -> (r: Self)
        ensures
            r.inner.wait_queue@ == Seq::<usize>::empty(),
    {
        Self { inner: CondvarInner { wait_queue: std::collections::VecDeque::new() } }
    }

    /// Remove the first waiter, which the caller wakes; with no waiter the
    /// notification is lost.
    pub fn signal(&mut self) -> (r: Option<usize>)
        ensures
            old(self).inner.wait_queue@.len() == 0 ==> r is None && final(self).inner.wait_queue@ == old(self).inner.wait_queue@,
            old(self).inner.wait_queue@.len() > 0 ==> r == Some(old(self).inner.wait_queue@[0])
                && final(self).inner.wait_queue@ == old(self).inner.wait_queue@.drop_first(),
    {
        self.inner.wait_queue.pop_front()
    }

    /// Start waiting: thread `tid`, which holds `mutex`, releases it and
    /// joins the back of the queue. Returns the task that the release handed
    /// the mutex to, which the caller wakes before blocking `tid`; once
    /// woken, `tid` takes the mutex again with `lock`.
    pub fn wait<M: Mutex>(&mut self, mutex: &mut M, detector: &mut DeadlockDetector, tid: usize) -> (r:
        Option<usize>)
        requires
            old(mutex).inv(),
            old(mutex).is_locked(),
            lock_accounting(*old(detector), old(mutex).resource_id(), true),
            holds(*old(detector), old(mutex).resource_id(), tid),
            tid < usize::MAX,
        ensures
            final(self).inner.wait_queue@ == old(self).inner.wait_queue@.push(tid),
            final(mutex).inv(),
            final(mutex).resource_id() == old(mutex).resource_id(),
            lock_accounting(*final(detector), final(mutex).resource_id(), final(mutex).is_locked()),
            r is None ==> !final(mutex).is_locked(),
            r matches Some(w) ==> final(mutex).is_locked() && holds(
                *final(detector),
                final(mutex).resource_id(),
                w,
            ),
    {
        let woken = mutex.unlock(detector, tid);
        self.inner.wait_queue.push_back(tid);
        woken
    }
}

} // verus!
