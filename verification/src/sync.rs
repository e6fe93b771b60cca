//! Mutexes, semaphores and condition variables as state machines over thread ids.
//! An operation that must wait returns so; the scheduler then blocks the caller.
use vstd::prelude::*;
use std::collections::VecDeque;

verus! {

/// A cell whose value one holder at a time works on: the kernel runs on one hart, and
/// the caller takes care that accesses do not overlap.
pub struct SyncRefCell<T> {
    inner: T,
}

impl<T> SyncRefCell<T> {
    /// The value held.
    pub closed spec fn value(&self) -> T {
        self.inner
    }

    /// A cell holding `value`.
    pub fn new(value: T) -> (r: SyncRefCell<T>)
        ensures
            r.value() == value,
    {
        SyncRefCell { inner: value }
    }

    /// Exclusive access to the value held.
    pub fn exclusive_access(&mut self) -> (r: &mut T)
        ensures
            *r == old(self).value(),
            final(self).value() == *final(r),
    {
        &mut self.inner
    }
}

/// The common interface of the two mutex kinds.
pub trait Mutex {
    /// Try to take the lock for thread `tid`; `true` when it is taken.
    fn lock(&mut self, tid: usize) -> bool;

    /// Release the lock; the thread it passes to, if any.
    fn unlock(&mut self) -> Option<usize>;
}

/// A mutex whose waiters block in a queue.
pub struct MutexBlocking {
    locked: bool,
    wait_queue: VecDeque<usize>,
}

impl MutexBlocking {
    /// Whether the lock is held.
    pub closed spec fn is_locked(&self) -> bool {
        self.locked
    }

    /// The waiting threads, first waiter first.
    pub closed spec fn waiters(&self) -> Seq<usize> {
        self.wait_queue@
    }

    /// Threads wait only while the lock is held.
    pub open spec fn wf(&self) -> bool {
        self.waiters().len() > 0 ==> self.is_locked()
    }

    /// A free mutex with no waiter.
    pub fn new() -> (r: MutexBlocking)
        ensures
            r.wf(),
            !r.is_locked(),
            r.waiters() == Seq::<usize>::empty(),
    {
        MutexBlocking { locked: false, wait_queue: VecDeque::new() }
    }
}

impl Mutex for MutexBlocking {
    /// Take the lock if it is free; otherwise queue `tid`, which must then block.
    fn lock(&mut self, tid: usize) -> (r: bool)
        ensures
            old(self).wf() ==> final(self).wf(),
            r == !old(self).is_locked(),
            final(self).is_locked(),
            final(self).waiters() == if r { old(self).waiters() } else { old(self).waiters().push(tid) },
    {
        if self.locked {
            self.wait_queue.push_back(tid);
            false
        } else {
            self.locked = true;
            true
        }
    }

    /// Hand the lock to the first waiter, or free it when nobody waits.
    fn unlock(&mut self) -> (r: Option<usize>)
        ensures
            old(self).wf() ==> final(self).wf(),
            old(self).waiters().len() > 0 ==> {
                &&& r == Some(old(self).waiters()[0])
                &&& final(self).waiters() == old(self).waiters().drop_first()
                &&& final(self).is_locked() == old(self).is_locked()
            },
            old(self).waiters().len() == 0 ==> r.is_none() && !final(self).is_locked() && final(self).waiters()
                == old(self).waiters(),
    {
        if let Some(task) = self.wait_queue.pop_front() {
            Some(task)
        } else {
            self.locked = false;
            None
        }
    }
}

/// A mutex whose waiters yield and try again.
pub struct MutexSpin {
    locked: bool,
}

impl MutexSpin {
    /// Whether the lock is held.
    pub closed spec fn is_locked(&self) -> bool {
        self.locked
    }

    /// A free mutex.
    pub fn new() -> (r: MutexSpin)
        ensures
            !r.is_locked(),
    {
        MutexSpin { locked: false }
    }
}

impl Mutex for MutexSpin {
    /// Take the lock if it is free; otherwise the caller yields and tries again.
    fn lock(&mut self, tid: usize) -> (r: bool)
        ensures
            r == !old(self).is_locked(),
            final(self).is_locked(),
    {
        if !self.locked {
            self.locked = true;
            true
        } else {
            false
        }
    }

    /// Free the lock.
    fn unlock(&mut self) -> (r: Option<usize>)
        ensures
            r.is_none(),
            !final(self).is_locked(),
    {
        self.locked = false;
        None
    }
}

/// A mutex of either kind, as a process's mutex table holds it.
pub enum MutexObject {
    /// A mutex whose waiters yield and try again.
    Spin(MutexSpin),
    /// A mutex whose waiters block in a queue.
    Blocking(MutexBlocking),
}

impl MutexObject {
    /// Whether the lock is held.
    pub open spec fn held(&self) -> bool {
        match self {
            MutexObject::Spin(m) => m.is_locked(),
            MutexObject::Blocking(m) => m.is_locked(),
        }
    }

    /// The threads queued on the mutex, first waiter first.
    pub open spec fn queued(&self) -> Seq<usize> {
        match self {
            MutexObject::Spin(m) => Seq::<usize>::empty(),
            MutexObject::Blocking(m) => m.waiters(),
        }
    }

    /// Threads queue only while the lock is held.
    pub open spec fn wf(&self) -> bool {
        self.queued().len() > 0 ==> self.held()
    }
}

impl Mutex for MutexObject {
    /// Take the lock for `tid` if it is free. A spinning mutex leaves the caller to yield
    /// and try again; a blocking one queues it.
    fn lock(&mut self, tid: usize) -> (r: bool)
        ensures
            r == !old(self).held(),
            final(self).held(),
            old(self).wf() ==> final(self).wf(),
            final(self).queued() == if r || *old(self) is Spin {
                old(self).queued()
            } else {
                old(self).queued().push(tid)
            },
            *old(self) is Spin <==> *final(self) is Spin,
    {
        match self {
            MutexObject::Spin(m) => m.lock(tid),
            MutexObject::Blocking(m) => m.lock(tid),
        }
    }

    /// Release the lock: hand it to the first queued thread, or free it.
    fn unlock(&mut self) -> (r: Option<usize>)
        ensures
            old(self).wf() ==> final(self).wf(),
            old(self).queued().len() > 0 ==> {
                &&& r == Some(old(self).queued()[0])
                &&& final(self).queued() == old(self).queued().drop_first()
                &&& final(self).held() == old(self).held()
            },
            old(self).queued().len() == 0 ==> r.is_none() && !final(self).held() && final(self).queued()
                == old(self).queued(),
            *old(self) is Spin <==> *final(self) is Spin,
    {
        match self {
            MutexObject::Spin(m) => m.unlock(),
            MutexObject::Blocking(m) => m.unlock(),
        }
    }
}

/// A counting semaphore.
pub struct Semaphore {
    count: isize,
    wait_queue: VecDeque<usize>,
}

impl Semaphore {
    /// The counter: available units, or minus the number of waiters.
    pub closed spec fn count(&self) -> int {
        self.count as int
    }

    /// The waiting threads, first waiter first.
    pub closed spec fn waiters(&self) -> Seq<usize> {
        self.wait_queue@
    }

    /// At most as many threads wait as the counter is below zero, and none when it is not.
    pub open spec fn wf(&self) -> bool {
        self.waiters().len() <= if self.count() < 0 { -self.count() } else { 0 }
    }

    /// A semaphore with `count` units and no waiter.
    pub fn new(count: isize) -> (r: Semaphore)
        ensures
            r.wf(),
            r.count() == count,
            r.waiters() == Seq::<usize>::empty(),
    {
        Semaphore { count, wait_queue: VecDeque::new() }
    }

    /// Release a unit, waking the first waiter if the counter was below zero.
    pub fn up(&mut self) -> (r: Option<usize>)
        requires
            old(self).count() < isize::MAX,
        ensures
            final(self).count() == old(self).count() + 1,
            old(self).wf() ==> final(self).wf(),
            final(self).count() <= 0 && old(self).waiters().len() > 0 ==> {
                &&& r == Some(old(self).waiters()[0])
                &&& final(self).waiters() == old(self).waiters().drop_first()
            },
            !(final(self).count() <= 0 && old(self).waiters().len() > 0) ==> r.is_none() && final(self).waiters()
                == old(self).waiters(),
    {
        self.count = self.count + 1;
        if self.count <= 0 {
            if let Some(task) = self.wait_queue.pop_front() {
                return Some(task);
            }
        }
        None
    }

    /// Take a unit for thread `tid`; `false` when it must block, queued as the last waiter.
    pub fn down(&mut self, tid: usize) -> (r: bool)
        requires
            old(self).count() > isize::MIN,
        ensures
            final(self).count() == old(self).count() - 1,
            old(self).wf() ==> final(self).wf(),
            r == (final(self).count() >= 0),
            final(self).waiters() == if r { old(self).waiters() } else { old(self).waiters().push(tid) },
    {
        self.count = self.count - 1;
        if self.count < 0 {
            self.wait_queue.push_back(tid);
            false
        } else {
            true
        }
    }
}

/// A condition variable.
pub struct Condvar {
    wait_queue: VecDeque<usize>,
}

impl Condvar {
    /// The waiting threads, first waiter first.
    pub closed spec fn waiters(&self) -> Seq<usize> {
        self.wait_queue@
    }

    /// A condition variable with no waiter.
    pub fn new() -> (r: Condvar)
        ensures
            r.waiters() == Seq::<usize>::empty(),
    {
        Condvar { wait_queue: VecDeque::new() }
    }

    /// Wake the first waiter, if any.
    pub fn signal(&mut self) -> (r: Option<usize>)
        ensures
            old(self).waiters().len() > 0 ==> r == Some(old(self).waiters()[0]) && final(self).waiters()
                == old(self).waiters().drop_first(),
            old(self).waiters().len() == 0 ==> r.is_none() && final(self).waiters() == old(self).waiters(),
    {
        self.wait_queue.pop_front()
    }

    /// Queue thread `tid` and release `mutex`; the thread `mutex` passes to, if any.
    /// The caller then blocks and takes the mutex again when woken.
    pub fn wait(&mut self, tid: usize, mutex: &mut MutexObject) -> (r: Option<usize>)
        ensures
            final(self).waiters() == old(self).waiters().push(tid),
            old(mutex).wf() ==> final(mutex).wf(),
            old(mutex).queued().len() > 0 ==> r == Some(old(mutex).queued()[0]) && final(mutex).queued()
                == old(mutex).queued().drop_first() && final(mutex).held() == old(mutex).held(),
            old(mutex).queued().len() == 0 ==> r.is_none() && !final(mutex).held() && final(mutex).queued()
                == old(mutex).queued(),
            *old(mutex) is Spin <==> *final(mutex) is Spin,
    {
        self.wait_queue.push_back(tid);
        mutex.unlock()
    }
}

} // verus!
