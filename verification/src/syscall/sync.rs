//! Synchronisation system calls: mutexes, semaphores, condition variables and sleep.
use vstd::prelude::*;
use crate::fs::is_first_none;
use crate::sync::{Mutex, MutexBlocking, MutexSpin, MutexObject, Semaphore, Condvar};
use crate::task::{ProcessControlBlock, ThreadControlBlock, TaskStatus};
use crate::timer::{TimerCondVar, add_timer};

verus! {

/// How a system call that may wait ends for the calling thread.
#[derive(Clone, Copy, Debug, PartialEq, Eq, Structural)]
pub enum SyscallStep {
    /// The call returns this value.
    Done(isize),
    /// The thread blocks; the call returns `0` once it is woken.
    Block,
    /// The thread yields and makes the call again.
    Yield,
}

/// Whether `t` is `s` with slot `id` set to `v`: in place when `id` is a slot of `s`,
/// appended when it is the length.
pub open spec fn placed<T>(s: Seq<Option<T>>, id: int, v: T, t: Seq<Option<T>>) -> bool {
    t == if id < s.len() { s.update(id, Some(v)) } else { s.push(Some(v)) }
}

/// A mutex in slot `id` of `l`.
pub open spec fn has_slot<T>(l: Seq<Option<T>>, id: int) -> bool {
    0 <= id < l.len() && l[id] is Some
}

/// Create a mutex, spinning or blocking, in the first free slot of the calling process's
/// mutex table; its id.
pub fn sys_mutex_create(process: &mut ProcessControlBlock, blocking: bool) -> (r: isize)
    requires
        old(process).inner.mutex_list@.len() < isize::MAX,
    ensures
        final(process).pid == old(process).pid,
        is_first_none(old(process).inner.mutex_list@, r as int),
        final(process).inner.mutex_list@.len() == if r < old(process).inner.mutex_list@.len() {
            old(process).inner.mutex_list@.len()
        } else {
            old(process).inner.mutex_list@.len() + 1
        },
        forall|i: int| 0 <= i < old(process).inner.mutex_list@.len() && i != r ==> #[trigger] final(process).inner.mutex_list@[i]
            == old(process).inner.mutex_list@[i],
        final(process).inner.mutex_list@[r as int] matches Some(m) && !m.held() && m.queued().len() == 0 && (m is Spin
            <==> !blocking),
        final(process).inner.sem_list@ == old(process).inner.sem_list@,
        final(process).inner.cond_list@ == old(process).inner.cond_list@,
        final(process).inner.fd_table@ == old(process).inner.fd_table@,
        final(process).inner.memory_set == old(process).inner.memory_set,
{
    let inner = process.inner_exclusive_access();
    let mutex = if !blocking {
        MutexObject::Spin(MutexSpin::new())
    } else {
        MutexObject::Blocking(MutexBlocking::new())
    };
    let id = crate::fs::first_free(&inner.mutex_list);
    if id < inner.mutex_list.len() {
        inner.mutex_list.set(id, Some(mutex));
        id as isize
    } else {
        inner.mutex_list.push(Some(mutex));
        (inner.mutex_list.len() - 1) as isize
    }
}

/// Lock mutex `mutex_id` for thread `tid`: `Done(0)` once it is taken, `Done(-1)` when
/// there is no such mutex; a held spinning mutex makes the thread yield and try again,
/// a held blocking one queues the thread, which blocks until the lock is handed to it.
pub fn sys_mutex_lock(process: &mut ProcessControlBlock, tid: usize, mutex_id: usize) -> (r: SyscallStep)
    ensures
        final(process).pid == old(process).pid,
        ({
            let l = old(process).inner.mutex_list@;
            if has_slot(l, mutex_id as int) {
                let m = l[mutex_id as int]->0;
                let n = final(process).inner.mutex_list@[mutex_id as int];
                &&& final(process).inner.mutex_list@.len() == l.len()
                &&& forall|i: int| 0 <= i < l.len() && i != mutex_id ==> #[trigger] final(process).inner.mutex_list@[i] == l[i]
                &&& n is Some && n->0.held() && (n->0 is Spin <==> m is Spin)
                &&& m.wf() ==> n->0.wf()
                &&& r == if !m.held() {
                    SyscallStep::Done(0)
                } else if m is Spin {
                    SyscallStep::Yield
                } else {
                    SyscallStep::Block
                }
                &&& n->0.queued() == if r == SyscallStep::Block { m.queued().push(tid) } else { m.queued() }
            } else {
                r == SyscallStep::Done(-1isize) && final(process).inner.mutex_list@ == l
            }
        }),
        final(process).inner.sem_list@ == old(process).inner.sem_list@,
        final(process).inner.cond_list@ == old(process).inner.cond_list@,
        final(process).inner.fd_table@ == old(process).inner.fd_table@,
        final(process).inner.memory_set == old(process).inner.memory_set,
{
    let inner = process.inner_exclusive_access();
    if mutex_id >= inner.mutex_list.len() || inner.mutex_list[mutex_id].is_none() {
        return SyscallStep::Done(-1);
    }
    let mut m = inner.mutex_list.remove(mutex_id).unwrap();
    let spin = match &m {
        MutexObject::Spin(_) => true,
        MutexObject::Blocking(_) => false,
    };
    let got = m.lock(tid);
    inner.mutex_list.insert(mutex_id, Some(m));
    proof {
        let l = old(process).inner.mutex_list@;
        assert forall|i: int| 0 <= i < l.len() && i != mutex_id implies #[trigger] inner.mutex_list@[i] == l[i] by {
            if i < mutex_id {
            } else {
            }
        }
    }
    if got {
        SyscallStep::Done(0)
    } else if spin {
        SyscallStep::Yield
    } else {
        SyscallStep::Block
    }
}

/// Unlock mutex `mutex_id`: `0` and the thread the lock passes to, if any; `-1` when
/// there is no such mutex.
pub fn sys_mutex_unlock(process: &mut ProcessControlBlock, mutex_id: usize) -> (r: (isize, Option<usize>))
    ensures
        final(process).pid == old(process).pid,
        ({
            let l = old(process).inner.mutex_list@;
            if has_slot(l, mutex_id as int) {
                let m = l[mutex_id as int]->0;
                let n = final(process).inner.mutex_list@[mutex_id as int];
                &&& r.0 == 0
                &&& final(process).inner.mutex_list@.len() == l.len()
                &&& forall|i: int| 0 <= i < l.len() && i != mutex_id ==> #[trigger] final(process).inner.mutex_list@[i] == l[i]
                &&& n is Some && (n->0 is Spin <==> m is Spin)
                &&& m.wf() ==> n->0.wf()
                &&& if m.queued().len() > 0 {
                    r.1 == Some(m.queued()[0]) && n->0.queued() == m.queued().drop_first() && n->0.held() == m.held()
                } else {
                    r.1.is_none() && !n->0.held() && n->0.queued() == m.queued()
                }
            } else {
                r == (-1isize, None::<usize>) && final(process).inner.mutex_list@ == l
            }
        }),
        final(process).inner.sem_list@ == old(process).inner.sem_list@,
        final(process).inner.cond_list@ == old(process).inner.cond_list@,
        final(process).inner.fd_table@ == old(process).inner.fd_table@,
        final(process).inner.memory_set == old(process).inner.memory_set,
{
    let inner = process.inner_exclusive_access();
    if mutex_id >= inner.mutex_list.len() || inner.mutex_list[mutex_id].is_none() {
        return (-1, None);
    }
    let mut m = inner.mutex_list.remove(mutex_id).unwrap();
    let woken = m.unlock();
    inner.mutex_list.insert(mutex_id, Some(m));
    (0, woken)
}

/// Create a semaphore with `res_count` units in the first free slot of the semaphore
/// table; its id.
pub fn sys_semaphore_create(process: &mut ProcessControlBlock, res_count: usize) -> (r: isize)
    requires
        old(process).inner.sem_list@.len() < isize::MAX,
    ensures
        final(process).pid == old(process).pid,
        is_first_none(old(process).inner.sem_list@, r as int),
        final(process).inner.sem_list@.len() == if r < old(process).inner.sem_list@.len() {
            old(process).inner.sem_list@.len()
        } else {
            old(process).inner.sem_list@.len() + 1
        },
        forall|i: int| 0 <= i < old(process).inner.sem_list@.len() && i != r ==> #[trigger] final(process).inner.sem_list@[i]
            == old(process).inner.sem_list@[i],
        final(process).inner.sem_list@[r as int] matches Some(s) && s.wf() && s.count() == res_count as isize
            && s.waiters().len() == 0,
        final(process).inner.mutex_list@ == old(process).inner.mutex_list@,
        final(process).inner.cond_list@ == old(process).inner.cond_list@,
        final(process).inner.fd_table@ == old(process).inner.fd_table@,
        final(process).inner.memory_set == old(process).inner.memory_set,
{
    let inner = process.inner_exclusive_access();
    let sem = Semaphore::new(#[verifier::truncate] (res_count as isize));
    let id = crate::fs::first_free(&inner.sem_list);
    if id < inner.sem_list.len() {
        inner.sem_list.set(id, Some(sem));
        id as isize
    } else {
        inner.sem_list.push(Some(sem));
        (inner.sem_list.len() - 1) as isize
    }
}

/// Release a unit of semaphore `sem_id`: `0` and the thread woken, if any; `-1` when
/// there is no such semaphore.
pub fn sys_semaphore_up(process: &mut ProcessControlBlock, sem_id: usize) -> (r: (isize, Option<usize>))
    requires
        has_slot(old(process).inner.sem_list@, sem_id as int) ==> old(process).inner.sem_list@[sem_id as int]->0.count()
            < isize::MAX,
    ensures
        final(process).pid == old(process).pid,
        ({
            let l = old(process).inner.sem_list@;
            if has_slot(l, sem_id as int) {
                let s = l[sem_id as int]->0;
                let n = final(process).inner.sem_list@[sem_id as int];
                &&& r.0 == 0
                &&& final(process).inner.sem_list@.len() == l.len()
                &&& forall|i: int| 0 <= i < l.len() && i != sem_id ==> #[trigger] final(process).inner.sem_list@[i] == l[i]
                &&& n is Some && n->0.count() == s.count() + 1
                &&& s.wf() ==> n->0.wf()
                &&& if n->0.count() <= 0 && s.waiters().len() > 0 {
                    r.1 == Some(s.waiters()[0]) && n->0.waiters() == s.waiters().drop_first()
                } else {
                    r.1.is_none() && n->0.waiters() == s.waiters()
                }
            } else {
                r == (-1isize, None::<usize>) && final(process).inner.sem_list@ == l
            }
        }),
        final(process).inner.mutex_list@ == old(process).inner.mutex_list@,
        final(process).inner.cond_list@ == old(process).inner.cond_list@,
        final(process).inner.fd_table@ == old(process).inner.fd_table@,
        final(process).inner.memory_set == old(process).inner.memory_set,
{
    let inner = process.inner_exclusive_access();
    if sem_id >= inner.sem_list.len() || inner.sem_list[sem_id].is_none() {
        return (-1, None);
    }
    let mut s = inner.sem_list.remove(sem_id).unwrap();
    let woken = s.up();
    inner.sem_list.insert(sem_id, Some(s));
    (0, woken)
}

/// Take a unit of semaphore `sem_id` for thread `tid`: `Done(0)` when one is free, `Block`
/// when the thread must wait, queued last; `Done(-1)` when there is no such semaphore.
pub fn sys_semaphore_down(process: &mut ProcessControlBlock, tid: usize, sem_id: usize) -> (r: SyscallStep)
    requires
        has_slot(old(process).inner.sem_list@, sem_id as int) ==> old(process).inner.sem_list@[sem_id as int]->0.count()
            > isize::MIN,
    ensures
        final(process).pid == old(process).pid,
        ({
            let l = old(process).inner.sem_list@;
            if has_slot(l, sem_id as int) {
                let s = l[sem_id as int]->0;
                let n = final(process).inner.sem_list@[sem_id as int];
                &&& final(process).inner.sem_list@.len() == l.len()
                &&& forall|i: int| 0 <= i < l.len() && i != sem_id ==> #[trigger] final(process).inner.sem_list@[i] == l[i]
                &&& n is Some && n->0.count() == s.count() - 1
                &&& s.wf() ==> n->0.wf()
                &&& r == if n->0.count() >= 0 { SyscallStep::Done(0) } else { SyscallStep::Block }
                &&& n->0.waiters() == if n->0.count() >= 0 { s.waiters() } else { s.waiters().push(tid) }
            } else {
                r == SyscallStep::Done(-1isize) && final(process).inner.sem_list@ == l
            }
        }),
        final(process).inner.mutex_list@ == old(process).inner.mutex_list@,
        final(process).inner.cond_list@ == old(process).inner.cond_list@,
        final(process).inner.fd_table@ == old(process).inner.fd_table@,
        final(process).inner.memory_set == old(process).inner.memory_set,
{
    let inner = process.inner_exclusive_access();
    if sem_id >= inner.sem_list.len() || inner.sem_list[sem_id].is_none() {
        return SyscallStep::Done(-1);
    }
    let mut s = inner.sem_list.remove(sem_id).unwrap();
    let got = s.down(tid);
    inner.sem_list.insert(sem_id, Some(s));
    if got {
        SyscallStep::Done(0)
    } else {
        SyscallStep::Block
    }
}

/// Create a condition variable in the first free slot of the condition-variable table; its id.
pub fn sys_condvar_create(process: &mut ProcessControlBlock) -> (r: isize)
    requires
        old(process).inner.cond_list@.len() < isize::MAX,
    ensures
        final(process).pid == old(process).pid,
        is_first_none(old(process).inner.cond_list@, r as int),
        final(process).inner.cond_list@.len() == if r < old(process).inner.cond_list@.len() {
            old(process).inner.cond_list@.len()
        } else {
            old(process).inner.cond_list@.len() + 1
        },
        forall|i: int| 0 <= i < old(process).inner.cond_list@.len() && i != r ==> #[trigger] final(process).inner.cond_list@[i]
            == old(process).inner.cond_list@[i],
        final(process).inner.cond_list@[r as int] matches Some(c) && c.waiters().len() == 0,
        final(process).inner.mutex_list@ == old(process).inner.mutex_list@,
        final(process).inner.sem_list@ == old(process).inner.sem_list@,
        final(process).inner.fd_table@ == old(process).inner.fd_table@,
        final(process).inner.memory_set == old(process).inner.memory_set,
{
    let inner = process.inner_exclusive_access();
    let id = crate::fs::first_free(&inner.cond_list);
    let id = if id < inner.cond_list.len() {
        inner.cond_list.set(id, Some(Condvar::new()));
        id
    } else {
        inner.cond_list.push(Some(Condvar::new()));
        inner.cond_list.len() - 1
    };
    id as isize
}

/// Wake the first thread waiting on condition variable `condvar_id`: `0` and that
/// thread, if any; `-1` when there is no such condition variable.
pub fn sys_condvar_signal(process: &mut ProcessControlBlock, condvar_id: usize) -> (r: (isize, Option<usize>))
    ensures
        final(process).pid == old(process).pid,
        ({
            let l = old(process).inner.cond_list@;
            if has_slot(l, condvar_id as int) {
                let c = l[condvar_id as int]->0;
                let n = final(process).inner.cond_list@[condvar_id as int];
                &&& r.0 == 0
                &&& final(process).inner.cond_list@.len() == l.len()
                &&& forall|i: int| 0 <= i < l.len() && i != condvar_id ==> #[trigger] final(process).inner.cond_list@[i] == l[i]
                &&& n is Some
                &&& if c.waiters().len() > 0 {
                    r.1 == Some(c.waiters()[0]) && n->0.waiters() == c.waiters().drop_first()
                } else {
                    r.1.is_none() && n->0.waiters() == c.waiters()
                }
            } else {
                r == (-1isize, None::<usize>) && final(process).inner.cond_list@ == l
            }
        }),
        final(process).inner.mutex_list@ == old(process).inner.mutex_list@,
        final(process).inner.sem_list@ == old(process).inner.sem_list@,
        final(process).inner.fd_table@ == old(process).inner.fd_table@,
        final(process).inner.memory_set == old(process).inner.memory_set,
{
    let inner = process.inner_exclusive_access();
    if condvar_id >= inner.cond_list.len() || inner.cond_list[condvar_id].is_none() {
        return (-1, None);
    }
    let mut c = inner.cond_list.remove(condvar_id).unwrap();
    let woken = c.signal();
    inner.cond_list.insert(condvar_id, Some(c));
    (0, woken)
}

/// Make thread `tid` wait on condition variable `condvar_id`, releasing mutex
/// `mutex_id`: `Block` and the thread the mutex passes to, if any. The thread locks the
/// mutex again once woken. `Done(-1)` when either object does not exist.
pub fn sys_condvar_wait(process: &mut ProcessControlBlock, tid: usize, condvar_id: usize, mutex_id: usize) -> (r: (SyscallStep, Option<usize>))
    ensures
        final(process).pid == old(process).pid,
        ({
            let cl = old(process).inner.cond_list@;
            let ml = old(process).inner.mutex_list@;
            if has_slot(cl, condvar_id as int) && has_slot(ml, mutex_id as int) {
                let c = cl[condvar_id as int]->0;
                let m = ml[mutex_id as int]->0;
                let nc = final(process).inner.cond_list@[condvar_id as int];
                let nm = final(process).inner.mutex_list@[mutex_id as int];
                &&& r.0 == SyscallStep::Block
                &&& final(process).inner.cond_list@.len() == cl.len()
                &&& final(process).inner.mutex_list@.len() == ml.len()
                &&& forall|i: int| 0 <= i < cl.len() && i != condvar_id ==> #[trigger] final(process).inner.cond_list@[i] == cl[i]
                &&& forall|i: int| 0 <= i < ml.len() && i != mutex_id ==> #[trigger] final(process).inner.mutex_list@[i] == ml[i]
                &&& nc is Some && nc->0.waiters() == c.waiters().push(tid)
                &&& nm is Some && (nm->0 is Spin <==> m is Spin)
                &&& m.wf() ==> nm->0.wf()
                &&& if m.queued().len() > 0 {
                    r.1 == Some(m.queued()[0]) && nm->0.queued() == m.queued().drop_first() && nm->0.held() == m.held()
                } else {
                    r.1.is_none() && !nm->0.held() && nm->0.queued() == m.queued()
                }
            } else {
                &&& r == (SyscallStep::Done(-1isize), None::<usize>)
                &&& final(process).inner.cond_list@ == cl
                &&& final(process).inner.mutex_list@ == ml
            }
        }),
        final(process).inner.sem_list@ == old(process).inner.sem_list@,
        final(process).inner.fd_table@ == old(process).inner.fd_table@,
        final(process).inner.memory_set == old(process).inner.memory_set,
{
    let inner = process.inner_exclusive_access();
    if condvar_id >= inner.cond_list.len() || inner.cond_list[condvar_id].is_none() {
        return (SyscallStep::Done(-1), None);
    }
    if mutex_id >= inner.mutex_list.len() || inner.mutex_list[mutex_id].is_none() {
        return (SyscallStep::Done(-1), None);
    }
    let mut c = inner.cond_list.remove(condvar_id).unwrap();
    let mut m = inner.mutex_list.remove(mutex_id).unwrap();
    let woken = c.wait(tid, &mut m);
    inner.cond_list.insert(condvar_id, Some(c));
    inner.mutex_list.insert(mutex_id, Some(m));
    (SyscallStep::Block, woken)
}

/// Put thread `tid` to sleep for `ms` milliseconds from `now_ms`: mark it blocked and
/// add a timer that expires at `now_ms + ms`. `0` once it is woken.
pub fn sys_sleep(timers: &mut Vec<TimerCondVar>, thread: &mut ThreadControlBlock, tid: usize, now_ms: usize, ms: usize) -> (r: SyscallStep)
    requires
        now_ms + ms <= usize::MAX,
    ensures
        r == SyscallStep::Block,
        final(thread).task_status == TaskStatus::Blocked,
        final(thread).res == old(thread).res,
        final(thread).exit_code == old(thread).exit_code,
        final(timers)@ == old(timers)@.push(TimerCondVar { expire_ms: (now_ms + ms) as usize, task: tid }),
{
    let expire_ms = now_ms + ms;
    thread.task_status = TaskStatus::Blocked;
    add_timer(timers, expire_ms, tid);
    SyscallStep::Block
}

} // verus!
