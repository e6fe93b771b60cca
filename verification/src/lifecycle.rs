//! What happens to threads and processes when they yield, block, wake and exit.
use vstd::prelude::*;
use crate::manager::{TaskManager, ProcessTable, remove_from_pid2process, insert_into_pid2process};
use crate::page_table::PhysMem;
use crate::pid::IDLE_PID;
use crate::task::{ProcessControlBlock, ProcessControlBlockInner, ThreadControlBlock, TaskStatus, ChildRecord, tid_fits};
use crate::timer::{TimerCondVar, remove_timer};
use crate::mem_set::AreaView;
use crate::fs::{RootInode, OpenFlags, open_file, O_RDONLY};
use crate::pid::{RecycleAllocator, KernelStack, kstack_slot};
use crate::config::{TRAMPOLINE, KERNEL_STACK_SIZE};
use crate::task::{process_loadable, new_process};
use vstd::string::StringExecFns;

verus! {

/// Put the running thread back in the ready queue under `key`.
pub fn suspend_current_and_run_next(thread: &mut ThreadControlBlock, manager: &mut TaskManager, key: usize)
    ensures
        *final(thread) == (ThreadControlBlock { task_status: TaskStatus::Ready, ..*old(thread) }),
        final(manager).ready() == old(manager).ready().push(key),
        final(manager).stopped() == old(manager).stopped(),
{
    thread.task_status = TaskStatus::Ready;
    manager.add(key);
}

/// Mark the running thread as blocked.
pub fn mark_current_blocked(thread: &mut ThreadControlBlock)
    ensures
        *final(thread) == (ThreadControlBlock { task_status: TaskStatus::Blocked, ..*old(thread) }),
{
    thread.task_status = TaskStatus::Blocked;
}

/// Block the running thread until something wakes it.
pub fn block_current_and_run_next(thread: &mut ThreadControlBlock)
    ensures
        *final(thread) == (ThreadControlBlock { task_status: TaskStatus::Blocked, ..*old(thread) }),
{
    mark_current_blocked(thread);
}

/// Wake a blocked thread: it becomes ready and joins the ready queue under `key`. A
/// thread that is not blocked is left alone.
pub fn wakeup_task(thread: &mut ThreadControlBlock, manager: &mut TaskManager, key: usize)
    ensures
        old(thread).task_status == TaskStatus::Blocked ==> {
            &&& *final(thread) == (ThreadControlBlock { task_status: TaskStatus::Ready, ..*old(thread) })
            &&& final(manager).ready() == old(manager).ready().push(key)
        },
        old(thread).task_status != TaskStatus::Blocked ==> *final(thread) == *old(thread) && final(manager).ready()
            == old(manager).ready(),
        final(manager).stopped() == old(manager).stopped(),
{
    if thread.task_status != TaskStatus::Blocked {
        return;
    }
    thread.task_status = TaskStatus::Ready;
    manager.add(key);
}

/// Forget a thread that will not run again: out of the ready queue and off the timers.
pub fn remove_inactive_task(manager: &mut TaskManager, timers: &mut Vec<TimerCondVar>, key: usize)
    ensures
        old(manager).ready().contains(key) ==> final(manager).ready() == old(manager).ready().remove(
            crate::manager::first_index(old(manager).ready(), key),
        ),
        !old(manager).ready().contains(key) ==> final(manager).ready() == old(manager).ready(),
        final(manager).stopped() == old(manager).stopped(),
        final(timers)@ == old(timers)@.filter(|t: TimerCondVar| t.task != key),
{
    manager.remove(key);
    remove_timer(timers, key);
}

/// What the scheduler does after a thread exits.
#[derive(Clone, Copy, Debug, PartialEq, Eq, Structural)]
pub enum ExitAction {
    /// Switch to the next ready thread.
    Schedule,
    /// The idle process ended: shut the machine down, reporting a failure or not.
    Shutdown(bool),
}

/// The threads of a process hold the user resources of their own slot, which fit and
/// are handed out.
pub open spec fn threads_ok(inner: &ProcessControlBlockInner) -> bool {
    forall|i: int|
        0 <= i < inner.tasks@.len() ==> ((#[trigger] inner.tasks@[i]) matches Some(t) ==> (t.res matches Some(res) ==> {
            &&& res.tid == i
            &&& tid_fits(i)
            &&& inner.task_res_allocator.allocated().contains(i)
        }))
}

/// `q` without the first occurrence of `key`, if it holds one.
pub open spec fn without_first(q: Seq<usize>, key: usize) -> Seq<usize> {
    if q.contains(key) {
        q.remove(crate::manager::first_index(q, key))
    } else {
        q
    }
}

/// The ready queue `q` once the first `n` threads of `tasks`, scheduled under `keys`,
/// are taken out of it, one after the other.
pub open spec fn ready_without_threads(
    q: Seq<usize>,
    tasks: Seq<Option<ThreadControlBlock>>,
    keys: Seq<usize>,
    n: int,
) -> Seq<usize>
    decreases n,
{
    if n <= 0 {
        q
    } else {
        let q1 = ready_without_threads(q, tasks, keys, n - 1);
        if tasks[n - 1] is Some {
            without_first(q1, keys[n - 1])
        } else {
            q1
        }
    }
}

/// The timers `t` once every timer of the first `n` threads of `tasks`, scheduled under
/// `keys`, is dropped.
pub open spec fn timers_without_threads(
    t: Seq<TimerCondVar>,
    tasks: Seq<Option<ThreadControlBlock>>,
    keys: Seq<usize>,
    n: int,
) -> Seq<TimerCondVar>
    decreases n,
{
    if n <= 0 {
        t
    } else {
        let t1 = timers_without_threads(t, tasks, keys, n - 1);
        if tasks[n - 1] is Some {
            t1.filter(|x: TimerCondVar| x.task != keys[n - 1])
        } else {
            t1
        }
    }
}

/// Taking threads out depends only on which slots hold a thread.
proof fn lemma_without_threads_slots(
    q: Seq<usize>,
    t: Seq<TimerCondVar>,
    a: Seq<Option<ThreadControlBlock>>,
    b: Seq<Option<ThreadControlBlock>>,
    keys: Seq<usize>,
    n: int,
)
    requires
        forall|i: int| 0 <= i < n ==> (#[trigger] a[i] is Some) == (b[i] is Some),
    ensures
        ready_without_threads(q, a, keys, n) == ready_without_threads(q, b, keys, n),
        timers_without_threads(t, a, keys, n) == timers_without_threads(t, b, keys, n),
    decreases n,
{
    if n > 0 {
        lemma_without_threads_slots(q, t, a, b, keys, n - 1);
        assert(a[n - 1] is Some == b[n - 1] is Some);
    }
}

/// Give back the user resources of every thread of the process and forget the threads:
/// out of the ready queue and off the timers, under the keys `keys`.
fn release_threads(
    inner: &mut ProcessControlBlockInner,
    mem: &mut PhysMem,
    manager: &mut TaskManager,
    timers: &mut Vec<TimerCondVar>,
    keys: &Vec<usize>,
)
    requires
        old(inner).wf(old(mem)),
        threads_ok(old(inner)),
        keys@.len() >= old(inner).tasks@.len(),
    ensures
        final(inner).wf(final(mem)),
        final(inner).tasks@.len() == old(inner).tasks@.len(),
        forall|i: int|
            0 <= i < old(inner).tasks@.len() ==> (#[trigger] final(inner).tasks@[i]) == match old(inner).tasks@[i] {
                Some(t) => Some(ThreadControlBlock { res: None, ..t }),
                None => None,
            },
        *final(inner) == (ProcessControlBlockInner {
            tasks: final(inner).tasks,
            memory_set: final(inner).memory_set,
            task_res_allocator: final(inner).task_res_allocator,
            ..*old(inner)
        }),
        final(manager).stopped() == old(manager).stopped(),
        final(manager).ready() == ready_without_threads(
            old(manager).ready(),
            old(inner).tasks@,
            keys@,
            old(inner).tasks@.len() as int,
        ),
        final(timers)@ == timers_without_threads(old(timers)@, old(inner).tasks@, keys@, old(inner).tasks@.len() as int),
{
    let n = inner.tasks.len();
    let mut i: usize = 0;
    while i < n
        invariant
            n == inner.tasks@.len(),
            n == old(inner).tasks@.len(),
            keys@.len() >= n,
            0 <= i <= n,
            inner.wf(mem),
            *inner == (ProcessControlBlockInner {
                tasks: inner.tasks,
                memory_set: inner.memory_set,
                task_res_allocator: inner.task_res_allocator,
                ..*old(inner)
            }),
            manager.stopped() == old(manager).stopped(),
            manager.ready() == ready_without_threads(old(manager).ready(), old(inner).tasks@, keys@, i as int),
            timers@ == timers_without_threads(old(timers)@, old(inner).tasks@, keys@, i as int),
            forall|j: int|
                0 <= j < n ==> (#[trigger] inner.tasks@[j]) == if j < i {
                    match old(inner).tasks@[j] {
                        Some(t) => Some(ThreadControlBlock { res: None, ..t }),
                        None => None,
                    }
                } else {
                    old(inner).tasks@[j]
                },
            forall|j: int|
                i <= j < n ==> ((#[trigger] old(inner).tasks@[j]) matches Some(t) ==> (t.res matches Some(res) ==> {
                    &&& res.tid == j
                    &&& tid_fits(j)
                    &&& inner.task_res_allocator.allocated().contains(j)
                })),
        decreases n - i,
    {
        if inner.tasks[i].is_some() {
            remove_inactive_task(manager, timers, keys[i]);
            let mut t = inner.tasks.remove(i).unwrap();
            let res = t.res.take();
            inner.tasks.insert(i, Some(t));
            let ghost before = inner.task_res_allocator.allocated();
            match res {
                Some(res) => {
                    res.release(inner, mem);
                },
                None => {},
            }
            proof {
                assert forall|j: int|
                    i < j < n implies ((#[trigger] old(inner).tasks@[j]) matches Some(t) ==> (t.res matches Some(res) ==> {
                        &&& res.tid == j
                        &&& tid_fits(j)
                        &&& inner.task_res_allocator.allocated().contains(j)
                    })) by {
                    if old(inner).tasks@[j] matches Some(t) {
                        if t.res matches Some(r) {
                            assert(before.contains(j));
                        }
                    }
                }
            }
        }
        i = i + 1;
    }
}

/// `s` with every record of child `pid` marked as exited with `code`.
pub open spec fn mark_exited(s: Seq<ChildRecord>, pid: usize, code: i32) -> Seq<ChildRecord> {
    s.map_values(|c: ChildRecord| if c.pid == pid { ChildRecord { is_zombie: true, exit_code: code, ..c } } else { c })
}

/// After child `pid` exits with `code`, every record of it reads as exited with that
/// code, and every other record is as it was.
pub proof fn lemma_mark_exited(s: Seq<ChildRecord>, pid: usize, code: i32)
    ensures
        mark_exited(s, pid, code).len() == s.len(),
        forall|j: int|
            0 <= j < s.len() && s[j].pid == pid ==> #[trigger] mark_exited(s, pid, code)[j] == (ChildRecord {
                pid,
                is_zombie: true,
                exit_code: code,
            }),
        forall|j: int| 0 <= j < s.len() && s[j].pid != pid ==> #[trigger] mark_exited(s, pid, code)[j] == s[j],
{
}

/// Mark every record of child `pid` in `children` as exited with `code`.
fn mark_child_exited(children: &mut Vec<ChildRecord>, pid: usize, code: i32)
    ensures
        final(children)@ == mark_exited(old(children)@, pid, code),
        final(children)@.len() == old(children)@.len(),
        forall|j: int|
            0 <= j < old(children)@.len() && old(children)@[j].pid == pid ==> #[trigger] final(children)@[j] == (
            ChildRecord { pid, is_zombie: true, exit_code: code }),
        forall|j: int|
            0 <= j < old(children)@.len() && old(children)@[j].pid != pid ==> #[trigger] final(children)@[j] == old(
                children,
            )@[j],
{
    let mut i: usize = 0;
    while i < children.len()
        invariant
            0 <= i <= children@.len(),
            children@.len() == old(children)@.len(),
            forall|j: int| 0 <= j < children@.len() ==> #[trigger] children@[j] == if j < i {
                mark_exited(old(children)@, pid, code)[j]
            } else {
                old(children)@[j]
            },
        decreases children@.len() - i,
    {
        let c = children[i];
        if c.pid == pid {
            children.set(i, ChildRecord { is_zombie: true, exit_code: code, ..c });
        }
        i = i + 1;
    }
    proof {
        assert(children@ =~= mark_exited(old(children)@, pid, code));
    }
}

/// Record in the table that child `pid` of process `parent` exited with `code`.
fn notify_parent(table: &mut ProcessTable, parent: usize, pid: usize, code: i32)
    ensures
        final(table)@.dom() == old(table)@.dom(),
        forall|q: usize| q != parent && old(table)@.contains_key(q) ==> #[trigger] final(table)@[q] == old(table)@[q],
        old(table)@.contains_key(parent) ==> {
            let p = old(table)@[parent];
            &&& final(table)@[parent].pid == p.pid
            &&& final(table)@[parent].inner == (ProcessControlBlockInner { children: final(table)@[parent].inner.children, ..p.inner })
            &&& final(table)@[parent].inner.children@ == mark_exited(p.inner.children@, pid, code)
        },
{
    match remove_from_pid2process(table, parent) {
        Some(mut p) => {
            mark_child_exited(&mut p.inner.children, pid, code);
            table.procs.insert(parent, p);
            proof {
                assert(table@.dom() =~= old(table)@.dom());
            }
        },
        None => {},
    }
}

/// Hand each child in `kids` to the idle process: its record in the table gets the idle
/// process as parent.
fn reparent_children(table: &mut ProcessTable, kids: &Vec<ChildRecord>)
    ensures
        final(table)@.dom() == old(table)@.dom(),
        forall|q: usize|
            #[trigger] old(table)@.contains_key(q) ==> final(table)@[q] == if exists|j: int| 0 <= j < kids@.len() && kids@[j].pid == q {
                ProcessControlBlock {
                    inner: ProcessControlBlockInner { parent: Some(IDLE_PID), ..old(table)@[q].inner },
                    ..old(table)@[q]
                }
            } else {
                old(table)@[q]
            },
{
    let mut k: usize = 0;
    while k < kids.len()
        invariant
            0 <= k <= kids@.len(),
            table@.dom() == old(table)@.dom(),
            forall|q: usize|
                #[trigger] old(table)@.contains_key(q) ==> table@[q] == if exists|j: int| 0 <= j < k && kids@[j].pid == q {
                    ProcessControlBlock {
                        inner: ProcessControlBlockInner { parent: Some(IDLE_PID), ..old(table)@[q].inner },
                        ..old(table)@[q]
                    }
                } else {
                    old(table)@[q]
                },
        decreases kids@.len() - k,
    {
        let child = kids[k];
        match remove_from_pid2process(table, child.pid) {
            Some(mut c) => {
                c.inner.parent = Some(IDLE_PID);
                table.procs.insert(child.pid, c);
            },
            None => {},
        }
        proof {
            assert(table@.dom() =~= old(table)@.dom());
            assert forall|q: usize| #[trigger] old(table)@.contains_key(q) implies table@[q] == if exists|j: int|
                0 <= j < k + 1 && kids@[j].pid == q {
                ProcessControlBlock {
                    inner: ProcessControlBlockInner { parent: Some(IDLE_PID), ..old(table)@[q].inner },
                    ..old(table)@[q]
                }
            } else {
                old(table)@[q]
            } by {
                if q == child.pid {
                    assert(kids@[k as int].pid == q);
                } else {
                    if exists|j: int| 0 <= j < k + 1 && kids@[j].pid == q {
                        let j = choose|j: int| 0 <= j < k + 1 && kids@[j].pid == q;
                        assert(j < k);
                    }
                }
            }
        }
        k = k + 1;
    }
}

/// The running thread `tid` of process `current` exits with `exit_code`. Threads other
/// than the main one only record the code. When the main thread exits it gives back its
/// user resources and waits under `keys[0]` among the stopped threads; the idle process
/// then shuts the machine down. Any other process becomes a zombie: it leaves the
/// table, its parent's record of it shows the exit code, its children pass to the idle
/// process, every thread is forgotten and gives back its user resources, and its areas
/// are dropped. `keys[i]` is the key under which thread `i` is scheduled.
pub fn exit_current_and_run_next(
    current: &mut ProcessControlBlock,
    mem: &mut PhysMem,
    table: &mut ProcessTable,
    manager: &mut TaskManager,
    timers: &mut Vec<TimerCondVar>,
    keys: &Vec<usize>,
    tid: usize,
    exit_code: i32,
) -> (r: ExitAction)
    requires
        old(current).inner.wf(old(mem)),
        threads_ok(&old(current).inner),
        keys@.len() >= old(current).inner.tasks@.len(),
        tid < old(current).inner.tasks@.len(),
        old(current).inner.tasks@[tid as int] is Some,
        old(current).inner.parent != Some(old(current).pid.0),
        forall|j: int| 0 <= j < old(current).inner.children@.len() ==> (#[trigger] old(current).inner.children@[j]).pid
            != old(current).pid.0 && old(current).inner.children@[j].pid != IDLE_PID,
    ensures
        final(current).inner.wf(final(mem)),
        final(current).pid == old(current).pid,
        final(current).inner.tasks@.len() == old(current).inner.tasks@.len(),
        final(current).inner.tasks@[tid as int] matches Some(t) && t.exit_code == Some(exit_code),
        tid != 0 ==> {
            &&& r == ExitAction::Schedule
            &&& final(current).inner.tasks@ == old(current).inner.tasks@.update(
                tid as int,
                Some(ThreadControlBlock { exit_code: Some(exit_code), ..old(current).inner.tasks@[tid as int]->0 }),
            )
            &&& final(current).inner.memory_set == old(current).inner.memory_set
            &&& final(current).inner.children@ == old(current).inner.children@
            &&& final(current).inner.is_zombie == old(current).inner.is_zombie
            &&& final(current).inner == (ProcessControlBlockInner { tasks: final(current).inner.tasks, ..old(current).inner })
            &&& final(table)@ == old(table)@
            &&& final(manager).ready() == old(manager).ready()
            &&& final(manager).stopped() == old(manager).stopped()
            &&& final(timers)@ == old(timers)@
        },
        tid == 0 && old(current).pid.0 == IDLE_PID ==> {
            &&& r == ExitAction::Shutdown(exit_code != 0)
            &&& final(manager).stopped() == old(manager).stopped().push(keys@[0])
            &&& final(manager).ready() == old(manager).ready()
            &&& final(timers)@ == old(timers)@
            &&& final(current).inner.tasks@[0]->0.res is None
        },
        tid == 0 && old(current).pid.0 != IDLE_PID ==> {
            let pid = old(current).pid.0;
            let old_kids = old(current).inner.children@;
            &&& r == ExitAction::Schedule
            &&& final(current).inner.is_zombie
            &&& final(current).inner.exit_code == exit_code
            &&& final(current).inner.children@.len() == 0
            &&& final(current).inner.memory_set.views() == Seq::<AreaView>::empty()
            &&& forall|i: int| 0 <= i < final(current).inner.tasks@.len() ==> ((#[trigger] final(current).inner.tasks@[i]) matches Some(t)
                ==> t.res is None)
            &&& final(manager).stopped() == old(manager).stopped().push(keys@[0])
            &&& final(manager).ready() == ready_without_threads(
                old(manager).ready(),
                old(current).inner.tasks@,
                keys@,
                old(current).inner.tasks@.len() as int,
            )
            &&& final(timers)@ == timers_without_threads(
                old(timers)@,
                old(current).inner.tasks@,
                keys@,
                old(current).inner.tasks@.len() as int,
            )
            &&& !final(table)@.contains_key(pid)
            &&& old(table)@.contains_key(IDLE_PID) ==> {
                let init0 = old(table)@[IDLE_PID].inner.children@;
                &&& final(table)@.contains_key(IDLE_PID)
                &&& final(table)@[IDLE_PID].inner.children@ == (if old(current).inner.parent == Some(IDLE_PID) {
                    mark_exited(init0, pid, exit_code)
                } else {
                    init0
                }) + old_kids
            }
            &&& forall|pp: usize|
                old(current).inner.parent == Some(pp) && pp != IDLE_PID && #[trigger] old(table)@.contains_key(pp) && (forall|j: int|
                    0 <= j < old_kids.len() ==> old_kids[j].pid != pp) ==> {
                    &&& final(table)@.contains_key(pp)
                    &&& final(table)@[pp].inner.children@ == mark_exited(old(table)@[pp].inner.children@, pid, exit_code)
                    &&& forall|j: int|
                        0 <= j < final(table)@[pp].inner.children@.len() && (#[trigger] final(table)@[pp].inner.children@[j]).pid
                            == pid ==> final(table)@[pp].inner.children@[j].is_zombie && final(table)@[pp].inner.children@[j].exit_code
                            == exit_code
                }
            &&& forall|j: int| 0 <= j < old_kids.len() && old(table)@.contains_key(#[trigger] old_kids[j].pid) ==> {
                &&& final(table)@.contains_key(old_kids[j].pid)
                &&& final(table)@[old_kids[j].pid].inner.parent == Some(IDLE_PID)
            }
        },
{
    let pid = current.pid.0;
    let inner = current.inner_exclusive_access();
    let mut thread = inner.tasks.remove(tid).unwrap();
    thread.exit_code = Some(exit_code);
    if tid != 0 {
        inner.tasks.insert(tid, Some(thread));
        proof {
            assert(inner.tasks@ =~= old(current).inner.tasks@.update(
                tid as int,
                Some(ThreadControlBlock { exit_code: Some(exit_code), ..old(current).inner.tasks@[tid as int]->0 }),
            ));
        }
        return ExitAction::Schedule;
    }
    let res = thread.res.take();
    inner.tasks.insert(tid, Some(thread));
    match res {
        Some(res) => {
            res.release(inner, mem);
        },
        None => {},
    }
    manager.add_stop(keys[0]);
    if pid == IDLE_PID {
        return ExitAction::Shutdown(exit_code != 0);
    }
    let _ = remove_from_pid2process(table, pid);
    inner.is_zombie = true;
    inner.exit_code = exit_code;
    match inner.parent {
        Some(parent) => notify_parent(table, parent, pid, exit_code),
        None => {},
    }
    let ghost t1 = table@;
    let initproc = remove_from_pid2process(table, IDLE_PID);
    let ghost t3 = table@;
    reparent_children(table, &inner.children);
    let ghost t4 = table@;
    proof {
        let old_kids = old(current).inner.children@;
        assert(inner.children@ == old_kids);
        assert forall|j: int| 0 <= j < old_kids.len() && old(table)@.contains_key(#[trigger] old_kids[j].pid) implies {
            &&& t4.contains_key(old_kids[j].pid)
            &&& t4[old_kids[j].pid].inner.parent == Some(IDLE_PID)
        } by {
            let q = old_kids[j].pid;
            assert(q != pid && q != IDLE_PID);
            assert(t1.contains_key(q));
            assert(t3.contains_key(q));
            assert(exists|i: int| 0 <= i < inner.children@.len() && inner.children@[i].pid == q);
        }
    }
    match initproc {
        Some(mut p) => {
            let mut k: usize = 0;
            let ghost c0 = p.inner.children@;
            while k < inner.children.len()
                invariant
                    0 <= k <= inner.children@.len(),
                    p.inner.children@ == c0 + inner.children@.take(k as int),
                decreases inner.children@.len() - k,
            {
                p.inner.children.push(inner.children[k]);
                proof {
                    assert(inner.children@.take(k as int + 1) =~= inner.children@.take(k as int).push(inner.children@[k as int]));
                }
                k = k + 1;
            }
            proof {
                assert(inner.children@.take(inner.children@.len() as int) =~= inner.children@);
            }
            table.procs.insert(IDLE_PID, p);
        },
        None => {},
    }
    let ghost t2 = table@;
    proof {
        assert forall|i: int| 0 <= i < inner.tasks@.len() implies (#[trigger] inner.tasks@[i] is Some) == (
        old(current).inner.tasks@[i] is Some) by {}
        lemma_without_threads_slots(
            manager.ready(),
            timers@,
            inner.tasks@,
            old(current).inner.tasks@,
            keys@,
            inner.tasks@.len() as int,
        );
    }
    release_threads(inner, mem, manager, timers, keys);
    inner.children.clear();
    inner.memory_set.recycle_data_pages();
    proof {
        let old_kids = old(current).inner.children@;
        assert(!table@.contains_key(pid));
        if old(table)@.contains_key(IDLE_PID) {
            assert(table@.contains_key(IDLE_PID));
        }
        assert(forall|j: int| 0 <= j < old_kids.len() && old(table)@.contains_key(#[trigger] old_kids[j].pid) ==> {
            &&& table@.contains_key(old_kids[j].pid)
            &&& table@[old_kids[j].pid].inner.parent == Some(IDLE_PID)
        });
        if old(table)@.contains_key(IDLE_PID) {
            let init0 = old(table)@[IDLE_PID].inner.children@;
            assert(table@[IDLE_PID].inner.children@ == (if old(current).inner.parent == Some(IDLE_PID) {
                mark_exited(init0, pid, exit_code)
            } else {
                init0
            }) + old_kids);
        }
        assert forall|pp: usize|
            old(current).inner.parent == Some(pp) && pp != IDLE_PID && #[trigger] old(table)@.contains_key(pp) && (forall|j: int|
                0 <= j < old_kids.len() ==> old_kids[j].pid != pp) implies {
                &&& table@.contains_key(pp)
                &&& table@[pp].inner.children@ == mark_exited(old(table)@[pp].inner.children@, pid, exit_code)
                &&& forall|j: int|
                    0 <= j < table@[pp].inner.children@.len() && (#[trigger] table@[pp].inner.children@[j]).pid == pid
                        ==> table@[pp].inner.children@[j].is_zombie && table@[pp].inner.children@[j].exit_code == exit_code
            } by {
            assert(t3.contains_key(pp));
            assert(!exists|j: int| 0 <= j < old_kids.len() && old_kids[j].pid == pp);
            assert(t4[pp] == t3[pp]);
            assert(t3[pp] == t1[pp]);
            lemma_mark_exited(old(table)@[pp].inner.children@, pid, exit_code);
        }
        assert(inner.memory_set.views() == Seq::<AreaView>::empty());
        assert(forall|i: int| 0 <= i < inner.tasks@.len() ==> ((#[trigger] inner.tasks@[i]) matches Some(t) ==> t.res is None));
    }
    ExitAction::Schedule
}

/// Make the first process: the program in the file `initproc` of the root directory,
/// made as `ProcessControlBlock::new` makes a process, entered in `table` under its pid,
/// which is returned, with its thread, under `thread_key`, at the end of the ready
/// queue. `None`, with nothing entered, when there is no such file or the program
/// cannot be loaded so; the directory is left as it was.
pub fn add_initproc(
    root: &mut RootInode,
    mem: &mut PhysMem,
    pids: &mut RecycleAllocator,
    kernel_stack: KernelStack,
    kernel_token: usize,
    trap_handler: usize,
    sstatus: usize,
    strampoline: usize,
    table: &mut ProcessTable,
    manager: &mut TaskManager,
    thread_key: usize,
) -> (r: Option<usize>)
    requires
        old(root).wf(),
        old(mem).wf(),
        old(pids).wf(),
        old(pids).released().len() == 0 ==> old(pids).next_fresh() < usize::MAX,
        kernel_stack.0 * kstack_slot() + KERNEL_STACK_SIZE <= TRAMPOLINE,
    ensures
        final(root).wf(),
        final(root).entries@.len() == old(root).entries@.len(),
        forall|j: int|
            0 <= j < old(root).entries@.len() ==> #[trigger] final(root).entries@[j].name@ == old(root).entries@[j].name@
                && final(root).content(j) == old(root).content(j),
        r is Some <==> (old(root).lookup("initproc"@) matches Some(i) && process_loadable(old(mem), old(root).content(i), 0)),
        r is None ==> *final(mem) == *old(mem) && *final(pids) == *old(pids) && final(table)@ == old(table)@
            && final(manager).ready() == old(manager).ready(),
        r matches Some(pid) ==> final(table)@ == old(table)@.insert(pid, final(table)@[pid]) && final(manager).ready()
            == old(manager).ready().push(thread_key) && final(manager).stopped() == old(manager).stopped() && final(table)@[pid].pid.0 == pid,
        r matches Some(pid) ==> new_process(
            &final(table)@[pid],
            old(mem),
            final(mem),
            old(pids),
            final(pids),
            old(root).content(old(root).lookup("initproc"@)->0),
            kernel_stack,
            kernel_token,
            trap_handler,
            sstatus,
            strampoline,
        ),
{
    let name = String::from_str("initproc");
    let ghost r0 = *root;
    proof {
        assert(0u32 & 0x200u32 != 0x200u32) by (bit_vector);
        assert(0u32 & 0x400u32 != 0x400u32) by (bit_vector);
    }
    let mut inode = match open_file(root, &name, OpenFlags { bits: O_RDONLY }) {
        Some(f) => f,
        None => {
            return None;
        },
    };
    proof {
        let i = r0.lookup(name@)->0;
        assert(r0.lookup(name@) is Some);
        assert forall|j: int| 0 <= j < r0.entries@.len() implies #[trigger] root.entries@[j].name@ == r0.entries@[j].name@
            && root.content(j) == r0.content(j) by {
            if j == i {
                assert(r0.entries@[i].name@ == name@);
            }
        }
    }
    let data = inode.read_all(root);
    proof {
        let i = r0.lookup(name@)->0;
        assert(data@ =~= r0.content(i));
    }
    match ProcessControlBlock::new(mem, data.as_slice(), pids, kernel_stack, kernel_token, trap_handler, sstatus, strampoline) {
        Some(process) => {
            let pid = process.getpid();
            insert_into_pid2process(table, pid, process);
            manager.add(thread_key);
            Some(pid)
        },
        None => None,
    }
}

} // verus!
