//! Thread system calls.
use vstd::prelude::*;
use crate::config::{TRAMPOLINE, TRAP_CONTEXT_SIZE, KERNEL_STACK_SIZE};
use crate::manager::TaskManager;
use crate::mem_set::{MapType, range_unmapped};
use crate::page_table::PhysMem;
use crate::pid::{KernelStack, kstack_slot, ustack_slot, next_alloc};
use crate::task::{ProcessControlBlock, ThreadControlBlock, TaskStatus, tid_fits, ustack_page};
use crate::trap::TrapContext;

verus! {

/// The id of the calling thread, or `-1` when it holds no user resources.
pub fn sys_gettid(current: &ThreadControlBlock) -> (r: isize)
    ensures
        r == match current.res {
            Some(res) => res.tid as isize,
            None => -1isize,
        },
{
    match &current.res {
        Some(res) => #[verifier::truncate] (res.tid as isize),
        None => -1,
    }
}

/// Wait for thread `tid` of the process. `-1` when the caller holds no user resources,
/// `tid` is the caller itself or names no thread; `-2` while the thread runs; once it
/// has exited, its exit code: the thread leaves the table, its id, user stack and trap
/// context go back to the process, and its kernel stack is handed to the caller to be
/// given back to the kernel address space.
pub fn sys_waittid(process: &mut ProcessControlBlock, mem: &mut PhysMem, current: &ThreadControlBlock, tid: usize) -> (r: (i32, Option<KernelStack>))
    requires
        old(process).inner.wf(old(mem)),
        tid < old(process).inner.tasks@.len() ==> (old(process).inner.tasks@[tid as int] matches Some(t) ==> (t.res matches Some(
            res,
        ) ==> tid_fits(res.tid as int) && old(process).inner.task_res_allocator.allocated().contains(res.tid as int))),
    ensures
        final(process).inner.wf(final(mem)),
        final(process).pid == old(process).pid,
        ({
            let ts = old(process).inner.tasks@;
            if current.res is None || tid >= ts.len() || current.res->0.tid == tid || ts[tid as int] is None {
                r == (-1i32, None::<KernelStack>) && *final(process) == *old(process) && *final(mem) == *old(mem)
            } else if ts[tid as int]->0.exit_code is None {
                r == (-2i32, None::<KernelStack>) && *final(process) == *old(process) && *final(mem) == *old(mem)
            } else {
                let t = ts[tid as int]->0;
                &&& r.0 == t.exit_code->0
                &&& r.1 == Some(t.kernel_stack)
                &&& final(process).inner.tasks@ == ts.update(tid as int, None)
                &&& t.res matches Some(res) ==> final(process).inner.task_res_allocator.allocated()
                    == old(process).inner.task_res_allocator.allocated().remove(res.tid as int)
                &&& t.res is None ==> final(process).inner.memory_set == old(process).inner.memory_set
            }
        }),
        final(process).inner.fd_table@ == old(process).inner.fd_table@,
{
    let current_tid = match &current.res {
        Some(res) => res.tid,
        None => {
            return (-1, None);
        },
    };
    let inner = process.inner_exclusive_access();
    if tid >= inner.tasks.len() {
        return (-1, None);
    }
    if current_tid == tid {
        return (-1, None);
    }
    let exit_code = match &inner.tasks[tid] {
        Some(waited) => waited.exit_code,
        None => {
            return (-1, None);
        },
    };
    match exit_code {
        Some(code) => {
            let recycled = inner.tasks.remove(tid);
            inner.tasks.insert(tid, None);
            let t = recycled.unwrap();
            proof {
                assert(inner.tasks@ =~= old(process).inner.tasks@.update(tid as int, None));
            }
            let kernel_stack = t.kernel_stack;
            match t.res {
                Some(res) => res.release(inner, mem),
                None => {},
            }
            (code, Some(kernel_stack))
        },
        None => (-2, None),
    }
}

/// Create a thread of the process that starts at `entry` with `arg` in `a0`, on the
/// kernel stack `kernel_stack`, and queue it under `thread_key`: its thread id, or `-1`
/// when the caller holds no user resources. The new thread gets the next thread id,
/// its user stack and trap context are mapped, and its trap context starts it in user
/// mode with `sstatus`, the kernel token `kernel_token` and the handler `trap_handler`.
pub fn sys_thread_create(
    process: &mut ProcessControlBlock,
    mem: &mut PhysMem,
    manager: &mut TaskManager,
    current: &ThreadControlBlock,
    kernel_stack: KernelStack,
    thread_key: usize,
    kernel_token: usize,
    trap_handler: usize,
    sstatus: usize,
    entry: usize,
    arg: usize,
) -> (r: isize)
    requires
        old(process).inner.wf(old(mem)),
        old(process).inner.task_res_allocator.released().len() == 0 ==> old(process).inner.task_res_allocator.next_fresh()
            < usize::MAX,
        tid_fits(next_alloc(old(process).inner.task_res_allocator)),
        range_unmapped(
            old(mem),
            old(process).inner.memory_set.root(),
            ustack_page(next_alloc(old(process).inner.task_res_allocator)),
            ustack_page(next_alloc(old(process).inner.task_res_allocator)) + 2,
        ),
        old(mem).free_frames() >= 6,
        kernel_stack.0 * kstack_slot() + KERNEL_STACK_SIZE <= TRAMPOLINE,
    ensures
        final(process).inner.wf(final(mem)),
        final(process).pid == old(process).pid,
        current.res is None ==> r == -1 && *final(process) == *old(process) && *final(mem) == *old(mem) && *final(manager)
            == *old(manager),
        current.res is Some ==> {
            let t = next_alloc(old(process).inner.task_res_allocator);
            let ts = old(process).inner.tasks@;
            let nts = final(process).inner.tasks@;
            let p = ustack_page(t);
            &&& r == t
            &&& final(manager).ready() == old(manager).ready().push(thread_key)
            &&& nts.len() == if ts.len() > t { ts.len() as int } else { t + 1 }
            &&& forall|i: int| 0 <= i < ts.len() && i != t ==> #[trigger] nts[i] == ts[i]
            &&& forall|i: int| ts.len() <= i < t ==> #[trigger] nts[i] is None
            &&& nts[t] matches Some(th) && {
                &&& th.res matches Some(res) && res.tid == t
                &&& th.kernel_stack == kernel_stack
                &&& th.task_status == TaskStatus::Ready
                &&& th.exit_code is None
                &&& th.trap_cx.sepc == entry
                &&& th.trap_cx.x@ == Seq::new(32, |i: int| 0usize).update(2, (TRAMPOLINE - TRAP_CONTEXT_SIZE - t * ustack_slot()) as usize).update(10, arg)
                &&& th.trap_cx.sstatus == sstatus
                &&& th.trap_cx.kernel_satp == kernel_token
                &&& th.trap_cx.kernel_sp == TRAMPOLINE - kernel_stack.0 * kstack_slot()
                &&& th.trap_cx.trap_handler == trap_handler
            }
            &&& final(process).inner.memory_set.views() == old(process).inner.memory_set.views().push(
                (p as usize, (p + 1) as usize, MapType::Framed, 22u8),
            ).push(((p + 1) as usize, (p + 2) as usize, MapType::Framed, 6u8))
            &&& final(process).inner.task_res_allocator.allocated() == old(process).inner.task_res_allocator.allocated().insert(t)
        },
{
    if current.res.is_none() {
        return -1;
    }
    let kstack_top = kernel_stack.get_top();
    let inner = process.inner_exclusive_access();
    let mut new_task = ThreadControlBlock::new(inner, mem, kernel_stack, true);
    manager.add(thread_key);
    let new_task_tid = new_task.res.as_ref().unwrap().tid;
    let ustack_top = new_task.res.as_ref().unwrap().ustack_top();
    let ghost ts = inner.tasks@;
    let ghost i0 = *inner;
    proof {
        assert(new_task_tid < usize::MAX) by (nonlinear_arith)
            requires
                tid_fits(new_task_tid as int),
                ustack_slot() == 12288,
        ;
    }
    let need = new_task_tid + 1;
    while inner.tasks.len() < need
        invariant
            need == new_task_tid + 1,
            ts == old(process).inner.tasks@,
            ts == i0.tasks@,
            *inner == (crate::task::ProcessControlBlockInner { tasks: inner.tasks, ..i0 }),
            inner.tasks@.len() <= if ts.len() > new_task_tid { ts.len() as int } else { new_task_tid + 1 },
            inner.tasks@.len() >= ts.len(),
            forall|i: int| 0 <= i < ts.len() ==> #[trigger] inner.tasks@[i] == ts[i],
            forall|i: int| ts.len() <= i < inner.tasks@.len() ==> #[trigger] inner.tasks@[i] is None,
            tid_fits(new_task_tid as int),
        decreases new_task_tid + 1 - inner.tasks@.len(),
    {
        inner.tasks.push(None);
    }
    let cx = new_task.get_trap_cx();
    *cx = TrapContext::app_init_context(entry, ustack_top, kernel_token, kstack_top, trap_handler, sstatus);
    cx.x[10] = arg;
    inner.tasks.set(new_task_tid, Some(new_task));
    proof {
        assert(new_task_tid <= isize::MAX) by (nonlinear_arith)
            requires
                tid_fits(new_task_tid as int),
                ustack_slot() == 12288,
        ;
        let nts = inner.tasks@;
        assert(nts.len() == if ts.len() > new_task_tid { ts.len() as int } else { new_task_tid + 1 });
        assert(forall|i: int| 0 <= i < ts.len() && i != new_task_tid ==> #[trigger] nts[i] == ts[i]);
        assert(forall|i: int| ts.len() <= i < new_task_tid ==> #[trigger] nts[i] is None);
        let th = nts[new_task_tid as int]->0;
        assert(th.trap_cx.sepc == entry);
        assert(th.trap_cx.x@ == Seq::new(32, |i: int| 0usize).update(2, ustack_top).update(10, arg));
        assert(th.trap_cx.kernel_sp == kstack_top);
    }
    #[verifier::truncate] (new_task_tid as isize)
}

} // verus!
