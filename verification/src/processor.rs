//! Operations on the running process and thread, which the caller names.
use vstd::prelude::*;
use crate::addr::{page_floor, page_ceil};
use crate::config::TRAMPOLINE;
use crate::error::{KernelError, KernelResult};
use crate::mem_set::{MapPermission, MapType, MAP_U, any_overlap, first_at, unmap_result};
use crate::page_table::{PhysMem, walk};
use crate::pid::ustack_slot;
use crate::config::TRAP_CONTEXT_SIZE;
use crate::task::{ProcessControlBlock, ThreadControlBlock, tid_fits};

verus! {

/// The `satp` token of the running process's address space.
pub fn current_user_token(process: &ProcessControlBlock) -> (r: usize)
    ensures
        r == ((8u64 << 60u64) | (process.inner.memory_set.root() as u64)) as usize,
{
    process.inner.get_user_token()
}

/// The user address of the running thread's trap context; the thread must still hold
/// its user resources.
pub fn current_trap_cx_user_va(thread: &ThreadControlBlock) -> (r: usize)
    requires
        thread.res is Some,
        tid_fits(thread.res->0.tid as int),
    ensures
        r == TRAMPOLINE - TRAP_CONTEXT_SIZE - thread.res->0.tid * ustack_slot(),
{
    thread.res.as_ref().unwrap().trap_cx_user_va()
}

/// Move the end of the running process's heap by `size` bytes; the old end on success.
pub fn change_program_brk(process: &mut ProcessControlBlock, mem: &mut PhysMem, size: i32) -> (r: KernelResult<usize>)
    requires
        old(process).inner.wf(old(mem)),
        old(process).inner.brk_target(size) <= isize::MAX,
        old(process).inner.brk_ready(old(mem), size),
    ensures
        final(process).inner.wf(final(mem)),
        final(process).pid == old(process).pid,
        ({
            let inner = old(process).inner;
            let nb = inner.brk_target(size);
            let v = inner.memory_set.views();
            if nb < inner.heap_bottom {
                r == Err::<usize, KernelError>(KernelError::ReleaseTooMuch) && *final(process) == *old(process)
            } else {
                match first_at(v, page_floor(inner.heap_bottom as int)) {
                    Some(i) => {
                        &&& r == Ok::<usize, KernelError>(inner.program_brk)
                        &&& final(process).inner.program_brk == nb
                        &&& final(process).inner.memory_set.views() == v.update(
                            i,
                            (v[i].0, page_ceil(nb) as usize, v[i].2, v[i].3),
                        )
                    },
                    None => {
                        &&& r == Err::<usize, KernelError>(
                            if size < 0 {
                                KernelError::ShrinkVirtAddrNotFound
                            } else {
                                KernelError::AppendVirtAddrNotFound
                            },
                        )
                        &&& *final(process) == *old(process)
                    },
                }
            }
        }),
        final(process).inner.heap_bottom == old(process).inner.heap_bottom,
{
    process.inner_exclusive_access().change_program_brk(mem, size)
}

/// Map `[start, end)` into the running process with permission bits `prot`: `0` on
/// success, `-1` when the range is empty, reaches the trampoline or meets an area.
pub fn mmap_current(process: &mut ProcessControlBlock, mem: &mut PhysMem, start: usize, end: usize, prot: usize) -> (r: isize)
    requires
        old(process).inner.wf(old(mem)),
        MapPermission::known_bits(#[verifier::truncate] (prot as u8)),
        old(process).inner.mmap_ready(old(mem), start as int, end as int),
    ensures
        final(process).inner.wf(final(mem)),
        final(process).pid == old(process).pid,
        r == 0 || r == -1,
        r == -1 <==> (start >= TRAMPOLINE || end > TRAMPOLINE || start >= end || any_overlap(
            old(process).inner.memory_set.views(),
            page_floor(start as int),
            page_ceil(end as int),
        )),
        r == -1 ==> *final(process) == *old(process) && *final(mem) == *old(mem),
        r == 0 ==> final(process).inner.memory_set.views() == old(process).inner.memory_set.views().push(
            (
                page_floor(start as int) as usize,
                page_ceil(end as int) as usize,
                MapType::Framed,
                (#[verifier::truncate] (prot as u8)) | MAP_U,
            ),
        ),
        r == 0 ==> crate::mem_set::fresh_range(
            final(mem),
            final(process).inner.memory_set.root(),
            page_floor(start as int),
            page_ceil(end as int),
            old(mem).nframes() as int,
        ),
        r == 0 ==> forall|w: int|
            crate::mem_set::untouched(w, page_floor(start as int), page_ceil(end as int)) ==> #[trigger] walk(
                final(mem),
                final(process).inner.memory_set.root(),
                w,
            ) == walk(old(mem), old(process).inner.memory_set.root(), w),
{
    let r = process.inner_exclusive_access().mmap(mem, start, end, prot);
    if r < 0 {
        -1
    } else {
        0
    }
}

/// Unmap the pages of the running process that cover `[start, end)`; `0`.
pub fn munmap_current(process: &mut ProcessControlBlock, mem: &mut PhysMem, start: usize, end: usize) -> (r: isize)
    requires
        old(process).inner.wf(old(mem)),
        start <= end,
    ensures
        r == 0,
        final(process).inner.wf(final(mem)),
        final(process).pid == old(process).pid,
        final(process).inner.memory_set.views() == unmap_result(
            old(process).inner.memory_set.views(),
            page_floor(start as int),
            page_ceil(end as int),
        ),
        forall|u: int|
            page_floor(start as int) <= u < page_ceil(end as int) && old(process).inner.memory_set.covers(u)
                ==> #[trigger] walk(final(mem), final(process).inner.memory_set.root(), u).is_none(),
        forall|w: int|
            crate::mem_set::clear_of_range(&old(process).inner.memory_set, page_floor(start as int), page_ceil(end as int), w)
                ==> #[trigger] walk(final(mem), final(process).inner.memory_set.root(), w) == walk(
                old(mem),
                old(process).inner.memory_set.root(),
                w,
            ),
{
    let r = process.inner_exclusive_access().munmap(mem, start, end);
    if r < 0 {
        -1
    } else {
        0
    }
}

} // verus!
