//! Processes and threads: their control blocks and the per-process tables of
//! descriptors, threads and synchronisation objects.
use vstd::prelude::*;
use crate::addr::{PhysPageNum, VirtAddr, page_floor, page_ceil};
use crate::error::{KernelError, KernelResult};
use crate::fs::{FileDesc, first_free, is_first_none};
use crate::mem_set::{MemorySet, AreaView, first_at, range_unmapped, distinct_slots, trampoline_vpn, untouched, page_byte, total_pages};
use crate::page_table::{PhysMem, PageTable, walk, same_slot, leaf_entry, PTEFlags, PTE_R, PTE_X};
use crate::pid::{Pid, RecycleAllocator, KernelStack, user_stack_position, user_trap_cx_position, ustack_slot, next_alloc, pid_alloc, kstack_slot};
use crate::config::KERNEL_STACK_SIZE;
use crate::signal::SignalFlags;
use crate::sync::{Mutex, MutexBlocking, MutexSpin, MutexObject, Semaphore, Condvar};
use crate::config::{TRAMPOLINE, TRAP_CONTEXT_SIZE, USER_STACK_SIZE, PAGE_SIZE};
use crate::mem_set::{MapPermission, MapType, MAP_R, MAP_W, MAP_U};
use crate::trap::TrapContext;
use crate::mem_set::{
    elf_segments, elf_segments_of, elf_readable, elf_pages, load_span, loaded_from, loaded_byte, segment_views,
    segment_regions, heap_view, heap_page, in_region, clear_of_regions, lemma_segments_loadable, lemma_load_prefix,
    segments_loadable,
};
use crate::elf::{ElfSegment, SEG_LOAD, load_segments, lemma_load_segments_take, lemma_load_segments_len};
use vstd::string::StringExecFns;
use crate::args::{arg_bytes, args_fit, argv_base, exec_sp, laid_out, write_args};
use crate::addr::VirtPageNum;

verus! {

/// The scheduling state of a thread.
#[derive(Clone, Copy, Debug, PartialEq, Eq, Structural)]
pub enum TaskStatus {
    /// Waiting in the ready queue.
    Ready,
    /// On the processor.
    Running,
    /// Waiting for an event.
    Blocked,
}

/// The user resources of a thread: its id, which places its user stack and trap context.
pub struct ThreadUserRes {
    /// The thread id within its process.
    pub tid: usize,
}

/// Thread ids whose user stack and trap context fit below the trampoline.
pub open spec fn tid_fits(tid: int) -> bool {
    0 <= tid && TRAP_CONTEXT_SIZE + tid * ustack_slot() + USER_STACK_SIZE <= TRAMPOLINE
}

/// The first page of thread `tid`'s user stack; its trap context takes the next page.
pub open spec fn ustack_page(tid: int) -> int {
    (TRAMPOLINE - TRAP_CONTEXT_SIZE - tid * ustack_slot() - USER_STACK_SIZE) / 4096
}

/// The stack and trap-context slots of a fitting thread id are page aligned and lie
/// below the trampoline page.
proof fn lemma_slot_pages(tid: int)
    requires
        tid_fits(tid),
    ensures
        (TRAMPOLINE - TRAP_CONTEXT_SIZE - tid * ustack_slot() - USER_STACK_SIZE) % 4096 == 0,
        page_floor(TRAMPOLINE - TRAP_CONTEXT_SIZE - tid * ustack_slot() - USER_STACK_SIZE) == ustack_page(tid),
        page_ceil(TRAMPOLINE - TRAP_CONTEXT_SIZE - tid * ustack_slot()) == ustack_page(tid) + 1,
        page_floor(TRAMPOLINE - TRAP_CONTEXT_SIZE - tid * ustack_slot()) == ustack_page(tid) + 1,
        page_ceil(TRAMPOLINE - tid * ustack_slot()) == ustack_page(tid) + 2,
        ustack_page(tid) + 2 <= crate::mem_set::trampoline_vpn(),
        0 <= ustack_page(tid),
{
    crate::config::lemma_config_consistent();
    let b = TRAMPOLINE - TRAP_CONTEXT_SIZE - tid * ustack_slot() - USER_STACK_SIZE;
    assert(ustack_slot() == 12288);
    assert((tid * 12288) % 4096 == 0) by (nonlinear_arith)
        requires
            tid >= 0,
    ;
    assert(b % 4096 == 0) by (nonlinear_arith)
        requires
            b == TRAMPOLINE - 8192 - tid * 12288,
            TRAMPOLINE % 4096 == 0,
            (tid * 12288) % 4096 == 0,
    ;
    assert(usize::MAX as int / 4096 == TRAMPOLINE / 4096) by (nonlinear_arith)
        requires
            TRAMPOLINE == usize::MAX - 4095,
            TRAMPOLINE % 4096 == 0,
    ;
}

/// Leaf slots of neighbouring pages differ.
proof fn lemma_next_page_slot(v: int)
    requires
        0 <= v,
    ensures
        !crate::page_table::same_slot(v + 1, v),
{
}

impl ThreadUserRes {
    /// The user address of the thread's trap context.
    pub fn trap_cx_user_va(&self) -> (r: usize)
        requires
            tid_fits(self.tid as int),
        ensures
            r == TRAMPOLINE - TRAP_CONTEXT_SIZE - self.tid * ustack_slot(),
    {
        user_trap_cx_position(self.tid).0
    }

    /// The top of the thread's user stack.
    pub fn ustack_top(&self) -> (r: usize)
        requires
            tid_fits(self.tid as int),
        ensures
            r == TRAMPOLINE - TRAP_CONTEXT_SIZE - self.tid * ustack_slot(),
    {
        user_stack_position(self.tid).1
    }

    /// Unmap the thread's user stack and trap context from the process's address space.
    pub fn dealloc_user_res(&self, inner: &mut ProcessControlBlockInner, mem: &mut PhysMem)
        requires
            old(inner).wf(old(mem)),
            tid_fits(self.tid as int),
        ensures
            final(inner).wf(final(mem)),
            final(inner).memory_set.views() == crate::mem_set::unmap_result(
                crate::mem_set::unmap_result(
                    old(inner).memory_set.views(),
                    ustack_page(self.tid as int),
                    ustack_page(self.tid as int) + 1,
                ),
                ustack_page(self.tid as int) + 1,
                ustack_page(self.tid as int) + 2,
            ),
            *final(inner) == (ProcessControlBlockInner { memory_set: final(inner).memory_set, ..*old(inner) }),
    {
        proof {
            lemma_slot_pages(self.tid as int);
        }
        let (user_stack_bottom, user_stack_top) = user_stack_position(self.tid);
        inner.munmap(mem, user_stack_bottom, user_stack_top);
        let (trap_cx_bottom, trap_cx_top) = user_trap_cx_position(self.tid);
        inner.munmap(mem, trap_cx_bottom, trap_cx_top);
    }

    /// Give the thread id back to the process.
    pub fn dealloc_tid(&self, inner: &mut ProcessControlBlockInner)
        requires
            old(inner).task_res_allocator.wf(),
            old(inner).task_res_allocator.allocated().contains(self.tid as int),
        ensures
            final(inner).task_res_allocator.wf(),
            final(inner).task_res_allocator.allocated() == old(inner).task_res_allocator.allocated().remove(
                self.tid as int,
            ),
            *final(inner) == (ProcessControlBlockInner { task_res_allocator: final(inner).task_res_allocator, ..*old(inner) }),
    {
        inner.dealloc_tid(self.tid);
    }

    /// Give back everything the thread holds: its id, then its stack and trap context.
    pub fn release(self, inner: &mut ProcessControlBlockInner, mem: &mut PhysMem)
        requires
            old(inner).wf(old(mem)),
            tid_fits(self.tid as int),
            old(inner).task_res_allocator.allocated().contains(self.tid as int),
        ensures
            final(inner).wf(final(mem)),
            final(inner).task_res_allocator.allocated() == old(inner).task_res_allocator.allocated().remove(
                self.tid as int,
            ),
            final(inner).memory_set.views() == crate::mem_set::unmap_result(
                crate::mem_set::unmap_result(
                    old(inner).memory_set.views(),
                    ustack_page(self.tid as int),
                    ustack_page(self.tid as int) + 1,
                ),
                ustack_page(self.tid as int) + 1,
                ustack_page(self.tid as int) + 2,
            ),
            *final(inner) == (ProcessControlBlockInner {
                memory_set: final(inner).memory_set,
                task_res_allocator: final(inner).task_res_allocator,
                ..*old(inner)
            }),
    {
        self.dealloc_tid(inner);
        self.dealloc_user_res(inner, mem);
    }

    /// The frame that holds the thread's trap context, whose page must be mapped.
    pub fn trap_cx_ppn(&self, inner: &ProcessControlBlockInner, mem: &PhysMem) -> (r: PhysPageNum)
        requires
            inner.wf(mem),
            tid_fits(self.tid as int),
            walk(mem, inner.memory_set.root(), ustack_page(self.tid as int) + 1).is_some(),
        ensures
            r.0 == walk(mem, inner.memory_set.root(), ustack_page(self.tid as int) + 1).unwrap().spec_ppn() as usize,
    {
        proof {
            lemma_slot_pages(self.tid as int);
        }
        let trap_cx_bottom_va = VirtAddr(user_trap_cx_position(self.tid).0);
        inner.memory_set.translate(mem, trap_cx_bottom_va.floor()).unwrap().ppn()
    }

    /// Take a new thread id from the process.
    pub fn alloc_tid(&mut self, inner: &mut ProcessControlBlockInner)
        requires
            old(inner).task_res_allocator.wf(),
            old(inner).task_res_allocator.released().len() == 0 ==> old(inner).task_res_allocator.next_fresh()
                < usize::MAX,
        ensures
            final(self).tid == next_alloc(old(inner).task_res_allocator),
            final(inner).task_res_allocator.wf(),
            final(inner).task_res_allocator.allocated() == old(inner).task_res_allocator.allocated().insert(
                final(self).tid as int,
            ),
            *final(inner) == (ProcessControlBlockInner { task_res_allocator: final(inner).task_res_allocator, ..*old(inner) }),
    {
        self.tid = inner.alloc_tid();
    }

    /// The resources of a new thread of the process: a fresh thread id, and, when
    /// `alloc_user_res` holds, its user stack and trap context mapped.
    pub fn new(inner: &mut ProcessControlBlockInner, mem: &mut PhysMem, alloc_user_res: bool) -> (r: ThreadUserRes)
        requires
            old(inner).wf(old(mem)),
            old(inner).task_res_allocator.released().len() == 0 ==> old(inner).task_res_allocator.next_fresh()
                < usize::MAX,
            alloc_user_res ==> {
                &&& tid_fits(next_alloc(old(inner).task_res_allocator))
                &&& range_unmapped(
                    old(mem),
                    old(inner).memory_set.root(),
                    ustack_page(next_alloc(old(inner).task_res_allocator)),
                    ustack_page(next_alloc(old(inner).task_res_allocator)) + 2,
                )
                &&& old(mem).free_frames() >= 6
            },
        ensures
            final(inner).wf(final(mem)),
            r.tid == next_alloc(old(inner).task_res_allocator),
            !old(inner).task_res_allocator.allocated().contains(r.tid as int),
            final(inner).task_res_allocator.allocated() == old(inner).task_res_allocator.allocated().insert(r.tid as int),
            final(inner).memory_set.root() == old(inner).memory_set.root(),
            alloc_user_res ==> {
                &&& final(inner).memory_set.views() == old(inner).memory_set.views().push(
                    (ustack_page(r.tid as int) as usize, (ustack_page(r.tid as int) + 1) as usize, MapType::Framed, 22u8),
                ).push(
                    ((ustack_page(r.tid as int) + 1) as usize, (ustack_page(r.tid as int) + 2) as usize, MapType::Framed, 6u8),
                )
                &&& walk(final(mem), final(inner).memory_set.root(), ustack_page(r.tid as int) + 1).is_some()
                &&& final(mem).nframes() - old(mem).nframes() <= 6
                &&& final(mem).nframes() >= old(mem).nframes()
                &&& forall|pa: int| 0 <= pa < old(mem).nframes() * 4096 ==> #[trigger] final(mem).byte(pa) == old(mem).byte(pa)
                &&& forall|f: int, s: int|
                    0 <= f < old(mem).nframes() && !old(inner).memory_set.table().owns(f) ==> #[trigger] final(mem).pte(f, s)
                        == old(mem).pte(f, s)
                &&& forall|w: int|
                    untouched(w, ustack_page(r.tid as int), ustack_page(r.tid as int) + 2) ==> #[trigger] walk(
                        final(mem),
                        final(inner).memory_set.root(),
                        w,
                    ) == walk(old(mem), old(inner).memory_set.root(), w)
            },
            !alloc_user_res ==> final(inner).memory_set == old(inner).memory_set && *final(mem) == *old(mem),
            !alloc_user_res ==> *final(inner) == (ProcessControlBlockInner {
                task_res_allocator: final(inner).task_res_allocator,
                ..*old(inner)
            }),
            *final(inner) == (ProcessControlBlockInner {
                task_res_allocator: final(inner).task_res_allocator,
                memory_set: final(inner).memory_set,
                ..*old(inner)
            }),
            final(inner).fd_table@ == old(inner).fd_table@,
            final(inner).tasks@ == old(inner).tasks@,
            final(inner).heap_bottom == old(inner).heap_bottom,
            final(inner).program_brk == old(inner).program_brk,
    {
        let tid = inner.alloc_tid();
        let task_user_res = ThreadUserRes { tid };
        if alloc_user_res {
            task_user_res.alloc_user_res(inner, mem);
        }
        task_user_res
    }

    /// Map the thread's user stack (readable, writable, user) and its trap context
    /// (readable, writable) into the process's address space.
    pub fn alloc_user_res(&self, inner: &mut ProcessControlBlockInner, mem: &mut PhysMem)
        requires
            old(inner).wf(old(mem)),
            tid_fits(self.tid as int),
            range_unmapped(
                old(mem),
                old(inner).memory_set.root(),
                ustack_page(self.tid as int),
                ustack_page(self.tid as int) + 2,
            ),
            old(mem).free_frames() >= 6,
        ensures
            final(inner).wf(final(mem)),
            final(inner).memory_set.views() == old(inner).memory_set.views().push(
                (ustack_page(self.tid as int) as usize, (ustack_page(self.tid as int) + 1) as usize, MapType::Framed, 22u8),
            ).push(
                ((ustack_page(self.tid as int) + 1) as usize, (ustack_page(self.tid as int) + 2) as usize, MapType::Framed, 6u8),
            ),
            final(inner).memory_set.root() == old(inner).memory_set.root(),
            walk(final(mem), final(inner).memory_set.root(), ustack_page(self.tid as int)).is_some(),
            walk(final(mem), final(inner).memory_set.root(), ustack_page(self.tid as int) + 1).is_some(),
            final(mem).nframes() - old(mem).nframes() <= 6,
            final(mem).nframes() >= old(mem).nframes(),
            forall|pa: int| 0 <= pa < old(mem).nframes() * 4096 ==> #[trigger] final(mem).byte(pa) == old(mem).byte(pa),
            old(mem).nframes() <= walk(final(mem), final(inner).memory_set.root(), ustack_page(self.tid as int)).unwrap().spec_ppn()
                < final(mem).nframes(),
            forall|f: int, s: int|
                0 <= f < old(mem).nframes() && !old(inner).memory_set.table().owns(f) ==> #[trigger] final(mem).pte(f, s)
                    == old(mem).pte(f, s),
            forall|w: int|
                untouched(w, ustack_page(self.tid as int), ustack_page(self.tid as int) + 2) ==> #[trigger] walk(
                    final(mem),
                    final(inner).memory_set.root(),
                    w,
                ) == walk(old(mem), old(inner).memory_set.root(), w),
            final(inner).heap_bottom == old(inner).heap_bottom,
            final(inner).program_brk == old(inner).program_brk,
            final(inner).fd_table@ == old(inner).fd_table@,
            final(inner).tasks@ == old(inner).tasks@,
            final(inner).task_res_allocator == old(inner).task_res_allocator,
            final(inner).mutex_list@ == old(inner).mutex_list@,
            final(inner).sem_list@ == old(inner).sem_list@,
            final(inner).cond_list@ == old(inner).cond_list@,
            final(inner).children@ == old(inner).children@,
            *final(inner) == (ProcessControlBlockInner { memory_set: final(inner).memory_set, ..*old(inner) }),
    {
        let (user_stack_bottom, user_stack_top) = user_stack_position(self.tid);
        let ghost p = ustack_page(self.tid as int);
        let ghost mem0 = *mem;
        let ghost t0 = inner.memory_set.table();
        proof {
            lemma_slot_pages(self.tid as int);
            assert((2u8 | 4u8 | 16u8) == 22u8 && 22u8 & 0xe1u8 == 0u8 && (2u8 | 4u8) == 6u8 && 6u8 & 0xe1u8 == 0u8)
                by (bit_vector);
        }
        inner.memory_set.insert_framed_area(
            mem,
            VirtAddr(user_stack_bottom),
            VirtAddr(user_stack_top),
            MapPermission { bits: MAP_R | MAP_W | MAP_U },
        );
        let ghost mem1 = *mem;
        proof {
            t0.lemma_evolves_facts(&mem0, &inner.memory_set.table(), &mem1);
            lemma_next_page_slot(p);
            assert(crate::mem_set::untouched(p + 1, p, p + 1));
            assert(walk(&mem1, inner.memory_set.root(), p + 1) == walk(&mem0, t0.root(), p + 1));
            assert(range_unmapped(&mem1, inner.memory_set.root(), p + 1, p + 2));
            assert(walk(&mem1, inner.memory_set.root(), p).is_some());
            assert(mem0.nframes() <= walk(&mem1, inner.memory_set.root(), p).unwrap().spec_ppn() < mem1.nframes());
        }
        let (trap_cx_bottom, trap_cx_top) = user_trap_cx_position(self.tid);
        let ghost t1 = inner.memory_set.table();
        inner.memory_set.insert_framed_area(
            mem,
            VirtAddr(trap_cx_bottom),
            VirtAddr(trap_cx_top),
            MapPermission { bits: MAP_R | MAP_W },
        );
        proof {
            t1.lemma_evolves_facts(&mem1, &inner.memory_set.table(), mem);
            t0.lemma_evolves_keeps(&mem0, &t1, &mem1);
            t1.lemma_evolves_keeps(&mem1, &inner.memory_set.table(), mem);
            t0.lemma_evolves_facts(&mem0, &t1, &mem1);
            assert forall|f: int, q: int| 0 <= f < mem0.nframes() && !t0.owns(f) implies #[trigger] mem.pte(f, q) == mem0.pte(
                f,
                q,
            ) by {
                assert(!t1.owns(f));
            }
            assert forall|w: int| untouched(w, p, p + 2) implies #[trigger] walk(mem, inner.memory_set.root(), w) == walk(
                &mem0,
                t0.root(),
                w,
            ) by {
                assert(untouched(w, p, p + 1));
                assert(untouched(w, p + 1, p + 2));
            }
            assert(walk(mem, inner.memory_set.root(), p) == walk(&mem1, t1.root(), p)) by {
                assert(crate::mem_set::untouched(p, p + 1, p + 2)) by {
                    assert(!crate::page_table::same_slot(p, p + 1)) by {
                        lemma_next_page_slot(p);
                    }
                }
            }
            assert(crate::mem_set::untouched(p, p + 1, p + 2)) by {
                assert(!crate::page_table::same_slot(p, p + 1)) by {
                    lemma_next_page_slot(p);
                }
            }
        }
    }
}

/// A thread.
pub struct ThreadControlBlock {
    /// The kernel stack the thread runs on in the kernel.
    pub kernel_stack: KernelStack,
    /// The user resources, until they are given back.
    pub res: Option<ThreadUserRes>,
    /// The frame that holds the thread's trap context.
    pub trap_cx_ppn: PhysPageNum,
    /// The scheduling state.
    pub task_status: TaskStatus,
    /// The exit code, once the thread has exited.
    pub exit_code: Option<i32>,
    /// The user state saved in the thread's trap-context page.
    pub trap_cx: TrapContext,
}

impl ThreadControlBlock {
    /// A ready thread of the process on kernel stack `kernel_stack`: it takes a new
    /// thread id and, when `alloc_user_res` holds, a user stack and trap context.
    /// Either way the page of its trap context must be mapped at the end.
    pub fn new(inner: &mut ProcessControlBlockInner, mem: &mut PhysMem, kernel_stack: KernelStack, alloc_user_res: bool) -> (r: ThreadControlBlock)
        requires
            old(inner).wf(old(mem)),
            old(inner).task_res_allocator.released().len() == 0 ==> old(inner).task_res_allocator.next_fresh()
                < usize::MAX,
            tid_fits(next_alloc(old(inner).task_res_allocator)),
            alloc_user_res ==> {
                &&& range_unmapped(
                    old(mem),
                    old(inner).memory_set.root(),
                    ustack_page(next_alloc(old(inner).task_res_allocator)),
                    ustack_page(next_alloc(old(inner).task_res_allocator)) + 2,
                )
                &&& old(mem).free_frames() >= 6
            },
            !alloc_user_res ==> walk(
                old(mem),
                old(inner).memory_set.root(),
                ustack_page(next_alloc(old(inner).task_res_allocator)) + 1,
            ).is_some(),
        ensures
            final(inner).wf(final(mem)),
            r.res matches Some(res) && res.tid == next_alloc(old(inner).task_res_allocator),
            r.kernel_stack == kernel_stack,
            r.task_status == TaskStatus::Ready,
            r.exit_code.is_none(),
            r.trap_cx_ppn.0 == walk(
                final(mem),
                final(inner).memory_set.root(),
                ustack_page(next_alloc(old(inner).task_res_allocator)) + 1,
            ).unwrap().spec_ppn() as usize,
            final(inner).task_res_allocator.allocated() == old(inner).task_res_allocator.allocated().insert(
                next_alloc(old(inner).task_res_allocator),
            ),
            alloc_user_res ==> final(inner).memory_set.views() == old(inner).memory_set.views().push(
                (
                    ustack_page(next_alloc(old(inner).task_res_allocator)) as usize,
                    (ustack_page(next_alloc(old(inner).task_res_allocator)) + 1) as usize,
                    MapType::Framed,
                    22u8,
                ),
            ).push(
                (
                    (ustack_page(next_alloc(old(inner).task_res_allocator)) + 1) as usize,
                    (ustack_page(next_alloc(old(inner).task_res_allocator)) + 2) as usize,
                    MapType::Framed,
                    6u8,
                ),
            ),
            !alloc_user_res ==> final(inner).memory_set == old(inner).memory_set && *final(mem) == *old(mem),
            !alloc_user_res ==> *final(inner) == (ProcessControlBlockInner {
                task_res_allocator: final(inner).task_res_allocator,
                ..*old(inner)
            }),
            alloc_user_res ==> {
                let p = ustack_page(next_alloc(old(inner).task_res_allocator));
                &&& final(mem).nframes() - old(mem).nframes() <= 6
                &&& final(mem).nframes() >= old(mem).nframes()
                &&& forall|pa: int| 0 <= pa < old(mem).nframes() * 4096 ==> #[trigger] final(mem).byte(pa) == old(mem).byte(pa)
                &&& forall|f: int, s: int|
                    0 <= f < old(mem).nframes() && !old(inner).memory_set.table().owns(f) ==> #[trigger] final(mem).pte(f, s)
                        == old(mem).pte(f, s)
                &&& forall|w: int|
                    untouched(w, p, p + 2) ==> #[trigger] walk(final(mem), final(inner).memory_set.root(), w) == walk(
                        old(mem),
                        old(inner).memory_set.root(),
                        w,
                    )
            },
            final(inner).memory_set.root() == old(inner).memory_set.root(),
            *final(inner) == (ProcessControlBlockInner {
                task_res_allocator: final(inner).task_res_allocator,
                memory_set: final(inner).memory_set,
                ..*old(inner)
            }),
            final(inner).fd_table@ == old(inner).fd_table@,
            final(inner).tasks@ == old(inner).tasks@,
            final(inner).heap_bottom == old(inner).heap_bottom,
            final(inner).program_brk == old(inner).program_brk,
    {
        let res = ThreadUserRes::new(inner, mem, alloc_user_res);
        let trap_cx_ppn = res.trap_cx_ppn(inner, mem);
        ThreadControlBlock {
            kernel_stack,
            res: Some(res),
            trap_cx_ppn,
            task_status: TaskStatus::Ready,
            exit_code: None,
            trap_cx: TrapContext::zeroed(),
        }
    }

    /// The thread's saved user state.
    pub fn get_trap_cx(&mut self) -> (r: &mut TrapContext)
        ensures
            *r == old(self).trap_cx,
            *final(self) == (ThreadControlBlock { trap_cx: *final(r), ..*old(self) }),
    {
        &mut self.trap_cx
    }
}

/// What a parent knows of a child: its pid, and its exit code once it has exited.
#[derive(Clone, Copy, Debug, PartialEq, Eq, Structural)]
pub struct ChildRecord {
    /// The child's pid.
    pub pid: usize,
    /// Whether the child has exited.
    pub is_zombie: bool,
    /// The child's exit code, once it has exited.
    pub exit_code: i32,
}

/// The mutable state of a process.
pub struct ProcessControlBlockInner {
    /// Whether the process has exited and waits to be reaped.
    pub is_zombie: bool,
    /// The address space.
    pub memory_set: MemorySet,
    /// The pid of the parent.
    pub parent: Option<usize>,
    /// The children, in the order they were made.
    pub children: Vec<ChildRecord>,
    /// The exit code, once the process has exited.
    pub exit_code: i32,
    /// The descriptor table.
    pub fd_table: Vec<Option<FileDesc>>,
    /// The threads, indexed by thread id.
    pub tasks: Vec<Option<ThreadControlBlock>>,
    /// The allocator of thread ids.
    pub task_res_allocator: RecycleAllocator,
    /// The mutex table.
    pub mutex_list: Vec<Option<MutexObject>>,
    /// The semaphore table.
    pub sem_list: Vec<Option<Semaphore>>,
    /// The condition-variable table.
    pub cond_list: Vec<Option<Condvar>>,
    /// The pending signals.
    pub signals: SignalFlags,
    /// The bottom of the heap.
    pub heap_bottom: usize,
    /// The current end of the heap.
    pub program_brk: usize,
    /// The working directory.
    pub cwd: String,
}

impl ProcessControlBlockInner {
    /// The address space is consistent, the heap end lies above its bottom, and the
    /// thread-id allocator and the synchronisation objects keep their invariants.
    pub open spec fn wf(&self, mem: &PhysMem) -> bool {
        &&& self.memory_set.wf(mem)
        &&& self.task_res_allocator.wf()
        &&& self.heap_bottom <= self.program_brk <= isize::MAX
        &&& forall|i: int| 0 <= i < self.mutex_list@.len() && (#[trigger] self.mutex_list@[i]) is Some
            ==> self.mutex_list@[i]->0.wf()
        &&& forall|i: int| 0 <= i < self.sem_list@.len() && (#[trigger] self.sem_list@[i]) is Some
            ==> self.sem_list@[i]->0.wf()
    }

    /// The `satp` token of the process's address space.
    pub fn get_user_token(&self) -> (r: usize)
        ensures
            r == ((8u64 << 60u64) | (self.memory_set.root() as u64)) as usize,
    {
        self.memory_set.token()
    }

    /// A free descriptor: the first empty slot, or a new slot at the end.
    pub fn alloc_fd(&mut self) -> (r: usize)
        ensures
            is_first_none(old(self).fd_table@, r as int),
            final(self).fd_table@ == if r < old(self).fd_table@.len() {
                old(self).fd_table@
            } else {
                old(self).fd_table@.push(None)
            },
            r < final(self).fd_table@.len(),
            final(self).memory_set == old(self).memory_set,
            final(self).tasks@ == old(self).tasks@,
            final(self).children@ == old(self).children@,
            final(self).cwd@ == old(self).cwd@,
            final(self).signals == old(self).signals,
            final(self).heap_bottom == old(self).heap_bottom,
            final(self).program_brk == old(self).program_brk,
            final(self).task_res_allocator == old(self).task_res_allocator,
            final(self).mutex_list@ == old(self).mutex_list@,
            final(self).sem_list@ == old(self).sem_list@,
            final(self).cond_list@ == old(self).cond_list@,
            final(self).is_zombie == old(self).is_zombie,
            final(self).exit_code == old(self).exit_code,
            final(self).parent == old(self).parent,
    {
        let pos = first_free(&self.fd_table);
        if pos == self.fd_table.len() {
            self.fd_table.push(None);
        }
        pos
    }

    /// A thread id from the process's allocator.
    pub fn alloc_tid(&mut self) -> (r: usize)
        requires
            old(self).task_res_allocator.wf(),
            old(self).task_res_allocator.released().len() == 0 ==> old(self).task_res_allocator.next_fresh()
                < usize::MAX,
        ensures
            final(self).task_res_allocator.wf(),
            !old(self).task_res_allocator.allocated().contains(r as int),
            final(self).task_res_allocator.allocated() == old(self).task_res_allocator.allocated().insert(r as int),
            old(self).task_res_allocator.released().len() > 0 ==> r == old(self).task_res_allocator.released().last(),
            old(self).task_res_allocator.released().len() == 0 ==> r == old(self).task_res_allocator.next_fresh(),
            *final(self) == (ProcessControlBlockInner { task_res_allocator: final(self).task_res_allocator, ..*old(self) }),
    {
        self.task_res_allocator.allocate()
    }

    /// Give thread id `tid` back to the process's allocator.
    pub fn dealloc_tid(&mut self, tid: usize)
        requires
            old(self).task_res_allocator.wf(),
            old(self).task_res_allocator.allocated().contains(tid as int),
        ensures
            final(self).task_res_allocator.wf(),
            final(self).task_res_allocator.allocated() == old(self).task_res_allocator.allocated().remove(tid as int),
            *final(self) == (ProcessControlBlockInner { task_res_allocator: final(self).task_res_allocator, ..*old(self) }),
    {
        self.task_res_allocator.dealloc(tid);
    }

    /// The heap end that a change of `size` bytes asks for.
    pub open spec fn brk_target(&self, size: i32) -> int {
        self.program_brk + size
    }

    /// What a heap change of `size` bytes needs of memory when it goes ahead: a shrink
    /// stays inside the heap area, a growth finds its pages free and enough frames.
    pub open spec fn brk_ready(&self, mem: &PhysMem, size: i32) -> bool {
        let nb = self.brk_target(size);
        let v = self.memory_set.views();
        nb >= self.heap_bottom ==> match first_at(v, page_floor(self.heap_bottom as int)) {
            Some(i) => if size < 0 {
                v[i].0 <= page_ceil(nb) <= v[i].1
            } else {
                &&& v[i].1 <= page_ceil(nb) <= trampoline_vpn()
                &&& range_unmapped(mem, self.memory_set.root(), v[i].1 as int, page_ceil(nb))
                &&& distinct_slots(v[i].1 as int, page_ceil(nb))
                &&& mem.free_frames() >= 3 * (page_ceil(nb) - v[i].1)
            },
            None => true,
        }
    }

    /// Move the end of the heap by `size` bytes; the old end on success.
    pub fn change_program_brk(&mut self, mem: &mut PhysMem, size: i32) -> (r: KernelResult<usize>)
        requires
            old(self).wf(old(mem)),
            old(self).brk_target(size) <= isize::MAX,
            old(self).brk_ready(old(mem), size),
        ensures
            final(self).wf(final(mem)),
            ({
                let nb = old(self).brk_target(size);
                let v = old(self).memory_set.views();
                if nb < old(self).heap_bottom {
                    r == Err::<usize, KernelError>(KernelError::ReleaseTooMuch) && *final(self) == *old(self)
                        && *final(mem) == *old(mem)
                } else {
                    match first_at(v, page_floor(old(self).heap_bottom as int)) {
                        Some(i) => {
                            &&& r == Ok::<usize, KernelError>(old(self).program_brk)
                            &&& final(self).program_brk == nb
                            &&& final(self).memory_set.views() == v.update(
                                i,
                                (v[i].0, page_ceil(nb) as usize, v[i].2, v[i].3),
                            )
                            &&& old(self).memory_set.table().evolves(old(mem), &final(self).memory_set.table(), final(mem))
                        },
                        None => {
                            &&& r == Err::<usize, KernelError>(
                                if size < 0 {
                                    KernelError::ShrinkVirtAddrNotFound
                                } else {
                                    KernelError::AppendVirtAddrNotFound
                                },
                            )
                            &&& *final(self) == *old(self)
                            &&& *final(mem) == *old(mem)
                        },
                    }
                }
            }),
            final(self).heap_bottom == old(self).heap_bottom,
            final(self).fd_table@ == old(self).fd_table@,
            final(self).tasks@ == old(self).tasks@,
    {
        let old_break = self.program_brk;
        let new_brk = self.program_brk as isize + size as isize;
        if new_brk < self.heap_bottom as isize {
            return Err(KernelError::ReleaseTooMuch);
        }
        let result = if size < 0 {
            self.memory_set.shrink_to(mem, VirtAddr(self.heap_bottom), VirtAddr(new_brk as usize))
        } else {
            self.memory_set.append_to(mem, VirtAddr(self.heap_bottom), VirtAddr(new_brk as usize))
        };
        match result {
            Ok(()) => {
                self.program_brk = new_brk as usize;
                Ok(old_break)
            },
            Err(e) => Err(e),
        }
    }

    /// What mapping `[start, end)` needs of memory when it goes ahead: its pages are
    /// free, use distinct leaf slots, and enough frames are left.
    pub open spec fn mmap_ready(&self, mem: &PhysMem, start: int, end: int) -> bool {
        !(start >= TRAMPOLINE || end > TRAMPOLINE || start >= end) && !crate::mem_set::any_overlap(
            self.memory_set.views(),
            page_floor(start),
            page_ceil(end),
        ) ==> {
            &&& range_unmapped(mem, self.memory_set.root(), page_floor(start), page_ceil(end))
            &&& distinct_slots(page_floor(start), page_ceil(end))
            &&& mem.free_frames() >= 3 * (page_ceil(end) - page_floor(start))
        }
    }

    /// Map `[start, end)` for user access with permission `prot`; `0`, or `-1` when the
    /// range is empty, reaches the trampoline or meets an existing area.
    pub fn mmap(&mut self, mem: &mut PhysMem, start: usize, end: usize, prot: usize) -> (r: isize)
        requires
            old(self).wf(old(mem)),
            crate::mem_set::MapPermission::known_bits(#[verifier::truncate] (prot as u8)),
            old(self).mmap_ready(old(mem), start as int, end as int),
        ensures
            final(self).wf(final(mem)),
            r == -1 <==> (start >= TRAMPOLINE || end > TRAMPOLINE || start >= end || crate::mem_set::any_overlap(
                old(self).memory_set.views(),
                page_floor(start as int),
                page_ceil(end as int),
            )),
            r == 0 || r == -1,
            r == -1 ==> *final(self) == *old(self) && *final(mem) == *old(mem),
            r == 0 ==> final(self).memory_set.views() == old(self).memory_set.views().push(
                (
                    page_floor(start as int) as usize,
                    page_ceil(end as int) as usize,
                    crate::mem_set::MapType::Framed,
                    (#[verifier::truncate] (prot as u8)) | crate::mem_set::MAP_U,
                ),
            ),
            r == 0 ==> crate::mem_set::fresh_range(
                final(mem),
                final(self).memory_set.root(),
                page_floor(start as int),
                page_ceil(end as int),
                old(mem).nframes() as int,
            ),
            r == 0 ==> forall|w: int|
                crate::mem_set::untouched(w, page_floor(start as int), page_ceil(end as int)) ==> #[trigger] walk(
                    final(mem),
                    final(self).memory_set.root(),
                    w,
                ) == walk(old(mem), old(self).memory_set.root(), w),
            *final(self) == (ProcessControlBlockInner { memory_set: final(self).memory_set, ..*old(self) }),
    {
        self.memory_set.mmap(mem, start, end, prot)
    }

    /// Unmap the pages that cover `[start, end)`; `0`.
    pub fn munmap(&mut self, mem: &mut PhysMem, start: usize, end: usize) -> (r: isize)
        requires
            old(self).wf(old(mem)),
            start <= end,
        ensures
            r == 0,
            final(self).wf(final(mem)),
            final(self).memory_set.views() == crate::mem_set::unmap_result(
                old(self).memory_set.views(),
                page_floor(start as int),
                page_ceil(end as int),
            ),
            forall|u: int|
                page_floor(start as int) <= u < page_ceil(end as int) && old(self).memory_set.covers(u)
                    ==> #[trigger] walk(final(mem), final(self).memory_set.root(), u).is_none(),
            forall|w: int|
                crate::mem_set::clear_of_range(&old(self).memory_set, page_floor(start as int), page_ceil(end as int), w)
                    ==> #[trigger] walk(final(mem), final(self).memory_set.root(), w) == walk(
                    old(mem),
                    old(self).memory_set.root(),
                    w,
                ),
            *final(self) == (ProcessControlBlockInner { memory_set: final(self).memory_set, ..*old(self) }),
    {
        self.memory_set.munmap(mem, start, end)
    }

    /// The number of thread slots.
    pub fn thread_count(&self) -> (r: usize)
        ensures
            r == self.tasks@.len(),
    {
        self.tasks.len()
    }

    /// The thread with id `tid`, which must exist.
    pub fn get_task(&self, tid: usize) -> (r: &ThreadControlBlock)
        requires
            tid < self.tasks@.len(),
            self.tasks@[tid as int] is Some,
        ensures
            *r == self.tasks@[tid as int]->0,
    {
        self.tasks[tid].as_ref().unwrap()
    }
}

/// What a fork of process `ppid`, whose state was `parent` in memory `mem0`, makes:
/// `child`, in memory `mem`. The child's address space has the parent's areas, each
/// page a copy of the parent's page in a frame of its own, handed out after `mem0`'s
/// frames and shared with no other page, and the trampoline mapped to the page of
/// `strampoline`; it has the parent's descriptors, heap bounds and working directory,
/// no children, locks or pending signals, and one ready thread, thread 0, on
/// `kernel_stack`, whose trap context is in the child's copy of the page that holds it.
pub open spec fn forked_from(
    parent: &ProcessControlBlockInner,
    ppid: usize,
    mem0: &PhysMem,
    child: &ProcessControlBlock,
    mem: &PhysMem,
    kernel_stack: KernelStack,
    strampoline: usize,
) -> bool {
    let c = child.inner;
    let v = parent.memory_set.views();
    &&& c.wf(mem)
    &&& c.memory_set.views() == v
    &&& walk(mem, c.memory_set.root(), trampoline_vpn()) == Some(
        leaf_entry(PhysPageNum(strampoline / 4096), PTEFlags { bits: PTE_R | PTE_X }),
    )
    &&& forall|i: int, u: int, k: int|
        0 <= i < v.len() && (#[trigger] v[i]).0 <= u < v[i].1 && 0 <= k < 4096 ==> #[trigger] page_byte(
            mem,
            c.memory_set.root(),
            u,
            k,
        ) == page_byte(mem0, parent.memory_set.root(), u, k)
    &&& forall|i: int, u: int|
        0 <= i < v.len() && (#[trigger] v[i]).0 <= u < v[i].1 ==> mem0.nframes() <= #[trigger] walk(
            mem,
            c.memory_set.root(),
            u,
        ).unwrap().spec_ppn()
    &&& forall|i1: int, u1: int, i2: int, u2: int|
        #![trigger v[i1], v[i2], walk(mem, c.memory_set.root(), u1), walk(mem, c.memory_set.root(), u2)]
        0 <= i1 < v.len() && 0 <= i2 < v.len() && v[i1].0 <= u1 < v[i1].1 && v[i2].0 <= u2 < v[i2].1 && u1 != u2
            ==> walk(mem, c.memory_set.root(), u1).unwrap().spec_ppn() != walk(mem, c.memory_set.root(), u2).unwrap().spec_ppn()
    &&& !c.is_zombie
    &&& c.parent == Some(ppid)
    &&& c.children@.len() == 0
    &&& c.exit_code == 0
    &&& c.fd_table@ == parent.fd_table@
    &&& c.mutex_list@.len() == 0
    &&& c.sem_list@.len() == 0
    &&& c.cond_list@.len() == 0
    &&& c.signals.bits == 0
    &&& c.heap_bottom == parent.heap_bottom
    &&& c.program_brk == parent.program_brk
    &&& c.cwd@ == parent.cwd@
    &&& c.task_res_allocator.allocated() == set![0int]
    &&& c.tasks@.len() == 1
    &&& c.tasks@[0] matches Some(th) && {
        &&& th.res matches Some(res) && res.tid == 0
        &&& th.kernel_stack == kernel_stack
        &&& th.task_status == TaskStatus::Ready
        &&& th.exit_code is None
        &&& th.trap_cx_ppn.0 == walk(mem, c.memory_set.root(), ustack_page(0) + 1).unwrap().spec_ppn() as usize
    }
}

/// Whether a process can be made of the program in `data` in memory `mem`: the loader
/// can read the program, `mem` has frames for its pages, its page tables and its first
/// thread, its heap starts at an address that fits in `isize`, and neither the
/// trampoline nor a page of its loadable segments takes the leaf slot of the user
/// stack or trap context of thread `tid`.
pub open spec fn process_loadable(mem: &PhysMem, data: Seq<u8>, tid: int) -> bool {
    let loads = load_segments(elf_segments_of(data));
    let t = ustack_page(tid);
    &&& elf_readable(data)
    &&& mem.free_frames() >= 9 + 3 * elf_pages(data)
    &&& heap_page(loads) * 4096 <= isize::MAX
    &&& t % 134217728 != trampoline_vpn() % 134217728
    &&& (t + 1) % 134217728 != trampoline_vpn() % 134217728
    &&& forall|l: int, u: int|
        0 <= l < loads.len() && #[trigger] in_region(segment_regions(loads)[l], u) ==> u != t % 134217728 && u != (t + 1)
            % 134217728
}

/// The program headers of `data` and its entry point, when a process can be made of
/// the program in `mem` with thread `tid`'s user stack; `None` otherwise.
fn load_checks(mem: &PhysMem, data: &[u8], tid: usize) -> (r: Option<(Vec<ElfSegment>, u64)>)
    requires
        mem.wf(),
        tid_fits(tid as int),
    ensures
        r is Some <==> process_loadable(mem, data@, tid as int),
        r matches Some(t) ==> {
            &&& t.0@ == elf_segments_of(data@)
            &&& t.1 == crate::elf::elf_header_of(data@).unwrap().1
            &&& crate::mem_set::segments_loadable(data@, t.0@)
        },
{
    let (segs, entry, total) = match elf_segments(data) {
        Some(t) => t,
        None => return None,
    };
    let ghost sq = segs@;
    let ghost loads = load_segments(sq);
    if (mem.free_frame_count() as u64) < 9 + 3 * total {
        return None;
    }
    let (stack_bottom, _) = user_stack_position(tid);
    let t = stack_bottom / 4096;
    let ts = t % 134217728;
    let ts1 = (t + 1) % 134217728;
    proof {
        assert(t == ustack_page(tid as int));
    }
    let tramp_slot = (usize::MAX / 4096) % 134217728;
    if ts == tramp_slot || ts1 == tramp_slot {
        return None;
    }
    let len = data.len();
    let mut k: usize = 0;
    let mut heap_vpn: usize = 0;
    while k < segs.len()
        invariant
            heap_vpn == heap_page(load_segments(sq.take(k as int))),
            sq == segs@,
            sq == elf_segments_of(data@),
            loads == load_segments(sq),
            elf_readable(data@),
            len == data@.len(),
            t == ustack_page(tid as int),
            ts == t % 134217728,
            ts1 == (t + 1) % 134217728,
            0 <= k <= sq.len(),
            forall|l: int, u: int|
                0 <= l < load_segments(sq.take(k as int)).len() && #[trigger] in_region(segment_regions(loads)[l], u) ==> u
                    != ts && u != ts1,
        decreases sq.len() - k,
    {
        proof {
            lemma_load_segments_take(sq, k as int);
            lemma_load_prefix(sq, k as int + 1);
            lemma_load_prefix(sq, k as int);
        }
        let s = segs[k];
        if s.kind == SEG_LOAD {
            let ghost m = load_segments(sq.take(k as int)).len() as int;
            proof {
                assert(loads.take(m + 1)[m] == loads[m]);
                assert(loads[m] == s);
            }
            let span = load_span(len, s).unwrap();
            if (span.0 <= ts && ts < span.1) || (span.0 <= ts1 && ts1 < span.1) {
                proof {
                    assert(segment_regions(loads)[m] == crate::mem_set::segment_region(loads[m]));
                    if span.0 <= ts && ts < span.1 {
                        assert(in_region(segment_regions(loads)[m], ts as int));
                    } else {
                        assert(in_region(segment_regions(loads)[m], ts1 as int));
                    }
                }
                return None;
            }
            proof {
                assert forall|l: int, u: int|
                    0 <= l < m + 1 && #[trigger] in_region(segment_regions(loads)[l], u) implies u != ts && u != ts1 by {
                    if l == m {
                        assert(segment_regions(loads)[m] == crate::mem_set::segment_region(loads[m]));
                    }
                }
            }
            heap_vpn = span.1;
        }
        k = k + 1;
    }
    proof {
        assert(sq.take(sq.len() as int) =~= sq);
        lemma_segments_loadable(data@, sq);
    }
    if heap_vpn > (isize::MAX as usize) / 4096 {
        return None;
    }
    Some((segs, entry))
}

/// Mapping thread `t`'s stack and trap context and then writing in the stack's frame
/// leaves the loaded segments' bytes as they were.
/// In a program loaded for thread `tid`, that thread's user stack and trap context
/// pages are unmapped, the pages of loadable segments lie below `2^27` and take other
/// leaf slots than those pages, and the heap starts below the trampoline.
proof fn lemma_stack_unmapped(
    data: Seq<u8>,
    mem0: &PhysMem,
    ms: &MemorySet,
    mem: &PhysMem,
    heap: usize,
    strampoline: usize,
    tid: int,
)
    requires
        loaded_from(ms, heap, mem0, mem, data, elf_segments_of(data), strampoline),
        process_loadable(mem0, data, tid),
        tid_fits(tid),
    ensures
        ({
            let loads = load_segments(elf_segments_of(data));
            let t = ustack_page(tid);
            &&& range_unmapped(mem, ms.root(), t, t + 2)
            &&& heap_page(loads) <= trampoline_vpn()
            &&& forall|l: int, u: int|
                0 <= l < loads.len() && #[trigger] in_region(segment_regions(loads)[l], u) ==> u < 134217728 && u != t
                    % 134217728 && u != (t + 1) % 134217728
        }),
{
    let loads = load_segments(elf_segments_of(data));
    let t = ustack_page(tid);
    let rs = segment_regions(loads);
    lemma_slot_pages(tid);
    assert forall|l: int, u: int| 0 <= l < loads.len() && #[trigger] in_region(rs[l], u) implies u < 134217728 && u != t
        % 134217728 && u != (t + 1) % 134217728 by {
        assert(crate::mem_set::load_ok(data.len() as int, loads[l]));
        assert(rs[l] == crate::mem_set::segment_region(loads[l]));
    }
    assert(heap_page(loads) <= trampoline_vpn()) by {
        if loads.len() > 0 {
            assert(rs[loads.len() - 1] == crate::mem_set::segment_region(loads[loads.len() - 1]));
            assert(crate::mem_set::load_ok(data.len() as int, loads[loads.len() - 1]));
        }
    }
    assert forall|w: int| t <= w < t + 2 implies #[trigger] walk(mem, ms.root(), w).is_none() by {
        assert forall|j: int, u: int| 0 <= j < loads.len() && #[trigger] in_region(rs[j], u) implies !same_slot(w, u) by {
            if same_slot(w, u) {
                crate::page_table::lemma_same_slot_mod(w, u);
            }
        }
        assert(clear_of_regions(rs, loads.len() as int, w));
        if same_slot(w, trampoline_vpn()) {
            crate::page_table::lemma_same_slot_mod(w, trampoline_vpn());
        }
    }
}

/// Load the program whose checked program headers are `segs` into `inner` for thread
/// `tid`: the address space of the program, the empty heap at its start, and the
/// thread's user stack and trap context mapped. Returns the entry point.
#[verifier::spinoff_prover]
#[verifier::rlimit(60)]
fn load_image(
    inner: &mut ProcessControlBlockInner,
    mem: &mut PhysMem,
    data: &[u8],
    segs: &Vec<ElfSegment>,
    entry: u64,
    strampoline: usize,
    tid: usize,
) -> (r: usize)
    requires
        old(inner).wf(old(mem)),
        tid_fits(tid as int),
        process_loadable(old(mem), data@, tid as int),
        segs@ == elf_segments_of(data@),
        segments_loadable(data@, segs@),
        entry == crate::elf::elf_header_of(data@).unwrap().1,
    ensures
        r == entry as usize,
        ({
            let loads = load_segments(elf_segments_of(data@));
            let t = ustack_page(tid as int);
            let root = final(inner).memory_set.root();
            &&& final(inner).wf(final(mem))
            &&& *final(inner) == (ProcessControlBlockInner {
                memory_set: final(inner).memory_set,
                heap_bottom: final(inner).heap_bottom,
                program_brk: final(inner).program_brk,
                ..*old(inner)
            })
            &&& final(inner).memory_set.views() == segment_views(loads).push(heap_view(loads)).push(
                (t as usize, (t + 1) as usize, MapType::Framed, 22u8),
            ).push(((t + 1) as usize, (t + 2) as usize, MapType::Framed, 6u8))
            &&& walk(final(mem), root, trampoline_vpn()) == Some(
                leaf_entry(PhysPageNum(strampoline / 4096), PTEFlags { bits: PTE_R | PTE_X }),
            )
            &&& final(inner).heap_bottom == heap_page(loads) * 4096
            &&& final(inner).program_brk == final(inner).heap_bottom
            &&& walk(final(mem), root, t + 1) is Some
            &&& walk(final(mem), root, t) is Some
            &&& walk(final(mem), root, t).unwrap().spec_ppn() < final(mem).nframes()
            &&& forall|l: int, j: int|
                0 <= l < loads.len() && 0 <= j < loads[l].file_size ==> {
                    &&& #[trigger] loaded_byte(final(mem), root, loads[l], j) == Some(data@[loads[l].offset + j])
                    &&& walk(final(mem), root, (page_floor(loads[l].vaddr as int) * 4096 + j) / 4096) is Some
                    &&& walk(final(mem), root, (page_floor(loads[l].vaddr as int) * 4096 + j) / 4096).unwrap().spec_ppn()
                        < walk(final(mem), root, t).unwrap().spec_ppn()
                }
            &&& forall|f: int, s: int| 0 <= f < old(mem).nframes() ==> #[trigger] final(mem).pte(f, s) == old(mem).pte(f, s)
        }),
{
    let ghost loads = load_segments(segs@);
    let ghost t = ustack_page(tid as int);
    let ghost mem0 = *mem;
    proof {
        inner.memory_set.lemma_token_root(mem);
    }
    let (memory_set, heap_bottom, entry_point) = MemorySet::from_elf_segments(mem, data, segs, entry, strampoline);
    let ghost mem1 = *mem;
    inner.memory_set = memory_set;
    inner.heap_bottom = heap_bottom;
    inner.program_brk = heap_bottom;
    let ghost ms1 = inner.memory_set;
    proof {
        lemma_slot_pages(tid as int);
        lemma_stack_unmapped(data@, &mem0, &ms1, &mem1, heap_bottom, strampoline, tid as int);
    }
    let res = ThreadUserRes { tid };
    res.alloc_user_res(inner, mem);
    proof {
        lemma_kept_loaded(data@, loads, &mem1, &ms1, mem, ms1.root(), t);
        assert(untouched(trampoline_vpn(), t, t + 2)) by {
            assert forall|u: int| t <= u < t + 2 implies !#[trigger] same_slot(trampoline_vpn(), u) by {
                if same_slot(trampoline_vpn(), u) {
                    crate::page_table::lemma_same_slot_mod(trampoline_vpn(), u);
                }
            }
        }
        assert forall|f: int, q: int| 0 <= f < mem0.nframes() implies #[trigger] mem.pte(f, q) == mem0.pte(f, q) by {
            assert(mem1.pte(f, q) == mem0.pte(f, q));
            assert(!ms1.table().owns(f));
        }
    }
    entry_point
}

/// Mapping thread `t`'s stack and trap context after loading keeps the loaded
/// segments' bytes, in frames handed out before.
#[verifier::spinoff_prover]
#[verifier::rlimit(60)]
proof fn lemma_kept_loaded(
    data: Seq<u8>,
    loads: Seq<ElfSegment>,
    mem1: &PhysMem,
    ms1: &MemorySet,
    mem2: &PhysMem,
    root: int,
    t: int,
)
    requires
        ms1.wf(mem1),
        ms1.root() == root,
        ms1.views() == segment_views(loads).push(heap_view(loads)),
        forall|l: int|
            0 <= l < loads.len() ==> {
                &&& (#[trigger] loads[l]).vaddr + loads[l].mem_size <= usize::MAX
                &&& loads[l].file_size <= (page_ceil(loads[l].vaddr + loads[l].mem_size) - page_floor(
                    loads[l].vaddr as int,
                )) * 4096
            },
        forall|l: int, u: int|
            0 <= l < loads.len() && #[trigger] in_region(segment_regions(loads)[l], u) ==> u < 134217728 && u != t % 134217728
                && u != (t + 1) % 134217728,
        0 <= t,
        forall|l: int, j: int|
            0 <= l < loads.len() && 0 <= j < loads[l].file_size ==> #[trigger] loaded_byte(mem1, root, loads[l], j) == Some(
                data[loads[l].offset + j],
            ),
        forall|w: int| untouched(w, t, t + 2) ==> #[trigger] walk(mem2, root, w) == walk(mem1, root, w),
        forall|pa: int| 0 <= pa < mem1.nframes() * 4096 ==> #[trigger] mem2.byte(pa) == mem1.byte(pa),
    ensures
        forall|l: int, j: int|
            0 <= l < loads.len() && 0 <= j < loads[l].file_size ==> {
                &&& #[trigger] loaded_byte(mem2, root, loads[l], j) == Some(data[loads[l].offset + j])
                &&& walk(mem2, root, (page_floor(loads[l].vaddr as int) * 4096 + j) / 4096) is Some
                &&& walk(mem2, root, (page_floor(loads[l].vaddr as int) * 4096 + j) / 4096).unwrap().spec_ppn() < mem1.nframes()
            },
{
    assert forall|l: int, j: int| 0 <= l < loads.len() && 0 <= j < loads[l].file_size implies {
        &&& #[trigger] loaded_byte(mem2, root, loads[l], j) == Some(data[loads[l].offset + j])
        &&& walk(mem2, root, (page_floor(loads[l].vaddr as int) * 4096 + j) / 4096) is Some
        &&& walk(mem2, root, (page_floor(loads[l].vaddr as int) * 4096 + j) / 4096).unwrap().spec_ppn() < mem1.nframes()
    } by {
        let va = crate::addr::page_floor(loads[l].vaddr as int) * 4096 + j;
        ms1.lemma_views();
        ms1.lemma_token_root(mem1);
        mem1.lemma_frames_bound();
        assert(ms1.views()[l] == segment_views(loads)[l]);
        assert(loaded_byte(mem1, root, loads[l], j) == Some(data[loads[l].offset + j]));
        ms1.lemma_loaded_frame(mem1, loads, l, j);
        crate::mem_set::lemma_loaded_page(loads[l], j);
        assert(segment_regions(loads)[l] == crate::mem_set::segment_region(loads[l]));
        assert(in_region(segment_regions(loads)[l], va / 4096));
        assert(untouched(va / 4096, t, t + 2)) by {
            assert forall|u: int| t <= u < t + 2 implies !#[trigger] same_slot(va / 4096, u) by {
                if same_slot(va / 4096, u) {
                    crate::page_table::lemma_same_slot_mod(va / 4096, u);
                }
            }
        }
        assert(walk(mem2, root, va / 4096) == walk(mem1, root, va / 4096));
        let q = walk(mem1, root, va / 4096).unwrap().spec_ppn() as int;
        let x = q * 4096 + va % 4096;
        assert(x < mem1.nframes() * 4096);
        assert(q < mem1.nframes()) by (nonlinear_arith)
            requires
                x == q * 4096 + va % 4096,
                0 <= va % 4096,
                x < mem1.nframes() * 4096,
        ;
        assert(mem2.byte(x) == mem1.byte(x));
    }
}

/// Writing only in frame `frame` and leaving the page tables as they were keeps
/// bytes of the loaded segments that lie in frames below it.
proof fn lemma_kept_after_write(
    data: Seq<u8>,
    loads: Seq<ElfSegment>,
    mem2: &PhysMem,
    mem: &PhysMem,
    root: int,
    frame: int,
)
    requires
        forall|l: int, j: int|
            0 <= l < loads.len() && 0 <= j < loads[l].file_size ==> {
                &&& #[trigger] loaded_byte(mem2, root, loads[l], j) == Some(data[loads[l].offset + j])
                &&& walk(mem2, root, (page_floor(loads[l].vaddr as int) * 4096 + j) / 4096) is Some
                &&& walk(mem2, root, (page_floor(loads[l].vaddr as int) * 4096 + j) / 4096).unwrap().spec_ppn() < frame
            },
        forall|w: int| #[trigger] walk(mem, root, w) == walk(mem2, root, w),
        forall|x: int| !(frame * 4096 <= x < frame * 4096 + 4096) ==> #[trigger] mem.byte(x) == mem2.byte(x),
        frame * 4096 <= usize::MAX,
    ensures
        forall|l: int, j: int|
            0 <= l < loads.len() && 0 <= j < loads[l].file_size ==> #[trigger] loaded_byte(mem, root, loads[l], j) == Some(
                data[loads[l].offset + j],
            ),
{
    assert forall|l: int, j: int| 0 <= l < loads.len() && 0 <= j < loads[l].file_size implies #[trigger] loaded_byte(
        mem,
        root,
        loads[l],
        j,
    ) == Some(data[loads[l].offset + j]) by {
        let va = crate::addr::page_floor(loads[l].vaddr as int) * 4096 + j;
        assert(loaded_byte(mem2, root, loads[l], j) == Some(data[loads[l].offset + j]));
        let q = walk(mem2, root, va / 4096).unwrap().spec_ppn() as int;
        let x = q * 4096 + va % 4096;
        assert(walk(mem, root, va / 4096) == walk(mem2, root, va / 4096));
        assert(0 <= va % 4096 < 4096);
        assert(x < frame * 4096) by (nonlinear_arith)
            requires
                x == q * 4096 + va % 4096,
                va % 4096 < 4096,
                q < frame,
        ;
        assert(mem.byte(x) == mem2.byte(x));
    }
}

/// What making a process of the program in `data` gives: in memory `mem`, the process
/// `p` under the next pid of `pids0` (which becomes `pids`), its address space loaded
/// from memory `mem0` as `MemorySet::from_elf_segments` loads the program with the
/// trampoline mapped to the page of `strampoline`, the console as descriptors 0, 1 and
/// 2, an empty heap at the heap start, `/` as working directory, and one ready thread,
/// thread 0, with its user stack and trap context mapped, on `kernel_stack`, set to
/// start at the entry point on its user stack with the kernel's `kernel_token`, the
/// handler `trap_handler` and the status word `sstatus`.
pub open spec fn new_process(
    p: &ProcessControlBlock,
    mem0: &PhysMem,
    mem: &PhysMem,
    pids0: &RecycleAllocator,
    pids: &RecycleAllocator,
    data: Seq<u8>,
    kernel_stack: KernelStack,
    kernel_token: usize,
    trap_handler: usize,
    sstatus: usize,
    strampoline: usize,
) -> bool {
    let segs = elf_segments_of(data);
    let loads = load_segments(segs);
    let t = ustack_page(0);
    &&& p.pid.0 == next_alloc(*pids0)
    &&& !pids0.allocated().contains(p.pid.0 as int)
    &&& pids.allocated() == pids0.allocated().insert(p.pid.0 as int)
    &&& pids.wf()
    &&& p.inner.wf(mem)
    &&& p.inner.memory_set.views() == segment_views(loads).push(heap_view(loads)).push(
        (t as usize, (t + 1) as usize, MapType::Framed, 22u8),
    ).push(((t + 1) as usize, (t + 2) as usize, MapType::Framed, 6u8))
    &&& walk(mem, p.inner.memory_set.root(), trampoline_vpn()) == Some(
        leaf_entry(PhysPageNum(strampoline / 4096), PTEFlags { bits: PTE_R | PTE_X }),
    )
    &&& forall|l: int, j: int|
        0 <= l < loads.len() && 0 <= j < loads[l].file_size ==> #[trigger] loaded_byte(
            mem,
            p.inner.memory_set.root(),
            loads[l],
            j,
        ) == Some(data[loads[l].offset + j])
    &&& !p.inner.is_zombie
    &&& p.inner.parent is None
    &&& p.inner.children@.len() == 0
    &&& p.inner.exit_code == 0
    &&& p.inner.fd_table@ == seq![Some(FileDesc::Stdin), Some(FileDesc::Stdout), Some(FileDesc::Stderr)]
    &&& p.inner.mutex_list@.len() == 0
    &&& p.inner.sem_list@.len() == 0
    &&& p.inner.cond_list@.len() == 0
    &&& p.inner.signals.bits == 0
    &&& p.inner.heap_bottom == heap_page(loads) * 4096
    &&& p.inner.program_brk == p.inner.heap_bottom
    &&& p.inner.cwd@ == "/"@
    &&& p.inner.task_res_allocator.allocated() == set![0int]
    &&& p.inner.tasks@.len() == 1
    &&& p.inner.tasks@[0] matches Some(th) && {
        &&& th.res matches Some(res) && res.tid == 0
        &&& th.kernel_stack == kernel_stack
        &&& th.task_status == TaskStatus::Ready
        &&& th.exit_code is None
        &&& th.trap_cx_ppn.0 == walk(mem, p.inner.memory_set.root(), t + 1).unwrap().spec_ppn() as usize
        &&& th.trap_cx.sepc == crate::elf::elf_header_of(data).unwrap().1 as usize
        &&& th.trap_cx.x@ == Seq::new(32, |i: int| 0usize).update(2, (TRAMPOLINE - TRAP_CONTEXT_SIZE) as usize)
        &&& th.trap_cx.sstatus == sstatus
        &&& th.trap_cx.kernel_satp == kernel_token
        &&& th.trap_cx.kernel_sp == TRAMPOLINE - kernel_stack.0 * kstack_slot()
        &&& th.trap_cx.trap_handler == trap_handler
    }
    &&& forall|f: int, s: int| 0 <= f < mem0.nframes() ==> #[trigger] mem.pte(f, s) == mem0.pte(f, s)
    &&& forall|pa: int| 0 <= pa < mem0.nframes() * 4096 ==> #[trigger] mem.byte(pa) == mem0.byte(pa)
}

/// What a successful `exec` of the program `data` with argument bytes `a` makes of
/// process `p0` in memory `mem0`: process `p` in memory `mem`.
pub open spec fn exec_image(
    p0: &ProcessControlBlock,
    mem0: &PhysMem,
    p: &ProcessControlBlock,
    mem: &PhysMem,
    data: Seq<u8>,
    a: Seq<Seq<u8>>,
    kernel_token: usize,
    trap_handler: usize,
    sstatus: usize,
    strampoline: usize,
) -> bool {
    let loads = load_segments(elf_segments_of(data));
    let th0 = p0.inner.tasks@[0]->0;
    let tid = th0.res->0.tid as int;
    let t = ustack_page(tid);
    let top = TRAMPOLINE - TRAP_CONTEXT_SIZE - tid * ustack_slot();
    let root = p.inner.memory_set.root();
    let th = p.inner.tasks@[0]->0;
    &&& p.pid == p0.pid
    &&& p.inner.wf(mem)
    &&& p.inner == (ProcessControlBlockInner {
        memory_set: p.inner.memory_set,
        heap_bottom: p.inner.heap_bottom,
        program_brk: p.inner.program_brk,
        tasks: p.inner.tasks,
        ..p0.inner
    })
    &&& p.inner.memory_set.views() == segment_views(loads).push(heap_view(loads)).push(
        (t as usize, (t + 1) as usize, MapType::Framed, 22u8),
    ).push(((t + 1) as usize, (t + 2) as usize, MapType::Framed, 6u8))
    &&& walk(mem, root, trampoline_vpn()) == Some(
        leaf_entry(PhysPageNum(strampoline / 4096), PTEFlags { bits: PTE_R | PTE_X }),
    )
    &&& forall|l: int, j: int|
        0 <= l < loads.len() && 0 <= j < loads[l].file_size ==> #[trigger] loaded_byte(mem, root, loads[l], j)
            == Some(data[loads[l].offset + j])
    &&& p.inner.heap_bottom == heap_page(loads) * 4096
    &&& p.inner.program_brk == p.inner.heap_bottom
    &&& p.inner.tasks@.len() == 1
    &&& p.inner.tasks@[0] is Some
    &&& th == (ThreadControlBlock { trap_cx_ppn: th.trap_cx_ppn, trap_cx: th.trap_cx, ..th0 })
    &&& th.trap_cx_ppn.0 == walk(mem, root, t + 1).unwrap().spec_ppn() as usize
    &&& laid_out(mem, walk(mem, root, t).unwrap().spec_ppn() as int, top, a, a.len() as int)
    &&& th.trap_cx.x@ == Seq::new(32, |i: int| 0usize).update(2, exec_sp(top, a) as usize).update(
        10,
        a.len() as usize,
    ).update(11, argv_base(top, a.len() as int) as usize)
    &&& th.trap_cx.sepc == crate::elf::elf_header_of(data).unwrap().1 as usize
    &&& th.trap_cx.sstatus == sstatus
    &&& th.trap_cx.kernel_satp == kernel_token
    &&& th.trap_cx.kernel_sp == TRAMPOLINE - th0.kernel_stack.0 * kstack_slot()
    &&& th.trap_cx.trap_handler == trap_handler
    &&& forall|f: int, s: int|
        0 <= f < mem0.nframes() ==> #[trigger] mem.pte(f, s) == mem0.pte(f, s)
}

/// A process.
pub struct ProcessControlBlock {
    /// The process id.
    pub pid: Pid,
    /// The mutable state.
    pub inner: ProcessControlBlockInner,
}

impl ProcessControlBlock {
    /// The mutable state of the process.
    pub fn inner_exclusive_access(&mut self) -> (r: &mut ProcessControlBlockInner)
        ensures
            *r == old(self).inner,
            final(self).pid == old(self).pid,
            final(self).inner == *final(r),
    {
        &mut self.inner
    }

    /// A process running the ELF program in `data`, under the next pid of `pids`: its
    /// address space as `MemorySet::from_elf_segments` loads the program, with the
    /// trampoline mapped to the page of `strampoline`; the console as descriptors 0, 1
    /// and 2; its heap empty at the heap start; `/` as working directory; and one
    /// ready thread, thread 0, with its user stack and trap context mapped, on
    /// `kernel_stack`, set to start at the program's entry point on its user stack,
    /// with the kernel's `kernel_token`, the handler `trap_handler` and the user-mode
    /// status word `sstatus`. `None`, with nothing changed, when the program cannot be
    /// loaded so.
    #[verifier::spinoff_prover]
    #[verifier::rlimit(100)]
    pub fn new(
        mem: &mut PhysMem,
        data: &[u8],
        pids: &mut RecycleAllocator,
        kernel_stack: KernelStack,
        kernel_token: usize,
        trap_handler: usize,
        sstatus: usize,
        strampoline: usize,
    ) -> (r: Option<ProcessControlBlock>)
        requires
            old(mem).wf(),
            old(pids).wf(),
            old(pids).released().len() == 0 ==> old(pids).next_fresh() < usize::MAX,
            kernel_stack.0 * kstack_slot() + KERNEL_STACK_SIZE <= TRAMPOLINE,
        ensures
            r is Some <==> process_loadable(old(mem), data@, 0),
            r is None ==> *final(mem) == *old(mem) && *final(pids) == *old(pids),
            r matches Some(p) ==> new_process(
                &p,
                old(mem),
                final(mem),
                old(pids),
                final(pids),
                data@,
                kernel_stack,
                kernel_token,
                trap_handler,
                sstatus,
                strampoline,
            ),
    {
        let (segs, entry) = match load_checks(mem, data, 0) {
            Some(t) => t,
            None => return None,
        };
        let ghost sq = segs@;
        let ghost loads = load_segments(sq);
        let ghost t = ustack_page(0);
        proof {
            assert(tid_fits(0));
        }
        let ghost mem0 = *mem;
        let (memory_set, heap_bottom, entry_point) = MemorySet::from_elf_segments(mem, data, &segs, entry, strampoline);
        let ghost mem1 = *mem;
        let pid = pid_alloc(pids);
        let mut fd_table: Vec<Option<FileDesc>> = Vec::new();
        fd_table.push(Some(FileDesc::Stdin));
        fd_table.push(Some(FileDesc::Stdout));
        fd_table.push(Some(FileDesc::Stderr));
        let mut process = ProcessControlBlock {
            pid,
            inner: ProcessControlBlockInner {
                is_zombie: false,
                memory_set,
                parent: None,
                children: Vec::new(),
                exit_code: 0,
                fd_table,
                tasks: Vec::new(),
                task_res_allocator: RecycleAllocator::new(),
                mutex_list: Vec::new(),
                sem_list: Vec::new(),
                cond_list: Vec::new(),
                signals: SignalFlags::empty(),
                heap_bottom,
                program_brk: heap_bottom,
                cwd: String::from_str("/"),
            },
        };
        let ghost ms1 = process.inner.memory_set;
        proof {
            let rs = segment_regions(loads);
            assert(heap_page(loads) <= trampoline_vpn()) by {
                if loads.len() > 0 {
                    assert(rs[loads.len() - 1] == crate::mem_set::segment_region(loads[loads.len() - 1]));
                }
            }
            assert(heap_bottom <= isize::MAX);
            assert forall|w: int| t <= w < t + 2 implies #[trigger] walk(mem, ms1.root(), w).is_none() by {
                assert forall|j: int, u: int| 0 <= j < loads.len() && #[trigger] in_region(rs[j], u) implies !same_slot(w, u) by {
                    if same_slot(w, u) {
                        crate::page_table::lemma_same_slot_mod(w, u);
                        assert(u < 134217728);
                    }
                }
                assert(clear_of_regions(rs, loads.len() as int, w));
                if same_slot(w, trampoline_vpn()) {
                    crate::page_table::lemma_same_slot_mod(w, trampoline_vpn());
                }
            }
            assert(next_alloc(process.inner.task_res_allocator) == 0);
            assert(tid_fits(0));
        }
        let kernel_stack_top = kernel_stack.get_top();
        let mut thread = ThreadControlBlock::new(&mut process.inner, mem, kernel_stack, true);
        let tid = thread.res.as_ref().unwrap().tid;
        let user_stack_top = user_stack_position(tid).1;
        thread.trap_cx = TrapContext::app_init_context(
            entry_point,
            user_stack_top,
            kernel_token,
            kernel_stack_top,
            trap_handler,
            sstatus,
        );
        process.inner.tasks.push(Some(thread));
        proof {
            reveal_strlit("/");
            assert(process.inner.fd_table@ =~= seq![Some(FileDesc::Stdin), Some(FileDesc::Stdout), Some(FileDesc::Stderr)]);
            assert(process.inner.task_res_allocator.allocated() =~= set![0int]);
            assert forall|l: int, j: int| 0 <= l < loads.len() && 0 <= j < loads[l].file_size implies #[trigger] loaded_byte(
                mem,
                process.inner.memory_set.root(),
                loads[l],
                j,
            ) == Some(data@[loads[l].offset + j]) by {
                let va = crate::addr::page_floor(loads[l].vaddr as int) * 4096 + j;
                ms1.lemma_views();
                assert(ms1.views()[l] == segment_views(loads)[l]);
                assert(loaded_byte(&mem1, ms1.root(), loads[l], j) == Some(data@[loads[l].offset + j]));
                ms1.lemma_loaded_frame(&mem1, loads, l, j);
                crate::mem_set::lemma_loaded_page(loads[l], j);
                assert(segment_regions(loads)[l] == crate::mem_set::segment_region(loads[l]));
                assert(in_region(segment_regions(loads)[l], va / 4096));
                assert(untouched(va / 4096, t as int, t + 2)) by {
                    assert forall|u: int| t <= u < t + 2 implies !#[trigger] same_slot(va / 4096, u) by {
                        if same_slot(va / 4096, u) {
                            crate::page_table::lemma_same_slot_mod(va / 4096, u);
                        }
                    }
                }
            }
        }
        Some(process)
    }

    /// Replace the program of this single-threaded process with the ELF program in
    /// `data`, started with the arguments `args`. The address space becomes the one
    /// `MemorySet::from_elf_segments` loads, with the trampoline mapped to the page of
    /// `strampoline`, and the thread's user stack and trap context mapped anew; the heap
    /// is empty at the new heap start. The arguments are laid out at the top of the
    /// user stack, and the thread restarts at the entry point with the stack pointer
    /// below them, `x10` the number of arguments and `x11` the address of `argv`, with
    /// the kernel's `kernel_token`, the handler `trap_handler` and the user-mode status
    /// word `sstatus`. `false`, with nothing changed, when the program cannot be loaded so.
    #[verifier::spinoff_prover]
    #[verifier::rlimit(100)]
    pub fn exec(
        &mut self,
        mem: &mut PhysMem,
        data: &[u8],
        args: &Vec<String>,
        kernel_token: usize,
        trap_handler: usize,
        sstatus: usize,
        strampoline: usize,
    ) -> (r: bool)
        requires
            old(self).inner.wf(old(mem)),
            old(self).inner.tasks@.len() == 1,
            old(self).inner.tasks@[0] matches Some(th) && th.res matches Some(res) && tid_fits(res.tid as int),
            old(self).inner.tasks@[0]->0.kernel_stack.0 * kstack_slot() + KERNEL_STACK_SIZE <= TRAMPOLINE,
            args_fit(arg_bytes(args@)),
        ensures
            r == process_loadable(old(mem), data@, old(self).inner.tasks@[0]->0.res->0.tid as int),
            !r ==> *final(self) == *old(self) && *final(mem) == *old(mem),
            r ==> exec_image(
                old(self),
                old(mem),
                final(self),
                final(mem),
                data@,
                arg_bytes(args@),
                kernel_token,
                trap_handler,
                sstatus,
                strampoline,
            ),
    {
        let tid = self.inner.tasks[0].as_ref().unwrap().res.as_ref().unwrap().tid;
        proof {
            self.inner.memory_set.lemma_token_root(mem);
        }
        let (segs, entry) = match load_checks(mem, data, tid) {
            Some(t) => t,
            None => return false,
        };
        let ghost loads = load_segments(segs@);
        let ghost t = ustack_page(tid as int);
        let mut thread = self.inner.tasks.pop().unwrap().unwrap();
        let entry_point = load_image(&mut self.inner, mem, data, &segs, entry, strampoline, tid);
        let ghost mem2 = *mem;
        let res = ThreadUserRes { tid };
        thread.trap_cx_ppn = res.trap_cx_ppn(&self.inner, mem);
        let (stack_bottom, top) = user_stack_position(tid);
        proof {
            lemma_slot_pages(tid as int);
            assert(stack_bottom / 4096 == t);
            assert(top == stack_bottom + 4096);
            assert(top % 8 == 0) by {
                assert(stack_bottom % 4096 == 0);
            }
            crate::page_table::lemma_ppn_bound(walk(mem, self.inner.memory_set.root(), t).unwrap());
            self.inner.memory_set.lemma_token_root(mem);
            mem.lemma_frames_bound();
        }
        let frame = self.inner.memory_set.translate(mem, VirtPageNum(stack_bottom / 4096)).unwrap().ppn().0;
        proof {
            assert(frame as int == walk(mem, self.inner.memory_set.root(), t).unwrap().spec_ppn());
            assert(frame * 4096 <= usize::MAX) by (nonlinear_arith)
                requires
                    frame < mem.nframes(),
                    mem.nframes() <= mem.frame_limit(),
                    mem.frame_limit() <= usize::MAX / 4096,
            ;
        }
        let (argv, sp) = write_args(mem, frame, top, args);
        proof {
            self.inner.memory_set.lemma_wf_grow(&mem2, mem);
            lemma_kept_after_write(data@, loads, &mem2, mem, self.inner.memory_set.root(), frame as int);
        }
        let kernel_stack_top = thread.kernel_stack.get_top();
        let mut cx = TrapContext::app_init_context(entry_point, sp, kernel_token, kernel_stack_top, trap_handler, sstatus);
        cx.x[10] = args.len();
        cx.x[11] = argv;
        thread.trap_cx = cx;
        self.inner.tasks.push(Some(thread));
        proof {
            assert(self.inner.tasks@ =~= seq![Some(thread)]);
        }
        true
    }

    /// A copy of this single-threaded process under a new pid from `pids`: its address
    /// space copied page by page into new frames (the trampoline mapped to the page of
    /// `strampoline`), its descriptors, heap bounds and working directory copied, and
    /// one ready thread, thread 0, on kernel stack `kernel_stack`, whose saved user
    /// state is this process's, with the kernel stack pointer of its own stack. The
    /// child is recorded among this process's children; it has no children, locks or
    /// pending signals of its own.
    pub fn fork(
        &mut self,
        mem: &mut PhysMem,
        pids: &mut RecycleAllocator,
        kernel_stack: KernelStack,
        strampoline: usize,
    ) -> (r: ProcessControlBlock)
        requires
            old(self).inner.wf(old(mem)),
            old(self).inner.tasks@.len() == 1,
            old(self).inner.tasks@[0] is Some,
            forall|i: int| 0 <= i < old(self).inner.memory_set.views().len()
                ==> (#[trigger] old(self).inner.memory_set.views()[i]).2 == MapType::Framed,
            forall|i: int, u: int|
                0 <= i < old(self).inner.memory_set.views().len() && (#[trigger] old(self).inner.memory_set.views()[i]).0 <= u
                    < old(self).inner.memory_set.views()[i].1 ==> !#[trigger] same_slot(u, trampoline_vpn()),
            exists|i: int|
                0 <= i < old(self).inner.memory_set.views().len() && (#[trigger] old(self).inner.memory_set.views()[i]).0
                    <= ustack_page(0) + 1 < old(self).inner.memory_set.views()[i].1,
            old(mem).free_frames() >= 3 + 3 * total_pages(old(self).inner.memory_set.views()),
            old(pids).wf(),
            old(pids).released().len() == 0 ==> old(pids).next_fresh() < usize::MAX,
            kernel_stack.0 * kstack_slot() + KERNEL_STACK_SIZE <= TRAMPOLINE,
        ensures
            final(self).inner.wf(final(mem)),
            final(self).pid == old(self).pid,
            final(self).inner == (ProcessControlBlockInner { children: final(self).inner.children, ..old(self).inner }),
            final(self).inner.children@ == old(self).inner.children@.push(
                ChildRecord { pid: r.pid.0, is_zombie: false, exit_code: 0 },
            ),
            final(pids).wf(),
            !old(pids).allocated().contains(r.pid.0 as int),
            final(pids).allocated() == old(pids).allocated().insert(r.pid.0 as int),
            r.pid.0 == next_alloc(*old(pids)),
            forked_from(&old(self).inner, old(self).pid.0, old(mem), &r, final(mem), kernel_stack, strampoline),
            r.inner.tasks@[0]->0.trap_cx == (TrapContext {
                kernel_sp: (TRAMPOLINE - kernel_stack.0 * kstack_slot()) as usize,
                ..old(self).inner.tasks@[0]->0.trap_cx
            }),
            forall|f: int, s: int| 0 <= f < old(mem).nframes() ==> #[trigger] final(mem).pte(f, s) == old(mem).pte(f, s),
            forall|pa: int| 0 <= pa < old(mem).nframes() * 4096 ==> #[trigger] final(mem).byte(pa) == old(mem).byte(pa),
    {
        let ghost mem0 = *mem;
        let ghost v0 = self.inner.memory_set.views();
        proof {
            self.inner.memory_set.lemma_views();
            assert forall|i: int, u: int|
                0 <= i < self.inner.memory_set.area_seq().len() && #[trigger] self.inner.memory_set.area_seq()[i].has(u)
                    implies !same_slot(u, trampoline_vpn()) by {
                assert(v0[i].0 <= u < v0[i].1);
            }
        }
        let memory_set = MemorySet::from_another(&self.inner.memory_set, mem, strampoline);
        let pid = pid_alloc(pids);
        let mut new_fd_table: Vec<Option<FileDesc>> = Vec::new();
        let mut i: usize = 0;
        while i < self.inner.fd_table.len()
            invariant
                0 <= i <= self.inner.fd_table@.len(),
                new_fd_table@ == self.inner.fd_table@.take(i as int),
            decreases self.inner.fd_table@.len() - i,
        {
            new_fd_table.push(self.inner.fd_table[i]);
            i = i + 1;
        }
        proof {
            assert(new_fd_table@ =~= self.inner.fd_table@);
        }
        let mut child = ProcessControlBlock {
            pid,
            inner: ProcessControlBlockInner {
                is_zombie: false,
                memory_set,
                parent: Some(self.pid.0),
                children: Vec::new(),
                exit_code: 0,
                fd_table: new_fd_table,
                tasks: Vec::new(),
                task_res_allocator: RecycleAllocator::new(),
                mutex_list: Vec::new(),
                sem_list: Vec::new(),
                cond_list: Vec::new(),
                signals: SignalFlags::empty(),
                heap_bottom: self.inner.heap_bottom,
                program_brk: self.inner.program_brk,
                cwd: self.inner.cwd.clone(),
            },
        };
        self.inner.children.push(ChildRecord { pid: child.pid.0, is_zombie: false, exit_code: 0 });
        proof {
            let i = choose|i: int|
                0 <= i < v0.len() && (#[trigger] v0[i]).0 <= ustack_page(0) + 1 < v0[i].1;
            assert(self.inner.memory_set.area_seq()[i].has(ustack_page(0) + 1));
            assert(tid_fits(0)) by {
                assert(TRAP_CONTEXT_SIZE + USER_STACK_SIZE <= TRAMPOLINE);
            }
            assert(next_alloc(child.inner.task_res_allocator) == 0);
        }
        let kstack_top = kernel_stack.get_top();
        let mut thread = ThreadControlBlock::new(&mut child.inner, mem, kernel_stack, false);
        let parent_cx = self.inner.tasks[0].as_ref().unwrap().trap_cx;
        thread.trap_cx = TrapContext { kernel_sp: kstack_top, ..parent_cx };
        child.inner.tasks.push(Some(thread));
        proof {
            assert(child.inner.task_res_allocator.allocated() =~= set![0int]);
            assert forall|i: int, u: int, k: int|
                0 <= i < v0.len() && (#[trigger] v0[i]).0 <= u < v0[i].1 && 0 <= k < 4096 implies #[trigger] page_byte(
                    mem,
                    child.inner.memory_set.root(),
                    u,
                    k,
                ) == page_byte(&mem0, self.inner.memory_set.root(), u, k) by {
                assert(old(self).inner.memory_set.area_seq()[i].has(u));
            }
            let croot = child.inner.memory_set.root();
            assert forall|i: int, u: int| 0 <= i < v0.len() && (#[trigger] v0[i]).0 <= u < v0[i].1 implies mem0.nframes()
                <= #[trigger] walk(mem, croot, u).unwrap().spec_ppn() by {
                assert(old(self).inner.memory_set.area_seq()[i].has(u));
            }
            assert forall|i1: int, u1: int, i2: int, u2: int|
                #![trigger v0[i1], v0[i2], walk(mem, croot, u1), walk(mem, croot, u2)]
                0 <= i1 < v0.len() && 0 <= i2 < v0.len() && v0[i1].0 <= u1 < v0[i1].1 && v0[i2].0 <= u2 < v0[i2].1 && u1 != u2
                    implies walk(mem, croot, u1).unwrap().spec_ppn() != walk(mem, croot, u2).unwrap().spec_ppn() by {
                assert(old(self).inner.memory_set.area_seq()[i1].has(u1));
                assert(old(self).inner.memory_set.area_seq()[i2].has(u2));
            }
        }
        child
    }

    /// The process id.
    pub fn getpid(&self) -> (r: usize)
        ensures
            r == self.pid.0,
    {
        self.pid.0
    }
}

} // verus!
