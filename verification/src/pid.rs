//! Identifier allocation and the placement of kernel and user stacks.
use vstd::prelude::*;
use crate::config::{KERNEL_STACK_SIZE, PAGE_SIZE, TRAMPOLINE, TRAP_CONTEXT_SIZE, USER_STACK_SIZE};
use crate::addr::{VirtAddr, page_floor, page_ceil};
use crate::mem_set::{MemorySet, MapPermission, MapType, range_unmapped, unmap_result, MAP_R, MAP_W};
use crate::page_table::{PhysMem, walk, same_slot};

verus! {

/// The pid of the idle process.
pub const IDLE_PID: usize = 0;

/// A process identifier.
pub struct Pid(pub usize);

/// An allocator of small integers that hands back released ones first.
pub struct RecycleAllocator {
    current: usize,
    recycle: Vec<usize>,
}

impl RecycleAllocator {
    /// The next fresh value.
    pub closed spec fn next_fresh(&self) -> int {
        self.current as int
    }

    /// The released values, the last one released at the end.
    pub closed spec fn released(&self) -> Seq<usize> {
        self.recycle@
    }

    /// The values handed out and not released.
    pub open spec fn allocated(&self) -> Set<int> {
        Set::new(|x: int| 0 <= x < self.next_fresh() && !self.released().contains(x as usize))
    }

    /// Released values are below the next fresh value and appear once.
    pub open spec fn wf(&self) -> bool {
        &&& forall|i: int| 0 <= i < self.released().len() ==> (#[trigger] self.released()[i]) < self.next_fresh()
        &&& self.released().no_duplicates()
    }

    /// An allocator that has handed out nothing.
    pub fn new() -> (r: RecycleAllocator)
        ensures
            r.wf(),
            r.next_fresh() == 0,
            r.released() == Seq::<usize>::empty(),
    {
        RecycleAllocator { current: 0, recycle: Vec::new() }
    }

    /// Hand out the last released value, or the next fresh one.
    pub fn allocate(&mut self) -> (r: usize)
        requires
            old(self).wf(),
            old(self).released().len() == 0 ==> old(self).next_fresh() < usize::MAX,
        ensures
            final(self).wf(),
            old(self).released().len() > 0 ==> {
                &&& r == old(self).released().last()
                &&& final(self).released() == old(self).released().drop_last()
                &&& final(self).next_fresh() == old(self).next_fresh()
            },
            old(self).released().len() == 0 ==> {
                &&& r == old(self).next_fresh()
                &&& final(self).released() == old(self).released()
                &&& final(self).next_fresh() == old(self).next_fresh() + 1
            },
            !old(self).allocated().contains(r as int),
            final(self).allocated() == old(self).allocated().insert(r as int),
    {
        if let Some(pid) = self.recycle.pop() {
            proof {
                let o = old(self).recycle@;
                assert(o.last() == pid);
                assert(o.drop_last() == self.recycle@);
                assert(o.contains(pid)) by {
                    assert(o[o.len() - 1] == pid);
                }
                assert forall|i: int| 0 <= i < self.recycle@.len() implies (#[trigger] self.recycle@[i]) != pid by {
                    assert(self.recycle@[i] == o[i]);
                    assert(o[o.len() - 1] == pid);
                }
                assert(!self.recycle@.contains(pid));
                assert forall|x: int| #[trigger] self.allocated().contains(x) <==> old(self).allocated().insert(
                    pid as int,
                ).contains(x) by {
                    if x != pid as int && 0 <= x < self.current {
                        if o.contains(x as usize) {
                            let j = choose|j: int| 0 <= j < o.len() && o[j] == x as usize;
                            assert(j != o.len() - 1);
                            assert(self.recycle@[j] == x as usize);
                        }
                        if self.recycle@.contains(x as usize) {
                            let j = choose|j: int| 0 <= j < self.recycle@.len() && self.recycle@[j] == x as usize;
                            assert(o[j] == x as usize);
                        }
                    }
                }
                assert(self.allocated() =~= old(self).allocated().insert(pid as int));
            }
            pid
        } else {
            let pid = self.current;
            self.current = self.current + 1;
            proof {
                assert(self.allocated() =~= old(self).allocated().insert(pid as int));
            }
            pid
        }
    }

    /// Take back `pid`, which must be handed out and not yet released.
    pub fn dealloc(&mut self, pid: usize)
        requires
            old(self).wf(),
            pid < old(self).next_fresh(),
            !old(self).released().contains(pid),
        ensures
            final(self).wf(),
            final(self).released() == old(self).released().push(pid),
            final(self).next_fresh() == old(self).next_fresh(),
            final(self).allocated() == old(self).allocated().remove(pid as int),
    {
        self.recycle.push(pid);
        proof {
            let o = old(self).recycle@;
            assert forall|x: int| #[trigger] self.allocated().contains(x) <==> old(self).allocated().remove(pid as int).contains(x) by {
                if 0 <= x < self.current && x != pid {
                    if o.contains(x as usize) {
                        let j = choose|j: int| 0 <= j < o.len() && o[j] == x as usize;
                        assert(self.recycle@[j] == x as usize);
                    }
                    if self.recycle@.contains(x as usize) {
                        let j = choose|j: int| 0 <= j < self.recycle@.len() && self.recycle@[j] == x as usize;
                        assert(j != o.len());
                        assert(o[j] == x as usize);
                    }
                }
                if x == pid {
                    assert(self.recycle@[o.len() as int] == pid);
                }
            }
            assert(self.allocated() =~= old(self).allocated().remove(pid as int));
            assert forall|i: int, j: int| 0 <= i < self.recycle@.len() && 0 <= j < self.recycle@.len() && i != j implies self.recycle@[i]
                != self.recycle@[j] by {
                if i == o.len() as int {
                    assert(o[j] != pid) by {
                        if o[j] == pid {
                            assert(o.contains(pid));
                        }
                    }
                } else if j == o.len() as int {
                    assert(o[i] != pid) by {
                        if o[i] == pid {
                            assert(o.contains(pid));
                        }
                    }
                }
            }
        }
    }
}

/// Take a process identifier from `allocator`.
pub fn pid_alloc(allocator: &mut RecycleAllocator) -> (r: Pid)
    requires
        old(allocator).wf(),
        old(allocator).released().len() == 0 ==> old(allocator).next_fresh() < usize::MAX,
    ensures
        final(allocator).wf(),
        r.0 == next_alloc(*old(allocator)),
        !old(allocator).allocated().contains(r.0 as int),
        final(allocator).allocated() == old(allocator).allocated().insert(r.0 as int),
{
    Pid(allocator.allocate())
}

/// Bytes that each kernel stack slot takes: the stack and a guard page.
pub open spec fn kstack_slot() -> int {
    (KERNEL_STACK_SIZE + PAGE_SIZE) as int
}

/// The kernel stack of `id`: `(bottom, top)`, slot `id` counted down from the trampoline.
pub fn kernel_stack_position(id: usize) -> (r: (usize, usize))
    requires
        id * kstack_slot() + KERNEL_STACK_SIZE <= TRAMPOLINE,
    ensures
        r.1 == TRAMPOLINE - id * kstack_slot(),
        r.0 == r.1 - KERNEL_STACK_SIZE,
{
    let top = TRAMPOLINE - id * (KERNEL_STACK_SIZE + PAGE_SIZE);
    let bottom = top - KERNEL_STACK_SIZE;
    (bottom, top)
}

/// Bytes that each user stack slot takes: the stack, a trap context and a guard page.
pub open spec fn ustack_slot() -> int {
    (USER_STACK_SIZE + TRAP_CONTEXT_SIZE + PAGE_SIZE) as int
}

/// The user stack of thread `tid`: `(bottom, top)`, below the trap context of the first thread.
pub fn user_stack_position(tid: usize) -> (r: (usize, usize))
    requires
        TRAP_CONTEXT_SIZE + tid * ustack_slot() + USER_STACK_SIZE <= TRAMPOLINE,
    ensures
        r.1 == TRAMPOLINE - TRAP_CONTEXT_SIZE - tid * ustack_slot(),
        r.0 == r.1 - USER_STACK_SIZE,
{
    let top = TRAMPOLINE - TRAP_CONTEXT_SIZE - tid * (USER_STACK_SIZE + TRAP_CONTEXT_SIZE + PAGE_SIZE);
    let bottom = top - USER_STACK_SIZE;
    (bottom, top)
}

/// The trap context of thread `tid`: `(bottom, top)`, just above its user stack.
pub fn user_trap_cx_position(tid: usize) -> (r: (usize, usize))
    requires
        TRAP_CONTEXT_SIZE + tid * ustack_slot() + USER_STACK_SIZE <= TRAMPOLINE,
    ensures
        r.0 == TRAMPOLINE - TRAP_CONTEXT_SIZE - tid * ustack_slot(),
        r.1 == r.0 + TRAP_CONTEXT_SIZE,
{
    let bottom = user_stack_position(tid).1;
    let top = bottom + TRAP_CONTEXT_SIZE;
    (bottom, top)
}

/// The kernel stacks of two different ids are disjoint and leave a guard page between them.
pub proof fn lemma_kernel_stacks_disjoint(a: int, b: int)
    requires
        0 <= a < b,
    ensures
        TRAMPOLINE - b * kstack_slot() + PAGE_SIZE <= TRAMPOLINE - a * kstack_slot() - KERNEL_STACK_SIZE,
{
    assert(b * kstack_slot() >= (a + 1) * kstack_slot()) by (nonlinear_arith)
        requires
            a + 1 <= b,
            kstack_slot() > 0,
    ;
    assert((a + 1) * kstack_slot() == a * kstack_slot() + kstack_slot()) by (nonlinear_arith);
}

/// The user stacks and trap contexts of two different threads do not meet.
pub proof fn lemma_user_slots_disjoint(a: int, b: int)
    requires
        0 <= a < b,
    ensures
        TRAMPOLINE - TRAP_CONTEXT_SIZE - b * ustack_slot() + TRAP_CONTEXT_SIZE + PAGE_SIZE
            <= TRAMPOLINE - TRAP_CONTEXT_SIZE - a * ustack_slot() - USER_STACK_SIZE,
{
    assert(b * ustack_slot() >= (a + 1) * ustack_slot()) by (nonlinear_arith)
        requires
            a + 1 <= b,
            ustack_slot() > 0,
    ;
    assert((a + 1) * ustack_slot() == a * ustack_slot() + ustack_slot()) by (nonlinear_arith);
}

/// A kernel stack, named by its slot.
pub struct KernelStack(pub usize);

impl KernelStack {
    /// The top of this kernel stack.
    pub fn get_top(&self) -> (r: usize)
        requires
            self.0 * kstack_slot() + KERNEL_STACK_SIZE <= TRAMPOLINE,
        ensures
            r == TRAMPOLINE - self.0 * kstack_slot(),
    {
        let (_, top) = kernel_stack_position(self.0);
        top
    }
}

/// The first page of kernel stack `id`; the stack takes two pages.
pub open spec fn kstack_page(id: int) -> int {
    (TRAMPOLINE - id * kstack_slot() - KERNEL_STACK_SIZE) / 4096
}

/// The id an allocator hands out next: the last released one, or the next fresh one.
pub open spec fn next_alloc(a: RecycleAllocator) -> int {
    if a.released().len() > 0 {
        a.released().last() as int
    } else {
        a.next_fresh()
    }
}

/// The kernel stack slot of a fitting id is page aligned and lies below the trampoline.
proof fn lemma_kstack_pages(id: int)
    requires
        0 <= id,
        id * kstack_slot() + KERNEL_STACK_SIZE <= TRAMPOLINE,
    ensures
        page_floor(TRAMPOLINE - id * kstack_slot() - KERNEL_STACK_SIZE) == kstack_page(id),
        page_ceil(TRAMPOLINE - id * kstack_slot()) == kstack_page(id) + 2,
        kstack_page(id) + 2 <= crate::mem_set::trampoline_vpn(),
        0 <= kstack_page(id),
        !same_slot(kstack_page(id), kstack_page(id) + 1),
        !same_slot(kstack_page(id) + 1, kstack_page(id)),
{
    crate::config::lemma_config_consistent();
    let b = TRAMPOLINE - id * kstack_slot() - KERNEL_STACK_SIZE;
    assert(kstack_slot() == 12288);
    assert((id * 12288) % 4096 == 0) by (nonlinear_arith)
        requires
            id >= 0,
    ;
    assert(b % 4096 == 0) by (nonlinear_arith)
        requires
            b == TRAMPOLINE - id * 12288 - 8192,
            TRAMPOLINE % 4096 == 0,
            (id * 12288) % 4096 == 0,
    ;
    assert(usize::MAX as int / 4096 == TRAMPOLINE / 4096) by (nonlinear_arith)
        requires
            TRAMPOLINE == usize::MAX - 4095,
            TRAMPOLINE % 4096 == 0,
    ;
}

/// Take a kernel stack: an id from `allocator`, and its two pages mapped readable and
/// writable in the kernel address space.
pub fn kstack_alloc(allocator: &mut RecycleAllocator, kernel_space: &mut MemorySet, mem: &mut PhysMem) -> (r: KernelStack)
    requires
        old(allocator).wf(),
        old(allocator).released().len() == 0 ==> old(allocator).next_fresh() < usize::MAX,
        old(kernel_space).wf(old(mem)),
        next_alloc(*old(allocator)) * kstack_slot() + KERNEL_STACK_SIZE <= TRAMPOLINE,
        range_unmapped(
            old(mem),
            old(kernel_space).root(),
            kstack_page(next_alloc(*old(allocator))),
            kstack_page(next_alloc(*old(allocator))) + 2,
        ),
        old(mem).free_frames() >= 6,
    ensures
        r.0 == next_alloc(*old(allocator)),
        final(allocator).wf(),
        final(allocator).allocated() == old(allocator).allocated().insert(r.0 as int),
        final(kernel_space).wf(final(mem)),
        final(kernel_space).views() == old(kernel_space).views().push(
            (kstack_page(r.0 as int) as usize, (kstack_page(r.0 as int) + 2) as usize, MapType::Framed, 6u8),
        ),
        forall|u: int|
            kstack_page(r.0 as int) <= u < kstack_page(r.0 as int) + 2 ==> #[trigger] walk(
                final(mem),
                final(kernel_space).root(),
                u,
            ).is_some(),
{
    let kstack_id = allocator.allocate();
    let (kstack_bottom, kstack_top) = kernel_stack_position(kstack_id);
    proof {
        lemma_kstack_pages(kstack_id as int);
        assert((2u8 | 4u8) == 6u8 && 6u8 & 0xe1u8 == 0u8) by (bit_vector);
        let q = kstack_page(kstack_id as int);
        assert forall|u: int, w: int| q <= u < q + 2 && q <= w < q + 2 && u != w implies !#[trigger] same_slot(u, w) by {
            if u == q {
                assert(w == q + 1);
            } else {
                assert(u == q + 1 && w == q);
            }
        }
    }
    kernel_space.insert_framed_area(
        mem,
        VirtAddr(kstack_bottom),
        VirtAddr(kstack_top),
        MapPermission { bits: MAP_R | MAP_W },
    );
    KernelStack(kstack_id)
}

impl KernelStack {
    /// Give the kernel stack back: unmap its pages from the kernel address space and
    /// return its id to `allocator`.
    pub fn release(self, allocator: &mut RecycleAllocator, kernel_space: &mut MemorySet, mem: &mut PhysMem)
        requires
            old(allocator).wf(),
            old(allocator).allocated().contains(self.0 as int),
            old(kernel_space).wf(old(mem)),
            self.0 * kstack_slot() + KERNEL_STACK_SIZE <= TRAMPOLINE,
        ensures
            final(allocator).wf(),
            final(allocator).allocated() == old(allocator).allocated().remove(self.0 as int),
            final(kernel_space).wf(final(mem)),
            final(kernel_space).views() == unmap_result(
                old(kernel_space).views(),
                kstack_page(self.0 as int),
                kstack_page(self.0 as int) + 2,
            ),
    {
        let (kernel_stack_bottom, kernel_stack_top) = kernel_stack_position(self.0);
        proof {
            lemma_kstack_pages(self.0 as int);
        }
        kernel_space.munmap(mem, kernel_stack_bottom, kernel_stack_top);
        allocator.dealloc(self.0);
    }
}

} // verus!
