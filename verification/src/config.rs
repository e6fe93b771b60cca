//! Kernel configuration constants.
use vstd::prelude::*;

verus! {

/// Clock frequency of the QEMU virt board (12.5 MHz).
pub const CLOCK_FREQ: usize = 12500000;
/// Size of a page in bytes.
pub const PAGE_SIZE: usize = 4096;
/// Number of bits of a page offset.
pub const PAGE_SIZE_BITS: usize = 12;
/// End of usable physical memory.
pub const MEMORY_END: usize = 0x8800_0000;
/// Virtual address of the trampoline page, the last page of the address space.
pub const TRAMPOLINE: usize = usize::MAX - PAGE_SIZE + 1;
/// Virtual address of the trap context of the first thread.
pub const TRAP_CONTEXT: usize = TRAMPOLINE - PAGE_SIZE;
/// Size of a trap-context slot.
pub const TRAP_CONTEXT_SIZE: usize = 4096;
/// Size of a user stack.
pub const USER_STACK_SIZE: usize = 4096;
/// Top of the first user stack.
pub const USER_STACK_TOP: usize = TRAP_CONTEXT;
/// Bottom of the first user stack.
pub const USER_STACK_BOTTOM: usize = TRAP_CONTEXT - USER_STACK_SIZE;
/// Size of the kernel heap.
pub const KERNEL_HEAP_SIZE: usize = 0x1000000;
/// Size of a kernel stack.
pub const KERNEL_STACK_SIZE: usize = 8192;

/// The configured constants agree with the way they are derived from each other.
pub proof fn lemma_config_consistent()
    ensures
        PAGE_SIZE == 1usize << PAGE_SIZE_BITS,
        TRAMPOLINE % PAGE_SIZE == 0,
        USER_STACK_BOTTOM < USER_STACK_TOP < TRAMPOLINE,
{
    assert(PAGE_SIZE == 1usize << PAGE_SIZE_BITS) by (bit_vector);
    assert(usize::MAX == 0xffff_ffff || usize::MAX == 0xffff_ffff_ffff_ffff);
}

} // verus!
