//! Kernel error kinds.
use vstd::prelude::*;

verus! {

/// Errors reported by the memory-management layer.
#[derive(Debug, Clone, Copy, PartialEq, Eq, Structural)]
pub enum KernelError {
    /// More memory released than was held.
    ReleaseTooMuch,
    /// No area starts at the address given to a shrink.
    ShrinkVirtAddrNotFound,
    /// No area starts at the address given to an append.
    AppendVirtAddrNotFound,
    /// No physical frame was left.
    FrameAllocFailed,
    /// Page-table entry flags are not valid.
    InvalidPteFlags,
    /// Map permission is not valid.
    InvalidMapPermission,
    /// The virtual address range is not valid.
    InvalidMapRange,
    /// Two map areas overlap.
    MapAreaOverlap,
    /// No area to unmap.
    MunmapAreaNotFound,
    /// A page-table walk failed.
    PageTableWalkFailed,
    /// The virtual page is already mapped.
    PageAlreadyMapped,
    /// The virtual page is not mapped.
    PageNotMapped,
    /// The virtual address is not mapped.
    VirtAddrNotMapped,
}

/// Result type of the kernel's fallible operations.
pub type KernelResult<T> = core::result::Result<T, KernelError>;

} // verus!
