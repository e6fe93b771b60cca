//! Physical and virtual addresses and page numbers of the SV39 scheme.
use vstd::prelude::*;
use crate::config::PAGE_SIZE;

verus! {

/// Number of page-table entries in one page-table frame.
pub const PTE_PER_FRAME: usize = 512;

/// Number of low bits of a virtual page number that select a page-table slot.
pub open spec fn vpn_key_space() -> int {
    0x800_0000
}

/// The three 9-bit page-table indexes of a virtual page number, highest level first.
pub open spec fn vpn_index(vpn: int, level: int) -> int {
    if level == 0 {
        (vpn / 0x40000) % 512
    } else if level == 1 {
        (vpn / 512) % 512
    } else {
        vpn % 512
    }
}

/// A physical address.
#[derive(Clone, Copy, Debug, PartialEq, Eq, Structural)]
pub struct PhysAddr(pub usize);

/// A virtual address.
#[derive(Clone, Copy, Debug, PartialEq, Eq, Structural)]
pub struct VirtAddr(pub usize);

/// A physical page number.
#[derive(Clone, Copy, Debug, PartialEq, Eq, Structural)]
pub struct PhysPageNum(pub usize);

/// A virtual page number.
#[derive(Clone, Copy, Debug, PartialEq, Eq, Structural)]
pub struct VirtPageNum(pub usize);

/// The number of the page that holds address `a`.
pub open spec fn page_floor(a: int) -> int {
    a / 4096
}

/// The number of the first page boundary at or above address `a`.
pub open spec fn page_ceil(a: int) -> int {
    (a + 4095) / 4096
}

impl VirtAddr {
    /// The page that holds this address.
    pub fn floor(&self) -> (r: VirtPageNum)
        ensures
            r.0 == page_floor(self.0 as int),
    {
        VirtPageNum(self.0 / PAGE_SIZE)
    }

    /// The first page boundary at or above this address, as a page number.
    pub fn ceil(&self) -> (r: VirtPageNum)
        ensures
            r.0 == page_ceil(self.0 as int),
    {
        if self.0 == 0 {
            VirtPageNum(0)
        } else {
            VirtPageNum((self.0 - 1) / PAGE_SIZE + 1)
        }
    }

    /// The offset of this address inside its page.
    pub fn page_offset(&self) -> (r: usize)
        ensures
            r == self.0 % 4096,
    {
        self.0 % PAGE_SIZE
    }

    /// Whether this address is page aligned.
    pub fn aligned(&self) -> (r: bool)
        ensures
            r == (self.0 % 4096 == 0),
    {
        self.page_offset() == 0
    }
}

impl PhysAddr {
    /// The physical page that holds this address.
    pub fn floor(&self) -> (r: PhysPageNum)
        ensures
            r.0 == page_floor(self.0 as int),
    {
        PhysPageNum(self.0 / PAGE_SIZE)
    }

    /// The offset of this address inside its page.
    pub fn page_offset(&self) -> (r: usize)
        ensures
            r == self.0 % 4096,
    {
        self.0 % PAGE_SIZE
    }
}

impl VirtPageNum {
    /// The three page-table indexes of this page number, highest level first.
    pub fn indexes(&self) -> (r: [usize; 3])
        ensures
            r@.len() == 3,
            r[0] as int == vpn_index(self.0 as int, 0),
            r[1] as int == vpn_index(self.0 as int, 1),
            r[2] as int == vpn_index(self.0 as int, 2),
            r[0] < 512 && r[1] < 512 && r[2] < 512,
    {
        [(self.0 / 0x40000) % 512, (self.0 / 512) % 512, self.0 % 512]
    }

    /// Advance to the next page.
    pub fn step(&mut self)
        requires
            old(self).0 < usize::MAX,
        ensures
            final(self).0 == old(self).0 + 1,
    {
        self.0 = self.0 + 1;
    }

    /// The first address of this page.
    pub fn start_addr(&self) -> (r: VirtAddr)
        requires
            self.0 <= usize::MAX / 4096,
        ensures
            r.0 == self.0 * 4096,
    {
        VirtAddr(self.0 * PAGE_SIZE)
    }
}

impl PhysPageNum {
    /// The first address of this physical page.
    pub fn start_addr(&self) -> (r: PhysAddr)
        requires
            self.0 <= usize::MAX / 4096,
        ensures
            r.0 == self.0 * 4096,
    {
        PhysAddr(self.0 * PAGE_SIZE)
    }
}

/// A half-open range of virtual page numbers `[start, end)`.
#[derive(Clone, Copy, Debug, PartialEq, Eq, Structural)]
pub struct VPNRange {
    /// First page of the range.
    pub l: VirtPageNum,
    /// First page after the range.
    pub r: VirtPageNum,
}

impl VPNRange {
    /// The range `[start, end)`.
    pub fn new(start: VirtPageNum, end: VirtPageNum) -> (r: VPNRange)
        ensures
            r.l == start,
            r.r == end,
    {
        VPNRange { l: start, r: end }
    }

    /// First page of the range.
    pub fn get_start(&self) -> (r: VirtPageNum)
        ensures
            r == self.l,
    {
        self.l
    }

    /// First page after the range.
    pub fn get_end(&self) -> (r: VirtPageNum)
        ensures
            r == self.r,
    {
        self.r
    }

    /// Whether page `vpn` lies in the range.
    pub open spec fn contains(self, vpn: int) -> bool {
        self.l.0 <= vpn < self.r.0
    }
}

} // verus!
