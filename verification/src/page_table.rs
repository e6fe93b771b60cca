//! SV39 page-table entries, a model of physical memory, and three-level page tables.
use vstd::prelude::*;
use crate::addr::{PhysAddr, PhysPageNum, VirtAddr, VirtPageNum, vpn_index, page_floor, page_ceil};
use crate::config::PAGE_SIZE;

verus! {

/// Mask of the 44 bits of a physical page number.
pub const PPN_MASK: u64 = 0xfff_ffff_ffff;

/// Valid flag bit.
pub const PTE_V: u8 = 1;
/// Readable flag bit.
pub const PTE_R: u8 = 2;
/// Writable flag bit.
pub const PTE_W: u8 = 4;
/// Executable flag bit.
pub const PTE_X: u8 = 8;
/// User-accessible flag bit.
pub const PTE_U: u8 = 16;
/// Global flag bit.
pub const PTE_G: u8 = 32;
/// Accessed flag bit.
pub const PTE_A: u8 = 64;
/// Dirty flag bit.
pub const PTE_D: u8 = 128;

/// Flag bits of a page-table entry.
#[derive(Clone, Copy, Debug, PartialEq, Eq, Structural)]
pub struct PTEFlags {
    /// The raw flag bits.
    pub bits: u8,
}

impl PTEFlags {
    /// The flags with the given bits set.
    pub fn of(bits: u8) -> (r: PTEFlags)
        ensures
            r.bits == bits,
    {
        PTEFlags { bits }
    }

    /// No flag set.
    pub fn empty() -> (r: PTEFlags)
        ensures
            r.bits == 0,
    {
        PTEFlags { bits: 0 }
    }

    /// The raw bits.
    pub fn bits(&self) -> (r: u8)
        ensures
            r == self.bits,
    {
        self.bits
    }

    /// Flags from raw bits; every 8-bit value names a set of known flags.
    pub fn from_bits(bits: u8) -> (r: Option<PTEFlags>)
        ensures
            r == Some(PTEFlags { bits }),
    {
        Some(PTEFlags { bits })
    }

    /// Whether every flag of `other` is set in `self`.
    pub fn contains(&self, other: PTEFlags) -> (r: bool)
        ensures
            r == (self.bits & other.bits == other.bits),
    {
        self.bits & other.bits == other.bits
    }

    /// The flags set in either operand.
    pub fn union(self, other: PTEFlags) -> (r: PTEFlags)
        ensures
            r.bits == self.bits | other.bits,
    {
        PTEFlags { bits: self.bits | other.bits }
    }
}

/// A page-table entry: a physical page number above ten flag bits.
#[derive(Clone, Copy, Debug, PartialEq, Eq, Structural)]
pub struct PageTableEntry {
    /// The raw entry.
    pub bits: u64,
}

impl PageTableEntry {
    /// The physical page number held by the entry.
    pub open spec fn spec_ppn(self) -> u64 {
        (self.bits >> 10u64) & PPN_MASK
    }

    /// The frame an entry points to, as the walker follows it.
    pub open spec fn node(self) -> int {
        (self.spec_ppn() as usize) as int
    }

    /// The low eight flag bits.
    pub open spec fn flag_bits(self) -> u8 {
        self.bits as u8
    }

    /// Whether the valid bit is set.
    pub open spec fn valid(self) -> bool {
        self.flag_bits() & 1u8 == 1u8
    }

    /// An entry that points to `ppn` with `flags`.
    pub fn new(ppn: PhysPageNum, flags: PTEFlags) -> (r: PageTableEntry)
        ensures
            r.bits == ((ppn.0 as u64) << 10u64) | (flags.bits as u64),
            r.flag_bits() == flags.bits,
            ppn.0 <= PPN_MASK ==> r.spec_ppn() == ppn.0 as u64,
    {
        let r = PageTableEntry { bits: ((ppn.0 as u64) << 10u64) | (flags.bits as u64) };
        proof {
            lemma_pte_fields(ppn.0 as u64, flags.bits);
        }
        r
    }

    /// The entry with no bit set.
    pub fn empty() -> (r: PageTableEntry)
        ensures
            r.bits == 0,
            !r.valid(),
    {
        proof {
            assert((0u64 as u8) & 1u8 == 0u8) by (bit_vector);
        }
        PageTableEntry { bits: 0 }
    }

    /// The physical page number held by the entry.
    pub fn ppn(&self) -> (r: PhysPageNum)
        ensures
            r.0 == self.spec_ppn() as usize,
    {
        PhysPageNum(((self.bits >> 10u64) & PPN_MASK) as usize)
    }

    /// The flag bits of the entry.
    pub fn flags(&self) -> (r: PTEFlags)
        ensures
            r.bits == self.flag_bits(),
    {
        PTEFlags::from_bits(self.bits as u8).unwrap()
    }

    /// Whether the entry is valid.
    pub fn is_valid(&self) -> (r: bool)
        ensures
            r == self.valid(),
    {
        self.flags().contains(PTEFlags::of(PTE_V))
    }

    /// Whether the entry allows reads.
    pub fn readable(&self) -> (r: bool)
        ensures
            r == (self.flag_bits() & 2u8 == 2u8),
    {
        self.flags().contains(PTEFlags::of(PTE_R))
    }

    /// Whether the entry allows writes.
    pub fn writable(&self) -> (r: bool)
        ensures
            r == (self.flag_bits() & 4u8 == 4u8),
    {
        self.flags().contains(PTEFlags::of(PTE_W))
    }

    /// Whether the entry allows execution.
    pub fn executable(&self) -> (r: bool)
        ensures
            r == (self.flag_bits() & 8u8 == 8u8),
    {
        self.flags().contains(PTEFlags::of(PTE_X))
    }
}

/// The page number held by an entry fits in 44 bits.
pub proof fn lemma_ppn_bound(e: PageTableEntry)
    ensures
        e.spec_ppn() <= PPN_MASK,
{
    let b = e.bits;
    assert(((b >> 10u64) & 0xfff_ffff_ffffu64) <= 0xfff_ffff_ffffu64) by (bit_vector);
}

/// Building an entry from a page number and flags and reading them back gives both back.
pub proof fn lemma_pte_fields(ppn: u64, flags: u8)
    ensures
        ((((ppn << 10u64) | (flags as u64)) as u8) == flags),
        ppn <= PPN_MASK ==> ((((ppn << 10u64) | (flags as u64)) >> 10u64) & PPN_MASK) == ppn,
{
    assert((((ppn << 10u64) | (flags as u64)) as u8) == flags) by (bit_vector);
    assert(ppn <= 0xfff_ffff_ffffu64 ==> ((((ppn << 10u64) | (flags as u64)) >> 10u64)
        & 0xfff_ffff_ffffu64) == ppn) by (bit_vector);
}

} // verus!

verus! {

/// A model of physical memory. Frames are numbered from zero and handed out in
/// order, up to a fixed number of frames; each frame holds 512 page-table entries
/// (as seen by the page-table walker) and 4096 data bytes (as seen by loads and
/// stores), both zero when the frame is handed out.
pub struct PhysMem {
    entries: Vec<PageTableEntry>,
    bytes: Vec<u8>,
    max_frames: usize,
}

impl PhysMem {
    /// Number of frames handed out so far.
    pub closed spec fn nframes(&self) -> int {
        (self.entries@.len() / 512) as int
    }

    /// The number of frames this memory can ever hand out.
    pub closed spec fn frame_limit(&self) -> int {
        self.max_frames as int
    }

    /// Number of frames still available.
    pub open spec fn free_frames(&self) -> int {
        self.frame_limit() - self.nframes()
    }

    /// Internal consistency of the memory model.
    pub closed spec fn wf(&self) -> bool {
        &&& self.entries@.len() % 512 == 0
        &&& self.bytes@.len() == self.entries@.len() * 8
        &&& self.nframes() <= self.max_frames
        &&& self.max_frames <= PPN_MASK
        &&& self.max_frames <= usize::MAX / 4096
    }

    /// Entry `idx` of frame `ppn`; memory outside the handed-out frames reads as zero.
    pub closed spec fn pte(&self, ppn: int, idx: int) -> PageTableEntry {
        if 0 <= ppn < self.nframes() && 0 <= idx < 512 {
            self.entries@[ppn * 512 + idx]
        } else {
            PageTableEntry { bits: 0 }
        }
    }

    /// The byte at physical address `pa`; memory outside the handed-out frames reads as zero.
    pub closed spec fn byte(&self, pa: int) -> u8 {
        if 0 <= pa < self.bytes@.len() {
            self.bytes@[pa]
        } else {
            0
        }
    }

    /// Empty memory that can hand out `max_frames` frames.
    pub fn new(max_frames: usize) -> (r: PhysMem)
        requires
            max_frames <= PPN_MASK,
            max_frames <= usize::MAX / 4096,
        ensures
            r.wf(),
            r.nframes() == 0,
            r.frame_limit() == max_frames,
    {
        PhysMem { entries: Vec::new(), bytes: Vec::new(), max_frames }
    }

    /// Well-formed memory never hands out more frames than its limit.
    pub proof fn lemma_frames_bound(&self)
        requires
            self.wf(),
        ensures
            0 <= self.nframes() <= self.frame_limit(),
            self.frame_limit() <= PPN_MASK,
            self.frame_limit() <= usize::MAX / 4096,
    {
    }

    /// Number of frames handed out so far.
    pub fn frame_count(&self) -> (r: usize)
        requires
            self.wf(),
        ensures
            r == self.nframes(),
    {
        self.entries.len() / 512
    }

    /// Number of frames still available.
    pub fn free_frame_count(&self) -> (r: usize)
        requires
            self.wf(),
        ensures
            r == self.free_frames(),
    {
        self.max_frames - self.entries.len() / 512
    }

    /// Hand out the next frame, zeroed, or `None` when every frame is taken.
    pub fn frame_alloc(&mut self) -> (r: Option<PhysPageNum>)
        requires
            old(self).wf(),
        ensures
            final(self).wf(),
            final(self).frame_limit() == old(self).frame_limit(),
            old(self).nframes() < old(self).frame_limit() ==> {
                &&& r == Some(PhysPageNum(old(self).nframes() as usize))
                &&& final(self).nframes() == old(self).nframes() + 1
            },
            old(self).nframes() >= old(self).frame_limit() ==> r.is_none() && *final(self) == *old(self),
            forall|f: int, s: int|
                0 <= f < old(self).nframes() ==> #[trigger] final(self).pte(f, s) == old(self).pte(f, s),
            forall|s: int| #[trigger] final(self).pte(old(self).nframes(), s).bits == 0,
            forall|pa: int|
                0 <= pa < old(self).nframes() * 4096 ==> #[trigger] final(self).byte(pa) == old(self).byte(pa),
            forall|pa: int|
                old(self).nframes() * 4096 <= pa < final(self).nframes() * 4096 ==> #[trigger] final(self).byte(pa) == 0,
    {
        let n = self.entries.len() / 512;
        if n >= self.max_frames {
            return None;
        }
        let ghost old_entries = self.entries@;
        let ghost old_bytes = self.bytes@;
        assert(old_entries.len() == n * 512);
        let mut k: usize = 0;
        while k < 512
            invariant
                0 <= k <= 512,
                old_entries.len() == n * 512,
                n < self.max_frames <= usize::MAX / 4096,
                self.entries@.len() == old_entries.len() + k,
                forall|x: int| 0 <= x < old_entries.len() ==> self.entries@[x] == old_entries[x],
                forall|x: int| old_entries.len() <= x < self.entries@.len() ==> self.entries@[x].bits == 0,
                self.bytes@ == old_bytes,
                self.max_frames == old(self).max_frames,
            decreases 512 - k,
        {
            self.entries.push(PageTableEntry { bits: 0 });
            k = k + 1;
        }
        let ghost mid = self.entries@;
        let mut b: usize = 0;
        while b < 4096
            invariant
                0 <= b <= 4096,
                old_entries.len() == n * 512,
                self.entries@.len() == n * 512 + 512,
                n < self.max_frames <= usize::MAX / 4096,
                old_bytes.len() == old_entries.len() * 8,
                self.bytes@.len() == old_bytes.len() + b,
                forall|x: int| 0 <= x < old_bytes.len() ==> self.bytes@[x] == old_bytes[x],
                forall|x: int| old_bytes.len() <= x < self.bytes@.len() ==> self.bytes@[x] == 0,
                self.entries@ == mid,
                self.max_frames == old(self).max_frames,
            decreases 4096 - b,
        {
            self.bytes.push(0);
            b = b + 1;
        }
        assert(self.entries@.len() / 512 == n + 1);
        assert(self.entries@.len() % 512 == 0);
        Some(PhysPageNum(n))
    }

    /// Read entry `idx` of frame `ppn`.
    pub fn get_pte(&self, ppn: usize, idx: usize) -> (r: PageTableEntry)
        requires
            self.wf(),
            idx < 512,
        ensures
            r == self.pte(ppn as int, idx as int),
    {
        if ppn < self.entries.len() / 512 {
            self.entries[ppn * 512 + idx]
        } else {
            PageTableEntry { bits: 0 }
        }
    }

    /// Write entry `idx` of frame `ppn`.
    pub fn set_pte(&mut self, ppn: usize, idx: usize, pte: PageTableEntry)
        requires
            old(self).wf(),
            ppn < old(self).nframes(),
            idx < 512,
        ensures
            final(self).wf(),
            final(self).nframes() == old(self).nframes(),
            final(self).frame_limit() == old(self).frame_limit(),
            forall|f: int, s: int| #[trigger]
                final(self).pte(f, s) == if f == ppn && s == idx {
                    pte
                } else {
                    old(self).pte(f, s)
                },
            forall|pa: int| #[trigger] final(self).byte(pa) == old(self).byte(pa),
    {
        self.entries.set(ppn * 512 + idx, pte);
    }

    /// Read the byte at physical address `pa`.
    pub fn read_byte(&self, pa: usize) -> (r: u8)
        ensures
            r == self.byte(pa as int),
    {
        if pa < self.bytes.len() {
            self.bytes[pa]
        } else {
            0
        }
    }

    /// Write the byte at physical address `pa`.
    pub fn write_byte(&mut self, pa: usize, b: u8)
        requires
            old(self).wf(),
            pa < old(self).nframes() * 4096,
        ensures
            final(self).wf(),
            final(self).nframes() == old(self).nframes(),
            final(self).frame_limit() == old(self).frame_limit(),
            forall|f: int, s: int| #[trigger] final(self).pte(f, s) == old(self).pte(f, s),
            forall|x: int| #[trigger]
                final(self).byte(x) == if x == pa {
                    b
                } else {
                    old(self).byte(x)
                },
    {
        self.bytes.set(pa, b);
    }
}

} // verus!

verus! {

/// The result of walking a page table from `ppn` at `level` (0 is the root level)
/// for virtual page `vpn`: the leaf entry if every entry on the way is valid.
pub open spec fn walk_from(mem: &PhysMem, ppn: int, vpn: int, level: int) -> Option<PageTableEntry>
    decreases 3 - level,
{
    if level < 0 || level >= 3 {
        None
    } else {
        let e = mem.pte(ppn, vpn_index(vpn, level));
        if !e.valid() {
            None
        } else if level == 2 {
            Some(e)
        } else {
            walk_from(mem, e.node(), vpn, level + 1)
        }
    }
}

/// The leaf entry that translates virtual page `vpn` in the page table rooted at `root`.
pub open spec fn walk(mem: &PhysMem, root: int, vpn: int) -> Option<PageTableEntry> {
    walk_from(mem, root, vpn, 0)
}

/// Whether two virtual page numbers select the same leaf slot (the same three indexes).
pub open spec fn same_slot(v: int, w: int) -> bool {
    &&& vpn_index(v, 0) == vpn_index(w, 0)
    &&& vpn_index(v, 1) == vpn_index(w, 1)
    &&& vpn_index(v, 2) == vpn_index(w, 2)
}

/// The three indexes of page `v` spell out its number modulo `2^27`.
pub proof fn lemma_slot_low_bits(v: int)
    requires
        0 <= v,
    ensures
        vpn_index(v, 0) * 262144 + vpn_index(v, 1) * 512 + vpn_index(v, 2) == v % 134217728,
{
    vstd::arithmetic::div_mod::lemma_mod_breakdown(v, 262144, 512);
    vstd::arithmetic::div_mod::lemma_mod_breakdown(v, 512, 512);
    assert(262144 * 512 == 134217728);
    assert(512 * 512 == 262144);
}

/// Pages that share a leaf slot agree modulo `2^27`.
pub proof fn lemma_same_slot_mod(v: int, w: int)
    requires
        0 <= v,
        0 <= w,
        same_slot(v, w),
    ensures
        v % 134217728 == w % 134217728,
{
    lemma_slot_low_bits(v);
    lemma_slot_low_bits(w);
}

/// Pages that select the same leaf slot translate the same way.
pub proof fn lemma_walk_same_slot(mem: &PhysMem, root: int, v: int, w: int)
    requires
        same_slot(v, w),
    ensures
        walk(mem, root, v) == walk(mem, root, w),
{
    reveal_with_fuel(walk_from, 4);
}

/// Number of intermediate frames the walk for `vpn` still lacks.
pub open spec fn nodes_missing(mem: &PhysMem, root: int, vpn: int) -> int {
    let e0 = mem.pte(root, vpn_index(vpn, 0));
    if !e0.valid() {
        2
    } else if !mem.pte(e0.node(), vpn_index(vpn, 1)).valid() {
        1
    } else {
        0
    }
}

/// The leaf entry that `map` writes: `ppn` with `flags` and the valid bit.
pub open spec fn leaf_entry(ppn: PhysPageNum, flags: PTEFlags) -> PageTableEntry {
    PageTableEntry { bits: ((ppn.0 as u64) << 10u64) | ((flags.bits | 1u8) as u64) }
}

/// A three-level SV39 page table: a root frame and the frames of its lower levels.
pub struct PageTable {
    root_ppn: PhysPageNum,
    frames: Vec<PhysPageNum>,
    /// Second-level frames, by first-level index.
    l1: Ghost<Map<int, int>>,
    /// Leaf-level frames, by `512 * first index + second index`.
    l2: Ghost<Map<int, int>>,
}

impl PageTable {
    /// The root frame.
    pub closed spec fn root(&self) -> int {
        self.root_ppn.0 as int
    }

    /// Whether frame `f` belongs to this page table.
    pub closed spec fn owns(&self, f: int) -> bool {
        0 <= f <= usize::MAX && self.frames@.contains(PhysPageNum(f as usize))
    }

    /// The frames of this page table, in the order they were taken.
    pub closed spec fn frame_list(&self) -> Seq<PhysPageNum> {
        self.frames@
    }

    /// The page table is a tree of distinct frames of `mem` that it owns.
    pub closed spec fn wf(&self, mem: &PhysMem) -> bool {
        let root = self.root();
        let l1 = self.l1@;
        let l2 = self.l2@;
        &&& mem.wf()
        &&& 0 <= root < mem.nframes()
        &&& self.owns(root)
        &&& forall|f: int| #[trigger] self.owns(f) ==> 0 <= f < mem.nframes()
        &&& forall|i: int| 0 <= i < 512 ==> (#[trigger] mem.pte(root, i)).valid() == l1.contains_key(i)
        &&& forall|i: int| #[trigger]
            l1.contains_key(i) ==> {
                &&& 0 <= i < 512
                &&& mem.pte(root, i).node() == l1[i]
                &&& 0 <= l1[i] < mem.nframes()
                &&& l1[i] != root
                &&& self.owns(l1[i])
            }
        &&& forall|i: int, j: int|
            l1.contains_key(i) && 0 <= j < 512 ==> (#[trigger] mem.pte(l1[i], j)).valid()
                == l2.contains_key(i * 512 + j)
        &&& forall|k: int| #[trigger]
            l2.contains_key(k) ==> {
                &&& 0 <= k < 262144
                &&& l1.contains_key(k / 512)
                &&& mem.pte(l1[k / 512], k % 512).node() == l2[k]
                &&& 0 <= l2[k] < mem.nframes()
                &&& l2[k] != root
                &&& self.owns(l2[k])
            }
        &&& forall|i1: int, i2: int|
            #![trigger l1[i1], l1[i2]]
            l1.contains_key(i1) && l1.contains_key(i2) && i1 != i2 ==> l1[i1] != l1[i2]
        &&& forall|k1: int, k2: int|
            #![trigger l2[k1], l2[k2]]
            l2.contains_key(k1) && l2.contains_key(k2) && k1 != k2 ==> l2[k1] != l2[k2]
        &&& forall|i: int, k: int|
            #![trigger l1[i], l2[k]]
            l1.contains_key(i) && l2.contains_key(k) ==> l1[i] != l2[k]
    }

    /// How the page table and memory may change in an operation: frames of memory
    /// that the table does not own keep their entries and bytes; the table keeps its
    /// root and its frames and only takes frames handed out during the operation.
    pub closed spec fn evolves(&self, mem: &PhysMem, next: &PageTable, next_mem: &PhysMem) -> bool {
        &&& next.root() == self.root()
        &&& next_mem.nframes() >= mem.nframes()
        &&& next_mem.frame_limit() == mem.frame_limit()
        &&& forall|f: int, s: int|
            0 <= f < mem.nframes() && !self.owns(f) ==> #[trigger] next_mem.pte(f, s) == mem.pte(f, s)
        &&& forall|pa: int| 0 <= pa < mem.nframes() * 4096 ==> #[trigger] next_mem.byte(pa) == mem.byte(pa)
        &&& forall|f: int| #[trigger] self.owns(f) ==> next.owns(f)
        &&& forall|f: int| #[trigger] next.owns(f) ==> self.owns(f) || mem.nframes() <= f < next_mem.nframes()
    }

    /// Under `wf`, the walk reads the leaf frame recorded for the first two indexes.
    proof fn lemma_walk_shape(&self, mem: &PhysMem, vpn: int)
        requires
            self.wf(mem),
        ensures
            ({
                let k = vpn_index(vpn, 0) * 512 + vpn_index(vpn, 1);
                walk(mem, self.root(), vpn) == if self.l2@.contains_key(k) && mem.pte(
                    self.l2@[k],
                    vpn_index(vpn, 2),
                ).valid() {
                    Some(mem.pte(self.l2@[k], vpn_index(vpn, 2)))
                } else {
                    None
                }
            }),
    {
        reveal_with_fuel(walk_from, 4);
        let i0 = vpn_index(vpn, 0);
        let i1 = vpn_index(vpn, 1);
        let k = i0 * 512 + i1;
        assert(0 <= i0 < 512 && 0 <= i1 < 512);
        assert(k / 512 == i0 && k % 512 == i1);
        let e0 = mem.pte(self.root(), i0);
        if e0.valid() {
            assert(self.l1@.contains_key(i0));
            let e1 = mem.pte(self.l1@[i0], i1);
            if e1.valid() {
                assert(self.l2@.contains_key(k));
            } else {
                assert(!self.l2@.contains_key(k));
            }
        } else {
            assert(!self.l1@.contains_key(i0));
            if self.l2@.contains_key(k) {
                assert(self.l1@.contains_key(k / 512));
            }
        }
    }

    /// Two memories that agree on the frames of a well-formed table give the same walks.
    pub proof fn lemma_frame(&self, mem: &PhysMem, mem2: &PhysMem)
        requires
            self.wf(mem),
            mem2.wf(),
            mem2.nframes() >= mem.nframes(),
            forall|f: int, s: int| self.owns(f) ==> #[trigger] mem2.pte(f, s) == mem.pte(f, s),
        ensures
            self.wf(mem2),
            forall|v: int| #[trigger] walk(mem2, self.root(), v) == walk(mem, self.root(), v),
            forall|v: int| #[trigger] nodes_missing(mem2, self.root(), v) == nodes_missing(mem, self.root(), v),
    {
        assert(self.wf(mem2)) by {
            assert forall|i: int| 0 <= i < 512 implies (#[trigger] mem2.pte(self.root(), i)).valid()
                == self.l1@.contains_key(i) by {
                assert(mem2.pte(self.root(), i) == mem.pte(self.root(), i));
            }
            assert forall|i: int| #[trigger] self.l1@.contains_key(i) implies mem2.pte(self.root(), i).node()
                == self.l1@[i] by {
                assert(mem2.pte(self.root(), i) == mem.pte(self.root(), i));
            }
            assert forall|i: int, j: int| self.l1@.contains_key(i) && 0 <= j < 512 implies (#[trigger] mem2.pte(
                self.l1@[i],
                j,
            )).valid() == self.l2@.contains_key(i * 512 + j) by {
                assert(mem2.pte(self.l1@[i], j) == mem.pte(self.l1@[i], j));
            }
            assert forall|k: int| #[trigger] self.l2@.contains_key(k) implies mem2.pte(
                self.l1@[k / 512],
                k % 512,
            ).node() == self.l2@[k] by {
                assert(self.l1@.contains_key(k / 512));
                assert(mem2.pte(self.l1@[k / 512], k % 512) == mem.pte(self.l1@[k / 512], k % 512));
            }
        }
        assert forall|v: int| #[trigger] walk(mem2, self.root(), v) == walk(mem, self.root(), v) by {
            self.lemma_walk_shape(mem, v);
            self.lemma_walk_shape(mem2, v);
            let k = vpn_index(v, 0) * 512 + vpn_index(v, 1);
            if self.l2@.contains_key(k) {
                assert(mem2.pte(self.l2@[k], vpn_index(v, 2)) == mem.pte(self.l2@[k], vpn_index(v, 2)));
            }
        }
        assert forall|v: int| #[trigger] nodes_missing(mem2, self.root(), v) == nodes_missing(mem, self.root(), v) by {
            self.lemma_missing(mem, v);
            self.lemma_missing(mem2, v);
        }
    }

    /// Whether `f` is a frame this table owns, usable outside this module.
    pub proof fn lemma_owned_in_memory(&self, mem: &PhysMem, f: int)
        requires
            self.wf(mem),
            self.owns(f),
        ensures
            0 <= f < mem.nframes(),
    {
    }

    /// Memory that only grew, without touching old frames, is an evolution that keeps the table.
    pub proof fn lemma_evolves_grow(&self, mem0: &PhysMem, mem1: &PhysMem)
        requires
            mem1.nframes() >= mem0.nframes(),
            mem1.frame_limit() == mem0.frame_limit(),
            forall|f: int, s: int| 0 <= f < mem0.nframes() ==> #[trigger] mem1.pte(f, s) == mem0.pte(f, s),
            forall|pa: int| 0 <= pa < mem0.nframes() * 4096 ==> #[trigger] mem1.byte(pa) == mem0.byte(pa),
        ensures
            self.evolves(mem0, self, mem1),
    {
    }

    /// An evolution stays one when later writes touch only bytes of frames handed out during it.
    pub proof fn lemma_evolves_bytes(&self, m0: &PhysMem, next: &PageTable, m1: &PhysMem, m2: &PhysMem)
        requires
            self.evolves(m0, next, m1),
            m2.nframes() == m1.nframes(),
            m2.frame_limit() == m1.frame_limit(),
            forall|f: int, s: int| #[trigger] m2.pte(f, s) == m1.pte(f, s),
            forall|pa: int| 0 <= pa < m0.nframes() * 4096 ==> #[trigger] m2.byte(pa) == m1.byte(pa),
        ensures
            self.evolves(m0, next, m2),
    {
        assert forall|pa: int| 0 <= pa < m0.nframes() * 4096 implies #[trigger] m2.byte(pa) == m0.byte(pa) by {
            assert(m1.byte(pa) == m0.byte(pa));
        }
    }

    /// What an evolution leaves alone: the entries of frames the table did not own, the
    /// bytes of the frames that were handed out, and no frame joins the table but new ones.
    pub proof fn lemma_evolves_keeps(&self, mem: &PhysMem, next: &PageTable, next_mem: &PhysMem)
        requires
            self.evolves(mem, next, next_mem),
        ensures
            forall|f: int, s: int|
                0 <= f < mem.nframes() && !self.owns(f) ==> #[trigger] next_mem.pte(f, s) == mem.pte(f, s),
            forall|pa: int| 0 <= pa < mem.nframes() * 4096 ==> #[trigger] next_mem.byte(pa) == mem.byte(pa),
            forall|f: int| #[trigger] next.owns(f) ==> self.owns(f) || mem.nframes() <= f < next_mem.nframes(),
    {
    }

    /// What an evolution keeps: the root, the frame limit, and the frames handed out.
    pub proof fn lemma_evolves_facts(&self, mem: &PhysMem, next: &PageTable, next_mem: &PhysMem)
        requires
            self.evolves(mem, next, next_mem),
        ensures
            next.root() == self.root(),
            next_mem.nframes() >= mem.nframes(),
            next_mem.frame_limit() == mem.frame_limit(),
    {
    }

    /// A well-formed table lives in well-formed memory.
    pub proof fn lemma_mem_wf(&self, mem: &PhysMem)
        requires
            self.wf(mem),
        ensures
            mem.wf(),
    {
    }

    /// The root of a well-formed table fits in a page-table entry.
    pub proof fn lemma_root_bound(&self, mem: &PhysMem)
        requires
            self.wf(mem),
        ensures
            0 <= self.root() <= PPN_MASK,
            self.root() < mem.nframes(),
    {
    }
}

} // verus!

verus! {

impl PageTable {
    /// A page table with a fresh, empty root frame.
    pub fn new(mem: &mut PhysMem) -> (r: PageTable)
        requires
            old(mem).wf(),
            old(mem).free_frames() >= 1,
        ensures
            r.wf(final(mem)),
            r.root() == old(mem).nframes(),
            final(mem).nframes() == old(mem).nframes() + 1,
            final(mem).frame_limit() == old(mem).frame_limit(),
            forall|f: int, s: int| 0 <= f < old(mem).nframes() ==> #[trigger] final(mem).pte(f, s) == old(mem).pte(f, s),
            forall|pa: int| 0 <= pa < old(mem).nframes() * 4096 ==> #[trigger] final(mem).byte(pa) == old(mem).byte(pa),
            forall|f: int| #[trigger] r.owns(f) <==> f == old(mem).nframes(),
            forall|v: int| #[trigger] walk(final(mem), r.root(), v).is_none(),
    {
        let frame = mem.frame_alloc().unwrap();
        let mut frames = Vec::new();
        frames.push(frame);
        let r = PageTable { root_ppn: frame, frames, l1: Ghost(Map::empty()), l2: Ghost(Map::empty()) };
        proof {
            assert(r.frames@ == seq![frame]);
            assert forall|f: int| #[trigger] r.owns(f) <==> f == old(mem).nframes() by {
                if r.owns(f) {
                    assert(r.frames@.contains(PhysPageNum(f as usize)));
                    let j = choose|j: int| 0 <= j < r.frames@.len() && r.frames@[j] == PhysPageNum(f as usize);
                    assert(j == 0);
                }
                if f == old(mem).nframes() {
                    assert(r.frames@[0] == PhysPageNum(f as usize));
                }
            }
            assert(r.owns(r.root()));
            assert forall|i: int| 0 <= i < 512 implies !(#[trigger] mem.pte(r.root(), i)).valid() by {
                assert(mem.pte(r.root(), i).bits == 0);
                assert((0u64 as u8) & 1u8 == 0u8) by (bit_vector);
            }
            assert forall|v: int| #[trigger] walk(mem, r.root(), v).is_none() by {
                r.lemma_walk_shape(mem, v);
            }
        }
        r
    }

    /// The page table whose root is named by a `satp` token; it owns no frames.
    pub fn from_token(satp: usize) -> (r: PageTable)
        ensures
            r.root() == ((satp as u64) & PPN_MASK) as usize,
            r.frame_list().len() == 0,
    {
        PageTable {
            root_ppn: PhysPageNum(((satp as u64) & PPN_MASK) as usize),
            frames: Vec::new(),
            l1: Ghost(Map::empty()),
            l2: Ghost(Map::empty()),
        }
    }

    /// The `satp` value that selects this page table in SV39 mode.
    pub fn token(&self) -> (r: usize)
        ensures
            r == ((8u64 << 60u64) | (self.root() as u64)) as usize,
    {
        ((8u64 << 60u64) | (self.root_ppn.0 as u64)) as usize
    }

    /// The leaf entry for `vpn`, if every entry on the walk is valid.
    fn find_pte(&self, mem: &PhysMem, vpn: VirtPageNum) -> (r: Option<PageTableEntry>)
        requires
            mem.wf(),
        ensures
            r == walk(mem, self.root(), vpn.0 as int),
    {
        let idxs = vpn.indexes();
        let mut ppn = self.root_ppn;
        let mut result: Option<PageTableEntry> = None;
        let mut i: usize = 0;
        while i < 3
            invariant_except_break
                0 <= i < 3,
                result.is_none(),
                mem.wf(),
                idxs[0] as int == vpn_index(vpn.0 as int, 0),
                idxs[1] as int == vpn_index(vpn.0 as int, 1),
                idxs[2] as int == vpn_index(vpn.0 as int, 2),
                idxs[0] < 512 && idxs[1] < 512 && idxs[2] < 512,
                walk_from(mem, ppn.0 as int, vpn.0 as int, i as int) == walk(mem, self.root(), vpn.0 as int),
            ensures
                result == walk(mem, self.root(), vpn.0 as int),
            decreases 3 - i,
        {
            let pte = mem.get_pte(ppn.0, idxs[i]);
            assert(pte == mem.pte(ppn.0 as int, vpn_index(vpn.0 as int, i as int)));
            if !pte.is_valid() {
                assert(walk_from(mem, ppn.0 as int, vpn.0 as int, i as int).is_none());
                break;
            }
            if i == 2 {
                result = Some(pte);
                assert(walk_from(mem, ppn.0 as int, vpn.0 as int, i as int) == Some(pte));
                break;
            }
            ppn = pte.ppn();
            i = i + 1;
        }
        result
    }

    /// The leaf entry that translates `vpn`.
    pub fn translate(&self, mem: &PhysMem, vpn: VirtPageNum) -> (r: Option<PageTableEntry>)
        requires
            mem.wf(),
        ensures
            r == walk(mem, self.root(), vpn.0 as int),
    {
        self.find_pte(mem, vpn)
    }

    /// The physical address that virtual address `va` translates to.
    pub fn translate_va(&self, mem: &PhysMem, va: VirtAddr) -> (r: Option<PhysAddr>)
        requires
            mem.wf(),
        ensures
            r == match walk(mem, self.root(), va.0 as int / 4096) {
                Some(e) => Some(PhysAddr(#[verifier::truncate] ((e.spec_ppn() * 4096 + va.0 as int % 4096) as usize))),
                None => None,
            },
    {
        match self.find_pte(mem, va.floor()) {
            Some(pte) => {
                let ppn = (pte.bits >> 10u64) & PPN_MASK;
                proof {
                    lemma_ppn_bound(pte);
                }
                let offset = va.page_offset();
                Some(PhysAddr(#[verifier::truncate] ((ppn * 4096 + offset as u64) as usize)))
            },
            None => None,
        }
    }
}

} // verus!

verus! {

impl PageTable {
    /// The frame the walk for `vpn` reaches at `level`, as recorded in the table.
    closed spec fn node_at(&self, vpn: int, level: int) -> Option<int> {
        let i0 = vpn_index(vpn, 0);
        let k = i0 * 512 + vpn_index(vpn, 1);
        if level == 0 {
            Some(self.root())
        } else if level == 1 {
            if self.l1@.contains_key(i0) {
                Some(self.l1@[i0])
            } else {
                None
            }
        } else if self.l2@.contains_key(k) {
            Some(self.l2@[k])
        } else {
            None
        }
    }

    /// Number of intermediate frames the table still lacks for `vpn`.
    closed spec fn missing(&self, vpn: int) -> int {
        let i0 = vpn_index(vpn, 0);
        let k = i0 * 512 + vpn_index(vpn, 1);
        if !self.l1@.contains_key(i0) {
            2
        } else if !self.l2@.contains_key(k) {
            1
        } else {
            0
        }
    }

    pub proof fn lemma_missing_bound(&self, mem: &PhysMem, vpn: int)
        requires
            self.wf(mem),
        ensures
            0 <= nodes_missing(mem, self.root(), vpn) <= 2,
            walk(mem, self.root(), vpn).is_some() ==> nodes_missing(mem, self.root(), vpn) == 0,
    {
        self.lemma_missing(mem, vpn);
        self.lemma_walk_shape(mem, vpn);
        let i0 = vpn_index(vpn, 0);
        let k = i0 * 512 + vpn_index(vpn, 1);
        assert(0 <= i0 < 512 && 0 <= vpn_index(vpn, 1) < 512);
        assert(k / 512 == i0);
    }

    proof fn lemma_missing(&self, mem: &PhysMem, vpn: int)
        requires
            self.wf(mem),
        ensures
            self.missing(vpn) == nodes_missing(mem, self.root(), vpn),
    {
        let i0 = vpn_index(vpn, 0);
        let i1 = vpn_index(vpn, 1);
        let k = i0 * 512 + i1;
        assert(0 <= i0 < 512 && 0 <= i1 < 512);
        assert(k / 512 == i0 && k % 512 == i1);
        if self.l1@.contains_key(i0) {
            assert(mem.pte(self.root(), i0).valid());
            assert(mem.pte(self.l1@[i0], i1).valid() == self.l2@.contains_key(k));
        } else {
            assert(!mem.pte(self.root(), i0).valid());
        }
    }

    pub proof fn lemma_evolves_trans(a: &PageTable, ma: &PhysMem, b: &PageTable, mb: &PhysMem, c: &PageTable, mc: &PhysMem)
        requires
            a.evolves(ma, b, mb),
            b.evolves(mb, c, mc),
        ensures
            a.evolves(ma, c, mc),
    {
        assert forall|f: int, s: int| 0 <= f < ma.nframes() && !a.owns(f) implies #[trigger] mc.pte(f, s) == ma.pte(f, s) by {
            if b.owns(f) {
                assert(a.owns(f) || ma.nframes() <= f < mb.nframes());
            }
            assert(mb.pte(f, s) == ma.pte(f, s));
        }
        assert forall|pa: int| 0 <= pa < ma.nframes() * 4096 implies #[trigger] mc.byte(pa) == ma.byte(pa) by {
            assert(mb.byte(pa) == ma.byte(pa));
        }
        assert forall|f: int| #[trigger] a.owns(f) implies c.owns(f) by {
            assert(b.owns(f));
        }
        assert forall|f: int| #[trigger] c.owns(f) implies a.owns(f) || ma.nframes() <= f < mc.nframes() by {
            assert(b.owns(f) || mb.nframes() <= f < mc.nframes());
            if b.owns(f) {
                assert(a.owns(f) || ma.nframes() <= f < mb.nframes());
            }
        }
    }

    pub proof fn lemma_evolves_refl(&self, mem: &PhysMem)
        ensures
            self.evolves(mem, self, mem),
    {
    }

    /// Follow entry `idx` of `node`, the frame at `level` of the walk for `vpn`,
    /// first pointing it to a fresh zeroed frame if it is not valid.
    fn next_node(
        &mut self,
        mem: &mut PhysMem,
        node: PhysPageNum,
        idx: usize,
        Ghost(level): Ghost<int>,
        Ghost(vpn): Ghost<int>,
    ) -> (r: Option<PhysPageNum>)
        requires
            old(self).wf(old(mem)),
            level == 0 || level == 1,
            idx as int == vpn_index(vpn, level),
            old(self).node_at(vpn, level) == Some(node.0 as int),
        ensures
            final(self).wf(final(mem)),
            old(self).evolves(old(mem), final(self), final(mem)),
            forall|v: int| #[trigger] walk(final(mem), final(self).root(), v) == walk(old(mem), old(self).root(), v),
            final(mem).free_frames() - final(self).missing(vpn) == old(mem).free_frames() - old(self).missing(vpn),
            level == 0 ==> old(self).node_at(vpn, 1).is_some() ==> final(self).node_at(vpn, 1) == old(self).node_at(vpn, 1),
            level == 1 ==> final(self).node_at(vpn, 1) == old(self).node_at(vpn, 1),
            match r {
                Some(n) => final(self).node_at(vpn, level + 1) == Some(n.0 as int),
                None => old(mem).free_frames() == 0 && old(self).missing(vpn) > 0,
            },
    {
        let ghost old_self = *self;
        let ghost mem0 = *mem;
        let pte = mem.get_pte(node.0, idx);
        let ghost i0 = vpn_index(vpn, 0);
        let ghost i1 = vpn_index(vpn, 1);
        let ghost k = i0 * 512 + i1;
        proof {
            assert(0 <= i0 < 512 && 0 <= i1 < 512);
            assert(k / 512 == i0 && k % 512 == i1);
            self.lemma_evolves_refl(mem);
        }
        if !pte.is_valid() {
            proof {
                if level == 0 {
                    assert(!self.l1@.contains_key(i0));
                } else {
                    assert(!self.l2@.contains_key(k));
                }
            }
            let frame = match mem.frame_alloc() {
                Some(f) => f,
                None => {
                    return None;
                },
            };
            let ghost mem1 = *mem;
            proof {
                self.lemma_frame(&mem0, &mem1);
            }
            let new_pte = PageTableEntry::new(frame, PTEFlags::of(PTE_V));
            mem.set_pte(node.0, idx, new_pte);
            self.frames.push(frame);
            let ghost mem2 = *mem;
            proof {
                let fr = frame.0 as int;
                assert(fr == mem0.nframes());
                assert((1u8 & 1u8) == 1u8) by (bit_vector);
                assert(new_pte.valid());
                assert(new_pte.node() == fr);
                assert(forall|s: int| #[trigger] mem2.pte(fr, s) == mem1.pte(fr, s) || (fr == node.0 && s == idx));
                assert(forall|s: int| #[trigger] mem1.pte(fr, s).bits == 0);
                assert((0u64 as u8) & 1u8 == 0u8) by (bit_vector);
                if level == 0 {
                    self.l1@ = self.l1@.insert(i0, fr);
                } else {
                    self.l2@ = self.l2@.insert(k, fr);
                }
                assert forall|f: int| #[trigger] self.owns(f) <==> old_self.owns(f) || f == fr by {
                    assert(self.frames@ == old_self.frames@.push(frame));
                    if f == fr {
                        assert(self.frames@[self.frames@.len() - 1] == frame);
                    }
                    if old_self.owns(f) {
                        let j = choose|j: int| 0 <= j < old_self.frames@.len() && old_self.frames@[j] == PhysPageNum(f as usize);
                        assert(self.frames@[j] == PhysPageNum(f as usize));
                    }
                    if self.owns(f) && f != fr {
                        let j = choose|j: int| 0 <= j < self.frames@.len() && self.frames@[j] == PhysPageNum(f as usize);
                        if j == self.frames@.len() - 1 {
                        } else {
                            assert(old_self.frames@[j] == PhysPageNum(f as usize));
                        }
                    }
                }
                let l1o = old_self.l1@;
                let l2o = old_self.l2@;
                let l1n = self.l1@;
                let l2n = self.l2@;
                let root = self.root();
                assert forall|f: int, s: int| 0 <= f < mem0.nframes() && !(f == node.0 && s == idx) implies
                    #[trigger] mem2.pte(f, s) == mem0.pte(f, s) by {
                    assert(mem1.pte(f, s) == mem0.pte(f, s));
                }
                assert(mem2.nframes() == mem0.nframes() + 1);
                assert forall|f: int| #[trigger] self.owns(f) implies 0 <= f < mem2.nframes() by {
                    if f != fr {
                        assert(old_self.owns(f));
                    }
                }
                assert forall|i: int| 0 <= i < 512 implies (#[trigger] mem2.pte(root, i)).valid() == l1n.contains_key(i) by {
                    if level == 0 && i == i0 {
                    } else {
                        assert(mem2.pte(root, i) == mem0.pte(root, i));
                    }
                }
                assert forall|i: int| #[trigger] l1n.contains_key(i) implies {
                    &&& 0 <= i < 512
                    &&& mem2.pte(root, i).node() == l1n[i]
                    &&& 0 <= l1n[i] < mem2.nframes()
                    &&& l1n[i] != root
                    &&& self.owns(l1n[i])
                } by {
                    if level == 0 && i == i0 {
                        assert(mem2.pte(root, i) == new_pte);
                        assert(self.owns(fr));
                    } else {
                        assert(l1o.contains_key(i));
                        assert(mem2.pte(root, i) == mem0.pte(root, i));
                        assert(old_self.owns(l1o[i]));
                        assert(self.owns(l1o[i]));
                    }
                }
                assert forall|i: int, j: int| l1n.contains_key(i) && 0 <= j < 512 implies (#[trigger] mem2.pte(l1n[i], j)).valid()
                    == l2n.contains_key(i * 512 + j) by {
                    if level == 0 && i == i0 {
                        assert(mem2.pte(fr, j) == mem1.pte(fr, j));
                        if l2n.contains_key(i * 512 + j) {
                            assert((i * 512 + j) / 512 == i);
                            assert(l1o.contains_key(i));
                        }
                    } else if level == 1 && i == i0 && j == i1 {
                    } else {
                        assert(l1o.contains_key(i));
                        if level == 1 {
                            assert(l1o[i] != l1o[i0] || i == i0);
                            assert(i * 512 + j != k);
                        }
                        assert(mem2.pte(l1n[i], j) == mem0.pte(l1o[i], j));
                    }
                }
                assert forall|kk: int| #[trigger] l2n.contains_key(kk) implies {
                    &&& 0 <= kk < 262144
                    &&& l1n.contains_key(kk / 512)
                    &&& mem2.pte(l1n[kk / 512], kk % 512).node() == l2n[kk]
                    &&& 0 <= l2n[kk] < mem2.nframes()
                    &&& l2n[kk] != root
                    &&& self.owns(l2n[kk])
                } by {
                    if level == 1 && kk == k {
                    } else {
                        assert(l2o.contains_key(kk));
                        assert(l1o.contains_key(kk / 512));
                        if level == 0 {
                            assert(kk / 512 != i0);
                        } else {
                            assert(kk == (kk / 512) * 512 + kk % 512);
                            assert(l1o[kk / 512] != l1o[i0] || kk / 512 == i0);
                        }
                        assert(mem2.pte(l1n[kk / 512], kk % 512) == mem0.pte(l1o[kk / 512], kk % 512));
                    }
                }
                assert forall|a: int, b: int| #![trigger l1n[a], l1n[b]] l1n.contains_key(a) && l1n.contains_key(b) && a != b implies l1n[a] != l1n[b] by {
                    if level == 0 && (a == i0 || b == i0) {
                    } else {
                        assert(l1o.contains_key(a) && l1o.contains_key(b));
                    }
                }
                assert forall|a: int, b: int| #![trigger l2n[a], l2n[b]] l2n.contains_key(a) && l2n.contains_key(b) && a != b implies l2n[a] != l2n[b] by {
                    if level == 1 && (a == k || b == k) {
                        if a != k {
                            assert(l2o.contains_key(a));
                        }
                        if b != k {
                            assert(l2o.contains_key(b));
                        }
                    } else {
                        assert(l2o.contains_key(a) && l2o.contains_key(b));
                    }
                }
                assert forall|a: int, b: int| #![trigger l1n[a], l2n[b]] l1n.contains_key(a) && l2n.contains_key(b) implies l1n[a] != l2n[b] by {
                    if level == 0 && a == i0 {
                        assert(l2o.contains_key(b));
                    } else if level == 1 && b == k {
                        assert(l1o.contains_key(a));
                    } else {
                        assert(l1o.contains_key(a) && l2o.contains_key(b));
                    }
                }
                assert(self.wf(mem));
                assert forall|v: int| #[trigger] walk(mem, self.root(), v) == walk(&mem1, old_self.root(), v) by {
                    self.lemma_walk_shape(mem, v);
                    old_self.lemma_walk_shape(&mem1, v);
                }
                assert(old_self.evolves(&mem0, self, mem));
            }
        }
        let pte2 = mem.get_pte(node.0, idx);
        Some(pte2.ppn())
    }
}

} // verus!

verus! {

impl PageTable {
    /// Writing the leaf slot of `vpn` changes only the walks that use that slot.
    proof fn lemma_set_leaf(&self, mem: &PhysMem, mem2: &PhysMem, vpn: int, e: PageTableEntry)
        requires
            self.wf(mem),
            mem2.wf(),
            mem2.nframes() == mem.nframes(),
            self.node_at(vpn, 2).is_some(),
            forall|f: int, s: int| #[trigger]
                mem2.pte(f, s) == if f == self.node_at(vpn, 2).unwrap() && s == vpn_index(vpn, 2) {
                    e
                } else {
                    mem.pte(f, s)
                },
        ensures
            self.wf(mem2),
            forall|v: int| #[trigger]
                walk(mem2, self.root(), v) == if same_slot(v, vpn) {
                    if e.valid() {
                        Some(e)
                    } else {
                        None
                    }
                } else {
                    walk(mem, self.root(), v)
                },
    {
        let i0 = vpn_index(vpn, 0);
        let i1 = vpn_index(vpn, 1);
        let k = i0 * 512 + i1;
        let leaf = self.l2@[k];
        assert(0 <= i0 < 512 && 0 <= i1 < 512);
        assert(k / 512 == i0 && k % 512 == i1);
        assert(self.l2@.contains_key(k));
        assert forall|f: int, s: int| f != leaf implies #[trigger] mem2.pte(f, s) == mem.pte(f, s) by {}
        assert forall|f: int, s: int| self.owns(f) && f != leaf implies #[trigger] mem2.pte(f, s) == mem.pte(f, s) by {}
        assert(self.wf(mem2)) by {
            assert forall|i: int| 0 <= i < 512 implies (#[trigger] mem2.pte(self.root(), i)).valid()
                == self.l1@.contains_key(i) by {
                assert(mem2.pte(self.root(), i) == mem.pte(self.root(), i));
            }
            assert forall|i: int| #[trigger] self.l1@.contains_key(i) implies mem2.pte(self.root(), i).node()
                == self.l1@[i] by {
                assert(mem2.pte(self.root(), i) == mem.pte(self.root(), i));
            }
            assert forall|i: int, j: int| self.l1@.contains_key(i) && 0 <= j < 512 implies (#[trigger] mem2.pte(
                self.l1@[i],
                j,
            )).valid() == self.l2@.contains_key(i * 512 + j) by {
                assert(self.l1@[i] != leaf);
                assert(mem2.pte(self.l1@[i], j) == mem.pte(self.l1@[i], j));
            }
            assert forall|kk: int| #[trigger] self.l2@.contains_key(kk) implies mem2.pte(
                self.l1@[kk / 512],
                kk % 512,
            ).node() == self.l2@[kk] by {
                assert(self.l1@.contains_key(kk / 512));
                assert(self.l1@[kk / 512] != leaf);
                assert(mem2.pte(self.l1@[kk / 512], kk % 512) == mem.pte(self.l1@[kk / 512], kk % 512));
            }
        }
        assert forall|v: int| #[trigger]
            walk(mem2, self.root(), v) == if same_slot(v, vpn) {
                if e.valid() {
                    Some(e)
                } else {
                    None
                }
            } else {
                walk(mem, self.root(), v)
            } by {
            self.lemma_walk_shape(mem, v);
            self.lemma_walk_shape(mem2, v);
            let v0 = vpn_index(v, 0);
            let v1 = vpn_index(v, 1);
            let kv = v0 * 512 + v1;
            assert(0 <= v0 < 512 && 0 <= v1 < 512);
            assert(kv / 512 == v0 && kv % 512 == v1);
            if self.l2@.contains_key(kv) {
                if kv == k {
                    assert(v0 == i0 && v1 == i1);
                } else {
                    assert(self.l2@[kv] != leaf);
                    assert(mem2.pte(self.l2@[kv], vpn_index(v, 2)) == mem.pte(self.l2@[kv], vpn_index(v, 2)));
                    assert(!same_slot(v, vpn));
                }
            } else {
                assert(kv != k);
                assert(!same_slot(v, vpn));
            }
        }
    }

    /// The slot that holds the leaf entry for `vpn`, creating missing intermediate
    /// frames on the way; `None` when memory runs out of frames.
    fn find_pte_create(&mut self, mem: &mut PhysMem, vpn: VirtPageNum) -> (r: Option<(PhysPageNum, usize)>)
        requires
            old(self).wf(old(mem)),
        ensures
            final(self).wf(final(mem)),
            old(self).evolves(old(mem), final(self), final(mem)),
            forall|v: int| #[trigger] walk(final(mem), final(self).root(), v) == walk(old(mem), old(self).root(), v),
            r.is_some() <==> old(mem).free_frames() >= nodes_missing(old(mem), old(self).root(), vpn.0 as int),
            r.is_some() ==> {
                &&& final(self).node_at(vpn.0 as int, 2) == Some(r.unwrap().0.0 as int)
                &&& r.unwrap().1 as int == vpn_index(vpn.0 as int, 2)
                &&& final(mem).nframes() - old(mem).nframes() == nodes_missing(old(mem), old(self).root(), vpn.0 as int)
            },
    {
        let ghost v = vpn.0 as int;
        proof {
            self.lemma_missing(mem, v);
            self.lemma_evolves_refl(mem);
        }
        let idxs = vpn.indexes();
        let mut ppn = self.root_ppn;
        let mut i: usize = 0;
        while i < 2
            invariant
                0 <= i <= 2,
                self.wf(mem),
                old(self).evolves(old(mem), self, mem),
                forall|w: int| #[trigger] walk(mem, self.root(), w) == walk(old(mem), old(self).root(), w),
                self.node_at(v, i as int) == Some(ppn.0 as int),
                mem.free_frames() - self.missing(v) == old(mem).free_frames() - old(self).missing(v),
                mem.frame_limit() == old(mem).frame_limit(),
                old(self).missing(v) == nodes_missing(old(mem), old(self).root(), v),
                v == vpn.0,
                idxs[0] as int == vpn_index(v, 0),
                idxs[1] as int == vpn_index(v, 1),
                idxs[2] as int == vpn_index(v, 2),
            decreases 2 - i,
        {
            let ghost s0 = *self;
            let ghost m0 = *mem;
            match self.next_node(mem, ppn, idxs[i], Ghost(i as int), Ghost(v)) {
                Some(p) => {
                    ppn = p;
                },
                None => {
                    proof {
                        PageTable::lemma_evolves_trans(old(self), old(mem), &s0, &m0, self, mem);
                    }
                    return None;
                },
            }
            proof {
                PageTable::lemma_evolves_trans(old(self), old(mem), &s0, &m0, self, mem);
            }
            i = i + 1;
        }
        proof {
            let i0 = vpn_index(v, 0);
            let k = i0 * 512 + vpn_index(v, 1);
            assert(0 <= i0 < 512 && 0 <= vpn_index(v, 1) < 512);
            assert(k / 512 == i0);
            assert(self.l2@.contains_key(k));
            assert(self.l1@.contains_key(i0));
            assert(self.missing(v) == 0);
        }
        Some((ppn, idxs[2]))
    }

    /// Map virtual page `vpn` to physical page `ppn` with `flags` (and the valid bit).
    pub fn map(&mut self, mem: &mut PhysMem, vpn: VirtPageNum, ppn: PhysPageNum, flags: PTEFlags)
        requires
            old(self).wf(old(mem)),
            walk(old(mem), old(self).root(), vpn.0 as int).is_none(),
            old(mem).free_frames() >= nodes_missing(old(mem), old(self).root(), vpn.0 as int),
        ensures
            final(self).wf(final(mem)),
            old(self).evolves(old(mem), final(self), final(mem)),
            final(mem).nframes() - old(mem).nframes() == nodes_missing(old(mem), old(self).root(), vpn.0 as int),
            forall|v: int| #[trigger]
                walk(final(mem), final(self).root(), v) == if same_slot(v, vpn.0 as int) {
                    Some(leaf_entry(ppn, flags))
                } else {
                    walk(old(mem), old(self).root(), v)
                },
    {
        let slot = self.find_pte_create(mem, vpn).unwrap();
        let ghost mem1 = *mem;
        let pte = mem.get_pte(slot.0.0, slot.1);
        proof {
            self.lemma_walk_shape(mem, vpn.0 as int);
            let i0 = vpn_index(vpn.0 as int, 0);
            let k = i0 * 512 + vpn_index(vpn.0 as int, 1);
            assert(0 <= i0 < 512 && 0 <= vpn_index(vpn.0 as int, 1) < 512);
            assert(k / 512 == i0);
            assert(!pte.valid());
        }
        let new_pte = PageTableEntry::new(ppn, flags.union(PTEFlags::of(PTE_V)));
        mem.set_pte(slot.0.0, slot.1, new_pte);
        proof {
            let fb = flags.bits;
            assert((fb | 1u8) & 1u8 == 1u8) by (bit_vector);
            assert(new_pte == leaf_entry(ppn, flags));
            assert(new_pte.valid());
            self.lemma_set_leaf(&mem1, mem, vpn.0 as int, new_pte);
            self.lemma_evolves_refl(&mem1);
            assert(self.evolves(&mem1, self, mem)) by {
                assert forall|f: int, s: int| 0 <= f < mem1.nframes() && !self.owns(f) implies #[trigger] mem.pte(f, s)
                    == mem1.pte(f, s) by {
                    assert(self.owns(self.node_at(vpn.0 as int, 2).unwrap()));
                }
            }
            PageTable::lemma_evolves_trans(old(self), old(mem), self, &mem1, self, mem);
        }
    }

    /// Remove the mapping of virtual page `vpn`.
    pub fn unmap(&mut self, mem: &mut PhysMem, vpn: VirtPageNum)
        requires
            old(self).wf(old(mem)),
            walk(old(mem), old(self).root(), vpn.0 as int).is_some(),
        ensures
            final(self).wf(final(mem)),
            old(self).evolves(old(mem), final(self), final(mem)),
            final(mem).nframes() == old(mem).nframes(),
            forall|v: int| #[trigger]
                walk(final(mem), final(self).root(), v) == if same_slot(v, vpn.0 as int) {
                    None
                } else {
                    walk(old(mem), old(self).root(), v)
                },
    {
        proof {
            self.lemma_walk_shape(mem, vpn.0 as int);
            self.lemma_missing(mem, vpn.0 as int);
            let i0 = vpn_index(vpn.0 as int, 0);
            let k = i0 * 512 + vpn_index(vpn.0 as int, 1);
            assert(0 <= i0 < 512 && 0 <= vpn_index(vpn.0 as int, 1) < 512);
            assert(k / 512 == i0);
            assert(self.l2@.contains_key(k));
            assert(self.missing(vpn.0 as int) == 0);
        }
        let slot = self.find_pte_create(mem, vpn).unwrap();
        let ghost mem1 = *mem;
        let empty = PageTableEntry::empty();
        mem.set_pte(slot.0.0, slot.1, empty);
        proof {
            self.lemma_set_leaf(&mem1, mem, vpn.0 as int, empty);
            assert(self.evolves(&mem1, self, mem)) by {
                assert forall|f: int, s: int| 0 <= f < mem1.nframes() && !self.owns(f) implies #[trigger] mem.pte(f, s)
                    == mem1.pte(f, s) by {
                    assert(self.owns(self.node_at(vpn.0 as int, 2).unwrap()));
                }
            }
            PageTable::lemma_evolves_trans(old(self), old(mem), self, &mem1, self, mem);
        }
    }
}

} // verus!

verus! {

/// The bytes of a page-aligned run `[start, end)` of offsets inside physical page `ppn`.
#[derive(Clone, Copy, Debug, PartialEq, Eq, Structural)]
pub struct PhysSlice {
    /// The physical page.
    pub ppn: PhysPageNum,
    /// First offset inside the page.
    pub start: usize,
    /// Offset after the last byte.
    pub end: usize,
}

/// The physical page that backs virtual page `vpn` in the table rooted at `root`.
pub open spec fn backing_ppn(mem: &PhysMem, root: int, vpn: int) -> usize {
    walk(mem, root, vpn).unwrap().spec_ppn() as usize
}

/// Whether every page touched by the bytes `[start, end)` is mapped.
pub open spec fn range_mapped(mem: &PhysMem, root: int, start: int, end: int) -> bool {
    forall|vpn: int| page_floor(start) <= vpn < page_ceil(end) ==> #[trigger] walk(mem, root, vpn).is_some()
}

/// The per-page pieces of the user bytes `[ptr, ptr + len)`: piece `i` covers page
/// `ptr / 4096 + i` from the larger of `ptr` and the page start to the smaller of
/// `ptr + len` and the page end.
pub open spec fn byte_pieces_ok(mem: &PhysMem, root: int, ptr: int, len: int, r: Seq<PhysSlice>) -> bool {
    let end = ptr + len;
    let v0 = page_floor(ptr);
    &&& r.len() == if len > 0 { page_ceil(end) - v0 } else { 0 }
    &&& forall|i: int|
        0 <= i < r.len() ==> {
            let page = (v0 + i) * 4096;
            &&& (#[trigger] r[i]).ppn.0 == backing_ppn(mem, root, v0 + i)
            &&& r[i].start == (if ptr > page { ptr } else { page }) - page
            &&& r[i].end == (if end < page + 4096 { end } else { page + 4096 }) - page
        }
}

/// The number of bytes in a sequence of pieces.
pub open spec fn total_len(s: Seq<PhysSlice>) -> int
    decreases s.len(),
{
    if s.len() == 0 {
        0
    } else {
        total_len(s.drop_last()) + (s.last().end - s.last().start)
    }
}

/// Split the user bytes `[ptr, ptr + len)` of the address space named by `token`
/// into pieces of physical pages.
pub fn translated_byte_buffer(mem: &PhysMem, token: usize, ptr: usize, len: usize) -> (r: Vec<PhysSlice>)
    requires
        mem.wf(),
        ptr + len <= usize::MAX - 4095,
        range_mapped(mem, ((token as u64) & PPN_MASK) as usize as int, ptr as int, ptr + len),
    ensures
        byte_pieces_ok(mem, ((token as u64) & PPN_MASK) as usize as int, ptr as int, len as int, r@),
        total_len(r@) == len,
{
    let page_table = PageTable::from_token(token);
    let ghost root = page_table.root();
    let mut start = ptr;
    let end = ptr + len;
    let mut v: Vec<PhysSlice> = Vec::new();
    let ghost v0 = page_floor(ptr as int);
    while start < end
        invariant
            mem.wf(),
            page_table.root() == root,
            end == ptr + len,
            end <= usize::MAX - 4095,
            ptr <= start <= end,
            range_mapped(mem, root, ptr as int, end as int),
            v@.len() == 0 ==> start == ptr,
            v@.len() > 0 ==> start == end || start == (v0 + v@.len()) * 4096,
            start < end ==> page_floor(start as int) == v0 + v@.len(),
            start == end ==> v@.len() == if len > 0 { page_ceil(end as int) - v0 } else { 0 },
            total_len(v@) == start - ptr,
            forall|i: int|
                0 <= i < v@.len() ==> {
                    let page = (v0 + i) * 4096;
                    &&& (#[trigger] v@[i]).ppn.0 == backing_ppn(mem, root, v0 + i)
                    &&& v@[i].start == (if ptr > page { ptr as int } else { page }) - page
                    &&& v@[i].end == (if end < page + 4096 { end as int } else { page + 4096 }) - page
                },
        decreases end - start,
    {
        let start_va = VirtAddr(start);
        let mut vpn = start_va.floor();
        assert(page_floor(start as int) <= vpn.0 < page_ceil(end as int));
        let ppn = page_table.translate(mem, vpn).unwrap().ppn();
        vpn.step();
        let mut end_va: VirtAddr = vpn.start_addr();
        if end < end_va.0 {
            end_va = VirtAddr(end);
        }
        let ghost old_v = v@;
        if end_va.page_offset() == 0 {
            v.push(PhysSlice { ppn, start: start_va.page_offset(), end: PAGE_SIZE });
        } else {
            v.push(PhysSlice { ppn, start: start_va.page_offset(), end: end_va.page_offset() });
        }
        proof {
            assert(v@.drop_last() == old_v);
        }
        start = end_va.0;
    }
    v
}

/// A user buffer: the physical pieces of a run of user bytes.
pub struct UserBuffer {
    /// The pieces, in address order.
    pub buf: Vec<PhysSlice>,
}

impl UserBuffer {
    /// A buffer made of the given pieces.
    pub fn new(buffers: Vec<PhysSlice>) -> (r: UserBuffer)
        ensures
            r.buf@ == buffers@,
    {
        UserBuffer { buf: buffers }
    }

    /// The buffer of the user bytes `[ptr, ptr + len)` of the address space named by `token`.
    pub fn from_raw_parts(mem: &PhysMem, token: usize, ptr: usize, len: usize) -> (r: UserBuffer)
        requires
            mem.wf(),
            ptr + len <= usize::MAX - 4095,
            range_mapped(mem, ((token as u64) & PPN_MASK) as usize as int, ptr as int, ptr + len),
        ensures
            byte_pieces_ok(mem, ((token as u64) & PPN_MASK) as usize as int, ptr as int, len as int, r.buf@),
            total_len(r.buf@) == len,
    {
        UserBuffer::new(translated_byte_buffer(mem, token, ptr, len))
    }

    /// The number of bytes in the buffer.
    pub fn len(&self) -> (r: usize)
        requires
            forall|i: int| 0 <= i < self.buf@.len() ==> (#[trigger] self.buf@[i]).start <= self.buf@[i].end,
            forall|n: int| 0 <= n <= self.buf@.len() ==> total_len(#[trigger] self.buf@.subrange(0, n)) <= usize::MAX,
        ensures
            r == total_len(self.buf@),
    {
        let mut sum: usize = 0;
        let mut i: usize = 0;
        while i < self.buf.len()
            invariant
                0 <= i <= self.buf@.len(),
                sum == total_len(self.buf@.subrange(0, i as int)),
                forall|j: int| 0 <= j < self.buf@.len() ==> (#[trigger] self.buf@[j]).start <= self.buf@[j].end,
                forall|n: int| 0 <= n <= self.buf@.len() ==> total_len(#[trigger] self.buf@.subrange(0, n)) <= usize::MAX,
            decreases self.buf@.len() - i,
        {
            let b = self.buf[i];
            proof {
                let s = self.buf@.subrange(0, i as int + 1);
                assert(s.drop_last() == self.buf@.subrange(0, i as int));
                assert(s.last() == b);
                assert(total_len(s) <= usize::MAX);
            }
            sum = sum + (b.end - b.start);
            i = i + 1;
        }
        assert(self.buf@.subrange(0, self.buf@.len() as int) == self.buf@);
        sum
    }
}

} // verus!

verus! {

/// The byte at user virtual address `va` of the table rooted at `root`, if its page is mapped.
pub open spec fn user_byte(mem: &PhysMem, root: int, va: int) -> Option<u8> {
    match walk(mem, root, va / 4096) {
        Some(e) => Some(mem.byte(((e.spec_ppn() * 4096 + va % 4096) as usize) as int)),
        None => None,
    }
}

/// Whether a NUL-terminated string of `n` bytes (NUL excluded) starts at user address `va`.
pub open spec fn user_cstr(mem: &PhysMem, root: int, va: int, n: int) -> bool {
    &&& 0 <= n
    &&& va + n <= usize::MAX
    &&& forall|j: int| 0 <= j < n ==> (#[trigger] user_byte(mem, root, va + j)).is_some() && user_byte(mem, root, va + j) != Some(0u8)
    &&& user_byte(mem, root, va + n) == Some(0u8)
}

/// Appends `c` to `s`: calls `String::push`, which the standard library documents as
/// appending the character to the end of the string.
#[verifier::external_body]
pub(crate) fn string_push(s: &mut String, c: char)
    ensures
        final(s)@ == old(s)@.push(c),
{
    s.push(c);
}

/// The NUL-terminated string at user address `ptr` of the address space named by
/// `token`, each byte taken as one character.
pub fn translated_str(mem: &PhysMem, token: usize, ptr: usize) -> (r: String)
    requires
        mem.wf(),
        exists|n: int| #[trigger] user_cstr(mem, ((token as u64) & PPN_MASK) as usize as int, ptr as int, n),
    ensures
        exists|n: int|
            #[trigger] user_cstr(mem, ((token as u64) & PPN_MASK) as usize as int, ptr as int, n) && r@ == Seq::new(
                n as nat,
                |j: int| (user_byte(mem, ((token as u64) & PPN_MASK) as usize as int, ptr as int + j).unwrap() as char),
            ),
{
    let page_table = PageTable::from_token(token);
    let ghost root = page_table.root();
    let ghost n = choose|n: int| user_cstr(mem, root, ptr as int, n);
    let mut string = String::new();
    let mut va = ptr;
    loop
        invariant
            mem.wf(),
            page_table.root() == root,
            user_cstr(mem, root, ptr as int, n),
            ptr <= va <= ptr + n,
            string@ == Seq::new((va - ptr) as nat, |j: int| (user_byte(mem, root, ptr as int + j).unwrap() as char)),
        ensures
            va == ptr + n,
        decreases ptr + n - va,
    {
        proof {
            let j = va - ptr;
            if j < n {
                assert(user_byte(mem, root, ptr as int + j).is_some());
            }
            lemma_ppn_bound_of_walk(mem, root, va as int);
        }
        let pa = page_table.translate_va(mem, VirtAddr(va)).unwrap();
        let ch: u8 = mem.read_byte(pa.0);
        if ch == 0 {
            assert(va == ptr + n);
            break;
        } else {
            let ghost old_s = string@;
            string_push(&mut string, ch as char);
            assert(string@ =~= Seq::new((va + 1 - ptr) as nat, |j: int| (user_byte(mem, root, ptr as int + j).unwrap() as char)));
            va = va + 1;
        }
    }
    assert(user_cstr(mem, root, ptr as int, n));
    string
}

/// Walks on a mapped page give a page number that fits in 44 bits.
proof fn lemma_ppn_bound_of_walk(mem: &PhysMem, root: int, va: int)
    ensures
        walk(mem, root, va / 4096).is_some() ==> walk(mem, root, va / 4096).unwrap().spec_ppn() <= PPN_MASK,
{
    if walk(mem, root, va / 4096).is_some() {
        lemma_ppn_bound(walk(mem, root, va / 4096).unwrap());
    }
}

/// The physical address of the user object at `ptr` in the address space named by `token`.
pub fn translated_refmut(mem: &PhysMem, token: usize, ptr: usize) -> (r: PhysAddr)
    requires
        mem.wf(),
        walk(mem, ((token as u64) & PPN_MASK) as usize as int, ptr as int / 4096).is_some(),
    ensures
        r.0 == ((walk(mem, ((token as u64) & PPN_MASK) as usize as int, ptr as int / 4096).unwrap().spec_ppn() * 4096
            + ptr as int % 4096) as usize),
{
    let page_table = PageTable::from_token(token);
    page_table.translate_va(mem, VirtAddr(ptr)).unwrap()
}

/// The physical address of the user object at `ptr` in the address space named by `token`.
pub fn translated_ref(mem: &PhysMem, token: usize, ptr: usize) -> (r: PhysAddr)
    requires
        mem.wf(),
        walk(mem, ((token as u64) & PPN_MASK) as usize as int, ptr as int / 4096).is_some(),
    ensures
        r.0 == ((walk(mem, ((token as u64) & PPN_MASK) as usize as int, ptr as int / 4096).unwrap().spec_ppn() * 4096
            + ptr as int % 4096) as usize),
{
    let page_table = PageTable::from_token(token);
    page_table.translate_va(mem, VirtAddr(ptr)).unwrap()
}

/// A page table's token names the same root frame again.
pub proof fn lemma_token_round_trip(root: usize)
    requires
        root <= PPN_MASK,
    ensures
        ((((((8u64 << 60u64) | (root as u64)) as usize) as u64) & PPN_MASK) as usize) == root,
{
    assert((root as u64) <= 0xfff_ffff_ffffu64 ==> ((((((8u64 << 60u64) | (root as u64)) as usize) as u64)
        & 0xfff_ffff_ffffu64) as usize) == root) by (bit_vector);
}

} // verus!
