//! Address spaces: contiguous map areas and the page table that maps them.
use vstd::prelude::*;
use std::collections::BTreeMap;
use crate::addr::{PhysAddr, PhysPageNum, VirtAddr, VirtPageNum, VPNRange, page_floor, page_ceil, vpn_index};
use crate::config::{PAGE_SIZE, TRAMPOLINE, MEMORY_END};
use crate::error::{KernelError, KernelResult};
use crate::page_table::{
    PhysMem, PageTable, PageTableEntry, PTEFlags, walk, same_slot, nodes_missing, leaf_entry, PTE_R, PTE_X, user_byte,
};
use crate::elf::{
    ElfSegment, SEG_LOAD, SEG_UNKNOWN, load_segments, segment_perm, segment_permission, lemma_load_segments_take, lemma_load_segments_len,
    elf_header, elf_program_header, elf_header_of, elf_program_header_of, ph_in_bounds, segment_of,
};

verus! {

broadcast use vstd::laws_cmp::group_laws_cmp;

/// Readable map permission bit.
pub const MAP_R: u8 = 2;
/// Writable map permission bit.
pub const MAP_W: u8 = 4;
/// Executable map permission bit.
pub const MAP_X: u8 = 8;
/// User-accessible map permission bit.
pub const MAP_U: u8 = 16;

/// How the pages of an area are backed.
#[derive(Clone, Copy, Debug, PartialEq, Eq, Structural)]
pub enum MapType {
    /// Each virtual page maps the physical page of the same number.
    Identical,
    /// Each virtual page maps a frame of its own.
    Framed,
}

/// Access permission of an area: the `R W X U` bits of a page-table entry.
#[derive(Clone, Copy, Debug, PartialEq, Eq, Structural)]
pub struct MapPermission {
    /// The raw bits.
    pub bits: u8,
}

impl MapPermission {
    /// Whether `bits` names only known permission bits.
    pub open spec fn known_bits(bits: u8) -> bool {
        bits & 0xe1u8 == 0
    }

    /// Permission from raw bits, `None` if an unknown bit is set.
    pub fn from_bits(bits: u8) -> (r: Option<MapPermission>)
        ensures
            r == if Self::known_bits(bits) {
                Some(MapPermission { bits })
            } else {
                None
            },
    {
        if bits & 0xe1u8 == 0 {
            Some(MapPermission { bits })
        } else {
            None
        }
    }

    /// The raw bits.
    pub fn bits(&self) -> (r: u8)
        ensures
            r == self.bits,
    {
        self.bits
    }

    /// The permissions set in either operand.
    pub fn union(self, other: MapPermission) -> (r: MapPermission)
        ensures
            r.bits == self.bits | other.bits,
    {
        MapPermission { bits: self.bits | other.bits }
    }
}

/// The abstract content of an area: first page, page after the last, kind, permission bits.
pub type AreaView = (usize, usize, MapType, u8);

/// The virtual page number of the trampoline page.
pub open spec fn trampoline_vpn() -> int {
    usize::MAX as int / 4096
}

/// A contiguous range of virtual pages mapped the same way.
pub struct MapArea {
    vpn_range: VPNRange,
    data_frames: BTreeMap<usize, PhysPageNum>,
    map_type: MapType,
    map_perm: MapPermission,
}

impl MapArea {
    /// The abstract content of the area.
    pub closed spec fn view(&self) -> AreaView {
        (self.vpn_range.l.0, self.vpn_range.r.0, self.map_type, self.map_perm.bits)
    }

    /// The frames that back a framed area, by virtual page.
    pub closed spec fn frames(&self) -> Map<usize, PhysPageNum> {
        self.data_frames@
    }

    /// Whether page `v` lies in the area.
    pub open spec fn has(&self, v: int) -> bool {
        self.view().0 <= v < self.view().1
    }

    /// The physical page that backs page `v` of the area.
    pub open spec fn ppn_for(&self, v: int) -> PhysPageNum {
        if self.view().2 == MapType::Identical {
            PhysPageNum(v as usize)
        } else {
            self.frames()[v as usize]
        }
    }

    /// The leaf entry that maps page `v` of the area.
    pub open spec fn entry_for(&self, v: int) -> PageTableEntry {
        leaf_entry(self.ppn_for(v), PTEFlags { bits: self.view().3 })
    }

    /// The area's own consistency: an ordered range below the trampoline, known
    /// permission bits, and frames for exactly its pages when framed.
    pub open spec fn area_wf(&self) -> bool {
        &&& self.view().0 <= self.view().1 <= trampoline_vpn()
        &&& MapPermission::known_bits(self.view().3)
        &&& self.view().2 == MapType::Framed ==> forall|v: usize| #[trigger]
            self.frames().contains_key(v) <==> self.has(v as int)
        &&& self.view().2 == MapType::Identical ==> self.frames() == Map::<usize, PhysPageNum>::empty()
    }

    /// The area of the pages that cover `[start_va, end_va)`.
    pub fn new(start_va: VirtAddr, end_va: VirtAddr, map_type: MapType, map_perm: MapPermission) -> (r: MapArea)
        ensures
            r.view() == (page_floor(start_va.0 as int) as usize, page_ceil(end_va.0 as int) as usize, map_type, map_perm.bits),
            r.frames() == Map::<usize, PhysPageNum>::empty(),
    {
        let start_vpn: VirtPageNum = start_va.floor();
        let end_vpn: VirtPageNum = end_va.ceil();
        MapArea { vpn_range: VPNRange::new(start_vpn, end_vpn), data_frames: BTreeMap::new(), map_type, map_perm }
    }

    /// An area with the range, kind and permission of `map_area` and no frames yet.
    pub fn from_another(map_area: &MapArea) -> (r: MapArea)
        ensures
            r.view() == map_area.view(),
            r.frames() == Map::<usize, PhysPageNum>::empty(),
    {
        MapArea {
            vpn_range: map_area.vpn_range,
            data_frames: BTreeMap::new(),
            map_type: map_area.map_type,
            map_perm: map_area.map_perm,
        }
    }

    /// Whether the pages that cover `[start_va, end_va)` meet the area.
    pub fn is_overlap(&self, start_va: VirtAddr, end_va: VirtAddr) -> (r: bool)
        ensures
            r == overlaps(self.view(), page_floor(start_va.0 as int), page_ceil(end_va.0 as int)),
    {
        let start_vpn = start_va.floor();
        let end_vpn = end_va.ceil();
        !(end_vpn.0 <= self.vpn_range.get_start().0 || start_vpn.0 >= self.vpn_range.get_end().0)
    }
}

/// Whether the page range `[s, e)` meets area `a` in the sense of `is_overlap`.
pub open spec fn overlaps(a: AreaView, s: int, e: int) -> bool {
    !(e <= a.0 || s >= a.1)
}

} // verus!

verus! {

/// Whether page `w` uses none of the leaf slots of the pages `[l, i)`.
pub open spec fn untouched(w: int, l: int, i: int) -> bool {
    forall|u: int| l <= u < i ==> !#[trigger] same_slot(w, u)
}

/// Whether the pages `[l, r)` use pairwise distinct leaf slots.
pub open spec fn distinct_slots(l: int, r: int) -> bool {
    forall|u: int, w: int| l <= u < r && l <= w < r && u != w ==> !#[trigger] same_slot(u, w)
}

/// Whether none of the pages `[l, r)` is mapped.
pub open spec fn range_unmapped(mem: &PhysMem, root: int, l: int, r: int) -> bool {
    forall|u: int| l <= u < r ==> #[trigger] walk(mem, root, u).is_none()
}

/// Distinct positions of a framed area whose pages hold distinct frames land at
/// distinct physical addresses.
proof fn lemma_data_dest_injective(a: MapArea, j1: int, j2: int)
    requires
        0 <= j1 < (a.view().1 - a.view().0) * 4096,
        0 <= j2 < (a.view().1 - a.view().0) * 4096,
        j1 != j2,
        forall|v: usize, w: usize|
            a.has(v as int) && a.has(w as int) && v != w ==> #[trigger] a.frames()[v] != #[trigger] a.frames()[w],
    ensures
        a.data_dest(j1) != a.data_dest(j2),
{
    let p1 = j1 / 4096;
    let p2 = j2 / 4096;
    let k1 = j1 % 4096;
    let k2 = j2 % 4096;
    assert(0 <= p1 < a.view().1 - a.view().0 && 0 <= p2 < a.view().1 - a.view().0) by (nonlinear_arith)
        requires
            0 <= j1 < (a.view().1 - a.view().0) * 4096,
            0 <= j2 < (a.view().1 - a.view().0) * 4096,
            p1 == j1 / 4096,
            p2 == j2 / 4096,
    ;
    let v1 = (a.view().0 + p1) as usize;
    let v2 = (a.view().0 + p2) as usize;
    assert(a.has(v1 as int) && a.has(v2 as int));
    let f1 = a.frames()[v1].0 as int;
    let f2 = a.frames()[v2].0 as int;
    if p1 == p2 {
        assert(k1 != k2) by (nonlinear_arith)
            requires
                p1 == j1 / 4096,
                p2 == j2 / 4096,
                k1 == j1 % 4096,
                k2 == j2 % 4096,
                p1 == p2,
                j1 != j2,
        ;
    } else {
        assert(v1 != v2);
        assert(f1 != f2);
        assert(f1 * 4096 + k1 != f2 * 4096 + k2) by (nonlinear_arith)
            requires
                f1 != f2,
                0 <= k1 < 4096,
                0 <= k2 < 4096,
        ;
    }
}

/// Byte `k` of physical frame `f`.
pub open spec fn cell(mem: &PhysMem, f: int, k: int) -> u8 {
    mem.byte(f * 4096 + k)
}

/// The number of 512-page blocks, each served by one leaf table, that the pages
/// `[l, r)` touch.
pub open spec fn blocks(l: int, r: int) -> int {
    if l < r {
        (r - 1) / 512 - l / 512 + 1
    } else {
        0
    }
}

/// A run of pages touches no more blocks than it has pages.
pub proof fn lemma_blocks_le(l: int, r: int)
    requires
        0 <= l,
    ensures
        0 <= blocks(l, r) <= if l < r { r - l } else { 0 },
{
    if l < r {
        assert((r - 1) / 512 - l / 512 + 1 <= r - l) by (nonlinear_arith)
            requires
                0 <= l < r,
        ;
        assert(l / 512 <= (r - 1) / 512) by (nonlinear_arith)
            requires
                0 <= l <= r - 1,
        ;
    }
}

/// Adding page `i` to the run `[l, i)` adds a block exactly when `i` starts one.
proof fn lemma_blocks_step(l: int, i: int, r: int)
    requires
        0 <= l <= i < r,
    ensures
        blocks(l, i + 1) == if i > l && i % 512 != 0 { blocks(l, i) } else { blocks(l, i) + 1 },
        blocks(l, i + 1) <= blocks(l, r),
{
    assert(l / 512 <= i / 512 <= (r - 1) / 512) by (nonlinear_arith)
        requires
            0 <= l <= i <= r - 1,
    ;
    if i > l {
        if i % 512 != 0 {
            assert(i / 512 == (i - 1) / 512) by (nonlinear_arith)
                requires
                    i > 0,
                    i % 512 != 0,
            ;
        } else {
            assert(i / 512 == (i - 1) / 512 + 1) by (nonlinear_arith)
                requires
                    i > 0,
                    i % 512 == 0,
            ;
        }
    }
}

/// Once page `w` is mapped, page `w + 1` of the same block finds its intermediate
/// tables in place.
proof fn lemma_next_in_block(mem: &PhysMem, root: int, w: int)
    requires
        0 <= w,
        (w + 1) % 512 != 0,
        walk(mem, root, w) is Some,
    ensures
        nodes_missing(mem, root, w + 1) == 0,
{
    let v = w + 1;
    assert(w / 512 == v / 512) by (nonlinear_arith)
        requires
            v == w + 1,
            v % 512 != 0,
            w >= 0,
    ;
    vstd::arithmetic::div_mod::lemma_div_denominator(w, 512, 512);
    vstd::arithmetic::div_mod::lemma_div_denominator(v, 512, 512);
    assert(vpn_index(w, 0) == vpn_index(v, 0));
    assert(vpn_index(w, 1) == vpn_index(v, 1));
    reveal_with_fuel(crate::page_table::walk_from, 3);
}

impl MapArea {
    /// Map page `vpn` of this area, taking a fresh frame for it when the area is framed.
    pub fn map_one(&mut self, page_table: &mut PageTable, mem: &mut PhysMem, vpn: VirtPageNum) -> (r: KernelResult<()>)
        requires
            old(page_table).wf(old(mem)),
            walk(old(mem), old(page_table).root(), vpn.0 as int).is_none(),
            old(self).view().2 == MapType::Identical ==> old(mem).free_frames() >= nodes_missing(
                old(mem),
                old(page_table).root(),
                vpn.0 as int,
            ),
            old(self).view().2 == MapType::Framed && old(mem).free_frames() >= 1 ==> old(mem).free_frames() - 1
                >= nodes_missing(old(mem), old(page_table).root(), vpn.0 as int),
        ensures
            final(self).view() == old(self).view(),
            match r {
                Ok(()) => {
                    &&& final(page_table).wf(final(mem))
                    &&& old(page_table).evolves(old(mem), final(page_table), final(mem))
                    &&& final(self).frames() == if old(self).view().2 == MapType::Framed {
                        old(self).frames().insert(vpn.0, PhysPageNum(old(mem).nframes() as usize))
                    } else {
                        old(self).frames()
                    }
                    &&& final(mem).nframes() == old(mem).nframes() + nodes_missing(old(mem), old(page_table).root(), vpn.0 as int)
                        + if old(self).view().2 == MapType::Framed { 1int } else { 0int }
                    &&& forall|v: int| #[trigger]
                        walk(final(mem), final(page_table).root(), v) == if same_slot(v, vpn.0 as int) {
                            Some(final(self).entry_for(vpn.0 as int))
                        } else {
                            walk(old(mem), old(page_table).root(), v)
                        }
                    &&& old(self).view().2 == MapType::Framed ==> forall|k: int|
                        0 <= k < 4096 ==> #[trigger] final(mem).byte(old(mem).nframes() * 4096 + k) == 0
                },
                Err(e) => {
                    &&& e == KernelError::FrameAllocFailed
                    &&& old(self).view().2 == MapType::Framed
                    &&& old(mem).free_frames() == 0
                    &&& *final(self) == *old(self)
                    &&& *final(page_table) == *old(page_table)
                    &&& *final(mem) == *old(mem)
                },
            },
    {
        let ppn: PhysPageNum;
        let ghost mem0 = *mem;
        let ghost pt0 = *page_table;
        proof {
            pt0.lemma_evolves_refl(&mem0);
            pt0.lemma_mem_wf(&mem0);
            mem0.lemma_frames_bound();
        }
        match self.map_type {
            MapType::Identical => {
                ppn = PhysPageNum(vpn.0);
            },
            MapType::Framed => {
                let frame = match mem.frame_alloc() {
                    Some(f) => f,
                    None => {
                        return Err(KernelError::FrameAllocFailed);
                    },
                };
                proof {
                    assert forall|f: int, s: int| pt0.owns(f) implies #[trigger] mem.pte(f, s) == mem0.pte(f, s) by {
                        pt0.lemma_owned_in_memory(&mem0, f);
                    }
                    pt0.lemma_frame(&mem0, mem);
                }
                ppn = frame;
                self.data_frames.insert(vpn.0, frame);
            },
        }
        let ghost mem1 = *mem;
        proof {
            pt0.lemma_evolves_grow(&mem0, &mem1);
        }
        let pte_flags = PTEFlags::from_bits(self.map_perm.bits()).unwrap();
        page_table.map(mem, vpn, ppn, pte_flags);
        proof {
            PageTable::lemma_evolves_trans(&pt0, &mem0, &pt0, &mem1, page_table, mem);
            pt0.lemma_evolves_keeps(&mem1, page_table, mem);
            if self.view().2 == MapType::Framed {
                assert forall|k: int| 0 <= k < 4096 implies #[trigger] mem.byte(mem0.nframes() * 4096 + k) == 0 by {
                    assert(mem1.nframes() == mem0.nframes() + 1);
                    assert(mem0.nframes() * 4096 + k < mem1.nframes() * 4096);
                    assert(mem1.byte(mem0.nframes() * 4096 + k) == 0);
                }
            }
        }
        Ok(())
    }

    /// Unmap page `vpn` of this area, releasing its frame when the area is framed.
    pub fn unmap_one(&mut self, page_table: &mut PageTable, mem: &mut PhysMem, vpn: VirtPageNum)
        requires
            old(page_table).wf(old(mem)),
            walk(old(mem), old(page_table).root(), vpn.0 as int).is_some(),
        ensures
            final(self).view() == old(self).view(),
            final(self).frames() == if old(self).view().2 == MapType::Framed {
                old(self).frames().remove(vpn.0)
            } else {
                old(self).frames()
            },
            final(page_table).wf(final(mem)),
            old(page_table).evolves(old(mem), final(page_table), final(mem)),
            final(mem).nframes() == old(mem).nframes(),
            forall|v: int| #[trigger]
                walk(final(mem), final(page_table).root(), v) == if same_slot(v, vpn.0 as int) {
                    None
                } else {
                    walk(old(mem), old(page_table).root(), v)
                },
    {
        if self.map_type == MapType::Framed {
            self.data_frames.remove(&vpn.0);
        }
        page_table.unmap(mem, vpn);
    }
}

} // verus!

verus! {

impl MapArea {
    /// Map the pages `[from, to)` one by one; the shared loop of `map` and `append_to`.
    fn map_pages(&mut self, page_table: &mut PageTable, mem: &mut PhysMem, from: VirtPageNum, to: VirtPageNum)
        requires
            old(page_table).wf(old(mem)),
            from.0 <= to.0,
            range_unmapped(old(mem), old(page_table).root(), from.0 as int, to.0 as int),
            distinct_slots(from.0 as int, to.0 as int),
            old(self).view().2 == MapType::Framed ==> old(mem).free_frames() >= 3 * (to.0 - from.0),
            old(self).view().2 == MapType::Identical ==> old(mem).free_frames() >= 2 * blocks(from.0 as int, to.0 as int),
        ensures
            final(self).view() == old(self).view(),
            final(page_table).wf(final(mem)),
            old(page_table).evolves(old(mem), final(page_table), final(mem)),
            final(mem).nframes() - old(mem).nframes() <= 3 * (to.0 - from.0),
            old(self).view().2 == MapType::Identical ==> final(mem).nframes() - old(mem).nframes() <= 2 * blocks(
                from.0 as int,
                to.0 as int,
            ),
            old(self).view().2 == MapType::Framed ==> forall|v: usize| #[trigger]
                final(self).frames().contains_key(v) <==> (old(self).frames().contains_key(v) || from.0 <= v < to.0),
            old(self).view().2 == MapType::Framed ==> forall|v: usize|
                old(self).frames().contains_key(v) && !(from.0 <= v < to.0) ==> #[trigger] final(self).frames()[v]
                    == old(self).frames()[v],
            old(self).view().2 == MapType::Identical ==> final(self).frames() == old(self).frames(),
            forall|u: int| from.0 <= u < to.0 ==> #[trigger] walk(final(mem), final(page_table).root(), u) == Some(
                final(self).entry_for(u),
            ),
            forall|w: int|
                untouched(w, from.0 as int, to.0 as int) ==> #[trigger] walk(final(mem), final(page_table).root(), w)
                    == walk(old(mem), old(page_table).root(), w),
            old(self).view().2 == MapType::Framed ==> forall|v: usize|
                from.0 <= v < to.0 ==> old(mem).nframes() <= (#[trigger] final(self).frames()[v]).0 < final(mem).nframes(),
            old(self).view().2 == MapType::Framed ==> forall|v: usize, w: usize|
                from.0 <= v < to.0 && from.0 <= w < to.0 && v != w ==> #[trigger] final(self).frames()[v]
                    != #[trigger] final(self).frames()[w],
            old(self).view().2 == MapType::Framed ==> forall|v: usize, k: int|
                from.0 <= v < to.0 && 0 <= k < 4096 ==> #[trigger] cell(final(mem), final(self).frames()[v].0 as int, k) == 0,
    {
        let ghost l = from.0 as int;
        let ghost r = to.0 as int;
        let mut vpn = from;
        proof {
            old(page_table).lemma_evolves_refl(old(mem));
        }
        while vpn.0 < to.0
            invariant
                l <= vpn.0 <= r,
                l == from.0,
                r == to.0,
                self.view() == old(self).view(),
                page_table.wf(mem),
                page_table.root() == old(page_table).root(),
                old(page_table).evolves(old(mem), page_table, mem),
                range_unmapped(old(mem), old(page_table).root(), l, r),
                distinct_slots(l, r),
                mem.frame_limit() == old(mem).frame_limit(),
                old(self).view().2 == MapType::Framed ==> mem.free_frames() >= 3 * (r - vpn.0),
                old(self).view().2 == MapType::Framed ==> mem.nframes() - old(mem).nframes() <= 3 * (vpn.0 - l),
                old(self).view().2 == MapType::Identical ==> old(mem).free_frames() >= 2 * blocks(l, r),
                old(self).view().2 == MapType::Identical ==> mem.nframes() - old(mem).nframes() <= 2 * blocks(l, vpn.0 as int),
                old(self).view().2 == MapType::Framed ==> forall|v: usize| #[trigger]
                    self.frames().contains_key(v) <==> (old(self).frames().contains_key(v) || l <= v < vpn.0),
                old(self).view().2 == MapType::Framed ==> forall|v: usize|
                    old(self).frames().contains_key(v) && !(l <= v < vpn.0) ==> #[trigger] self.frames()[v]
                        == old(self).frames()[v],
                old(self).view().2 == MapType::Identical ==> self.frames() == old(self).frames(),
                forall|u: int| l <= u < vpn.0 ==> #[trigger] walk(mem, page_table.root(), u) == Some(self.entry_for(u)),
                forall|w: int|
                    untouched(w, l, vpn.0 as int) ==> #[trigger] walk(mem, page_table.root(), w) == walk(
                        old(mem),
                        old(page_table).root(),
                        w,
                    ),
                old(self).view().2 == MapType::Framed ==> forall|v: usize|
                    l <= v < vpn.0 ==> old(mem).nframes() <= (#[trigger] self.frames()[v]).0 < mem.nframes(),
                old(self).view().2 == MapType::Framed ==> forall|v: usize, w: usize|
                    l <= v < vpn.0 && l <= w < vpn.0 && v != w ==> #[trigger] self.frames()[v] != #[trigger] self.frames()[w],
                old(self).view().2 == MapType::Framed ==> forall|v: usize, k: int|
                    l <= v < vpn.0 && 0 <= k < 4096 ==> #[trigger] cell(mem, self.frames()[v].0 as int, k) == 0,
            decreases r - vpn.0,
        {
            let ghost s0 = *self;
            let ghost pt0 = *page_table;
            let ghost m0 = *mem;
            let ghost i = vpn.0 as int;
            proof {
                assert(untouched(i, l, i)) by {
                    assert forall|u: int| l <= u < i implies !#[trigger] same_slot(i, u) by {
                        assert(l <= u < r && l <= i < r && u != i);
                    }
                }
                assert(walk(mem, page_table.root(), i) == walk(old(mem), old(page_table).root(), i));
                page_table.lemma_missing_bound(mem, i);
                lemma_blocks_step(l, i, r);
                if old(self).view().2 == MapType::Identical && i > l && i % 512 != 0 {
                    assert(walk(mem, page_table.root(), i - 1) == Some(self.entry_for(i - 1)));
                    lemma_next_in_block(mem, page_table.root(), i - 1);
                }
            }
            self.map_one(page_table, mem, vpn).unwrap();
            proof {
                PageTable::lemma_evolves_trans(old(page_table), old(mem), &pt0, &m0, page_table, mem);
                pt0.lemma_evolves_facts(&m0, page_table, mem);
                assert forall|u: int| l <= u < i + 1 implies #[trigger] walk(mem, page_table.root(), u) == Some(
                    self.entry_for(u),
                ) by {
                    if u < i {
                        assert(!same_slot(u, i)) by {
                            assert(l <= u < r && l <= i < r && u != i);
                        }
                        assert(walk(mem, page_table.root(), u) == walk(&m0, pt0.root(), u));
                        if self.view().2 == MapType::Framed {
                            assert(s0.frames().contains_key(u as usize));
                            assert(self.frames()[u as usize] == s0.frames()[u as usize]);
                        }
                        assert(self.entry_for(u) == s0.entry_for(u));
                    }
                }
                assert forall|w: int| untouched(w, l, i + 1) implies #[trigger] walk(mem, page_table.root(), w) == walk(
                    old(mem),
                    old(page_table).root(),
                    w,
                ) by {
                    assert(!same_slot(w, i));
                    assert(untouched(w, l, i));
                }
                assert forall|u: int| l <= u < r implies #[trigger] walk(old(mem), old(page_table).root(), u).is_none() by {}
                if old(self).view().2 == MapType::Framed {
                    old(page_table).lemma_evolves_facts(old(mem), &pt0, &m0);
                    page_table.lemma_mem_wf(mem);
                    mem.lemma_frames_bound();
                    assert(self.frames() == s0.frames().insert(i as usize, PhysPageNum(m0.nframes() as usize)));
                    assert forall|v: usize| l <= v < i + 1 implies old(mem).nframes() <= (#[trigger] self.frames()[v]).0
                        < mem.nframes() by {
                        if v < i {
                            assert(self.frames()[v] == s0.frames()[v]);
                        } else {
                            assert(v == i);
                            assert(self.frames()[v] == PhysPageNum(m0.nframes() as usize));
                            assert(m0.nframes() < mem.nframes());
                            assert(old(mem).nframes() <= m0.nframes());
                            assert(m0.nframes() <= usize::MAX);
                            pt0.lemma_mem_wf(&m0);
                            m0.lemma_frames_bound();
                            assert((m0.nframes() as usize) as int == m0.nframes());
                        }
                    }
                    assert forall|v: usize, w: usize| l <= v < i + 1 && l <= w < i + 1 && v != w implies #[trigger] self.frames()[v]
                        != #[trigger] self.frames()[w] by {
                        if v < i && w < i {
                            assert(self.frames()[v] == s0.frames()[v]);
                            assert(self.frames()[w] == s0.frames()[w]);
                        } else if v < i {
                            assert(self.frames()[v] == s0.frames()[v]);
                        } else {
                            assert(self.frames()[w] == s0.frames()[w]);
                        }
                    }
                    pt0.lemma_evolves_keeps(&m0, page_table, mem);
                    assert forall|v: usize, k: int| l <= v < i + 1 && 0 <= k < 4096 implies #[trigger] cell(
                        mem,
                        self.frames()[v].0 as int,
                        k,
                    ) == 0 by {
                        if v < i {
                            let f = s0.frames()[v].0 as int;
                            assert(self.frames()[v] == s0.frames()[v]);
                            assert(f < m0.nframes());
                            assert(f * 4096 + k < m0.nframes() * 4096) by (nonlinear_arith)
                                requires
                                    f + 1 <= m0.nframes(),
                                    0 <= k < 4096,
                            ;
                            assert(cell(&m0, f, k) == 0);
                        } else {
                            pt0.lemma_mem_wf(&m0);
                            m0.lemma_frames_bound();
                            assert(self.frames()[v] == PhysPageNum(m0.nframes() as usize));
                            assert((m0.nframes() as usize) as int == m0.nframes());
                        }
                    }
                }
            }
            vpn.step();
        }
        proof {
            lemma_blocks_le(l, r);
        }
    }

    /// Map every page of the area.
    pub fn map(&mut self, page_table: &mut PageTable, mem: &mut PhysMem)
        requires
            old(page_table).wf(old(mem)),
            old(self).view().0 <= old(self).view().1,
            range_unmapped(old(mem), old(page_table).root(), old(self).view().0 as int, old(self).view().1 as int),
            distinct_slots(old(self).view().0 as int, old(self).view().1 as int),
            old(self).view().2 == MapType::Framed ==> old(mem).free_frames() >= 3 * (old(self).view().1 - old(self).view().0),
            old(self).view().2 == MapType::Identical ==> old(mem).free_frames() >= 2 * blocks(
                old(self).view().0 as int,
                old(self).view().1 as int,
            ),
        ensures
            final(self).view() == old(self).view(),
            final(page_table).wf(final(mem)),
            old(page_table).evolves(old(mem), final(page_table), final(mem)),
            final(mem).nframes() - old(mem).nframes() <= 3 * (old(self).view().1 - old(self).view().0),
            old(self).view().2 == MapType::Identical ==> final(mem).nframes() - old(mem).nframes() <= 2 * blocks(
                old(self).view().0 as int,
                old(self).view().1 as int,
            ),
            old(self).view().2 == MapType::Framed ==> forall|v: usize| #[trigger]
                final(self).frames().contains_key(v) <==> (old(self).frames().contains_key(v) || final(self).has(v as int)),
            old(self).view().2 == MapType::Identical ==> final(self).frames() == old(self).frames(),
            forall|u: int| final(self).has(u) ==> #[trigger] walk(final(mem), final(page_table).root(), u) == Some(
                final(self).entry_for(u),
            ),
            forall|w: int|
                untouched(w, old(self).view().0 as int, old(self).view().1 as int) ==> #[trigger] walk(
                    final(mem),
                    final(page_table).root(),
                    w,
                ) == walk(old(mem), old(page_table).root(), w),
            old(self).view().2 == MapType::Framed ==> final(self).frames_ok(final(mem)),
            old(self).view().2 == MapType::Framed ==> forall|v: usize|
                final(self).has(v as int) ==> old(mem).nframes() <= (#[trigger] final(self).frames()[v]).0,
            old(self).view().2 == MapType::Framed ==> forall|v: usize, k: int|
                final(self).has(v as int) && 0 <= k < 4096 ==> #[trigger] cell(final(mem), final(self).frames()[v].0 as int, k)
                    == 0,
    {
        let from = self.vpn_range.get_start();
        let to = self.vpn_range.get_end();
        self.map_pages(page_table, mem, from, to);
    }

    /// Unmap every page of the area.
    pub fn unmap(&mut self, page_table: &mut PageTable, mem: &mut PhysMem)
        requires
            old(page_table).wf(old(mem)),
            old(self).view().0 <= old(self).view().1,
            forall|u: int| old(self).has(u) ==> #[trigger] walk(old(mem), old(page_table).root(), u).is_some(),
            distinct_slots(old(self).view().0 as int, old(self).view().1 as int),
        ensures
            final(self).view() == old(self).view(),
            final(page_table).wf(final(mem)),
            old(page_table).evolves(old(mem), final(page_table), final(mem)),
            old(self).view().2 == MapType::Framed ==> forall|v: usize| #[trigger]
                final(self).frames().contains_key(v) <==> (old(self).frames().contains_key(v) && !old(self).has(v as int)),
            old(self).view().2 == MapType::Identical ==> final(self).frames() == old(self).frames(),
            forall|w: int| #[trigger]
                walk(final(mem), final(page_table).root(), w) == if untouched(w, old(self).view().0 as int, old(self).view().1 as int) {
                    walk(old(mem), old(page_table).root(), w)
                } else {
                    None
                },
    {
        let from = self.vpn_range.get_start();
        let to = self.vpn_range.get_end();
        self.unmap_pages(page_table, mem, from, to);
    }

    /// Unmap the pages `[from, to)` one by one; the shared loop of `unmap` and `shrink_to`.
    fn unmap_pages(&mut self, page_table: &mut PageTable, mem: &mut PhysMem, from: VirtPageNum, to: VirtPageNum)
        requires
            old(page_table).wf(old(mem)),
            from.0 <= to.0,
            forall|u: int| from.0 <= u < to.0 ==> #[trigger] walk(old(mem), old(page_table).root(), u).is_some(),
            distinct_slots(from.0 as int, to.0 as int),
        ensures
            final(self).view() == old(self).view(),
            final(page_table).wf(final(mem)),
            old(page_table).evolves(old(mem), final(page_table), final(mem)),
            final(mem).nframes() == old(mem).nframes(),
            old(self).view().2 == MapType::Framed ==> final(self).frames() == old(self).frames().remove_keys(
                Set::new(|v: usize| from.0 <= v < to.0),
            ),
            old(self).view().2 == MapType::Identical ==> final(self).frames() == old(self).frames(),
            forall|w: int| #[trigger]
                walk(final(mem), final(page_table).root(), w) == if untouched(w, from.0 as int, to.0 as int) {
                    walk(old(mem), old(page_table).root(), w)
                } else {
                    None
                },
    {
        let ghost l = from.0 as int;
        let ghost r = to.0 as int;
        let mut vpn = from;
        proof {
            old(page_table).lemma_evolves_refl(old(mem));
        }
        while vpn.0 < to.0
            invariant
                l <= vpn.0 <= r,
                l == from.0,
                r == to.0,
                self.view() == old(self).view(),
                page_table.wf(mem),
                page_table.root() == old(page_table).root(),
                old(page_table).evolves(old(mem), page_table, mem),
                mem.nframes() == old(mem).nframes(),
                distinct_slots(l, r),
                forall|u: int| l <= u < r ==> #[trigger] walk(old(mem), old(page_table).root(), u).is_some(),
                old(self).view().2 == MapType::Framed ==> self.frames() == old(self).frames().remove_keys(
                    Set::new(|v: usize| l <= v < vpn.0),
                ),
                old(self).view().2 == MapType::Identical ==> self.frames() == old(self).frames(),
                forall|w: int| #[trigger]
                    walk(mem, page_table.root(), w) == if untouched(w, l, vpn.0 as int) {
                        walk(old(mem), old(page_table).root(), w)
                    } else {
                        None
                    },
            decreases r - vpn.0,
        {
            let ghost pt0 = *page_table;
            let ghost m0 = *mem;
            let ghost i = vpn.0 as int;
            proof {
                assert(untouched(i, l, i)) by {
                    assert forall|u: int| l <= u < i implies !#[trigger] same_slot(i, u) by {
                        assert(l <= u < r && l <= i < r && u != i);
                    }
                }
                assert(walk(mem, page_table.root(), i).is_some());
            }
            self.unmap_one(page_table, mem, vpn);
            proof {
                PageTable::lemma_evolves_trans(old(page_table), old(mem), &pt0, &m0, page_table, mem);
                pt0.lemma_evolves_facts(&m0, page_table, mem);
                assert forall|w: int| #[trigger]
                    walk(mem, page_table.root(), w) == if untouched(w, l, i + 1) {
                        walk(old(mem), old(page_table).root(), w)
                    } else {
                        None
                    } by {
                    if same_slot(w, i) {
                        assert(!untouched(w, l, i + 1));
                    } else if untouched(w, l, i) {
                        assert(untouched(w, l, i + 1));
                    } else {
                        let u = choose|u: int| l <= u < i && #[trigger] same_slot(w, u);
                        assert(!untouched(w, l, i + 1));
                    }
                }
                if old(self).view().2 == MapType::Framed {
                    assert(self.frames() =~= old(self).frames().remove_keys(Set::new(|v: usize| l <= v < i + 1)));
                }
            }
            vpn.step();
        }
    }

    /// Drop the pages from `new_end` on.
    pub fn shrink_to(&mut self, page_table: &mut PageTable, mem: &mut PhysMem, new_end: VirtPageNum)
        requires
            old(page_table).wf(old(mem)),
            old(self).view().0 <= new_end.0 <= old(self).view().1,
            forall|u: int| new_end.0 <= u < old(self).view().1 ==> #[trigger] walk(old(mem), old(page_table).root(), u).is_some(),
            distinct_slots(new_end.0 as int, old(self).view().1 as int),
        ensures
            final(self).view() == (old(self).view().0, new_end.0, old(self).view().2, old(self).view().3),
            final(page_table).wf(final(mem)),
            old(page_table).evolves(old(mem), final(page_table), final(mem)),
            final(mem).nframes() == old(mem).nframes(),
            old(self).view().2 == MapType::Framed ==> final(self).frames() == old(self).frames().remove_keys(
                Set::new(|v: usize| new_end.0 <= v < old(self).view().1),
            ),
            old(self).view().2 == MapType::Identical ==> final(self).frames() == old(self).frames(),
            forall|w: int| #[trigger]
                walk(final(mem), final(page_table).root(), w) == if untouched(w, new_end.0 as int, old(self).view().1 as int) {
                    walk(old(mem), old(page_table).root(), w)
                } else {
                    None
                },
    {
        let end = self.vpn_range.get_end();
        self.unmap_pages(page_table, mem, new_end, end);
        let ghost mid = *self;
        self.vpn_range = VPNRange::new(self.vpn_range.get_start(), new_end);
        assert(self.frames() == mid.frames());
    }

    /// Extend the area to end at `new_end`, mapping the new pages.
    pub fn append_to(&mut self, page_table: &mut PageTable, mem: &mut PhysMem, new_end: VirtPageNum) -> (r: KernelResult<()>)
        requires
            old(page_table).wf(old(mem)),
            old(self).view().1 <= new_end.0,
            range_unmapped(old(mem), old(page_table).root(), old(self).view().1 as int, new_end.0 as int),
            distinct_slots(old(self).view().1 as int, new_end.0 as int),
            old(mem).free_frames() >= 3 * (new_end.0 - old(self).view().1),
        ensures
            r == Ok::<(), KernelError>(()),
            final(self).view() == (old(self).view().0, new_end.0, old(self).view().2, old(self).view().3),
            final(page_table).wf(final(mem)),
            old(page_table).evolves(old(mem), final(page_table), final(mem)),
            final(mem).nframes() - old(mem).nframes() <= 3 * (new_end.0 - old(self).view().1),
            old(self).view().2 == MapType::Framed ==> forall|v: usize| #[trigger]
                final(self).frames().contains_key(v) <==> (old(self).frames().contains_key(v) || old(self).view().1 <= v
                    < new_end.0),
            old(self).view().2 == MapType::Framed ==> forall|v: usize|
                old(self).frames().contains_key(v) && !(old(self).view().1 <= v < new_end.0) ==> #[trigger] final(self).frames()[v]
                    == old(self).frames()[v],
            old(self).view().2 == MapType::Identical ==> final(self).frames() == old(self).frames(),
            forall|u: int| old(self).view().1 <= u < new_end.0 ==> #[trigger] walk(final(mem), final(page_table).root(), u)
                == Some(final(self).entry_for(u)),
            old(self).view().2 == MapType::Framed ==> forall|v: usize|
                old(self).view().1 <= v < new_end.0 ==> old(mem).nframes() <= (#[trigger] final(self).frames()[v]).0 < final(mem).nframes(),
            forall|w: int|
                untouched(w, old(self).view().1 as int, new_end.0 as int) ==> #[trigger] walk(
                    final(mem),
                    final(page_table).root(),
                    w,
                ) == walk(old(mem), old(page_table).root(), w),
    {
        let end = self.vpn_range.get_end();
        proof {
            lemma_blocks_le(end.0 as int, new_end.0 as int);
        }
        self.map_pages(page_table, mem, end, new_end);
        let ghost mid = *self;
        self.vpn_range = VPNRange::new(self.vpn_range.get_start(), new_end);
        assert(self.frames() == mid.frames());
        assert(forall|u: int| #[trigger] self.entry_for(u) == mid.entry_for(u));
        Ok(())
    }
}

} // verus!

verus! {

/// An address space: a page table and the areas it maps.
pub struct MemorySet {
    page_table: PageTable,
    areas: Vec<MapArea>,
}

impl MemorySet {
    /// The areas, in order.
    pub closed spec fn views(&self) -> Seq<AreaView> {
        self.areas@.map_values(|a: MapArea| a.view())
    }

    /// The areas themselves.
    pub closed spec fn area_seq(&self) -> Seq<MapArea> {
        self.areas@
    }

    /// The page table.
    pub closed spec fn table(&self) -> PageTable {
        self.page_table
    }

    /// The root frame of the page table.
    pub open spec fn root(&self) -> int {
        self.table().root()
    }

    /// Every area is consistent and mapped by the page table, the areas are
    /// disjoint, no two of their pages share a leaf slot, and framed pages live
    /// in handed-out frames.
    pub closed spec fn wf(&self, mem: &PhysMem) -> bool {
        let a = self.areas@;
        &&& self.page_table.wf(mem)
        &&& forall|i: int| 0 <= i < a.len() ==> (#[trigger] a[i]).area_wf()
        &&& forall|i: int, u: int|
            #![trigger a[i].has(u)]
            0 <= i < a.len() && a[i].has(u) ==> walk(mem, self.page_table.root(), u) == Some(a[i].entry_for(u))
        &&& forall|i: int, j: int, u: int, w: int|
            #![trigger a[i].has(u), a[j].has(w)]
            0 <= i < a.len() && 0 <= j < a.len() && a[i].has(u) && a[j].has(w) && (i != j || u != w) ==> u != w
                && !same_slot(u, w)
        &&& forall|i: int, v: usize|
            0 <= i < a.len() && (#[trigger] a[i]).frames().contains_key(v) ==> #[trigger] a[i].frames()[v].0
                < mem.nframes()
    }

    /// Whether page `u` lies in some area.
    pub open spec fn covers(&self, u: int) -> bool {
        exists|i: int| 0 <= i < self.area_seq().len() && #[trigger] self.area_seq()[i].has(u)
    }

    /// An address space with an empty page table and no areas.
    pub fn new_bare(mem: &mut PhysMem) -> (r: MemorySet)
        requires
            old(mem).wf(),
            old(mem).free_frames() >= 1,
        ensures
            r.wf(final(mem)),
            r.views() == Seq::<AreaView>::empty(),
            r.root() == old(mem).nframes(),
            final(mem).nframes() == old(mem).nframes() + 1,
            final(mem).frame_limit() == old(mem).frame_limit(),
            forall|f: int, s: int| 0 <= f < old(mem).nframes() ==> #[trigger] final(mem).pte(f, s) == old(mem).pte(f, s),
            forall|pa: int| 0 <= pa < old(mem).nframes() * 4096 ==> #[trigger] final(mem).byte(pa) == old(mem).byte(pa),
            forall|v: int| #[trigger] walk(final(mem), r.root(), v).is_none(),
            forall|f: int| #[trigger] r.table().owns(f) <==> f == old(mem).nframes(),
    {
        let r = MemorySet { page_table: PageTable::new(mem), areas: Vec::new() };
        assert(r.views() =~= Seq::<AreaView>::empty());
        r
    }

    /// A consistent address space lives in consistent memory, its root fits in a page
    /// number, and its token names its root again.
    pub proof fn lemma_token_root(&self, mem: &PhysMem)
        requires
            self.wf(mem),
        ensures
            mem.wf(),
            0 <= self.root() <= crate::page_table::PPN_MASK,
            ((((((8u64 << 60u64) | (self.root() as u64)) as usize) as u64) & crate::page_table::PPN_MASK) as usize) as int
                == self.root(),
    {
        self.page_table.lemma_mem_wf(mem);
        self.page_table.lemma_root_bound(mem);
        mem.lemma_frames_bound();
        crate::page_table::lemma_token_round_trip(self.root() as usize);
    }

    /// Stores to data bytes keep an address space consistent and its translations as they were.
    pub proof fn lemma_wf_bytes(&self, mem: &PhysMem, mem2: &PhysMem)
        requires
            self.wf(mem),
            mem2.wf(),
            mem2.nframes() == mem.nframes(),
            forall|f: int, s: int| #[trigger] mem2.pte(f, s) == mem.pte(f, s),
        ensures
            self.wf(mem2),
            forall|v: int| #[trigger] walk(mem2, self.root(), v) == walk(mem, self.root(), v),
    {
        self.page_table.lemma_frame(mem, mem2);
    }

    /// The `satp` token of the address space.
    pub fn token(&self) -> (r: usize)
        ensures
            r == ((8u64 << 60u64) | (self.root() as u64)) as usize,
    {
        self.page_table.token()
    }

    /// The leaf entry that translates `vpn`.
    pub fn translate(&self, mem: &PhysMem, vpn: VirtPageNum) -> (r: Option<PageTableEntry>)
        requires
            self.wf(mem),
        ensures
            r == walk(mem, self.root(), vpn.0 as int),
    {
        proof {
            self.page_table.lemma_mem_wf(mem);
        }
        self.page_table.translate(mem, vpn)
    }

    /// Forget every area; the page table keeps its mappings.
    pub fn recycle_data_pages(&mut self)
        ensures
            final(self).views() == Seq::<AreaView>::empty(),
            final(self).table() == old(self).table(),
            forall|m: PhysMem| #[trigger] old(self).wf(&m) ==> final(self).wf(&m),
    {
        self.areas.clear();
        assert(self.views() =~= Seq::<AreaView>::empty());
    }
}

} // verus!

verus! {

impl MapArea {
    /// Where byte `j` of data copied to the start of this area lands in physical memory.
    pub open spec fn data_dest(&self, j: int) -> int {
        self.frames()[(self.view().0 + j / 4096) as usize].0 * 4096 + j % 4096
    }

    /// The framed pages of the area hold distinct handed-out frames.
    pub open spec fn frames_ok(&self, mem: &PhysMem) -> bool {
        &&& forall|v: usize| #[trigger] self.has(v as int) ==> self.frames().contains_key(v) && self.frames()[v].0 < mem.nframes()
        &&& forall|v: usize, w: usize|
            self.has(v as int) && self.has(w as int) && v != w ==> #[trigger] self.frames()[v] != #[trigger] self.frames()[w]
    }

    /// Copy `data` to the start of the area, page by page.
    pub fn copy_data(&mut self, page_table: &PageTable, mem: &mut PhysMem, data: &[u8])
        requires
            old(self).view().2 == MapType::Framed,
            page_table.wf(old(mem)),
            old(self).view().0 < old(self).view().1 <= trampoline_vpn(),
            data@.len() <= (old(self).view().1 - old(self).view().0) * 4096,
            forall|u: int| old(self).has(u) ==> #[trigger] walk(old(mem), page_table.root(), u) == Some(old(self).entry_for(u)),
            old(self).frames_ok(old(mem)),
        ensures
            *final(self) == *old(self),
            page_table.wf(final(mem)),
            final(mem).nframes() == old(mem).nframes(),
            final(mem).frame_limit() == old(mem).frame_limit(),
            forall|f: int, s: int| #[trigger] final(mem).pte(f, s) == old(mem).pte(f, s),
            forall|j: int| 0 <= j < data@.len() ==> #[trigger] final(mem).byte(old(self).data_dest(j)) == data@[j],
            forall|pa: int|
                (forall|j: int| 0 <= j < data@.len() ==> #[trigger] old(self).data_dest(j) != pa) ==> #[trigger] final(mem).byte(pa)
                    == old(mem).byte(pa),
    {
        let ghost l = self.view().0 as int;
        let ghost r = self.view().1 as int;
        let len = data.len();
        let mut start: usize = 0;
        let mut current_vpn = self.vpn_range.get_start();
        proof {
            page_table.lemma_mem_wf(mem);
            mem.lemma_frames_bound();
        }
        loop
            invariant_except_break
                start % 4096 == 0,
                start < len || (start == 0),
                current_vpn.0 == l + start / 4096,
                forall|j: int| 0 <= j < start ==> #[trigger] mem.byte(self.data_dest(j)) == data@[j],
                forall|pa: int|
                    (forall|j: int| 0 <= j < start ==> #[trigger] self.data_dest(j) != pa) ==> #[trigger] mem.byte(pa)
                        == old(mem).byte(pa),
            invariant
                page_table.wf(mem),
                page_table.wf(old(mem)),
                mem.nframes() == old(mem).nframes(),
                mem.frame_limit() == old(mem).frame_limit(),
                *self == *old(self),
                r <= trampoline_vpn(),
                l == self.view().0,
                r == self.view().1,
                l < r,
                len == data@.len(),
                len <= (r - l) * 4096,
                self.view().2 == MapType::Framed,
                forall|u: int| self.has(u) ==> #[trigger] walk(old(mem), page_table.root(), u) == Some(self.entry_for(u)),
                self.frames_ok(old(mem)),
                forall|f: int, s: int| #[trigger] mem.pte(f, s) == old(mem).pte(f, s),
                old(mem).nframes() <= old(mem).frame_limit() <= usize::MAX / 4096,
                old(mem).frame_limit() <= crate::page_table::PPN_MASK,
            ensures
                forall|j: int| 0 <= j < len ==> #[trigger] mem.byte(self.data_dest(j)) == data@[j],
                forall|pa: int|
                    (forall|j: int| 0 <= j < len ==> #[trigger] self.data_dest(j) != pa) ==> #[trigger] mem.byte(pa)
                        == old(mem).byte(pa),
                page_table.wf(mem),
                mem.nframes() == old(mem).nframes(),
                mem.frame_limit() == old(mem).frame_limit(),
                forall|f: int, s: int| #[trigger] mem.pte(f, s) == old(mem).pte(f, s),
            decreases len - start,
        {
            let end = if len < start + PAGE_SIZE { len } else { start + PAGE_SIZE };
            let ghost cv = current_vpn.0 as int;
            proof {
                page_table.lemma_mem_wf(mem);
                assert(self.has(cv));
                assert(walk(mem, page_table.root(), cv) == walk(old(mem), page_table.root(), cv)) by {
                    page_table.lemma_frame(old(mem), mem);
                }
                let fr = self.frames()[cv as usize];
                assert(self.frames().contains_key(cv as usize) && fr.0 < old(mem).nframes());
                crate::page_table::lemma_pte_fields(fr.0 as u64, (self.view().3 | 1u8));
            }
            let ppn = page_table.translate(mem, current_vpn).unwrap().ppn();
            assert(ppn == self.frames()[cv as usize]);
            let mut b: usize = 0;
            while b < end - start
                invariant
                    page_table.wf(mem),
                    mem.nframes() == old(mem).nframes(),
                    mem.frame_limit() == old(mem).frame_limit(),
                    *self == *old(self),
                    0 <= b <= end - start,
                    start <= end <= len,
                    end == len || end == start + 4096,
                    end - start <= 4096,
                    len == data@.len(),
                    start % 4096 == 0,
                    cv == l + start / 4096,
                    l == self.view().0,
                    r == self.view().1,
                    l <= cv < r,
                    ppn == self.frames()[cv as usize],
                    ppn.0 < old(mem).nframes(),
                    old(mem).nframes() <= usize::MAX / 4096,
                    self.frames_ok(old(mem)),
                    forall|f: int, s: int| #[trigger] mem.pte(f, s) == old(mem).pte(f, s),
                    forall|j: int| 0 <= j < start + b ==> #[trigger] mem.byte(self.data_dest(j)) == data@[j],
                    forall|pa: int|
                        (forall|j: int| 0 <= j < start + b ==> #[trigger] self.data_dest(j) != pa) ==> #[trigger] mem.byte(pa)
                            == old(mem).byte(pa),
                decreases end - start - b,
            {
                let ghost m0 = *mem;
                let ghost j0 = start + b;
                proof {
                    assert(j0 / 4096 == start / 4096 && j0 % 4096 == b);
                    assert((l + j0 / 4096) as usize == cv as usize);
                    assert(self.frames()[(self.view().0 + j0 / 4096) as usize] == ppn);
                    assert(self.data_dest(j0) == ppn.0 * 4096 + b);
                    page_table.lemma_mem_wf(mem);
                }
                mem.write_byte(ppn.0 * PAGE_SIZE + b, data[start + b]);
                proof {
                    page_table.lemma_frame(&m0, mem);
                    assert forall|j: int| 0 <= j < j0 + 1 implies #[trigger] mem.byte(self.data_dest(j)) == data@[j] by {
                        if j < j0 {
                            assert(j / 4096 <= j0 / 4096);
                            assert(self.has(self.view().0 + j / 4096));
                            assert(self.has(self.view().0 + j0 / 4096));
                            lemma_dest_distinct(self, old(mem), j, j0);
                        }
                    }
                    assert forall|pa: int|
                        (forall|j: int| 0 <= j < j0 + 1 ==> #[trigger] self.data_dest(j) != pa) implies #[trigger] mem.byte(pa)
                            == old(mem).byte(pa) by {
                        assert(self.data_dest(j0) != pa);
                    }
                }
                b = b + 1;
            }
            start = start + PAGE_SIZE;
            if start >= len {
                break;
            }
            current_vpn.step();
        }
    }
}

/// Distinct data positions of a framed area land on distinct physical bytes.
pub proof fn lemma_dest_distinct(a: &MapArea, mem: &PhysMem, j: int, k: int)
    requires
        a.frames_ok(mem),
        0 <= j,
        0 <= k,
        j != k,
        a.has(a.view().0 + j / 4096),
        a.has(a.view().0 + k / 4096),
    ensures
        a.data_dest(j) != a.data_dest(k),
{
    let vj = (a.view().0 + j / 4096) as usize;
    let vk = (a.view().0 + k / 4096) as usize;
    assert(a.has(vj as int) && a.has(vk as int));
    if vj != vk {
        assert(a.frames()[vj] != a.frames()[vk]);
        let fj = a.frames()[vj].0 as int;
        let fk = a.frames()[vk].0 as int;
        assert(fj * 4096 + j % 4096 != fk * 4096 + k % 4096) by (nonlinear_arith)
            requires
                fj != fk,
                0 <= j % 4096 < 4096,
                0 <= k % 4096 < 4096,
        ;
    } else {
        assert(j / 4096 == k / 4096);
        assert(j % 4096 != k % 4096);
    }
}

} // verus!

verus! {

impl MemorySet {
    /// Map `map_area`, copy `data` to its start if given, and add it to the areas.
    fn push(&mut self, mem: &mut PhysMem, map_area: MapArea, data: Option<&[u8]>)
        requires
            old(self).wf(old(mem)),
            map_area.view().0 <= map_area.view().1 <= trampoline_vpn(),
            MapPermission::known_bits(map_area.view().3),
            map_area.frames() == Map::<usize, PhysPageNum>::empty(),
            range_unmapped(old(mem), old(self).root(), map_area.view().0 as int, map_area.view().1 as int),
            distinct_slots(map_area.view().0 as int, map_area.view().1 as int),
            map_area.view().2 == MapType::Framed ==> old(mem).free_frames() >= 3 * (map_area.view().1 - map_area.view().0),
            map_area.view().2 == MapType::Identical ==> old(mem).free_frames() >= 2 * blocks(
                map_area.view().0 as int,
                map_area.view().1 as int,
            ),
            data.is_some() ==> {
                &&& map_area.view().2 == MapType::Framed
                &&& map_area.view().0 < map_area.view().1
                &&& data.unwrap()@.len() <= (map_area.view().1 - map_area.view().0) * 4096
            },
        ensures
            final(self).wf(final(mem)),
            final(self).views() == old(self).views().push(map_area.view()),
            final(self).area_seq().len() == old(self).area_seq().len() + 1,
            forall|i: int| 0 <= i < old(self).area_seq().len() ==> #[trigger] final(self).area_seq()[i] == old(self).area_seq()[i],
            old(self).table().evolves(old(mem), &final(self).table(), final(mem)),
            final(mem).nframes() - old(mem).nframes() <= 3 * (map_area.view().1 - map_area.view().0),
            map_area.view().2 == MapType::Identical ==> final(mem).nframes() - old(mem).nframes() <= 2 * blocks(
                map_area.view().0 as int,
                map_area.view().1 as int,
            ),
            forall|u: int|
                map_area.view().0 <= u < map_area.view().1 ==> #[trigger] walk(final(mem), final(self).root(), u) == Some(
                    final(self).area_seq().last().entry_for(u),
                ),
            forall|w: int|
                untouched(w, map_area.view().0 as int, map_area.view().1 as int) ==> #[trigger] walk(
                    final(mem),
                    final(self).root(),
                    w,
                ) == walk(old(mem), old(self).root(), w),
            map_area.view().2 == MapType::Framed ==> forall|v: usize|
                final(self).area_seq().last().has(v as int) ==> old(mem).nframes() <= (
                #[trigger] final(self).area_seq().last().frames()[v]).0,
            map_area.view().2 == MapType::Framed ==> forall|v: usize, w: usize|
                final(self).area_seq().last().has(v as int) && final(self).area_seq().last().has(w as int) && v != w
                    ==> #[trigger] final(self).area_seq().last().frames()[v]
                    != #[trigger] final(self).area_seq().last().frames()[w],
            data.is_some() ==> forall|j: int|
                0 <= j < data.unwrap()@.len() ==> #[trigger] final(mem).byte(final(self).area_seq().last().data_dest(j))
                    == data.unwrap()@[j],
            data.is_some() ==> forall|j: int|
                data.unwrap()@.len() <= j < (map_area.view().1 - map_area.view().0) * 4096 ==> #[trigger] final(mem).byte(
                    final(self).area_seq().last().data_dest(j),
                ) == 0,
    {
        let mut map_area = map_area;
        let ghost mem0 = *mem;
        let ghost old_self = *self;
        let ghost l = map_area.view().0 as int;
        let ghost r = map_area.view().1 as int;
        map_area.map(&mut self.page_table, mem);
        let ghost mem1 = *mem;
        if let Some(data) = data {
            map_area.copy_data(&self.page_table, mem, data);
            proof {
                assert forall|j: int| data@.len() <= j < (r - l) * 4096 implies #[trigger] mem.byte(map_area.data_dest(j)) == 0 by {
                    let v = (l + j / 4096) as usize;
                    assert(0 <= j / 4096 < r - l) by (nonlinear_arith)
                        requires
                            0 <= j < (r - l) * 4096,
                    ;
                    assert(map_area.has(v as int));
                    assert(cell(&mem1, map_area.frames()[v].0 as int, j % 4096) == 0);
                    assert forall|j2: int| 0 <= j2 < data@.len() implies #[trigger] map_area.data_dest(j2) != map_area.data_dest(j) by {
                        lemma_data_dest_injective(map_area, j2, j);
                    }
                }
                self.page_table.lemma_mem_wf(mem);
                self.page_table.lemma_frame(&mem1, mem);
                old_self.page_table.lemma_evolves_facts(&mem0, &self.page_table, &mem1);
                assert forall|pa: int| 0 <= pa < mem0.nframes() * 4096 implies #[trigger] mem.byte(pa) == mem1.byte(pa) by {
                    assert forall|j: int| 0 <= j < data@.len() implies #[trigger] map_area.data_dest(j) != pa by {
                        let v = (map_area.view().0 + j / 4096) as usize;
                        assert(map_area.has(v as int));
                        assert(mem0.nframes() <= map_area.frames()[v].0);
                    }
                }
                old_self.page_table.lemma_evolves_bytes(&mem0, &self.page_table, &mem1, mem);
            }
        }
        let ghost mem2 = *mem;
        proof {
            old_self.page_table.lemma_evolves_facts(&mem0, &self.page_table, mem);
            // pages of older areas do not share a slot with the new pages
            assert forall|i: int, u: int|
                #![trigger old_self.areas@[i].has(u)]
                0 <= i < old_self.areas@.len() && old_self.areas@[i].has(u) implies untouched(u, l, r) by {
                assert forall|w: int| l <= w < r implies !#[trigger] same_slot(u, w) by {
                    if same_slot(u, w) {
                        crate::page_table::lemma_walk_same_slot(&mem0, old_self.root(), u, w);
                        assert(walk(&mem0, old_self.root(), w).is_none());
                    }
                }
            }
        }
        self.areas.push(map_area);
        proof {
            let a = self.areas@;
            let n = old_self.areas@.len();
            assert(a[n as int] == map_area);
            assert forall|i: int| 0 <= i < a.len() implies (#[trigger] a[i]).area_wf() by {
                if i < n {
                    assert(a[i] == old_self.areas@[i]);
                }
            }
            assert forall|i: int, u: int|
                #![trigger a[i].has(u)]
                0 <= i < a.len() && a[i].has(u) implies walk(mem, self.page_table.root(), u) == Some(a[i].entry_for(u)) by {
                if i < n {
                    assert(a[i] == old_self.areas@[i]);
                    assert(untouched(u, l, r));
                }
            }
            assert forall|i: int, j: int, u: int, w: int|
                #![trigger a[i].has(u), a[j].has(w)]
                0 <= i < a.len() && 0 <= j < a.len() && a[i].has(u) && a[j].has(w) && (i != j || u != w) implies u != w
                    && !same_slot(u, w) by {
                if i < n && j < n {
                    assert(a[i] == old_self.areas@[i] && a[j] == old_self.areas@[j]);
                    assert(old_self.areas@[i].has(u) && old_self.areas@[j].has(w));
                } else if i < n {
                    assert(a[i] == old_self.areas@[i]);
                    assert(untouched(u, l, r));
                    assert(walk(&mem0, old_self.root(), u).is_some());
                    assert(walk(&mem0, old_self.root(), w).is_none());
                    assert(!same_slot(u, w));
                } else if j < n {
                    assert(a[j] == old_self.areas@[j]);
                    assert(untouched(w, l, r));
                    assert(walk(&mem0, old_self.root(), w).is_some());
                    assert(walk(&mem0, old_self.root(), u).is_none());
                    assert(!same_slot(w, u));
                    assert(!same_slot(u, w));
                } else {
                    assert(u != w);
                    assert(!same_slot(u, w));
                }
            }
            assert forall|i: int, v: usize|
                0 <= i < a.len() && (#[trigger] a[i]).frames().contains_key(v) implies #[trigger] a[i].frames()[v].0 < mem.nframes() by {
                if i < n {
                    assert(a[i] == old_self.areas@[i]);
                    assert(old_self.areas@[i].frames()[v].0 < mem0.nframes());
                } else if map_area.view().2 == MapType::Framed {
                    assert(map_area.has(v as int));
                }
            }
            assert(self.views() =~= old_self.views().push(map_area.view()));
        }
    }
}

} // verus!

verus! {

/// What is left of area `a` outside the page range `[s, e)`: the part below `s`
/// and the part from `e` on, in that order, each only when it is not empty.
pub open spec fn remainders(a: AreaView, s: int, e: int) -> Seq<AreaView> {
    (if a.0 < s {
        seq![(a.0, s as usize, a.2, a.3)]
    } else {
        Seq::empty()
    }) + (if a.1 > e {
        seq![(e as usize, a.1, a.2, a.3)]
    } else {
        Seq::empty()
    })
}

/// The areas that do not meet `[s, e)`, in order.
pub open spec fn kept(v: Seq<AreaView>, s: int, e: int) -> Seq<AreaView>
    decreases v.len(),
{
    if v.len() == 0 {
        Seq::empty()
    } else {
        kept(v.drop_last(), s, e) + if overlaps(v.last(), s, e) {
            Seq::empty()
        } else {
            seq![v.last()]
        }
    }
}

/// The remainders of the areas that meet `[s, e)`, in order.
pub open spec fn cut(v: Seq<AreaView>, s: int, e: int) -> Seq<AreaView>
    decreases v.len(),
{
    if v.len() == 0 {
        Seq::empty()
    } else {
        cut(v.drop_last(), s, e) + if overlaps(v.last(), s, e) {
            remainders(v.last(), s, e)
        } else {
            Seq::empty()
        }
    }
}

/// Number of areas that meet `[s, e)`.
pub open spec fn overlap_count(v: Seq<AreaView>, s: int, e: int) -> nat
    decreases v.len(),
{
    if v.len() == 0 {
        0
    } else {
        overlap_count(v.drop_last(), s, e) + if overlaps(v.last(), s, e) {
            1nat
        } else {
            0nat
        }
    }
}

/// The areas after unmapping `[s, e)`: the untouched ones, then the remainders.
pub open spec fn unmap_result(v: Seq<AreaView>, s: int, e: int) -> Seq<AreaView> {
    kept(v, s, e) + cut(v, s, e)
}

proof fn lemma_split_concat(x: Seq<AreaView>, y: Seq<AreaView>, s: int, e: int)
    ensures
        kept(x + y, s, e) == kept(x, s, e) + kept(y, s, e),
        cut(x + y, s, e) == cut(x, s, e) + cut(y, s, e),
        overlap_count(x + y, s, e) == overlap_count(x, s, e) + overlap_count(y, s, e),
    decreases y.len(),
{
    if y.len() == 0 {
        assert(x + y == x);
        assert(kept(x, s, e) + kept(y, s, e) == kept(x, s, e));
        assert(cut(x, s, e) + cut(y, s, e) == cut(x, s, e));
    } else {
        lemma_split_concat(x, y.drop_last(), s, e);
        assert((x + y).drop_last() == x + y.drop_last());
        assert((x + y).last() == y.last());
        assert(kept(x + y, s, e) =~= kept(x, s, e) + kept(y, s, e));
        assert(cut(x + y, s, e) =~= cut(x, s, e) + cut(y, s, e));
    }
}

proof fn lemma_no_overlap(x: Seq<AreaView>, s: int, e: int)
    requires
        forall|i: int| 0 <= i < x.len() ==> !overlaps(#[trigger] x[i], s, e),
    ensures
        kept(x, s, e) == x,
        cut(x, s, e) == Seq::<AreaView>::empty(),
        overlap_count(x, s, e) == 0,
    decreases x.len(),
{
    if x.len() > 0 {
        lemma_no_overlap(x.drop_last(), s, e);
        assert(x.drop_last() + seq![x.last()] =~= x);
    }
}

proof fn lemma_single(a: AreaView, s: int, e: int)
    ensures
        kept(seq![a], s, e) == if overlaps(a, s, e) { Seq::<AreaView>::empty() } else { seq![a] },
        cut(seq![a], s, e) == if overlaps(a, s, e) { remainders(a, s, e) } else { Seq::<AreaView>::empty() },
        overlap_count(seq![a], s, e) == if overlaps(a, s, e) { 1nat } else { 0nat },
{
    let z = Seq::<AreaView>::empty();
    assert(seq![a].drop_last() =~= z);
    assert(kept(z, s, e) == z);
    assert(cut(z, s, e) == z);
    assert(overlap_count(z, s, e) == 0);
    assert(kept(seq![a], s, e) =~= if overlaps(a, s, e) { z } else { seq![a] });
    assert(cut(seq![a], s, e) =~= if overlaps(a, s, e) { remainders(a, s, e) } else { z });
}

/// One step of `munmap`: removing the first area that meets `[s, e)` and appending
/// its remainders leaves the final result unchanged and lowers the overlap count.
proof fn lemma_unmap_step(a: Seq<AreaView>, x: AreaView, b: Seq<AreaView>, s: int, e: int)
    requires
        forall|i: int| 0 <= i < a.len() ==> !overlaps(#[trigger] a[i], s, e),
        overlaps(x, s, e),
    ensures
        unmap_result(a + b + remainders(x, s, e), s, e) == unmap_result(a + seq![x] + b, s, e),
        overlap_count(a + b + remainders(x, s, e), s, e) + 1 == overlap_count(a + seq![x] + b, s, e),
{
    let rem = remainders(x, s, e);
    assert forall|i: int| 0 <= i < rem.len() implies !overlaps(#[trigger] rem[i], s, e) by {}
    lemma_no_overlap(a, s, e);
    lemma_no_overlap(rem, s, e);
    lemma_single(x, s, e);
    lemma_split_concat(a, b, s, e);
    lemma_split_concat(a + b, rem, s, e);
    lemma_split_concat(a, seq![x], s, e);
    lemma_split_concat(a + seq![x], b, s, e);
    assert(unmap_result(a + b + rem, s, e) =~= unmap_result(a + seq![x] + b, s, e));
}

/// When no area meets `[s, e)`, unmapping leaves the areas as they are.
proof fn lemma_unmap_done(v: Seq<AreaView>, s: int, e: int)
    requires
        forall|i: int| 0 <= i < v.len() ==> !overlaps(#[trigger] v[i], s, e),
    ensures
        unmap_result(v, s, e) == v,
{
    lemma_no_overlap(v, s, e);
    assert(v + Seq::<AreaView>::empty() =~= v);
}

} // verus!

verus! {

/// The first area that starts at page `s`, if any.
pub open spec fn first_at(v: Seq<AreaView>, s: int) -> Option<int> {
    if exists|i: int| 0 <= i < v.len() && (#[trigger] v[i]).0 == s {
        Some(choose|i: int| 0 <= i < v.len() && (#[trigger] v[i]).0 == s && forall|j: int| 0 <= j < i ==> (#[trigger] v[j]).0 != s)
    } else {
        None
    }
}

/// Whether some area meets the page range `[s, e)`.
pub open spec fn any_overlap(v: Seq<AreaView>, s: int, e: int) -> bool {
    exists|i: int| 0 <= i < v.len() && overlaps(#[trigger] v[i], s, e)
}

proof fn lemma_first_at(v: Seq<AreaView>, s: int, i: int)
    requires
        0 <= i < v.len(),
        v[i].0 == s,
        forall|j: int| 0 <= j < i ==> (#[trigger] v[j]).0 != s,
    ensures
        first_at(v, s) == Some(i),
{
    let k = choose|k: int| 0 <= k < v.len() && (#[trigger] v[k]).0 == s && forall|j: int| 0 <= j < k ==> (#[trigger] v[j]).0 != s;
    assert(0 <= k < v.len() && v[k].0 == s && forall|j: int| 0 <= j < k ==> (#[trigger] v[j]).0 != s);
    if k < i {
        assert(v[k].0 != s);
    }
    if k > i {
        assert(v[i].0 != s);
    }
}

proof fn lemma_first_at_props(v: Seq<AreaView>, s: int)
    ensures
        first_at(v, s) matches Some(i) ==> {
            &&& 0 <= i < v.len()
            &&& v[i].0 == s
            &&& forall|j: int| 0 <= j < i ==> (#[trigger] v[j]).0 != s
        },
        first_at(v, s).is_none() ==> forall|j: int| 0 <= j < v.len() ==> (#[trigger] v[j]).0 != s,
{
    if exists|i: int| 0 <= i < v.len() && (#[trigger] v[i]).0 == s {
        let w = choose|i: int| 0 <= i < v.len() && (#[trigger] v[i]).0 == s;
        let m = min_index(v, s, w);
    }
}

/// The least index at or below `w` of an area that starts at page `s`.
proof fn min_index(v: Seq<AreaView>, s: int, w: int) -> (m: int)
    requires
        0 <= w < v.len(),
        v[w].0 == s,
    ensures
        0 <= m <= w,
        v[m].0 == s,
        forall|j: int| 0 <= j < m ==> (#[trigger] v[j]).0 != s,
    decreases w,
{
    if exists|j: int| 0 <= j < w && (#[trigger] v[j]).0 == s {
        let j = choose|j: int| 0 <= j < w && (#[trigger] v[j]).0 == s;
        min_index(v, s, j)
    } else {
        w
    }
}

impl MemorySet {
    pub proof fn lemma_views(&self)
        ensures
            self.views().len() == self.area_seq().len(),
            forall|i: int| 0 <= i < self.area_seq().len() ==> #[trigger] self.views()[i] == self.area_seq()[i].view(),
    {
    }

    /// Map a framed area over the pages that cover `[start_va, end_va)`.
    pub fn insert_framed_area(&mut self, mem: &mut PhysMem, start_va: VirtAddr, end_va: VirtAddr, permission: MapPermission)
        requires
            old(self).wf(old(mem)),
            page_floor(start_va.0 as int) <= page_ceil(end_va.0 as int) <= trampoline_vpn(),
            MapPermission::known_bits(permission.bits),
            range_unmapped(old(mem), old(self).root(), page_floor(start_va.0 as int), page_ceil(end_va.0 as int)),
            distinct_slots(page_floor(start_va.0 as int), page_ceil(end_va.0 as int)),
            old(mem).free_frames() >= 3 * (page_ceil(end_va.0 as int) - page_floor(start_va.0 as int)),
        ensures
            final(self).wf(final(mem)),
            final(self).views() == old(self).views().push(
                (page_floor(start_va.0 as int) as usize, page_ceil(end_va.0 as int) as usize, MapType::Framed, permission.bits),
            ),
            forall|i: int| 0 <= i < old(self).area_seq().len() ==> #[trigger] final(self).area_seq()[i] == old(self).area_seq()[i],
            old(self).table().evolves(old(mem), &final(self).table(), final(mem)),
            final(mem).nframes() - old(mem).nframes() <= 3 * (page_ceil(end_va.0 as int) - page_floor(start_va.0 as int)),
            forall|u: int|
                page_floor(start_va.0 as int) <= u < page_ceil(end_va.0 as int) ==> #[trigger] walk(final(mem), final(self).root(), u)
                    == Some(final(self).area_seq().last().entry_for(u)),
            forall|v: usize|
                final(self).area_seq().last().has(v as int) ==> old(mem).nframes() <= (
                #[trigger] final(self).area_seq().last().frames()[v]).0,
            forall|w: int|
                untouched(w, page_floor(start_va.0 as int), page_ceil(end_va.0 as int)) ==> #[trigger] walk(
                    final(mem),
                    final(self).root(),
                    w,
                ) == walk(old(mem), old(self).root(), w),
            forall|u: int|
                page_floor(start_va.0 as int) <= u < page_ceil(end_va.0 as int) ==> old(mem).nframes() <= (#[trigger] walk(
                    final(mem),
                    final(self).root(),
                    u,
                )).unwrap().spec_ppn() < final(mem).nframes(),
            fresh_range(
                final(mem),
                final(self).root(),
                page_floor(start_va.0 as int),
                page_ceil(end_va.0 as int),
                old(mem).nframes() as int,
            ),
    {
        self.push(mem, MapArea::new(start_va, end_va, MapType::Framed, permission), None);
        proof {
            let l = page_floor(start_va.0 as int);
            let r = page_ceil(end_va.0 as int);
            let i = self.area_seq().len() - 1;
            self.lemma_views();
            assert(self.area_seq()[i] == self.area_seq().last());
            assert(self.area_seq()[i].view() == self.views()[i]);
            assert forall|u1: int, u2: int| l <= u1 < r && l <= u2 < r && u1 != u2 implies (#[trigger] walk(
                mem,
                self.root(),
                u1,
            )).unwrap().spec_ppn() != (#[trigger] walk(mem, self.root(), u2)).unwrap().spec_ppn() by {
                self.lemma_area_frame(mem, i, u1);
                self.lemma_area_frame(mem, i, u2);
                assert(self.area_seq().last().has(u1 as usize as int));
                assert(self.area_seq().last().has(u2 as usize as int));
            }
            assert forall|u: int| page_floor(start_va.0 as int) <= u < page_ceil(end_va.0 as int) implies old(mem).nframes() <= (
            #[trigger] walk(mem, self.root(), u)).unwrap().spec_ppn() < mem.nframes() by {
                let i = self.area_seq().len() - 1;
                assert(self.area_seq()[i] == self.area_seq().last());
                self.lemma_views();
                assert(self.area_seq()[i].view() == self.views()[i]);
                self.lemma_area_frame(mem, i, u);
                assert(self.area_seq().last().has(u as usize as int));
            }
        }
    }

    /// Map the trampoline page, readable and executable, to the physical page of `strampoline`.
    fn map_trampoline(&mut self, mem: &mut PhysMem, strampoline: usize)
        requires
            old(self).wf(old(mem)),
            walk(old(mem), old(self).root(), trampoline_vpn()).is_none(),
            old(mem).free_frames() >= 2,
        ensures
            final(self).wf(final(mem)),
            final(self).views() == old(self).views(),
            final(self).area_seq() == old(self).area_seq(),
            old(self).table().evolves(old(mem), &final(self).table(), final(mem)),
            final(mem).nframes() - old(mem).nframes() <= 2,
            forall|v: int| #[trigger]
                walk(final(mem), final(self).root(), v) == if same_slot(v, trampoline_vpn()) {
                    Some(leaf_entry(PhysPageNum(strampoline / 4096), PTEFlags { bits: PTE_R | PTE_X }))
                } else {
                    walk(old(mem), old(self).root(), v)
                },
    {
        let ghost mem0 = *mem;
        let ghost pt0 = self.page_table;
        proof {
            self.page_table.lemma_missing_bound(mem, trampoline_vpn());
        }
        self.page_table.map(
            mem,
            VirtAddr(TRAMPOLINE).floor(),
            PhysAddr(strampoline).floor(),
            PTEFlags::of(PTE_R).union(PTEFlags::of(PTE_X)),
        );
        proof {
            assert(TRAMPOLINE as int / 4096 == trampoline_vpn());
            let a = self.areas@;
            assert(a == old(self).areas@);
            pt0.lemma_evolves_facts(&mem0, &self.page_table, mem);
            assert forall|i: int, u: int|
                #![trigger a[i].has(u)]
                0 <= i < a.len() && a[i].has(u) implies walk(mem, self.page_table.root(), u) == Some(a[i].entry_for(u)) by {
                assert(old(self).areas@[i].has(u));
                assert(walk(&mem0, pt0.root(), u) == Some(a[i].entry_for(u)));
                if same_slot(u, trampoline_vpn()) {
                    crate::page_table::lemma_walk_same_slot(&mem0, pt0.root(), u, trampoline_vpn());
                }
            }
            assert forall|i: int, v: usize|
                0 <= i < a.len() && (#[trigger] a[i]).frames().contains_key(v) implies #[trigger] a[i].frames()[v].0 < mem.nframes() by {
                assert(old(self).areas@[i].frames().contains_key(v));
            }
        }
    }

    /// Map `[start, end)` with permission `prot` for user access: `-1` when the range is
    /// empty, reaches the trampoline, or meets an existing area; `0` otherwise.
    pub fn mmap(&mut self, mem: &mut PhysMem, start: usize, end: usize, prot: usize) -> (r: isize)
        requires
            old(self).wf(old(mem)),
            MapPermission::known_bits(#[verifier::truncate] (prot as u8)),
            !(start >= TRAMPOLINE || end > TRAMPOLINE || start >= end) && !any_overlap(
                old(self).views(),
                page_floor(start as int),
                page_ceil(end as int),
            ) ==> {
                &&& range_unmapped(old(mem), old(self).root(), page_floor(start as int), page_ceil(end as int))
                &&& distinct_slots(page_floor(start as int), page_ceil(end as int))
                &&& old(mem).free_frames() >= 3 * (page_ceil(end as int) - page_floor(start as int))
            },
        ensures
            final(self).wf(final(mem)),
            r == 0 || r == -1,
            r == -1 <==> (start >= TRAMPOLINE || end > TRAMPOLINE || start >= end || any_overlap(
                old(self).views(),
                page_floor(start as int),
                page_ceil(end as int),
            )),
            r == -1 ==> *final(self) == *old(self) && *final(mem) == *old(mem),
            r == 0 ==> {
                &&& final(self).views() == old(self).views().push(
                    (
                        page_floor(start as int) as usize,
                        page_ceil(end as int) as usize,
                        MapType::Framed,
                        (#[verifier::truncate] (prot as u8)) | MAP_U,
                    ),
                )
                &&& old(self).table().evolves(old(mem), &final(self).table(), final(mem))
                &&& forall|u: int|
                    page_floor(start as int) <= u < page_ceil(end as int) ==> #[trigger] walk(final(mem), final(self).root(), u)
                        == Some(final(self).area_seq().last().entry_for(u))
                &&& forall|w: int|
                    untouched(w, page_floor(start as int), page_ceil(end as int)) ==> #[trigger] walk(
                        final(mem),
                        final(self).root(),
                        w,
                    ) == walk(old(mem), old(self).root(), w)
                &&& fresh_range(
                    final(mem),
                    final(self).root(),
                    page_floor(start as int),
                    page_ceil(end as int),
                    old(mem).nframes() as int,
                )
            },
    {
        let start_va = VirtAddr(start);
        let end_va = VirtAddr(end);
        if start >= TRAMPOLINE || end > TRAMPOLINE || start >= end {
            return -1;
        }
        proof {
            self.lemma_views();
        }
        let mut i: usize = 0;
        while i < self.areas.len()
            invariant
                0 <= i <= self.areas@.len(),
                start_va.0 == start,
                end_va.0 == end,
                *self == *old(self),
                *mem == *old(mem),
                self.wf(mem),
                self.views().len() == self.area_seq().len(),
                forall|k: int| 0 <= k < self.area_seq().len() ==> #[trigger] self.views()[k] == self.area_seq()[k].view(),
                forall|k: int| 0 <= k < i ==> !overlaps(#[trigger] self.views()[k], page_floor(start as int), page_ceil(end as int)),
            decreases self.areas@.len() - i,
        {
            let ov = self.areas[i].is_overlap(start_va, end_va);
            assert(ov == overlaps(self.areas@[i as int].view(), page_floor(start_va.0 as int), page_ceil(end_va.0 as int)));
            assert(ov == overlaps(self.areas@[i as int].view(), page_floor(start as int), page_ceil(end as int)));
            assert(self.views()[i as int] == self.area_seq()[i as int].view());
            assert(self.area_seq()[i as int] == self.areas@[i as int]);
            if ov {
                assert(overlaps(self.views()[i as int], page_floor(start as int), page_ceil(end as int)));
                return -1;
            }
            i = i + 1;
        }
        let permission = MapPermission::from_bits(#[verifier::truncate] (prot as u8)).unwrap().union(
            MapPermission { bits: MAP_U },
        );
        proof {
            let b = #[verifier::truncate] (prot as u8);
            assert(b & 0xe1u8 == 0u8 ==> (b | 16u8) & 0xe1u8 == 0u8) by (bit_vector);
            assert(TRAMPOLINE as int / 4096 == trampoline_vpn());
            assert(page_ceil(end as int) <= trampoline_vpn());
        }
        self.insert_framed_area(mem, start_va, end_va, permission);
        0
    }
}

} // verus!

verus! {

impl MemorySet {
    /// Index of the first area that starts at page `s`.
    fn find_area(&self, s: VirtPageNum) -> (r: Option<usize>)
        ensures
            match r {
                Some(i) => first_at(self.views(), s.0 as int) == Some(i as int),
                None => first_at(self.views(), s.0 as int).is_none(),
            },
    {
        proof {
            self.lemma_views();
        }
        let mut i: usize = 0;
        while i < self.areas.len()
            invariant
                0 <= i <= self.areas@.len(),
                self.views().len() == self.area_seq().len(),
                forall|k: int| 0 <= k < self.area_seq().len() ==> #[trigger] self.views()[k] == self.area_seq()[k].view(),
                forall|k: int| 0 <= k < i ==> (#[trigger] self.views()[k]).0 != s.0,
            decreases self.areas@.len() - i,
        {
            let st = self.areas[i].vpn_range.get_start();
            assert(self.views()[i as int] == self.area_seq()[i as int].view());
            if st.0 == s.0 {
                proof {
                    lemma_first_at(self.views(), s.0 as int, i as int);
                }
                return Some(i);
            }
            i = i + 1;
        }
        None
    }

    /// Shrink the area that starts at the page of `start` so that it ends at the page
    /// boundary at or above `new_end`.
    pub fn shrink_to(&mut self, mem: &mut PhysMem, start: VirtAddr, new_end: VirtAddr) -> (r: KernelResult<()>)
        requires
            old(self).wf(old(mem)),
            first_at(old(self).views(), page_floor(start.0 as int)) matches Some(i) ==> old(self).views()[i].0
                <= page_ceil(new_end.0 as int) <= old(self).views()[i].1,
        ensures
            final(self).wf(final(mem)),
            match first_at(old(self).views(), page_floor(start.0 as int)) {
                Some(i) => {
                    let a = old(self).views()[i];
                    &&& r == Ok::<(), KernelError>(())
                    &&& final(self).views() == old(self).views().update(i, (a.0, page_ceil(new_end.0 as int) as usize, a.2, a.3))
                    &&& old(self).table().evolves(old(mem), &final(self).table(), final(mem))
                    &&& final(mem).nframes() == old(mem).nframes()
                    &&& forall|w: int| #[trigger]
                        walk(final(mem), final(self).root(), w) == if untouched(w, page_ceil(new_end.0 as int), a.1 as int) {
                            walk(old(mem), old(self).root(), w)
                        } else {
                            None
                        }
                },
                None => r == Err::<(), KernelError>(KernelError::ShrinkVirtAddrNotFound) && *final(self) == *old(self)
                    && *final(mem) == *old(mem),
            },
    {
        match self.find_area(start.floor()) {
            Some(i) => {
                let ghost old_self = *self;
                let ghost mem0 = *mem;
                proof {
                    self.lemma_views();
                    lemma_first_at_props(self.views(), page_floor(start.0 as int));
                }
                let mut area = self.areas.remove(i);
                let ghost x = area;
                let ne = new_end.ceil();
                proof {
                    assert(x == old_self.areas@[i as int]);
                    assert forall|u: int, w: int| ne.0 <= u < x.view().1 && ne.0 <= w < x.view().1 && u != w implies !#[trigger] same_slot(u, w) by {
                        assert(x.has(u) && x.has(w));
                        assert(old_self.areas@[i as int].has(u) && old_self.areas@[i as int].has(w));
                    }
                    assert forall|u: int| ne.0 <= u < x.view().1 implies #[trigger] walk(mem, self.page_table.root(), u).is_some() by {
                        assert(old_self.areas@[i as int].has(u));
                    }
                }
                area.shrink_to(&mut self.page_table, mem, ne);
                self.areas.insert(i, area);
                proof {
                    let a = self.areas@;
                    let o = old_self.areas@;
                    assert(a.len() == o.len());
                    assert(forall|k: int| 0 <= k < a.len() && k != i ==> a[k] == o[k]);
                    assert forall|k: int| 0 <= k < a.len() implies (#[trigger] a[k]).area_wf() by {
                        if k != i {
                            assert(a[k] == o[k]);
                        } else {
                            assert(a[k] == area);
                            if x.view().2 == MapType::Framed {
                                assert forall|v: usize| #[trigger] area.frames().contains_key(v) <==> area.has(v as int) by {
                                    assert(o[k].frames().contains_key(v) <==> o[k].has(v as int));
                                }
                            }
                        }
                    }
                    assert forall|k: int, u: int|
                        #![trigger a[k].has(u)]
                        0 <= k < a.len() && a[k].has(u) implies walk(mem, self.page_table.root(), u) == Some(a[k].entry_for(u)) by {
                        if k != i {
                            assert(a[k] == o[k] && o[k].has(u));
                            assert(untouched(u, ne.0 as int, x.view().1 as int)) by {
                                assert forall|w: int| ne.0 <= w < x.view().1 implies !#[trigger] same_slot(u, w) by {
                                    assert(o[i as int].has(w));
                                }
                            }
                        } else {
                            assert(o[k].has(u));
                            assert(untouched(u, ne.0 as int, x.view().1 as int)) by {
                                assert forall|w: int| ne.0 <= w < x.view().1 implies !#[trigger] same_slot(u, w) by {
                                    assert(o[k].has(w));
                                }
                            }
                            if x.view().2 == MapType::Framed {
                                assert(area.frames()[u as usize] == x.frames()[u as usize]);
                            }
                            assert(a[k].entry_for(u) == o[k].entry_for(u));
                        }
                    }
                    assert forall|k: int, l: int, u: int, w: int|
                        #![trigger a[k].has(u), a[l].has(w)]
                        0 <= k < a.len() && 0 <= l < a.len() && a[k].has(u) && a[l].has(w) && (k != l || u != w) implies u != w
                            && !same_slot(u, w) by {
                        assert(o[k].has(u) && o[l].has(w));
                    }
                    old_self.page_table.lemma_evolves_facts(&mem0, &self.page_table, mem);
                    assert forall|k: int, v: usize|
                        0 <= k < a.len() && (#[trigger] a[k]).frames().contains_key(v) implies #[trigger] a[k].frames()[v].0 < mem.nframes() by {
                        assert(o[k].frames().contains_key(v));
                    }
                    assert(self.views() =~= old_self.views().update(i as int, (x.view().0, ne.0, x.view().2, x.view().3)));
                }
                Ok(())
            },
            None => Err(KernelError::ShrinkVirtAddrNotFound),
        }
    }
}

} // verus!

verus! {

impl MemorySet {
    /// Extend the area that starts at the page of `start` so that it ends at the page
    /// boundary at or above `new_end`.
    pub fn append_to(&mut self, mem: &mut PhysMem, start: VirtAddr, new_end: VirtAddr) -> (r: KernelResult<()>)
        requires
            old(self).wf(old(mem)),
            first_at(old(self).views(), page_floor(start.0 as int)) matches Some(i) ==> {
                &&& old(self).views()[i].1 <= page_ceil(new_end.0 as int) <= trampoline_vpn()
                &&& range_unmapped(old(mem), old(self).root(), old(self).views()[i].1 as int, page_ceil(new_end.0 as int))
                &&& distinct_slots(old(self).views()[i].1 as int, page_ceil(new_end.0 as int))
                &&& old(mem).free_frames() >= 3 * (page_ceil(new_end.0 as int) - old(self).views()[i].1)
            },
        ensures
            final(self).wf(final(mem)),
            match first_at(old(self).views(), page_floor(start.0 as int)) {
                Some(i) => {
                    let a = old(self).views()[i];
                    &&& r == Ok::<(), KernelError>(())
                    &&& final(self).views() == old(self).views().update(i, (a.0, page_ceil(new_end.0 as int) as usize, a.2, a.3))
                    &&& old(self).table().evolves(old(mem), &final(self).table(), final(mem))
                    &&& forall|u: int|
                        a.1 <= u < page_ceil(new_end.0 as int) ==> #[trigger] walk(final(mem), final(self).root(), u) == Some(
                            final(self).area_seq()[i].entry_for(u),
                        )
                    &&& forall|w: int|
                        untouched(w, a.1 as int, page_ceil(new_end.0 as int)) ==> #[trigger] walk(final(mem), final(self).root(), w)
                            == walk(old(mem), old(self).root(), w)
                },
                None => r == Err::<(), KernelError>(KernelError::AppendVirtAddrNotFound) && *final(self) == *old(self)
                    && *final(mem) == *old(mem),
            },
    {
        match self.find_area(start.floor()) {
            Some(i) => {
                let ghost old_self = *self;
                let ghost mem0 = *mem;
                proof {
                    self.lemma_views();
                    lemma_first_at_props(self.views(), page_floor(start.0 as int));
                }
                let mut area = self.areas.remove(i);
                let ghost x = area;
                let ne = new_end.ceil();
                proof {
                    assert(x == old_self.areas@[i as int]);
                }
                let res = area.append_to(&mut self.page_table, mem, ne);
                self.areas.insert(i, area);
                proof {
                    let a = self.areas@;
                    let o = old_self.areas@;
                    let l0 = x.view().1 as int;
                    let r0 = ne.0 as int;
                    assert(a.len() == o.len());
                    assert(forall|k: int| 0 <= k < a.len() && k != i ==> a[k] == o[k]);
                    // the new pages share no slot with any page of an area
                    assert forall|k: int, u: int|
                        #![trigger o[k].has(u)]
                        0 <= k < o.len() && o[k].has(u) implies untouched(u, l0, r0) by {
                        assert forall|w: int| l0 <= w < r0 implies !#[trigger] same_slot(u, w) by {
                            if same_slot(u, w) {
                                crate::page_table::lemma_walk_same_slot(&mem0, old_self.root(), u, w);
                                assert(walk(&mem0, old_self.root(), w).is_none());
                            }
                        }
                    }
                    assert forall|k: int| 0 <= k < a.len() implies (#[trigger] a[k]).area_wf() by {
                        if k != i {
                            assert(a[k] == o[k]);
                        } else {
                            assert(a[k] == area);
                            if x.view().2 == MapType::Framed {
                                assert forall|v: usize| #[trigger] area.frames().contains_key(v) <==> area.has(v as int) by {
                                    assert(o[k].frames().contains_key(v) <==> o[k].has(v as int));
                                }
                            }
                        }
                    }
                    assert forall|k: int, u: int|
                        #![trigger a[k].has(u)]
                        0 <= k < a.len() && a[k].has(u) implies walk(mem, self.page_table.root(), u) == Some(a[k].entry_for(u)) by {
                        if k != i {
                            assert(a[k] == o[k] && o[k].has(u));
                        } else if u < l0 {
                            assert(o[k].has(u));
                            if x.view().2 == MapType::Framed {
                                assert(o[k].frames().contains_key(u as usize));
                                assert(area.frames()[u as usize] == x.frames()[u as usize]);
                            }
                            assert(a[k].entry_for(u) == o[k].entry_for(u));
                        }
                    }
                    assert forall|k: int, l: int, u: int, w: int|
                        #![trigger a[k].has(u), a[l].has(w)]
                        0 <= k < a.len() && 0 <= l < a.len() && a[k].has(u) && a[l].has(w) && (k != l || u != w) implies u != w
                            && !same_slot(u, w) by {
                        let uo = !(k == i && u >= l0);
                        let wo = !(l == i && w >= l0);
                        if uo && wo {
                            assert(o[k].has(u) && o[l].has(w));
                        } else if uo {
                            assert(o[k].has(u));
                            assert(untouched(u, l0, r0));
                            assert(walk(&mem0, old_self.root(), u).is_some());
                            assert(walk(&mem0, old_self.root(), w).is_none());
                        } else if wo {
                            assert(o[l].has(w));
                            assert(untouched(w, l0, r0));
                            assert(!same_slot(w, u));
                            assert(walk(&mem0, old_self.root(), w).is_some());
                            assert(walk(&mem0, old_self.root(), u).is_none());
                        } else {
                            assert(l0 <= u < r0 && l0 <= w < r0 && u != w);
                        }
                    }
                    old_self.page_table.lemma_evolves_facts(&mem0, &self.page_table, mem);
                    assert forall|k: int, v: usize|
                        0 <= k < a.len() && (#[trigger] a[k]).frames().contains_key(v) implies #[trigger] a[k].frames()[v].0 < mem.nframes() by {
                        if k != i {
                            assert(o[k].frames().contains_key(v));
                        } else if x.view().2 == MapType::Framed && !(l0 <= v < r0) {
                            assert(o[k].frames().contains_key(v));
                        }
                    }
                    assert(self.views() =~= old_self.views().update(i as int, (x.view().0, ne.0, x.view().2, x.view().3)));
                }
                res
            },
            None => Err(KernelError::AppendVirtAddrNotFound),
        }
    }
}

} // verus!

verus! {

impl MapArea {
    /// Move the frames of pages `[from, to)` from this area to `dst`.
    fn move_frames(&mut self, dst: &mut MapArea, from: VirtPageNum, to: VirtPageNum)
        requires
            from.0 <= to.0,
        ensures
            final(self).view() == old(self).view(),
            final(dst).view() == old(dst).view(),
            final(self).frames() == old(self).frames().remove_keys(Set::new(|k: usize| from.0 <= k < to.0)),
            forall|k: usize| #[trigger]
                final(dst).frames().contains_key(k) <==> (old(dst).frames().contains_key(k) || (from.0 <= k < to.0
                    && old(self).frames().contains_key(k))),
            forall|k: usize|
                from.0 <= k < to.0 && old(self).frames().contains_key(k) ==> #[trigger] final(dst).frames()[k]
                    == old(self).frames()[k],
            forall|k: usize|
                old(dst).frames().contains_key(k) && !(from.0 <= k < to.0 && old(self).frames().contains_key(k))
                    ==> #[trigger] final(dst).frames()[k] == old(dst).frames()[k],
    {
        let mut v = from;
        while v.0 < to.0
            invariant
                from.0 <= v.0 <= to.0,
                self.view() == old(self).view(),
                dst.view() == old(dst).view(),
                self.frames() == old(self).frames().remove_keys(Set::new(|k: usize| from.0 <= k < v.0)),
                forall|k: usize| #[trigger]
                    dst.frames().contains_key(k) <==> (old(dst).frames().contains_key(k) || (from.0 <= k < v.0
                        && old(self).frames().contains_key(k))),
                forall|k: usize|
                    from.0 <= k < v.0 && old(self).frames().contains_key(k) ==> #[trigger] dst.frames()[k]
                        == old(self).frames()[k],
                forall|k: usize|
                    old(dst).frames().contains_key(k) && !(from.0 <= k < v.0 && old(self).frames().contains_key(k))
                        ==> #[trigger] dst.frames()[k] == old(dst).frames()[k],
            decreases to.0 - v.0,
        {
            let ghost d0 = dst.frames();
            let ghost s0 = self.frames();
            if let Some(frame) = self.data_frames.remove(&v.0) {
                dst.data_frames.insert(v.0, frame);
                assert(dst.frames() == d0.insert(v.0, frame));
            }
            proof {
                assert(self.frames() =~= old(self).frames().remove_keys(Set::new(|k: usize| from.0 <= k < v.0 + 1)));
            }
            v.step();
        }
    }
}

/// Whether page `w` shares its leaf slot with none of the pages of `[s, e)` that `old`
/// covers and `cur` no longer covers.
pub open spec fn clear_of(old: &MemorySet, cur: &MemorySet, s: int, e: int, w: int) -> bool {
    forall|u: int| s <= u < e && old.covers(u) && !cur.covers(u) ==> !#[trigger] same_slot(w, u)
}

impl MemorySet {
    /// Remove area `idx`, which meets `[s, e)`, unmap its pages inside `[s, e)`, and add
    /// back the parts of it below `s` and from `e` on.
    fn cut_area(&mut self, mem: &mut PhysMem, idx: usize, s: VirtPageNum, e: VirtPageNum)
        requires
            old(self).wf(old(mem)),
            s.0 <= e.0,
            idx < old(self).views().len(),
            overlaps(old(self).views()[idx as int], s.0 as int, e.0 as int),
        ensures
            final(self).wf(final(mem)),
            final(self).views() == old(self).views().subrange(0, idx as int) + old(self).views().subrange(
                idx + 1,
                old(self).views().len() as int,
            ) + remainders(old(self).views()[idx as int], s.0 as int, e.0 as int),
            old(self).table().evolves(old(mem), &final(self).table(), final(mem)),
            final(mem).nframes() == old(mem).nframes(),
            forall|u: int| #[trigger] final(self).covers(u) ==> old(self).covers(u),
            forall|u: int| old(self).covers(u) && !(old(self).area_seq()[idx as int].has(u) && s.0 <= u < e.0) ==> #[trigger] final(self).covers(u),
            forall|u: int| #[trigger] final(self).covers(u) && s.0 <= u < e.0 ==> old(self).covers(u),
            forall|u: int|
                s.0 <= u < e.0 && old(self).area_seq()[idx as int].has(u) ==> !#[trigger] final(self).covers(u)
                    && walk(final(mem), final(self).root(), u).is_none(),
            forall|u: int| #[trigger] final(self).covers(u) ==> !old(self).area_seq()[idx as int].has(u) || !(s.0 <= u < e.0),
            forall|w: int|
                (forall|u: int| s.0 <= u < e.0 && old(self).area_seq()[idx as int].has(u) ==> !#[trigger] same_slot(w, u))
                    ==> #[trigger] walk(final(mem), final(self).root(), w) == walk(old(mem), old(self).root(), w),
    {
        let ghost old_self = *self;
        let ghost mem0 = *mem;
        proof {
            self.lemma_views();
        }
        let mut area = self.areas.remove(idx);
        let ghost x = area;
        let ghost n = old_self.areas@.len();
        let unmap_start = if s.0 > area.vpn_range.get_start().0 { s } else { area.vpn_range.get_start() };
        let unmap_end = if e.0 < area.vpn_range.get_end().0 { e } else { area.vpn_range.get_end() };
        proof {
            assert(x == old_self.areas@[idx as int]);
            assert forall|u: int, w: int| unmap_start.0 <= u < unmap_end.0 && unmap_start.0 <= w < unmap_end.0 && u != w implies !#[trigger] same_slot(u, w) by {
                assert(old_self.areas@[idx as int].has(u) && old_self.areas@[idx as int].has(w));
            }
            assert forall|u: int| unmap_start.0 <= u < unmap_end.0 implies #[trigger] walk(mem, self.page_table.root(), u).is_some() by {
                assert(old_self.areas@[idx as int].has(u));
            }
        }
        area.unmap_pages(&mut self.page_table, mem, unmap_start, unmap_end);
        let ghost au = area;
        let ghost rest = self.areas@;
        if area.vpn_range.get_start().0 < s.0 {
            let left_end = s;
            let mut left_area = MapArea {
                vpn_range: VPNRange::new(area.vpn_range.get_start(), left_end),
                data_frames: BTreeMap::new(),
                map_type: area.map_type,
                map_perm: area.map_perm,
            };
            let from = area.vpn_range.get_start();
            area.move_frames(&mut left_area, from, left_end);
            self.areas.push(left_area);
        }
        let ghost with_left = self.areas@;
        let ghost al = area;
        proof {
            assert(with_left.subrange(0, rest.len() as int) =~= rest);
            if au.view().0 < s.0 {
                assert(with_left.len() == rest.len() + 1);
            } else {
                assert(with_left == rest);
                assert(al == au);
            }
            assert forall|k: usize| e.0 <= k < au.view().1 implies (#[trigger] al.frames().contains_key(k) <==> au.frames().contains_key(k))
                && (au.frames().contains_key(k) ==> al.frames()[k] == au.frames()[k]) by {
                if au.view().0 < s.0 {
                    assert(!(au.view().0 <= k < s.0));
                }
            }
        }
        if area.vpn_range.get_end().0 > e.0 {
            let right_start = e;
            let mut right_area = MapArea {
                vpn_range: VPNRange::new(right_start, area.vpn_range.get_end()),
                data_frames: BTreeMap::new(),
                map_type: area.map_type,
                map_perm: area.map_perm,
            };
            let to = area.vpn_range.get_end();
            area.move_frames(&mut right_area, right_start, to);
            self.areas.push(right_area);
        }
        proof {
            assert(self.areas@.subrange(0, rest.len() as int) =~= rest);
            if au.view().1 > e.0 {
                assert(self.areas@.len() == with_left.len() + 1);
                assert(self.areas@.subrange(0, with_left.len() as int) =~= with_left);
            } else {
                assert(self.areas@ == with_left);
            }
            if au.view().0 < s.0 {
                assert(self.areas@[rest.len() as int] == with_left[rest.len() as int]);
            }
            self.cut_area_proof(old_self, mem0, *mem, x, au, rest, idx as int, s.0 as int, e.0 as int, unmap_start.0 as int, unmap_end.0 as int);
        }
    }

    /// A remainder piece `[lo, hi)` of area `x`, built from `au`, the area after unmapping
    /// `[us, ue)`, is a consistent area that maps its pages as `x` does.
    proof fn lemma_piece(&self, x: MapArea, au: MapArea, p: MapArea, us: int, ue: int, lo: int, hi: int)
        requires
            x.area_wf(),
            au.view() == x.view(),
            x.view().2 == MapType::Framed ==> au.frames() == x.frames().remove_keys(Set::new(|v: usize| us <= v < ue)),
            x.view().2 == MapType::Identical ==> au.frames() == x.frames(),
            x.view().0 <= lo <= hi <= x.view().1,
            hi <= us || lo >= ue,
            p.view() == (lo as usize, hi as usize, x.view().2, x.view().3),
            forall|k: usize| #[trigger] p.frames().contains_key(k) <==> (lo <= k < hi && au.frames().contains_key(k)),
            forall|k: usize| lo <= k < hi && au.frames().contains_key(k) ==> #[trigger] p.frames()[k] == au.frames()[k],
        ensures
            p.area_wf(),
            forall|u: int| #[trigger] p.has(u) ==> x.has(u) && !(us <= u < ue) && p.entry_for(u) == x.entry_for(u),
            forall|v: usize| #[trigger] p.frames().contains_key(v) ==> au.frames().contains_key(v) && x.frames().contains_key(v)
                && p.frames()[v] == x.frames()[v],
    {
        if x.view().2 == MapType::Framed {
            assert forall|v: usize| #[trigger] p.frames().contains_key(v) <==> p.has(v as int) by {
                assert(x.frames().contains_key(v) <==> x.has(v as int));
            }
        } else {
            assert(p.frames() =~= Map::<usize, PhysPageNum>::empty());
        }
        assert forall|u: int| #[trigger] p.has(u) implies x.has(u) && !(us <= u < ue) && p.entry_for(u) == x.entry_for(u) by {
            if x.view().2 == MapType::Framed {
                assert(x.frames().contains_key(u as usize));
                assert(au.frames().contains_key(u as usize));
            }
        }
    }

    proof fn cut_area_proof(
        &self,
        old_self: MemorySet,
        mem0: PhysMem,
        mem: PhysMem,
        x: MapArea,
        au: MapArea,
        rest: Seq<MapArea>,
        idx: int,
        s: int,
        e: int,
        us: int,
        ue: int,
    )
        requires
            old_self.wf(&mem0),
            0 <= idx < old_self.areas@.len(),
            x == old_self.areas@[idx],
            rest == old_self.areas@.remove(idx),
            s <= e,
            overlaps(x.view(), s, e),
            us == if s > x.view().0 { s } else { x.view().0 as int },
            ue == if e < x.view().1 { e } else { x.view().1 as int },
            au.view() == x.view(),
            x.view().2 == MapType::Framed ==> au.frames() == x.frames().remove_keys(Set::new(|v: usize| us <= v < ue)),
            x.view().2 == MapType::Identical ==> au.frames() == x.frames(),
            self.page_table.wf(&mem),
            old_self.page_table.evolves(&mem0, &self.page_table, &mem),
            mem.nframes() == mem0.nframes(),
            forall|w: int| #[trigger]
                walk(&mem, self.page_table.root(), w) == if untouched(w, us, ue) {
                    walk(&mem0, old_self.page_table.root(), w)
                } else {
                    None
                },
            self.areas@.len() == rest.len() + (if x.view().0 < s { 1int } else { 0int }) + (if x.view().1 > e { 1int } else { 0int }),
            self.areas@.subrange(0, rest.len() as int) == rest,
            x.view().0 < s ==> {
                let lp = self.areas@[rest.len() as int];
                &&& lp.view() == (x.view().0, s as usize, x.view().2, x.view().3)
                &&& forall|k: usize| #[trigger] lp.frames().contains_key(k) <==> (x.view().0 <= k < s && au.frames().contains_key(k))
                &&& forall|k: usize| x.view().0 <= k < s && au.frames().contains_key(k) ==> #[trigger] lp.frames()[k] == au.frames()[k]
            },
            x.view().1 > e ==> {
                let rp = self.areas@[self.areas@.len() - 1];
                &&& rp.view() == (e as usize, x.view().1, x.view().2, x.view().3)
                &&& forall|k: usize| #[trigger] rp.frames().contains_key(k) <==> (e <= k < x.view().1 && au.frames().contains_key(k))
                &&& forall|k: usize| e <= k < x.view().1 && au.frames().contains_key(k) ==> #[trigger] rp.frames()[k] == au.frames()[k]
            },
        ensures
            self.wf(&mem),
            self.views() == old_self.views().subrange(0, idx) + old_self.views().subrange(idx + 1, old_self.views().len() as int)
                + remainders(old_self.views()[idx], s, e),
            forall|u: int| #[trigger] self.covers(u) ==> old_self.covers(u),
            forall|u: int| old_self.covers(u) && !(old_self.area_seq()[idx].has(u) && s <= u < e) ==> #[trigger] self.covers(u),
            forall|u: int| #[trigger] self.covers(u) && s <= u < e ==> old_self.covers(u),
            forall|u: int| s <= u < e && old_self.area_seq()[idx].has(u) ==> !#[trigger] self.covers(u) && walk(&mem, self.root(), u).is_none(),
            forall|u: int| #[trigger] self.covers(u) ==> !old_self.area_seq()[idx].has(u) || !(s <= u < e),
            forall|w: int|
                (forall|u: int| s <= u < e && old_self.area_seq()[idx].has(u) ==> !#[trigger] same_slot(w, u))
                    ==> #[trigger] walk(&mem, self.root(), w) == walk(&mem0, old_self.root(), w),
    {
        let o = old_self.areas@;
        let a = self.areas@;
        let n = o.len();
        let m = rest.len();
        let has_l = x.view().0 < s;
        let has_r = x.view().1 > e;
        old_self.lemma_views();
        self.lemma_views();
        // where each area of the result comes from
        let origin = |k: int| if k < idx { k } else if k < m { k + 1 } else { idx };
        assert forall|k: int| 0 <= k < m implies #[trigger] a[k] == o[if k < idx { k } else { k + 1 }] by {
            assert(a[k] == rest[k]);
        }
        // pages of the result areas are pages of the old areas outside the unmapped part
        assert forall|k: int, u: int|
            #![trigger a[k].has(u)]
            0 <= k < a.len() && a[k].has(u) implies {
                let j = origin(k);
                &&& o[j].has(u)
                &&& (j == idx ==> !(us <= u < ue) && !(s <= u < e))
                &&& a[k].entry_for(u) == o[j].entry_for(u)
                &&& a[k].area_wf()
            } by {
            if k < m {
                assert(a[k] == o[origin(k)]);
            } else {
                assert(x == o[idx]);
                if has_l && k == m {
                    self.lemma_piece(x, au, a[k], us, ue, x.view().0 as int, s);
                } else {
                    assert(has_r && k == a.len() - 1);
                    self.lemma_piece(x, au, a[k], us, ue, e, x.view().1 as int);
                }
            }
        }
        assert(self.wf(&mem)) by {
            assert forall|k: int| 0 <= k < a.len() implies (#[trigger] a[k]).area_wf() by {
                if k < m {
                    assert(a[k] == o[origin(k)]);
                } else if has_l && k == m {
                    self.lemma_piece(x, au, a[k], us, ue, x.view().0 as int, s);
                } else {
                    self.lemma_piece(x, au, a[k], us, ue, e, x.view().1 as int);
                }
            }
            assert forall|k: int, u: int|
                #![trigger a[k].has(u)]
                0 <= k < a.len() && a[k].has(u) implies walk(&mem, self.page_table.root(), u) == Some(a[k].entry_for(u)) by {
                let j = origin(k);
                assert(o[j].has(u));
                assert(untouched(u, us, ue)) by {
                    assert forall|w: int| us <= w < ue implies !#[trigger] same_slot(u, w) by {
                        assert(o[idx].has(w));
                    }
                }
            }
            assert forall|k: int, l: int, u: int, w: int|
                #![trigger a[k].has(u), a[l].has(w)]
                0 <= k < a.len() && 0 <= l < a.len() && a[k].has(u) && a[l].has(w) && (k != l || u != w) implies u != w
                    && !same_slot(u, w) by {
                let jk = origin(k);
                let jl = origin(l);
                assert(o[jk].has(u) && o[jl].has(w));
                if jk == jl && k != l {
                    assert(jk == idx);
                    assert(u < s || u >= e);
                    assert(w < s || w >= e);
                    assert(u != w);
                }
            }
            old_self.page_table.lemma_evolves_facts(&mem0, &self.page_table, &mem);
            assert forall|k: int, v: usize|
                0 <= k < a.len() && (#[trigger] a[k]).frames().contains_key(v) implies #[trigger] a[k].frames()[v].0 < mem.nframes() by {
                if k < m {
                    assert(a[k] == o[origin(k)]);
                    assert(o[origin(k)].frames().contains_key(v));
                } else {
                    assert(au.frames().contains_key(v));
                    assert(x.frames().contains_key(v));
                    assert(a[k].frames()[v] == au.frames()[v]);
                    assert(au.frames()[v] == x.frames()[v]);
                }
            }
        }
        assert forall|u: int| #[trigger] self.covers(u) implies old_self.covers(u) by {
            let k = choose|k: int| 0 <= k < self.area_seq().len() && #[trigger] self.area_seq()[k].has(u);
            assert(a[k].has(u));
            assert(o[origin(k)].has(u));
        }
        assert forall|u: int| old_self.covers(u) && !(old_self.area_seq()[idx].has(u) && s <= u < e) implies #[trigger] self.covers(u) by {
            let j = choose|j: int| 0 <= j < old_self.area_seq().len() && #[trigger] old_self.area_seq()[j].has(u);
            assert(o[j].has(u));
            if j < idx {
                assert(a[j] == o[j]);
                assert(self.area_seq()[j].has(u));
            } else if j > idx {
                assert(a[j - 1] == o[j]);
                assert(self.area_seq()[j - 1].has(u));
            } else if u < s {
                assert(has_l);
                assert(self.area_seq()[m as int].has(u));
            } else {
                assert(has_r);
                assert(self.area_seq()[a.len() - 1].has(u));
            }
        }
        assert forall|u: int| s <= u < e && old_self.area_seq()[idx].has(u) implies !#[trigger] self.covers(u) && walk(&mem, self.root(), u).is_none() by {
            if self.covers(u) {
                let k = choose|k: int| 0 <= k < self.area_seq().len() && #[trigger] self.area_seq()[k].has(u);
                assert(a[k].has(u));
                let j = origin(k);
                assert(o[j].has(u));
                assert(o[idx].has(u));
            }
            assert(us <= u < ue);
            assert(same_slot(u, u));
            assert(!untouched(u, us, ue));
        }
        assert forall|u: int| #[trigger] self.covers(u) implies !old_self.area_seq()[idx].has(u) || !(s <= u < e) by {
            let k = choose|k: int| 0 <= k < self.area_seq().len() && #[trigger] self.area_seq()[k].has(u);
            assert(a[k].has(u));
            let j = origin(k);
            assert(o[j].has(u));
            if o[idx].has(u) && j != idx {
                assert(false);
            }
        }
        assert forall|w: int|
            (forall|u: int| s <= u < e && old_self.area_seq()[idx].has(u) ==> !#[trigger] same_slot(w, u)) implies #[trigger] walk(
                &mem,
                self.root(),
                w,
            ) == walk(&mem0, old_self.root(), w) by {
            assert forall|v: int| us <= v < ue implies !#[trigger] same_slot(w, v) by {
                assert(s <= v < e && o[idx].has(v));
            }
        }
        let ov = old_self.views();
        let expected = ov.subrange(0, idx) + ov.subrange(idx + 1, ov.len() as int) + remainders(ov[idx], s, e);
        assert(ov[idx] == x.view());
        assert forall|k: int| 0 <= k < a.len() implies #[trigger] self.views()[k] == expected[k] by {
            if k < m {
                assert(a[k] == o[origin(k)]);
                if k < idx {
                    assert(expected[k] == ov[k]);
                } else {
                    assert(expected[k] == ov[k + 1]);
                }
            }
        }
        assert(self.views() =~= expected);


    }
}

} // verus!

verus! {

/// Pages `[l, r)` of the table rooted at `root` are mapped, each to a frame handed out
/// at or after frame `n0`, and no two of them to the same frame.
pub open spec fn fresh_range(mem: &PhysMem, root: int, l: int, r: int, n0: int) -> bool {
    &&& forall|u: int| l <= u < r ==> (#[trigger] walk(mem, root, u)) is Some && n0 <= walk(mem, root, u).unwrap().spec_ppn()
    &&& forall|u1: int, u2: int|
        l <= u1 < r && l <= u2 < r && u1 != u2 ==> (#[trigger] walk(mem, root, u1)).unwrap().spec_ppn() != (#[trigger] walk(
            mem,
            root,
            u2,
        )).unwrap().spec_ppn()
}

/// The frames of the pages of the first `n` areas of `a` are at least `lo`, and no two
/// pages share a frame.
pub open spec fn fresh_frames(a: Seq<MapArea>, n: int, lo: int) -> bool {
    &&& forall|j: int, u: int| 0 <= j < n && #[trigger] a[j].has(u) ==> lo <= a[j].frames()[u as usize].0
    &&& forall|j1: int, u1: int, j2: int, u2: int|
        #![trigger a[j1].has(u1), a[j2].has(u2)]
        0 <= j1 < n && 0 <= j2 < n && a[j1].has(u1) && a[j2].has(u2) && (j1 != j2 || u1 != u2) ==> a[j1].frames()[u1 as usize]
            != a[j2].frames()[u2 as usize]
}

/// Whether page `w` shares its leaf slot with no page of `[s, e)` that some area of `ms` covers.
pub open spec fn clear_of_range(ms: &MemorySet, s: int, e: int, w: int) -> bool {
    forall|u: int| s <= u < e && ms.covers(u) ==> !#[trigger] same_slot(w, u)
}

impl MemorySet {
    /// Unmap the pages that cover `[start, end)`: every area that meets them is removed and
    /// the parts of it outside the range are added back at the end. Returns `0`.
    pub fn munmap(&mut self, mem: &mut PhysMem, start: usize, end: usize) -> (r: isize)
        requires
            old(self).wf(old(mem)),
            start <= end,
        ensures
            r == 0,
            final(self).wf(final(mem)),
            final(self).views() == unmap_result(old(self).views(), page_floor(start as int), page_ceil(end as int)),
            old(self).table().evolves(old(mem), &final(self).table(), final(mem)),
            final(mem).nframes() == old(mem).nframes(),
            forall|u: int|
                page_floor(start as int) <= u < page_ceil(end as int) && old(self).covers(u) ==> #[trigger] walk(
                    final(mem),
                    final(self).root(),
                    u,
                ).is_none(),
            forall|w: int|
                clear_of_range(old(self), page_floor(start as int), page_ceil(end as int), w) ==> #[trigger] walk(
                    final(mem),
                    final(self).root(),
                    w,
                ) == walk(old(mem), old(self).root(), w),
    {
        let start_va = VirtAddr(start);
        let end_va = VirtAddr(end);
        let start_vpn = start_va.floor();
        let end_vpn = end_va.ceil();
        let ghost s = start_vpn.0 as int;
        let ghost e = end_vpn.0 as int;
        proof {
            self.table().lemma_evolves_refl(mem);
        }
        loop
            invariant
                start_va.0 == start,
                end_va.0 == end,
                start_vpn.0 == s,
                end_vpn.0 == e,
                s == page_floor(start as int),
                e == page_ceil(end as int),
                s <= e,
                self.wf(mem),
                unmap_result(self.views(), s, e) == unmap_result(old(self).views(), s, e),
                old(self).table().evolves(old(mem), &self.table(), mem),
                mem.nframes() == old(mem).nframes(),
                forall|u: int| #[trigger] self.covers(u) && s <= u < e ==> old(self).covers(u),
                forall|u: int| old(self).covers(u) && !(s <= u < e) ==> #[trigger] self.covers(u),
                forall|u: int|
                    s <= u < e && old(self).covers(u) && !self.covers(u) ==> #[trigger] walk(mem, self.root(), u).is_none(),
                forall|w: int|
                    (forall|u: int| s <= u < e && old(self).covers(u) && !self.covers(u) ==> !#[trigger] same_slot(w, u))
                        ==> #[trigger] walk(mem, self.root(), w) == walk(old(mem), old(self).root(), w),
            ensures
                forall|u: int| s <= u < e ==> !#[trigger] self.covers(u),
                self.views() == unmap_result(self.views(), s, e),
            decreases overlap_count(self.views(), s, e),
        {
            let mut target_idx: Option<usize> = None;
            let mut i: usize = 0;
            proof {
                self.lemma_views();
            }
            while i < self.areas.len()
                invariant_except_break
                    target_idx.is_none(),
                invariant
                    0 <= i <= self.areas@.len(),
                    start_va.0 == start,
                    end_va.0 == end,
                    s == page_floor(start as int),
                    e == page_ceil(end as int),
                    self.views().len() == self.area_seq().len(),
                    forall|k: int| 0 <= k < self.area_seq().len() ==> #[trigger] self.views()[k] == self.area_seq()[k].view(),
                    forall|k: int| 0 <= k < i ==> !overlaps(#[trigger] self.views()[k], s, e),
                    target_idx.is_some() ==> target_idx.unwrap() == i && i < self.areas@.len() && overlaps(self.views()[i as int], s, e),
                ensures
                    target_idx matches Some(t) ==> t < self.views().len() && overlaps(self.views()[t as int], s, e),
                    forall|k: int|
                        0 <= k < self.views().len() && (target_idx.is_none() || k < target_idx.unwrap()) ==> !overlaps(
                            #[trigger] self.views()[k],
                            s,
                            e,
                        ),
                decreases self.areas@.len() - i,
            {
                let ov = self.areas[i].is_overlap(start_va, end_va);
                assert(self.views()[i as int] == self.area_seq()[i as int].view());
                if ov {
                    target_idx = Some(i);
                    break;
                }
                i = i + 1;
            }
            if let Some(idx) = target_idx {
                let ghost before = *self;
                let ghost mem0 = *mem;
                proof {
                    let v = self.views();
                    let t = idx as int;
                    assert(v == v.subrange(0, t) + seq![v[t]] + v.subrange(t + 1, v.len() as int));
                    lemma_unmap_step(v.subrange(0, t), v[t], v.subrange(t + 1, v.len() as int), s, e);
                }
                self.cut_area(mem, idx, start_vpn, end_vpn);
                proof {
                    let x = before.area_seq()[idx as int];
                    PageTable::lemma_evolves_trans(&old(self).table(), old(mem), &before.table(), &mem0, &self.table(), mem);
                    old(self).table().lemma_evolves_facts(old(mem), &before.table(), &mem0);
                    assert forall|u: int| #[trigger] self.covers(u) && s <= u < e implies old(self).covers(u) by {
                        assert(before.covers(u));
                    }
                    assert forall|u: int| old(self).covers(u) && !(s <= u < e) implies #[trigger] self.covers(u) by {
                        assert(before.covers(u));
                    }
                    assert forall|u: int|
                        s <= u < e && old(self).covers(u) && !self.covers(u) implies #[trigger] walk(mem, self.root(), u).is_none() by {
                        if before.covers(u) {
                            assert(x.has(u));
                            assert(!self.covers(u));
                        } else {
                            assert(walk(&mem0, before.root(), u).is_none());
                            if exists|v: int| s <= v < e && x.has(v) && #[trigger] same_slot(u, v) {
                                let v = choose|v: int| s <= v < e && x.has(v) && #[trigger] same_slot(u, v);
                                assert(!self.covers(v));
                                assert(walk(mem, self.root(), v).is_none());
                                crate::page_table::lemma_walk_same_slot(mem, self.root(), u, v);
                            } else {
                                assert(walk(mem, self.root(), u) == walk(&mem0, before.root(), u));
                            }
                        }
                    }
                    assert forall|w: int|
                        (forall|u: int| s <= u < e && old(self).covers(u) && !self.covers(u) ==> !#[trigger] same_slot(w, u))
                            implies #[trigger] walk(mem, self.root(), w) == walk(old(mem), old(self).root(), w) by {
                        assert forall|u: int| s <= u < e && x.has(u) implies !#[trigger] same_slot(w, u) by {
                            assert(before.area_seq()[idx as int].has(u));
                            assert(before.covers(u));
                            assert(old(self).covers(u));
                            assert(!self.covers(u));
                        }
                        assert(walk(mem, self.root(), w) == walk(&mem0, before.root(), w));
                        assert forall|u: int| s <= u < e && old(self).covers(u) && !before.covers(u) implies !#[trigger] same_slot(w, u) by {
                            if self.covers(u) {
                                assert(before.covers(u));
                            }
                        }
                    }
                }
            } else {
                proof {
                    lemma_unmap_done(self.views(), s, e);
                    assert forall|u: int| s <= u < e implies !#[trigger] self.covers(u) by {
                        if self.covers(u) {
                            let k = choose|k: int| 0 <= k < self.area_seq().len() && #[trigger] self.area_seq()[k].has(u);
                            assert(overlaps(self.views()[k], s, e));
                        }
                    }
                }
                break;
            }
        }
        proof {
            assert forall|w: int| clear_of_range(old(self), s, e, w) implies #[trigger] walk(mem, self.root(), w) == walk(
                old(mem),
                old(self).root(),
                w,
            ) by {
                assert forall|u: int| s <= u < e && old(self).covers(u) && !self.covers(u) implies !#[trigger] same_slot(w, u) by {}
            }
        }
        proof {
            assert forall|w: int| clear_of_range(old(self), s, e, w) implies #[trigger] walk(mem, self.root(), w) == walk(
                old(mem),
                old(self).root(),
                w,
            ) by {
                assert forall|u: int| s <= u < e && old(self).covers(u) && !self.covers(u) implies !#[trigger] same_slot(w, u) by {}
            }
        }
        0
    }
}

} // verus!

verus! {

/// The number of pages of a sequence of areas.
pub open spec fn total_pages(v: Seq<AreaView>) -> int
    decreases v.len(),
{
    if v.len() == 0 {
        0
    } else {
        total_pages(v.drop_last()) + (v.last().1 - v.last().0)
    }
}

proof fn lemma_total_pages_take(v: Seq<AreaView>, i: int)
    requires
        0 <= i < v.len(),
        forall|j: int| 0 <= j < v.len() ==> (#[trigger] v[j]).0 <= v[j].1,
    ensures
        total_pages(v.take(i + 1)) == total_pages(v.take(i)) + (v[i].1 - v[i].0),
        total_pages(v.take(i + 1)) <= total_pages(v),
        0 <= total_pages(v.take(i)),
    decreases v.len(),
{
    assert(v.take(i + 1).drop_last() =~= v.take(i));
    lemma_total_pages_mono(v, i + 1);
    lemma_total_pages_mono(v, i);
}

proof fn lemma_total_pages_mono(v: Seq<AreaView>, i: int)
    requires
        0 <= i <= v.len(),
        forall|j: int| 0 <= j < v.len() ==> (#[trigger] v[j]).0 <= v[j].1,
    ensures
        0 <= total_pages(v.take(i)) <= total_pages(v),
    decreases v.len(),
{
    if i == v.len() {
        assert(v.take(i) =~= v);
        lemma_total_pages_nonneg(v);
    } else {
        assert(v.drop_last().take(i) =~= v.take(i));
        lemma_total_pages_mono(v.drop_last(), i);
        lemma_total_pages_nonneg(v.drop_last());
    }
}

proof fn lemma_total_pages_nonneg(v: Seq<AreaView>)
    requires
        forall|j: int| 0 <= j < v.len() ==> (#[trigger] v[j]).0 <= v[j].1,
    ensures
        0 <= total_pages(v),
    decreases v.len(),
{
    if v.len() > 0 {
        lemma_total_pages_nonneg(v.drop_last());
    }
}

/// The number of 512-page blocks that the areas `v` touch, counted area by area.
pub open spec fn total_blocks(v: Seq<AreaView>) -> int
    decreases v.len(),
{
    if v.len() == 0 {
        0
    } else {
        total_blocks(v.drop_last()) + blocks(v.last().0 as int, v.last().1 as int)
    }
}

proof fn lemma_total_blocks_take(v: Seq<AreaView>, i: int)
    requires
        0 <= i < v.len(),
    ensures
        total_blocks(v.take(i + 1)) == total_blocks(v.take(i)) + blocks(v[i].0 as int, v[i].1 as int),
        total_blocks(v.take(i + 1)) <= total_blocks(v),
        0 <= total_blocks(v.take(i)),
    decreases v.len(),
{
    assert(v.take(i + 1).drop_last() =~= v.take(i));
    lemma_total_blocks_mono(v, i + 1);
    lemma_total_blocks_mono(v, i);
}

proof fn lemma_total_blocks_mono(v: Seq<AreaView>, i: int)
    requires
        0 <= i <= v.len(),
    ensures
        0 <= total_blocks(v.take(i)) <= total_blocks(v),
    decreases v.len(),
{
    if i == v.len() {
        assert(v.take(i) =~= v);
        lemma_total_blocks_nonneg(v);
    } else {
        assert(v.drop_last().take(i) =~= v.take(i));
        lemma_total_blocks_mono(v.drop_last(), i);
        lemma_total_blocks_nonneg(v.drop_last());
        lemma_blocks_le(v.last().0 as int, v.last().1 as int);
    }
}

proof fn lemma_total_blocks_nonneg(v: Seq<AreaView>)
    ensures
        0 <= total_blocks(v),
    decreases v.len(),
{
    if v.len() > 0 {
        lemma_total_blocks_nonneg(v.drop_last());
        lemma_blocks_le(v.last().0 as int, v.last().1 as int);
    }
}

/// Byte `k` of the page that page `vpn` of the table rooted at `root` maps to.
pub open spec fn page_byte(mem: &PhysMem, root: int, vpn: int, k: int) -> u8 {
    mem.byte(walk(mem, root, vpn).unwrap().spec_ppn() * 4096 + k)
}

/// Whether page `w` shares a leaf slot with no page of the areas `a[0..i]`.
pub open spec fn clear_of_areas(a: Seq<MapArea>, i: int, w: int) -> bool {
    forall|j: int, u: int| 0 <= j < i && #[trigger] a[j].has(u) ==> !same_slot(w, u)
}

impl MemorySet {
    /// A copy of the user address space `other`: the trampoline page mapped to the
    /// physical page of `strampoline`, and for each area a new area of the same range,
    /// kind and permission whose pages, in new frames, hold what the area's pages hold.
    #[verifier::rlimit(40)]
    pub fn from_another(other: &MemorySet, mem: &mut PhysMem, strampoline: usize) -> (r: MemorySet)
        requires
            other.wf(old(mem)),
            forall|i: int| 0 <= i < other.views().len() ==> (#[trigger] other.views()[i]).2 == MapType::Framed,
            forall|i: int, u: int|
                0 <= i < other.area_seq().len() && #[trigger] other.area_seq()[i].has(u) ==> !same_slot(u, trampoline_vpn()),
            old(mem).free_frames() >= 3 + 3 * total_pages(other.views()),
        ensures
            r.wf(final(mem)),
            r.views() == other.views(),
            other.wf(final(mem)),
            forall|v: int| #[trigger] walk(final(mem), other.root(), v) == walk(old(mem), other.root(), v),
            forall|f: int, s: int| 0 <= f < old(mem).nframes() ==> #[trigger] final(mem).pte(f, s) == old(mem).pte(f, s),
            forall|pa: int| 0 <= pa < old(mem).nframes() * 4096 ==> #[trigger] final(mem).byte(pa) == old(mem).byte(pa),
            walk(final(mem), r.root(), trampoline_vpn()) == Some(
                leaf_entry(PhysPageNum(strampoline / 4096), PTEFlags { bits: PTE_R | PTE_X }),
            ),
            forall|i: int, u: int|
                0 <= i < other.area_seq().len() && #[trigger] other.area_seq()[i].has(u) ==> walk(final(mem), r.root(), u) is Some,
            forall|i: int, u: int, k: int|
                0 <= i < other.area_seq().len() && #[trigger] other.area_seq()[i].has(u) && 0 <= k < 4096 ==> #[trigger] page_byte(final(mem), r.root(), u, k) == page_byte(old(mem), other.root(), u, k),
            forall|i: int, u: int|
                0 <= i < other.area_seq().len() && #[trigger] other.area_seq()[i].has(u) ==> old(mem).nframes() <= walk(
                    final(mem),
                    r.root(),
                    u,
                ).unwrap().spec_ppn(),
            forall|i1: int, u1: int, i2: int, u2: int|
                #![trigger other.area_seq()[i1].has(u1), other.area_seq()[i2].has(u2)]
                0 <= i1 < other.area_seq().len() && 0 <= i2 < other.area_seq().len() && other.area_seq()[i1].has(u1)
                    && other.area_seq()[i2].has(u2) && u1 != u2 ==> walk(final(mem), r.root(), u1).unwrap().spec_ppn() != walk(
                    final(mem),
                    r.root(),
                    u2,
                ).unwrap().spec_ppn(),
    {
        broadcast use vstd::seq_lib::group_seq_properties;
        let ghost mem0 = *mem;
        let ghost oa = other.areas@;
        let ghost ov = other.views();
        proof {
            other.lemma_views();
            other.lemma_token_root(mem);
            assert forall|j: int| 0 <= j < ov.len() implies (#[trigger] ov[j]).0 <= ov[j].1 by {
                assert(oa[j].area_wf());
            }
            lemma_total_pages_nonneg(ov);
        }
        let mut ms = MemorySet::new_bare(mem);
        let ghost mem1 = *mem;
        let ghost t1 = ms.table();
        ms.map_trampoline(mem, strampoline);
        let ghost tramp = leaf_entry(PhysPageNum(strampoline / 4096), PTEFlags { bits: PTE_R | PTE_X });
        proof {
            t1.lemma_evolves_keeps(&mem1, &ms.table(), mem);
            t1.lemma_evolves_facts(&mem1, &ms.table(), mem);
            assert(ms.views() =~= ov.take(0));
            assert(total_pages(ov.take(0)) == 0);
        }
        let n = other.areas.len();
        let mut i: usize = 0;
        while i < n
            invariant
                n == oa.len(),
                oa == other.areas@,
                ov == other.views(),
                ov.len() == oa.len(),
                forall|j: int| 0 <= j < oa.len() ==> #[trigger] ov[j] == oa[j].view(),
                forall|j: int| 0 <= j < ov.len() ==> (#[trigger] ov[j]).0 <= ov[j].1,
                other.wf(&mem0),
                forall|j: int| 0 <= j < ov.len() ==> (#[trigger] ov[j]).2 == MapType::Framed,
                forall|j: int, u: int| 0 <= j < oa.len() && #[trigger] oa[j].has(u) ==> !same_slot(u, trampoline_vpn()),
                mem0.free_frames() >= 3 + 3 * total_pages(ov),
                0 <= total_pages(ov),
                0 <= i <= n,
                ms.wf(mem),
                mem0.wf(),
                ms.root() == mem0.nframes(),
                ms.views() == ov.take(i as int),
                mem.nframes() - mem0.nframes() <= 3 + 3 * total_pages(ov.take(i as int)),
                mem.nframes() >= mem0.nframes(),
                mem.frame_limit() == mem0.frame_limit(),
                forall|f: int, q: int| 0 <= f < mem0.nframes() ==> #[trigger] mem.pte(f, q) == mem0.pte(f, q),
                forall|pa: int| 0 <= pa < mem0.nframes() * 4096 ==> #[trigger] mem.byte(pa) == mem0.byte(pa),
                forall|f: int| #[trigger] ms.table().owns(f) ==> f >= mem0.nframes(),
                forall|w: int|
                    #[trigger] clear_of_areas(oa, i as int, w) ==> walk(mem, ms.root(), w) == if same_slot(w, trampoline_vpn()) {
                        Some(tramp)
                    } else {
                        None
                    },
                forall|j: int, u: int|
                    0 <= j < i && #[trigger] oa[j].has(u) ==> walk(mem, ms.root(), u) is Some,
                forall|j: int, u: int, k: int|
                    0 <= j < i && #[trigger] oa[j].has(u) && 0 <= k < 4096 ==> #[trigger] page_byte(mem, ms.root(), u, k) == page_byte(&mem0, other.root(), u, k),
                fresh_frames(ms.area_seq(), i as int, mem0.nframes() as int),
            decreases n - i,
        {
            let ghost before = *mem;
            let ghost ms0 = ms;
            proof {
                ms.lemma_token_root(mem);
                other.lemma_wf_grow(&mem0, mem);
                lemma_total_pages_take(ov, i as int);
                assert(oa[i as int].area_wf());
                assert(ov[i as int] == oa[i as int].view());
            }
            let area = &other.areas[i];
            let new_area = MapArea::from_another(area);
            let s = area.vpn_range.get_start().0;
            let e = area.vpn_range.get_end().0;
            proof {
                assert(s == ov[i as int].0 && e == ov[i as int].1);
                assert forall|u: int| s <= u < e implies #[trigger] walk(mem, ms.root(), u).is_none() by {
                    assert(oa[i as int].has(u));
                    assert forall|j: int, w: int| 0 <= j < i && #[trigger] oa[j].has(w) implies !same_slot(u, w) by {
                        assert(j != i);
                    }
                    assert(clear_of_areas(oa, i as int, u));
                }
                assert forall|u: int, w: int| s <= u < e && s <= w < e && u != w implies !#[trigger] same_slot(u, w) by {
                    assert(oa[i as int].has(u) && oa[i as int].has(w));
                }
            }
            if s < e {
                let mut data: Vec<u8> = Vec::new();
                let mut vpn = s;
                while vpn < e
                    invariant
                        s <= vpn <= e,
                        oa == other.areas@,
                        0 <= i < oa.len(),
                        s == oa[i as int].view().0,
                        e == oa[i as int].view().1,
                        other.wf(mem),
                        other.wf(&mem0),
                        forall|v: int| #[trigger] walk(mem, other.root(), v) == walk(&mem0, other.root(), v),
                        mem.wf(),
                        mem0.wf(),
                        oa[i as int].view().2 == MapType::Framed,
                        mem.nframes() >= mem0.nframes(),
                        forall|pa: int| 0 <= pa < mem0.nframes() * 4096 ==> #[trigger] mem.byte(pa) == mem0.byte(pa),
                        data@.len() == (vpn - s) * 4096,
                        forall|j: int|
                            0 <= j < data@.len() ==> #[trigger] data@[j] == mem0.byte(
                                walk(&mem0, other.root(), s + j / 4096).unwrap().spec_ppn() * 4096 + j % 4096,
                            ),
                    decreases e - vpn,
                {
                    proof {
                        other.lemma_area_frame(&mem0, i as int, vpn as int);
                    }
                    let src = other.translate(mem, VirtPageNum(vpn)).unwrap().ppn();
                    proof {
                        mem0.lemma_frames_bound();
                        assert(src.0 * 4096 + 4096 <= mem0.nframes() * 4096) by (nonlinear_arith)
                            requires
                                src.0 + 1 <= mem0.nframes(),
                        ;
                        assert(mem0.nframes() * 4096 <= usize::MAX) by (nonlinear_arith)
                            requires
                                mem0.nframes() <= mem0.frame_limit(),
                                mem0.frame_limit() <= usize::MAX / 4096,
                        ;
                    }
                    let base = src.0 * 4096;
                    let ghost d0 = data@;
                    let mut k: usize = 0;
                    while k < 4096
                        invariant
                            0 <= k <= 4096,
                            base + 4096 <= mem0.nframes() * 4096,
                            base == src.0 * 4096,
                            src.0 == walk(&mem0, other.root(), vpn as int).unwrap().spec_ppn(),
                            forall|pa: int| 0 <= pa < mem0.nframes() * 4096 ==> #[trigger] mem.byte(pa) == mem0.byte(pa),
                            data@.len() == d0.len() + k,
                            forall|j: int| 0 <= j < d0.len() ==> #[trigger] data@[j] == d0[j],
                            forall|j: int| 0 <= j < k ==> #[trigger] data@[d0.len() + j] == mem0.byte(base + j),
                        decreases 4096 - k,
                    {
                        data.push(mem.read_byte(base + k));
                        k = k + 1;
                    }
                    proof {
                        assert forall|j: int| 0 <= j < data@.len() implies #[trigger] data@[j] == mem0.byte(
                            walk(&mem0, other.root(), s + j / 4096).unwrap().spec_ppn() * 4096 + j % 4096,
                        ) by {
                            if j >= d0.len() {
                                let q = j - d0.len();
                                assert(j / 4096 == vpn - s && j % 4096 == q) by (nonlinear_arith)
                                    requires
                                        j == (vpn - s) * 4096 + q,
                                        0 <= q < 4096,
                                ;
                                assert(data@[d0.len() + q] == mem0.byte(base + q));
                            }
                        }
                    }
                    vpn = vpn + 1;
                }
                ms.push(mem, new_area, Some(data.as_slice()));
                proof {
                    Self::lemma_after_push(other, &mem0, &ms0, &before, &ms, mem, i as int, Some(data@));
                }
            } else {
                ms.push(mem, new_area, None);
                proof {
                    Self::lemma_after_push(other, &mem0, &ms0, &before, &ms, mem, i as int, None);
                }
            }
            proof {
                lemma_total_pages_take(ov, i as int);
                assert forall|j: int, u: int| 0 <= j < i + 1 && #[trigger] oa[j].has(u) implies walk(mem, ms.root(), u) is Some by {
                    assert(other.area_seq()[j].has(u));
                }
                assert forall|j: int, u: int, k: int|
                    0 <= j < i + 1 && #[trigger] oa[j].has(u) && 0 <= k < 4096 implies #[trigger] page_byte(mem, ms.root(), u, k)
                        == page_byte(&mem0, other.root(), u, k) by {
                    assert(other.area_seq()[j].has(u));
                }
                assert forall|w: int| #[trigger] clear_of_areas(oa, i + 1, w) implies walk(mem, ms.root(), w) == if same_slot(
                    w,
                    trampoline_vpn(),
                ) {
                    Some(tramp)
                } else {
                    None
                } by {
                    assert forall|u: int| s <= u < e implies !#[trigger] same_slot(w, u) by {
                        assert(oa[i as int].has(u));
                    }
                    assert(untouched(w, s as int, e as int));
                    assert forall|j: int, u: int| 0 <= j < i && #[trigger] oa[j].has(u) implies !same_slot(w, u) by {}
                    assert(clear_of_areas(oa, i as int, w));
                }
            }
            i = i + 1;
        }
        proof {
            ms.lemma_token_root(mem);
            other.lemma_wf_grow(&mem0, mem);
            assert(ov.take(n as int) =~= ov);
            assert(clear_of_areas(oa, n as int, trampoline_vpn())) by {
                assert forall|j: int, u: int| 0 <= j < n && #[trigger] oa[j].has(u) implies !same_slot(trampoline_vpn(), u) by {
                    assert(!same_slot(u, trampoline_vpn()));
                }
            }
            ms.lemma_views();
            let ma = ms.area_seq();
            assert forall|j: int, u: int| 0 <= j < n && #[trigger] oa[j].has(u) implies ma[j].has(u) && ma[j].view().2
                == MapType::Framed && walk(mem, ms.root(), u).unwrap().spec_ppn() == ma[j].frames()[u as usize].0 by {
                assert(ms.views()[j] == ov[j]);
                ms.lemma_area_frame(mem, j, u);
            }
            assert forall|j: int, u: int| 0 <= j < n && #[trigger] oa[j].has(u) implies mem0.nframes() <= walk(
                mem,
                ms.root(),
                u,
            ).unwrap().spec_ppn() by {
                assert(ma[j].has(u));
            }
            assert forall|i1: int, u1: int, i2: int, u2: int|
                #![trigger oa[i1].has(u1), oa[i2].has(u2)]
                0 <= i1 < n && 0 <= i2 < n && oa[i1].has(u1) && oa[i2].has(u2) && u1 != u2 implies walk(mem, ms.root(), u1).unwrap().spec_ppn()
                    != walk(mem, ms.root(), u2).unwrap().spec_ppn() by {
                assert(ma[i1].has(u1) && ma[i2].has(u2));
                assert(ma[i1].frames()[u1 as usize] != ma[i2].frames()[u2 as usize]);
            }
        }
        ms
    }

    /// The loop of `from_another` keeps its invariant over one pushed area.
    proof fn lemma_after_push(
        other: &MemorySet,
        mem0: &PhysMem,
        ms0: &MemorySet,
        before: &PhysMem,
        ms: &MemorySet,
        mem: &PhysMem,
        i: int,
        data: Option<Seq<u8>>,
    )
        requires
            other.wf(mem0),
            0 <= i < other.area_seq().len(),
            forall|j: int| 0 <= j < other.views().len() ==> (#[trigger] other.views()[j]).2 == MapType::Framed,
            ms0.wf(before),
            ms0.views() == other.views().take(i),
            ms.wf(mem),
            ms.views() == ms0.views().push(other.area_seq()[i].view()),
            ms.area_seq().len() == ms0.area_seq().len() + 1,
            forall|j: int| 0 <= j < ms0.area_seq().len() ==> #[trigger] ms.area_seq()[j] == ms0.area_seq()[j],
            ms0.table().evolves(before, &ms.table(), mem),
            mem.nframes() - before.nframes() <= 3 * (other.views()[i].1 - other.views()[i].0),
            forall|u: int|
                other.views()[i].0 <= u < other.views()[i].1 ==> #[trigger] walk(mem, ms.root(), u) == Some(
                    ms.area_seq().last().entry_for(u),
                ),
            forall|w: int|
                untouched(w, other.views()[i].0 as int, other.views()[i].1 as int) ==> #[trigger] walk(mem, ms.root(), w) == walk(
                    before,
                    ms0.root(),
                    w,
                ),
            data matches Some(d) ==> {
                &&& d.len() == (other.views()[i].1 - other.views()[i].0) * 4096
                &&& forall|j: int|
                    0 <= j < d.len() ==> #[trigger] d[j] == mem0.byte(
                        walk(mem0, other.root(), other.views()[i].0 + j / 4096).unwrap().spec_ppn() * 4096 + j % 4096,
                    )
                &&& forall|j: int| 0 <= j < d.len() ==> #[trigger] mem.byte(ms.area_seq().last().data_dest(j)) == d[j]
            },
            data is None ==> other.views()[i].0 == other.views()[i].1,
            // the invariant before the push
            ms0.root() == mem0.nframes(),
            before.nframes() >= mem0.nframes(),
            forall|f: int, q: int| 0 <= f < mem0.nframes() ==> #[trigger] before.pte(f, q) == mem0.pte(f, q),
            forall|pa: int| 0 <= pa < mem0.nframes() * 4096 ==> #[trigger] before.byte(pa) == mem0.byte(pa),
            forall|f: int| #[trigger] ms0.table().owns(f) ==> f >= mem0.nframes(),
            forall|j: int, u: int|
                0 <= j < i && #[trigger] other.area_seq()[j].has(u) ==> walk(before, ms0.root(), u) is Some,
            forall|j: int, u: int, k: int|
                0 <= j < i && #[trigger] other.area_seq()[j].has(u) && 0 <= k < 4096 ==> #[trigger] page_byte(before, ms0.root(), u, k) == page_byte(mem0, other.root(), u, k),
            fresh_frames(ms0.area_seq(), i, mem0.nframes() as int),
            forall|v: usize| ms.area_seq().last().has(v as int) ==> before.nframes() <= (
            #[trigger] ms.area_seq().last().frames()[v]).0,
            forall|v: usize, w: usize|
                ms.area_seq().last().has(v as int) && ms.area_seq().last().has(w as int) && v != w
                    ==> #[trigger] ms.area_seq().last().frames()[v] != #[trigger] ms.area_seq().last().frames()[w],
        ensures
            fresh_frames(ms.area_seq(), i + 1, mem0.nframes() as int),
            ms.root() == mem0.nframes(),
            mem.nframes() >= before.nframes(),
            mem.frame_limit() == before.frame_limit(),
            forall|f: int, q: int| 0 <= f < mem0.nframes() ==> #[trigger] mem.pte(f, q) == mem0.pte(f, q),
            forall|pa: int| 0 <= pa < mem0.nframes() * 4096 ==> #[trigger] mem.byte(pa) == mem0.byte(pa),
            forall|f: int| #[trigger] ms.table().owns(f) ==> f >= mem0.nframes(),
            ms.views() == other.views().take(i + 1),
            forall|j: int, u: int|
                0 <= j < i + 1 && #[trigger] other.area_seq()[j].has(u) ==> walk(mem, ms.root(), u) is Some,
            forall|j: int, u: int, k: int|
                0 <= j < i + 1 && #[trigger] other.area_seq()[j].has(u) && 0 <= k < 4096 ==> #[trigger] page_byte(mem, ms.root(), u, k) == page_byte(mem0, other.root(), u, k),
    {
        let oa = other.area_seq();
        let ov = other.views();
        other.lemma_views();
        ms0.lemma_views();
        ms.lemma_views();
        ms0.table().lemma_evolves_keeps(before, &ms.table(), mem);
        ms0.table().lemma_evolves_facts(before, &ms.table(), mem);
        assert(ms.views() =~= ov.take(i + 1));
        let s = ov[i].0 as int;
        let e = ov[i].1 as int;
        assert(ms0.views().len() == i);
        assert(ms.views()[i] == oa[i].view());
        let last = ms.area_seq().last();
        assert(last == ms.area_seq()[i]);
        assert(last.view() == ov[i]);
        assert forall|j: int, u: int| 0 <= j < i && #[trigger] oa[j].has(u) implies untouched(u, s, e) && ms0.area_seq()[j].has(u)
            && ms0.area_seq()[j].view().2 == MapType::Framed by {
            assert forall|w: int| s <= w < e implies !#[trigger] same_slot(u, w) by {
                assert(oa[i].has(w));
            }
            assert(ms0.views()[j] == ov.take(i)[j]);
            assert(ms0.area_seq()[j].view() == ov[j]);
        }
        assert forall|j: int, u: int| 0 <= j < i + 1 && #[trigger] oa[j].has(u) implies walk(mem, ms.root(), u) is Some by {
            if j < i {
                assert(untouched(u, s, e));
            } else {
                ms.lemma_area_frame(mem, i, u);
            }
        }
        assert forall|j: int, u: int, k: int|
            0 <= j < i + 1 && #[trigger] oa[j].has(u) && 0 <= k < 4096 implies #[trigger] page_byte(mem, ms.root(), u, k)
                == page_byte(mem0, other.root(), u, k) by {
            if j < i {
                assert(untouched(u, s, e) && ms0.area_seq()[j].has(u) && ms0.area_seq()[j].view().2 == MapType::Framed);
                ms0.lemma_area_frame(before, j, u);
                let p = walk(before, ms0.root(), u).unwrap().spec_ppn();
                assert(p * 4096 + k < before.nframes() * 4096) by (nonlinear_arith)
                    requires
                        p + 1 <= before.nframes(),
                        0 <= k < 4096,
                ;
                assert(page_byte(before, ms0.root(), u, k) == page_byte(mem0, other.root(), u, k));
            } else {
                ms.lemma_area_frame(mem, i, u);
                let jj = (u - s) * 4096 + k;
                assert(jj / 4096 == u - s && jj % 4096 == k) by (nonlinear_arith)
                    requires
                        jj == (u - s) * 4096 + k,
                        0 <= k < 4096,
                ;
                assert(s <= u < e);
                assert(0 <= jj < (e - s) * 4096) by (nonlinear_arith)
                    requires
                        jj == (u - s) * 4096 + k,
                        0 <= k < 4096,
                        s <= u < e,
                ;
                assert(data is Some);
                let d = data->0;
                assert(last.data_dest(jj) == last.frames()[u as usize].0 * 4096 + k);
                assert(mem.byte(last.data_dest(jj)) == d[jj]);
            }
        }
            let a = ms.area_seq();
        let a0 = ms0.area_seq();
        assert(a.len() == i + 1);
        assert forall|j: int, u: int| 0 <= j < i && #[trigger] a[j].has(u) implies a[j].frames()[u as usize].0
            < before.nframes() by {
            assert(a[j] == a0[j]);
            assert(a0[j].area_wf());
            assert(ms0.views()[j] == ov[j]);
            assert(a0[j].view().2 == MapType::Framed);
            assert(a0[j].frames().contains_key(u as usize));
        }
        assert forall|j: int, u: int| 0 <= j < i + 1 && #[trigger] a[j].has(u) implies mem0.nframes() <= a[j].frames()[
            u as usize].0 by {
            if j < i {
                assert(a[j] == a0[j]);
            } else {
                assert(a[j] == last);
                assert(last.has((u as usize) as int));
            }
        }
        assert forall|j1: int, u1: int, j2: int, u2: int|
            #![trigger a[j1].has(u1), a[j2].has(u2)]
            0 <= j1 < i + 1 && 0 <= j2 < i + 1 && a[j1].has(u1) && a[j2].has(u2) && (j1 != j2 || u1 != u2) implies a[j1].frames()[
            u1 as usize] != a[j2].frames()[u2 as usize] by {
            if j1 < i && j2 < i {
                assert(a[j1] == a0[j1] && a[j2] == a0[j2]);
                assert(a0[j1].has(u1) && a0[j2].has(u2));
            } else if j1 == i && j2 == i {
                assert(last.has((u1 as usize) as int) && last.has((u2 as usize) as int));
            } else if j1 == i {
                assert(last.has((u1 as usize) as int));
                assert(a[j2].frames()[u2 as usize].0 < before.nframes());
            } else {
                assert(last.has((u2 as usize) as int));
                assert(a[j1].frames()[u1 as usize].0 < before.nframes());
            }
        }
}

    /// Growing memory without touching the frames of a consistent address space keeps
    /// it consistent and its translations as they were.
    pub proof fn lemma_wf_grow(&self, mem0: &PhysMem, mem: &PhysMem)
        requires
            self.wf(mem0),
            mem.wf(),
            mem.nframes() >= mem0.nframes(),
            forall|f: int, q: int| 0 <= f < mem0.nframes() ==> #[trigger] mem.pte(f, q) == mem0.pte(f, q),
        ensures
            self.wf(mem),
            forall|v: int| #[trigger] walk(mem, self.root(), v) == walk(mem0, self.root(), v),
    {
        assert forall|f: int, q: int| self.page_table.owns(f) implies #[trigger] mem.pte(f, q) == mem0.pte(f, q) by {
            self.page_table.lemma_owned_in_memory(mem0, f);
        }
        self.page_table.lemma_frame(mem0, mem);
    }

    /// The page `v` of framed area `i` walks to the area's frame for it, a frame of memory.
    proof fn lemma_area_frame(&self, mem: &PhysMem, i: int, v: int)
        requires
            self.wf(mem),
            0 <= i < self.area_seq().len(),
            self.area_seq()[i].has(v),
            self.area_seq()[i].view().2 == MapType::Framed,
        ensures
            walk(mem, self.root(), v) == Some(self.area_seq()[i].entry_for(v)),
            walk(mem, self.root(), v).unwrap().spec_ppn() == self.area_seq()[i].frames()[v as usize].0,
            self.area_seq()[i].frames()[v as usize].0 < mem.nframes(),
    {
        let a = self.area_seq()[i];
        assert(a.area_wf());
        assert(a.frames().contains_key(v as usize));
        self.page_table.lemma_mem_wf(mem);
        mem.lemma_frames_bound();
        let p = a.frames()[v as usize].0;
        crate::page_table::lemma_pte_fields(p as u64, a.view().3 | 1u8);
        assert(a.entry_for(v) == leaf_entry(PhysPageNum(p), PTEFlags { bits: a.view().3 }));
    }
}

} // verus!

verus! {

/// Where the linker placed the sections of the kernel image.
#[derive(Clone, Copy)]
pub struct KernelLayout {
    /// Start of `.text`.
    pub stext: usize,
    /// End of `.text`.
    pub etext: usize,
    /// Start of `.rodata`.
    pub srodata: usize,
    /// End of `.rodata`.
    pub erodata: usize,
    /// Start of `.data`.
    pub sdata: usize,
    /// End of `.data`.
    pub edata: usize,
    /// Start of `.bss`, boot stack included.
    pub sbss_with_stack: usize,
    /// End of `.bss`.
    pub ebss: usize,
    /// End of the kernel image.
    pub ekernel: usize,
}

/// A region mapped one to one: start and end address, and permission bits.
pub type Region = (int, int, u8);

/// Whether page `u` covers part of region `g`.
pub open spec fn in_region(g: Region, u: int) -> bool {
    page_floor(g.0) <= u < page_ceil(g.1)
}

/// The regions of the kernel address space, in the order they are mapped: `.text`
/// (read, execute), `.rodata` (read), `.data` and `.bss` (read, write), the physical
/// memory above the kernel (read, write), and the device regions `mmio`, each given by
/// its start and length (read, write).
pub open spec fn kernel_regions(l: KernelLayout, mmio: Seq<(usize, usize)>) -> Seq<Region> {
    seq![
        (l.stext as int, l.etext as int, MAP_R | MAP_X),
        (l.srodata as int, l.erodata as int, MAP_R),
        (l.sdata as int, l.edata as int, MAP_R | MAP_W),
        (l.sbss_with_stack as int, l.ebss as int, MAP_R | MAP_W),
        (l.ekernel as int, MEMORY_END as int, MAP_R | MAP_W),
    ] + mmio.map_values(|p: (usize, usize)| (p.0 as int, p.0 + p.1, MAP_R | MAP_W))
}

/// The areas that map the regions `rs` one to one.
pub open spec fn region_views(rs: Seq<Region>) -> Seq<AreaView> {
    rs.map_values(|g: Region| (page_floor(g.0) as usize, page_ceil(g.1) as usize, MapType::Identical, g.2))
}

/// Regions that can be mapped one after another: each an ordered range of addresses
/// whose pages lie below the trampoline, no two pages of them sharing a leaf slot,
/// and none sharing the trampoline's.
pub open spec fn regions_ok(rs: Seq<Region>) -> bool {
    &&& forall|i: int|
        0 <= i < rs.len() ==> {
            &&& 0 <= (#[trigger] rs[i]).0 <= rs[i].1 <= usize::MAX
            &&& page_ceil(rs[i].1) <= trampoline_vpn()
            &&& MapPermission::known_bits(rs[i].2)
            &&& distinct_slots(page_floor(rs[i].0), page_ceil(rs[i].1))
        }
    &&& forall|i: int, j: int, u: int, w: int|
        0 <= i < rs.len() && 0 <= j < rs.len() && i != j && #[trigger] in_region(rs[i], u) && #[trigger] in_region(rs[j], w)
            ==> !same_slot(u, w)
    &&& forall|i: int, u: int|
        0 <= i < rs.len() && #[trigger] in_region(rs[i], u) ==> !same_slot(u, trampoline_vpn())
}

/// Whether page `w` shares a leaf slot with no page of the regions `rs[0..i]`.
pub open spec fn clear_of_regions(rs: Seq<Region>, i: int, w: int) -> bool {
    forall|j: int, u: int| 0 <= j < i && #[trigger] in_region(rs[j], u) ==> !same_slot(w, u)
}

impl MemorySet {
    /// The kernel address space: the trampoline mapped to the page of `strampoline`, and
    /// each region of `kernel_regions(layout, mmio)` mapped one to one with its
    /// permission, in that order.
    #[verifier::rlimit(40)]
    pub fn new_kernel(mem: &mut PhysMem, layout: KernelLayout, mmio: &Vec<(usize, usize)>, strampoline: usize) -> (r: MemorySet)
        requires
            old(mem).wf(),
            forall|i: int| 0 <= i < mmio@.len() ==> (#[trigger] mmio@[i]).0 + mmio@[i].1 <= usize::MAX,
            regions_ok(kernel_regions(layout, mmio@)),
            old(mem).free_frames() >= 3 + 2 * total_blocks(region_views(kernel_regions(layout, mmio@))),
        ensures
            r.wf(final(mem)),
            r.views() == region_views(kernel_regions(layout, mmio@)),
            walk(final(mem), r.root(), trampoline_vpn()) == Some(
                leaf_entry(PhysPageNum(strampoline / 4096), PTEFlags { bits: PTE_R | PTE_X }),
            ),
            forall|i: int, u: int|
                0 <= i < kernel_regions(layout, mmio@).len() && #[trigger] in_region(kernel_regions(layout, mmio@)[i], u)
                    ==> walk(final(mem), r.root(), u) == Some(
                    leaf_entry(PhysPageNum(u as usize), PTEFlags { bits: kernel_regions(layout, mmio@)[i].2 }),
                ),
            forall|f: int, s: int| 0 <= f < old(mem).nframes() ==> #[trigger] final(mem).pte(f, s) == old(mem).pte(f, s),
            forall|pa: int| 0 <= pa < old(mem).nframes() * 4096 ==> #[trigger] final(mem).byte(pa) == old(mem).byte(pa),
    {
        let ghost rs = kernel_regions(layout, mmio@);
        let mut regions: Vec<(usize, usize, u8)> = Vec::new();
        regions.push((layout.stext, layout.etext, MAP_R | MAP_X));
        regions.push((layout.srodata, layout.erodata, MAP_R));
        regions.push((layout.sdata, layout.edata, MAP_R | MAP_W));
        regions.push((layout.sbss_with_stack, layout.ebss, MAP_R | MAP_W));
        regions.push((layout.ekernel, MEMORY_END, MAP_R | MAP_W));
        let mut k: usize = 0;
        while k < mmio.len()
            invariant
                0 <= k <= mmio@.len(),
                forall|i: int| 0 <= i < mmio@.len() ==> (#[trigger] mmio@[i]).0 + mmio@[i].1 <= usize::MAX,
                rs == kernel_regions(layout, mmio@),
                regions@.len() == 5 + k,
                forall|i: int| 0 <= i < 5 + k ==> ((#[trigger] regions@[i]).0 as int, regions@[i].1 as int, regions@[i].2) == rs[i],
            decreases mmio@.len() - k,
        {
            let pair = mmio[k];
            regions.push((pair.0, pair.0 + pair.1, MAP_R | MAP_W));
            k = k + 1;
        }
        let ghost mem0 = *mem;
        let ghost vs = region_views(rs);
        proof {
            assert forall|j: int| 0 <= j < vs.len() implies (#[trigger] vs[j]).0 <= vs[j].1 by {
                assert(rs[j].0 <= rs[j].1);
                assert(page_floor(rs[j].0) <= page_ceil(rs[j].1));
            }
            lemma_total_pages_nonneg(vs);
            lemma_total_blocks_nonneg(vs);
        }
        let mut ms = MemorySet::new_bare(mem);
        let ghost mem1 = *mem;
        let ghost t1 = ms.table();
        ms.map_trampoline(mem, strampoline);
        let ghost tramp = leaf_entry(PhysPageNum(strampoline / 4096), PTEFlags { bits: PTE_R | PTE_X });
        proof {
            t1.lemma_evolves_keeps(&mem1, &ms.table(), mem);
            t1.lemma_evolves_facts(&mem1, &ms.table(), mem);
            assert(ms.views() =~= vs.take(0));
        }
        let n = regions.len();
        let mut i: usize = 0;
        while i < n
            invariant
                n == rs.len(),
                regions@.len() == rs.len(),
                forall|j: int| 0 <= j < n ==> ((#[trigger] regions@[j]).0 as int, regions@[j].1 as int, regions@[j].2) == rs[j],
                vs == region_views(rs),
                regions_ok(rs),
                forall|j: int| 0 <= j < vs.len() ==> (#[trigger] vs[j]).0 <= vs[j].1,
                mem0.free_frames() >= 3 + 2 * total_blocks(vs),
                0 <= i <= n,
                ms.wf(mem),
                ms.views() == vs.take(i as int),
                mem.nframes() - mem0.nframes() <= 3 + 2 * total_blocks(vs.take(i as int)),
                mem.nframes() >= mem0.nframes(),
                mem.frame_limit() == mem0.frame_limit(),
                forall|f: int, q: int| 0 <= f < mem0.nframes() ==> #[trigger] mem.pte(f, q) == mem0.pte(f, q),
                forall|pa: int| 0 <= pa < mem0.nframes() * 4096 ==> #[trigger] mem.byte(pa) == mem0.byte(pa),
                forall|f: int| #[trigger] ms.table().owns(f) ==> f >= mem0.nframes(),
                forall|w: int|
                    #[trigger] clear_of_regions(rs, i as int, w) ==> walk(mem, ms.root(), w) == if same_slot(w, trampoline_vpn()) {
                        Some(tramp)
                    } else {
                        None
                    },
            decreases n - i,
        {
            let ghost before = *mem;
            let ghost ms0 = ms;
            proof {
                lemma_total_blocks_take(vs, i as int);
                ms.lemma_token_root(mem);
            }
            let g = regions[i];
            let area = MapArea::new(VirtAddr(g.0), VirtAddr(g.1), MapType::Identical, MapPermission { bits: g.2 });
            let ghost s = page_floor(g.0 as int);
            let ghost e = page_ceil(g.1 as int);
            proof {
                assert(rs[i as int] == (g.0 as int, g.1 as int, g.2));
                assert(area.view() == vs[i as int]);
                assert forall|u: int| s <= u < e implies #[trigger] walk(mem, ms.root(), u).is_none() by {
                    assert(in_region(rs[i as int], u));
                    assert forall|j: int, w: int| 0 <= j < i && #[trigger] in_region(rs[j], w) implies !same_slot(u, w) by {
                        assert(j != i);
                    }
                    assert(clear_of_regions(rs, i as int, u));
                }
            }
            ms.push(mem, area, None);
            proof {
                ms0.table().lemma_evolves_keeps(&before, &ms.table(), mem);
                ms0.table().lemma_evolves_facts(&before, &ms.table(), mem);
                assert(ms.views() =~= vs.take(i + 1));
                assert forall|w: int| #[trigger] clear_of_regions(rs, i + 1, w) implies walk(mem, ms.root(), w) == if same_slot(
                    w,
                    trampoline_vpn(),
                ) {
                    Some(tramp)
                } else {
                    None
                } by {
                    assert forall|u: int| s <= u < e implies !#[trigger] same_slot(w, u) by {
                        assert(in_region(rs[i as int], u));
                    }
                    assert(untouched(w, s, e));
                    assert forall|j: int, u: int| 0 <= j < i && #[trigger] in_region(rs[j], u) implies !same_slot(w, u) by {}
                    assert(clear_of_regions(rs, i as int, w));
                }
            }
            i = i + 1;
        }
        proof {
            assert(vs.take(n as int) =~= vs);
            assert(clear_of_regions(rs, n as int, trampoline_vpn())) by {
                assert forall|j: int, u: int| 0 <= j < n && #[trigger] in_region(rs[j], u) implies !same_slot(trampoline_vpn(), u) by {
                    assert(!same_slot(u, trampoline_vpn()));
                }
            }
            ms.lemma_views();
            ms.lemma_token_root(mem);
            assert forall|i: int, u: int| 0 <= i < rs.len() && #[trigger] in_region(rs[i], u) implies walk(mem, ms.root(), u) == Some(
                leaf_entry(PhysPageNum(u as usize), PTEFlags { bits: rs[i].2 }),
            ) by {
                assert(ms.area_seq()[i].view() == vs[i]);
                assert(ms.area_seq()[i].has(u));
                ms.lemma_area_walk(mem, i, u);
            }
        }
        ms
    }

    /// Page `v` of area `i` walks to the area's entry for it.
    proof fn lemma_area_walk(&self, mem: &PhysMem, i: int, v: int)
        requires
            self.wf(mem),
            0 <= i < self.area_seq().len(),
            self.area_seq()[i].has(v),
        ensures
            walk(mem, self.root(), v) == Some(self.area_seq()[i].entry_for(v)),
    {
    }
}

} // verus!

verus! {

/// The area that maps a loadable segment: the pages that cover it, framed, with the
/// segment's permission.
pub open spec fn segment_view(s: ElfSegment) -> AreaView {
    (page_floor(s.vaddr as int) as usize, page_ceil(s.vaddr + s.mem_size) as usize, MapType::Framed, segment_perm(s.flags))
}

/// The addresses a loadable segment takes, with its permission.
pub open spec fn segment_region(s: ElfSegment) -> Region {
    (s.vaddr as int, s.vaddr + s.mem_size, segment_perm(s.flags))
}

/// The areas of the loadable segments `loads`.
pub open spec fn segment_views(loads: Seq<ElfSegment>) -> Seq<AreaView> {
    loads.map_values(|s: ElfSegment| segment_view(s))
}

/// The regions of the loadable segments `loads`.
pub open spec fn segment_regions(loads: Seq<ElfSegment>) -> Seq<Region> {
    loads.map_values(|s: ElfSegment| segment_region(s))
}

/// The page the user heap starts at: the end page of the last loadable segment, or
/// page 0 when there is none.
pub open spec fn heap_page(loads: Seq<ElfSegment>) -> int {
    if loads.len() == 0 {
        0
    } else {
        page_ceil(loads.last().vaddr + loads.last().mem_size)
    }
}

/// The empty heap area that starts at `heap_page(loads)`: readable, writable, user.
pub open spec fn heap_view(loads: Seq<ElfSegment>) -> AreaView {
    (heap_page(loads) as usize, heap_page(loads) as usize, MapType::Framed, MAP_R | MAP_W | MAP_U)
}

/// Byte `j` counted from the start of the first page of segment `s`, read through
/// the table rooted at `root`.
pub open spec fn loaded_byte(mem: &PhysMem, root: int, s: ElfSegment, j: int) -> Option<u8> {
    user_byte(mem, root, page_floor(s.vaddr as int) * 4096 + j)
}

/// Past the file bytes of each of the first `m` segments of `loads`, up to the end of
/// the pages that cover it, the bytes read as zero.
pub open spec fn zero_tail(mem: &PhysMem, root: int, loads: Seq<ElfSegment>, m: int) -> bool {
    forall|l: int, j: int|
        0 <= l < m && loads[l].file_size <= j < (page_ceil(loads[l].vaddr + loads[l].mem_size) - page_floor(
            loads[l].vaddr as int,
        )) * 4096 ==> #[trigger] loaded_byte(mem, root, loads[l], j) == Some(0u8)
}

/// Segments the loader can map from `data`: every type known, and every loadable
/// segment ending within the address space, its file bytes within `data` and within
/// the pages that cover it, those pages not empty, and the pages of all loadable
/// segments clear of each other and of the trampoline.
pub open spec fn segments_loadable(data: Seq<u8>, segs: Seq<ElfSegment>) -> bool {
    let loads = load_segments(segs);
    &&& forall|k: int| 0 <= k < segs.len() ==> (#[trigger] segs[k]).kind != SEG_UNKNOWN
    &&& forall|l: int|
        0 <= l < loads.len() ==> {
            &&& (#[trigger] loads[l]).vaddr + loads[l].mem_size <= usize::MAX
            &&& loads[l].offset + loads[l].file_size <= data.len()
            &&& page_floor(loads[l].vaddr as int) < page_ceil(loads[l].vaddr + loads[l].mem_size)
            &&& loads[l].file_size <= (page_ceil(loads[l].vaddr + loads[l].mem_size) - page_floor(loads[l].vaddr as int)) * 4096
        }
    &&& regions_ok(segment_regions(loads))
}

/// What loading the segments `segs` of file `data` from memory `mem0` made: in memory
/// `mem`, the address space `ms` with the trampoline mapped to the page of
/// `strampoline`, an area for each loadable segment whose pages hold the segment's
/// file bytes from the start of its first page, the empty heap area after them,
/// whose start address is `heap`, and the frames of `mem0` as they were.
pub open spec fn loaded_from(
    ms: &MemorySet,
    heap: usize,
    mem0: &PhysMem,
    mem: &PhysMem,
    data: Seq<u8>,
    segs: Seq<ElfSegment>,
    strampoline: usize,
) -> bool {
    let loads = load_segments(segs);
    &&& ms.wf(mem)
    &&& ms.views() == segment_views(loads).push(heap_view(loads))
    &&& heap == heap_page(loads) * 4096
    &&& walk(mem, ms.root(), trampoline_vpn()) == Some(
        leaf_entry(PhysPageNum(strampoline / 4096), PTEFlags { bits: PTE_R | PTE_X }),
    )
    &&& forall|l: int, j: int|
        0 <= l < loads.len() && 0 <= j < loads[l].file_size ==> #[trigger] loaded_byte(mem, ms.root(), loads[l], j) == Some(
            data[loads[l].offset + j],
        )
    &&& forall|w: int|
        #[trigger] clear_of_regions(segment_regions(loads), loads.len() as int, w) && !same_slot(w, trampoline_vpn()) ==> walk(
            mem,
            ms.root(),
            w,
        ) is None
    &&& forall|f: int, s: int| 0 <= f < mem0.nframes() ==> #[trigger] mem.pte(f, s) == mem0.pte(f, s)
    &&& forall|pa: int| 0 <= pa < mem0.nframes() * 4096 ==> #[trigger] mem.byte(pa) == mem0.byte(pa)
    &&& forall|f: int| #[trigger] ms.table().owns(f) ==> f >= mem0.nframes()
}

/// Byte `j` of the first page of a segment whose file bytes fit its pages lies in a
/// page of the segment.
pub proof fn lemma_loaded_page(s: ElfSegment, j: int)
    requires
        s.vaddr + s.mem_size <= usize::MAX,
        s.file_size <= (page_ceil(s.vaddr + s.mem_size) - page_floor(s.vaddr as int)) * 4096,
        0 <= j < s.file_size,
    ensures
        in_region(segment_region(s), (page_floor(s.vaddr as int) * 4096 + j) / 4096),
{
    let fl = page_floor(s.vaddr as int);
    let cl = page_ceil(s.vaddr + s.mem_size);
    MemorySet::lemma_loaded_addr(s.vaddr as int, j);
    let p = fl + j / 4096;
    assert(p < cl) by (nonlinear_arith)
        requires
            p == fl + j / 4096,
            0 <= j < (cl - fl) * 4096,
    ;
}

/// The loadable segments of a prefix are a prefix of the loadable segments.
pub proof fn lemma_load_prefix(segs: Seq<ElfSegment>, i: int)
    requires
        0 <= i <= segs.len(),
    ensures
        load_segments(segs.take(i)).len() <= load_segments(segs).len(),
        load_segments(segs.take(i)) == load_segments(segs).take(load_segments(segs.take(i)).len() as int),
    decreases segs.len(),
{
    if i == segs.len() {
        assert(segs.take(i) =~= segs);
        assert(load_segments(segs).take(load_segments(segs).len() as int) =~= load_segments(segs));
    } else {
        let d = segs.drop_last();
        assert(segs.take(i) =~= d.take(i));
        lemma_load_prefix(d, i);
        let k = load_segments(d.take(i)).len() as int;
        assert(load_segments(segs).take(k) =~= load_segments(d).take(k));
    }
}

impl MemorySet {
    /// Reading byte `j` of a loadable segment's first page goes through page
    /// `floor + j / 4096` at offset `j % 4096`.
    proof fn lemma_loaded_addr(vaddr: int, j: int)
        requires
            0 <= vaddr,
            0 <= j,
        ensures
            (page_floor(vaddr) * 4096 + j) / 4096 == page_floor(vaddr) + j / 4096,
            (page_floor(vaddr) * 4096 + j) % 4096 == j % 4096,
    {
        let f = page_floor(vaddr);
        assert(f >= 0) by (nonlinear_arith)
            requires
                f == vaddr / 4096,
                0 <= vaddr,
        ;
        assert((f * 4096 + j) / 4096 == f + j / 4096 && (f * 4096 + j) % 4096 == j % 4096) by (nonlinear_arith)
            requires
                f >= 0,
                j >= 0,
        ;
    }

    /// A byte of page `p` of framed area `i` is a byte of the frame that backs it.
    proof fn lemma_area_byte(&self, mem: &PhysMem, i: int, p: int, k: int)
        requires
            self.wf(mem),
            0 <= i < self.area_seq().len(),
            self.area_seq()[i].has(p),
            self.area_seq()[i].view().2 == MapType::Framed,
            0 <= k < 4096,
        ensures
            walk(mem, self.root(), p) is Some,
            walk(mem, self.root(), p).unwrap().spec_ppn() * 4096 + k < mem.nframes() * 4096,
            ((walk(mem, self.root(), p).unwrap().spec_ppn() * 4096 + k) as usize) as int == walk(
                mem,
                self.root(),
                p,
            ).unwrap().spec_ppn() * 4096 + k,
            walk(mem, self.root(), p).unwrap().spec_ppn() == self.area_seq()[i].frames()[p as usize].0,
    {
        self.lemma_area_frame(mem, i, p);
        self.page_table.lemma_mem_wf(mem);
        mem.lemma_frames_bound();
        let q = walk(mem, self.root(), p).unwrap().spec_ppn() as int;
        assert(q * 4096 + k < mem.nframes() * 4096) by (nonlinear_arith)
            requires
                q + 1 <= mem.nframes(),
                0 <= k < 4096,
        ;
        assert(mem.nframes() * 4096 <= usize::MAX) by (nonlinear_arith)
            requires
                mem.nframes() <= mem.frame_limit(),
                mem.frame_limit() <= usize::MAX / 4096,
        ;
        assert(q >= 0);
    }

    /// In an address space that maps loadable segment `loads[l]` as its area `l`, the
    /// page that holds byte `j` of the segment's first page is backed by a frame of
    /// `mem`.
    pub proof fn lemma_loaded_frame(&self, mem: &PhysMem, loads: Seq<ElfSegment>, l: int, j: int)
        requires
            self.wf(mem),
            0 <= l < loads.len(),
            l < self.views().len(),
            self.views()[l] == segment_view(loads[l]),
            loads[l].vaddr + loads[l].mem_size <= usize::MAX,
            loads[l].file_size <= (page_ceil(loads[l].vaddr + loads[l].mem_size) - page_floor(loads[l].vaddr as int)) * 4096,
            0 <= j < loads[l].file_size,
        ensures
            walk(mem, self.root(), (page_floor(loads[l].vaddr as int) * 4096 + j) / 4096) is Some,
            walk(mem, self.root(), (page_floor(loads[l].vaddr as int) * 4096 + j) / 4096).unwrap().spec_ppn() * 4096 + (
            page_floor(loads[l].vaddr as int) * 4096 + j) % 4096 < mem.nframes() * 4096,
    {
        let fl = page_floor(loads[l].vaddr as int);
        let cl = page_ceil(loads[l].vaddr + loads[l].mem_size);
        Self::lemma_loaded_addr(loads[l].vaddr as int, j);
        let p = fl + j / 4096;
        assert(p < cl) by (nonlinear_arith)
            requires
                p == fl + j / 4096,
                0 <= j < (cl - fl) * 4096,
        ;
        self.lemma_views();
        assert(self.area_seq()[l].view() == segment_view(loads[l]));
        self.lemma_area_byte(mem, l, p, j % 4096);
    }

    /// The loop of `from_elf_segments` keeps its invariant over one pushed segment.
    proof fn lemma_elf_after_push(
        data: Seq<u8>,
        loads: Seq<ElfSegment>,
        mem0: &PhysMem,
        ms0: &MemorySet,
        before: &PhysMem,
        ms: &MemorySet,
        mem: &PhysMem,
        m: int,
        bytes: Seq<u8>,
    )
        requires
            0 <= m < loads.len(),
            forall|l: int|
                0 <= l < loads.len() ==> {
                    &&& (#[trigger] loads[l]).vaddr + loads[l].mem_size <= usize::MAX
                    &&& loads[l].offset + loads[l].file_size <= data.len()
                    &&& page_floor(loads[l].vaddr as int) < page_ceil(loads[l].vaddr + loads[l].mem_size)
                    &&& loads[l].file_size <= (page_ceil(loads[l].vaddr + loads[l].mem_size) - page_floor(
                        loads[l].vaddr as int,
                    )) * 4096
                },
            regions_ok(segment_regions(loads)),
            ms0.wf(before),
            ms0.views() == segment_views(loads).take(m),
            ms.wf(mem),
            ms.views() == ms0.views().push(segment_view(loads[m])),
            ms.area_seq().len() == ms0.area_seq().len() + 1,
            forall|j: int| 0 <= j < ms0.area_seq().len() ==> #[trigger] ms.area_seq()[j] == ms0.area_seq()[j],
            ms0.table().evolves(before, &ms.table(), mem),
            forall|u: int|
                segment_view(loads[m]).0 <= u < segment_view(loads[m]).1 ==> #[trigger] walk(mem, ms.root(), u) == Some(
                    ms.area_seq().last().entry_for(u),
                ),
            forall|w: int|
                untouched(w, segment_view(loads[m]).0 as int, segment_view(loads[m]).1 as int) ==> #[trigger] walk(
                    mem,
                    ms.root(),
                    w,
                ) == walk(before, ms0.root(), w),
            bytes == data.subrange(loads[m].offset as int, loads[m].offset + loads[m].file_size),
            forall|j: int| 0 <= j < bytes.len() ==> #[trigger] mem.byte(ms.area_seq().last().data_dest(j)) == bytes[j],
            ms0.root() == mem0.nframes(),
            before.nframes() >= mem0.nframes(),
            forall|f: int, q: int| 0 <= f < mem0.nframes() ==> #[trigger] before.pte(f, q) == mem0.pte(f, q),
            forall|pa: int| 0 <= pa < mem0.nframes() * 4096 ==> #[trigger] before.byte(pa) == mem0.byte(pa),
            forall|f: int| #[trigger] ms0.table().owns(f) ==> f >= mem0.nframes(),
            forall|l: int, j: int|
                0 <= l < m && 0 <= j < loads[l].file_size ==> #[trigger] loaded_byte(before, ms0.root(), loads[l], j) == Some(
                    data[loads[l].offset + j],
                ),
            zero_tail(before, ms0.root(), loads, m),
            forall|j: int|
                bytes.len() <= j < (segment_view(loads[m]).1 - segment_view(loads[m]).0) * 4096 ==> #[trigger] mem.byte(
                    ms.area_seq().last().data_dest(j),
                ) == 0,
        ensures
            zero_tail(mem, ms.root(), loads, m + 1),
            ms.root() == mem0.nframes(),
            mem.nframes() >= before.nframes(),
            mem.frame_limit() == before.frame_limit(),
            forall|f: int, q: int| 0 <= f < mem0.nframes() ==> #[trigger] mem.pte(f, q) == mem0.pte(f, q),
            forall|pa: int| 0 <= pa < mem0.nframes() * 4096 ==> #[trigger] mem.byte(pa) == mem0.byte(pa),
            forall|f: int| #[trigger] ms.table().owns(f) ==> f >= mem0.nframes(),
            ms.views() == segment_views(loads).take(m + 1),
            forall|l: int, j: int|
                0 <= l < m + 1 && 0 <= j < loads[l].file_size ==> #[trigger] loaded_byte(mem, ms.root(), loads[l], j) == Some(
                    data[loads[l].offset + j],
                ),
    {
        let vs = segment_views(loads);
        let rs = segment_regions(loads);
        ms0.lemma_views();
        ms.lemma_views();
        ms0.table().lemma_evolves_keeps(before, &ms.table(), mem);
        ms0.table().lemma_evolves_facts(before, &ms.table(), mem);
        assert(ms.views() =~= vs.take(m + 1));
        let s = vs[m].0 as int;
        let e = vs[m].1 as int;
        assert(s == page_floor(loads[m].vaddr as int) && e == page_ceil(loads[m].vaddr + loads[m].mem_size));
        assert forall|l: int, j: int| 0 <= l < m + 1 && 0 <= j < loads[l].file_size implies #[trigger] loaded_byte(
            mem,
            ms.root(),
            loads[l],
            j,
        ) == Some(data[loads[l].offset + j]) by {
            let fl = page_floor(loads[l].vaddr as int);
            let cl = page_ceil(loads[l].vaddr + loads[l].mem_size);
            Self::lemma_loaded_addr(loads[l].vaddr as int, j);
            let p = fl + j / 4096;
            let k = j % 4096;
            assert(p < cl) by (nonlinear_arith)
                requires
                    p == fl + j / 4096,
                    0 <= j < (cl - fl) * 4096,
            ;
            assert(fl <= p);
            assert(in_region(rs[l], p));
            assert(vs[l] == segment_view(loads[l]));
            if l < m {
                assert forall|u: int| s <= u < e implies !#[trigger] same_slot(p, u) by {
                    assert(in_region(rs[m], u));
                }
                assert(untouched(p, s, e));
                assert(ms0.views()[l] == vs.take(m)[l]);
                assert(ms0.area_seq()[l].view() == vs[l]);
                ms0.lemma_area_byte(before, l, p, k);
                assert(loaded_byte(before, ms0.root(), loads[l], j) == Some(data[loads[l].offset + j]));
            } else {
                let last = ms.area_seq().last();
                assert(ms.views()[m] == vs[m]);
                assert(last == ms.area_seq()[m]);
                ms.lemma_area_byte(mem, m, p, k);
                assert(last.data_dest(j) == last.frames()[p as usize].0 * 4096 + k);
                assert(mem.byte(last.data_dest(j)) == bytes[j]);
            }
        }
        assert forall|l: int, j: int|
            0 <= l < m + 1 && loads[l].file_size <= j < (page_ceil(loads[l].vaddr + loads[l].mem_size) - page_floor(
                loads[l].vaddr as int,
            )) * 4096 implies #[trigger] loaded_byte(mem, ms.root(), loads[l], j) == Some(0u8) by {
            let fl = page_floor(loads[l].vaddr as int);
            let cl = page_ceil(loads[l].vaddr + loads[l].mem_size);
            Self::lemma_loaded_addr(loads[l].vaddr as int, j);
            let p = fl + j / 4096;
            let k = j % 4096;
            assert(p < cl) by (nonlinear_arith)
                requires
                    p == fl + j / 4096,
                    0 <= j < (cl - fl) * 4096,
            ;
            assert(fl <= p);
            assert(in_region(rs[l], p));
            assert(vs[l] == segment_view(loads[l]));
            if l < m {
                assert forall|u: int| s <= u < e implies !#[trigger] same_slot(p, u) by {
                    assert(in_region(rs[m], u));
                }
                assert(untouched(p, s, e));
                assert(ms0.views()[l] == vs.take(m)[l]);
                assert(ms0.area_seq()[l].view() == vs[l]);
                ms0.lemma_area_byte(before, l, p, k);
                assert(loaded_byte(before, ms0.root(), loads[l], j) == Some(0u8));
            } else {
                let last = ms.area_seq().last();
                assert(ms.views()[m] == vs[m]);
                assert(last == ms.area_seq()[m]);
                ms.lemma_area_byte(mem, m, p, k);
                assert(last.data_dest(j) == last.frames()[p as usize].0 * 4096 + k);
                assert(mem.byte(last.data_dest(j)) == 0);
            }
        }
    }

    /// Pushing the empty heap area keeps what the segments' loop established.
    proof fn lemma_elf_after_heap(
        data: Seq<u8>,
        loads: Seq<ElfSegment>,
        mem0: &PhysMem,
        ms0: &MemorySet,
        before: &PhysMem,
        ms: &MemorySet,
        mem: &PhysMem,
    )
        requires
            ms0.wf(before),
            ms.wf(mem),
            ms0.table().evolves(before, &ms.table(), mem),
            ms.views() == ms0.views().push(heap_view(loads)),
            forall|w: int| #[trigger] walk(mem, ms.root(), w) == walk(before, ms0.root(), w),
            ms0.root() == mem0.nframes(),
            before.nframes() >= mem0.nframes(),
            forall|f: int, q: int| 0 <= f < mem0.nframes() ==> #[trigger] before.pte(f, q) == mem0.pte(f, q),
            forall|pa: int| 0 <= pa < mem0.nframes() * 4096 ==> #[trigger] before.byte(pa) == mem0.byte(pa),
            forall|f: int| #[trigger] ms0.table().owns(f) ==> f >= mem0.nframes(),
            forall|l: int, j: int|
                0 <= l < loads.len() && 0 <= j < loads[l].file_size ==> #[trigger] loaded_byte(before, ms0.root(), loads[l], j)
                    == Some(data[loads[l].offset + j]),
            forall|l: int|
                0 <= l < loads.len() ==> {
                    &&& (#[trigger] loads[l]).vaddr + loads[l].mem_size <= usize::MAX
                    &&& page_floor(loads[l].vaddr as int) < page_ceil(loads[l].vaddr + loads[l].mem_size)
                    &&& loads[l].file_size <= (page_ceil(loads[l].vaddr + loads[l].mem_size) - page_floor(
                        loads[l].vaddr as int,
                    )) * 4096
                },
            ms0.views() == segment_views(loads),
            zero_tail(before, ms0.root(), loads, loads.len() as int),
        ensures
            zero_tail(mem, ms.root(), loads, loads.len() as int),
            ms.root() == mem0.nframes(),
            forall|f: int, q: int| 0 <= f < mem0.nframes() ==> #[trigger] mem.pte(f, q) == mem0.pte(f, q),
            forall|pa: int| 0 <= pa < mem0.nframes() * 4096 ==> #[trigger] mem.byte(pa) == mem0.byte(pa),
            forall|l: int, j: int|
                0 <= l < loads.len() && 0 <= j < loads[l].file_size ==> #[trigger] loaded_byte(mem, ms.root(), loads[l], j)
                    == Some(data[loads[l].offset + j]),
    {
        ms0.table().lemma_evolves_keeps(before, &ms.table(), mem);
        ms0.table().lemma_evolves_facts(before, &ms.table(), mem);
        assert forall|l: int, j: int| 0 <= l < loads.len() && 0 <= j < loads[l].file_size implies #[trigger] loaded_byte(
            mem,
            ms.root(),
            loads[l],
            j,
        ) == Some(data[loads[l].offset + j]) by {
            let fl = page_floor(loads[l].vaddr as int);
            let cl = page_ceil(loads[l].vaddr + loads[l].mem_size);
            Self::lemma_loaded_addr(loads[l].vaddr as int, j);
            let p = fl + j / 4096;
            assert(p < cl) by (nonlinear_arith)
                requires
                    p == fl + j / 4096,
                    0 <= j < (cl - fl) * 4096,
            ;
            ms0.lemma_views();
            assert(ms0.views()[l] == segment_view(loads[l]));
            assert(ms0.area_seq()[l].view() == segment_view(loads[l]));
            ms0.lemma_area_byte(before, l, p, j % 4096);
            let va = fl * 4096 + j;
            assert(walk(mem, ms.root(), va / 4096) == walk(before, ms0.root(), va / 4096));
            assert(loaded_byte(before, ms0.root(), loads[l], j) == Some(data[loads[l].offset + j]));
        }
        assert forall|l: int, j: int|
            0 <= l < loads.len() && loads[l].file_size <= j < (page_ceil(loads[l].vaddr + loads[l].mem_size) - page_floor(
                loads[l].vaddr as int,
            )) * 4096 implies #[trigger] loaded_byte(mem, ms.root(), loads[l], j) == Some(0u8) by {
            let fl = page_floor(loads[l].vaddr as int);
            let cl = page_ceil(loads[l].vaddr + loads[l].mem_size);
            Self::lemma_loaded_addr(loads[l].vaddr as int, j);
            let p = fl + j / 4096;
            assert(p < cl) by (nonlinear_arith)
                requires
                    p == fl + j / 4096,
                    0 <= j < (cl - fl) * 4096,
            ;
            ms0.lemma_views();
            assert(ms0.views()[l] == segment_view(loads[l]));
            assert(ms0.area_seq()[l].view() == segment_view(loads[l]));
            ms0.lemma_area_byte(before, l, p, j % 4096);
            let va = fl * 4096 + j;
            assert(walk(mem, ms.root(), va / 4096) == walk(before, ms0.root(), va / 4096));
            assert(loaded_byte(before, ms0.root(), loads[l], j) == Some(0u8));
        }
    }

    /// The address space of a program whose program headers are `segs` and whose file
    /// is `data`: the trampoline mapped to the page of `strampoline`; for each loadable
    /// segment, in order, a framed user area over its pages with its permission, into
    /// which its file bytes are copied from the start of its first page; and after
    /// them an empty heap area that starts at the end page of the last of them. It
    /// returns the address space, the heap's start address and `entry`.
    #[verifier::rlimit(60)]
    pub fn from_elf_segments(
        mem: &mut PhysMem,
        data: &[u8],
        segs: &Vec<ElfSegment>,
        entry: u64,
        strampoline: usize,
    ) -> (r: (MemorySet, usize, usize))
        requires
            old(mem).wf(),
            segments_loadable(data@, segs@),
            old(mem).free_frames() >= 3 + 3 * total_pages(segment_views(load_segments(segs@))),
        ensures
            loaded_from(&r.0, r.1, old(mem), final(mem), data@, segs@, strampoline),
            zero_tail(final(mem), r.0.root(), load_segments(segs@), load_segments(segs@).len() as int),
            r.2 == entry as usize,
            final(mem).nframes() - old(mem).nframes() <= 3 + 3 * total_pages(segment_views(load_segments(segs@))),
            final(mem).nframes() >= old(mem).nframes(),
            final(mem).frame_limit() == old(mem).frame_limit(),
    {
        let ghost sq = segs@;
        let ghost loads = load_segments(sq);
        let ghost rs = segment_regions(loads);
        let ghost vs = segment_views(loads);
        let ghost mem0 = *mem;
        proof {
            assert forall|j: int| 0 <= j < vs.len() implies (#[trigger] vs[j]).0 <= vs[j].1 by {
                assert(rs[j] == segment_region(loads[j]));
            }
            lemma_total_pages_nonneg(vs);
        }
        let mut ms = MemorySet::new_bare(mem);
        let ghost mem1 = *mem;
        let ghost t1 = ms.table();
        ms.map_trampoline(mem, strampoline);
        let ghost tramp = leaf_entry(PhysPageNum(strampoline / 4096), PTEFlags { bits: PTE_R | PTE_X });
        proof {
            t1.lemma_evolves_keeps(&mem1, &ms.table(), mem);
            t1.lemma_evolves_facts(&mem1, &ms.table(), mem);
            assert(ms.views() =~= vs.take(0));
            assert(sq.take(0) =~= Seq::<ElfSegment>::empty());
        }
        let n = segs.len();
        let mut i: usize = 0;
        let mut m: usize = 0;
        let mut max_end_vpn: usize = 0;
        while i < n
            invariant
                n == sq.len(),
                sq == segs@,
                loads == load_segments(sq),
                rs == segment_regions(loads),
                vs == segment_views(loads),
                segments_loadable(data@, sq),
                forall|j: int| 0 <= j < vs.len() ==> (#[trigger] vs[j]).0 <= vs[j].1,
                mem0.free_frames() >= 3 + 3 * total_pages(vs),
                mem0.wf(),
                0 <= i <= n,
                m == load_segments(sq.take(i as int)).len(),
                load_segments(sq.take(i as int)) == loads.take(m as int),
                m <= loads.len(),
                max_end_vpn == heap_page(loads.take(m as int)),
                ms.wf(mem),
                ms.root() == mem0.nframes(),
                ms.views() == vs.take(m as int),
                mem.nframes() - mem0.nframes() <= 3 + 3 * total_pages(vs.take(m as int)),
                mem.nframes() >= mem0.nframes(),
                mem.frame_limit() == mem0.frame_limit(),
                forall|f: int, q: int| 0 <= f < mem0.nframes() ==> #[trigger] mem.pte(f, q) == mem0.pte(f, q),
                forall|pa: int| 0 <= pa < mem0.nframes() * 4096 ==> #[trigger] mem.byte(pa) == mem0.byte(pa),
                forall|f: int| #[trigger] ms.table().owns(f) ==> f >= mem0.nframes(),
                forall|w: int|
                    #[trigger] clear_of_regions(rs, m as int, w) ==> walk(mem, ms.root(), w) == if same_slot(w, trampoline_vpn()) {
                        Some(tramp)
                    } else {
                        None
                    },
                forall|l: int, j: int|
                    0 <= l < m && 0 <= j < loads[l].file_size ==> #[trigger] loaded_byte(mem, ms.root(), loads[l], j) == Some(
                        data@[loads[l].offset + j],
                    ),
                zero_tail(mem, ms.root(), loads, m as int),
            decreases n - i,
        {
            let ghost before = *mem;
            let ghost ms0 = ms;
            proof {
                lemma_load_segments_take(sq, i as int);
                lemma_load_prefix(sq, i as int + 1);
                lemma_load_segments_len(sq);
                ms.lemma_token_root(mem);
            }
            let seg = segs[i];
            if seg.kind == SEG_LOAD {
                proof {
                    assert(loads.take(m + 1) == loads.take(m as int).push(seg));
                    assert(loads.take(m + 1)[m as int] == loads[m as int]);
                    assert(loads[m as int] == seg);
                    assert(seg.offset + seg.file_size <= data@.len());
                    assert(seg.vaddr + seg.mem_size <= usize::MAX);
                    assert(rs[m as int] == segment_region(seg));
                    assert(vs[m as int] == segment_view(seg));
                    lemma_total_pages_take(vs, m as int);
                }
                let start = seg.vaddr as usize;
                let end = (seg.vaddr + seg.mem_size) as usize;
                let area = MapArea::new(VirtAddr(start), VirtAddr(end), MapType::Framed, segment_permission(seg.flags));
                let end_vpn = area.vpn_range.get_end().0;
                let data_len = data.len();
                let bytes = vstd::slice::slice_subrange(data, seg.offset as usize, (seg.offset + seg.file_size) as usize);
                let ghost s = page_floor(start as int);
                let ghost e = page_ceil(end as int);
                proof {
                    assert(area.view() == vs[m as int]);
                    assert forall|u: int| s <= u < e implies #[trigger] walk(mem, ms.root(), u).is_none() by {
                        assert(in_region(rs[m as int], u));
                        assert forall|j: int, w: int| 0 <= j < m && #[trigger] in_region(rs[j], w) implies !same_slot(u, w) by {
                            assert(j != m);
                        }
                        assert(clear_of_regions(rs, m as int, u));
                    }
                }
                ms.push(mem, area, Some(bytes));
                proof {
                    Self::lemma_elf_after_push(data@, loads, &mem0, &ms0, &before, &ms, mem, m as int, bytes@);
                    assert forall|w: int| #[trigger] clear_of_regions(rs, m + 1, w) implies walk(mem, ms.root(), w) == if same_slot(
                        w,
                        trampoline_vpn(),
                    ) {
                        Some(tramp)
                    } else {
                        None
                    } by {
                        assert forall|u: int| s <= u < e implies !#[trigger] same_slot(w, u) by {
                            assert(in_region(rs[m as int], u));
                        }
                        assert(untouched(w, s, e));
                        assert forall|j: int, u: int| 0 <= j < m && #[trigger] in_region(rs[j], u) implies !same_slot(w, u) by {}
                        assert(clear_of_regions(rs, m as int, w));
                    }
                    assert(loads.take(m + 1).last() == seg);
                }
                max_end_vpn = end_vpn;
                m = m + 1;
            }
            i = i + 1;
        }
        proof {
            lemma_load_prefix(sq, n as int);
            assert(sq.take(n as int) =~= sq);
            assert(loads.take(m as int) =~= loads);
            assert(vs.take(m as int) =~= vs);
            ms.lemma_token_root(mem);
            assert(clear_of_regions(rs, m as int, trampoline_vpn())) by {
                assert forall|j: int, u: int| 0 <= j < m && #[trigger] in_region(rs[j], u) implies !same_slot(trampoline_vpn(), u) by {
                    assert(!same_slot(u, trampoline_vpn()));
                }
            }
            assert((2u8 | 4u8 | 16u8) & 0xe1u8 == 0u8) by (bit_vector);
            if m > 0 {
                assert(rs[m - 1] == segment_region(loads[m - 1]));
                assert(loads.take(m as int).last() == loads[m - 1]);
            }
        }
        let max_end_va = max_end_vpn * 4096;
        let ghost before = *mem;
        let ghost ms0 = ms;
        let heap = MapArea::new(VirtAddr(max_end_va), VirtAddr(max_end_va), MapType::Framed, MapPermission {
            bits: MAP_R | MAP_W | MAP_U,
        });
        ms.push(mem, heap, None);
        proof {
            assert forall|w: int| #[trigger] walk(mem, ms.root(), w) == walk(&before, ms0.root(), w) by {
                assert(untouched(w, max_end_vpn as int, max_end_vpn as int));
            }
            Self::lemma_elf_after_heap(data@, loads, &mem0, &ms0, &before, &ms, mem);
            ms0.table().lemma_evolves_facts(&before, &ms.table(), mem);
            ms0.table().lemma_evolves_keeps(&before, &ms.table(), mem);
            assert forall|f: int| #[trigger] ms.table().owns(f) implies f >= mem0.nframes() by {
                if ms0.table().owns(f) {
                } else {
                }
            }
            assert forall|w: int|
                #[trigger] clear_of_regions(rs, loads.len() as int, w) && !same_slot(w, trampoline_vpn()) implies walk(
                    mem,
                    ms.root(),
                    w,
                ) is None by {
                assert(walk(mem, ms.root(), w) == walk(&before, ms0.root(), w));
            }
        }
        (ms, max_end_va, #[verifier::truncate] (entry as usize))
    }
}

} // verus!

verus! {

/// The page number below which the loader takes the pages of program segments: the
/// page, among the first `2^27`, whose leaf slot the trampoline uses.
pub open spec fn segment_page_limit() -> int {
    trampoline_vpn() % 134217728
}

/// Whether the loader takes loadable segment `s` of a file of `len` bytes: it ends
/// within the address space, its file bytes lie in the file and fit in the pages
/// that cover it, and those pages are not empty and lie below `segment_page_limit()`.
pub open spec fn load_ok(len: int, s: ElfSegment) -> bool {
    &&& s.vaddr + s.mem_size <= usize::MAX
    &&& s.offset + s.file_size <= len
    &&& page_floor(s.vaddr as int) < page_ceil(s.vaddr + s.mem_size) <= segment_page_limit()
    &&& s.file_size <= (page_ceil(s.vaddr + s.mem_size) - page_floor(s.vaddr as int)) * 4096
}

/// Whether the pages that cover segments `a` and `b` are apart.
pub open spec fn pages_apart(a: ElfSegment, b: ElfSegment) -> bool {
    ||| page_ceil(a.vaddr + a.mem_size) <= page_floor(b.vaddr as int)
    ||| page_ceil(b.vaddr + b.mem_size) <= page_floor(a.vaddr as int)
}

/// Whether the loader takes the segments `segs` of a file of `len` bytes: every type
/// known, every loadable segment taken, and the loadable segments' pages apart.
pub open spec fn segments_ok(len: int, segs: Seq<ElfSegment>) -> bool {
    let loads = load_segments(segs);
    &&& forall|k: int| 0 <= k < segs.len() ==> (#[trigger] segs[k]).kind != SEG_UNKNOWN
    &&& forall|l: int| 0 <= l < loads.len() ==> load_ok(len, #[trigger] loads[l])
    &&& forall|l: int, k: int| 0 <= l < k < loads.len() ==> pages_apart(#[trigger] loads[l], #[trigger] loads[k])
}

/// Whether every program header of a file of `len` bytes with header `h` can be read:
/// the table is at a non-zero offset, its entries are large enough for the class, it
/// lies in the file, and its offset and entry size are multiples of the alignment of
/// a program header.
pub open spec fn ph_table_ok(len: int, h: (bool, u64, u64, u16, u16)) -> bool {
    h.4 == 0 || (h.2 > 0 && h.3 >= (if h.0 {
        56int
    } else {
        32int
    }) && h.2 + h.4 * h.3 <= len && (h.2 as int) % crate::elf::ph_align(h.0) == 0 && (h.3 as int) % crate::elf::ph_align(h.0) == 0)
}

/// The program headers of `data`, as the loader reads them.
pub open spec fn elf_segments_of(data: Seq<u8>) -> Seq<ElfSegment> {
    Seq::new(
        elf_header_of(data).unwrap().4 as nat,
        |i: int| segment_of(elf_program_header_of(data, i as u16)->0),
    )
}

/// Whether the loader can read the program in `data`: its header and program headers
/// can be read, and its segments are taken.
pub open spec fn elf_readable(data: Seq<u8>) -> bool {
    &&& elf_header_of(data) is Some
    &&& ph_table_ok(data.len() as int, elf_header_of(data)->0)
    &&& segments_ok(data.len() as int, elf_segments_of(data))
}

/// The number of pages the loadable segments of `data` take.
pub open spec fn elf_pages(data: Seq<u8>) -> int {
    total_pages(segment_views(load_segments(elf_segments_of(data))))
}

/// Whether the program in `data` can be loaded into `mem`: the loader can read it,
/// and `mem` has frames enough.
pub open spec fn elf_loadable(mem: &PhysMem, data: Seq<u8>) -> bool {
    &&& elf_readable(data)
    &&& mem.free_frames() >= 3 + 3 * elf_pages(data)
}

/// Taken segments can be loaded.
#[verifier::spinoff_prover]
#[verifier::rlimit(40)]
pub proof fn lemma_segments_loadable(data: Seq<u8>, segs: Seq<ElfSegment>)
    requires
        segments_ok(data.len() as int, segs),
    ensures
        segments_loadable(data, segs),
{
    let loads = load_segments(segs);
    let rs = segment_regions(loads);
    let lim = segment_page_limit();
    assert(0 <= lim < 134217728);
    assert(lim <= trampoline_vpn());
    assert forall|i: int| 0 <= i < rs.len() implies {
        &&& 0 <= (#[trigger] rs[i]).0 <= rs[i].1 <= usize::MAX
        &&& page_ceil(rs[i].1) <= trampoline_vpn()
        &&& MapPermission::known_bits(rs[i].2)
        &&& distinct_slots(page_floor(rs[i].0), page_ceil(rs[i].1))
    } by {
        assert(load_ok(data.len() as int, loads[i]));
        lemma_segment_perm_known(loads[i].flags);
        assert forall|u: int, w: int|
            page_floor(rs[i].0) <= u < page_ceil(rs[i].1) && page_floor(rs[i].0) <= w < page_ceil(rs[i].1) && u != w
                implies !#[trigger] same_slot(u, w) by {
            if same_slot(u, w) {
                crate::page_table::lemma_same_slot_mod(u, w);
            }
        }
    }
    assert forall|i: int, j: int, u: int, w: int|
        0 <= i < rs.len() && 0 <= j < rs.len() && i != j && #[trigger] in_region(rs[i], u) && #[trigger] in_region(rs[j], w)
            implies !same_slot(u, w) by {
        assert(load_ok(data.len() as int, loads[i]));
        assert(load_ok(data.len() as int, loads[j]));
        if i < j {
            assert(pages_apart(loads[i], loads[j]));
        } else {
            assert(pages_apart(loads[j], loads[i]));
        }
        if same_slot(u, w) {
            crate::page_table::lemma_same_slot_mod(u, w);
        }
    }
    assert forall|i: int, u: int| 0 <= i < rs.len() && #[trigger] in_region(rs[i], u) implies !same_slot(
        u,
        trampoline_vpn(),
    ) by {
        assert(load_ok(data.len() as int, loads[i]));
        if same_slot(u, trampoline_vpn()) {
            crate::page_table::lemma_same_slot_mod(u, trampoline_vpn());
        }
    }
    assert forall|l: int| 0 <= l < loads.len() implies {
        &&& (#[trigger] loads[l]).vaddr + loads[l].mem_size <= usize::MAX
        &&& loads[l].offset + loads[l].file_size <= data.len()
        &&& page_floor(loads[l].vaddr as int) < page_ceil(loads[l].vaddr + loads[l].mem_size)
        &&& loads[l].file_size <= (page_ceil(loads[l].vaddr + loads[l].mem_size) - page_floor(loads[l].vaddr as int)) * 4096
    } by {
        assert(load_ok(data.len() as int, loads[l]));
    }
}

/// Entry `i` of a table whose offset and entry size are multiples of `al` starts at a
/// multiple of `al`.
proof fn lemma_aligned_entry(off: int, size: int, i: int, al: int)
    requires
        al > 0,
        off % al == 0,
        size % al == 0,
        0 <= i,
    ensures
        (off + i * size) % al == 0,
{
    let q1 = off / al;
    let q2 = size / al;
    vstd::arithmetic::div_mod::lemma_fundamental_div_mod(off, al);
    vstd::arithmetic::div_mod::lemma_fundamental_div_mod(size, al);
    assert(off + i * size == (q1 + i * q2) * al) by (nonlinear_arith)
        requires
            off == al * q1 + 0,
            size == al * q2 + 0,
    ;
    vstd::arithmetic::div_mod::lemma_mod_multiples_basic(q1 + i * q2, al);
}

/// The page span of loadable segment `s` of a file of `len` bytes, if the loader
/// takes the segment.
pub fn load_span(len: usize, s: ElfSegment) -> (r: Option<(usize, usize)>)
    ensures
        r is Some <==> load_ok(len as int, s),
        r matches Some(p) ==> p.0 == page_floor(s.vaddr as int) && p.1 == page_ceil(s.vaddr + s.mem_size),
{
    let end = match s.vaddr.checked_add(s.mem_size) {
        Some(e) => e,
        None => return None,
    };
    if end > usize::MAX as u64 {
        return None;
    }
    let file_end = match s.offset.checked_add(s.file_size) {
        Some(e) => e,
        None => return None,
    };
    if file_end > len as u64 {
        return None;
    }
    let lo = VirtAddr(s.vaddr as usize).floor().0;
    let hi = VirtAddr(end as usize).ceil().0;
    let limit = (usize::MAX / 4096) % 134217728;
    if !(lo < hi && hi <= limit) {
        return None;
    }
    let room = ((hi - lo) as u64) * 4096;
    if s.file_size > room {
        return None;
    }
    Some((lo, hi))
}

/// The program headers of the ELF file `data`, its entry point, and the number of
/// pages its loadable segments take; `None` when the header or a program header
/// cannot be read or a segment is not taken.
pub fn elf_segments(data: &[u8]) -> (r: Option<(Vec<ElfSegment>, u64, u64)>)
    ensures
        r is Some <==> elf_readable(data@),
        r matches Some(t) ==> {
            &&& t.0@ == elf_segments_of(data@)
            &&& t.1 == elf_header_of(data@).unwrap().1
            &&& t.2 == total_pages(segment_views(load_segments(t.0@)))
            &&& t.2 <= 0xffff * 134217728
        },
{
    let len = data.len();
    let h = match elf_header(data) {
        Some(h) => h,
        None => return None,
    };
    let ghost hs = elf_header_of(data@)->0;
    let min_entry: u16 = if h.0 {
        56
    } else {
        32
    };
    if h.4 > 0 {
        if !(h.2 > 0 && h.3 >= min_entry) {
            return None;
        }
        proof {
            assert(h.4 * h.3 <= 0xffff_ffff) by (nonlinear_arith)
                requires
                    h.4 <= 0xffff,
                    h.3 <= 0xffff,
            ;
        }
        let table = (h.4 as u64) * (h.3 as u64);
        let table_end = match h.2.checked_add(table) {
            Some(e) => e,
            None => return None,
        };
        if table_end > len as u64 {
            return None;
        }
        let align: u64 = if h.0 {
            8
        } else {
            4
        };
        if h.2 % align != 0 || (h.3 as u64) % align != 0 {
            return None;
        }
    }
    let mut segs: Vec<ElfSegment> = Vec::new();
    let mut i: u16 = 0;
    while i < h.4
        invariant
            h == hs,
            elf_header_of(data@) == Some(hs),
            len == data@.len(),
            ph_table_ok(len as int, h),
            0 <= i <= h.4,
            segs@ == elf_segments_of(data@).take(i as int),
        decreases h.4 - i,
    {
        proof {
            assert((i + 1) * h.3 <= h.4 * h.3) by (nonlinear_arith)
                requires
                    i + 1 <= h.4,
                    0 <= h.3,
            ;
            lemma_aligned_entry(h.2 as int, h.3 as int, i as int, crate::elf::ph_align(h.0));
        }
        let raw = elf_program_header(data, i);
        let t = raw.unwrap();
        segs.push(ElfSegment { kind: t.0, flags: t.1, offset: t.2, vaddr: t.3, file_size: t.4, mem_size: t.5 });
        proof {
            assert(segs@ =~= elf_segments_of(data@).take(i + 1));
        }
        i = i + 1;
    }
    proof {
        assert(segs@ =~= elf_segments_of(data@));
    }
    let ghost sq = segs@;
    let mut spans: Vec<(usize, usize)> = Vec::new();
    let mut total: u64 = 0;
    let mut k: usize = 0;
    while k < segs.len()
        invariant
            sq == segs@,
            sq == elf_segments_of(data@),
            len == data@.len(),
            0 <= k <= sq.len(),
            forall|j: int| 0 <= j < k ==> (#[trigger] sq[j]).kind != SEG_UNKNOWN,
            spans@.len() == load_segments(sq.take(k as int)).len(),
            forall|l: int|
                0 <= l < spans@.len() ==> load_ok(len as int, #[trigger] load_segments(sq.take(k as int))[l]),
            forall|l: int|
                0 <= l < spans@.len() ==> (#[trigger] spans@[l]).0 == page_floor(load_segments(sq.take(k as int))[l].vaddr as int)
                    && spans@[l].1 == page_ceil(load_segments(sq.take(k as int))[l].vaddr + load_segments(sq.take(k as int))[l].mem_size),
            total == total_pages(segment_views(load_segments(sq.take(k as int)))),
            total <= k * 134217728,
        decreases sq.len() - k,
    {
        proof {
            lemma_load_segments_take(sq, k as int);
            lemma_load_segments_len(sq.take(k as int));
        }
        let s = segs[k];
        if s.kind == SEG_UNKNOWN {
            return None;
        }
        if s.kind == SEG_LOAD {
            let span = match load_span(len, s) {
                Some(p) => p,
                None => {
                    proof {
                        lemma_load_prefix(sq, k as int + 1);
                        let loads = load_segments(sq);
                        let m = load_segments(sq.take(k as int)).len() as int;
                        assert(loads.take(m + 1)[m] == s);
                        assert(loads[m] == s);
                    }
                    return None;
                },
            };
            let ghost prev = load_segments(sq.take(k as int));
            proof {
                let nv = segment_views(prev.push(s));
                assert(nv.drop_last() =~= segment_views(prev));
                assert(segment_page_limit() < 134217728);
            }
            spans.push(span);
            total = total + ((span.1 - span.0) as u64);
        }
        k = k + 1;
    }
    proof {
        assert(sq.take(sq.len() as int) =~= sq);
    }
    let ghost loads = load_segments(sq);
    let mut a: usize = 0;
    while a < spans.len()
        invariant
            loads == load_segments(elf_segments_of(data@)),
            spans@.len() == loads.len(),
            forall|l: int|
                0 <= l < spans@.len() ==> (#[trigger] spans@[l]).0 == page_floor(loads[l].vaddr as int) && spans@[l].1
                    == page_ceil(loads[l].vaddr + loads[l].mem_size),
            0 <= a <= spans@.len(),
            forall|l: int, m: int| 0 <= l < a && l < m < loads.len() ==> pages_apart(#[trigger] loads[l], #[trigger] loads[m]),
        decreases spans@.len() - a,
    {
        let mut b: usize = a + 1;
        while b < spans.len()
            invariant
                loads == load_segments(elf_segments_of(data@)),
                spans@.len() == loads.len(),
                forall|l: int|
                    0 <= l < spans@.len() ==> (#[trigger] spans@[l]).0 == page_floor(loads[l].vaddr as int) && spans@[l].1
                        == page_ceil(loads[l].vaddr + loads[l].mem_size),
                0 <= a < spans@.len(),
                a + 1 <= b <= spans@.len(),
                forall|l: int, m: int| 0 <= l < a && l < m < loads.len() ==> pages_apart(#[trigger] loads[l], #[trigger] loads[m]),
                forall|m: int| a < m < b ==> pages_apart(loads[a as int], #[trigger] loads[m]),
            decreases spans@.len() - b,
        {
            let x = spans[a];
            let y = spans[b];
            if !(x.1 <= y.0 || y.1 <= x.0) {
                return None;
            }
            b = b + 1;
        }
        a = a + 1;
    }
    proof {
        lemma_load_segments_len(sq);
        assert(sq.len() <= 0xffff);
        assert(total <= 0xffff * 134217728) by (nonlinear_arith)
            requires
                total <= sq.len() * 134217728,
                sq.len() <= 0xffff,
        ;
    }
    Some((segs, h.1, total))
}

impl MemorySet {
    /// The address space of the ELF program in `data`, its heap's start address and its
    /// entry point, as `from_elf_segments` makes them from the program headers, the pages
    /// of each loadable segment reading as zero past its file bytes; `None`,
    /// with `mem` untouched, when the header or a program header cannot be read, a
    /// segment is not taken, or `mem` lacks frames.
    pub fn from_elf(mem: &mut PhysMem, data: &[u8], strampoline: usize) -> (r: Option<(MemorySet, usize, usize)>)
        requires
            old(mem).wf(),
        ensures
            r is Some <==> elf_loadable(old(mem), data@),
            r is None ==> *final(mem) == *old(mem),
            r matches Some(t) ==> {
                &&& loaded_from(&t.0, t.1, old(mem), final(mem), data@, elf_segments_of(data@), strampoline)
                &&& zero_tail(final(mem), t.0.root(), load_segments(elf_segments_of(data@)), load_segments(elf_segments_of(data@)).len() as int)
                &&& t.2 == elf_header_of(data@).unwrap().1 as usize
            },
    {
        let (segs, entry, total) = match elf_segments(data) {
            Some(t) => t,
            None => return None,
        };
        let need: u64 = 3 + 3 * total;
        if (mem.free_frame_count() as u64) < need {
            return None;
        }
        proof {
            lemma_segments_loadable(data@, segs@);
        }
        let (ms, heap, entry) = Self::from_elf_segments(mem, data, &segs, entry, strampoline);
        Some((ms, heap, entry))
    }
}

/// Every segment permission names known bits only.
proof fn lemma_segment_perm_known(flags: u32)
    ensures
        MapPermission::known_bits(segment_perm(flags)),
{
    let r: bool = flags & 4u32 == 4u32;
    let w: bool = flags & 2u32 == 2u32;
    let x: bool = flags & 1u32 == 1u32;
    assert((16u8 | (if r { 2u8 } else { 0u8 }) | (if w { 4u8 } else { 0u8 }) | (if x { 8u8 } else { 0u8 })) & 0xe1u8 == 0u8)
        by (bit_vector);
}

} // verus!
