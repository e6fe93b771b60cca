//! Memory-mapping system calls.
use vstd::prelude::*;
use crate::addr::{page_floor, page_ceil};
use crate::config::{PAGE_SIZE, TRAMPOLINE};
use crate::mem_set::{MapType, any_overlap, unmap_result, fresh_range, untouched, clear_of_range};
use crate::page_table::{PhysMem, walk};
use crate::processor::{mmap_current, munmap_current};
use crate::task::ProcessControlBlock;

verus! {

/// Address `e` rounded up to a page boundary.
pub open spec fn round_up(e: int) -> int {
    page_ceil(e) * 4096
}

/// Whether the arguments of a mapping call reach the address space: the start is page
/// aligned, the length is not zero, the protection names only and at least one of the
/// three access bits, and the end is representable.
pub open spec fn map_args_ok(start: usize, len: usize, prot: usize) -> bool {
    &&& start % 4096 == 0
    &&& len != 0
    &&& prot < 8
    &&& prot % 8 != 0
    &&& start + len <= usize::MAX - 4095
}

proof fn lemma_round_up(e: usize)
    requires
        e <= usize::MAX - 4095,
    ensures
        ((e + 4095) as usize & !4095usize) as int == round_up(e as int),
{
    let s = (e + 4095) as usize;
    assert(s & !4095usize == s - s % 4096) by (bit_vector);
    assert(page_ceil(e as int) * 4096 == s - s % 4096) by (nonlinear_arith)
        requires
            s == e + 4095,
            page_ceil(e as int) == (e + 4095) / 4096,
    ;
}

/// Map `len` bytes from the page-aligned address `start` into the calling process with
/// the protection `prot` (bit 0 read, bit 1 write, bit 2 execute). `0` for an empty
/// length; `-1` for a bad argument or a range that cannot be mapped; `0` once mapped.
pub fn sys_mmap(process: &mut ProcessControlBlock, mem: &mut PhysMem, start: usize, len: usize, prot: usize) -> (r: isize)
    requires
        old(process).inner.wf(old(mem)),
        map_args_ok(start, len, prot) ==> old(process).inner.mmap_ready(
            old(mem),
            start as int,
            round_up(start + len),
        ),
    ensures
        final(process).inner.wf(final(mem)),
        final(process).pid == old(process).pid,
        start % 4096 == 0 && len == 0 ==> r == 0 && *final(process) == *old(process) && *final(mem) == *old(mem),
        !map_args_ok(start, len, prot) && !(start % 4096 == 0 && len == 0) ==> r == -1 && *final(process)
            == *old(process) && *final(mem) == *old(mem),
        map_args_ok(start, len, prot) ==> {
            let end = round_up(start + len);
            let v = old(process).inner.memory_set.views();
            if start >= TRAMPOLINE || end > TRAMPOLINE || start >= end || any_overlap(v, page_floor(start as int), page_ceil(end)) {
                r == -1 && *final(process) == *old(process) && *final(mem) == *old(mem)
            } else {
                &&& r == 0
                &&& final(process).inner.memory_set.views() == v.push(
                    (page_floor(start as int) as usize, page_ceil(end) as usize, MapType::Framed, (prot * 2) as u8 | 16u8),
                )
                &&& fresh_range(
                    final(mem),
                    final(process).inner.memory_set.root(),
                    page_floor(start as int),
                    page_ceil(end),
                    old(mem).nframes() as int,
                )
                &&& forall|w: int|
                    untouched(w, page_floor(start as int), page_ceil(end)) ==> #[trigger] walk(
                        final(mem),
                        final(process).inner.memory_set.root(),
                        w,
                    ) == walk(old(mem), old(process).inner.memory_set.root(), w)
            }
        },
{
    proof {
        assert(start & 4095usize == start % 4096) by (bit_vector);
        assert(prot >> 3usize == prot / 8) by (bit_vector);
        assert(prot & 7usize == prot % 8) by (bit_vector);
    }
    if start & (PAGE_SIZE - 1) != 0 {
        return -1;
    }
    if len == 0 {
        return 0;
    }
    if prot >> 3 != 0 {
        return -1;
    }
    if prot & 0b111 == 0 {
        return -1;
    }
    let end = start.checked_add(len);
    if end.is_none() {
        return -1;
    }
    let end = end.unwrap();
    if end > usize::MAX - (PAGE_SIZE - 1) {
        return -1;
    }
    proof {
        lemma_round_up(end);
        assert(((prot << 1usize) as u8) & 0xe1u8 == 0 && (prot << 1usize) as u8 == (prot * 2) as u8) by (bit_vector)
            requires
                prot < 8,
        ;
    }
    let end = (end + (PAGE_SIZE - 1)) & !(PAGE_SIZE - 1);
    mmap_current(process, mem, start, end, prot << 1)
}

/// Unmap `len` bytes from the page-aligned address `start` in the calling process. `0`
/// for an empty length or once unmapped; `-1` for an unaligned start or a range whose
/// end is not representable.
pub fn sys_munmap(process: &mut ProcessControlBlock, mem: &mut PhysMem, start: usize, len: usize) -> (r: isize)
    requires
        old(process).inner.wf(old(mem)),
    ensures
        final(process).inner.wf(final(mem)),
        final(process).pid == old(process).pid,
        r == if start % 4096 != 0 {
            -1
        } else if len == 0 {
            0
        } else if start + len > usize::MAX - 4095 {
            -1
        } else {
            0
        },
        r == -1 || len == 0 ==> *final(process) == *old(process) && *final(mem) == *old(mem),
        r == 0 && len != 0 ==> {
            &&& final(process).inner.memory_set.views() == unmap_result(
                old(process).inner.memory_set.views(),
                page_floor(start as int),
                page_ceil(start + len),
            )
            &&& forall|u: int|
                page_floor(start as int) <= u < page_ceil(start + len) && old(process).inner.memory_set.covers(u)
                    ==> #[trigger] walk(final(mem), final(process).inner.memory_set.root(), u).is_none()
            &&& forall|w: int|
                clear_of_range(&old(process).inner.memory_set, page_floor(start as int), page_ceil(start + len), w)
                    ==> #[trigger] walk(final(mem), final(process).inner.memory_set.root(), w) == walk(
                    old(mem),
                    old(process).inner.memory_set.root(),
                    w,
                )
        },
{
    proof {
        assert(start & 4095usize == start % 4096) by (bit_vector);
    }
    if start & (PAGE_SIZE - 1) != 0 {
        return -1;
    }
    if len == 0 {
        return 0;
    }
    let end = start.checked_add(len);
    if end.is_none() {
        return -1;
    }
    let end = end.unwrap();
    if end > usize::MAX - (PAGE_SIZE - 1) {
        return -1;
    }
    proof {
        lemma_round_up(end);
        assert(page_ceil(round_up(end as int)) == page_ceil(end as int)) by (nonlinear_arith)
            requires
                round_up(end as int) == page_ceil(end as int) * 4096,
                page_ceil(end as int) == (end + 4095) / 4096,
        ;
    }
    let end = (end + (PAGE_SIZE - 1)) & !(PAGE_SIZE - 1);
    munmap_current(process, mem, start, end)
}

} // verus!
