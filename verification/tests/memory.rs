use os::addr::{PhysPageNum, VirtAddr, VirtPageNum};
use os::mem_set::{KernelLayout, MapPermission, MemorySet, MAP_R, MAP_U, MAP_W, MAP_X};
use os::page_table::{PTEFlags, PageTable, PhysMem};

fn user_rw() -> MapPermission {
    MapPermission { bits: MAP_R | MAP_W | MAP_U }
}

#[test]
fn frame_alloc_hands_out_frames_in_order_until_the_limit() {
    let mut mem = PhysMem::new(2);
    assert_eq!(mem.frame_count(), 0);
    assert_eq!(mem.frame_alloc().map(|p| p.0), Some(0));
    assert_eq!(mem.frame_alloc().map(|p| p.0), Some(1));
    assert!(mem.frame_alloc().is_none());
    assert_eq!(mem.free_frame_count(), 0);
}

#[test]
fn page_table_map_then_translate_gives_the_mapping_back() {
    let mut mem = PhysMem::new(16);
    let mut pt = PageTable::new(&mut mem);
    pt.map(&mut mem, VirtPageNum(0x1234), PhysPageNum(0x77), PTEFlags::of(2 | 4));
    let e = pt.translate(&mem, VirtPageNum(0x1234)).unwrap();
    assert_eq!(e.ppn().0, 0x77);
    assert!(e.is_valid() && e.readable() && e.writable() && !e.executable());
    assert!(pt.translate(&mem, VirtPageNum(0x1235)).is_none());
}

#[test]
fn page_table_unmap_removes_the_mapping() {
    let mut mem = PhysMem::new(16);
    let mut pt = PageTable::new(&mut mem);
    pt.map(&mut mem, VirtPageNum(5), PhysPageNum(9), PTEFlags::of(2));
    pt.unmap(&mut mem, VirtPageNum(5));
    assert!(pt.translate(&mem, VirtPageNum(5)).is_none());
}

#[test]
fn token_names_the_root_frame() {
    let mut mem = PhysMem::new(16);
    mem.frame_alloc();
    let pt = PageTable::new(&mut mem);
    let token = pt.token();
    assert_eq!(token, (8usize << 60) | 1);
    let again = PageTable::from_token(token);
    assert_eq!(again.token(), token);
}

#[test]
fn framed_area_pages_are_mapped_with_user_permission() {
    let mut mem = PhysMem::new(64);
    let mut ms = MemorySet::new_bare(&mut mem);
    ms.insert_framed_area(&mut mem, VirtAddr(0x10000), VirtAddr(0x12000), user_rw());
    let e = ms.translate(&mem, VirtPageNum(0x10)).unwrap();
    assert!(e.is_valid() && e.readable() && e.writable());
    assert!(ms.translate(&mem, VirtPageNum(0x11)).is_some());
    assert!(ms.translate(&mem, VirtPageNum(0x12)).is_none());
}

#[test]
fn mmap_refuses_empty_and_overlapping_ranges() {
    let mut mem = PhysMem::new(64);
    let mut ms = MemorySet::new_bare(&mut mem);
    assert_eq!(ms.mmap(&mut mem, 0x10000, 0x10000, (MAP_R | MAP_W) as usize), -1);
    assert_eq!(ms.mmap(&mut mem, 0x10000, 0x12000, (MAP_R | MAP_W) as usize), 0);
    assert_eq!(ms.mmap(&mut mem, 0x11000, 0x13000, MAP_R as usize), -1);
    assert!(ms.translate(&mem, VirtPageNum(0x11)).is_some());
}

#[test]
fn munmap_of_the_middle_splits_the_area() {
    let mut mem = PhysMem::new(64);
    let mut ms = MemorySet::new_bare(&mut mem);
    assert_eq!(ms.mmap(&mut mem, 0x10000, 0x14000, (MAP_R | MAP_W) as usize), 0);
    assert_eq!(ms.munmap(&mut mem, 0x11000, 0x13000), 0);
    assert!(ms.translate(&mem, VirtPageNum(0x10)).is_some());
    assert!(ms.translate(&mem, VirtPageNum(0x11)).is_none());
    assert!(ms.translate(&mem, VirtPageNum(0x12)).is_none());
    assert!(ms.translate(&mem, VirtPageNum(0x13)).is_some());
}

#[test]
fn munmap_of_unmapped_range_changes_nothing() {
    let mut mem = PhysMem::new(64);
    let mut ms = MemorySet::new_bare(&mut mem);
    assert_eq!(ms.mmap(&mut mem, 0x10000, 0x11000, (MAP_R | MAP_W) as usize), 0);
    let frames = mem.frame_count();
    assert_eq!(ms.munmap(&mut mem, 0x11000, 0x13000), 0);
    assert_eq!(mem.frame_count(), frames);
    assert!(ms.translate(&mem, VirtPageNum(0x10)).is_some());
}

#[test]
fn from_another_copies_page_contents_into_new_frames() {
    let mut mem = PhysMem::new(128);
    let mut ms = MemorySet::new_bare(&mut mem);
    ms.insert_framed_area(&mut mem, VirtAddr(0x10000), VirtAddr(0x11000), user_rw());
    let src = ms.translate(&mem, VirtPageNum(0x10)).unwrap().ppn().0;
    mem.write_byte(src * 4096 + 7, 42);
    let copy = MemorySet::from_another(&ms, &mut mem, 0x8020_0000);
    let dst = copy.translate(&mem, VirtPageNum(0x10)).unwrap().ppn().0;
    assert_ne!(src, dst);
    assert_eq!(mem.read_byte(dst * 4096 + 7), 42);
    mem.write_byte(dst * 4096 + 7, 1);
    assert_eq!(mem.read_byte(src * 4096 + 7), 42);
    let tramp = copy.translate(&mem, VirtPageNum(usize::MAX / 4096)).unwrap();
    assert_eq!(tramp.ppn().0, 0x80200);
    assert!(tramp.readable() && tramp.executable() && !tramp.writable());
}

#[test]
fn new_kernel_maps_sections_identically() {
    let mut mem = PhysMem::new(4096);
    let layout = KernelLayout {
        stext: 0x8020_0000,
        etext: 0x8020_2000,
        srodata: 0x8020_2000,
        erodata: 0x8020_3000,
        sdata: 0x8020_3000,
        edata: 0x8020_4000,
        sbss_with_stack: 0x8020_4000,
        ebss: 0x8020_5000,
        ekernel: 0x8020_5000,
    };
    let mmio = vec![(0x1000_1000usize, 0x1000usize)];
    let ks = MemorySet::new_kernel(&mut mem, layout, &mmio, 0x8020_0000);
    let text = ks.translate(&mem, VirtPageNum(0x80200)).unwrap();
    assert_eq!(text.ppn().0, 0x80200);
    assert!(text.readable() && text.executable() && !text.writable());
    let data = ks.translate(&mem, VirtPageNum(0x80203)).unwrap();
    assert!(data.readable() && data.writable() && !data.executable());
    let dev = ks.translate(&mem, VirtPageNum(0x10001)).unwrap();
    assert_eq!(dev.ppn().0, 0x10001);
    let phys = ks.translate(&mem, VirtPageNum(0x87fff)).unwrap();
    assert_eq!(phys.ppn().0, 0x87fff);
    assert!(ks.translate(&mem, VirtPageNum(0x88000)).is_none());
}

#[test]
fn map_permission_refuses_unknown_bits() {
    assert!(MapPermission::from_bits(MAP_R | MAP_X).is_some());
    assert!(MapPermission::from_bits(1).is_none());
}
