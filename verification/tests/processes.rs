use os::addr::VirtPageNum;
use os::config::{PAGE_SIZE, TRAMPOLINE, TRAP_CONTEXT_SIZE};
use os::fs::FileDesc;
use os::lifecycle::add_initproc;
use os::fs::RootInode;
use os::manager::{pid2process, ProcessTable, TaskManager};
use os::mem_set::{elf_segments, load_span, MemorySet};
use os::page_table::PhysMem;
use os::pid::{KernelStack, RecycleAllocator};
use os::syscall::process::sys_fork;
use os::task::ProcessControlBlock;

const ENTRY: u64 = 0x10004;
const TEXT: [u8; 8] = [0x13, 0, 0, 0, 0x73, 0, 0, 0];

fn put(v: &mut Vec<u8>, at: usize, bytes: &[u8]) {
    v[at..at + bytes.len()].copy_from_slice(bytes);
}

/// A 64-bit little-endian ELF file with one loadable, readable and executable segment
/// of 8 file bytes and 0x100 memory bytes at 0x10000.
fn tiny_elf() -> Vec<u8> {
    let mut v = vec![0u8; 128];
    put(&mut v, 0, &[0x7f, b'E', b'L', b'F', 2, 1, 1]);
    put(&mut v, 16, &2u16.to_le_bytes());
    put(&mut v, 18, &0xf3u16.to_le_bytes());
    put(&mut v, 20, &1u32.to_le_bytes());
    put(&mut v, 24, &ENTRY.to_le_bytes());
    put(&mut v, 32, &64u64.to_le_bytes());
    put(&mut v, 52, &64u16.to_le_bytes());
    put(&mut v, 54, &56u16.to_le_bytes());
    put(&mut v, 56, &1u16.to_le_bytes());
    put(&mut v, 58, &64u16.to_le_bytes());
    put(&mut v, 64, &1u32.to_le_bytes());
    put(&mut v, 68, &5u32.to_le_bytes());
    put(&mut v, 72, &120u64.to_le_bytes());
    put(&mut v, 80, &0x10000u64.to_le_bytes());
    put(&mut v, 88, &0x10000u64.to_le_bytes());
    put(&mut v, 96, &8u64.to_le_bytes());
    put(&mut v, 104, &0x100u64.to_le_bytes());
    put(&mut v, 112, &0x1000u64.to_le_bytes());
    put(&mut v, 120, &TEXT);
    v
}

fn user_byte(ms: &MemorySet, mem: &PhysMem, va: usize) -> u8 {
    let ppn = ms.translate(mem, VirtPageNum(va / PAGE_SIZE)).unwrap().ppn().0;
    mem.read_byte(ppn * PAGE_SIZE + va % PAGE_SIZE)
}

fn new_process(mem: &mut PhysMem, pids: &mut RecycleAllocator) -> ProcessControlBlock {
    ProcessControlBlock::new(mem, &tiny_elf(), pids, KernelStack(0), 0x77, 0x88, 0x20, 0x8020_0000).unwrap()
}

#[test]
fn elf_segments_reads_the_program_headers() {
    let (segs, entry, pages) = elf_segments(&tiny_elf()).unwrap();
    assert_eq!(entry, ENTRY);
    assert_eq!(pages, 1);
    assert_eq!(segs.len(), 1);
    assert_eq!(segs[0].vaddr, 0x10000);
    assert_eq!(segs[0].offset, 120);
    assert_eq!(segs[0].file_size, 8);
    assert_eq!(segs[0].mem_size, 0x100);
    assert_eq!(load_span(128, segs[0]), Some((0x10, 0x11)));
    assert_eq!(load_span(100, segs[0]), None);
}

#[test]
fn elf_segments_refuses_a_file_without_the_magic_number() {
    let mut bad = tiny_elf();
    bad[1] = b'X';
    assert!(elf_segments(&bad).is_none());
    assert!(elf_segments(&bad[..40]).is_none());
}

#[test]
fn from_elf_loads_the_file_bytes_at_the_segment_address() {
    let mut mem = PhysMem::new(256);
    let (ms, user_sp, entry) = MemorySet::from_elf(&mut mem, &tiny_elf(), 0x8020_0000).unwrap();
    assert_eq!(entry, ENTRY as usize);
    assert_eq!(user_sp, 0x11000);
    for (k, b) in TEXT.iter().enumerate() {
        assert_eq!(user_byte(&ms, &mem, 0x10000 + k), *b);
    }
    assert_eq!(user_byte(&ms, &mem, 0x10008), 0);
    assert_eq!(user_byte(&ms, &mem, 0x10fff), 0);
    let e = ms.translate(&mem, VirtPageNum(0x10)).unwrap();
    assert!(e.readable() && e.executable() && !e.writable());
    assert!(ms.translate(&mem, VirtPageNum(0x11)).is_none());
}

#[test]
fn from_elf_refuses_a_broken_file() {
    let mut mem = PhysMem::new(256);
    let mut bad = tiny_elf();
    bad[0] = 0;
    assert!(MemorySet::from_elf(&mut mem, &bad, 0x8020_0000).is_none());
    assert_eq!(mem.frame_count(), 0);
}

#[test]
fn a_new_process_starts_its_thread_at_the_entry_point() {
    let mut mem = PhysMem::new(256);
    let mut pids = RecycleAllocator::new();
    let mut p = new_process(&mut mem, &mut pids);
    assert_eq!(p.getpid(), 0);
    let inner = p.inner_exclusive_access();
    assert_eq!(inner.fd_table.len(), 3);
    assert!(matches!(inner.fd_table[0], Some(FileDesc::Stdin)));
    assert!(matches!(inner.fd_table[1], Some(FileDesc::Stdout)));
    assert_eq!(inner.heap_bottom, 0x11000);
    assert_eq!(inner.program_brk, 0x11000);
    assert_eq!(inner.tasks.len(), 1);
    let th = inner.tasks[0].as_ref().unwrap();
    assert_eq!(th.trap_cx.sepc, ENTRY as usize);
    assert_eq!(th.trap_cx.x[2], TRAMPOLINE - TRAP_CONTEXT_SIZE);
    assert_eq!(th.trap_cx.kernel_satp, 0x77);
    assert_eq!(th.trap_cx.trap_handler, 0x88);
    assert_eq!(th.trap_cx.sstatus, 0x20);
    assert_eq!(th.trap_cx.kernel_sp, TRAMPOLINE);
    assert_eq!(user_byte(&inner.memory_set, &mem, 0x10004), 0x73);
    let again = new_process(&mut mem, &mut pids);
    assert_eq!(again.getpid(), 1);
}

#[test]
fn a_process_is_not_made_of_a_broken_file() {
    let mut mem = PhysMem::new(256);
    let mut pids = RecycleAllocator::new();
    let mut bad = tiny_elf();
    bad[4] = 9;
    let r = ProcessControlBlock::new(&mut mem, &bad, &mut pids, KernelStack(0), 0, 0, 0, 0x8020_0000);
    assert!(r.is_none());
    assert_eq!(pids.allocate(), 0);
}

#[test]
fn fork_copies_the_address_space_and_the_child_returns_zero() {
    let mut mem = PhysMem::new(512);
    let mut pids = RecycleAllocator::new();
    let mut parent = new_process(&mut mem, &mut pids);
    parent.inner.tasks[0].as_mut().unwrap().trap_cx.x[10] = 55;
    let mut table = ProcessTable::new();
    let mut manager = TaskManager::new();
    let child_pid = sys_fork(&mut parent, &mut mem, &mut pids, &mut table, &mut manager, KernelStack(1), 7, 0x8020_0000);
    assert_eq!(child_pid, 1);
    assert_eq!(manager.fetch(), Some(7));
    let child = pid2process(&table, 1).unwrap();
    assert_eq!(child.inner.parent, Some(0));
    let cth = child.inner.tasks[0].as_ref().unwrap();
    assert_eq!(cth.trap_cx.x[10], 0);
    assert_eq!(cth.trap_cx.sepc, ENTRY as usize);
    assert_eq!(parent.inner.children.len(), 1);
    assert_eq!(parent.inner.children[0].pid, 1);
    let pa = parent.inner.memory_set.translate(&mem, VirtPageNum(0x10)).unwrap().ppn().0;
    let ca = child.inner.memory_set.translate(&mem, VirtPageNum(0x10)).unwrap().ppn().0;
    assert_ne!(pa, ca);
    for (k, b) in TEXT.iter().enumerate() {
        assert_eq!(user_byte(&child.inner.memory_set, &mem, 0x10000 + k), *b);
    }
}

#[test]
fn exec_lays_out_the_arguments_on_the_user_stack() {
    let mut mem = PhysMem::new(512);
    let mut pids = RecycleAllocator::new();
    let mut p = new_process(&mut mem, &mut pids);
    let args = vec!["ab".to_string(), "c".to_string()];
    assert!(p.exec(&mut mem, &tiny_elf(), &args, 1, 2, 3, 0x8020_0000));
    let top = TRAMPOLINE - TRAP_CONTEXT_SIZE;
    let argv = top - 24;
    let th = p.inner.tasks[0].as_ref().unwrap();
    assert_eq!(th.trap_cx.x[10], 2);
    assert_eq!(th.trap_cx.x[11], argv);
    assert_eq!(th.trap_cx.x[2], top - 32);
    assert_eq!(th.trap_cx.sepc, ENTRY as usize);
    assert_eq!(th.trap_cx.kernel_satp, 1);
    let ms = &p.inner.memory_set;
    let word = |va: usize| -> usize {
        let mut b = [0u8; 8];
        for k in 0..8 {
            b[k] = user_byte(ms, &mem, va + k);
        }
        usize::from_le_bytes(b)
    };
    assert_eq!(word(top - 8), 0);
    assert_eq!(word(argv), argv - 3);
    assert_eq!(word(argv + 8), argv - 5);
    assert_eq!(user_byte(ms, &mem, argv - 3), b'a');
    assert_eq!(user_byte(ms, &mem, argv - 2), b'b');
    assert_eq!(user_byte(ms, &mem, argv - 1), 0);
    assert_eq!(user_byte(ms, &mem, argv - 5), b'c');
    assert_eq!(user_byte(ms, &mem, argv - 4), 0);
}

#[test]
fn exec_of_a_broken_file_changes_nothing() {
    let mut mem = PhysMem::new(512);
    let mut pids = RecycleAllocator::new();
    let mut p = new_process(&mut mem, &mut pids);
    let frames = mem.frame_count();
    let mut bad = tiny_elf();
    bad[2] = 0;
    assert!(!p.exec(&mut mem, &bad, &Vec::new(), 1, 2, 3, 0x8020_0000));
    assert_eq!(mem.frame_count(), frames);
    assert_eq!(p.inner.tasks[0].as_ref().unwrap().trap_cx.sepc, ENTRY as usize);
}

#[test]
fn add_initproc_enters_the_first_process_and_queues_its_thread() {
    let mut mem = PhysMem::new(512);
    let mut pids = RecycleAllocator::new();
    let mut root = RootInode::new();
    let i = root.create(&"initproc".to_string()).unwrap();
    root.write_at(i, 0, &tiny_elf());
    let mut table = ProcessTable::new();
    let mut manager = TaskManager::new();
    let pid = add_initproc(
        &mut root, &mut mem, &mut pids, KernelStack(0), 1, 2, 3, 0x8020_0000, &mut table, &mut manager, 42,
    );
    assert_eq!(pid, Some(0));
    assert_eq!(pid2process(&table, 0).unwrap().getpid(), 0);
    assert_eq!(manager.fetch(), Some(42));
}

#[test]
fn add_initproc_without_the_file_enters_nothing() {
    let mut mem = PhysMem::new(512);
    let mut pids = RecycleAllocator::new();
    let mut root = RootInode::new();
    let mut table = ProcessTable::new();
    let mut manager = TaskManager::new();
    let pid = add_initproc(
        &mut root, &mut mem, &mut pids, KernelStack(0), 1, 2, 3, 0x8020_0000, &mut table, &mut manager, 42,
    );
    assert_eq!(pid, None);
    assert!(pid2process(&table, 0).is_none());
    assert_eq!(manager.fetch(), None);
}

#[test]
fn elf_with_misaligned_program_headers_is_refused() {
    let mut v = tiny_elf();
    v.insert(64, 0);
    put(&mut v, 32, &65u64.to_le_bytes());
    assert!(elf_segments(&v).is_none());
}
