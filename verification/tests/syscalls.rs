use os::addr::VirtPageNum;
use os::config::{PAGE_SIZE, TRAMPOLINE, TRAP_CONTEXT_SIZE, USER_STACK_SIZE};
use os::fs::{FileDesc, OSInode, RootInode, O_CREATE, O_RDWR};
use os::page_table::PhysMem;
use os::pid::{KernelStack, RecycleAllocator};
use os::pipe::PipeRingBuffer;
use os::syscall::fs::{sys_close, sys_dup, sys_open, sys_pipe, sys_read, sys_write, FileIo};
use os::syscall::mem::{sys_mmap, sys_munmap};
use os::syscall::process::{sys_exec, sys_get_time, sys_getcwd, sys_sbrk};
use os::syscall::sync::{
    sys_condvar_create, sys_condvar_signal, sys_condvar_wait, sys_mutex_create, sys_mutex_lock,
    sys_mutex_unlock, sys_semaphore_create, sys_semaphore_down, sys_semaphore_up, SyscallStep,
};
use os::syscall::thread::sys_gettid;
use os::task::ProcessControlBlock;

fn put(v: &mut Vec<u8>, at: usize, bytes: &[u8]) {
    v[at..at + bytes.len()].copy_from_slice(bytes);
}

fn tiny_elf() -> Vec<u8> {
    let mut v = vec![0u8; 128];
    put(&mut v, 0, &[0x7f, b'E', b'L', b'F', 2, 1, 1]);
    put(&mut v, 24, &0x10000u64.to_le_bytes());
    put(&mut v, 32, &64u64.to_le_bytes());
    put(&mut v, 54, &56u16.to_le_bytes());
    put(&mut v, 56, &1u16.to_le_bytes());
    put(&mut v, 64, &1u32.to_le_bytes());
    put(&mut v, 68, &6u32.to_le_bytes());
    put(&mut v, 72, &120u64.to_le_bytes());
    put(&mut v, 80, &0x10000u64.to_le_bytes());
    put(&mut v, 96, &8u64.to_le_bytes());
    put(&mut v, 104, &0x100u64.to_le_bytes());
    v
}

/// The lowest address of thread 0's user stack.
fn stack_base() -> usize {
    TRAMPOLINE - TRAP_CONTEXT_SIZE - USER_STACK_SIZE
}

fn setup() -> (PhysMem, ProcessControlBlock) {
    let mut mem = PhysMem::new(512);
    let mut pids = RecycleAllocator::new();
    let p = ProcessControlBlock::new(&mut mem, &tiny_elf(), &mut pids, KernelStack(0), 0, 0, 0, 0x8020_0000)
        .unwrap();
    (mem, p)
}

fn pa_of(p: &ProcessControlBlock, mem: &PhysMem, va: usize) -> usize {
    let ppn = p.inner.memory_set.translate(mem, VirtPageNum(va / PAGE_SIZE)).unwrap().ppn().0;
    ppn * PAGE_SIZE + va % PAGE_SIZE
}

fn poke(p: &ProcessControlBlock, mem: &mut PhysMem, va: usize, bytes: &[u8]) {
    for (k, b) in bytes.iter().enumerate() {
        let pa = pa_of(p, mem, va + k);
        mem.write_byte(pa, *b);
    }
}

fn peek(p: &ProcessControlBlock, mem: &PhysMem, va: usize, n: usize) -> Vec<u8> {
    (0..n).map(|k| mem.read_byte(pa_of(p, mem, va + k))).collect()
}

#[test]
fn open_write_close_then_read_back_a_file() {
    let (mut mem, mut p) = setup();
    let mut root = RootInode::new();
    let mut open_files: Vec<OSInode> = Vec::new();
    let base = stack_base();
    poke(&p, &mut mem, base, b"notes\0");
    poke(&p, &mut mem, base + 64, b"hello");
    let fd = sys_open(&mut p, &mem, &mut root, &mut open_files, base, O_CREATE | O_RDWR);
    assert_eq!(fd, 3);
    match sys_write(&p, &mem, &mut root, &mut open_files, 3, base + 64, 5) {
        FileIo::Done(n) => assert_eq!(n, 5),
        _ => panic!("an inode write is done in the kernel"),
    }
    assert_eq!(root.read_at(0, 0, 10), b"hello".to_vec());
    assert_eq!(sys_close(&mut p, 3), 0);
    assert_eq!(sys_close(&mut p, 3), -1);
    let fd = sys_open(&mut p, &mem, &mut root, &mut open_files, base, 0);
    assert_eq!(fd, 3);
    match sys_read(&p, &mut mem, &root, &mut open_files, 3, base + 128, 16) {
        FileIo::Done(n) => assert_eq!(n, 5),
        _ => panic!("an inode read is done in the kernel"),
    }
    assert_eq!(peek(&p, &mem, base + 128, 5), b"hello".to_vec());
}

#[test]
fn open_of_a_missing_file_without_create_fails() {
    let (mut mem, mut p) = setup();
    let mut root = RootInode::new();
    let mut open_files: Vec<OSInode> = Vec::new();
    poke(&p, &mut mem, stack_base(), b"nope\0");
    assert_eq!(sys_open(&mut p, &mem, &mut root, &mut open_files, stack_base(), 0), -1);
    assert!(open_files.is_empty());
}

#[test]
fn console_reads_and_writes_are_left_to_the_caller() {
    let (mut mem, p) = setup();
    let root = RootInode::new();
    let mut root_w = RootInode::new();
    let mut open_files: Vec<OSInode> = Vec::new();
    assert!(matches!(sys_read(&p, &mut mem, &root, &mut open_files, 0, stack_base(), 4), FileIo::Console(_)));
    assert!(matches!(sys_write(&p, &mem, &mut root_w, &mut open_files, 1, stack_base(), 4), FileIo::Console(_)));
    assert!(matches!(sys_read(&p, &mut mem, &root, &mut open_files, 1, stack_base(), 4), FileIo::Done(-1)));
    assert!(matches!(sys_write(&p, &mem, &mut root_w, &mut open_files, 9, stack_base(), 4), FileIo::Done(-1)));
}

#[test]
fn dup_takes_the_first_free_descriptor() {
    let (_mem, mut p) = setup();
    assert_eq!(sys_close(&mut p, 0), 0);
    assert_eq!(sys_dup(&mut p, 1), 0);
    assert_eq!(p.inner.fd_table[0], Some(FileDesc::Stdout));
    assert_eq!(sys_dup(&mut p, 2), 3);
    assert_eq!(p.inner.fd_table[3], Some(FileDesc::Stderr));
    assert_eq!(sys_dup(&mut p, 7), -1);
}

#[test]
fn pipe_stores_its_two_descriptors_in_user_memory() {
    let (mut mem, mut p) = setup();
    let mut pipes: Vec<PipeRingBuffer> = Vec::new();
    assert_eq!(sys_pipe(&mut p, &mut mem, &mut pipes, stack_base()), 0);
    assert_eq!(pipes.len(), 1);
    assert_eq!(p.inner.fd_table[3], Some(FileDesc::PipeRead(0)));
    assert_eq!(p.inner.fd_table[4], Some(FileDesc::PipeWrite(0)));
    let words = peek(&p, &mem, stack_base(), 16);
    assert_eq!(words[..8].to_vec(), 3u64.to_le_bytes().to_vec());
    assert_eq!(words[8..].to_vec(), 4u64.to_le_bytes().to_vec());
}

#[test]
fn getcwd_copies_the_directory_with_its_nul() {
    let (mut mem, p) = setup();
    assert_eq!(sys_getcwd(&p, &mut mem, stack_base(), 8), 2);
    assert_eq!(peek(&p, &mem, stack_base(), 2), b"/\0".to_vec());
    assert_eq!(sys_getcwd(&p, &mut mem, stack_base(), 1), -1);
    assert_eq!(sys_getcwd(&p, &mut mem, 0, 8), -1);
}

#[test]
fn mmap_then_munmap_a_fresh_range() {
    let (mut mem, mut p) = setup();
    assert_eq!(sys_mmap(&mut p, &mut mem, 0x4000_0000, 0x2000, 0b011), 0);
    let f0 = p.inner.memory_set.translate(&mem, VirtPageNum(0x40000)).unwrap().ppn().0;
    let f1 = p.inner.memory_set.translate(&mem, VirtPageNum(0x40001)).unwrap().ppn().0;
    assert_ne!(f0, f1);
    assert_eq!(sys_mmap(&mut p, &mut mem, 0x4000_1000, 0x1000, 0b001), -1);
    assert_eq!(sys_mmap(&mut p, &mut mem, 0x4000_8001, 0x1000, 0b001), -1);
    assert_eq!(sys_mmap(&mut p, &mut mem, 0x4000_8000, 0x1000, 0b1000), -1);
    assert_eq!(sys_munmap(&mut p, &mut mem, 0x4000_0000, 0x1000), 0);
    assert!(p.inner.memory_set.translate(&mem, VirtPageNum(0x40000)).is_none());
    assert!(p.inner.memory_set.translate(&mem, VirtPageNum(0x40001)).is_some());
    assert_eq!(sys_munmap(&mut p, &mut mem, 0x4000_0001, 0x1000), -1);
}

#[test]
fn sbrk_grows_the_heap_and_refuses_to_shrink_below_its_bottom() {
    let (mut mem, mut p) = setup();
    let bottom = p.inner.heap_bottom;
    assert_eq!(sys_sbrk(&mut p, &mut mem, 0x1800), bottom as isize);
    assert_eq!(p.inner.program_brk, bottom + 0x1800);
    assert_eq!(sys_sbrk(&mut p, &mut mem, -0x800), (bottom + 0x1800) as isize);
    assert_eq!(p.inner.program_brk, bottom + 0x1000);
    assert_eq!(sys_sbrk(&mut p, &mut mem, -0x2000), -1);
    assert_eq!(p.inner.program_brk, bottom + 0x1000);
}

#[test]
fn time_and_thread_id() {
    let (_mem, p) = setup();
    assert_eq!(sys_get_time(1234), 1234);
    assert_eq!(sys_gettid(p.inner.tasks[0].as_ref().unwrap()), 0);
}

#[test]
fn mutex_syscalls_take_hand_over_and_refuse_unknown_ids() {
    let (_mem, mut p) = setup();
    assert_eq!(sys_mutex_create(&mut p, true), 0);
    assert_eq!(sys_mutex_create(&mut p, false), 1);
    assert_eq!(sys_mutex_lock(&mut p, 1, 0), SyscallStep::Done(0));
    assert_eq!(sys_mutex_lock(&mut p, 2, 0), SyscallStep::Block);
    assert_eq!(sys_mutex_unlock(&mut p, 0), (0, Some(2)));
    assert_eq!(sys_mutex_lock(&mut p, 1, 1), SyscallStep::Done(0));
    assert_eq!(sys_mutex_lock(&mut p, 2, 1), SyscallStep::Yield);
    assert_eq!(sys_mutex_lock(&mut p, 1, 5), SyscallStep::Done(-1));
    assert_eq!(sys_mutex_unlock(&mut p, 5), (-1, None));
}

#[test]
fn semaphore_syscalls_count_and_wake() {
    let (_mem, mut p) = setup();
    assert_eq!(sys_semaphore_create(&mut p, 1), 0);
    assert_eq!(sys_semaphore_down(&mut p, 1, 0), SyscallStep::Done(0));
    assert_eq!(sys_semaphore_down(&mut p, 2, 0), SyscallStep::Block);
    assert_eq!(sys_semaphore_up(&mut p, 0), (0, Some(2)));
    assert_eq!(sys_semaphore_up(&mut p, 0), (0, None));
    assert_eq!(sys_semaphore_up(&mut p, 3), (-1, None));
}

#[test]
fn condvar_syscalls_queue_and_signal() {
    let (_mem, mut p) = setup();
    assert_eq!(sys_mutex_create(&mut p, true), 0);
    assert_eq!(sys_condvar_create(&mut p), 0);
    assert_eq!(sys_mutex_lock(&mut p, 1, 0), SyscallStep::Done(0));
    assert_eq!(sys_condvar_wait(&mut p, 1, 0, 0), (SyscallStep::Block, None));
    assert_eq!(sys_condvar_signal(&mut p, 0), (0, Some(1)));
    assert_eq!(sys_condvar_signal(&mut p, 0), (0, None));
}

#[test]
fn exec_runs_the_named_file_with_the_arguments() {
    let (mut mem, mut p) = setup();
    let mut root = RootInode::new();
    let i = root.create(&"prog".to_string()).unwrap();
    root.write_at(i, 0, &tiny_elf());
    let base = stack_base();
    poke(&p, &mut mem, base, b"prog\0");
    poke(&p, &mut mem, base + 16, b"xy\0");
    poke(&p, &mut mem, base + 64, &(base as u64).to_le_bytes());
    poke(&p, &mut mem, base + 72, &((base + 16) as u64).to_le_bytes());
    poke(&p, &mut mem, base + 80, &0u64.to_le_bytes());
    assert_eq!(sys_exec(&mut p, &mut mem, &root, base, base + 64, 1, 2, 3, 0x8020_0000), 2);
    let th = p.inner.tasks[0].as_ref().unwrap();
    assert_eq!(th.trap_cx.x[10], 2);
    assert_eq!(th.trap_cx.sepc, 0x10000);
    let argv = th.trap_cx.x[11];
    let first = usize::from_le_bytes(peek(&p, &mem, argv, 8).try_into().unwrap());
    assert_eq!(peek(&p, &mem, first, 5), b"prog\0".to_vec());
    let second = usize::from_le_bytes(peek(&p, &mem, argv + 8, 8).try_into().unwrap());
    assert_eq!(peek(&p, &mem, second, 3), b"xy\0".to_vec());
}

#[test]
fn exec_without_arguments_passes_the_name() {
    let (mut mem, mut p) = setup();
    let mut root = RootInode::new();
    let i = root.create(&"prog".to_string()).unwrap();
    root.write_at(i, 0, &tiny_elf());
    poke(&p, &mut mem, stack_base(), b"prog\0");
    assert_eq!(sys_exec(&mut p, &mut mem, &root, stack_base(), 0, 1, 2, 3, 0x8020_0000), 1);
}

#[test]
fn exec_of_a_missing_or_broken_file_fails() {
    let (mut mem, mut p) = setup();
    let mut root = RootInode::new();
    let i = root.create(&"junk".to_string()).unwrap();
    root.write_at(i, 0, &vec![1, 2, 3]);
    poke(&p, &mut mem, stack_base(), b"none\0");
    poke(&p, &mut mem, stack_base() + 16, b"junk\0");
    let frames = mem.frame_count();
    assert_eq!(sys_exec(&mut p, &mut mem, &root, stack_base(), 0, 1, 2, 3, 0x8020_0000), -1);
    assert_eq!(sys_exec(&mut p, &mut mem, &root, stack_base() + 16, 0, 1, 2, 3, 0x8020_0000), -1);
    assert_eq!(mem.frame_count(), frames);
    assert_eq!(sys_exec(&mut p, &mut mem, &root, 0x7000_0000, 0, 1, 2, 3, 0x8020_0000), -1);
}
