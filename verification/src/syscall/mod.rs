//! The system calls, each a function of the calling process's state and its arguments,
//! and the decoding of a call's number and arguments.
use vstd::prelude::*;

pub mod mem;
pub mod fs;
pub mod sync;
pub mod thread;
pub mod process;

verus! {

/// `getcwd`.
pub const SYSCALL_GETCWD: usize = 17;
/// `dup`.
pub const SYSCALL_DUP: usize = 24;
/// `unlinkat`.
pub const SYSCALL_UNLINKAT: usize = 35;
/// `chdir`.
pub const SYSCALL_CHDIR: usize = 49;
/// `openat`.
pub const SYSCALL_OPENAT: usize = 56;
/// `close`.
pub const SYSCALL_CLOSE: usize = 57;
/// `pipe`.
pub const SYSCALL_PIPE: usize = 59;
/// `read`.
pub const SYSCALL_READ: usize = 63;
/// `write`.
pub const SYSCALL_WRITE: usize = 64;
/// `exit`.
pub const SYSCALL_EXIT: usize = 93;
/// `yield`.
pub const SYSCALL_YIELD: usize = 124;
/// `get_time`.
pub const SYSCALL_GET_TIME: usize = 169;
/// `sbrk`.
pub const SYSCALL_SBRK: usize = 214;
/// `mmap`.
pub const SYSCALL_MMAP: usize = 222;
/// `munmap`.
pub const SYSCALL_MUNMAP: usize = 215;
/// `fork`.
pub const SYSCALL_FORK: usize = 220;
/// `exec`.
pub const SYSCALL_EXEC: usize = 221;
/// `waitpid`.
pub const SYSCALL_WAITPID: usize = 260;
/// `gettid`.
pub const SYSCALL_GETTID: usize = 178;
/// `thread_create`.
pub const SYSCALL_THREAD_CREATE: usize = 460;
/// `waittid`.
pub const SYSCALL_WAITTID: usize = 462;
/// `mutex_create`.
pub const SYSCALL_MUTEX_CREATE: usize = 463;
/// `mutex_lock`.
pub const SYSCALL_MUTEX_LOCK: usize = 464;
/// `mutex_unlock`.
pub const SYSCALL_MUTEX_UNLOCK: usize = 466;
/// `semaphore_create`.
pub const SYSCALL_SEMAPHORE_CREATE: usize = 467;
/// `semaphore_up`.
pub const SYSCALL_SEMAPHORE_UP: usize = 468;
/// `semaphore_down`.
pub const SYSCALL_SEMAPHORE_DOWN: usize = 469;

/// A system call with its arguments, as the system-call function takes them.
#[derive(Clone, Copy, Debug, PartialEq, Eq, Structural)]
pub enum SyscallRequest {
    /// `sys_getcwd(buf, len)`.
    Getcwd { buf: usize, len: usize },
    /// `sys_dup(fd)`.
    Dup { fd: usize },
    /// `sys_unlink(path)`.
    Unlink { path: usize },
    /// `sys_chdir(path)`.
    Chdir { path: usize },
    /// `sys_open(path, flags)`.
    Open { path: usize, flags: u32 },
    /// `sys_close(fd)`.
    Close { fd: usize },
    /// `sys_pipe(pipe)`.
    Pipe { pipe: usize },
    /// `sys_read(fd, buf, len)`.
    Read { fd: usize, buf: usize, len: usize },
    /// `sys_write(fd, buf, len)`.
    Write { fd: usize, buf: usize, len: usize },
    /// `sys_exit(exit_code)`.
    Exit { exit_code: i32 },
    /// `sys_yield()`.
    Yield,
    /// `sys_get_time()`.
    GetTime,
    /// `sys_sbrk(size)`.
    Sbrk { size: i32 },
    /// `sys_mmap(start, len, prot)`.
    Mmap { start: usize, len: usize, prot: usize },
    /// `sys_munmap(start, len)`.
    Munmap { start: usize, len: usize },
    /// `sys_fork()`.
    Fork,
    /// `sys_exec(path, args)`.
    Exec { path: usize, args: usize },
    /// `sys_waitpid(pid, exit_code_ptr)`.
    Waitpid { pid: isize, exit_code_ptr: usize },
    /// `sys_thread_create(entry, arg)`.
    ThreadCreate { entry: usize, arg: usize },
    /// `sys_waittid(tid)`.
    Waittid { tid: usize },
    /// `sys_gettid()`.
    Gettid,
    /// `sys_mutex_create(blocking)`.
    MutexCreate { blocking: bool },
    /// `sys_mutex_lock(id)`.
    MutexLock { id: usize },
    /// `sys_mutex_unlock(id)`.
    MutexUnlock { id: usize },
    /// `sys_semaphore_create(count)`.
    SemaphoreCreate { count: usize },
    /// `sys_semaphore_up(id)`.
    SemaphoreUp { id: usize },
    /// `sys_semaphore_down(id)`.
    SemaphoreDown { id: usize },
}

/// The system call numbered `id` with arguments `a`, `b` and `c`, each argument taken
/// as the call takes it (a signed or shorter integer by truncation, a flag as
/// non-zero); `None` for a number no call has.
pub open spec fn request_of(id: usize, a: usize, b: usize, c: usize) -> Option<SyscallRequest> {
    if id == SYSCALL_GETCWD {
        Some(SyscallRequest::Getcwd { buf: a, len: b })
    } else if id == SYSCALL_DUP {
        Some(SyscallRequest::Dup { fd: a })
    } else if id == SYSCALL_UNLINKAT {
        Some(SyscallRequest::Unlink { path: a })
    } else if id == SYSCALL_CHDIR {
        Some(SyscallRequest::Chdir { path: a })
    } else if id == SYSCALL_OPENAT {
        Some(SyscallRequest::Open { path: a, flags: b as u32 })
    } else if id == SYSCALL_CLOSE {
        Some(SyscallRequest::Close { fd: a })
    } else if id == SYSCALL_PIPE {
        Some(SyscallRequest::Pipe { pipe: a })
    } else if id == SYSCALL_READ {
        Some(SyscallRequest::Read { fd: a, buf: b, len: c })
    } else if id == SYSCALL_WRITE {
        Some(SyscallRequest::Write { fd: a, buf: b, len: c })
    } else if id == SYSCALL_EXIT {
        Some(SyscallRequest::Exit { exit_code: a as i32 })
    } else if id == SYSCALL_YIELD {
        Some(SyscallRequest::Yield)
    } else if id == SYSCALL_GET_TIME {
        Some(SyscallRequest::GetTime)
    } else if id == SYSCALL_SBRK {
        Some(SyscallRequest::Sbrk { size: a as i32 })
    } else if id == SYSCALL_MMAP {
        Some(SyscallRequest::Mmap { start: a, len: b, prot: c })
    } else if id == SYSCALL_MUNMAP {
        Some(SyscallRequest::Munmap { start: a, len: b })
    } else if id == SYSCALL_FORK {
        Some(SyscallRequest::Fork)
    } else if id == SYSCALL_EXEC {
        Some(SyscallRequest::Exec { path: a, args: b })
    } else if id == SYSCALL_WAITPID {
        Some(SyscallRequest::Waitpid { pid: a as isize, exit_code_ptr: b })
    } else if id == SYSCALL_THREAD_CREATE {
        Some(SyscallRequest::ThreadCreate { entry: a, arg: b })
    } else if id == SYSCALL_WAITTID {
        Some(SyscallRequest::Waittid { tid: a })
    } else if id == SYSCALL_GETTID {
        Some(SyscallRequest::Gettid)
    } else if id == SYSCALL_MUTEX_CREATE {
        Some(SyscallRequest::MutexCreate { blocking: a != 0 })
    } else if id == SYSCALL_MUTEX_LOCK {
        Some(SyscallRequest::MutexLock { id: a })
    } else if id == SYSCALL_MUTEX_UNLOCK {
        Some(SyscallRequest::MutexUnlock { id: a })
    } else if id == SYSCALL_SEMAPHORE_CREATE {
        Some(SyscallRequest::SemaphoreCreate { count: a })
    } else if id == SYSCALL_SEMAPHORE_UP {
        Some(SyscallRequest::SemaphoreUp { id: a })
    } else if id == SYSCALL_SEMAPHORE_DOWN {
        Some(SyscallRequest::SemaphoreDown { id: a })
    } else {
        None
    }
}

/// Each system call takes its fields from the argument registers as the call has them:
/// for `read`, the descriptor from the first, the buffer from the second and the length
/// from the third, and so on for every call number.
pub proof fn lemma_request_fields(a: usize, b: usize, c: usize)
    ensures
        request_of(SYSCALL_GETCWD, a, b, c) == Some(SyscallRequest::Getcwd { buf: a, len: b }),
        request_of(SYSCALL_DUP, a, b, c) == Some(SyscallRequest::Dup { fd: a }),
        request_of(SYSCALL_UNLINKAT, a, b, c) == Some(SyscallRequest::Unlink { path: a }),
        request_of(SYSCALL_CHDIR, a, b, c) == Some(SyscallRequest::Chdir { path: a }),
        request_of(SYSCALL_OPENAT, a, b, c) == Some(SyscallRequest::Open { path: a, flags: b as u32 }),
        request_of(SYSCALL_CLOSE, a, b, c) == Some(SyscallRequest::Close { fd: a }),
        request_of(SYSCALL_PIPE, a, b, c) == Some(SyscallRequest::Pipe { pipe: a }),
        request_of(SYSCALL_READ, a, b, c) == Some(SyscallRequest::Read { fd: a, buf: b, len: c }),
        request_of(SYSCALL_WRITE, a, b, c) == Some(SyscallRequest::Write { fd: a, buf: b, len: c }),
        request_of(SYSCALL_EXIT, a, b, c) == Some(SyscallRequest::Exit { exit_code: a as i32 }),
        request_of(SYSCALL_YIELD, a, b, c) == Some(SyscallRequest::Yield),
        request_of(SYSCALL_GET_TIME, a, b, c) == Some(SyscallRequest::GetTime),
        request_of(SYSCALL_SBRK, a, b, c) == Some(SyscallRequest::Sbrk { size: a as i32 }),
        request_of(SYSCALL_MMAP, a, b, c) == Some(SyscallRequest::Mmap { start: a, len: b, prot: c }),
        request_of(SYSCALL_MUNMAP, a, b, c) == Some(SyscallRequest::Munmap { start: a, len: b }),
        request_of(SYSCALL_FORK, a, b, c) == Some(SyscallRequest::Fork),
        request_of(SYSCALL_EXEC, a, b, c) == Some(SyscallRequest::Exec { path: a, args: b }),
        request_of(SYSCALL_WAITPID, a, b, c) == Some(SyscallRequest::Waitpid { pid: a as isize, exit_code_ptr: b }),
        request_of(SYSCALL_THREAD_CREATE, a, b, c) == Some(SyscallRequest::ThreadCreate { entry: a, arg: b }),
        request_of(SYSCALL_WAITTID, a, b, c) == Some(SyscallRequest::Waittid { tid: a }),
        request_of(SYSCALL_GETTID, a, b, c) == Some(SyscallRequest::Gettid),
        request_of(SYSCALL_MUTEX_CREATE, a, b, c) == Some(SyscallRequest::MutexCreate { blocking: a != 0 }),
        request_of(SYSCALL_MUTEX_LOCK, a, b, c) == Some(SyscallRequest::MutexLock { id: a }),
        request_of(SYSCALL_MUTEX_UNLOCK, a, b, c) == Some(SyscallRequest::MutexUnlock { id: a }),
        request_of(SYSCALL_SEMAPHORE_CREATE, a, b, c) == Some(SyscallRequest::SemaphoreCreate { count: a }),
        request_of(SYSCALL_SEMAPHORE_UP, a, b, c) == Some(SyscallRequest::SemaphoreUp { id: a }),
        request_of(SYSCALL_SEMAPHORE_DOWN, a, b, c) == Some(SyscallRequest::SemaphoreDown { id: a }),
{
}

/// Decode the system call numbered `id` with arguments `args`; `None` for a number no
/// call has.
pub fn decode_syscall(id: usize, args: [usize; 3]) -> (r: Option<SyscallRequest>)
    ensures
        r == request_of(id, args@[0], args@[1], args@[2]),
        id == SYSCALL_GETCWD ==> r == Some(SyscallRequest::Getcwd { buf: args@[0], len: args@[1] }),
        id == SYSCALL_DUP ==> r == Some(SyscallRequest::Dup { fd: args@[0] }),
        id == SYSCALL_UNLINKAT ==> r == Some(SyscallRequest::Unlink { path: args@[0] }),
        id == SYSCALL_CHDIR ==> r == Some(SyscallRequest::Chdir { path: args@[0] }),
        id == SYSCALL_OPENAT ==> r == Some(SyscallRequest::Open { path: args@[0], flags: args@[1] as u32 }),
        id == SYSCALL_CLOSE ==> r == Some(SyscallRequest::Close { fd: args@[0] }),
        id == SYSCALL_PIPE ==> r == Some(SyscallRequest::Pipe { pipe: args@[0] }),
        id == SYSCALL_READ ==> r == Some(SyscallRequest::Read { fd: args@[0], buf: args@[1], len: args@[2] }),
        id == SYSCALL_WRITE ==> r == Some(SyscallRequest::Write { fd: args@[0], buf: args@[1], len: args@[2] }),
        id == SYSCALL_EXIT ==> r == Some(SyscallRequest::Exit { exit_code: args@[0] as i32 }),
        id == SYSCALL_YIELD ==> r == Some(SyscallRequest::Yield),
        id == SYSCALL_GET_TIME ==> r == Some(SyscallRequest::GetTime),
        id == SYSCALL_SBRK ==> r == Some(SyscallRequest::Sbrk { size: args@[0] as i32 }),
        id == SYSCALL_MMAP ==> r == Some(SyscallRequest::Mmap { start: args@[0], len: args@[1], prot: args@[2] }),
        id == SYSCALL_MUNMAP ==> r == Some(SyscallRequest::Munmap { start: args@[0], len: args@[1] }),
        id == SYSCALL_FORK ==> r == Some(SyscallRequest::Fork),
        id == SYSCALL_EXEC ==> r == Some(SyscallRequest::Exec { path: args@[0], args: args@[1] }),
        id == SYSCALL_WAITPID ==> r == Some(SyscallRequest::Waitpid { pid: args@[0] as isize, exit_code_ptr: args@[1] }),
        id == SYSCALL_THREAD_CREATE ==> r == Some(SyscallRequest::ThreadCreate { entry: args@[0], arg: args@[1] }),
        id == SYSCALL_WAITTID ==> r == Some(SyscallRequest::Waittid { tid: args@[0] }),
        id == SYSCALL_GETTID ==> r == Some(SyscallRequest::Gettid),
        id == SYSCALL_MUTEX_CREATE ==> r == Some(SyscallRequest::MutexCreate { blocking: args@[0] != 0 }),
        id == SYSCALL_MUTEX_LOCK ==> r == Some(SyscallRequest::MutexLock { id: args@[0] }),
        id == SYSCALL_MUTEX_UNLOCK ==> r == Some(SyscallRequest::MutexUnlock { id: args@[0] }),
        id == SYSCALL_SEMAPHORE_CREATE ==> r == Some(SyscallRequest::SemaphoreCreate { count: args@[0] }),
        id == SYSCALL_SEMAPHORE_UP ==> r == Some(SyscallRequest::SemaphoreUp { id: args@[0] }),
        id == SYSCALL_SEMAPHORE_DOWN ==> r == Some(SyscallRequest::SemaphoreDown { id: args@[0] }),
{
    let a = args[0];
    let b = args[1];
    let c = args[2];
    if id == SYSCALL_GETCWD {
        Some(SyscallRequest::Getcwd { buf: a, len: b })
    } else if id == SYSCALL_DUP {
        Some(SyscallRequest::Dup { fd: a })
    } else if id == SYSCALL_UNLINKAT {
        Some(SyscallRequest::Unlink { path: a })
    } else if id == SYSCALL_CHDIR {
        Some(SyscallRequest::Chdir { path: a })
    } else if id == SYSCALL_OPENAT {
        Some(SyscallRequest::Open { path: a, flags: #[verifier::truncate] (b as u32) })
    } else if id == SYSCALL_CLOSE {
        Some(SyscallRequest::Close { fd: a })
    } else if id == SYSCALL_PIPE {
        Some(SyscallRequest::Pipe { pipe: a })
    } else if id == SYSCALL_READ {
        Some(SyscallRequest::Read { fd: a, buf: b, len: c })
    } else if id == SYSCALL_WRITE {
        Some(SyscallRequest::Write { fd: a, buf: b, len: c })
    } else if id == SYSCALL_EXIT {
        Some(SyscallRequest::Exit { exit_code: #[verifier::truncate] (a as i32) })
    } else if id == SYSCALL_YIELD {
        Some(SyscallRequest::Yield)
    } else if id == SYSCALL_GET_TIME {
        Some(SyscallRequest::GetTime)
    } else if id == SYSCALL_SBRK {
        Some(SyscallRequest::Sbrk { size: #[verifier::truncate] (a as i32) })
    } else if id == SYSCALL_MMAP {
        Some(SyscallRequest::Mmap { start: a, len: b, prot: c })
    } else if id == SYSCALL_MUNMAP {
        Some(SyscallRequest::Munmap { start: a, len: b })
    } else if id == SYSCALL_FORK {
        Some(SyscallRequest::Fork)
    } else if id == SYSCALL_EXEC {
        Some(SyscallRequest::Exec { path: a, args: b })
    } else if id == SYSCALL_WAITPID {
        Some(SyscallRequest::Waitpid { pid: #[verifier::truncate] (a as isize), exit_code_ptr: b })
    } else if id == SYSCALL_THREAD_CREATE {
        Some(SyscallRequest::ThreadCreate { entry: a, arg: b })
    } else if id == SYSCALL_WAITTID {
        Some(SyscallRequest::Waittid { tid: a })
    } else if id == SYSCALL_GETTID {
        Some(SyscallRequest::Gettid)
    } else if id == SYSCALL_MUTEX_CREATE {
        Some(SyscallRequest::MutexCreate { blocking: a != 0 })
    } else if id == SYSCALL_MUTEX_LOCK {
        Some(SyscallRequest::MutexLock { id: a })
    } else if id == SYSCALL_MUTEX_UNLOCK {
        Some(SyscallRequest::MutexUnlock { id: a })
    } else if id == SYSCALL_SEMAPHORE_CREATE {
        Some(SyscallRequest::SemaphoreCreate { count: a })
    } else if id == SYSCALL_SEMAPHORE_UP {
        Some(SyscallRequest::SemaphoreUp { id: a })
    } else if id == SYSCALL_SEMAPHORE_DOWN {
        Some(SyscallRequest::SemaphoreDown { id: a })
    } else {
        None
    }
}

} // verus!
