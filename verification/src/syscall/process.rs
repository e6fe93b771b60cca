//! Process system calls.
use vstd::prelude::*;
use crate::manager::{ProcessTable, pid2process, insert_into_pid2process};
use crate::page_table::{PhysMem, walk};
use crate::signal::{SignalFlags, SIGNAL_MASK};
use crate::task::{ProcessControlBlock, ProcessControlBlockInner, ChildRecord};
use crate::user_mem::{token_root, try_translated_refmut, user_storable, user_pa, le_bytes, store_le, backed};
use crate::page_table::{PageTable, UserBuffer, user_byte, range_mapped, lemma_ppn_bound};
use crate::addr::{VirtAddr, page_floor, page_ceil};
use crate::error::KernelError;
use crate::lifecycle::{ExitAction, exit_current_and_run_next, suspend_current_and_run_next, threads_ok};
use crate::manager::TaskManager;
use crate::mem_set::first_at;
use crate::pid::IDLE_PID;
use crate::task::{ThreadControlBlock, TaskStatus, forked_from, ustack_page};
use crate::pid::{RecycleAllocator, KernelStack, next_alloc, kstack_slot};
use crate::mem_set::{MapType, trampoline_vpn, total_pages};
use crate::page_table::same_slot;
use crate::trap::TrapContext;
use crate::config::{TRAMPOLINE, KERNEL_STACK_SIZE};
use crate::timer::TimerCondVar;
use crate::syscall::fs::buffer_ok;
use vstd::string::StringSliceAdditionalSpecFns;
use crate::fs::{RootInode, OSInode, tail_from};
use crate::user_mem::{cstr_at, argv_from, string_views, read_cstr, read_argv};
use crate::args::{args_fit, arg_bytes, args_fit_check};
use crate::task::{exec_image, tid_fits, process_loadable};
use vstd::utf8::encode_utf8;

verus! {

/// Send the signals `signal` to process `pid`: `0`, or `-1` when no such process is
/// found or a signal bit is unknown. The calling process is `current`; the others are
/// in `table`.
pub fn sys_kill(table: &mut ProcessTable, current: &mut ProcessControlBlock, pid: usize, signal: u32) -> (r: isize)
    ensures
        final(current).pid == old(current).pid,
        ({
            let known = signal & !SIGNAL_MASK == 0;
            if known && pid == old(current).pid.0 {
                &&& r == 0
                &&& final(current).inner.signals.bits == old(current).inner.signals.bits | signal
                &&& final(current).inner.fd_table@ == old(current).inner.fd_table@
                &&& final(current).inner.memory_set == old(current).inner.memory_set
                &&& final(table)@ == old(table)@
            } else if known && old(table)@.contains_key(pid) {
                let p = old(table)@[pid];
                &&& r == 0
                &&& *final(current) == *old(current)
                &&& final(table)@.dom() == old(table)@.dom()
                &&& forall|q: usize| q != pid && old(table)@.contains_key(q) ==> #[trigger] final(table)@[q] == old(table)@[q]
                &&& final(table)@[pid].pid == p.pid
                &&& final(table)@[pid].inner.signals.bits == p.inner.signals.bits | signal
                &&& final(table)@[pid].inner.fd_table@ == p.inner.fd_table@
                &&& final(table)@[pid].inner.memory_set == p.inner.memory_set
            } else {
                r == -1 && *final(current) == *old(current) && final(table)@ == old(table)@
            }
        }),
{
    let flag = match SignalFlags::from_bits(signal) {
        Some(flag) => flag,
        None => {
            return -1;
        },
    };
    if pid == current.pid.0 {
        current.inner_exclusive_access().signals.insert(flag);
        return 0;
    }
    match table.procs.remove(&pid) {
        Some(mut process) => {
            process.inner_exclusive_access().signals.insert(flag);
            table.procs.insert(pid, process);
            proof {
                assert(table@.dom() =~= old(table)@.dom());
            }
            0
        },
        None => -1,
    }
}

/// Whether child record `c` is one that a wait for `pid` (`-1` for any child) accepts.
pub open spec fn wanted(c: ChildRecord, pid: isize) -> bool {
    pid == -1 || pid as usize == c.pid
}

/// Whether `i` is the first child in `s` that has exited and that a wait for `pid` accepts.
pub open spec fn first_zombie(s: Seq<ChildRecord>, pid: isize, i: int) -> bool {
    &&& 0 <= i < s.len()
    &&& s[i].is_zombie && wanted(s[i], pid)
    &&& forall|j: int| 0 <= j < i ==> !(#[trigger] s[j].is_zombie && wanted(s[j], pid))
}

/// Reap a child of the calling process: `pid` names it, or `-1` any child. `-1` when no
/// child is accepted; `-2` while none of them has exited; otherwise the first child
/// that has exited leaves the list, its exit code is stored as a 4-byte word at user
/// address `exit_code_ptr`, and its pid is returned, or `-1` when that word's page is
/// not mapped.
pub fn sys_waitpid(current: &mut ProcessControlBlock, mem: &mut PhysMem, pid: isize, exit_code_ptr: usize) -> (r: isize)
    requires
        old(current).inner.wf(old(mem)),
        old(current).inner.children@.len() < isize::MAX,
        forall|i: int| 0 <= i < old(current).inner.children@.len() ==> (#[trigger] old(current).inner.children@[i]).pid
            <= isize::MAX,
        walk(old(mem), old(current).inner.memory_set.root(), exit_code_ptr as int / 4096) is Some ==> user_storable(
            old(mem),
            old(current).inner.memory_set.root(),
            exit_code_ptr as int,
            4,
        ),
    ensures
        final(current).inner.wf(final(mem)),
        final(current).pid == old(current).pid,
        final(current).inner.memory_set == old(current).inner.memory_set,
        ({
            let s = old(current).inner.children@;
            let rt = old(current).inner.memory_set.root();
            if !exists|i: int| 0 <= i < s.len() && #[trigger] wanted(s[i], pid) {
                r == -1 && *final(current) == *old(current) && *final(mem) == *old(mem)
            } else if !exists|i: int| #[trigger] first_zombie(s, pid, i) {
                r == -2 && *final(current) == *old(current) && *final(mem) == *old(mem)
            } else {
                exists|i: int|
                    {
                        &&& #[trigger] first_zombie(s, pid, i)
                        &&& final(current).inner.children@ == s.remove(i)
                        &&& if walk(old(mem), rt, exit_code_ptr as int / 4096) is Some {
                            &&& r == s[i].pid
                            &&& forall|k: int| 0 <= k < 4 ==> #[trigger] final(mem).byte(user_pa(old(mem), rt, exit_code_ptr as int) + k)
                                == le_bytes((#[verifier::truncate] (s[i].exit_code as u32)) as u64, 4)[k]
                        } else {
                            r == -1 && *final(mem) == *old(mem)
                        }
                    }
            }
        }),
{
    let inner = current.inner_exclusive_access();
    let ghost s = inner.children@;
    let mut any = false;
    let mut i: usize = 0;
    while i < inner.children.len()
        invariant
            s == inner.children@,
            0 <= i <= s.len(),
            any == exists|j: int| 0 <= j < i && #[trigger] wanted(s[j], pid),
        decreases s.len() - i,
    {
        let w = pid == -1 || #[verifier::truncate] (pid as usize) == inner.children[i].pid;
        proof {
            assert(w == wanted(s[i as int], pid));
        }
        if w {
            any = true;
        }
        i = i + 1;
    }
    if !any {
        return -1;
    }
    let mut found: Option<usize> = None;
    let mut k: usize = 0;
    while k < inner.children.len()
        invariant
            s == inner.children@,
            0 <= k <= s.len(),
            found is None ==> forall|j: int| 0 <= j < k ==> !(#[trigger] s[j].is_zombie && wanted(s[j], pid)),
            found matches Some(x) ==> first_zombie(s, pid, x as int),
        decreases s.len() - k,
    {
        if found.is_none() {
            let c = inner.children[k];
            if c.is_zombie && (pid == -1 || #[verifier::truncate] (pid as usize) == c.pid) {
                found = Some(k);
            }
        }
        k = k + 1;
    }
    let idx = match found {
        Some(idx) => idx,
        None => {
            proof {
                assert forall|x: int| !#[trigger] first_zombie(s, pid, x) by {}
            }
            return -2;
        },
    };
    let child = inner.children.remove(idx);
    let token = inner.get_user_token();
    proof {
        inner.memory_set.lemma_token_root(mem);
        assert(token_root(token) == inner.memory_set.root());
    }
    let ghost mem0 = *mem;
    match try_translated_refmut(mem, token, exit_code_ptr) {
        Some(pa) => {
            store_le(mem, pa.0, (#[verifier::truncate] (child.exit_code as u32)) as u64, 4);
            proof {
                inner.memory_set.lemma_wf_bytes(&mem0, mem);
            }
            child.pid as isize
        },
        None => -1,
    }
}

/// End the calling thread `tid` with `exit_code`; what the scheduler does next.
pub fn sys_exit(
    current: &mut ProcessControlBlock,
    mem: &mut PhysMem,
    table: &mut ProcessTable,
    manager: &mut TaskManager,
    timers: &mut Vec<TimerCondVar>,
    keys: &Vec<usize>,
    tid: usize,
    exit_code: i32,
) -> (r: ExitAction)
    requires
        old(current).inner.wf(old(mem)),
        threads_ok(&old(current).inner),
        keys@.len() >= old(current).inner.tasks@.len(),
        tid < old(current).inner.tasks@.len(),
        old(current).inner.tasks@[tid as int] is Some,
        old(current).inner.parent != Some(old(current).pid.0),
        forall|j: int| 0 <= j < old(current).inner.children@.len() ==> (#[trigger] old(current).inner.children@[j]).pid
            != old(current).pid.0 && old(current).inner.children@[j].pid != IDLE_PID,
    ensures
        final(current).inner.wf(final(mem)),
        final(current).inner.tasks@[tid as int] matches Some(t) && t.exit_code == Some(exit_code),
        r == if tid == 0 && old(current).pid.0 == IDLE_PID { ExitAction::Shutdown(exit_code != 0) } else { ExitAction::Schedule },
        tid == 0 && old(current).pid.0 != IDLE_PID ==> final(current).inner.is_zombie && final(current).inner.exit_code
            == exit_code && !final(table)@.contains_key(old(current).pid.0),
{
    exit_current_and_run_next(current, mem, table, manager, timers, keys, tid, exit_code)
}

/// What a yield leads to.
#[derive(Clone, Copy, Debug, PartialEq, Eq, Structural)]
pub enum YieldAction {
    /// The first process has no child left: shut the machine down.
    Shutdown,
    /// The thread went back to the ready queue; the call returns `0` when it runs again.
    Yielded,
}

/// Give up the processor: the calling thread goes back to the ready queue under `key`,
/// unless the first process calls with no child left, which ends the system.
pub fn sys_yield(current: &ProcessControlBlock, thread: &mut ThreadControlBlock, manager: &mut TaskManager, key: usize) -> (r: YieldAction)
    ensures
        current.pid.0 == IDLE_PID && current.inner.children@.len() == 0 ==> r == YieldAction::Shutdown && *final(thread)
            == *old(thread) && final(manager).ready() == old(manager).ready(),
        !(current.pid.0 == IDLE_PID && current.inner.children@.len() == 0) ==> {
            &&& r == YieldAction::Yielded
            &&& *final(thread) == (ThreadControlBlock { task_status: crate::task::TaskStatus::Ready, ..*old(thread) })
            &&& final(manager).ready() == old(manager).ready().push(key)
        },
        final(manager).stopped() == old(manager).stopped(),
{
    if current.pid.0 == IDLE_PID && current.inner.children.len() == 0 {
        return YieldAction::Shutdown;
    }
    suspend_current_and_run_next(thread, manager, key);
    YieldAction::Yielded
}

/// The time in milliseconds, `now_ms` being the clock's reading.
pub fn sys_get_time(now_ms: usize) -> (r: isize)
    ensures
        r == now_ms as isize,
{
    #[verifier::truncate] (now_ms as isize)
}

/// Move the end of the calling process's heap by `size` bytes: the old end, or `-1`
/// when the heap would shrink below its bottom or has no area.
pub fn sys_sbrk(process: &mut ProcessControlBlock, mem: &mut PhysMem, size: i32) -> (r: isize)
    requires
        old(process).inner.wf(old(mem)),
        old(process).inner.brk_target(size) <= isize::MAX,
        old(process).inner.brk_ready(old(mem), size),
    ensures
        final(process).inner.wf(final(mem)),
        final(process).pid == old(process).pid,
        ({
            let inner = old(process).inner;
            let nb = inner.brk_target(size);
            if nb < inner.heap_bottom || first_at(inner.memory_set.views(), page_floor(inner.heap_bottom as int)) is None {
                r == -1 && *final(process) == *old(process)
            } else {
                let v = inner.memory_set.views();
                let i = first_at(v, page_floor(inner.heap_bottom as int))->0;
                &&& r == inner.program_brk
                &&& final(process).inner.program_brk == nb
                &&& final(process).inner.memory_set.views() == v.update(i, (v[i].0, page_ceil(nb) as usize, v[i].2, v[i].3))
            }
        }),
        final(process).inner.heap_bottom == old(process).inner.heap_bottom,
{
    match crate::processor::change_program_brk(process, mem, size) {
        Ok(old_brk) => old_brk as isize,
        Err(_) => -1,
    }
}

/// Change the working directory of the calling process to the NUL-terminated path at
/// user address `path`: `0`, or `-1` when `path` is null, cannot be read, or names none
/// of the directories `dirs` of the file system.
pub fn sys_chdir(process: &mut ProcessControlBlock, mem: &PhysMem, dirs: &Vec<String>, path: usize) -> (r: isize)
    requires
        old(process).inner.memory_set.wf(mem),
    ensures
        final(process).pid == old(process).pid,
        ({
            let rt = old(process).inner.memory_set.root();
            match crate::user_mem::cstr_at(mem, rt, path as int) {
                Some(name) => if path != 0 && exists|i: int| 0 <= i < dirs@.len() && #[trigger] dirs@[i]@ == name {
                    r == 0 && final(process).inner.cwd@ == name && *final(process) == (ProcessControlBlock {
                        inner: ProcessControlBlockInner { cwd: final(process).inner.cwd, ..old(process).inner },
                        ..*old(process)
                    })
                } else {
                    r == -1 && *final(process) == *old(process)
                },
                None => r == -1 && *final(process) == *old(process),
            }
        }),
{
    if path == 0 {
        return -1;
    }
    let token = process.inner.get_user_token();
    proof {
        process.inner.memory_set.lemma_token_root(mem);
        assert(token_root(token) == process.inner.memory_set.root());
    }
    let name = match crate::user_mem::try_translated_str(mem, token, path) {
        Some(name) => name,
        None => {
            proof {
                let rt = process.inner.memory_set.root();
                assert(!exists|n: int| #[trigger] crate::page_table::user_cstr(mem, rt, path as int, n));
            }
            return -1;
        },
    };
    proof {
        let rt = process.inner.memory_set.root();
        let n = choose|n: int| #[trigger] crate::page_table::user_cstr(mem, rt, path as int, n);
        let m = choose|m: int| #[trigger] crate::page_table::user_cstr(mem, rt, path as int, m) && name@ == Seq::new(
            m as nat,
            |j: int| (user_byte(mem, rt, path as int + j).unwrap() as char),
        );
        crate::user_mem::lemma_cstr_unique(mem, rt, path as int, n, m);
    }
    let ghost rt = process.inner.memory_set.root();
    proof {
        assert(crate::user_mem::cstr_at(mem, rt, path as int) == Some(name@));
    }
    let mut i: usize = 0;
    while i < dirs.len()
        invariant
            0 <= i <= dirs@.len(),
            *process == *old(process),
            path != 0,
            rt == old(process).inner.memory_set.root(),
            crate::user_mem::cstr_at(mem, rt, path as int) == Some(name@),
            forall|j: int| 0 <= j < i ==> #[trigger] dirs@[j]@ != name@,
        decreases dirs@.len() - i,
    {
        if dirs[i] == name {
            let ghost nm = name@;
            proof {
                assert(dirs@[i as int]@ == nm);
                assert(exists|j: int| 0 <= j < dirs@.len() && #[trigger] dirs@[j]@ == nm);
            }
            process.inner_exclusive_access().cwd = name;
            proof {
                assert(crate::user_mem::cstr_at(mem, rt, path as int) == Some(nm));
                assert(process.inner.cwd@ == nm);
            }
            return 0;
        }
        i = i + 1;
    }
    -1
}

/// Whether the pages of the user bytes `[lo, hi)` map to pairwise different frames.
pub open spec fn frames_distinct(mem: &PhysMem, root: int, lo: int, hi: int) -> bool {
    forall|u: int, w: int|
        page_floor(lo) <= u < page_ceil(hi) && page_floor(lo) <= w < page_ceil(hi) && u != w ==> (#[trigger] walk(
            mem,
            root,
            u,
        )).unwrap().spec_ppn() != (#[trigger] walk(mem, root, w)).unwrap().spec_ppn()
}

/// Copy the working directory of the calling process, NUL-terminated, to the `len`
/// user bytes at `buf`: its length with the NUL, or `-1` when `buf` is null, `len` is
/// zero or too small, or the bytes are not all mapped. Only the bytes that the copy
/// writes change; when the pages of the buffer map to different frames, the user bytes
/// read back as the directory and its NUL.
pub fn sys_getcwd(process: &ProcessControlBlock, mem: &mut PhysMem, buf: usize, len: usize) -> (r: isize)
    requires
        process.inner.memory_set.wf(old(mem)),
        backed(old(mem), process.inner.memory_set.root(), buf as int, len as int),
        vstd::utf8::encode_utf8(process.inner.cwd@).len() < isize::MAX,
    ensures
        process.inner.memory_set.wf(final(mem)),
        final(mem).nframes() == old(mem).nframes(),
        ({
            let rt = process.inner.memory_set.root();
            let cwd = vstd::utf8::encode_utf8(process.inner.cwd@);
            if buf == 0 || len == 0 || cwd.len() + 1 > len || !buffer_ok(old(mem), rt, buf, len) {
                r == -1 && *final(mem) == *old(mem)
            } else {
                &&& r == cwd.len() + 1
                &&& frames_distinct(old(mem), rt, buf as int, buf + len) ==> forall|k: int|
                    0 <= k <= cwd.len() ==> #[trigger] user_byte(final(mem), rt, buf + k) == Some(
                        if k < cwd.len() { cwd[k] } else { 0u8 },
                    )
                &&& forall|x: int|
                    (forall|k: int| 0 <= k <= cwd.len() ==> x != #[trigger] user_pa(old(mem), rt, buf + k))
                        ==> #[trigger] final(mem).byte(x) == old(mem).byte(x)
            }
        }),
{
    if buf == 0 || len == 0 {
        return -1;
    }
    let bytes = process.inner.cwd.as_str().as_bytes();
    if bytes.len() >= len {
        return -1;
    }
    proof {
        assert(bytes@ == vstd::utf8::encode_utf8(process.inner.cwd@));
    }
    let token = process.inner.get_user_token();
    proof {
        process.inner.memory_set.lemma_token_root(mem);
        assert(token_root(token) == process.inner.memory_set.root());
    }
    let user_buf = match UserBuffer::try_from_raw_parts(mem, token, buf, len) {
        Some(b) => b,
        None => {
            return -1;
        },
    };
    let page_table = PageTable::from_token(token);
    let ghost rt = process.inner.memory_set.root();
    let ghost mem0 = *mem;
    let n = bytes.len();
    let mut idx: usize = 0;
    while idx <= n
        invariant
            0 <= idx <= n + 1,
            n == bytes@.len(),
            n + 1 <= len,
            buf + len <= usize::MAX - 4095,
            page_table.root() == rt,
            rt == process.inner.memory_set.root(),
            range_mapped(&mem0, rt, buf as int, buf + len),
            backed(&mem0, rt, buf as int, len as int),
            mem.wf(),
            mem.nframes() == mem0.nframes(),
            forall|f: int, q: int| #[trigger] mem.pte(f, q) == mem0.pte(f, q),
            forall|v: int| #[trigger] walk(mem, rt, v) == walk(&mem0, rt, v),
            frames_distinct(&mem0, rt, buf as int, buf + len) ==> forall|k: int|
                0 <= k < idx ==> #[trigger] user_byte(mem, rt, buf + k) == Some(if k < n { bytes@[k] } else { 0u8 }),
            forall|x: int|
                (forall|k: int| 0 <= k < idx ==> x != #[trigger] user_pa(&mem0, rt, buf + k)) ==> #[trigger] mem.byte(x)
                    == mem0.byte(x),
        decreases n + 1 - idx,
    {
        let va = buf + idx;
        proof {
            assert(page_floor(buf as int) <= va as int / 4096 < page_ceil(buf + len)) by (nonlinear_arith)
                requires
                    va == buf + idx,
                    idx < len,
                    page_floor(buf as int) == buf / 4096,
                    page_ceil(buf + len) == (buf + len + 4095) / 4096,
            ;
            assert(walk(mem, rt, va as int / 4096).is_some());
            lemma_ppn_bound(walk(mem, rt, va as int / 4096).unwrap());
        }
        let pa = page_table.translate_va(mem, VirtAddr(va)).unwrap();
        let b: u8 = if idx < n { bytes[idx] } else { 0 };
        proof {
            let p = walk(&mem0, rt, va as int / 4096).unwrap().spec_ppn();
            assert(p < mem.nframes());
            mem.lemma_frames_bound();
            assert(p * 4096 + va % 4096 < mem.nframes() * 4096) by (nonlinear_arith)
                requires
                    p + 1 <= mem.nframes(),
                    0 <= va % 4096 < 4096,
            ;
            assert(mem.nframes() * 4096 <= usize::MAX) by (nonlinear_arith)
                requires
                    mem.nframes() <= mem.frame_limit(),
                    mem.frame_limit() <= usize::MAX / 4096,
            ;
        }
        let ghost before = *mem;
        mem.write_byte(pa.0, b);
        proof {
            assert forall|v: int| #[trigger] walk(mem, rt, v) == walk(&mem0, rt, v) by {
                reveal_with_fuel(crate::page_table::walk_from, 4);
            }
            assert(pa.0 as int == user_pa(&mem0, rt, buf + idx));
            assert forall|x: int|
                (forall|k: int| 0 <= k < idx + 1 ==> x != #[trigger] user_pa(&mem0, rt, buf + k)) implies #[trigger] mem.byte(x)
                    == mem0.byte(x) by {
                assert(x != user_pa(&mem0, rt, buf + idx));
                assert forall|k: int| 0 <= k < idx implies x != #[trigger] user_pa(&mem0, rt, buf + k) by {}
                assert(before.byte(x) == mem0.byte(x));
            }
            if frames_distinct(&mem0, rt, buf as int, buf + len) {
                assert forall|k: int| 0 <= k < idx + 1 implies #[trigger] user_byte(mem, rt, buf + k) == Some(
                    if k < n { bytes@[k] } else { 0u8 },
                ) by {
                    let vk = buf + k;
                    assert(page_floor(buf as int) <= vk / 4096 < page_ceil(buf + len)) by (nonlinear_arith)
                        requires
                            vk == buf + k,
                            0 <= k < len,
                            page_floor(buf as int) == buf / 4096,
                            page_ceil(buf + len) == (buf + len + 4095) / 4096,
                    ;
                    let pk = walk(&mem0, rt, vk / 4096).unwrap().spec_ppn();
                    let pv = walk(&mem0, rt, va as int / 4096).unwrap().spec_ppn();
                    lemma_ppn_bound(walk(&mem0, rt, vk / 4096).unwrap());
                    if k == idx {
                        assert(vk == va);
                        assert(pa.0 == ((pv * 4096 + va as int % 4096) as usize));
                        assert(mem.byte(pa.0 as int) == b);
                    }
                    if k < idx {
                        if vk / 4096 != va as int / 4096 {
                            assert(pk != pv);
                            assert(pk * 4096 + vk % 4096 != pv * 4096 + va % 4096) by (nonlinear_arith)
                                requires
                                    pk != pv,
                                    0 <= vk % 4096 < 4096,
                                    0 <= va % 4096 < 4096,
                            ;
                        } else {
                            assert(vk % 4096 != va % 4096) by (nonlinear_arith)
                                requires
                                    vk / 4096 == va / 4096,
                                    vk != va,
                            ;
                        }
                        assert(pk < mem0.nframes());
                        assert(pk * 4096 + vk % 4096 < mem0.nframes() * 4096) by (nonlinear_arith)
                            requires
                                pk + 1 <= mem0.nframes(),
                                0 <= vk % 4096 < 4096,
                        ;
                        assert((pk * 4096 + vk % 4096) as usize as int == pk * 4096 + vk % 4096);
                        assert((pv * 4096 + va % 4096) as usize as int == pv * 4096 + va % 4096);
                        assert(before.byte((pk * 4096 + vk % 4096) as usize as int) == mem.byte(
                            (pk * 4096 + vk % 4096) as usize as int,
                        ));
                        assert(walk(&before, rt, vk / 4096) == walk(&mem0, rt, vk / 4096));
                        assert(user_byte(&before, rt, buf + k) == Some(if k < n { bytes@[k] } else { 0u8 }));
                        assert(user_byte(mem, rt, buf + k) == user_byte(&before, rt, buf + k));
                    }
                }
            }
        }
        idx = idx + 1;
    }
    proof {
        process.inner.memory_set.lemma_wf_bytes(&mem0, mem);
    }
    (n + 1) as isize
}

/// Fork the calling single-threaded process: the child, under the next pid of `pids`,
/// is a copy made by [`ProcessControlBlock::fork`] whose thread returns 0 from this
/// call; it is put in `table` and its thread, under `thread_key`, at the end of the
/// ready queue. The caller gets the child's pid.
pub fn sys_fork(
    current: &mut ProcessControlBlock,
    mem: &mut PhysMem,
    pids: &mut RecycleAllocator,
    table: &mut ProcessTable,
    manager: &mut TaskManager,
    kernel_stack: KernelStack,
    thread_key: usize,
    strampoline: usize,
) -> (r: isize)
    requires
        old(current).inner.wf(old(mem)),
        old(current).inner.tasks@.len() == 1,
        old(current).inner.tasks@[0] is Some,
        forall|i: int| 0 <= i < old(current).inner.memory_set.views().len()
            ==> (#[trigger] old(current).inner.memory_set.views()[i]).2 == MapType::Framed,
        forall|i: int, u: int|
            0 <= i < old(current).inner.memory_set.views().len() && (#[trigger] old(current).inner.memory_set.views()[i]).0
                <= u < old(current).inner.memory_set.views()[i].1 ==> !#[trigger] same_slot(u, trampoline_vpn()),
        exists|i: int|
            0 <= i < old(current).inner.memory_set.views().len() && (#[trigger] old(current).inner.memory_set.views()[i]).0
                <= ustack_page(0) + 1 < old(current).inner.memory_set.views()[i].1,
        old(mem).free_frames() >= 3 + 3 * total_pages(old(current).inner.memory_set.views()),
        old(pids).wf(),
        old(pids).released().len() == 0 ==> old(pids).next_fresh() < usize::MAX,
        kernel_stack.0 * kstack_slot() + KERNEL_STACK_SIZE <= TRAMPOLINE,
    ensures
        ({
            let pid = next_alloc(*old(pids)) as usize;
            let child = final(table)@[pid];
            let cx = old(current).inner.tasks@[0]->0.trap_cx;
            let th = child.inner.tasks@[0]->0;
            &&& r == pid as isize
            &&& final(table)@ == old(table)@.insert(pid, child)
            &&& child.pid.0 == pid
            &&& forked_from(&old(current).inner, old(current).pid.0, old(mem), &child, final(mem), kernel_stack, strampoline)
            &&& th.trap_cx.x@ == cx.x@.update(10, 0usize)
            &&& th.trap_cx == (TrapContext {
                x: th.trap_cx.x,
                kernel_sp: (TRAMPOLINE - kernel_stack.0 * kstack_slot()) as usize,
                ..cx
            })
            &&& final(current).inner.children@ == old(current).inner.children@.push(
                ChildRecord { pid, is_zombie: false, exit_code: 0 },
            )
            &&& !old(pids).allocated().contains(pid as int)
            &&& final(pids).allocated() == old(pids).allocated().insert(pid as int)
        }),
        final(current).pid == old(current).pid,
        final(current).inner == (ProcessControlBlockInner { children: final(current).inner.children, ..old(current).inner }),
        final(current).inner.wf(final(mem)),
        final(pids).wf(),
        final(manager).ready() == old(manager).ready().push(thread_key),
        final(manager).stopped() == old(manager).stopped(),
{
    let mut child = current.fork(mem, pids, kernel_stack, strampoline);
    let new_pid = child.pid.0;
    let ghost c0 = child;
    let mut thread = child.inner.tasks.pop().unwrap().unwrap();
    thread.trap_cx.x[10] = 0;
    child.inner.tasks.push(Some(thread));
    proof {
        assert(child.inner.tasks@ =~= c0.inner.tasks@.update(0, Some(thread)));
    }
    insert_into_pid2process(table, new_pid, child);
    manager.add(thread_key);
    #[verifier::truncate] (new_pid as isize)
}

/// The path and the arguments of an `exec` call with the path at user address `path`
/// and the argument array at `args` (no array when `args` is null): the arguments as
/// read, or the path alone when there are none; `None` when the path or the array
/// cannot be read.
pub open spec fn exec_request(mem: &PhysMem, root: int, path: int, args: int) -> Option<(Seq<char>, Seq<Seq<char>>)> {
    match cstr_at(mem, root, path) {
        None => None,
        Some(p) => match (if args == 0 {
            Some(Seq::<Seq<char>>::empty())
        } else {
            argv_from(mem, root, args)
        }) {
            None => None,
            Some(a) => Some((p, if a.len() == 0 { seq![p] } else { a })),
        },
    }
}

/// The arguments an `exec` passes are never empty: with no argument array, or an array
/// that names no string, they are the path alone; otherwise they are the strings the
/// array names, in order.
pub proof fn lemma_exec_args(mem: &PhysMem, root: int, path: int, args: int)
    ensures
        exec_request(mem, root, path, args) matches Some(q) ==> q.1.len() >= 1,
        cstr_at(mem, root, path) is None ==> exec_request(mem, root, path, args) is None,
        cstr_at(mem, root, path) matches Some(p) ==> {
            &&& args == 0 ==> exec_request(mem, root, path, args) == Some((p, seq![p]))
            &&& args != 0 && argv_from(mem, root, args) == Some(Seq::<Seq<char>>::empty()) ==> exec_request(
                mem,
                root,
                path,
                args,
            ) == Some((p, seq![p]))
            &&& args != 0 && argv_from(mem, root, args) is Some && argv_from(mem, root, args).unwrap().len() > 0
                ==> exec_request(mem, root, path, args) == Some((p, argv_from(mem, root, args).unwrap()))
            &&& args != 0 && argv_from(mem, root, args) is None ==> exec_request(mem, root, path, args) is None
        },
{
}

/// The bytes of each string, as UTF-8.
pub open spec fn utf8_all(a: Seq<Seq<char>>) -> Seq<Seq<u8>> {
    a.map_values(|c: Seq<char>| encode_utf8(c))
}

/// Whether `exec` with the request `req` goes ahead in process `p` with memory `mem` and
/// file system `root`: the request can be read, the file exists, the arguments fit in
/// a stack page and a process can be made of the file's program.
pub open spec fn exec_goes_ahead(
    p: &ProcessControlBlock,
    mem: &PhysMem,
    root: &RootInode,
    req: Option<(Seq<char>, Seq<Seq<char>>)>,
) -> bool {
    &&& req is Some
    &&& root.lookup(req.unwrap().0) is Some
    &&& args_fit(utf8_all(req.unwrap().1))
    &&& process_loadable(mem, root.content(root.lookup(req.unwrap().0)->0), p.inner.tasks@[0]->0.res->0.tid as int)
}

/// Run the program of the file whose NUL-terminated name is at user address `path` in
/// the calling single-threaded process, with the arguments that the null-terminated
/// array of string pointers at `args` names (the name alone when there are none): the
/// number of arguments. The process is then what `ProcessControlBlock::exec` makes of
/// it with the file's bytes. `-1`, with nothing changed, when the name or the array
/// cannot be read, no file has that name, the arguments do not fit in the first page
/// of the user stack, or no process can be made of the file's program.
pub fn sys_exec(
    process: &mut ProcessControlBlock,
    mem: &mut PhysMem,
    root: &RootInode,
    path: usize,
    args: usize,
    kernel_token: usize,
    trap_handler: usize,
    sstatus: usize,
    strampoline: usize,
) -> (r: isize)
    requires
        old(process).inner.wf(old(mem)),
        old(process).inner.tasks@.len() == 1,
        old(process).inner.tasks@[0] matches Some(th) && th.res matches Some(res) && tid_fits(res.tid as int),
        old(process).inner.tasks@[0]->0.kernel_stack.0 * kstack_slot() + KERNEL_STACK_SIZE <= TRAMPOLINE,
        root.wf(),
    ensures
        r == -1 || r >= 1,
        ({
            let req = exec_request(old(mem), old(process).inner.memory_set.root(), path as int, args as int);
            if exec_goes_ahead(old(process), old(mem), root, req) {
                &&& r == req.unwrap().1.len()
                &&& exec_image(
                    old(process),
                    old(mem),
                    final(process),
                    final(mem),
                    root.content(root.lookup(req.unwrap().0)->0),
                    utf8_all(req.unwrap().1),
                    kernel_token,
                    trap_handler,
                    sstatus,
                    strampoline,
                )
            } else {
                r == -1 && *final(process) == *old(process) && *final(mem) == *old(mem)
            }
        }),
{
    let ghost rt = process.inner.memory_set.root();
    let ghost req = exec_request(mem, rt, path as int, args as int);
    let token = process.inner.get_user_token();
    proof {
        process.inner.memory_set.lemma_token_root(mem);
    }
    let name = match read_cstr(mem, token, path) {
        Some(s) => s,
        None => {
            return -1;
        },
    };
    let mut args_vec: Vec<String> = if args == 0 {
        Vec::new()
    } else {
        match read_argv(mem, token, args) {
            Some(v) => v,
            None => {
                return -1;
            },
        }
    };
    if args_vec.len() == 0 {
        args_vec.push(name.clone());
    }
    proof {
        assert(string_views(args_vec@) =~= req.unwrap().1);
        assert(arg_bytes(args_vec@) =~= utf8_all(req.unwrap().1));
    }
    let i = match root.find(&name) {
        Some(i) => i,
        None => {
            return -1;
        },
    };
    let mut inode = OSInode::new(true, false, i);
    let data = inode.read_all(root);
    proof {
        let c = root.content(i as int);
        if c.len() > 0 {
            assert(c.subrange(0, c.len() as int) =~= c);
        } else {
            assert(c =~= Seq::<u8>::empty());
        }
        assert(data@ == c);
    }
    if !args_fit_check(&args_vec) {
        return -1;
    }
    let argc = args_vec.len();
    if process.exec(mem, data.as_slice(), &args_vec, kernel_token, trap_handler, sstatus, strampoline) {
        argc as isize
    } else {
        -1
    }
}

} // verus!
