//! The calls into the SBI firmware: which call each service makes, and what its
//! answer means. Making a call is left to the caller.
use vstd::prelude::*;
use crate::addr::{VirtAddr, VirtPageNum};
use crate::config::{MEMORY_END, PAGE_SIZE};
use crate::mem_set::MemorySet;
use crate::page_table::{PhysMem, walk};

verus! {

/// The debug-console extension, `DBCN` in ASCII.
pub const SBI_CONSOLE_DBCN: usize = 0x4442434E;
/// The base extension.
pub const SBI_EXT_BASE: usize = 0x10;
/// The system-reset extension, `SRST` in ASCII.
pub const SBI_EXT_SRST: usize = 0x53525354;
/// The reset function of the system-reset extension.
pub const SBI_SRST_RESET: usize = 0;
/// The timer extension, `TIME` in ASCII.
pub const SBI_EXT_TIME: usize = 0x54494D45;
/// The set-timer function of the timer extension.
pub const SBI_TIME_SET_TIMER: usize = 0;

/// An environment call into the firmware: extension in `a7`, function in `a6`, and
/// the arguments in `a0` to `a2`.
#[derive(Clone, Copy, Debug, PartialEq, Eq, Structural)]
pub struct SbiCall {
    /// The extension id.
    pub extension: usize,
    /// The function id.
    pub function: usize,
    /// The first argument.
    pub arg0: usize,
    /// The second argument.
    pub arg1: usize,
    /// The third argument.
    pub arg2: usize,
}

/// What the firmware answers: an error code, 0 on success, and a value.
#[derive(Clone, Copy, Debug, PartialEq, Eq, Structural)]
pub struct SbiRet {
    /// The error code.
    pub error: usize,
    /// The value.
    pub value: usize,
}

/// The call that asks whether the firmware has extension `extension`.
pub fn probe_extension_call(extension: usize) -> (r: SbiCall)
    ensures
        r == (SbiCall { extension: SBI_EXT_BASE, function: 3, arg0: extension, arg1: 0, arg2: 0 }),
{
    SbiCall { extension: SBI_EXT_BASE, function: 3, arg0: extension, arg1: 0, arg2: 0 }
}

/// Whether the answer to a probe says the extension is there: no error and a
/// non-zero value.
pub fn probe_extension(ret: SbiRet) -> (r: bool)
    ensures
        r == (ret.error == 0 && ret.value != 0),
{
    ret.error == 0 && ret.value != 0
}

/// The call that writes byte `c` to the console.
pub fn console_putchar(c: u8) -> (r: SbiCall)
    ensures
        r == (SbiCall { extension: SBI_CONSOLE_DBCN, function: 2, arg0: c as usize, arg1: 0, arg2: 0 }),
{
    SbiCall { extension: SBI_CONSOLE_DBCN, function: 2, arg0: c as usize, arg1: 0, arg2: 0 }
}

/// The physical address of kernel address `va`: the frame that `va`'s page maps to in
/// `kernel_space`, plus `va`'s offset in its page; `None` when the page is not mapped
/// or the address does not fit in a machine word.
pub fn kernel_va_to_pa(kernel_space: &MemorySet, mem: &PhysMem, va: usize) -> (r: Option<usize>)
    requires
        kernel_space.wf(mem),
    ensures
        match r {
            Some(pa) => walk(mem, kernel_space.root(), va as int / 4096) is Some && pa == walk(
                mem,
                kernel_space.root(),
                va as int / 4096,
            ).unwrap().spec_ppn() * 4096 + va % 4096,
            None => walk(mem, kernel_space.root(), va as int / 4096) is None || walk(mem, kernel_space.root(), va as int / 4096).unwrap().spec_ppn()
                * 4096 + va % 4096 > usize::MAX,
        },
{
    let va = VirtAddr(va);
    let vpn = va.floor();
    let offset = va.page_offset();
    match kernel_space.translate(mem, vpn) {
        Some(pte) => {
            let ppn: u64 = (pte.bits >> 10u64) & crate::page_table::PPN_MASK;
            let limit = (usize::MAX - offset) / PAGE_SIZE;
            if ppn > limit as u64 {
                return None;
            }
            let p = ppn as usize;
            Some(p * PAGE_SIZE + offset)
        },
        None => None,
    }
}

/// The physical address of kernel address `va` through the table rooted at `root`,
/// when `va`'s page is mapped and the address fits in a machine word.
pub open spec fn kernel_pa(mem: &PhysMem, root: int, va: int) -> Option<int> {
    match walk(mem, root, va / 4096) {
        Some(e) => if e.spec_ppn() * 4096 + va % 4096 <= usize::MAX {
            Some(e.spec_ppn() * 4096 + va % 4096)
        } else {
            None
        },
        None => None,
    }
}

/// The call that writes `len` bytes at physical address `pa` to the console.
pub open spec fn write_call(len: int, pa: int) -> SbiCall {
    SbiCall { extension: SBI_CONSOLE_DBCN, function: 0, arg0: len as usize, arg1: pa as usize, arg2: 0 }
}

/// The calls that write the kernel bytes `[s, e)` to the console one page piece at a
/// time, each piece at its physical address; `None` when a piece's page is not mapped.
pub open spec fn putstr_calls(mem: &PhysMem, root: int, s: int, e: int) -> Option<Seq<SbiCall>>
    decreases e - s,
{
    if s >= e {
        Some(Seq::empty())
    } else {
        let chunk = if 4096 - s % 4096 <= e - s {
            4096 - s % 4096
        } else {
            e - s
        };
        match kernel_pa(mem, root, s) {
            Some(pa) => match putstr_calls(mem, root, s + chunk, e) {
                Some(rest) => Some(seq![write_call(chunk, pa)] + rest),
                None => None,
            },
            None => None,
        }
    }
}

/// The calls that write the kernel bytes `[start, start + len)` to the console: one
/// call with the address itself when the bytes end within the kernel's identity
/// mapping of memory, else one call per page piece with its physical address in
/// `kernel_space`. `None` when the end overflows or a piece's page is not mapped.
pub fn console_putstr(kernel_space: &MemorySet, mem: &PhysMem, start: usize, len: usize) -> (r: Option<Vec<SbiCall>>)
    requires
        kernel_space.wf(mem),
    ensures
        start + len > usize::MAX ==> r is None,
        start + len <= usize::MAX && start + len <= MEMORY_END ==> (r matches Some(v) && v@ == seq![
            write_call(len as int, start as int),
        ]),
        start + len <= usize::MAX && start + len > MEMORY_END ==> match putstr_calls(
            mem,
            kernel_space.root(),
            start as int,
            start + len,
        ) {
            Some(calls) => (r matches Some(v) && v@ == calls),
            None => r is None,
        },
{
    let end = match start.checked_add(len) {
        Some(e) => e,
        None => return None,
    };
    if end <= MEMORY_END {
        let mut v = Vec::new();
        v.push(SbiCall { extension: SBI_CONSOLE_DBCN, function: 0, arg0: len, arg1: start, arg2: 0 });
        proof {
            assert(v@ =~= seq![write_call(len as int, start as int)]);
        }
        return Some(v);
    }
    let ghost root = kernel_space.root();
    let mut calls: Vec<SbiCall> = Vec::new();
    let mut cur = start;
    while cur < end
        invariant
            kernel_space.wf(mem),
            root == kernel_space.root(),
            start <= cur <= end,
            end == start + len,
            end > MEMORY_END,
            putstr_calls(mem, root, start as int, end as int) == match putstr_calls(mem, root, cur as int, end as int) {
                Some(rest) => Some(calls@ + rest),
                None => None,
            },
        decreases end - cur,
    {
        let offset = VirtAddr(cur).page_offset();
        let remain = PAGE_SIZE - offset;
        let chunk = if remain <= end - cur {
            remain
        } else {
            end - cur
        };
        let pa = match kernel_va_to_pa(kernel_space, mem, cur) {
            Some(pa) => pa,
            None => {
                proof {
                    assert(kernel_pa(mem, root, cur as int) is None);
                    assert(putstr_calls(mem, root, cur as int, end as int) is None);
                }
                return None;
            },
        };
        let ghost before = calls@;
        calls.push(SbiCall { extension: SBI_CONSOLE_DBCN, function: 0, arg0: chunk, arg1: pa, arg2: 0 });
        proof {
            assert(kernel_pa(mem, root, cur as int) == Some(pa as int));
            let rest = putstr_calls(mem, root, cur + chunk, end as int);
            if rest is Some {
                assert(calls@ + rest->0 =~= before + (seq![write_call(chunk as int, pa as int)] + rest->0));
            }
        }
        cur = cur + chunk;
    }
    proof {
        assert(calls@ + Seq::<SbiCall>::empty() =~= calls@);
    }
    Some(calls)
}

/// The call that reads up to `len` bytes from the console into kernel address `addr`:
/// the address itself within the kernel's identity mapping of memory, else its
/// physical address in `kernel_space`; `None` when that cannot be had.
pub fn console_getchar(kernel_space: &MemorySet, mem: &PhysMem, addr: usize, len: usize) -> (r: Option<SbiCall>)
    requires
        kernel_space.wf(mem),
    ensures
        addr <= MEMORY_END ==> r == Some(SbiCall { extension: SBI_CONSOLE_DBCN, function: 1, arg0: len, arg1: addr, arg2: 0 }),
        addr > MEMORY_END ==> r == match kernel_pa(mem, kernel_space.root(), addr as int) {
            Some(pa) => Some(SbiCall { extension: SBI_CONSOLE_DBCN, function: 1, arg0: len, arg1: pa as usize, arg2: 0 }),
            None => None::<SbiCall>,
        },
{
    if addr <= MEMORY_END {
        Some(SbiCall { extension: SBI_CONSOLE_DBCN, function: 1, arg0: len, arg1: addr, arg2: 0 })
    } else {
        match kernel_va_to_pa(kernel_space, mem, addr) {
            Some(pa) => Some(SbiCall { extension: SBI_CONSOLE_DBCN, function: 1, arg0: len, arg1: pa, arg2: 0 }),
            None => None,
        }
    }
}

/// What a console read answers: the number of bytes read, or -1 on an error.
pub fn console_getchar_result(ret: SbiRet) -> (r: isize)
    ensures
        r == if ret.error == 0 {
            ret.value as isize
        } else {
            -1isize
        },
{
    if ret.error == 0 {
        #[verifier::truncate] (ret.value as isize)
    } else {
        -1
    }
}

/// The call that resets the system with `reset_type` for `reason`.
pub fn system_reset(reset_type: usize, reason: usize) -> (r: SbiCall)
    ensures
        r == (SbiCall { extension: SBI_EXT_SRST, function: SBI_SRST_RESET, arg0: reset_type, arg1: reason, arg2: 0 }),
{
    SbiCall { extension: SBI_EXT_SRST, function: SBI_SRST_RESET, arg0: reset_type, arg1: reason, arg2: 0 }
}

/// The call that shuts the system down normally: type 0, no reason.
pub fn shutdown() -> (r: SbiCall)
    ensures
        r == (SbiCall { extension: SBI_EXT_SRST, function: SBI_SRST_RESET, arg0: 0, arg1: 0, arg2: 0 }),
{
    system_reset(0, 0)
}

/// The call that shuts the system down on a failure: type 0, reason 1.
pub fn panic_shutdown() -> (r: SbiCall)
    ensures
        r == (SbiCall { extension: SBI_EXT_SRST, function: SBI_SRST_RESET, arg0: 0, arg1: 1, arg2: 0 }),
{
    system_reset(0, 1)
}

/// The call that sets the next timer interrupt at time `stime_value`.
pub fn set_timer(stime_value: usize) -> (r: SbiCall)
    ensures
        r == (SbiCall { extension: SBI_EXT_TIME, function: SBI_TIME_SET_TIMER, arg0: stime_value, arg1: 0, arg2: 0 }),
{
    SbiCall { extension: SBI_EXT_TIME, function: SBI_TIME_SET_TIMER, arg0: stime_value, arg1: 0, arg2: 0 }
}

} // verus!
