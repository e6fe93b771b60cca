use os::mem_set::{MapPermission, MemorySet, MAP_R, MAP_W};
use os::addr::{VirtAddr, VirtPageNum};
use os::page_table::PhysMem;
use os::sbi::{
    console_getchar, console_getchar_result, console_putchar, console_putstr, kernel_va_to_pa,
    panic_shutdown, probe_extension, probe_extension_call, set_timer, SbiCall, SbiRet,
    SBI_CONSOLE_DBCN, SBI_EXT_BASE, SBI_EXT_SRST, SBI_EXT_TIME,
};
use os::syscall::{
    decode_syscall, SyscallRequest, SYSCALL_EXIT, SYSCALL_OPENAT, SYSCALL_WAITPID, SYSCALL_WRITE,
};
use os::trap::{trap_action, TrapAction, TrapContext};

#[test]
fn user_ecall_is_a_syscall() {
    assert_eq!(trap_action(false, 8), TrapAction::Syscall);
}

#[test]
fn faults_kill_the_program() {
    for code in [5usize, 7, 13, 15] {
        assert_eq!(trap_action(false, code), TrapAction::KillMemoryFault);
    }
    assert_eq!(trap_action(false, 2), TrapAction::KillIllegalInstruction);
}

#[test]
fn other_exceptions_are_not_handled() {
    for code in [0usize, 1, 3, 4, 6, 9, 12, 14, 16, 100] {
        assert_eq!(trap_action(false, code), TrapAction::Unhandled);
    }
}

#[test]
fn the_supervisor_timer_preempts() {
    assert_eq!(trap_action(true, 5), TrapAction::Preempt);
    for code in [1usize, 3, 7, 9, 11, 4, 64] {
        assert_eq!(trap_action(true, code), TrapAction::Unhandled);
    }
}

#[test]
fn begin_and_end_syscall_move_the_pc_and_the_result() {
    let mut cx = TrapContext::app_init_context(0x1000, 0x8000, 7, 9, 11, 13);
    assert_eq!(cx.x[2], 0x8000);
    cx.x[17] = SYSCALL_WRITE;
    cx.x[10] = 1;
    cx.x[11] = 0x2000;
    cx.x[12] = 5;
    let (id, args) = cx.begin_syscall();
    assert_eq!(id, SYSCALL_WRITE);
    assert_eq!(args, [1, 0x2000, 5]);
    assert_eq!(cx.sepc, 0x1004);
    cx.end_syscall(-1);
    assert_eq!(cx.x[10], usize::MAX);
    assert_eq!(cx.x[11], 0x2000);
    assert_eq!(cx.kernel_satp, 7);
}

#[test]
fn decode_syscall_reads_the_arguments_as_the_call_takes_them() {
    assert_eq!(
        decode_syscall(SYSCALL_WRITE, [1, 2, 3]),
        Some(SyscallRequest::Write { fd: 1, buf: 2, len: 3 })
    );
    assert_eq!(
        decode_syscall(SYSCALL_EXIT, [usize::MAX, 0, 0]),
        Some(SyscallRequest::Exit { exit_code: -1 })
    );
    assert_eq!(
        decode_syscall(SYSCALL_WAITPID, [usize::MAX, 0x40, 0]),
        Some(SyscallRequest::Waitpid { pid: -1, exit_code_ptr: 0x40 })
    );
    assert_eq!(
        decode_syscall(SYSCALL_OPENAT, [0x10, (1usize << 32) | 512, 0]),
        Some(SyscallRequest::Open { path: 0x10, flags: 512 })
    );
    assert_eq!(decode_syscall(9999, [0, 0, 0]), None);
}

#[test]
fn sbi_calls_carry_their_extension_and_arguments() {
    assert_eq!(
        console_putchar(b'A'),
        SbiCall { extension: SBI_CONSOLE_DBCN, function: 2, arg0: 65, arg1: 0, arg2: 0 }
    );
    assert_eq!(
        set_timer(1234),
        SbiCall { extension: SBI_EXT_TIME, function: 0, arg0: 1234, arg1: 0, arg2: 0 }
    );
    assert_eq!(
        panic_shutdown(),
        SbiCall { extension: SBI_EXT_SRST, function: 0, arg0: 0, arg1: 1, arg2: 0 }
    );
    assert_eq!(
        probe_extension_call(SBI_CONSOLE_DBCN),
        SbiCall { extension: SBI_EXT_BASE, function: 3, arg0: SBI_CONSOLE_DBCN, arg1: 0, arg2: 0 }
    );
    assert!(probe_extension(SbiRet { error: 0, value: 1 }));
    assert!(!probe_extension(SbiRet { error: 0, value: 0 }));
    assert!(!probe_extension(SbiRet { error: 1, value: 1 }));
    assert_eq!(console_getchar_result(SbiRet { error: 0, value: 3 }), 3);
    assert_eq!(console_getchar_result(SbiRet { error: 5, value: 3 }), -1);
}

#[test]
fn console_output_of_identity_mapped_bytes_is_one_call() {
    let mut mem = PhysMem::new(16);
    let ks = MemorySet::new_bare(&mut mem);
    let calls = console_putstr(&ks, &mem, 0x8020_0000, 12).unwrap();
    assert_eq!(
        calls,
        vec![SbiCall { extension: SBI_CONSOLE_DBCN, function: 0, arg0: 12, arg1: 0x8020_0000, arg2: 0 }]
    );
    assert!(console_putstr(&ks, &mem, usize::MAX, 2).is_none());
    assert_eq!(
        console_getchar(&ks, &mem, 0x8030_0000, 1),
        Some(SbiCall { extension: SBI_CONSOLE_DBCN, function: 1, arg0: 1, arg1: 0x8030_0000, arg2: 0 })
    );
}

#[test]
fn console_output_of_mapped_bytes_goes_page_by_page() {
    let mut mem = PhysMem::new(64);
    let mut ks = MemorySet::new_bare(&mut mem);
    let va = 0x9_0000_0000usize;
    ks.insert_framed_area(
        &mut mem,
        VirtAddr(va),
        VirtAddr(va + 0x2000),
        MapPermission { bits: MAP_R | MAP_W },
    );
    let p0 = ks.translate(&mem, VirtPageNum(va / 4096)).unwrap().ppn().0;
    let p1 = ks.translate(&mem, VirtPageNum(va / 4096 + 1)).unwrap().ppn().0;
    assert_eq!(kernel_va_to_pa(&ks, &mem, va + 0xff0), Some(p0 * 4096 + 0xff0));
    let calls = console_putstr(&ks, &mem, va + 0xff0, 0x20).unwrap();
    assert_eq!(
        calls,
        vec![
            SbiCall { extension: SBI_CONSOLE_DBCN, function: 0, arg0: 0x10, arg1: p0 * 4096 + 0xff0, arg2: 0 },
            SbiCall { extension: SBI_CONSOLE_DBCN, function: 0, arg0: 0x10, arg1: p1 * 4096, arg2: 0 },
        ]
    );
    assert!(console_putstr(&ks, &mem, va + 0x1ff0, 0x20).is_none());
    assert!(kernel_va_to_pa(&ks, &mem, va + 0x2000).is_none());
}
