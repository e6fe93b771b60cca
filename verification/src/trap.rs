//! Trap contexts and what the kernel does with each kind of trap from user mode.
use vstd::prelude::*;
use riscv::interrupt::{Exception, Interrupt};
use riscv::{ExceptionNumber, InterruptNumber};

verus! {

/// The user state saved when a thread traps into the kernel.
#[derive(Clone, Copy)]
pub struct TrapContext {
    /// The general registers `x0` to `x31`.
    pub x: [usize; 32],
    /// The `sstatus` word to return with.
    pub sstatus: usize,
    /// The user program counter to return to.
    pub sepc: usize,
    /// The `satp` token of the kernel address space.
    pub kernel_satp: usize,
    /// The top of the thread's kernel stack.
    pub kernel_sp: usize,
    /// The address of the kernel's trap handler.
    pub trap_handler: usize,
}

impl TrapContext {
    /// Set the user stack pointer, register `x2`.
    pub fn set_sp(&mut self, sp: usize)
        ensures
            final(self).x@ == old(self).x@.update(2, sp),
            final(self).sstatus == old(self).sstatus,
            final(self).sepc == old(self).sepc,
            final(self).kernel_satp == old(self).kernel_satp,
            final(self).kernel_sp == old(self).kernel_sp,
            final(self).trap_handler == old(self).trap_handler,
    {
        self.x[2] = sp;
    }

    /// The context that starts a thread at `entry` with stack pointer `sp`; every other
    /// register is zero, and `sstatus` is the status word the caller built for user mode.
    pub fn app_init_context(
        entry: usize,
        sp: usize,
        kernel_satp: usize,
        kernel_sp: usize,
        trap_handler: usize,
        sstatus: usize,
    ) -> (r: TrapContext)
        ensures
            r.x@ == Seq::new(32, |i: int| 0usize).update(2, sp),
            r.sstatus == sstatus,
            r.sepc == entry,
            r.kernel_satp == kernel_satp,
            r.kernel_sp == kernel_sp,
            r.trap_handler == trap_handler,
    {
        let mut cx = TrapContext { x: [0; 32], sstatus, sepc: entry, kernel_satp, kernel_sp, trap_handler };
        proof {
            assert(cx.x@ =~= Seq::new(32, |i: int| 0usize));
        }
        cx.set_sp(sp);
        cx
    }

    /// A context with every field zero.
    pub fn zeroed() -> (r: TrapContext)
        ensures
            r.x@ == Seq::new(32, |i: int| 0usize),
            r.sstatus == 0,
            r.sepc == 0,
            r.kernel_satp == 0,
            r.kernel_sp == 0,
            r.trap_handler == 0,
    {
        let cx = TrapContext { x: [0; 32], sstatus: 0, sepc: 0, kernel_satp: 0, kernel_sp: 0, trap_handler: 0 };
        proof {
            assert(cx.x@ =~= Seq::new(32, |i: int| 0usize));
        }
        cx
    }
}

/// The standard exceptions, as the `riscv` crate names them.
#[derive(Clone, Copy, Debug, PartialEq, Eq, Structural)]
pub enum ExceptionKind {
    /// Code 0.
    InstructionMisaligned,
    /// Code 1.
    InstructionFault,
    /// Code 2.
    IllegalInstruction,
    /// Code 3.
    Breakpoint,
    /// Code 4.
    LoadMisaligned,
    /// Code 5.
    LoadFault,
    /// Code 6.
    StoreMisaligned,
    /// Code 7.
    StoreFault,
    /// Code 8: a system call from user mode.
    UserEnvCall,
    /// Code 9.
    SupervisorEnvCall,
    /// Code 11.
    MachineEnvCall,
    /// Code 12.
    InstructionPageFault,
    /// Code 13.
    LoadPageFault,
    /// Code 15.
    StorePageFault,
}

/// The standard interrupts, as the `riscv` crate names them.
#[derive(Clone, Copy, Debug, PartialEq, Eq, Structural)]
pub enum InterruptKind {
    /// Code 1.
    SupervisorSoft,
    /// Code 3.
    MachineSoft,
    /// Code 5: the supervisor timer.
    SupervisorTimer,
    /// Code 7.
    MachineTimer,
    /// Code 9.
    SupervisorExternal,
    /// Code 11.
    MachineExternal,
}

/// The exception with cause code `code`, if it is a standard one.
pub open spec fn exception_of(code: usize) -> Option<ExceptionKind> {
    if code == 0 {
        Some(ExceptionKind::InstructionMisaligned)
    } else if code == 1 {
        Some(ExceptionKind::InstructionFault)
    } else if code == 2 {
        Some(ExceptionKind::IllegalInstruction)
    } else if code == 3 {
        Some(ExceptionKind::Breakpoint)
    } else if code == 4 {
        Some(ExceptionKind::LoadMisaligned)
    } else if code == 5 {
        Some(ExceptionKind::LoadFault)
    } else if code == 6 {
        Some(ExceptionKind::StoreMisaligned)
    } else if code == 7 {
        Some(ExceptionKind::StoreFault)
    } else if code == 8 {
        Some(ExceptionKind::UserEnvCall)
    } else if code == 9 {
        Some(ExceptionKind::SupervisorEnvCall)
    } else if code == 11 {
        Some(ExceptionKind::MachineEnvCall)
    } else if code == 12 {
        Some(ExceptionKind::InstructionPageFault)
    } else if code == 13 {
        Some(ExceptionKind::LoadPageFault)
    } else if code == 15 {
        Some(ExceptionKind::StorePageFault)
    } else {
        None
    }
}

/// The interrupt with cause code `code`, if it is a standard one.
pub open spec fn interrupt_of(code: usize) -> Option<InterruptKind> {
    if code == 1 {
        Some(InterruptKind::SupervisorSoft)
    } else if code == 3 {
        Some(InterruptKind::MachineSoft)
    } else if code == 5 {
        Some(InterruptKind::SupervisorTimer)
    } else if code == 7 {
        Some(InterruptKind::MachineTimer)
    } else if code == 9 {
        Some(InterruptKind::SupervisorExternal)
    } else if code == 11 {
        Some(InterruptKind::MachineExternal)
    } else {
        None
    }
}

/// Reads exception code `code` with `riscv::interrupt::Exception::from_number`, whose
/// source matches the code against the table of standard exceptions and fails on any
/// other; the exception found is given back as its number, which is its code.
#[verifier::external_body]
fn exception_from_number(code: usize) -> (r: Option<usize>)
    ensures
        r == if exception_of(code) is Some {
            Some(code)
        } else {
            None::<usize>
        },
{
    match Exception::from_number(code) {
        Ok(e) => Some(e as usize),
        Err(_) => None,
    }
}

/// Reads interrupt code `code` with `riscv::interrupt::Interrupt::from_number`, whose
/// source matches the code against the table of standard interrupts and fails on any
/// other; the interrupt found is given back as its number, which is its code.
#[verifier::external_body]
fn interrupt_from_number(code: usize) -> (r: Option<usize>)
    ensures
        r == if interrupt_of(code) is Some {
            Some(code)
        } else {
            None::<usize>
        },
{
    match Interrupt::from_number(code) {
        Ok(i) => Some(i as usize),
        Err(_) => None,
    }
}

/// The exception with standard code `n`.
pub fn exception_kind(n: usize) -> (r: Option<ExceptionKind>)
    ensures
        r == exception_of(n),
{
    if n == 0 {
        Some(ExceptionKind::InstructionMisaligned)
    } else if n == 1 {
        Some(ExceptionKind::InstructionFault)
    } else if n == 2 {
        Some(ExceptionKind::IllegalInstruction)
    } else if n == 3 {
        Some(ExceptionKind::Breakpoint)
    } else if n == 4 {
        Some(ExceptionKind::LoadMisaligned)
    } else if n == 5 {
        Some(ExceptionKind::LoadFault)
    } else if n == 6 {
        Some(ExceptionKind::StoreMisaligned)
    } else if n == 7 {
        Some(ExceptionKind::StoreFault)
    } else if n == 8 {
        Some(ExceptionKind::UserEnvCall)
    } else if n == 9 {
        Some(ExceptionKind::SupervisorEnvCall)
    } else if n == 11 {
        Some(ExceptionKind::MachineEnvCall)
    } else if n == 12 {
        Some(ExceptionKind::InstructionPageFault)
    } else if n == 13 {
        Some(ExceptionKind::LoadPageFault)
    } else if n == 15 {
        Some(ExceptionKind::StorePageFault)
    } else {
        None
    }
}

/// The interrupt with standard code `n`.
pub fn interrupt_kind(n: usize) -> (r: Option<InterruptKind>)
    ensures
        r == interrupt_of(n),
{
    if n == 1 {
        Some(InterruptKind::SupervisorSoft)
    } else if n == 3 {
        Some(InterruptKind::MachineSoft)
    } else if n == 5 {
        Some(InterruptKind::SupervisorTimer)
    } else if n == 7 {
        Some(InterruptKind::MachineTimer)
    } else if n == 9 {
        Some(InterruptKind::SupervisorExternal)
    } else if n == 11 {
        Some(InterruptKind::MachineExternal)
    } else {
        None
    }
}

/// What the kernel does about a trap from user mode.
#[derive(Clone, Copy, Debug, PartialEq, Eq, Structural)]
pub enum TrapAction {
    /// Serve the system call the thread asked for.
    Syscall,
    /// Kill the program: it touched memory it may not.
    KillMemoryFault,
    /// Kill the program: it ran an illegal instruction.
    KillIllegalInstruction,
    /// Time is up: set the next timer and run another thread.
    Preempt,
    /// A trap the kernel does not handle; it stops.
    Unhandled,
}

/// The action for a trap with cause `code`, an interrupt when `interrupt` holds.
pub open spec fn trap_action_of(interrupt: bool, code: usize) -> TrapAction {
    if interrupt {
        if interrupt_of(code) == Some(InterruptKind::SupervisorTimer) {
            TrapAction::Preempt
        } else {
            TrapAction::Unhandled
        }
    } else {
        match exception_of(code) {
            Some(ExceptionKind::UserEnvCall) => TrapAction::Syscall,
            Some(ExceptionKind::StoreFault) => TrapAction::KillMemoryFault,
            Some(ExceptionKind::StorePageFault) => TrapAction::KillMemoryFault,
            Some(ExceptionKind::LoadFault) => TrapAction::KillMemoryFault,
            Some(ExceptionKind::LoadPageFault) => TrapAction::KillMemoryFault,
            Some(ExceptionKind::IllegalInstruction) => TrapAction::KillIllegalInstruction,
            _ => TrapAction::Unhandled,
        }
    }
}

/// What to do about a trap from user mode with cause `code`, an interrupt when
/// `interrupt` holds: serve a system call from user mode; kill the program on a load
/// or store fault or page fault, or on an illegal instruction; preempt on the
/// supervisor timer; nothing else is handled.
pub fn trap_action(interrupt: bool, code: usize) -> (r: TrapAction)
    ensures
        r == trap_action_of(interrupt, code),
{
    if interrupt {
        let kind = match interrupt_from_number(code) {
            Some(n) => interrupt_kind(n),
            None => None,
        };
        match kind {
            Some(InterruptKind::SupervisorTimer) => TrapAction::Preempt,
            _ => TrapAction::Unhandled,
        }
    } else {
        let kind = match exception_from_number(code) {
            Some(n) => exception_kind(n),
            None => None,
        };
        match kind {
            Some(ExceptionKind::UserEnvCall) => TrapAction::Syscall,
            Some(ExceptionKind::StoreFault) | Some(ExceptionKind::StorePageFault) | Some(ExceptionKind::LoadFault) | Some(
                ExceptionKind::LoadPageFault,
            ) => TrapAction::KillMemoryFault,
            Some(ExceptionKind::IllegalInstruction) => TrapAction::KillIllegalInstruction,
            _ => TrapAction::Unhandled,
        }
    }
}

impl TrapContext {
    /// Step past the `ecall` of a system call: the program counter moves on one
    /// instruction, and the call's number (`x17`) and arguments (`x10` to `x12`) are
    /// returned.
    pub fn begin_syscall(&mut self) -> (r: (usize, [usize; 3]))
        requires
            old(self).sepc + 4 <= usize::MAX,
        ensures
            *final(self) == (TrapContext { sepc: (old(self).sepc + 4) as usize, ..*old(self) }),
            r.0 == old(self).x@[17],
            r.1@ == seq![old(self).x@[10], old(self).x@[11], old(self).x@[12]],
    {
        self.sepc = self.sepc + 4;
        let args = [self.x[10], self.x[11], self.x[12]];
        proof {
            assert(args@ =~= seq![self.x@[10], self.x@[11], self.x@[12]]);
        }
        (self.x[17], args)
    }

    /// Hand the result of a system call back in `x10`.
    pub fn end_syscall(&mut self, result: isize)
        ensures
            final(self).x@ == old(self).x@.update(10, result as usize),
            *final(self) == (TrapContext { x: final(self).x, ..*old(self) }),
    {
        self.x[10] = result as usize;
    }
}

} // verus!
