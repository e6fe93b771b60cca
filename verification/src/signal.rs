//! Process signals.
use vstd::prelude::*;

verus! {

/// Interrupt.
pub const SIGINT: u32 = 4;
/// Illegal instruction.
pub const SIGILL: u32 = 16;
/// Abort.
pub const SIGABRT: u32 = 64;
/// Floating-point exception.
pub const SIGFPE: u32 = 256;
/// Segmentation fault.
pub const SIGSEGV: u32 = 2048;
/// Every known signal bit.
pub const SIGNAL_MASK: u32 = 2388;

/// A set of pending signals.
#[derive(Clone, Copy, Debug, PartialEq, Eq, Structural)]
pub struct SignalFlags {
    /// The raw bits.
    pub bits: u32,
}

impl SignalFlags {
    /// No signal.
    pub fn empty() -> (r: SignalFlags)
        ensures
            r.bits == 0,
    {
        SignalFlags { bits: 0 }
    }

    /// The set named by `bits`, or `None` if an unknown bit is set.
    pub fn from_bits(bits: u32) -> (r: Option<SignalFlags>)
        ensures
            r == if bits & !SIGNAL_MASK == 0 {
                Some(SignalFlags { bits })
            } else {
                None
            },
    {
        if bits & !SIGNAL_MASK == 0 {
            Some(SignalFlags { bits })
        } else {
            None
        }
    }

    /// Whether every signal of `other` is pending.
    pub fn contains(&self, other: u32) -> (r: bool)
        ensures
            r == (self.bits & other == other),
    {
        self.bits & other == other
    }

    /// Add the signals of `other`.
    pub fn insert(&mut self, other: SignalFlags)
        ensures
            final(self).bits == old(self).bits | other.bits,
    {
        self.bits = self.bits | other.bits;
    }

    /// The error a pending signal stands for, checked in the order interrupt,
    /// illegal instruction, abort, floating-point exception, segmentation fault.
    pub fn check_error(&self) -> (r: Option<(i32, &'static str)>)
        ensures
            r == if self.bits & SIGINT == SIGINT {
                Some((2i32, "Interrupt"))
            } else if self.bits & SIGILL == SIGILL {
                Some((4i32, "Illegal Instruction"))
            } else if self.bits & SIGABRT == SIGABRT {
                Some((6i32, "Abort"))
            } else if self.bits & SIGFPE == SIGFPE {
                Some((8i32, "Floating Point Exception"))
            } else if self.bits & SIGSEGV == SIGSEGV {
                Some((11i32, "Segmentation Fault"))
            } else {
                None
            },
    {
        if self.contains(SIGINT) {
            Some((2, "Interrupt"))
        } else if self.contains(SIGILL) {
            Some((4, "Illegal Instruction"))
        } else if self.contains(SIGABRT) {
            Some((6, "Abort"))
        } else if self.contains(SIGFPE) {
            Some((8, "Floating Point Exception"))
        } else if self.contains(SIGSEGV) {
            Some((11, "Segmentation Fault"))
        } else {
            None
        }
    }
}

} // verus!
