//! A verified model of a small RISC-V teaching kernel: address arithmetic,
//! SV39 page tables, address spaces, allocators, file-descriptor and
//! synchronisation tables, and the system-call layer that works on them.
#![allow(unused_imports)]

use vstd::prelude::*;

pub mod config;
pub mod error;
pub mod addr;
pub mod page_table;
pub mod mem_set;
pub mod elf;
pub mod pid;
pub mod signal;
pub mod sync;
pub mod manager;
pub mod timer;
pub mod pipe;
pub mod bitmap;
pub mod fs;
pub mod user_mem;
pub mod sbi;
pub mod batch;
pub mod loader;
pub mod trap;
pub mod args;
pub mod task;
pub mod processor;
pub mod lifecycle;
pub mod syscall;

verus! {

} // verus!
