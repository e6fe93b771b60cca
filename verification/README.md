# os

A small RISC-V teaching kernel whose logic is written and proved in Verus.

The kernel state that the hardware would hold — physical memory, page tables,
the process table, the ready queue, timers — is passed to the library as plain
values, and every operation on it states in its contract what it returns and how
the state changes.

## Layout

- `src/` — the verified library.
  - `addr`, `page_table`: page numbers, SV39 page tables over a model of physical
    memory (`PhysMem`), user-memory translation.
  - `mem_set`: address spaces (areas, `mmap`/`munmap`, heap growth, copying an
    address space, the kernel address space, ELF loading).
  - `elf`: the program headers of an ELF file, read with `xmas_elf`.
  - `pid`, `task`, `manager`, `lifecycle`, `processor`: ids, kernel stacks,
    processes and threads, the process table and ready queue, exit and wait.
  - `fs`, `pipe`, `bitmap`: descriptors, the root directory, pipes, the block bitmap.
  - `sync`, `signal`, `timer`: mutexes, semaphores, condition variables, signals, timers.
  - `trap`, `sbi`, `syscall`: what a trap from user mode calls for, firmware calls as
    values, and the system calls.
  - `batch`, `loader`, `args`, `user_mem`: the batch loader, application lookup,
    program arguments on the user stack, checked access to user memory.
- `tests/` — tests that run the library on concrete values.
- `app/` — the host-side packer that files user programs into the file system.
