# rnix

The memory-management and scheduling core of a small RISC-V (Sv39) teaching
kernel, written and proved in Verus.

- `src/` is the verified library. Physical memory is modelled explicitly
  (`phys_mem`): frames of 4096 bytes keyed by page number. On it stand the
  address types (`address`), the stack frame allocator (`frame_allocator`),
  the three-level page table (`page_table`), areas and address spaces
  (`memory_set`), reading ELF images with `xmas_elf` (`elf`), building an
  application's address space (`user_space`), tasks and the round-robin
  scheduler (`task`), and what the kernel decides on system calls and traps
  (`syscall`, `trap`, `timer`, `loader`, `mm`), and the batch system's
  bookkeeping (`batch`).
- `tests/` exercises the library on concrete values.
- `app/` is the kernel around the library: start-up, machine registers
  (`riscv`), the global kernel state (`lazy_static`), task switches and
  console output.
