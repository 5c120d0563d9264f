# konjac

The core of KonjacOS, a small kernel for x86_64, as a library that is verified
with Verus: physical frames and page tables, address spaces and demand paging,
the kernel heap, a FAT16 driver, loaders for flat, ELF64 and PE32+ programs, a
preemptive scheduler with waits and signals, two system call interfaces, the
console, a small window manager, and the shell with its commands.

The library does no input or output. Hardware is reached through values: ports
are lists of bytes to send, the disk is a list of sectors, physical memory is a
vector of words, and what a system call needs of a program's memory, or does to
it, is said in its request and its answer.

* `src/` holds the library. Each module states what its functions do over a
  mathematical model of its data. Public proof functions whose names begin with
  `law_` state what holds across functions; the larger ones stand in modules of
  their own (`fat16_laws`, `fat16_dirs`, `fat16_files`, `elf_laws`,
  `loader_laws`, `vm_laws`, `isolation`, `sharing`, `task_laws`,
  `task_history`). Most functions ask that what they work on is in order, and
  leave it so. `memory::start` sets memory up only where it can be; `order`
  and `survey` find out whether the kernel's state and an address space are in
  order, and `order::give_way` switches tasks only where they stay so.
* `tests/` runs the library on concrete values.
* `app/` is the rest of the kernel: the boot protocol, ports, interrupt stubs,
  locks, the functions that compiled C code calls, and what is computed with
  floating point.

Two functions of the standard library are trusted: `core::str::from_utf8`
(`src/text.rs`) and the `Debug` formatting of strings (`src/commands.rs`).
