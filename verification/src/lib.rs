//! The verified core of KonjacOS: a small x86_64 kernel's data structures,
//! parsers, state machines and policies, free of hardware access.

pub mod apex;
pub mod cfile;
pub mod command_laws;
pub mod commands;
pub mod console;
pub mod cursor;
pub mod disk_file_laws;
pub mod doom_driver;
pub mod elf;
pub mod elf_format;
pub mod elf_laws;
pub mod elf_links;
pub mod fat16;
pub mod fat16_dirs;
pub mod fat16_files;
pub mod fat16_format;
pub mod fat16_laws;
pub mod fat16_names;
pub mod framebuffer;
pub mod gdt;
pub mod heap;
pub mod idt;
pub mod input_laws;
pub mod intrinsics;
pub mod isolation;
pub mod kernel;
pub mod keyboard;
pub mod le;
pub mod libc_shim;
pub mod limine;
pub mod linux_abi;
pub mod linux_files;
pub mod linux_info_laws;
pub mod linux_laws;
pub mod linux_syscall;
pub mod linux_task_laws;
pub mod linux_tasks;
pub mod linux_wait_laws;
pub mod loader;
pub mod loader_laws;
pub mod memory;
pub mod mmu;
pub mod mouse;
pub mod order;
pub mod paging;
pub mod pe;
pub mod pe_format;
pub mod plan_laws;
pub mod pmm;
pub mod ports;
pub mod program_laws;
pub mod ram;
pub mod room;
pub mod screen_laws;
pub mod sha256;
pub mod sharing;
pub mod shell;
pub mod space;
pub mod store;
pub mod survey;
pub mod syscall;
pub mod syscall_laws;
pub mod task;
pub mod task_history;
pub mod task_laws;
pub mod text;
pub mod timer;
pub mod usermode;
pub mod usermode_laws;
pub mod vaddr;
pub mod vm;
pub mod vm_laws;
pub mod volume;
pub mod wm;
