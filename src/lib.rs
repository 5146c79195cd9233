//! Memory and execution substrate of a small cooperative kernel for a 32-bit
//! RISC-V machine: a physical page allocator and the byte-granular allocator
//! over it, an SV32 two-level page table, boot-time memory set-up, a
//! cooperative process scheduler, and the register encodings the trap and
//! MMU set-up rely on.

pub mod page;
pub mod allocator;
pub mod page_table;
pub mod boot;
pub mod process;
pub mod scheduler;
pub mod arch;
