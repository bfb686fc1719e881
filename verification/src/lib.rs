//! A model of a small preemptive RISC-V (SV39) kernel: frame allocation,
//! page tables, address spaces, tasks, traps and system calls, with the
//! machine state held in ordinary values so that every rule can be proved.

pub mod config;
pub mod console;
pub mod kernel;
pub mod loader;
pub mod mm;
pub mod sbi;
pub mod syscall;
pub mod task;
pub mod trap;
pub mod user;
