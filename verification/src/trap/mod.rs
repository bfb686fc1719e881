//! Traps: their causes, the frame that is saved, and what the kernel
//! does about them.

pub mod cause;
pub mod context;
pub mod handler;
pub mod registers;
