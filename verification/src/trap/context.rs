//! The trap frame: what is saved of a task when it traps.

use vstd::prelude::*;
use crate::trap::cause::{user_entry_status, user_status};

verus! {

/// The state of a task at a trap: the 32 integer registers (the slot of
/// `x0` is there for indexing and is not used), the status and the
/// program counter of the trapped code, and what the trampoline needs to
/// get into the kernel: its address space, the top of the kernel stack of
/// the task and the address of the trap handler.
#[derive(Copy, Clone, Debug)]
pub struct TrapContext {
    pub x: [u64; 32],
    pub sstatus: u64,
    pub sepc: u64,
    pub kernel_satp: u64,
    pub kernel_sp: u64,
    pub trap_handler: u64,
}

impl TrapContext {
    /// Sets the stack pointer (register `x2`).
    pub fn set_sp(&mut self, sp: u64)
        ensures
            final(self).x@ == old(self).x@.update(2, sp),
            final(self).sstatus == old(self).sstatus,
            final(self).sepc == old(self).sepc,
            final(self).kernel_satp == old(self).kernel_satp,
            final(self).kernel_sp == old(self).kernel_sp,
            final(self).trap_handler == old(self).trap_handler,
    {
        self.x[2] = sp;
    }

    /// The frame of a program that begins at `entry` with the stack
    /// pointer `sp`: all other registers zero, and a status, made from the
    /// current one, that returns to user mode with interrupts enabled.
    pub fn user_init_context(entry: u64, sp: u64, sstatus: u64) -> (r: Self)
        ensures
            r.sepc == entry,
            r.sstatus == user_status(sstatus),
            r.x@ == Seq::new(32, |i: int| 0u64).update(2, sp),
            r.kernel_satp == 0,
            r.kernel_sp == 0,
            r.trap_handler == 0,
    {
        let mut cx = TrapContext {
            x: [0u64; 32],
            sstatus: user_entry_status(sstatus),
            sepc: entry,
            kernel_satp: 0,
            kernel_sp: 0,
            trap_handler: 0,
        };
        proof {
            assert(cx.x@ =~= Seq::new(32, |i: int| 0u64));
        }
        cx.set_sp(sp);
        cx
    }

    /// The frame with which a task enters user mode for the first time:
    /// as `user_init_context`, with the slots for the way back into the
    /// kernel filled.
    pub fn app_init_context(
        entry: u64,
        user_sp: u64,
        kernel_satp: u64,
        kernel_sp: u64,
        trap_handler: u64,
        sstatus: u64,
    ) -> (r: Self)
        ensures
            r.sepc == entry,
            r.sstatus == user_status(sstatus),
            (r.sstatus / 0x100) % 2 == 0,
            (r.sstatus / 0x20) % 2 == 1,
            r.x@ == Seq::new(32, |i: int| 0u64).update(2, user_sp),
            r.kernel_satp == kernel_satp,
            r.kernel_sp == kernel_sp,
            r.trap_handler == trap_handler,
    {
        let mut cx = Self::user_init_context(entry, user_sp, sstatus);
        cx.kernel_satp = kernel_satp;
        cx.kernel_sp = kernel_sp;
        cx.trap_handler = trap_handler;
        proof {
            crate::trap::cause::lemma_user_status(sstatus);
        }
        cx
    }
}

} // verus!
