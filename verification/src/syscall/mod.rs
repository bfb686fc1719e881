//! System calls: their numbers, and which call a number stands for.

use vstd::prelude::*;
use crate::kernel::Kernel;
use crate::syscall::fs::{sys_write, write_post};
use crate::syscall::memory::{mmap_post, munmap_post, sys_mmap, sys_munmap};
use crate::syscall::process::{signed, sys_exit, sys_get_time, sys_yield, to_signed};
use crate::task::switch::{exit_post, switch_post, Switch};

pub mod fs;
pub mod memory;
pub mod process;

verus! {

/// Writes to a file.
pub const SYSCALL_WRITE: u64 = 64;

/// Ends the task.
pub const SYSCALL_EXIT: u64 = 93;

/// Gives the processor up.
pub const SYSCALL_YIELD: u64 = 124;

/// Reads the time.
pub const SYSCALL_GET_TIME: u64 = 169;

/// Unmaps memory.
pub const SYSCALL_MUNMAP: u64 = 215;

/// Maps memory.
pub const SYSCALL_MMAP: u64 = 222;

/// What a system call comes to: a value to return to the task that
/// called, or a switch to another task. After `yield` the task that
/// called is to find `0` as the value when it runs again.
#[derive(Copy, Clone, Debug, PartialEq, Eq, Structural)]
pub enum SyscallOutcome {
    Return(i64),
    Yielded(Switch),
    Exited(Switch),
}

/// What `syscall` leaves, by the number of the call. An unknown number
/// returns `-1` and changes nothing.
pub open spec fn syscall_post(
    k0: Kernel,
    k1: Kernel,
    id: u64,
    args: [u64; 6],
    now: u64,
    r: SyscallOutcome,
) -> bool {
    if id == SYSCALL_WRITE {
        r is Return && write_post(k0, k1, args[0], args[1], args[2], r->Return_0)
    } else if id == SYSCALL_EXIT {
        r is Exited && exit_post(k0, k1, exit_code_of(args[0]), r->Exited_0)
    } else if id == SYSCALL_YIELD {
        r is Yielded && switch_post(k0, k1, r->Yielded_0)
    } else if id == SYSCALL_GET_TIME {
        r == SyscallOutcome::Return(signed(now)) && k1 == k0
    } else if id == SYSCALL_MMAP {
        r is Return && mmap_post(k0, k1, args[0], args[1], args[2], args[3], r->Return_0)
    } else if id == SYSCALL_MUNMAP {
        r is Return && munmap_post(k0, k1, args[0], args[1], r->Return_0)
    } else {
        r == SyscallOutcome::Return(-1i64) && k1 == k0
    }
}

/// The exit code in a register: its lower 32 bits, read as a signed number.
pub open spec fn exit_code_of(x: u64) -> i32 {
    if x % 0x1_0000_0000 < 0x8000_0000 {
        (x % 0x1_0000_0000) as i32
    } else {
        (x % 0x1_0000_0000 - 0x1_0000_0000) as i32
    }
}

/// The exit code in a register.
pub fn exit_code(x: u64) -> (r: i32)
    ensures
        r == exit_code_of(x),
{
    let low = x % 0x1_0000_0000;
    if low < 0x8000_0000 {
        low as i32
    } else {
        -((0xffff_ffff - low) as i32) - 1
    }
}

/// Carries out the system call with the number `syscall_id` for the task
/// that runs, with the arguments `args`; `now` is the count of the clock.
pub fn syscall(kernel: &mut Kernel, syscall_id: u64, args: [u64; 6], now: u64) -> (r:
    SyscallOutcome)
    requires
        old(kernel).wf(),
    ensures
        final(kernel).wf(),
        syscall_post(*old(kernel), *final(kernel), syscall_id, args, now, r),
{
    if syscall_id == SYSCALL_WRITE {
        SyscallOutcome::Return(sys_write(kernel, args[0], args[1], args[2]))
    } else if syscall_id == SYSCALL_EXIT {
        SyscallOutcome::Exited(sys_exit(kernel, exit_code(args[0])))
    } else if syscall_id == SYSCALL_YIELD {
        SyscallOutcome::Yielded(sys_yield(kernel))
    } else if syscall_id == SYSCALL_GET_TIME {
        SyscallOutcome::Return(sys_get_time(now))
    } else if syscall_id == SYSCALL_MMAP {
        SyscallOutcome::Return(
            sys_mmap(kernel, args[0], args[1], args[2], args[3], args[4], args[5]),
        )
    } else if syscall_id == SYSCALL_MUNMAP {
        SyscallOutcome::Return(sys_munmap(kernel, args[0], args[1]))
    } else {
        SyscallOutcome::Return(-1)
    }
}

} // verus!
