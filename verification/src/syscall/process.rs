//! The system calls that end a task, give the processor up and read the time.

use vstd::prelude::*;
use crate::kernel::Kernel;
use crate::task::switch::{exit_post, switch_post, Switch};

verus! {

/// Ends the task that runs with the code `exit_code` and lets the next
/// task run.
pub fn sys_exit(kernel: &mut Kernel, exit_code: i32) -> (r: Switch)
    requires
        old(kernel).wf(),
    ensures
        exit_post(*old(kernel), *final(kernel), exit_code, r),
{
    kernel.exit_current_and_run_next(exit_code)
}

/// Puts the task that runs at the end of the ready queue and lets the
/// next task run.
pub fn sys_yield(kernel: &mut Kernel) -> (r: Switch)
    requires
        old(kernel).wf(),
    ensures
        switch_post(*old(kernel), *final(kernel), r),
{
    kernel.switch_task()
}

/// A 64-bit register read as a signed number.
pub open spec fn signed(x: u64) -> i64 {
    if x < 0x8000_0000_0000_0000 {
        x as i64
    } else {
        (x - 0x1_0000_0000_0000_0000) as i64
    }
}

/// A signed number as a 64-bit register holds it.
pub open spec fn register(x: i64) -> u64 {
    if x >= 0 {
        x as u64
    } else {
        (x + 0x1_0000_0000_0000_0000) as u64
    }
}

/// A 64-bit register read as a signed number.
pub fn to_signed(x: u64) -> (r: i64)
    ensures
        r == signed(x),
{
    if x <= 0x7fff_ffff_ffff_ffff {
        x as i64
    } else {
        -((u64::MAX - x) as i64) - 1
    }
}

/// A signed number as a 64-bit register holds it.
pub fn to_register(x: i64) -> (r: u64)
    ensures
        r == register(x),
{
    if x >= 0 {
        x as u64
    } else {
        u64::MAX - ((-(x + 1)) as u64)
    }
}

/// The time: the count of the clock, which whoever drives the machine
/// has read from the `time` register.
pub fn sys_get_time(now: u64) -> (r: i64)
    ensures
        r == signed(now),
{
    to_signed(now)
}

} // verus!
