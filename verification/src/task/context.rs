//! The kernel context of a task: what a switch between two tasks saves.

use vstd::prelude::*;

verus! {

/// The registers that a switch saves: the return address, the stack
/// pointer and the twelve callee-saved registers.
#[derive(Copy, Clone, Debug)]
pub struct TaskContext {
    pub ra: u64,
    pub sp: u64,
    pub s: [u64; 12],
}

impl TaskContext {
    /// A context of zeroes.
    pub fn zero_init() -> (r: Self)
        ensures
            r.ra == 0,
            r.sp == 0,
            r.s@ == Seq::new(12, |i: int| 0u64),
    {
        let r = TaskContext { ra: 0, sp: 0, s: [0u64; 12] };
        proof {
            assert(r.s@ =~= Seq::new(12, |i: int| 0u64));
        }
        r
    }

    /// The context of a task that has not run yet: a switch to it returns
    /// to `restore`, the way back into user mode, on the kernel stack of
    /// the task.
    pub fn goto_trap_return(kstack_ptr: u64, restore: u64) -> (r: Self)
        ensures
            r.ra == restore,
            r.sp == kstack_ptr,
            r.s@ == Seq::new(12, |i: int| 0u64),
    {
        let r = TaskContext { ra: restore, sp: kstack_ptr, s: [0u64; 12] };
        proof {
            assert(r.s@ =~= Seq::new(12, |i: int| 0u64));
        }
        r
    }
}

} // verus!
