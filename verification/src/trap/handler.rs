//! What the kernel does about a trap.

use vstd::prelude::*;
use crate::config::{CLOCK_FREQ, MAX_APP_NUM};
use crate::kernel::{lemma_schedule_same, lemma_spaces_kept, same_spaces, Kernel};
use crate::syscall::process::{register, to_register};
use crate::syscall::{syscall, syscall_post, SyscallOutcome};
use crate::task::switch::{exit_post, switch_post, Switch};
use crate::task::task::TaskControlBlock;
use crate::trap::cause::{decode_cause, from_user_mode, trap_of, Exception, Interrupt, Trap};
use crate::trap::context::TrapContext;

verus! {

/// Number of clock ticks between two timer interrupts: ten milliseconds.
pub const TICK: u64 = 100_000;

/// What the machine is to do after a trap was handled.
#[derive(Copy, Clone, Debug, PartialEq, Eq, Structural)]
pub enum TrapOutcome {
    /// Return to user mode in task `pid`, through the trampoline, with
    /// the address of the trap frame and the token `satp`.
    Resume { pid: usize, satp: u64 },
    /// Return to the kernel code that was interrupted.
    ResumeKernel,
    /// No task is left to run: shut the machine down.
    Shutdown,
    /// The trap was not expected: stop with a panic and shut down.
    Panic,
}

/// How the kernel answers a trap.
#[derive(Copy, Clone, Debug, PartialEq, Eq, Structural)]
pub enum Decision {
    /// Carry out the system call of the task.
    Syscall,
    /// Set the timer again and let the next task run.
    Preempt,
    /// Set the timer again and go on with the kernel code.
    Rearm,
    /// End the task with the code -1.
    Kill,
    /// Stop the kernel.
    Panic,
}

/// How the kernel answers a trap with the cause `trap` that came from
/// user mode (`user`) or from supervisor mode. A timer interrupt from
/// supervisor mode never leads to a switch.
pub open spec fn decide(trap: Trap, user: bool) -> Decision {
    match trap {
        Trap::Interrupt(Interrupt::SupervisorTimer) => if user {
            Decision::Preempt
        } else {
            Decision::Rearm
        },
        Trap::Exception(e) => if !user {
            Decision::Panic
        } else {
            match e {
                Exception::UserEnvCall => Decision::Syscall,
                Exception::StoreFault => Decision::Kill,
                Exception::StorePageFault => Decision::Kill,
                Exception::LoadFault => Decision::Kill,
                Exception::LoadPageFault => Decision::Kill,
                Exception::InstructionFault => Decision::Kill,
                Exception::InstructionPageFault => Decision::Kill,
                Exception::IllegalInstruction => Decision::Kill,
                _ => Decision::Panic,
            }
        },
        _ => Decision::Panic,
    }
}

/// How the kernel answers a trap.
pub fn decision(trap: Trap, user: bool) -> (r: Decision)
    ensures
        r == decide(trap, user),
{
    match trap {
        Trap::Interrupt(Interrupt::SupervisorTimer) => if user {
            Decision::Preempt
        } else {
            Decision::Rearm
        },
        Trap::Exception(e) => if !user {
            Decision::Panic
        } else {
            match e {
                Exception::UserEnvCall => Decision::Syscall,
                Exception::StoreFault => Decision::Kill,
                Exception::StorePageFault => Decision::Kill,
                Exception::LoadFault => Decision::Kill,
                Exception::LoadPageFault => Decision::Kill,
                Exception::InstructionFault => Decision::Kill,
                Exception::InstructionPageFault => Decision::Kill,
                Exception::IllegalInstruction => Decision::Kill,
                _ => Decision::Panic,
            }
        },
        _ => Decision::Panic,
    }
}

/// The time of the next timer interrupt: one tick after `now`, and the
/// largest time there is if that lies beyond it.
pub open spec fn next_tick(now: u64) -> u64 {
    if now + TICK > u64::MAX {
        u64::MAX
    } else {
        (now + TICK) as u64
    }
}

/// The time of the next timer interrupt.
pub fn set_next_timer(now: u64) -> (r: u64)
    ensures
        r == next_tick(now),
        TICK == CLOCK_FREQ / 100,
{
    if now > u64::MAX - TICK {
        u64::MAX
    } else {
        now + TICK
    }
}

/// What the machine is to do after a switch.
pub open spec fn outcome_of(sw: Switch) -> TrapOutcome {
    match sw {
        Switch::To { from, to, satp } => TrapOutcome::Resume { pid: to, satp },
        Switch::Shutdown => TrapOutcome::Shutdown,
    }
}

/// The frame after a system call instruction: the program counter
/// points behind the instruction.
pub open spec fn advanced(cx: TrapContext) -> TrapContext {
    TrapContext {
        sepc: (if cx.sepc + 4 > u64::MAX {
            (cx.sepc + 4 - 0x1_0000_0000_0000_0000) as u64
        } else {
            (cx.sepc + 4) as u64
        }),
        ..cx
    }
}

/// Whether `after` is the frame `before` with `value` in the register of
/// the return value (`a0`).
pub open spec fn gives(before: TrapContext, after: TrapContext, value: u64) -> bool {
    &&& after.x@ == before.x@.update(10, value)
    &&& after.sstatus == before.sstatus
    &&& after.sepc == before.sepc
    &&& after.kernel_satp == before.kernel_satp
    &&& after.kernel_sp == before.kernel_sp
    &&& after.trap_handler == before.trap_handler
}

/// `k1` is `k0` with `value` in the register of the return value in the
/// trap frame of the task in slot `pid`.
pub open spec fn returned(k0: Kernel, k1: Kernel, pid: int, value: u64) -> bool {
    &&& stored(k0, k1, pid, k1.task_manager.task(pid).trap_cx)
    &&& gives(k0.task_manager.task(pid).trap_cx, k1.task_manager.task(pid).trap_cx, value)
}

/// `k1` is `k0` with `cx` as the trap frame of the task in slot `pid`.
pub open spec fn stored(k0: Kernel, k1: Kernel, pid: int, cx: TrapContext) -> bool {
    &&& k1.allocator == k0.allocator
    &&& k1.kernel_space == k0.kernel_space
    &&& k1.scheduler == k0.scheduler
    &&& k1.console == k0.console
    &&& k1.entry == k0.entry
    &&& k1.timer == k0.timer
    &&& k1.exited == k0.exited
    &&& k1.task_manager.wf()
    &&& k1.task_manager.current() == k0.task_manager.current()
    &&& k1.task_manager.has(pid)
    &&& k1.task_manager.task(pid) == (TaskControlBlock { trap_cx: cx, ..k0.task_manager.task(pid) })
    &&& forall|i: int|
        0 <= i < MAX_APP_NUM && i != pid ==> k1.task_manager.slots()[i]
            == k0.task_manager.slots()[i]
}

/// The system call of a trap frame: its number in `a7`, its arguments in
/// `a0` to `a5`.
pub open spec fn call_args(cx: TrapContext) -> [u64; 6] {
    [cx.x[10], cx.x[11], cx.x[12], cx.x[13], cx.x[14], cx.x[15]]
}

/// What `trap_handler` leaves.
pub open spec fn trap_post(
    k0: Kernel,
    k1: Kernel,
    cx: TrapContext,
    scause: u64,
    now: u64,
    r: TrapOutcome,
) -> bool {
    let user = (cx.sstatus / 0x100) % 2 == 0;
    let d = decide(trap_of(scause), user);
    let cur = k0.task_manager.current();
    if d == Decision::Rearm {
        r == TrapOutcome::ResumeKernel && k1 == (Kernel { timer: Some(next_tick(now)), ..k0 })
    } else if d == Decision::Panic || cur is None {
        r == TrapOutcome::Panic && k1 == k0
    } else {
        let p = cur.unwrap() as int;
        if d == Decision::Preempt {
            exists|mid: Kernel, sw: Switch|
                stored(k0, mid, p, cx) && #[trigger] switch_post(
                    Kernel { timer: Some(next_tick(now)), ..mid },
                    k1,
                    sw,
                ) && r == outcome_of(sw)
        } else if d == Decision::Kill {
            exists|mid: Kernel, sw: Switch|
                stored(k0, mid, p, cx) && #[trigger] exit_post(mid, k1, -1i32, sw) && r
                    == outcome_of(sw)
        } else {
            exists|mid: Kernel, done: Kernel, out: SyscallOutcome|
                stored(k0, mid, p, advanced(cx)) && #[trigger] syscall_post(
                    mid,
                    done,
                    cx.x[17],
                    call_args(cx),
                    now,
                    out,
                ) && (match out {
                    SyscallOutcome::Return(v) => returned(done, k1, p, register(v)) && r == (
                    TrapOutcome::Resume {
                        pid: p as usize,
                        satp: k1.task_manager.task(p).memory_set.token_spec(),
                    }),
                    SyscallOutcome::Yielded(sw) => returned(done, k1, p, 0) && r == outcome_of(sw),
                    SyscallOutcome::Exited(sw) => k1 == done && r == outcome_of(sw),
                })
        }
    }
}

impl Kernel {
    /// Stores `cx` as the trap frame of the task in slot `pid`.
    pub fn store_trap_cx(&mut self, pid: usize, cx: TrapContext)
        requires
            old(self).wf(),
            old(self).task_manager.has(pid as int),
        ensures
            final(self).wf(),
            stored(*old(self), *final(self), pid as int, cx),
    {
        proof {
            reveal(Kernel::spaces_ok);
        }
        self.task_manager.set_trap_cx(pid, cx);
        proof {
            lemma_spaces_kept(*old(self), *self);
            lemma_schedule_same(*old(self), *self);
        }
    }

    /// Handles a trap: `cx` is the frame that was saved, `scause` the
    /// cause register, `stval` the trap value and `now` the count of the
    /// clock.
    ///
    /// A system call from user mode is carried out, with the program
    /// counter moved behind the call and the value returned in `a0`; a
    /// timer interrupt sets the timer one tick ahead and, from user mode,
    /// lets the next task run; a memory fault or an illegal instruction
    /// in user mode ends the task with the code -1; anything else stops
    /// the kernel.
    pub fn trap_handler(&mut self, cx: TrapContext, scause: u64, stval: u64, now: u64) -> (r:
        TrapOutcome)
        requires
            old(self).wf(),
        ensures
            final(self).wf(),
            trap_post(*old(self), *final(self), cx, scause, now, r),
    {
        let user = from_user_mode(cx.sstatus);
        let d = decision(decode_cause(scause), user);
        if d == Decision::Rearm {
            self.timer = Some(set_next_timer(now));
            proof {
                reveal(Kernel::spaces_ok);
                lemma_spaces_kept(*old(self), *self);
                crate::kernel::lemma_schedule_kept(*old(self), *self);
            }
            return TrapOutcome::ResumeKernel;
        }
        let pid = match self.task_manager.get_current_task() {
            Some(p) => p,
            None => {
                return TrapOutcome::Panic;
            },
        };
        if d == Decision::Panic {
            return TrapOutcome::Panic;
        }
        proof {
            reveal(Kernel::schedule_ok);
            assert(self.task_manager.has(pid as int));
        }
        if d == Decision::Preempt {
            self.store_trap_cx(pid, cx);
            let ghost mid = *self;
            self.timer = Some(set_next_timer(now));
            proof {
                reveal(Kernel::spaces_ok);
                lemma_spaces_kept(mid, *self);
                crate::kernel::lemma_schedule_kept(mid, *self);
            }
            let ghost armed = *self;
            let sw = self.switch_task();
            proof {
                assert(armed == (Kernel { timer: Some(next_tick(now)), ..mid }));
                assert(switch_post(Kernel { timer: Some(next_tick(now)), ..mid }, *self, sw));
            }
            return outcome(sw);
        }
        if d == Decision::Kill {
            self.store_trap_cx(pid, cx);
            let ghost mid = *self;
            let sw = self.exit_current_and_run_next(-1);
            proof {
                assert(exit_post(mid, *self, -1i32, sw));
            }
            return outcome(sw);
        }
        let mut frame = cx;
        frame.sepc = if cx.sepc > u64::MAX - 4 {
            cx.sepc - (u64::MAX - 3)
        } else {
            cx.sepc + 4
        };
        proof {
            assert(frame == advanced(cx));
        }
        self.store_trap_cx(pid, frame);
        let ghost mid = *self;
        let args = [cx.x[10], cx.x[11], cx.x[12], cx.x[13], cx.x[14], cx.x[15]];
        proof {
            assert(args == call_args(cx));
        }
        let out = syscall(self, cx.x[17], args, now);
        let ghost done = *self;
        proof {
            assert(syscall_post(mid, done, cx.x[17], call_args(cx), now, out));
        }
        match out {
            SyscallOutcome::Return(v) => {
                proof {
                    lemma_returned(mid, done, cx.x[17], call_args(cx), now, out, pid as int);
                }
                let r = self.set_return(pid, to_register(v));
                let satp = match self.task_manager.get_task(pid) {
                    Some(t) => {
                        proof {
                            reveal(Kernel::spaces_ok);
                        }
                        t.get_user_token()
                    },
                    None => 0,
                };
                TrapOutcome::Resume { pid, satp }
            },
            SyscallOutcome::Yielded(sw) => {
                proof {
                    lemma_returned(mid, done, cx.x[17], call_args(cx), now, out, pid as int);
                }
                self.set_return(pid, 0);
                outcome(sw)
            },
            SyscallOutcome::Exited(sw) => outcome(sw),
        }
    }

    /// Puts `value` into the register of the return value in the trap
    /// frame of the task in slot `pid`.
    pub fn set_return(&mut self, pid: usize, value: u64)
        requires
            old(self).wf(),
            old(self).task_manager.has(pid as int),
        ensures
            final(self).wf(),
            returned(*old(self), *final(self), pid as int, value),
    {
        proof {
            reveal(Kernel::spaces_ok);
        }
        let mut frame = match self.task_manager.get_task(pid) {
            Some(t) => t.trap_cx,
            None => TrapContext {
                x: [0u64; 32],
                sstatus: 0,
                sepc: 0,
                kernel_satp: 0,
                kernel_sp: 0,
                trap_handler: 0,
            },
        };
        frame.x[10] = value;
        self.store_trap_cx(pid, frame);
    }
}

/// What the machine is to do after a switch.
pub fn outcome(sw: Switch) -> (r: TrapOutcome)
    ensures
        r == outcome_of(sw),
{
    match sw {
        Switch::To { from: _, to, satp } => TrapOutcome::Resume { pid: to, satp },
        Switch::Shutdown => TrapOutcome::Shutdown,
    }
}

/// After a system call that returns a value or gives the processor up,
/// the task that called is still in the table.
proof fn lemma_returned(
    k0: Kernel,
    k1: Kernel,
    id: u64,
    args: [u64; 6],
    now: u64,
    out: SyscallOutcome,
    pid: int,
)
    requires
        k0.wf(),
        0 <= pid < MAX_APP_NUM,
        k0.task_manager.current() == Some(pid as usize),
        k0.task_manager.has(pid),
        syscall_post(k0, k1, id, args, now, out),
        !(out is Exited),
    ensures
        k1.task_manager.has(pid),
{
    reveal(Kernel::schedule_ok);
    if id == crate::syscall::SYSCALL_WRITE {
        assert(k1.task_manager == k0.task_manager);
    } else if id == crate::syscall::SYSCALL_YIELD {
        assert(same_spaces(k0, k1));
        assert(k1.task_manager.has(pid) == k0.task_manager.has(pid));
    } else if id == crate::syscall::SYSCALL_GET_TIME {
        assert(k1 == k0);
    } else if id == crate::syscall::SYSCALL_MMAP {
        if out->Return_0 == -1 && crate::syscall::memory::mmap_region(args[0], args[1], args[3])
            is None {
            assert(k1 == k0);
        }
    } else if id == crate::syscall::SYSCALL_MUNMAP {
        if out->Return_0 == -1 {
            assert(k1 == k0);
        }
    } else if id != crate::syscall::SYSCALL_EXIT {
        assert(k1 == k0);
    }
}

} // verus!
