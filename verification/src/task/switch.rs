//! Switching between tasks: which task runs next, and what becomes of
//! the one that ran.

use vstd::prelude::*;
use crate::config::MAX_APP_NUM;
use crate::kernel::{lemma_spaces_kept, same_spaces, Kernel};
use crate::task::task::{TaskControlBlock, TaskStatus};

verus! {

/// What the machine is to do after the kernel has chosen.
#[derive(Copy, Clone, Debug, PartialEq, Eq, Structural)]
pub enum Switch {
    /// Go on with task `to`, in the address space with the token `satp`;
    /// `from` is the task that ran, if its context is to be saved.
    To { from: Option<usize>, to: usize, satp: u64 },
    /// No task is left to run: shut the machine down.
    Shutdown,
}

/// Task `t1` is task `t0` but for its status: its trap frame, its kernel
/// context, its address space and the rest are the same.
pub open spec fn same_but_status(t0: TaskControlBlock, t1: TaskControlBlock) -> bool {
    t1 == (TaskControlBlock { task_status: t1.task_status, ..t0 })
}

/// What `switch_task` leaves. Every task is as it was but for its
/// status.
pub open spec fn switch_post(k0: Kernel, k1: Kernel, r: Switch) -> bool {
    &&& k1.wf()
    &&& same_spaces(k0, k1)
    &&& forall|i: int|
        #![trigger k1.task_manager.task(i)]
        k0.task_manager.has(i) ==> same_but_status(k0.task_manager.task(i), k1.task_manager.task(i))
    &&& k1.allocator == k0.allocator
    &&& k1.console == k0.console
    &&& k1.entry == k0.entry
    &&& k1.timer == k0.timer
    &&& k1.exited == k0.exited
    &&& k0.some_ready() || k0.task_manager.current() is Some ==> r
        != Switch::Shutdown
    &&& match r {
        Switch::To { from, to, satp } => {
            &&& from == k0.task_manager.current()
            &&& to == (if k0.some_ready() {
                k0.scheduler.queue()[0]
            } else {
                k0.task_manager.current().unwrap()
            })
            &&& k1.task_manager.current() == Some(to)
            &&& k1.task_manager.is(to as int, TaskStatus::Running)
            &&& satp == k1.task_manager.task(to as int).memory_set.token_spec()
            &&& from is Some && from != Some(to) ==> k1.task_manager.is(
                from.unwrap() as int,
                TaskStatus::Ready,
            )
            &&& k1.scheduler.queue() == (match k0.task_manager.current() {
                Some(p) => k0.scheduler.queue().push(p),
                None => k0.scheduler.queue(),
            }).subrange(
                1,
                (match k0.task_manager.current() {
                    Some(p) => k0.scheduler.queue().push(p),
                    None => k0.scheduler.queue(),
                }).len() as int,
            )
        },
        Switch::Shutdown => {
            &&& k1.task_manager == k0.task_manager
            &&& k1.scheduler == k0.scheduler
        }
    }
}

/// What `exit_current_and_run_next` leaves. Every other task is as it
/// was but for its status.
pub open spec fn exit_post(k0: Kernel, k1: Kernel, exit_code: i32, r: Switch) -> bool {
    &&& k1.wf()
    &&& forall|i: int|
        #![trigger k1.task_manager.task(i)]
        k0.task_manager.has(i) && k0.task_manager.current() != Some(i as usize)
            ==> k1.task_manager.has(i) && same_but_status(
            k0.task_manager.task(i),
            k1.task_manager.task(i),
        )
    &&& k1.kernel_space == k0.kernel_space
    &&& k1.console == k0.console
    &&& k1.entry == k0.entry
    &&& k1.timer == k0.timer
    &&& k1.allocator.start() == k0.allocator.start()
    &&& k1.allocator.end() == k0.allocator.end()
    &&& match k0.task_manager.current() {
        Some(p) => {
            &&& !k1.task_manager.has(p as int)
            &&& k1.exited@ == k0.exited@.push((p, exit_code))
            &&& forall|q: u64|
                k0.task_owns(p as int, q) ==> !k1.allocator.is_allocated(q)
            &&& k1.allocator.frames_in_use() + k0.task_manager.task(
                p as int,
            ).memory_set.owned_count() == k0.allocator.frames_in_use()
            &&& forall|q: u64|
                k0.allocator.is_allocated(q) && !k0.task_owns(p as int, q)
                    ==> k1.allocator.is_allocated(q)
            &&& forall|i: int|
                0 <= i < MAX_APP_NUM && i != p
                    ==> (k1.task_manager.has(i) == k0.task_manager.has(i)
                    && (k0.task_manager.has(i)
                    ==> k1.task_manager.task(i).memory_set == k0.task_manager.task(
                    i,
                ).memory_set))
        },
        None => {
            &&& k1.exited == k0.exited
            &&& k1.allocator == k0.allocator
            &&& same_spaces(k0, k1)
        }
    }
    &&& match r {
        Switch::To { from, to, satp } => {
            &&& from is None
            &&& k0.some_ready()
            &&& to == k0.scheduler.queue()[0]
            &&& k1.task_manager.current() == Some(to)
            &&& k1.task_manager.is(to as int, TaskStatus::Running)
            &&& satp == k1.task_manager.task(to as int).memory_set.token_spec()
            &&& k1.scheduler.queue() == k0.scheduler.queue().subrange(
                1,
                k0.scheduler.queue().len() as int,
            )
        },
        Switch::Shutdown => {
            &&& !k0.some_ready()
            &&& k1.task_manager.current() is None
            &&& k1.scheduler == k0.scheduler
        }
    }
}

/// The task that ran is ready again, at the end of the queue.
proof fn lemma_suspended(k0: Kernel, k1: Kernel, pid: int)
    requires
        k0.schedule_ok(),
        k0.task_manager.wf(),
        k1.task_manager.wf(),
        k0.task_manager.current() == Some(pid as usize),
        0 <= pid < MAX_APP_NUM,
        k1.task_manager.current() is None,
        k1.task_manager.has(pid),
        k1.task_manager.task(pid).task_status == TaskStatus::Ready,
        forall|i: int|
            0 <= i < MAX_APP_NUM && i != pid ==> k1.task_manager.slots()[i]
                == k0.task_manager.slots()[i],
        k1.scheduler.queue() == k0.scheduler.queue().push(pid as usize),
        k1.scheduler.ticks() == k0.scheduler.ticks(),
        k1.scheduler.slice_len() == k0.scheduler.slice_len(),
    ensures
        k1.schedule_ok(),
{
    reveal(Kernel::schedule_ok);
    let q0 = k0.scheduler.queue();
    let q1 = k1.scheduler.queue();
    assert(k0.task_manager.is(pid, TaskStatus::Running));
    assert forall|k: int| 0 <= k < q1.len() implies k1.task_manager.is(
        #[trigger] q1[k] as int,
        TaskStatus::Ready,
    ) by {
        if k < q0.len() {
            assert(k0.task_manager.is(q0[k] as int, TaskStatus::Ready));
            assert(q1[k] == q0[k]);
        }
    }
    assert forall|i: int, j: int| 0 <= i < q1.len() && 0 <= j < q1.len() && i != j implies q1[i]
        != q1[j] by {
        if i < q0.len() {
            assert(k0.task_manager.is(q0[i] as int, TaskStatus::Ready));
        }
        if j < q0.len() {
            assert(k0.task_manager.is(q0[j] as int, TaskStatus::Ready));
        }
    }
    assert forall|p: int| #[trigger] k1.task_manager.is(p, TaskStatus::Ready) implies q1.contains(
        p as usize,
    ) by {
        if p == pid {
            assert(q1[q0.len() as int] == pid as usize);
        } else {
            assert(k0.task_manager.is(p, TaskStatus::Ready));
            let k = choose|k: int| 0 <= k < q0.len() && q0[k] == p as usize;
            assert(q1[k] == p as usize);
        }
    }
    assert forall|p: int| #[trigger]
        k1.task_manager.is(p, TaskStatus::Running) implies k1.task_manager.current() == Some(
        p as usize,
    ) by {
        if p != pid {
            assert(k0.task_manager.is(p, TaskStatus::Running));
        }
    }
    assert forall|p: int| !#[trigger] k1.task_manager.is(p, TaskStatus::Zombie) by {
        if p != pid {
            assert(!k0.task_manager.is(p, TaskStatus::Zombie));
        }
    }
}

/// The task at the head of the queue runs.
proof fn lemma_dispatched(k0: Kernel, k1: Kernel, pid: int)
    requires
        k0.schedule_ok(),
        k0.task_manager.wf(),
        k1.task_manager.wf(),
        k0.task_manager.current() is None,
        k0.scheduler.queue().len() > 0,
        k0.scheduler.queue()[0] == pid,
        k1.task_manager.current() == Some(pid as usize),
        k1.task_manager.has(pid),
        k1.task_manager.task(pid).task_status == TaskStatus::Running,
        forall|i: int|
            0 <= i < MAX_APP_NUM && i != pid ==> k1.task_manager.slots()[i]
                == k0.task_manager.slots()[i],
        k1.scheduler.queue() == k0.scheduler.queue().subrange(
            1,
            k0.scheduler.queue().len() as int,
        ),
        k1.scheduler.ticks() == k0.scheduler.ticks(),
        k1.scheduler.slice_len() == k0.scheduler.slice_len(),
    ensures
        k1.schedule_ok(),
{
    reveal(Kernel::schedule_ok);
    let q0 = k0.scheduler.queue();
    let q1 = k1.scheduler.queue();
    assert(k0.task_manager.is(q0[0] as int, TaskStatus::Ready));
    assert forall|k: int| 0 <= k < q1.len() implies k1.task_manager.is(
        #[trigger] q1[k] as int,
        TaskStatus::Ready,
    ) by {
        assert(q1[k] == q0[k + 1]);
        assert(k0.task_manager.is(q0[k + 1] as int, TaskStatus::Ready));
        assert(q0[k + 1] != q0[0]);
    }
    assert forall|i: int, j: int| 0 <= i < q1.len() && 0 <= j < q1.len() && i != j implies q1[i]
        != q1[j] by {
        assert(q0[i + 1] != q0[j + 1]);
    }
    assert forall|p: int| #[trigger] k1.task_manager.is(p, TaskStatus::Ready) implies q1.contains(
        p as usize,
    ) by {
        assert(p != pid);
        assert(k0.task_manager.is(p, TaskStatus::Ready));
        let k = choose|k: int| 0 <= k < q0.len() && q0[k] == p as usize;
        assert(k > 0);
        assert(q1[k - 1] == p as usize);
    }
    assert forall|p: int| #[trigger]
        k1.task_manager.is(p, TaskStatus::Running) implies k1.task_manager.current() == Some(
        p as usize,
    ) by {
        if p != pid {
            assert(k0.task_manager.is(p, TaskStatus::Running));
        }
    }
    assert forall|p: int| !#[trigger] k1.task_manager.is(p, TaskStatus::Zombie) by {
        if p != pid {
            assert(!k0.task_manager.is(p, TaskStatus::Zombie));
        }
    }
}

impl Kernel {
    /// Lets the task at the head of the ready queue run, if there is one.
    /// No task may run at the time.
    pub fn run_next(&mut self) -> (r: Switch)
        requires
            old(self).wf(),
            old(self).task_manager.current() is None,
        ensures
            final(self).wf(),
            same_spaces(*old(self), *final(self)),
            final(self).allocator == old(self).allocator,
            final(self).console == old(self).console,
            final(self).entry == old(self).entry,
            final(self).timer == old(self).timer,
            final(self).exited == old(self).exited,
            forall|i: int|
                #![trigger final(self).task_manager.task(i)]
                old(self).task_manager.has(i) ==> final(self).task_manager.has(i)
                    && same_but_status(
                    old(self).task_manager.task(i),
                    final(self).task_manager.task(i),
                ),
            match r {
                Switch::To { from, to, satp } => {
                    &&& from is None
                    &&& old(self).some_ready()
                    &&& to == old(self).scheduler.queue()[0]
                    &&& old(self).task_manager.is(to as int, TaskStatus::Ready)
                    &&& final(self).task_manager.current() == Some(to)
                    &&& final(self).task_manager.is(to as int, TaskStatus::Running)
                    &&& satp == final(self).task_manager.task(to as int).memory_set.token_spec()
                    &&& final(self).scheduler.queue() == old(self).scheduler.queue().subrange(
                        1,
                        old(self).scheduler.queue().len() as int,
                    )
                    &&& forall|i: int|
                        0 <= i < MAX_APP_NUM && i != to ==> final(self).task_manager.slots()[i]
                            == old(self).task_manager.slots()[i]
                },
                Switch::Shutdown => {
                    &&& !old(self).some_ready()
                    &&& final(self).task_manager == old(self).task_manager
                    &&& final(self).scheduler == old(self).scheduler
                },
            },
    {
        proof {
            reveal(Kernel::spaces_ok);
            reveal(Kernel::schedule_ok);
        }
        let next = match self.scheduler.schedule_next() {
            Some(n) => n,
            None => {
                return Switch::Shutdown;
            },
        };
        proof {
            assert(old(self).task_manager.is(old(self).scheduler.queue()[0] as int, TaskStatus::Ready));
        }
        self.task_manager.set_status(next, TaskStatus::Running);
        self.task_manager.set_current_task(Some(next));
        proof {
            lemma_dispatched(*old(self), *self, next as int);
            lemma_spaces_kept(*old(self), *self);
        }
        let satp = match self.task_manager.get_task(next) {
            Some(t) => t.get_user_token(),
            None => 0,
        };
        Switch::To { from: None, to: next, satp }
    }

    /// Takes the processor from the task that runs, puts the task at the
    /// end of the ready queue, and lets the task at the head of the queue
    /// run. With no task running, lets the head of the queue run.
    pub fn switch_task(&mut self) -> (r: Switch)
        requires
            old(self).wf(),
        ensures
            switch_post(*old(self), *final(self), r),
    {
        let current = self.task_manager.get_current_task();
        match current {
            Some(p) => {
                proof {
                    reveal(Kernel::spaces_ok);
                    reveal(Kernel::schedule_ok);
                    assert(old(self).task_manager.is(p as int, TaskStatus::Running));
                }
                self.task_manager.set_status(p, TaskStatus::Ready);
                self.task_manager.set_current_task(None);
                self.scheduler.enqueue(p);
                proof {
                    lemma_suspended(*old(self), *self, p as int);
                    lemma_spaces_kept(*old(self), *self);
                }
                let ghost mid = *self;
                let r = self.run_next();
                proof {
                    assert forall|i: int|
                        #![trigger self.task_manager.task(i)]
                        old(self).task_manager.has(i) implies same_but_status(
                        old(self).task_manager.task(i),
                        self.task_manager.task(i),
                    ) by {
                        assert(mid.task_manager.has(i));
                        assert(same_but_status(
                            old(self).task_manager.task(i),
                            mid.task_manager.task(i),
                        ));
                        assert(same_but_status(mid.task_manager.task(i), self.task_manager.task(i)));
                    }
                    assert(mid.scheduler.queue()[0] == (if old(self).some_ready() {
                        old(self).scheduler.queue()[0]
                    } else {
                        p
                    }));
                    assert forall|pid: int|
                        #![trigger self.task_manager.has(pid)]
                        #![trigger old(self).task_manager.has(pid)]
                        self.task_manager.has(pid) == old(self).task_manager.has(pid)
                            && (old(self).task_manager.has(pid) ==> {
                            &&& self.task_manager.task(pid).memory_set
                                == old(self).task_manager.task(pid).memory_set
                            &&& self.task_manager.task(pid).trap_cx_ppn
                                == old(self).task_manager.task(pid).trap_cx_ppn
                        }) by {
                        assert(mid.task_manager.has(pid) == old(self).task_manager.has(pid));
                    }
                }
                match r {
                    Switch::To { from: _, to, satp } => Switch::To { from: Some(p), to, satp },
                    Switch::Shutdown => Switch::Shutdown,
                }
            },
            None => self.run_next(),
        }
    }
}


/// The task in slot `pid` is gone and its frames are given back.
proof fn lemma_task_removed(k0: Kernel, k1: Kernel, pid: int)
    requires
        k0.spaces_ok(),
        k0.apart(),
        k0.task_manager.has(pid),
        0 <= pid < MAX_APP_NUM,
        k1.kernel_space == k0.kernel_space,
        k1.task_manager.wf(),
        forall|i: int|
            0 <= i < MAX_APP_NUM && i != pid ==> (k1.task_manager.has(i) == k0.task_manager.has(i)
                && (k0.task_manager.has(i) ==> k1.task_manager.task(i).memory_set
                == k0.task_manager.task(i).memory_set && k1.task_manager.task(i).trap_cx_ppn
                == k0.task_manager.task(i).trap_cx_ppn)),
        !k1.task_manager.has(pid),
        k1.allocator.wf(),
        forall|q: u64|
            k0.allocator.is_allocated(q) && !k0.task_manager.task(pid).memory_set.owns(q)
                ==> k1.allocator.is_allocated(q),
    ensures
        k1.spaces_ok(),
        k1.apart(),
{
    reveal(Kernel::spaces_ok);
    reveal(Kernel::apart);
    let gone = k0.task_manager.task(pid).memory_set;
    k0.kernel_space.lemma_owned_allocated(k0.allocator);
    assert forall|q: u64| k1.kernel_space.owns(q) implies k1.allocator.is_allocated(q) by {
        assert(k0.allocator.is_allocated(q));
        if gone.owns(q) {
            assert(k0.task_owns(pid, q));
        }
    }
    k1.kernel_space.lemma_backed(k1.allocator);
    assert forall|p: int| #[trigger] k1.task_manager.has(p) implies {
        let t = k1.task_manager.task(p);
        &&& t.wf()
        &&& t.memory_set.backed_by(&k1.allocator)
        &&& t.memory_set.trampoline_frame() == k1.kernel_space.trampoline_frame()
    } by {
        assert(0 <= p < MAX_APP_NUM && p != pid);
        assert(k0.task_manager.has(p));
        let t0 = k0.task_manager.task(p);
        t0.memory_set.lemma_owned_allocated(k0.allocator);
        assert forall|q: u64| t0.memory_set.owns(q) implies k1.allocator.is_allocated(q) by {
            assert(k0.task_owns(p, q));
            assert(!k0.task_owns(pid, q));
        }
        t0.memory_set.lemma_backed(k1.allocator);
    }
    assert forall|i: int, j: int, q: u64| i != j
        && #[trigger] k1.task_owns(i, q) implies !#[trigger] k1.task_owns(
        j,
        q,
    ) by {
        assert(k0.task_manager.has(i));
        assert(k0.task_owns(i, q));
        if k1.task_owns(j, q) {
            assert(k0.task_manager.has(j));
            assert(k0.task_owns(j, q));
        }
    }
    assert forall|i: int, q: u64| #[trigger] k1.task_owns(i, q) implies !k1.kernel_space.owns(q) by {
        assert(k0.task_manager.has(i));
        assert(k0.task_owns(i, q));
    }
}

/// The task that ran is gone from the table.
proof fn lemma_exited(k0: Kernel, k1: Kernel, pid: int)
    requires
        k0.schedule_ok(),
        k0.task_manager.wf(),
        k1.task_manager.wf(),
        k0.task_manager.current() == Some(pid as usize),
        0 <= pid < MAX_APP_NUM,
        k1.task_manager.current() is None,
        !k1.task_manager.has(pid),
        forall|i: int|
            0 <= i < MAX_APP_NUM && i != pid ==> k1.task_manager.slots()[i]
                == k0.task_manager.slots()[i],
        k1.scheduler == k0.scheduler,
    ensures
        k1.schedule_ok(),
{
    reveal(Kernel::schedule_ok);
    let q0 = k0.scheduler.queue();
    assert(k0.task_manager.is(pid, TaskStatus::Running));
    assert forall|k: int| 0 <= k < q0.len() implies k1.task_manager.is(
        #[trigger] q0[k] as int,
        TaskStatus::Ready,
    ) by {
        assert(k0.task_manager.is(q0[k] as int, TaskStatus::Ready));
    }
    assert forall|p: int| #[trigger] k1.task_manager.is(p, TaskStatus::Ready) implies q0.contains(
        p as usize,
    ) by {
        assert(k0.task_manager.is(p, TaskStatus::Ready));
    }
    assert forall|p: int| #[trigger]
        k1.task_manager.is(p, TaskStatus::Running) implies k1.task_manager.current() == Some(
        p as usize,
    ) by {
        assert(k0.task_manager.is(p, TaskStatus::Running));
    }
    assert forall|p: int| !#[trigger] k1.task_manager.is(p, TaskStatus::Zombie) by {
        if p != pid {
            assert(!k0.task_manager.is(p, TaskStatus::Zombie));
        }
    }
}

impl Kernel {
    /// Ends the task that runs with the code `exit_code`: the task
    /// becomes a zombie, leaves the table, and every frame of its address
    /// space goes back to the allocator; its number and code are noted.
    /// Then the task at the head of the ready queue runs. With no task
    /// left to run, the machine is to shut down.
    pub fn exit_current_and_run_next(&mut self, exit_code: i32) -> (r: Switch)
        requires
            old(self).wf(),
        ensures
            exit_post(*old(self), *final(self), exit_code, r),
    {
        let current = self.task_manager.get_current_task();
        match current {
            Some(p) => {
                proof {
                    reveal(Kernel::spaces_ok);
                    reveal(Kernel::schedule_ok);
                    assert(old(self).task_manager.is(p as int, TaskStatus::Running));
                }
                self.task_manager.mark_zombie(p, exit_code);
                let gone = self.task_manager.remove_task(p);
                self.exited.push((p, exit_code));
                match gone {
                    Some(task) => {
                        proof {
                            assert(task.memory_set == old(self).task_manager.task(
                                p as int,
                            ).memory_set);
                        }
                        task.memory_set.release(&mut self.allocator);
                    },
                    None => {},
                }
                proof {
                    lemma_task_removed(*old(self), *self, p as int);
                    lemma_exited(*old(self), *self, p as int);
                    reveal(Kernel::apart);
                }
                let ghost mid = *self;
                let r = self.run_next();
                proof {
                    assert forall|i: int|
                        #![trigger self.task_manager.task(i)]
                        old(self).task_manager.has(i) && i != p implies self.task_manager.has(i)
                        && same_but_status(
                        old(self).task_manager.task(i),
                        self.task_manager.task(i),
                    ) by {
                        assert(mid.task_manager.slots()[i] == old(self).task_manager.slots()[i]);
                        assert(mid.task_manager.has(i));
                        assert(same_but_status(mid.task_manager.task(i), self.task_manager.task(i)));
                    }
                    assert forall|i: int| 0 <= i < MAX_APP_NUM && i != p implies (
                    self.task_manager.has(i) == old(self).task_manager.has(i)
                        && (old(self).task_manager.has(i)
                        ==> self.task_manager.task(i).memory_set
                        == old(self).task_manager.task(i).memory_set)) by {
                        assert(mid.task_manager.has(i) == old(self).task_manager.has(i));
                    }
                    assert(!mid.task_manager.has(p as int));
                }
                r
            },
            None => self.run_next(),
        }
    }
}


/// When a task is ready, a switch lets a task run that was ready: the
/// one at the head of the ready queue, in one step.
pub proof fn lemma_progress(k0: Kernel, k1: Kernel, r: Switch)
    requires
        k0.wf(),
        k0.some_ready(),
        switch_post(k0, k1, r),
    ensures
        r is To,
        r->to == k0.scheduler.queue()[0],
        k0.task_manager.is(r->to as int, TaskStatus::Ready),
        k1.task_manager.is(r->to as int, TaskStatus::Running),
        k1.task_manager.current() == Some(r->to),
{
    reveal(Kernel::schedule_ok);
}

/// When a task has ended, none of the frames that its address space
/// owned is in use, whichever task runs next.
pub proof fn lemma_exit_frees(k0: Kernel, k1: Kernel, exit_code: i32, r: Switch, q: u64)
    requires
        k0.wf(),
        k0.task_manager.current() is Some,
        exit_post(k0, k1, exit_code, r),
        k0.task_owns(k0.task_manager.current().unwrap() as int, q),
    ensures
        k0.allocator.is_allocated(q),
        !k1.allocator.is_allocated(q),
        forall|i: int| !k1.task_owns(i, q),
        !k1.kernel_space.owns(q),
{
    reveal(Kernel::spaces_ok);
    reveal(Kernel::apart);
    let p = k0.task_manager.current().unwrap() as int;
    k0.task_manager.task(p).memory_set.lemma_owned_allocated(k0.allocator);
    k1.kernel_space.lemma_owned_allocated(k1.allocator);
    assert forall|i: int| !k1.task_owns(i, q) by {
        if k1.task_owns(i, q) {
            k1.task_manager.task(i).memory_set.lemma_owned_allocated(k1.allocator);
        }
    }
}

} // verus!
