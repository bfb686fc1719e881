//! The table of tasks.

use vstd::prelude::*;
use crate::config::MAX_APP_NUM;
use crate::task::task::{TaskControlBlock, TaskStatus};

verus! {

/// The slot `k + 1` places after slot `start`, going round the table.
pub open spec fn slot_after(start: usize, k: int) -> int {
    (start + k + 1) % (MAX_APP_NUM as int)
}

/// The tasks of the system, each in the slot of its number, and the
/// number of the task that runs.
pub struct TaskManager {
    tasks: Vec<Option<TaskControlBlock>>,
    current_task: Option<usize>,
}

impl TaskManager {
    /// The slots of the table.
    pub closed spec fn slots(&self) -> Seq<Option<TaskControlBlock>> {
        self.tasks@
    }

    /// The number of the task that runs.
    pub closed spec fn current(&self) -> Option<usize> {
        self.current_task
    }

    /// The table has one slot for each task that there may be.
    pub open spec fn wf(&self) -> bool {
        self.slots().len() == MAX_APP_NUM
    }

    /// Whether slot `pid` holds a task.
    pub open spec fn has(&self, pid: int) -> bool {
        0 <= pid < self.slots().len() && self.slots()[pid] is Some
    }

    /// The task in slot `pid`.
    pub open spec fn task(&self, pid: int) -> TaskControlBlock {
        self.slots()[pid].unwrap()
    }

    /// Whether slot `pid` holds a task in state `status`.
    pub open spec fn is(&self, pid: int, status: TaskStatus) -> bool {
        self.has(pid) && self.task(pid).task_status == status
    }

    /// Number of tasks among the first `n` slots.
    pub open spec fn count_upto(&self, n: int) -> nat
        decreases n,
    {
        if n <= 0 {
            0
        } else {
            self.count_upto(n - 1) + (if self.has(n - 1) {
                1nat
            } else {
                0nat
            })
        }
    }

    /// A table without tasks.
    pub fn new() -> (r: Self)
        ensures
            r.wf(),
            r.current() is None,
            forall|i: int| !r.has(i),
    {
        let mut tasks: Vec<Option<TaskControlBlock>> = Vec::new();
        let mut i: usize = 0;
        while i < MAX_APP_NUM
            invariant
                i <= MAX_APP_NUM,
                tasks@.len() == i,
                forall|k: int| 0 <= k < i ==> tasks@[k] is None,
            decreases MAX_APP_NUM - i,
        {
            tasks.push(None);
            i += 1;
        }
        TaskManager { tasks, current_task: None }
    }

    /// The first free slot, if there is one.
    pub fn free_slot(&self) -> (r: Option<usize>)
        requires
            self.wf(),
        ensures
            match r {
                Some(pid) => pid < MAX_APP_NUM && !self.has(pid as int) && forall|i: int|
                    0 <= i < pid ==> self.has(i),
                None => forall|i: int| 0 <= i < MAX_APP_NUM ==> self.has(i),
            },
    {
        let mut i: usize = 0;
        while i < MAX_APP_NUM
            invariant
                i <= MAX_APP_NUM,
                self.wf(),
                forall|k: int| 0 <= k < i ==> self.has(k),
            decreases MAX_APP_NUM - i,
        {
            if self.tasks[i].is_none() {
                return Some(i);
            }
            i += 1;
        }
        None
    }

    /// Puts `task` into the first free slot and returns the number of the
    /// slot; gives the task back if the table is full.
    pub fn add_task(&mut self, task: TaskControlBlock) -> (r: Result<usize, TaskControlBlock>)
        requires
            old(self).wf(),
        ensures
            final(self).wf(),
            final(self).current() == old(self).current(),
            match r {
                Ok(pid) => {
                    &&& pid < MAX_APP_NUM
                    &&& !old(self).has(pid as int)
                    &&& forall|i: int| 0 <= i < pid ==> old(self).has(i)
                    &&& final(self).slots() == old(self).slots().update(pid as int, Some(task))
                },
                Err(t) => {
                    &&& t == task
                    &&& final(self).slots() == old(self).slots()
                    &&& forall|i: int| 0 <= i < MAX_APP_NUM ==> old(self).has(i)
                },
            },
    {
        match self.free_slot() {
            Some(pid) => {
                self.tasks[pid] = Some(task);
                Ok(pid)
            },
            None => Err(task),
        }
    }

    /// Takes the task out of slot `pid`, if it holds one. The task is no
    /// longer the one that runs.
    pub fn remove_task(&mut self, pid: usize) -> (r: Option<TaskControlBlock>)
        requires
            old(self).wf(),
        ensures
            final(self).wf(),
            final(self).current() == (if old(self).current() == Some(pid) {
                None
            } else {
                old(self).current()
            }),
            pid < MAX_APP_NUM ==> r == old(self).slots()[pid as int]
                && final(self).slots() == old(self).slots().update(pid as int, None),
            pid >= MAX_APP_NUM ==> r is None && final(self).slots() == old(self).slots(),
    {
        let mut taken: Option<TaskControlBlock> = None;
        if pid < self.tasks.len() {
            taken = self.tasks[pid].take();
        }
        match self.current_task {
            Some(c) => {
                if c == pid {
                    self.current_task = None;
                }
            },
            None => {},
        }
        taken
    }

    /// Puts `task` into slot `pid`, in place of what the slot held.
    pub fn put_task(&mut self, pid: usize, task: TaskControlBlock)
        requires
            old(self).wf(),
            pid < MAX_APP_NUM,
        ensures
            final(self).wf(),
            final(self).current() == old(self).current(),
            final(self).slots() == old(self).slots().update(pid as int, Some(task)),
    {
        self.tasks[pid] = Some(task);
    }

    /// Takes the task out of slot `pid` for a change; `put_task` puts it
    /// back. The number of the task that runs stays.
    pub fn take_task(&mut self, pid: usize) -> (r: Option<TaskControlBlock>)
        requires
            old(self).wf(),
            pid < MAX_APP_NUM,
        ensures
            final(self).wf(),
            final(self).current() == old(self).current(),
            r == old(self).slots()[pid as int],
            final(self).slots() == old(self).slots().update(pid as int, None),
    {
        self.tasks[pid].take()
    }

    /// The task in slot `pid`.
    pub fn get_task(&self, pid: usize) -> (r: Option<&TaskControlBlock>)
        requires
            self.wf(),
        ensures
            match r {
                Some(t) => self.has(pid as int) && *t == self.task(pid as int),
                None => !self.has(pid as int),
            },
    {
        if pid < self.tasks.len() {
            self.tasks[pid].as_ref()
        } else {
            None
        }
    }

    /// The task in slot `pid`, for changing it; the other slots and the
    /// task that runs stay as they are.
    pub fn get_task_mut(&mut self, pid: usize) -> (r: Option<&mut TaskControlBlock>)
        requires
            old(self).wf(),
        ensures
            final(self).wf(),
            final(self).current() == old(self).current(),
            forall|i: int|
                0 <= i < MAX_APP_NUM && i != pid ==> final(self).slots()[i] == old(self).slots()[i],
            match r {
                Some(t) => {
                    &&& old(self).has(pid as int)
                    &&& *t == old(self).task(pid as int)
                    &&& final(self).slots()[pid as int] == Some(*final(t))
                },
                None => !old(self).has(pid as int) && !final(self).has(pid as int),
            },
    {
        if pid < self.tasks.len() {
            self.tasks[pid].as_mut()
        } else {
            None
        }
    }

    /// The number of the task that runs.
    pub fn get_current_task(&self) -> (r: Option<usize>)
        ensures
            r == self.current(),
    {
        self.current_task
    }

    /// Sets the number of the task that runs.
    pub fn set_current_task(&mut self, pid: Option<usize>)
        ensures
            final(self).current() == pid,
            final(self).slots() == old(self).slots(),
    {
        self.current_task = pid;
    }

    /// The first slot after `start`, going round the table once, that
    /// holds a task that is ready.
    pub fn find_next_task(&self, start: usize) -> (r: Option<usize>)
        requires
            self.wf(),
        ensures
            match r {
                Some(pid) => {
                    &&& self.is(pid as int, TaskStatus::Ready)
                    &&& exists|k: int|
                        0 <= k < MAX_APP_NUM && pid == #[trigger] slot_after(start, k) && forall|
                            j: int,
                        |
                            0 <= j < k ==> !self.is(#[trigger] slot_after(start, j), TaskStatus::Ready)
                },
                None => forall|i: int| !self.is(i, TaskStatus::Ready),
            },
    {
        let len = self.tasks.len();
        let base = start % len;
        let mut i: usize = 0;
        while i < len
            invariant
                i <= len,
                len == MAX_APP_NUM,
                self.wf(),
                base == start % MAX_APP_NUM,
                forall|j: int|
                    0 <= j < i ==> !self.is(#[trigger] slot_after(start, j), TaskStatus::Ready),
            decreases len - i,
        {
            let idx = (base + i + 1) % len;
            proof {
                assert(slot_after(start, i as int) == idx) by {
                    assert(start % 16 == base);
                    assert((start + i + 1) % 16 == (base + i + 1) % 16);
                }
            }
            let ready = match &self.tasks[idx] {
                Some(task) => task.task_status == TaskStatus::Ready,
                None => false,
            };
            if ready {
                return Some(idx);
            }
            i += 1;
        }
        proof {
            assert forall|p: int| !self.is(p, TaskStatus::Ready) by {
                if 0 <= p < MAX_APP_NUM {
                    let j = (p - start - 1) % (MAX_APP_NUM as int);
                    assert(slot_after(start, j) == p);
                }
            }
        }
        None
    }

    /// Marks the task in slot `pid` as a zombie and records the code with
    /// which it ended.
    pub fn mark_zombie(&mut self, pid: usize, exit_code: i32)
        requires
            old(self).wf(),
        ensures
            final(self).wf(),
            final(self).current() == old(self).current(),
            !old(self).has(pid as int) ==> final(self).slots() == old(self).slots(),
            old(self).has(pid as int) ==> final(self).has(pid as int) && final(self).task(
                pid as int,
            ).task_status == TaskStatus::Zombie && final(self).task(pid as int).exit_code == Some(
                exit_code,
            ) && final(self).task(pid as int).memory_set == old(self).task(pid as int).memory_set
                && forall|i: int|
                0 <= i < MAX_APP_NUM && i != pid ==> final(self).slots()[i] == old(self).slots()[i],
    {
        if pid < self.tasks.len() {
            match self.tasks[pid].take() {
                Some(mut task) => {
                    task.task_status = TaskStatus::Zombie;
                    task.exit_code = Some(exit_code);
                    self.tasks[pid] = Some(task);
                },
                None => {},
            }
        }
    }

    /// Gives the task in slot `pid` the state `status`.
    pub fn set_status(&mut self, pid: usize, status: TaskStatus)
        requires
            old(self).wf(),
        ensures
            final(self).wf(),
            final(self).current() == old(self).current(),
            !old(self).has(pid as int) ==> final(self).slots() == old(self).slots(),
            old(self).has(pid as int) ==> final(self).has(pid as int) && final(self).task(
                pid as int,
            ) == (TaskControlBlock { task_status: status, ..old(self).task(pid as int) })
                && forall|i: int|
                0 <= i < MAX_APP_NUM && i != pid ==> final(self).slots()[i] == old(self).slots()[i],
    {
        if pid < self.tasks.len() {
            match self.tasks[pid].take() {
                Some(mut task) => {
                    task.task_status = status;
                    self.tasks[pid] = Some(task);
                },
                None => {},
            }
        }
    }

    /// Stores `cx` as the trap frame of the task in slot `pid`.
    pub fn set_trap_cx(&mut self, pid: usize, cx: crate::trap::context::TrapContext)
        requires
            old(self).wf(),
        ensures
            final(self).wf(),
            final(self).current() == old(self).current(),
            !old(self).has(pid as int) ==> final(self).slots() == old(self).slots(),
            old(self).has(pid as int) ==> final(self).has(pid as int) && final(self).task(
                pid as int,
            ) == (TaskControlBlock { trap_cx: cx, ..old(self).task(pid as int) })
                && forall|i: int|
                0 <= i < MAX_APP_NUM && i != pid ==> final(self).slots()[i] == old(self).slots()[i],
    {
        if pid < self.tasks.len() {
            match self.tasks[pid].take() {
                Some(mut task) => {
                    task.trap_cx = cx;
                    self.tasks[pid] = Some(task);
                },
                None => {},
            }
        }
    }

    /// Number of tasks in the table.
    pub fn task_count(&self) -> (r: usize)
        requires
            self.wf(),
        ensures
            r == self.count_upto(MAX_APP_NUM as int),
            r == 0 <==> forall|i: int| !self.has(i),
    {
        let mut n: usize = 0;
        let mut i: usize = 0;
        while i < MAX_APP_NUM
            invariant
                i <= MAX_APP_NUM,
                self.wf(),
                n == self.count_upto(i as int),
                n <= i,
                n == 0 <==> forall|k: int| 0 <= k < i ==> !#[trigger] self.has(k),
            decreases MAX_APP_NUM - i,
        {
            if self.tasks[i].is_some() {
                n += 1;
                proof {
                    assert(self.has(i as int));
                }
            }
            i += 1;
        }
        n
    }
}

} // verus!
