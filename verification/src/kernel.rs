//! The state of the kernel as a whole, and the rules that hold of it
//! between any two of its operations.

use vstd::prelude::*;
use crate::config::MAX_APP_NUM;
use crate::console::Console;
use crate::mm::elf_space::{fresh, LoadError};
use crate::mm::frame_allocator::BitmapFrameAllocator;
use crate::mm::kernel_space::KernelLayout;
use crate::mm::memory_layout::{PhysPageNum, VirtPageNum};
use crate::mm::memory_set::{MemorySet, TRAMPOLINE_VPN, TRAP_CONTEXT_VPN};
use crate::mm::page_table::MapError;
use crate::task::manager::TaskManager;
use crate::task::scheduler::Scheduler;
use crate::task::task::{KernelEntry, TaskControlBlock, TaskStatus};

verus! {

/// The kernel: the frame allocator, the address space of the kernel, the
/// table of tasks, the scheduler, the console, what new tasks have to
/// know of the kernel, the time for which the timer is set, and the
/// tasks that have ended, each with the code with which it ended.
pub struct Kernel {
    pub allocator: BitmapFrameAllocator,
    pub kernel_space: MemorySet,
    pub task_manager: TaskManager,
    pub scheduler: Scheduler,
    pub console: Console,
    pub entry: KernelEntry,
    pub timer: Option<u64>,
    pub exited: Vec<(usize, i32)>,
}

impl Kernel {
    /// Whether the task in slot `pid` owns frame `q`.
    pub open spec fn task_owns(&self, pid: int, q: u64) -> bool {
        self.task_manager.has(pid) && self.task_manager.task(pid).memory_set.owns(q)
    }

    /// The allocator, the address space of the kernel and those of the
    /// tasks are well formed; every frame of an address space is marked
    /// as in use; and every task has the trampoline of the kernel.
    #[verifier::opaque]
    pub open spec fn spaces_ok(&self) -> bool {
        &&& self.allocator.wf()
        &&& self.kernel_space.wf()
        &&& self.kernel_space.backed_by(&self.allocator)
        &&& self.kernel_space.trampoline_frame() is Some
        &&& self.task_manager.wf()
        &&& forall|pid: int| #[trigger]
            self.task_manager.has(pid) ==> {
                let t = self.task_manager.task(pid);
                &&& t.wf()
                &&& t.memory_set.backed_by(&self.allocator)
                &&& t.memory_set.trampoline_frame() == self.kernel_space.trampoline_frame()
            }
    }

    /// No frame belongs to two address spaces.
    #[verifier::opaque]
    pub open spec fn apart(&self) -> bool {
        &&& forall|i: int, j: int, q: u64|
            i != j && #[trigger] self.task_owns(i, q) ==> !#[trigger] self.task_owns(j, q)
        &&& forall|i: int, q: u64| #[trigger] self.task_owns(i, q) ==> !self.kernel_space.owns(q)
    }

    /// The task that runs is in state running and no other is; the ready
    /// queue holds the tasks that are ready, each once, and no others;
    /// and no task of the table is a zombie.
    #[verifier::opaque]
    pub open spec fn schedule_ok(&self) -> bool {
        &&& self.scheduler.wf()
        &&& self.scheduler.queue().no_duplicates()
        &&& forall|k: int|
            0 <= k < self.scheduler.queue().len() ==> self.task_manager.is(
                #[trigger] self.scheduler.queue()[k] as int,
                TaskStatus::Ready,
            )
        &&& forall|pid: int| #[trigger]
            self.task_manager.is(pid, TaskStatus::Ready) ==> self.scheduler.queue().contains(
                pid as usize,
            )
        &&& forall|pid: int| #[trigger]
            self.task_manager.is(pid, TaskStatus::Running) ==> self.task_manager.current() == Some(
                pid as usize,
            )
        &&& forall|pid: int| !#[trigger] self.task_manager.is(pid, TaskStatus::Zombie)
        &&& self.task_manager.current() is Some ==> self.task_manager.is(
            self.task_manager.current().unwrap() as int,
            TaskStatus::Running,
        )
    }

    /// The invariant of the kernel.
    pub open spec fn wf(&self) -> bool {
        &&& self.spaces_ok()
        &&& self.apart()
        &&& self.schedule_ok()
    }

    /// Whether a task is ready to run.
    pub open spec fn some_ready(&self) -> bool {
        self.scheduler.queue().len() > 0
    }

    /// Sets the kernel up: the frame allocator over the frames that lie
    /// wholly inside `[mem_start, mem_end)`, the address space of the
    /// kernel, a table without tasks and an empty ready queue.
    ///
    /// Fails with `OutOfRange` if the frames are more than the allocator
    /// can track, or as `new_kernel` does.
    pub fn new(
        layout: &KernelLayout,
        mem_start: u64,
        mem_end: u64,
        trap_handler: u64,
        restore: u64,
        sstatus: u64,
    ) -> (r: Result<Kernel, MapError>)
        ensures
            match r {
                Ok(k) => {
                    &&& k.wf()
                    &&& BitmapFrameAllocator::window_ok(mem_start, mem_end)
                    &&& k.allocator.start() == (mem_start + 4095) / 4096
                    &&& k.allocator.end() == mem_end / 4096
                    &&& k.kernel_space.trampoline_frame() == Some(
                        PhysPageNum(layout.strampoline / 4096),
                    )
                    &&& k.allocator.frames_in_use() == k.kernel_space.owned_count()
                    &&& forall|pid: int| !k.task_manager.has(pid)
                    &&& k.task_manager.current() is None
                    &&& k.scheduler.queue().len() == 0
                    &&& k.console.out@.len() == 0
                    &&& k.timer is None
                    &&& k.exited@.len() == 0
                    &&& k.entry.kernel_satp == k.kernel_space.token_spec()
                    &&& k.entry.trap_handler == trap_handler
                    &&& k.entry.restore == restore
                    &&& k.entry.sstatus == sstatus
                    &&& layout.strampoline / 4096 < crate::mm::memory_layout::PPN_LIMIT
                    &&& forall|i: int|
                        0 <= i < crate::mm::kernel_space::KERNEL_REGIONS
                            ==> crate::mm::kernel_space::plan_ok(
                            #[trigger] crate::mm::kernel_space::kernel_region(*layout, i),
                        )
                    &&& !crate::mm::kernel_space::plans_clash(*layout)
                },
                Err(e) => {
                    &&& e == MapError::OutOfRange || e == MapError::AlreadyMapped || e
                        == MapError::OutOfMemory
                    &&& e == MapError::OutOfRange ==> !BitmapFrameAllocator::window_ok(
                        mem_start,
                        mem_end,
                    ) || layout.strampoline / 4096 >= crate::mm::memory_layout::PPN_LIMIT
                        || exists|i: int|
                        0 <= i < crate::mm::kernel_space::KERNEL_REGIONS
                            && !crate::mm::kernel_space::plan_ok(
                            #[trigger] crate::mm::kernel_space::kernel_region(*layout, i),
                        )
                    &&& e == MapError::AlreadyMapped ==> crate::mm::kernel_space::plans_clash(
                        *layout,
                    )
                    &&& e == MapError::OutOfMemory ==> mem_end / 4096 - (mem_start + 4095) / 4096
                        < crate::mm::kernel_space::kernel_budget(*layout)
                },
            },
            !BitmapFrameAllocator::window_ok(mem_start, mem_end) ==> r == Err::<Kernel, MapError>(
                MapError::OutOfRange,
            ),
    {
        if mem_start > mem_end || mem_end > 0x100_0000_0000_0000 {
            return Err(MapError::OutOfRange);
        }
        let first = (mem_start + 4095) / 4096;
        let last = mem_end / 4096;
        if first > last || last - first > crate::mm::frame_allocator::MAX_FRAMES {
            return Err(MapError::OutOfRange);
        }
        let mut allocator = BitmapFrameAllocator::new();
        allocator.init(mem_start, mem_end);
        let ghost empty = allocator;
        proof {
            empty.lemma_allocated_finite();
            assert(empty.allocated() =~= Set::<u64>::empty());
        }
        let kernel_space = match MemorySet::new_kernel(layout, &mut allocator) {
            Ok(ms) => ms,
            Err(e) => {
                return Err(e);
            },
        };
        let kernel_satp = kernel_space.token();
        let k = Kernel {
            allocator,
            kernel_space,
            task_manager: TaskManager::new(),
            scheduler: Scheduler::new(),
            console: Console::new(),
            entry: KernelEntry { kernel_satp, trap_handler, restore, sstatus },
            timer: None,
            exited: Vec::new(),
        };
        proof {
            reveal(Kernel::spaces_ok);
            reveal(Kernel::apart);
            reveal(Kernel::schedule_ok);
        }
        Ok(k)
    }
}


/// The tasks of `k1` are those of `k0`, with the same address spaces.
pub open spec fn same_spaces(k0: Kernel, k1: Kernel) -> bool {
    &&& k1.kernel_space == k0.kernel_space
    &&& k1.task_manager.wf() == k0.task_manager.wf()
    &&& forall|pid: int|
        #![trigger k1.task_manager.has(pid)]
        #![trigger k0.task_manager.has(pid)]
        k1.task_manager.has(pid) == k0.task_manager.has(pid) && (k0.task_manager.has(pid) ==> {
            &&& k1.task_manager.task(pid).memory_set == k0.task_manager.task(pid).memory_set
            &&& k1.task_manager.task(pid).trap_cx_ppn == k0.task_manager.task(pid).trap_cx_ppn
        })
}

/// An operation that leaves the address spaces alone, and takes no frame
/// from an address space, leaves them well formed and apart.
pub proof fn lemma_spaces_kept(k0: Kernel, k1: Kernel)
    requires
        k0.spaces_ok(),
        k0.apart(),
        same_spaces(k0, k1),
        k1.allocator.wf(),
        forall|q: u64| k0.allocator.is_allocated(q) ==> k1.allocator.is_allocated(q),
    ensures
        k1.spaces_ok(),
        k1.apart(),
{
    reveal(Kernel::spaces_ok);
    reveal(Kernel::apart);
    k0.kernel_space.lemma_owned_allocated(k0.allocator);
    k1.kernel_space.lemma_backed(k1.allocator);
    assert forall|pid: int| #[trigger] k1.task_manager.has(pid) implies {
        let t = k1.task_manager.task(pid);
        &&& t.wf()
        &&& t.memory_set.backed_by(&k1.allocator)
        &&& t.memory_set.trampoline_frame() == k1.kernel_space.trampoline_frame()
    } by {
        assert(k0.task_manager.has(pid));
        let t0 = k0.task_manager.task(pid);
        t0.memory_set.lemma_owned_allocated(k0.allocator);
        t0.memory_set.lemma_backed(k1.allocator);
    }
    assert forall|i: int, j: int, q: u64| i != j
        && #[trigger] k1.task_owns(i, q) implies !#[trigger] k1.task_owns(
        j,
        q,
    ) by {
        assert(k0.task_manager.has(i));
        assert(k0.task_owns(i, q));
        if k1.task_owns(j, q) {
            assert(k0.task_manager.has(j));
            assert(k0.task_owns(j, q));
        }
    }
    assert forall|i: int, q: u64| #[trigger] k1.task_owns(i, q) implies !k1.kernel_space.owns(q) by {
        assert(k0.task_manager.has(i));
        assert(k0.task_owns(i, q));
    }
}

/// A task with a fresh address space has joined the table.
pub proof fn lemma_task_added(k0: Kernel, k1: Kernel, pid: int, task: TaskControlBlock)
    requires
        k0.spaces_ok(),
        k0.apart(),
        k1.kernel_space == k0.kernel_space,
        0 <= pid < MAX_APP_NUM,
        !k0.task_manager.has(pid),
        k1.task_manager.wf(),
        k1.task_manager.slots() == k0.task_manager.slots().update(pid, Some(task)),
        task.wf(),
        task.memory_set.backed_by(&k1.allocator),
        task.memory_set.trampoline_frame() == k0.kernel_space.trampoline_frame(),
        fresh(task.memory_set, k1.allocator, k0.allocator),
        k1.allocator.wf(),
    ensures
        k1.spaces_ok(),
        k1.apart(),
{
    reveal(Kernel::spaces_ok);
    reveal(Kernel::apart);
    k0.kernel_space.lemma_owned_allocated(k0.allocator);
    k1.kernel_space.lemma_backed(k1.allocator);
    assert forall|p: int| #[trigger] k1.task_manager.has(p) implies {
        let t = k1.task_manager.task(p);
        &&& t.wf()
        &&& t.memory_set.backed_by(&k1.allocator)
        &&& t.memory_set.trampoline_frame() == k1.kernel_space.trampoline_frame()
    } by {
        if p != pid {
            assert(k0.task_manager.has(p));
            let t0 = k0.task_manager.task(p);
            t0.memory_set.lemma_owned_allocated(k0.allocator);
            t0.memory_set.lemma_backed(k1.allocator);
        }
    }
    assert forall|i: int, j: int, q: u64| i != j
        && #[trigger] k1.task_owns(i, q) implies !#[trigger] k1.task_owns(
        j,
        q,
    ) by {
        if k1.task_owns(j, q) {
            if i != pid && j != pid {
                assert(k0.task_manager.has(i) && k0.task_manager.has(j));
                assert(k0.task_owns(i, q));
                assert(k0.task_owns(j, q));
            } else {
                let other = if i == pid {
                    j
                } else {
                    i
                };
                assert(k0.task_manager.has(other));
                k0.task_manager.task(other).memory_set.lemma_owned_allocated(k0.allocator);
                assert(k0.allocator.is_free(q));
            }
        }
    }
    assert forall|i: int, q: u64| #[trigger] k1.task_owns(i, q) implies !k1.kernel_space.owns(q) by {
        if i != pid {
            assert(k0.task_manager.has(i));
            assert(k0.task_owns(i, q));
        } else {
            assert(k0.allocator.is_free(q));
        }
    }
}

impl Kernel {
    /// Makes the task of the program in `elf_data`, puts it into the first
    /// free slot of the table and at the end of the ready queue, and
    /// returns its number.
    ///
    /// Fails with `NoSlot` if the table is full, and as
    /// `TaskControlBlock::new` does; the tasks and the frames in use are
    /// as before then.
    pub fn load_app(&mut self, elf_data: &[u8]) -> (r: Result<usize, LoadError>)
        requires
            old(self).wf(),
        ensures
            final(self).wf(),
            final(self).kernel_space == old(self).kernel_space,
            final(self).task_manager.current() == old(self).task_manager.current(),
            final(self).console == old(self).console,
            final(self).entry == old(self).entry,
            final(self).timer == old(self).timer,
            final(self).exited == old(self).exited,
            final(self).allocator.start() == old(self).allocator.start(),
            final(self).allocator.end() == old(self).allocator.end(),
            match r {
                Ok(pid) => {
                    &&& pid < MAX_APP_NUM
                    &&& !old(self).task_manager.has(pid as int)
                    &&& forall|i: int| 0 <= i < pid ==> old(self).task_manager.has(i)
                    &&& final(self).task_manager.has(pid as int)
                    &&& final(self).task_manager.is(pid as int, TaskStatus::Ready)
                    &&& forall|i: int|
                        0 <= i < MAX_APP_NUM && i != pid ==> final(self).task_manager.slots()[i]
                            == old(self).task_manager.slots()[i]
                    &&& final(self).scheduler.queue() == old(self).scheduler.queue().push(pid)
                    &&& fresh(
                        final(self).task_manager.task(pid as int).memory_set,
                        final(self).allocator,
                        old(self).allocator,
                    )
                    &&& crate::loader::parse_spec(elf_data@) is Ok
                    &&& crate::mm::elf_space::loaded(
                        final(self).task_manager.task(pid as int).memory_set,
                        crate::loader::parse_spec(elf_data@).unwrap().1,
                        crate::loader::parse_spec(elf_data@).unwrap().1.len() as int,
                    )
                    &&& crate::mm::elf_space::placed(
                        crate::loader::parse_spec(elf_data@).unwrap().1,
                        crate::loader::parse_spec(elf_data@).unwrap().1.len() as int,
                    )
                    &&& crate::mm::elf_space::flagged(
                        final(self).task_manager.task(pid as int).memory_set,
                        crate::loader::parse_spec(elf_data@).unwrap().1,
                        crate::loader::parse_spec(elf_data@).unwrap().1.len() as int,
                    )
                    &&& final(self).task_manager.task(pid as int).trap_cx.sepc
                        == crate::loader::parse_spec(elf_data@).unwrap().0
                },
                Err(e) => {
                    &&& final(self).task_manager == old(self).task_manager
                    &&& final(self).scheduler == old(self).scheduler
                    &&& final(self).allocator.frames_in_use() == old(self).allocator.frames_in_use()
                    &&& e == LoadError::NoSlot <==> forall|i: int|
                        0 <= i < MAX_APP_NUM ==> old(self).task_manager.has(i)
                    &&& crate::mm::elf_space::load_failure(
                        elf_data@,
                        old(self).allocator.free_count(),
                        e,
                    )
                },
            },
    {
        proof {
            reveal(Kernel::spaces_ok);
        }
        let pid = match self.task_manager.free_slot() {
            Some(p) => p,
            None => {
                return Err(LoadError::NoSlot);
            },
        };
        let trampoline = match self.kernel_space.trampoline() {
            Some(t) => t,
            None => PhysPageNum(0),
        };
        let task = match TaskControlBlock::new(
            elf_data,
            pid as u64,
            &self.entry,
            trampoline,
            &mut self.allocator,
        ) {
            Ok(t) => t,
            Err(e) => {
                proof {
                    lemma_spaces_kept(*old(self), *self);
                    lemma_schedule_kept(*old(self), *self);
                }
                return Err(e);
            },
        };
        let ghost added = task;
        self.task_manager.put_task(pid, task);
        self.scheduler.enqueue(pid);
        proof {
            lemma_task_added(*old(self), *self, pid as int, added);
            lemma_task_enqueued(*old(self), *self, pid as int);
        }
        Ok(pid)
    }
}

/// An operation that leaves the table of tasks and the scheduler alone
/// leaves the schedule in order.
pub proof fn lemma_schedule_kept(k0: Kernel, k1: Kernel)
    requires
        k0.schedule_ok(),
        k1.task_manager == k0.task_manager,
        k1.scheduler == k0.scheduler,
    ensures
        k1.schedule_ok(),
{
    reveal(Kernel::schedule_ok);
}

/// A new task that is ready has joined the table and the ready queue.
pub proof fn lemma_task_enqueued(k0: Kernel, k1: Kernel, pid: int)
    requires
        k0.schedule_ok(),
        0 <= pid < MAX_APP_NUM,
        !k0.task_manager.has(pid),
        k1.task_manager.has(pid),
        k1.task_manager.task(pid).task_status == TaskStatus::Ready,
        k1.task_manager.wf(),
        k0.task_manager.wf(),
        forall|i: int|
            0 <= i < MAX_APP_NUM && i != pid ==> k1.task_manager.slots()[i]
                == k0.task_manager.slots()[i],
        k1.task_manager.current() == k0.task_manager.current(),
        k1.scheduler.queue() == k0.scheduler.queue().push(pid as usize),
        k1.scheduler.ticks() == k0.scheduler.ticks(),
        k1.scheduler.slice_len() == k0.scheduler.slice_len(),
    ensures
        k1.schedule_ok(),
{
    reveal(Kernel::schedule_ok);
    let q0 = k0.scheduler.queue();
    let q1 = k1.scheduler.queue();
    assert forall|k: int| 0 <= k < q1.len() implies k1.task_manager.is(
        #[trigger] q1[k] as int,
        TaskStatus::Ready,
    ) by {
        if k < q0.len() {
            assert(k0.task_manager.is(q0[k] as int, TaskStatus::Ready));
            assert(q1[k] == q0[k]);
        }
    }
    assert forall|i: int, j: int| 0 <= i < q1.len() && 0 <= j < q1.len() && i != j implies q1[i]
        != q1[j] by {
        if i < q0.len() {
            assert(k0.task_manager.is(q0[i] as int, TaskStatus::Ready));
        }
        if j < q0.len() {
            assert(k0.task_manager.is(q0[j] as int, TaskStatus::Ready));
        }
    }
    assert forall|p: int| #[trigger] k1.task_manager.is(p, TaskStatus::Ready) implies q1.contains(
        p as usize,
    ) by {
        if p == pid {
            assert(q1[q0.len() as int] == pid as usize);
        } else {
            assert(k0.task_manager.is(p, TaskStatus::Ready));
            let k = choose|k: int| 0 <= k < q0.len() && q0[k] == p as usize;
            assert(q1[k] == p as usize);
        }
    }
    assert forall|p: int| #[trigger]
        k1.task_manager.is(p, TaskStatus::Running) implies k1.task_manager.current() == Some(
        p as usize,
    ) by {
        assert(k0.task_manager.is(p, TaskStatus::Running));
    }
    assert forall|p: int| !#[trigger] k1.task_manager.is(p, TaskStatus::Zombie) by {
        if p != pid {
            assert(!k0.task_manager.is(p, TaskStatus::Zombie));
        }
    }
    if k1.task_manager.current() is Some {
        let c = k1.task_manager.current().unwrap() as int;
        assert(k0.task_manager.is(c, TaskStatus::Running));
    }
}


/// The address space of the task in slot `pid` changed: what it gained
/// was free before, and no frame was given back but its own.
pub proof fn lemma_task_changed(k0: Kernel, k1: Kernel, pid: int)
    requires
        k0.spaces_ok(),
        k0.apart(),
        k0.task_manager.has(pid),
        k1.task_manager.has(pid),
        0 <= pid < MAX_APP_NUM,
        k1.kernel_space == k0.kernel_space,
        k1.task_manager.wf(),
        forall|i: int|
            #![trigger k1.task_manager.has(i)]
            #![trigger k0.task_manager.has(i)]
            i != pid ==> (k1.task_manager.has(i) == k0.task_manager.has(i) && (
            k0.task_manager.has(i) ==> k1.task_manager.task(i).memory_set == k0.task_manager.task(
                i,
            ).memory_set)),
        k1.allocator.wf(),
        k1.task_manager.task(pid).wf(),
        k1.task_manager.task(pid).memory_set.backed_by(&k1.allocator),
        k1.task_manager.task(pid).memory_set.trampoline_frame() == k0.task_manager.task(
            pid,
        ).memory_set.trampoline_frame(),
        forall|q: u64|
            #![trigger k1.task_manager.task(pid).memory_set.owns(q)]
            k1.task_manager.task(pid).memory_set.owns(q) ==> k0.task_manager.task(
                pid,
            ).memory_set.owns(q) || k0.allocator.is_free(q),
        forall|q: u64|
            #![trigger k1.allocator.is_allocated(q)]
            k0.allocator.is_allocated(q) && !k0.task_manager.task(pid).memory_set.owns(q)
                ==> k1.allocator.is_allocated(q),
    ensures
        k1.spaces_ok(),
        k1.apart(),
{
    reveal(Kernel::spaces_ok);
    reveal(Kernel::apart);
    let ms0 = k0.task_manager.task(pid).memory_set;
    let ms1 = k1.task_manager.task(pid).memory_set;
    k0.kernel_space.lemma_owned_allocated(k0.allocator);
    assert forall|q: u64| k1.kernel_space.owns(q) implies k1.allocator.is_allocated(q) by {
        if ms0.owns(q) {
            assert(k0.task_owns(pid, q));
        }
    }
    k1.kernel_space.lemma_backed(k1.allocator);
    assert forall|p: int| #[trigger] k1.task_manager.has(p) implies {
        let t = k1.task_manager.task(p);
        &&& t.wf()
        &&& t.memory_set.backed_by(&k1.allocator)
        &&& t.memory_set.trampoline_frame() == k1.kernel_space.trampoline_frame()
    } by {
        if p != pid {
            assert(k0.task_manager.has(p));
            let t0 = k0.task_manager.task(p);
            t0.memory_set.lemma_owned_allocated(k0.allocator);
            assert forall|q: u64| t0.memory_set.owns(q) implies k1.allocator.is_allocated(q) by {
                assert(k0.task_owns(p, q));
                assert(!k0.task_owns(pid, q));
            }
            t0.memory_set.lemma_backed(k1.allocator);
        } else {
            assert(k0.task_manager.has(pid));
        }
    }
    assert forall|i: int, j: int, q: u64| i != j
        && #[trigger] k1.task_owns(i, q) implies !#[trigger] k1.task_owns(
        j,
        q,
    ) by {
        if k1.task_owns(j, q) {
            if i != pid && j != pid {
                assert(k0.task_manager.has(i) && k0.task_manager.has(j));
                assert(k0.task_owns(i, q));
                assert(k0.task_owns(j, q));
            } else {
                let other = if i == pid {
                    j
                } else {
                    i
                };
                assert(k1.task_manager.has(other));
                assert(k0.task_manager.has(other));
                assert(k0.task_owns(other, q));
                k0.task_manager.task(other).memory_set.lemma_owned_allocated(k0.allocator);
                if ms0.owns(q) {
                    assert(k0.task_owns(pid, q));
                }
            }
        }
    }
    assert forall|i: int, q: u64| #[trigger] k1.task_owns(i, q) implies !k1.kernel_space.owns(q) by {
        if i != pid {
            assert(k0.task_manager.has(i));
            assert(k0.task_owns(i, q));
        } else {
            if ms0.owns(q) {
                assert(k0.task_owns(pid, q));
            }
        }
    }
}

/// Only the address space of the task in slot `pid` changed: the
/// schedule is as it was.
pub proof fn lemma_schedule_same(k0: Kernel, k1: Kernel)
    requires
        k0.schedule_ok(),
        k1.scheduler == k0.scheduler,
        k1.task_manager.current() == k0.task_manager.current(),
        k1.task_manager.wf(),
        k0.task_manager.wf(),
        forall|i: int|
            #![trigger k1.task_manager.has(i)]
            k1.task_manager.has(i) == k0.task_manager.has(i) && (k0.task_manager.has(i)
                ==> k1.task_manager.task(i).task_status == k0.task_manager.task(i).task_status),
    ensures
        k1.schedule_ok(),
{
    reveal(Kernel::schedule_ok);
    let q = k0.scheduler.queue();
    assert forall|k: int| 0 <= k < q.len() implies k1.task_manager.is(
        #[trigger] q[k] as int,
        TaskStatus::Ready,
    ) by {
        assert(k0.task_manager.is(q[k] as int, TaskStatus::Ready));
        assert(k1.task_manager.has(q[k] as int));
    }
    assert forall|p: int| #[trigger] k1.task_manager.is(p, TaskStatus::Ready) implies q.contains(
        p as usize,
    ) by {
        assert(k1.task_manager.has(p));
        assert(k0.task_manager.is(p, TaskStatus::Ready));
    }
    assert forall|p: int| #[trigger]
        k1.task_manager.is(p, TaskStatus::Running) implies k1.task_manager.current() == Some(
        p as usize,
    ) by {
        assert(k1.task_manager.has(p));
        assert(k0.task_manager.is(p, TaskStatus::Running));
    }
    assert forall|p: int| !#[trigger] k1.task_manager.is(p, TaskStatus::Zombie) by {
        if k1.task_manager.is(p, TaskStatus::Zombie) {
            assert(k1.task_manager.has(p));
            assert(k0.task_manager.is(p, TaskStatus::Zombie));
        }
    }
    if k1.task_manager.current() is Some {
        let c = k1.task_manager.current().unwrap() as int;
        assert(k0.task_manager.is(c, TaskStatus::Running));
        assert(k1.task_manager.has(c));
    }
}


/// The places, among the first `n` images, of those that are not empty.
pub open spec fn present(images: Seq<&[u8]>, n: int) -> Seq<int>
    decreases n,
{
    if n <= 0 {
        Seq::empty()
    } else if images[n - 1]@.len() > 0 {
        present(images, n - 1).push(n - 1)
    } else {
        present(images, n - 1)
    }
}

/// Task `pid` is new in `k1`, ready, and holds the program of `image`.
pub open spec fn app_loaded(k0: Kernel, k1: Kernel, pid: usize, image: Seq<u8>) -> bool {
    &&& !k0.task_manager.has(pid as int)
    &&& k1.task_manager.is(pid as int, TaskStatus::Ready)
    &&& crate::loader::parse_spec(image) is Ok
    &&& crate::mm::elf_space::loaded(
        k1.task_manager.task(pid as int).memory_set,
        crate::loader::parse_spec(image).unwrap().1,
        crate::loader::parse_spec(image).unwrap().1.len() as int,
    )
    &&& k1.task_manager.task(pid as int).trap_cx.sepc == crate::loader::parse_spec(image).unwrap().0
}

/// The images among the first `n` that are not empty have become the
/// tasks `pids`, one each and in their order; these stand at the end of
/// the ready queue, and the other tasks are as they were.
pub open spec fn apps_loaded(k0: Kernel, k1: Kernel, images: Seq<&[u8]>, n: int, pids: Seq<usize>) -> bool {
    &&& pids.len() == present(images, n).len()
    &&& k1.scheduler.queue() == k0.scheduler.queue() + pids
    &&& forall|j: int|
        0 <= j < pids.len() ==> app_loaded(k0, k1, #[trigger] pids[j], images[present(images, n)[j]]@)
    &&& forall|i: int|
        0 <= i < MAX_APP_NUM && !pids.contains(i as usize) ==> #[trigger] k1.task_manager.slots()[i]
            == k0.task_manager.slots()[i]
}

impl Kernel {
    /// The value for the `satp` register that selects the address space
    /// of the kernel.
    pub fn get_kernel_token(&self) -> (r: u64)
        requires
            self.wf(),
        ensures
            r == self.kernel_space.token_spec(),
    {
        proof {
            reveal(Kernel::spaces_ok);
        }
        self.kernel_space.token()
    }

    /// Loads the programs in `images` in their order, leaving out the
    /// empty ones, and returns the numbers of their tasks.
    ///
    /// Stops at the first program that cannot be loaded and returns its
    /// place with the error of `load_app`; the programs before it stay
    /// loaded.
    pub fn load_apps(&mut self, images: &[&[u8]]) -> (r: Result<Vec<usize>, (usize, LoadError)>)
        requires
            old(self).wf(),
        ensures
            final(self).wf(),
            final(self).kernel_space == old(self).kernel_space,
            final(self).task_manager.current() == old(self).task_manager.current(),
            final(self).console == old(self).console,
            final(self).entry == old(self).entry,
            final(self).timer == old(self).timer,
            final(self).exited == old(self).exited,
            match r {
                Ok(pids) => apps_loaded(*old(self), *final(self), images@, images@.len() as int, pids@),
                Err((i, e)) => {
                    &&& i < images@.len()
                    &&& images@[i as int]@.len() > 0
                    &&& exists|pids: Seq<usize>|
                        apps_loaded(*old(self), *final(self), images@, i as int, pids)
                    &&& e == LoadError::NoSlot <==> forall|p: int|
                        0 <= p < MAX_APP_NUM ==> final(self).task_manager.has(p)
                    &&& crate::mm::elf_space::load_failure(
                        images@[i as int]@,
                        final(self).allocator.free_count(),
                        e,
                    )
                },
            },
    {
        let mut pids: Vec<usize> = Vec::new();
        let mut i: usize = 0;
        proof {
            assert(self.scheduler.queue() + pids@ =~= self.scheduler.queue());
        }
        while i < images.len()
            invariant
                i <= images@.len(),
                old(self).wf(),
                self.wf(),
                self.kernel_space == old(self).kernel_space,
                self.task_manager.current() == old(self).task_manager.current(),
                self.console == old(self).console,
                self.entry == old(self).entry,
                self.timer == old(self).timer,
                self.exited == old(self).exited,
                apps_loaded(*old(self), *self, images@, i as int, pids@),
            decreases images@.len() - i,
        {
            let image = images[i];
            if image.len() > 0 {
                let ghost before = *self;
                let ghost found = pids@;
                match self.load_app(image) {
                    Ok(pid) => {
                        pids.push(pid);
                        proof {
                            reveal(Kernel::spaces_ok);
                            lemma_app_loaded(*old(self), before, *self, images@, i as int, found, pid);
                        }
                    },
                    Err(e) => {
                        proof {
                            assert(self.allocator.total() == before.allocator.total());
                            assert(apps_loaded(*old(self), *self, images@, i as int, found));
                        }
                        return Err((i, e));
                    },
                }
            }
            i += 1;
        }
        Ok(pids)
    }
}

/// One more program was loaded.
proof fn lemma_app_loaded(
    k0: Kernel,
    km: Kernel,
    kn: Kernel,
    images: Seq<&[u8]>,
    n: int,
    pids: Seq<usize>,
    pid: usize,
)
    requires
        0 <= n < images.len(),
        images[n]@.len() > 0,
        k0.task_manager.wf(),
        km.task_manager.wf(),
        kn.task_manager.wf(),
        apps_loaded(k0, km, images, n, pids),
        pid < MAX_APP_NUM,
        !km.task_manager.has(pid as int),
        app_loaded(km, kn, pid, images[n]@),
        forall|i: int|
            0 <= i < MAX_APP_NUM && i != pid ==> kn.task_manager.slots()[i] == km.task_manager.slots()[i],
        kn.scheduler.queue() == km.scheduler.queue().push(pid),
    ensures
        apps_loaded(k0, kn, images, n + 1, pids.push(pid)),
{
    let next = pids.push(pid);
    assert(kn.scheduler.queue() =~= k0.scheduler.queue() + next);
    assert forall|j: int| 0 <= j < pids.len() implies pids[j] != pid by {
        assert(app_loaded(k0, km, pids[j], images[present(images, n)[j]]@));
    }
    assert(!pids.contains(pid));
    assert(km.task_manager.slots()[pid as int] == k0.task_manager.slots()[pid as int]);
    assert forall|j: int| 0 <= j < next.len() implies app_loaded(
        k0,
        kn,
        #[trigger] next[j],
        images[present(images, n + 1)[j]]@,
    ) by {
        if j < pids.len() {
            assert(app_loaded(k0, km, pids[j], images[present(images, n)[j]]@));
            assert(kn.task_manager.slots()[pids[j] as int] == km.task_manager.slots()[pids[j] as int]);
        }
    }
    assert forall|i: int| 0 <= i < MAX_APP_NUM
        && !next.contains(i as usize) implies #[trigger] kn.task_manager.slots()[i]
        == k0.task_manager.slots()[i] by {
        assert(next[pids.len() as int] == pid);
        if pids.contains(i as usize) {
            let j = choose|j: int| 0 <= j < pids.len() && pids[j] == i as usize;
            assert(next[j] == i as usize);
        }
    }
}

/// The page of the trap frame of a task translates to a frame that the
/// address space of the task owns, and that neither another task nor the
/// kernel owns.
pub proof fn lemma_trap_frame_unique(k: Kernel, i: int, j: int)
    requires
        k.wf(),
        k.task_manager.has(i),
        k.task_manager.task(i).has_trap_frame(),
    ensures
        k.task_manager.task(i).memory_set.translate_spec(VirtPageNum(TRAP_CONTEXT_VPN)) is Some,
        k.task_owns(
            i,
            k.task_manager.task(i).memory_set.translate_spec(
                VirtPageNum(TRAP_CONTEXT_VPN),
            ).unwrap().0.0,
        ),
        j != i ==> !k.task_owns(
            j,
            k.task_manager.task(i).memory_set.translate_spec(
                VirtPageNum(TRAP_CONTEXT_VPN),
            ).unwrap().0.0,
        ),
        !k.kernel_space.owns(
            k.task_manager.task(i).memory_set.translate_spec(
                VirtPageNum(TRAP_CONTEXT_VPN),
            ).unwrap().0.0,
        ),
        k.allocator.is_allocated(
            k.task_manager.task(i).memory_set.translate_spec(
                VirtPageNum(TRAP_CONTEXT_VPN),
            ).unwrap().0.0,
        ),
{
    reveal(Kernel::spaces_ok);
    reveal(Kernel::apart);
    let ms = k.task_manager.task(i).memory_set;
    let q = ms.translate_spec(VirtPageNum(TRAP_CONTEXT_VPN)).unwrap().0.0;
    assert(k.task_owns(i, q));
    ms.lemma_owned_allocated(k.allocator);
}

/// The trampoline page translates to the same frame in the address space
/// of every task, with exactly the flags valid, readable and executable:
/// the frame of the trampoline of the kernel, which no task owns.
pub proof fn lemma_trampoline_shared(k: Kernel, i: int, j: int)
    requires
        k.wf(),
        k.task_manager.has(i),
        k.task_manager.has(j),
    ensures
        k.task_manager.task(i).memory_set.translate_spec(VirtPageNum(TRAMPOLINE_VPN)) is Some,
        k.task_manager.task(j).memory_set.translate_spec(VirtPageNum(TRAMPOLINE_VPN)) is Some,
        k.task_manager.task(i).memory_set.translate_spec(VirtPageNum(TRAMPOLINE_VPN)).unwrap().1
            == crate::mm::page_table::PTEFlags(0x0b),
        k.task_manager.task(i).memory_set.translate_spec(VirtPageNum(TRAMPOLINE_VPN)).unwrap().0
            == k.task_manager.task(j).memory_set.translate_spec(
            VirtPageNum(TRAMPOLINE_VPN),
        ).unwrap().0,
        Some(
            k.task_manager.task(i).memory_set.translate_spec(VirtPageNum(TRAMPOLINE_VPN)).unwrap().0,
        ) == k.kernel_space.trampoline_frame(),
        k.kernel_space.translate_spec(VirtPageNum(TRAMPOLINE_VPN)) is Some,
        k.kernel_space.translate_spec(VirtPageNum(TRAMPOLINE_VPN)).unwrap().0
            == k.task_manager.task(i).memory_set.translate_spec(
            VirtPageNum(TRAMPOLINE_VPN),
        ).unwrap().0,
{
    reveal(Kernel::spaces_ok);
    k.task_manager.task(i).memory_set.lemma_trampoline_translates();
    k.task_manager.task(j).memory_set.lemma_trampoline_translates();
    k.kernel_space.lemma_trampoline_translates();
}

} // verus!
