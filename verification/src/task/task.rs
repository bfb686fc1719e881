//! The task control block.

use vstd::prelude::*;
use crate::config::{TRAP_CONTEXT, USER_STACK_TOP};
use crate::loader::{parse_spec, ElfError, SegmentView};
use crate::mm::elf_space::{
    flagged, fresh, load_failure, loaded, placed, user_layout, LoadError,
};
use crate::mm::frame_allocator::BitmapFrameAllocator;
use crate::mm::kernel_space::{kernel_stack_bottom, kernel_stack_position, kernel_stack_top, MAX_STACK_INDEX};
use crate::mm::memory_layout::{PhysPageNum, VirtPageNum};
use crate::mm::memory_set::{MemorySet, TRAP_CONTEXT_VPN};
use crate::task::context::TaskContext;
use crate::trap::cause::user_status;
use crate::trap::context::TrapContext;

verus! {

/// The scheduling state of a task.
#[derive(Copy, Clone, Debug, PartialEq, Eq, Structural)]
pub enum TaskStatus {
    Ready,
    Running,
    Zombie,
}

/// What a new task has to know of the kernel: the token of the kernel
/// address space, the addresses of the trap handler and of the way back
/// into user mode, and the current status register.
#[derive(Copy, Clone, Debug)]
pub struct KernelEntry {
    pub kernel_satp: u64,
    pub trap_handler: u64,
    pub restore: u64,
    pub sstatus: u64,
}

/// A task: its scheduling state, its kernel context, its address space,
/// the frame and the contents of its trap frame, the end of its image,
/// its kernel stack, and the code with which it ended.
pub struct TaskControlBlock {
    pub task_status: TaskStatus,
    pub task_cx: TaskContext,
    pub memory_set: MemorySet,
    pub trap_cx_ppn: PhysPageNum,
    pub trap_cx: TrapContext,
    pub base_size: u64,
    pub heap_bottom: u64,
    pub program_brk: u64,
    pub kernel_stack: (u64, u64),
    pub exit_code: Option<i32>,
}

impl TaskControlBlock {
    /// The invariant of a task: its address space is well formed and has
    /// the trampoline.
    pub open spec fn wf(&self) -> bool {
        &&& self.memory_set.wf()
        &&& self.memory_set.trampoline_frame() is Some
    }

    /// The address space of the task still begins with the page of the
    /// trap frame and the user stack, and the frame of the trap frame is
    /// the one that the page maps to, owned by the address space.
    pub open spec fn has_trap_frame(&self) -> bool {
        &&& user_layout(self.memory_set)
        &&& self.memory_set.translate_spec(VirtPageNum(TRAP_CONTEXT_VPN)) is Some
        &&& self.memory_set.translate_spec(VirtPageNum(TRAP_CONTEXT_VPN)).unwrap().0
            == self.trap_cx_ppn
        &&& self.memory_set.owns(self.trap_cx_ppn.0)
    }

    /// The trap frame of the task.
    pub fn get_trap_cx(&mut self) -> (r: &mut TrapContext)
        ensures
            *r == old(self).trap_cx,
            final(self).trap_cx == *final(r),
            final(self).task_status == old(self).task_status,
            final(self).task_cx == old(self).task_cx,
            final(self).memory_set == old(self).memory_set,
            final(self).trap_cx_ppn == old(self).trap_cx_ppn,
            final(self).base_size == old(self).base_size,
            final(self).heap_bottom == old(self).heap_bottom,
            final(self).program_brk == old(self).program_brk,
            final(self).kernel_stack == old(self).kernel_stack,
            final(self).exit_code == old(self).exit_code,
    {
        &mut self.trap_cx
    }

    /// The token of the address space of the task.
    pub fn get_user_token(&self) -> (r: u64)
        requires
            self.memory_set.wf(),
        ensures
            r == self.memory_set.token_spec(),
    {
        self.memory_set.token()
    }

    /// Makes the task of the program in `elf_data`: builds its address
    /// space, finds the frame of its trap frame, and prepares the trap
    /// frame and the kernel context for the first entry into user mode at
    /// the entry point of the image, on the user stack, with the kernel
    /// stack of task `app_id`.
    pub fn new(
        elf_data: &[u8],
        app_id: u64,
        entry: &KernelEntry,
        trampoline: PhysPageNum,
        alloc: &mut BitmapFrameAllocator,
    ) -> (r: Result<Self, LoadError>)
        requires
            old(alloc).wf(),
            trampoline.wf(),
        ensures
            final(alloc).wf(),
            final(alloc).start() == old(alloc).start(),
            final(alloc).end() == old(alloc).end(),
            forall|q: u64| old(alloc).is_allocated(q) ==> final(alloc).is_allocated(q),
            match r {
                Ok(task) => {
                    &&& parse_spec(elf_data@) is Ok
                    &&& task.wf()
                    &&& task.has_trap_frame()
                    &&& task.memory_set.backed_by(final(alloc))
                    &&& fresh(task.memory_set, *final(alloc), *old(alloc))
                    &&& task.memory_set.trampoline_frame() == Some(trampoline)
                    &&& loaded(
                        task.memory_set,
                        parse_spec(elf_data@).unwrap().1,
                        parse_spec(elf_data@).unwrap().1.len() as int,
                    )
                    &&& placed(
                        parse_spec(elf_data@).unwrap().1,
                        parse_spec(elf_data@).unwrap().1.len() as int,
                    )
                    &&& flagged(
                        task.memory_set,
                        parse_spec(elf_data@).unwrap().1,
                        parse_spec(elf_data@).unwrap().1.len() as int,
                    )
                    &&& task.task_status == TaskStatus::Ready
                    &&& task.exit_code is None
                    &&& task.trap_cx.sepc == parse_spec(elf_data@).unwrap().0
                    &&& task.trap_cx.x@ == Seq::new(32, |i: int| 0u64).update(
                        2,
                        USER_STACK_TOP,
                    )
                    &&& task.trap_cx.sstatus == user_status(entry.sstatus)
                    &&& task.trap_cx.kernel_satp == entry.kernel_satp
                    &&& task.trap_cx.kernel_sp == task.kernel_stack.1
                    &&& task.trap_cx.trap_handler == entry.trap_handler
                    &&& task.task_cx.ra == entry.restore
                    &&& task.task_cx.sp == task.kernel_stack.1
                    &&& app_id <= MAX_STACK_INDEX ==> task.kernel_stack.0 == kernel_stack_bottom(
                        app_id as int,
                    ) && task.kernel_stack.1 == kernel_stack_top(app_id as int)
                    &&& task.base_size == USER_STACK_TOP
                    &&& task.heap_bottom == USER_STACK_TOP
                    &&& task.program_brk == USER_STACK_TOP
                },
                Err(e) => {
                    &&& final(alloc).frames_in_use() == old(alloc).frames_in_use()
                    &&& e != LoadError::NoSlot
                    &&& load_failure(elf_data@, old(alloc).free_count(), e)
                },
            },
    {
        let (memory_set, user_sp, entry_point) = match MemorySet::from_elf(
            elf_data,
            trampoline,
            alloc,
        ) {
            Ok(x) => x,
            Err(e) => {
                return Err(e);
            },
        };
        proof {
            memory_set.lemma_region_translates(0, 0);
            assert(memory_set.regions()[0].page(0) == VirtPageNum(TRAP_CONTEXT_VPN));
        }
        let trap_cx_ppn = match memory_set.page_table().translate(VirtPageNum(TRAP_CONTEXT >> 12)) {
            Some((ppn, _)) => ppn,
            None => PhysPageNum(0),
        };
        proof {
            assert(TRAP_CONTEXT >> 12 == TRAP_CONTEXT_VPN) by (bit_vector);
        }
        let (kernel_stack_bottom, kernel_stack_top) = kernel_stack_position(app_id);
        let task_cx = TaskContext::goto_trap_return(kernel_stack_top, entry.restore);
        let trap_cx = TrapContext::app_init_context(
            entry_point,
            user_sp,
            entry.kernel_satp,
            kernel_stack_top,
            entry.trap_handler,
            entry.sstatus,
        );
        Ok(
            TaskControlBlock {
                task_status: TaskStatus::Ready,
                task_cx,
                memory_set,
                trap_cx_ppn,
                trap_cx,
                base_size: user_sp,
                heap_bottom: user_sp,
                program_brk: user_sp,
                kernel_stack: (kernel_stack_bottom, kernel_stack_top),
                exit_code: None,
            },
        )
    }
}

} // verus!
