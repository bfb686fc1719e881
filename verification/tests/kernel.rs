use chronos_kernel::config::{MMAP_START, TRAMPOLINE, TRAP_CONTEXT, USER_STACK_BOTTOM, USER_STACK_TOP};
use chronos_kernel::kernel::Kernel;
use chronos_kernel::loader::{PF_R, PF_X, PT_LOAD};
use chronos_kernel::mm::elf_space::LoadError;
use chronos_kernel::mm::kernel_space::{kernel_stack_position, KernelLayout};
use chronos_kernel::mm::memory_layout::{PhysPageNum, VirtPageNum};
use chronos_kernel::mm::page_table::MapError;
use chronos_kernel::syscall::memory::{sys_mmap, sys_munmap};
use chronos_kernel::syscall::process::{sys_get_time, to_register, to_signed};
use chronos_kernel::syscall::{exit_code, syscall, SyscallOutcome};
use chronos_kernel::task::manager::TaskManager;
use chronos_kernel::task::scheduler::Scheduler;
use chronos_kernel::task::switch::Switch;
use chronos_kernel::task::task::TaskStatus;
use chronos_kernel::trap::context::TrapContext;
use chronos_kernel::trap::handler::{decision, set_next_timer, Decision, TrapOutcome};
use chronos_kernel::trap::cause::{Exception, Interrupt, Trap};

const ECALL: u64 = 8;
const ILLEGAL: u64 = 2;
const LOAD_PAGE_FAULT: u64 = 13;
const TIMER: u64 = (1 << 63) | 5;
const HANDLER: u64 = 0x8022_0400;
const RESTORE: u64 = 0xFFFF_FFFF_FFFF_F080;

fn layout() -> KernelLayout {
    KernelLayout {
        stext: 0x8022_0000,
        etext: 0x8023_0000,
        srodata: 0x8023_0000,
        erodata: 0x8024_0000,
        sdata: 0x8024_0000,
        edata: 0x8025_0000,
        sbss: 0x8025_0000,
        ebss: 0x8026_0000,
        ekernel: 0x8042_0000,
        strampoline: 0x8022_1000,
    }
}

fn boot() -> Kernel {
    Kernel::new(&layout(), 0x8042_0000, 0x8800_0000, HANDLER, RESTORE, 0x100).unwrap()
}

/// The image of a program with one page of code at 0x10000.
fn program() -> Vec<u8> {
    let code = vec![0x13u8, 0, 0, 0];
    let mut out = vec![0u8; 64];
    out[0..4].copy_from_slice(&[0x7f, b'E', b'L', b'F']);
    out[4] = 2;
    out[5] = 1;
    out[6] = 1;
    out[18..20].copy_from_slice(&0xF3u16.to_le_bytes());
    out[24..32].copy_from_slice(&0x1_0000u64.to_le_bytes());
    out[32..40].copy_from_slice(&64u64.to_le_bytes());
    out[54..56].copy_from_slice(&56u16.to_le_bytes());
    out[56..58].copy_from_slice(&1u16.to_le_bytes());
    out.extend_from_slice(&PT_LOAD.to_le_bytes());
    out.extend_from_slice(&(PF_R | PF_X).to_le_bytes());
    out.extend_from_slice(&(64u64 + 56).to_le_bytes());
    out.extend_from_slice(&0x1_0000u64.to_le_bytes());
    out.extend_from_slice(&0x1_0000u64.to_le_bytes());
    out.extend_from_slice(&(code.len() as u64).to_le_bytes());
    out.extend_from_slice(&0x1000u64.to_le_bytes());
    out.extend_from_slice(&0x1000u64.to_le_bytes());
    out.extend_from_slice(&code);
    out
}

/// The trap frame of task `pid` as the trampoline would save it.
fn frame(kernel: &Kernel, pid: usize) -> TrapContext {
    kernel.task_manager.get_task(pid).unwrap().trap_cx
}

/// What the user code of task `pid` does with its memory: stores `bytes` at `va`.
fn store(kernel: &mut Kernel, pid: usize, va: u64, bytes: &[u8]) -> bool {
    let mut task = kernel.task_manager.take_task(pid).unwrap();
    let done = task.memory_set.write_bytes(va, bytes);
    kernel.task_manager.put_task(pid, task);
    done
}

/// A system call of the task that runs.
fn ecall(kernel: &mut Kernel, id: u64, args: [u64; 6], now: u64) -> TrapOutcome {
    let pid = kernel.task_manager.get_current_task().unwrap();
    let mut cx = frame(kernel, pid);
    cx.x[17] = id;
    cx.x[10..16].copy_from_slice(&args);
    kernel.trap_handler(cx, ECALL, 0, now)
}

/// The value that the last system call left in `a0` of task `pid`.
fn a0(kernel: &Kernel, pid: usize) -> i64 {
    to_signed(frame(kernel, pid).x[10])
}

/// The task that runs writes `text` to the console.
fn say(kernel: &mut Kernel, text: &str) {
    let pid = kernel.task_manager.get_current_task().unwrap();
    assert!(store(kernel, pid, USER_STACK_BOTTOM, text.as_bytes()));
    let out = ecall(kernel, 64, [1, USER_STACK_BOTTOM, text.len() as u64, 0, 0, 0], 0);
    assert!(matches!(out, TrapOutcome::Resume { pid: p, .. } if p == pid));
    assert_eq!(a0(kernel, pid), text.len() as i64);
}

fn output(kernel: &mut Kernel) -> String {
    String::from_utf8(kernel.console.take()).unwrap()
}

#[test]
fn boot_state() {
    let kernel = boot();
    assert_eq!(kernel.task_manager.task_count(), 0);
    assert_eq!(kernel.task_manager.get_current_task(), None);
    assert_eq!(kernel.scheduler.ready_count(), 0);
    assert_eq!(kernel.timer, None);
    assert_eq!(kernel.allocator.total_frames(), 0x7be0);
    assert_eq!(kernel.entry.kernel_satp, kernel.kernel_space.token());
    assert_eq!(kernel.entry.trap_handler, HANDLER);
    assert_eq!(kernel.kernel_space.trampoline(), Some(PhysPageNum(0x80221)));
    // a window that the allocator cannot track
    assert_eq!(
        Kernel::new(&layout(), 0x8000_0000, 0x9000_0000, 0, 0, 0).err(),
        Some(MapError::OutOfRange)
    );
    assert_eq!(
        Kernel::new(&layout(), 0x8800_0000, 0x8042_0000, 0, 0, 0).err(),
        Some(MapError::OutOfRange)
    );
}

#[test]
fn loaded_task_is_ready_for_its_first_entry() {
    let mut kernel = boot();
    let pid = kernel.load_app(&program()).unwrap();
    assert_eq!(pid, 0);
    let task = kernel.task_manager.get_task(0).unwrap();
    assert!(task.task_status == TaskStatus::Ready);
    assert_eq!(task.trap_cx.sepc, 0x1_0000);
    assert_eq!(task.trap_cx.x[2], USER_STACK_TOP);
    // previous privilege mode user, interrupts on after the return
    assert_eq!(task.trap_cx.sstatus & 0x100, 0);
    assert_eq!(task.trap_cx.sstatus & 0x20, 0x20);
    assert_eq!(task.trap_cx.kernel_satp, kernel.kernel_space.token());
    assert_eq!(task.trap_cx.trap_handler, HANDLER);
    let (bottom, top) = kernel_stack_position(0);
    assert_eq!(task.kernel_stack, (bottom, top));
    assert_eq!(task.trap_cx.kernel_sp, top);
    assert_eq!(task.task_cx.ra, RESTORE);
    assert_eq!(task.task_cx.sp, top);
    assert_eq!(task.base_size, USER_STACK_TOP);
    // the frame of the trap frame is where its page maps to
    let mapped = task.memory_set.page_table().translate(VirtPageNum::from_addr(TRAP_CONTEXT)).unwrap();
    assert_eq!(mapped.0, task.trap_cx_ppn);
    assert_eq!(task.get_user_token(), task.memory_set.token());
    assert_eq!(kernel.scheduler.ready_count(), 1);
}

#[test]
fn every_task_has_its_own_trap_frame_and_the_same_trampoline() {
    let mut kernel = boot();
    for _ in 0..4 {
        kernel.load_app(&program()).unwrap();
    }
    let shared = kernel.kernel_space.trampoline().unwrap();
    let mut seen = Vec::new();
    for pid in 0..4 {
        let task = kernel.task_manager.get_task(pid).unwrap();
        let pt = task.memory_set.page_table();
        assert_eq!(pt.translate(VirtPageNum::from_addr(TRAMPOLINE)).unwrap().0, shared);
        let trap = pt.translate(VirtPageNum::from_addr(TRAP_CONTEXT)).unwrap().0;
        assert!(kernel.allocator.is_used(trap));
        assert!(!seen.contains(&trap));
        assert_ne!(trap, shared);
        seen.push(trap);
        assert_eq!(kernel_stack_position(pid as u64), task.kernel_stack);
    }
}

#[test]
fn table_of_tasks_is_full_after_sixteen() {
    let mut kernel = boot();
    for i in 0..16 {
        assert_eq!(kernel.load_app(&program()), Ok(i));
    }
    let free = kernel.allocator.free_frames();
    assert_eq!(kernel.load_app(&program()), Err(LoadError::NoSlot));
    assert_eq!(kernel.allocator.free_frames(), free);
    assert_eq!(kernel.task_manager.task_count(), 16);
}

#[test]
fn refused_image_leaves_the_kernel_as_it_was() {
    let mut kernel = boot();
    let free = kernel.allocator.free_frames();
    assert!(matches!(kernel.load_app(&[1, 2, 3]), Err(LoadError::Image(_))));
    assert_eq!(kernel.allocator.free_frames(), free);
    assert_eq!(kernel.task_manager.task_count(), 0);
    assert_eq!(kernel.scheduler.ready_count(), 0);
}

/// A program that prints `name: i` for i below `rounds`, gives the
/// processor up after each line, prints `name OK!` and ends.
struct Power {
    name: &'static str,
    rounds: u64,
    at: u64,
}

#[test]
fn three_tasks_run_in_turns_and_the_machine_shuts_down() {
    let mut kernel = boot();
    let mut programs = vec![
        Power { name: "power_3", rounds: 3, at: 0 },
        Power { name: "power_5", rounds: 5, at: 0 },
        Power { name: "power_7", rounds: 7, at: 0 },
    ];
    for _ in 0..3 {
        kernel.load_app(&program()).unwrap();
    }
    let mut next = match kernel.switch_task() {
        Switch::To { from: None, to, .. } => Some(to),
        other => panic!("first switch: {:?}", other),
    };
    let mut steps = 0;
    while let Some(pid) = next {
        steps += 1;
        assert!(steps < 100);
        assert_eq!(kernel.task_manager.get_current_task(), Some(pid));
        let (name, rounds, at) = (programs[pid].name, programs[pid].rounds, programs[pid].at);
        let outcome = if at < rounds {
            say(&mut kernel, &format!("{}: {}\n", name, at));
            programs[pid].at += 1;
            ecall(&mut kernel, 124, [0; 6], 0)
        } else {
            say(&mut kernel, &format!("{} OK!\n", name));
            ecall(&mut kernel, 93, [0; 6], 0)
        };
        next = match outcome {
            TrapOutcome::Resume { pid: to, satp } => {
                assert_eq!(satp, kernel.task_manager.get_task(to).unwrap().memory_set.token());
                Some(to)
            },
            TrapOutcome::Shutdown => None,
            other => panic!("unexpected outcome {:?}", other),
        };
    }
    let text = output(&mut kernel);
    assert!(text.contains("power_3: 0\npower_5: 0\npower_7: 0"));
    let done: Vec<&str> = text.lines().filter(|l| l.ends_with("OK!")).collect();
    assert_eq!(done, vec!["power_3 OK!", "power_5 OK!", "power_7 OK!"]);
    assert_eq!(text.lines().count(), 3 + 5 + 7 + 3);
    assert_eq!(kernel.exited, vec![(0, 0), (1, 0), (2, 0)]);
    assert_eq!(kernel.task_manager.task_count(), 0);
    assert_eq!(kernel.task_manager.get_current_task(), None);
}

#[test]
fn write_reads_a_buffer_that_spans_two_pages() {
    let mut kernel = boot();
    kernel.load_app(&program()).unwrap();
    kernel.switch_task();
    let text: Vec<u8> = (0..8192u32).map(|i| b'a' + (i % 26) as u8).collect();
    assert!(store(&mut kernel, 0, USER_STACK_BOTTOM, &text));
    let out = ecall(&mut kernel, 64, [1, USER_STACK_BOTTOM, 8192, 0, 0, 0], 0);
    assert!(matches!(out, TrapOutcome::Resume { pid: 0, .. }));
    assert_eq!(a0(&kernel, 0), 8192);
    assert_eq!(kernel.console.take(), text);
    // the program counter points behind the call
    assert_eq!(frame(&kernel, 0).sepc, 0x1_0004);
}

#[test]
fn write_refuses_other_files_and_unmapped_buffers() {
    let mut kernel = boot();
    kernel.load_app(&program()).unwrap();
    kernel.switch_task();
    store(&mut kernel, 0, USER_STACK_BOTTOM, b"hello");
    ecall(&mut kernel, 64, [2, USER_STACK_BOTTOM, 5, 0, 0, 0], 0);
    assert_eq!(a0(&kernel, 0), -1);
    ecall(&mut kernel, 64, [1, USER_STACK_TOP - 2, 5, 0, 0, 0], 0);
    assert_eq!(a0(&kernel, 0), -1);
    ecall(&mut kernel, 64, [1, 0x5000_0000, 1, 0, 0, 0], 0);
    assert_eq!(a0(&kernel, 0), -1);
    ecall(&mut kernel, 64, [1, USER_STACK_BOTTOM, u64::MAX, 0, 0, 0], 0);
    assert_eq!(a0(&kernel, 0), -1);
    assert_eq!(kernel.console.take(), Vec::<u8>::new());
    ecall(&mut kernel, 64, [1, USER_STACK_BOTTOM, 0, 0, 0, 0], 0);
    assert_eq!(a0(&kernel, 0), 0);
    ecall(&mut kernel, 64, [1, USER_STACK_BOTTOM, 5, 0, 0, 0], 0);
    assert_eq!(a0(&kernel, 0), 5);
    assert_eq!(kernel.console.take(), b"hello".to_vec());
}

#[test]
fn mmap_then_write_then_munmap() {
    let mut kernel = boot();
    kernel.load_app(&program()).unwrap();
    kernel.load_app(&program()).unwrap();
    kernel.switch_task();
    let free = kernel.allocator.free_frames();
    // mmap(0, 8192, R|W, ANONYMOUS|PRIVATE, -1, 0)
    ecall(&mut kernel, 222, [0, 8192, 0x3, 0x22, u64::MAX, 0], 0);
    let v = a0(&kernel, 0);
    assert_eq!(v, MMAP_START as i64);
    let v = v as u64;
    // two pages and one last-level table
    assert_eq!(kernel.allocator.free_frames(), free - 3);
    assert!(store(&mut kernel, 0, v, &[0xab]));
    let space = &kernel.task_manager.get_task(0).unwrap().memory_set;
    assert_eq!(space.read_byte(v), Some(0xab));
    assert_eq!(space.read_byte(v + 8191), Some(0));
    assert!(space.translate(v).is_some());
    ecall(&mut kernel, 215, [v, 8192, 0, 0, 0, 0], 0);
    assert_eq!(a0(&kernel, 0), 0);
    assert_eq!(kernel.allocator.free_frames(), free - 1);
    // a read at the address now faults, and the fault ends the task
    let space = &kernel.task_manager.get_task(0).unwrap().memory_set;
    assert_eq!(space.translate(v), None);
    assert_eq!(space.read_byte(v), None);
    let cx = frame(&kernel, 0);
    let out = kernel.trap_handler(cx, LOAD_PAGE_FAULT, v, 0);
    assert!(matches!(out, TrapOutcome::Resume { pid: 1, .. }));
    assert_eq!(kernel.exited, vec![(0, -1)]);
    assert!(kernel.task_manager.get_task(0).is_none());
}

#[test]
fn mmap_arguments() {
    let mut kernel = boot();
    // no task runs
    assert_eq!(sys_mmap(&mut kernel, 0, 4096, 3, 0x20, 0, 0), -1);
    kernel.load_app(&program()).unwrap();
    kernel.switch_task();
    let free = kernel.allocator.free_frames();
    // not anonymous
    assert_eq!(sys_mmap(&mut kernel, 0, 4096, 3, 0x02, 0, 0), -1);
    // empty
    assert_eq!(sys_mmap(&mut kernel, 0, 0, 3, 0x20, 0, 0), -1);
    // a fixed address that is no page boundary
    assert_eq!(sys_mmap(&mut kernel, 0x3000_0100, 4096, 3, 0x30, 0, 0), -1);
    // beyond the lower half of the address space
    assert_eq!(sys_mmap(&mut kernel, 0x3f_ffff_f000, 8192, 3, 0x30, 0, 0), -1);
    assert_eq!(sys_mmap(&mut kernel, 0, u64::MAX, 3, 0x20, 0, 0), -1);
    // over the user stack
    assert_eq!(sys_mmap(&mut kernel, USER_STACK_BOTTOM, 4096, 3, 0x30, 0, 0), -1);
    assert_eq!(kernel.allocator.free_frames(), free);
    // a suggested address is rounded down to its page
    assert_eq!(sys_mmap(&mut kernel, 0x3000_0100, 1, 1, 0x20, 0, 0), 0x3000_0000);
    let space = &kernel.task_manager.get_task(0).unwrap().memory_set;
    let flags = space.page_table().translate(VirtPageNum::from_addr(0x3000_0000)).unwrap().1;
    assert_eq!(flags.bits(), 0x13);
    assert_eq!(space.page_table().translate(VirtPageNum::from_addr(0x3000_1000)), None);
    // a fixed address
    assert_eq!(sys_mmap(&mut kernel, 0x3100_0000, 4097, 7, 0x30, 0, 0), 0x3100_0000);
    let space = &kernel.task_manager.get_task(0).unwrap().memory_set;
    let flags = space.page_table().translate(VirtPageNum::from_addr(0x3100_1000)).unwrap().1;
    assert_eq!(flags.bits(), 0x1f);
    // the same place again
    assert_eq!(sys_mmap(&mut kernel, 0x3100_1000, 4096, 7, 0x30, 0, 0), -1);
}

#[test]
fn mmap_without_memory_fails_and_takes_no_page() {
    let mut kernel = boot();
    kernel.load_app(&program()).unwrap();
    kernel.switch_task();
    while kernel.allocator.free_frames() > 4 {
        kernel.allocator.alloc_frame();
    }
    assert_eq!(sys_mmap(&mut kernel, 0, 5 * 4096, 3, 0x20, 0, 0), -1);
    // the table that was made stays with the address space
    assert_eq!(kernel.allocator.free_frames(), 3);
    let space = &kernel.task_manager.get_task(0).unwrap().memory_set;
    assert_eq!(space.translate(MMAP_START), None);
    assert_eq!(sys_mmap(&mut kernel, 0, 3 * 4096, 3, 0x20, 0, 0), MMAP_START as i64);
    assert_eq!(kernel.allocator.free_frames(), 0);
}

#[test]
fn munmap_takes_whole_regions_only() {
    let mut kernel = boot();
    assert_eq!(sys_munmap(&mut kernel, MMAP_START, 4096), -1);
    kernel.load_app(&program()).unwrap();
    kernel.switch_task();
    assert_eq!(sys_mmap(&mut kernel, 0, 3 * 4096, 3, 0x20, 0, 0), MMAP_START as i64);
    let free = kernel.allocator.free_frames();
    // no page boundary
    assert_eq!(sys_munmap(&mut kernel, MMAP_START + 8, 4096), -1);
    // empty
    assert_eq!(sys_munmap(&mut kernel, MMAP_START, 0), -1);
    // a part of the region
    assert_eq!(sys_munmap(&mut kernel, MMAP_START, 4096), -1);
    assert_eq!(sys_munmap(&mut kernel, MMAP_START + 4096, 2 * 4096), -1);
    // more than the region
    assert_eq!(sys_munmap(&mut kernel, MMAP_START, 4 * 4096), -1);
    // no region there
    assert_eq!(sys_munmap(&mut kernel, 0x5000_0000, 4096), -1);
    assert_eq!(kernel.allocator.free_frames(), free);
    // the length is rounded up to whole pages
    assert_eq!(sys_munmap(&mut kernel, MMAP_START, 2 * 4096 + 1), 0);
    assert_eq!(kernel.allocator.free_frames(), free + 3);
    assert_eq!(sys_munmap(&mut kernel, MMAP_START, 3 * 4096), -1);
}

#[test]
fn timer_preempts_a_task_that_never_yields() {
    let mut kernel = boot();
    kernel.load_app(&program()).unwrap();
    kernel.load_app(&program()).unwrap();
    kernel.switch_task();
    // task 0 spins at 0x10040
    let mut spinning = frame(&kernel, 0);
    spinning.sepc = 0x1_0040;
    spinning.x[5] = 0x1234;
    let out = kernel.trap_handler(spinning, TIMER, 0, 1_000_000);
    assert_eq!(kernel.timer, Some(1_100_000));
    assert!(matches!(out, TrapOutcome::Resume { pid: 1, .. }));
    assert_eq!(kernel.task_manager.get_current_task(), Some(1));
    assert!(kernel.task_manager.get_task(0).unwrap().task_status == TaskStatus::Ready);
    // the other task runs until the next tick
    let other = frame(&kernel, 1);
    let out = kernel.trap_handler(other, TIMER, 0, 1_100_000);
    assert_eq!(kernel.timer, Some(1_200_000));
    // the spinner goes on where it was
    assert!(matches!(out, TrapOutcome::Resume { pid: 0, .. }));
    assert_eq!(frame(&kernel, 0).sepc, 0x1_0040);
    assert_eq!(frame(&kernel, 0).x[5], 0x1234);
    assert!(kernel.task_manager.get_task(0).unwrap().task_status == TaskStatus::Running);
}

#[test]
fn timer_in_supervisor_mode_never_switches() {
    let mut kernel = boot();
    kernel.load_app(&program()).unwrap();
    kernel.load_app(&program()).unwrap();
    kernel.switch_task();
    let mut cx = frame(&kernel, 0);
    cx.sstatus |= 0x100;
    let out = kernel.trap_handler(cx, TIMER, 0, 500);
    assert_eq!(out, TrapOutcome::ResumeKernel);
    assert_eq!(kernel.timer, Some(100_500));
    assert_eq!(kernel.task_manager.get_current_task(), Some(0));
    assert_eq!(kernel.scheduler.ready_count(), 1);
    // also before any task runs
    let mut early = boot();
    assert_eq!(early.trap_handler(cx, TIMER, 0, u64::MAX - 5), TrapOutcome::ResumeKernel);
    assert_eq!(early.timer, Some(u64::MAX));
}

#[test]
fn single_task_is_preempted_onto_itself() {
    let mut kernel = boot();
    kernel.load_app(&program()).unwrap();
    kernel.switch_task();
    let cx = frame(&kernel, 0);
    let out = kernel.trap_handler(cx, TIMER, 0, 0);
    assert!(matches!(out, TrapOutcome::Resume { pid: 0, .. }));
    assert!(kernel.task_manager.get_task(0).unwrap().task_status == TaskStatus::Running);
    assert_eq!(kernel.scheduler.ready_count(), 0);
}

#[test]
fn illegal_instruction_ends_the_task_that_ran_it() {
    let mut kernel = boot();
    kernel.load_app(&program()).unwrap();
    kernel.load_app(&program()).unwrap();
    let before = kernel.allocator.free_frames();
    kernel.switch_task();
    let owned: Vec<PhysPageNum> = {
        let space = &kernel.task_manager.get_task(0).unwrap().memory_set;
        [TRAP_CONTEXT, USER_STACK_BOTTOM, USER_STACK_BOTTOM + 4096, 0x1_0000]
            .iter()
            .map(|va| space.page_table().translate(VirtPageNum::from_addr(*va)).unwrap().0)
            .collect()
    };
    let cx = frame(&kernel, 0);
    let in_use_by_one = {
        let mut probe = boot();
        let free = probe.allocator.free_frames();
        probe.load_app(&program()).unwrap();
        free - probe.allocator.free_frames()
    };
    let out = kernel.trap_handler(cx, ILLEGAL, 0, 0);
    assert!(matches!(out, TrapOutcome::Resume { pid: 1, .. }));
    assert_eq!(kernel.exited, vec![(0, -1)]);
    assert!(kernel.task_manager.get_task(0).is_none());
    // its frames are free before the next task runs on
    for frame in owned {
        assert!(!kernel.allocator.is_used(frame));
    }
    assert_eq!(kernel.allocator.free_frames(), before + in_use_by_one);
    // the other task completes
    say(&mut kernel, "power_3 OK!\n");
    let out = ecall(&mut kernel, 93, [0; 6], 0);
    assert_eq!(out, TrapOutcome::Shutdown);
    assert_eq!(output(&mut kernel), "power_3 OK!\n");
    assert_eq!(kernel.exited, vec![(0, -1), (1, 0)]);
    // every frame of the tasks is free again
    let mut fresh = boot();
    assert_eq!(kernel.allocator.free_frames(), fresh.allocator.free_frames());
    assert_eq!(fresh.switch_task(), Switch::Shutdown);
}

#[test]
fn memory_faults_end_the_task() {
    for cause in [1u64, 5, 7, 12, 13, 15] {
        let mut kernel = boot();
        kernel.load_app(&program()).unwrap();
        kernel.switch_task();
        let cx = frame(&kernel, 0);
        assert_eq!(kernel.trap_handler(cx, cause, 0xdead, 0), TrapOutcome::Shutdown);
        assert_eq!(kernel.exited, vec![(0, -1)]);
    }
}

#[test]
fn unexpected_traps_stop_the_kernel() {
    let mut kernel = boot();
    kernel.load_app(&program()).unwrap();
    kernel.switch_task();
    let user = frame(&kernel, 0);
    let mut supervisor = user;
    supervisor.sstatus |= 0x100;
    // faults and calls in supervisor mode
    for cause in [1u64, 2, 5, 7, 8, 12, 13, 15] {
        assert_eq!(kernel.trap_handler(supervisor, cause, 0, 0), TrapOutcome::Panic);
    }
    // traps from user mode that the kernel does not know
    for cause in [0u64, 3, 4, 6, 9, 10, 11, 14, 16, (1 << 63) | 1, (1 << 63) | 9, 1 << 63] {
        assert_eq!(kernel.trap_handler(user, cause, 0, 0), TrapOutcome::Panic);
    }
    assert_eq!(kernel.task_manager.task_count(), 1);
    assert_eq!(kernel.task_manager.get_current_task(), Some(0));
    assert!(kernel.exited.is_empty());
    // a user trap while no task runs
    let mut idle = boot();
    assert_eq!(idle.trap_handler(user, 8, 0, 0), TrapOutcome::Panic);
}

#[test]
fn decisions() {
    let timer = Trap::Interrupt(Interrupt::SupervisorTimer);
    assert_eq!(decision(timer, true), Decision::Preempt);
    assert_eq!(decision(timer, false), Decision::Rearm);
    assert_eq!(decision(Trap::Exception(Exception::UserEnvCall), true), Decision::Syscall);
    assert_eq!(decision(Trap::Exception(Exception::UserEnvCall), false), Decision::Panic);
    assert_eq!(decision(Trap::Exception(Exception::IllegalInstruction), true), Decision::Kill);
    assert_eq!(decision(Trap::Exception(Exception::StorePageFault), true), Decision::Kill);
    assert_eq!(decision(Trap::Exception(Exception::Breakpoint), true), Decision::Panic);
    assert_eq!(decision(Trap::Interrupt(Interrupt::SupervisorSoft), true), Decision::Panic);
    assert_eq!(decision(Trap::Unknown, true), Decision::Panic);
    assert_eq!(set_next_timer(0), 100_000);
    assert_eq!(set_next_timer(u64::MAX - 100_000), u64::MAX);
    assert_eq!(set_next_timer(u64::MAX), u64::MAX);
}

#[test]
fn system_calls_by_number() {
    let mut kernel = boot();
    kernel.load_app(&program()).unwrap();
    kernel.load_app(&program()).unwrap();
    kernel.switch_task();
    assert_eq!(syscall(&mut kernel, 169, [0; 6], 12345), SyscallOutcome::Return(12345));
    assert_eq!(syscall(&mut kernel, 169, [0; 6], u64::MAX), SyscallOutcome::Return(-1));
    assert_eq!(syscall(&mut kernel, 0, [0; 6], 0), SyscallOutcome::Return(-1));
    assert_eq!(syscall(&mut kernel, 501, [0; 6], 0), SyscallOutcome::Return(-1));
    assert!(matches!(
        syscall(&mut kernel, 124, [0; 6], 0),
        SyscallOutcome::Yielded(Switch::To { from: Some(0), to: 1, .. })
    ));
    assert!(matches!(
        syscall(&mut kernel, 93, [7, 0, 0, 0, 0, 0], 0),
        SyscallOutcome::Exited(Switch::To { from: None, to: 0, .. })
    ));
    assert_eq!(kernel.exited, vec![(1, 7)]);
    // the value of a call reaches the register of the task
    ecall(&mut kernel, 169, [0; 6], 777);
    assert_eq!(a0(&kernel, 0), 777);
    ecall(&mut kernel, 9999, [0; 6], 0);
    assert_eq!(frame(&kernel, 0).x[10], u64::MAX);
    // yield returns 0 to the task that called
    let mut cx = frame(&kernel, 0);
    cx.x[10] = 55;
    cx.x[17] = 124;
    kernel.trap_handler(cx, ECALL, 0, 0);
    assert_eq!(frame(&kernel, 0).x[10], 0);
}

#[test]
fn registers_and_signed_numbers() {
    assert_eq!(to_signed(0), 0);
    assert_eq!(to_signed(u64::MAX), -1);
    assert_eq!(to_signed(1 << 63), i64::MIN);
    assert_eq!(to_signed((1 << 63) - 1), i64::MAX);
    assert_eq!(to_register(-1), u64::MAX);
    assert_eq!(to_register(i64::MIN), 1 << 63);
    assert_eq!(to_register(42), 42);
    assert_eq!(sys_get_time(10_000_000), 10_000_000);
    assert_eq!(exit_code(0), 0);
    assert_eq!(exit_code(u64::MAX), -1);
    assert_eq!(exit_code(0xffff_ffff), -1);
    assert_eq!(exit_code(0x1_0000_0005), 5);
    assert_eq!(exit_code(0x8000_0000), i32::MIN);
}

#[test]
fn program_counter_wraps_behind_a_call_at_the_top() {
    let mut kernel = boot();
    kernel.load_app(&program()).unwrap();
    kernel.switch_task();
    let mut cx = frame(&kernel, 0);
    cx.sepc = u64::MAX - 1;
    cx.x[17] = 169;
    kernel.trap_handler(cx, ECALL, 0, 1);
    assert_eq!(frame(&kernel, 0).sepc, 2);
}

#[test]
fn scheduler_queue_and_ticks() {
    let mut s = Scheduler::new();
    assert_eq!(s.schedule_next(), None);
    s.enqueue(3);
    s.enqueue(1);
    s.enqueue(2);
    assert_eq!(s.ready_count(), 3);
    assert_eq!(s.schedule_next(), Some(3));
    assert_eq!(s.schedule_next(), Some(1));
    s.enqueue(3);
    assert_eq!(s.schedule_next(), Some(2));
    assert_eq!(s.schedule_next(), Some(3));
    assert_eq!(s.schedule_next(), None);
    // every tick ends the time slice
    assert!(Scheduler::new().tick());
    for _ in 0..3 {
        assert!(s.tick());
    }
    s.reset_time_slice();
    assert!(s.tick());
    assert_eq!(s.ready_count(), 0);
}

#[test]
fn table_of_tasks() {
    let mut kernel = boot();
    for _ in 0..3 {
        kernel.load_app(&program()).unwrap();
    }
    let tm: &mut TaskManager = &mut kernel.task_manager;
    assert_eq!(tm.task_count(), 3);
    assert_eq!(tm.free_slot(), Some(3));
    assert_eq!(tm.find_next_task(0), Some(1));
    assert_eq!(tm.find_next_task(2), Some(0));
    assert_eq!(tm.find_next_task(15), Some(0));
    assert_eq!(tm.find_next_task(usize::MAX), Some(0));
    tm.set_status(1, TaskStatus::Running);
    assert_eq!(tm.find_next_task(0), Some(2));
    tm.set_current_task(Some(1));
    assert_eq!(tm.get_current_task(), Some(1));
    tm.mark_zombie(2, 9);
    assert!(tm.get_task(2).unwrap().task_status == TaskStatus::Zombie);
    assert_eq!(tm.get_task(2).unwrap().exit_code, Some(9));
    assert_eq!(tm.find_next_task(0), Some(0));
    tm.set_status(0, TaskStatus::Running);
    assert_eq!(tm.find_next_task(0), None);
    assert!(tm.get_task(3).is_none());
    assert!(tm.get_task(16).is_none());
    assert!(tm.remove_task(16).is_none());
    assert!(tm.remove_task(5).is_none());
    let gone = tm.remove_task(1).unwrap();
    assert!(gone.task_status == TaskStatus::Running);
    assert_eq!(tm.get_current_task(), None);
    assert_eq!(tm.task_count(), 2);
    assert_eq!(tm.free_slot(), Some(1));
    let back = tm.add_task(gone);
    assert!(matches!(back, Ok(1)));
    tm.set_trap_cx(1, TrapContext::user_init_context(0x77, 0x88, 0));
    assert_eq!(tm.get_task(1).unwrap().trap_cx.sepc, 0x77);
    let frame = tm.take_task(1).unwrap().trap_cx;
    assert_eq!(frame.x[2], 0x88);
    assert!(tm.get_task(1).is_none());
    let empty = TaskManager::new();
    assert_eq!(empty.task_count(), 0);
    assert_eq!(empty.find_next_task(0), None);
}

#[test]
fn trap_frame_through_the_task() {
    let mut kernel = boot();
    kernel.load_app(&program()).unwrap();
    let mut task = kernel.task_manager.take_task(0).unwrap();
    task.get_trap_cx().x[10] = 99;
    task.get_trap_cx().set_sp(0x1234);
    assert_eq!(task.trap_cx.x[10], 99);
    assert_eq!(task.trap_cx.x[2], 0x1234);
}

#[test]
fn programs_are_loaded_in_their_order_and_empty_ones_left_out() {
    let mut kernel = boot();
    let image = program();
    let images: Vec<&[u8]> = vec![&image, &[], &image];
    assert_eq!(kernel.load_apps(&images), Ok(vec![0, 1]));
    assert_eq!(kernel.task_manager.task_count(), 2);
    assert_eq!(kernel.scheduler.ready_count(), 2);
    assert_eq!(kernel.task_manager.get_task(1).unwrap().task_status, TaskStatus::Ready);
    assert_eq!(frame(&kernel, 1).sepc, 0x1_0000);
}

#[test]
fn loading_stops_at_the_first_program_that_is_no_image() {
    let mut kernel = boot();
    let image = program();
    let mut broken = program();
    broken[0] = 0;
    let images: Vec<&[u8]> = vec![&image, &broken, &image];
    let free_before = kernel.allocator.free_frames();
    let r = kernel.load_apps(&images);
    assert!(matches!(r, Err((1, LoadError::Image(_)))));
    assert_eq!(kernel.task_manager.task_count(), 1);
    assert_eq!(kernel.scheduler.ready_count(), 1);
    assert!(kernel.allocator.free_frames() < free_before);
}

#[test]
fn a_task_is_changed_in_its_slot() {
    let mut kernel = boot();
    assert_eq!(kernel.load_app(&program()), Ok(0));
    assert_eq!(kernel.load_app(&program()), Ok(1));
    let task = kernel.task_manager.get_task_mut(1).unwrap();
    assert_eq!(task.task_status, TaskStatus::Ready);
    task.exit_code = Some(7);
    assert_eq!(kernel.task_manager.get_task(1).unwrap().exit_code, Some(7));
    assert_eq!(kernel.task_manager.get_task(0).unwrap().exit_code, None);
    assert!(kernel.task_manager.get_task_mut(2).is_none());
    assert!(kernel.task_manager.get_task_mut(16).is_none());
    assert_eq!(kernel.task_manager.task_count(), 2);
}

#[test]
fn kernel_token_names_the_root_of_the_kernel_space() {
    let kernel = boot();
    assert_eq!(kernel.get_kernel_token(), kernel.kernel_space.token());
    assert_eq!(kernel.get_kernel_token() >> 60, 8);
    assert_eq!(kernel.get_kernel_token(), kernel.entry.kernel_satp);
    assert_eq!(
        kernel.get_kernel_token() & 0xfff_ffff_ffff,
        u64::from(kernel.kernel_space.page_table().as_ppn())
    );
}
