use chronos_kernel::console::{
    console_putstr, init, print, print_hex_usize, print_usize, put_bytes, Console,
};
use chronos_kernel::trap::registers::{print_critical_registers, Registers};
use chronos_kernel::trap::cause::{
    decode_cause, from_user_mode, interrupts_enabled, user_entry_status, Exception, Interrupt, Trap,
};
use chronos_kernel::trap::context::TrapContext;
use chronos_kernel::task::context::TaskContext;

#[test]
fn console_collects_bytes() {
    let mut c = Console::new();
    init(&mut c);
    console_putstr(&mut c, "ab");
    c.console_putchar(b'c');
    print(&mut c, "d\n");
    put_bytes(&mut c, &[0xff, 0x00]);
    assert_eq!(c.take(), vec![b'a', b'b', b'c', b'd', b'\n', 0xff, 0x00]);
    assert_eq!(c.take(), Vec::<u8>::new());
}

#[test]
fn hexadecimal_digits() {
    let mut c = Console::new();
    print_hex_usize(&mut c, 0);
    c.console_putchar(b' ');
    print_hex_usize(&mut c, 0x9);
    c.console_putchar(b' ');
    print_hex_usize(&mut c, 0xa);
    c.console_putchar(b' ');
    print_hex_usize(&mut c, 0x8020_0000);
    c.console_putchar(b' ');
    print_hex_usize(&mut c, u64::MAX);
    assert_eq!(String::from_utf8(c.take()).unwrap(), "0 9 a 80200000 ffffffffffffffff");
}

#[test]
fn decimal_digits() {
    let mut c = Console::new();
    print_usize(&mut c, 0);
    c.console_putchar(b' ');
    print_usize(&mut c, 7);
    c.console_putchar(b' ');
    print_usize(&mut c, 10);
    c.console_putchar(b' ');
    print_usize(&mut c, 1234567890);
    c.console_putchar(b' ');
    print_usize(&mut c, u64::MAX);
    assert_eq!(String::from_utf8(c.take()).unwrap(), "0 7 10 1234567890 18446744073709551615");
}

#[test]
fn causes_of_traps() {
    let interrupt = 1u64 << 63;
    assert_eq!(decode_cause(interrupt | 5), Trap::Interrupt(Interrupt::SupervisorTimer));
    assert_eq!(decode_cause(interrupt | 1), Trap::Interrupt(Interrupt::SupervisorSoft));
    assert_eq!(decode_cause(interrupt | 9), Trap::Interrupt(Interrupt::SupervisorExternal));
    assert_eq!(decode_cause(interrupt | 7), Trap::Unknown);
    assert_eq!(decode_cause(interrupt), Trap::Unknown);
    assert_eq!(decode_cause(0), Trap::Exception(Exception::InstructionMisaligned));
    assert_eq!(decode_cause(1), Trap::Exception(Exception::InstructionFault));
    assert_eq!(decode_cause(2), Trap::Exception(Exception::IllegalInstruction));
    assert_eq!(decode_cause(3), Trap::Exception(Exception::Breakpoint));
    assert_eq!(decode_cause(4), Trap::Exception(Exception::LoadMisaligned));
    assert_eq!(decode_cause(5), Trap::Exception(Exception::LoadFault));
    assert_eq!(decode_cause(6), Trap::Exception(Exception::StoreMisaligned));
    assert_eq!(decode_cause(7), Trap::Exception(Exception::StoreFault));
    assert_eq!(decode_cause(8), Trap::Exception(Exception::UserEnvCall));
    assert_eq!(decode_cause(9), Trap::Exception(Exception::SupervisorEnvCall));
    assert_eq!(decode_cause(12), Trap::Exception(Exception::InstructionPageFault));
    assert_eq!(decode_cause(13), Trap::Exception(Exception::LoadPageFault));
    assert_eq!(decode_cause(15), Trap::Exception(Exception::StorePageFault));
    assert_eq!(decode_cause(10), Trap::Unknown);
    assert_eq!(decode_cause(14), Trap::Unknown);
    assert_eq!(decode_cause(16), Trap::Unknown);
    assert_eq!(decode_cause((1 << 62) | 8), Trap::Unknown);
}

#[test]
fn previous_privilege_mode() {
    assert!(from_user_mode(0));
    assert!(!from_user_mode(0x100));
    assert!(from_user_mode(0x20));
    assert!(!from_user_mode(0x122));
    assert!(from_user_mode(!0x100u64));
}

#[test]
fn status_for_the_first_entry() {
    assert_eq!(user_entry_status(0), 0x20);
    assert_eq!(user_entry_status(0x100), 0x20);
    assert_eq!(user_entry_status(0x122), 0x22);
    // bits that the register does not have are dropped
    assert_eq!(user_entry_status(u64::MAX), (0x8000_0003_000d_e762 & !0x100) | 0x20);
    assert!(from_user_mode(user_entry_status(u64::MAX)));
}

#[test]
fn trap_frame_for_the_first_entry() {
    let cx = TrapContext::app_init_context(0x1_0000, 0x1000_2000, 0x8000_0000_0008_0500, 0xffff_0000, 0x8020_1000, 0x100);
    assert_eq!(cx.sepc, 0x1_0000);
    assert_eq!(cx.x[2], 0x1000_2000);
    for (i, r) in cx.x.iter().enumerate() {
        if i != 2 {
            assert_eq!(*r, 0);
        }
    }
    assert_eq!(cx.sstatus, 0x20);
    assert_eq!(cx.kernel_satp, 0x8000_0000_0008_0500);
    assert_eq!(cx.kernel_sp, 0xffff_0000);
    assert_eq!(cx.trap_handler, 0x8020_1000);
    let mut plain = TrapContext::user_init_context(0x40, 0x80, 0);
    assert_eq!(plain.kernel_satp, 0);
    plain.set_sp(0x90);
    assert_eq!(plain.x[2], 0x90);
    assert_eq!(plain.sepc, 0x40);
}

#[test]
fn task_contexts() {
    let zero = TaskContext::zero_init();
    assert_eq!((zero.ra, zero.sp, zero.s), (0, 0, [0; 12]));
    let first = TaskContext::goto_trap_return(0xffff_f000, 0x8020_2000);
    assert_eq!((first.ra, first.sp, first.s), (0x8020_2000, 0xffff_f000, [0; 12]));
}

#[test]
fn registers_are_shown_in_hexadecimal_digits() {
    let mut console = Console::new();
    let regs = Registers {
        sp: 0x8020_f000,
        satp: (8 << 60) | 0x80400,
        sstatus: 0x8000_0000_0000_6002,
        sscratch: 0,
        stvec: 0xFFFF_FFFF_FFFF_F000,
    };
    print_critical_registers(&mut console, "[Kernel Entry]", &regs);
    assert_eq!(
        String::from_utf8(console.take()).unwrap(),
        "[Kernel Entry] Critical Registers:\n  sp=0x8020f000\n  satp=0x8000000000080400 (SV39 enabled)\n  \
         sstatus=0x8000000000006002 (SIE enabled)\n  sscratch=0x0\n  stvec=0xfffffffffffff000\n"
    );
    let off = Registers { sp: 1, satp: 0x80400, sstatus: 0x100, sscratch: 2, stvec: 3 };
    print_critical_registers(&mut console, "", &off);
    assert_eq!(
        String::from_utf8(console.take()).unwrap(),
        " Critical Registers:\n  sp=0x1\n  satp=0x80400 (paging disabled)\n  sstatus=0x100 (SIE disabled)\n  \
         sscratch=0x2\n  stvec=0x3\n"
    );
}

#[test]
fn interrupt_enable_is_bit_one_of_the_status() {
    assert!(interrupts_enabled(2));
    assert!(!interrupts_enabled(0));
    assert!(!interrupts_enabled(1));
    assert!(interrupts_enabled(0x122));
    assert!(!interrupts_enabled(!2u64));
}
