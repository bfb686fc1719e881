use chronos_kernel::console::Console;
use chronos_kernel::sbi::{
    character_of, console_getchar, console_putchar, get_sbi_version, init, probe_extension,
    probed, sbi_call, set_timer, shutdown, system_reset, version_of, BaseFunction,
    ConsoleFunction, ExtensionId, ResetReason, ResetType, SbiError,
};
use chronos_kernel::user::{print, print_num, sys_exit, sys_get_time, sys_write, sys_yield, UserCall};

#[test]
fn extension_numbers_spell_their_names() {
    assert_eq!(ExtensionId::Base.id(), 0x10);
    assert_eq!(ExtensionId::Timer.id(), u32::from_be_bytes(*b"TIME") as u64);
    assert_eq!(ExtensionId::Ipi.id(), 0x735049);
    assert_eq!(ExtensionId::Rfence.id(), u32::from_be_bytes(*b"RFNC") as u64);
    assert_eq!(ExtensionId::Hsm.id(), 0x48534D);
    assert_eq!(ExtensionId::Srst.id(), u32::from_be_bytes(*b"SRST") as u64);
    assert_eq!(ExtensionId::Console.id(), u32::from_be_bytes(*b"CONS") as u64);
    assert_eq!(ExtensionId::Pm.id(), 0x504D);
    assert_eq!(ExtensionId::Dbcn.id(), u32::from_be_bytes(*b"DBCN") as u64);
    assert_eq!(ExtensionId::Suspend.id(), u32::from_be_bytes(*b"SUSP") as u64);
    assert_eq!(ExtensionId::Cppc.id(), u32::from_be_bytes(*b"CPPC") as u64);
}

#[test]
fn function_numbers() {
    assert_eq!(BaseFunction::GetSbiVersion.id(), 0);
    assert_eq!(BaseFunction::ProbeExtension.id(), 3);
    assert_eq!(BaseFunction::GetMimpid.id(), 6);
    assert_eq!(ConsoleFunction::PutChar.id(), 0);
    assert_eq!(ConsoleFunction::GetChar.id(), 1);
    assert_eq!(ResetType::Shutdown.id(), 0);
    assert_eq!(ResetType::WarmReboot.id(), 2);
    assert_eq!(ResetReason::SystemFailure.id(), 1);
}

#[test]
fn error_codes() {
    for e in [
        SbiError::Success,
        SbiError::Failed,
        SbiError::NotSupported,
        SbiError::InvalidParam,
        SbiError::Denied,
        SbiError::InvalidAddress,
        SbiError::AlreadyAvailable,
    ] {
        assert_eq!(SbiError::from_code(e.code()), Some(e));
    }
    assert_eq!(SbiError::Denied.code(), -4);
    assert_eq!(SbiError::from_code(1), None);
    assert_eq!(SbiError::from_code(-7), None);
}

#[test]
fn calls_to_the_firmware() {
    let c = sbi_call(1, 2, 3, 4, 5, 6, 7, 8);
    assert_eq!((c.extension, c.function, c.args), (1, 2, [3, 4, 5, 6, 7, 8]));
    assert_eq!(get_sbi_version().args, [0; 6]);
    assert_eq!(get_sbi_version().extension, 0x10);
    let p = probe_extension(0x54494D45);
    assert_eq!((p.extension, p.function, p.args[0]), (0x10, 3, 0x54494D45));
    let put = console_putchar(b'x');
    assert_eq!((put.extension, put.function, put.args), (0x434F4E53, 0, [b'x' as u64, 0, 0, 0, 0, 0]));
    assert_eq!(console_getchar().function, 1);
    let t = set_timer(0x1234_5678_9abc_def0);
    assert_eq!((t.extension, t.function), (0x54494D45, 0));
    assert_eq!(t.args, [0x1234_5678_9abc_def0, 0x1234_5678, 0, 0, 0, 0]);
    let r = system_reset(ResetType::ColdReboot, ResetReason::SystemFailure);
    assert_eq!((r.extension, r.function, r.args), (0x53525354, 0, [1, 1, 0, 0, 0, 0]));
    assert_eq!(shutdown().args, [0; 6]);
    assert_eq!(shutdown().extension, 0x53525354);
}

#[test]
fn answers_of_the_firmware() {
    assert_eq!(version_of(0, 0x0200_0000), 0x0200_0000);
    assert_eq!(version_of(-2, 0x0200_0000), 0);
    assert!(probed(0, 1));
    assert!(!probed(0, 0));
    assert!(!probed(-1, 1));
    assert_eq!(character_of(0, b'a' as u64), Some(b'a'));
    assert_eq!(character_of(0, 0x141), Some(0x41));
    assert_eq!(character_of(0, u64::MAX), None);
    assert_eq!(character_of(-1, b'a' as u64), None);
}

#[test]
fn greeting() {
    let mut c = Console::new();
    init(&mut c, 0x0200_0000, true, false, true);
    assert_eq!(
        String::from_utf8(c.take()).unwrap(),
        "SBI Version: 2.0\nConsole extension: available\nSystem Reset extension: available\n"
    );
    init(&mut c, 0x8103_ffff, false, true, false);
    assert_eq!(
        String::from_utf8(c.take()).unwrap(),
        "SBI Version: 1.3\nTimer extension: available\n"
    );
}

#[test]
fn calls_of_a_program() {
    assert_eq!(sys_write(1, 0x1000, 5), UserCall { id: 64, args: [1, 0x1000, 5] });
    assert_eq!(sys_exit(0), UserCall { id: 93, args: [0, 0, 0] });
    assert_eq!(sys_exit(3), UserCall { id: 93, args: [3, 0, 0] });
    assert_eq!(sys_exit(-1), UserCall { id: 93, args: [u64::MAX, 0, 0] });
    assert_eq!(sys_exit(i32::MIN).args[0], 0xffff_ffff_8000_0000);
    assert_eq!(sys_yield(), UserCall { id: 124, args: [0, 0, 0] });
    assert_eq!(sys_get_time(), UserCall { id: 169, args: [0, 0, 0] });
}

#[test]
fn what_a_program_prints() {
    assert_eq!(print("power_3: "), b"power_3: ".to_vec());
    assert_eq!(print(""), Vec::<u8>::new());
    assert_eq!(chronos_kernel::user::println("power_3 OK!"), b"power_3 OK!\n".to_vec());
    assert_eq!(print_num(0), b"0".to_vec());
    assert_eq!(print_num(42), b"42".to_vec());
    assert_eq!(print_num(u64::MAX), b"18446744073709551615".to_vec());
}
