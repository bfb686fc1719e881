//! The interface to the firmware: the numbers of its extensions and
//! functions, the calls that the kernel makes, and what their answers
//! mean. Making a call is left to whoever drives the machine.

use vstd::prelude::*;
use vstd::string::StringSliceAdditionalSpecFns;
use crate::console::{console_putstr, print_usize, Console};

verus! {

/// The extensions of the firmware.
#[derive(Copy, Clone, Debug, PartialEq, Eq, Structural)]
pub enum ExtensionId {
    Base,
    Timer,
    Ipi,
    Rfence,
    Hsm,
    Srst,
    Console,
    Pm,
    Dbcn,
    Suspend,
    Cppc,
}

impl ExtensionId {
    /// The number of the extension.
    pub open spec fn spec_id(self) -> u64 {
        match self {
            ExtensionId::Base => 0x10,
            ExtensionId::Timer => 0x5449_4D45,
            ExtensionId::Ipi => 0x73_5049,
            ExtensionId::Rfence => 0x5246_4E43,
            ExtensionId::Hsm => 0x48_534D,
            ExtensionId::Srst => 0x5352_5354,
            ExtensionId::Console => 0x434F_4E53,
            ExtensionId::Pm => 0x504D,
            ExtensionId::Dbcn => 0x4442_434E,
            ExtensionId::Suspend => 0x5355_5350,
            ExtensionId::Cppc => 0x4350_5043,
        }
    }

    /// The number of the extension.
    pub fn id(self) -> (r: u64)
        ensures
            r == self.spec_id(),
    {
        match self {
            ExtensionId::Base => 0x10,
            ExtensionId::Timer => 0x5449_4D45,
            ExtensionId::Ipi => 0x73_5049,
            ExtensionId::Rfence => 0x5246_4E43,
            ExtensionId::Hsm => 0x48_534D,
            ExtensionId::Srst => 0x5352_5354,
            ExtensionId::Console => 0x434F_4E53,
            ExtensionId::Pm => 0x504D,
            ExtensionId::Dbcn => 0x4442_434E,
            ExtensionId::Suspend => 0x5355_5350,
            ExtensionId::Cppc => 0x4350_5043,
        }
    }
}

/// The functions of the base extension.
#[derive(Copy, Clone, Debug, PartialEq, Eq, Structural)]
pub enum BaseFunction {
    GetSbiVersion,
    GetSbiImplId,
    GetSbiImplVersion,
    ProbeExtension,
    GetMvendorid,
    GetMarchid,
    GetMimpid,
}

impl BaseFunction {
    /// The number of the function.
    pub fn id(self) -> (r: u64)
        ensures
            r == match self {
                BaseFunction::GetSbiVersion => 0u64,
                BaseFunction::GetSbiImplId => 1,
                BaseFunction::GetSbiImplVersion => 2,
                BaseFunction::ProbeExtension => 3,
                BaseFunction::GetMvendorid => 4,
                BaseFunction::GetMarchid => 5,
                BaseFunction::GetMimpid => 6,
            },
    {
        match self {
            BaseFunction::GetSbiVersion => 0,
            BaseFunction::GetSbiImplId => 1,
            BaseFunction::GetSbiImplVersion => 2,
            BaseFunction::ProbeExtension => 3,
            BaseFunction::GetMvendorid => 4,
            BaseFunction::GetMarchid => 5,
            BaseFunction::GetMimpid => 6,
        }
    }
}

/// The function of the timer extension.
#[derive(Copy, Clone, Debug, PartialEq, Eq, Structural)]
pub enum TimerFunction {
    SetTimer,
}

/// The functions of the console extension.
#[derive(Copy, Clone, Debug, PartialEq, Eq, Structural)]
pub enum ConsoleFunction {
    PutChar,
    GetChar,
}

impl ConsoleFunction {
    /// The number of the function.
    pub fn id(self) -> (r: u64)
        ensures
            r == match self {
                ConsoleFunction::PutChar => 0u64,
                ConsoleFunction::GetChar => 1,
            },
    {
        match self {
            ConsoleFunction::PutChar => 0,
            ConsoleFunction::GetChar => 1,
        }
    }
}

/// The function of the system reset extension.
#[derive(Copy, Clone, Debug, PartialEq, Eq, Structural)]
pub enum SystemResetFunction {
    SystemReset,
}

/// How the system is reset.
#[derive(Copy, Clone, Debug, PartialEq, Eq, Structural)]
pub enum ResetType {
    Shutdown,
    ColdReboot,
    WarmReboot,
}

impl ResetType {
    /// The number of the kind of reset.
    pub fn id(self) -> (r: u64)
        ensures
            r == match self {
                ResetType::Shutdown => 0u64,
                ResetType::ColdReboot => 1,
                ResetType::WarmReboot => 2,
            },
    {
        match self {
            ResetType::Shutdown => 0,
            ResetType::ColdReboot => 1,
            ResetType::WarmReboot => 2,
        }
    }
}

/// Why the system is reset.
#[derive(Copy, Clone, Debug, PartialEq, Eq, Structural)]
pub enum ResetReason {
    NoReason,
    SystemFailure,
}

impl ResetReason {
    /// The number of the reason.
    pub fn id(self) -> (r: u64)
        ensures
            r == match self {
                ResetReason::NoReason => 0u64,
                ResetReason::SystemFailure => 1,
            },
    {
        match self {
            ResetReason::NoReason => 0,
            ResetReason::SystemFailure => 1,
        }
    }
}

/// The error codes of the firmware.
#[derive(Copy, Clone, Debug, PartialEq, Eq, Structural)]
pub enum SbiError {
    Success,
    Failed,
    NotSupported,
    InvalidParam,
    Denied,
    InvalidAddress,
    AlreadyAvailable,
}

impl SbiError {
    /// The code of the error.
    pub open spec fn spec_code(self) -> i64 {
        match self {
            SbiError::Success => 0i64,
            SbiError::Failed => -1i64,
            SbiError::NotSupported => -2i64,
            SbiError::InvalidParam => -3i64,
            SbiError::Denied => -4i64,
            SbiError::InvalidAddress => -5i64,
            SbiError::AlreadyAvailable => -6i64,
        }
    }

    /// The code of the error.
    pub fn code(self) -> (r: i64)
        ensures
            r == self.spec_code(),
    {
        match self {
            SbiError::Success => 0,
            SbiError::Failed => -1,
            SbiError::NotSupported => -2,
            SbiError::InvalidParam => -3,
            SbiError::Denied => -4,
            SbiError::InvalidAddress => -5,
            SbiError::AlreadyAvailable => -6,
        }
    }

    /// The error with the code `code`, if there is one.
    pub fn from_code(code: i64) -> (r: Option<Self>)
        ensures
            match r {
                Some(e) => e.spec_code() == code,
                None => code > 0 || code < -6,
            },
    {
        if code == 0 {
            Some(SbiError::Success)
        } else if code == -1 {
            Some(SbiError::Failed)
        } else if code == -2 {
            Some(SbiError::NotSupported)
        } else if code == -3 {
            Some(SbiError::InvalidParam)
        } else if code == -4 {
            Some(SbiError::Denied)
        } else if code == -5 {
            Some(SbiError::InvalidAddress)
        } else if code == -6 {
            Some(SbiError::AlreadyAvailable)
        } else {
            None
        }
    }
}

/// A call to the firmware: the extension in `a7`, the function in `a6`
/// and the arguments in `a0` to `a5`.
#[derive(Copy, Clone, Debug, PartialEq, Eq)]
pub struct SbiCall {
    pub extension: u64,
    pub function: u64,
    pub args: [u64; 6],
}

/// The call with the given extension, function and arguments.
pub fn sbi_call(
    extension: u64,
    function: u64,
    arg0: u64,
    arg1: u64,
    arg2: u64,
    arg3: u64,
    arg4: u64,
    arg5: u64,
) -> (r: SbiCall)
    ensures
        r.extension == extension,
        r.function == function,
        r.args@ == seq![arg0, arg1, arg2, arg3, arg4, arg5],
{
    let r = SbiCall { extension, function, args: [arg0, arg1, arg2, arg3, arg4, arg5] };
    proof {
        assert(r.args@ =~= seq![arg0, arg1, arg2, arg3, arg4, arg5]);
    }
    r
}

/// The call that asks for the version of the firmware.
pub fn get_sbi_version() -> (r: SbiCall)
    ensures
        r.extension == 0x10,
        r.function == 0,
        r.args@ == seq![0u64, 0, 0, 0, 0, 0],
{
    sbi_call(ExtensionId::Base.id(), BaseFunction::GetSbiVersion.id(), 0, 0, 0, 0, 0, 0)
}

/// The version in the answer to `get_sbi_version`: the value, or zero
/// after an error.
pub fn version_of(error: i64, value: u64) -> (r: u64)
    ensures
        r == (if error == 0 {
            value
        } else {
            0
        }),
{
    if error == 0 {
        value
    } else {
        0
    }
}

/// The call that asks whether the firmware has the extension `extension_id`.
pub fn probe_extension(extension_id: u64) -> (r: SbiCall)
    ensures
        r.extension == 0x10,
        r.function == 3,
        r.args@ == seq![extension_id, 0, 0, 0, 0, 0],
{
    sbi_call(ExtensionId::Base.id(), BaseFunction::ProbeExtension.id(), extension_id, 0, 0, 0, 0, 0)
}

/// Whether the answer to `probe_extension` says that the extension is there.
pub fn probed(error: i64, value: u64) -> (r: bool)
    ensures
        r == (error == 0 && value != 0),
{
    error == 0 && value != 0
}

/// The call that writes the character `ch` to the console.
pub fn console_putchar(ch: u8) -> (r: SbiCall)
    ensures
        r.extension == 0x434F_4E53,
        r.function == 0,
        r.args@ == seq![ch as u64, 0, 0, 0, 0, 0],
{
    sbi_call(ExtensionId::Console.id(), ConsoleFunction::PutChar.id(), ch as u64, 0, 0, 0, 0, 0)
}

/// The call that reads a character from the console.
pub fn console_getchar() -> (r: SbiCall)
    ensures
        r.extension == 0x434F_4E53,
        r.function == 1,
        r.args@ == seq![0u64, 0, 0, 0, 0, 0],
{
    sbi_call(ExtensionId::Console.id(), ConsoleFunction::GetChar.id(), 0, 0, 0, 0, 0, 0)
}

/// The character in the answer to `console_getchar`, if one was there:
/// the lowest byte of the value, unless the call failed or the value is
/// the largest there is.
pub fn character_of(error: i64, value: u64) -> (r: Option<u8>)
    ensures
        r == (if error == 0 && value != u64::MAX {
            Some((value % 256) as u8)
        } else {
            None
        }),
{
    if error == 0 && value != u64::MAX {
        Some((value % 256) as u8)
    } else {
        None
    }
}

/// The call that sets the timer to `stime_value`: the value in the first
/// argument, its upper half in the second.
pub fn set_timer(stime_value: u64) -> (r: SbiCall)
    ensures
        r.extension == 0x5449_4D45,
        r.function == 0,
        r.args@ == seq![stime_value, stime_value / 0x1_0000_0000, 0, 0, 0, 0],
{
    sbi_call(ExtensionId::Timer.id(), 0, stime_value, stime_value / 0x1_0000_0000, 0, 0, 0, 0)
}

/// The call that resets the system.
pub fn system_reset(reset_type: ResetType, reset_reason: ResetReason) -> (r: SbiCall)
    ensures
        r.extension == 0x5352_5354,
        r.function == 0,
        r.args@.len() == 6,
        r.args@[0] == match reset_type {
            ResetType::Shutdown => 0u64,
            ResetType::ColdReboot => 1,
            ResetType::WarmReboot => 2,
        },
        r.args@[1] == match reset_reason {
            ResetReason::NoReason => 0u64,
            ResetReason::SystemFailure => 1,
        },
        forall|i: int| 2 <= i < 6 ==> r.args@[i] == 0,
{
    sbi_call(ExtensionId::Srst.id(), 0, reset_type.id(), reset_reason.id(), 0, 0, 0, 0)
}

/// The call that shuts the system down for no special reason.
pub fn shutdown() -> (r: SbiCall)
    ensures
        r.extension == 0x5352_5354,
        r.function == 0,
        forall|i: int| 0 <= i < 6 ==> r.args@[i] == 0,
{
    system_reset(ResetType::Shutdown, ResetReason::NoReason)
}

/// The major number of a firmware version.
pub open spec fn major_of(version: u64) -> u64 {
    (version / 0x100_0000) % 0x80
}

/// The minor number of a firmware version.
pub open spec fn minor_of(version: u64) -> u64 {
    (version / 0x1_0000) % 0x100
}

/// Writes the greeting of the firmware interface: its version, and a line
/// for each of the console, timer and reset extensions that is there.
pub fn init(
    console: &mut Console,
    version: u64,
    has_console: bool,
    has_timer: bool,
    has_reset: bool,
)
    ensures
        final(console).out@ == old(console).out@ + banner(
            version,
            has_console,
            has_timer,
            has_reset,
        ),
{
    let major = (version / 0x100_0000) % 0x80;
    let minor = (version / 0x1_0000) % 0x100;
    console_putstr(console, "SBI Version: ");
    print_usize(console, major);
    console_putstr(console, ".");
    print_usize(console, minor);
    console_putstr(console, "\n");
    if has_console {
        console_putstr(console, "Console extension: available\n");
    }
    if has_timer {
        console_putstr(console, "Timer extension: available\n");
    }
    if has_reset {
        console_putstr(console, "System Reset extension: available\n");
    }
    proof {
        assert(console.out@ =~= old(console).out@ + banner(
            version,
            has_console,
            has_timer,
            has_reset,
        ));
    }
}

/// The greeting that `init` writes.
pub open spec fn banner(version: u64, has_console: bool, has_timer: bool, has_reset: bool) -> Seq<
    u8,
> {
    "SBI Version: ".spec_bytes() + crate::console::decimal_digits(major_of(version) as nat)
        + ".".spec_bytes() + crate::console::decimal_digits(minor_of(version) as nat)
        + "\n".spec_bytes() + (if has_console {
        "Console extension: available\n".spec_bytes()
    } else {
        Seq::empty()
    }) + (if has_timer {
        "Timer extension: available\n".spec_bytes()
    } else {
        Seq::empty()
    }) + (if has_reset {
        "System Reset extension: available\n".spec_bytes()
    } else {
        Seq::empty()
    })
}

} // verus!
