//! What caused a trap, read from the bits of the `scause` and `sstatus`
//! registers. The registers are those of a 64-bit machine: the bit
//! positions stated here hold where `usize` has 64 bits, and the library
//! is meant for no other target.

use vstd::prelude::*;
use riscv::interrupt::supervisor::{Exception as RawException, Interrupt as RawInterrupt};
use riscv::register::scause::Scause;
use riscv::register::sstatus::{Sstatus, SPP};
use riscv::{ExceptionNumber, InterruptNumber};

verus! {

/// The bits of `sstatus` that are kept.
pub const SSTATUS_MASK: u64 = 0x8000_0003_000d_e762;

/// The bit of `sstatus` that holds the previous privilege mode.
pub const SSTATUS_SPP: u64 = 0x100;

/// The bit of `sstatus` that holds the previous interrupt enable.
pub const SSTATUS_SPIE: u64 = 0x20;

/// An interrupt of supervisor mode.
#[derive(Copy, Clone, Debug, PartialEq, Eq, Structural)]
pub enum Interrupt {
    SupervisorSoft,
    SupervisorTimer,
    SupervisorExternal,
}

/// An exception.
#[derive(Copy, Clone, Debug, PartialEq, Eq, Structural)]
pub enum Exception {
    InstructionMisaligned,
    InstructionFault,
    IllegalInstruction,
    Breakpoint,
    LoadMisaligned,
    LoadFault,
    StoreMisaligned,
    StoreFault,
    UserEnvCall,
    SupervisorEnvCall,
    InstructionPageFault,
    LoadPageFault,
    StorePageFault,
}

/// The cause of a trap.
#[derive(Copy, Clone, Debug, PartialEq, Eq, Structural)]
pub enum Trap {
    Interrupt(Interrupt),
    Exception(Exception),
    /// A cause that this kernel does not know.
    Unknown,
}

/// Whether the cause in `bits` is an interrupt: `Scause::is_interrupt` of
/// the riscv crate, which tests the top bit of the register.
#[verifier::external_body]
fn scause_is_interrupt(bits: u64) -> (r: bool)
    ensures
        r == (bits >= 0x8000_0000_0000_0000),
{
    Scause::from_bits(bits as usize).is_interrupt()
}

/// The code of the cause in `bits`: `Scause::code` of the riscv crate,
/// which gives the register without its top bit.
#[verifier::external_body]
fn scause_code(bits: u64) -> (r: u64)
    ensures
        r == bits % 0x8000_0000_0000_0000,
{
    Scause::from_bits(bits as usize).code() as u64
}

/// The number of the supervisor interrupt with code `code`, if there is
/// one: `Interrupt::from_number` of the riscv crate, which knows the
/// codes 1, 5 and 9, and `number`, which gives the code back.
#[verifier::external_body]
fn interrupt_number(code: u64) -> (r: Option<u64>)
    ensures
        r == (if code == 1 || code == 5 || code == 9 {
            Some(code)
        } else {
            None
        }),
{
    RawInterrupt::from_number(code as usize).ok().map(|i| i.number() as u64)
}

/// The number of the exception with code `code`, if there is one:
/// `Exception::from_number` of the riscv crate, which knows the codes 0 to
/// 9, 12, 13 and 15, and `number`, which gives the code back.
#[verifier::external_body]
fn exception_number(code: u64) -> (r: Option<u64>)
    ensures
        r == (if code <= 9 || code == 12 || code == 13 || code == 15 {
            Some(code)
        } else {
            None
        }),
{
    RawException::from_number(code as usize).ok().map(|e| e.number() as u64)
}

/// Whether the previous privilege mode in `bits` is user mode:
/// `Sstatus::spp` of the riscv crate, which reads bit 8.
#[verifier::external_body]
fn sstatus_spp_is_user(bits: u64) -> (r: bool)
    ensures
        r == ((bits / 0x100) % 2 == 0),
{
    Sstatus::from_bits(bits as usize).spp() == SPP::User
}

/// A privilege mode that a trap can come from.
#[derive(Copy, Clone, Debug, PartialEq, Eq, Structural)]
pub enum Mode {
    User,
    Supervisor,
}

/// The status `bits` with the previous privilege mode and the previous
/// interrupt enable set as asked: `Sstatus::from_bits`, `set_spp`,
/// `set_spie` and `bits` of the riscv crate, which keep the bits of the
/// mask, write bit 8 (clear for user mode) and write bit 5.
#[verifier::external_body]
fn sstatus_with(bits: u64, mode: Mode, spie: bool) -> (r: u64)
    ensures
        r == status_with(bits, mode, spie),
{
    let mut status = Sstatus::from_bits(bits as usize);
    status.set_spp(
        match mode {
            Mode::User => SPP::User,
            Mode::Supervisor => SPP::Supervisor,
        },
    );
    status.set_spie(spie);
    status.bits() as u64
}

/// The kept bits of `bits` with bit 8 clear for user mode and set for
/// supervisor mode, and bit 5 as `spie` says.
pub open spec fn status_with(bits: u64, mode: Mode, spie: bool) -> u64 {
    ((((bits & SSTATUS_MASK) & !SSTATUS_SPP) | (if mode == Mode::User {
        0
    } else {
        SSTATUS_SPP
    })) & !SSTATUS_SPIE) | (if spie {
        SSTATUS_SPIE
    } else {
        0
    })
}

/// Whether interrupts are enabled in supervisor mode in `bits`:
/// `Sstatus::sie` of the riscv crate, which reads bit 1.
#[verifier::external_body]
fn sstatus_sie(bits: u64) -> (r: bool)
    ensures
        r == ((bits / 2) % 2 == 1),
{
    Sstatus::from_bits(bits as usize).sie()
}

/// The kept bits of `bits` with the previous privilege mode set to user
/// and the previous interrupt enable set.
pub open spec fn user_status(bits: u64) -> u64 {
    ((bits & SSTATUS_MASK) & !SSTATUS_SPP) | SSTATUS_SPIE
}

/// The interrupt with code `code`.
pub open spec fn interrupt_of(code: u64) -> Option<Interrupt> {
    if code == 1 {
        Some(Interrupt::SupervisorSoft)
    } else if code == 5 {
        Some(Interrupt::SupervisorTimer)
    } else if code == 9 {
        Some(Interrupt::SupervisorExternal)
    } else {
        None
    }
}

/// The exception with code `code`.
pub open spec fn exception_of(code: u64) -> Option<Exception> {
    if code == 0 {
        Some(Exception::InstructionMisaligned)
    } else if code == 1 {
        Some(Exception::InstructionFault)
    } else if code == 2 {
        Some(Exception::IllegalInstruction)
    } else if code == 3 {
        Some(Exception::Breakpoint)
    } else if code == 4 {
        Some(Exception::LoadMisaligned)
    } else if code == 5 {
        Some(Exception::LoadFault)
    } else if code == 6 {
        Some(Exception::StoreMisaligned)
    } else if code == 7 {
        Some(Exception::StoreFault)
    } else if code == 8 {
        Some(Exception::UserEnvCall)
    } else if code == 9 {
        Some(Exception::SupervisorEnvCall)
    } else if code == 12 {
        Some(Exception::InstructionPageFault)
    } else if code == 13 {
        Some(Exception::LoadPageFault)
    } else if code == 15 {
        Some(Exception::StorePageFault)
    } else {
        None
    }
}

/// The cause that the bits of `scause` stand for: an interrupt if the top
/// bit is set, an exception otherwise, by the code in the other bits.
pub open spec fn trap_of(bits: u64) -> Trap {
    if bits >= 0x8000_0000_0000_0000 {
        match interrupt_of((bits % 0x8000_0000_0000_0000) as u64) {
            Some(i) => Trap::Interrupt(i),
            None => Trap::Unknown,
        }
    } else {
        match exception_of(bits) {
            Some(e) => Trap::Exception(e),
            None => Trap::Unknown,
        }
    }
}

/// The cause that the bits of `scause` stand for.
pub fn decode_cause(bits: u64) -> (r: Trap)
    ensures
        r == trap_of(bits),
{
    let code = scause_code(bits);
    if scause_is_interrupt(bits) {
        match interrupt_number(code) {
            Some(1) => Trap::Interrupt(Interrupt::SupervisorSoft),
            Some(5) => Trap::Interrupt(Interrupt::SupervisorTimer),
            Some(9) => Trap::Interrupt(Interrupt::SupervisorExternal),
            _ => Trap::Unknown,
        }
    } else {
        match exception_number(code) {
            Some(0) => Trap::Exception(Exception::InstructionMisaligned),
            Some(1) => Trap::Exception(Exception::InstructionFault),
            Some(2) => Trap::Exception(Exception::IllegalInstruction),
            Some(3) => Trap::Exception(Exception::Breakpoint),
            Some(4) => Trap::Exception(Exception::LoadMisaligned),
            Some(5) => Trap::Exception(Exception::LoadFault),
            Some(6) => Trap::Exception(Exception::StoreMisaligned),
            Some(7) => Trap::Exception(Exception::StoreFault),
            Some(8) => Trap::Exception(Exception::UserEnvCall),
            Some(9) => Trap::Exception(Exception::SupervisorEnvCall),
            Some(12) => Trap::Exception(Exception::InstructionPageFault),
            Some(13) => Trap::Exception(Exception::LoadPageFault),
            Some(15) => Trap::Exception(Exception::StorePageFault),
            _ => Trap::Unknown,
        }
    }
}

/// Whether a trap with the saved status `sstatus` came from user mode.
pub fn from_user_mode(sstatus: u64) -> (r: bool)
    ensures
        r == ((sstatus / 0x100) % 2 == 0),
{
    sstatus_spp_is_user(sstatus)
}

/// Whether the status `sstatus` lets interrupts through in supervisor
/// mode.
pub fn interrupts_enabled(sstatus: u64) -> (r: bool)
    ensures
        r == ((sstatus / 2) % 2 == 1),
{
    sstatus_sie(sstatus)
}

/// The status with which a task enters user mode for the first time:
/// previous privilege mode user, interrupts enabled on return.
pub fn user_entry_status(sstatus: u64) -> (r: u64)
    ensures
        r == user_status(sstatus),
        (r / 0x100) % 2 == 0,
        (r / 0x20) % 2 == 1,
{
    let r = sstatus_with(sstatus, Mode::User, true);
    proof {
        lemma_user_status(sstatus);
    }
    r
}

/// The previous privilege mode of the user status is user, and its
/// previous interrupt enable is set.
pub proof fn lemma_user_status(bits: u64)
    by (bit_vector)
    ensures
        ((((bits & 0x8000_0003_000d_e762) & !0x100u64) | 0x20) / 0x100) % 2 == 0,
        ((((bits & 0x8000_0003_000d_e762) & !0x100u64) | 0x20) / 0x20) % 2 == 1,
        (((((bits & 0x8000_0003_000d_e762) & !0x100u64) | 0) & !0x20u64) | 0x20) == (((bits
            & 0x8000_0003_000d_e762) & !0x100u64) | 0x20),
{
}

} // verus!
