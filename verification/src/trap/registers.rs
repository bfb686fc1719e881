//! The registers that decide how the processor traps and returns, shown
//! on the console.

use vstd::prelude::*;
use vstd::string::StringSliceAdditionalSpecFns;
use crate::console::{console_putstr, hex_after, hex_digits, put_after, Console};
use crate::trap::cause::interrupts_enabled;

verus! {

/// The values of the registers that are shown.
#[derive(Copy, Clone, Debug, PartialEq, Eq, Structural)]
pub struct Registers {
    /// The stack pointer.
    pub sp: u64,
    /// The address space in use.
    pub satp: u64,
    /// The status of the supervisor.
    pub sstatus: u64,
    /// The scratch register.
    pub sscratch: u64,
    /// The address of the trap vector.
    pub stvec: u64,
}

/// What is said of `satp`: whether its mode is that of three-level
/// paging.
pub open spec fn paging_note(satp: u64) -> Seq<u8> {
    if satp >> 60 == 8 {
        " (SV39 enabled)".spec_bytes()
    } else {
        " (paging disabled)".spec_bytes()
    }
}

/// What is said of `sstatus`: whether interrupts are let through.
pub open spec fn interrupt_note(sstatus: u64) -> Seq<u8> {
    if (sstatus / 2) % 2 == 1 {
        " (SIE enabled)".spec_bytes()
    } else {
        " (SIE disabled)".spec_bytes()
    }
}

/// The text that shows the registers `r` under the heading `label`: a
/// line for the heading and a line for each register in hexadecimal
/// digits.
pub open spec fn registers_text(label: Seq<u8>, r: Registers) -> Seq<u8> {
    label + " Critical Registers:\n".spec_bytes() + "  sp=0x".spec_bytes() + hex_digits(
        r.sp as nat,
    ) + "\n".spec_bytes() + "  satp=0x".spec_bytes() + hex_digits(r.satp as nat) + paging_note(
        r.satp,
    ) + "\n".spec_bytes() + "  sstatus=0x".spec_bytes() + hex_digits(r.sstatus as nat)
        + interrupt_note(r.sstatus) + "\n".spec_bytes() + "  sscratch=0x".spec_bytes()
        + hex_digits(r.sscratch as nat) + "\n".spec_bytes() + "  stvec=0x".spec_bytes()
        + hex_digits(r.stvec as nat) + "\n".spec_bytes()
}

/// Writes the registers `regs` to the console under the heading `label`.
pub fn print_critical_registers(console: &mut Console, label: &str, regs: &Registers)
    ensures
        final(console).out@ == old(console).out@ + registers_text(label.spec_bytes(), *regs),
{
    let ghost base = console.out@;
    console_putstr(console, label);
    let ghost mut acc = label.spec_bytes();
    put_after(console, " Critical Registers:\n", Ghost(base), Ghost(acc));
    proof { acc = acc + " Critical Registers:\n".spec_bytes(); }
    put_after(console, "  sp=0x", Ghost(base), Ghost(acc));
    proof { acc = acc + "  sp=0x".spec_bytes(); }
    hex_after(console, regs.sp, Ghost(base), Ghost(acc));
    proof { acc = acc + hex_digits(regs.sp as nat); }
    put_after(console, "\n", Ghost(base), Ghost(acc));
    proof { acc = acc + "\n".spec_bytes(); }
    put_after(console, "  satp=0x", Ghost(base), Ghost(acc));
    proof { acc = acc + "  satp=0x".spec_bytes(); }
    hex_after(console, regs.satp, Ghost(base), Ghost(acc));
    proof { acc = acc + hex_digits(regs.satp as nat); }
    if regs.satp >> 60 == 8 {
        put_after(console, " (SV39 enabled)", Ghost(base), Ghost(acc));
    } else {
        put_after(console, " (paging disabled)", Ghost(base), Ghost(acc));
    }
    proof { acc = acc + paging_note(regs.satp); }
    put_after(console, "\n", Ghost(base), Ghost(acc));
    proof { acc = acc + "\n".spec_bytes(); }
    put_after(console, "  sstatus=0x", Ghost(base), Ghost(acc));
    proof { acc = acc + "  sstatus=0x".spec_bytes(); }
    hex_after(console, regs.sstatus, Ghost(base), Ghost(acc));
    proof { acc = acc + hex_digits(regs.sstatus as nat); }
    if interrupts_enabled(regs.sstatus) {
        put_after(console, " (SIE enabled)", Ghost(base), Ghost(acc));
    } else {
        put_after(console, " (SIE disabled)", Ghost(base), Ghost(acc));
    }
    proof { acc = acc + interrupt_note(regs.sstatus); }
    put_after(console, "\n", Ghost(base), Ghost(acc));
    proof { acc = acc + "\n".spec_bytes(); }
    put_after(console, "  sscratch=0x", Ghost(base), Ghost(acc));
    proof { acc = acc + "  sscratch=0x".spec_bytes(); }
    hex_after(console, regs.sscratch, Ghost(base), Ghost(acc));
    proof { acc = acc + hex_digits(regs.sscratch as nat); }
    put_after(console, "\n", Ghost(base), Ghost(acc));
    proof { acc = acc + "\n".spec_bytes(); }
    put_after(console, "  stvec=0x", Ghost(base), Ghost(acc));
    proof { acc = acc + "  stvec=0x".spec_bytes(); }
    hex_after(console, regs.stvec, Ghost(base), Ghost(acc));
    proof { acc = acc + hex_digits(regs.stvec as nat); }
    put_after(console, "\n", Ghost(base), Ghost(acc));
    proof { acc = acc + "\n".spec_bytes(); }
}

} // verus!
