//! Console output.
//!
//! The kernel writes to a buffer; whoever drives the machine hands the
//! buffer to the firmware console, byte by byte.

use vstd::prelude::*;
use vstd::string::StringSliceAdditionalSpecFns;

verus! {

/// The bytes written to the console that were not taken yet.
pub struct Console {
    pub out: Vec<u8>,
}

/// The character of a hexadecimal digit.
pub open spec fn hex_digit(d: int) -> u8 {
    if d < 10 {
        (0x30 + d) as u8
    } else {
        (0x61 + d - 10) as u8
    }
}

/// The hexadecimal digits of `n`, without leading zeroes; `0` for zero.
pub open spec fn hex_digits(n: nat) -> Seq<u8>
    decreases n,
{
    if n < 16 {
        seq![hex_digit(n as int)]
    } else {
        hex_digits(n / 16).push(hex_digit((n % 16) as int))
    }
}

/// The decimal digits of `n`, without leading zeroes; `0` for zero.
pub open spec fn decimal_digits(n: nat) -> Seq<u8>
    decreases n,
{
    if n < 10 {
        seq![(0x30 + n) as u8]
    } else {
        decimal_digits(n / 10).push((0x30 + n % 10) as u8)
    }
}

impl Console {
    /// A console to which nothing was written.
    pub fn new() -> (r: Self)
        ensures
            r.out@.len() == 0,
    {
        Console { out: Vec::new() }
    }

    /// Writes one byte.
    pub fn console_putchar(&mut self, ch: u8)
        ensures
            final(self).out@ == old(self).out@.push(ch),
    {
        self.out.push(ch);
    }

    /// Hands out what was written and empties the buffer.
    pub fn take(&mut self) -> (r: Vec<u8>)
        ensures
            r@ == old(self).out@,
            final(self).out@.len() == 0,
    {
        let mut taken: Vec<u8> = Vec::new();
        core::mem::swap(&mut self.out, &mut taken);
        taken
    }
}

/// Prepares the console. Nothing is to be done: the firmware has set it up.
pub fn init(console: &mut Console)
    ensures
        final(console).out@ == old(console).out@,
{
}

/// Writes the bytes of `s`.
pub fn console_putstr(console: &mut Console, s: &str)
    ensures
        final(console).out@ == old(console).out@ + s.spec_bytes(),
{
    put_bytes(console, s.as_bytes());
}

/// Writes `bytes`.
pub fn put_bytes(console: &mut Console, bytes: &[u8])
    ensures
        final(console).out@ == old(console).out@ + bytes@,
{
    let mut i: usize = 0;
    while i < bytes.len()
        invariant
            i <= bytes@.len(),
            console.out@ == old(console).out@ + bytes@.subrange(0, i as int),
        decreases bytes@.len() - i,
    {
        console.console_putchar(bytes[i]);
        proof {
            assert(bytes@.subrange(0, i + 1) =~= bytes@.subrange(0, i as int).push(bytes@[i as int]));
        }
        i += 1;
    }
    proof {
        assert(bytes@.subrange(0, bytes@.len() as int) =~= bytes@);
    }
}

/// Writes the text that formatting produced.
pub fn print(console: &mut Console, text: &str)
    ensures
        final(console).out@ == old(console).out@ + text.spec_bytes(),
{
    console_putstr(console, text);
}

/// Writes `n` in hexadecimal digits, without leading zeroes.
pub fn print_hex_usize(console: &mut Console, n: u64)
    ensures
        final(console).out@ == old(console).out@ + hex_digits(n as nat),
    decreases n,
{
    if n >= 16 {
        print_hex_usize(console, n / 16);
    }
    let d = (n % 16) as u8;
    let ch = if d < 10 {
        0x30 + d
    } else {
        0x61 + d - 10
    };
    console.console_putchar(ch);
    proof {
        if n >= 16 {
            assert(old(console).out@ + hex_digits(n as nat) =~= (old(console).out@ + hex_digits(
                (n / 16) as nat,
            )).push(ch));
        } else {
            assert(old(console).out@ + hex_digits(n as nat) =~= old(console).out@.push(ch));
        }
    }
}

/// Writes the bytes of `s` behind `acc`, which was written since the
/// console held `base`.
pub(crate) fn put_after(
    console: &mut Console,
    s: &str,
    Ghost(base): Ghost<Seq<u8>>,
    Ghost(acc): Ghost<Seq<u8>>,
)
    requires
        old(console).out@ == base + acc,
    ensures
        final(console).out@ == base + (acc + s.spec_bytes()),
{
    console_putstr(console, s);
    proof {
        assert((base + acc) + s.spec_bytes() =~= base + (acc + s.spec_bytes()));
    }
}

/// Writes `n` in hexadecimal digits behind `acc`, which was written
/// since the console held `base`.
pub(crate) fn hex_after(
    console: &mut Console,
    n: u64,
    Ghost(base): Ghost<Seq<u8>>,
    Ghost(acc): Ghost<Seq<u8>>,
)
    requires
        old(console).out@ == base + acc,
    ensures
        final(console).out@ == base + (acc + hex_digits(n as nat)),
{
    print_hex_usize(console, n);
    proof {
        assert((base + acc) + hex_digits(n as nat) =~= base + (acc + hex_digits(n as nat)));
    }
}

/// Writes `n` in decimal digits, without leading zeroes.
pub fn print_usize(console: &mut Console, n: u64)
    ensures
        final(console).out@ == old(console).out@ + decimal_digits(n as nat),
    decreases n,
{
    if n >= 10 {
        print_usize(console, n / 10);
    }
    let ch = 0x30 + (n % 10) as u8;
    console.console_putchar(ch);
    proof {
        if n >= 10 {
            assert(old(console).out@ + decimal_digits(n as nat) =~= (old(console).out@
                + decimal_digits((n / 10) as nat)).push(ch));
        } else {
            assert(old(console).out@ + decimal_digits(n as nat) =~= old(console).out@.push(ch));
        }
    }
}

} // verus!
