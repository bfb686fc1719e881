//! The library of user programs: the system calls as a program makes
//! them, and what a program prints.

use vstd::prelude::*;
use vstd::string::StringSliceAdditionalSpecFns;
use crate::console::decimal_digits;

verus! {

/// Writes to a file.
pub const SYS_WRITE: u64 = 64;

/// Ends the program.
pub const SYS_EXIT: u64 = 93;

/// Gives the processor up.
pub const SYS_YIELD: u64 = 124;

/// Reads the time.
pub const SYS_GET_TIME: u64 = 169;

/// A system call as a program makes it: the number in `a7`, the
/// arguments in `a0` to `a2`.
#[derive(Copy, Clone, Debug, PartialEq, Eq)]
pub struct UserCall {
    pub id: u64,
    pub args: [u64; 3],
}

/// The call that writes the `len` bytes at address `buf` to file `fd`.
pub fn sys_write(fd: u64, buf: u64, len: u64) -> (r: UserCall)
    ensures
        r.id == SYS_WRITE,
        r.args@ == seq![fd, buf, len],
{
    let r = UserCall { id: SYS_WRITE, args: [fd, buf, len] };
    proof {
        assert(r.args@ =~= seq![fd, buf, len]);
    }
    r
}

/// The call that ends the program with the code `exit_code`.
pub fn sys_exit(exit_code: i32) -> (r: UserCall)
    ensures
        r.id == SYS_EXIT,
        r.args@ == seq![
            (if exit_code >= 0 {
                exit_code as u64
            } else {
                (exit_code + 0x1_0000_0000_0000_0000) as u64
            }),
            0,
            0,
        ],
{
    let code: u64 = if exit_code >= 0 {
        exit_code as u64
    } else {
        u64::MAX - ((-(exit_code + 1)) as u64)
    };
    let r = UserCall { id: SYS_EXIT, args: [code, 0, 0] };
    proof {
        assert(r.args@ =~= seq![code, 0, 0]);
    }
    r
}

/// The call that gives the processor up.
pub fn sys_yield() -> (r: UserCall)
    ensures
        r.id == SYS_YIELD,
        r.args@ == seq![0u64, 0, 0],
{
    let r = UserCall { id: SYS_YIELD, args: [0, 0, 0] };
    proof {
        assert(r.args@ =~= seq![0u64, 0, 0]);
    }
    r
}

/// The call that reads the time.
pub fn sys_get_time() -> (r: UserCall)
    ensures
        r.id == SYS_GET_TIME,
        r.args@ == seq![0u64, 0, 0],
{
    let r = UserCall { id: SYS_GET_TIME, args: [0, 0, 0] };
    proof {
        assert(r.args@ =~= seq![0u64, 0, 0]);
    }
    r
}

/// What `print` hands to the console: the bytes of `s`.
pub fn print(s: &str) -> (r: Vec<u8>)
    ensures
        r@ == s.spec_bytes(),
{
    let bytes = s.as_bytes();
    let mut out: Vec<u8> = Vec::new();
    let mut i: usize = 0;
    while i < bytes.len()
        invariant
            i <= bytes@.len(),
            bytes@ == s.spec_bytes(),
            out@ == bytes@.subrange(0, i as int),
        decreases bytes@.len() - i,
    {
        out.push(bytes[i]);
        proof {
            assert(out@ =~= bytes@.subrange(0, i + 1));
        }
        i += 1;
    }
    proof {
        assert(bytes@.subrange(0, bytes@.len() as int) =~= bytes@);
    }
    out
}

/// What `println` hands to the console: the bytes of `s` and a line feed.
pub fn println(s: &str) -> (r: Vec<u8>)
    ensures
        r@ == s.spec_bytes().push(0x0a),
{
    let mut out = print(s);
    out.push(0x0a);
    out
}

/// What `print_num` hands to the console: the decimal digits of `n`.
pub fn print_num(n: u64) -> (r: Vec<u8>)
    ensures
        r@ == decimal_digits(n as nat),
    decreases n,
{
    let mut out: Vec<u8> = if n >= 10 {
        print_num(n / 10)
    } else {
        Vec::new()
    };
    out.push(0x30 + (n % 10) as u8);
    proof {
        if n < 10 {
            assert(out@ =~= decimal_digits(n as nat));
        }
    }
    out
}

} // verus!
