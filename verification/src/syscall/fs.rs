//! The system call that writes to the console.

use vstd::prelude::*;
use crate::console::put_bytes;
use crate::kernel::Kernel;

verus! {

/// The file descriptor of the console.
pub const FD_STDOUT: u64 = 1;

/// Whether the task that runs can hand over the `len` bytes from `buf`
/// on: a task runs, and all of the bytes lie in framed regions of its
/// address space.
pub open spec fn readable(k: Kernel, buf: u64, len: u64) -> bool {
    &&& k.task_manager.current() is Some
    &&& k.task_manager.has(k.task_manager.current().unwrap() as int)
    &&& len <= 0x7fff_ffff_ffff_ffff
    &&& len <= usize::MAX
    &&& buf + len <= 0x1_0000_0000_0000_0000
    &&& forall|a: u64|
        buf <= a < buf + len ==> k.task_manager.task(
            k.task_manager.current().unwrap() as int,
        ).memory_set.byte_at(a) is Some
}

/// The `len` bytes from `buf` on in the address space of the task that runs.
pub open spec fn user_bytes(k: Kernel, buf: u64, len: u64) -> Seq<u8> {
    Seq::new(
        len as nat,
        |j: int|
            k.task_manager.task(k.task_manager.current().unwrap() as int).memory_set.byte_at(
                (buf + j) as u64,
            ).unwrap(),
    )
}

/// What `sys_write` leaves: the bytes are written to the console and their
/// number is returned, if the file descriptor is that of the console and
/// the bytes can be read; `-1` is returned and nothing is written
/// otherwise. Nothing else changes.
pub open spec fn write_post(k0: Kernel, k1: Kernel, fd: u64, buf: u64, len: u64, r: i64) -> bool {
    &&& k1.wf()
    &&& k1.allocator == k0.allocator
    &&& k1.kernel_space == k0.kernel_space
    &&& k1.task_manager == k0.task_manager
    &&& k1.scheduler == k0.scheduler
    &&& k1.entry == k0.entry
    &&& k1.timer == k0.timer
    &&& k1.exited == k0.exited
    &&& if fd == FD_STDOUT && readable(k0, buf, len) {
        r == len && k1.console.out@ == k0.console.out@ + user_bytes(k0, buf, len)
    } else {
        r == -1 && k1.console.out@ == k0.console.out@
    }
}

/// Writes the `len` bytes at the user address `buf` of the task that
/// runs to the console, reading them through the address space of the
/// task.
pub fn sys_write(kernel: &mut Kernel, fd: u64, buf: u64, len: u64) -> (r: i64)
    requires
        old(kernel).wf(),
    ensures
        write_post(*old(kernel), *final(kernel), fd, buf, len, r),
{
    if fd != FD_STDOUT || len > 0x7fff_ffff_ffff_ffff || len > usize::MAX as u64 {
        return -1;
    }
    let pid = match kernel.task_manager.get_current_task() {
        Some(p) => p,
        None => {
            return -1;
        },
    };
    proof {
        reveal(Kernel::spaces_ok);
        reveal(Kernel::schedule_ok);
    }
    let bytes = match kernel.task_manager.get_task(pid) {
        None => {
            return -1;
        },
        Some(task) => match task.memory_set.read_bytes(buf, len as usize) {
            None => {
                return -1;
            },
            Some(b) => b,
        },
    };
    put_bytes(&mut kernel.console, bytes.as_slice());
    proof {
        assert(bytes@ =~= user_bytes(*old(kernel), buf, len)) by {
            let ms = old(kernel).task_manager.task(pid as int).memory_set;
            assert forall|j: int| 0 <= j < len implies bytes@[j] == user_bytes(
                *old(kernel),
                buf,
                len,
            )[j] by {
                let a = (buf + j) as u64;
                assert(ms.byte_at(a) == Some(bytes@[a - buf]));
            }
        }
        crate::kernel::lemma_spaces_kept(*old(kernel), *kernel);
        crate::kernel::lemma_schedule_kept(*old(kernel), *kernel);
    }
    len as i64
}

} // verus!
