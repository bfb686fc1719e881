//! The system calls that map and unmap memory.

use vstd::prelude::*;
use crate::config::{MAX_APP_NUM, MMAP_START};
use crate::kernel::{lemma_schedule_same, lemma_task_changed, Kernel};
use crate::mm::memory_layout::VirtPageNum;
use crate::mm::memory_set::{frames_for, MapArea, MapPermission, MapType, MemorySet};
use crate::task::task::TaskControlBlock;

verus! {

/// Pages may be read.
pub const PROT_READ: u64 = 0x1;

/// Pages may be written.
pub const PROT_WRITE: u64 = 0x2;

/// Pages may be executed.
pub const PROT_EXEC: u64 = 0x4;

/// The mapping is shared.
pub const MAP_SHARED: u64 = 0x01;

/// The mapping is private.
pub const MAP_PRIVATE: u64 = 0x02;

/// The mapping is placed at the address that was asked for.
pub const MAP_FIXED: u64 = 0x10;

/// The mapping is backed by no file.
pub const MAP_ANONYMOUS: u64 = 0x20;

/// What a mapping call returns when it fails.
pub const MAP_FAILED: i64 = -1;

/// One past the last address that a user mapping may end at: the end of
/// the lower half of the address space.
pub const USER_SPACE_END: u64 = 0x40_0000_0000;

/// The permissions of a mapping with the protection `prot`: user access,
/// and read, write and execute as `prot` says.
pub open spec fn mmap_perm(prot: u64) -> u8 {
    (0x10 + (if prot & PROT_READ != 0 {
        0x02int
    } else {
        0
    }) + (if prot & PROT_WRITE != 0 {
        0x04int
    } else {
        0
    }) + (if prot & PROT_EXEC != 0 {
        0x08int
    } else {
        0
    })) as u8
}

/// Where a mapping begins: at `addr` if that is asked for firmly, which
/// takes a page boundary; at the page of `addr` if it is only suggested;
/// and at the start of the mapping area if no address is named.
pub open spec fn mmap_start(addr: u64, flags: u64) -> Option<u64> {
    if addr != 0 && flags & MAP_FIXED != 0 {
        if addr % 4096 != 0 {
            None
        } else {
            Some(addr)
        }
    } else if addr != 0 {
        Some((addr / 4096 * 4096) as u64)
    } else {
        Some(MMAP_START)
    }
}

/// The addresses from which to which a mapping call maps, if its
/// arguments are in order: the mapping is anonymous, not empty, and ends
/// in the lower half of the address space.
pub open spec fn mmap_region(addr: u64, length: u64, flags: u64) -> Option<(u64, u64)> {
    if flags & MAP_ANONYMOUS == 0 || length == 0 || length > USER_SPACE_END {
        None
    } else {
        match mmap_start(addr, flags) {
            None => None,
            Some(start) => {
                let end = start + (length + 4095) / 4096 * 4096;
                if end > USER_SPACE_END {
                    None
                } else {
                    Some((start, end as u64))
                }
            },
        }
    }
}

/// The addresses that an unmapping call names, if its arguments are in
/// order: the address is a page boundary and the length is not zero.
pub open spec fn munmap_region(addr: u64, length: u64) -> Option<(u64, u64)> {
    if addr % 4096 != 0 || length == 0 || addr + (length + 4095) / 4096 * 4096 > u64::MAX {
        None
    } else {
        Some((addr, (addr + (length + 4095) / 4096 * 4096) as u64))
    }
}

/// Whether the pages of region `a` are exactly the pages from `start` to
/// `end`.
pub open spec fn matches(a: MapArea, start: u64, end: u64) -> bool {
    a.start() == start / 4096 && a.end() == end / 4096
}

/// Number of free frames with which the pages from `start` to `end` are
/// mapped whatever tables are there: a frame for each page, a last-level
/// table for every 512 pages that they touch and a middle table for
/// every 512 of those.
pub open spec fn mmap_cost(start: u64, end: u64) -> int {
    frames_for(MapType::Framed, start as int / 4096, end as int / 4096)
}

/// What `sys_mmap` leaves. The call succeeds whenever its arguments are
/// in order, a task runs, none of the pages translates yet and
/// `mmap_cost` frames are free.
pub open spec fn mmap_post(
    k0: Kernel,
    k1: Kernel,
    addr: u64,
    length: u64,
    prot: u64,
    flags: u64,
    r: i64,
) -> bool {
    &&& k1.wf()
    &&& k1.kernel_space == k0.kernel_space
    &&& k1.scheduler == k0.scheduler
    &&& k1.console == k0.console
    &&& k1.entry == k0.entry
    &&& k1.timer == k0.timer
    &&& k1.exited == k0.exited
    &&& k1.task_manager.current() == k0.task_manager.current()
    &&& k1.allocator.start() == k0.allocator.start()
    &&& k1.allocator.end() == k0.allocator.end()
    &&& forall|i: int|
        0 <= i < MAX_APP_NUM && Some(i as usize) != k0.task_manager.current()
            ==> k1.task_manager.slots()[i] == k0.task_manager.slots()[i]
    &&& r == -1 || (mmap_region(addr, length, flags) is Some && r == mmap_region(
        addr,
        length,
        flags,
    ).unwrap().0)
    &&& mmap_region(addr, length, flags) is None || k0.task_manager.current() is None
        ==> r == -1 && k1 == k0
    &&& mmap_region(addr, length, flags) is Some && k0.task_manager.current() is Some ==> {
        let p = k0.task_manager.current().unwrap() as int;
        let (start, end) = mmap_region(addr, length, flags).unwrap();
        let ms0 = k0.task_manager.task(p).memory_set;
        let ms1 = k1.task_manager.task(p).memory_set;
        &&& k1.task_manager.has(p)
        &&& k1.task_manager.task(p) == (TaskControlBlock {
            memory_set: ms1,
            ..k0.task_manager.task(p)
        })
        &&& forall|v: VirtPageNum|
            ms0.translate_spec(v) is Some ==> ms1.translate_spec(v) == ms0.translate_spec(v)
        &&& r == -1 ==> ms1.regions() == ms0.regions() && (forall|v: VirtPageNum|
            ms1.translate_spec(v) == ms0.translate_spec(v))
                && k1.allocator.frames_in_use() - k0.allocator.frames_in_use()
            == ms1.owned_count() - ms0.owned_count() && ((exists|v: u64|
            start / 4096 <= v < end / 4096 && (#[trigger] ms0.translate_spec(VirtPageNum(v)))
                is Some) || (k0.allocator.free_count() - (ms1.table().ppns().len()
            - ms0.table().ppns().len()) < end / 4096 - start / 4096 && k0.allocator.free_count()
            < mmap_cost(start, end)))
        &&& r != -1 ==> {
            &&& ms1.regions().len() == ms0.regions().len() + 1
            &&& forall|i: int| 0 <= i < ms0.regions().len() ==> ms1.regions()[i] == ms0.regions()[i]
            &&& ms1.regions().last().start() == start / 4096
            &&& ms1.regions().last().end() == end / 4096
            &&& ms1.regions().last().kind() == MapType::Framed
            &&& ms1.regions().last().perm() == MapPermission(mmap_perm(prot))
            &&& forall|a: u64|
                start <= a < end ==> #[trigger] ms1.byte_at(a) == Some(0u8)
            &&& forall|v: u64|
                start / 4096 <= v < end / 4096 ==> (#[trigger] ms1.translate_spec(VirtPageNum(v)))
                    is Some && ms1.translate_spec(VirtPageNum(v)).unwrap().1
                    == crate::mm::page_table::PTEFlags(mmap_perm(prot) | 1)
            &&& k1.allocator.frames_in_use() - k0.allocator.frames_in_use()
                == ms1.owned_count() - ms0.owned_count()
        }
    }
}

/// What `sys_munmap` leaves.
pub open spec fn munmap_post(k0: Kernel, k1: Kernel, addr: u64, length: u64, r: i64) -> bool {
    &&& k1.wf()
    &&& k1.kernel_space == k0.kernel_space
    &&& k1.scheduler == k0.scheduler
    &&& k1.console == k0.console
    &&& k1.entry == k0.entry
    &&& k1.timer == k0.timer
    &&& k1.exited == k0.exited
    &&& k1.task_manager.current() == k0.task_manager.current()
    &&& r == 0 || r == -1
    &&& r == 0 <==> unmappable(k0, addr, length)
    &&& r == -1 ==> k1 == k0
    &&& r == 0 ==> {
        let p = k0.task_manager.current().unwrap() as int;
        let (start, end) = munmap_region(addr, length).unwrap();
        let ms0 = k0.task_manager.task(p).memory_set;
        let ms1 = k1.task_manager.task(p).memory_set;
        let i = target(ms0.regions(), start, end);
        &&& k1.task_manager.has(p)
        &&& k1.task_manager.task(p) == (TaskControlBlock {
            memory_set: ms1,
            ..k0.task_manager.task(p)
        })
        &&& forall|j: int|
            0 <= j < MAX_APP_NUM && j != p ==> k1.task_manager.slots()[j] == k0.task_manager.slots()[j]
        &&& ms1.regions() == ms0.regions().remove(i)
        &&& forall|v: u64|
            start / 4096 <= v < end / 4096 ==> (#[trigger] ms1.translate_spec(VirtPageNum(v)))
                is None
        &&& forall|k: int|
            0 <= k < ms0.regions()[i].frame_ppns().len()
                ==> !k1.allocator.is_allocated(#[trigger] ms0.regions()[i].frame_ppns()[k])
        &&& k1.allocator.frames_in_use() + ms0.regions()[i].frame_ppns().len()
            == k0.allocator.frames_in_use()
    }
}

/// The permission bits of a mapping.
pub fn permission_of(prot: u64) -> (r: MapPermission)
    ensures
        r.0 == mmap_perm(prot),
{
    let mut bits: u8 = MapPermission::U;
    if prot & PROT_READ != 0 {
        bits = bits + MapPermission::R;
    }
    if prot & PROT_WRITE != 0 {
        bits = bits + MapPermission::W;
    }
    if prot & PROT_EXEC != 0 {
        bits = bits + MapPermission::X;
    }
    MapPermission(bits)
}

/// The addresses from which to which a mapping call maps.
pub fn region_of(addr: u64, length: u64, flags: u64) -> (r: Option<(u64, u64)>)
    ensures
        r == mmap_region(addr, length, flags),
{
    if (flags & MAP_ANONYMOUS) == 0 || length == 0 || length > USER_SPACE_END {
        return None;
    }
    let start = if addr != 0 && (flags & MAP_FIXED) != 0 {
        if addr % 4096 != 0 {
            return None;
        }
        addr
    } else if addr != 0 {
        addr / 4096 * 4096
    } else {
        MMAP_START
    };
    let aligned = (length + 4095) / 4096 * 4096;
    if start > USER_SPACE_END || aligned > USER_SPACE_END - start {
        return None;
    }
    Some((start, start + aligned))
}

/// Maps fresh, zeroed memory into the address space of the task that
/// runs: one framed region from the start that `mmap_start` gives, over
/// `length` bytes rounded up to whole pages, with user access and the
/// permissions of `prot`.
///
/// Returns the start address, or `-1` with nothing changed: if the
/// arguments are not in order, if no task runs, if one of the pages
/// translates already, or if the free frames do not suffice.
#[verifier::rlimit(100)]
pub fn sys_mmap(
    kernel: &mut Kernel,
    addr: u64,
    length: u64,
    prot: u64,
    flags: u64,
    _fd: u64,
    _offset: u64,
) -> (r: i64)
    requires
        old(kernel).wf(),
    ensures
        mmap_post(*old(kernel), *final(kernel), addr, length, prot, flags, r),
{
    let (start, end) = match region_of(addr, length, flags) {
        Some(x) => x,
        None => {
            return MAP_FAILED;
        },
    };
    let pid = match kernel.task_manager.get_current_task() {
        Some(p) => p,
        None => {
            return MAP_FAILED;
        },
    };
    proof {
        reveal(Kernel::spaces_ok);
        reveal(Kernel::schedule_ok);
    }
    if pid >= MAX_APP_NUM {
        return MAP_FAILED;
    }
    let mut task = match kernel.task_manager.take_task(pid) {
        Some(t) => t,
        None => {
            return MAP_FAILED;
        },
    };
    let ghost ms0 = task.memory_set;
    let perm = permission_of(prot);
    let area = MapArea::new(start, end, MapType::Framed, perm);
    let pushed = task.memory_set.push(area, None, &mut kernel.allocator);
    let ghost ms1 = task.memory_set;
    let ghost t1 = task;
    kernel.task_manager.put_task(pid, task);
    proof {
        assert(kernel.task_manager.task(pid as int) == t1);
        lemma_task_changed(*old(kernel), *kernel, pid as int);
        lemma_schedule_same(*old(kernel), *kernel);
        old(kernel).allocator.lemma_allocated_finite();
        kernel.allocator.lemma_allocated_finite();
    }
    match pushed {
        Ok(()) => {
            proof {
                assert forall|a: u64| start <= a < end implies #[trigger] ms1.byte_at(a) == Some(
                    0u8,
                ) by {
                    assert(area.start() <= a / 4096 < area.end());
                }
                assert forall|v: u64| start / 4096 <= v < end / 4096 implies (
                #[trigger] ms1.translate_spec(VirtPageNum(v))) is Some && ms1.translate_spec(
                    VirtPageNum(v),
                ).unwrap().1 == crate::mm::page_table::PTEFlags(mmap_perm(prot) | 1) by {
                    assert(area.page(v - area.start()) == VirtPageNum(v));
                }
            }
            start as i64
        },
        Err(e) => {
            proof {
                if e == crate::mm::page_table::MapError::AlreadyMapped {
                    let k = choose|k: int|
                        0 <= k < area.page_count() && ms0.translate_spec(#[trigger] area.page(k))
                            is Some;
                    let v = (area.start() + k) as u64;
                    assert(area.page(k) == VirtPageNum(v));
                    assert(start / 4096 <= v < end / 4096);
                }
            }
            MAP_FAILED
        },
    }
}


/// The addresses that an unmapping call names.
pub fn range_of(addr: u64, length: u64) -> (r: Option<(u64, u64)>)
    ensures
        r == munmap_region(addr, length),
{
    if addr % 4096 != 0 || length == 0 || length > u64::MAX - 4095 {
        return None;
    }
    let aligned = (length + 4095) / 4096 * 4096;
    if aligned > u64::MAX - addr {
        return None;
    }
    Some((addr, addr + aligned))
}

/// The first region of `ms` whose pages are exactly the pages from
/// `start` to `end`.
pub fn find_region(ms: &MemorySet, start: u64, end: u64) -> (r: Option<usize>)
    ensures
        match r {
            Some(i) => i < ms.regions().len() && matches(ms.regions()[i as int], start, end)
                && forall|j: int| 0 <= j < i ==> !matches(#[trigger] ms.regions()[j], start, end),
            None => forall|j: int|
                0 <= j < ms.regions().len() ==> !matches(#[trigger] ms.regions()[j], start, end),
        },
{
    let areas = ms.areas();
    let mut i: usize = 0;
    while i < areas.len()
        invariant
            i <= areas@.len(),
            areas@ == ms.regions(),
            forall|j: int| 0 <= j < i ==> !matches(#[trigger] ms.regions()[j], start, end),
        decreases areas@.len() - i,
    {
        let range = areas[i].vpn_range();
        if range.start.0 == start / 4096 && range.end.0 == end / 4096 {
            return Some(i);
        }
        i += 1;
    }
    None
}

/// Takes a region out of the address space of the task that runs: the
/// region whose pages are exactly those named. Its pages are unmapped
/// and its frames are given back.
///
/// Returns `0`, or `-1` with nothing changed: if the address is not a
/// page boundary or the length is zero, if no task runs, or if no region
/// has exactly the pages named, so that a part of a region is never
/// unmapped.
#[verifier::rlimit(100)]
pub fn sys_munmap(kernel: &mut Kernel, addr: u64, length: u64) -> (r: i64)
    requires
        old(kernel).wf(),
    ensures
        munmap_post(*old(kernel), *final(kernel), addr, length, r),
{
    let (start, end) = match range_of(addr, length) {
        Some(x) => x,
        None => {
            return -1;
        },
    };
    let pid = match kernel.task_manager.get_current_task() {
        Some(p) => p,
        None => {
            return -1;
        },
    };
    proof {
        reveal(Kernel::spaces_ok);
        reveal(Kernel::schedule_ok);
    }
    let index = match kernel.task_manager.get_task(pid) {
        None => {
            return -1;
        },
        Some(task) => match find_region(&task.memory_set, start, end) {
            None => {
                return -1;
            },
            Some(i) => i,
        },
    };
    let mut task = match kernel.task_manager.take_task(pid) {
        Some(t) => t,
        None => {
            return -1;
        },
    };
    let ghost ms0 = task.memory_set;
    let removed = task.memory_set.remove_area(index, &mut kernel.allocator);
    let ghost ms1 = task.memory_set;
    let ghost t1 = task;
    kernel.task_manager.put_task(pid, task);
    proof {
        assert(removed is Ok);
        assert(kernel.task_manager.task(pid as int) == t1);
        lemma_task_changed(*old(kernel), *kernel, pid as int);
        lemma_schedule_same(*old(kernel), *kernel);
        let a = ms0.regions()[index as int];
        ms0.lemma_region_translates(index as int, 0);
        assert forall|v: u64| start / 4096 <= v < end / 4096 implies (#[trigger] ms1.translate_spec(
            VirtPageNum(v),
        )) is None by {
            assert(a.page(v - a.start()) == VirtPageNum(v));
        }
    }
    0
}

/// The region that an unmapping call takes out: the first region whose
/// pages are exactly those named.
pub open spec fn target(regions: Seq<MapArea>, start: u64, end: u64) -> int {
    choose|i: int|
        0 <= i < regions.len() && matches(#[trigger] regions[i], start, end) && forall|j: int|
            0 <= j < i ==> !matches(#[trigger] regions[j], start, end)
}

/// Whether an unmapping call finds a region to take out: its arguments
/// are in order, a task runs, and a region of its address space has
/// exactly the pages named.
pub open spec fn unmappable(k: Kernel, addr: u64, length: u64) -> bool {
    &&& munmap_region(addr, length) is Some
    &&& k.task_manager.current() is Some
    &&& k.task_manager.has(k.task_manager.current().unwrap() as int)
    &&& ({
        let (start, end) = munmap_region(addr, length).unwrap();
        let regions = k.task_manager.task(
            k.task_manager.current().unwrap() as int,
        ).memory_set.regions();
        exists|i: int| 0 <= i < regions.len() && matches(#[trigger] regions[i], start, end)
    })
}

} // verus!
