//! A look at memory management once it is set up: what the `satp`
//! register holds, where the first and the last address of the kernel
//! translate to, and whether frames can be taken and given back.

use vstd::prelude::*;
use vstd::string::StringSliceAdditionalSpecFns;
use crate::console::{
    console_putstr, decimal_digits, hex_after, hex_digits, print_hex_usize, print_usize, put_after,
    Console,
};
use crate::mm::frame_allocator::BitmapFrameAllocator;
use crate::mm::memory_layout::{PhysPageNum, VirtPageNum};
use crate::mm::memory_set::MemorySet;

verus! {

/// The physical address that `va` translates to in `ms`.
pub open spec fn physical(ms: MemorySet, va: u64) -> Option<u64> {
    match ms.translate_spec(VirtPageNum(va / 4096)) {
        Some((ppn, _)) => Some((ppn.0 * 4096 + va % 4096) as u64),
        None => None,
    }
}

/// What is said of the mode in `satp`.
pub open spec fn mode_text(satp: u64) -> Seq<u8> {
    if (satp >> 60) & 0xF == 8 {
        "[MM] \u{2713} Paging mode: SV39 enabled\n".spec_bytes()
    } else {
        "[MM] \u{2717} WARNING: Paging mode not enabled! Mode: ".spec_bytes() + hex_digits(
            ((satp >> 60) & 0xF) as nat,
        ) + "\n".spec_bytes()
    }
}

/// The line that shows where `va` translates to.
pub open spec fn translation_line(va: u64, pa: u64) -> Seq<u8> {
    "[MM] \u{2713} Address translation: VA 0x".spec_bytes() + hex_digits(va as nat)
        + " -> PA 0x".spec_bytes() + hex_digits(pa as nat) + "\n".spec_bytes()
}

/// What is said of the first address of the kernel: where it translates
/// to and whether that is the address itself, or that it does not
/// translate.
pub open spec fn text_check(ms: MemorySet, va: u64) -> Seq<u8> {
    match physical(ms, va) {
        Some(pa) => translation_line(va, pa) + (if va == pa {
            "[MM] \u{2713} Identical mapping verified (VA == PA) - CORRECT\n".spec_bytes()
                + "[MM]   Note: Kernel uses identity mapping for direct physical access\n".spec_bytes()
        } else {
            "[MM] \u{2717} WARNING: Identical mapping mismatch!\n".spec_bytes()
        }),
        None => "[MM] \u{2717} ERROR: Address translation failed for kernel text!\n".spec_bytes(),
    }
}

/// What is said of the last address of the kernel: where it translates
/// to and that this is the address itself, where that holds.
pub open spec fn end_check(ms: MemorySet, va: u64) -> Seq<u8> {
    match physical(ms, va) {
        Some(pa) => translation_line(va, pa) + (if va == pa {
            "[MM] \u{2713} Identical mapping verified for ekernel\n".spec_bytes()
        } else {
            Seq::empty()
        }),
        None => Seq::empty(),
    }
}

/// The whole text: the register, its mode, the two addresses, and the
/// closing lines.
pub open spec fn translation_text(satp: u64, ms: MemorySet, stext: u64, ekernel: u64) -> Seq<u8> {
    "[MM] Current SATP: 0x".spec_bytes() + hex_digits(satp as nat) + "\n".spec_bytes()
        + mode_text(satp) + text_check(ms, stext) + end_check(ms, ekernel)
        + "[MM] \u{2713} Kernel text VA: 0x".spec_bytes() + hex_digits(stext as nat)
        + "\n".spec_bytes()
        + "[MM] \u{2713} Address translation verification completed\n".spec_bytes()
}

/// Writes to the console what `satp` holds and where the addresses
/// `stext` and `ekernel` translate to in the address space of the kernel.
pub fn verify_address_translation(
    console: &mut Console,
    satp: u64,
    kernel_space: &MemorySet,
    stext: u64,
    ekernel: u64,
)
    requires
        kernel_space.table().wf(),
    ensures
        final(console).out@ == old(console).out@ + translation_text(
            satp,
            *kernel_space,
            stext,
            ekernel,
        ),
{
    let ghost base = console.out@;
    console_putstr(console, "[MM] Current SATP: 0x");
    let ghost mut acc = "[MM] Current SATP: 0x".spec_bytes();
    hex_after(console, satp, Ghost(base), Ghost(acc));
    proof { acc = acc + hex_digits(satp as nat); }
    put_after(console, "\n", Ghost(base), Ghost(acc));
    proof { acc = acc + "\n".spec_bytes(); }
    show_mode(console, satp, Ghost(base), Ghost(acc));
    proof { acc = acc + mode_text(satp); }
    show_text(console, kernel_space, stext, Ghost(base), Ghost(acc));
    proof { acc = acc + text_check(*kernel_space, stext); }
    show_end(console, kernel_space, ekernel, Ghost(base), Ghost(acc));
    proof { acc = acc + end_check(*kernel_space, ekernel); }
    put_after(console, "[MM] \u{2713} Kernel text VA: 0x", Ghost(base), Ghost(acc));
    proof { acc = acc + "[MM] \u{2713} Kernel text VA: 0x".spec_bytes(); }
    hex_after(console, stext, Ghost(base), Ghost(acc));
    proof { acc = acc + hex_digits(stext as nat); }
    put_after(console, "\n", Ghost(base), Ghost(acc));
    proof { acc = acc + "\n".spec_bytes(); }
    put_after(console, "[MM] \u{2713} Address translation verification completed\n", Ghost(base), Ghost(acc));
}

/// Writes what is said of the mode in `satp`.
fn show_mode(console: &mut Console, satp: u64, Ghost(base): Ghost<Seq<u8>>, Ghost(acc): Ghost<Seq<u8>>)
    requires
        old(console).out@ == base + acc,
    ensures
        final(console).out@ == base + (acc + mode_text(satp)),
{
    let ghost start = console.out@;
    let mode = (satp >> 60) & 0xF;
    if mode == 8 {
        console_putstr(console, "[MM] \u{2713} Paging mode: SV39 enabled\n");
    } else {
        console_putstr(console, "[MM] \u{2717} WARNING: Paging mode not enabled! Mode: ");
        print_hex_usize(console, mode);
        console_putstr(console, "\n");
    }
    proof {
        assert(console.out@ =~= start + mode_text(satp));
        assert((base + acc) + mode_text(satp) =~= base + (acc + mode_text(satp)));
    }
}

/// Writes what is said of the first address of the kernel.
fn show_text(
    console: &mut Console,
    kernel_space: &MemorySet,
    va: u64,
    Ghost(base): Ghost<Seq<u8>>,
    Ghost(acc): Ghost<Seq<u8>>,
)
    requires
        kernel_space.table().wf(),
        old(console).out@ == base + acc,
    ensures
        final(console).out@ == base + (acc + text_check(*kernel_space, va)),
{
    let ghost start = console.out@;
    match kernel_space.translate(va) {
        Some(pa) => {
            show_translation(console, va, pa);
            if va == pa {
                console_putstr(console, "[MM] \u{2713} Identical mapping verified (VA == PA) - CORRECT\n");
                console_putstr(
                    console,
                    "[MM]   Note: Kernel uses identity mapping for direct physical access\n",
                );
            } else {
                console_putstr(console, "[MM] \u{2717} WARNING: Identical mapping mismatch!\n");
            }
        },
        None => {
            console_putstr(console, "[MM] \u{2717} ERROR: Address translation failed for kernel text!\n");
        },
    }
    proof {
        assert(console.out@ =~= start + text_check(*kernel_space, va));
        assert((base + acc) + text_check(*kernel_space, va) =~= base + (acc + text_check(
            *kernel_space,
            va,
        )));
    }
}

/// Writes what is said of the last address of the kernel.
fn show_end(
    console: &mut Console,
    kernel_space: &MemorySet,
    va: u64,
    Ghost(base): Ghost<Seq<u8>>,
    Ghost(acc): Ghost<Seq<u8>>,
)
    requires
        kernel_space.table().wf(),
        old(console).out@ == base + acc,
    ensures
        final(console).out@ == base + (acc + end_check(*kernel_space, va)),
{
    let ghost start = console.out@;
    match kernel_space.translate(va) {
        Some(pa) => {
            show_translation(console, va, pa);
            if va == pa {
                console_putstr(console, "[MM] \u{2713} Identical mapping verified for ekernel\n");
            }
        },
        None => {},
    }
    proof {
        assert(console.out@ =~= start + end_check(*kernel_space, va));
        assert((base + acc) + end_check(*kernel_space, va) =~= base + (acc + end_check(
            *kernel_space,
            va,
        )));
    }
}

/// Writes the line that shows where `va` translates to.
fn show_translation(console: &mut Console, va: u64, pa: u64)
    ensures
        final(console).out@ == old(console).out@ + translation_line(va, pa),
{
    console_putstr(console, "[MM] \u{2713} Address translation: VA 0x");
    print_hex_usize(console, va);
    console_putstr(console, " -> PA 0x");
    print_hex_usize(console, pa);
    console_putstr(console, "\n");
    proof {
        assert(console.out@ =~= old(console).out@ + translation_line(va, pa));
    }
}

/// The line that names a frame that was taken.
pub open spec fn frame_line(head: Seq<u8>, ppn: u64) -> Seq<u8> {
    head + hex_digits(ppn as nat) + "\n".spec_bytes()
}

/// What is said of the frames that were taken and given back.
pub open spec fn frames_text(taken: Option<(PhysPageNum, Option<PhysPageNum>)>) -> Seq<u8> {
    match taken {
        Some((first, second)) => frame_line("  Frame allocated at PPN: 0x".spec_bytes(), first.0)
            + (match second {
            Some(p) => frame_line("  Second frame allocated at PPN: 0x".spec_bytes(), p.0),
            None => Seq::empty(),
        }) + "  Frames deallocated\n".spec_bytes(),
        None => Seq::empty(),
    }
}

/// The whole text: the frames, the count of free frames beside the
/// count of all, and a line on the heap.
pub open spec fn test_text(
    taken: Option<(PhysPageNum, Option<PhysPageNum>)>,
    free: int,
    total: int,
) -> Seq<u8> {
    frames_text(taken) + "  Free frames: ".spec_bytes() + decimal_digits(free as nat)
        + " / ".spec_bytes() + decimal_digits(total as nat) + "\n".spec_bytes()
        + "  Heap allocation test: skipped (heap allocator initialized)\n".spec_bytes()
}

/// Takes a frame and a second one, as far as there are free frames,
/// gives them back, and writes to the console which they were and how
/// many frames are free. Returns the frames that were taken.
///
/// The frames in use are as before.
pub fn test(console: &mut Console, alloc: &mut BitmapFrameAllocator) -> (r: Option<
    (PhysPageNum, Option<PhysPageNum>),
>)
    requires
        old(alloc).wf(),
    ensures
        final(alloc).wf(),
        final(alloc).start() == old(alloc).start(),
        final(alloc).end() == old(alloc).end(),
        final(alloc).allocated() == old(alloc).allocated(),
        final(console).out@ == old(console).out@ + test_text(
            r,
            old(alloc).free_count(),
            old(alloc).total(),
        ),
        r is None <==> old(alloc).free_count() == 0,
        match r {
            Some((first, second)) => {
                &&& old(alloc).is_free(first.0)
                &&& second is None <==> old(alloc).free_count() == 1
                &&& second is Some ==> second.unwrap() != first && old(alloc).is_free(
                    second.unwrap().0,
                )
            },
            None => true,
        },
{
    let ghost base = console.out@;
    let ghost mut acc = Seq::<u8>::empty();
    let taken = take_two(alloc);
    show_frames(console, taken);
    proof {
        acc = frames_text(taken);
        assert(base + acc =~= console.out@);
    }
    put_after(console, "  Free frames: ", Ghost(base), Ghost(acc));
    proof { acc = acc + "  Free frames: ".spec_bytes(); }
    let free = alloc.free_frames();
    print_usize(console, free);
    proof {
        assert(console.out@ =~= base + (acc + decimal_digits(free as nat)));
        acc = acc + decimal_digits(free as nat);
    }
    put_after(console, " / ", Ghost(base), Ghost(acc));
    proof { acc = acc + " / ".spec_bytes(); }
    let total = alloc.total_frames();
    print_usize(console, total);
    proof {
        assert(console.out@ =~= base + (acc + decimal_digits(total as nat)));
        acc = acc + decimal_digits(total as nat);
    }
    put_after(console, "\n", Ghost(base), Ghost(acc));
    proof { acc = acc + "\n".spec_bytes(); }
    put_after(
        console,
        "  Heap allocation test: skipped (heap allocator initialized)\n",
        Ghost(base),
        Ghost(acc),
    );
    taken
}

/// Takes a frame and a second one, as far as there are free frames, and
/// gives them back.
fn take_two(alloc: &mut BitmapFrameAllocator) -> (r: Option<(PhysPageNum, Option<PhysPageNum>)>)
    requires
        old(alloc).wf(),
    ensures
        final(alloc).wf(),
        final(alloc).start() == old(alloc).start(),
        final(alloc).end() == old(alloc).end(),
        final(alloc).allocated() == old(alloc).allocated(),
        r is None <==> old(alloc).free_count() == 0,
        match r {
            Some((first, second)) => {
                &&& old(alloc).is_free(first.0)
                &&& second is None <==> old(alloc).free_count() == 1
                &&& second is Some ==> second.unwrap() != first && old(alloc).is_free(
                    second.unwrap().0,
                )
            },
            None => true,
        },
{
    match alloc.alloc_frame() {
        Some(first) => {
            let ghost one = *alloc;
            let second = alloc.alloc_frame();
            match second {
                Some(p) => {
                    alloc.dealloc(p);
                },
                None => {},
            }
            proof {
                assert(alloc.allocated() =~= one.allocated());
            }
            alloc.dealloc(first);
            proof {
                assert(alloc.allocated() =~= old(alloc).allocated());
            }
            Some((first, second))
        },
        None => None,
    }
}

/// Writes which frames were taken.
fn show_frames(console: &mut Console, taken: Option<(PhysPageNum, Option<PhysPageNum>)>)
    ensures
        final(console).out@ == old(console).out@ + frames_text(taken),
{
    match taken {
        Some((first, second)) => {
            console_putstr(console, "  Frame allocated at PPN: 0x");
            print_hex_usize(console, first.0);
            console_putstr(console, "\n");
            match second {
                Some(p) => {
                    console_putstr(console, "  Second frame allocated at PPN: 0x");
                    print_hex_usize(console, p.0);
                    console_putstr(console, "\n");
                },
                None => {},
            }
            console_putstr(console, "  Frames deallocated\n");
            proof {
                assert(console.out@ =~= old(console).out@ + frames_text(taken));
            }
        },
        None => {
            proof {
                assert(console.out@ =~= old(console).out@ + frames_text(taken));
            }
        },
    }
}

} // verus!
