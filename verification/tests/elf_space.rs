use chronos_kernel::config::{TRAMPOLINE, TRAP_CONTEXT, USER_STACK_BOTTOM, USER_STACK_TOP};
use chronos_kernel::console::Console;
use chronos_kernel::mm::inspect::verify_address_translation;
use chronos_kernel::loader::{ElfError, Segment, PF_R, PF_W, PF_X, PT_LOAD};
use chronos_kernel::mm::elf_space::{permission_of, LoadError};
use chronos_kernel::mm::frame_allocator::BitmapFrameAllocator;
use chronos_kernel::mm::kernel_space::{kernel_stack_position, KernelLayout};
use chronos_kernel::mm::memory_layout::{PhysPageNum, VirtPageNum};
use chronos_kernel::mm::memory_set::{MapPermission, MapType, MemorySet};
use chronos_kernel::mm::page_table::{MapError, PTEFlags};

struct Part {
    flags: u32,
    vaddr: u64,
    memsz: u64,
    data: Vec<u8>,
}

fn image(entry: u64, parts: &[Part]) -> Vec<u8> {
    let mut out = vec![0u8; 64];
    out[0..4].copy_from_slice(&[0x7f, b'E', b'L', b'F']);
    out[4] = 2;
    out[5] = 1;
    out[6] = 1;
    out[16..18].copy_from_slice(&2u16.to_le_bytes());
    out[18..20].copy_from_slice(&0xF3u16.to_le_bytes());
    out[24..32].copy_from_slice(&entry.to_le_bytes());
    out[32..40].copy_from_slice(&64u64.to_le_bytes());
    out[54..56].copy_from_slice(&56u16.to_le_bytes());
    out[56..58].copy_from_slice(&(parts.len() as u16).to_le_bytes());
    let mut offset = 64 + 56 * parts.len() as u64;
    for p in parts {
        out.extend_from_slice(&PT_LOAD.to_le_bytes());
        out.extend_from_slice(&p.flags.to_le_bytes());
        out.extend_from_slice(&offset.to_le_bytes());
        out.extend_from_slice(&p.vaddr.to_le_bytes());
        out.extend_from_slice(&p.vaddr.to_le_bytes());
        out.extend_from_slice(&(p.data.len() as u64).to_le_bytes());
        out.extend_from_slice(&p.memsz.to_le_bytes());
        out.extend_from_slice(&0x1000u64.to_le_bytes());
        offset += p.data.len() as u64;
    }
    for p in parts {
        out.extend_from_slice(&p.data);
    }
    out
}

fn window(frames: u64) -> BitmapFrameAllocator {
    let mut a = BitmapFrameAllocator::new();
    a.init(0x8100_0000, 0x8100_0000 + frames * 4096);
    a
}

const SHARED: PhysPageNum = PhysPageNum(0x80201);

fn flags_at(ms: &MemorySet, va: u64) -> Option<PTEFlags> {
    ms.page_table().translate(VirtPageNum::from_addr(va)).map(|t| t.1)
}

#[test]
fn segment_permissions() {
    assert_eq!(permission_of(0), MapPermission(0x10));
    assert_eq!(permission_of(PF_R), MapPermission(0x12));
    assert_eq!(permission_of(PF_W), MapPermission(0x14));
    assert_eq!(permission_of(PF_X), MapPermission(0x18));
    assert_eq!(permission_of(PF_R | PF_W | PF_X), MapPermission(0x1e));
    assert_eq!(permission_of(0xffff_fff8), MapPermission(0x10));
}

#[test]
fn elf_round_trip() {
    let contents: Vec<u8> = (0..0x200u32).map(|i| (i * 7 + 3) as u8).collect();
    let img = image(
        0x1_0078,
        &[Part { flags: PF_R | PF_X, vaddr: 0x1_0078, memsz: 0x400, data: contents.clone() }],
    );
    let mut alloc = window(64);
    let (ms, user_sp, entry) = MemorySet::from_elf(&img, SHARED, &mut alloc).unwrap();
    assert_eq!(entry, 0x1_0078);
    assert_eq!(user_sp, USER_STACK_TOP);
    // the segment ends at 0x10478: its region is the one page at 0x10000,
    // mapped for the user, readable and executable
    assert_eq!(flags_at(&ms, 0x1_0000), Some(PTEFlags(0x1b)));
    assert_eq!(flags_at(&ms, 0x1_1000), None);
    assert_eq!(flags_at(&ms, 0xf000), None);
    // the file contents lie at the exact address
    assert_eq!(ms.read_bytes(0x1_0078, 0x200), Some(contents));
    // everything else in the page is zero
    assert_eq!(ms.read_bytes(0x1_0000, 0x78), Some(vec![0u8; 0x78]));
    assert_eq!(ms.read_bytes(0x1_0278, 0x1000 - 0x278), Some(vec![0u8; 0x1000 - 0x278]));
    assert_eq!(ms.read_byte(0x1_1000), None);
}

#[test]
fn elf_round_trip_over_two_pages() {
    let contents: Vec<u8> = (0..0x200u32).map(|i| (i * 5 + 1) as u8).collect();
    let img = image(
        0x1_0078,
        &[Part { flags: PF_R | PF_X, vaddr: 0x1_0078, memsz: 0x1400, data: contents.clone() }],
    );
    let mut alloc = window(64);
    let (ms, _, _) = MemorySet::from_elf(&img, SHARED, &mut alloc).unwrap();
    assert_eq!(flags_at(&ms, 0x1_0000), Some(PTEFlags(0x1b)));
    assert_eq!(flags_at(&ms, 0x1_1000), Some(PTEFlags(0x1b)));
    assert_eq!(flags_at(&ms, 0x1_2000), None);
    assert_eq!(ms.read_bytes(0x1_0078, 0x200), Some(contents));
    assert_eq!(ms.read_bytes(0x1_0278, 0x1000 - 0x278), Some(vec![0u8; 0x1000 - 0x278]));
    assert_eq!(ms.read_bytes(0x1_1000, 0x1000), Some(vec![0u8; 0x1000]));
}

#[test]
fn user_address_space_layout() {
    let img = image(0x1_0000, &[Part { flags: PF_R, vaddr: 0x1_0000, memsz: 1, data: vec![1] }]);
    let mut alloc = window(64);
    let (ms, _, _) = MemorySet::from_elf(&img, SHARED, &mut alloc).unwrap();
    // the trampoline: the shared frame, for the kernel alone
    assert_eq!(
        ms.page_table().translate(VirtPageNum::from_addr(TRAMPOLINE)),
        Some((SHARED, PTEFlags(0x0b)))
    );
    assert_eq!(ms.trampoline(), Some(SHARED));
    // the trap frame: a frame of its own, for the kernel alone
    let (trap_frame, flags) = ms.page_table().translate(VirtPageNum::from_addr(TRAP_CONTEXT)).unwrap();
    assert_eq!(flags, PTEFlags(0x07));
    assert_ne!(trap_frame, SHARED);
    assert!(alloc.is_used(trap_frame));
    // the user stack
    assert_eq!(flags_at(&ms, USER_STACK_BOTTOM), Some(PTEFlags(0x17)));
    assert_eq!(flags_at(&ms, USER_STACK_TOP - 1), Some(PTEFlags(0x17)));
    assert_eq!(flags_at(&ms, USER_STACK_TOP), None);
    assert_eq!(flags_at(&ms, USER_STACK_BOTTOM - 1), None);
    // regions: trap frame, stack, segment
    assert_eq!(ms.areas().len(), 3);
    assert_eq!(ms.areas()[0].vpn_range().start(), VirtPageNum::from_addr(TRAP_CONTEXT));
    assert_eq!(ms.areas()[0].map_perm(), MapPermission(0x06));
    assert_eq!(ms.areas()[1].vpn_range().start(), VirtPageNum::from_addr(USER_STACK_BOTTOM));
    assert_eq!(ms.areas()[1].map_perm(), MapPermission(0x16));
    assert_eq!(ms.areas()[2].map_type(), MapType::Framed);
    assert_eq!(ms.areas()[2].map_perm(), MapPermission(0x12));
}

#[test]
fn two_address_spaces_share_only_the_trampoline() {
    let img = image(0x1_0000, &[Part { flags: PF_R, vaddr: 0x1_0000, memsz: 1, data: vec![1] }]);
    let mut alloc = window(128);
    let (a, _, _) = MemorySet::from_elf(&img, SHARED, &mut alloc).unwrap();
    let (b, _, _) = MemorySet::from_elf(&img, SHARED, &mut alloc).unwrap();
    let top = VirtPageNum::from_addr(TRAMPOLINE);
    assert_eq!(a.page_table().translate(top), b.page_table().translate(top));
    for va in [TRAP_CONTEXT, USER_STACK_BOTTOM, USER_STACK_BOTTOM + 0x1000, 0x1_0000] {
        let fa = a.page_table().translate(VirtPageNum::from_addr(va)).unwrap().0;
        let fb = b.page_table().translate(VirtPageNum::from_addr(va)).unwrap().0;
        assert_ne!(fa, fb);
    }
    assert_ne!(a.token(), b.token());
}

#[test]
fn segments_that_share_a_page_are_merged() {
    let img = image(
        0x1_0000,
        &[
            Part { flags: PF_R | PF_X, vaddr: 0x1_0000, memsz: 0x1800, data: vec![0x11; 0x1800] },
            Part { flags: PF_R | PF_W, vaddr: 0x1_1800, memsz: 0x1000, data: vec![0x22; 0x10] },
        ],
    );
    let mut alloc = window(64);
    let (ms, _, _) = MemorySet::from_elf(&img, SHARED, &mut alloc).unwrap();
    assert_eq!(flags_at(&ms, 0x1_0000), Some(PTEFlags(0x1b)));
    // the shared page has the permissions of both
    assert_eq!(flags_at(&ms, 0x1_1000), Some(PTEFlags(0x1f)));
    assert_eq!(flags_at(&ms, 0x1_2000), Some(PTEFlags(0x17)));
    assert_eq!(flags_at(&ms, 0x1_3000), None);
    // and the bytes of both
    assert_eq!(ms.read_byte(0x1_17ff), Some(0x11));
    assert_eq!(ms.read_byte(0x1_1800), Some(0x22));
    assert_eq!(ms.read_byte(0x1_180f), Some(0x22));
    assert_eq!(ms.read_byte(0x1_1810), Some(0));
    // trap frame, stack, first segment, rest of the second
    assert_eq!(ms.areas().len(), 4);
    assert_eq!(ms.areas()[3].vpn_range().start(), VirtPageNum::new(0x12));
}

#[test]
fn a_later_segment_overwrites_an_earlier_one() {
    let img = image(
        0,
        &[
            Part { flags: PF_R, vaddr: 0x1_0000, memsz: 0x100, data: vec![1; 0x100] },
            Part { flags: PF_W, vaddr: 0x1_0080, memsz: 0x20, data: vec![2; 0x20] },
        ],
    );
    let mut alloc = window(64);
    let (ms, _, _) = MemorySet::from_elf(&img, SHARED, &mut alloc).unwrap();
    assert_eq!(ms.read_byte(0x1_007f), Some(1));
    assert_eq!(ms.read_byte(0x1_0080), Some(2));
    assert_eq!(ms.read_byte(0x1_009f), Some(2));
    assert_eq!(ms.read_byte(0x1_00a0), Some(1));
    assert_eq!(flags_at(&ms, 0x1_0000), Some(PTEFlags(0x17)));
    assert_eq!(ms.areas().len(), 3);
}

#[test]
fn refused_image_takes_no_frame() {
    let mut alloc = window(64);
    let mut img = image(0, &[]);
    img[0] = 0;
    assert_eq!(
        MemorySet::from_elf(&img, SHARED, &mut alloc).err(),
        Some(LoadError::Image(ElfError::BadMagic))
    );
    assert_eq!(alloc.free_frames(), 64);
}

#[test]
fn failed_load_gives_every_frame_back() {
    let img = image(0, &[Part { flags: PF_R, vaddr: 0x1_0000, memsz: 0x8000, data: vec![1] }]);
    // too few frames for the segment
    let mut alloc = window(14);
    assert_eq!(
        MemorySet::from_elf(&img, SHARED, &mut alloc).err(),
        Some(LoadError::Memory(MapError::OutOfMemory))
    );
    assert_eq!(alloc.free_frames(), 14);
    // no frame at all
    let mut none = window(0);
    assert_eq!(
        MemorySet::from_elf(&img, SHARED, &mut none).err(),
        Some(LoadError::Memory(MapError::OutOfMemory))
    );
    // bytes beyond the memory of the segment
    let long = image(0, &[Part { flags: PF_R, vaddr: 0x1_0000, memsz: 0x10, data: vec![1; 0x1001] }]);
    let mut alloc = window(64);
    assert_eq!(
        MemorySet::from_elf(&long, SHARED, &mut alloc).err(),
        Some(LoadError::Memory(MapError::OutOfRange))
    );
    assert_eq!(alloc.free_frames(), 64);
    // a segment that ends beyond the address space
    let wrap = image(0, &[Part { flags: PF_R, vaddr: u64::MAX - 10, memsz: 0x100, data: vec![] }]);
    assert_eq!(
        MemorySet::from_elf(&wrap, SHARED, &mut alloc).err(),
        Some(LoadError::Memory(MapError::OutOfRange))
    );
    assert_eq!(alloc.free_frames(), 64);
}

#[test]
fn load_segment_by_itself() {
    let mut alloc = window(64);
    let mut ms = MemorySet::new_bare(&mut alloc).unwrap();
    let seg = Segment { vaddr: 0x2_0ff0, memsz: 0x20, data: vec![5; 0x20], flags: PF_R | PF_W };
    assert_eq!(ms.load_segment(&seg, &mut alloc), Ok(()));
    assert_eq!(flags_at(&ms, 0x2_0000), Some(PTEFlags(0x17)));
    assert_eq!(flags_at(&ms, 0x2_1000), Some(PTEFlags(0x17)));
    assert_eq!(ms.read_bytes(0x2_0ff0, 0x20), Some(vec![5; 0x20]));
    assert_eq!(ms.read_byte(0x2_0fef), Some(0));
    assert_eq!(ms.read_byte(0x2_1010), Some(0));
}

#[test]
fn kernel_address_space() {
    let layout = KernelLayout {
        stext: 0x8022_0000,
        etext: 0x8023_0000,
        srodata: 0x8023_0000,
        erodata: 0x8024_0000,
        sdata: 0x8024_0000,
        edata: 0x8025_0000,
        sbss: 0x8025_0000,
        ebss: 0x8026_0000,
        ekernel: 0x8042_0000,
        strampoline: 0x8022_1000,
    };
    let mut alloc = BitmapFrameAllocator::new();
    alloc.init(0x8042_0000, 0x8800_0000);
    let total = alloc.free_frames();
    let ms = MemorySet::new_kernel(&layout, &mut alloc).unwrap();
    let at = |va: u64| ms.page_table().translate(VirtPageNum::from_addr(va));
    // sections and memory are mapped to the frames of the same numbers
    assert_eq!(at(0x8000_0000), Some((PhysPageNum(0x80000), PTEFlags(0x07))));
    assert_eq!(at(0x8022_0000), Some((PhysPageNum(0x80220), PTEFlags(0x0b))));
    assert_eq!(at(0x8022_f000), Some((PhysPageNum(0x8022f), PTEFlags(0x0b))));
    assert_eq!(at(0x8023_0000), Some((PhysPageNum(0x80230), PTEFlags(0x03))));
    assert_eq!(at(0x8024_0000), Some((PhysPageNum(0x80240), PTEFlags(0x07))));
    assert_eq!(at(0x8025_0000), Some((PhysPageNum(0x80250), PTEFlags(0x07))));
    assert_eq!(at(0x8041_f000), Some((PhysPageNum(0x8041f), PTEFlags(0x07))));
    assert_eq!(at(0x8042_0000), Some((PhysPageNum(0x80420), PTEFlags(0x07))));
    assert_eq!(at(0x87ff_f000), Some((PhysPageNum(0x87fff), PTEFlags(0x07))));
    assert_eq!(at(0x8800_0000), None);
    assert_eq!(at(0x7fff_f000), None);
    // the device window
    assert_eq!(at(0x0200_0000), Some((PhysPageNum(0x2000), PTEFlags(0x07))));
    assert_eq!(at(0x0fff_f000), Some((PhysPageNum(0xffff), PTEFlags(0x07))));
    assert_eq!(at(0x1000_0000), None);
    assert_eq!(ms.translate(0x8022_0123), Some(0x8022_0123));
    // the trampoline
    assert_eq!(at(TRAMPOLINE), Some((PhysPageNum(0x80221), PTEFlags(0x0b))));
    assert_eq!(ms.trampoline(), Some(PhysPageNum(0x80221)));
    // kernel stacks with guard pages between them
    for i in 0..16u64 {
        let (bottom, top) = kernel_stack_position(i);
        assert_eq!(top, TRAP_CONTEXT - 4096 - i * (0x4000 + 4096));
        assert_eq!(bottom, top - 0x4000);
        assert_eq!(at(top), None);
        assert_eq!(at(bottom - 1), None);
        let (frame, flags) = at(bottom).unwrap();
        assert_eq!(flags, PTEFlags(0x07));
        assert!(alloc.is_used(frame));
        assert!(at(top - 1).is_some());
    }
    assert_eq!(ms.areas().len(), 23);
    ms.release(&mut alloc);
    assert_eq!(alloc.free_frames(), total);
}

#[test]
fn kernel_address_space_without_memory() {
    let layout = KernelLayout {
        stext: 0x8022_0000,
        etext: 0x8023_0000,
        srodata: 0x8023_0000,
        erodata: 0x8024_0000,
        sdata: 0x8024_0000,
        edata: 0x8025_0000,
        sbss: 0x8025_0000,
        ebss: 0x8026_0000,
        ekernel: 0x8042_0000,
        strampoline: 0x8022_1000,
    };
    let mut alloc = window(20);
    assert_eq!(MemorySet::new_kernel(&layout, &mut alloc).err(), Some(MapError::OutOfMemory));
    assert_eq!(alloc.free_frames(), 20);
    // sections that share a page
    let mut overlapping = layout;
    overlapping.srodata = 0x8022_f800;
    let mut alloc = BitmapFrameAllocator::new();
    alloc.init(0x8042_0000, 0x8800_0000);
    let total = alloc.free_frames();
    assert_eq!(
        MemorySet::new_kernel(&overlapping, &mut alloc).err(),
        Some(MapError::AlreadyMapped)
    );
    assert_eq!(alloc.free_frames(), total);
}

#[test]
fn segment_that_runs_into_an_earlier_one_is_refused() {
    let img = image(
        0x2_0000,
        &[
            Part { flags: PF_R | PF_X, vaddr: 0x2_0000, memsz: 0x1000, data: vec![1; 4] },
            Part { flags: PF_R | PF_W, vaddr: 0x1_f000, memsz: 0x2000, data: vec![2; 4] },
        ],
    );
    let mut alloc = window(64);
    assert_eq!(
        MemorySet::from_elf(&img, SHARED, &mut alloc).err(),
        Some(LoadError::Memory(MapError::AlreadyMapped))
    );
    assert_eq!(alloc.free_frames(), 64);
    // the other way round the first page of the second segment is shared
    let img = image(
        0x2_0000,
        &[
            Part { flags: PF_R | PF_X, vaddr: 0x2_0000, memsz: 0x1000, data: vec![1; 4] },
            Part { flags: PF_R | PF_W, vaddr: 0x2_0800, memsz: 0x1000, data: vec![2; 4] },
        ],
    );
    let (ms, _, _) = MemorySet::from_elf(&img, SHARED, &mut alloc).unwrap();
    assert_eq!(flags_at(&ms, 0x2_0000), Some(PTEFlags(0x1f)));
    assert_eq!(flags_at(&ms, 0x2_1000), Some(PTEFlags(0x17)));
    assert_eq!(ms.read_bytes(0x2_0800, 4), Some(vec![2; 4]));
    assert_eq!(ms.read_bytes(0x2_0000, 4), Some(vec![1; 4]));
}

#[test]
fn segment_outside_the_halves_of_the_address_space_is_refused() {
    let img = image(
        0,
        &[Part { flags: PF_R, vaddr: 0x3f_ffff_f000, memsz: 0x2000, data: vec![] }],
    );
    let mut alloc = window(64);
    assert_eq!(
        MemorySet::from_elf(&img, SHARED, &mut alloc).err(),
        Some(LoadError::Memory(MapError::OutOfRange))
    );
    assert_eq!(alloc.free_frames(), 64);
    // a segment on the trampoline page is refused, whatever it holds
    let img = image(
        0,
        &[Part { flags: PF_R | PF_W, vaddr: TRAMPOLINE, memsz: 0x10, data: vec![] }],
    );
    assert_eq!(
        MemorySet::from_elf(&img, SHARED, &mut alloc).err(),
        Some(LoadError::Memory(MapError::OutOfRange))
    );
    assert_eq!(alloc.free_frames(), 64);
    let img = image(
        0,
        &[Part { flags: PF_R | PF_W, vaddr: TRAMPOLINE - 0x2000, memsz: 0x2800, data: vec![] }],
    );
    assert_eq!(
        MemorySet::from_elf(&img, SHARED, &mut alloc).err(),
        Some(LoadError::Memory(MapError::OutOfRange))
    );
    assert_eq!(alloc.free_frames(), 64);
    // and so is a segment on the page of the trap frame
    let img = image(
        0,
        &[Part { flags: PF_R | PF_W, vaddr: TRAP_CONTEXT + 8, memsz: 0x10, data: vec![] }],
    );
    assert_eq!(
        MemorySet::from_elf(&img, SHARED, &mut alloc).err(),
        Some(LoadError::Memory(MapError::OutOfRange))
    );
    let img = image(
        0,
        &[Part { flags: PF_R | PF_W, vaddr: TRAP_CONTEXT - 0x3000, memsz: 0x3001, data: vec![] }],
    );
    assert_eq!(
        MemorySet::from_elf(&img, SHARED, &mut alloc).err(),
        Some(LoadError::Memory(MapError::OutOfRange))
    );
    assert_eq!(alloc.free_frames(), 64);
    let img = image(0, &[Part { flags: PF_R, vaddr: 0x1_0000, memsz: 0x10, data: vec![] }]);
    let (ms, _, _) = MemorySet::from_elf(&img, SHARED, &mut alloc).unwrap();
    assert_eq!(flags_at(&ms, TRAMPOLINE), Some(PTEFlags(0x0b)));
    assert_eq!(flags_at(&ms, TRAP_CONTEXT), Some(PTEFlags(0x07)));
    assert_eq!(flags_at(&ms, 0x1_0000), Some(PTEFlags(0x13)));
    ms.release(&mut alloc);
    assert_eq!(alloc.free_frames(), 64);
    // a segment on the trampoline has a page that translates and holds no bytes
    let img = image(
        0,
        &[Part { flags: PF_R, vaddr: TRAMPOLINE, memsz: 0x10, data: vec![1] }],
    );
    assert_eq!(
        MemorySet::from_elf(&img, SHARED, &mut alloc).err(),
        Some(LoadError::Memory(MapError::OutOfRange))
    );
    assert_eq!(alloc.free_frames(), 64);
}

#[test]
fn translation_of_the_kernel_is_shown() {
    let layout = KernelLayout {
        stext: 0x8022_0000,
        etext: 0x8023_0000,
        srodata: 0x8023_0000,
        erodata: 0x8024_0000,
        sdata: 0x8024_0000,
        edata: 0x8025_0000,
        sbss: 0x8025_0000,
        ebss: 0x8026_0000,
        ekernel: 0x8042_0000,
        strampoline: 0x8022_1000,
    };
    let mut alloc = BitmapFrameAllocator::new();
    alloc.init(0x8042_0000, 0x8800_0000);
    let ms = MemorySet::new_kernel(&layout, &mut alloc).unwrap();
    let mut console = Console::new();
    verify_address_translation(&mut console, ms.token(), &ms, layout.stext, layout.ekernel);
    assert_eq!(ms.token(), 0x8000_0000_0008_0420);
    assert_eq!(
        String::from_utf8(console.take()).unwrap(),
        "[MM] Current SATP: 0x8000000000080420\n\
         [MM] \u{2713} Paging mode: SV39 enabled\n\
         [MM] \u{2713} Address translation: VA 0x80220000 -> PA 0x80220000\n\
         [MM] \u{2713} Identical mapping verified (VA == PA) - CORRECT\n\
         [MM]   Note: Kernel uses identity mapping for direct physical access\n\
         [MM] \u{2713} Address translation: VA 0x80420000 -> PA 0x80420000\n\
         [MM] \u{2713} Identical mapping verified for ekernel\n\
         [MM] \u{2713} Kernel text VA: 0x80220000\n\
         [MM] \u{2713} Address translation verification completed\n"
    );
}

#[test]
fn translation_that_fails_or_differs_is_shown() {
    let mut alloc = window(64);
    let bare = MemorySet::new_bare(&mut alloc).unwrap();
    let mut console = Console::new();
    verify_address_translation(&mut console, 3 << 60, &bare, 0x1000, 0x2000);
    assert_eq!(
        String::from_utf8(console.take()).unwrap(),
        "[MM] Current SATP: 0x3000000000000000\n\
         [MM] \u{2717} WARNING: Paging mode not enabled! Mode: 3\n\
         [MM] \u{2717} ERROR: Address translation failed for kernel text!\n\
         [MM] \u{2713} Kernel text VA: 0x1000\n\
         [MM] \u{2713} Address translation verification completed\n"
    );
    let img = image(0x1_0000, &[Part { flags: PF_R | PF_X, vaddr: 0x1_0000, memsz: 0x2000, data: vec![1] }]);
    let (ms, _, _) = MemorySet::from_elf(&img, SHARED, &mut alloc).unwrap();
    let first = ms.translate(0x1_0010).unwrap();
    let second = ms.translate(0x1_1000).unwrap();
    verify_address_translation(&mut console, 0, &ms, 0x1_0010, 0x1_1000);
    assert_eq!(
        String::from_utf8(console.take()).unwrap(),
        format!(
            "[MM] Current SATP: 0x0\n\
             [MM] \u{2717} WARNING: Paging mode not enabled! Mode: 0\n\
             [MM] \u{2713} Address translation: VA 0x10010 -> PA 0x{:x}\n\
             [MM] \u{2717} WARNING: Identical mapping mismatch!\n\
             [MM] \u{2713} Address translation: VA 0x11000 -> PA 0x{:x}\n\
             [MM] \u{2713} Kernel text VA: 0x10010\n\
             [MM] \u{2713} Address translation verification completed\n",
            first, second
        )
    );
}

#[test]
fn frames_are_taken_and_given_back() {
    let mut console = Console::new();
    let mut alloc = window(4);
    assert_eq!(
        chronos_kernel::mm::inspect::test(&mut console, &mut alloc),
        Some((PhysPageNum(0x81000), Some(PhysPageNum(0x81001))))
    );
    assert_eq!(
        String::from_utf8(console.take()).unwrap(),
        "  Frame allocated at PPN: 0x81000\n  Second frame allocated at PPN: 0x81001\n  Frames deallocated\n  \
         Free frames: 4 / 4\n  Heap allocation test: skipped (heap allocator initialized)\n"
    );
    assert_eq!(alloc.free_frames(), 4);
    let mut one = window(1);
    assert_eq!(chronos_kernel::mm::inspect::test(&mut console, &mut one), Some((PhysPageNum(0x81000), None)));
    assert_eq!(
        String::from_utf8(console.take()).unwrap(),
        "  Frame allocated at PPN: 0x81000\n  Frames deallocated\n  Free frames: 1 / 1\n  \
         Heap allocation test: skipped (heap allocator initialized)\n"
    );
    let mut none = window(0);
    assert_eq!(chronos_kernel::mm::inspect::test(&mut console, &mut none), None);
    assert_eq!(
        String::from_utf8(console.take()).unwrap(),
        "  Free frames: 0 / 0\n  Heap allocation test: skipped (heap allocator initialized)\n"
    );
}
