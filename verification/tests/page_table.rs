use chronos_kernel::mm::frame_allocator::BitmapFrameAllocator;
use chronos_kernel::mm::memory_layout::{PhysPageNum, VirtPageNum};
use chronos_kernel::mm::page_table::{MapError, PTEFlags, PageTable, PageTableEntry};

fn window(frames: u64) -> BitmapFrameAllocator {
    let mut a = BitmapFrameAllocator::new();
    a.init(0x8000_0000, 0x8000_0000 + frames * 4096);
    a
}

fn table(a: &mut BitmapFrameAllocator) -> PageTable {
    PageTable::new(a.alloc_frame().unwrap())
}

#[test]
fn flags_are_sets_of_bits() {
    let rw = PTEFlags(PTEFlags::R).union(PTEFlags(PTEFlags::W));
    assert_eq!(rw.bits(), 0x06);
    assert!(rw.contains(PTEFlags(PTEFlags::R)));
    assert!(!rw.contains(PTEFlags(PTEFlags::X)));
    assert!(rw.contains(PTEFlags::empty()));
    assert_eq!(PTEFlags::from_bits(0xff), Some(PTEFlags(0xff)));
    assert_eq!(PTEFlags::empty().bits(), 0);
}

#[test]
fn entry_packs_page_number_and_flags() {
    let e = PageTableEntry::new_with_ppn(PhysPageNum::new(0x80123), PTEFlags(0x0f));
    assert_eq!(e.bits, (0x80123 << 10) | 0x0f);
    assert_eq!(e.ppn(), PhysPageNum::new(0x80123));
    assert_eq!(e.flags(), PTEFlags(0x0f));
    assert!(e.is_valid());
    assert!(e.is_leaf());
    let branch = PageTableEntry::new_with_ppn(PhysPageNum::new(7), PTEFlags(PTEFlags::V));
    assert!(branch.is_valid());
    assert!(!branch.is_leaf());
    let mut cleared = e;
    cleared.clear();
    assert_eq!(cleared.bits, 0);
    assert!(!cleared.is_valid());
    assert!(!PageTableEntry::new().is_valid());
}

#[test]
fn entry_keeps_the_largest_page_number() {
    let top = PhysPageNum::new(0xfff_ffff_ffff);
    let e = PageTableEntry::new_with_ppn(top, PTEFlags(0x01));
    assert_eq!(e.ppn(), top);
    assert_eq!(e.flags(), PTEFlags(0x01));
}

#[test]
fn map_then_translate_then_unmap() {
    let mut a = window(16);
    let mut pt = table(&mut a);
    let v = VirtPageNum::new(0x10000);
    let p = PhysPageNum::new(0x9abcd);
    assert_eq!(pt.translate(v), None);
    assert_eq!(pt.map(v, p, PTEFlags(PTEFlags::R | PTEFlags::W), &mut a), Ok(()));
    assert_eq!(pt.translate(v), Some((p, PTEFlags(PTEFlags::R | PTEFlags::W | PTEFlags::V))));
    assert_eq!(pt.unmap(v), Ok(p));
    assert_eq!(pt.translate(v), None);
}

#[test]
fn map_makes_the_tables_on_the_way() {
    let mut a = window(16);
    let mut pt = table(&mut a);
    assert_eq!(pt.frame_count(), 1);
    assert_eq!(a.free_frames(), 15);
    pt.map(VirtPageNum::new(0), PhysPageNum::new(1), PTEFlags(0x02), &mut a).unwrap();
    assert_eq!(pt.frame_count(), 3);
    assert_eq!(a.free_frames(), 13);
    // the same last-level table
    pt.map(VirtPageNum::new(1), PhysPageNum::new(2), PTEFlags(0x02), &mut a).unwrap();
    assert_eq!(pt.frame_count(), 3);
    // another last-level table under the same second-level table
    pt.map(VirtPageNum::new(512), PhysPageNum::new(3), PTEFlags(0x02), &mut a).unwrap();
    assert_eq!(pt.frame_count(), 4);
    // another second-level table
    pt.map(VirtPageNum::new(1 << 18), PhysPageNum::new(4), PTEFlags(0x02), &mut a).unwrap();
    assert_eq!(pt.frame_count(), 6);
    assert_eq!(a.free_frames(), 10);
    assert_eq!(pt.translate(VirtPageNum::new(0)).unwrap().0, PhysPageNum::new(1));
    assert_eq!(pt.translate(VirtPageNum::new(1)).unwrap().0, PhysPageNum::new(2));
    assert_eq!(pt.translate(VirtPageNum::new(512)).unwrap().0, PhysPageNum::new(3));
    assert_eq!(pt.translate(VirtPageNum::new(1 << 18)).unwrap().0, PhysPageNum::new(4));
    assert_eq!(pt.translate(VirtPageNum::new(2)), None);
}

#[test]
fn map_twice_is_refused() {
    let mut a = window(16);
    let mut pt = table(&mut a);
    let v = VirtPageNum::new(42);
    pt.map(v, PhysPageNum::new(1), PTEFlags(0x02), &mut a).unwrap();
    assert_eq!(
        pt.map(v, PhysPageNum::new(2), PTEFlags(0x04), &mut a),
        Err(MapError::AlreadyMapped)
    );
    assert_eq!(pt.translate(v), Some((PhysPageNum::new(1), PTEFlags(0x03))));
}

#[test]
fn unmap_of_an_unmapped_page_is_refused() {
    let mut a = window(16);
    let mut pt = table(&mut a);
    assert_eq!(pt.unmap(VirtPageNum::new(5)), Err(MapError::NotMapped));
    pt.map(VirtPageNum::new(5), PhysPageNum::new(1), PTEFlags(0x02), &mut a).unwrap();
    // same tables, other entry
    assert_eq!(pt.unmap(VirtPageNum::new(6)), Err(MapError::NotMapped));
    assert_eq!(pt.unmap(VirtPageNum::new(5)), Ok(PhysPageNum::new(1)));
    assert_eq!(pt.unmap(VirtPageNum::new(5)), Err(MapError::NotMapped));
}

#[test]
fn map_without_memory_is_refused() {
    let mut a = window(2);
    let mut pt = table(&mut a);
    // two tables are missing, one frame is free
    assert_eq!(
        pt.map(VirtPageNum::new(0), PhysPageNum::new(1), PTEFlags(0x02), &mut a),
        Err(MapError::OutOfMemory)
    );
    assert_eq!(pt.translate(VirtPageNum::new(0)), None);
    assert_eq!(a.free_frames(), 0);
    assert_eq!(pt.frame_count(), 2);
}

#[test]
fn reserve_makes_tables_and_maps_nothing() {
    let mut a = window(16);
    let mut pt = table(&mut a);
    assert_eq!(pt.reserve(VirtPageNum::new(7), &mut a), Ok(()));
    assert_eq!(pt.frame_count(), 3);
    assert_eq!(pt.translate(VirtPageNum::new(7)), None);
    assert_eq!(pt.reserve(VirtPageNum::new(7), &mut a), Ok(()));
    assert_eq!(pt.frame_count(), 3);
}

#[test]
fn the_last_page_of_the_address_space() {
    let mut a = window(16);
    let mut pt = table(&mut a);
    let top = VirtPageNum::from_addr(0xFFFF_FFFF_FFFF_F000);
    assert_eq!(top.indexes(), [511, 511, 511]);
    pt.map(top, PhysPageNum::new(0x80200), PTEFlags(0x0a), &mut a).unwrap();
    assert_eq!(pt.translate(top), Some((PhysPageNum::new(0x80200), PTEFlags(0x0b))));
    // the page below it is another page
    let below = VirtPageNum::from_addr(0xFFFF_FFFF_FFFF_E000);
    assert_eq!(pt.translate(below), None);
}

#[test]
fn set_flags_keeps_the_page() {
    let mut a = window(16);
    let mut pt = table(&mut a);
    let v = VirtPageNum::new(9);
    assert_eq!(pt.set_flags(v, PTEFlags(0x0e)), Err(MapError::NotMapped));
    pt.map(v, PhysPageNum::new(0x77), PTEFlags(0x02), &mut a).unwrap();
    assert_eq!(pt.set_flags(v, PTEFlags(0x1a)), Ok(()));
    assert_eq!(pt.translate(v), Some((PhysPageNum::new(0x77), PTEFlags(0x1b))));
}

#[test]
fn clear_and_dealloc_intermediate() {
    let mut a = window(16);
    let mut pt = table(&mut a);
    let root = pt.as_ppn();
    pt.map(VirtPageNum::new(3), PhysPageNum::new(1), PTEFlags(0x02), &mut a).unwrap();
    pt.map(VirtPageNum::new(1 << 18), PhysPageNum::new(2), PTEFlags(0x02), &mut a).unwrap();
    assert_eq!(pt.frame_count(), 5);
    assert!(pt.entry(0).is_valid());
    assert!(!pt.entry(2).is_valid());
    pt.dealloc_intermediate(&mut a);
    assert_eq!(pt.frame_count(), 1);
    assert_eq!(pt.as_ppn(), root);
    assert_eq!(a.free_frames(), 15);
    assert_eq!(pt.translate(VirtPageNum::new(3)), None);
    assert!(!pt.entry(0).is_valid());
    pt.map(VirtPageNum::new(3), PhysPageNum::new(1), PTEFlags(0x02), &mut a).unwrap();
    pt.clear();
    assert_eq!(pt.translate(VirtPageNum::new(3)), None);
    assert_eq!(pt.frame_count(), 3);
}

#[test]
fn error_messages() {
    assert_eq!(MapError::OutOfMemory.message(), "Out of memory");
    assert_eq!(MapError::AlreadyMapped.message(), "Page already mapped");
    assert_eq!(MapError::NotMapped.message(), "Page not mapped");
    assert_eq!(MapError::LeafInPath.message(), "Encountered leaf PTE in intermediate level");
}
