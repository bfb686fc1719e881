use chronos_kernel::mm::frame_allocator::BitmapFrameAllocator;
use chronos_kernel::mm::memory_layout::{PhysPageNum, VirtPageNum};
use chronos_kernel::mm::memory_set::{
    FrameTracker, MapArea, MapPermission, MapType, MemorySet, VPNRange,
};
use chronos_kernel::mm::page_table::{MapError, PTEFlags, PageTable};

fn window(frames: u64) -> BitmapFrameAllocator {
    let mut a = BitmapFrameAllocator::new();
    a.init(0x8000_0000, 0x8000_0000 + frames * 4096);
    a
}

#[test]
fn permissions_are_sets_of_bits() {
    let rw = MapPermission(MapPermission::R).union(MapPermission(MapPermission::W));
    assert_eq!(rw.bits(), 0x06);
    assert!(rw.contains(MapPermission(MapPermission::W)));
    assert!(!rw.contains(MapPermission(MapPermission::U)));
    assert_eq!(MapPermission::from_bits(0x1e), Some(MapPermission(0x1e)));
    assert_eq!(MapPermission::from_bits(0x01), None);
    assert_eq!(MapPermission::from_bits(0x20), None);
    assert_eq!(MapPermission::empty().bits(), 0);
}

#[test]
fn range_hands_out_its_pages() {
    let mut r = VPNRange::new(VirtPageNum::new(5), VirtPageNum::new(7));
    assert_eq!(r.start(), VirtPageNum::new(5));
    assert_eq!(r.end(), VirtPageNum::new(7));
    assert_eq!(r.next(), Some(VirtPageNum::new(5)));
    assert_eq!(r.next(), Some(VirtPageNum::new(6)));
    assert_eq!(r.next(), None);
    assert_eq!(r.next(), None);
}

#[test]
fn frame_tracker_holds_zeroes() {
    let f = FrameTracker::new(PhysPageNum::new(0x80000));
    assert_eq!(f.ppn, PhysPageNum::new(0x80000));
    assert_eq!(f.data.len(), 4096);
    assert!(f.data.iter().all(|b| *b == 0));
}

#[test]
fn area_covers_the_pages_of_its_addresses() {
    let a = MapArea::new(0x1_0078, 0x1_2000, MapType::Framed, MapPermission(0x12));
    assert_eq!(a.vpn_range().start(), VirtPageNum::new(0x10));
    assert_eq!(a.vpn_range().end(), VirtPageNum::new(0x12));
    assert_eq!(a.start_va(), 0x1_0000);
    assert_eq!(a.end_va(), 0x1_2000);
    assert_eq!(a.first_address(), 0x1_0078);
    assert_eq!(a.map_type(), MapType::Framed);
    assert_eq!(a.map_perm(), MapPermission(0x12));
    assert_eq!(a.mapped_pages(), 0);
    assert!(a.range_valid());
}

#[test]
fn area_maps_and_unmaps_page_by_page() {
    let mut alloc = window(16);
    let mut pt = PageTable::new(alloc.alloc_frame().unwrap());
    let mut area = MapArea::new(0x1000, 0x3000, MapType::Framed, MapPermission(0x16));
    // the second page first
    assert_eq!(area.map_one(&mut pt, VirtPageNum::new(2), &mut alloc), Ok(()));
    assert_eq!(area.mapped_pages(), 0);
    assert_eq!(area.map_one(&mut pt, VirtPageNum::new(1), &mut alloc), Ok(()));
    assert_eq!(area.mapped_pages(), 1);
    assert_eq!(
        area.map_one(&mut pt, VirtPageNum::new(2), &mut alloc),
        Err(MapError::AlreadyMapped)
    );
    // a page number that no address has
    assert_eq!(
        area.map_one(&mut pt, VirtPageNum::new(1 << 30), &mut alloc),
        Err(MapError::OutOfRange)
    );
    let (frame_one, flags_one) = pt.translate(VirtPageNum::new(1)).unwrap();
    let (frame_two, flags_two) = pt.translate(VirtPageNum::new(2)).unwrap();
    assert_ne!(frame_one, frame_two);
    assert_eq!(flags_one, PTEFlags(0x17));
    assert_eq!(flags_two, PTEFlags(0x17));
    assert!(alloc.is_used(frame_one) && alloc.is_used(frame_two));
    // root, two tables, two pages
    assert_eq!(alloc.free_frames(), 11);
    // the first page first
    assert_eq!(area.unmap_one(&mut pt, VirtPageNum::new(1), &mut alloc), Ok(()));
    assert_eq!(pt.translate(VirtPageNum::new(1)), None);
    assert!(!alloc.is_used(frame_one));
    assert_eq!(pt.translate(VirtPageNum::new(2)).unwrap().0, frame_two);
    assert_eq!(
        area.unmap_one(&mut pt, VirtPageNum::new(1), &mut alloc),
        Err(MapError::OutOfRange)
    );
    assert_eq!(area.unmap_one(&mut pt, VirtPageNum::new(2), &mut alloc), Ok(()));
    assert_eq!(pt.translate(VirtPageNum::new(2)), None);
    assert!(!alloc.is_used(frame_two));
    assert_eq!(area.unmap(&mut pt, &mut alloc), Ok(()));
    assert_eq!(area.mapped_pages(), 0);
    assert_eq!(alloc.free_frames(), 13);
}

#[test]
fn a_page_in_the_middle_of_an_area_is_unmapped() {
    let mut alloc = window(16);
    let mut pt = PageTable::new(alloc.alloc_frame().unwrap());
    let mut area = MapArea::new(0x1000, 0x5000, MapType::Framed, MapPermission(0x16));
    assert_eq!(area.map(&mut pt, &mut alloc), Ok(()));
    assert_eq!(area.mapped_pages(), 4);
    assert_eq!(alloc.free_frames(), 9);
    let frames: Vec<_> = (1..5u64).map(|v| pt.translate(VirtPageNum::new(v)).unwrap().0).collect();
    assert_eq!(area.unmap_one(&mut pt, VirtPageNum::new(2), &mut alloc), Ok(()));
    assert_eq!(pt.translate(VirtPageNum::new(2)), None);
    assert!(!alloc.is_used(frames[1]));
    // the other pages stay mapped to their frames
    for v in [1u64, 3, 4] {
        assert_eq!(pt.translate(VirtPageNum::new(v)).unwrap().0, frames[v as usize - 1]);
        assert!(alloc.is_used(frames[v as usize - 1]));
    }
    assert_eq!(area.mapped_pages(), 1);
    assert_eq!(alloc.free_frames(), 10);
    // the page can be mapped again, and the others unmapped in any order
    assert_eq!(area.map_one(&mut pt, VirtPageNum::new(2), &mut alloc), Ok(()));
    assert_eq!(area.mapped_pages(), 2);
    assert_eq!(area.unmap_one(&mut pt, VirtPageNum::new(4), &mut alloc), Ok(()));
    assert_eq!(area.unmap_one(&mut pt, VirtPageNum::new(1), &mut alloc), Ok(()));
    assert_eq!(area.unmap_one(&mut pt, VirtPageNum::new(3), &mut alloc), Ok(()));
    assert_eq!(area.unmap_one(&mut pt, VirtPageNum::new(2), &mut alloc), Ok(()));
    assert_eq!(area.unmap_one(&mut pt, VirtPageNum::new(2), &mut alloc), Err(MapError::OutOfRange));
    for v in 1..5u64 {
        assert_eq!(pt.translate(VirtPageNum::new(v)), None);
    }
    // the root and two tables are left
    assert_eq!(alloc.free_frames(), 13);
}

#[test]
fn identical_area_maps_any_of_its_pages() {
    let mut alloc = window(16);
    let mut pt = PageTable::new(alloc.alloc_frame().unwrap());
    let mut area = MapArea::new(0x8000_0000, 0x8000_4000, MapType::Identical, MapPermission(0x06));
    assert_eq!(area.map_one(&mut pt, VirtPageNum::new(0x80002), &mut alloc), Ok(()));
    assert_eq!(
        pt.translate(VirtPageNum::new(0x80002)),
        Some((PhysPageNum(0x80002), PTEFlags(0x07)))
    );
    // two tables and no frame for the page
    assert_eq!(alloc.free_frames(), 13);
    assert_eq!(area.map_one(&mut pt, VirtPageNum::new(0x80000), &mut alloc), Ok(()));
    assert_eq!(area.mapped_pages(), 1);
    assert_eq!(alloc.free_frames(), 13);
    assert_eq!(area.unmap_one(&mut pt, VirtPageNum::new(0x80002), &mut alloc), Ok(()));
    assert_eq!(pt.translate(VirtPageNum::new(0x80002)), None);
    assert_eq!(
        pt.translate(VirtPageNum::new(0x80000)),
        Some((PhysPageNum(0x80000), PTEFlags(0x07)))
    );
    area.release(&mut alloc);
    assert_eq!(alloc.free_frames(), 13);
}

#[test]
fn release_gives_back_the_frames_of_pages_mapped_out_of_order() {
    let mut alloc = window(16);
    let mut pt = PageTable::new(alloc.alloc_frame().unwrap());
    let mut area = MapArea::new(0x1000, 0x5000, MapType::Framed, MapPermission(0x16));
    assert_eq!(area.map_one(&mut pt, VirtPageNum::new(3), &mut alloc), Ok(()));
    assert_eq!(area.map_one(&mut pt, VirtPageNum::new(1), &mut alloc), Ok(()));
    assert_eq!(alloc.free_frames(), 11);
    area.release(&mut alloc);
    assert_eq!(alloc.free_frames(), 13);
}

#[test]
fn identical_area_maps_pages_to_their_own_numbers() {
    let mut alloc = window(16);
    let mut pt = PageTable::new(alloc.alloc_frame().unwrap());
    let mut area = MapArea::new(0x8020_0000, 0x8020_3000, MapType::Identical, MapPermission(0x0a));
    assert_eq!(area.map(&mut pt, &mut alloc), Ok(()));
    assert_eq!(area.mapped_pages(), 3);
    for v in 0x80200..0x80203u64 {
        assert_eq!(
            pt.translate(VirtPageNum::new(v)),
            Some((PhysPageNum::new(v), PTEFlags(0x0b)))
        );
    }
    // no frame for the pages themselves
    assert_eq!(alloc.free_frames(), 13);
}

#[test]
fn area_with_a_range_that_cannot_be_mapped() {
    let mut alloc = window(16);
    let mut pt = PageTable::new(alloc.alloc_frame().unwrap());
    // between the two halves of the address space
    let mut area = MapArea::new(0x40_0000_0000, 0x40_0000_2000, MapType::Framed, MapPermission(6));
    assert!(!area.range_valid());
    assert_eq!(area.map(&mut pt, &mut alloc), Err(MapError::OutOfRange));
    // identical mapping in the upper half
    let mut high = MapArea::new(
        0xFFFF_FFFF_FFFF_0000,
        0xFFFF_FFFF_FFFF_2000,
        MapType::Identical,
        MapPermission(6),
    );
    assert_eq!(high.map(&mut pt, &mut alloc), Err(MapError::OutOfRange));
    // an empty range is mapped at once
    let mut empty = MapArea::new(0x5000, 0x3000, MapType::Framed, MapPermission(6));
    assert_eq!(empty.map(&mut pt, &mut alloc), Ok(()));
    assert_eq!(empty.mapped_pages(), 0);
    assert_eq!(alloc.free_frames(), 15);
}

#[test]
fn copy_data_begins_at_the_address_of_the_area() {
    let mut alloc = window(16);
    let mut pt = PageTable::new(alloc.alloc_frame().unwrap());
    let mut area = MapArea::new(0x1_0ffe, 0x1_2000, MapType::Framed, MapPermission(0x12));
    area.map(&mut pt, &mut alloc).unwrap();
    assert_eq!(area.copy_data(&[1, 2, 3, 4]), Ok(()));
    assert_eq!(area.get_byte(0, 0xffd), 0);
    assert_eq!(area.get_byte(0, 0xffe), 1);
    assert_eq!(area.get_byte(0, 0xfff), 2);
    assert_eq!(area.get_byte(1, 0), 3);
    assert_eq!(area.get_byte(1, 1), 4);
    assert_eq!(area.get_byte(1, 2), 0);
    // one byte too many
    let big = vec![7u8; 2 * 4096 - 0xffe + 1];
    assert_eq!(area.copy_data(&big), Err(MapError::OutOfRange));
    assert_eq!(area.get_byte(0, 0xffe), 1);
    let fits = vec![9u8; 2 * 4096 - 0xffe];
    assert_eq!(area.copy_data(&fits), Ok(()));
    assert_eq!(area.get_byte(1, 4095), 9);
    let mut identical = MapArea::new(0x3000, 0x4000, MapType::Identical, MapPermission(6));
    identical.map(&mut pt, &mut alloc).unwrap();
    assert_eq!(identical.copy_data(&[1]), Err(MapError::OutOfRange));
}

#[test]
fn bare_address_space() {
    let mut alloc = window(16);
    let ms = MemorySet::new_bare(&mut alloc).unwrap();
    assert_eq!(alloc.free_frames(), 15);
    assert_eq!(ms.areas().len(), 0);
    assert_eq!(ms.translate(0x1000), None);
    assert_eq!(ms.token(), (8u64 << 60) | 0x80000);
    assert_eq!(ms.trampoline(), None);
    let mut full = window(0);
    assert!(MemorySet::new_bare(&mut full).is_none());
}

#[test]
fn push_maps_the_region_and_copies_the_data() {
    let mut alloc = window(32);
    let mut ms = MemorySet::new_bare(&mut alloc).unwrap();
    let area = MapArea::new(0x1_0078, 0x1_2000, MapType::Framed, MapPermission(0x1a));
    assert_eq!(ms.push(area, Some(&[0xaa, 0xbb, 0xcc]), &mut alloc), Ok(()));
    assert_eq!(ms.areas().len(), 1);
    let (ppn, flags) = ms.page_table().translate(VirtPageNum::new(0x10)).unwrap();
    assert_eq!(flags, PTEFlags(0x1b));
    assert_eq!(ms.translate(0x1_0078), Some(ppn.0 * 4096 + 0x78));
    assert_eq!(ms.read_byte(0x1_0077), Some(0));
    assert_eq!(ms.read_byte(0x1_0078), Some(0xaa));
    assert_eq!(ms.read_byte(0x1_007a), Some(0xcc));
    assert_eq!(ms.read_byte(0x1_007b), Some(0));
    assert_eq!(ms.read_byte(0x1_1fff), Some(0));
    assert_eq!(ms.read_byte(0x1_2000), None);
    assert_eq!(ms.read_byte(0xffff), None);
}

#[test]
fn push_over_a_mapped_page_leaves_the_address_space_as_it_was() {
    let mut alloc = window(32);
    let mut ms = MemorySet::new_bare(&mut alloc).unwrap();
    ms.push(MapArea::new(0x3000, 0x4000, MapType::Framed, MapPermission(6)), None, &mut alloc)
        .unwrap();
    let in_use = alloc.total_frames() - alloc.free_frames();
    let frame = ms.page_table().translate(VirtPageNum::new(3)).unwrap().0;
    let clash = MapArea::new(0x1000, 0x5000, MapType::Framed, MapPermission(6));
    assert_eq!(ms.push(clash, None, &mut alloc), Err(MapError::AlreadyMapped));
    assert_eq!(ms.areas().len(), 1);
    assert_eq!(ms.page_table().translate(VirtPageNum::new(1)), None);
    assert_eq!(ms.page_table().translate(VirtPageNum::new(2)), None);
    assert_eq!(ms.page_table().translate(VirtPageNum::new(3)).unwrap().0, frame);
    assert_eq!(alloc.total_frames() - alloc.free_frames(), in_use);
}

#[test]
fn push_without_memory_gives_the_pages_back() {
    let mut alloc = window(6);
    let mut ms = MemorySet::new_bare(&mut alloc).unwrap();
    // root + 2 tables + 3 pages fit, the fourth page does not
    let area = MapArea::new(0x1000, 0x5000, MapType::Framed, MapPermission(6));
    assert_eq!(ms.push(area, None, &mut alloc), Err(MapError::OutOfMemory));
    assert_eq!(ms.areas().len(), 0);
    assert_eq!(ms.page_table().translate(VirtPageNum::new(1)), None);
    // the tables stay, the pages are free again
    assert_eq!(alloc.free_frames(), 3);
    let small = MapArea::new(0x1000, 0x4000, MapType::Framed, MapPermission(6));
    assert_eq!(ms.push(small, None, &mut alloc), Ok(()));
    assert_eq!(alloc.free_frames(), 0);
}

#[test]
fn push_refuses_data_that_does_not_fit() {
    let mut alloc = window(16);
    let mut ms = MemorySet::new_bare(&mut alloc).unwrap();
    let area = MapArea::new(0x1000, 0x2000, MapType::Framed, MapPermission(6));
    let data = vec![1u8; 4097];
    assert_eq!(ms.push(area, Some(&data), &mut alloc), Err(MapError::OutOfRange));
    assert_eq!(alloc.free_frames(), 15);
    let identical = MapArea::new(0x1000, 0x2000, MapType::Identical, MapPermission(6));
    assert_eq!(ms.push(identical, Some(&[1]), &mut alloc), Err(MapError::OutOfRange));
}

#[test]
fn every_page_of_a_region_translates_to_its_frame() {
    let mut alloc = window(64);
    let mut ms = MemorySet::new_bare(&mut alloc).unwrap();
    ms.push(MapArea::new(0x10_0000, 0x10_8000, MapType::Framed, MapPermission(0x16)), None, &mut alloc)
        .unwrap();
    ms.push(
        MapArea::new(0x8020_0000, 0x8020_4000, MapType::Identical, MapPermission(0x0a)),
        None,
        &mut alloc,
    )
    .unwrap();
    let mut frames = Vec::new();
    for v in 0x100..0x108u64 {
        let (ppn, flags) = ms.page_table().translate(VirtPageNum::new(v)).unwrap();
        assert!(flags.contains(PTEFlags(0x17)));
        assert!(alloc.is_used(ppn));
        assert!(!frames.contains(&ppn));
        frames.push(ppn);
    }
    for v in 0x80200..0x80204u64 {
        let (ppn, flags) = ms.page_table().translate(VirtPageNum::new(v)).unwrap();
        assert_eq!(ppn.0, v);
        assert!(flags.contains(PTEFlags(0x0b)));
    }
}

#[test]
fn remove_area_unmaps_and_frees() {
    let mut alloc = window(64);
    let mut ms = MemorySet::new_bare(&mut alloc).unwrap();
    ms.push(MapArea::new(0x1000, 0x3000, MapType::Framed, MapPermission(6)), None, &mut alloc)
        .unwrap();
    ms.push(MapArea::new(0x5000, 0x6000, MapType::Framed, MapPermission(6)), None, &mut alloc)
        .unwrap();
    let free = alloc.free_frames();
    assert_eq!(ms.remove_area(2, &mut alloc), Err(MapError::OutOfRange));
    assert_eq!(ms.remove_area(0, &mut alloc), Ok(()));
    assert_eq!(alloc.free_frames(), free + 2);
    assert_eq!(ms.areas().len(), 1);
    assert_eq!(ms.page_table().translate(VirtPageNum::new(1)), None);
    assert_eq!(ms.page_table().translate(VirtPageNum::new(2)), None);
    assert!(ms.page_table().translate(VirtPageNum::new(5)).is_some());
    assert_eq!(ms.areas()[0].vpn_range().start(), VirtPageNum::new(5));
}

#[test]
fn release_gives_back_exactly_what_the_address_space_owned() {
    let mut alloc = window(64);
    let _other = alloc.alloc_frame().unwrap();
    let before = alloc.free_frames();
    let mut ms = MemorySet::new_bare(&mut alloc).unwrap();
    ms.map_trampoline(PhysPageNum::new(0x80200), &mut alloc).unwrap();
    ms.push(MapArea::new(0x1000, 0x4000, MapType::Framed, MapPermission(6)), None, &mut alloc)
        .unwrap();
    ms.push(
        MapArea::new(0x4000_0000, 0x4000_2000, MapType::Framed, MapPermission(6)),
        None,
        &mut alloc,
    )
    .unwrap();
    // root, 2 tables for the trampoline, 2 + 2 tables for the regions, 5 pages
    let owned = 1 + 2 + 2 + 2 + 5;
    assert_eq!(alloc.free_frames(), before - owned);
    ms.release(&mut alloc);
    assert_eq!(alloc.free_frames(), before);
    assert!(alloc.is_used(PhysPageNum::new(0x80000)));
}

#[test]
fn trampoline_is_mapped_once() {
    let mut alloc = window(16);
    let mut ms = MemorySet::new_bare(&mut alloc).unwrap();
    assert_eq!(ms.map_trampoline(PhysPageNum::new(0x80200), &mut alloc), Ok(()));
    assert_eq!(ms.trampoline(), Some(PhysPageNum::new(0x80200)));
    assert_eq!(
        ms.page_table().translate(VirtPageNum::from_addr(0xFFFF_FFFF_FFFF_F000)),
        Some((PhysPageNum::new(0x80200), PTEFlags(0x0b)))
    );
    assert_eq!(
        ms.map_trampoline(PhysPageNum::new(0x80300), &mut alloc),
        Err(MapError::AlreadyMapped)
    );
    assert_eq!(ms.trampoline(), Some(PhysPageNum::new(0x80200)));
}

#[test]
fn merge_permission_adds_flags() {
    let mut alloc = window(16);
    let mut ms = MemorySet::new_bare(&mut alloc).unwrap();
    ms.push(MapArea::new(0x1000, 0x2000, MapType::Framed, MapPermission(0x12)), None, &mut alloc)
        .unwrap();
    let (ppn, _) = ms.page_table().translate(VirtPageNum::new(1)).unwrap();
    assert_eq!(
        ms.merge_permission(VirtPageNum::new(1), MapPermission(0x04), &alloc),
        Ok(())
    );
    assert_eq!(ms.page_table().translate(VirtPageNum::new(1)), Some((ppn, PTEFlags(0x17))));
    assert_eq!(
        ms.merge_permission(VirtPageNum::new(2), MapPermission(0x04), &alloc),
        Err(MapError::NotMapped)
    );
}

#[test]
fn bytes_are_written_and_read_across_pages() {
    let mut alloc = window(32);
    let mut ms = MemorySet::new_bare(&mut alloc).unwrap();
    ms.push(MapArea::new(0x1000, 0x3000, MapType::Framed, MapPermission(0x16)), None, &mut alloc)
        .unwrap();
    let data: Vec<u8> = (0..200u32).map(|i| (i % 251) as u8 + 1).collect();
    assert!(ms.write_bytes(0x1000 + 4000, &data));
    assert_eq!(ms.read_bytes(0x1000 + 4000, 200), Some(data.clone()));
    assert_eq!(ms.read_byte(0x1000 + 3999), Some(0));
    assert_eq!(ms.read_byte(0x2000), Some(data[96]));
    // one byte beyond the region: nothing is written
    let long = vec![0xffu8; 0x2000 - 4000 + 1];
    assert!(!ms.write_bytes(0x1000 + 4000, &long));
    assert_eq!(ms.read_bytes(0x1000 + 4000, 200), Some(data));
    assert_eq!(ms.read_bytes(0x2fff, 2), None);
    assert_eq!(ms.read_bytes(0x2fff, 1), Some(vec![0]));
    assert!(ms.write_byte(0x2fff, 5));
    assert!(!ms.write_byte(0x3000, 5));
    assert_eq!(ms.read_byte(0x2fff), Some(5));
    assert!(!ms.write_bytes(u64::MAX, &[1, 2]));
    assert_eq!(ms.read_bytes(u64::MAX, 2), None);
}

#[test]
fn push_succeeds_with_the_frames_that_pages_and_tables_need() {
    // two pages and two tables
    let mut alloc = window(5);
    let mut ms = MemorySet::new_bare(&mut alloc).unwrap();
    assert_eq!(alloc.free_frames(), 4);
    let area = MapArea::new(0x1_0000, 0x1_2000, MapType::Framed, MapPermission(0x16));
    assert_eq!(ms.push(area, None, &mut alloc), Ok(()));
    assert_eq!(alloc.free_frames(), 0);
    assert_eq!(
        ms.page_table().translate(VirtPageNum::new(0x10)).unwrap().1,
        PTEFlags(0x17)
    );
    // one frame less is not enough, and the pages that were mapped are unmapped again
    let mut alloc = window(4);
    let mut ms = MemorySet::new_bare(&mut alloc).unwrap();
    let area = MapArea::new(0x1_0000, 0x1_2000, MapType::Framed, MapPermission(0x16));
    assert_eq!(ms.push(area, None, &mut alloc), Err(MapError::OutOfMemory));
    assert_eq!(ms.page_table().translate(VirtPageNum::new(0x10)), None);
    assert_eq!(ms.areas().len(), 0);
    // the pages of an identical region take no frame
    let mut alloc = window(3);
    let mut ms = MemorySet::new_bare(&mut alloc).unwrap();
    let area = MapArea::new(0x8000_0000, 0x8010_0000, MapType::Identical, MapPermission(0x06));
    assert_eq!(ms.push(area, None, &mut alloc), Ok(()));
    assert_eq!(alloc.free_frames(), 0);
}

#[test]
fn permissions_never_reach_the_trampoline_page() {
    let mut alloc = window(8);
    let mut ms = MemorySet::new_bare(&mut alloc).unwrap();
    assert_eq!(ms.map_trampoline(PhysPageNum(0x80201), &mut alloc), Ok(()));
    let top = VirtPageNum::new(0xF_FFFF_FFFF_FFFF);
    assert_eq!(
        ms.merge_permission(top, MapPermission(0x16), &alloc),
        Err(MapError::OutOfRange)
    );
    assert_eq!(ms.page_table().translate(top), Some((PhysPageNum(0x80201), PTEFlags(0x0b))));
    assert_eq!(
        ms.merge_permission(VirtPageNum::new(5), MapPermission(0x16), &alloc),
        Err(MapError::NotMapped)
    );
}
