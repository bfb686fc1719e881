use chronos_kernel::mm::memory_layout::{
    align_down, align_up, pa_to_ppn, page_offset, ppn_to_pa, va_to_vpn, vpn_to_va, PhysAddr,
    PhysPageNum, VirtAddr, VirtPageNum,
};

#[test]
fn page_numbers_and_offsets() {
    assert_eq!(pa_to_ppn(0x8020_1234), 0x80201);
    assert_eq!(ppn_to_pa(0x80201), 0x8020_1000);
    assert_eq!(va_to_vpn(0x1000_0fff), 0x10000);
    assert_eq!(vpn_to_va(0x10000), 0x1000_0000);
    assert_eq!(page_offset(0x8020_1234), 0x234);
}

#[test]
fn alignment() {
    assert_eq!(align_up(0x1001), 0x2000);
    assert_eq!(align_up(0x1000), 0x1000);
    assert_eq!(align_up(0), 0);
    assert_eq!(align_down(0x1fff), 0x1000);
    assert_eq!(align_down(0x1000), 0x1000);
}

#[test]
fn sv39_indexes() {
    let vpn = VirtPageNum::new((5 << 18) | (7 << 9) | 11);
    assert_eq!(vpn.indexes(), [5, 7, 11]);
    let top = VirtAddr::new(0xFFFF_FFFF_FFFF_F000).page_number();
    assert_eq!(top.indexes(), [511, 511, 511]);
    assert_eq!(VirtPageNum::new(0).indexes(), [0, 0, 0]);
}

#[test]
fn address_types() {
    let pa = PhysAddr::new(0x8020_1234);
    assert_eq!(pa.page_number(), PhysPageNum::new(0x80201));
    assert_eq!(pa.page_offset(), 0x234);
    assert!(!pa.aligned());
    assert!(PhysAddr::new(0x8020_1000).aligned());
    assert_eq!(PhysPageNum::new(0x80201).addr(), PhysAddr::new(0x8020_1000));
    assert_eq!(VirtPageNum::from_addr(0x1000_0fff).as_usize(), 0x10000);
    assert_eq!(VirtPageNum::new(3).addr().as_usize(), 0x3000);
}
