use kernel_mm::address::{
    Address, AddressL3, AddressX64, Frame, Page, PageWithL3, PhysAddr, VirtAddr, VirtAddrSv39,
};

#[test]
fn canonical_virtual_addresses_read_back() {
    for v in [0u64, 0x3f_ffff_ffff, 0xffff_ffc0_0000_0000, u64::MAX, 0x8020_0000] {
        let a = VirtAddr::new_u64(v);
        assert_eq!(a.as_u64(), v);
        assert_eq!(VirtAddrSv39::try_new_u64(v).map(|a| a.as_u64()), Some(v));
    }
}

#[test]
fn non_canonical_virtual_addresses_are_refused() {
    for v in [0x40_0000_0000u64, 0x80_0000_0000, 0xffff_ffc0_0000_0000 ^ (1 << 38), 1 << 63] {
        assert!(VirtAddrSv39::try_new_u64(v).is_none());
    }
}

#[test]
fn virtual_address_fields() {
    let a = VirtAddr::new(0x12_3456_789a);
    assert_eq!(a.page_offset(), 0x89a);
    assert_eq!(a.page_number(), 0x123_4567);
    assert_eq!(a.to_4k_aligned().as_u64(), 0x12_3456_7000);
    assert_eq!(a.p3_index(), 0x48);
    assert_eq!(a.p2_index(), 0x1a2);
    assert_eq!(a.p1_index(), 0x167);
}

#[test]
fn page_table_indices_round_trip() {
    for (p3, p2, p1, off) in [(0usize, 0usize, 0usize, 0usize), (511, 511, 511, 4095), (256, 1, 2, 3), (255, 7, 9, 100)] {
        let a = VirtAddr::from_page_table_indices(p3, p2, p1, off);
        assert_eq!((a.p3_index(), a.p2_index(), a.p1_index(), a.page_offset()), (p3, p2, p1, off));
    }
    // index 256 at level 3 sets bit 38, so the high bits are filled with ones
    let a = VirtAddr::from_page_table_indices(256, 0, 0, 0);
    assert_eq!(a.as_u64(), 0xffff_ffc0_0000_0000);
}

#[test]
fn pages_from_indices() {
    let p = Page::from_page_table_indices(1, 2, 3);
    assert_eq!(p.start_address().as_u64(), (1 << 30) | (2 << 21) | (3 << 12));
    assert_eq!((p.p3_index(), p.p2_index(), p.p1_index()), (1, 2, 3));
}

#[test]
fn physical_address_fields() {
    let a = PhysAddr::new_u64(0x8020_1234);
    assert_eq!(a.page_number(), 0x80201);
    assert_eq!(a.page_offset(), 0x234);
    assert_eq!(a.to_4k_aligned().as_usize(), 0x8020_1000);
}

#[test]
fn pages_and_frames() {
    let p = Page::of_addr(VirtAddr::new(0x1234_5678));
    assert_eq!(p.start_address().as_usize(), 0x1234_5000);
    assert_eq!(p.number(), 0x12345);
    assert_eq!(Page::of_vpn(0x12345), p);
    let f = Frame::of_ppn(0x80400);
    assert_eq!(f.start_address().as_u64(), 0x8040_0000);
    assert_eq!(f.number(), 0x80400);
    assert_eq!(Frame::of_addr(PhysAddr::new(0x8040_0fff)), f);
}
