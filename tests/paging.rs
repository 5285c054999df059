use kernel_mm::address::{Frame, Page, VirtAddr, Address};
use kernel_mm::page_table::{FrameAllocator, MapToError, PageTableEntryX64, PTE};
use kernel_mm::paging::{access_pa_via_va, PageRange, PageTableEntryArray, PageTableImpl};
use kernel_mm::satp::{Mode, Satp};

struct Frames {
    next: usize,
}

impl FrameAllocator for Frames {
    fn allocate(&mut self) -> Option<Frame> {
        let f = Frame::of_ppn(self.next);
        self.next += 1;
        Some(f)
    }
}

#[test]
fn physical_addresses_through_the_linear_window() {
    assert_eq!(access_pa_via_va(0x8000_0000), 0xffff_ffff_c000_0000);
    assert_eq!(access_pa_via_va(0), 0xffff_ffff_4000_0000);
}

#[test]
fn token_packs_mode_and_root_frame() {
    let pt = PageTableImpl::new_bare(Frame::of_ppn(0x80123));
    assert_eq!(pt.token(), 0x80123 | (8 << 60));
}

#[test]
fn activating_the_active_space_does_nothing() {
    let pt = PageTableImpl::new_bare(Frame::of_ppn(0x80123));
    let token = pt.token();
    assert_eq!(pt.switch_token(token), None);
    assert_eq!(pt.switch_token(0), Some(token));
    assert_eq!(pt.switch_token(0x80124 | (8 << 60)), Some(token));
}

#[test]
fn map_gives_a_readable_writable_entry() {
    let mut pt = PageTableImpl::new_bare(Frame::of_ppn(0x80000));
    let mut frames = Frames { next: 0x80001 };
    let (entry, flush) = pt.map(0x1234_5678, 0x8765_4321, &mut frames).unwrap();
    assert_eq!(flush.address(), 0x1234_5000);
    assert!(entry.present());
    assert!(entry.writable());
    assert!(entry.accessed());
    assert!(entry.dirty());
    assert!(!entry.user());
    assert!(!entry.execute());
    assert_eq!(entry.target(), 0x8765_4000);
    assert!(entry.valid());
    assert_eq!(entry.bits(), (0x87654 << 10) | 0xc7);
    let e = pt.get_entry(0x1234_5fff).unwrap();
    assert_eq!(e.bits(), entry.bits());
}

struct NoFrames;

impl FrameAllocator for NoFrames {
    fn allocate(&mut self) -> Option<Frame> {
        None
    }
}

#[test]
fn map_fails_without_frames_for_tables() {
    let mut pt = PageTableImpl::new_bare(Frame::of_ppn(0x80000));
    assert!(matches!(pt.map(0x1000, 0x8000_1000, &mut NoFrames), Err(MapToError::FrameAllocationFailed)));
    assert!(pt.get_entry(0x1000).is_none());
    let mut frames = Frames { next: 0x80001 };
    pt.map(0x1000, 0x8000_1000, &mut frames).unwrap();
    // the leaf table exists now, so a neighbour needs no new frame
    assert!(pt.map(0x2000, 0x8000_2000, &mut NoFrames).is_ok());
}

#[test]
fn tables_can_be_read_out_for_their_frames() {
    let mut pt = PageTableImpl::new_bare(Frame::of_ppn(0x80000));
    let mut frames = Frames { next: 0x80001 };
    pt.map(0x1000, 0x8000_1000, &mut frames).unwrap();
    let table = pt.mapper();
    let mut ppns = table.table_frames();
    ppns.sort();
    assert_eq!(ppns, vec![0x80000, 0x80001, 0x80002]);
    assert_eq!(table.linear_offset(), 0xffff_ffff_4000_0000);
    let root = table.table_words(0x80000).unwrap();
    assert_eq!(root.len(), 512);
    assert_eq!(root[0], (0x80001 << 10) | 0xc1);
    let leaf = table.table_words(0x80002).unwrap();
    assert_eq!(leaf[1], (0x80001 << 10) | 0xc7);
    assert!(table.table_words(0x90000).is_none());
}

#[test]
fn changed_entries_are_stored_back() {
    let mut pt = PageTableImpl::new_bare(Frame::of_ppn(0x80000));
    let mut frames = Frames { next: 0x80001 };
    let (mut entry, _) = pt.map(0x40_0000, 0x8100_0000, &mut frames).unwrap();
    entry.set_user(true);
    entry.set_execute(true);
    entry.set_writable(false);
    entry.clear_accessed();
    entry.clear_dirty();
    entry.set_target(0x8200_0abc);
    pt.store_entry(&entry).unwrap();
    let e = pt.get_entry(0x40_0123).unwrap();
    assert!(e.user());
    assert!(e.execute());
    assert!(!e.writable());
    assert!(e.accessed());
    assert!(e.dirty());
    assert_eq!(e.target(), 0x8200_0000);
    let mut off = e;
    off.set_present(false);
    assert!(!off.present());
}

#[test]
fn unmap_leaves_an_unused_entry() {
    let mut pt = PageTableImpl::new_bare(Frame::of_ppn(0x80000));
    let mut frames = Frames { next: 0x80001 };
    pt.map(0x7000, 0x8000_7000, &mut frames).unwrap();
    let flush = pt.unmap(0x7fff);
    assert_eq!(flush.address(), 0x7000);
    let e = pt.get_entry(0x7000).unwrap();
    assert!(!e.present());
    assert!(!e.valid());
    assert_eq!(e.bits(), 0);
    assert!(pt.get_entry(0x4000_0000).is_none());
    let p = Page::of_addr(VirtAddr::new(0x7000));
    assert_eq!(p.number(), 7);
}

#[test]
fn page_range_walks_touched_pages() {
    let mut r = PageRange::new(0x1000, 0x3001);
    assert_eq!(r.next(), Some(0x1000));
    assert_eq!(r.next(), Some(0x2000));
    assert_eq!(r.next(), Some(0x3000));
    assert_eq!(r.next(), None);
    let mut one = PageRange::new(0x1fff, 0x2000);
    assert_eq!(one.next(), Some(0x1000));
    assert_eq!(one.next(), None);
}

#[test]
fn entry_array_zeroing() {
    let mut a = PageTableEntryArray([PageTableEntryX64::new(); 512]);
    a.0[3].set(Frame::of_ppn(5), kernel_mm::page_table::PageTableFlags::from_bits_truncate(1));
    a.zero();
    assert!(a.0.iter().all(|e| e.is_unused()));
}

#[test]
fn satp_fields() {
    let s = Satp::from_bits((8 << 60) | (5 << 44) | 0x80000);
    assert_eq!(s.mode(), Mode::Sv39);
    assert_eq!(s.asid(), 5);
    assert_eq!(s.ppn(), 0x80000);
    assert_eq!(s.frame(), Frame::of_ppn(0x80000));
    assert_eq!(s.bits(), (8 << 60) | (5 << 44) | 0x80000);
    assert_eq!(Satp::from_bits(0).mode(), Mode::Bare);
    assert_eq!(Satp::from_bits(9 << 60).mode(), Mode::Sv48);
    let packed = Satp::from_fields(Mode::Sv39, 5, 0x80000);
    assert_eq!(packed.bits(), (8 << 60) | (5 << 44) | 0x80000);
    assert_eq!(Satp::from_fields(Mode::Sv57, 0xffff, (1 << 44) - 1).bits(), usize::MAX - (5 << 60));
}
