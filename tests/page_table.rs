use kernel_mm::address::{Address, AddressX64, Frame, Page, PageWithL3, PhysAddrSv39, VirtAddr};
use kernel_mm::page_table::{
    FlagUpdateError, FrameAllocator, MapToError, MapperFlushable, PageTableEntryX64,
    PageTableFlags, PageTableX64, UnmapError, PTE,
};
use kernel_mm::paging::{Rv39PageTable, PHYSICAL_MEMORY_OFFSET};

/// Hands out consecutive frames, `left` of them.
struct Frames {
    next: usize,
    left: usize,
}

impl FrameAllocator for Frames {
    fn allocate(&mut self) -> Option<Frame> {
        if self.left == 0 {
            return None;
        }
        self.left -= 1;
        let f = Frame::of_ppn(self.next);
        self.next += 1;
        Some(f)
    }
}

/// Hands out the same frame every time.
struct SameFrame(usize);

impl FrameAllocator for SameFrame {
    fn allocate(&mut self) -> Option<Frame> {
        Some(Frame::of_ppn(self.0))
    }
}

fn rw() -> PageTableFlags {
    PageTableFlags::from_bits_truncate(
        PageTableFlags::VALID | PageTableFlags::READABLE | PageTableFlags::WRITABLE,
    )
}

fn table() -> Rv39PageTable {
    Rv39PageTable::new(Frame::of_ppn(0x80000), PHYSICAL_MEMORY_OFFSET)
}

#[test]
fn map_translate_unmap_and_map_again() {
    let mut pt = table();
    let mut frames = Frames { next: 0x80001, left: 8 };
    let page = Page::of_addr(VirtAddr::new(0x1000_0000));
    let frame = Frame::of_ppn(0x80100);
    pt.map_to(page, frame, rw(), &mut frames).unwrap().ignore();
    assert_eq!(pt.translate_page(page), Some(frame));
    let (old, flush) = pt.unmap(page).unwrap();
    assert_eq!(old, frame);
    assert_eq!(flush.address(), 0x1000_0000);
    assert_eq!(pt.translate_page(page), None);
    let left = frames.left;
    pt.map_to(page, frame, rw(), &mut frames).unwrap().ignore();
    assert_eq!(frames.left, left);
    assert_eq!(pt.translate_page(page), Some(frame));
}

#[test]
fn mapping_a_mapped_page_fails_and_keeps_the_mapping() {
    let mut pt = table();
    let mut frames = Frames { next: 0x80001, left: 8 };
    let page = Page::of_addr(VirtAddr::new(0x4000_3000));
    let frame = Frame::of_ppn(0x80200);
    pt.map_to(page, frame, rw(), &mut frames).unwrap().ignore();
    let other = Frame::of_ppn(0x80300);
    assert!(matches!(pt.map_to(page, other, rw(), &mut frames), Err(MapToError::PageAlreadyMapped)));
    assert_eq!(pt.translate_page(page), Some(frame));
}

#[test]
fn intermediate_tables_are_created_once() {
    let mut pt = table();
    let mut frames = Frames { next: 0x80001, left: 8 };
    let a = Page::from_page_table_indices(3, 4, 5);
    let b = Page::from_page_table_indices(3, 4, 6);
    let c = Page::from_page_table_indices(3, 7, 0);
    pt.map_to(a, Frame::of_ppn(0x90000), rw(), &mut frames).unwrap().ignore();
    assert_eq!(frames.left, 6);
    pt.map_to(b, Frame::of_ppn(0x90001), rw(), &mut frames).unwrap().ignore();
    assert_eq!(frames.left, 6);
    pt.map_to(c, Frame::of_ppn(0x90002), rw(), &mut frames).unwrap().ignore();
    assert_eq!(frames.left, 5);
    assert_eq!(pt.translate_page(a), Some(Frame::of_ppn(0x90000)));
    assert_eq!(pt.translate_page(b), Some(Frame::of_ppn(0x90001)));
    assert_eq!(pt.translate_page(c), Some(Frame::of_ppn(0x90002)));
}

#[test]
fn exhausted_allocator_fails_the_mapping() {
    let mut pt = table();
    let page = Page::of_addr(VirtAddr::new(0x2000));
    let r = pt.map_to(page, Frame::of_ppn(0x80100), rw(), &mut Frames { next: 0x80001, left: 1 });
    assert!(matches!(r, Err(MapToError::FrameAllocationFailed)));
    assert_eq!(pt.translate_page(page), None);
    let r = pt.map_to(page, Frame::of_ppn(0x80100), rw(), &mut Frames { next: 0x80002, left: 1 });
    assert!(r.is_ok());
}

#[test]
fn frame_already_holding_a_table_is_refused() {
    let mut pt = table();
    let page = Page::of_addr(VirtAddr::new(0x2000));
    let r = pt.map_to(page, Frame::of_ppn(0x80100), rw(), &mut SameFrame(0x80000));
    assert!(matches!(r, Err(MapToError::FrameAllocationFailed)));
    let r = pt.map_to(page, Frame::of_ppn(0x80100), rw(), &mut SameFrame(0x80001));
    assert!(matches!(r, Err(MapToError::FrameAllocationFailed)));
    assert_eq!(pt.translate_page(page), None);
}

#[test]
fn unmapping_an_unmapped_page_fails() {
    let mut pt = table();
    let page = Page::of_addr(VirtAddr::new(0x5000));
    assert!(matches!(pt.unmap(page), Err(UnmapError::<PhysAddrSv39>::PageNotMapped)));
    let mut frames = Frames { next: 0x80001, left: 8 };
    pt.map_to(page, Frame::of_ppn(0x80100), rw(), &mut frames).unwrap().ignore();
    let next = Page::of_addr(VirtAddr::new(0x6000));
    assert!(matches!(pt.unmap(next), Err(UnmapError::<PhysAddrSv39>::PageNotMapped)));
}

#[test]
fn entry_without_valid_flag_is_not_unmapped() {
    let mut pt = table();
    let mut frames = Frames { next: 0x80001, left: 8 };
    let page = Page::of_addr(VirtAddr::new(0x7000));
    let readable = PageTableFlags::from_bits_truncate(PageTableFlags::READABLE);
    pt.map_to(page, Frame::of_ppn(0x80100), readable, &mut frames).unwrap().ignore();
    assert!(matches!(pt.unmap(page), Err(UnmapError::<PhysAddrSv39>::PageNotMapped)));
    assert_eq!(pt.translate_page(page), Some(Frame::of_ppn(0x80100)));
}

#[test]
fn update_flags_keeps_the_frame() {
    let mut pt = table();
    let mut frames = Frames { next: 0x80001, left: 8 };
    let page = Page::of_addr(VirtAddr::new(0x8000));
    pt.map_to(page, Frame::of_ppn(0x80100), rw(), &mut frames).unwrap().ignore();
    let ro = PageTableFlags::from_bits_truncate(PageTableFlags::VALID | PageTableFlags::READABLE);
    pt.update_flags(page, ro).unwrap().ignore();
    let e = pt.ref_entry(&page).unwrap();
    assert_eq!(e.flags().bits(), 0x1 | 0x2 | 0x40 | 0x80);
    assert_eq!(pt.translate_page(page), Some(Frame::of_ppn(0x80100)));
    let neighbour = Page::of_addr(VirtAddr::new(0x9000));
    assert!(matches!(pt.update_flags(neighbour, ro), Err(FlagUpdateError::PageNotMapped)));
    assert_eq!(pt.translate_page(neighbour), None);
    let missing = Page::of_addr(VirtAddr::new(0x4000_0000));
    assert!(matches!(pt.update_flags(missing, ro), Err(FlagUpdateError::PageNotMapped)));
    assert!(matches!(pt.ref_entry(&missing), Err(FlagUpdateError::PageNotMapped)));
}

#[test]
fn writing_through_ref_entry() {
    let mut pt = table();
    let mut frames = Frames { next: 0x80001, left: 8 };
    let page = Page::of_addr(VirtAddr::new(0x9000));
    pt.map_to(page, Frame::of_ppn(0x80100), rw(), &mut frames).unwrap().ignore();
    pt.ref_entry(&page).unwrap().set_unused();
    assert_eq!(pt.translate_page(page), None);
}

#[test]
fn identity_mapping() {
    let mut pt = table();
    let mut frames = Frames { next: 0x80001, left: 8 };
    let frame = Frame::of_ppn(0x80123);
    pt.identity_map(frame, rw(), &mut frames).unwrap().ignore();
    let page = Page::of_addr(VirtAddr::new(0x8012_3000));
    assert_eq!(pt.translate_page(page), Some(frame));
}

#[test]
fn entry_set_adds_accessed_and_dirty() {
    let mut e = PageTableEntryX64::new();
    assert!(e.is_unused());
    e.set(Frame::of_ppn(0x80400), PageTableFlags::from_bits_truncate(PageTableFlags::READABLE));
    assert_eq!(e.flags().bits(), 0x2 | 0x40 | 0x80);
    assert_eq!(e.ppn(), 0x80400);
    assert_eq!(e.ppn_u64(), 0x80400);
    assert_eq!(e.bits(), (0x80400 << 10) | 0xc2);
    assert_eq!(e.frame(), Frame::of_ppn(0x80400));
    assert_eq!(e.addr().as_u64(), 0x8040_0000);
    e.set_flags(PageTableFlags::from_bits_truncate(0x1));
    assert_eq!(e.bits(), (0x80400 << 10) | 0x1);
    e.set_unused();
    assert!(e.is_unused());
}

#[test]
fn flag_operations() {
    let mut f = PageTableFlags::from_bits_truncate(0xfff);
    assert_eq!(f.bits(), 0x3ff);
    let w = PageTableFlags::from_bits_truncate(PageTableFlags::WRITABLE);
    assert!(f.contains(&w));
    f.remove(&w);
    assert!(!f.contains(&w));
    f.set(&w, true);
    assert!(f.contains(&w));
    f.set(&w, false);
    assert_eq!(f.bits(), 0x3fb);
    let u = PageTableFlags::from_bits_truncate(PageTableFlags::USER);
    assert_eq!(w.union(&u).bits(), 0x14);
    let mut g = PageTableFlags::from_bits_truncate(0);
    g.insert(&u);
    assert_eq!(g.bits(), 0x10);
}

#[test]
fn zeroing_a_table() {
    let mut t = PageTableX64::new_zeroed();
    t.index_mut(7).set(Frame::of_ppn(1), PageTableFlags::from_bits_truncate(1));
    assert!(!t.index(7).is_unused());
    t.zero();
    assert!(t.index(7).is_unused());
}

#[test]
fn root_frame_number() {
    let pt = table();
    assert_eq!(pt.root_ppn(), 0x80000);
    let f = Frame::of_ppn(0x80000);
    assert_eq!(f.start_address().as_u64() >> 12, 0x80000);
}
