use vstd::prelude::*;
use crate::address::{
    Address,
    AddressX64,
    Frame,
    FrameWith,
    Page,
    PageWith,
    PhysAddr,
    PhysAddrSv39,
    VirtAddr,
    VirtAddrSv39,
    sv39_canonical,
    sv39_physical,
    table_index,
};
use crate::page_table::{
    FlagUpdateError,
    FrameAllocator,
    MapToError,
    MapperFlush,
    MapperFlushable,
    PTE,
    PageTableEntry,
    PageTableEntryX64,
    PageTableFlags,
    Rv39PageTableWith,
    UnmapError,
    key_in_range,
    page_key,
    pte_bits,
    pte_frame_start,
};

verus! {

pub const PAGE_SIZE: usize = 4096;

/// The distance from a physical address to the kernel virtual address that reaches it.
pub const PHYSICAL_MEMORY_OFFSET: u64 = 0xffff_ffff_4000_0000;

/// The satp mode field that selects Sv39.
pub const SATP_MODE_SV39: u64 = 8;

pub type Rv39PageTable = Rv39PageTableWith<VirtAddrSv39, MapperFlush>;

/// The kernel virtual address that reaches physical address `paddr`.
pub fn access_pa_via_va(paddr: u64) -> (r: u64)
    requires
        paddr + PHYSICAL_MEMORY_OFFSET <= u64::MAX,
    ensures
        r == paddr + PHYSICAL_MEMORY_OFFSET,
{
    paddr + PHYSICAL_MEMORY_OFFSET
}

/// The 512 entries of one page table, as laid out in its frame.
pub struct PageTableEntryArray(pub [PageTableEntry; 512]);

impl PageTableEntryArray {
    /// Makes every entry unused.
    pub fn zero(&mut self)
        ensures
            forall|i: int| 0 <= i < 512 ==> (#[trigger] final(self).0@[i]).spec_bits() == 0,
    {
        let mut i: usize = 0;
        while i < 512
            invariant
                i <= 512,
                forall|k: int| 0 <= k < i ==> (#[trigger] self.0@[k]).spec_bits() == 0,
            decreases 512 - i,
        {
            self.0.set(i, PageTableEntry::new());
            i = i + 1;
        }
    }
}

/// The three page-table indices of the page holding `va`.
pub open spec fn va_key(va: usize) -> (int, int, int) {
    (
        table_index((va - va % 4096) as u64, 30) as int,
        table_index((va - va % 4096) as u64, 21) as int,
        table_index((va - va % 4096) as u64, 12) as int,
    )
}

/// The entry word with the flags of `mask` set (`value`) or cleared, the frame kept.
pub open spec fn with_flags(bits: u64, mask: usize, value: bool) -> u64 {
    let flags = (bits & 0x3ff) as usize;
    (bits & !0x3ffu64) | ((if value {
        flags | mask
    } else {
        flags & !mask
    }) as u64)
}

/// A copy of the leaf entry of a mapped page, read and changed here and stored back with
/// `PageTableImpl::store_entry`.
pub struct PageEntry {
    entry: PageTableEntryX64,
    page: Page,
}

impl PageEntry {
    /// The entry word.
    pub closed spec fn spec_bits(&self) -> u64 {
        self.entry.spec_bits()
    }

    /// The page whose entry this is.
    pub closed spec fn spec_page(&self) -> Page {
        self.page
    }

    /// The entry word.
    pub fn bits(&self) -> (r: u64)
        ensures
            r == self.spec_bits(),
    {
        self.entry.bits()
    }

    /// Whether VALID is set.
    pub fn valid(&self) -> (r: bool)
        ensures
            r == (self.spec_bits() & 0x1 == 0x1),
    {
        self.has(PageTableFlags::VALID)
    }

    pub fn accessed(&self) -> (r: bool)
        ensures
            r == (self.spec_bits() & 0x40 == 0x40),
    {
        self.has(PageTableFlags::ACCESSED)
    }

    pub fn clear_accessed(&mut self)
        ensures
            final(self).spec_bits() == with_flags(old(self).spec_bits(), 0x40, false),
            final(self).spec_page() == old(self).spec_page(),
    {
        self.change(PageTableFlags::ACCESSED, false);
    }

    pub fn dirty(&self) -> (r: bool)
        ensures
            r == (self.spec_bits() & 0x80 == 0x80),
    {
        self.has(PageTableFlags::DIRTY)
    }

    pub fn clear_dirty(&mut self)
        ensures
            final(self).spec_bits() == with_flags(old(self).spec_bits(), 0x80, false),
            final(self).spec_page() == old(self).spec_page(),
    {
        self.change(PageTableFlags::DIRTY, false);
    }

    pub fn writable(&self) -> (r: bool)
        ensures
            r == (self.spec_bits() & 0x4 == 0x4),
    {
        self.has(PageTableFlags::WRITABLE)
    }

    pub fn set_writable(&mut self, value: bool)
        ensures
            final(self).spec_bits() == with_flags(old(self).spec_bits(), 0x4, value),
            final(self).spec_page() == old(self).spec_page(),
    {
        self.change(PageTableFlags::WRITABLE, value);
    }

    /// Whether both VALID and READABLE are set.
    pub fn present(&self) -> (r: bool)
        ensures
            r == (self.spec_bits() & 0x3 == 0x3),
    {
        proof {
            lemma_flags_of(0, 0);
        }
        self.has(PageTableFlags::VALID | PageTableFlags::READABLE)
    }

    /// Sets or clears both VALID and READABLE.
    pub fn set_present(&mut self, value: bool)
        ensures
            final(self).spec_bits() == with_flags(old(self).spec_bits(), 0x3, value),
            final(self).spec_page() == old(self).spec_page(),
    {
        proof {
            lemma_flags_of(0, 0);
        }
        self.change(PageTableFlags::VALID | PageTableFlags::READABLE, value);
    }

    pub fn user(&self) -> (r: bool)
        ensures
            r == (self.spec_bits() & 0x10 == 0x10),
    {
        self.has(PageTableFlags::USER)
    }

    pub fn set_user(&mut self, value: bool)
        ensures
            final(self).spec_bits() == with_flags(old(self).spec_bits(), 0x10, value),
            final(self).spec_page() == old(self).spec_page(),
    {
        self.change(PageTableFlags::USER, value);
    }

    pub fn execute(&self) -> (r: bool)
        ensures
            r == (self.spec_bits() & 0x8 == 0x8),
    {
        self.has(PageTableFlags::EXECUTABLE)
    }

    pub fn set_execute(&mut self, value: bool)
        ensures
            final(self).spec_bits() == with_flags(old(self).spec_bits(), 0x8, value),
            final(self).spec_page() == old(self).spec_page(),
    {
        self.change(PageTableFlags::EXECUTABLE, value);
    }

    /// The physical address of the frame the entry names.
    pub fn target(&self) -> (r: usize)
        requires
            pte_frame_start(self.spec_bits()) <= usize::MAX,
        ensures
            r == pte_frame_start(self.spec_bits()),
    {
        self.entry.addr().as_usize()
    }

    /// Points the entry at the frame holding physical address `target`, keeping the flags
    /// (and setting ACCESSED and DIRTY).
    pub fn set_target(&mut self, target: usize)
        requires
            sv39_physical(target as u64),
        ensures
            final(self).spec_bits() == pte_bits(
                (target - target % 4096) as u64,
                (old(self).spec_bits() & 0x3ff) as usize,
            ),
            final(self).spec_page() == old(self).spec_page(),
    {
        let flags = self.entry.flags();
        let frame = Frame::of_addr(PhysAddr::new(target));
        self.entry.set(frame, flags);
    }

    /// Whether every flag of `mask` is set.
    fn has(&self, mask: usize) -> (r: bool)
        requires
            mask <= 0x3ff,
        ensures
            r == (self.spec_bits() & (mask as u64) == mask as u64),
    {
        let m = PageTableFlags::from_bits_truncate(mask);
        proof {
            lemma_flags_of(self.spec_bits(), mask);
        }
        self.entry.flags().contains(&m)
    }

    /// Sets (`value`) or clears the flags of `mask`.
    fn change(&mut self, mask: usize, value: bool)
        requires
            mask <= 0x3ff,
        ensures
            final(self).spec_bits() == with_flags(old(self).spec_bits(), mask, value),
            final(self).spec_page() == old(self).spec_page(),
    {
        let mut flags = self.entry.flags();
        let m = PageTableFlags::from_bits_truncate(mask);
        proof {
            lemma_flags_of(self.spec_bits(), mask);
        }
        flags.set(&m, value);
        self.entry.set_flags(flags);
    }
}

proof fn lemma_flags_of(bits: u64, mask: usize)
    by (bit_vector)
    ensures
        ((((bits & 0x3ff) as usize) & (mask & 0x3ff)) == (mask & 0x3ff)) == (bits & ((mask
            & 0x3ff) as u64) == ((mask & 0x3ff) as u64)),
        mask <= 0x3ff ==> mask & 0x3ff == mask,
        (0x1usize | 0x2usize) == 0x3usize,
{
}

/// An address space: a root page table in its own frame, with the operations the kernel
/// uses on it.
pub struct PageTableImpl {
    page_table: Rv39PageTable,
    root_frame: Frame,
}

impl PageTableImpl {
    pub closed spec fn wf(&self) -> bool {
        &&& self.page_table.wf()
        &&& self.page_table.spec_root() == self.root_frame.spec_start() >> 12u64
    }

    /// The mapped pages of the address space (see `Rv39PageTableWith::spec_mappings`).
    pub closed spec fn spec_mappings(&self) -> Map<(int, int, int), u64> {
        self.page_table.spec_mappings()
    }

    /// The leaf entry word of a page, where its leaf table exists.
    pub closed spec fn spec_entry(&self, key: (int, int, int)) -> Option<u64> {
        self.page_table.spec_entry(key)
    }

    /// The frame of the root table.
    pub closed spec fn spec_root_frame(&self) -> Frame {
        self.root_frame
    }

    /// The three-level table of this address space, to be read.
    pub fn mapper(&self) -> (r: &Rv39PageTable)
        requires
            self.wf(),
        ensures
            r.wf(),
            r.spec_root() == self.spec_root_frame().spec_start() >> 12u64,
            r.spec_mappings() == self.spec_mappings(),
    {
        &self.page_table
    }

    /// An address space with no mappings whose root table is in `root_frame`.
    pub fn new_bare(root_frame: Frame) -> (r: PageTableImpl)
        ensures
            r.wf(),
            r.spec_root_frame() == root_frame,
            r.spec_mappings() == Map::<(int, int, int), u64>::empty(),
    {
        let page_table = Rv39PageTable::new(root_frame, PHYSICAL_MEMORY_OFFSET);
        PageTableImpl { page_table, root_frame }
    }

    /// Maps the page holding `va` to the frame holding `pa`, readable and writable, creating
    /// intermediate tables in frames from `allocator`. Returns a copy of the new entry and
    /// the pending invalidation of the page's translation.
    pub fn map<A: FrameAllocator>(&mut self, va: usize, pa: usize, allocator: &mut A) -> (r: Result<
        (PageEntry, MapperFlush),
        MapToError,
    >)
        requires
            old(self).wf(),
            sv39_canonical(va as u64),
            sv39_physical(pa as u64),
            !old(self).spec_mappings().contains_key(va_key(va)),
        ensures
            final(self).wf(),
            final(self).spec_root_frame() == old(self).spec_root_frame(),
            old(self).spec_entry(va_key(va)) == Some(0u64) ==> r is Ok,
            match r {
                Ok((e, _)) => {
                    &&& e.spec_bits() == pte_bits((pa - pa % 4096) as u64, 0x7)
                    &&& final(self).spec_mappings() == old(self).spec_mappings().insert(
                        page_key(e.spec_page()),
                        e.spec_bits(),
                    )
                    &&& e.spec_page().spec_start() == (va - va % 4096) as u64
                },
                Err(e) => e == MapToError::FrameAllocationFailed && final(self).spec_mappings()
                    == old(self).spec_mappings(),
            },
    {
        let flags = PageTableFlags::from_bits_truncate(
            PageTableFlags::VALID | PageTableFlags::READABLE | PageTableFlags::WRITABLE,
        );
        proof {
            lemma_rw_flags();
        }
        let page = Page::of_addr(VirtAddr::new(va));
        let frame = Frame::of_addr(PhysAddr::new(pa));
        let flush = match self.page_table.map_to(page, frame, flags, allocator) {
            Ok(f) => f,
            Err(e) => {
                return Err(e);
            },
        };
        proof {
            let key = page_key(page);
            assert(self.page_table.spec_mappings().contains_key(key));
            assert(self.page_table.spec_entry(key) == Some(
                self.page_table.spec_mappings()[key],
            ));
        }
        match self.page_table.walk(&page) {
            Some(e) => Ok((PageEntry { entry: e, page }, flush)),
            None => Err(MapToError::PageAlreadyMapped),
        }
    }

    /// Removes the mapping of the page holding `va`; returns the pending invalidation.
    pub fn unmap(&mut self, va: usize) -> (r: MapperFlush)
        requires
            old(self).wf(),
            sv39_canonical(va as u64),
            old(self).spec_entry(va_key(va)) matches Some(e) && e & 1 == 1,
        ensures
            final(self).wf(),
            final(self).spec_root_frame() == old(self).spec_root_frame(),
            final(self).spec_mappings() == old(self).spec_mappings().remove(va_key(va)),
            final(self).spec_entry(va_key(va)) == Some(0u64),
            r.spec_page() == (va - va % 4096) as u64,
    {
        let page = Page::of_addr(VirtAddr::new(va));
        match self.page_table.unmap(page) {
            Ok((_, flush)) => flush,
            Err(_) => MapperFlush::new(page),
        }
    }

    /// A copy of the leaf entry of the page holding `va`, if its leaf table exists.
    pub fn get_entry(&self, va: usize) -> (r: Option<PageEntry>)
        requires
            self.wf(),
            sv39_canonical(va as u64),
        ensures
            r is Some <==> self.spec_entry(va_key(va)) is Some,
            r matches Some(e) ==> e.spec_page().spec_start() == (va - va % 4096) as u64
                && page_key(e.spec_page()) == va_key(va)
                && self.spec_entry(va_key(va)) == Some(e.spec_bits()),
    {
        let page = Page::of_addr(VirtAddr::new(va));
        match self.page_table.walk(&page) {
            Some(e) => Some(PageEntry { entry: e, page }),
            None => None,
        }
    }

    /// Stores `entry` back as the leaf entry of its page; returns the pending invalidation.
    pub fn store_entry(&mut self, entry: &PageEntry) -> (r: Result<MapperFlush, FlagUpdateError>)
        requires
            old(self).wf(),
            entry.spec_page().spec_start() <= usize::MAX,
        ensures
            final(self).wf(),
            final(self).spec_root_frame() == old(self).spec_root_frame(),
            r is Ok <==> old(self).spec_entry(page_key(entry.spec_page())) is Some,
            match r {
                Ok(fl) => {
                    &&& final(self).spec_entry(page_key(entry.spec_page())) == Some(
                        entry.spec_bits(),
                    )
                    &&& forall|q: (int, int, int)|
                        key_in_range(q) && q != page_key(entry.spec_page()) ==> #[trigger] final(
                            self).spec_entry(q) == old(self).spec_entry(q)
                    &&& fl.spec_page() == entry.spec_page().spec_start()
                },
                Err(e) => e == FlagUpdateError::PageNotMapped && *final(self) == *old(self),
            },
    {
        let ghost before = self.page_table;
        let page = entry.page;
        match self.page_table.ref_entry(&page) {
            Ok(e) => {
                *e = entry.entry;
                proof {
                    Rv39PageTable::lemma_leaf_write(
                        before,
                        self.page_table,
                        page_key(page),
                        entry.spec_bits(),
                    );
                }
                Ok(MapperFlush::new(page))
            },
            Err(err) => Err(err),
        }
    }

    /// The satp value that installs this address space: the Sv39 mode with the root frame's
    /// number.
    pub fn token(&self) -> (r: usize)
        requires
            usize::BITS == 64,
        ensures
            r == (self.spec_root_frame().spec_start() >> 12u64) | (SATP_MODE_SV39 << 60u64),
    {
        let ppn = self.root_frame.start_address().as_u64() >> 12;
        (ppn | (SATP_MODE_SV39 << 60)) as usize
    }

    /// What installing this address space takes when `active_token` is in satp: `None` where
    /// it is already installed (nothing to write, nothing to flush), else the token to write,
    /// after which every cached translation must be flushed.
    pub fn switch_token(&self, active_token: usize) -> (r: Option<usize>)
        requires
            usize::BITS == 64,
        ensures
            r is None <==> active_token == (self.spec_root_frame().spec_start() >> 12u64) | (
            SATP_MODE_SV39 << 60u64),
            r matches Some(t) ==> t == (self.spec_root_frame().spec_start() >> 12u64) | (
            SATP_MODE_SV39 << 60u64),
    {
        let new_token = self.token();
        if new_token != active_token {
            Some(new_token)
        } else {
            None
        }
    }
}

proof fn lemma_rw_flags()
    by (bit_vector)
    ensures
        (0x1usize | 0x2usize | 0x4usize) & 0x3ff == 0x7,
{
}

/// A run of page numbers, walked from the first.
#[derive(Clone, Copy, PartialEq, Eq)]
pub struct PageRange {
    start: usize,
    end: usize,
}

impl PageRange {
    pub closed spec fn spec_start(&self) -> usize {
        self.start
    }

    pub closed spec fn spec_end(&self) -> usize {
        self.end
    }

    /// The pages that the bytes `start_addr..end_addr` touch.
    pub fn new(start_addr: usize, end_addr: usize) -> (r: PageRange)
        requires
            end_addr >= 1,
        ensures
            r.spec_start() == start_addr / 4096,
            r.spec_end() == (end_addr - 1) / 4096 + 1,
    {
        PageRange { start: start_addr / PAGE_SIZE, end: (end_addr - 1) / PAGE_SIZE + 1 }
    }

    /// The start address of the next page, if any is left.
    pub fn next(&mut self) -> (r: Option<usize>)
        ensures
            final(self).spec_end() == old(self).spec_end(),
            old(self).spec_start() < old(self).spec_end() ==> r == Some(
                (old(self).spec_start() << 12usize) as usize,
            ) && final(self).spec_start() == old(self).spec_start() + 1,
            old(self).spec_start() >= old(self).spec_end() ==> r is None && *final(self) == *old(
            self),
    {
        if self.start < self.end {
            let page = self.start << 12;
            self.start = self.start + 1;
            Some(page)
        } else {
            None
        }
    }
}

} // verus!
