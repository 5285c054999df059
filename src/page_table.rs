use vstd::prelude::*;
use core::marker::PhantomData;
use crate::address::{
    Address,
    AddressL3,
    AddressX64,
    Frame,
    FrameWith,
    PageWith,
    PageWithL3,
    PhysAddrSv39,
    PhysAddr,
    PhysicalAddress,
    VirtAddrSv39,
    VirtualAddress,
    table_index,
};

verus! {

pub const RV64_ENTRY_COUNT: usize = 512;

pub const ENTRY_COUNT: usize = RV64_ENTRY_COUNT;

/// The bits an entry word holds for a frame starting at `start` with `flags`, once
/// ACCESSED and DIRTY are added.
pub open spec fn pte_bits(start: u64, flags: usize) -> u64 {
    ((start >> 12u64) << 10u64) | ((flags | 0xc0) as u64)
}

/// The first address of the frame that an entry word names.
pub open spec fn pte_frame_start(bits: u64) -> u64 {
    (bits >> 10u64) << 12u64
}

/// Bit facts on flags.
proof fn lemma_flag_bits(a: usize, b: usize)
    by (bit_vector)
    ensures
        a & 0x3ff <= 0x3ff,
        a <= 0x3ff && b <= 0x3ff ==> a | b <= 0x3ff,
        a <= 0x3ff ==> a & !b <= 0x3ff,
        a <= 0x3ff ==> (a | 0xc0) <= 0x3ff,
        (a & 0x3ff) & 0x3ff == a & 0x3ff,
        a | 0x40 | 0x80 == a | 0xc0,
        a <= 0x3ff ==> a & 0x3ff == a,
{
}

/// Bit facts on entry words.
proof fn lemma_entry_bits(x: u64, start: u64, fl: u64)
    by (bit_vector)
    ensures
        x >> 54u64 == 0 ==> ((x >> 10u64) << 12u64) >> 56u64 == 0,
        ((x >> 10u64) << 12u64) % 4096 == 0,
        x >> 54u64 == 0 ==> (x >> 10u64) >> 44u64 == 0,
        start >> 56u64 == 0 && fl <= 0x3ff ==> (((start >> 12u64) << 10u64) | fl) >> 54u64 == 0,
        start >> 56u64 == 0 && start % 4096 == 0 && fl <= 0x3ff ==> (((((start >> 12u64)
            << 10u64) | fl) >> 10u64) << 12u64) == start,
        start >> 56u64 == 0 && fl <= 0x3ff ==> (((start >> 12u64) << 10u64) | fl) >> 10u64
            == start >> 12u64,
        fl <= 0x3ff ==> (((start >> 12u64) << 10u64) | fl) & 0x3ff == fl,
        fl & 0xc0 != 0 ==> (((start >> 12u64) << 10u64) | fl) != 0,
        x >> 54u64 == 0 && fl <= 0x3ff ==> ((x & !0x3ffu64) | fl) >> 54u64 == 0,
        fl <= 0x3ff ==> ((x & !0x3ffu64) | fl) >> 10u64 == x >> 10u64,
        fl <= 0x3ff ==> ((x & !0x3ffu64) | fl) & 0x3ff == fl,
        x & 0x3ff <= 0x3ff,
{
}

/// Permission and status bits of a page-table entry (bits 0..10 of the entry word).
#[derive(Clone, Copy, Debug, PartialEq, Eq)]
pub struct PageTableFlags {
    bits: usize,
}

impl View for PageTableFlags {
    type V = usize;

    closed spec fn view(&self) -> usize {
        self.bits
    }
}

impl PageTableFlags {
    pub const VALID: usize = 0x001;

    pub const READABLE: usize = 0x002;

    pub const WRITABLE: usize = 0x004;

    pub const EXECUTABLE: usize = 0x008;

    pub const USER: usize = 0x010;

    pub const GLOBAL: usize = 0x020;

    pub const ACCESSED: usize = 0x040;

    pub const DIRTY: usize = 0x080;

    pub const RESERVED1: usize = 0x100;

    pub const RESERVED2: usize = 0x200;

    #[verifier::type_invariant]
    spec fn inv(self) -> bool {
        self.bits <= 0x3ff
    }

    /// The flags among `bits`; bits that name no flag are dropped.
    pub fn from_bits_truncate(bits: usize) -> (r: PageTableFlags)
        ensures
            r@ == bits & 0x3ff,
    {
        proof {
            lemma_flag_bits(bits, 0);
        }
        PageTableFlags { bits: bits & 0x3ff }
    }

    pub fn bits(&self) -> (r: usize)
        ensures
            r == self@,
            r <= 0x3ff,
    {
        proof {
            use_type_invariant(self);
        }
        self.bits
    }

    /// Whether every flag of `other` is set here.
    pub fn contains(&self, other: &PageTableFlags) -> (r: bool)
        ensures
            r == (self@ & other@ == other@),
    {
        self.bits & other.bits == other.bits
    }

    pub fn insert(&mut self, other: &PageTableFlags)
        ensures
            final(self)@ == old(self)@ | other@,
    {
        proof {
            use_type_invariant(&*self);
            use_type_invariant(other);
            lemma_flag_bits(self.bits, other.bits);
        }
        self.bits = self.bits | other.bits;
    }

    pub fn remove(&mut self, other: &PageTableFlags)
        ensures
            final(self)@ == old(self)@ & !other@,
    {
        proof {
            use_type_invariant(&*self);
            lemma_flag_bits(self.bits, other.bits);
        }
        self.bits = self.bits & !other.bits;
    }

    /// Sets (`value`) or clears the flags of `other`.
    pub fn set(&mut self, other: &PageTableFlags, value: bool)
        ensures
            final(self)@ == if value {
                old(self)@ | other@
            } else {
                old(self)@ & !other@
            },
    {
        if value {
            self.insert(other);
        } else {
            self.remove(other);
        }
    }

    pub fn union(&self, other: &PageTableFlags) -> (r: PageTableFlags)
        ensures
            r@ == self@ | other@,
    {
        proof {
            use_type_invariant(self);
            use_type_invariant(other);
            lemma_flag_bits(self.bits, other.bits);
        }
        PageTableFlags { bits: self.bits | other.bits }
    }
}

/// A page-table entry: a capability to read and write an entry word.
pub trait PTE: Sized {
    /// The entry word.
    spec fn spec_bits(&self) -> u64;

    fn is_unused(&self) -> (r: bool)
        ensures
            r == (self.spec_bits() == 0),
    ;

    fn set_unused(&mut self)
        ensures
            final(self).spec_bits() == 0,
    ;

    fn flags(&self) -> (r: PageTableFlags)
        ensures
            r@ == (self.spec_bits() & 0x3ff) as usize,
    ;

    fn ppn(&self) -> (r: usize)
        requires
            self.spec_bits() >> 10u64 <= usize::MAX,
        ensures
            r == self.spec_bits() >> 10u64,
    ;

    fn ppn_u64(&self) -> (r: u64)
        ensures
            r == self.spec_bits() >> 10u64,
    ;

    /// Replaces the flag bits and keeps the frame.
    fn set_flags(&mut self, flags: PageTableFlags)
        ensures
            final(self).spec_bits() == (old(self).spec_bits() & !0x3ffu64) | (flags@ as u64),
    ;
}

/// A 64-bit Sv39 page-table entry: flags in bits 0..10, frame number in bits 10..54.
#[derive(Copy, Clone)]
pub struct PageTableEntryX64(u64);

impl PageTableEntryX64 {
    #[verifier::type_invariant]
    spec fn inv(self) -> bool {
        self.0 >> 54u64 == 0
    }

    /// An unused (all-zero) entry.
    pub fn new() -> (r: PageTableEntryX64)
        ensures
            r.spec_bits() == 0,
    {
        proof {
            assert(0u64 >> 54u64 == 0) by (bit_vector);
        }
        PageTableEntryX64(0)
    }

    /// The entry word.
    pub fn bits(&self) -> (r: u64)
        ensures
            r == self.spec_bits(),
            r >> 54u64 == 0,
    {
        proof {
            use_type_invariant(self);
        }
        self.0
    }

    /// The first address of the frame the entry names.
    pub fn addr(&self) -> (r: PhysAddr)
        ensures
            r.spec_u64() == pte_frame_start(self.spec_bits()),
    {
        proof {
            use_type_invariant(self);
            lemma_entry_bits(self.0, 0, 0);
        }
        PhysAddrSv39::new_u64((self.0 >> 10) << 12)
    }

    /// The frame the entry names.
    pub fn frame(&self) -> (r: Frame)
        ensures
            r.spec_start() == pte_frame_start(self.spec_bits()),
    {
        let a = self.addr();
        proof {
            lemma_entry_bits(self.0, 0, 0);
        }
        FrameWith::of_addr(a)
    }

    /// Points the entry at `frame` with `flags`, ACCESSED and DIRTY always added (hardware
    /// that does not manage these bits would otherwise fault on first access).
    pub fn set(&mut self, frame: Frame, flags: PageTableFlags)
        ensures
            final(self).spec_bits() == pte_bits(frame.spec_start(), flags@),
    {
        let start = frame.start_address().as_u64();
        let fb = flags.bits();
        let fl = fb | PageTableFlags::ACCESSED | PageTableFlags::DIRTY;
        proof {
            lemma_flag_bits(fb, 0);
            lemma_entry_bits(0, start, fl as u64);
        }
        *self = PageTableEntryX64(((start >> 12) << 10) | (fl as u64));
    }
}

impl PTE for PageTableEntryX64 {
    closed spec fn spec_bits(&self) -> u64 {
        self.0
    }

    fn is_unused(&self) -> (r: bool) {
        self.0 == 0
    }

    fn set_unused(&mut self) {
        *self = PageTableEntryX64::new();
    }

    fn flags(&self) -> (r: PageTableFlags) {
        proof {
            lemma_entry_bits(self.0, 0, 0);
            lemma_flag_bits((self.0 & 0x3ff) as usize, 0);
        }
        PageTableFlags::from_bits_truncate((self.0 & 0x3ff) as usize)
    }

    fn ppn(&self) -> (r: usize) {
        (self.0 >> 10) as usize
    }

    fn ppn_u64(&self) -> (r: u64) {
        self.0 >> 10
    }

    fn set_flags(&mut self, flags: PageTableFlags) {
        let fl = flags.bits() as u64;
        proof {
            use_type_invariant(&*self);
            lemma_entry_bits(self.0, 0, fl);
        }
        *self = PageTableEntryX64((self.0 & !0x3ffu64) | fl);
    }
}

pub type Entries64 = [PageTableEntryX64; RV64_ENTRY_COUNT];

/// Fixed-length arrays of entries that a page table is made of.
pub trait PTEIterableSlice<T> {
    spec fn spec_entries(&self) -> Seq<T>;

    fn pte_len(&self) -> (r: usize)
        ensures
            r == self.spec_entries().len(),
    ;

    fn pte_index(&self, index: usize) -> (r: &T)
        requires
            index < self.spec_entries().len(),
        ensures
            *r == self.spec_entries()[index as int],
    ;

    fn pte_index_mut(&mut self, index: usize) -> (r: &mut T)
        requires
            index < old(self).spec_entries().len(),
        ensures
            *r == old(self).spec_entries()[index as int],
            final(self).spec_entries() == old(self).spec_entries().update(index as int, *final(r)),
    ;
}

impl PTEIterableSlice<PageTableEntryX64> for Entries64 {
    open spec fn spec_entries(&self) -> Seq<PageTableEntryX64> {
        self@
    }

    fn pte_len(&self) -> (r: usize) {
        RV64_ENTRY_COUNT
    }

    fn pte_index(&self, index: usize) -> (r: &PageTableEntryX64) {
        &self[index]
    }

    fn pte_index_mut(&mut self, index: usize) -> (r: &mut PageTableEntryX64) {
        &mut self[index]
    }
}

/// A page table: one hardware page of entries.
pub struct PageTableWith<T: PTEIterableSlice<E>, E: PTE> {
    entries: T,
    phantom: PhantomData<E>,
}

impl<T: PTEIterableSlice<E>, E: PTE> PageTableWith<T, E> {
    pub closed spec fn spec_entries(&self) -> Seq<E> {
        self.entries.spec_entries()
    }

    /// Clears all entries.
    pub fn zero(&mut self)
        ensures
            final(self).spec_entries().len() == old(self).spec_entries().len(),
            forall|i: int|
                0 <= i < old(self).spec_entries().len() ==> (#[trigger] final(self).spec_entries()[i]).spec_bits() == 0,
    {
        let n = self.entries.pte_len();
        let mut i: usize = 0;
        while i < n
            invariant
                n == old(self).spec_entries().len(),
                self.spec_entries().len() == n,
                i <= n,
                forall|k: int| 0 <= k < i ==> (#[trigger] self.spec_entries()[k]).spec_bits() == 0,
            decreases n - i,
        {
            self.entries.pte_index_mut(i).set_unused();
            i = i + 1;
        }
    }

    pub fn index(&self, index: usize) -> (r: &E)
        requires
            index < self.spec_entries().len(),
        ensures
            *r == self.spec_entries()[index as int],
    {
        self.entries.pte_index(index)
    }

    pub fn index_mut(&mut self, index: usize) -> (r: &mut E)
        requires
            index < old(self).spec_entries().len(),
        ensures
            *r == old(self).spec_entries()[index as int],
            final(self).spec_entries() == old(self).spec_entries().update(index as int, *final(r)),
    {
        self.entries.pte_index_mut(index)
    }
}

pub type PageTableX64 = PageTableWith<Entries64, PageTableEntryX64>;

pub type PageTable = PageTableX64;

pub type PageTableEntry = PageTableEntryX64;

impl PageTableWith<Entries64, PageTableEntryX64> {
    /// A table whose entries are all unused.
    pub fn new_zeroed() -> (r: PageTableX64)
        ensures
            r.spec_entries().len() == 512,
            forall|i: int| 0 <= i < 512 ==> (#[trigger] r.spec_entries()[i]).spec_bits() == 0,
    {
        PageTableWith { entries: [PageTableEntryX64::new(); RV64_ENTRY_COUNT], phantom: PhantomData }
    }
}

/// The entry words of a table.
pub open spec fn table_words(t: &PageTableX64) -> Seq<u64> {
    Seq::new(512, |i: int| t.spec_entries()[i].spec_bits())
}

/// The page tables of one address space, kept here as values, each under the number of the
/// physical frame that is to hold it. The walker reads and writes tables only through this
/// type; the hardware sees them once the kernel copies each table's words into its frame
/// through the linear window (`Rv39PageTableWith::table_frames`, `table_words`).
pub struct TableMemory {
    frames: Vec<u64>,
    tables: Vec<PageTableX64>,
}

/// The slot of a frame number in a list without duplicates.
proof fn lemma_slot(frames: Seq<u64>, i: int)
    requires
        frames.no_duplicates(),
        0 <= i < frames.len(),
    ensures
        frames.index_of(frames[i]) == i,
{
    assert(frames.contains(frames[i]));
    let j = frames.index_of(frames[i]);
    assert(frames[j] == frames[i]);
}

impl TableMemory {
    pub closed spec fn wf(&self) -> bool {
        &&& self.frames@.len() == self.tables@.len()
        &&& self.frames@.no_duplicates()
        &&& forall|i: int|
            0 <= i < self.tables@.len() ==> (#[trigger] self.tables@[i]).spec_entries().len()
                == 512
    }

    /// Whether a table is held in frame `ppn`.
    pub closed spec fn has(&self, ppn: u64) -> bool {
        self.frames@.contains(ppn)
    }

    /// The entry words of the table in frame `ppn`.
    pub closed spec fn words(&self, ppn: u64) -> Seq<u64> {
        table_words(&self.tables@[self.frames@.index_of(ppn)])
    }

    pub fn new() -> (r: TableMemory)
        ensures
            r.wf(),
            forall|k: u64| !r.has(k),
    {
        TableMemory { frames: Vec::new(), tables: Vec::new() }
    }

    fn slot(&self, ppn: u64) -> (r: Option<usize>)
        requires
            self.wf(),
        ensures
            match r {
                Some(i) => i < self.frames@.len() && self.frames@[i as int] == ppn
                    && self.frames@.index_of(ppn) == i,
                None => !self.has(ppn),
            },
    {
        let mut i: usize = 0;
        while i < self.frames.len()
            invariant
                self.wf(),
                i <= self.frames@.len(),
                forall|j: int| 0 <= j < i ==> self.frames@[j] != ppn,
            decreases self.frames@.len() - i,
        {
            if self.frames[i] == ppn {
                proof {
                    lemma_slot(self.frames@, i as int);
                }
                return Some(i);
            }
            i = i + 1;
        }
        None
    }

    /// Whether a table is held in frame `ppn`.
    pub fn contains(&self, ppn: u64) -> (r: bool)
        requires
            self.wf(),
        ensures
            r == self.has(ppn),
    {
        self.slot(ppn).is_some()
    }

    /// Entry `index` of the table in frame `ppn`.
    pub fn read(&self, ppn: u64, index: usize) -> (r: PageTableEntryX64)
        requires
            self.wf(),
            self.has(ppn),
            index < 512,
        ensures
            r.spec_bits() == self.words(ppn)[index as int],
    {
        match self.slot(ppn) {
            Some(i) => *self.tables[i].index(index),
            None => PageTableEntryX64::new(),
        }
    }

    /// Entry `index` of the table in frame `ppn`, to be written.
    pub fn entry_mut(&mut self, ppn: u64, index: usize) -> (r: &mut PageTableEntryX64)
        requires
            old(self).wf(),
            old(self).has(ppn),
            index < 512,
        ensures
            r.spec_bits() == old(self).words(ppn)[index as int],
            final(self).wf(),
            forall|k: u64| #[trigger] final(self).has(k) == old(self).has(k),
            forall|k: u64, i: int|
                final(self).has(k) && 0 <= i < 512 ==> #[trigger] final(self).words(k)[i] == if k
                    == ppn && i == index {
                    final(r).spec_bits()
                } else {
                    old(self).words(k)[i]
                },
    {
        let i = self.slot(ppn).unwrap();
        let ghost frames = self.frames@;
        proof {
            assert forall|k: u64| #[trigger] frames.contains(k) implies (frames.index_of(k) == i)
                == (k == ppn) by {
                let j = frames.index_of(k);
                assert(frames[j] == k);
            }
        }
        self.tables[i].index_mut(index)
    }

    /// The frame numbers of all tables held, each once.
    pub fn frame_numbers(&self) -> (r: Vec<u64>)
        requires
            self.wf(),
        ensures
            r@.no_duplicates(),
            forall|k: u64| #[trigger] r@.contains(k) <==> self.has(k),
    {
        let mut r: Vec<u64> = Vec::new();
        let mut t: usize = 0;
        while t < self.frames.len()
            invariant
                self.wf(),
                t <= self.frames@.len(),
                r@ == self.frames@.subrange(0, t as int),
            decreases self.frames@.len() - t,
        {
            r.push(self.frames[t]);
            t = t + 1;
            proof {
                assert(r@ =~= self.frames@.subrange(0, t as int));
            }
        }
        proof {
            assert(self.frames@.subrange(0, t as int) =~= self.frames@);
        }
        r
    }

    /// The 512 entry words of the table in frame `ppn`, if one is held there.
    pub fn words_of(&self, ppn: u64) -> (r: Option<Vec<u64>>)
        requires
            self.wf(),
        ensures
            r is Some <==> self.has(ppn),
            r matches Some(v) ==> v@ == self.words(ppn),
    {
        if !self.contains(ppn) {
            return None;
        }
        let mut v: Vec<u64> = Vec::new();
        let mut i: usize = 0;
        while i < 512
            invariant
                self.wf(),
                self.has(ppn),
                i <= 512,
                v@ == self.words(ppn).subrange(0, i as int),
            decreases 512 - i,
        {
            v.push(self.read(ppn, i).bits());
            i = i + 1;
            proof {
                assert(v@ =~= self.words(ppn).subrange(0, i as int));
            }
        }
        proof {
            assert(self.words(ppn).subrange(0, 512) =~= self.words(ppn));
        }
        Some(v)
    }

    /// Places a table with all entries unused in frame `ppn`.
    pub fn insert_zeroed(&mut self, ppn: u64)
        requires
            old(self).wf(),
            !old(self).has(ppn),
        ensures
            final(self).wf(),
            forall|k: u64| #[trigger] final(self).has(k) == (old(self).has(k) || k == ppn),
            forall|k: u64, i: int|
                final(self).has(k) && 0 <= i < 512 ==> #[trigger] final(self).words(k)[i] == if k
                    == ppn {
                    0
                } else {
                    old(self).words(k)[i]
                },
    {
        let ghost old_frames = self.frames@;
        let ghost old_tables = self.tables@;
        self.frames.push(ppn);
        self.tables.push(PageTableX64::new_zeroed());
        proof {
            let n = old_frames.len() as int;
            assert forall|a: int, b: int|
                0 <= a < self.frames@.len() && 0 <= b < self.frames@.len() && a != b implies self.frames@[a]
                != self.frames@[b] by {
                if a == n {
                    assert(old_frames.contains(self.frames@[b]));
                } else if b == n {
                    assert(old_frames.contains(self.frames@[a]));
                }
            }
            assert forall|k: u64| #[trigger] self.has(k) == (old_frames.contains(k) || k == ppn) by {
                if old_frames.contains(k) {
                    let j = old_frames.index_of(k);
                    assert(self.frames@[j] == k);
                }
                if k == ppn {
                    assert(self.frames@[n] == k);
                }
                if self.frames@.contains(k) {
                    let j = self.frames@.index_of(k);
                    if j < n {
                        assert(old_frames[j] == k);
                    }
                }
            }
            assert forall|k: u64, i: int| self.has(k) && 0 <= i < 512 implies #[trigger] self.words(
                k,
            )[i] == if k == ppn {
                0
            } else {
                old(self).words(k)[i]
            } by {
                let j = self.frames@.index_of(k);
                assert(self.frames@[j] == k);
                if k == ppn {
                    lemma_slot(self.frames@, n);
                } else {
                    assert(j < n);
                    assert(old_frames[j] == k);
                    lemma_slot(old_frames, j);
                }
            }
        }
    }
}

/// Something that hands out free physical frames.
pub trait FrameAllocatorFor<P: PhysicalAddress + AddressX64> {
    /// A free frame, or `None` when there is none.
    fn allocate(&mut self) -> Option<FrameWith<P>>;
}

/// Something that takes physical frames back.
pub trait FrameDeallocatorFor<P: PhysicalAddress + AddressX64> {
    fn dealloc(&mut self, frame: FrameWith<P>);
}

/// Something that hands out free Sv39 frames.
pub trait FrameAllocator {
    fn allocate(&mut self) -> Option<Frame>;
}

/// Something that takes Sv39 frames back.
pub trait FrameDeallocator {
    fn dealloc(&mut self, frame: Frame);
}

/// A pending invalidation of one page's cached translation, handed out by every change to
/// a page table. The holder must flush it or say that it ignores it.
pub trait MapperFlushable: Sized {
    /// The start address of the page to invalidate.
    spec fn spec_page(&self) -> u64;

    fn new<T: VirtualAddress + AddressX64>(page: PageWith<T>) -> (r: Self)
        requires
            page.spec_start() <= usize::MAX,
        ensures
            r.spec_page() == page.spec_start(),
    ;

    /// Drops the pending invalidation without flushing.
    fn ignore(self);
}

/// The pending invalidation of the page starting at the held address.
#[must_use]
pub struct MapperFlush(usize);

impl MapperFlush {
    /// The start address of the page whose cached translation is stale.
    pub fn address(&self) -> (r: usize)
        ensures
            r == self.spec_page(),
    {
        self.0
    }
}

impl MapperFlushable for MapperFlush {
    closed spec fn spec_page(&self) -> u64 {
        self.0 as u64
    }

    fn new<T: VirtualAddress + AddressX64>(page: PageWith<T>) -> (r: Self) {
        MapperFlush(page.start_address().as_usize())
    }

    fn ignore(self) {
    }
}

/// Why `map_to` failed.
#[derive(Debug, PartialEq, Eq)]
pub enum MapToError {
    /// A table for an intermediate level was needed and the allocator gave no usable frame.
    FrameAllocationFailed,
    /// An upper-level entry maps a huge page that holds the page.
    ParentEntryHugePage,
    /// The page is already mapped.
    PageAlreadyMapped,
}

/// Why `unmap` failed.
#[derive(Debug, PartialEq, Eq)]
pub enum UnmapError<P: PhysicalAddress> {
    /// An upper-level entry maps a huge page that holds the page.
    ParentEntryHugePage,
    /// The page is not mapped.
    PageNotMapped,
    /// The entry names a frame that is no valid physical address.
    InvalidFrameAddress(P),
}

/// Why a lookup or an `update_flags` failed.
#[derive(Debug, PartialEq, Eq)]
pub enum FlagUpdateError {
    /// The page is not mapped.
    PageNotMapped,
}

/// The entry-word flags of an intermediate-level entry.
pub open spec fn table_link_bits(ppn: u64) -> u64 {
    pte_bits(ppn << 12u64, 1)
}

/// The three page-table indices of a page.
pub open spec fn page_key<V: VirtualAddress + AddressX64>(page: PageWith<V>) -> (int, int, int) {
    (
        table_index(page.spec_start(), 30) as int,
        table_index(page.spec_start(), 21) as int,
        table_index(page.spec_start(), 12) as int,
    )
}

/// Whether three indices each fit in nine bits.
pub open spec fn key_in_range(key: (int, int, int)) -> bool {
    0 <= key.0 < 512 && 0 <= key.1 < 512 && 0 <= key.2 < 512
}

proof fn lemma_link_bits(ppn: u64)
    by (bit_vector)
    requires
        ppn >> 44u64 == 0,
    ensures
        table_link_bits(ppn) >> 10u64 == ppn,
        table_link_bits(ppn) != 0,
        ((ppn << 12u64) >> 12u64) == ppn,
        (ppn << 12u64) >> 56u64 == 0,
        (ppn << 12u64) % 4096 == 0,
{
}

proof fn lemma_start_ppn(start: u64)
    by (bit_vector)
    requires
        start >> 56u64 == 0,
        start % 4096 == 0,
    ensures
        (start >> 12u64) >> 44u64 == 0,
        (start >> 12u64) << 12u64 == start,
{
}

/// An Sv39 address space: three levels of page tables under one root table.
///
/// Every table is held in `memory` under its frame number. `owner` records, for each table,
/// its level and the indices that lead to it: (3, 0, 0) for the root, (2, i, 0) for the
/// table under root entry `i`, (1, i, j) for the table under entry `j` of that one. As a
/// frame has one owner, no table is reached by two paths.
pub struct Rv39PageTableWith<V: VirtualAddress + AddressL3 + AddressX64, FL: MapperFlushable> {
    root: u64,
    memory: TableMemory,
    owner: Ghost<Map<u64, (int, int, int)>>,
    linear_offset: u64,
    page_kind: PhantomData<V>,
    flush_kind: PhantomData<FL>,
}

impl<V: VirtualAddress + AddressL3 + AddressX64, FL: MapperFlushable> Rv39PageTableWith<V, FL> {
    /// The frame number of the root table.
    pub closed spec fn spec_root(&self) -> u64 {
        self.root
    }

    /// Entry `i` of the table in frame `ppn`.
    pub closed spec fn word(&self, ppn: u64, i: int) -> u64 {
        self.memory.words(ppn)[i]
    }

    /// Whether root entry `i` is in use.
    pub closed spec fn has_l2(&self, i: int) -> bool {
        self.word(self.root, i) != 0
    }

    /// The frame of the table under root entry `i`.
    pub closed spec fn l2(&self, i: int) -> u64 {
        self.word(self.root, i) >> 10u64
    }

    /// Whether the leaf table for indices `(i, j)` exists.
    pub closed spec fn has_l1(&self, i: int, j: int) -> bool {
        self.has_l2(i) && self.word(self.l2(i), j) != 0
    }

    /// The frame of the leaf table for indices `(i, j)`.
    pub closed spec fn l1(&self, i: int, j: int) -> u64 {
        self.word(self.l2(i), j) >> 10u64
    }

    /// The leaf entry word for a page, where the walk reaches its leaf table.
    pub closed spec fn spec_entry(&self, key: (int, int, int)) -> Option<u64> {
        if self.has_l1(key.0, key.1) {
            Some(self.word(self.l1(key.0, key.1), key.2))
        } else {
            None
        }
    }

    /// The mapped pages: their indices and leaf entry words, for every leaf entry in use.
    pub open spec fn spec_mappings(&self) -> Map<(int, int, int), u64> {
        Map::new(
            |key: (int, int, int)|
                key_in_range(key) && self.spec_entry(key) is Some && self.spec_entry(key)->0 != 0,
            |key: (int, int, int)| self.spec_entry(key)->0,
        )
    }

    pub closed spec fn wf(&self) -> bool {
        &&& self.memory.wf()
        &&& self.memory.has(self.root)
        &&& self.owner@.contains_key(self.root)
        &&& self.owner@[self.root] == (3int, 0int, 0int)
        &&& forall|i: int|
            0 <= i < 512 && #[trigger] self.has_l2(i) ==> {
                &&& self.memory.has(self.l2(i))
                &&& self.owner@.contains_key(self.l2(i))
                &&& self.owner@[self.l2(i)] == (2int, i, 0int)
            }
        &&& forall|i: int, j: int|
            0 <= i < 512 && 0 <= j < 512 && #[trigger] self.has_l1(i, j) ==> {
                &&& self.memory.has(self.l1(i, j))
                &&& self.owner@.contains_key(self.l1(i, j))
                &&& self.owner@[self.l1(i, j)] == (1int, i, j)
            }
    }

    /// The tree stays well formed when a fresh table is linked under root entry `p3`.
    proof fn lemma_tree_after_new_l2(a: Self, b: Self, p3: int, f: u64)
        requires
            a.wf(),
            0 <= p3 < 512,
            !a.has_l2(p3),
            !a.memory.has(f),
            f >> 44u64 == 0,
            b.root == a.root,
            b.memory.wf(),
            forall|k: u64| #[trigger] b.memory.has(k) == (a.memory.has(k) || k == f),
            forall|k: u64, i: int|
                b.memory.has(k) && 0 <= i < 512 ==> #[trigger] b.memory.words(k)[i] == if k == f {
                    0
                } else if k == a.root && i == p3 {
                    table_link_bits(f)
                } else {
                    a.memory.words(k)[i]
                },
            b.owner@ == a.owner@.insert(f, (2int, p3, 0int)),
            table_link_bits(f) >> 10u64 == f,
            table_link_bits(f) != 0,
        ensures
            b.wf(),
            forall|i: int, j: int|
                0 <= i < 512 && 0 <= j < 512 ==> #[trigger] b.has_l1(i, j) == a.has_l1(i, j),
            forall|i: int, j: int, k: int|
                0 <= i < 512 && 0 <= j < 512 && 0 <= k < 512 ==> #[trigger] b.spec_entry((i, j, k))
                    == a.spec_entry((i, j, k)),
            b.has_l2(p3),
            b.l2(p3) == f,
    {
        assert(a.root != f);
        assert forall|i: int| 0 <= i < 512 && i != p3 implies #[trigger] b.word(b.root, i) == a.word(
            a.root,
            i,
        ) by {}
        assert forall|i: int| 0 <= i < 512 && #[trigger] b.has_l2(i) implies {
            &&& b.memory.has(b.l2(i))
            &&& b.owner@.contains_key(b.l2(i))
            &&& b.owner@[b.l2(i)] == (2int, i, 0int)
        } by {
            if i != p3 {
                assert(a.has_l2(i));
                assert(a.memory.has(a.l2(i)));
            }
        }
        assert forall|i: int, j: int|
            0 <= i < 512 && 0 <= j < 512 implies #[trigger] b.has_l1(i, j) == a.has_l1(i, j) && (
            a.has_l1(i, j) ==> b.l1(i, j) == a.l1(i, j)) by {
            if i == p3 {
                assert(b.l2(i) == f);
                assert(b.word(f, j) == 0);
            } else if a.has_l2(i) {
                assert(a.memory.has(a.l2(i)));
                assert(a.l2(i) != f);
                assert(a.owner@[a.l2(i)] != a.owner@[a.root]);
                assert(b.word(a.l2(i), j) == a.word(a.l2(i), j));
            }
        }
        assert forall|i: int, j: int|
            0 <= i < 512 && 0 <= j < 512 && #[trigger] b.has_l1(i, j) implies {
            &&& b.memory.has(b.l1(i, j))
            &&& b.owner@.contains_key(b.l1(i, j))
            &&& b.owner@[b.l1(i, j)] == (1int, i, j)
        } by {
            assert(a.has_l1(i, j));
            assert(a.memory.has(a.l1(i, j)));
        }
        assert forall|i: int, j: int, k: int|
            0 <= i < 512 && 0 <= j < 512 && 0 <= k < 512 implies #[trigger] b.spec_entry((i, j, k))
            == a.spec_entry((i, j, k)) by {
            assert(b.has_l1(i, j) == a.has_l1(i, j));
            if a.has_l1(i, j) {
                let t = a.l1(i, j);
                assert(a.memory.has(t));
                assert(t != f);
                assert(a.owner@[t] != a.owner@[a.root]);
                assert(b.word(t, k) == a.word(t, k));
            }
        }
    }

    /// The tree stays well formed when a fresh leaf table is linked under entry `p2` of the
    /// table under root entry `p3`.
    proof fn lemma_tree_after_new_l1(a: Self, b: Self, p3: int, p2: int, f: u64)
        requires
            a.wf(),
            0 <= p3 < 512,
            0 <= p2 < 512,
            a.has_l2(p3),
            !a.has_l1(p3, p2),
            !a.memory.has(f),
            f >> 44u64 == 0,
            b.root == a.root,
            b.memory.wf(),
            forall|k: u64| #[trigger] b.memory.has(k) == (a.memory.has(k) || k == f),
            forall|k: u64, i: int|
                b.memory.has(k) && 0 <= i < 512 ==> #[trigger] b.memory.words(k)[i] == if k == f {
                    0
                } else if k == a.l2(p3) && i == p2 {
                    table_link_bits(f)
                } else {
                    a.memory.words(k)[i]
                },
            b.owner@ == a.owner@.insert(f, (1int, p3, p2)),
            table_link_bits(f) >> 10u64 == f,
            table_link_bits(f) != 0,
        ensures
            b.wf(),
            forall|i: int, j: int|
                0 <= i < 512 && 0 <= j < 512 ==> #[trigger] b.has_l1(i, j) == (a.has_l1(i, j) || (i
                    == p3 && j == p2)),
            forall|i: int, j: int, k: int|
                0 <= i < 512 && 0 <= j < 512 && 0 <= k < 512 ==> #[trigger] b.spec_entry((i, j, k))
                    == if i == p3 && j == p2 {
                    Some(0u64)
                } else {
                    a.spec_entry((i, j, k))
                },
            b.has_l1(p3, p2),
            b.l1(p3, p2) == f,
    {
        let t2 = a.l2(p3);
        assert(a.memory.has(t2));
        assert(t2 != f);
        assert(a.root != f);
        assert(a.owner@[t2] != a.owner@[a.root]);
        assert forall|i: int| 0 <= i < 512 implies #[trigger] b.word(b.root, i) == a.word(a.root, i)
            by {}
        assert forall|i: int| 0 <= i < 512 && #[trigger] b.has_l2(i) implies {
            &&& b.memory.has(b.l2(i))
            &&& b.owner@.contains_key(b.l2(i))
            &&& b.owner@[b.l2(i)] == (2int, i, 0int)
        } by {
            assert(a.has_l2(i));
            assert(a.memory.has(a.l2(i)));
        }
        assert forall|i: int, j: int|
            0 <= i < 512 && 0 <= j < 512 implies #[trigger] b.has_l1(i, j) == (a.has_l1(i, j) || (i
            == p3 && j == p2)) && (a.has_l1(i, j) ==> b.l1(i, j) == a.l1(i, j)) && (i == p3 && j
            == p2 ==> b.l1(i, j) == f) by {
            if a.has_l2(i) {
                let u = a.l2(i);
                assert(a.memory.has(u));
                assert(u != f);
                if i != p3 {
                    assert(a.owner@[u] != a.owner@[t2]);
                }
            }
        }
        assert forall|i: int, j: int|
            0 <= i < 512 && 0 <= j < 512 && #[trigger] b.has_l1(i, j) implies {
            &&& b.memory.has(b.l1(i, j))
            &&& b.owner@.contains_key(b.l1(i, j))
            &&& b.owner@[b.l1(i, j)] == (1int, i, j)
        } by {
            if !(i == p3 && j == p2) {
                assert(a.has_l1(i, j));
                assert(a.memory.has(a.l1(i, j)));
            }
        }
        assert forall|i: int, j: int, k: int|
            0 <= i < 512 && 0 <= j < 512 && 0 <= k < 512 implies #[trigger] b.spec_entry((i, j, k))
            == if i == p3 && j == p2 {
            Some(0u64)
        } else {
            a.spec_entry((i, j, k))
        } by {
            if a.has_l1(i, j) {
                let t = a.l1(i, j);
                assert(a.memory.has(t));
                assert(t != f);
                assert(a.owner@[t] != a.owner@[a.root]);
                assert(a.owner@[t] != a.owner@[t2]);
                assert(b.word(t, k) == a.word(t, k));
            }
        }
    }

    /// An address space whose root table, in `root_frame`, has no entry in use.
    /// `linear_offset` is the distance from a physical address to where the kernel reaches it.
    pub fn new(root_frame: Frame, linear_offset: u64) -> (r: Self)
        ensures
            r.wf(),
            r.spec_root() == root_frame.spec_start() >> 12u64,
            r.spec_mappings() == Map::<(int, int, int), u64>::empty(),
            forall|i: int, j: int| 0 <= i < 512 && 0 <= j < 512 ==> !#[trigger] r.has_l1(i, j),
    {
        let root = root_frame.start_address().as_u64() >> 12;
        let mut memory = TableMemory::new();
        memory.insert_zeroed(root);
        let r = Rv39PageTableWith {
            root,
            memory,
            owner: Ghost(Map::empty().insert(root, (3int, 0int, 0int))),
            linear_offset,
            page_kind: PhantomData,
            flush_kind: PhantomData,
        };
        proof {
            assert forall|i: int| 0 <= i < 512 implies !#[trigger] r.has_l2(i) by {}
            assert forall|i: int, j: int| 0 <= i < 512 && 0 <= j < 512 implies !#[trigger] r.has_l1(
                i,
                j,
            ) by {
                assert(!r.has_l2(i));
            }
            assert(r.spec_mappings() =~= Map::<(int, int, int), u64>::empty());
        }
        r
    }

    /// The frame number of the root table.
    pub fn root_ppn(&self) -> (r: u64)
        ensures
            r == self.spec_root(),
    {
        self.root
    }

    /// The distance from a physical address to the kernel address that reaches it.
    pub fn linear_offset(&self) -> (r: u64)
        ensures
            r == self.spec_linear_offset(),
    {
        self.linear_offset
    }

    pub closed spec fn spec_linear_offset(&self) -> u64 {
        self.linear_offset
    }

    /// Whether a table of this address space is held in frame `ppn`.
    pub closed spec fn spec_has_table(&self, ppn: u64) -> bool {
        self.memory.has(ppn)
    }

    /// The entry words of the table in frame `ppn`.
    pub closed spec fn spec_table_words(&self, ppn: u64) -> Seq<u64> {
        self.memory.words(ppn)
    }

    /// The frame numbers of all tables of this address space (root, middle and leaf), each
    /// once: what the kernel copies into physical memory.
    pub fn table_frames(&self) -> (r: Vec<u64>)
        requires
            self.wf(),
        ensures
            r@.no_duplicates(),
            forall|k: u64| #[trigger] r@.contains(k) <==> self.spec_has_table(k),
            r@.contains(self.spec_root()),
    {
        self.memory.frame_numbers()
    }

    /// The 512 entry words of the table in frame `ppn`, if this address space has one there.
    pub fn table_words(&self, ppn: u64) -> (r: Option<Vec<u64>>)
        requires
            self.wf(),
        ensures
            r is Some <==> self.spec_has_table(ppn),
            r matches Some(v) ==> v@ == self.spec_table_words(ppn) && v@.len() == 512,
    {
        self.memory.words_of(ppn)
    }

    /// Makes the frame `frame` (what the frame allocator returned) a new table under entry
    /// `index` of the table in frame `parent`: the new table has every entry unused and the
    /// parent entry names it with VALID (ACCESSED and DIRTY added). Fails, changing nothing,
    /// when there is no frame or when the frame already holds one of the tables.
    fn install_table(&mut self, parent: u64, index: usize, frame: Option<Frame>) -> (r: Result<
        u64,
        MapToError,
    >)
        requires
            old(self).memory.wf(),
            old(self).memory.has(parent),
            index < 512,
        ensures
            frame is None ==> r == Err::<u64, MapToError>(MapToError::FrameAllocationFailed)
                && *final(self) == *old(self),
            frame is Some && old(self).memory.has(frame->0.spec_start() >> 12u64) ==> r == Err::<
                u64,
                MapToError,
            >(MapToError::FrameAllocationFailed) && *final(self) == *old(self),
            frame is Some && !old(self).memory.has(frame->0.spec_start() >> 12u64) ==> {
                let ppn = frame->0.spec_start() >> 12u64;
                &&& r == Ok::<u64, MapToError>(ppn)
                &&& ppn >> 44u64 == 0
                &&& final(self).root == old(self).root
                &&& final(self).owner == old(self).owner
                &&& final(self).memory.wf()
                &&& forall|k: u64| #[trigger] final(self).memory.has(k) == (old(self).memory.has(k)
                    || k == ppn)
                &&& forall|k: u64, i: int|
                    final(self).memory.has(k) && 0 <= i < 512 ==> #[trigger] final(self).memory.words(k)[i] == if k == ppn {
                        0
                    } else if k == parent && i == index {
                        table_link_bits(ppn)
                    } else {
                        old(self).memory.words(k)[i]
                    }
            },
    {
        let frame = match frame {
            Some(f) => f,
            None => {
                return Err(MapToError::FrameAllocationFailed);
            },
        };
        let ppn = frame.start_address().as_u64() >> 12;
        if self.memory.contains(ppn) {
            return Err(MapToError::FrameAllocationFailed);
        }
        proof {
            lemma_start_ppn(frame.spec_start());
        }
        self.memory.insert_zeroed(ppn);
        let ghost m1 = self.memory;
        let flags = PageTableFlags::from_bits_truncate(PageTableFlags::VALID);
        self.memory.entry_mut(parent, index).set(frame, flags);
        proof {
            lemma_link_bits(ppn);
            lemma_flag_bits(1, 0);
            assert(flags@ == 1);
            assert forall|k: u64, i: int|
                self.memory.has(k) && 0 <= i < 512 implies #[trigger] self.memory.words(k)[i] == if k
                == ppn {
                0
            } else if k == parent && i == index {
                table_link_bits(ppn)
            } else {
                old(self).memory.words(k)[i]
            } by {
                assert(m1.has(k));
            }
        }
        Ok(ppn)
    }

    /// Follows entry `p2_index` of the table under root entry `p3_index`, creating the table
    /// under root entry `p3_index` and the leaf table when they do not exist, each in a frame
    /// from `allocator`, and returns the frame number of the leaf table.
    fn create_p1_if_not_exist<A: FrameAllocator>(
        &mut self,
        p3_index: usize,
        p2_index: usize,
        allocator: &mut A,
    ) -> (r: Result<u64, MapToError>)
        requires
            old(self).wf(),
            p3_index < 512,
            p2_index < 512,
        ensures
            final(self).wf(),
            final(self).root == old(self).root,
            forall|i: int, j: int, k: int|
                0 <= i < 512 && 0 <= j < 512 && 0 <= k < 512 ==> #[trigger] final(self).spec_entry(
                    (i, j, k),
                ) == if old(self).has_l1(i, j) {
                    old(self).spec_entry((i, j, k))
                } else if r is Ok && i == p3_index && j == p2_index {
                    Some(0u64)
                } else {
                    None
                },
            forall|i: int, j: int|
                0 <= i < 512 && 0 <= j < 512 ==> #[trigger] final(self).has_l1(i, j) == (old(self).has_l1(i, j) || (r is Ok && i == p3_index && j == p2_index)),
            old(self).has_l1(p3_index as int, p2_index as int) ==> *final(self) == *old(self),
            match r {
                Ok(t) => final(self).has_l1(p3_index as int, p2_index as int) && final(self).l1(
                    p3_index as int,
                    p2_index as int,
                ) == t,
                Err(e) => e == MapToError::FrameAllocationFailed && !old(self).has_l1(
                    p3_index as int,
                    p2_index as int,
                ),
            },
    {
        let ghost s0 = *self;
        if self.memory.read(self.root, p3_index).is_unused() {
            let root = self.root;
            let ppn = match self.install_table(root, p3_index, allocator.allocate()) {
                Ok(t) => t,
                Err(e) => {
                    return Err(e);
                },
            };
            proof {
                self.owner@ = self.owner@.insert(ppn, (2int, p3_index as int, 0int));
                lemma_link_bits(ppn);
                Self::lemma_tree_after_new_l2(s0, *self, p3_index as int, ppn);
            }
        }
        let ghost s1 = *self;
        proof {
            assert(self.has_l2(p3_index as int));
        }
        let p2 = self.memory.read(self.root, p3_index).ppn_u64();
        proof {
            assert(p2 == self.l2(p3_index as int));
        }
        if self.memory.read(p2, p2_index).is_unused() {
            let ppn = match self.install_table(p2, p2_index, allocator.allocate()) {
                Ok(t) => t,
                Err(e) => {
                    return Err(e);
                },
            };
            proof {
                self.owner@ = self.owner@.insert(ppn, (1int, p3_index as int, p2_index as int));
                lemma_link_bits(ppn);
                Self::lemma_tree_after_new_l1(s1, *self, p3_index as int, p2_index as int, ppn);
            }
        }
        Ok(self.memory.read(p2, p2_index).ppn_u64())
    }

    /// Whether `b` is `a` with the leaf entry for `key` set to the word `v`.
    pub closed spec fn leaf_written(a: Self, b: Self, key: (int, int, int), v: u64) -> bool {
        &&& b.root == a.root
        &&& b.owner@ == a.owner@
        &&& b.memory.wf()
        &&& forall|k: u64| #[trigger] b.memory.has(k) == a.memory.has(k)
        &&& forall|k: u64, i: int|
            b.memory.has(k) && 0 <= i < 512 ==> #[trigger] b.memory.words(k)[i] == if k == a.l1(
                key.0,
                key.1,
            ) && i == key.2 {
                v
            } else {
                a.memory.words(k)[i]
            }
    }

    /// Writing a leaf entry changes that page's entry word and nothing else.
    pub proof fn lemma_leaf_write(a: Self, b: Self, key: (int, int, int), v: u64)
        requires
            a.wf(),
            key_in_range(key),
            a.has_l1(key.0, key.1),
            Self::leaf_written(a, b, key, v),
        ensures
            b.wf(),
            b.spec_root() == a.spec_root(),
            forall|i: int, j: int|
                0 <= i < 512 && 0 <= j < 512 ==> #[trigger] b.has_l1(i, j) == a.has_l1(i, j),
            forall|q: (int, int, int)|
                key_in_range(q) ==> #[trigger] b.spec_entry(q) == if q == key {
                    Some(v)
                } else {
                    a.spec_entry(q)
                },
            b.spec_mappings() == if v == 0 {
                a.spec_mappings().remove(key)
            } else {
                a.spec_mappings().insert(key, v)
            },
    {
        let t = a.l1(key.0, key.1);
        assert(a.memory.has(t));
        assert(a.owner@[t] != a.owner@[a.root]);
        assert forall|i: int| 0 <= i < 512 implies #[trigger] b.word(b.root, i) == a.word(a.root, i)
            by {}
        assert forall|i: int, j: int|
            0 <= i < 512 && 0 <= j < 512 implies #[trigger] b.has_l1(i, j) == a.has_l1(i, j) && (
            a.has_l1(i, j) ==> b.l1(i, j) == a.l1(i, j)) by {
            if a.has_l2(i) {
                let u = a.l2(i);
                assert(a.memory.has(u));
                assert(a.owner@[u] != a.owner@[t]);
            }
        }
        assert forall|i: int| 0 <= i < 512 && #[trigger] b.has_l2(i) implies {
            &&& b.memory.has(b.l2(i))
            &&& b.owner@.contains_key(b.l2(i))
            &&& b.owner@[b.l2(i)] == (2int, i, 0int)
        } by {
            assert(a.has_l2(i));
        }
        assert forall|i: int, j: int|
            0 <= i < 512 && 0 <= j < 512 && #[trigger] b.has_l1(i, j) implies {
            &&& b.memory.has(b.l1(i, j))
            &&& b.owner@.contains_key(b.l1(i, j))
            &&& b.owner@[b.l1(i, j)] == (1int, i, j)
        } by {
            assert(a.has_l1(i, j));
        }
        assert forall|q: (int, int, int)| key_in_range(q) implies #[trigger] b.spec_entry(q) == if q
            == key {
            Some(v)
        } else {
            a.spec_entry(q)
        } by {
            assert(b.has_l1(q.0, q.1) == a.has_l1(q.0, q.1));
            if a.has_l1(q.0, q.1) {
                let u = a.l1(q.0, q.1);
                assert(a.memory.has(u));
                if u == t {
                    assert(a.owner@[u] == (1int, q.0, q.1));
                }
            }
        }
        if v == 0 {
            assert(b.spec_mappings() =~= a.spec_mappings().remove(key));
        } else {
            assert(b.spec_mappings() =~= a.spec_mappings().insert(key, v));
        }
    }

    /// The leaf entry for `page`, where the walk reaches its leaf table.
    pub(crate) fn walk(&self, page: &PageWith<V>) -> (r: Option<PageTableEntryX64>)
        requires
            self.wf(),
        ensures
            key_in_range(page_key(*page)),
            match r {
                Some(e) => self.spec_entry(page_key(*page)) == Some(e.spec_bits()),
                None => self.spec_entry(page_key(*page)) is None,
            },
    {
        let p3 = page.p3_index();
        let p2 = page.p2_index();
        let p1 = page.p1_index();
        let e3 = self.memory.read(self.root, p3);
        if e3.is_unused() {
            return None;
        }
        proof {
            assert(self.has_l2(p3 as int));
        }
        let t2 = e3.ppn_u64();
        let e2 = self.memory.read(t2, p2);
        if e2.is_unused() {
            return None;
        }
        proof {
            assert(self.has_l1(p3 as int, p2 as int));
        }
        let t1 = e2.ppn_u64();
        Some(self.memory.read(t1, p1))
    }

    /// Maps `page` to `frame` with `flags`, creating the intermediate tables it lacks in frames
    /// from `allocator`. At most two frames are taken.
    pub fn map_to<A: FrameAllocator>(
        &mut self,
        page: PageWith<V>,
        frame: Frame,
        flags: PageTableFlags,
        allocator: &mut A,
    ) -> (r: Result<FL, MapToError>)
        requires
            old(self).wf(),
            page.spec_start() <= usize::MAX,
        ensures
            final(self).wf(),
            final(self).spec_root() == old(self).spec_root(),
            forall|i: int, j: int|
                0 <= i < 512 && 0 <= j < 512 && #[trigger] old(self).has_l1(i, j) ==> final(self).has_l1(i, j),
            old(self).has_l1(page_key(page).0, page_key(page).1) && !old(self).spec_mappings().contains_key(page_key(page)) ==> r is Ok,
            old(self).spec_entry(page_key(page)) == Some(0u64) ==> r is Ok,
            old(self).spec_mappings().contains_key(page_key(page)) ==> r == Err::<FL, MapToError>(
                MapToError::PageAlreadyMapped,
            ),
            match r {
                Ok(fl) => {
                    &&& !old(self).spec_mappings().contains_key(page_key(page))
                    &&& final(self).spec_mappings() == old(self).spec_mappings().insert(
                        page_key(page),
                        pte_bits(frame.spec_start(), flags@),
                    )
                    &&& fl.spec_page() == page.spec_start()
                },
                Err(MapToError::PageAlreadyMapped) => old(self).spec_mappings().contains_key(
                    page_key(page),
                ) && *final(self) == *old(self),
                Err(MapToError::FrameAllocationFailed) => !old(self).has_l1(
                    page_key(page).0,
                    page_key(page).1,
                ) && final(self).spec_mappings() == old(self).spec_mappings(),
                Err(MapToError::ParentEntryHugePage) => false,
            },
    {
        let ghost s0 = *self;
        let ghost key = page_key(page);
        let p3 = page.p3_index();
        let p2 = page.p2_index();
        let p1 = page.p1_index();
        let t1 = match self.create_p1_if_not_exist(p3, p2, allocator) {
            Ok(t) => t,
            Err(e) => {
                proof {
                    assert(self.spec_mappings() =~= s0.spec_mappings());
                }
                return Err(e);
            },
        };
        let ghost s1 = *self;
        proof {
            assert(s1.spec_entry(key) == if s0.has_l1(key.0, key.1) {
                s0.spec_entry(key)
            } else {
                Some(0u64)
            });
            assert(s1.memory.has(t1));
        }
        if !self.memory.read(t1, p1).is_unused() {
            proof {
                assert(s0.has_l1(key.0, key.1));
                assert(s0.spec_mappings().contains_key(key));
            }
            return Err(MapToError::PageAlreadyMapped);
        }
        proof {
            assert(!s0.spec_mappings().contains_key(key));
            assert(s1.spec_mappings() =~= s0.spec_mappings());
        }
        self.memory.entry_mut(t1, p1).set(frame, flags);
        proof {
            lemma_pte_nonzero(frame.spec_start(), flags@);
            Self::lemma_leaf_write(s1, *self, key, pte_bits(frame.spec_start(), flags@));
        }
        Ok(FL::new(page))
    }

    /// Removes the mapping of `page` and returns the frame it was mapped to. No table is freed.
    pub fn unmap(&mut self, page: PageWith<V>) -> (r: Result<(Frame, FL), UnmapError<PhysAddrSv39>>)
        requires
            old(self).wf(),
            page.spec_start() <= usize::MAX,
        ensures
            final(self).wf(),
            final(self).spec_root() == old(self).spec_root(),
            forall|i: int, j: int|
                0 <= i < 512 && 0 <= j < 512 ==> #[trigger] final(self).has_l1(i, j) == old(self).has_l1(i, j),
            match r {
                Ok((f, fl)) => {
                    &&& old(self).spec_entry(page_key(page)) matches Some(e) && e & 1 == 1
                        && f.spec_start() == pte_frame_start(e)
                    &&& final(self).spec_mappings() == old(self).spec_mappings().remove(
                        page_key(page),
                    )
                    &&& final(self).spec_entry(page_key(page)) == Some(0u64)
                    &&& fl.spec_page() == page.spec_start()
                },
                Err(e) => {
                    &&& e == UnmapError::<PhysAddrSv39>::PageNotMapped
                    &&& !(old(self).spec_entry(page_key(page)) matches Some(e) && e & 1 == 1)
                    &&& *final(self) == *old(self)
                },
            },
    {
        let ghost s0 = *self;
        let ghost key = page_key(page);
        let p3 = page.p3_index();
        let p2 = page.p2_index();
        let p1 = page.p1_index();
        let e3 = self.memory.read(self.root, p3);
        if e3.is_unused() {
            return Err(UnmapError::PageNotMapped);
        }
        proof {
            assert(self.has_l2(p3 as int));
        }
        let t2 = e3.ppn_u64();
        let e2 = self.memory.read(t2, p2);
        if e2.is_unused() {
            return Err(UnmapError::PageNotMapped);
        }
        proof {
            assert(self.has_l1(p3 as int, p2 as int));
        }
        let t1 = e2.ppn_u64();
        let entry = self.memory.read(t1, p1);
        let valid = PageTableFlags::from_bits_truncate(PageTableFlags::VALID);
        proof {
            lemma_flag_bits(1, 0);
            lemma_valid_bit(entry.spec_bits());
        }
        if !entry.flags().contains(&valid) {
            return Err(UnmapError::PageNotMapped);
        }
        let frame = entry.frame();
        self.memory.entry_mut(t1, p1).set_unused();
        proof {
            Self::lemma_leaf_write(s0, *self, key, 0);
        }
        Ok((frame, FL::new(page)))
    }

    /// The leaf entry of `page`, to be read or written in place. Fails where the walk does not
    /// reach the page's leaf table; no table is created.
    pub fn ref_entry(&mut self, page: &PageWith<V>) -> (r: Result<
        &mut PageTableEntryX64,
        FlagUpdateError,
    >)
        requires
            old(self).wf(),
        ensures
            match r {
                Ok(e) => {
                    &&& key_in_range(page_key(*page))
                    &&& old(self).has_l1(page_key(*page).0, page_key(*page).1)
                    &&& old(self).spec_entry(page_key(*page)) == Some(e.spec_bits())
                    &&& Self::leaf_written(
                        *old(self),
                        *final(self),
                        page_key(*page),
                        final(e).spec_bits(),
                    )
                },
                Err(err) => {
                    &&& err == FlagUpdateError::PageNotMapped
                    &&& old(self).spec_entry(page_key(*page)) is None
                    &&& *final(self) == *old(self)
                },
            },
    {
        let p3 = page.p3_index();
        let p2 = page.p2_index();
        let p1 = page.p1_index();
        let e3 = self.memory.read(self.root, p3);
        if e3.is_unused() {
            return Err(FlagUpdateError::PageNotMapped);
        }
        proof {
            assert(self.has_l2(p3 as int));
        }
        let t2 = e3.ppn_u64();
        let e2 = self.memory.read(t2, p2);
        if e2.is_unused() {
            return Err(FlagUpdateError::PageNotMapped);
        }
        proof {
            assert(self.has_l1(p3 as int, p2 as int));
        }
        let t1 = e2.ppn_u64();
        Ok(self.memory.entry_mut(t1, p1))
    }

    /// Gives the flags `flags` to the mapping of `page`, which keeps its frame.
    pub fn update_flags(&mut self, page: PageWith<V>, flags: PageTableFlags) -> (r: Result<
        FL,
        FlagUpdateError,
    >)
        requires
            old(self).wf(),
            page.spec_start() <= usize::MAX,
        ensures
            final(self).wf(),
            final(self).spec_root() == old(self).spec_root(),
            r is Ok <==> old(self).spec_mappings().contains_key(page_key(page)),
            match r {
                Ok(fl) => {
                    &&& final(self).spec_mappings() == old(self).spec_mappings().insert(
                        page_key(page),
                        pte_bits(pte_frame_start(old(self).spec_mappings()[page_key(page)]), flags@),
                    )
                    &&& fl.spec_page() == page.spec_start()
                },
                Err(err) => {
                    &&& err == FlagUpdateError::PageNotMapped
                    &&& *final(self) == *old(self)
                },
            },
    {
        let ghost s0 = *self;
        match self.walk(&page) {
            None => Err(FlagUpdateError::PageNotMapped),
            Some(old_entry) => {
                if old_entry.is_unused() {
                    return Err(FlagUpdateError::PageNotMapped);
                }
                let frame = old_entry.frame();
                let e = self.ref_entry(&page).unwrap();
                e.set(frame, flags);
                proof {
                    lemma_pte_nonzero(frame.spec_start(), flags@);
                    Self::lemma_leaf_write(s0, *self, page_key(page), pte_bits(frame.spec_start(), flags@));
                }
                Ok(FL::new(page))
            },
        }
    }

    /// The frame that `page` is mapped to, if it is mapped.
    pub fn translate_page(&mut self, page: PageWith<V>) -> (r: Option<Frame>)
        requires
            old(self).wf(),
        ensures
            *final(self) == *old(self),
            r is Some <==> old(self).spec_mappings().contains_key(page_key(page)),
            r matches Some(f) ==> f.spec_start() == pte_frame_start(
                old(self).spec_mappings()[page_key(page)],
            ),
    {
        match self.walk(&page) {
            Some(e) => {
                if e.is_unused() {
                    None
                } else {
                    Some(e.frame())
                }
            },
            None => None,
        }
    }

    /// Maps the page whose address equals the physical address of `frame` to `frame`.
    pub fn identity_map<A: FrameAllocator>(
        &mut self,
        frame: Frame,
        flags: PageTableFlags,
        allocator: &mut A,
    ) -> (r: Result<FL, MapToError>)
        requires
            old(self).wf(),
            V::spec_valid(frame.spec_start()),
            frame.spec_start() <= usize::MAX,
        ensures
            final(self).wf(),
            ({
                let key = (
                    table_index(frame.spec_start(), 30) as int,
                    table_index(frame.spec_start(), 21) as int,
                    table_index(frame.spec_start(), 12) as int,
                );
                &&& old(self).spec_mappings().contains_key(key) ==> r == Err::<FL, MapToError>(
                    MapToError::PageAlreadyMapped,
                )
                &&& old(self).has_l1(key.0, key.1) && !old(self).spec_mappings().contains_key(key)
                    ==> r is Ok
            }),
            match r {
                Ok(fl) => final(self).spec_mappings() == old(self).spec_mappings().insert(
                    (
                        table_index(frame.spec_start(), 30) as int,
                        table_index(frame.spec_start(), 21) as int,
                        table_index(frame.spec_start(), 12) as int,
                    ),
                    pte_bits(frame.spec_start(), flags@),
                ),
                Err(MapToError::PageAlreadyMapped) => *final(self) == *old(self),
                Err(_) => final(self).spec_mappings() == old(self).spec_mappings(),
            },
    {
        let start = frame.start_address();
        let page = PageWith::of_addr(V::new(start.as_usize()));
        self.map_to(page, frame, flags, allocator)
    }
}

/// Mapping a page to a frame with the VALID flag, then translating the page, gives that
/// frame; the new entry passes `unmap`'s VALID check, and after the unmap the page is no
/// longer mapped (its leaf entry stays present and unused, so `map_to` succeeds on it again).
pub proof fn lemma_map_translate_unmap(
    mappings: Map<(int, int, int), u64>,
    key: (int, int, int),
    start: u64,
    flags: usize,
)
    requires
        start % 4096 == 0,
        start >> 56u64 == 0,
        flags <= 0x3ff,
        flags & 1 == 1,
    ensures
        mappings.insert(key, pte_bits(start, flags)).contains_key(key),
        pte_frame_start(mappings.insert(key, pte_bits(start, flags))[key]) == start,
        mappings.insert(key, pte_bits(start, flags))[key] & 1 == 1,
        !mappings.insert(key, pte_bits(start, flags)).remove(key).contains_key(key),
{
    lemma_pte_round_trip(start, flags);
}

proof fn lemma_pte_round_trip(start: u64, flags: usize)
    by (bit_vector)
    requires
        start % 4096 == 0,
        start >> 56u64 == 0,
        flags <= 0x3ff,
        flags & 1 == 1,
    ensures
        pte_frame_start(pte_bits(start, flags)) == start,
        pte_bits(start, flags) & 1 == 1,
{
}

/// An entry word made by `set` is in use.
proof fn lemma_pte_nonzero(start: u64, flags: usize)
    by (bit_vector)
    ensures
        pte_bits(start, flags) != 0,
{
}

/// The VALID flag of an entry word is its bit 0.
proof fn lemma_valid_bit(x: u64)
    by (bit_vector)
    ensures
        (((x & 0x3ff) as usize) & 1usize == 1usize) == (x & 1 == 1),
{
}

} // verus!
