use vstd::prelude::*;
use crate::bit_field::{BitField, low_mask_u64};

verus! {

/// Bits 39..64 of a virtual address repeat bit 38.
pub open spec fn sv39_canonical(v: u64) -> bool {
    if (v >> 38u64) & 1 == 1 {
        v >> 39u64 == 0x1ff_ffffu64
    } else {
        v >> 39u64 == 0
    }
}

/// The low 39 bits of `v`, with bit 38 copied into bits 39..64.
pub open spec fn sv39_sign_extend(v: u64) -> u64 {
    if (v >> 38u64) & 1 == 1 {
        v | !low_mask_u64(39)
    } else {
        v & low_mask_u64(39)
    }
}

/// Bits 56..64 of a physical address are zero.
pub open spec fn sv39_physical(v: u64) -> bool {
    v >> 56u64 == 0
}

/// The 9-bit page-table index of `v` whose lowest bit is bit `shift`.
pub open spec fn table_index(v: u64, shift: u64) -> u64 {
    (v >> shift) & 0x1ff
}

/// A virtual address assembled from three page-table indices and a page offset.
pub open spec fn sv39_compose(p3: u64, p2: u64, p1: u64, offset: u64) -> u64 {
    sv39_sign_extend((p3 << 30u64) | (p2 << 21u64) | (p1 << 12u64) | offset)
}

/// An address held in 64 bits.
pub trait Address: Sized + Copy {
    /// Whether a 64-bit value is an address of this kind.
    spec fn spec_valid(addr: u64) -> bool;

    /// The address as a 64-bit value.
    spec fn spec_u64(&self) -> u64;

    /// The page (or frame) number of an address.
    spec fn spec_page_number(addr: u64) -> u64;

    fn new(addr: usize) -> (r: Self)
        requires
            Self::spec_valid(addr as u64),
        ensures
            r.spec_u64() == addr as u64,
    ;

    fn as_usize(&self) -> (r: usize)
        requires
            self.spec_u64() <= usize::MAX,
        ensures
            r == self.spec_u64(),
    ;

    fn page_number(&self) -> (r: usize)
        ensures
            r == Self::spec_page_number(self.spec_u64()) as usize,
    ;

    fn page_offset(&self) -> (r: usize)
        ensures
            r == self.spec_u64() % 4096,
    ;

    fn to_4k_aligned(&self) -> (r: Self)
        ensures
            r.spec_u64() == self.spec_u64() - self.spec_u64() % 4096,
    ;
}

pub trait VirtualAddress: Address {

}

pub trait PhysicalAddress: Address {

}

/// Addresses that split into three 9-bit page-table indices.
pub trait AddressL3: Address {
    fn p3_index(&self) -> (r: usize)
        ensures
            r == table_index(self.spec_u64(), 30),
            r < 512,
    ;

    fn p2_index(&self) -> (r: usize)
        ensures
            r == table_index(self.spec_u64(), 21),
            r < 512,
    ;

    fn p1_index(&self) -> (r: usize)
        ensures
            r == table_index(self.spec_u64(), 12),
            r < 512,
    ;

    fn from_page_table_indices(p3_index: usize, p2_index: usize, p1_index: usize, offset: usize) -> (r:
        Self)
        requires
            p3_index < 0x200,
            p2_index < 0x200,
            p1_index < 0x200,
            offset < 0x1000,
        ensures
            r.spec_u64() == sv39_compose(
                p3_index as u64,
                p2_index as u64,
                p1_index as u64,
                offset as u64,
            ),
    ;
}

/// Addresses made from and read as 64-bit values.
pub trait AddressX64: Address {
    fn new_u64(addr: u64) -> (r: Self)
        requires
            Self::spec_valid(addr),
        ensures
            r.spec_u64() == addr,
    ;

    fn as_u64(&self) -> (r: u64)
        ensures
            r == self.spec_u64(),
            Self::spec_valid(r),
    ;
}

/// Facts on the fields of one virtual address.
proof fn lemma_virt_fields(v: u64)
    by (bit_vector)
    ensures
        ((v >> 12u64) & low_mask_u64(27)) < 0x800_0000,
        (v >> 30u64) & 0x1ff < 0x200,
        (v >> 21u64) & 0x1ff < 0x200,
        (v >> 12u64) & 0x1ff < 0x200,
        (v >> 30u64) & low_mask_u64(9) == (v >> 30u64) & 0x1ff,
        (v >> 21u64) & low_mask_u64(9) == (v >> 21u64) & 0x1ff,
        (v >> 12u64) & low_mask_u64(9) == (v >> 12u64) & 0x1ff,
        (v >> 0u64) & low_mask_u64(12) == v % 4096,
        (v >> 12u64) << 12u64 == v - v % 4096,
        sv39_canonical(v) ==> sv39_canonical(((v >> 12u64) << 12u64) as u64),
        ((v >> 39u64) & low_mask_u64(25) == 0x1ff_ffff) == (v >> 39u64 == 0x1ff_ffff),
        ((v >> 39u64) & low_mask_u64(25) == 0) == (v >> 39u64 == 0),
{
}

/// Facts on a virtual address assembled from indices.
proof fn lemma_virt_compose(p3: u64, p2: u64, p1: u64, offset: u64)
    by (bit_vector)
    requires
        p3 < 0x800,
        p2 < 0x200,
        p1 < 0x200,
        offset < 0x1000,
    ensures
        ({
            let a = (p3 << 30u64) | (p2 << 21u64) | (p1 << 12u64) | offset;
            &&& ((a >> 38u64) & 1 == 1) ==> (a & !(low_mask_u64(25) << 39u64)) | (0x1ff_ffffu64
                << 39u64) == sv39_sign_extend(a)
            &&& ((a >> 38u64) & 1 != 1) ==> (a & !(low_mask_u64(25) << 39u64)) | (0u64 << 39u64)
                == sv39_sign_extend(a)
            &&& sv39_canonical(sv39_sign_extend(a))
            &&& table_index(sv39_sign_extend(a), 30) == p3 & 0x1ff
            &&& table_index(sv39_sign_extend(a), 21) == p2
            &&& table_index(sv39_sign_extend(a), 12) == p1
            &&& sv39_sign_extend(a) % 4096 == offset
        }),
        0x1ff_ffffu64 >> 25u64 == 0,
        ((p3 << 12u64) << 9u64) << 9u64 == p3 << 30u64,
        (p2 << 12u64) << 9u64 == p2 << 21u64,
        0u64 >> 25u64 == 0,
{
}

/// Assembling a virtual address from three page-table indices and an offset, then reading
/// the indices and the offset back, gives the same indices and offset; the address is in
/// canonical form.
pub proof fn lemma_page_table_indices_round_trip(p3: u64, p2: u64, p1: u64, offset: u64)
    requires
        p3 < 0x200,
        p2 < 0x200,
        p1 < 0x200,
        offset < 0x1000,
    ensures
        sv39_canonical(sv39_compose(p3, p2, p1, offset)),
        table_index(sv39_compose(p3, p2, p1, offset), 30) == p3,
        table_index(sv39_compose(p3, p2, p1, offset), 21) == p2,
        table_index(sv39_compose(p3, p2, p1, offset), 12) == p1,
        sv39_compose(p3, p2, p1, offset) % 4096 == offset,
{
    lemma_virt_compose(p3, p2, p1, offset);
    assert(p3 & 0x1ff == p3) by (bit_vector)
        requires
            p3 < 0x200,
    ;
}

/// Facts on the fields of one physical address.
proof fn lemma_phys_fields(v: u64)
    by (bit_vector)
    ensures
        (v >> 0u64) & low_mask_u64(12) == v % 4096,
        (v >> 12u64) << 12u64 == v - v % 4096,
        sv39_physical(v) ==> sv39_physical(((v >> 12u64) << 12u64) as u64),
        ((v >> 56u64) & low_mask_u64(8) == 0) == (v >> 56u64 == 0),
{
}

/// An Sv39 virtual address: bits 39..64 repeat bit 38.
#[derive(Debug, Clone, Copy, PartialEq, Eq, PartialOrd, Ord)]
pub struct VirtAddrSv39(u64);

impl VirtAddrSv39 {
    #[verifier::type_invariant]
    spec fn inv(self) -> bool {
        sv39_canonical(self.0)
    }

    /// The address `addr`, or `None` where bits 39..64 do not repeat bit 38.
    pub fn try_new_u64(addr: u64) -> (r: Option<VirtAddrSv39>)
        ensures
            r is Some <==> sv39_canonical(addr),
            r matches Some(a) ==> a.spec_u64() == addr,
    {
        proof {
            lemma_virt_fields(addr);
        }
        let high = addr.get_bits(39..64);
        let ok = if addr.get_bit(38) {
            high == 0x1ff_ffff
        } else {
            high == 0
        };
        if ok {
            Some(VirtAddrSv39(addr))
        } else {
            None
        }
    }
}

impl Address for VirtAddrSv39 {
    open spec fn spec_valid(addr: u64) -> bool {
        sv39_canonical(addr)
    }

    closed spec fn spec_u64(&self) -> u64 {
        self.0
    }

    open spec fn spec_page_number(addr: u64) -> u64 {
        (addr >> 12u64) & low_mask_u64(27)
    }

    fn new(addr: usize) -> (r: Self) {
        Self::new_u64(addr as u64)
    }

    fn as_usize(&self) -> (r: usize) {
        self.0 as usize
    }

    fn page_number(&self) -> (r: usize) {
        proof {
            lemma_virt_fields(self.0);
        }
        self.0.get_bits(12..39) as usize
    }

    fn page_offset(&self) -> (r: usize) {
        proof {
            lemma_virt_fields(self.0);
        }
        self.0.get_bits(0..12) as usize
    }

    fn to_4k_aligned(&self) -> (r: Self) {
        proof {
            use_type_invariant(self);
            lemma_virt_fields(self.0);
        }
        VirtAddrSv39((self.0 >> 12) << 12)
    }
}

impl VirtualAddress for VirtAddrSv39 {

}

impl AddressL3 for VirtAddrSv39 {
    fn p3_index(&self) -> (r: usize) {
        proof {
            lemma_virt_fields(self.0);
        }
        self.0.get_bits(30..39) as usize
    }

    fn p2_index(&self) -> (r: usize) {
        proof {
            lemma_virt_fields(self.0);
        }
        self.0.get_bits(21..30) as usize
    }

    fn p1_index(&self) -> (r: usize) {
        proof {
            lemma_virt_fields(self.0);
        }
        self.0.get_bits(12..21) as usize
    }

    fn from_page_table_indices(p3_index: usize, p2_index: usize, p1_index: usize, offset: usize) -> (r:
        Self) {
        let p3_index = p3_index as u64;
        let p2_index = p2_index as u64;
        let p1_index = p1_index as u64;
        let offset = offset as u64;
        proof {
            lemma_virt_compose(p3_index, p2_index, p1_index, offset);
        }
        let mut addr = (p3_index << 12 << 9 << 9) | (p2_index << 12 << 9) | (p1_index << 12)
            | offset;
        if addr.get_bit(38) {
            addr.set_bits(39..64, 0x1ff_ffff);
        } else {
            addr.set_bits(39..64, 0x0000);
        }
        VirtAddrSv39::new_u64(addr)
    }
}

impl AddressX64 for VirtAddrSv39 {
    fn new_u64(addr: u64) -> (r: Self) {
        VirtAddrSv39(addr)
    }

    fn as_u64(&self) -> (r: u64) {
        proof {
            use_type_invariant(self);
        }
        self.0
    }
}

/// An Sv39 physical address: bits 56..64 are zero.
#[derive(Debug, Copy, Clone, PartialEq, Eq, PartialOrd, Ord)]
pub struct PhysAddrSv39(u64);

impl PhysAddrSv39 {
    #[verifier::type_invariant]
    spec fn inv(self) -> bool {
        sv39_physical(self.0)
    }
}

impl Address for PhysAddrSv39 {
    open spec fn spec_valid(addr: u64) -> bool {
        sv39_physical(addr)
    }

    closed spec fn spec_u64(&self) -> u64 {
        self.0
    }

    open spec fn spec_page_number(addr: u64) -> u64 {
        (addr >> 12u64) & low_mask_u64(44)
    }

    fn new(addr: usize) -> (r: Self) {
        Self::new_u64(addr as u64)
    }

    fn as_usize(&self) -> (r: usize) {
        self.0 as usize
    }

    fn page_number(&self) -> (r: usize) {
        self.0.get_bits(12..56) as usize
    }

    fn page_offset(&self) -> (r: usize) {
        proof {
            lemma_phys_fields(self.0);
        }
        self.0.get_bits(0..12) as usize
    }

    fn to_4k_aligned(&self) -> (r: Self) {
        proof {
            use_type_invariant(self);
            lemma_phys_fields(self.0);
        }
        PhysAddrSv39((self.0 >> 12) << 12)
    }
}

impl PhysicalAddress for PhysAddrSv39 {

}

impl AddressX64 for PhysAddrSv39 {
    fn new_u64(addr: u64) -> (r: Self) {
        PhysAddrSv39(addr)
    }

    fn as_u64(&self) -> (r: u64) {
        proof {
            use_type_invariant(self);
        }
        self.0
    }
}

/// A lemma on 4 KiB-aligned addresses made by shifting a page number.
proof fn lemma_shifted_aligned(n: u64)
    by (bit_vector)
    ensures
        (n << 12u64) % 4096 == 0,
        ((n << 12u64) >> 12u64) << 12u64 == n << 12u64,
        (n >> 44u64 == 0) ==> (n << 12u64) >> 56u64 == 0,
        (n >> 44u64 == 0) ==> ((n << 12u64) >> 12u64) & low_mask_u64(44) == n,
{
}

/// Pages (or frames) given by the indices of their three page-table levels.
pub trait PageWithL3: Sized {
    /// The first address of the page.
    spec fn spec_start(&self) -> u64;

    fn p3_index(&self) -> (r: usize)
        ensures
            r == table_index(self.spec_start(), 30),
            r < 512,
    ;

    fn p2_index(&self) -> (r: usize)
        ensures
            r == table_index(self.spec_start(), 21),
            r < 512,
    ;

    fn p1_index(&self) -> (r: usize)
        ensures
            r == table_index(self.spec_start(), 12),
            r < 512,
    ;

    fn from_page_table_indices(p3_index: usize, p2_index: usize, p1_index: usize) -> (r: Self)
        requires
            p3_index < 0x200,
            p2_index < 0x200,
            p1_index < 0x200,
        ensures
            r.spec_start() == sv39_compose(p3_index as u64, p2_index as u64, p1_index as u64, 0),
    ;
}

/// A 4 KiB virtual page, named by its first address.
#[derive(Debug, Copy, PartialEq, Eq, PartialOrd, Ord)]
pub struct PageWith<T: VirtualAddress + AddressX64>(T);

impl<T: VirtualAddress + AddressX64> Clone for PageWith<T> {
    fn clone(&self) -> (r: Self)
        ensures
            r == *self,
    {
        proof {
            use_type_invariant(self);
        }
        PageWith(self.0)
    }
}

impl<T: VirtualAddress + AddressX64> PageWith<T> {
    #[verifier::type_invariant]
    spec fn inv(self) -> bool {
        self.0.spec_u64() % 4096 == 0
    }

    /// The first address of the page.
    pub closed spec fn spec_start(&self) -> u64 {
        self.0.spec_u64()
    }

    /// The page that holds `addr`.
    pub fn of_addr(addr: T) -> (r: Self)
        ensures
            r.spec_start() == addr.spec_u64() - addr.spec_u64() % 4096,
    {
        let a = addr.to_4k_aligned();
        proof {
            lemma_virt_fields(a.spec_u64());
            lemma_phys_fields(a.spec_u64());
            lemma_virt_fields(addr.spec_u64());
            lemma_shifted_aligned(addr.spec_u64() >> 12u64);
        }
        PageWith(a)
    }

    /// The page with number `vpn`.
    pub fn of_vpn(vpn: usize) -> (r: Self)
        requires
            T::spec_valid((vpn << 12usize) as u64),
        ensures
            r.spec_start() == (vpn << 12usize) as u64,
    {
        proof {
            lemma_usize_shift_aligned(vpn);
        }
        PageWith(T::new(vpn << 12))
    }

    pub fn start_address(&self) -> (r: T)
        ensures
            r.spec_u64() == self.spec_start(),
    {
        self.0
    }

    pub fn number(&self) -> (r: usize)
        ensures
            r == T::spec_page_number(self.spec_start()) as usize,
    {
        self.0.page_number()
    }
}

proof fn lemma_usize_shift_aligned(n: usize)
    by (bit_vector)
    ensures
        ((n << 12usize) as u64) % 4096 == 0,
{
}

impl<T: VirtualAddress + AddressX64 + AddressL3> PageWithL3 for PageWith<T> {
    open spec fn spec_start(&self) -> u64 {
        PageWith::<T>::spec_start(self)
    }

    fn p3_index(&self) -> (r: usize) {
        self.0.p3_index()
    }

    fn p2_index(&self) -> (r: usize) {
        self.0.p2_index()
    }

    fn p1_index(&self) -> (r: usize) {
        self.0.p1_index()
    }

    fn from_page_table_indices(p3_index: usize, p2_index: usize, p1_index: usize) -> (r: Self) {
        let p = PageWith::of_addr(T::from_page_table_indices(p3_index, p2_index, p1_index, 0));
        proof {
            lemma_virt_compose(p3_index as u64, p2_index as u64, p1_index as u64, 0);
        }
        p
    }
}

/// A 4 KiB physical frame, named by its first address.
#[derive(Debug, Copy, PartialEq, Eq, PartialOrd, Ord)]
pub struct FrameWith<T: PhysicalAddress + AddressX64>(T);

impl<T: PhysicalAddress + AddressX64> Clone for FrameWith<T> {
    fn clone(&self) -> (r: Self)
        ensures
            r == *self,
    {
        proof {
            use_type_invariant(self);
        }
        FrameWith(self.0)
    }
}

impl<T: PhysicalAddress + AddressX64> FrameWith<T> {
    #[verifier::type_invariant]
    spec fn inv(self) -> bool {
        self.0.spec_u64() % 4096 == 0
    }

    /// The first address of the frame.
    pub closed spec fn spec_start(&self) -> u64 {
        self.0.spec_u64()
    }

    /// The frame that holds `addr`.
    pub fn of_addr(addr: T) -> (r: Self)
        ensures
            r.spec_start() == addr.spec_u64() - addr.spec_u64() % 4096,
    {
        let a = addr.to_4k_aligned();
        proof {
            lemma_phys_fields(a.spec_u64());
            lemma_phys_fields(addr.spec_u64());
            lemma_shifted_aligned(addr.spec_u64() >> 12u64);
        }
        FrameWith(a)
    }

    /// The frame with number `ppn`.
    pub fn of_ppn(ppn: usize) -> (r: Self)
        requires
            T::spec_valid((ppn as u64) << 12u64),
        ensures
            r.spec_start() == (ppn as u64) << 12u64,
    {
        proof {
            lemma_shifted_aligned(ppn as u64);
        }
        FrameWith(T::new_u64((ppn as u64) << 12))
    }

    pub fn start_address(&self) -> (r: T)
        ensures
            r.spec_u64() == self.spec_start(),
            r.spec_u64() % 4096 == 0,
    {
        proof {
            use_type_invariant(self);
        }
        self.0
    }

    pub fn number(&self) -> (r: usize)
        ensures
            r == T::spec_page_number(self.spec_start()) as usize,
    {
        self.0.page_number()
    }
}

pub type VirtAddr = VirtAddrSv39;

pub type PhysAddr = PhysAddrSv39;

pub type Page = PageWith<VirtAddr>;

pub type Frame = FrameWith<PhysAddr>;

} // verus!
