use vstd::prelude::*;
use crate::address::{Frame, FrameWith};
use crate::bit_field::{BitField, low_mask_usize};

verus! {

/// The address-translation schemes that the satp mode field selects.
#[derive(Clone, Copy, Debug, PartialEq, Eq)]
pub enum Mode {
    Bare,
    Sv39,
    Sv48,
    Sv57,
    Sv64,
}

/// The mode that a satp mode field (bits 60..64) encodes, if any.
pub open spec fn mode_of(field: usize) -> Option<Mode> {
    if field == 0 {
        Some(Mode::Bare)
    } else if field == 8 {
        Some(Mode::Sv39)
    } else if field == 9 {
        Some(Mode::Sv48)
    } else if field == 10 {
        Some(Mode::Sv57)
    } else if field == 11 {
        Some(Mode::Sv64)
    } else {
        None
    }
}

/// The mode field value of a mode.
pub open spec fn mode_field(mode: Mode) -> usize {
    match mode {
        Mode::Bare => 0,
        Mode::Sv39 => 8,
        Mode::Sv48 => 9,
        Mode::Sv57 => 10,
        Mode::Sv64 => 11,
    }
}

impl Mode {
    /// The value of the satp mode field that selects this mode.
    pub fn field(&self) -> (r: usize)
        ensures
            r == mode_field(*self),
    {
        match self {
            Mode::Bare => 0,
            Mode::Sv39 => 8,
            Mode::Sv48 => 9,
            Mode::Sv57 => 10,
            Mode::Sv64 => 11,
        }
    }
}

proof fn lemma_mode_fields_fit(m: usize)
    by (bit_vector)
    requires
        m <= 11,
        usize::BITS == 64,
    ensures
        m >> 4usize == 0,
{
}

/// A value of the satp register: mode (bits 60..64), address-space identifier (bits 44..60)
/// and root frame number (bits 0..44).
#[derive(Clone, Copy, Debug)]
pub struct Satp {
    bits: usize,
}

proof fn lemma_ppn_frame(bits: usize)
    by (bit_vector)
    requires
        usize::BITS == 64,
    ensures
        ((((bits >> 0usize) & low_mask_usize(44)) as u64) << 12u64) >> 56u64 == 0,
{
}

impl Satp {
    pub closed spec fn spec_bits(&self) -> usize {
        self.bits
    }

    /// The register value `bits`.
    pub fn from_bits(bits: usize) -> (r: Satp)
        ensures
            r.spec_bits() == bits,
    {
        Satp { bits }
    }

    /// The register value that selects `mode`, address-space identifier `asid` and root
    /// frame number `ppn`.
    pub fn from_fields(mode: Mode, asid: usize, ppn: usize) -> (r: Satp)
        requires
            usize::BITS == 64,
            <usize as BitField>::spec_fits(asid, 16),
            <usize as BitField>::spec_fits(ppn, 44),
        ensures
            r.spec_bits() == 0usize.spec_set_bits(60, 64, mode_field(mode)).spec_set_bits(
                44,
                60,
                asid,
            ).spec_set_bits(0, 44, ppn),
    {
        let m = mode.field();
        proof {
            lemma_mode_fields_fit(m);
        }
        let mut bits: usize = 0;
        bits.set_bits(60..64, m);
        bits.set_bits(44..60, asid);
        bits.set_bits(0..44, ppn);
        Satp { bits }
    }

    /// The contents of the register as raw bits.
    pub fn bits(&self) -> (r: usize)
        ensures
            r == self.spec_bits(),
    {
        self.bits
    }

    /// The address-translation scheme.
    pub fn mode(&self) -> (r: Mode)
        requires
            usize::BITS == 64,
            mode_of(self.spec_bits().spec_get_bits(60, 64)) is Some,
        ensures
            Some(r) == mode_of(self.spec_bits().spec_get_bits(60, 64)),
    {
        match self.bits.get_bits(60..64) {
            0 => Mode::Bare,
            8 => Mode::Sv39,
            9 => Mode::Sv48,
            10 => Mode::Sv57,
            _ => Mode::Sv64,
        }
    }

    /// The address-space identifier.
    pub fn asid(&self) -> (r: usize)
        requires
            usize::BITS == 64,
        ensures
            r == self.spec_bits().spec_get_bits(44, 60),
    {
        self.bits.get_bits(44..60)
    }

    /// The frame number of the root page table.
    pub fn ppn(&self) -> (r: usize)
        requires
            usize::BITS == 64,
        ensures
            r == self.spec_bits().spec_get_bits(0, 44),
    {
        self.bits.get_bits(0..44)
    }

    /// The frame of the root page table.
    pub fn frame(&self) -> (r: Frame)
        requires
            usize::BITS == 64,
        ensures
            r.spec_start() == (self.spec_bits().spec_get_bits(0, 44) as u64) << 12u64,
    {
        proof {
            lemma_ppn_frame(self.bits);
        }
        Frame::of_ppn(self.ppn())
    }
}

} // verus!
