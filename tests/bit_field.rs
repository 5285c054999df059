use kernel_mm::bit_field::{to_regular_range, BitArray, BitField};
use std::ops::Bound;

#[test]
fn nine_bit_field_round_trip_u16() {
    let mut x: u16 = 0;
    x.set_bits(0..9, 511);
    assert_eq!(x.get_bits(0..9), 511);
    assert_eq!(x, 0x01ff);
}

#[test]
fn set_bits_keeps_other_bits() {
    let mut x: u16 = 0xffff;
    x.set_bits(4..8, 0b0101);
    assert_eq!(x, 0xff5f);
    assert_eq!(x.get_bits(4..8), 0b0101);
    assert_eq!(x.get_bits(0..4), 0xf);
    assert_eq!(x.get_bits(8..16), 0xff);
}

#[test]
fn get_and_set_single_bits() {
    let mut x: u64 = 0;
    x.set_bit(63, true);
    assert!(x.get_bit(63));
    assert!(!x.get_bit(62));
    assert_eq!(x, 1u64 << 63);
    x.set_bit(63, false);
    assert_eq!(x, 0);
    let mut b: u8 = 0b1010_1010;
    b.set_bit(0, true);
    assert_eq!(b, 0b1010_1011);
    assert!(b.get_bit(7));
}

#[test]
fn full_width_ranges() {
    let x: u32 = 0xdead_beef;
    assert_eq!(x.get_bits(0..32), 0xdead_beef);
    let mut y: u32 = 0;
    y.set_bits(0..32, 0x1234_5678);
    assert_eq!(y, 0x1234_5678);
    let z: u64 = u64::MAX;
    assert_eq!(z.get_bits(0..64), u64::MAX);
    assert_eq!(z.get_bits(60..64), 0xf);
    let w: usize = 0b1100;
    assert_eq!(w.get_bits(2..4), 0b11);
}

#[test]
fn bit_lengths() {
    assert_eq!(<u8 as BitField>::bit_length(), 8);
    assert_eq!(<u16 as BitField>::bit_length(), 16);
    assert_eq!(<u32 as BitField>::bit_length(), 32);
    assert_eq!(<u64 as BitField>::bit_length(), 64);
    let s: [u8; 3] = [0, 0, 0];
    assert_eq!(BitArray::<u8>::bit_length(&s[..]), 24);
}

#[test]
fn slice_fields_within_one_element() {
    let s: [u8; 2] = [0b1011_0000, 0b0000_0001];
    assert_eq!(s[..].get_bits(4..8), 0b1011);
    assert!(s[..].get_bit(8));
    assert!(!s[..].get_bit(9));
}

#[test]
fn slice_fields_across_two_elements() {
    let s: [u8; 2] = [0b1010_0000, 0b0000_0110];
    // bits 5..11: 101 from the first byte (bits 5,6,7), 0110's low 3 bits from the second
    assert_eq!(s[..].get_bits(5..11), 0b110_101);
    let mut t: [u8; 2] = [0, 0];
    t[..].set_bits(6..12, 0b11_1111);
    assert_eq!(t, [0b1100_0000, 0b0000_1111]);
    let mut u: [u16; 2] = [0xffff, 0xffff];
    u[..].set_bits(12..20, 0);
    assert_eq!(u, [0x0fff, 0xfff0]);
    assert_eq!(u[..].get_bits(8..24), 0xf00f);
}

#[test]
fn slice_field_ending_on_element_boundary() {
    let s: [u8; 2] = [0xf0, 0xff];
    assert_eq!(s[..].get_bits(4..8), 0xf);
    let mut t: [u8; 2] = [0, 0];
    t[..].set_bits(4..8, 0xa);
    assert_eq!(t, [0xa0, 0]);
}

#[test]
fn slice_single_bits() {
    let mut t: [u32; 2] = [0, 0];
    t[..].set_bit(33, true);
    assert_eq!(t, [0, 2]);
    assert!(t[..].get_bit(33));
    t[..].set_bit(33, false);
    assert_eq!(t, [0, 0]);
}

#[test]
fn regular_ranges_from_bounds() {
    let r = to_regular_range(Bound::Included(3), Bound::Excluded(9), 16);
    assert_eq!((r.start, r.end), (3, 9));
    let r = to_regular_range(Bound::Excluded(3), Bound::Included(9), 16);
    assert_eq!((r.start, r.end), (4, 10));
    let r = to_regular_range(Bound::Unbounded, Bound::Unbounded, 16);
    assert_eq!((r.start, r.end), (0, 16));
}

#[test]
fn wide_fields_u128() {
    let mut x: u128 = 0;
    x.set_bits(60..100, 0xab_cdef_0123);
    assert_eq!(x.get_bits(60..100), 0xab_cdef_0123);
    assert_eq!(x, 0xab_cdef_0123u128 << 60);
    x.set_bit(127, true);
    assert!(x.get_bit(127));
    assert_eq!(<u128 as BitField>::bit_length(), 128);
}
