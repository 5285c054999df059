use vstd::prelude::*;
use core::ops::{Bound, Range};

verus! {

/// Fixed-width integers whose bits can be read and written by position and by range.
///
/// A range is half-open: `start..end` names bits `start, start + 1, ..., end - 1`, bit 0
/// being the least significant.
pub trait BitField: Sized + Copy {
    /// Number of bits of the type.
    spec fn spec_bit_length() -> nat;

    /// Whether bit `i` of the value is set.
    spec fn spec_bit(self, i: nat) -> bool;

    /// The bits `start..end` of the value, moved down to bit 0; the bits above are zero.
    spec fn spec_get_bits(self, start: nat, end: nat) -> Self;

    /// The value with bits `start..end` replaced by the low `end - start` bits of `value`.
    spec fn spec_set_bits(self, start: nat, end: nat, value: Self) -> Self;

    /// Whether `value` has no set bit at position `width` or above.
    spec fn spec_fits(value: Self, width: nat) -> bool;

    fn bit_length() -> (r: usize)
        ensures
            r == Self::spec_bit_length(),
            0 < r <= 128,
    ;

    fn get_bit(&self, bit: usize) -> (r: bool)
        requires
            bit < Self::spec_bit_length(),
        ensures
            r == self.spec_bit(bit as nat),
    ;

    fn get_bits(&self, range: Range<usize>) -> (r: Self)
        requires
            range.start < range.end <= Self::spec_bit_length(),
        ensures
            r == self.spec_get_bits(range.start as nat, range.end as nat),
    ;

    fn set_bit(&mut self, bit: usize, value: bool)
        requires
            bit < Self::spec_bit_length(),
        ensures
            forall|i: nat|
                i < Self::spec_bit_length() ==> #[trigger] final(self).spec_bit(i) == if i == bit {
                    value
                } else {
                    old(self).spec_bit(i)
                },
    ;

    fn set_bits(&mut self, range: Range<usize>, value: Self)
        requires
            range.start < range.end <= Self::spec_bit_length(),
            Self::spec_fits(value, (range.end - range.start) as nat),
        ensures
            *final(self) == old(self).spec_set_bits(range.start as nat, range.end as nat, value),
    ;

    /// Bit `i` of a field read by `spec_get_bits`.
    proof fn lemma_get_bits_bit(self, start: nat, end: nat, i: nat)
        requires
            start < end <= Self::spec_bit_length(),
            i < Self::spec_bit_length(),
        ensures
            self.spec_get_bits(start, end).spec_bit(i) == (i < end - start && self.spec_bit(
                start + i,
            )),
    ;

    /// Bit `i` of a value written by `spec_set_bits`.
    proof fn lemma_set_bits_bit(self, start: nat, end: nat, value: Self, i: nat)
        requires
            start < end <= Self::spec_bit_length(),
            Self::spec_fits(value, (end - start) as nat),
            i < Self::spec_bit_length(),
        ensures
            self.spec_set_bits(start, end, value).spec_bit(i) == if start <= i < end {
                value.spec_bit((i - start) as nat)
            } else {
                self.spec_bit(i)
            },
    ;

    /// A field read by `spec_get_bits` fits its width; read from a value that fits `width`
    /// bits, it also fits what is left of that width above `start`.
    proof fn lemma_get_bits_fits(self, start: nat, end: nat, width: nat)
        requires
            start < end <= Self::spec_bit_length(),
        ensures
            Self::spec_fits(self.spec_get_bits(start, end), (end - start) as nat),
            Self::spec_fits(self, width) && start < width ==> Self::spec_fits(
                self.spec_get_bits(start, end),
                (width - start) as nat,
            ),
    ;

    /// Whether bit 0 of the value is set when it is 0 or 1.
    proof fn lemma_unit_bits(value: Self, one: bool)
        requires
            value == Self::spec_unit(one),
        ensures
            value.spec_bit(0) == one,
            Self::spec_fits(value, 1),
    ;

    /// 1 when `one` holds, else 0.
    spec fn spec_unit(one: bool) -> Self;

    fn unit(one: bool) -> (r: Self)
        ensures
            r == Self::spec_unit(one),
    ;
}

/// Declares std's `core::ops::Bound` (its three public variants as they stand), which
/// `to_regular_range` takes apart.
#[verifier::external_type_specification]
#[verifier::reject_recursive_types(T)]
pub struct ExBound<T>(Bound<T>);

/// The first bit position that a start bound admits.
pub open spec fn spec_start_of(bound: Bound<usize>) -> int {
    match bound {
        Bound::Included(v) => v as int,
        Bound::Excluded(v) => v + 1,
        Bound::Unbounded => 0,
    }
}

/// The position after the last bit that an end bound admits.
pub open spec fn spec_end_of(bound: Bound<usize>, bit_length: usize) -> int {
    match bound {
        Bound::Included(v) => v + 1,
        Bound::Excluded(v) => v as int,
        Bound::Unbounded => bit_length as int,
    }
}

/// Turns a pair of range bounds (inclusive, exclusive or open) over a value of
/// `bit_length` bits into the half-open range of the bits it names.
pub fn to_regular_range(start: Bound<usize>, end: Bound<usize>, bit_length: usize) -> (r: Range<
    usize,
>)
    requires
        spec_start_of(start) <= usize::MAX,
        spec_end_of(end, bit_length) <= usize::MAX,
    ensures
        r.start == spec_start_of(start),
        r.end == spec_end_of(end, bit_length),
{
    let start = match start {
        Bound::Excluded(value) => value + 1,
        Bound::Included(value) => value,
        Bound::Unbounded => 0,
    };
    let end = match end {
        Bound::Excluded(value) => value,
        Bound::Included(value) => value + 1,
        Bound::Unbounded => bit_length,
    };
    start..end
}

/// Bit `j` of a sequence of integers laid end to end, element 0 holding the lowest bits.
pub open spec fn seq_bit<T: BitField>(s: Seq<T>, j: nat) -> bool {
    s[(j / T::spec_bit_length()) as int].spec_bit(j % T::spec_bit_length())
}

/// Slices of integers read and written as one long bit string (see `seq_bit`).
///
/// A range may cover at most one element's width and at most two adjacent elements.
pub trait BitArray<T: BitField> {
    spec fn spec_bits(&self) -> Seq<T>;

    fn bit_length(&self) -> (r: usize)
        requires
            self.spec_bits().len() * T::spec_bit_length() <= usize::MAX,
        ensures
            r == self.spec_bits().len() * T::spec_bit_length(),
    ;

    fn get_bit(&self, bit: usize) -> (r: bool)
        requires
            bit < self.spec_bits().len() * T::spec_bit_length(),
        ensures
            r == seq_bit(self.spec_bits(), bit as nat),
    ;

    fn get_bits(&self, range: Range<usize>) -> (r: T)
        requires
            range.start < range.end <= self.spec_bits().len() * T::spec_bit_length(),
            range.end - range.start <= T::spec_bit_length(),
            range.end as nat / T::spec_bit_length() - range.start as nat / T::spec_bit_length() <= 1,
        ensures
            forall|i: nat|
                i < T::spec_bit_length() ==> #[trigger] r.spec_bit(i) == (i < range.end
                    - range.start && seq_bit(self.spec_bits(), (range.start + i) as nat)),
    ;

    fn set_bit(&mut self, bit: usize, value: bool)
        requires
            bit < old(self).spec_bits().len() * T::spec_bit_length(),
        ensures
            final(self).spec_bits().len() == old(self).spec_bits().len(),
            forall|j: nat|
                j < old(self).spec_bits().len() * T::spec_bit_length() ==> #[trigger] seq_bit(
                    final(self).spec_bits(),
                    j,
                ) == if j == bit {
                    value
                } else {
                    seq_bit(old(self).spec_bits(), j)
                },
    ;

    fn set_bits(&mut self, range: Range<usize>, value: T)
        requires
            range.start < range.end <= old(self).spec_bits().len() * T::spec_bit_length(),
            range.end - range.start <= T::spec_bit_length(),
            range.end as nat / T::spec_bit_length() - range.start as nat / T::spec_bit_length() <= 1,
            T::spec_fits(value, (range.end - range.start) as nat),
        ensures
            final(self).spec_bits().len() == old(self).spec_bits().len(),
            forall|j: nat|
                j < old(self).spec_bits().len() * T::spec_bit_length() ==> #[trigger] seq_bit(
                    final(self).spec_bits(),
                    j,
                ) == if range.start <= j < range.end {
                    value.spec_bit((j - range.start) as nat)
                } else {
                    seq_bit(old(self).spec_bits(), j)
                },
    ;
}

/// `j` split into element `q` and bit `r` within it.
proof fn lemma_split_index(j: int, len: int, q: int, r: int)
    requires
        len > 0,
        0 <= r < len,
        j == q * len + r,
    ensures
        j / len == q,
        j % len == r,
{
    vstd::arithmetic::div_mod::lemma_fundamental_div_mod_converse(j, len, q, r);
}

/// A bit position below `n * len` lies in one of the first `n` elements.
proof fn lemma_index_in(j: int, n: int, len: int)
    requires
        len > 0,
        0 <= j < n * len,
    ensures
        0 <= j / len < n,
        0 <= j % len < len,
        j == (j / len) * len + j % len,
{
    vstd::arithmetic::div_mod::lemma_fundamental_div_mod(j, len);
    vstd::arithmetic::div_mod::lemma_mod_pos_bound(j, len);
    vstd::arithmetic::div_mod::lemma_div_pos_is_pos(j, len);
    let q = j / len;
    let r = j % len;
    assert(q < n) by (nonlinear_arith)
        requires
            j == len * q + r,
            r >= 0,
            j < n * len,
            len > 0,
    ;
    assert(j == q * len + r) by (nonlinear_arith)
        requires
            j == len * q + r,
    ;
}

/// How a range `start..end` of bit positions falls on elements of width `len`.
proof fn lemma_range_split(start: int, end: int, n: int, len: int)
    requires
        len > 0,
        0 <= start < end <= n * len,
        end / len - start / len <= 1,
    ensures
        start == (start / len) * len + start % len,
        end == (end / len) * len + end % len,
        0 <= start / len < n,
        0 <= start % len < len,
        0 <= end % len < len,
        start / len <= end / len,
        end / len == start / len ==> start % len < end % len,
        end / len == start / len + 1 ==> end - start == len - start % len + end % len,
        end / len == start / len + 1 && end % len > 0 ==> end / len < n,
{
    lemma_index_in(start, n, len);
    vstd::arithmetic::div_mod::lemma_fundamental_div_mod(end, len);
    vstd::arithmetic::div_mod::lemma_mod_pos_bound(end, len);
    vstd::arithmetic::div_mod::lemma_div_is_ordered(start, end, len);
    let qs = start / len;
    let qe = end / len;
    assert(end == qe * len + end % len) by (nonlinear_arith)
        requires
            end == len * qe + end % len,
    ;
    if qe == qs + 1 {
        assert(end - start == len - start % len + end % len) by (nonlinear_arith)
            requires
                end == qe * len + end % len,
                start == qs * len + start % len,
                qe == qs + 1,
        ;
        if end % len > 0 {
            if qe >= n {
                assert(qe * len >= n * len) by (nonlinear_arith)
                    requires
                        qe >= n,
                        len > 0,
                ;
            }
        }
    }
}

impl<T: BitField> BitArray<T> for [T] {
    open spec fn spec_bits(&self) -> Seq<T> {
        self@
    }

    fn bit_length(&self) -> (r: usize) {
        self.len() * T::bit_length()
    }

    fn get_bit(&self, bit: usize) -> (r: bool) {
        let len = T::bit_length();
        proof {
            lemma_index_in(bit as int, self@.len() as int, len as int);
        }
        let slice_index = bit / len;
        let bit_index = bit % len;
        self[slice_index].get_bit(bit_index)
    }

    fn get_bits(&self, range: Range<usize>) -> (r: T) {
        let len = T::bit_length();
        let ghost n = self@.len() as int;
        let ghost s = range.start as int;
        let ghost e = range.end as int;
        proof {
            lemma_range_split(s, e, n, len as int);
        }
        let slice_start = range.start / len;
        let slice_end = range.end / len;
        let bit_start = range.start % len;
        let bit_end = range.end % len;
        let width = range.end - range.start;
        if slice_start == slice_end {
            let r = self[slice_start].get_bits(bit_start..bit_end);
            proof {
                assert forall|i: nat| i < len implies #[trigger] r.spec_bit(i) == (i < e - s
                    && seq_bit(self@, (s + i) as nat)) by {
                    self@[slice_start as int].lemma_get_bits_bit(
                        bit_start as nat,
                        bit_end as nat,
                        i,
                    );
                    if i < e - s {
                        lemma_split_index(
                            s + i,
                            len as int,
                            slice_start as int,
                            bit_start + i,
                        );
                    }
                }
            }
            r
        } else if bit_end == 0 {
            let r = self[slice_start].get_bits(bit_start..len);
            proof {
                assert forall|i: nat| i < len implies #[trigger] r.spec_bit(i) == (i < e - s
                    && seq_bit(self@, (s + i) as nat)) by {
                    self@[slice_start as int].lemma_get_bits_bit(bit_start as nat, len as nat, i);
                    if i < e - s {
                        lemma_split_index(
                            s + i,
                            len as int,
                            slice_start as int,
                            bit_start + i,
                        );
                    }
                }
            }
            r
        } else {
            let low = self[slice_start].get_bits(bit_start..len);
            let high = self[slice_end].get_bits(0..bit_end);
            let mut ret = low;
            proof {
                self@[slice_end as int].lemma_get_bits_fits(0, bit_end as nat, 0);
            }
            ret.set_bits((len - bit_start)..width, high);
            proof {
                assert forall|i: nat| i < len implies #[trigger] ret.spec_bit(i) == (i < e - s
                    && seq_bit(self@, (s + i) as nat)) by {
                    low.lemma_set_bits_bit((len - bit_start) as nat, width as nat, high, i);
                    self@[slice_start as int].lemma_get_bits_bit(bit_start as nat, len as nat, i);
                    if len - bit_start <= i < width {
                        self@[slice_end as int].lemma_get_bits_bit(
                            0,
                            bit_end as nat,
                            (i - (len - bit_start)) as nat,
                        );
                        lemma_split_index(
                            s + i,
                            len as int,
                            slice_end as int,
                            bit_start + i - len,
                        );
                    } else if i < len - bit_start {
                        lemma_split_index(
                            s + i,
                            len as int,
                            slice_start as int,
                            bit_start + i,
                        );
                    }
                }
            }
            ret
        }
    }

    fn set_bit(&mut self, bit: usize, value: bool) {
        let len = T::bit_length();
        let ghost old_bits = self@;
        let ghost n = self@.len() as int;
        proof {
            lemma_index_in(bit as int, n, len as int);
        }
        let slice_index = bit / len;
        let bit_index = bit % len;
        self[slice_index].set_bit(bit_index, value);
        proof {
            assert forall|j: nat| j < n * len implies #[trigger] seq_bit(self@, j) == if j == bit {
                value
            } else {
                seq_bit(old_bits, j)
            } by {
                lemma_index_in(j as int, n, len as int);
                if j / (len as nat) == slice_index {
                    if j % (len as nat) == bit_index {
                        assert(j == bit);
                    } else {
                        assert(j != bit);
                    }
                } else {
                    assert(j != bit);
                }
            }
        }
    }

    fn set_bits(&mut self, range: Range<usize>, value: T) {
        let len = T::bit_length();
        let ghost old_bits = self@;
        let ghost n = self@.len() as int;
        let ghost s = range.start as int;
        let ghost e = range.end as int;
        proof {
            lemma_range_split(s, e, n, len as int);
        }
        let slice_start = range.start / len;
        let slice_end = range.end / len;
        let bit_start = range.start % len;
        let bit_end = range.end % len;
        let width = range.end - range.start;
        let ghost low_value = value;
        let ghost high_value = value;
        if slice_start == slice_end {
            self[slice_start].set_bits(bit_start..bit_end, value);
        } else if bit_end == 0 {
            self[slice_start].set_bits(bit_start..len, value);
        } else {
            let low = value.get_bits(0..len - bit_start);
            let high = value.get_bits(len - bit_start..len);
            proof {
                value.lemma_get_bits_fits(0, (len - bit_start) as nat, 0);
                value.lemma_get_bits_fits((len - bit_start) as nat, len as nat, width as nat);
                low_value = low;
                high_value = high;
            }
            self[slice_start].set_bits(bit_start..len, low);
            self[slice_end].set_bits(0..bit_end, high);
        }
        proof {
            assert forall|j: nat| j < n * len implies #[trigger] seq_bit(self@, j) == if s <= j
                < e {
                value.spec_bit((j - s) as nat)
            } else {
                seq_bit(old_bits, j)
            } by {
                lemma_index_in(j as int, n, len as int);
                let q = j / (len as nat);
                let r = j % (len as nat);
                if q == slice_start {
                    if slice_start == slice_end {
                        old_bits[q as int].lemma_set_bits_bit(
                            bit_start as nat,
                            bit_end as nat,
                            value,
                            r,
                        );
                    } else {
                        old_bits[q as int].lemma_set_bits_bit(
                            bit_start as nat,
                            len as nat,
                            low_value,
                            r,
                        );
                        if bit_end != 0 && bit_start <= r {
                            value.lemma_get_bits_bit(
                                0,
                                (len - bit_start) as nat,
                                (r - bit_start) as nat,
                            );
                        }
                    }
                } else if q == slice_end && bit_end != 0 {
                    old_bits[q as int].lemma_set_bits_bit(0, bit_end as nat, high_value, r);
                    if r < bit_end {
                        value.lemma_get_bits_bit(
                            (len - bit_start) as nat,
                            len as nat,
                            r,
                        );
                    }
                } else {
                    if q < slice_start {
                        assert(j < s) by (nonlinear_arith)
                            requires
                                j == q * len + r,
                                r < len,
                                q < slice_start,
                                s == slice_start * len + bit_start,
                        ;
                    } else {
                        assert(j >= e) by (nonlinear_arith)
                            requires
                                j == q * len + r,
                                q > slice_start,
                                q >= slice_end,
                                q == slice_end ==> bit_end == 0,
                                e == slice_end * len + bit_end,
                                r >= 0,
                                bit_end < len,
                                slice_end <= slice_start + 1,
                        ;
                    }
                }
            }
        }
    }
}

/// Mask of the low `w` bits of a 64-bit word.
pub open spec fn low_mask_u64(w: u64) -> u64 {
    if w >= 64 {
        !0u64
    } else {
        !((!0u64) << w)
    }
}

proof fn lemma_u64_bits(x: u64, v: u64, s: u64, e: u64, i: u64)
    by (bit_vector)
    requires
        s < e <= 64,
        i < 64,
    ensures
        ((((x >> s) & low_mask_u64((e - s) as u64)) >> i) & 1 == 1) == (i < e - s && s + i < 64
            && (x >> (s + i) as u64) & 1 == 1),
        (e - s) >= 64 || v >> (e - s) as u64 == 0 ==> ((((x & !(low_mask_u64((e - s) as u64) << s)) | (v << s)) >> i) & 1 == 1) == if s <= i
            && i < e {
            (v >> (i - s) as u64) & 1 == 1
        } else {
            (x >> i) & 1 == 1
        },
{
}

proof fn lemma_u64_fits(x: u64, s: u64, e: u64, w: u64, one: bool)
    by (bit_vector)
    requires
        s < e <= 64,
    ensures
        (e - s) >= 64 || ((x >> s) & low_mask_u64((e - s) as u64)) >> (e - s) as u64 == 0,
        (w >= 64 || x >> w == 0) && s < w ==> ((w - s) >= 64 || ((x >> s) & low_mask_u64(
            (e - s) as u64,
        )) >> (w - s) as u64 == 0),
        ((if one { 1u64 } else { 0u64 }) >> 0u64) & 1 == 1 <==> one,
        (if one { 1u64 } else { 0u64 }) >> 1u64 == 0,
{
}

impl BitField for u64 {
    open spec fn spec_bit_length() -> nat {
        64
    }

    open spec fn spec_bit(self, i: nat) -> bool {
        i < 64 && (self >> (i as u64)) & 1 == 1
    }

    open spec fn spec_get_bits(self, start: nat, end: nat) -> u64 {
        (self >> (start as u64)) & low_mask_u64((end - start) as u64)
    }

    open spec fn spec_set_bits(self, start: nat, end: nat, value: u64) -> u64 {
        (self & !(low_mask_u64((end - start) as u64) << (start as u64))) | (value << (
        start as u64))
    }

    open spec fn spec_fits(value: u64, width: nat) -> bool {
        width >= 64 || value >> (width as u64) == 0
    }

    fn bit_length() -> (r: usize) {
        64
    }

    fn get_bit(&self, bit: usize) -> (r: bool) {
        (*self >> bit) & 1 == 1
    }

    fn get_bits(&self, range: Range<usize>) -> (r: u64) {
        assert(Self::spec_bit_length() == 64);
        assert(range.end <= 64);
        let width = range.end - range.start;
        let mask: u64 = if width >= 64 {
            !0u64
        } else {
            !((!0u64) << width)
        };
        (*self >> range.start) & mask
    }

    fn set_bit(&mut self, bit: usize, value: bool) {
        let ghost x = *self;
        let v = Self::unit(value);
        proof {
            Self::lemma_unit_bits(v, value);
        }
        self.set_bits(bit..bit + 1, v);
        proof {
            assert forall|i: nat| i < 64 implies #[trigger] self.spec_bit(i) == if i == bit {
                value
            } else {
                x.spec_bit(i)
            } by {
                x.lemma_set_bits_bit(bit as nat, bit as nat + 1, v, i);
            }
        }
    }

    fn set_bits(&mut self, range: Range<usize>, value: u64) {
        let width = range.end - range.start;
        let mask: u64 = if width >= 64 {
            !0u64
        } else {
            !((!0u64) << width)
        };
        *self = (*self & !(mask << range.start)) | (value << range.start);
    }

    proof fn lemma_get_bits_bit(self, start: nat, end: nat, i: nat) {
        lemma_u64_bits(self, 0, start as u64, end as u64, i as u64);
    }

    proof fn lemma_set_bits_bit(self, start: nat, end: nat, value: u64, i: nat) {
        lemma_u64_bits(self, value, start as u64, end as u64, i as u64);
    }

    proof fn lemma_get_bits_fits(self, start: nat, end: nat, width: nat) {
        lemma_u64_fits(self, start as u64, end as u64, width as u64, true);
    }

    proof fn lemma_unit_bits(value: u64, one: bool) {
        lemma_u64_fits(value, 0, 1, 1, one);
    }

    open spec fn spec_unit(one: bool) -> u64 {
        if one {
            1
        } else {
            0
        }
    }

    fn unit(one: bool) -> (r: u64) {
        if one {
            1
        } else {
            0
        }
    }
}

/// Mask of the low `w` bits of a 128-bit word.
pub open spec fn low_mask_u128(w: u128) -> u128 {
    if w >= 128 {
        !0u128
    } else {
        !((!0u128) << w)
    }
}

#[verifier::rlimit(100)]
proof fn lemma_u128_bits(x: u128, v: u128, s: u128, e: u128, i: u128)
    by (bit_vector)
    requires
        s < e <= 128,
        i < 128,
    ensures
        ((((x >> s) & low_mask_u128((e - s) as u128)) >> i) & 1 == 1) == (i < e - s && s + i < 128
            && (x >> (s + i) as u128) & 1 == 1),
        (e - s) >= 128 || v >> (e - s) as u128 == 0 ==> ((((x & !(low_mask_u128((e - s) as u128) << s)) | (v << s)) >> i) & 1 == 1) == if s <= i
            && i < e {
            (v >> (i - s) as u128) & 1 == 1
        } else {
            (x >> i) & 1 == 1
        },
{
}

proof fn lemma_u128_fits(x: u128, s: u128, e: u128, w: u128, one: bool)
    by (bit_vector)
    requires
        s < e <= 128,
    ensures
        (e - s) >= 128 || ((x >> s) & low_mask_u128((e - s) as u128)) >> (e - s) as u128 == 0,
        (w >= 128 || x >> w == 0) && s < w ==> ((w - s) >= 128 || ((x >> s) & low_mask_u128(
            (e - s) as u128,
        )) >> (w - s) as u128 == 0),
        ((if one { 1u128 } else { 0u128 }) >> 0u128) & 1 == 1 <==> one,
        (if one { 1u128 } else { 0u128 }) >> 1u128 == 0,
{
}

impl BitField for u128 {
    open spec fn spec_bit_length() -> nat {
        128
    }

    open spec fn spec_bit(self, i: nat) -> bool {
        i < 128 && (self >> (i as u128)) & 1 == 1
    }

    open spec fn spec_get_bits(self, start: nat, end: nat) -> u128 {
        (self >> (start as u128)) & low_mask_u128((end - start) as u128)
    }

    open spec fn spec_set_bits(self, start: nat, end: nat, value: u128) -> u128 {
        (self & !(low_mask_u128((end - start) as u128) << (start as u128))) | (value << (
        start as u128))
    }

    open spec fn spec_fits(value: u128, width: nat) -> bool {
        width >= 128 || value >> (width as u128) == 0
    }

    fn bit_length() -> (r: usize) {
        128
    }

    fn get_bit(&self, bit: usize) -> (r: bool) {
        (*self >> bit) & 1 == 1
    }

    fn get_bits(&self, range: Range<usize>) -> (r: u128) {
        assert(Self::spec_bit_length() == 128);
        assert(range.end <= 128);
        let width = range.end - range.start;
        let mask: u128 = if width >= 128 {
            !0u128
        } else {
            !((!0u128) << width)
        };
        (*self >> range.start) & mask
    }

    fn set_bit(&mut self, bit: usize, value: bool) {
        let ghost x = *self;
        let v = Self::unit(value);
        proof {
            Self::lemma_unit_bits(v, value);
        }
        self.set_bits(bit..bit + 1, v);
        proof {
            assert forall|i: nat| i < 128 implies #[trigger] self.spec_bit(i) == if i == bit {
                value
            } else {
                x.spec_bit(i)
            } by {
                x.lemma_set_bits_bit(bit as nat, bit as nat + 1, v, i);
            }
        }
    }

    fn set_bits(&mut self, range: Range<usize>, value: u128) {
        let width = range.end - range.start;
        let mask: u128 = if width >= 128 {
            !0u128
        } else {
            !((!0u128) << width)
        };
        *self = (*self & !(mask << range.start)) | (value << range.start);
    }

    proof fn lemma_get_bits_bit(self, start: nat, end: nat, i: nat) {
        lemma_u128_bits(self, 0, start as u128, end as u128, i as u128);
    }

    proof fn lemma_set_bits_bit(self, start: nat, end: nat, value: u128, i: nat) {
        lemma_u128_bits(self, value, start as u128, end as u128, i as u128);
    }

    proof fn lemma_get_bits_fits(self, start: nat, end: nat, width: nat) {
        lemma_u128_fits(self, start as u128, end as u128, width as u128, true);
    }

    proof fn lemma_unit_bits(value: u128, one: bool) {
        lemma_u128_fits(value, 0, 1, 1, one);
    }

    open spec fn spec_unit(one: bool) -> u128 {
        if one {
            1
        } else {
            0
        }
    }

    fn unit(one: bool) -> (r: u128) {
        if one {
            1
        } else {
            0
        }
    }
}

/// Mask of the low `w` bits of a machine word.
pub open spec fn low_mask_usize(w: usize) -> usize {
    if w >= usize::BITS {
        !0usize
    } else {
        !((!0usize) << w)
    }
}

proof fn lemma_usize_bits(x: usize, v: usize, s: usize, e: usize, i: usize)
    by (bit_vector)
    requires
        s < e <= usize::BITS,
        i < usize::BITS,
    ensures
        ((((x >> s) & low_mask_usize((e - s) as usize)) >> i) & 1 == 1) == (i < e - s && s + i < usize::BITS
            && (x >> (s + i) as usize) & 1 == 1),
        (e - s) >= usize::BITS || v >> (e - s) as usize == 0 ==> ((((x & !(low_mask_usize((e - s) as usize) << s)) | (v << s)) >> i) & 1 == 1) == if s <= i
            && i < e {
            (v >> (i - s) as usize) & 1 == 1
        } else {
            (x >> i) & 1 == 1
        },
{
}

proof fn lemma_usize_fits(x: usize, s: usize, e: usize, w: usize, one: bool)
    by (bit_vector)
    requires
        s < e <= usize::BITS,
    ensures
        (e - s) >= usize::BITS || ((x >> s) & low_mask_usize((e - s) as usize)) >> (e - s) as usize == 0,
        (w >= usize::BITS || x >> w == 0) && s < w ==> ((w - s) >= usize::BITS || ((x >> s) & low_mask_usize(
            (e - s) as usize,
        )) >> (w - s) as usize == 0),
        ((if one { 1usize } else { 0usize }) >> 0usize) & 1 == 1 <==> one,
        (if one { 1usize } else { 0usize }) >> 1usize == 0,
{
}

impl BitField for usize {
    open spec fn spec_bit_length() -> nat {
        usize::BITS as nat
    }

    open spec fn spec_bit(self, i: nat) -> bool {
        i < usize::BITS && (self >> (i as usize)) & 1 == 1
    }

    open spec fn spec_get_bits(self, start: nat, end: nat) -> usize {
        (self >> (start as usize)) & low_mask_usize((end - start) as usize)
    }

    open spec fn spec_set_bits(self, start: nat, end: nat, value: usize) -> usize {
        (self & !(low_mask_usize((end - start) as usize) << (start as usize))) | (value << (
        start as usize))
    }

    open spec fn spec_fits(value: usize, width: nat) -> bool {
        width >= usize::BITS || value >> (width as usize) == 0
    }

    fn bit_length() -> (r: usize) {
        usize::BITS as usize
    }

    fn get_bit(&self, bit: usize) -> (r: bool) {
        (*self >> bit) & 1 == 1
    }

    fn get_bits(&self, range: Range<usize>) -> (r: usize) {
        let width = range.end - range.start;
        let mask: usize = if width >= usize::BITS as usize {
            !0usize
        } else {
            !((!0usize) << width)
        };
        (*self >> range.start) & mask
    }

    fn set_bit(&mut self, bit: usize, value: bool) {
        let ghost x = *self;
        let v = Self::unit(value);
        proof {
            Self::lemma_unit_bits(v, value);
        }
        self.set_bits(bit..bit + 1, v);
        proof {
            assert forall|i: nat| i < usize::BITS implies #[trigger] self.spec_bit(i) == if i == bit {
                value
            } else {
                x.spec_bit(i)
            } by {
                x.lemma_set_bits_bit(bit as nat, bit as nat + 1, v, i);
            }
        }
    }

    fn set_bits(&mut self, range: Range<usize>, value: usize) {
        let width = range.end - range.start;
        let mask: usize = if width >= usize::BITS as usize {
            !0usize
        } else {
            !((!0usize) << width)
        };
        *self = (*self & !(mask << range.start)) | (value << range.start);
    }

    proof fn lemma_get_bits_bit(self, start: nat, end: nat, i: nat) {
        lemma_usize_bits(self, 0, start as usize, end as usize, i as usize);
    }

    proof fn lemma_set_bits_bit(self, start: nat, end: nat, value: usize, i: nat) {
        lemma_usize_bits(self, value, start as usize, end as usize, i as usize);
    }

    proof fn lemma_get_bits_fits(self, start: nat, end: nat, width: nat) {
        lemma_usize_fits(self, start as usize, end as usize, width as usize, true);
    }

    proof fn lemma_unit_bits(value: usize, one: bool) {
        lemma_usize_fits(value, 0, 1, 1, one);
    }

    open spec fn spec_unit(one: bool) -> usize {
        if one {
            1
        } else {
            0
        }
    }

    fn unit(one: bool) -> (r: usize) {
        if one {
            1
        } else {
            0
        }
    }
}

/// Mask of the low `w` bits of a 32-bit word.
pub open spec fn low_mask_u32(w: u32) -> u32 {
    if w >= 32 {
        !0u32
    } else {
        !((!0u32) << w)
    }
}

proof fn lemma_u32_bits(x: u32, v: u32, s: u32, e: u32, i: u32)
    by (bit_vector)
    requires
        s < e <= 32,
        i < 32,
    ensures
        ((((x >> s) & low_mask_u32((e - s) as u32)) >> i) & 1 == 1) == (i < e - s && s + i < 32
            && (x >> (s + i) as u32) & 1 == 1),
        (e - s) >= 32 || v >> (e - s) as u32 == 0 ==> ((((x & !(low_mask_u32((e - s) as u32) << s)) | (v << s)) >> i) & 1 == 1) == if s <= i
            && i < e {
            (v >> (i - s) as u32) & 1 == 1
        } else {
            (x >> i) & 1 == 1
        },
{
}

proof fn lemma_u32_fits(x: u32, s: u32, e: u32, w: u32, one: bool)
    by (bit_vector)
    requires
        s < e <= 32,
    ensures
        (e - s) >= 32 || ((x >> s) & low_mask_u32((e - s) as u32)) >> (e - s) as u32 == 0,
        (w >= 32 || x >> w == 0) && s < w ==> ((w - s) >= 32 || ((x >> s) & low_mask_u32(
            (e - s) as u32,
        )) >> (w - s) as u32 == 0),
        ((if one { 1u32 } else { 0u32 }) >> 0u32) & 1 == 1 <==> one,
        (if one { 1u32 } else { 0u32 }) >> 1u32 == 0,
{
}

impl BitField for u32 {
    open spec fn spec_bit_length() -> nat {
        32
    }

    open spec fn spec_bit(self, i: nat) -> bool {
        i < 32 && (self >> (i as u32)) & 1 == 1
    }

    open spec fn spec_get_bits(self, start: nat, end: nat) -> u32 {
        (self >> (start as u32)) & low_mask_u32((end - start) as u32)
    }

    open spec fn spec_set_bits(self, start: nat, end: nat, value: u32) -> u32 {
        (self & !(low_mask_u32((end - start) as u32) << (start as u32))) | (value << (
        start as u32))
    }

    open spec fn spec_fits(value: u32, width: nat) -> bool {
        width >= 32 || value >> (width as u32) == 0
    }

    fn bit_length() -> (r: usize) {
        32
    }

    fn get_bit(&self, bit: usize) -> (r: bool) {
        (*self >> bit) & 1 == 1
    }

    fn get_bits(&self, range: Range<usize>) -> (r: u32) {
        let width = range.end - range.start;
        let mask: u32 = if width >= 32 {
            !0u32
        } else {
            !((!0u32) << width)
        };
        (*self >> range.start) & mask
    }

    fn set_bit(&mut self, bit: usize, value: bool) {
        let ghost x = *self;
        let v = Self::unit(value);
        proof {
            Self::lemma_unit_bits(v, value);
        }
        self.set_bits(bit..bit + 1, v);
        proof {
            assert forall|i: nat| i < 32 implies #[trigger] self.spec_bit(i) == if i == bit {
                value
            } else {
                x.spec_bit(i)
            } by {
                x.lemma_set_bits_bit(bit as nat, bit as nat + 1, v, i);
            }
        }
    }

    fn set_bits(&mut self, range: Range<usize>, value: u32) {
        let width = range.end - range.start;
        let mask: u32 = if width >= 32 {
            !0u32
        } else {
            !((!0u32) << width)
        };
        *self = (*self & !(mask << range.start)) | (value << range.start);
    }

    proof fn lemma_get_bits_bit(self, start: nat, end: nat, i: nat) {
        lemma_u32_bits(self, 0, start as u32, end as u32, i as u32);
    }

    proof fn lemma_set_bits_bit(self, start: nat, end: nat, value: u32, i: nat) {
        lemma_u32_bits(self, value, start as u32, end as u32, i as u32);
    }

    proof fn lemma_get_bits_fits(self, start: nat, end: nat, width: nat) {
        lemma_u32_fits(self, start as u32, end as u32, width as u32, true);
    }

    proof fn lemma_unit_bits(value: u32, one: bool) {
        lemma_u32_fits(value, 0, 1, 1, one);
    }

    open spec fn spec_unit(one: bool) -> u32 {
        if one {
            1
        } else {
            0
        }
    }

    fn unit(one: bool) -> (r: u32) {
        if one {
            1
        } else {
            0
        }
    }
}

/// Mask of the low `w` bits of a 16-bit word.
pub open spec fn low_mask_u16(w: u16) -> u16 {
    if w >= 16 {
        !0u16
    } else {
        !((!0u16) << w)
    }
}

proof fn lemma_u16_bits(x: u16, v: u16, s: u16, e: u16, i: u16)
    by (bit_vector)
    requires
        s < e <= 16,
        i < 16,
    ensures
        ((((x >> s) & low_mask_u16((e - s) as u16)) >> i) & 1 == 1) == (i < e - s && s + i < 16
            && (x >> (s + i) as u16) & 1 == 1),
        (e - s) >= 16 || v >> (e - s) as u16 == 0 ==> ((((x & !(low_mask_u16((e - s) as u16) << s)) | (v << s)) >> i) & 1 == 1) == if s <= i
            && i < e {
            (v >> (i - s) as u16) & 1 == 1
        } else {
            (x >> i) & 1 == 1
        },
{
}

proof fn lemma_u16_fits(x: u16, s: u16, e: u16, w: u16, one: bool)
    by (bit_vector)
    requires
        s < e <= 16,
    ensures
        (e - s) >= 16 || ((x >> s) & low_mask_u16((e - s) as u16)) >> (e - s) as u16 == 0,
        (w >= 16 || x >> w == 0) && s < w ==> ((w - s) >= 16 || ((x >> s) & low_mask_u16(
            (e - s) as u16,
        )) >> (w - s) as u16 == 0),
        ((if one { 1u16 } else { 0u16 }) >> 0u16) & 1 == 1 <==> one,
        (if one { 1u16 } else { 0u16 }) >> 1u16 == 0,
{
}

impl BitField for u16 {
    open spec fn spec_bit_length() -> nat {
        16
    }

    open spec fn spec_bit(self, i: nat) -> bool {
        i < 16 && (self >> (i as u16)) & 1 == 1
    }

    open spec fn spec_get_bits(self, start: nat, end: nat) -> u16 {
        (self >> (start as u16)) & low_mask_u16((end - start) as u16)
    }

    open spec fn spec_set_bits(self, start: nat, end: nat, value: u16) -> u16 {
        (self & !(low_mask_u16((end - start) as u16) << (start as u16))) | (value << (
        start as u16))
    }

    open spec fn spec_fits(value: u16, width: nat) -> bool {
        width >= 16 || value >> (width as u16) == 0
    }

    fn bit_length() -> (r: usize) {
        16
    }

    fn get_bit(&self, bit: usize) -> (r: bool) {
        (*self >> bit) & 1 == 1
    }

    fn get_bits(&self, range: Range<usize>) -> (r: u16) {
        let width = range.end - range.start;
        let mask: u16 = if width >= 16 {
            !0u16
        } else {
            !((!0u16) << width)
        };
        (*self >> range.start) & mask
    }

    fn set_bit(&mut self, bit: usize, value: bool) {
        let ghost x = *self;
        let v = Self::unit(value);
        proof {
            Self::lemma_unit_bits(v, value);
        }
        self.set_bits(bit..bit + 1, v);
        proof {
            assert forall|i: nat| i < 16 implies #[trigger] self.spec_bit(i) == if i == bit {
                value
            } else {
                x.spec_bit(i)
            } by {
                x.lemma_set_bits_bit(bit as nat, bit as nat + 1, v, i);
            }
        }
    }

    fn set_bits(&mut self, range: Range<usize>, value: u16) {
        let width = range.end - range.start;
        let mask: u16 = if width >= 16 {
            !0u16
        } else {
            !((!0u16) << width)
        };
        *self = (*self & !(mask << range.start)) | (value << range.start);
    }

    proof fn lemma_get_bits_bit(self, start: nat, end: nat, i: nat) {
        lemma_u16_bits(self, 0, start as u16, end as u16, i as u16);
    }

    proof fn lemma_set_bits_bit(self, start: nat, end: nat, value: u16, i: nat) {
        lemma_u16_bits(self, value, start as u16, end as u16, i as u16);
    }

    proof fn lemma_get_bits_fits(self, start: nat, end: nat, width: nat) {
        lemma_u16_fits(self, start as u16, end as u16, width as u16, true);
    }

    proof fn lemma_unit_bits(value: u16, one: bool) {
        lemma_u16_fits(value, 0, 1, 1, one);
    }

    open spec fn spec_unit(one: bool) -> u16 {
        if one {
            1
        } else {
            0
        }
    }

    fn unit(one: bool) -> (r: u16) {
        if one {
            1
        } else {
            0
        }
    }
}

/// Mask of the low `w` bits of a 8-bit word.
pub open spec fn low_mask_u8(w: u8) -> u8 {
    if w >= 8 {
        !0u8
    } else {
        !((!0u8) << w)
    }
}

proof fn lemma_u8_bits(x: u8, v: u8, s: u8, e: u8, i: u8)
    by (bit_vector)
    requires
        s < e <= 8,
        i < 8,
    ensures
        ((((x >> s) & low_mask_u8((e - s) as u8)) >> i) & 1 == 1) == (i < e - s && s + i < 8
            && (x >> (s + i) as u8) & 1 == 1),
        (e - s) >= 8 || v >> (e - s) as u8 == 0 ==> ((((x & !(low_mask_u8((e - s) as u8) << s)) | (v << s)) >> i) & 1 == 1) == if s <= i
            && i < e {
            (v >> (i - s) as u8) & 1 == 1
        } else {
            (x >> i) & 1 == 1
        },
{
}

proof fn lemma_u8_fits(x: u8, s: u8, e: u8, w: u8, one: bool)
    by (bit_vector)
    requires
        s < e <= 8,
    ensures
        (e - s) >= 8 || ((x >> s) & low_mask_u8((e - s) as u8)) >> (e - s) as u8 == 0,
        (w >= 8 || x >> w == 0) && s < w ==> ((w - s) >= 8 || ((x >> s) & low_mask_u8(
            (e - s) as u8,
        )) >> (w - s) as u8 == 0),
        ((if one { 1u8 } else { 0u8 }) >> 0u8) & 1 == 1 <==> one,
        (if one { 1u8 } else { 0u8 }) >> 1u8 == 0,
{
}

impl BitField for u8 {
    open spec fn spec_bit_length() -> nat {
        8
    }

    open spec fn spec_bit(self, i: nat) -> bool {
        i < 8 && (self >> (i as u8)) & 1 == 1
    }

    open spec fn spec_get_bits(self, start: nat, end: nat) -> u8 {
        (self >> (start as u8)) & low_mask_u8((end - start) as u8)
    }

    open spec fn spec_set_bits(self, start: nat, end: nat, value: u8) -> u8 {
        (self & !(low_mask_u8((end - start) as u8) << (start as u8))) | (value << (
        start as u8))
    }

    open spec fn spec_fits(value: u8, width: nat) -> bool {
        width >= 8 || value >> (width as u8) == 0
    }

    fn bit_length() -> (r: usize) {
        8
    }

    fn get_bit(&self, bit: usize) -> (r: bool) {
        (*self >> bit) & 1 == 1
    }

    fn get_bits(&self, range: Range<usize>) -> (r: u8) {
        let width = range.end - range.start;
        let mask: u8 = if width >= 8 {
            !0u8
        } else {
            !((!0u8) << width)
        };
        (*self >> range.start) & mask
    }

    fn set_bit(&mut self, bit: usize, value: bool) {
        let ghost x = *self;
        let v = Self::unit(value);
        proof {
            Self::lemma_unit_bits(v, value);
        }
        self.set_bits(bit..bit + 1, v);
        proof {
            assert forall|i: nat| i < 8 implies #[trigger] self.spec_bit(i) == if i == bit {
                value
            } else {
                x.spec_bit(i)
            } by {
                x.lemma_set_bits_bit(bit as nat, bit as nat + 1, v, i);
            }
        }
    }

    fn set_bits(&mut self, range: Range<usize>, value: u8) {
        let width = range.end - range.start;
        let mask: u8 = if width >= 8 {
            !0u8
        } else {
            !((!0u8) << width)
        };
        *self = (*self & !(mask << range.start)) | (value << range.start);
    }

    proof fn lemma_get_bits_bit(self, start: nat, end: nat, i: nat) {
        lemma_u8_bits(self, 0, start as u8, end as u8, i as u8);
    }

    proof fn lemma_set_bits_bit(self, start: nat, end: nat, value: u8, i: nat) {
        lemma_u8_bits(self, value, start as u8, end as u8, i as u8);
    }

    proof fn lemma_get_bits_fits(self, start: nat, end: nat, width: nat) {
        lemma_u8_fits(self, start as u8, end as u8, width as u8, true);
    }

    proof fn lemma_unit_bits(value: u8, one: bool) {
        lemma_u8_fits(value, 0, 1, 1, one);
    }

    open spec fn spec_unit(one: bool) -> u8 {
        if one {
            1
        } else {
            0
        }
    }

    fn unit(one: bool) -> (r: u8) {
        if one {
            1
        } else {
            0
        }
    }
}

} // verus!
