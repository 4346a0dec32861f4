//! The primitive numeric types a feature can have.

use vstd::prelude::*;
use crate::bytes::radix;
use core::ops::RangeInclusive;
use vstd::std_specs::range::RangeInclusiveView;

verus! {

/// A fixed-width integer that can be packed into a feature vector, compared
/// against a range and used as a bucket counter.
pub trait FeatureValue: Copy {
    /// Bytes one value takes.
    spec fn width() -> nat;

    /// The number the value stands for.
    spec fn as_int(self) -> int;

    /// Smallest number of the type.
    spec fn min_int() -> int;

    /// Largest number of the type.
    spec fn max_int() -> int;

    /// The value's bit pattern, read as an unsigned number.
    spec fn raw(self) -> nat;

    /// The value with bit pattern `n`.
    spec fn from_raw(n: nat) -> Self;

    /// The value that stands for `i`.
    spec fn from_int(i: int) -> Self;

    /// A value takes between one and eight bytes, its bit pattern fits
    /// them and gives the value back, and its number lies in the type's
    /// range and gives the value back.
    proof fn lemma_layout(v: Self)
        ensures
            1 <= Self::width() <= 8,
            v.raw() < radix(Self::width()),
            Self::from_raw(v.raw()) == v,
            Self::min_int() <= v.as_int() <= Self::max_int(),
            Self::min_int() <= 0 < Self::max_int(),
            Self::from_int(v.as_int()) == v,
    ;

    /// A bit pattern that fits the width is the bit pattern of its value.
    proof fn lemma_from_raw(n: nat)
        requires
            n < radix(Self::width()),
        ensures
            Self::from_raw(n).raw() == n,
    ;

    /// Bytes one value takes.
    fn size() -> (w: usize)
        ensures
            w == Self::width(),
    ;

    /// The value's bit pattern.
    fn to_raw(self) -> (n: u64)
        ensures
            n == self.raw(),
    ;

    /// The value with bit pattern `n`.
    fn of_raw(n: u64) -> (v: Self)
        requires
            (n as nat) < radix(Self::width()),
        ensures
            v == Self::from_raw(n as nat),
    ;

    /// The count of nothing.
    fn zero() -> (v: Self)
        ensures
            v.as_int() == 0,
    ;

    /// The count of one thing.
    fn one() -> (v: Self)
        ensures
            v.as_int() == 1,
    ;

    /// `self + other`, where the type can hold the sum.
    fn plus(self, other: Self) -> (sum: Self)
        requires
            Self::min_int() <= self.as_int() + other.as_int() <= Self::max_int(),
        ensures
            sum.as_int() == self.as_int() + other.as_int(),
    ;

    /// Whether `self` is not larger than `other`.
    fn at_most(self, other: Self) -> (holds: bool)
        ensures
            holds == (self.as_int() <= other.as_int()),
    ;

    /// Whether the type can hold `self + other`.
    fn can_add(self, other: Self) -> (fits: bool)
        ensures
            fits == (Self::min_int() <= self.as_int() + other.as_int() <= Self::max_int()),
    ;

    /// Whether `range` holds the value.
    fn within(self, range: &RangeInclusive<Self>) -> (inside: bool)
        ensures
            inside == (range@.start.as_int() <= self.as_int() && if range@.exhausted {
                self.as_int() < range@.end.as_int()
            } else {
                self.as_int() <= range@.end.as_int()
            }),
    ;
}

/// Whether a range with the given bounds holds `v`. A range that has been
/// iterated to its end holds its upper bound no longer.
pub open spec fn range_holds<T: FeatureValue>(range: RangeInclusiveView<T>, v: T) -> bool {
    &&& range.start.as_int() <= v.as_int()
    &&& if range.exhausted {
        v.as_int() < range.end.as_int()
    } else {
        v.as_int() <= range.end.as_int()
    }
}

/// Two values with one bit pattern are the same value.
pub proof fn lemma_raw_injective<T: FeatureValue>(a: T, b: T)
    requires
        a.raw() == b.raw(),
    ensures
        a == b,
{
    T::lemma_layout(a);
    T::lemma_layout(b);
}

impl FeatureValue for u16 {
    open spec fn width() -> nat {
        2
    }

    open spec fn as_int(self) -> int {
        self as int
    }

    open spec fn min_int() -> int {
        0
    }

    open spec fn max_int() -> int {
        u16::MAX as int
    }

    open spec fn raw(self) -> nat {
        self as nat
    }

    open spec fn from_raw(n: nat) -> Self {
        n as u16
    }

    open spec fn from_int(i: int) -> Self {
        i as u16
    }

    proof fn lemma_layout(v: Self) {
        crate::bytes::lemma_radix_values();
    }

    proof fn lemma_from_raw(n: nat) {
        crate::bytes::lemma_radix_values();
    }

    fn size() -> (w: usize) {
        2
    }

    fn to_raw(self) -> (n: u64) {
        self as u64
    }

    fn of_raw(n: u64) -> (v: Self) {
        proof {
            crate::bytes::lemma_radix_values();
        }
        n as u16
    }

    fn zero() -> (v: Self) {
        0
    }

    fn one() -> (v: Self) {
        1
    }

    fn plus(self, other: Self) -> (sum: Self) {
        self + other
    }

    fn at_most(self, other: Self) -> (holds: bool) {
        self <= other
    }

    fn can_add(self, other: Self) -> (fits: bool) {
        self.checked_add(other).is_some()
    }

    fn within(self, range: &RangeInclusive<Self>) -> (inside: bool) {
        range.contains(&self)
    }
}

impl FeatureValue for u32 {
    open spec fn width() -> nat {
        4
    }

    open spec fn as_int(self) -> int {
        self as int
    }

    open spec fn min_int() -> int {
        0
    }

    open spec fn max_int() -> int {
        u32::MAX as int
    }

    open spec fn raw(self) -> nat {
        self as nat
    }

    open spec fn from_raw(n: nat) -> Self {
        n as u32
    }

    open spec fn from_int(i: int) -> Self {
        i as u32
    }

    proof fn lemma_layout(v: Self) {
        crate::bytes::lemma_radix_values();
    }

    proof fn lemma_from_raw(n: nat) {
        crate::bytes::lemma_radix_values();
    }

    fn size() -> (w: usize) {
        4
    }

    fn to_raw(self) -> (n: u64) {
        self as u64
    }

    fn of_raw(n: u64) -> (v: Self) {
        proof {
            crate::bytes::lemma_radix_values();
        }
        n as u32
    }

    fn zero() -> (v: Self) {
        0
    }

    fn one() -> (v: Self) {
        1
    }

    fn plus(self, other: Self) -> (sum: Self) {
        self + other
    }

    fn at_most(self, other: Self) -> (holds: bool) {
        self <= other
    }

    fn can_add(self, other: Self) -> (fits: bool) {
        self.checked_add(other).is_some()
    }

    fn within(self, range: &RangeInclusive<Self>) -> (inside: bool) {
        range.contains(&self)
    }
}

impl FeatureValue for u64 {
    open spec fn width() -> nat {
        8
    }

    open spec fn as_int(self) -> int {
        self as int
    }

    open spec fn min_int() -> int {
        0
    }

    open spec fn max_int() -> int {
        u64::MAX as int
    }

    open spec fn raw(self) -> nat {
        self as nat
    }

    open spec fn from_raw(n: nat) -> Self {
        n as u64
    }

    open spec fn from_int(i: int) -> Self {
        i as u64
    }

    proof fn lemma_layout(v: Self) {
        crate::bytes::lemma_radix_values();
    }

    proof fn lemma_from_raw(n: nat) {
        crate::bytes::lemma_radix_values();
    }

    fn size() -> (w: usize) {
        8
    }

    fn to_raw(self) -> (n: u64) {
        self
    }

    fn of_raw(n: u64) -> (v: Self) {
        proof {
            crate::bytes::lemma_radix_values();
        }
        n
    }

    fn zero() -> (v: Self) {
        0
    }

    fn one() -> (v: Self) {
        1
    }

    fn plus(self, other: Self) -> (sum: Self) {
        self + other
    }

    fn at_most(self, other: Self) -> (holds: bool) {
        self <= other
    }

    fn can_add(self, other: Self) -> (fits: bool) {
        self.checked_add(other).is_some()
    }

    fn within(self, range: &RangeInclusive<Self>) -> (inside: bool) {
        range.contains(&self)
    }
}

impl FeatureValue for i16 {
    open spec fn width() -> nat {
        2
    }

    open spec fn as_int(self) -> int {
        self as int
    }

    open spec fn min_int() -> int {
        i16::MIN as int
    }

    open spec fn max_int() -> int {
        i16::MAX as int
    }

    open spec fn raw(self) -> nat {
        if self >= 0 {
            self as nat
        } else {
            (self + 0x1_0000) as nat
        }
    }

    open spec fn from_raw(n: nat) -> Self {
        if n < 0x8000 {
            n as i16
        } else {
            (n - 0x1_0000) as i16
        }
    }

    open spec fn from_int(i: int) -> Self {
        i as i16
    }

    proof fn lemma_layout(v: Self) {
        crate::bytes::lemma_radix_values();
    }

    proof fn lemma_from_raw(n: nat) {
        crate::bytes::lemma_radix_values();
    }

    fn size() -> (w: usize) {
        2
    }

    fn to_raw(self) -> (n: u64) {
        if self >= 0 {
            self as u64
        } else {
            (self as i64 + 0x1_0000) as u64
        }
    }

    fn of_raw(n: u64) -> (v: Self) {
        proof {
            crate::bytes::lemma_radix_values();
        }
        if n < 0x8000 {
            n as i16
        } else {
            (n as i64 - 0x1_0000) as i16
        }
    }

    fn zero() -> (v: Self) {
        0
    }

    fn one() -> (v: Self) {
        1
    }

    fn plus(self, other: Self) -> (sum: Self) {
        self + other
    }

    fn at_most(self, other: Self) -> (holds: bool) {
        self <= other
    }

    fn can_add(self, other: Self) -> (fits: bool) {
        self.checked_add(other).is_some()
    }

    fn within(self, range: &RangeInclusive<Self>) -> (inside: bool) {
        range.contains(&self)
    }
}

impl FeatureValue for i32 {
    open spec fn width() -> nat {
        4
    }

    open spec fn as_int(self) -> int {
        self as int
    }

    open spec fn min_int() -> int {
        i32::MIN as int
    }

    open spec fn max_int() -> int {
        i32::MAX as int
    }

    open spec fn raw(self) -> nat {
        if self >= 0 {
            self as nat
        } else {
            (self + 0x1_0000_0000) as nat
        }
    }

    open spec fn from_raw(n: nat) -> Self {
        if n < 0x8000_0000 {
            n as i32
        } else {
            (n - 0x1_0000_0000) as i32
        }
    }

    open spec fn from_int(i: int) -> Self {
        i as i32
    }

    proof fn lemma_layout(v: Self) {
        crate::bytes::lemma_radix_values();
    }

    proof fn lemma_from_raw(n: nat) {
        crate::bytes::lemma_radix_values();
    }

    fn size() -> (w: usize) {
        4
    }

    fn to_raw(self) -> (n: u64) {
        if self >= 0 {
            self as u64
        } else {
            (self as i64 + 0x1_0000_0000) as u64
        }
    }

    fn of_raw(n: u64) -> (v: Self) {
        proof {
            crate::bytes::lemma_radix_values();
        }
        if n < 0x8000_0000 {
            n as i32
        } else {
            (n as i64 - 0x1_0000_0000) as i32
        }
    }

    fn zero() -> (v: Self) {
        0
    }

    fn one() -> (v: Self) {
        1
    }

    fn plus(self, other: Self) -> (sum: Self) {
        self + other
    }

    fn at_most(self, other: Self) -> (holds: bool) {
        self <= other
    }

    fn can_add(self, other: Self) -> (fits: bool) {
        self.checked_add(other).is_some()
    }

    fn within(self, range: &RangeInclusive<Self>) -> (inside: bool) {
        range.contains(&self)
    }
}

impl FeatureValue for i64 {
    open spec fn width() -> nat {
        8
    }

    open spec fn as_int(self) -> int {
        self as int
    }

    open spec fn min_int() -> int {
        i64::MIN as int
    }

    open spec fn max_int() -> int {
        i64::MAX as int
    }

    open spec fn raw(self) -> nat {
        if self >= 0 {
            self as nat
        } else {
            (self + 0x1_0000_0000_0000_0000) as nat
        }
    }

    open spec fn from_raw(n: nat) -> Self {
        if n < 0x8000_0000_0000_0000 {
            n as i64
        } else {
            (n - 0x1_0000_0000_0000_0000) as i64
        }
    }

    open spec fn from_int(i: int) -> Self {
        i as i64
    }

    proof fn lemma_layout(v: Self) {
        crate::bytes::lemma_radix_values();
    }

    proof fn lemma_from_raw(n: nat) {
        crate::bytes::lemma_radix_values();
    }

    fn size() -> (w: usize) {
        8
    }

    fn to_raw(self) -> (n: u64) {
        if self >= 0 {
            self as u64
        } else {
            (self - i64::MIN) as u64 + 0x8000_0000_0000_0000
        }
    }

    fn of_raw(n: u64) -> (v: Self) {
        proof {
            crate::bytes::lemma_radix_values();
        }
        if n < 0x8000_0000_0000_0000 {
            n as i64
        } else {
            (n - 0x8000_0000_0000_0000) as i64 + i64::MIN
        }
    }

    fn zero() -> (v: Self) {
        0
    }

    fn one() -> (v: Self) {
        1
    }

    fn plus(self, other: Self) -> (sum: Self) {
        self + other
    }

    fn at_most(self, other: Self) -> (holds: bool) {
        self <= other
    }

    fn can_add(self, other: Self) -> (fits: bool) {
        self.checked_add(other).is_some()
    }

    fn within(self, range: &RangeInclusive<Self>) -> (inside: bool) {
        range.contains(&self)
    }
}

} // verus!
