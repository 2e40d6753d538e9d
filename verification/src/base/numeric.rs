//! Numeric value traits shared by every part of the library.
use vstd::prelude::*;

verus! {

/// Values that can live in arrays and datasets. They are ordered as the
/// numbers they stand for.
pub trait Numeric: Copy {
    /// The number a value stands for.
    spec fn value(self) -> int;

    /// `self < other`.
    fn less_than(&self, other: &Self) -> (r: bool)
        ensures
            r == (self.value() < other.value()),
    ;
}

/// Integer-like numeric values.
pub trait Integer: Numeric {
    /// Zero.
    fn zero() -> (r: Self)
        ensures
            r.value() == 0,
    ;

    /// One.
    fn one() -> (r: Self)
        ensures
            r.value() == 1,
    ;
}

/// Values that are summed in a wider accumulator type.
pub trait Accumulate: Sized {
    /// The accumulator type.
    type Output;

    /// The accumulator value of a value.
    spec fn acc_value(self) -> Self::Output;

    /// Converts a value to the accumulator type.
    fn to_acc(self) -> (r: Self::Output)
        ensures
            r == self.acc_value(),
    ;
}

impl Numeric for i8 {
    open spec fn value(self) -> int {
        self as int
    }

    fn less_than(&self, other: &Self) -> (r: bool) {
        *self < *other
    }
}

impl Integer for i8 {
    fn zero() -> (r: Self) {
        0
    }

    fn one() -> (r: Self) {
        1
    }
}

impl Accumulate for i8 {
    type Output = i64;

    open spec fn acc_value(self) -> i64 {
        self as i64
    }

    fn to_acc(self) -> (r: i64) {
        self as i64
    }
}

impl Numeric for i16 {
    open spec fn value(self) -> int {
        self as int
    }

    fn less_than(&self, other: &Self) -> (r: bool) {
        *self < *other
    }
}

impl Integer for i16 {
    fn zero() -> (r: Self) {
        0
    }

    fn one() -> (r: Self) {
        1
    }
}

impl Accumulate for i16 {
    type Output = i64;

    open spec fn acc_value(self) -> i64 {
        self as i64
    }

    fn to_acc(self) -> (r: i64) {
        self as i64
    }
}

impl Numeric for i32 {
    open spec fn value(self) -> int {
        self as int
    }

    fn less_than(&self, other: &Self) -> (r: bool) {
        *self < *other
    }
}

impl Integer for i32 {
    fn zero() -> (r: Self) {
        0
    }

    fn one() -> (r: Self) {
        1
    }
}

impl Accumulate for i32 {
    type Output = i64;

    open spec fn acc_value(self) -> i64 {
        self as i64
    }

    fn to_acc(self) -> (r: i64) {
        self as i64
    }
}

impl Numeric for i64 {
    open spec fn value(self) -> int {
        self as int
    }

    fn less_than(&self, other: &Self) -> (r: bool) {
        *self < *other
    }
}

impl Integer for i64 {
    fn zero() -> (r: Self) {
        0
    }

    fn one() -> (r: Self) {
        1
    }
}

impl Accumulate for i64 {
    type Output = i64;

    open spec fn acc_value(self) -> i64 {
        self as i64
    }

    fn to_acc(self) -> (r: i64) {
        self as i64
    }
}

impl Numeric for isize {
    open spec fn value(self) -> int {
        self as int
    }

    fn less_than(&self, other: &Self) -> (r: bool) {
        *self < *other
    }
}

impl Integer for isize {
    fn zero() -> (r: Self) {
        0
    }

    fn one() -> (r: Self) {
        1
    }
}

impl Accumulate for isize {
    type Output = i64;

    open spec fn acc_value(self) -> i64 {
        self as i64
    }

    fn to_acc(self) -> (r: i64) {
        self as i64
    }
}

impl Numeric for u8 {
    open spec fn value(self) -> int {
        self as int
    }

    fn less_than(&self, other: &Self) -> (r: bool) {
        *self < *other
    }
}

impl Integer for u8 {
    fn zero() -> (r: Self) {
        0
    }

    fn one() -> (r: Self) {
        1
    }
}

impl Accumulate for u8 {
    type Output = i64;

    open spec fn acc_value(self) -> i64 {
        self as i64
    }

    fn to_acc(self) -> (r: i64) {
        self as i64
    }
}

impl Numeric for u16 {
    open spec fn value(self) -> int {
        self as int
    }

    fn less_than(&self, other: &Self) -> (r: bool) {
        *self < *other
    }
}

impl Integer for u16 {
    fn zero() -> (r: Self) {
        0
    }

    fn one() -> (r: Self) {
        1
    }
}

impl Accumulate for u16 {
    type Output = i64;

    open spec fn acc_value(self) -> i64 {
        self as i64
    }

    fn to_acc(self) -> (r: i64) {
        self as i64
    }
}

impl Numeric for u32 {
    open spec fn value(self) -> int {
        self as int
    }

    fn less_than(&self, other: &Self) -> (r: bool) {
        *self < *other
    }
}

impl Integer for u32 {
    fn zero() -> (r: Self) {
        0
    }

    fn one() -> (r: Self) {
        1
    }
}

impl Accumulate for u32 {
    type Output = i64;

    open spec fn acc_value(self) -> i64 {
        self as i64
    }

    fn to_acc(self) -> (r: i64) {
        self as i64
    }
}

impl Numeric for u64 {
    open spec fn value(self) -> int {
        self as int
    }

    fn less_than(&self, other: &Self) -> (r: bool) {
        *self < *other
    }
}

impl Integer for u64 {
    fn zero() -> (r: Self) {
        0
    }

    fn one() -> (r: Self) {
        1
    }
}

impl Accumulate for u64 {
    type Output = i64;

    open spec fn acc_value(self) -> i64 {
        self as i64
    }

    fn to_acc(self) -> (r: i64) {
        self as i64
    }
}

impl Numeric for usize {
    open spec fn value(self) -> int {
        self as int
    }

    fn less_than(&self, other: &Self) -> (r: bool) {
        *self < *other
    }
}

impl Integer for usize {
    fn zero() -> (r: Self) {
        0
    }

    fn one() -> (r: Self) {
        1
    }
}

impl Accumulate for usize {
    type Output = i64;

    open spec fn acc_value(self) -> i64 {
        self as i64
    }

    fn to_acc(self) -> (r: i64) {
        self as i64
    }
}

} // verus!
