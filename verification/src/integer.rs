//! Integers of any width as 64-bit ones.
use vstd::prelude::*;

verus! {

/// An integer type.
pub trait Integer {
    /// The number.
    spec fn value(&self) -> int;

    /// The number as a signed 64-bit integer. Of a number that does not fit the lowest 64 bits
    /// are kept.
    fn as_i64(&self) -> (number: i64)
        ensures
            number == self.value() as i64,
    ;

    /// The number as an unsigned 64-bit integer. Of a number that does not fit the lowest 64
    /// bits are kept.
    fn as_u64(&self) -> (number: u64)
        ensures
            number == self.value() as u64,
    ;
}

impl Integer for i8 {
    open spec fn value(&self) -> int {
        *self as int
    }

    fn as_i64(&self) -> (number: i64) {
        *self as i64
    }

    fn as_u64(&self) -> (number: u64) {
        *self as u64
    }
}

impl Integer for i16 {
    open spec fn value(&self) -> int {
        *self as int
    }

    fn as_i64(&self) -> (number: i64) {
        *self as i64
    }

    fn as_u64(&self) -> (number: u64) {
        *self as u64
    }
}

impl Integer for i32 {
    open spec fn value(&self) -> int {
        *self as int
    }

    fn as_i64(&self) -> (number: i64) {
        *self as i64
    }

    fn as_u64(&self) -> (number: u64) {
        *self as u64
    }
}

impl Integer for i64 {
    open spec fn value(&self) -> int {
        *self as int
    }

    fn as_i64(&self) -> (number: i64) {
        *self as i64
    }

    fn as_u64(&self) -> (number: u64) {
        *self as u64
    }
}

impl Integer for i128 {
    open spec fn value(&self) -> int {
        *self as int
    }

    fn as_i64(&self) -> (number: i64) {
        *self as i64
    }

    fn as_u64(&self) -> (number: u64) {
        *self as u64
    }
}

impl Integer for isize {
    open spec fn value(&self) -> int {
        *self as int
    }

    fn as_i64(&self) -> (number: i64) {
        *self as i64
    }

    fn as_u64(&self) -> (number: u64) {
        *self as u64
    }
}

impl Integer for u8 {
    open spec fn value(&self) -> int {
        *self as int
    }

    fn as_i64(&self) -> (number: i64) {
        *self as i64
    }

    fn as_u64(&self) -> (number: u64) {
        *self as u64
    }
}

impl Integer for u16 {
    open spec fn value(&self) -> int {
        *self as int
    }

    fn as_i64(&self) -> (number: i64) {
        *self as i64
    }

    fn as_u64(&self) -> (number: u64) {
        *self as u64
    }
}

impl Integer for u32 {
    open spec fn value(&self) -> int {
        *self as int
    }

    fn as_i64(&self) -> (number: i64) {
        *self as i64
    }

    fn as_u64(&self) -> (number: u64) {
        *self as u64
    }
}

impl Integer for u64 {
    open spec fn value(&self) -> int {
        *self as int
    }

    fn as_i64(&self) -> (number: i64) {
        *self as i64
    }

    fn as_u64(&self) -> (number: u64) {
        *self as u64
    }
}

impl Integer for u128 {
    open spec fn value(&self) -> int {
        *self as int
    }

    fn as_i64(&self) -> (number: i64) {
        *self as i64
    }

    fn as_u64(&self) -> (number: u64) {
        *self as u64
    }
}

impl Integer for usize {
    open spec fn value(&self) -> int {
        *self as int
    }

    fn as_i64(&self) -> (number: i64) {
        *self as i64
    }

    fn as_u64(&self) -> (number: u64) {
        *self as u64
    }
}

/// The value of an integer is the number itself.
pub proof fn law_values_are_the_numbers(
    vi8: i8,
    vi16: i16,
    vi32: i32,
    vi64: i64,
    vi128: i128,
    visize: isize,
    vu8: u8,
    vu16: u16,
    vu32: u32,
    vu64: u64,
    vu128: u128,
    vusize: usize,
)
    ensures
        vi8.value() == vi8,
        vi16.value() == vi16,
        vi32.value() == vi32,
        vi64.value() == vi64,
        vi128.value() == vi128,
        visize.value() == visize,
        vu8.value() == vu8,
        vu16.value() == vu16,
        vu32.value() == vu32,
        vu64.value() == vu64,
        vu128.value() == vu128,
        vusize.value() == vusize,
{
}

} // verus!
