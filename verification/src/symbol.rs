//! The values that sequences are made of.
use vstd::prelude::*;

verus! {

/// One element of a sequence: a small value that is copied freely and
/// compared for equality. The model asks nothing else of it.
///
/// `same` must agree with equality of values, which is what the contracts of
/// this crate speak of. The primitive types below implement it.
pub trait Symbol: Copy {
    /// Whether the two values are equal.
    fn same(&self, other: &Self) -> (r: bool)
        ensures
            r == (*self == *other),
    ;
}

impl Symbol for char {
    fn same(&self, other: &Self) -> (r: bool) {
        *self == *other
    }
}

impl Symbol for bool {
    fn same(&self, other: &Self) -> (r: bool) {
        *self == *other
    }
}

impl Symbol for u8 {
    fn same(&self, other: &Self) -> (r: bool) {
        *self == *other
    }
}

impl Symbol for u16 {
    fn same(&self, other: &Self) -> (r: bool) {
        *self == *other
    }
}

impl Symbol for u32 {
    fn same(&self, other: &Self) -> (r: bool) {
        *self == *other
    }
}

impl Symbol for u64 {
    fn same(&self, other: &Self) -> (r: bool) {
        *self == *other
    }
}

impl Symbol for u128 {
    fn same(&self, other: &Self) -> (r: bool) {
        *self == *other
    }
}

impl Symbol for usize {
    fn same(&self, other: &Self) -> (r: bool) {
        *self == *other
    }
}

impl Symbol for i8 {
    fn same(&self, other: &Self) -> (r: bool) {
        *self == *other
    }
}

impl Symbol for i16 {
    fn same(&self, other: &Self) -> (r: bool) {
        *self == *other
    }
}

impl Symbol for i32 {
    fn same(&self, other: &Self) -> (r: bool) {
        *self == *other
    }
}

impl Symbol for i64 {
    fn same(&self, other: &Self) -> (r: bool) {
        *self == *other
    }
}

impl Symbol for i128 {
    fn same(&self, other: &Self) -> (r: bool) {
        *self == *other
    }
}

impl Symbol for isize {
    fn same(&self, other: &Self) -> (r: bool) {
        *self == *other
    }
}

} // verus!
