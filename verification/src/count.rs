//! Identifier types whose values can be allocated automatically: they sit
//! in a total order mapped to the integers, start at zero, and have a
//! successor. The unsigned integers implement this.

use vstd::prelude::*;

verus! {

/// An identifier type with deterministic auto-increment allocation.
pub trait Count: DeepView + Sized {
    /// The position of a value in the type's order, as an integer.
    spec fn count_v(v: Self::V) -> int;

    /// The greatest position the type can hold.
    spec fn max_count() -> int;

    /// Every value sits between zero and the greatest position.
    proof fn lemma_count_in_range(v: Self::V)
        ensures
            0 <= Self::count_v(v) <= Self::max_count(),
    ;

    /// The first value handed out: position zero.
    fn first() -> (r: Self)
        ensures
            Self::count_v(r.deep_view()) == 0,
    ;

    /// The successor of a value that is not the greatest.
    fn next(&self) -> (r: Self)
        requires
            Self::count_v(self.deep_view()) < Self::max_count(),
        ensures
            Self::count_v(r.deep_view()) == Self::count_v(self.deep_view()) + 1,
    ;

    /// Whether this value is at least the other.
    fn ge(&self, other: &Self) -> (r: bool)
        ensures
            r == (Self::count_v(self.deep_view()) >= Self::count_v(other.deep_view())),
    ;

    /// Whether this value is the greatest position, whose successor would
    /// not fit.
    fn is_max(&self) -> (r: bool)
        ensures
            r == (Self::count_v(self.deep_view()) == Self::max_count()),
    ;
}

impl Count for u8 {
    open spec fn count_v(v: u8) -> int {
        v as int
    }

    open spec fn max_count() -> int {
        u8::MAX as int
    }

    proof fn lemma_count_in_range(v: u8) {
    }

    fn first() -> (r: u8) {
        0
    }

    fn next(&self) -> (r: u8) {
        *self + 1
    }

    fn ge(&self, other: &u8) -> (r: bool) {
        *self >= *other
    }

    fn is_max(&self) -> (r: bool) {
        *self == u8::MAX
    }
}

impl Count for u16 {
    open spec fn count_v(v: u16) -> int {
        v as int
    }

    open spec fn max_count() -> int {
        u16::MAX as int
    }

    proof fn lemma_count_in_range(v: u16) {
    }

    fn first() -> (r: u16) {
        0
    }

    fn next(&self) -> (r: u16) {
        *self + 1
    }

    fn ge(&self, other: &u16) -> (r: bool) {
        *self >= *other
    }

    fn is_max(&self) -> (r: bool) {
        *self == u16::MAX
    }
}

impl Count for u32 {
    open spec fn count_v(v: u32) -> int {
        v as int
    }

    open spec fn max_count() -> int {
        u32::MAX as int
    }

    proof fn lemma_count_in_range(v: u32) {
    }

    fn first() -> (r: u32) {
        0
    }

    fn next(&self) -> (r: u32) {
        *self + 1
    }

    fn ge(&self, other: &u32) -> (r: bool) {
        *self >= *other
    }

    fn is_max(&self) -> (r: bool) {
        *self == u32::MAX
    }
}

impl Count for u64 {
    open spec fn count_v(v: u64) -> int {
        v as int
    }

    open spec fn max_count() -> int {
        u64::MAX as int
    }

    proof fn lemma_count_in_range(v: u64) {
    }

    fn first() -> (r: u64) {
        0
    }

    fn next(&self) -> (r: u64) {
        *self + 1
    }

    fn ge(&self, other: &u64) -> (r: bool) {
        *self >= *other
    }

    fn is_max(&self) -> (r: bool) {
        *self == u64::MAX
    }
}

} // verus!
