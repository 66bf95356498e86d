use vstd::prelude::*;

verus! {

/// A sample type that flows from a decoder through a filter to a viewer.
pub trait Data: Sized + Copy {
    /// The numeric value of the sample.
    spec fn as_int(&self) -> int;

    /// The largest value the type holds.
    spec fn max_int() -> int;

    /// The sample whose value is `v`, for `0 <= v <= max_int()`.
    spec fn from_int(v: int) -> Self;

    proof fn lemma_range(&self)
        ensures
            0 <= self.as_int() <= Self::max_int(),
            Self::max_int() <= u64::MAX,
    ;

    proof fn lemma_from_int(v: int)
        requires
            0 <= v <= Self::max_int(),
        ensures
            Self::from_int(v).as_int() == v,
    ;

    fn to_u64(&self) -> (r: u64)
        ensures
            r == self.as_int(),
    ;

    fn from_u64(v: u64) -> (r: Self)
        requires
            v <= Self::max_int(),
        ensures
            r == Self::from_int(v as int),
    ;
}

impl Data for u8 {
    open spec fn as_int(&self) -> int {
        *self as int
    }

    open spec fn max_int() -> int {
        u8::MAX as int
    }

    open spec fn from_int(v: int) -> u8 {
        v as u8
    }

    proof fn lemma_range(&self) {
    }

    proof fn lemma_from_int(v: int) {
    }

    fn to_u64(&self) -> (r: u64) {
        *self as u64
    }

    fn from_u64(v: u64) -> (r: u8) {
        v as u8
    }
}

impl Data for u16 {
    open spec fn as_int(&self) -> int {
        *self as int
    }

    open spec fn max_int() -> int {
        u16::MAX as int
    }

    open spec fn from_int(v: int) -> u16 {
        v as u16
    }

    proof fn lemma_range(&self) {
    }

    proof fn lemma_from_int(v: int) {
    }

    fn to_u64(&self) -> (r: u64) {
        *self as u64
    }

    fn from_u64(v: u64) -> (r: u16) {
        v as u16
    }
}

} // verus!
