//! A trait whose implementations are all alike: the largest value of each
//! integer type.
use vstd::prelude::*;

verus! {

/// Types that have a largest value.
pub trait MaxValue: Sized {
    /// The largest value of the type.
    spec fn largest() -> Self;

    /// Returns the largest value of the type.
    fn max_value() -> (m: Self)
        ensures
            m == Self::largest(),
    ;
}

impl MaxValue for u32 {
    open spec fn largest() -> u32 {
        u32::MAX
    }

    fn max_value() -> (m: u32) {
        u32::MAX
    }
}

impl MaxValue for i32 {
    open spec fn largest() -> i32 {
        i32::MAX
    }

    fn max_value() -> (m: i32) {
        i32::MAX
    }
}

impl MaxValue for u64 {
    open spec fn largest() -> u64 {
        u64::MAX
    }

    fn max_value() -> (m: u64) {
        u64::MAX
    }
}

impl MaxValue for i64 {
    open spec fn largest() -> i64 {
        i64::MAX
    }

    fn max_value() -> (m: i64) {
        i64::MAX
    }
}

} // verus!
