//! Ownership and borrowing: the types that the examples pass by value, by
//! shared reference and by lifetime, and markers for the mistakes that the
//! borrow checker rules out.
use vstd::prelude::*;

verus! {

/// A colour of three channels, small enough to be passed by copy.
#[derive(Copy, Clone, Debug)]
pub struct RGBColor(pub u8, pub u8, pub u8);

/// A view of colours that cannot outlive them.
#[derive(Debug)]
pub struct Palette<'a> {
    pub colors: &'a [RGBColor],
}

/// A marker for the rule that a value cannot be dropped twice.
pub struct DoubleFeeTest;

/// A marker for the rule that a value cannot be used once it has been moved
/// into a function that dropped it.
pub struct UseAfterFreeTest;

/// A marker for the rule that at any time a value has either any number of
/// shared references or one exclusive reference.
pub struct AliasingXorMutabilityTest;

/// A marker for the rule that a value has exactly one owner, and that moving
/// it ends the old owner's access.
pub struct ExclusiveOwnershipTest;

} // verus!
