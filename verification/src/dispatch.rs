//! Static and dynamic dispatch.
use vstd::prelude::*;

verus! {

/// A marker for the rule that a vector cannot hold values of a bare trait:
/// their sizes differ, so they go behind a pointer and are dispatched
/// dynamically.
pub struct CannotMonomorphizeDifferentiableInVecTest;

} // verus!
