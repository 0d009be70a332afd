//! The data type that the ordering is given to.
use vstd::prelude::*;

verus! {

/// A type of two values, `X` and `Y`.
#[derive(Debug, PartialEq, Eq, Structural, Clone, Copy)]
pub enum Entity {
    X,
    Y,
}

} // verus!
