//! Coherence of trait implementations: a type gets its ordering in exactly one
//! place, so that an operation built on the ordering means the same wherever
//! it is called.
//!
//! [`model`] defines the type, [`module_a`] gives it its one ordering and an
//! operation that depends on it.
use vstd::prelude::*;

pub mod model;
pub mod module_a;

verus! {

/// A marker for the rule that a second ordering for the same type, given in
/// another module, is rejected: it would let the meaning of
/// [`module_a::prioritize`] depend on the place of the call.
pub struct OrphanInstanceTest;

} // verus!
