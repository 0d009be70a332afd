//! How the kinds of pointer behave under [`Clone`]: a shared reference and an
//! [`Rc`] copy the pointer, owned data and a [`Box`] copy what they hold.
use std::rc::Rc;
use vstd::prelude::*;

verus! {

/// A counter of how many times a value has been cloned.
#[derive(Debug)]
pub struct Data(pub usize);

impl Default for Data {
    /// Data that was never cloned.
    fn default() -> (data: Self)
        ensures
            data.0 == 0,
    {
        Data(0)
    }
}

impl Data {
    /// The count of a clone of data whose count is `count`: one more, starting
    /// over at zero where the count cannot grow.
    pub open spec fn next_count(count: usize) -> usize {
        if count < usize::MAX {
            (count + 1) as usize
        } else {
            0
        }
    }
}

impl Clone for Data {
    /// A clone counts one more than what it was cloned from.
    fn clone(&self) -> (copy: Self)
        ensures
            copy.0 == Data::next_count(self.0),
    {
        Data(self.0.wrapping_add(1))
    }
}

/// Data held in each of four ways.
#[derive(Clone, Debug)]
pub struct Container<'a> {
    /// Owned data on the stack.
    pub owned: Data,
    /// Shared data on the stack, which must outlive the container.
    pub stack_shared: &'a Data,
    /// Owned data on the heap.
    pub heap_owned: Box<Data>,
    /// Shared, reference-counted data on the heap.
    pub heap_shared: Rc<Data>,
}

} // verus!
