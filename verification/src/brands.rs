//! A vector that can only grow, with indices that are tied to one vector by a
//! lifetime brand: an index handed out by a vector stays in bounds for it.
use std::marker::PhantomData;
use vstd::prelude::*;

verus! {

/// A zero-sized marker that makes the lifetime `'id` invariant, so that a
/// brand cannot be traded for another by subtyping.
#[derive(Default, Clone, Copy)]
pub struct InvariantLifetime<'id>(PhantomData<&'id mut &'id ()>);

/// A position in the [`BrandedVec`] of the same brand.
#[derive(Clone, Copy)]
pub struct BrandedIndex<'id> {
    idx: usize,
    _marker: InvariantLifetime<'id>,
}

impl<'id> View for BrandedIndex<'id> {
    type V = nat;

    /// The position that the index stands for.
    closed spec fn view(&self) -> nat {
        self.idx as nat
    }
}

/// A vector that is read and written through [`BrandedIndex`]es of its brand.
pub struct BrandedVec<'id, T> {
    inner: Vec<T>,
    _marker: InvariantLifetime<'id>,
}

impl<'id, T> View for BrandedVec<'id, T> {
    type V = Seq<T>;

    /// The elements of the vector in order.
    closed spec fn view(&self) -> Seq<T> {
        self.inner@
    }
}

impl<'id, T> BrandedVec<'id, T> {
    /// Brands `inner` afresh and runs `f` on it.
    pub fn make<R>(inner: Vec<T>, f: impl for <'a>FnOnce(BrandedVec<'a, T>) -> R) -> (r: R)
        requires
            forall|v: BrandedVec<'id, T>| v@ == inner@ ==> #[trigger] call_requires(f, (v,)),
        ensures
            exists|v: BrandedVec<'id, T>| v@ == inner@ && #[trigger] call_ensures(f, (v,), r),
    {
        let branded = BrandedVec { inner, _marker: InvariantLifetime(PhantomData) };
        let ghost given = branded;
        assert(given@ == inner@);
        let r = f(branded);
        assert(call_ensures(f, (given,), r));
        r
    }

    /// Appends `value` and returns its index, which is in bounds from now on.
    pub fn push(&mut self, value: T) -> (index: BrandedIndex<'id>)
        ensures
            final(self)@ == old(self)@.push(value),
            index@ == old(self)@.len(),
    {
        let idx = self.inner.len();
        self.inner.push(value);
        BrandedIndex { idx, _marker: self._marker }
    }

    /// Brands `idx` for this vector if it is in bounds.
    pub fn get_index(&self, idx: usize) -> (index: Option<BrandedIndex<'id>>)
        ensures
            idx < self@.len() ==> index.is_some() && index.unwrap()@ == idx,
            idx >= self@.len() ==> index.is_none(),
    {
        if idx < self.inner.len() {
            Some(BrandedIndex { idx, _marker: self._marker })
        } else {
            None
        }
    }

    /// The element at `index`.
    pub fn get(&self, index: BrandedIndex<'id>) -> (element: &T)
        requires
            index@ < self@.len(),
        ensures
            *element == self@[index@ as int],
    {
        &self.inner[index.idx]
    }

    /// The element at `index`, for writing.
    pub fn get_mut(&mut self, index: BrandedIndex<'id>) -> (element: &mut T)
        requires
            index@ < old(self)@.len(),
        ensures
            *element == old(self)@[index@ as int],
            final(self)@ == old(self)@.update(index@ as int, *final(element)),
    {
        &mut self.inner[index.idx]
    }
}

} // verus!
