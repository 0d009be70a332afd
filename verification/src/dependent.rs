//! Types that depend on a number: natural numbers at the type level, a vector
//! whose type carries its length, and a heterogeneous list.
use std::marker::PhantomData;
use vstd::prelude::*;

verus! {

/// A natural number at the type level.
pub trait Nat {
    /// The number that the type stands for.
    spec fn value() -> nat;

    /// Lowers the type to the number it stands for.
    fn lower() -> (n: usize)
        requires
            Self::value() <= usize::MAX,
        ensures
            n == Self::value(),
    ;
}

/// The number 0.
pub struct Zero;

/// The successor of `N`: the number `N + 1`.
pub struct Succ<N: Nat>(pub PhantomData<N>);

impl Nat for Zero {
    open spec fn value() -> nat {
        0
    }

    #[inline]
    fn lower() -> (n: usize) {
        0
    }
}

impl<N: Nat> Nat for Succ<N> {
    open spec fn value() -> nat {
        N::value() + 1
    }

    #[inline]
    fn lower() -> (n: usize) {
        N::lower() + 1
    }
}

/// `Self` is the predecessor of `N`, where 0 is its own predecessor.
pub trait Pred<N: Nat>: Nat {
    /// The relation means what its name says.
    proof fn lemma_predecessor()
        ensures
            Self::value() + 1 == N::value() || (Self::value() == 0 && N::value() == 0),
    ;
}

impl Pred<Zero> for Zero {
    proof fn lemma_predecessor() {
    }
}

impl<N: Nat> Pred<Succ<N>> for N {
    proof fn lemma_predecessor() {
    }
}

/// `M: AddEq<N, X>` reads `M + N = X`.
pub trait AddEq<N: Nat, X: Nat>: Nat {
    /// The relation means what its name says.
    proof fn lemma_sum()
        ensures
            Self::value() + N::value() == X::value(),
    ;
}

/// Zero is neutral: `0 + N = N`.
impl<N: Nat> AddEq<N, N> for Zero {
    proof fn lemma_sum() {
    }
}

/// `(M + 1) + N = X + 1` whenever `M + N = X`.
impl<M, N, X> AddEq<N, Succ<X>> for Succ<M> where M: Nat + AddEq<N, X>, N: Nat, X: Nat {
    proof fn lemma_sum() {
        M::lemma_sum();
    }
}

/// A vector whose length `N` is part of its type.
pub struct Vector<N: Nat, A>(Vec<A>, PhantomData<N>);

impl<N: Nat, A> View for Vector<N, A> {
    type V = Seq<A>;

    closed spec fn view(&self) -> Seq<A> {
        self.0@
    }
}

impl<A> Vector<Zero, A> {
    /// The empty vector.
    pub fn new() -> (v: Self)
        ensures
            v@ == Seq::<A>::empty(),
    {
        Self(Vec::new(), PhantomData)
    }
}

impl<N: Nat, A> Vector<N, A> {
    /// The vector holds as many elements as its type says.
    #[verifier::type_invariant]
    spec fn well_sized(&self) -> bool {
        self.0@.len() == N::value()
    }

    /// The length that the type promises.
    pub fn size() -> (n: usize)
        requires
            N::value() <= usize::MAX,
        ensures
            n == N::value(),
    {
        N::lower()
    }

    /// The length of this vector, read off its type.
    pub fn len(&self) -> (n: usize)
        ensures
            n == self@.len(),
            n == N::value(),
    {
        proof {
            use_type_invariant(self);
            assert(self.0.len() == self.0@.len());
        }
        Self::size()
    }

    /// Puts `x` in front of the vector. The result's type is one longer.
    pub fn cons(self, x: A) -> (v: Vector<Succ<N>, A>)
        ensures
            v@ == seq![x] + self@,
    {
        proof {
            use_type_invariant(&self);
        }
        let mut xs = self.0;
        xs.insert(0, x);
        assert(xs@ =~= seq![x] + self.0@);
        Vector(xs, PhantomData)
    }
}

/// A list of length `N` whose elements may differ in type.
pub trait HList<N: Nat> {
    /// Puts `x` in front of this list.
    fn cons<H>(self, x: H) -> (list: HCons<Succ<N>, N, H, Self>) where Self: Sized
        ensures
            list.first() == x,
            list.rest() == self,
    {
        HCons(x, self, PhantomData, PhantomData)
    }

    /// The length of the list, read off its type.
    fn len(&self) -> (n: usize)
        requires
            N::value() <= usize::MAX,
        ensures
            n == N::value(),
    {
        N::lower()
    }
}

/// The empty heterogeneous list.
pub struct HNil;

impl HList<Zero> for HNil {

}

/// A non-empty heterogeneous list of length `N`: a head and a tail of length
/// `M = N - 1`.
pub struct HCons<N, M, H, T>(pub H, pub T, PhantomData<N>, PhantomData<M>);

impl<N, M, H, T> HCons<N, M, H, T> {
    /// The head of the list.
    pub closed spec fn first(&self) -> H {
        self.0
    }

    /// The tail of the list.
    pub closed spec fn rest(&self) -> T {
        self.1
    }
}

impl<N: Nat, M: Nat + Pred<N>, H, T: HList<M>> HCons<N, M, H, T> {
    /// The list of head `h` and tail `t`.
    #[inline]
    pub fn new(h: H, t: T) -> (list: Self)
        ensures
            list.first() == h,
            list.rest() == t,
    {
        Self(h, t, PhantomData, PhantomData)
    }

    /// The first element.
    #[inline]
    pub fn head(&self) -> (h: &H)
        ensures
            *h == self.first(),
    {
        &self.0
    }

    /// The list without its first element.
    #[inline]
    pub fn tail(&self) -> (t: &T)
        ensures
            *t == self.rest(),
    {
        &self.1
    }
}

impl<N, M, H, T> HList<N> for HCons<N, M, H, T> where N: Nat, M: Nat + Pred<N>, T: HList<M> {

}

/// Holds the check that `M` is the predecessor of `N`: it compiles for such
/// types only.
pub struct NotPredTest;

impl NotPredTest {
    /// Accepts the types `M` and `N` where `M` is the predecessor of `N`.
    pub fn check<M, N>() where N: Nat, M: Nat + Pred<N>
        ensures
            M::value() + 1 == N::value() || (M::value() == 0 && N::value() == 0),
    {
        proof {
            M::lemma_predecessor();
        }
    }
}

/// Holds the check that `M + N = X`: it compiles for such types only.
pub struct NotAddTest;

impl NotAddTest {
    /// Accepts the types `M`, `N` and `X` where `M + N = X`.
    pub fn check<M, N, X>() where M: Nat + AddEq<N, X>, N: Nat, X: Nat
        ensures
            M::value() + N::value() == X::value(),
    {
        proof {
            M::lemma_sum();
        }
    }
}

} // verus!
