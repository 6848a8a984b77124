//! The pair model: the (key, value) unit the engine consumes, abstracted as
//! traits over anything that carries a first and a second component.

use vstd::prelude::*;

verus! {

/// A type carrying a first component.
pub trait HasFst: Sized {
    type Fst;

    /// The first component, at spec level.
    spec fn spec_fst(&self) -> Self::Fst;

    fn fst(self) -> (r: Self::Fst)
        ensures
            r == self.spec_fst(),
    ;

    fn fst_ref(&self) -> (r: &Self::Fst)
        ensures
            *r == self.spec_fst(),
    ;
}

impl<A, B> HasFst for (A, B) {
    type Fst = A;

    open spec fn spec_fst(&self) -> A {
        self.0
    }

    fn fst(self) -> A {
        self.0
    }

    fn fst_ref(&self) -> &A {
        &self.0
    }
}

/// A type carrying a second component.
pub trait HasSnd: Sized {
    type Snd;

    /// The second component, at spec level.
    spec fn spec_snd(&self) -> Self::Snd;

    fn snd(self) -> (r: Self::Snd)
        ensures
            r == self.spec_snd(),
    ;

    fn snd_ref(&self) -> (r: &Self::Snd)
        ensures
            *r == self.spec_snd(),
    ;
}

impl<A, B> HasSnd for (A, B) {
    type Snd = B;

    open spec fn spec_snd(&self) -> B {
        self.1
    }

    fn snd(self) -> B {
        self.1
    }

    fn snd_ref(&self) -> &B {
        &self.1
    }
}

/// A type that is, up to conversion, a plain two-tuple.
pub trait IsPair: HasFst + HasSnd {
    /// The same pair with the components swapped.
    type Flipped;

    /// The flipped pair, at spec level.
    spec fn spec_flip(&self) -> Self::Flipped;

    fn into_pair(self) -> (r: (Self::Fst, Self::Snd))
        ensures
            r.0 == self.spec_fst(),
            r.1 == self.spec_snd(),
    ;

    fn from_pair(pair: (Self::Fst, Self::Snd)) -> (r: Self)
        ensures
            r.spec_fst() == pair.0,
            r.spec_snd() == pair.1,
    ;

    fn as_pair_ref(&self) -> (r: &(Self::Fst, Self::Snd))
        ensures
            r.0 == self.spec_fst(),
            r.1 == self.spec_snd(),
    ;

    fn flip(self) -> (r: Self::Flipped)
        ensures
            r == self.spec_flip(),
    ;
}

impl<A, B> IsPair for (A, B) {
    type Flipped = (B, A);

    open spec fn spec_flip(&self) -> (B, A) {
        (self.1, self.0)
    }

    fn into_pair(self) -> (A, B) {
        self
    }

    fn from_pair(pair: (A, B)) -> (A, B) {
        pair
    }

    fn as_pair_ref(&self) -> &(A, B) {
        self
    }

    fn flip(self) -> (B, A) {
        (self.1, self.0)
    }
}

} // verus!
