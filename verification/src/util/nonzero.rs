use vstd::prelude::*;

verus! {

/// A `usize` that is known never to be zero. It keeps the value less one, so
/// that it is positive by construction.
#[derive(Clone, Copy, PartialEq, Eq)]
pub struct NonZeroUsize(usize);

impl View for NonZeroUsize {
    type V = nat;

    closed spec fn view(&self) -> nat {
        (self.0 + 1) as nat
    }
}

impl NonZeroUsize {
    #[verifier::type_invariant]
    spec fn fits(self) -> bool {
        self.0 < usize::MAX
    }

    /// The stored value is never zero.
    pub proof fn lemma_positive(&self)
        ensures
            self@ > 0,
    {
    }

    /// The stored value; it is never zero.
    pub fn get(&self) -> (val: usize)
        ensures
            val == self@,
            val != 0,
    {
        proof {
            use_type_invariant(self);
        }
        self.0 + 1
    }

    /// `Some` holding `val` unless `val` is zero.
    pub fn new(val: usize) -> (res: Option<Self>)
        ensures
            res is Some <==> val != 0,
            res matches Some(n) ==> n@ == val,
    {
        if val == 0 {
            None
        } else {
            Some(NonZeroUsize(val - 1))
        }
    }
}

} // verus!
