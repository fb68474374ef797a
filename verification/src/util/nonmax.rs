use vstd::prelude::*;

verus! {

/// A `usize` that is known never to be `usize::MAX`.
#[derive(Clone, Copy, PartialEq, Eq, Debug)]
pub struct NonMaxUsize(usize);

impl View for NonMaxUsize {
    type V = usize;

    closed spec fn view(&self) -> usize {
        self.0
    }
}

impl NonMaxUsize {
    #[verifier::type_invariant]
    spec fn never_max(self) -> bool {
        self.0 != usize::MAX
    }

    /// The stored value; it is never `usize::MAX`.
    pub fn get(&self) -> (val: usize)
        ensures
            val == self@,
            val != usize::MAX,
    {
        proof {
            use_type_invariant(self);
        }
        self.0
    }

    /// `Some` holding `val` unless `val` is `usize::MAX`.
    pub fn new(val: usize) -> (res: Option<Self>)
        ensures
            res is Some <==> val != usize::MAX,
            res matches Some(n) ==> n@ == val,
    {
        if val == usize::MAX {
            None
        } else {
            Some(NonMaxUsize(val))
        }
    }

    /// Wraps `val`, which the caller guarantees is not `usize::MAX`.
    pub fn new_unchecked(val: usize) -> (res: Self)
        requires
            val != usize::MAX,
        ensures
            res@ == val,
    {
        NonMaxUsize(val)
    }
}

/// The index that an optional `NonMaxUsize` holds, as a plain number.
pub open spec fn opt_index(n: Option<NonMaxUsize>) -> Option<nat> {
    match n {
        Some(x) => Some(x@ as nat),
        None => None,
    }
}

/// What `NonMaxUsize::new` gives for `v`, as an optional plain number.
pub open spec fn nonmax_of(v: int) -> Option<nat> {
    if 0 <= v < usize::MAX {
        Some(v as nat)
    } else {
        None
    }
}

/// Building a `NonMaxUsize` from a value and reading it back gives that value;
/// `usize::MAX` alone is refused.
pub proof fn lemma_new_get_round_trip(val: usize)
    ensures
        nonmax_of(val as int) is Some <==> val != usize::MAX,
        val != usize::MAX ==> nonmax_of(val as int) == Some(val as nat),
{
}

/// Two `NonMaxUsize` values are equal exactly when they hold the same number.
pub proof fn lemma_view_injective(a: NonMaxUsize, b: NonMaxUsize)
    ensures
        a@ == b@ <==> a == b,
{
}

} // verus!
