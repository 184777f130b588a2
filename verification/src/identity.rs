//! What it means for a stored pair of functions to be an identity strategy.
//!
//! A table is handed an equality test and a hash function as values. What
//! such a value computes is known only through what its calls return, so the
//! contracts of the table are stated over an [`Identity`]: a mathematical
//! pair of a sameness relation and a hash. Each contract holds under every
//! identity that describes the stored pair; for a pair of functions whose
//! results are fixed by their arguments there is one, and the contract then
//! says exactly what the table does.

use vstd::prelude::*;

verus! {

/// A mathematical description of an identity strategy: when two values count
/// as the same, and the number that a value hashes to.
#[verifier::reject_recursive_types(T)]
pub struct Identity<T> {
    pub same: spec_fn(T, T) -> bool,
    pub hash: spec_fn(T) -> usize,
}

impl<T> Identity<T> {
    /// Values that count as the same hash to the same number.
    pub open spec fn valid(self) -> bool {
        forall|a: T, b: T| #[trigger] (self.same)(a, b) ==> (self.hash)(a) == (self.hash)(b)
    }

    /// Every value counts as the same as itself.
    pub open spec fn reflexive(self) -> bool {
        forall|a: T| #[trigger] (self.same)(a, a)
    }

    /// Sameness does not depend on the order of the two values.
    pub open spec fn symmetric(self) -> bool {
        forall|a: T, b: T| #[trigger] (self.same)(a, b) ==> (self.same)(b, a)
    }

    /// Two values that are the same as a third are the same as each other.
    pub open spec fn transitive(self) -> bool {
        forall|a: T, b: T, c: T|
            #[trigger] (self.same)(a, b) && #[trigger] (self.same)(b, c) ==> (self.same)(a, c)
    }

    /// The executable pair `(eq_fn, hash_fn)` computes this description:
    /// whatever a call returns is what the description says.
    pub open spec fn describes<E: Fn(&T, &T) -> bool, H: Fn(&T) -> usize>(
        self,
        eq_fn: E,
        hash_fn: H,
    ) -> bool {
        &&& self.valid()
        &&& forall|a: T, b: T, r: bool| #[trigger]
            call_ensures(eq_fn, (&a, &b), r) ==> r == (self.same)(a, b)
        &&& forall|a: T, h: usize| #[trigger]
            call_ensures(hash_fn, (&a,), h) ==> h == (self.hash)(a)
    }
}

/// Both functions may be called on every argument.
pub open spec fn callable<T, E: Fn(&T, &T) -> bool, H: Fn(&T) -> usize>(
    eq_fn: E,
    hash_fn: H,
) -> bool {
    &&& forall|a: T, b: T| #[trigger] call_requires(eq_fn, (&a, &b))
    &&& forall|a: T| #[trigger] call_requires(hash_fn, (&a,))
}

} // verus!
