//! A pair of a key and what goes with it.

use vstd::prelude::*;
use vstd::std_specs::cmp::PartialEqSpec;

verus! {

/// Two values side by side.
#[derive(PartialEq, Eq, Clone, Copy, PartialOrd, Debug)]
pub struct Pair<A, B> {
    pub a: A,
    pub b: B,
}

impl<A, B> Pair<A, B> {
    /// The pair of `a` and `b`.
    pub fn new(a: A, b: B) -> (p: Self)
        ensures
            p.a == a,
            p.b == b,
    {
        Self { a, b }
    }

    /// The pair as a tuple.
    pub fn into_tuple(self) -> (t: (A, B))
        ensures
            t == (self.a, self.b),
    {
        (self.a, self.b)
    }
}

impl<A: PartialEq, B: PartialEq> Pair<A, B> {
    /// Whether the two values of the pair equal the two of `other`, by the
    /// equality of their types.
    pub fn eq_tuple(&self, other: &(A, B)) -> (r: bool)
        ensures
            A::obeys_eq_spec() && B::obeys_eq_spec() ==> r == (self.a.eq_spec(&other.0)
                && self.b.eq_spec(&other.1)),
    {
        self.a == other.0 && self.b == other.1
    }
}

} // verus!
