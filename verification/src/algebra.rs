//! The algebra the tree is parameterised over: items that summarise
//! themselves into a monoid, and totally ordered projections of that
//! monoid used as positional coordinates.

use vstd::prelude::*;

verus! {

/// A monoidal aggregate.  `zero` is the identity and `plus` the
/// (associative, not necessarily commutative) accumulation; the
/// executable methods are held to those spec-level operations, and the
/// proof obligations make every implementation a genuine monoid.
pub trait Summary: Sized {
    /// The identity element, as a specification-level value.
    spec fn zero() -> Self;

    /// Accumulation, as a specification-level operation.
    spec fn plus(self, other: Self) -> Self;

    /// Produce the identity element.
    fn empty() -> (r: Self)
        ensures
            r == Self::zero(),
    ;

    /// Fold `other` into `self` from the right.
    fn accumulate(&mut self, other: &Self)
        ensures
            *final(self) == old(self).plus(*other),
    ;

    /// An explicit copy with a known meaning.
    fn duplicate(&self) -> (r: Self)
        ensures
            r == *self,
    ;

    /// `zero` is a left identity.
    proof fn zero_plus(a: Self)
        ensures
            Self::zero().plus(a) == a,
    ;

    /// `zero` is a right identity.
    proof fn plus_zero(a: Self)
        ensures
            a.plus(Self::zero()) == a,
    ;

    /// Accumulation is associative.
    proof fn plus_assoc(a: Self, b: Self, c: Self)
        ensures
            a.plus(b).plus(c) == a.plus(b.plus(c)),
    ;
}

/// The unit stored by the tree.  Each item summarises itself; the
/// summary of a subtree is the fold of the summaries of its items.
pub trait Item: Sized + PartialEq + Eq + Clone + core::fmt::Debug {
    type Summary: Summary + PartialEq + Eq + Clone + core::fmt::Debug;

    /// The summary of this item, as a specification-level value.
    spec fn summary_spec(self) -> Self::Summary;

    /// Summarise this item.
    fn summarize(&self) -> (r: Self::Summary)
        ensures
            r == self.summary_spec(),
    ;
}

/// A totally ordered projection of a summary, used as a positional
/// coordinate.  The projection must be a monoid homomorphism, and
/// adding a projected summary must never move a coordinate backwards.
pub trait Dimension: Sized + PartialEq + Eq + Clone + core::fmt::Debug {
    type Summary: Summary;

    /// The projection, as a specification-level function.
    spec fn from_summary_spec(s: Self::Summary) -> Self;

    /// Coordinate addition, as a specification-level operation.
    spec fn plus_spec(self, other: Self) -> Self;

    /// The total order on coordinates.
    spec fn lte(self, other: Self) -> bool;

    /// Project a summary onto this coordinate.
    fn from_summary(s: &Self::Summary) -> (r: Self)
        ensures
            r == Self::from_summary_spec(*s),
    ;

    /// Add a coordinate taken by reference.
    fn plus_ref(self, other: &Self) -> (r: Self)
        ensures
            r == self.plus_spec(*other),
    ;

    /// Decide the order.
    fn le(&self, other: &Self) -> (r: bool)
        ensures
            r == self.lte(*other),
    ;

    /// An explicit copy with a known meaning.
    fn duplicate(&self) -> (r: Self)
        ensures
            r == *self,
    ;

    /// The coordinate at the start of everything: the projection of the
    /// empty summary.
    fn default() -> (r: Self)
        ensures
            r == Self::from_summary_spec(Self::Summary::zero()),
    {
        Self::from_summary(&Self::Summary::empty())
    }

    /// The projection is a monoid homomorphism.
    proof fn homomorphism(a: Self::Summary, b: Self::Summary)
        ensures
            Self::from_summary_spec(a.plus(b)) == Self::from_summary_spec(a).plus_spec(
                Self::from_summary_spec(b),
            ),
    ;

    /// The order is total.
    proof fn total(a: Self, b: Self)
        ensures
            a.lte(b) || b.lte(a),
    ;

    /// The order is transitive.
    proof fn transitive(a: Self, b: Self, c: Self)
        requires
            a.lte(b),
            b.lte(c),
        ensures
            a.lte(c),
    ;

    /// The order is antisymmetric.
    proof fn antisymmetric(a: Self, b: Self)
        requires
            a.lte(b),
            b.lte(a),
        ensures
            a == b,
    ;

    /// Adding a projected summary never moves a coordinate backwards.
    proof fn monotonic(a: Self::Summary, b: Self::Summary)
        ensures
            Self::from_summary_spec(a).lte(Self::from_summary_spec(a.plus(b))),
    ;
}

} // verus!
