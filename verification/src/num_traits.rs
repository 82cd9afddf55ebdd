//! Element traits: the integer model of an element, its neighbours, and the
//! number of steps between two elements.

use vstd::prelude::*;
use vstd::std_specs::cmp::{PartialOrdIs, PartialOrdSpec};

verus! {

/// Elements that occupy a position on the integer line.
///
/// `ord` gives that position; the comparison operators of the type must agree
/// with it, and every value lies between `ord_min()` and `ord_max()`.
pub trait Ordinal: Sized + Copy + PartialOrd {
    /// The position of the value on the integer line.
    spec fn ord(&self) -> int;

    /// The position of the smallest value of the type.
    spec fn ord_min() -> int;

    /// The position of the largest value of the type.
    spec fn ord_max() -> int;

    /// The comparisons agree with `ord`, and positions lie within the type's
    /// bounds.
    proof fn ord_laws()
        ensures
            Self::obeys_partial_cmp_spec(),
            forall|a: Self, b: Self|
                #![trigger a.partial_cmp_spec(&b)]
                (a.is_lt(&b) <==> a.ord() < b.ord()) && (a.is_le(&b) <==> a.ord() <= b.ord()) && (
                a.is_gt(&b) <==> a.ord() > b.ord()) && (a.is_ge(&b) <==> a.ord() >= b.ord()),
            forall|a: Self| #![trigger a.ord()] Self::ord_min() <= a.ord() <= Self::ord_max(),
            Self::ord_min() <= Self::ord_max(),
    ;

    /// The position of the value as a sign and a magnitude: whether it is
    /// negative, and its distance from zero.
    fn sign_magnitude(&self) -> (r: (bool, u128))
        ensures
            r.0 <==> self.ord() < 0,
            r.1 == (if self.ord() < 0 { -self.ord() } else { self.ord() }),
    ;
}

/// Types whose values have a well-defined predecessor and successor, allowing
/// adjacent ranges to be merged and ranges to be cut apart.
pub trait Adjacent: Ordinal {
    /// The value just below `self`, or `None` when `self` is the smallest value.
    fn predecessor(&self) -> (r: Option<Self>)
        ensures
            r is Some <==> self.ord() > Self::ord_min(),
            r is Some ==> r->0.ord() == self.ord() - 1,
    ;

    /// The value just above `self`, or `None` when `self` is the largest value.
    fn successor(&self) -> (r: Option<Self>)
        ensures
            r is Some <==> self.ord() < Self::ord_max(),
            r is Some ==> r->0.ord() == self.ord() + 1,
    ;
}

/// Types where the number of steps between two values can be counted.
pub trait Step: Ordinal {
    /// The number of steps from `start` to `end`: `Some(end - start)` when
    /// `start <= end` and the distance fits in `usize`, and `None` otherwise.
    fn steps_between(start: &Self, end: &Self) -> (r: Option<usize>)
        ensures
            r is Some <==> (start.ord() <= end.ord() && end.ord() - start.ord() <= usize::MAX),
            r is Some ==> r->0 == end.ord() - start.ord(),
    ;
}

} // verus!
