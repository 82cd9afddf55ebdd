//! Sets of integer-like values stored as sorted, merged lists of inclusive
//! ranges, together with the set operations (union, intersection, difference,
//! disjointness and inclusion) computed by walking two such lists in order.

mod int_impls;
pub mod num_traits;
pub mod spans;
mod std_range;
pub mod range_list;
pub mod interval_iter;
pub use interval_iter::{IntervalIterator, Intervals};
pub mod set_ops;
pub mod text;
pub use set_ops::{DiffIter, IntersectIter, SortedRanges, UnionIter};
pub use range_list::{Bound, RangeList};

pub use num_traits::{Adjacent, Ordinal, Step};

use vstd::prelude::*;

verus! {


} // verus!
