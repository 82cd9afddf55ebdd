# rangelist

Sets of integer values stored as sorted lists of inclusive ranges, with every
operation specified and proved with Verus.

A `RangeList<E>` keeps its ranges sorted, non-empty, and separated by at least
one missing value, so each set has exactly one representation. Its view is the
set of integer positions of its values (`Set<int>`), and every operation is
stated over that view:

- construction from ranges (`from_iter`, `from_sorted_ranges`, `From`), from
  sorted elements (`from_sorted_elements`), and `Default`;
- queries: `contains`, `card`, `is_empty`, `min`, `max`, `position`,
  `first_position_bound`, `last_position_bound`, `iter`;
- updates: `tighten_min`, `tighten_max`;
- set operations: `union`, `intersect`, `diff`, `disjoint`, `subset`,
  `superset`, computed by the lazy combinators `UnionIter`, `IntersectIter`
  and `DiffIter`, whose contracts name each range they yield;
- text forms: `to_string` (`1..4 union 6..7`) and `to_debug_string`.

Layout of `src/`:

- `num_traits.rs`, `int_impls.rs`: the element traits `Ordinal`, `Adjacent`
  and `Step`, and their implementations for the primitive integer types;
- `spans.rs`: the integer model of a list of ranges and its lemmas;
- `range_list.rs`: `RangeList` and its operations;
- `interval_iter.rs`: the `Intervals` trait (a set type that lists its values
  as sorted ranges) with its implementations for `RangeList`, `BTreeSet` and
  `HashSet`, and the `IntervalIterator` operations that every such type gets:
  `card`, `contains`, `union`, `intersect`, `diff`, `disjoint`, `subset`,
  `superset`;
- `set_ops.rs`: the union, intersection and difference combinators;
- `text.rs`: decimal and display forms;
- `std_range.rs`: contracts for the accessors of `std::ops::RangeInclusive`.
