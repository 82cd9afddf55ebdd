use rangelist::{IntervalIterator, RangeList};

#[test]
fn test_display_rangelist() {
	let empty: RangeList<i64> = RangeList::default();
	assert_eq!(empty.to_string(), "1..0");

	let single_range = RangeList::from_iter(vec![1..=4]);
	assert_eq!(single_range.to_string(), "1..4");

	let multi_range = RangeList::from_iter(vec![1..=4, 6..=7, -5..=-3]);
	assert_eq!(multi_range.to_string(), "-5..-3 union 1..4 union 6..7");
}

#[test]
fn test_from_sorted_elements() {
	// Sorted elements (with duplicates) should be collapsed into ranges.
	let elems = vec![1_u32, 1, 2, 4, 5, 6];
	let rl = RangeList::from_sorted_elements(elems);
	let expected = RangeList::from_iter(vec![1_u32..=2, 4..=6]);
	assert_eq!(rl, expected);

	// Single element produces a single 1-length range.
	let rl2 = RangeList::from_sorted_elements(vec![10_u8]);
	let expected2 = RangeList::from_iter(vec![10_u8..=10]);
	assert_eq!(rl2, expected2);

	// Empty iterator yields empty/default RangeList.
	let rl_empty: RangeList<u32> = RangeList::from_sorted_elements(vec![]);
	assert!(rl_empty.is_empty());
}

#[test]
fn test_from_sorted_ranges() {
	// Sorted ranges with overlap and adjacency should be merged.
	let rl = RangeList::from_sorted_ranges(vec![1..=2, 2..=4, 6..=7]);
	let expected = RangeList::from_iter(vec![1..=4, 6..=7]);
	assert_eq!(rl, expected);

	// Also works for signed types and preserves order.
	let rl2 = RangeList::from_sorted_ranges(vec![-5..=-3, -3..=-1, 0..=0]);
	let expected2 = RangeList::from_iter(vec![-5..=-1, 0..=0]);
	assert_eq!(rl2, expected2);

	// Regression test: a later range fully contained in the current one must
	// not shrink the accumulated range.
	let rl4 = RangeList::from_sorted_ranges(vec![1..=10, 2..=3]);
	let expected4 = RangeList::from_iter(vec![1..=10]);
	assert_eq!(rl4, expected4);

	// Empty iterator returns empty/default RangeList.
	let rl_empty: RangeList<i64> = RangeList::from_sorted_ranges(vec![]);
	assert!(rl_empty.is_empty());
}

#[test]
fn test_position_overflow() {
	// A full-width range has more elements than `usize` can count, so its
	// cardinality overflows, but positions within it (which are distances)
	// must still be reported.
	let full = RangeList::from(0_u64..=u64::MAX);
	assert_eq!(full.card(), None);
	assert_eq!(full.position(&0), Some(0));
	assert_eq!(full.position(&u64::MAX), Some(usize::MAX));

	let signed = RangeList::from(i64::MIN..=i64::MAX);
	assert_eq!(signed.card(), None);
	assert_eq!(signed.position(&i64::MIN), Some(0));
	assert_eq!(signed.position(&i64::MAX), Some(usize::MAX));
}

#[test]
fn test_rangelist() {
	let empty: RangeList<i64> = RangeList::default();
	assert_eq!(empty.to_debug_string(), "RangeList::default()");
	assert!(empty.is_empty());

	let single_range = RangeList::from_iter(vec![1..=4]);
	assert_eq!(single_range.to_debug_string(), "RangeList::from(1..=4)");
	assert!(!single_range.is_empty());
	assert!(single_range.contains(&1));
	assert!(single_range.contains(&2));
	assert!(single_range.contains(&4));
	assert!(!single_range.contains(&0));
	assert!(!single_range.contains(&5));

	let multi_range = RangeList::from_iter(vec![1..=4, 6..=7, -5..=-3]);
	assert_eq!(
		multi_range.to_debug_string(),
		"RangeList::from_iter([-5..=-3, 1..=4, 6..=7])"
	);
	assert!(multi_range.contains(&-5));
	assert!(multi_range.contains(&-3));
	assert!(multi_range.contains(&1));
	assert!(multi_range.contains(&4));
	assert!(multi_range.contains(&6));
	assert!(multi_range.contains(&7));
	assert!(!multi_range.contains(&0));
	assert!(!multi_range.contains(&5));
	assert!(!multi_range.contains(&-6));
	assert!(!multi_range.contains(&8));

	let collapse_range = RangeList::from_iter(vec![1..=2, 2..=3, 10..=12, 11..=15]);
	assert_eq!(
		collapse_range.to_debug_string(),
		"RangeList::from_iter([1..=3, 10..=15])"
	);
}

#[test]
fn test_set_bounds() {
	let mut empty = RangeList::<i64>::default();
	empty.tighten_min(10);
	empty.tighten_max(20);
	assert_eq!(empty.min(), None);
	assert_eq!(empty.max(), None);

	let mut r = RangeList::<i64>::from_iter(vec![1..=2, 4..=6, 8..=9]);
	r.tighten_min(0);
	assert_eq!(r.min(), Some(&1));
	r.tighten_min(1);
	assert_eq!(r.min(), Some(&1));
	r.tighten_min(2);
	assert_eq!(r.min(), Some(&2));
	r.tighten_min(4);
	assert_eq!(r.min(), Some(&4));
	assert_eq!(r.iter(), vec![4..=6, 8..=9]);
	r.tighten_min(9);
	assert_eq!(r.min(), Some(&9));
	assert_eq!(r.iter(), vec![9..=9]);
	r.tighten_min(10);
	assert_eq!(r.min(), None);
	assert!(r.is_empty());

	let mut r = RangeList::<i64>::from_iter(vec![1..=2, 4..=6, 8..=9]);
	r.tighten_max(10);
	assert_eq!(r.max(), Some(&9));
	r.tighten_max(9);
	assert_eq!(r.max(), Some(&9));
	r.tighten_max(8);
	assert_eq!(r.max(), Some(&8));
	r.tighten_max(6);
	assert_eq!(r.max(), Some(&6));
	assert_eq!(r.iter(), vec![1..=2, 4..=6]);
	r.tighten_max(1);
	assert_eq!(r.max(), Some(&1));
	assert_eq!(r.iter(), vec![1..=1]);
	r.tighten_max(0);
	assert_eq!(r.max(), None);
	assert!(r.is_empty());
}

#[test]
fn test_set_card() {
	let empty = RangeList::<i64>::default();
	assert_eq!(empty.card(), Some(0));

	let full: RangeList<i64> = (i64::MIN..=i64::MAX).into();
	assert_eq!(full.card(), None);

	let x = RangeList::<i8>::from(1..=5);
	assert_eq!(x.card(), Some(5));

	let y = RangeList::<u32>::from_iter(vec![1..=2, 4..=6, 8..=9]);
	assert_eq!(y.card(), Some(7));
}

#[test]
fn test_set_diff() {
	let empty: RangeList<i64> = RangeList::default();
	let inf: RangeList<i64> = RangeList::from_iter(vec![i64::MIN..=i64::MAX]);
	let res: RangeList<_> = empty.diff(&empty);
	assert_eq!(res, empty);
	let res: RangeList<_> = inf.diff(&inf);
	assert_eq!(res, empty);
	let res: RangeList<_> = empty.diff(&inf);
	assert_eq!(res, empty);
	let res: RangeList<_> = inf.diff(&empty);
	assert_eq!(res, inf);

	let x = RangeList::from(1..=5);
	let y = RangeList::from(4..=9);
	let z: RangeList<_> = x.diff(&y);
	assert_eq!(z.to_string(), "1..3");
	let z: RangeList<_> = y.diff(&x);
	assert_eq!(z.to_string(), "6..9");
	let z: RangeList<_> = x.diff(&x);
	assert_eq!(z.to_string(), "1..0");
	let z: RangeList<_> = y.diff(&y);
	assert_eq!(z.to_string(), "1..0");
	let z: RangeList<_> = x.diff(&RangeList::from_iter(vec![1..=2, 5..=5]));
	assert_eq!(z.to_string(), "3..4");
	let z: RangeList<_> = x.diff(&RangeList::from(2..=4));
	assert_eq!(z.to_string(), "1..1 union 5..5");
	let z: RangeList<_> = y.diff(&RangeList::from_iter(vec![5..=5, 7..=7, 9..=9]));
	assert_eq!(z.to_string(), "4..4 union 6..6 union 8..8");

	let x = RangeList::from_iter(vec![1..=3, 5..=7, 9..=11]);
	let z: RangeList<_> = x.diff(&y);
	assert_eq!(z.to_string(), "1..3 union 10..11");
	let z: RangeList<_> = x.diff(&RangeList::from(-1..=8));
	assert_eq!(z.to_string(), "9..11");
	let z: RangeList<_> = x.diff(&RangeList::from_iter(vec![4..=4, 8..=8]));
	assert_eq!(x, z);

	// Regression test: z would previously contain 14.
	let x = RangeList::from_iter(vec![3..=4, 6..=9, 11..=12, 14..=14, 16..=16]);
	let z: RangeList<_> = x.diff(&RangeList::from_iter(vec![1..=1, 3..=3, 12..=14]));
	assert_eq!(z.to_string(), "4..4 union 6..9 union 11..11 union 16..16");
}

#[test]
fn test_set_disjoint() {
	let empty = RangeList::default();
	let inf = RangeList::from(i64::MIN..=i64::MAX);

	assert!(empty.disjoint(&empty));
	assert!(empty.disjoint(&inf));
	assert!(inf.disjoint(&empty));
	assert!(!inf.disjoint(&inf));

	let x = RangeList::from_iter(vec![1..=2, 4..=6, 8..=9]);
	assert!(empty.disjoint(&x));
	assert!(x.disjoint(&empty));
	assert!(!x.disjoint(&x));
	assert!(!inf.disjoint(&x));
	assert!(!x.disjoint(&inf));
}

#[test]
fn test_set_intersect() {
	let empty = RangeList::default();
	let inf = RangeList::from_iter(vec![i64::MIN..=i64::MAX]);
	let res: RangeList<_> = empty.intersect(&empty);
	assert_eq!(res, empty);
	let res: RangeList<_> = inf.intersect(&inf);
	assert_eq!(res, inf);
	let res: RangeList<_> = empty.intersect(&inf);
	assert_eq!(res, empty);
	let res: RangeList<_> = inf.intersect(&empty);
	assert_eq!(res, empty);

	let x = RangeList::from(1..=5);
	let y = RangeList::from(4..=9);
	let z: RangeList<_> = x.intersect(&y);
	assert_eq!(z.to_string(), "4..5");

	let y = RangeList::from_iter(vec![1..=2, 4..=9]);
	let z: RangeList<_> = x.intersect(&y);
	assert_eq!(z.to_string(), "1..2 union 4..5");
	let z: RangeList<_> = y.intersect(&x);
	assert_eq!(z.to_string(), "1..2 union 4..5");

	let y = RangeList::from_iter(vec![-5..=-1, 1..=3]);
	let z: RangeList<_> = x.intersect(&y);
	assert_eq!(z.to_string(), "1..3");
	let z: RangeList<_> = y.intersect(&x);
	assert_eq!(z.to_string(), "1..3");
}

#[test]
fn test_set_subset() {
	let empty = RangeList::default();
	let inf = RangeList::from(i64::MIN..=i64::MAX);
	assert!(empty.subset(&inf));
	assert!(!inf.subset(&empty));

	let x = RangeList::from(1..=5);
	let y = RangeList::from(1..=9);
	assert!(x.subset(&x));
	assert!(x.subset(&y));
	assert!(!y.subset(&x));
	assert!(y.subset(&y));

	let x = RangeList::from_iter(vec![1..=2, 4..=9]);
	assert!(x.subset(&x));
	assert!(x.subset(&y));
}

#[test]
fn test_set_union() {
	let empty: RangeList<i64> = RangeList::default();
	let inf: RangeList<i64> = RangeList::from_iter(vec![i64::MIN..=i64::MAX]);
	let res: RangeList<_> = empty.union(&empty);
	assert_eq!(res, empty);
	let res: RangeList<_> = inf.union(&inf);
	assert_eq!(res, inf);
	let res: RangeList<_> = empty.union(&inf);
	assert_eq!(res, inf);
	let res: RangeList<_> = inf.union(&empty);
	assert_eq!(res, inf);

	let x = RangeList::from(1..=5);
	let y = RangeList::from(4..=9);
	let z: RangeList<_> = x.union(&y);
	assert_eq!(z.to_string(), "1..9");

	let y = RangeList::from_iter(vec![1..=2, 4..=4]);
	let z: RangeList<_> = x.union(&y);
	assert_eq!(z.to_string(), "1..5");

	let y = RangeList::from_iter(vec![-5..=-1, 6..=9]);
	let z: RangeList<_> = x.union(&y);
	assert_eq!(z.to_string(), "-5..-1 union 1..9");

	let z: RangeList<_> = y.union(&x);
	assert_eq!(z.to_string(), "-5..-1 union 1..9");

	let x = RangeList::from(1..=9);
	let y = RangeList::from_iter(vec![1..=2, 4..=5, 7..=8]);
	let z: RangeList<_> = x.union(&y);
	assert_eq!(z.to_string(), "1..9");
	let z: RangeList<_> = y.union(&x);
	assert_eq!(z.to_string(), "1..9");
}
