use rangelist::{
	Adjacent, Bound, DiffIter, IntersectIter, IntervalIterator, Intervals, RangeList, SortedRanges, Step,
	UnionIter,
};
use std::collections::{BTreeSet, HashSet};

#[test]
fn first_position_bound_examples() {
	let rl = RangeList::from_iter(vec![1..=4, 6..=8]);
	assert_eq!(rl.first_position_bound(&Bound::Included(-1)), Some(0));
	assert_eq!(rl.first_position_bound(&Bound::Included(1)), Some(0));
	assert_eq!(rl.first_position_bound(&Bound::Excluded(1)), Some(1));
	assert_eq!(rl.first_position_bound(&Bound::Included(4)), Some(3));
	assert_eq!(rl.first_position_bound(&Bound::Excluded(4)), Some(4));
	assert_eq!(rl.first_position_bound(&Bound::Included(8)), Some(6));
	assert_eq!(rl.first_position_bound(&Bound::Included(9)), None);
	assert_eq!(rl.first_position_bound(&Bound::Included(5)), Some(4));
	assert_eq!(rl.first_position_bound(&Bound::Excluded(5)), Some(4));
	// No value lies above the maximum.
	assert_eq!(rl.first_position_bound(&Bound::Excluded(8)), None);
	assert_eq!(rl.first_position_bound(&Bound::Unbounded), None);
}

#[test]
fn first_position_bound_on_uncountable_lists() {
	let full = RangeList::from(0_u64..=u64::MAX);
	assert_eq!(full.card(), None);
	assert_eq!(full.position(&5), Some(5));
	assert_eq!(full.first_position_bound(&Bound::Included(5)), Some(5));
	assert_eq!(full.first_position_bound(&Bound::Excluded(5)), Some(6));
	assert_eq!(full.first_position_bound(&Bound::Included(0)), Some(0));
	assert_eq!(full.first_position_bound(&Bound::Excluded(u64::MAX)), None);
	// The smallest value above the bound lies past `usize::MAX` values.
	let wide = RangeList::from(0_u128..=u128::MAX);
	assert_eq!(wide.first_position_bound(&Bound::Included(5)), Some(5));
	assert_eq!(wide.first_position_bound(&Bound::Included(u128::MAX)), None);
	assert_eq!(wide.position(&5), Some(5));
	assert_eq!(wide.position(&u128::MAX), None);
	let empty: RangeList<i32> = RangeList::default();
	assert_eq!(empty.first_position_bound(&Bound::Included(0)), None);
}

#[test]
fn last_position_bound_on_uncountable_lists() {
	let full = RangeList::from(0_u64..=u64::MAX);
	assert_eq!(full.last_position_bound(&Bound::Included(5)), Some(5));
	assert_eq!(full.last_position_bound(&Bound::Excluded(5)), Some(4));
	assert_eq!(full.last_position_bound(&Bound::Excluded(0)), None);
	let wide = RangeList::from(0_u128..=u128::MAX);
	assert_eq!(wide.last_position_bound(&Bound::Included(7)), Some(7));
	assert_eq!(wide.last_position_bound(&Bound::Included(u128::MAX)), None);
}

#[test]
fn last_position_bound_examples() {
	let rl = RangeList::from_iter(vec![1..=4, 6..=8]);
	assert_eq!(rl.last_position_bound(&Bound::Included(1)), Some(0));
	assert_eq!(rl.last_position_bound(&Bound::Included(4)), Some(3));
	assert_eq!(rl.last_position_bound(&Bound::Excluded(4)), Some(2));
	assert_eq!(rl.last_position_bound(&Bound::Included(9)), Some(7));
	assert_eq!(rl.last_position_bound(&Bound::Excluded(9)), Some(7));
	assert_eq!(rl.last_position_bound(&Bound::Included(-1)), None);
	assert_eq!(rl.last_position_bound(&Bound::Excluded(1)), None);
	assert_eq!(rl.last_position_bound(&Bound::Included(5)), Some(4));
	assert_eq!(rl.last_position_bound(&Bound::Excluded(6)), Some(3));
	assert_eq!(rl.last_position_bound(&Bound::Excluded(7)), Some(4));
	assert_eq!(rl.last_position_bound(&Bound::Unbounded), None);
	let empty: RangeList<i32> = RangeList::default();
	assert_eq!(empty.last_position_bound(&Bound::Included(3)), None);
	let full = RangeList::from(i64::MIN..=i64::MAX);
	assert_eq!(full.last_position_bound(&Bound::Included(i64::MIN + 2)), Some(2));
	assert_eq!(full.last_position_bound(&Bound::Excluded(i64::MIN + 2)), Some(1));
}

#[test]
fn position_examples() {
	let rl = RangeList::from_iter(vec![1..=4, 6..=8]);
	assert_eq!(rl.position(&1), Some(0));
	assert_eq!(rl.position(&4), Some(3));
	assert_eq!(rl.position(&6), Some(4));
	assert_eq!(rl.position(&7), Some(5));
	assert_eq!(rl.position(&-4), None);
	assert_eq!(rl.position(&5), None);
	assert_eq!(rl.position(&9), None);
}

#[test]
fn min_max_examples() {
	assert_eq!(RangeList::from_iter(vec![1..=4]).max(), Some(&4));
	assert_eq!(RangeList::from_iter(vec![1..=4, 6..=7, -5..=-3]).max(), Some(&7));
	assert_eq!(RangeList::<i64>::default().max(), None);
	assert_eq!(RangeList::from_iter(vec![1..=4]).min(), Some(&1));
	assert_eq!(RangeList::from_iter(vec![1..=4, 6..=7, -5..=-3]).min(), Some(&-5));
	assert_eq!(RangeList::<i64>::default().min(), None);
	let rl = RangeList::from_iter(vec![3..=4, 8..=9]);
	assert_eq!(rl.lower_bound(), Some(&3));
	assert_eq!(rl.upper_bound(), Some(&9));
}

#[test]
fn contains_examples() {
	assert!(RangeList::from_iter(vec![1..=4]).contains(&4));
	assert!(!RangeList::from_iter(vec![1..=4]).contains(&0));
	assert!(RangeList::from_iter(vec![1..=4, 6..=7, -5..=-3]).contains(&7));
	assert!(!RangeList::from_iter(vec![1..=4, 6..=7, -5..=-3]).contains(&0));
}

#[test]
fn is_empty_examples() {
	assert!(!RangeList::from_iter(vec![3..=4]).is_empty());
	assert!(RangeList::<i64>::default().is_empty());
	assert!(RangeList::from_iter(vec![3..=2]).is_empty());
}

#[test]
fn tighten_examples() {
	let mut r = RangeList::from_iter(vec![-5..=-3, 1..=4, 6..=7]);
	r.tighten_max(3);
	assert_eq!(r.max(), Some(&3));
	assert_eq!(r.iter(), vec![-5..=-3, 1..=3]);

	let mut r = RangeList::from_iter(vec![-5..=-3, 1..=4, 6..=7]);
	r.tighten_min(2);
	assert_eq!(r.min(), Some(&2));
	assert_eq!(r.iter(), vec![2..=4, 6..=7]);

	let mut r = RangeList::from_iter(vec![-5..=-3, 1..=4, 6..=7]);
	r.set_lower_bound(-4);
	r.set_upper_bound(6);
	assert_eq!(r.iter(), vec![-4..=-3, 1..=4, 6..=6]);
}

#[test]
fn from_sorted_ranges_skips_empty_ranges() {
	let rl = RangeList::from_sorted_ranges(vec![3..=2, 4..=6, 7..=7, 9..=8, 10..=12]);
	assert_eq!(rl.to_string(), "4..7 union 10..12");
}

#[test]
fn from_iter_skips_exhausted_ranges() {
	let mut r = 1..=1;
	assert_eq!(r.next(), Some(1));
	assert_eq!(r.next(), None);
	let rl = RangeList::from_iter(vec![r, 5..=6]);
	assert_eq!(rl.to_string(), "5..6");
}

#[test]
fn from_range_reference() {
	let r = 2_u16..=9;
	let rl = RangeList::from(&r);
	assert_eq!(rl.to_string(), "2..9");
	let e = RangeList::from(&(9_u16..=2));
	assert!(e.is_empty());
}

#[test]
fn from_iter_merges_unsorted_and_adjacent() {
	let rl = RangeList::from_iter(vec![10..=12, 1..=3, 4..=5, 13..=13, 7..=8]);
	assert_eq!(rl.to_string(), "1..5 union 7..8 union 10..13");
	assert_eq!(rl.iter(), vec![1..=5, 7..=8, 10..=13]);
}

#[test]
fn display_of_extreme_values() {
	let rl = RangeList::from_iter(vec![i64::MIN..=-1000, 0..=0, 1234567..=i64::MAX]);
	assert_eq!(
		rl.to_string(),
		"-9223372036854775808..-1000 union 0..0 union 1234567..9223372036854775807"
	);
	let rl = RangeList::from(u64::MAX - 1..=u64::MAX);
	assert_eq!(rl.to_debug_string(), "RangeList::from(18446744073709551614..=18446744073709551615)");
}

#[test]
fn same_values_same_ranges() {
	let a = RangeList::from_iter(vec![5..=9, 1..=2, 3..=3]);
	let b = RangeList::from_sorted_elements(vec![1, 2, 3, 5, 6, 7, 8, 9]);
	let c = RangeList::from_iter(vec![1..=3, 5..=7, 6..=9]);
	assert_eq!(a, b);
	assert_eq!(b, c);
	assert_eq!(a.iter(), vec![1..=3, 5..=9]);
}

#[test]
fn card_counts_values() {
	let x = RangeList::from_iter(vec![-3_i32..=-1, 4..=4, 10..=19]);
	let mut count = 0;
	for v in -20..=30 {
		if x.contains(&v) {
			count += 1;
		}
	}
	assert_eq!(x.card(), Some(count));
	assert_eq!(count, 14);
}

#[test]
fn positions_count_values_below() {
	let x = RangeList::from_iter(vec![-3_i32..=-1, 4..=4, 10..=19]);
	for v in -20..=30 {
		let below = (-20..v).filter(|w| x.contains(w)).count();
		if x.contains(&v) {
			assert_eq!(x.position(&v), Some(below));
		} else {
			assert_eq!(x.position(&v), None);
		}
		if (v..=30).any(|w| x.contains(&w)) {
			assert_eq!(x.first_position_bound(&Bound::Included(v)), Some(below));
		} else {
			assert_eq!(x.first_position_bound(&Bound::Included(v)), None);
		}
	}
}

#[test]
fn set_operations_match_membership() {
	let a = RangeList::from_iter(vec![-8_i16..=-6, -2..=3, 5..=5, 9..=14]);
	let b = RangeList::from_iter(vec![-7_i16..=-2, 1..=1, 4..=10, 13..=20]);
	let u = a.union(&b);
	let i = a.intersect(&b);
	let d = a.diff(&b);
	for v in -30..=30 {
		assert_eq!(u.contains(&v), a.contains(&v) || b.contains(&v));
		assert_eq!(i.contains(&v), a.contains(&v) && b.contains(&v));
		assert_eq!(d.contains(&v), a.contains(&v) && !b.contains(&v));
	}
	assert_eq!(a.disjoint(&b), false);
	assert!(d.disjoint(&b));
	assert!(i.subset(&a) && i.subset(&b));
	assert!(u.superset(&a) && u.superset(&b));
	assert_eq!(a.superset(&i), i.subset(&a));
	assert_eq!(b.superset(&a), a.subset(&b));
	assert!(!a.subset(&b));
}

#[test]
fn diff_cuts_at_type_bounds() {
	let x = RangeList::from(0_u8..=255);
	let z = x.diff(&RangeList::from(0_u8..=0));
	assert_eq!(z.to_string(), "1..255");
	let z = x.diff(&RangeList::from(255_u8..=255));
	assert_eq!(z.to_string(), "0..254");
	let z = x.diff(&RangeList::from_iter(vec![10_u8..=20, 30..=40]));
	assert_eq!(z.to_string(), "0..9 union 21..29 union 41..255");
}

#[test]
fn diff_iter_steps() {
	let mut it = DiffIter::from_iters(vec![(1_i32, 10), (12, 15)], vec![(3, 4), (8, 12)]);
	assert_eq!(it.next(), Some(1..=2));
	assert_eq!(it.next(), Some(5..=7));
	assert_eq!(it.next(), Some(13..=15));
	assert_eq!(it.next(), None);
	assert_eq!(it.next(), None);
}

#[test]
fn intersect_iter_steps() {
	let a = RangeList::from_iter(vec![1_i64..=5, 8..=12]);
	let b = RangeList::from_iter(vec![3_i64..=9, 11..=20]);
	let mut it = IntersectIter::new(&a, &b);
	assert_eq!(it.next(), Some(3..=5));
	assert_eq!(it.next(), Some(8..=9));
	assert_eq!(it.next(), Some(11..=12));
	assert_eq!(it.next(), None);
}

#[test]
fn union_iter_steps() {
	let mut it = UnionIter::from_iters(vec![(1_u32, 3), (10, 12)], vec![(2, 5), (6, 7), (11, 20)]);
	assert_eq!(it.next(), Some(1..=5));
	assert_eq!(it.next(), Some(6..=7));
	assert_eq!(it.next(), Some(10..=20));
	assert_eq!(it.next(), None);
	let collected = UnionIter::from_iters(vec![(1_u32, 3)], vec![(4, 6)]).collect_list();
	assert_eq!(collected.to_string(), "1..6");
}

#[test]
fn union_iter_joins_a_chain_of_overlaps() {
	let mut it = UnionIter::from_iters(vec![(1_i32, 2), (4, 5), (7, 8)], vec![(1, 9)]);
	assert_eq!(it.next(), Some(1..=9));
	assert_eq!(it.next(), None);
	let mut it = UnionIter::from_iters(vec![(1_i32, 2), (4, 5), (9, 12)], vec![(2, 4), (5, 7)]);
	assert_eq!(it.next(), Some(1..=7));
	assert_eq!(it.next(), Some(9..=12));
	assert_eq!(it.next(), None);
}

#[test]
fn diff_iter_yields_whole_pieces() {
	let mut it = DiffIter::from_iters(
		vec![(3_i32, 4), (6, 9), (11, 12), (14, 14), (16, 16)],
		vec![(1, 1), (3, 3), (12, 14)],
	);
	assert_eq!(it.next(), Some(4..=4));
	assert_eq!(it.next(), Some(6..=9));
	assert_eq!(it.next(), Some(11..=11));
	assert_eq!(it.next(), Some(16..=16));
	assert_eq!(it.next(), None);
}

#[test]
fn intersect_iter_yields_whole_overlaps() {
	let mut it = IntersectIter::from_iters(vec![(1_i32, 5)], vec![(1, 2), (4, 9)]);
	assert_eq!(it.next(), Some(1..=2));
	assert_eq!(it.next(), Some(4..=5));
	assert_eq!(it.next(), None);
}

#[test]
fn new_iterators_yield_as_from_iters() {
	let a = RangeList::from_iter(vec![1_i64..=5, 8..=12]);
	let b = RangeList::from_iter(vec![3_i64..=9, 11..=20]);
	let mut x = UnionIter::new(&a, &b);
	let mut y = UnionIter::from_iters(a.intervals(), b.intervals());
	loop {
		let step = x.next();
		assert_eq!(step, y.next());
		if step.is_none() {
			break;
		}
	}
	let mut x = DiffIter::new(&a, &b);
	assert_eq!(x.next(), Some(1..=2));
	assert_eq!(x.next(), Some(10..=10));
	assert_eq!(x.next(), None);
}

#[test]
fn diff_iter_collect() {
	let a = RangeList::from(0_i8..=20);
	let b = RangeList::from_iter(vec![2_i8..=3, 10..=10]);
	let d = DiffIter::new(&a, &b).collect_list();
	assert_eq!(d.to_string(), "0..1 union 4..9 union 11..20");
}

#[test]
fn adjacent_at_type_bounds() {
	assert_eq!(255_u8.successor(), None);
	assert_eq!(254_u8.successor(), Some(255));
	assert_eq!(0_u8.predecessor(), None);
	assert_eq!(i8::MIN.predecessor(), None);
	assert_eq!(i8::MAX.successor(), None);
	assert_eq!((-1_i16).successor(), Some(0));
	assert_eq!(0_u32.predecessor(), None);
	assert_eq!(u64::MAX.successor(), None);
	assert_eq!(i64::MIN.predecessor(), None);
	assert_eq!(usize::MAX.successor(), None);
	assert_eq!(isize::MIN.predecessor(), None);
	assert_eq!(7_i32.predecessor(), Some(6));
}

#[test]
fn steps_between_counts() {
	assert_eq!(Step::steps_between(&3_u8, &3), Some(0));
	assert_eq!(Step::steps_between(&3_u8, &2), None);
	assert_eq!(Step::steps_between(&i8::MIN, &i8::MAX), Some(255));
	assert_eq!(Step::steps_between(&0_u16, &u16::MAX), Some(65535));
	assert_eq!(Step::steps_between(&i16::MIN, &i16::MAX), Some(65535));
	assert_eq!(Step::steps_between(&i32::MIN, &i32::MAX), Some(4294967295));
	assert_eq!(Step::steps_between(&0_u32, &10), Some(10));
	assert_eq!(Step::steps_between(&0_u64, &u64::MAX), Some(usize::MAX));
	assert_eq!(Step::steps_between(&i64::MIN, &i64::MAX), Some(usize::MAX));
	assert_eq!(Step::steps_between(&isize::MIN, &isize::MAX), Some(usize::MAX));
	assert_eq!(Step::steps_between(&5_usize, &1), None);
	assert_eq!(Step::steps_between(&-5_i64, &5), Some(10));
}

#[test]
fn card_of_small_types() {
	assert_eq!(RangeList::from(i8::MIN..=i8::MAX).card(), Some(256));
	assert_eq!(RangeList::from(0_u16..=u16::MAX).card(), Some(65536));
	assert_eq!(RangeList::from(0_usize..=usize::MAX).card(), None);
	assert_eq!(RangeList::from(1_usize..=usize::MAX).card(), Some(usize::MAX));
}

#[test]
fn wide_integer_types() {
	let rl = RangeList::from_iter(vec![i128::MIN..=i128::MIN + 1, 5..=i128::MAX]);
	assert_eq!(
		rl.to_string(),
		format!("{}..{} union 5..{}", i128::MIN, i128::MIN + 1, i128::MAX)
	);
	assert_eq!(rl.card(), None);
	assert_eq!(rl.position(&(i128::MIN + 1)), Some(1));
	let u = RangeList::from(u128::MAX - 3..=u128::MAX);
	assert_eq!(u.card(), Some(4));
	assert_eq!(u.to_debug_string(), format!("RangeList::from({}..={})", u128::MAX - 3, u128::MAX));
	assert_eq!(u128::MAX.successor(), None);
	assert_eq!(i128::MIN.predecessor(), None);
	assert_eq!(Step::steps_between(&0_u128, &u128::MAX), None);
	assert_eq!(Step::steps_between(&i128::MIN, &i128::MAX), None);
	assert_eq!(Step::steps_between(&-3_i128, &4), Some(7));
	let d = u.diff(&RangeList::from(u128::MAX - 1..=u128::MAX - 1));
	assert_eq!(d.card(), Some(3));
}

#[test]
fn from_iter_many_unsorted_ranges() {
	let mut v = Vec::new();
	for k in (0..200_i32).rev() {
		v.push(k * 10..=k * 10 + 4);
		v.push(k * 10 + 3..=k * 10 + 5);
	}
	let rl = RangeList::from_iter(v);
	assert_eq!(rl.card(), Some(1200));
	assert_eq!(rl.iter().len(), 200);
	assert_eq!(rl.min(), Some(&0));
	assert_eq!(rl.max(), Some(&1995));
	assert!(rl.contains(&1005) && !rl.contains(&1006));
}

#[test]
fn positions_are_zero_to_card_in_order() {
	let rl = RangeList::from_iter(vec![-3_i32..=-1, 4..=4, 7..=9]);
	let card = rl.card().unwrap();
	let mut expected = 0;
	for v in -10..20 {
		if rl.contains(&v) {
			assert_eq!(rl.position(&v), Some(expected));
			expected += 1;
		} else {
			assert_eq!(rl.position(&v), None);
		}
	}
	assert_eq!(expected, card);
}

#[test]
fn set_bounds_match_tightening_a_clone() {
	let rl = RangeList::from_iter(vec![1..=4, 6..=8, 10..=12]);
	assert!(rl.clone() == rl);
	let mut a = rl.clone();
	a.set_lower_bound(3);
	let mut b = rl.clone();
	b.tighten_min(3);
	assert!(a == b);
	assert_eq!(a.to_string(), "3..4 union 6..8 union 10..12");
	let mut c = rl.clone();
	c.set_upper_bound(7);
	let mut d = rl.clone();
	d.tighten_max(7);
	assert!(c == d);
	assert_eq!(d.to_string(), "1..4 union 6..7");
}

#[test]
fn std_sets_list_single_values() {
	let b: BTreeSet<i32> = [5, 1, 2, 9].into_iter().collect();
	assert_eq!(b.intervals(), vec![(1, 1), (2, 2), (5, 5), (9, 9)]);
	let h: HashSet<i32> = [5, 1, 2, 9, 2].into_iter().collect();
	assert_eq!(h.intervals(), vec![(1, 1), (2, 2), (5, 5), (9, 9)]);
	assert_eq!(IntervalIterator::card(&h), Some(4));
	assert!(IntervalIterator::contains(&b, &5));
	assert!(!IntervalIterator::contains(&b, &3));
	let empty: HashSet<u8> = HashSet::new();
	assert_eq!(empty.intervals(), vec![]);
}

#[test]
fn subset_reads_touching_ranges_as_one() {
	let a = RangeList::from(1..=2);
	let b = BTreeSet::from([1, 2]);
	assert!(a.subset(&b));
	let h: HashSet<i32> = [1, 2, 3].into_iter().collect();
	assert!(RangeList::from(1..=3).subset(&h));
	assert!(!RangeList::from(1..=4).subset(&h));
	assert!(RangeList::from_iter(vec![1..=2, 4..=4]).superset(&BTreeSet::from([1, 4])));
	assert!(!RangeList::from_iter(vec![1..=2, 4..=4]).superset(&BTreeSet::from([1, 3])));
}

#[test]
fn set_operations_with_std_sets() {
	let a = RangeList::from_iter(vec![1..=5, 10..=12]);
	let b = BTreeSet::from([3, 4, 6, 11]);
	assert_eq!(a.union(&b).to_string(), "1..6 union 10..12");
	assert_eq!(a.intersect(&b).to_string(), "3..4 union 11..11");
	assert_eq!(a.diff(&b).to_string(), "1..2 union 5..5 union 10..10 union 12..12");
	assert!(!a.disjoint(&b));
	assert!(a.disjoint(&BTreeSet::from([0, 7, 13])));
	let mut it = UnionIter::new(&a, &b);
	assert_eq!(it.next(), Some(1..=5));
	assert_eq!(it.next(), Some(6..=6));
	assert_eq!(it.next(), Some(10..=12));
	assert_eq!(it.next(), None);
	let h: HashSet<i32> = [3, 4, 6, 11].into_iter().collect();
	let mut it = IntersectIter::new(&a, &h);
	assert_eq!(it.next(), Some(3..=3));
	assert_eq!(it.next(), Some(4..=4));
	assert_eq!(it.next(), Some(11..=11));
	assert_eq!(it.next(), None);
}

#[test]
fn set_operations_on_std_set_receivers() {
	let b: BTreeSet<i32> = BTreeSet::from([1, 2, 3, 7]);
	let h: HashSet<i32> = [3, 4, 8].into_iter().collect();
	let rl = RangeList::from_iter(vec![0..=3, 8..=9]);
	// The std sets have a `union` of their own, so the trait's is named.
	let u = IntervalIterator::union(&b, &h);
	assert_eq!(u.to_string(), "1..4 union 7..8");
	assert!(u == IntervalIterator::union(&h, &b));
	assert_eq!(b.intersect(&rl).to_string(), "1..3");
	assert!(b.intersect(&rl) == rl.intersect(&b));
	assert_eq!(b.diff(&h).to_string(), "1..2 union 7..7");
	assert_eq!(h.diff(&b).to_string(), "4..4 union 8..8");
	assert!(!b.disjoint(&h) && !h.disjoint(&b));
	assert!(b.disjoint(&BTreeSet::from([4, 5])) && BTreeSet::from([4, 5]).disjoint(&b));
	assert!(BTreeSet::from([1, 2, 3]).subset(&rl));
	assert!(!b.subset(&rl));
	assert!(rl.superset(&BTreeSet::from([1, 2, 3])));
	assert!(b.superset(&RangeList::from(1..=3)));
	assert!(!h.superset(&RangeList::from(3..=5)));
	let empty: RangeList<i32> = RangeList::default();
	assert!(rl.union(&empty) == rl && empty.union(&rl) == rl);
	assert!(rl.intersect(&empty) == empty);
}

