//! `RangeList`: a set of values stored as a sorted list of inclusive ranges,
//! with any two ranges separated by at least one missing value.

use std::ops::RangeInclusive;
use vstd::prelude::*;
use crate::num_traits::{Adjacent, Ordinal, Step};
use crate::spans::{
    count_below, cover_set, covered, covered_in, lemma_count_all_below, lemma_count_below_take,
    lemma_count_nonneg, lemma_count_prefix_le, lemma_count_tail_zero,
    lemma_covered_halves, lemma_covered_last, lemma_covered_push, lemma_covered_sub,
    lemma_sorted_bounds, lemma_take_all, lemma_take_index, separated, singletons, starts_sorted,
    total,
};
use crate::interval_iter::IntervalIterator;

verus! {

/// The integer spans of a list of pairs of elements.
pub open spec fn spans_of<E: Ordinal>(v: Seq<(E, E)>) -> Seq<(int, int)> {
    v.map_values(|p: (E, E)| (p.0.ord(), p.1.ord()))
}

/// Spans of a list that grew by one pair at its end.
pub proof fn lemma_spans_push<E: Ordinal>(v: Seq<(E, E)>, p: (E, E))
    ensures
        spans_of(v.push(p)) == spans_of(v).push((p.0.ord(), p.1.ord())),
{
    assert(spans_of(v.push(p)) =~= spans_of(v).push((p.0.ord(), p.1.ord())));
}

/// The positions covered by the non-empty ranges of `rs`.
pub open spec fn range_set<E: Ordinal>(rs: Seq<RangeInclusive<E>>) -> Set<int> {
    Set::new(
        |x: int|
            exists|i: int|
                #![trigger rs[i]]
                0 <= i < rs.len() && !rs[i]@.exhausted && rs[i]@.start.ord() <= x <= rs[i]@.end.ord(),
    )
}

/// The starts of the ranges of `rs` never decrease.
pub open spec fn range_starts_sorted<E: Ordinal>(rs: Seq<RangeInclusive<E>>) -> bool {
    forall|i: int, j: int|
        #![trigger rs[i], rs[j]]
        0 <= i < j < rs.len() ==> rs[i]@.start.ord() <= rs[j]@.start.ord()
}

/// `x` is the position of one of the first `n` elements of `es`.
pub open spec fn element_in<E: Ordinal>(es: Seq<E>, n: int, x: int) -> bool {
    exists|i: int| #![trigger es[i]] 0 <= i < n && es[i].ord() == x
}

/// The positions of the elements of `es`.
pub open spec fn element_set<E: Ordinal>(es: Seq<E>) -> Set<int> {
    Set::new(|x: int| element_in(es, es.len() as int, x))
}

/// Reads the non-empty ranges of `rs` as pairs of bounds, in order.
fn nonempty_pairs<E: Ordinal>(rs: &Vec<RangeInclusive<E>>) -> (v: Vec<(E, E)>)
    ensures
        forall|k: int| #![trigger v@[k]] 0 <= k < v@.len() ==> v@[k].0.ord() <= v@[k].1.ord(),
        cover_set(spans_of(v@)) == range_set(rs@),
        range_starts_sorted(rs@) ==> starts_sorted(spans_of(v@)),
{
    let mut v: Vec<(E, E)> = Vec::new();
    let n = rs.len();
    let mut i: usize = 0;
    while i < n
        invariant
            i <= n,
            n == rs.len(),
            forall|k: int| #![trigger v@[k]] 0 <= k < v@.len() ==> v@[k].0.ord() <= v@[k].1.ord(),
            forall|x: int|
                covered(spans_of(v@), x) <==> exists|j: int|
                    #![trigger rs@[j]]
                    0 <= j < i && !rs@[j]@.exhausted && rs@[j]@.start.ord() <= x
                        <= rs@[j]@.end.ord(),
            range_starts_sorted(rs@) ==> starts_sorted(spans_of(v@)),
            range_starts_sorted(rs@) ==> forall|k: int, j: int|
                0 <= k < v@.len() && i <= j < n ==> #[trigger] spans_of(v@)[k].0
                    <= #[trigger] rs@[j]@.start.ord(),
        decreases n - i,
    {
        proof {
            E::ord_laws();
        }
        let r = &rs[i];
        if !r.is_empty() {
            let p = (*r.start(), *r.end());
            proof {
                lemma_spans_push(v@, p);
                lemma_covered_push(spans_of(v@), (p.0.ord(), p.1.ord()));
            }
            v.push(p);
        }
        i += 1;
    }
    assert(cover_set(spans_of(v@)) =~= range_set(rs@));
    v
}

/// Merges two lists of non-empty pairs whose starts never decrease into one
/// such list covering the same positions.
fn merge_by_start<E: Ordinal>(a: &Vec<(E, E)>, b: &Vec<(E, E)>) -> (r: Vec<(E, E)>)
    requires
        starts_sorted(spans_of(a@)),
        starts_sorted(spans_of(b@)),
    ensures
        starts_sorted(spans_of(r@)),
        forall|x: int|
            #[trigger] covered(spans_of(r@), x) <==> (covered(spans_of(a@), x) || covered(
                spans_of(b@),
                x,
            )),
        singletons(spans_of(a@)) && singletons(spans_of(b@)) ==> singletons(spans_of(r@)),
{
    let ghost sa = spans_of(a@);
    let ghost sb = spans_of(b@);
    let na = a.len();
    let nb = b.len();
    let mut out: Vec<(E, E)> = Vec::new();
    let mut i: usize = 0;
    let mut j: usize = 0;
    while i < na || j < nb
        invariant
            i <= na,
            j <= nb,
            na == a@.len(),
            nb == b@.len(),
            sa == spans_of(a@),
            sb == spans_of(b@),
            starts_sorted(sa),
            starts_sorted(sb),
            starts_sorted(spans_of(out@)),
            forall|k: int, p: int|
                0 <= k < out@.len() && i <= p < na ==> #[trigger] spans_of(out@)[k].0
                    <= #[trigger] sa[p].0,
            forall|k: int, q: int|
                0 <= k < out@.len() && j <= q < nb ==> #[trigger] spans_of(out@)[k].0
                    <= #[trigger] sb[q].0,
            forall|x: int|
                #[trigger] covered(spans_of(out@), x) <==> (covered_in(sa, 0, i as int, x)
                    || covered_in(sb, 0, j as int, x)),
            singletons(sa) && singletons(sb) ==> singletons(spans_of(out@)),
        decreases (na - i) + (nb - j),
    {
        proof {
            E::ord_laws();
        }
        let take_a = j >= nb || (i < na && a[i].0 <= b[j].0);
        let p = if take_a {
            a[i]
        } else {
            b[j]
        };
        proof {
            if take_a {
                assert(sa[i as int] == (p.0.ord(), p.1.ord()));
                lemma_covered_last(sa, 0, i as int);
                if j < nb {
                    assert(sb[j as int] == (b@[j as int].0.ord(), b@[j as int].1.ord()));
                    assert forall|q: int| j <= q < nb implies p.0.ord() <= #[trigger] sb[q].0 by {
                        if q > j {
                            assert(sb[j as int].0 <= sb[q].0);
                        }
                    }
                }
            } else {
                assert(sb[j as int] == (p.0.ord(), p.1.ord()));
                lemma_covered_last(sb, 0, j as int);
                if i < na {
                    assert(sa[i as int] == (a@[i as int].0.ord(), a@[i as int].1.ord()));
                    assert forall|q: int| i <= q < na implies p.0.ord() <= #[trigger] sa[q].0 by {
                        if q > i {
                            assert(sa[i as int].0 <= sa[q].0);
                        }
                    }
                }
            }
            lemma_spans_push(out@, p);
            lemma_covered_push(spans_of(out@), (p.0.ord(), p.1.ord()));
        }
        out.push(p);
        if take_a {
            i += 1;
        } else {
            j += 1;
        }
    }
    out
}

/// Sorts non-empty pairs by their starts, keeping the positions they cover.
pub(crate) fn sort_by_start<E: Ordinal>(v: Vec<(E, E)>) -> (r: Vec<(E, E)>)
    requires
        forall|k: int| #![trigger v@[k]] 0 <= k < v@.len() ==> v@[k].0.ord() <= v@[k].1.ord(),
    ensures
        starts_sorted(spans_of(r@)),
        forall|x: int| #[trigger] covered(spans_of(r@), x) <==> covered(spans_of(v@), x),
        singletons(spans_of(v@)) ==> singletons(spans_of(r@)),
    decreases v@.len(),
{
    let n = v.len();
    if n <= 1 {
        proof {
            if n == 1 {
                assert(spans_of(v@)[0] == (v@[0].0.ord(), v@[0].1.ord()));
            }
        }
        return v;
    }
    let mid = n / 2;
    let ghost whole = v@;
    let mut left = v;
    let right = left.split_off(mid);
    proof {
        assert(spans_of(left@) =~= spans_of(whole).subrange(0, mid as int));
        assert(spans_of(right@) =~= spans_of(whole).subrange(mid as int, n as int));
        lemma_covered_halves(spans_of(whole), mid as int);
        assert forall|k: int| #![trigger left@[k]] 0 <= k < left@.len() implies left@[k].0.ord()
            <= left@[k].1.ord() by {
            assert(left@[k] == whole[k]);
        }
        assert forall|k: int| #![trigger right@[k]] 0 <= k < right@.len() implies right@[k].0.ord()
            <= right@[k].1.ord() by {
            assert(right@[k] == whole[k + mid]);
        }
    }
    let sl = sort_by_start(left);
    let sr = sort_by_start(right);
    merge_by_start(&sl, &sr)
}

/// A sorted collection of inclusive ranges that represents a set of values.
///
/// The ranges are kept in increasing order, each range is non-empty, and
/// between two consecutive ranges at least one value is missing, so that every
/// set has exactly one representation.
#[derive(PartialEq, Eq, Hash, PartialOrd, Debug)]
pub struct RangeList<E: Ordinal> {
    ranges: Vec<(E, E)>,
}

impl<E: Ordinal> Clone for RangeList<E> {
    /// A range list holding the same ranges.
    fn clone(&self) -> (r: Self)
        ensures
            r.spans() == self.spans(),
            r@ == self@,
    {
        proof {
            use_type_invariant(self);
        }
        RangeList { ranges: self.pairs() }
    }
}

impl<E: Ordinal> View for RangeList<E> {
    type V = Set<int>;

    /// The positions of the values in the set.
    open spec fn view(&self) -> Set<int> {
        cover_set(self.spans())
    }
}

impl<E: Ordinal> RangeList<E> {
    /// The positions of the bounds of the stored ranges, in order.
    pub closed spec fn spans(&self) -> Seq<(int, int)> {
        spans_of(self.ranges@)
    }

    /// The stored ranges are in canonical form: sorted, non-empty, and
    /// separated by at least one missing value. Every range list keeps this
    /// form; `use_type_invariant` brings it into a proof.
    #[verifier::type_invariant]
    pub open spec fn wf(&self) -> bool {
        separated(self.spans())
    }

    /// The empty set.
    fn empty() -> (r: Self)
        ensures
            r.wf(),
            r.spans() == Seq::<(int, int)>::empty(),
            r@ == Set::<int>::empty(),
    {
        let r = RangeList { ranges: Vec::new() };
        assert(r.spans() =~= Seq::<(int, int)>::empty());
        assert(r@ =~= Set::<int>::empty());
        r
    }

    /// Merges a list of non-empty ranges whose starts never decrease.
    pub(crate) fn merge_sorted(v: &Vec<(E, E)>) -> (r: Self) where E: Adjacent
        requires
            starts_sorted(spans_of(v@)),
        ensures
            r.wf(),
            r@ == cover_set(spans_of(v@)),
    {
        proof {
            E::ord_laws();
        }
        let ghost sv = spans_of(v@);
        let n = v.len();
        let mut ranges: Vec<(E, E)> = Vec::new();
        if n == 0 {
            let r = RangeList { ranges };
            assert(r@ =~= cover_set(sv));
            return r;
        }
        let mut cur: (E, E) = v[0];
        let mut i: usize = 1;
        proof {
            assert(sv[0] == (cur.0.ord(), cur.1.ord()));
            lemma_covered_last(sv, 0, 0);
        }
        while i < n
            invariant
                1 <= i <= n,
                n == v.len(),
                sv == spans_of(v@),
                starts_sorted(sv),
                separated(spans_of(ranges@)),
                cur.0.ord() <= cur.1.ord(),
                forall|k: int|
                    0 <= k < ranges@.len() ==> #[trigger] spans_of(ranges@)[k].1 + 1 < cur.0.ord(),
                forall|j: int| i <= j < n ==> cur.0.ord() <= #[trigger] sv[j].0,
                forall|x: int|
                    #[trigger] covered_in(sv, 0, i as int, x) <==> (covered(spans_of(ranges@), x)
                        || cur.0.ord() <= x <= cur.1.ord()),
            decreases n - i,
        {
            proof {
                E::ord_laws();
            }
            let next = v[i];
            assert(sv[i as int] == (next.0.ord(), next.1.ord()));
            let adjacent = match cur.1.successor() {
                Some(succ) => next.0 <= succ,
                None => false,
            };
            proof {
                lemma_covered_last(sv, 0, i as int);
            }
            let ghost old_cur = cur;
            if cur.1 >= next.0 || adjacent {
                if cur.1 < next.1 {
                    cur = (cur.0, next.1);
                }
                assert forall|x: int|
                    #[trigger] covered_in(sv, 0, i + 1, x) <==> (covered(spans_of(ranges@), x)
                        || cur.0.ord() <= x <= cur.1.ord()) by {
                    assert(covered_in(sv, 0, i as int, x) <==> (covered(spans_of(ranges@), x)
                        || old_cur.0.ord() <= x <= old_cur.1.ord()));
                }
            } else {
                proof {
                    lemma_spans_push(ranges@, cur);
                    lemma_covered_push(spans_of(ranges@), (cur.0.ord(), cur.1.ord()));
                }
                ranges.push(cur);
                cur = next;
            }
            i += 1;
        }
        proof {
            lemma_spans_push(ranges@, cur);
            lemma_covered_push(spans_of(ranges@), (cur.0.ord(), cur.1.ord()));
        }
        ranges.push(cur);
        let r = RangeList { ranges };
        assert(r@ =~= cover_set(sv));
        r
    }
}

impl<E: Ordinal> RangeList<E> {
    /// A copy of the stored ranges as pairs of bounds.
    pub(crate) fn pairs(&self) -> (r: Vec<(E, E)>)
        ensures
            spans_of(r@) == self.spans(),
    {
        let mut r: Vec<(E, E)> = Vec::new();
        let n = self.ranges.len();
        let mut i: usize = 0;
        while i < n
            invariant
                i <= n,
                n == self.ranges@.len(),
                r@ == self.ranges@.take(i as int),
            decreases n - i,
        {
            r.push(self.ranges[i]);
            assert(r@ =~= self.ranges@.take(i + 1));
            i += 1;
        }
        assert(r@ =~= self.ranges@);
        r
    }

    /// Builds a range list from ranges whose starts never decrease; ranges may
    /// overlap or touch and are then merged, and empty ranges add nothing.
    pub fn from_sorted_ranges(iter: Vec<RangeInclusive<E>>) -> (r: Self) where E: Adjacent
        requires
            range_starts_sorted(iter@),
        ensures
            r.wf(),
            r@ == range_set(iter@),
    {
        let v = nonempty_pairs(&iter);
        Self::merge_sorted(&v)
    }

    /// Builds a range list from ranges in any order.
    pub fn from_iter(iter: Vec<RangeInclusive<E>>) -> (r: Self) where E: Adjacent
        ensures
            r.wf(),
            r@ == range_set(iter@),
    {
        let v = nonempty_pairs(&iter);
        let v = sort_by_start(v);
        let r = Self::merge_sorted(&v);
        assert(r@ =~= range_set(iter@)) by {
            assert forall|x: int| cover_set(spans_of(v@)).contains(x) == covered(spans_of(v@), x) by {
            }
        }
        r
    }

    /// Builds a range list from elements given in increasing order, where an
    /// element may repeat.
    pub fn from_sorted_elements(iter: Vec<E>) -> (r: Self) where E: Adjacent
        requires
            forall|i: int, j: int|
                #![trigger iter@[i], iter@[j]]
                0 <= i < j < iter@.len() ==> iter@[i].ord() <= iter@[j].ord(),
        ensures
            r.wf(),
            r@ == element_set(iter@),
    {
        let n = iter.len();
        let mut ranges: Vec<(E, E)> = Vec::new();
        if n == 0 {
            let r = Self::empty();
            assert(r@ =~= element_set(iter@));
            return r;
        }
        let mut start = iter[0];
        let mut end = start;
        let mut i: usize = 1;
        assert forall|x: int| #[trigger] element_in(iter@, 1, x) <==> x == start.ord() by {
            if x == start.ord() {
                assert(0 <= 0 < 1 && iter@[0].ord() == x);
            }
        }
        while i < n
            invariant
                1 <= i <= n,
                n == iter@.len(),
                forall|a: int, b: int|
                    #![trigger iter@[a], iter@[b]]
                    0 <= a < b < iter@.len() ==> iter@[a].ord() <= iter@[b].ord(),
                separated(spans_of(ranges@)),
                start.ord() <= end.ord(),
                end == iter@[i - 1],
                forall|k: int|
                    0 <= k < ranges@.len() ==> #[trigger] spans_of(ranges@)[k].1 + 1 < start.ord(),
                forall|x: int|
                    #[trigger] element_in(iter@, i as int, x) <==> (covered(spans_of(ranges@), x)
                        || start.ord() <= x <= end.ord()),
            decreases n - i,
        {
            proof {
                E::ord_laws();
            }
            let next = iter[i];
            assert(iter@[i - 1].ord() <= iter@[i as int].ord());
            let ghost old_start = start;
            let ghost old_end = end;
            let ghost old_ranges = ranges@;
            if next <= end {
                end = next;
            } else {
                match end.successor() {
                    Some(succ) => {
                        if next <= succ {
                            end = next;
                        } else {
                            proof {
                                lemma_spans_push(ranges@, (start, end));
                                lemma_covered_push(spans_of(ranges@), (start.ord(), end.ord()));
                            }
                            ranges.push((start, end));
                            start = next;
                            end = next;
                        }
                    },
                    None => {
                        end = next;
                    },
                }
            }
            assert forall|x: int|
                #[trigger] element_in(iter@, i + 1, x) <==> (covered(spans_of(ranges@), x)
                    || start.ord() <= x <= end.ord()) by {
                assert(element_in(iter@, i as int, x) <==> (covered(spans_of(old_ranges), x)
                    || old_start.ord() <= x <= old_end.ord()));
                if element_in(iter@, i + 1, x) {
                    let j = choose|j: int| #![trigger iter@[j]] 0 <= j < i + 1 && iter@[j].ord() == x;
                    if j < i {
                        assert(element_in(iter@, i as int, x));
                    }
                }
                if x == iter@[i as int].ord() {
                    assert(0 <= i < i + 1 && iter@[i as int].ord() == x);
                } else if element_in(iter@, i as int, x) {
                    let j = choose|j: int| #![trigger iter@[j]] 0 <= j < i && iter@[j].ord() == x;
                    assert(0 <= j < i + 1 && iter@[j].ord() == x);
                }
            }
            i += 1;
        }
        proof {
            lemma_spans_push(ranges@, (start, end));
            lemma_covered_push(spans_of(ranges@), (start.ord(), end.ord()));
        }
        ranges.push((start, end));
        let r = RangeList { ranges };
        assert(r@ =~= element_set(iter@));
        r
    }
}

impl<E: Ordinal> RangeList<E> {
    /// The range list holding the values of one range.
    fn from_range(value: &RangeInclusive<E>) -> (r: Self)
        ensures
            r.wf(),
            r@ == range_set(seq![*value]),
    {
        proof {
            E::ord_laws();
        }
        if value.is_empty() {
            let r = Self::empty();
            assert(r@ =~= range_set(seq![*value]));
            r
        } else {
            let mut ranges: Vec<(E, E)> = Vec::new();
            ranges.push((*value.start(), *value.end()));
            let r = RangeList { ranges };
            assert forall|x: int| r@.contains(x) == range_set(seq![*value]).contains(x) by {
                assert(r.spans()[0] == (value@.start.ord(), value@.end.ord()));
                if r@.contains(x) {
                    assert(seq![*value][0] == *value);
                }
            }
            assert(r@ =~= range_set(seq![*value]));
            r
        }
    }
}

impl<E: Ordinal> From<&RangeInclusive<E>> for RangeList<E> {
    /// The range list holding the values of `value`.
    fn from(value: &RangeInclusive<E>) -> (r: Self)
        ensures
            r.wf(),
            r@ == range_set(seq![*value]),
    {
        Self::from_range(value)
    }
}

impl<E: Ordinal> vstd::std_specs::convert::FromSpecImpl<&RangeInclusive<E>> for RangeList<E> {
    open spec fn obeys_from_spec() -> bool {
        false
    }

    open spec fn from_spec(v: &RangeInclusive<E>) -> Self {
        choose|r: Self| r.wf() && r@ == range_set(seq![*v])
    }
}

impl<E: Ordinal> vstd::std_specs::convert::FromSpecImpl<RangeInclusive<E>> for RangeList<E> {
    open spec fn obeys_from_spec() -> bool {
        false
    }

    open spec fn from_spec(v: RangeInclusive<E>) -> Self {
        choose|r: Self| r.wf() && r@ == range_set(seq![v])
    }
}

impl<E: Ordinal> From<RangeInclusive<E>> for RangeList<E> {
    /// The range list holding the values of `value`.
    fn from(value: RangeInclusive<E>) -> (r: Self)
        ensures
            r.wf(),
            r@ == range_set(seq![value]),
    {
        Self::from_range(&value)
    }
}

/// A bound on one side of a value: the value itself included, excluded, or no
/// bound at all.
#[derive(Clone, Copy, Debug, PartialEq, Eq)]
pub enum Bound<T> {
    /// The bound includes the value.
    Included(T),
    /// The bound excludes the value.
    Excluded(T),
    /// There is no bound.
    Unbounded,
}

/// The least position that a lower bound admits.
pub open spec fn lower_threshold<E: Ordinal>(b: Bound<E>) -> int {
    match b {
        Bound::Included(x) => x.ord(),
        Bound::Excluded(x) => x.ord() + 1,
        Bound::Unbounded => 0,
    }
}

/// One more than the greatest position that an upper bound admits.
pub open spec fn upper_threshold<E: Ordinal>(b: Bound<E>) -> int {
    match b {
        Bound::Included(x) => x.ord() + 1,
        Bound::Excluded(x) => x.ord(),
        Bound::Unbounded => 0,
    }
}

/// The position of the value that a bound carries (`0` for `Unbounded`).
pub open spec fn bound_value<E: Ordinal>(b: Bound<E>) -> int {
    match b {
        Bound::Included(x) => x.ord(),
        Bound::Excluded(x) => x.ord(),
        Bound::Unbounded => 0,
    }
}

/// `x` is the least value of `s`.
pub open spec fn is_least(s: Set<int>, x: int) -> bool {
    s.contains(x) && forall|y: int| #[trigger] s.contains(y) ==> x <= y
}

/// `x` is the greatest value of `s`.
pub open spec fn is_greatest(s: Set<int>, x: int) -> bool {
    s.contains(x) && forall|y: int| #[trigger] s.contains(y) ==> y <= x
}

impl<E: Ordinal> RangeList<E> {
    /// Returns `true` if the range list contains no values.
    pub fn is_empty(&self) -> (b: bool)
        ensures
            b <==> self@ == Set::<int>::empty(),
    {
        proof {
            use_type_invariant(self);
        }
        let b = self.ranges.len() == 0;
        proof {
            if b {
                assert(self@ =~= Set::<int>::empty());
            } else {
                let s = self.spans();
                assert(s[0].0 <= s[0].1);
                assert(covered(s, s[0].0));
                assert(self@.contains(s[0].0));
            }
        }
        b
    }

    /// The smallest value of the range list, or `None` when it is empty.
    pub fn min(&self) -> (r: Option<&E>)
        ensures
            r is None <==> self@ == Set::<int>::empty(),
            r is Some ==> is_least(self@, r->0.ord()),
    {
        proof {
            use_type_invariant(self);
        }
        if self.ranges.len() == 0 {
            assert(self@ =~= Set::<int>::empty());
            None
        } else {
            let s = Ghost(self.spans());
            proof {
                assert(s@[0].0 <= s@[0].1);
                assert(covered(s@, s@[0].0));
                assert(self@.contains(s@[0].0));
                lemma_sorted_bounds(s@, 0, s@.len() as int);
            }
            Some(&self.ranges[0].0)
        }
    }

    /// The largest value of the range list, or `None` when it is empty.
    pub fn max(&self) -> (r: Option<&E>)
        ensures
            r is None <==> self@ == Set::<int>::empty(),
            r is Some ==> is_greatest(self@, r->0.ord()),
    {
        proof {
            use_type_invariant(self);
        }
        let n = self.ranges.len();
        if n == 0 {
            assert(self@ =~= Set::<int>::empty());
            None
        } else {
            let s = Ghost(self.spans());
            proof {
                let k = n - 1;
                assert(s@[k as int].0 <= s@[k as int].1);
                assert(covered(s@, s@[k as int].1));
                assert(self@.contains(s@[k as int].1));
                assert forall|y: int| #[trigger] self@.contains(y) implies y <= s@[k as int].1 by {
                    let i = choose|i: int| #![trigger s@[i]] 0 <= i < s@.len() && s@[i].0 <= y <= s@[i].1;
                    if i != k {
                        assert(s@[i].1 < s@[k as int].0);
                    }
                }
            }
            Some(&self.ranges[n - 1].1)
        }
    }

    /// The smallest value of the range list, or `None` when it is empty.
    /// Deprecated since 0.5.0: use `min` instead.
    pub fn lower_bound(&self) -> (r: Option<&E>)
        ensures
            r is None <==> self@ == Set::<int>::empty(),
            r is Some ==> is_least(self@, r->0.ord()),
    {
        self.min()
    }

    /// The largest value of the range list, or `None` when it is empty.
    /// Deprecated since 0.5.0: use `max` instead.
    pub fn upper_bound(&self) -> (r: Option<&E>)
        ensures
            r is None <==> self@ == Set::<int>::empty(),
            r is Some ==> is_greatest(self@, r->0.ord()),
    {
        self.max()
    }

    /// The stored ranges, in order.
    pub fn iter(&self) -> (r: Vec<RangeInclusive<E>>)
        ensures
            r@.len() == self.spans().len(),
            forall|i: int|
                #![trigger r@[i]]
                0 <= i < r@.len() ==> !r@[i]@.exhausted && r@[i]@.start.ord() == self.spans()[i].0
                    && r@[i]@.end.ord() == self.spans()[i].1,
    {
        proof {
            use_type_invariant(self);
        }
        let mut r: Vec<RangeInclusive<E>> = Vec::new();
        let n = self.ranges.len();
        let mut i: usize = 0;
        while i < n
            invariant
                i <= n,
                n == self.ranges@.len(),
                r@.len() == i,
                forall|k: int|
                    #![trigger r@[k]]
                    0 <= k < i ==> !r@[k]@.exhausted && r@[k]@.start.ord() == spans_of(
                        self.ranges@,
                    )[k].0 && r@[k]@.end.ord() == spans_of(self.ranges@)[k].1,
            decreases n - i,
        {
            let p = self.ranges[i];
            r.push(RangeInclusive::new(p.0, p.1));
            i += 1;
        }
        r
    }

    /// Removes the values above `max`; nothing changes when `max` is at least
    /// the current maximum.
    pub fn tighten_max(&mut self, max: E)
        ensures
            final(self).wf(),
            final(self)@ == old(self)@.filter(|x: int| x <= max.ord()),
    {
        proof {
            use_type_invariant(&*self);
        }
        let ghost s = self.spans();
        let n = self.ranges.len();
        let mut out: Vec<(E, E)> = Vec::new();
        let mut i: usize = 0;
        while i < n
            invariant
                i <= n,
                n == self.ranges@.len(),
                s == spans_of(self.ranges@),
                separated(s),
                separated(spans_of(out@)),
                forall|k: int, j: int|
                    0 <= k < out@.len() && i <= j < n ==> #[trigger] spans_of(out@)[k].1 + 1
                        < #[trigger] s[j].0,
                forall|x: int|
                    #[trigger] covered(spans_of(out@), x) <==> (covered_in(s, 0, i as int, x) && x
                        <= max.ord()),
            decreases n - i,
        {
            proof {
                E::ord_laws();
                lemma_covered_last(s, 0, i as int);
                assert(s[i as int] == (self.ranges@[i as int].0.ord(), self.ranges@[i as int].1.ord()));
            }
            let p = self.ranges[i];
            if p.0 <= max {
                let hi = if p.1 > max {
                    max
                } else {
                    p.1
                };
                proof {
                    lemma_spans_push(out@, (p.0, hi));
                    lemma_covered_push(spans_of(out@), (p.0.ord(), hi.ord()));
                }
                out.push((p.0, hi));
            }
            i += 1;
        }
        proof {
            lemma_covered_sub(s, 0, n as int);
        }
        self.ranges = out;
        assert(self@ =~= cover_set(s).filter(|x: int| x <= max.ord()));
    }

    /// Removes the values below `min`; nothing changes when `min` is at most
    /// the current minimum.
    pub fn tighten_min(&mut self, min: E)
        ensures
            final(self).wf(),
            final(self)@ == old(self)@.filter(|x: int| min.ord() <= x),
    {
        proof {
            use_type_invariant(&*self);
        }
        let ghost s = self.spans();
        let n = self.ranges.len();
        let mut out: Vec<(E, E)> = Vec::new();
        let mut i: usize = 0;
        while i < n
            invariant
                i <= n,
                n == self.ranges@.len(),
                s == spans_of(self.ranges@),
                separated(s),
                separated(spans_of(out@)),
                forall|k: int, j: int|
                    0 <= k < out@.len() && i <= j < n ==> #[trigger] spans_of(out@)[k].1 + 1
                        < #[trigger] s[j].0,
                forall|x: int|
                    #[trigger] covered(spans_of(out@), x) <==> (covered_in(s, 0, i as int, x)
                        && min.ord() <= x),
            decreases n - i,
        {
            proof {
                E::ord_laws();
                lemma_covered_last(s, 0, i as int);
                assert(s[i as int] == (self.ranges@[i as int].0.ord(), self.ranges@[i as int].1.ord()));
            }
            let p = self.ranges[i];
            if p.1 >= min {
                let lo = if p.0 < min {
                    min
                } else {
                    p.0
                };
                proof {
                    lemma_spans_push(out@, (lo, p.1));
                    lemma_covered_push(spans_of(out@), (lo.ord(), p.1.ord()));
                }
                out.push((lo, p.1));
            }
            i += 1;
        }
        self.ranges = out;
        assert(self@ =~= cover_set(s).filter(|x: int| min.ord() <= x));
    }

    /// Removes the values below `lower_bound`.
    /// Deprecated since 0.5.0: use `tighten_min` instead.
    pub fn set_lower_bound(&mut self, lower_bound: E)
        ensures
            final(self).wf(),
            final(self)@ == old(self)@.filter(|x: int| lower_bound.ord() <= x),
    {
        self.tighten_min(lower_bound)
    }

    /// Removes the values above `upper_bound`.
    /// Deprecated since 0.5.0: use `tighten_max` instead.
    pub fn set_upper_bound(&mut self, upper_bound: E)
        ensures
            final(self).wf(),
            final(self)@ == old(self)@.filter(|x: int| x <= upper_bound.ord()),
    {
        self.tighten_max(upper_bound)
    }
}

impl<E: Ordinal> RangeList<E> {
    /// How many values of the range list are smaller than `elem`, or `None`
    /// when `elem` is not in the range list or when that number exceeds
    /// `usize::MAX`.
    pub fn position(&self, elem: &E) -> (r: Option<usize>) where E: Step
        ensures
            r is Some <==> self@.contains(elem.ord()) && count_below(self.spans(), elem.ord())
                <= usize::MAX,
            r is Some ==> r->0 == count_below(self.spans(), elem.ord()),
    {
        proof {
            use_type_invariant(self);
        }
        let ghost s = self.spans();
        let ghost x = elem.ord();
        let n = self.ranges.len();
        let mut pos: usize = 0;
        let mut i: usize = 0;
        while i < n
            invariant
                i <= n,
                n == self.ranges@.len(),
                s == spans_of(self.ranges@),
                separated(s),
                x == elem.ord(),
                pos == total(s.take(i as int)),
                forall|j: int| 0 <= j < i ==> #[trigger] s[j].1 < x,
            decreases n - i,
        {
            proof {
                E::ord_laws();
                assert(s[i as int] == (self.ranges@[i as int].0.ord(), self.ranges@[i as int].1.ord()));
                lemma_count_below_take(s, i as int, x);
                lemma_count_prefix_le(s, i as int + 1, x);
                lemma_take_index(s, i as int);
                lemma_count_all_below(s.take(i as int), x);
            }
            let (start, end) = self.ranges[i];
            if *elem < start {
                proof {
                    assert forall|y: int| covered(s, y) implies y != x by {
                        let j = choose|j: int| #![trigger s[j]] 0 <= j < s.len() && s[j].0 <= y <= s[j].1;
                        if j > i {
                            assert(s[i as int].1 < s[j].0);
                        }
                    }
                }
                return None;
            }
            if *elem <= end {
                proof {
                    assert forall|k: int| i + 1 <= k < s.len() implies x <= #[trigger] s[k].0 by {
                        assert(s[i as int].1 < s[k].0);
                    }
                    lemma_count_tail_zero(s, i as int + 1, x);
                    assert(covered(s, x));
                }
                let elems = match E::steps_between(&start, elem) {
                    Some(d) => d,
                    None => {
                        return None;
                    },
                };
                return pos.checked_add(elems);
            }
            let d = match E::steps_between(&start, &end) {
                Some(d) => d,
                None => {
                    return None;
                },
            };
            pos = match pos.checked_add(d) {
                Some(p) => match p.checked_add(1) {
                    Some(q) => q,
                    None => {
                        return None;
                    },
                },
                None => {
                    return None;
                },
            };
            i += 1;
        }
        proof {
            assert forall|y: int| covered(s, y) implies y != x by {
                let j = choose|j: int| #![trigger s[j]] 0 <= j < s.len() && s[j].0 <= y <= s[j].1;
            }
        }
        None
    }
}

impl<E: Ordinal> RangeList<E> {
    /// The position of the smallest value at or above a lower bound: with
    /// `Included(x)` the smallest value `>= x`, with `Excluded(x)` the
    /// smallest value `> x`. `None` when there is no such value, when the
    /// bound is `Unbounded`, or when that position exceeds `usize::MAX`.
    pub fn first_position_bound(&self, bound: &Bound<E>) -> (r: Option<usize>) where E: Step
        ensures
            r is Some <==> (!(*bound is Unbounded) && count_below(
                self.spans(),
                lower_threshold(*bound),
            ) <= usize::MAX && exists|y: int|
                #[trigger] self@.contains(y) && lower_threshold(*bound) <= y),
            r is Some ==> r->0 == count_below(self.spans(), lower_threshold(*bound)),
    {
        proof {
            use_type_invariant(self);
        }
        let ghost s = self.spans();
        let ghost t = lower_threshold(*bound);
        let (elem, excluded) = match bound {
            Bound::Included(x) => (x, false),
            Bound::Excluded(x) => (x, true),
            Bound::Unbounded => {
                return None;
            },
        };
        let ghost x = elem.ord();
        let n = self.ranges.len();
        let mut pos: usize = 0;
        let mut i: usize = 0;
        while i < n
            invariant
                i <= n,
                n == self.ranges@.len(),
                s == spans_of(self.ranges@),
                separated(s),
                x == elem.ord(),
                t == if excluded { x + 1 } else { x },
                t == lower_threshold(*bound),
                !(*bound is Unbounded),
                s == self.spans(),
                pos == total(s.take(i as int)),
                forall|j: int| 0 <= j < i ==> #[trigger] s[j].1 < x,
            decreases n - i,
        {
            proof {
                E::ord_laws();
                assert(s[i as int] == (self.ranges@[i as int].0.ord(), self.ranges@[i as int].1.ord()));
                lemma_count_below_take(s, i as int, t);
                lemma_count_prefix_le(s, i as int + 1, t);
                lemma_take_index(s, i as int);
                lemma_take_index(s, i as int + 1);
                lemma_count_all_below(s.take(i as int), t);
                assert forall|k: int| i + 1 <= k < s.len() implies s[i as int].1 + 1 < #[trigger] s[k].0 by {
                }
            }
            let (start, end) = self.ranges[i];
            if *elem < start {
                proof {
                    lemma_count_tail_zero(s, i as int, t);
                    assert(self@.contains(s[i as int].0));
                }
                return Some(pos);
            }
            if *elem <= end {
                proof {
                    lemma_count_tail_zero(s, i as int + 1, t);
                }
                if excluded && i + 1 == n && *elem >= end {
                    proof {
                        assert forall|y: int| #[trigger] self@.contains(y) implies y < t by {
                            let j = choose|j: int| #![trigger s[j]] 0 <= j < s.len() && s[j].0 <= y <= s[j].1;
                        }
                    }
                    return None;
                }
                proof {
                    if !excluded {
                        assert(self@.contains(x));
                    } else if x < s[i as int].1 {
                        assert(self@.contains(x + 1));
                    } else {
                        assert(self@.contains(s[i as int + 1].0));
                    }
                }
                let d = match E::steps_between(&start, elem) {
                    Some(d) => d,
                    None => {
                        return None;
                    },
                };
                let p = match pos.checked_add(d) {
                    Some(p) => p,
                    None => {
                        return None;
                    },
                };
                if excluded {
                    return p.checked_add(1);
                }
                return Some(p);
            }
            let d = match E::steps_between(&start, &end) {
                Some(d) => d,
                None => {
                    return None;
                },
            };
            pos = match pos.checked_add(d) {
                Some(p) => match p.checked_add(1) {
                    Some(q) => q,
                    None => {
                        return None;
                    },
                },
                None => {
                    return None;
                },
            };
            i += 1;
        }
        proof {
            assert forall|y: int| #[trigger] self@.contains(y) implies y < t by {
                let j = choose|j: int| #![trigger s[j]] 0 <= j < s.len() && s[j].0 <= y <= s[j].1;
            }
        }
        None
    }
}

/// The position that `last_position_bound` reports for a bound that is not
/// `Unbounded`: the number of values below the bound's value, less one when
/// the bound excludes its value and that value lies in the list.
pub open spec fn last_position_of<E: Ordinal>(s: Seq<(int, int)>, b: Bound<E>) -> int {
    match b {
        Bound::Included(x) => count_below(s, x.ord()),
        Bound::Excluded(x) => count_below(s, x.ord()) - (if covered(s, x.ord()) {
            1int
        } else {
            0int
        }),
        Bound::Unbounded => 0,
    }
}

impl<E: Ordinal> RangeList<E> {
    /// The position reached from an upper bound: with `Included(x)`, the
    /// number of values below `x`; with `Excluded(x)`, the same, less one when
    /// `x` itself is a value. `None` when no value lies below the bound's
    /// limit, when the bound is `Unbounded`, or when the number of values
    /// below the bound's value exceeds `usize::MAX`.
    pub fn last_position_bound(&self, bound: &Bound<E>) -> (r: Option<usize>) where E: Step
        ensures
            r is Some <==> (!(*bound is Unbounded) && count_below(
                self.spans(),
                bound_value(*bound),
            ) <= usize::MAX && exists|y: int|
                #[trigger] self@.contains(y) && y < upper_threshold(*bound)),
            r is Some ==> r->0 == last_position_of(self.spans(), *bound),
    {
        proof {
            use_type_invariant(self);
        }
        proof {
            E::ord_laws();
        }
        let ghost s = self.spans();
        let ghost u = upper_threshold(*bound);
        let lb = match self.min() {
            Some(v) => *v,
            None => {
                return None;
            },
        };
        let (elem, excluded) = match bound {
            Bound::Included(x) => {
                if *x < lb {
                    return None;
                }
                (x, false)
            },
            Bound::Excluded(x) => {
                if *x <= lb {
                    return None;
                }
                (x, true)
            },
            Bound::Unbounded => {
                return None;
            },
        };
        let ghost x = elem.ord();
        let n = self.ranges.len();
        let mut pos: usize = 0;
        let mut i: usize = 0;
        proof {
            assert(s[0].0 <= s[0].1);
            assert(self@.contains(s[0].0));
        }
        while i < n
            invariant
                0 < n,
                i <= n,
                n == self.ranges@.len(),
                s == spans_of(self.ranges@),
                s == self.spans(),
                separated(s),
                x == elem.ord(),
                u == upper_threshold(*bound),
                u == if excluded { x } else { x + 1 },
                !(*bound is Unbounded),
                excluded <==> *bound is Excluded,
                x == bound_value(*bound),
                s[0].0 <= x,
                excluded ==> s[0].0 < x,
                pos == total(s.take(i as int)),
                forall|j: int| 0 <= j < i ==> #[trigger] s[j].1 < x,
            decreases n - i,
        {
            proof {
                E::ord_laws();
                assert(s[i as int] == (self.ranges@[i as int].0.ord(), self.ranges@[i as int].1.ord()));
                lemma_count_below_take(s, i as int, x);
                lemma_count_prefix_le(s, i as int + 1, x);
                lemma_take_index(s, i as int);
                lemma_take_index(s, i as int + 1);
                lemma_count_all_below(s.take(i as int), x);
                assert forall|k: int| i + 1 <= k < s.len() implies s[i as int].1 + 1 < #[trigger] s[k].0 by {
                }
            }
            let (start, end) = self.ranges[i];
            if *elem < start {
                proof {
                    lemma_count_tail_zero(s, i as int, x);
                    assert(i > 0);
                    assert(self@.contains(s[i - 1].1));
                    assert(!covered(s, x)) by {
                        if covered(s, x) {
                            let j = choose|j: int| #![trigger s[j]] 0 <= j < s.len() && s[j].0 <= x <= s[j].1;
                            if j > i {
                                assert(s[i as int].1 < s[j].0);
                            }
                        }
                    }
                }
                return Some(pos);
            }
            if *elem <= end {
                proof {
                    lemma_count_tail_zero(s, i as int + 1, x);
                    assert(covered(s, x));
                    assert(self@.contains(s[0].0));
                }
                let d = match E::steps_between(&start, elem) {
                    Some(d) => d,
                    None => {
                        return None;
                    },
                };
                let p = match pos.checked_add(d) {
                    Some(p) => p,
                    None => {
                        return None;
                    },
                };
                if excluded {
                    proof {
                        if i == 0 {
                            assert(d > 0);
                        } else {
                            lemma_count_nonneg(s.take(i as int), x);
                            assert(s.take(i as int).drop_last() =~= s.take(i - 1));
                            lemma_take_index(s, i - 1);
                            assert(s[i - 1].0 <= s[i - 1].1);
                            lemma_count_nonneg(s.take(i - 1), x);
                        }
                    }
                    return Some(p - 1);
                }
                return Some(p);
            }
            let d = match E::steps_between(&start, &end) {
                Some(d) => d,
                None => {
                    return None;
                },
            };
            pos = match pos.checked_add(d) {
                Some(p) => match p.checked_add(1) {
                    Some(q) => q,
                    None => {
                        return None;
                    },
                },
                None => {
                    return None;
                },
            };
            i += 1;
        }
        proof {
            lemma_take_all(s);
            lemma_count_all_below(s, x);
            assert(self@.contains(s[n - 1].1));
            assert(!covered(s, x)) by {
                if covered(s, x) {
                    let j = choose|j: int| #![trigger s[j]] 0 <= j < s.len() && s[j].0 <= x <= s[j].1;
                }
            }
        }
        Some(pos)
    }
}

impl<E: Ordinal> RangeList<E> {
    /// The number of values in a range list is the sum of the lengths of its
    /// ranges, the value that `card` computes.
    pub proof fn lemma_card_counts_values(&self)
        requires
            self.wf(),
        ensures
            self@.finite(),
            self@.len() == total(self.spans()),
    {
        crate::spans::lemma_cover_set_len(self.spans());
    }

    /// The number of values below `x` is the value that `position` and the
    /// bound positions compute.
    pub proof fn lemma_count_below_counts_values(&self, x: int)
        requires
            self.wf(),
        ensures
            self@.filter(|y: int| y < x).finite(),
            self@.filter(|y: int| y < x).len() == count_below(self.spans(), x),
    {
        crate::spans::lemma_below_set_len(self.spans(), x);
        assert(self@.filter(|y: int| y < x) =~= crate::spans::below_set(self.spans(), x));
    }

    /// Positions grow with the values: of two values the smaller has the
    /// smaller position, and every position lies below the number of values.
    pub proof fn lemma_positions_increase(&self, a: int, b: int)
        requires
            self.wf(),
            self@.contains(a),
            self@.contains(b),
            a < b,
        ensures
            0 <= count_below(self.spans(), a) < count_below(self.spans(), b) < total(self.spans()),
    {
        self.lemma_count_below_counts_values(a);
        self.lemma_count_below_counts_values(b);
        self.lemma_card_counts_values();
        let below_a = self@.filter(|y: int| y < a);
        let below_b = self@.filter(|y: int| y < b);
        assert(below_a.subset_of(below_b.remove(a)));
        vstd::set_lib::lemma_len_subset(below_a, below_b.remove(a));
        assert(below_b.subset_of(self@.remove(b)));
        vstd::set_lib::lemma_len_subset(below_b, self@.remove(b));
    }

    /// Every position below the number of values is the position of a value,
    /// so the positions of the values are exactly `0` up to that number.
    pub proof fn lemma_positions_onto(&self, p: int)
        requires
            self.wf(),
            0 <= p < total(self.spans()),
        ensures
            exists|v: int| #[trigger] self@.contains(v) && count_below(self.spans(), v) == p,
    {
        crate::spans::lemma_count_below_hits(self.spans(), p);
        let v = choose|v: int| covered(self.spans(), v) && count_below(self.spans(), v) == p;
        assert(self@.contains(v));
    }

    /// The set operations do not depend on the order of their operands: a
    /// union or intersection of `a` and `b` stores the same ranges as the one
    /// of `b` and `a`, and `a` is disjoint from `b` exactly when `b` is
    /// disjoint from `a`.
    pub proof fn lemma_set_ops_commute(x: &Self, y: &Self, a: Set<int>, b: Set<int>)
        requires
            x.wf(),
            y.wf(),
            (x@ == a.union(b) && y@ == b.union(a)) || (x@ == a.intersect(b) && y@ == b.intersect(
                a,
            )),
        ensures
            x.spans() == y.spans(),
            a.disjoint(b) == b.disjoint(a),
    {
        assert(a.union(b) =~= b.union(a));
        assert(a.intersect(b) =~= b.intersect(a));
        crate::spans::lemma_separated_unique(x.spans(), y.spans());
    }

    /// Two range lists holding the same values store the same ranges.
    pub proof fn lemma_same_values_same_ranges(a: &Self, b: &Self)
        requires
            a.wf(),
            b.wf(),
            a@ == b@,
        ensures
            a.spans() == b.spans(),
    {
        crate::spans::lemma_separated_unique(a.spans(), b.spans());
    }
}

impl<E: Ordinal> Default for RangeList<E> {
    /// The empty range list.
    fn default() -> (r: Self)
        ensures
            r.wf(),
            r@ == Set::<int>::empty(),
    {
        Self::empty()
    }
}

} // verus!
