//! `IntervalIterator`: operations on any set type that can list its values as
//! sorted, disjoint inclusive ranges.

use std::collections::{BTreeSet, HashSet};
use vstd::prelude::*;
use vstd::std_specs::btree::{key_obeys_cmp_spec, spec_btree_keys_iter};
use vstd::std_specs::hash::{obeys_key_model, spec_hash_keys_iter};
use vstd::std_specs::iter::IteratorSpec;
use crate::num_traits::{Adjacent, Ordinal, Step};
use crate::range_list::{lemma_spans_push, sort_by_start, spans_of, RangeList};
use crate::set_ops::{DiffIter, IntersectIter, SortedRanges, UnionIter};
use crate::spans::{
    cover_set, covered, covered_in, lemma_count_below_take, lemma_count_prefix_le,
    lemma_covered_empty, lemma_covered_first, lemma_covered_last, lemma_covered_push,
    lemma_singleton_spans_of, lemma_sorted_bounds, lemma_take_all, separated, singleton_spans,
    singletons, sorted_disjoint, starts_sorted, total,
};

verus! {

/// How one range compares with another: strictly below it, overlapping it,
/// or strictly above it.
#[derive(Clone, Copy, Debug, PartialEq, Eq, Structural)]
pub(crate) enum RangeOrder {
    /// The left range ends before the right range starts.
    Less,
    /// The ranges share at least one value.
    Overlap,
    /// The left range starts after the right range ends.
    Greater,
}

/// Compares two ranges given as pairs of inclusive bounds.
pub(crate) fn overlap<E: Ordinal>(r1: &(E, E), r2: &(E, E)) -> (o: RangeOrder)
    ensures
        o == RangeOrder::Less <==> r1.1.ord() < r2.0.ord(),
        o == RangeOrder::Greater <==> (r2.1.ord() < r1.0.ord() && r2.0.ord() <= r1.1.ord()),
        o == RangeOrder::Overlap <==> (r2.0.ord() <= r1.1.ord() && r1.0.ord() <= r2.1.ord()),
{
    proof {
        E::ord_laws();
    }
    if r1.1 < r2.0 {
        RangeOrder::Less
    } else if r2.1 < r1.0 {
        RangeOrder::Greater
    } else {
        RangeOrder::Overlap
    }
}

/// The larger of two values; the second one when they are equal.
pub(crate) fn max<E: Ordinal>(a: E, b: E) -> (r: E)
    ensures
        r == (if a.ord() > b.ord() { a } else { b }),
{
    proof {
        E::ord_laws();
    }
    if a > b {
        a
    } else {
        b
    }
}

/// The smaller of two values; the second one when they are equal.
pub(crate) fn min<E: Ordinal>(a: E, b: E) -> (r: E)
    ensures
        r == (if a.ord() < b.ord() { a } else { b }),
{
    proof {
        E::ord_laws();
    }
    if a < b {
        a
    } else {
        b
    }
}

/// The values as one-value ranges in increasing order, each value once.
pub(crate) fn singleton_pairs<E: Ordinal>(vals: &Vec<E>) -> (r: Vec<(E, E)>)
    ensures
        sorted_disjoint(spans_of(r@)),
        singletons(spans_of(r@)),
        forall|x: int|
            #[trigger] covered(spans_of(r@), x) <==> exists|k: int|
                0 <= k < vals@.len() && #[trigger] vals@[k].ord() == x,
{
    let n = vals.len();
    let mut pairs: Vec<(E, E)> = Vec::new();
    let mut i: usize = 0;
    while i < n
        invariant
            i <= n,
            n == vals@.len(),
            pairs@.len() == i,
            forall|k: int| #![trigger pairs@[k]] 0 <= k < i ==> pairs@[k] == (vals@[k], vals@[k]),
        decreases n - i,
    {
        pairs.push((vals[i], vals[i]));
        i += 1;
    }
    let ghost sp = spans_of(pairs@);
    proof {
        assert forall|k: int| #![trigger sp[k]] 0 <= k < sp.len() implies sp[k].0 == sp[k].1 by {
            assert(pairs@[k] == (vals@[k], vals@[k]));
        }
        assert forall|x: int| #[trigger] covered(sp, x) <==> exists|k: int|
            0 <= k < vals@.len() && #[trigger] vals@[k].ord() == x by {
            if covered(sp, x) {
                let k = choose|k: int| #![trigger sp[k]] 0 <= k < sp.len() && sp[k].0 <= x <= sp[k].1;
                assert(pairs@[k] == (vals@[k], vals@[k]));
                assert(vals@[k].ord() == x);
            }
            if exists|k: int| 0 <= k < vals@.len() && #[trigger] vals@[k].ord() == x {
                let k = choose|k: int| 0 <= k < vals@.len() && #[trigger] vals@[k].ord() == x;
                assert(pairs@[k] == (vals@[k], vals@[k]));
                assert(sp[k].0 <= x <= sp[k].1);
            }
        }
        assert forall|k: int| #![trigger pairs@[k]] 0 <= k < pairs@.len() implies pairs@[k].0.ord()
            <= pairs@[k].1.ord() by {
        }
    }
    let sorted = sort_by_start(pairs);
    let ghost ss = spans_of(sorted@);
    let m = sorted.len();
    let mut out: Vec<(E, E)> = Vec::new();
    let mut j: usize = 0;
    while j < m
        invariant
            j <= m,
            m == sorted@.len(),
            ss == spans_of(sorted@),
            starts_sorted(ss),
            singletons(ss),
            sorted_disjoint(spans_of(out@)),
            singletons(spans_of(out@)),
            forall|x: int| #[trigger] covered(spans_of(out@), x) <==> covered_in(ss, 0, j as int, x),
            out@.len() > 0 ==> j > 0 && spans_of(out@)[out@.len() - 1] == ss[j - 1],
        decreases m - j,
    {
        proof {
            E::ord_laws();
            assert(ss[j as int] == (sorted@[j as int].0.ord(), sorted@[j as int].1.ord()));
            lemma_covered_last(ss, 0, j as int);
        }
        let p = sorted[j];
        let k = out.len();
        if k == 0 || out[k - 1].0 < p.0 {
            proof {
                lemma_spans_push(out@, p);
                lemma_covered_push(spans_of(out@), (p.0.ord(), p.1.ord()));
                if k > 0 {
                    assert(spans_of(out@)[k - 1] == (out@[k - 1].0.ord(), out@[k - 1].1.ord()));
                }
            }
            out.push(p);
        } else {
            proof {
                assert(spans_of(out@)[k - 1] == (out@[k - 1].0.ord(), out@[k - 1].1.ord()));
                assert(ss[j - 1].0 <= ss[j as int].0);
                assert forall|x: int| #[trigger] covered(spans_of(out@), x) <==> covered_in(
                    ss,
                    0,
                    j + 1,
                    x,
                ) by {
                    if ss[j as int].0 <= x <= ss[j as int].1 {
                        assert(covered_in(ss, 0, j as int, x)) by {
                            assert(ss[j - 1].0 <= x <= ss[j - 1].1);
                        }
                    }
                }
            }
        }
        j += 1;
    }
    proof {
        lemma_covered_empty(ss, 0, 0);
        assert forall|x: int| #[trigger] covered(spans_of(out@), x) <==> covered(sp, x) by {
            assert(covered(ss, x) == covered_in(ss, 0, m as int, x));
        }
    }
    out
}

/// `x` is covered by both `a` and `b`.
pub open spec fn in_both(a: Seq<(int, int)>, b: Seq<(int, int)>, x: int) -> bool {
    covered(a, x) && covered(b, x)
}

/// A set type that lists its values as sorted, disjoint inclusive ranges.
pub trait Intervals<E: Ordinal>: Sized {
    /// The condition under which the value lists its ranges correctly.
    spec fn interval_inv(&self) -> bool;

    /// The positions of the bounds of the listed ranges, in order.
    spec fn interval_spans(&self) -> Seq<(int, int)>;

    /// The ranges, in order, as pairs of inclusive bounds: sorted and
    /// disjoint.
    fn intervals(&self) -> (r: Vec<(E, E)>)
        requires
            self.interval_inv(),
        ensures
            spans_of(r@) == self.interval_spans(),
            sorted_disjoint(spans_of(r@)),
    ;
}

/// The operations on any set type that lists its values as ranges: every
/// `Intervals` type has them.
pub trait IntervalIterator<E: Ordinal>: Intervals<E> {

    /// The number of values in the set, or `None` when it exceeds `usize::MAX`.
    fn card(&self) -> (r: Option<usize>) where E: Step
        requires
            self.interval_inv(),
        ensures
            r is Some <==> total(self.interval_spans()) <= usize::MAX,
            r is Some ==> r->0 == total(self.interval_spans()),
    {
        let v = self.intervals();
        let ghost s = spans_of(v@);
        let n = v.len();
        let mut card: usize = 0;
        let mut i: usize = 0;
        while i < n
            invariant
                i <= n,
                n == v@.len(),
                s == spans_of(v@),
                s == self.interval_spans(),
                sorted_disjoint(s),
                card == total(s.take(i as int)),
            decreases n - i,
        {
            proof {
                lemma_count_below_take(s, i as int, 0);
                lemma_count_prefix_le(s, i as int + 1, 0);
                lemma_count_prefix_le(s, i as int, 0);
                assert(s[i as int] == (v@[i as int].0.ord(), v@[i as int].1.ord()));
            }
            let c = match E::steps_between(&v[i].0, &v[i].1) {
                Some(c) => c,
                None => {
                    return None;
                },
            };
            card = match card.checked_add(c) {
                Some(t) => t,
                None => {
                    return None;
                },
            };
            card = match card.checked_add(1) {
                Some(t) => t,
                None => {
                    return None;
                },
            };
            i += 1;
        }
        proof {
            lemma_take_all(s);
        }
        Some(card)
    }

    /// Whether `elem` is in the set.
    fn contains(&self, elem: &E) -> (b: bool)
        requires
            self.interval_inv(),
        ensures
            b == cover_set(self.interval_spans()).contains(elem.ord()),
    {
        let v = self.intervals();
        let ghost s = spans_of(v@);
        let n = v.len();
        let mut i: usize = 0;
        while i < n
            invariant
                i <= n,
                n == v@.len(),
                s == spans_of(v@),
                s == self.interval_spans(),
                !covered_in(s, 0, i as int, elem.ord()),
            decreases n - i,
        {
            proof {
                E::ord_laws();
                crate::spans::lemma_covered_last(s, 0, i as int);
                assert(s[i as int] == (v@[i as int].0.ord(), v@[i as int].1.ord()));
            }
            if v[i].0 <= *elem && *elem <= v[i].1 {
                return true;
            }
            i += 1;
        }
        false
    }

    /// The set of values in the set but not in `other`.
    fn diff<O: Intervals<E>>(&self, other: &O) -> (r: RangeList<E>) where E: Adjacent
        requires
            self.interval_inv(),
            other.interval_inv(),
        ensures
            r.wf(),
            r@ == cover_set(self.interval_spans()).difference(cover_set(other.interval_spans())),
    {
        let it = DiffIter::new(self, other);
        let r = it.collect_list();
        assert(r@ =~= cover_set(self.interval_spans()).difference(cover_set(other.interval_spans())));
        r
    }

    /// The set of values in both the set and `other`.
    fn intersect<O: Intervals<E>>(&self, other: &O) -> (r: RangeList<E>) where E: Adjacent
        requires
            self.interval_inv(),
            other.interval_inv(),
        ensures
            r.wf(),
            r@ == cover_set(self.interval_spans()).intersect(cover_set(other.interval_spans())),
    {
        let it = IntersectIter::new(self, other);
        let r = it.collect_list();
        assert(r@ =~= cover_set(self.interval_spans()).intersect(cover_set(other.interval_spans())));
        r
    }

    /// The set of values in the set or in `other`.
    fn union<O: Intervals<E>>(&self, other: &O) -> (r: RangeList<E>) where E: Adjacent
        requires
            self.interval_inv(),
            other.interval_inv(),
        ensures
            r.wf(),
            r@ == cover_set(self.interval_spans()).union(cover_set(other.interval_spans())),
    {
        let it = UnionIter::new(self, other);
        let r = it.collect_list();
        assert(r@ =~= cover_set(self.interval_spans()).union(cover_set(other.interval_spans())));
        r
    }

    /// Whether every value of the set is in `other`. Ranges of `other` that
    /// touch are read as one range, so the answer does not depend on how
    /// `other` splits its values into ranges.
    fn subset<O: Intervals<E>>(&self, other: &O) -> (b: bool) where E: Adjacent
        requires
            self.interval_inv(),
            other.interval_inv(),
        ensures
            b == cover_set(self.interval_spans()).subset_of(cover_set(other.interval_spans())),
    {
        let lv = self.intervals();
        let rv = merged_intervals(other);
        spans_subset(&lv, &rv)
    }

    /// Whether every value of `other` is in the set. Ranges of the set that
    /// touch are read as one range.
    fn superset<O: Intervals<E>>(&self, other: &O) -> (b: bool) where E: Adjacent
        requires
            self.interval_inv(),
            other.interval_inv(),
        ensures
            b == cover_set(other.interval_spans()).subset_of(cover_set(self.interval_spans())),
    {
        let lv = other.intervals();
        let rv = merged_intervals(self);
        spans_subset(&lv, &rv)
    }

    /// Whether the set shares no value with `other`.
    fn disjoint<O: Intervals<E>>(&self, other: &O) -> (b: bool)
        requires
            self.interval_inv(),
            other.interval_inv(),
        ensures
            b == cover_set(self.interval_spans()).disjoint(cover_set(other.interval_spans())),
    {
        let lv = self.intervals();
        let rv = other.intervals();
        spans_disjoint(&lv, &rv)
    }
}

impl<E: Ordinal, T: Intervals<E>> IntervalIterator<E> for T {

}

/// The ranges of a set type with touching ranges joined: separated ranges
/// covering the same positions.
fn merged_intervals<E: Adjacent, S: Intervals<E>>(set: &S) -> (r: Vec<(E, E)>)
    requires
        set.interval_inv(),
    ensures
        separated(spans_of(r@)),
        cover_set(spans_of(r@)) == cover_set(set.interval_spans()),
{
    let ov = set.intervals();
    proof {
        let s = spans_of(ov@);
        assert forall|i: int, j: int| #![trigger s[i], s[j]] 0 <= i < j < s.len() implies s[i].0
            <= s[j].0 by {
            assert(s[i].0 <= s[i].1);
        }
    }
    let merged = RangeList::merge_sorted(&ov);
    proof {
        use_type_invariant(&merged);
    }
    merged.intervals()
}

/// Whether the set shares no value with `other`.
fn spans_disjoint<E: Ordinal>(lv: &Vec<(E, E)>, rv: &Vec<(E, E)>) -> (b: bool)
        requires
            sorted_disjoint(spans_of(lv@)),
            sorted_disjoint(spans_of(rv@)),
        ensures
            b == cover_set(spans_of(lv@)).disjoint(cover_set(spans_of(rv@))),
    {
        proof {
            assert forall|x: int| #[trigger] in_both(spans_of(lv@), spans_of(rv@), x) implies covered_in(
                spans_of(lv@),
                0,
                lv@.len() as int,
                x,
            ) && covered_in(spans_of(rv@), 0, rv@.len() as int, x) by {
            }
        }
        let ghost ls = spans_of(lv@);
        let ghost rs = spans_of(rv@);
        let n = lv.len();
        let m = rv.len();
        let mut li: usize = 0;
        let mut ri: usize = 0;
        while li < n && ri < m
            invariant
                li <= n,
                ri <= m,
                n == lv@.len(),
                m == rv@.len(),
                ls == spans_of(lv@),
                rs == spans_of(rv@),
                sorted_disjoint(ls),
                sorted_disjoint(rs),
                forall|x: int|
                    #[trigger] in_both(ls, rs, x) ==> covered_in(ls, li as int, n as int, x)
                        && covered_in(rs, ri as int, m as int, x),
            decreases (n - li) + (m - ri),
        {
            proof {
                E::ord_laws();
                assert(ls[li as int] == (lv@[li as int].0.ord(), lv@[li as int].1.ord()));
                assert(rs[ri as int] == (rv@[ri as int].0.ord(), rv@[ri as int].1.ord()));
                lemma_covered_first(ls, li as int, n as int);
                lemma_covered_first(rs, ri as int, m as int);
                lemma_sorted_bounds(ls, li as int, n as int);
                lemma_sorted_bounds(rs, ri as int, m as int);
            }
            let o = overlap(&lv[li], &rv[ri]);
            if o == RangeOrder::Less {
                li += 1;
            } else if o == RangeOrder::Greater {
                ri += 1;
            } else {
                proof {
                    let x = if ls[li as int].0 < rs[ri as int].0 {
                        rs[ri as int].0
                    } else {
                        ls[li as int].0
                    };
                    assert(covered_in(ls, li as int, n as int, x));
                    assert(covered_in(rs, ri as int, m as int, x));
                    crate::spans::lemma_covered_sub(ls, li as int, n as int);
                    crate::spans::lemma_covered_sub(rs, ri as int, m as int);
                    assert(cover_set(ls).contains(x) && cover_set(rs).contains(x));
                }
                return false;
            }
        }
        proof {
            lemma_covered_empty(ls, n as int, n as int);
            lemma_covered_empty(rs, m as int, m as int);
            assert forall|x: int| !(cover_set(ls).contains(x) && cover_set(rs).contains(x)) by {
                if in_both(ls, rs, x) {
                }
            }
        }
        true
    }

/// Whether every position covered by `lv` is covered by `rv`; the answer
/// `false` is exact when the spans of `rv` are separated by gaps.
fn spans_subset<E: Ordinal>(lv: &Vec<(E, E)>, rv: &Vec<(E, E)>) -> (b: bool)
    requires
        sorted_disjoint(spans_of(lv@)),
        sorted_disjoint(spans_of(rv@)),
    ensures
        b ==> cover_set(spans_of(lv@)).subset_of(cover_set(spans_of(rv@))),
        separated(spans_of(rv@)) && cover_set(spans_of(lv@)).subset_of(cover_set(spans_of(rv@)))
            ==> b,
{
    let ghost ls = spans_of(lv@);
    let ghost rs = spans_of(rv@);
    let n = lv.len();
    let m = rv.len();
    let mut li: usize = 0;
    let mut ri: usize = 0;
    proof {
        lemma_covered_empty(ls, 0, 0);
    }
    while li < n && ri < m
        invariant
            li <= n,
            ri <= m,
            n == lv@.len(),
            m == rv@.len(),
            ls == spans_of(lv@),
            rs == spans_of(rv@),
            sorted_disjoint(ls),
            sorted_disjoint(rs),
            forall|x: int| #[trigger] covered_in(ls, 0, li as int, x) ==> covered(rs, x),
            li < n ==> forall|j: int| 0 <= j < ri ==> #[trigger] rs[j].1 < ls[li as int].0,
        decreases (n - li) + (m - ri),
    {
        proof {
            E::ord_laws();
            assert(ls[li as int] == (lv@[li as int].0.ord(), lv@[li as int].1.ord()));
            assert(rs[ri as int] == (rv@[ri as int].0.ord(), rv@[ri as int].1.ord()));
            crate::spans::lemma_covered_last(ls, 0, li as int);
            crate::spans::lemma_covered_sub(rs, ri as int, ri as int + 1);
        }
        let l = lv[li];
        let r = rv[ri];
        let o = overlap(&l, &r);
        if o == RangeOrder::Overlap && r.0 <= l.0 && l.1 <= r.1 {
            proof {
                if li + 1 < n {
                    assert(ls[li as int].1 < ls[li + 1].0);
                }
            }
            li += 1;
        } else if o == RangeOrder::Greater {
            ri += 1;
        } else {
            proof {
                let x = if l.1.ord() < r.0.ord() || r.0.ord() > l.0.ord() {
                    l.0.ord()
                } else {
                    r.1.ord() + 1
                };
                assert(covered(ls, x)) by {
                    assert(0 <= li < n && ls[li as int].0 <= x <= ls[li as int].1);
                }
                if separated(rs) {
                    assert(!covered(rs, x)) by {
                        if covered(rs, x) {
                            let j = choose|j: int|
                                #![trigger rs[j]]
                                0 <= j < rs.len() && rs[j].0 <= x <= rs[j].1;
                            if j > ri {
                                assert(rs[ri as int].1 < rs[j].0);
                                assert(rs[ri as int].1 + 1 < rs[j].0);
                            }
                        }
                    }
                    assert(cover_set(ls).contains(x) && !cover_set(rs).contains(x));
                }
            }
            return false;
        }
    }
    if li < n {
        proof {
            let x = ls[li as int].0;
            assert(covered(ls, x)) by {
                assert(0 <= li < n && ls[li as int].0 <= x <= ls[li as int].1);
            }
            assert(!covered(rs, x)) by {
                if covered(rs, x) {
                    let j = choose|j: int| #![trigger rs[j]] 0 <= j < rs.len() && rs[j].0 <= x <= rs[j].1;
                }
            }
            assert(cover_set(ls).contains(x) && !cover_set(rs).contains(x));
        }
        false
    } else {
        proof {
            assert forall|x: int| cover_set(ls).contains(x) implies cover_set(rs).contains(x) by {
                assert(covered_in(ls, 0, li as int, x));
            }
        }
        true
    }
}

impl<E: Ordinal> Intervals<E> for RangeList<E> {
    open spec fn interval_inv(&self) -> bool {
        self.wf()
    }

    open spec fn interval_spans(&self) -> Seq<(int, int)> {
        self.spans()
    }

    fn intervals(&self) -> (r: Vec<(E, E)>) {
        proof {
            use_type_invariant(self);
        }
        let r = self.pairs();
        assert(self.interval_spans() == self.spans());
        r
    }
}

/// The positions of the values of `s`.
pub open spec fn ords<E: Ordinal>(s: Set<E>) -> Set<int> {
    s.map(|e: E| e.ord())
}

/// The values a list of values holds, as one-value ranges in increasing
/// order: the ranges that `intervals` lists for a set of `values`.
fn set_pairs<E: Ordinal>(vals: &Vec<E>, Ghost(values): Ghost<Set<E>>) -> (r: Vec<(E, E)>)
    requires
        vals@.to_set() == values,
    ensures
        spans_of(r@) == singleton_spans(ords(values)),
        sorted_disjoint(spans_of(r@)),
        cover_set(spans_of(r@)) == ords(values),
{
    let r = singleton_pairs(vals);
    proof {
        assert forall|x: int| cover_set(spans_of(r@)).contains(x) <==> ords(values).contains(x) by {
            if covered(spans_of(r@), x) {
                let k = choose|k: int| 0 <= k < vals@.len() && #[trigger] vals@[k].ord() == x;
                assert(vals@.to_set().contains(vals@[k]));
            }
            if ords(values).contains(x) {
                let e = choose|e: E| values.contains(e) && x == e.ord();
                assert(vals@.contains(e));
                let k = choose|k: int| 0 <= k < vals@.len() && vals@[k] == e;
                assert(vals@[k].ord() == x);
            }
        }
        assert(cover_set(spans_of(r@)) =~= ords(values));
        lemma_singleton_spans_of(spans_of(r@));
    }
    r
}

impl<E: Ordinal> Intervals<E> for BTreeSet<E> {
    open spec fn interval_inv(&self) -> bool {
        key_obeys_cmp_spec::<E>()
    }

    open spec fn interval_spans(&self) -> Seq<(int, int)> {
        singleton_spans(ords(self@))
    }

    fn intervals(&self) -> (r: Vec<(E, E)>)
        ensures
            cover_set(spans_of(r@)) == ords(self@),
    {
        broadcast use vstd::std_specs::btree::group_btree_axioms;

        let ghost keys = spec_btree_keys_iter(self).remaining();
        let mut vals: Vec<E> = Vec::new();
        for x in it: self.iter()
            invariant
                it.seq() == keys,
                vals@.len() == it.index(),
                forall|k: int| 0 <= k < it.index() ==> #[trigger] vals@[k] == *keys[k],
        {
            vals.push(*x);
        }
        proof {
            assert(vals@ =~= keys.unref());
        }
        set_pairs(&vals, Ghost(self@))
    }
}

impl<E: Ordinal> Intervals<E> for HashSet<E> {
    open spec fn interval_inv(&self) -> bool {
        obeys_key_model::<E>()
    }

    open spec fn interval_spans(&self) -> Seq<(int, int)> {
        singleton_spans(ords(self@))
    }

    fn intervals(&self) -> (r: Vec<(E, E)>)
        ensures
            cover_set(spans_of(r@)) == ords(self@),
    {
        broadcast use vstd::std_specs::hash::group_hash_axioms;

        let ghost keys = spec_hash_keys_iter(self).remaining();
        let mut vals: Vec<E> = Vec::new();
        for x in it: self.iter()
            invariant
                it.seq() == keys,
                vals@.len() == it.index(),
                forall|k: int| 0 <= k < it.index() ==> #[trigger] vals@[k] == *keys[k],
        {
            vals.push(*x);
        }
        proof {
            assert(vals@ =~= keys.unref());
        }
        set_pairs(&vals, Ghost(self@))
    }
}

} // verus!
