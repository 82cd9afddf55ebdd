//! Lazy set operations on two sorted, disjoint lists of ranges: each step
//! yields the next range of the union, intersection or difference, in order.

use std::ops::RangeInclusive;
use vstd::prelude::*;
use crate::interval_iter::{max, min, overlap, Intervals, RangeOrder};
use crate::num_traits::{Adjacent, Ordinal};
use crate::range_list::{range_set, range_starts_sorted, spans_of, RangeList};
use crate::spans::{
    cover_set, covered, covered_in, lemma_cover_cons, lemma_cover_front, lemma_covered_empty,
    lemma_covered_first, lemma_sorted_bounds, sorted_disjoint,
};

verus! {

/// The ranges that an intersection of the span lists `l` and `r` yields, in
/// order: walking both lists from the front, each overlap of the two current
/// spans is yielded, and the span that ends first is dropped.
pub open spec fn intersect_yields(l: Seq<(int, int)>, r: Seq<(int, int)>) -> Seq<(int, int)>
    decreases l.len() + r.len(),
{
    if l.len() == 0 || r.len() == 0 {
        Seq::empty()
    } else if l[0].1 < r[0].0 {
        intersect_yields(l.drop_first(), r)
    } else if r[0].1 < l[0].0 {
        intersect_yields(l, r.drop_first())
    } else {
        let lo = if l[0].0 > r[0].0 { l[0].0 } else { r[0].0 };
        let hi = if l[0].1 < r[0].1 { l[0].1 } else { r[0].1 };
        seq![(lo, hi)] + if l[0].1 <= r[0].1 {
            intersect_yields(l.drop_first(), r)
        } else {
            intersect_yields(l, r.drop_first())
        }
    }
}

/// The intersection of two sorted, disjoint lists of non-empty spans yields
/// non-empty, sorted, disjoint ranges covering exactly the positions that
/// both lists cover.
pub proof fn lemma_intersect_yields_exact(l: Seq<(int, int)>, r: Seq<(int, int)>)
    requires
        sorted_disjoint(l),
        sorted_disjoint(r),
    ensures
        sorted_disjoint(intersect_yields(l, r)),
        forall|x: int|
            #[trigger] covered(intersect_yields(l, r), x) <==> (covered(l, x) && covered(r, x)),
    decreases l.len() + r.len(),
{
    let ys = intersect_yields(l, r);
    if l.len() == 0 || r.len() == 0 {
        assert(ys.len() == 0);
        assert forall|x: int| !#[trigger] covered(ys, x) && !(covered(l, x) && covered(r, x)) by {
        }
    } else {
        lemma_cover_front(l);
        lemma_cover_front(r);
        if l[0].1 < r[0].0 {
            lemma_intersect_yields_exact(l.drop_first(), r);
            assert(ys == intersect_yields(l.drop_first(), r));
        } else if r[0].1 < l[0].0 {
            lemma_intersect_yields_exact(l, r.drop_first());
            assert(ys == intersect_yields(l, r.drop_first()));
        } else {
            let lo = if l[0].0 > r[0].0 { l[0].0 } else { r[0].0 };
            let hi = if l[0].1 < r[0].1 { l[0].1 } else { r[0].1 };
            let rest = if l[0].1 <= r[0].1 {
                intersect_yields(l.drop_first(), r)
            } else {
                intersect_yields(l, r.drop_first())
            };
            if l[0].1 <= r[0].1 {
                lemma_intersect_yields_exact(l.drop_first(), r);
            } else {
                lemma_intersect_yields_exact(l, r.drop_first());
            }
            assert(ys == seq![(lo, hi)] + rest);
            lemma_cover_cons((lo, hi), rest);
            assert forall|x: int| #[trigger] covered(rest, x) implies hi < x by {
            }
            assert forall|x: int| #[trigger] covered(ys, x) <==> (covered(l, x) && covered(r, x)) by {
                if covered(l, x) && covered(r, x) && !covered(l.drop_first(), x) && !covered(
                    r.drop_first(),
                    x,
                ) {
                    assert(lo <= x <= hi);
                }
            }
        }
    }
}

/// The difference of two sorted, disjoint lists of non-empty spans yields
/// non-empty, sorted, disjoint ranges covering exactly the positions that the
/// first list covers and the second does not.
pub proof fn lemma_diff_yields_exact(l: Seq<(int, int)>, r: Seq<(int, int)>)
    requires
        sorted_disjoint(l),
        sorted_disjoint(r),
    ensures
        sorted_disjoint(diff_yields(l, r)),
        forall|x: int| #[trigger] covered(diff_yields(l, r), x) <==> (covered(l, x) && !covered(r, x)),
    decreases l.len() + r.len(),
{
    let ys = diff_yields(l, r);
    if l.len() == 0 {
        assert(ys.len() == 0);
        assert forall|x: int| !#[trigger] covered(ys, x) && !covered(l, x) by {
        }
        return;
    }
    lemma_cover_front(l);
    if r.len() > 0 {
        lemma_cover_front(r);
    }
    let lo = l[0].0;
    let hi = l[0].1;
    if r.len() == 0 || hi < r[0].0 {
        let rest = diff_yields(l.drop_first(), r);
        lemma_diff_yields_exact(l.drop_first(), r);
        assert(ys == seq![l[0]] + rest);
        lemma_cover_cons(l[0], rest);
        assert forall|x: int| #[trigger] covered(ys, x) <==> (covered(l, x) && !covered(r, x)) by {
        }
        return;
    }
    let a = r[0].0;
    let b = r[0].1;
    if b < lo {
        lemma_diff_yields_exact(l, r.drop_first());
        assert(ys == diff_yields(l, r.drop_first()));
        assert forall|x: int| #[trigger] covered(ys, x) <==> (covered(l, x) && !covered(r, x)) by {
        }
        return;
    }
    if a <= lo && b >= hi {
        lemma_diff_yields_exact(l.drop_first(), r);
        assert(ys == diff_yields(l.drop_first(), r));
        assert forall|x: int| #[trigger] covered(ys, x) <==> (covered(l, x) && !covered(r, x)) by {
        }
        return;
    }
    let lu = l.update(0, (b + 1, hi));
    if b < hi {
        assert(lu.drop_first() =~= l.drop_first());
        assert(lu[0] == (b + 1, hi));
        assert(sorted_disjoint(lu)) by {
            assert forall|i: int, j: int| #![trigger lu[i], lu[j]] 0 <= i < j < lu.len() implies lu[i].1
                < lu[j].0 by {
                assert(lu[j] == l[j]);
                if i > 0 {
                    assert(lu[i] == l[i]);
                }
            }
            assert forall|i: int| #![trigger lu[i]] 0 <= i < lu.len() implies lu[i].0 <= lu[i].1 by {
                if i > 0 {
                    assert(lu[i] == l[i]);
                }
            }
        }
        lemma_cover_front(lu);
        lemma_diff_yields_exact(lu, r.drop_first());
    }
    if a <= lo {
        assert(ys == diff_yields(lu, r.drop_first()));
        assert forall|x: int| #[trigger] covered(ys, x) <==> (covered(l, x) && !covered(r, x)) by {
        }
    } else if b >= hi {
        let rest = diff_yields(l.drop_first(), r);
        lemma_diff_yields_exact(l.drop_first(), r);
        assert(ys == seq![(lo, a - 1)] + rest);
        lemma_cover_cons((lo, a - 1), rest);
        assert forall|x: int| #[trigger] covered(ys, x) <==> (covered(l, x) && !covered(r, x)) by {
        }
    } else {
        let rest = diff_yields(lu, r.drop_first());
        assert(ys == seq![(lo, a - 1)] + rest);
        lemma_cover_cons((lo, a - 1), rest);
        assert forall|x: int| #[trigger] covered(ys, x) <==> (covered(l, x) && !covered(r, x)) by {
        }
    }
}

/// Some span of `s` starts at `x`.
pub open spec fn starts_span(s: Seq<(int, int)>, x: int) -> bool {
    exists|i: int| #![trigger s[i]] 0 <= i < s.len() && s[i].0 == x
}

/// Some span of `s` ends at `x`.
pub open spec fn ends_span(s: Seq<(int, int)>, x: int) -> bool {
    exists|i: int| #![trigger s[i]] 0 <= i < s.len() && s[i].1 == x
}

/// The difference cuts only where it must: every range it yields lies inside
/// one span of the first list, starts where that span starts or just above a
/// position of the second list, and ends where that span ends or just below
/// a position of the second list. So a range is never split where nothing
/// was subtracted.
pub proof fn lemma_diff_yields_cut_at_bounds(l: Seq<(int, int)>, r: Seq<(int, int)>)
    requires
        sorted_disjoint(l),
        sorted_disjoint(r),
    ensures
        forall|k: int|
            0 <= k < diff_yields(l, r).len() ==> {
                let y = #[trigger] diff_yields(l, r)[k];
                &&& inside_some(l, y)
                &&& starts_span(l, y.0) || covered(r, y.0 - 1)
                &&& ends_span(l, y.1) || covered(r, y.1 + 1)
            },
    decreases l.len() + r.len(),
{
    let ys = diff_yields(l, r);
    if l.len() == 0 {
        return;
    }
    let lo = l[0].0;
    let hi = l[0].1;
    if r.len() > 0 {
        lemma_cover_front(r);
        lemma_sorted_drop_first(r);
    }
    lemma_sorted_drop_first(l);
    let ld = l.drop_first();
    let rd = r.drop_first();
    if r.len() == 0 || hi < r[0].0 {
        lemma_diff_yields_cut_at_bounds(ld, r);
        let rest = diff_yields(ld, r);
        assert(ys == seq![l[0]] + rest);
        assert forall|k: int| 0 <= k < ys.len() implies {
            let y = #[trigger] ys[k];
            &&& inside_some(l, y)
            &&& starts_span(l, y.0) || covered(r, y.0 - 1)
            &&& ends_span(l, y.1) || covered(r, y.1 + 1)
        } by {
            if k == 0 {
                assert(ys[0] == l[0]);
            } else {
                let y = rest[k - 1];
                assert(ys[k] == y);
                let i = choose|i: int| #![trigger ld[i]] 0 <= i < ld.len() && ld[i].0 <= y.0 && y.1 <= ld[i].1;
                assert(ld[i] == l[i + 1]);
                if starts_span(ld, y.0) {
                    let j = choose|j: int| #![trigger ld[j]] 0 <= j < ld.len() && ld[j].0 == y.0;
                    assert(ld[j] == l[j + 1]);
                }
                if ends_span(ld, y.1) {
                    let j = choose|j: int| #![trigger ld[j]] 0 <= j < ld.len() && ld[j].1 == y.1;
                    assert(ld[j] == l[j + 1]);
                }
            }
        }
        return;
    }
    let a = r[0].0;
    let b = r[0].1;
    if b < lo {
        lemma_diff_yields_cut_at_bounds(l, rd);
        assert(ys == diff_yields(l, rd));
        assert forall|k: int| 0 <= k < ys.len() implies {
            let y = #[trigger] ys[k];
            &&& inside_some(l, y)
            &&& starts_span(l, y.0) || covered(r, y.0 - 1)
            &&& ends_span(l, y.1) || covered(r, y.1 + 1)
        } by {
            let y = ys[k];
            assert(covered(rd, y.0 - 1) ==> covered(r, y.0 - 1));
            assert(covered(rd, y.1 + 1) ==> covered(r, y.1 + 1));
        }
        return;
    }
    if a <= lo && b >= hi {
        lemma_diff_yields_cut_at_bounds(ld, r);
        assert(ys == diff_yields(ld, r));
        assert forall|k: int| 0 <= k < ys.len() implies {
            let y = #[trigger] ys[k];
            &&& inside_some(l, y)
            &&& starts_span(l, y.0) || covered(r, y.0 - 1)
            &&& ends_span(l, y.1) || covered(r, y.1 + 1)
        } by {
            let y = ys[k];
            let i = choose|i: int| #![trigger ld[i]] 0 <= i < ld.len() && ld[i].0 <= y.0 && y.1 <= ld[i].1;
            assert(ld[i] == l[i + 1]);
            if starts_span(ld, y.0) {
                let j = choose|j: int| #![trigger ld[j]] 0 <= j < ld.len() && ld[j].0 == y.0;
                assert(ld[j] == l[j + 1]);
            }
            if ends_span(ld, y.1) {
                let j = choose|j: int| #![trigger ld[j]] 0 <= j < ld.len() && ld[j].1 == y.1;
                assert(ld[j] == l[j + 1]);
            }
        }
        return;
    }
    let lu = l.update(0, (b + 1, hi));
    if b < hi {
        assert(lu.drop_first() =~= ld);
        assert(lu[0] == (b + 1, hi));
        assert(sorted_disjoint(lu)) by {
            assert forall|i: int, j: int| #![trigger lu[i], lu[j]] 0 <= i < j < lu.len() implies lu[i].1
                < lu[j].0 by {
                assert(lu[j] == l[j]);
                if i > 0 {
                    assert(lu[i] == l[i]);
                }
            }
            assert forall|i: int| #![trigger lu[i]] 0 <= i < lu.len() implies lu[i].0 <= lu[i].1 by {
                if i > 0 {
                    assert(lu[i] == l[i]);
                }
            }
        }
        lemma_diff_yields_cut_at_bounds(lu, rd);
    }
    if !(b >= hi) {
        // The results built on the cut list `lu` and the rest of `r`.
        assert forall|k: int| 0 <= k < diff_yields(lu, rd).len() implies {
            let y = #[trigger] diff_yields(lu, rd)[k];
            &&& inside_some(l, y)
            &&& starts_span(l, y.0) || covered(r, y.0 - 1)
            &&& ends_span(l, y.1) || covered(r, y.1 + 1)
        } by {
            let y = diff_yields(lu, rd)[k];
            let i = choose|i: int| #![trigger lu[i]] 0 <= i < lu.len() && lu[i].0 <= y.0 && y.1 <= lu[i].1;
            if i == 0 {
                assert(l[0].0 <= y.0 && y.1 <= l[0].1);
            } else {
                assert(lu[i] == l[i]);
            }
            if starts_span(lu, y.0) {
                let j = choose|j: int| #![trigger lu[j]] 0 <= j < lu.len() && lu[j].0 == y.0;
                if j == 0 {
                    assert(covered(r, b)) by {
                        assert(r[0].0 <= b <= r[0].1);
                    }
                } else {
                    assert(lu[j] == l[j]);
                }
            }
            if ends_span(lu, y.1) {
                let j = choose|j: int| #![trigger lu[j]] 0 <= j < lu.len() && lu[j].1 == y.1;
                if j == 0 {
                    assert(l[0].1 == y.1);
                } else {
                    assert(lu[j] == l[j]);
                }
            }
            assert(covered(rd, y.0 - 1) ==> covered(r, y.0 - 1));
            assert(covered(rd, y.1 + 1) ==> covered(r, y.1 + 1));
        }
    }
    if a <= lo {
        assert(ys == diff_yields(lu, rd));
    } else if b >= hi {
        lemma_diff_yields_cut_at_bounds(ld, r);
        let rest = diff_yields(ld, r);
        assert(ys == seq![(lo, a - 1)] + rest);
        assert forall|k: int| 0 <= k < ys.len() implies {
            let y = #[trigger] ys[k];
            &&& inside_some(l, y)
            &&& starts_span(l, y.0) || covered(r, y.0 - 1)
            &&& ends_span(l, y.1) || covered(r, y.1 + 1)
        } by {
            if k == 0 {
                assert(ys[0] == (lo, a - 1));
                assert(covered(r, a)) by {
                    assert(r[0].0 <= a <= r[0].1);
                }
            } else {
                let y = rest[k - 1];
                assert(ys[k] == y);
                let i = choose|i: int| #![trigger ld[i]] 0 <= i < ld.len() && ld[i].0 <= y.0 && y.1 <= ld[i].1;
                assert(ld[i] == l[i + 1]);
                if starts_span(ld, y.0) {
                    let j = choose|j: int| #![trigger ld[j]] 0 <= j < ld.len() && ld[j].0 == y.0;
                    assert(ld[j] == l[j + 1]);
                }
                if ends_span(ld, y.1) {
                    let j = choose|j: int| #![trigger ld[j]] 0 <= j < ld.len() && ld[j].1 == y.1;
                    assert(ld[j] == l[j + 1]);
                }
            }
        }
    } else {
        let rest = diff_yields(lu, rd);
        assert(ys == seq![(lo, a - 1)] + rest);
        assert forall|k: int| 0 <= k < ys.len() implies {
            let y = #[trigger] ys[k];
            &&& inside_some(l, y)
            &&& starts_span(l, y.0) || covered(r, y.0 - 1)
            &&& ends_span(l, y.1) || covered(r, y.1 + 1)
        } by {
            if k == 0 {
                assert(ys[0] == (lo, a - 1));
                assert(covered(r, a)) by {
                    assert(r[0].0 <= a <= r[0].1);
                }
            } else {
                assert(ys[k] == rest[k - 1]);
            }
        }
    }
}

/// Both `x` and `x + 1` lie in `p`.
pub open spec fn steps_in(p: (int, int), x: int) -> bool {
    p.0 <= x && x + 1 <= p.1
}

/// Some span of `s` holds both `x` and `x + 1`.
pub open spec fn steps_in_some(s: Seq<(int, int)>, x: int) -> bool {
    exists|i: int| #![trigger s[i]] 0 <= i < s.len() && steps_in(s[i], x)
}

/// A list without its first span holds fewer steps.
proof fn lemma_steps_in_rest(s: Seq<(int, int)>)
    requires
        s.len() > 0,
    ensures
        forall|x: int| #[trigger] steps_in_some(s.drop_first(), x) ==> steps_in_some(s, x),
{
    assert forall|x: int| #[trigger] steps_in_some(s.drop_first(), x) implies steps_in_some(s, x) by {
        let i = choose|i: int| #![trigger s.drop_first()[i]] 0 <= i < s.drop_first().len() && steps_in(
            s.drop_first()[i],
            x,
        );
        assert(s.drop_first()[i] == s[i + 1]);
    }
}

/// Within each range that the union yields from a state, every two
/// neighbouring positions share a span of one of the lists or the range
/// being grown.
proof fn lemma_union_from_joined(l: Seq<(int, int)>, r: Seq<(int, int)>, cur: Option<(int, int)>)
    requires
        sorted_disjoint(l),
        sorted_disjoint(r),
        cur matches Some(c) ==> c.0 <= c.1,
        cur matches Some(c) ==> forall|i: int| 0 <= i < l.len() ==> c.0 <= #[trigger] l[i].0,
        cur matches Some(c) ==> forall|j: int| 0 <= j < r.len() ==> c.0 <= #[trigger] r[j].0,
    ensures
        forall|k: int, x: int|
            0 <= k < union_yields_from(l, r, cur).len() && #[trigger] steps_in(
                union_yields_from(l, r, cur)[k],
                x,
            ) ==> steps_in_some(l, x) || steps_in_some(r, x) || (cur matches Some(c) && steps_in(
                c,
                x,
            )),
    decreases l.len() + r.len(), if cur is Some { 1int } else { 0int },
{
    let ys = union_yields_from(l, r, cur);
    if l.len() > 0 {
        lemma_sorted_drop_first(l);
        lemma_steps_in_rest(l);
    }
    if r.len() > 0 {
        lemma_sorted_drop_first(r);
        lemma_steps_in_rest(r);
    }
    match cur {
        Some(c) => {
            if l.len() > 0 && spans_overlap(c.0, c.1, l[0]) {
                let c2 = (c.0, if c.1 > l[0].1 { c.1 } else { l[0].1 });
                assert forall|i: int| 0 <= i < l.drop_first().len() implies c.0 <= #[trigger] l.drop_first()[i].0 by {
                    assert(l.drop_first()[i] == l[i + 1]);
                }
                lemma_union_from_joined(l.drop_first(), r, Some(c2));
                assert(ys == union_yields_from(l.drop_first(), r, Some(c2)));
                assert(c.0 <= l[0].0);
                assert forall|k: int, x: int| 0 <= k < ys.len() && #[trigger] steps_in(ys[k], x) implies steps_in_some(l, x)
                    || steps_in_some(r, x) || steps_in(c, x) by {
                    if steps_in(c2, x) && !steps_in(c, x) {
                        assert(steps_in(l[0], x));
                    }
                }
            } else if r.len() > 0 && spans_overlap(c.0, c.1, r[0]) {
                let c2 = (c.0, if c.1 > r[0].1 { c.1 } else { r[0].1 });
                assert forall|j: int| 0 <= j < r.drop_first().len() implies c.0 <= #[trigger] r.drop_first()[j].0 by {
                    assert(r.drop_first()[j] == r[j + 1]);
                }
                lemma_union_from_joined(l, r.drop_first(), Some(c2));
                assert(ys == union_yields_from(l, r.drop_first(), Some(c2)));
                assert(c.0 <= r[0].0);
                assert forall|k: int, x: int| 0 <= k < ys.len() && #[trigger] steps_in(ys[k], x) implies steps_in_some(l, x)
                    || steps_in_some(r, x) || steps_in(c, x) by {
                    if steps_in(c2, x) && !steps_in(c, x) {
                        assert(steps_in(r[0], x));
                    }
                }
            } else {
                let rest = union_yields_from(l, r, None);
                lemma_union_from_joined(l, r, None);
                assert(ys == seq![c] + rest);
                assert forall|k: int, x: int| 0 <= k < ys.len() && #[trigger] steps_in(ys[k], x) implies steps_in_some(l, x)
                    || steps_in_some(r, x) || steps_in(c, x) by {
                    if k > 0 {
                        assert(ys[k] == rest[k - 1]);
                    }
                }
            }
        },
        None => {
            if l.len() == 0 && r.len() == 0 {
            } else if r.len() == 0 || (l.len() > 0 && l[0].1 < r[0].0) {
                let rest = union_yields_from(l.drop_first(), r, None);
                lemma_union_from_joined(l.drop_first(), r, None);
                assert(ys == seq![l[0]] + rest);
                assert forall|k: int, x: int| 0 <= k < ys.len() && #[trigger] steps_in(ys[k], x) implies steps_in_some(l, x)
                    || steps_in_some(r, x) by {
                    if k > 0 {
                        assert(ys[k] == rest[k - 1]);
                    } else {
                        assert(steps_in(l[0], x));
                    }
                }
            } else if l.len() == 0 || r[0].1 < l[0].0 {
                let rest = union_yields_from(l, r.drop_first(), None);
                lemma_union_from_joined(l, r.drop_first(), None);
                assert(ys == seq![r[0]] + rest);
                assert forall|k: int, x: int| 0 <= k < ys.len() && #[trigger] steps_in(ys[k], x) implies steps_in_some(l, x)
                    || steps_in_some(r, x) by {
                    if k > 0 {
                        assert(ys[k] == rest[k - 1]);
                    } else {
                        assert(steps_in(r[0], x));
                    }
                }
            } else {
                let lo = if l[0].0 < r[0].0 { l[0].0 } else { r[0].0 };
                let hi = if l[0].1 > r[0].1 { l[0].1 } else { r[0].1 };
                assert forall|i: int| 0 <= i < l.drop_first().len() implies lo <= #[trigger] l.drop_first()[i].0 by {
                    assert(l.drop_first()[i] == l[i + 1]);
                    assert(l[0].1 < l[i + 1].0);
                }
                assert forall|j: int| 0 <= j < r.drop_first().len() implies lo <= #[trigger] r.drop_first()[j].0 by {
                    assert(r.drop_first()[j] == r[j + 1]);
                    assert(r[0].1 < r[j + 1].0);
                }
                lemma_union_from_joined(l.drop_first(), r.drop_first(), Some((lo, hi)));
                assert(ys == union_yields_from(l.drop_first(), r.drop_first(), Some((lo, hi))));
                assert forall|k: int, x: int| 0 <= k < ys.len() && #[trigger] steps_in(ys[k], x) implies steps_in_some(l, x)
                    || steps_in_some(r, x) by {
                    if steps_in((lo, hi), x) && !steps_in(l[0], x) && !steps_in(r[0], x) {
                        assert(false);
                    }
                    if steps_in(l[0], x) {
                        assert(steps_in_some(l, x));
                    }
                    if steps_in(r[0], x) {
                        assert(steps_in_some(r, x));
                    }
                }
            }
        },
    }
}

/// The union joins two ranges only through a chain of overlaps: inside each
/// range it yields, every two neighbouring positions lie together in one span
/// of an input, so ranges that merely touch are yielded apart.
pub proof fn lemma_union_yields_joined(l: Seq<(int, int)>, r: Seq<(int, int)>)
    requires
        sorted_disjoint(l),
        sorted_disjoint(r),
    ensures
        forall|k: int, x: int|
            0 <= k < union_yields(l, r).len() && #[trigger] steps_in(union_yields(l, r)[k], x)
                ==> steps_in_some(l, x) || steps_in_some(r, x),
{
    lemma_union_from_joined(l, r, None);
}

/// `y` is the overlap of some span of `l` with some span of `r`.
pub open spec fn overlap_of_spans(l: Seq<(int, int)>, r: Seq<(int, int)>, y: (int, int)) -> bool {
    exists|i: int, j: int|
        #![trigger l[i], r[j]]
        0 <= i < l.len() && 0 <= j < r.len() && y.0 == (if l[i].0 > r[j].0 {
            l[i].0
        } else {
            r[j].0
        }) && y.1 == (if l[i].1 < r[j].1 {
            l[i].1
        } else {
            r[j].1
        })
}

/// The intersection yields whole overlaps: every range it yields is exactly
/// the overlap of one span of each list, never a part of one.
pub proof fn lemma_intersect_yields_whole_overlaps(l: Seq<(int, int)>, r: Seq<(int, int)>)
    ensures
        forall|k: int|
            0 <= k < intersect_yields(l, r).len() ==> overlap_of_spans(
                l,
                r,
                #[trigger] intersect_yields(l, r)[k],
            ),
    decreases l.len() + r.len(),
{
    let ys = intersect_yields(l, r);
    if l.len() == 0 || r.len() == 0 {
        return;
    }
    let ld = l.drop_first();
    let rd = r.drop_first();
    if l[0].1 < r[0].0 {
        lemma_intersect_yields_whole_overlaps(ld, r);
        assert(ys == intersect_yields(ld, r));
        assert forall|k: int| 0 <= k < ys.len() implies overlap_of_spans(l, r, #[trigger] ys[k]) by {
            let y = ys[k];
            let (i, j) = choose|i: int, j: int|
                #![trigger ld[i], r[j]]
                0 <= i < ld.len() && 0 <= j < r.len() && y.0 == (if ld[i].0 > r[j].0 {
                    ld[i].0
                } else {
                    r[j].0
                }) && y.1 == (if ld[i].1 < r[j].1 {
                    ld[i].1
                } else {
                    r[j].1
                });
            assert(ld[i] == l[i + 1]);
        }
    } else if r[0].1 < l[0].0 {
        lemma_intersect_yields_whole_overlaps(l, rd);
        assert(ys == intersect_yields(l, rd));
        assert forall|k: int| 0 <= k < ys.len() implies overlap_of_spans(l, r, #[trigger] ys[k]) by {
            let y = ys[k];
            let (i, j) = choose|i: int, j: int|
                #![trigger l[i], rd[j]]
                0 <= i < l.len() && 0 <= j < rd.len() && y.0 == (if l[i].0 > rd[j].0 {
                    l[i].0
                } else {
                    rd[j].0
                }) && y.1 == (if l[i].1 < rd[j].1 {
                    l[i].1
                } else {
                    rd[j].1
                });
            assert(rd[j] == r[j + 1]);
        }
    } else {
        let lo = if l[0].0 > r[0].0 { l[0].0 } else { r[0].0 };
        let hi = if l[0].1 < r[0].1 { l[0].1 } else { r[0].1 };
        if l[0].1 <= r[0].1 {
            lemma_intersect_yields_whole_overlaps(ld, r);
            let rest = intersect_yields(ld, r);
            assert(ys == seq![(lo, hi)] + rest);
            assert forall|k: int| 0 <= k < ys.len() implies overlap_of_spans(l, r, #[trigger] ys[k]) by {
                if k == 0 {
                    assert(ys[0] == (lo, hi));
                    assert(l[0] == l[0] && r[0] == r[0]);
                } else {
                    let y = rest[k - 1];
                    assert(ys[k] == y);
                    let (i, j) = choose|i: int, j: int|
                        #![trigger ld[i], r[j]]
                        0 <= i < ld.len() && 0 <= j < r.len() && y.0 == (if ld[i].0 > r[j].0 {
                            ld[i].0
                        } else {
                            r[j].0
                        }) && y.1 == (if ld[i].1 < r[j].1 {
                            ld[i].1
                        } else {
                            r[j].1
                        });
                    assert(ld[i] == l[i + 1]);
                }
            }
        } else {
            lemma_intersect_yields_whole_overlaps(l, rd);
            let rest = intersect_yields(l, rd);
            assert(ys == seq![(lo, hi)] + rest);
            assert forall|k: int| 0 <= k < ys.len() implies overlap_of_spans(l, r, #[trigger] ys[k]) by {
                if k == 0 {
                    assert(ys[0] == (lo, hi));
                    assert(l[0] == l[0] && r[0] == r[0]);
                } else {
                    let y = rest[k - 1];
                    assert(ys[k] == y);
                    let (i, j) = choose|i: int, j: int|
                        #![trigger l[i], rd[j]]
                        0 <= i < l.len() && 0 <= j < rd.len() && y.0 == (if l[i].0 > rd[j].0 {
                            l[i].0
                        } else {
                            rd[j].0
                        }) && y.1 == (if l[i].1 < rd[j].1 {
                            l[i].1
                        } else {
                            rd[j].1
                        });
                    assert(rd[j] == r[j + 1]);
                }
            }
        }
    }
}

/// `(lo, hi)` and `p` share at least one position.
pub open spec fn spans_overlap(lo: int, hi: int, p: (int, int)) -> bool {
    p.0 <= hi && lo <= p.1
}

/// The ranges that a union of the span lists `l` and `r` yields, in order,
/// when the range `cur` (if any) is being grown: a span of either list that
/// overlaps the grown range joins it, and the grown range is yielded once no
/// front span overlaps it. With nothing being grown, a front span that lies
/// wholly below the other list's front span is yielded alone; two front spans
/// that overlap start a new grown range.
pub open spec fn union_yields_from(
    l: Seq<(int, int)>,
    r: Seq<(int, int)>,
    cur: Option<(int, int)>,
) -> Seq<(int, int)>
    decreases l.len() + r.len(), if cur is Some { 1int } else { 0int },
{
    match cur {
        Some(c) => {
            if l.len() > 0 && spans_overlap(c.0, c.1, l[0]) {
                union_yields_from(
                    l.drop_first(),
                    r,
                    Some((c.0, if c.1 > l[0].1 { c.1 } else { l[0].1 })),
                )
            } else if r.len() > 0 && spans_overlap(c.0, c.1, r[0]) {
                union_yields_from(
                    l,
                    r.drop_first(),
                    Some((c.0, if c.1 > r[0].1 { c.1 } else { r[0].1 })),
                )
            } else {
                seq![c] + union_yields_from(l, r, None)
            }
        },
        None => {
            if l.len() == 0 && r.len() == 0 {
                Seq::empty()
            } else if r.len() == 0 || (l.len() > 0 && l[0].1 < r[0].0) {
                seq![l[0]] + union_yields_from(l.drop_first(), r, None)
            } else if l.len() == 0 || r[0].1 < l[0].0 {
                seq![r[0]] + union_yields_from(l, r.drop_first(), None)
            } else {
                let lo = if l[0].0 < r[0].0 { l[0].0 } else { r[0].0 };
                let hi = if l[0].1 > r[0].1 { l[0].1 } else { r[0].1 };
                union_yields_from(l.drop_first(), r.drop_first(), Some((lo, hi)))
            }
        },
    }
}

/// The ranges that a union of the span lists `l` and `r` yields, in order.
pub open spec fn union_yields(l: Seq<(int, int)>, r: Seq<(int, int)>) -> Seq<(int, int)> {
    union_yields_from(l, r, None)
}

/// Some range of `ys` holds the whole span `p`.
pub open spec fn inside_some(ys: Seq<(int, int)>, p: (int, int)) -> bool {
    exists|k: int| #![trigger ys[k]] 0 <= k < ys.len() && ys[k].0 <= p.0 && p.1 <= ys[k].1
}

/// Dropping the first span keeps a list sorted and disjoint.
proof fn lemma_sorted_drop_first(s: Seq<(int, int)>)
    requires
        sorted_disjoint(s),
        s.len() > 0,
    ensures
        sorted_disjoint(s.drop_first()),
        forall|i: int| 0 <= i < s.drop_first().len() ==> #[trigger] s.drop_first()[i] == s[i + 1],
{
    let t = s.drop_first();
    assert forall|i: int| 0 <= i < t.len() implies #[trigger] t[i] == s[i + 1] by {
    }
    assert forall|i: int, j: int| #![trigger t[i], t[j]] 0 <= i < j < t.len() implies t[i].1 < t[j].0 by {
        assert(t[i] == s[i + 1]);
        assert(t[j] == s[j + 1]);
    }
}

/// What the union yields from a state holds every remaining span of either
/// list inside one of its ranges; a range being grown is the start of the
/// first one.
proof fn lemma_union_from_covers(l: Seq<(int, int)>, r: Seq<(int, int)>, cur: Option<(int, int)>)
    requires
        sorted_disjoint(l),
        sorted_disjoint(r),
        cur matches Some(c) ==> c.0 <= c.1,
        cur matches Some(c) ==> forall|i: int| 0 <= i < l.len() ==> c.0 <= #[trigger] l[i].0,
        cur matches Some(c) ==> forall|j: int| 0 <= j < r.len() ==> c.0 <= #[trigger] r[j].0,
    ensures
        forall|i: int| 0 <= i < l.len() ==> inside_some(union_yields_from(l, r, cur), #[trigger] l[i]),
        forall|j: int| 0 <= j < r.len() ==> inside_some(union_yields_from(l, r, cur), #[trigger] r[j]),
        cur matches Some(c) ==> union_yields_from(l, r, cur).len() > 0 && union_yields_from(
            l,
            r,
            cur,
        )[0].0 == c.0 && c.1 <= union_yields_from(l, r, cur)[0].1,
    decreases l.len() + r.len(), if cur is Some { 1int } else { 0int },
{
    let ys = union_yields_from(l, r, cur);
    if l.len() > 0 {
        lemma_sorted_drop_first(l);
    }
    if r.len() > 0 {
        lemma_sorted_drop_first(r);
    }
    match cur {
        Some(c) => {
            if l.len() > 0 && spans_overlap(c.0, c.1, l[0]) {
                let c2 = (c.0, if c.1 > l[0].1 { c.1 } else { l[0].1 });
                lemma_union_from_covers(l.drop_first(), r, Some(c2));
                assert(ys == union_yields_from(l.drop_first(), r, Some(c2)));
                assert forall|i: int| 0 <= i < l.len() implies inside_some(ys, #[trigger] l[i]) by {
                    if i == 0 {
                        assert(ys[0].0 <= l[0].0 && l[0].1 <= ys[0].1);
                    } else {
                        assert(l[i] == l.drop_first()[i - 1]);
                    }
                }
            } else if r.len() > 0 && spans_overlap(c.0, c.1, r[0]) {
                let c2 = (c.0, if c.1 > r[0].1 { c.1 } else { r[0].1 });
                lemma_union_from_covers(l, r.drop_first(), Some(c2));
                assert(ys == union_yields_from(l, r.drop_first(), Some(c2)));
                assert forall|j: int| 0 <= j < r.len() implies inside_some(ys, #[trigger] r[j]) by {
                    if j == 0 {
                        assert(ys[0].0 <= r[0].0 && r[0].1 <= ys[0].1);
                    } else {
                        assert(r[j] == r.drop_first()[j - 1]);
                    }
                }
            } else {
                let rest = union_yields_from(l, r, None);
                lemma_union_from_covers(l, r, None);
                assert(ys == seq![c] + rest);
                assert forall|p: (int, int)| inside_some(rest, p) implies inside_some(ys, p) by {
                    let k = choose|k: int| #![trigger rest[k]] 0 <= k < rest.len() && rest[k].0 <= p.0 && p.1 <= rest[k].1;
                    assert(ys[k + 1] == rest[k]);
                }
                assert(ys[0] == c);
            }
        },
        None => {
            if l.len() == 0 && r.len() == 0 {
            } else if r.len() == 0 || (l.len() > 0 && l[0].1 < r[0].0) {
                let rest = union_yields_from(l.drop_first(), r, None);
                lemma_union_from_covers(l.drop_first(), r, None);
                assert(ys == seq![l[0]] + rest);
                assert forall|p: (int, int)| inside_some(rest, p) implies inside_some(ys, p) by {
                    let k = choose|k: int| #![trigger rest[k]] 0 <= k < rest.len() && rest[k].0 <= p.0 && p.1 <= rest[k].1;
                    assert(ys[k + 1] == rest[k]);
                }
                assert forall|i: int| 0 <= i < l.len() implies inside_some(ys, #[trigger] l[i]) by {
                    if i == 0 {
                        assert(ys[0] == l[0]);
                    } else {
                        assert(l[i] == l.drop_first()[i - 1]);
                    }
                }
            } else if l.len() == 0 || r[0].1 < l[0].0 {
                let rest = union_yields_from(l, r.drop_first(), None);
                lemma_union_from_covers(l, r.drop_first(), None);
                assert(ys == seq![r[0]] + rest);
                assert forall|p: (int, int)| inside_some(rest, p) implies inside_some(ys, p) by {
                    let k = choose|k: int| #![trigger rest[k]] 0 <= k < rest.len() && rest[k].0 <= p.0 && p.1 <= rest[k].1;
                    assert(ys[k + 1] == rest[k]);
                }
                assert forall|j: int| 0 <= j < r.len() implies inside_some(ys, #[trigger] r[j]) by {
                    if j == 0 {
                        assert(ys[0] == r[0]);
                    } else {
                        assert(r[j] == r.drop_first()[j - 1]);
                    }
                }
            } else {
                let lo = if l[0].0 < r[0].0 { l[0].0 } else { r[0].0 };
                let hi = if l[0].1 > r[0].1 { l[0].1 } else { r[0].1 };
                assert forall|i: int| 0 <= i < l.drop_first().len() implies lo <= #[trigger] l.drop_first()[i].0 by {
                    assert(l.drop_first()[i] == l[i + 1]);
                    assert(l[0].1 < l[i + 1].0);
                }
                assert forall|j: int| 0 <= j < r.drop_first().len() implies lo <= #[trigger] r.drop_first()[j].0 by {
                    assert(r.drop_first()[j] == r[j + 1]);
                    assert(r[0].1 < r[j + 1].0);
                }
                lemma_union_from_covers(l.drop_first(), r.drop_first(), Some((lo, hi)));
                assert(ys == union_yields_from(l.drop_first(), r.drop_first(), Some((lo, hi))));
                assert forall|i: int| 0 <= i < l.len() implies inside_some(ys, #[trigger] l[i]) by {
                    if i == 0 {
                        assert(ys[0].0 <= l[0].0 && l[0].1 <= ys[0].1);
                    } else {
                        assert(l[i] == l.drop_first()[i - 1]);
                    }
                }
                assert forall|j: int| 0 <= j < r.len() implies inside_some(ys, #[trigger] r[j]) by {
                    if j == 0 {
                        assert(ys[0].0 <= r[0].0 && r[0].1 <= ys[0].1);
                    } else {
                        assert(r[j] == r.drop_first()[j - 1]);
                    }
                }
            }
        },
    }
}

/// The positions that the union from a state still has to yield: those of
/// either list and of the range being grown.
pub open spec fn union_pending(
    l: Seq<(int, int)>,
    r: Seq<(int, int)>,
    cur: Option<(int, int)>,
    x: int,
) -> bool {
    covered(l, x) || covered(r, x) || (cur matches Some(c) && c.0 <= x <= c.1)
}

/// What the union yields from a state is sorted and disjoint, with non-empty
/// ranges, and covers exactly the positions still to be yielded.
proof fn lemma_union_from_exact(l: Seq<(int, int)>, r: Seq<(int, int)>, cur: Option<(int, int)>)
    requires
        sorted_disjoint(l),
        sorted_disjoint(r),
        cur matches Some(c) ==> c.0 <= c.1,
        cur matches Some(c) ==> forall|i: int| 0 <= i < l.len() ==> c.0 <= #[trigger] l[i].0,
        cur matches Some(c) ==> forall|j: int| 0 <= j < r.len() ==> c.0 <= #[trigger] r[j].0,
    ensures
        sorted_disjoint(union_yields_from(l, r, cur)),
        forall|x: int|
            #[trigger] covered(union_yields_from(l, r, cur), x) <==> union_pending(l, r, cur, x),
    decreases l.len() + r.len(), if cur is Some { 1int } else { 0int },
{
    let ys = union_yields_from(l, r, cur);
    if l.len() > 0 {
        lemma_cover_front(l);
        lemma_sorted_drop_first(l);
    }
    if r.len() > 0 {
        lemma_cover_front(r);
        lemma_sorted_drop_first(r);
    }
    match cur {
        Some(c) => {
            if l.len() > 0 && spans_overlap(c.0, c.1, l[0]) {
                let c2 = (c.0, if c.1 > l[0].1 { c.1 } else { l[0].1 });
                lemma_union_from_exact(l.drop_first(), r, Some(c2));
                assert(ys == union_yields_from(l.drop_first(), r, Some(c2)));
                assert(c.0 <= l[0].0);
                assert forall|x: int| #[trigger] covered(ys, x) <==> union_pending(l, r, cur, x) by {
                    assert(union_pending(l.drop_first(), r, Some(c2), x) == union_pending(l, r, cur, x));
                }
            } else if r.len() > 0 && spans_overlap(c.0, c.1, r[0]) {
                let c2 = (c.0, if c.1 > r[0].1 { c.1 } else { r[0].1 });
                lemma_union_from_exact(l, r.drop_first(), Some(c2));
                assert(ys == union_yields_from(l, r.drop_first(), Some(c2)));
                assert(c.0 <= r[0].0);
                assert forall|x: int| #[trigger] covered(ys, x) <==> union_pending(l, r, cur, x) by {
                    assert(union_pending(l, r.drop_first(), Some(c2), x) == union_pending(l, r, cur, x));
                }
            } else {
                let rest = union_yields_from(l, r, None);
                lemma_union_from_exact(l, r, None);
                assert(ys == seq![c] + rest);
                lemma_cover_cons(c, rest);
                if l.len() > 0 {
                    assert(c.0 <= l[0].0);
                }
                if r.len() > 0 {
                    assert(c.0 <= r[0].0);
                }
                assert forall|x: int| #[trigger] covered(rest, x) implies c.1 < x by {
                    assert(union_pending(l, r, None, x));
                }
                assert forall|x: int| #[trigger] covered(ys, x) <==> union_pending(l, r, cur, x) by {
                    assert(covered(rest, x) == union_pending(l, r, None, x));
                }
            }
        },
        None => {
            if l.len() == 0 && r.len() == 0 {
                assert(ys.len() == 0);
                assert forall|x: int| #[trigger] covered(ys, x) <==> union_pending(l, r, cur, x) by {
                }
            } else if r.len() == 0 || (l.len() > 0 && l[0].1 < r[0].0) {
                let rest = union_yields_from(l.drop_first(), r, None);
                lemma_union_from_exact(l.drop_first(), r, None);
                assert(ys == seq![l[0]] + rest);
                lemma_cover_cons(l[0], rest);
                assert forall|x: int| #[trigger] covered(rest, x) implies l[0].1 < x by {
                    assert(union_pending(l.drop_first(), r, None, x));
                }
                assert forall|x: int| #[trigger] covered(ys, x) <==> union_pending(l, r, cur, x) by {
                    assert(covered(rest, x) == union_pending(l.drop_first(), r, None, x));
                }
            } else if l.len() == 0 || r[0].1 < l[0].0 {
                let rest = union_yields_from(l, r.drop_first(), None);
                lemma_union_from_exact(l, r.drop_first(), None);
                assert(ys == seq![r[0]] + rest);
                lemma_cover_cons(r[0], rest);
                assert forall|x: int| #[trigger] covered(rest, x) implies r[0].1 < x by {
                    assert(union_pending(l, r.drop_first(), None, x));
                }
                assert forall|x: int| #[trigger] covered(ys, x) <==> union_pending(l, r, cur, x) by {
                    assert(covered(rest, x) == union_pending(l, r.drop_first(), None, x));
                }
            } else {
                let lo = if l[0].0 < r[0].0 { l[0].0 } else { r[0].0 };
                let hi = if l[0].1 > r[0].1 { l[0].1 } else { r[0].1 };
                assert forall|i: int| 0 <= i < l.drop_first().len() implies lo <= #[trigger] l.drop_first()[i].0 by {
                    assert(l[0].1 < l[i + 1].0);
                }
                assert forall|j: int| 0 <= j < r.drop_first().len() implies lo <= #[trigger] r.drop_first()[j].0 by {
                    assert(r[0].1 < r[j + 1].0);
                }
                lemma_union_from_exact(l.drop_first(), r.drop_first(), Some((lo, hi)));
                assert(ys == union_yields_from(l.drop_first(), r.drop_first(), Some((lo, hi))));
                assert forall|x: int| #[trigger] covered(ys, x) <==> union_pending(l, r, cur, x) by {
                    assert(covered(ys, x) == union_pending(l.drop_first(), r.drop_first(), Some((lo, hi)), x));
                }
            }
        },
    }
}

/// The union of two sorted, disjoint lists of non-empty spans yields
/// non-empty, sorted, disjoint ranges covering exactly the positions that
/// either list covers, and every span of either list lies inside one of them.
pub proof fn lemma_union_yields_exact(l: Seq<(int, int)>, r: Seq<(int, int)>)
    requires
        sorted_disjoint(l),
        sorted_disjoint(r),
    ensures
        sorted_disjoint(union_yields(l, r)),
        forall|x: int| #[trigger] covered(union_yields(l, r), x) <==> (covered(l, x) || covered(r, x)),
        forall|i: int| 0 <= i < l.len() ==> inside_some(union_yields(l, r), #[trigger] l[i]),
        forall|j: int| 0 <= j < r.len() ==> inside_some(union_yields(l, r), #[trigger] r[j]),
{
    lemma_union_from_exact(l, r, None);
    lemma_union_from_covers(l, r, None);
    assert forall|x: int| #[trigger] covered(union_yields(l, r), x) <==> (covered(l, x) || covered(r, x)) by {
        assert(covered(union_yields_from(l, r, None), x) == union_pending(l, r, None, x));
    }
}

/// The ranges that a difference of the span lists `l` and `r` yields, in
/// order: the front span of `l` is yielded whole once no span of `r` touches
/// it; a span of `r` that covers its beginning cuts that beginning away; a
/// span of `r` that starts inside it yields the part below that span.
pub open spec fn diff_yields(l: Seq<(int, int)>, r: Seq<(int, int)>) -> Seq<(int, int)>
    decreases l.len() + r.len(),
{
    if l.len() == 0 {
        Seq::empty()
    } else if r.len() == 0 || l[0].1 < r[0].0 {
        seq![l[0]] + diff_yields(l.drop_first(), r)
    } else if r[0].1 < l[0].0 {
        diff_yields(l, r.drop_first())
    } else if r[0].0 <= l[0].0 && r[0].1 >= l[0].1 {
        diff_yields(l.drop_first(), r)
    } else if r[0].0 <= l[0].0 {
        diff_yields(l.update(0, (r[0].1 + 1, l[0].1)), r.drop_first())
    } else if r[0].1 >= l[0].1 {
        seq![(l[0].0, r[0].0 - 1)] + diff_yields(l.drop_first(), r)
    } else {
        seq![(l[0].0, r[0].0 - 1)] + diff_yields(l.update(0, (r[0].1 + 1, l[0].1)), r.drop_first())
    }
}

/// The list `s` without its first `i` spans: its front span, and what
/// follows it.
pub proof fn lemma_skip_front(s: Seq<(int, int)>, i: int)
    requires
        0 <= i <= s.len(),
    ensures
        s.skip(i).len() == s.len() - i,
        i < s.len() ==> s.skip(i)[0] == s[i],
        i < s.len() ==> s.skip(i).drop_first() == s.skip(i + 1),
{
    if i < s.len() {
        assert(s.skip(i).drop_first() =~= s.skip(i + 1));
    }
}

/// A source of ranges yielded in increasing order, each one above the last.
pub trait SortedRanges<E: Ordinal>: Sized {
    /// The condition under which the source yields correctly.
    spec fn stream_inv(&self) -> bool;

    /// `x` is in one of the ranges still to be yielded.
    spec fn pending(&self, x: int) -> bool;

    /// A bound on the number of steps left.
    spec fn remaining(&self) -> nat;

    /// The ranges still to be yielded, in order, as pairs of positions.
    spec fn yields(&self) -> Seq<(int, int)>;

    /// Yields the next range, the first of `yields()`: a non-empty range of
    /// pending values, below all values still pending afterwards; or `None`
    /// when nothing is left to yield.
    fn next(&mut self) -> (r: Option<RangeInclusive<E>>)
        requires
            old(self).stream_inv(),
        ensures
            final(self).stream_inv(),
            r is None ==> forall|x: int| !old(self).pending(x) && !final(self).pending(x),
            r is Some ==> !r->0@.exhausted && r->0@.start.ord() <= r->0@.end.ord(),
            r is Some ==> forall|x: int|
                #[trigger] old(self).pending(x) <==> (r->0@.start.ord() <= x <= r->0@.end.ord()
                    || final(self).pending(x)),
            r is Some ==> forall|x: int| #[trigger] final(self).pending(x) ==> r->0@.end.ord() < x,
            r is Some ==> final(self).remaining() < old(self).remaining(),
            r is None ==> old(self).yields().len() == 0 && final(self).yields().len() == 0,
            r is Some ==> old(self).yields() == seq![(r->0@.start.ord(), r->0@.end.ord())]
                + final(self).yields(),
    ;

    /// Collects all yielded ranges into a range list.
    fn collect_list(self) -> (r: RangeList<E>) where E: Adjacent
        requires
            self.stream_inv(),
        ensures
            r.wf(),
            forall|x: int| r@.contains(x) <==> self.pending(x),
    {
        let ghost init = self;
        let mut it = self;
        let mut out: Vec<RangeInclusive<E>> = Vec::new();
        loop
            invariant
                it.stream_inv(),
                range_starts_sorted(out@),
                forall|k: int|
                    #![trigger out@[k]]
                    0 <= k < out@.len() ==> !out@[k]@.exhausted && out@[k]@.start.ord()
                        <= out@[k]@.end.ord(),
                forall|x: int|
                    #[trigger] init.pending(x) <==> (range_set(out@).contains(x) || it.pending(x)),
                forall|x: int, k: int|
                    #![trigger it.pending(x), out@[k]]
                    0 <= k < out@.len() && it.pending(x) ==> out@[k]@.end.ord() < x,
            ensures
                forall|x: int| !it.pending(x),
            decreases it.remaining(),
        {
            let ghost prev = it;
            let ghost prev_out = out@;
            match it.next() {
                None => {
                    break ;
                },
                Some(g) => {
                    assert(prev.pending(g@.start.ord()));
                    out.push(g);
                    assert forall|x: int|
                        #[trigger] init.pending(x) <==> (range_set(out@).contains(x)
                            || it.pending(x)) by {
                        assert(init.pending(x) <==> (range_set(prev_out).contains(x) || prev.pending(
                            x,
                        )));
                        if range_set(prev_out).contains(x) {
                            let i = choose|i: int|
                                #![trigger prev_out[i]]
                                0 <= i < prev_out.len() && !prev_out[i]@.exhausted
                                    && prev_out[i]@.start.ord() <= x <= prev_out[i]@.end.ord();
                            assert(out@[i] == prev_out[i]);
                        }
                        if range_set(out@).contains(x) {
                            let i = choose|i: int|
                                #![trigger out@[i]]
                                0 <= i < out@.len() && !out@[i]@.exhausted && out@[i]@.start.ord()
                                    <= x <= out@[i]@.end.ord();
                            if i < prev_out.len() {
                                assert(prev_out[i] == out@[i]);
                            }
                        }
                        if g@.start.ord() <= x <= g@.end.ord() {
                            assert(out@[prev_out.len() as int] == g);
                        }
                    }
                    assert forall|x: int, k: int|
                        0 <= k < out@.len() && #[trigger] it.pending(x) implies #[trigger] out@[
                        k
                    ]@.end.ord() < x by {
                        assert(prev.pending(x));
                        if k < prev_out.len() {
                            assert(prev_out[k] == out@[k]);
                        }
                    }
                    assert forall|a: int, b: int|
                        0 <= a < b < out@.len() implies #[trigger] out@[a]@.start.ord()
                        <= #[trigger] out@[b]@.start.ord() by {
                        if b == prev_out.len() {
                            assert(prev_out[a] == out@[a]);
                        } else {
                            assert(prev_out[a] == out@[a]);
                            assert(prev_out[b] == out@[b]);
                        }
                    }
                },
            }
        }
        let r = RangeList::from_sorted_ranges(out);
        assert forall|x: int| r@.contains(x) <==> init.pending(x) by {
            assert(init.pending(x) <==> (range_set(out@).contains(x) || it.pending(x)));
            assert(!it.pending(x));
        }
        r
    }
}

/// An iterator combinator that, given two sorted lists of disjoint ranges,
/// yields in order the ranges of values that are in both.
pub struct IntersectIter<E: Ordinal> {
    lhs: Vec<(E, E)>,
    rhs: Vec<(E, E)>,
    li: usize,
    ri: usize,
}

impl<E: Ordinal> IntersectIter<E> {
    /// Creates the combinator from two sorted lists of disjoint ranges.
    pub fn from_iters(lhs: Vec<(E, E)>, rhs: Vec<(E, E)>) -> (r: Self)
        requires
            sorted_disjoint(spans_of(lhs@)),
            sorted_disjoint(spans_of(rhs@)),
        ensures
            r.stream_inv(),
            forall|x: int|
                r.pending(x) <==> (covered(spans_of(lhs@), x) && covered(spans_of(rhs@), x)),
            r.yields() == intersect_yields(spans_of(lhs@), spans_of(rhs@)),
    {
        let r = IntersectIter { lhs, rhs, li: 0, ri: 0 };
        assert(spans_of(r.lhs@).skip(0) =~= spans_of(r.lhs@));
        assert(spans_of(r.rhs@).skip(0) =~= spans_of(r.rhs@));
        r
    }

    /// Creates the combinator from two set types that list their ranges: the
    /// one that `from_iters` makes from their `intervals()`.
    pub fn new<A: Intervals<E>, B: Intervals<E>>(lhs: &A, rhs: &B) -> (r: Self)
        requires
            lhs.interval_inv(),
            rhs.interval_inv(),
        ensures
            r.stream_inv(),
            forall|x: int|
                r.pending(x) <==> (cover_set(lhs.interval_spans()).contains(x) && cover_set(
                    rhs.interval_spans(),
                ).contains(x)),
            r.yields() == intersect_yields(lhs.interval_spans(), rhs.interval_spans()),
    {
        Self::from_iters(lhs.intervals(), rhs.intervals())
    }
}

impl<E: Ordinal> SortedRanges<E> for IntersectIter<E> {
    closed spec fn stream_inv(&self) -> bool {
        &&& sorted_disjoint(spans_of(self.lhs@))
        &&& sorted_disjoint(spans_of(self.rhs@))
        &&& self.li <= self.lhs@.len()
        &&& self.ri <= self.rhs@.len()
    }

    closed spec fn pending(&self, x: int) -> bool {
        &&& covered_in(spans_of(self.lhs@), self.li as int, self.lhs@.len() as int, x)
        &&& covered_in(spans_of(self.rhs@), self.ri as int, self.rhs@.len() as int, x)
    }

    closed spec fn remaining(&self) -> nat {
        ((self.lhs@.len() - self.li) + (self.rhs@.len() - self.ri)) as nat
    }

    closed spec fn yields(&self) -> Seq<(int, int)> {
        intersect_yields(
            spans_of(self.lhs@).skip(self.li as int),
            spans_of(self.rhs@).skip(self.ri as int),
        )
    }

    fn next(&mut self) -> (r: Option<RangeInclusive<E>>) {
        let ghost ls = spans_of(self.lhs@);
        let ghost rs = spans_of(self.rhs@);
        let n = self.lhs.len();
        let m = self.rhs.len();
        let ghost start = *self;
        while self.li < n && self.ri < m
            invariant
                n == self.lhs@.len(),
                m == self.rhs@.len(),
                ls == spans_of(self.lhs@),
                rs == spans_of(self.rhs@),
                self.lhs == start.lhs,
                self.rhs == start.rhs,
                start == *old(self),
                self.stream_inv(),
                forall|x: int| #[trigger] start.pending(x) <==> self.pending(x),
                self.remaining() <= start.remaining(),
                start.yields() == self.yields(),
            decreases self.remaining(),
        {
            proof {
                E::ord_laws();
            }
            let li = self.li;
            let ri = self.ri;
            let l = self.lhs[li];
            let r = self.rhs[ri];
            proof {
                assert(ls[li as int] == (l.0.ord(), l.1.ord()));
                assert(rs[ri as int] == (r.0.ord(), r.1.ord()));
                assert(ls.skip(li as int)[0] == ls[li as int]);
                assert(rs.skip(ri as int)[0] == rs[ri as int]);
                assert(ls.skip(li as int).drop_first() =~= ls.skip(li + 1));
                assert(rs.skip(ri as int).drop_first() =~= rs.skip(ri + 1));
                lemma_covered_first(ls, li as int, n as int);
                lemma_covered_first(rs, ri as int, m as int);
                lemma_sorted_bounds(ls, li as int, n as int);
                lemma_sorted_bounds(rs, ri as int, m as int);
            }
            let o = overlap(&l, &r);
            if o == RangeOrder::Less {
                self.li = li + 1;
            } else if o == RangeOrder::Greater {
                self.ri = ri + 1;
            } else {
                let lo = max(l.0, r.0);
                let hi = min(l.1, r.1);
                let ghost mid = *self;
                if l.1 <= r.1 {
                    self.li = li + 1;
                } else {
                    self.ri = ri + 1;
                }
                assert(forall|x: int| #[trigger] self.pending(x) ==> hi.ord() < x);
                assert(forall|x: int|
                    #[trigger] mid.pending(x) <==> (lo.ord() <= x <= hi.ord() || self.pending(x)));
                return Some(RangeInclusive::new(lo, hi));
            }
        }
        proof {
            lemma_covered_empty(ls, n as int, n as int);
            lemma_covered_empty(rs, m as int, m as int);
            assert(ls.skip(self.li as int).len() == 0 || rs.skip(self.ri as int).len() == 0);
        }
        None
    }
}

/// An iterator combinator that, given two sorted lists of disjoint ranges,
/// yields in order the ranges of values that are in either; overlapping ranges
/// are joined into one.
pub struct UnionIter<E: Ordinal> {
    lhs: Vec<(E, E)>,
    rhs: Vec<(E, E)>,
    li: usize,
    ri: usize,
}

impl<E: Ordinal> UnionIter<E> {
    /// Creates the combinator from two sorted lists of disjoint ranges.
    pub fn from_iters(lhs: Vec<(E, E)>, rhs: Vec<(E, E)>) -> (r: Self)
        requires
            sorted_disjoint(spans_of(lhs@)),
            sorted_disjoint(spans_of(rhs@)),
        ensures
            r.stream_inv(),
            forall|x: int|
                r.pending(x) <==> (covered(spans_of(lhs@), x) || covered(spans_of(rhs@), x)),
            r.yields() == union_yields(spans_of(lhs@), spans_of(rhs@)),
    {
        let r = UnionIter { lhs, rhs, li: 0, ri: 0 };
        assert(spans_of(r.lhs@).skip(0) =~= spans_of(r.lhs@));
        assert(spans_of(r.rhs@).skip(0) =~= spans_of(r.rhs@));
        r
    }

    /// Creates the combinator from two set types that list their ranges: the
    /// one that `from_iters` makes from their `intervals()`.
    pub fn new<A: Intervals<E>, B: Intervals<E>>(lhs: &A, rhs: &B) -> (r: Self)
        requires
            lhs.interval_inv(),
            rhs.interval_inv(),
        ensures
            r.stream_inv(),
            forall|x: int|
                r.pending(x) <==> (cover_set(lhs.interval_spans()).contains(x) || cover_set(
                    rhs.interval_spans(),
                ).contains(x)),
            r.yields() == union_yields(lhs.interval_spans(), rhs.interval_spans()),
    {
        Self::from_iters(lhs.intervals(), rhs.intervals())
    }
}

impl<E: Ordinal> SortedRanges<E> for UnionIter<E> {
    closed spec fn stream_inv(&self) -> bool {
        &&& sorted_disjoint(spans_of(self.lhs@))
        &&& sorted_disjoint(spans_of(self.rhs@))
        &&& self.li <= self.lhs@.len()
        &&& self.ri <= self.rhs@.len()
    }

    closed spec fn pending(&self, x: int) -> bool {
        ||| covered_in(spans_of(self.lhs@), self.li as int, self.lhs@.len() as int, x)
        ||| covered_in(spans_of(self.rhs@), self.ri as int, self.rhs@.len() as int, x)
    }

    closed spec fn remaining(&self) -> nat {
        ((self.lhs@.len() - self.li) + (self.rhs@.len() - self.ri)) as nat
    }

    closed spec fn yields(&self) -> Seq<(int, int)> {
        union_yields(spans_of(self.lhs@).skip(self.li as int), spans_of(self.rhs@).skip(self.ri as int))
    }

    fn next(&mut self) -> (r: Option<RangeInclusive<E>>) {
        proof {
            E::ord_laws();
        }
        let ghost ls = spans_of(self.lhs@);
        let ghost rs = spans_of(self.rhs@);
        let ghost start = *self;
        let n = self.lhs.len();
        let m = self.rhs.len();
        let li = self.li;
        let ri = self.ri;
        proof {
            lemma_covered_empty(ls, n as int, n as int);
            lemma_covered_empty(rs, m as int, m as int);
            lemma_skip_front(ls, li as int);
            lemma_skip_front(rs, ri as int);
            if li < n {
                lemma_covered_first(ls, li as int, n as int);
                lemma_sorted_bounds(ls, li as int, n as int);
            }
            if ri < m {
                lemma_covered_first(rs, ri as int, m as int);
                lemma_sorted_bounds(rs, ri as int, m as int);
            }
        }
        if li >= n && ri >= m {
            return None;
        }
        if ri >= m {
            let l = self.lhs[li];
            assert(ls[li as int] == (l.0.ord(), l.1.ord()));
            self.li = li + 1;
            return Some(RangeInclusive::new(l.0, l.1));
        }
        if li >= n {
            let r = self.rhs[ri];
            assert(rs[ri as int] == (r.0.ord(), r.1.ord()));
            self.ri = ri + 1;
            return Some(RangeInclusive::new(r.0, r.1));
        }
        let l = self.lhs[li];
        let r = self.rhs[ri];
        assert(ls[li as int] == (l.0.ord(), l.1.ord()));
        assert(rs[ri as int] == (r.0.ord(), r.1.ord()));
        let o = overlap(&l, &r);
        if o == RangeOrder::Less {
            self.li = li + 1;
            return Some(RangeInclusive::new(l.0, l.1));
        }
        if o == RangeOrder::Greater {
            self.ri = ri + 1;
            return Some(RangeInclusive::new(r.0, r.1));
        }
        let lo = min(l.0, r.0);
        let mut hi = max(l.1, r.1);
        self.li = li + 1;
        self.ri = ri + 1;
        loop
            invariant
                n == self.lhs@.len(),
                m == self.rhs@.len(),
                ls == spans_of(self.lhs@),
                rs == spans_of(self.rhs@),
                self.lhs == start.lhs,
                self.rhs == start.rhs,
                start == *old(self),
                self.stream_inv(),
                lo.ord() <= hi.ord(),
                forall|x: int|
                    #[trigger] start.pending(x) <==> (lo.ord() <= x <= hi.ord() || self.pending(x)),
                forall|x: int| #[trigger] self.pending(x) ==> lo.ord() <= x,
                self.remaining() < start.remaining(),
                start.yields() == union_yields_from(
                    ls.skip(self.li as int),
                    rs.skip(self.ri as int),
                    Some((lo.ord(), hi.ord())),
                ),
            ensures
                forall|x: int| #[trigger] self.pending(x) ==> hi.ord() < x,
                start.yields() == seq![(lo.ord(), hi.ord())] + self.yields(),
            decreases self.remaining(),
        {
            proof {
                E::ord_laws();
            }
            let li = self.li;
            let ri = self.ri;
            proof {
                lemma_covered_empty(ls, n as int, n as int);
                lemma_covered_empty(rs, m as int, m as int);
                lemma_skip_front(ls, li as int);
                lemma_skip_front(rs, ri as int);
                if li < n {
                    lemma_covered_first(ls, li as int, n as int);
                    lemma_sorted_bounds(ls, li as int, n as int);
                    assert(ls[li as int] == (self.lhs@[li as int].0.ord(), self.lhs@[li as int].1.ord()));
                }
                if ri < m {
                    lemma_covered_first(rs, ri as int, m as int);
                    lemma_sorted_bounds(rs, ri as int, m as int);
                    assert(rs[ri as int] == (self.rhs@[ri as int].0.ord(), self.rhs@[ri as int].1.ord()));
                }
            }
            let ghost cur = *self;
            if li < n && overlap(&(lo, hi), &self.lhs[li]) == RangeOrder::Overlap {
                hi = max(hi, self.lhs[li].1);
                self.li = li + 1;
                assert(forall|x: int| #[trigger] self.pending(x) ==> cur.pending(x));
                continue ;
            }
            if ri < m && overlap(&(lo, hi), &self.rhs[ri]) == RangeOrder::Overlap {
                hi = max(hi, self.rhs[ri].1);
                self.ri = ri + 1;
                assert(forall|x: int| #[trigger] self.pending(x) ==> cur.pending(x));
                continue ;
            }
            proof {
                if li < n {
                    assert(cur.pending(ls[li as int].0));
                }
                if ri < m {
                    assert(cur.pending(rs[ri as int].0));
                }
            }
            break ;
        }
        Some(RangeInclusive::new(lo, hi))
    }
}

/// An iterator combinator that, given two sorted lists of disjoint ranges,
/// yields in order the ranges of values that are in the left-hand list but not
/// in the right-hand one.
pub struct DiffIter<E: Adjacent> {
    lhs: Vec<(E, E)>,
    rhs: Vec<(E, E)>,
    li: usize,
    ri: usize,
    /// Start of the current left-hand range when its beginning was already
    /// cut away.
    next_min: Option<E>,
}

impl<E: Adjacent> DiffIter<E> {
    /// Creates the combinator from two sorted lists of disjoint ranges.
    pub fn from_iters(lhs: Vec<(E, E)>, rhs: Vec<(E, E)>) -> (r: Self)
        requires
            sorted_disjoint(spans_of(lhs@)),
            sorted_disjoint(spans_of(rhs@)),
        ensures
            r.stream_inv(),
            forall|x: int|
                r.pending(x) <==> (covered(spans_of(lhs@), x) && !covered(spans_of(rhs@), x)),
            r.yields() == diff_yields(spans_of(lhs@), spans_of(rhs@)),
    {
        let r = DiffIter { lhs, rhs, li: 0, ri: 0, next_min: None };
        proof {
            let ls = spans_of(r.lhs@);
            if ls.len() > 0 {
                lemma_covered_first(ls, 0, ls.len() as int);
            }
            r.lemma_left_whole();
            assert(ls.skip(0) =~= ls);
            assert(spans_of(r.rhs@).skip(0) =~= spans_of(r.rhs@));
        }
        r
    }

    /// Creates the combinator from two set types that list their ranges: the
    /// one that `from_iters` makes from their `intervals()`.
    pub fn new<A: Intervals<E>, B: Intervals<E>>(lhs: &A, rhs: &B) -> (r: Self)
        requires
            lhs.interval_inv(),
            rhs.interval_inv(),
        ensures
            r.stream_inv(),
            forall|x: int|
                r.pending(x) <==> (cover_set(lhs.interval_spans()).contains(x) && !cover_set(
                    rhs.interval_spans(),
                ).contains(x)),
            r.yields() == diff_yields(lhs.interval_spans(), rhs.interval_spans()),
    {
        Self::from_iters(lhs.intervals(), rhs.intervals())
    }

    /// The start of the current left-hand range.
    closed spec fn current_lo(&self) -> int {
        match self.next_min {
            Some(v) => v.ord(),
            None => spans_of(self.lhs@)[self.li as int].0,
        }
    }

    /// The left-hand spans still to be cut, the current one starting at
    /// `current_lo`.
    closed spec fn diff_left(&self) -> Seq<(int, int)> {
        if self.li < self.lhs@.len() {
            spans_of(self.lhs@).skip(self.li as int).update(
                0,
                (self.current_lo(), spans_of(self.lhs@)[self.li as int].1),
            )
        } else {
            Seq::empty()
        }
    }

    /// With nothing cut away yet, the spans still to be cut are the remaining
    /// left-hand spans.
    proof fn lemma_left_whole(&self)
        requires
            self.next_min is None,
            self.li <= self.lhs@.len(),
        ensures
            self.diff_left() == spans_of(self.lhs@).skip(self.li as int),
    {
        let ls = spans_of(self.lhs@);
        if self.li < self.lhs@.len() {
            assert(ls.skip(self.li as int).update(0, (ls[self.li as int].0, ls[self.li as int].1))
                =~= ls.skip(self.li as int));
        } else {
            assert(ls.skip(self.li as int) =~= Seq::<(int, int)>::empty());
        }
    }
}

impl<E: Adjacent> SortedRanges<E> for DiffIter<E> {
    closed spec fn stream_inv(&self) -> bool {
        &&& sorted_disjoint(spans_of(self.lhs@))
        &&& sorted_disjoint(spans_of(self.rhs@))
        &&& self.li <= self.lhs@.len()
        &&& self.ri <= self.rhs@.len()
        &&& self.next_min is Some ==> self.li < self.lhs@.len() && spans_of(self.lhs@)[self.li as int].0
            <= self.current_lo() <= spans_of(self.lhs@)[self.li as int].1
    }

    closed spec fn pending(&self, x: int) -> bool {
        &&& self.li < self.lhs@.len()
        &&& (self.current_lo() <= x <= spans_of(self.lhs@)[self.li as int].1 || covered_in(
            spans_of(self.lhs@),
            self.li + 1,
            self.lhs@.len() as int,
            x,
        ))
        &&& !covered_in(spans_of(self.rhs@), self.ri as int, self.rhs@.len() as int, x)
    }

    closed spec fn remaining(&self) -> nat {
        ((self.lhs@.len() - self.li) + (self.rhs@.len() - self.ri)) as nat
    }

    closed spec fn yields(&self) -> Seq<(int, int)> {
        diff_yields(self.diff_left(), spans_of(self.rhs@).skip(self.ri as int))
    }

    fn next(&mut self) -> (r: Option<RangeInclusive<E>>) {
        let ghost ls = spans_of(self.lhs@);
        let ghost rs = spans_of(self.rhs@);
        let ghost start = *self;
        let n = self.lhs.len();
        let m = self.rhs.len();
        loop
            invariant
                n == self.lhs@.len(),
                m == self.rhs@.len(),
                ls == spans_of(self.lhs@),
                rs == spans_of(self.rhs@),
                self.lhs == start.lhs,
                self.rhs == start.rhs,
                start == *old(self),
                self.stream_inv(),
                forall|x: int| #[trigger] start.pending(x) <==> self.pending(x),
                self.remaining() <= start.remaining(),
                start.yields() == self.yields(),
            decreases self.remaining(),
        {
            proof {
                E::ord_laws();
            }
            let ghost cur = *self;
            let li = self.li;
            let ri = self.ri;
            if li >= n {
                return None;
            }
            let cur_lo = match self.next_min {
                Some(v) => v,
                None => self.lhs[li].0,
            };
            let cur_hi = self.lhs[li].1;
            proof {
                assert(ls[li as int] == (self.lhs@[li as int].0.ord(), cur_hi.ord()));
                assert(cur_lo.ord() == cur.current_lo());
                lemma_covered_first(ls, li as int, n as int);
                lemma_sorted_bounds(ls, li as int, n as int);
                if li + 1 < n {
                    lemma_covered_first(ls, li + 1, n as int);
                }
                lemma_covered_empty(ls, n as int, n as int);
                lemma_covered_empty(rs, m as int, m as int);
                lemma_skip_front(ls, li as int);
                lemma_skip_front(rs, ri as int);
                let l = cur.diff_left();
                assert(l[0] == (cur_lo.ord(), cur_hi.ord()));
                assert(l.drop_first() =~= ls.skip(li + 1));
                assert(l.len() > 0);
            }
            if ri >= m {
                self.li = li + 1;
                self.next_min = None;
                proof {
                    self.lemma_left_whole();
                }
                assert(forall|x: int|
                    #[trigger] cur.pending(x) <==> (cur_lo.ord() <= x <= cur_hi.ord()
                        || self.pending(x)));
                assert(forall|x: int| #[trigger] self.pending(x) ==> cur_hi.ord() < x);
                return Some(RangeInclusive::new(cur_lo, cur_hi));
            }
            let r = self.rhs[ri];
            proof {
                assert(rs[ri as int] == (r.0.ord(), r.1.ord()));
                lemma_covered_first(rs, ri as int, m as int);
                lemma_sorted_bounds(rs, ri as int, m as int);
            }
            let o = overlap(&(cur_lo, cur_hi), &r);
            if o == RangeOrder::Less {
                self.li = li + 1;
                self.next_min = None;
                proof {
                    self.lemma_left_whole();
                }
                assert(forall|x: int|
                    #[trigger] cur.pending(x) <==> (cur_lo.ord() <= x <= cur_hi.ord()
                        || self.pending(x)));
                assert(forall|x: int| #[trigger] self.pending(x) ==> cur_hi.ord() < x);
                return Some(RangeInclusive::new(cur_lo, cur_hi));
            } else if o == RangeOrder::Greater {
                self.ri = ri + 1;
                assert(forall|x: int| #[trigger] cur.pending(x) <==> self.pending(x));
            } else if r.0 <= cur_lo && r.1 >= cur_hi {
                self.li = li + 1;
                self.next_min = None;
                proof {
                    self.lemma_left_whole();
                }
                assert(forall|x: int| #[trigger] cur.pending(x) <==> self.pending(x));
            } else if r.0 <= cur_lo {
                let succ = r.1.successor().unwrap();
                self.next_min = Some(succ);
                self.ri = ri + 1;
                proof {
                    assert(self.diff_left() =~= cur.diff_left().update(0, (succ.ord(), cur_hi.ord())));
                }
                assert(forall|x: int| #[trigger] cur.pending(x) <==> self.pending(x));
            } else if r.1 >= cur_hi {
                let pred = r.0.predecessor().unwrap();
                self.li = li + 1;
                self.next_min = None;
                proof {
                    self.lemma_left_whole();
                }
                assert(forall|x: int|
                    #[trigger] cur.pending(x) <==> (cur_lo.ord() <= x <= pred.ord()
                        || self.pending(x)));
                assert(forall|x: int| #[trigger] self.pending(x) ==> pred.ord() < x);
                return Some(RangeInclusive::new(cur_lo, pred));
            } else {
                let pred = r.0.predecessor().unwrap();
                let succ = r.1.successor().unwrap();
                self.next_min = Some(succ);
                self.ri = ri + 1;
                proof {
                    assert(self.diff_left() =~= cur.diff_left().update(0, (succ.ord(), cur_hi.ord())));
                }
                assert(forall|x: int|
                    #[trigger] cur.pending(x) <==> (cur_lo.ord() <= x <= pred.ord()
                        || self.pending(x)));
                assert(forall|x: int| #[trigger] self.pending(x) ==> pred.ord() < x);
                return Some(RangeInclusive::new(cur_lo, pred));
            }
        }
    }
}

} // verus!
