//! The integer model of a list of inclusive ranges: which integers it covers,
//! how it is ordered, and how many integers it covers.

use vstd::prelude::*;
use vstd::set_lib::{lemma_int_range, lemma_set_disjoint_lens, set_int_range};

verus! {

/// `x` lies in one of the spans `s[a]`, ..., `s[b - 1]`.
pub open spec fn covered_in(s: Seq<(int, int)>, a: int, b: int, x: int) -> bool {
    exists|i: int| #![trigger s[i]] a <= i < b && s[i].0 <= x <= s[i].1
}

/// `x` lies in one of the spans of `s`.
pub open spec fn covered(s: Seq<(int, int)>, x: int) -> bool {
    covered_in(s, 0, s.len() as int, x)
}

/// The set of integers that the spans of `s` cover.
pub open spec fn cover_set(s: Seq<(int, int)>) -> Set<int> {
    Set::new(|x: int| covered(s, x))
}

/// Every span is non-empty, and each span ends before the next one starts.
pub open spec fn sorted_disjoint(s: Seq<(int, int)>) -> bool {
    &&& forall|i: int| #![trigger s[i]] 0 <= i < s.len() ==> s[i].0 <= s[i].1
    &&& forall|i: int, j: int| #![trigger s[i], s[j]] 0 <= i < j < s.len() ==> s[i].1 < s[j].0
}

/// Sorted, disjoint, and with a gap of at least one integer between any two
/// spans: the canonical form of a set of integers as a list of spans.
pub open spec fn separated(s: Seq<(int, int)>) -> bool {
    &&& sorted_disjoint(s)
    &&& forall|i: int, j: int| #![trigger s[i], s[j]] 0 <= i < j < s.len() ==> s[i].1 + 1 < s[j].0
}

/// Every span is non-empty and the starts never decrease.
pub open spec fn starts_sorted(s: Seq<(int, int)>) -> bool {
    &&& forall|i: int| #![trigger s[i]] 0 <= i < s.len() ==> s[i].0 <= s[i].1
    &&& forall|i: int, j: int| #![trigger s[i], s[j]] 0 <= i < j < s.len() ==> s[i].0 <= s[j].0
}

/// The number of integers in the span `p`, counting only those below `x`.
pub open spec fn clipped_len(p: (int, int), x: int) -> int {
    if x <= p.0 {
        0
    } else if x <= p.1 {
        x - p.0
    } else {
        p.1 - p.0 + 1
    }
}

/// The number of integers covered by the spans of `s` that are below `x`
/// (counted with multiplicity where spans overlap).
pub open spec fn count_below(s: Seq<(int, int)>, x: int) -> int
    decreases s.len(),
{
    if s.len() == 0 {
        0
    } else {
        count_below(s.drop_last(), x) + clipped_len(s.last(), x)
    }
}

/// The number of integers covered by the spans of `s` (counted with
/// multiplicity where spans overlap).
pub open spec fn total(s: Seq<(int, int)>) -> int
    decreases s.len(),
{
    if s.len() == 0 {
        0
    } else {
        total(s.drop_last()) + (s.last().1 - s.last().0 + 1)
    }
}

/// Membership in `s[a..b]` splits off its first span.
pub proof fn lemma_covered_first(s: Seq<(int, int)>, a: int, b: int)
    requires
        a < b,
    ensures
        forall|x: int|
            #[trigger] covered_in(s, a, b, x) <==> (s[a].0 <= x <= s[a].1 || covered_in(
                s,
                a + 1,
                b,
                x,
            )),
{
    assert forall|x: int| #[trigger] covered_in(s, a, b, x) implies (s[a].0 <= x <= s[a].1
        || covered_in(s, a + 1, b, x)) by {
        let i = choose|i: int| #![trigger s[i]] a <= i < b && s[i].0 <= x <= s[i].1;
        if i != a {
            assert(covered_in(s, a + 1, b, x));
        }
    }
    assert forall|x: int|
        (s[a].0 <= x <= s[a].1 || covered_in(s, a + 1, b, x)) implies #[trigger] covered_in(
        s,
        a,
        b,
        x,
    ) by {
        if s[a].0 <= x <= s[a].1 {
            assert(a <= a < b && s[a].0 <= x <= s[a].1);
        } else {
            let i = choose|i: int| #![trigger s[i]] a + 1 <= i < b && s[i].0 <= x <= s[i].1;
            assert(a <= i < b && s[i].0 <= x <= s[i].1);
        }
    }
}

/// Membership in `s[a..b + 1]` splits off its last span.
pub proof fn lemma_covered_last(s: Seq<(int, int)>, a: int, b: int)
    requires
        a <= b,
    ensures
        forall|x: int|
            #[trigger] covered_in(s, a, b + 1, x) <==> (covered_in(s, a, b, x) || s[b].0 <= x
                <= s[b].1),
{
    assert forall|x: int| #[trigger] covered_in(s, a, b + 1, x) implies (covered_in(s, a, b, x)
        || s[b].0 <= x <= s[b].1) by {
        let i = choose|i: int| #![trigger s[i]] a <= i < b + 1 && s[i].0 <= x <= s[i].1;
        if i != b {
            assert(covered_in(s, a, b, x));
        }
    }
    assert forall|x: int|
        (covered_in(s, a, b, x) || s[b].0 <= x <= s[b].1) implies #[trigger] covered_in(
        s,
        a,
        b + 1,
        x,
    ) by {
        if s[b].0 <= x <= s[b].1 {
            assert(a <= b < b + 1 && s[b].0 <= x <= s[b].1);
        } else {
            let i = choose|i: int| #![trigger s[i]] a <= i < b && s[i].0 <= x <= s[i].1;
            assert(a <= i < b + 1 && s[i].0 <= x <= s[i].1);
        }
    }
}

/// Nothing lies in an empty stretch of spans.
pub proof fn lemma_covered_empty(s: Seq<(int, int)>, a: int, b: int)
    requires
        b <= a,
    ensures
        forall|x: int| !(#[trigger] covered_in(s, a, b, x)),
{
}

/// In a sorted, disjoint list, what lies after span `k` is above it, and what
/// lies from span `k` on is at least its start.
pub proof fn lemma_sorted_bounds(s: Seq<(int, int)>, k: int, b: int)
    requires
        sorted_disjoint(s),
        0 <= k < s.len(),
        b <= s.len(),
    ensures
        forall|x: int| #[trigger] covered_in(s, k + 1, b, x) ==> s[k].1 < x,
        forall|x: int| #[trigger] covered_in(s, k, b, x) ==> s[k].0 <= x,
{
    assert forall|x: int| #[trigger] covered_in(s, k + 1, b, x) implies s[k].1 < x by {
        let i = choose|i: int| #![trigger s[i]] k + 1 <= i < b && s[i].0 <= x <= s[i].1;
        assert(s[k].1 < s[i].0);
    }
    assert forall|x: int| #[trigger] covered_in(s, k, b, x) implies s[k].0 <= x by {
        let i = choose|i: int| #![trigger s[i]] k <= i < b && s[i].0 <= x <= s[i].1;
        if i != k {
            assert(s[k].1 < s[i].0);
        }
    }
}

/// Covering by a list with one more span at its end.
pub proof fn lemma_covered_push(s: Seq<(int, int)>, p: (int, int))
    ensures
        forall|x: int|
            #[trigger] covered(s.push(p), x) <==> (covered(s, x) || p.0 <= x <= p.1),
{
    let t = s.push(p);
    lemma_covered_last(t, 0, s.len() as int);
    assert forall|x: int| covered_in(t, 0, s.len() as int, x) <==> covered(s, x) by {
        if covered_in(t, 0, s.len() as int, x) {
            let i = choose|i: int| #![trigger t[i]] 0 <= i < s.len() && t[i].0 <= x <= t[i].1;
            assert(s[i] == t[i]);
        }
        if covered(s, x) {
            let i = choose|i: int| #![trigger s[i]] 0 <= i < s.len() && s[i].0 <= x <= s[i].1;
            assert(s[i] == t[i]);
        }
    }
}

/// Counting over a prefix grows by the clipped length of the next span.
pub proof fn lemma_count_below_take(s: Seq<(int, int)>, i: int, x: int)
    requires
        0 <= i < s.len(),
    ensures
        count_below(s.take(i + 1), x) == count_below(s.take(i), x) + clipped_len(s[i], x),
        total(s.take(i + 1)) == total(s.take(i)) + (s[i].1 - s[i].0 + 1),
{
    assert(s.take(i + 1).drop_last() =~= s.take(i));
}

/// Counting over the whole list is counting over the list taken whole.
pub proof fn lemma_take_all(s: Seq<(int, int)>)
    ensures
        s.take(s.len() as int) == s,
{
    assert(s.take(s.len() as int) =~= s);
}

/// Counts over prefixes never exceed the count over the whole list, for
/// non-empty spans.
pub proof fn lemma_count_prefix_le(s: Seq<(int, int)>, i: int, x: int)
    requires
        0 <= i <= s.len(),
        forall|k: int| #![trigger s[k]] 0 <= k < s.len() ==> s[k].0 <= s[k].1,
    ensures
        0 <= count_below(s.take(i), x) <= count_below(s, x),
        0 <= total(s.take(i)) <= total(s),
    decreases s.len() - i,
{
    assert forall|k: int| #![trigger s.take(i)[k]] 0 <= k < s.take(i).len() implies s.take(i)[k].0
        <= s.take(i)[k].1 by {
        assert(s.take(i)[k] == s[k]);
    }
    lemma_count_nonneg(s.take(i), x);
    if i == s.len() {
        lemma_take_all(s);
    } else {
        lemma_count_prefix_le(s, i + 1, x);
        lemma_count_below_take(s, i, x);
        assert(s[i].0 <= s[i].1);
    }
}

/// Counts over non-empty spans are non-negative.
pub proof fn lemma_count_nonneg(s: Seq<(int, int)>, x: int)
    requires
        forall|k: int| #![trigger s[k]] 0 <= k < s.len() ==> s[k].0 <= s[k].1,
    ensures
        count_below(s, x) >= 0,
        total(s) >= 0,
    decreases s.len(),
{
    if s.len() > 0 {
        assert(s.drop_last().len() < s.len());
        assert forall|k: int| #![trigger s.drop_last()[k]] 0 <= k < s.drop_last().len() implies s.drop_last()[k].0
            <= s.drop_last()[k].1 by {
            assert(s.drop_last()[k] == s[k]);
        }
        lemma_count_nonneg(s.drop_last(), x);
    }
}

/// Spans that start at or above `x` add nothing below `x`.
pub proof fn lemma_count_tail_zero(s: Seq<(int, int)>, i: int, x: int)
    requires
        0 <= i <= s.len(),
        forall|k: int| #![trigger s[k]] i <= k < s.len() ==> x <= s[k].0,
    ensures
        count_below(s, x) == count_below(s.take(i), x),
    decreases s.len() - i,
{
    if i == s.len() {
        lemma_take_all(s);
    } else {
        lemma_count_tail_zero(s, i + 1, x);
        lemma_count_below_take(s, i, x);
    }
}

/// Below a value above every span, counting is the total.
pub proof fn lemma_count_all_below(s: Seq<(int, int)>, x: int)
    requires
        forall|k: int| #![trigger s[k]] 0 <= k < s.len() ==> s[k].0 <= s[k].1 < x,
    ensures
        count_below(s, x) == total(s),
    decreases s.len(),
{
    if s.len() > 0 {
        assert forall|k: int| #![trigger s.drop_last()[k]] 0 <= k < s.drop_last().len() implies s.drop_last()[k].1
            < x && s.drop_last()[k].0 <= s.drop_last()[k].1 by {
            assert(s.drop_last()[k] == s[k]);
        }
        assert(s[s.len() - 1].1 < x);
        lemma_count_all_below(s.drop_last(), x);
    }
}

/// What lies in a stretch of spans lies in the whole list.
pub proof fn lemma_covered_sub(s: Seq<(int, int)>, a: int, b: int)
    requires
        0 <= a,
        b <= s.len(),
    ensures
        forall|x: int| #[trigger] covered_in(s, a, b, x) ==> covered(s, x),
{
    assert forall|x: int| #[trigger] covered_in(s, a, b, x) implies covered(s, x) by {
        let i = choose|i: int| #![trigger s[i]] a <= i < b && s[i].0 <= x <= s[i].1;
        assert(0 <= i < s.len() && s[i].0 <= x <= s[i].1);
    }
}

/// The prefix of a list keeps its first spans.
pub proof fn lemma_take_index(s: Seq<(int, int)>, i: int)
    requires
        0 <= i <= s.len(),
    ensures
        forall|k: int| #![trigger s.take(i)[k]] 0 <= k < i ==> s.take(i)[k] == s[k],
{
}

/// The covered integers below `x`.
pub open spec fn below_set(s: Seq<(int, int)>, x: int) -> Set<int> {
    Set::new(|y: int| covered(s, y) && y < x)
}

/// Covering by a list is covering by all but its last span, or by that span.
pub proof fn lemma_covered_drop_last(s: Seq<(int, int)>)
    requires
        s.len() > 0,
    ensures
        forall|x: int|
            #[trigger] covered(s, x) <==> (covered(s.drop_last(), x) || s.last().0 <= x
                <= s.last().1),
{
    let d = s.drop_last();
    lemma_covered_last(s, 0, s.len() - 1);
    assert forall|x: int| covered_in(s, 0, s.len() - 1, x) <==> covered(d, x) by {
        if covered_in(s, 0, s.len() - 1, x) {
            let i = choose|i: int| #![trigger s[i]] 0 <= i < s.len() - 1 && s[i].0 <= x <= s[i].1;
            assert(d[i] == s[i]);
        }
        if covered(d, x) {
            let i = choose|i: int| #![trigger d[i]] 0 <= i < d.len() && d[i].0 <= x <= d[i].1;
            assert(d[i] == s[i]);
        }
    }
}

/// For sorted, disjoint spans, the covered integers below `x` form a finite
/// set with `count_below(s, x)` members.
pub proof fn lemma_below_set_len(s: Seq<(int, int)>, x: int)
    requires
        sorted_disjoint(s),
    ensures
        below_set(s, x).finite(),
        below_set(s, x).len() == count_below(s, x),
    decreases s.len(),
{
    if s.len() == 0 {
        assert(below_set(s, x) =~= Set::<int>::empty());
    } else {
        let d = s.drop_last();
        let p = s.last();
        assert(sorted_disjoint(d)) by {
            assert forall|i: int, j: int| 0 <= i < j < d.len() implies #[trigger] d[i].1
                < #[trigger] d[j].0 by {
                assert(d[i] == s[i] && d[j] == s[j]);
            }
            assert forall|i: int| 0 <= i < d.len() implies #[trigger] d[i].0 <= d[i].1 by {
                assert(d[i] == s[i]);
            }
        }
        lemma_below_set_len(d, x);
        lemma_covered_drop_last(s);
        assert(p == s[s.len() - 1]);
        assert(p.0 <= p.1);
        let m = if x <= p.0 {
            p.0
        } else if x <= p.1 {
            x
        } else {
            p.1 + 1
        };
        let r = set_int_range(p.0, m);
        lemma_int_range(p.0, m);
        assert forall|y: int| #[trigger] covered(d, y) implies y < p.0 by {
            let i = choose|i: int| #![trigger d[i]] 0 <= i < d.len() && d[i].0 <= y <= d[i].1;
            assert(d[i] == s[i]);
            assert(s[i].1 < s[s.len() - 1].0);
        }
        assert(below_set(s, x) =~= below_set(d, x) + r);
        assert(below_set(d, x).disjoint(r));
        lemma_set_disjoint_lens(below_set(d, x), r);
    }
}

/// For sorted, disjoint spans, the covered integers form a finite set with
/// `total(s)` members.
pub proof fn lemma_cover_set_len(s: Seq<(int, int)>)
    requires
        sorted_disjoint(s),
    ensures
        cover_set(s).finite(),
        cover_set(s).len() == total(s),
{
    if s.len() == 0 {
        assert(cover_set(s) =~= Set::<int>::empty());
    } else {
        let x = s[s.len() - 1].1 + 1;
        assert forall|k: int| #![trigger s[k]] 0 <= k < s.len() implies s[k].0 <= s[k].1 < x by {
            if k < s.len() - 1 {
                assert(s[k].1 < s[s.len() - 1].0);
            }
        }
        lemma_count_all_below(s, x);
        lemma_below_set_len(s, x);
        assert forall|y: int| #[trigger] covered(s, y) implies y < x by {
            let i = choose|i: int| #![trigger s[i]] 0 <= i < s.len() && s[i].0 <= y <= s[i].1;
        }
        assert(cover_set(s) =~= below_set(s, x));
    }
}

/// Covering by a list without its first span is covering from index one.
pub proof fn lemma_covered_drop_first(s: Seq<(int, int)>)
    requires
        s.len() > 0,
    ensures
        forall|x: int| #[trigger] covered(s.drop_first(), x) <==> covered_in(s, 1, s.len() as int, x),
        separated(s) ==> separated(s.drop_first()),
{
    let d = s.drop_first();
    assert forall|x: int| #[trigger] covered(d, x) <==> covered_in(s, 1, s.len() as int, x) by {
        if covered(d, x) {
            let i = choose|i: int| #![trigger d[i]] 0 <= i < d.len() && d[i].0 <= x <= d[i].1;
            assert(d[i] == s[i + 1]);
        }
        if covered_in(s, 1, s.len() as int, x) {
            let i = choose|i: int| #![trigger s[i]] 1 <= i < s.len() && s[i].0 <= x <= s[i].1;
            assert(d[i - 1] == s[i]);
        }
    }
    if separated(s) {
        assert forall|i: int, j: int| 0 <= i < j < d.len() implies #[trigger] d[i].1 + 1
            < #[trigger] d[j].0 by {
            assert(d[i] == s[i + 1] && d[j] == s[j + 1]);
        }
        assert forall|i: int| 0 <= i < d.len() implies #[trigger] d[i].0 <= d[i].1 by {
            assert(d[i] == s[i + 1]);
        }
    }
}

/// Separated spans are determined by the integers they cover: the canonical
/// form of a set of integers is unique.
pub proof fn lemma_separated_unique(a: Seq<(int, int)>, b: Seq<(int, int)>)
    requires
        separated(a),
        separated(b),
        cover_set(a) == cover_set(b),
    ensures
        a == b,
    decreases a.len() + b.len(),
{
    if a.len() == 0 || b.len() == 0 {
        if a.len() > 0 {
            assert(cover_set(a).contains(a[0].0));
        }
        if b.len() > 0 {
            assert(cover_set(b).contains(b[0].0));
        }
        assert(a =~= b);
    } else {
        let na = a.len() as int;
        let nb = b.len() as int;
        lemma_covered_first(a, 0, na);
        lemma_covered_first(b, 0, nb);
        lemma_sorted_bounds(a, 0, na);
        lemma_sorted_bounds(b, 0, nb);
        assert(cover_set(a).contains(a[0].0));
        assert(cover_set(b).contains(b[0].0));
        assert(a[0].0 == b[0].0);
        assert(forall|x: int| #[trigger] covered_in(a, 1, na, x) ==> a[0].1 + 1 < x) by {
            assert forall|x: int| #[trigger] covered_in(a, 1, na, x) implies a[0].1 + 1 < x by {
                let i = choose|i: int| #![trigger a[i]] 1 <= i < na && a[i].0 <= x <= a[i].1;
                assert(a[0].1 + 1 < a[i].0);
            }
        }
        assert(forall|x: int| #[trigger] covered_in(b, 1, nb, x) ==> b[0].1 + 1 < x) by {
            assert forall|x: int| #[trigger] covered_in(b, 1, nb, x) implies b[0].1 + 1 < x by {
                let i = choose|i: int| #![trigger b[i]] 1 <= i < nb && b[i].0 <= x <= b[i].1;
                assert(b[0].1 + 1 < b[i].0);
            }
        }
        if a[0].1 < b[0].1 {
            assert(cover_set(b).contains(a[0].1 + 1));
            assert(!covered(a, a[0].1 + 1));
        }
        if b[0].1 < a[0].1 {
            assert(cover_set(a).contains(b[0].1 + 1));
            assert(!covered(b, b[0].1 + 1));
        }
        assert(a[0] == b[0]);
        lemma_covered_drop_first(a);
        lemma_covered_drop_first(b);
        assert forall|x: int| cover_set(a.drop_first()).contains(x) <==> cover_set(
            b.drop_first(),
        ).contains(x) by {
            assert(cover_set(a).contains(x) == cover_set(b).contains(x));
            assert(cover_set(a).contains(x) == covered(a, x));
            assert(cover_set(b).contains(x) == covered(b, x));
            assert(covered(a.drop_first(), x) == covered_in(a, 1, na, x));
            assert(covered(b.drop_first(), x) == covered_in(b, 1, nb, x));
            assert(covered_in(a, 0, na, x) == (a[0].0 <= x <= a[0].1 || covered_in(a, 1, na, x)));
            assert(covered_in(b, 0, nb, x) == (b[0].0 <= x <= b[0].1 || covered_in(b, 1, nb, x)));
            if covered_in(a, 1, na, x) {
                assert(a[0].1 + 1 < x);
                assert(covered_in(a, 0, na, x));
                assert(covered_in(b, 0, nb, x));
                assert(covered_in(b, 1, nb, x));
            }
            if covered_in(b, 1, nb, x) {
                assert(b[0].1 + 1 < x);
                assert(covered_in(a, 1, na, x));
            }
        }
        assert(cover_set(a.drop_first()) =~= cover_set(b.drop_first()));
        lemma_separated_unique(a.drop_first(), b.drop_first());
        assert(a =~= seq![a[0]] + a.drop_first());
        assert(b =~= seq![b[0]] + b.drop_first());
    }
}

/// Covering by a list is covering by its first `mid` spans or by the rest.
pub proof fn lemma_covered_halves(s: Seq<(int, int)>, mid: int)
    requires
        0 <= mid <= s.len(),
    ensures
        forall|x: int|
            #[trigger] covered(s, x) <==> (covered(s.subrange(0, mid), x) || covered(
                s.subrange(mid, s.len() as int),
                x,
            )),
{
    let l = s.subrange(0, mid);
    let r = s.subrange(mid, s.len() as int);
    assert forall|x: int| #[trigger] covered(s, x) implies (covered(l, x) || covered(r, x)) by {
        let i = choose|i: int| #![trigger s[i]] 0 <= i < s.len() && s[i].0 <= x <= s[i].1;
        if i < mid {
            assert(l[i] == s[i]);
        } else {
            assert(r[i - mid] == s[i]);
        }
    }
    assert forall|x: int| (covered(l, x) || covered(r, x)) implies #[trigger] covered(s, x) by {
        if covered(l, x) {
            let i = choose|i: int| #![trigger l[i]] 0 <= i < l.len() && l[i].0 <= x <= l[i].1;
            assert(l[i] == s[i]);
        } else {
            let i = choose|i: int| #![trigger r[i]] 0 <= i < r.len() && r[i].0 <= x <= r[i].1;
            assert(r[i] == s[i + mid]);
        }
    }
}

/// Every count below the total is reached at some covered position.
pub proof fn lemma_count_below_hits(s: Seq<(int, int)>, p: int)
    requires
        sorted_disjoint(s),
        0 <= p < total(s),
    ensures
        exists|v: int| covered(s, v) && count_below(s, v) == p,
    decreases s.len(),
{
    let d = s.drop_last();
    let last = s.last();
    assert forall|k: int| 0 <= k < d.len() implies #[trigger] d[k] == s[k] by {
    }
    assert(sorted_disjoint(d)) by {
        assert forall|i: int, j: int| #![trigger d[i], d[j]] 0 <= i < j < d.len() implies d[i].1 < d[j].0 by {
            assert(d[i] == s[i] && d[j] == s[j]);
        }
        assert forall|i: int| #![trigger d[i]] 0 <= i < d.len() implies d[i].0 <= d[i].1 by {
            assert(d[i] == s[i]);
        }
    }
    lemma_count_nonneg(d, 0);
    assert(last == s[s.len() - 1]);
    if p < total(d) {
        lemma_count_below_hits(d, p);
        let v = choose|v: int| covered(d, v) && count_below(d, v) == p;
        let j = choose|j: int| #![trigger d[j]] 0 <= j < d.len() && d[j].0 <= v <= d[j].1;
        assert(s[j].1 < s[s.len() - 1].0);
        assert(clipped_len(last, v) == 0);
        assert(covered(s, v)) by {
            assert(s[j] == d[j]);
        }
    } else {
        let v = last.0 + (p - total(d));
        assert forall|k: int| #![trigger d[k]] 0 <= k < d.len() implies d[k].0 <= d[k].1 < v by {
            assert(d[k] == s[k]);
            assert(s[k].1 < s[s.len() - 1].0);
        }
        lemma_count_all_below(d, v);
        assert(count_below(s, v) == p);
        assert(covered(s, v)) by {
            assert(s[s.len() - 1].0 <= v <= s[s.len() - 1].1);
        }
    }
}

/// Every span of `s` holds a single position.
pub open spec fn singletons(s: Seq<(int, int)>) -> bool {
    forall|i: int| #![trigger s[i]] 0 <= i < s.len() ==> s[i].0 == s[i].1
}

/// The positions of `set` in increasing order, each as a span of its own.
pub open spec fn singleton_spans(set: Set<int>) -> Seq<(int, int)> {
    choose|q: Seq<(int, int)>| sorted_disjoint(q) && singletons(q) && cover_set(q) == set
}

/// Sorted, disjoint spans of one position each are determined by the
/// positions they cover.
pub proof fn lemma_singletons_unique(a: Seq<(int, int)>, b: Seq<(int, int)>)
    requires
        sorted_disjoint(a),
        sorted_disjoint(b),
        singletons(a),
        singletons(b),
        cover_set(a) == cover_set(b),
    ensures
        a == b,
    decreases a.len() + b.len(),
{
    if a.len() == 0 || b.len() == 0 {
        if a.len() > 0 {
            assert(cover_set(a).contains(a[0].0));
        }
        if b.len() > 0 {
            assert(cover_set(b).contains(b[0].0));
        }
        assert(a =~= b);
    } else {
        let na = a.len() as int;
        let nb = b.len() as int;
        assert(cover_set(a).contains(a[0].0));
        assert(cover_set(b).contains(b[0].0));
        assert(a[0].0 == b[0].0) by {
            let i = choose|i: int| #![trigger b[i]] 0 <= i < nb && b[i].0 <= a[0].0 <= b[i].1;
            let j = choose|j: int| #![trigger a[j]] 0 <= j < na && a[j].0 <= b[0].0 <= a[j].1;
            if i > 0 {
                assert(b[0].1 < b[i].0);
            }
            if j > 0 {
                assert(a[0].1 < a[j].0);
            }
        }
        lemma_covered_drop_first(a);
        lemma_covered_drop_first(b);
        let da = a.drop_first();
        let db = b.drop_first();
        assert forall|i: int, j: int| #![trigger da[i], da[j]] 0 <= i < j < da.len() implies da[i].1
            < da[j].0 by {
            assert(da[i] == a[i + 1] && da[j] == a[j + 1]);
        }
        assert forall|i: int| #![trigger da[i]] 0 <= i < da.len() implies da[i].0 == da[i].1 by {
            assert(da[i] == a[i + 1]);
        }
        assert forall|i: int, j: int| #![trigger db[i], db[j]] 0 <= i < j < db.len() implies db[i].1
            < db[j].0 by {
            assert(db[i] == b[i + 1] && db[j] == b[j + 1]);
        }
        assert forall|i: int| #![trigger db[i]] 0 <= i < db.len() implies db[i].0 == db[i].1 by {
            assert(db[i] == b[i + 1]);
        }
        assert forall|x: int| cover_set(da).contains(x) <==> cover_set(db).contains(x) by {
            assert(cover_set(a).contains(x) == cover_set(b).contains(x));
            if covered_in(a, 1, na, x) {
                let i = choose|i: int| #![trigger a[i]] 1 <= i < na && a[i].0 <= x <= a[i].1;
                assert(a[0].1 < a[i].0);
                assert(covered(a, x));
                assert(cover_set(a).contains(x));
                assert(covered(b, x));
                let j = choose|j: int| #![trigger b[j]] 0 <= j < nb && b[j].0 <= x <= b[j].1;
                assert(j != 0);
                assert(covered_in(b, 1, nb, x));
            }
            if covered_in(b, 1, nb, x) {
                let i = choose|i: int| #![trigger b[i]] 1 <= i < nb && b[i].0 <= x <= b[i].1;
                assert(b[0].1 < b[i].0);
                assert(covered(b, x));
                assert(cover_set(b).contains(x));
                assert(covered(a, x));
                let j = choose|j: int| #![trigger a[j]] 0 <= j < na && a[j].0 <= x <= a[j].1;
                assert(j != 0);
                assert(covered_in(a, 1, na, x));
            }
        }
        assert(cover_set(da) =~= cover_set(db));
        lemma_singletons_unique(da, db);
        assert(a =~= seq![a[0]] + da);
        assert(b =~= seq![b[0]] + db);
    }
}

/// A list of sorted, disjoint, one-position spans is the one that
/// `singleton_spans` names for the positions it covers.
pub proof fn lemma_singleton_spans_of(q: Seq<(int, int)>)
    requires
        sorted_disjoint(q),
        singletons(q),
    ensures
        singleton_spans(cover_set(q)) == q,
{
    let c = choose|p: Seq<(int, int)>| sorted_disjoint(p) && singletons(p) && cover_set(p) == cover_set(q);
    lemma_singletons_unique(c, q);
}

/// A list is its first span followed by the rest: what each part covers, and
/// how the rest of a sorted, disjoint list lies above the first span.
pub proof fn lemma_cover_front(l: Seq<(int, int)>)
    requires
        l.len() > 0,
    ensures
        forall|x: int|
            #[trigger] covered(l, x) <==> (l[0].0 <= x <= l[0].1 || covered(l.drop_first(), x)),
        sorted_disjoint(l) ==> sorted_disjoint(l.drop_first()),
        sorted_disjoint(l) ==> forall|x: int| #[trigger] covered(l.drop_first(), x) ==> l[0].1 < x,
        sorted_disjoint(l) ==> forall|x: int| #[trigger] covered(l, x) ==> l[0].0 <= x,
{
    let n = l.len() as int;
    lemma_covered_first(l, 0, n);
    lemma_covered_drop_first(l);
    let d = l.drop_first();
    if sorted_disjoint(l) {
        lemma_sorted_bounds(l, 0, n);
        assert forall|i: int, j: int| #![trigger d[i], d[j]] 0 <= i < j < d.len() implies d[i].1
            < d[j].0 by {
            assert(d[i] == l[i + 1] && d[j] == l[j + 1]);
        }
        assert forall|i: int| #![trigger d[i]] 0 <= i < d.len() implies d[i].0 <= d[i].1 by {
            assert(d[i] == l[i + 1]);
        }
    }
}

/// A span put in front of a list: what the result covers, and when it is
/// sorted and disjoint.
pub proof fn lemma_cover_cons(p: (int, int), rest: Seq<(int, int)>)
    ensures
        forall|x: int| #[trigger] covered(seq![p] + rest, x) <==> (p.0 <= x <= p.1 || covered(rest, x)),
        p.0 <= p.1 && sorted_disjoint(rest) && (forall|x: int| #[trigger] covered(rest, x) ==> p.1 < x)
            ==> sorted_disjoint(seq![p] + rest),
{
    let q = seq![p] + rest;
    assert(q[0] == p);
    assert(q.drop_first() =~= rest);
    lemma_cover_front(q);
    if p.0 <= p.1 && sorted_disjoint(rest) && (forall|x: int| #[trigger] covered(rest, x) ==> p.1 < x) {
        assert forall|i: int, j: int| #![trigger q[i], q[j]] 0 <= i < j < q.len() implies q[i].1
            < q[j].0 by {
            assert(q[j] == rest[j - 1]);
            if i == 0 {
                assert(covered(rest, rest[j - 1].0));
            } else {
                assert(q[i] == rest[i - 1]);
            }
        }
        assert forall|i: int| #![trigger q[i]] 0 <= i < q.len() implies q[i].0 <= q[i].1 by {
            if i > 0 {
                assert(q[i] == rest[i - 1]);
            }
        }
    }
}

} // verus!
