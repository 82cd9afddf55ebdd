//! Text forms of range lists: decimal numbers, the `a..b union c..d` display
//! form and the `RangeList::from_iter([a..=b, ...])` debug form.

use vstd::prelude::*;
use vstd::string::StringExecFns;
use crate::num_traits::Ordinal;
use crate::range_list::RangeList;

verus! {

/// The decimal digit `d` as a character.
pub open spec fn digit_char(d: int) -> char {
    if d == 0 {
        '0'
    } else if d == 1 {
        '1'
    } else if d == 2 {
        '2'
    } else if d == 3 {
        '3'
    } else if d == 4 {
        '4'
    } else if d == 5 {
        '5'
    } else if d == 6 {
        '6'
    } else if d == 7 {
        '7'
    } else if d == 8 {
        '8'
    } else {
        '9'
    }
}

/// The decimal digits of a natural number, most significant first.
pub open spec fn digits(n: nat) -> Seq<char>
    decreases n,
{
    if n < 10 {
        seq![digit_char(n as int)]
    } else {
        digits(n / 10).push(digit_char((n % 10) as int))
    }
}

/// The decimal form of an integer, with a leading `-` when negative.
pub open spec fn decimal(v: int) -> Seq<char> {
    if v < 0 {
        seq!['-'] + digits((-v) as nat)
    } else {
        digits(v as nat)
    }
}

/// The value of a decimal digit character (`0` for any other character).
pub open spec fn digit_value(c: char) -> int {
    if c == '1' {
        1
    } else if c == '2' {
        2
    } else if c == '3' {
        3
    } else if c == '4' {
        4
    } else if c == '5' {
        5
    } else if c == '6' {
        6
    } else if c == '7' {
        7
    } else if c == '8' {
        8
    } else if c == '9' {
        9
    } else {
        0
    }
}

/// `c` is one of `0` to `9`.
pub open spec fn is_digit(c: char) -> bool {
    c == '0' || c == '1' || c == '2' || c == '3' || c == '4' || c == '5' || c == '6' || c == '7'
        || c == '8' || c == '9'
}

/// The number that a string of decimal digits denotes, read from the left.
pub open spec fn read_digits(cs: Seq<char>) -> int
    decreases cs.len(),
{
    if cs.len() == 0 {
        0
    } else {
        read_digits(cs.drop_last()) * 10 + digit_value(cs.last())
    }
}

/// The integer that a decimal text denotes: digits, after a `-` when
/// negative.
pub open spec fn read_decimal(cs: Seq<char>) -> int {
    if cs.len() > 0 && cs[0] == '-' {
        -read_digits(cs.drop_first())
    } else {
        read_digits(cs)
    }
}

/// The digits of `n` are the shortest decimal text of `n`: all of them are
/// digits, the first is `0` only for zero itself, and they read back as `n`.
pub proof fn lemma_digits_read_back(n: nat)
    ensures
        digits(n).len() > 0,
        forall|i: int| 0 <= i < digits(n).len() ==> is_digit(#[trigger] digits(n)[i]),
        digits(n)[0] == '0' ==> n == 0,
        read_digits(digits(n)) == n,
    decreases n,
{
    if n < 10 {
        assert(digits(n) =~= seq![digit_char(n as int)]);
        assert(digits(n).drop_last() =~= Seq::<char>::empty());
        assert(digit_value(digit_char(n as int)) == n);
        assert(read_digits(digits(n)) == read_digits(Seq::<char>::empty()) * 10 + digit_value(
            digit_char(n as int),
        ));
    } else {
        let q = (n / 10) as nat;
        let d = (n % 10) as int;
        lemma_digits_read_back(q);
        assert(q > 0);
        assert(digits(n) == digits(q).push(digit_char(d)));
        assert(digits(n).drop_last() =~= digits(q));
        assert(n == q * 10 + d) by (nonlinear_arith)
            requires
                q == n / 10,
                d == n % 10,
        ;
        assert forall|i: int| 0 <= i < digits(n).len() implies is_digit(#[trigger] digits(n)[i]) by {
            if i < digits(q).len() {
                assert(digits(n)[i] == digits(q)[i]);
            }
        }
        assert(digits(n)[0] == digits(q)[0]);
        assert(0 <= d < 10);
        assert(digit_value(digit_char(d)) == d);
        assert(digits(n).last() == digit_char(d));
        assert(read_digits(digits(n)) == read_digits(digits(q)) * 10 + digit_value(digit_char(d)));
    }
}

/// The decimal text of `v` reads back as `v`, with a `-` exactly when `v` is
/// negative and no leading zero.
pub proof fn lemma_decimal_read_back(v: int)
    ensures
        read_decimal(decimal(v)) == v,
        decimal(v).len() > 0,
        (decimal(v)[0] == '-') == (v < 0),
        v >= 0 ==> (decimal(v)[0] == '0' ==> v == 0),
        v < 0 ==> decimal(v).len() > 1 && decimal(v)[1] != '0',
{
    if v < 0 {
        lemma_digits_read_back((-v) as nat);
        assert(decimal(v).drop_first() =~= digits((-v) as nat));
        assert(decimal(v)[1] == digits((-v) as nat)[0]);
    } else {
        lemma_digits_read_back(v as nat);
        assert(is_digit(digits(v as nat)[0]));
    }
}

/// The text `lo..hi` of a span, as the display form writes it.
pub open spec fn span_display(p: (int, int)) -> Seq<char> {
    decimal(p.0) + seq!['.', '.'] + decimal(p.1)
}

/// The text `lo..=hi` of a span, as the debug form writes it.
pub open spec fn span_debug(p: (int, int)) -> Seq<char> {
    decimal(p.0) + seq!['.', '.', '='] + decimal(p.1)
}

/// The display texts of the spans of `s`, joined by ` union `.
pub open spec fn joined_display(s: Seq<(int, int)>) -> Seq<char>
    decreases s.len(),
{
    if s.len() == 0 {
        Seq::empty()
    } else if s.len() == 1 {
        span_display(s[0])
    } else {
        joined_display(s.drop_last()) + seq![' ', 'u', 'n', 'i', 'o', 'n', ' '] + span_display(
            s.last(),
        )
    }
}

/// The debug texts of the spans of `s`, joined by `, `.
pub open spec fn joined_debug(s: Seq<(int, int)>) -> Seq<char>
    decreases s.len(),
{
    if s.len() == 0 {
        Seq::empty()
    } else if s.len() == 1 {
        span_debug(s[0])
    } else {
        joined_debug(s.drop_last()) + seq![',', ' '] + span_debug(s.last())
    }
}

/// The display form of a list of spans: the spans joined by ` union `, or
/// `1..0` when there are none.
pub open spec fn display_text(s: Seq<(int, int)>) -> Seq<char> {
    if s.len() == 0 {
        seq!['1', '.', '.', '0']
    } else {
        joined_display(s)
    }
}

/// The debug form of a list of spans, written as the expression that builds
/// the range list.
pub open spec fn debug_text(s: Seq<(int, int)>) -> Seq<char> {
    if s.len() == 0 {
        "RangeList::default()"@
    } else if s.len() == 1 {
        "RangeList::from("@ + span_debug(s[0]) + ")"@
    } else {
        "RangeList::from_iter(["@ + joined_debug(s) + "])"@
    }
}

/// The display text of a range list: `1..0` when it is empty, `lo..hi` in
/// decimal for a single range, and, for a non-empty list extended by a range
/// at its end, the list's text followed by ` union ` and that range as
/// `lo..hi`.
pub proof fn lemma_display_text_shape(s: Seq<(int, int)>, p: (int, int))
    ensures
        display_text(Seq::empty()) == "1..0"@,
        display_text(seq![p]) == decimal(p.0) + ".."@ + decimal(p.1),
        s.len() > 0 ==> display_text(s.push(p)) == display_text(s) + " union "@ + decimal(p.0)
            + ".."@ + decimal(p.1),
{
    reveal_strlit("1..0");
    reveal_strlit("..");
    reveal_strlit(" union ");
    assert(display_text(Seq::empty()) =~= "1..0"@);
    assert(display_text(seq![p]) =~= decimal(p.0) + ".."@ + decimal(p.1));
    if s.len() > 0 {
        assert(s.push(p).drop_last() =~= s);
        assert(display_text(s.push(p)) =~= display_text(s) + " union "@ + decimal(p.0) + ".."@
            + decimal(p.1));
    }
}

/// The debug text of a range list: `RangeList::default()` when it is empty,
/// `RangeList::from(lo..=hi)` for a single range, the ranges listed in order
/// inside `RangeList::from_iter([..])` for two, and, for a list of two or
/// more extended by a range at its end, the list's text with `, lo..=hi`
/// put before the closing `])`.
pub proof fn lemma_debug_text_shape(s: Seq<(int, int)>, p: (int, int), q: (int, int))
    ensures
        debug_text(Seq::empty()) == "RangeList::default()"@,
        debug_text(seq![p]) == "RangeList::from("@ + decimal(p.0) + "..="@ + decimal(p.1) + ")"@,
        debug_text(seq![p, q]) == "RangeList::from_iter(["@ + decimal(p.0) + "..="@ + decimal(p.1)
            + ", "@ + decimal(q.0) + "..="@ + decimal(q.1) + "])"@,
        s.len() >= 2 ==> debug_text(s.push(p)) == debug_text(s).subrange(
            0,
            debug_text(s).len() - 2,
        ) + ", "@ + decimal(p.0) + "..="@ + decimal(p.1) + "])"@,
{
    reveal_strlit("RangeList::default()");
    reveal_strlit("RangeList::from(");
    reveal_strlit("RangeList::from_iter([");
    reveal_strlit("..=");
    reveal_strlit(")");
    reveal_strlit(", ");
    reveal_strlit("])");
    assert(debug_text(seq![p]) =~= "RangeList::from("@ + decimal(p.0) + "..="@ + decimal(p.1)
        + ")"@);
    let pq = seq![p, q];
    assert(pq.drop_last() =~= seq![p]);
    assert(pq.last() == q);
    assert(joined_debug(seq![p]) == span_debug(p));
    assert(joined_debug(pq) == joined_debug(seq![p]) + seq![',', ' '] + span_debug(q));
    assert(", "@ =~= seq![',', ' ']);
    assert(debug_text(pq) =~= "RangeList::from_iter(["@ + decimal(p.0) + "..="@ + decimal(p.1)
        + ", "@ + decimal(q.0) + "..="@ + decimal(q.1) + "])"@);
    if s.len() >= 2 {
        assert(s.push(p).drop_last() =~= s);
        let t = debug_text(s);
        assert(t =~= "RangeList::from_iter(["@ + joined_debug(s) + "])"@);
        assert(t.subrange(0, t.len() - 2) =~= "RangeList::from_iter(["@ + joined_debug(s));
        assert(debug_text(s.push(p)) =~= t.subrange(0, t.len() - 2) + ", "@ + decimal(p.0)
            + "..="@ + decimal(p.1) + "])"@);
    }
}

/// Appends one decimal digit.
fn push_digit(s: &mut String, d: u8)
    requires
        d < 10,
    ensures
        final(s)@ == old(s)@.push(digit_char(d as int)),
{
    let lit = match d {
        0 => "0",
        1 => "1",
        2 => "2",
        3 => "3",
        4 => "4",
        5 => "5",
        6 => "6",
        7 => "7",
        8 => "8",
        _ => "9",
    };
    proof {
        reveal_strlit("0");
        reveal_strlit("1");
        reveal_strlit("2");
        reveal_strlit("3");
        reveal_strlit("4");
        reveal_strlit("5");
        reveal_strlit("6");
        reveal_strlit("7");
        reveal_strlit("8");
        reveal_strlit("9");
    }
    s.append(lit);
    assert(s@ =~= old(s)@.push(digit_char(d as int)));
}

/// Appends the decimal digits of `n`.
fn push_digits(s: &mut String, n: u128)
    ensures
        final(s)@ == old(s)@ + digits(n as nat),
    decreases n,
{
    if n >= 10 {
        push_digits(s, n / 10);
    }
    push_digit(s, (n % 10) as u8);
    assert(s@ =~= old(s)@ + digits(n as nat));
}

/// Appends the decimal form of the position of `e`.
fn push_decimal<E: Ordinal>(s: &mut String, e: &E)
    ensures
        final(s)@ == old(s)@ + decimal(e.ord()),
{
    let (negative, magnitude) = e.sign_magnitude();
    if negative {
        proof {
            reveal_strlit("-");
        }
        s.append("-");
    }
    push_digits(s, magnitude);
    assert(s@ =~= old(s)@ + decimal(e.ord()));
}

impl<E: Ordinal> RangeList<E> {
    /// The display form: the ranges as `lo..hi` joined by ` union `, or
    /// `1..0` for the empty set.
    pub fn to_string(&self) -> (s: String)
        ensures
            s@ == display_text(self.spans()),
    {
        proof {
            use_type_invariant(self);
        }
        let v = self.pairs();
        let ghost sp = self.spans();
        let n = v.len();
        let mut s = String::new();
        if n == 0 {
            proof {
                reveal_strlit("1..0");
            }
            s.append("1..0");
            assert(s@ =~= display_text(sp));
            return s;
        }
        proof {
            reveal_strlit("..");
            reveal_strlit(" union ");
        }
        let mut i: usize = 0;
        while i < n
            invariant
                i <= n,
                n == v@.len(),
                n > 0,
                sp == crate::range_list::spans_of(v@),
                s@ == joined_display(sp.take(i as int)),
                ".."@ == seq!['.', '.'],
                " union "@ == seq![' ', 'u', 'n', 'i', 'o', 'n', ' '],
            decreases n - i,
        {
            let ghost before = s@;
            if i > 0 {
                s.append(" union ");
            }
            push_decimal(&mut s, &v[i].0);
            s.append("..");
            push_decimal(&mut s, &v[i].1);
            proof {
                let t = sp.take(i + 1);
                assert(t.drop_last() =~= sp.take(i as int));
                assert(t.last() == sp[i as int]);
                assert(sp[i as int] == (v@[i as int].0.ord(), v@[i as int].1.ord()));
                if i == 0 {
                    assert(sp.take(0) =~= Seq::<(int, int)>::empty());
                }
                assert(s@ =~= joined_display(t));
            }
            i += 1;
        }
        proof {
            assert(sp.take(n as int) =~= sp);
        }
        s
    }

    /// The debug form: the expression that builds the range list, such as
    /// `RangeList::from_iter([1..=3, 10..=15])`.
    pub fn to_debug_string(&self) -> (s: String)
        ensures
            s@ == debug_text(self.spans()),
    {
        proof {
            use_type_invariant(self);
        }
        let v = self.pairs();
        let ghost sp = self.spans();
        let n = v.len();
        let mut s = String::new();
        if n == 0 {
            s.append("RangeList::default()");
            assert(s@ =~= debug_text(sp));
            return s;
        }
        proof {
            reveal_strlit("..=");
            reveal_strlit(", ");
        }
        if n == 1 {
            s.append("RangeList::from(");
            push_decimal(&mut s, &v[0].0);
            s.append("..=");
            push_decimal(&mut s, &v[0].1);
            s.append(")");
            assert(sp[0] == (v@[0].0.ord(), v@[0].1.ord()));
            assert(s@ =~= debug_text(sp));
            return s;
        }
        s.append("RangeList::from_iter([");
        let ghost head = s@;
        let mut i: usize = 0;
        while i < n
            invariant
                i <= n,
                n == v@.len(),
                n > 1,
                sp == crate::range_list::spans_of(v@),
                s@ == head + joined_debug(sp.take(i as int)),
                head == "RangeList::from_iter(["@,
                "..="@ == seq!['.', '.', '='],
                ", "@ == seq![',', ' '],
            decreases n - i,
        {
            if i > 0 {
                s.append(", ");
            }
            push_decimal(&mut s, &v[i].0);
            s.append("..=");
            push_decimal(&mut s, &v[i].1);
            proof {
                let t = sp.take(i + 1);
                assert(t.drop_last() =~= sp.take(i as int));
                assert(t.last() == sp[i as int]);
                assert(sp[i as int] == (v@[i as int].0.ord(), v@[i as int].1.ord()));
                if i == 0 {
                    assert(sp.take(0) =~= Seq::<(int, int)>::empty());
                }
                assert(s@ =~= head + joined_debug(t));
            }
            i += 1;
        }
        s.append("])");
        proof {
            assert(sp.take(n as int) =~= sp);
            assert(s@ =~= debug_text(sp));
        }
        s
    }
}

} // verus!
