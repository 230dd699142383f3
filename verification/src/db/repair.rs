//! Keeping the tables of a day consistent: the hours add up to the day, and the day is the
//! sum of its keys.
use vstd::prelude::*;
use vstd::string::*;

use crate::db::select::{sum_in, Window};
use crate::db::store;
use crate::db::store::{Store, StoreModel, YearDb, YearModel};
use crate::tally;
use crate::tally::Tally;

verus! {

// ------------------------------------------------------------------------------ hours

/// The hours of days with their amounts.
pub type Hours = Seq<((i64, i64), int)>;

/// The share of `c` in taking `e` out of `b`: `c * e / b`, the fraction dropped.
pub open spec fn share(c: int, e: int, b: int) -> int {
    if c * e >= 0 {
        (c * e) / b
    } else {
        -((-(c * e)) / b)
    }
}

/// The sum of the shares of the hours of a day.
pub open spec fn shares(s: Hours, day: i64, e: int, b: int) -> int
    decreases s.len(),
{
    if s.len() == 0 {
        0
    } else {
        shares(s.drop_last(), day, e, b) + (if s.last().0.0 == day {
            share(s.last().1, e, b)
        } else {
            0
        })
    }
}

/// The hour of a day with the largest amount, of several the latest, with that amount.
pub open spec fn peak(s: Hours, day: i64) -> Option<(i64, int)>
    decreases s.len(),
{
    if s.len() == 0 {
        None
    } else {
        let p = peak(s.drop_last(), day);
        let h = s.last().0.1;
        let c = s.last().1;
        if s.last().0.0 == day && (p is None || c > (p->0).1 || (c == (p->0).1 && h > (p->0).0)) {
            Some((h, c))
        } else {
            p
        }
    }
}

/// What the shares leave of `e`, where it has the sign of `e`.
pub open spec fn rest(s: Hours, day: i64, e: int, b: int) -> int {
    let r = e - shares(s, day, e, b);
    if (e > 0 && r > 0) || (e < 0 && r < 0) {
        r
    } else {
        0
    }
}

/// What an hour with the amount `n` gives of a rest `r`: as much as it has. A rest below 0
/// is something to get, and it gets all.
pub open spec fn gives(n: int, r: int) -> int {
    if r <= 0 {
        r
    } else if n <= 0 {
        0
    } else if n < r {
        n
    } else {
        r
    }
}

/// What the peak hour gives of the rest `r` after its share.
pub open spec fn peak_gives(top: Option<(i64, int)>, e: int, b: int, r: int) -> int {
    match top {
        Some(p) => gives(p.1 - share(p.1, e, b), r),
        None => r,
    }
}

/// What the hours of a day leave of a rest `r` that they give one after another.
pub open spec fn left_after(s: Hours, day: i64, r: int) -> int
    decreases s.len(),
{
    if s.len() == 0 {
        r
    } else {
        let q = left_after(s.drop_last(), day, r);
        if s.last().0.0 == day {
            q - gives(s.last().1, q)
        } else {
            q
        }
    }
}

/// The hours after those of a day gave a rest `r` one after another, each as much as it has.
pub open spec fn drained(s: Hours, day: i64, r: int) -> Hours {
    Seq::new(
        s.len(),
        |i: int|
            (
                s[i].0,
                if s[i].0.0 == day {
                    s[i].1 - gives(s[i].1, left_after(s.take(i), day, r))
                } else {
                    s[i].1
                },
            ),
    )
}

/// The amount of an hour after `e` is taken out of its day: less its share, and the peak
/// hour gives `r` more.
pub open spec fn adjusted(
    row: ((i64, i64), int),
    day: i64,
    e: int,
    b: int,
    top: Option<(i64, int)>,
    r: int,
) -> int {
    if row.0.0 != day {
        row.1
    } else if top is Some && (top->0).0 == row.0.1 {
        row.1 - share(row.1, e, b) - r
    } else {
        row.1 - share(row.1, e, b)
    }
}

/// The hours after `e` is taken out of a day whose sum is taken to be `b`: each gives its
/// share, the peak hour the rest, and where it has too little the others one after another.
/// Hours without an amount are not dropped yet.
pub open spec fn spread(s: Hours, day: i64, e: int, b: int) -> Hours {
    let top = peak(s, day);
    let r = rest(s, day, e, b);
    let g = peak_gives(top, e, b, r);
    drained(adjust_all(s, day, e, b, top, g), day, r - g)
}

pub open spec fn adjust_all(
    s: Hours,
    day: i64,
    e: int,
    b: int,
    top: Option<(i64, int)>,
    r: int,
) -> Hours {
    Seq::new(s.len(), |i: int| (s[i].0, adjusted(s[i], day, e, b, top, r)))
}

/// The rows but those of a day that have no amount.
pub open spec fn positive_on(s: Hours, day: i64) -> Hours
    decreases s.len(),
{
    if s.len() == 0 {
        s
    } else {
        let t = positive_on(s.drop_last(), day);
        if s.last().0.0 == day && s.last().1 <= 0 {
            t
        } else {
            t.push(s.last())
        }
    }
}

proof fn lemma_share(c: int, e: int, b: int)
    requires
        c >= 0,
        b > 0,
    ensures
        e >= 0 ==> 0 <= share(c, e, b) <= c * e,
        e <= 0 ==> c * e <= share(c, e, b) <= 0,
        0 <= e <= b ==> share(c, e, b) <= c,
{
    if e >= 0 {
        assert(c * e >= 0) by (nonlinear_arith)
            requires
                c >= 0,
                e >= 0,
        ;
        let x = c * e;
        assert(0 <= x / b <= x) by (nonlinear_arith)
            requires
                x >= 0,
                b > 0,
        ;
        if e <= b {
            assert(c * e <= c * b) by (nonlinear_arith)
                requires
                    c >= 0,
                    e <= b,
            ;
            assert(x / b <= c) by (nonlinear_arith)
                requires
                    x <= c * b,
                    b > 0,
                    x >= 0,
                    c >= 0,
            ;
        }
    } else {
        assert(c * e <= 0) by (nonlinear_arith)
            requires
                c >= 0,
                e < 0,
        ;
        let x = -(c * e);
        assert(0 <= x / b <= x) by (nonlinear_arith)
            requires
                x >= 0,
                b > 0,
        ;
        if c * e >= 0 {
            assert(x / b == 0) by (nonlinear_arith)
                requires
                    x == 0,
                    b > 0,
            ;
        }
    }
}

/// The shares lie between nothing and everything.
proof fn lemma_shares(s: Hours, day: i64, e: int, b: int)
    requires
        tally::nonneg(s),
        b > 0,
    ensures
        e >= 0 ==> 0 <= shares(s, day, e, b) <= tally::sum_if(
            s,
            tally::on_day::<(i64, i64)>(day as int),
        ) * e,
        e <= 0 ==> tally::sum_if(s, tally::on_day::<(i64, i64)>(day as int)) * e <= shares(
            s,
            day,
            e,
            b,
        ) <= 0,
    decreases s.len(),
{
    let p = tally::on_day::<(i64, i64)>(day as int);
    if s.len() > 0 {
        let t = s.drop_last();
        assert forall|i: int| 0 <= i < t.len() implies (#[trigger] t[i]).1 >= 0 by {
            assert(t[i] == s[i]);
        }
        lemma_shares(t, day, e, b);
        assert(s[s.len() - 1] == s.last());
        let c = s.last().1;
        let x = tally::sum_if(t, p);
        lemma_share(c, e, b);
        assert((x + c) * e == x * e + c * e) by (nonlinear_arith);
    } else {
        assert(0 * e == 0);
    }
}

/// The peak is an hour of the day, and none has more.
pub proof fn lemma_peak(s: Hours, day: i64)
    ensures
        peak(s, day) is None <==> forall|i: int|
            0 <= i < s.len() ==> (#[trigger] s[i]).0.0 != day,
        peak(s, day) matches Some(p) ==> tally::has_key(s, (day, p.0)),
        peak(s, day) matches Some(p) ==> forall|i: int|
            0 <= i < s.len() && (#[trigger] s[i]).0.0 == day ==> s[i].1 <= p.1,
        peak(s, day) matches Some(p) ==> s.contains(((day, p.0), p.1)),
    decreases s.len(),
{
    if s.len() > 0 {
        let t = s.drop_last();
        lemma_peak(t, day);
        assert(s[s.len() - 1] == s.last());
        assert forall|i: int| 0 <= i < t.len() implies #[trigger] t[i] == s[i] by {}
        if peak(t, day) is Some {
            let p = peak(t, day)->0;
            let k = choose|k: int| 0 <= k < t.len() && t[k] == ((day, p.0), p.1);
            assert(s[k] == t[k]);
        } else {
            assert forall|i: int| 0 <= i < t.len() implies (#[trigger] s[i]).0.0 != day by {
                assert(t[i].0.0 != day);
            }
        }
        if peak(s, day) is Some {
            let p = peak(s, day)->0;
            assert forall|i: int| 0 <= i < s.len() && (#[trigger] s[i]).0.0 == day implies s[i].1
                <= p.1 by {
                if i < t.len() {
                    assert(t[i] == s[i]);
                }
            }
        } else {
            assert forall|i: int| 0 <= i < s.len() implies (#[trigger] s[i]).0.0 != day by {
                if i < t.len() {
                    assert(t[i] == s[i]);
                }
            }
        }
    }
}

/// What adjusting takes out of a sum: the shares, and the rest where the peak is there.
proof fn lemma_adjusted_sum(
    s: Hours,
    day: i64,
    e: int,
    b: int,
    top: Option<(i64, int)>,
    r: int,
    p: spec_fn((i64, i64)) -> bool,
)
    requires
        tally::distinct(s),
        forall|v: (i64, i64)| v.0 == day ==> #[trigger] p(v),
    ensures
        tally::sum_if(adjust_all(s, day, e, b, top, r), p) == tally::sum_if(s, p) - shares(
            s,
            day,
            e,
            b,
        ) - (if top is Some && tally::has_key(s, (day, (top->0).0)) {
            r
        } else {
            0
        }),
    decreases s.len(),
{
    let a = adjust_all(s, day, e, b, top, r);
    if s.len() > 0 {
        let t = s.drop_last();
        tally::lemma_distinct_prefix(s);
        lemma_adjusted_sum(t, day, e, b, top, r, p);
        assert(a.drop_last() =~= adjust_all(t, day, e, b, top, r));
        assert(s[s.len() - 1] == s.last());
        if top is Some {
            let k = (day, (top->0).0);
            if tally::has_key(t, k) {
                let i = choose|i: int| 0 <= i < t.len() && (#[trigger] t[i]).0 == k;
                assert(s[i].0 == k);
            }
            if tally::has_key(s, k) && !tally::has_key(t, k) {
                let i = choose|i: int| 0 <= i < s.len() && (#[trigger] s[i]).0 == k;
                if i < t.len() {
                    assert(t[i].0 == k);
                }
            }
        }
    }
}

/// Giving nothing changes nothing.
proof fn lemma_left_none(s: Hours, day: i64)
    ensures
        left_after(s, day, 0) == 0,
    decreases s.len(),
{
    if s.len() > 0 {
        lemma_left_none(s.drop_last(), day);
    }
}

proof fn lemma_left_bounds(s: Hours, day: i64, r: int)
    requires
        r >= 0,
    ensures
        0 <= left_after(s, day, r) <= r,
    decreases s.len(),
{
    if s.len() > 0 {
        lemma_left_bounds(s.drop_last(), day, r);
    }
}

/// Giving makes no hour larger and none negative, and leaves the other days alone.
proof fn lemma_drained(s: Hours, day: i64, r: int)
    requires
        r >= 0,
    ensures
        r == 0 ==> drained(s, day, r) == s,
        forall|i: int|
            #![trigger drained(s, day, r)[i]]
            0 <= i < s.len() ==> {
                let d = drained(s, day, r)[i];
                &&& d.0 == s[i].0
                &&& d.1 <= s[i].1
                &&& s[i].1 >= 0 ==> d.1 >= 0
                &&& s[i].0.0 != day ==> d.1 == s[i].1
            },
{
    assert forall|i: int| 0 <= i < s.len() implies 0 <= left_after(#[trigger] s.take(i), day, r)
        <= r by {
        lemma_left_bounds(s.take(i), day, r);
    }
    if r == 0 {
        assert forall|i: int| 0 <= i < s.len() implies left_after(#[trigger] s.take(i), day, 0)
            == 0 by {
            lemma_left_none(s.take(i), day);
        }
        assert(drained(s, day, r) =~= s);
    }
}

/// What giving takes out of a sum over the day.
proof fn lemma_drained_sum(s: Hours, day: i64, r: int, p: spec_fn((i64, i64)) -> bool)
    requires
        forall|v: (i64, i64)| v.0 == day ==> #[trigger] p(v),
    ensures
        tally::sum_if(drained(s, day, r), p) == tally::sum_if(s, p) - (r - left_after(s, day, r)),
    decreases s.len(),
{
    let a = drained(s, day, r);
    if s.len() > 0 {
        let t = s.drop_last();
        lemma_drained_sum(t, day, r, p);
        assert forall|i: int| 0 <= i < t.len() implies #[trigger] t.take(i) == s.take(i) by {
            assert(t.take(i) =~= s.take(i));
        }
        assert(a.drop_last() =~= drained(t, day, r));
        assert(s.take(s.len() - 1) =~= t);
    }
}

/// The hours of a day give the whole rest where they have it.
proof fn lemma_left(s: Hours, day: i64, r: int)
    requires
        tally::nonneg(s),
        r >= 0,
    ensures
        left_after(s, day, r) == (if r <= tally::sum_if(
            s,
            tally::on_day::<(i64, i64)>(day as int),
        ) {
            0
        } else {
            r - tally::sum_if(s, tally::on_day::<(i64, i64)>(day as int))
        }),
    decreases s.len(),
{
    let on = tally::on_day::<(i64, i64)>(day as int);
    if s.len() > 0 {
        let t = s.drop_last();
        assert forall|i: int| 0 <= i < t.len() implies (#[trigger] t[i]).1 >= 0 by {
            assert(t[i] == s[i]);
        }
        lemma_left(t, day, r);
        tally::lemma_sum_bounds(t, on);
        assert(s[s.len() - 1] == s.last());
    }
}

/// Taking something out makes no hour larger, and bringing something in none smaller; the
/// other days stay.
proof fn lemma_spread_rows(s: Hours, day: i64, e: int, b: int)
    requires
        tally::nonneg(s),
        b > 0,
        e != 0,
    ensures
        spread(s, day, e, b).len() == s.len(),
        forall|i: int|
            #![trigger spread(s, day, e, b)[i]]
            0 <= i < s.len() ==> {
                let a = spread(s, day, e, b)[i];
                &&& a.0 == s[i].0
                &&& e > 0 ==> a.1 <= s[i].1
                &&& e < 0 ==> a.1 >= s[i].1
                &&& 0 < e <= b && tally::distinct(s) ==> a.1 >= 0
                &&& s[i].0.0 != day ==> a.1 == s[i].1
            },
        tally::distinct(s) ==> tally::distinct(spread(s, day, e, b)),
{
    let top = peak(s, day);
    let r = rest(s, day, e, b);
    let g = peak_gives(top, e, b, r);
    let m = adjust_all(s, day, e, b, top, g);
    let a = spread(s, day, e, b);
    lemma_peak(s, day);
    lemma_drained(m, day, r - g);
    assert forall|i: int| #![trigger a[i]] 0 <= i < s.len() implies a[i].0 == s[i].0 && (e > 0
        ==> a[i].1 <= s[i].1) && (e < 0 ==> a[i].1 >= s[i].1) && (0 < e <= b && tally::distinct(s)
        ==> a[i].1 >= 0) && (s[i].0.0 != day ==> a[i].1 == s[i].1) by {
        lemma_share(s[i].1, e, b);
        assert(m[i].0 == s[i].0);
        assert(drained(m, day, r - g)[i] == a[i]);
        if top is Some && s[i].0 == (day, (top->0).0) && tally::distinct(s) {
            let p = top->0;
            let k = choose|k: int| 0 <= k < s.len() && s[k] == ((day, p.0), p.1);
            if i < k {
                assert(s[i].0 != s[k].0);
            }
            if k < i {
                assert(s[k].0 != s[i].0);
            }
        }
    }
    if tally::distinct(s) {
        assert forall|i: int, j: int| 0 <= i < j < a.len() implies (#[trigger] a[i]).0 != (
        #[trigger] a[j]).0 by {
            assert(s[i].0 != s[j].0);
        }
    }
}

/// After taking something out of a day, every hour that is left has an amount, and none has
/// more than before.
pub proof fn lemma_taken_hours(s: Hours, day: i64, e: int, b: int)
    requires
        tally::distinct(s),
        tally::nonneg(s),
        b > 0,
        e > 0,
    ensures
        forall|i: int|
            #![trigger positive_on(spread(s, day, e, b), day)[i]]
            0 <= i < positive_on(spread(s, day, e, b), day).len() && positive_on(
                spread(s, day, e, b),
                day,
            )[i].0.0 == day ==> 0 < positive_on(spread(s, day, e, b), day)[i].1 <= tally::amount(
                s,
                positive_on(spread(s, day, e, b), day)[i].0,
            ),
{
    let a = spread(s, day, e, b);
    let q = positive_on(a, day);
    lemma_spread_rows(s, day, e, b);
    lemma_positive(a, day);
    assert forall|i: int| #![trigger q[i]] 0 <= i < q.len() && q[i].0.0 == day implies 0 < q[i].1
        <= tally::amount(s, q[i].0) by {
        let k = choose|k: int| 0 <= k < a.len() && a[k] == q[i];
        assert(a[k].0 == s[k].0);
        tally::lemma_amount_at(s, k);
    }
}

/// Taking `e` out of a day, or bringing `-e` in, changes each hour by its part: an hour with
/// `n` of `b` gives `n * e / b`, or gets as much, the fraction dropped. One hour of the day,
/// the fullest, evens out the fractions; only where that empties it do the others give more.
pub proof fn lemma_hours_give_their_part(s: Hours, day: i64, e: int, b: int) -> (top: int)
    requires
        tally::distinct(s),
        tally::nonneg(s),
        b > 0,
        e != 0,
        exists|i: int| 0 <= i < s.len() && (#[trigger] s[i]).0.0 == day,
    ensures
        0 <= top < s.len(),
        s[top].0.0 == day,
        forall|i: int| 0 <= i < s.len() && (#[trigger] s[i]).0.0 == day ==> s[i].1 <= s[top].1,
        spread(s, day, e, b).len() == s.len(),
        forall|i: int|
            #![trigger s[i]]
            0 <= i < s.len() ==> {
                let a = spread(s, day, e, b)[i];
                &&& a.0 == s[i].0
                &&& s[i].0.0 != day ==> a.1 == s[i].1
                &&& s[i].0.0 == day && e > 0 ==> a.1 <= s[i].1 - (s[i].1 * e) / b
                &&& s[i].0.0 == day && e > 0 && i != top && spread(s, day, e, b)[top].1 > 0
                    ==> a.1 == s[i].1 - (s[i].1 * e) / b
                &&& s[i].0.0 == day && e < 0 && i != top ==> a.1 == s[i].1 + (s[i].1 * (-e)) / b
                &&& s[i].0.0 == day && e < 0 ==> a.1 >= s[i].1 + (s[i].1 * (-e)) / b
            },
{
    let p = peak(s, day);
    lemma_peak(s, day);
    let q = p->0;
    let k = choose|k: int| 0 <= k < s.len() && s[k] == ((day, q.0), q.1);
    let r = rest(s, day, e, b);
    let g = peak_gives(p, e, b, r);
    let m = adjust_all(s, day, e, b, p, g);
    let a = spread(s, day, e, b);
    lemma_drained(m, day, r - g);
    lemma_spread_rows(s, day, e, b);
    if e < 0 || a[k].1 > 0 {
        lemma_share(s[k].1, e, b);
        assert(m[k].1 == s[k].1 - share(s[k].1, e, b) - g);
        assert(drained(m, day, r - g)[k] == a[k]);
        assert(g == r);
    }
    assert forall|i: int| #![trigger s[i]] 0 <= i < s.len() implies a[i].0 == s[i].0 && (s[i].0.0
        != day ==> a[i].1 == s[i].1) && (s[i].0.0 == day && e > 0 ==> a[i].1 <= s[i].1 - (s[i].1
        * e) / b) && (s[i].0.0 == day && e > 0 && i != k && a[k].1 > 0 ==> a[i].1 == s[i].1 - (
    s[i].1 * e) / b) && (s[i].0.0 == day && e < 0 && i != k ==> a[i].1 == s[i].1 + (s[i].1 * (-e))
        / b) && (s[i].0.0 == day && e < 0 ==> a[i].1 >= s[i].1 + (s[i].1 * (-e)) / b) by {
        let n = s[i].1;
        lemma_share(n, e, b);
        assert(m[i].0 == s[i].0);
        assert(drained(m, day, r - g)[i] == a[i]);
        assert(n * (-e) == -(n * e)) by (nonlinear_arith);
        if e < 0 {
            assert(n * e <= 0) by (nonlinear_arith)
                requires
                    n >= 0,
                    e < 0,
            ;
            if n * e == 0 {
                assert(0int / b == 0) by (nonlinear_arith)
                    requires
                        b > 0,
                ;
            }
        } else {
            assert(n * e >= 0) by (nonlinear_arith)
                requires
                    n >= 0,
                    e > 0,
            ;
        }
        if i != k {
            if i < k {
                assert(s[i].0 != s[k].0);
            } else {
                assert(s[k].0 != s[i].0);
            }
            assert(s[i].0.0 == day ==> s[i].0.1 != q.0);
        }
        if g == r {
            lemma_left_none(m.take(i), day);
        }
    }
    k
}

/// Taking `e` out of a day whose hours add up to `b` takes it out of their sum.
pub proof fn lemma_spread_sum(s: Hours, day: i64, e: int, b: int, p: spec_fn((i64, i64)) -> bool)
    requires
        tally::distinct(s),
        tally::nonneg(s),
        b > 0,
        e != 0,
        e <= b,
        b == tally::sum_if(s, tally::on_day::<(i64, i64)>(day as int)),
        forall|v: (i64, i64)| v.0 == day ==> #[trigger] p(v),
    ensures
        tally::sum_if(spread(s, day, e, b), p) == tally::sum_if(s, p) - e,
{
    let on = tally::on_day::<(i64, i64)>(day as int);
    let top = peak(s, day);
    let r = rest(s, day, e, b);
    let g = peak_gives(top, e, b, r);
    let m = adjust_all(s, day, e, b, top, g);
    lemma_peak(s, day);
    if top is None {
        tally::lemma_sum_none(s, on);
    }
    lemma_rest(s, day, e, b);
    lemma_adjusted_sum(s, day, e, b, top, g, p);
    lemma_adjusted_sum(s, day, e, b, top, g, on);
    lemma_drained_sum(m, day, r - g, p);
    if e < 0 {
        lemma_left_none(m, day);
    } else {
        assert forall|i: int| 0 <= i < m.len() implies (#[trigger] m[i]).1 >= 0 by {
            lemma_share(s[i].1, e, b);
            assert(s[i].1 >= 0);
            let q = top->0;
            if s[i].0 == (day, q.0) {
                let k = choose|k: int| 0 <= k < s.len() && s[k] == ((day, q.0), q.1);
                if i < k {
                    assert(s[i].0 != s[k].0);
                }
                if k < i {
                    assert(s[k].0 != s[i].0);
                }
            }
        }
        lemma_left(m, day, r - g);
    }
}

proof fn lemma_positive(s: Hours, day: i64)
    ensures
        forall|i: int|
            0 <= i < positive_on(s, day).len() ==> s.contains(#[trigger] positive_on(s, day)[i])
                && !(positive_on(s, day)[i].0.0 == day && positive_on(s, day)[i].1 <= 0),
        forall|k: (i64, i64)| #[trigger] tally::has_key(positive_on(s, day), k) ==> tally::has_key(s, k),
        tally::distinct(s) ==> tally::distinct(positive_on(s, day)),
        positive_on(s, day).len() <= s.len(),
    decreases s.len(),
{
    if s.len() > 0 {
        let t = s.drop_last();
        let q = positive_on(t, day);
        let r = positive_on(s, day);
        lemma_positive(t, day);
        assert(s[s.len() - 1] == s.last());
        assert forall|i: int| 0 <= i < r.len() implies s.contains(#[trigger] r[i]) && !(r[i].0.0
            == day && r[i].1 <= 0) by {
            if i < q.len() {
                assert(r[i] == q[i]);
                let j = choose|j: int| 0 <= j < t.len() && t[j] == q[i];
                assert(s[j] == r[i]);
            }
        }
        assert forall|k: (i64, i64)| #[trigger] tally::has_key(r, k) implies tally::has_key(
            s,
            k,
        ) by {
            let i = choose|i: int| 0 <= i < r.len() && (#[trigger] r[i]).0 == k;
            let j = choose|j: int| 0 <= j < s.len() && s[j] == r[i];
            assert(s[j].0 == k);
        }
        if tally::distinct(s) {
            tally::lemma_distinct_prefix(s);
            assert forall|i: int, j: int| 0 <= i < j < r.len() implies (#[trigger] r[i]).0 != (
            #[trigger] r[j]).0 by {
                assert(r[i] == q[i]);
                if j < q.len() {
                    assert(r[j] == q[j]);
                } else {
                    assert(tally::has_key(q, q[i].0));
                }
            }
        }
    }
}

/// Dropping hours without an amount leaves the sums where no amount is negative.
proof fn lemma_positive_sum(s: Hours, day: i64, p: spec_fn((i64, i64)) -> bool)
    requires
        tally::nonneg(s),
    ensures
        tally::sum_if(positive_on(s, day), p) == tally::sum_if(s, p),
        tally::nonneg(positive_on(s, day)),
    decreases s.len(),
{
    if s.len() > 0 {
        let t = s.drop_last();
        assert forall|i: int| 0 <= i < t.len() implies (#[trigger] t[i]).1 >= 0 by {
            assert(t[i] == s[i]);
        }
        lemma_positive_sum(t, day, p);
        assert(s[s.len() - 1] == s.last());
        if !(s.last().0.0 == day && s.last().1 <= 0) {
            tally::lemma_sum_push(positive_on(t, day), s.last(), p);
            let r = positive_on(s, day);
            assert forall|i: int| 0 <= i < r.len() implies (#[trigger] r[i]).1 >= 0 by {
                if i < positive_on(t, day).len() {
                    assert(r[i] == positive_on(t, day)[i]);
                }
            }
        }
    }
}

/// Taking something out makes no hour larger.
proof fn lemma_positive_shrinks(s: Hours, a: Hours, day: i64)
    requires
        tally::nonneg(s),
        a.len() == s.len(),
        forall|i: int|
            #![trigger a[i]]
            0 <= i < a.len() ==> a[i].0 == s[i].0 && a[i].1 <= s[i].1 && (s[i].0.0 != day
                ==> a[i].1 == s[i].1),
    ensures
        0 <= tally::total(positive_on(a, day)) <= tally::total(s),
        tally::nonneg(positive_on(a, day)),
    decreases s.len(),
{
    if s.len() > 0 {
        let t = s.drop_last();
        let u = a.drop_last();
        assert forall|i: int| 0 <= i < t.len() implies (#[trigger] t[i]).1 >= 0 by {
            assert(t[i] == s[i]);
        }
        assert forall|i: int| #![trigger u[i]] 0 <= i < u.len() implies u[i].0 == t[i].0 && u[i].1
            <= t[i].1 && (t[i].0.0 != day ==> u[i].1 == t[i].1) by {
            assert(u[i] == a[i]);
        }
        lemma_positive_shrinks(t, u, day);
        assert(s[s.len() - 1] == s.last());
        assert(a[a.len() - 1] == a.last());
        if !(a.last().0.0 == day && a.last().1 <= 0) {
            tally::lemma_sum_push(positive_on(u, day), a.last(), |v: (i64, i64)| true);
            let r = positive_on(a, day);
            assert forall|i: int| 0 <= i < r.len() implies (#[trigger] r[i]).1 >= 0 by {
                if i < positive_on(u, day).len() {
                    assert(r[i] == positive_on(u, day)[i]);
                }
            }
        }
    }
}

/// The shares together are no more than the whole would give.
proof fn lemma_shares_scaled(s: Hours, day: i64, e: int, b: int)
    requires
        tally::nonneg(s),
        b > 0,
    ensures
        e >= 0 ==> b * shares(s, day, e, b) <= tally::sum_if(
            s,
            tally::on_day::<(i64, i64)>(day as int),
        ) * e,
        e <= 0 ==> b * shares(s, day, e, b) >= tally::sum_if(
            s,
            tally::on_day::<(i64, i64)>(day as int),
        ) * e,
    decreases s.len(),
{
    let p = tally::on_day::<(i64, i64)>(day as int);
    if s.len() > 0 {
        let t = s.drop_last();
        assert forall|i: int| 0 <= i < t.len() implies (#[trigger] t[i]).1 >= 0 by {
            assert(t[i] == s[i]);
        }
        lemma_shares_scaled(t, day, e, b);
        assert(s[s.len() - 1] == s.last());
        if s.last().0.0 == day {
            let c = s.last().1;
            let x = tally::sum_if(t, p);
            let y = shares(t, day, e, b);
            let z = share(c, e, b);
            assert((x + c) * e == x * e + c * e) by (nonlinear_arith);
            assert(b * (y + z) == b * y + b * z) by (nonlinear_arith);
            let w = c * e;
            if w >= 0 {
                assert(0 <= b * (w / b) <= w) by (nonlinear_arith)
                    requires
                        w >= 0,
                        b > 0,
                ;
                if e <= 0 {
                    assert(w <= 0) by (nonlinear_arith)
                        requires
                            w == c * e,
                            c >= 0,
                            e <= 0,
                    ;
                    assert(b * (w / b) == 0) by (nonlinear_arith)
                        requires
                            w == 0,
                            b > 0,
                    ;
                }
            } else {
                let v = -w;
                assert(0 <= b * (v / b) <= v) by (nonlinear_arith)
                    requires
                        v >= 0,
                        b > 0,
                ;
                assert(b * (-(v / b)) == -(b * (v / b))) by (nonlinear_arith);
                if e >= 0 {
                    assert(w >= 0) by (nonlinear_arith)
                        requires
                            w == c * e,
                            c >= 0,
                            e >= 0,
                    ;
                }
            }
        }
    } else {
        assert(0 * e == 0 && b * 0 == 0);
    }
}

/// Where the hours add up to `b`, the shares leave a rest of the sign of `e`.
pub proof fn lemma_rest(s: Hours, day: i64, e: int, b: int)
    requires
        tally::nonneg(s),
        b > 0,
        b == tally::sum_if(s, tally::on_day::<(i64, i64)>(day as int)),
    ensures
        rest(s, day, e, b) == e - shares(s, day, e, b),
        e >= 0 ==> shares(s, day, e, b) <= e,
        e <= 0 ==> shares(s, day, e, b) >= e,
{
    lemma_shares_scaled(s, day, e, b);
    lemma_shares(s, day, e, b);
    let x = shares(s, day, e, b);
    if e >= 0 {
        assert(x <= e) by (nonlinear_arith)
            requires
                b * x <= b * e,
                b > 0,
        ;
    }
    if e <= 0 {
        assert(x >= e) by (nonlinear_arith)
            requires
                b * x >= b * e,
                b > 0,
        ;
    }
}

proof fn lemma_entry_bound(s: Hours, i: int)
    requires
        tally::distinct(s),
        tally::nonneg(s),
        0 <= i < s.len(),
    ensures
        s[i].1 <= tally::total(s),
{
    tally::lemma_amount_at(s, i);
    tally::lemma_amount_bound(s, s[i].0);
}

proof fn lemma_spread_bounds(s: Hours, day: i64, e: int, b: int)
    requires
        tally::distinct(s),
        tally::nonneg(s),
        tally::total(s) <= i64::MAX,
        b > 0,
        e != 0,
        e < 0 ==> tally::total(s) - e <= i64::MAX && b == tally::sum_if(
            s,
            tally::on_day::<(i64, i64)>(day as int),
        ),
    ensures
        forall|k: int|
            0 <= k < spread(s, day, e, b).len() ==> (#[trigger] spread(s, day, e, b)[k]).1
                <= i64::MAX,
        tally::nonneg(positive_on(spread(s, day, e, b), day)),
        tally::total(positive_on(spread(s, day, e, b), day)) <= i64::MAX,
{
    let a = spread(s, day, e, b);
    lemma_spread_rows(s, day, e, b);
    if e > 0 {
        lemma_positive_shrinks(s, a, day);
        assert forall|k: int| 0 <= k < a.len() implies (#[trigger] a[k]).1 <= i64::MAX by {
            lemma_entry_bound(s, k);
        }
    } else {
        assert forall|i: int| 0 <= i < a.len() implies (#[trigger] a[i]).1 >= 0 by {
            assert(s[i].1 >= 0);
        }
        lemma_spread_sum(s, day, e, b, |v: (i64, i64)| true);
        assert(tally::total(a) <= i64::MAX);
        assert forall|k: int| 0 <= k < a.len() implies (#[trigger] a[k]).1 <= i64::MAX by {
            lemma_entry_bound(a, k);
        }
        lemma_positive_sum(a, day, |v: (i64, i64)| true);
    }
}

fn give(n: i128, r: i128) -> (g: i128)
    ensures
        g == gives(n as int, r as int),
{
    if r <= 0 {
        r
    } else if n <= 0 {
        0
    } else if n < r {
        n
    } else {
        r
    }
}

fn share_of(c: i64, e: i64, b: i64) -> (r: i128)
    requires
        c >= 0,
        b > 0,
    ensures
        r == share(c as int, e as int, b as int),
        -0x4000_0000_0000_0000_0000_0000_0000_0000 <= r <= 0x4000_0000_0000_0000_0000_0000_0000_0000,
{
    assert(-0x4000_0000_0000_0000_0000_0000_0000_0000 <= c * e
        <= 0x4000_0000_0000_0000_0000_0000_0000_0000) by (nonlinear_arith)
        requires
            0 <= c <= 0x7fff_ffff_ffff_ffff,
            -0x8000_0000_0000_0000 <= e <= 0x7fff_ffff_ffff_ffff,
    ;
    proof {
        lemma_share(c as int, e as int, b as int);
    }
    let x: i128 = (c as i128) * (e as i128);
    if x >= 0 {
        x / (b as i128)
    } else {
        let y: i128 = -x;
        let q: i128 = y / (b as i128);
        -q
    }
}

/// Takes `e` out of the hours of a day whose sum is taken to be `b`: each hour gives its
/// share, the peak hour the rest, and where it has too little the others one after another.
/// Hours left without an amount are dropped.
pub fn take_out(t: &Tally<(i64, i64)>, day: i64, e: i64, b: i64) -> (r: Tally<(i64, i64)>)
    requires
        t.wf(),
        b > 0,
        e != 0,
        e < 0 ==> tally::total(t@) - e <= i64::MAX && b == tally::sum_if(
            t@,
            tally::on_day::<(i64, i64)>(day as int),
        ),
    ensures
        r.wf(),
        r@ == positive_on(spread(t@, day, e as int, b as int), day),
{
    let ghost s = t@;
    let ghost on = tally::on_day::<(i64, i64)>(day as int);
    let ghost big: int = 0x4000_0000_0000_0000_0000_0000_0000_0000;
    let mut taken: i128 = 0;
    let mut top: Option<(i64, i64)> = None;
    let mut i: usize = 0;
    proof {
        tally::lemma_sum_bounds(s, on);
    }
    while i < t.rows.len()
        invariant
            i <= t.rows.len(),
            s == t@,
            t.wf(),
            b > 0,
            on == tally::on_day::<(i64, i64)>(day as int),
            big == 0x4000_0000_0000_0000_0000_0000_0000_0000,
            taken == shares(s.take(i as int), day, e as int, b as int),
            -big <= taken <= big,
            match top {
                Some(p) => peak(s.take(i as int), day) == Some((p.0, p.1 as int)),
                None => peak(s.take(i as int), day) is None,
            },
        decreases t.rows.len() - i,
    {
        let d: i64 = t.rows[i].0.0;
        let h: i64 = t.rows[i].0.1;
        let c: i64 = t.rows[i].1;
        proof {
            let t1 = s.take(i as int + 1);
            assert(t1.drop_last() =~= s.take(i as int));
            assert(t1.last() == s[i as int]);
            assert(s[i as int] == ((d, h), c as int));
            tally::lemma_prefix_sum(s, i as int + 1, on);
            tally::lemma_sum_bounds(s, on);
            tally::lemma_sum_bounds(t1, on);
            lemma_shares(t1, day, e as int, b as int);
            let x = tally::sum_if(t1, on);
            assert(-big <= x * e <= big) by (nonlinear_arith)
                requires
                    0 <= x <= 0x7fff_ffff_ffff_ffff,
                    -0x8000_0000_0000_0000 <= e <= 0x7fff_ffff_ffff_ffff,
                    big == 0x4000_0000_0000_0000_0000_0000_0000_0000,
            ;
        }
        if d == day {
            taken = taken + share_of(c, e, b);
            let higher = match top {
                None => true,
                Some(p) => c > p.1 || (c == p.1 && h > p.0),
            };
            if higher {
                top = Some((h, c));
            }
        }
        i = i + 1;
    }
    assert(s.take(i as int) =~= s);
    let left: i128 = e as i128 - taken;
    let over: i128 = if (e > 0 && left > 0) || (e < 0 && left < 0) {
        left
    } else {
        0
    };
    let ghost tops: Option<(i64, int)> = match top {
        Some(p) => Some((p.0, p.1 as int)),
        None => None,
    };
    assert(tops == peak(s, day));
    assert(over == rest(s, day, e as int, b as int));
    proof {
        lemma_peak(s, day);
        lemma_shares(s, day, e as int, b as int);
    }
    let of_peak: i128 = match top {
        Some(p) => {
            proof {
                let k = choose|k: int| 0 <= k < s.len() && s[k] == ((day, p.0), p.1 as int);
                assert(s[k].1 >= 0);
            }
            give(p.1 as i128 - share_of(p.1, e, b), over)
        },
        None => over,
    };
    let ghost m = adjust_all(s, day, e as int, b as int, tops, of_peak as int);
    let ghost others = over - of_peak;
    let ghost a = spread(s, day, e as int, b as int);
    proof {
        lemma_spread_bounds(s, day, e as int, b as int);
        assert(a == drained(m, day, others));
    }
    let mut rows: Vec<((i64, i64), i64)> = Vec::new();
    let mut owed: i128 = over - of_peak;
    let mut j: usize = 0;
    assert((Tally { rows })@ =~= positive_on(a.take(0), day));
    assert(m.take(0) =~= Seq::empty());
    while j < t.rows.len()
        invariant
            j <= t.rows.len(),
            s == t@,
            t.wf(),
            b > 0,
            m == adjust_all(s, day, e as int, b as int, tops, of_peak as int),
            a == drained(m, day, others),
            0 <= others <= i64::MAX,
            owed == left_after(m.take(j as int), day, others),
            0 <= owed <= others,
            tops == (match top {
                Some(p) => Some((p.0, p.1 as int)),
                None => None,
            }),
            i64::MIN <= of_peak <= i64::MAX,
            forall|k: int| 0 <= k < a.len() ==> (#[trigger] a[k]).1 <= i64::MAX,
            (Tally { rows })@ == positive_on(a.take(j as int), day),
        decreases t.rows.len() - j,
    {
        let d: i64 = t.rows[j].0.0;
        let h: i64 = t.rows[j].0.1;
        let c: i64 = t.rows[j].1;
        let ghost before = (Tally { rows })@;
        proof {
            let t1 = a.take(j as int + 1);
            assert(t1.drop_last() =~= a.take(j as int));
            assert(t1.last() == a[j as int]);
            let m1 = m.take(j as int + 1);
            assert(m1.drop_last() =~= m.take(j as int));
            assert(m1.last() == m[j as int]);
            assert(s[j as int] == ((d, h), c as int));
            lemma_left_bounds(m1, day, others);
        }
        let mut n: i128 = c as i128;
        if d == day {
            n = n - share_of(c, e, b);
            let is_top = match top {
                Some(p) => p.0 == h,
                None => false,
            };
            if is_top {
                n = n - of_peak;
            }
            assert(n == m[j as int].1);
            let g = give(n, owed);
            n = n - g;
            owed = owed - g;
        }
        assert(n == a[j as int].1);
        if d != day || n > 0 {
            rows.push(((d, h), n as i64));
            assert((Tally { rows })@ =~= before.push(a[j as int]));
        }
        j = j + 1;
    }
    let r = Tally { rows };
    proof {
        assert(a.take(j as int) =~= a);
        lemma_positive(a, day);
        lemma_spread_rows(s, day, e as int, b as int);
    }
    r
}

/// The sum of the hours of a day.
pub open spec fn hours_on(s: Hours, day: i64) -> int {
    tally::sum_if(s, tally::on_day::<(i64, i64)>(day as int))
}

/// The hours with those of a day brought to the sum `target`; as they are where they have
/// it already, or have nothing that could be scaled.
pub open spec fn scaled(s: Hours, day: i64, target: int) -> Hours {
    let cur = hours_on(s, day);
    if cur <= 0 || cur == target {
        s
    } else {
        positive_on(spread(s, day, cur - target, cur), day)
    }
}

fn sum_hours(t: &Tally<(i64, i64)>, day: i64) -> (r: i64)
    requires
        t.wf(),
    ensures
        r == hours_on(t@, day),
        r >= 0,
{
    proof {
        tally::lemma_sum_same(
            t@,
            Window::On(day).rows::<(i64, i64)>(),
            tally::on_day::<(i64, i64)>(day as int),
        );
    }
    sum_in(t, Window::On(day))
}

/// Brings the hours of a day to the sum `target`: each hour gives or gets its share, the
/// peak hour the rest, and where it has too little the others one after another. Hours left
/// without an amount are dropped. A day that has nothing to scale stays as it is.
pub fn scale_hourly_to_total(t: &mut Tally<(i64, i64)>, day: i64, target: i64)
    requires
        old(t).wf(),
        target >= 0,
        tally::total(old(t)@) - hours_on(old(t)@, day) + target <= i64::MAX,
    ensures
        final(t).wf(),
        final(t)@ == scaled(old(t)@, day, target as int),
        tally::total(final(t)@) <= tally::total(old(t)@) + target,
{
    let ghost s = t@;
    let cur = sum_hours(t, day);
    if cur <= 0 || cur == target {
        return;
    }
    proof {
        lemma_scaled_total(s, day, target as int);
    }
    let r = take_out(t, day, cur - target, cur);
    *t = r;
}

proof fn lemma_scaled_total(s: Hours, day: i64, target: int)
    requires
        tally::distinct(s),
        tally::nonneg(s),
        hours_on(s, day) > 0,
        hours_on(s, day) != target,
        target >= 0,
    ensures
        tally::total(scaled(s, day, target)) <= tally::total(s) + target,
{
    let b = hours_on(s, day);
    let e = b - target;
    let a = spread(s, day, e, b);
    lemma_spread_rows(s, day, e, b);
    if e > 0 {
        lemma_positive_shrinks(s, a, day);
    } else {
        assert forall|i: int| 0 <= i < a.len() implies (#[trigger] a[i]).1 >= 0 by {
            assert(s[i].1 >= 0);
        }
        lemma_spread_sum(s, day, e, b, |v: (i64, i64)| true);
        lemma_positive_sum(a, day, |v: (i64, i64)| true);
    }
}

/// After scaling the hours of a day add up to the target.
pub proof fn lemma_scaled_sum(s: Hours, day: i64, target: int)
    requires
        tally::distinct(s),
        tally::nonneg(s),
        hours_on(s, day) > 0,
        target >= 0,
    ensures
        hours_on(scaled(s, day, target), day) == target,
{
    let on = tally::on_day::<(i64, i64)>(day as int);
    let b = hours_on(s, day);
    let e = b - target;
    if e != 0 {
        let a = spread(s, day, e, b);
        lemma_spread_rows(s, day, e, b);
        lemma_spread_sum(s, day, e, b, on);
        assert forall|i: int| 0 <= i < a.len() implies (#[trigger] a[i]).1 >= 0 by {
            assert(s[i].1 >= 0);
        }
        lemma_positive_sum(a, day, on);
    }
}

/// The hours of one day.
pub open spec fn hours_of(s: Hours, day: i64) -> Hours {
    tally::keep(s, tally::on_day::<(i64, i64)>(day as int))
}

/// Changing and dropping hours of a day leaves those of another.
proof fn lemma_other_hours(s: Hours, a: Hours, day: i64, other: i64)
    requires
        other != day,
        a.len() == s.len(),
        forall|i: int|
            #![trigger a[i]]
            0 <= i < a.len() ==> a[i].0 == s[i].0 && (s[i].0.0 != day ==> a[i].1 == s[i].1),
    ensures
        hours_of(positive_on(a, day), other) == hours_of(s, other),
        hours_on(positive_on(a, day), other) == hours_on(s, other),
    decreases s.len(),
{
    if s.len() > 0 {
        let t = s.drop_last();
        let u = a.drop_last();
        assert forall|i: int| #![trigger u[i]] 0 <= i < u.len() implies u[i].0 == t[i].0 && (
        t[i].0.0 != day ==> u[i].1 == t[i].1) by {
            assert(u[i] == a[i]);
        }
        lemma_other_hours(t, u, day, other);
        assert(a[a.len() - 1] == a.last());
        if !(a.last().0.0 == day && a.last().1 <= 0) {
            assert(positive_on(a, day).drop_last() =~= positive_on(u, day));
        }
    }
}

/// Scaling a day leaves the other days alone.
pub proof fn lemma_scaled_others(s: Hours, day: i64, target: int, other: i64)
    requires
        tally::nonneg(s),
        other != day,
    ensures
        hours_on(scaled(s, day, target), other) == hours_on(s, other),
        hours_of(scaled(s, day, target), other) == hours_of(s, other),
        has_hours(scaled(s, day, target), other) == has_hours(s, other),
{
    let cur = hours_on(s, day);
    let w = scaled(s, day, target);
    if cur > 0 && cur != target {
        let a = spread(s, day, cur - target, cur);
        lemma_spread_rows(s, day, cur - target, cur);
        lemma_other_hours(s, a, day, other);
    }
    lemma_has_hours(w, other);
    lemma_has_hours(s, other);
}

/// A day has hours where some row is of that day.
proof fn lemma_has_hours(s: Hours, day: i64)
    ensures
        has_hours(s, day) == (hours_of(s, day).len() > 0),
{
    let q = tally::on_day::<(i64, i64)>(day as int);
    let k = hours_of(s, day);
    tally::lemma_keep(s, q);
    if k.len() > 0 {
        let i = choose|i: int| 0 <= i < s.len() && s[i] == k[0];
        assert(s[i].0.0 == day);
    }
    if has_hours(s, day) {
        let i = choose|i: int| 0 <= i < s.len() && (#[trigger] s[i]).0.0 == day;
        assert(tally::has_key(s, s[i].0));
        assert(tally::has_key(k, s[i].0));
    }
}

/// Scaling a day keeps the table in order.
proof fn lemma_scaled_keeps(s: Hours, day: i64, target: int)
    requires
        tally::distinct(s),
        tally::nonneg(s),
    ensures
        tally::distinct(scaled(s, day, target)),
        tally::nonneg(scaled(s, day, target)),
{
    let cur = hours_on(s, day);
    if cur > 0 && cur != target {
        let a = spread(s, day, cur - target, cur);
        let q = positive_on(a, day);
        lemma_spread_rows(s, day, cur - target, cur);
        lemma_positive(a, day);
        assert forall|i: int| 0 <= i < q.len() implies (#[trigger] q[i]).1 >= 0 by {
            let k = choose|k: int| 0 <= k < a.len() && a[k] == q[i];
            assert(s[k].1 >= 0);
        }
    }
}

/// Whether the hours of a day add up to `n`, or have nothing that could be scaled to it.
pub open spec fn settled(h: Hours, day: i64, n: int) -> bool {
    hours_on(h, day) == n || hours_on(h, day) <= 0
}

// ------------------------------------------------------------------------------- heal

/// The sum of the keys of a day.
pub open spec fn keys_on(keys: Seq<((i64, Seq<char>), int)>, day: i64) -> int {
    tally::sum_if(keys, tally::on_day::<(i64, String)>(day as int))
}

/// The days with the sums of their keys.
pub open spec fn true_days(
    daily: Seq<(i64, int)>,
    keys: Seq<((i64, Seq<char>), int)>,
) -> Seq<(i64, int)> {
    Seq::new(daily.len(), |i: int| (daily[i].0, keys_on(keys, daily[i].0)))
}

/// Whether some hour of a day has a row.
pub open spec fn has_hours(h: Hours, day: i64) -> bool {
    exists|i: int| 0 <= i < h.len() && (#[trigger] h[i]).0.0 == day
}

/// Whether the hours of a day that has some do not add up to `n`.
pub open spec fn off(h: Hours, day: i64, n: int) -> bool {
    has_hours(h, day) && hours_on(h, day) != n
}

/// The days whose hours do not add up.
pub open spec fn days_off(daily: Seq<(i64, int)>, h: Hours) -> Seq<i64>
    decreases daily.len(),
{
    if daily.len() == 0 {
        Seq::empty()
    } else {
        let r = days_off(daily.drop_last(), h);
        if off(h, daily.last().0, daily.last().1) {
            r.push(daily.last().0)
        } else {
            r
        }
    }
}

/// Whether some day is not the sum of its keys.
pub open spec fn days_wrong(daily: Seq<(i64, int)>, keys: Seq<((i64, Seq<char>), int)>) -> bool {
    exists|i: int|
        0 <= i < daily.len() && (#[trigger] daily[i]).1 != keys_on(keys, daily[i].0)
}

/// The hours with those of every day scaled to the sum of its keys.
pub open spec fn healed_hours(
    h: Hours,
    daily: Seq<(i64, int)>,
    keys: Seq<((i64, Seq<char>), int)>,
) -> Hours
    decreases daily.len(),
{
    if daily.len() == 0 {
        h
    } else {
        scaled(
            healed_hours(h, daily.drop_last(), keys),
            daily.last().0,
            keys_on(keys, daily.last().0),
        )
    }
}

/// The tables with every day the sum of its keys, and its hours scaled to that sum.
pub open spec fn healed(y: YearModel) -> YearModel {
    YearModel {
        daily: true_days(y.daily, y.keys),
        hourly: healed_hours(y.hourly, y.daily, y.keys),
        ..y
    }
}

/// The files with all tables that can be read healed.
pub open spec fn healed_store(st: StoreModel) -> StoreModel {
    Seq::new(
        st.len(),
        |i: int|
            (
                st[i].0,
                match st[i].1 {
                    Some(y) => Some(healed(y)),
                    None => None,
                },
            ),
    )
}

/// What does not add up in the tables of a year.
pub struct Inconsistency {
    /// Some day is not the sum of its keys.
    pub has_daily_mismatch: bool,
    /// The days whose hours do not add up to them.
    pub hourly_mismatch_days: Vec<i64>,
}

fn sum_keys(t: &Tally<(i64, String)>, day: i64) -> (r: i64)
    requires
        t.wf(),
    ensures
        r == keys_on(t@, day),
        r >= 0,
{
    proof {
        tally::lemma_sum_same(
            t@,
            Window::On(day).rows::<(i64, String)>(),
            tally::on_day::<(i64, String)>(day as int),
        );
    }
    sum_in(t, Window::On(day))
}

fn holds_hours(t: &Tally<(i64, i64)>, day: i64) -> (r: bool)
    ensures
        r == has_hours(t@, day),
{
    let ghost h = t@;
    let mut i: usize = 0;
    while i < t.rows.len()
        invariant
            i <= t.rows.len(),
            h == t@,
            forall|k: int| 0 <= k < i ==> (#[trigger] h[k]).0.0 != day,
        decreases t.rows.len() - i,
    {
        assert(h[i as int].0.0 == t.rows@[i as int].0.0);
        if t.rows[i].0.0 == day {
            return true;
        }
        i = i + 1;
    }
    false
}

/// Finds what does not add up in the tables of a year.
pub fn daily_inconsistency(db: &YearDb) -> (r: Inconsistency)
    requires
        db.wf(),
    ensures
        r.has_daily_mismatch == days_wrong(db@.daily, db@.keys),
        r.hourly_mismatch_days@ == days_off(db@.daily, db@.hourly),
{
    let ghost daily = db@.daily;
    let mut wrong = false;
    let mut list: Vec<i64> = Vec::new();
    let mut i: usize = 0;
    while i < db.daily.rows.len()
        invariant
            i <= db.daily.rows.len(),
            db.wf(),
            daily == db@.daily,
            wrong == exists|k: int|
                0 <= k < i && (#[trigger] daily[k]).1 != keys_on(db@.keys, daily[k].0),
            list@ == days_off(daily.take(i as int), db@.hourly),
        decreases db.daily.rows.len() - i,
    {
        let day: i64 = db.daily.rows[i].0;
        let n: i64 = db.daily.rows[i].1;
        proof {
            let t1 = daily.take(i as int + 1);
            assert(t1.drop_last() =~= daily.take(i as int));
            assert(t1.last() == daily[i as int]);
            assert(daily[i as int] == (day, n as int));
        }
        if sum_keys(&db.keys, day) != n {
            wrong = true;
        }
        if holds_hours(&db.hourly, day) && sum_hours(&db.hourly, day) != n {
            list.push(day);
        }
        i = i + 1;
    }
    assert(daily.take(i as int) =~= daily);
    Inconsistency { has_daily_mismatch: wrong, hourly_mismatch_days: list }
}

/// The sums of the keys of different days are together no more than all keys.
proof fn lemma_true_days(daily: Seq<(i64, int)>, keys: Seq<((i64, Seq<char>), int)>)
    requires
        tally::distinct(daily),
        tally::nonneg(keys),
    ensures
        tally::distinct(true_days(daily, keys)),
        tally::nonneg(true_days(daily, keys)),
        tally::total(true_days(daily, keys)) == tally::sum_if(keys, listed_days(daily)),
        tally::total(true_days(daily, keys)) <= tally::total(keys),
        store::same_keys(true_days(daily, keys), daily),
    decreases daily.len(),
{
    let r = true_days(daily, keys);
    tally::lemma_sum_bounds(keys, listed_days(daily));
    assert forall|i: int, j: int| 0 <= i < j < r.len() implies (#[trigger] r[i]).0 != (
    #[trigger] r[j]).0 by {
        assert(daily[i].0 != daily[j].0);
    }
    assert forall|i: int| 0 <= i < r.len() implies (#[trigger] r[i]).1 >= 0 by {
        tally::lemma_sum_bounds(keys, tally::on_day::<(i64, String)>(daily[i].0 as int));
    }
    assert forall|k: i64| tally::has_key(r, k) <==> tally::has_key(daily, k) by {
        if tally::has_key(r, k) {
            let i = choose|i: int| 0 <= i < r.len() && (#[trigger] r[i]).0 == k;
            assert(daily[i].0 == k);
        }
        if tally::has_key(daily, k) {
            let i = choose|i: int| 0 <= i < daily.len() && (#[trigger] daily[i]).0 == k;
            assert(r[i].0 == k);
        }
    }
    if daily.len() == 0 {
        tally::lemma_sum_none(keys, listed_days(daily));
    } else {
        let t = daily.drop_last();
        let d = daily.last().0;
        tally::lemma_distinct_prefix(daily);
        lemma_true_days(t, keys);
        assert(r.drop_last() =~= true_days(t, keys));
        let p = listed_days(t);
        let q = tally::on_day::<(i64, String)>(d as int);
        let a = listed_days(daily);
        assert forall|v: (i64, Seq<char>)| #![trigger a(v)] a(v) == (p(v) || q(v)) by {
            if tally::has_key(daily, v.0) {
                let i = choose|i: int| 0 <= i < daily.len() && (#[trigger] daily[i]).0 == v.0;
                if i < t.len() {
                    assert(t[i].0 == v.0);
                }
            }
            if tally::has_key(t, v.0) {
                let i = choose|i: int| 0 <= i < t.len() && (#[trigger] t[i]).0 == v.0;
                assert(daily[i].0 == v.0);
            }
            if v.0 == d {
                assert(daily[daily.len() - 1].0 == v.0);
            }
        }
        assert forall|v: (i64, Seq<char>)| #![trigger p(v)] #![trigger q(v)] !(p(v) && q(v)) by {}
        tally::lemma_sum_disjoint(keys, p, q, a);
    }
}

/// The keys of the days that are listed.
pub open spec fn listed_days(daily: Seq<(i64, int)>) -> spec_fn((i64, Seq<char>)) -> bool {
    |v: (i64, Seq<char>)| tally::has_key(daily, v.0)
}

proof fn lemma_true_prefix(daily: Seq<(i64, int)>, keys: Seq<((i64, Seq<char>), int)>, n: int)
    requires
        tally::distinct(daily),
        tally::nonneg(keys),
        0 <= n < daily.len(),
    ensures
        tally::total(true_days(daily.take(n + 1), keys)) == tally::total(
            true_days(daily.take(n), keys),
        ) + keys_on(keys, daily[n].0),
        tally::total(true_days(daily.take(n + 1), keys)) <= tally::total(keys),
{
    let a = daily.take(n + 1);
    assert forall|i: int, j: int| 0 <= i < j < a.len() implies (#[trigger] a[i]).0 != (
    #[trigger] a[j]).0 by {
        assert(daily[i].0 != daily[j].0);
    }
    lemma_true_days(a, keys);
    let r = true_days(a, keys);
    assert(r.drop_last() =~= true_days(daily.take(n), keys));
    assert(r.last() == (daily[n].0, keys_on(keys, daily[n].0)));
}

/// Makes every day the sum of its keys, and scales its hours to that sum.
pub fn heal(db: &mut YearDb)
    requires
        old(db).wf(),
        tally::total(old(db)@.hourly) + tally::total(old(db)@.keys) <= i64::MAX,
    ensures
        final(db).wf(),
        final(db)@ == healed(old(db)@),
{
    let ghost y = db@;
    let ghost daily = y.daily;
    let ghost keys = y.keys;
    let mut hourly = db.hourly.dup();
    let mut rows: Vec<(i64, i64)> = Vec::new();
    let mut i: usize = 0;
    assert(true_days(daily.take(0), keys) =~= Seq::empty());
    while i < db.daily.rows.len()
        invariant
            i <= db.daily.rows.len(),
            db.wf(),
            db@ == y,
            daily == y.daily,
            keys == y.keys,
            hourly.wf(),
            hourly@ == healed_hours(y.hourly, daily.take(i as int), keys),
            rows@.len() == i,
            forall|k: int|
                #![trigger rows@[k]]
                0 <= k < i ==> rows@[k].0 == daily[k].0 && rows@[k].1 == keys_on(
                    keys,
                    daily[k].0,
                ),
            tally::total(hourly@) <= tally::total(y.hourly) + tally::total(
                true_days(daily.take(i as int), keys),
            ),
            tally::total(y.hourly) + tally::total(keys) <= i64::MAX,
        decreases db.daily.rows.len() - i,
    {
        let day: i64 = db.daily.rows[i].0;
        proof {
            let t1 = daily.take(i as int + 1);
            assert(t1.drop_last() =~= daily.take(i as int));
            assert(t1.last() == daily[i as int]);
            assert(daily[i as int].0 == day);
            lemma_true_prefix(daily, keys, i as int);
            tally::lemma_sum_bounds(hourly@, tally::on_day::<(i64, i64)>(day as int));
        }
        let target = sum_keys(&db.keys, day);
        scale_hourly_to_total(&mut hourly, day, target);
        rows.push((day, target));
        i = i + 1;
    }
    proof {
        assert(daily.take(i as int) =~= daily);
        lemma_true_days(daily, keys);
    }
    let fixed = Tally { rows };
    assert(fixed@ =~= true_days(daily, keys));
    proof {
        assert(store::same_keys(fixed@, y.seconds)) by {
            assert forall|k: i64| tally::has_key(fixed@, k) <==> tally::has_key(
                y.seconds,
                k,
            ) by {
                assert(tally::has_key(daily, k) <==> tally::has_key(y.seconds, k));
                assert(tally::has_key(fixed@, k) <==> tally::has_key(daily, k));
            }
        }
    }
    db.daily = fixed;
    db.hourly = hourly;
    assert(db@ =~= healed(y));
}

/// Heals the tables of every file that can be read.
pub fn heal_daily_consistency(st: &mut Store)
    requires
        old(st).wf(),
        forall|i: int|
            0 <= i < old(st)@.len() ==> ((#[trigger] old(st)@[i]).1 matches Some(y)
                ==> tally::total(y.hourly) + tally::total(y.keys) <= i64::MAX),
    ensures
        final(st).wf(),
        final(st)@ == healed_store(old(st)@),
{
    let ghost m = st@;
    let mut i: usize = 0;
    while i < st.files.len()
        invariant
            i <= st.files.len(),
            st.wf(),
            st@.len() == m.len(),
            forall|k: int|
                0 <= k < m.len() ==> ((#[trigger] m[k]).1 matches Some(y) ==> tally::total(y.hourly)
                    + tally::total(y.keys) <= i64::MAX),
            forall|k: int| 0 <= k < i ==> #[trigger] st@[k] == healed_store(m)[k],
            forall|k: int| i <= k < m.len() ==> #[trigger] st@[k] == m[k],
        decreases st.files.len() - i,
    {
        let ghost before = st@;
        let ghost files = st.files@;
        assert(st@[i as int] == m[i as int]);
        let mut slot: Option<YearDb> = None;
        std::mem::swap(&mut slot, &mut st.files[i].db);
        if let Some(mut d) = slot {
            assert(m[i as int].1 == Some(d@));
            heal(&mut d);
            st.files[i].db = Some(d);
        } else {
            assert(m[i as int].1 is None);
        }
        proof {
            assert forall|k: int| 0 <= k < m.len() && k != i implies #[trigger] st@[k]
                == before[k] by {
                assert(st.files@[k] == files[k]);
            }
            assert forall|k: int| 0 <= k < m.len() implies (#[trigger] st.files@[k]).year
                == files[k].year by {}
        }
        i = i + 1;
    }
    assert(st@ =~= healed_store(m));
}

/// Healing makes every day the sum of its keys.
pub proof fn lemma_healed_days(y: YearModel)
    ensures
        !days_wrong(healed(y).daily, healed(y).keys),
{
    let d = healed(y).daily;
    assert forall|i: int| 0 <= i < d.len() implies (#[trigger] d[i]).1 == keys_on(
        y.keys,
        d[i].0,
    ) by {}
}

/// Tables whose hours are settled stay as they are.
proof fn lemma_steady(h: Hours, daily: Seq<(i64, int)>, keys: Seq<((i64, Seq<char>), int)>)
    requires
        forall|i: int|
            0 <= i < daily.len() ==> settled(
                h,
                (#[trigger] daily[i]).0,
                keys_on(keys, daily[i].0),
            ),
    ensures
        healed_hours(h, daily, keys) == h,
    decreases daily.len(),
{
    if daily.len() > 0 {
        let t = daily.drop_last();
        assert forall|i: int| 0 <= i < t.len() implies settled(
            h,
            (#[trigger] t[i]).0,
            keys_on(keys, t[i].0),
        ) by {
            assert(t[i] == daily[i]);
        }
        lemma_steady(h, t, keys);
        assert(daily[daily.len() - 1] == daily.last());
    }
}

/// Tables that add up stay as they are.
pub proof fn lemma_healthy_unchanged(y: YearModel)
    requires
        !days_wrong(y.daily, y.keys),
        days_off(y.daily, y.hourly).len() == 0,
    ensures
        healed(y) == y,
{
    assert forall|i: int| 0 <= i < y.daily.len() implies (#[trigger] y.daily[i]).1 == keys_on(
        y.keys,
        y.daily[i].0,
    ) by {}
    assert forall|i: int| 0 <= i < y.daily.len() implies settled(
        y.hourly,
        (#[trigger] y.daily[i]).0,
        keys_on(y.keys, y.daily[i].0),
    ) by {
        lemma_none_off(y.daily, y.hourly, i);
        if !has_hours(y.hourly, y.daily[i].0) {
            tally::lemma_sum_none(y.hourly, tally::on_day::<(i64, i64)>(y.daily[i].0 as int));
        }
    }
    lemma_steady(y.hourly, y.daily, y.keys);
    assert(true_days(y.daily, y.keys) =~= y.daily);
}

proof fn lemma_none_off(daily: Seq<(i64, int)>, h: Hours, i: int)
    requires
        days_off(daily, h).len() == 0,
        0 <= i < daily.len(),
    ensures
        !off(h, daily[i].0, daily[i].1),
    decreases daily.len(),
{
    if i < daily.len() - 1 {
        lemma_none_off(daily.drop_last(), h, i);
    }
}

/// Whether a day is the sum of its keys, and its hours add up to it or have nothing that
/// could be scaled.
pub open spec fn day_is_sound(y: YearModel, i: int) -> bool {
    y.daily[i].1 == keys_on(y.keys, y.daily[i].0) && settled(
        y.hourly,
        y.daily[i].0,
        y.daily[i].1,
    )
}

/// The hours of each day after healing.
proof fn lemma_healed_hours(h: Hours, daily: Seq<(i64, int)>, keys: Seq<((i64, Seq<char>), int)>)
    requires
        tally::distinct(daily),
        tally::distinct(h),
        tally::nonneg(h),
        tally::nonneg(keys),
    ensures
        tally::distinct(healed_hours(h, daily, keys)),
        tally::nonneg(healed_hours(h, daily, keys)),
        forall|i: int|
            0 <= i < daily.len() ==> settled(
                healed_hours(h, daily, keys),
                (#[trigger] daily[i]).0,
                keys_on(keys, daily[i].0),
            ),
        forall|i: int|
            0 <= i < daily.len() && settled(
                h,
                (#[trigger] daily[i]).0,
                keys_on(keys, daily[i].0),
            ) ==> hours_of(healed_hours(h, daily, keys), daily[i].0) == hours_of(h, daily[i].0),
        forall|i: int|
            0 <= i < daily.len() && hours_on(h, (#[trigger] daily[i]).0) > 0 ==> hours_on(
                healed_hours(h, daily, keys),
                daily[i].0,
            ) == keys_on(keys, daily[i].0),
        forall|d: i64|
            !tally::has_key(daily, d) ==> #[trigger] hours_of(healed_hours(h, daily, keys), d)
                == hours_of(h, d) && hours_on(healed_hours(h, daily, keys), d) == hours_on(h, d),
    decreases daily.len(),
{
    if daily.len() > 0 {
        let t = daily.drop_last();
        let d = daily.last().0;
        let n = keys_on(keys, d);
        let r = healed_hours(h, t, keys);
        let w = healed_hours(h, daily, keys);
        assert(daily[daily.len() - 1] == daily.last());
        tally::lemma_distinct_prefix(daily);
        lemma_healed_hours(h, t, keys);
        lemma_scaled_keeps(r, d, n);
        tally::lemma_sum_bounds(keys, tally::on_day::<(i64, String)>(d as int));
        if hours_on(r, d) > 0 {
            lemma_scaled_sum(r, d, n);
        }
        assert(!tally::has_key(t, d)) by {
            if tally::has_key(t, d) {
                let i = choose|i: int| 0 <= i < t.len() && (#[trigger] t[i]).0 == d;
                assert(daily[i].0 != daily[daily.len() - 1].0);
            }
        }
        assert(hours_of(r, d) == hours_of(h, d));
        assert(hours_on(r, d) == hours_on(h, d));
        assert forall|x: i64| x != d implies #[trigger] hours_of(w, x) == hours_of(r, x)
            && hours_on(w, x) == hours_on(r, x) && has_hours(w, x) == has_hours(r, x) by {
            lemma_scaled_others(r, d, n, x);
        }
        assert forall|i: int| 0 <= i < daily.len() implies settled(
            w,
            (#[trigger] daily[i]).0,
            keys_on(keys, daily[i].0),
        ) && (settled(h, daily[i].0, keys_on(keys, daily[i].0)) ==> hours_of(w, daily[i].0)
            == hours_of(h, daily[i].0)) && (hours_on(h, daily[i].0) > 0 ==> hours_on(w, daily[i].0)
            == keys_on(keys, daily[i].0)) by {
            if i < t.len() {
                assert(t[i] == daily[i]);
                assert(daily[i].0 != daily[daily.len() - 1].0);
                assert(hours_of(w, daily[i].0) == hours_of(r, daily[i].0));
            }
        }
        assert forall|x: i64| !tally::has_key(daily, x) implies #[trigger] hours_of(w, x)
            == hours_of(h, x) && hours_on(w, x) == hours_on(h, x) by {
            if tally::has_key(t, x) {
                let i = choose|i: int| 0 <= i < t.len() && (#[trigger] t[i]).0 == x;
                assert(daily[i].0 == x);
            }
            assert(x != d);
            assert(hours_of(r, x) == hours_of(h, x));
        }
    }
}

/// After healing every day is the sum of its keys, and its hours add up to it where they had
/// an amount before. Hours without an amount, days that added up before, keys and active
/// seconds stay as they are, and healing again changes nothing.
pub proof fn lemma_healing_is_final(db: YearDb)
    requires
        db.wf(),
    ensures
        healed(db@).daily.len() == db@.daily.len(),
        forall|i: int|
            0 <= i < db@.daily.len() ==> (#[trigger] healed(db@).daily[i]).0 == db@.daily[i].0
                && day_is_sound(healed(db@), i),
        forall|i: int|
            0 <= i < db@.daily.len() && #[trigger] day_is_sound(db@, i) ==> healed(db@).daily[i]
                == db@.daily[i] && hours_of(healed(db@).hourly, db@.daily[i].0) == hours_of(
                db@.hourly,
                db@.daily[i].0,
            ),
        forall|i: int|
            0 <= i < db@.daily.len() && hours_on(db@.hourly, (#[trigger] db@.daily[i]).0) > 0
                ==> hours_on(healed(db@).hourly, db@.daily[i].0) == healed(db@).daily[i].1,
        forall|i: int|
            0 <= i < db@.daily.len() && hours_on(db@.hourly, (#[trigger] db@.daily[i]).0) == 0
                ==> hours_of(healed(db@).hourly, db@.daily[i].0) == hours_of(
                db@.hourly,
                db@.daily[i].0,
            ),
        healed(db@).keys == db@.keys,
        healed(db@).seconds == db@.seconds,
        healed(healed(db@)) == healed(db@),
{
    let y = db@;
    let z = healed(y);
    lemma_healed_hours(y.hourly, y.daily, y.keys);
    assert forall|i: int| 0 <= i < z.daily.len() implies settled(
        z.hourly,
        (#[trigger] z.daily[i]).0,
        keys_on(z.keys, z.daily[i].0),
    ) by {
        assert(z.daily[i].0 == y.daily[i].0);
    }
    lemma_steady(z.hourly, z.daily, z.keys);
    assert(true_days(z.daily, z.keys) =~= z.daily);
}

/// Taking something out of a day leaves its hours with less, by their part at least, and the
/// other days alone.
pub proof fn lemma_emptied_hours(s: Hours, day: i64, e: int, b: int, other: i64)
    requires
        tally::distinct(s),
        tally::nonneg(s),
        b > 0,
        e > 0,
    ensures
        other != day ==> hours_of(positive_on(spread(s, day, e, b), day), other) == hours_of(
            s,
            other,
        ),
        forall|i: int|
            #![trigger positive_on(spread(s, day, e, b), day)[i]]
            0 <= i < positive_on(spread(s, day, e, b), day).len() && positive_on(
                spread(s, day, e, b),
                day,
            )[i].0.0 == day ==> {
                let w = positive_on(spread(s, day, e, b), day)[i];
                let n = tally::amount(s, w.0);
                tally::has_key(s, w.0) && 0 < w.1 <= n - (n * e) / b
            },
{
    let a = spread(s, day, e, b);
    let q = positive_on(a, day);
    lemma_spread_rows(s, day, e, b);
    lemma_positive(a, day);
    if other != day {
        lemma_other_hours(s, a, day, other);
    }
    if has_hours(s, day) {
        let top = lemma_hours_give_their_part(s, day, e, b);
    }
    assert forall|i: int| #![trigger q[i]] 0 <= i < q.len() && q[i].0.0 == day implies ({
        let n = tally::amount(s, q[i].0);
        tally::has_key(s, q[i].0) && 0 < q[i].1 <= n - (n * e) / b
    }) by {
        let k = choose|k: int| 0 <= k < a.len() && a[k] == q[i];
        assert(a[k].0 == s[k].0);
        assert(s[k].0.0 == day);
        tally::lemma_amount_at(s, k);
    }
}

/// The days whose hours do not add up are those that have hours, but not as many presses in
/// them as the day; a day is wrong where it does not have the presses of its keys.
pub proof fn lemma_days_off(daily: Seq<(i64, int)>, h: Hours, day: i64)
    ensures
        days_off(daily, h).contains(day) <==> exists|i: int|
            0 <= i < daily.len() && (#[trigger] daily[i]).0 == day && (exists|k: int|
                0 <= k < h.len() && (#[trigger] h[k]).0.0 == day) && tally::sum_if(
                h,
                tally::on_day::<(i64, i64)>(day as int),
            ) != daily[i].1,
    decreases daily.len(),
{
    if daily.len() > 0 {
        let t = daily.drop_last();
        let r = days_off(t, h);
        let a = days_off(daily, h);
        lemma_days_off(t, h, day);
        assert(daily[daily.len() - 1] == daily.last());
        if r.contains(day) {
            let k = choose|k: int| 0 <= k < r.len() && r[k] == day;
            assert(a[k] == day);
            let i = choose|i: int|
                0 <= i < t.len() && (#[trigger] t[i]).0 == day && (exists|k: int|
                    0 <= k < h.len() && (#[trigger] h[k]).0.0 == day) && tally::sum_if(
                    h,
                    tally::on_day::<(i64, i64)>(day as int),
                ) != t[i].1;
            assert(daily[i] == t[i]);
        }
        if off(h, daily.last().0, daily.last().1) {
            assert(a[a.len() - 1] == daily.last().0);
        }
        if a.contains(day) {
            let k = choose|k: int| 0 <= k < a.len() && a[k] == day;
            if k < r.len() {
                assert(r[k] == day);
            }
        }
        if exists|i: int|
            0 <= i < daily.len() && (#[trigger] daily[i]).0 == day && (exists|k: int|
                0 <= k < h.len() && (#[trigger] h[k]).0.0 == day) && tally::sum_if(
                h,
                tally::on_day::<(i64, i64)>(day as int),
            ) != daily[i].1 {
            let i = choose|i: int|
                0 <= i < daily.len() && (#[trigger] daily[i]).0 == day && (exists|k: int|
                    0 <= k < h.len() && (#[trigger] h[k]).0.0 == day) && tally::sum_if(
                    h,
                    tally::on_day::<(i64, i64)>(day as int),
                ) != daily[i].1;
            if i < t.len() {
                assert(t[i] == daily[i]);
            }
        }
    }
}

} // verus!
