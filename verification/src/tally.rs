//! Counting tables: rows keyed by a day, an hour, a name or a tuple of those,
//! each row with one non-negative amount.
//!
//! The mathematical model of a table is the sequence of its entries
//! `(key, amount)` in the order in which the keys first came in. No key occurs
//! twice. Writing to a table is accumulation: an amount is added to the row of
//! its key, and the row is created where there is none.
use vstd::prelude::*;

use crate::text::str_eq;

verus! {

/// Whether some entry of `s` has the key `k`.
pub open spec fn has_key<V>(s: Seq<(V, int)>, k: V) -> bool {
    exists|i: int| 0 <= i < s.len() && (#[trigger] s[i]).0 == k
}

/// No two entries have the same key.
pub open spec fn distinct<V>(s: Seq<(V, int)>) -> bool {
    forall|i: int, j: int| 0 <= i < j < s.len() ==> (#[trigger] s[i]).0 != (#[trigger] s[j]).0
}

/// No amount is negative.
pub open spec fn nonneg<V>(s: Seq<(V, int)>) -> bool {
    forall|i: int| 0 <= i < s.len() ==> (#[trigger] s[i]).1 >= 0
}

/// The sum of the amounts whose key satisfies `p`.
pub open spec fn sum_if<V>(s: Seq<(V, int)>, p: spec_fn(V) -> bool) -> int
    decreases s.len(),
{
    if s.len() == 0 {
        0
    } else {
        sum_if(s.drop_last(), p) + (if p(s.last().0) { s.last().1 } else { 0 })
    }
}

/// The sum of all amounts.
pub open spec fn total<V>(s: Seq<(V, int)>) -> int {
    sum_if(s, |v: V| true)
}

/// The amount of key `k`; 0 where there is no such row.
pub open spec fn amount<V>(s: Seq<(V, int)>, k: V) -> int {
    sum_if(s, |v: V| v == k)
}

/// `s` with `n` added to the row of `k`.
pub open spec fn bump<V>(s: Seq<(V, int)>, k: V, n: int) -> Seq<(V, int)> {
    if has_key(s, k) {
        Seq::new(
            s.len(),
            |i: int|
                if s[i].0 == k {
                    (k, s[i].1 + n)
                } else {
                    s[i]
                },
        )
    } else {
        s.push((k, n))
    }
}

/// `dst` with every entry of `src` added to it, in order.
pub open spec fn absorb<V>(dst: Seq<(V, int)>, src: Seq<(V, int)>) -> Seq<(V, int)>
    decreases src.len(),
{
    if src.len() == 0 {
        dst
    } else {
        bump(absorb(dst, src.drop_last()), src.last().0, src.last().1)
    }
}

/// The entries whose key satisfies `q`, in order.
pub open spec fn keep<V>(s: Seq<(V, int)>, q: spec_fn(V) -> bool) -> Seq<(V, int)>
    decreases s.len(),
{
    if s.len() == 0 {
        s
    } else {
        let r = keep(s.drop_last(), q);
        if q(s.last().0) {
            r.push(s.last())
        } else {
            r
        }
    }
}

/// The keys of the entries, in order.
pub open spec fn keys<V>(s: Seq<(V, int)>) -> Seq<V> {
    Seq::new(s.len(), |i: int| s[i].0)
}

pub proof fn lemma_sum_push<V>(s: Seq<(V, int)>, e: (V, int), p: spec_fn(V) -> bool)
    ensures
        sum_if(s.push(e), p) == sum_if(s, p) + (if p(e.0) { e.1 } else { 0 }),
{
    assert(s.push(e).drop_last() =~= s);
}

/// Sums agree where the predicates agree on the keys that occur.
pub proof fn lemma_sum_same<V>(s: Seq<(V, int)>, p: spec_fn(V) -> bool, q: spec_fn(V) -> bool)
    requires
        forall|i: int| 0 <= i < s.len() ==> p((#[trigger] s[i]).0) == q(s[i].0),
    ensures
        sum_if(s, p) == sum_if(s, q),
    decreases s.len(),
{
    if s.len() > 0 {
        let t = s.drop_last();
        assert forall|i: int| 0 <= i < t.len() implies p((#[trigger] t[i]).0) == q(t[i].0) by {
            assert(t[i] == s[i]);
        }
        lemma_sum_same(t, p, q);
        assert(s.last() == s[s.len() - 1]);
    }
}

pub proof fn lemma_sum_none<V>(s: Seq<(V, int)>, p: spec_fn(V) -> bool)
    requires
        forall|i: int| 0 <= i < s.len() ==> !p((#[trigger] s[i]).0),
    ensures
        sum_if(s, p) == 0,
    decreases s.len(),
{
    if s.len() > 0 {
        let t = s.drop_last();
        assert forall|i: int| 0 <= i < t.len() implies !p((#[trigger] t[i]).0) by {
            assert(t[i] == s[i]);
        }
        lemma_sum_none(t, p);
        assert(s.last() == s[s.len() - 1]);
    }
}

/// Splitting a predicate splits the sum.
pub proof fn lemma_sum_split<V>(s: Seq<(V, int)>, p: spec_fn(V) -> bool, q: spec_fn(V) -> bool)
    ensures
        sum_if(s, p) == sum_if(s, |v: V| p(v) && q(v)) + sum_if(s, |v: V| p(v) && !q(v)),
    decreases s.len(),
{
    if s.len() > 0 {
        lemma_sum_split(s.drop_last(), p, q);
    }
}

/// With non-negative amounts every partial sum lies between 0 and the total.
pub proof fn lemma_sum_bounds<V>(s: Seq<(V, int)>, p: spec_fn(V) -> bool)
    requires
        nonneg(s),
    ensures
        0 <= sum_if(s, p) <= total(s),
    decreases s.len(),
{
    if s.len() > 0 {
        let t = s.drop_last();
        assert forall|i: int| 0 <= i < t.len() implies (#[trigger] t[i]).1 >= 0 by {
            assert(t[i] == s[i]);
        }
        lemma_sum_bounds(t, p);
        assert(s.last() == s[s.len() - 1]);
    }
}

/// A larger predicate gives a larger sum.
pub proof fn lemma_sum_mono<V>(s: Seq<(V, int)>, p: spec_fn(V) -> bool, q: spec_fn(V) -> bool)
    requires
        nonneg(s),
        forall|v: V| #![trigger p(v)] p(v) ==> q(v),
    ensures
        sum_if(s, p) <= sum_if(s, q),
    decreases s.len(),
{
    if s.len() > 0 {
        let t = s.drop_last();
        assert forall|i: int| 0 <= i < t.len() implies (#[trigger] t[i]).1 >= 0 by {
            assert(t[i] == s[i]);
        }
        lemma_sum_mono(t, p, q);
        assert(s.last() == s[s.len() - 1]);
    }
}

pub proof fn lemma_distinct_prefix<V>(s: Seq<(V, int)>)
    requires
        distinct(s),
        s.len() > 0,
    ensures
        distinct(s.drop_last()),
        !has_key(s.drop_last(), s.last().0),
{
    let t = s.drop_last();
    assert forall|i: int, j: int| 0 <= i < j < t.len() implies (#[trigger] t[i]).0 != (#[trigger] t[
    j]).0 by {
        assert(t[i] == s[i] && t[j] == s[j]);
    }
    assert forall|i: int| 0 <= i < t.len() implies (#[trigger] t[i]).0 != s.last().0 by {
        assert(t[i] == s[i] && s.last() == s[s.len() - 1]);
    }
}

/// A missing key has amount 0.
pub proof fn lemma_amount_missing<V>(s: Seq<(V, int)>, k: V)
    requires
        !has_key(s, k),
    ensures
        amount(s, k) == 0,
{
    lemma_sum_none(s, |v: V| v == k);
}

/// The amount of a key is what its row holds.
pub proof fn lemma_amount_at<V>(s: Seq<(V, int)>, i: int)
    requires
        distinct(s),
        0 <= i < s.len(),
    ensures
        amount(s, s[i].0) == s[i].1,
    decreases s.len(),
{
    let k = s[i].0;
    let t = s.drop_last();
    lemma_distinct_prefix(s);
    if i == s.len() - 1 {
        lemma_amount_missing(t, k);
    } else {
        assert(t[i] == s[i]);
        lemma_amount_at(t, i);
        assert(s.last() == s[s.len() - 1]);
    }
}

/// The amount of a key is the sum over any predicate that holds of that key only.
pub proof fn lemma_amount_is<V>(s: Seq<(V, int)>, k: V, p: spec_fn(V) -> bool)
    requires
        forall|v: V| #![trigger p(v)] p(v) == (v == k),
    ensures
        amount(s, k) == sum_if(s, p),
{
    lemma_sum_same(s, |v: V| v == k, p);
}

/// No amount is more than the total.
pub proof fn lemma_amount_bound<V>(s: Seq<(V, int)>, k: V)
    requires
        nonneg(s),
    ensures
        0 <= amount(s, k) <= total(s),
{
    lemma_sum_bounds(s, |v: V| v == k);
}

pub proof fn lemma_bump_drop<V>(s: Seq<(V, int)>, k: V, n: int)
    requires
        s.len() > 0,
        has_key(s, k),
    ensures
        bump(s, k, n).len() == s.len(),
        bump(s, k, n).last() == (if s.last().0 == k { (k, s.last().1 + n) } else { s.last() }),
        has_key(s.drop_last(), k) ==> bump(s, k, n).drop_last() == bump(s.drop_last(), k, n),
        !has_key(s.drop_last(), k) ==> bump(s, k, n).drop_last() == s.drop_last(),
{
    let t = s.drop_last();
    if has_key(t, k) {
        assert(bump(s, k, n).drop_last() =~= bump(t, k, n));
    } else {
        assert forall|i: int| 0 <= i < t.len() implies s[i].0 != k by {
            assert(t[i] == s[i]);
        }
        assert(bump(s, k, n).drop_last() =~= t);
    }
}

/// Accumulating changes each sum by exactly the amount that was added.
pub proof fn lemma_bump_sum<V>(s: Seq<(V, int)>, k: V, n: int, p: spec_fn(V) -> bool)
    requires
        distinct(s),
    ensures
        sum_if(bump(s, k, n), p) == sum_if(s, p) + (if p(k) { n } else { 0 }),
    decreases s.len(),
{
    if !has_key(s, k) {
        lemma_sum_push(s, (k, n), p);
    } else {
        let t = s.drop_last();
        assert(s.len() > 0);
        lemma_distinct_prefix(s);
        lemma_bump_drop(s, k, n);
        if has_key(t, k) {
            let i = choose|i: int| 0 <= i < t.len() && (#[trigger] t[i]).0 == k;
            assert(s[i] == t[i] && s.last() == s[s.len() - 1]);
            assert(s.last().0 != k);
            lemma_bump_sum(t, k, n, p);
        } else {
            let i = choose|i: int| 0 <= i < s.len() && (#[trigger] s[i]).0 == k;
            if i < t.len() {
                assert(t[i] == s[i]);
            }
            assert(s.last().0 == k);
        }
    }
}

/// Accumulating changes the amount of its key by exactly what was added.
pub proof fn lemma_bump_amount<V>(s: Seq<(V, int)>, k: V, n: int)
    requires
        distinct(s),
    ensures
        amount(bump(s, k, n), k) == amount(s, k) + n,
{
    lemma_bump_sum(s, k, n, |v: V| v == k);
}

/// Accumulating adds to the total what was added.
pub proof fn lemma_bump_total<V>(s: Seq<(V, int)>, k: V, n: int)
    requires
        distinct(s),
    ensures
        total(bump(s, k, n)) == total(s) + n,
{
    lemma_bump_sum(s, k, n, |v: V| true);
}

/// Accumulating changes the amount of the key that it is for and no other.
pub proof fn lemma_bump_each<V>(s: Seq<(V, int)>, k: V, n: int, x: V)
    requires
        distinct(s),
    ensures
        amount(bump(s, k, n), x) == amount(s, x) + (if x == k {
            n
        } else {
            0
        }),
{
    lemma_bump_sum(s, k, n, |v: V| v == x);
}

/// Accumulating keeps the keys distinct, adds no key but `k`, and keeps the rest.
pub proof fn lemma_bump_shape<V>(s: Seq<(V, int)>, k: V, n: int)
    requires
        distinct(s),
    ensures
        distinct(bump(s, k, n)),
        has_key(bump(s, k, n), k),
        forall|x: V| #[trigger] has_key(bump(s, k, n), x) <==> has_key(s, x) || x == k,
        nonneg(s) && n >= 0 ==> nonneg(bump(s, k, n)),
{
    let b = bump(s, k, n);
    if has_key(s, k) {
        let i0 = choose|i: int| 0 <= i < s.len() && (#[trigger] s[i]).0 == k;
        assert(b[i0].0 == k);
        assert forall|x: V| #[trigger] has_key(b, x) implies has_key(s, x) || x == k by {
            let i = choose|i: int| 0 <= i < b.len() && (#[trigger] b[i]).0 == x;
            assert(s[i].0 == x);
        }
        assert forall|x: V| has_key(s, x) implies #[trigger] has_key(b, x) by {
            let i = choose|i: int| 0 <= i < s.len() && (#[trigger] s[i]).0 == x;
            assert(b[i].0 == x);
        }
    } else {
        assert(b[s.len() as int].0 == k);
        assert forall|x: V| #[trigger] has_key(b, x) implies has_key(s, x) || x == k by {
            let i = choose|i: int| 0 <= i < b.len() && (#[trigger] b[i]).0 == x;
            if i < s.len() {
                assert(s[i].0 == x);
            }
        }
        assert forall|x: V| has_key(s, x) implies #[trigger] has_key(b, x) by {
            let i = choose|i: int| 0 <= i < s.len() && (#[trigger] s[i]).0 == x;
            assert(b[i].0 == x);
        }
    }
}

/// Merging adds the sums.
pub proof fn lemma_absorb_sum<V>(dst: Seq<(V, int)>, src: Seq<(V, int)>, p: spec_fn(V) -> bool)
    requires
        distinct(dst),
    ensures
        sum_if(absorb(dst, src), p) == sum_if(dst, p) + sum_if(src, p),
    decreases src.len(),
{
    if src.len() > 0 {
        lemma_absorb_sum(dst, src.drop_last(), p);
        lemma_absorb_shape(dst, src.drop_last());
        lemma_bump_sum(absorb(dst, src.drop_last()), src.last().0, src.last().1, p);
    }
}

/// Merging adds the amounts of each key.
pub proof fn lemma_absorb_amount<V>(dst: Seq<(V, int)>, src: Seq<(V, int)>, k: V)
    requires
        distinct(dst),
    ensures
        amount(absorb(dst, src), k) == amount(dst, k) + amount(src, k),
{
    lemma_absorb_sum(dst, src, |v: V| v == k);
}

/// Merging keeps the keys distinct and joins the key sets.
pub proof fn lemma_absorb_shape<V>(dst: Seq<(V, int)>, src: Seq<(V, int)>)
    requires
        distinct(dst),
    ensures
        distinct(absorb(dst, src)),
        forall|x: V| #[trigger] has_key(absorb(dst, src), x) <==> has_key(dst, x) || has_key(src, x),
        nonneg(dst) && nonneg(src) ==> nonneg(absorb(dst, src)),
    decreases src.len(),
{
    if src.len() > 0 {
        let t = src.drop_last();
        lemma_absorb_shape(dst, t);
        let a = absorb(dst, t);
        lemma_bump_shape(a, src.last().0, src.last().1);
        assert(src.last() == src[src.len() - 1]);
        assert forall|x: V| #[trigger] has_key(absorb(dst, src), x) <==> has_key(dst, x) || has_key(src, x) by {
            if has_key(t, x) {
                let i = choose|i: int| 0 <= i < t.len() && (#[trigger] t[i]).0 == x;
                assert(src[i].0 == x);
            }
            if has_key(src, x) {
                let i = choose|i: int| 0 <= i < src.len() && (#[trigger] src[i]).0 == x;
                if i < t.len() {
                    assert(t[i].0 == x);
                }
            }
            assert(has_key(a, x) <==> has_key(dst, x) || has_key(t, x));
        }
        if nonneg(src) {
            assert forall|i: int| 0 <= i < t.len() implies (#[trigger] t[i]).1 >= 0 by {
                assert(t[i] == src[i]);
            }
        }
    }
}

/// What filtering leaves is exactly what satisfies the predicate, each row unchanged.
pub proof fn lemma_keep<V>(s: Seq<(V, int)>, q: spec_fn(V) -> bool)
    ensures
        forall|x: V| #[trigger] has_key(keep(s, q), x) <==> has_key(s, x) && q(x),
        forall|i: int|
            0 <= i < keep(s, q).len() ==> s.contains(#[trigger] keep(s, q)[i]) && q(
                keep(s, q)[i].0,
            ),
        distinct(s) ==> distinct(keep(s, q)),
        nonneg(s) ==> nonneg(keep(s, q)),
        keep(s, q).len() <= s.len(),
    decreases s.len(),
{
    if s.len() > 0 {
        let t = s.drop_last();
        lemma_keep(t, q);
        let r = keep(t, q);
        let k = keep(s, q);
        assert(s.last() == s[s.len() - 1]);
        assert forall|x: V| #[trigger] has_key(k, x) <==> has_key(s, x) && q(x) by {
            if has_key(k, x) {
                let i = choose|i: int| 0 <= i < k.len() && (#[trigger] k[i]).0 == x;
                if i < r.len() {
                    assert(r[i].0 == x);
                    assert(has_key(r, x));
                    let j = choose|j: int| 0 <= j < t.len() && (#[trigger] t[j]).0 == x;
                    assert(s[j].0 == x);
                } else {
                    assert(s[s.len() - 1].0 == x);
                }
            }
            if has_key(s, x) && q(x) {
                let i = choose|i: int| 0 <= i < s.len() && (#[trigger] s[i]).0 == x;
                if i < t.len() {
                    assert(t[i].0 == x);
                    assert(has_key(r, x));
                    let j = choose|j: int| 0 <= j < r.len() && (#[trigger] r[j]).0 == x;
                    assert(k[j].0 == x);
                } else {
                    assert(k[k.len() - 1].0 == x);
                }
            }
        }
        assert forall|i: int| 0 <= i < k.len() implies s.contains(#[trigger] k[i]) && q(k[i].0) by {
            if i < r.len() {
                assert(k[i] == r[i]);
                assert(t.contains(r[i]));
                let j = choose|j: int| 0 <= j < t.len() && t[j] == r[i];
                assert(s[j] == k[i]);
            } else {
                assert(s[s.len() - 1] == k[i]);
            }
        }
        if distinct(s) {
            lemma_distinct_prefix(s);
            assert forall|i: int, j: int| 0 <= i < j < k.len() implies (#[trigger] k[i]).0 != (
            #[trigger] k[j]).0 by {
                if j < r.len() {
                    assert(k[i] == r[i] && k[j] == r[j]);
                } else {
                    assert(k[i] == r[i]);
                    assert(has_key(r, r[i].0));
                }
            }
        }
        if nonneg(s) {
            assert forall|i: int| 0 <= i < t.len() implies (#[trigger] t[i]).1 >= 0 by {
                assert(t[i] == s[i]);
            }
        }
    }
}

/// A sum over filtered rows is the sum over the rows that satisfy both predicates.
pub proof fn lemma_keep_sum<V>(s: Seq<(V, int)>, q: spec_fn(V) -> bool, p: spec_fn(V) -> bool)
    ensures
        sum_if(keep(s, q), p) == sum_if(s, |v: V| p(v) && q(v)),
    decreases s.len(),
{
    if s.len() > 0 {
        lemma_keep_sum(s.drop_last(), q, p);
        if q(s.last().0) {
            lemma_sum_push(keep(s.drop_last(), q), s.last(), p);
        }
    }
}

/// Filtering keeps the amounts of the keys that satisfy the predicate.
pub proof fn lemma_keep_amount<V>(s: Seq<(V, int)>, q: spec_fn(V) -> bool, k: V)
    requires
        q(k),
    ensures
        amount(keep(s, q), k) == amount(s, k),
{
    let p = |v: V| v == k;
    lemma_keep_sum(s, q, p);
    lemma_sum_same(s, |v: V| p(v) && q(v), p);
}

/// Filtering does not make the total larger.
pub proof fn lemma_keep_total<V>(s: Seq<(V, int)>, q: spec_fn(V) -> bool)
    requires
        nonneg(s),
    ensures
        total(keep(s, q)) == sum_if(s, q),
        0 <= total(keep(s, q)) <= total(s),
{
    let p = |v: V| true;
    lemma_keep_sum(s, q, p);
    lemma_sum_same(s, |v: V| p(v) && q(v), q);
    lemma_sum_bounds(s, q);
}

/// Every entry of a prefix is an entry of the whole.
pub proof fn lemma_prefix_sum<V>(s: Seq<(V, int)>, n: int, p: spec_fn(V) -> bool)
    requires
        0 <= n <= s.len(),
        nonneg(s),
    ensures
        sum_if(s.take(n), p) <= sum_if(s, p),
        nonneg(s.take(n)),
    decreases s.len() - n,
{
    assert forall|i: int| 0 <= i < n implies (#[trigger] s.take(n)[i]).1 >= 0 by {
        assert(s.take(n)[i] == s[i]);
    }
    if n < s.len() {
        lemma_prefix_sum(s, n + 1, p);
        assert(s.take(n + 1).drop_last() =~= s.take(n));
        assert(s.take(n + 1).last() == s[n]);
    } else {
        assert(s.take(n) =~= s);
    }
}

/// The entries under other keys.
pub open spec fn rekey<V, W>(s: Seq<(V, int)>, f: spec_fn(V) -> W) -> Seq<(W, int)> {
    Seq::new(s.len(), |i: int| (f(s[i].0), s[i].1))
}

/// Sums over other keys are sums over what the keys stand for.
pub proof fn lemma_rekey_sum<V, W>(s: Seq<(V, int)>, f: spec_fn(V) -> W, p: spec_fn(W) -> bool)
    ensures
        sum_if(rekey(s, f), p) == sum_if(s, |v: V| p(f(v))),
    decreases s.len(),
{
    if s.len() > 0 {
        lemma_rekey_sum(s.drop_last(), f, p);
        assert(rekey(s, f).drop_last() =~= rekey(s.drop_last(), f));
    }
}

/// Other keys leave the total and the signs alone.
pub proof fn lemma_rekey_total<V, W>(s: Seq<(V, int)>, f: spec_fn(V) -> W)
    ensures
        total(rekey(s, f)) == total(s),
        nonneg(s) ==> nonneg(rekey(s, f)),
{
    let p = |w: W| true;
    lemma_rekey_sum(s, f, p);
    lemma_sum_same(s, |v: V| p(f(v)), |v: V| true);
}

/// What a row of a table can be keyed by.
pub trait RowKey: View + Sized {
    /// Whether two keys denote the same row.
    fn same(&self, other: &Self) -> (r: bool)
        ensures
            r == (self@ == other@),
    ;

    /// A copy of the key.
    fn dup(&self) -> (r: Self)
        ensures
            r@ == self@,
    ;
}

/// A key that names a day.
pub trait Dated: RowKey {
    /// The day that the key names.
    spec fn day_of(v: Self::V) -> int;

    /// The day that the key names.
    fn day(&self) -> (r: i64)
        ensures
            r == Self::day_of(self@),
    ;

    /// The day of a key fits in `i64`.
    proof fn day_bounds(k: Self)
        ensures
            i64::MIN <= Self::day_of(k@) <= i64::MAX,
    ;
}

impl RowKey for i64 {
    fn same(&self, other: &Self) -> (r: bool) {
        *self == *other
    }

    fn dup(&self) -> (r: Self) {
        *self
    }
}

impl Dated for i64 {
    open spec fn day_of(v: i64) -> int {
        v as int
    }

    fn day(&self) -> (r: i64) {
        *self
    }

    proof fn day_bounds(k: Self) {
    }
}

impl RowKey for (i64, i64) {
    fn same(&self, other: &Self) -> (r: bool) {
        self.0 == other.0 && self.1 == other.1
    }

    fn dup(&self) -> (r: Self) {
        (self.0, self.1)
    }
}

impl Dated for (i64, i64) {
    open spec fn day_of(v: (i64, i64)) -> int {
        v.0 as int
    }

    fn day(&self) -> (r: i64) {
        self.0
    }

    proof fn day_bounds(k: Self) {
    }
}

impl RowKey for String {
    fn same(&self, other: &Self) -> (r: bool) {
        str_eq(self.as_str(), other.as_str())
    }

    fn dup(&self) -> (r: Self) {
        self.clone()
    }
}

impl RowKey for (i64, String) {
    fn same(&self, other: &Self) -> (r: bool) {
        self.0 == other.0 && str_eq(self.1.as_str(), other.1.as_str())
    }

    fn dup(&self) -> (r: Self) {
        (self.0, self.1.clone())
    }
}

impl Dated for (i64, String) {
    open spec fn day_of(v: (i64, Seq<char>)) -> int {
        v.0 as int
    }

    fn day(&self) -> (r: i64) {
        self.0
    }

    proof fn day_bounds(k: Self) {
    }
}

impl RowKey for (i64, String, String) {
    fn same(&self, other: &Self) -> (r: bool) {
        self.0 == other.0 && str_eq(self.1.as_str(), other.1.as_str()) && str_eq(
            self.2.as_str(),
            other.2.as_str(),
        )
    }

    fn dup(&self) -> (r: Self) {
        (self.0, self.1.clone(), self.2.clone())
    }
}

impl Dated for (i64, String, String) {
    open spec fn day_of(v: (i64, Seq<char>, Seq<char>)) -> int {
        v.0 as int
    }

    fn day(&self) -> (r: i64) {
        self.0
    }

    proof fn day_bounds(k: Self) {
    }
}

impl RowKey for (i64, i64, String) {
    fn same(&self, other: &Self) -> (r: bool) {
        self.0 == other.0 && self.1 == other.1 && str_eq(self.2.as_str(), other.2.as_str())
    }

    fn dup(&self) -> (r: Self) {
        (self.0, self.1, self.2.clone())
    }
}

impl Dated for (i64, i64, String) {
    open spec fn day_of(v: (i64, i64, Seq<char>)) -> int {
        v.0 as int
    }

    fn day(&self) -> (r: i64) {
        self.0
    }

    proof fn day_bounds(k: Self) {
    }
}

/// A counting table.
pub struct Tally<K: RowKey> {
    /// The rows, in the order in which their keys first came in.
    pub rows: Vec<(K, i64)>,
}

impl<K: RowKey> View for Tally<K> {
    type V = Seq<(K::V, int)>;

    open spec fn view(&self) -> Seq<(K::V, int)> {
        Seq::new(self.rows@.len(), |i: int| (self.rows@[i].0@, self.rows@[i].1 as int))
    }
}

impl<K: RowKey> Tally<K> {
    /// Keys are distinct, amounts are not negative, and their sum fits in `i64`.
    pub open spec fn wf(&self) -> bool {
        &&& distinct(self@)
        &&& nonneg(self@)
        &&& total(self@) <= i64::MAX
    }

    /// An empty table.
    pub fn new() -> (r: Self)
        ensures
            r.wf(),
            r@ == Seq::<(K::V, int)>::empty(),
    {
        let r = Tally { rows: Vec::new() };
        assert(r@ =~= Seq::<(K::V, int)>::empty());
        r
    }

    /// The number of rows.
    pub fn len(&self) -> (r: usize)
        ensures
            r == self@.len(),
    {
        self.rows.len()
    }

    /// Whether there is no row.
    pub fn is_empty(&self) -> (r: bool)
        ensures
            r == (self@.len() == 0),
    {
        self.rows.len() == 0
    }

    /// The index of the row of `key`, or the number of rows where there is none.
    pub fn find(&self, key: &K) -> (r: usize)
        ensures
            r <= self@.len(),
            r < self@.len() ==> self@[r as int].0 == key@,
            r == self@.len() ==> !has_key(self@, key@),
    {
        let mut i: usize = 0;
        while i < self.rows.len()
            invariant
                i <= self.rows.len(),
                forall|j: int| 0 <= j < i ==> (#[trigger] self@[j]).0 != key@,
            decreases self.rows.len() - i,
        {
            if self.rows[i].0.same(key) {
                return i;
            }
            i = i + 1;
        }
        i
    }

    /// Whether there is a row of `key`.
    pub fn contains(&self, key: &K) -> (r: bool)
        ensures
            r == has_key(self@, key@),
    {
        let i = self.find(key);
        i < self.rows.len()
    }

    /// The amount of `key`; 0 where there is no row.
    pub fn get(&self, key: &K) -> (r: i64)
        requires
            self.wf(),
        ensures
            r == amount(self@, key@),
            0 <= r,
    {
        let i = self.find(key);
        if i < self.rows.len() {
            proof {
                lemma_amount_at(self@, i as int);
            }
            self.rows[i].1
        } else {
            proof {
                lemma_amount_missing(self@, key@);
            }
            0
        }
    }

    /// Adds `n` to the row of `key`, creating the row where there is none.
    pub fn bump(&mut self, key: K, n: i64)
        requires
            old(self).wf(),
            n >= 0,
            total(old(self)@) + n <= i64::MAX,
        ensures
            final(self).wf(),
            final(self)@ == bump(old(self)@, key@, n as int),
            total(final(self)@) == total(old(self)@) + n,
    {
        let ghost s = self@;
        proof {
            lemma_bump_shape(s, key@, n as int);
            lemma_bump_sum(s, key@, n as int, |v: K::V| true);
        }
        let i = self.find(&key);
        if i < self.rows.len() {
            proof {
                assert(s[i as int].0 == key@);
                assert(has_key(s, key@));
                lemma_amount_at(s, i as int);
                lemma_sum_bounds(s, |v: K::V| v == key@);
            }
            let old_n: i64 = self.rows[i].1;
            self.rows[i] = (key, old_n + n);
            proof {
                assert forall|j: int| 0 <= j < s.len() && j != i implies s[j].0 != key@ by {
                    if j < i {
                        assert(s[j].0 != s[i as int].0);
                    } else {
                        assert(s[i as int].0 != s[j].0);
                    }
                }
                assert(self@ =~= bump(s, key@, n as int));
            }
        } else {
            self.rows.push((key, n));
            assert(self@ =~= bump(s, key@, n as int));
        }
    }

    /// Adds every row of `other`.
    pub fn absorb(&mut self, other: &Tally<K>)
        requires
            old(self).wf(),
            other.wf(),
            total(old(self)@) + total(other@) <= i64::MAX,
        ensures
            final(self).wf(),
            final(self)@ == absorb(old(self)@, other@),
            total(final(self)@) == total(old(self)@) + total(other@),
    {
        let ghost s = self@;
        let mut i: usize = 0;
        proof {
            assert(other@.take(0) =~= Seq::<(K::V, int)>::empty());
        }
        while i < other.rows.len()
            invariant
                i <= other.rows.len(),
                self.wf(),
                other.wf(),
                self@ == absorb(s, other@.take(i as int)),
                total(self@) == total(s) + total(other@.take(i as int)),
                total(s) + total(other@) <= i64::MAX,
            decreases other.rows.len() - i,
        {
            proof {
                let t1 = other@.take(i as int + 1);
                lemma_prefix_sum(other@, i as int + 1, |v: K::V| true);
                assert(t1.drop_last() =~= other@.take(i as int));
                assert(t1.last() == other@[i as int]);
            }
            let k = other.rows[i].0.dup();
            let n: i64 = other.rows[i].1;
            assert(other@[i as int].1 >= 0);
            self.bump(k, n);
            i = i + 1;
        }
        assert(other@.take(i as int) =~= other@);
    }

    /// A copy of the table.
    pub fn dup(&self) -> (r: Self)
        ensures
            r@ == self@,
    {
        let mut rows: Vec<(K, i64)> = Vec::new();
        let mut i: usize = 0;
        while i < self.rows.len()
            invariant
                i <= self.rows.len(),
                rows@.len() == i,
                forall|j: int|
                    0 <= j < i ==> (#[trigger] rows@[j]).0@ == self.rows@[j].0@ && rows@[j].1
                        == self.rows@[j].1,
            decreases self.rows.len() - i,
        {
            rows.push((self.rows[i].0.dup(), self.rows[i].1));
            i = i + 1;
        }
        let r = Tally { rows };
        assert(r@ =~= self@);
        r
    }

    /// The sum of all amounts.
    pub fn total(&self) -> (r: i64)
        requires
            self.wf(),
        ensures
            r == total(self@),
    {
        let mut acc: i64 = 0;
        let mut i: usize = 0;
        assert(self@.take(0) =~= Seq::<(K::V, int)>::empty());
        while i < self.rows.len()
            invariant
                i <= self.rows.len(),
                self.wf(),
                acc == total(self@.take(i as int)),
                0 <= acc,
            decreases self.rows.len() - i,
        {
            proof {
                let t1 = self@.take(i as int + 1);
                lemma_prefix_sum(self@, i as int + 1, |v: K::V| true);
                assert(t1.drop_last() =~= self@.take(i as int));
                assert(t1.last() == self@[i as int]);
                assert(self@[i as int].1 >= 0);
            }
            acc = acc + self.rows[i].1;
            i = i + 1;
        }
        assert(self@.take(i as int) =~= self@);
        acc
    }
}

/// The same keys with amount 0.
pub open spec fn zeros<V>(s: Seq<(V, int)>) -> Seq<(V, int)> {
    Seq::new(s.len(), |i: int| (s[i].0, 0int))
}

/// Rows of amount 0 change no sum.
pub proof fn lemma_zeros<V>(s: Seq<(V, int)>, p: spec_fn(V) -> bool)
    ensures
        sum_if(zeros(s), p) == 0,
        nonneg(zeros(s)),
        distinct(s) ==> distinct(zeros(s)),
        forall|x: V| #[trigger] has_key(zeros(s), x) <==> has_key(s, x),
    decreases s.len(),
{
    let z = zeros(s);
    if s.len() > 0 {
        lemma_zeros(s.drop_last(), p);
        assert(z.drop_last() =~= zeros(s.drop_last()));
    }
    if distinct(s) {
        assert forall|i: int, j: int| 0 <= i < j < z.len() implies (#[trigger] z[i]).0 != (
        #[trigger] z[j]).0 by {
            assert(s[i].0 != s[j].0);
        }
    }
    assert forall|x: V| #[trigger] has_key(z, x) <==> has_key(s, x) by {
        if has_key(z, x) {
            let i = choose|i: int| 0 <= i < z.len() && (#[trigger] z[i]).0 == x;
            assert(s[i].0 == x);
        }
        if has_key(s, x) {
            let i = choose|i: int| 0 <= i < s.len() && (#[trigger] s[i]).0 == x;
            assert(z[i].0 == x);
        }
    }
}

/// The amount of a key in a table of zeros is 0.
pub proof fn lemma_zero_amount<V>(s: Seq<(V, int)>, k: V)
    ensures
        amount(zeros(s), k) == 0,
{
    lemma_zeros(s, |v: V| v == k);
}

impl<K: RowKey> Tally<K> {
    /// Adds a row of amount 0 for each key of `other` that has none.
    pub fn cover(&mut self, other: &Tally<K>)
        requires
            old(self).wf(),
        ensures
            final(self).wf(),
            final(self)@ == absorb(old(self)@, zeros(other@)),
            total(final(self)@) == total(old(self)@),
    {
        let ghost s = self@;
        let ghost z = zeros(other@);
        let mut i: usize = 0;
        proof {
            assert(z.take(0) =~= Seq::<(K::V, int)>::empty());
        }
        while i < other.rows.len()
            invariant
                i <= other.rows.len(),
                z == zeros(other@),
                self.wf(),
                self@ == absorb(s, z.take(i as int)),
                total(self@) == total(s),
            decreases other.rows.len() - i,
        {
            proof {
                let t1 = z.take(i as int + 1);
                assert(t1.drop_last() =~= z.take(i as int));
                assert(t1.last() == (other@[i as int].0, 0int));
            }
            let k = other.rows[i].0.dup();
            self.bump(k, 0);
            i = i + 1;
        }
        assert(z.take(i as int) =~= z);
    }
}

/// The rows of the days from `from` up to but not with `to`.
pub open spec fn days_within<K: Dated>(from: int, to: int) -> spec_fn(K::V) -> bool {
    |v: K::V| from <= K::day_of(v) < to
}

/// The rows of the days outside of those.
pub open spec fn days_outside<K: Dated>(from: int, to: int) -> spec_fn(K::V) -> bool {
    |v: K::V| !(from <= K::day_of(v) < to)
}

/// The rows of one day.
pub open spec fn on_day<K: Dated>(day: int) -> spec_fn(K::V) -> bool {
    |v: K::V| K::day_of(v) == day
}

/// The rows of the days from `from` on.
pub open spec fn days_from<K: Dated>(from: int) -> spec_fn(K::V) -> bool {
    |v: K::V| from <= K::day_of(v)
}

impl<K: Dated> Tally<K> {
    /// The rows of the days from `from` up to but not with `to` (`inside`), or the others.
    pub fn select_days(&self, from: i64, to: i64, inside: bool) -> (r: Self)
        requires
            self.wf(),
        ensures
            r.wf(),
            r@ == keep(
                self@,
                if inside {
                    days_within::<K>(from as int, to as int)
                } else {
                    days_outside::<K>(from as int, to as int)
                },
            ),
            total(r@) <= total(self@),
            r@.len() <= self@.len(),
    {
        let ghost s = self@;
        let ghost q = if inside {
            days_within::<K>(from as int, to as int)
        } else {
            days_outside::<K>(from as int, to as int)
        };
        let mut rows: Vec<(K, i64)> = Vec::new();
        let mut i: usize = 0;
        let ghost done = Tally { rows };
        proof {
            assert(s.take(0) =~= Seq::<(K::V, int)>::empty());
            assert(done@ =~= Seq::<(K::V, int)>::empty());
        }
        while i < self.rows.len()
            invariant
                i <= self.rows.len(),
                s == self@,
                q == (if inside {
                    days_within::<K>(from as int, to as int)
                } else {
                    days_outside::<K>(from as int, to as int)
                }),
                (Tally { rows })@ == keep(s.take(i as int), q),
            decreases self.rows.len() - i,
        {
            let ghost before = (Tally { rows })@;
            proof {
                let t1 = s.take(i as int + 1);
                assert(t1.drop_last() =~= s.take(i as int));
                assert(t1.last() == s[i as int]);
            }
            let d = self.rows[i].0.day();
            let within = from <= d && d < to;
            if within == inside {
                rows.push((self.rows[i].0.dup(), self.rows[i].1));
                assert((Tally { rows })@ =~= before.push(s[i as int]));
            }
            i = i + 1;
        }
        let r = Tally { rows };
        proof {
            assert(s.take(i as int) =~= s);
            lemma_keep(s, q);
            lemma_keep_total(s, q);
        }
        r
    }
}

/// The rows but that of `k`.
pub open spec fn without<V>(s: Seq<(V, int)>, k: V) -> Seq<(V, int)> {
    keep(s, |v: V| v != k)
}

/// `s` with the amount of `k` set to `n`, where there is a row of `k`.
pub open spec fn put<V>(s: Seq<(V, int)>, k: V, n: int) -> Seq<(V, int)> {
    Seq::new(
        s.len(),
        |i: int|
            if s[i].0 == k {
                (k, n)
            } else {
                s[i]
            },
    )
}

/// Setting an amount is adding the difference.
pub proof fn lemma_put<V>(s: Seq<(V, int)>, k: V, n: int)
    requires
        distinct(s),
    ensures
        has_key(s, k) ==> put(s, k, n) == bump(s, k, n - amount(s, k)),
        !has_key(s, k) ==> put(s, k, n) == s,
{
    if has_key(s, k) {
        let j = choose|j: int| 0 <= j < s.len() && (#[trigger] s[j]).0 == k;
        lemma_amount_at(s, j);
        assert forall|i: int| 0 <= i < s.len() && (#[trigger] s[i]).0 == k implies i == j by {
            if i < j {
                assert(s[i].0 != s[j].0);
            }
            if j < i {
                assert(s[j].0 != s[i].0);
            }
        }
        assert(put(s, k, n) =~= bump(s, k, n - amount(s, k)));
    } else {
        assert forall|i: int| 0 <= i < s.len() implies (#[trigger] s[i]).0 != k by {}
        assert(put(s, k, n) =~= s);
    }
}

/// Sums over predicates that exclude each other add up.
pub proof fn lemma_sum_disjoint<V>(
    s: Seq<(V, int)>,
    p: spec_fn(V) -> bool,
    q: spec_fn(V) -> bool,
    r: spec_fn(V) -> bool,
)
    requires
        forall|v: V| #![trigger r(v)] r(v) == (p(v) || q(v)),
        forall|v: V| #![trigger p(v)] #![trigger q(v)] !(p(v) && q(v)),
    ensures
        sum_if(s, r) == sum_if(s, p) + sum_if(s, q),
    decreases s.len(),
{
    if s.len() > 0 {
        lemma_sum_disjoint(s.drop_last(), p, q, r);
        let v = s.last().0;
        assert(r(v) == (p(v) || q(v)));
        assert(!(p(v) && q(v)));
    }
}

impl<K: RowKey> Tally<K> {
    /// Drops the row of `key`.
    pub fn drop_key(&mut self, key: &K)
        requires
            old(self).wf(),
        ensures
            final(self).wf(),
            final(self)@ == without(old(self)@, key@),
            total(final(self)@) <= total(old(self)@),
    {
        let ghost s = self@;
        let ghost q = |v: K::V| v != key@;
        let mut rows: Vec<(K, i64)> = Vec::new();
        let mut i: usize = 0;
        assert((Tally { rows })@ =~= keep(s.take(0), q));
        while i < self.rows.len()
            invariant
                i <= self.rows.len(),
                s == self@,
                q == (|v: K::V| v != key@),
                (Tally { rows })@ == keep(s.take(i as int), q),
            decreases self.rows.len() - i,
        {
            let ghost before = (Tally { rows })@;
            proof {
                let t1 = s.take(i as int + 1);
                assert(t1.drop_last() =~= s.take(i as int));
                assert(t1.last() == s[i as int]);
            }
            if !self.rows[i].0.same(key) {
                rows.push((self.rows[i].0.dup(), self.rows[i].1));
                assert((Tally { rows })@ =~= before.push(s[i as int]));
            }
            i = i + 1;
        }
        self.rows = rows;
        proof {
            assert(s.take(i as int) =~= s);
            lemma_keep(s, q);
            lemma_keep_total(s, q);
        }
    }

    /// Sets the amount of `key`, where it has a row.
    pub fn put(&mut self, key: K, n: i64)
        requires
            old(self).wf(),
            n >= 0,
            total(old(self)@) - amount(old(self)@, key@) + n <= i64::MAX,
        ensures
            final(self).wf(),
            final(self)@ == put(old(self)@, key@, n as int),
    {
        let ghost s = self@;
        proof {
            lemma_put(s, key@, n as int);
            lemma_bump_shape(s, key@, n - amount(s, key@));
            lemma_bump_sum(s, key@, n - amount(s, key@), |v: K::V| true);
        }
        let i = self.find(&key);
        if i < self.rows.len() {
            self.rows[i] = (key, n);
            proof {
                assert forall|j: int| 0 <= j < s.len() && (#[trigger] s[j]).0 == key@ implies j
                    == i by {
                    if j < i {
                        assert(s[j].0 != s[i as int].0);
                    }
                    if i < j {
                        assert(s[i as int].0 != s[j].0);
                    }
                }
                assert(self@ =~= put(s, key@, n as int));
                assert(nonneg(self@)) by {
                    assert forall|j: int| 0 <= j < self@.len() implies (#[trigger] self@[j]).1
                        >= 0 by {
                        if j != i {
                            assert(self@[j] == s[j]);
                        }
                    }
                }
            }
        }
    }
}

/// Filtering by predicates that agree on the keys that occur is the same.
pub proof fn lemma_keep_same<V>(s: Seq<(V, int)>, p: spec_fn(V) -> bool, q: spec_fn(V) -> bool)
    requires
        forall|i: int| 0 <= i < s.len() ==> p((#[trigger] s[i]).0) == q(s[i].0),
    ensures
        keep(s, p) == keep(s, q),
    decreases s.len(),
{
    if s.len() > 0 {
        let t = s.drop_last();
        assert forall|i: int| 0 <= i < t.len() implies p((#[trigger] t[i]).0) == q(t[i].0) by {
            assert(t[i] == s[i]);
        }
        lemma_keep_same(t, p, q);
        assert(s.last() == s[s.len() - 1]);
    }
}

impl<K: Dated> Tally<K> {
    /// The rows of the days from `from` on.
    pub fn since(&self, from: i64) -> (r: Self)
        requires
            self.wf(),
        ensures
            r.wf(),
            r@ == keep(self@, days_from::<K>(from as int)),
            total(r@) <= total(self@),
            r@.len() <= self@.len(),
    {
        proof {
            let s = self@;
            let p = days_outside::<K>(i64::MIN as int, from as int);
            let q = days_from::<K>(from as int);
            assert forall|i: int| 0 <= i < s.len() implies p((#[trigger] s[i]).0) == q(s[i].0) by {
                assert(s[i].0 == self.rows@[i].0@);
                K::day_bounds(self.rows@[i].0);
            }
            lemma_keep_same(s, p, q);
        }
        self.select_days(i64::MIN, from, false)
    }
}

} // verus!
