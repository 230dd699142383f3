//! Ranking: a stable sort by a strict "goes ahead of" relation.
use vstd::prelude::*;

verus! {

/// Where `x` goes in `s`, searching from `from`: before the first entry that it goes
/// ahead of.
pub open spec fn slot<V>(s: Seq<V>, x: V, ahead: spec_fn(V, V) -> bool, from: int) -> int
    decreases s.len() - from,
{
    if from >= s.len() || ahead(x, s[from]) {
        from
    } else {
        slot(s, x, ahead, from + 1)
    }
}

/// `s` with `x` put in its place.
pub open spec fn settled<V>(s: Seq<V>, x: V, ahead: spec_fn(V, V) -> bool) -> Seq<V> {
    s.insert(slot(s, x, ahead, 0), x)
}

/// The entries of `s` in order; entries of equal rank keep their order.
pub open spec fn ranked<V>(s: Seq<V>, ahead: spec_fn(V, V) -> bool) -> Seq<V>
    decreases s.len(),
{
    if s.len() == 0 {
        s
    } else {
        settled(ranked(s.drop_last(), ahead), s.last(), ahead)
    }
}

/// No entry goes ahead of one that stands before it.
pub open spec fn in_order<V>(s: Seq<V>, ahead: spec_fn(V, V) -> bool) -> bool {
    forall|i: int, j: int| 0 <= i < j < s.len() ==> !ahead(#[trigger] s[j], #[trigger] s[i])
}

/// A relation that can rank: nothing goes ahead of itself in two steps, and not going
/// ahead carries over.
pub open spec fn ranks<V>(ahead: spec_fn(V, V) -> bool) -> bool {
    &&& forall|a: V, b: V| #[trigger] ahead(a, b) ==> !ahead(b, a)
    &&& forall|a: V, b: V, c: V|
        !(#[trigger] ahead(a, b)) && !(#[trigger] ahead(b, c)) ==> !ahead(a, c)
}

pub proof fn lemma_slot<V>(s: Seq<V>, x: V, ahead: spec_fn(V, V) -> bool, from: int)
    requires
        0 <= from <= s.len(),
    ensures
        from <= slot(s, x, ahead, from) <= s.len(),
        forall|i: int| from <= i < slot(s, x, ahead, from) ==> !ahead(x, #[trigger] s[i]),
        slot(s, x, ahead, from) < s.len() ==> ahead(x, s[slot(s, x, ahead, from)]),
    decreases s.len() - from,
{
    if from < s.len() && !ahead(x, s[from]) {
        lemma_slot(s, x, ahead, from + 1);
    }
}

/// Ranking keeps the entries and only moves them.
pub proof fn lemma_ranked_keeps<V>(s: Seq<V>, ahead: spec_fn(V, V) -> bool)
    ensures
        ranked(s, ahead).len() == s.len(),
        ranked(s, ahead).to_multiset() == s.to_multiset(),
    decreases s.len(),
{
    if s.len() > 0 {
        let t = s.drop_last();
        let r = ranked(t, ahead);
        lemma_ranked_keeps(t, ahead);
        let k = slot(r, s.last(), ahead, 0);
        lemma_slot(r, s.last(), ahead, 0);
        vstd::seq_lib::to_multiset_insert(r, k, s.last());
        vstd::seq_lib::to_multiset_build(t, s.last());
        assert(t.push(s.last()) =~= s);
    }
}

/// Ranking puts the entries in order.
pub proof fn lemma_ranked_in_order<V>(s: Seq<V>, ahead: spec_fn(V, V) -> bool)
    requires
        ranks(ahead),
    ensures
        in_order(ranked(s, ahead), ahead),
    decreases s.len(),
{
    if s.len() > 0 {
        let t = s.drop_last();
        let r = ranked(t, ahead);
        let x = s.last();
        lemma_ranked_in_order(t, ahead);
        let k = slot(r, x, ahead, 0);
        lemma_slot(r, x, ahead, 0);
        let q = ranked(s, ahead);
        assert forall|i: int, j: int| 0 <= i < j < q.len() implies !ahead(
            #[trigger] q[j],
            #[trigger] q[i],
        ) by {
            if j < k {
                assert(q[i] == r[i] && q[j] == r[j]);
            } else if j == k {
                assert(q[i] == r[i] && q[j] == x);
            } else {
                assert(q[j] == r[j - 1]);
                if i < k {
                    assert(q[i] == r[i]);
                } else if i == k {
                    assert(q[i] == x);
                    assert(ahead(x, r[k]));
                    if j - 1 > k {
                        assert(!ahead(r[j - 1], r[k]));
                        assert(!ahead(r[k], x));
                    }
                } else {
                    assert(q[i] == r[i - 1]);
                }
            }
        }
    }
}

/// What can be ranked.
pub trait Ranked: View + Sized {
    /// Whether `a` goes ahead of `b`.
    spec fn ahead(a: Self::V, b: Self::V) -> bool;

    /// Whether this goes ahead of `other`.
    fn goes_ahead(&self, other: &Self) -> (r: bool)
        ensures
            r == Self::ahead(self@, other@),
    ;
}

/// The relation of a rankable type.
pub open spec fn by_rank<T: Ranked>() -> spec_fn(T::V, T::V) -> bool {
    |a: T::V, b: T::V| T::ahead(a, b)
}

/// The views of the entries.
pub open spec fn seen<T: View>(v: Seq<T>) -> Seq<T::V> {
    Seq::new(v.len(), |i: int| v[i]@)
}

/// The entries in order; entries of equal rank keep their order.
pub fn rank<T: Ranked>(items: Vec<T>) -> (r: Vec<T>)
    ensures
        seen(r@) == ranked(seen(items@), by_rank::<T>()),
        r@.len() == items@.len(),
{
    let ghost all = seen(items@);
    let ghost ahead = by_rank::<T>();
    let mut rest = items;
    let mut done: Vec<T> = Vec::new();
    let ghost mut k: int = 0;
    assert(seen(done@) =~= ranked(all.take(0), ahead));
    while rest.len() > 0
        invariant
            0 <= k <= all.len(),
            ahead == by_rank::<T>(),
            seen(rest@) == all.skip(k),
            seen(done@) == ranked(all.take(k), ahead),
            done@.len() == k,
            done@.len() + rest@.len() == all.len(),
        decreases rest.len(),
    {
        let ghost r0 = rest@;
        let ghost d0 = done@;
        let x = rest.remove(0);
        proof {
            assert(seen(r0)[0] == all.skip(k)[0]);
            assert(seen(rest@) =~= all.skip(k + 1)) by {
                assert forall|i: int| 0 <= i < rest@.len() implies seen(rest@)[i] == all.skip(
                    k + 1,
                )[i] by {
                    assert(seen(r0)[i + 1] == all.skip(k)[i + 1]);
                }
            }
            let t1 = all.take(k + 1);
            assert(t1.drop_last() =~= all.take(k));
            assert(t1.last() == x@);
        }
        let mut at: usize = 0;
        let mut found = false;
        while !found && at < done.len()
            invariant
                at <= done@.len(),
                done@ == d0,
                ahead == by_rank::<T>(),
                found ==> at < done@.len() && ahead(x@, seen(d0)[at as int]),
                slot(seen(d0), x@, ahead, 0) == slot(seen(d0), x@, ahead, at as int),
            decreases done.len() - at + (if found { 0int } else { 1int }),
        {
            if x.goes_ahead(&done[at]) {
                found = true;
            } else {
                at = at + 1;
            }
        }
        let ghost xv = x@;
        done.insert(at, x);
        proof {
            assert(seen(done@) =~= seen(d0).insert(at as int, xv));
            k = k + 1;
        }
    }
    assert(all.take(k) =~= all);
    done
}

/// The entries that rank like `e`, in their order.
pub open spec fn peers<V>(s: Seq<V>, ahead: spec_fn(V, V) -> bool, e: V) -> Seq<V>
    decreases s.len(),
{
    if s.len() == 0 {
        s
    } else {
        let r = peers(s.drop_last(), ahead, e);
        if !ahead(s.last(), e) && !ahead(e, s.last()) {
            r.push(s.last())
        } else {
            r
        }
    }
}

proof fn lemma_peers_add<V>(a: Seq<V>, b: Seq<V>, ahead: spec_fn(V, V) -> bool, e: V)
    ensures
        peers(a + b, ahead, e) == peers(a, ahead, e) + peers(b, ahead, e),
    decreases b.len(),
{
    if b.len() == 0 {
        assert(a + b =~= a);
        assert(peers(a, ahead, e) + peers(b, ahead, e) =~= peers(a, ahead, e));
    } else {
        lemma_peers_add(a, b.drop_last(), ahead, e);
        assert((a + b).drop_last() =~= a + b.drop_last());
        assert((a + b).last() == b.last());
        assert(peers(a + b, ahead, e) =~= peers(a, ahead, e) + peers(b, ahead, e));
    }
}

proof fn lemma_no_peers<V>(s: Seq<V>, ahead: spec_fn(V, V) -> bool, e: V)
    requires
        forall|i: int| 0 <= i < s.len() ==> ahead(e, #[trigger] s[i]),
    ensures
        peers(s, ahead, e).len() == 0,
    decreases s.len(),
{
    if s.len() > 0 {
        let t = s.drop_last();
        assert forall|i: int| 0 <= i < t.len() implies ahead(e, #[trigger] t[i]) by {
            assert(t[i] == s[i]);
        }
        lemma_no_peers(t, ahead, e);
        assert(ahead(e, s[s.len() - 1]));
    }
}

/// Ranking keeps entries that rank alike in the order that they had.
pub proof fn lemma_ranked_stable<V>(s: Seq<V>, ahead: spec_fn(V, V) -> bool, e: V)
    requires
        ranks(ahead),
    ensures
        peers(ranked(s, ahead), ahead, e) == peers(s, ahead, e),
    decreases s.len(),
{
    if s.len() > 0 {
        let t = s.drop_last();
        let x = s.last();
        let r = ranked(t, ahead);
        lemma_ranked_stable(t, ahead, e);
        lemma_ranked_in_order(t, ahead);
        let k = slot(r, x, ahead, 0);
        lemma_slot(r, x, ahead, 0);
        let a = r.take(k);
        let b = r.skip(k);
        assert(r =~= a + b);
        assert(ranked(s, ahead) =~= (a + seq![x]) + b);
        lemma_peers_add(a, b, ahead, e);
        lemma_peers_add(a + seq![x], b, ahead, e);
        lemma_peers_add(a, seq![x], ahead, e);
        assert(seq![x].drop_last() =~= Seq::<V>::empty());
        let one = peers(seq![x], ahead, e);
        assert(peers(Seq::<V>::empty(), ahead, e) =~= Seq::<V>::empty());
        if !ahead(x, e) && !ahead(e, x) {
            assert(one =~= seq![x]);
            assert forall|i: int| 0 <= i < b.len() implies ahead(e, #[trigger] b[i]) by {
                assert(b[i] == r[k + i]);
                assert(ahead(x, r[k]));
                if i > 0 {
                    assert(!ahead(r[k + i], r[k]));
                }
                if !ahead(e, b[i]) {
                    assert(!ahead(x, e));
                    assert(!ahead(x, b[i]));
                    assert(!ahead(b[i], r[k]));
                    assert(!ahead(x, r[k]));
                }
            }
            lemma_no_peers(b, ahead, e);
            assert(peers(b, ahead, e) =~= Seq::<V>::empty());
            assert(peers(ranked(s, ahead), ahead, e) =~= peers(s, ahead, e));
        } else {
            assert(one =~= Seq::<V>::empty());
            assert(peers(ranked(s, ahead), ahead, e) =~= peers(s, ahead, e));
        }
    }
}

} // verus!
