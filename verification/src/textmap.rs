//! Maps to text whose entries are kept in the order of their keys.
use vstd::prelude::*;

use crate::text;

verus! {

/// Values with a total order.
pub trait Ordered: Sized {
    /// Whether `self` is `other` or comes before it.
    spec fn le(self, other: Self) -> bool;

    proof fn lemma_total(self, other: Self)
        ensures
            self.le(other) || other.le(self),
            self.le(other) && other.le(self) ==> self == other,
    ;

    proof fn lemma_trans(self, mid: Self, other: Self)
        requires
            self.le(mid),
            mid.le(other),
        ensures
            self.le(other),
    ;
}

/// Text is ordered as in a dictionary.
impl Ordered for Seq<char> {
    open spec fn le(self, other: Self) -> bool {
        text::lex_le(self, other)
    }

    proof fn lemma_total(self, other: Self) {
        text::lemma_lex_total(self, other);
    }

    proof fn lemma_trans(self, mid: Self, other: Self) {
        text::lemma_lex_trans(self, mid, other);
    }
}

/// What a map can be keyed by.
pub trait MapKey: View + Sized where Self::V: Ordered {
    /// Whether the key comes before `other` or is the same.
    fn key_le(&self, other: &Self) -> (r: bool)
        ensures
            r == self@.le(other@),
    ;

    /// Whether the keys are the same.
    fn key_eq(&self, other: &Self) -> (r: bool)
        ensures
            r == (self@ == other@),
    ;

    /// A copy of the key.
    fn key_dup(&self) -> (r: Self)
        ensures
            r@ == self@,
    ;
}

impl MapKey for String {
    fn key_le(&self, other: &Self) -> (r: bool) {
        text::str_le(self.as_str(), other.as_str())
    }

    fn key_eq(&self, other: &Self) -> (r: bool) {
        text::str_eq(self.as_str(), other.as_str())
    }

    fn key_dup(&self) -> (r: Self) {
        self.clone()
    }
}

/// Strictly before.
pub open spec fn before<V: Ordered>(a: V, b: V) -> bool {
    a.le(b) && a != b
}

/// The texts of the entries.
pub open spec fn pairs<K: View>(e: Seq<(K, String)>) -> Seq<(K::V, Seq<char>)> {
    Seq::new(e.len(), |i: int| (e[i].0@, e[i].1@))
}

/// Keys stand in strictly ascending order.
pub open spec fn ascending<V: Ordered>(p: Seq<(V, Seq<char>)>) -> bool {
    forall|i: int, j: int|
        0 <= i < j < p.len() ==> before((#[trigger] p[i]).0, (#[trigger] p[j]).0)
}

/// Whether `k` is the key of an entry.
pub open spec fn holds<V>(p: Seq<(V, Seq<char>)>, k: V) -> bool {
    exists|i: int| 0 <= i < p.len() && (#[trigger] p[i]).0 == k
}

/// The position of the entry of `k`.
pub open spec fn place<V>(p: Seq<(V, Seq<char>)>, k: V) -> int {
    choose|i: int| 0 <= i < p.len() && (#[trigger] p[i]).0 == k
}

/// The map that the entries write down.
pub open spec fn map_of<V>(p: Seq<(V, Seq<char>)>) -> Map<V, Seq<char>> {
    Map::new(|k: V| holds(p, k), |k: V| p[place(p, k)].1)
}

/// A map to text.
pub struct SortedMap<K: MapKey> where K::V: Ordered {
    /// The entries, in ascending order of their keys.
    pub entries: Vec<(K, String)>,
}

/// A map from text to text.
pub type TextMap = SortedMap<String>;

impl<K: MapKey> View for SortedMap<K> where K::V: Ordered {
    type V = Map<K::V, Seq<char>>;

    open spec fn view(&self) -> Map<K::V, Seq<char>> {
        map_of(pairs(self.entries@))
    }
}

pub proof fn lemma_place<V: Ordered>(p: Seq<(V, Seq<char>)>, i: int)
    requires
        ascending(p),
        0 <= i < p.len(),
    ensures
        holds(p, p[i].0),
        place(p, p[i].0) == i,
        map_of(p).contains_key(p[i].0),
        map_of(p)[p[i].0] == p[i].1,
{
    let k = p[i].0;
    assert(holds(p, k));
    let j = place(p, k);
    assert(0 <= j < p.len() && p[j].0 == k);
    if j < i {
        assert(before(p[j].0, p[i].0));
    }
    if i < j {
        assert(before(p[i].0, p[j].0));
    }
}

/// Two ordered lists of entries that write down the same map are the same list.
pub proof fn lemma_ordered_unique<V: Ordered>(
    p: Seq<(V, Seq<char>)>,
    q: Seq<(V, Seq<char>)>,
)
    requires
        ascending(p),
        ascending(q),
        map_of(p) == map_of(q),
    ensures
        p == q,
    decreases p.len(),
{
    if p.len() == 0 {
        if q.len() > 0 {
            lemma_place(q, 0);
            assert(map_of(p).contains_key(q[0].0));
        }
        assert(p =~= q);
    } else {
        lemma_place(p, p.len() - 1);
        assert(map_of(q).contains_key(p.last().0));
        let j = place(q, p.last().0);
        assert(0 <= j < q.len() && q[j].0 == p.last().0);
        lemma_place(q, j);
        lemma_place(q, q.len() - 1);
        assert(map_of(p).contains_key(q.last().0));
        let i = place(p, q.last().0);
        assert(0 <= i < p.len() && p[i].0 == q.last().0);
        if j < q.len() - 1 {
            assert(before(q[j].0, q[q.len() - 1].0));
            if i < p.len() - 1 {
                assert(before(p[i].0, p[p.len() - 1].0));
                p.last().0.lemma_total(q.last().0);
            }
        }
        assert(p.last() == q.last());
        let p1 = p.drop_last();
        let q1 = q.drop_last();
        assert(ascending(p1)) by {
            assert forall|a: int, b: int| 0 <= a < b < p1.len() implies before(
                (#[trigger] p1[a]).0,
                (#[trigger] p1[b]).0,
            ) by {
                assert(p1[a] == p[a] && p1[b] == p[b]);
            }
        }
        assert(ascending(q1)) by {
            assert forall|a: int, b: int| 0 <= a < b < q1.len() implies before(
                (#[trigger] q1[a]).0,
                (#[trigger] q1[b]).0,
            ) by {
                assert(q1[a] == q[a] && q1[b] == q[b]);
            }
        }
        lemma_drop_last(p);
        lemma_drop_last(q);
        lemma_ordered_unique(p1, q1);
        assert(p =~= p1.push(p.last()));
        assert(q =~= q1.push(q.last()));
    }
}

/// Leaving out the last entry takes its key out of the map.
pub proof fn lemma_drop_last<V: Ordered>(p: Seq<(V, Seq<char>)>)
    requires
        ascending(p),
        p.len() > 0,
    ensures
        ascending(p.drop_last()),
        map_of(p.drop_last()) == map_of(p).remove(p.last().0),
{
    let t = p.drop_last();
    assert forall|a: int, b: int| 0 <= a < b < t.len() implies before(
        (#[trigger] t[a]).0,
        (#[trigger] t[b]).0,
    ) by {
        assert(t[a] == p[a] && t[b] == p[b]);
    }
    let m = map_of(p).remove(p.last().0);
    assert forall|k: V| map_of(t).contains_key(k) <==> m.contains_key(k) by {
        if holds(t, k) {
            let i = place(t, k);
            assert(p[i] == t[i]);
            assert(before(p[i].0, p[p.len() - 1].0));
        }
        if m.contains_key(k) {
            let i = place(p, k);
            assert(p[i].0 == k);
            assert(t[i] == p[i]);
        }
    }
    assert forall|k: V| map_of(t).contains_key(k) implies map_of(t)[k] == m[k] by {
        let i = place(t, k);
        assert(t[i].0 == k && t[i] == p[i]);
        lemma_place(p, i);
        lemma_place(t, i);
    }
    assert(map_of(t) =~= m);
}

impl<K: MapKey> SortedMap<K> where K::V: Ordered {
    /// The entries stand in ascending order of their keys.
    pub open spec fn wf(&self) -> bool {
        ascending(pairs(self.entries@))
    }

    /// An empty map.
    pub fn new() -> (r: Self)
        ensures
            r.wf(),
            r@ == Map::<K::V, Seq<char>>::empty(),
            pairs(r.entries@) == Seq::<(K::V, Seq<char>)>::empty(),
    {
        let r = SortedMap { entries: Vec::new() };
        assert(pairs(r.entries@) =~= Seq::<(K::V, Seq<char>)>::empty());
        assert(r@ =~= Map::<K::V, Seq<char>>::empty());
        r
    }

    /// The number of entries.
    pub fn len(&self) -> (r: usize)
        ensures
            r == self.entries@.len(),
    {
        self.entries.len()
    }

    /// The position of the first entry whose key is not before `key`.
    pub fn slot(&self, key: &K) -> (r: usize)
        requires
            self.wf(),
        ensures
            r <= self.entries@.len(),
            forall|i: int| 0 <= i < r ==> before((#[trigger] pairs(self.entries@)[i]).0, key@),
            r < self.entries@.len() ==> key@.le(pairs(self.entries@)[r as int].0),
    {
        let ghost p = pairs(self.entries@);
        let mut i: usize = 0;
        while i < self.entries.len()
            invariant
                i <= self.entries@.len(),
                p == pairs(self.entries@),
                forall|j: int| 0 <= j < i ==> before((#[trigger] p[j]).0, key@),
            decreases self.entries.len() - i,
        {
            if key.key_le(&self.entries[i].0) {
                return i;
            }
            proof {
                p[i as int].0.lemma_total(key@);
            }
            i = i + 1;
        }
        i
    }

    /// Where the key is missing no entry of the slot or after it has it.
    proof fn lemma_slot(p: Seq<(K::V, Seq<char>)>, key: K::V, s: int)
        requires
            ascending(p),
            0 <= s <= p.len(),
            forall|i: int| 0 <= i < s ==> before((#[trigger] p[i]).0, key),
            s < p.len() ==> key.le(p[s].0),
        ensures
            holds(p, key) <==> s < p.len() && p[s].0 == key,
            s < p.len() && p[s].0 != key ==> before(key, p[s].0),
            forall|i: int| s < i < p.len() ==> before(key, (#[trigger] p[i]).0),
    {
        assert forall|i: int| s < i < p.len() implies before(key, (#[trigger] p[i]).0) by {
            assert(before(p[s].0, p[i].0));
            key.lemma_trans(p[s].0, p[i].0);
            if key == p[i].0 {
                key.lemma_total(p[s].0);
            }
        }
        if holds(p, key) {
            let i = place(p, key);
            assert(p[i].0 == key);
        }
        if s < p.len() && p[s].0 == key {
            assert(holds(p, key));
        }
    }

    /// The value of `key`.
    pub fn get(&self, key: &K) -> (r: Option<&String>)
        requires
            self.wf(),
        ensures
            match r {
                Some(v) => self@.contains_key(key@) && v@ == self@[key@],
                None => !self@.contains_key(key@),
            },
    {
        let s = self.slot(key);
        proof {
            Self::lemma_slot(pairs(self.entries@), key@, s as int);
        }
        if s < self.entries.len() && self.entries[s].0.key_eq(key) {
            proof {
                lemma_place(pairs(self.entries@), s as int);
            }
            Some(&self.entries[s].1)
        } else {
            None
        }
    }

    /// Sets the value of `key`.
    pub fn insert(&mut self, key: K, value: String)
        requires
            old(self).wf(),
        ensures
            final(self).wf(),
            final(self)@ == old(self)@.insert(key@, value@),
            final(self).entries@.len() == old(self).entries@.len() + (if old(self)@.contains_key(
                key@,
            ) {
                0int
            } else {
                1int
            }),
    {
        let ghost p = pairs(self.entries@);
        let ghost k = key@;
        let ghost val = value@;
        let ghost m = self@.insert(k, val);
        let s = self.slot(&key);
        proof {
            Self::lemma_slot(p, k, s as int);
        }
        if s < self.entries.len() && self.entries[s].0.key_eq(&key) {
            self.entries[s] = (key, value);
            let ghost q = pairs(self.entries@);
            proof {
                assert(q =~= p.update(s as int, (k, val)));
                assert(ascending(q)) by {
                    assert forall|i: int, j: int| 0 <= i < j < q.len() implies before(
                        (#[trigger] q[i]).0,
                        (#[trigger] q[j]).0,
                    ) by {
                        assert(q[i].0 == p[i].0 && q[j].0 == p[j].0);
                    }
                }
            }
        } else {
            self.entries.insert(s, (key, value));
            let ghost q = pairs(self.entries@);
            proof {
                assert(q =~= p.insert(s as int, (k, val)));
                assert(ascending(q)) by {
                    assert forall|i: int, j: int| 0 <= i < j < q.len() implies before(
                        (#[trigger] q[i]).0,
                        (#[trigger] q[j]).0,
                    ) by {
                        if i < s {
                            assert(q[i] == p[i]);
                        } else if i > s {
                            assert(q[i] == p[i - 1]);
                        }
                        if j < s {
                            assert(q[j] == p[j]);
                        } else if j > s {
                            assert(q[j] == p[j - 1]);
                        }
                    }
                }
            }
        }
        proof {
            let q = pairs(self.entries@);
            assert(q[s as int] == (k, val));
            assert forall|x: K::V| map_of(q).contains_key(x) <==> m.contains_key(x) by {
                if holds(q, x) {
                    let i = place(q, x);
                    assert(q[i].0 == x);
                    if q.len() == p.len() {
                        assert(p[i].0 == q[i].0);
                    } else if i < s {
                        assert(p[i] == q[i]);
                    } else if i > s {
                        assert(p[i - 1] == q[i]);
                    }
                }
                if holds(p, x) {
                    let i = place(p, x);
                    assert(p[i].0 == x);
                    if q.len() == p.len() {
                        assert(q[i].0 == x);
                    } else if i < s {
                        assert(q[i] == p[i]);
                    } else {
                        assert(q[i + 1] == p[i]);
                    }
                }
            }
            assert forall|x: K::V| map_of(q).contains_key(x) implies map_of(q)[x] == m[x] by {
                let i = place(q, x);
                assert(q[i].0 == x);
                lemma_place(q, i);
                lemma_place(q, s as int);
                if x != k {
                    if q.len() == p.len() {
                        assert(p[i] == q[i]);
                        lemma_place(p, i);
                    } else if i < s {
                        assert(p[i] == q[i]);
                        lemma_place(p, i);
                    } else {
                        assert(p[i - 1] == q[i]);
                        lemma_place(p, i - 1);
                    }
                }
            }
            assert(self@ =~= m);
        }
    }

    /// Takes `key` out; tells whether it was there.
    pub fn remove(&mut self, key: &K) -> (r: bool)
        requires
            old(self).wf(),
        ensures
            final(self).wf(),
            final(self)@ == old(self)@.remove(key@),
            r == old(self)@.contains_key(key@),
            final(self).entries@.len() == old(self).entries@.len() - (if r {
                1int
            } else {
                0int
            }),
    {
        let ghost p = pairs(self.entries@);
        let ghost m = self@.remove(key@);
        let s = self.slot(key);
        proof {
            Self::lemma_slot(p, key@, s as int);
        }
        if s < self.entries.len() && self.entries[s].0.key_eq(key) {
            proof {
                lemma_place(p, s as int);
            }
            self.entries.remove(s);
            proof {
                let q = pairs(self.entries@);
                assert(q =~= p.remove(s as int));
                assert forall|i: int, j: int| 0 <= i < j < q.len() implies before(
                    (#[trigger] q[i]).0,
                    (#[trigger] q[j]).0,
                ) by {
                    let a = if i < s {
                        i
                    } else {
                        i + 1
                    };
                    let b = if j < s {
                        j
                    } else {
                        j + 1
                    };
                    assert(q[i] == p[a] && q[j] == p[b]);
                }
                assert forall|x: K::V| map_of(q).contains_key(x) <==> m.contains_key(x) by {
                    if holds(q, x) {
                        let i = place(q, x);
                        assert(q[i].0 == x);
                        let a = if i < s {
                            i
                        } else {
                            i + 1
                        };
                        assert(p[a] == q[i]);
                        if a < s {
                            assert(before(p[a].0, p[s as int].0));
                        } else {
                            assert(before(p[s as int].0, p[a].0));
                        }
                    }
                    if m.contains_key(x) {
                        let i = place(p, x);
                        assert(p[i].0 == x);
                        let a = if i < s {
                            i
                        } else {
                            i - 1
                        };
                        assert(q[a] == p[i]);
                    }
                }
                assert forall|x: K::V| map_of(q).contains_key(x) implies map_of(q)[x]
                    == m[x] by {
                    let i = place(q, x);
                    assert(q[i].0 == x);
                    lemma_place(q, i);
                    let a = if i < s {
                        i
                    } else {
                        i + 1
                    };
                    assert(p[a] == q[i]);
                    lemma_place(p, a);
                }
                assert(self@ =~= m);
            }
            true
        } else {
            assert(self@ =~= m);
            false
        }
    }

    /// A copy of the map.
    pub fn dup(&self) -> (r: Self)
        ensures
            pairs(r.entries@) == pairs(self.entries@),
    {
        let mut entries: Vec<(K, String)> = Vec::new();
        let mut i: usize = 0;
        while i < self.entries.len()
            invariant
                i <= self.entries@.len(),
                entries@.len() == i,
                forall|j: int|
                    0 <= j < i ==> (#[trigger] entries@[j]).0@ == self.entries@[j].0@
                        && entries@[j].1@ == self.entries@[j].1@,
            decreases self.entries.len() - i,
        {
            entries.push((self.entries[i].0.key_dup(), self.entries[i].1.clone()));
            i = i + 1;
        }
        let r = SortedMap { entries };
        assert(pairs(r.entries@) =~= pairs(self.entries@));
        r
    }
}

} // verus!
