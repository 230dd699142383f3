//! Which read-only connections a thread keeps open.
//!
//! The pool itself holds connections; this is the bookkeeping that decides which of them
//! are reused, opened and closed.
use vstd::prelude::*;
use vstd::string::*;

use crate::text::str_eq;

verus! {

/// The most connections that a thread keeps open.
pub const RO_POOL_MAX: usize = 12;

/// An open connection: its path, and when it was last used.
pub struct PoolEntry {
    pub path: String,
    pub used: u64,
}

/// The open connections of a thread.
pub struct RoPool {
    pub entries: Vec<PoolEntry>,
    /// The generation of files that the connections belong to.
    pub seen: u64,
}

/// Paths and when they were last used.
pub type PoolModel = Seq<(Seq<char>, u64)>;

pub open spec fn pool_of(v: Seq<PoolEntry>) -> PoolModel {
    Seq::new(v.len(), |i: int| (v[i].path@, v[i].used))
}

/// Whether there is a connection to `path`.
pub open spec fn has_path(s: PoolModel, path: Seq<char>) -> bool {
    exists|i: int| 0 <= i < s.len() && (#[trigger] s[i]).0 == path
}

/// The index of the connection that was not used for the longest time; the first of
/// several.
pub open spec fn oldest(s: PoolModel) -> int
    decreases s.len(),
{
    if s.len() <= 1 {
        0
    } else {
        let k = oldest(s.drop_last());
        if s.last().1 < s[k].1 {
            s.len() - 1
        } else {
            k
        }
    }
}

/// The connection that was not used for the longest time was not used since any other.
pub proof fn lemma_oldest(s: PoolModel)
    requires
        s.len() > 0,
    ensures
        0 <= oldest(s) < s.len(),
        forall|i: int| 0 <= i < s.len() ==> s[oldest(s)].1 <= (#[trigger] s[i]).1,
    decreases s.len(),
{
    if s.len() > 1 {
        let t = s.drop_last();
        lemma_oldest(t);
        assert forall|i: int| 0 <= i < s.len() implies s[oldest(s)].1 <= (#[trigger] s[i]).1 by {
            if i < t.len() {
                assert(t[i] == s[i]);
            }
            assert(t[oldest(t)] == s[oldest(t)]);
        }
    }
}

/// What is to be done before a connection can be used.
pub struct Lookup {
    /// All connections are out of date: close them.
    pub cleared: bool,
    /// There is a connection to the path.
    pub hit: bool,
    /// The path of a connection to close before another is opened.
    pub evicted: Option<String>,
}

impl View for RoPool {
    type V = PoolModel;

    open spec fn view(&self) -> PoolModel {
        pool_of(self.entries@)
    }
}

impl RoPool {
    /// There are no more connections than allowed.
    pub open spec fn wf(&self) -> bool {
        self@.len() <= RO_POOL_MAX
    }

    /// No connections.
    pub fn new() -> (r: Self)
        ensures
            r.wf(),
            r@.len() == 0,
            r.seen == 0,
    {
        RoPool { entries: Vec::new(), seen: 0 }
    }

    fn find(&self, path: &str) -> (r: usize)
        ensures
            r <= self@.len(),
            r < self@.len() ==> self@[r as int].0 == path@,
            r == self@.len() ==> !has_path(self@, path@),
    {
        let mut i: usize = 0;
        while i < self.entries.len()
            invariant
                i <= self.entries.len(),
                forall|j: int| 0 <= j < i ==> (#[trigger] self@[j]).0 != path@,
            decreases self.entries.len() - i,
        {
            if str_eq(self.entries[i].path.as_str(), path) {
                return i;
            }
            i = i + 1;
        }
        i
    }

    fn find_oldest(&self) -> (r: usize)
        requires
            self@.len() > 0,
        ensures
            r == oldest(self@),
            r < self@.len(),
    {
        let ghost s = self@;
        let mut k: usize = 0;
        let mut i: usize = 1;
        assert(s.take(1).len() == 1);
        while i < self.entries.len()
            invariant
                1 <= i <= self.entries.len(),
                s == self@,
                k == oldest(s.take(i as int)),
                k < i,
            decreases self.entries.len() - i,
        {
            proof {
                let t1 = s.take(i as int + 1);
                assert(t1.drop_last() =~= s.take(i as int));
                assert(t1.last() == s[i as int]);
                assert(t1[k as int] == s[k as int]);
            }
            if self.entries[i].used < self.entries[k].used {
                k = i;
            }
            i = i + 1;
        }
        assert(s.take(i as int) =~= s);
        k
    }

    /// Prepares for a connection to `path`. Connections of an older generation than `gen`
    /// are all dropped; where the pool is full and has none to the path, the one not used
    /// for the longest time is dropped.
    pub fn prepare(&mut self, path: &str, gen: u64) -> (r: Lookup)
        requires
            old(self).wf(),
        ensures
            final(self).wf(),
            final(self).seen == gen,
            r.cleared == (old(self).seen != gen),
            ({
                let live = if old(self).seen != gen {
                    Seq::empty()
                } else {
                    old(self)@
                };
                &&& r.hit == has_path(live, path@)
                &&& if !r.hit && live.len() >= RO_POOL_MAX {
                    &&& r.evicted matches Some(e) && e@ == live[oldest(live)].0
                    &&& final(self)@ == live.remove(oldest(live))
                } else {
                    r.evicted is None && final(self)@ == live
                }
            }),
            !r.hit ==> final(self)@.len() < RO_POOL_MAX,
    {
        let cleared = self.seen != gen;
        if cleared {
            self.entries = Vec::new();
            self.seen = gen;
        }
        let ghost live = self@;
        assert(cleared ==> live =~= Seq::empty());
        let i = self.find(path);
        if i < self.entries.len() {
            assert(has_path(live, path@));
            return Lookup { cleared, hit: true, evicted: None };
        }
        if self.entries.len() >= RO_POOL_MAX {
            let k = self.find_oldest();
            let gone = self.entries.remove(k);
            proof {
                assert(gone.path@ == live[k as int].0);
                assert(self@ =~= live.remove(k as int));
            }
            return Lookup { cleared, hit: false, evicted: Some(gone.path) };
        }
        Lookup { cleared, hit: false, evicted: None }
    }

    /// Notes that a connection to `path` was opened at `now`.
    pub fn opened(&mut self, path: &str, now: u64)
        requires
            old(self)@.len() < RO_POOL_MAX,
        ensures
            final(self).wf(),
            final(self)@ == old(self)@.push((path@, now)),
            final(self).seen == old(self).seen,
    {
        let ghost s = self@;
        self.entries.push(PoolEntry { path: path.to_owned(), used: now });
        assert(self@ =~= s.push((path@, now)));
    }

    /// Notes that the connection to `path` was used at `now`.
    pub fn used(&mut self, path: &str, now: u64)
        requires
            old(self).wf(),
        ensures
            final(self).wf(),
            final(self).seen == old(self).seen,
            final(self)@.len() == old(self)@.len(),
            forall|i: int|
                0 <= i < old(self)@.len() ==> (#[trigger] final(self)@[i]).0 == old(self)@[i].0,
            has_path(old(self)@, path@) ==> exists|i: int|
                0 <= i < old(self)@.len() && old(self)@[i].0 == path@ && #[trigger] final(self)@
                    == old(self)@.update(i, (path@, now)),
            !has_path(old(self)@, path@) ==> final(self)@ == old(self)@,
    {
        let ghost s = self@;
        let i = self.find(path);
        if i < self.entries.len() {
            self.entries[i] = PoolEntry { path: path.to_owned(), used: now };
            assert(self@ =~= s.update(i as int, (path@, now)));
        }
    }

    /// Drops all connections; the files now belong to generation `gen`.
    pub fn clear(&mut self, gen: u64)
        ensures
            final(self).wf(),
            final(self)@.len() == 0,
            final(self).seen == gen,
    {
        self.entries = Vec::new();
        self.seen = gen;
    }
}

} // verus!
