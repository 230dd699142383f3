//! Selecting from the yearly tables: a window of days, rows grouped under a name, and
//! the results of several years added up.
use vstd::prelude::*;

use crate::db::store;
use crate::db::store::{Store, StoreModel, YearDb, YearModel};
use crate::tally;
use crate::tally::{Dated, RowKey, Tally};

verus! {

/// Which days count.
#[derive(Clone, Copy)]
pub enum Window {
    /// Every day.
    All,
    /// The days from this one on.
    From(i64),
    /// This day only.
    On(i64),
}

impl Window {
    /// Whether `day` counts.
    pub open spec fn covers(self, day: int) -> bool {
        match self {
            Window::All => true,
            Window::From(d) => day >= d,
            Window::On(d) => day == d,
        }
    }

    /// The rows whose day counts.
    pub open spec fn rows<K: Dated>(self) -> spec_fn(K::V) -> bool {
        |v: K::V| self.covers(K::day_of(v))
    }

    /// Whether `day` counts.
    pub fn has_day(&self, day: i64) -> (r: bool)
        ensures
            r == self.covers(day as int),
    {
        match self {
            Window::All => true,
            Window::From(d) => day >= *d,
            Window::On(d) => day == *d,
        }
    }
}

/// The window from a first day on; every day where there is none.
pub open spec fn window_from(start: Option<int>) -> Window {
    match start {
        Some(d) => Window::From(d as i64),
        None => Window::All,
    }
}

/// The sum of the amounts in a window.
pub fn sum_in<K: Dated>(t: &Tally<K>, w: Window) -> (r: i64)
    requires
        t.wf(),
    ensures
        r == tally::sum_if(t@, w.rows::<K>()),
        0 <= r,
{
    let ghost q = w.rows::<K>();
    let ghost s = t@;
    let mut acc: i64 = 0;
    let mut i: usize = 0;
    proof {
        tally::lemma_sum_bounds(s, q);
    }
    while i < t.rows.len()
        invariant
            i <= t.rows.len(),
            s == t@,
            t.wf(),
            q == w.rows::<K>(),
            acc == tally::sum_if(s.take(i as int), q),
            0 <= acc,
        decreases t.rows.len() - i,
    {
        proof {
            let t1 = s.take(i as int + 1);
            assert(t1.drop_last() =~= s.take(i as int));
            assert(t1.last() == s[i as int]);
            tally::lemma_prefix_sum(s, i as int + 1, q);
            tally::lemma_sum_bounds(s, q);
        }
        let d = t.rows[i].0.day();
        if w.has_day(d) {
            acc = acc + t.rows[i].1;
        }
        i = i + 1;
    }
    assert(s.take(i as int) =~= s);
    acc
}

/// The rows that satisfy `q`, added up under the names that `f` gives them.
pub open spec fn grouped<V, W>(
    s: Seq<(V, int)>,
    q: spec_fn(V) -> bool,
    f: spec_fn(V) -> W,
) -> Seq<(W, int)> {
    tally::absorb(Seq::empty(), tally::rekey(tally::keep(s, q), f))
}

/// One more row.
pub proof fn lemma_grouped_step<V, W>(
    s: Seq<(V, int)>,
    e: (V, int),
    q: spec_fn(V) -> bool,
    f: spec_fn(V) -> W,
)
    ensures
        grouped(s.push(e), q, f) == (if q(e.0) {
            tally::bump(grouped(s, q, f), f(e.0), e.1)
        } else {
            grouped(s, q, f)
        }),
{
    assert(s.push(e).drop_last() =~= s);
    if q(e.0) {
        let k = tally::keep(s, q);
        assert(tally::rekey(k.push(e), f) =~= tally::rekey(k, f).push((f(e.0), e.1)));
        let r = tally::rekey(k, f).push((f(e.0), e.1));
        assert(r.drop_last() =~= tally::rekey(k, f));
    }
}

/// A sum over grouped rows is the sum over the rows behind them.
pub proof fn lemma_grouped_sum<V, W>(
    s: Seq<(V, int)>,
    q: spec_fn(V) -> bool,
    f: spec_fn(V) -> W,
    p: spec_fn(W) -> bool,
)
    ensures
        tally::sum_if(grouped(s, q, f), p) == tally::sum_if(s, |v: V| p(f(v)) && q(v)),
{
    let k = tally::keep(s, q);
    let none = Seq::<(W, int)>::empty();
    tally::lemma_absorb_sum(none, tally::rekey(k, f), p);
    tally::lemma_rekey_sum(k, f, p);
    let g = |v: V| p(f(v));
    tally::lemma_keep_sum(s, q, g);
    tally::lemma_sum_same(s, |v: V| g(v) && q(v), |v: V| p(f(v)) && q(v));
}

/// Grouping gives each name one row, loses no amount and keeps signs.
pub proof fn lemma_grouped<V, W>(s: Seq<(V, int)>, q: spec_fn(V) -> bool, f: spec_fn(V) -> W)
    ensures
        tally::distinct(grouped(s, q, f)),
        tally::nonneg(s) ==> tally::nonneg(grouped(s, q, f)),
        tally::total(grouped(s, q, f)) == tally::sum_if(s, q),
{
    let k = tally::keep(s, q);
    let none = Seq::<(W, int)>::empty();
    tally::lemma_absorb_shape(none, tally::rekey(k, f));
    if tally::nonneg(s) {
        tally::lemma_keep(s, q);
        tally::lemma_rekey_total(k, f);
    }
    let p = |w: W| true;
    lemma_grouped_sum(s, q, f, p);
    tally::lemma_sum_same(s, |v: V| p(f(v)) && q(v), q);
}

/// A choice of rows and the names under which they are added up.
pub trait Pick<K: RowKey, W: RowKey> {
    /// The rows that are taken.
    spec fn takes(&self) -> spec_fn(K::V) -> bool;

    /// Their names.
    spec fn names(&self) -> spec_fn(K::V) -> W::V;

    /// Whether the row of `k` is taken.
    fn takes_row(&self, k: &K) -> (r: bool)
        ensures
            r == (self.takes())(k@),
    ;

    /// The name of the row of `k`.
    fn name(&self, k: &K) -> (r: W)
        ensures
            r@ == (self.names())(k@),
    ;
}

/// Groups the rows of a table.
pub fn group<K: RowKey, W: RowKey, P: Pick<K, W>>(t: &Tally<K>, p: &P) -> (r: Tally<W>)
    requires
        t.wf(),
    ensures
        r.wf(),
        r@ == grouped(t@, p.takes(), p.names()),
        tally::total(r@) == tally::sum_if(t@, p.takes()),
{
    let ghost s = t@;
    let ghost q = p.takes();
    let ghost f = p.names();
    let mut r: Tally<W> = Tally::new();
    let mut i: usize = 0;
    assert(tally::rekey(tally::keep(s.take(0), q), f) =~= Seq::empty());
    while i < t.rows.len()
        invariant
            i <= t.rows.len(),
            s == t@,
            t.wf(),
            r.wf(),
            q == p.takes(),
            f == p.names(),
            r@ == grouped(s.take(i as int), q, f),
        decreases t.rows.len() - i,
    {
        proof {
            assert(s.take(i as int + 1) =~= s.take(i as int).push(s[i as int]));
            lemma_grouped_step(s.take(i as int), s[i as int], q, f);
            lemma_grouped(s.take(i as int), q, f);
            tally::lemma_sum_push(s.take(i as int), s[i as int], q);
            tally::lemma_prefix_sum(s, i as int + 1, q);
            tally::lemma_sum_bounds(s, q);
        }
        if p.takes_row(&t.rows[i].0) {
            let w = p.name(&t.rows[i].0);
            r.bump(w, t.rows[i].1);
        }
        i = i + 1;
    }
    proof {
        assert(s.take(i as int) =~= s);
        lemma_grouped(s, q, f);
    }
    r
}

/// No table has a negative amount.
pub open spec fn nonneg_tables(y: YearModel) -> bool {
    &&& tally::nonneg(y.daily)
    &&& tally::nonneg(y.keys)
    &&& tally::nonneg(y.apps)
    &&& tally::nonneg(y.device_counts)
    &&& tally::nonneg(y.device_keys)
}

/// What a query takes from the tables of one year.
pub trait YearQuery<W: RowKey> {
    /// The rows that it takes.
    spec fn picked(&self, y: YearModel) -> Seq<(W::V, int)>;

    /// No row has a negative amount.
    proof fn picked_nonneg(&self, y: YearModel)
        requires
            nonneg_tables(y),
        ensures
            tally::nonneg(self.picked(y)),
    ;

    /// The rows that it takes.
    fn pick(&self, db: &YearDb) -> (r: Tally<W>)
        requires
            db.wf(),
        ensures
            r.wf(),
            r@ == self.picked(db@),
    ;
}

/// The rows that a query takes from several years, added up.
pub open spec fn gathered<W: RowKey, Q: YearQuery<W>>(
    st: StoreModel,
    years: Seq<i32>,
    q: Q,
) -> Seq<(W::V, int)>
    decreases years.len(),
{
    if years.len() == 0 {
        Seq::empty()
    } else {
        tally::absorb(
            gathered::<W, Q>(st, years.drop_last(), q),
            q.picked(store::tables_of(st, years.last())),
        )
    }
}

/// The tables of a year, where there are any.
pub fn tables<'a>(st: &'a Store, year: i32) -> (r: Option<&'a YearDb>)
    requires
        st.wf(),
    ensures
        match r {
            Some(d) => d.wf() && d@ == store::tables_of(st@, year),
            None => store::tables_of(st@, year) == store::no_tables(),
        },
{
    let i = st.find(year);
    if i < st.files.len() {
        let ghost m = st@;
        proof {
            assert(m[i as int].0 == year);
            assert forall|j: int| 0 <= j < m.len() && (#[trigger] m[j]).0 == year implies j
                == i by {
                if j < i {
                    assert(st.files@[j].year != st.files@[i as int].year);
                }
                if i < j {
                    assert(st.files@[i as int].year != st.files@[j].year);
                }
            }
        }
        match &st.files[i].db {
            Some(d) => {
                assert(m[i as int].1 == Some(d@));
                Some(d)
            },
            None => {
                assert(m[i as int].1 is None);
                None
            },
        }
    } else {
        None
    }
}

/// The tables of a well-formed store hold no negative amounts.
pub proof fn lemma_nonneg_tables(st: Store, year: i32)
    requires
        st.wf(),
    ensures
        nonneg_tables(store::tables_of(st@, year)),
{
    let m = st@;
    if exists|i: int| 0 <= i < m.len() && (#[trigger] m[i]).0 == year && m[i].1 is Some {
        let i = choose|i: int| 0 <= i < m.len() && (#[trigger] m[i]).0 == year && m[i].1 is Some;
        let f = st.files@[i];
        assert(f.db is Some);
        assert(f.db->0.wf());
    }
}

/// What several years give has distinct names and no negative amounts.
pub proof fn lemma_gathered<W: RowKey, Q: YearQuery<W>>(st: Store, years: Seq<i32>, q: Q)
    requires
        st.wf(),
    ensures
        tally::distinct(gathered::<W, Q>(st@, years, q)),
        tally::nonneg(gathered::<W, Q>(st@, years, q)),
    decreases years.len(),
{
    if years.len() > 0 {
        lemma_gathered::<W, Q>(st, years.drop_last(), q);
        lemma_nonneg_tables(st, years.last());
        q.picked_nonneg(store::tables_of(st@, years.last()));
        tally::lemma_absorb_shape(
            gathered::<W, Q>(st@, years.drop_last(), q),
            q.picked(store::tables_of(st@, years.last())),
        );
    }
}

/// Fewer years give a smaller total.
pub proof fn lemma_gathered_prefix<W: RowKey, Q: YearQuery<W>>(
    st: Store,
    years: Seq<i32>,
    q: Q,
    n: int,
)
    requires
        st.wf(),
        0 <= n <= years.len(),
    ensures
        tally::total(gathered::<W, Q>(st@, years.take(n), q)) <= tally::total(
            gathered::<W, Q>(st@, years, q),
        ),
    decreases years.len() - n,
{
    if n == years.len() {
        assert(years.take(n) =~= years);
    } else {
        lemma_gathered_prefix::<W, Q>(st, years, q, n + 1);
        let t1 = years.take(n + 1);
        assert(t1.drop_last() =~= years.take(n));
        lemma_gathered::<W, Q>(st, years.take(n), q);
        lemma_nonneg_tables(st, t1.last());
        let p = q.picked(store::tables_of(st@, t1.last()));
        q.picked_nonneg(store::tables_of(st@, t1.last()));
        tally::lemma_absorb_sum(gathered::<W, Q>(st@, years.take(n), q), p, |v: W::V| true);
        tally::lemma_sum_bounds(p, |v: W::V| true);
    }
}

/// Adds up what a query takes from several years.
pub fn gather<W: RowKey, Q: YearQuery<W>>(st: &Store, years: &Vec<i32>, q: &Q) -> (r: Tally<W>)
    requires
        st.wf(),
        tally::total(gathered::<W, Q>(st@, years@, *q)) <= i64::MAX,
    ensures
        r.wf(),
        r@ == gathered::<W, Q>(st@, years@, *q),
{
    let mut r: Tally<W> = Tally::new();
    let mut i: usize = 0;
    assert(years@.take(0) =~= Seq::empty());
    while i < years.len()
        invariant
            i <= years.len(),
            st.wf(),
            tally::total(gathered::<W, Q>(st@, years@, *q)) <= i64::MAX,
            r.wf(),
            r@ == gathered::<W, Q>(st@, years@.take(i as int), *q),
        decreases years.len() - i,
    {
        let year = years[i];
        proof {
            let t1 = years@.take(i as int + 1);
            assert(t1.drop_last() =~= years@.take(i as int));
            assert(t1.last() == year);
            lemma_gathered_prefix::<W, Q>(*st, years@, *q, i as int + 1);
            tally::lemma_absorb_sum(
                r@,
                q.picked(store::tables_of(st@, year)),
                |v: W::V| true,
            );
        }
        let part = match tables(st, year) {
            Some(d) => q.pick(d),
            None => {
                let d = YearDb::new();
                assert(d@ =~= store::no_tables());
                q.pick(&d)
            },
        };
        r.absorb(&part);
        i = i + 1;
    }
    assert(years@.take(i as int) =~= years@);
    r
}

/// The key presses of the days of a window, over several years.
pub open spec fn presses(st: StoreModel, years: Seq<i32>, w: Window) -> int
    decreases years.len(),
{
    if years.len() == 0 {
        0
    } else {
        presses(st, years.drop_last(), w) + tally::sum_if(
            store::tables_of(st, years.last()).daily,
            w.rows::<i64>(),
        )
    }
}

pub proof fn lemma_presses_prefix(st: Store, years: Seq<i32>, w: Window, n: int)
    requires
        st.wf(),
        0 <= n <= years.len(),
    ensures
        0 <= presses(st@, years.take(n), w) <= presses(st@, years, w),
    decreases years.len() - n,
{
    lemma_presses_nonneg(st, years.take(n), w);
    if n == years.len() {
        assert(years.take(n) =~= years);
    } else {
        lemma_presses_prefix(st, years, w, n + 1);
        let t1 = years.take(n + 1);
        assert(t1.drop_last() =~= years.take(n));
        lemma_nonneg_tables(st, t1.last());
        tally::lemma_sum_bounds(store::tables_of(st@, t1.last()).daily, w.rows::<i64>());
    }
}

proof fn lemma_presses_nonneg(st: Store, years: Seq<i32>, w: Window)
    requires
        st.wf(),
    ensures
        0 <= presses(st@, years, w),
    decreases years.len(),
{
    if years.len() > 0 {
        lemma_presses_nonneg(st, years.drop_last(), w);
        lemma_nonneg_tables(st, years.last());
        tally::lemma_sum_bounds(store::tables_of(st@, years.last()).daily, w.rows::<i64>());
    }
}

/// The key presses of the days of a window, over several years.
pub fn count_presses(st: &Store, years: &Vec<i32>, w: Window) -> (r: i64)
    requires
        st.wf(),
        presses(st@, years@, w) <= i64::MAX,
    ensures
        r == presses(st@, years@, w),
{
    let mut acc: i64 = 0;
    let mut i: usize = 0;
    assert(years@.take(0) =~= Seq::empty());
    while i < years.len()
        invariant
            i <= years.len(),
            st.wf(),
            presses(st@, years@, w) <= i64::MAX,
            0 <= acc,
            acc == presses(st@, years@.take(i as int), w),
        decreases years.len() - i,
    {
        proof {
            let t1 = years@.take(i as int + 1);
            assert(t1.drop_last() =~= years@.take(i as int));
            assert(t1.last() == years@[i as int]);
            lemma_presses_prefix(*st, years@, w, i as int + 1);
        }
        if let Some(d) = tables(st, years[i]) {
            acc = acc + sum_in(&d.daily, w);
        }
        i = i + 1;
    }
    assert(years@.take(i as int) =~= years@);
    acc
}

} // verus!
