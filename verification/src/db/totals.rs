//! What the statistics add up to, said of the files and their rows.
use vstd::prelude::*;

use crate::calendar;
use crate::calendar::Date;
use crate::db::days::MAX_QUERY_DAYS;
use crate::db::queries;
use crate::db::queries::{AppQuery, CachedYears, KeyQuery};
use crate::db::select;
use crate::db::select::{Window, YearQuery};
use crate::db::store;
use crate::db::store::{Store, StoreModel, YearModel};
use crate::order;
use crate::tally;

verus! {

// ------------------------------------------------------------------------- all files

/// The sum of what `f` gives each year and its tables, over all files that can be read.
pub open spec fn over_files(st: StoreModel, f: spec_fn(i32, YearModel) -> int) -> int
    decreases st.len(),
{
    if st.len() == 0 {
        0
    } else {
        over_files(st.drop_last(), f) + (match st.last().1 {
            Some(y) => f(st.last().0, y),
            None => 0,
        })
    }
}

/// What `g` gives the tables of the years from `lo` to `hi`; 0 for other years.
pub open spec fn in_years(lo: int, hi: int, g: spec_fn(YearModel) -> int) -> spec_fn(
    i32,
    YearModel,
) -> int {
    |y: i32, m: YearModel|
        if lo <= y <= hi {
            g(m)
        } else {
            0
        }
}

/// What `g` gives the tables, whatever the year.
pub open spec fn in_any_year(g: spec_fn(YearModel) -> int) -> spec_fn(i32, YearModel) -> int {
    |y: i32, m: YearModel| g(m)
}

pub proof fn lemma_same_files(
    st: StoreModel,
    f: spec_fn(i32, YearModel) -> int,
    g: spec_fn(i32, YearModel) -> int,
)
    requires
        forall|i: int|
            0 <= i < st.len() ==> ((#[trigger] st[i]).1 matches Some(y) ==> f(st[i].0, y) == g(
                st[i].0,
                y,
            )),
    ensures
        over_files(st, f) == over_files(st, g),
    decreases st.len(),
{
    if st.len() > 0 {
        let t = st.drop_last();
        assert forall|i: int| 0 <= i < t.len() implies ((#[trigger] t[i]).1 matches Some(y) ==> f(
            t[i].0,
            y,
        ) == g(t[i].0, y)) by {
            assert(t[i] == st[i]);
        }
        lemma_same_files(t, f, g);
        assert(st[st.len() - 1] == st.last());
    }
}

proof fn lemma_sum_of_files(
    st: StoreModel,
    f: spec_fn(i32, YearModel) -> int,
    g: spec_fn(i32, YearModel) -> int,
    h: spec_fn(i32, YearModel) -> int,
)
    requires
        forall|i: int|
            0 <= i < st.len() ==> ((#[trigger] st[i]).1 matches Some(y) ==> h(st[i].0, y) == f(
                st[i].0,
                y,
            ) + g(st[i].0, y)),
    ensures
        over_files(st, h) == over_files(st, f) + over_files(st, g),
    decreases st.len(),
{
    if st.len() > 0 {
        let t = st.drop_last();
        assert forall|i: int| 0 <= i < t.len() implies ((#[trigger] t[i]).1 matches Some(y) ==> h(
            t[i].0,
            y,
        ) == f(t[i].0, y) + g(t[i].0, y)) by {
            assert(t[i] == st[i]);
        }
        lemma_sum_of_files(t, f, g, h);
        assert(st[st.len() - 1] == st.last());
    }
}

proof fn lemma_no_files(st: StoreModel, f: spec_fn(i32, YearModel) -> int)
    requires
        forall|i: int|
            0 <= i < st.len() ==> ((#[trigger] st[i]).1 matches Some(y) ==> f(st[i].0, y) == 0),
    ensures
        over_files(st, f) == 0,
    decreases st.len(),
{
    if st.len() > 0 {
        let t = st.drop_last();
        assert forall|i: int| 0 <= i < t.len() implies ((#[trigger] t[i]).1 matches Some(y) ==> f(
            t[i].0,
            y,
        ) == 0) by {
            assert(t[i] == st[i]);
        }
        lemma_no_files(t, f);
        assert(st[st.len() - 1] == st.last());
    }
}

/// What `g` gives the tables of one year; 0 for other years.
pub open spec fn in_year(year: i32, g: spec_fn(YearModel) -> int) -> spec_fn(i32, YearModel) -> int {
    |y: i32, m: YearModel|
        if y == year {
            g(m)
        } else {
            0
        }
}

/// The sum over the file of one year is that over its tables.
pub proof fn lemma_one_file(st: StoreModel, year: i32, g: spec_fn(YearModel) -> int)
    requires
        store::one_per_year(st),
        g(store::no_tables()) == 0,
    ensures
        over_files(st, in_year(year, g)) == g(store::tables_of(st, year)),
    decreases st.len(),
{
    let f = in_year(year, g);
    if st.len() > 0 {
        let t = st.drop_last();
        let n = st.len() - 1;
        assert(st[n] == st.last());
        assert forall|i: int, j: int| 0 <= i < j < t.len() implies (#[trigger] t[i]).0 != (
        #[trigger] t[j]).0 by {
            assert(st[i].0 != st[j].0);
        }
        lemma_one_file(t, year, g);
        if st.last().0 == year {
            assert forall|i: int| 0 <= i < t.len() implies ((#[trigger] t[i]).1 matches Some(y)
                ==> f(t[i].0, y) == 0) by {
                assert(st[i].0 != st[n].0);
            }
            lemma_no_files(t, f);
            if st.last().1 is Some {
                store::lemma_tables_at(st, n);
            } else if exists|i: int|
                0 <= i < st.len() && (#[trigger] st[i]).0 == year && st[i].1 is Some {
                let i = choose|i: int|
                    0 <= i < st.len() && (#[trigger] st[i]).0 == year && st[i].1 is Some;
                assert(st[i].0 != st[n].0);
            }
        } else {
            if exists|i: int|
                0 <= i < t.len() && (#[trigger] t[i]).0 == year && t[i].1 is Some {
                let i = choose|i: int|
                    0 <= i < t.len() && (#[trigger] t[i]).0 == year && t[i].1 is Some;
                assert(st[i] == t[i]);
                store::lemma_tables_at(st, i);
                store::lemma_tables_at(t, i);
            } else if exists|i: int|
                0 <= i < st.len() && (#[trigger] st[i]).0 == year && st[i].1 is Some {
                let i = choose|i: int|
                    0 <= i < st.len() && (#[trigger] st[i]).0 == year && st[i].1 is Some;
                assert(t[i] == st[i]);
            }
        }
    }
}

/// What `g` gives the tables of the years of a list; 0 for other years.
pub open spec fn in_list(years: Seq<i32>, g: spec_fn(YearModel) -> int) -> spec_fn(
    i32,
    YearModel,
) -> int {
    |y: i32, m: YearModel|
        if years.contains(y) {
            g(m)
        } else {
            0
        }
}

/// What `g` gives the tables of a year.
pub open spec fn of_tables(st: StoreModel, g: spec_fn(YearModel) -> int) -> spec_fn(i32) -> int {
    |y: i32| g(store::tables_of(st, y))
}

/// The sum over the years of a list is that over their files.
pub proof fn lemma_listed_files(st: StoreModel, years: Seq<i32>, g: spec_fn(YearModel) -> int)
    requires
        store::one_per_year(st),
        years.no_duplicates(),
        g(store::no_tables()) == 0,
    ensures
        queries::over_years(years, of_tables(st, g)) == over_files(st, in_list(years, g)),
    decreases years.len(),
{
    let f = in_list(years, g);
    if years.len() == 0 {
        lemma_no_files(st, f);
    } else {
        let t = years.drop_last();
        let y = years.last();
        lemma_listed_files(st, t, g);
        lemma_one_file(st, y, g);
        assert forall|z: i32| years.contains(z) <==> t.contains(z) || z == y by {
            if years.contains(z) {
                let i = choose|i: int| 0 <= i < years.len() && years[i] == z;
                if i < t.len() {
                    assert(t[i] == z);
                }
            }
            if t.contains(z) {
                let i = choose|i: int| 0 <= i < t.len() && t[i] == z;
                assert(years[i] == z);
            }
            assert(years[years.len() - 1] == y);
        }
        assert(!t.contains(y)) by {
            if t.contains(y) {
                let i = choose|i: int| 0 <= i < t.len() && t[i] == y;
                assert(years[i] == years[years.len() - 1]);
            }
        }
        lemma_sum_of_files(st, in_list(t, g), in_year(y, g), f);
    }
}

// -------------------------------------------------------------------- years with data

proof fn lemma_listed_once(st: StoreModel)
    requires
        store::one_per_year(st),
    ensures
        queries::listed(st).no_duplicates(),
    decreases st.len(),
{
    let l = queries::listed(st);
    if st.len() > 0 {
        let t = st.drop_last();
        assert forall|i: int, j: int| 0 <= i < j < t.len() implies (#[trigger] t[i]).0 != (
        #[trigger] t[j]).0 by {
            assert(st[i].0 != st[j].0);
        }
        lemma_listed_once(t);
        let k = queries::listed(t);
        queries::lemma_listed(t, st.last().0);
        if k.contains(st.last().0) {
            let i = choose|i: int|
                0 <= i < t.len() && (#[trigger] t[i]).0 == st.last().0 && queries::has_data(
                    t[i].1,
                );
            assert(st[i].0 != st[st.len() - 1].0);
        }
        assert forall|i: int, j: int| 0 <= i < l.len() && 0 <= j < l.len() && i != j implies l[i]
            != l[j] by {
            if i < k.len() {
                assert(l[i] == k[i]);
                assert(k.contains(k[i]));
            }
            if j < k.len() {
                assert(l[j] == k[j]);
                assert(k.contains(k[j]));
            }
        }
    }
}

/// No year is listed twice.
pub proof fn lemma_available_once(st: StoreModel)
    requires
        store::one_per_year(st),
    ensures
        queries::available(st).no_duplicates(),
{
    let l = queries::listed(st);
    let a = queries::available(st);
    lemma_listed_once(st);
    order::lemma_ranked_keeps(l, order::by_rank::<queries::Latest>());
    l.lemma_multiset_has_no_duplicates();
    a.lemma_multiset_has_no_duplicates_conv();
}

proof fn lemma_years_between(list: Seq<i32>, from: int, to: int, y: i32)
    requires
        i32::MIN <= from,
        to <= i32::MAX,
    ensures
        queries::years_between(list, from, to).contains(y) <==> from <= y <= to && list.contains(
            y,
        ),
        queries::years_between(list, from, to).no_duplicates(),
    decreases to - from + 1,
{
    let r = queries::years_between(list, from, to);
    if from <= to {
        let t = queries::years_between(list, from, to - 1);
        lemma_years_between(list, from, to - 1, y);
        lemma_years_between(list, from, to - 1, to as i32);
        if list.contains(to as i32) {
            assert(r =~= t.push(to as i32));
            if r.contains(y) {
                let i = choose|i: int| 0 <= i < r.len() && r[i] == y;
                if i < t.len() {
                    assert(t[i] == y);
                }
            }
            if t.contains(y) {
                let i = choose|i: int| 0 <= i < t.len() && t[i] == y;
                assert(r[i] == y);
            }
            assert(r[t.len() as int] == to as i32);
            assert forall|i: int, j: int|
                0 <= i < r.len() && 0 <= j < r.len() && i != j implies r[i] != r[j] by {
                if i < t.len() {
                    assert(t.contains(t[i]));
                }
                if j < t.len() {
                    assert(t.contains(t[j]));
                }
            }
        }
    }
}

/// Something that tables without a row do not have.
pub open spec fn needs_rows(g: spec_fn(YearModel) -> int) -> bool {
    forall|m: YearModel| m.is_empty() ==> #[trigger] g(m) == 0
}

proof fn lemma_file_listed(st: StoreModel, i: int)
    requires
        0 <= i < st.len(),
    ensures
        queries::available(st).contains(st[i].0) || !queries::has_data(st[i].1),
{
    queries::lemma_available(st);
    if queries::has_data(st[i].1) {
        assert(queries::available(st).contains(st[i].0));
    }
}

/// The sum over the years with data is that over all files.
pub proof fn lemma_available_files(st: StoreModel, g: spec_fn(YearModel) -> int)
    requires
        store::one_per_year(st),
        needs_rows(g),
    ensures
        queries::over_years(queries::available(st), of_tables(st, g)) == over_files(
            st,
            in_any_year(g),
        ),
{
    let years = queries::available(st);
    assert(store::no_tables().is_empty());
    lemma_available_once(st);
    lemma_listed_files(st, years, g);
    assert forall|i: int| 0 <= i < st.len() implies ((#[trigger] st[i]).1 matches Some(y)
        ==> in_list(years, g)(st[i].0, y) == in_any_year(g)(st[i].0, y)) by {
        lemma_file_listed(st, i);
    }
    lemma_same_files(st, in_list(years, g), in_any_year(g));
}

/// The sum over the years that a period is looked up in is that over the files of all years
/// from the first to that of today.
pub proof fn lemma_since_files(st: StoreModel, from: i32, today: Date, g: spec_fn(YearModel) -> int)
    requires
        store::one_per_year(st),
        needs_rows(g),
        from <= today.year,
    ensures
        queries::over_years(
            queries::years_since(st, from as int, today),
            of_tables(st, g),
        ) == over_files(st, in_years(from as int, today.year as int, g)),
{
    let a = queries::available(st);
    let found = queries::years_between(a, from as int, today.year as int);
    let years = queries::years_since(st, from as int, today);
    assert(store::no_tables().is_empty());
    lemma_years_between(a, from as int, today.year as int, 0);
    lemma_listed_files(st, years, g);
    assert forall|i: int| 0 <= i < st.len() implies ((#[trigger] st[i]).1 matches Some(y)
        ==> in_list(years, g)(st[i].0, y) == in_years(from as int, today.year as int, g)(
        st[i].0,
        y,
    )) by {
        let z = st[i].0;
        lemma_file_listed(st, i);
        lemma_years_between(a, from as int, today.year as int, z);
        if found.len() == 0 {
            assert(years =~= seq![today.year]);
            assert(years.contains(z) <==> z == today.year) by {
                if z == today.year {
                    assert(years[0] == z);
                }
            }
            assert(!found.contains(z));
        }
    }
    lemma_same_files(
        st,
        in_list(years, g),
        in_years(from as int, today.year as int, g),
    );
}

// ------------------------------------------------------------------------------ filed

/// Whether the days of the rows are days of the year and none is after `last`.
pub open spec fn days_in_year(y: YearModel, year: i32, last: int) -> bool {
    &&& forall|i: int|
        0 <= i < y.daily.len() ==> in_days((#[trigger] y.daily[i]).0 as int, year, last)
    &&& forall|i: int|
        0 <= i < y.keys.len() ==> in_days((#[trigger] y.keys[i]).0.0 as int, year, last)
    &&& forall|i: int|
        0 <= i < y.apps.len() ==> in_days((#[trigger] y.apps[i]).0.0 as int, year, last)
    &&& forall|i: int|
        0 <= i < y.device_counts.len() ==> in_days(
            (#[trigger] y.device_counts[i]).0.0 as int,
            year,
            last,
        )
    &&& forall|i: int|
        0 <= i < y.device_keys.len() ==> in_days(
            (#[trigger] y.device_keys[i]).0.0 as int,
            year,
            last,
        )
}

/// Whether a day is one of `year` and not after `last`.
pub open spec fn in_days(day: int, year: i32, last: int) -> bool {
    calendar::new_year(year as int) <= day < calendar::new_year(year + 1) && day <= last
}

/// Whether every row is in the file of the year of its day, and no day is after `last`.
pub open spec fn filed(st: StoreModel, last: int) -> bool {
    forall|i: int|
        0 <= i < st.len() ==> ((#[trigger] st[i]).1 matches Some(y) ==> days_in_year(
            y,
            st[i].0,
            last,
        ))
}

/// A row of the file of a year outside a period is on no day of the period.
proof fn lemma_outside(day: int, year: i32, start: Date, today: Date)
    requires
        start.valid(),
        today.valid(),
        in_days(day, year, today.number()),
        !(start.year <= year <= today.year),
    ensures
        day < start.number(),
{
    calendar::lemma_year_of_number(start, start.year as int);
    calendar::lemma_year_of_number(today, today.year as int);
    if year < start.year {
        if year + 1 < start.year {
            calendar::lemma_years_ordered(year + 1, start.year as int);
        }
    } else {
        if today.year + 1 < year {
            calendar::lemma_years_ordered(today.year + 1, year as int);
        }
    }
}

/// Where `g` counts only rows from the day `start` on, the files of other years than those
/// from `start` to `today` add nothing.
pub open spec fn begins_at(g: spec_fn(YearModel) -> int, start: Date, today: Date) -> bool {
    forall|m: YearModel, year: i32|
        #![trigger g(m), days_in_year(m, year, today.number())]
        days_in_year(m, year, today.number()) && !(start.year <= year <= today.year) ==> g(m) == 0
}

proof fn lemma_filed_sums(st: StoreModel, start: Date, today: Date, g: spec_fn(YearModel) -> int)
    requires
        filed(st, today.number()),
        begins_at(g, start, today),
    ensures
        over_files(st, in_years(start.year as int, today.year as int, g)) == over_files(
            st,
            in_any_year(g),
        ),
{
    let f = in_years(start.year as int, today.year as int, g);
    assert forall|i: int| 0 <= i < st.len() implies ((#[trigger] st[i]).1 matches Some(y) ==> f(
        st[i].0,
        y,
    ) == in_any_year(g)(st[i].0, y)) by {
        if let Some(y) = st[i].1 {
            assert(days_in_year(y, st[i].0, today.number()));
            assert(g(y) == g(y));
        }
    }
    lemma_same_files(st, f, in_any_year(g));
}

// ------------------------------------------------------------------------------- sums

/// The days from `first` on.
pub open spec fn since(first: int) -> spec_fn(i64) -> bool {
    |d: i64| d >= first
}

/// The rows of a name from the day `first` on.
pub open spec fn named_since(first: int, name: Seq<char>) -> spec_fn((i64, Seq<char>)) -> bool {
    |v: (i64, Seq<char>)| v.0 >= first && v.1 == name
}

/// The rows of a name.
pub open spec fn named(name: Seq<char>) -> spec_fn((i64, Seq<char>)) -> bool {
    |v: (i64, Seq<char>)| v.1 == name
}

/// The key presses from the day `first` on.
pub open spec fn presses_from(first: int) -> spec_fn(YearModel) -> int {
    |m: YearModel| tally::sum_if(m.daily, since(first))
}

/// The presses of a key from the day `first` on.
pub open spec fn key_from(first: int, key: Seq<char>) -> spec_fn(YearModel) -> int {
    |m: YearModel| tally::sum_if(m.keys, named_since(first, key))
}

/// The seconds in an application from the day `first` on.
pub open spec fn app_from(first: int, app: Seq<char>) -> spec_fn(YearModel) -> int {
    |m: YearModel| tally::sum_if(m.apps, named_since(first, app))
}

/// All key presses.
pub open spec fn all_presses() -> spec_fn(YearModel) -> int {
    |m: YearModel| tally::total(m.daily)
}

/// All presses of a key.
pub open spec fn all_of_key(key: Seq<char>) -> spec_fn(YearModel) -> int {
    |m: YearModel| tally::sum_if(m.keys, named(key))
}

/// All seconds in an application.
pub open spec fn all_of_app(app: Seq<char>) -> spec_fn(YearModel) -> int {
    |m: YearModel| tally::sum_if(m.apps, named(app))
}

/// The key presses of one day.
pub open spec fn presses_on(day: i64) -> spec_fn(YearModel) -> int {
    |m: YearModel| tally::amount(m.daily, day)
}

proof fn lemma_app_adds_up(st: StoreModel, years: Seq<i32>, w: Window, app: Seq<char>)
    ensures
        tally::distinct(select::gathered::<String, AppQuery>(st, years, AppQuery { window: w })),
        tally::amount(
            select::gathered::<String, AppQuery>(st, years, AppQuery { window: w }),
            app,
        ) == queries::over_years(
            years,
            of_tables(
                st,
                |m: YearModel| tally::sum_if(m.apps, queries::named_in(w, app)),
            ),
        ),
    decreases years.len(),
{
    let q = AppQuery { window: w };
    if years.len() == 0 {
        tally::lemma_amount_missing(select::gathered::<String, AppQuery>(st, years, q), app);
    } else {
        let t = years.drop_last();
        let y = store::tables_of(st, years.last());
        let rows = w.rows::<(i64, String)>();
        let p = |n: Seq<char>| n == app;
        lemma_app_adds_up(st, t, w, app);
        let g = select::gathered::<String, AppQuery>(st, t, q);
        tally::lemma_absorb_amount(g, q.picked(y), app);
        tally::lemma_absorb_shape(g, q.picked(y));
        select::lemma_grouped_sum(y.apps, rows, queries::row_name(), p);
        tally::lemma_amount_is(q.picked(y), app, p);
        tally::lemma_sum_same(
            y.apps,
            |v: (i64, Seq<char>)| p(queries::row_name()(v)) && rows(v),
            queries::named_in(w, app),
        );
    }
}

/// The key presses, the presses of a key and the seconds in an application that a query over
/// some years and a window of days gives.
pub open spec fn told(
    st: StoreModel,
    years: Seq<i32>,
    w: Window,
    key: Seq<char>,
    app: Seq<char>,
) -> (int, int, int) {
    (
        select::presses(st, years, w),
        tally::amount(
            select::gathered::<String, KeyQuery>(st, years, KeyQuery { window: w }),
            key,
        ),
        tally::amount(
            select::gathered::<String, AppQuery>(st, years, AppQuery { window: w }),
            app,
        ),
    )
}

proof fn lemma_told_from(
    st: StoreModel,
    years: Seq<i32>,
    first: i64,
    key: Seq<char>,
    app: Seq<char>,
)
    ensures
        told(st, years, Window::From(first), key, app) == (
            queries::over_years(years, of_tables(st, presses_from(first as int))),
            queries::over_years(years, of_tables(st, key_from(first as int, key))),
            queries::over_years(years, of_tables(st, app_from(first as int, app))),
        ),
{
    let w = Window::From(first);
    let f = first as int;
    queries::lemma_stats_add_up(st, years, w, key);
    lemma_app_adds_up(st, years, w, app);
    let a = queries::year_presses(st, w);
    assert forall|y: i32| #![trigger a(y)] a(y) == of_tables(st, presses_from(f))(y) by {
        tally::lemma_sum_same(
            store::tables_of(st, y).daily,
            w.rows::<i64>(),
            since(f),
        );
    }
    queries::lemma_over_years_same(years, a, of_tables(st, presses_from(f)));
    let b = queries::year_key_presses(st, w, key);
    assert forall|y: i32| #![trigger b(y)] b(y) == of_tables(st, key_from(f, key))(y) by {
        tally::lemma_sum_same(
            store::tables_of(st, y).keys,
            queries::named_in(w, key),
            named_since(f, key),
        );
    }
    queries::lemma_over_years_same(years, b, of_tables(st, key_from(f, key)));
    let c = of_tables(
        st,
        |m: YearModel| tally::sum_if(m.apps, queries::named_in(w, app)),
    );
    assert forall|y: i32| #![trigger c(y)] c(y) == of_tables(st, app_from(f, app))(y) by {
        tally::lemma_sum_same(
            store::tables_of(st, y).apps,
            queries::named_in(w, app),
            named_since(f, app),
        );
    }
    queries::lemma_over_years_same(years, c, of_tables(st, app_from(f, app)));
}

proof fn lemma_told_all(st: StoreModel, years: Seq<i32>, key: Seq<char>, app: Seq<char>)
    ensures
        told(st, years, Window::All, key, app) == (
            queries::over_years(years, of_tables(st, all_presses())),
            queries::over_years(years, of_tables(st, all_of_key(key))),
            queries::over_years(years, of_tables(st, all_of_app(app))),
        ),
{
    let w = Window::All;
    queries::lemma_stats_add_up(st, years, w, key);
    lemma_app_adds_up(st, years, w, app);
    let a = queries::year_presses(st, w);
    assert forall|y: i32| #![trigger a(y)] a(y) == of_tables(st, all_presses())(y) by {
        tally::lemma_sum_same(
            store::tables_of(st, y).daily,
            w.rows::<i64>(),
            |d: i64| true,
        );
    }
    queries::lemma_over_years_same(years, a, of_tables(st, all_presses()));
    let b = queries::year_key_presses(st, w, key);
    assert forall|y: i32| #![trigger b(y)] b(y) == of_tables(st, all_of_key(key))(y) by {
        tally::lemma_sum_same(
            store::tables_of(st, y).keys,
            queries::named_in(w, key),
            named(key),
        );
    }
    queries::lemma_over_years_same(years, b, of_tables(st, all_of_key(key)));
    let c = of_tables(
        st,
        |m: YearModel| tally::sum_if(m.apps, queries::named_in(w, app)),
    );
    assert forall|y: i32| #![trigger c(y)] c(y) == of_tables(st, all_of_app(app))(y) by {
        tally::lemma_sum_same(
            store::tables_of(st, y).apps,
            queries::named_in(w, app),
            named(app),
        );
    }
    queries::lemma_over_years_same(years, c, of_tables(st, all_of_app(app)));
}

// ------------------------------------------------------------------------------- laws

/// The statistics of a period of `days` days read every file of a year that the days back to
/// `start` lie in, `days` days before today, and count in it the rows of the last `days`
/// days, today among them.
pub proof fn lemma_period_reads_its_files(
    st: Store,
    days: i64,
    start: Date,
    today: Date,
    key: Seq<char>,
    app: Seq<char>,
)
    requires
        st.wf(),
        queries::usable_today(today),
        1 <= days <= MAX_QUERY_DAYS,
        start.valid(),
        start.number() == today.number() - days,
    ensures
        ({
            let first = today.number() - days + 1;
            let (lo, hi) = (start.year as int, today.year as int);
            told(
                st@,
                queries::asked(st@, Some(days), None, today),
                queries::period(Some(days), today),
                key,
                app,
            ) == (
                over_files(st@, in_years(lo, hi, presses_from(first))),
                over_files(st@, in_years(lo, hi, key_from(first, key))),
                over_files(st@, in_years(lo, hi, app_from(first, app))),
            )
        }),
{
    let first = today.number() - days + 1;
    let years = queries::asked(st@, Some(days), None, today);
    calendar::lemma_number_range(today);
    calendar::lemma_day_key_round_trip(start);
    lemma_start_before(start, today);
    st.one_each();
    lemma_told_from(st@, years, first as i64, key, app);
    lemma_since_files(st@, start.year, today, presses_from(first));
    lemma_since_files(st@, start.year, today, key_from(first, key));
    lemma_since_files(st@, start.year, today, app_from(first, app));
}

/// An earlier date is in no later year.
pub proof fn lemma_start_before(start: Date, today: Date)
    requires
        start.valid(),
        today.valid(),
        start.number() <= today.number(),
    ensures
        start.year <= today.year,
{
    calendar::lemma_year_of_number(start, start.year as int);
    calendar::lemma_year_of_number(today, today.year as int);
    if today.year < start.year && today.year + 1 < start.year {
        calendar::lemma_years_ordered(today.year + 1, start.year as int);
    }
}

/// The statistics of a period of `days` days leave out no recorded day of the period: they
/// are the sums over all files of the rows of the last `days` days.
pub proof fn lemma_period_is_whole(
    st: Store,
    days: i64,
    start: Date,
    today: Date,
    key: Seq<char>,
    app: Seq<char>,
)
    requires
        st.wf(),
        queries::usable_today(today),
        1 <= days <= MAX_QUERY_DAYS,
        start.valid(),
        start.number() == today.number() - days,
        filed(st@, today.number()),
    ensures
        ({
            let first = today.number() - days + 1;
            told(
                st@,
                queries::asked(st@, Some(days), None, today),
                queries::period(Some(days), today),
                key,
                app,
            ) == (
                over_files(st@, in_any_year(presses_from(first))),
                over_files(st@, in_any_year(key_from(first, key))),
                over_files(st@, in_any_year(app_from(first, app))),
            )
        }),
{
    let first = today.number() - days + 1;
    let a = presses_from(first);
    let b = key_from(first, key);
    let c = app_from(first, app);
    lemma_period_reads_its_files(st, days, start, today, key, app);
    assert forall|m: YearModel, year: i32|
        #![trigger days_in_year(m, year, today.number())]
        days_in_year(m, year, today.number()) && !(start.year <= year
            <= today.year) implies a(m) == 0 && b(m) == 0 && c(m) == 0 by {
        assert forall|i: int| 0 <= i < m.daily.len() implies !((#[trigger] m.daily[i]).0
            >= first) by {
            lemma_outside(m.daily[i].0 as int, year, start, today);
        }
        tally::lemma_sum_none(m.daily, since(first));
        assert forall|i: int| 0 <= i < m.keys.len() implies !((#[trigger] m.keys[i]).0.0
            >= first) by {
            lemma_outside(m.keys[i].0.0 as int, year, start, today);
        }
        tally::lemma_sum_none(m.keys, named_since(first, key));
        assert forall|i: int| 0 <= i < m.apps.len() implies !((#[trigger] m.apps[i]).0.0
            >= first) by {
            lemma_outside(m.apps[i].0.0 as int, year, start, today);
        }
        tally::lemma_sum_none(m.apps, named_since(first, app));
    }
    lemma_filed_sums(st@, start, today, a);
    lemma_filed_sums(st@, start, today, b);
    lemma_filed_sums(st@, start, today, c);
}

/// The statistics without a period and a year are the sums over all rows of all files.
pub proof fn lemma_all_time_reads_all(st: Store, today: Date, key: Seq<char>, app: Seq<char>)
    requires
        st.wf(),
    ensures
        told(
            st@,
            queries::asked(st@, None, None, today),
            queries::period(None, today),
            key,
            app,
        ) == (
            over_files(st@, in_any_year(all_presses())),
            over_files(st@, in_any_year(all_of_key(key))),
            over_files(st@, in_any_year(all_of_app(app))),
        ),
        select::presses(st@, queries::available(st@), Window::All) == over_files(
            st@,
            in_any_year(all_presses()),
        ),
{
    let years = queries::asked(st@, None, None, today);
    st.one_each();
    lemma_told_all(st@, years, key, app);
    lemma_available_files(st@, all_presses());
    lemma_available_files(st@, all_of_key(key));
    lemma_available_files(st@, all_of_app(app));
}

/// The statistics of a year are the sums over the rows of that year's tables; with a period
/// of `days` days, over those of the last `days` days among them.
pub proof fn lemma_year_reads_itself(
    st: StoreModel,
    days: i64,
    year: i32,
    today: Date,
    key: Seq<char>,
    app: Seq<char>,
)
    requires
        queries::usable_today(today),
        1 <= days <= MAX_QUERY_DAYS,
    ensures
        ({
            let m = store::tables_of(st, year);
            let first = today.number() - days + 1;
            &&& told(
                st,
                queries::asked(st, None, Some(year), today),
                queries::period(None, today),
                key,
                app,
            ) == (all_presses()(m), all_of_key(key)(m), all_of_app(app)(m))
            &&& told(
                st,
                queries::asked(st, Some(days), Some(year), today),
                queries::period(Some(days), today),
                key,
                app,
            ) == (presses_from(first)(m), key_from(first, key)(m), app_from(first, app)(m))
        }),
{
    let first = today.number() - days + 1;
    calendar::lemma_number_range(today);
    lemma_told_all(st, seq![year], key, app);
    lemma_told_from(st, seq![year], first as i64, key, app);
    queries::lemma_one_year(year, of_tables(st, all_presses()));
    queries::lemma_one_year(year, of_tables(st, all_of_key(key)));
    queries::lemma_one_year(year, of_tables(st, all_of_app(app)));
    queries::lemma_one_year(year, of_tables(st, presses_from(first)));
    queries::lemma_one_year(year, of_tables(st, key_from(first, key)));
    queries::lemma_one_year(year, of_tables(st, app_from(first, app)));
}

/// A number of days that is out of range counts as the nearest one that is in it.
pub proof fn lemma_days_out_of_range(st: StoreModel, days: i64, year: Option<i32>, today: Date)
    ensures
        days < 1 ==> queries::asked(st, Some(days), year, today) == queries::asked(
            st,
            Some(1i64),
            year,
            today,
        ) && queries::period(Some(days), today) == queries::period(Some(1i64), today),
        days > MAX_QUERY_DAYS ==> queries::asked(st, Some(days), year, today) == queries::asked(
            st,
            Some(MAX_QUERY_DAYS),
            year,
            today,
        ) && queries::period(Some(days), today) == queries::period(Some(MAX_QUERY_DAYS), today),
{
}

proof fn lemma_day_adds_up(st: StoreModel, years: Seq<i32>, day: i64)
    ensures
        select::presses(st, years, Window::On(day)) == queries::over_years(
            years,
            of_tables(st, presses_on(day)),
        ),
{
    let w = Window::On(day);
    queries::lemma_stats_add_up(st, years, w, Seq::empty());
    let a = queries::year_presses(st, w);
    assert forall|y: i32| #![trigger a(y)] a(y) == of_tables(st, presses_on(day))(y) by {
        tally::lemma_amount_is(store::tables_of(st, y).daily, day, w.rows::<i64>());
    }
    queries::lemma_over_years_same(years, a, of_tables(st, presses_on(day)));
}

/// The daily counts of the last `days` days have one entry for each day from 1970 on, in
/// order, today last; the entry of a day is its row, in the file of the year asked for or in
/// the files of the years from `start`, the first day, to today. Where every row is in the
/// file of its year, that is the row of the day wherever it is.
pub proof fn lemma_daily_counts_are_the_rows(
    st: Store,
    days: i64,
    year: Option<i32>,
    start: Date,
    today: Date,
    i: int,
)
    requires
        st.wf(),
        queries::usable_today(today),
        1 <= days <= MAX_QUERY_DAYS,
        start.valid(),
        start.number() == today.number() - days + 1,
    ensures
        ({
            let d = queries::day_by_day(
                st@,
                queries::daily_years(st@, days, year, today),
                queries::daily_start(days, today),
                today.number(),
            );
            let n = if days <= today.number() + 1 {
                days as int
            } else {
                today.number() + 1
            };
            let day = (today.number() - n + 1 + i) as i64;
            &&& d.len() == n
            &&& 0 <= i < n ==> {
                &&& d[i].0 == calendar::day_text(day as int)
                &&& year matches Some(y) ==> d[i].1 == tally::amount(
                    store::tables_of(st@, y).daily,
                    day,
                )
                &&& year is None ==> d[i].1 == over_files(
                    st@,
                    in_years(start.year as int, today.year as int, presses_on(day)),
                )
                &&& year is None && filed(st@, today.number()) ==> d[i].1 == over_files(
                    st@,
                    in_any_year(presses_on(day)),
                )
            }
        }),
{
    let years = queries::daily_years(st@, days, year, today);
    let from = queries::daily_start(days, today);
    let to = today.number();
    let d = queries::day_by_day(st@, years, from, to);
    let n = if days <= to + 1 {
        days as int
    } else {
        to + 1
    };
    let day = (to - n + 1 + i) as i64;
    calendar::lemma_number_range(today);
    calendar::lemma_day_key_round_trip(start);
    lemma_start_before(start, today);
    st.one_each();
    queries::lemma_daily_span(st@, years, from, to);
    if 0 <= i < n {
        queries::lemma_day_at(st@, years, from, to, i);
        lemma_day_adds_up(st@, years, day);
        if let Some(y) = year {
            queries::lemma_one_year(y, of_tables(st@, presses_on(day)));
        } else {
            let g = presses_on(day);
            assert forall|m: YearModel| m.is_empty() implies #[trigger] g(m) == 0 by {
                tally::lemma_amount_missing(m.daily, day);
            }
            lemma_since_files(st@, start.year, today, g);
            if filed(st@, today.number()) {
                assert forall|m: YearModel, z: i32|
                    #![trigger g(m), days_in_year(m, z, today.number())]
                    days_in_year(m, z, today.number()) && !(start.year <= z
                        <= today.year) implies g(m) == 0 by {
                    if tally::has_key(m.daily, day) {
                        let k = choose|k: int|
                            0 <= k < m.daily.len() && (#[trigger] m.daily[k]).0 == day;
                        lemma_outside(m.daily[k].0 as int, z, start, today);
                    }
                    tally::lemma_amount_missing(m.daily, day);
                }
                lemma_filed_sums(st@, start, today, g);
            }
        }
    }
}

// ------------------------------------------------------------------------------ the best day

/// Whether `b` is the row with the most presses in a file, and the earliest of those.
pub open spec fn tops(s: Seq<(i64, int)>, b: (i64, int)) -> bool {
    s.contains(b) && forall|i: int|
        0 <= i < s.len() ==> (#[trigger] s[i]).1 < b.1 || (s[i].1 == b.1 && s[i].0 >= b.0)
}

proof fn lemma_tops(s: Seq<(i64, int)>)
    ensures
        queries::top_day(s) matches Some(b) ==> tops(s, b),
        queries::top_day(s) is None <==> s.len() == 0,
    decreases s.len(),
{
    if s.len() > 0 {
        let t = s.drop_last();
        lemma_tops(t);
        let b = queries::top_day(s)->0;
        assert(s[s.len() - 1] == s.last());
        if queries::top_day(t) is Some {
            let c = queries::top_day(t)->0;
            let k = choose|k: int| 0 <= k < t.len() && t[k] == c;
            assert(s[k] == c);
        }
        assert forall|i: int| 0 <= i < s.len() implies (#[trigger] s[i]).1 < b.1 || (s[i].1 == b.1
            && s[i].0 >= b.0) by {
            if i < t.len() {
                assert(t[i] == s[i]);
            }
        }
    }
}

/// Whether `b` is the row of the best day among files, in the file of `y`: no day of any file
/// has more presses; of days with as many, it is in the latest of these files and the
/// earliest there.
pub open spec fn is_best(st: StoreModel, years: Seq<i32>, y: i32, b: (i64, int)) -> bool {
    &&& years.contains(y)
    &&& tops(store::tables_of(st, y).daily, b)
    &&& forall|z: i32, e: (i64, int)|
        years.contains(z) && #[trigger] store::tables_of(st, z).daily.contains(e) ==> e.1 < b.1 || (
        e.1 == b.1 && z <= y)
}

proof fn lemma_is_best(st: StoreModel, years: Seq<i32>) -> (y: i32)
    requires
        forall|i: int, j: int| 0 <= i < j < years.len() ==> years[i] >= years[j],
    ensures
        queries::best_day(st, years) matches Some(b) ==> is_best(st, years, y, b),
        queries::best_day(st, years) is None ==> forall|z: i32|
            years.contains(z) ==> (#[trigger] store::tables_of(st, z)).daily.len() == 0,
    decreases years.len(),
{
    if years.len() == 0 {
        0
    } else {
        let f = years.drop_last();
        let l = years.last();
        assert forall|i: int, j: int| 0 <= i < j < f.len() implies f[i] >= f[j] by {
            assert(years[i] >= years[j]);
        }
        let p = lemma_is_best(st, f);
        let s = store::tables_of(st, l).daily;
        lemma_tops(s);
        assert(years[years.len() - 1] == l);
        let r = queries::best_day(st, years);
        let y = if queries::best_day(st, f) == r && r is Some {
            p
        } else {
            l
        };
        assert forall|z: i32| #[trigger] years.contains(z) <==> f.contains(z) || z == l by {
            if f.contains(z) {
                let i = choose|i: int| 0 <= i < f.len() && f[i] == z;
                assert(years[i] == z);
            }
            if years.contains(z) {
                let i = choose|i: int| 0 <= i < years.len() && years[i] == z;
                if i < f.len() {
                    assert(f[i] == z);
                }
            }
        }
        if r is Some {
            let b = r->0;
            assert(years.contains(y));
            if f.contains(p) {
                let i = choose|i: int| 0 <= i < f.len() && f[i] == p;
                assert(years[i] >= years[years.len() - 1]);
            }
            assert forall|z: i32, e: (i64, int)|
                years.contains(z) && #[trigger] store::tables_of(st, z).daily.contains(e) implies e.1
                < b.1 || (e.1 == b.1 && z <= y) by {
                if z == l {
                    let i = choose|i: int| 0 <= i < s.len() && s[i] == e;
                    assert(s[i].1 <= (queries::top_day(s)->0).1);
                }
            }
        }
        y
    }
}

/// The best day of all time has more presses than any day of any file that can be read, or as
/// many: then it is of the latest of these files, and the earliest day there. Its date is
/// told with its presses. There is none where no file has a day.
pub proof fn lemma_best_of_all_files(st: Store) -> (y: i32)
    requires
        st.wf(),
    ensures
        queries::max_day(st@) matches Some(m) ==> exists|b: (i64, int)|
            #![trigger calendar::day_text(b.0 as int)]
            {
                &&& m == (calendar::day_text(b.0 as int), b.1)
                &&& tops(store::tables_of(st@, y).daily, b)
                &&& forall|z: i32, e: (i64, int)| #[trigger]
                    store::tables_of(st@, z).daily.contains(e) ==> e.1 < b.1 || (e.1 == b.1 && z
                        <= y)
            },
        (forall|z: i32, e: (i64, int)| #[trigger]
            store::tables_of(st@, z).daily.contains(e) ==> 0 <= e.0 <= calendar::last_day())
            && queries::max_day(st@) is None ==> forall|z: i32|
            (#[trigger] store::tables_of(st@, z)).daily.len() == 0,
{
    let a = queries::available(st@);
    queries::lemma_available(st@);
    st.one_each();
    let y = lemma_is_best(st@, a);
    assert forall|z: i32| (#[trigger] store::tables_of(st@, z)).daily.len() > 0 implies a.contains(
        z,
    ) by {
        let m = st@;
        let i = choose|i: int| 0 <= i < m.len() && (#[trigger] m[i]).0 == z && m[i].1 is Some;
        assert(m[i].1->0 == store::tables_of(m, z)) by {
            store::lemma_tables_at(m, i);
        }
        assert(queries::has_data(m[i].1));
    }
    if queries::best_day(st@, a) is Some {
        let b = queries::best_day(st@, a)->0;
        let s = store::tables_of(st@, y).daily;
        assert(s.contains(b));
        assert forall|z: i32, e: (i64, int)| #[trigger]
            store::tables_of(st@, z).daily.contains(e) implies e.1 < b.1 || (e.1 == b.1 && z
            <= y) by {
            assert(a.contains(z));
        }
        if queries::max_day(st@) is Some {
            assert(queries::max_day(st@)->0 == (calendar::day_text(b.0 as int), b.1));
        }
    }
    y
}

/// The years of a directory are kept for half a minute from when they were found, and told
/// for that directory and no other.
pub proof fn lemma_years_are_kept(s: Seq<CachedYears>, dir: Seq<char>, now: u64, i: int)
    ensures
        queries::kept_years(s, dir, now) matches Some(l) ==> exists|i: int|
            0 <= i < s.len() && (#[trigger] s[i]).dir@ == dir && s[i].years@ == l
                && s[i].built_at is Some && now - s[i].built_at->0 < 30_000,
        0 <= i < s.len() && s[i].dir@ == dir && (forall|j: int|
            0 <= j < i ==> (#[trigger] s[j]).dir@ != dir) && s[i].built_at is Some && now
            - s[i].built_at->0 < 30_000 ==> queries::kept_years(s, dir, now) == Some(s[i].years@),
{
    queries::lemma_dir_at(s, dir, 0);
}

/// What the dates of a weekday have, together.
pub open spec fn weekday_sum(s: Seq<(Date, i64)>, w: int) -> int
    decreases s.len(),
{
    if s.len() == 0 {
        0
    } else {
        weekday_sum(s.drop_last(), w) + (if calendar::weekday_of(s.last().0.number()) == w {
            s.last().1 as int
        } else {
            0
        })
    }
}

/// The sum of a weekday is that of the dates that fall on it; dates that cannot be read do
/// not count.
pub proof fn lemma_weekday_sums(s: Seq<(Date, i64)>, w: i64)
    ensures
        tally::distinct(queries::by_weekday(s)),
        tally::amount(queries::by_weekday(s), w) == weekday_sum(s, w as int),
    decreases s.len(),
{
    if s.len() > 0 {
        let t = s.drop_last();
        lemma_weekday_sums(t, w);
        let k = calendar::weekday_of(s.last().0.number()) as i64;
        tally::lemma_bump_each(queries::by_weekday(t), k, s.last().1 as int, w);
        tally::lemma_bump_shape(queries::by_weekday(t), k, s.last().1 as int);
    } else {
        tally::lemma_amount_missing(queries::by_weekday(s), w);
    }
}

/// The dates that are summed up by weekday are those that can be read, each with its count.
pub proof fn lemma_readable_dates(s: Seq<(String, i64)>, d: Date, n: i64)
    ensures
        queries::dated(s).contains((d, n)) <==> exists|i: int|
            0 <= i < s.len() && calendar::parsed_date((#[trigger] s[i]).0@, "%Y-%m-%d"@) == Some(d)
                && s[i].1 == n,
        queries::dated(s).len() <= s.len(),
    decreases s.len(),
{
    if s.len() > 0 {
        let t = s.drop_last();
        let r = queries::dated(t);
        let a = queries::dated(s);
        lemma_readable_dates(t, d, n);
        assert(s[s.len() - 1] == s.last());
        if r.contains((d, n)) {
            let k = choose|k: int| 0 <= k < r.len() && r[k] == (d, n);
            assert(a[k] == (d, n));
            let i = choose|i: int|
                0 <= i < t.len() && calendar::parsed_date((#[trigger] t[i]).0@, "%Y-%m-%d"@)
                    == Some(d) && t[i].1 == n;
            assert(s[i] == t[i]);
        }
        if calendar::parsed_date(s.last().0@, "%Y-%m-%d"@) is Some {
            assert(a[a.len() - 1].1 == s.last().1);
        }
        if a.contains((d, n)) {
            let k = choose|k: int| 0 <= k < a.len() && a[k] == (d, n);
            if k < r.len() {
                assert(r[k] == (d, n));
            }
        }
        if exists|i: int|
            0 <= i < s.len() && calendar::parsed_date((#[trigger] s[i]).0@, "%Y-%m-%d"@) == Some(d)
                && s[i].1 == n {
            let i = choose|i: int|
                0 <= i < s.len() && calendar::parsed_date((#[trigger] s[i]).0@, "%Y-%m-%d"@)
                    == Some(d) && s[i].1 == n;
            if i < t.len() {
                assert(t[i] == s[i]);
            } else {
                assert(a[a.len() - 1] == (d, n));
            }
        }
    }
}

} // verus!
