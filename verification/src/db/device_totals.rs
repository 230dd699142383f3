//! What the statistics of devices add up to, said of the files and their rows.
use vstd::prelude::*;

use crate::calendar;
use crate::calendar::Date;
use crate::db::days::MAX_QUERY_DAYS;
use crate::db::devices;
use crate::db::devices::{DayCount, DeviceDetail, NameCount, RowModel};
use crate::db::queries;
use crate::db::select;
use crate::db::select::Window;
use crate::db::store;
use crate::db::store::{Registry, Store, StoreModel, YearModel};
use crate::db::totals;
use crate::hardware;
use crate::order;
use crate::tally;
use crate::text;

verus! {

// -------------------------------------------------------------------- rows of a device

/// Whether the id `id` is the one that the device `key` is registered under.
pub open spec fn belongs(r: Registry, id: i64, key: Seq<char>) -> bool {
    exists|i: int| 0 <= i < r.len() && (#[trigger] r[i]).key == key && r[i].id == id
}

/// Whether rows with the id `id` are shown as the device `key`: it is registered under that
/// id, or nothing is and it is the stand-in for it.
pub open spec fn shows(r: Registry, id: i64, key: Seq<char>) -> bool {
    belongs(r, id, key) || (!store::knows_id(r, id as int) && key
        == hardware::ARCHIVED_DEVICE_KEY_PREFIX@ + text::dec(id as int))
}

/// The rows of a device on the days that `p` has.
pub open spec fn rows_on(r: Registry, key: Seq<char>, p: spec_fn(i64) -> bool) -> spec_fn(
    (i64, i64),
) -> bool {
    |v: (i64, i64)| p(v.0) && belongs(r, v.1, key)
}

/// The rows of a key of a device on the days that `p` has.
pub open spec fn key_rows_on(
    r: Registry,
    key: Seq<char>,
    name: Seq<char>,
    p: spec_fn(i64) -> bool,
) -> spec_fn((i64, i64, Seq<char>)) -> bool {
    |v: (i64, i64, Seq<char>)| p(v.0) && belongs(r, v.1, key) && v.2 == name
}

/// The rows of all keys of a device on the days that `p` has.
pub open spec fn any_key_rows_on(r: Registry, key: Seq<char>, p: spec_fn(i64) -> bool) -> spec_fn(
    (i64, i64, Seq<char>),
) -> bool {
    |v: (i64, i64, Seq<char>)| p(v.0) && belongs(r, v.1, key)
}

/// The rows that are shown as a device, on the days that `p` has.
pub open spec fn shown_rows_on(r: Registry, key: Seq<char>, p: spec_fn(i64) -> bool) -> spec_fn(
    (i64, i64),
) -> bool {
    |v: (i64, i64)| p(v.0) && shows(r, v.1, key)
}

/// The rows on the days that `p` has.
pub open spec fn all_rows_on(p: spec_fn(i64) -> bool) -> spec_fn((i64, i64)) -> bool {
    |v: (i64, i64)| p(v.0)
}

/// The inputs of a device on the days that `p` has.
pub open spec fn inputs_on(key: Seq<char>, p: spec_fn(i64) -> bool) -> spec_fn(YearModel) -> int {
    |m: YearModel| tally::sum_if(m.device_counts, rows_on(m.devices, key, p))
}

/// The inputs by a key of a device on the days that `p` has.
pub open spec fn key_inputs_on(
    key: Seq<char>,
    name: Seq<char>,
    p: spec_fn(i64) -> bool,
) -> spec_fn(YearModel) -> int {
    |m: YearModel| tally::sum_if(m.device_keys, key_rows_on(m.devices, key, name, p))
}

/// The inputs by all keys of a device on the days that `p` has.
pub open spec fn any_key_inputs_on(key: Seq<char>, p: spec_fn(i64) -> bool) -> spec_fn(
    YearModel,
) -> int {
    |m: YearModel| tally::sum_if(m.device_keys, any_key_rows_on(m.devices, key, p))
}

/// The inputs that are shown as those of a device, on the days that `p` has.
pub open spec fn shown_inputs_on(key: Seq<char>, p: spec_fn(i64) -> bool) -> spec_fn(
    YearModel,
) -> int {
    |m: YearModel| tally::sum_if(m.device_counts, shown_rows_on(m.devices, key, p))
}

/// The inputs of all devices on the days that `p` has.
pub open spec fn all_inputs_on(p: spec_fn(i64) -> bool) -> spec_fn(YearModel) -> int {
    |m: YearModel| tally::sum_if(m.device_counts, all_rows_on(p))
}

/// The one day `day`.
pub open spec fn only(day: int) -> spec_fn(i64) -> bool {
    |d: i64| d == day
}

/// Every day.
pub open spec fn ever() -> spec_fn(i64) -> bool {
    |d: i64| true
}

/// The days of the period of a detail: -1 is today, 0 every day, else the last so many days.
pub open spec fn days_of_period(period: i64, today: int) -> spec_fn(i64) -> bool {
    |d: i64|
        if period == -1 {
            d == today
        } else {
            period == 0 || d >= today - period + 1
        }
}

/// The days that the keys of a detail are taken from.
pub open spec fn key_days_of_period(period: i64, today: int) -> spec_fn(i64) -> bool {
    |d: i64|
        if period == -1 {
            d >= today
        } else {
            period == 0 || d >= today - period + 1
        }
}

proof fn lemma_belongs(r: Registry, key: Seq<char>, id: i64)
    requires
        store::registry_ok(r),
        store::ids_fit(r),
    ensures
        devices::device_id(r, key) == Some(id) <==> belongs(r, id, key),
{
    if store::knows(r, key) {
        let i = choose|i: int| 0 <= i < r.len() && (#[trigger] r[i]).key == key;
        store::lemma_id_of(r, i);
        if belongs(r, id, key) {
            let k = choose|k: int| 0 <= k < r.len() && (#[trigger] r[k]).key == key && r[k].id == id;
            store::lemma_id_of(r, k);
        }
    }
}

proof fn lemma_shows(r: Registry, key: Seq<char>, id: i64, n: int)
    requires
        store::registry_ok(r),
    ensures
        devices::row_for(r, id, n).key == key <==> shows(r, id, key),
        devices::row_for(r, id, n).count == n,
{
    if store::knows_id(r, id as int) {
        let i = choose|i: int| 0 <= i < r.len() && (#[trigger] r[i]).id == id;
        if belongs(r, id, key) {
            let k = choose|k: int| 0 <= k < r.len() && (#[trigger] r[k]).key == key && r[k].id == id;
            if k < i {
                assert(r[k].id != r[i].id);
            }
            if i < k {
                assert(r[i].id != r[k].id);
            }
        }
    } else if belongs(r, id, key) {
        let k = choose|k: int| 0 <= k < r.len() && (#[trigger] r[k]).key == key && r[k].id == id;
        assert(store::knows_id(r, r[k].id));
    }
}

// --------------------------------------------------------------------- by day, by key

proof fn lemma_days_add_up(
    st: Store,
    years: Seq<i32>,
    key: Seq<char>,
    p: spec_fn(i64) -> bool,
)
    requires
        st.wf(),
    ensures
        tally::distinct(devices::days_over(st@, years, key)),
        tally::sum_if(devices::days_over(st@, years, key), p) == queries::over_years(
            years,
            totals::of_tables(st@, inputs_on(key, p)),
        ),
    decreases years.len(),
{
    if years.len() > 0 {
        let t = years.drop_last();
        let m = store::tables_of(st@, years.last());
        let q = devices::of_device(devices::device_id(m.devices, key));
        let f = devices::row_day();
        lemma_days_add_up(st, t, key, p);
        store::lemma_distinct_tables(st, years.last());
        let d = devices::days_over(st@, t, key);
        let g = select::grouped(m.device_counts, q, f);
        tally::lemma_absorb_sum(d, g, p);
        tally::lemma_absorb_shape(d, g);
        select::lemma_grouped_sum(m.device_counts, q, f, p);
        assert forall|v: (i64, i64)| #![trigger q(v)] q(v) == belongs(m.devices, v.1, key) by {
            lemma_belongs(m.devices, key, v.1);
        }
        tally::lemma_sum_same(
            m.device_counts,
            |v: (i64, i64)| p(f(v)) && q(v),
            rows_on(m.devices, key, p),
        );
    }
}

proof fn lemma_keys_add_up(
    st: Store,
    years: Seq<i32>,
    key: Seq<char>,
    w: Window,
    name: Seq<char>,
    p: spec_fn(i64) -> bool,
)
    requires
        st.wf(),
        forall|d: i64| #[trigger] p(d) == w.covers(d as int),
    ensures
        tally::distinct(devices::keys_over(st@, years, key, w)),
        tally::amount(devices::keys_over(st@, years, key, w), name) == queries::over_years(
            years,
            totals::of_tables(st@, key_inputs_on(key, name, p)),
        ),
        tally::total(devices::keys_over(st@, years, key, w)) == queries::over_years(
            years,
            totals::of_tables(st@, any_key_inputs_on(key, p)),
        ),
    decreases years.len(),
{
    if years.len() == 0 {
        tally::lemma_amount_missing(devices::keys_over(st@, years, key, w), name);
    } else {
        let t = years.drop_last();
        let m = store::tables_of(st@, years.last());
        let q = devices::keys_of_device(devices::device_id(m.devices, key), w);
        let f = devices::row_key_name();
        let is = |n: Seq<char>| n == name;
        let any = |n: Seq<char>| true;
        lemma_keys_add_up(st, t, key, w, name, p);
        store::lemma_distinct_tables(st, years.last());
        let d = devices::keys_over(st@, t, key, w);
        let g = select::grouped(m.device_keys, q, f);
        tally::lemma_absorb_amount(d, g, name);
        tally::lemma_absorb_sum(d, g, any);
        tally::lemma_absorb_shape(d, g);
        select::lemma_grouped_sum(m.device_keys, q, f, is);
        tally::lemma_amount_is(g, name, is);
        select::lemma_grouped(m.device_keys, q, f);
        assert forall|v: (i64, i64, Seq<char>)| #![trigger q(v)] q(v) == (p(v.0) && belongs(
            m.devices,
            v.1,
            key,
        )) by {
            lemma_belongs(m.devices, key, v.1);
        }
        tally::lemma_sum_same(
            m.device_keys,
            |v: (i64, i64, Seq<char>)| is(f(v)) && q(v),
            key_rows_on(m.devices, key, name, p),
        );
        tally::lemma_sum_same(m.device_keys, q, any_key_rows_on(m.devices, key, p));
    }
}

/// Whether a device has a row on a day.
pub open spec fn used_on(st: StoreModel, key: Seq<char>, day: i64) -> bool {
    exists|i: int, k: int|
        0 <= i < st.len() && (#[trigger] st[i]).1 is Some && 0 <= k
            < st[i].1->0.device_counts.len() && (#[trigger] st[i].1->0.device_counts[k]).0.0 == day
            && belongs(st[i].1->0.devices, st[i].1->0.device_counts[k].0.1, key)
}

/// Whether the tables of a year have a row of a device on a day.
pub open spec fn row_on(m: YearModel, key: Seq<char>, day: i64) -> bool {
    exists|k: int|
        0 <= k < m.device_counts.len() && (#[trigger] m.device_counts[k]).0.0 == day && belongs(
            m.devices,
            m.device_counts[k].0.1,
            key,
        )
}

proof fn lemma_grouped_keys<V, W>(
    s: Seq<(V, int)>,
    q: spec_fn(V) -> bool,
    f: spec_fn(V) -> W,
    x: W,
)
    ensures
        tally::has_key(select::grouped(s, q, f), x) <==> exists|k: int|
            0 <= k < s.len() && q((#[trigger] s[k]).0) && f(s[k].0) == x,
{
    let kept = tally::keep(s, q);
    let named = tally::rekey(kept, f);
    let none = Seq::<(W, int)>::empty();
    tally::lemma_absorb_shape(none, named);
    assert(tally::has_key(select::grouped(s, q, f), x) <==> tally::has_key(none, x)
        || tally::has_key(named, x));
    tally::lemma_keep(s, q);
    if tally::has_key(named, x) {
        let i = choose|i: int| 0 <= i < named.len() && (#[trigger] named[i]).0 == x;
        assert(s.contains(kept[i]));
        let k = choose|k: int| 0 <= k < s.len() && s[k] == kept[i];
        assert(q(s[k].0) && f(s[k].0) == x);
    }
    if exists|k: int| 0 <= k < s.len() && q((#[trigger] s[k]).0) && f(s[k].0) == x {
        let k = choose|k: int| 0 <= k < s.len() && q((#[trigger] s[k]).0) && f(s[k].0) == x;
        assert(tally::has_key(s, s[k].0));
        assert(tally::has_key(kept, s[k].0));
        let i = choose|i: int| 0 <= i < kept.len() && (#[trigger] kept[i]).0 == s[k].0;
        assert(named[i].0 == x);
    }
}

proof fn lemma_days_listed(st: Store, years: Seq<i32>, key: Seq<char>, day: i64)
    requires
        st.wf(),
    ensures
        tally::has_key(devices::days_over(st@, years, key), day) <==> exists|i: int|
            0 <= i < years.len() && row_on(store::tables_of(st@, #[trigger] years[i]), key, day),
    decreases years.len(),
{
    if years.len() > 0 {
        let t = years.drop_last();
        let m = store::tables_of(st@, years.last());
        let q = devices::of_device(devices::device_id(m.devices, key));
        let f = devices::row_day();
        lemma_days_listed(st, t, key, day);
        lemma_days_add_up(st, t, key, ever());
        store::lemma_distinct_tables(st, years.last());
        let d = devices::days_over(st@, t, key);
        let g = select::grouped(m.device_counts, q, f);
        tally::lemma_absorb_shape(d, g);
        assert(tally::has_key(tally::absorb(d, g), day) <==> tally::has_key(d, day)
            || tally::has_key(g, day));
        lemma_grouped_keys(m.device_counts, q, f, day);
        assert(tally::has_key(g, day) <==> row_on(m, key, day)) by {
            if tally::has_key(g, day) {
                let k = choose|k: int|
                    0 <= k < m.device_counts.len() && q((#[trigger] m.device_counts[k]).0) && f(
                        m.device_counts[k].0,
                    ) == day;
                lemma_belongs(m.devices, key, m.device_counts[k].0.1);
            }
            if row_on(m, key, day) {
                let k = choose|k: int|
                    0 <= k < m.device_counts.len() && (#[trigger] m.device_counts[k]).0.0 == day
                        && belongs(m.devices, m.device_counts[k].0.1, key);
                lemma_belongs(m.devices, key, m.device_counts[k].0.1);
                assert(q(m.device_counts[k].0) && f(m.device_counts[k].0) == day);
            }
        }
        assert(years[years.len() - 1] == years.last());
        if tally::has_key(d, day) {
            let i = choose|i: int|
                0 <= i < t.len() && row_on(store::tables_of(st@, #[trigger] t[i]), key, day);
            assert(years[i] == t[i]);
        }
        if exists|i: int|
            0 <= i < years.len() && row_on(store::tables_of(st@, #[trigger] years[i]), key, day) {
            let i = choose|i: int|
                0 <= i < years.len() && row_on(store::tables_of(st@, #[trigger] years[i]), key, day);
            if i < t.len() {
                assert(t[i] == years[i]);
            }
        }
    }
}

/// The days of a device are those on which some file has a row of it.
pub proof fn lemma_days_are_the_used_ones(st: Store, key: Seq<char>, day: i64)
    requires
        st.wf(),
    ensures
        tally::has_key(devices::days_of(st@, key), day) <==> used_on(st@, key, day),
{
    let years = queries::available(st@);
    st.one_each();
    lemma_days_listed(st, years, key, day);
    queries::lemma_available(st@);
    if exists|i: int|
        0 <= i < years.len() && row_on(store::tables_of(st@, #[trigger] years[i]), key, day) {
        let i = choose|i: int|
            0 <= i < years.len() && row_on(store::tables_of(st@, #[trigger] years[i]), key, day);
        let m = store::tables_of(st@, years[i]);
        let k = choose|k: int|
            0 <= k < m.device_counts.len() && (#[trigger] m.device_counts[k]).0.0 == day && belongs(
                m.devices,
                m.device_counts[k].0.1,
                key,
            );
        let f = choose|f: int|
            0 <= f < st@.len() && (#[trigger] st@[f]).0 == years[i] && st@[f].1 is Some;
        store::lemma_tables_at(st@, f);
        assert(st@[f].1->0.device_counts[k].0.0 == day);
    }
    if used_on(st@, key, day) {
        let (f, k) = choose|f: int, k: int|
            0 <= f < st@.len() && (#[trigger] st@[f]).1 is Some && 0 <= k
                < st@[f].1->0.device_counts.len() && (
            #[trigger] st@[f].1->0.device_counts[k]).0.0 == day && belongs(
                st@[f].1->0.devices,
                st@[f].1->0.device_counts[k].0.1,
                key,
            );
        let y = st@[f].0;
        store::lemma_tables_at(st@, f);
        assert(queries::has_data(st@[f].1));
        assert(years.contains(y));
        let i = choose|i: int| 0 <= i < years.len() && years[i] == y;
        let m = store::tables_of(st@, years[i]);
        assert(m.device_counts[k].0.0 == day);
        assert(row_on(m, key, day));
    }
}

// ---------------------------------------------------------------------------- rankings

proof fn lemma_name_rank()
    ensures
        order::ranks(order::by_rank::<NameCount>()),
{
    let ahead = order::by_rank::<NameCount>();
    assert forall|a: (Seq<char>, int), b: (Seq<char>, int)| #[trigger] ahead(
        a,
        b,
    ) implies !ahead(b, a) by {
        text::lemma_lex_total(a.0, b.0);
    }
    assert forall|a: (Seq<char>, int), b: (Seq<char>, int), c: (Seq<char>, int)|
        !(#[trigger] ahead(a, b)) && !(#[trigger] ahead(b, c)) implies !ahead(a, c) by {
        if a.1 == b.1 && b.1 == c.1 {
            text::lemma_lex_trans(c.0, b.0, a.0);
        }
    }
}

/// A ranking of names has the rows of the table and no others, the largest amount first and
/// names of equal amounts in order.
pub proof fn lemma_names_are_ranked(s: Seq<(Seq<char>, int)>)
    ensures
        devices::name_ranking(s).to_multiset() == s.to_multiset(),
        devices::name_ranking(s).len() == s.len(),
        forall|i: int, j: int|
            0 <= i < j < s.len() ==> {
                let a = #[trigger] devices::name_ranking(s)[i];
                let b = #[trigger] devices::name_ranking(s)[j];
                a.1 > b.1 || (a.1 == b.1 && text::lex_le(a.0, b.0))
            },
{
    let ahead = order::by_rank::<NameCount>();
    let r = devices::name_ranking(s);
    lemma_name_rank();
    order::lemma_ranked_keeps(s, ahead);
    order::lemma_ranked_in_order(s, ahead);
    assert forall|i: int, j: int| 0 <= i < j < s.len() implies ({
        let a = #[trigger] r[i];
        let b = #[trigger] r[j];
        a.1 > b.1 || (a.1 == b.1 && text::lex_le(a.0, b.0))
    }) by {
        assert(!ahead(r[j], r[i]));
    }
}

proof fn lemma_series(s: Seq<(i64, int)>)
    requires
        tally::distinct(s),
    ensures
        devices::day_series(s).len() == s.len(),
        forall|d: i64|
            tally::has_key(s, d) <==> #[trigger] tally::keys(devices::day_series(s)).contains(d),
        forall|i: int, j: int|
            0 <= i < j < s.len() ==> (#[trigger] devices::day_series(s)[i]).0 < (
            #[trigger] devices::day_series(s)[j]).0,
{
    let ahead = order::by_rank::<DayCount>();
    let r = devices::day_series(s);
    order::lemma_ranked_keeps(s, ahead);
    order::lemma_ranked_in_order(s, ahead);
    assert forall|d: i64| tally::has_key(s, d) <==> #[trigger] tally::keys(r).contains(d) by {
        if tally::has_key(s, d) {
            let k = choose|k: int| 0 <= k < s.len() && (#[trigger] s[k]).0 == d;
            assert(s.contains(s[k]));
            vstd::seq_lib::to_multiset_contains(s, s[k]);
            vstd::seq_lib::to_multiset_contains(r, s[k]);
            let i = choose|i: int| 0 <= i < r.len() && r[i] == s[k];
            assert(tally::keys(r)[i] == d);
        }
        if tally::keys(r).contains(d) {
            let i = choose|i: int| 0 <= i < tally::keys(r).len() && tally::keys(r)[i] == d;
            assert(r.contains(r[i]));
            vstd::seq_lib::to_multiset_contains(r, r[i]);
            vstd::seq_lib::to_multiset_contains(s, r[i]);
            let k = choose|k: int| 0 <= k < s.len() && s[k] == r[i];
            assert(s[k].0 == d);
        }
    }
    assert(s.no_duplicates()) by {
        assert forall|i: int, j: int| 0 <= i < s.len() && 0 <= j < s.len() && i != j implies s[i]
            != s[j] by {
            if i < j {
                assert(s[i].0 != s[j].0);
            } else {
                assert(s[j].0 != s[i].0);
            }
        }
    }
    s.lemma_multiset_has_no_duplicates();
    r.lemma_multiset_has_no_duplicates_conv();
    assert forall|i: int, j: int| 0 <= i < j < s.len() implies (#[trigger] r[i]).0 < (
    #[trigger] r[j]).0 by {
        assert(!ahead(r[j], r[i]));
        if r[i].0 == r[j].0 {
            vstd::seq_lib::to_multiset_contains(r, r[i]);
            vstd::seq_lib::to_multiset_contains(s, r[i]);
            vstd::seq_lib::to_multiset_contains(r, r[j]);
            vstd::seq_lib::to_multiset_contains(s, r[j]);
            assert(r.contains(r[i]) && r.contains(r[j]));
            let a = choose|a: int| 0 <= a < s.len() && s[a] == r[i];
            let b = choose|b: int| 0 <= b < s.len() && s[b] == r[j];
            if a < b {
                assert(s[a].0 != s[b].0);
            }
            if b < a {
                assert(s[b].0 != s[a].0);
            }
        }
    }
}

// ------------------------------------------------------------------------------ detail

/// The figures of a device are sums over its rows in all files: today, the last 7 and 30
/// days, all days, and the days of the period; the trend has the sum of each of the last 30
/// days.
pub proof fn lemma_detail_counts_rows(
    r: DeviceDetail,
    st: Store,
    key: Seq<char>,
    period: i64,
    today: Date,
    aliases: Seq<(Seq<char>, Seq<char>)>,
    i: int,
)
    requires
        st.wf(),
        queries::usable_today(today),
        period >= -1,
        devices::tells(r, st@, key, period, today, aliases),
    ensures
        ({
            let n = today.number();
            &&& r.today == totals::over_files(st@, totals::in_any_year(inputs_on(key, only(n))))
            &&& r.week == totals::over_files(
                st@,
                totals::in_any_year(inputs_on(key, totals::since(n - 6))),
            )
            &&& r.month == totals::over_files(
                st@,
                totals::in_any_year(inputs_on(key, totals::since(n - 29))),
            )
            &&& r.all == totals::over_files(st@, totals::in_any_year(inputs_on(key, ever())))
            &&& r.period_count == totals::over_files(
                st@,
                totals::in_any_year(inputs_on(key, days_of_period(period, n))),
            )
            &&& r.trend@.len() == 30
            &&& 0 <= i < 30 ==> r.trend@[i].0@ == calendar::day_text(n - 29 + i) && r.trend@[i].1
                == totals::over_files(
                st@,
                totals::in_any_year(inputs_on(key, only(n - 29 + i))),
            )
        }),
{
    let n = today.number();
    let own = devices::days_of(st@, key);
    calendar::lemma_number_range(today);
    lemma_own(st, key, only(n), Window::On(n as i64).rows::<i64>());
    lemma_own(st, key, totals::since(n - 6), Window::From((n - 6) as i64).rows::<i64>());
    lemma_own(st, key, totals::since(n - 29), Window::From((n - 29) as i64).rows::<i64>());
    lemma_own(st, key, ever(), |v: i64| true);
    tally::lemma_sum_same(own, |v: i64| true, ever());
    lemma_own(
        st,
        key,
        days_of_period(period, n),
        devices::detail_window(period, n).rows::<i64>(),
    );
    let tr = devices::trend_of(own, n);
    assert(queries::labelled(r.trend@).len() == r.trend@.len());
    if 0 <= i < 30 {
        let d = (n - 29 + i) as i64;
        assert(queries::labelled(r.trend@)[i] == tr[i]);
        tally::lemma_amount_is(own, d, only(n - 29 + i));
        lemma_own(st, key, only(n - 29 + i), only(n - 29 + i));
    }
}

proof fn lemma_own(st: Store, key: Seq<char>, p: spec_fn(i64) -> bool, q: spec_fn(i64) -> bool)
    requires
        st.wf(),
        forall|d: i64| #![trigger p(d)] #![trigger q(d)] p(d) == q(d),
    ensures
        tally::sum_if(devices::days_of(st@, key), q) == totals::over_files(
            st@,
            totals::in_any_year(inputs_on(key, p)),
        ),
{
    let years = queries::available(st@);
    st.one_each();
    lemma_days_add_up(st, years, key, p);
    tally::lemma_sum_same(devices::days_of(st@, key), q, p);
    totals::lemma_available_files(st@, inputs_on(key, p));
}

/// The keys in the detail of a device are those of its rows in all files on the days of the
/// period: each listed key has the sum of its rows on those days, the keys together have the
/// sum of all of them, and they are ranked.
pub proof fn lemma_detail_ranks_keys(
    r: DeviceDetail,
    st: Store,
    key: Seq<char>,
    period: i64,
    today: Date,
    aliases: Seq<(Seq<char>, Seq<char>)>,
    i: int,
    j: int,
    name: Seq<char>,
)
    requires
        st.wf(),
        queries::usable_today(today),
        period >= -1,
        devices::tells(r, st@, key, period, today, aliases),
    ensures
        ({
            let p = key_days_of_period(period, today.number());
            &&& 0 <= i < r.keys@.len() ==> r.keys@[i].1 == totals::over_files(
                st@,
                totals::in_any_year(key_inputs_on(key, r.keys@[i].0@, p)),
            )
            &&& (forall|k: int| 0 <= k < r.keys@.len() ==> (#[trigger] r.keys@[k]).0@ != name)
                ==> totals::over_files(st@, totals::in_any_year(key_inputs_on(key, name, p))) == 0
            &&& r.key_total == totals::over_files(
                st@,
                totals::in_any_year(any_key_inputs_on(key, p)),
            )
            &&& 0 <= i < j < r.keys@.len() ==> r.keys@[i].0@ != r.keys@[j].0@ && (r.keys@[i].1
                > r.keys@[j].1 || (r.keys@[i].1 == r.keys@[j].1 && text::lex_le(
                r.keys@[i].0@,
                r.keys@[j].0@,
            )))
        }),
{
    let n = today.number();
    let p = key_days_of_period(period, n);
    let w = devices::key_window(period, n);
    let years = queries::available(st@);
    let ks = devices::keys_over(st@, years, key, w);
    let rk = devices::name_ranking(ks);
    calendar::lemma_number_range(today);
    st.one_each();
    assert(queries::labelled(r.keys@) == rk);
    assert(queries::labelled(r.keys@).len() == r.keys@.len());
    lemma_names_are_ranked(ks);
    lemma_keys_add_up(st, years, key, w, name, p);
    totals::lemma_available_files(st@, any_key_inputs_on(key, p));
    totals::lemma_available_files(st@, key_inputs_on(key, name, p));
    if 0 <= i < r.keys@.len() {
        let x = r.keys@[i].0@;
        assert(queries::labelled(r.keys@)[i] == rk[i]);
        lemma_keys_add_up(st, years, key, w, x, p);
        totals::lemma_available_files(st@, key_inputs_on(key, x, p));
        assert(rk.contains(rk[i]));
        vstd::seq_lib::to_multiset_contains(rk, rk[i]);
        vstd::seq_lib::to_multiset_contains(ks, rk[i]);
        let k = choose|k: int| 0 <= k < ks.len() && ks[k] == rk[i];
        tally::lemma_amount_at(ks, k);
        if 0 <= i < j < r.keys@.len() {
            assert(queries::labelled(r.keys@)[j] == rk[j]);
            lemma_ranked_differ(ks, i, j);
        }
    }
    if forall|k: int| 0 <= k < r.keys@.len() ==> (#[trigger] r.keys@[k]).0@ != name {
        if tally::has_key(ks, name) {
            let k = choose|k: int| 0 <= k < ks.len() && (#[trigger] ks[k]).0 == name;
            assert(ks.contains(ks[k]));
            vstd::seq_lib::to_multiset_contains(ks, ks[k]);
            vstd::seq_lib::to_multiset_contains(rk, ks[k]);
            let x = choose|x: int| 0 <= x < rk.len() && rk[x] == ks[k];
            assert(queries::labelled(r.keys@)[x] == rk[x]);
            assert(r.keys@[x].0@ != name);
        }
        tally::lemma_amount_missing(ks, name);
    }
}

proof fn lemma_ranked_differ(s: Seq<(Seq<char>, int)>, i: int, j: int)
    requires
        tally::distinct(s),
        0 <= i < j < s.len(),
    ensures
        devices::name_ranking(s)[i].0 != devices::name_ranking(s)[j].0,
{
    let r = devices::name_ranking(s);
    order::lemma_ranked_keeps(s, order::by_rank::<NameCount>());
    assert(s.no_duplicates()) by {
        assert forall|a: int, b: int| 0 <= a < s.len() && 0 <= b < s.len() && a != b implies s[a]
            != s[b] by {
            if a < b {
                assert(s[a].0 != s[b].0);
            } else {
                assert(s[b].0 != s[a].0);
            }
        }
    }
    s.lemma_multiset_has_no_duplicates();
    r.lemma_multiset_has_no_duplicates_conv();
    assert(r.contains(r[i]) && r.contains(r[j]));
    vstd::seq_lib::to_multiset_contains(r, r[i]);
    vstd::seq_lib::to_multiset_contains(s, r[i]);
    vstd::seq_lib::to_multiset_contains(r, r[j]);
    vstd::seq_lib::to_multiset_contains(s, r[j]);
    let a = choose|a: int| 0 <= a < s.len() && s[a] == r[i];
    let b = choose|b: int| 0 <= b < s.len() && s[b] == r[j];
    assert(r[i] != r[j]);
    if a < b {
        assert(s[a].0 != s[b].0);
    } else {
        assert(s[b].0 != s[a].0);
    }
}

/// The active days of a device are the days on which some file has a row of it, and the
/// dates are the first and the last of them.
pub proof fn lemma_detail_dates(
    r: DeviceDetail,
    st: Store,
    key: Seq<char>,
    period: i64,
    today: Date,
    aliases: Seq<(Seq<char>, Seq<char>)>,
) -> (days: Seq<i64>)
    requires
        st.wf(),
        devices::tells(r, st@, key, period, today, aliases),
    ensures
        days.len() == r.active_days,
        forall|d: i64| used_on(st@, key, d) <==> #[trigger] days.contains(d),
        forall|i: int, j: int| 0 <= i < j < days.len() ==> days[i] < days[j],
        days.len() == 0 ==> r.first_date@.len() == 0 && r.last_date@.len() == 0,
        days.len() > 0 ==> r.first_date@ == calendar::day_text(days[0] as int) && r.last_date@
            == calendar::day_text(days.last() as int),
{
    let own = devices::days_of(st@, key);
    let s = devices::day_series(own);
    let days = tally::keys(s);
    lemma_days_add_up(st, queries::available(st@), key, ever());
    lemma_series(own);
    assert forall|d: i64| used_on(st@, key, d) <==> #[trigger] days.contains(d) by {
        lemma_days_are_the_used_ones(st, key, d);
    }
    assert forall|i: int, j: int| 0 <= i < j < days.len() implies days[i] < days[j] by {
        assert(s[i].0 < s[j].0);
    }
    days
}

// ------------------------------------------------------------------------ shown devices

/// The sum of the counts of the rows of one device.
pub open spec fn count_for(rows: Seq<RowModel>, key: Seq<char>) -> int
    decreases rows.len(),
{
    if rows.len() == 0 {
        0
    } else {
        count_for(rows.drop_last(), key) + (if rows.last().key == key {
            rows.last().count
        } else {
            0
        })
    }
}

proof fn lemma_count_for_joined(a: Seq<RowModel>, b: Seq<RowModel>, key: Seq<char>)
    ensures
        count_for(a + b, key) == count_for(a, key) + count_for(b, key),
    decreases b.len(),
{
    if b.len() == 0 {
        assert(a + b =~= a);
    } else {
        lemma_count_for_joined(a, b.drop_last(), key);
        assert((a + b).drop_last() =~= a + b.drop_last());
        assert((a + b).last() == b.last());
    }
}

proof fn lemma_count_at(s: Seq<RowModel>, i: int)
    requires
        devices::one_each(s),
        0 <= i < s.len(),
    ensures
        count_for(s, s[i].key) == s[i].count,
    decreases s.len(),
{
    let t = s.drop_last();
    assert forall|a: int, b: int| 0 <= a < b < t.len() implies (#[trigger] t[a]).key != (
    #[trigger] t[b]).key by {
        assert(s[a].key != s[b].key);
    }
    assert(s[s.len() - 1] == s.last());
    if i < t.len() {
        assert(t[i] == s[i]);
        lemma_count_at(t, i);
        assert(s[i].key != s[s.len() - 1].key);
    } else {
        assert forall|k: int| 0 <= k < t.len() implies (#[trigger] t[k]).key != s[i].key by {
            assert(s[k].key != s[i].key);
        }
        lemma_count_none(t, s[i].key);
    }
}

proof fn lemma_count_none(s: Seq<RowModel>, key: Seq<char>)
    requires
        forall|k: int| 0 <= k < s.len() ==> (#[trigger] s[k]).key != key,
    ensures
        count_for(s, key) == 0,
    decreases s.len(),
{
    if s.len() > 0 {
        let t = s.drop_last();
        assert forall|k: int| 0 <= k < t.len() implies (#[trigger] t[k]).key != key by {
            assert(t[k] == s[k]);
        }
        lemma_count_none(t, key);
        assert(s[s.len() - 1] == s.last());
    }
}

proof fn lemma_with_row_counts(s: Seq<RowModel>, r: RowModel, key: Seq<char>)
    requires
        devices::one_each(s),
    ensures
        count_for(devices::with_row(s, r), key) == count_for(s, key) + (if r.key == key {
            r.count
        } else {
            0
        }),
    decreases s.len(),
{
    let w = devices::with_row(s, r);
    if devices::has_row(s, r.key) {
        let t = s.drop_last();
        assert forall|a: int, b: int| 0 <= a < b < t.len() implies (#[trigger] t[a]).key != (
        #[trigger] t[b]).key by {
            assert(s[a].key != s[b].key);
        }
        let k = choose|k: int| 0 <= k < s.len() && (#[trigger] s[k]).key == r.key;
        assert(s[s.len() - 1] == s.last());
        if k == s.len() - 1 {
            assert(w.drop_last() =~= t) by {
                assert forall|i: int| 0 <= i < t.len() implies w.drop_last()[i] == t[i] by {
                    assert(s[i].key != s[k].key);
                }
            }
        } else {
            assert(t[k].key == r.key);
            assert(devices::has_row(t, r.key));
            assert(s[k].key != s[s.len() - 1].key);
            assert(w.drop_last() =~= devices::with_row(t, r));
            lemma_with_row_counts(t, r, key);
        }
    } else {
        assert(w.drop_last() =~= s);
    }
}

/// Merging rows gives each device the sum of its counts.
pub proof fn lemma_merged_counts(rows: Seq<RowModel>, key: Seq<char>)
    ensures
        count_for(devices::merged(rows), key) == count_for(rows, key),
    decreases rows.len(),
{
    if rows.len() > 0 {
        lemma_merged_counts(rows.drop_last(), key);
        devices::lemma_merged(rows.drop_last());
        lemma_with_row_counts(devices::merged(rows.drop_last()), rows.last(), key);
    }
}

/// The name of the first row of a device that has one that is not blank.
pub open spec fn first_name(rows: Seq<RowModel>, key: Seq<char>) -> Option<Seq<char>>
    decreases rows.len(),
{
    if rows.len() == 0 {
        None
    } else {
        let f = first_name(rows.drop_last(), key);
        if f is None && rows.last().key == key && rows.last().name is Some && !text::is_blank(
            rows.last().name->0,
        ) {
            rows.last().name
        } else {
            f
        }
    }
}

/// The kind of the first row of a device that has one that is not empty.
pub open spec fn first_kind(rows: Seq<RowModel>, key: Seq<char>) -> Option<Seq<char>>
    decreases rows.len(),
{
    if rows.len() == 0 {
        None
    } else {
        let f = first_kind(rows.drop_last(), key);
        if f is None && rows.last().key == key && rows.last().kind is Some
            && (rows.last().kind->0).len() > 0 {
            rows.last().kind
        } else {
            f
        }
    }
}

proof fn lemma_merged_names(rows: Seq<RowModel>, i: int)
    requires
        0 <= i < devices::merged(rows).len(),
    ensures
        ({
            let m = devices::merged(rows)[i];
            let n = first_name(rows, m.key);
            let k = first_kind(rows, m.key);
            &&& n is Some ==> m.name == n
            &&& n is None ==> m.name is None || text::is_blank(m.name->0)
            &&& k is Some ==> m.kind == k
            &&& k is None ==> m.kind is None || (m.kind->0).len() == 0
        }),
    decreases rows.len(),
{
    let t = rows.drop_last();
    let p = devices::merged(t);
    let e = rows.last();
    let m = devices::merged(rows)[i];
    if i < p.len() {
        lemma_merged_names(t, i);
        assert(m.key == p[i].key);
        if first_name(t, m.key) is Some {
            lemma_first_name_not_blank(t, m.key);
        }
        if first_kind(t, m.key) is Some {
            lemma_first_kind_not_empty(t, m.key);
        }
    } else {
        assert(m == e);
        lemma_none_before(t, e.key);
    }
}

proof fn lemma_none_before(rows: Seq<RowModel>, key: Seq<char>)
    requires
        !devices::has_row(devices::merged(rows), key),
    ensures
        first_name(rows, key) is None,
        first_kind(rows, key) is None,
    decreases rows.len(),
{
    devices::lemma_merged_keys(rows, key);
    if rows.len() > 0 {
        let t = rows.drop_last();
        devices::lemma_merged_keys(t, key);
        assert(rows[rows.len() - 1] == rows.last());
        if devices::has_row(t, key) {
            let k = choose|k: int| 0 <= k < t.len() && (#[trigger] t[k]).key == key;
            assert(rows[k].key == key);
        }
        lemma_none_before(t, key);
    }
}

/// A shown device has the sum of the counts of its rows, the alias that the user gave it or
/// else the name found for it, the first kind registered for it, and one place in the list.
pub proof fn lemma_shown_is_the_sum(
    rows: Seq<RowModel>,
    aliases: Seq<(Seq<char>, Seq<char>)>,
    i: int,
    j: int,
)
    requires
        0 <= i < devices::shown_devices(rows, aliases).len(),
    ensures
        ({
            let s = devices::shown_devices(rows, aliases);
            let d = s[i];
            let alias = crate::device_alias::resolved(aliases, d.key);
            let n = first_name(rows, d.key);
            &&& devices::has_row(rows, d.key)
            &&& d.count == count_for(rows, d.key)
            &&& d.has_alias == (alias is Some)
            &&& alias is Some ==> d.name == alias->0
            &&& d.auto_name == (if n is Some && text::trimmed(n->0) != d.key {
                text::trimmed(n->0)
            } else {
                hardware::fallback_name(d.key)
            })
            &&& first_kind(rows, d.key) is Some ==> d.kind == first_kind(rows, d.key)->0
            &&& 0 <= j < s.len() && i != j ==> s[j].key != d.key
            &&& 0 <= i < j < s.len() ==> d.count >= s[j].count
        }),
{
    let m = devices::merged(rows);
    let a = devices::stats_of(m, aliases);
    let ahead = order::by_rank::<devices::DeviceStat>();
    let r = order::ranked(a, ahead);
    let s = devices::shown_devices(rows, aliases);
    order::lemma_ranked_keeps(a, ahead);
    devices::lemma_merged(rows);
    assert(r.contains(r[i]));
    vstd::seq_lib::to_multiset_contains(r, r[i]);
    vstd::seq_lib::to_multiset_contains(a, r[i]);
    let k = choose|k: int| 0 <= k < a.len() && a[k] == r[i];
    assert(s[i].key == m[k].key);
    lemma_merged_counts(rows, m[k].key);
    lemma_count_at(m, k);
    lemma_merged_names(rows, k);
    devices::lemma_merged_keys(rows, m[k].key);
    let nm = m[k].name;
    if nm is Some {
        lemma_blank_trimmed(nm->0);
    }
    if first_name(rows, m[k].key) is Some {
        lemma_blank_trimmed(first_name(rows, m[k].key)->0);
        lemma_first_name_not_blank(rows, m[k].key);
    }
    if 0 <= j < s.len() && i != j {
        assert(r.contains(r[j]));
        vstd::seq_lib::to_multiset_contains(r, r[j]);
        vstd::seq_lib::to_multiset_contains(a, r[j]);
        let l = choose|l: int| 0 <= l < a.len() && a[l] == r[j];
        assert(a.no_duplicates()) by {
            assert forall|x: int, y: int|
                0 <= x < a.len() && 0 <= y < a.len() && x != y implies a[x] != a[y] by {
                if x < y {
                    assert(m[x].key != m[y].key);
                } else {
                    assert(m[y].key != m[x].key);
                }
                assert(a[x].key == m[x].key && a[y].key == m[y].key);
            }
        }
        a.lemma_multiset_has_no_duplicates();
        r.lemma_multiset_has_no_duplicates_conv();
        assert(r[i] != r[j]);
        if k < l {
            assert(m[k].key != m[l].key);
        } else {
            assert(m[l].key != m[k].key);
        }
        assert(s[j].key == m[l].key);
    }
    if 0 <= i < j < s.len() {
        devices::lemma_most_used_first(rows, aliases, i, j);
    }
}

proof fn lemma_first_name_not_blank(rows: Seq<RowModel>, key: Seq<char>)
    requires
        first_name(rows, key) is Some,
    ensures
        !text::is_blank(first_name(rows, key)->0),
    decreases rows.len(),
{
    if rows.len() > 0 && first_name(rows.drop_last(), key) is Some {
        lemma_first_name_not_blank(rows.drop_last(), key);
    }
}

proof fn lemma_first_kind_not_empty(rows: Seq<RowModel>, key: Seq<char>)
    requires
        first_kind(rows, key) is Some,
    ensures
        (first_kind(rows, key)->0).len() > 0,
    decreases rows.len(),
{
    if rows.len() > 0 && first_kind(rows.drop_last(), key) is Some {
        lemma_first_kind_not_empty(rows.drop_last(), key);
    }
}

proof fn lemma_blank_trimmed(s: Seq<char>)
    ensures
        text::is_blank(s) <==> text::trimmed(s).len() == 0,
{
}

proof fn lemma_rows_count(
    r: Registry,
    g: Seq<(i64, int)>,
    key: Seq<char>,
    p: spec_fn(i64) -> bool,
)
    requires
        store::registry_ok(r),
        forall|id: i64| #[trigger] p(id) == shows(r, id, key),
    ensures
        count_for(
            Seq::new(g.len(), |i: int| devices::row_for(r, g[i].0, g[i].1)),
            key,
        ) == tally::sum_if(g, p),
    decreases g.len(),
{
    let s = Seq::new(g.len(), |i: int| devices::row_for(r, g[i].0, g[i].1));
    if g.len() > 0 {
        let t = g.drop_last();
        lemma_rows_count(r, t, key, p);
        assert(s.drop_last() =~= Seq::new(t.len(), |i: int| devices::row_for(r, t[i].0, t[i].1)));
        lemma_shows(r, key, g.last().0, g.last().1);
        assert(p(g.last().0) == shows(r, g.last().0, key));
    }
}

proof fn lemma_table_counts(
    y: YearModel,
    w: Window,
    key: Seq<char>,
    p: spec_fn(i64) -> bool,
)
    requires
        store::registry_ok(y.devices),
        forall|d: i64| #[trigger] p(d) == w.covers(d as int),
    ensures
        count_for(devices::device_rows(y, w), key) == shown_inputs_on(key, p)(y),
        devices::sum_rows(devices::device_rows(y, w)) == all_inputs_on(p)(y),
{
    let q = w.rows::<(i64, i64)>();
    let f = devices::row_device();
    let g = devices::inputs_by_id(y, w);
    let o = |id: i64| shows(y.devices, id, key);
    lemma_rows_count(y.devices, g, key, o);
    select::lemma_grouped_sum(y.device_counts, q, f, o);
    tally::lemma_sum_same(
        y.device_counts,
        |v: (i64, i64)| o(f(v)) && q(v),
        shown_rows_on(y.devices, key, p),
    );
    devices::lemma_device_rows_sum(y, w);
    tally::lemma_sum_same(y.device_counts, q, all_rows_on(p));
}

proof fn lemma_rows_over_count(
    st: Store,
    years: Seq<i32>,
    w: Window,
    key: Seq<char>,
    p: spec_fn(i64) -> bool,
)
    requires
        st.wf(),
        forall|d: i64| #[trigger] p(d) == w.covers(d as int),
    ensures
        count_for(devices::rows_over(st@, years, w), key) == queries::over_years(
            years,
            totals::of_tables(st@, shown_inputs_on(key, p)),
        ),
        devices::sum_rows(devices::rows_over(st@, years, w)) == queries::over_years(
            years,
            totals::of_tables(st@, all_inputs_on(p)),
        ),
    decreases years.len(),
{
    if years.len() > 0 {
        let t = years.drop_last();
        let y = store::tables_of(st@, years.last());
        lemma_rows_over_count(st, t, w, key, p);
        store::lemma_distinct_tables(st, years.last());
        lemma_table_counts(y, w, key, p);
        lemma_count_for_joined(
            devices::rows_over(st@, t, w),
            devices::device_rows(y, w),
            key,
        );
        lemma_sum_joined(devices::rows_over(st@, t, w), devices::device_rows(y, w));
    }
}

proof fn lemma_sum_joined(a: Seq<RowModel>, b: Seq<RowModel>)
    ensures
        devices::sum_rows(a + b) == devices::sum_rows(a) + devices::sum_rows(b),
    decreases b.len(),
{
    if b.len() == 0 {
        assert(a + b =~= a);
    } else {
        lemma_sum_joined(a, b.drop_last());
        assert((a + b).drop_last() =~= a + b.drop_last());
        assert((a + b).last() == b.last());
    }
}

/// The device statistics of a period of `days` days count for each device, and in all, the
/// rows of the last `days` days in every file of a year that the days back to `start` lie
/// in; those without a period all rows of all files; those of a year the rows of its tables;
/// and those of a day the rows of the day.
pub proof fn lemma_device_stats_count_rows(
    st: Store,
    days: i64,
    year: i32,
    start: Date,
    today: Date,
    key: Seq<char>,
)
    requires
        st.wf(),
        queries::usable_today(today),
        1 <= days <= MAX_QUERY_DAYS,
        start.valid(),
        start.number() == today.number() - days,
    ensures
        ({
            let p = totals::since(today.number() - days + 1);
            let (lo, hi) = (start.year as int, today.year as int);
            let rows = devices::rows_over(
                st@,
                queries::asked(st@, Some(days), None, today),
                queries::period(Some(days), today),
            );
            &&& count_for(rows, key) == totals::over_files(
                st@,
                totals::in_years(lo, hi, shown_inputs_on(key, p)),
            )
            &&& devices::sum_rows(rows) == totals::over_files(
                st@,
                totals::in_years(lo, hi, all_inputs_on(p)),
            )
        }),
        ({
            let rows = devices::rows_over(
                st@,
                queries::asked(st@, None, None, today),
                queries::period(None, today),
            );
            &&& count_for(rows, key) == totals::over_files(
                st@,
                totals::in_any_year(shown_inputs_on(key, ever())),
            )
            &&& devices::sum_rows(rows) == totals::over_files(
                st@,
                totals::in_any_year(all_inputs_on(ever())),
            )
        }),
        ({
            let m = store::tables_of(st@, year);
            let rows = devices::rows_over(
                st@,
                queries::asked(st@, None, Some(year), today),
                queries::period(None, today),
            );
            count_for(rows, key) == shown_inputs_on(key, ever())(m) && devices::sum_rows(rows)
                == all_inputs_on(ever())(m)
        }),
        ({
            let m = store::tables_of(st@, today.year);
            let rows = devices::device_rows(m, Window::On(today.number() as i64));
            count_for(rows, key) == shown_inputs_on(key, only(today.number()))(m)
                && devices::sum_rows(rows) == all_inputs_on(only(today.number()))(m)
        }),
{
    let n = today.number();
    let p = totals::since(n - days + 1);
    calendar::lemma_number_range(today);
    calendar::lemma_day_key_round_trip(start);
    totals::lemma_start_before(start, today);
    st.one_each();
    lemma_rows_over_count(
        st,
        queries::asked(st@, Some(days), None, today),
        queries::period(Some(days), today),
        key,
        p,
    );
    totals::lemma_since_files(st@, start.year, today, shown_inputs_on(key, p));
    totals::lemma_since_files(st@, start.year, today, all_inputs_on(p));
    lemma_rows_over_count(
        st,
        queries::available(st@),
        Window::All,
        key,
        ever(),
    );
    totals::lemma_available_files(st@, shown_inputs_on(key, ever()));
    totals::lemma_available_files(st@, all_inputs_on(ever()));
    lemma_rows_over_count(st, seq![year], Window::All, key, ever());
    queries::lemma_one_year(year, totals::of_tables(st@, shown_inputs_on(key, ever())));
    queries::lemma_one_year(year, totals::of_tables(st@, all_inputs_on(ever())));
    store::lemma_distinct_tables(st, today.year);
    lemma_table_counts(
        store::tables_of(st@, today.year),
        Window::On(n as i64),
        key,
        only(n),
    );
}

/// The rows that the ranks of a detail are taken from, and their sum, are those of the
/// statistics of the period: of today's day, of the last so many days, or of all days.
pub proof fn lemma_detail_period(
    r: DeviceDetail,
    st: StoreModel,
    key: Seq<char>,
    period: i64,
    today: Date,
    aliases: Seq<(Seq<char>, Seq<char>)>,
)
    requires
        devices::tells(r, st, key, period, today, aliases),
        period >= -1,
    ensures
        ({
            let rows = if period == -1 {
                devices::device_rows(
                    store::tables_of(st, today.year),
                    Window::On(today.number() as i64),
                )
            } else if period == 0 {
                devices::rows_over(
                    st,
                    queries::asked(st, None, None, today),
                    queries::period(None, today),
                )
            } else {
                devices::rows_over(
                    st,
                    queries::asked(st, Some(period), None, today),
                    queries::period(Some(period), today),
                )
            };
            let s = devices::shown_devices(rows, aliases);
            &&& r.period_total == devices::sum_rows(rows)
            &&& r.device_count == s.len()
            &&& r.rank > 0 ==> r.rank <= s.len() && s[r.rank - 1].key == key && r.name@
                == s[r.rank - 1].name && r.auto_name@ == s[r.rank - 1].auto_name && r.has_alias
                == s[r.rank - 1].has_alias && r.kind@ == s[r.rank - 1].kind
            &&& r.rank == 0 ==> forall|i: int| 0 <= i < s.len() ==> (#[trigger] s[i]).key != key
            &&& r.rank == 0 ==> r.has_alias == (crate::device_alias::resolved(
                aliases,
                key,
            ) is Some) && r.auto_name@ == hardware::fallback_name(key) && r.name@ == (
            match crate::device_alias::resolved(aliases, key) {
                Some(a) => a,
                None => hardware::fallback_name(key),
            })
        }),
{
    let rows = devices::period_rows(st, period, today);
    let s = devices::shown_devices(rows, aliases);
    devices::lemma_place_of(s, key, 0);
}

} // verus!
