//! Statistics over the yearly tables.
//!
//! Every query takes the tables, and the date of today where a period ends with it.
use vstd::prelude::*;
use vstd::string::*;

use crate::calendar;
use crate::calendar::{day_key_of_date, day_key_text, day_key_to_date, Date};
use crate::db::days;
use crate::db::days::{clamp_query_days, cutoff_day_key, date_minus_days, MAX_QUERY_DAYS};
use crate::db::select;
use crate::db::select::{count_presses, gather, group, tables, Pick, Window, YearQuery};
use crate::db::store;
use crate::db::store::{Store, StoreModel, YearDb, YearModel};
use crate::db::writer;
use crate::db::writer::{DbWriter, DeltasModel};
use crate::order;
use crate::order::{rank, Ranked};
use crate::tally;
use crate::tally::Tally;
use crate::text::str_eq;

verus! {

// -------------------------------------------------------------------------- years

/// A year, later ones first.
pub struct Latest {
    pub year: i32,
}

impl View for Latest {
    type V = i32;

    open spec fn view(&self) -> i32 {
        self.year
    }
}

impl Ranked for Latest {
    open spec fn ahead(a: i32, b: i32) -> bool {
        a > b
    }

    fn goes_ahead(&self, other: &Self) -> (r: bool) {
        self.year > other.year
    }
}

/// Whether a file counts as one with data: its tables have a row, or nobody can tell
/// because it cannot be read.
pub open spec fn has_data(file: Option<YearModel>) -> bool {
    match file {
        Some(y) => !y.is_empty(),
        None => true,
    }
}

/// The years with data, in the order of the files.
pub open spec fn listed(st: StoreModel) -> Seq<i32>
    decreases st.len(),
{
    if st.len() == 0 {
        Seq::empty()
    } else if has_data(st.last().1) {
        listed(st.drop_last()).push(st.last().0)
    } else {
        listed(st.drop_last())
    }
}

/// The years with data, the latest first.
pub open spec fn available(st: StoreModel) -> Seq<i32> {
    order::ranked(listed(st), order::by_rank::<Latest>())
}

pub proof fn lemma_listed(st: StoreModel, y: i32)
    ensures
        listed(st).contains(y) <==> exists|i: int|
            0 <= i < st.len() && (#[trigger] st[i]).0 == y && has_data(st[i].1),
        listed(st).len() <= st.len(),
    decreases st.len(),
{
    if st.len() > 0 {
        let t = st.drop_last();
        lemma_listed(t, y);
        let l = listed(t);
        if listed(st).contains(y) {
            let k = choose|k: int| 0 <= k < listed(st).len() && listed(st)[k] == y;
            if k < l.len() {
                assert(l[k] == y);
                let i = choose|i: int|
                    0 <= i < t.len() && (#[trigger] t[i]).0 == y && has_data(t[i].1);
                assert(st[i] == t[i]);
            } else {
                assert(st[st.len() - 1].0 == y);
            }
        }
        if exists|i: int| 0 <= i < st.len() && (#[trigger] st[i]).0 == y && has_data(st[i].1) {
            let i = choose|i: int|
                0 <= i < st.len() && (#[trigger] st[i]).0 == y && has_data(st[i].1);
            if i < t.len() {
                assert(t[i] == st[i]);
                let k = choose|k: int| 0 <= k < l.len() && l[k] == y;
                assert(listed(st)[k] == y);
            } else {
                assert(listed(st)[l.len() as int] == y);
            }
        }
    }
}

/// The years with data are exactly those of the files that hold a row or that cannot be
/// read, and they come latest first.
pub proof fn lemma_available(st: StoreModel)
    ensures
        forall|y: i32|
            #![trigger available(st).contains(y)]
            available(st).contains(y) <==> exists|i: int|
                0 <= i < st.len() && (#[trigger] st[i]).0 == y && has_data(st[i].1),
        forall|i: int, j: int|
            0 <= i < j < available(st).len() ==> available(st)[i] >= available(st)[j],
{
    let l = listed(st);
    let a = available(st);
    let ahead = order::by_rank::<Latest>();
    order::lemma_ranked_keeps(l, ahead);
    order::lemma_ranked_in_order(l, ahead);
    assert forall|i: int, j: int| 0 <= i < j < a.len() implies a[i] >= a[j] by {
        assert(!ahead(a[j], a[i]));
    }
    assert forall|y: i32| #[trigger] a.contains(y) <==> exists|i: int|
        0 <= i < st.len() && (#[trigger] st[i]).0 == y && has_data(st[i].1) by {
        lemma_listed(st, y);
        vstd::seq_lib::to_multiset_contains(l, y);
        vstd::seq_lib::to_multiset_contains(a, y);
    }
}

fn holds_rows(db: &YearDb) -> (r: bool)
    ensures
        r == !db@.is_empty(),
{
    !(db.daily.is_empty() && db.seconds.is_empty() && db.hourly.is_empty() && db.keys.is_empty()
        && db.apps.is_empty() && db.device_counts.is_empty() && db.device_keys.is_empty())
}

/// The years with data, the latest first. A file without a row is left out; one that
/// cannot be read stays in.
pub fn available_years(st: &Store) -> (r: Vec<i32>)
    ensures
        r@ == available(st@),
{
    let ghost m = st@;
    let mut list: Vec<Latest> = Vec::new();
    let mut i: usize = 0;
    assert(order::seen(list@) =~= listed(m.take(0)));
    while i < st.files.len()
        invariant
            i <= st.files.len(),
            m == st@,
            order::seen(list@) == listed(m.take(i as int)),
        decreases st.files.len() - i,
    {
        proof {
            let t1 = m.take(i as int + 1);
            assert(t1.drop_last() =~= m.take(i as int));
            assert(t1.last() == m[i as int]);
        }
        let full = match &st.files[i].db {
            Some(d) => holds_rows(d),
            None => true,
        };
        let ghost before = list@;
        if full {
            list.push(Latest { year: st.files[i].year });
            assert(order::seen(list@) =~= order::seen(before).push(m[i as int].0));
        }
        i = i + 1;
    }
    assert(m.take(i as int) =~= m);
    let sorted = rank(list);
    let mut years: Vec<i32> = Vec::new();
    let mut k: usize = 0;
    while k < sorted.len()
        invariant
            k <= sorted.len(),
            years@ == order::seen(sorted@).take(k as int),
        decreases sorted.len() - k,
    {
        years.push(sorted[k].year);
        proof {
            assert(years@ =~= order::seen(sorted@).take(k as int + 1));
        }
        k = k + 1;
    }
    assert(order::seen(sorted@).take(k as int) =~= order::seen(sorted@));
    years
}

/// How long a list of years is kept, in milliseconds.
pub const YEARS_CACHE_TTL_MS: u64 = 30_000;

/// The list of years of a directory, and when it was made.
pub struct CachedYears {
    pub dir: String,
    pub built_at: Option<u64>,
    pub years: Vec<i32>,
}

/// Lists of years, by directory.
pub struct YearsCache {
    pub entries: Vec<CachedYears>,
}

/// The first index from `from` on of a directory, or the number of lists.
pub open spec fn dir_at(s: Seq<CachedYears>, dir: Seq<char>, from: int) -> int
    decreases s.len() - from,
{
    if from >= s.len() || s[from].dir@ == dir {
        from
    } else {
        dir_at(s, dir, from + 1)
    }
}

/// The list of a directory that is young enough.
pub open spec fn kept_years(s: Seq<CachedYears>, dir: Seq<char>, now: u64) -> Option<Seq<i32>> {
    let i = dir_at(s, dir, 0);
    if i < s.len() && s[i].built_at is Some && now - s[i].built_at->0 < YEARS_CACHE_TTL_MS {
        Some(s[i].years@)
    } else {
        None
    }
}

pub proof fn lemma_dir_at(s: Seq<CachedYears>, dir: Seq<char>, from: int)
    requires
        0 <= from <= s.len(),
    ensures
        from <= dir_at(s, dir, from) <= s.len(),
        dir_at(s, dir, from) < s.len() ==> s[dir_at(s, dir, from)].dir@ == dir,
        forall|i: int| from <= i < dir_at(s, dir, from) ==> (#[trigger] s[i]).dir@ != dir,
    decreases s.len() - from,
{
    if from < s.len() && s[from].dir@ != dir {
        lemma_dir_at(s, dir, from + 1);
    }
}

proof fn lemma_dir_at_is(s: Seq<CachedYears>, dir: Seq<char>, from: int, k: int)
    requires
        0 <= from <= k <= s.len(),
        k < s.len() ==> s[k].dir@ == dir,
        forall|i: int| from <= i < k ==> (#[trigger] s[i]).dir@ != dir,
    ensures
        dir_at(s, dir, from) == k,
    decreases k - from,
{
    if from < k {
        lemma_dir_at_is(s, dir, from + 1, k);
    }
}

impl YearsCache {
    /// No lists.
    pub fn new() -> (r: Self)
        ensures
            r.entries@.len() == 0,
    {
        YearsCache { entries: Vec::new() }
    }

    fn find(&self, dir: &str) -> (r: usize)
        ensures
            r == dir_at(self.entries@, dir@, 0),
            r <= self.entries@.len(),
    {
        let mut i: usize = 0;
        while i < self.entries.len()
            invariant
                i <= self.entries.len(),
                dir_at(self.entries@, dir@, 0) == dir_at(self.entries@, dir@, i as int),
            decreases self.entries.len() - i,
        {
            if str_eq(self.entries[i].dir.as_str(), dir) {
                return i;
            }
            i = i + 1;
        }
        i
    }

    fn put(&mut self, dir: &str, built_at: Option<u64>, years: Vec<i32>)
        ensures
            forall|d: Seq<char>, now: u64|
                #![trigger kept_years(final(self).entries@, d, now)]
                kept_years(final(self).entries@, d, now) == (if d == dir@ {
                    if built_at is Some && now - built_at->0 < YEARS_CACHE_TTL_MS {
                        Some(years@)
                    } else {
                        None
                    }
                } else {
                    kept_years(old(self).entries@, d, now)
                }),
    {
        let ghost s = self.entries@;
        let i = self.find(dir);
        let e = CachedYears { dir: dir.to_owned(), built_at, years };
        proof {
            lemma_dir_at(s, dir@, 0);
        }
        if i < self.entries.len() {
            self.entries[i] = e;
        } else {
            self.entries.push(e);
        }
        let ghost t = self.entries@;
        proof {
            assert forall|d: Seq<char>, now: u64|
                #![trigger kept_years(t, d, now)]
                kept_years(t, d, now) == (if d == dir@ {
                    if built_at is Some && now - built_at->0 < YEARS_CACHE_TTL_MS {
                        Some(years@)
                    } else {
                        None
                    }
                } else {
                    kept_years(s, d, now)
                }) by {
                if d == dir@ {
                    assert forall|k: int| 0 <= k < i implies (#[trigger] t[k]).dir@ != d by {
                        assert(t[k] == s[k]);
                    }
                    lemma_dir_at_is(t, d, 0, i as int);
                } else {
                    let k = dir_at(s, d, 0);
                    lemma_dir_at(s, d, 0);
                    if k < s.len() {
                        assert(t[k] == s[k]);
                        assert forall|j: int| 0 <= j < k implies (#[trigger] t[j]).dir@ != d by {
                            if j != i {
                                assert(t[j] == s[j]);
                            }
                        }
                        lemma_dir_at_is(t, d, 0, k);
                    } else {
                        assert forall|j: int| 0 <= j < t.len() implies (#[trigger] t[j]).dir@
                            != d by {
                            if j != i {
                                assert(t[j] == s[j]);
                            }
                        }
                        lemma_dir_at_is(t, d, 0, t.len() as int);
                    }
                }
            }
        }
    }

    /// Forgets the list of a directory.
    pub fn invalidate_years_cache(&mut self, dir: &str)
        ensures
            forall|d: Seq<char>, now: u64|
                #![trigger kept_years(final(self).entries@, d, now)]
                kept_years(final(self).entries@, d, now) == (if d == dir@ {
                    None
                } else {
                    kept_years(old(self).entries@, d, now)
                }),
    {
        self.put(dir, None, Vec::new());
    }

    /// The years with data of a directory: the list that is kept, where it is young enough,
    /// else a new one. Fails where the directory cannot be read: that is not to be taken
    /// for one without data. Times are in milliseconds.
    pub fn try_available_years(&mut self, dir: &str, now: u64, st: Result<&Store, &str>) -> (r:
        Result<Vec<i32>, String>)
        ensures
            match kept_years(old(self).entries@, dir@, now) {
                Some(y) => r matches Ok(l) && l@ == y && *final(self) == *old(self),
                None => match st {
                    Ok(s) => r matches Ok(l) && l@ == available(s@) && forall|
                        d: Seq<char>,
                        t: u64,
                    |
                        #![trigger kept_years(final(self).entries@, d, t)]
                        kept_years(final(self).entries@, d, t) == (if d == dir@ {
                            if t - now < YEARS_CACHE_TTL_MS {
                                Some(available(s@))
                            } else {
                                None
                            }
                        } else {
                            kept_years(old(self).entries@, d, t)
                        }),
                    Err(e) => r matches Err(m) && m@ == "读取数据目录 "@ + dir@ + " 失败: "@ + e@
                        && *final(self) == *old(self),
                },
            },
    {
        let i = self.find(dir);
        if i < self.entries.len() {
            if let Some(t) = self.entries[i].built_at {
                if (now as i128 - t as i128) < YEARS_CACHE_TTL_MS as i128 {
                    return Ok(copied(&self.entries[i].years));
                }
            }
        }
        match st {
            Ok(s) => {
                let years = available_years(s);
                self.put(dir, Some(now), copied(&years));
                Ok(years)
            },
            Err(e) => Err("读取数据目录 ".to_owned().concat(dir).concat(" 失败: ").concat(e)),
        }
    }
}

fn copied(v: &Vec<i32>) -> (r: Vec<i32>)
    ensures
        r@ == v@,
{
    let mut r: Vec<i32> = Vec::new();
    let mut i: usize = 0;
    while i < v.len()
        invariant
            i <= v.len(),
            r@ == v@.take(i as int),
        decreases v.len() - i,
    {
        r.push(v[i]);
        i = i + 1;
        assert(r@ =~= v@.take(i as int));
    }
    assert(v@.take(i as int) =~= v@);
    r
}

/// The years of `from..=to` that occur in `list`, ascending.
pub open spec fn years_between(list: Seq<i32>, from: int, to: int) -> Seq<i32>
    decreases to - from + 1,
{
    if from > to {
        Seq::empty()
    } else {
        let r = years_between(list, from, to - 1);
        if list.contains(to as i32) {
            r.push(to as i32)
        } else {
            r
        }
    }
}

/// The years with data from `from` to the year of `today`; the year of `today` alone
/// where there is none.
pub open spec fn years_since(st: StoreModel, from: int, today: Date) -> Seq<i32> {
    let found = years_between(available(st), from, today.year as int);
    if found.len() == 0 {
        seq![today.year]
    } else {
        found
    }
}

/// The years that a period of `days` days up to `today` is looked up in.
pub open spec fn queried(st: StoreModel, days: Option<i64>, today: Date) -> Seq<i32> {
    match days {
        None => available(st),
        Some(d) => years_since(
            st,
            calendar::date_of(today.number() - days::clamped_days(d as int)).year as int,
            today,
        ),
    }
}

fn holds_year(list: &Vec<i32>, y: i32) -> (r: bool)
    ensures
        r == list@.contains(y),
{
    let mut i: usize = 0;
    while i < list.len()
        invariant
            i <= list.len(),
            forall|j: int| 0 <= j < i ==> list@[j] != y,
        decreases list.len() - i,
    {
        if list[i] == y {
            assert(list@[i as int] == y);
            return true;
        }
        i = i + 1;
    }
    false
}

fn find_years_since(st: &Store, from: i32, today: &Date) -> (r: Vec<i32>)
    requires
        today.valid(),
        from >= calendar::FIRST_YEAR,
    ensures
        r@ == years_since(st@, from as int, *today),
{
    let list = available_years(st);
    let mut found: Vec<i32> = Vec::new();
    let mut y: i32 = from;
    while y <= today.year
        invariant
            list@ == available(st@),
            today.valid(),
            calendar::FIRST_YEAR <= from <= y,
            y <= today.year + 1 || y == from,
            found@ == years_between(list@, from as int, y - 1),
        decreases today.year - y + 1,
    {
        if holds_year(&list, y) {
            found.push(y);
        }
        y = y + 1;
    }
    proof {
        if from > today.year {
            assert(found@ =~= years_between(list@, from as int, today.year as int));
        }
    }
    if found.len() == 0 {
        let mut only: Vec<i32> = Vec::new();
        only.push(today.year);
        assert(only@ =~= seq![today.year]);
        only
    } else {
        found
    }
}

/// A date from 1970 on that a period can end with.
pub open spec fn usable_today(today: Date) -> bool {
    today.valid() && today.number() >= 0
}

/// The years that a period of `days` days up to `today` is looked up in: all years with
/// data for no limit, else those of the days back to `today` minus `days` that have data,
/// and at least that of `today`.
pub fn query_years(st: &Store, days: Option<i64>, today: &Date) -> (r: Vec<i32>)
    requires
        usable_today(*today),
    ensures
        r@ == queried(st@, days, *today),
{
    match days {
        None => available_years(st),
        Some(d) => {
            proof {
                calendar::lemma_number_range(*today);
                lemma_first_day();
            }
            match date_minus_days(today, d) {
                Some(start) => {
                    proof {
                        calendar::lemma_day_key_round_trip(start);
                    }
                    find_years_since(st, start.year, today)
                },
                None => {
                    assert(false);
                    Vec::new()
                },
            }
        },
    }
}

proof fn lemma_first_day()
    ensures
        calendar::first_day() < -MAX_QUERY_DAYS,
{
    reveal_with_fuel(calendar::days_before_month, 2);
}

// -------------------------------------------------------------------- keys and apps

/// The name in the key of a row.
pub open spec fn row_name() -> spec_fn((i64, Seq<char>)) -> Seq<char> {
    |v: (i64, Seq<char>)| v.1
}

/// The rows of a window under their names.
pub struct ByName {
    pub window: Window,
}

impl Pick<(i64, String), String> for ByName {
    open spec fn takes(&self) -> spec_fn((i64, Seq<char>)) -> bool {
        self.window.rows::<(i64, String)>()
    }

    open spec fn names(&self) -> spec_fn((i64, Seq<char>)) -> Seq<char> {
        row_name()
    }

    fn takes_row(&self, k: &(i64, String)) -> (r: bool) {
        self.window.has_day(k.0)
    }

    fn name(&self, k: &(i64, String)) -> (r: String) {
        k.1.clone()
    }
}

/// The key presses of a window by key.
pub struct KeyQuery {
    pub window: Window,
}

impl YearQuery<String> for KeyQuery {
    open spec fn picked(&self, y: YearModel) -> Seq<(Seq<char>, int)> {
        select::grouped(y.keys, self.window.rows::<(i64, String)>(), row_name())
    }

    proof fn picked_nonneg(&self, y: YearModel) {
        select::lemma_grouped(y.keys, self.window.rows::<(i64, String)>(), row_name());
    }

    fn pick(&self, db: &YearDb) -> (r: Tally<String>) {
        group(&db.keys, &ByName { window: self.window })
    }
}

/// The seconds in applications of a window by application.
pub struct AppQuery {
    pub window: Window,
}

impl YearQuery<String> for AppQuery {
    open spec fn picked(&self, y: YearModel) -> Seq<(Seq<char>, int)> {
        select::grouped(y.apps, self.window.rows::<(i64, String)>(), row_name())
    }

    proof fn picked_nonneg(&self, y: YearModel) {
        select::lemma_grouped(y.apps, self.window.rows::<(i64, String)>(), row_name());
    }

    fn pick(&self, db: &YearDb) -> (r: Tally<String>) {
        group(&db.apps, &ByName { window: self.window })
    }
}

/// The years that a query looks into: the one asked for, else those of the period.
pub open spec fn asked(st: StoreModel, days: Option<i64>, year: Option<i32>, today: Date) -> Seq<
    i32,
> {
    match year {
        Some(y) => seq![y],
        None => queried(st, days, today),
    }
}

/// The days of a period of `days` days that ends with `today`.
pub open spec fn period(days: Option<i64>, today: Date) -> Window {
    select::window_from(days::period_start(days, today.number()))
}

/// The years that a query looks into: the one asked for, else those of the period.
pub fn asked_years(st: &Store, days: Option<i64>, year: Option<i32>, today: &Date) -> (r: Vec<i32>)
    requires
        usable_today(*today),
    ensures
        r@ == asked(st@, days, year, *today),
{
    match year {
        Some(y) => {
            let mut only: Vec<i32> = Vec::new();
            only.push(y);
            assert(only@ =~= seq![y]);
            only
        },
        None => query_years(st, days, today),
    }
}

/// The days of a period of `days` days that ends with `today`.
pub fn period_window(days: Option<i64>, today: &Date) -> (r: Window)
    requires
        usable_today(*today),
    ensures
        r == period(days, *today),
{
    let key = day_key_of_date(today);
    match cutoff_day_key(days, key) {
        Some(d) => Window::From(d),
        None => Window::All,
    }
}

/// The number of key presses and the presses of each key, over a period of days that ends
/// today or over all days, and in one year or in all.
pub fn get_stats(st: &Store, days: Option<i64>, year: Option<i32>, today: &Date) -> (r: (
    i64,
    Tally<String>,
))
    requires
        st.wf(),
        usable_today(*today),
        select::presses(st@, asked(st@, days, year, *today), period(days, *today)) <= i64::MAX,
        tally::total(
            select::gathered::<String, KeyQuery>(
                st@,
                asked(st@, days, year, *today),
                KeyQuery { window: period(days, *today) },
            ),
        ) <= i64::MAX,
    ensures
        r.0 == select::presses(st@, asked(st@, days, year, *today), period(days, *today)),
        r.1.wf(),
        r.1@ == select::gathered::<String, KeyQuery>(
            st@,
            asked(st@, days, year, *today),
            KeyQuery { window: period(days, *today) },
        ),
{
    let years = asked_years(st, days, year, today);
    let window = period_window(days, today);
    let total = count_presses(st, &years, window);
    let by_key = gather(st, &years, &KeyQuery { window });
    (total, by_key)
}

/// The sum of the numbers that `f` gives the years of a list.
pub open spec fn over_years(years: Seq<i32>, f: spec_fn(i32) -> int) -> int
    decreases years.len(),
{
    if years.len() == 0 {
        0
    } else {
        over_years(years.drop_last(), f) + f(years.last())
    }
}

pub proof fn lemma_over_years_same(years: Seq<i32>, f: spec_fn(i32) -> int, g: spec_fn(i32) -> int)
    requires
        forall|y: i32| #![trigger f(y)] f(y) == g(y),
    ensures
        over_years(years, f) == over_years(years, g),
    decreases years.len(),
{
    if years.len() > 0 {
        lemma_over_years_same(years.drop_last(), f, g);
        assert(f(years.last()) == g(years.last()));
    }
}

/// The key presses of the days of a window in the tables of one year.
pub open spec fn year_presses(st: StoreModel, w: Window) -> spec_fn(i32) -> int {
    |y: i32| tally::sum_if(store::tables_of(st, y).daily, w.rows::<i64>())
}

/// The rows of a name on the days of a window.
pub open spec fn named_in(w: Window, name: Seq<char>) -> spec_fn((i64, Seq<char>)) -> bool {
    |v: (i64, Seq<char>)| w.covers(v.0 as int) && v.1 == name
}

/// The presses of a key on the days of a window in the tables of one year.
pub open spec fn year_key_presses(st: StoreModel, w: Window, key: Seq<char>) -> spec_fn(
    i32,
) -> int {
    |y: i32| tally::sum_if(store::tables_of(st, y).keys, named_in(w, key))
}

pub proof fn lemma_stats_add_up(st: StoreModel, years: Seq<i32>, w: Window, key: Seq<char>)
    ensures
        select::presses(st, years, w) == over_years(years, year_presses(st, w)),
        tally::distinct(select::gathered::<String, KeyQuery>(st, years, KeyQuery { window: w })),
        tally::amount(
            select::gathered::<String, KeyQuery>(st, years, KeyQuery { window: w }),
            key,
        ) == over_years(years, year_key_presses(st, w, key)),
    decreases years.len(),
{
    let q = KeyQuery { window: w };
    if years.len() == 0 {
        tally::lemma_amount_missing(select::gathered::<String, KeyQuery>(st, years, q), key);
    } else {
        let t = years.drop_last();
        let y = store::tables_of(st, years.last());
        let rows = w.rows::<(i64, String)>();
        let p = |n: Seq<char>| n == key;
        lemma_stats_add_up(st, t, w, key);
        let g = select::gathered::<String, KeyQuery>(st, t, q);
        tally::lemma_absorb_amount(g, q.picked(y), key);
        tally::lemma_absorb_shape(g, q.picked(y));
        select::lemma_grouped_sum(y.keys, rows, row_name(), p);
        tally::lemma_amount_is(q.picked(y), key, p);
        tally::lemma_sum_same(
            y.keys,
            |v: (i64, Seq<char>)| p(row_name()(v)) && rows(v),
            named_in(w, key),
        );
    }
}

/// The statistics of all years are the sums of those of each year with data: all presses,
/// and the presses of each key. Where no year has data there is nothing.
pub proof fn lemma_stats_are_sums_of_years(st: StoreModel, today: Date, key: Seq<char>)
    ensures
        select::presses(st, asked(st, None, None, today), period(None, today)) == over_years(
            available(st),
            |y: i32| select::presses(st, asked(st, None, Some(y), today), period(None, today)),
        ),
        tally::amount(
            select::gathered::<String, KeyQuery>(
                st,
                asked(st, None, None, today),
                KeyQuery { window: period(None, today) },
            ),
            key,
        ) == over_years(
            available(st),
            |y: i32|
                tally::amount(
                    select::gathered::<String, KeyQuery>(
                        st,
                        asked(st, None, Some(y), today),
                        KeyQuery { window: period(None, today) },
                    ),
                    key,
                ),
        ),
        available(st).len() == 0 ==> select::presses(
            st,
            asked(st, None, None, today),
            period(None, today),
        ) == 0 && select::gathered::<String, KeyQuery>(
            st,
            asked(st, None, None, today),
            KeyQuery { window: period(None, today) },
        ).len() == 0,
{
    let years = available(st);
    let w = period(None, today);
    let q = KeyQuery { window: w };
    lemma_stats_add_up(st, years, w, key);
    assert forall|y: i32| #![trigger year_presses(st, w)(y)] year_presses(st, w)(y)
        == select::presses(st, asked(st, None, Some(y), today), w) && year_key_presses(
        st,
        w,
        key,
    )(y) == tally::amount(
        select::gathered::<String, KeyQuery>(st, asked(st, None, Some(y), today), q),
        key,
    ) by {
        lemma_stats_add_up(st, seq![y], w, key);
        lemma_one_year(y, year_presses(st, w));
        lemma_one_year(y, year_key_presses(st, w, key));
    }
    lemma_over_years_same(
        years,
        year_presses(st, w),
        |y: i32| select::presses(st, asked(st, None, Some(y), today), period(None, today)),
    );
    assert forall|y: i32| #![trigger year_key_presses(st, w, key)(y)] year_key_presses(
        st,
        w,
        key,
    )(y) == tally::amount(
        select::gathered::<String, KeyQuery>(st, asked(st, None, Some(y), today), q),
        key,
    ) by {
        assert(year_presses(st, w)(y) == select::presses(st, asked(st, None, Some(y), today), w));
    }
    lemma_over_years_same(
        years,
        year_key_presses(st, w, key),
        |y: i32|
            tally::amount(
                select::gathered::<String, KeyQuery>(
                    st,
                    asked(st, None, Some(y), today),
                    KeyQuery { window: period(None, today) },
                ),
                key,
            ),
    );
}

pub proof fn lemma_one_year(y: i32, f: spec_fn(i32) -> int)
    ensures
        over_years(seq![y], f) == f(y),
{
    assert(seq![y].drop_last() =~= Seq::<i32>::empty());
    assert(over_years(seq![y].drop_last(), f) == 0);
}

/// The statistics of a period of `days` days count the rows of its days and no others: from
/// `days - 1` days before today on, with `days` brought into the range that is looked at.
pub proof fn lemma_stats_keep_to_the_period(
    st: StoreModel,
    days: i64,
    year: Option<i32>,
    today: Date,
    key: Seq<char>,
)
    requires
        usable_today(today),
    ensures
        ({
            let first = today.number() - days::clamped_days(days as int) + 1;
            let years = asked(st, Some(days), year, today);
            &&& select::presses(st, years, period(Some(days), today)) == over_years(
                years,
                |y: i32| tally::sum_if(store::tables_of(st, y).daily, |d: i64| d >= first),
            )
            &&& tally::amount(
                select::gathered::<String, KeyQuery>(
                    st,
                    years,
                    KeyQuery { window: period(Some(days), today) },
                ),
                key,
            ) == over_years(
                years,
                |y: i32|
                    tally::sum_if(
                        store::tables_of(st, y).keys,
                        |v: (i64, Seq<char>)| v.0 >= first && v.1 == key,
                    ),
            )
        }),
{
    let first = today.number() - days::clamped_days(days as int) + 1;
    let years = asked(st, Some(days), year, today);
    let w = period(Some(days), today);
    calendar::lemma_number_range(today);
    lemma_stats_add_up(st, years, w, key);
    assert forall|y: i32| #![trigger year_presses(st, w)(y)] year_presses(st, w)(y)
        == tally::sum_if(store::tables_of(st, y).daily, |d: i64| d >= first) by {
        tally::lemma_sum_same(
            store::tables_of(st, y).daily,
            w.rows::<i64>(),
            |d: i64| d >= first,
        );
    }
    assert forall|y: i32| #![trigger year_key_presses(st, w, key)(y)] year_key_presses(
        st,
        w,
        key,
    )(y) == tally::sum_if(
        store::tables_of(st, y).keys,
        |v: (i64, Seq<char>)| v.0 >= first && v.1 == key,
    ) by {
        tally::lemma_sum_same(
            store::tables_of(st, y).keys,
            named_in(w, key),
            |v: (i64, Seq<char>)| v.0 >= first && v.1 == key,
        );
    }
    lemma_over_years_same(
        years,
        year_presses(st, w),
        |y: i32| tally::sum_if(store::tables_of(st, y).daily, |d: i64| d >= first),
    );
    lemma_over_years_same(
        years,
        year_key_presses(st, w, key),
        |y: i32|
            tally::sum_if(
                store::tables_of(st, y).keys,
                |v: (i64, Seq<char>)| v.0 >= first && v.1 == key,
            ),
    );
}

/// The number of key presses and the presses of each key on one day.
pub fn get_stats_by_date(st: &Store, date: &Date) -> (r: (i64, Tally<String>))
    requires
        st.wf(),
        date.valid(),
    ensures
        r.0 == tally::amount(store::tables_of(st@, date.year).daily, date.number() as i64),
        r.1.wf(),
        r.1@ == select::grouped(
            store::tables_of(st@, date.year).keys,
            Window::On(date.number() as i64).rows::<(i64, String)>(),
            row_name(),
        ),
{
    let day = day_key_of_date(date);
    let query = KeyQuery { window: Window::On(day) };
    match tables(st, date.year) {
        Some(d) => (d.daily.get(&day), query.pick(d)),
        None => {
            let d = YearDb::new();
            assert(d@ =~= store::no_tables());
            (d.daily.get(&day), query.pick(&d))
        },
    }
}

/// A key press that was recorded is in the statistics of its day once the counts were
/// brought to the tables: there is one more of its key, and one more of all, beyond what
/// the tables had and the writer held back before.
pub proof fn lemma_press_is_read(
    held: DeltasModel,
    key: Seq<char>,
    ts: i64,
    offset: i64,
    a: DbWriter,
    b: DbWriter,
    st: Store,
    after: StoreModel,
    current_year: i32,
    r: Option<String>,
    date: Date,
)
    requires
        held.distinct(),
        a.wf(),
        a.agg@ == writer::recorded(held, key, ts as int, offset as int),
        st.wf(),
        writer::carried_over(a, b, st@, after, current_year as int, r),
        date.valid(),
        date.number() == days::day_at(ts as int, offset as int),
        date.number() >= 0,
        store::writable(st@, date.year),
    ensures
        ({
            let day = date.number() as i64;
            let before = store::tables_of(st@, date.year);
            let now = store::tables_of(after, date.year);
            let on = Window::On(day).rows::<(i64, String)>();
            &&& tally::amount(now.daily, day) == tally::amount(before.daily, day) + tally::amount(
                held.daily,
                day,
            ) + 1
            &&& tally::amount(select::grouped(now.keys, on, row_name()), key) == tally::amount(
                select::grouped(before.keys, on, row_name()),
                key,
            ) + tally::amount(held.keys, (day, key)) + 1
        }),
{
    let day = date.number() as i64;
    let hour = days::hour_at(ts as int, offset as int) as i64;
    calendar::lemma_number_range(date);
    calendar::lemma_day_key_round_trip(date);
    writer::lemma_flush_loses_nothing(
        a,
        b,
        st,
        after,
        current_year,
        r,
        day,
        hour,
        key,
        Seq::empty(),
    );
    tally::lemma_bump_amount(held.daily, day, 1);
    tally::lemma_bump_amount(held.keys, (day, key), 1);
    lemma_named_on(store::tables_of(st@, date.year).keys, day, key);
    lemma_named_on(store::tables_of(after, date.year).keys, day, key);
}

/// What the statistics of a day show for a name is the row of the day and the name.
pub proof fn lemma_named_on(s: Seq<((i64, Seq<char>), int)>, day: i64, name: Seq<char>)
    ensures
        tally::amount(
            select::grouped(s, Window::On(day).rows::<(i64, String)>(), row_name()),
            name,
        ) == tally::amount(s, (day, name)),
{
    let q = Window::On(day).rows::<(i64, String)>();
    let f = row_name();
    let p = |w: Seq<char>| w == name;
    select::lemma_grouped_sum(s, q, f, p);
    tally::lemma_amount_is(select::grouped(s, q, f), name, p);
    tally::lemma_amount_is(s, (day, name), |v: (i64, Seq<char>)| p(f(v)) && q(v));
}

/// The seconds in applications and those of each application, over a period of days that
/// ends today or over all days, and in one year or in all.
pub fn get_app_stats(st: &Store, days: Option<i64>, year: Option<i32>, today: &Date) -> (r: (
    i64,
    Tally<String>,
))
    requires
        st.wf(),
        usable_today(*today),
        tally::total(
            select::gathered::<String, AppQuery>(
                st@,
                asked(st@, days, year, *today),
                AppQuery { window: period(days, *today) },
            ),
        ) <= i64::MAX,
    ensures
        r.1.wf(),
        r.1@ == select::gathered::<String, AppQuery>(
            st@,
            asked(st@, days, year, *today),
            AppQuery { window: period(days, *today) },
        ),
        r.0 == tally::total(r.1@),
{
    let years = asked_years(st, days, year, today);
    let window = period_window(days, today);
    let by_app = gather(st, &years, &AppQuery { window });
    (by_app.total(), by_app)
}

/// The seconds in applications and those of each application on one day.
pub fn get_app_stats_by_date(st: &Store, date: &Date) -> (r: (i64, Tally<String>))
    requires
        st.wf(),
        date.valid(),
    ensures
        r.1.wf(),
        r.1@ == select::grouped(
            store::tables_of(st@, date.year).apps,
            Window::On(date.number() as i64).rows::<(i64, String)>(),
            row_name(),
        ),
        r.0 == tally::total(r.1@),
{
    let day = day_key_of_date(date);
    let query = AppQuery { window: Window::On(day) };
    let by_app = match tables(st, date.year) {
        Some(d) => query.pick(d),
        None => {
            let d = YearDb::new();
            assert(d@ =~= store::no_tables());
            query.pick(&d)
        },
    };
    (by_app.total(), by_app)
}

/// The key presses of today: what the writer counted where one runs, else what the tables
/// hold.
pub fn get_today_count(writer: Option<&DbWriter>, st: &Store, today: &Date) -> (r: i64)
    requires
        st.wf(),
        today.valid(),
        writer matches Some(w) ==> w.today_count <= i64::MAX,
    ensures
        match writer {
            Some(w) => r == w.today_count,
            None => r == tally::amount(
                store::tables_of(st@, today.year).daily,
                today.number() as i64,
            ),
        },
{
    match writer {
        Some(w) => w.today_count() as i64,
        None => {
            let day = day_key_of_date(today);
            match tables(st, today.year) {
                Some(d) => d.daily.get(&day),
                None => {
                    assert(tally::amount(store::no_tables().daily, day) == 0);
                    0
                },
            }
        },
    }
}

/// The key presses of each hour of a day.
pub fn get_hourly_stats(st: &Store, date: &Date) -> (r: Vec<i64>)
    requires
        st.wf(),
        date.valid(),
    ensures
        r@.len() == 24,
        forall|h: int|
            0 <= h < 24 ==> #[trigger] r@[h] == tally::amount(
                store::tables_of(st@, date.year).hourly,
                (date.number() as i64, h as i64),
            ),
{
    let day = day_key_of_date(date);
    let found = tables(st, date.year);
    let mut hours: Vec<i64> = Vec::new();
    let mut h: i64 = 0;
    while h < 24
        invariant
            0 <= h <= 24,
            hours@.len() == h,
            day == date.number(),
            match found {
                Some(d) => d.wf() && d@ == store::tables_of(st@, date.year),
                None => store::tables_of(st@, date.year) == store::no_tables(),
            },
            forall|k: int|
                0 <= k < h ==> #[trigger] hours@[k] == tally::amount(
                    store::tables_of(st@, date.year).hourly,
                    (date.number() as i64, k as i64),
                ),
        decreases 24 - h,
    {
        let n: i64 = match found {
            Some(d) => d.hourly.get(&(day, h)),
            None => {
                assert(tally::amount(store::no_tables().hourly, (day, h)) == 0);
                0
            },
        };
        hours.push(n);
        h = h + 1;
    }
    hours
}

// ------------------------------------------------------------------------- all time

/// The day with the most key presses; of several the earliest.
pub open spec fn top_day(s: Seq<(i64, int)>) -> Option<(i64, int)>
    decreases s.len(),
{
    if s.len() == 0 {
        None
    } else {
        let e = s.last();
        match top_day(s.drop_last()) {
            None => Some(e),
            Some(b) => if e.1 > b.1 || (e.1 == b.1 && e.0 < b.0) {
                Some(e)
            } else {
                Some(b)
            },
        }
    }
}

/// The best of the top days of several years; of several the one of the year that comes
/// first in the list.
pub open spec fn best_day(st: StoreModel, years: Seq<i32>) -> Option<(i64, int)>
    decreases years.len(),
{
    if years.len() == 0 {
        None
    } else {
        let b = best_day(st, years.drop_last());
        match top_day(store::tables_of(st, years.last()).daily) {
            None => b,
            Some(t) => if b is None || t.1 > (b->0).1 {
                Some(t)
            } else {
                b
            },
        }
    }
}

/// A top day is a row of the table, and no row has more.
pub proof fn lemma_top_day(s: Seq<(i64, int)>)
    ensures
        top_day(s) is None <==> s.len() == 0,
        top_day(s) matches Some(b) ==> s.contains(b) && forall|i: int|
            0 <= i < s.len() ==> (#[trigger] s[i]).1 <= b.1,
    decreases s.len(),
{
    if s.len() > 0 {
        let t = s.drop_last();
        lemma_top_day(t);
        let b = top_day(s)->0;
        if t.len() > 0 {
            let p = top_day(t)->0;
            let k = choose|k: int| 0 <= k < t.len() && t[k] == p;
            assert(s[k] == p);
        }
        assert(s[s.len() - 1] == s.last());
        assert forall|i: int| 0 <= i < s.len() implies (#[trigger] s[i]).1 <= b.1 by {
            if i < t.len() {
                assert(t[i] == s[i]);
            }
        }
    }
}

/// No day of the years that are looked at has more key presses than the best day.
pub proof fn lemma_best_day(st: StoreModel, years: Seq<i32>, y: i32, i: int)
    requires
        years.contains(y),
        0 <= i < store::tables_of(st, y).daily.len(),
    ensures
        best_day(st, years) is Some,
        store::tables_of(st, y).daily[i].1 <= (best_day(st, years)->0).1,
    decreases years.len(),
{
    let k = choose|k: int| 0 <= k < years.len() && years[k] == y;
    let t = years.drop_last();
    lemma_top_day(store::tables_of(st, years.last()).daily);
    if k < t.len() {
        assert(t[k] == y);
        lemma_best_day(st, t, y, i);
    }
}

fn find_top_day(t: &Tally<i64>) -> (r: Option<(i64, i64)>)
    ensures
        match r {
            Some(b) => top_day(t@) == Some((b.0, b.1 as int)),
            None => top_day(t@) is None,
        },
{
    let ghost s = t@;
    let mut best: Option<(i64, i64)> = None;
    let mut i: usize = 0;
    while i < t.rows.len()
        invariant
            i <= t.rows.len(),
            s == t@,
            match best {
                Some(b) => top_day(s.take(i as int)) == Some((b.0, b.1 as int)),
                None => top_day(s.take(i as int)) is None,
            },
        decreases t.rows.len() - i,
    {
        proof {
            let t1 = s.take(i as int + 1);
            assert(t1.drop_last() =~= s.take(i as int));
            assert(t1.last() == s[i as int]);
        }
        let day: i64 = t.rows[i].0;
        let n: i64 = t.rows[i].1;
        let better = match best {
            None => true,
            Some(b) => n > b.1 || (n == b.1 && day < b.0),
        };
        if better {
            best = Some((day, n));
        }
        i = i + 1;
    }
    assert(s.take(i as int) =~= s);
    best
}

fn find_best_day(st: &Store, years: &Vec<i32>) -> (r: Option<(i64, i64)>)
    requires
        st.wf(),
    ensures
        match r {
            Some(b) => best_day(st@, years@) == Some((b.0, b.1 as int)),
            None => best_day(st@, years@) is None,
        },
{
    let mut best: Option<(i64, i64)> = None;
    let mut i: usize = 0;
    while i < years.len()
        invariant
            i <= years.len(),
            st.wf(),
            match best {
                Some(b) => best_day(st@, years@.take(i as int)) == Some((b.0, b.1 as int)),
                None => best_day(st@, years@.take(i as int)) is None,
            },
        decreases years.len() - i,
    {
        proof {
            let t1 = years@.take(i as int + 1);
            assert(t1.drop_last() =~= years@.take(i as int));
            assert(t1.last() == years@[i as int]);
        }
        if let Some(d) = tables(st, years[i]) {
            if let Some(t) = find_top_day(&d.daily) {
                let better = match best {
                    None => true,
                    Some(b) => t.1 > b.1,
                };
                if better {
                    best = Some(t);
                }
            }
        }
        i = i + 1;
    }
    assert(years@.take(i as int) =~= years@);
    best
}

/// A date with its number, where there is one.
pub open spec fn marked(r: Option<(String, i64)>) -> Option<(Seq<char>, int)> {
    match r {
        Some(m) => Some((m.0@, m.1 as int)),
        None => None,
    }
}

/// The date and the key presses of the day with the most. The day is missing where there
/// is none or it is no date from 1970 on.
pub open spec fn max_day(st: StoreModel) -> Option<(Seq<char>, int)> {
    match best_day(st, available(st)) {
        Some(b) => if 0 <= b.0 <= calendar::last_day() {
            Some((calendar::day_text(b.0 as int), b.1))
        } else {
            None
        },
        None => None,
    }
}

/// All key presses ever, and the date and the presses of the day with the most.
pub fn get_alltime_summary(st: &Store) -> (r: (i64, Option<(String, i64)>))
    requires
        st.wf(),
        select::presses(st@, available(st@), Window::All) <= i64::MAX,
    ensures
        r.0 == select::presses(st@, available(st@), Window::All),
        marked(r.1) == max_day(st@),
{
    let years = available_years(st);
    let total = count_presses(st, &years, Window::All);
    let max_day = match find_best_day(st, &years) {
        Some(b) => match day_key_to_date(b.0) {
            Some(d) => {
                proof {
                    calendar::lemma_number_range(d);
                }
                Some((day_key_text(b.0), b.1))
            },
            None => None,
        },
        None => None,
    };
    (total, max_day)
}

/// The date and the key presses of the day with the most, of all days ever.
pub fn get_alltime_max_day(st: &Store) -> (r: Option<(String, i64)>)
    requires
        st.wf(),
        select::presses(st@, available(st@), Window::All) <= i64::MAX,
    ensures
        marked(r) == max_day(st@),
{
    get_alltime_summary(st).1
}

proof fn lemma_best_within(st: Store, years: Seq<i32>)
    requires
        st.wf(),
    ensures
        0 <= select::presses(st@, years, Window::All),
        best_day(st@, years) matches Some(b) ==> 0 <= b.1 <= select::presses(
            st@,
            years,
            Window::All,
        ),
    decreases years.len(),
{
    if years.len() > 0 {
        lemma_best_within(st, years.drop_last());
        let s = store::tables_of(st@, years.last()).daily;
        let p = Window::All.rows::<i64>();
        select::lemma_nonneg_tables(st, years.last());
        tally::lemma_sum_bounds(s, p);
        lemma_top_day(s);
        if let Some(b) = top_day(s) {
            let k = choose|k: int| 0 <= k < s.len() && s[k] == b;
            store::lemma_distinct_tables(st, years.last());
            tally::lemma_amount_at(s, k);
            tally::lemma_amount_bound(s, b.0);
            tally::lemma_sum_same(s, |v: i64| true, p);
        }
    }
}

/// The summary of all time agrees with itself and with the statistics: the best day has no
/// more key presses than there are in all and no fewer than any other day of the tables,
/// and all key presses are the sum of the days of all years with data, which is what the
/// statistics without a period and a year give.
pub proof fn lemma_summary_agrees(st: Store, today: Date, year: i32, i: int)
    requires
        st.wf(),
    ensures
        max_day(st@) matches Some(m) ==> 0 <= m.1 <= select::presses(
            st@,
            available(st@),
            Window::All,
        ),
        select::presses(st@, available(st@), Window::All) == select::presses(
            st@,
            asked(st@, None, None, today),
            period(None, today),
        ),
        select::presses(st@, available(st@), Window::All) == over_years(
            available(st@),
            |y: i32| tally::total(store::tables_of(st@, y).daily),
        ),
        available(st@).contains(year) && 0 <= i < store::tables_of(st@, year).daily.len() ==> (
        max_day(st@) matches Some(m) ==> store::tables_of(st@, year).daily[i].1 <= m.1),
{
    let all = year_presses(st@, Window::All);
    lemma_best_within(st, available(st@));
    lemma_stats_add_up(st@, available(st@), Window::All, Seq::empty());
    assert forall|y: i32| #![trigger all(y)] all(y) == tally::total(
        store::tables_of(st@, y).daily,
    ) by {
        tally::lemma_sum_same(
            store::tables_of(st@, y).daily,
            Window::All.rows::<i64>(),
            |v: i64| true,
        );
    }
    lemma_over_years_same(
        available(st@),
        all,
        |y: i32| tally::total(store::tables_of(st@, y).daily),
    );
    if available(st@).contains(year) && 0 <= i < store::tables_of(st@, year).daily.len() {
        lemma_best_day(st@, available(st@), year, i);
    }
}

// ------------------------------------------------------------------------ day by day

/// A list of texts with numbers.
pub open spec fn labelled(v: Seq<(String, i64)>) -> Seq<(Seq<char>, int)> {
    Seq::new(v.len(), |i: int| (v[i].0@, v[i].1 as int))
}

/// The first day of `days` days that end with `today`.
pub open spec fn daily_start(days: i64, today: Date) -> int {
    today.number() - days::clamped_days(days as int) + 1
}

/// The years that the daily counts are looked up in.
pub open spec fn daily_years(st: StoreModel, days: i64, year: Option<i32>, today: Date) -> Seq<
    i32,
> {
    match year {
        Some(y) => seq![y],
        None => years_since(
            st,
            calendar::date_of(daily_start(days, today)).year as int,
            today,
        ),
    }
}

/// The dates from day `from` to day `to` with their key presses; days before 1970 have
/// no date and are left out.
pub open spec fn day_by_day(st: StoreModel, years: Seq<i32>, from: int, to: int) -> Seq<
    (Seq<char>, int),
>
    decreases to - from + 1,
{
    if from > to || to < 0 {
        Seq::empty()
    } else {
        day_by_day(st, years, from, to - 1).push(
            (calendar::day_text(to), select::presses(st, years, Window::On(to as i64))),
        )
    }
}

/// The key presses of each of the last `days` days, today last.
pub fn get_daily_counts(st: &Store, days: i64, year: Option<i32>, today: &Date) -> (r: Vec<
    (String, i64),
>)
    requires
        st.wf(),
        usable_today(*today),
        today.year <= 9999,
        forall|d: i64| #[trigger]
            select::presses(
                st@,
                daily_years(st@, days, year, *today),
                Window::On(d),
            ) <= i64::MAX,
    ensures
        labelled(r@) == day_by_day(
            st@,
            daily_years(st@, days, year, *today),
            daily_start(days, *today),
            today.number(),
        ),
{
    let n = clamp_query_days(days);
    let last = day_key_of_date(today);
    let ghost start = daily_start(days, *today);
    proof {
        calendar::lemma_number_range(*today);
        lemma_first_day();
    }
    let years = match year {
        Some(y) => {
            let mut only: Vec<i32> = Vec::new();
            only.push(y);
            assert(only@ =~= seq![y]);
            only
        },
        None => match calendar::sub_days(today, (n - 1) as u64) {
            Some(d) => {
                proof {
                    calendar::lemma_day_key_round_trip(d);
                }
                find_years_since(st, d.year, today)
            },
            None => {
                assert(false);
                Vec::new()
            },
        },
    };
    assert(years@ == daily_years(st@, days, year, *today));
    let mut first: i64 = last - n + 1;
    if first < 0 {
        first = 0;
    }
    let mut out: Vec<(String, i64)> = Vec::new();
    let mut day: i64 = first;
    proof {
        lemma_no_days(st@, years@, start, first - 1);
        assert(labelled(out@) =~= Seq::empty());
    }
    while day <= last
        invariant
            st.wf(),
            last == today.number(),
            0 <= day <= last + 1,
            start <= day,
            last < 96_000_000,
            forall|d: i64| #[trigger] select::presses(st@, years@, Window::On(d)) <= i64::MAX,
            labelled(out@) == day_by_day(st@, years@, start, day - 1),
        decreases last - day + 1,
    {
        let ghost before = out@;
        assert(select::presses(st@, years@, Window::On(day)) <= i64::MAX);
        let count = count_presses(st, &years, Window::On(day));
        out.push((day_key_text(day), count));
        proof {
            assert(labelled(out@) =~= labelled(before).push(
                (calendar::day_text(day as int), count as int),
            ));
        }
        day = day + 1;
    }
    out
}

proof fn lemma_no_days(st: StoreModel, years: Seq<i32>, from: int, to: int)
    requires
        to < from || to < 0,
    ensures
        day_by_day(st, years, from, to) == Seq::<(Seq<char>, int)>::empty(),
{
}

/// The daily counts span exactly the days asked for, today last, as far as they lie
/// in or after 1970.
pub proof fn lemma_daily_span(st: StoreModel, years: Seq<i32>, from: int, to: int)
    requires
        0 <= to,
        from <= to + 1,
    ensures
        day_by_day(st, years, from, to).len() == (if from >= 0 {
            to - from + 1
        } else {
            to + 1
        }),
        from <= to ==> day_by_day(st, years, from, to).last() == (
            calendar::day_text(to),
            select::presses(st, years, Window::On(to as i64)),
        ),
    decreases to - from + 1,
{
    if from <= to {
        if to > 0 {
            lemma_daily_span(st, years, from, to - 1);
        } else {
            lemma_no_days(st, years, from, to - 1);
        }
    }
}

// -------------------------------------------------------------------------- weekdays

/// The numbers of a list of dates, added up by weekday.
pub open spec fn by_weekday(s: Seq<(Date, i64)>) -> Seq<(i64, int)>
    decreases s.len(),
{
    if s.len() == 0 {
        Seq::empty()
    } else {
        tally::bump(
            by_weekday(s.drop_last()),
            calendar::weekday_of(s.last().0.number()) as i64,
            s.last().1 as int,
        )
    }
}

/// The sum of the numbers of a list.
pub open spec fn sum_of(s: Seq<(Date, i64)>) -> int
    decreases s.len(),
{
    if s.len() == 0 {
        0
    } else {
        sum_of(s.drop_last()) + s.last().1
    }
}

/// Dates that exist with numbers that are not negative and add up to an `i64`.
pub open spec fn countable(s: Seq<(Date, i64)>) -> bool {
    &&& forall|i: int| 0 <= i < s.len() ==> (#[trigger] s[i]).0.valid() && s[i].1 >= 0
    &&& sum_of(s) <= i64::MAX
}

/// Adding up by weekday neither loses nor invents anything.
pub proof fn lemma_weekday_sum(s: Seq<(Date, i64)>)
    ensures
        tally::distinct(by_weekday(s)),
        tally::total(by_weekday(s)) == sum_of(s),
    decreases s.len(),
{
    if s.len() > 0 {
        lemma_weekday_sum(s.drop_last());
        let w = calendar::weekday_of(s.last().0.number()) as i64;
        tally::lemma_bump_sum(by_weekday(s.drop_last()), w, s.last().1 as int, |v: i64| true);
        tally::lemma_bump_shape(by_weekday(s.drop_last()), w, s.last().1 as int);
    }
}

proof fn lemma_sum_of_prefix(s: Seq<(Date, i64)>, n: int)
    requires
        0 <= n <= s.len(),
        forall|i: int| 0 <= i < s.len() ==> (#[trigger] s[i]).1 >= 0,
    ensures
        sum_of(s.take(n)) <= sum_of(s),
    decreases s.len() - n,
{
    if n < s.len() {
        lemma_sum_of_prefix(s, n + 1);
        assert(s.take(n + 1).drop_last() =~= s.take(n));
        assert(s.take(n + 1).last() == s[n]);
    } else {
        assert(s.take(n) =~= s);
    }
}

/// Adds up the numbers of a list of dates by weekday, 0 for Monday to 6 for Sunday.
pub fn weekday_sums(dates: &Vec<(Date, i64)>) -> (r: Tally<i64>)
    requires
        countable(dates@),
    ensures
        r.wf(),
        r@ == by_weekday(dates@),
{
    let ghost s = dates@;
    let mut r: Tally<i64> = Tally::new();
    let mut i: usize = 0;
    while i < dates.len()
        invariant
            i <= dates.len(),
            s == dates@,
            countable(s),
            r.wf(),
            r@ == by_weekday(s.take(i as int)),
        decreases dates.len() - i,
    {
        proof {
            let t1 = s.take(i as int + 1);
            assert(t1.drop_last() =~= s.take(i as int));
            assert(t1.last() == s[i as int]);
            lemma_sum_of_prefix(s, i as int + 1);
            lemma_weekday_sum(s.take(i as int));
        }
        let w = calendar::weekday(&dates[i].0);
        r.bump(w as i64, dates[i].1);
        i = i + 1;
    }
    assert(s.take(i as int) =~= s);
    r
}

/// The entries whose text is a date `YYYY-MM-DD`, with that date.
pub open spec fn dated(s: Seq<(String, i64)>) -> Seq<(Date, i64)>
    decreases s.len(),
{
    if s.len() == 0 {
        Seq::empty()
    } else {
        match calendar::parsed_date(s.last().0@, "%Y-%m-%d"@) {
            Some(d) => dated(s.drop_last()).push((d, s.last().1)),
            None => dated(s.drop_last()),
        }
    }
}

fn read_dates(daily: &Vec<(String, i64)>) -> (r: Vec<(Date, i64)>)
    ensures
        r@ == dated(daily@),
        forall|i: int| 0 <= i < r@.len() ==> (#[trigger] r@[i]).0.valid(),
{
    let ghost s = daily@;
    let mut out: Vec<(Date, i64)> = Vec::new();
    let mut i: usize = 0;
    while i < daily.len()
        invariant
            i <= daily.len(),
            s == daily@,
            out@ == dated(s.take(i as int)),
            forall|k: int| 0 <= k < out@.len() ==> (#[trigger] out@[k]).0.valid(),
        decreases daily.len() - i,
    {
        proof {
            let t1 = s.take(i as int + 1);
            assert(t1.drop_last() =~= s.take(i as int));
            assert(t1.last() == s[i as int]);
        }
        if let Some(d) = calendar::parse_date(daily[i].0.as_str(), "%Y-%m-%d") {
            out.push((d, daily[i].1));
        }
        i = i + 1;
    }
    assert(s.take(i as int) =~= s);
    out
}

/// The sum of the numbers of a list.
pub open spec fn listed_sum(s: Seq<(String, i64)>) -> int
    decreases s.len(),
{
    if s.len() == 0 {
        0
    } else {
        listed_sum(s.drop_last()) + s.last().1
    }
}

proof fn lemma_dated(s: Seq<(String, i64)>)
    requires
        forall|i: int| 0 <= i < s.len() ==> (#[trigger] s[i]).1 >= 0,
    ensures
        forall|i: int| 0 <= i < dated(s).len() ==> (#[trigger] dated(s)[i]).1 >= 0,
        0 <= sum_of(dated(s)) <= listed_sum(s),
    decreases s.len(),
{
    if s.len() > 0 {
        let t = s.drop_last();
        assert forall|i: int| 0 <= i < t.len() implies (#[trigger] t[i]).1 >= 0 by {
            assert(t[i] == s[i]);
        }
        lemma_dated(t);
        assert(s.last() == s[s.len() - 1]);
        if let Some(d) = calendar::parsed_date(s.last().0@, "%Y-%m-%d"@) {
            assert(dated(s).drop_last() =~= dated(t));
        }
    }
}

/// Adds up daily counts by weekday, 0 for Monday to 6 for Sunday. Entries whose text is no
/// date are left out.
pub fn aggregate_weekday(daily: &Vec<(String, i64)>) -> (r: Tally<i64>)
    requires
        forall|i: int| 0 <= i < daily@.len() ==> (#[trigger] daily@[i]).1 >= 0,
        listed_sum(daily@) <= i64::MAX,
    ensures
        r.wf(),
        r@ == by_weekday(dated(daily@)),
{
    proof {
        lemma_dated(daily@);
    }
    let dates = read_dates(daily);
    weekday_sums(&dates)
}

/// The key presses of the days from `from` to `to`, added up by weekday.
pub open spec fn weekday_days(st: StoreModel, years: Seq<i32>, from: int, to: int) -> Seq<
    (i64, int),
>
    decreases to - from + 1,
{
    if from > to || to < 0 {
        Seq::empty()
    } else {
        tally::bump(
            weekday_days(st, years, from, to - 1),
            calendar::weekday_of(to) as i64,
            select::presses(st, years, Window::On(to as i64)),
        )
    }
}

/// Entry `i` of the daily counts is day `i` of the span.
pub proof fn lemma_day_at(st: StoreModel, years: Seq<i32>, from: int, to: int, i: int)
    requires
        0 <= i < day_by_day(st, years, from, to).len(),
    ensures
        day_by_day(st, years, from, to)[i] == (
            calendar::day_text((if from < 0 { 0 } else { from }) + i),
            select::presses(st, years, Window::On(((if from < 0 { 0 } else { from }) + i) as i64)),
        ),
    decreases to - from + 1,
{
    lemma_daily_span(st, years, from, to);
    if i < day_by_day(st, years, from, to).len() - 1 {
        assert(to > 0);
        lemma_daily_span(st, years, from, to - 1);
        lemma_day_at(st, years, from, to - 1, i);
    }
}

proof fn lemma_weekday_days(
    st: StoreModel,
    years: Seq<i32>,
    from: int,
    to: int,
    s: Seq<(Date, i64)>,
)
    requires
        0 <= to,
        from <= to + 1,
        s.len() == day_by_day(st, years, from, to).len(),
        forall|i: int|
            #![trigger s[i]]
            0 <= i < s.len() ==> s[i].0.number() == (if from < 0 { 0 } else { from }) + i
                && s[i].1 == day_by_day(st, years, from, to)[i].1,
    ensures
        by_weekday(s) == weekday_days(st, years, from, to),
    decreases to - from + 1,
{
    lemma_daily_span(st, years, from, to);
    if from <= to {
        let t = s.drop_last();
        let n = s.len() - 1;
        assert(s.last() == s[n]);
        lemma_day_at(st, years, from, to, n);
        if to > 0 {
            lemma_daily_span(st, years, from, to - 1);
            assert forall|i: int| #![trigger t[i]] 0 <= i < t.len() implies t[i].0.number() == (
            if from < 0 {
                0
            } else {
                from
            }) + i && t[i].1 == day_by_day(st, years, from, to - 1)[i].1 by {
                assert(t[i] == s[i]);
            }
            lemma_weekday_days(st, years, from, to - 1, t);
        } else {
            lemma_no_days(st, years, from, to - 1);
            assert(weekday_days(st, years, from, to - 1) =~= Seq::empty());
            assert(by_weekday(t) =~= Seq::empty());
        }
    }
}

/// The sum of the numbers of a list of daily counts whose first day is `first`, of those
/// days that fall on weekday `w`.
pub open spec fn sum_on_weekday(s: Seq<(Seq<char>, int)>, first: int, w: int) -> int
    decreases s.len(),
{
    if s.len() == 0 {
        0
    } else {
        sum_on_weekday(s.drop_last(), first, w) + (if calendar::weekday_of(first + s.len() - 1)
            == w {
            s.last().1
        } else {
            0
        })
    }
}

/// The sum of the numbers of a list of daily counts.
pub open spec fn sum_of_days(s: Seq<(Seq<char>, int)>) -> int
    decreases s.len(),
{
    if s.len() == 0 {
        0
    } else {
        sum_of_days(s.drop_last()) + s.last().1
    }
}

proof fn lemma_weekday_part(st: StoreModel, years: Seq<i32>, from: int, to: int, w: i64)
    requires
        -1 <= to,
        from <= to + 1,
    ensures
        ({
            let d = day_by_day(st, years, from, to);
            let r = weekday_days(st, years, from, to);
            let first = if from < 0 { 0 } else { from };
            &&& d.len() == to + 1 - first
            &&& tally::distinct(r)
            &&& tally::amount(r, w) == sum_on_weekday(d, first, w as int)
            &&& tally::total(r) == sum_of_days(d)
            &&& tally::has_key(r, w) <==> exists|k: int|
                first <= k <= to && #[trigger] calendar::weekday_of(k) == w
        }),
    decreases to - from + 1,
{
    let d = day_by_day(st, years, from, to);
    let r = weekday_days(st, years, from, to);
    let first = if from < 0 { 0 } else { from };
    if from > to || to < 0 {
        tally::lemma_amount_missing(r, w);
    } else {
        lemma_weekday_part(st, years, from, to - 1, w);
        let p = weekday_days(st, years, from, to - 1);
        let n = select::presses(st, years, Window::On(to as i64));
        let x = calendar::weekday_of(to) as i64;
        assert(d.drop_last() =~= day_by_day(st, years, from, to - 1));
        tally::lemma_bump_each(p, x, n, w);
        tally::lemma_bump_total(p, x, n);
        tally::lemma_bump_shape(p, x, n);
        assert(tally::has_key(r, w) <==> tally::has_key(p, w) || w == x);
        if tally::has_key(p, w) {
            let k = choose|k: int| first <= k <= to - 1 && #[trigger] calendar::weekday_of(k) == w;
            assert(calendar::weekday_of(k) == w);
        }
        if w == x {
            assert(calendar::weekday_of(to) == w);
        }
    }
}

/// The weekday statistics are the daily counts of the same days by weekday: each weekday
/// has the sum of the counts of its days, all of them together have the sum of all counts,
/// no weekday is outside 0 (Monday) to 6 (Sunday), and from seven days on each has its row.
pub proof fn lemma_weekdays_are_daily_counts(
    st: StoreModel,
    days: i64,
    today: Date,
    w: i64,
    i: int,
)
    requires
        usable_today(today),
    ensures
        ({
            let years = daily_years(st, days, None, today);
            let from = daily_start(days, today);
            let first = if from < 0 { 0 } else { from };
            let d = day_by_day(st, years, from, today.number());
            let r = weekday_days(st, years, from, today.number());
            &&& 0 <= i < d.len() ==> d[i].0 == calendar::day_text(first + i)
            &&& tally::amount(r, w) == sum_on_weekday(d, first, w as int)
            &&& tally::total(r) == sum_of_days(d)
            &&& tally::has_key(r, w) ==> 0 <= w <= 6
            &&& d.len() >= 7 && 0 <= w <= 6 ==> tally::has_key(r, w)
            &&& d.len() >= 7 ==> r.len() == 7
            &&& days >= 7 && today.number() >= 6 ==> d.len() >= 7
        }),
{
    let years = daily_years(st, days, None, today);
    let from = daily_start(days, today);
    let to = today.number();
    let first = if from < 0 { 0 } else { from };
    let d = day_by_day(st, years, from, to);
    let r = weekday_days(st, years, from, to);
    if 0 <= i < d.len() {
        lemma_day_at(st, years, from, to, i);
    }
    assert forall|x: i64| #[trigger] tally::has_key(r, x) implies 0 <= x <= 6 by {
        lemma_weekday_part(st, years, from, to, x);
    }
    if d.len() >= 7 {
        assert forall|x: i64| 0 <= x <= 6 implies #[trigger] tally::has_key(r, x) by {
            lemma_weekday_part(st, years, from, to, x);
            lemma_week(first, x as int);
            let k = choose|k: int| first <= k < first + 7 && #[trigger] calendar::weekday_of(k) == x;
            assert(first <= k <= to && calendar::weekday_of(k) == x);
        }
        lemma_weekday_part(st, years, from, to, w);
        lemma_seven_rows(r);
    }
    lemma_weekday_part(st, years, from, to, w);
}

proof fn lemma_week(first: int, w: int)
    requires
        0 <= w <= 6,
    ensures
        exists|k: int| first <= k < first + 7 && #[trigger] calendar::weekday_of(k) == w,
{
    let k = first + (w - calendar::weekday_of(first) + 7) % 7;
    assert(calendar::weekday_of(k) == w);
}

proof fn lemma_seven_rows(r: Seq<(i64, int)>)
    requires
        tally::distinct(r),
        forall|x: i64| #[trigger] tally::has_key(r, x) <==> 0 <= x <= 6,
    ensures
        r.len() == 7,
{
    let ks = tally::keys(r);
    let all: Set<i64> = set![0i64, 1i64, 2i64, 3i64, 4i64, 5i64, 6i64];
    assert(ks.no_duplicates());
    ks.unique_seq_to_set();
    assert forall|x: i64| ks.to_set().contains(x) <==> all.contains(x) by {
        if ks.contains(x) {
            let i = choose|i: int| 0 <= i < ks.len() && ks[i] == x;
            assert(r[i].0 == x);
            assert(tally::has_key(r, x));
        }
        if all.contains(x) {
            assert(tally::has_key(r, x));
            let i = choose|i: int| 0 <= i < r.len() && (#[trigger] r[i]).0 == x;
            assert(ks[i] == x);
        }
    }
    assert(ks.to_set() =~= all);
    assert(all.len() == 7);
}

/// The key presses of the last `days` days by weekday, 0 for Monday to 6 for Sunday.
pub fn get_weekday_stats(st: &Store, days: i64, today: &Date) -> (r: Tally<i64>)
    requires
        st.wf(),
        usable_today(*today),
        today.year <= 9999,
        forall|d: i64| #[trigger]
            select::presses(
                st@,
                daily_years(st@, days, None, *today),
                Window::On(d),
            ) <= i64::MAX,
        tally::total(
            weekday_days(
                st@,
                daily_years(st@, days, None, *today),
                daily_start(days, *today),
                today.number(),
            ),
        ) <= i64::MAX,
    ensures
        r.wf(),
        r@ == weekday_days(
            st@,
            daily_years(st@, days, None, *today),
            daily_start(days, *today),
            today.number(),
        ),
{
    let daily = get_daily_counts(st, days, None, today);
    let n = clamp_query_days(days);
    let last = day_key_of_date(today);
    let ghost years = daily_years(st@, days, None, *today);
    let ghost start = daily_start(days, *today);
    proof {
        calendar::lemma_number_range(*today);
        lemma_daily_span(st@, years, start, last as int);
    }
    let mut first: i64 = last - n + 1;
    if first < 0 {
        first = 0;
    }
    let mut dates: Vec<(Date, i64)> = Vec::new();
    let mut i: usize = 0;
    while i < daily.len()
        invariant
            i <= daily.len(),
            dates@.len() == i,
            0 <= first,
            first == (if start < 0 { 0 } else { start }),
            first + daily.len() == last + 1,
            last <= calendar::last_day(),
            last < 96_000_000,
            labelled(daily@) == day_by_day(st@, years, start, last as int),
            st.wf(),
            forall|k: int|
                #![trigger dates@[k]]
                0 <= k < i ==> dates@[k].0.valid() && dates@[k].0.number() == first + k
                    && dates@[k].1 == daily@[k].1 && dates@[k].1 >= 0,
        decreases daily.len() - i,
    {
        proof {
            lemma_day_at(st@, years, start, last as int, i as int);
            assert(labelled(daily@)[i as int].1 == daily@[i as int].1);
            select::lemma_presses_prefix(
                *st,
                years,
                Window::On((first + i) as i64),
                years.len() as int,
            );
            assert(years.take(years.len() as int) =~= years);
        }
        match day_key_to_date(first + i as i64) {
            Some(d) => {
                dates.push((d, daily[i].1));
            },
            None => {
                assert(false);
            },
        }
        i = i + 1;
    }
    proof {
        assert forall|k: int| #![trigger dates@[k]] 0 <= k < dates@.len() implies dates@[k].1
            == day_by_day(st@, years, start, last as int)[k].1 by {
            assert(labelled(daily@)[k].1 == daily@[k].1);
        }
        lemma_weekday_days(st@, years, start, last as int, dates@);
        lemma_weekday_sum(dates@);
    }
    weekday_sums(&dates)
}

} // verus!
