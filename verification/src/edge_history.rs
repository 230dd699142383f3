//! Counts of the browser history: times as the browser writes them, the counts kept per
//! day, and the rounds in which they are refreshed.
use vstd::prelude::*;
use vstd::string::*;

use crate::calendar;
use crate::calendar::{add_days, days_between, format_date, sub_days, Date};
use crate::order;
use crate::order::{rank, Ranked};
use crate::text;
use crate::text::{dec_i64, parse_within, str_eq, str_le};
use crate::textmap::TextMap;

verus! {

// ------------------------------------------------------------------------------ times

/// The microseconds from 1601-01-01 to 1970-01-01.
pub const CHROME_EPOCH_MICROS: i64 = 11_644_473_600_000_000;

/// The microseconds of a day.
pub const DAY_MICROS: i64 = 86_400_000_000;

/// Whether an instant, in microseconds since 1970, lies on a day that has a date.
pub open spec fn datable(micros: int) -> bool {
    calendar::first_day() * DAY_MICROS <= micros < (calendar::last_day() + 1) * DAY_MICROS
}

/// A browser time, in microseconds since 1601, in microseconds since 1970.
pub fn chrome_to_datetime(chrome_time: i64) -> (r: i64)
    requires
        datable(chrome_time - CHROME_EPOCH_MICROS),
    ensures
        r == chrome_time - CHROME_EPOCH_MICROS,
{
    proof {
        lemma_datable_range(chrome_time - CHROME_EPOCH_MICROS);
    }
    chrome_time - CHROME_EPOCH_MICROS
}

/// An instant, in microseconds since 1970, as a browser time; 0 where that is out of range.
pub fn datetime_to_chrome(micros: i64) -> (r: i64)
    ensures
        r == (if micros + CHROME_EPOCH_MICROS <= i64::MAX {
            micros + CHROME_EPOCH_MICROS
        } else {
            0
        }),
{
    match micros.checked_add(CHROME_EPOCH_MICROS) {
        Some(t) => t,
        None => 0,
    }
}

proof fn lemma_datable_range(micros: int)
    requires
        datable(micros),
    ensures
        -8_400_000_000_000_000_000 <= micros <= 8_300_000_000_000_000_000,
{
    let d = Date { year: 1970, month: 1, day: 1 };
    calendar::lemma_number_range(d);
}

/// The browser times count from the first of January 1601.
pub proof fn lemma_chrome_epoch()
    ensures
        calendar::day_number(1601, 1, 1) * DAY_MICROS == -CHROME_EPOCH_MICROS,
{
    reveal_with_fuel(calendar::days_before_month, 2);
}

/// Converting a browser time to an instant and back gives the browser time again, and
/// converting an instant keeps the distances between instants.
pub proof fn lemma_chrome_round_trip(chrome_time: i64)
    requires
        datable(chrome_time - CHROME_EPOCH_MICROS),
    ensures
        (chrome_time - CHROME_EPOCH_MICROS) + CHROME_EPOCH_MICROS <= i64::MAX,
        (chrome_time - CHROME_EPOCH_MICROS) + CHROME_EPOCH_MICROS == chrome_time,
{
}

/// The browser times from the start of a day, in microseconds since 1970, to 24 hours
/// later; nothing where the day has no start.
pub fn chrome_day_range(day_start: Option<i64>) -> (r: Option<(i64, i64)>)
    requires
        day_start is Some ==> datable(day_start->0 as int) && datable(day_start->0 + DAY_MICROS),
    ensures
        match day_start {
            Some(t) => r is Some && (r->0).0 == t + CHROME_EPOCH_MICROS && (r->0).1 == t
                + DAY_MICROS + CHROME_EPOCH_MICROS,
            None => r is None,
        },
{
    match day_start {
        Some(t) => {
            proof {
                lemma_datable_range(t as int);
                lemma_datable_range(t + DAY_MICROS);
            }
            Some((datetime_to_chrome(t), datetime_to_chrome(t + DAY_MICROS)))
        },
        None => None,
    }
}

// ----------------------------------------------------------------- reading a snapshot

/// The size from which on the history is not copied any more, in bytes.
pub const EDGE_COPY_MAX_BYTES: u64 = 104_857_600;

/// How often the history is copied at most.
pub const EDGE_COPY_TRIES: u32 = 3;

/// What has been tried to read the history.
#[derive(Clone, Copy, PartialEq, Eq, Structural, Debug)]
pub struct SnapshotState {
    pub exists: bool,
    /// The history was read in place and that failed.
    pub direct_failed: bool,
    pub size: u64,
    pub failed_copies: u32,
}

/// What to try next.
#[derive(Clone, Copy, PartialEq, Eq, Structural, Debug)]
pub enum SnapshotStep {
    /// There is no history to read.
    Missing,
    /// Read it in place.
    Direct,
    /// It is locked and too large to copy.
    TooLarge,
    /// Read a copy.
    Copy,
    /// It cannot be read.
    GiveUp,
}

/// What to try next to read the history: first in place, then up to three copies, unless
/// it is too large for that.
pub fn snapshot_step(s: &SnapshotState) -> (r: SnapshotStep)
    ensures
        r == (if !s.exists {
            SnapshotStep::Missing
        } else if !s.direct_failed {
            SnapshotStep::Direct
        } else if s.size > EDGE_COPY_MAX_BYTES {
            SnapshotStep::TooLarge
        } else if s.failed_copies < EDGE_COPY_TRIES {
            SnapshotStep::Copy
        } else {
            SnapshotStep::GiveUp
        }),
{
    if !s.exists {
        SnapshotStep::Missing
    } else if !s.direct_failed {
        SnapshotStep::Direct
    } else if s.size > EDGE_COPY_MAX_BYTES {
        SnapshotStep::TooLarge
    } else if s.failed_copies < EDGE_COPY_TRIES {
        SnapshotStep::Copy
    } else {
        SnapshotStep::GiveUp
    }
}

/// The state after a step that failed.
pub fn step_failed(s: &SnapshotState, step: SnapshotStep) -> (r: SnapshotState)
    requires
        s.failed_copies < u32::MAX,
    ensures
        r == (match step {
            SnapshotStep::Direct => SnapshotState { direct_failed: true, ..*s },
            SnapshotStep::Copy => SnapshotState {
                failed_copies: (s.failed_copies + 1) as u32,
                ..*s
            },
            _ => *s,
        }),
{
    match step {
        SnapshotStep::Direct => SnapshotState { direct_failed: true, ..*s },
        SnapshotStep::Copy => SnapshotState { failed_copies: s.failed_copies + 1, ..*s },
        _ => *s,
    }
}

// ------------------------------------------------------------------------ counts kept

/// The count of a day.
pub struct DayCount {
    /// `YYYY-MM-DD`.
    pub date: String,
    pub count: i64,
    /// When it was written, in seconds since 1970.
    pub updated_at: i64,
}

/// The count of a day.
#[verifier::ext_equal]
pub struct DayModel {
    pub date: Seq<char>,
    pub count: int,
    pub updated_at: int,
}

impl View for DayCount {
    type V = DayModel;

    open spec fn view(&self) -> DayModel {
        DayModel {
            date: self.date@,
            count: self.count as int,
            updated_at: self.updated_at as int,
        }
    }
}

/// The counts that are kept: one per day, and other numbers by name.
pub struct EdgeStore {
    pub days: Vec<DayCount>,
    pub meta: TextMap,
}

/// The first index from `from` on of the count of a day, or the number of counts.
pub open spec fn day_at(s: Seq<DayModel>, date: Seq<char>, from: int) -> int
    decreases s.len() - from,
{
    if from >= s.len() || s[from].date == date {
        from
    } else {
        day_at(s, date, from + 1)
    }
}

/// The count of a day.
pub open spec fn count_on(s: Seq<DayModel>, date: Seq<char>) -> Option<int> {
    let i = day_at(s, date, 0);
    if i < s.len() {
        Some(s[i].count)
    } else {
        None
    }
}

/// The counts with that of one day set.
pub open spec fn with_count(s: Seq<DayModel>, day: DayModel) -> Seq<DayModel> {
    let i = day_at(s, day.date, 0);
    if i < s.len() {
        s.update(i, day)
    } else {
        s.push(day)
    }
}

/// Days differ.
pub open spec fn one_each(s: Seq<DayModel>) -> bool {
    forall|i: int, j: int| 0 <= i < j < s.len() ==> (#[trigger] s[i]).date != (#[trigger] s[j]).date
}

/// The counts of the days from a date on.
pub open spec fn days_since(s: Seq<DayModel>, start: Seq<char>) -> Seq<DayModel>
    decreases s.len(),
{
    if s.len() == 0 {
        s
    } else {
        let r = days_since(s.drop_last(), start);
        if text::lex_le(start, s.last().date) {
            r.push(s.last())
        } else {
            r
        }
    }
}

/// Whether `a` is of a day before that of `b`.
pub open spec fn earlier(a: DayModel, b: DayModel) -> bool {
    !text::lex_le(b.date, a.date)
}

impl Ranked for DayCount {
    open spec fn ahead(a: DayModel, b: DayModel) -> bool {
        earlier(a, b)
    }

    fn goes_ahead(&self, other: &Self) -> (r: bool) {
        !str_le(other.date.as_str(), self.date.as_str())
    }
}

/// The counts in the order of their days.
pub open spec fn by_day(s: Seq<DayModel>) -> Seq<DayModel> {
    order::ranked(s, |a: DayModel, b: DayModel| earlier(a, b))
}

/// How many days before today the last `days` days begin.
pub open spec fn reach(days: int) -> int {
    if days <= 1 {
        0
    } else {
        days - 1
    }
}

proof fn lemma_day_at(s: Seq<DayModel>, date: Seq<char>, from: int)
    requires
        0 <= from <= s.len(),
    ensures
        from <= day_at(s, date, from) <= s.len(),
        day_at(s, date, from) < s.len() ==> s[day_at(s, date, from)].date == date,
        forall|i: int| from <= i < day_at(s, date, from) ==> (#[trigger] s[i]).date != date,
    decreases s.len() - from,
{
    if from < s.len() && s[from].date != date {
        lemma_day_at(s, date, from + 1);
    }
}

proof fn lemma_day_at_is(s: Seq<DayModel>, date: Seq<char>, from: int, k: int)
    requires
        0 <= from <= k <= s.len(),
        k < s.len() ==> s[k].date == date,
        forall|i: int| from <= i < k ==> (#[trigger] s[i]).date != date,
    ensures
        day_at(s, date, from) == k,
    decreases k - from,
{
    if from < k {
        lemma_day_at_is(s, date, from + 1, k);
    }
}

/// What was saved for a day is what is read for it, and what is read for other days stays.
pub proof fn lemma_saved_is_read(s: Seq<DayModel>, day: DayModel, other: Seq<char>)
    requires
        one_each(s),
    ensures
        one_each(with_count(s, day)),
        count_on(with_count(s, day), day.date) == Some(day.count),
        other != day.date ==> count_on(with_count(s, day), other) == count_on(s, other),
{
    let i = day_at(s, day.date, 0);
    lemma_day_at(s, day.date, 0);
    let t = with_count(s, day);
    assert forall|a: int, b: int| 0 <= a < b < t.len() implies (#[trigger] t[a]).date != (
    #[trigger] t[b]).date by {
        if b < s.len() {
            assert(s[a].date != s[b].date);
        }
        if a < s.len() && i == s.len() {
            assert(s[a].date != day.date);
        }
    }
    lemma_day_at_is(t, day.date, 0, i);
    if other != day.date {
        let k = day_at(s, other, 0);
        lemma_day_at(s, other, 0);
        if k < s.len() {
            assert(t[k] == s[k]);
            assert forall|j: int| 0 <= j < k implies (#[trigger] t[j]).date != other by {
                assert(s[j].date != other);
            }
            lemma_day_at_is(t, other, 0, k);
        } else {
            assert forall|j: int| 0 <= j < t.len() implies (#[trigger] t[j]).date != other by {
                if j < s.len() {
                    assert(s[j].date != other);
                }
            }
            lemma_day_at_is(t, other, 0, t.len() as int);
        }
    }
}

impl EdgeStore {
    /// Each day has one count.
    pub open spec fn wf(&self) -> bool {
        one_each(self.counts()) && self.meta.wf()
    }

    /// The counts.
    pub open spec fn counts(&self) -> Seq<DayModel> {
        order::seen(self.days@)
    }

    /// Nothing kept.
    pub fn new() -> (r: Self)
        ensures
            r.wf(),
            r.counts().len() == 0,
            r.meta@ == Map::<Seq<char>, Seq<char>>::empty(),
    {
        EdgeStore { days: Vec::new(), meta: TextMap::new() }
    }

    fn find(&self, date: &str) -> (r: usize)
        ensures
            r == day_at(self.counts(), date@, 0),
            r <= self.days@.len(),
    {
        let ghost s = self.counts();
        let mut i: usize = 0;
        while i < self.days.len()
            invariant
                i <= self.days.len(),
                s == self.counts(),
                day_at(s, date@, 0) == day_at(s, date@, i as int),
            decreases self.days.len() - i,
        {
            assert(s[i as int].date == self.days@[i as int].date@);
            if str_eq(self.days[i].date.as_str(), date) {
                return i;
            }
            i = i + 1;
        }
        i
    }

    /// Saves the count of a day, in place of the one that is there.
    pub fn save_edge_history_count(&mut self, target_date: &Date, count: i64, updated_at: i64)
        requires
            old(self).wf(),
            target_date.valid(),
        ensures
            final(self).wf(),
            final(self).counts() == with_count(
                old(self).counts(),
                (DayModel {
                    date: calendar::iso_text(*target_date),
                    count: count as int,
                    updated_at: updated_at as int,
                }),
            ),
            final(self).meta@ == old(self).meta@,
    {
        let ghost s = self.counts();
        let date = format_date(target_date, "%Y-%m-%d");
        let i = self.find(date.as_str());
        let row = DayCount { date, count, updated_at };
        let ghost rv = row@;
        proof {
            lemma_saved_is_read(s, rv, rv.date);
        }
        if i < self.days.len() {
            self.days[i] = row;
            assert(self.counts() =~= s.update(i as int, rv));
        } else {
            self.days.push(row);
            assert(self.counts() =~= s.push(rv));
        }
    }

    /// The count of a day, where one was saved.
    pub fn saved_count_on(&self, target_date: &Date) -> (r: Option<i64>)
        requires
            target_date.valid(),
        ensures
            match r {
                Some(n) => count_on(self.counts(), calendar::iso_text(*target_date)) == Some(
                    n as int,
                ),
                None => count_on(self.counts(), calendar::iso_text(*target_date)) is None,
            },
    {
        let date = format_date(target_date, "%Y-%m-%d");
        let i = self.find(date.as_str());
        if i < self.days.len() {
            Some(self.days[i].count)
        } else {
            None
        }
    }

    /// The count of today, where one was saved today.
    pub fn get_edge_history_saved_today(&self, today: &Date) -> (r: Option<i64>)
        requires
            today.valid(),
        ensures
            match r {
                Some(n) => count_on(self.counts(), calendar::iso_text(*today)) == Some(n as int),
                None => count_on(self.counts(), calendar::iso_text(*today)) is None,
            },
    {
        self.saved_count_on(today)
    }

    /// Saves a number under a name.
    pub fn save_edge_history_meta(&mut self, key: &str, value: i64)
        requires
            old(self).wf(),
        ensures
            final(self).wf(),
            final(self).counts() == old(self).counts(),
            final(self).meta@ == old(self).meta@.insert(key@, text::dec(value as int)),
    {
        self.meta.insert(key.to_owned(), dec_i64(value));
    }

    /// The total that was saved last.
    pub fn get_edge_history_saved_total(&self) -> (r: Option<i64>)
        requires
            self.wf(),
        ensures
            match r {
                Some(n) => self.meta@.contains_key("total"@) && text::int_within(
                    self.meta@["total"@],
                    i64::MIN as int,
                    i64::MAX as int,
                ) == Some(n as int),
                None => !self.meta@.contains_key("total"@) || text::int_within(
                    self.meta@["total"@],
                    i64::MIN as int,
                    i64::MAX as int,
                ) is None,
            },
    {
        match self.meta.get(&"total".to_owned()) {
            Some(v) => parse_within(v.as_str(), i64::MIN, i64::MAX),
            None => None,
        }
    }

    /// The counts of the last `days` days, in the order of the days.
    pub fn get_edge_history_counts(&self, days: i64, today: &Date) -> (r: Vec<(String, i64)>)
        requires
            today.valid(),
            today.number() - reach(days as int) >= calendar::first_day(),
        ensures
            ({
                let rows = by_day(
                    days_since(
                        self.counts(),
                        calendar::iso_text(back_to(*today, reach(days as int))),
                    ),
                );
                &&& r@.len() == rows.len()
                &&& forall|i: int|
                    #![trigger r@[i]]
                    0 <= i < r@.len() ==> r@[i].0@ == rows[i].date && r@[i].1 == rows[i].count
            }),
    {
        let ghost s = self.counts();
        let start = format_date(&start_of(days, today), "%Y-%m-%d");
        let mut w: Vec<DayCount> = Vec::new();
        let mut i: usize = 0;
        assert(order::seen(w@) =~= days_since(s.take(0), start@));
        while i < self.days.len()
            invariant
                i <= self.days.len(),
                s == self.counts(),
                order::seen(w@) == days_since(s.take(i as int), start@),
            decreases self.days.len() - i,
        {
            let ghost w0 = w@;
            proof {
                let t1 = s.take(i as int + 1);
                assert(t1.drop_last() =~= s.take(i as int));
                assert(t1.last() == self.days@[i as int]@);
            }
            let d = &self.days[i];
            if str_le(start.as_str(), d.date.as_str()) {
                w.push(
                    DayCount { date: d.date.clone(), count: d.count, updated_at: d.updated_at },
                );
                assert(order::seen(w@) =~= order::seen(w0).push(s[i as int]));
            }
            i = i + 1;
        }
        assert(s.take(i as int) =~= s);
        let sorted = rank(w);
        proof {
            assert(order::by_rank::<DayCount>() =~= (|a: DayModel, b: DayModel| earlier(a, b)));
        }
        let ghost rows = order::seen(sorted@);
        let mut out: Vec<(String, i64)> = Vec::new();
        let mut k: usize = 0;
        while k < sorted.len()
            invariant
                k <= sorted.len(),
                rows == order::seen(sorted@),
                out@.len() == k,
                forall|j: int|
                    #![trigger out@[j]]
                    0 <= j < k ==> out@[j].0@ == rows[j].date && out@[j].1 == rows[j].count,
            decreases sorted.len() - k,
        {
            out.push((sorted[k].date.clone(), sorted[k].count));
            k = k + 1;
        }
        out
    }

    /// The counts of the last `days` days, in the order of the days.
    pub fn trend_counts(&self, days: i64, today: &Date) -> (r: Vec<(String, i64)>)
        requires
            today.valid(),
            today.number() - reach(days as int) >= calendar::first_day(),
        ensures
            ({
                let rows = by_day(
                    days_since(
                        self.counts(),
                        calendar::iso_text(back_to(*today, reach(days as int))),
                    ),
                );
                &&& r@.len() == rows.len()
                &&& forall|i: int|
                    #![trigger r@[i]]
                    0 <= i < r@.len() ==> r@[i].0@ == rows[i].date && r@[i].1 == rows[i].count
            }),
    {
        self.get_edge_history_counts(days, today)
    }

    /// Takes over what was read of the history: the count of today and the total. Tells
    /// whether anything was read, and both numbers.
    pub fn update_today_edge_history(
        &mut self,
        read: Option<(i64, i64)>,
        today: &Date,
        now: i64,
    ) -> (r: (bool, i64, i64))
        requires
            old(self).wf(),
            today.valid(),
        ensures
            final(self).wf(),
            match read {
                Some(n) => {
                    &&& r == (true, n.0, n.1)
                    &&& final(self).counts() == with_count(
                        old(self).counts(),
                        (DayModel {
                            date: calendar::iso_text(*today),
                            count: n.0 as int,
                            updated_at: now as int,
                        }),
                    )
                    &&& final(self).meta@ == old(self).meta@.insert(
                        "total"@,
                        text::dec(n.1 as int),
                    )
                },
                None => {
                    &&& r == (false, 0i64, 0i64)
                    &&& *final(self) == *old(self)
                },
            },
    {
        match read {
            Some((count, total)) => {
                self.save_edge_history_count(today, count, now);
                self.save_edge_history_meta("total", total);
                (true, count, total)
            },
            None => (false, 0, 0),
        }
    }

    /// The days among the last `days` days that have no count yet.
    pub fn backfill_edge_history(&self, days: i64, today: &Date) -> (r: Vec<Date>)
        requires
            today.valid(),
            today.number() - reach(days as int) >= calendar::first_day(),
        ensures
            r@ == missing_days(
                self.counts(),
                calendar::iso_text(back_to(*today, reach(days as int))),
                today.number() - reach(days as int),
                today.number(),
            ),
    {
        let ghost s = self.counts();
        let start = start_of(days, today);
        let first = format_date(&start, "%Y-%m-%d");
        let ghost from = start.number();
        let mut out: Vec<Date> = Vec::new();
        let mut day: Date = start;
        let mut more = true;
        proof {
            calendar::lemma_number_range(*today);
            assert(out@ =~= missing_days(s, first@, from, from - 1));
        }
        while more
            invariant
                s == self.counts(),
                today.valid(),
                day.valid(),
                from == start.number(),
                from <= day.number() <= today.number(),
                more ==> out@ == missing_days(s, first@, from, day.number() - 1),
                !more ==> out@ == missing_days(s, first@, from, today.number()),
            decreases today.number() - day.number() + (if more { 1int } else { 0int }),
        {
            let ghost n = day.number();
            proof {
                calendar::lemma_day_key_round_trip(day);
            }
            let key = format_date(&day, "%Y-%m-%d");
            let i = self.find(key.as_str());
            proof {
                lemma_day_at(s, key@, 0);
                assert(count_on(s, key@) is None <==> i == s.len());
            }
            if i == self.days.len() || !str_le(first.as_str(), key.as_str()) {
                let ghost o = out@;
                out.push(day);
                assert(out@ =~= o.push(day));
            }
            assert(out@ == missing_days(s, first@, from, n));
            if days_between(today, &day) <= 0 {
                more = false;
            } else {
                match add_days(&day, 1) {
                    Some(d) => {
                        day = d;
                    },
                    None => {
                        proof {
                            calendar::lemma_number_range(*today);
                        }
                        more = false;
                    },
                }
            }
        }
        out
    }
}

/// The date `n` days before a date.
pub open spec fn back_to(today: Date, n: int) -> Date {
    calendar::date_of(today.number() - n)
}

fn start_of(days: i64, today: &Date) -> (r: Date)
    requires
        today.valid(),
        today.number() - reach(days as int) >= calendar::first_day(),
    ensures
        r.valid(),
        r.number() == today.number() - reach(days as int),
        r == back_to(*today, reach(days as int)),
{
    let back: u64 = if days <= 1 {
        0
    } else {
        (days - 1) as u64
    };
    match sub_days(today, back) {
        Some(d) => {
            proof {
                calendar::lemma_day_key_round_trip(d);
            }
            d
        },
        None => *today,
    }
}

/// The dates of the days `from` to `upto` that have no count among those from `start` on.
pub open spec fn missing_days(
    s: Seq<DayModel>,
    start: Seq<char>,
    from: int,
    upto: int,
) -> Seq<Date>
    decreases upto - from + 1,
{
    if upto < from {
        Seq::empty()
    } else {
        let r = missing_days(s, start, from, upto - 1);
        let d = calendar::date_of(upto);
        if count_on(s, calendar::iso_text(d)) is None || !text::lex_le(
            start,
            calendar::iso_text(d),
        ) {
            r.push(d)
        } else {
            r
        }
    }
}

// ----------------------------------------------------------------------------- rounds

/// How long a round may run before it counts as stuck, in milliseconds.
pub const RUNNING_STALE_MS: i64 = 120_000;

/// How the last round of refreshing stands.
#[derive(Clone, Copy, PartialEq, Eq, Structural, Debug)]
pub enum RoundState {
    Idle,
    Running,
    Done,
    Failed,
}

/// The place that a round of refreshing holds: how it stands, its number, and when it
/// began.
#[derive(Clone, Copy, PartialEq, Eq, Structural, Debug)]
pub struct RefreshSlot {
    pub state: RoundState,
    pub gen: u64,
    /// In milliseconds since 1970; 0 where no round runs.
    pub started_at_ms: i64,
}

/// Whether a round has been running for too long.
pub open spec fn stuck(slot: RefreshSlot, now: int) -> bool {
    slot.state == RoundState::Running && slot.started_at_ms > 0 && now - slot.started_at_ms
        >= RUNNING_STALE_MS
}

/// The slot after a new round was begun.
pub open spec fn begun(slot: RefreshSlot, now: i64) -> RefreshSlot {
    RefreshSlot { state: RoundState::Running, gen: (slot.gen + 1) as u64, started_at_ms: now }
}

/// Whether a new round can begin: none runs, or the one that does is stuck.
pub open spec fn can_begin(slot: RefreshSlot, now: int) -> bool {
    slot.state != RoundState::Running || stuck(slot, now)
}

/// The slot after the round `gen` ended in `state`; another round is not touched.
pub open spec fn ended(slot: RefreshSlot, gen: u64, state: RoundState) -> RefreshSlot {
    if slot.gen == gen {
        RefreshSlot { state, gen: slot.gen, started_at_ms: 0 }
    } else {
        slot
    }
}

/// The slot as it is found: a round that is stuck has failed and its number is given up.
pub open spec fn looked_at(slot: RefreshSlot, now: int) -> RefreshSlot {
    if stuck(slot, now) {
        RefreshSlot { state: RoundState::Failed, gen: (slot.gen + 1) as u64, started_at_ms: 0 }
    } else {
        slot
    }
}

/// The word for how a round stands.
pub open spec fn state_word(s: RoundState) -> Seq<char> {
    match s {
        RoundState::Running => "running"@,
        RoundState::Done => "ok"@,
        RoundState::Failed => "fail"@,
        RoundState::Idle => "idle"@,
    }
}

impl RefreshSlot {
    /// No round yet.
    pub fn new() -> (r: Self)
        ensures
            r == (RefreshSlot { state: RoundState::Idle, gen: 0, started_at_ms: 0 }),
    {
        RefreshSlot { state: RoundState::Idle, gen: 0, started_at_ms: 0 }
    }

    fn is_wedged(&self, now: i64) -> (r: bool)
        ensures
            r == stuck(*self, now as int),
    {
        self.state == RoundState::Running && self.started_at_ms > 0 && now as i128
            - self.started_at_ms as i128 >= RUNNING_STALE_MS as i128
    }

    /// Begins a round and gives its number; refused while another one runs, unless that
    /// one is stuck.
    pub fn claim_round(&mut self, now: i64) -> (r: Option<u64>)
        requires
            old(self).gen < u64::MAX,
        ensures
            can_begin(*old(self), now as int) ==> r == Some((old(self).gen + 1) as u64)
                && *final(self) == begun(*old(self), now),
            !can_begin(*old(self), now as int) ==> r is None && *final(self) == *old(self),
    {
        let wedged = self.is_wedged(now);
        if self.state == RoundState::Running && !wedged {
            return None;
        }
        self.state = RoundState::Running;
        self.started_at_ms = now;
        self.gen = self.gen + 1;
        Some(self.gen)
    }

    /// Ends the round `gen`, if it is still the current one.
    pub fn finish_round(&mut self, gen: u64, ok: bool)
        ensures
            *final(self) == ended(
                *old(self),
                gen,
                if ok {
                    RoundState::Done
                } else {
                    RoundState::Failed
                },
            ),
    {
        if self.gen != gen {
            return;
        }
        self.state = if ok {
            RoundState::Done
        } else {
            RoundState::Failed
        };
        self.started_at_ms = 0;
    }

    /// Takes back the round `gen`, which never ran, if it is still the current one.
    pub fn release_round(&mut self, gen: u64)
        ensures
            *final(self) == ended(*old(self), gen, RoundState::Idle),
    {
        if self.gen != gen {
            return;
        }
        self.state = RoundState::Idle;
        self.started_at_ms = 0;
    }

    /// How the last round stands: `idle`, `running`, `ok` or `fail`. One that is stuck has
    /// failed.
    pub fn refresh_state(&mut self, now: i64) -> (r: &'static str)
        requires
            old(self).gen < u64::MAX,
        ensures
            *final(self) == looked_at(*old(self), now as int),
            r@ == state_word(final(self).state),
    {
        if self.is_wedged(now) {
            self.state = RoundState::Failed;
            self.started_at_ms = 0;
            self.gen = self.gen + 1;
        }
        match self.state {
            RoundState::Running => "running",
            RoundState::Done => "ok",
            RoundState::Failed => "fail",
            RoundState::Idle => "idle",
        }
    }
}

/// A round that is not stuck is not taken over: no second round begins beside it.
pub proof fn lemma_live_round_is_not_stolen(slot: RefreshSlot, now: int)
    requires
        slot.state == RoundState::Running,
        now - slot.started_at_ms < RUNNING_STALE_MS,
    ensures
        !can_begin(slot, now),
        looked_at(slot, now) == slot,
{
}

/// A round that is stuck blocks nothing: a new one can begin at once, and also after the
/// state was looked at, which then says that it failed.
pub proof fn lemma_stuck_round_heals(slot: RefreshSlot, now: i64, later: int)
    requires
        slot.started_at_ms > 0,
        slot.state == RoundState::Running,
        now - slot.started_at_ms >= RUNNING_STALE_MS,
        slot.gen < u64::MAX,
    ensures
        can_begin(slot, now as int),
        looked_at(slot, now as int).state == RoundState::Failed,
        can_begin(looked_at(slot, now as int), later),
{
}

/// A round that was taken over, or given up, changes nothing when it ends after all; the
/// round in its place ends as it does.
pub proof fn lemma_superseded_round_is_ignored(
    slot: RefreshSlot,
    gen: u64,
    now: i64,
    state: RoundState,
)
    requires
        gen <= slot.gen < u64::MAX,
    ensures
        ended(begun(slot, now), gen, state) == begun(slot, now),
        stuck(slot, now as int) ==> ended(looked_at(slot, now as int), gen, state) == looked_at(
            slot,
            now as int,
        ),
        ended(begun(slot, now), (slot.gen + 1) as u64, state).state == state,
{
}

proof fn lemma_days_since(s: Seq<DayModel>, start: Seq<char>, d: DayModel)
    ensures
        days_since(s, start).contains(d) <==> s.contains(d) && text::lex_le(start, d.date),
    decreases s.len(),
{
    if s.len() > 0 {
        let t = s.drop_last();
        let r = days_since(t, start);
        let a = days_since(s, start);
        lemma_days_since(t, start, d);
        assert(s[s.len() - 1] == s.last());
        if t.contains(d) {
            let i = choose|i: int| 0 <= i < t.len() && t[i] == d;
            assert(s[i] == d);
        }
        if s.contains(d) {
            let i = choose|i: int| 0 <= i < s.len() && s[i] == d;
            if i < t.len() {
                assert(t[i] == d);
            }
        }
        if r.contains(d) {
            let i = choose|i: int| 0 <= i < r.len() && r[i] == d;
            assert(a[i] == d);
        }
        if text::lex_le(start, s.last().date) {
            assert(a[a.len() - 1] == s.last());
        }
        if a.contains(d) {
            let i = choose|i: int| 0 <= i < a.len() && a[i] == d;
            if i < r.len() {
                assert(r[i] == d);
            }
        }
    }
}

/// The counts of a period are all those of dates from its first one on, each as it was saved,
/// the earliest date first. A period of `n` days reaches back `n - 1` days before today.
pub proof fn lemma_counts_of_period(
    s: Seq<DayModel>,
    start: Seq<char>,
    d: DayModel,
    i: int,
    j: int,
    n: int,
)
    ensures
        ({
            let rows = by_day(days_since(s, start));
            &&& rows.contains(d) <==> s.contains(d) && text::lex_le(start, d.date)
            &&& 0 <= i < j < rows.len() ==> text::lex_le(rows[i].date, rows[j].date)
        }),
        n >= 1 ==> reach(n) + 1 == n,
        n < 1 ==> reach(n) == 0,
{
    let ahead = |a: DayModel, b: DayModel| earlier(a, b);
    let t = days_since(s, start);
    let rows = by_day(t);
    lemma_days_since(s, start, d);
    order::lemma_ranked_keeps(t, ahead);
    vstd::seq_lib::to_multiset_contains(t, d);
    vstd::seq_lib::to_multiset_contains(rows, d);
    assert forall|a: DayModel, b: DayModel| #[trigger] ahead(a, b) implies !ahead(b, a) by {
        text::lemma_lex_total(a.date, b.date);
    }
    assert forall|a: DayModel, b: DayModel, c: DayModel|
        !(#[trigger] ahead(a, b)) && !(#[trigger] ahead(b, c)) implies !ahead(a, c) by {
        text::lemma_lex_trans(c.date, b.date, a.date);
    }
    order::lemma_ranked_in_order(t, ahead);
    if 0 <= i < j < rows.len() {
        assert(!ahead(rows[j], rows[i]));
    }
}

/// The days to read again are days of the period, the earliest first. One without a saved
/// count is among them, and one with a saved count that belongs to the period is not.
pub proof fn lemma_missing_days(
    s: Seq<DayModel>,
    start: Seq<char>,
    from: int,
    upto: int,
    day: int,
    i: int,
    j: int,
)
    requires
        forall|k: int| from <= k <= upto ==> #[trigger] calendar::has_date(k),
    ensures
        ({
            let r = missing_days(s, start, from, upto);
            let t = calendar::iso_text(calendar::date_of(day));
            &&& from <= day <= upto && count_on(s, t) is None ==> r.contains(calendar::date_of(day))
            &&& from <= day <= upto && count_on(s, t) is Some && text::lex_le(start, t)
                ==> !r.contains(calendar::date_of(day))
            &&& 0 <= i < r.len() ==> from <= r[i].number() <= upto && r[i].valid()
            &&& 0 <= i < j < r.len() ==> r[i].number() < r[j].number()
        }),
    decreases upto - from + 1,
{
    if from <= upto {
        let q = missing_days(s, start, from, upto - 1);
        let r = missing_days(s, start, from, upto);
        let d = calendar::date_of(upto);
        let x = calendar::date_of(day);
        assert(calendar::has_date(upto));
        assert(d.valid() && d.number() == upto);
        lemma_missing_days(s, start, from, upto - 1, day, i, j);
        if q.contains(x) {
            let k = choose|k: int| 0 <= k < q.len() && q[k] == x;
            assert(r[k] == x);
        }
        if day == upto && r.len() > q.len() {
            assert(r[r.len() - 1] == x);
        }
        if from <= day <= upto {
            assert(calendar::has_date(day));
            assert(x.number() == day);
        }
        if r.contains(x) {
            let k = choose|k: int| 0 <= k < r.len() && r[k] == x;
            if k < q.len() {
                assert(q[k] == x);
                lemma_missing_days(s, start, from, upto - 1, day, k, k);
            }
        }
    }
}

} // verus!
