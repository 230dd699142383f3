//! What counting comes to: the clock, active time, devices, parts that did not arrive, and
//! what is taken over from older files.
use vstd::prelude::*;

use crate::db::archive;
use crate::db::days;
use crate::db::legacy;
use crate::db::legacy::{LogModel, Named};
use crate::db::select;
use crate::db::store;
use crate::db::store::YearModel;
use crate::db::writer;
use crate::db::writer::{DbWriter, DeltasModel, MetaList, MetaModel};
use crate::hardware;
use crate::tally;
use crate::text;

verus! {

// --------------------------------------------------------------------------- the clock

/// The day of an instant is the one whose seconds it lies among, by the clock on the wall;
/// the hour is the one of that day whose seconds it lies among.
pub proof fn lemma_clock(ts: int, offset: int)
    ensures
        ({
            let d = days::day_at(ts, offset);
            let h = days::hour_at(ts, offset);
            &&& d * 86_400 <= ts + offset < (d + 1) * 86_400
            &&& 0 <= h < 24
            &&& d * 86_400 + h * 3_600 <= ts + offset < d * 86_400 + (h + 1) * 3_600
        }),
{
}

/// Active time between two events is the time between them, where it is no longer than a
/// minute; an event that comes after a longer time, or first, or from the past, adds none.
pub proof fn lemma_gap(last: int, ts: int)
    ensures
        0 < last <= ts && ts - last <= 60 ==> writer::gap(last, ts) == ts - last,
        last <= 0 || ts < last || ts - last > 60 ==> writer::gap(last, ts) == 0,
{
}

/// A period of `n` days begins `n - 1` days before today; one without an end in the past
/// begins nowhere.
pub proof fn lemma_period(n: i64, today: int)
    ensures
        1 <= n <= 36_500 ==> days::period_start(Some(n), today) == Some(today - (n - 1)),
        n < 1 ==> days::period_start(Some(n), today) == Some(today),
        n > 36_500 ==> days::period_start(Some(n), today) == Some(today - 36_499),
        days::period_start(None, today) is None,
{
}

// ----------------------------------------------------------------------------- devices

/// An event of a device counts once for that device on its day, and nothing else changes but
/// the registration of the device; a key of a device counts once under its name.
pub proof fn lemma_device_counts_once(
    v: DeltasModel,
    device: Seq<char>,
    name: Seq<char>,
    kind: Seq<char>,
    key: Seq<char>,
    ts: i64,
    offset: i64,
    day: i64,
    other: Seq<char>,
    other_key: Seq<char>,
)
    requires
        v.distinct(),
    ensures
        ({
            let d = days::day_at(ts as int, offset as int) as i64;
            let a = writer::device_recorded(v, device, name, kind, ts as int, offset as int);
            let b = writer::device_key_recorded(v, device, key, ts as int, offset as int);
            &&& tally::amount(a.devices, (day, other)) == tally::amount(v.devices, (day, other)) + (
            if day == d && other == device {
                1int
            } else {
                0
            })
            &&& a == (DeltasModel { devices: a.devices, meta: a.meta, ..v })
            &&& tally::amount(b.device_keys, (day, other, other_key)) == tally::amount(
                v.device_keys,
                (day, other, other_key),
            ) + (if day == d && other == device && other_key == key {
                1int
            } else {
                0
            })
            &&& b == (DeltasModel { device_keys: b.device_keys, ..v })
        }),
{
    let d = days::day_at(ts as int, offset as int) as i64;
    tally::lemma_bump_each(v.devices, (d, device), 1, (day, other));
    tally::lemma_bump_each(v.device_keys, (d, device, key), 1, (day, other, other_key));
}

/// What is registered of a device.
pub open spec fn registered(meta: MetaList, key: Seq<char>, m: MetaModel) -> bool {
    exists|i: int| 0 <= i < meta.len() && (#[trigger] meta[i]).0 == key && meta[i].1 == m
}

/// After an event a device is registered under the name that came with it. It is of the kind
/// of the event where it is new or was of that kind, and of both kinds else. Other devices
/// stay as they are.
pub proof fn lemma_registration(
    meta: MetaList,
    key: Seq<char>,
    name: Seq<char>,
    kind: Seq<char>,
    was: MetaModel,
    other: Seq<char>,
    m: MetaModel,
)
    requires
        writer::meta_distinct(meta),
    ensures
        ({
            let a = writer::meta_seen(meta, key, name, kind);
            &&& registered(meta, key, was) && was.kind == kind ==> registered(
                a,
                key,
                MetaModel { name, kind },
            )
            &&& registered(meta, key, was) && was.kind != kind ==> registered(
                a,
                key,
                MetaModel { name, kind: "hybrid"@ },
            )
            &&& !writer::meta_has(meta, key) ==> registered(a, key, MetaModel { name, kind })
            &&& other != key ==> (registered(a, other, m) <==> registered(meta, other, m))
            &&& writer::meta_distinct(a)
        }),
{
    let a = writer::meta_seen(meta, key, name, kind);
    if writer::meta_has(meta, key) {
        let i = choose|i: int| 0 <= i < meta.len() && (#[trigger] meta[i]).0 == key;
        assert(a[i].0 == key);
        if registered(meta, key, was) {
            let j = choose|j: int|
                0 <= j < meta.len() && (#[trigger] meta[j]).0 == key && meta[j].1 == was;
            assert(a[j].0 == key);
        }
        assert forall|x: int, y: int| 0 <= x < y < a.len() implies (#[trigger] a[x]).0 != (
        #[trigger] a[y]).0 by {
            assert(meta[x].0 != meta[y].0);
        }
    } else {
        assert(a[meta.len() as int] == (key, MetaModel { name, kind }));
        assert forall|x: int, y: int| 0 <= x < y < a.len() implies (#[trigger] a[x]).0 != (
        #[trigger] a[y]).0 by {
            assert(a[x] == meta[x]);
            if y < meta.len() {
                assert(a[y] == meta[y]);
            }
        }
    }
    if other != key {
        if registered(meta, other, m) {
            let j = choose|j: int|
                0 <= j < meta.len() && (#[trigger] meta[j]).0 == other && meta[j].1 == m;
            assert(a[j] == meta[j]);
        }
        if registered(a, other, m) {
            let j = choose|j: int| 0 <= j < a.len() && (#[trigger] a[j]).0 == other && a[j].1 == m;
            assert(a[j] == meta[j]);
        }
    }
}

/// Inputs that a recovery file has under several keys of one device count together under
/// what identifies the device: on each day, and under each name of a key.
pub proof fn lemma_identity_joins(v: DeltasModel, day: i64, device: Seq<char>, name: Seq<char>)
    ensures
        tally::amount(writer::normalized(v).devices, (day, device)) == tally::sum_if(
            v.devices,
            store::of_device(day, device),
        ),
        tally::amount(writer::normalized(v).device_keys, (day, device, name)) == tally::sum_if(
            v.device_keys,
            store::of_device_key(day, device, name),
        ),
{
    let e = Seq::<((i64, Seq<char>), int)>::empty();
    let f = writer::on_identity();
    tally::lemma_absorb_amount(e, tally::rekey(v.devices, f), (day, device));
    let p = |k: (i64, Seq<char>)| k == (day, device);
    tally::lemma_rekey_sum(v.devices, f, p);
    tally::lemma_amount_is(tally::rekey(v.devices, f), (day, device), p);
    tally::lemma_amount_missing(e, (day, device));
    tally::lemma_sum_same(
        v.devices,
        |k: (i64, Seq<char>)| p(f(k)),
        store::of_device(day, device),
    );
    let e2 = Seq::<((i64, Seq<char>, Seq<char>), int)>::empty();
    let g = writer::key_on_identity();
    tally::lemma_absorb_amount(e2, tally::rekey(v.device_keys, g), (day, device, name));
    let q = |k: (i64, Seq<char>, Seq<char>)| k == (day, device, name);
    tally::lemma_rekey_sum(v.device_keys, g, q);
    tally::lemma_amount_is(tally::rekey(v.device_keys, g), (day, device, name), q);
    tally::lemma_amount_missing(e2, (day, device, name));
    tally::lemma_sum_same(
        v.device_keys,
        |k: (i64, Seq<char>, Seq<char>)| q(g(k)),
        store::of_device_key(day, device, name),
    );
}

/// Registrations that are brought from the tables do not change those that are there. A
/// device that was not there is registered exactly where a row names it by more than its key
/// or nothing.
pub proof fn lemma_preloaded(
    meta: MetaList,
    rows: Seq<(Seq<char>, Seq<char>, Seq<char>)>,
    key: Seq<char>,
    m: MetaModel,
)
    ensures
        ({
            let a = writer::preloaded(meta, rows);
            &&& registered(meta, key, m) ==> registered(a, key, m)
            &&& writer::meta_has(meta, key) && registered(a, key, m) ==> registered(meta, key, m)
            &&& writer::meta_has(a, key) <==> writer::meta_has(meta, key) || exists|i: int|
                0 <= i < rows.len() && (#[trigger] rows[i]).0 == key && text::trimmed(
                    rows[i].1,
                ).len() > 0 && rows[i].1 != key
            &&& !writer::meta_has(meta, key) && registered(a, key, m) ==> exists|i: int|
                0 <= i < rows.len() && #[trigger] rows[i] == (key, m.name, m.kind)
        }),
    decreases rows.len(),
{
    let a = writer::preloaded(meta, rows);
    if rows.len() > 0 {
        let t = rows.drop_last();
        let e = rows.last();
        let b = writer::preloaded(meta, t);
        lemma_preloaded(meta, t, key, m);
        assert(rows[rows.len() - 1] == e);
        assert forall|i: int| 0 <= i < b.len() implies (#[trigger] a[i]) == b[i] by {}
        if registered(b, key, m) {
            let i = choose|i: int| 0 <= i < b.len() && (#[trigger] b[i]).0 == key && b[i].1 == m;
            assert(a[i] == b[i]);
        }
        if registered(a, key, m) {
            let i = choose|i: int| 0 <= i < a.len() && (#[trigger] a[i]).0 == key && a[i].1 == m;
            if i < b.len() {
                assert(b[i] == a[i]);
            }
        }
        if writer::meta_has(b, key) {
            let i = choose|i: int| 0 <= i < b.len() && (#[trigger] b[i]).0 == key;
            assert(a[i] == b[i]);
        }
        if writer::meta_has(a, key) {
            let i = choose|i: int| 0 <= i < a.len() && (#[trigger] a[i]).0 == key;
            if i < b.len() {
                assert(b[i] == a[i]);
            }
        }
        if a.len() > b.len() {
            assert(a[b.len() as int].0 == e.0);
        }
        if exists|i: int|
            0 <= i < t.len() && (#[trigger] t[i]).0 == key && text::trimmed(t[i].1).len() > 0
                && t[i].1 != key {
            let i = choose|i: int|
                0 <= i < t.len() && (#[trigger] t[i]).0 == key && text::trimmed(t[i].1).len() > 0
                    && t[i].1 != key;
            assert(rows[i] == t[i]);
        }
        if exists|i: int|
            0 <= i < rows.len() && (#[trigger] rows[i]).0 == key && text::trimmed(rows[i].1).len()
                > 0 && rows[i].1 != key {
            let i = choose|i: int|
                0 <= i < rows.len() && (#[trigger] rows[i]).0 == key && text::trimmed(
                    rows[i].1,
                ).len() > 0 && rows[i].1 != key;
            if i < t.len() {
                assert(t[i] == rows[i]);
            }
        }
        if exists|i: int| 0 <= i < t.len() && #[trigger] t[i] == (key, m.name, m.kind) {
            let i = choose|i: int| 0 <= i < t.len() && #[trigger] t[i] == (key, m.name, m.kind);
            assert(rows[i] == t[i]);
        }
    }
}

// ------------------------------------------------------------------------------- totals

/// Today's count goes on with each event of the day and begins anew with the first of
/// another day; so does today's active time.
pub proof fn lemma_today(a: DbWriter, b: DbWriter, v: DeltasModel, n: int, gained: int, day: u64)
    requires
        writer::counted(a, b, v, n, gained, day),
    ensures
        a.today_key == day ==> b.today_count == a.today_count + n && b.today_active
            == a.today_active + gained,
        a.today_key != day ==> b.today_count == n && b.today_active == gained,
        b.today_key == day,
        b.agg@ == v,
        b.alive == a.alive && b.flush_seq == a.flush_seq && b.recovery_leftover
            == a.recovery_leftover,
{
}

/// The numbers of days are those on the wall: years, months and days side by side. A count
/// that a table gives is none where it is negative; the larger of two is one of them, and
/// neither is above it.
pub proof fn lemma_numbers(d: crate::calendar::Date, a: int, b: int)
    requires
        d.valid(),
    ensures
        writer::date_number(d) / 10_000 == d.year,
        writer::date_number(d) % 10_000 / 100 == d.month,
        writer::date_number(d) % 100 == d.day,
        a >= 0 ==> writer::at_least_zero(a) == a,
        a < 0 ==> writer::at_least_zero(a) == 0,
        a <= writer::larger(a, b) && b <= writer::larger(a, b),
        writer::larger(a, b) == a || writer::larger(a, b) == b,
{
}

/// What is emptied has no counts; the session goes on: the registrations, the last event and
/// the application in front stay.
pub proof fn lemma_emptied(v: DeltasModel)
    ensures
        v.emptied().is_empty(),
        v.emptied().meta == v.meta && v.emptied().last_ts == v.last_ts && v.emptied().current_app
            == v.current_app,
{
}

/// What the parts that did not arrive have of a row, together.
pub open spec fn missing(
    parts: Seq<DeltasModel>,
    arrived: Seq<bool>,
    f: spec_fn(DeltasModel) -> int,
) -> int
    decreases parts.len(),
{
    if parts.len() == 0 {
        0
    } else {
        missing(parts.drop_last(), arrived.drop_last(), f) + (if arrived.last() {
            0
        } else {
            f(parts.last())
        })
    }
}

/// The counts of parts that did not arrive count again, row by row, and those of parts that
/// did do not.
pub proof fn lemma_failed_parts_return(
    v: DeltasModel,
    parts: Seq<DeltasModel>,
    arrived: Seq<bool>,
    day: i64,
    hour: i64,
    name: Seq<char>,
    key: Seq<char>,
)
    requires
        v.distinct(),
        parts.len() == arrived.len(),
    ensures
        ({
            let r = writer::with_failed(v, parts, arrived);
            &&& r.distinct()
            &&& tally::amount(r.daily, day) == tally::amount(v.daily, day) + missing(
                parts,
                arrived,
                |d: DeltasModel| tally::amount(d.daily, day),
            )
            &&& tally::amount(r.active, day) == tally::amount(v.active, day) + missing(
                parts,
                arrived,
                |d: DeltasModel| tally::amount(d.active, day),
            )
            &&& tally::amount(r.hourly, (day, hour)) == tally::amount(v.hourly, (day, hour))
                + missing(parts, arrived, |d: DeltasModel| tally::amount(d.hourly, (day, hour)))
            &&& tally::amount(r.keys, (day, name)) == tally::amount(v.keys, (day, name)) + missing(
                parts,
                arrived,
                |d: DeltasModel| tally::amount(d.keys, (day, name)),
            )
            &&& tally::amount(r.apps, (day, name)) == tally::amount(v.apps, (day, name)) + missing(
                parts,
                arrived,
                |d: DeltasModel| tally::amount(d.apps, (day, name)),
            )
            &&& tally::amount(r.devices, (day, name)) == tally::amount(v.devices, (day, name))
                + missing(parts, arrived, |d: DeltasModel| tally::amount(d.devices, (day, name)))
            &&& tally::amount(r.device_keys, (day, name, key)) == tally::amount(
                v.device_keys,
                (day, name, key),
            ) + missing(
                parts,
                arrived,
                |d: DeltasModel| tally::amount(d.device_keys, (day, name, key)),
            )
            &&& r.meta == v.meta && r.last_ts == v.last_ts && r.current_app == v.current_app
        }),
    decreases parts.len(),
{
    if parts.len() > 0 {
        let p = parts.last();
        let b = writer::with_failed(v, parts.drop_last(), arrived.drop_last());
        lemma_failed_parts_return(
            v,
            parts.drop_last(),
            arrived.drop_last(),
            day,
            hour,
            name,
            key,
        );
        tally::lemma_absorb_amount(b.daily, p.daily, day);
        tally::lemma_absorb_amount(b.active, p.active, day);
        tally::lemma_absorb_amount(b.hourly, p.hourly, (day, hour));
        tally::lemma_absorb_amount(b.keys, p.keys, (day, name));
        tally::lemma_absorb_amount(b.apps, p.apps, (day, name));
        tally::lemma_absorb_amount(b.devices, p.devices, (day, name));
        tally::lemma_absorb_amount(b.device_keys, p.device_keys, (day, name, key));
        tally::lemma_absorb_shape(b.daily, p.daily);
        tally::lemma_absorb_shape(b.active, p.active);
        tally::lemma_absorb_shape(b.hourly, p.hourly);
        tally::lemma_absorb_shape(b.keys, p.keys);
        tally::lemma_absorb_shape(b.apps, p.apps);
        tally::lemma_absorb_shape(b.devices, p.devices);
        tally::lemma_absorb_shape(b.device_keys, p.device_keys);
    }
}

/// As many batches arrived as are marked so.
pub proof fn lemma_arrivals(arrived: Seq<bool>, last: bool)
    ensures
        writer::arrivals(arrived.push(last)) == writer::arrivals(arrived) + (if last {
            1int
        } else {
            0
        }),
        writer::arrivals(Seq::empty()) == 0,
{
    assert(arrived.push(last).drop_last() =~= arrived);
}

// -------------------------------------------------------------------------- older files

/// How many events of a log satisfy `p`.
pub open spec fn events(log: LogModel, p: spec_fn((i64, Seq<char>)) -> bool) -> int
    decreases log.len(),
{
    if log.len() == 0 {
        0
    } else {
        events(log.drop_last(), p) + (if p(log.last()) {
            1int
        } else {
            0
        })
    }
}

/// The events of a day.
pub open spec fn logged_on(offset: int, day: i64) -> spec_fn((i64, Seq<char>)) -> bool {
    |e: (i64, Seq<char>)| legacy::log_day(e.0 as int, offset) as i64 == day
}

/// The events of an hour.
pub open spec fn logged_in(offset: int, day: i64, hour: i64) -> spec_fn((i64, Seq<char>)) -> bool {
    |e: (i64, Seq<char>)|
        legacy::log_day(e.0 as int, offset) as i64 == day && legacy::log_hour(
            e.0 as int,
            offset,
        ) as i64 == hour
}

/// The events of a day and a key.
pub open spec fn logged_as(offset: int, day: i64, key: Seq<char>) -> spec_fn(
    (i64, Seq<char>),
) -> bool {
    |e: (i64, Seq<char>)| legacy::log_day(e.0 as int, offset) as i64 == day && e.1 == key
}

proof fn lemma_logged_rows(
    y: YearModel,
    log: LogModel,
    offset: int,
    day: i64,
    hour: i64,
    key: Seq<char>,
)
    requires
        tally::distinct(y.daily),
        tally::distinct(y.seconds),
        tally::distinct(y.hourly),
        tally::distinct(y.keys),
    ensures
        ({
            let a = legacy::logged(y, log, offset);
            &&& tally::distinct(a.daily) && tally::distinct(a.seconds) && tally::distinct(a.hourly)
                && tally::distinct(a.keys)
            &&& tally::amount(a.daily, day) == tally::amount(y.daily, day) + events(
                log,
                logged_on(offset, day),
            )
            &&& tally::amount(a.seconds, day) == tally::amount(y.seconds, day)
            &&& tally::amount(a.hourly, (day, hour)) == tally::amount(y.hourly, (day, hour))
                + events(log, logged_in(offset, day, hour))
            &&& tally::amount(a.keys, (day, key)) == tally::amount(y.keys, (day, key)) + events(
                log,
                logged_as(offset, day, key),
            )
            &&& a.apps == y.apps && a.devices == y.devices && a.device_counts == y.device_counts
                && a.device_keys == y.device_keys
        }),
    decreases log.len(),
{
    if log.len() > 0 {
        let z = legacy::logged(y, log.drop_last(), offset);
        let e = log.last();
        let d = legacy::log_day(e.0 as int, offset) as i64;
        let h = legacy::log_hour(e.0 as int, offset) as i64;
        lemma_logged_rows(y, log.drop_last(), offset, day, hour, key);
        tally::lemma_bump_each(z.daily, d, 1, day);
        tally::lemma_bump_each(z.seconds, d, 0, day);
        tally::lemma_bump_each(z.hourly, (d, h), 1, (day, hour));
        tally::lemma_bump_each(z.keys, (d, e.1), 1, (day, key));
        tally::lemma_bump_shape(z.daily, d, 1);
        tally::lemma_bump_shape(z.seconds, d, 0);
        tally::lemma_bump_shape(z.hourly, (d, h), 1);
        tally::lemma_bump_shape(z.keys, (d, e.1), 1);
    }
}

/// The rows of a day that the name of a key today stands for.
pub open spec fn known_as(day: i64, name: Seq<char>) -> spec_fn((i64, Seq<char>)) -> bool {
    |v: (i64, Seq<char>)| v.0 == day && legacy::modern(v.1) == name
}

/// Each event of an old log counts once: in its day, in its hour, and under its key, which
/// goes by its name of today, together with what the tables have of that key under any name.
/// Nothing else changes; an empty log changes nothing.
pub proof fn lemma_log_rows(
    y: YearModel,
    log: LogModel,
    offset: int,
    day: i64,
    hour: i64,
    name: Seq<char>,
)
    requires
        tally::distinct(y.daily),
        tally::distinct(y.seconds),
        tally::distinct(y.hourly),
        tally::distinct(y.keys),
    ensures
        ({
            let a = legacy::migrated(y, log, offset);
            &&& tally::amount(a.daily, day) == tally::amount(y.daily, day) + events(
                log,
                logged_on(offset, day),
            )
            &&& tally::amount(a.hourly, (day, hour)) == tally::amount(y.hourly, (day, hour))
                + events(log, logged_in(offset, day, hour))
            &&& tally::amount(a.seconds, day) == tally::amount(y.seconds, day)
            &&& log.len() > 0 ==> tally::amount(a.keys, (day, name)) == tally::sum_if(
                legacy::logged(y, log, offset).keys,
                known_as(day, name),
            )
            &&& a.apps == y.apps && a.devices == y.devices && a.device_counts == y.device_counts
                && a.device_keys == y.device_keys
            &&& log.len() == 0 ==> a == y
        }),
{
    lemma_logged_rows(y, log, offset, day, hour, name);
    if log.len() > 0 {
        let k = legacy::logged(y, log, offset).keys;
        let q = legacy::every_row();
        let f = legacy::with_modern_name();
        let p = |v: (i64, Seq<char>)| v == (day, name);
        select::lemma_grouped_sum(k, q, f, p);
        tally::lemma_amount_is(legacy::renamed(k), (day, name), p);
        tally::lemma_sum_same(
            k,
            |v: (i64, Seq<char>)| p(f(v)) && q(v),
            known_as(day, name),
        );
    }
}

/// Before names are brought up to date, an event counts under the name that the log has.
pub proof fn lemma_log_keys(
    y: YearModel,
    log: LogModel,
    offset: int,
    day: i64,
    key: Seq<char>,
)
    requires
        tally::distinct(y.daily),
        tally::distinct(y.seconds),
        tally::distinct(y.hourly),
        tally::distinct(y.keys),
    ensures
        tally::amount(legacy::logged(y, log, offset).keys, (day, key)) == tally::amount(
            y.keys,
            (day, key),
        ) + events(log, logged_as(offset, day, key)),
{
    lemma_logged_rows(y, log, offset, day, 0, key);
}

/// The day and the hour of a log are those of the clock, from the beginning of 1970 on.
pub proof fn lemma_log_clock(time: int, offset: int)
    requires
        time + offset >= 0,
    ensures
        legacy::log_day(time, offset) == days::day_at(time, offset),
        legacy::log_hour(time, offset) == days::hour_at(time, offset),
{
}

/// A letter or a digit that was noted with the control key goes by its own name, a letter as
/// a capital; all other names stay, but for that of the delete key.
pub proof fn lemma_modern_names(c: char, name: Seq<char>)
    ensures
        'A' <= c <= 'Z' ==> legacy::modern("Ctrl+"@ + seq![c]) == seq![c],
        'a' <= c <= 'z' ==> legacy::modern("Ctrl+"@ + seq![c]) == seq![text::upper(c)],
        '0' <= c <= '9' ==> legacy::modern("Ctrl+"@ + seq![c]) == seq![c],
        legacy::modern("Ctrl+127"@) == "Delete"@,
        !text::starts(name, "Ctrl+"@) ==> legacy::modern(name) == name,
        name.len() != 6 && name != "Ctrl+127"@ ==> legacy::modern(name) == name,
{
    reveal_strlit("Ctrl+");
    reveal_strlit("Ctrl+127");
    let s = "Ctrl+"@ + seq![c];
    assert(s.take(5) =~= "Ctrl+"@);
    assert(s[5] == c);
    let d = "Ctrl+127"@;
    assert(d.take(5) =~= "Ctrl+"@);
    assert(d.len() == 8);
    if name == d {
        assert(text::starts(name, "Ctrl+"@));
    }
}

/// The rows of a day whose device has a path.
pub open spec fn on_path(day: i64, path: Seq<char>) -> spec_fn((i64, Seq<char>)) -> bool {
    |v: (i64, Seq<char>)| v.0 == day && v.1 == path
}

/// The rows of a day and a key whose device has a path.
pub open spec fn on_path_as(day: i64, path: Seq<char>, key: Seq<char>) -> spec_fn(
    (i64, Seq<char>, Seq<char>),
) -> bool {
    |v: (i64, Seq<char>, Seq<char>)| v.0 == day && v.1 == path && v.2 == key
}

/// What older tables have of a device under its path joins what the tables have of it under
/// its number, on each day and for each key.
pub proof fn lemma_old_devices_join(
    y: YearModel,
    devices: Named,
    counts: Seq<((i64, Seq<char>), int)>,
    keys: Seq<((i64, Seq<char>, Seq<char>), int)>,
    day: i64,
    path: Seq<char>,
    key: Seq<char>,
)
    requires
        store::registry_ok(y.devices),
        tally::distinct(y.device_counts),
        tally::distinct(y.device_keys),
        store::ids_fit(legacy::with_legacy(y, devices, counts, keys).devices),
        store::knows(legacy::with_legacy(y, devices, counts, keys).devices, path),
    ensures
        ({
            let w = legacy::with_legacy(y, devices, counts, keys);
            let id = store::id_of(w.devices, path) as i64;
            &&& tally::amount(w.device_counts, (day, id)) == tally::amount(
                y.device_counts,
                (day, id),
            ) + tally::sum_if(counts, on_path(day, path))
            &&& tally::amount(w.device_keys, (day, id, key)) == tally::amount(
                y.device_keys,
                (day, id, key),
            ) + tally::sum_if(keys, on_path_as(day, path, key))
        }),
{
    let w = legacy::with_legacy(y, devices, counts, keys);
    let r = w.devices;
    let r1 = legacy::learned(y.devices, devices);
    let r2 = legacy::learned(r1, legacy::unnamed(counts));
    legacy::lemma_learned(y.devices, devices);
    legacy::lemma_learned(r1, legacy::unnamed(counts));
    legacy::lemma_learned(r2, legacy::unnamed_keys(keys));
    let id = store::id_of(r, path) as i64;
    let f = legacy::path_to_id(r);
    let g = legacy::key_path_to_id(r);
    tally::lemma_absorb_amount(y.device_counts, tally::rekey(counts, f), (day, id));
    tally::lemma_absorb_amount(y.device_keys, tally::rekey(keys, g), (day, id, key));
    let p = |v: (i64, i64)| v == (day, id);
    let q = |v: (i64, i64, Seq<char>)| v == (day, id, key);
    tally::lemma_rekey_sum(counts, f, p);
    tally::lemma_rekey_sum(keys, g, q);
    tally::lemma_amount_is(tally::rekey(counts, f), (day, id), p);
    tally::lemma_amount_is(tally::rekey(keys, g), (day, id, key), q);
    let pf = |v: (i64, Seq<char>)| p(f(v));
    let qg = |v: (i64, Seq<char>, Seq<char>)| q(g(v));
    assert forall|i: int| 0 <= i < counts.len() implies #[trigger] pf(counts[i].0) == on_path(
        day,
        path,
    )(counts[i].0) by {
        let u = legacy::unnamed(counts);
        assert(store::knows(r2, u[i].0));
        assert(store::knows(r, counts[i].0.1));
        lemma_same_id(r, counts[i].0.1, path);
    }
    assert forall|i: int| 0 <= i < keys.len() implies #[trigger] qg(keys[i].0) == on_path_as(
        day,
        path,
        key,
    )(keys[i].0) by {
        let u = legacy::unnamed_keys(keys);
        assert(store::knows(r, u[i].0));
        lemma_same_id(r, keys[i].0.1, path);
    }
    lemma_sum_of_rows(counts, pf, on_path(day, path));
    lemma_sum_of_rows(keys, qg, on_path_as(day, path, key));
}

proof fn lemma_same_id(r: store::Registry, a: Seq<char>, b: Seq<char>)
    requires
        store::registry_ok(r),
        store::ids_fit(r),
        store::knows(r, a),
        store::knows(r, b),
    ensures
        store::id_of(r, a) as i64 == store::id_of(r, b) as i64 <==> a == b,
{
    let i = choose|i: int| 0 <= i < r.len() && (#[trigger] r[i]).key == a;
    let j = choose|j: int| 0 <= j < r.len() && (#[trigger] r[j]).key == b;
    store::lemma_id_of(r, i);
    store::lemma_id_of(r, j);
    if a != b {
        store::lemma_ids_differ(r, a, b);
    }
}

proof fn lemma_sum_of_rows<V>(
    s: Seq<(V, int)>,
    p: spec_fn(V) -> bool,
    q: spec_fn(V) -> bool,
)
    requires
        forall|i: int| 0 <= i < s.len() ==> #[trigger] p(s[i].0) == q(s[i].0),
    ensures
        tally::sum_if(s, p) == tally::sum_if(s, q),
    decreases s.len(),
{
    if s.len() > 0 {
        let t = s.drop_last();
        assert forall|i: int| 0 <= i < t.len() implies #[trigger] p(t[i].0) == q(t[i].0) by {
            assert(t[i] == s[i]);
            assert(p(s[i].0) == q(s[i].0));
        }
        lemma_sum_of_rows(t, p, q);
        assert(s[s.len() - 1] == s.last());
        assert(p(s[s.len() - 1].0) == q(s[s.len() - 1].0));
    }
}

// -------------------------------------------------------------------------- registration

/// Whether the tables have a device under a key with a name, a kind and a number.
pub open spec fn has_device(
    r: store::Registry,
    key: Seq<char>,
    name: Seq<char>,
    kind: Seq<char>,
    id: int,
) -> bool {
    exists|i: int|
        0 <= i < r.len() && #[trigger] r[i] == (store::DeviceModel { id, key, name, kind })
}

/// A device that is registered has the name and the kind that were given, and its number; a
/// new one has a number that none had. All other devices stay as they are.
pub proof fn lemma_register(
    r: store::Registry,
    key: Seq<char>,
    name: Seq<char>,
    kind: Seq<char>,
    other: Seq<char>,
    n: Seq<char>,
    k: Seq<char>,
    id: int,
)
    requires
        store::registry_ok(r),
    ensures
        ({
            let a = store::registered(r, key, name, kind);
            &&& has_device(a, key, name, kind, store::id_of(a, key))
            &&& store::knows(r, key) ==> store::id_of(a, key) == store::id_of(r, key)
            &&& !store::knows(r, key) ==> !store::knows_id(r, store::id_of(a, key))
            &&& other != key ==> (has_device(a, other, n, k, id) <==> has_device(r, other, n, k, id))
        }),
{
    let a = store::registered(r, key, name, kind);
    store::lemma_registered(r, key, name, kind);
    store::lemma_max_id(r);
    if store::knows(r, key) {
        let i = choose|i: int| 0 <= i < r.len() && (#[trigger] r[i]).key == key;
        store::lemma_id_of(a, i);
        assert(a[i] == (store::DeviceModel { id: store::id_of(a, key), key, name, kind }));
    } else {
        let i = r.len() as int;
        store::lemma_id_of(a, i);
        assert(a[i] == (store::DeviceModel { id: store::id_of(a, key), key, name, kind }));
        if store::knows_id(r, store::id_of(a, key)) {
            let j = choose|j: int| 0 <= j < r.len() && (#[trigger] r[j]).id == store::id_of(a, key);
            assert(r[j].id <= store::max_id(r));
        }
    }
    if other != key {
        let d = store::DeviceModel { id, key: other, name: n, kind: k };
        if has_device(r, other, n, k, id) {
            let j = choose|j: int| 0 <= j < r.len() && #[trigger] r[j] == d;
            assert(a[j] == d);
        }
        if has_device(a, other, n, k, id) {
            let j = choose|j: int| 0 <= j < a.len() && #[trigger] a[j] == d;
            assert(r[j] == d);
        }
    }
}

/// The tables take the name and the kind of a device from the last registration of it; a
/// device that counted without any is noted by what can be told from its key, and not
/// renamed where it is known.
pub proof fn lemma_flush_registers(
    r: store::Registry,
    meta: MetaList,
    m: (Seq<char>, MetaModel),
    devices: Seq<Seq<char>>,
    d: Seq<char>,
)
    requires
        store::registry_ok(r),
    ensures
        ({
            let key = hardware::identity_of(m.0);
            let a = store::registered_meta(r, meta.push(m));
            let dk = hardware::identity_of(d);
            let before = store::registered_missing(r, devices);
            let b = store::registered_missing(r, devices.push(d));
            &&& has_device(a, key, m.1.name, m.1.kind, store::id_of(a, key))
            &&& store::knows(before, dk) ==> b == before
            &&& !store::knows(before, dk) ==> has_device(
                b,
                dk,
                hardware::fallback_name(d),
                "unknown"@,
                store::id_of(b, dk),
            )
        }),
{
    let q = meta.push(m);
    assert(q.drop_last() =~= meta);
    assert(q.last() == m);
    store::lemma_registered_meta(r, meta);
    let key = hardware::identity_of(m.0);
    let e = store::registered_meta(r, meta);
    lemma_register(e, key, m.1.name, m.1.kind, key, m.1.name, m.1.kind, 0);
    let ds = devices.push(d);
    assert(ds.drop_last() =~= devices);
    assert(ds.last() == d);
    store::lemma_registered_missing(r, devices);
    let before = store::registered_missing(r, devices);
    let dk = hardware::identity_of(d);
    if !store::knows(before, dk) {
        lemma_register(
            before,
            dk,
            hardware::fallback_name(d),
            "unknown"@,
            dk,
            "unknown"@,
            "unknown"@,
            0,
        );
    }
}

/// Of the registrations of a recovery file the last one of a device counts, under what
/// identifies the device; those of other devices stay as they were.
pub proof fn lemma_last_registration_counts(
    meta: MetaList,
    m: (Seq<char>, MetaModel),
    other: Seq<char>,
    x: MetaModel,
)
    ensures
        ({
            let a = writer::meta_by_identity(meta);
            let b = writer::meta_by_identity(meta.push(m));
            let id = hardware::identity_of(m.0);
            &&& registered(b, id, m.1)
            &&& registered(b, id, x) ==> x == m.1
            &&& other != id ==> (registered(b, other, x) <==> registered(a, other, x))
        }),
{
    let a = writer::meta_by_identity(meta);
    let q = meta.push(m);
    assert(q.drop_last() =~= meta);
    assert(q.last() == m);
    let b = writer::meta_by_identity(q);
    let id = hardware::identity_of(m.0);
    if writer::meta_has(a, id) {
        let i = choose|i: int| 0 <= i < a.len() && (#[trigger] a[i]).0 == id;
        assert(b[i] == (id, m.1));
    } else {
        assert(b[a.len() as int] == (id, m.1));
    }
    if registered(b, id, x) {
        let i = choose|i: int| 0 <= i < b.len() && (#[trigger] b[i]).0 == id && b[i].1 == x;
        if !writer::meta_has(a, id) && i < a.len() {
            assert(a[i] == b[i]);
        }
    }
    if other != id {
        if registered(a, other, x) {
            let i = choose|i: int| 0 <= i < a.len() && (#[trigger] a[i]).0 == other && a[i].1 == x;
            assert(b[i] == a[i]);
        }
        if registered(b, other, x) {
            let i = choose|i: int| 0 <= i < b.len() && (#[trigger] b[i]).0 == other && b[i].1 == x;
            assert(a[i] == b[i]);
        }
    }
}

/// A device that comes with the days of another file keeps its name and its kind, unless the
/// file knows it already; then it stays as the file has it. So does one of an older table.
pub proof fn lemma_devices_come_along(
    r: store::Registry,
    other: store::Registry,
    d: store::DeviceModel,
    list: Named,
    e: (Seq<char>, Seq<char>, Seq<char>),
)
    requires
        store::registry_ok(r),
    ensures
        ({
            let before = archive::taught(r, other);
            let after = archive::taught(r, other.push(d));
            let b = legacy::learned(r, list);
            let a = legacy::learned(r, list.push(e));
            &&& store::knows(before, d.key) ==> after == before
            &&& !store::knows(before, d.key) ==> has_device(
                after,
                d.key,
                d.name,
                d.kind,
                store::id_of(after, d.key),
            )
            &&& store::knows(b, e.0) ==> a == b
            &&& !store::knows(b, e.0) ==> has_device(a, e.0, e.1, e.2, store::id_of(a, e.0))
        }),
{
    let q = other.push(d);
    assert(q.drop_last() =~= other);
    assert(q.last() == d);
    archive::lemma_taught(r, other);
    let before = archive::taught(r, other);
    if !store::knows(before, d.key) {
        lemma_register(before, d.key, d.name, d.kind, d.key, d.name, d.kind, 0);
    }
    let l = list.push(e);
    assert(l.drop_last() =~= list);
    assert(l.last() == e);
    legacy::lemma_learned(r, list);
    let b = legacy::learned(r, list);
    if !store::knows(b, e.0) {
        lemma_register(b, e.0, e.1, e.2, e.0, e.1, e.2, 0);
    }
}

/// A number without a device gets one that is named by it, so that its counts can move; a
/// number with a device changes nothing.
pub proof fn lemma_numbers_get_devices(r: store::Registry, id: i64)
    ensures
        store::knows_id(r, id as int) ==> archive::adopted_one(r, id) == r,
        ({
            let key = "device-id:"@ + text::dec(id as int);
            !store::knows_id(r, id as int) && !store::knows(r, key) ==> has_device(
                archive::adopted_one(r, id),
                key,
                key,
                "unknown"@,
                id as int,
            ) && archive::adopted_one(r, id).len() == r.len() + 1 && archive::adopted_one(
                r,
                id,
            ).drop_last() == r
        }),
{
    let key = "device-id:"@ + text::dec(id as int);
    let a = archive::adopted_one(r, id);
    if !store::knows_id(r, id as int) && !store::knows(r, key) {
        assert(a[r.len() as int] == (store::DeviceModel {
            id: id as int,
            key,
            name: key,
            kind: "unknown"@,
        }));
        assert(a.drop_last() =~= r);
    }
}

} // verus!
