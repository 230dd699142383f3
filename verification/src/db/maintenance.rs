//! Changing the recorded data as a whole: removing a key, cleaning up and clearing.
use vstd::prelude::*;
use vstd::string::*;

use crate::calendar::{day_key_of_date, Date};
use crate::db::queries;
use crate::db::repair;
use crate::db::repair::take_out;
use crate::db::store;
use crate::db::store::{Device, Registry, Store, StoreModel, YearDb, YearModel};
use crate::tally;
use crate::tally::Dated;
use crate::text;
use crate::text::{str_eq, trim};

verus! {

// -------------------------------------------------------------------------- one key

/// How often a key was pressed on a day.
pub open spec fn pressed(y: YearModel, day: i64, key: Seq<char>) -> int {
    tally::amount(y.keys, (day, key))
}

/// What is left of a day's count after `removed` presses are taken out.
pub open spec fn day_after(y: YearModel, day: i64, removed: int) -> int {
    if tally::amount(y.daily, day) > removed {
        tally::amount(y.daily, day) - removed
    } else {
        0
    }
}

/// The tables without a key on a day: its presses leave the day and, by their share, the
/// hours of the day. A day left without presses is dropped.
pub open spec fn without_key(y: YearModel, day: i64, key: Seq<char>) -> YearModel {
    let removed = pressed(y, day, key);
    let before = tally::amount(y.daily, day);
    let left = day_after(y, day, removed);
    let daily = tally::put(y.daily, day, left);
    if before > 0 {
        YearModel {
            keys: tally::without(y.keys, (day, key)),
            daily: if left == 0 {
                tally::without(daily, day)
            } else {
                daily
            },
            seconds: if left == 0 {
                tally::without(y.seconds, day)
            } else {
                y.seconds
            },
            hourly: repair::positive_on(repair::spread(y.hourly, day, removed, before), day),
            ..y
        }
    } else {
        YearModel { keys: tally::without(y.keys, (day, key)), daily, ..y }
    }
}

proof fn lemma_put_keys(s: Seq<(i64, int)>, k: i64, n: int)
    ensures
        store::same_keys(tally::put(s, k, n), s),
{
    let p = tally::put(s, k, n);
    assert forall|x: i64| tally::has_key(p, x) <==> tally::has_key(s, x) by {
        if tally::has_key(p, x) {
            let i = choose|i: int| 0 <= i < p.len() && (#[trigger] p[i]).0 == x;
            assert(s[i].0 == x);
        }
        if tally::has_key(s, x) {
            let i = choose|i: int| 0 <= i < s.len() && (#[trigger] s[i]).0 == x;
            assert(p[i].0 == x);
        }
    }
}

proof fn lemma_without_keys(a: Seq<(i64, int)>, b: Seq<(i64, int)>, k: i64)
    requires
        store::same_keys(a, b),
    ensures
        store::same_keys(tally::without(a, k), tally::without(b, k)),
{
    let q = |v: i64| v != k;
    lemma_without(a, k);
    lemma_without(b, k);
    assert forall|x: i64|
        tally::has_key(tally::without(a, k), x) <==> tally::has_key(tally::without(b, k), x) by {
        assert(tally::has_key(a, x) <==> tally::has_key(b, x));
    }
}

proof fn lemma_without<V>(s: Seq<(V, int)>, k: V)
    ensures
        forall|x: V| #[trigger] tally::has_key(tally::without(s, k), x) <==> tally::has_key(s, x)
            && x != k,
{
    tally::lemma_keep(s, |v: V| v != k);
}

proof fn lemma_without_amount<V>(s: Seq<(V, int)>, k: V, x: V)
    requires
        x != k,
    ensures
        tally::amount(tally::without(s, k), x) == tally::amount(s, x),
{
    tally::lemma_keep_amount(s, |v: V| v != k, x);
}

/// Removes a key of a day from the tables of a year and tells how often it was pressed.
/// Nothing changes where it was not.
pub fn delete_key(db: &mut YearDb, day: i64, key: &str) -> (r: i64)
    requires
        old(db).wf(),
    ensures
        final(db).wf(),
        r == pressed(old(db)@, day, key@),
        r == 0 ==> final(db)@ == old(db)@,
        r > 0 ==> final(db)@ == without_key(old(db)@, day, key@),
        r >= 0,
{
    let ghost y = db@;
    let row = (day, key.to_owned());
    let removed = db.keys.get(&row);
    assert(row@ == (day, key@));
    if removed <= 0 {
        return 0;
    }
    let before = db.daily.get(&day);
    let left: i64 = if before > removed {
        before - removed
    } else {
        0
    };
    proof {
        tally::lemma_amount_bound(y.daily, day);
        lemma_put_keys(y.daily, day, left as int);
    }
    db.keys.drop_key(&row);
    db.daily.put(day, left);
    let ghost d1 = db@.daily;
    assert(store::same_keys(d1, y.seconds)) by {
        assert forall|x: i64| tally::has_key(d1, x) <==> tally::has_key(y.seconds, x) by {
            assert(tally::has_key(d1, x) <==> tally::has_key(y.daily, x));
            assert(tally::has_key(y.daily, x) <==> tally::has_key(y.seconds, x));
        }
    }
    if before > 0 {
        let hours = take_out(&db.hourly, day, removed, before);
        db.hourly = hours;
        if left == 0 {
            proof {
                lemma_without_keys(d1, y.seconds, day);
            }
            db.daily.drop_key(&day);
            db.seconds.drop_key(&day);
        }
    }
    assert(db@ =~= without_key(y, day, key@));
    removed
}

/// Removes a key of today and tells how often it was pressed today. The name is trimmed
/// first; nothing changes for a blank name, for a key that was not pressed, and where the
/// tables cannot be read.
pub fn delete_key_today(st: &mut Store, key_name: &str, today: &Date) -> (r: i64)
    requires
        old(st).wf(),
        today.valid(),
    ensures
        final(st).wf(),
        ({
            let key = text::trimmed(key_name@);
            let y = store::tables_of(old(st)@, today.year);
            let day = today.number() as i64;
            if key.len() > 0 && pressed(y, day, key) > 0 {
                &&& r == pressed(y, day, key)
                &&& final(st)@ == store::with_tables(
                    old(st)@,
                    today.year,
                    without_key(y, day, key),
                )
            } else {
                r == 0 && final(st)@ == old(st)@
            }
        }),
{
    let key = trim(key_name);
    let ghost m = st@;
    proof {
        reveal_strlit("");
        st.one_each();
        if key@.len() == 0 {
            assert(key@ =~= ""@);
        }
    }
    if str_eq(key.as_str(), "") {
        return 0;
    }
    let day = day_key_of_date(today);
    let i = st.find(today.year);
    if i == st.files.len() {
        proof {
            assert(store::tables_of(m, today.year) == store::no_tables());
            assert(tally::amount(store::no_tables().keys, (day, key@)) == 0);
        }
        return 0;
    }
    if !st.is_writable(today.year) {
        proof {
            lemma_unreadable(m, today.year);
            assert(tally::amount(store::no_tables().keys, (day, key@)) == 0);
        }
        return 0;
    }
    proof {
        assert(m[i as int].0 == today.year);
        store::lemma_tables_at(m, i as int);
        let y = store::tables_of(m, today.year);
        store::lemma_with_tables(m, today.year, y);
        store::lemma_with_tables(m, today.year, without_key(y, day, key@));
        assert(store::with_tables(m, today.year, y) =~= m) by {
            assert forall|k: int| 0 <= k < m.len() implies store::with_tables(
                m,
                today.year,
                y,
            )[k] == m[k] by {
                if m[k].0 == today.year {
                    if k < i {
                        assert(m[k].0 != m[i as int].0);
                    }
                    if i < k {
                        assert(m[i as int].0 != m[k].0);
                    }
                }
            }
        }
    }
    let mut d = st.take_tables(today.year);
    let removed = delete_key(&mut d, day, key.as_str());
    st.put_tables(today.year, d);
    removed
}

proof fn lemma_unreadable(st: StoreModel, year: i32)
    requires
        store::one_per_year(st),
        !store::writable(st, year),
    ensures
        store::tables_of(st, year) == store::no_tables(),
{
    let j = choose|j: int| 0 <= j < st.len() && (#[trigger] st[j]).0 == year && st[j].1 is None;
    if exists|i: int| 0 <= i < st.len() && (#[trigger] st[i]).0 == year && st[i].1 is Some {
        let i = choose|i: int| 0 <= i < st.len() && (#[trigger] st[i]).0 == year && st[i].1 is Some;
        if i < j {
            assert(st[i].0 != st[j].0);
        }
        if j < i {
            assert(st[j].0 != st[i].0);
        }
    }
}

/// Removing a key keeps a day consistent: where its count, its keys and its hours all add
/// up to the same before, they do after, less the presses of that key. A day left without
/// presses has no row. No hour grows, and every hour that is left has presses. Other keys
/// and other days stay as they are.
pub proof fn lemma_delete_keeps_day_consistent(y: YearModel, day: i64, key: Seq<char>)
    requires
        tally::distinct(y.daily),
        tally::distinct(y.keys),
        tally::distinct(y.hourly),
        tally::nonneg(y.keys),
        tally::nonneg(y.hourly),
        pressed(y, day, key) > 0,
        tally::amount(y.daily, day) == repair::keys_on(y.keys, day),
        tally::amount(y.daily, day) == repair::hours_on(y.hourly, day),
    ensures
        ({
            let w = without_key(y, day, key);
            let left = tally::amount(y.daily, day) - pressed(y, day, key);
            &&& left >= 0
            &&& tally::amount(w.daily, day) == left
            &&& tally::has_key(w.daily, day) == (left > 0)
            &&& repair::keys_on(w.keys, day) == left
            &&& repair::hours_on(w.hourly, day) == left
            &&& !tally::has_key(w.keys, (day, key))
            &&& forall|k: (i64, Seq<char>)|
                k != (day, key) ==> #[trigger] tally::amount(w.keys, k) == tally::amount(y.keys, k)
            &&& forall|i: int|
                0 <= i < w.hourly.len() && (#[trigger] w.hourly[i]).0.0 == day ==> 0
                    < w.hourly[i].1 <= tally::amount(y.hourly, w.hourly[i].0)
            &&& forall|d: i64|
                d != day ==> #[trigger] repair::hours_of(w.hourly, d) == repair::hours_of(
                    y.hourly,
                    d,
                )
            &&& forall|d: i64|
                d != day ==> #[trigger] tally::amount(w.daily, d) == tally::amount(y.daily, d)
        }),
{
    let w = without_key(y, day, key);
    let removed = pressed(y, day, key);
    let before = tally::amount(y.daily, day);
    lemma_keys_less(y.keys, day, key);
    assert(before >= removed) by {
        lemma_key_in_day(y.keys, day, key);
    }
    let left = before - removed;
    assert(tally::has_key(y.daily, day)) by {
        if !tally::has_key(y.daily, day) {
            tally::lemma_amount_missing(y.daily, day);
        }
    }
    tally::lemma_put(y.daily, day, left);
    let d1 = tally::put(y.daily, day, left);
    lemma_put_keys(y.daily, day, left);
    assert(tally::amount(d1, day) == left) by {
        tally::lemma_bump_amount(y.daily, day, left - before);
    }
    lemma_without(d1, day);
    if left == 0 {
        tally::lemma_amount_missing(tally::without(d1, day), day);
    }
    assert forall|d: i64| d != day implies #[trigger] tally::amount(w.daily, d) == tally::amount(
        y.daily,
        d,
    ) by {
        tally::lemma_bump_each(y.daily, day, left - before, d);
        lemma_without_amount(d1, day, d);
    }
    lemma_without(y.keys, (day, key));
    assert forall|k: (i64, Seq<char>)| k != (day, key) implies #[trigger] tally::amount(w.keys, k)
        == tally::amount(y.keys, k) by {
        lemma_without_amount(y.keys, (day, key), k);
    }
    repair::lemma_scaled_sum(y.hourly, day, left);
    assert(repair::scaled(y.hourly, day, left) == w.hourly);
    repair::lemma_taken_hours(y.hourly, day, removed, before);
    assert forall|d: i64| d != day implies #[trigger] repair::hours_of(w.hourly, d)
        == repair::hours_of(y.hourly, d) by {
        repair::lemma_scaled_others(y.hourly, day, left, d);
    }
}

proof fn lemma_keys_less(keys: Seq<((i64, Seq<char>), int)>, day: i64, key: Seq<char>)
    ensures
        repair::keys_on(tally::without(keys, (day, key)), day) == repair::keys_on(keys, day)
            - tally::amount(keys, (day, key)),
    decreases keys.len(),
{
    if keys.len() > 0 {
        let t = keys.drop_last();
        lemma_keys_less(t, day, key);
        if keys.last().0 != (day, key) {
            tally::lemma_sum_push(
                tally::without(t, (day, key)),
                keys.last(),
                tally::on_day::<(i64, String)>(day as int),
            );
        }
    }
}

proof fn lemma_key_in_day(keys: Seq<((i64, Seq<char>), int)>, day: i64, key: Seq<char>)
    requires
        tally::nonneg(keys),
    ensures
        tally::amount(keys, (day, key)) <= repair::keys_on(keys, day),
    decreases keys.len(),
{
    if keys.len() > 0 {
        let t = keys.drop_last();
        assert forall|i: int| 0 <= i < t.len() implies (#[trigger] t[i]).1 >= 0 by {
            assert(t[i] == keys[i]);
        }
        lemma_key_in_day(t, day, key);
        assert(keys[keys.len() - 1] == keys.last());
    }
}

// -------------------------------------------------------------------------- clean-up

/// Whether a device has a row.
pub open spec fn in_use(
    id: int,
    counts: Seq<((i64, i64), int)>,
    keys: Seq<((i64, i64, Seq<char>), int)>,
) -> bool {
    (exists|i: int| 0 <= i < counts.len() && (#[trigger] counts[i]).0.1 == id) || (exists|i: int|
        0 <= i < keys.len() && (#[trigger] keys[i]).0.1 == id)
}

/// The devices that have a row.
pub open spec fn pruned(
    r: Registry,
    counts: Seq<((i64, i64), int)>,
    keys: Seq<((i64, i64, Seq<char>), int)>,
) -> Registry
    decreases r.len(),
{
    if r.len() == 0 {
        r
    } else {
        let q = pruned(r.drop_last(), counts, keys);
        if in_use(r.last().id, counts, keys) {
            q.push(r.last())
        } else {
            q
        }
    }
}

/// The tables with the days from `cutoff` on, and the devices that these need.
pub open spec fn cleaned(y: YearModel, cutoff: int) -> YearModel {
    let counts = tally::keep(y.device_counts, tally::days_from::<(i64, i64)>(cutoff));
    let keys = tally::keep(y.device_keys, tally::days_from::<(i64, i64, String)>(cutoff));
    YearModel {
        daily: tally::keep(y.daily, tally::days_from::<i64>(cutoff)),
        seconds: tally::keep(y.seconds, tally::days_from::<i64>(cutoff)),
        hourly: tally::keep(y.hourly, tally::days_from::<(i64, i64)>(cutoff)),
        keys: tally::keep(y.keys, tally::days_from::<(i64, String)>(cutoff)),
        apps: tally::keep(y.apps, tally::days_from::<(i64, String)>(cutoff)),
        devices: pruned(y.devices, counts, keys),
        device_counts: counts,
        device_keys: keys,
    }
}

/// The rows of the tables, the registry not counted.
pub open spec fn row_count(y: YearModel) -> int {
    (y.daily.len() + y.hourly.len() + y.keys.len() + y.apps.len() + y.device_counts.len()
        + y.device_keys.len()) as int
}

/// A file with its tables cleaned; one without data or that cannot be read stays.
pub open spec fn cleaned_file(f: (i32, Option<YearModel>), cutoff: int) -> (
    i32,
    Option<YearModel>,
) {
    match f.1 {
        Some(y) => if y.is_empty() {
            f
        } else {
            (f.0, Some(cleaned(y, cutoff)))
        },
        None => f,
    }
}

pub open spec fn cleaned_store(st: StoreModel, cutoff: int) -> StoreModel {
    Seq::new(st.len(), |i: int| cleaned_file(st[i], cutoff))
}

/// The rows that cleaning a file removes.
pub open spec fn cleaned_rows(f: (i32, Option<YearModel>), cutoff: int) -> int {
    match f.1 {
        Some(y) => row_count(y) - row_count(cleaned(y, cutoff)),
        None => 0,
    }
}

pub open spec fn all_cleaned_rows(st: StoreModel, cutoff: int) -> int
    decreases st.len(),
{
    if st.len() == 0 {
        0
    } else {
        all_cleaned_rows(st.drop_last(), cutoff) + cleaned_rows(st.last(), cutoff)
    }
}

proof fn lemma_pruned(
    r: Registry,
    counts: Seq<((i64, i64), int)>,
    keys: Seq<((i64, i64, Seq<char>), int)>,
)
    ensures
        forall|i: int|
            0 <= i < pruned(r, counts, keys).len() ==> r.contains(
                #[trigger] pruned(r, counts, keys)[i],
            ) && in_use(pruned(r, counts, keys)[i].id, counts, keys),
        forall|i: int|
            0 <= i < r.len() && in_use((#[trigger] r[i]).id, counts, keys) ==> pruned(
                r,
                counts,
                keys,
            ).contains(r[i]),
        store::registry_ok(r) ==> store::registry_ok(pruned(r, counts, keys)),
    decreases r.len(),
{
    if r.len() > 0 {
        let t = r.drop_last();
        let q = pruned(t, counts, keys);
        let p = pruned(r, counts, keys);
        lemma_pruned(t, counts, keys);
        assert(r[r.len() - 1] == r.last());
        assert forall|i: int| 0 <= i < p.len() implies r.contains(#[trigger] p[i]) && in_use(
            p[i].id,
            counts,
            keys,
        ) by {
            if i < q.len() {
                assert(p[i] == q[i]);
                let j = choose|j: int| 0 <= j < t.len() && t[j] == q[i];
                assert(r[j] == p[i]);
            }
        }
        assert forall|i: int| 0 <= i < r.len() && in_use((#[trigger] r[i]).id, counts, keys) implies
            p.contains(r[i]) by {
            if i < t.len() {
                assert(t[i] == r[i]);
                let j = choose|j: int| 0 <= j < q.len() && q[j] == t[i];
                assert(p[j] == r[i]);
            } else {
                assert(p[q.len() as int] == r[i]);
            }
        }
        if store::registry_ok(r) {
            assert(store::registry_ok(t)) by {
                assert forall|i: int, j: int| 0 <= i < j < t.len() implies (#[trigger] t[i]).id != (
                #[trigger] t[j]).id && t[i].key != t[j].key by {
                    assert(t[i] == r[i] && t[j] == r[j]);
                }
            }
            assert forall|i: int, j: int| 0 <= i < j < p.len() implies (#[trigger] p[i]).id != (
            #[trigger] p[j]).id && p[i].key != p[j].key by {
                assert(p[i] == q[i]);
                if j < q.len() {
                    assert(p[j] == q[j]);
                } else {
                    let k = choose|k: int| 0 <= k < t.len() && t[k] == q[i];
                    assert(r[k] == q[i]);
                    assert(r[k].id != r[r.len() - 1].id);
                }
            }
        }
    }
}

fn used(db: &YearDb, id: i64) -> (r: bool)
    ensures
        r == in_use(id as int, db@.device_counts, db@.device_keys),
{
    let ghost counts = db@.device_counts;
    let ghost keys = db@.device_keys;
    let mut i: usize = 0;
    while i < db.device_counts.rows.len()
        invariant
            i <= db.device_counts.rows.len(),
            counts == db@.device_counts,
            forall|k: int| 0 <= k < i ==> (#[trigger] counts[k]).0.1 != id,
        decreases db.device_counts.rows.len() - i,
    {
        assert(counts[i as int].0.1 == db.device_counts.rows@[i as int].0.1);
        if db.device_counts.rows[i].0.1 == id {
            return true;
        }
        i = i + 1;
    }
    let mut j: usize = 0;
    while j < db.device_keys.rows.len()
        invariant
            j <= db.device_keys.rows.len(),
            keys == db@.device_keys,
            forall|k: int| 0 <= k < j ==> (#[trigger] keys[k]).0.1 != id,
        decreases db.device_keys.rows.len() - j,
    {
        assert(keys[j as int].0.1 == db.device_keys.rows@[j as int].0.1);
        if db.device_keys.rows[j].0.1 == id {
            return true;
        }
        j = j + 1;
    }
    false
}

/// Drops the devices that have no row.
pub fn prune_orphan_devices(db: &mut YearDb)
    requires
        old(db).wf(),
    ensures
        final(db).wf(),
        final(db)@ == (YearModel {
            devices: pruned(old(db)@.devices, old(db)@.device_counts, old(db)@.device_keys),
            ..old(db)@
        }),
{
    let ghost y = db@;
    let mut left: Vec<Device> = Vec::new();
    let mut i: usize = 0;
    assert(store::registry(left@) =~= pruned(y.devices.take(0), y.device_counts, y.device_keys));
    while i < db.devices.len()
        invariant
            i <= db.devices.len(),
            db@ == y,
            store::registry(left@) == pruned(
                y.devices.take(i as int),
                y.device_counts,
                y.device_keys,
            ),
        decreases db.devices.len() - i,
    {
        let ghost before = left@;
        proof {
            let t1 = y.devices.take(i as int + 1);
            assert(t1.drop_last() =~= y.devices.take(i as int));
            assert(t1.last() == y.devices[i as int]);
        }
        let d = &db.devices[i];
        if used(db, d.id) {
            left.push(
                Device { id: d.id, key: d.key.clone(), name: d.name.clone(), kind: d.kind.clone() },
            );
            assert(store::registry(left@) =~= store::registry(before).push(y.devices[i as int]));
        }
        i = i + 1;
    }
    proof {
        assert(y.devices.take(i as int) =~= y.devices);
        lemma_pruned(y.devices, y.device_counts, y.device_keys);
    }
    db.devices = left;
    assert(db@ =~= (YearModel {
        devices: pruned(y.devices, y.device_counts, y.device_keys),
        ..y
    }));
}

proof fn lemma_same_since(a: Seq<(i64, int)>, b: Seq<(i64, int)>, cutoff: int)
    requires
        store::same_keys(a, b),
    ensures
        store::same_keys(
            tally::keep(a, tally::days_from::<i64>(cutoff)),
            tally::keep(b, tally::days_from::<i64>(cutoff)),
        ),
{
    let q = tally::days_from::<i64>(cutoff);
    tally::lemma_keep(a, q);
    tally::lemma_keep(b, q);
    assert forall|k: i64|
        tally::has_key(tally::keep(a, q), k) <==> tally::has_key(tally::keep(b, q), k) by {
        assert(tally::has_key(a, k) <==> tally::has_key(b, k));
    }
}

proof fn lemma_row_counts(y: YearModel, cutoff: int)
    ensures
        0 <= row_count(cleaned(y, cutoff)) <= row_count(y),
{
    tally::lemma_keep(y.daily, tally::days_from::<i64>(cutoff));
    tally::lemma_keep(y.hourly, tally::days_from::<(i64, i64)>(cutoff));
    tally::lemma_keep(y.keys, tally::days_from::<(i64, String)>(cutoff));
    tally::lemma_keep(y.apps, tally::days_from::<(i64, String)>(cutoff));
    tally::lemma_keep(y.device_counts, tally::days_from::<(i64, i64)>(cutoff));
    tally::lemma_keep(y.device_keys, tally::days_from::<(i64, i64, String)>(cutoff));
}

proof fn lemma_cleaned_prefix(st: StoreModel, cutoff: int, n: int)
    requires
        0 <= n <= st.len(),
    ensures
        0 <= all_cleaned_rows(st.take(n), cutoff) <= all_cleaned_rows(st, cutoff),
    decreases st.len() - n,
{
    lemma_cleaned_nonneg(st.take(n), cutoff);
    if n < st.len() {
        lemma_cleaned_prefix(st, cutoff, n + 1);
        assert(st.take(n + 1).drop_last() =~= st.take(n));
        if let Some(y) = st[n].1 {
            lemma_row_counts(y, cutoff);
        }
    } else {
        assert(st.take(n) =~= st);
    }
}

proof fn lemma_cleaned_nonneg(st: StoreModel, cutoff: int)
    ensures
        0 <= all_cleaned_rows(st, cutoff),
    decreases st.len(),
{
    if st.len() > 0 {
        lemma_cleaned_nonneg(st.drop_last(), cutoff);
        if let Some(y) = st.last().1 {
            lemma_row_counts(y, cutoff);
        }
    }
}

/// The number of rows of the tables, the registry not counted, where it fits in `i64`.
fn count_rows(db: &YearDb) -> (r: u128)
    ensures
        r == row_count(db@),
{
    db.daily.len() as u128 + db.hourly.len() as u128 + db.keys.len() as u128 + db.apps.len() as u128
        + db.device_counts.len() as u128 + db.device_keys.len() as u128
}

fn clean(db: &mut YearDb, cutoff: i64)
    requires
        old(db).wf(),
    ensures
        final(db).wf(),
        final(db)@ == cleaned(old(db)@, cutoff as int),
{
    let ghost y = db@;
    proof {
        lemma_same_since(y.daily, y.seconds, cutoff as int);
    }
    db.daily = db.daily.since(cutoff);
    db.seconds = db.seconds.since(cutoff);
    db.hourly = db.hourly.since(cutoff);
    db.keys = db.keys.since(cutoff);
    db.apps = db.apps.since(cutoff);
    db.device_counts = db.device_counts.since(cutoff);
    db.device_keys = db.device_keys.since(cutoff);
    prune_orphan_devices(db);
    assert(db@ =~= cleaned(y, cutoff as int));
}

/// Keeps the last `keep_days` days, today among them, and removes what is older. Tells how
/// many rows it removed. Refuses to keep less than a day: nothing changes then.
pub fn cleanup_old_data(st: &mut Store, keep_days: i64, today: &Date) -> (r: i64)
    requires
        old(st).wf(),
        queries::usable_today(*today),
        all_cleaned_rows(old(st)@, today.number() - keep_days + 1) <= i64::MAX,
    ensures
        final(st).wf(),
        keep_days < 1 ==> final(st)@ == old(st)@ && r == 0,
        keep_days >= 1 ==> {
            &&& final(st)@ == cleaned_store(old(st)@, today.number() - keep_days + 1)
            &&& r == all_cleaned_rows(old(st)@, today.number() - keep_days + 1)
        },
{
    if keep_days < 1 {
        return 0;
    }
    let cutoff: i64 = day_key_of_date(today) - (keep_days - 1);
    let ghost c = cutoff as int;
    let ghost m = st@;
    let mut removed: i64 = 0;
    let mut i: usize = 0;
    while i < st.files.len()
        invariant
            i <= st.files.len(),
            st.wf(),
            c == cutoff,
            st@.len() == m.len(),
            removed == all_cleaned_rows(m.take(i as int), c),
            0 <= removed,
            all_cleaned_rows(m, c) <= i64::MAX,
            forall|k: int| 0 <= k < i ==> #[trigger] st@[k] == cleaned_file(m[k], c),
            forall|k: int| i <= k < m.len() ==> #[trigger] st@[k] == m[k],
        decreases st.files.len() - i,
    {
        let ghost before = st@;
        let ghost files = st.files@;
        proof {
            assert(st@[i as int] == m[i as int]);
            let t1 = m.take(i as int + 1);
            assert(t1.drop_last() =~= m.take(i as int));
            assert(t1.last() == m[i as int]);
            lemma_cleaned_prefix(m, c, i as int + 1);
        }
        let mut slot: Option<YearDb> = None;
        std::mem::swap(&mut slot, &mut st.files[i].db);
        if let Some(mut d) = slot {
            let ghost y = d@;
            assert(m[i as int].1 == Some(y));
            proof {
                lemma_row_counts(y, c);
            }
            let n = count_rows(&d);
            if n > 0 || !d.seconds.is_empty() {
                clean(&mut d, cutoff);
                let k = count_rows(&d);
                assert(!y.is_empty());
                removed = removed + (n - k) as i64;
            } else {
                assert(y.is_empty());
                assert(row_count(cleaned(y, c)) == 0);
            }
            st.files[i].db = Some(d);
        } else {
            assert(m[i as int].1 is None);
        }
        proof {
            assert forall|k: int| 0 <= k < m.len() && k != i implies #[trigger] st@[k]
                == before[k] by {
                assert(st.files@[k] == files[k]);
            }
            assert forall|k: int| 0 <= k < m.len() implies (#[trigger] st.files@[k]).year
                == files[k].year by {}
        }
        i = i + 1;
    }
    proof {
        assert(m.take(i as int) =~= m);
        assert(st@ =~= cleaned_store(m, c));
    }
    removed
}

/// After a clean-up a day is there exactly where it was there and lies in the days to
/// keep, and what is there is unchanged.
pub proof fn lemma_cleanup_keeps_exactly(y: YearModel, cutoff: int, day: i64)
    requires
        tally::distinct(y.daily),
    ensures
        tally::has_key(cleaned(y, cutoff).daily, day) <==> tally::has_key(y.daily, day) && day
            >= cutoff,
        day >= cutoff ==> tally::amount(cleaned(y, cutoff).daily, day) == tally::amount(
            y.daily,
            day,
        ),
{
    let q = tally::days_from::<i64>(cutoff);
    tally::lemma_keep(y.daily, q);
    if day >= cutoff {
        tally::lemma_keep_amount(y.daily, q, day);
    }
}

/// A table after a clean-up: a row is there exactly where it was there and its day is not
/// before `cutoff`, and its amount is unchanged.
pub open spec fn kept_since<K: Dated>(
    before: Seq<(K::V, int)>,
    after: Seq<(K::V, int)>,
    cutoff: int,
) -> bool {
    &&& forall|v: K::V| #[trigger]
        tally::has_key(after, v) <==> tally::has_key(before, v) && K::day_of(v) >= cutoff
    &&& forall|v: K::V|
        K::day_of(v) >= cutoff ==> #[trigger] tally::amount(after, v) == tally::amount(before, v)
    &&& forall|i: int| 0 <= i < after.len() ==> before.contains(#[trigger] after[i])
}

proof fn lemma_kept_since<K: Dated>(s: Seq<(K::V, int)>, cutoff: int)
    ensures
        kept_since::<K>(s, tally::keep(s, tally::days_from::<K>(cutoff)), cutoff),
{
    let q = tally::days_from::<K>(cutoff);
    tally::lemma_keep(s, q);
    assert forall|v: K::V| K::day_of(v) >= cutoff implies #[trigger] tally::amount(
        tally::keep(s, q),
        v,
    ) == tally::amount(s, v) by {
        tally::lemma_keep_amount(s, q, v);
    }
}

/// A clean-up keeps in every table exactly the rows from the cutoff on, as they were: the
/// days with their key presses and seconds, hours, keys, applications, and the inputs of
/// devices and of their keys. A device stays registered, as it was, exactly where it still
/// has a row. Files that cannot be read stay, no file comes or goes, and the rows removed
/// are those that are gone.
pub proof fn lemma_cleanup_keeps_every_table(st: StoreModel, cutoff: int, i: int)
    requires
        0 <= i < st.len(),
    ensures
        cleaned_store(st, cutoff).len() == st.len(),
        cleaned_store(st, cutoff)[i].0 == st[i].0,
        st[i].1 is None ==> cleaned_store(st, cutoff)[i].1 is None,
        st[i].1 matches Some(y) ==> (cleaned_store(st, cutoff)[i].1 matches Some(z) && {
            &&& kept_since::<i64>(y.daily, z.daily, cutoff)
            &&& kept_since::<i64>(y.seconds, z.seconds, cutoff)
            &&& kept_since::<(i64, i64)>(y.hourly, z.hourly, cutoff)
            &&& kept_since::<(i64, String)>(y.keys, z.keys, cutoff)
            &&& kept_since::<(i64, String)>(y.apps, z.apps, cutoff)
            &&& kept_since::<(i64, i64)>(y.device_counts, z.device_counts, cutoff)
            &&& kept_since::<(i64, i64, String)>(y.device_keys, z.device_keys, cutoff)
            &&& forall|k: int|
                0 <= k < z.devices.len() ==> y.devices.contains(#[trigger] z.devices[k])
            &&& forall|k: int|
                0 <= k < y.devices.len() && !y.is_empty() ==> (z.devices.contains(
                    #[trigger] y.devices[k],
                ) <==> (exists|j: int|
                    0 <= j < z.device_counts.len() && (#[trigger] z.device_counts[j]).0.1
                        == y.devices[k].id) || (exists|j: int|
                    0 <= j < z.device_keys.len() && (#[trigger] z.device_keys[j]).0.1
                        == y.devices[k].id))
            &&& cleaned_rows(st[i], cutoff) == y.daily.len() - z.daily.len() + y.hourly.len()
                - z.hourly.len() + y.keys.len() - z.keys.len() + y.apps.len() - z.apps.len()
                + y.device_counts.len() - z.device_counts.len() + y.device_keys.len()
                - z.device_keys.len()
        }),
        all_cleaned_rows(st, cutoff) == all_cleaned_rows(st.remove(i), cutoff) + cleaned_rows(
            st[i],
            cutoff,
        ),
{
    if let Some(y) = st[i].1 {
        let z = cleaned_store(st, cutoff)[i].1->0;
        if y.is_empty() {
            lemma_empty_since::<i64>(y.daily, cutoff);
            lemma_empty_since::<i64>(y.seconds, cutoff);
            lemma_empty_since::<(i64, i64)>(y.hourly, cutoff);
            lemma_empty_since::<(i64, String)>(y.keys, cutoff);
            lemma_empty_since::<(i64, String)>(y.apps, cutoff);
            lemma_empty_since::<(i64, i64)>(y.device_counts, cutoff);
            lemma_empty_since::<(i64, i64, String)>(y.device_keys, cutoff);
            lemma_row_counts(y, cutoff);
        } else {
            lemma_kept_since::<i64>(y.daily, cutoff);
            lemma_kept_since::<i64>(y.seconds, cutoff);
            lemma_kept_since::<(i64, i64)>(y.hourly, cutoff);
            lemma_kept_since::<(i64, String)>(y.keys, cutoff);
            lemma_kept_since::<(i64, String)>(y.apps, cutoff);
            lemma_kept_since::<(i64, i64)>(y.device_counts, cutoff);
            lemma_kept_since::<(i64, i64, String)>(y.device_keys, cutoff);
            lemma_pruned(y.devices, z.device_counts, z.device_keys);
            assert forall|k: int| 0 <= k < y.devices.len() implies (z.devices.contains(
                #[trigger] y.devices[k],
            ) <==> in_use(y.devices[k].id, z.device_counts, z.device_keys)) by {
                if z.devices.contains(y.devices[k]) {
                    let j = choose|j: int|
                        0 <= j < z.devices.len() && z.devices[j] == y.devices[k];
                    assert(in_use(z.devices[j].id, z.device_counts, z.device_keys));
                }
            }
        }
    }
    lemma_cleaned_without(st, cutoff, i);
}

proof fn lemma_empty_since<K: Dated>(s: Seq<(K::V, int)>, cutoff: int)
    requires
        s.len() == 0,
    ensures
        kept_since::<K>(s, s, cutoff),
{
}

proof fn lemma_cleaned_without(st: StoreModel, cutoff: int, i: int)
    requires
        0 <= i < st.len(),
    ensures
        all_cleaned_rows(st, cutoff) == all_cleaned_rows(st.remove(i), cutoff) + cleaned_rows(
            st[i],
            cutoff,
        ),
    decreases st.len(),
{
    let t = st.drop_last();
    if i == st.len() - 1 {
        assert(st.remove(i) =~= t);
    } else {
        lemma_cleaned_without(t, cutoff, i);
        assert(st.remove(i).drop_last() =~= t.remove(i));
        assert(st.remove(i).last() == st.last());
        assert(t[i] == st[i]);
    }
}

/// A clean-up removes no row where there is no file.
pub proof fn lemma_nothing_to_clean(st: StoreModel, cutoff: int)
    requires
        st.len() == 0,
    ensures
        all_cleaned_rows(st, cutoff) == 0,
{
}

// ------------------------------------------------------------------------------ reset

/// A file with its tables and its registry cleared; one without data or that cannot be
/// read stays.
pub open spec fn reset_file(f: (i32, Option<YearModel>)) -> (i32, Option<YearModel>) {
    match f.1 {
        Some(y) => if y.is_empty() {
            f
        } else {
            (f.0, Some(store::no_tables()))
        },
        None => f,
    }
}

pub open spec fn reset_store(st: StoreModel) -> StoreModel {
    Seq::new(st.len(), |i: int| reset_file(st[i]))
}

/// The rows that clearing a file removes, those of the registry among them.
pub open spec fn reset_rows(f: (i32, Option<YearModel>)) -> int {
    match f.1 {
        Some(y) => if y.is_empty() {
            0
        } else {
            row_count(y) + y.devices.len()
        },
        None => 0,
    }
}

pub open spec fn all_reset_rows(st: StoreModel) -> int
    decreases st.len(),
{
    if st.len() == 0 {
        0
    } else {
        all_reset_rows(st.drop_last()) + reset_rows(st.last())
    }
}

proof fn lemma_reset_prefix(st: StoreModel, n: int)
    requires
        0 <= n <= st.len(),
    ensures
        0 <= all_reset_rows(st.take(n)) <= all_reset_rows(st),
    decreases st.len() - n,
{
    lemma_reset_nonneg(st.take(n));
    if n < st.len() {
        lemma_reset_prefix(st, n + 1);
        assert(st.take(n + 1).drop_last() =~= st.take(n));
    } else {
        assert(st.take(n) =~= st);
    }
}

proof fn lemma_reset_nonneg(st: StoreModel)
    ensures
        0 <= all_reset_rows(st),
    decreases st.len(),
{
    if st.len() > 0 {
        lemma_reset_nonneg(st.drop_last());
    }
}

/// Clears all tables and registries and tells how many rows it removed.
pub fn reset_all_data(st: &mut Store) -> (r: i64)
    requires
        old(st).wf(),
        all_reset_rows(old(st)@) <= i64::MAX,
    ensures
        final(st).wf(),
        final(st)@ == reset_store(old(st)@),
        r == all_reset_rows(old(st)@),
{
    let ghost m = st@;
    let mut removed: i64 = 0;
    let mut i: usize = 0;
    while i < st.files.len()
        invariant
            i <= st.files.len(),
            st.wf(),
            st@.len() == m.len(),
            removed == all_reset_rows(m.take(i as int)),
            0 <= removed,
            all_reset_rows(m) <= i64::MAX,
            forall|k: int| 0 <= k < i ==> #[trigger] st@[k] == reset_file(m[k]),
            forall|k: int| i <= k < m.len() ==> #[trigger] st@[k] == m[k],
        decreases st.files.len() - i,
    {
        let ghost before = st@;
        let ghost files = st.files@;
        proof {
            assert(st@[i as int] == m[i as int]);
            let t1 = m.take(i as int + 1);
            assert(t1.drop_last() =~= m.take(i as int));
            assert(t1.last() == m[i as int]);
            lemma_reset_prefix(m, i as int + 1);
        }
        let mut slot: Option<YearDb> = None;
        std::mem::swap(&mut slot, &mut st.files[i].db);
        if let Some(d) = slot {
            let ghost y = d@;
            assert(m[i as int].1 == Some(y));
            let n = count_rows(&d);
            if n > 0 || !d.seconds.is_empty() {
                assert(!y.is_empty());
                let all: u128 = n + d.devices.len() as u128;
                assert(all == row_count(y) + y.devices.len());
                removed = removed + all as i64;
                let fresh = YearDb::new();
                assert(fresh@ =~= store::no_tables());
                st.files[i].db = Some(fresh);
            } else {
                assert(y.is_empty());
                st.files[i].db = Some(d);
            }
        } else {
            assert(m[i as int].1 is None);
        }
        proof {
            assert forall|k: int| 0 <= k < m.len() && k != i implies #[trigger] st@[k]
                == before[k] by {
                assert(st.files@[k] == files[k]);
            }
            assert forall|k: int| 0 <= k < m.len() implies (#[trigger] st.files@[k]).year
                == files[k].year by {}
        }
        i = i + 1;
    }
    proof {
        assert(m.take(i as int) =~= m);
        assert(st@ =~= reset_store(m));
    }
    removed
}

/// A reset leaves no row and no device in a file that had rows; files without rows and files
/// that cannot be read stay, and no file comes or goes. The rows removed are all rows and
/// devices of the files that had rows.
pub proof fn lemma_reset_clears(st: StoreModel, i: int)
    requires
        0 <= i < st.len(),
    ensures
        reset_store(st).len() == st.len(),
        reset_store(st)[i].0 == st[i].0,
        st[i].1 is None ==> reset_store(st)[i].1 is None && all_reset_rows(st) == all_reset_rows(
            st.remove(i),
        ),
        st[i].1 matches Some(y) ==> (reset_store(st)[i].1 matches Some(z) && {
            &&& z.is_empty()
            &&& !y.is_empty() ==> z.devices.len() == 0
            &&& y.is_empty() ==> z == y
            &&& all_reset_rows(st) == all_reset_rows(st.remove(i)) + (if y.is_empty() {
                0
            } else {
                y.daily.len() + y.hourly.len() + y.keys.len() + y.apps.len()
                    + y.device_counts.len() + y.device_keys.len() + y.devices.len()
            })
        }),
    decreases st.len(),
{
    let t = st.drop_last();
    if i == st.len() - 1 {
        assert(st.remove(i) =~= t);
    } else {
        lemma_reset_clears(t, i);
        assert(st.remove(i).drop_last() =~= t.remove(i));
        assert(st.remove(i).last() == st.last());
        assert(t[i] == st[i]);
        assert(reset_store(t)[i] == reset_store(st)[i]);
    }
}

/// Removing a key of a day takes exactly its row out of the keys and its presses, as far as
/// there are any, out of the day; a day that had presses and has none left goes with its
/// seconds. Hours only fall, those that are left have presses, each gives at least its part,
/// and those of other days stay. Applications, devices and their inputs stay as they are.
pub proof fn lemma_delete_touches_only_its_day(y: YearModel, day: i64, key: Seq<char>, d: i64)
    requires
        tally::distinct(y.daily),
        tally::distinct(y.keys),
        tally::distinct(y.hourly),
        tally::nonneg(y.hourly),
        pressed(y, day, key) > 0,
    ensures
        ({
            let w = without_key(y, day, key);
            let gone = tally::amount(y.keys, (day, key));
            let was = tally::amount(y.daily, day);
            &&& pressed(y, day, key) == gone
            &&& forall|k: (i64, Seq<char>)| #[trigger]
                tally::has_key(w.keys, k) <==> tally::has_key(y.keys, k) && k != (day, key)
            &&& forall|k: (i64, Seq<char>)|
                k != (day, key) ==> #[trigger] tally::amount(w.keys, k) == tally::amount(y.keys, k)
            &&& was > 0 ==> tally::amount(w.daily, day) == (if was > gone {
                was - gone
            } else {
                0
            })
            &&& was > 0 ==> tally::has_key(w.daily, day) == (was > gone)
            &&& was > 0 && was <= gone ==> !tally::has_key(w.seconds, day)
            &&& was > gone || was <= 0 ==> w.seconds == y.seconds
            &&& d != day ==> tally::amount(w.daily, d) == tally::amount(y.daily, d) && (
            tally::has_key(w.daily, d) <==> tally::has_key(y.daily, d)) && tally::amount(
                w.seconds,
                d,
            ) == tally::amount(y.seconds, d) && repair::hours_of(w.hourly, d) == repair::hours_of(
                y.hourly,
                d,
            )
            &&& was <= 0 ==> w.hourly == y.hourly
            &&& was > 0 ==> forall|i: int|
                0 <= i < w.hourly.len() && (#[trigger] w.hourly[i]).0.0 == day ==> {
                    let n = tally::amount(y.hourly, w.hourly[i].0);
                    tally::has_key(y.hourly, w.hourly[i].0) && 0 < w.hourly[i].1 <= n - (n * gone)
                        / was
                }
            &&& w.apps == y.apps
            &&& w.devices == y.devices
            &&& w.device_counts == y.device_counts
            &&& w.device_keys == y.device_keys
        }),
{
    let w = without_key(y, day, key);
    let gone = tally::amount(y.keys, (day, key));
    let was = tally::amount(y.daily, day);
    let left = day_after(y, day, gone);
    let d1 = tally::put(y.daily, day, left);
    lemma_without(y.keys, (day, key));
    assert forall|k: (i64, Seq<char>)| k != (day, key) implies #[trigger] tally::amount(w.keys, k)
        == tally::amount(y.keys, k) by {
        lemma_without_amount(y.keys, (day, key), k);
    }
    if !tally::has_key(y.daily, day) {
        tally::lemma_amount_missing(y.daily, day);
    }
    lemma_put_keys(y.daily, day, left);
    lemma_without(d1, day);
    lemma_without(y.seconds, day);
    assert(tally::has_key(d1, d) <==> tally::has_key(y.daily, d));
    assert(tally::has_key(d1, day) <==> tally::has_key(y.daily, day));
    if tally::has_key(y.daily, day) {
        tally::lemma_put(y.daily, day, left);
        tally::lemma_bump_each(y.daily, day, left - was, day);
        tally::lemma_bump_each(y.daily, day, left - was, d);
    } else {
        assert(d1 =~= y.daily) by {
            assert forall|i: int| 0 <= i < y.daily.len() implies d1[i] == y.daily[i] by {
                assert(y.daily[i].0 != day);
            }
        }
    }
    if left == 0 {
        tally::lemma_amount_missing(tally::without(d1, day), day);
    }
    if d != day {
        lemma_without_amount(d1, day, d);
        lemma_without_amount(y.seconds, day, d);
    }
    if was > 0 {
        repair::lemma_emptied_hours(y.hourly, day, gone, was, d);
    }
}

} // verus!
