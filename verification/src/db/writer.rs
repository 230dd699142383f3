//! The writer: events are counted in memory and brought to the yearly tables in batches.
use vstd::prelude::*;
use vstd::string::*;

use crate::calendar;
use crate::calendar::{day_key_of_date, Date};
use crate::db::days;
use crate::db::days::{day_key_of_ts, hour_of_ts, year_of_day_key};
use crate::db::store;
use crate::db::store::{Store, StoreModel};
use crate::hardware;
use crate::hardware::hardware_identity_key;
use crate::tally;
use crate::tally::{Dated, Tally};
use crate::text;
use crate::text::str_eq;

verus! {

/// Two events at most this many seconds apart belong to one stretch of activity. Active
/// time and application time share this limit.
pub const ACTIVE_GAP_SECS: i64 = 60;

/// What is registered of a device.
pub struct DeviceMeta {
    /// The name shown.
    pub name: String,
    /// `mouse`, `keyboard`, or `hybrid` for a device that does both.
    pub kind: String,
}

/// Name and kind of a device.
pub struct MetaModel {
    pub name: Seq<char>,
    pub kind: Seq<char>,
}

/// The registrations, in the order in which the devices were first seen.
pub type MetaList = Seq<(Seq<char>, MetaModel)>;

/// What was counted and not yet brought to the tables.
#[verifier::ext_equal]
pub struct DeltasModel {
    /// Day to key presses.
    pub daily: Seq<(i64, int)>,
    /// Day and hour to key presses.
    pub hourly: Seq<((i64, i64), int)>,
    /// Day and key to key presses.
    pub keys: Seq<((i64, Seq<char>), int)>,
    /// Day to active seconds.
    pub active: Seq<(i64, int)>,
    /// Day and application to seconds.
    pub apps: Seq<((i64, Seq<char>), int)>,
    /// Day and device to inputs.
    pub devices: Seq<((i64, Seq<char>), int)>,
    /// Day, device and key to inputs.
    pub device_keys: Seq<((i64, Seq<char>, Seq<char>), int)>,
    /// The devices seen in this session.
    pub meta: MetaList,
    /// The time of the last event.
    pub last_ts: int,
    /// The application in the foreground.
    pub current_app: Option<Seq<char>>,
}

/// What was counted and not yet brought to the tables.
pub struct AggDeltas {
    pub daily: Tally<i64>,
    pub hourly: Tally<(i64, i64)>,
    pub keys: Tally<(i64, String)>,
    pub active: Tally<i64>,
    pub apps: Tally<(i64, String)>,
    pub devices: Tally<(i64, String)>,
    pub device_keys: Tally<(i64, String, String)>,
    pub device_meta: Vec<(String, DeviceMeta)>,
    pub last_ts: i64,
    pub current_app: Option<String>,
}

pub open spec fn meta_view(v: Seq<(String, DeviceMeta)>) -> MetaList {
    Seq::new(v.len(), |i: int| (v[i].0@, MetaModel { name: v[i].1.name@, kind: v[i].1.kind@ }))
}

pub open spec fn opt_view(o: Option<String>) -> Option<Seq<char>> {
    match o {
        Some(s) => Some(s@),
        None => None,
    }
}

impl View for AggDeltas {
    type V = DeltasModel;

    open spec fn view(&self) -> DeltasModel {
        DeltasModel {
            daily: self.daily@,
            hourly: self.hourly@,
            keys: self.keys@,
            active: self.active@,
            apps: self.apps@,
            devices: self.devices@,
            device_keys: self.device_keys@,
            meta: meta_view(self.device_meta@),
            last_ts: self.last_ts as int,
            current_app: opt_view(self.current_app),
        }
    }
}

/// The seconds that an event at `ts` adds after one at `last`: those since then, unless
/// it is too long ago, in the future, or there was none.
pub open spec fn gap(last: int, ts: int) -> int {
    if last > 0 && ts >= last && ts - last <= ACTIVE_GAP_SECS {
        ts - last
    } else {
        0
    }
}

/// The counts after one key press at `ts`.
pub open spec fn recorded(v: DeltasModel, key: Seq<char>, ts: int, offset: int) -> DeltasModel {
    let d = days::day_at(ts, offset) as i64;
    let h = days::hour_at(ts, offset) as i64;
    let g = gap(v.last_ts, ts);
    DeltasModel {
        daily: tally::bump(v.daily, d, 1),
        hourly: tally::bump(v.hourly, (d, h), 1),
        keys: tally::bump(v.keys, (d, key), 1),
        active: if g > 0 {
            tally::bump(v.active, d, g)
        } else {
            v.active
        },
        apps: match v.current_app {
            Some(app) if g > 0 => tally::bump(v.apps, (d, app), g),
            _ => v.apps,
        },
        last_ts: ts,
        ..v
    }
}

/// Whether a device is registered.
pub open spec fn meta_has(meta: MetaList, key: Seq<char>) -> bool {
    exists|i: int| 0 <= i < meta.len() && (#[trigger] meta[i]).0 == key
}

/// No device is registered twice.
pub open spec fn meta_distinct(meta: MetaList) -> bool {
    forall|i: int, j: int| 0 <= i < j < meta.len() ==> (#[trigger] meta[i]).0 != (#[trigger] meta[
    j]).0
}

/// The registrations after an event of a device: the name is the one given, and a device
/// that shows both kinds of events is hybrid.
pub open spec fn meta_seen(
    meta: MetaList,
    key: Seq<char>,
    name: Seq<char>,
    kind: Seq<char>,
) -> MetaList {
    if meta_has(meta, key) {
        Seq::new(
            meta.len(),
            |i: int|
                if meta[i].0 == key {
                    (
                        key,
                        MetaModel {
                            name,
                            kind: if meta[i].1.kind != kind && meta[i].1.kind != "hybrid"@ {
                                "hybrid"@
                            } else {
                                meta[i].1.kind
                            },
                        },
                    )
                } else {
                    meta[i]
                },
        )
    } else {
        meta.push((key, MetaModel { name, kind }))
    }
}

/// The counts after one input of a device.
pub open spec fn device_recorded(
    v: DeltasModel,
    key: Seq<char>,
    name: Seq<char>,
    kind: Seq<char>,
    ts: int,
    offset: int,
) -> DeltasModel {
    DeltasModel {
        devices: tally::bump(v.devices, (days::day_at(ts, offset) as i64, key), 1),
        meta: meta_seen(v.meta, key, name, kind),
        ..v
    }
}

/// The counts after one input of a device with its key name.
pub open spec fn device_key_recorded(
    v: DeltasModel,
    device: Seq<char>,
    key: Seq<char>,
    ts: int,
    offset: int,
) -> DeltasModel {
    DeltasModel {
        device_keys: tally::bump(v.device_keys, (days::day_at(ts, offset) as i64, device, key), 1),
        ..v
    }
}

impl DeltasModel {
    /// Whether nothing was counted.
    pub open spec fn is_empty(self) -> bool {
        &&& self.daily.len() == 0
        &&& self.hourly.len() == 0
        &&& self.keys.len() == 0
        &&& self.active.len() == 0
        &&& self.apps.len() == 0
        &&& self.devices.len() == 0
        &&& self.device_keys.len() == 0
    }

    /// Nothing counted, session data kept.
    pub open spec fn emptied(self) -> DeltasModel {
        DeltasModel {
            daily: Seq::empty(),
            hourly: Seq::empty(),
            keys: Seq::empty(),
            active: Seq::empty(),
            apps: Seq::empty(),
            devices: Seq::empty(),
            device_keys: Seq::empty(),
            ..self
        }
    }

    /// Whether the sums leave room for the counts of `other`.
    pub open spec fn takes_all(self, other: DeltasModel) -> bool {
        &&& takes(self.daily, tally::total(other.daily))
        &&& takes(self.hourly, tally::total(other.hourly))
        &&& takes(self.keys, tally::total(other.keys))
        &&& takes(self.active, tally::total(other.active))
        &&& takes(self.apps, tally::total(other.apps))
        &&& takes(self.devices, tally::total(other.devices))
        &&& takes(self.device_keys, tally::total(other.device_keys))
    }

    /// With the counts of `other` added; session data kept.
    pub open spec fn plus(self, other: DeltasModel) -> DeltasModel {
        DeltasModel {
            daily: tally::absorb(self.daily, other.daily),
            hourly: tally::absorb(self.hourly, other.hourly),
            keys: tally::absorb(self.keys, other.keys),
            active: tally::absorb(self.active, other.active),
            apps: tally::absorb(self.apps, other.apps),
            devices: tally::absorb(self.devices, other.devices),
            device_keys: tally::absorb(self.device_keys, other.device_keys),
            ..self
        }
    }

    /// Each day's presses by hour and by key add up to the day's presses.
    pub open spec fn balanced(self) -> bool {
        forall|d: i64|
            #![trigger tally::amount(self.daily, d)]
            tally::amount(self.daily, d) == tally::sum_if(
                self.hourly,
                tally::on_day::<(i64, i64)>(d as int),
            ) && tally::amount(self.daily, d) == tally::sum_if(
                self.keys,
                tally::on_day::<(i64, String)>(d as int),
            )
    }

    /// On no day do the applications have more time than there was activity.
    pub open spec fn apps_within_active(self) -> bool {
        forall|d: i64|
            #![trigger tally::amount(self.active, d)]
            tally::sum_if(self.apps, tally::on_day::<(i64, String)>(d as int)) <= tally::amount(
                self.active,
                d,
            )
    }

    /// Keys are distinct in every table.
    pub open spec fn distinct(self) -> bool {
        &&& tally::distinct(self.daily)
        &&& tally::distinct(self.hourly)
        &&& tally::distinct(self.keys)
        &&& tally::distinct(self.active)
        &&& tally::distinct(self.apps)
        &&& tally::distinct(self.devices)
        &&& tally::distinct(self.device_keys)
    }
}

/// A key press keeps the tables in balance, and applications within active time.
pub proof fn lemma_record_keeps_balance(
    v: DeltasModel,
    key: Seq<char>,
    ts: i64,
    offset: i64,
)
    requires
        v.distinct(),
    ensures
        v.balanced() ==> recorded(v, key, ts as int, offset as int).balanced(),
        v.apps_within_active() ==> recorded(v, key, ts as int, offset as int).apps_within_active(),
{
    let r = recorded(v, key, ts as int, offset as int);
    let d0 = days::day_at(ts as int, offset as int) as i64;
    let h = days::hour_at(ts as int, offset as int) as i64;
    let g = gap(v.last_ts, ts as int);
    if v.balanced() {
        assert forall|d: i64|
            #![trigger tally::amount(r.daily, d)]
            tally::amount(r.daily, d) == tally::sum_if(
                r.hourly,
                tally::on_day::<(i64, i64)>(d as int),
            ) && tally::amount(r.daily, d) == tally::sum_if(
                r.keys,
                tally::on_day::<(i64, String)>(d as int),
            ) by {
            tally::lemma_bump_sum(v.daily, d0, 1, |x: i64| x == d);
            tally::lemma_bump_sum(v.hourly, (d0, h), 1, tally::on_day::<(i64, i64)>(d as int));
            tally::lemma_bump_sum(v.keys, (d0, key), 1, tally::on_day::<(i64, String)>(d as int));
            assert(tally::amount(v.daily, d) == tally::sum_if(
                v.hourly,
                tally::on_day::<(i64, i64)>(d as int),
            ));
        }
    }
    if v.apps_within_active() {
        assert forall|d: i64|
            #![trigger tally::amount(r.active, d)]
            tally::sum_if(r.apps, tally::on_day::<(i64, String)>(d as int)) <= tally::amount(
                r.active,
                d,
            ) by {
            assert(tally::amount(v.active, d) >= tally::sum_if(
                v.apps,
                tally::on_day::<(i64, String)>(d as int),
            ));
            if g > 0 {
                tally::lemma_bump_sum(v.active, d0, g, |x: i64| x == d);
                match v.current_app {
                    Some(app) => {
                        tally::lemma_bump_sum(
                            v.apps,
                            (d0, app),
                            g,
                            tally::on_day::<(i64, String)>(d as int),
                        );
                    },
                    None => {},
                }
            }
        }
    }
}

/// Whether a table can take `n` more.
pub open spec fn takes<V>(s: Seq<(V, int)>, n: int) -> bool {
    tally::total(s) + n <= i64::MAX
}

/// The year that a row belongs to.
pub open spec fn in_year<K: Dated>(year: int, current_year: int) -> spec_fn(K::V) -> bool {
    |v: K::V| days::year_of(K::day_of(v), current_year) == year
}

/// The counts of one year; the registrations go with every part.
pub open spec fn part_of(v: DeltasModel, year: int, current_year: int) -> DeltasModel {
    DeltasModel {
        daily: tally::keep(v.daily, in_year::<i64>(year, current_year)),
        hourly: tally::keep(v.hourly, in_year::<(i64, i64)>(year, current_year)),
        keys: tally::keep(v.keys, in_year::<(i64, String)>(year, current_year)),
        active: tally::keep(v.active, in_year::<i64>(year, current_year)),
        apps: tally::keep(v.apps, in_year::<(i64, String)>(year, current_year)),
        devices: tally::keep(v.devices, in_year::<(i64, String)>(year, current_year)),
        device_keys: tally::keep(
            v.device_keys,
            in_year::<(i64, String, String)>(year, current_year),
        ),
        meta: v.meta,
        last_ts: 0,
        current_app: None,
    }
}

/// Whether `y` is one of the years.
pub open spec fn lists(years: Seq<i32>, y: int) -> bool {
    exists|j: int| 0 <= j < years.len() && #[trigger] years[j] == y
}

/// Whether the rows of a table all belong to one of the years.
pub open spec fn covered<K: Dated>(s: Seq<(K::V, int)>, years: Seq<i32>, current_year: int) -> bool {
    forall|i: int|
        0 <= i < s.len() ==> lists(
            years,
            days::year_of(K::day_of((#[trigger] s[i]).0), current_year),
        )
}

/// Whether some row of a table belongs to year `y`.
pub open spec fn occurs<K: Dated>(s: Seq<(K::V, int)>, y: int, current_year: int) -> bool {
    exists|i: int|
        0 <= i < s.len() && days::year_of(K::day_of((#[trigger] s[i]).0), current_year) == y
}

/// Whether some row of some table belongs to year `y`.
pub open spec fn year_occurs(v: DeltasModel, y: int, current_year: int) -> bool {
    ||| occurs::<i64>(v.daily, y, current_year)
    ||| occurs::<(i64, i64)>(v.hourly, y, current_year)
    ||| occurs::<(i64, String)>(v.keys, y, current_year)
    ||| occurs::<i64>(v.active, y, current_year)
    ||| occurs::<(i64, String)>(v.apps, y, current_year)
    ||| occurs::<(i64, String)>(v.devices, y, current_year)
    ||| occurs::<(i64, String, String)>(v.device_keys, y, current_year)
}

/// Whether the rows of all tables belong to one of the years.
pub open spec fn all_covered(v: DeltasModel, years: Seq<i32>, current_year: int) -> bool {
    &&& covered::<i64>(v.daily, years, current_year)
    &&& covered::<(i64, i64)>(v.hourly, years, current_year)
    &&& covered::<(i64, String)>(v.keys, years, current_year)
    &&& covered::<i64>(v.active, years, current_year)
    &&& covered::<(i64, String)>(v.apps, years, current_year)
    &&& covered::<(i64, String)>(v.devices, years, current_year)
    &&& covered::<(i64, String, String)>(v.device_keys, years, current_year)
}

pub open spec fn no_repeats(years: Seq<i32>) -> bool {
    forall|i: int, j: int| 0 <= i < j < years.len() ==> years[i] != years[j]
}

fn has_year(years: &Vec<i32>, y: i32) -> (r: bool)
    ensures
        r == years@.contains(y),
{
    let mut i: usize = 0;
    while i < years.len()
        invariant
            i <= years@.len(),
            forall|j: int| 0 <= j < i ==> years@[j] != y,
        decreases years.len() - i,
    {
        if years[i] == y {
            assert(years@[i as int] == y);
            return true;
        }
        i = i + 1;
    }
    false
}

/// Adds the years of the rows of a table that are not there yet.
fn collect_years<K: Dated>(t: &Tally<K>, years: &mut Vec<i32>, current_year: i32)
    requires
        no_repeats(old(years)@),
    ensures
        no_repeats(final(years)@),
        covered::<K>(t@, final(years)@, current_year as int),
        forall|y: int| #[trigger]
            lists(final(years)@, y) <==> lists(old(years)@, y) || occurs::<K>(
                t@,
                y,
                current_year as int,
            ),
{
    let ghost y0 = years@;
    let mut i: usize = 0;
    while i < t.rows.len()
        invariant
            i <= t.rows@.len(),
            no_repeats(years@),
            covered::<K>(t@.take(i as int), years@, current_year as int),
            forall|y: int| #[trigger]
                lists(years@, y) <==> lists(y0, y) || occurs::<K>(
                    t@.take(i as int),
                    y,
                    current_year as int,
                ),
        decreases t.rows.len() - i,
    {
        let y = year_of_day_key(t.rows[i].0.day(), current_year);
        let ghost before = years@;
        let ghost a = t@.take(i as int);
        let ghost b = t@.take(i as int + 1);
        assert(days::year_of(K::day_of(t@[i as int].0), current_year as int) == y);
        proof {
            assert(b[i as int] == t@[i as int]);
            assert forall|x: int| #[trigger]
                occurs::<K>(b, x, current_year as int) == (occurs::<K>(a, x, current_year as int)
                    || x == y) by {
                if occurs::<K>(b, x, current_year as int) {
                    let k = choose|k: int|
                        0 <= k < b.len() && days::year_of(
                            K::day_of((#[trigger] b[k]).0),
                            current_year as int,
                        ) == x;
                    if k < i {
                        assert(a[k] == b[k]);
                    }
                }
                if occurs::<K>(a, x, current_year as int) {
                    let k = choose|k: int|
                        0 <= k < a.len() && days::year_of(
                            K::day_of((#[trigger] a[k]).0),
                            current_year as int,
                        ) == x;
                    assert(b[k] == a[k]);
                }
            }
        }
        let there = has_year(years, y);
        if !there {
            years.push(y);
        }
        proof {
            assert forall|x: int| #[trigger] lists(years@, x) == (lists(before, x) || x == y) by {
                if lists(years@, x) {
                    let j = choose|j: int| 0 <= j < years@.len() && #[trigger] years@[j] == x;
                    if j < before.len() {
                        assert(before[j] == x);
                    }
                }
                if lists(before, x) {
                    let j = choose|j: int| 0 <= j < before.len() && #[trigger] before[j] == x;
                    assert(years@[j] == x);
                }
                if there {
                    let j = choose|j: int| 0 <= j < before.len() && before[j] == y;
                    assert(years@[j] == y);
                } else {
                    assert(years@[before.len() as int] == y);
                }
            }
            assert forall|p: int, q: int| 0 <= p < q < years@.len() implies years@[p]
                != years@[q] by {
                if q == before.len() {
                    assert(before.contains(before[p]));
                }
            }
            assert forall|k: int| 0 <= k < b.len() implies lists(
                years@,
                days::year_of(K::day_of((#[trigger] b[k]).0), current_year as int),
            ) by {
                if k < i {
                    assert(a[k] == b[k]);
                }
            }
        }
        i = i + 1;
    }
    assert(t@.take(i as int) =~= t@);
}

/// A list that holds the years of another covers no less.
proof fn lemma_covered_grows<K: Dated>(
    s: Seq<(K::V, int)>,
    a: Seq<i32>,
    b: Seq<i32>,
    current_year: int,
)
    requires
        covered::<K>(s, a, current_year),
        forall|y: int| lists(a, y) ==> #[trigger] lists(b, y),
    ensures
        covered::<K>(s, b, current_year),
{
}

/// The rows of a table that belong to `year`.
fn rows_of_year<K: Dated>(t: &Tally<K>, year: i32, current_year: i32) -> (r: Tally<K>)
    requires
        t.wf(),
    ensures
        r.wf(),
        r@ == tally::keep(t@, in_year::<K>(year as int, current_year as int)),
{
    let ghost s = t@;
    let ghost q = in_year::<K>(year as int, current_year as int);
    let mut rows: Vec<(K, i64)> = Vec::new();
    let mut i: usize = 0;
    proof {
        assert((Tally { rows })@ =~= Seq::<(K::V, int)>::empty());
        assert(s.take(0) =~= Seq::<(K::V, int)>::empty());
    }
    while i < t.rows.len()
        invariant
            i <= t.rows@.len(),
            s == t@,
            q == in_year::<K>(year as int, current_year as int),
            (Tally { rows })@ == tally::keep(s.take(i as int), q),
        decreases t.rows.len() - i,
    {
        let ghost before = (Tally { rows })@;
        proof {
            let t1 = s.take(i as int + 1);
            assert(t1.drop_last() =~= s.take(i as int));
            assert(t1.last() == s[i as int]);
        }
        if year_of_day_key(t.rows[i].0.day(), current_year) == year {
            rows.push((t.rows[i].0.dup(), t.rows[i].1));
            assert((Tally { rows })@ =~= before.push(s[i as int]));
        }
        i = i + 1;
    }
    let r = Tally { rows };
    proof {
        assert(s.take(i as int) =~= s);
        tally::lemma_keep(s, q);
        tally::lemma_keep_total(s, q);
    }
    r
}

fn dup_meta(meta: &Vec<(String, DeviceMeta)>) -> (r: Vec<(String, DeviceMeta)>)
    ensures
        meta_view(r@) == meta_view(meta@),
{
    let mut r: Vec<(String, DeviceMeta)> = Vec::new();
    let mut i: usize = 0;
    while i < meta.len()
        invariant
            i <= meta@.len(),
            meta_view(r@) == meta_view(meta@).take(i as int),
        decreases meta.len() - i,
    {
        let ghost before = meta_view(r@);
        r.push(
            (
                meta[i].0.clone(),
                DeviceMeta { name: meta[i].1.name.clone(), kind: meta[i].1.kind.clone() },
            ),
        );
        proof {
            assert(meta_view(r@) =~= before.push(meta_view(meta@)[i as int]));
            assert(meta_view(meta@).take(i as int + 1) =~= before.push(
                meta_view(meta@)[i as int],
            ));
        }
        i = i + 1;
    }
    assert(meta_view(meta@).take(i as int) =~= meta_view(meta@));
    r
}

impl AggDeltas {
    /// Every table is well-formed and no device is registered twice.
    pub open spec fn wf(&self) -> bool {
        &&& self.daily.wf()
        &&& self.hourly.wf()
        &&& self.keys.wf()
        &&& self.active.wf()
        &&& self.apps.wf()
        &&& self.devices.wf()
        &&& self.device_keys.wf()
        &&& meta_distinct(self@.meta)
    }

    /// Whether every table can take `n` more.
    pub open spec fn has_room(&self, n: int) -> bool {
        &&& takes(self@.daily, n)
        &&& takes(self@.hourly, n)
        &&& takes(self@.keys, n)
        &&& takes(self@.active, n)
        &&& takes(self@.apps, n)
        &&& takes(self@.devices, n)
        &&& takes(self@.device_keys, n)
    }

    /// Whether the tables can take those of `other` too.
    pub open spec fn has_room_for(&self, other: DeltasModel) -> bool {
        self@.takes_all(other)
    }

    /// Nothing counted yet.
    pub fn new() -> (r: Self)
        ensures
            r.wf(),
            r@.is_empty(),
            r@.meta.len() == 0,
            r@.last_ts == 0,
            r@.current_app is None,
    {
        AggDeltas {
            daily: Tally::new(),
            hourly: Tally::new(),
            keys: Tally::new(),
            active: Tally::new(),
            apps: Tally::new(),
            devices: Tally::new(),
            device_keys: Tally::new(),
            device_meta: Vec::new(),
            last_ts: 0,
            current_app: None,
        }
    }

    /// Whether nothing was counted.
    pub fn is_empty(&self) -> (r: bool)
        ensures
            r == self@.is_empty(),
    {
        self.daily.is_empty() && self.hourly.is_empty() && self.keys.is_empty()
            && self.active.is_empty() && self.apps.is_empty() && self.devices.is_empty()
            && self.device_keys.is_empty()
    }

    /// Takes the counts away to bring them to the tables. The time of the last event, the
    /// application in the foreground and the registrations stay; a copy of the
    /// registrations goes along.
    pub fn take_for_flush(&mut self) -> (r: AggDeltas)
        requires
            old(self).wf(),
        ensures
            r.wf(),
            final(self).wf(),
            r@ == (DeltasModel { current_app: None, ..old(self)@ }),
            final(self)@ == old(self)@.emptied(),
    {
        let mut r = AggDeltas::new();
        r.device_meta = dup_meta(&self.device_meta);
        r.last_ts = self.last_ts;
        std::mem::swap(&mut self.daily, &mut r.daily);
        std::mem::swap(&mut self.hourly, &mut r.hourly);
        std::mem::swap(&mut self.keys, &mut r.keys);
        std::mem::swap(&mut self.active, &mut r.active);
        std::mem::swap(&mut self.apps, &mut r.apps);
        std::mem::swap(&mut self.devices, &mut r.devices);
        std::mem::swap(&mut self.device_keys, &mut r.device_keys);
        assert(self@ =~= old(self)@.emptied());
        r
    }

    /// The counts parted by the year of their day: each event goes to the tables of the
    /// year in which it happened, though it is brought there in the next one.
    pub fn split_by_year(&self, current_year: i32) -> (r: Vec<(i32, AggDeltas)>)
        requires
            self.wf(),
        ensures
            no_repeats(Seq::new(r@.len(), |i: int| r@[i].0)),
            all_covered(self@, Seq::new(r@.len(), |i: int| r@[i].0), current_year as int),
            forall|i: int|
                0 <= i < r@.len() ==> (#[trigger] r@[i]).1.wf() && r@[i].1@ == part_of(
                    self@,
                    r@[i].0 as int,
                    current_year as int,
                ) && year_occurs(self@, r@[i].0 as int, current_year as int),
    {
        let mut years: Vec<i32> = Vec::new();
        assert(years@ =~= Seq::<i32>::empty());
        collect_years(&self.daily, &mut years, current_year);
        let ghost y1 = years@;
        collect_years(&self.hourly, &mut years, current_year);
        let ghost y2 = years@;
        proof {
            lemma_covered_grows::<i64>(self.daily@, y1, y2, current_year as int);
        }
        collect_years(&self.keys, &mut years, current_year);
        let ghost y3 = years@;
        proof {
            lemma_covered_grows::<i64>(self.daily@, y2, y3, current_year as int);
            lemma_covered_grows::<(i64, i64)>(self.hourly@, y2, y3, current_year as int);
        }
        collect_years(&self.active, &mut years, current_year);
        let ghost y4 = years@;
        proof {
            lemma_covered_grows::<i64>(self.daily@, y3, y4, current_year as int);
            lemma_covered_grows::<(i64, i64)>(self.hourly@, y3, y4, current_year as int);
            lemma_covered_grows::<(i64, String)>(self.keys@, y3, y4, current_year as int);
        }
        collect_years(&self.apps, &mut years, current_year);
        let ghost y5 = years@;
        proof {
            lemma_covered_grows::<i64>(self.daily@, y4, y5, current_year as int);
            lemma_covered_grows::<(i64, i64)>(self.hourly@, y4, y5, current_year as int);
            lemma_covered_grows::<(i64, String)>(self.keys@, y4, y5, current_year as int);
            lemma_covered_grows::<i64>(self.active@, y4, y5, current_year as int);
        }
        collect_years(&self.devices, &mut years, current_year);
        let ghost y6 = years@;
        proof {
            lemma_covered_grows::<i64>(self.daily@, y5, y6, current_year as int);
            lemma_covered_grows::<(i64, i64)>(self.hourly@, y5, y6, current_year as int);
            lemma_covered_grows::<(i64, String)>(self.keys@, y5, y6, current_year as int);
            lemma_covered_grows::<i64>(self.active@, y5, y6, current_year as int);
            lemma_covered_grows::<(i64, String)>(self.apps@, y5, y6, current_year as int);
        }
        collect_years(&self.device_keys, &mut years, current_year);
        let ghost y7 = years@;
        proof {
            lemma_covered_grows::<i64>(self.daily@, y6, y7, current_year as int);
            lemma_covered_grows::<(i64, i64)>(self.hourly@, y6, y7, current_year as int);
            lemma_covered_grows::<(i64, String)>(self.keys@, y6, y7, current_year as int);
            lemma_covered_grows::<i64>(self.active@, y6, y7, current_year as int);
            lemma_covered_grows::<(i64, String)>(self.apps@, y6, y7, current_year as int);
            lemma_covered_grows::<(i64, String)>(self.devices@, y6, y7, current_year as int);
        }
        let mut r: Vec<(i32, AggDeltas)> = Vec::new();
        let mut i: usize = 0;
        while i < years.len()
            invariant
                i <= years@.len(),
                self.wf(),
                r@.len() == i,
                forall|j: int|
                    0 <= j < i ==> (#[trigger] r@[j]).0 == years@[j] && r@[j].1.wf() && r@[j].1@
                        == part_of(self@, years@[j] as int, current_year as int),
            decreases years.len() - i,
        {
            let y = years[i];
            let part = AggDeltas {
                daily: rows_of_year(&self.daily, y, current_year),
                hourly: rows_of_year(&self.hourly, y, current_year),
                keys: rows_of_year(&self.keys, y, current_year),
                active: rows_of_year(&self.active, y, current_year),
                apps: rows_of_year(&self.apps, y, current_year),
                devices: rows_of_year(&self.devices, y, current_year),
                device_keys: rows_of_year(&self.device_keys, y, current_year),
                device_meta: dup_meta(&self.device_meta),
                last_ts: 0,
                current_app: None,
            };
            assert(part@ =~= part_of(self@, y as int, current_year as int));
            r.push((y, part));
            i = i + 1;
        }
        proof {
            assert(Seq::new(r@.len(), |i: int| r@[i].0) =~= years@);
            assert forall|i: int| 0 <= i < r@.len() implies year_occurs(
                self@,
                (#[trigger] r@[i]).0 as int,
                current_year as int,
            ) by {
                assert(years@[i] == r@[i].0 as int);
                assert(lists(y7, r@[i].0 as int));
                assert(!lists(Seq::<i32>::empty(), r@[i].0 as int));
            }
        }
        r
    }

    /// Adds the counts of a part that could not be brought to its tables.
    pub fn refill(&mut self, part: &AggDeltas)
        requires
            old(self).wf(),
            part.wf(),
            old(self).has_room_for(part@),
        ensures
            final(self).wf(),
            final(self)@ == old(self)@.plus(part@),
    {
        self.daily.absorb(&part.daily);
        self.hourly.absorb(&part.hourly);
        self.keys.absorb(&part.keys);
        self.active.absorb(&part.active);
        self.apps.absorb(&part.apps);
        self.devices.absorb(&part.devices);
        self.device_keys.absorb(&part.device_keys);
        assert(self@ =~= old(self)@.plus(part@));
    }

    fn find_meta(&self, key: &str) -> (r: usize)
        ensures
            r <= self.device_meta@.len(),
            r < self.device_meta@.len() ==> self@.meta[r as int].0 == key@,
            r == self.device_meta@.len() ==> !meta_has(self@.meta, key@),
    {
        let mut i: usize = 0;
        while i < self.device_meta.len()
            invariant
                i <= self.device_meta@.len(),
                forall|j: int| 0 <= j < i ==> (#[trigger] self@.meta[j]).0 != key@,
            decreases self.device_meta.len() - i,
        {
            if str_eq(self.device_meta[i].0.as_str(), key) {
                assert(self@.meta[i as int].0 == key@);
                return i;
            }
            i = i + 1;
        }
        i
    }

    /// Counts one key press at `timestamp`; gives the seconds that it added to the active
    /// time.
    pub fn record(&mut self, key_name: &str, timestamp: i64, offset: i64) -> (r: i64)
        requires
            old(self).wf(),
            old(self).has_room(ACTIVE_GAP_SECS as int),
        ensures
            final(self).wf(),
            final(self)@ == recorded(old(self)@, key_name@, timestamp as int, offset as int),
            r == gap(old(self)@.last_ts, timestamp as int),
            0 <= r <= ACTIVE_GAP_SECS,
    {
        let day_key = day_key_of_ts(timestamp, offset);
        let hour = hour_of_ts(timestamp, offset);
        self.daily.bump(day_key, 1);
        self.hourly.bump((day_key, hour), 1);
        self.keys.bump((day_key, key_name.to_owned()), 1);
        let gained: i64 = if self.last_ts > 0 && timestamp >= self.last_ts && timestamp
            - self.last_ts <= ACTIVE_GAP_SECS {
            timestamp - self.last_ts
        } else {
            0
        };
        self.last_ts = timestamp;
        if gained > 0 {
            self.active.bump(day_key, gained);
            let app = self.current_app.clone();
            match app {
                Some(a) => {
                    self.apps.bump((day_key, a), gained);
                },
                None => {},
            }
        }
        assert(self@ =~= recorded(old(self)@, key_name@, timestamp as int, offset as int));
        gained
    }

    /// Sets the application in the foreground.
    pub fn set_current_app(&mut self, name: Option<&str>)
        requires
            old(self).wf(),
        ensures
            final(self).wf(),
            final(self)@ == (DeltasModel {
                current_app: (match name {
                    Some(n) => Some(n@),
                    None => None,
                }),
                ..old(self)@
            }),
    {
        self.current_app = match name {
            Some(n) => Some(n.to_owned()),
            None => None,
        };
        assert(self@ =~= DeltasModel { current_app: opt_view(self.current_app), ..old(self)@ });
    }

    /// Counts one input of a device and registers it.
    pub fn record_device(
        &mut self,
        device_key: &str,
        name: &str,
        kind: &str,
        timestamp: i64,
        offset: i64,
    )
        requires
            old(self).wf(),
            takes(old(self)@.devices, 1),
        ensures
            final(self).wf(),
            final(self)@ == device_recorded(
                old(self)@,
                device_key@,
                name@,
                kind@,
                timestamp as int,
                offset as int,
            ),
    {
        let ghost m = self@.meta;
        let i = self.find_meta(device_key);
        if i < self.device_meta.len() {
            assert(meta_has(m, device_key@));
            let old_kind = self.device_meta[i].1.kind.as_str();
            let new_kind = if !str_eq(old_kind, kind) && !str_eq(old_kind, "hybrid") {
                "hybrid".to_owned()
            } else {
                self.device_meta[i].1.kind.clone()
            };
            self.device_meta[i] =
            (device_key.to_owned(), DeviceMeta { name: name.to_owned(), kind: new_kind });
            proof {
                let w = meta_view(self.device_meta@);
                assert forall|j: int| 0 <= j < m.len() && j != i implies m[j].0
                    != device_key@ by {
                    if j < i {
                        assert(m[j].0 != m[i as int].0);
                    } else {
                        assert(m[i as int].0 != m[j].0);
                    }
                }
                assert(w =~= meta_seen(m, device_key@, name@, kind@));
                assert forall|a: int, b: int| 0 <= a < b < w.len() implies (#[trigger] w[a]).0 != (
                #[trigger] w[b]).0 by {
                    assert(m[a].0 != m[b].0);
                    assert(w[a].0 == m[a].0 && w[b].0 == m[b].0);
                }
            }
        } else {
            self.device_meta.push(
                (
                    device_key.to_owned(),
                    DeviceMeta { name: name.to_owned(), kind: kind.to_owned() },
                ),
            );
            proof {
                let w = meta_view(self.device_meta@);
                assert(w =~= meta_seen(m, device_key@, name@, kind@));
                assert forall|a: int, b: int| 0 <= a < b < w.len() implies (#[trigger] w[a]).0 != (
                #[trigger] w[b]).0 by {
                    assert(w[a] == m[a]);
                    if b < m.len() {
                        assert(w[b] == m[b]);
                    }
                }
            }
        }
        let day_key = day_key_of_ts(timestamp, offset);
        self.devices.bump((day_key, device_key.to_owned()), 1);
        assert(self@ =~= device_recorded(
            old(self)@,
            device_key@,
            name@,
            kind@,
            timestamp as int,
            offset as int,
        ));
    }

    /// Counts one input of a device under its key name.
    pub fn record_device_key(
        &mut self,
        device_key: &str,
        key_name: &str,
        timestamp: i64,
        offset: i64,
    )
        requires
            old(self).wf(),
            takes(old(self)@.device_keys, 1),
        ensures
            final(self).wf(),
            final(self)@ == device_key_recorded(
                old(self)@,
                device_key@,
                key_name@,
                timestamp as int,
                offset as int,
            ),
    {
        let day_key = day_key_of_ts(timestamp, offset);
        self.device_keys.bump((day_key, device_key.to_owned(), key_name.to_owned()), 1);
        assert(self@ =~= device_key_recorded(
            old(self)@,
            device_key@,
            key_name@,
            timestamp as int,
            offset as int,
        ));
    }
}

// ---------------------------------------------------- nothing is lost on the way

/// The sum over the rows of the given years.
pub open spec fn sum_of_years<K: Dated>(
    s: Seq<(K::V, int)>,
    years: Seq<i32>,
    current_year: int,
    p: spec_fn(K::V) -> bool,
) -> int
    decreases years.len(),
{
    if years.len() == 0 {
        0
    } else {
        sum_of_years::<K>(s, years.drop_last(), current_year, p) + tally::sum_if(
            tally::keep(s, in_year::<K>(years.last() as int, current_year)),
            p,
        )
    }
}

proof fn lemma_years_push<K: Dated>(
    s: Seq<(K::V, int)>,
    years: Seq<i32>,
    current_year: int,
    p: spec_fn(K::V) -> bool,
)
    requires
        s.len() > 0,
        no_repeats(years),
    ensures
        sum_of_years::<K>(s, years, current_year, p) == sum_of_years::<K>(
            s.drop_last(),
            years,
            current_year,
            p,
        ) + (if lists(years, days::year_of(K::day_of(s.last().0), current_year)) && p(s.last().0) {
            s.last().1
        } else {
            0
        }),
    decreases years.len(),
{
    if years.len() > 0 {
        let t = years.drop_last();
        let y = years.last();
        let e = s.last();
        let ye = days::year_of(K::day_of(e.0), current_year);
        assert forall|i: int, j: int| 0 <= i < j < t.len() implies t[i] != t[j] by {
            assert(years[i] != years[j]);
        }
        lemma_years_push::<K>(s, t, current_year, p);
        let q = in_year::<K>(y as int, current_year);
        if q(e.0) {
            tally::lemma_sum_push(tally::keep(s.drop_last(), q), e, p);
            assert(years[years.len() - 1] == ye);
            if lists(t, ye) {
                let j = choose|j: int| 0 <= j < t.len() && #[trigger] t[j] == ye;
                assert(years[j] != years[years.len() - 1]);
            }
        } else {
            if lists(t, ye) {
                let j = choose|j: int| 0 <= j < t.len() && #[trigger] t[j] == ye;
                assert(years[j] == ye);
            }
            if lists(years, ye) {
                let j = choose|j: int| 0 <= j < years.len() && #[trigger] years[j] == ye;
                assert(t[j] == ye);
            }
        }
    }
}

/// Parting a table by year loses nothing and doubles nothing: whatever rows are asked
/// for, the sums over the parts add up to the sum over the whole.
pub proof fn lemma_parts_conserve<K: Dated>(
    s: Seq<(K::V, int)>,
    years: Seq<i32>,
    current_year: int,
    p: spec_fn(K::V) -> bool,
)
    requires
        no_repeats(years),
        covered::<K>(s, years, current_year),
    ensures
        sum_of_years::<K>(s, years, current_year, p) == tally::sum_if(s, p),
    decreases s.len(),
{
    if s.len() == 0 {
        lemma_years_empty::<K>(s, years, current_year, p);
    } else {
        let t = s.drop_last();
        assert forall|i: int| 0 <= i < t.len() implies lists(
            years,
            days::year_of(K::day_of((#[trigger] t[i]).0), current_year),
        ) by {
            assert(t[i] == s[i]);
        }
        lemma_parts_conserve::<K>(t, years, current_year, p);
        lemma_years_push::<K>(s, years, current_year, p);
        assert(s.last() == s[s.len() - 1]);
    }
}

proof fn lemma_years_empty<K: Dated>(
    s: Seq<(K::V, int)>,
    years: Seq<i32>,
    current_year: int,
    p: spec_fn(K::V) -> bool,
)
    requires
        s.len() == 0,
    ensures
        sum_of_years::<K>(s, years, current_year, p) == 0,
    decreases years.len(),
{
    if years.len() > 0 {
        lemma_years_empty::<K>(s, years.drop_last(), current_year, p);
    }
}

/// Counts that could not be brought to their tables are all there again: taking them,
/// and refilling the table from every part, gives back each sum.
pub proof fn lemma_refill_restores<K: Dated>(
    s: Seq<(K::V, int)>,
    years: Seq<i32>,
    current_year: int,
    p: spec_fn(K::V) -> bool,
)
    requires
        no_repeats(years),
        covered::<K>(s, years, current_year),
        tally::distinct(s),
    ensures
        tally::sum_if(refilled::<K>(Seq::empty(), s, years, current_year), p) == tally::sum_if(
            s,
            p,
        ),
{
    lemma_parts_conserve::<K>(s, years, current_year, p);
    lemma_refilled_sum::<K>(Seq::empty(), s, years, current_year, p);
}

/// `dst` with the parts of `s` of the given years added.
pub open spec fn refilled<K: Dated>(
    dst: Seq<(K::V, int)>,
    s: Seq<(K::V, int)>,
    years: Seq<i32>,
    current_year: int,
) -> Seq<(K::V, int)>
    decreases years.len(),
{
    if years.len() == 0 {
        dst
    } else {
        tally::absorb(
            refilled::<K>(dst, s, years.drop_last(), current_year),
            tally::keep(s, in_year::<K>(years.last() as int, current_year)),
        )
    }
}

proof fn lemma_refilled_sum<K: Dated>(
    dst: Seq<(K::V, int)>,
    s: Seq<(K::V, int)>,
    years: Seq<i32>,
    current_year: int,
    p: spec_fn(K::V) -> bool,
)
    requires
        tally::distinct(dst),
    ensures
        tally::distinct(refilled::<K>(dst, s, years, current_year)),
        tally::sum_if(refilled::<K>(dst, s, years, current_year), p) == tally::sum_if(dst, p)
            + sum_of_years::<K>(s, years, current_year, p),
    decreases years.len(),
{
    if years.len() > 0 {
        let t = years.drop_last();
        lemma_refilled_sum::<K>(dst, s, t, current_year, p);
        let a = refilled::<K>(dst, s, t, current_year);
        let b = tally::keep(s, in_year::<K>(years.last() as int, current_year));
        tally::lemma_absorb_sum(a, b, p);
        tally::lemma_absorb_shape(a, b);
    }
}

// ------------------------------------------------------------- starting and replay

/// The registrations with that of `key` set to `m`.
pub open spec fn meta_put(meta: MetaList, key: Seq<char>, m: MetaModel) -> MetaList {
    if meta_has(meta, key) {
        Seq::new(
            meta.len(),
            |i: int|
                if meta[i].0 == key {
                    (key, m)
                } else {
                    meta[i]
                },
        )
    } else {
        meta.push((key, m))
    }
}

/// The registrations under the hardware identities of their devices.
pub open spec fn meta_by_identity(meta: MetaList) -> MetaList
    decreases meta.len(),
{
    if meta.len() == 0 {
        meta
    } else {
        meta_put(
            meta_by_identity(meta.drop_last()),
            hardware::identity_of(meta.last().0),
            meta.last().1,
        )
    }
}

/// Rows under the hardware identities of their devices.
pub open spec fn on_identity() -> spec_fn((i64, Seq<char>)) -> (i64, Seq<char>) {
    |k: (i64, Seq<char>)| (k.0, hardware::identity_of(k.1))
}

/// Rows by key under the hardware identities of their devices.
pub open spec fn key_on_identity() -> spec_fn((i64, Seq<char>, Seq<char>)) -> (
    i64,
    Seq<char>,
    Seq<char>,
) {
    |k: (i64, Seq<char>, Seq<char>)| (k.0, hardware::identity_of(k.1), k.2)
}

/// The counts with all device keys brought to hardware identities.
pub open spec fn normalized(v: DeltasModel) -> DeltasModel {
    DeltasModel {
        devices: tally::absorb(Seq::empty(), tally::rekey(v.devices, on_identity())),
        device_keys: tally::absorb(Seq::empty(), tally::rekey(v.device_keys, key_on_identity())),
        meta: meta_by_identity(v.meta),
        ..v
    }
}

proof fn lemma_meta_put(meta: MetaList, key: Seq<char>, m: MetaModel)
    requires
        meta_distinct(meta),
    ensures
        meta_distinct(meta_put(meta, key, m)),
        forall|k: Seq<char>| #[trigger] meta_has(meta_put(meta, key, m), k) <==> meta_has(meta, k)
            || k == key,
{
    let w = meta_put(meta, key, m);
    if meta_has(meta, key) {
        assert forall|a: int, b: int| 0 <= a < b < w.len() implies (#[trigger] w[a]).0 != (
        #[trigger] w[b]).0 by {
            assert(meta[a].0 != meta[b].0);
        }
        assert forall|k: Seq<char>| #[trigger] meta_has(w, k) <==> meta_has(meta, k) || k == key by {
            if meta_has(w, k) {
                let i = choose|i: int| 0 <= i < w.len() && (#[trigger] w[i]).0 == k;
                assert(meta[i].0 == k);
            }
            if meta_has(meta, k) {
                let i = choose|i: int| 0 <= i < meta.len() && (#[trigger] meta[i]).0 == k;
                assert(w[i].0 == k);
            }
        }
    } else {
        let n = meta.len() as int;
        assert(w[n].0 == key);
        assert forall|a: int, b: int| 0 <= a < b < w.len() implies (#[trigger] w[a]).0 != (
        #[trigger] w[b]).0 by {
            assert(w[a] == meta[a]);
            if b < n {
                assert(w[b] == meta[b]);
            }
        }
        assert forall|k: Seq<char>| #[trigger] meta_has(w, k) <==> meta_has(meta, k) || k == key by {
            if meta_has(w, k) {
                let i = choose|i: int| 0 <= i < w.len() && (#[trigger] w[i]).0 == k;
                if i < n {
                    assert(meta[i].0 == k);
                }
            }
            if meta_has(meta, k) {
                let i = choose|i: int| 0 <= i < meta.len() && (#[trigger] meta[i]).0 == k;
                assert(w[i].0 == k);
            }
        }
    }
}

/// Bringing device keys to identities changes no count and no total.
pub proof fn lemma_normalized_keeps_counts(v: DeltasModel)
    ensures
        tally::total(normalized(v).devices) == tally::total(v.devices),
        tally::total(normalized(v).device_keys) == tally::total(v.device_keys),
        normalized(v).daily == v.daily,
        normalized(v).hourly == v.hourly,
        normalized(v).keys == v.keys,
        normalized(v).active == v.active,
        normalized(v).apps == v.apps,
{
    tally::lemma_rekey_total(v.devices, on_identity());
    tally::lemma_absorb_sum(
        Seq::<((i64, Seq<char>), int)>::empty(),
        tally::rekey(v.devices, on_identity()),
        |x: (i64, Seq<char>)| true,
    );
    tally::lemma_rekey_total(v.device_keys, key_on_identity());
    tally::lemma_absorb_sum(
        Seq::<((i64, Seq<char>, Seq<char>), int)>::empty(),
        tally::rekey(v.device_keys, key_on_identity()),
        |x: (i64, Seq<char>, Seq<char>)| true,
    );
}

fn set_meta(meta: &mut Vec<(String, DeviceMeta)>, key: String, m: DeviceMeta)
    requires
        meta_distinct(meta_view(old(meta)@)),
    ensures
        meta_view(final(meta)@) == meta_put(
            meta_view(old(meta)@),
            key@,
            MetaModel { name: m.name@, kind: m.kind@ },
        ),
        meta_distinct(meta_view(final(meta)@)),
{
    let ghost v = meta_view(meta@);
    let ghost k = key@;
    let ghost mm = MetaModel { name: m.name@, kind: m.kind@ };
    proof {
        lemma_meta_put(v, k, mm);
    }
    let mut i: usize = 0;
    while i < meta.len() && !str_eq(meta[i].0.as_str(), key.as_str())
        invariant
            i <= meta@.len(),
            v == meta_view(meta@),
            k == key@,
            forall|j: int| 0 <= j < i ==> (#[trigger] v[j]).0 != k,
        decreases meta.len() - i,
    {
        assert(v[i as int].0 != k);
        i = i + 1;
    }
    if i < meta.len() {
        assert(v[i as int].0 == k);
        meta[i] = (key, m);
        proof {
            assert forall|j: int| 0 <= j < v.len() && j != i implies v[j].0 != k by {
                if j < i {
                    assert(v[j].0 != v[i as int].0);
                } else {
                    assert(v[i as int].0 != v[j].0);
                }
            }
            assert(meta_view(meta@) =~= meta_put(v, k, mm));
        }
    } else {
        meta.push((key, m));
        assert(meta_view(meta@) =~= meta_put(v, k, mm));
    }
}

/// The counts with all device keys brought to hardware identities.
pub fn normalize_device_keys(pending: AggDeltas) -> (r: AggDeltas)
    requires
        pending.wf(),
    ensures
        r.wf(),
        r@ == normalized(pending@),
{
    let ghost v = pending@;
    let ghost src = tally::rekey(v.devices, on_identity());
    let ghost ksrc = tally::rekey(v.device_keys, key_on_identity());
    proof {
        tally::lemma_rekey_total(v.devices, on_identity());
        tally::lemma_rekey_total(v.device_keys, key_on_identity());
        assert(src.take(0) =~= Seq::<((i64, Seq<char>), int)>::empty());
        assert(ksrc.take(0) =~= Seq::<((i64, Seq<char>, Seq<char>), int)>::empty());
    }
    let mut devices: Tally<(i64, String)> = Tally::new();
    let mut i: usize = 0;
    while i < pending.devices.rows.len()
        invariant
            i <= pending.devices.rows@.len(),
            v == pending@,
            pending.wf(),
            src == tally::rekey(v.devices, on_identity()),
            tally::nonneg(src),
            tally::total(src) == tally::total(v.devices),
            devices.wf(),
            devices@ == tally::absorb(Seq::empty(), src.take(i as int)),
            tally::total(devices@) == tally::total(src.take(i as int)),
        decreases pending.devices.rows.len() - i,
    {
        proof {
            let t1 = src.take(i as int + 1);
            assert(t1.drop_last() =~= src.take(i as int));
            assert(t1.last() == src[i as int]);
            tally::lemma_prefix_sum(src, i as int + 1, |x: (i64, Seq<char>)| true);
            assert(v.devices[i as int].1 >= 0);
        }
        let id = hardware_identity_key(pending.devices.rows[i].0.1.as_str());
        devices.bump((pending.devices.rows[i].0.0, id), pending.devices.rows[i].1);
        i = i + 1;
    }
    assert(src.take(i as int) =~= src);
    let mut device_keys: Tally<(i64, String, String)> = Tally::new();
    let mut k: usize = 0;
    while k < pending.device_keys.rows.len()
        invariant
            k <= pending.device_keys.rows@.len(),
            v == pending@,
            pending.wf(),
            ksrc == tally::rekey(v.device_keys, key_on_identity()),
            tally::nonneg(ksrc),
            tally::total(ksrc) == tally::total(v.device_keys),
            device_keys.wf(),
            device_keys@ == tally::absorb(Seq::empty(), ksrc.take(k as int)),
            tally::total(device_keys@) == tally::total(ksrc.take(k as int)),
        decreases pending.device_keys.rows.len() - k,
    {
        proof {
            let t1 = ksrc.take(k as int + 1);
            assert(t1.drop_last() =~= ksrc.take(k as int));
            assert(t1.last() == ksrc[k as int]);
            tally::lemma_prefix_sum(ksrc, k as int + 1, |x: (i64, Seq<char>, Seq<char>)| true);
            assert(v.device_keys[k as int].1 >= 0);
        }
        let id = hardware_identity_key(pending.device_keys.rows[k].0.1.as_str());
        let name = pending.device_keys.rows[k].0.2.clone();
        device_keys.bump((pending.device_keys.rows[k].0.0, id, name), pending.device_keys.rows[k].1);
        k = k + 1;
    }
    assert(ksrc.take(k as int) =~= ksrc);
    let mut meta: Vec<(String, DeviceMeta)> = Vec::new();
    let mut j: usize = 0;
    proof {
        assert(meta_view(meta@) =~= Seq::<(Seq<char>, MetaModel)>::empty());
        assert(v.meta.take(0) =~= Seq::<(Seq<char>, MetaModel)>::empty());
    }
    while j < pending.device_meta.len()
        invariant
            j <= pending.device_meta@.len(),
            v == pending@,
            meta_distinct(meta_view(meta@)),
            meta_view(meta@) == meta_by_identity(v.meta.take(j as int)),
        decreases pending.device_meta.len() - j,
    {
        proof {
            let t1 = v.meta.take(j as int + 1);
            assert(t1.drop_last() =~= v.meta.take(j as int));
            assert(t1.last() == v.meta[j as int]);
        }
        let id = hardware_identity_key(pending.device_meta[j].0.as_str());
        let m = DeviceMeta {
            name: pending.device_meta[j].1.name.clone(),
            kind: pending.device_meta[j].1.kind.clone(),
        };
        set_meta(&mut meta, id, m);
        j = j + 1;
    }
    assert(v.meta.take(j as int) =~= v.meta);
    let r = AggDeltas {
        daily: pending.daily,
        hourly: pending.hourly,
        keys: pending.keys,
        active: pending.active,
        apps: pending.apps,
        devices,
        device_keys,
        device_meta: meta,
        last_ts: pending.last_ts,
        current_app: pending.current_app,
    };
    assert(r@ =~= normalized(v));
    r
}

/// A registration as the registry holds it: key, name and kind.
pub open spec fn entry_view(e: (String, String, String)) -> (Seq<char>, Seq<char>, Seq<char>) {
    (e.0@, e.1@, e.2@)
}

/// Whether a registered name is a mere stand-in.
pub open spec fn is_placeholder(key: Seq<char>, name: Seq<char>) -> bool {
    text::is_blank(name) || name == key
}

/// The registrations with those of the registry for devices that were not seen yet,
/// leaving out names that are mere stand-ins.
pub open spec fn preloaded(
    meta: MetaList,
    rows: Seq<(Seq<char>, Seq<char>, Seq<char>)>,
) -> MetaList
    decreases rows.len(),
{
    if rows.len() == 0 {
        meta
    } else {
        let m = preloaded(meta, rows.drop_last());
        let e = rows.last();
        if is_placeholder(e.0, e.1) || meta_has(m, e.0) {
            m
        } else {
            m.push((e.0, MetaModel { name: e.1, kind: e.2 }))
        }
    }
}

/// Fills in the registrations of devices that were not seen yet from the registry.
pub fn preload_device_meta(agg: &mut AggDeltas, rows: &Vec<(String, String, String)>)
    requires
        old(agg).wf(),
    ensures
        final(agg).wf(),
        final(agg)@ == (DeltasModel {
            meta: preloaded(old(agg)@.meta, rows@.map_values(|e| entry_view(e))),
            ..old(agg)@
        }),
{
    let ghost v = agg@;
    let ghost all = rows@.map_values(|e: (String, String, String)| entry_view(e));
    let mut i: usize = 0;
    assert(all.take(0) =~= Seq::<(Seq<char>, Seq<char>, Seq<char>)>::empty());
    while i < rows.len()
        invariant
            i <= rows@.len(),
            all == rows@.map_values(|e: (String, String, String)| entry_view(e)),
            agg.wf(),
            agg@ == (DeltasModel { meta: preloaded(v.meta, all.take(i as int)), ..v }),
        decreases rows.len() - i,
    {
        let ghost m = agg@.meta;
        proof {
            let t1 = all.take(i as int + 1);
            assert(t1.drop_last() =~= all.take(i as int));
            assert(t1.last() == entry_view(rows@[i as int]));
        }
        let key = rows[i].0.as_str();
        let name = rows[i].1.as_str();
        if !text::blank(name) && !str_eq(name, key) {
            let at = agg.find_meta(key);
            if at == agg.device_meta.len() {
                agg.device_meta.push(
                    (
                        rows[i].0.clone(),
                        DeviceMeta { name: rows[i].1.clone(), kind: rows[i].2.clone() },
                    ),
                );
                proof {
                    let mm = MetaModel { name: name@, kind: rows@[i as int].2@ };
                    lemma_meta_put(m, key@, mm);
                    assert(agg@.meta =~= m.push((key@, mm)));
                }
            }
        }
        assert(agg@ =~= DeltasModel { meta: preloaded(v.meta, all.take(i as int + 1)), ..v });
        i = i + 1;
    }
    assert(all.take(i as int) =~= all);
}

// ------------------------------------------------------------------- the writer

/// A date as one number, `YYYYMMDD`.
pub open spec fn date_number(d: Date) -> int {
    d.year * 10_000 + d.month * 100 + d.day
}

/// A date as one number, `YYYYMMDD`.
pub fn current_day_key(today: &Date) -> (r: u64)
    requires
        today.valid(),
        today.year >= 0,
    ensures
        r == date_number(*today),
{
    today.year as u64 * 10_000 + today.month as u64 * 100 + today.day as u64
}

/// The writer: what was counted and not yet brought to the tables, and the figures of
/// today that are shown while counting goes on.
pub struct DbWriter {
    pub agg: AggDeltas,
    /// The key presses of today.
    pub today_count: u64,
    /// The active seconds of today.
    pub today_active: u64,
    /// The day that these are the figures of, as `YYYYMMDD`.
    pub today_key: u64,
    /// Whether the writer still takes counts to the tables.
    pub alive: bool,
    /// How many batches were brought to the tables.
    pub flush_seq: u64,
    /// The copy of a replayed recovery file, kept until a batch was brought to the tables.
    pub recovery_leftover: Option<String>,
}

/// `n` or 0 where it is negative.
pub open spec fn at_least_zero(n: int) -> int {
    if n < 0 {
        0
    } else {
        n
    }
}

pub open spec fn larger(a: int, b: int) -> int {
    if a < b {
        b
    } else {
        a
    }
}

fn clamp_zero(n: i64) -> (r: u64)
    ensures
        r == at_least_zero(n as int),
        r <= i64::MAX,
{
    if n < 0 {
        0
    } else {
        n as u64
    }
}

/// The writer `a` became `b` by counting `n` key presses and `gained` active seconds on the
/// day `day`: its counts are now `v`, and the figures of today began at 0 on a new day.
pub open spec fn counted(
    a: DbWriter,
    b: DbWriter,
    v: DeltasModel,
    n: int,
    gained: int,
    day: u64,
) -> bool {
    let same_day = a.today_key == day;
    &&& b.wf()
    &&& b.agg@ == v
    &&& b.today_key == day
    &&& b.today_count == (if same_day {
        a.today_count as int
    } else {
        0
    }) + n
    &&& b.today_active == (if same_day {
        a.today_active as int
    } else {
        0
    }) + gained
    &&& b.alive == a.alive
    &&& b.flush_seq == a.flush_seq
    &&& b.recovery_leftover == a.recovery_leftover
}

impl DbWriter {
    /// The counts are well-formed.
    pub open spec fn wf(&self) -> bool {
        self.agg.wf()
    }

    /// Whether one more event can be counted.
    pub open spec fn has_room(&self) -> bool {
        &&& self.agg.has_room(ACTIVE_GAP_SECS as int)
        &&& self.today_count < u64::MAX
        &&& self.today_active + ACTIVE_GAP_SECS <= u64::MAX
    }

    /// A writer that begins with `base_count` key presses and `base_active` active seconds
    /// of today in the tables, with the counts of a recovery file, and with the devices of
    /// the registry. What is replayed of today counts for today.
    pub fn start(
        base_count: i64,
        base_active: i64,
        recovered: Option<AggDeltas>,
        recovered_copy: Option<String>,
        registered: &Vec<(String, String, String)>,
        today: &Date,
    ) -> (r: Self)
        requires
            recovered matches Some(a) ==> a.wf(),
            today.valid(),
            today.year >= 0,
        ensures
            r.wf(),
            ({
                let v = match recovered {
                    Some(a) => normalized(a@),
                    None => no_counts(),
                };
                &&& r.agg@ == (DeltasModel {
                    meta: preloaded(v.meta, registered@.map_values(|e| entry_view(e))),
                    ..v
                })
                &&& r.today_count == at_least_zero(base_count as int) + tally::amount(
                    v.daily,
                    today.number() as i64,
                )
                &&& r.today_active == at_least_zero(base_active as int) + tally::amount(
                    v.active,
                    today.number() as i64,
                )
            }),
            r.today_key == date_number(*today),
            r.alive,
            r.flush_seq == 0,
            r.recovery_leftover == recovered_copy,
    {
        proof {
            calendar::lemma_number_range(*today);
        }
        let today_dk = day_key_of_date(today);
        let mut initial = match recovered {
            Some(a) => normalize_device_keys(a),
            None => {
                let e = AggDeltas::new();
                assert(e@ =~= no_counts());
                e
            },
        };
        let replayed_count = initial.daily.get(&today_dk);
        let replayed_active = initial.active.get(&today_dk);
        preload_device_meta(&mut initial, registered);
        DbWriter {
            agg: initial,
            today_count: clamp_zero(base_count) + clamp_zero(replayed_count),
            today_active: clamp_zero(base_active) + clamp_zero(replayed_active),
            today_key: current_day_key(today),
            alive: true,
            flush_seq: 0,
            recovery_leftover: recovered_copy,
        }
    }

    /// Counts one key press at `timestamp`. `day` is the current date as `YYYYMMDD`: on a
    /// new day the figures of today begin at 0 again.
    pub fn record(&mut self, key_name: &str, timestamp: i64, day: u64, offset: i64)
        requires
            old(self).wf(),
            old(self).has_room(),
        ensures
            counted(
                *old(self),
                *final(self),
                recorded(old(self).agg@, key_name@, timestamp as int, offset as int),
                1,
                gap(old(self).agg@.last_ts, timestamp as int),
                day,
            ),
    {
        if self.today_key != day {
            self.today_key = day;
            self.today_count = 0;
            self.today_active = 0;
        }
        self.today_count = self.today_count + 1;
        let gained = self.agg.record(key_name, timestamp, offset);
        self.today_active = self.today_active + gained as u64;
    }

    /// The key presses of today.
    pub fn today_count(&self) -> (r: u64)
        ensures
            r == self.today_count,
    {
        self.today_count
    }

    /// The active seconds of today.
    pub fn today_active_seconds(&self) -> (r: u64)
        ensures
            r == self.today_active,
    {
        self.today_active
    }

    /// Sets the application in the foreground. This counts no seconds: they are counted
    /// with the events.
    pub fn set_current_app(&mut self, name: Option<&str>)
        requires
            old(self).wf(),
        ensures
            final(self).wf(),
            *final(self) == (DbWriter { agg: final(self).agg, ..*old(self) }),
            final(self).agg@ == (DeltasModel {
                current_app: (match name {
                    Some(n) => Some(n@),
                    None => None,
                }),
                ..old(self).agg@
            }),
    {
        self.agg.set_current_app(name);
    }

    /// Counts one input of a device. The figures by device are kept apart from the others.
    pub fn record_device(
        &mut self,
        device_key: &str,
        name: &str,
        kind: &str,
        timestamp: i64,
        offset: i64,
    )
        requires
            old(self).wf(),
            takes(old(self).agg@.devices, 1),
        ensures
            final(self).wf(),
            *final(self) == (DbWriter { agg: final(self).agg, ..*old(self) }),
            final(self).agg@ == device_recorded(
                old(self).agg@,
                device_key@,
                name@,
                kind@,
                timestamp as int,
                offset as int,
            ),
    {
        self.agg.record_device(device_key, name, kind, timestamp, offset);
    }

    /// Counts one input of a device under its key name.
    pub fn record_device_key(
        &mut self,
        device_key: &str,
        key_name: &str,
        timestamp: i64,
        offset: i64,
    )
        requires
            old(self).wf(),
            takes(old(self).agg@.device_keys, 1),
        ensures
            final(self).wf(),
            *final(self) == (DbWriter { agg: final(self).agg, ..*old(self) }),
            final(self).agg@ == device_key_recorded(
                old(self).agg@,
                device_key@,
                key_name@,
                timestamp as int,
                offset as int,
            ),
    {
        self.agg.record_device_key(device_key, key_name, timestamp, offset);
    }

    /// Whether something was counted and not yet brought to the tables.
    pub fn has_pending(&self) -> (r: bool)
        ensures
            r == !self.agg@.is_empty(),
    {
        !self.agg.is_empty()
    }

    /// The key presses of the day `today` that were not yet brought to the tables.
    pub fn today_pending_count(&self, today: i64) -> (r: i64)
        requires
            self.wf(),
        ensures
            r == tally::amount(self.agg@.daily, today),
            0 <= r,
    {
        self.agg.daily.get(&today)
    }

    /// Sets the figures of today from what the tables hold and what is still to come to
    /// them. Where it is not sure that all counts arrived (`flushed` is false) the figures
    /// do not go down: a batch may be neither in the tables nor here just now.
    pub fn recompute_today_totals(
        &mut self,
        flushed: bool,
        table_count: i64,
        table_seconds: i64,
        today: i64,
        day: u64,
    )
        requires
            old(self).wf(),
        ensures
            final(self).wf(),
            final(self).agg == old(self).agg,
            final(self).today_key == day,
            ({
                let count = at_least_zero(table_count as int) + tally::amount(
                    old(self).agg@.daily,
                    today,
                );
                let active = at_least_zero(table_seconds as int) + tally::amount(
                    old(self).agg@.active,
                    today,
                );
                &&& final(self).today_count == (if flushed {
                    count
                } else {
                    larger(count, old(self).today_count as int)
                })
                &&& final(self).today_active == (if flushed {
                    active
                } else {
                    larger(active, old(self).today_active as int)
                })
            }),
            !flushed ==> final(self).today_count >= old(self).today_count
                && final(self).today_active >= old(self).today_active,
            final(self).alive == old(self).alive,
            final(self).flush_seq == old(self).flush_seq,
            final(self).recovery_leftover == old(self).recovery_leftover,
    {
        self.today_key = day;
        let count: u64 = clamp_zero(table_count) + clamp_zero(self.agg.daily.get(&today));
        let active: u64 = clamp_zero(table_seconds) + clamp_zero(self.agg.active.get(&today));
        if flushed {
            self.today_count = count;
            self.today_active = active;
        } else {
            if self.today_count < count {
                self.today_count = count;
            }
            if self.today_active < active {
                self.today_active = active;
            }
        }
    }

    /// Whether the writer still takes counts to the tables.
    pub fn is_alive(&self) -> (r: bool)
        ensures
            r == self.alive,
    {
        self.alive
    }

    /// How many batches were brought to the tables.
    pub fn flush_seq(&self) -> (r: u64)
        ensures
            r == self.flush_seq,
    {
        self.flush_seq
    }

    /// Ends the writer's work.
    pub fn stop(&mut self)
        ensures
            *final(self) == (DbWriter { alive: false, ..*old(self) }),
    {
        self.alive = false;
    }

    /// After a recovery file was to be written with the counts: they leave memory only
    /// where the file was written and they are not to be kept (`take`), so that they are
    /// never in neither place and never counted twice.
    pub fn snapshot_recovery(&mut self, written: bool, take: bool)
        requires
            old(self).wf(),
        ensures
            final(self).wf(),
            *final(self) == (DbWriter { agg: final(self).agg, ..*old(self) }),
            final(self).agg@ == (if written && take && !old(self).agg@.is_empty() {
                old(self).agg@.emptied()
            } else {
                old(self).agg@
            }),
    {
        if written && take && !self.agg.is_empty() {
            let _gone = self.agg.take_for_flush();
        }
    }
}

/// Nothing counted, no session.
pub open spec fn no_counts() -> DeltasModel {
    DeltasModel {
        daily: Seq::empty(),
        hourly: Seq::empty(),
        keys: Seq::empty(),
        active: Seq::empty(),
        apps: Seq::empty(),
        devices: Seq::empty(),
        device_keys: Seq::empty(),
        meta: Seq::empty(),
        last_ts: 0,
        current_app: None,
    }
}

/// The largest number of parts that counts can be parted into: one for each year.
pub const MAX_PARTS: u64 = 0x1_0000_0000;

/// There are only so many years.
proof fn lemma_few_years(years: Seq<i32>)
    requires
        no_repeats(years),
    ensures
        years.len() <= MAX_PARTS,
{
    let s = years.map_values(|y: i32| y as int);
    assert forall|i: int, j: int| 0 <= i < s.len() && 0 <= j < s.len() && i != j implies s[i]
        != s[j] by {
        if i < j {
            assert(years[i] != years[j]);
        } else {
            assert(years[j] != years[i]);
        }
    }
    s.unique_seq_to_set();
    let range = vstd::set_lib::set_int_range(-0x8000_0000, 0x8000_0000);
    vstd::set_lib::lemma_int_range(-0x8000_0000, 0x8000_0000);
    assert(s.to_set().subset_of(range)) by {
        assert forall|x: int| s.to_set().contains(x) implies range.contains(x) by {
            let i = choose|i: int| 0 <= i < s.len() && s[i] == x;
            assert(years[i] as int == x);
        }
    }
    vstd::set_lib::lemma_len_subset(s.to_set(), range);
}

/// Those of the years whose file cannot be read.
pub open spec fn failed_years(st: store::StoreModel, years: Seq<i32>) -> Seq<i32>
    decreases years.len(),
{
    if years.len() == 0 {
        years
    } else {
        let r = failed_years(st, years.drop_last());
        if store::writable(st, years.last()) {
            r
        } else {
            r.push(years.last())
        }
    }
}

/// What is left of the counts `v` where the parts of `years` could not be brought to
/// their tables.
pub open spec fn left_over(v: DeltasModel, years: Seq<i32>, current_year: int) -> DeltasModel {
    DeltasModel {
        daily: refilled::<i64>(Seq::empty(), v.daily, years, current_year),
        hourly: refilled::<(i64, i64)>(Seq::empty(), v.hourly, years, current_year),
        keys: refilled::<(i64, String)>(Seq::empty(), v.keys, years, current_year),
        active: refilled::<i64>(Seq::empty(), v.active, years, current_year),
        apps: refilled::<(i64, String)>(Seq::empty(), v.apps, years, current_year),
        devices: refilled::<(i64, String)>(Seq::empty(), v.devices, years, current_year),
        device_keys: refilled::<(i64, String, String)>(
            Seq::empty(),
            v.device_keys,
            years,
            current_year,
        ),
        ..v
    }
}

/// Whether the tables of every year can take its part of the counts.
pub open spec fn flushable(st: store::StoreModel, v: DeltasModel, current_year: int) -> bool {
    forall|y: i32|
        store::can_take(#[trigger] store::tables_of(st, y), part_of(v, y as int, current_year))
}

/// No amount is negative and every sum is in range.
spec fn tables_fit(v: DeltasModel) -> bool {
    &&& tally::nonneg(v.daily) && tally::total(v.daily) <= i64::MAX
    &&& tally::nonneg(v.hourly) && tally::total(v.hourly) <= i64::MAX
    &&& tally::nonneg(v.keys) && tally::total(v.keys) <= i64::MAX
    &&& tally::nonneg(v.active) && tally::total(v.active) <= i64::MAX
    &&& tally::nonneg(v.apps) && tally::total(v.apps) <= i64::MAX
    &&& tally::nonneg(v.devices) && tally::total(v.devices) <= i64::MAX
    &&& tally::nonneg(v.device_keys) && tally::total(v.device_keys) <= i64::MAX
}

/// The sum over the rows of some years is at most the sum over all.
proof fn lemma_years_bound<K: Dated>(s: Seq<(K::V, int)>, years: Seq<i32>, current_year: int)
    requires
        tally::nonneg(s),
        no_repeats(years),
    ensures
        sum_of_years::<K>(s, years, current_year, |v: K::V| true) <= tally::total(s),
    decreases s.len(),
{
    if s.len() == 0 {
        lemma_years_empty::<K>(s, years, current_year, |v: K::V| true);
    } else {
        let t = s.drop_last();
        assert forall|i: int| 0 <= i < t.len() implies (#[trigger] t[i]).1 >= 0 by {
            assert(t[i] == s[i]);
        }
        lemma_years_bound::<K>(t, years, current_year);
        lemma_years_push::<K>(s, years, current_year, |v: K::V| true);
        assert(s[s.len() - 1].1 >= 0);
    }
}

/// There is room for one more part of what was taken.
proof fn lemma_refill_room<K: Dated>(
    s: Seq<(K::V, int)>,
    years: Seq<i32>,
    y: i32,
    current_year: int,
)
    requires
        tally::nonneg(s),
        no_repeats(years.push(y)),
        tally::total(s) <= i64::MAX,
    ensures
        tally::total(refilled::<K>(Seq::empty(), s, years, current_year)) + tally::total(
            tally::keep(s, in_year::<K>(y as int, current_year)),
        ) <= i64::MAX,
{
    let p = |v: K::V| true;
    let all = years.push(y);
    lemma_refilled_sum::<K>(Seq::empty(), s, years, current_year, p);
    lemma_years_bound::<K>(s, all, current_year);
    assert(all.drop_last() =~= years);
}

proof fn lemma_failed_push(st: store::StoreModel, years: Seq<i32>)
    requires
        no_repeats(years),
    ensures
        no_repeats(failed_years(st, years)),
        forall|i: int|
            0 <= i < failed_years(st, years).len() ==> years.contains(
                #[trigger] failed_years(st, years)[i],
            ),
    decreases years.len(),
{
    if years.len() > 0 {
        let t = years.drop_last();
        assert forall|i: int, j: int| 0 <= i < j < t.len() implies t[i] != t[j] by {
            assert(years[i] != years[j]);
        }
        lemma_failed_push(st, t);
        let f = failed_years(st, years);
        let r = failed_years(st, t);
        assert forall|i: int| 0 <= i < r.len() implies #[trigger] r[i] != years.last() by {
            let z = choose|z: int| 0 <= z < t.len() && t[z] == r[i];
            assert(years[z] != years[years.len() - 1]);
        }
        assert forall|i: int| 0 <= i < f.len() implies years.contains(#[trigger] f[i]) by {
            if i < r.len() {
                assert(f[i] == r[i]);
                let z = choose|z: int| 0 <= z < t.len() && t[z] == r[i];
                assert(years[z] == f[i]);
            } else {
                assert(years[years.len() - 1] == f[i]);
            }
        }
        assert forall|i: int, j: int| 0 <= i < j < f.len() implies f[i] != f[j] by {
            if j < r.len() {
                assert(f[i] == r[i] && f[j] == r[j]);
            } else {
                assert(f[i] == r[i]);
            }
        }
    }
}

/// The years of counts do not depend on the session.
proof fn lemma_session_is_apart(a: DeltasModel, b: DeltasModel, years: Seq<i32>, current_year: int)
    requires
        a == (DeltasModel { current_app: None, ..b }),
    ensures
        all_covered(a, years, current_year) == all_covered(b, years, current_year),
        forall|y: int| #[trigger]
            year_occurs(a, y, current_year) == year_occurs(b, y, current_year),
{
}

/// Setting the tables of one year leaves those of the others alone.
proof fn lemma_with_tables(st: store::StoreModel, y: i32, m: store::YearModel, z: i32)
    requires
        forall|i: int, j: int| 0 <= i < j < st.len() ==> (#[trigger] st[i]).0 != (#[trigger] st[j]).0,
    ensures
        z != y ==> store::tables_of(store::with_tables(st, y, m), z) == store::tables_of(st, z),
        z != y ==> store::writable(store::with_tables(st, y, m), z) == store::writable(st, z),
        store::tables_of(store::with_tables(st, y, m), y) == m,
        store::writable(store::with_tables(st, y, m), y),
        store::has_file(store::with_tables(st, y, m), z) == (store::has_file(st, z) || z == y),
{
    let w = store::with_tables(st, y, m);
    let n = st.len() as int;
    assert forall|i: int| 0 <= i < w.len() && (#[trigger] w[i]).0 == y implies w[i].1 is Some by {
        if i < n {
            assert(st[i].0 == y);
        }
    }
    if store::has_file(st, z) {
        let i = choose|i: int| 0 <= i < st.len() && (#[trigger] st[i]).0 == z;
        assert(w[i].0 == z);
    }
    if store::has_file(w, z) && z != y {
        let i = choose|i: int| 0 <= i < w.len() && (#[trigger] w[i]).0 == z;
        assert(st[i].0 == z);
    }
    if store::has_file(st, y) {
        let i0 = choose|i: int| 0 <= i < st.len() && (#[trigger] st[i]).0 == y;
        assert(w[i0].0 == y && w[i0].1 is Some);
        let k = choose|k: int| 0 <= k < w.len() && (#[trigger] w[k]).0 == y && w[k].1 is Some;
        assert(st[k].0 == y);
    } else {
        assert(w[n].0 == y && w[n].1 is Some);
        let k = choose|k: int| 0 <= k < w.len() && (#[trigger] w[k]).0 == y && w[k].1 is Some;
        if k < n {
            assert(st[k].0 == y);
        }
    }
    if z != y {
        assert forall|i: int| 0 <= i < w.len() && (#[trigger] w[i]).0 == z implies i < n && st[i]
            == w[i] by {
            if i < n {
                assert(st[i].0 == z || st[i].0 == y);
            }
        }
        assert forall|i: int| 0 <= i < n && (#[trigger] st[i]).0 == z implies w[i] == st[i] by {}
        if exists|i: int| 0 <= i < n && (#[trigger] st[i]).0 == z && st[i].1 is Some {
            let a = choose|i: int| 0 <= i < n && (#[trigger] st[i]).0 == z && st[i].1 is Some;
            assert(w[a] == st[a]);
            let b = choose|i: int| 0 <= i < w.len() && (#[trigger] w[i]).0 == z && w[i].1 is Some;
            assert(st[b] == w[b]);
            if a < b {
                assert(st[a].0 != st[b].0);
            }
            if b < a {
                assert(st[b].0 != st[a].0);
            }
        }
        if exists|i: int| 0 <= i < w.len() && (#[trigger] w[i]).0 == z && w[i].1 is Some {
            let b = choose|i: int| 0 <= i < w.len() && (#[trigger] w[i]).0 == z && w[i].1 is Some;
            assert(st[b].0 == z && st[b].1 is Some);
        }
        if store::writable(st, z) {
            assert forall|i: int| 0 <= i < w.len() && (#[trigger] w[i]).0 == z implies w[i].1
                is Some by {
                assert(st[i].0 == z);
            }
        }
        if store::writable(w, z) {
            assert forall|i: int| 0 <= i < st.len() && (#[trigger] st[i]).0 == z implies st[i].1
                is Some by {
                assert(w[i].0 == z);
            }
        }
    }
}

/// What bringing the counts to the tables does: the writer `a` becomes `b` and the files
/// `st` become `after`. The counts of each year that occurs go to the tables of that year;
/// those of a year whose file cannot be read stay with the writer. `r` is a recovery file
/// that is no longer needed, once a part arrived.
pub open spec fn carried_over(
    a: DbWriter,
    b: DbWriter,
    st: StoreModel,
    after: StoreModel,
    year: int,
    r: Option<String>,
) -> bool {
    &&& a.today_count == b.today_count
    &&& a.today_active == b.today_active
    &&& a.today_key == b.today_key
    &&& a.alive == b.alive
    &&& exists|years: Seq<i32>|
        #![trigger all_covered(a.agg@, years, year)]
        {
            &&& no_repeats(years)
            &&& all_covered(a.agg@, years, year)
            &&& forall|i: int|
                0 <= i < years.len() ==> year_occurs(
                    a.agg@,
                    #[trigger] years[i] as int,
                    year,
                )
            &&& forall|y: i32| #[trigger]
                store::tables_of(after, y) == (if lists(years, y as int)
                    && store::writable(st, y) {
                    store::applied(
                        store::tables_of(st, y),
                        part_of(a.agg@, y as int, year),
                    )
                } else {
                    store::tables_of(st, y)
                })
            &&& forall|y: i32| #[trigger] store::writable(after, y) == store::writable(st, y)
            &&& forall|y: i32| #[trigger]
                store::has_file(after, y) == (store::has_file(st, y) || (lists(years, y as int)
                    && store::writable(st, y)))
            &&& b.agg@ == left_over(
                a.agg@,
                failed_years(st, years),
                year,
            )
            &&& b.flush_seq == a.flush_seq + years.len() - failed_years(
                st,
                years,
            ).len()
            &&& if years.len() > failed_years(st, years).len() {
                r == a.recovery_leftover && b.recovery_leftover is None
            } else {
                r is None && b.recovery_leftover == a.recovery_leftover
            }
        }
}

/// The counts of the parts.
pub open spec fn part_views(parts: Seq<(i32, AggDeltas)>) -> Seq<DeltasModel> {
    Seq::new(parts.len(), |i: int| parts[i].1@)
}

/// The years of the parts.
pub open spec fn part_years(parts: Seq<(i32, AggDeltas)>) -> Seq<i32> {
    Seq::new(parts.len(), |i: int| parts[i].0)
}

/// How many parts arrived.
pub open spec fn arrivals(arrived: Seq<bool>) -> nat
    decreases arrived.len(),
{
    if arrived.len() == 0 {
        0
    } else {
        arrivals(arrived.drop_last()) + (if arrived.last() {
            1nat
        } else {
            0nat
        })
    }
}

/// The counts `v` with those of the parts that did not arrive.
pub open spec fn with_failed(
    v: DeltasModel,
    parts: Seq<DeltasModel>,
    arrived: Seq<bool>,
) -> DeltasModel
    decreases parts.len(),
{
    if parts.len() == 0 {
        v
    } else {
        let r = with_failed(v, parts.drop_last(), arrived.drop_last());
        if arrived.last() {
            r
        } else {
            r.plus(parts.last())
        }
    }
}

/// Whether the counts `v` leave room for the parts that did not arrive.
pub open spec fn parts_fit(v: DeltasModel, parts: Seq<DeltasModel>, arrived: Seq<bool>) -> bool
    decreases parts.len(),
{
    parts.len() == 0 || {
        &&& parts_fit(v, parts.drop_last(), arrived.drop_last())
        &&& arrived.last() || with_failed(
            v,
            parts.drop_last(),
            arrived.drop_last(),
        ).takes_all(parts.last())
    }
}

proof fn lemma_parts_fit_prefix(
    v: DeltasModel,
    parts: Seq<DeltasModel>,
    arrived: Seq<bool>,
    n: int,
)
    requires
        0 <= n <= parts.len(),
        parts.len() == arrived.len(),
        parts_fit(v, parts, arrived),
    ensures
        parts_fit(v, parts.take(n), arrived.take(n)),
        arrivals(arrived.take(n)) <= arrivals(arrived),
    decreases parts.len(),
{
    if n < parts.len() {
        let (p, a) = (parts.drop_last(), arrived.drop_last());
        lemma_parts_fit_prefix(v, p, a, n);
        assert(p.take(n) =~= parts.take(n));
        assert(a.take(n) =~= arrived.take(n));
    } else {
        assert(parts.take(n) =~= parts);
        assert(arrived.take(n) =~= arrived);
    }
}

proof fn lemma_arrivals(arrived: Seq<bool>)
    ensures
        arrivals(arrived) <= arrived.len(),
    decreases arrived.len(),
{
    if arrived.len() > 0 {
        lemma_arrivals(arrived.drop_last());
    }
}

impl DbWriter {
    /// Takes everything counted away to bring it to the tables, in parts, one for each
    /// year.
    pub fn begin_flush(&mut self, current_year: i32) -> (r: Vec<(i32, AggDeltas)>)
        requires
            old(self).wf(),
        ensures
            final(self).wf(),
            *final(self) == (DbWriter { agg: final(self).agg, ..*old(self) }),
            final(self).agg@ == old(self).agg@.emptied(),
            no_repeats(part_years(r@)),
            all_covered(old(self).agg@, part_years(r@), current_year as int),
            forall|i: int|
                0 <= i < r@.len() ==> (#[trigger] r@[i]).1.wf() && r@[i].1@ == part_of(
                    old(self).agg@,
                    r@[i].0 as int,
                    current_year as int,
                ) && year_occurs(old(self).agg@, r@[i].0 as int, current_year as int),
    {
        let ghost v = self.agg@;
        let ghost cy = current_year as int;
        let pending = self.agg.take_for_flush();
        let r = pending.split_by_year(current_year);
        proof {
            lemma_session_is_apart(pending@, v, part_years(r@), cy);
            assert(part_years(r@) =~= Seq::new(r@.len(), |i: int| r@[i].0));
            assert forall|i: int| 0 <= i < r@.len() implies r@[i].1@ == part_of(
                v,
                (#[trigger] r@[i]).0 as int,
                cy,
            ) && year_occurs(v, r@[i].0 as int, cy) by {
                assert(part_of(pending@, r@[i].0 as int, cy) =~= part_of(v, r@[i].0 as int, cy));
                assert(year_occurs(pending@, r@[i].0 as int, cy));
            }
        }
        r
    }

    /// Ends what `begin_flush` began. `arrived` tells of each part whether it is in its
    /// tables; the others are counted again. Gives the copy of a replayed recovery file
    /// that is no longer needed, once a part arrived.
    pub fn end_flush(&mut self, parts: &Vec<(i32, AggDeltas)>, arrived: &Vec<bool>) -> (r: Option<
        String,
    >)
        requires
            old(self).wf(),
            parts@.len() == arrived@.len(),
            forall|i: int| 0 <= i < parts@.len() ==> (#[trigger] parts@[i]).1.wf(),
            parts_fit(old(self).agg@, part_views(parts@), arrived@),
            old(self).flush_seq + arrivals(arrived@) <= u64::MAX,
        ensures
            final(self).wf(),
            *final(self) == (DbWriter {
                agg: final(self).agg,
                flush_seq: final(self).flush_seq,
                recovery_leftover: final(self).recovery_leftover,
                ..*old(self)
            }),
            final(self).agg@ == with_failed(old(self).agg@, part_views(parts@), arrived@),
            final(self).flush_seq == old(self).flush_seq + arrivals(arrived@),
            arrivals(arrived@) > 0 ==> r == old(self).recovery_leftover
                && final(self).recovery_leftover is None,
            arrivals(arrived@) == 0 ==> r is None && final(self).recovery_leftover == old(
                self,
            ).recovery_leftover,
    {
        let ghost v = self.agg@;
        let ghost pv = part_views(parts@);
        let mut wrote: u64 = 0;
        let mut i: usize = 0;
        assert(pv.take(0) =~= Seq::<DeltasModel>::empty());
        assert(arrived@.take(0) =~= Seq::<bool>::empty());
        while i < parts.len()
            invariant
                i <= parts@.len(),
                parts@.len() == arrived@.len(),
                pv == part_views(parts@),
                v == old(self).agg@,
                forall|i: int| 0 <= i < parts@.len() ==> (#[trigger] parts@[i]).1.wf(),
                parts_fit(v, pv, arrived@),
                old(self).flush_seq + arrivals(arrived@) <= u64::MAX,
                self.wf(),
                *self == (DbWriter { agg: self.agg, ..*old(self) }),
                self.agg@ == with_failed(v, pv.take(i as int), arrived@.take(i as int)),
                wrote == arrivals(arrived@.take(i as int)),
            decreases parts.len() - i,
        {
            proof {
                let n = i as int;
                lemma_parts_fit_prefix(v, pv, arrived@, n + 1);
                assert(pv.take(n + 1).drop_last() =~= pv.take(n));
                assert(arrived@.take(n + 1).drop_last() =~= arrived@.take(n));
            }
            if arrived[i] {
                wrote = wrote + 1;
            } else {
                self.agg.refill(&parts[i].1);
            }
            i = i + 1;
        }
        proof {
            assert(pv.take(i as int) =~= pv);
            assert(arrived@.take(i as int) =~= arrived@);
        }
        let mut gone: Option<String> = None;
        if wrote > 0 {
            gone = self.recovery_leftover.take();
        }
        self.flush_seq = self.flush_seq + wrote;
        gone
    }

    /// Brings everything counted to the tables, each part to those of its year. Parts
    /// whose file cannot be read stay counted. Gives the copy of a replayed recovery file
    /// that is no longer needed, once a part arrived.
    #[verifier::rlimit(40)]
    pub fn flush(&mut self, target: &mut Store, current_year: i32) -> (r: Option<String>)
        requires
            old(self).wf(),
            old(target).wf(),
            flushable(old(target)@, old(self).agg@, current_year as int),
            old(self).flush_seq + MAX_PARTS <= u64::MAX,
        ensures
            final(self).wf(),
            final(target).wf(),
            carried_over(
                *old(self),
                *final(self),
                old(target)@,
                final(target)@,
                current_year as int,
                r,
            ),
    {
        let ghost v = self.agg@;
        let ghost st = target@;
        let ghost cy = current_year as int;
        let parts = self.begin_flush(current_year);
        let ghost years = part_years(parts@);
        let ghost pv = part_views(parts@);
        let ghost e = v.emptied();
        proof {
            assert(years.take(0) =~= Seq::<i32>::empty());
            assert(e =~= left_over(v, Seq::empty(), cy));
        }
        let mut arrived: Vec<bool> = Vec::new();
        let mut i: usize = 0;
        while i < parts.len()
            invariant
                i <= parts@.len(),
                years == part_years(parts@),
                pv == part_views(parts@),
                no_repeats(years),
                forall|k: int|
                    0 <= k < parts@.len() ==> (#[trigger] parts@[k]).1.wf() && parts@[k].1@
                        == part_of(v, parts@[k].0 as int, cy),
                cy == current_year as int,
                flushable(st, v, cy),
                tables_fit(v),
                target.wf(),
                arrived@.len() == i,
                e == v.emptied(),
                parts_fit(e, pv.take(i as int), arrived@),
                with_failed(e, pv.take(i as int), arrived@) == left_over(
                    v,
                    failed_years(st, years.take(i as int)),
                    cy,
                ),
                forall|y: i32| #[trigger]
                    store::tables_of(target@, y) == (if lists(years.take(i as int), y as int)
                        && store::writable(st, y) {
                        store::applied(store::tables_of(st, y), part_of(v, y as int, cy))
                    } else {
                        store::tables_of(st, y)
                    }),
                forall|y: i32| #[trigger] store::writable(target@, y) == store::writable(st, y),
                forall|y: i32| #[trigger]
                    store::has_file(target@, y) == (store::has_file(st, y) || (lists(
                        years.take(i as int),
                        y as int,
                    ) && store::writable(st, y))),
                arrivals(arrived@) + failed_years(st, years.take(i as int)).len() == i,
            decreases parts.len() - i,
        {
            let y = parts[i].0;
            let ghost done = years.take(i as int);
            let ghost more = years.take(i as int + 1);
            let ghost before = target@;
            proof {
                assert(more.drop_last() =~= done);
                assert(more.last() == y);
                assert(more =~= done.push(y));
                if lists(done, y as int) {
                    let j = choose|j: int| 0 <= j < done.len() && #[trigger] done[j] == y as int;
                    assert(years[j] != years[i as int]);
                }
                assert forall|z: int| #[trigger] lists(more, z) == (lists(done, z) || z == y) by {
                    if lists(more, z) {
                        let j = choose|j: int| 0 <= j < more.len() && #[trigger] more[j] == z;
                        if j < i {
                            assert(done[j] == z);
                        }
                    }
                    if lists(done, z) {
                        let j = choose|j: int| 0 <= j < done.len() && #[trigger] done[j] == z;
                        assert(more[j] == z);
                    }
                    assert(more[i as int] == y);
                }
                assert(store::tables_of(before, y) == store::tables_of(st, y));
                assert(store::can_take(store::tables_of(st, y), part_of(v, y as int, cy)));
                assert forall|a: int, b: int| 0 <= a < b < before.len() implies (
                #[trigger] before[a]).0 != (#[trigger] before[b]).0 by {
                    assert(target.files@[a].year != target.files@[b].year);
                }
            }
            let ok = target.flush_partition(y, &parts[i].1);
            let ghost known = arrived@;
            arrived.push(ok);
            proof {
                let more_parts = pv.take(i as int + 1);
                assert(more_parts.drop_last() =~= pv.take(i as int));
                assert(more_parts.last() == parts@[i as int].1@);
                assert(arrived@.drop_last() =~= known);
                if ok {
                    let m = store::applied(store::tables_of(before, y), part_of(v, y as int, cy));
                    assert forall|z: i32| #[trigger]
                        store::tables_of(target@, z) == (if lists(more, z as int)
                            && store::writable(st, z) {
                            store::applied(store::tables_of(st, z), part_of(v, z as int, cy))
                        } else {
                            store::tables_of(st, z)
                        }) by {
                        lemma_with_tables(before, y, m, z);
                        assert(store::tables_of(before, z) == store::tables_of(before, z));
                    }
                    assert forall|z: i32| #[trigger] store::writable(target@, z)
                        == store::writable(st, z) by {
                        lemma_with_tables(before, y, m, z);
                        assert(store::writable(before, z) == store::writable(st, z));
                    }
                    assert forall|z: i32| #[trigger] store::has_file(target@, z) == (
                    store::has_file(st, z) || (lists(more, z as int) && store::writable(st, z))) by {
                        lemma_with_tables(before, y, m, z);
                        assert(store::has_file(before, z) == (store::has_file(st, z) || (lists(
                            done,
                            z as int,
                        ) && store::writable(st, z))));
                    }
                } else {
                    let f = failed_years(st, done);
                    lemma_failed_push(st, more);
                    assert(failed_years(st, more) == f.push(y));
                    lemma_refill_room::<i64>(v.daily, f, y, cy);
                    lemma_refill_room::<(i64, i64)>(v.hourly, f, y, cy);
                    lemma_refill_room::<(i64, String)>(v.keys, f, y, cy);
                    lemma_refill_room::<i64>(v.active, f, y, cy);
                    lemma_refill_room::<(i64, String)>(v.apps, f, y, cy);
                    lemma_refill_room::<(i64, String)>(v.devices, f, y, cy);
                    lemma_refill_room::<(i64, String, String)>(v.device_keys, f, y, cy);
                    assert(f.push(y).drop_last() =~= f);
                    assert(with_failed(e, more_parts, arrived@) =~= left_over(
                        v,
                        failed_years(st, more),
                        cy,
                    ));
                }
            }
            i = i + 1;
        }
        proof {
            assert(years.take(i as int) =~= years);
            assert(pv.take(i as int) =~= pv);
            lemma_few_years(years);
            lemma_arrivals(arrived@);
        }
        let r = self.end_flush(&parts, &arrived);
        proof {
            assert forall|k: int| 0 <= k < years.len() implies year_occurs(
                v,
                #[trigger] years[k] as int,
                cy,
            ) by {
                assert(parts@[k].0 == years[k]);
            }
        }
        r
    }
}

/// What follows an attempt to bring a part to its file.
#[derive(Clone, Copy, PartialEq, Eq, Structural, Debug)]
pub enum FlushStep {
    /// The part is there.
    Done,
    /// The attempt is to be repeated, after that many milliseconds.
    Again(u64),
    /// The part goes back to the writer.
    GiveUp,
}

/// The attempts that are made to bring a part to its file.
pub const MAX_ATTEMPTS: u64 = 3;

/// What follows the attempt of this number, the first of which is 0: one that failed is
/// repeated after a pause, each longer than the one before, until there were enough.
pub fn after_flush_attempt(written: bool, attempt: u64) -> (r: FlushStep)
    ensures
        written ==> r == FlushStep::Done,
        !written && attempt + 1 < MAX_ATTEMPTS ==> r == FlushStep::Again(
            (500 * (attempt + 1)) as u64,
        ),
        !written && attempt + 1 >= MAX_ATTEMPTS ==> r == FlushStep::GiveUp,
{
    if written {
        FlushStep::Done
    } else if attempt < MAX_ATTEMPTS - 1 {
        FlushStep::Again(500 * (attempt + 1))
    } else {
        FlushStep::GiveUp
    }
}

// ------------------------------------------------------------------- nothing is lost

/// The sum over the rows of one key in the given years is that row, where its year is one
/// of them.
proof fn lemma_row_of_years<K: Dated>(
    s: Seq<(K::V, int)>,
    years: Seq<i32>,
    current_year: int,
    k: K::V,
)
    requires
        no_repeats(years),
    ensures
        sum_of_years::<K>(s, years, current_year, |v: K::V| v == k) == (if lists(
            years,
            days::year_of(K::day_of(k), current_year),
        ) {
            tally::amount(s, k)
        } else {
            0
        }),
    decreases s.len(),
{
    let p = |v: K::V| v == k;
    if s.len() == 0 {
        lemma_years_empty::<K>(s, years, current_year, p);
    } else {
        lemma_row_of_years::<K>(s.drop_last(), years, current_year, k);
        lemma_years_push::<K>(s, years, current_year, p);
    }
}

/// Which years could not be written.
proof fn lemma_failed(st: store::StoreModel, years: Seq<i32>, y: i32)
    ensures
        lists(failed_years(st, years), y as int) <==> lists(years, y as int) && !store::writable(
            st,
            y,
        ),
    decreases years.len(),
{
    if years.len() > 0 {
        let t = years.drop_last();
        let f = failed_years(st, t);
        lemma_failed(st, t, y);
        if lists(years, y as int) && years.last() != y {
            let j = choose|j: int| 0 <= j < years.len() && #[trigger] years[j] == y;
            assert(t[j] == y);
        }
        if lists(t, y as int) {
            let j = choose|j: int| 0 <= j < t.len() && #[trigger] t[j] == y;
            assert(years[j] == y);
        }
        if years.last() == y {
            assert(years[years.len() - 1] == y);
        }
        if !store::writable(st, years.last()) {
            let g = f.push(years.last());
            if lists(f, y as int) {
                let j = choose|j: int| 0 <= j < f.len() && #[trigger] f[j] == y;
                assert(g[j] == y);
            }
            if lists(g, y as int) && years.last() != y {
                let j = choose|j: int| 0 <= j < g.len() && #[trigger] g[j] == y;
                assert(f[j] == y);
            }
            if years.last() == y {
                assert(g[g.len() - 1] == y);
            }
        }
    }
}

/// A row is either added to its table or stays with the writer.
proof fn lemma_row_arrives<K: Dated>(
    table: Seq<(K::V, int)>,
    s: Seq<(K::V, int)>,
    st: store::StoreModel,
    years: Seq<i32>,
    current_year: int,
    k: K::V,
    y: i32,
)
    requires
        no_repeats(years),
        covered::<K>(s, years, current_year),
        tally::distinct(table),
        y == days::year_of(K::day_of(k), current_year),
    ensures
        lists(years, y as int) && store::writable(st, y) ==> tally::amount(
            tally::absorb(table, tally::keep(s, in_year::<K>(y as int, current_year))),
            k,
        ) == tally::amount(table, k) + tally::amount(s, k),
        store::writable(st, y) ==> tally::amount(
            refilled::<K>(Seq::empty(), s, failed_years(st, years), current_year),
            k,
        ) == 0,
        !(lists(years, y as int) && store::writable(st, y)) ==> tally::amount(
            refilled::<K>(Seq::empty(), s, failed_years(st, years), current_year),
            k,
        ) == tally::amount(s, k),
{
    let failed = failed_years(st, years);
    let none: Seq<(K::V, int)> = Seq::empty();
    lemma_failed_push(st, years);
    lemma_failed(st, years, y);
    lemma_refilled_sum::<K>(none, s, failed, current_year, |v: K::V| v == k);
    lemma_row_of_years::<K>(s, failed, current_year, k);
    tally::lemma_amount_missing(none, k);
    let part = tally::keep(s, in_year::<K>(y as int, current_year));
    tally::lemma_absorb_amount(table, part, k);
    tally::lemma_keep_amount(s, in_year::<K>(y as int, current_year), k);
    if !lists(years, y as int) {
        if tally::has_key(s, k) {
            let i = choose|i: int| 0 <= i < s.len() && (#[trigger] s[i]).0 == k;
            assert(lists(years, days::year_of(K::day_of(s[i].0), current_year)));
        }
        tally::lemma_amount_missing(s, k);
    }
}

/// Nothing is lost and nothing counts twice on the way to the tables: what the tables and
/// the writer have of a row together is the same before and after.
pub proof fn lemma_flush_loses_nothing(
    a: DbWriter,
    b: DbWriter,
    st: Store,
    after: StoreModel,
    current_year: i32,
    r: Option<String>,
    day: i64,
    hour: i64,
    key: Seq<char>,
    app: Seq<char>,
)
    requires
        a.wf(),
        st.wf(),
        carried_over(a, b, st@, after, current_year as int, r),
    ensures
        ({
            let y = days::year_of(day as int, current_year as int) as i32;
            let (old_tables, new_tables) = (store::tables_of(st@, y), store::tables_of(after, y));
            &&& tally::amount(new_tables.daily, day) + tally::amount(b.agg@.daily, day)
                == tally::amount(old_tables.daily, day) + tally::amount(a.agg@.daily, day)
            &&& tally::amount(new_tables.seconds, day) + tally::amount(b.agg@.active, day)
                == tally::amount(old_tables.seconds, day) + tally::amount(a.agg@.active, day)
            &&& tally::amount(new_tables.hourly, (day, hour)) + tally::amount(
                b.agg@.hourly,
                (day, hour),
            ) == tally::amount(old_tables.hourly, (day, hour)) + tally::amount(
                a.agg@.hourly,
                (day, hour),
            )
            &&& tally::amount(new_tables.keys, (day, key)) + tally::amount(
                b.agg@.keys,
                (day, key),
            ) == tally::amount(old_tables.keys, (day, key)) + tally::amount(
                a.agg@.keys,
                (day, key),
            )
            &&& tally::amount(new_tables.apps, (day, app)) + tally::amount(
                b.agg@.apps,
                (day, app),
            ) == tally::amount(old_tables.apps, (day, app)) + tally::amount(
                a.agg@.apps,
                (day, app),
            )
        }),
        store::writable(st@, days::year_of(day as int, current_year as int) as i32) ==> {
            &&& tally::amount(b.agg@.daily, day) == 0
            &&& tally::amount(b.agg@.active, day) == 0
            &&& tally::amount(b.agg@.hourly, (day, hour)) == 0
            &&& tally::amount(b.agg@.keys, (day, key)) == 0
            &&& tally::amount(b.agg@.apps, (day, app)) == 0
        },
{
    let year = current_year as int;
    let v = a.agg@;
    let years = choose|years: Seq<i32>|
        #![trigger all_covered(a.agg@, years, year)]
        {
            &&& no_repeats(years)
            &&& all_covered(a.agg@, years, year)
            &&& forall|y: i32| #[trigger]
                store::tables_of(after, y) == (if lists(years, y as int) && store::writable(
                    st@,
                    y,
                ) {
                    store::applied(store::tables_of(st@, y), part_of(a.agg@, y as int, year))
                } else {
                    store::tables_of(st@, y)
                })
            &&& b.agg@ == left_over(a.agg@, failed_years(st@, years), year)
        };
    let y = days::year_of(day as int, year) as i32;
    let t = store::tables_of(st@, y);
    let part = part_of(v, y as int, year);
    store::lemma_distinct_tables(st, y);
    lemma_row_arrives::<i64>(t.daily, v.daily, st@, years, year, day, y);
    lemma_row_arrives::<i64>(t.seconds, v.active, st@, years, year, day, y);
    lemma_row_arrives::<(i64, i64)>(t.hourly, v.hourly, st@, years, year, (day, hour), y);
    lemma_row_arrives::<(i64, String)>(t.keys, v.keys, st@, years, year, (day, key), y);
    lemma_row_arrives::<(i64, String)>(t.apps, v.apps, st@, years, year, (day, app), y);
    tally::lemma_absorb_shape(t.daily, part.daily);
    tally::lemma_absorb_amount(tally::absorb(t.daily, part.daily), tally::zeros(part.active), day);
    tally::lemma_zero_amount(part.active, day);
    tally::lemma_absorb_shape(t.seconds, part.active);
    tally::lemma_absorb_amount(tally::absorb(t.seconds, part.active), tally::zeros(part.daily), day);
    tally::lemma_zero_amount(part.daily, day);
}

/// The sum over rows of one day in the given years is the sum over those rows, where the
/// year of that day is one of them.
proof fn lemma_day_of_years<K: Dated>(
    s: Seq<(K::V, int)>,
    years: Seq<i32>,
    current_year: int,
    p: spec_fn(K::V) -> bool,
    day: int,
)
    requires
        no_repeats(years),
        forall|v: K::V| #[trigger] p(v) ==> K::day_of(v) == day,
    ensures
        sum_of_years::<K>(s, years, current_year, p) == (if lists(
            years,
            days::year_of(day, current_year),
        ) {
            tally::sum_if(s, p)
        } else {
            0
        }),
    decreases s.len(),
{
    if s.len() == 0 {
        lemma_years_empty::<K>(s, years, current_year, p);
    } else {
        lemma_day_of_years::<K>(s.drop_last(), years, current_year, p, day);
        lemma_years_push::<K>(s, years, current_year, p);
    }
}

/// Rows of one day either go to the part of their year or stay with the writer.
proof fn lemma_rows_arrive<K: Dated>(
    s: Seq<(K::V, int)>,
    st: store::StoreModel,
    years: Seq<i32>,
    current_year: int,
    p: spec_fn(K::V) -> bool,
    day: int,
    y: i32,
)
    requires
        no_repeats(years),
        covered::<K>(s, years, current_year),
        forall|v: K::V| #[trigger] p(v) ==> K::day_of(v) == day,
        y == days::year_of(day, current_year),
    ensures
        tally::sum_if(tally::keep(s, in_year::<K>(y as int, current_year)), p) == tally::sum_if(
            s,
            p,
        ),
        store::writable(st, y) ==> tally::sum_if(
            refilled::<K>(Seq::empty(), s, failed_years(st, years), current_year),
            p,
        ) == 0,
        !(lists(years, y as int) && store::writable(st, y)) ==> tally::sum_if(
            refilled::<K>(Seq::empty(), s, failed_years(st, years), current_year),
            p,
        ) == tally::sum_if(s, p),
{
    let failed = failed_years(st, years);
    let none: Seq<(K::V, int)> = Seq::empty();
    let q = in_year::<K>(y as int, current_year);
    lemma_failed_push(st, years);
    lemma_failed(st, years, y);
    lemma_refilled_sum::<K>(none, s, failed, current_year, p);
    lemma_day_of_years::<K>(s, failed, current_year, p, day);
    tally::lemma_keep_sum(s, q, p);
    tally::lemma_sum_same(s, |v: K::V| p(v) && q(v), p);
    if !lists(years, y as int) {
        assert forall|i: int| 0 <= i < s.len() implies !p((#[trigger] s[i]).0) by {
            assert(lists(years, days::year_of(K::day_of(s[i].0), current_year)));
        }
        tally::lemma_sum_none(s, p);
    }
}

/// No input of a device is lost and none counts twice on the way to the tables: what the
/// rows of a device and the writer have together, of a day and of a key on a day, is the
/// same before and after. A device that was known keeps its id.
pub proof fn lemma_flush_keeps_device_inputs(
    a: DbWriter,
    b: DbWriter,
    st: Store,
    after: Store,
    current_year: i32,
    r: Option<String>,
    day: i64,
    device: Seq<char>,
    name: Seq<char>,
)
    requires
        a.wf(),
        st.wf(),
        after.wf(),
        carried_over(a, b, st@, after@, current_year as int, r),
    ensures
        ({
            let y = days::year_of(day as int, current_year as int) as i32;
            let (old_tables, new_tables) = (store::tables_of(st@, y), store::tables_of(after@, y));
            let p = store::of_device(day, device);
            let q = store::of_device_key(day, device, name);
            &&& if store::knows(new_tables.devices, device) {
                let id = store::id_of(new_tables.devices, device) as i64;
                &&& tally::amount(new_tables.device_counts, (day, id)) + tally::sum_if(
                    b.agg@.devices,
                    p,
                ) == tally::amount(old_tables.device_counts, (day, id)) + tally::sum_if(
                    a.agg@.devices,
                    p,
                )
                &&& tally::amount(new_tables.device_keys, (day, id, name)) + tally::sum_if(
                    b.agg@.device_keys,
                    q,
                ) == tally::amount(old_tables.device_keys, (day, id, name)) + tally::sum_if(
                    a.agg@.device_keys,
                    q,
                )
            } else {
                &&& tally::sum_if(b.agg@.devices, p) == tally::sum_if(a.agg@.devices, p)
                &&& tally::sum_if(b.agg@.device_keys, q) == tally::sum_if(a.agg@.device_keys, q)
            }
            &&& store::writable(st@, y) ==> tally::sum_if(b.agg@.devices, p) == 0
                && tally::sum_if(b.agg@.device_keys, q) == 0
            &&& store::knows(old_tables.devices, device) ==> store::knows(
                new_tables.devices,
                device,
            ) && store::id_of(new_tables.devices, device) == store::id_of(
                old_tables.devices,
                device,
            )
        }),
{
    let year = current_year as int;
    let v = a.agg@;
    let years = choose|years: Seq<i32>|
        #![trigger all_covered(a.agg@, years, year)]
        {
            &&& no_repeats(years)
            &&& all_covered(a.agg@, years, year)
            &&& forall|y: i32| #[trigger]
                store::tables_of(after@, y) == (if lists(years, y as int) && store::writable(
                    st@,
                    y,
                ) {
                    store::applied(store::tables_of(st@, y), part_of(a.agg@, y as int, year))
                } else {
                    store::tables_of(st@, y)
                })
            &&& b.agg@ == left_over(a.agg@, failed_years(st@, years), year)
        };
    let y = days::year_of(day as int, year) as i32;
    let t = store::tables_of(st@, y);
    let w = store::tables_of(after@, y);
    let part = part_of(v, y as int, year);
    let p = store::of_device(day, device);
    let q = store::of_device_key(day, device, name);
    store::lemma_distinct_tables(st, y);
    store::lemma_distinct_tables(after, y);
    lemma_rows_arrive::<(i64, String)>(v.devices, st@, years, year, p, day as int, y);
    lemma_rows_arrive::<(i64, String, String)>(v.device_keys, st@, years, year, q, day as int, y);
    if lists(years, y as int) && store::writable(st@, y) {
        store::lemma_device_counts_arrive(t, part, day, device, name);
    }
}

/// The number of batches tells whether the tables changed: it never falls, it stays where
/// nothing was counted or no part could be written, and it grows where one could. Nothing is
/// left to bring to the tables where all parts could be written.
pub proof fn lemma_flush_counts_batches(
    a: DbWriter,
    b: DbWriter,
    st: Store,
    after: StoreModel,
    current_year: i32,
    r: Option<String>,
)
    requires
        a.wf(),
        st.wf(),
        carried_over(a, b, st@, after, current_year as int, r),
    ensures
        b.flush_seq >= a.flush_seq,
        a.agg@.is_empty() ==> b.flush_seq == a.flush_seq && b.agg@.is_empty(),
        (exists|y: i32| #[trigger]
            year_occurs(a.agg@, y as int, current_year as int) && store::writable(st@, y))
            <==> b.flush_seq > a.flush_seq,
        (forall|y: i32| #[trigger]
            year_occurs(a.agg@, y as int, current_year as int) ==> store::writable(st@, y))
            ==> b.agg@.is_empty(),
{
    let year = current_year as int;
    let v = a.agg@;
    let years = choose|years: Seq<i32>|
        #![trigger all_covered(a.agg@, years, year)]
        {
            &&& no_repeats(years)
            &&& all_covered(a.agg@, years, year)
            &&& forall|i: int|
                0 <= i < years.len() ==> year_occurs(a.agg@, #[trigger] years[i] as int, year)
            &&& b.agg@ == left_over(a.agg@, failed_years(st@, years), year)
            &&& b.flush_seq == a.flush_seq + years.len() - failed_years(st@, years).len()
        };
    let failed = failed_years(st@, years);
    lemma_failed_few(st@, years);
    if v.is_empty() && years.len() > 0 {
        assert(year_occurs(v, years[0] as int, year));
    }
    if exists|y: i32| #[trigger] year_occurs(v, y as int, year) && store::writable(st@, y) {
        let y = choose|y: i32| #[trigger] year_occurs(v, y as int, year) && store::writable(st@, y);
        assert(lists(years, y as int));
        let j = choose|j: int| 0 <= j < years.len() && #[trigger] years[j] == y as int;
        assert(store::writable(st@, years[j]));
    }
    if failed.len() < years.len() {
        let j = choose|j: int| 0 <= j < years.len() && store::writable(st@, #[trigger] years[j]);
        assert(year_occurs(v, years[j] as int, year));
    }
    if forall|y: i32| #[trigger] year_occurs(v, y as int, year) ==> store::writable(st@, y) {
        if failed.len() > 0 {
            lemma_failed_push(st@, years);
            let y = failed[0];
            assert(years.contains(y));
            let j = choose|j: int| 0 <= j < years.len() && years[j] == y;
            assert(year_occurs(v, years[j] as int, year));
            lemma_failed(st@, years, y);
            assert(failed[0] == y as int);
        }
    }
}

/// How many of the years could not be written.
proof fn lemma_failed_few(st: store::StoreModel, years: Seq<i32>)
    ensures
        failed_years(st, years).len() <= years.len(),
        failed_years(st, years).len() < years.len() <==> exists|j: int|
            0 <= j < years.len() && store::writable(st, #[trigger] years[j]),
    decreases years.len(),
{
    if years.len() > 0 {
        let t = years.drop_last();
        lemma_failed_few(st, t);
        if exists|j: int| 0 <= j < t.len() && store::writable(st, #[trigger] t[j]) {
            let j = choose|j: int| 0 <= j < t.len() && store::writable(st, #[trigger] t[j]);
            assert(store::writable(st, years[j]));
        }
        if exists|j: int| 0 <= j < years.len() && store::writable(st, #[trigger] years[j]) {
            let j = choose|j: int| 0 <= j < years.len() && store::writable(st, #[trigger] years[j]);
            if j < t.len() {
                assert(t[j] == years[j]);
            }
        }
        if store::writable(st, years.last()) {
            assert(years[years.len() - 1] == years.last());
        }
    }
}

/// A press counts once in its day, its hour and under its key, and nowhere else; the time
/// since the last one counts once as active time and for the application in front. Inputs
/// of devices stay apart.
pub proof fn lemma_record_counts_once(
    v: DeltasModel,
    key: Seq<char>,
    ts: i64,
    offset: i64,
    day: i64,
    hour: i64,
    name: Seq<char>,
    app: Seq<char>,
)
    requires
        v.distinct(),
    ensures
        ({
            let r = recorded(v, key, ts as int, offset as int);
            let d = days::day_at(ts as int, offset as int) as i64;
            let h = days::hour_at(ts as int, offset as int) as i64;
            let g = gap(v.last_ts, ts as int);
            &&& tally::amount(r.daily, day) == tally::amount(v.daily, day) + (if day == d {
                1int
            } else {
                0
            })
            &&& tally::amount(r.hourly, (day, hour)) == tally::amount(v.hourly, (day, hour)) + (
            if day == d && hour == h {
                1int
            } else {
                0
            })
            &&& tally::amount(r.keys, (day, name)) == tally::amount(v.keys, (day, name)) + (
            if day == d && name == key {
                1int
            } else {
                0
            })
            &&& tally::amount(r.active, day) == tally::amount(v.active, day) + (if day == d {
                g
            } else {
                0
            })
            &&& tally::amount(r.apps, (day, app)) == tally::amount(v.apps, (day, app)) + (
            if day == d && v.current_app == Some(app) {
                g
            } else {
                0
            })
            &&& r.devices == v.devices
            &&& r.device_keys == v.device_keys
            &&& r.meta == v.meta
            &&& !r.is_empty()
        }),
{
    let d = days::day_at(ts as int, offset as int) as i64;
    let h = days::hour_at(ts as int, offset as int) as i64;
    let g = gap(v.last_ts, ts as int);
    tally::lemma_bump_each(v.daily, d, 1, day);
    tally::lemma_bump_each(v.hourly, (d, h), 1, (day, hour));
    tally::lemma_bump_each(v.keys, (d, key), 1, (day, name));
    tally::lemma_bump_each(v.active, d, g, day);
    if let Some(c) = v.current_app {
        tally::lemma_bump_each(v.apps, (d, c), g, (day, app));
    }
    tally::lemma_bump_shape(v.daily, d, 1);
    assert(tally::has_key(tally::bump(v.daily, d, 1), d));
}

/// What was counted waits for the tables: after a press or an input of a device there is
/// something to bring to them. Registrations, the time of the last event and the application
/// in front alone are nothing to bring.
pub proof fn lemma_counted_is_pending(
    v: DeltasModel,
    device: Seq<char>,
    name: Seq<char>,
    kind: Seq<char>,
    key: Seq<char>,
    ts: i64,
    offset: i64,
    meta: MetaList,
    last_ts: int,
    app: Option<Seq<char>>,
)
    requires
        v.distinct(),
    ensures
        !recorded(v, key, ts as int, offset as int).is_empty(),
        !device_recorded(v, device, name, kind, ts as int, offset as int).is_empty(),
        !device_key_recorded(v, device, key, ts as int, offset as int).is_empty(),
        (DeltasModel { meta, last_ts, current_app: app, ..v }).is_empty() == v.is_empty(),
{
    let d = days::day_at(ts as int, offset as int) as i64;
    tally::lemma_bump_shape(v.daily, d, 1);
    assert(tally::has_key(tally::bump(v.daily, d, 1), d));
    tally::lemma_bump_shape(v.devices, (d, device), 1);
    assert(tally::has_key(tally::bump(v.devices, (d, device), 1), (d, device)));
    tally::lemma_bump_shape(v.device_keys, (d, device, key), 1);
    assert(tally::has_key(
        tally::bump(v.device_keys, (d, device, key), 1),
        (d, device, key),
    ));
}

// ------------------------------------------------------------------------ the loop

/// What the loop of the writer hears.
#[derive(Clone, Copy, PartialEq, Eq, Structural, Debug)]
pub enum WriterEvent {
    /// The counts are asked to go to the tables.
    Flush,
    /// The end is asked for.
    Stop,
    /// Nobody can ask any more.
    Disconnected,
    /// Nothing was heard for a while.
    Timeout,
}

/// What the loop of the writer does: whether it brings the counts to the tables, whether it
/// ends then, and when it did so last.
#[derive(Clone, Copy, PartialEq, Eq, Structural, Debug)]
pub struct LoopStep {
    pub flush: bool,
    pub stop: bool,
    pub last_flush: u64,
}

/// What the loop of the writer does next. Times and the interval are in milliseconds. It
/// never ends without bringing the counts to the tables.
pub fn writer_loop(event: WriterEvent, last_flush: u64, now: u64, interval: u64) -> (r: LoopStep)
    ensures
        r.stop == (event == WriterEvent::Stop || event == WriterEvent::Disconnected),
        r.flush == (event != WriterEvent::Timeout || now - last_flush >= interval),
        r.last_flush == (if r.flush && !r.stop {
            now
        } else {
            last_flush
        }),
        r.stop ==> r.flush,
{
    match event {
        WriterEvent::Flush => LoopStep { flush: true, stop: false, last_flush: now },
        WriterEvent::Stop => LoopStep { flush: true, stop: true, last_flush },
        WriterEvent::Disconnected => LoopStep { flush: true, stop: true, last_flush },
        WriterEvent::Timeout => if now as i128 - last_flush as i128 >= interval as i128 {
            LoopStep { flush: true, stop: false, last_flush: now }
        } else {
            LoopStep { flush: false, stop: false, last_flush }
        },
    }
}

} // verus!
