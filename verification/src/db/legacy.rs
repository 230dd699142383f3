//! Bringing data of early versions into the tables: the log of single key presses, device
//! tables that name devices by their path, and active seconds in a table of their own.
use vstd::prelude::*;
use vstd::string::*;

use crate::db::select;
use crate::db::select::{group, Pick};
use crate::db::store;
use crate::db::store::{Registry, YearDb, YearModel};
use crate::tally;
use crate::tally::Tally;
use crate::text;
use crate::text::{chars_of, push_char, str_eq, string_of_range};

verus! {

// ---------------------------------------------------------------------------- key names

/// The key name that stands for the name of a combination with Ctrl in early versions:
/// letters in upper case, digits, and the Delete key.
pub open spec fn combo(old: Seq<char>) -> Option<Seq<char>> {
    if old.len() == 6 && old.take(5) == "Ctrl+"@ && is_letter(old[5]) {
        Some(seq![text::upper(old[5])])
    } else if old.len() == 6 && old.take(5) == "Ctrl+"@ && text::is_digit(old[5]) {
        Some(seq![old[5]])
    } else if old == "Ctrl+127"@ {
        Some("Delete"@)
    } else {
        None
    }
}

/// Whether `c` is a letter from `a` to `z`, in either case.
pub open spec fn is_letter(c: char) -> bool {
    ('A' <= c <= 'Z') || ('a' <= c <= 'z')
}

/// The key name that stands for the name of a combination with Ctrl in early versions.
pub fn combo_key_mapping(old: &str) -> (r: Option<String>)
    ensures
        match r {
            Some(s) => combo(old@) == Some(s@),
            None => combo(old@) is None,
        },
{
    let v = chars_of(old);
    if v.len() == 6 {
        let head = string_of_range(&v, 0, 5);
        assert(head@ =~= old@.take(5));
        if str_eq(head.as_str(), "Ctrl+") {
            let c = v[5];
            let small = 'a' <= c && c <= 'z';
            if small || ('A' <= c && c <= 'Z') {
                let mut s: String = String::new();
                let u = if small {
                    (c as u8 - 32u8) as char
                } else {
                    c
                };
                push_char(&mut s, u);
                assert(u == text::upper(c));
                assert(s@ =~= seq![text::upper(c)]);
                return Some(s);
            }
            if '0' <= c && c <= '9' {
                let mut s: String = String::new();
                push_char(&mut s, c);
                assert(s@ =~= seq![c]);
                return Some(s);
            }
        }
    }
    if str_eq(old, "Ctrl+127") {
        proof {
            reveal_strlit("Ctrl+127");
        }
        return Some("Delete".to_owned());
    }
    None
}

/// The name that presses under `name` are counted by.
pub open spec fn modern(name: Seq<char>) -> Seq<char> {
    match combo(name) {
        Some(n) => n,
        None => name,
    }
}

/// A modern name stays as it is.
pub proof fn lemma_modern_stays(name: Seq<char>)
    ensures
        modern(modern(name)) == modern(name),
{
    if combo(name) is Some {
        reveal_strlit("Delete");
        reveal_strlit("Ctrl+");
        reveal_strlit("Ctrl+127");
        let m = modern(name);
        if m == "Delete"@ {
            assert(m.take(5)[0] == 'D');
            assert("Ctrl+"@[0] == 'C');
        } else {
            assert(m.len() == 1);
        }
    }
}

// -------------------------------------------------------------------------------- log

/// A single key press as early versions logged it: when, in seconds since 1970, and what.
pub struct LogEntry {
    pub time: i64,
    pub key: String,
}

/// A single key press.
pub type LogModel = Seq<(i64, Seq<char>)>;

pub open spec fn log_of(v: Seq<LogEntry>) -> LogModel {
    Seq::new(v.len(), |i: int| (v[i].time, v[i].key@))
}

/// `a / b` with the fraction dropped.
pub open spec fn quotient(a: int, b: int) -> int {
    if a >= 0 {
        a / b
    } else {
        -((-a) / b)
    }
}

/// The day of a logged press, where local time is `offset` seconds ahead of UTC.
pub open spec fn log_day(time: int, offset: int) -> int {
    quotient(time + offset, 86_400)
}

/// The hour of a logged press.
pub open spec fn log_hour(time: int, offset: int) -> int {
    let h = quotient(time + offset, 3600);
    if h >= 0 {
        h % 24
    } else {
        -((-h) % 24)
    }
}

/// The tables with the presses of a log counted, before names are brought up to date.
pub open spec fn logged(y: YearModel, log: LogModel, offset: int) -> YearModel
    decreases log.len(),
{
    if log.len() == 0 {
        y
    } else {
        let z = logged(y, log.drop_last(), offset);
        let e = log.last();
        let day = log_day(e.0 as int, offset) as i64;
        let hour = log_hour(e.0 as int, offset) as i64;
        YearModel {
            daily: tally::bump(z.daily, day, 1),
            seconds: tally::bump(z.seconds, day, 0),
            hourly: tally::bump(z.hourly, (day, hour), 1),
            keys: tally::bump(z.keys, (day, e.1), 1),
            ..z
        }
    }
}

/// Every row.
pub open spec fn every_row() -> spec_fn((i64, Seq<char>)) -> bool {
    |v: (i64, Seq<char>)| true
}

/// A row's key with the name brought up to date.
pub open spec fn with_modern_name() -> spec_fn((i64, Seq<char>)) -> (i64, Seq<char>) {
    |v: (i64, Seq<char>)| (v.0, modern(v.1))
}

/// The keys under names brought up to date; what had two names is added up.
pub open spec fn renamed(keys: Seq<((i64, Seq<char>), int)>) -> Seq<((i64, Seq<char>), int)> {
    select::grouped(keys, every_row(), with_modern_name())
}

/// The tables after a log was brought in: its presses are counted, and the names of
/// combinations with Ctrl are brought up to date. An empty log changes nothing.
pub open spec fn migrated(y: YearModel, log: LogModel, offset: int) -> YearModel {
    if log.len() == 0 {
        y
    } else {
        let z = logged(y, log, offset);
        YearModel { keys: renamed(z.keys), ..z }
    }
}

/// Names brought up to date.
pub struct ByModernName;

impl Pick<(i64, String), (i64, String)> for ByModernName {
    open spec fn takes(&self) -> spec_fn((i64, Seq<char>)) -> bool {
        every_row()
    }

    open spec fn names(&self) -> spec_fn((i64, Seq<char>)) -> (i64, Seq<char>) {
        with_modern_name()
    }

    fn takes_row(&self, k: &(i64, String)) -> (r: bool) {
        true
    }

    fn name(&self, k: &(i64, String)) -> (r: (i64, String)) {
        match combo_key_mapping(k.1.as_str()) {
            Some(n) => (k.0, n),
            None => (k.0, k.1.clone()),
        }
    }
}

proof fn lemma_logged(y: YearModel, log: LogModel, offset: int)
    requires
        tally::distinct(y.daily),
        tally::distinct(y.seconds),
        tally::distinct(y.hourly),
        tally::distinct(y.keys),
    ensures
        tally::distinct(logged(y, log, offset).daily),
        tally::distinct(logged(y, log, offset).seconds),
        tally::distinct(logged(y, log, offset).hourly),
        tally::distinct(logged(y, log, offset).keys),
        tally::total(logged(y, log, offset).daily) == tally::total(y.daily) + log.len(),
        tally::total(logged(y, log, offset).seconds) == tally::total(y.seconds),
        tally::total(logged(y, log, offset).hourly) == tally::total(y.hourly) + log.len(),
        tally::total(logged(y, log, offset).keys) == tally::total(y.keys) + log.len(),
    decreases log.len(),
{
    if log.len() > 0 {
        lemma_logged(y, log.drop_last(), offset);
        let z = logged(y, log.drop_last(), offset);
        let e = log.last();
        let day = log_day(e.0 as int, offset) as i64;
        let hour = log_hour(e.0 as int, offset) as i64;
        tally::lemma_bump_shape(z.daily, day, 1);
        tally::lemma_bump_sum(z.daily, day, 1, |v: i64| true);
        tally::lemma_bump_shape(z.seconds, day, 0);
        tally::lemma_bump_sum(z.seconds, day, 0, |v: i64| true);
        tally::lemma_bump_shape(z.hourly, (day, hour), 1);
        tally::lemma_bump_sum(z.hourly, (day, hour), 1, |v: (i64, i64)| true);
        tally::lemma_bump_shape(z.keys, (day, e.1), 1);
        tally::lemma_bump_sum(z.keys, (day, e.1), 1, |v: (i64, Seq<char>)| true);
    }
}

/// Bringing a log in counts each of its presses exactly once: in the days, in the hours
/// and under the keys. The active seconds stay as they are.
pub proof fn lemma_log_counts_once(y: YearModel, log: LogModel, offset: int)
    requires
        tally::distinct(y.daily),
        tally::distinct(y.seconds),
        tally::distinct(y.hourly),
        tally::distinct(y.keys),
    ensures
        tally::total(migrated(y, log, offset).daily) == tally::total(y.daily) + log.len(),
        tally::total(migrated(y, log, offset).hourly) == tally::total(y.hourly) + log.len(),
        tally::total(migrated(y, log, offset).keys) == tally::total(y.keys) + log.len(),
        tally::total(migrated(y, log, offset).seconds) == tally::total(y.seconds),
{
    lemma_logged(y, log, offset);
    let k = logged(y, log, offset).keys;
    select::lemma_grouped(k, every_row(), with_modern_name());
    tally::lemma_sum_same(k, every_row(), |v: (i64, Seq<char>)| true);
}

fn trunc_div(a: i128, b: i128) -> (r: i128)
    requires
        b > 0,
        -0x2_0000_0000_0000_0000 < a < 0x2_0000_0000_0000_0000,
    ensures
        r == quotient(a as int, b as int),
        -0x2_0000_0000_0000_0000 < r < 0x2_0000_0000_0000_0000,
{
    if a >= 0 {
        let q: i128 = a / b;
        assert(0 <= a as int / b as int <= a) by (nonlinear_arith)
            requires
                a >= 0,
                b > 0,
        ;
        q
    } else {
        let n: i128 = -a;
        let q: i128 = n / b;
        assert(0 <= n as int / b as int <= n) by (nonlinear_arith)
            requires
                n >= 0,
                b > 0,
        ;
        -q
    }
}

fn day_of_log(time: i64, offset: i64) -> (r: i64)
    ensures
        r == log_day(time as int, offset as int),
{
    let q = trunc_div(time as i128 + offset as i128, 86_400);
    q as i64
}

fn hour_of_log(time: i64, offset: i64) -> (r: i64)
    ensures
        r == log_hour(time as int, offset as int),
{
    let q = trunc_div(time as i128 + offset as i128, 3600);
    if q >= 0 {
        (q % 24) as i64
    } else {
        let n: i128 = -q;
        -((n % 24) as i64)
    }
}

/// Brings a log of single key presses into the tables of a year and tells how many it
/// held. `offset` is what local time is ahead of UTC, in seconds.
pub fn migrate_v2_file(db: &mut YearDb, log: &Vec<LogEntry>, offset: i64) -> (r: usize)
    requires
        old(db).wf(),
        tally::total(old(db)@.daily) + log@.len() <= i64::MAX,
        tally::total(old(db)@.hourly) + log@.len() <= i64::MAX,
        tally::total(old(db)@.keys) + log@.len() <= i64::MAX,
    ensures
        final(db).wf(),
        final(db)@ == migrated(old(db)@, log_of(log@), offset as int),
        r == log@.len(),
{
    let ghost y = db@;
    let ghost l = log_of(log@);
    let ghost off = offset as int;
    if log.len() == 0 {
        return 0;
    }
    let mut i: usize = 0;
    assert(l.take(0) =~= Seq::empty());
    while i < log.len()
        invariant
            i <= log.len(),
            l == log_of(log@),
            off == offset,
            db.wf(),
            db@ == logged(y, l.take(i as int), off),
            tally::distinct(y.daily),
            tally::distinct(y.seconds),
            tally::distinct(y.hourly),
            tally::distinct(y.keys),
            tally::total(y.daily) + log@.len() <= i64::MAX,
            tally::total(y.hourly) + log@.len() <= i64::MAX,
            tally::total(y.keys) + log@.len() <= i64::MAX,
        decreases log.len() - i,
    {
        let ghost z = db@;
        let day = day_of_log(log[i].time, offset);
        let hour = hour_of_log(log[i].time, offset);
        let name = log[i].key.clone();
        proof {
            let t1 = l.take(i as int + 1);
            assert(t1.drop_last() =~= l.take(i as int));
            assert(t1.last() == l[i as int]);
            lemma_logged(y, l.take(i as int), off);
            lemma_same_bump(z.daily, z.seconds, day);
        }
        db.daily.bump(day, 1);
        db.seconds.bump(day, 0);
        db.hourly.bump((day, hour), 1);
        db.keys.bump((day, name), 1);
        assert(db@ =~= logged(y, l.take(i as int + 1), off));
        i = i + 1;
    }
    assert(l.take(i as int) =~= l);
    let keys = group(&db.keys, &ByModernName);
    db.keys = keys;
    assert(db@ =~= migrated(y, l, off));
    log.len()
}

proof fn lemma_same_bump(a: Seq<(i64, int)>, b: Seq<(i64, int)>, k: i64)
    requires
        tally::distinct(a),
        tally::distinct(b),
        store::same_keys(a, b),
    ensures
        store::same_keys(tally::bump(a, k, 1), tally::bump(b, k, 0)),
{
    tally::lemma_bump_shape(a, k, 1);
    tally::lemma_bump_shape(b, k, 0);
    assert forall|x: i64|
        tally::has_key(tally::bump(a, k, 1), x) <==> tally::has_key(tally::bump(b, k, 0), x) by {
        assert(tally::has_key(a, x) <==> tally::has_key(b, x));
    }
}

// ------------------------------------------------------------------------------ devices

/// The device tables of early versions, which name devices by their path.
pub struct LegacyDevices {
    /// Path, name and kind of the registered devices.
    pub devices: Vec<(String, String, String)>,
    /// Day and device path to inputs.
    pub counts: Tally<(i64, String)>,
    /// Day, device path and key to inputs.
    pub keys: Tally<(i64, String, String)>,
}

/// Path, name and kind of devices.
pub type Named = Seq<(Seq<char>, Seq<char>, Seq<char>)>;

pub open spec fn named(v: Seq<(String, String, String)>) -> Named {
    Seq::new(v.len(), |i: int| (v[i].0@, v[i].1@, v[i].2@))
}

/// Devices that have rows, under their path as name.
pub open spec fn unnamed(s: Seq<((i64, Seq<char>), int)>) -> Named {
    Seq::new(s.len(), |i: int| (s[i].0.1, s[i].0.1, "unknown"@))
}

/// Devices that have rows, under their path as name.
pub open spec fn unnamed_keys(s: Seq<((i64, Seq<char>, Seq<char>), int)>) -> Named {
    Seq::new(s.len(), |i: int| (s[i].0.1, s[i].0.1, "unknown"@))
}

/// The registry with those of the devices that it does not know, under new ids.
pub open spec fn learned(r: Registry, list: Named) -> Registry
    decreases list.len(),
{
    if list.len() == 0 {
        r
    } else {
        let q = learned(r, list.drop_last());
        let d = list.last();
        if store::knows(q, d.0) {
            q
        } else {
            store::registered(q, d.0, d.1, d.2)
        }
    }
}

/// The registry with the devices of the tables of an early version.
pub open spec fn legacy_registry(
    r: Registry,
    devices: Named,
    counts: Seq<((i64, Seq<char>), int)>,
    keys: Seq<((i64, Seq<char>, Seq<char>), int)>,
) -> Registry {
    learned(learned(learned(r, devices), unnamed(counts)), unnamed_keys(keys))
}

/// A row's key with the id of its device in place of the path.
pub open spec fn path_to_id(r: Registry) -> spec_fn((i64, Seq<char>)) -> (i64, i64) {
    |v: (i64, Seq<char>)| (v.0, store::id_of(r, v.1) as i64)
}

/// A row's key with the id of its device in place of the path.
pub open spec fn key_path_to_id(r: Registry) -> spec_fn((i64, Seq<char>, Seq<char>)) -> (
    i64,
    i64,
    Seq<char>,
) {
    |v: (i64, Seq<char>, Seq<char>)| (v.0, store::id_of(r, v.1) as i64, v.2)
}

/// The tables with the device tables of an early version brought into their own. A table
/// that has ids already keeps its rows, and devices that are known keep their ids.
pub open spec fn with_legacy(
    y: YearModel,
    devices: Named,
    counts: Seq<((i64, Seq<char>), int)>,
    keys: Seq<((i64, Seq<char>, Seq<char>), int)>,
) -> YearModel {
    let r = legacy_registry(y.devices, devices, counts, keys);
    YearModel {
        devices: r,
        device_counts: tally::absorb(y.device_counts, tally::rekey(counts, path_to_id(r))),
        device_keys: tally::absorb(y.device_keys, tally::rekey(keys, key_path_to_id(r))),
        ..y
    }
}

pub proof fn lemma_learned(r: Registry, list: Named)
    requires
        store::registry_ok(r),
    ensures
        store::registry_ok(learned(r, list)),
        store::max_id(learned(r, list)) <= store::max_id(r) + list.len(),
        forall|k: Seq<char>| store::knows(r, k) ==> #[trigger] store::knows(learned(r, list), k),
        forall|k: Seq<char>|
            store::knows(r, k) ==> #[trigger] store::id_of(learned(r, list), k) == store::id_of(
                r,
                k,
            ),
        forall|i: int|
            0 <= i < list.len() ==> store::knows(learned(r, list), (#[trigger] list[i]).0),
    decreases list.len(),
{
    if list.len() > 0 {
        let t = list.drop_last();
        let d = list.last();
        lemma_learned(r, t);
        let q = learned(r, t);
        if !store::knows(q, d.0) {
            store::lemma_registered(q, d.0, d.1, d.2);
        }
        let w = learned(r, list);
        assert forall|k: Seq<char>| store::knows(r, k) implies #[trigger] store::knows(w, k) by {
            assert(store::knows(q, k));
        }
        assert forall|i: int| 0 <= i < list.len() implies store::knows(
            w,
            (#[trigger] list[i]).0,
        ) by {
            if i < t.len() {
                assert(t[i] == list[i]);
                assert(store::knows(q, t[i].0));
            }
        }
    }
}

fn learn(db: &mut YearDb, key: &str, name: &str, kind: &str)
    requires
        old(db).wf(),
        store::max_id(old(db)@.devices) < i64::MAX,
    ensures
        final(db).wf(),
        final(db)@ == (YearModel {
            devices: if store::knows(old(db)@.devices, key@) {
                old(db)@.devices
            } else {
                store::registered(old(db)@.devices, key@, name@, kind@)
            },
            ..old(db)@
        }),
{
    let at = db.find_device(key);
    if at == db.devices.len() {
        let id = db.register(key, name, kind);
    } else {
        assert(store::knows(db@.devices, key@));
    }
}

fn known_id(db: &YearDb, key: &str) -> (r: i64)
    requires
        store::registry_ok(db@.devices),
        store::knows(db@.devices, key@),
    ensures
        r == store::id_of(db@.devices, key@) as i64,
{
    let i = db.find_device(key);
    proof {
        store::lemma_id_of(db@.devices, i as int);
    }
    db.devices[i].id
}

/// Brings the device tables of an early version into those of a year: each device gets an
/// id, also one that has rows but was not registered, and rows keep their amounts under
/// the id of their device.
fn bring_device_tables(db: &mut YearDb, legacy: &LegacyDevices)
    requires
        old(db).wf(),
        takes_legacy(old(db)@, *legacy),
    ensures
        final(db).wf(),
        final(db)@ == with_legacy(
            old(db)@,
            named(legacy.devices@),
            legacy.counts@,
            legacy.keys@,
        ),
{
    let ghost y0 = db@;
    let ghost a = named(legacy.devices@);
    let ghost b = unnamed(legacy.counts@);
    let ghost c = unnamed_keys(legacy.keys@);
    let ghost none: Registry = y0.devices;
    let ghost top = store::max_id(none);
    proof {
        lemma_learned(none, a);
        lemma_learned(learned(none, a), b);
        lemma_learned(learned(learned(none, a), b), c);
        assert(a.take(0) =~= Seq::empty());
        assert(b.take(0) =~= Seq::empty());
        assert(c.take(0) =~= Seq::empty());
    }
    let mut i: usize = 0;
    while i < legacy.devices.len()
        invariant
            i <= legacy.devices.len(),
            a == named(legacy.devices@),
            top + a.len() + legacy.counts@.len() + legacy.keys@.len() < i64::MAX,
            none == y0.devices,
            top == store::max_id(none),
            store::registry_ok(none),
            db.wf(),
            db@ == (YearModel { devices: learned(none, a.take(i as int)), ..y0 }),
        decreases legacy.devices.len() - i,
    {
        proof {
            let t1 = a.take(i as int + 1);
            assert(t1.drop_last() =~= a.take(i as int));
            assert(t1.last() == a[i as int]);
            lemma_learned(none, a.take(i as int));
        }
        learn(
            db,
            legacy.devices[i].0.as_str(),
            legacy.devices[i].1.as_str(),
            legacy.devices[i].2.as_str(),
        );
        i = i + 1;
    }
    assert(a.take(i as int) =~= a);
    let ghost r1 = learned(none, a);
    let mut j: usize = 0;
    while j < legacy.counts.rows.len()
        invariant
            j <= legacy.counts.rows.len(),
            b == unnamed(legacy.counts@),
            top + a.len() + b.len() + legacy.keys@.len() < i64::MAX,
            store::registry_ok(r1),
            store::max_id(r1) <= top + a.len(),
            db.wf(),
            db@ == (YearModel { devices: learned(r1, b.take(j as int)), ..y0 }),
        decreases legacy.counts.rows.len() - j,
    {
        proof {
            let t1 = b.take(j as int + 1);
            assert(t1.drop_last() =~= b.take(j as int));
            assert(t1.last() == b[j as int]);
            lemma_learned(r1, b.take(j as int));
        }
        let path = &legacy.counts.rows[j].0.1;
        learn(db, path.as_str(), path.as_str(), "unknown");
        j = j + 1;
    }
    assert(b.take(j as int) =~= b);
    let ghost r2 = learned(r1, b);
    let mut k: usize = 0;
    while k < legacy.keys.rows.len()
        invariant
            k <= legacy.keys.rows.len(),
            c == unnamed_keys(legacy.keys@),
            top + a.len() + b.len() + c.len() < i64::MAX,
            store::registry_ok(r2),
            store::max_id(r2) <= top + a.len() + b.len(),
            db.wf(),
            db@ == (YearModel { devices: learned(r2, c.take(k as int)), ..y0 }),
        decreases legacy.keys.rows.len() - k,
    {
        proof {
            let t1 = c.take(k as int + 1);
            assert(t1.drop_last() =~= c.take(k as int));
            assert(t1.last() == c[k as int]);
            lemma_learned(r2, c.take(k as int));
        }
        let path = &legacy.keys.rows[k].0.1;
        learn(db, path.as_str(), path.as_str(), "unknown");
        k = k + 1;
    }
    assert(c.take(k as int) =~= c);
    let ghost r = db@.devices;
    assert(r == legacy_registry(none, a, legacy.counts@, legacy.keys@));
    proof {
        assert forall|n: int| 0 <= n < legacy.counts@.len() implies store::knows(
            r,
            (#[trigger] legacy.counts@[n]).0.1,
        ) by {
            assert(b[n].0 == legacy.counts@[n].0.1);
            assert(store::knows(r2, b[n].0));
        }
        assert forall|n: int| 0 <= n < legacy.keys@.len() implies store::knows(
            r,
            (#[trigger] legacy.keys@[n]).0.1,
        ) by {
            assert(c[n].0 == legacy.keys@[n].0.1);
        }
    }
    let counts = counts_by_id(db, &legacy.counts);
    let keys = keys_by_id(db, &legacy.keys);
    db.device_counts = counts;
    db.device_keys = keys;
    assert(db@ =~= with_legacy(y0, a, legacy.counts@, legacy.keys@));
}

/// Whether the tables of a year have room for those of an early version.
pub open spec fn takes_legacy(y: YearModel, l: LegacyDevices) -> bool {
    &&& l.counts.wf()
    &&& l.keys.wf()
    &&& store::max_id(y.devices) + l.devices@.len() + l.counts@.len() + l.keys@.len() < i64::MAX
    &&& tally::total(y.device_counts) + tally::total(l.counts@) <= i64::MAX
    &&& tally::total(y.device_keys) + tally::total(l.keys@) <= i64::MAX
}

/// Brings the device tables of an early version into those of a year. A table that has ids
/// already has no rows in `legacy` and stays as it is. Where `legacy` is missing no table
/// names devices by their path, and nothing changes.
pub fn migrate_device_tables(db: &mut YearDb, legacy: Option<&LegacyDevices>)
    requires
        old(db).wf(),
        legacy matches Some(l) ==> takes_legacy(old(db)@, *l),
    ensures
        final(db).wf(),
        match legacy {
            Some(l) => final(db)@ == with_legacy(
                old(db)@,
                named(l.devices@),
                l.counts@,
                l.keys@,
            ),
            None => *final(db) == *old(db),
        },
{
    match legacy {
        Some(l) => bring_device_tables(db, l),
        None => {},
    }
}

fn counts_by_id(db: &YearDb, rows: &Tally<(i64, String)>) -> (r: Tally<(i64, i64)>)
    requires
        db.wf(),
        rows.wf(),
        tally::total(db@.device_counts) + tally::total(rows@) <= i64::MAX,
        forall|i: int|
            0 <= i < rows@.len() ==> store::knows(db@.devices, (#[trigger] rows@[i]).0.1),
    ensures
        r.wf(),
        r@ == tally::absorb(db@.device_counts, tally::rekey(rows@, path_to_id(db@.devices))),
{
    let ghost f = path_to_id(db@.devices);
    let ghost k = tally::rekey(rows@, f);
    let ghost s = db@.device_counts;
    let mut into: Tally<(i64, i64)> = db.device_counts.dup();
    let mut i: usize = 0;
    proof {
        assert(k.take(0) =~= Seq::empty());
        tally::lemma_rekey_total(rows@, f);
    }
    while i < rows.rows.len()
        invariant
            i <= rows.rows.len(),
            store::registry_ok(db@.devices),
            f == path_to_id(db@.devices),
            k == tally::rekey(rows@, f),
            rows.wf(),
            tally::nonneg(k),
            tally::total(k) == tally::total(rows@),
            tally::distinct(s),
            tally::total(s) + tally::total(rows@) <= i64::MAX,
            into.wf(),
            into@ == tally::absorb(s, k.take(i as int)),
            forall|j: int|
                0 <= j < rows@.len() ==> store::knows(db@.devices, (#[trigger] rows@[j]).0.1),
        decreases rows.rows.len() - i,
    {
        let day: i64 = rows.rows[i].0.0;
        let n: i64 = rows.rows[i].1;
        proof {
            assert(rows@[i as int] == ((day, rows.rows@[i as int].0.1@), n as int));
            let t1 = k.take(i as int + 1);
            assert(t1.drop_last() =~= k.take(i as int));
            assert(t1.last() == k[i as int]);
            tally::lemma_prefix_sum(k, i as int + 1, |v: (i64, i64)| true);
            tally::lemma_absorb_sum(s, k.take(i as int), |v: (i64, i64)| true);
        }
        let id = known_id(db, rows.rows[i].0.1.as_str());
        into.bump((day, id), n);
        i = i + 1;
    }
    assert(k.take(i as int) =~= k);
    into
}

fn keys_by_id(db: &YearDb, rows: &Tally<(i64, String, String)>) -> (r: Tally<(i64, i64, String)>)
    requires
        db.wf(),
        rows.wf(),
        tally::total(db@.device_keys) + tally::total(rows@) <= i64::MAX,
        forall|i: int|
            0 <= i < rows@.len() ==> store::knows(db@.devices, (#[trigger] rows@[i]).0.1),
    ensures
        r.wf(),
        r@ == tally::absorb(db@.device_keys, tally::rekey(rows@, key_path_to_id(db@.devices))),
{
    let ghost f = key_path_to_id(db@.devices);
    let ghost k = tally::rekey(rows@, f);
    let ghost s = db@.device_keys;
    let mut into: Tally<(i64, i64, String)> = db.device_keys.dup();
    let mut i: usize = 0;
    proof {
        assert(k.take(0) =~= Seq::empty());
        tally::lemma_rekey_total(rows@, f);
    }
    while i < rows.rows.len()
        invariant
            i <= rows.rows.len(),
            store::registry_ok(db@.devices),
            f == key_path_to_id(db@.devices),
            k == tally::rekey(rows@, f),
            rows.wf(),
            tally::nonneg(k),
            tally::total(k) == tally::total(rows@),
            tally::distinct(s),
            tally::total(s) + tally::total(rows@) <= i64::MAX,
            into.wf(),
            into@ == tally::absorb(s, k.take(i as int)),
            forall|j: int|
                0 <= j < rows@.len() ==> store::knows(db@.devices, (#[trigger] rows@[j]).0.1),
        decreases rows.rows.len() - i,
    {
        let day: i64 = rows.rows[i].0.0;
        let n: i64 = rows.rows[i].1;
        let name = rows.rows[i].0.2.clone();
        proof {
            assert(rows@[i as int] == ((day, rows.rows@[i as int].0.1@, name@), n as int));
            let t1 = k.take(i as int + 1);
            assert(t1.drop_last() =~= k.take(i as int));
            assert(t1.last() == k[i as int]);
            tally::lemma_prefix_sum(k, i as int + 1, |v: (i64, i64, Seq<char>)| true);
            tally::lemma_absorb_sum(s, k.take(i as int), |v: (i64, i64, Seq<char>)| true);
        }
        let id = known_id(db, rows.rows[i].0.1.as_str());
        into.bump((day, id, name), n);
        i = i + 1;
    }
    assert(k.take(i as int) =~= k);
    into
}

/// Moving to ids loses no input: what the tables hold afterwards is what they and those of
/// the early version held before. A table that has ids already stays as it is where no rows
/// come to it, and so does the id of every device that was known.
pub proof fn lemma_legacy_counts_stay(
    y: YearModel,
    devices: Named,
    counts: Seq<((i64, Seq<char>), int)>,
    keys: Seq<((i64, Seq<char>, Seq<char>), int)>,
)
    requires
        store::registry_ok(y.devices),
        tally::distinct(y.device_counts),
        tally::distinct(y.device_keys),
    ensures
        ({
            let w = with_legacy(y, devices, counts, keys);
            &&& tally::total(w.device_counts) == tally::total(y.device_counts) + tally::total(
                counts,
            )
            &&& tally::total(w.device_keys) == tally::total(y.device_keys) + tally::total(keys)
            &&& counts.len() == 0 ==> w.device_counts == y.device_counts
            &&& keys.len() == 0 ==> w.device_keys == y.device_keys
            &&& forall|k: Seq<char>|
                store::knows(y.devices, k) ==> store::knows(w.devices, k)
                    && #[trigger] store::id_of(w.devices, k) == store::id_of(y.devices, k)
        }),
{
    let r1 = learned(y.devices, devices);
    let r2 = learned(r1, unnamed(counts));
    let r = legacy_registry(y.devices, devices, counts, keys);
    lemma_learned(y.devices, devices);
    lemma_learned(r1, unnamed(counts));
    lemma_learned(r2, unnamed_keys(keys));
    tally::lemma_rekey_total(counts, path_to_id(r));
    tally::lemma_rekey_total(keys, key_path_to_id(r));
    tally::lemma_absorb_sum(
        y.device_counts,
        tally::rekey(counts, path_to_id(r)),
        |v: (i64, i64)| true,
    );
    tally::lemma_absorb_sum(
        y.device_keys,
        tally::rekey(keys, key_path_to_id(r)),
        |v: (i64, i64, Seq<char>)| true,
    );
}

// ----------------------------------------------------------------------- active seconds

/// The days with their active seconds, 0 for a day without any.
pub open spec fn seconds_for(
    daily: Seq<(i64, int)>,
    active: Seq<(i64, int)>,
) -> Seq<(i64, int)> {
    Seq::new(daily.len(), |i: int| (daily[i].0, tally::amount(active, daily[i].0)))
}

/// The tables with the active seconds of an early version: every day of either table is
/// there, with its presses and its seconds.
pub open spec fn with_active(y: YearModel, active: Seq<(i64, int)>) -> YearModel {
    let daily = tally::absorb(y.daily, tally::zeros(active));
    YearModel { daily, seconds: seconds_for(daily, active), ..y }
}

proof fn lemma_seconds_for(daily: Seq<(i64, int)>, active: Seq<(i64, int)>)
    requires
        tally::distinct(daily),
        tally::nonneg(active),
    ensures
        tally::distinct(seconds_for(daily, active)),
        tally::nonneg(seconds_for(daily, active)),
        tally::total(seconds_for(daily, active)) == tally::sum_if(active, on_days(daily)),
        tally::total(seconds_for(daily, active)) <= tally::total(active),
        store::same_keys(daily, seconds_for(daily, active)),
    decreases daily.len(),
{
    let r = seconds_for(daily, active);
    tally::lemma_sum_bounds(active, on_days(daily));
    assert forall|i: int, j: int| 0 <= i < j < r.len() implies (#[trigger] r[i]).0 != (
    #[trigger] r[j]).0 by {
        assert(daily[i].0 != daily[j].0);
    }
    assert forall|i: int| 0 <= i < r.len() implies (#[trigger] r[i]).1 >= 0 by {
        tally::lemma_amount_bound(active, daily[i].0);
    }
    assert forall|k: i64| tally::has_key(daily, k) <==> tally::has_key(r, k) by {
        if tally::has_key(r, k) {
            let i = choose|i: int| 0 <= i < r.len() && (#[trigger] r[i]).0 == k;
            assert(daily[i].0 == k);
        }
        if tally::has_key(daily, k) {
            let i = choose|i: int| 0 <= i < daily.len() && (#[trigger] daily[i]).0 == k;
            assert(r[i].0 == k);
        }
    }
    if daily.len() == 0 {
        tally::lemma_sum_none(active, on_days(daily));
    } else {
        let t = daily.drop_last();
        let d = daily.last().0;
        tally::lemma_distinct_prefix(daily);
        lemma_seconds_for(t, active);
        assert(r.drop_last() =~= seconds_for(t, active));
        let p = on_days(t);
        let q = |v: i64| v == d;
        let a = on_days(daily);
        assert forall|v: i64| #![trigger a(v)] a(v) == (p(v) || q(v)) by {
            if tally::has_key(daily, v) {
                let i = choose|i: int| 0 <= i < daily.len() && (#[trigger] daily[i]).0 == v;
                if i < t.len() {
                    assert(t[i].0 == v);
                }
            }
            if tally::has_key(t, v) {
                let i = choose|i: int| 0 <= i < t.len() && (#[trigger] t[i]).0 == v;
                assert(daily[i].0 == v);
            }
            if v == d {
                assert(daily[daily.len() - 1].0 == v);
            }
        }
        assert forall|v: i64| #![trigger p(v)] #![trigger q(v)] !(p(v) && q(v)) by {}
        tally::lemma_sum_disjoint(active, p, q, a);
        tally::lemma_amount_is(active, d, q);
    }
}

/// The days that a table lists.
pub open spec fn on_days(daily: Seq<(i64, int)>) -> spec_fn(i64) -> bool {
    |v: i64| tally::has_key(daily, v)
}

/// Brings the active seconds of an early version, which had a table of their own, to the
/// days. A day that has seconds and no presses is added.
fn bring_active_seconds(db: &mut YearDb, active: &Tally<i64>)
    requires
        old(db).wf(),
        active.wf(),
    ensures
        final(db).wf(),
        final(db)@ == with_active(old(db)@, active@),
{
    let ghost y = db@;
    db.daily.cover(active);
    let ghost daily = db@.daily;
    let mut rows: Vec<(i64, i64)> = Vec::new();
    let mut i: usize = 0;
    while i < db.daily.rows.len()
        invariant
            i <= db.daily.rows.len(),
            daily == db.daily@,
            active.wf(),
            rows@.len() == i,
            forall|k: int|
                #![trigger rows@[k]]
                0 <= k < i ==> rows@[k].0 == daily[k].0 && rows@[k].1 == tally::amount(
                    active@,
                    daily[k].0,
                ),
        decreases db.daily.rows.len() - i,
    {
        let day: i64 = db.daily.rows[i].0;
        assert(daily[i as int].0 == day);
        let n = active.get(&day);
        rows.push((day, n));
        i = i + 1;
    }
    let seconds = Tally { rows };
    proof {
        assert(seconds@ =~= seconds_for(daily, active@));
        lemma_seconds_for(daily, active@);
    }
    db.seconds = seconds;
    assert(db@ =~= with_active(y, active@));
}

/// Brings the active seconds of an early version to the days. Where `active` is missing the
/// days have them already, and nothing changes.
pub fn merge_active_seconds_into_daily(db: &mut YearDb, active: Option<&Tally<i64>>)
    requires
        old(db).wf(),
        active matches Some(t) ==> t.wf(),
    ensures
        final(db).wf(),
        match active {
            Some(t) => final(db)@ == with_active(old(db)@, t@),
            None => *final(db) == *old(db),
        },
{
    match active {
        Some(t) => bring_active_seconds(db, t),
        None => {},
    }
}

/// No second is lost: each day has after the merge the active seconds that it had in the
/// table of its own.
pub proof fn lemma_no_second_lost(y: YearModel, active: Seq<(i64, int)>, day: i64)
    requires
        tally::distinct(y.daily),
        tally::distinct(active),
        tally::nonneg(active),
    ensures
        tally::amount(with_active(y, active).seconds, day) == tally::amount(active, day),
        tally::amount(with_active(y, active).daily, day) == tally::amount(y.daily, day),
{
    let z = tally::zeros(active);
    let daily = tally::absorb(y.daily, z);
    let s = seconds_for(daily, active);
    tally::lemma_absorb_shape(y.daily, z);
    tally::lemma_zeros(active, |v: i64| true);
    lemma_seconds_for(daily, active);
    if tally::has_key(s, day) {
        let i = choose|i: int| 0 <= i < s.len() && (#[trigger] s[i]).0 == day;
        tally::lemma_amount_at(s, i);
    } else {
        tally::lemma_amount_missing(s, day);
        assert(!tally::has_key(daily, day));
        assert(!tally::has_key(z, day));
        assert(!tally::has_key(active, day));
        tally::lemma_amount_missing(active, day);
    }
    tally::lemma_absorb_amount(y.daily, z, day);
    tally::lemma_zero_amount(active, day);
}

} // verus!
