//! Moving the days of past years from the tables of one year to those of their own year.
use vstd::prelude::*;
use vstd::string::*;

use crate::calendar;
use crate::calendar::{day_key_to_date, new_year_key};
use crate::db::devices;
use crate::db::devices::find_id;
use crate::db::store;
use crate::db::store::{Device, DeviceModel, Registry, Store, StoreModel, YearDb, YearModel};
use crate::hardware;
use crate::tally;
use crate::tally::{Dated, Tally};
use crate::text;
use crate::text::{cat2, dec_i64};

verus! {

// ------------------------------------------------------------------------- registries

/// The key that stands for a device that has rows but was never registered.
pub open spec fn placeholder(id: i64) -> Seq<char> {
    hardware::ARCHIVED_DEVICE_KEY_PREFIX@ + text::dec(id as int)
}

fn placeholder_key(id: i64) -> (r: String)
    ensures
        r@ == placeholder(id),
{
    let n = dec_i64(id);
    cat2(hardware::ARCHIVED_DEVICE_KEY_PREFIX, n.as_str())
}

/// The key of the device that rows with the id `id` belong to.
pub open spec fn key_for(r: Registry, id: i64) -> Seq<char> {
    if store::knows_id(r, id as int) {
        devices::device_with(r, id as int).key
    } else {
        placeholder(id)
    }
}

/// The registry with a placeholder for `id` where nothing is registered for it.
pub open spec fn adopted_one(r: Registry, id: i64) -> Registry {
    if store::knows_id(r, id as int) || store::knows(r, placeholder(id)) {
        r
    } else {
        r.push(
            DeviceModel {
                id: id as int,
                key: placeholder(id),
                name: placeholder(id),
                kind: "unknown"@,
            },
        )
    }
}

/// The registry with a placeholder for each of `ids` that nothing is registered for.
pub open spec fn adopted(r: Registry, ids: Seq<i64>) -> Registry
    decreases ids.len(),
{
    if ids.len() == 0 {
        r
    } else {
        adopted_one(adopted(r, ids.drop_last()), ids.last())
    }
}

/// The registry `r` with the devices of `other` that it does not know, under new ids.
pub open spec fn taught(r: Registry, other: Registry) -> Registry
    decreases other.len(),
{
    if other.len() == 0 {
        r
    } else {
        let q = taught(r, other.drop_last());
        let d = other.last();
        if store::knows(q, d.key) {
            q
        } else {
            store::registered(q, d.key, d.name, d.kind)
        }
    }
}

proof fn lemma_adopted_one(r: Registry, id: i64)
    requires
        store::registry_ok(r),
    ensures
        store::registry_ok(adopted_one(r, id)),
        store::knows(adopted_one(r, id), key_for(r, id)),
        forall|n: i64| #[trigger] key_for(adopted_one(r, id), n) == key_for(r, n),
        forall|k: Seq<char>| store::knows(r, k) ==> #[trigger] store::knows(adopted_one(r, id), k),
        adopted_one(r, id).len() <= r.len() + 1,
{
    let q = adopted_one(r, id);
    if store::knows_id(r, id as int) {
        let i = choose|i: int| 0 <= i < r.len() && (#[trigger] r[i]).id == id;
        assert(r[i].key == key_for(r, id));
    } else if !store::knows(r, placeholder(id)) {
        let n = r.len() as int;
        assert(q[n].key == placeholder(id));
        assert forall|i: int, j: int| 0 <= i < j < q.len() implies (#[trigger] q[i]).id != (
        #[trigger] q[j]).id && q[i].key != q[j].key by {
            assert(q[i] == r[i]);
            if j < n {
                assert(q[j] == r[j]);
            }
        }
        assert forall|k: Seq<char>| store::knows(r, k) implies #[trigger] store::knows(q, k) by {
            let i = choose|i: int| 0 <= i < r.len() && (#[trigger] r[i]).key == k;
            assert(q[i].key == k);
        }
        assert forall|m: i64| #[trigger] key_for(q, m) == key_for(r, m) by {
            if store::knows_id(r, m as int) {
                let i = choose|i: int| 0 <= i < r.len() && (#[trigger] r[i]).id == m;
                assert(q[i].id == m);
                let j = choose|j: int| 0 <= j < q.len() && (#[trigger] q[j]).id == m;
                if j < i {
                    assert(q[j].id != q[i].id);
                }
                if i < j {
                    assert(q[i].id != q[j].id);
                }
                assert(q[i] == r[i]);
            } else if m == id {
                assert(q[n].id == m);
                let j = choose|j: int| 0 <= j < q.len() && (#[trigger] q[j]).id == m;
                if j < n {
                    assert(q[j].id != q[n].id);
                }
            } else if store::knows_id(q, m as int) {
                let j = choose|j: int| 0 <= j < q.len() && (#[trigger] q[j]).id == m;
                assert(q[j] == r[j]);
            }
        }
    }
}

/// Adopting keeps a registry in order and makes every device of the rows known, under the
/// key it had before.
pub proof fn lemma_adopted(r: Registry, ids: Seq<i64>)
    requires
        store::registry_ok(r),
    ensures
        store::registry_ok(adopted(r, ids)),
        forall|n: i64| #[trigger] key_for(adopted(r, ids), n) == key_for(r, n),
        forall|i: int|
            0 <= i < ids.len() ==> store::knows(adopted(r, ids), key_for(r, #[trigger] ids[i])),
        forall|k: Seq<char>| store::knows(r, k) ==> #[trigger] store::knows(adopted(r, ids), k),
        adopted(r, ids).len() <= r.len() + ids.len(),
    decreases ids.len(),
{
    if ids.len() > 0 {
        let t = ids.drop_last();
        lemma_adopted(r, t);
        let q = adopted(r, t);
        lemma_adopted_one(q, ids.last());
        assert forall|i: int| 0 <= i < ids.len() implies store::knows(
            adopted(r, ids),
            key_for(r, #[trigger] ids[i]),
        ) by {
            if i < t.len() {
                assert(t[i] == ids[i]);
            } else {
                assert(key_for(q, ids.last()) == key_for(r, ids.last()));
            }
        }
        assert forall|n: i64| #[trigger] key_for(adopted(r, ids), n) == key_for(r, n) by {
            assert(key_for(q, n) == key_for(r, n));
        }
        assert forall|k: Seq<char>| store::knows(r, k) implies #[trigger] store::knows(
            adopted(r, ids),
            k,
        ) by {
            assert(store::knows(q, k));
        }
    }
}

/// Teaching keeps a registry in order, keeps its ids, and makes the devices of both known.
pub proof fn lemma_taught(r: Registry, other: Registry)
    requires
        store::registry_ok(r),
    ensures
        store::registry_ok(taught(r, other)),
        store::max_id(taught(r, other)) <= store::max_id(r) + other.len(),
        forall|k: Seq<char>| #[trigger]
            store::knows(taught(r, other), k) <==> store::knows(r, k) || store::knows(other, k),
        forall|k: Seq<char>|
            store::knows(r, k) ==> #[trigger] store::id_of(taught(r, other), k) == store::id_of(
                r,
                k,
            ),
    decreases other.len(),
{
    if other.len() > 0 {
        let t = other.drop_last();
        let d = other.last();
        lemma_taught(r, t);
        let q = taught(r, t);
        let w = taught(r, other);
        if !store::knows(q, d.key) {
            store::lemma_registered(q, d.key, d.name, d.kind);
        }
        assert forall|k: Seq<char>| #[trigger] store::knows(w, k) <==> store::knows(r, k)
            || store::knows(other, k) by {
            assert(store::knows(other, k) <==> store::knows(t, k) || k == d.key) by {
                if store::knows(other, k) {
                    let i = choose|i: int| 0 <= i < other.len() && (#[trigger] other[i]).key == k;
                    if i < t.len() {
                        assert(t[i].key == k);
                    }
                }
                if store::knows(t, k) {
                    let i = choose|i: int| 0 <= i < t.len() && (#[trigger] t[i]).key == k;
                    assert(other[i].key == k);
                }
                if k == d.key {
                    assert(other[other.len() - 1].key == k);
                }
            }
            assert(store::knows(q, k) <==> store::knows(r, k) || store::knows(t, k));
        }
        assert forall|k: Seq<char>| store::knows(r, k) implies #[trigger] store::id_of(w, k)
            == store::id_of(r, k) by {
            assert(store::knows(q, k));
            assert(store::id_of(q, k) == store::id_of(r, k));
        }
    }
}

// ------------------------------------------------------------------------------- move

/// The rows of the days from `from` up to but not with `to`.
pub open spec fn moving<K: Dated>(s: Seq<(K::V, int)>, from: int, to: int) -> Seq<(K::V, int)> {
    tally::keep(s, tally::days_within::<K>(from, to))
}

/// The other rows.
pub open spec fn staying<K: Dated>(s: Seq<(K::V, int)>, from: int, to: int) -> Seq<(K::V, int)> {
    tally::keep(s, tally::days_outside::<K>(from, to))
}

/// The device ids of the rows that move.
pub open spec fn moving_ids(src: YearModel, from: int, to: int) -> Seq<i64> {
    let a = moving::<(i64, i64)>(src.device_counts, from, to);
    let b = moving::<(i64, i64, String)>(src.device_keys, from, to);
    Seq::new(a.len(), |i: int| a[i].0.1) + Seq::new(b.len(), |i: int| b[i].0.1)
}

/// A row's key with the id that its device has in another registry.
pub open spec fn day_and_new_id(dst: Registry, src: Registry) -> spec_fn((i64, i64)) -> (
    i64,
    i64,
) {
    |v: (i64, i64)| (v.0, store::id_of(dst, key_for(src, v.1)) as i64)
}

/// A row's key with the id that its device has in another registry.
pub open spec fn day_new_id_and_key(dst: Registry, src: Registry) -> spec_fn(
    (i64, i64, Seq<char>),
) -> (i64, i64, Seq<char>) {
    |v: (i64, i64, Seq<char>)| (v.0, store::id_of(dst, key_for(src, v.1)) as i64, v.2)
}

/// What the move leaves in the tables that the rows come from.
pub open spec fn left_behind(src: YearModel, from: int, to: int) -> YearModel {
    YearModel {
        daily: staying::<i64>(src.daily, from, to),
        seconds: staying::<i64>(src.seconds, from, to),
        hourly: staying::<(i64, i64)>(src.hourly, from, to),
        keys: staying::<(i64, String)>(src.keys, from, to),
        apps: staying::<(i64, String)>(src.apps, from, to),
        devices: adopted(src.devices, moving_ids(src, from, to)),
        device_counts: staying::<(i64, i64)>(src.device_counts, from, to),
        device_keys: staying::<(i64, i64, String)>(src.device_keys, from, to),
    }
}

/// The tables that the rows are moved to, after the move: amounts are added, and devices
/// are found by their keys.
pub open spec fn received(dst: YearModel, src: YearModel, from: int, to: int) -> YearModel {
    let known = taught(dst.devices, adopted(src.devices, moving_ids(src, from, to)));
    YearModel {
        daily: tally::absorb(dst.daily, moving::<i64>(src.daily, from, to)),
        seconds: tally::absorb(dst.seconds, moving::<i64>(src.seconds, from, to)),
        hourly: tally::absorb(dst.hourly, moving::<(i64, i64)>(src.hourly, from, to)),
        keys: tally::absorb(dst.keys, moving::<(i64, String)>(src.keys, from, to)),
        apps: tally::absorb(dst.apps, moving::<(i64, String)>(src.apps, from, to)),
        devices: known,
        device_counts: tally::absorb(
            dst.device_counts,
            tally::rekey(
                moving::<(i64, i64)>(src.device_counts, from, to),
                day_and_new_id(known, src.devices),
            ),
        ),
        device_keys: tally::absorb(
            dst.device_keys,
            tally::rekey(
                moving::<(i64, i64, String)>(src.device_keys, from, to),
                day_new_id_and_key(known, src.devices),
            ),
        ),
    }
}

/// Whether any row moves.
pub open spec fn anything_moves(src: YearModel, from: int, to: int) -> bool {
    ||| moving::<i64>(src.daily, from, to).len() > 0
    ||| moving::<(i64, i64)>(src.hourly, from, to).len() > 0
    ||| moving::<(i64, String)>(src.keys, from, to).len() > 0
    ||| moving::<(i64, String)>(src.apps, from, to).len() > 0
    ||| moving::<(i64, i64)>(src.device_counts, from, to).len() > 0
    ||| moving::<(i64, i64, String)>(src.device_keys, from, to).len() > 0
}

/// The sums of both sides fit in `i64`, and so do the new ids.
pub open spec fn can_receive(dst: YearModel, src: YearModel) -> bool {
    &&& tally::total(dst.daily) + tally::total(src.daily) <= i64::MAX
    &&& tally::total(dst.seconds) + tally::total(src.seconds) <= i64::MAX
    &&& tally::total(dst.hourly) + tally::total(src.hourly) <= i64::MAX
    &&& tally::total(dst.keys) + tally::total(src.keys) <= i64::MAX
    &&& tally::total(dst.apps) + tally::total(src.apps) <= i64::MAX
    &&& tally::total(dst.device_counts) + tally::total(src.device_counts) <= i64::MAX
    &&& tally::total(dst.device_keys) + tally::total(src.device_keys) <= i64::MAX
    &&& store::max_id(dst.devices) + src.devices.len() + src.device_counts.len()
        + src.device_keys.len() < i64::MAX
}

fn adopt(db: &mut YearDb, id: i64)
    requires
        store::registry_ok(old(db)@.devices),
    ensures
        store::registry_ok(final(db)@.devices),
        final(db)@ == (YearModel { devices: adopted_one(old(db)@.devices, id), ..old(db)@ }),
        final(db).daily == old(db).daily,
        final(db).seconds == old(db).seconds,
        final(db).hourly == old(db).hourly,
        final(db).keys == old(db).keys,
        final(db).apps == old(db).apps,
        final(db).device_counts == old(db).device_counts,
        final(db).device_keys == old(db).device_keys,
{
    let ghost r = db@.devices;
    proof {
        lemma_adopted_one(r, id);
    }
    let at = find_id(db, id);
    if at == db.devices.len() {
        let key = placeholder_key(id);
        let i = db.find_device(key.as_str());
        if i == db.devices.len() {
            db.devices.push(Device { id, key: key.clone(), name: key, kind: "unknown".to_owned() });
            assert(db@.devices =~= adopted_one(r, id));
        } else {
            assert(store::knows(r, placeholder(id)));
        }
    }
    assert(db@ =~= (YearModel { devices: adopted_one(r, id), ..old(db)@ }));
}

/// Registers in `dst` the devices of `src` that it does not know.
fn teach(dst: &mut YearDb, src: &YearDb)
    requires
        store::registry_ok(old(dst)@.devices),
        store::max_id(old(dst)@.devices) + src@.devices.len() < i64::MAX,
    ensures
        store::registry_ok(final(dst)@.devices),
        final(dst)@ == (YearModel {
            devices: taught(old(dst)@.devices, src@.devices),
            ..old(dst)@
        }),
        old(dst).wf() ==> final(dst).wf(),
{
    let ghost r0 = dst@.devices;
    let ghost other = src@.devices;
    let mut i: usize = 0;
    assert(other.take(0) =~= Seq::empty());
    while i < src.devices.len()
        invariant
            i <= src.devices.len(),
            other == src@.devices,
            r0 == old(dst)@.devices,
            store::registry_ok(r0),
            store::max_id(r0) + other.len() < i64::MAX,
            store::registry_ok(dst@.devices),
            dst@ == (YearModel { devices: taught(r0, other.take(i as int)), ..old(dst)@ }),
            old(dst).wf() ==> dst.wf(),
        decreases src.devices.len() - i,
    {
        proof {
            let t1 = other.take(i as int + 1);
            assert(t1.drop_last() =~= other.take(i as int));
            assert(t1.last() == other[i as int]);
            lemma_taught(r0, other.take(i as int));
        }
        let d = &src.devices[i];
        let at = dst.find_device(d.key.as_str());
        if at == dst.devices.len() {
            let ghost before = dst@;
            let id = dst.register(d.key.as_str(), d.name.as_str(), d.kind.as_str());
            proof {
                assert(dst@.daily == before.daily && dst@.seconds == before.seconds);
            }
        } else {
            assert(store::knows(dst@.devices, d.key@));
        }
        i = i + 1;
    }
    assert(other.take(i as int) =~= other);
}

/// The id in `dst` of the device that rows of `src` with the id `id` belong to.
fn new_id(dst: &YearDb, src: &YearDb, id: i64) -> (r: i64)
    requires
        store::registry_ok(dst@.devices),
        store::registry_ok(src@.devices),
        store::knows(dst@.devices, key_for(src@.devices, id)),
    ensures
        r == store::id_of(dst@.devices, key_for(src@.devices, id)) as i64,
{
    let at = find_id(src, id);
    let key = if at < src.devices.len() {
        src.devices[at].key.clone()
    } else {
        placeholder_key(id)
    };
    assert(key@ == key_for(src@.devices, id));
    let i = dst.find_device(key.as_str());
    proof {
        store::lemma_id_of(dst@.devices, i as int);
    }
    dst.devices[i].id
}

fn translate_counts(dst: &YearDb, src: &YearDb, rows: &Tally<(i64, i64)>, into: &mut Tally<
    (i64, i64),
>)
    requires
        store::registry_ok(dst@.devices),
        store::registry_ok(src@.devices),
        rows.wf(),
        old(into).wf(),
        tally::total(old(into)@) + tally::total(rows@) <= i64::MAX,
        forall|i: int|
            0 <= i < rows@.len() ==> store::knows(
                dst@.devices,
                key_for(src@.devices, (#[trigger] rows@[i]).0.1),
            ),
    ensures
        final(into).wf(),
        final(into)@ == tally::absorb(
            old(into)@,
            tally::rekey(rows@, day_and_new_id(dst@.devices, src@.devices)),
        ),
{
    let ghost s = into@;
    let ghost f = day_and_new_id(dst@.devices, src@.devices);
    let ghost k = tally::rekey(rows@, f);
    let mut i: usize = 0;
    proof {
        assert(k.take(0) =~= Seq::empty());
        tally::lemma_rekey_total(rows@, f);
    }
    while i < rows.rows.len()
        invariant
            i <= rows.rows.len(),
            store::registry_ok(dst@.devices),
            store::registry_ok(src@.devices),
            f == day_and_new_id(dst@.devices, src@.devices),
            k == tally::rekey(rows@, f),
            rows.wf(),
            tally::nonneg(k),
            tally::total(k) == tally::total(rows@),
            tally::distinct(s),
            into.wf(),
            into@ == tally::absorb(s, k.take(i as int)),
            tally::total(s) + tally::total(rows@) <= i64::MAX,
            forall|j: int|
                0 <= j < rows@.len() ==> store::knows(
                    dst@.devices,
                    key_for(src@.devices, (#[trigger] rows@[j]).0.1),
                ),
        decreases rows.rows.len() - i,
    {
        let day: i64 = rows.rows[i].0.0;
        let id: i64 = rows.rows[i].0.1;
        let n: i64 = rows.rows[i].1;
        assert(rows@[i as int] == ((day, id), n as int));
        proof {
            let t1 = k.take(i as int + 1);
            assert(t1.drop_last() =~= k.take(i as int));
            assert(t1.last() == k[i as int]);
            tally::lemma_prefix_sum(k, i as int + 1, |v: (i64, i64)| true);
            tally::lemma_absorb_sum(s, k.take(i as int), |v: (i64, i64)| true);
        }
        let to = new_id(dst, src, id);
        into.bump((day, to), n);
        i = i + 1;
    }
    assert(k.take(i as int) =~= k);
}

fn translate_keys(dst: &YearDb, src: &YearDb, rows: &Tally<(i64, i64, String)>, into: &mut Tally<
    (i64, i64, String),
>)
    requires
        store::registry_ok(dst@.devices),
        store::registry_ok(src@.devices),
        rows.wf(),
        old(into).wf(),
        tally::total(old(into)@) + tally::total(rows@) <= i64::MAX,
        forall|i: int|
            0 <= i < rows@.len() ==> store::knows(
                dst@.devices,
                key_for(src@.devices, (#[trigger] rows@[i]).0.1),
            ),
    ensures
        final(into).wf(),
        final(into)@ == tally::absorb(
            old(into)@,
            tally::rekey(rows@, day_new_id_and_key(dst@.devices, src@.devices)),
        ),
{
    let ghost s = into@;
    let ghost f = day_new_id_and_key(dst@.devices, src@.devices);
    let ghost k = tally::rekey(rows@, f);
    let mut i: usize = 0;
    proof {
        assert(k.take(0) =~= Seq::empty());
        tally::lemma_rekey_total(rows@, f);
    }
    while i < rows.rows.len()
        invariant
            i <= rows.rows.len(),
            store::registry_ok(dst@.devices),
            store::registry_ok(src@.devices),
            f == day_new_id_and_key(dst@.devices, src@.devices),
            k == tally::rekey(rows@, f),
            rows.wf(),
            tally::nonneg(k),
            tally::total(k) == tally::total(rows@),
            tally::distinct(s),
            into.wf(),
            into@ == tally::absorb(s, k.take(i as int)),
            tally::total(s) + tally::total(rows@) <= i64::MAX,
            forall|j: int|
                0 <= j < rows@.len() ==> store::knows(
                    dst@.devices,
                    key_for(src@.devices, (#[trigger] rows@[j]).0.1),
                ),
        decreases rows.rows.len() - i,
    {
        let day: i64 = rows.rows[i].0.0;
        let id: i64 = rows.rows[i].0.1;
        let n: i64 = rows.rows[i].1;
        let name = rows.rows[i].0.2.clone();
        assert(rows@[i as int] == ((day, id, name@), n as int));
        proof {
            let t1 = k.take(i as int + 1);
            assert(t1.drop_last() =~= k.take(i as int));
            assert(t1.last() == k[i as int]);
            tally::lemma_prefix_sum(k, i as int + 1, |v: (i64, i64, Seq<char>)| true);
            tally::lemma_absorb_sum(s, k.take(i as int), |v: (i64, i64, Seq<char>)| true);
        }
        let to = new_id(dst, src, id);
        into.bump((day, to, name), n);
        i = i + 1;
    }
    assert(k.take(i as int) =~= k);
}

/// Registers a placeholder for every device of the rows that nothing is registered for.
fn adopt_rows(src: &mut YearDb, counts: &Tally<(i64, i64)>, keys: &Tally<(i64, i64, String)>)
    requires
        old(src).wf(),
    ensures
        final(src).wf(),
        final(src)@ == (YearModel {
            devices: adopted(
                old(src)@.devices,
                Seq::new(counts@.len(), |i: int| counts@[i].0.1) + Seq::new(
                    keys@.len(),
                    |i: int| keys@[i].0.1,
                ),
            ),
            ..old(src)@
        }),
{
    let ghost r0 = src@.devices;
    let ghost a = Seq::new(counts@.len(), |i: int| counts@[i].0.1);
    let ghost b = Seq::new(keys@.len(), |i: int| keys@[i].0.1);
    let ghost ids = a + b;
    let mut i: usize = 0;
    assert(ids.take(0) =~= Seq::empty());
    while i < counts.rows.len()
        invariant
            i <= counts.rows.len(),
            a == Seq::new(counts@.len(), |i: int| counts@[i].0.1),
            ids == a + b,
            src.wf(),
            src@ == (YearModel { devices: adopted(r0, ids.take(i as int)), ..old(src)@ }),
        decreases counts.rows.len() - i,
    {
        let id: i64 = counts.rows[i].0.1;
        proof {
            let t1 = ids.take(i as int + 1);
            assert(t1.drop_last() =~= ids.take(i as int));
            assert(t1.last() == a[i as int]);
            assert(a[i as int] == id);
        }
        adopt(src, id);
        i = i + 1;
    }
    let mut j: usize = 0;
    let ghost n = counts@.len();
    while j < keys.rows.len()
        invariant
            j <= keys.rows.len(),
            n == a.len(),
            b == Seq::new(keys@.len(), |i: int| keys@[i].0.1),
            ids == a + b,
            src.wf(),
            src@ == (YearModel { devices: adopted(r0, ids.take(n + j as int)), ..old(src)@ }),
        decreases keys.rows.len() - j,
    {
        let id: i64 = keys.rows[j].0.1;
        proof {
            let t1 = ids.take(n + j as int + 1);
            assert(t1.drop_last() =~= ids.take(n + j as int));
            assert(t1.last() == b[j as int]);
            assert(b[j as int] == id);
        }
        adopt(src, id);
        j = j + 1;
    }
    assert(ids.take(n + j as int) =~= ids);
}

/// Rows for the same days stay rows for the same days.
proof fn lemma_same_days(a: Seq<(i64, int)>, b: Seq<(i64, int)>, from: int, to: int)
    requires
        store::same_keys(a, b),
    ensures
        store::same_keys(moving::<i64>(a, from, to), moving::<i64>(b, from, to)),
        store::same_keys(staying::<i64>(a, from, to), staying::<i64>(b, from, to)),
{
    let q = tally::days_within::<i64>(from, to);
    let p = tally::days_outside::<i64>(from, to);
    tally::lemma_keep(a, q);
    tally::lemma_keep(b, q);
    tally::lemma_keep(a, p);
    tally::lemma_keep(b, p);
    assert forall|k: i64|
        tally::has_key(moving::<i64>(a, from, to), k) <==> tally::has_key(
            moving::<i64>(b, from, to),
            k,
        ) by {
        assert(tally::has_key(a, k) <==> tally::has_key(b, k));
    }
    assert forall|k: i64|
        tally::has_key(staying::<i64>(a, from, to), k) <==> tally::has_key(
            staying::<i64>(b, from, to),
            k,
        ) by {
        assert(tally::has_key(a, k) <==> tally::has_key(b, k));
    }
}

proof fn lemma_same_days_joined(
    a: Seq<(i64, int)>,
    b: Seq<(i64, int)>,
    c: Seq<(i64, int)>,
    d: Seq<(i64, int)>,
)
    requires
        tally::distinct(a),
        tally::distinct(b),
        store::same_keys(a, b),
        store::same_keys(c, d),
    ensures
        store::same_keys(tally::absorb(a, c), tally::absorb(b, d)),
{
    tally::lemma_absorb_shape(a, c);
    tally::lemma_absorb_shape(b, d);
    assert forall|k: i64|
        tally::has_key(tally::absorb(a, c), k) <==> tally::has_key(tally::absorb(b, d), k) by {
        assert(tally::has_key(a, k) <==> tally::has_key(b, k));
        assert(tally::has_key(c, k) <==> tally::has_key(d, k));
    }
}

/// Moves the rows of the days from `from` up to but not with `to` from `src` to `dst`.
/// Amounts of rows that are there already are added up. Devices are found by their keys;
/// those that `dst` does not know are registered there, and rows whose device was never
/// registered go to a placeholder. Tells whether any row was moved.
pub fn move_days(dst: &mut YearDb, src: &mut YearDb, from: i64, to: i64) -> (r: bool)
    requires
        old(dst).wf(),
        old(src).wf(),
        can_receive(old(dst)@, old(src)@),
    ensures
        final(dst).wf(),
        final(src).wf(),
        final(dst)@ == received(old(dst)@, old(src)@, from as int, to as int),
        final(src)@ == left_behind(old(src)@, from as int, to as int),
        r == anything_moves(old(src)@, from as int, to as int),
{
    let ghost a = src@;
    let ghost b = dst@;
    let ghost f = from as int;
    let ghost t = to as int;
    let daily = src.daily.select_days(from, to, true);
    let seconds = src.seconds.select_days(from, to, true);
    let hourly = src.hourly.select_days(from, to, true);
    let keys = src.keys.select_days(from, to, true);
    let apps = src.apps.select_days(from, to, true);
    let counts = src.device_counts.select_days(from, to, true);
    let device_keys = src.device_keys.select_days(from, to, true);
    let moved = !(daily.is_empty() && hourly.is_empty() && keys.is_empty() && apps.is_empty()
        && counts.is_empty() && device_keys.is_empty());
    let ghost ids = moving_ids(a, f, t);
    proof {
        lemma_adopted(a.devices, ids);
        assert(ids =~= Seq::new(counts@.len(), |i: int| counts@[i].0.1) + Seq::new(
            device_keys@.len(),
            |i: int| device_keys@[i].0.1,
        ));
    }
    adopt_rows(src, &counts, &device_keys);
    assert(src@.devices == adopted(a.devices, ids));
    proof {
        lemma_taught(b.devices, src@.devices);
        lemma_same_days(a.daily, a.seconds, f, t);
        lemma_same_days_joined(b.daily, b.seconds, daily@, seconds@);
    }
    teach(dst, src);
    let ghost known = dst@.devices;
    assert(known == taught(b.devices, adopted(a.devices, ids)));
    dst.daily.absorb(&daily);
    dst.seconds.absorb(&seconds);
    dst.hourly.absorb(&hourly);
    dst.keys.absorb(&keys);
    dst.apps.absorb(&apps);
    let mut new_counts: Tally<(i64, i64)> = Tally::new();
    std::mem::swap(&mut new_counts, &mut dst.device_counts);
    let mut new_keys: Tally<(i64, i64, String)> = Tally::new();
    std::mem::swap(&mut new_keys, &mut dst.device_keys);
    proof {
        assert forall|i: int| 0 <= i < counts@.len() implies store::knows(
            known,
            key_for(src@.devices, (#[trigger] counts@[i]).0.1),
        ) by {
            assert(ids[i] == counts@[i].0.1);
            assert(key_for(src@.devices, ids[i]) == key_for(a.devices, ids[i]));
            assert(store::knows(src@.devices, key_for(a.devices, ids[i])));
        }
        assert forall|i: int| 0 <= i < device_keys@.len() implies store::knows(
            known,
            key_for(src@.devices, (#[trigger] device_keys@[i]).0.1),
        ) by {
            assert(ids[counts@.len() + i] == device_keys@[i].0.1);
            assert(key_for(src@.devices, ids[counts@.len() + i]) == key_for(
                a.devices,
                ids[counts@.len() + i],
            ));
            assert(store::knows(src@.devices, key_for(a.devices, ids[counts@.len() + i])));
        }
        lemma_same_translation(known, a.devices, src@.devices);
    }
    translate_counts(dst, src, &counts, &mut new_counts);
    translate_keys(dst, src, &device_keys, &mut new_keys);
    dst.device_counts = new_counts;
    dst.device_keys = new_keys;
    src.daily = src.daily.select_days(from, to, false);
    src.seconds = src.seconds.select_days(from, to, false);
    src.hourly = src.hourly.select_days(from, to, false);
    src.keys = src.keys.select_days(from, to, false);
    src.apps = src.apps.select_days(from, to, false);
    src.device_counts = src.device_counts.select_days(from, to, false);
    src.device_keys = src.device_keys.select_days(from, to, false);
    proof {
        assert(src@ =~= left_behind(a, f, t));
        assert(dst@ =~= received(b, a, f, t));
    }
    moved
}

/// Keys that stay the same are translated the same.
proof fn lemma_same_translation(dst: Registry, a: Registry, b: Registry)
    requires
        forall|n: i64| #[trigger] key_for(b, n) == key_for(a, n),
    ensures
        day_and_new_id(dst, a) == day_and_new_id(dst, b),
        day_new_id_and_key(dst, a) == day_new_id_and_key(dst, b),
{
    assert(day_and_new_id(dst, a) =~= day_and_new_id(dst, b));
    assert(day_new_id_and_key(dst, a) =~= day_new_id_and_key(dst, b));
}

// ------------------------------------------------------------------------------- years

/// The files after the rows of some days were moved from the tables of `source` to those
/// of the earlier year `target`. A file that is missing is created; one that cannot be
/// read stops the move.
pub open spec fn archived(
    st: StoreModel,
    target: i32,
    source: i32,
    from: int,
    to: int,
) -> StoreModel {
    if target >= source || !store::writable(st, target) {
        st
    } else if !store::writable(st, source) {
        store::with_tables(st, target, store::tables_of(st, target))
    } else {
        let src = store::tables_of(st, source);
        let dst = store::tables_of(st, target);
        store::with_tables(
            store::with_tables(st, target, received(dst, src, from, to)),
            source,
            left_behind(src, from, to),
        )
    }
}

/// Whether the move brings any row over.
pub open spec fn archives(st: StoreModel, target: i32, source: i32, from: int, to: int) -> bool {
    &&& target < source
    &&& store::writable(st, target)
    &&& store::writable(st, source)
    &&& anything_moves(store::tables_of(st, source), from, to)
}

/// Moves the rows of the days from `from` up to but not with `to` from the tables of
/// `source_year` to those of the earlier year `target_year`. Tells whether any row was
/// moved.
pub fn archive_year_range(
    st: &mut Store,
    target_year: i32,
    source_year: i32,
    from: i64,
    to: i64,
) -> (r: bool)
    requires
        old(st).wf(),
        can_receive(
            store::tables_of(old(st)@, target_year),
            store::tables_of(old(st)@, source_year),
        ),
    ensures
        final(st).wf(),
        final(st)@ == archived(old(st)@, target_year, source_year, from as int, to as int),
        r == archives(old(st)@, target_year, source_year, from as int, to as int),
{
    let ghost m = st@;
    if target_year >= source_year || !st.is_writable(target_year) {
        return false;
    }
    proof {
        st.one_each();
        store::lemma_vacated(m, target_year);
    }
    let mut dst = st.take_tables(target_year);
    if !st.is_writable(source_year) {
        proof {
            store::lemma_with_tables(m, target_year, dst@);
            assert(store::writable(store::vacated(m, target_year), source_year)
                == store::writable(m, source_year));
        }
        st.put_tables(target_year, dst);
        return false;
    }
    let ghost v1 = st@;
    proof {
        assert(v1 == store::vacated(m, target_year));
        assert(store::writable(v1, source_year) == store::writable(m, source_year));
        assert(store::tables_of(v1, source_year) == store::tables_of(m, source_year));
        store::lemma_vacated(v1, source_year);
    }
    let mut src = st.take_tables(source_year);
    let moved = move_days(&mut dst, &mut src, from, to);
    let ghost v2 = st@;
    let ghost d2 = dst@;
    let ghost s2 = src@;
    st.put_tables(target_year, dst);
    st.put_tables(source_year, src);
    proof {
        store::lemma_with_tables(m, target_year, d2);
        lemma_put_back(m, target_year, d2, source_year, s2);
    }
    moved
}

/// Taking out the tables of two years and putting new ones in is replacing both.
proof fn lemma_put_back(m: StoreModel, a: i32, da: YearModel, b: i32, db: YearModel)
    requires
        store::one_per_year(m),
        a != b,
    ensures
        store::with_tables(
            store::with_tables(store::vacated(store::vacated(m, a), b), a, da),
            b,
            db,
        ) == store::with_tables(store::with_tables(m, a, da), b, db),
{
    let v = store::vacated(m, a);
    let v2 = store::vacated(v, b);
    store::lemma_vacated(m, a);
    store::lemma_vacated(v, b);
    assert(store::has_file(v2, a) == store::has_file(v, a));
    assert(store::has_file(v, a) == store::has_file(m, a));
    assert(store::has_file(v2, b) == store::has_file(v, b));
    assert(store::has_file(v, b) == store::has_file(m, b));
    let x = store::with_tables(v2, a, da);
    let y = store::with_tables(m, a, da);
    store::lemma_with_tables(v2, a, da);
    store::lemma_with_tables(m, a, da);
    assert(store::has_file(x, b) == store::has_file(v2, b));
    assert(store::has_file(y, b) == store::has_file(m, b));
    assert(store::with_tables(x, b, db) =~= store::with_tables(y, b, db));
}

/// Moves the days of `target_year` from the tables of `source_year` to those of
/// `target_year`. Tells whether any row was moved.
pub fn archive_year_data(st: &mut Store, target_year: i32, source_year: i32) -> (r: bool)
    requires
        old(st).wf(),
        calendar::FIRST_YEAR <= target_year < calendar::LAST_YEAR,
        can_receive(
            store::tables_of(old(st)@, target_year),
            store::tables_of(old(st)@, source_year),
        ),
    ensures
        final(st).wf(),
        final(st)@ == archived(
            old(st)@,
            target_year,
            source_year,
            calendar::new_year(target_year as int),
            calendar::new_year(target_year + 1),
        ),
        r == archives(
            old(st)@,
            target_year,
            source_year,
            calendar::new_year(target_year as int),
            calendar::new_year(target_year + 1),
        ),
{
    match (new_year_key(target_year), new_year_key(target_year + 1)) {
        (Some(a), Some(b)) => archive_year_range(st, target_year, source_year, a, b),
        _ => {
            assert(false);
            false
        },
    }
}

/// The earliest of the days before `end` that have a row.
pub open spec fn earliest(s: Seq<(i64, int)>, end: int) -> Option<i64>
    decreases s.len(),
{
    if s.len() == 0 {
        None
    } else {
        let e = earliest(s.drop_last(), end);
        let d = s.last().0;
        if d < end && (e is None || d < e->0) {
            Some(d)
        } else {
            e
        }
    }
}

/// The earliest day is before all others, and there is one exactly where a row is.
pub proof fn lemma_earliest(s: Seq<(i64, int)>, end: int)
    ensures
        earliest(s, end) is None <==> forall|i: int|
            0 <= i < s.len() ==> (#[trigger] s[i]).0 >= end,
        earliest(s, end) matches Some(d) ==> d < end && tally::has_key(s, d) && forall|i: int|
            0 <= i < s.len() ==> d <= (#[trigger] s[i]).0 || s[i].0 >= end,
    decreases s.len(),
{
    if s.len() > 0 {
        let t = s.drop_last();
        lemma_earliest(t, end);
        assert(s[s.len() - 1] == s.last());
        assert forall|i: int| 0 <= i < t.len() implies #[trigger] t[i] == s[i] by {}
        if earliest(t, end) is Some {
            let d = earliest(t, end)->0;
            let k = choose|k: int| 0 <= k < t.len() && (#[trigger] t[k]).0 == d;
            assert(s[k].0 == d);
        } else {
            assert forall|i: int| 0 <= i < t.len() implies (#[trigger] s[i]).0 >= end by {
                assert(t[i].0 >= end);
            }
        }
        if earliest(s, end) is None {
            assert forall|i: int| 0 <= i < s.len() implies (#[trigger] s[i]).0 >= end by {
                if i < t.len() {
                    assert(t[i] == s[i]);
                }
            }
        } else {
            let d = earliest(s, end)->0;
            assert forall|i: int| 0 <= i < s.len() implies d <= (#[trigger] s[i]).0 || s[i].0
                >= end by {
                if i < t.len() {
                    assert(t[i] == s[i]);
                }
            }
        }
    }
}

fn find_earliest(t: &Tally<i64>, end: i64) -> (r: Option<i64>)
    ensures
        r == earliest(t@, end as int),
{
    let ghost s = t@;
    let mut e: Option<i64> = None;
    let mut i: usize = 0;
    while i < t.rows.len()
        invariant
            i <= t.rows.len(),
            s == t@,
            e == earliest(s.take(i as int), end as int),
        decreases t.rows.len() - i,
    {
        proof {
            let t1 = s.take(i as int + 1);
            assert(t1.drop_last() =~= s.take(i as int));
            assert(t1.last() == s[i as int]);
        }
        let d: i64 = t.rows[i].0;
        let earlier = match e {
            None => true,
            Some(x) => d < x,
        };
        if d < end && earlier {
            e = Some(d);
        }
        i = i + 1;
    }
    assert(s.take(i as int) =~= s);
    e
}

/// The first year whose days are still in the tables of the later year `source`: that of
/// the earliest day, where it is a date from 1970 on.
pub open spec fn first_stale(st: StoreModel, source: i32) -> Option<int> {
    match earliest(
        store::tables_of(st, source).daily,
        calendar::new_year(source as int),
    ) {
        Some(d) => if 0 <= d <= calendar::last_day() {
            Some(calendar::date_of(d as int).year as int)
        } else {
            None
        },
        None => None,
    }
}

/// The first year whose days are still in the tables of the later year `source_year`.
pub fn first_stale_year(st: &Store, source_year: i32) -> (r: Option<i32>)
    requires
        st.wf(),
        calendar::FIRST_YEAR <= source_year <= calendar::LAST_YEAR,
    ensures
        match r {
            Some(y) => first_stale(st@, source_year) == Some(y as int) && calendar::FIRST_YEAR
                <= y,
            None => first_stale(st@, source_year) is None,
        },
{
    let start = match new_year_key(source_year) {
        Some(k) => k,
        None => {
            assert(false);
            0
        },
    };
    match crate::db::select::tables(st, source_year) {
        None => None,
        Some(d) => match find_earliest(&d.daily, start) {
            None => None,
            Some(day) => match day_key_to_date(day) {
                None => None,
                Some(date) => {
                    proof {
                        calendar::lemma_day_key_round_trip(date);
                        calendar::lemma_number_range(date);
                    }
                    Some(date.year)
                },
            },
        },
    }
}

/// The files after the days of the years from `first` up to but not with `end` were moved
/// out of the tables of `source`, each to its own year.
pub open spec fn archived_years(st: StoreModel, source: i32, first: int, end: int) -> StoreModel
    decreases end - first,
{
    if end <= first {
        st
    } else {
        archived(
            archived_years(st, source, first, end - 1),
            (end - 1) as i32,
            source,
            calendar::new_year(end - 1),
            calendar::new_year(end),
        )
    }
}

/// Whether moving the days of these years brings any row over.
pub open spec fn archives_years(st: StoreModel, source: i32, first: int, end: int) -> bool
    decreases end - first,
{
    if end <= first {
        false
    } else {
        archives_years(st, source, first, end - 1) || archives(
            archived_years(st, source, first, end - 1),
            (end - 1) as i32,
            source,
            calendar::new_year(end - 1),
            calendar::new_year(end),
        )
    }
}

proof fn lemma_parts<K: Dated>(s: Seq<(K::V, int)>, from: int, to: int)
    ensures
        staying::<K>(s, from, to).len() + moving::<K>(s, from, to).len() == s.len(),
    decreases s.len(),
{
    if s.len() > 0 {
        lemma_parts::<K>(s.drop_last(), from, to);
    }
}

proof fn lemma_staying<K: Dated>(s: Seq<(K::V, int)>, from: int, to: int)
    requires
        tally::nonneg(s),
    ensures
        0 <= tally::total(staying::<K>(s, from, to)) <= tally::total(s),
        staying::<K>(s, from, to).len() + moving::<K>(s, from, to).len() == s.len(),
{
    tally::lemma_keep_total(s, tally::days_outside::<K>(from, to));
    lemma_parts::<K>(s, from, to);
}

/// No table of the year has a negative amount.
pub open spec fn all_nonneg(y: YearModel) -> bool {
    &&& tally::nonneg(y.daily)
    &&& tally::nonneg(y.seconds)
    &&& tally::nonneg(y.hourly)
    &&& tally::nonneg(y.keys)
    &&& tally::nonneg(y.apps)
    &&& tally::nonneg(y.device_counts)
    &&& tally::nonneg(y.device_keys)
}

/// What is left after a move still fits into other tables.
proof fn lemma_still_fits(dst: YearModel, src: YearModel, from: int, to: int)
    requires
        all_nonneg(src),
        store::registry_ok(src.devices),
        can_receive(dst, src),
    ensures
        can_receive(dst, left_behind(src, from, to)),
{
    lemma_staying::<i64>(src.daily, from, to);
    lemma_staying::<i64>(src.seconds, from, to);
    lemma_staying::<(i64, i64)>(src.hourly, from, to);
    lemma_staying::<(i64, String)>(src.keys, from, to);
    lemma_staying::<(i64, String)>(src.apps, from, to);
    lemma_staying::<(i64, i64)>(src.device_counts, from, to);
    lemma_staying::<(i64, i64, String)>(src.device_keys, from, to);
    lemma_adopted(src.devices, moving_ids(src, from, to));
}

proof fn lemma_store_nonneg(st: Store, year: i32)
    requires
        st.wf(),
    ensures
        all_nonneg(store::tables_of(st@, year)),
        store::registry_ok(store::tables_of(st@, year).devices),
{
    let m = st@;
    if exists|i: int| 0 <= i < m.len() && (#[trigger] m[i]).0 == year && m[i].1 is Some {
        let i = choose|i: int| 0 <= i < m.len() && (#[trigger] m[i]).0 == year && m[i].1 is Some;
        let f = st.files@[i];
        assert(f.db is Some);
        assert(f.db->0.wf());
    }
}

/// Moving the days of one year touches the tables of that year and of the source only.
proof fn lemma_archived(st: StoreModel, target: i32, source: i32, from: int, to: int)
    requires
        store::one_per_year(st),
    ensures
        store::one_per_year(archived(st, target, source, from, to)),
        forall|z: i32|
            z != target && z != source ==> #[trigger] store::tables_of(
                archived(st, target, source, from, to),
                z,
            ) == store::tables_of(st, z),
        store::tables_of(archived(st, target, source, from, to), source) == store::tables_of(
            st,
            source,
        ) || store::tables_of(archived(st, target, source, from, to), source) == left_behind(
            store::tables_of(st, source),
            from,
            to,
        ),
{
    if target < source && store::writable(st, target) {
        let src = store::tables_of(st, source);
        let dst = store::tables_of(st, target);
        if !store::writable(st, source) {
            store::lemma_with_tables(st, target, dst);
        } else {
            let d2 = received(dst, src, from, to);
            let x = store::with_tables(st, target, d2);
            store::lemma_with_tables(st, target, d2);
            store::lemma_with_tables(x, source, left_behind(src, from, to));
            assert forall|z: i32| z != target && z != source implies #[trigger] store::tables_of(
                archived(st, target, source, from, to),
                z,
            ) == store::tables_of(st, z) by {
                assert(store::tables_of(x, z) == store::tables_of(st, z));
            }
        }
    }
}

/// Moves every day before the year `source_year` out of the tables of that year, each to
/// the tables of its own year. Tells whether any row was moved.
pub fn archive_stale_years(st: &mut Store, source_year: i32) -> (r: bool)
    requires
        old(st).wf(),
        calendar::FIRST_YEAR <= source_year <= calendar::LAST_YEAR,
        forall|y: i32|
            y < source_year ==> can_receive(
                #[trigger] store::tables_of(old(st)@, y),
                store::tables_of(old(st)@, source_year),
            ),
    ensures
        final(st).wf(),
        match first_stale(old(st)@, source_year) {
            Some(first) => {
                &&& final(st)@ == archived_years(
                    old(st)@,
                    source_year,
                    first,
                    source_year as int,
                )
                &&& r == archives_years(old(st)@, source_year, first, source_year as int)
            },
            None => final(st)@ == old(st)@ && !r,
        },
{
    let ghost m = st@;
    match first_stale_year(st, source_year) {
        None => false,
        Some(first) => {
            let mut any = false;
            let mut y: i32 = first;
            proof {
                st.one_each();
            }
            while y < source_year
                invariant
                    calendar::FIRST_YEAR <= first <= y,
                    y <= source_year || y == first,
                    source_year <= calendar::LAST_YEAR,
                    st.wf(),
                    st@ == archived_years(m, source_year, first as int, y as int),
                    any == archives_years(m, source_year, first as int, y as int),
                    forall|z: i32|
                        y <= z < source_year ==> can_receive(
                            #[trigger] store::tables_of(st@, z),
                            store::tables_of(st@, source_year),
                        ),
                decreases source_year - y,
            {
                let ghost cur = st@;
                let ghost a = calendar::new_year(y as int);
                let ghost b = calendar::new_year(y + 1);
                proof {
                    st.one_each();
                    lemma_store_nonneg(*st, source_year);
                    lemma_archived(cur, y, source_year, a, b);
                    assert(can_receive(
                        store::tables_of(cur, y),
                        store::tables_of(cur, source_year),
                    ));
                }
                if archive_year_data(st, y, source_year) {
                    any = true;
                }
                proof {
                    assert forall|z: i32| y + 1 <= z < source_year implies can_receive(
                        #[trigger] store::tables_of(st@, z),
                        store::tables_of(st@, source_year),
                    ) by {
                        assert(store::tables_of(st@, z) == store::tables_of(cur, z));
                        lemma_still_fits(
                            store::tables_of(cur, z),
                            store::tables_of(cur, source_year),
                            a,
                            b,
                        );
                    }
                }
                y = y + 1;
            }
            proof {
                if first > source_year {
                    assert(archived_years(m, source_year, first as int, source_year as int) == m);
                }
            }
            any
        },
    }
}

/// Moves the days of past years out of the tables of the current year, where that is
/// wanted and there are any. Tells whether any row was moved.
pub fn check_yearly_archive(st: &mut Store, enabled: bool, current_year: i32) -> (r: bool)
    requires
        old(st).wf(),
        calendar::FIRST_YEAR <= current_year <= calendar::LAST_YEAR,
        forall|y: i32|
            y < current_year ==> can_receive(
                #[trigger] store::tables_of(old(st)@, y),
                store::tables_of(old(st)@, current_year),
            ),
    ensures
        final(st).wf(),
        match first_stale(old(st)@, current_year) {
            Some(first) => if enabled {
                &&& final(st)@ == archived_years(
                    old(st)@,
                    current_year,
                    first,
                    current_year as int,
                )
                &&& r == archives_years(old(st)@, current_year, first, current_year as int)
            } else {
                final(st)@ == old(st)@ && !r
            },
            None => final(st)@ == old(st)@ && !r,
        },
{
    if !enabled {
        return false;
    }
    archive_stale_years(st, current_year)
}

// -------------------------------------------------------------------------------- laws

proof fn lemma_split_total<K: Dated>(s: Seq<(K::V, int)>, from: int, to: int, p: spec_fn(
    K::V,
) -> bool)
    ensures
        tally::sum_if(moving::<K>(s, from, to), p) + tally::sum_if(staying::<K>(s, from, to), p)
            == tally::sum_if(s, p),
    decreases s.len(),
{
    if s.len() > 0 {
        let t = s.drop_last();
        lemma_split_total::<K>(t, from, to, p);
        if tally::days_within::<K>(from, to)(s.last().0) {
            tally::lemma_sum_push(moving::<K>(t, from, to), s.last(), p);
        } else {
            tally::lemma_sum_push(staying::<K>(t, from, to), s.last(), p);
        }
    }
}

proof fn lemma_split_amount<K: Dated>(s: Seq<(K::V, int)>, from: int, to: int, k: K::V)
    ensures
        tally::amount(moving::<K>(s, from, to), k) + tally::amount(
            staying::<K>(s, from, to),
            k,
        ) == tally::amount(s, k),
{
    lemma_split_total::<K>(s, from, to, |v: K::V| v == k);
}

/// The keys of every table are distinct.
pub open spec fn all_distinct(y: YearModel) -> bool {
    &&& tally::distinct(y.daily)
    &&& tally::distinct(y.seconds)
    &&& tally::distinct(y.hourly)
    &&& tally::distinct(y.keys)
    &&& tally::distinct(y.apps)
    &&& tally::distinct(y.device_counts)
    &&& tally::distinct(y.device_keys)
}

/// A move neither loses nor doubles anything: in each table the two sides together hold
/// after it what they held before.
pub proof fn lemma_move_conserves(dst: YearModel, src: YearModel, from: int, to: int)
    requires
        all_distinct(dst),
    ensures
        ({
            let d = received(dst, src, from, to);
            let s = left_behind(src, from, to);
            &&& tally::total(d.daily) + tally::total(s.daily) == tally::total(dst.daily)
                + tally::total(src.daily)
            &&& tally::total(d.seconds) + tally::total(s.seconds) == tally::total(dst.seconds)
                + tally::total(src.seconds)
            &&& tally::total(d.hourly) + tally::total(s.hourly) == tally::total(dst.hourly)
                + tally::total(src.hourly)
            &&& tally::total(d.keys) + tally::total(s.keys) == tally::total(dst.keys)
                + tally::total(src.keys)
            &&& tally::total(d.apps) + tally::total(s.apps) == tally::total(dst.apps)
                + tally::total(src.apps)
            &&& tally::total(d.device_counts) + tally::total(s.device_counts) == tally::total(
                dst.device_counts,
            ) + tally::total(src.device_counts)
            &&& tally::total(d.device_keys) + tally::total(s.device_keys) == tally::total(
                dst.device_keys,
            ) + tally::total(src.device_keys)
        }),
{
    let known = taught(dst.devices, adopted(src.devices, moving_ids(src, from, to)));
    tally::lemma_absorb_sum(dst.daily, moving::<i64>(src.daily, from, to), |v: i64| true);
    lemma_split_total::<i64>(src.daily, from, to, |v: i64| true);
    tally::lemma_absorb_sum(dst.seconds, moving::<i64>(src.seconds, from, to), |v: i64| true);
    lemma_split_total::<i64>(src.seconds, from, to, |v: i64| true);
    tally::lemma_absorb_sum(
        dst.hourly,
        moving::<(i64, i64)>(src.hourly, from, to),
        |v: (i64, i64)| true,
    );
    lemma_split_total::<(i64, i64)>(src.hourly, from, to, |v: (i64, i64)| true);
    tally::lemma_absorb_sum(
        dst.keys,
        moving::<(i64, String)>(src.keys, from, to),
        |v: (i64, Seq<char>)| true,
    );
    lemma_split_total::<(i64, String)>(src.keys, from, to, |v: (i64, Seq<char>)| true);
    tally::lemma_absorb_sum(
        dst.apps,
        moving::<(i64, String)>(src.apps, from, to),
        |v: (i64, Seq<char>)| true,
    );
    lemma_split_total::<(i64, String)>(src.apps, from, to, |v: (i64, Seq<char>)| true);
    let c = moving::<(i64, i64)>(src.device_counts, from, to);
    tally::lemma_rekey_total(c, day_and_new_id(known, src.devices));
    tally::lemma_absorb_sum(
        dst.device_counts,
        tally::rekey(c, day_and_new_id(known, src.devices)),
        |v: (i64, i64)| true,
    );
    lemma_split_total::<(i64, i64)>(src.device_counts, from, to, |v: (i64, i64)| true);
    let k = moving::<(i64, i64, String)>(src.device_keys, from, to);
    tally::lemma_rekey_total(k, day_new_id_and_key(known, src.devices));
    tally::lemma_absorb_sum(
        dst.device_keys,
        tally::rekey(k, day_new_id_and_key(known, src.devices)),
        |v: (i64, i64, Seq<char>)| true,
    );
    lemma_split_total::<(i64, i64, String)>(
        src.device_keys,
        from,
        to,
        |v: (i64, i64, Seq<char>)| true,
    );
}

proof fn lemma_row_moves<K: Dated>(
    dst: Seq<(K::V, int)>,
    src: Seq<(K::V, int)>,
    from: int,
    to: int,
    k: K::V,
)
    requires
        tally::distinct(dst),
    ensures
        row_moved::<K>(dst, src, from, to, k),
{
    let m = moving::<K>(src, from, to);
    let r = staying::<K>(src, from, to);
    tally::lemma_absorb_amount(dst, m, k);
    lemma_split_amount::<K>(src, from, to, k);
    tally::lemma_keep(src, tally::days_within::<K>(from, to));
    tally::lemma_keep(src, tally::days_outside::<K>(from, to));
    if from <= K::day_of(k) < to {
        assert(!tally::has_key(r, k));
        tally::lemma_amount_missing(r, k);
    } else {
        assert(!tally::has_key(m, k));
        tally::lemma_amount_missing(m, k);
    }
}

/// The row of `k` is added to the other side and gone on this one where its day moves, and
/// as it was on both where its day stays.
pub open spec fn row_moved<K: Dated>(
    dst: Seq<(K::V, int)>,
    src: Seq<(K::V, int)>,
    from: int,
    to: int,
    k: K::V,
) -> bool {
    let got = tally::amount(tally::absorb(dst, moving::<K>(src, from, to)), k);
    let left = tally::amount(staying::<K>(src, from, to), k);
    if from <= K::day_of(k) < to {
        got == tally::amount(dst, k) + tally::amount(src, k) && left == 0
    } else {
        got == tally::amount(dst, k) && left == tally::amount(src, k)
    }
}

/// After a move a day that moved is whole on the other side and gone on this one, and a day
/// that did not move is as it was on both: its key presses, its active seconds, each of its
/// hours, each of its keys and each of its applications.
pub proof fn lemma_days_move_whole(
    dst: YearModel,
    src: YearModel,
    from: int,
    to: int,
    day: i64,
    hour: i64,
    name: Seq<char>,
)
    requires
        all_distinct(dst),
    ensures
        ({
            let d = received(dst, src, from, to);
            let s = left_behind(src, from, to);
            if from <= day < to {
                &&& tally::amount(d.daily, day) == tally::amount(dst.daily, day) + tally::amount(
                    src.daily,
                    day,
                )
                &&& tally::amount(d.seconds, day) == tally::amount(dst.seconds, day)
                    + tally::amount(src.seconds, day)
                &&& tally::amount(d.hourly, (day, hour)) == tally::amount(dst.hourly, (day, hour))
                    + tally::amount(src.hourly, (day, hour))
                &&& tally::amount(d.keys, (day, name)) == tally::amount(dst.keys, (day, name))
                    + tally::amount(src.keys, (day, name))
                &&& tally::amount(d.apps, (day, name)) == tally::amount(dst.apps, (day, name))
                    + tally::amount(src.apps, (day, name))
                &&& tally::amount(s.daily, day) == 0
                &&& tally::amount(s.seconds, day) == 0
                &&& tally::amount(s.hourly, (day, hour)) == 0
                &&& tally::amount(s.keys, (day, name)) == 0
                &&& tally::amount(s.apps, (day, name)) == 0
            } else {
                &&& tally::amount(d.daily, day) == tally::amount(dst.daily, day)
                &&& tally::amount(d.seconds, day) == tally::amount(dst.seconds, day)
                &&& tally::amount(d.hourly, (day, hour)) == tally::amount(dst.hourly, (day, hour))
                &&& tally::amount(d.keys, (day, name)) == tally::amount(dst.keys, (day, name))
                &&& tally::amount(d.apps, (day, name)) == tally::amount(dst.apps, (day, name))
                &&& tally::amount(s.daily, day) == tally::amount(src.daily, day)
                &&& tally::amount(s.seconds, day) == tally::amount(src.seconds, day)
                &&& tally::amount(s.hourly, (day, hour)) == tally::amount(src.hourly, (day, hour))
                &&& tally::amount(s.keys, (day, name)) == tally::amount(src.keys, (day, name))
                &&& tally::amount(s.apps, (day, name)) == tally::amount(src.apps, (day, name))
            }
        }),
{
    lemma_row_moves::<i64>(dst.daily, src.daily, from, to, day);
    lemma_row_moves::<i64>(dst.seconds, src.seconds, from, to, day);
    lemma_row_moves::<(i64, i64)>(dst.hourly, src.hourly, from, to, (day, hour));
    lemma_row_moves::<(i64, String)>(dst.keys, src.keys, from, to, (day, name));
    lemma_row_moves::<(i64, String)>(dst.apps, src.apps, from, to, (day, name));
}

proof fn lemma_nothing_left<K: Dated>(s: Seq<(K::V, int)>, from: int, to: int)
    ensures
        moving::<K>(staying::<K>(s, from, to), from, to).len() == 0,
    decreases s.len(),
{
    let q = tally::days_outside::<K>(from, to);
    let r = staying::<K>(s, from, to);
    tally::lemma_keep(s, q);
    lemma_none_kept::<K>(r, from, to);
}

proof fn lemma_none_kept<K: Dated>(r: Seq<(K::V, int)>, from: int, to: int)
    requires
        forall|i: int|
            0 <= i < r.len() ==> tally::days_outside::<K>(from, to)((#[trigger] r[i]).0),
    ensures
        moving::<K>(r, from, to).len() == 0,
    decreases r.len(),
{
    if r.len() > 0 {
        let t = r.drop_last();
        assert forall|i: int| 0 <= i < t.len() implies tally::days_outside::<K>(from, to)(
            (#[trigger] t[i]).0,
        ) by {
            assert(t[i] == r[i]);
        }
        lemma_none_kept::<K>(t, from, to);
        assert(r[r.len() - 1] == r.last());
    }
}

/// Moving the same days a second time moves nothing, so nothing is counted twice.
pub proof fn lemma_moves_once(dst: YearModel, src: YearModel, from: int, to: int)
    ensures
        !anything_moves(left_behind(src, from, to), from, to),
        ({
            let d = received(dst, src, from, to);
            let s = left_behind(src, from, to);
            let again = received(d, s, from, to);
            &&& again.daily == d.daily
            &&& again.hourly == d.hourly
            &&& again.keys == d.keys
            &&& again.apps == d.apps
            &&& again.device_counts == d.device_counts
            &&& again.device_keys == d.device_keys
        }),
{
    lemma_nothing_left::<i64>(src.daily, from, to);
    lemma_nothing_left::<(i64, i64)>(src.hourly, from, to);
    lemma_nothing_left::<(i64, String)>(src.keys, from, to);
    lemma_nothing_left::<(i64, String)>(src.apps, from, to);
    lemma_nothing_left::<(i64, i64)>(src.device_counts, from, to);
    lemma_nothing_left::<(i64, i64, String)>(src.device_keys, from, to);
}

/// The rows of the device with the id `id` on one day.
pub open spec fn with_id(day: i64, id: i64) -> spec_fn((i64, i64)) -> bool {
    |v: (i64, i64)| v.0 == day && v.1 == id
}

/// The rows on one day of the device with the key `key`, by the registry `r`.
pub open spec fn with_key(r: Registry, day: i64, key: Seq<char>) -> spec_fn((i64, i64)) -> bool {
    |v: (i64, i64)| v.0 == day && key_for(r, v.1) == key
}

/// The rows of a key of the device with the id `id` on one day.
pub open spec fn pressed_with_id(day: i64, id: i64, name: Seq<char>) -> spec_fn(
    (i64, i64, Seq<char>),
) -> bool {
    |v: (i64, i64, Seq<char>)| v.0 == day && v.1 == id && v.2 == name
}

/// The rows on one day of a key of the device with the key `key`, by the registry `r`.
pub open spec fn pressed_with_key(
    r: Registry,
    day: i64,
    key: Seq<char>,
    name: Seq<char>,
) -> spec_fn((i64, i64, Seq<char>)) -> bool {
    |v: (i64, i64, Seq<char>)| v.0 == day && key_for(r, v.1) == key && v.2 == name
}

/// The sum over rows of one day is in the part that moves or in the part that stays.
proof fn lemma_day_moves<K: Dated>(
    s: Seq<(K::V, int)>,
    from: int,
    to: int,
    p: spec_fn(K::V) -> bool,
    day: int,
)
    requires
        forall|v: K::V| #[trigger] p(v) ==> K::day_of(v) == day,
    ensures
        from <= day < to ==> tally::sum_if(moving::<K>(s, from, to), p) == tally::sum_if(s, p)
            && tally::sum_if(staying::<K>(s, from, to), p) == 0,
        !(from <= day < to) ==> tally::sum_if(moving::<K>(s, from, to), p) == 0
            && tally::sum_if(staying::<K>(s, from, to), p) == tally::sum_if(s, p),
{
    let m = moving::<K>(s, from, to);
    let r = staying::<K>(s, from, to);
    lemma_split_total::<K>(s, from, to, p);
    tally::lemma_keep(s, tally::days_within::<K>(from, to));
    tally::lemma_keep(s, tally::days_outside::<K>(from, to));
    if from <= day < to {
        assert forall|i: int| 0 <= i < r.len() implies !p((#[trigger] r[i]).0) by {
            assert(tally::days_outside::<K>(from, to)(r[i].0));
        }
        tally::lemma_sum_none(r, p);
    } else {
        assert forall|i: int| 0 <= i < m.len() implies !p((#[trigger] m[i]).0) by {
            assert(tally::days_within::<K>(from, to)(m[i].0));
        }
        tally::lemma_sum_none(m, p);
    }
}

/// A move brings the inputs of a device to that device, whether the other side knew it
/// before or learns it by the move. On a day that moves a device has there what it had and
/// what the rows of its key bring, in all and of each of its keys, and nothing is left here;
/// on a day that stays both sides are as they were. A device that the other side knew keeps
/// its id, and one that it does not know after the move has no row on a day that moves.
pub proof fn lemma_devices_keep_their_counts(
    dst: YearModel,
    src: YearModel,
    from: int,
    to: int,
    day: i64,
    key: Seq<char>,
    name: Seq<char>,
)
    requires
        all_distinct(dst),
        store::registry_ok(dst.devices),
        store::registry_ok(src.devices),
        store::ids_fit(dst.devices),
        store::max_id(dst.devices) + src.devices.len() + src.device_counts.len()
            + src.device_keys.len() < i64::MAX,
    ensures
        ({
            let d = received(dst, src, from, to);
            let s = left_behind(src, from, to);
            let id = store::id_of(d.devices, key) as i64;
            let a = with_id(day, id);
            let b = pressed_with_id(day, id, name);
            let p = with_key(src.devices, day, key);
            let q = pressed_with_key(src.devices, day, key, name);
            &&& store::knows(dst.devices, key) ==> store::knows(d.devices, key) && id
                == store::id_of(dst.devices, key)
            &&& forall|n: i64| #[trigger] key_for(s.devices, n) == key_for(src.devices, n)
            &&& if from <= day < to {
                &&& store::knows(d.devices, key) ==> tally::sum_if(d.device_counts, a)
                    == tally::sum_if(dst.device_counts, a) + tally::sum_if(src.device_counts, p)
                &&& store::knows(d.devices, key) ==> tally::sum_if(d.device_keys, b)
                    == tally::sum_if(dst.device_keys, b) + tally::sum_if(src.device_keys, q)
                &&& !store::knows(d.devices, key) ==> tally::sum_if(src.device_counts, p) == 0
                    && tally::sum_if(src.device_keys, q) == 0
                &&& tally::sum_if(s.device_counts, p) == 0
                &&& tally::sum_if(s.device_keys, q) == 0
            } else {
                &&& store::knows(d.devices, key) ==> tally::sum_if(d.device_counts, a)
                    == tally::sum_if(dst.device_counts, a)
                &&& store::knows(d.devices, key) ==> tally::sum_if(d.device_keys, b)
                    == tally::sum_if(dst.device_keys, b)
                &&& tally::sum_if(s.device_counts, p) == tally::sum_if(src.device_counts, p)
                &&& tally::sum_if(s.device_keys, q) == tally::sum_if(src.device_keys, q)
            }
        }),
{
    let ids = moving_ids(src, from, to);
    let both = adopted(src.devices, ids);
    let known = taught(dst.devices, both);
    let id = store::id_of(known, key) as i64;
    let m = moving::<(i64, i64)>(src.device_counts, from, to);
    let n = moving::<(i64, i64, String)>(src.device_keys, from, to);
    let f = day_and_new_id(known, src.devices);
    let g = day_new_id_and_key(known, src.devices);
    let a = with_id(day, id);
    let b = pressed_with_id(day, id, name);
    let p = with_key(src.devices, day, key);
    let q = pressed_with_key(src.devices, day, key, name);
    lemma_adopted(src.devices, ids);
    lemma_taught(dst.devices, both);
    lemma_parts::<(i64, i64)>(src.device_counts, from, to);
    lemma_parts::<(i64, i64, String)>(src.device_keys, from, to);
    lemma_day_moves::<(i64, i64)>(src.device_counts, from, to, p, day as int);
    lemma_day_moves::<(i64, i64, String)>(src.device_keys, from, to, q, day as int);
    assert forall|i: int| 0 <= i < m.len() implies store::knows(
        known,
        key_for(src.devices, (#[trigger] m[i]).0.1),
    ) by {
        assert(ids[i] == m[i].0.1);
        assert(store::knows(both, key_for(src.devices, ids[i])));
    }
    assert forall|i: int| 0 <= i < n.len() implies store::knows(
        known,
        key_for(src.devices, (#[trigger] n[i]).0.1),
    ) by {
        assert(ids[m.len() + i] == n[i].0.1);
        assert(store::knows(both, key_for(src.devices, ids[m.len() + i])));
    }
    if store::knows(known, key) {
        lemma_known_range(dst.devices, both, key);
        tally::lemma_absorb_sum(dst.device_counts, tally::rekey(m, f), a);
        tally::lemma_rekey_sum(m, f, a);
        tally::lemma_absorb_sum(dst.device_keys, tally::rekey(n, g), b);
        tally::lemma_rekey_sum(n, g, b);
        assert forall|i: int| 0 <= i < m.len() implies (|v: (i64, i64)| a(f(v)))(
            (#[trigger] m[i]).0,
        ) == p(m[i].0) by {
            lemma_new_ids(dst.devices, both, key_for(src.devices, m[i].0.1), key);
        }
        tally::lemma_sum_same(m, |v: (i64, i64)| a(f(v)), p);
        assert forall|i: int| 0 <= i < n.len() implies (|v: (i64, i64, Seq<char>)| b(g(v)))(
            (#[trigger] n[i]).0,
        ) == q(n[i].0) by {
            lemma_new_ids(dst.devices, both, key_for(src.devices, n[i].0.1), key);
        }
        tally::lemma_sum_same(n, |v: (i64, i64, Seq<char>)| b(g(v)), q);
    } else {
        assert forall|i: int| 0 <= i < m.len() implies !p((#[trigger] m[i]).0) by {}
        tally::lemma_sum_none(m, p);
        assert forall|i: int| 0 <= i < n.len() implies !q((#[trigger] n[i]).0) by {}
        tally::lemma_sum_none(n, q);
    }
}

/// The ids of two devices are the same where the devices are.
proof fn lemma_new_ids(r: Registry, other: Registry, a: Seq<char>, b: Seq<char>)
    requires
        store::registry_ok(r),
        store::ids_fit(r),
        store::max_id(r) + other.len() < i64::MAX,
        store::knows(taught(r, other), a),
        store::knows(taught(r, other), b),
    ensures
        store::id_of(taught(r, other), a) as i64 == store::id_of(taught(r, other), b) as i64 <==> a
            == b,
{
    let known = taught(r, other);
    lemma_taught(r, other);
    lemma_known_range(r, other, a);
    lemma_known_range(r, other, b);
    if a != b {
        store::lemma_ids_differ(known, a, b);
    }
}

proof fn lemma_known_range(r: Registry, other: Registry, k: Seq<char>)
    requires
        store::registry_ok(r),
        store::max_id(r) + other.len() < i64::MAX,
        store::ids_fit(r),
        store::knows(taught(r, other), k),
    ensures
        i64::MIN <= store::id_of(taught(r, other), k) <= i64::MAX,
    decreases other.len(),
{
    if other.len() == 0 {
        let i = choose|i: int| 0 <= i < r.len() && (#[trigger] r[i]).key == k;
        store::lemma_id_of(r, i);
    } else {
        let t = other.drop_last();
        let d = other.last();
        let q = taught(r, t);
        lemma_taught(r, t);
        if store::knows(q, k) {
            lemma_known_range(r, t, k);
            if !store::knows(q, d.key) {
                store::lemma_registered(q, d.key, d.name, d.kind);
            }
        } else {
            store::lemma_registered(q, d.key, d.name, d.kind);
            store::lemma_max_id(q);
            let w = taught(r, other);
            let n = q.len() as int;
            assert(w[n].key == d.key);
            assert(k == d.key);
            store::lemma_id_of(w, n);
        }
    }
}

/// Whether the files of all years up to `source` can be read.
pub open spec fn all_writable(st: StoreModel, source: i32) -> bool {
    forall|y: i32| y <= source ==> #[trigger] store::writable(st, y)
}

proof fn lemma_years_emptied(m: StoreModel, source: i32, first: int, end: int)
    requires
        store::one_per_year(m),
        all_writable(m, source),
        calendar::FIRST_YEAR <= first <= end <= source <= calendar::LAST_YEAR,
    ensures
        store::one_per_year(archived_years(m, source, first, end)),
        all_writable(archived_years(m, source, first, end), source),
        forall|d: i64|
            #![trigger tally::has_key(
                store::tables_of(archived_years(m, source, first, end), source).daily,
                d,
            )]
            tally::has_key(
                store::tables_of(archived_years(m, source, first, end), source).daily,
                d,
            ) ==> tally::has_key(store::tables_of(m, source).daily, d) && !(calendar::new_year(
                first,
            ) <= d < calendar::new_year(end)),
    decreases end - first,
{
    if first < end {
        lemma_years_emptied(m, source, first, end - 1);
        let c = archived_years(m, source, first, end - 1);
        let target = (end - 1) as i32;
        let a = calendar::new_year(end - 1);
        let b = calendar::new_year(end);
        let src = store::tables_of(c, source);
        let dst = store::tables_of(c, target);
        assert(store::writable(c, target) && store::writable(c, source));
        let x = store::with_tables(c, target, received(dst, src, a, b));
        let r = archived_years(m, source, first, end);
        store::lemma_with_tables(c, target, received(dst, src, a, b));
        store::lemma_with_tables(x, source, left_behind(src, a, b));
        assert(r == store::with_tables(x, source, left_behind(src, a, b)));
        assert forall|y: i32| y <= source implies #[trigger] store::writable(r, y) by {
            assert(store::writable(c, y));
            assert(store::writable(x, y));
        }
        tally::lemma_keep(src.daily, tally::days_outside::<i64>(a, b));
        assert forall|d: i64| #[trigger]
            tally::has_key(store::tables_of(r, source).daily, d) implies tally::has_key(
            store::tables_of(m, source).daily,
            d,
        ) && !(calendar::new_year(first) <= d < calendar::new_year(end)) by {
            assert(tally::has_key(src.daily, d));
            assert(tally::days_outside::<i64>(a, b)(d));
        }
    }
}

/// After the days of past years were moved out, none is left: looking again finds nothing
/// to move.
pub proof fn lemma_no_stale_days_left(st: StoreModel, source: i32)
    requires
        store::one_per_year(st),
        all_writable(st, source),
        calendar::FIRST_YEAR <= source <= calendar::LAST_YEAR,
        first_stale(st, source) is Some,
    ensures
        first_stale(
            archived_years(st, source, first_stale(st, source)->0, source as int),
            source,
        ) is None,
{
    let y0 = calendar::new_year(source as int);
    let s = store::tables_of(st, source).daily;
    let d = earliest(s, y0)->0;
    let first = first_stale(st, source)->0;
    lemma_earliest(s, y0);
    let date = calendar::date_of(d as int);
    calendar::lemma_has_date(d as int);
    calendar::lemma_year_of_number(date, first);
    if first >= source {
        if first > source {
            calendar::lemma_years_ordered(source as int, first);
            calendar::lemma_year_step(source as int);
        }
        reveal_with_fuel(calendar::days_before_month, 2);
        assert(false);
    }
    lemma_years_emptied(st, source, first, source as int);
    let r = store::tables_of(archived_years(st, source, first, source as int), source).daily;
    assert forall|i: int| 0 <= i < r.len() implies (#[trigger] r[i]).0 >= y0 by {
        let k = r[i].0;
        assert(tally::has_key(r, k));
        let j = choose|j: int| 0 <= j < s.len() && (#[trigger] s[j]).0 == k;
        assert(d <= s[j].0 || s[j].0 >= y0);
    }
    lemma_earliest(r, y0);
}

/// The presses, the seconds, the hours, the keys and the applications of a day in the tables
/// of a file.
pub open spec fn rows_of_day(y: YearModel, day: i64, hour: i64, name: Seq<char>) -> (
    int,
    int,
    int,
    int,
    int,
) {
    (
        tally::amount(y.daily, day),
        tally::amount(y.seconds, day),
        tally::amount(y.hourly, (day, hour)),
        tally::amount(y.keys, (day, name)),
        tally::amount(y.apps, (day, name)),
    )
}

/// What two files have of a day, together.
pub open spec fn together(a: (int, int, int, int, int), b: (int, int, int, int, int)) -> (
    int,
    int,
    int,
    int,
    int,
) {
    (a.0 + b.0, a.1 + b.1, a.2 + b.2, a.3 + b.3, a.4 + b.4)
}

/// Moving the days of past years brings each day to the file of its own year, where it joins
/// what that file has of it; the file that it came from has nothing of it any more. Days of
/// other years stay where they are, and files of other years are not touched.
pub proof fn lemma_archive_brings_days_home(
    st: StoreModel,
    source: i32,
    first: int,
    end: int,
    y: i32,
    day: i64,
    hour: i64,
    name: Seq<char>,
)
    requires
        store::one_per_year(st),
        all_writable(st, source),
        calendar::FIRST_YEAR <= first <= end <= source <= calendar::LAST_YEAR,
        y != source,
        forall|z: i32| all_distinct(#[trigger] store::tables_of(st, z)),
    ensures
        ({
            let a = archived_years(st, source, first, end);
            let of_y = rows_of_day(store::tables_of(st, y), day, hour, name);
            let of_source = rows_of_day(store::tables_of(st, source), day, hour, name);
            let home = rows_of_day(store::tables_of(a, y), day, hour, name);
            let left = rows_of_day(store::tables_of(a, source), day, hour, name);
            &&& first <= y < end && calendar::new_year(y as int) <= day < calendar::new_year(y + 1)
                ==> home == together(of_y, of_source)
            &&& first <= y < end && !(calendar::new_year(y as int) <= day < calendar::new_year(
                y + 1,
            )) ==> home == of_y
            &&& y < first || y >= end ==> store::tables_of(a, y) == store::tables_of(st, y)
            &&& calendar::new_year(first) <= day < calendar::new_year(end) ==> left == (
                0int,
                0int,
                0int,
                0int,
                0int,
            )
            &&& !(calendar::new_year(first) <= day < calendar::new_year(end)) ==> left == of_source
        }),
    decreases end - first,
{
    if first < end {
        lemma_archive_brings_days_home(st, source, first, end - 1, y, day, hour, name);
        lemma_years_emptied(st, source, first, end - 1);
        let c = archived_years(st, source, first, end - 1);
        let target = (end - 1) as i32;
        let from = calendar::new_year(end - 1);
        let to = calendar::new_year(end);
        let src = store::tables_of(c, source);
        lemma_archive_brings_days_home(st, source, first, end - 1, target, day, hour, name);
        assert(store::tables_of(c, target) == store::tables_of(st, target));
        let dst = store::tables_of(c, target);
        assert(store::writable(c, target) && store::writable(c, source));
        let x = store::with_tables(c, target, received(dst, src, from, to));
        store::lemma_with_tables(c, target, received(dst, src, from, to));
        store::lemma_with_tables(x, source, left_behind(src, from, to));
        let a = archived_years(st, source, first, end);
        assert(a == store::with_tables(x, source, left_behind(src, from, to)));
        assert(store::tables_of(a, source) == left_behind(src, from, to));
        assert(store::tables_of(a, target) == received(dst, src, from, to));
        lemma_days_move_whole(dst, src, from, to, day, hour, name);
        if y != target {
            assert(store::tables_of(x, y) == store::tables_of(c, y));
            assert(store::tables_of(a, y) == store::tables_of(x, y));
        }
        calendar::lemma_year_step(end - 1);
        if first < end - 1 {
            calendar::lemma_years_ordered(first, end - 1);
        }
        if first <= y < end - 1 {
            calendar::lemma_year_step(y as int);
            if y + 1 < end - 1 {
                calendar::lemma_years_ordered(y + 1, end - 1);
            }
        }
    }
}

/// Whether a table has a row of one of these days.
pub open spec fn has_days<K: Dated>(s: Seq<(K::V, int)>, from: int, to: int) -> bool {
    exists|i: int| 0 <= i < s.len() && from <= K::day_of((#[trigger] s[i]).0) < to
}

proof fn lemma_has_days<K: Dated>(s: Seq<(K::V, int)>, from: int, to: int)
    ensures
        moving::<K>(s, from, to).len() > 0 <==> has_days::<K>(s, from, to),
    decreases s.len(),
{
    if s.len() > 0 {
        let t = s.drop_last();
        lemma_has_days::<K>(t, from, to);
        let q = tally::days_within::<K>(from, to);
        assert(s[s.len() - 1] == s.last());
        assert(q(s.last().0) == (from <= K::day_of(s.last().0) < to));
        if has_days::<K>(t, from, to) {
            let i = choose|i: int| 0 <= i < t.len() && from <= K::day_of((#[trigger] t[i]).0) < to;
            assert(s[i] == t[i]);
        }
        if has_days::<K>(s, from, to) {
            let i = choose|i: int| 0 <= i < s.len() && from <= K::day_of((#[trigger] s[i]).0) < to;
            if i < t.len() {
                assert(t[i] == s[i]);
            }
        }
    }
}

/// It is told that days moved exactly where one of the tables, but for that of the seconds,
/// has a row of these days; nothing moves to a later year, or where a file cannot be
/// written.
pub proof fn lemma_move_is_told(st: StoreModel, target: i32, source: i32, from: int, to: int)
    ensures
        ({
            let s = store::tables_of(st, source);
            archives(st, target, source, from, to) <==> target < source && store::writable(
                st,
                target,
            ) && store::writable(st, source) && (has_days::<i64>(s.daily, from, to) || has_days::<
                (i64, i64),
            >(s.hourly, from, to) || has_days::<(i64, String)>(s.keys, from, to) || has_days::<
                (i64, String),
            >(s.apps, from, to) || has_days::<(i64, i64)>(s.device_counts, from, to) || has_days::<
                (i64, i64, String),
            >(s.device_keys, from, to))
        }),
        target >= source || !store::writable(st, target) ==> archived(st, target, source, from, to)
            == st,
{
    let s = store::tables_of(st, source);
    lemma_has_days::<i64>(s.daily, from, to);
    lemma_has_days::<(i64, i64)>(s.hourly, from, to);
    lemma_has_days::<(i64, String)>(s.keys, from, to);
    lemma_has_days::<(i64, String)>(s.apps, from, to);
    lemma_has_days::<(i64, i64)>(s.device_counts, from, to);
    lemma_has_days::<(i64, i64, String)>(s.device_keys, from, to);
}

/// The first past year in a file is the year of the earliest day with presses that is before
/// the year of the file; there is none exactly where no such day is there.
pub proof fn lemma_first_stale(st: StoreModel, source: i32, i: int)
    requires
        calendar::FIRST_YEAR <= source <= calendar::LAST_YEAR,
        forall|k: int|
            0 <= k < store::tables_of(st, source).daily.len() ==> 0 <= (
            #[trigger] store::tables_of(st, source).daily[k]).0 <= calendar::last_day(),
    ensures
        ({
            let s = store::tables_of(st, source).daily;
            let y0 = calendar::new_year(source as int);
            &&& first_stale(st, source) is None && 0 <= i < s.len() ==> s[i].0 >= y0
            &&& first_stale(st, source) matches Some(y) ==> {
                &&& exists|d: i64| #[trigger]
                    tally::has_key(s, d) && d < y0 && calendar::new_year(y) <= d
                        < calendar::new_year(y + 1)
                &&& 0 <= i < s.len() ==> s[i].0 >= calendar::new_year(y)
            }
        }),
{
    let s = store::tables_of(st, source).daily;
    let y0 = calendar::new_year(source as int);
    lemma_earliest(s, y0);
    if let Some(d) = earliest(s, y0) {
        let k = choose|k: int| 0 <= k < s.len() && (#[trigger] s[k]).0 == d;
        assert(0 <= s[k].0 <= calendar::last_day());
        let date = calendar::date_of(d as int);
        calendar::lemma_has_date(d as int);
        let y = date.year as int;
        calendar::lemma_year_of_number(date, y);
        assert(tally::has_key(s, d));
        if 0 <= i < s.len() {
            assert(d <= s[i].0 || s[i].0 >= y0);
        }
    }
}

/// It is told that past years were moved exactly where one of them was.
pub proof fn lemma_years_moved_are_told(st: StoreModel, source: i32, first: int, end: int)
    ensures
        archives_years(st, source, first, end) <==> exists|y: int|
            first <= y < end && #[trigger] archives(
                archived_years(st, source, first, y),
                y as i32,
                source,
                calendar::new_year(y),
                calendar::new_year(y + 1),
            ),
    decreases end - first,
{
    if first < end {
        lemma_years_moved_are_told(st, source, first, end - 1);
        let l = end - 1;
        assert(archives(
            archived_years(st, source, first, l),
            l as i32,
            source,
            calendar::new_year(l),
            calendar::new_year(l + 1),
        ) == archives(
            archived_years(st, source, first, end - 1),
            (end - 1) as i32,
            source,
            calendar::new_year(end - 1),
            calendar::new_year(end),
        ));
    }
}

} // verus!
