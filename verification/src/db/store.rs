//! The yearly tables: one set of counting tables and one device registry per year.
use vstd::prelude::*;
use vstd::string::*;

use crate::db::writer;
use crate::db::writer::{AggDeltas, DeltasModel, MetaList};
use crate::hardware;
use crate::hardware::{fallback_device_name, hardware_identity_key};
use crate::tally;
use crate::tally::Tally;
use crate::text::str_eq;

verus! {

/// A registered device. The tables name devices by their id.
pub struct Device {
    pub id: i64,
    pub key: String,
    pub name: String,
    pub kind: String,
}

/// A registered device.
pub struct DeviceModel {
    pub id: int,
    pub key: Seq<char>,
    pub name: Seq<char>,
    pub kind: Seq<char>,
}

/// The devices of a registry, in the order in which they were registered.
pub type Registry = Seq<DeviceModel>;

pub open spec fn registry(v: Seq<Device>) -> Registry {
    Seq::new(
        v.len(),
        |i: int|
            DeviceModel {
                id: v[i].id as int,
                key: v[i].key@,
                name: v[i].name@,
                kind: v[i].kind@,
            },
    )
}

/// Whether a device is registered under `key`.
pub open spec fn knows(r: Registry, key: Seq<char>) -> bool {
    exists|i: int| 0 <= i < r.len() && (#[trigger] r[i]).key == key
}

/// Whether a device is registered under the id `id`.
pub open spec fn knows_id(r: Registry, id: int) -> bool {
    exists|i: int| 0 <= i < r.len() && (#[trigger] r[i]).id == id
}

/// The id of the device registered under `key`.
pub open spec fn id_of(r: Registry, key: Seq<char>) -> int {
    r[choose|i: int| 0 <= i < r.len() && (#[trigger] r[i]).key == key].id
}

/// The largest id, or 0.
pub open spec fn max_id(r: Registry) -> int
    decreases r.len(),
{
    if r.len() == 0 {
        0
    } else if r.last().id > max_id(r.drop_last()) {
        r.last().id
    } else {
        max_id(r.drop_last())
    }
}

/// No id and no key occurs twice.
pub open spec fn registry_ok(r: Registry) -> bool {
    forall|i: int, j: int|
        0 <= i < j < r.len() ==> (#[trigger] r[i]).id != (#[trigger] r[j]).id && r[i].key
            != r[j].key
}

/// The registry with a device under `key`: one that is there takes the new name and
/// kind, a new one gets the next id.
pub open spec fn registered(
    r: Registry,
    key: Seq<char>,
    name: Seq<char>,
    kind: Seq<char>,
) -> Registry {
    if knows(r, key) {
        Seq::new(
            r.len(),
            |i: int|
                if r[i].key == key {
                    DeviceModel { name, kind, ..r[i] }
                } else {
                    r[i]
                },
        )
    } else {
        r.push(DeviceModel { id: max_id(r) + 1, key, name, kind })
    }
}

pub proof fn lemma_max_id(r: Registry)
    ensures
        max_id(r) >= 0,
        forall|i: int| 0 <= i < r.len() ==> (#[trigger] r[i]).id <= max_id(r),
    decreases r.len(),
{
    if r.len() > 0 {
        let t = r.drop_last();
        lemma_max_id(t);
        assert forall|i: int| 0 <= i < r.len() implies (#[trigger] r[i]).id <= max_id(r) by {
            if i < t.len() {
                assert(t[i] == r[i]);
            }
        }
    }
}

/// The id of a key is that of its entry.
pub proof fn lemma_id_of(r: Registry, i: int)
    requires
        registry_ok(r),
        0 <= i < r.len(),
    ensures
        knows(r, r[i].key),
        id_of(r, r[i].key) == r[i].id,
{
    let k = r[i].key;
    let j = choose|j: int| 0 <= j < r.len() && (#[trigger] r[j]).key == k;
    if j < i {
        assert(r[j].key != r[i].key);
    }
    if i < j {
        assert(r[i].key != r[j].key);
    }
}

/// Registering keeps the registry in order, and no device loses its id.
pub proof fn lemma_registered(r: Registry, key: Seq<char>, name: Seq<char>, kind: Seq<char>)
    requires
        registry_ok(r),
    ensures
        registry_ok(registered(r, key, name, kind)),
        knows(registered(r, key, name, kind), key),
        max_id(registered(r, key, name, kind)) <= max_id(r) + 1,
        forall|k: Seq<char>| #[trigger]
            knows(registered(r, key, name, kind), k) <==> knows(r, k) || k == key,
        forall|k: Seq<char>|
            knows(r, k) ==> #[trigger] id_of(registered(r, key, name, kind), k) == id_of(r, k),
{
    let q = registered(r, key, name, kind);
    lemma_max_id(r);
    if knows(r, key) {
        let i0 = choose|i: int| 0 <= i < r.len() && (#[trigger] r[i]).key == key;
        assert(q[i0].key == key);
        assert forall|i: int, j: int| 0 <= i < j < q.len() implies (#[trigger] q[i]).id != (
        #[trigger] q[j]).id && q[i].key != q[j].key by {
            assert(r[i].id != r[j].id);
        }
        lemma_same_ids(r, q);
        assert forall|k: Seq<char>| #[trigger] knows(q, k) <==> knows(r, k) || k == key by {
            if knows(q, k) {
                let i = choose|i: int| 0 <= i < q.len() && (#[trigger] q[i]).key == k;
                assert(r[i].key == k);
            }
            if knows(r, k) {
                let i = choose|i: int| 0 <= i < r.len() && (#[trigger] r[i]).key == k;
                assert(q[i].key == k);
            }
        }
        assert forall|k: Seq<char>| knows(r, k) implies #[trigger] id_of(q, k) == id_of(r, k) by {
            let i = choose|i: int| 0 <= i < r.len() && (#[trigger] r[i]).key == k;
            lemma_id_of(r, i);
            assert(q[i].key == k);
            lemma_id_of(q, i);
        }
    } else {
        let n = r.len() as int;
        assert(q[n].key == key);
        assert(q.drop_last() =~= r);
        assert forall|i: int, j: int| 0 <= i < j < q.len() implies (#[trigger] q[i]).id != (
        #[trigger] q[j]).id && q[i].key != q[j].key by {
            assert(q[i] == r[i]);
            if j < n {
                assert(q[j] == r[j]);
            }
        }
        assert forall|k: Seq<char>| #[trigger] knows(q, k) <==> knows(r, k) || k == key by {
            if knows(q, k) {
                let i = choose|i: int| 0 <= i < q.len() && (#[trigger] q[i]).key == k;
                if i < n {
                    assert(r[i].key == k);
                }
            }
            if knows(r, k) {
                let i = choose|i: int| 0 <= i < r.len() && (#[trigger] r[i]).key == k;
                assert(q[i].key == k);
            }
        }
        assert forall|k: Seq<char>| knows(r, k) implies #[trigger] id_of(q, k) == id_of(r, k) by {
            let i = choose|i: int| 0 <= i < r.len() && (#[trigger] r[i]).key == k;
            lemma_id_of(r, i);
            assert(q[i].key == k);
            lemma_id_of(q, i);
        }
    }
}

proof fn lemma_same_ids(a: Registry, b: Registry)
    requires
        a.len() == b.len(),
        forall|i: int| 0 <= i < a.len() ==> (#[trigger] a[i]).id == b[i].id,
    ensures
        max_id(a) == max_id(b),
    decreases a.len(),
{
    if a.len() > 0 {
        let x = a.drop_last();
        let y = b.drop_last();
        assert forall|i: int| 0 <= i < x.len() implies (#[trigger] x[i]).id == y[i].id by {
            assert(x[i] == a[i]);
        }
        lemma_same_ids(x, y);
        assert(a[a.len() - 1].id == b[b.len() - 1].id);
    }
}

/// The tables of one year.
pub struct YearDb {
    /// Day to key presses.
    pub daily: Tally<i64>,
    /// Day to active seconds; the same days as `daily`.
    pub seconds: Tally<i64>,
    /// Day and hour to key presses.
    pub hourly: Tally<(i64, i64)>,
    /// Day and key to key presses.
    pub keys: Tally<(i64, String)>,
    /// Day and application to seconds.
    pub apps: Tally<(i64, String)>,
    /// The device registry.
    pub devices: Vec<Device>,
    /// Day and device id to inputs.
    pub device_counts: Tally<(i64, i64)>,
    /// Day, device id and key to inputs.
    pub device_keys: Tally<(i64, i64, String)>,
}

/// The tables of one year.
#[verifier::ext_equal]
pub struct YearModel {
    pub daily: Seq<(i64, int)>,
    pub seconds: Seq<(i64, int)>,
    pub hourly: Seq<((i64, i64), int)>,
    pub keys: Seq<((i64, Seq<char>), int)>,
    pub apps: Seq<((i64, Seq<char>), int)>,
    pub devices: Registry,
    pub device_counts: Seq<((i64, i64), int)>,
    pub device_keys: Seq<((i64, i64, Seq<char>), int)>,
}

impl View for YearDb {
    type V = YearModel;

    open spec fn view(&self) -> YearModel {
        YearModel {
            daily: self.daily@,
            seconds: self.seconds@,
            hourly: self.hourly@,
            keys: self.keys@,
            apps: self.apps@,
            devices: registry(self.devices@),
            device_counts: self.device_counts@,
            device_keys: self.device_keys@,
        }
    }
}

/// Two tables have rows for the same keys.
pub open spec fn same_keys<V>(a: Seq<(V, int)>, b: Seq<(V, int)>) -> bool {
    forall|k: V| tally::has_key(a, k) <==> tally::has_key(b, k)
}

impl YearModel {
    /// No table has a row.
    pub open spec fn is_empty(self) -> bool {
        &&& self.daily.len() == 0
        &&& self.seconds.len() == 0
        &&& self.hourly.len() == 0
        &&& self.keys.len() == 0
        &&& self.apps.len() == 0
        &&& self.device_counts.len() == 0
        &&& self.device_keys.len() == 0
    }
}

impl YearDb {
    /// The tables are well-formed, days have both their columns, and the registry is in
    /// order.
    pub open spec fn wf(&self) -> bool {
        &&& self.daily.wf()
        &&& self.seconds.wf()
        &&& self.hourly.wf()
        &&& self.keys.wf()
        &&& self.apps.wf()
        &&& self.device_counts.wf()
        &&& self.device_keys.wf()
        &&& same_keys(self@.daily, self@.seconds)
        &&& registry_ok(self@.devices)
    }

    /// Empty tables.
    pub fn new() -> (r: Self)
        ensures
            r.wf(),
            r@.is_empty(),
            r@.devices.len() == 0,
    {
        YearDb {
            daily: Tally::new(),
            seconds: Tally::new(),
            hourly: Tally::new(),
            keys: Tally::new(),
            apps: Tally::new(),
            devices: Vec::new(),
            device_counts: Tally::new(),
            device_keys: Tally::new(),
        }
    }

    /// The index of the device registered under `key`, or the number of devices.
    pub fn find_device(&self, key: &str) -> (r: usize)
        ensures
            r <= self.devices@.len(),
            r < self.devices@.len() ==> self@.devices[r as int].key == key@,
            r == self.devices@.len() ==> !knows(self@.devices, key@),
    {
        let mut i: usize = 0;
        while i < self.devices.len()
            invariant
                i <= self.devices@.len(),
                forall|j: int| 0 <= j < i ==> (#[trigger] self@.devices[j]).key != key@,
            decreases self.devices.len() - i,
        {
            if str_eq(self.devices[i].key.as_str(), key) {
                assert(self@.devices[i as int].key == key@);
                return i;
            }
            i = i + 1;
        }
        i
    }

    fn largest_id(&self) -> (r: i64)
        ensures
            r == max_id(self@.devices),
    {
        let mut m: i64 = 0;
        let mut i: usize = 0;
        let ghost r = self@.devices;
        assert(r.take(0) =~= Seq::<DeviceModel>::empty());
        while i < self.devices.len()
            invariant
                i <= self.devices@.len(),
                r == self@.devices,
                m == max_id(r.take(i as int)),
            decreases self.devices.len() - i,
        {
            proof {
                assert(r.take(i as int + 1).drop_last() =~= r.take(i as int));
                assert(r.take(i as int + 1).last() == r[i as int]);
            }
            if self.devices[i].id > m {
                m = self.devices[i].id;
            }
            i = i + 1;
        }
        assert(r.take(i as int) =~= r);
        m
    }

    /// Registers a device and gives its id.
    pub fn register(&mut self, key: &str, name: &str, kind: &str) -> (r: i64)
        requires
            registry_ok(old(self)@.devices),
            max_id(old(self)@.devices) < i64::MAX,
        ensures
            registry_ok(final(self)@.devices),
            final(self)@ == (YearModel {
                devices: registered(old(self)@.devices, key@, name@, kind@),
                ..old(self)@
            }),
            r == id_of(final(self)@.devices, key@),
            knows(final(self)@.devices, key@),
            max_id(final(self)@.devices) <= max_id(old(self)@.devices) + 1,
    {
        let ghost r0 = self@.devices;
        proof {
            lemma_registered(r0, key@, name@, kind@);
        }
        let i = self.find_device(key);
        let id: i64;
        if i < self.devices.len() {
            id = self.devices[i].id;
            self.devices[i] =
            Device { id, key: key.to_owned(), name: name.to_owned(), kind: kind.to_owned() };
            proof {
                assert(r0[i as int].key == key@);
                assert forall|j: int| 0 <= j < r0.len() && j != i implies r0[j].key != key@ by {
                    if j < i {
                        assert(r0[j].key != r0[i as int].key);
                    } else {
                        assert(r0[i as int].key != r0[j].key);
                    }
                }
                assert(self@.devices =~= registered(r0, key@, name@, kind@));
                lemma_id_of(self@.devices, i as int);
            }
        } else {
            id = self.largest_id() + 1;
            self.devices.push(
                Device { id, key: key.to_owned(), name: name.to_owned(), kind: kind.to_owned() },
            );
            proof {
                assert(self@.devices =~= registered(r0, key@, name@, kind@));
                lemma_id_of(self@.devices, r0.len() as int);
            }
        }
        assert(self@ =~= YearModel { devices: registered(r0, key@, name@, kind@), ..old(self)@ });
        id
    }
}

// ------------------------------------------------------------ bringing counts in

/// The registry with the devices seen in a session, each under its hardware identity.
pub open spec fn registered_meta(r: Registry, meta: MetaList) -> Registry
    decreases meta.len(),
{
    if meta.len() == 0 {
        r
    } else {
        let e = meta.last();
        registered(
            registered_meta(r, meta.drop_last()),
            hardware::identity_of(e.0),
            e.1.name,
            e.1.kind,
        )
    }
}

/// The registry with those devices that have counts and no row yet, each under a name made
/// from its path.
pub open spec fn registered_missing(r: Registry, devices: Seq<Seq<char>>) -> Registry
    decreases devices.len(),
{
    if devices.len() == 0 {
        r
    } else {
        let q = registered_missing(r, devices.drop_last());
        let d = devices.last();
        if knows(q, hardware::identity_of(d)) {
            q
        } else {
            registered(q, hardware::identity_of(d), hardware::fallback_name(d), "unknown"@)
        }
    }
}

/// The devices of the rows of a table.
pub open spec fn devices_of(s: Seq<((i64, Seq<char>), int)>) -> Seq<Seq<char>> {
    Seq::new(s.len(), |i: int| s[i].0.1)
}

/// The devices of the rows of a table by key.
pub open spec fn key_devices_of(s: Seq<((i64, Seq<char>, Seq<char>), int)>) -> Seq<Seq<char>> {
    Seq::new(s.len(), |i: int| s[i].0.1)
}

/// The registry after a batch of counts.
pub open spec fn registered_all(r: Registry, v: DeltasModel) -> Registry {
    registered_missing(
        registered_missing(registered_meta(r, v.meta), devices_of(v.devices)),
        key_devices_of(v.device_keys),
    )
}

/// Rows by device path as rows by device id.
pub open spec fn by_id(r: Registry) -> spec_fn((i64, Seq<char>)) -> (i64, i64) {
    |k: (i64, Seq<char>)| (k.0, id_of(r, hardware::identity_of(k.1)) as i64)
}

/// Rows by device path and key as rows by device id and key.
pub open spec fn key_by_id(r: Registry) -> spec_fn((i64, Seq<char>, Seq<char>)) -> (
    i64,
    i64,
    Seq<char>,
) {
    |k: (i64, Seq<char>, Seq<char>)| (k.0, id_of(r, hardware::identity_of(k.1)) as i64, k.2)
}

/// The tables after a batch of counts: each count is added to its row, devices are
/// registered and their counts kept by id.
pub open spec fn applied(y: YearModel, v: DeltasModel) -> YearModel {
    let r = registered_all(y.devices, v);
    YearModel {
        daily: tally::absorb(tally::absorb(y.daily, v.daily), tally::zeros(v.active)),
        seconds: tally::absorb(tally::absorb(y.seconds, v.active), tally::zeros(v.daily)),
        hourly: tally::absorb(y.hourly, v.hourly),
        keys: tally::absorb(y.keys, v.keys),
        apps: tally::absorb(y.apps, v.apps),
        devices: r,
        device_counts: tally::absorb(y.device_counts, tally::rekey(v.devices, by_id(r))),
        device_keys: tally::absorb(y.device_keys, tally::rekey(v.device_keys, key_by_id(r))),
    }
}

/// Whether the tables can take a batch of counts.
pub open spec fn can_take(y: YearModel, v: DeltasModel) -> bool {
    &&& tally::total(y.daily) + tally::total(v.daily) <= i64::MAX
    &&& tally::total(y.seconds) + tally::total(v.active) <= i64::MAX
    &&& tally::total(y.hourly) + tally::total(v.hourly) <= i64::MAX
    &&& tally::total(y.keys) + tally::total(v.keys) <= i64::MAX
    &&& tally::total(y.apps) + tally::total(v.apps) <= i64::MAX
    &&& tally::total(y.device_counts) + tally::total(v.devices) <= i64::MAX
    &&& tally::total(y.device_keys) + tally::total(v.device_keys) <= i64::MAX
    &&& max_id(y.devices) + v.meta.len() + v.devices.len() + v.device_keys.len() <= i64::MAX
}

/// No known device loses its registration, and every device of the batch has one.
pub proof fn lemma_registered_all(r: Registry, v: DeltasModel)
    requires
        registry_ok(r),
    ensures
        registry_ok(registered_all(r, v)),
        forall|k: Seq<char>| knows(r, k) ==> #[trigger] knows(registered_all(r, v), k),
        forall|k: Seq<char>|
            knows(r, k) ==> #[trigger] id_of(registered_all(r, v), k) == id_of(r, k),
        forall|i: int|
            0 <= i < v.devices.len() ==> knows(
                registered_all(r, v),
                hardware::identity_of((#[trigger] v.devices[i]).0.1),
            ),
        forall|i: int|
            0 <= i < v.device_keys.len() ==> knows(
                registered_all(r, v),
                hardware::identity_of((#[trigger] v.device_keys[i]).0.1),
            ),
{
    let a = registered_meta(r, v.meta);
    lemma_registered_meta(r, v.meta);
    let da = devices_of(v.devices);
    let dk = key_devices_of(v.device_keys);
    lemma_registered_missing(a, da);
    let b = registered_missing(a, da);
    lemma_registered_missing(b, dk);
    assert forall|i: int| 0 <= i < v.devices.len() implies knows(
        registered_all(r, v),
        hardware::identity_of((#[trigger] v.devices[i]).0.1),
    ) by {
        assert(da[i] == v.devices[i].0.1);
    }
    assert forall|i: int| 0 <= i < v.device_keys.len() implies knows(
        registered_all(r, v),
        hardware::identity_of((#[trigger] v.device_keys[i]).0.1),
    ) by {
        assert(dk[i] == v.device_keys[i].0.1);
    }
}

pub proof fn lemma_registered_meta(r: Registry, meta: MetaList)
    requires
        registry_ok(r),
    ensures
        registry_ok(registered_meta(r, meta)),
        max_id(registered_meta(r, meta)) <= max_id(r) + meta.len(),
        forall|k: Seq<char>| knows(r, k) ==> #[trigger] knows(registered_meta(r, meta), k),
        forall|k: Seq<char>|
            knows(r, k) ==> #[trigger] id_of(registered_meta(r, meta), k) == id_of(r, k),
        forall|i: int|
            0 <= i < meta.len() ==> knows(
                registered_meta(r, meta),
                hardware::identity_of((#[trigger] meta[i]).0),
            ),
    decreases meta.len(),
{
    if meta.len() > 0 {
        let t = meta.drop_last();
        lemma_registered_meta(r, t);
        let e = meta.last();
        lemma_registered(
            registered_meta(r, t),
            hardware::identity_of(e.0),
            e.1.name,
            e.1.kind,
        );
        assert forall|i: int| 0 <= i < meta.len() implies knows(
            registered_meta(r, meta),
            hardware::identity_of((#[trigger] meta[i]).0),
        ) by {
            if i < t.len() {
                assert(t[i] == meta[i]);
            }
        }
    }
}

pub proof fn lemma_registered_missing(r: Registry, devices: Seq<Seq<char>>)
    requires
        registry_ok(r),
    ensures
        registry_ok(registered_missing(r, devices)),
        max_id(registered_missing(r, devices)) <= max_id(r) + devices.len(),
        forall|k: Seq<char>| knows(r, k) ==> #[trigger] knows(registered_missing(r, devices), k),
        forall|k: Seq<char>|
            knows(r, k) ==> #[trigger] id_of(registered_missing(r, devices), k) == id_of(r, k),
        forall|i: int|
            0 <= i < devices.len() ==> knows(
                registered_missing(r, devices),
                hardware::identity_of(#[trigger] devices[i]),
            ),
    decreases devices.len(),
{
    if devices.len() > 0 {
        let t = devices.drop_last();
        lemma_registered_missing(r, t);
        let q = registered_missing(r, t);
        let d = devices.last();
        lemma_registered(q, hardware::identity_of(d), hardware::fallback_name(d), "unknown"@);
        let f = registered_missing(r, devices);
        assert forall|i: int| 0 <= i < devices.len() implies knows(
            f,
            hardware::identity_of(#[trigger] devices[i]),
        ) by {
            if i < t.len() {
                assert(t[i] == devices[i]);
                assert(knows(q, hardware::identity_of(t[i])));
            }
        }
    }
}

proof fn lemma_missing_keeps_rows(r: Registry, devices: Seq<Seq<char>>)
    ensures
        r.is_prefix_of(registered_missing(r, devices)),
    decreases devices.len(),
{
    if devices.len() > 0 {
        lemma_missing_keeps_rows(r, devices.drop_last());
        let q = registered_missing(r, devices.drop_last());
        let f = registered_missing(r, devices);
        assert forall|i: int| 0 <= i < r.len() implies f[i] == r[i] by {
            assert(q[i] == r[i]);
        }
        assert(f.subrange(0, r.len() as int) =~= r);
    } else {
        assert(r.subrange(0, r.len() as int) =~= r);
    }
}

proof fn lemma_meta_keeps_row(r: Registry, meta: MetaList, i: int)
    requires
        0 <= i < r.len(),
        forall|j: int|
            0 <= j < meta.len() ==> hardware::identity_of((#[trigger] meta[j]).0) != r[i].key,
    ensures
        i < registered_meta(r, meta).len(),
        registered_meta(r, meta)[i] == r[i],
    decreases meta.len(),
{
    if meta.len() > 0 {
        let t = meta.drop_last();
        assert forall|j: int| 0 <= j < t.len() implies hardware::identity_of((#[trigger] t[j]).0)
            != r[i].key by {
            assert(t[j] == meta[j]);
        }
        lemma_meta_keeps_row(r, t, i);
        assert(meta[meta.len() - 1] == meta.last());
    }
}

/// Counts alone do not change what is registered: a device that the session did not register
/// keeps the name and the kind of its row.
pub proof fn lemma_stored_names_stay(r: Registry, v: DeltasModel, i: int)
    requires
        0 <= i < r.len(),
        forall|j: int|
            0 <= j < v.meta.len() ==> hardware::identity_of((#[trigger] v.meta[j]).0) != r[i].key,
    ensures
        i < registered_all(r, v).len(),
        registered_all(r, v)[i] == r[i],
{
    let a = registered_meta(r, v.meta);
    let b = registered_missing(a, devices_of(v.devices));
    lemma_meta_keeps_row(r, v.meta, i);
    lemma_missing_keeps_rows(a, devices_of(v.devices));
    lemma_missing_keeps_rows(b, key_devices_of(v.device_keys));
}

impl YearDb {
    /// Registers the devices seen in the session.
    fn register_meta(&mut self, part: &AggDeltas)
        requires
            registry_ok(old(self)@.devices),
            max_id(old(self)@.devices) + part@.meta.len() <= i64::MAX,
        ensures
            final(self)@ == (YearModel {
                devices: registered_meta(old(self)@.devices, part@.meta),
                ..old(self)@
            }),
            registry_ok(final(self)@.devices),
    {
        let ghost r0 = self@.devices;
        let ghost y0 = self@;
        let ghost m = part@.meta;
        let mut i: usize = 0;
        assert(m.take(0) =~= Seq::<(Seq<char>, writer::MetaModel)>::empty());
        while i < part.device_meta.len()
            invariant
                i <= part.device_meta@.len(),
                m == part@.meta,
                registry_ok(r0),
                registry_ok(self@.devices),
                max_id(r0) + m.len() <= i64::MAX,
                self@ == (YearModel { devices: registered_meta(r0, m.take(i as int)), ..y0 }),
            decreases part.device_meta.len() - i,
        {
            proof {
                assert(m.take(i as int + 1).drop_last() =~= m.take(i as int));
                assert(m.take(i as int + 1).last() == m[i as int]);
                lemma_registered_meta(r0, m.take(i as int));
            }
            let key = hardware_identity_key(part.device_meta[i].0.as_str());
            self.register(
                key.as_str(),
                part.device_meta[i].1.name.as_str(),
                part.device_meta[i].1.kind.as_str(),
            );
            i = i + 1;
        }
        assert(m.take(i as int) =~= m);
    }

    /// Registers a device that has no row.
    fn register_missing(&mut self, dev: &str)
        requires
            registry_ok(old(self)@.devices),
            max_id(old(self)@.devices) < i64::MAX,
        ensures
            registry_ok(final(self)@.devices),
            final(self)@ == (YearModel {
                devices: if knows(old(self)@.devices, hardware::identity_of(dev@)) {
                    old(self)@.devices
                } else {
                    registered(
                        old(self)@.devices,
                        hardware::identity_of(dev@),
                        hardware::fallback_name(dev@),
                        "unknown"@,
                    )
                },
                ..old(self)@
            }),
    {
        let key = hardware_identity_key(dev);
        if self.find_device(key.as_str()) == self.devices.len() {
            let name = fallback_device_name(dev);
            self.register(key.as_str(), name.as_str(), "unknown");
        }
    }

    fn register_counted(&mut self, part: &AggDeltas)
        requires
            registry_ok(old(self)@.devices),
            max_id(old(self)@.devices) + part@.devices.len() + part@.device_keys.len() <= i64::MAX,
        ensures
            registry_ok(final(self)@.devices),
            final(self)@ == (YearModel {
                devices: registered_missing(
                    registered_missing(old(self)@.devices, devices_of(part@.devices)),
                    key_devices_of(part@.device_keys),
                ),
                ..old(self)@
            }),
    {
        let ghost r0 = self@.devices;
        let ghost y0 = self@;
        let ghost d = devices_of(part@.devices);
        let mut i: usize = 0;
        assert(d.take(0) =~= Seq::<Seq<char>>::empty());
        while i < part.devices.rows.len()
            invariant
                i <= part.devices.rows@.len(),
                d == devices_of(part@.devices),
                registry_ok(r0),
                registry_ok(self@.devices),
                max_id(r0) + d.len() <= i64::MAX,
                self@ == (YearModel { devices: registered_missing(r0, d.take(i as int)), ..y0 }),
            decreases part.devices.rows.len() - i,
        {
            proof {
                assert(d.take(i as int + 1).drop_last() =~= d.take(i as int));
                assert(d.take(i as int + 1).last() == d[i as int]);
                lemma_registered_missing(r0, d.take(i as int));
            }
            self.register_missing(part.devices.rows[i].0.1.as_str());
            i = i + 1;
        }
        let ghost r1 = self@.devices;
        proof {
            assert(d.take(i as int) =~= d);
            lemma_registered_missing(r0, d);
        }
        let ghost e = key_devices_of(part@.device_keys);
        let mut k: usize = 0;
        assert(e.take(0) =~= Seq::<Seq<char>>::empty());
        while k < part.device_keys.rows.len()
            invariant
                k <= part.device_keys.rows@.len(),
                e == key_devices_of(part@.device_keys),
                registry_ok(r1),
                registry_ok(self@.devices),
                max_id(r1) + e.len() <= i64::MAX,
                self@ == (YearModel { devices: registered_missing(r1, e.take(k as int)), ..y0 }),
            decreases part.device_keys.rows.len() - k,
        {
            proof {
                assert(e.take(k as int + 1).drop_last() =~= e.take(k as int));
                assert(e.take(k as int + 1).last() == e[k as int]);
                lemma_registered_missing(r1, e.take(k as int));
            }
            self.register_missing(part.device_keys.rows[k].0.1.as_str());
            k = k + 1;
        }
        assert(e.take(k as int) =~= e);
    }

    /// The id of a registered device.
    fn known_id(&self, dev: &str) -> (r: i64)
        requires
            registry_ok(self@.devices),
            knows(self@.devices, hardware::identity_of(dev@)),
        ensures
            r == id_of(self@.devices, hardware::identity_of(dev@)),
    {
        let key = hardware_identity_key(dev);
        let i = self.find_device(key.as_str());
        proof {
            lemma_id_of(self@.devices, i as int);
        }
        self.devices[i].id
    }

    /// Brings a batch of counts into the tables: every count is added to its row, and the
    /// devices are registered under their hardware identity.
    pub fn flush_partition(&mut self, part: &AggDeltas)
        requires
            old(self).wf(),
            part.wf(),
            can_take(old(self)@, part@),
        ensures
            final(self).wf(),
            final(self)@ == applied(old(self)@, part@),
    {
        let ghost y0 = self@;
        let ghost v = part@;
        let ghost r = registered_all(y0.devices, v);
        proof {
            lemma_registered_all(y0.devices, v);
            lemma_registered_meta(y0.devices, v.meta);
        }
        self.register_meta(part);
        self.register_counted(part);
        assert(self@.devices == r);
        self.daily.absorb(&part.daily);
        self.daily.cover(&part.active);
        self.seconds.absorb(&part.active);
        self.seconds.cover(&part.daily);
        proof {
            let t = |x: i64| true;
            tally::lemma_absorb_shape(y0.daily, v.daily);
            tally::lemma_zeros(v.active, t);
            tally::lemma_absorb_shape(tally::absorb(y0.daily, v.daily), tally::zeros(v.active));
            tally::lemma_absorb_shape(y0.seconds, v.active);
            tally::lemma_zeros(v.daily, t);
            tally::lemma_absorb_shape(tally::absorb(y0.seconds, v.active), tally::zeros(v.daily));
            assert forall|k: i64|
                tally::has_key(self@.daily, k) <==> tally::has_key(self@.seconds, k) by {
                assert(tally::has_key(y0.daily, k) <==> tally::has_key(y0.seconds, k));
                assert(tally::has_key(tally::absorb(y0.daily, v.daily), k) <==> tally::has_key(
                    y0.daily,
                    k,
                ) || tally::has_key(v.daily, k));
                assert(tally::has_key(tally::absorb(y0.seconds, v.active), k) <==> tally::has_key(
                    y0.seconds,
                    k,
                ) || tally::has_key(v.active, k));
            }
        }
        self.hourly.absorb(&part.hourly);
        self.keys.absorb(&part.keys);
        self.apps.absorb(&part.apps);
        let ghost src = tally::rekey(v.devices, by_id(r));
        proof {
            tally::lemma_rekey_total(v.devices, by_id(r));
            tally::lemma_rekey_total(v.device_keys, key_by_id(r));
            assert(src.take(0) =~= Seq::<((i64, i64), int)>::empty());
        }
        let ghost y1 = self@;
        let mut i: usize = 0;
        while i < part.devices.rows.len()
            invariant
                i <= part.devices.rows@.len(),
                v == part@,
                part.wf(),
                registry_ok(r),
                r == self@.devices,
                src == tally::rekey(v.devices, by_id(r)),
                tally::nonneg(src),
                tally::total(src) == tally::total(v.devices),
                forall|j: int|
                    0 <= j < v.devices.len() ==> knows(
                        r,
                        hardware::identity_of((#[trigger] v.devices[j]).0.1),
                    ),
                tally::total(y1.device_counts) + tally::total(v.devices) <= i64::MAX,
                self.device_counts.wf(),
                self@ == (YearModel {
                    device_counts: tally::absorb(y1.device_counts, src.take(i as int)),
                    ..y1
                }),
                tally::total(self@.device_counts) == tally::total(y1.device_counts) + tally::total(
                    src.take(i as int),
                ),
            decreases part.devices.rows.len() - i,
        {
            proof {
                let t1 = src.take(i as int + 1);
                assert(t1.drop_last() =~= src.take(i as int));
                assert(t1.last() == src[i as int]);
                tally::lemma_prefix_sum(src, i as int + 1, |x: (i64, i64)| true);
                assert(v.devices[i as int].1 >= 0);
                assert(knows(r, hardware::identity_of(v.devices[i as int].0.1)));
            }
            let id = self.known_id(part.devices.rows[i].0.1.as_str());
            self.device_counts.bump((part.devices.rows[i].0.0, id), part.devices.rows[i].1);
            i = i + 1;
        }
        assert(src.take(i as int) =~= src);
        let ghost y2 = self@;
        let ghost ksrc = tally::rekey(v.device_keys, key_by_id(r));
        assert(ksrc.take(0) =~= Seq::<((i64, i64, Seq<char>), int)>::empty());
        let mut k: usize = 0;
        while k < part.device_keys.rows.len()
            invariant
                k <= part.device_keys.rows@.len(),
                v == part@,
                part.wf(),
                registry_ok(r),
                r == self@.devices,
                ksrc == tally::rekey(v.device_keys, key_by_id(r)),
                tally::nonneg(ksrc),
                tally::total(ksrc) == tally::total(v.device_keys),
                forall|j: int|
                    0 <= j < v.device_keys.len() ==> knows(
                        r,
                        hardware::identity_of((#[trigger] v.device_keys[j]).0.1),
                    ),
                tally::total(y2.device_keys) + tally::total(v.device_keys) <= i64::MAX,
                self.device_keys.wf(),
                self@ == (YearModel {
                    device_keys: tally::absorb(y2.device_keys, ksrc.take(k as int)),
                    ..y2
                }),
                tally::total(self@.device_keys) == tally::total(y2.device_keys) + tally::total(
                    ksrc.take(k as int),
                ),
            decreases part.device_keys.rows.len() - k,
        {
            proof {
                let t1 = ksrc.take(k as int + 1);
                assert(t1.drop_last() =~= ksrc.take(k as int));
                assert(t1.last() == ksrc[k as int]);
                tally::lemma_prefix_sum(ksrc, k as int + 1, |x: (i64, i64, Seq<char>)| true);
                assert(v.device_keys[k as int].1 >= 0);
                assert(knows(r, hardware::identity_of(v.device_keys[k as int].0.1)));
            }
            let id = self.known_id(part.device_keys.rows[k].0.1.as_str());
            let name = part.device_keys.rows[k].0.2.clone();
            self.device_keys.bump(
                (part.device_keys.rows[k].0.0, id, name),
                part.device_keys.rows[k].1,
            );
            k = k + 1;
        }
        assert(ksrc.take(k as int) =~= ksrc);
        assert(self@ =~= applied(y0, v));
    }
}

// ------------------------------------------------------------- all years together

/// The file of one year. A file that is there but cannot be read has no tables.
pub struct YearFile {
    pub year: i32,
    pub db: Option<YearDb>,
}

/// The files of all years.
pub struct Store {
    pub files: Vec<YearFile>,
}

/// The files of all years.
pub type StoreModel = Seq<(i32, Option<YearModel>)>;

impl View for Store {
    type V = StoreModel;

    open spec fn view(&self) -> StoreModel {
        Seq::new(
            self.files@.len(),
            |i: int|
                (
                    self.files@[i].year,
                    match self.files@[i].db {
                        Some(d) => Some(d@),
                        None => None,
                    },
                ),
        )
    }
}

/// Whether there is a file of `year`.
pub open spec fn has_file(st: StoreModel, year: i32) -> bool {
    exists|i: int| 0 <= i < st.len() && (#[trigger] st[i]).0 == year
}

/// Whether the file of `year` can be read or does not exist.
pub open spec fn writable(st: StoreModel, year: i32) -> bool {
    forall|i: int| 0 <= i < st.len() && (#[trigger] st[i]).0 == year ==> st[i].1 is Some
}

/// The tables of `year`; empty where there is no file or it cannot be read.
pub open spec fn tables_of(st: StoreModel, year: i32) -> YearModel {
    if exists|i: int| 0 <= i < st.len() && (#[trigger] st[i]).0 == year && st[i].1 is Some {
        st[choose|i: int| 0 <= i < st.len() && (#[trigger] st[i]).0 == year && st[i].1 is Some].1->0
    } else {
        no_tables()
    }
}

/// Tables without a row.
pub open spec fn no_tables() -> YearModel {
    YearModel {
        daily: Seq::empty(),
        seconds: Seq::empty(),
        hourly: Seq::empty(),
        keys: Seq::empty(),
        apps: Seq::empty(),
        devices: Seq::empty(),
        device_counts: Seq::empty(),
        device_keys: Seq::empty(),
    }
}

/// The files with the tables of `year` set to `y`.
pub open spec fn with_tables(st: StoreModel, year: i32, y: YearModel) -> StoreModel {
    if has_file(st, year) {
        Seq::new(
            st.len(),
            |i: int|
                if st[i].0 == year {
                    (year, Some(y))
                } else {
                    st[i]
                },
        )
    } else {
        st.push((year, Some(y)))
    }
}

impl Store {
    /// There is one file for a year, and the tables that can be read are well-formed.
    pub open spec fn wf(&self) -> bool {
        &&& forall|i: int, j: int|
            0 <= i < j < self.files@.len() ==> (#[trigger] self.files@[i]).year != (
            #[trigger] self.files@[j]).year
        &&& forall|i: int|
            0 <= i < self.files@.len() ==> ((#[trigger] self.files@[i]).db matches Some(d)
                ==> d.wf())
    }

    /// No files.
    pub fn new() -> (r: Self)
        ensures
            r.wf(),
            r@.len() == 0,
    {
        Store { files: Vec::new() }
    }

    /// The index of the file of `year`, or the number of files.
    pub fn find(&self, year: i32) -> (r: usize)
        ensures
            r <= self.files@.len(),
            r < self.files@.len() ==> self.files@[r as int].year == year,
            r == self.files@.len() ==> !has_file(self@, year),
    {
        let mut i: usize = 0;
        while i < self.files.len()
            invariant
                i <= self.files@.len(),
                forall|j: int| 0 <= j < i ==> (#[trigger] self@[j]).0 != year,
            decreases self.files.len() - i,
        {
            if self.files[i].year == year {
                return i;
            }
            assert(self@[i as int].0 != year);
            i = i + 1;
        }
        i
    }

    /// Brings a batch of counts to the tables of a year, which are created where there is
    /// no file yet. Tells whether it did: a file that cannot be read takes nothing.
    pub fn flush_partition(&mut self, year: i32, part: &AggDeltas) -> (r: bool)
        requires
            old(self).wf(),
            part.wf(),
            can_take(tables_of(old(self)@, year), part@),
        ensures
            final(self).wf(),
            r == writable(old(self)@, year),
            r ==> final(self)@ == with_tables(
                old(self)@,
                year,
                applied(tables_of(old(self)@, year), part@),
            ),
            !r ==> final(self)@ == old(self)@,
    {
        let ghost st = self@;
        let i = self.find(year);
        if i == self.files.len() {
            let mut d = YearDb::new();
            proof {
                assert(d@ =~= no_tables());
                assert(tables_of(st, year) == no_tables());
            }
            d.flush_partition(part);
            self.files.push(YearFile { year, db: Some(d) });
            proof {
                assert(self@ =~= with_tables(st, year, applied(no_tables(), part@)));
                assert forall|a: int, b: int| 0 <= a < b < self.files@.len() implies (
                #[trigger] self.files@[a]).year != (#[trigger] self.files@[b]).year by {
                    if b == st.len() {
                        assert(st[a].0 == self.files@[a].year);
                    }
                }
            }
            return true;
        }
        assert(st[i as int].0 == year);
        proof {
            assert forall|j: int| 0 <= j < st.len() && (#[trigger] st[j]).0 == year implies j
                == i by {
                if j < i {
                    assert(self.files@[j].year != self.files@[i as int].year);
                }
                if i < j {
                    assert(self.files@[i as int].year != self.files@[j].year);
                }
            }
        }
        let mut slot: Option<YearDb> = None;
        std::mem::swap(&mut slot, &mut self.files[i].db);
        match slot {
            None => {
                proof {
                    assert(self@ =~= st);
                    assert(st[i as int].1 is None);
                }
                false
            },
            Some(mut d) => {
                assert(tables_of(st, year) == d@);
                d.flush_partition(part);
                self.files[i].db = Some(d);
                proof {
                    assert(self@ =~= with_tables(st, year, applied(tables_of(st, year), part@)));
                }
                true
            },
        }
    }
}

/// The files with the tables of `year` taken out.
pub open spec fn vacated(st: StoreModel, year: i32) -> StoreModel {
    Seq::new(
        st.len(),
        |i: int|
            if st[i].0 == year {
                (year, None)
            } else {
                st[i]
            },
    )
}

/// No two files are of one year.
pub open spec fn one_per_year(st: StoreModel) -> bool {
    forall|i: int, j: int| 0 <= i < j < st.len() ==> (#[trigger] st[i]).0 != (#[trigger] st[j]).0
}

/// The tables of a year are in order: no row occurs twice, no amount is negative, and no two
/// devices have one id.
pub proof fn lemma_distinct_tables(st: Store, year: i32)
    requires
        st.wf(),
    ensures
        tally::distinct(tables_of(st@, year).daily),
        tally::distinct(tables_of(st@, year).seconds),
        tally::distinct(tables_of(st@, year).hourly),
        tally::distinct(tables_of(st@, year).keys),
        tally::distinct(tables_of(st@, year).apps),
        tally::distinct(tables_of(st@, year).device_counts),
        tally::distinct(tables_of(st@, year).device_keys),
        tally::nonneg(tables_of(st@, year).daily),
        tally::nonneg(tables_of(st@, year).keys),
        registry_ok(tables_of(st@, year).devices),
        ids_fit(tables_of(st@, year).devices),
{
    let m = st@;
    if exists|i: int| 0 <= i < m.len() && (#[trigger] m[i]).0 == year && m[i].1 is Some {
        let i = choose|i: int| 0 <= i < m.len() && (#[trigger] m[i]).0 == year && m[i].1 is Some;
        let f = st.files@[i];
        assert(f.db is Some);
        assert(f.db->0.wf());
        lemma_ids_fit(f.db->0);
    }
}

/// The ids are in range.
pub open spec fn ids_fit(r: Registry) -> bool {
    forall|i: int| 0 <= i < r.len() ==> i64::MIN <= (#[trigger] r[i]).id <= i64::MAX
}

proof fn lemma_ids_fit(db: YearDb)
    ensures
        ids_fit(db@.devices),
{
    assert forall|i: int| 0 <= i < db@.devices.len() implies i64::MIN <= (
    #[trigger] db@.devices[i]).id <= i64::MAX by {
        assert(db@.devices[i].id == db.devices@[i].id);
    }
}

/// Two devices have two ids.
pub proof fn lemma_ids_differ(r: Registry, a: Seq<char>, b: Seq<char>)
    requires
        registry_ok(r),
        knows(r, a),
        knows(r, b),
        a != b,
    ensures
        id_of(r, a) != id_of(r, b),
{
    let i = choose|i: int| 0 <= i < r.len() && (#[trigger] r[i]).key == a;
    let j = choose|j: int| 0 <= j < r.len() && (#[trigger] r[j]).key == b;
    lemma_id_of(r, i);
    lemma_id_of(r, j);
    if i < j {
        assert(r[i].id != r[j].id);
    } else {
        assert(r[j].id != r[i].id);
    }
}

/// The rows of a day whose device is `device`.
pub open spec fn of_device(day: i64, device: Seq<char>) -> spec_fn((i64, Seq<char>)) -> bool {
    |k: (i64, Seq<char>)| k.0 == day && hardware::identity_of(k.1) == device
}

/// The rows of a day and a key whose device is `device`.
pub open spec fn of_device_key(
    day: i64,
    device: Seq<char>,
    name: Seq<char>,
) -> spec_fn((i64, Seq<char>, Seq<char>)) -> bool {
    |k: (i64, Seq<char>, Seq<char>)|
        k.0 == day && hardware::identity_of(k.1) == device && k.2 == name
}

/// A batch brings every input to the device that it came from: its row of the day, and its
/// row of the key, grow by what the paths of that device count. A device that was known
/// keeps its id.
pub proof fn lemma_device_counts_arrive(
    y: YearModel,
    v: DeltasModel,
    day: i64,
    device: Seq<char>,
    name: Seq<char>,
)
    requires
        registry_ok(y.devices),
        tally::distinct(y.device_counts),
        tally::distinct(y.device_keys),
        ids_fit(applied(y, v).devices),
    ensures
        knows(applied(y, v).devices, device) ==> {
            let w = applied(y, v);
            let id = id_of(w.devices, device) as i64;
            &&& tally::amount(w.device_counts, (day, id)) == tally::amount(
                y.device_counts,
                (day, id),
            ) + tally::sum_if(v.devices, of_device(day, device))
            &&& tally::amount(w.device_keys, (day, id, name)) == tally::amount(
                y.device_keys,
                (day, id, name),
            ) + tally::sum_if(v.device_keys, of_device_key(day, device, name))
        },
        !knows(applied(y, v).devices, device) ==> tally::sum_if(
            v.devices,
            of_device(day, device),
        ) == 0 && tally::sum_if(v.device_keys, of_device_key(day, device, name)) == 0,
        knows(y.devices, device) ==> knows(applied(y, v).devices, device) && id_of(
            applied(y, v).devices,
            device,
        ) == id_of(y.devices, device),
{
    let r = applied(y, v).devices;
    lemma_registered_all(y.devices, v);
    if knows(r, device) {
        lemma_known_inputs_arrive(y, v, day, device, name);
    } else {
        tally::lemma_sum_none(v.devices, of_device(day, device));
        tally::lemma_sum_none(v.device_keys, of_device_key(day, device, name));
    }
}

proof fn lemma_known_inputs_arrive(
    y: YearModel,
    v: DeltasModel,
    day: i64,
    device: Seq<char>,
    name: Seq<char>,
)
    requires
        registry_ok(y.devices),
        tally::distinct(y.device_counts),
        tally::distinct(y.device_keys),
        ids_fit(applied(y, v).devices),
        knows(applied(y, v).devices, device),
    ensures
        ({
            let w = applied(y, v);
            let id = id_of(w.devices, device) as i64;
            &&& tally::amount(w.device_counts, (day, id)) == tally::amount(
                y.device_counts,
                (day, id),
            ) + tally::sum_if(v.devices, of_device(day, device))
            &&& tally::amount(w.device_keys, (day, id, name)) == tally::amount(
                y.device_keys,
                (day, id, name),
            ) + tally::sum_if(v.device_keys, of_device_key(day, device, name))
        }),
{
    let r = applied(y, v).devices;
    let id = id_of(r, device) as i64;
    lemma_registered_all(y.devices, v);
    assert forall|k: Seq<char>| knows(r, k) implies i64::MIN <= #[trigger] id_of(r, k)
        <= i64::MAX by {
        let i = choose|i: int| 0 <= i < r.len() && (#[trigger] r[i]).key == k;
        lemma_id_of(r, i);
    }
    let row = (day, id);
    let p = |w: (i64, i64)| w == row;
    let f = by_id(r);
    tally::lemma_absorb_amount(y.device_counts, tally::rekey(v.devices, f), row);
    tally::lemma_rekey_sum(v.devices, f, p);
    tally::lemma_amount_is(tally::rekey(v.devices, f), row, p);
    assert forall|i: int| 0 <= i < v.devices.len() implies (|k: (i64, Seq<char>)| p(f(k)))(
        (#[trigger] v.devices[i]).0,
    ) == of_device(day, device)(v.devices[i].0) by {
        let k = hardware::identity_of(v.devices[i].0.1);
        if k != device {
            lemma_ids_differ(r, k, device);
        }
    }
    tally::lemma_sum_same(
        v.devices,
        |k: (i64, Seq<char>)| p(f(k)),
        of_device(day, device),
    );
    let key_row = (day, id, name);
    let q = |w: (i64, i64, Seq<char>)| w == key_row;
    let g = key_by_id(r);
    tally::lemma_absorb_amount(y.device_keys, tally::rekey(v.device_keys, g), key_row);
    tally::lemma_rekey_sum(v.device_keys, g, q);
    tally::lemma_amount_is(tally::rekey(v.device_keys, g), key_row, q);
    assert forall|i: int| 0 <= i < v.device_keys.len() implies (|k: (i64, Seq<char>, Seq<char>)|
        q(g(k)))((#[trigger] v.device_keys[i]).0) == of_device_key(day, device, name)(
        v.device_keys[i].0,
    ) by {
        let k = hardware::identity_of(v.device_keys[i].0.1);
        if k != device {
            lemma_ids_differ(r, k, device);
        }
    }
    tally::lemma_sum_same(
        v.device_keys,
        |k: (i64, Seq<char>, Seq<char>)| q(g(k)),
        of_device_key(day, device, name),
    );
}

/// The tables of a year are those of its file.
pub proof fn lemma_tables_at(st: StoreModel, i: int)
    requires
        one_per_year(st),
        0 <= i < st.len(),
        st[i].1 is Some,
    ensures
        tables_of(st, st[i].0) == st[i].1->0,
{
    let year = st[i].0;
    let k = choose|k: int| 0 <= k < st.len() && (#[trigger] st[k]).0 == year && st[k].1 is Some;
    if k < i {
        assert(st[k].0 != st[i].0);
    }
    if i < k {
        assert(st[i].0 != st[k].0);
    }
}

/// Tables that are put back are there, and those of other years are left alone.
pub proof fn lemma_with_tables(st: StoreModel, year: i32, y: YearModel)
    requires
        one_per_year(st),
    ensures
        one_per_year(with_tables(st, year, y)),
        has_file(with_tables(st, year, y), year),
        writable(with_tables(st, year, y), year),
        tables_of(with_tables(st, year, y), year) == y,
        forall|z: i32|
            z != year ==> #[trigger] tables_of(with_tables(st, year, y), z) == tables_of(st, z),
        forall|z: i32|
            z != year ==> #[trigger] writable(with_tables(st, year, y), z) == writable(st, z),
        forall|z: i32|
            z != year ==> #[trigger] has_file(with_tables(st, year, y), z) == has_file(st, z),
        with_tables(vacated(st, year), year, y) == with_tables(st, year, y),
{
    let w = with_tables(st, year, y);
    let n = st.len() as int;
    assert forall|i: int, j: int| 0 <= i < j < w.len() implies (#[trigger] w[i]).0 != (
    #[trigger] w[j]).0 by {
        if j < n {
            assert(st[i].0 != st[j].0);
        }
    }
    let at = if has_file(st, year) {
        choose|i: int| 0 <= i < st.len() && (#[trigger] st[i]).0 == year
    } else {
        n
    };
    assert(w[at] == (year, Some(y)));
    lemma_tables_at(w, at);
    assert forall|z: i32| z != year implies #[trigger] tables_of(w, z) == tables_of(st, z) by {
        lemma_other_tables(st, w, year, z);
    }
    assert forall|z: i32| z != year implies #[trigger] writable(w, z) == writable(st, z) by {
        assert forall|i: int| 0 <= i < n && st[i].0 == z implies #[trigger] w[i] == st[i] by {}
        if writable(w, z) {
            assert forall|i: int| 0 <= i < st.len() && (#[trigger] st[i]).0 == z implies st[i].1
                is Some by {
                assert(w[i].0 == z);
            }
        }
    }
    assert forall|z: i32| z != year implies #[trigger] has_file(w, z) == has_file(st, z) by {
        if has_file(w, z) {
            let i = choose|i: int| 0 <= i < w.len() && (#[trigger] w[i]).0 == z;
            assert(st[i].0 == z);
        }
        if has_file(st, z) {
            let i = choose|i: int| 0 <= i < st.len() && (#[trigger] st[i]).0 == z;
            assert(w[i].0 == z);
        }
    }
    let v = vacated(st, year);
    if has_file(st, year) {
        assert(v[at].0 == year);
    }
    if has_file(v, year) {
        let i = choose|i: int| 0 <= i < v.len() && (#[trigger] v[i]).0 == year;
        assert(st[i].0 == year);
    }
    assert(with_tables(v, year, y) =~= w);
    assert forall|i: int| 0 <= i < w.len() && (#[trigger] w[i]).0 == year implies w[i].1
        is Some by {}
}

proof fn lemma_other_tables(st: StoreModel, w: StoreModel, year: i32, z: i32)
    requires
        one_per_year(st),
        one_per_year(w),
        z != year,
        st.len() <= w.len(),
        forall|i: int| 0 <= i < st.len() && st[i].0 != year ==> #[trigger] w[i] == st[i],
        forall|i: int| 0 <= i < st.len() && st[i].0 == year ==> (#[trigger] w[i]).0 == year,
        forall|i: int| st.len() <= i < w.len() ==> (#[trigger] w[i]).0 == year,
    ensures
        tables_of(w, z) == tables_of(st, z),
{
    if exists|i: int| 0 <= i < st.len() && (#[trigger] st[i]).0 == z && st[i].1 is Some {
        let i = choose|i: int| 0 <= i < st.len() && (#[trigger] st[i]).0 == z && st[i].1 is Some;
        assert(w[i] == st[i]);
        lemma_tables_at(st, i);
        lemma_tables_at(w, i);
    } else {
        if exists|i: int| 0 <= i < w.len() && (#[trigger] w[i]).0 == z && w[i].1 is Some {
            let i = choose|i: int| 0 <= i < w.len() && (#[trigger] w[i]).0 == z && w[i].1 is Some;
            assert(w[i] == st[i]);
        }
    }
}

/// Taking the tables of a year out leaves those of other years alone.
pub proof fn lemma_vacated(st: StoreModel, year: i32)
    requires
        one_per_year(st),
    ensures
        one_per_year(vacated(st, year)),
        forall|z: i32| z != year ==> #[trigger] tables_of(vacated(st, year), z) == tables_of(st, z),
        forall|z: i32| z != year ==> #[trigger] writable(vacated(st, year), z) == writable(st, z),
        forall|z: i32| #[trigger] has_file(vacated(st, year), z) == has_file(st, z),
{
    let w = vacated(st, year);
    assert forall|i: int, j: int| 0 <= i < j < w.len() implies (#[trigger] w[i]).0 != (
    #[trigger] w[j]).0 by {
        assert(st[i].0 != st[j].0);
    }
    assert forall|z: i32| z != year implies #[trigger] tables_of(w, z) == tables_of(st, z) by {
        lemma_other_tables(st, w, year, z);
    }
    assert forall|z: i32| z != year implies #[trigger] writable(w, z) == writable(st, z) by {
        assert forall|i: int| 0 <= i < st.len() && st[i].0 == z implies #[trigger] w[i]
            == st[i] by {}
        if writable(w, z) {
            assert forall|i: int| 0 <= i < st.len() && (#[trigger] st[i]).0 == z implies st[i].1
                is Some by {
                assert(w[i].0 == z);
            }
        }
    }
    assert forall|z: i32| #[trigger] has_file(w, z) == has_file(st, z) by {
        if has_file(w, z) {
            let i = choose|i: int| 0 <= i < w.len() && (#[trigger] w[i]).0 == z;
            assert(st[i].0 == z);
        }
        if has_file(st, z) {
            let i = choose|i: int| 0 <= i < st.len() && (#[trigger] st[i]).0 == z;
            assert(w[i].0 == z);
        }
    }
}

impl Store {
    /// There is one file for a year.
    pub proof fn one_each(&self)
        requires
            self.wf(),
        ensures
            one_per_year(self@),
    {
        let st = self@;
        assert forall|i: int, j: int| 0 <= i < j < st.len() implies (#[trigger] st[i]).0 != (
        #[trigger] st[j]).0 by {
            assert(self.files@[i].year != self.files@[j].year);
        }
    }

    /// Whether the file of `year` can be read or does not exist.
    pub fn is_writable(&self, year: i32) -> (r: bool)
        requires
            self.wf(),
        ensures
            r == writable(self@, year),
    {
        let i = self.find(year);
        if i == self.files.len() {
            return true;
        }
        let ghost st = self@;
        proof {
            self.one_each();
            assert(st[i as int].0 == year);
            assert forall|j: int| 0 <= j < st.len() && (#[trigger] st[j]).0 == year implies j
                == i by {
                if j < i {
                    assert(st[j].0 != st[i as int].0);
                }
                if i < j {
                    assert(st[i as int].0 != st[j].0);
                }
            }
        }
        self.files[i].db.is_some()
    }

    /// Takes the tables of a year out; empty ones where there is no file.
    pub fn take_tables(&mut self, year: i32) -> (r: YearDb)
        requires
            old(self).wf(),
            writable(old(self)@, year),
        ensures
            final(self).wf(),
            r.wf(),
            r@ == tables_of(old(self)@, year),
            final(self)@ == vacated(old(self)@, year),
    {
        let ghost st = self@;
        proof {
            self.one_each();
        }
        let i = self.find(year);
        if i == self.files.len() {
            let d = YearDb::new();
            proof {
                assert(d@ =~= no_tables());
                assert(vacated(st, year) =~= st);
            }
            return d;
        }
        assert(st[i as int].0 == year);
        let mut slot: Option<YearDb> = None;
        std::mem::swap(&mut slot, &mut self.files[i].db);
        proof {
            assert forall|j: int| 0 <= j < st.len() && (#[trigger] st[j]).0 == year implies j
                == i by {
                if j < i {
                    assert(st[j].0 != st[i as int].0);
                }
                if i < j {
                    assert(st[i as int].0 != st[j].0);
                }
            }
            assert(self@ =~= vacated(st, year));
            lemma_tables_at(st, i as int);
        }
        match slot {
            Some(d) => d,
            None => {
                assert(false);
                YearDb::new()
            },
        }
    }

    /// Puts the tables of a year in; the file is created where there is none.
    pub fn put_tables(&mut self, year: i32, d: YearDb)
        requires
            old(self).wf(),
            d.wf(),
        ensures
            final(self).wf(),
            final(self)@ == with_tables(old(self)@, year, d@),
    {
        let ghost st = self@;
        proof {
            self.one_each();
        }
        let i = self.find(year);
        if i == self.files.len() {
            self.files.push(YearFile { year, db: Some(d) });
            proof {
                assert(self@ =~= with_tables(st, year, d@));
                assert forall|a: int, b: int| 0 <= a < b < self.files@.len() implies (
                #[trigger] self.files@[a]).year != (#[trigger] self.files@[b]).year by {
                    if b == st.len() {
                        assert(st[a].0 == self.files@[a].year);
                    }
                }
            }
        } else {
            assert(st[i as int].0 == year);
            self.files[i].db = Some(d);
            proof {
                assert forall|j: int| 0 <= j < st.len() && (#[trigger] st[j]).0 == year implies j
                    == i by {
                    if j < i {
                        assert(st[j].0 != st[i as int].0);
                    }
                    if i < j {
                        assert(st[i as int].0 != st[j].0);
                    }
                }
                assert(self@ =~= with_tables(st, year, d@));
            }
        }
    }
}

} // verus!
