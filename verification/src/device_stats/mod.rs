//! Counts by device: what a device is called, and what of its input is counted.
use vstd::prelude::*;
use vstd::string::*;

use crate::config;
use crate::config::FocusFlowConfig;
use crate::db::database::CheckResult;
use crate::db::writer;
use crate::db::writer::{DbWriter, DeltasModel};
use crate::format::replace_char;
use crate::hardware;
use crate::hardware::{hardware_identity_key, parse_vid_pid};
use crate::listener::{is_paused_now, PauseFlag};
use crate::text;
use crate::text::{chars_of, clip, split_char, str_eq, string_of_range, trim, vec_rfind};

pub mod classify;

verus! {

// ------------------------------------------------------------------------------ names

/// A device path without the mark in front of it.
pub open spec fn unprefixed(path: Seq<char>) -> Seq<char> {
    if text::starts(path, "\\\\?\\"@) {
        path.skip("\\\\?\\"@.len() as int)
    } else {
        path
    }
}

/// A device path without the mark in front of it.
pub fn strip_device_prefix(path: &str) -> (r: String)
    ensures
        r@ == unprefixed(path@),
{
    match text::strip_prefix(path, "\\\\?\\") {
        Some(t) => t,
        None => path.to_owned(),
    }
}

/// A device path without the mark in front of it and the class of its interface behind it.
pub open spec fn instance_of(path: Seq<char>) -> Seq<char> {
    let s = unprefixed(path);
    let i = text::rfind_from(s, "#{"@, s.len() as int);
    if i >= 0 {
        s.take(i)
    } else {
        s
    }
}

/// The place of a device in the registry: its instance path with `\\` for `#`.
pub fn registry_instance_path(device_path: &str) -> (r: String)
    ensures
        r@ == crate::format::replaced(instance_of(device_path@), '#', "\\"@),
{
    let stripped = strip_device_prefix(device_path);
    let v = chars_of(stripped.as_str());
    let mark = chars_of("#{");
    let instance = match vec_rfind(&v, &mark) {
        Some(i) => {
            let t = string_of_range(&v, 0, i);
            assert(t@ =~= stripped@.take(i as int));
            t
        },
        None => stripped,
    };
    replace_char(instance.as_str(), '#', "\\")
}

/// The name of a device in the language of the program, where it is one of the usual ones.
pub open spec fn localized(name: Seq<char>) -> Seq<char> {
    if name == "HID-compliant mouse"@ {
        "HID 鼠标"@
    } else if name == "HID-compliant keyboard"@ || name == "HID Keyboard Device"@ {
        "HID 键盘"@
    } else if name == "Standard PS/2 Keyboard"@ {
        "PS/2 键盘"@
    } else if name == "Microsoft PS/2 Mouse"@ {
        "PS/2 鼠标"@
    } else if name == "USB Input Device"@ {
        "USB 输入设备"@
    } else {
        name
    }
}

/// The name of a device in the language of the program, where it is one of the usual ones.
pub fn localize_generic_name(name: &str) -> (r: String)
    ensures
        r@ == localized(name@),
{
    if str_eq(name, "HID-compliant mouse") {
        "HID 鼠标".to_owned()
    } else if str_eq(name, "HID-compliant keyboard") || str_eq(name, "HID Keyboard Device") {
        "HID 键盘".to_owned()
    } else if str_eq(name, "Standard PS/2 Keyboard") {
        "PS/2 键盘".to_owned()
    } else if str_eq(name, "Microsoft PS/2 Mouse") {
        "PS/2 鼠标".to_owned()
    } else if str_eq(name, "USB Input Device") {
        "USB 输入设备".to_owned()
    } else {
        name.to_owned()
    }
}

/// The short mark of a device without ids: the second segment of its path, 24 characters at
/// most; the path where that is empty or missing.
pub open spec fn tag_text(path: Seq<char>) -> Seq<char> {
    let s = unprefixed(path);
    let parts = text::split_on(s, '#');
    let seg = if parts.len() >= 2 {
        parts[1]
    } else {
        s
    };
    if seg.len() == 0 {
        text::clipped(s, 24)
    } else {
        text::clipped(seg, 24)
    }
}

/// The short mark of a device without ids.
pub fn short_device_tag(path: &str) -> (r: String)
    ensures
        r@ == tag_text(path@),
{
    let stripped = strip_device_prefix(path);
    let parts = split_char(stripped.as_str(), '#');
    let ghost p = text::split_on(stripped@, '#');
    assert(p.len() == parts@.len());
    let tag = if parts.len() >= 2 {
        assert(p[1] == parts@[1]@);
        clip(parts[1].as_str(), 24)
    } else {
        clip(stripped.as_str(), 24)
    };
    if tag.as_str().is_empty() {
        clip(stripped.as_str(), 24)
    } else {
        tag
    }
}

/// The name shown for a device: what the registry calls it, and its ids or its short mark.
pub open spec fn shown_name(path: Seq<char>, friendly: Option<Seq<char>>) -> Seq<char> {
    let suffix = match hardware::vid_pid(path) {
        Some((vid, pid)) => vid + "/"@ + pid,
        None => tag_text(path),
    };
    match friendly {
        Some(f) => localized(f) + " · "@ + suffix,
        None => "HID 设备 · "@ + suffix,
    }
}

/// The name shown for a device.
pub fn display_name(path: &str, friendly: Option<&str>) -> (r: String)
    ensures
        r@ == shown_name(path@, text::opt_str(friendly)),
{
    let suffix = match parse_vid_pid(path) {
        Some((vid, pid)) => vid.concat("/").concat(pid.as_str()),
        None => short_device_tag(path),
    };
    match friendly {
        Some(f) => localize_generic_name(f).concat(" · ").concat(suffix.as_str()),
        None => "HID 设备 · ".to_owned().concat(suffix.as_str()),
    }
}

/// What the registry calls a device: its friendly name, or else the last part of its
/// description.
pub open spec fn registry_name(
    friendly: Option<Seq<char>>,
    desc: Option<Seq<char>>,
) -> Option<Seq<char>> {
    match friendly {
        Some(f) if text::trimmed(f).len() > 0 => Some(text::trimmed(f)),
        _ => match desc {
            Some(d) => {
                let t = text::trimmed(text::split_on(d, ';').last());
                if t.len() > 0 {
                    Some(t)
                } else {
                    None
                }
            },
            None => None,
        },
    }
}

/// What the registry calls a device, by its `FriendlyName` and its `DeviceDesc`.
pub fn registry_device_name(friendly: Option<&str>, desc: Option<&str>) -> (r: Option<String>)
    ensures
        text::opt_text(r) == registry_name(text::opt_str(friendly), text::opt_str(desc)),
{
    if let Some(f) = friendly {
        let t = trim(f);
        if !t.as_str().is_empty() {
            return Some(t);
        }
    }
    match desc {
        Some(d) => {
            let parts = split_char(d, ';');
            proof {
                text::lemma_split_on(d@, ';');
                assert(text::views(parts@).len() == parts@.len());
            }
            let last = parts.len() - 1;
            assert(text::views(parts@).last() == parts@[last as int]@);
            let t = trim(parts[last].as_str());
            if t.as_str().is_empty() {
                None
            } else {
                Some(t)
            }
        },
        None => None,
    }
}

// ----------------------------------------------------------------------------- inputs

/// The counts after one input of a device: by device, and by device and key. A key without
/// a name counts among the others.
pub open spec fn input_recorded(
    v: DeltasModel,
    device_key: Seq<char>,
    name: Seq<char>,
    kind: Seq<char>,
    key_name: Option<Seq<char>>,
    ts: int,
    offset: int,
) -> DeltasModel {
    writer::device_key_recorded(
        writer::device_recorded(v, device_key, name, kind, ts, offset),
        device_key,
        match key_name {
            Some(k) => k,
            None => "其他按键"@,
        },
        ts,
        offset,
    )
}

/// Counts one input of a device, unless there is a pause. Tells whether it did.
pub fn record_device_event(
    w: &mut DbWriter,
    paused: &PauseFlag,
    device_key: &str,
    name: &str,
    kind: &str,
    key_name: Option<&str>,
    ts: i64,
    offset: i64,
) -> (r: bool)
    requires
        old(w).wf(),
        writer::takes(old(w).agg@.devices, 1),
        writer::takes(old(w).agg@.device_keys, 1),
    ensures
        final(w).wf(),
        r == !paused.paused,
        !r ==> *final(w) == *old(w),
        r ==> *final(w) == (DbWriter { agg: final(w).agg, ..*old(w) }) && final(w).agg@
            == input_recorded(
            old(w).agg@,
            device_key@,
            name@,
            kind@,
            text::opt_str(key_name),
            ts as int,
            offset as int,
        ),
{
    if is_paused_now(paused) {
        return false;
    }
    w.record_device(device_key, name, kind, ts, offset);
    let key = match key_name {
        Some(k) => k,
        None => "其他按键",
    };
    w.record_device_key(device_key, key, ts, offset);
    true
}

/// An input of a device, as the system reports it.
#[derive(Clone, Copy, PartialEq, Eq, Structural, Debug)]
pub enum RawInput {
    Mouse { flags: u16, data: i16 },
    Keyboard { flags: u16, vkey: u16 },
    Other,
}

/// Whether an input counts.
pub open spec fn counts(input: RawInput) -> bool {
    match input {
        RawInput::Mouse { flags, .. } => classify::acts(flags),
        RawInput::Keyboard { flags, .. } => flags & classify::RI_KEY_BREAK == 0,
        RawInput::Other => false,
    }
}

/// The kind of device that an input comes from.
pub open spec fn kind_text(input: RawInput) -> Seq<char> {
    if input is Mouse {
        "mouse"@
    } else {
        "keyboard"@
    }
}

/// The name that an input counts under.
pub open spec fn input_name(input: RawInput) -> Option<Seq<char>> {
    match input {
        RawInput::Mouse { flags, data } => classify::action_text(flags, data),
        RawInput::Keyboard { vkey, .. } => classify::vkey_text(vkey),
        RawInput::Other => None,
    }
}

/// A device that was registered: its handle, whether it acted as a mouse, its key and its
/// name.
pub struct Registered {
    pub handle: i64,
    pub mouse: bool,
    pub device_key: String,
    pub name: String,
}

/// The devices that were registered.
pub struct Sink {
    pub devices: Vec<Registered>,
}

/// The first index from `from` on of a device, or the number of devices. A handle can be
/// given to another device later, so the kind of the input belongs to it.
pub open spec fn device_at(s: Seq<Registered>, handle: i64, mouse: bool, from: int) -> int
    decreases s.len() - from,
{
    if from >= s.len() || (s[from].handle == handle && s[from].mouse == mouse) {
        from
    } else {
        device_at(s, handle, mouse, from + 1)
    }
}

/// Whether a device is registered.
pub open spec fn known(s: Seq<Registered>, handle: i64, mouse: bool) -> bool {
    device_at(s, handle, mouse, 0) < s.len()
}

impl Sink {
    /// No device yet.
    pub fn new() -> (r: Self)
        ensures
            r.devices@.len() == 0,
    {
        Sink { devices: Vec::new() }
    }

    fn find(&self, handle: i64, mouse: bool) -> (r: usize)
        ensures
            r == device_at(self.devices@, handle, mouse, 0),
            r <= self.devices@.len(),
    {
        let mut i: usize = 0;
        while i < self.devices.len()
            invariant
                i <= self.devices.len(),
                device_at(self.devices@, handle, mouse, 0) == device_at(
                    self.devices@,
                    handle,
                    mouse,
                    i as int,
                ),
            decreases self.devices.len() - i,
        {
            if self.devices[i].handle == handle && self.devices[i].mouse == mouse {
                return i;
            }
            i = i + 1;
        }
        i
    }

    /// Whether the path and the name of a device are needed before its input can be taken:
    /// the input counts, and the device is not registered.
    pub fn wants_device(&self, handle: Option<i64>, input: &RawInput) -> (r: bool)
        ensures
            r == (handle is Some && counts(*input) && !known(
                self.devices@,
                handle->0,
                *input is Mouse,
            )),
    {
        match handle {
            Some(h) => match input {
                RawInput::Mouse { flags, .. } => classify::mouse_counts(*flags) && self.find(
                    h,
                    true,
                ) == self.devices.len(),
                RawInput::Keyboard { flags, .. } => classify::keyboard_counts(*flags) && self.find(
                    h,
                    false,
                ) == self.devices.len(),
                RawInput::Other => false,
            },
            None => false,
        }
    }

    /// Takes an input: registers the device where it is new and its path was found, and
    /// counts the input for it, unless there is a pause or no time. Tells whether it
    /// counted. An input without a device, and one of a device whose path was not found,
    /// count for nothing.
    pub fn on_input(
        &mut self,
        w: &mut DbWriter,
        paused: &PauseFlag,
        handle: Option<i64>,
        input: &RawInput,
        found: Option<(&str, Option<&str>)>,
        ts: Option<i64>,
        offset: i64,
    ) -> (r: bool)
        requires
            old(w).wf(),
            writer::takes(old(w).agg@.devices, 1),
            writer::takes(old(w).agg@.device_keys, 1),
        ensures
            final(w).wf(),
            ({
                let s = old(self).devices@;
                let t = final(self).devices@;
                let m = *input is Mouse;
                let taken = handle is Some && counts(*input) && (known(s, handle->0, m) || found
                    is Some);
                &&& r == (taken && !paused.paused && ts is Some)
                &&& !r ==> *final(w) == *old(w)
                &&& taken && !known(s, handle->0, m) ==> {
                    &&& t.len() == s.len() + 1
                    &&& t.drop_last() == s
                    &&& t.last().handle == handle->0
                    &&& t.last().mouse == m
                    &&& t.last().device_key@ == hardware::identity_of(
                        unprefixed((found->0).0@),
                    )
                    &&& t.last().name@ == shown_name(
                        (found->0).0@,
                        text::opt_str((found->0).1),
                    )
                }
                &&& !taken || known(s, handle->0, m) ==> t == s
                &&& r ==> {
                    let d = t[device_at(t, handle->0, m, 0)];
                    &&& known(t, handle->0, m)
                    &&& *final(w) == (DbWriter { agg: final(w).agg, ..*old(w) })
                    &&& final(w).agg@ == input_recorded(
                        old(w).agg@,
                        d.device_key@,
                        d.name@,
                        kind_text(*input),
                        input_name(*input),
                        ts->0 as int,
                        offset as int,
                    )
                }
            }),
    {
        let h = match handle {
            Some(h) => h,
            None => {
                return false;
            },
        };
        let (counted, kind, mouse, key_name) = match input {
            RawInput::Mouse { flags, data } => (
                classify::mouse_counts(*flags),
                "mouse",
                true,
                classify::mouse_action_name(*flags, *data),
            ),
            RawInput::Keyboard { flags, vkey } => (
                classify::keyboard_counts(*flags),
                "keyboard",
                false,
                classify::vkey_name(*vkey),
            ),
            RawInput::Other => {
                return false;
            },
        };
        if !counted {
            return false;
        }
        let ghost s = self.devices@;
        let i = self.find(h, mouse);
        if i == self.devices.len() {
            match found {
                None => {
                    return false;
                },
                Some((path, friendly)) => {
                    let stripped = strip_device_prefix(path);
                    let device_key = hardware_identity_key(stripped.as_str());
                    let name = display_name(path, friendly);
                    self.devices.push(Registered { handle: h, mouse, device_key, name });
                    proof {
                        lemma_new_device(s, self.devices@.last(), 0);
                        assert(self.devices@.drop_last() =~= s);
                        assert(s.push(self.devices@.last()) =~= self.devices@);
                    }
                },
            }
        }
        match ts {
            None => false,
            Some(t) => {
                let d = &self.devices[i];
                record_device_event(
                    w,
                    paused,
                    d.device_key.as_str(),
                    d.name.as_str(),
                    kind,
                    key_name,
                    t,
                    offset,
                )
            },
        }
    }
}

proof fn lemma_new_device(s: Seq<Registered>, d: Registered, from: int)
    requires
        0 <= from <= s.len(),
        device_at(s, d.handle, d.mouse, from) >= s.len(),
    ensures
        device_at(s.push(d), d.handle, d.mouse, from) == s.len(),
    decreases s.len() - from,
{
    if from < s.len() {
        lemma_new_device(s, d, from + 1);
    }
}

/// The port that a device is plugged into does not matter: paths that differ in the last
/// segments alone lead to the same device key.
pub proof fn lemma_port_does_not_matter(a: Seq<char>, b: Seq<char>)
    requires
        text::split_on(unprefixed(a), '#').len() >= 3,
        text::split_on(unprefixed(b), '#').len() >= 3,
        text::split_on(unprefixed(a), '#')[1] == text::split_on(unprefixed(b), '#')[1],
        !text::is_blank(text::split_on(unprefixed(a), '#')[1]),
    ensures
        hardware::identity_of(unprefixed(a)) == hardware::identity_of(unprefixed(b)),
{
}

/// How the counting by device came up: it is switched off, it runs, or it failed for a
/// reason.
pub fn start_device_stats(c: &FocusFlowConfig, failed: Option<&str>) -> (r: CheckResult)
    requires
        c.wf(),
    ensures
        r.step@ == "设备统计线程"@,
        ({
            let on = config::truth(c.value("device_stats"@, "enabled"@), true);
            if !on {
                r.ok && r.detail@ == "未启用（[device_stats] enabled=false）"@
            } else {
                match failed {
                    None => r.ok && r.detail@ == "已启动（Raw Input 侧信道）"@,
                    Some(e) => !r.ok && r.detail@ == e@,
                }
            }
        }),
{
    let step = "设备统计线程".to_owned();
    if !c.get_bool("device_stats", "enabled", true) {
        return CheckResult {
            step,
            ok: true,
            detail: "未启用（[device_stats] enabled=false）".to_owned(),
        };
    }
    match failed {
        None => CheckResult { step, ok: true, detail: "已启动（Raw Input 侧信道）".to_owned() },
        Some(e) => CheckResult { step, ok: false, detail: e.to_owned() },
    }
}

/// An input of a device counts once for the device on its day, and once under the name of
/// its key, or that of other keys; nothing but the inputs of devices and the registration of
/// the device changes.
pub proof fn lemma_input_counts_once(
    v: DeltasModel,
    device: Seq<char>,
    name: Seq<char>,
    kind: Seq<char>,
    key: Option<Seq<char>>,
    ts: i64,
    offset: i64,
    day: i64,
    other: Seq<char>,
    other_key: Seq<char>,
)
    requires
        v.distinct(),
    ensures
        ({
            let d = crate::db::days::day_at(ts as int, offset as int) as i64;
            let r = input_recorded(v, device, name, kind, key, ts as int, offset as int);
            let k = if key is Some {
                key->0
            } else {
                "其他按键"@
            };
            &&& crate::tally::amount(r.devices, (day, other)) == crate::tally::amount(
                v.devices,
                (day, other),
            ) + (if day == d && other == device {
                1int
            } else {
                0
            })
            &&& crate::tally::amount(r.device_keys, (day, other, other_key))
                == crate::tally::amount(v.device_keys, (day, other, other_key)) + (if day == d
                && other == device && other_key == k {
                1int
            } else {
                0
            })
            &&& r == (DeltasModel {
                devices: r.devices,
                device_keys: r.device_keys,
                meta: writer::meta_seen(v.meta, device, name, kind),
                ..v
            })
        }),
{
    let d = crate::db::days::day_at(ts as int, offset as int) as i64;
    let k = if key is Some {
        key->0
    } else {
        "其他按键"@
    };
    crate::tally::lemma_bump_each(v.devices, (d, device), 1, (day, other));
    crate::tally::lemma_bump_each(v.device_keys, (d, device, k), 1, (day, other, other_key));
}

/// A key counts when it goes down and not when it comes up; the mouse counts when a button
/// goes down or the wheel turns; nothing else counts.
pub proof fn lemma_what_counts(vkey: u16, flags: u16, data: i16)
    ensures
        counts(RawInput::Keyboard { vkey, flags }) <==> flags & 0x0001 == 0,
        counts(RawInput::Mouse { flags, data }) <==> flags & 0x0001 != 0 || flags & 0x0004 != 0
            || flags & 0x0010 != 0 || flags & 0x0400 != 0,
        !counts(RawInput::Other),
        kind_text(RawInput::Keyboard { vkey, flags }) == "keyboard"@,
        kind_text(RawInput::Mouse { flags, data }) == "mouse"@,
        input_name(RawInput::Keyboard { vkey, flags }) == classify::vkey_text(vkey),
        input_name(RawInput::Mouse { flags, data }) == classify::action_text(flags, data),
{
}

/// A path with the prefix for devices stands for the path without it.
pub proof fn lemma_prefix_is_left_out(path: Seq<char>)
    ensures
        unprefixed("\\\\?\\"@ + path) == path,
        !text::starts(path, "\\\\?\\"@) ==> unprefixed(path) == path,
{
    reveal_strlit("\\\\?\\");
    let p = "\\\\?\\"@;
    let s = p + path;
    assert(s.take(p.len() as int) =~= p);
    assert(s.skip(p.len() as int) =~= path);
}

/// The name of a device in the registry is the friendly one where it is not blank; else what
/// stands behind the last semicolon of its description, where that is not blank.
pub proof fn lemma_registry_names(a: Seq<char>, b: Seq<char>, friendly: Seq<char>)
    requires
        !b.contains(';'),
    ensures
        text::trimmed(friendly).len() > 0 ==> registry_name(Some(friendly), Some(a)) == Some(
            text::trimmed(friendly),
        ),
        text::trimmed(friendly).len() == 0 ==> registry_name(Some(friendly), Some(a))
            == registry_name(None, Some(a)),
        text::trimmed(b).len() > 0 ==> registry_name(None, Some(a + seq![';'] + b)) == Some(
            text::trimmed(b),
        ) && registry_name(None, Some(b)) == Some(text::trimmed(b)),
        text::trimmed(b).len() == 0 ==> registry_name(None, Some(a + seq![';'] + b)) is None,
        registry_name(None, None) is None,
{
    text::lemma_split_last(a, ';', b);
    text::lemma_split_single(b, ';');
    assert(text::split_on(a, ';').push(b).last() == b);
    assert(seq![b].last() == b);
}

/// A device is shown by its friendly name where there is one, and else as some device, with
/// what its path tells behind it: the numbers of vendor and product, or the beginning of its
/// second part.
pub proof fn lemma_shown_names(a: Seq<char>, b: Seq<char>, c: Seq<char>, f: Seq<char>)
    requires
        !a.contains('#') && !b.contains('#') && !c.contains('#'),
        b.len() > 0,
        !text::starts(a + seq!['#'] + b + seq!['#'] + c, "\\\\?\\"@),
    ensures
        ({
            let path = a + seq!['#'] + b + seq!['#'] + c;
            &&& hardware::vid_pid(path) matches Some(p) ==> shown_name(path, None) == "HID 设备 · "@
                + (p.0 + "/"@ + p.1)
            &&& hardware::vid_pid(path) is None && b.len() <= 24 ==> shown_name(path, None)
                == "HID 设备 · "@ + b
            &&& hardware::vid_pid(path) is None && b.len() > 24 ==> shown_name(path, None)
                == "HID 设备 · "@ + b.take(24)
            &&& hardware::vid_pid(path) matches Some(p) ==> shown_name(path, Some(f)) == localized(f)
                + " · "@ + (p.0 + "/"@ + p.1)
        }),
{
    let u = seq!['#'];
    let path = a + u + b + u + c;
    text::lemma_split_single(a, '#');
    text::lemma_split_last(a, '#', b);
    text::lemma_split_last(a + u + b, '#', c);
    assert(text::split_on(path, '#') =~= seq![a, b, c]);
}

/// The place of a device in the registry is its path up to the last class that stands behind
/// it.
pub proof fn lemma_registry_place(a: Seq<char>, b: Seq<char>)
    requires
        !text::starts(a + "#{"@ + b, "\\\\?\\"@),
        forall|j: int| j > a.len() ==> !text::occurs_at(a + "#{"@ + b, "#{"@, j),
    ensures
        instance_of(a + "#{"@ + b) == a,
{
    let s = a + "#{"@ + b;
    let n = a.len() as int;
    text::lemma_rfind_from(s, "#{"@, s.len() as int);
    let i = text::rfind_from(s, "#{"@, s.len() as int);
    reveal_strlit("#{");
    assert(s.subrange(n, n + 2) =~= "#{"@);
    assert(text::occurs_at(s, "#{"@, n));
    if i > n {
        assert(!text::occurs_at(s, "#{"@, i));
    }
    assert(i == n);
    assert(s.take(n) =~= a);
}

/// A device is known by its handle as what it is, keyboard or mouse: the first that was
/// registered under both is the one that counts.
pub proof fn lemma_device_of_handle(s: Seq<Registered>, handle: i64, mouse: bool, i: int)
    requires
        0 <= i < s.len(),
    ensures
        s[i].handle == handle && s[i].mouse == mouse ==> known(s, handle, mouse) && 0 <= device_at(
            s,
            handle,
            mouse,
            0,
        ) <= i,
        known(s, handle, mouse) ==> {
            let d = s[device_at(s, handle, mouse, 0)];
            d.handle == handle && d.mouse == mouse
        },
{
    lemma_device_at(s, handle, mouse, 0, i);
}

proof fn lemma_device_at(s: Seq<Registered>, handle: i64, mouse: bool, from: int, i: int)
    requires
        0 <= from <= s.len(),
    ensures
        from <= device_at(s, handle, mouse, from) <= s.len(),
        device_at(s, handle, mouse, from) < s.len() ==> {
            let d = s[device_at(s, handle, mouse, from)];
            d.handle == handle && d.mouse == mouse
        },
        from <= i < s.len() && s[i].handle == handle && s[i].mouse == mouse ==> device_at(
            s,
            handle,
            mouse,
            from,
        ) <= i,
    decreases s.len() - from,
{
    if from < s.len() && !(s[from].handle == handle && s[from].mouse == mouse) {
        lemma_device_at(s, handle, mouse, from + 1, i);
    }
}

} // verus!
