//! What device instance paths tell: vendor and product id, interface, hardware
//! identity, and a name for devices that have none registered.
use vstd::prelude::*;
use vstd::string::*;

use crate::text;
use crate::text::{cat2, chars_of, string_of_range, vec_find};

verus! {

/// Prefix of the device keys that stand for archived devices without a registration.
pub const ARCHIVED_DEVICE_KEY_PREFIX: &'static str = "device-id:";

/// Whether `c` is a hexadecimal digit.
pub open spec fn is_hex(c: char) -> bool {
    '0' <= c <= '9' || 'a' <= c <= 'f' || 'A' <= c <= 'F'
}

/// Whether `s` is made of hexadecimal digits only.
pub open spec fn all_hex(s: Seq<char>) -> bool {
    forall|i: int| 0 <= i < s.len() ==> is_hex(#[trigger] s[i])
}

/// The part of `s` after the first `sep` and before the second one.
pub open spec fn second_piece(s: Seq<char>, sep: Seq<char>) -> Option<Seq<char>> {
    let i = text::find_from(s, sep, 0);
    if i < 0 {
        None
    } else {
        let rest = s.skip(i + sep.len());
        let j = text::find_from(rest, sep, 0);
        Some(
            if j < 0 {
                rest
            } else {
                rest.take(j)
            },
        )
    }
}

/// `VID_XXXX&PID_YYYY` in capitals, as USB devices and receivers write it.
pub open spec fn usb_ids(upper: Seq<char>) -> Option<(Seq<char>, Seq<char>)> {
    match second_piece(upper, "VID_"@) {
        None => None,
        Some(rest) => {
            if rest.len() >= 13 && all_hex(rest.take(4)) && rest.subrange(4, 9) == "&PID_"@
                && all_hex(rest.subrange(9, 13)) {
                Some((rest.take(4), rest.subrange(9, 13)))
            } else {
                None
            }
        },
    }
}

/// Whether `c` ends a field of a Bluetooth path.
pub open spec fn field_end(c: char) -> bool {
    c == '&' || c == '_'
}

/// The length of the field that `s` begins with.
pub open spec fn field_len(s: Seq<char>) -> nat
    decreases s.len(),
{
    if s.len() == 0 || field_end(s[0]) {
        0
    } else {
        1 + field_len(s.drop_first())
    }
}

/// Whether `c` takes one byte.
pub open spec fn is_ascii(c: char) -> bool {
    c as u32 <= 127
}

/// The vendor id in a vendor field: four digits, alone or after a vendor id source of
/// at least two bytes.
pub open spec fn vendor_of(field: Seq<char>) -> Option<Seq<char>> {
    let n = field.len() as int;
    if n < 4 || !all_hex(field.skip(n - 4)) {
        None
    } else if n == 5 && is_ascii(field[0]) {
        None
    } else {
        Some(field.skip(n - 4))
    }
}

/// `VID&<source><VID>` and a product field in capitals, as Bluetooth devices write it.
pub open spec fn bluetooth_ids(upper: Seq<char>) -> Option<(Seq<char>, Seq<char>)> {
    match second_piece(upper, "VID&"@) {
        None => None,
        Some(rest) => {
            let n = field_len(rest) as int;
            let after = rest.skip(n);
            if after.len() < 5 || after.subrange(1, 4) != "PID"@ || !field_end(after[4]) {
                None
            } else {
                let p = after.skip(5);
                let m = field_len(p) as int;
                match vendor_of(rest.take(n)) {
                    Some(vid) if m >= 4 && all_hex(p.take(4)) => Some((vid, p.take(4))),
                    _ => None,
                }
            }
        },
    }
}

/// Vendor and product id of a device path, in capital hexadecimal digits.
pub open spec fn vid_pid(path: Seq<char>) -> Option<(Seq<char>, Seq<char>)> {
    let u = text::uppered(path);
    match usb_ids(u) {
        Some(p) => Some(p),
        None => bluetooth_ids(u),
    }
}

proof fn lemma_field_len(s: Seq<char>)
    ensures
        field_len(s) <= s.len(),
        field_len(s) < s.len() ==> field_end(s[field_len(s) as int]),
        forall|i: int| 0 <= i < field_len(s) ==> !field_end(#[trigger] s[i]),
    decreases s.len(),
{
    if s.len() > 0 && !field_end(s[0]) {
        let t = s.drop_first();
        lemma_field_len(t);
        assert forall|i: int| 0 <= i < field_len(s) implies !field_end(#[trigger] s[i]) by {
            if i > 0 {
                assert(t[i - 1] == s[i]);
            }
        }
    }
}

fn is_hex_char(c: char) -> (r: bool)
    ensures
        r == is_hex(c),
{
    ('0' <= c && c <= '9') || ('a' <= c && c <= 'f') || ('A' <= c && c <= 'F')
}

/// Whether `v[from..to]` is made of hexadecimal digits only.
fn hex_range(v: &Vec<char>, from: usize, to: usize) -> (r: bool)
    requires
        from <= to <= v@.len(),
    ensures
        r == all_hex(v@.subrange(from as int, to as int)),
{
    let mut i: usize = from;
    while i < to
        invariant
            from <= i <= to <= v@.len(),
            forall|j: int| from <= j < i ==> is_hex(#[trigger] v@[j]),
        decreases to - i,
    {
        if !is_hex_char(v[i]) {
            assert(v@.subrange(from as int, to as int)[i - from] == v@[i as int]);
            return false;
        }
        i = i + 1;
    }
    true
}

fn piece_after(v: &Vec<char>, sep: &str) -> (r: Option<Vec<char>>)
    ensures
        match r {
            Some(p) => second_piece(v@, sep@) == Some(p@),
            None => second_piece(v@, sep@) is None,
        },
{
    let q = chars_of(sep);
    match vec_find(v, &q, 0) {
        None => None,
        Some(i) => {
            proof {
                text::lemma_find_from(v@, q@, 0);
                assert(i + q.len() <= v.len());
            }
            let rest = chars_of(string_of_range(v, i + q.len(), v.len()).as_str());
            assert(rest@ =~= v@.skip(i + q@.len()));
            match vec_find(&rest, &q, 0) {
                None => Some(rest),
                Some(j) => {
                    proof {
                        text::lemma_find_from(rest@, q@, 0);
                    }
                    let p = chars_of(string_of_range(&rest, 0, j).as_str());
                    assert(p@ =~= rest@.take(j as int));
                    Some(p)
                },
            }
        },
    }
}

fn parse_usb_style(upper: &Vec<char>) -> (r: Option<(String, String)>)
    ensures
        match r {
            Some(p) => usb_ids(upper@) == Some((p.0@, p.1@)),
            None => usb_ids(upper@) is None,
        },
{
    match piece_after(upper, "VID_") {
        None => None,
        Some(rest) => {
            let mark = chars_of("&PID_");
            proof {
                reveal_strlit("&PID_");
            }
            if rest.len() < 13 {
                return None;
            }
            assert(rest@.subrange(0, 4) =~= rest@.take(4));
            if !hex_range(&rest, 0, 4) || !text::vec_occurs_at(&rest, &mark, 4) || !hex_range(
                &rest,
                9,
                13,
            ) {
                return None;
            }
            Some((string_of_range(&rest, 0, 4), string_of_range(&rest, 9, 13)))
        },
    }
}

fn count_field(v: &Vec<char>, from: usize) -> (r: usize)
    requires
        from <= v@.len(),
    ensures
        from <= r <= v@.len(),
        r - from == field_len(v@.skip(from as int)),
{
    let mut i: usize = from;
    while i < v.len() && v[i] != '&' && v[i] != '_'
        invariant
            from <= i <= v@.len(),
            field_len(v@.skip(from as int)) == (i - from) + field_len(v@.skip(i as int)),
        decreases v.len() - i,
    {
        assert(v@.skip(i as int).drop_first() =~= v@.skip(i as int + 1));
        i = i + 1;
    }
    i
}

fn parse_bluetooth_style(upper: &Vec<char>) -> (r: Option<(String, String)>)
    ensures
        match r {
            Some(p) => bluetooth_ids(upper@) == Some((p.0@, p.1@)),
            None => bluetooth_ids(upper@) is None,
        },
{
    match piece_after(upper, "VID&") {
        None => None,
        Some(rest) => {
            let n = count_field(&rest, 0);
            assert(rest@.skip(0) =~= rest@);
            let ghost after = rest@.skip(n as int);
            if rest.len() - n < 5 {
                return None;
            }
            let mark = chars_of("PID");
            proof {
                reveal_strlit("PID");
                assert(after.subrange(1, 4) =~= rest@.subrange(n + 1, n + 4));
                assert(after[4] == rest@[n + 4]);
            }
            if !text::vec_occurs_at(&rest, &mark, n + 1) || !(rest[n + 4] == '&' || rest[n + 4]
                == '_') {
                return None;
            }
            let m = count_field(&rest, n + 5);
            let ghost p = after.skip(5);
            assert(p =~= rest@.skip(n + 5));
            let ghost field = rest@.take(n as int);
            if n < 4 || !hex_range(&rest, n - 4, n) || (n == 5 && rest[0] as u32 <= 127) {
                assert(n >= 4 ==> rest@.subrange(n - 4, n as int) =~= field.skip(n - 4));
                assert(vendor_of(field) is None);
                return None;
            }
            assert(rest@.subrange(n - 4, n as int) =~= field.skip(n - 4));
            if m - (n + 5) < 4 {
                return None;
            }
            assert(rest@.subrange(n + 5, n + 9) =~= p.take(4)) by {
                lemma_field_len(p);
            }
            if !hex_range(&rest, n + 5, n + 9) {
                return None;
            }
            Some((string_of_range(&rest, n - 4, n), string_of_range(&rest, n + 5, n + 9)))
        },
    }
}

/// Vendor and product id of a device instance path, in capital hexadecimal digits;
/// nothing where the path has neither the USB nor the Bluetooth shape.
pub fn parse_vid_pid(path: &str) -> (r: Option<(String, String)>)
    ensures
        match r {
            Some(p) => vid_pid(path@) == Some((p.0@, p.1@)),
            None => vid_pid(path@) is None,
        },
{
    let upper = chars_of(text::to_upper(path).as_str());
    match parse_usb_style(&upper) {
        Some(p) => Some(p),
        None => parse_bluetooth_style(&upper),
    }
}

/// The name shown for a device that has no registered name.
pub open spec fn fallback_name(key: Seq<char>) -> Seq<char> {
    match vid_pid(key) {
        Some((vid, pid)) => "HID 设备 · "@ + vid + "/"@ + pid,
        None => {
            if text::starts(key, "device-id:"@) {
                "未知设备 · 归档 #"@ + key.skip("device-id:"@.len() as int)
            } else if key.len() > 40 {
                key.take(40) + "…"@
            } else {
                key
            }
        },
    }
}

/// The name shown for a device that has no registered name: by its vendor and product
/// id, else as an archived device, else its path cut to 40 characters.
pub fn fallback_device_name(device_key: &str) -> (r: String)
    ensures
        r@ == fallback_name(device_key@),
{
    match parse_vid_pid(device_key) {
        Some((vid, pid)) => "HID 设备 · ".to_owned().concat(vid.as_str()).concat("/").concat(
            pid.as_str(),
        ),
        None => match text::strip_prefix(device_key, ARCHIVED_DEVICE_KEY_PREFIX) {
            Some(id) => cat2("未知设备 · 归档 #", id.as_str()),
            None => {
                let v = chars_of(device_key);
                if v.len() > 40 {
                    let p = string_of_range(&v, 0, 40);
                    assert(p@ =~= device_key@.take(40));
                    cat2(p.as_str(), "…")
                } else {
                    device_key.to_owned()
                }
            },
        },
    }
}

/// The number of ASCII letters and digits that `s` begins with.
pub open spec fn alnum_len(s: Seq<char>) -> nat
    decreases s.len(),
{
    if s.len() == 0 || !is_alnum(s[0]) {
        0
    } else {
        1 + alnum_len(s.drop_first())
    }
}

/// Whether `c` is an ASCII letter or digit.
pub open spec fn is_alnum(c: char) -> bool {
    '0' <= c <= '9' || 'a' <= c <= 'z' || 'A' <= c <= 'Z'
}

/// The interface after the first `&` + `mark` of a path in capitals.
pub open spec fn tag_by(upper: Seq<char>, mark: Seq<char>) -> Option<Seq<char>> {
    let i = text::find_from(upper, seq!['&'] + mark, 0);
    if i < 0 {
        None
    } else {
        let tail = upper.skip(i + 1 + mark.len());
        let n = alnum_len(tail);
        if n == 0 {
            None
        } else {
            Some(mark + tail.take(n as int))
        }
    }
}

/// The interface or collection segment of a device path.
pub open spec fn tag_of(path: Seq<char>) -> Option<Seq<char>> {
    let u = text::uppered(path);
    match tag_by(u, "MI_"@) {
        Some(t) => Some(t),
        None => tag_by(u, "COL"@),
    }
}

/// What devices of the same model and interface have in common.
pub open spec fn model_of(path: Seq<char>) -> Option<Seq<char>> {
    match vid_pid(path) {
        None => None,
        Some((vid, pid)) => {
            let base = vid + "/"@ + pid;
            match tag_of(path) {
                Some(t) => Some(base + "#"@ + t),
                None => Some(base),
            }
        },
    }
}

proof fn lemma_alnum_len(s: Seq<char>)
    ensures
        alnum_len(s) <= s.len(),
    decreases s.len(),
{
    if s.len() > 0 && is_alnum(s[0]) {
        lemma_alnum_len(s.drop_first());
    }
}

fn find_tag(upper: &Vec<char>, mark: &str) -> (r: Option<String>)
    ensures
        match r {
            Some(t) => tag_by(upper@, mark@) == Some(t@),
            None => tag_by(upper@, mark@) is None,
        },
{
    let m = chars_of(mark);
    let full = chars_of(text::cat2_char('&', mark).as_str());
    match vec_find(upper, &full, 0) {
        None => None,
        Some(i) => {
            proof {
                text::lemma_find_from(upper@, full@, 0);
                assert(i + full.len() <= upper.len());
            }
            let from = i + full.len();
            let mut k: usize = from;
            let ghost tail = upper@.skip(from as int);
            assert(tail == upper@.skip(i + 1 + mark@.len()));
            while k < upper.len() && (('0' <= upper[k] && upper[k] <= '9') || ('a' <= upper[k]
                && upper[k] <= 'z') || ('A' <= upper[k] && upper[k] <= 'Z'))
                invariant
                    from <= k <= upper@.len(),
                    tail == upper@.skip(from as int),
                    alnum_len(tail) == (k - from) + alnum_len(upper@.skip(k as int)),
                decreases upper.len() - k,
            {
                assert(upper@.skip(k as int).drop_first() =~= upper@.skip(k as int + 1));
                k = k + 1;
            }
            if k == from {
                None
            } else {
                let value = string_of_range(upper, from, k);
                assert(value@ =~= tail.take(k - from));
                Some(cat2(mark, value.as_str()))
            }
        },
    }
}

/// The interface segment of a device path: `MI_00` of a USB composite device or
/// `COL03` of a Bluetooth collection.
pub fn interface_tag(device_key: &str) -> (r: Option<String>)
    ensures
        match r {
            Some(t) => tag_of(device_key@) == Some(t@),
            None => tag_of(device_key@) is None,
        },
{
    let upper = chars_of(text::to_upper(device_key).as_str());
    match find_tag(&upper, "MI_") {
        Some(t) => Some(t),
        None => find_tag(&upper, "COL"),
    }
}

/// The key under which devices of the same model and interface share an alias.
pub fn model_key(device_key: &str) -> (r: Option<String>)
    ensures
        match r {
            Some(m) => model_of(device_key@) == Some(m@),
            None => model_of(device_key@) is None,
        },
{
    match parse_vid_pid(device_key) {
        None => None,
        Some((vid, pid)) => {
            let base = text::cat3(vid.as_str(), "/", pid.as_str());
            match interface_tag(device_key) {
                Some(t) => Some(text::cat3(base.as_str(), "#", t.as_str())),
                None => Some(base),
            }
        },
    }
}

/// The hardware identity in a device instance path: the middle segment of
/// `enumerator#hardware#instance`; any other key is its own identity.
pub open spec fn identity_of(key: Seq<char>) -> Seq<char> {
    let parts = text::split_on(key, '#');
    if parts.len() >= 3 && !text::is_blank(parts[1]) {
        parts[1]
    } else {
        key
    }
}

/// The hardware identity in a device instance path.
pub fn hardware_identity_key(device_key: &str) -> (r: String)
    ensures
        r@ == identity_of(device_key@),
{
    let parts = text::split_char(device_key, '#');
    let ghost p = text::split_on(device_key@, '#');
    assert(p.len() == parts@.len());
    if parts.len() >= 3 {
        assert(p[1] == parts@[1]@);
        if !text::blank(parts[1].as_str()) {
            return parts[1].clone();
        }
    }
    device_key.to_owned()
}

/// An identity is its own identity.
pub proof fn lemma_identity_idempotent(key: Seq<char>)
    ensures
        identity_of(identity_of(key)) == identity_of(key),
{
    let parts = text::split_on(key, '#');
    text::lemma_split_on(key, '#');
    if parts.len() >= 3 && !text::is_blank(parts[1]) {
        text::lemma_split_single(parts[1], '#');
    }
}

proof fn lemma_no_later_mark(rest: Seq<char>, n: int)
    requires
        0 <= n <= rest.len(),
        forall|i: int| 0 <= i < n ==> #[trigger] rest[i] != 'V',
    ensures
        text::find_from(rest, "VID_"@, 0) < 0 || text::find_from(rest, "VID_"@, 0) >= n,
{
    reveal_strlit("VID_");
    text::lemma_find_from(rest, "VID_"@, 0);
    let j = text::find_from(rest, "VID_"@, 0);
    if 0 <= j < n {
        assert(rest.subrange(j, j + 4) == "VID_"@);
        assert(rest.subrange(j, j + 4)[0] == 'V');
        assert(rest[j] == 'V');
    }
}

/// The numbers of vendor and product stand behind their first marks in the path of a USB
/// device, four digits each.
pub proof fn lemma_usb_ids_are_found(
    front: Seq<char>,
    vid: Seq<char>,
    pid: Seq<char>,
    rest: Seq<char>,
)
    requires
        vid.len() == 4 && all_hex(vid),
        pid.len() == 4 && all_hex(pid),
        ({
            let s = front + "VID_"@ + vid + "&PID_"@ + pid + rest;
            text::uppered(s) == s && text::find_from(s, "VID_"@, 0) == front.len()
        }),
    ensures
        vid_pid(front + "VID_"@ + vid + "&PID_"@ + pid + rest) == Some((vid, pid)),
{
    reveal_strlit("VID_");
    reveal_strlit("&PID_");
    let s = front + "VID_"@ + vid + "&PID_"@ + pid + rest;
    let i = front.len() as int;
    let tail = s.skip(i + 4);
    assert(tail =~= vid + "&PID_"@ + pid + rest);
    assert forall|k: int| 0 <= k < 13 implies #[trigger] tail[k] != 'V' by {
        if k < 4 {
            assert(tail[k] == vid[k]);
            assert(is_hex(vid[k]));
        } else if k < 9 {
            assert(tail[k] == "&PID_"@[k - 4]);
        } else {
            assert(tail[k] == pid[k - 9]);
            assert(is_hex(pid[k - 9]));
        }
    }
    lemma_no_later_mark(tail, 13);
    let j = text::find_from(tail, "VID_"@, 0);
    let piece = if j < 0 {
        tail
    } else {
        tail.take(j)
    };
    assert(second_piece(s, "VID_"@) == Some(piece));
    text::lemma_find_from(tail, "VID_"@, 0);
    assert(piece.len() >= 13);
    assert(piece.take(4) =~= vid);
    assert(piece.subrange(4, 9) =~= "&PID_"@);
    assert(piece.subrange(9, 13) =~= pid);
}

/// What identifies a device is the second part of its path, where there are three parts and
/// it is not blank; whatever stands before and behind it. Any other key is its own.
pub proof fn lemma_identity_is_the_second_part(a: Seq<char>, b: Seq<char>, c: Seq<char>)
    requires
        !a.contains('#'),
        !b.contains('#'),
        !c.contains('#'),
    ensures
        !text::is_blank(b) ==> identity_of(a + seq!['#'] + b + seq!['#'] + c) == b,
        text::is_blank(b) ==> identity_of(a + seq!['#'] + b + seq!['#'] + c) == a + seq!['#'] + b
            + seq!['#'] + c,
        identity_of(a) == a,
        identity_of(a + seq!['#'] + b) == a + seq!['#'] + b,
{
    let u = seq!['#'];
    text::lemma_split_single(a, '#');
    text::lemma_split_last(a, '#', b);
    text::lemma_split_last(a + u + b, '#', c);
    assert(text::split_on(a + u + b + u + c, '#') =~= seq![a, b, c]);
}

/// A device that is told by its numbers is named by them; one of an archive by its number
/// there; any other by the beginning of its key.
pub proof fn lemma_fallback_names(key: Seq<char>)
    ensures
        vid_pid(key) matches Some(p) ==> fallback_name(key) == "HID 设备 · "@ + p.0 + "/"@ + p.1,
        vid_pid(key) is None && !text::starts(key, "device-id:"@) && key.len() <= 40
            ==> fallback_name(key) == key,
        vid_pid(key) is None && !text::starts(key, "device-id:"@) && key.len() > 40
            ==> fallback_name(key) == key.take(40) + "…"@,
{
}

/// Two paths that tell the same numbers and the same interface are of one model, and paths
/// that tell no numbers are of none.
pub proof fn lemma_model(a: Seq<char>, b: Seq<char>)
    ensures
        vid_pid(a) == vid_pid(b) && tag_of(a) == tag_of(b) ==> model_of(a) == model_of(b),
        model_of(a) is Some <==> vid_pid(a) is Some,
        vid_pid(a) matches Some(p) ==> tag_of(a) is None ==> model_of(a) == Some(
            p.0 + "/"@ + p.1,
        ),
        vid_pid(a) matches Some(p) ==> tag_of(a) matches Some(t) ==> model_of(a) == Some(
            p.0 + "/"@ + p.1 + "#"@ + t,
        ),
{
}

/// The numbers of vendor and product stand behind their first marks in the path of a
/// Bluetooth device: the vendor's are the last four digits of a longer field.
pub proof fn lemma_bluetooth_ids_are_found(
    front: Seq<char>,
    source: Seq<char>,
    vid: Seq<char>,
    pid: Seq<char>,
    rest: Seq<char>,
)
    requires
        source.len() >= 2 && all_hex(source),
        vid.len() == 4 && all_hex(vid),
        pid.len() == 4 && all_hex(pid),
        ({
            let s = front + "VID&"@ + source + vid + "_PID&"@ + pid + rest;
            &&& text::uppered(s) == s
            &&& text::find_from(s, "VID&"@, 0) == front.len()
            &&& text::find_from(s, "VID_"@, 0) < 0
        }),
    ensures
        vid_pid(front + "VID&"@ + source + vid + "_PID&"@ + pid + rest) == Some((vid, pid)),
{
    reveal_strlit("VID&");
    reveal_strlit("VID_");
    reveal_strlit("_PID&");
    reveal_strlit("PID");
    let s = front + "VID&"@ + source + vid + "_PID&"@ + pid + rest;
    let i = front.len() as int;
    let tail = s.skip(i + 4);
    let f = source + vid;
    assert(tail =~= f + "_PID&"@ + pid + rest);
    let n = f.len() as int;
    assert forall|k: int| 0 <= k < f.len() implies is_hex(#[trigger] f[k]) by {
        if k < source.len() {
            assert(f[k] == source[k]);
        } else {
            assert(f[k] == vid[k - source.len()]);
        }
    }
    assert forall|k: int| 0 <= k < n + 9 implies #[trigger] tail[k] != 'V' by {
        if k < n {
            assert(tail[k] == f[k]);
            assert(is_hex(f[k]));
        } else if k < n + 5 {
            assert(tail[k] == "_PID&"@[k - n]);
        } else {
            assert(tail[k] == pid[k - n - 5]);
            assert(is_hex(pid[k - n - 5]));
        }
    }
    text::lemma_find_from(tail, "VID&"@, 0);
    let j = text::find_from(tail, "VID&"@, 0);
    if 0 <= j < n + 9 {
        assert(tail.subrange(j, j + 4)[0] == 'V');
        assert(tail[j] == 'V');
    }
    let piece = if j < 0 {
        tail
    } else {
        tail.take(j)
    };
    assert(second_piece(s, "VID&"@) == Some(piece));
    assert(piece.len() >= n + 9);
    assert(piece.take(n) =~= f);
    assert(piece[n] == '_');
    lemma_field_is(piece, n);
    let after = piece.skip(n);
    assert(after.subrange(1, 4) =~= "PID"@);
    assert(after[4] == '&');
    let p = after.skip(5);
    assert(p.take(4) =~= pid);
    lemma_field_at_least(p, 4);
    assert(f.skip(n - 4) =~= vid);
}

proof fn lemma_field_is(s: Seq<char>, n: int)
    requires
        0 <= n < s.len(),
        field_end(s[n]),
        forall|k: int| 0 <= k < n ==> is_hex(#[trigger] s[k]),
    ensures
        field_len(s) == n,
    decreases n,
{
    if n > 0 {
        assert(is_hex(s[0]));
        let t = s.drop_first();
        assert forall|k: int| 0 <= k < n - 1 implies is_hex(#[trigger] t[k]) by {
            assert(t[k] == s[k + 1]);
        }
        lemma_field_is(t, n - 1);
    }
}

proof fn lemma_field_at_least(s: Seq<char>, n: int)
    requires
        0 <= n <= s.len(),
        forall|k: int| 0 <= k < n ==> is_hex(#[trigger] s.take(n)[k]),
    ensures
        field_len(s) >= n,
    decreases n,
{
    if n > 0 {
        assert(is_hex(s.take(n)[0]));
        let t = s.drop_first();
        assert forall|k: int| 0 <= k < n - 1 implies is_hex(#[trigger] t.take(n - 1)[k]) by {
            assert(t.take(n - 1)[k] == s.take(n)[k + 1]);
        }
        lemma_field_at_least(t, n - 1);
    }
}

proof fn lemma_alnum_is(d: Seq<char>, rest: Seq<char>)
    requires
        forall|i: int| 0 <= i < d.len() ==> is_alnum(#[trigger] d[i]),
        rest.len() > 0 ==> !is_alnum(rest[0]),
    ensures
        alnum_len(d + rest) == d.len(),
    decreases d.len(),
{
    let s = d + rest;
    if d.len() == 0 {
        assert(s =~= rest);
    } else {
        assert(is_alnum(d[0]));
        let t = d.drop_first();
        assert forall|i: int| 0 <= i < t.len() implies is_alnum(#[trigger] t[i]) by {
            assert(t[i] == d[i + 1]);
        }
        lemma_alnum_is(t, rest);
        assert(s.drop_first() =~= t + rest);
    }
}

/// The interface of a device stands behind its first mark, up to the first character that is
/// neither a letter nor a digit.
pub proof fn lemma_interface_is_found(front: Seq<char>, d: Seq<char>, rest: Seq<char>)
    requires
        d.len() > 0,
        forall|i: int| 0 <= i < d.len() ==> is_alnum(#[trigger] d[i]),
        rest.len() > 0 ==> !is_alnum(rest[0]),
        ({
            let s = front + "&MI_"@ + d + rest;
            text::uppered(s) == s && text::find_from(s, "&MI_"@, 0) == front.len()
        }),
    ensures
        tag_of(front + "&MI_"@ + d + rest) == Some("MI_"@ + d),
{
    reveal_strlit("&MI_");
    reveal_strlit("MI_");
    let s = front + "&MI_"@ + d + rest;
    assert("&MI_"@ =~= seq!['&'] + "MI_"@);
    let i = front.len() as int;
    let tail = s.skip(i + 1 + "MI_"@.len());
    assert(tail =~= d + rest);
    lemma_alnum_is(d, rest);
    assert(tail.take(d.len() as int) =~= d);
}

/// The vendor's digits are the last four of a field, whatever stands before them but a
/// single character of ASCII; a field that does not end in four digits names no vendor.
pub proof fn lemma_vendor_field(front: Seq<char>, last: Seq<char>)
    requires
        last.len() == 4,
    ensures
        !all_hex(last) || (front.len() == 1 && (front[0] as u32) < 128) ==> vendor_of(front + last)
            is None,
        all_hex(last) && !(front.len() == 1 && (front[0] as u32) < 128) ==> vendor_of(front + last)
            == Some(last),
        vendor_of(last.drop_first()) is None,
{
    let f = front + last;
    assert(f.skip(f.len() - 4) =~= last);
    if front.len() == 1 {
        assert(f[0] == front[0]);
    }
}

} // verus!
