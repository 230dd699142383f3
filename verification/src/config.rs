//! Configuration: typed access to the settings of an INI file, with defaults for what
//! the file leaves out.
use vstd::prelude::*;
use vstd::string::*;

use crate::text;
use crate::text::{chars_of, str_eq, string_of_range, trim};
use crate::textmap;
use crate::textmap::{MapKey, Ordered, SortedMap};

verus! {

/// The place of a section in the file: known sections come first, in a fixed order.
pub open spec fn rank(s: Seq<char>) -> int {
    if s == "database"@ {
        0
    } else if s == "stats"@ {
        1
    } else if s == "listener"@ {
        2
    } else if s == "gui"@ {
        3
    } else if s == "hotkey"@ {
        4
    } else if s == "floating"@ {
        5
    } else if s == "pomodoro"@ {
        6
    } else if s == "rest"@ {
        7
    } else {
        8
    }
}

fn section_rank(s: &str) -> (r: u8)
    ensures
        r == rank(s@),
{
    if str_eq(s, "database") {
        0
    } else if str_eq(s, "stats") {
        1
    } else if str_eq(s, "listener") {
        2
    } else if str_eq(s, "gui") {
        3
    } else if str_eq(s, "hotkey") {
        4
    } else if str_eq(s, "floating") {
        5
    } else if str_eq(s, "pomodoro") {
        6
    } else if str_eq(s, "rest") {
        7
    } else {
        8
    }
}

/// Settings are ordered as they stand in the file: by section, then by key.
impl Ordered for (Seq<char>, Seq<char>) {
    open spec fn le(self, other: Self) -> bool {
        if rank(self.0) != rank(other.0) {
            rank(self.0) < rank(other.0)
        } else if self.0 != other.0 {
            text::lex_le(self.0, other.0)
        } else {
            text::lex_le(self.1, other.1)
        }
    }

    proof fn lemma_total(self, other: Self) {
        text::lemma_lex_total(self.0, other.0);
        text::lemma_lex_total(self.1, other.1);
    }

    proof fn lemma_trans(self, mid: Self, other: Self) {
        if rank(self.0) == rank(mid.0) && rank(mid.0) == rank(other.0) {
            if self.0 == mid.0 && mid.0 == other.0 {
                text::lemma_lex_trans(self.1, mid.1, other.1);
            } else if self.0 != mid.0 && mid.0 != other.0 {
                text::lemma_lex_trans(self.0, mid.0, other.0);
                if self.0 == other.0 {
                    text::lemma_lex_total(self.0, mid.0);
                }
            }
        }
    }
}

/// The section and the key of a setting.
pub type SettingKey = (String, String);

impl MapKey for (String, String) {
    fn key_le(&self, other: &Self) -> (r: bool) {
        let a = section_rank(self.0.as_str());
        let b = section_rank(other.0.as_str());
        if a != b {
            a < b
        } else if !str_eq(self.0.as_str(), other.0.as_str()) {
            text::str_le(self.0.as_str(), other.0.as_str())
        } else {
            text::str_le(self.1.as_str(), other.1.as_str())
        }
    }

    fn key_eq(&self, other: &Self) -> (r: bool) {
        str_eq(self.0.as_str(), other.0.as_str()) && str_eq(self.1.as_str(), other.1.as_str())
    }

    fn key_dup(&self) -> (r: Self) {
        (self.0.clone(), self.1.clone())
    }
}

/// The settings of a file.
pub type Settings = SortedMap<(String, String)>;

/// The value of each setting.
pub type SettingsModel = Map<(Seq<char>, Seq<char>), Seq<char>>;

/// `m` with one more setting.
pub open spec fn with(m: SettingsModel, section: &str, key: &str, value: &str) -> SettingsModel {
    m.insert((section@, key@), value@)
}

fn put(m: &mut Settings, section: &str, key: &str, value: &str)
    requires
        old(m).wf(),
    ensures
        final(m).wf(),
        final(m)@ == old(m)@.insert((section@, key@), value@),
{
    m.insert((section.to_owned(), key.to_owned()), value.to_owned());
}

/// The default settings.
pub open spec fn defaults() -> SettingsModel {
    let m = Map::empty();
    let m = with(m, "database", "flush_interval", "10");
    let m = with(m, "database", "backup_on_exit", "true");
    let m = with(m, "database", "online_backup_interval_hours", "24");
    let m = with(m, "database", "max_backups", "5");
    let m = with(m, "database", "auto_vacuum_days", "7");
    let m = with(m, "database", "yearly_archive", "true");
    let m = with(m, "stats", "cpm_window", "60");
    let m = with(m, "device_stats", "enabled", "true");
    let m = with(m, "app_stats", "enabled", "true");
    let m = with(m, "app_stats", "exclude", "");
    let m = with(m, "listener", "ignore_modifier_keys", "false");
    let m = with(m, "listener", "ignore_function_keys", "false");
    let m = with(m, "listener", "ignore_key_repeat", "true");
    let m = with(m, "listener", "key_repeat_stale_seconds", "15");
    let m = with(m, "listener", "mouse_enabled", "true");
    let m = with(m, "listener", "scroll_burst_window", "0.25");
    let m = with(m, "gui", "active_refresh_interval", "2");
    let m = with(m, "gui", "full_refresh_interval", "10");
    let m = with(m, "gui", "theme", "light");
    let m = with(m, "gui", "start_to_tray", "true");
    let m = with(m, "gui", "unload_hidden", "true");
    let m = with(m, "gui", "unload_hidden_delay", "60");
    let m = with(m, "gui", "floating_metric", "times");
    let m = with(m, "gui", "default_period", "-1");
    let m = with(m, "hotkey", "enabled", "false");
    let m = with(m, "hotkey", "toggle_window", "ctrl+shift+f");
    let m = with(m, "floating", "enabled", "true");
    let m = with(m, "pomodoro", "work_minutes", "25");
    let m = with(m, "pomodoro", "break_minutes", "5");
    let m = with(m, "pomodoro", "auto_break", "true");
    let m = with(m, "rest", "enabled", "true");
    let m = with(m, "rest", "window_minutes", "30");
    let m = with(m, "rest", "key_threshold", "10000");
    let m = with(m, "rest", "cooldown_minutes", "10");
    let m = with(m, "rest", "rest_seconds", "20");
    let m = with(m, "rest", "check_interval", "10");
    m
}

/// The default settings.
pub fn default_config() -> (m: Settings)
    ensures
        m.wf(),
        m@ == defaults(),
{
    let mut m: Settings = SortedMap::new();
    put(&mut m, "database", "flush_interval", "10");
    put(&mut m, "database", "backup_on_exit", "true");
    put(&mut m, "database", "online_backup_interval_hours", "24");
    put(&mut m, "database", "max_backups", "5");
    put(&mut m, "database", "auto_vacuum_days", "7");
    put(&mut m, "database", "yearly_archive", "true");
    put(&mut m, "stats", "cpm_window", "60");
    put(&mut m, "device_stats", "enabled", "true");
    put(&mut m, "app_stats", "enabled", "true");
    put(&mut m, "app_stats", "exclude", "");
    put(&mut m, "listener", "ignore_modifier_keys", "false");
    put(&mut m, "listener", "ignore_function_keys", "false");
    put(&mut m, "listener", "ignore_key_repeat", "true");
    put(&mut m, "listener", "key_repeat_stale_seconds", "15");
    put(&mut m, "listener", "mouse_enabled", "true");
    put(&mut m, "listener", "scroll_burst_window", "0.25");
    put(&mut m, "gui", "active_refresh_interval", "2");
    put(&mut m, "gui", "full_refresh_interval", "10");
    put(&mut m, "gui", "theme", "light");
    put(&mut m, "gui", "start_to_tray", "true");
    put(&mut m, "gui", "unload_hidden", "true");
    put(&mut m, "gui", "unload_hidden_delay", "60");
    put(&mut m, "gui", "floating_metric", "times");
    put(&mut m, "gui", "default_period", "-1");
    put(&mut m, "hotkey", "enabled", "false");
    put(&mut m, "hotkey", "toggle_window", "ctrl+shift+f");
    put(&mut m, "floating", "enabled", "true");
    put(&mut m, "pomodoro", "work_minutes", "25");
    put(&mut m, "pomodoro", "break_minutes", "5");
    put(&mut m, "pomodoro", "auto_break", "true");
    put(&mut m, "rest", "enabled", "true");
    put(&mut m, "rest", "window_minutes", "30");
    put(&mut m, "rest", "key_threshold", "10000");
    put(&mut m, "rest", "cooldown_minutes", "10");
    put(&mut m, "rest", "rest_seconds", "20");
    put(&mut m, "rest", "check_interval", "10");
    m
}

/// The settings that nothing reads any more.
pub open spec fn deprecated(s: Seq<char>, k: Seq<char>) -> bool {
    ||| s == "stats"@ && k == "today_count_cache_ttl"@
    ||| s == "gui"@ && (k == "refresh_interval"@ || k == "show_first_run_tip"@ || k
        == "show_trend_chart"@ || k == "show_key_groups"@ || k == "font"@)
    ||| s == "floating"@ && k == "opacity"@
    ||| s == "tray"@ && k == "tooltip_interval"@
    ||| s == "pomodoro"@ && k == "enabled"@
    ||| s == "database"@ && k == "batch_size"@
}

fn is_deprecated(s: &str, k: &str) -> (r: bool)
    ensures
        r == deprecated(s@, k@),
{
    (str_eq(s, "stats") && str_eq(k, "today_count_cache_ttl")) || (str_eq(s, "gui") && (str_eq(
        k,
        "refresh_interval",
    ) || str_eq(k, "show_first_run_tip") || str_eq(k, "show_trend_chart") || str_eq(
        k,
        "show_key_groups",
    ) || str_eq(k, "font"))) || (str_eq(s, "floating") && str_eq(k, "opacity")) || (str_eq(
        s,
        "tray",
    ) && str_eq(k, "tooltip_interval")) || (str_eq(s, "pomodoro") && str_eq(k, "enabled")) || (
    str_eq(s, "database") && str_eq(k, "batch_size"))
}

// ---------------------------------------------------------------------- INI text

/// What was read of an INI file so far.
pub struct IniState {
    /// The section that the following settings belong to.
    pub section: Option<Seq<char>>,
    pub values: SettingsModel,
}

/// `v` without the quotes around it.
pub open spec fn unquoted(v: Seq<char>) -> Seq<char> {
    if v.len() >= 2 && v[0] == '"' && v.last() == '"' {
        v.subrange(1, v.len() - 1)
    } else {
        v
    }
}

/// The effect of one line: blank lines and comments have none, `[name]` begins a
/// section, `key = value` sets a value in the current section.
pub open spec fn ini_line(st: IniState, line: Seq<char>) -> IniState {
    let l = text::trimmed(line);
    if l.len() == 0 || l[0] == '#' || l[0] == ';' {
        st
    } else if l[0] == '[' && l.last() == ']' {
        IniState { section: Some(text::trimmed(l.subrange(1, l.len() - 1))), values: st.values }
    } else {
        let e = text::find_from(l, seq!['='], 0);
        match st.section {
            Some(s) if e >= 0 => IniState {
                section: st.section,
                values: st.values.insert(
                    (s, text::trimmed(l.take(e))),
                    unquoted(text::trimmed(l.skip(e + 1))),
                ),
            },
            _ => st,
        }
    }
}

/// The effect of several lines.
pub open spec fn ini_lines(lines: Seq<Seq<char>>) -> IniState
    decreases lines.len(),
{
    if lines.len() == 0 {
        IniState { section: None, values: Map::empty() }
    } else {
        ini_line(ini_lines(lines.drop_last()), lines.last())
    }
}

/// `t` without a byte order mark at its front.
pub open spec fn without_bom(t: Seq<char>) -> Seq<char> {
    if t.len() > 0 && t[0] == '\u{feff}' {
        t.drop_first()
    } else {
        t
    }
}

/// The settings that an INI text holds.
pub open spec fn ini(t: Seq<char>) -> SettingsModel {
    ini_lines(text::split_on(without_bom(t), '\n')).values
}

/// `s` without a byte order mark at its front.
pub fn strip_bom(s: &str) -> (r: String)
    ensures
        r@ == without_bom(s@),
{
    let v = chars_of(s);
    if v.len() > 0 && v[0] == '\u{feff}' {
        let r = string_of_range(&v, 1, v.len());
        assert(r@ =~= s@.drop_first());
        r
    } else {
        s.to_owned()
    }
}

fn unquote(s: &str) -> (r: String)
    ensures
        r@ == unquoted(s@),
{
    let v = chars_of(s);
    if v.len() >= 2 && v[0] == '"' && v[v.len() - 1] == '"' {
        string_of_range(&v, 1, v.len() - 1)
    } else {
        s.to_owned()
    }
}

fn apply_line(section: &mut Option<String>, out: &mut Settings, line: &str)
    requires
        old(out).wf(),
    ensures
        final(out).wf(),
        ({
            let st = IniState {
                section: (match *old(section) {
                    Some(s) => Some(s@),
                    None => None,
                }),
                values: old(out)@,
            };
            let next = ini_line(st, line@);
            &&& final(out)@ == next.values
            &&& next.section == (match *final(section) {
                Some(s) => Some(s@),
                None => None,
            })
        }),
{
    let l = trim(line);
    let v = chars_of(l.as_str());
    if v.len() == 0 || v[0] == '#' || v[0] == ';' {
        return ;
    }
    if v[0] == '[' && v[v.len() - 1] == ']' {
        if v.len() == 1 {
            assert(v@[0] == ']');
        }
        let inner = string_of_range(&v, 1, v.len() - 1);
        *section = Some(trim(inner.as_str()));
        return ;
    }
    let eq = chars_of("=");
    proof {
        reveal_strlit("=");
        assert(eq@ =~= seq!['=']);
    }
    match text::vec_find(&v, &eq, 0) {
        None => {},
        Some(e) => {
            proof {
                text::lemma_find_from(v@, eq@, 0);
                assert(e + 1 <= v.len());
            }
            match section {
                None => {},
                Some(s) => {
                    let left = string_of_range(&v, 0, e);
                    let right = string_of_range(&v, e + 1, v.len());
                    assert(left@ =~= v@.take(e as int));
                    assert(right@ =~= v@.skip(e + 1));
                    let key = trim(left.as_str());
                    let val = unquote(trim(right.as_str()).as_str());
                    out.insert((s.clone(), key), val);
                },
            }
        },
    }
}

/// The settings that an INI text holds. A byte order mark at its front is ignored.
pub fn parse_ini(t: &str) -> (r: Settings)
    ensures
        r.wf(),
        r@ == ini(t@),
{
    let clean = strip_bom(t);
    let lines = text::split_char(clean.as_str(), '\n');
    let ghost all = text::split_on(without_bom(t@), '\n');
    let mut section: Option<String> = None;
    let mut out: Settings = SortedMap::new();
    let mut i: usize = 0;
    assert(ini_lines(all.take(0)).values =~= Map::<(Seq<char>, Seq<char>), Seq<char>>::empty());
    while i < lines.len()
        invariant
            i <= lines@.len(),
            all == text::views(lines@),
            out.wf(),
            out@ == ini_lines(all.take(i as int)).values,
            ini_lines(all.take(i as int)).section == (match section {
                Some(s) => Some(s@),
                None => None,
            }),
        decreases lines.len() - i,
    {
        proof {
            assert(all.take(i as int + 1).drop_last() =~= all.take(i as int));
            assert(all.take(i as int + 1).last() == lines@[i as int]@);
        }
        apply_line(&mut section, &mut out, lines[i].as_str());
        i = i + 1;
    }
    assert(all.take(i as int) =~= all);
    out
}

// ------------------------------------------------------------- loading and saving

/// The settings in memory, and those of the file that memory never had and that are
/// still in use: what is written must not lose what was added to the file by hand.
pub open spec fn merged(mem: SettingsModel, file: SettingsModel) -> SettingsModel {
    Map::new(
        |k: (Seq<char>, Seq<char>)|
            mem.contains_key(k) || (file.contains_key(k) && !deprecated(k.0, k.1)),
        |k: (Seq<char>, Seq<char>)|
            if mem.contains_key(k) {
                mem[k]
            } else {
                file[k]
            },
    )
}

/// The defaults with the settings of the file over them, without those that nothing
/// reads any more.
pub open spec fn loaded(file: SettingsModel) -> SettingsModel {
    Map::new(
        |k: (Seq<char>, Seq<char>)|
            !deprecated(k.0, k.1) && (file.contains_key(k) || defaults().contains_key(k)),
        |k: (Seq<char>, Seq<char>)|
            if file.contains_key(k) {
                file[k]
            } else {
                defaults()[k]
            },
    )
}

/// The entries of the file that were looked at so far.
spec fn seen(p: Seq<((Seq<char>, Seq<char>), Seq<char>)>, n: int, k: (Seq<char>, Seq<char>)) -> bool {
    exists|i: int| 0 <= i < n && (#[trigger] p[i]).0 == k
}

/// Adds the settings of the file that memory never had and that are still in use.
fn merge_unknown_keys(snapshot: &mut Settings, file: &Settings)
    requires
        old(snapshot).wf(),
        file.wf(),
    ensures
        final(snapshot).wf(),
        final(snapshot)@ == merged(old(snapshot)@, file@),
{
    let ghost mem = snapshot@;
    let ghost p = textmap::pairs(file.entries@);
    let mut i: usize = 0;
    while i < file.entries.len()
        invariant
            i <= file.entries@.len(),
            p == textmap::pairs(file.entries@),
            file.wf(),
            snapshot.wf(),
            forall|k: (Seq<char>, Seq<char>)| #[trigger]
                snapshot@.contains_key(k) <==> mem.contains_key(k) || (seen(p, i as int, k)
                    && !deprecated(k.0, k.1)),
            forall|k: (Seq<char>, Seq<char>)|
                snapshot@.contains_key(k) ==> #[trigger] snapshot@[k] == (if mem.contains_key(k) {
                    mem[k]
                } else {
                    file@[k]
                }),
        decreases file.entries.len() - i,
    {
        let ghost before = snapshot@;
        let section = file.entries[i].0.0.as_str();
        let key = file.entries[i].0.1.as_str();
        let ghost k0 = (section@, key@);
        proof {
            assert(p[i as int].0 == k0);
            textmap::lemma_place(p, i as int);
            assert forall|k: (Seq<char>, Seq<char>)| #[trigger]
                seen(p, i as int + 1, k) == (seen(p, i as int, k) || k == k0) by {
                if seen(p, i as int + 1, k) {
                    let j = choose|j: int| 0 <= j < i + 1 && (#[trigger] p[j]).0 == k;
                    if j < i {
                        assert(p[j].0 == k);
                    }
                }
                if seen(p, i as int, k) {
                    let j = choose|j: int| 0 <= j < i && (#[trigger] p[j]).0 == k;
                    assert(p[j].0 == k);
                }
            }
        }
        if !is_deprecated(section, key) {
            let full = (section.to_owned(), key.to_owned());
            if snapshot.get(&full).is_none() {
                snapshot.insert(full, file.entries[i].1.clone());
            }
        }
        i = i + 1;
    }
    proof {
        assert forall|k: (Seq<char>, Seq<char>)| #[trigger]
            snapshot@.contains_key(k) <==> merged(mem, file@).contains_key(k) by {
            if file@.contains_key(k) {
                let j = textmap::place(p, k);
                assert(p[j].0 == k);
                assert(seen(p, i as int, k));
            }
            if seen(p, i as int, k) {
                let j = choose|j: int| 0 <= j < i && (#[trigger] p[j]).0 == k;
                textmap::lemma_place(p, j);
            }
        }
        assert(snapshot@ =~= merged(mem, file@));
    }
}

/// Sets every setting of `file`.
fn override_with(values: &mut Settings, file: &Settings)
    requires
        old(values).wf(),
        file.wf(),
    ensures
        final(values).wf(),
        final(values)@ == old(values)@.union_prefer_right(file@),
{
    let ghost base = values@;
    let ghost p = textmap::pairs(file.entries@);
    let mut i: usize = 0;
    while i < file.entries.len()
        invariant
            i <= file.entries@.len(),
            p == textmap::pairs(file.entries@),
            file.wf(),
            values.wf(),
            forall|k: (Seq<char>, Seq<char>)| #[trigger]
                values@.contains_key(k) <==> base.contains_key(k) || seen(p, i as int, k),
            forall|k: (Seq<char>, Seq<char>)|
                values@.contains_key(k) ==> #[trigger] values@[k] == (if seen(p, i as int, k) {
                    file@[k]
                } else {
                    base[k]
                }),
        decreases file.entries.len() - i,
    {
        let full = (file.entries[i].0.0.clone(), file.entries[i].0.1.clone());
        let ghost k0 = full@;
        proof {
            assert(p[i as int].0 == k0);
            textmap::lemma_place(p, i as int);
            assert forall|k: (Seq<char>, Seq<char>)| #[trigger]
                seen(p, i as int + 1, k) == (seen(p, i as int, k) || k == k0) by {
                if seen(p, i as int + 1, k) {
                    let j = choose|j: int| 0 <= j < i + 1 && (#[trigger] p[j]).0 == k;
                    if j < i {
                        assert(p[j].0 == k);
                    }
                }
                if seen(p, i as int, k) {
                    let j = choose|j: int| 0 <= j < i && (#[trigger] p[j]).0 == k;
                    assert(p[j].0 == k);
                }
            }
        }
        values.insert(full, file.entries[i].1.clone());
        i = i + 1;
    }
    proof {
        let m = base.union_prefer_right(file@);
        assert forall|k: (Seq<char>, Seq<char>)| file@.contains_key(k) == #[trigger] seen(
            p,
            i as int,
            k,
        ) by {
            if file@.contains_key(k) {
                let j = textmap::place(p, k);
                assert(p[j].0 == k);
            }
            if seen(p, i as int, k) {
                let j = choose|j: int| 0 <= j < i && (#[trigger] p[j]).0 == k;
                textmap::lemma_place(p, j);
            }
        }
        assert forall|k: (Seq<char>, Seq<char>)| #[trigger]
            values@.contains_key(k) <==> m.contains_key(k) by {
            assert(file@.contains_key(k) == seen(p, i as int, k));
        }
        assert forall|k: (Seq<char>, Seq<char>)| values@.contains_key(k) implies values@[k]
            == m[k] by {
            assert(file@.contains_key(k) == seen(p, i as int, k));
        }
        assert(values@ =~= m);
    }
}

fn drop_key(m: &mut Settings, section: &str, key: &str)
    requires
        old(m).wf(),
    ensures
        final(m).wf(),
        final(m)@ == old(m)@.remove((section@, key@)),
{
    m.remove(&(section.to_owned(), key.to_owned()));
}

/// Takes out the settings that nothing reads any more.
fn drop_deprecated(m: &mut Settings)
    requires
        old(m).wf(),
    ensures
        final(m).wf(),
        forall|k: (Seq<char>, Seq<char>)| #[trigger]
            final(m)@.contains_key(k) <==> old(m)@.contains_key(k) && !deprecated(k.0, k.1),
        forall|k: (Seq<char>, Seq<char>)|
            final(m)@.contains_key(k) ==> #[trigger] final(m)@[k] == old(m)@[k],
{
    drop_key(m, "stats", "today_count_cache_ttl");
    drop_key(m, "gui", "refresh_interval");
    drop_key(m, "gui", "show_first_run_tip");
    drop_key(m, "gui", "show_trend_chart");
    drop_key(m, "gui", "show_key_groups");
    drop_key(m, "gui", "font");
    drop_key(m, "floating", "opacity");
    drop_key(m, "tray", "tooltip_interval");
    drop_key(m, "pomodoro", "enabled");
    drop_key(m, "database", "batch_size");
}

/// `key = value`.
pub open spec fn setting_line(key: Seq<char>, value: Seq<char>) -> Seq<char> {
    key + seq![' ', '=', ' '] + value
}

/// `[section]`.
pub open spec fn header_line(section: Seq<char>) -> Seq<char> {
    seq!['['] + section + seq![']']
}

/// The lines of a file: a header before the settings of each section, and a blank line
/// between sections.
pub open spec fn file_lines(p: Seq<((Seq<char>, Seq<char>), Seq<char>)>) -> Seq<Seq<char>>
    decreases p.len(),
{
    if p.len() == 0 {
        Seq::empty()
    } else {
        let r = file_lines(p.drop_last());
        let e = p.last();
        let opened = if p.len() == 1 {
            r.push(header_line(e.0.0))
        } else if p[p.len() - 2].0.0 != e.0.0 {
            r.push(Seq::empty()).push(header_line(e.0.0))
        } else {
            r
        };
        opened.push(setting_line(e.0.1, e.1))
    }
}

/// The lines, each with a line break behind it.
pub open spec fn unlines(lines: Seq<Seq<char>>) -> Seq<char>
    decreases lines.len(),
{
    if lines.len() == 0 {
        Seq::empty()
    } else {
        unlines(lines.drop_last()) + lines.last() + seq!['\n']
    }
}

/// The text of a file: its lines, and a blank line behind the last section.
pub open spec fn file_text(p: Seq<((Seq<char>, Seq<char>), Seq<char>)>) -> Seq<char> {
    if p.len() == 0 {
        Seq::empty()
    } else {
        unlines(file_lines(p).push(Seq::empty()))
    }
}

fn append_line(out: &mut String, line: &str, Ghost(lines): Ghost<Seq<Seq<char>>>)
    requires
        old(out)@ == unlines(lines),
    ensures
        final(out)@ == unlines(lines.push(line@)),
{
    out.append(line);
    out.append("\n");
    proof {
        reveal_strlit("\n");
        assert(lines.push(line@).drop_last() =~= lines);
        assert("\n"@ =~= seq!['\n']);
    }
}

/// The text of a file with the given settings.
fn render(m: &Settings) -> (r: String)
    ensures
        r@ == file_text(textmap::pairs(m.entries@)),
{
    let ghost p = textmap::pairs(m.entries@);
    let mut out: String = String::new();
    let mut i: usize = 0;
    while i < m.entries.len()
        invariant
            i <= m.entries@.len(),
            p == textmap::pairs(m.entries@),
            out@ == unlines(file_lines(p.take(i as int))),
        decreases m.entries.len() - i,
    {
        let ghost t = p.take(i as int + 1);
        let ghost r = file_lines(p.take(i as int));
        proof {
            assert(t.drop_last() =~= p.take(i as int));
            assert(t.last() == p[i as int]);
        }
        let section = m.entries[i].0.0.as_str();
        let key = m.entries[i].0.1.as_str();
        let value = m.entries[i].1.as_str();
        let mut header = String::new();
        text::push_char(&mut header, '[');
        header.append(section);
        text::push_char(&mut header, ']');
        assert(header@ =~= header_line(section@));
        let ghost mut lines = r;
        if i == 0 {
            append_line(&mut out, header.as_str(), Ghost(lines));
            proof {
                lines = lines.push(header@);
            }
        } else {
            let prev = m.entries[i - 1].0.0.as_str();
            assert(t[t.len() - 2] == p[i - 1]);
            if !str_eq(prev, section) {
                append_line(&mut out, "", Ghost(lines));
                proof {
                    reveal_strlit("");
                    assert(""@ =~= Seq::<char>::empty());
                    lines = lines.push(Seq::empty());
                }
                append_line(&mut out, header.as_str(), Ghost(lines));
                proof {
                    lines = lines.push(header@);
                }
            }
        }
        let line = text::cat3(key, " = ", value);
        proof {
            reveal_strlit(" = ");
            assert(" = "@ =~= seq![' ', '=', ' ']);
        }
        append_line(&mut out, line.as_str(), Ghost(lines));
        i = i + 1;
    }
    assert(p.take(i as int) =~= p);
    if i > 0 {
        append_line(&mut out, "", Ghost(file_lines(p)));
        proof {
            reveal_strlit("");
            assert(""@ =~= Seq::<char>::empty());
        }
    }
    out
}

/// The configuration.
pub struct FocusFlowConfig {
    values: Settings,
}

impl FocusFlowConfig {
    /// The value of each setting.
    pub closed spec fn settings(&self) -> SettingsModel {
        self.values@
    }

    /// The settings are in order.
    pub closed spec fn wf(&self) -> bool {
        self.values.wf()
    }

    /// The value of a setting; empty where it is not set.
    pub open spec fn value(&self, section: Seq<char>, key: Seq<char>) -> Seq<char> {
        if self.settings().contains_key((section, key)) {
            self.settings()[(section, key)]
        } else {
            Seq::empty()
        }
    }

    /// The configuration for a file with the given text: the defaults with the settings
    /// of the file over them. Without a file there are the defaults only.
    pub fn load(file: Option<&str>) -> (r: Self)
        ensures
            r.wf(),
            r.settings() == (match file {
                Some(t) => loaded(ini(t@)),
                None => loaded(Map::empty()),
            }),
    {
        let mut values = default_config();
        let ghost base = values@;
        let ghost f = match file {
            Some(t) => ini(t@),
            None => Map::empty(),
        };
        match file {
            Some(t) => {
                let parsed = parse_ini(t);
                override_with(&mut values, &parsed);
            },
            None => {
                assert(base.union_prefer_right(Map::empty()) =~= base);
            },
        }
        drop_deprecated(&mut values);
        assert(values@ =~= loaded(f));
        FocusFlowConfig { values }
    }

    /// The text to write to the file that now holds `on_disk`: the settings in memory,
    /// and what was added to the file by hand in the meantime.
    pub fn save(&self, on_disk: Option<&str>) -> (r: String)
        requires
            self.wf(),
        ensures
            exists|p: Seq<((Seq<char>, Seq<char>), Seq<char>)>|
                {
                    &&& textmap::ascending(p)
                    &&& r@ == #[trigger] file_text(p)
                    &&& textmap::map_of(p) == merged(
                        self.settings(),
                        (match on_disk {
                            Some(t) => ini(t@),
                            None => Map::empty(),
                        }),
                    )
                },
    {
        let mut snapshot = self.values.dup();
        assert(snapshot.wf() && snapshot@ == self.values@);
        match on_disk {
            Some(t) => {
                let parsed = parse_ini(t);
                merge_unknown_keys(&mut snapshot, &parsed);
            },
            None => {
                assert(merged(self.settings(), Map::empty()) =~= self.settings());
            },
        }
        let r = render(&snapshot);
        proof {
            let p = textmap::pairs(snapshot.entries@);
            assert(r@ == file_text(p));
        }
        r
    }

    /// A configuration with the defaults, for when no file can be read.
    pub fn in_memory() -> (r: Self)
        ensures
            r.wf(),
            r.settings() == defaults(),
    {
        FocusFlowConfig { values: default_config() }
    }

    fn get_raw(&self, section: &str, key: &str) -> (r: String)
        requires
            self.wf(),
        ensures
            r@ == self.value(section@, key@),
    {
        let k = (section.to_owned(), key.to_owned());
        match self.values.get(&k) {
            Some(v) => v.clone(),
            None => String::new(),
        }
    }

    /// The value of a setting; empty where it is not set.
    pub fn get(&self, section: &str, key: &str) -> (r: String)
        requires
            self.wf(),
        ensures
            r@ == self.value(section@, key@),
    {
        self.get_raw(section, key)
    }

    /// The value of a setting, or `default` where it is not set or empty.
    pub fn get_or(&self, section: &str, key: &str, default: &str) -> (r: String)
        requires
            self.wf(),
        ensures
            r@ == (if self.value(section@, key@).len() == 0 {
                default@
            } else {
                self.value(section@, key@)
            }),
    {
        let v = self.get_raw(section, key);
        if v.as_str().is_empty() {
            default.to_owned()
        } else {
            v
        }
    }

    /// The setting as an integer, or `default` where it is none.
    pub fn get_int(&self, section: &str, key: &str, default: i64) -> (r: i64)
        requires
            self.wf(),
        ensures
            r == (match text::int_within(
                text::trimmed(self.value(section@, key@)),
                i64::MIN as int,
                i64::MAX as int,
            ) {
                Some(n) => n,
                None => default as int,
            }),
    {
        let v = trim(self.get_raw(section, key).as_str());
        match text::parse_within(v.as_str(), i64::MIN, i64::MAX) {
            Some(n) => n,
            None => default,
        }
    }

    /// The setting as a truth value, or `default` where it is none.
    pub fn get_bool(&self, section: &str, key: &str, default: bool) -> (r: bool)
        requires
            self.wf(),
        ensures
            r == truth(self.value(section@, key@), default),
    {
        let raw = self.get_raw(section, key);
        let t = trim(raw.as_str());
        let low = text::to_lower(t.as_str());
        let v = low.as_str();
        if str_eq(v, "true") || str_eq(v, "1") || str_eq(v, "yes") || str_eq(v, "on") {
            true
        } else if str_eq(v, "false") || str_eq(v, "0") || str_eq(v, "no") || str_eq(v, "off") {
            false
        } else {
            default
        }
    }

    /// Sets a setting.
    pub fn set(&mut self, section: &str, key: &str, value: &str)
        requires
            old(self).wf(),
        ensures
            final(self).wf(),
            final(self).settings() == old(self).settings().insert((section@, key@), value@),
    {
        put(&mut self.values, section, key, value);
    }
}

/// The truth value that a setting writes, in letters of either case.
pub open spec fn truth(v: Seq<char>, default: bool) -> bool {
    let w = text::lowered(text::trimmed(v));
    if w == "true"@ || w == "1"@ || w == "yes"@ || w == "on"@ {
        true
    } else if w == "false"@ || w == "0"@ || w == "no"@ || w == "off"@ {
        false
    } else {
        default
    }
}

/// What was added to the file by hand survives a save, what memory has wins over the
/// file, and what nothing reads any more is not revived.
pub proof fn lemma_hand_added_keys_survive(
    mem: SettingsModel,
    file: SettingsModel,
    k: (Seq<char>, Seq<char>),
)
    ensures
        mem.contains_key(k) ==> merged(mem, file).contains_key(k) && merged(mem, file)[k] == mem[k],
        file.contains_key(k) && !deprecated(k.0, k.1) && !mem.contains_key(k) ==> merged(
            mem,
            file,
        ).contains_key(k) && merged(mem, file)[k] == file[k],
        deprecated(k.0, k.1) && !mem.contains_key(k) ==> !merged(mem, file).contains_key(k),
{
}

/// A loaded configuration has no setting that nothing reads any more, and none comes
/// back with a save.
pub proof fn lemma_deprecated_never_return(file: SettingsModel, later: SettingsModel)
    ensures
        forall|k: (Seq<char>, Seq<char>)|
            deprecated(k.0, k.1) ==> !loaded(file).contains_key(k) && !merged(
                loaded(file),
                later,
            ).contains_key(k),
{
}

// ---------------------------------------------------- a saved file is read back

/// A section name that a file can hold: no white space around it, no line break.
pub open spec fn clean_section(s: Seq<char>) -> bool {
    text::trimmed(s) == s && !s.contains('\n')
}

/// A setting that a file can hold: no white space around key and value, no line break,
/// a key that is no comment, no header and has no `=`, and a value without quotes
/// around it.
pub open spec fn clean_setting(k: Seq<char>, v: Seq<char>) -> bool {
    &&& k.len() > 0
    &&& text::trimmed(k) == k
    &&& text::trimmed(v) == v
    &&& !k.contains('\n')
    &&& !v.contains('\n')
    &&& !k.contains('=')
    &&& k[0] != '#'
    &&& k[0] != ';'
    &&& !(k[0] == '[' && v.len() > 0 && v.last() == ']')
    &&& unquoted(v) == v
}

/// Settings that a file can hold.
pub open spec fn clean(p: Seq<((Seq<char>, Seq<char>), Seq<char>)>) -> bool {
    forall|i: int|
        0 <= i < p.len() ==> clean_section((#[trigger] p[i]).0.0) && clean_setting(
            p[i].0.1,
            p[i].1,
        )
}

proof fn lemma_trimmed_ends(s: Seq<char>)
    requires
        s.len() > 0,
        text::trimmed(s) == s,
    ensures
        !text::is_space(s[0]),
        !text::is_space(s.last()),
{
    text::lemma_trim_front(s);
    let f = text::trim_front(s);
    text::lemma_trim_back(f);
    assert(f.len() == s.len());
    assert(f =~= s);
}

proof fn lemma_trimmed_fixed(s: Seq<char>)
    requires
        s.len() > 0,
        !text::is_space(s[0]),
        !text::is_space(s.last()),
    ensures
        text::trimmed(s) == s,
{
    assert(text::trim_front(s) == s);
    assert(text::trim_back(s) == s);
}

/// A header line begins its section.
proof fn lemma_header_line(st: IniState, s: Seq<char>)
    requires
        clean_section(s),
    ensures
        ini_line(st, header_line(s)) == (IniState { section: Some(s), values: st.values }),
{
    let l = header_line(s);
    assert(l[0] == '[');
    assert(l.last() == ']');
    lemma_trimmed_fixed(l);
    assert(l.subrange(1, l.len() - 1) =~= s);
}

/// A setting line sets its value.
proof fn lemma_setting_line(st: IniState, sec: Seq<char>, k: Seq<char>, v: Seq<char>)
    requires
        clean_setting(k, v),
        st.section == Some(sec),
    ensures
        ini_line(st, setting_line(k, v)) == (IniState {
            section: Some(sec),
            values: st.values.insert((sec, k), v),
        }),
{
    let raw = setting_line(k, v);
    let n = k.len() as int;
    lemma_trimmed_ends(k);
    assert(raw[0] == k[0]);
    assert(raw[n] == ' ' && raw[n + 1] == '=' && raw[n + 2] == ' ');
    let l = if v.len() > 0 {
        raw
    } else {
        k + seq![' ', '=']
    };
    if v.len() > 0 {
        lemma_trimmed_ends(v);
        assert(raw.last() == v.last());
        lemma_trimmed_fixed(raw);
    } else {
        assert(raw.drop_last() =~= l);
        assert(raw.last() == ' ');
        assert(text::trim_front(raw) == raw);
        assert(l.last() == '=');
        assert(text::trim_back(l) == l);
        assert(text::trim_back(raw) == text::trim_back(raw.drop_last()));
    }
    assert(text::trimmed(raw) == l);
    assert(l[0] == k[0]);
    let eq = seq!['='];
    let e = text::find_from(l, eq, 0);
    text::lemma_find_from(l, eq, 0);
    assert(l[n + 1] == '=');
    assert(l.subrange(n + 1, n + 2) =~= eq);
    assert(text::occurs_at(l, eq, n + 1));
    assert forall|j: int| 0 <= j < n + 1 implies !text::occurs_at(l, eq, j) by {
        assert(l.subrange(j, j + 1)[0] == l[j]);
        if j < n {
            assert(k.contains(k[j]));
            assert(l[j] == k[j]);
        } else {
            assert(l[j] == ' ');
        }
    }
    assert(e == n + 1);
    let left = l.take(e);
    assert(left.drop_last() =~= k);
    assert(left.last() == ' ');
    assert(left[0] == k[0]);
    assert(text::trim_front(left) == left);
    assert(text::trim_back(left) == text::trim_back(left.drop_last()));
    assert(text::trim_back(k) == k);
    assert(text::trimmed(left) == k);
    let right = l.skip(e + 1);
    if v.len() > 0 {
        assert(right.drop_first() =~= v);
        assert(right[0] == ' ');
        assert(text::trim_front(right) == text::trim_front(right.drop_first()));
    } else {
        assert(right =~= v);
    }
    assert(text::trimmed(right) == v);
}

/// Splitting lines that were put together gives the lines back, and an empty rest.
proof fn lemma_split_unlines(lines: Seq<Seq<char>>)
    requires
        forall|i: int| 0 <= i < lines.len() ==> !(#[trigger] lines[i]).contains('\n'),
    ensures
        text::split_on(unlines(lines), '\n') == lines.push(Seq::empty()),
    decreases lines.len(),
{
    if lines.len() == 0 {
        assert(text::split_on(unlines(lines), '\n') =~= lines.push(Seq::empty()));
    } else {
        let t = lines.drop_last();
        assert forall|i: int| 0 <= i < t.len() implies !(#[trigger] t[i]).contains('\n') by {
            assert(t[i] == lines[i]);
        }
        lemma_split_unlines(t);
        let a = unlines(t);
        let last = lines.last();
        assert(!lines[lines.len() - 1].contains('\n'));
        lemma_split_extend(a, t, last, last.len() as int);
        assert(last.take(last.len() as int) =~= last);
        let s = unlines(lines);
        assert(s.drop_last() =~= a + last);
        assert(s.last() == '\n');
        assert(text::split_on(s, '\n') =~= lines.push(Seq::empty()));
    }
}

/// Text without a line break goes to the last line.
proof fn lemma_split_extend(a: Seq<char>, t: Seq<Seq<char>>, last: Seq<char>, n: int)
    requires
        text::split_on(a, '\n') == t.push(Seq::empty()),
        !last.contains('\n'),
        0 <= n <= last.len(),
    ensures
        text::split_on(a + last.take(n), '\n') == t.push(last.take(n)),
    decreases n,
{
    if n == 0 {
        assert(a + last.take(0) =~= a);
        assert(last.take(0) =~= Seq::<char>::empty());
    } else {
        lemma_split_extend(a, t, last, n - 1);
        let s = a + last.take(n);
        assert(s.drop_last() =~= a + last.take(n - 1));
        assert(s.last() == last[n - 1]);
        assert(last.contains(last[n - 1]));
        assert(last.take(n - 1).push(last[n - 1]) =~= last.take(n));
        assert(text::split_on(s, '\n') =~= t.push(last.take(n)));
    }
}

/// Reading the lines of a file gives its settings.
proof fn lemma_file_lines(p: Seq<((Seq<char>, Seq<char>), Seq<char>)>)
    requires
        textmap::ascending(p),
        clean(p),
    ensures
        ini_lines(file_lines(p)).values == textmap::map_of(p),
        p.len() > 0 ==> ini_lines(file_lines(p)).section == Some(p.last().0.0),
        p.len() > 0 ==> file_lines(p).len() > 0 && file_lines(p)[0] == header_line(p[0].0.0),
        forall|i: int|
            0 <= i < file_lines(p).len() ==> !(#[trigger] file_lines(p)[i]).contains('\n'),
    decreases p.len(),
{
    if p.len() == 0 {
        assert(textmap::map_of(p) =~= Map::<(Seq<char>, Seq<char>), Seq<char>>::empty());
    } else {
        let t = p.drop_last();
        textmap::lemma_drop_last(p);
        textmap::lemma_place(p, p.len() - 1);
        assert forall|i: int| 0 <= i < t.len() implies clean_section((#[trigger] t[i]).0.0)
            && clean_setting(t[i].0.1, t[i].1) by {
            assert(t[i] == p[i]);
        }
        lemma_file_lines(t);
        let r = file_lines(t);
        let e = p.last();
        let st = ini_lines(r);
        assert(clean_section(p[p.len() - 1].0.0));
        let opened = if p.len() == 1 {
            r.push(header_line(e.0.0))
        } else if p[p.len() - 2].0.0 != e.0.0 {
            r.push(Seq::empty()).push(header_line(e.0.0))
        } else {
            r
        };
        if p.len() > 1 {
            assert(t.last() == p[p.len() - 2]);
            assert(t[0] == p[0]);
        }
        if p.len() == 1 {
            assert(opened.drop_last() =~= r);
            lemma_header_line(st, e.0.0);
        } else if p[p.len() - 2].0.0 != e.0.0 {
            let blank = r.push(Seq::empty());
            assert(opened.drop_last() =~= blank);
            assert(blank.drop_last() =~= r);
            let none = Seq::<char>::empty();
            assert(text::trim_front(none) == none);
            assert(text::trim_back(none) == none);
            assert(ini_lines(blank) == st);
            lemma_header_line(st, e.0.0);
        }
        let st1 = ini_lines(opened);
        assert(st1.section == Some(e.0.0));
        assert(st1.values == st.values);
        let all = file_lines(p);
        assert(all.drop_last() =~= opened);
        lemma_setting_line(st1, e.0.0, e.0.1, e.1);
        assert(textmap::map_of(t).insert(e.0, e.1) =~= textmap::map_of(p));
        assert forall|i: int| 0 <= i < all.len() implies !(#[trigger] all[i]).contains('\n') by {
            if i < r.len() {
                assert(all[i] == r[i]);
            } else if i == all.len() - 1 {
                let l = setting_line(e.0.1, e.1);
                assert forall|j: int| 0 <= j < l.len() implies l[j] != '\n' by {
                    let n = e.0.1.len() as int;
                    if j < n {
                        assert(e.0.1.contains(e.0.1[j]));
                    } else if j >= n + 3 {
                        assert(e.1.contains(e.1[j - n - 3]));
                    }
                }
            } else if opened[i].len() > 0 {
                let l = header_line(e.0.0);
                assert(opened[i] == l);
                assert forall|j: int| 0 <= j < l.len() implies l[j] != '\n' by {
                    if 1 <= j < l.len() - 1 {
                        assert(e.0.0.contains(e.0.0[j - 1]));
                    }
                }
            }
        }
    }
}

/// A file that was written is read back as the settings it was written from.
pub proof fn lemma_saved_file_reads_back(p: Seq<((Seq<char>, Seq<char>), Seq<char>)>)
    requires
        textmap::ascending(p),
        clean(p),
    ensures
        ini(file_text(p)) == textmap::map_of(p),
{
    lemma_file_lines(p);
    let none = Seq::<char>::empty();
    assert(text::trim_front(none) == none);
    assert(text::trim_back(none) == none);
    if p.len() == 0 {
        let s = file_text(p);
        assert(text::split_on(s, '\n') =~= seq![none]);
        assert(seq![none].drop_last() =~= Seq::<Seq<char>>::empty());
        assert(ini_lines(Seq::<Seq<char>>::empty()).values == textmap::map_of(p));
        assert(ini_lines(seq![none]) == ini_line(ini_lines(Seq::<Seq<char>>::empty()), none));
        assert(without_bom(s) == s);
    } else {
        let lines = file_lines(p).push(none);
        assert forall|i: int| 0 <= i < lines.len() implies !(#[trigger] lines[i]).contains('\n') by {
            if i < file_lines(p).len() {
                assert(lines[i] == file_lines(p)[i]);
            }
        }
        lemma_split_unlines(lines);
        lemma_unlines_first(lines);
        assert(lines[0][0] == '[');
        let all = lines.push(none);
        assert(all.drop_last() =~= lines);
        assert(lines.drop_last() =~= file_lines(p));
        assert(lines.last() == none && all.last() == none);
        let st = ini_lines(file_lines(p));
        assert(ini_lines(lines) == ini_line(st, none));
        assert(ini_lines(all) == ini_line(ini_lines(lines), none));
        assert(without_bom(file_text(p)) == file_text(p));
    }
}

proof fn lemma_unlines_first(lines: Seq<Seq<char>>)
    requires
        lines.len() > 0,
        lines[0].len() > 0,
    ensures
        unlines(lines).len() > 0,
        unlines(lines)[0] == lines[0][0],
    decreases lines.len(),
{
    if lines.len() == 1 {
        assert(unlines(lines.drop_last()) =~= Seq::<char>::empty());
    } else {
        assert(lines.drop_last()[0] == lines[0]);
        lemma_unlines_first(lines.drop_last());
    }
}

/// A setting that was loaded is that of the file where the file has it, and else the usual
/// one; settings that are no longer used are left out.
pub proof fn lemma_file_comes_first(file: SettingsModel, k: (Seq<char>, Seq<char>))
    ensures
        !deprecated(k.0, k.1) && file.contains_key(k) ==> loaded(file).contains_key(k) && loaded(
            file,
        )[k] == file[k],
        !deprecated(k.0, k.1) && !file.contains_key(k) && defaults().contains_key(k) ==> loaded(
            file,
        ).contains_key(k) && loaded(file)[k] == defaults()[k],
        !file.contains_key(k) && !defaults().contains_key(k) ==> !loaded(file).contains_key(k),
        deprecated(k.0, k.1) ==> !loaded(file).contains_key(k),
{
}

/// Blank lines and remarks say nothing. A name in brackets begins a section. Elsewhere a line
/// sets what stands before its first equals sign to what stands behind it, in the section
/// that was begun last; before any section it says nothing, and so does a line without that
/// sign.
pub proof fn lemma_lines_are_read(st: IniState, line: Seq<char>, a: Seq<char>, b: Seq<char>)
    ensures
        text::trimmed(line).len() == 0 ==> ini_line(st, line) == st,
        text::trimmed(line).len() > 0 && (text::trimmed(line)[0] == '#' || text::trimmed(line)[0]
            == ';') ==> ini_line(st, line) == st,
        text::trimmed(line) == seq!['['] + a + seq![']'] ==> ini_line(st, line) == (IniState {
            section: Some(text::trimmed(a)),
            values: st.values,
        }),
        text::trimmed(line) == a + seq!['='] + b && a.len() > 0 && !a.contains('=') && a[0] != '#'
            && a[0] != ';' && a[0] != '[' && st.section is Some ==> ini_line(st, line) == (
        IniState {
            section: st.section,
            values: st.values.insert(
                (st.section->0, text::trimmed(a)),
                unquoted(text::trimmed(b)),
            ),
        }),
        text::trimmed(line) == a && a.len() > 0 && a[0] != '[' && (st.section is None
            || !a.contains('=')) ==> ini_line(st, line) == st,
{
    let l = text::trimmed(line);
    if l == seq!['['] + a + seq![']'] {
        assert(l.subrange(1, l.len() - 1) =~= a);
    }
    let eq = seq!['='];
    text::lemma_find_from(l, eq, 0);
    let e = text::find_from(l, eq, 0);
    if e >= 0 {
        assert(l.subrange(e, e + 1)[0] == '=');
        assert(l[e] == '=');
    }
    if l == a + seq!['='] + b && a.len() > 0 && !a.contains('=') {
        let n = a.len() as int;
        assert(l.subrange(n, n + 1) =~= eq);
        assert(text::occurs_at(l, eq, n));
        if 0 <= e < n {
            assert(l[e] == a[e]);
            assert(a.contains(a[e]));
        }
        assert(e == n);
        assert(l.take(n) =~= a);
        assert(l.skip(n + 1) =~= b);
        assert(l[0] == a[0]);
    }
    if l == a && !a.contains('=') && e >= 0 {
        assert(a.contains(a[e]));
    }
}

/// A value in quotes is what stands between them; any other is as it is.
pub proof fn lemma_quotes(v: Seq<char>)
    ensures
        unquoted(seq!['"'] + v + seq!['"']) == v,
        v.len() < 2 || v[0] != '"' || v.last() != '"' ==> unquoted(v) == v,
{
    let q = seq!['"'] + v + seq!['"'];
    assert(q.subrange(1, q.len() - 1) =~= v);
}

/// A setting is on or off by one of four words each, whatever their case and the white space
/// around them; any other word leaves it as it usually is.
pub proof fn lemma_words_of_truth(v: Seq<char>, usual: bool)
    ensures
        ({
            let w = text::lowered(text::trimmed(v));
            let on = w == "true"@ || w == "1"@ || w == "yes"@ || w == "on"@;
            let off = w == "false"@ || w == "0"@ || w == "no"@ || w == "off"@;
            &&& on ==> truth(v, usual)
            &&& off ==> !truth(v, usual)
            &&& !on && !off ==> truth(v, usual) == usual
        }),
{
    reveal_strlit("true");
    reveal_strlit("1");
    reveal_strlit("yes");
    reveal_strlit("on");
    reveal_strlit("false");
    reveal_strlit("0");
    reveal_strlit("no");
    reveal_strlit("off");
    let w = text::lowered(text::trimmed(v));
    if w == "false"@ {
        assert(w.len() == 5);
    } else if w == "0"@ {
        assert(w.len() == 1 && w[0] == '0');
    } else if w == "no"@ {
        assert(w.len() == 2 && w[0] == 'n');
    } else if w == "off"@ {
        assert(w.len() == 3 && w[0] == 'o');
    }
    assert("1"@[0] == '1' && "yes"@[0] == 'y' && "on"@[0] == 'o');
}

} // verus!
