//! Which application the activity is counted for.
//!
//! Applications are known by the name of their process alone. Those that the setting
//! `exclude` names are not counted at all.
use vstd::prelude::*;
use vstd::string::*;

use crate::config;
use crate::config::FocusFlowConfig;
use crate::text;
use crate::text::{opt_own, split_char, str_eq, to_lower, trim};

verus! {

/// How often the application in front is looked up, in seconds.
pub const SAMPLE_INTERVAL_SECS: u64 = 1;

/// After how long the names of the processes are read anew, in milliseconds.
pub const SNAPSHOT_REFRESH_MS: u64 = 30_000;

/// How long the names of the processes stand before they are read anew for the sake of one
/// that is not among them, in milliseconds.
pub const SNAPSHOT_FORCE_MIN_MS: u64 = 1_000;

// ------------------------------------------------------------------ excluded programs

/// The pieces without white space around them, in small letters, without empty ones.
pub open spec fn small_names(parts: Seq<Seq<char>>) -> Seq<Seq<char>>
    decreases parts.len(),
{
    if parts.len() == 0 {
        Seq::empty()
    } else {
        let r = small_names(parts.drop_last());
        let t = text::lowered(text::trimmed(parts.last()));
        if t.len() == 0 {
            r
        } else {
            r.push(t)
        }
    }
}

/// The names in a setting that separates them by commas.
pub open spec fn excluded(raw: Seq<char>) -> Seq<Seq<char>> {
    small_names(text::split_on(raw, ','))
}

/// The names in a setting that separates them by commas, in small letters.
pub fn parse_exclude(raw: &str) -> (r: Vec<String>)
    ensures
        text::views(r@) == excluded(raw@),
{
    let parts = split_char(raw, ',');
    let ghost p = text::views(parts@);
    let mut out: Vec<String> = Vec::new();
    let mut i: usize = 0;
    assert(text::views(out@) =~= small_names(p.take(0)));
    while i < parts.len()
        invariant
            i <= parts.len(),
            p == text::views(parts@),
            text::views(out@) == small_names(p.take(i as int)),
        decreases parts.len() - i,
    {
        let ghost before = out@;
        proof {
            let t1 = p.take(i as int + 1);
            assert(t1.drop_last() =~= p.take(i as int));
            assert(t1.last() == parts@[i as int]@);
        }
        let t = to_lower(trim(parts[i].as_str()).as_str());
        if !t.as_str().is_empty() {
            let ghost tv = t@;
            out.push(t);
            assert(text::views(out@) =~= text::views(before).push(tv));
        }
        i = i + 1;
    }
    assert(p.take(i as int) =~= p);
    out
}

/// Whether activity may be counted for an application: its name is not excluded, in
/// letters of either case.
pub fn is_recordable(name: &str, exclude: &Vec<String>) -> (r: bool)
    ensures
        r == !text::views(exclude@).contains(text::lowered(name@)),
{
    let low = to_lower(name);
    let ghost v = text::views(exclude@);
    let mut i: usize = 0;
    while i < exclude.len()
        invariant
            i <= exclude.len(),
            v == text::views(exclude@),
            low@ == text::lowered(name@),
            forall|k: int| 0 <= k < i ==> #[trigger] v[k] != low@,
        decreases exclude.len() - i,
    {
        if str_eq(exclude[i].as_str(), low.as_str()) {
            assert(v[i as int] == low@);
            return false;
        }
        assert(v[i as int] == exclude@[i as int]@);
        i = i + 1;
    }
    true
}

/// The names that the settings exclude.
pub open spec fn excluded_by(c: &FocusFlowConfig) -> Seq<Seq<char>> {
    excluded(c.value("app_stats"@, "exclude"@))
}

/// Whether the settings turn the counting by application on.
pub open spec fn enabled_by(c: &FocusFlowConfig) -> bool {
    config::truth(c.value("app_stats"@, "enabled"@), true)
}

/// The application that activity is counted for while `name` is in front.
pub open spec fn attributed(c: &FocusFlowConfig, name: Option<Seq<char>>) -> Option<Seq<char>> {
    match name {
        Some(n) if enabled_by(c) && !excluded_by(c).contains(text::lowered(n)) => Some(n),
        _ => None,
    }
}

/// Keeps the excluded names at hand from one look to the next.
pub struct Sampler {
    pub exclude: Vec<String>,
    pub cached_raw: String,
}

impl Sampler {
    /// The names are those of the setting that they were read from.
    pub open spec fn wf(&self) -> bool {
        text::views(self.exclude@) == excluded(self.cached_raw@)
    }

    /// Begins with the settings as they are; tells whether they turn the counting on.
    pub fn load_config(c: &FocusFlowConfig) -> (r: (bool, Self))
        requires
            c.wf(),
        ensures
            r.0 == enabled_by(c),
            r.1.wf(),
            text::views(r.1.exclude@) == excluded_by(c),
    {
        let raw = c.get_or("app_stats", "exclude", "");
        proof {
            reveal_strlit("");
            if c.value("app_stats"@, "exclude"@).len() == 0 {
                assert(raw@ =~= c.value("app_stats"@, "exclude"@));
            }
        }
        let exclude = parse_exclude(raw.as_str());
        (c.get_bool("app_stats", "enabled", true), Sampler { exclude, cached_raw: raw })
    }

    /// The application to count for while `name` is in front; the settings are read anew
    /// each time.
    pub fn look(&mut self, c: &FocusFlowConfig, name: Option<&str>) -> (r: Option<String>)
        requires
            c.wf(),
            old(self).wf(),
        ensures
            final(self).wf(),
            text::views(final(self).exclude@) == excluded_by(c),
            text::opt_text(r) == attributed(c, text::opt_str(name)),
    {
        let raw = c.get_or("app_stats", "exclude", "");
        proof {
            reveal_strlit("");
            if c.value("app_stats"@, "exclude"@).len() == 0 {
                assert(raw@ =~= c.value("app_stats"@, "exclude"@));
            }
        }
        if !str_eq(raw.as_str(), self.cached_raw.as_str()) {
            self.exclude = parse_exclude(raw.as_str());
            self.cached_raw = raw;
        }
        if !c.get_bool("app_stats", "enabled", true) {
            return None;
        }
        match name {
            Some(n) => if is_recordable(n, &self.exclude) {
                opt_own(name)
            } else {
                None
            },
            None => None,
        }
    }
}

/// An excluded program is never counted for, in whatever case its name is written.
pub proof fn lemma_excluded_is_never_counted(
    c: &FocusFlowConfig,
    name: Seq<char>,
    listed: Seq<char>,
)
    requires
        excluded_by(c).contains(listed),
        text::lowered(name) == listed,
    ensures
        attributed(c, Some(name)) is None,
{
}

/// Without excluded names, and with the counting on, every application is counted for.
pub proof fn lemma_nothing_excluded(c: &FocusFlowConfig, name: Seq<char>)
    requires
        enabled_by(c),
        text::is_blank(c.value("app_stats"@, "exclude"@)),
        !c.value("app_stats"@, "exclude"@).contains(','),
    ensures
        attributed(c, Some(name)) == Some(name),
{
    let raw = c.value("app_stats"@, "exclude"@);
    text::lemma_split_single(raw, ',');
    let p = text::split_on(raw, ',');
    assert(p.last() == raw);
    assert(text::lowered(text::trimmed(raw)).len() == 0);
    assert(p.drop_last() =~= Seq::empty());
    assert(small_names(p.drop_last()) =~= Seq::empty());
    assert(excluded(raw).len() == 0);
}

// ----------------------------------------------------------------- names of processes

/// The names of the processes as they were at one time, in milliseconds.
pub struct PidNames {
    pub taken_at: Option<u64>,
    pub names: Vec<(u32, String)>,
}

/// How far the search for a name has come.
#[derive(Clone, Copy, PartialEq, Eq, Structural, Debug)]
pub enum Search {
    /// It begins.
    First,
    /// The names are fresh enough.
    Checked,
    /// The names were read anew for its sake.
    Forced,
}

/// What the search for a name comes to.
pub enum Lookup {
    /// The name.
    Name(String),
    /// The names are to be read anew; then the search goes on from the given point.
    Rebuild(Search),
    /// There is no name.
    Unknown,
}

/// The index of the name of a process, or the number of names.
pub open spec fn name_at(s: Seq<(u32, String)>, pid: u32, from: int) -> int
    decreases s.len() - from,
{
    if from >= s.len() || s[from].0 == pid {
        from
    } else {
        name_at(s, pid, from + 1)
    }
}

/// The name of a process.
pub open spec fn name_in(s: Seq<(u32, String)>, pid: u32) -> Option<Seq<char>> {
    let i = name_at(s, pid, 0);
    if i < s.len() {
        Some(s[i].1@)
    } else {
        None
    }
}

/// Whether the names are at least so old; names that were never read are older than all.
pub open spec fn older(taken_at: Option<u64>, now: u64, ms: u64) -> bool {
    taken_at is None || now - taken_at->0 >= ms
}

impl PidNames {
    /// No names yet.
    pub fn new() -> (r: Self)
        ensures
            r.taken_at is None,
            r.names@.len() == 0,
    {
        PidNames { taken_at: None, names: Vec::new() }
    }

    fn is_older(&self, now: u64, ms: u64) -> (r: bool)
        ensures
            r == older(self.taken_at, now, ms),
    {
        match self.taken_at {
            Some(t) => now as i128 - t as i128 >= ms as i128,
            None => true,
        }
    }

    /// Takes over names that were read from `now` on.
    pub fn rebuilt(&mut self, now: u64, names: Vec<(u32, String)>)
        ensures
            final(self).taken_at == Some(now),
            final(self).names@ == names@,
    {
        self.taken_at = Some(now);
        self.names = names;
    }

    /// The name of a process, where it is among the names.
    pub fn name_of(&self, pid: u32) -> (r: Option<String>)
        ensures
            text::opt_text(r) == name_in(self.names@, pid),
    {
        let mut i: usize = 0;
        while i < self.names.len()
            invariant
                i <= self.names.len(),
                name_at(self.names@, pid, 0) == name_at(self.names@, pid, i as int),
            decreases self.names.len() - i,
        {
            if self.names[i].0 == pid {
                return Some(self.names[i].1.clone());
            }
            i = i + 1;
        }
        None
    }

    /// One step of the search for the name of a process: names that are too old are read
    /// anew first; a process that is not among them has them read anew once more, unless
    /// they were read just now.
    pub fn look_up(&self, pid: u32, now: u64, search: Search) -> (r: Lookup)
        ensures
            match name_in(self.names@, pid) {
                _ if search == Search::First && older(self.taken_at, now, SNAPSHOT_REFRESH_MS) => r
                    == Lookup::Rebuild(Search::Checked),
                Some(n) => r matches Lookup::Name(m) && m@ == n,
                None => if search == Search::Forced || !older(
                    self.taken_at,
                    now,
                    SNAPSHOT_FORCE_MIN_MS,
                ) {
                    r == Lookup::Unknown
                } else {
                    r == Lookup::Rebuild(Search::Forced)
                },
            },
    {
        if search == Search::First && self.is_older(now, SNAPSHOT_REFRESH_MS) {
            return Lookup::Rebuild(Search::Checked);
        }
        match self.name_of(pid) {
            Some(n) => Lookup::Name(n),
            None => if search == Search::Forced || !self.is_older(now, SNAPSHOT_FORCE_MIN_MS) {
                Lookup::Unknown
            } else {
                Lookup::Rebuild(Search::Forced)
            },
        }
    }
}

/// The applications that are left out are the parts of the setting, without white space
/// around them and in small letters, but for those that are blank.
pub proof fn lemma_left_out_names(parts: Seq<Seq<char>>, x: Seq<char>)
    ensures
        small_names(parts).contains(x) <==> x.len() > 0 && exists|i: int|
            0 <= i < parts.len() && text::lowered(text::trimmed(#[trigger] parts[i])) == x,
    decreases parts.len(),
{
    if parts.len() > 0 {
        let f = parts.drop_last();
        let r = small_names(f);
        let a = small_names(parts);
        lemma_left_out_names(f, x);
        assert(parts[parts.len() - 1] == parts.last());
        if r.contains(x) {
            let i = choose|i: int| 0 <= i < r.len() && r[i] == x;
            assert(a[i] == x);
            let k = choose|k: int|
                0 <= k < f.len() && text::lowered(text::trimmed(#[trigger] f[k])) == x;
            assert(parts[k] == f[k]);
        }
        if text::lowered(text::trimmed(parts.last())).len() > 0 {
            assert(a[a.len() - 1] == text::lowered(text::trimmed(parts.last())));
        }
        if a.contains(x) {
            let i = choose|i: int| 0 <= i < a.len() && a[i] == x;
            if i < r.len() {
                assert(r[i] == x);
            }
        }
        if exists|i: int|
            0 <= i < parts.len() && text::lowered(text::trimmed(#[trigger] parts[i])) == x {
            let i = choose|i: int|
                0 <= i < parts.len() && text::lowered(text::trimmed(#[trigger] parts[i])) == x;
            if i < f.len() {
                assert(f[i] == parts[i]);
            }
        }
    }
}

/// The name of a process is the first that the list has for its number, and there is one
/// exactly where the list has that number.
pub proof fn lemma_name_of_process(s: Seq<(u32, String)>, pid: u32, from: int, i: int)
    requires
        0 <= from <= i < s.len(),
        s[i].0 == pid,
        forall|j: int| from <= j < i ==> (#[trigger] s[j]).0 != pid,
    ensures
        name_at(s, pid, from) == i,
        from == 0 ==> name_in(s, pid) == Some(s[i].1@),
    decreases i - from,
{
    if from < i {
        assert(s[from].0 != pid);
        lemma_name_of_process(s, pid, from + 1, i);
    }
}

/// A process that the list does not have has no name.
pub proof fn lemma_unknown_process(s: Seq<(u32, String)>, pid: u32, from: int)
    requires
        0 <= from <= s.len(),
        forall|j: int| from <= j < s.len() ==> (#[trigger] s[j]).0 != pid,
    ensures
        name_at(s, pid, from) == s.len(),
        from == 0 ==> name_in(s, pid) is None,
    decreases s.len() - from,
{
    if from < s.len() {
        assert(s[from].0 != pid);
        lemma_unknown_process(s, pid, from + 1);
    }
}

/// Time goes to the application in front exactly where this is switched on and its name, in
/// small letters, is not left out; it goes to the name as it is.
pub proof fn lemma_who_gets_the_time(c: &FocusFlowConfig, name: Seq<char>)
    ensures
        attributed(c, None) is None,
        attributed(c, Some(name)) is Some <==> config::truth(
            c.value("app_stats"@, "enabled"@),
            true,
        ) && !excluded(c.value("app_stats"@, "exclude"@)).contains(text::lowered(name)),
        attributed(c, Some(name)) matches Some(n) ==> n == name,
{
}

/// A list of processes is too old when as much time has passed since it was made, and when
/// none was made.
pub proof fn lemma_old_lists(t: u64, now: u64, ms: u64)
    ensures
        older(None, now, ms),
        older(Some(t), now, ms) <==> now >= t + ms,
{
}

} // verus!
