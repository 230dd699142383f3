//! Backups: what to back up, how one backup proceeds, which old backups stay.
use vstd::prelude::*;
use vstd::string::*;

use crate::calendar;
use crate::calendar::Date;
use crate::config::FocusFlowConfig;
use crate::order;
use crate::order::{rank, Ranked};
use crate::text;
use crate::text::{dec_i64, split_char, starts_with, str_eq, strip_prefix, strip_suffix, trim};

verus! {

// --------------------------------------------------------------------------- buckets

/// A day, a week or a month.
pub type Bucket = Option<(int, int)>;

/// The year and number of the ISO 8601 week of a day.
pub open spec fn week_of(day: int) -> (int, int) {
    choose|p: (int, int)| calendar::is_iso_week(day, p.0, p.1)
}

pub open spec fn day_bucket(d: Option<Date>) -> Bucket {
    match d {
        Some(x) => Some((x.number(), 0)),
        None => None,
    }
}

pub open spec fn week_bucket(d: Option<Date>) -> Bucket {
    match d {
        Some(x) => Some(week_of(x.number())),
        None => None,
    }
}

pub open spec fn month_bucket(d: Option<Date>) -> Bucket {
    match d {
        Some(x) => Some((x.year as int, x.month as int)),
        None => None,
    }
}

/// A day lies in one week only.
pub proof fn lemma_one_week(day: int, y: int, w: int)
    requires
        calendar::is_iso_week(day, y, w),
    ensures
        week_of(day) == (y, w),
{
    let p = (y, w);
    assert(calendar::is_iso_week(day, p.0, p.1));
    let q = week_of(day);
    assert(calendar::is_iso_week(day, q.0, q.1));
    if q.0 < y {
        calendar::lemma_years_ordered(q.0, y);
        calendar::lemma_year_step(q.0);
    }
    if y < q.0 {
        calendar::lemma_years_ordered(y, q.0);
        calendar::lemma_year_step(y);
    }
}

/// Whether entry `i` is the first of its bucket.
pub open spec fn is_first(b: Seq<Bucket>, i: int) -> bool {
    b[i] is Some && forall|j: int| 0 <= j < i ==> #[trigger] b[j] != b[i]
}

/// How many of the first `n` entries are the first of their bucket.
pub open spec fn firsts(b: Seq<Bucket>, n: int) -> int
    decreases n,
{
    if n <= 0 {
        0
    } else {
        firsts(b, n - 1) + (if is_first(b, n - 1) {
            1int
        } else {
            0int
        })
    }
}

/// Whether entry `i` is the first of one of the first `max` buckets.
pub open spec fn kept_by(b: Seq<Bucket>, max: int, i: int) -> bool {
    is_first(b, i) && firsts(b, i) < max
}

pub open spec fn bucket_of(o: Option<(i64, i64)>) -> Bucket {
    match o {
        Some(p) => Some((p.0 as int, p.1 as int)),
        None => None,
    }
}

pub open spec fn buckets(v: Seq<Option<(i64, i64)>>) -> Seq<Bucket> {
    Seq::new(v.len(), |i: int| bucket_of(v[i]))
}

/// Marks the first entry of each of the first `max` buckets. The entries come newest
/// first, so that is the newest of each bucket.
pub fn retain_newest_per_bucket(b: &Vec<Option<(i64, i64)>>, keep: &mut Vec<bool>, max: u64)
    requires
        b@.len() == old(keep)@.len(),
    ensures
        final(keep)@ == Seq::new(
            b@.len(),
            |i: int| old(keep)@[i] || kept_by(buckets(b@), max as int, i),
        ),
{
    let ghost s = buckets(b@);
    let ghost k0 = keep@;
    let mut count: u64 = 0;
    let mut i: usize = 0;
    while i < b.len()
        invariant
            i <= b.len(),
            s == buckets(b@),
            k0.len() == b@.len(),
            keep@.len() == b@.len(),
            count <= max,
            firsts(s, i as int) <= max ==> count == firsts(s, i as int),
            firsts(s, i as int) >= max ==> count == max,
            forall|j: int| 0 <= j < i ==> #[trigger] keep@[j] == (k0[j] || kept_by(s, max as int, j)),
            forall|j: int| i <= j < b@.len() ==> #[trigger] keep@[j] == k0[j],
        decreases b.len() - i,
    {
        let mut fresh = b[i].is_some();
        let mut j: usize = 0;
        while j < i
            invariant
                j <= i < b.len(),
                s == buckets(b@),
                fresh == (b@[i as int] is Some && forall|k: int|
                    0 <= k < j ==> #[trigger] s[k] != s[i as int]),
            decreases i - j,
        {
            assert(s[j as int] == bucket_of(b@[j as int]));
            let same = match (b[j], b[i]) {
                (Some(x), Some(y)) => x.0 == y.0 && x.1 == y.1,
                _ => false,
            };
            if same {
                fresh = false;
            }
            j = j + 1;
        }
        assert(fresh == is_first(s, i as int));
        if fresh && count < max {
            keep.set(i, true);
            count = count + 1;
        }
        i = i + 1;
    }
    assert(keep@ =~= Seq::new(b@.len(), |i: int| k0[i] || kept_by(s, max as int, i)));
}

/// How many backups to keep.
#[derive(Clone, Copy, PartialEq, Eq, Structural, Debug)]
pub struct RetentionPolicy {
    /// The newest backups, all of them.
    pub recent: u64,
    /// One a day, a week and a month, for that many days, weeks and months.
    pub daily: u64,
    pub weekly: u64,
    pub monthly: u64,
}

/// Whether the backup at place `i`, counted from the newest, stays.
pub open spec fn stays(dates: Seq<Option<Date>>, policy: RetentionPolicy, i: int) -> bool {
    ||| i < policy.recent
    ||| kept_by(Seq::new(dates.len(), |k: int| day_bucket(dates[k])), policy.daily as int, i)
    ||| kept_by(Seq::new(dates.len(), |k: int| week_bucket(dates[k])), policy.weekly as int, i)
    ||| kept_by(Seq::new(dates.len(), |k: int| month_bucket(dates[k])), policy.monthly as int, i)
}

/// Which of the backups with these dates, newest first, stay: the newest ones, and the
/// newest of each of the last days, weeks and months.
pub fn select_by_date(dates: &Vec<Option<Date>>, policy: RetentionPolicy) -> (r: Vec<bool>)
    requires
        forall|i: int| 0 <= i < dates@.len() ==> (#[trigger] dates@[i] matches Some(d) ==> d.valid()),
    ensures
        r@ == Seq::new(dates@.len(), |i: int| stays(dates@, policy, i)),
{
    let mut keep: Vec<bool> = Vec::new();
    let mut days: Vec<Option<(i64, i64)>> = Vec::new();
    let mut weeks: Vec<Option<(i64, i64)>> = Vec::new();
    let mut months: Vec<Option<(i64, i64)>> = Vec::new();
    let mut i: usize = 0;
    while i < dates.len()
        invariant
            i <= dates.len(),
            keep@.len() == i,
            days@.len() == i,
            weeks@.len() == i,
            months@.len() == i,
            forall|k: int|
                0 <= k < dates@.len() ==> (#[trigger] dates@[k] matches Some(d) ==> d.valid()),
            forall|k: int| 0 <= k < i ==> #[trigger] keep@[k] == (k < policy.recent),
            forall|k: int| 0 <= k < i ==> bucket_of(#[trigger] days@[k]) == day_bucket(dates@[k]),
            forall|k: int| 0 <= k < i ==> bucket_of(#[trigger] weeks@[k]) == week_bucket(dates@[k]),
            forall|k: int|
                0 <= k < i ==> bucket_of(#[trigger] months@[k]) == month_bucket(dates@[k]),
        decreases dates.len() - i,
    {
        keep.push((i as u64) < policy.recent);
        match &dates[i] {
            Some(d) => {
                days.push(Some((calendar::day_key_of_date(d), 0)));
                let w = calendar::iso_week(d);
                proof {
                    lemma_one_week(d.number(), w.0 as int, w.1 as int);
                }
                weeks.push(Some((w.0 as i64, w.1 as i64)));
                months.push(Some((d.year as i64, d.month as i64)));
            },
            None => {
                days.push(None);
                weeks.push(None);
                months.push(None);
            },
        }
        i = i + 1;
    }
    proof {
        assert(buckets(days@) =~= Seq::new(dates@.len(), |k: int| day_bucket(dates@[k])));
        assert(buckets(weeks@) =~= Seq::new(dates@.len(), |k: int| week_bucket(dates@[k])));
        assert(buckets(months@) =~= Seq::new(dates@.len(), |k: int| month_bucket(dates@[k])));
    }
    retain_newest_per_bucket(&days, &mut keep, policy.daily);
    retain_newest_per_bucket(&weeks, &mut keep, policy.weekly);
    retain_newest_per_bucket(&months, &mut keep, policy.monthly);
    assert(keep@ =~= Seq::new(dates@.len(), |i: int| stays(dates@, policy, i)));
    keep
}

/// The newest backups stay, as many as the policy says.
pub proof fn lemma_recent_stay(dates: Seq<Option<Date>>, policy: RetentionPolicy, i: int)
    requires
        0 <= i < dates.len(),
        i < policy.recent,
    ensures
        stays(dates, policy, i),
{
}

/// The newest backup of a day stays where fewer days than the policy keeps are newer.
pub proof fn lemma_daily_stay(dates: Seq<Option<Date>>, policy: RetentionPolicy, i: int)
    requires
        0 <= i < dates.len(),
        is_first(Seq::new(dates.len(), |k: int| day_bucket(dates[k])), i),
        firsts(Seq::new(dates.len(), |k: int| day_bucket(dates[k])), i) < policy.daily,
    ensures
        stays(dates, policy, i),
{
}

// ----------------------------------------------------------------------------- files

/// A file in the backup directory.
pub struct BackupEntry {
    pub name: String,
    /// When it was modified, in nanoseconds since 1970, where that is known.
    pub mtime: Option<i128>,
    /// The local date of that.
    pub date: Option<Date>,
}

/// The date in a backup's name, `focusflow_GROUP_YYYYMMDD_TIME.db`.
pub open spec fn name_date(name: Seq<char>) -> Option<Date> {
    if text::ends(name, ".db"@) {
        let parts = text::split_on(name.take(name.len() - 3), '_');
        if parts.len() >= 4 {
            calendar::parsed_date(parts[2], "%Y%m%d"@)
        } else {
            None
        }
    } else {
        None
    }
}

/// The date of a backup: that in its name, else that of its modification.
pub open spec fn date_of_backup(name: Seq<char>, modified: Option<Date>) -> Option<Date> {
    match name_date(name) {
        Some(d) => Some(d),
        None => modified,
    }
}

/// The date of a backup: that in its name, else that of its modification.
pub fn backup_file_date(name: &str, modified: Option<Date>) -> (r: Option<Date>)
    ensures
        r == date_of_backup(name@, modified),
        (modified matches Some(d) ==> d.valid()) ==> (r matches Some(d) ==> d.valid()),
{
    proof {
        reveal_strlit(".db");
    }
    if let Some(stem) = strip_suffix(name, ".db") {
        let parts = split_char(stem.as_str(), '_');
        if parts.len() >= 4 {
            assert(text::views(parts@)[2] == parts@[2]@);
            if let Some(d) = calendar::parse_date(parts[2].as_str(), "%Y%m%d") {
                return Some(d);
            }
        }
    }
    modified
}

/// The dates of backups.
pub open spec fn backup_dates(s: Seq<BackupEntry>) -> Seq<Option<Date>> {
    Seq::new(s.len(), |i: int| date_of_backup(s[i].name@, s[i].date))
}

/// Which of the backups of a group, newest first, stay.
pub fn select_retained(files: &Vec<BackupEntry>, policy: RetentionPolicy) -> (r: Vec<bool>)
    requires
        forall|i: int|
            0 <= i < files@.len() ==> ((#[trigger] files@[i]).date matches Some(d) ==> d.valid()),
    ensures
        r@ == Seq::new(files@.len(), |i: int| stays(backup_dates(files@), policy, i)),
{
    let mut dates: Vec<Option<Date>> = Vec::new();
    let mut i: usize = 0;
    while i < files.len()
        invariant
            i <= files.len(),
            dates@.len() == i,
            forall|k: int|
                0 <= k < files@.len() ==> ((#[trigger] files@[k]).date matches Some(d)
                    ==> d.valid()),
            forall|k: int|
                0 <= k < i ==> #[trigger] dates@[k] == date_of_backup(
                    files@[k].name@,
                    files@[k].date,
                ),
            forall|k: int| 0 <= k < i ==> (#[trigger] dates@[k] matches Some(d) ==> d.valid()),
        decreases files.len() - i,
    {
        assert(files@[i as int].date matches Some(d) ==> d.valid());
        dates.push(backup_file_date(files[i].name.as_str(), files[i].date));
        i = i + 1;
    }
    assert(dates@ =~= backup_dates(files@));
    select_by_date(&dates, policy)
}

/// The group of a backup: a year or the name of a database.
pub open spec fn group_of(name: Seq<char>) -> Option<Seq<char>> {
    if text::starts(name, "focusflow_"@) && text::ends(name.skip(10), ".db"@) {
        let stem = name.skip(10).take(name.len() - 13);
        let parts = text::split_on(stem, '_');
        if parts.len() >= 3 {
            Some(parts[0])
        } else {
            None
        }
    } else {
        None
    }
}

/// The group of a backup, `focusflow_GROUP_YYYYMMDD_TIME.db`.
pub fn backup_group(name: &str) -> (r: Option<String>)
    ensures
        match r {
            Some(g) => group_of(name@) == Some(g@),
            None => group_of(name@) is None,
        },
{
    proof {
        reveal_strlit(".db");
        reveal_strlit("focusflow_");
    }
    match strip_prefix(name, "focusflow_") {
        None => None,
        Some(rest) => match strip_suffix(rest.as_str(), ".db") {
            None => None,
            Some(stem) => {
                let mut parts = split_char(stem.as_str(), '_');
                if parts.len() >= 3 {
                    assert(text::views(parts@)[0] == parts@[0]@);
                    Some(parts[0].clone())
                } else {
                    None
                }
            },
        },
    }
}

/// A place in a list with a time; the latest first, of equal ones the last.
pub struct Placed {
    pub mtime: Option<i128>,
    pub at: usize,
}

/// A place in a list with a time.
pub type PlacedModel = (Option<i128>, int);

/// Whether the time `a` is later than `b`; a time that is not known is before all others.
pub open spec fn later(a: Option<i128>, b: Option<i128>) -> bool {
    match a {
        None => false,
        Some(x) => match b {
            None => true,
            Some(y) => x > y,
        },
    }
}

fn is_later(a: Option<i128>, b: Option<i128>) -> (r: bool)
    ensures
        r == later(a, b),
{
    match a {
        None => false,
        Some(x) => match b {
            None => true,
            Some(y) => x > y,
        },
    }
}

impl View for Placed {
    type V = PlacedModel;

    open spec fn view(&self) -> PlacedModel {
        (self.mtime, self.at as int)
    }
}

impl Ranked for Placed {
    open spec fn ahead(a: PlacedModel, b: PlacedModel) -> bool {
        later(a.0, b.0) || (!later(b.0, a.0) && a.1 > b.1)
    }

    fn goes_ahead(&self, other: &Self) -> (r: bool) {
        is_later(self.mtime, other.mtime) || (!is_later(other.mtime, self.mtime) && self.at
            > other.at)
    }
}

/// The places of the first `n` files that belong to a group.
pub open spec fn members(s: Seq<BackupEntry>, g: Seq<char>, n: int) -> Seq<PlacedModel>
    decreases n,
{
    if n <= 0 {
        Seq::empty()
    } else {
        let r = members(s, g, n - 1);
        if group_of(s[n - 1].name@) == Some(g) {
            r.push((s[n - 1].mtime, n - 1))
        } else {
            r
        }
    }
}

/// The places of the files of a group, newest first.
pub open spec fn newest_first(s: Seq<BackupEntry>, g: Seq<char>) -> Seq<PlacedModel> {
    order::ranked(members(s, g, s.len() as int), order::by_rank::<Placed>())
}

/// The dates of the files of a group, newest first.
pub open spec fn group_dates(s: Seq<BackupEntry>, g: Seq<char>) -> Seq<Option<Date>> {
    let o = newest_first(s, g);
    Seq::new(o.len(), |i: int| date_of_backup(s[o[i].1].name@, s[o[i].1].date))
}

/// Whether the file at place `i` stands at place `p` of its group, newest first, and the
/// policy does not keep it there.
pub open spec fn drops(
    s: Seq<BackupEntry>,
    g: Seq<char>,
    policy: RetentionPolicy,
    i: int,
    p: int,
) -> bool {
    &&& 0 <= p < newest_first(s, g).len()
    &&& newest_first(s, g)[p].1 == i
    &&& !stays(group_dates(s, g), policy, p)
}

/// Whether the file at place `i` goes: not while rotation is frozen, and else where it is a
/// backup that the policy does not keep in its group.
pub open spec fn goes(s: Seq<BackupEntry>, policy: RetentionPolicy, freeze: bool, i: int) -> bool {
    &&& !freeze
    &&& group_of(s[i].name@) matches Some(g) && exists|p: int| drops(s, g, policy, i, p)
}

pub proof fn lemma_members(s: Seq<BackupEntry>, g: Seq<char>, n: int)
    requires
        0 <= n <= s.len(),
    ensures
        forall|k: int|
            0 <= k < members(s, g, n).len() ==> 0 <= (#[trigger] members(s, g, n)[k]).1 < n
                && group_of(s[members(s, g, n)[k].1].name@) == Some(g) && members(s, g, n)[k].0
                == s[members(s, g, n)[k].1].mtime,
        forall|a: int, b: int|
            0 <= a < b < members(s, g, n).len() ==> (#[trigger] members(s, g, n)[a]).1 < (
            #[trigger] members(s, g, n)[b]).1,
        forall|i: int|
            0 <= i < n && group_of((#[trigger] s[i]).name@) == Some(g) ==> members(
                s,
                g,
                n,
            ).contains((s[i].mtime, i)),
    decreases n,
{
    if n > 0 {
        lemma_members(s, g, n - 1);
        let q = members(s, g, n - 1);
        let r = members(s, g, n);
        assert forall|k: int| 0 <= k < r.len() implies 0 <= (#[trigger] r[k]).1 < n && group_of(
            s[r[k].1].name@,
        ) == Some(g) && r[k].0 == s[r[k].1].mtime by {
            if k < q.len() {
                assert(r[k] == q[k]);
            }
        }
        assert forall|a: int, b: int| 0 <= a < b < r.len() implies (#[trigger] r[a]).1 < (
        #[trigger] r[b]).1 by {
            assert(r[a] == q[a]);
            if b < q.len() {
                assert(r[b] == q[b]);
            }
        }
        assert forall|i: int| 0 <= i < n && group_of((#[trigger] s[i]).name@) == Some(g) implies
            r.contains((s[i].mtime, i)) by {
            if i < n - 1 {
                let k = choose|k: int| 0 <= k < q.len() && q[k] == (s[i].mtime, i);
                assert(r[k] == q[k]);
            } else {
                assert(r[q.len() as int] == (s[i].mtime, i));
            }
        }
    }
}

fn group_members(files: &Vec<BackupEntry>, g: &str) -> (r: Vec<Placed>)
    ensures
        order::seen(r@) == members(files@, g@, files@.len() as int),
        forall|k: int| 0 <= k < r@.len() ==> (#[trigger] r@[k]).at < files@.len(),
{
    let mut out: Vec<Placed> = Vec::new();
    let mut i: usize = 0;
    assert(order::seen(out@) =~= members(files@, g@, 0));
    while i < files.len()
        invariant
            i <= files.len(),
            order::seen(out@) == members(files@, g@, i as int),
            forall|k: int| 0 <= k < out@.len() ==> (#[trigger] out@[k]).at < files@.len(),
        decreases files.len() - i,
    {
        let ghost before = out@;
        let hit = match backup_group(files[i].name.as_str()) {
            Some(x) => str_eq(x.as_str(), g),
            None => false,
        };
        if hit {
            out.push(Placed { mtime: files[i].mtime, at: i });
            assert(order::seen(out@) =~= order::seen(before).push(
                (files@[i as int].mtime, i as int),
            ));
        }
        i = i + 1;
    }
    out
}

/// Places stay places when they are ranked.
pub proof fn lemma_ranked_places(a: Seq<PlacedModel>, b: Seq<PlacedModel>, n: int)
    requires
        a.to_multiset() == b.to_multiset(),
        forall|k: int| 0 <= k < a.len() ==> 0 <= (#[trigger] a[k]).1 < n,
    ensures
        forall|k: int| 0 <= k < b.len() ==> 0 <= (#[trigger] b[k]).1 < n && a.contains(b[k]),
{
    assert forall|k: int| 0 <= k < b.len() implies 0 <= (#[trigger] b[k]).1 < n && a.contains(
        b[k],
    ) by {
        assert(b.contains(b[k]));
        vstd::seq_lib::to_multiset_contains(b, b[k]);
        vstd::seq_lib::to_multiset_contains(a, b[k]);
        let j = choose|j: int| 0 <= j < a.len() && a[j] == b[k];
        assert(0 <= a[j].1 < n);
    }
}

/// Which of the files in the backup directory go. The files of a group are looked at
/// newest first; `freeze` keeps them all.
pub fn rotate_backups(files: &Vec<BackupEntry>, policy: RetentionPolicy, freeze: bool) -> (r: Vec<
    bool,
>)
    requires
        forall|i: int|
            0 <= i < files@.len() ==> ((#[trigger] files@[i]).date matches Some(d) ==> d.valid()),
    ensures
        r@ == Seq::new(files@.len(), |i: int| goes(files@, policy, freeze, i)),
{
    let ghost s = files@;
    let mut out: Vec<bool> = Vec::new();
    let mut i: usize = 0;
    while i < files.len()
        invariant
            i <= files.len(),
            s == files@,
            out@.len() == i,
            forall|k: int|
                0 <= k < s.len() ==> ((#[trigger] s[k]).date matches Some(d) ==> d.valid()),
            forall|k: int| 0 <= k < i ==> #[trigger] out@[k] == goes(s, policy, freeze, k),
        decreases files.len() - i,
    {
        let mut gone = false;
        if !freeze {
            if let Some(g) = backup_group(files[i].name.as_str()) {
                let list = group_members(files, g.as_str());
                let ghost m = order::seen(list@);
                let ghost o = newest_first(s, g@);
                proof {
                    lemma_members(s, g@, s.len() as int);
                    order::lemma_ranked_keeps(m, order::by_rank::<Placed>());
                    lemma_ranked_places(m, o, s.len() as int);
                }
                let sorted = rank(list);
                assert(order::seen(sorted@) == o);
                let mut dates: Vec<Option<Date>> = Vec::new();
                let mut k: usize = 0;
                while k < sorted.len()
                    invariant
                        k <= sorted.len(),
                        s == files@,
                        o == newest_first(s, g@),
                        order::seen(sorted@) == o,
                        dates@.len() == k,
                        forall|x: int| 0 <= x < o.len() ==> 0 <= (#[trigger] o[x]).1 < s.len(),
                        forall|x: int|
                            0 <= x < s.len() ==> ((#[trigger] s[x]).date matches Some(d)
                                ==> d.valid()),
                        forall|x: int|
                            0 <= x < k ==> #[trigger] dates@[x] == date_of_backup(
                                s[o[x].1].name@,
                                s[o[x].1].date,
                            ),
                        forall|x: int|
                            0 <= x < k ==> (#[trigger] dates@[x] matches Some(d) ==> d.valid()),
                    decreases sorted.len() - k,
                {
                    assert(o[k as int] == sorted@[k as int]@);
                    let at = sorted[k].at;
                    assert(s[at as int].date matches Some(d) ==> d.valid());
                    dates.push(backup_file_date(files[at].name.as_str(), files[at].date));
                    k = k + 1;
                }
                assert(dates@ =~= group_dates(s, g@));
                let keep = select_by_date(&dates, policy);
                let mut p: usize = 0;
                while p < sorted.len()
                    invariant
                        p <= sorted.len(),
                        order::seen(sorted@) == o,
                        o == newest_first(s, g@),
                        keep@ == Seq::new(
                            o.len(),
                            |x: int| stays(group_dates(s, g@), policy, x),
                        ),
                        gone == exists|x: int|
                            0 <= x < p && #[trigger] drops(s, g@, policy, i as int, x),
                    decreases sorted.len() - p,
                {
                    assert(o[p as int] == sorted@[p as int]@);
                    assert((sorted@[p as int].at == i && !keep@[p as int]) == drops(
                        s,
                        g@,
                        policy,
                        i as int,
                        p as int,
                    ));
                    if sorted[p].at == i && !keep[p] {
                        gone = true;
                    }
                    p = p + 1;
                }
                assert(o.len() == sorted@.len());
                proof {
                    let own = group_of(s[i as int].name@);
                    assert(own == Some(g@));
                    if gone {
                        let x = choose|x: int|
                            0 <= x < p && #[trigger] drops(s, g@, policy, i as int, x);
                        assert(drops(s, own->0, policy, i as int, x));
                    }
                }
                assert(gone == goes(s, policy, freeze, i as int));
            }
        }
        out.push(gone);
        i = i + 1;
    }
    assert(out@ =~= Seq::new(files@.len(), |i: int| goes(files@, policy, freeze, i)));
    out
}

/// While rotation is frozen no file goes.
pub proof fn lemma_freeze_keeps_all(s: Seq<BackupEntry>, policy: RetentionPolicy, i: int)
    ensures
        !goes(s, policy, true, i),
{
}

/// Whether a file is a backup of a group by its name.
pub open spec fn is_of_group(name: Seq<char>, group: Seq<char>) -> bool {
    text::starts(name, "focusflow_"@ + group + "_"@) && text::ends(name, ".db"@)
}

/// The place of the latest of the first `n` files of a group, of equal ones the last; -1
/// where there is none.
pub open spec fn newest_at(s: Seq<BackupEntry>, group: Seq<char>, n: int) -> int
    decreases n,
{
    if n <= 0 {
        -1
    } else {
        let k = newest_at(s, group, n - 1);
        if is_of_group(s[n - 1].name@, group) && (k < 0 || !later(s[k].mtime, s[n - 1].mtime)) {
            n - 1
        } else {
            k
        }
    }
}

/// The place of the newest backup of a group.
pub fn newest_backup_of_group(files: &Vec<BackupEntry>, group: &str) -> (r: Option<usize>)
    ensures
        match r {
            Some(i) => i < files@.len() && newest_at(files@, group@, files@.len() as int) == i,
            None => newest_at(files@, group@, files@.len() as int) == -1,
        },
{
    let prefix = "focusflow_".to_owned().concat(group).concat("_");
    let mut best: Option<usize> = None;
    let mut i: usize = 0;
    while i < files.len()
        invariant
            i <= files.len(),
            prefix@ == "focusflow_"@ + group@ + "_"@,
            match best {
                Some(k) => k < i && newest_at(files@, group@, i as int) == k,
                None => newest_at(files@, group@, i as int) == -1,
            },
        decreases files.len() - i,
    {
        let name = files[i].name.as_str();
        if starts_with(name, prefix.as_str()) && strip_suffix(name, ".db").is_some() {
            let newer = match best {
                None => true,
                Some(k) => !is_later(files[k].mtime, files[i].mtime),
            };
            if newer {
                best = Some(i);
            }
        }
        i = i + 1;
    }
    best
}

/// The database that a leftover file belongs to.
pub open spec fn sidecar_of(name: Seq<char>) -> Option<Seq<char>> {
    if !text::starts(name, "focusflow_"@) {
        None
    } else if text::ends(name, "-wal"@) || text::ends(name, "-shm"@) {
        Some(name.take(name.len() - 4))
    } else {
        None
    }
}

/// The database that a leftover file of a backup belongs to.
pub fn sidecar_base(name: &str) -> (r: Option<String>)
    ensures
        match r {
            Some(b) => sidecar_of(name@) == Some(b@),
            None => sidecar_of(name@) is None,
        },
{
    proof {
        reveal_strlit("-wal");
        reveal_strlit("-shm");
    }
    if !starts_with(name, "focusflow_") {
        return None;
    }
    match strip_suffix(name, "-wal") {
        Some(b) => Some(b),
        None => strip_suffix(name, "-shm"),
    }
}

/// Whether a leftover file can go: its database is gone, or its log is empty or missing,
/// so that nothing is lost with it.
pub fn is_stale_sidecar(db_exists: bool, wal_len: Option<u64>) -> (r: bool)
    ensures
        r == (!db_exists || wal_len is None || wal_len == Some(0u64)),
{
    let empty = match wal_len {
        Some(n) => n == 0,
        None => true,
    };
    !db_exists || empty
}

/// Whether what a database left beside a finished backup can go: the backup is a single
/// file now, or its log is empty or missing, so that nothing is lost with it.
pub fn finalize_backup(switched: bool, wal_len: Option<u64>) -> (r: bool)
    ensures
        r == (switched || wal_len is None || wal_len == Some(0u64)),
{
    let empty = match wal_len {
        Some(n) => n == 0,
        None => true,
    };
    switched || empty
}

// ----------------------------------------------------------------------------- policy

/// An integer setting, at least `low`.
pub open spec fn setting_at_least(value: Seq<char>, default: int, low: int) -> int {
    let n = match text::int_within(text::trimmed(value), i64::MIN as int, i64::MAX as int) {
        Some(n) => n,
        None => default,
    };
    if n < low {
        low
    } else {
        n
    }
}

fn int_at_least(config: &FocusFlowConfig, key: &str, default: i64, low: i64) -> (r: u64)
    requires
        config.wf(),
        low >= 0,
    ensures
        r == setting_at_least(config.value("database"@, key@), default as int, low as int),
{
    let n = config.get_int("database", key, default);
    if n < low {
        low as u64
    } else {
        n as u64
    }
}

impl RetentionPolicy {
    /// The policy that the settings say.
    pub fn from_config(config: &FocusFlowConfig) -> (r: Self)
        requires
            config.wf(),
        ensures
            r.recent == setting_at_least(config.value("database"@, "max_backups"@), 5, 1),
            r.daily == setting_at_least(config.value("database"@, "backup_keep_daily"@), 7, 0),
            r.weekly == setting_at_least(config.value("database"@, "backup_keep_weekly"@), 4, 0),
            r.monthly == setting_at_least(config.value("database"@, "backup_keep_monthly"@), 6, 0),
    {
        RetentionPolicy {
            recent: int_at_least(config, "max_backups", 5, 1),
            daily: int_at_least(config, "backup_keep_daily", 7, 0),
            weekly: int_at_least(config, "backup_keep_weekly", 4, 0),
            monthly: int_at_least(config, "backup_keep_monthly", 6, 0),
        }
    }
}

// ---------------------------------------------------------------------------- changes

/// How much the tables of a backup hold.
#[derive(Clone, Copy, PartialEq, Eq, Structural, Debug)]
pub struct BackupFingerprint {
    /// All key presses.
    pub total: i64,
    /// The days with a row.
    pub days: i64,
}

/// The number of key presses from which a change says something.
pub const MIN_SAMPLE: i64 = 1_000;

/// Whether a backup differs from the one before it as if data was lost or counted twice:
/// less than half or more than four times the presses, or days missing.
pub open spec fn suspicious(prev: BackupFingerprint, cur: BackupFingerprint) -> bool {
    &&& prev.total >= MIN_SAMPLE
    &&& cur.total >= MIN_SAMPLE
    &&& (cur.total * 2 < prev.total || cur.total > prev.total * 4 || cur.days + 1 < prev.days)
}

/// Whether a backup differs from the one before it as if data was lost or counted twice.
pub fn is_suspicious_change(prev: BackupFingerprint, cur: BackupFingerprint) -> (r: bool)
    ensures
        r == suspicious(prev, cur),
{
    if prev.total < MIN_SAMPLE || cur.total < MIN_SAMPLE {
        return false;
    }
    let p: i128 = prev.total as i128;
    let c: i128 = cur.total as i128;
    c * 2 < p || c > p * 4 || (cur.days as i128) + 1 < prev.days as i128
}

/// Whether the file of a past year needs a new backup: unless its size and time are known
/// and are those that its newest backup was made from.
pub fn year_db_needs_backup(current: Option<(i64, i128)>, recorded: Option<(i64, i128)>) -> (r:
    bool)
    ensures
        r == !(current is Some && recorded is Some && current == recorded),
{
    match (current, recorded) {
        (Some(a), Some(b)) => !(a.0 == b.0 && a.1 == b.1),
        _ => true,
    }
}

fn fingerprint_text(name: &str, f: BackupFingerprint) -> (r: String)
    ensures
        r@ == name@ + "（总次数 "@ + text::dec(f.total as int) + "，天数 "@ + text::dec(
            f.days as int,
        ) + "）"@,
{
    let total = dec_i64(f.total);
    let days = dec_i64(f.days);
    name.to_owned().concat("（总次数 ").concat(total.as_str()).concat("，天数 ").concat(
        days.as_str(),
    ).concat("）")
}

/// What is noted of a suspicious change.
pub open spec fn change_text(
    old_name: Seq<char>,
    prev: BackupFingerprint,
    new_name: Seq<char>,
    cur: BackupFingerprint,
) -> Seq<char> {
    "对比对象: "@ + (old_name + "（总次数 "@ + text::dec(prev.total as int) + "，天数 "@
        + text::dec(prev.days as int) + "）"@) + "\n本次备份: "@ + (new_name + "（总次数 "@
        + text::dec(cur.total as int) + "，天数 "@ + text::dec(cur.days as int) + "）"@)
}

/// What is noted of a suspicious change between two backups; nothing where there is none.
pub fn change_note(
    old_name: &str,
    prev: BackupFingerprint,
    new_name: &str,
    cur: BackupFingerprint,
) -> (r: Option<String>)
    ensures
        match r {
            Some(t) => suspicious(prev, cur) && t@ == change_text(old_name@, prev, new_name@, cur),
            None => !suspicious(prev, cur),
        },
{
    if !is_suspicious_change(prev, cur) {
        return None;
    }
    let a = fingerprint_text(old_name, prev);
    let b = fingerprint_text(new_name, cur);
    let r = "对比对象: ".to_owned().concat(a.as_str()).concat("\n本次备份: ").concat(b.as_str());
    Some(r)
}

/// The text of the note that is left beside the backups.
pub fn suspect_note(timestamp: &str, detail: &str) -> (r: String)
    ensures
        r@ == "检测到备份数据异常，已冻结轮转（本次未删除任何旧备份）\n时间: "@ + timestamp@
            + "\n"@ + detail@
            + "\n建议：先别继续备份，确认统计是否异常（可与更早的备份对比）。\n备份是单文件快照，可直接把更早的那份改名回 data/ 下的同名库来恢复。\n"@,
{
    "检测到备份数据异常，已冻结轮转（本次未删除任何旧备份）\n时间: ".to_owned().concat(
        timestamp,
    ).concat("\n").concat(detail).concat(
        "\n建议：先别继续备份，确认统计是否异常（可与更早的备份对比）。\n备份是单文件快照，可直接把更早的那份改名回 data/ 下的同名库来恢复。\n",
    )
}

// ------------------------------------------------------------------------------- plan

/// The trimmed entries of a list separated by commas that are not blank.
pub open spec fn stems(parts: Seq<Seq<char>>) -> Seq<Seq<char>>
    decreases parts.len(),
{
    if parts.len() == 0 {
        Seq::empty()
    } else {
        let r = stems(parts.drop_last());
        let t = text::trimmed(parts.last());
        if t.len() > 0 {
            r.push(t)
        } else {
            r
        }
    }
}

/// The plugins that are switched off.
pub fn disabled_plugin_stems(config: &FocusFlowConfig) -> (r: Vec<String>)
    requires
        config.wf(),
    ensures
        text::views(r@) == stems(text::split_on(config.value("plugins"@, "disabled"@), ',')),
{
    let raw = config.get_or("plugins", "disabled", "");
    proof {
        reveal_strlit("");
        let v = config.value("plugins"@, "disabled"@);
        if v.len() == 0 {
            assert(""@ =~= v);
        }
    }
    let parts = split_char(raw.as_str(), ',');
    let ghost p = text::views(parts@);
    let mut out: Vec<String> = Vec::new();
    let mut i: usize = 0;
    assert(text::views(out@) =~= stems(p.take(0)));
    while i < parts.len()
        invariant
            i <= parts.len(),
            p == text::views(parts@),
            text::views(out@) == stems(p.take(i as int)),
        decreases parts.len() - i,
    {
        let ghost before = out@;
        proof {
            let t1 = p.take(i as int + 1);
            assert(t1.drop_last() =~= p.take(i as int));
            assert(t1.last() == parts@[i as int]@);
            reveal_strlit("");
        }
        let t = trim(parts[i].as_str());
        if !str_eq(t.as_str(), "") {
            proof {
                if t@.len() == 0 {
                    assert(t@ =~= ""@);
                }
            }
            let ghost tv = t@;
            out.push(t);
            assert(text::views(out@) =~= text::views(before).push(tv));
        }
        i = i + 1;
    }
    assert(p.take(i as int) =~= p);
    out
}

/// Whether the database of a plugin is backed up: always where that is forced, else where
/// the plugin is not switched off.
pub fn should_backup_aux(plugin_stem: &str, disabled: &Vec<String>, force: bool) -> (r: bool)
    ensures
        r == (force || !text::views(disabled@).contains(plugin_stem@)),
{
    let ghost d = text::views(disabled@);
    if force {
        return true;
    }
    let mut i: usize = 0;
    while i < disabled.len()
        invariant
            i <= disabled.len(),
            !force,
            d == text::views(disabled@),
            forall|k: int| 0 <= k < i ==> #[trigger] d[k] != plugin_stem@,
        decreases disabled.len() - i,
    {
        assert(d[i as int] == disabled@[i as int]@);
        if str_eq(disabled[i].as_str(), plugin_stem) {
            assert(d[i as int] == plugin_stem@);
            return false;
        }
        i = i + 1;
    }
    true
}

/// The databases beside the yearly ones: the name, and the plugin that writes it.
pub fn auxiliary_dbs() -> (r: Vec<(String, String)>)
    ensures
        r@.len() == 4,
        r@[0].0@ == "accounting"@ && r@[0].1@ == "accounting_plugin"@,
        r@[1].0@ == "pomodoro"@ && r@[1].1@ == "pomodoro_plugin"@,
        r@[2].0@ == "scheduler"@ && r@[2].1@ == "scheduler_plugin"@,
        r@[3].0@ == "edge_history"@ && r@[3].1@ == "edge_history_plugin"@,
{
    let mut r: Vec<(String, String)> = Vec::new();
    r.push(("accounting".to_owned(), "accounting_plugin".to_owned()));
    r.push(("pomodoro".to_owned(), "pomodoro_plugin".to_owned()));
    r.push(("scheduler".to_owned(), "scheduler_plugin".to_owned()));
    r.push(("edge_history".to_owned(), "edge_history_plugin".to_owned()));
    r
}

/// What is known of the file of a year before a backup.
pub struct YearSource {
    pub year: i32,
    pub exists: bool,
    /// Its size and time.
    pub current: Option<(i64, i128)>,
    /// The size and time that its newest backup was made from.
    pub recorded: Option<(i64, i128)>,
}

/// What is known of another database before a backup.
pub struct AuxSource {
    pub name: String,
    pub plugin_stem: String,
    pub exists: bool,
}

/// A backup to make: of a year, or of another database.
pub struct Target {
    pub year: Option<i32>,
    /// The name of the database: the year or its own.
    pub group: String,
    /// The name of the file to write.
    pub file: String,
}

/// A backup to make: the year, the name of the database, the name of the file.
pub type TargetModel = (Option<i32>, Seq<char>, Seq<char>);

impl View for Target {
    type V = TargetModel;

    open spec fn view(&self) -> TargetModel {
        (self.year, self.group@, self.file@)
    }
}

/// The name of a backup.
pub open spec fn file_name(group: Seq<char>, timestamp: Seq<char>) -> Seq<char> {
    "focusflow_"@ + group + "_"@ + timestamp + ".db"@
}

/// Whether the file of a year is backed up: the current year always, a past year where it
/// changed since its newest backup.
pub open spec fn wants_year(s: YearSource, current_year: i32) -> bool {
    s.exists && (s.year == current_year || !(s.current is Some && s.recorded is Some && s.current
        == s.recorded))
}

pub open spec fn year_targets(s: Seq<YearSource>, current_year: i32, timestamp: Seq<char>) -> Seq<
    TargetModel,
>
    decreases s.len(),
{
    if s.len() == 0 {
        Seq::empty()
    } else {
        let r = year_targets(s.drop_last(), current_year, timestamp);
        let y = s.last();
        let g = text::dec(y.year as int);
        if wants_year(y, current_year) {
            r.push((Some(y.year), g, file_name(g, timestamp)))
        } else {
            r
        }
    }
}

pub open spec fn aux_targets(
    s: Seq<AuxSource>,
    disabled: Seq<Seq<char>>,
    force: bool,
    timestamp: Seq<char>,
) -> Seq<TargetModel>
    decreases s.len(),
{
    if s.len() == 0 {
        Seq::empty()
    } else {
        let r = aux_targets(s.drop_last(), disabled, force, timestamp);
        let a = s.last();
        if a.exists && (force || !disabled.contains(a.plugin_stem@)) {
            r.push((None, a.name@, file_name(a.name@, timestamp)))
        } else {
            r
        }
    }
}

fn make_file_name(group: &str, timestamp: &str) -> (r: String)
    ensures
        r@ == file_name(group@, timestamp@),
{
    "focusflow_".to_owned().concat(group).concat("_").concat(timestamp).concat(".db")
}

/// The backups to make, those of the years first.
pub fn backup_database(
    years: &Vec<YearSource>,
    aux: &Vec<AuxSource>,
    disabled: &Vec<String>,
    force: bool,
    current_year: i32,
    timestamp: &str,
) -> (r: Vec<Target>)
    ensures
        order::seen(r@) == year_targets(years@, current_year, timestamp@) + aux_targets(
            aux@,
            text::views(disabled@),
            force,
            timestamp@,
        ),
{
    let mut out: Vec<Target> = Vec::new();
    let mut i: usize = 0;
    assert(order::seen(out@) =~= year_targets(years@.take(0), current_year, timestamp@));
    while i < years.len()
        invariant
            i <= years.len(),
            order::seen(out@) == year_targets(years@.take(i as int), current_year, timestamp@),
        decreases years.len() - i,
    {
        let ghost before = out@;
        proof {
            let t1 = years@.take(i as int + 1);
            assert(t1.drop_last() =~= years@.take(i as int));
            assert(t1.last() == years@[i as int]);
        }
        let y = &years[i];
        if y.exists && (y.year == current_year || year_db_needs_backup(y.current, y.recorded)) {
            let group = dec_i64(y.year as i64);
            let file = make_file_name(group.as_str(), timestamp);
            let t = Target { year: Some(y.year), group, file };
            let ghost tv = t@;
            out.push(t);
            assert(order::seen(out@) =~= order::seen(before).push(tv));
        }
        i = i + 1;
    }
    assert(years@.take(i as int) =~= years@);
    let ghost first = order::seen(out@);
    let ghost d = text::views(disabled@);
    let mut j: usize = 0;
    proof {
        assert(aux_targets(aux@.take(0), d, force, timestamp@) =~= Seq::empty());
        assert(order::seen(out@) =~= first + aux_targets(aux@.take(0), d, force, timestamp@));
    }
    while j < aux.len()
        invariant
            j <= aux.len(),
            d == text::views(disabled@),
            order::seen(out@) == first + aux_targets(aux@.take(j as int), d, force, timestamp@),
        decreases aux.len() - j,
    {
        let ghost before = out@;
        let ghost done = aux_targets(aux@.take(j as int), d, force, timestamp@);
        proof {
            let t1 = aux@.take(j as int + 1);
            assert(t1.drop_last() =~= aux@.take(j as int));
            assert(t1.last() == aux@[j as int]);
        }
        let a = &aux[j];
        if a.exists && should_backup_aux(a.plugin_stem.as_str(), disabled, force) {
            let file = make_file_name(a.name.as_str(), timestamp);
            let t = Target { year: None, group: a.name.clone(), file };
            let ghost tv = t@;
            out.push(t);
            proof {
                assert(order::seen(out@) =~= order::seen(before).push(tv));
                assert(order::seen(out@) =~= first + done.push(tv));
            }
        }
        j = j + 1;
    }
    assert(aux@.take(j as int) =~= aux@);
    out
}

/// How far the backup of one database is.
#[derive(Clone, Copy, PartialEq, Eq, Structural, Debug)]
pub enum FileStep {
    /// Copying through the database.
    Online,
    /// Making one file of the copy and checking it, after writing the source's size and
    /// time into it (`stamp`). `last` says that no other way is left.
    Seal { stamp: bool, last: bool },
    /// Removing what there is and bringing the log of the source into it.
    Checkpoint,
    /// Copying the file of the source. `stamp` says that the log is in it.
    CopyFile { stamp: bool },
    /// Done: the backup counts (`ok`), or what there is of it is removed.
    Done { ok: bool },
}

/// The step after one that succeeded (`ok`) or failed. The file of a year has a second way
/// where the first fails; other databases have not.
pub open spec fn after_step(step: FileStep, ok: bool, of_year: bool) -> FileStep {
    match step {
        FileStep::Online => if ok {
            FileStep::Seal { stamp: of_year, last: !of_year }
        } else if of_year {
            FileStep::Checkpoint
        } else {
            FileStep::Done { ok: false }
        },
        FileStep::Seal { stamp, last } => if ok {
            FileStep::Done { ok: true }
        } else if last {
            FileStep::Done { ok: false }
        } else {
            FileStep::Checkpoint
        },
        FileStep::Checkpoint => FileStep::CopyFile { stamp: ok },
        FileStep::CopyFile { stamp } => if ok {
            FileStep::Seal { stamp, last: true }
        } else {
            FileStep::Done { ok: false }
        },
        FileStep::Done { ok: was } => FileStep::Done { ok: was },
    }
}

/// The step after one that succeeded (`ok`) or failed.
pub fn next_step(step: FileStep, ok: bool, of_year: bool) -> (r: FileStep)
    ensures
        r == after_step(step, ok, of_year),
{
    match step {
        FileStep::Online => if ok {
            FileStep::Seal { stamp: of_year, last: !of_year }
        } else if of_year {
            FileStep::Checkpoint
        } else {
            FileStep::Done { ok: false }
        },
        FileStep::Seal { stamp, last } => if ok {
            FileStep::Done { ok: true }
        } else if last {
            FileStep::Done { ok: false }
        } else {
            FileStep::Checkpoint
        },
        FileStep::Checkpoint => FileStep::CopyFile { stamp: ok },
        FileStep::CopyFile { stamp } => if ok {
            FileStep::Seal { stamp, last: true }
        } else {
            FileStep::Done { ok: false }
        },
        FileStep::Done { ok: was } => FileStep::Done { ok: was },
    }
}

/// How many steps are left at most.
pub open spec fn steps_left(step: FileStep) -> int {
    match step {
        FileStep::Online => 5,
        FileStep::Seal { stamp, last } => if last {
            1
        } else {
            4
        },
        FileStep::Checkpoint => 3,
        FileStep::CopyFile { stamp } => 2,
        FileStep::Done { ok } => 0,
    }
}

/// A backup comes to its end, and it counts only where the check of its file succeeded.
pub proof fn lemma_backup_ends_checked(step: FileStep, ok: bool, of_year: bool)
    requires
        !(step is Done),
    ensures
        steps_left(after_step(step, ok, of_year)) < steps_left(step),
        after_step(step, ok, of_year) == (FileStep::Done { ok: true }) ==> step is Seal && ok,
{
}

/// What to do with the old backups after `done` new ones were made: nothing where there
/// are none, else to rotate by the policy with `max_backups` newest ones, frozen after a
/// suspicious change.
pub fn after_backup(
    done: usize,
    is_suspicious: bool,
    policy: RetentionPolicy,
    max_backups: i64,
) -> (r: Option<(RetentionPolicy, bool)>)
    ensures
        r == (if done == 0 {
            None
        } else {
            Some(
                (
                    (RetentionPolicy {
                        recent: (if max_backups < 1 {
                            1
                        } else {
                            max_backups as int
                        }) as u64,
                        ..policy
                    }),
                    is_suspicious,
                ),
            )
        }),
{
    if done == 0 {
        return None;
    }
    let recent: u64 = if max_backups < 1 {
        1
    } else {
        max_backups as u64
    };
    let p = RetentionPolicy {
        recent,
        daily: policy.daily,
        weekly: policy.weekly,
        monthly: policy.monthly,
    };
    Some((p, is_suspicious))
}

/// What a look at the clock says to the thread that makes backups.
#[derive(Clone, Copy, PartialEq, Eq, Structural, Debug)]
pub enum Tick {
    /// Backups are switched off: time starts anew.
    Off,
    /// It is not time yet.
    Wait,
    /// It is time: make one, and time starts anew.
    Backup,
}

/// The hours between two backups that a setting says: 0 to a year.
pub open spec fn interval_hours(setting: int) -> int {
    if setting < 0 {
        0
    } else if setting > 8760 {
        8760
    } else {
        setting
    }
}

/// Whether it is time for a backup, `elapsed` seconds after the last one.
pub fn periodic_tick(setting: i64, elapsed: u64) -> (r: Tick)
    ensures
        r == (if interval_hours(setting as int) == 0 {
            Tick::Off
        } else if elapsed >= interval_hours(setting as int) * 3600 {
            Tick::Backup
        } else {
            Tick::Wait
        }),
{
    let hours: u64 = if setting < 0 {
        0
    } else if setting > 8760 {
        8760
    } else {
        setting as u64
    };
    if hours == 0 {
        Tick::Off
    } else if elapsed >= hours * 3600 {
        Tick::Backup
    } else {
        Tick::Wait
    }
}

/// Whether the files are compacted: where that is switched on, and the last time is not
/// known or at least `auto_days` days ago. `since` is the time since then in nanoseconds.
pub fn vacuum_due(auto_days: i64, since: Option<i128>) -> (r: bool)
    ensures
        r == (auto_days > 0 && !(since matches Some(n) && n < auto_days
            * 86_400_000_000_000)),
{
    if auto_days <= 0 {
        return false;
    }
    match since {
        Some(n) => {
            assert(0 < auto_days * 86_400_000_000_000 < 0x4000_0000_0000_0000_0000_0000_0000_0000)
                by (nonlinear_arith)
                requires
                    0 < auto_days <= 0x7fff_ffff_ffff_ffff,
            ;
            !(n < auto_days as i128 * 86_400_000_000_000)
        },
        None => true,
    }
}

/// The nanoseconds from one instant to another, each given in seconds and nanoseconds.
pub open spec fn nanos_between(from: (i64, u32), to: (i64, u32)) -> int {
    (to.0 - from.0) * 1_000_000_000 + (to.1 - from.1)
}

/// Whether the files are compacted now. `last` is when they last were, as it was noted; a
/// note that is no time counts as none.
pub fn maybe_auto_vacuum(auto_days: i64, last: Option<&str>, now: (i64, u32)) -> (r: bool)
    ensures
        r == (auto_days > 0 && !(last matches Some(t) && calendar::parsed_instant(
            t@,
        ) matches Some(p) && nanos_between(p, now) < auto_days * 86_400_000_000_000)),
{
    let since: Option<i128> = match last {
        Some(t) => match calendar::parse_instant(t) {
            Some(p) => Some(
                (now.0 as i128 - p.0 as i128) * 1_000_000_000 + (now.1 as i128 - p.1 as i128),
            ),
            None => None,
        },
        None => None,
    };
    vacuum_due(auto_days, since)
}

} // verus!
