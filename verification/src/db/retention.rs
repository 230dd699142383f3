//! What the rules for backups come to: which stay, which one is the newest, and what their
//! names tell.
use vstd::prelude::*;

use crate::calendar;
use crate::calendar::Date;
use crate::db::backup;
use crate::db::backup::{
    AuxSource, BackupEntry, BackupFingerprint, Bucket, FileStep, Placed, PlacedModel,
    RetentionPolicy, YearSource,
};
use crate::order;
use crate::text;

verus! {

/// The buckets that the first `n` backups fall into.
pub open spec fn before(b: Seq<Bucket>, n: int) -> Set<(int, int)> {
    Set::new(|x: (int, int)| exists|j: int| 0 <= j < n && #[trigger] b[j] == Some(x))
}

proof fn lemma_firsts(b: Seq<Bucket>, n: int)
    requires
        0 <= n <= b.len(),
    ensures
        before(b, n).finite(),
        backup::firsts(b, n) == before(b, n).len(),
    decreases n,
{
    if n == 0 {
        assert(before(b, 0) =~= Set::empty());
    } else {
        lemma_firsts(b, n - 1);
        let s = before(b, n - 1);
        let t = before(b, n);
        if b[n - 1] is Some {
            let x = b[n - 1]->0;
            assert forall|y: (int, int)| t.contains(y) <==> s.contains(y) || y == x by {
                if t.contains(y) {
                    let j = choose|j: int| 0 <= j < n && #[trigger] b[j] == Some(y);
                    if j < n - 1 {
                        assert(b[j] == Some(y));
                    }
                }
                if s.contains(y) {
                    let j = choose|j: int| 0 <= j < n - 1 && #[trigger] b[j] == Some(y);
                    assert(0 <= j < n && b[j] == Some(y));
                }
                if y == x {
                    assert(b[n - 1] == Some(y));
                }
            }
            assert(t =~= s.insert(x));
            assert(backup::is_first(b, n - 1) <==> !s.contains(x)) by {
                if s.contains(x) {
                    let j = choose|j: int| 0 <= j < n - 1 && #[trigger] b[j] == Some(x);
                    assert(b[j] == b[n - 1]);
                }
            }
        } else {
            assert forall|y: (int, int)| t.contains(y) <==> s.contains(y) by {
                if t.contains(y) {
                    let j = choose|j: int| 0 <= j < n && #[trigger] b[j] == Some(y);
                    assert(0 <= j < n - 1 && b[j] == Some(y));
                }
                if s.contains(y) {
                    let j = choose|j: int| 0 <= j < n - 1 && #[trigger] b[j] == Some(y);
                    assert(0 <= j < n && b[j] == Some(y));
                }
            }
            assert(t =~= s);
        }
    }
}

/// The days of backups.
pub open spec fn days(dates: Seq<Option<Date>>) -> Seq<Bucket> {
    Seq::new(
        dates.len(),
        |k: int|
            match dates[k] {
                Some(d) => Some((d.number(), 0int)),
                None => None,
            },
    )
}

/// The weeks of backups.
pub open spec fn weeks(dates: Seq<Option<Date>>) -> Seq<Bucket> {
    Seq::new(
        dates.len(),
        |k: int|
            match dates[k] {
                Some(d) => Some(backup::week_of(d.number())),
                None => None,
            },
    )
}

/// The months of backups.
pub open spec fn months(dates: Seq<Option<Date>>) -> Seq<Bucket> {
    Seq::new(
        dates.len(),
        |k: int|
            match dates[k] {
                Some(d) => Some((d.year as int, d.month as int)),
                None => None,
            },
    )
}

/// Whether the backup at `i` is the newest of its day, week or month, and one of the newest
/// `max` days, weeks or months that there are.
pub open spec fn newest_of_few(b: Seq<Bucket>, max: int, i: int) -> bool {
    b[i] matches Some(x) && !before(b, i).contains(x) && before(b, i).len() < max
}

/// A backup in a list, newest first, stays exactly where it is one of the newest ones; or the
/// newest of its day, and of one of the newest days; or so for weeks; or so for months.
pub proof fn lemma_what_stays(dates: Seq<Option<Date>>, policy: RetentionPolicy, i: int)
    requires
        0 <= i < dates.len(),
    ensures
        backup::stays(dates, policy, i) <==> i < policy.recent || newest_of_few(
            days(dates),
            policy.daily as int,
            i,
        ) || newest_of_few(weeks(dates), policy.weekly as int, i) || newest_of_few(
            months(dates),
            policy.monthly as int,
            i,
        ),
{
    let d = Seq::new(dates.len(), |k: int| backup::day_bucket(dates[k]));
    let w = Seq::new(dates.len(), |k: int| backup::week_bucket(dates[k]));
    let m = Seq::new(dates.len(), |k: int| backup::month_bucket(dates[k]));
    assert(d =~= days(dates));
    assert(w =~= weeks(dates));
    assert(m =~= months(dates));
    lemma_kept_by(d, policy.daily as int, i);
    lemma_kept_by(w, policy.weekly as int, i);
    lemma_kept_by(m, policy.monthly as int, i);
}

proof fn lemma_kept_by(b: Seq<Bucket>, max: int, i: int)
    requires
        0 <= i < b.len(),
    ensures
        backup::kept_by(b, max, i) == newest_of_few(b, max, i),
{
    lemma_firsts(b, i);
    if b[i] is Some {
        let x = b[i]->0;
        if before(b, i).contains(x) {
            let j = choose|j: int| 0 <= j < i && #[trigger] b[j] == Some(x);
            assert(b[j] == b[i]);
        }
        if !backup::is_first(b, i) {
            let j = choose|j: int| 0 <= j < i && #[trigger] b[j] == b[i];
            assert(b[j] == Some(x));
        }
    }
}

/// Whether the file at `j` is of the group of the file at `i` and newer: changed later, or at
/// the same time and listed after it. A file that was never changed is older than others.
pub open spec fn newer(s: Seq<BackupEntry>, j: int, i: int) -> bool {
    let a = s[j].mtime;
    let b = s[i].mtime;
    &&& 0 <= j < s.len()
    &&& backup::group_of(s[j].name@) == backup::group_of(s[i].name@)
    &&& match (a, b) {
        (Some(x), Some(y)) => x > y || (x == y && j > i),
        (Some(x), None) => true,
        (None, Some(y)) => false,
        (None, None) => j > i,
    }
}

/// A file goes only where backups are not frozen, it is of a group, and as many files as are
/// always kept are newer in that group: so the newest files of each group stay, whatever
/// their dates.
pub proof fn lemma_newest_stay(
    s: Seq<BackupEntry>,
    policy: RetentionPolicy,
    freeze: bool,
    i: int,
) -> (o: Seq<int>)
    requires
        0 <= i < s.len(),
        backup::goes(s, policy, freeze, i),
    ensures
        !freeze,
        backup::group_of(s[i].name@) is Some,
        o.len() == policy.recent,
        o.no_duplicates(),
        forall|k: int| 0 <= k < o.len() ==> newer(s, #[trigger] o[k], i),
{
    let g = backup::group_of(s[i].name@)->0;
    let p = choose|p: int| backup::drops(s, g, policy, i, p);
    let n = s.len() as int;
    let m = backup::members(s, g, n);
    let r = backup::newest_first(s, g);
    let ahead = order::by_rank::<Placed>();
    backup::lemma_members(s, g, n);
    order::lemma_ranked_keeps(m, ahead);
    lemma_placed_ranks();
    order::lemma_ranked_in_order(m, ahead);
    backup::lemma_ranked_places(m, r, n);
    let dates = backup::group_dates(s, g);
    assert(policy.recent <= p);
    let o = Seq::new(policy.recent as nat, |k: int| r[k].1);
    assert forall|a: int, b: int| 0 <= a < b < r.len() implies (#[trigger] r[a]).1 != (
    #[trigger] r[b]).1 by {
        lemma_places_differ(m, r, a, b);
    }
    assert forall|k: int| 0 <= k < o.len() implies newer(s, #[trigger] o[k], i) by {
        assert(m.contains(r[k]) && m.contains(r[p]));
        let a = choose|a: int| 0 <= a < m.len() && m[a] == r[k];
        let b = choose|b: int| 0 <= b < m.len() && m[b] == r[p];
        assert(group_member(s, g, m[a]) && group_member(s, g, m[b]));
        assert(!ahead(r[p], r[k]));
        assert(r[k].1 != r[p].1);
    }
    o
}

spec fn group_member(s: Seq<BackupEntry>, g: Seq<char>, x: PlacedModel) -> bool {
    0 <= x.1 < s.len() && backup::group_of(s[x.1].name@) == Some(g) && x.0 == s[x.1].mtime
}

proof fn lemma_placed_ranks()
    ensures
        order::ranks(order::by_rank::<Placed>()),
{
}

proof fn lemma_places_differ(m: Seq<PlacedModel>, r: Seq<PlacedModel>, a: int, b: int)
    requires
        r.to_multiset() == m.to_multiset(),
        forall|x: int, y: int|
            0 <= x < y < m.len() ==> (#[trigger] m[x]).1 < (#[trigger] m[y]).1,
        0 <= a < b < r.len(),
    ensures
        r[a].1 != r[b].1,
{
    broadcast use vstd::seq_lib::group_to_multiset_ensures;

    if r[a].1 == r[b].1 {
        assert(r.contains(r[a]) && r.contains(r[b]));
        assert(m.to_multiset().count(r[a]) > 0 && m.to_multiset().count(r[b]) > 0);
        assert(m.contains(r[a]) && m.contains(r[b]));
        let x = choose|x: int| 0 <= x < m.len() && m[x] == r[a];
        let y = choose|y: int| 0 <= y < m.len() && m[y] == r[b];
        if x < y {
            assert(m[x].1 < m[y].1);
        }
        if y < x {
            assert(m[y].1 < m[x].1);
        }
        assert(r[a] == r[b]);
        let q = r.remove(b);
        assert(q[a] == r[a]);
        assert(q.contains(r[a]));
        assert(r.to_multiset().remove(r[b]) =~= q.to_multiset());
        assert(q.to_multiset().count(r[a]) > 0);
        assert(m.no_duplicates()) by {
            assert forall|u: int, v: int| 0 <= u < m.len() && 0 <= v < m.len() && u != v implies m[u]
                != m[v] by {
                if u < v {
                    assert(m[u].1 < m[v].1);
                } else {
                    assert(m[v].1 < m[u].1);
                }
            }
        }
        m.lemma_multiset_has_no_duplicates();
        assert(m.to_multiset().contains(r[a]));
    }
}

/// The newest backup of a group is one of the group, and none of the group was changed
/// later; of several that were changed at the same time it is the last one listed. There is
/// none exactly where no file is of the group.
pub proof fn lemma_newest_of_group(s: Seq<BackupEntry>, g: Seq<char>, n: int, j: int)
    requires
        0 <= n <= s.len(),
    ensures
        ({
            let k = backup::newest_at(s, g, n);
            &&& -1 <= k < n
            &&& k >= 0 ==> backup::is_of_group(s[k].name@, g)
            &&& 0 <= j < n && backup::is_of_group(s[j].name@, g) ==> k >= 0 && match (
                s[k].mtime,
                s[j].mtime,
            ) {
                (Some(x), Some(y)) => x > y || (x == y && k >= j),
                (Some(x), None) => true,
                (None, Some(y)) => false,
                (None, None) => k >= j,
            }
        }),
    decreases n,
{
    if n > 0 {
        lemma_newest_of_group(s, g, n - 1, j);
        let k = backup::newest_at(s, g, n - 1);
        if k >= 0 {
            lemma_newest_of_group(s, g, n - 1, k);
        }
    }
}

/// The name of a backup tells its group and its day: what a name is made of is read back
/// from it.
pub proof fn lemma_names_are_read_back(g: Seq<char>, day: Seq<char>, time: Seq<char>)
    requires
        !g.contains('_'),
        !day.contains('_'),
        !time.contains('_'),
    ensures
        ({
            let name = backup::file_name(g, day + "_"@ + time);
            &&& backup::group_of(name) == Some(g)
            &&& backup::name_date(name) == calendar::parsed_date(day, "%Y%m%d"@)
            &&& backup::is_of_group(name, g)
        }),
{
    reveal_strlit("focusflow_");
    reveal_strlit("_");
    reveal_strlit(".db");
    let u = seq!['_'];
    assert("_"@ =~= u);
    let name = backup::file_name(g, day + "_"@ + time);
    let f = "focusflow"@;
    reveal_strlit("focusflow");
    assert("focusflow_"@ =~= f + u);
    assert(name.take(10) =~= "focusflow_"@);
    assert(name.skip(name.len() - 3) =~= ".db"@);
    let rest = name.skip(10);
    assert(rest.skip(rest.len() - 3) =~= ".db"@);
    let stem = rest.take(name.len() - 13);
    assert(stem =~= (g + u + day) + u + time);
    text::lemma_split_single(g, '_');
    text::lemma_split_last(g, '_', day);
    text::lemma_split_last(g + u + day, '_', time);
    assert(text::split_on(stem, '_') =~= seq![g, day, time]);
    let whole = name.take(name.len() - 3);
    assert(whole =~= ((f + u + g) + u + day) + u + time);
    assert(!f.contains('_'));
    text::lemma_split_single(f, '_');
    text::lemma_split_last(f, '_', g);
    text::lemma_split_last(f + u + g, '_', day);
    text::lemma_split_last((f + u + g) + u + day, '_', time);
    assert(text::split_on(whole, '_') =~= seq![f, g, day, time]);
    let start = "focusflow_"@ + g + "_"@;
    assert(name.take(start.len() as int) =~= start);
}

/// The file that a sidecar belongs to is named like it without its ending; a file that is
/// not of this program is no sidecar.
pub proof fn lemma_sidecar_names(name: Seq<char>)
    ensures
        text::starts(name, "focusflow_"@) ==> backup::sidecar_of(name + "-wal"@) == Some(name)
            && backup::sidecar_of(name + "-shm"@) == Some(name),
        !text::starts(name, "focusflow_"@) ==> backup::sidecar_of(name) is None,
        backup::sidecar_of(name) matches Some(b) ==> name == b + "-wal"@ || name == b + "-shm"@,
{
    reveal_strlit("focusflow_");
    reveal_strlit("-wal");
    reveal_strlit("-shm");
    let a = name + "-wal"@;
    let b = name + "-shm"@;
    if text::starts(name, "focusflow_"@) {
        assert(a.take(10) =~= name.take(10));
        assert(b.take(10) =~= name.take(10));
    }
    assert(a.skip(a.len() - 4) =~= "-wal"@);
    assert(b.skip(b.len() - 4) =~= "-shm"@);
    assert(a.take(a.len() - 4) =~= name);
    assert(b.take(b.len() - 4) =~= name);
    if text::ends(name, "-wal"@) {
        assert(name =~= name.take(name.len() - 4) + "-wal"@);
    } else if text::ends(name, "-shm"@) {
        assert(name =~= name.take(name.len() - 4) + "-shm"@);
    }
}

/// A change is suspicious only where both sides are large enough to tell; then a loss of
/// more than half, a growth to more than four times, and a loss of more than one day are,
/// and nothing else is.
pub proof fn lemma_suspicion(prev: BackupFingerprint, cur: BackupFingerprint)
    ensures
        prev.total < 1000 || cur.total < 1000 ==> !backup::suspicious(prev, cur),
        prev.total >= 1000 && cur.total >= 1000 && cur.total * 2 < prev.total
            ==> backup::suspicious(prev, cur),
        prev.total >= 1000 && cur.total >= 1000 && cur.total > prev.total * 4
            ==> backup::suspicious(prev, cur),
        prev.total >= 1000 && cur.total >= 1000 && prev.days - cur.days > 1
            ==> backup::suspicious(prev, cur),
        prev.total <= cur.total * 2 && cur.total <= prev.total * 4 && prev.days - cur.days <= 1
            ==> !backup::suspicious(prev, cur),
{
}

/// The plugins that are switched off are the parts of the setting without white space around
/// them, but for those that are blank.
pub proof fn lemma_stems(parts: Seq<Seq<char>>, x: Seq<char>)
    ensures
        backup::stems(parts).contains(x) <==> x.len() > 0 && exists|i: int|
            0 <= i < parts.len() && text::trimmed(#[trigger] parts[i]) == x,
    decreases parts.len(),
{
    if parts.len() > 0 {
        let f = parts.drop_last();
        let r = backup::stems(f);
        let a = backup::stems(parts);
        lemma_stems(f, x);
        assert(parts[parts.len() - 1] == parts.last());
        if r.contains(x) {
            let i = choose|i: int| 0 <= i < r.len() && r[i] == x;
            assert(a[i] == x);
            let k = choose|k: int| 0 <= k < f.len() && text::trimmed(#[trigger] f[k]) == x;
            assert(parts[k] == f[k]);
        }
        if a.contains(x) {
            let i = choose|i: int| 0 <= i < a.len() && a[i] == x;
            if i < r.len() {
                assert(r[i] == x);
            }
        }
        if text::trimmed(parts.last()).len() > 0 {
            assert(a[a.len() - 1] == text::trimmed(parts.last()));
        }
        if exists|i: int| 0 <= i < parts.len() && text::trimmed(#[trigger] parts[i]) == x {
            let i = choose|i: int| 0 <= i < parts.len() && text::trimmed(#[trigger] parts[i]) == x;
            if i < f.len() {
                assert(f[i] == parts[i]);
            }
        }
    }
}

/// A year is backed up exactly where its file is there and it is the current one, or it is
/// not known to be as it was at the last backup; under its number.
pub proof fn lemma_year_targets(s: Seq<YearSource>, now: i32, timestamp: Seq<char>, y: i32)
    ensures
        (exists|k: int|
            0 <= k < backup::year_targets(s, now, timestamp).len() && (
            #[trigger] backup::year_targets(s, now, timestamp)[k]).0 == Some(y)) <==> exists|
            i: int,
        |
            0 <= i < s.len() && (#[trigger] s[i]).year == y && s[i].exists && (y == now
                || s[i].current is None || s[i].recorded is None || s[i].current != s[i].recorded),
        forall|k: int|
            0 <= k < backup::year_targets(s, now, timestamp).len() ==> ({
                let t = #[trigger] backup::year_targets(s, now, timestamp)[k];
                &&& t.0 is Some
                &&& t.1 == text::dec(t.0->0 as int)
                &&& t.2 == "focusflow_"@ + text::dec(t.0->0 as int) + "_"@ + timestamp + ".db"@
            }),
    decreases s.len(),
{
    if s.len() > 0 {
        let f = s.drop_last();
        let r = backup::year_targets(f, now, timestamp);
        let a = backup::year_targets(s, now, timestamp);
        lemma_year_targets(f, now, timestamp, y);
        assert(s[s.len() - 1] == s.last());
        assert forall|k: int| 0 <= k < r.len() implies (#[trigger] a[k]) == r[k] by {}
        if exists|k: int| 0 <= k < r.len() && (#[trigger] r[k]).0 == Some(y) {
            let k = choose|k: int| 0 <= k < r.len() && (#[trigger] r[k]).0 == Some(y);
            assert(a[k].0 == Some(y));
            let i = choose|i: int|
                0 <= i < f.len() && (#[trigger] f[i]).year == y && f[i].exists && (y == now
                    || f[i].current is None || f[i].recorded is None || f[i].current
                    != f[i].recorded);
            assert(s[i] == f[i]);
        }
        if backup::wants_year(s.last(), now) {
            assert(a[a.len() - 1].0 == Some(s.last().year));
        }
        if exists|k: int| 0 <= k < a.len() && (#[trigger] a[k]).0 == Some(y) {
            let k = choose|k: int| 0 <= k < a.len() && (#[trigger] a[k]).0 == Some(y);
            if k < r.len() {
                assert(r[k].0 == Some(y));
            }
        }
        if exists|i: int|
            0 <= i < s.len() && (#[trigger] s[i]).year == y && s[i].exists && (y == now
                || s[i].current is None || s[i].recorded is None || s[i].current != s[i].recorded) {
            let i = choose|i: int|
                0 <= i < s.len() && (#[trigger] s[i]).year == y && s[i].exists && (y == now
                    || s[i].current is None || s[i].recorded is None || s[i].current
                    != s[i].recorded);
            if i < f.len() {
                assert(f[i] == s[i]);
            }
        }
        assert forall|k: int| 0 <= k < a.len() implies ({
            let t = #[trigger] a[k];
            &&& t.0 is Some
            &&& t.1 == text::dec(t.0->0 as int)
            &&& t.2 == "focusflow_"@ + text::dec(t.0->0 as int) + "_"@ + timestamp + ".db"@
        }) by {
            if k < r.len() {
                assert(a[k] == r[k]);
            }
        }
    }
}

/// Another database is backed up exactly where its file is there and its plugin is not
/// switched off, unless all are asked for.
pub proof fn lemma_aux_targets(
    s: Seq<AuxSource>,
    disabled: Seq<Seq<char>>,
    force: bool,
    timestamp: Seq<char>,
    name: Seq<char>,
)
    ensures
        backup::aux_targets(s, disabled, force, timestamp).contains(
            (None, name, "focusflow_"@ + name + "_"@ + timestamp + ".db"@),
        ) <==> exists|i: int|
            0 <= i < s.len() && (#[trigger] s[i]).name@ == name && s[i].exists && (force
                || !disabled.contains(s[i].plugin_stem@)),
    decreases s.len(),
{
    let x = (None::<i32>, name, "focusflow_"@ + name + "_"@ + timestamp + ".db"@);
    let a = backup::aux_targets(s, disabled, force, timestamp);
    if s.len() > 0 {
        let f = s.drop_last();
        let r = backup::aux_targets(f, disabled, force, timestamp);
        let l = s.last();
        lemma_aux_targets(f, disabled, force, timestamp, name);
        assert(s[s.len() - 1] == l);
        if r.contains(x) {
            let k = choose|k: int| 0 <= k < r.len() && r[k] == x;
            assert(a[k] == x);
            let i = choose|i: int|
                0 <= i < f.len() && (#[trigger] f[i]).name@ == name && f[i].exists && (force
                    || !disabled.contains(f[i].plugin_stem@));
            assert(s[i] == f[i]);
        }
        if l.exists && (force || !disabled.contains(l.plugin_stem@)) {
            assert(a[a.len() - 1].1 == l.name@);
            if l.name@ == name {
                assert(a[a.len() - 1] == x);
            }
        }
        if a.contains(x) {
            let k = choose|k: int| 0 <= k < a.len() && a[k] == x;
            if k < r.len() {
                assert(r[k] == x);
            }
        }
        if exists|i: int|
            0 <= i < s.len() && (#[trigger] s[i]).name@ == name && s[i].exists && (force
                || !disabled.contains(s[i].plugin_stem@)) {
            let i = choose|i: int|
                0 <= i < s.len() && (#[trigger] s[i]).name@ == name && s[i].exists && (force
                    || !disabled.contains(s[i].plugin_stem@));
            if i < f.len() {
                assert(f[i] == s[i]);
            }
        }
    }
}

/// The file of a year is copied where it could not be backed up online or the backup did not
/// hold; other files are not copied. A copy is made after its checkpoint, and is noted as
/// the state of that year only where the checkpoint worked.
pub proof fn lemma_backup_steps(stamp: bool, last: bool, ok: bool, of_year: bool)
    ensures
        backup::after_step(FileStep::Online, true, of_year) == (FileStep::Seal {
            stamp: of_year,
            last: !of_year,
        }),
        backup::after_step(FileStep::Online, false, true) == FileStep::Checkpoint,
        backup::after_step(FileStep::Online, false, false) == (FileStep::Done { ok: false }),
        backup::after_step(FileStep::Checkpoint, ok, of_year) == (FileStep::CopyFile { stamp: ok }),
        backup::after_step(FileStep::CopyFile { stamp }, true, of_year) == (FileStep::Seal {
            stamp,
            last: true,
        }),
        backup::after_step(FileStep::CopyFile { stamp }, false, of_year) == (FileStep::Done {
            ok: false,
        }),
        backup::after_step(FileStep::Seal { stamp, last }, true, of_year) == (FileStep::Done {
            ok: true,
        }),
        backup::after_step(FileStep::Seal { stamp, last: true }, false, of_year) == (
        FileStep::Done { ok: false }),
        backup::after_step(FileStep::Seal { stamp, last: false }, false, of_year)
            == FileStep::Checkpoint,
{
}

/// A setting is taken where it is a number that is not too low; one that is too low counts
/// as the lowest one, and one that is no number as the usual one.
pub proof fn lemma_settings(value: Seq<char>, usual: int, low: int)
    requires
        low <= usual,
    ensures
        ({
            let r = backup::setting_at_least(value, usual, low);
            let n = text::int_within(text::trimmed(value), i64::MIN as int, i64::MAX as int);
            &&& r >= low
            &&& n is None ==> r == usual
            &&& n matches Some(v) ==> if v >= low {
                r == v
            } else {
                r == low
            }
        }),
{
}

/// Hours between backups are none where the setting is negative, and at most those of a
/// year; the time between two instants is counted in nanoseconds.
pub proof fn lemma_hours(setting: int, from: (i64, u32), to: (i64, u32))
    ensures
        0 <= setting <= 24 * 365 ==> backup::interval_hours(setting) == setting,
        setting < 0 ==> backup::interval_hours(setting) == 0,
        setting > 24 * 365 ==> backup::interval_hours(setting) == 24 * 365,
        from.0 == to.0 ==> backup::nanos_between(from, to) == to.1 - from.1,
        from.1 == to.1 ==> backup::nanos_between(from, to) == (to.0 - from.0) * 1_000_000_000,
        backup::nanos_between(from, to) == -backup::nanos_between(to, from),
{
}

} // verus!
