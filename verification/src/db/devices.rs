//! Statistics by input device.
use vstd::prelude::*;
use vstd::string::*;

use crate::calendar;
use crate::calendar::{day_key_of_date, day_key_text, Date};
use crate::db::queries;
use crate::db::queries::available_years;
use crate::db::select;
use crate::db::select::{gather, group, sum_in, tables, Pick, Window, YearQuery};
use crate::db::store;
use crate::db::store::{Registry, Store, StoreModel, YearDb, YearModel};
use crate::device_alias;
use crate::device_alias::AliasTable;
use crate::hardware;
use crate::hardware::fallback_device_name;
use crate::order;
use crate::order::{rank, Ranked};
use crate::tally;
use crate::tally::Tally;
use crate::text;
use crate::text::{blank, cat2, dec_i64, dec_u128, str_eq, str_le, trim};

verus! {

// --------------------------------------------------------------------------- rows

/// What the tables of one year say of a device.
pub struct DeviceRow {
    pub device_key: String,
    /// The registered name, where the device is registered.
    pub name: Option<String>,
    /// The registered kind, where the device is registered.
    pub kind: Option<String>,
    pub count: i64,
}

/// What the tables of one year say of a device.
#[verifier::ext_equal]
pub struct RowModel {
    pub key: Seq<char>,
    pub name: Option<Seq<char>>,
    pub kind: Option<Seq<char>>,
    pub count: int,
}

impl View for DeviceRow {
    type V = RowModel;

    open spec fn view(&self) -> RowModel {
        RowModel {
            key: self.device_key@,
            name: text::opt_text(self.name),
            kind: text::opt_text(self.kind),
            count: self.count as int,
        }
    }
}

/// The sum of the counts.
pub open spec fn sum_rows(s: Seq<RowModel>) -> int
    decreases s.len(),
{
    if s.len() == 0 {
        0
    } else {
        sum_rows(s.drop_last()) + s.last().count
    }
}

/// Counts that are not negative and add up to an `i64`.
pub open spec fn countable_rows(s: Seq<RowModel>) -> bool {
    &&& forall|i: int| 0 <= i < s.len() ==> (#[trigger] s[i]).count >= 0
    &&& sum_rows(s) <= i64::MAX
}

proof fn lemma_sum_rows_push(s: Seq<RowModel>, e: RowModel)
    ensures
        sum_rows(s.push(e)) == sum_rows(s) + e.count,
{
    assert(s.push(e).drop_last() =~= s);
}

proof fn lemma_sum_rows_prefix(s: Seq<RowModel>, n: int)
    requires
        0 <= n <= s.len(),
        forall|i: int| 0 <= i < s.len() ==> (#[trigger] s[i]).count >= 0,
    ensures
        0 <= sum_rows(s.take(n)) <= sum_rows(s),
    decreases s.len() - n,
{
    lemma_sum_rows_nonneg(s.take(n));
    if n < s.len() {
        lemma_sum_rows_prefix(s, n + 1);
        assert(s.take(n + 1).drop_last() =~= s.take(n));
        assert(s.take(n + 1).last() == s[n]);
    } else {
        assert(s.take(n) =~= s);
    }
}

proof fn lemma_sum_rows_nonneg(s: Seq<RowModel>)
    requires
        forall|i: int| 0 <= i < s.len() ==> (#[trigger] s[i]).count >= 0,
    ensures
        0 <= sum_rows(s),
    decreases s.len(),
{
    if s.len() > 0 {
        let t = s.drop_last();
        assert forall|i: int| 0 <= i < t.len() implies (#[trigger] t[i]).count >= 0 by {
            assert(t[i] == s[i]);
        }
        lemma_sum_rows_nonneg(t);
        assert(s.last() == s[s.len() - 1]);
    }
}

/// Two rows of one device as one: the counts are added, and a name or kind that is
/// missing is taken from the second.
pub open spec fn joined(a: RowModel, b: RowModel) -> RowModel {
    RowModel {
        key: a.key,
        name: if a.name is None || text::is_blank(a.name->0) {
            b.name
        } else {
            a.name
        },
        kind: if a.kind is None || (a.kind->0).len() == 0 {
            b.kind
        } else {
            a.kind
        },
        count: a.count + b.count,
    }
}

/// Whether there is a row of `key`.
pub open spec fn has_row(s: Seq<RowModel>, key: Seq<char>) -> bool {
    exists|i: int| 0 <= i < s.len() && (#[trigger] s[i]).key == key
}

/// `s` with a row joined to the one of its device.
pub open spec fn with_row(s: Seq<RowModel>, r: RowModel) -> Seq<RowModel> {
    if has_row(s, r.key) {
        Seq::new(
            s.len(),
            |i: int|
                if s[i].key == r.key {
                    joined(s[i], r)
                } else {
                    s[i]
                },
        )
    } else {
        s.push(r)
    }
}

/// One row for each device, in the order in which the devices first occur.
pub open spec fn merged(s: Seq<RowModel>) -> Seq<RowModel>
    decreases s.len(),
{
    if s.len() == 0 {
        s
    } else {
        with_row(merged(s.drop_last()), s.last())
    }
}

/// No two rows are of one device.
pub open spec fn one_each(s: Seq<RowModel>) -> bool {
    forall|i: int, j: int| 0 <= i < j < s.len() ==> (#[trigger] s[i]).key != (#[trigger] s[j]).key
}

proof fn lemma_with_row(s: Seq<RowModel>, r: RowModel)
    requires
        one_each(s),
    ensures
        one_each(with_row(s, r)),
        sum_rows(with_row(s, r)) == sum_rows(s) + r.count,
        (forall|i: int| 0 <= i < s.len() ==> (#[trigger] s[i]).count >= 0) && r.count >= 0
            ==> forall|i: int|
            0 <= i < with_row(s, r).len() ==> (#[trigger] with_row(s, r)[i]).count >= 0,
        with_row(s, r).len() <= s.len() + 1,
    decreases s.len(),
{
    let w = with_row(s, r);
    if has_row(s, r.key) {
        let k = choose|i: int| 0 <= i < s.len() && (#[trigger] s[i]).key == r.key;
        assert forall|i: int, j: int| 0 <= i < j < w.len() implies (#[trigger] w[i]).key != (
        #[trigger] w[j]).key by {
            assert(s[i].key != s[j].key);
        }
        let t = s.drop_last();
        assert(one_each(t)) by {
            assert forall|i: int, j: int| 0 <= i < j < t.len() implies (#[trigger] t[i]).key != (
            #[trigger] t[j]).key by {
                assert(s[i].key != s[j].key);
            }
        }
        if k == s.len() - 1 {
            assert(w.drop_last() =~= t) by {
                assert forall|i: int| 0 <= i < t.len() implies w.drop_last()[i] == t[i] by {
                    assert(s[i].key != s[k].key);
                }
            }
        } else {
            assert(t[k].key == r.key);
            assert(has_row(t, r.key));
            assert(s[k].key != s[s.len() - 1].key);
            assert(w.drop_last() =~= with_row(t, r));
            lemma_with_row(t, r);
        }
    } else {
        lemma_sum_rows_push(s, r);
    }
}

/// Merging gives every device one row and keeps the sum of the counts.
pub proof fn lemma_merged(s: Seq<RowModel>)
    ensures
        one_each(merged(s)),
        sum_rows(merged(s)) == sum_rows(s),
        (forall|i: int| 0 <= i < s.len() ==> (#[trigger] s[i]).count >= 0) ==> forall|i: int|
            0 <= i < merged(s).len() ==> (#[trigger] merged(s)[i]).count >= 0,
        merged(s).len() <= s.len(),
    decreases s.len(),
{
    if s.len() > 0 {
        let t = s.drop_last();
        lemma_merged(t);
        lemma_with_row(merged(t), s.last());
        if forall|i: int| 0 <= i < s.len() ==> (#[trigger] s[i]).count >= 0 {
            assert forall|i: int| 0 <= i < t.len() implies (#[trigger] t[i]).count >= 0 by {
                assert(t[i] == s[i]);
            }
            assert(s.last() == s[s.len() - 1]);
        }
    }
}

fn no_name(o: &Option<String>) -> (r: bool)
    ensures
        r == (text::opt_text(*o) is None || text::is_blank(text::opt_text(*o)->0)),
{
    match o {
        Some(s) => blank(s.as_str()),
        None => true,
    }
}

fn no_kind(o: &Option<String>) -> (r: bool)
    ensures
        r == (text::opt_text(*o) is None || (text::opt_text(*o)->0).len() == 0),
{
    match o {
        Some(s) => {
            let empty = str_eq(s.as_str(), "");
            proof {
                reveal_strlit("");
                if s@.len() == 0 {
                    assert(s@ =~= ""@);
                }
            }
            empty
        },
        None => true,
    }
}

fn merge_rows(rows: Vec<DeviceRow>) -> (r: Vec<DeviceRow>)
    requires
        countable_rows(order::seen(rows@)),
    ensures
        order::seen(r@) == merged(order::seen(rows@)),
{
    let ghost all = order::seen(rows@);
    let mut rest = rows;
    let mut out: Vec<DeviceRow> = Vec::new();
    let ghost mut k: int = 0;
    proof {
        assert(order::seen(rest@) =~= all.skip(0));
        assert(order::seen(out@) =~= merged(all.take(0)));
    }
    while rest.len() > 0
        invariant
            0 <= k <= all.len(),
            countable_rows(all),
            order::seen(rest@) == all.skip(k),
            rest@.len() + k == all.len(),
            order::seen(out@) == merged(all.take(k)),
        decreases rest.len(),
    {
        let ghost r0 = rest@;
        let ghost o0 = out@;
        let ghost m = order::seen(o0);
        let row = rest.remove(0);
        let ghost rv = row@;
        proof {
            assert(order::seen(r0)[0] == all.skip(k)[0]);
            assert(rv == all[k]);
            assert(order::seen(rest@) =~= all.skip(k + 1)) by {
                assert forall|i: int| 0 <= i < rest@.len() implies order::seen(rest@)[i]
                    == all.skip(k + 1)[i] by {
                    assert(order::seen(r0)[i + 1] == all.skip(k)[i + 1]);
                }
            }
            let t1 = all.take(k + 1);
            assert(t1.drop_last() =~= all.take(k));
            assert(t1.last() == rv);
            lemma_merged(all.take(k));
            lemma_merged(t1);
            lemma_sum_rows_prefix(all, k + 1);
            assert forall|i: int| 0 <= i < t1.len() implies (#[trigger] t1[i]).count >= 0 by {
                assert(t1[i] == all[i]);
            }
        }
        let mut at: usize = 0;
        let mut found = false;
        while !found && at < out.len()
            invariant
                at <= out@.len(),
                out@ == o0,
                m == order::seen(o0),
                forall|j: int| 0 <= j < at ==> (#[trigger] m[j]).key != row@.key,
                found ==> at < out@.len() && m[at as int].key == row@.key,
            decreases out.len() - at + (if found { 0int } else { 1int }),
        {
            if str_eq(out[at].device_key.as_str(), row.device_key.as_str()) {
                assert(m[at as int].key == o0[at as int].device_key@);
                found = true;
            } else {
                assert(m[at as int].key == o0[at as int].device_key@);
                at = at + 1;
            }
        }
        if found {
            assert(has_row(m, rv.key));
            let ghost a = m[at as int];
            proof {
                let w = with_row(m, rv);
                lemma_sum_rows_prefix(w, w.len() as int);
                lemma_row_bound(w, at as int);
                assert(w[at as int] == joined(a, rv));
            }
            let keep = out.remove(at);
            assert(keep@ == a);
            let take_name = no_name(&keep.name);
            let take_kind = no_kind(&keep.kind);
            let both = DeviceRow {
                device_key: keep.device_key,
                name: if take_name {
                    row.name
                } else {
                    keep.name
                },
                kind: if take_kind {
                    row.kind
                } else {
                    keep.kind
                },
                count: keep.count + row.count,
            };
            assert(both@ == joined(a, rv));
            out.insert(at, both);
            proof {
                let w = with_row(m, rv);
                assert forall|i: int| 0 <= i < m.len() implies #[trigger] order::seen(out@)[i]
                    == w[i] by {
                    if i < at {
                        assert(m[i].key != m[at as int].key);
                    } else if i > at {
                        assert(m[at as int].key != m[i].key);
                    }
                }
                assert(order::seen(out@) =~= w);
            }
        } else {
            proof {
                assert(!has_row(m, rv.key));
            }
            out.push(row);
            assert(order::seen(out@) =~= m.push(rv));
        }
        proof {
            k = k + 1;
        }
    }
    assert(all.take(k) =~= all);
    out
}

proof fn lemma_row_bound(s: Seq<RowModel>, i: int)
    requires
        0 <= i < s.len(),
        forall|k: int| 0 <= k < s.len() ==> (#[trigger] s[k]).count >= 0,
    ensures
        s[i].count <= sum_rows(s),
{
    lemma_sum_rows_prefix(s, i);
    lemma_sum_rows_prefix(s, i + 1);
    assert(s.take(i + 1).drop_last() =~= s.take(i));
    assert(s.take(i + 1).last() == s[i]);
}

// ---------------------------------------------------------------------------- stats

/// A device as it is shown.
pub struct DeviceStat {
    /// The path that names the device.
    pub key: String,
    /// The name that is shown: the alias, else the name found for the device.
    pub name: String,
    /// The name found for the device.
    pub auto_name: String,
    /// Whether the user gave the device an alias.
    pub has_alias: bool,
    pub kind: String,
    pub count: i64,
}

/// A device as it is shown.
#[verifier::ext_equal]
pub struct StatModel {
    pub key: Seq<char>,
    pub name: Seq<char>,
    pub auto_name: Seq<char>,
    pub has_alias: bool,
    pub kind: Seq<char>,
    pub count: int,
}

impl View for DeviceStat {
    type V = StatModel;

    open spec fn view(&self) -> StatModel {
        StatModel {
            key: self.key@,
            name: self.name@,
            auto_name: self.auto_name@,
            has_alias: self.has_alias,
            kind: self.kind@,
            count: self.count as int,
        }
    }
}

impl Ranked for DeviceStat {
    open spec fn ahead(a: StatModel, b: StatModel) -> bool {
        a.count > b.count || (a.count == b.count && !text::lex_le(b.name, a.name))
    }

    fn goes_ahead(&self, other: &Self) -> (r: bool) {
        self.count > other.count || (self.count == other.count && !str_le(
            other.name.as_str(),
            self.name.as_str(),
        ))
    }
}

/// The name found for a device: the registered one, unless it is blank or the path
/// itself; then one made from the path.
pub open spec fn auto_name_of(r: RowModel) -> Seq<char> {
    if r.name is Some && text::trimmed(r.name->0).len() > 0 && text::trimmed(r.name->0) != r.key {
        text::trimmed(r.name->0)
    } else {
        hardware::fallback_name(r.key)
    }
}

/// A device as it is shown, before devices of one name are told apart.
pub open spec fn stat_of(r: RowModel, aliases: Seq<(Seq<char>, Seq<char>)>) -> StatModel {
    let alias = device_alias::resolved(aliases, r.key);
    StatModel {
        key: r.key,
        name: if alias is Some {
            alias->0
        } else {
            auto_name_of(r)
        },
        auto_name: auto_name_of(r),
        has_alias: alias is Some,
        kind: if r.kind is Some {
            r.kind->0
        } else {
            "unknown"@
        },
        count: r.count,
    }
}

pub open spec fn stats_of(
    s: Seq<RowModel>,
    aliases: Seq<(Seq<char>, Seq<char>)>,
) -> Seq<StatModel> {
    Seq::new(s.len(), |i: int| stat_of(s[i], aliases))
}

/// How many devices satisfy `p`.
pub open spec fn count_of(s: Seq<StatModel>, p: spec_fn(StatModel) -> bool) -> nat
    decreases s.len(),
{
    if s.len() == 0 {
        0
    } else {
        count_of(s.drop_last(), p) + (if p(s.last()) { 1nat } else { 0nat })
    }
}

pub open spec fn aliased_as(name: Seq<char>) -> spec_fn(StatModel) -> bool {
    |x: StatModel| x.has_alias && x.name == name
}

pub open spec fn found_as(name: Seq<char>) -> spec_fn(StatModel) -> bool {
    |x: StatModel| !x.has_alias && x.auto_name == name
}

/// The number of a device without an alias among those of its name. Aliases of that name
/// come first.
pub open spec fn ordinal(s: Seq<StatModel>, i: int) -> nat {
    count_of(s, aliased_as(s[i].auto_name)) + count_of(s.take(i), found_as(s[i].auto_name)) + 1
}

/// A name with a number that tells devices apart; the first one has none.
pub open spec fn label(name: Seq<char>, n: nat) -> Seq<char> {
    if n <= 1 {
        name
    } else {
        name + " ("@ + text::dec_nat(n) + ")"@
    }
}

/// The first number from `n` on whose name is not taken, of at most `more` more.
pub open spec fn first_free(name: Seq<char>, n: nat, taken: Seq<Seq<char>>, more: nat) -> nat
    decreases more,
{
    if more == 0 || !taken.contains(label(name, n)) {
        n
    } else {
        first_free(name, n + 1, taken, (more - 1) as nat)
    }
}

/// The aliases.
pub open spec fn alias_names(s: Seq<StatModel>) -> Seq<Seq<char>>
    decreases s.len(),
{
    if s.len() == 0 {
        Seq::empty()
    } else if s.last().has_alias {
        alias_names(s.drop_last()).push(s.last().name)
    } else {
        alias_names(s.drop_last())
    }
}

/// The name of a device where those `before` it are shown by these names: its alias, else
/// its name with the first number from its own on that neither an alias nor one of these
/// has.
pub open spec fn name_for(s: Seq<StatModel>, i: int, before: Seq<Seq<char>>) -> Seq<char> {
    let taken = alias_names(s) + before;
    if s[i].has_alias {
        s[i].name
    } else {
        label(s[i].name, first_free(s[i].name, ordinal(s, i), taken, taken.len()))
    }
}

/// The names that the first `n` devices are shown by.
pub open spec fn shown_names(s: Seq<StatModel>, n: int) -> Seq<Seq<char>>
    decreases n,
{
    if n <= 0 {
        Seq::empty()
    } else {
        shown_names(s, n - 1).push(name_for(s, n - 1, shown_names(s, n - 1)))
    }
}

/// The name that device `i` is shown by.
pub open spec fn shown(s: Seq<StatModel>, i: int) -> Seq<char> {
    name_for(s, i, shown_names(s, i))
}

/// The devices with names that tell them apart.
pub open spec fn numbered(s: Seq<StatModel>) -> Seq<StatModel> {
    Seq::new(s.len(), |i: int| StatModel { name: shown(s, i), ..s[i] })
}

/// The devices as they are shown: the most used first, of equal ones by name.
pub open spec fn shown_devices(
    rows: Seq<RowModel>,
    aliases: Seq<(Seq<char>, Seq<char>)>,
) -> Seq<StatModel> {
    numbered(order::ranked(stats_of(merged(rows), aliases), order::by_rank::<DeviceStat>()))
}

/// An alias is shown as the user wrote it, also where several devices have the same.
pub proof fn lemma_aliases_stay(s: Seq<StatModel>, i: int)
    requires
        0 <= i < s.len(),
        s[i].has_alias,
    ensures
        numbered(s)[i] == s[i],
{
}

proof fn lemma_count_prefix(s: Seq<StatModel>, n: int, m: int, p: spec_fn(StatModel) -> bool)
    requires
        0 <= n <= m <= s.len(),
    ensures
        count_of(s.take(n), p) <= count_of(s.take(m), p),
        count_of(s.take(m), p) <= m,
    decreases m,
{
    if n < m {
        lemma_count_prefix(s, n, m - 1, p);
        assert(s.take(m).drop_last() =~= s.take(m - 1));
    } else if m > 0 {
        assert(s.take(m).drop_last() =~= s.take(m - 1));
        lemma_count_prefix(s, m - 1, m - 1, p);
    }
}

proof fn lemma_dec_injective(a: nat, b: nat)
    requires
        text::dec_nat(a) == text::dec_nat(b),
    ensures
        a == b,
    decreases a,
{
    let x = text::dec_nat(a);
    let y = text::dec_nat(b);
    lemma_dec_len(a);
    lemma_dec_len(b);
    assert(x.last() == text::digit((a % 10) as int));
    assert(y.last() == text::digit((b % 10) as int));
    if a >= 10 && b >= 10 {
        assert(x.drop_last() =~= text::dec_nat(a / 10));
        assert(y.drop_last() =~= text::dec_nat(b / 10));
        lemma_dec_injective(a / 10, b / 10);
    }
}

proof fn lemma_dec_len(n: nat)
    ensures
        text::dec_nat(n).len() >= 1,
        n >= 10 ==> text::dec_nat(n).len() >= 2,
    decreases n,
{
    if n >= 10 {
        lemma_dec_len(n / 10);
    }
}

/// Two numbers give two names.
proof fn lemma_labels_differ(name: Seq<char>, a: nat, b: nat)
    requires
        1 <= a < b,
    ensures
        label(name, a) != label(name, b),
{
    reveal_strlit(" (");
    reveal_strlit(")");
    let p = label(name, a);
    let q = label(name, b);
    if p == q && a > 1 {
        let x = text::dec_nat(a);
        let y = text::dec_nat(b);
        assert(p.len() == name.len() + 2 + x.len() + 1);
        assert(q.len() == name.len() + 2 + y.len() + 1);
        let k = name.len() + 2;
        assert(x =~= p.subrange(k as int, (k + x.len()) as int));
        assert(y =~= q.subrange(k as int, (k + y.len()) as int));
        lemma_dec_injective(a, b);
    }
}

/// So many numbers in a row can only be taken by as many names.
proof fn lemma_row_of_taken(name: Seq<char>, n: nat, m: nat, taken: Seq<Seq<char>>)
    requires
        n >= 1,
        forall|k: nat| n <= k < n + m ==> taken.contains(#[trigger] label(name, k)),
    ensures
        m <= taken.len(),
    decreases m,
{
    if m > 0 {
        let last = (n + m - 1) as nat;
        assert(taken.contains(label(name, last)));
        let at = choose|at: int| 0 <= at < taken.len() && taken[at] == label(name, last);
        let fewer = taken.remove(at);
        assert forall|k: nat| n <= k < n + m - 1 implies fewer.contains(
            #[trigger] label(name, k),
        ) by {
            lemma_labels_differ(name, k, last);
            let i = choose|i: int| 0 <= i < taken.len() && taken[i] == label(name, k);
            if i < at {
                assert(fewer[i] == label(name, k));
            } else {
                assert(fewer[i - 1] == label(name, k));
            }
        }
        lemma_row_of_taken(name, n, (m - 1) as nat, fewer);
    }
}

proof fn lemma_first_free_skips(name: Seq<char>, n: nat, taken: Seq<Seq<char>>, more: nat)
    ensures
        n <= first_free(name, n, taken, more) <= n + more,
        forall|k: nat|
            n <= k < first_free(name, n, taken, more) ==> taken.contains(#[trigger] label(name, k)),
        first_free(name, n, taken, more) < n + more ==> !taken.contains(
            label(name, first_free(name, n, taken, more)),
        ),
    decreases more,
{
    if more > 0 && taken.contains(label(name, n)) {
        lemma_first_free_skips(name, n + 1, taken, (more - 1) as nat);
    }
}

/// A number that is not taken is found.
proof fn lemma_first_free(name: Seq<char>, n: nat, taken: Seq<Seq<char>>)
    requires
        n >= 1,
    ensures
        !taken.contains(label(name, first_free(name, n, taken, taken.len()))),
{
    let r = first_free(name, n, taken, taken.len());
    lemma_first_free_skips(name, n, taken, taken.len());
    if taken.contains(label(name, r)) {
        lemma_row_of_taken(name, n, (r - n + 1) as nat, taken);
    }
}

proof fn lemma_shown_names(s: Seq<StatModel>, n: int, i: int)
    requires
        0 <= i < n <= s.len(),
    ensures
        shown_names(s, n).len() == n,
        shown_names(s, n)[i] == shown(s, i),
    decreases n,
{
    if n > 1 {
        lemma_shown_names(s, n - 1, if i < n - 1 {
            i
        } else {
            0
        });
    } else {
        assert(shown_names(s, 0).len() == 0);
    }
}

proof fn lemma_alias_listed(s: Seq<StatModel>, j: int)
    requires
        0 <= j < s.len(),
        s[j].has_alias,
    ensures
        alias_names(s).contains(s[j].name),
    decreases s.len(),
{
    let t = s.drop_last();
    if j < t.len() {
        assert(t[j] == s[j]);
        lemma_alias_listed(t, j);
        let k = choose|k: int| 0 <= k < alias_names(t).len() && alias_names(t)[k] == s[j].name;
        assert(alias_names(s)[k] == s[j].name);
    } else {
        assert(alias_names(s).last() == s[j].name);
    }
}

/// Devices without an alias are all shown by different names.
pub proof fn lemma_names_differ(s: Seq<StatModel>, i: int, j: int)
    requires
        0 <= i < j < s.len(),
        !s[i].has_alias,
        !s[j].has_alias,
    ensures
        numbered(s)[i].name != numbered(s)[j].name,
{
    let before = shown_names(s, j);
    let taken = alias_names(s) + before;
    lemma_shown_names(s, j, i);
    lemma_first_free(s[j].name, ordinal(s, j), taken);
    assert(taken[alias_names(s).len() + i] == shown(s, i));
}

/// A device without an alias is not shown by a name that a device has as its alias.
pub proof fn lemma_alias_reserves(s: Seq<StatModel>, i: int, j: int)
    requires
        0 <= i < s.len(),
        0 <= j < s.len(),
        !s[i].has_alias,
        s[j].has_alias,
    ensures
        numbered(s)[i].name != numbered(s)[j].name,
{
    let taken = alias_names(s) + shown_names(s, i);
    lemma_first_free(s[i].name, ordinal(s, i), taken);
    lemma_alias_listed(s, j);
    let k = choose|k: int| 0 <= k < alias_names(s).len() && alias_names(s)[k] == s[j].name;
    assert(taken[k] == s[j].name);
}

fn make_stats(rows: Vec<DeviceRow>, aliases: &AliasTable) -> (r: Vec<DeviceStat>)
    requires
        aliases.wf(),
    ensures
        order::seen(r@) == stats_of(order::seen(rows@), aliases.aliases()),
{
    let ghost s = order::seen(rows@);
    let mut out: Vec<DeviceStat> = Vec::new();
    let mut i: usize = 0;
    while i < rows.len()
        invariant
            i <= rows.len(),
            s == order::seen(rows@),
            aliases.wf(),
            out@.len() == i,
            forall|k: int|
                0 <= k < i ==> (#[trigger] out@[k])@ == stat_of(s[k], aliases.aliases()),
        decreases rows.len() - i,
    {
        let row = &rows[i];
        let ghost rv = s[i as int];
        assert(rv == row@);
        let mut auto_name = fallback_device_name(row.device_key.as_str());
        if let Some(n) = &row.name {
            let t = trim(n.as_str());
            if !str_eq(t.as_str(), "") && !str_eq(t.as_str(), row.device_key.as_str()) {
                proof {
                    reveal_strlit("");
                    if t@.len() == 0 {
                        assert(t@ =~= ""@);
                    }
                }
                auto_name = t;
            } else {
                proof {
                    reveal_strlit("");
                }
            }
        }
        assert(auto_name@ == auto_name_of(rv));
        let kind = match &row.kind {
            Some(k) => k.clone(),
            None => "unknown".to_owned(),
        };
        let stat = match aliases.resolve(row.device_key.as_str()) {
            Some(a) => DeviceStat {
                key: row.device_key.clone(),
                name: a.to_owned(),
                auto_name,
                has_alias: true,
                kind,
                count: row.count,
            },
            None => DeviceStat {
                key: row.device_key.clone(),
                name: auto_name.clone(),
                auto_name,
                has_alias: false,
                kind,
                count: row.count,
            },
        };
        assert(stat@ == stat_of(rv, aliases.aliases()));
        out.push(stat);
        i = i + 1;
    }
    assert(order::seen(out@) =~= stats_of(s, aliases.aliases()));
    out
}

/// Counts the devices before `end` that have `name` as their alias (`aliased`), or those
/// that have none and were found under it.
fn count_named(stats: &Vec<DeviceStat>, end: usize, name: &str, aliased: bool) -> (r: usize)
    requires
        end <= stats.len(),
    ensures
        r == count_of(
            order::seen(stats@).take(end as int),
            if aliased {
                aliased_as(name@)
            } else {
                found_as(name@)
            },
        ),
        r <= end,
{
    let ghost s = order::seen(stats@);
    let ghost p = if aliased {
        aliased_as(name@)
    } else {
        found_as(name@)
    };
    let mut n: usize = 0;
    let mut i: usize = 0;
    while i < end
        invariant
            i <= end <= stats.len(),
            s == order::seen(stats@),
            p == (if aliased {
                aliased_as(name@)
            } else {
                found_as(name@)
            }),
            n == count_of(s.take(i as int), p),
            n <= i,
        decreases end - i,
    {
        proof {
            let t1 = s.take(i as int + 1);
            assert(t1.drop_last() =~= s.take(i as int));
            assert(t1.last() == stats@[i as int]@);
        }
        let hit = if aliased {
            stats[i].has_alias && str_eq(stats[i].name.as_str(), name)
        } else {
            !stats[i].has_alias && str_eq(stats[i].auto_name.as_str(), name)
        };
        if hit {
            n = n + 1;
        }
        i = i + 1;
    }
    n
}

fn is_taken(taken: &Vec<String>, name: &str) -> (r: bool)
    ensures
        r == text::views(taken@).contains(name@),
{
    let ghost v = text::views(taken@);
    let mut i: usize = 0;
    while i < taken.len()
        invariant
            i <= taken.len(),
            v == text::views(taken@),
            forall|k: int| 0 <= k < i ==> #[trigger] v[k] != name@,
        decreases taken.len() - i,
    {
        assert(v[i as int] == taken@[i as int]@);
        if str_eq(taken[i].as_str(), name) {
            return true;
        }
        i = i + 1;
    }
    false
}

fn make_label(name: &str, n: u128) -> (r: String)
    ensures
        r@ == label(name@, n as nat),
{
    if n <= 1 {
        return name.to_owned();
    }
    let num = dec_u128(n);
    name.to_owned().concat(" (").concat(num.as_str()).concat(")")
}

/// The name with the first number from `start` on that is not taken.
fn free_name(name: &str, start: u64, taken: &Vec<String>) -> (r: String)
    ensures
        r@ == label(
            name@,
            first_free(name@, start as nat, text::views(taken@), taken@.len()),
        ),
{
    let ghost v = text::views(taken@);
    let mut more: usize = taken.len();
    let mut n: u128 = start as u128;
    let mut r = make_label(name, n);
    while more > 0 && is_taken(taken, r.as_str())
        invariant
            v == text::views(taken@),
            more <= taken.len(),
            n + more == start + taken.len(),
            r@ == label(name@, n as nat),
            first_free(name@, start as nat, v, taken@.len()) == first_free(
                name@,
                n as nat,
                v,
                more as nat,
            ),
        decreases more,
    {
        n = n + 1;
        more = more - 1;
        r = make_label(name, n);
    }
    r
}

fn list_aliases(stats: &Vec<DeviceStat>) -> (r: Vec<String>)
    ensures
        text::views(r@) == alias_names(order::seen(stats@)),
        r.len() <= stats.len(),
{
    let ghost s = order::seen(stats@);
    let mut r: Vec<String> = Vec::new();
    let mut i: usize = 0;
    assert(text::views(r@) =~= alias_names(s.take(0)));
    while i < stats.len()
        invariant
            i <= stats.len(),
            s == order::seen(stats@),
            r.len() <= i,
            text::views(r@) == alias_names(s.take(i as int)),
        decreases stats.len() - i,
    {
        let ghost before = r@;
        proof {
            let t1 = s.take(i as int + 1);
            assert(t1.drop_last() =~= s.take(i as int));
            assert(t1.last() == stats@[i as int]@);
        }
        if stats[i].has_alias {
            r.push(stats[i].name.clone());
            assert(text::views(r@) =~= text::views(before).push(stats@[i as int].name@));
        }
        i = i + 1;
    }
    assert(s.take(i as int) =~= s);
    r
}

fn number_stats(stats: Vec<DeviceStat>) -> (r: Vec<DeviceStat>)
    ensures
        order::seen(r@) == numbered(order::seen(stats@)),
{
    let ghost s = order::seen(stats@);
    let mut out: Vec<DeviceStat> = Vec::new();
    let mut taken = list_aliases(&stats);
    let ghost reserved = alias_names(s);
    let mut i: usize = 0;
    proof {
        assert(s.take(s.len() as int) =~= s);
        assert(text::views(taken@) =~= reserved + shown_names(s, 0));
    }
    while i < stats.len()
        invariant
            i <= stats.len(),
            s == order::seen(stats@),
            s.take(s.len() as int) == s,
            reserved == alias_names(s),
            text::views(taken@) == reserved + shown_names(s, i as int),
            out@.len() == i,
            forall|k: int|
                0 <= k < i ==> (#[trigger] out@[k])@ == (StatModel { name: shown(s, k), ..s[k] }),
        decreases stats.len() - i,
    {
        let d = &stats[i];
        let ghost dv = s[i as int];
        assert(dv == d@);
        let mut name = d.name.clone();
        if !d.has_alias {
            let a = count_named(&stats, stats.len(), d.auto_name.as_str(), true);
            let b = count_named(&stats, i, d.auto_name.as_str(), false);
            proof {
                lemma_apart(s, i as int);
            }
            let n: usize = a + b + 1;
            assert(n == ordinal(s, i as int));
            assert(taken@.len() == text::views(taken@).len());
            name = free_name(d.name.as_str(), n as u64, &taken);
        }
        assert(name@ == shown(s, i as int));
        let ghost before = taken@;
        taken.push(name.clone());
        proof {
            assert(text::views(taken@) =~= text::views(before).push(name@));
            assert(text::views(taken@) =~= reserved + shown_names(s, i as int + 1));
        }
        let stat = DeviceStat {
            key: d.key.clone(),
            name,
            auto_name: d.auto_name.clone(),
            has_alias: d.has_alias,
            kind: d.kind.clone(),
            count: d.count,
        };
        out.push(stat);
        i = i + 1;
    }
    assert(order::seen(out@) =~= numbered(s));
    out
}

/// Devices with an alias and devices without one are different devices.
proof fn lemma_apart(s: Seq<StatModel>, i: int)
    requires
        0 <= i < s.len(),
        !s[i].has_alias,
    ensures
        ordinal(s, i) <= s.len(),
{
    let n = s[i].auto_name;
    let a = aliased_as(n);
    let f = found_as(n);
    lemma_apart_prefix(s, s.len() as int, n);
    assert(s.take(s.len() as int) =~= s);
    lemma_count_prefix(s, i + 1, s.len() as int, f);
    assert(s.take(i + 1).drop_last() =~= s.take(i));
    assert(s.take(i + 1).last() == s[i]);
}

proof fn lemma_apart_prefix(s: Seq<StatModel>, m: int, n: Seq<char>)
    requires
        0 <= m <= s.len(),
    ensures
        count_of(s.take(m), aliased_as(n)) + count_of(s.take(m), found_as(n)) <= m,
    decreases m,
{
    if m > 0 {
        lemma_apart_prefix(s, m - 1, n);
        assert(s.take(m).drop_last() =~= s.take(m - 1));
    }
}

fn sum_counts(rows: &Vec<DeviceRow>) -> (r: i64)
    requires
        countable_rows(order::seen(rows@)),
    ensures
        r == sum_rows(order::seen(rows@)),
{
    let ghost s = order::seen(rows@);
    let mut acc: i64 = 0;
    let mut i: usize = 0;
    while i < rows.len()
        invariant
            i <= rows.len(),
            s == order::seen(rows@),
            countable_rows(s),
            acc == sum_rows(s.take(i as int)),
            0 <= acc,
        decreases rows.len() - i,
    {
        proof {
            let t1 = s.take(i as int + 1);
            assert(t1.drop_last() =~= s.take(i as int));
            assert(t1.last() == rows@[i as int]@);
            lemma_sum_rows_prefix(s, i as int + 1);
            assert(s[i as int].count >= 0);
        }
        acc = acc + rows[i].count;
        i = i + 1;
    }
    assert(s.take(i as int) =~= s);
    acc
}

/// Makes of the rows of the tables what is shown of the devices: one entry for each
/// device, the alias before the registered name before a name made from the path, the
/// most used first, and names that occur several times numbered. Gives the sum of all
/// counts with them.
pub fn merge_device_rows(rows: Vec<DeviceRow>, aliases: &AliasTable) -> (r: (
    i64,
    Vec<DeviceStat>,
))
    requires
        countable_rows(order::seen(rows@)),
        aliases.wf(),
    ensures
        r.0 == sum_rows(order::seen(rows@)),
        order::seen(r.1@) == shown_devices(order::seen(rows@), aliases.aliases()),
{
    let ghost s = order::seen(rows@);
    proof {
        lemma_merged(s);
    }
    let one = merge_rows(rows);
    let total = sum_counts(&one);
    let stats = make_stats(one, aliases);
    let sorted = rank(stats);
    (total, number_stats(sorted))
}

proof fn lemma_stat_rank()
    ensures
        order::ranks(order::by_rank::<DeviceStat>()),
{
    let ahead = order::by_rank::<DeviceStat>();
    assert forall|a: StatModel, b: StatModel| #[trigger] ahead(a, b) implies !ahead(b, a) by {
        text::lemma_lex_total(a.name, b.name);
    }
    assert forall|a: StatModel, b: StatModel, c: StatModel|
        !(#[trigger] ahead(a, b)) && !(#[trigger] ahead(b, c)) implies !ahead(a, c) by {
        if a.count == b.count && b.count == c.count {
            text::lemma_lex_trans(c.name, b.name, a.name);
        }
    }
}

/// No device is shown after one that was used less.
pub proof fn lemma_most_used_first(
    rows: Seq<RowModel>,
    aliases: Seq<(Seq<char>, Seq<char>)>,
    i: int,
    j: int,
)
    requires
        0 <= i < j < shown_devices(rows, aliases).len(),
    ensures
        shown_devices(rows, aliases)[i].count >= shown_devices(rows, aliases)[j].count,
{
    let ahead = order::by_rank::<DeviceStat>();
    let s = stats_of(merged(rows), aliases);
    lemma_stat_rank();
    order::lemma_ranked_in_order(s, ahead);
    let r = order::ranked(s, ahead);
    assert(!ahead(r[j], r[i]));
}

// -------------------------------------------------------------------------- queries

/// The device with the id `id`.
pub open spec fn device_with(r: Registry, id: int) -> store::DeviceModel {
    r[choose|i: int| 0 <= i < r.len() && (#[trigger] r[i]).id == id]
}

/// The row of a device: as it is registered, or named after its id where it is not.
pub open spec fn row_for(r: Registry, id: i64, n: int) -> RowModel {
    if store::knows_id(r, id as int) {
        let d = device_with(r, id as int);
        RowModel { key: d.key, name: Some(d.name), kind: Some(d.kind), count: n }
    } else {
        RowModel {
            key: hardware::ARCHIVED_DEVICE_KEY_PREFIX@ + text::dec(id as int),
            name: None,
            kind: None,
            count: n,
        }
    }
}

/// The device id in the key of a row.
pub open spec fn row_device() -> spec_fn((i64, i64)) -> i64 {
    |v: (i64, i64)| v.1
}

/// The inputs of a window by device id.
pub struct ByDevice {
    pub window: Window,
}

impl Pick<(i64, i64), i64> for ByDevice {
    open spec fn takes(&self) -> spec_fn((i64, i64)) -> bool {
        self.window.rows::<(i64, i64)>()
    }

    open spec fn names(&self) -> spec_fn((i64, i64)) -> i64 {
        row_device()
    }

    fn takes_row(&self, k: &(i64, i64)) -> (r: bool) {
        self.window.has_day(k.0)
    }

    fn name(&self, k: &(i64, i64)) -> (r: i64) {
        k.1
    }
}

/// The inputs of a window by device id.
pub open spec fn inputs_by_id(y: YearModel, w: Window) -> Seq<(i64, int)> {
    select::grouped(y.device_counts, w.rows::<(i64, i64)>(), row_device())
}

/// What the tables of a year say of each device that was used in a window.
pub open spec fn device_rows(y: YearModel, w: Window) -> Seq<RowModel> {
    let g = inputs_by_id(y, w);
    Seq::new(g.len(), |i: int| row_for(y.devices, g[i].0, g[i].1))
}

/// What the tables of several years say.
pub open spec fn rows_over(st: StoreModel, years: Seq<i32>, w: Window) -> Seq<RowModel>
    decreases years.len(),
{
    if years.len() == 0 {
        Seq::empty()
    } else {
        rows_over(st, years.drop_last(), w) + device_rows(
            store::tables_of(st, years.last()),
            w,
        )
    }
}

proof fn lemma_device_rows(y: YearModel, w: Window)
    requires
        select::nonneg_tables(y),
    ensures
        forall|i: int|
            0 <= i < device_rows(y, w).len() ==> (#[trigger] device_rows(y, w)[i]).count >= 0,
{
    select::lemma_grouped(y.device_counts, w.rows::<(i64, i64)>(), row_device());
    let g = inputs_by_id(y, w);
    assert forall|i: int| 0 <= i < device_rows(y, w).len() implies (#[trigger] device_rows(
        y,
        w,
    )[i]).count >= 0 by {
        assert(g[i].1 >= 0);
    }
}

proof fn lemma_rows_sum(r: Registry, g: Seq<(i64, int)>)
    ensures
        sum_rows(Seq::new(g.len(), |i: int| row_for(r, g[i].0, g[i].1))) == tally::total(g),
    decreases g.len(),
{
    let s = Seq::new(g.len(), |i: int| row_for(r, g[i].0, g[i].1));
    if g.len() > 0 {
        let t = g.drop_last();
        lemma_rows_sum(r, t);
        assert(s.drop_last() =~= Seq::new(t.len(), |i: int| row_for(r, t[i].0, t[i].1)));
    }
}

/// The counts of the devices of a year are those of its table.
pub proof fn lemma_device_rows_sum(y: YearModel, w: Window)
    ensures
        sum_rows(device_rows(y, w)) == tally::sum_if(y.device_counts, w.rows::<(i64, i64)>()),
{
    lemma_rows_sum(y.devices, inputs_by_id(y, w));
    select::lemma_grouped(y.device_counts, w.rows::<(i64, i64)>(), row_device());
}

proof fn lemma_day_rows(st: Store, year: i32, w: Window)
    requires
        st.wf(),
    ensures
        sum_rows(device_rows(store::tables_of(st@, year), w)) <= i64::MAX,
{
    let y = store::tables_of(st@, year);
    lemma_device_rows_sum(y, w);
    let m = st@;
    if exists|i: int| 0 <= i < m.len() && (#[trigger] m[i]).0 == year && m[i].1 is Some {
        let i = choose|i: int| 0 <= i < m.len() && (#[trigger] m[i]).0 == year && m[i].1 is Some;
        let f = st.files@[i];
        assert(f.db is Some);
        assert(f.db->0.wf());
        tally::lemma_sum_bounds(y.device_counts, w.rows::<(i64, i64)>());
    }
}

/// No count of the rows of a store is negative.
pub proof fn lemma_rows_over(st: Store, years: Seq<i32>, w: Window)
    requires
        st.wf(),
    ensures
        forall|i: int|
            0 <= i < rows_over(st@, years, w).len() ==> (#[trigger] rows_over(
                st@,
                years,
                w,
            )[i]).count >= 0,
    decreases years.len(),
{
    if years.len() > 0 {
        lemma_rows_over(st, years.drop_last(), w);
        select::lemma_nonneg_tables(st, years.last());
        lemma_device_rows(store::tables_of(st@, years.last()), w);
    }
}

/// The index of the device with the id `id`, or the number of devices.
pub fn find_id(db: &YearDb, id: i64) -> (r: usize)
    requires
        store::registry_ok(db@.devices),
    ensures
        r <= db.devices@.len(),
        r < db.devices@.len() ==> store::knows_id(db@.devices, id as int) && db@.devices[r as int]
            == device_with(db@.devices, id as int),
        r == db.devices@.len() ==> !store::knows_id(db@.devices, id as int),
{
    let ghost reg = db@.devices;
    let mut i: usize = 0;
    while i < db.devices.len()
        invariant
            i <= db.devices@.len(),
            reg == db@.devices,
            store::registry_ok(reg),
            forall|j: int| 0 <= j < i ==> (#[trigger] reg[j]).id != id,
        decreases db.devices.len() - i,
    {
        assert(reg[i as int].id == db.devices@[i as int].id);
        if db.devices[i].id == id {
            proof {
                let k = choose|k: int| 0 <= k < reg.len() && (#[trigger] reg[k]).id == id;
                if k < i {
                    assert(reg[k].id != reg[i as int].id);
                }
                if i < k {
                    assert(reg[i as int].id != reg[k].id);
                }
            }
            return i;
        }
        i = i + 1;
    }
    i
}

/// What the tables of a year say of each device that was used in a window, in the order
/// in which the devices first occur.
pub fn query_devices(db: &YearDb, window: Window) -> (r: Vec<DeviceRow>)
    requires
        db.wf(),
    ensures
        order::seen(r@) == device_rows(db@, window),
{
    let by_id = group(&db.device_counts, &ByDevice { window });
    let ghost g = inputs_by_id(db@, window);
    let mut out: Vec<DeviceRow> = Vec::new();
    let mut i: usize = 0;
    while i < by_id.rows.len()
        invariant
            i <= by_id.rows.len(),
            db.wf(),
            g == by_id@,
            out@.len() == i,
            forall|k: int|
                0 <= k < i ==> (#[trigger] out@[k])@ == row_for(db@.devices, g[k].0, g[k].1),
        decreases by_id.rows.len() - i,
    {
        let id: i64 = by_id.rows[i].0;
        let n: i64 = by_id.rows[i].1;
        assert(g[i as int] == (id, n as int));
        let at = find_id(db, id);
        let row = if at < db.devices.len() {
            let d = &db.devices[at];
            DeviceRow {
                device_key: d.key.clone(),
                name: Some(d.name.clone()),
                kind: Some(d.kind.clone()),
                count: n,
            }
        } else {
            let num = dec_i64(id);
            DeviceRow {
                device_key: cat2(hardware::ARCHIVED_DEVICE_KEY_PREFIX, num.as_str()),
                name: None,
                kind: None,
                count: n,
            }
        };
        assert(row@ == row_for(db@.devices, id, n as int));
        out.push(row);
        i = i + 1;
    }
    assert(order::seen(out@) =~= device_rows(db@, window));
    out
}

fn query_over(st: &Store, years: &Vec<i32>, window: Window) -> (r: Vec<DeviceRow>)
    requires
        st.wf(),
    ensures
        order::seen(r@) == rows_over(st@, years@, window),
{
    let mut out: Vec<DeviceRow> = Vec::new();
    let mut i: usize = 0;
    assert(order::seen(out@) =~= rows_over(st@, years@.take(0), window));
    while i < years.len()
        invariant
            i <= years.len(),
            st.wf(),
            order::seen(out@) == rows_over(st@, years@.take(i as int), window),
        decreases years.len() - i,
    {
        proof {
            let t1 = years@.take(i as int + 1);
            assert(t1.drop_last() =~= years@.take(i as int));
            assert(t1.last() == years@[i as int]);
        }
        let ghost before = out@;
        let mut part: Vec<DeviceRow> = match tables(st, years[i]) {
            Some(d) => query_devices(d, window),
            None => {
                let d = YearDb::new();
                assert(d@ =~= store::no_tables());
                query_devices(&d, window)
            },
        };
        let ghost p = part@;
        out.append(&mut part);
        proof {
            assert(order::seen(out@) =~= order::seen(before) + order::seen(p));
        }
        i = i + 1;
    }
    assert(years@.take(i as int) =~= years@);
    out
}

/// All inputs and the devices as they are shown, over a period of days that ends today or
/// over all days, and in one year or in all.
pub fn get_device_stats(
    st: &Store,
    days: Option<i64>,
    year: Option<i32>,
    today: &Date,
    aliases: &AliasTable,
) -> (r: (i64, Vec<DeviceStat>))
    requires
        st.wf(),
        queries::usable_today(*today),
        aliases.wf(),
        sum_rows(
            rows_over(
                st@,
                queries::asked(st@, days, year, *today),
                queries::period(days, *today),
            ),
        ) <= i64::MAX,
    ensures
        r.0 == sum_rows(
            rows_over(
                st@,
                queries::asked(st@, days, year, *today),
                queries::period(days, *today),
            ),
        ),
        order::seen(r.1@) == shown_devices(
            rows_over(
                st@,
                queries::asked(st@, days, year, *today),
                queries::period(days, *today),
            ),
            aliases.aliases(),
        ),
{
    let years = queries::asked_years(st, days, year, today);
    let window = queries::period_window(days, today);
    let rows = query_over(st, &years, window);
    proof {
        lemma_rows_over(*st, years@, window);
    }
    merge_device_rows(rows, aliases)
}

/// All inputs and the devices as they are shown, on one day.
pub fn get_device_stats_by_date(st: &Store, date: &Date, aliases: &AliasTable) -> (r: (
    i64,
    Vec<DeviceStat>,
))
    requires
        st.wf(),
        date.valid(),
        aliases.wf(),
    ensures
        r.0 == sum_rows(
            device_rows(store::tables_of(st@, date.year), Window::On(date.number() as i64)),
        ),
        order::seen(r.1@) == shown_devices(
            device_rows(store::tables_of(st@, date.year), Window::On(date.number() as i64)),
            aliases.aliases(),
        ),
{
    let day = day_key_of_date(date);
    let rows = match tables(st, date.year) {
        Some(d) => query_devices(d, Window::On(day)),
        None => {
            let d = YearDb::new();
            assert(d@ =~= store::no_tables());
            query_devices(&d, Window::On(day))
        },
    };
    proof {
        select::lemma_nonneg_tables(*st, date.year);
        lemma_device_rows(store::tables_of(st@, date.year), Window::On(day));
        lemma_day_rows(*st, date.year, Window::On(day));
    }
    merge_device_rows(rows, aliases)
}

// --------------------------------------------------------------------------- detail

/// The id that a registry gives a device.
pub open spec fn device_id(r: Registry, key: Seq<char>) -> Option<i64> {
    if store::knows(r, key) {
        Some(store::id_of(r, key) as i64)
    } else {
        None
    }
}

fn id_of_device(db: &YearDb, key: &str) -> (r: Option<i64>)
    requires
        db.wf(),
    ensures
        r == device_id(db@.devices, key@),
{
    let i = db.find_device(key);
    if i < db.devices.len() {
        proof {
            store::lemma_id_of(db@.devices, i as int);
        }
        Some(db.devices[i].id)
    } else {
        None
    }
}

/// The rows of one device, if any.
pub open spec fn of_device(id: Option<i64>) -> spec_fn((i64, i64)) -> bool {
    |v: (i64, i64)| id == Some(v.1)
}

/// The day in the key of a row.
pub open spec fn row_day() -> spec_fn((i64, i64)) -> i64 {
    |v: (i64, i64)| v.0
}

/// The rows of one device by day.
pub struct DaysOfId {
    pub id: Option<i64>,
}

impl Pick<(i64, i64), i64> for DaysOfId {
    open spec fn takes(&self) -> spec_fn((i64, i64)) -> bool {
        of_device(self.id)
    }

    open spec fn names(&self) -> spec_fn((i64, i64)) -> i64 {
        row_day()
    }

    fn takes_row(&self, k: &(i64, i64)) -> (r: bool) {
        match self.id {
            Some(id) => id == k.1,
            None => false,
        }
    }

    fn name(&self, k: &(i64, i64)) -> (r: i64) {
        k.0
    }
}

/// The inputs of one device by day.
pub struct DaysOf {
    pub key: String,
}

impl YearQuery<i64> for DaysOf {
    open spec fn picked(&self, y: YearModel) -> Seq<(i64, int)> {
        select::grouped(y.device_counts, of_device(device_id(y.devices, self.key@)), row_day())
    }

    proof fn picked_nonneg(&self, y: YearModel) {
        select::lemma_grouped(
            y.device_counts,
            of_device(device_id(y.devices, self.key@)),
            row_day(),
        );
    }

    fn pick(&self, db: &YearDb) -> (r: Tally<i64>) {
        let id = id_of_device(db, self.key.as_str());
        group(&db.device_counts, &DaysOfId { id })
    }
}

/// The rows of one device in a window.
pub open spec fn keys_of_device(id: Option<i64>, w: Window) -> spec_fn(
    (i64, i64, Seq<char>),
) -> bool {
    |v: (i64, i64, Seq<char>)| id == Some(v.1) && w.covers(v.0 as int)
}

/// The key name in the key of a row.
pub open spec fn row_key_name() -> spec_fn((i64, i64, Seq<char>)) -> Seq<char> {
    |v: (i64, i64, Seq<char>)| v.2
}

/// The rows of one device in a window by key.
pub struct KeysOfId {
    pub id: Option<i64>,
    pub window: Window,
}

impl Pick<(i64, i64, String), String> for KeysOfId {
    open spec fn takes(&self) -> spec_fn((i64, i64, Seq<char>)) -> bool {
        keys_of_device(self.id, self.window)
    }

    open spec fn names(&self) -> spec_fn((i64, i64, Seq<char>)) -> Seq<char> {
        row_key_name()
    }

    fn takes_row(&self, k: &(i64, i64, String)) -> (r: bool) {
        match self.id {
            Some(id) => id == k.1 && self.window.has_day(k.0),
            None => false,
        }
    }

    fn name(&self, k: &(i64, i64, String)) -> (r: String) {
        k.2.clone()
    }
}

/// The inputs of one device in a window by key.
pub struct KeysOf {
    pub key: String,
    pub window: Window,
}

impl YearQuery<String> for KeysOf {
    open spec fn picked(&self, y: YearModel) -> Seq<(Seq<char>, int)> {
        select::grouped(
            y.device_keys,
            keys_of_device(device_id(y.devices, self.key@), self.window),
            row_key_name(),
        )
    }

    proof fn picked_nonneg(&self, y: YearModel) {
        select::lemma_grouped(
            y.device_keys,
            keys_of_device(device_id(y.devices, self.key@), self.window),
            row_key_name(),
        );
    }

    fn pick(&self, db: &YearDb) -> (r: Tally<String>) {
        let id = id_of_device(db, self.key.as_str());
        group(&db.device_keys, &KeysOfId { id, window: self.window })
    }
}

/// A day with a number, ranked by day.
pub struct DayCount {
    pub day: i64,
    pub count: i64,
}

impl View for DayCount {
    type V = (i64, int);

    open spec fn view(&self) -> (i64, int) {
        (self.day, self.count as int)
    }
}

impl Ranked for DayCount {
    open spec fn ahead(a: (i64, int), b: (i64, int)) -> bool {
        a.0 < b.0
    }

    fn goes_ahead(&self, other: &Self) -> (r: bool) {
        self.day < other.day
    }
}

/// A name with a number, the largest number first, of equal ones by name.
pub struct NameCount {
    pub name: String,
    pub count: i64,
}

impl View for NameCount {
    type V = (Seq<char>, int);

    open spec fn view(&self) -> (Seq<char>, int) {
        (self.name@, self.count as int)
    }
}

impl Ranked for NameCount {
    open spec fn ahead(a: (Seq<char>, int), b: (Seq<char>, int)) -> bool {
        a.1 > b.1 || (a.1 == b.1 && !text::lex_le(b.0, a.0))
    }

    fn goes_ahead(&self, other: &Self) -> (r: bool) {
        self.count > other.count || (self.count == other.count && !str_le(
            other.name.as_str(),
            self.name.as_str(),
        ))
    }
}

/// The rows of a table, the largest amount first, of equal ones by name.
pub open spec fn name_ranking(s: Seq<(Seq<char>, int)>) -> Seq<(Seq<char>, int)> {
    order::ranked(s, order::by_rank::<NameCount>())
}

/// The rows of a table, the largest amount first, of equal ones by name.
pub fn rank_names(t: &Tally<String>) -> (r: Vec<(String, i64)>)
    ensures
        queries::labelled(r@) == name_ranking(t@),
{
    let mut list: Vec<NameCount> = Vec::new();
    let mut i: usize = 0;
    while i < t.rows.len()
        invariant
            i <= t.rows.len(),
            list@.len() == i,
            forall|k: int| 0 <= k < i ==> (#[trigger] list@[k])@ == t@[k],
        decreases t.rows.len() - i,
    {
        list.push(NameCount { name: t.rows[i].0.clone(), count: t.rows[i].1 });
        i = i + 1;
    }
    assert(order::seen(list@) =~= t@);
    let sorted = rank(list);
    let mut out: Vec<(String, i64)> = Vec::new();
    let mut j: usize = 0;
    while j < sorted.len()
        invariant
            j <= sorted.len(),
            out@.len() == j,
            forall|k: int|
                0 <= k < j ==> (#[trigger] out@[k]).0@ == sorted@[k].name@ && out@[k].1
                    == sorted@[k].count,
        decreases sorted.len() - j,
    {
        out.push((sorted[j].name.clone(), sorted[j].count));
        j = j + 1;
    }
    assert(queries::labelled(out@) =~= order::seen(sorted@));
    out
}

/// The rows of a table by day.
pub open spec fn day_series(s: Seq<(i64, int)>) -> Seq<(i64, int)> {
    order::ranked(s, order::by_rank::<DayCount>())
}

fn series_ends(t: &Tally<i64>) -> (r: Option<(i64, i64)>)
    ensures
        match r {
            Some(e) => day_series(t@).len() > 0 && e.0 == day_series(t@)[0].0 && e.1 == day_series(
                t@,
            ).last().0,
            None => day_series(t@).len() == 0,
        },
{
    let mut list: Vec<DayCount> = Vec::new();
    let mut i: usize = 0;
    while i < t.rows.len()
        invariant
            i <= t.rows.len(),
            list@.len() == i,
            forall|k: int| 0 <= k < i ==> (#[trigger] list@[k])@ == t@[k],
        decreases t.rows.len() - i,
    {
        list.push(DayCount { day: t.rows[i].0, count: t.rows[i].1 });
        i = i + 1;
    }
    assert(order::seen(list@) =~= t@);
    let sorted = rank(list);
    proof {
        assert(order::seen(sorted@).len() == sorted.len());
    }
    if sorted.len() == 0 {
        None
    } else {
        Some((sorted[0].day, sorted[sorted.len() - 1].day))
    }
}

/// All about one device.
pub struct DeviceDetail {
    pub key: String,
    /// The name that is shown.
    pub name: String,
    /// The name found for the device.
    pub auto_name: String,
    pub has_alias: bool,
    pub kind: String,
    /// The inputs of today, of the last 7 days, of the last 30 days and of all days.
    pub today: i64,
    pub week: i64,
    pub month: i64,
    pub all: i64,
    /// The period asked for: -1 for today, 0 for all days, else that many days.
    pub period: i64,
    pub period_count: i64,
    /// The inputs of all devices in the period.
    pub period_total: i64,
    /// The place among the devices of the period, from 1; 0 where it was not used.
    pub rank: usize,
    pub device_count: usize,
    /// The place among the devices of its kind, and their number.
    pub kind_rank: usize,
    pub kind_count: usize,
    /// The days with a row.
    pub active_days: usize,
    pub first_date: String,
    pub last_date: String,
    /// The inputs of each of the last 30 days, today last.
    pub trend: Vec<(String, i64)>,
    /// The keys pressed in the period, the most used first.
    pub keys: Vec<(String, i64)>,
    pub key_total: i64,
    /// Whether any key of the device was ever recorded.
    pub has_key_detail: bool,
}

/// The days of a period: -1 is today, 0 every day, else that many days, at least 1.
pub open spec fn detail_window(period: i64, today: int) -> Window {
    if period == -1 {
        Window::On(today as i64)
    } else if period == 0 {
        Window::All
    } else {
        Window::From((today - (if period < 1 { 1 } else { period as int }) + 1) as i64)
    }
}

/// The days that the keys of a period are taken from.
pub open spec fn key_window(period: i64, today: int) -> Window {
    if period == -1 {
        Window::From(today as i64)
    } else {
        detail_window(period, today)
    }
}

/// The rows of all devices in a period.
pub open spec fn period_rows(st: StoreModel, period: i64, today: Date) -> Seq<RowModel> {
    if period == -1 {
        device_rows(store::tables_of(st, today.year), Window::On(today.number() as i64))
    } else {
        let days = if period > 0 {
            Some(period)
        } else {
            None
        };
        rows_over(st, queries::queried(st, days, today), queries::period(days, today))
    }
}

/// The inputs of a device by day, over all years.
pub open spec fn days_of(st: StoreModel, key: Seq<char>) -> Seq<(i64, int)> {
    days_over(st, queries::available(st), key)
}

/// The inputs of a device by day, over several years.
pub open spec fn days_over(st: StoreModel, years: Seq<i32>, key: Seq<char>) -> Seq<(i64, int)>
    decreases years.len(),
{
    if years.len() == 0 {
        Seq::empty()
    } else {
        let y = store::tables_of(st, years.last());
        tally::absorb(
            days_over(st, years.drop_last(), key),
            select::grouped(y.device_counts, of_device(device_id(y.devices, key)), row_day()),
        )
    }
}

/// The inputs of a device in a window by key, over several years.
pub open spec fn keys_over(st: StoreModel, years: Seq<i32>, key: Seq<char>, w: Window) -> Seq<
    (Seq<char>, int),
>
    decreases years.len(),
{
    if years.len() == 0 {
        Seq::empty()
    } else {
        let y = store::tables_of(st, years.last());
        tally::absorb(
            keys_over(st, years.drop_last(), key, w),
            select::grouped(
                y.device_keys,
                keys_of_device(device_id(y.devices, key), w),
                row_key_name(),
            ),
        )
    }
}

proof fn lemma_days_over(st: StoreModel, years: Seq<i32>, q: DaysOf)
    ensures
        select::gathered::<i64, DaysOf>(st, years, q) == days_over(st, years, q.key@),
    decreases years.len(),
{
    if years.len() > 0 {
        lemma_days_over(st, years.drop_last(), q);
    }
}

proof fn lemma_keys_over(st: StoreModel, years: Seq<i32>, q: KeysOf)
    ensures
        select::gathered::<String, KeysOf>(st, years, q) == keys_over(st, years, q.key@, q.window),
    decreases years.len(),
{
    if years.len() > 0 {
        lemma_keys_over(st, years.drop_last(), q);
    }
}

/// The index of the device of `key` from `from` on; -1 where there is none.
pub open spec fn place_of(s: Seq<StatModel>, key: Seq<char>, from: int) -> int
    decreases s.len() - from,
{
    if from >= s.len() {
        -1
    } else if s[from].key == key {
        from
    } else {
        place_of(s, key, from + 1)
    }
}

/// The kind that the first of several years registered for a device.
pub open spec fn kind_in(st: StoreModel, years: Seq<i32>, key: Seq<char>) -> Option<Seq<char>>
    decreases years.len(),
{
    if years.len() == 0 {
        None
    } else {
        let r = store::tables_of(st, years[0]).devices;
        if store::knows(r, key) {
            Some(device_with(r, store::id_of(r, key)).kind)
        } else {
            kind_in(st, years.drop_first(), key)
        }
    }
}

/// Whether the tables of a year hold a key of a device.
pub open spec fn has_keys_of(y: YearModel, key: Seq<char>) -> bool {
    exists|i: int|
        0 <= i < y.device_keys.len() && device_id(y.devices, key) == Some(
            (#[trigger] y.device_keys[i]).0.1,
        )
}

/// Whether a key of a device was ever recorded.
pub open spec fn ever_keys(st: StoreModel, years: Seq<i32>, key: Seq<char>) -> bool {
    exists|i: int| 0 <= i < years.len() && has_keys_of(store::tables_of(st, #[trigger] years[i]), key)
}

pub open spec fn of_kind(kind: Seq<char>) -> spec_fn(StatModel) -> bool {
    |x: StatModel| x.kind == kind
}

/// Who a device is: its name, the name found for it, whether it has an alias, its kind.
pub open spec fn identity(
    st: StoreModel,
    s: Seq<StatModel>,
    key: Seq<char>,
    aliases: Seq<(Seq<char>, Seq<char>)>,
) -> (Seq<char>, Seq<char>, bool, Seq<char>) {
    let i = place_of(s, key, 0);
    if i >= 0 {
        (s[i].name, s[i].auto_name, s[i].has_alias, s[i].kind)
    } else {
        let auto = hardware::fallback_name(key);
        let alias = device_alias::resolved(aliases, key);
        let kind = kind_in(st, queries::available(st), key);
        (
            if alias is Some {
                alias->0
            } else {
                auto
            },
            auto,
            alias is Some,
            if kind is Some {
                kind->0
            } else {
                "unknown"@
            },
        )
    }
}

/// The place of a device among those of its kind.
pub open spec fn kind_place(s: Seq<StatModel>, key: Seq<char>, kind: Seq<char>) -> int {
    let i = place_of(s, key, 0);
    if i >= 0 {
        count_of(s.take(i), of_kind(kind)) as int + 1
    } else {
        0
    }
}

fn find_place(stats: &Vec<DeviceStat>, key: &str) -> (r: Option<usize>)
    ensures
        match r {
            Some(i) => i < stats.len() && place_of(order::seen(stats@), key@, 0) == i,
            None => place_of(order::seen(stats@), key@, 0) == -1,
        },
{
    let ghost s = order::seen(stats@);
    let mut i: usize = 0;
    while i < stats.len()
        invariant
            i <= stats.len(),
            s == order::seen(stats@),
            place_of(s, key@, 0) == place_of(s, key@, i as int),
        decreases stats.len() - i,
    {
        assert(s[i as int].key == stats@[i as int].key@);
        if str_eq(stats[i].key.as_str(), key) {
            return Some(i);
        }
        i = i + 1;
    }
    None
}

fn count_kind(stats: &Vec<DeviceStat>, end: usize, kind: &str) -> (r: usize)
    requires
        end <= stats.len(),
    ensures
        r == count_of(order::seen(stats@).take(end as int), of_kind(kind@)),
        r <= end,
{
    let ghost s = order::seen(stats@);
    let mut n: usize = 0;
    let mut i: usize = 0;
    while i < end
        invariant
            i <= end <= stats.len(),
            s == order::seen(stats@),
            n == count_of(s.take(i as int), of_kind(kind@)),
            n <= i,
        decreases end - i,
    {
        proof {
            let t1 = s.take(i as int + 1);
            assert(t1.drop_last() =~= s.take(i as int));
            assert(t1.last() == stats@[i as int]@);
        }
        if str_eq(stats[i].kind.as_str(), kind) {
            n = n + 1;
        }
        i = i + 1;
    }
    n
}

/// The kind that the latest year that knows the device registered for it.
pub fn registered_kind(st: &Store, device_key: &str) -> (r: Option<String>)
    requires
        st.wf(),
    ensures
        text::opt_text(r) == kind_in(st@, queries::available(st@), device_key@),
{
    let years = available_years(st);
    let mut i: usize = 0;
    assert(years@.skip(0) =~= years@);
    while i < years.len()
        invariant
            i <= years.len(),
            st.wf(),
            years@ == queries::available(st@),
            kind_in(st@, years@, device_key@) == kind_in(
                st@,
                years@.skip(i as int),
                device_key@,
            ),
        decreases years.len() - i,
    {
        let ghost rest = years@.skip(i as int);
        assert(rest[0] == years@[i as int]);
        assert(rest.drop_first() =~= years@.skip(i as int + 1));
        if let Some(d) = tables(st, years[i]) {
            let at = d.find_device(device_key);
            if at < d.devices.len() {
                proof {
                    let r = d@.devices;
                    store::lemma_id_of(r, at as int);
                    let id = r[at as int].id;
                    let k = choose|k: int| 0 <= k < r.len() && (#[trigger] r[k]).id == id;
                    if k < at {
                        assert(r[k].id != r[at as int].id);
                    }
                    if at < k {
                        assert(r[at as int].id != r[k].id);
                    }
                }
                return Some(d.devices[at].kind.clone());
            }
        }
        i = i + 1;
    }
    None
}

fn holds_keys_of(db: &YearDb, key: &str) -> (r: bool)
    requires
        db.wf(),
    ensures
        r == has_keys_of(db@, key@),
{
    let ghost t = db@.device_keys;
    match id_of_device(db, key) {
        None => false,
        Some(id) => {
            let mut i: usize = 0;
            while i < db.device_keys.rows.len()
                invariant
                    i <= db.device_keys.rows.len(),
                    t == db@.device_keys,
                    device_id(db@.devices, key@) == Some(id),
                    forall|k: int| 0 <= k < i ==> (#[trigger] t[k]).0.1 != id,
                decreases db.device_keys.rows.len() - i,
            {
                assert(t[i as int].0.1 == db.device_keys.rows@[i as int].0.1);
                if db.device_keys.rows[i].0.1 == id {
                    return true;
                }
                i = i + 1;
            }
            false
        },
    }
}

/// Whether any key of a device was ever recorded.
pub fn device_has_key_detail(st: &Store, device_key: &str) -> (r: bool)
    requires
        st.wf(),
    ensures
        r == ever_keys(st@, queries::available(st@), device_key@),
{
    let years = available_years(st);
    let mut i: usize = 0;
    while i < years.len()
        invariant
            i <= years.len(),
            st.wf(),
            years@ == queries::available(st@),
            forall|k: int|
                0 <= k < i ==> !has_keys_of(
                    store::tables_of(st@, #[trigger] years@[k]),
                    device_key@,
                ),
        decreases years.len() - i,
    {
        let found = match tables(st, years[i]) {
            Some(d) => holds_keys_of(d, device_key),
            None => false,
        };
        assert(found == has_keys_of(store::tables_of(st@, years@[i as int]), device_key@));
        if found {
            return true;
        }
        i = i + 1;
    }
    false
}

/// The inputs of the last 30 days of a device.
pub open spec fn trend_of(s: Seq<(i64, int)>, today: int) -> Seq<(Seq<char>, int)> {
    Seq::new(
        30,
        |i: int|
            (calendar::day_text(today - 29 + i), tally::amount(s, (today - 29 + i) as i64)),
    )
}

fn make_trend(t: &Tally<i64>, today: i64) -> (r: Vec<(String, i64)>)
    requires
        t.wf(),
        today >= i64::MIN + 30,
    ensures
        queries::labelled(r@) == trend_of(t@, today as int),
{
    let mut out: Vec<(String, i64)> = Vec::new();
    let mut i: i64 = 0;
    while i < 30
        invariant
            0 <= i <= 30,
            t.wf(),
            today >= i64::MIN + 30,
            out@.len() == i,
            forall|k: int|
                #![trigger out@[k]]
                0 <= k < i ==> out@[k].0@ == calendar::day_text(today - 29 + k) && out@[k].1
                    == tally::amount(t@, (today - 29 + k) as i64),
        decreases 30 - i,
    {
        let day: i64 = today - (29 - i);
        let n = t.get(&day);
        out.push((day_key_text(day), n));
        i = i + 1;
    }
    assert(queries::labelled(out@) =~= trend_of(t@, today as int));
    out
}

/// What the detail of a device says.
pub open spec fn tells(
    r: DeviceDetail,
    st: StoreModel,
    key: Seq<char>,
    period: i64,
    today: Date,
    aliases: Seq<(Seq<char>, Seq<char>)>,
) -> bool {
    let day = today.number();
    let own = days_of(st, key);
    let rows = period_rows(st, period, today);
    let s = shown_devices(rows, aliases);
    let who = identity(st, s, key, aliases);
    let keys = keys_over(st, queries::available(st), key, key_window(period, day));
    &&& r.key@ == key
    &&& r.name@ == who.0
    &&& r.auto_name@ == who.1
    &&& r.has_alias == who.2
    &&& r.kind@ == who.3
    &&& r.today == tally::sum_if(own, Window::On(day as i64).rows::<i64>())
    &&& r.week == tally::sum_if(own, Window::From((day - 6) as i64).rows::<i64>())
    &&& r.month == tally::sum_if(own, Window::From((day - 29) as i64).rows::<i64>())
    &&& r.all == tally::total(own)
    &&& r.period == period
    &&& r.period_count == tally::sum_if(own, detail_window(period, day).rows::<i64>())
    &&& r.period_total == sum_rows(rows)
    &&& r.rank == place_of(s, key, 0) + 1
    &&& r.device_count == s.len()
    &&& r.kind_rank == kind_place(s, key, who.3)
    &&& r.kind_count == count_of(s, of_kind(who.3))
    &&& r.active_days == own.len()
    &&& r.first_date@ == (if own.len() == 0 {
        Seq::<char>::empty()
    } else {
        calendar::day_text(day_series(own)[0].0 as int)
    })
    &&& r.last_date@ == (if own.len() == 0 {
        Seq::<char>::empty()
    } else {
        calendar::day_text(day_series(own).last().0 as int)
    })
    &&& queries::labelled(r.trend@) == trend_of(own, day)
    &&& queries::labelled(r.keys@) == name_ranking(keys)
    &&& r.key_total == tally::total(keys)
    &&& r.has_key_detail == ever_keys(st, queries::available(st), key)
}

/// All about one device. `period` is -1 for today, 0 for all days, else a number of days
/// that ends with today.
pub fn get_device_detail(
    st: &Store,
    device_key: &str,
    period: i64,
    today: &Date,
    aliases: &AliasTable,
) -> (r: DeviceDetail)
    requires
        st.wf(),
        queries::usable_today(*today),
        aliases.wf(),
        tally::total(days_of(st@, device_key@)) <= i64::MAX,
        sum_rows(period_rows(st@, period, *today)) <= i64::MAX,
        tally::total(
            keys_over(
                st@,
                queries::available(st@),
                device_key@,
                key_window(period, today.number()),
            ),
        ) <= i64::MAX,
    ensures
        tells(r, st@, device_key@, period, *today, aliases.aliases()),
{
    let day = day_key_of_date(today);
    proof {
        calendar::lemma_number_range(*today);
    }
    let years = available_years(st);
    let by_day = DaysOf { key: device_key.to_owned() };
    proof {
        lemma_days_over(st@, years@, by_day);
    }
    let own = gather(st, &years, &by_day);
    assert(own@ == days_of(st@, device_key@));
    let window = if period == -1 {
        Window::On(day)
    } else if period == 0 {
        Window::All
    } else if period < 1 {
        Window::From(day)
    } else {
        Window::From(day - (period - 1))
    };
    assert(window == detail_window(period, day as int));
    let period_count = sum_in(&own, window);
    let count_today = sum_in(&own, Window::On(day));
    let week = sum_in(&own, Window::From(day - 6));
    let month = sum_in(&own, Window::From(day - 29));
    let all = own.total();
    let (period_total, stats) = if period == -1 {
        get_device_stats_by_date(st, today, aliases)
    } else if period > 0 {
        get_device_stats(st, Some(period), None, today, aliases)
    } else {
        get_device_stats(st, None, None, today, aliases)
    };
    let ghost s = shown_devices(period_rows(st@, period, *today), aliases.aliases());
    assert(order::seen(stats@) == s);
    assert(s.len() == stats.len());
    let place = find_place(&stats, device_key);
    let (name, auto_name, has_alias, kind) = match place {
        Some(i) => {
            assert(s[i as int] == stats@[i as int]@);
            (
                stats[i].name.clone(),
                stats[i].auto_name.clone(),
                stats[i].has_alias,
                stats[i].kind.clone(),
            )
        },
        None => {
            let auto = fallback_device_name(device_key);
            let kind = match registered_kind(st, device_key) {
                Some(k) => k,
                None => "unknown".to_owned(),
            };
            match aliases.resolve(device_key) {
                Some(a) => (a.to_owned(), auto, true, kind),
                None => (auto.clone(), auto, false, kind),
            }
        },
    };
    let kind_count = count_kind(&stats, stats.len(), kind.as_str());
    assert(s.take(s.len() as int) =~= s);
    let kind_rank: usize = match place {
        Some(i) => count_kind(&stats, i, kind.as_str()) + 1,
        None => 0,
    };
    let place_rank: usize = match place {
        Some(i) => i + 1,
        None => 0,
    };
    let keys_from = if period == -1 {
        Window::From(day)
    } else {
        window
    };
    let by_key = KeysOf { key: device_key.to_owned(), window: keys_from };
    proof {
        lemma_keys_over(st@, years@, by_key);
    }
    let key_counts = gather(st, &years, &by_key);
    let keys = rank_names(&key_counts);
    let key_total = key_counts.total();
    let trend = make_trend(&own, day);
    proof {
        order::lemma_ranked_keeps(own@, order::by_rank::<DayCount>());
    }
    let (first_date, last_date) = match series_ends(&own) {
        Some(e) => (day_key_text(e.0), day_key_text(e.1)),
        None => {
            let a = String::new();
            let b = String::new();
            (a, b)
        },
    };
    let has_key_detail = device_has_key_detail(st, device_key);
    DeviceDetail {
        key: device_key.to_owned(),
        name,
        auto_name,
        has_alias,
        kind,
        today: count_today,
        week,
        month,
        all,
        period,
        period_count,
        period_total,
        rank: place_rank,
        device_count: stats.len(),
        kind_rank,
        kind_count,
        active_days: own.len(),
        first_date,
        last_date,
        trend,
        keys,
        key_total,
        has_key_detail,
    }
}

pub proof fn lemma_merged_keys(s: Seq<RowModel>, key: Seq<char>)
    ensures
        has_row(merged(s), key) <==> has_row(s, key),
    decreases s.len(),
{
    if s.len() > 0 {
        let t = s.drop_last();
        let m = merged(t);
        let e = s.last();
        let w = with_row(m, e);
        lemma_merged_keys(t, key);
        assert(s[s.len() - 1] == e);
        if has_row(t, key) {
            let i = choose|i: int| 0 <= i < t.len() && (#[trigger] t[i]).key == key;
            assert(s[i].key == key);
        }
        if has_row(m, key) {
            let i = choose|i: int| 0 <= i < m.len() && (#[trigger] m[i]).key == key;
            assert(w[i].key == key);
        }
        if e.key == key && !has_row(m, key) {
            assert(w[m.len() as int].key == key);
        }
        if has_row(w, key) && e.key != key {
            let i = choose|i: int| 0 <= i < w.len() && (#[trigger] w[i]).key == key;
            assert(m[i].key == key);
        }
        if has_row(s, key) && e.key != key {
            let i = choose|i: int| 0 <= i < s.len() && (#[trigger] s[i]).key == key;
            assert(t[i].key == key);
        }
    }
}

pub proof fn lemma_place_of(s: Seq<StatModel>, key: Seq<char>, from: int)
    requires
        0 <= from <= s.len(),
    ensures
        -1 <= place_of(s, key, from) < s.len(),
        place_of(s, key, from) >= 0 ==> s[place_of(s, key, from)].key == key,
        place_of(s, key, from) == -1 <==> forall|i: int|
            from <= i < s.len() ==> (#[trigger] s[i]).key != key,
    decreases s.len() - from,
{
    if from < s.len() && s[from].key != key {
        lemma_place_of(s, key, from + 1);
    }
}

/// The list of shown devices has a device exactly where the rows behind it have one.
proof fn lemma_shown_keys(
    rows: Seq<RowModel>,
    aliases: Seq<(Seq<char>, Seq<char>)>,
    key: Seq<char>,
)
    ensures
        (exists|i: int|
            0 <= i < shown_devices(rows, aliases).len() && (#[trigger] shown_devices(
                rows,
                aliases,
            )[i]).key == key) <==> has_row(rows, key),
{
    let m = merged(rows);
    let a = stats_of(m, aliases);
    let r = order::ranked(a, order::by_rank::<DeviceStat>());
    let s = shown_devices(rows, aliases);
    lemma_merged_keys(rows, key);
    order::lemma_ranked_keeps(a, order::by_rank::<DeviceStat>());
    if exists|i: int| 0 <= i < s.len() && (#[trigger] s[i]).key == key {
        let i = choose|i: int| 0 <= i < s.len() && (#[trigger] s[i]).key == key;
        let x = r[i];
        assert(r.contains(x));
        vstd::seq_lib::to_multiset_contains(r, x);
        vstd::seq_lib::to_multiset_contains(a, x);
        let k = choose|k: int| 0 <= k < a.len() && a[k] == x;
        assert(m[k].key == key);
    }
    if has_row(m, key) {
        let k = choose|k: int| 0 <= k < m.len() && (#[trigger] m[k]).key == key;
        let x = a[k];
        assert(a.contains(x));
        vstd::seq_lib::to_multiset_contains(a, x);
        vstd::seq_lib::to_multiset_contains(r, x);
        let i = choose|i: int| 0 <= i < r.len() && r[i] == x;
        assert(s[i].key == key);
    }
}

/// The rank of a device is 0 exactly where the device has no row in the period, and else
/// its place in the list of that period. The same holds of the rank among its kind.
pub proof fn lemma_rank_is_a_place(
    r: DeviceDetail,
    st: StoreModel,
    key: Seq<char>,
    period: i64,
    today: Date,
    aliases: Seq<(Seq<char>, Seq<char>)>,
)
    requires
        tells(r, st, key, period, today, aliases),
    ensures
        r.rank == 0 <==> !has_row(period_rows(st, period, today), key),
        r.rank <= r.device_count,
        r.rank > 0 ==> shown_devices(period_rows(st, period, today), aliases)[r.rank - 1].key
            == key,
        r.kind_rank == 0 <==> r.rank == 0,
        r.kind_rank <= r.rank,
        r.kind_rank <= r.kind_count <= r.device_count,
{
    let rows = period_rows(st, period, today);
    let s = shown_devices(rows, aliases);
    let who = identity(st, s, key, aliases);
    let p = of_kind(who.3);
    lemma_shown_keys(rows, aliases, key);
    lemma_place_of(s, key, 0);
    let i = place_of(s, key, 0);
    assert(s.take(s.len() as int) =~= s);
    lemma_count_prefix(s, s.len() as int, s.len() as int, p);
    if i >= 0 {
        lemma_count_prefix(s, i, i, p);
        lemma_count_prefix(s, i + 1, s.len() as int, p);
        assert(s.take(i + 1).drop_last() =~= s.take(i));
        assert(s.take(i + 1).last() == s[i]);
        assert(s[i].key == key);
    }
}

/// Whether a device has keys does not depend on the period that is asked for, nor do its
/// inputs of today, of the last days and of all days.
pub proof fn lemma_detail_beyond_the_period(
    a: DeviceDetail,
    b: DeviceDetail,
    st: StoreModel,
    key: Seq<char>,
    one: i64,
    other: i64,
    today: Date,
    aliases: Seq<(Seq<char>, Seq<char>)>,
)
    requires
        tells(a, st, key, one, today, aliases),
        tells(b, st, key, other, today, aliases),
    ensures
        a.has_key_detail == b.has_key_detail,
        a.today == b.today,
        a.week == b.week,
        a.month == b.month,
        a.all == b.all,
        a.active_days == b.active_days,
        a.first_date@ == b.first_date@,
        a.last_date@ == b.last_date@,
        queries::labelled(a.trend@) == queries::labelled(b.trend@),
{
}

/// The inputs of today are among those of the last 7 days, those among the last 30, and
/// those among all.
pub proof fn lemma_periods_nest(own: Seq<(i64, int)>, day: i64)
    requires
        tally::nonneg(own),
        day >= 0,
    ensures
        tally::sum_if(own, Window::On(day).rows::<i64>()) <= tally::sum_if(
            own,
            Window::From((day - 6) as i64).rows::<i64>(),
        ),
        tally::sum_if(own, Window::From((day - 6) as i64).rows::<i64>()) <= tally::sum_if(
            own,
            Window::From((day - 29) as i64).rows::<i64>(),
        ),
        tally::sum_if(own, Window::From((day - 29) as i64).rows::<i64>()) <= tally::total(own),
{
    let a = Window::On(day).rows::<i64>();
    let b = Window::From((day - 6) as i64).rows::<i64>();
    let c = Window::From((day - 29) as i64).rows::<i64>();
    tally::lemma_sum_mono(own, a, b);
    tally::lemma_sum_mono(own, b, c);
    tally::lemma_sum_mono(own, c, |v: i64| true);
}

proof fn lemma_counted_none(s: Seq<StatModel>, p: spec_fn(StatModel) -> bool)
    requires
        forall|i: int| 0 <= i < s.len() ==> !p(#[trigger] s[i]),
    ensures
        count_of(s, p) == 0,
    decreases s.len(),
{
    if s.len() > 0 {
        let t = s.drop_last();
        assert forall|i: int| 0 <= i < t.len() implies !p(#[trigger] t[i]) by {
            assert(t[i] == s[i]);
        }
        lemma_counted_none(t, p);
        assert(!p(s[s.len() - 1]));
    }
}

proof fn lemma_alias_of_some(s: Seq<StatModel>, name: Seq<char>)
    requires
        alias_names(s).contains(name),
    ensures
        exists|j: int| 0 <= j < s.len() && (#[trigger] s[j]).has_alias && s[j].name == name,
    decreases s.len(),
{
    if s.len() > 0 {
        let t = s.drop_last();
        let a = alias_names(s);
        let k = choose|k: int| 0 <= k < a.len() && a[k] == name;
        assert(s[s.len() - 1] == s.last());
        if k < alias_names(t).len() {
            assert(alias_names(t)[k] == name);
            lemma_alias_of_some(t, name);
            let j = choose|j: int| 0 <= j < t.len() && (#[trigger] t[j]).has_alias && t[j].name
                == name;
            assert(s[j] == t[j]);
        }
    }
}

/// A device without an alias is shown by its name, alone or with a number from 2 on behind
/// it; alone where no device has that name as its alias, none before it was found under it,
/// and none before it is shown by it. All else that is told of it stays.
pub proof fn lemma_shown_name(s: Seq<StatModel>, i: int)
    requires
        0 <= i < s.len(),
        !s[i].has_alias,
        s[i].name == s[i].auto_name,
    ensures
        ({
            let n = numbered(s)[i].name;
            &&& n == s[i].name || exists|k: nat| k >= 2 && n == s[i].name + " ("@
                + #[trigger] text::dec_nat(k) + ")"@
            &&& (forall|j: int|
                0 <= j < s.len() && j != i ==> (#[trigger] s[j]).name != s[i].name && s[j].auto_name
                    != s[i].name) && (forall|j: int|
                0 <= j < i ==> (#[trigger] numbered(s)[j]).name != s[i].name) ==> n == s[i].name
            &&& numbered(s)[i] == (StatModel { name: n, ..s[i] })
        }),
{
    let before = shown_names(s, i);
    let taken = alias_names(s) + before;
    let o = ordinal(s, i);
    let r = first_free(s[i].name, o, taken, taken.len());
    lemma_first_free_skips(s[i].name, o, taken, taken.len());
    assert(numbered(s)[i].name == label(s[i].name, r));
    if r >= 2 {
        assert(numbered(s)[i].name == s[i].name + " ("@ + text::dec_nat(r) + ")"@);
    }
    if (forall|j: int|
        0 <= j < s.len() && j != i ==> (#[trigger] s[j]).name != s[i].name && s[j].auto_name
            != s[i].name) && (forall|j: int|
        0 <= j < i ==> (#[trigger] numbered(s)[j]).name != s[i].name) {
        let t = s.take(i);
        assert forall|j: int| 0 <= j < s.len() implies !aliased_as(s[i].auto_name)(
            #[trigger] s[j],
        ) by {
            if j != i {
                assert(s[j].name != s[i].name);
            }
        }
        lemma_counted_none(s, aliased_as(s[i].auto_name));
        assert forall|j: int| 0 <= j < t.len() implies !found_as(s[i].auto_name)(
            #[trigger] t[j],
        ) by {
            assert(t[j] == s[j]);
            assert(s[j].auto_name != s[i].name);
        }
        lemma_counted_none(t, found_as(s[i].auto_name));
        assert(o == 1);
        if taken.contains(s[i].name) {
            let k = choose|k: int| 0 <= k < taken.len() && taken[k] == s[i].name;
            if k < alias_names(s).len() {
                assert(alias_names(s)[k] == s[i].name);
                lemma_alias_of_some(s, s[i].name);
                let j = choose|j: int|
                    0 <= j < s.len() && (#[trigger] s[j]).has_alias && s[j].name == s[i].name;
                assert(s[j].name != s[i].name);
            } else {
                let j = k - alias_names(s).len();
                if i > 0 {
                    lemma_shown_names(s, i, 0);
                    assert(before.len() == i);
                    lemma_shown_names(s, i, j);
                    assert(numbered(s)[j].name == shown(s, j));
                }
            }
        }
        assert(label(s[i].name, 1) == s[i].name);
    }
}

/// The kind that is registered for a device is that in the first of the files that know it.
pub proof fn lemma_registered_kind(st: StoreModel, years: Seq<i32>, key: Seq<char>, i: int)
    requires
        0 <= i < years.len(),
        store::registry_ok(store::tables_of(st, years[i]).devices),
        store::knows(store::tables_of(st, years[i]).devices, key),
        forall|j: int|
            0 <= j < i ==> !store::knows(store::tables_of(st, #[trigger] years[j]).devices, key),
    ensures
        kind_in(st, years, key) is Some,
        exists|k: int|
            0 <= k < store::tables_of(st, years[i]).devices.len() && (
            #[trigger] store::tables_of(st, years[i]).devices[k]).key == key && kind_in(
                st,
                years,
                key,
            ) == Some(store::tables_of(st, years[i]).devices[k].kind),
    decreases i,
{
    if i > 0 {
        let t = years.drop_first();
        assert(!store::knows(store::tables_of(st, years[0]).devices, key));
        assert(t[i - 1] == years[i]);
        assert forall|j: int| 0 <= j < i - 1 implies !store::knows(
            store::tables_of(st, #[trigger] t[j]).devices,
            key,
        ) by {
            assert(t[j] == years[j + 1]);
        }
        lemma_registered_kind(st, t, key, i - 1);
    } else {
        let r = store::tables_of(st, years[0]).devices;
        let k = choose|k: int| 0 <= k < r.len() && (#[trigger] r[k]).key == key;
        store::lemma_id_of(r, k);
        let d = device_with(r, r[k].id);
        let m = choose|m: int| 0 <= m < r.len() && (#[trigger] r[m]).id == r[k].id;
        assert(d == r[m]);
        if m < k {
            assert(r[m].id != r[k].id);
        }
        if k < m {
            assert(r[k].id != r[m].id);
        }
        assert(r[k].key == key);
    }
}

/// No file that knows a device: no kind is registered for it.
pub proof fn lemma_unregistered_kind(st: StoreModel, years: Seq<i32>, key: Seq<char>)
    requires
        forall|j: int|
            0 <= j < years.len() ==> !store::knows(
                store::tables_of(st, #[trigger] years[j]).devices,
                key,
            ),
    ensures
        kind_in(st, years, key) is None,
    decreases years.len(),
{
    if years.len() > 0 {
        let t = years.drop_first();
        assert(!store::knows(store::tables_of(st, years[0]).devices, key));
        assert forall|j: int| 0 <= j < t.len() implies !store::knows(
            store::tables_of(st, #[trigger] t[j]).devices,
            key,
        ) by {
            assert(t[j] == years[j + 1]);
        }
        lemma_unregistered_kind(st, t, key);
    }
}

/// The rank of a device is its place in the list of its period, counted from 1, and 0 where
/// it is not listed. Its rank among its kind is one more than the devices of that kind that
/// are listed before it. The list and the kind are told by how many they are.
pub proof fn lemma_detail_places(
    r: DeviceDetail,
    st: StoreModel,
    key: Seq<char>,
    period: i64,
    today: Date,
    aliases: Seq<(Seq<char>, Seq<char>)>,
    i: int,
)
    requires
        tells(r, st, key, period, today, aliases),
        ({
            let s = shown_devices(period_rows(st, period, today), aliases);
            0 <= i < s.len() && s[i].key == key && forall|j: int|
                0 <= j < i ==> (#[trigger] s[j]).key != key
        }),
    ensures
        ({
            let s = shown_devices(period_rows(st, period, today), aliases);
            &&& r.rank == i + 1
            &&& r.name@ == s[i].name && r.auto_name@ == s[i].auto_name && r.kind@ == s[i].kind
                && r.has_alias == s[i].has_alias
            &&& r.kind_rank == 1 + count_of(s.take(i), |x: StatModel| x.kind == r.kind@)
            &&& r.kind_count == count_of(s, |x: StatModel| x.kind == r.kind@)
            &&& r.device_count == s.len()
        }),
{
    let s = shown_devices(period_rows(st, period, today), aliases);
    lemma_place_is(s, key, 0, i);
    let p = |x: StatModel| x.kind == r.kind@;
    lemma_same_count(s, of_kind(r.kind@), p);
    lemma_same_count(s.take(i), of_kind(r.kind@), p);
}

proof fn lemma_place_is(s: Seq<StatModel>, key: Seq<char>, from: int, i: int)
    requires
        0 <= from <= i < s.len(),
        s[i].key == key,
        forall|j: int| from <= j < i ==> (#[trigger] s[j]).key != key,
    ensures
        place_of(s, key, from) == i,
    decreases i - from,
{
    if from < i {
        assert(s[from].key != key);
        lemma_place_is(s, key, from + 1, i);
    }
}

proof fn lemma_same_count(
    s: Seq<StatModel>,
    p: spec_fn(StatModel) -> bool,
    q: spec_fn(StatModel) -> bool,
)
    requires
        forall|x: StatModel| #[trigger] p(x) == q(x),
    ensures
        count_of(s, p) == count_of(s, q),
    decreases s.len(),
{
    if s.len() > 0 {
        lemma_same_count(s.drop_last(), p, q);
        assert(p(s.last()) == q(s.last()));
    }
}

/// Devices that were used as often are listed by name.
pub proof fn lemma_ties_by_name(
    rows: Seq<RowModel>,
    aliases: Seq<(Seq<char>, Seq<char>)>,
    i: int,
    j: int,
)
    requires
        0 <= i < j < shown_devices(rows, aliases).len(),
    ensures
        ({
            let r = order::ranked(
                stats_of(merged(rows), aliases),
                order::by_rank::<DeviceStat>(),
            );
            &&& shown_devices(rows, aliases) == numbered(r)
            &&& r[i].count == r[j].count ==> text::lex_le(r[i].name, r[j].name)
        }),
{
    let s = stats_of(merged(rows), aliases);
    let ahead = order::by_rank::<DeviceStat>();
    let r = order::ranked(s, ahead);
    lemma_stat_rank();
    order::lemma_ranked_in_order(s, ahead);
    assert(!ahead(r[j], r[i]));
}

/// A device goes by the name that it was registered with, without the blanks around it; by
/// one made from its key where that name is missing, blank or the key itself. An alias is
/// shown in its place, and a device of no kind is of an unknown one.
pub proof fn lemma_found_name(
    r: RowModel,
    aliases: Seq<(Seq<char>, Seq<char>)>,
    name: Seq<char>,
    kind: Seq<char>,
)
    ensures
        ({
            let x = stat_of(r, aliases);
            let alias = device_alias::resolved(aliases, r.key);
            &&& r.name == Some(name) && text::trimmed(name) != ""@ && text::trimmed(name) != r.key
                ==> x.auto_name == text::trimmed(name)
            &&& r.name is None || (r.name == Some(name) && (text::trimmed(name) == ""@
                || text::trimmed(name) == r.key)) ==> x.auto_name == hardware::fallback_name(r.key)
            &&& alias is None ==> x.name == x.auto_name && !x.has_alias
            &&& alias is Some ==> x.name == alias->0 && x.has_alias
            &&& r.kind == Some(kind) ==> x.kind == kind
            &&& r.kind is None ==> x.kind == "unknown"@
            &&& x.key == r.key && x.count == r.count
        }),
{
    reveal_strlit("");
    if text::trimmed(name).len() == 0 {
        assert(text::trimmed(name) =~= ""@);
    }
}

/// The number behind the name of a device without an alias is above the devices that have
/// that name as their alias and those before it that were found under it; a higher one is
/// shown only where all between are borne by an alias or a device before it.
pub proof fn lemma_shown_number(s: Seq<StatModel>, i: int) -> (k: nat)
    requires
        0 <= i < s.len(),
        !s[i].has_alias,
        s[i].name == s[i].auto_name,
    ensures
        ({
            let n = s[i].name;
            let others = count_of(s, |x: StatModel| x.has_alias && x.name == n) + count_of(
                s.take(i),
                |x: StatModel| !x.has_alias && x.auto_name == n,
            );
            &&& k > others
            &&& k == 1 ==> numbered(s)[i].name == n
            &&& k >= 2 ==> numbered(s)[i].name == n + " ("@ + text::dec_nat(k) + ")"@
            &&& forall|m: nat|
                others < m < k && m >= 2 ==> (exists|j: int|
                    0 <= j < s.len() && (j < i || s[j].has_alias) && (
                    #[trigger] numbered(s)[j]).name == n + " ("@ + #[trigger] text::dec_nat(m)
                        + ")"@)
        }),
{
    let n = s[i].name;
    let before = shown_names(s, i);
    let taken = alias_names(s) + before;
    let o = ordinal(s, i);
    let k = first_free(n, o, taken, taken.len());
    lemma_first_free_skips(n, o, taken, taken.len());
    let p = |x: StatModel| x.has_alias && x.name == n;
    let q = |x: StatModel| !x.has_alias && x.auto_name == n;
    lemma_same_count(s, aliased_as(n), p);
    lemma_same_count(s.take(i), found_as(n), q);
    assert(numbered(s)[i].name == label(n, k));
    assert forall|m: nat| o <= m < k && m >= 2 implies (exists|j: int|
        0 <= j < s.len() && (j < i || s[j].has_alias) && (#[trigger] numbered(s)[j]).name == n
            + " ("@ + #[trigger] text::dec_nat(m) + ")"@) by {
        let l = label(n, m);
        assert(taken.contains(l));
        let a = choose|a: int| 0 <= a < taken.len() && taken[a] == l;
        if a < alias_names(s).len() {
            assert(alias_names(s)[a] == l);
            lemma_alias_of_some(s, l);
            let j = choose|j: int| 0 <= j < s.len() && (#[trigger] s[j]).has_alias && s[j].name == l;
            assert(numbered(s)[j].name == l);
        } else {
            let j = a - alias_names(s).len();
            if i > 0 {
                lemma_shown_names(s, i, 0);
                assert(before.len() == i);
                lemma_shown_names(s, i, j);
                assert(numbered(s)[j].name == l);
            }
        }
    }
    k
}

/// A device that the list of its period lacks is told by its alias, else by the name that
/// its key gives, and by the kind that is registered for it in any file.
pub proof fn lemma_detail_of_unlisted(
    r: DeviceDetail,
    st: StoreModel,
    key: Seq<char>,
    period: i64,
    today: Date,
    aliases: Seq<(Seq<char>, Seq<char>)>,
    kind: Seq<char>,
)
    requires
        tells(r, st, key, period, today, aliases),
        ({
            let s = shown_devices(period_rows(st, period, today), aliases);
            forall|j: int| 0 <= j < s.len() ==> (#[trigger] s[j]).key != key
        }),
    ensures
        r.rank == 0,
        r.kind_rank == 0,
        r.auto_name@ == hardware::fallback_name(key),
        device_alias::resolved(aliases, key) is None ==> r.name@ == r.auto_name@ && !r.has_alias,
        device_alias::resolved(aliases, key) is Some ==> Some(r.name@) == device_alias::resolved(
            aliases,
            key,
        ) && r.has_alias,
        kind_in(st, queries::available(st), key) == Some(kind) ==> r.kind@ == kind,
        kind_in(st, queries::available(st), key) is None ==> r.kind@ == "unknown"@,
{
    lemma_place_of(shown_devices(period_rows(st, period, today), aliases), key, 0);
}

} // verus!
