//! What the listings and the summaries of the ledger say of its entries.
use vstd::prelude::*;

use crate::accounting;
use crate::accounting::{CategoryModel, ExpenseModel, GroupModel, LedgerModel};
use crate::calendar;
use crate::calendar::Date;
use crate::order;
use crate::text;

verus! {

// -------------------------------------------------------------------------------- sums

/// The cents of the entries of one type for which `p` holds.
pub open spec fn summed(
    s: Seq<ExpenseModel>,
    rtype: Seq<char>,
    p: spec_fn(ExpenseModel) -> bool,
) -> int
    decreases s.len(),
{
    if s.len() == 0 {
        0
    } else {
        let e = s.last();
        summed(s.drop_last(), rtype, p) + (if e.rtype == rtype && p(e) {
            e.amount.cents as int
        } else {
            0
        })
    }
}

/// How many entries there are for which `p` holds.
pub open spec fn how_many(s: Seq<ExpenseModel>, p: spec_fn(ExpenseModel) -> bool) -> int
    decreases s.len(),
{
    if s.len() == 0 {
        0
    } else {
        how_many(s.drop_last(), p) + (if p(s.last()) {
            1int
        } else {
            0
        })
    }
}

/// Whether a row sums up the entries for which `p` holds.
pub open spec fn sums_up(
    g: GroupModel,
    s: Seq<ExpenseModel>,
    p: spec_fn(ExpenseModel) -> bool,
) -> bool {
    &&& g.spent == summed(s, "支出"@, p)
    &&& g.earned == summed(s, "收入"@, p)
    &&& g.net == summed(s, "收入"@, p) - summed(s, "支出"@, p)
    &&& g.count == how_many(s, p)
}

/// The entries of a month, or all of them.
pub open spec fn in_time(e: ExpenseModel, month: Option<Seq<char>>) -> bool {
    match month {
        Some(m) => accounting::in_month(e.purchase_date, m),
        None => true,
    }
}

/// The entries of a month.
pub open spec fn of_month(month: Option<Seq<char>>) -> spec_fn(ExpenseModel) -> bool {
    |e: ExpenseModel| in_time(e, month)
}

/// The entries of a month and a category.
pub open spec fn of_category(month: Option<Seq<char>>, c: Seq<char>) -> spec_fn(
    ExpenseModel,
) -> bool {
    |e: ExpenseModel| in_time(e, month) && e.category == Some(c)
}

/// The entries of a month without a category, or with one that is empty or has the name that
/// stands for that.
pub open spec fn of_no_category(month: Option<Seq<char>>) -> spec_fn(ExpenseModel) -> bool {
    |e: ExpenseModel|
        in_time(e, month) && (e.category is None || e.category->0.len() == 0 || e.category == Some(
            "(未分类)"@,
        ))
}

/// The entries of a category and a subcategory.
pub open spec fn of_subcategory(c: Seq<char>, n: Seq<char>) -> spec_fn(ExpenseModel) -> bool {
    |e: ExpenseModel| e.category == Some(c) && e.subcategory == Some(n)
}

/// The entries of a category without a subcategory, or with one that is empty or has the name
/// that stands for that.
pub open spec fn of_no_subcategory(c: Seq<char>) -> spec_fn(ExpenseModel) -> bool {
    |e: ExpenseModel|
        e.category == Some(c) && (e.subcategory is None || e.subcategory->0.len() == 0
            || e.subcategory == Some("(未分细类)"@))
}

spec fn of_label(by_sub: bool, name: Seq<char>) -> spec_fn(ExpenseModel) -> bool {
    |e: ExpenseModel| accounting::label(e, by_sub) == name
}

spec fn both(
    p: spec_fn(ExpenseModel) -> bool,
    q: spec_fn(ExpenseModel) -> bool,
) -> spec_fn(ExpenseModel) -> bool {
    |e: ExpenseModel| p(e) && q(e)
}

/// Whether a row of a name is listed.
pub open spec fn listed(rows: Seq<GroupModel>, name: Seq<char>) -> bool {
    exists|k: int| 0 <= k < rows.len() && (#[trigger] rows[k]).name == name
}

proof fn lemma_same_entries(
    s: Seq<ExpenseModel>,
    rtype: Seq<char>,
    p: spec_fn(ExpenseModel) -> bool,
    q: spec_fn(ExpenseModel) -> bool,
)
    requires
        forall|e: ExpenseModel| #[trigger] p(e) == q(e),
    ensures
        summed(s, rtype, p) == summed(s, rtype, q),
        how_many(s, p) == how_many(s, q),
    decreases s.len(),
{
    if s.len() > 0 {
        lemma_same_entries(s.drop_last(), rtype, p, q);
        assert(p(s.last()) == q(s.last()));
    }
}

proof fn lemma_picked_sums(
    s: Seq<ExpenseModel>,
    keep: spec_fn(ExpenseModel) -> bool,
    rtype: Seq<char>,
    p: spec_fn(ExpenseModel) -> bool,
)
    ensures
        summed(accounting::picked(s, keep), rtype, p) == summed(s, rtype, both(keep, p)),
        how_many(accounting::picked(s, keep), p) == how_many(s, both(keep, p)),
        accounting::picked(s, keep).len() == how_many(s, keep),
    decreases s.len(),
{
    if s.len() > 0 {
        let t = s.drop_last();
        let e = s.last();
        let r = accounting::picked(t, keep);
        lemma_picked_sums(t, keep, rtype, p);
        assert(both(keep, p)(e) == (keep(e) && p(e)));
        if keep(e) {
            assert(r.push(e).drop_last() =~= r);
            assert(r.push(e).last() == e);
        }
    }
}

proof fn lemma_totals(s: Seq<ExpenseModel>, keep: spec_fn(ExpenseModel) -> bool)
    ensures
        accounting::total_spent(accounting::picked(s, keep)) == summed(s, "支出"@, keep),
        accounting::total_earned(accounting::picked(s, keep)) == summed(s, "收入"@, keep),
    decreases s.len(),
{
    if s.len() > 0 {
        let t = s.drop_last();
        let e = s.last();
        let r = accounting::picked(t, keep);
        lemma_totals(t, keep);
        if keep(e) {
            assert(r.push(e).drop_last() =~= r);
            assert(r.push(e).last() == e);
        }
    }
}

proof fn lemma_how_many(s: Seq<ExpenseModel>, p: spec_fn(ExpenseModel) -> bool)
    ensures
        how_many(s, p) >= 0,
        how_many(s, p) > 0 <==> exists|i: int| 0 <= i < s.len() && p(#[trigger] s[i]),
    decreases s.len(),
{
    if s.len() > 0 {
        let t = s.drop_last();
        lemma_how_many(t, p);
        assert(s.last() == s[s.len() - 1]);
        if how_many(t, p) > 0 {
            let i = choose|i: int| 0 <= i < t.len() && p(#[trigger] t[i]);
            assert(p(s[i]));
        }
        if exists|i: int| 0 <= i < s.len() && p(#[trigger] s[i]) {
            let i = choose|i: int| 0 <= i < s.len() && p(#[trigger] s[i]);
            if i < t.len() {
                assert(p(t[i]));
            }
        }
    }
}

proof fn lemma_group_sums(s: Seq<ExpenseModel>, by_sub: bool, name: Seq<char>)
    ensures
        ({
            let g = accounting::groups(s, by_sub);
            let p = of_label(by_sub, name);
            &&& listed(g, name) <==> how_many(s, p) > 0
            &&& forall|k: int|
                0 <= k < g.len() && (#[trigger] g[k]).name == name ==> sums_up(g[k], s, p)
            &&& how_many(s, p) == 0 ==> summed(s, "支出"@, p) == 0 && summed(s, "收入"@, p) == 0
            &&& how_many(s, p) >= 0
        }),
    decreases s.len(),
{
    let g = accounting::groups(s, by_sub);
    let p = of_label(by_sub, name);
    if s.len() > 0 {
        let t = s.drop_last();
        let r = accounting::groups(t, by_sub);
        let e = s.last();
        let l = accounting::label(e, by_sub);
        let k0 = accounting::group_at(r, l, 0);
        lemma_group_sums(t, by_sub, name);
        accounting::lemma_groups_add_up(s, by_sub);
        accounting::lemma_group_at(r, l, 0);
        accounting::lemma_types_differ();
        assert(p(e) == (l == name));
        if k0 < r.len() {
            assert(g[k0].name == l);
            assert forall|k: int| 0 <= k < g.len() && k != k0 implies (#[trigger] g[k]) == r[k]
                && g[k].name != l by {
                if k < k0 {
                    assert(g[k].name != g[k0].name);
                } else {
                    assert(g[k0].name != g[k].name);
                }
            }
        } else {
            assert(g[k0].name == l);
            assert forall|k: int| 0 <= k < r.len() implies (#[trigger] g[k]) == r[k] && r[k].name
                != l by {
                assert(r[k].name != l);
            }
        }
        assert forall|k: int| 0 <= k < g.len() && (#[trigger] g[k]).name == name implies sums_up(
            g[k],
            s,
            p,
        ) by {
            if k < r.len() {
                assert(r[k].name == name);
                assert(sums_up(r[k], t, p));
            } else {
                assert(!listed(r, name));
            }
        }
        if listed(r, name) {
            let k = choose|k: int| 0 <= k < r.len() && (#[trigger] r[k]).name == name;
            assert(g[k].name == name);
        }
        if listed(g, name) {
            let k = choose|k: int| 0 <= k < g.len() && (#[trigger] g[k]).name == name;
            if k < r.len() {
                assert(r[k].name == name);
            }
        }
    }
}

proof fn lemma_better_ranks()
    ensures
        order::ranks(|a: GroupModel, b: GroupModel| accounting::better(a, b)),
{
    let ahead = |a: GroupModel, b: GroupModel| accounting::better(a, b);
    assert forall|a: GroupModel, b: GroupModel| #[trigger] ahead(a, b) implies !ahead(b, a) by {
        text::lemma_lex_total(a.name, b.name);
    }
    assert forall|a: GroupModel, b: GroupModel, c: GroupModel|
        !(#[trigger] ahead(a, b)) && !(#[trigger] ahead(b, c)) implies !ahead(a, c) by {
        if a.net == b.net && b.net == c.net {
            text::lemma_lex_trans(c.name, b.name, a.name);
        }
    }
}

proof fn lemma_rows_ranked(g: Seq<GroupModel>, name: Seq<char>)
    ensures
        ({
            let rows = accounting::profit_order(g);
            &&& rows.len() == g.len()
            &&& listed(rows, name) <==> listed(g, name)
            &&& forall|k: int| 0 <= k < rows.len() ==> g.contains(#[trigger] rows[k])
            &&& forall|i: int, j: int|
                0 <= i < j < rows.len() ==> (#[trigger] rows[i]).net > (#[trigger] rows[j]).net || (
                rows[i].net == rows[j].net && text::lex_le(rows[i].name, rows[j].name))
        }),
{
    let ahead = |a: GroupModel, b: GroupModel| accounting::better(a, b);
    let rows = accounting::profit_order(g);
    lemma_better_ranks();
    order::lemma_ranked_keeps(g, ahead);
    order::lemma_ranked_in_order(g, ahead);
    broadcast use vstd::seq_lib::group_to_multiset_ensures;

    assert forall|k: int| 0 <= k < rows.len() implies g.contains(#[trigger] rows[k]) by {
        assert(rows.contains(rows[k]));
        assert(rows.to_multiset().count(rows[k]) > 0);
        assert(g.to_multiset().count(rows[k]) > 0);
    }
    if listed(rows, name) {
        let k = choose|k: int| 0 <= k < rows.len() && (#[trigger] rows[k]).name == name;
        let n = choose|n: int| 0 <= n < g.len() && g[n] == rows[k];
        assert(g[n].name == name);
    }
    if listed(g, name) {
        let k = choose|k: int| 0 <= k < g.len() && (#[trigger] g[k]).name == name;
        assert(g.contains(g[k]));
        assert(g.to_multiset().count(g[k]) > 0);
        assert(rows.to_multiset().count(g[k]) > 0);
        assert(rows.contains(g[k]));
        let n = choose|n: int| 0 <= n < rows.len() && rows[n] == g[k];
        assert(rows[n].name == name);
    }
    assert forall|i: int, j: int| 0 <= i < j < rows.len() implies (#[trigger] rows[i]).net > (
    #[trigger] rows[j]).net || (rows[i].net == rows[j].net && text::lex_le(
        rows[i].name,
        rows[j].name,
    )) by {
        assert(!ahead(rows[j], rows[i]));
    }
}

proof fn lemma_rows(
    s: Seq<ExpenseModel>,
    category: Option<Seq<char>>,
    month: Option<Seq<char>>,
    by_sub: bool,
    name: Seq<char>,
    p: spec_fn(ExpenseModel) -> bool,
)
    requires
        forall|e: ExpenseModel| #[trigger]
            p(e) <==> accounting::about(e, category, month) && accounting::label(e, by_sub) == name,
    ensures
        ({
            let rows = accounting::profit_order(
                accounting::groups(accounting::entries_of(s, category, month), by_sub),
            );
            &&& listed(rows, name) <==> exists|i: int| 0 <= i < s.len() && p(#[trigger] s[i])
            &&& forall|k: int|
                0 <= k < rows.len() && (#[trigger] rows[k]).name == name ==> sums_up(rows[k], s, p)
        }),
{
    let keep = |e: ExpenseModel| accounting::about(e, category, month);
    let all = accounting::picked(s, keep);
    let g = accounting::groups(all, by_sub);
    let rows = accounting::profit_order(g);
    let q = of_label(by_sub, name);
    let b = both(keep, q);
    lemma_group_sums(all, by_sub, name);
    lemma_rows_ranked(g, name);
    assert forall|e: ExpenseModel| #[trigger] b(e) == p(e) by {}
    lemma_picked_sums(s, keep, "支出"@, q);
    lemma_picked_sums(s, keep, "收入"@, q);
    lemma_same_entries(s, "支出"@, b, p);
    lemma_same_entries(s, "收入"@, b, p);
    lemma_how_many(s, p);
    assert forall|k: int| 0 <= k < rows.len() && (#[trigger] rows[k]).name == name implies sums_up(
        rows[k],
        s,
        p,
    ) by {
        let n = choose|n: int| 0 <= n < g.len() && g[n] == rows[k];
        assert(g[n].name == name);
        assert(sums_up(g[n], all, q));
    }
}

/// The row of a category sums up the entries of that category, whatever their type, and no
/// others: what they spend, what they earn, the difference, and how many there are. It is
/// listed exactly where there is such an entry. This holds of the rows for all time and of
/// those for a month.
pub proof fn lemma_category_rows(s: Seq<ExpenseModel>, month: Option<Seq<char>>, c: Seq<char>)
    requires
        c.len() > 0,
        c != "(未分类)"@,
    ensures
        ({
            let rows = accounting::profit_order(
                accounting::groups(accounting::entries_of(s, None, month), false),
            );
            &&& listed(rows, c) <==> exists|i: int|
                0 <= i < s.len() && of_category(month, c)(#[trigger] s[i])
            &&& forall|k: int|
                0 <= k < rows.len() && (#[trigger] rows[k]).name == c ==> sums_up(
                    rows[k],
                    s,
                    of_category(month, c),
                )
        }),
{
    lemma_rows(s, None, month, false, c, of_category(month, c));
}

/// The row that stands for no category sums up the entries without a category or with an
/// empty one, and those of a category of its name; no others.
pub proof fn lemma_uncategorised_row(s: Seq<ExpenseModel>, month: Option<Seq<char>>)
    ensures
        ({
            let rows = accounting::profit_order(
                accounting::groups(accounting::entries_of(s, None, month), false),
            );
            &&& listed(rows, "(未分类)"@) <==> exists|i: int|
                0 <= i < s.len() && of_no_category(month)(#[trigger] s[i])
            &&& forall|k: int|
                0 <= k < rows.len() && (#[trigger] rows[k]).name == "(未分类)"@ ==> sums_up(
                    rows[k],
                    s,
                    of_no_category(month),
                )
        }),
{
    reveal_strlit("(未分类)");
    lemma_rows(s, None, month, false, "(未分类)"@, of_no_category(month));
}

/// The row of a subcategory sums up the entries of that category and that subcategory,
/// whatever their type, and no others.
pub proof fn lemma_subcategory_rows(s: Seq<ExpenseModel>, c: Seq<char>, n: Seq<char>)
    requires
        n.len() > 0,
        n != "(未分细类)"@,
    ensures
        ({
            let rows = accounting::profit_order(
                accounting::groups(accounting::entries_of(s, Some(c), None), true),
            );
            &&& listed(rows, n) <==> exists|i: int|
                0 <= i < s.len() && of_subcategory(c, n)(#[trigger] s[i])
            &&& forall|k: int|
                0 <= k < rows.len() && (#[trigger] rows[k]).name == n ==> sums_up(
                    rows[k],
                    s,
                    of_subcategory(c, n),
                )
        }),
{
    lemma_rows(s, Some(c), None, true, n, of_subcategory(c, n));
}

/// The row that stands for no subcategory sums up the entries of the category without a
/// subcategory or with an empty one, and those of a subcategory of its name; no others.
pub proof fn lemma_unsubcategorised_row(s: Seq<ExpenseModel>, c: Seq<char>)
    ensures
        ({
            let rows = accounting::profit_order(
                accounting::groups(accounting::entries_of(s, Some(c), None), true),
            );
            &&& listed(rows, "(未分细类)"@) <==> exists|i: int|
                0 <= i < s.len() && of_no_subcategory(c)(#[trigger] s[i])
            &&& forall|k: int|
                0 <= k < rows.len() && (#[trigger] rows[k]).name == "(未分细类)"@ ==> sums_up(
                    rows[k],
                    s,
                    of_no_subcategory(c),
                )
        }),
{
    reveal_strlit("(未分细类)");
    lemma_rows(s, Some(c), None, true, "(未分细类)"@, of_no_subcategory(c));
}

/// Rows with a higher yield come first, and those with the same yield by name; no name is
/// empty and none has two rows.
pub proof fn lemma_rows_in_order(s: Seq<ExpenseModel>, by_sub: bool, i: int, j: int)
    requires
        0 <= i < j < accounting::profit_order(accounting::groups(s, by_sub)).len(),
    ensures
        ({
            let rows = accounting::profit_order(accounting::groups(s, by_sub));
            &&& rows[i].name.len() > 0 && rows[j].name.len() > 0
            &&& rows[i].name != rows[j].name
            &&& rows[i].net > rows[j].net || (rows[i].net == rows[j].net && text::lex_le(
                rows[i].name,
                rows[j].name,
            ))
        }),
{
    let g = accounting::groups(s, by_sub);
    let rows = accounting::profit_order(g);
    let ahead = |a: GroupModel, b: GroupModel| accounting::better(a, b);
    accounting::lemma_groups_add_up(s, by_sub);
    lemma_rows_ranked(g, rows[i].name);
    order::lemma_ranked_keeps(g, ahead);
    let a = choose|n: int| 0 <= n < g.len() && g[n] == rows[i];
    let b = choose|n: int| 0 <= n < g.len() && g[n] == rows[j];
    assert(g.contains(rows[i]) && g.contains(rows[j]));
    if rows[i].name == rows[j].name {
        if a < b {
            assert(g[a].name != g[b].name);
        }
        if b < a {
            assert(g[b].name != g[a].name);
        }
        assert(rows[i] == rows[j]);
        lemma_twice(rows, i, j);
        assert(g.no_duplicates()) by {
            assert forall|x: int, y: int| 0 <= x < g.len() && 0 <= y < g.len() && x != y implies g[x]
                != g[y] by {
                if x < y {
                    assert(g[x].name != g[y].name);
                } else {
                    assert(g[y].name != g[x].name);
                }
            }
        }
        g.lemma_multiset_has_no_duplicates();
        assert(g.to_multiset().contains(rows[i])) by {
            broadcast use vstd::seq_lib::group_to_multiset_ensures;

        }
    }
}

proof fn lemma_twice<T>(s: Seq<T>, i: int, j: int)
    requires
        0 <= i < j < s.len(),
        s[i] == s[j],
    ensures
        s.to_multiset().count(s[i]) >= 2,
{
    broadcast use vstd::seq_lib::group_to_multiset_ensures;

    let a = s.remove(j);
    assert(s.to_multiset().remove(s[j]) =~= a.to_multiset());
    assert(a[i] == s[i]);
    assert(a.contains(s[i]));
    assert(a.to_multiset().count(s[i]) > 0);
    assert(s.contains(s[j]));
}

/// The sums of a month are those of its entries: what is spent is the sum of what goes out,
/// what is earned that of what comes in.
pub proof fn lemma_month_sums(s: Seq<ExpenseModel>, month: Seq<char>)
    ensures
        ({
            let all = accounting::entries_of(s, None, Some(month));
            &&& accounting::total_spent(all) == summed(s, "支出"@, of_month(Some(month)))
            &&& accounting::total_earned(all) == summed(s, "收入"@, of_month(Some(month)))
            &&& all.len() == how_many(s, of_month(Some(month)))
        }),
{
    let keep = |e: ExpenseModel| accounting::about(e, None, Some(month));
    let p = of_month(Some(month));
    lemma_totals(s, keep);
    lemma_picked_sums(s, keep, "支出"@, keep);
    assert forall|e: ExpenseModel| #[trigger] keep(e) == p(e) by {}
    lemma_same_entries(s, "支出"@, keep, p);
    lemma_same_entries(s, "收入"@, keep, p);
}

proof fn lemma_like_rest(p: Seq<char>, t: Seq<char>, j: int)
    requires
        p.len() > 0,
        p.last() == '%',
        0 <= j <= t.len(),
    ensures
        accounting::like(p, p.len() - 1, t, j),
    decreases t.len() - j,
{
    reveal_with_fuel(accounting::like, 3);
    if j < t.len() {
        lemma_like_rest(p, t, j + 1);
    }
}

proof fn lemma_like_prefix(m: Seq<char>, t: Seq<char>, i: int)
    requires
        0 <= i <= m.len(),
        i <= t.len(),
        !m.contains('%') && !m.contains('_'),
    ensures
        accounting::like(m + "%"@, i, t, i) <==> (m.len() <= t.len() && forall|k: int|
            i <= k < m.len() ==> text::lower(#[trigger] m[k]) == text::lower(t[k])),
    decreases m.len() - i,
{
    reveal_strlit("%");
    let p = m + "%"@;
    if i == m.len() {
        lemma_like_rest(p, t, i);
    } else {
        assert(p[i] == m[i]);
        assert(m.contains(m[i]));
        if i < t.len() {
            lemma_like_prefix(m, t, i + 1);
        }
    }
}

/// A date belongs to the month that it begins with, whatever the case of letters, and to no
/// other of a plain text.
pub proof fn lemma_month_is_prefix(date: Seq<char>, month: Seq<char>)
    requires
        !month.contains('%') && !month.contains('_'),
    ensures
        accounting::in_month(date, month) <==> (month.len() <= date.len() && forall|k: int|
            0 <= k < month.len() ==> text::lower(#[trigger] month[k]) == text::lower(date[k])),
{
    lemma_like_prefix(month, date, 0);
}

// ---------------------------------------------------------------------------- listings

/// Whether `key` stands somewhere in `t`, whatever the case of ASCII letters.
pub open spec fn holds_text(t: Seq<char>, key: Seq<char>) -> bool {
    exists|k: int| #[trigger] text::occurs_at(text::lowered(t), text::lowered(key), k) && k >= 0
}

/// Whether an entry is asked for: a filter that is given and not empty must fit it. The
/// keyword may stand in the item, the category, the subcategory, the store or the note.
pub open spec fn asked_for(
    e: ExpenseModel,
    category: Option<Seq<char>>,
    subcategory: Option<Seq<char>>,
    keyword: Option<Seq<char>>,
    date_from: Option<Seq<char>>,
    date_to: Option<Seq<char>>,
) -> bool {
    &&& category matches Some(c) ==> c.len() == 0 || e.category == Some(c)
    &&& subcategory matches Some(c) ==> c.len() == 0 || e.subcategory == Some(c)
    &&& keyword matches Some(k) ==> {
        ||| k.len() == 0
        ||| holds_text(e.item_name, k)
        ||| e.category is Some && holds_text(e.category->0, k)
        ||| e.subcategory is Some && holds_text(e.subcategory->0, k)
        ||| e.store is Some && holds_text(e.store->0, k)
        ||| e.note is Some && holds_text(e.note->0, k)
    }
    &&& date_from matches Some(d) ==> d.len() == 0 || text::lex_le(d, e.purchase_date)
    &&& date_to matches Some(d) ==> d.len() == 0 || text::lex_le(e.purchase_date, d)
}

proof fn lemma_holds_text(t: Seq<char>, key: Seq<char>)
    ensures
        accounting::mentions(t, key) == holds_text(t, key),
{
    let a = text::lowered(t);
    let b = text::lowered(key);
    text::lemma_find_from(a, b, 0);
    let k = text::find_from(a, b, 0);
    if k >= 0 {
        assert(text::occurs_at(a, b, k));
    }
    if holds_text(t, key) {
        let j = choose|j: int| #[trigger] text::occurs_at(a, b, j) && j >= 0;
        assert(k != -1);
    }
}

proof fn lemma_picked_entries(
    s: Seq<ExpenseModel>,
    keep: spec_fn(ExpenseModel) -> bool,
    e: ExpenseModel,
)
    ensures
        accounting::picked(s, keep).contains(e) <==> s.contains(e) && keep(e),
    decreases s.len(),
{
    if s.len() > 0 {
        let t = s.drop_last();
        let r = accounting::picked(t, keep);
        let p = accounting::picked(s, keep);
        lemma_picked_entries(t, keep, e);
        assert(s[s.len() - 1] == s.last());
        if t.contains(e) {
            let i = choose|i: int| 0 <= i < t.len() && t[i] == e;
            assert(s[i] == e);
        }
        if s.contains(e) {
            let i = choose|i: int| 0 <= i < s.len() && s[i] == e;
            if i < t.len() {
                assert(t[i] == e);
            }
        }
        if r.contains(e) {
            let i = choose|i: int| 0 <= i < r.len() && r[i] == e;
            assert(p[i] == e);
        }
        if keep(s.last()) {
            assert(p[p.len() - 1] == s.last());
        }
        if p.contains(e) {
            let i = choose|i: int| 0 <= i < p.len() && p[i] == e;
            if i < r.len() {
                assert(r[i] == e);
            }
        }
    }
}

proof fn lemma_ranked_holds<T>(s: Seq<T>, ahead: spec_fn(T, T) -> bool, e: T)
    ensures
        order::ranked(s, ahead).contains(e) <==> s.contains(e),
        order::ranked(s, ahead).len() == s.len(),
{
    order::lemma_ranked_keeps(s, ahead);
    broadcast use vstd::seq_lib::group_to_multiset_ensures;

    let r = order::ranked(s, ahead);
    assert(r.contains(e) <==> r.to_multiset().count(e) > 0);
    assert(s.contains(e) <==> s.to_multiset().count(e) > 0);
}

proof fn lemma_later_date_ranks()
    ensures
        order::ranks(|a: ExpenseModel, b: ExpenseModel| accounting::later_date(a, b)),
{
    let ahead = |a: ExpenseModel, b: ExpenseModel| accounting::later_date(a, b);
    assert forall|a: ExpenseModel, b: ExpenseModel| #[trigger] ahead(a, b) implies !ahead(b, a) by {
        text::lemma_lex_total(a.purchase_date, b.purchase_date);
    }
    assert forall|a: ExpenseModel, b: ExpenseModel, c: ExpenseModel|
        !(#[trigger] ahead(a, b)) && !(#[trigger] ahead(b, c)) implies !ahead(a, c) by {
        text::lemma_lex_total(a.purchase_date, b.purchase_date);
        text::lemma_lex_total(b.purchase_date, c.purchase_date);
        text::lemma_lex_total(a.purchase_date, c.purchase_date);
        assert(text::lex_le(a.purchase_date, b.purchase_date));
        assert(text::lex_le(b.purchase_date, c.purchase_date));
        text::lemma_lex_trans(a.purchase_date, b.purchase_date, c.purchase_date);
    }
}

/// The entries of a listing are those that are asked for, with the latest date first, and
/// among those of one date the one that came in last. How many there are does not depend
/// on the page.
pub proof fn lemma_listing(
    s: Seq<ExpenseModel>,
    category: Option<Seq<char>>,
    subcategory: Option<Seq<char>>,
    keyword: Option<Seq<char>>,
    date_from: Option<Seq<char>>,
    date_to: Option<Seq<char>>,
    e: ExpenseModel,
    i: int,
    j: int,
)
    ensures
        ({
            let all = accounting::picked(
                s,
                |x: ExpenseModel|
                    accounting::passes(x, category, subcategory, keyword, date_from, date_to),
            );
            let list = accounting::latest_first(all);
            &&& list.len() == all.len()
            &&& all.len() == how_many(
                s,
                |x: ExpenseModel|
                    asked_for(x, category, subcategory, keyword, date_from, date_to),
            )
            &&& list.contains(e) <==> s.contains(e) && asked_for(
                e,
                category,
                subcategory,
                keyword,
                date_from,
                date_to,
            )
            &&& 0 <= i < j < list.len() ==> {
                let a = list[i];
                let b = list[j];
                &&& text::lex_le(b.purchase_date, a.purchase_date)
                &&& a.purchase_date == b.purchase_date ==> a.id >= b.id
            }
        }),
{
    let keep = |x: ExpenseModel|
        accounting::passes(x, category, subcategory, keyword, date_from, date_to);
    let want = |x: ExpenseModel|
        asked_for(x, category, subcategory, keyword, date_from, date_to);
    let all = accounting::picked(s, keep);
    let ahead = |a: ExpenseModel, b: ExpenseModel| accounting::later_date(a, b);
    let list = accounting::latest_first(all);
    assert forall|x: ExpenseModel| #[trigger] keep(x) == want(x) by {
        if let Some(k) = keyword {
            lemma_holds_text(x.item_name, k);
            if let Some(t) = x.category {
                lemma_holds_text(t, k);
            }
            if let Some(t) = x.subcategory {
                lemma_holds_text(t, k);
            }
            if let Some(t) = x.store {
                lemma_holds_text(t, k);
            }
            if let Some(t) = x.note {
                lemma_holds_text(t, k);
            }
        }
    }
    lemma_picked_entries(s, keep, e);
    assert(keep(e) == want(e));
    lemma_picked_sums(s, keep, "支出"@, keep);
    lemma_same_entries(s, "支出"@, keep, want);
    lemma_ranked_holds(all, ahead, e);
    lemma_later_date_ranks();
    order::lemma_ranked_in_order(all, ahead);
    if 0 <= i < j < list.len() {
        assert(!ahead(list[j], list[i]));
        text::lemma_lex_total(list[i].purchase_date, list[j].purchase_date);
    }
}

/// Pages follow one another without a gap: entry `i` of page `page` is the entry at the place
/// that the full pages before it and `i` make, and a page is full unless the list ends in it.
pub proof fn lemma_pages(list: Seq<ExpenseModel>, page: int, n: int, i: int)
    requires
        1 <= page,
        1 <= n,
        0 <= i < n,
    ensures
        ({
            let p = accounting::slice(list, (page - 1) * n, n);
            let at = (page - 1) * n + i;
            &&& i < p.len() <==> at < list.len()
            &&& i < p.len() ==> p[i] == list[at]
            &&& p.len() <= n
        }),
{
    assert((page - 1) * n >= 0) by (nonlinear_arith)
        requires
            page >= 1,
            n >= 1,
    ;
}

/// A number of a page, or of its entries, is taken as it is where it is in bounds, and else
/// the bound that is nearest.
pub proof fn lemma_within(v: int, lo: int, hi: int)
    requires
        lo <= hi,
    ensures
        lo <= accounting::within(v, lo, hi) <= hi,
        lo <= v <= hi ==> accounting::within(v, lo, hi) == v,
        v < lo ==> accounting::within(v, lo, hi) == lo,
        v > hi ==> accounting::within(v, lo, hi) == hi,
{
}

proof fn lemma_later_id_ranks()
    ensures
        order::ranks(|a: ExpenseModel, b: ExpenseModel| accounting::later_id(a, b)),
{
    let ahead = |a: ExpenseModel, b: ExpenseModel| accounting::later_id(a, b);
    assert forall|a: ExpenseModel, b: ExpenseModel| #[trigger] ahead(a, b) implies !ahead(b, a) by {
    }
    assert forall|a: ExpenseModel, b: ExpenseModel, c: ExpenseModel|
        !(#[trigger] ahead(a, b)) && !(#[trigger] ahead(b, c)) implies !ahead(a, c) by {}
}

/// The entries of a list by id are those that were given, the last one that came in first;
/// so the first ones of it came in after all others.
pub proof fn lemma_newest_first(s: Seq<ExpenseModel>, e: ExpenseModel, i: int, j: int)
    ensures
        ({
            let list = accounting::newest_first(s);
            &&& list.len() == s.len()
            &&& list.contains(e) <==> s.contains(e)
            &&& 0 <= i < j < list.len() ==> list[i].id >= list[j].id
        }),
{
    let ahead = |a: ExpenseModel, b: ExpenseModel| accounting::later_id(a, b);
    let list = accounting::newest_first(s);
    lemma_ranked_holds(s, ahead, e);
    lemma_later_id_ranks();
    order::lemma_ranked_in_order(s, ahead);
    if 0 <= i < j < list.len() {
        assert(!ahead(list[j], list[i]));
    }
}

/// The entries of a day are all those with its date, the last one that came in first.
pub proof fn lemma_day_listing(s: Seq<ExpenseModel>, date: Seq<char>, e: ExpenseModel, i: int, j: int)
    ensures
        ({
            let list = accounting::newest_first(
                accounting::picked(s, |x: ExpenseModel| x.purchase_date == date),
            );
            &&& list.contains(e) <==> s.contains(e) && e.purchase_date == date
            &&& 0 <= i < j < list.len() ==> list[i].id >= list[j].id
        }),
{
    let keep = |x: ExpenseModel| x.purchase_date == date;
    lemma_picked_entries(s, keep, e);
    lemma_newest_first(accounting::picked(s, keep), e, i, j);
}

// ----------------------------------------------------------------------------- changes

/// The entry of an id.
pub open spec fn entry(s: Seq<ExpenseModel>, id: int) -> Option<ExpenseModel> {
    if accounting::has_entry(s, id) {
        Some(s[accounting::entry_at(s, id)])
    } else {
        None
    }
}

/// An entry that was added is found under the next id as it was given; all others are found
/// as before, and no category changes.
pub proof fn lemma_added_entry(l: LedgerModel, e: ExpenseModel, id: int)
    requires
        accounting::expenses_ok(l.expenses, l.last_expense),
    ensures
        ({
            let a = accounting::with_entry(l, e);
            &&& accounting::expenses_ok(a.expenses, a.last_expense)
            &&& entry(a.expenses, l.last_expense + 1) == Some(
                (ExpenseModel { id: l.last_expense + 1, ..e }),
            )
            &&& id != l.last_expense + 1 ==> entry(a.expenses, id) == entry(l.expenses, id)
            &&& a.categories == l.categories
        }),
{
    let s = l.expenses;
    let a = accounting::with_entry(l, e);
    let t = a.expenses;
    let last = l.last_expense + 1;
    assert forall|i: int, j: int| 0 <= i < j < t.len() implies (#[trigger] t[i]).id != (
    #[trigger] t[j]).id by {
        assert(t[i] == s[i]);
        assert(s[i].id <= l.last_expense);
        if j < s.len() {
            assert(t[j] == s[j]);
        }
    }
    assert forall|i: int| 0 <= i < t.len() implies (#[trigger] t[i]).id <= last by {
        if i < s.len() {
            assert(s[i].id <= l.last_expense);
        }
    }
    accounting::lemma_entry_at(t, last, s.len() as int);
    if accounting::has_entry(s, id) {
        let k = accounting::entry_at(s, id);
        assert(t[k] == s[k]);
        accounting::lemma_entry_at(t, last, k);
    }
    if accounting::has_entry(t, id) && id != last {
        let k = accounting::entry_at(t, id);
        assert(s[k] == t[k]);
        accounting::lemma_entry_at(s, l.last_expense, k);
    }
}

/// A change of an entry reaches that entry alone: it says what it was told but for its id,
/// its delivery date and its time of record, and its category and subcategory are without
/// white space around them, and none where they are blank.
pub proof fn lemma_changed_entry(s: Seq<ExpenseModel>, last: int, id: int, e: ExpenseModel, other: int)
    requires
        accounting::expenses_ok(s, last),
        accounting::has_entry(s, id),
    ensures
        ({
            let i = accounting::entry_at(s, id);
            let a = s.update(i, accounting::edited(s[i], e));
            let was = entry(s, id)->0;
            let is = entry(a, id)->0;
            &&& entry(a, id) is Some
            &&& is.id == id && is.delivery_date == was.delivery_date && is.record_time
                == was.record_time
            &&& is.rtype == e.rtype && is.item_name == e.item_name && is.store == e.store
            &&& is.purchase_date == e.purchase_date && is.amount == e.amount && is.note == e.note
            &&& is.category == blank_is_none(e.category)
            &&& is.subcategory == blank_is_none(e.subcategory)
            &&& other != id ==> entry(a, other) == entry(s, other)
        }),
{
    let i = accounting::entry_at(s, id);
    let n = accounting::edited(s[i], e);
    let a = s.update(i, n);
    assert(s[i].id == id);
    assert forall|x: int, y: int| 0 <= x < y < a.len() implies (#[trigger] a[x]).id != (
    #[trigger] a[y]).id by {
        assert(s[x].id != s[y].id);
    }
    assert forall|x: int| 0 <= x < a.len() implies (#[trigger] a[x]).id <= last by {
        assert(s[x].id <= last);
    }
    accounting::lemma_entry_at(a, last, i);
    if other != id {
        if accounting::has_entry(s, other) {
            let k = accounting::entry_at(s, other);
            assert(a[k] == s[k]);
            accounting::lemma_entry_at(a, last, k);
        }
        if accounting::has_entry(a, other) {
            let k = accounting::entry_at(a, other);
            assert(a[k] == s[k]);
            accounting::lemma_entry_at(s, last, k);
        }
    }
}

/// A name without white space around it; none where nothing else is in it.
pub open spec fn blank_is_none(raw: Option<Seq<char>>) -> Option<Seq<char>> {
    if raw is Some && text::trimmed(raw->0).len() > 0 {
        Some(text::trimmed(raw->0))
    } else {
        None
    }
}

/// An entry that was removed is not found any more, and all others are as they were.
pub proof fn lemma_removed_entry(s: Seq<ExpenseModel>, last: int, id: int, other: int)
    requires
        accounting::expenses_ok(s, last),
        accounting::has_entry(s, id),
    ensures
        ({
            let a = s.remove(accounting::entry_at(s, id));
            &&& entry(a, id) is None
            &&& other != id ==> entry(a, other) == entry(s, other)
            &&& a.len() == s.len() - 1
        }),
{
    let i = accounting::entry_at(s, id);
    let a = s.remove(i);
    assert(s[i].id == id);
    assert forall|x: int| 0 <= x < a.len() implies (#[trigger] a[x]) == s[if x < i {
        x
    } else {
        x + 1
    }] by {}
    assert forall|x: int, y: int| 0 <= x < y < a.len() implies (#[trigger] a[x]).id != (
    #[trigger] a[y]).id by {
        let p = if x < i {
            x
        } else {
            x + 1
        };
        let q = if y < i {
            y
        } else {
            y + 1
        };
        assert(s[p].id != s[q].id);
    }
    assert forall|x: int| 0 <= x < a.len() implies (#[trigger] a[x]).id <= last && a[x].id != id by {
        let p = if x < i {
            x
        } else {
            x + 1
        };
        assert(s[p].id <= last);
        if p < i {
            assert(s[p].id != s[i].id);
        } else {
            assert(s[i].id != s[p].id);
        }
    }
    if other != id {
        if accounting::has_entry(s, other) {
            let k = accounting::entry_at(s, other);
            let p = if k < i {
                k
            } else {
                k - 1
            };
            assert(a[p] == s[k]);
            accounting::lemma_entry_at(a, last, p);
        }
        if accounting::has_entry(a, other) {
            let k = accounting::entry_at(a, other);
            let p = if k < i {
                k
            } else {
                k + 1
            };
            assert(a[k] == s[p]);
            accounting::lemma_entry_at(s, last, p);
        }
    }
}

/// A category of a name.
pub open spec fn category(s: Seq<CategoryModel>, name: Seq<char>) -> Option<CategoryModel> {
    if accounting::has_category(s, name) {
        Some(s[accounting::category_at(s, name)])
    } else {
        None
    }
}

proof fn lemma_category_at(s: Seq<CategoryModel>, last: int, i: int)
    requires
        accounting::categories_ok(s, last),
        0 <= i < s.len(),
    ensures
        category(s, s[i].name) == Some(s[i]),
        accounting::category_at(s, s[i].name) == i,
{
    let k = accounting::category_at(s, s[i].name);
    assert(s[k].name == s[i].name);
    if k < i {
        assert(s[k].name != s[i].name);
    }
    if i < k {
        assert(s[i].name != s[k].name);
    }
}

/// A category is renamed exactly where it is there, its new name is not blank and not that
/// of another one, and there is something to change.
pub proof fn lemma_rename_is_allowed(
    l: LedgerModel,
    from: Seq<char>,
    to: Seq<char>,
    ctype: Option<Seq<char>>,
)
    ensures
        ({
            let n = text::trimmed(to);
            accounting::rename_answer(l, from, to, ctype).0 <==> n.len() > 0 && category(
                l.categories,
                from,
            ) is Some && (n == from || category(l.categories, n) is None) && !(from == to
                && ctype is None)
        }),
{
}

/// A category that was renamed is found under its new name with its id and its
/// subcategories, and with its type unless one was given; its entries follow it; all other
/// categories and entries stay as they are.
pub proof fn lemma_renamed_category(
    l: LedgerModel,
    from: Seq<char>,
    to: Seq<char>,
    ctype: Option<Seq<char>>,
    other: Seq<char>,
    i: int,
)
    requires
        accounting::categories_ok(l.categories, l.last_category),
        accounting::rename_answer(l, from, to, ctype).0,
        0 <= i < l.expenses.len(),
    ensures
        ({
            let a = accounting::renamed(l, from, to, ctype);
            let n = text::trimmed(to);
            let was = category(l.categories, from)->0;
            &&& category(a.categories, n) == Some(
                CategoryModel {
                    id: was.id,
                    name: n,
                    ctype: if ctype is Some {
                        ctype->0
                    } else {
                        was.ctype
                    },
                    subs: was.subs,
                },
            )
            &&& other != from && other != n ==> category(a.categories, other) == category(
                l.categories,
                other,
            )
            &&& n != from ==> category(a.categories, from) is None
            &&& a.expenses[i].category == (if l.expenses[i].category == Some(from) {
                Some(n)
            } else {
                l.expenses[i].category
            })
            &&& a.expenses.len() == l.expenses.len()
        }),
{
    let s = l.categories;
    let k = accounting::category_at(s, from);
    let a = accounting::renamed(l, from, to, ctype);
    let t = a.categories;
    let n = text::trimmed(to);
    assert(s[k].name == from);
    accounting::lemma_update_category(s, l.last_category, k, t[k]);
    lemma_category_at(t, l.last_category, k);
    if accounting::has_category(s, other) && other != from && other != n {
        let j = accounting::category_at(s, other);
        assert(t[j] == s[j]);
        lemma_category_at(t, l.last_category, j);
    }
    if accounting::has_category(t, other) && other != from && other != n {
        let j = accounting::category_at(t, other);
        assert(t[j] == s[j]);
        lemma_category_at(s, l.last_category, j);
    }
    if n != from && accounting::has_category(t, from) {
        let j = accounting::category_at(t, from);
        assert(t[j].name == from);
        assert(t[j] == s[j]);
        lemma_category_at(s, l.last_category, j);
    }
}

/// A category that is new comes in under the next id with what was given; one of a name
/// that is taken changes nothing. Others are found as before.
pub proof fn lemma_added_category(
    l: LedgerModel,
    name: Seq<char>,
    ctype: Seq<char>,
    subs: Seq<char>,
    other: Seq<char>,
)
    requires
        accounting::categories_ok(l.categories, l.last_category),
    ensures
        ({
            let a = accounting::with_category(l, name, ctype, subs);
            &&& category(a.categories, name) == (if category(l.categories, name) is Some {
                category(l.categories, name)
            } else {
                Some(CategoryModel { id: l.last_category + 1, name, ctype, subs })
            })
            &&& other != name ==> category(a.categories, other) == category(l.categories, other)
            &&& a.expenses == l.expenses
        }),
{
    let s = l.categories;
    let a = accounting::with_category(l, name, ctype, subs);
    let t = a.categories;
    if !accounting::has_category(s, name) {
        assert forall|i: int, j: int| 0 <= i < j < t.len() implies (#[trigger] t[i]).name != (
        #[trigger] t[j]).name && t[i].id < t[j].id by {
            assert(t[i] == s[i]);
            assert(s[i].id <= l.last_category);
            if j < s.len() {
                assert(t[j] == s[j]);
            }
        }
        assert forall|i: int| 0 <= i < t.len() implies (#[trigger] t[i]).id <= a.last_category by {
            if i < s.len() {
                assert(s[i].id <= l.last_category);
            }
        }
        lemma_category_at(t, a.last_category, s.len() as int);
        if accounting::has_category(s, other) && other != name {
            let j = accounting::category_at(s, other);
            assert(t[j] == s[j]);
            lemma_category_at(t, a.last_category, j);
        }
        if accounting::has_category(t, other) && other != name {
            let j = accounting::category_at(t, other);
            assert(t[j] == s[j]);
            lemma_category_at(s, l.last_category, j);
        }
    }
}

/// A category that was removed is not found any more, and all others are as they were.
pub proof fn lemma_removed_category(
    s: Seq<CategoryModel>,
    last: int,
    name: Seq<char>,
    other: Seq<char>,
)
    requires
        accounting::categories_ok(s, last),
        accounting::has_category(s, name),
    ensures
        ({
            let a = s.remove(accounting::category_at(s, name));
            &&& category(a, name) is None
            &&& other != name ==> category(a, other) == category(s, other)
        }),
{
    let i = accounting::category_at(s, name);
    let a = s.remove(i);
    assert(s[i].name == name);
    assert forall|x: int, y: int| 0 <= x < y < a.len() implies (#[trigger] a[x]).name != (
    #[trigger] a[y]).name && a[x].id < a[y].id by {
        let p = if x < i {
            x
        } else {
            x + 1
        };
        let q = if y < i {
            y
        } else {
            y + 1
        };
        assert(a[x] == s[p] && a[y] == s[q]);
        assert(s[p].name != s[q].name);
    }
    assert forall|x: int| 0 <= x < a.len() implies (#[trigger] a[x]).id <= last && a[x].name
        != name by {
        let p = if x < i {
            x
        } else {
            x + 1
        };
        assert(a[x] == s[p]);
        assert(s[p].id <= last);
        if p < i {
            assert(s[p].name != s[i].name);
        } else {
            assert(s[i].name != s[p].name);
        }
    }
    if other != name {
        if accounting::has_category(s, other) {
            let k = accounting::category_at(s, other);
            let p = if k < i {
                k
            } else {
                k - 1
            };
            assert(a[p] == s[k]);
            lemma_category_at(a, last, p);
        }
        if accounting::has_category(a, other) {
            let k = accounting::category_at(a, other);
            let p = if k < i {
                k
            } else {
                k + 1
            };
            assert(a[k] == s[p]);
            lemma_category_at(s, last, p);
        }
    }
}

/// A subcategory is added exactly where its category is there, it is not blank, has no comma
/// in it, and is not there yet.
pub proof fn lemma_sub_is_allowed(l: LedgerModel, name: Seq<char>, sub: Seq<char>)
    ensures
        ({
            let n = text::trimmed(sub);
            let subs = accounting::subs_of(accounting::subs_text(l.categories, name));
            accounting::add_sub_answer(l, name, sub).0 <==> category(l.categories, name) is Some
                && n.len() > 0 && !n.contains(',') && !subs.contains(n)
        }),
{
}

/// A subcategory is renamed exactly where it is there and its new name is another one, not
/// blank, has no comma in it, and is not there yet. Then the new one is read in its place,
/// and the other subcategories as before; but for a new name like the mark for an empty
/// list.
pub proof fn lemma_renamed_sub(
    l: LedgerModel,
    name: Seq<char>,
    from: Seq<char>,
    to: Seq<char>,
    i: int,
)
    requires
        accounting::categories_ok(l.categories, l.last_category),
        text::trimmed(to) != "[]"@,
    ensures
        ({
            let n = text::trimmed(to);
            let subs = accounting::subs_of(accounting::subs_text(l.categories, name));
            let done = accounting::rename_sub_answer(l, name, from, to).0;
            let a = accounting::renamed_sub(l, name, from, to);
            let after = accounting::subs_of(accounting::subs_text(a.categories, name));
            &&& done <==> subs.contains(from) && n != from && n.len() > 0 && !n.contains(',')
                && !subs.contains(n)
            &&& done ==> after.len() == subs.len()
            &&& done && 0 <= i < subs.len() && subs[i] != from ==> after[i] == subs[i]
            &&& done && 0 <= i < subs.len() && subs[i] == from && (forall|j: int|
                0 <= j < i ==> #[trigger] subs[j] != from) ==> after[i] == n
        }),
{
    let n = text::trimmed(to);
    let s = l.categories;
    let raw = accounting::subs_text(s, name);
    let subs = accounting::subs_of(raw);
    if accounting::rename_sub_answer(l, name, from, to).0 {
        accounting::lemma_no_subs();
        assert(accounting::has_category(s, name)) by {
            if !accounting::has_category(s, name) {
                assert(subs.len() == 0);
            }
        }
        let k = accounting::category_at(s, name);
        let a = accounting::renamed_sub(l, name, from, to);
        assert(s[k].name == name);
        accounting::lemma_update_category(s, l.last_category, k, a.categories[k]);
        lemma_category_at(a.categories, l.last_category, k);
        let f = first_place(subs, from, 0);
        let list = subs.update(f, n);
        accounting::lemma_first_at(subs, from, f, 0);
        accounting::lemma_subs_keepable(raw);
        text::lemma_trimmed_idempotent(to);
        assert forall|x: int| 0 <= x < list.len() implies accounting::keepable(
            #[trigger] list[x],
        ) by {
            if x != f {
                assert(list[x] == subs[x]);
            }
        }
        accounting::lemma_subs_round_trip(list);
        assert(accounting::subs_text(a.categories, name) == text::joined(list, ","@));
        if 0 <= i < subs.len() && subs[i] == from && (forall|j: int|
            0 <= j < i ==> #[trigger] subs[j] != from) {
            if i < f {
                assert(subs[i] != from);
            }
            if f < i {
                assert(subs[f] != from);
            }
        }
    }
}

proof fn first_place(list: Seq<Seq<char>>, name: Seq<char>, from: int) -> (k: int)
    requires
        0 <= from,
        exists|i: int| from <= i < list.len() && #[trigger] list[i] == name,
    ensures
        from <= k < list.len(),
        list[k] == name,
        forall|j: int| from <= j < k ==> #[trigger] list[j] != name,
    decreases list.len() - from,
{
    if list[from] == name {
        from
    } else {
        let i = choose|i: int| from <= i < list.len() && #[trigger] list[i] == name;
        assert(from + 1 <= i);
        first_place(list, name, from + 1)
    }
}

// ---------------------------------------------------------------- lists of subcategories

proof fn lemma_extended(list: Seq<Seq<char>>, more: Seq<Seq<char>>, x: Seq<char>)
    ensures
        accounting::extended(list, more).contains(x) <==> list.contains(x) || more.contains(x),
        list.len() <= accounting::extended(list, more).len(),
        accounting::extended(list, more).take(list.len() as int) == list,
        list.no_duplicates() ==> accounting::extended(list, more).no_duplicates(),
    decreases more.len(),
{
    let e = accounting::extended(list, more);
    if more.len() > 0 {
        let m = more.drop_last();
        let y = more.last();
        let r = accounting::extended(list, m);
        lemma_extended(list, m, x);
        lemma_extended(list, m, y);
        assert(more[more.len() - 1] == y);
        assert(more.contains(y));
        if m.contains(x) {
            let i = choose|i: int| 0 <= i < m.len() && m[i] == x;
            assert(more[i] == x);
        }
        if more.contains(x) {
            let i = choose|i: int| 0 <= i < more.len() && more[i] == x;
            if i < m.len() {
                assert(m[i] == x);
            }
        }
        if !r.contains(y) {
            assert(e == r.push(y));
            assert(e[e.len() - 1] == y);
            if r.contains(x) {
                let i = choose|i: int| 0 <= i < r.len() && r[i] == x;
                assert(e[i] == x);
            }
            if e.contains(x) {
                let i = choose|i: int| 0 <= i < e.len() && e[i] == x;
                if i < r.len() {
                    assert(r[i] == x);
                }
            }
            assert(e.take(list.len() as int) =~= r.take(list.len() as int));
            if list.no_duplicates() {
                assert forall|i: int, j: int| 0 <= i < e.len() && 0 <= j < e.len() && i != j implies
                    e[i] != e[j] by {
                    if i < r.len() {
                        assert(r.contains(r[i]));
                    }
                    if j < r.len() {
                        assert(r.contains(r[j]));
                    }
                }
            }
        }
    } else {
        assert(list.take(list.len() as int) =~= list);
    }
}

/// Whether an entry of a category has a subcategory.
pub open spec fn is_used(s: Seq<ExpenseModel>, name: Seq<char>, sub: Seq<char>) -> bool {
    exists|i: int|
        0 <= i < s.len() && (#[trigger] s[i]).category == Some(name) && s[i].subcategory == Some(
            sub,
        )
}

proof fn lemma_recorded(s: Seq<ExpenseModel>, name: Seq<char>, x: Seq<char>)
    ensures
        accounting::recorded(s, name).contains(x) <==> x.len() > 0 && is_used(s, name, x),
    decreases s.len(),
{
    if s.len() > 0 {
        let t = s.drop_last();
        let e = s.last();
        let r = accounting::recorded(t, name);
        let a = accounting::recorded(s, name);
        lemma_recorded(t, name, x);
        assert(s[s.len() - 1] == e);
        if is_used(t, name, x) {
            let i = choose|i: int|
                0 <= i < t.len() && (#[trigger] t[i]).category == Some(name) && t[i].subcategory
                    == Some(x);
            assert(s[i] == t[i]);
        }
        if is_used(s, name, x) {
            let i = choose|i: int|
                0 <= i < s.len() && (#[trigger] s[i]).category == Some(name) && s[i].subcategory
                    == Some(x);
            if i < t.len() {
                assert(s[i] == t[i]);
            }
        }
        if r.contains(x) {
            let i = choose|i: int| 0 <= i < r.len() && r[i] == x;
            assert(a[i] == x);
        }
        if e.category == Some(name) && e.subcategory is Some && e.subcategory->0.len() > 0 {
            let y = e.subcategory->0;
            if !r.contains(y) {
                assert(a[a.len() - 1] == y);
                if a.contains(x) {
                    let i = choose|i: int| 0 <= i < a.len() && a[i] == x;
                    if i < r.len() {
                        assert(r[i] == x);
                    }
                }
            }
        }
    }
}

proof fn lemma_sooner_ranks()
    ensures
        order::ranks(|a: Seq<char>, b: Seq<char>| accounting::sooner(a, b)),
{
    let ahead = |a: Seq<char>, b: Seq<char>| accounting::sooner(a, b);
    assert forall|a: Seq<char>, b: Seq<char>| #[trigger] ahead(a, b) implies !ahead(b, a) by {
        text::lemma_lex_total(a, b);
    }
    assert forall|a: Seq<char>, b: Seq<char>, c: Seq<char>|
        !(#[trigger] ahead(a, b)) && !(#[trigger] ahead(b, c)) implies !ahead(a, c) by {
        text::lemma_lex_trans(c, b, a);
    }
}

proof fn lemma_tail_in_order(list: Seq<Seq<char>>, more: Seq<Seq<char>>, i: int, j: int)
    requires
        forall|a: int, b: int|
            0 <= a < b < more.len() ==> text::lex_le(#[trigger] more[a], #[trigger] more[b]),
        list.len() <= i < j < accounting::extended(list, more).len(),
    ensures
        text::lex_le(
            accounting::extended(list, more)[i],
            accounting::extended(list, more)[j],
        ),
    decreases more.len(),
{
    if more.len() > 0 {
        let m = more.drop_last();
        let y = more.last();
        let r = accounting::extended(list, m);
        let e = accounting::extended(list, more);
        if j < r.len() {
            assert forall|a: int, b: int| 0 <= a < b < m.len() implies text::lex_le(
                #[trigger] m[a],
                #[trigger] m[b],
            ) by {
                assert(more[a] == m[a] && more[b] == m[b]);
            }
            lemma_tail_in_order(list, m, i, j);
            assert(e[i] == r[i] && e[j] == r[j]);
        } else {
            lemma_tail_from(list, m, i);
            let a = choose|a: int| 0 <= a < m.len() && #[trigger] m[a] == r[i];
            assert(more[a] == r[i] && more[more.len() - 1] == y);
            assert(e[i] == r[i] && e[j] == y);
        }
    }
}

proof fn lemma_tail_from(list: Seq<Seq<char>>, more: Seq<Seq<char>>, i: int)
    requires
        list.len() <= i < accounting::extended(list, more).len(),
    ensures
        exists|a: int|
            0 <= a < more.len() && #[trigger] more[a] == accounting::extended(list, more)[i],
    decreases more.len(),
{
    if more.len() > 0 {
        let m = more.drop_last();
        let r = accounting::extended(list, m);
        if i < r.len() {
            lemma_tail_from(list, m, i);
            let a = choose|a: int| 0 <= a < m.len() && #[trigger] m[a] == r[i];
            assert(more[a] == r[i]);
        } else {
            assert(more[more.len() - 1] == more.last());
        }
    }
}

/// The subcategories of a category are those that it declares and those that its entries
/// have, each once: first the declared ones, then the others in the order of the alphabet.
pub proof fn lemma_subcategories(l: LedgerModel, name: Seq<char>, x: Seq<char>, i: int, j: int)
    ensures
        ({
            let declared = accounting::subs_of(accounting::subs_text(l.categories, name));
            let first = accounting::extended(Seq::empty(), declared);
            let list = accounting::extended(
                first,
                accounting::alphabetical(accounting::recorded(l.expenses, name)),
            );
            &&& list.contains(x) <==> declared.contains(x) || (x.len() > 0 && is_used(
                l.expenses,
                name,
                x,
            ))
            &&& first.contains(x) <==> declared.contains(x)
            &&& list.no_duplicates()
            &&& first.len() <= list.len()
            &&& list.take(first.len() as int) == first
            &&& first.len() <= i < j < list.len() ==> text::lex_le(list[i], list[j])
        }),
{
    let declared = accounting::subs_of(accounting::subs_text(l.categories, name));
    let e = Seq::<Seq<char>>::empty();
    let first = accounting::extended(e, declared);
    let own = accounting::recorded(l.expenses, name);
    let ahead = |a: Seq<char>, b: Seq<char>| accounting::sooner(a, b);
    let more = accounting::alphabetical(own);
    let list = accounting::extended(first, more);
    lemma_extended(e, declared, x);
    lemma_extended(first, more, x);
    lemma_recorded(l.expenses, name, x);
    lemma_ranked_holds(own, ahead, x);
    lemma_sooner_ranks();
    order::lemma_ranked_in_order(own, ahead);
    assert(!e.contains(x));
    assert(e.no_duplicates());
    if first.len() <= i < j < list.len() {
        assert forall|a: int, b: int| 0 <= a < b < more.len() implies text::lex_le(
            #[trigger] more[a],
            #[trigger] more[b],
        ) by {
            assert(!ahead(more[b], more[a]));
        }
        lemma_tail_in_order(first, more, i, j);
    }
}

// -------------------------------------------------------------------------------- ages

/// The anniversary of a date is the day of the same month and the same number, `n` years
/// later; where that month is too short for it, the last day of the month, which can only be
/// 28 February.
pub proof fn lemma_anniversary_day(from: Date, n: int)
    requires
        from.valid(),
    ensures
        from.day <= 28 || from.month != 2 || calendar::is_leap(from.year + n) ==> anniversary_is(
            from,
            n,
            from.day as int,
        ),
        from.day == 29 && from.month == 2 && !calendar::is_leap(from.year + n) ==> anniversary_is(
            from,
            n,
            28,
        ),
{
}

/// Whether the anniversary of a date after `n` years is a day of its month.
pub open spec fn anniversary_is(from: Date, n: int, day: int) -> bool {
    accounting::anniversary(from, n) == calendar::day_number(
        from.year + n,
        from.month as int,
        day,
    )
}

/// The age of the last id asked for is told where there is an entry of that id with a date
/// that can be read, and told last: no time where the date is today or later; else the
/// years and the days that lead from the date to today. The ids before it are told as if it
/// had not been asked for.
#[verifier::rlimit(40)]
pub proof fn lemma_age(s: Seq<ExpenseModel>, ids: Seq<i64>, id: i64, today: Date, n: int)
    requires
        today.valid(),
        0 <= n,
    ensures
        ({
            let a = accounting::ages(s, ids, today);
            let b = accounting::ages(s, ids.push(id), today);
            let e = entry(s, id as int);
            let date = calendar::parsed_date((e->0).purchase_date, "%Y-%m-%d"@);
            let told = e is Some && date is Some;
            let from = date->0;
            &&& b.len() == a.len() + (if told {
                1int
            } else {
                0
            })
            &&& b.take(a.len() as int) == a
            &&& told ==> b.last().0 == id
            &&& told && from.number() >= today.number() ==> b.last().1 == 0 && b.last().2 == 0
            &&& told && from.valid() && from.number() < today.number() && accounting::anniversary(
                from,
                n,
            ) <= today.number() < accounting::anniversary(from, n + 1) ==> b.last().1 == n
                && accounting::anniversary(from, n) + b.last().2 == today.number()
        }),
{
    let t = ids.push(id);
    assert(t.drop_last() =~= ids);
    assert(t.last() == id);
    let a = accounting::ages(s, ids, today);
    let b = accounting::ages(s, t, today);
    let e = entry(s, id as int);
    let date = calendar::parsed_date((e->0).purchase_date, "%Y-%m-%d"@);
    let now = today.number();
    if e is Some && date is Some {
        let from = date->0;
        if from.number() >= now {
            assert(b == a.push((id as int, 0, 0)));
        } else {
            let m = accounting::whole_years(from, now);
            let d = now - accounting::anniversary(from, m);
            assert(b == a.push((id as int, m, d)));
            if from.valid() && accounting::anniversary(from, n) <= now < accounting::anniversary(
                from,
                n + 1,
            ) {
                accounting::lemma_whole_years(from, now, n);
            }
        }
    } else {
        assert(b == a);
    }
    assert(b.take(a.len() as int) =~= a);
}

/// The subcategories that an older ledger kept apart are those of the rows of a category, in
/// their order.
pub proof fn lemma_old_subcategories(
    rows: Seq<(Seq<char>, Seq<char>)>,
    name: Seq<char>,
    x: Seq<char>,
)
    ensures
        accounting::subs_for(rows, name).contains(x) <==> rows.contains((name, x)),
        accounting::subs_for(rows, name).len() <= rows.len(),
    decreases rows.len(),
{
    if rows.len() > 0 {
        let t = rows.drop_last();
        let r = accounting::subs_for(t, name);
        let a = accounting::subs_for(rows, name);
        lemma_old_subcategories(t, name, x);
        assert(rows[rows.len() - 1] == rows.last());
        if t.contains((name, x)) {
            let i = choose|i: int| 0 <= i < t.len() && t[i] == (name, x);
            assert(rows[i] == (name, x));
        }
        if rows.contains((name, x)) {
            let i = choose|i: int| 0 <= i < rows.len() && rows[i] == (name, x);
            if i < t.len() {
                assert(t[i] == (name, x));
            }
        }
        if r.contains(x) {
            let i = choose|i: int| 0 <= i < r.len() && r[i] == x;
            assert(a[i] == x);
        }
        if rows.last().0 == name {
            assert(a[a.len() - 1] == rows.last().1);
        }
        if a.contains(x) {
            let i = choose|i: int| 0 <= i < a.len() && a[i] == x;
            if i < r.len() {
                assert(r[i] == x);
            }
        }
    }
}

/// Taking over old subcategories changes nothing of a category but its subcategories, and
/// those only where the old ledger had some for it.
pub proof fn lemma_taken_over(
    s: Seq<CategoryModel>,
    rows: Seq<(Seq<char>, Seq<char>)>,
    i: int,
)
    requires
        0 <= i < s.len(),
        forall|k: int| 0 <= k < rows.len() ==> accounting::keepable((#[trigger] rows[k]).1),
    ensures
        ({
            let a = accounting::with_subs(s, rows);
            &&& a.len() == s.len()
            &&& a[i] == (CategoryModel { subs: a[i].subs, ..s[i] })
            &&& (forall|k: int| 0 <= k < rows.len() ==> (#[trigger] rows[k]).0 != s[i].name)
                ==> a[i] == s[i]
            &&& (exists|k: int| 0 <= k < rows.len() && (#[trigger] rows[k]).0 == s[i].name)
                ==> accounting::subs_of(a[i].subs) == accounting::subs_for(rows, s[i].name)
        }),
{
    let n = s[i].name;
    let l = accounting::subs_for(rows, n);
    assert forall|k: int| 0 <= k < l.len() implies accounting::keepable(#[trigger] l[k]) by {
        lemma_old_subcategories(rows, n, l[k]);
        assert(l.contains(l[k]));
        let m = choose|m: int| 0 <= m < rows.len() && rows[m] == (n, l[k]);
        assert(accounting::keepable(rows[m].1));
    }
    accounting::lemma_subs_round_trip(l);
    if l.len() > 0 {
        lemma_old_subcategories(rows, n, l[0]);
        assert(l.contains(l[0]));
        let m = choose|m: int| 0 <= m < rows.len() && rows[m] == (n, l[0]);
        assert(rows[m].0 == n);
    }
    if exists|k: int| 0 <= k < rows.len() && (#[trigger] rows[k]).0 == n {
        let k = choose|k: int| 0 <= k < rows.len() && (#[trigger] rows[k]).0 == n;
        lemma_old_subcategories(rows, n, rows[k].1);
        assert(rows[k] == (n, rows[k].1));
        assert(rows.contains((n, rows[k].1)));
        let j = choose|j: int| 0 <= j < l.len() && l[j] == rows[k].1;
    }
}

} // verus!
