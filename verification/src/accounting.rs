//! A ledger of income and expenses with categories.
//!
//! Amounts are whole cents, so that sums are exact.
use vstd::prelude::*;
use vstd::string::*;

use crate::calendar;
use crate::calendar::{add_months, days_between, parse_date, Date};
use crate::order;
use crate::order::{rank, Ranked};
use crate::text;
use crate::text::{
    blank, chars_of, contains_char, join, opt_dup, opt_own, split_char, str_eq, str_le, to_lower,
    trim, vec_find,
};

verus! {

// ------------------------------------------------------------------------------ types

/// An amount of money. An entry keeps the number that it was given; only sums are made of
/// whole cents.
#[derive(Clone, Copy, Debug, PartialEq, Eq, Structural)]
pub struct Amount {
    /// The number as it is stored, by the bits of its binary form.
    pub stored: u64,
    /// That number in cents, rounded to a whole one.
    pub cents: i64,
}

/// An entry of the ledger.
#[derive(Clone, Debug, PartialEq)]
pub struct Expense {
    pub id: i64,
    /// `收入` (income) or `支出` (expense).
    pub rtype: String,
    pub item_name: String,
    pub store: Option<String>,
    /// `YYYY-MM-DD`.
    pub purchase_date: String,
    pub amount: Amount,
    pub category: Option<String>,
    pub subcategory: Option<String>,
    pub delivery_date: Option<String>,
    pub record_time: String,
    pub note: Option<String>,
}

/// An entry of the ledger.
#[verifier::ext_equal]
pub struct ExpenseModel {
    pub id: int,
    pub rtype: Seq<char>,
    pub item_name: Seq<char>,
    pub store: Option<Seq<char>>,
    pub purchase_date: Seq<char>,
    pub amount: Amount,
    pub category: Option<Seq<char>>,
    pub subcategory: Option<Seq<char>>,
    pub delivery_date: Option<Seq<char>>,
    pub record_time: Seq<char>,
    pub note: Option<Seq<char>>,
}

impl View for Expense {
    type V = ExpenseModel;

    open spec fn view(&self) -> ExpenseModel {
        ExpenseModel {
            id: self.id as int,
            rtype: self.rtype@,
            item_name: self.item_name@,
            store: text::opt_text(self.store),
            purchase_date: self.purchase_date@,
            amount: self.amount,
            category: text::opt_text(self.category),
            subcategory: text::opt_text(self.subcategory),
            delivery_date: text::opt_text(self.delivery_date),
            record_time: self.record_time@,
            note: text::opt_text(self.note),
        }
    }
}

impl Expense {
    /// A copy of the entry.
    pub fn dup(&self) -> (r: Self)
        ensures
            r@ == self@,
    {
        Expense {
            id: self.id,
            rtype: self.rtype.clone(),
            item_name: self.item_name.clone(),
            store: opt_dup(&self.store),
            purchase_date: self.purchase_date.clone(),
            amount: self.amount,
            category: opt_dup(&self.category),
            subcategory: opt_dup(&self.subcategory),
            delivery_date: opt_dup(&self.delivery_date),
            record_time: self.record_time.clone(),
            note: opt_dup(&self.note),
        }
    }
}

/// A category as it is shown.
pub struct Category {
    pub id: i64,
    pub name: String,
    /// `expense`, `income` or `both`.
    pub ctype: String,
    pub subs: Vec<String>,
}

/// A category as it is kept: the subcategories in one text, separated by commas.
#[derive(Clone, Debug, PartialEq)]
pub struct CategoryRow {
    pub id: i64,
    pub name: String,
    pub ctype: String,
    pub subs: String,
}

/// A category as it is kept.
#[verifier::ext_equal]
pub struct CategoryModel {
    pub id: int,
    pub name: Seq<char>,
    pub ctype: Seq<char>,
    pub subs: Seq<char>,
}

impl View for CategoryRow {
    type V = CategoryModel;

    open spec fn view(&self) -> CategoryModel {
        CategoryModel {
            id: self.id as int,
            name: self.name@,
            ctype: self.ctype@,
            subs: self.subs@,
        }
    }
}

/// The ledger: entries and categories in the order in which they came in, and the last id
/// that was given to either.
pub struct Ledger {
    pub expenses: Vec<Expense>,
    pub categories: Vec<CategoryRow>,
    pub last_expense: i64,
    pub last_category: i64,
}

/// The ledger.
#[verifier::ext_equal]
pub struct LedgerModel {
    pub expenses: Seq<ExpenseModel>,
    pub categories: Seq<CategoryModel>,
    pub last_expense: int,
    pub last_category: int,
}

impl View for Ledger {
    type V = LedgerModel;

    open spec fn view(&self) -> LedgerModel {
        LedgerModel {
            expenses: order::seen(self.expenses@),
            categories: order::seen(self.categories@),
            last_expense: self.last_expense as int,
            last_category: self.last_category as int,
        }
    }
}

/// Entries have different ids, none after the last one given.
pub open spec fn expenses_ok(s: Seq<ExpenseModel>, last: int) -> bool {
    &&& forall|i: int, j: int| 0 <= i < j < s.len() ==> (#[trigger] s[i]).id != (#[trigger] s[j]).id
    &&& forall|i: int| 0 <= i < s.len() ==> (#[trigger] s[i]).id <= last
}

/// Categories have different names and ascending ids, none after the last one given.
pub open spec fn categories_ok(s: Seq<CategoryModel>, last: int) -> bool {
    &&& forall|i: int, j: int|
        0 <= i < j < s.len() ==> (#[trigger] s[i]).name != (#[trigger] s[j]).name && s[i].id
            < s[j].id
    &&& forall|i: int| 0 <= i < s.len() ==> (#[trigger] s[i]).id <= last
}

/// Whether there is a category of a name.
pub open spec fn has_category(s: Seq<CategoryModel>, name: Seq<char>) -> bool {
    exists|i: int| 0 <= i < s.len() && (#[trigger] s[i]).name == name
}

/// The index of the category of a name.
pub open spec fn category_at(s: Seq<CategoryModel>, name: Seq<char>) -> int {
    choose|i: int| 0 <= i < s.len() && (#[trigger] s[i]).name == name
}

/// The text of the subcategories of a category; empty where there is no such category.
pub open spec fn subs_text(s: Seq<CategoryModel>, name: Seq<char>) -> Seq<char> {
    if has_category(s, name) {
        s[category_at(s, name)].subs
    } else {
        Seq::empty()
    }
}

impl Ledger {
    /// Ids and names are in order.
    pub open spec fn wf(&self) -> bool {
        &&& expenses_ok(self@.expenses, self@.last_expense)
        &&& categories_ok(self@.categories, self@.last_category)
    }

    /// An empty ledger.
    pub fn new() -> (r: Self)
        ensures
            r.wf(),
            r@.expenses.len() == 0,
            r@.categories.len() == 0,
            r@.last_expense == 0,
            r@.last_category == 0,
    {
        Ledger {
            expenses: Vec::new(),
            categories: Vec::new(),
            last_expense: 0,
            last_category: 0,
        }
    }

    fn find_category(&self, name: &str) -> (r: usize)
        requires
            self.wf(),
        ensures
            r <= self@.categories.len(),
            r < self@.categories.len() ==> has_category(self@.categories, name@) && category_at(
                self@.categories,
                name@,
            ) == r,
            r == self@.categories.len() ==> !has_category(self@.categories, name@),
    {
        let ghost s = self@.categories;
        let mut i: usize = 0;
        while i < self.categories.len()
            invariant
                i <= self.categories.len(),
                s == self@.categories,
                categories_ok(s, self@.last_category),
                forall|j: int| 0 <= j < i ==> (#[trigger] s[j]).name != name@,
            decreases self.categories.len() - i,
        {
            assert(s[i as int].name == self.categories@[i as int].name@);
            if str_eq(self.categories[i].name.as_str(), name) {
                proof {
                    let k = category_at(s, name@);
                    if k < i {
                        assert(s[k].name != s[i as int].name);
                    }
                    if i < k {
                        assert(s[i as int].name != s[k].name);
                    }
                }
                return i;
            }
            i = i + 1;
        }
        i
    }

    fn find_expense(&self, id: i64) -> (r: usize)
        ensures
            r <= self@.expenses.len(),
            r < self@.expenses.len() ==> self@.expenses[r as int].id == id,
            r == self@.expenses.len() ==> forall|i: int|
                0 <= i < self@.expenses.len() ==> (#[trigger] self@.expenses[i]).id != id,
    {
        let ghost s = self@.expenses;
        let mut i: usize = 0;
        while i < self.expenses.len()
            invariant
                i <= self.expenses.len(),
                s == self@.expenses,
                forall|j: int| 0 <= j < i ==> (#[trigger] s[j]).id != id,
            decreases self.expenses.len() - i,
        {
            assert(s[i as int].id == self.expenses@[i as int].id);
            if self.expenses[i].id == id {
                return i;
            }
            i = i + 1;
        }
        i
    }
}

// ------------------------------------------------------------------------------- text

/// A name without white space around it; a blank one is none.
pub open spec fn named(raw: Option<Seq<char>>) -> Option<Seq<char>> {
    match raw {
        Some(s) => if text::is_blank(s) {
            None
        } else {
            Some(text::trimmed(s))
        },
        None => None,
    }
}

/// A name without white space around it; a blank one is none.
pub fn blank_to_none(raw: Option<&str>) -> (r: Option<String>)
    ensures
        text::opt_text(r) == named(text::opt_str(raw)),
{
    match raw {
        Some(s) => if blank(s) {
            None
        } else {
            Some(trim(s))
        },
        None => None,
    }
}

/// Whether a piece of the text of subcategories is one: not empty, and not the mark for an
/// empty list.
pub open spec fn is_sub(t: Seq<char>) -> bool {
    t.len() > 0 && t != "[]"@
}

/// The trimmed pieces that are subcategories.
pub open spec fn subs_in(parts: Seq<Seq<char>>) -> Seq<Seq<char>>
    decreases parts.len(),
{
    if parts.len() == 0 {
        Seq::empty()
    } else {
        let r = subs_in(parts.drop_last());
        let t = text::trimmed(parts.last());
        if is_sub(t) {
            r.push(t)
        } else {
            r
        }
    }
}

/// The subcategories in a text that separates them by commas.
pub open spec fn subs_of(raw: Seq<char>) -> Seq<Seq<char>> {
    subs_in(text::split_on(raw, ','))
}

/// The subcategories in a text that separates them by commas. The text `[]` stands for
/// none.
pub fn parse_subs(raw: &str) -> (r: Vec<String>)
    ensures
        text::views(r@) == subs_of(raw@),
{
    let parts = split_char(raw, ',');
    let ghost p = text::views(parts@);
    let mut out: Vec<String> = Vec::new();
    let mut i: usize = 0;
    assert(text::views(out@) =~= subs_in(p.take(0)));
    while i < parts.len()
        invariant
            i <= parts.len(),
            p == text::views(parts@),
            text::views(out@) == subs_in(p.take(i as int)),
        decreases parts.len() - i,
    {
        let ghost before = out@;
        proof {
            let t1 = p.take(i as int + 1);
            assert(t1.drop_last() =~= p.take(i as int));
            assert(t1.last() == parts@[i as int]@);
            reveal_strlit("");
        }
        let t = trim(parts[i].as_str());
        proof {
            if t@.len() == 0 {
                assert(t@ =~= ""@);
            }
        }
        if !str_eq(t.as_str(), "") && !str_eq(t.as_str(), "[]") {
            let ghost tv = t@;
            out.push(t);
            assert(text::views(out@) =~= text::views(before).push(tv));
        }
        i = i + 1;
    }
    assert(p.take(i as int) =~= p);
    out
}

/// A subcategory that can be kept in the text: trimmed, without a comma, and not the mark
/// for an empty list.
pub open spec fn keepable(t: Seq<char>) -> bool {
    is_sub(t) && text::trimmed(t) == t && !t.contains(',')
}

fn position(list: &Vec<String>, name: &str) -> (r: Option<usize>)
    ensures
        match r {
            Some(i) => i < list@.len() && list@[i as int]@ == name@ && forall|j: int|
                0 <= j < i ==> (#[trigger] list@[j])@ != name@,
            None => !text::views(list@).contains(name@),
        },
{
    let ghost v = text::views(list@);
    let mut i: usize = 0;
    while i < list.len()
        invariant
            i <= list.len(),
            v == text::views(list@),
            forall|j: int| 0 <= j < i ==> (#[trigger] list@[j])@ != name@,
        decreases list.len() - i,
    {
        if str_eq(list[i].as_str(), name) {
            return Some(i);
        }
        i = i + 1;
    }
    proof {
        if v.contains(name@) {
            let k = choose|k: int| 0 <= k < v.len() && v[k] == name@;
            assert(list@[k]@ == name@);
        }
    }
    None
}

// ------------------------------------------------------------------------- categories

/// The ledger with a category of a name that it does not have, under the next id.
pub open spec fn with_category(
    l: LedgerModel,
    name: Seq<char>,
    ctype: Seq<char>,
    subs: Seq<char>,
) -> LedgerModel {
    if has_category(l.categories, name) {
        l
    } else {
        LedgerModel {
            categories: l.categories.push(
                CategoryModel { id: l.last_category + 1, name, ctype, subs },
            ),
            last_category: l.last_category + 1,
            ..l
        }
    }
}

/// The name, the type and the subcategories of the categories that a new ledger has.
pub open spec fn default_rows() -> Seq<(Seq<char>, Seq<char>, Seq<char>)> {
    seq![
        ("食品饮料"@, "expense"@, "早餐,午餐,晚餐,零食,饮料,水果,外卖,其他"@),
        ("日用百货"@, "expense"@, "清洁用品,纸品,厨房用品,卫浴用品,其他"@),
        ("数码电子"@, "expense"@, "电脑配件,手机配件,耳机,充电器,存储设备,其他"@),
        ("服饰鞋包"@, "expense"@, "上衣,裤子,鞋子,包,配饰,其他"@),
        ("家居家电"@, "expense"@, "家具,小家电,灯具,装饰,其他"@),
        ("图书文具"@, "expense"@, "书籍,文具,办公用品,其他"@),
        ("交通出行"@, "expense"@, "公交,地铁,打车,加油,停车,其他"@),
        ("医疗健康"@, "expense"@, "药品,保健品,医疗器械,其他"@),
        ("娱乐休闲"@, "expense"@, "电影,音乐,运动,其他"@),
        ("游戏"@, "both"@, "梦幻西游,充值,道具,账号,装备,其他"@),
        ("工资收入"@, "income"@, "月薪,奖金,兼职,其他"@),
        ("其他收入"@, "income"@, "退款,红包,投资收益,其他"@),
        ("其他"@, "both"@, "其他"@),
    ]
}

/// The ledger with categories of these names, types and subcategories.
pub open spec fn with_categories(
    l: LedgerModel,
    rows: Seq<(Seq<char>, Seq<char>, Seq<char>)>,
) -> LedgerModel
    decreases rows.len(),
{
    if rows.len() == 0 {
        l
    } else {
        let e = rows.last();
        with_category(with_categories(l, rows.drop_last()), e.0, e.1, e.2)
    }
}

/// The ledger with the usual categories where it has none.
pub open spec fn initialised(l: LedgerModel) -> LedgerModel {
    if l.categories.len() == 0 {
        with_categories(l, default_rows())
    } else {
        l
    }
}

/// A ledger that was initialised stays as it is when that is done again.
pub proof fn lemma_initialised_once(l: LedgerModel)
    ensures
        initialised(initialised(l)) == initialised(l),
{
    let d = default_rows();
    let before = with_categories(l, d.drop_last());
    let after = with_categories(l, d);
    assert(d.len() == 13);
    if has_category(before.categories, d.last().0) {
        assert(before.categories.len() > 0);
    } else {
        assert(after.categories.len() == before.categories.len() + 1);
    }
}

pub open spec fn rows_of(v: Seq<(String, String, String)>) -> Seq<
    (Seq<char>, Seq<char>, Seq<char>),
> {
    Seq::new(v.len(), |i: int| (v[i].0@, v[i].1@, v[i].2@))
}

fn default_categories() -> (r: Vec<(String, String, String)>)
    ensures
        rows_of(r@) == default_rows(),
{
    let mut r: Vec<(String, String, String)> = Vec::new();
    r.push(("食品饮料".to_owned(), "expense".to_owned(), "早餐,午餐,晚餐,零食,饮料,水果,外卖,其他".to_owned()));
    r.push(("日用百货".to_owned(), "expense".to_owned(), "清洁用品,纸品,厨房用品,卫浴用品,其他".to_owned()));
    r.push(("数码电子".to_owned(), "expense".to_owned(), "电脑配件,手机配件,耳机,充电器,存储设备,其他".to_owned()));
    r.push(("服饰鞋包".to_owned(), "expense".to_owned(), "上衣,裤子,鞋子,包,配饰,其他".to_owned()));
    r.push(("家居家电".to_owned(), "expense".to_owned(), "家具,小家电,灯具,装饰,其他".to_owned()));
    r.push(("图书文具".to_owned(), "expense".to_owned(), "书籍,文具,办公用品,其他".to_owned()));
    r.push(("交通出行".to_owned(), "expense".to_owned(), "公交,地铁,打车,加油,停车,其他".to_owned()));
    r.push(("医疗健康".to_owned(), "expense".to_owned(), "药品,保健品,医疗器械,其他".to_owned()));
    r.push(("娱乐休闲".to_owned(), "expense".to_owned(), "电影,音乐,运动,其他".to_owned()));
    r.push(("游戏".to_owned(), "both".to_owned(), "梦幻西游,充值,道具,账号,装备,其他".to_owned()));
    r.push(("工资收入".to_owned(), "income".to_owned(), "月薪,奖金,兼职,其他".to_owned()));
    r.push(("其他收入".to_owned(), "income".to_owned(), "退款,红包,投资收益,其他".to_owned()));
    r.push(("其他".to_owned(), "both".to_owned(), "其他".to_owned()));
    assert(rows_of(r@) =~= default_rows());
    r
}

/// The text of the subcategories that a list of categories and subcategories has for one
/// category.
pub open spec fn subs_for(rows: Seq<(Seq<char>, Seq<char>)>, category: Seq<char>) -> Seq<Seq<char>>
    decreases rows.len(),
{
    if rows.len() == 0 {
        Seq::empty()
    } else {
        let r = subs_for(rows.drop_last(), category);
        if rows.last().0 == category {
            r.push(rows.last().1)
        } else {
            r
        }
    }
}

/// The categories with the subcategories that an older ledger kept apart; a category
/// without any stays as it is.
pub open spec fn with_subs(
    s: Seq<CategoryModel>,
    rows: Seq<(Seq<char>, Seq<char>)>,
) -> Seq<CategoryModel> {
    Seq::new(
        s.len(),
        |i: int|
            if subs_for(rows, s[i].name).len() == 0 {
                s[i]
            } else {
                CategoryModel {
                    subs: text::joined(subs_for(rows, s[i].name), ","@),
                    ..s[i]
                }
            },
    )
}

pub open spec fn pairs_of(v: Seq<(String, String)>) -> Seq<(Seq<char>, Seq<char>)> {
    Seq::new(v.len(), |i: int| (v[i].0@, v[i].1@))
}

/// The categories with the one at `i` set to `c`.
pub open spec fn with_row(l: LedgerModel, i: int, c: CategoryModel) -> LedgerModel {
    LedgerModel { categories: l.categories.update(i, c), ..l }
}

/// What renaming a category or giving it another type answers.
pub open spec fn rename_answer(
    l: LedgerModel,
    old_name: Seq<char>,
    new_name: Seq<char>,
    ctype: Option<Seq<char>>,
) -> (bool, Seq<char>) {
    let name = text::trimmed(new_name);
    if old_name == new_name && ctype is None {
        (false, "没有需要修改的内容"@)
    } else if name.len() == 0 {
        (false, "分类名不能为空"@)
    } else if name != old_name && has_category(l.categories, name) {
        (false, "分类 ["@ + name + "] 已存在"@)
    } else if !has_category(l.categories, old_name) {
        (false, "分类 ["@ + old_name + "] 不存在"@)
    } else {
        (true, "更新成功"@)
    }
}

/// The entries with a category of a new name.
pub open spec fn recategorised(
    s: Seq<ExpenseModel>,
    old_name: Seq<char>,
    new_name: Seq<char>,
) -> Seq<ExpenseModel> {
    Seq::new(
        s.len(),
        |i: int|
            if s[i].category == Some(old_name) {
                ExpenseModel { category: Some(new_name), ..s[i] }
            } else {
                s[i]
            },
    )
}

/// The ledger with a category renamed, the entries with it, and its type changed where one
/// is given.
pub open spec fn renamed(
    l: LedgerModel,
    old_name: Seq<char>,
    new_name: Seq<char>,
    ctype: Option<Seq<char>>,
) -> LedgerModel {
    let i = category_at(l.categories, old_name);
    let name = text::trimmed(new_name);
    let c = l.categories[i];
    LedgerModel {
        categories: l.categories.update(
            i,
            CategoryModel {
                name,
                ctype: match ctype {
                    Some(t) => t,
                    None => c.ctype,
                },
                ..c
            },
        ),
        expenses: recategorised(l.expenses, old_name, name),
        ..l
    }
}

/// What adding a subcategory answers.
pub open spec fn add_sub_answer(l: LedgerModel, category: Seq<char>, sub: Seq<char>) -> (
    bool,
    Seq<char>,
) {
    let name = text::trimmed(sub);
    if name.len() == 0 {
        (false, "子分类名不能为空"@)
    } else if name.contains(',') {
        (
            false,
            "子分类名里不能带逗号：逗号是 subs 列的内部分隔符，\"a,b\" 会被存成两个子分类"@,
        )
    } else if subs_of(subs_text(l.categories, category)).contains(name) {
        (false, "子分类 ["@ + name + "] 在 ["@ + category + "] 下已存在"@)
    } else if !has_category(l.categories, category) {
        (false, "分类 ["@ + category + "] 不存在"@)
    } else {
        (true, "添加成功"@)
    }
}

/// What renaming a subcategory answers.
pub open spec fn rename_sub_answer(
    l: LedgerModel,
    category: Seq<char>,
    old_sub: Seq<char>,
    new_sub: Seq<char>,
) -> (bool, Seq<char>) {
    let name = text::trimmed(new_sub);
    let subs = subs_of(subs_text(l.categories, category));
    if name.len() == 0 {
        (false, "子分类名不能为空"@)
    } else if old_sub == name {
        (false, "没有需要修改的内容"@)
    } else if name.contains(',') {
        (false, "子分类名里不能带逗号：逗号是 subs 列的内部分隔符"@)
    } else if subs.contains(name) {
        (false, "子分类 ["@ + name + "] 在 ["@ + category + "] 下已存在"@)
    } else if !subs.contains(old_sub) {
        (false, "子分类 ["@ + old_sub + "] 不存在"@)
    } else {
        (true, "更新成功"@)
    }
}

/// The first place of a name in a list.
pub open spec fn first_at(list: Seq<Seq<char>>, name: Seq<char>, from: int) -> int
    decreases list.len() - from,
{
    if from >= list.len() || list[from] == name {
        from
    } else {
        first_at(list, name, from + 1)
    }
}

/// The entries of a category with a subcategory of a new name.
pub open spec fn resubbed(
    s: Seq<ExpenseModel>,
    category: Seq<char>,
    old_sub: Seq<char>,
    new_sub: Seq<char>,
) -> Seq<ExpenseModel> {
    Seq::new(
        s.len(),
        |i: int|
            if s[i].category == Some(category) && s[i].subcategory == Some(old_sub) {
                ExpenseModel { subcategory: Some(new_sub), ..s[i] }
            } else {
                s[i]
            },
    )
}

/// The ledger with a subcategory renamed, and the entries with it.
pub open spec fn renamed_sub(
    l: LedgerModel,
    category: Seq<char>,
    old_sub: Seq<char>,
    new_sub: Seq<char>,
) -> LedgerModel {
    let i = category_at(l.categories, category);
    let c = l.categories[i];
    let subs = subs_of(c.subs);
    let name = text::trimmed(new_sub);
    LedgerModel {
        categories: l.categories.update(
            i,
            CategoryModel {
                subs: text::joined(subs.update(first_at(subs, old_sub, 0), name), ","@),
                ..c
            },
        ),
        expenses: resubbed(l.expenses, category, old_sub, name),
        ..l
    }
}

/// The names in a list that differ from `name`.
pub open spec fn others(list: Seq<Seq<char>>, name: Seq<char>) -> Seq<Seq<char>>
    decreases list.len(),
{
    if list.len() == 0 {
        list
    } else {
        let r = others(list.drop_last(), name);
        if list.last() == name {
            r
        } else {
            r.push(list.last())
        }
    }
}

proof fn lemma_others(list: Seq<Seq<char>>, name: Seq<char>)
    ensures
        others(list, name).len() <= list.len(),
        others(list, name).len() == list.len() <==> !list.contains(name),
    decreases list.len(),
{
    if list.len() > 0 {
        let t = list.drop_last();
        lemma_others(t, name);
        assert(list.last() == list[list.len() - 1]);
        if t.contains(name) {
            let i = choose|i: int| 0 <= i < t.len() && t[i] == name;
            assert(list[i] == name);
        }
        if list.contains(name) {
            let i = choose|i: int| 0 <= i < list.len() && list[i] == name;
            if i < t.len() {
                assert(t[i] == name);
            }
        }
    }
}

pub proof fn lemma_update_category(s: Seq<CategoryModel>, last: int, i: int, c: CategoryModel)
    requires
        categories_ok(s, last),
        0 <= i < s.len(),
        c.id == s[i].id,
        c.name == s[i].name || !has_category(s, c.name),
    ensures
        categories_ok(s.update(i, c), last),
{
    let u = s.update(i, c);
    assert forall|a: int| 0 <= a < u.len() implies (#[trigger] u[a]).id <= last by {
        assert(s[a].id <= last);
    }
    assert forall|a: int, b: int| 0 <= a < b < u.len() implies (#[trigger] u[a]).name != (
    #[trigger] u[b]).name && u[a].id < u[b].id by {
        assert(s[a].name != s[b].name);
        if c.name != s[i].name {
            assert(s[a].name != c.name);
            assert(s[b].name != c.name);
        }
    }
}

impl Ledger {
    /// Adds a category and gives its id; that of the one there is where the name is taken.
    /// The name is trimmed; a blank one is refused with -1.
    pub fn add_category(&mut self, name: &str, ctype: &str, subs: &Vec<String>) -> (r: i64)
        requires
            old(self).wf(),
            old(self).last_category < i64::MAX,
        ensures
            final(self).wf(),
            ({
                let n = text::trimmed(name@);
                if n.len() == 0 {
                    r == -1 && final(self)@ == old(self)@
                } else {
                    &&& final(self)@ == with_category(
                        old(self)@,
                        n,
                        ctype@,
                        text::joined(text::views(subs@), ","@),
                    )
                    &&& has_category(final(self)@.categories, n)
                    &&& r == final(self)@.categories[category_at(final(self)@.categories, n)].id
                }
            }),
    {
        let n = trim(name);
        proof {
            reveal_strlit("");
            if n@.len() == 0 {
                assert(n@ =~= ""@);
            }
        }
        if str_eq(n.as_str(), "") {
            return -1;
        }
        let text = join(subs, ",");
        self.insert_category(n.as_str(), ctype, text.as_str())
    }

    fn insert_category(&mut self, name: &str, ctype: &str, subs: &str) -> (r: i64)
        requires
            old(self).wf(),
            old(self).last_category < i64::MAX,
        ensures
            final(self).wf(),
            final(self)@ == with_category(old(self)@, name@, ctype@, subs@),
            has_category(final(self)@.categories, name@),
            r == final(self)@.categories[category_at(final(self)@.categories, name@)].id,
    {
        let ghost l = self@;
        let i = self.find_category(name);
        if i < self.categories.len() {
            return self.categories[i].id;
        }
        let id: i64 = self.last_category + 1;
        self.last_category = id;
        self.categories.push(
            CategoryRow {
                id,
                name: name.to_owned(),
                ctype: ctype.to_owned(),
                subs: subs.to_owned(),
            },
        );
        proof {
            let s = self@.categories;
            assert(s =~= l.categories.push(
                CategoryModel { id: id as int, name: name@, ctype: ctype@, subs: subs@ },
            ));
            assert(self@ =~= with_category(l, name@, ctype@, subs@));
            assert forall|a: int, b: int| 0 <= a < b < s.len() implies (#[trigger] s[a]).name != (
            #[trigger] s[b]).name && s[a].id < s[b].id by {
                assert(s[a] == l.categories[a]);
                if b < l.categories.len() {
                    assert(s[b] == l.categories[b]);
                }
            }
            assert forall|a: int| 0 <= a < s.len() implies (#[trigger] s[a]).id <= id by {
                if a < l.categories.len() {
                    assert(s[a] == l.categories[a]);
                }
            }
            assert(s[i as int].name == name@);
            let k = category_at(s, name@);
            if k < i {
                assert(s[k].name != s[i as int].name);
            }
        }
        id
    }

    /// Gives a ledger without categories the usual ones.
    pub fn init_db(&mut self)
        requires
            old(self).wf(),
            old(self).last_category < i64::MAX - 13,
        ensures
            final(self).wf(),
            final(self)@ == initialised(old(self)@),
    {
        let ghost l = self@;
        if self.categories.len() > 0 {
            return;
        }
        let rows = default_categories();
        let ghost d = rows_of(rows@);
        let mut i: usize = 0;
        assert(d.take(0) =~= Seq::empty());
        assert(d.len() == 13);
        while i < rows.len()
            invariant
                i <= rows.len(),
                d == rows_of(rows@),
                d.len() == 13,
                self.wf(),
                self@ == with_categories(l, d.take(i as int)),
                self.last_category <= l.last_category + i,
                l.last_category < i64::MAX - 13,
            decreases rows.len() - i,
        {
            proof {
                let t1 = d.take(i as int + 1);
                assert(t1.drop_last() =~= d.take(i as int));
                assert(t1.last() == d[i as int]);
            }
            let _id = self.insert_category(
                rows[i].0.as_str(),
                rows[i].1.as_str(),
                rows[i].2.as_str(),
            );
            i = i + 1;
        }
        assert(d.take(i as int) =~= d);
    }

    /// Takes over subcategories that an older ledger kept apart, as pairs of a category and
    /// a subcategory.
    pub fn take_over_subcategories(&mut self, rows: &Vec<(String, String)>)
        requires
            old(self).wf(),
        ensures
            final(self).wf(),
            final(self)@ == (LedgerModel {
                categories: with_subs(old(self)@.categories, pairs_of(rows@)),
                ..old(self)@
            }),
    {
        let ghost l = self@;
        let ghost p = pairs_of(rows@);
        let mut i: usize = 0;
        while i < self.categories.len()
            invariant
                i <= self.categories.len(),
                p == pairs_of(rows@),
                self.wf(),
                l.categories.len() == self.categories@.len(),
                self@.expenses == l.expenses,
                self@.last_expense == l.last_expense,
                self@.last_category == l.last_category,
                forall|k: int|
                    0 <= k < i ==> #[trigger] self@.categories[k] == with_subs(l.categories, p)[k],
                forall|k: int|
                    i <= k < l.categories.len() ==> #[trigger] self@.categories[k]
                        == l.categories[k],
            decreases self.categories.len() - i,
        {
            let ghost c0 = self@.categories;
            assert(c0[i as int] == l.categories[i as int]);
            let mut list: Vec<String> = Vec::new();
            let mut j: usize = 0;
            assert(text::views(list@) =~= subs_for(p.take(0), c0[i as int].name));
            while j < rows.len()
                invariant
                    i < self.categories.len(),
                    j <= rows.len(),
                    p == pairs_of(rows@),
                    self@.categories == c0,
                    text::views(list@) == subs_for(p.take(j as int), c0[i as int].name),
                decreases rows.len() - j,
            {
                let ghost before = list@;
                proof {
                    let t1 = p.take(j as int + 1);
                    assert(t1.drop_last() =~= p.take(j as int));
                    assert(t1.last() == p[j as int]);
                    assert(c0[i as int].name == self.categories@[i as int].name@);
                }
                if str_eq(rows[j].0.as_str(), self.categories[i].name.as_str()) {
                    list.push(rows[j].1.clone());
                    assert(text::views(list@) =~= text::views(before).push(p[j as int].1));
                }
                j = j + 1;
            }
            assert(p.take(j as int) =~= p);
            if list.len() > 0 {
                let c = &self.categories[i];
                let row = CategoryRow {
                    id: c.id,
                    name: c.name.clone(),
                    ctype: c.ctype.clone(),
                    subs: join(&list, ","),
                };
                let ghost rv = row@;
                self.categories[i] = row;
                proof {
                    assert(text::views(list@).len() == list@.len());
                    assert(self@.categories =~= c0.update(i as int, rv));
                    lemma_update_category(c0, self@.last_category, i as int, rv);
                }
            } else {
                assert(text::views(list@).len() == 0);
            }
            i = i + 1;
        }
        assert(self@.categories =~= with_subs(l.categories, p));
    }

    fn set_subs(&mut self, i: usize, subs: String)
        requires
            old(self).wf(),
            i < old(self)@.categories.len(),
        ensures
            final(self).wf(),
            final(self)@ == with_row(
                old(self)@,
                i as int,
                (CategoryModel { subs: subs@, ..old(self)@.categories[i as int] }),
            ),
    {
        let ghost l = self@;
        let c = &self.categories[i];
        let row = CategoryRow { id: c.id, name: c.name.clone(), ctype: c.ctype.clone(), subs };
        let ghost rv = row@;
        self.categories[i] = row;
        proof {
            assert(rv == (CategoryModel { subs: subs@, ..l.categories[i as int] }));
            assert(self@.categories =~= l.categories.update(i as int, rv));
            lemma_update_category(l.categories, self@.last_category, i as int, rv);
            assert(self@ =~= with_row(l, i as int, rv));
        }
    }

    /// Renames a category, and with it the entries, and gives it another type where one is
    /// given. Answers whether it did, and why not.
    pub fn update_category(&mut self, old_name: &str, new_name: &str, ctype: Option<&str>) -> (r: (
        bool,
        String,
    ))
        requires
            old(self).wf(),
        ensures
            final(self).wf(),
            (r.0, r.1@) == rename_answer(old(self)@, old_name@, new_name@, text::opt_str(ctype)),
            final(self)@ == (if r.0 {
                renamed(old(self)@, old_name@, new_name@, text::opt_str(ctype))
            } else {
                old(self)@
            }),
    {
        let ghost l = self@;
        if str_eq(old_name, new_name) && ctype.is_none() {
            return (false, "没有需要修改的内容".to_owned());
        }
        let name = trim(new_name);
        proof {
            reveal_strlit("");
            if name@.len() == 0 {
                assert(name@ =~= ""@);
            }
        }
        if str_eq(name.as_str(), "") {
            return (false, "分类名不能为空".to_owned());
        }
        let taken = self.find_category(name.as_str());
        if !str_eq(name.as_str(), old_name) && taken < self.categories.len() {
            let m = "分类 [".to_owned().concat(name.as_str()).concat("] 已存在");
            return (false, m);
        }
        let i = self.find_category(old_name);
        if i == self.categories.len() {
            let m = "分类 [".to_owned().concat(old_name).concat("] 不存在");
            return (false, m);
        }
        let c = &self.categories[i];
        let row = CategoryRow {
            id: c.id,
            name: name.clone(),
            ctype: match ctype {
                Some(t) => t.to_owned(),
                None => c.ctype.clone(),
            },
            subs: c.subs.clone(),
        };
        let ghost rv = row@;
        self.categories[i] = row;
        proof {
            assert(self@.categories =~= l.categories.update(i as int, rv));
            lemma_update_category(l.categories, self@.last_category, i as int, rv);
        }
        self.recategorise(old_name, name.as_str());
        assert(self@ =~= renamed(l, old_name@, new_name@, text::opt_str(ctype)));
        (true, "更新成功".to_owned())
    }

    fn recategorise(&mut self, old_name: &str, new_name: &str)
        requires
            old(self).wf(),
        ensures
            final(self).wf(),
            final(self)@ == (LedgerModel {
                expenses: recategorised(old(self)@.expenses, old_name@, new_name@),
                ..old(self)@
            }),
    {
        let ghost l = self@;
        let mut i: usize = 0;
        while i < self.expenses.len()
            invariant
                i <= self.expenses.len(),
                self@.categories == l.categories,
                self@.last_expense == l.last_expense,
                self@.last_category == l.last_category,
                self.wf(),
                self@.expenses.len() == l.expenses.len(),
                forall|k: int|
                    0 <= k < i ==> #[trigger] self@.expenses[k] == recategorised(
                        l.expenses,
                        old_name@,
                        new_name@,
                    )[k],
                forall|k: int|
                    i <= k < l.expenses.len() ==> #[trigger] self@.expenses[k] == l.expenses[k],
            decreases self.expenses.len() - i,
        {
            let ghost e0 = self@.expenses;
            assert(e0[i as int] == l.expenses[i as int]);
            let hit = match &self.expenses[i].category {
                Some(c) => str_eq(c.as_str(), old_name),
                None => false,
            };
            if hit {
                let mut e = self.expenses[i].dup();
                e.category = Some(new_name.to_owned());
                let ghost ev = e@;
                self.expenses[i] = e;
                proof {
                    assert(self@.expenses =~= e0.update(i as int, ev));
                    lemma_same_ids(e0, self@.expenses, self@.last_expense);
                }
            }
            i = i + 1;
        }
        assert(self@.expenses =~= recategorised(l.expenses, old_name@, new_name@));
        assert(self@ =~= (LedgerModel {
            expenses: recategorised(l.expenses, old_name@, new_name@),
            ..l
        }));
    }

    /// Removes a category; the entries keep its name. Answers whether it did, and why not.
    pub fn delete_category(&mut self, name: &str) -> (r: (bool, String))
        requires
            old(self).wf(),
        ensures
            final(self).wf(),
            has_category(old(self)@.categories, name@) ==> r.0 && r.1@ == "删除成功"@
                && final(self)@ == (LedgerModel {
                categories: old(self)@.categories.remove(
                    category_at(old(self)@.categories, name@),
                ),
                ..old(self)@
            }),
            !has_category(old(self)@.categories, name@) ==> !r.0 && r.1@ == "分类 ["@ + name@
                + "] 不存在"@ && final(self)@ == old(self)@,
    {
        let ghost l = self@;
        let i = self.find_category(name);
        if i == self.categories.len() {
            let m = "分类 [".to_owned().concat(name).concat("] 不存在");
            return (false, m);
        }
        let _gone = self.categories.remove(i);
        proof {
            let s = self@.categories;
            assert(s =~= l.categories.remove(i as int));
            assert forall|a: int, b: int| 0 <= a < b < s.len() implies (#[trigger] s[a]).name != (
            #[trigger] s[b]).name && s[a].id < s[b].id by {
                let x = if a < i {
                    a
                } else {
                    a + 1
                };
                let y = if b < i {
                    b
                } else {
                    b + 1
                };
                assert(s[a] == l.categories[x] && s[b] == l.categories[y]);
            }
            assert forall|a: int| 0 <= a < s.len() implies (#[trigger] s[a]).id
                <= l.last_category by {
                assert(s[a] == l.categories[if a < i { a } else { a + 1 }]);
            }
        }
        (true, "删除成功".to_owned())
    }

    /// Gives a category another type. Tells whether there is such a category.
    pub fn update_category_type(&mut self, name: &str, ctype: &str) -> (r: bool)
        requires
            old(self).wf(),
        ensures
            final(self).wf(),
            r == has_category(old(self)@.categories, name@),
            final(self)@ == (if r {
                with_row(
                    old(self)@,
                    category_at(old(self)@.categories, name@),
                    (CategoryModel {
                        ctype: ctype@,
                        ..old(self)@.categories[category_at(old(self)@.categories, name@)]
                    }),
                )
            } else {
                old(self)@
            }),
    {
        let ghost l = self@;
        let i = self.find_category(name);
        if i == self.categories.len() {
            return false;
        }
        let c = &self.categories[i];
        let row = CategoryRow {
            id: c.id,
            name: c.name.clone(),
            ctype: ctype.to_owned(),
            subs: c.subs.clone(),
        };
        let ghost rv = row@;
        self.categories[i] = row;
        proof {
            assert(self@.categories =~= l.categories.update(i as int, rv));
            lemma_update_category(l.categories, self@.last_category, i as int, rv);
            assert(self@ =~= with_row(l, i as int, rv));
        }
        true
    }

    fn read_subs(&self, category: &str) -> (r: Vec<String>)
        requires
            self.wf(),
        ensures
            text::views(r@) == subs_of(subs_text(self@.categories, category@)),
    {
        let i = self.find_category(category);
        if i < self.categories.len() {
            assert(self@.categories[i as int].subs == self.categories@[i as int].subs@);
            parse_subs(self.categories[i].subs.as_str())
        } else {
            proof {
                reveal_strlit("");
                assert(""@ =~= Seq::<char>::empty());
            }
            parse_subs("")
        }
    }

    /// Adds a subcategory to a category. Answers whether it did, and why not.
    pub fn add_subcategory(&mut self, category: &str, sub_name: &str) -> (r: (bool, String))
        requires
            old(self).wf(),
        ensures
            final(self).wf(),
            (r.0, r.1@) == add_sub_answer(old(self)@, category@, sub_name@),
            final(self)@ == (if r.0 {
                with_row(
                    old(self)@,
                    category_at(old(self)@.categories, category@),
                    (CategoryModel {
                        subs: text::joined(
                            subs_of(subs_text(old(self)@.categories, category@)).push(
                                text::trimmed(sub_name@),
                            ),
                            ","@,
                        ),
                        ..old(self)@.categories[category_at(old(self)@.categories, category@)]
                    }),
                )
            } else {
                old(self)@
            }),
    {
        let ghost l = self@;
        let name = trim(sub_name);
        proof {
            reveal_strlit("");
            if name@.len() == 0 {
                assert(name@ =~= ""@);
            }
        }
        if str_eq(name.as_str(), "") {
            return (false, "子分类名不能为空".to_owned());
        }
        if contains_char(name.as_str(), ',') {
            return (
                false,
                "子分类名里不能带逗号：逗号是 subs 列的内部分隔符，\"a,b\" 会被存成两个子分类".to_owned(),
            );
        }
        let mut subs = self.read_subs(category);
        let ghost old_subs = text::views(subs@);
        if let Some(k) = position(&subs, name.as_str()) {
            assert(old_subs[k as int] == name@);
            let m = "子分类 [".to_owned().concat(name.as_str()).concat("] 在 [").concat(
                category,
            ).concat("] 下已存在");
            return (false, m);
        }
        let i = self.find_category(category);
        if i == self.categories.len() {
            let m = "分类 [".to_owned().concat(category).concat("] 不存在");
            return (false, m);
        }
        subs.push(name.clone());
        assert(text::views(subs@) =~= old_subs.push(name@));
        let t = join(&subs, ",");
        self.set_subs(i, t);
        (true, "添加成功".to_owned())
    }

    /// Renames a subcategory, and with it the entries. Answers whether it did, and why not.
    pub fn update_subcategory(&mut self, category: &str, old_sub: &str, new_sub: &str) -> (r: (
        bool,
        String,
    ))
        requires
            old(self).wf(),
        ensures
            final(self).wf(),
            (r.0, r.1@) == rename_sub_answer(old(self)@, category@, old_sub@, new_sub@),
            final(self)@ == (if r.0 {
                renamed_sub(old(self)@, category@, old_sub@, new_sub@)
            } else {
                old(self)@
            }),
    {
        let ghost l = self@;
        let name = trim(new_sub);
        proof {
            reveal_strlit("");
            if name@.len() == 0 {
                assert(name@ =~= ""@);
            }
        }
        if str_eq(name.as_str(), "") {
            return (false, "子分类名不能为空".to_owned());
        }
        if str_eq(old_sub, name.as_str()) {
            return (false, "没有需要修改的内容".to_owned());
        }
        if contains_char(name.as_str(), ',') {
            return (false, "子分类名里不能带逗号：逗号是 subs 列的内部分隔符".to_owned());
        }
        let mut subs = self.read_subs(category);
        let ghost list = text::views(subs@);
        if let Some(k) = position(&subs, name.as_str()) {
            assert(list[k as int] == name@);
            let m = "子分类 [".to_owned().concat(name.as_str()).concat("] 在 [").concat(
                category,
            ).concat("] 下已存在");
            return (false, m);
        }
        match position(&subs, old_sub) {
            None => {
                let m = "子分类 [".to_owned().concat(old_sub).concat("] 不存在");
                (false, m)
            },
            Some(k) => {
                proof {
                    assert(list[k as int] == old_sub@);
                    lemma_first_at(list, old_sub@, k as int, 0);
                }
                let i = self.find_category(category);
                if i == self.categories.len() {
                    proof {
                        lemma_no_subs();
                        assert(false);
                    }
                }
                subs[k] = name.clone();
                assert(text::views(subs@) =~= list.update(k as int, name@));
                let t = join(&subs, ",");
                self.set_subs(i, t);
                self.resub(category, old_sub, name.as_str());
                assert(self@ =~= renamed_sub(l, category@, old_sub@, new_sub@));
                (true, "更新成功".to_owned())
            },
        }
    }

    fn resub(&mut self, category: &str, old_sub: &str, new_sub: &str)
        requires
            old(self).wf(),
        ensures
            final(self).wf(),
            final(self)@ == (LedgerModel {
                expenses: resubbed(old(self)@.expenses, category@, old_sub@, new_sub@),
                ..old(self)@
            }),
    {
        let ghost l = self@;
        let mut i: usize = 0;
        while i < self.expenses.len()
            invariant
                i <= self.expenses.len(),
                self@.categories == l.categories,
                self@.last_expense == l.last_expense,
                self@.last_category == l.last_category,
                self.wf(),
                self@.expenses.len() == l.expenses.len(),
                forall|k: int|
                    0 <= k < i ==> #[trigger] self@.expenses[k] == resubbed(
                        l.expenses,
                        category@,
                        old_sub@,
                        new_sub@,
                    )[k],
                forall|k: int|
                    i <= k < l.expenses.len() ==> #[trigger] self@.expenses[k] == l.expenses[k],
            decreases self.expenses.len() - i,
        {
            let ghost e0 = self@.expenses;
            assert(e0[i as int] == l.expenses[i as int]);
            let same = match &self.expenses[i].category {
                Some(c) => str_eq(c.as_str(), category),
                None => false,
            };
            let hit = match &self.expenses[i].subcategory {
                Some(c) => same && str_eq(c.as_str(), old_sub),
                None => false,
            };
            if hit {
                let mut e = self.expenses[i].dup();
                e.subcategory = Some(new_sub.to_owned());
                let ghost ev = e@;
                self.expenses[i] = e;
                proof {
                    assert(self@.expenses =~= e0.update(i as int, ev));
                    lemma_same_ids(e0, self@.expenses, self@.last_expense);
                }
            }
            i = i + 1;
        }
        assert(self@.expenses =~= resubbed(l.expenses, category@, old_sub@, new_sub@));
        assert(self@ =~= (LedgerModel {
            expenses: resubbed(l.expenses, category@, old_sub@, new_sub@),
            ..l
        }));
    }

    /// Removes a subcategory from a category. Answers whether it did, and why not.
    pub fn delete_subcategory(&mut self, category: &str, sub_name: &str) -> (r: (bool, String))
        requires
            old(self).wf(),
        ensures
            final(self).wf(),
            ({
                let subs = subs_of(subs_text(old(self)@.categories, category@));
                if subs.contains(sub_name@) {
                    &&& r.0
                    &&& r.1@ == "删除成功"@
                    &&& final(self)@ == with_row(
                        old(self)@,
                        category_at(old(self)@.categories, category@),
                        (CategoryModel {
                            subs: text::joined(others(subs, sub_name@), ","@),
                            ..old(self)@.categories[category_at(
                                old(self)@.categories,
                                category@,
                            )]
                        }),
                    )
                } else {
                    &&& !r.0
                    &&& r.1@ == "子分类 ["@ + sub_name@ + "] 不存在"@
                    &&& final(self)@ == old(self)@
                }
            }),
    {
        let all = self.read_subs(category);
        let ghost list = text::views(all@);
        let mut left: Vec<String> = Vec::new();
        let mut i: usize = 0;
        assert(text::views(left@) =~= others(list.take(0), sub_name@));
        while i < all.len()
            invariant
                i <= all.len(),
                list == text::views(all@),
                text::views(left@) == others(list.take(i as int), sub_name@),
            decreases all.len() - i,
        {
            let ghost before = left@;
            proof {
                let t1 = list.take(i as int + 1);
                assert(t1.drop_last() =~= list.take(i as int));
                assert(t1.last() == all@[i as int]@);
            }
            if !str_eq(all[i].as_str(), sub_name) {
                left.push(all[i].clone());
                assert(text::views(left@) =~= text::views(before).push(all@[i as int]@));
            }
            i = i + 1;
        }
        proof {
            assert(list.take(i as int) =~= list);
            lemma_others(list, sub_name@);
            assert(text::views(left@).len() == left@.len());
        }
        if left.len() == all.len() {
            let m = "子分类 [".to_owned().concat(sub_name).concat("] 不存在");
            return (false, m);
        }
        let at = self.find_category(category);
        if at == self.categories.len() {
            proof {
                lemma_no_subs();
                assert(false);
            }
        }
        let t = join(&left, ",");
        self.set_subs(at, t);
        (true, "删除成功".to_owned())
    }

    /// The type of a category.
    pub fn category_type(&self, name: &str) -> (r: Option<String>)
        requires
            self.wf(),
        ensures
            text::opt_text(r) == (if has_category(self@.categories, name@) {
                Some(self@.categories[category_at(self@.categories, name@)].ctype)
            } else {
                None
            }),
    {
        let i = self.find_category(name);
        if i < self.categories.len() {
            assert(self@.categories[i as int].ctype == self.categories@[i as int].ctype@);
            Some(self.categories[i].ctype.clone())
        } else {
            None
        }
    }

    /// All categories by id, which is the order in which they came in.
    pub fn get_all_categories(&self) -> (r: Vec<Category>)
        requires
            self.wf(),
        ensures
            forall|i: int, j: int|
                0 <= i < j < r@.len() ==> (#[trigger] r@[i]).id < (#[trigger] r@[j]).id,
            r@.len() == self@.categories.len(),
            forall|i: int|
                #![trigger r@[i]]
                0 <= i < r@.len() ==> r@[i].id == self@.categories[i].id && r@[i].name@
                    == self@.categories[i].name && r@[i].ctype@ == self@.categories[i].ctype
                    && text::views(r@[i].subs@) == subs_of(self@.categories[i].subs),
    {
        let mut out: Vec<Category> = Vec::new();
        let mut i: usize = 0;
        while i < self.categories.len()
            invariant
                i <= self.categories.len(),
                out@.len() == i,
                forall|k: int|
                    #![trigger out@[k]]
                    0 <= k < i ==> out@[k].id == self@.categories[k].id && out@[k].name@
                        == self@.categories[k].name && out@[k].ctype@ == self@.categories[k].ctype
                        && text::views(out@[k].subs@) == subs_of(self@.categories[k].subs),
            decreases self.categories.len() - i,
        {
            let c = &self.categories[i];
            out.push(
                Category {
                    id: c.id,
                    name: c.name.clone(),
                    ctype: c.ctype.clone(),
                    subs: parse_subs(c.subs.as_str()),
                },
            );
            i = i + 1;
        }
        out
    }
}

pub proof fn lemma_no_subs()
    ensures
        subs_of(Seq::empty()).len() == 0,
{
    let e = Seq::<char>::empty();
    let p = text::split_on(e, ',');
    assert(p =~= seq![e]);
    assert(p.last() == e);
    text::lemma_trimmed_idempotent(e);
    assert(!is_sub(text::trimmed(e)));
    assert(p.drop_last() =~= Seq::empty());
    assert(subs_in(p.drop_last()) =~= Seq::empty());
}

pub proof fn lemma_first_at(list: Seq<Seq<char>>, name: Seq<char>, k: int, from: int)
    requires
        0 <= from <= k < list.len(),
        list[k] == name,
        forall|j: int| from <= j < k ==> #[trigger] list[j] != name,
    ensures
        first_at(list, name, from) == k,
    decreases k - from,
{
    if from < k {
        lemma_first_at(list, name, k, from + 1);
    }
}

proof fn lemma_same_ids(a: Seq<ExpenseModel>, b: Seq<ExpenseModel>, last: int)
    requires
        expenses_ok(a, last),
        a.len() == b.len(),
        forall|i: int| 0 <= i < a.len() ==> (#[trigger] b[i]).id == a[i].id,
    ensures
        expenses_ok(b, last),
{
    assert forall|i: int, j: int| 0 <= i < j < b.len() implies (#[trigger] b[i]).id != (
    #[trigger] b[j]).id by {
        assert(a[i].id != a[j].id);
    }
}

// ---------------------------------------------------------------------------- entries

/// The ledger with one more entry, under the next id.
pub open spec fn with_entry(l: LedgerModel, e: ExpenseModel) -> LedgerModel {
    LedgerModel {
        expenses: l.expenses.push(ExpenseModel { id: l.last_expense + 1, ..e }),
        last_expense: l.last_expense + 1,
        ..l
    }
}

/// The entry `was` with what `e` says of it; the id, the delivery date and the time of
/// record stay.
pub open spec fn edited(was: ExpenseModel, e: ExpenseModel) -> ExpenseModel {
    ExpenseModel {
        id: was.id,
        delivery_date: was.delivery_date,
        record_time: was.record_time,
        category: named(e.category),
        subcategory: named(e.subcategory),
        ..e
    }
}

/// Whether there is an entry of an id.
pub open spec fn has_entry(s: Seq<ExpenseModel>, id: int) -> bool {
    exists|i: int| 0 <= i < s.len() && (#[trigger] s[i]).id == id
}

/// The index of the entry of an id.
pub open spec fn entry_at(s: Seq<ExpenseModel>, id: int) -> int {
    choose|i: int| 0 <= i < s.len() && (#[trigger] s[i]).id == id
}

pub proof fn lemma_entry_at(s: Seq<ExpenseModel>, last: int, i: int)
    requires
        expenses_ok(s, last),
        0 <= i < s.len(),
    ensures
        has_entry(s, s[i].id),
        entry_at(s, s[i].id) == i,
{
    let k = entry_at(s, s[i].id);
    assert(s[k].id == s[i].id);
    if k < i {
        assert(s[k].id != s[i].id);
    }
    if i < k {
        assert(s[i].id != s[k].id);
    }
}

/// The entries for which `keep` holds.
pub open spec fn picked(
    s: Seq<ExpenseModel>,
    keep: spec_fn(ExpenseModel) -> bool,
) -> Seq<ExpenseModel>
    decreases s.len(),
{
    if s.len() == 0 {
        s
    } else {
        let r = picked(s.drop_last(), keep);
        if keep(s.last()) {
            r.push(s.last())
        } else {
            r
        }
    }
}

/// An entry among others that are listed by id, the last one first.
struct ById {
    e: Expense,
}

impl View for ById {
    type V = ExpenseModel;

    closed spec fn view(&self) -> ExpenseModel {
        self.e@
    }
}

/// Whether `a` came in after `b`.
pub open spec fn later_id(a: ExpenseModel, b: ExpenseModel) -> bool {
    a.id > b.id
}

impl Ranked for ById {
    open spec fn ahead(a: ExpenseModel, b: ExpenseModel) -> bool {
        later_id(a, b)
    }

    fn goes_ahead(&self, other: &Self) -> (r: bool) {
        self.e.id > other.e.id
    }
}

/// The entries by id, the last one first.
pub open spec fn newest_first(s: Seq<ExpenseModel>) -> Seq<ExpenseModel> {
    order::ranked(s, |a: ExpenseModel, b: ExpenseModel| later_id(a, b))
}

/// An entry among others that are listed by date, the latest first.
struct ByDate {
    e: Expense,
}

impl View for ByDate {
    type V = ExpenseModel;

    closed spec fn view(&self) -> ExpenseModel {
        self.e@
    }
}

/// Whether `a` has a later date than `b`, or the same date and came in after it.
pub open spec fn later_date(a: ExpenseModel, b: ExpenseModel) -> bool {
    if a.purchase_date == b.purchase_date {
        a.id > b.id
    } else {
        !text::lex_le(a.purchase_date, b.purchase_date)
    }
}

impl Ranked for ByDate {
    open spec fn ahead(a: ExpenseModel, b: ExpenseModel) -> bool {
        later_date(a, b)
    }

    fn goes_ahead(&self, other: &Self) -> (r: bool) {
        let a = self.e.purchase_date.as_str();
        let b = other.e.purchase_date.as_str();
        if str_eq(a, b) {
            self.e.id > other.e.id
        } else {
            !str_le(a, b)
        }
    }
}

/// The entries by date, the latest first.
pub open spec fn latest_first(s: Seq<ExpenseModel>) -> Seq<ExpenseModel> {
    order::ranked(s, |a: ExpenseModel, b: ExpenseModel| later_date(a, b))
}

fn bare_by_id(items: Vec<ById>) -> (r: Vec<Expense>)
    ensures
        order::seen(r@) == order::seen(items@),
{
    let mut out: Vec<Expense> = Vec::new();
    let mut i: usize = 0;
    while i < items.len()
        invariant
            i <= items.len(),
            out@.len() == i,
            forall|k: int| 0 <= k < i ==> (#[trigger] out@[k])@ == items@[k]@,
        decreases items.len() - i,
    {
        out.push(items[i].e.dup());
        i = i + 1;
    }
    assert(order::seen(out@) =~= order::seen(items@));
    out
}

/// The entries from index `from` on, `n` at most.
pub open spec fn slice(s: Seq<ExpenseModel>, from: int, n: int) -> Seq<ExpenseModel> {
    if from >= s.len() {
        Seq::empty()
    } else if from + n >= s.len() {
        s.skip(from)
    } else {
        s.subrange(from, from + n)
    }
}

fn bare_by_date(items: &Vec<ByDate>, from: usize, n: usize) -> (r: Vec<Expense>)
    ensures
        order::seen(r@) == slice(order::seen(items@), from as int, n as int),
{
    let ghost s = order::seen(items@);
    let mut out: Vec<Expense> = Vec::new();
    let mut i: usize = 0;
    while i < n && from < items.len() && i < items.len() - from
        invariant
            i <= n,
            out@.len() == i,
            i == 0 || from + i <= items.len(),
            forall|k: int| 0 <= k < i ==> (#[trigger] out@[k])@ == items@[from + k]@,
        decreases n - i,
    {
        out.push(items[from + i].e.dup());
        i = i + 1;
    }
    assert(order::seen(out@) =~= slice(s, from as int, n as int));
    out
}

/// A text filter; none or an empty one lets everything through.
pub open spec fn no_filter(f: Option<Seq<char>>) -> bool {
    f is None || f->0.len() == 0
}

/// Whether `key` occurs in `t`, whatever the case of ASCII letters.
pub open spec fn mentions(t: Seq<char>, key: Seq<char>) -> bool {
    text::find_from(text::lowered(t), text::lowered(key), 0) >= 0
}

pub open spec fn may_mention(t: Option<Seq<char>>, key: Seq<char>) -> bool {
    t is Some && mentions(t->0, key)
}

/// Whether an entry passes the filters of a listing.
pub open spec fn passes(
    e: ExpenseModel,
    category: Option<Seq<char>>,
    subcategory: Option<Seq<char>>,
    keyword: Option<Seq<char>>,
    date_from: Option<Seq<char>>,
    date_to: Option<Seq<char>>,
) -> bool {
    &&& no_filter(category) || e.category == category
    &&& no_filter(subcategory) || e.subcategory == subcategory
    &&& no_filter(keyword) || mentions(e.item_name, keyword->0) || may_mention(
        e.category,
        keyword->0,
    ) || may_mention(e.subcategory, keyword->0) || may_mention(e.store, keyword->0) || may_mention(
        e.note,
        keyword->0,
    )
    &&& no_filter(date_from) || text::lex_le(date_from->0, e.purchase_date)
    &&& no_filter(date_to) || text::lex_le(e.purchase_date, date_to->0)
}

/// `v` within the bounds.
pub open spec fn within(v: int, lo: int, hi: int) -> int {
    if v < lo {
        lo
    } else if v > hi {
        hi
    } else {
        v
    }
}

fn is_empty_text(s: &str) -> (r: bool)
    ensures
        r == (s@.len() == 0),
{
    proof {
        reveal_strlit("");
        if s@.len() == 0 {
            assert(s@ =~= ""@);
        }
    }
    str_eq(s, "")
}

fn mentions_key(t: &str, key: &Vec<char>) -> (r: bool)
    ensures
        r == (text::find_from(text::lowered(t@), key@, 0) >= 0),
{
    let v = chars_of(to_lower(t).as_str());
    match vec_find(&v, key, 0) {
        Some(_) => true,
        None => false,
    }
}

fn may_mention_key(t: &Option<String>, key: &Vec<char>) -> (r: bool)
    ensures
        r == (text::opt_text(*t) is Some && text::find_from(
            text::lowered(text::opt_text(*t)->0),
            key@,
            0,
        ) >= 0),
{
    match t {
        Some(s) => mentions_key(s.as_str(), key),
        None => false,
    }
}

fn same_if_given(t: &Option<String>, f: Option<&str>) -> (r: bool)
    ensures
        r == (no_filter(text::opt_str(f)) || text::opt_text(*t) == text::opt_str(f)),
{
    match f {
        None => true,
        Some(f) => if is_empty_text(f) {
            true
        } else {
            match t {
                Some(s) => str_eq(s.as_str(), f),
                None => false,
            }
        },
    }
}

fn passes_filters(
    e: &Expense,
    category: Option<&str>,
    subcategory: Option<&str>,
    keyword: Option<&str>,
    date_from: Option<&str>,
    date_to: Option<&str>,
) -> (r: bool)
    ensures
        r == passes(
            e@,
            text::opt_str(category),
            text::opt_str(subcategory),
            text::opt_str(keyword),
            text::opt_str(date_from),
            text::opt_str(date_to),
        ),
{
    let named_so = same_if_given(&e.category, category) && same_if_given(
        &e.subcategory,
        subcategory,
    );
    let found = match keyword {
        None => true,
        Some(k) => if is_empty_text(k) {
            true
        } else {
            let key = chars_of(to_lower(k).as_str());
            mentions_key(e.item_name.as_str(), &key) || may_mention_key(&e.category, &key)
                || may_mention_key(&e.subcategory, &key) || may_mention_key(&e.store, &key)
                || may_mention_key(&e.note, &key)
        },
    };
    let after = match date_from {
        None => true,
        Some(f) => is_empty_text(f) || str_le(f, e.purchase_date.as_str()),
    };
    let before = match date_to {
        None => true,
        Some(t) => is_empty_text(t) || str_le(e.purchase_date.as_str(), t),
    };
    named_so && found && after && before
}

impl Ledger {
    /// Adds an entry and gives its id. A blank category or subcategory is none.
    pub fn add_expense(
        &mut self,
        rtype: &str,
        item_name: &str,
        store: Option<&str>,
        purchase_date: &str,
        amount: Amount,
        category: Option<&str>,
        subcategory: Option<&str>,
        note: Option<&str>,
        record_time: &str,
    ) -> (r: i64)
        requires
            old(self).wf(),
            old(self).last_expense < i64::MAX,
        ensures
            final(self).wf(),
            r == old(self)@.last_expense + 1,
            final(self)@ == with_entry(
                old(self)@,
                (ExpenseModel {
                    id: r as int,
                    rtype: rtype@,
                    item_name: item_name@,
                    store: text::opt_str(store),
                    purchase_date: purchase_date@,
                    amount,
                    category: named(text::opt_str(category)),
                    subcategory: named(text::opt_str(subcategory)),
                    delivery_date: None,
                    record_time: record_time@,
                    note: text::opt_str(note),
                }),
            ),
    {
        let ghost l = self@;
        let id: i64 = self.last_expense + 1;
        self.last_expense = id;
        let e = Expense {
            id,
            rtype: rtype.to_owned(),
            item_name: item_name.to_owned(),
            store: opt_own(store),
            purchase_date: purchase_date.to_owned(),
            amount,
            category: blank_to_none(category),
            subcategory: blank_to_none(subcategory),
            delivery_date: None,
            record_time: record_time.to_owned(),
            note: opt_own(note),
        };
        let ghost ev = e@;
        self.expenses.push(e);
        proof {
            let s = self@.expenses;
            assert(s =~= l.expenses.push(ev));
            assert forall|a: int, b: int| 0 <= a < b < s.len() implies (#[trigger] s[a]).id != (
            #[trigger] s[b]).id by {
                assert(s[a] == l.expenses[a]);
                if b < l.expenses.len() {
                    assert(s[b] == l.expenses[b]);
                }
            }
            assert forall|a: int| 0 <= a < s.len() implies (#[trigger] s[a]).id <= id by {
                if a < l.expenses.len() {
                    assert(s[a] == l.expenses[a]);
                }
            }
        }
        id
    }

    /// Changes the entry of an id to what `e` says. Tells whether there is such an entry.
    pub fn update_expense(&mut self, id: i64, e: &Expense) -> (r: bool)
        requires
            old(self).wf(),
        ensures
            final(self).wf(),
            r == has_entry(old(self)@.expenses, id as int),
            final(self)@ == (if r {
                let i = entry_at(old(self)@.expenses, id as int);
                LedgerModel {
                    expenses: old(self)@.expenses.update(
                        i,
                        edited(old(self)@.expenses[i], e@),
                    ),
                    ..old(self)@
                }
            } else {
                old(self)@
            }),
    {
        let ghost l = self@;
        let i = self.find_expense(id);
        if i == self.expenses.len() {
            return false;
        }
        let was = &self.expenses[i];
        let row = Expense {
            id: was.id,
            rtype: e.rtype.clone(),
            item_name: e.item_name.clone(),
            store: opt_dup(&e.store),
            purchase_date: e.purchase_date.clone(),
            amount: e.amount,
            category: named_copy(&e.category),
            subcategory: named_copy(&e.subcategory),
            delivery_date: opt_dup(&was.delivery_date),
            record_time: was.record_time.clone(),
            note: opt_dup(&e.note),
        };
        let ghost rv = row@;
        self.expenses[i] = row;
        proof {
            lemma_entry_at(l.expenses, l.last_expense, i as int);
            assert(rv == edited(l.expenses[i as int], e@));
            assert(self@.expenses =~= l.expenses.update(i as int, rv));
            lemma_same_ids(l.expenses, self@.expenses, self@.last_expense);
        }
        true
    }

    /// Removes the entry of an id. Tells whether there was one.
    pub fn delete_expense(&mut self, id: i64) -> (r: bool)
        requires
            old(self).wf(),
        ensures
            final(self).wf(),
            r == has_entry(old(self)@.expenses, id as int),
            final(self)@ == (if r {
                LedgerModel {
                    expenses: old(self)@.expenses.remove(
                        entry_at(old(self)@.expenses, id as int),
                    ),
                    ..old(self)@
                }
            } else {
                old(self)@
            }),
    {
        let ghost l = self@;
        let i = self.find_expense(id);
        if i == self.expenses.len() {
            return false;
        }
        let _gone = self.expenses.remove(i);
        proof {
            lemma_entry_at(l.expenses, l.last_expense, i as int);
            let s = self@.expenses;
            assert(s =~= l.expenses.remove(i as int));
            assert forall|a: int, b: int| 0 <= a < b < s.len() implies (#[trigger] s[a]).id != (
            #[trigger] s[b]).id by {
                let x = if a < i {
                    a
                } else {
                    a + 1
                };
                let y = if b < i {
                    b
                } else {
                    b + 1
                };
                assert(s[a] == l.expenses[x] && s[b] == l.expenses[y]);
            }
            assert forall|a: int| 0 <= a < s.len() implies (#[trigger] s[a]).id
                <= l.last_expense by {
                let x = if a < i {
                    a
                } else {
                    a + 1
                };
                assert(s[a] == l.expenses[x]);
            }
        }
        true
    }

    /// The entry of an id.
    pub fn get_expense_by_id(&self, id: i64) -> (r: Option<Expense>)
        requires
            self.wf(),
        ensures
            match r {
                Some(e) => has_entry(self@.expenses, id as int) && e@
                    == self@.expenses[entry_at(self@.expenses, id as int)],
                None => !has_entry(self@.expenses, id as int),
            },
    {
        let i = self.find_expense(id);
        if i == self.expenses.len() {
            return None;
        }
        proof {
            lemma_entry_at(self@.expenses, self@.last_expense, i as int);
        }
        Some(self.expenses[i].dup())
    }

    /// The last `limit` entries, the last one first; all of them where the limit is
    /// negative.
    pub fn get_all_expenses(&self, limit: i64) -> (r: Vec<Expense>)
        ensures
            order::seen(r@) == (if 0 <= limit < self@.expenses.len() {
                newest_first(self@.expenses).take(limit as int)
            } else {
                newest_first(self@.expenses)
            }),
    {
        let ghost s = self@.expenses;
        let mut w: Vec<ById> = Vec::new();
        let mut i: usize = 0;
        while i < self.expenses.len()
            invariant
                i <= self.expenses.len(),
                s == self@.expenses,
                w@.len() == i,
                forall|k: int| 0 <= k < i ==> (#[trigger] w@[k])@ == s[k],
            decreases self.expenses.len() - i,
        {
            w.push(ById { e: self.expenses[i].dup() });
            i = i + 1;
        }
        assert(order::seen(w@) =~= s);
        let mut out = bare_by_id(rank(w));
        proof {
            lemma_id_rank();
            order::lemma_ranked_keeps(
                s,
                |a: ExpenseModel, b: ExpenseModel| later_id(a, b),
            );
        }
        let ghost all = out@;
        if limit >= 0 && (limit as u64) < out.len() as u64 {
            out.truncate(limit as usize);
            assert(order::seen(out@) =~= order::seen(all).take(limit as int));
        }
        out
    }

    /// The entries of a day, the last one first.
    pub fn get_expenses_by_date(&self, date: &str) -> (r: Vec<Expense>)
        ensures
            order::seen(r@) == newest_first(
                picked(self@.expenses, |e: ExpenseModel| e.purchase_date == date@),
            ),
    {
        let ghost s = self@.expenses;
        let ghost keep = |e: ExpenseModel| e.purchase_date == date@;
        let mut w: Vec<ById> = Vec::new();
        let mut i: usize = 0;
        assert(order::seen(w@) =~= picked(s.take(0), keep));
        while i < self.expenses.len()
            invariant
                i <= self.expenses.len(),
                s == self@.expenses,
                keep == (|e: ExpenseModel| e.purchase_date == date@),
                order::seen(w@) == picked(s.take(i as int), keep),
            decreases self.expenses.len() - i,
        {
            let ghost w0 = w@;
            proof {
                let t1 = s.take(i as int + 1);
                assert(t1.drop_last() =~= s.take(i as int));
                assert(t1.last() == self.expenses@[i as int]@);
            }
            if str_eq(self.expenses[i].purchase_date.as_str(), date) {
                w.push(ById { e: self.expenses[i].dup() });
                assert(order::seen(w@) =~= order::seen(w0).push(s[i as int]));
            }
            i = i + 1;
        }
        assert(s.take(i as int) =~= s);
        let out = bare_by_id(rank(w));
        proof {
            lemma_id_rank();
        }
        out
    }

    /// A page of the entries that pass the filters, the latest date first, and how many
    /// entries pass. Pages are counted from 1 and hold 1 to 200 entries; an empty filter
    /// lets everything through.
    pub fn get_expenses_page(
        &self,
        page: i64,
        page_size: i64,
        category: Option<&str>,
        subcategory: Option<&str>,
        keyword: Option<&str>,
        date_from: Option<&str>,
        date_to: Option<&str>,
    ) -> (r: (Vec<Expense>, usize))
        ensures
            ({
                let all = picked(
                    self@.expenses,
                    |e: ExpenseModel|
                        passes(
                            e,
                            text::opt_str(category),
                            text::opt_str(subcategory),
                            text::opt_str(keyword),
                            text::opt_str(date_from),
                            text::opt_str(date_to),
                        ),
                );
                let n = within(page_size as int, 1, 200);
                &&& r.1 == all.len()
                &&& order::seen(r.0@) == slice(
                    latest_first(all),
                    (within(page as int, 1, 1_000_000) - 1) * n,
                    n,
                )
            }),
    {
        let ghost s = self@.expenses;
        let ghost keep = |e: ExpenseModel|
            passes(
                e,
                text::opt_str(category),
                text::opt_str(subcategory),
                text::opt_str(keyword),
                text::opt_str(date_from),
                text::opt_str(date_to),
            );
        let mut w: Vec<ByDate> = Vec::new();
        let mut i: usize = 0;
        assert(order::seen(w@) =~= picked(s.take(0), keep));
        while i < self.expenses.len()
            invariant
                i <= self.expenses.len(),
                s == self@.expenses,
                keep == (|e: ExpenseModel|
                    passes(
                        e,
                        text::opt_str(category),
                        text::opt_str(subcategory),
                        text::opt_str(keyword),
                        text::opt_str(date_from),
                        text::opt_str(date_to),
                    )),
                order::seen(w@) == picked(s.take(i as int), keep),
            decreases self.expenses.len() - i,
        {
            let ghost w0 = w@;
            proof {
                let t1 = s.take(i as int + 1);
                assert(t1.drop_last() =~= s.take(i as int));
                assert(t1.last() == self.expenses@[i as int]@);
            }
            if passes_filters(
                &self.expenses[i],
                category,
                subcategory,
                keyword,
                date_from,
                date_to,
            ) {
                w.push(ByDate { e: self.expenses[i].dup() });
                assert(order::seen(w@) =~= order::seen(w0).push(s[i as int]));
            }
            i = i + 1;
        }
        assert(s.take(i as int) =~= s);
        let total: usize = w.len();
        let page: usize = if page < 1 {
            1
        } else if page > 1_000_000 {
            1_000_000
        } else {
            page as usize
        };
        let size: usize = if page_size < 1 {
            1
        } else if page_size > 200 {
            200
        } else {
            page_size as usize
        };
        assert((page - 1) * size <= 999_999 * 200) by (nonlinear_arith)
            requires
                1 <= page <= 1_000_000,
                1 <= size <= 200,
        ;
        let from: usize = (page - 1) * size;
        proof {
            lemma_date_rank();
            assert(order::seen(w@).len() == w@.len());
        }
        let sorted = rank(w);
        let out = bare_by_date(&sorted, from, size);
        (out, total)
    }
}

proof fn lemma_id_rank()
    ensures
        order::by_rank::<ById>() == (|a: ExpenseModel, b: ExpenseModel| later_id(a, b)),
{
    assert(order::by_rank::<ById>() =~= (|a: ExpenseModel, b: ExpenseModel| later_id(a, b)));
}

proof fn lemma_date_rank()
    ensures
        order::by_rank::<ByDate>() == (|a: ExpenseModel, b: ExpenseModel| later_date(a, b)),
{
    assert(order::by_rank::<ByDate>() =~= (|a: ExpenseModel, b: ExpenseModel| later_date(a, b)));
}

fn named_copy(raw: &Option<String>) -> (r: Option<String>)
    ensures
        text::opt_text(r) == named(text::opt_text(*raw)),
{
    match raw {
        Some(s) => blank_to_none(Some(s.as_str())),
        None => None,
    }
}

// ------------------------------------------------------------- lists of subcategories

/// `list` with `name` at its end, where it does not hold it yet.
pub open spec fn with_new(list: Seq<Seq<char>>, name: Seq<char>) -> Seq<Seq<char>> {
    if list.contains(name) {
        list
    } else {
        list.push(name)
    }
}

/// `list` and then the names of `more` that are new, each once.
pub open spec fn extended(list: Seq<Seq<char>>, more: Seq<Seq<char>>) -> Seq<Seq<char>>
    decreases more.len(),
{
    if more.len() == 0 {
        list
    } else {
        with_new(extended(list, more.drop_last()), more.last())
    }
}

/// The subcategories that the entries of a category have, each once.
pub open spec fn recorded(s: Seq<ExpenseModel>, category: Seq<char>) -> Seq<Seq<char>>
    decreases s.len(),
{
    if s.len() == 0 {
        Seq::empty()
    } else {
        let r = recorded(s.drop_last(), category);
        let e = s.last();
        if e.category == Some(category) && e.subcategory is Some && e.subcategory->0.len() > 0 {
            with_new(r, e.subcategory->0)
        } else {
            r
        }
    }
}

/// A name among others that are listed alphabetically.
struct Name {
    s: String,
}

impl View for Name {
    type V = Seq<char>;

    closed spec fn view(&self) -> Seq<char> {
        self.s@
    }
}

/// Whether `a` comes before `b` in the alphabet.
pub open spec fn sooner(a: Seq<char>, b: Seq<char>) -> bool {
    !text::lex_le(b, a)
}

impl Ranked for Name {
    open spec fn ahead(a: Seq<char>, b: Seq<char>) -> bool {
        sooner(a, b)
    }

    fn goes_ahead(&self, other: &Self) -> (r: bool) {
        !str_le(other.s.as_str(), self.s.as_str())
    }
}

/// The names in alphabetical order.
pub open spec fn alphabetical(s: Seq<Seq<char>>) -> Seq<Seq<char>> {
    order::ranked(s, |a: Seq<char>, b: Seq<char>| sooner(a, b))
}

fn add_new(list: &mut Vec<String>, name: &str)
    ensures
        text::views(final(list)@) == with_new(text::views(old(list)@), name@),
{
    let ghost before = list@;
    match position(list, name) {
        Some(k) => {
            assert(text::views(before)[k as int] == name@);
        },
        None => {
            list.push(name.to_owned());
            assert(text::views(list@) =~= text::views(before).push(name@));
        },
    }
}

impl Ledger {
    /// The subcategories of a category: the declared ones, then the others that its
    /// entries have, in alphabetical order; each once.
    pub fn get_subcategories(&self, category: &str) -> (r: Vec<String>)
        requires
            self.wf(),
        ensures
            text::views(r@) == extended(
                extended(Seq::empty(), subs_of(subs_text(self@.categories, category@))),
                alphabetical(recorded(self@.expenses, category@)),
            ),
    {
        let declared = self.read_subs(category);
        let ghost d = text::views(declared@);
        let mut out: Vec<String> = Vec::new();
        let mut i: usize = 0;
        assert(text::views(out@) =~= extended(Seq::empty(), d.take(0)));
        while i < declared.len()
            invariant
                i <= declared.len(),
                d == text::views(declared@),
                text::views(out@) == extended(Seq::empty(), d.take(i as int)),
            decreases declared.len() - i,
        {
            proof {
                let t1 = d.take(i as int + 1);
                assert(t1.drop_last() =~= d.take(i as int));
                assert(t1.last() == declared@[i as int]@);
            }
            add_new(&mut out, declared[i].as_str());
            i = i + 1;
        }
        assert(d.take(i as int) =~= d);
        let ghost first = text::views(out@);
        let mut own: Vec<String> = Vec::new();
        let ghost s = self@.expenses;
        let mut j: usize = 0;
        assert(text::views(own@) =~= recorded(s.take(0), category@));
        while j < self.expenses.len()
            invariant
                j <= self.expenses.len(),
                s == self@.expenses,
                text::views(own@) == recorded(s.take(j as int), category@),
            decreases self.expenses.len() - j,
        {
            proof {
                let t1 = s.take(j as int + 1);
                assert(t1.drop_last() =~= s.take(j as int));
                assert(t1.last() == self.expenses@[j as int]@);
            }
            let e = &self.expenses[j];
            let same = match &e.category {
                Some(c) => str_eq(c.as_str(), category),
                None => false,
            };
            if same {
                if let Some(sub) = &e.subcategory {
                    if !is_empty_text(sub.as_str()) {
                        add_new(&mut own, sub.as_str());
                    }
                }
            }
            j = j + 1;
        }
        assert(s.take(j as int) =~= s);
        let ghost o = text::views(own@);
        let mut w: Vec<Name> = Vec::new();
        let mut k: usize = 0;
        while k < own.len()
            invariant
                k <= own.len(),
                o == text::views(own@),
                w@.len() == k,
                forall|n: int| 0 <= n < k ==> (#[trigger] w@[n])@ == o[n],
            decreases own.len() - k,
        {
            w.push(Name { s: own[k].clone() });
            k = k + 1;
        }
        assert(order::seen(w@) =~= o);
        let sorted = rank(w);
        let ghost a = order::seen(sorted@);
        proof {
            assert(order::by_rank::<Name>() =~= (|x: Seq<char>, y: Seq<char>| sooner(x, y)));
            assert(a == alphabetical(o));
            assert(a.take(0) =~= Seq::empty());
        }
        let mut m: usize = 0;
        while m < sorted.len()
            invariant
                m <= sorted.len(),
                a == order::seen(sorted@),
                text::views(out@) == extended(first, a.take(m as int)),
            decreases sorted.len() - m,
        {
            proof {
                let t1 = a.take(m as int + 1);
                assert(t1.drop_last() =~= a.take(m as int));
                assert(t1.last() == sorted@[m as int]@);
            }
            add_new(&mut out, sorted[m].s.as_str());
            m = m + 1;
        }
        assert(a.take(m as int) =~= a);
        out
    }
}

// -------------------------------------------------------------------------- summaries

/// Whether `t` from `j` on matches the pattern `p` from `i` on: `%` stands for any text,
/// `_` for one character, and the case of ASCII letters does not matter.
pub open spec fn like(p: Seq<char>, i: int, t: Seq<char>, j: int) -> bool
    decreases p.len() - i + t.len() - j,
    when 0 <= i <= p.len() && 0 <= j <= t.len()
{
    if i >= p.len() {
        j >= t.len()
    } else if p[i] == '%' {
        like(p, i + 1, t, j) || (j < t.len() && like(p, i, t, j + 1))
    } else {
        &&& j < t.len()
        &&& p[i] == '_' || text::lower(p[i]) == text::lower(t[j])
        &&& like(p, i + 1, t, j + 1)
    }
}

fn like_at(p: &Vec<char>, lp: &Vec<char>, i: usize, t: &Vec<char>, lt: &Vec<char>, j: usize) -> (r:
    bool)
    requires
        i <= p@.len(),
        j <= t@.len(),
        lp@ == text::lowered(p@),
        lt@ == text::lowered(t@),
    ensures
        r == like(p@, i as int, t@, j as int),
    decreases p@.len() - i + t@.len() - j,
{
    if i >= p.len() {
        j >= t.len()
    } else if p[i] == '%' {
        like_at(p, lp, i + 1, t, lt, j) || (j < t.len() && like_at(p, lp, i, t, lt, j + 1))
    } else {
        j < t.len() && (p[i] == '_' || lp[i] == lt[j]) && like_at(p, lp, i + 1, t, lt, j + 1)
    }
}

/// Whether a date belongs to a month, which is given by how its dates begin.
pub open spec fn in_month(date: Seq<char>, year_month: Seq<char>) -> bool {
    like(year_month + "%"@, 0, date, 0)
}

fn is_in_month(date: &str, p: &Vec<char>, lp: &Vec<char>) -> (r: bool)
    requires
        lp@ == text::lowered(p@),
    ensures
        r == like(p@, 0, date@, 0),
{
    let t = chars_of(date);
    let lt = chars_of(to_lower(date).as_str());
    like_at(p, lp, 0, &t, &lt, 0)
}

/// Which entries a summary is about: those of a category or all, and those of a month or
/// all.
pub open spec fn about(
    e: ExpenseModel,
    category: Option<Seq<char>>,
    month: Option<Seq<char>>,
) -> bool {
    &&& category is None || e.category == category
    &&& month is None || in_month(e.purchase_date, month->0)
}

/// What an entry spends.
pub open spec fn spent(e: ExpenseModel) -> int {
    if e.rtype == "支出"@ {
        e.amount.cents as int
    } else {
        0
    }
}

/// What an entry earns.
pub open spec fn earned(e: ExpenseModel) -> int {
    if e.rtype == "收入"@ {
        e.amount.cents as int
    } else {
        0
    }
}

/// What the entries spend.
pub open spec fn total_spent(s: Seq<ExpenseModel>) -> int
    decreases s.len(),
{
    if s.len() == 0 {
        0
    } else {
        total_spent(s.drop_last()) + spent(s.last())
    }
}

/// What the entries earn.
pub open spec fn total_earned(s: Seq<ExpenseModel>) -> int
    decreases s.len(),
{
    if s.len() == 0 {
        0
    } else {
        total_earned(s.drop_last()) + earned(s.last())
    }
}

/// The entries that a summary is about.
pub open spec fn entries_of(
    s: Seq<ExpenseModel>,
    category: Option<Seq<char>>,
    month: Option<Seq<char>>,
) -> Seq<ExpenseModel> {
    picked(s, |e: ExpenseModel| about(e, category, month))
}

/// The name that an entry is summed up under: its category or its subcategory, where it
/// has one that is not empty.
pub open spec fn label(e: ExpenseModel, by_sub: bool) -> Seq<char> {
    let name = if by_sub {
        e.subcategory
    } else {
        e.category
    };
    if name is Some && name->0.len() > 0 {
        name->0
    } else if by_sub {
        "(未分细类)"@
    } else {
        "(未分类)"@
    }
}

/// The sums of the entries of one name, in cents.
pub struct Group {
    pub name: String,
    pub spent: i128,
    pub earned: i128,
    /// What is earned less what is spent.
    pub net: i128,
    pub count: usize,
}

/// The sums of the entries of one name.
#[verifier::ext_equal]
pub struct GroupModel {
    pub name: Seq<char>,
    pub spent: int,
    pub earned: int,
    pub net: int,
    pub count: int,
}

impl View for Group {
    type V = GroupModel;

    open spec fn view(&self) -> GroupModel {
        GroupModel {
            name: self.name@,
            spent: self.spent as int,
            earned: self.earned as int,
            net: self.net as int,
            count: self.count as int,
        }
    }
}

/// The first index from `from` on of the group of a name, or the number of groups.
pub open spec fn group_at(s: Seq<GroupModel>, name: Seq<char>, from: int) -> int
    decreases s.len() - from,
{
    if from >= s.len() || s[from].name == name {
        from
    } else {
        group_at(s, name, from + 1)
    }
}

/// A group with one more entry.
pub open spec fn joined_by(g: GroupModel, e: ExpenseModel) -> GroupModel {
    GroupModel {
        name: g.name,
        spent: g.spent + spent(e),
        earned: g.earned + earned(e),
        net: g.net + earned(e) - spent(e),
        count: g.count + 1,
    }
}

/// The group of a name, without entries.
pub open spec fn no_entries(name: Seq<char>) -> GroupModel {
    GroupModel { name, spent: 0, earned: 0, net: 0, count: 0 }
}

/// The groups with one more entry in the group of its name.
pub open spec fn counted(s: Seq<GroupModel>, e: ExpenseModel, name: Seq<char>) -> Seq<GroupModel> {
    let k = group_at(s, name, 0);
    if k < s.len() {
        s.update(k, joined_by(s[k], e))
    } else {
        s.push(joined_by(no_entries(name), e))
    }
}

/// The entries summed up by name.
pub open spec fn groups(s: Seq<ExpenseModel>, by_sub: bool) -> Seq<GroupModel>
    decreases s.len(),
{
    if s.len() == 0 {
        Seq::empty()
    } else {
        counted(groups(s.drop_last(), by_sub), s.last(), label(s.last(), by_sub))
    }
}

/// Whether `a` is listed before `b`: it yields more, or as much and its name comes first.
pub open spec fn better(a: GroupModel, b: GroupModel) -> bool {
    a.net > b.net || (a.net == b.net && sooner(a.name, b.name))
}

impl Ranked for Group {
    open spec fn ahead(a: GroupModel, b: GroupModel) -> bool {
        better(a, b)
    }

    fn goes_ahead(&self, other: &Self) -> (r: bool) {
        self.net > other.net || (self.net == other.net && !str_le(
            other.name.as_str(),
            self.name.as_str(),
        ))
    }
}

/// The sums by name, those that yield most first.
pub open spec fn profit_order(s: Seq<GroupModel>) -> Seq<GroupModel> {
    order::ranked(s, |a: GroupModel, b: GroupModel| better(a, b))
}

spec fn small(g: GroupModel, n: int) -> bool {
    let b: int = n * 0x8000_0000_0000_0000;
    &&& -b <= g.spent <= b
    &&& -b <= g.earned <= b
    &&& -b <= g.net <= b
    &&& 0 <= g.count <= n
}

fn find_group(list: &Vec<Group>, name: &str) -> (r: usize)
    ensures
        r == group_at(order::seen(list@), name@, 0),
        r <= list@.len(),
{
    let ghost s = order::seen(list@);
    let mut i: usize = 0;
    while i < list.len()
        invariant
            i <= list.len(),
            s == order::seen(list@),
            group_at(s, name@, 0) == group_at(s, name@, i as int),
        decreases list.len() - i,
    {
        assert(s[i as int].name == list@[i as int].name@);
        if str_eq(list[i].name.as_str(), name) {
            return i;
        }
        i = i + 1;
    }
    i
}

fn label_of(e: &Expense, by_sub: bool) -> (r: String)
    ensures
        r@ == label(e@, by_sub),
{
    let name = if by_sub {
        &e.subcategory
    } else {
        &e.category
    };
    if let Some(n) = name {
        if !is_empty_text(n.as_str()) {
            return n.clone();
        }
    }
    if by_sub {
        "(未分细类)".to_owned()
    } else {
        "(未分类)".to_owned()
    }
}

impl Ledger {
    /// The sums by name of the entries that a summary is about, and the sums of all of
    /// them.
    fn sum_up(&self, category: Option<&str>, month: Option<&str>, by_sub: bool) -> (r: (
        Vec<Group>,
        Group,
    ))
        ensures
            ({
                let all = entries_of(
                    self@.expenses,
                    text::opt_str(category),
                    text::opt_str(month),
                );
                &&& order::seen(r.0@) == groups(all, by_sub)
                &&& r.1.spent == total_spent(all)
                &&& r.1.earned == total_earned(all)
                &&& r.1.count == all.len()
            }),
    {
        let ghost c = text::opt_str(category);
        let ghost mo = text::opt_str(month);
        let ghost keep = |e: ExpenseModel| about(e, c, mo);
        let ghost s = self@.expenses;
        let mut list: Vec<Group> = Vec::new();
        let mut sum = Group { name: "".to_owned(), spent: 0, earned: 0, net: 0, count: 0 };
        let pattern = match month {
            Some(m) => m.to_owned().concat("%"),
            None => "%".to_owned(),
        };
        let p = chars_of(pattern.as_str());
        let lp = chars_of(to_lower(pattern.as_str()).as_str());
        let mut i: usize = 0;
        proof {
            assert(s.take(0) =~= Seq::empty());
            assert(order::seen(list@) =~= Seq::empty());
        }
        while i < self.expenses.len()
            invariant
                i <= self.expenses.len(),
                s == self@.expenses,
                c == text::opt_str(category),
                mo == text::opt_str(month),
                keep == (|e: ExpenseModel| about(e, c, mo)),
                mo is Some ==> p@ == mo->0 + "%"@,
                lp@ == text::lowered(p@),
                order::seen(list@) == groups(picked(s.take(i as int), keep), by_sub),
                sum.spent == total_spent(picked(s.take(i as int), keep)),
                sum.earned == total_earned(picked(s.take(i as int), keep)),
                sum.count == picked(s.take(i as int), keep).len(),
                small(sum@, i as int),
                forall|k: int|
                    0 <= k < list@.len() ==> small((#[trigger] list@[k])@, i as int),
            decreases self.expenses.len() - i,
        {
            let ghost t0 = s.take(i as int);
            proof {
                let t1 = s.take(i as int + 1);
                assert(t1.drop_last() =~= t0);
                assert(t1.last() == self.expenses@[i as int]@);
            }
            let e = &self.expenses[i];
            let ghost ev = e@;
            let of_category = match category {
                Some(c) => match &e.category {
                    Some(x) => str_eq(x.as_str(), c),
                    None => false,
                },
                None => true,
            };
            let of_month = match month {
                Some(_) => is_in_month(e.purchase_date.as_str(), &p, &lp),
                None => true,
            };
            if of_category && of_month {
                assert(keep(ev));
                let ghost chosen = picked(t0, keep);
                assert(chosen.push(ev).drop_last() =~= chosen);
                let name = label_of(e, by_sub);
                let k = find_group(&list, name.as_str());
                let ghost before = list@;
                let amount: i128 = e.amount.cents as i128;
                let out: i128 = if str_eq(e.rtype.as_str(), "支出") {
                    amount
                } else {
                    0
                };
                let inc: i128 = if str_eq(e.rtype.as_str(), "收入") {
                    amount
                } else {
                    0
                };
                proof {
                    lemma_types_differ();
                    assert(out == spent(ev) && inc == earned(ev));
                    assert(-0x8000_0000_0000_0000 <= inc - out <= 0x8000_0000_0000_0000);
                }
                sum = Group {
                    name: sum.name,
                    spent: sum.spent + out,
                    earned: sum.earned + inc,
                    net: sum.net + (inc - out),
                    count: sum.count + 1,
                };
                if k < list.len() {
                    assert(small(list@[k as int]@, i as int));
                    let g = Group {
                        name: list[k].name.clone(),
                        spent: list[k].spent + out,
                        earned: list[k].earned + inc,
                        net: list[k].net + (inc - out),
                        count: list[k].count + 1,
                    };
                    let ghost gv = g@;
                    list[k] = g;
                    proof {
                        assert(gv == joined_by(before[k as int]@, ev));
                        assert(order::seen(list@) =~= order::seen(before).update(k as int, gv));
                        assert forall|n: int| 0 <= n < list@.len() implies small(
                            (#[trigger] list@[n])@,
                            i as int + 1,
                        ) by {
                            assert(small(before[n]@, i as int));
                        }
                    }
                } else {
                    let g = Group { name, spent: out, earned: inc, net: inc - out, count: 1 };
                    let ghost gv = g@;
                    list.push(g);
                    proof {
                        assert(gv == joined_by(no_entries(label(ev, by_sub)), ev));
                        assert(order::seen(list@) =~= order::seen(before).push(gv));
                        assert forall|n: int| 0 <= n < list@.len() implies small(
                            (#[trigger] list@[n])@,
                            i as int + 1,
                        ) by {
                            if n < before.len() {
                                assert(small(before[n]@, i as int));
                            }
                        }
                    }
                }
            } else {
                assert(!keep(ev));
                assert forall|n: int| 0 <= n < list@.len() implies small(
                    (#[trigger] list@[n])@,
                    i as int + 1,
                ) by {
                    assert(small(list@[n]@, i as int));
                }
            }
            i = i + 1;
        }
        assert(s.take(i as int) =~= s);
        (list, sum)
    }

    /// What the entries of a month spend and what they earn, in cents.
    pub fn monthly_summary(&self, year_month: &str) -> (r: (i128, i128))
        ensures
            r.0 == total_spent(entries_of(self@.expenses, None, Some(year_month@))),
            r.1 == total_earned(entries_of(self@.expenses, None, Some(year_month@))),
    {
        let (_list, sum) = self.sum_up(None, Some(year_month), false);
        (sum.spent, sum.earned)
    }

    /// What the entries of a month spend, what they earn, how many there are, and what
    /// each category yields, in cents.
    pub fn monthly_summary_detail(&self, year_month: &str) -> (r: (
        i128,
        i128,
        usize,
        Vec<(String, i128)>,
    ))
        ensures
            ({
                let all = entries_of(self@.expenses, None, Some(year_month@));
                let rows = profit_order(groups(all, false));
                &&& r.0 == total_spent(all)
                &&& r.1 == total_earned(all)
                &&& r.2 == all.len()
                &&& r.3@.len() == rows.len()
                &&& forall|i: int|
                    #![trigger r.3@[i]]
                    0 <= i < rows.len() ==> r.3@[i].0@ == rows[i].name && r.3@[i].1 == rows[i].net
            }),
    {
        let (list, sum) = self.sum_up(None, Some(year_month), false);
        let sorted = rank(list);
        proof {
            lemma_group_rank();
        }
        let ghost rows = order::seen(sorted@);
        let mut out: Vec<(String, i128)> = Vec::new();
        let mut i: usize = 0;
        while i < sorted.len()
            invariant
                i <= sorted.len(),
                rows == order::seen(sorted@),
                out@.len() == i,
                forall|k: int|
                    #![trigger out@[k]]
                    0 <= k < i ==> out@[k].0@ == rows[k].name && out@[k].1 == rows[k].net,
            decreases sorted.len() - i,
        {
            out.push((sorted[i].name.clone(), sorted[i].net));
            i = i + 1;
        }
        (sum.spent, sum.earned, sum.count, out)
    }

    /// What each category spends and earns, in cents, and how many entries it has; those
    /// that yield most first.
    pub fn category_profit_loss(&self) -> (r: Vec<Group>)
        ensures
            order::seen(r@) == profit_order(groups(entries_of(self@.expenses, None, None), false)),
    {
        let (list, _sum) = self.sum_up(None, None, false);
        proof {
            lemma_group_rank();
        }
        rank(list)
    }

    /// What each subcategory of a category spends and earns, in cents, and how many entries
    /// it has; those that yield most first.
    pub fn subcategory_profit_loss(&self, category: &str) -> (r: Vec<Group>)
        ensures
            order::seen(r@) == profit_order(
                groups(entries_of(self@.expenses, Some(category@), None), true),
            ),
    {
        let (list, _sum) = self.sum_up(Some(category), None, true);
        proof {
            lemma_group_rank();
        }
        rank(list)
    }
}

proof fn lemma_group_rank()
    ensures
        order::by_rank::<Group>() == (|a: GroupModel, b: GroupModel| better(a, b)),
{
    assert(order::by_rank::<Group>() =~= (|a: GroupModel, b: GroupModel| better(a, b)));
}

pub proof fn lemma_types_differ()
    ensures
        "支出"@ != "收入"@,
{
    reveal_strlit("支出");
    reveal_strlit("收入");
    assert("支出"@[0] != "收入"@[0]);
}

// ------------------------------------------------------------------------ anniversaries

/// The day number of the anniversary of a date after `n` years; of a 29 February in a year
/// without one it is the 28th.
pub open spec fn anniversary(from: Date, n: int) -> int {
    let y = from.year + n;
    let len = calendar::month_len(y, from.month as int);
    calendar::day_number(
        y,
        from.month as int,
        if from.day <= len {
            from.day as int
        } else {
            len
        },
    )
}

/// The number of whole years from a date to a later day.
pub open spec fn whole_years(from: Date, day: int) -> int {
    choose|n: int| 0 <= n && #[trigger] anniversary(from, n) <= day < anniversary(from, n + 1)
}

/// Anniversaries follow one another, and lie in the years that they are counted by.
pub proof fn lemma_anniversaries(from: Date, a: int, b: int)
    requires
        from.valid(),
        a < b,
    ensures
        anniversary(from, a) < anniversary(from, b),
        calendar::new_year(from.year + a) <= anniversary(from, a) < calendar::new_year(
            from.year + a + 1,
        ),
{
    let m = from.month as int;
    let la = calendar::month_len(from.year + a, m);
    let lb = calendar::month_len(from.year + b, m);
    calendar::lemma_day_of_year(
        from.year + a,
        m,
        if from.day <= la {
            from.day as int
        } else {
            la
        },
    );
    calendar::lemma_day_of_year(
        from.year + b,
        m,
        if from.day <= lb {
            from.day as int
        } else {
            lb
        },
    );
    calendar::lemma_years_ordered(from.year + a, from.year + b);
}

/// There is one number of whole years: the anniversary is reached and the next one is not.
pub proof fn lemma_whole_years(from: Date, day: int, n: int)
    requires
        from.valid(),
        0 <= n,
        anniversary(from, n) <= day < anniversary(from, n + 1),
    ensures
        whole_years(from, day) == n,
{
    let k = whole_years(from, day);
    assert(0 <= k && anniversary(from, k) <= day < anniversary(from, k + 1));
    if k < n {
        lemma_anniversaries(from, k, n);
        if k + 1 < n {
            lemma_anniversaries(from, k + 1, n);
        }
    }
    if n < k {
        lemma_anniversaries(from, n, k);
        if n + 1 < k {
            lemma_anniversaries(from, n + 1, k);
        }
    }
}

/// The whole years from one date to another and the days that are left, by anniversaries;
/// none where the first date is not before the other.
pub fn years_and_days(from: &Date, today: &Date) -> (r: (i64, i64))
    requires
        from.valid(),
        today.valid(),
    ensures
        from.number() >= today.number() ==> r == (0i64, 0i64),
        from.number() < today.number() ==> {
            &&& r.0 == whole_years(*from, today.number())
            &&& 0 <= r.0
            &&& anniversary(*from, r.0 as int) <= today.number() < anniversary(
                *from,
                r.0 as int + 1,
            )
            &&& r.1 == today.number() - anniversary(*from, r.0 as int)
        },
{
    if days_between(today, from) <= 0 {
        return (0, 0);
    }
    let mut years: u32 = 0;
    let mut last: Date = *from;
    let mut more = true;
    proof {
        assert(anniversary(*from, 0) == from.number());
        lemma_years_reached(*from, *today, 0);
    }
    while more
        invariant
            from.valid(),
            today.valid(),
            from.year + years <= today.year,
            last.valid(),
            last.number() == anniversary(*from, years as int),
            last.number() <= today.number(),
            !more ==> today.number() < anniversary(*from, years + 1),
        decreases today.year - from.year - years + (if more { 1int } else { 0int }),
    {
        let months: u32 = (years + 1) * 12;
        proof {
            let y = from.year as int;
            let m = from.month as int;
            assert(y * 12 + m - 1 + months == (y + years + 1) * 12 + (m - 1));
            assert(calendar::months_later_year(y, m, months as int) == y + years + 1);
            assert(calendar::months_later_month(y, m, months as int) == m);
        }
        match add_months(from, months) {
            Some(d) => {
                assert(d.number() == anniversary(*from, years + 1));
                if days_between(today, &d) >= 0 {
                    proof {
                        lemma_years_reached(*from, *today, years + 1);
                    }
                    last = d;
                    years = years + 1;
                } else {
                    more = false;
                }
            },
            None => {
                proof {
                    if anniversary(*from, years + 1) <= today.number() {
                        lemma_years_reached(*from, *today, years + 1);
                    }
                }
                more = false;
            },
        }
    }
    proof {
        lemma_whole_years(*from, today.number(), years as int);
    }
    (years as i64, days_between(today, &last))
}

proof fn lemma_years_reached(from: Date, today: Date, n: int)
    requires
        from.valid(),
        today.valid(),
        anniversary(from, n) <= today.number(),
    ensures
        from.year + n <= today.year,
{
    lemma_anniversaries(from, n, n + 1);
    calendar::lemma_day_of_year(today.year as int, today.month as int, today.day as int);
    if today.year < from.year + n {
        calendar::lemma_years_ordered(today.year as int, from.year + n);
    }
}

/// The ids of entries with a date, each with the whole years since then and the days that
/// are left.
pub open spec fn ages(
    s: Seq<ExpenseModel>,
    ids: Seq<i64>,
    today: Date,
) -> Seq<(int, int, int)>
    decreases ids.len(),
{
    if ids.len() == 0 {
        Seq::empty()
    } else {
        let r = ages(s, ids.drop_last(), today);
        let id = ids.last() as int;
        let date = calendar::parsed_date(s[entry_at(s, id)].purchase_date, "%Y-%m-%d"@);
        if has_entry(s, id) && date is Some {
            if date->0.number() >= today.number() {
                r.push((id, 0, 0))
            } else {
                let n = whole_years(date->0, today.number());
                r.push((id, n, today.number() - anniversary(date->0, n)))
            }
        } else {
            r
        }
    }
}

/// Numbers as they are meant.
pub open spec fn triples(v: Seq<(i64, i64, i64)>) -> Seq<(int, int, int)> {
    Seq::new(v.len(), |i: int| (v[i].0 as int, v[i].1 as int, v[i].2 as int))
}

impl Ledger {
    /// How long ago the entries of these ids are, in whole years and days; ids without an
    /// entry, and entries without a readable date, are left out.
    pub fn days_ago(&self, ids: &Vec<i64>, today: &Date) -> (r: Vec<(i64, i64, i64)>)
        requires
            self.wf(),
            today.valid(),
        ensures
            triples(r@) == ages(self@.expenses, ids@, *today),
    {
        let ghost s = self@.expenses;
        let mut out: Vec<(i64, i64, i64)> = Vec::new();
        let mut i: usize = 0;
        proof {
            assert(ids@.take(0) =~= Seq::empty());
            assert(triples(out@) =~= ages(s, ids@.take(0), *today));
        }
        while i < ids.len()
            invariant
                i <= ids.len(),
                s == self@.expenses,
                self.wf(),
                today.valid(),
                triples(out@) == ages(s, ids@.take(i as int), *today),
            decreases ids.len() - i,
        {
            let ghost before = out@;
            proof {
                let t1 = ids@.take(i as int + 1);
                assert(t1.drop_last() =~= ids@.take(i as int));
                assert(t1.last() == ids@[i as int]);
            }
            let k = self.find_expense(ids[i]);
            if k < self.expenses.len() {
                proof {
                    lemma_entry_at(s, self@.last_expense, k as int);
                    assert(s[k as int].purchase_date == self.expenses@[k as int].purchase_date@);
                }
                if let Some(date) = parse_date(
                    self.expenses[k].purchase_date.as_str(),
                    "%Y-%m-%d",
                ) {
                    let (years, days) = years_and_days(&date, today);
                    out.push((ids[i], years, days));
                    assert(triples(out@) =~= triples(before).push(
                        (ids@[i as int] as int, years as int, days as int),
                    ));
                }
            }
            i = i + 1;
        }
        assert(ids@.take(i as int) =~= ids@);
        out
    }
}

// ------------------------------------------------------------------------------- laws

/// Renaming a category keeps the entries in step with it: an entry whose category exists
/// has a category that exists afterwards, no entry keeps a name that was given up, and
/// nothing else of an entry changes.
pub proof fn lemma_rename_carries_entries(
    l: LedgerModel,
    old_name: Seq<char>,
    new_name: Seq<char>,
    ctype: Option<Seq<char>>,
    i: int,
)
    requires
        categories_ok(l.categories, l.last_category),
        rename_answer(l, old_name, new_name, ctype).0,
        0 <= i < l.expenses.len(),
    ensures
        ({
            let after = renamed(l, old_name, new_name, ctype);
            let was = l.expenses[i].category;
            let is = after.expenses[i].category;
            &&& after.expenses.len() == l.expenses.len()
            &&& after.expenses[i] == (ExpenseModel { category: is, ..l.expenses[i] })
            &&& was is Some && has_category(l.categories, was->0) ==> is is Some && has_category(
                after.categories,
                is->0,
            )
            &&& text::trimmed(new_name) != old_name ==> is != Some(old_name)
        }),
{
    let after = renamed(l, old_name, new_name, ctype);
    let k = category_at(l.categories, old_name);
    assert(0 <= k < l.categories.len() && l.categories[k].name == old_name);
    let was = l.expenses[i].category;
    assert(after.categories[k].name == text::trimmed(new_name));
    if was is Some && has_category(l.categories, was->0) && was->0 != old_name {
        let j = category_at(l.categories, was->0);
        assert(l.categories[j].name == was->0);
        assert(after.categories[j] == l.categories[j]);
    }
}

/// Renaming a subcategory renames it in the entries of its category and nowhere else.
pub proof fn lemma_sub_rename_carries_entries(
    l: LedgerModel,
    category: Seq<char>,
    old_sub: Seq<char>,
    new_sub: Seq<char>,
    i: int,
)
    requires
        0 <= i < l.expenses.len(),
        rename_sub_answer(l, category, old_sub, new_sub).0,
    ensures
        ({
            let after = renamed_sub(l, category, old_sub, new_sub);
            let e = l.expenses[i];
            &&& after.expenses.len() == l.expenses.len()
            &&& e.category == Some(category) && e.subcategory == Some(old_sub)
                ==> after.expenses[i] == (ExpenseModel {
                subcategory: Some(text::trimmed(new_sub)),
                ..e
            })
            &&& e.category != Some(category) || e.subcategory != Some(old_sub)
                ==> after.expenses[i] == e
        }),
{
}

/// Subcategories that can be kept are read back as they were written.
pub proof fn lemma_subs_round_trip(list: Seq<Seq<char>>)
    requires
        forall|i: int| 0 <= i < list.len() ==> keepable(#[trigger] list[i]),
    ensures
        subs_of(text::joined(list, ","@)) == list,
{
    reveal_strlit(",");
    assert(","@ =~= seq![',']);
    if list.len() == 0 {
        lemma_no_subs();
        assert(list =~= Seq::empty());
        assert(subs_of(Seq::empty()) =~= list);
    } else {
        text::lemma_split_joined(list, ',');
        lemma_subs_in(list);
    }
}

proof fn lemma_subs_in(list: Seq<Seq<char>>)
    requires
        forall|i: int| 0 <= i < list.len() ==> keepable(#[trigger] list[i]),
    ensures
        subs_in(list) == list,
    decreases list.len(),
{
    if list.len() > 0 {
        let t = list.drop_last();
        assert forall|i: int| 0 <= i < t.len() implies keepable(#[trigger] t[i]) by {
            assert(t[i] == list[i]);
        }
        lemma_subs_in(t);
        assert(keepable(list[list.len() - 1]));
        assert(t.push(list.last()) =~= list);
    } else {
        assert(list =~= Seq::empty());
    }
}

/// What is read of a text of subcategories can be kept.
pub proof fn lemma_subs_keepable(raw: Seq<char>)
    ensures
        forall|i: int| 0 <= i < subs_of(raw).len() ==> keepable(#[trigger] subs_of(raw)[i]),
{
    text::lemma_split_on(raw, ',');
    lemma_pieces_keepable(text::split_on(raw, ','));
}

proof fn lemma_pieces_keepable(parts: Seq<Seq<char>>)
    requires
        forall|i: int| 0 <= i < parts.len() ==> !(#[trigger] parts[i]).contains(','),
    ensures
        forall|i: int| 0 <= i < subs_in(parts).len() ==> keepable(#[trigger] subs_in(parts)[i]),
    decreases parts.len(),
{
    if parts.len() > 0 {
        let f = parts.drop_last();
        assert forall|i: int| 0 <= i < f.len() implies !(#[trigger] f[i]).contains(',') by {
            assert(f[i] == parts[i]);
        }
        lemma_pieces_keepable(f);
        let p = parts.last();
        let t = text::trimmed(p);
        assert(!parts[parts.len() - 1].contains(','));
        text::lemma_trimmed_idempotent(p);
        lemma_trimmed_within(p, ',');
        let r = subs_in(parts);
        assert forall|i: int| 0 <= i < r.len() implies keepable(#[trigger] r[i]) by {
            if i < subs_in(f).len() {
                assert(r[i] == subs_in(f)[i]);
            }
        }
    }
}

proof fn lemma_trimmed_within(s: Seq<char>, c: char)
    requires
        !s.contains(c),
    ensures
        !text::trimmed(s).contains(c),
{
    let f = text::trim_front(s);
    let t = text::trimmed(s);
    text::lemma_trim_front(s);
    text::lemma_trim_back(f);
    if t.contains(c) {
        let i = choose|i: int| 0 <= i < t.len() && t[i] == c;
        assert(t[i] == f[i]);
        let j = i + s.len() - f.len();
        assert(f[i] == s[j]);
        assert(s.contains(s[j]));
    }
}

/// A subcategory that was added is read back, after those that were there; but for one
/// that is named like the mark for an empty list.
pub proof fn lemma_added_sub_is_read(l: LedgerModel, category: Seq<char>, sub: Seq<char>)
    requires
        add_sub_answer(l, category, sub).0,
        text::trimmed(sub) != "[]"@,
    ensures
        ({
            let subs = subs_of(subs_text(l.categories, category));
            subs_of(text::joined(subs.push(text::trimmed(sub)), ","@)) == subs.push(
                text::trimmed(sub),
            )
        }),
{
    let raw = subs_text(l.categories, category);
    let subs = subs_of(raw);
    let name = text::trimmed(sub);
    lemma_subs_keepable(raw);
    text::lemma_trimmed_idempotent(sub);
    let list = subs.push(name);
    assert forall|i: int| 0 <= i < list.len() implies keepable(#[trigger] list[i]) by {
        if i < subs.len() {
            assert(list[i] == subs[i]);
        }
    }
    lemma_subs_round_trip(list);
}

/// A subcategory that was removed is not read any more, and the others are, in their order.
pub proof fn lemma_removed_sub_is_gone(raw: Seq<char>, name: Seq<char>)
    ensures
        ({
            let left = others(subs_of(raw), name);
            &&& subs_of(text::joined(left, ","@)) == left
            &&& !left.contains(name)
            &&& forall|t: Seq<char>|
                t != name && subs_of(raw).contains(t) ==> #[trigger] left.contains(t)
        }),
{
    let subs = subs_of(raw);
    lemma_subs_keepable(raw);
    lemma_others_kept(subs, name);
    lemma_subs_round_trip(others(subs, name));
}

proof fn lemma_others_kept(list: Seq<Seq<char>>, name: Seq<char>)
    requires
        forall|i: int| 0 <= i < list.len() ==> keepable(#[trigger] list[i]),
    ensures
        forall|i: int|
            0 <= i < others(list, name).len() ==> keepable(#[trigger] others(list, name)[i]),
        !others(list, name).contains(name),
        forall|t: Seq<char>|
            t != name && list.contains(t) ==> #[trigger] others(list, name).contains(t),
    decreases list.len(),
{
    if list.len() > 0 {
        let f = list.drop_last();
        assert forall|i: int| 0 <= i < f.len() implies keepable(#[trigger] f[i]) by {
            assert(f[i] == list[i]);
        }
        lemma_others_kept(f, name);
        assert(keepable(list[list.len() - 1]));
        let r = others(f, name);
        let o = others(list, name);
        assert forall|i: int| 0 <= i < o.len() implies keepable(#[trigger] o[i]) && o[i]
            != name by {
            if i < r.len() {
                assert(o[i] == r[i]);
                assert(r.contains(r[i]));
            }
        }
        assert forall|t: Seq<char>| t != name && list.contains(t) implies #[trigger] o.contains(
            t,
        ) by {
            let i = choose|i: int| 0 <= i < list.len() && list[i] == t;
            if i < f.len() {
                assert(f[i] == t);
                assert(f.contains(t));
                assert(r.contains(t));
                let k = choose|k: int| 0 <= k < r.len() && r[k] == t;
                assert(o[k] == t);
            } else {
                assert(o[o.len() - 1] == t);
            }
        }
    }
}

/// The entries with an empty category taken for none.
pub open spec fn unblanked(s: Seq<ExpenseModel>) -> Seq<ExpenseModel> {
    Seq::new(
        s.len(),
        |i: int|
            if s[i].category == Some(Seq::<char>::empty()) {
                ExpenseModel { category: None, ..s[i] }
            } else {
                s[i]
            },
    )
}

/// An entry without a category and one with an empty category are summed up in the same
/// place.
pub proof fn lemma_no_category_is_one_bucket(s: Seq<ExpenseModel>)
    ensures
        groups(unblanked(s), false) == groups(s, false),
    decreases s.len(),
{
    let u = unblanked(s);
    if s.len() > 0 {
        lemma_no_category_is_one_bucket(s.drop_last());
        assert(u.drop_last() =~= unblanked(s.drop_last()));
        let e = s.last();
        let f = u.last();
        assert(label(e, false) == label(f, false));
        let g = groups(s.drop_last(), false);
        let name = label(e, false);
        let k = group_at(g, name, 0);
        assert(joined_by(g[k], e) == joined_by(g[k], f));
        assert(joined_by(no_entries(name), e) == joined_by(no_entries(name), f));
    }
}

/// What the groups spend together.
pub open spec fn spent_in(s: Seq<GroupModel>) -> int
    decreases s.len(),
{
    if s.len() == 0 {
        0
    } else {
        spent_in(s.drop_last()) + s.last().spent
    }
}

/// What the groups earn together.
pub open spec fn earned_in(s: Seq<GroupModel>) -> int
    decreases s.len(),
{
    if s.len() == 0 {
        0
    } else {
        earned_in(s.drop_last()) + s.last().earned
    }
}

/// The sums by name add up to the sums of the entries, to the cent; each name stands for one
/// group and none is empty; and what a group yields is what it earns less what it spends.
pub proof fn lemma_groups_add_up(s: Seq<ExpenseModel>, by_sub: bool)
    ensures
        ({
            let g = groups(s, by_sub);
            &&& spent_in(g) == total_spent(s)
            &&& earned_in(g) == total_earned(s)
            &&& forall|i: int| #![trigger g[i]] 0 <= i < g.len() ==> g[i].name.len() > 0 && g[i].net
                == g[i].earned - g[i].spent
            &&& forall|i: int, j: int|
                0 <= i < j < g.len() ==> (#[trigger] g[i]).name != (#[trigger] g[j]).name
        }),
    decreases s.len(),
{
    if s.len() > 0 {
        let r = groups(s.drop_last(), by_sub);
        let g = groups(s, by_sub);
        let e = s.last();
        let name = label(e, by_sub);
        lemma_groups_add_up(s.drop_last(), by_sub);
        reveal_strlit("(未分类)");
        reveal_strlit("(未分细类)");
        assert(name.len() > 0);
        let k = group_at(r, name, 0);
        lemma_group_at(r, name, 0);
        if k < r.len() {
            lemma_update_sums(r, k, joined_by(r[k], e));
            assert forall|i: int, j: int| 0 <= i < j < g.len() implies (#[trigger] g[i]).name != (
            #[trigger] g[j]).name by {
                assert(r[i].name != r[j].name);
            }
        } else {
            assert(g.drop_last() =~= r);
            assert forall|i: int, j: int| 0 <= i < j < g.len() implies (#[trigger] g[i]).name != (
            #[trigger] g[j]).name by {
                assert(g[i] == r[i]);
                if j < r.len() {
                    assert(g[j] == r[j]);
                }
            }
        }
    }
}

pub proof fn lemma_group_at(s: Seq<GroupModel>, name: Seq<char>, from: int)
    requires
        0 <= from <= s.len(),
    ensures
        from <= group_at(s, name, from) <= s.len(),
        group_at(s, name, from) < s.len() ==> s[group_at(s, name, from)].name == name,
        forall|i: int| from <= i < group_at(s, name, from) ==> (#[trigger] s[i]).name != name,
    decreases s.len() - from,
{
    if from < s.len() && s[from].name != name {
        lemma_group_at(s, name, from + 1);
    }
}

proof fn lemma_update_sums(s: Seq<GroupModel>, k: int, g: GroupModel)
    requires
        0 <= k < s.len(),
    ensures
        spent_in(s.update(k, g)) == spent_in(s) - s[k].spent + g.spent,
        earned_in(s.update(k, g)) == earned_in(s) - s[k].earned + g.earned,
    decreases s.len(),
{
    let u = s.update(k, g);
    if k == s.len() - 1 {
        assert(u.drop_last() =~= s.drop_last());
    } else {
        lemma_update_sums(s.drop_last(), k, g);
        assert(u.drop_last() =~= s.drop_last().update(k, g));
    }
}

} // verus!
