use focusflow::accounting::{
    blank_to_none, parse_subs, years_and_days, Amount, CategoryRow, Expense, Ledger,
};
use focusflow::calendar::Date;

const DAY: &str = "2026-09-20";
const TIME: &str = "2026-09-20 12:00:00";

fn d(year: i32, month: u32, day: u32) -> Date {
    Date { year, month, day }
}

fn ledger() -> Ledger {
    let mut l = Ledger::new();
    l.init_db();
    l
}

fn category(l: &mut Ledger, name: &str, subs: &str) {
    l.last_category += 1;
    let id = l.last_category;
    l.categories.push(CategoryRow {
        id,
        name: name.to_string(),
        ctype: "both".to_string(),
        subs: subs.to_string(),
    });
}

fn money(cents: i64) -> Amount {
    Amount {
        stored: (cents as f64 / 100.0).to_bits(),
        cents,
    }
}

fn entry(l: &mut Ledger, rtype: &str, cents: i64, category: Option<&str>, sub: Option<&str>) {
    l.last_expense += 1;
    let id = l.last_expense;
    l.expenses.push(Expense {
        id,
        rtype: rtype.to_string(),
        item_name: "旧".to_string(),
        store: None,
        purchase_date: DAY.to_string(),
        amount: money(cents),
        category: category.map(str::to_string),
        subcategory: sub.map(str::to_string),
        delivery_date: None,
        record_time: TIME.to_string(),
        note: None,
    });
}

fn spend(l: &mut Ledger, item: &str, cents: i64, cat: Option<&str>, sub: Option<&str>) -> i64 {
    l.add_expense("支出", item, None, DAY, money(cents), cat, sub, None, TIME)
}

#[test]
fn years_and_days_counts_calendar_anniversaries_not_365_day_blocks() {
    assert_eq!(
        years_and_days(&d(2021, 3, 16), &d(2024, 3, 15)),
        (2, 365),
        "差一天满三年：不能报成 3 年"
    );
    assert_eq!(
        years_and_days(&d(2021, 3, 16), &d(2024, 3, 16)),
        (3, 0),
        "整三年那天才是 3 年"
    );
    assert_eq!(years_and_days(&d(2020, 1, 1), &d(2020, 1, 31)), (0, 30));
    assert_eq!(years_and_days(&d(2026, 1, 1), &d(2026, 1, 1)), (0, 0));
    assert_eq!(
        years_and_days(&d(2026, 5, 1), &d(2026, 1, 1)),
        (0, 0),
        "未来日期（手填错了购买日期）不该给出负数"
    );
    assert_eq!(years_and_days(&d(2024, 2, 29), &d(2025, 2, 28)), (1, 0));
}

#[test]
fn migrated_empty_subs_is_not_a_subcategory() {
    let mut l = ledger();
    category(&mut l, "迁移来的", "[]");
    category(&mut l, "新建的", "");
    let all = l.get_all_categories();
    let migrated = all.iter().find(|c| c.name == "迁移来的").expect("应读到该分类");
    assert!(
        migrated.subs.is_empty(),
        "默认值 [] 不该变成一个可选中的子分类: {:?}",
        migrated.subs
    );
    assert_eq!(l.get_subcategories("迁移来的"), Vec::<String>::new());
    let (ok, msg) = l.add_subcategory("迁移来的", "零食");
    assert!(ok, "{msg}");
    assert_eq!(l.get_subcategories("迁移来的"), vec!["零食".to_string()]);
    let (ok, msg) = l.add_subcategory("迁移来的", "零食,饮料");
    assert!(!ok, "带逗号的名字必须被拒");
    assert!(msg.contains("逗号"), "{msg}");
    assert_eq!(
        l.get_subcategories("迁移来的"),
        vec!["零食".to_string()],
        "被拒的名字不该落库"
    );
    let at = l.categories.iter().position(|c| c.name == "新建的").unwrap();
    l.categories[at].subs = "饮料,零食".to_string();
    assert_eq!(
        l.get_subcategories("新建的"),
        vec!["饮料".to_string(), "零食".to_string()]
    );
}

#[test]
fn empty_and_null_category_are_the_same_bucket() {
    let mut l = ledger();
    let a = spend(&mut l, "无分类甲", 1000, Some(""), Some("  "));
    let b = spend(&mut l, "无分类乙", 500, Some("  "), Some(""));
    assert!(a > 0 && b > 0, "写入应成功: {a} {b}");
    let rec = l.get_expense_by_id(a).expect("记录应能读回");
    assert_eq!(rec.category, None, "空白分类该落成 NULL");
    assert_eq!(rec.subcategory, None, "空白子分类该落成 NULL");
    let c = spend(&mut l, "有分类", 200, Some(" 餐饮 "), Some(" 零食 "));
    assert_eq!(
        l.get_expense_by_id(c).unwrap().category.as_deref(),
        Some("餐饮"),
        "有效分类不该被动"
    );
    entry(&mut l, "收入", 2500, None, None);
    entry(&mut l, "支出", 700, Some(""), Some(""));
    let profit = l.category_profit_loss();
    let names: Vec<&str> = profit.iter().map(|g| g.name.as_str()).collect();
    assert!(
        !names.iter().any(|n| n.is_empty()),
        "不该出现名字为空的分类行: {names:?}"
    );
    let blank: Vec<_> = profit.iter().filter(|g| g.name == "(未分类)").collect();
    assert_eq!(blank.len(), 1, "NULL 与空串必须并成一行: {names:?}");
    assert_eq!(
        (blank[0].spent, blank[0].earned, blank[0].count),
        (2200, 2500, 4),
        "(未分类) 的四笔应并成一行（10+5+7 支出、25 收入）"
    );
    assert_eq!(blank[0].net, 300);
    assert!(names.contains(&"餐饮"), "非空白分类照常成行: {names:?}");
    let (_, _, _, detail) = l.monthly_summary_detail("2026-09");
    assert_eq!(
        detail.iter().filter(|(n, _)| n == "(未分类)").count(),
        1,
        "月度明细不该把同一件事拆成两行: {detail:?}"
    );
    assert!(
        detail.iter().all(|(n, _)| !n.is_empty()),
        "月度明细里不该有空名字: {detail:?}"
    );
    spend(&mut l, "细类空", 100, Some("餐饮"), Some(""));
    entry(&mut l, "支出", 200, Some("餐饮"), None);
    let sub = l.subcategory_profit_loss("餐饮");
    let sub_names: Vec<&str> = sub.iter().map(|g| g.name.as_str()).collect();
    assert_eq!(
        sub_names.iter().filter(|n| **n == "(未分细类)").count(),
        1,
        "不该出现两行 (未分细类): {sub_names:?}"
    );
    let merged = sub.iter().find(|g| g.name == "(未分细类)").unwrap();
    assert_eq!((merged.spent, merged.count), (300, 2), "两笔空白子分类该并成一行");
    assert!(
        sub_names.contains(&"零食"),
        "有名字的子分类照常成行: {sub_names:?}"
    );
}

#[test]
fn a_new_ledger_has_its_categories_once() {
    let mut l = ledger();
    assert_eq!(l.get_all_categories().len(), 13);
    l.init_db();
    assert_eq!(l.get_all_categories().len(), 13);
    assert_eq!(l.category_type("游戏"), Some("both".to_string()));
    assert_eq!(l.category_type("没有"), None);
    assert!(l.update_category_type("游戏", "expense"));
    assert!(!l.update_category_type("没有", "expense"));
}

#[test]
fn categories_say_what_was_done() {
    let mut l = ledger();
    let id = l.add_category("旅行", "expense", &vec!["机票".to_string(), "酒店".to_string()]);
    assert!(id > 0);
    let e = spend(&mut l, "票", 100, Some("旅行"), Some("机票"));
    assert_eq!(
        l.update_category("旅行", " ", None),
        (false, "分类名不能为空".to_string())
    );
    assert_eq!(
        l.update_category("旅行", "游戏", None),
        (false, "分类 [游戏] 已存在".to_string())
    );
    assert_eq!(
        l.update_category("没有", "别的", None),
        (false, "分类 [没有] 不存在".to_string())
    );
    assert_eq!(
        l.update_category("旅行", "旅行", None),
        (false, "没有需要修改的内容".to_string())
    );
    assert_eq!(
        l.update_category("旅行", "出游", None),
        (true, "更新成功".to_string())
    );
    assert_eq!(
        l.get_expense_by_id(e).unwrap().category.as_deref(),
        Some("出游"),
        "改名必须带着记录走"
    );
    assert_eq!(
        l.update_subcategory("出游", "机票", "酒店"),
        (false, "子分类 [酒店] 在 [出游] 下已存在".to_string())
    );
    assert_eq!(
        l.update_subcategory("出游", "没有", "车票"),
        (false, "子分类 [没有] 不存在".to_string())
    );
    assert_eq!(
        l.update_subcategory("出游", "机票", " "),
        (false, "子分类名不能为空".to_string())
    );
    assert_eq!(
        l.update_subcategory("出游", "机票", "车票"),
        (true, "更新成功".to_string())
    );
    assert_eq!(
        l.get_expense_by_id(e).unwrap().subcategory.as_deref(),
        Some("车票")
    );
    assert_eq!(
        l.add_subcategory("出游", "酒店"),
        (false, "子分类 [酒店] 在 [出游] 下已存在".to_string())
    );
    assert_eq!(
        l.add_subcategory("没有", "x"),
        (false, "分类 [没有] 不存在".to_string())
    );
    assert_eq!(
        l.delete_subcategory("出游", "没有"),
        (false, "子分类 [没有] 不存在".to_string())
    );
    assert_eq!(
        l.delete_subcategory("出游", "酒店"),
        (true, "删除成功".to_string())
    );
    assert!(!l.get_subcategories("出游").contains(&"酒店".to_string()));
    assert_eq!(
        l.delete_category("没有"),
        (false, "分类 [没有] 不存在".to_string())
    );
    assert_eq!(l.delete_category("出游"), (true, "删除成功".to_string()));
    assert_eq!(l.category_type("出游"), None);
}

#[test]
fn entries_are_changed_and_found() {
    let mut l = ledger();
    let a = l.add_expense("支出", "50%_茶", Some("店"), "2026-09-01", money(1250), Some("餐饮"), None, None, TIME);
    let b = l.add_expense("收入", "退款", None, "2026-09-02", money(300), None, None, Some("茶"), TIME);
    let c = l.add_expense("支出", "书", None, "2026-08-31", money(9900), Some("图书文具"), Some("书籍"), None, TIME);
    assert_eq!(l.monthly_summary("2026-09"), (1250, 300));
    let all = l.get_all_expenses(2);
    assert_eq!(all.len(), 2);
    assert_eq!(l.get_expenses_by_date("2026-09-02").len(), 1);
    let (page, total) = l.get_expenses_page(1, 2, None, None, None, None, None);
    assert_eq!((page.len(), total), (2, 3));
    let (page, _) = l.get_expenses_page(2, 2, None, None, None, None, None);
    assert_eq!(page.len(), 1);
    let (_, total) = l.get_expenses_page(1, 10, None, None, Some("茶"), None, None);
    assert_eq!(total, 2, "关键词也查备注");
    let (_, total) =
        l.get_expenses_page(1, 10, None, None, None, Some("2026-09-01"), Some("2026-09-30"));
    assert_eq!(total, 2);
    let (_, total) = l.get_expenses_page(1, 10, Some("图书文具"), Some("书籍"), None, None, None);
    assert_eq!(total, 1);
    let mut e = l.get_expense_by_id(b).unwrap();
    e.amount = money(400);
    assert!(l.update_expense(b, &e));
    assert_eq!(l.monthly_summary("2026-09"), (1250, 400));
    assert!(l.delete_expense(a));
    assert!(!l.delete_expense(a));
    assert!(l.get_expense_by_id(a).is_none());
    assert_eq!(
        l.days_ago(&vec![c], &d(2026, 9, 20)),
        vec![(c, 0, 20)],
        "八月三十一日到九月二十日"
    );
}

#[test]
fn lists_in_one_text() {
    assert_eq!(parse_subs("a, b ,,c"), vec!["a", "b", "c"]);
    assert!(parse_subs("[]").is_empty());
    assert_eq!(blank_to_none(Some(" x ")), Some("x".to_string()));
    assert_eq!(blank_to_none(Some("  ")), None);
    assert_eq!(blank_to_none(None), None);
}

#[test]
fn initialising_again_changes_nothing() {
    let mut l = ledger();
    assert_eq!(l.categories.len(), 13);
    assert_eq!(l.categories[0].name, "食品饮料");
    assert_eq!(l.categories[12].subs, "其他");
    l.init_db();
    assert_eq!(l.categories.len(), 13);
    assert_eq!(l.last_category, 13);
    let mut own = Ledger::new();
    category(&mut own, "自建", "");
    own.init_db();
    assert_eq!(own.categories.len(), 1, "有分类的账本不预置默认分类");
}

#[test]
fn an_entry_keeps_the_amount_it_was_given() {
    let mut l = ledger();
    let third = Amount { stored: 3.333f64.to_bits(), cents: 333 };
    let id = l.add_expense("支出", "茶", None, DAY, third, None, None, None, TIME);
    l.add_expense("支出", "茶", None, DAY, third, None, None, None, TIME);
    let e = l.get_expense_by_id(id).expect("记录");
    assert_eq!(f64::from_bits(e.amount.stored), 3.333, "单条金额原样读出");
    assert_eq!(f64::from_bits(l.get_all_expenses(1)[0].amount.stored), 3.333);
    assert_eq!(l.monthly_summary(&DAY[..7]), (666, 0), "合计按分相加");
}

#[test]
fn categories_are_listed_by_id() {
    let mut l = ledger();
    assert_eq!(l.delete_category("日用百货"), (true, "删除成功".to_string()));
    let new = l.add_category("自建", "both", &Vec::new());
    assert_eq!(new, 14, "删掉的编号不再用");
    let ids: Vec<i64> = l.get_all_categories().iter().map(|c| c.id).collect();
    assert_eq!(ids, vec![1, 3, 4, 5, 6, 7, 8, 9, 10, 11, 12, 13, 14]);
}
