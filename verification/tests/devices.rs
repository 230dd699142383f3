use focusflow::calendar::{day_key_of_date, day_key_text, Date};
use focusflow::db::devices::{
    get_device_detail, get_device_stats, get_device_stats_by_date, merge_device_rows, DeviceRow,
};
use focusflow::db::store::{Store, YearDb, YearFile};
use focusflow::device_alias::{clear, AliasRead, AliasTable};
use focusflow::textmap::TextMap;

fn today() -> Date {
    Date { year: 2026, month: 9, day: 20 }
}

fn aliases(list: &[(&str, &str)]) -> AliasTable {
    let mut m = TextMap::new();
    for (k, v) in list {
        m.insert(k.to_string(), v.to_string());
    }
    AliasTable::from_map(&m)
}

fn one(year: i32, db: YearDb) -> Store {
    let mut st = Store::new();
    st.files.push(YearFile { year, db: Some(db) });
    st
}

fn id_of(db: &mut YearDb, key: &str) -> i64 {
    let i = db.find_device(key);
    if i < db.devices.len() {
        db.devices[i].id
    } else {
        db.register(key, "", "unknown")
    }
}

#[test]
fn device_stats_merge_join_and_dedupe() {
    let dk = day_key_of_date(&today());
    let mut db = YearDb::new();
    db.register(
        "HID#VID_046D&PID_C52B#devA",
        "HID-compliant mouse · 046D/C52B",
        "mouse",
    );
    db.register(
        "HID#VID_046D&PID_C52B#devD",
        "HID-compliant mouse · 046D/C52B",
        "mouse",
    );
    db.register("HID#VID_046D&PID_C52B#devB", "", "mouse");
    for (key, n) in [
        ("HID#VID_046D&PID_C52B#devA", 30),
        ("HID#VID_046D&PID_C52B#devD", 10),
        ("HID#VID_046D&PID_C52B#devB", 70),
        ("HID#VID_1B1C&PID_1B2D#kb", 50),
    ] {
        let id = id_of(&mut db, key);
        db.device_counts.bump((dk, id), n);
    }
    let st = one(2026, db);
    let (total, stats) = get_device_stats_by_date(&st, &today(), &aliases(&[]));
    assert_eq!(total, 160);
    assert_eq!(stats.len(), 4, "设备按 device_key 独立成行");
    assert_eq!(stats[0].name, "HID 设备 · 046D/C52B", "空登记名回退 VID/PID");
    assert_eq!(stats[0].name, stats[0].auto_name, "无别名时展示名 = 自动名");
    assert_eq!(stats[0].key, "HID#VID_046D&PID_C52B#devB");
    assert_eq!(stats[0].count, 70);
    assert_eq!(stats[1].name, "HID 设备 · 1B1C/1B2D", "未登记设备同样回退");
    assert_eq!(stats[1].kind, "unknown", "未登记设备的类型为 unknown");
    assert_eq!(stats[1].count, 50);
    assert_eq!(
        stats[2].name, "HID-compliant mouse · 046D/C52B",
        "先出现者保留原名"
    );
    assert_eq!(stats[2].count, 30);
    assert_eq!(stats[2].kind, "mouse");
    assert_eq!(
        stats[3].name, "HID-compliant mouse · 046D/C52B (2)",
        "同型号显示名去重"
    );
    assert_eq!(stats[3].count, 10);
}

#[test]
fn device_stats_collapse_the_same_device_across_year_dbs() {
    let key = "HID#VID_046D&PID_C52B#same";
    let mut st = Store::new();
    for (year, n, other) in [(2025, 40, "HID#VID_1B1C&PID_1B2D#old"), (2026, 60, "")] {
        let dk = day_key_of_date(&Date { year, month: 6, day: 1 });
        let mut db = YearDb::new();
        if !other.is_empty() {
            let id = db.register(other, &format!("HID-compliant mouse · {other}"), "mouse");
            db.device_counts.bump((dk, id), 5);
        }
        let id = db.register(key, &format!("HID-compliant mouse · {key}"), "mouse");
        db.device_counts.bump((dk, id), n);
        db.daily.bump(dk, n);
        db.seconds.bump(dk, 10);
        st.files.push(YearFile { year, db: Some(db) });
    }
    let none = aliases(&[]);
    let (total, stats) = get_device_stats(&st, None, None, &today(), &none);
    assert_eq!(total, 105, "跨年总次数 = 两个库相加");
    assert_eq!(stats.len(), 2);
    let same = stats.iter().find(|s| s.key == key).expect("同一台设备必须只有一行");
    assert_eq!(same.count, 100, "两个年度库的次数必须并起来");
    assert!(!same.name.ends_with("(2)"), "{}", same.name);
    assert_eq!(get_device_stats(&st, None, Some(2026), &today(), &none).0, 60);
    assert_eq!(get_device_stats(&st, None, Some(2025), &today(), &none).0, 45);
}

#[test]
fn device_key_detail_flag_is_not_period_scoped() {
    let dk = day_key_of_date(&today());
    let old = "HID#VID_046D&PID_C52B&MI_00#old";
    let never = "HID#VID_046D&PID_C52B&MI_00#never";
    let mut db = YearDb::new();
    let a = db.register(old, "HID 鼠标 · mouse", "mouse");
    let b = db.register(never, "HID 鼠标 · mouse", "mouse");
    for id in [a, b] {
        db.device_counts.bump((dk, id), 7);
    }
    db.device_keys.bump((dk - 5, a, "空格".to_string()), 30);
    let st = one(2026, db);
    let none = aliases(&[]);
    let today_view = get_device_detail(&st, old, -1, &today(), &none);
    assert!(today_view.keys.is_empty());
    assert!(
        today_view.has_key_detail,
        "「本周期没有明细」不等于「这台设备没记过明细」"
    );
    let all_view = get_device_detail(&st, old, 0, &today(), &none);
    assert!(all_view.has_key_detail);
    assert_eq!(
        all_view.keys.iter().find(|(k, _)| k == "空格").map(|(_, c)| *c),
        Some(30),
        "换成长周期就该看到那条明细"
    );
    assert!(!get_device_detail(&st, never, -1, &today(), &none).has_key_detail);
}

#[test]
fn device_stats_ignores_device_key_as_name() {
    let dk = day_key_of_date(&today());
    let dirty = r"\\?\HID#VID_046D&PID_C52B&MI_00#8&2c5f&0&0000#{378de44c}";
    let clean = "HID#VID_1B1C&PID_1B2D#clean";
    let mut db = YearDb::new();
    for (key, name, kind, n) in [
        (dirty, dirty, "unknown", 40),
        (clean, "我的键盘 · 1B1C/1B2D", "keyboard", 10),
    ] {
        let id = db.register(key, name, kind);
        db.device_counts.bump((dk, id), n);
    }
    let st = one(2026, db);
    let (_, stats) = get_device_stats_by_date(&st, &today(), &aliases(&[]));
    let row = |key: &str| stats.iter().find(|s| s.key == key).expect("设备行");
    assert_eq!(
        row(dirty).name,
        "HID 设备 · 046D/C52B",
        "登记名等于 device_key 时必须当作「没名字」回退"
    );
    assert_ne!(row(dirty).name, dirty, "不能把设备实例路径显示出来");
    assert_eq!(
        row(clean).name,
        "我的键盘 · 1B1C/1B2D",
        "正常登记名不得被这条规则改掉"
    );
}

#[test]
fn device_detail_reports_periods_and_trend() {
    let dk = day_key_of_date(&today());
    let a = "HID#VID_046D&PID_C52B&MI_00#a";
    let b = "HID#VID_046D&PID_C52B&MI_00#b";
    let mut db = YearDb::new();
    let ia = db.register(a, "HID 鼠标 · 046D/C52B", "mouse");
    let ib = db.register(b, "HID 键盘 · 046D/C52B", "keyboard");
    for (id, off, n) in [(ia, 0, 100), (ia, 1, 50), (ia, 2, 25), (ib, 0, 10)] {
        db.device_counts.bump((dk - off, id), n);
    }
    for (key, n, off) in [("鼠标左键", 60, 0), ("滚轮上滑", 40, 0), ("鼠标左键", 150, 1)] {
        db.device_keys.bump((dk - off, ia, key.to_string()), n);
    }
    db.device_keys.bump((dk, ib, "空格".to_string()), 10);
    let st = one(2026, db);
    let none = aliases(&[]);
    let detail = |key: &str, period: i64| get_device_detail(&st, key, period, &today(), &none);

    let d = detail(a, -1);
    assert_eq!(d.today, 100);
    assert_eq!(d.period_count, 100, "今日周期只算今天");
    assert_eq!(d.period_total, 110, "占比分母 = 今日全部设备");
    assert_eq!(d.rank, 1, "今日该设备第一");
    assert_eq!(d.device_count, 2);
    assert_eq!(d.kind_rank, 1, "鼠标类型内第一");
    assert_eq!(d.kind_count, 1);
    assert_eq!(d.kind, "mouse");

    let d = detail(a, 0);
    assert_eq!(d.all, 175);
    assert_eq!(d.today, 100);
    assert_eq!(d.week, 175, "三天数据都在 7 天窗口内");
    assert_eq!(d.month, 175);
    assert_eq!(d.period_count, 175);
    assert_eq!(d.active_days, 3);
    assert_eq!(d.first_date, day_key_text(dk - 2));
    assert_eq!(d.last_date, day_key_text(dk));
    assert_eq!(d.trend.len(), 30, "近 30 天分布固定 30 格");
    assert_eq!(d.trend.last().unwrap().1, 100, "最后一格是今天");
    assert_eq!(d.trend[0].0, day_key_text(dk - 29));

    let d = detail(a, 2);
    assert_eq!(d.period_count, 150);
    assert_eq!(d.period_total, 160);

    let today_detail = detail(a, -1);
    assert!(today_detail.has_key_detail);
    assert_eq!(today_detail.keys.len(), 2, "今日只有左键与滚轮");
    assert_eq!(today_detail.keys[0], ("鼠标左键".to_string(), 60));
    assert_eq!(today_detail.keys[1], ("滚轮上滑".to_string(), 40));
    assert_eq!(today_detail.key_total, 100);
    let all_detail = detail(a, 0);
    assert_eq!(all_detail.key_total, 250, "含昨天的 150 次左键");
    assert_eq!(all_detail.keys[0].1, 210, "左键累计 60 + 150");
    let other = detail(b, -1);
    assert_eq!(other.keys.len(), 1, "另一台设备的明细互不混入");
    assert_eq!(other.keys[0], ("空格".to_string(), 10));
}

fn row(key: &str, name: &str, count: i64) -> DeviceRow {
    DeviceRow {
        device_key: key.to_string(),
        name: Some(name.to_string()),
        kind: Some("mouse".to_string()),
        count,
    }
}

#[test]
fn identical_aliases_are_both_kept_verbatim() {
    let k1 = "HID#VID_1111&PID_2222#1";
    let k2 = "HID#VID_3333&PID_4444#2";
    let t = aliases(&[(k1, "双鼠"), (k2, "双鼠")]);
    let name = "HID 鼠标 · 046D/C52B";
    let (_, stats) = merge_device_rows(vec![row(k1, name, 300), row(k2, name, 200)], &t);
    assert_eq!(stats[0].name, "双鼠");
    assert_eq!(
        stats[1].name, "双鼠",
        "两只都叫「双鼠」是用户自己的决定，去重只对自动名生效",
    );
}

#[test]
fn an_alias_reserves_its_name_against_other_auto_names() {
    let auto_hi = "HID#VID_AAAA&PID_BBBB#a";
    let aliased = "HID#VID_046D&PID_C52B#b";
    let auto_lo = "HID#VID_CCCC&PID_DDDD#c";
    let t = aliases(&[(aliased, "罗技M590")]);
    let (_, stats) = merge_device_rows(
        vec![
            row(auto_hi, "罗技M590", 300),
            row(aliased, "别的登记名", 100),
            row(auto_lo, "罗技M590", 50),
        ],
        &t,
    );
    assert_eq!(stats[0].name, "罗技M590 (2)", "没起过名的自动名让路");
    assert_eq!(stats[1].name, "罗技M590", "用户起的别名一字不改");
    assert_eq!(stats[2].name, "罗技M590 (3)");
    assert_eq!(
        stats[1].auto_name, "别的登记名",
        "auto_name 仍是登记名，供副标题用"
    );
}

#[test]
fn device_alias_overrides_display_name() {
    let key = "HID#VID_046D&PID_C52B&MI_00#7&1f126e19&0&0000";
    let dk = day_key_of_date(&today());
    let mut db = YearDb::new();
    let id = db.register(key, "HID 鼠标 · 046D/C52B", "mouse");
    db.device_counts.bump((dk, id), 42);
    let st = one(2026, db);
    let (_, stats) = get_device_stats_by_date(&st, &today(), &aliases(&[]));
    assert_eq!(stats[0].name, "HID 鼠标 · 046D/C52B");
    assert_eq!(stats[0].name, stats[0].auto_name);
    let none = AliasRead::Good(TextMap::new());
    let Ok((map, _)) = focusflow::device_alias::set(none, key, "新鼠标") else {
        panic!("改名应当成功");
    };
    let (_, stats) = get_device_stats_by_date(&st, &today(), &AliasTable::from_map(&map));
    assert_eq!(stats[0].name, "新鼠标", "展示名应被别名覆盖");
    assert_eq!(stats[0].auto_name, "HID 鼠标 · 046D/C52B");
    assert_eq!(stats[0].count, 42, "改名不影响计数");
    let Ok((map, true)) = clear(AliasRead::Good(map), key) else {
        panic!("删除应当成功");
    };
    let (_, stats) = get_device_stats_by_date(&st, &today(), &AliasTable::from_map(&map));
    assert_eq!(stats[0].name, "HID 鼠标 · 046D/C52B", "清空别名回到自动名");
}

#[test]
fn shown_names_tell_devices_apart() {
    let none = aliases(&[]);
    let (_, stats) = merge_device_rows(
        vec![row("HID#1", "X", 30), row("HID#2", "X", 20), row("HID#3", "X (2)", 10)],
        &none,
    );
    let names: Vec<&str> = stats.iter().map(|s| s.name.as_str()).collect();
    assert_eq!(names, vec!["X", "X (2)", "X (2) (2)"]);
    let t = aliases(&[("HID#4", "X (2)")]);
    let (_, stats) = merge_device_rows(
        vec![row("HID#1", "X", 30), row("HID#2", "X", 20), row("HID#4", "Y", 10)],
        &t,
    );
    let names: Vec<&str> = stats.iter().map(|s| s.name.as_str()).collect();
    assert_eq!(names, vec!["X", "X (3)", "X (2)"], "别名占住的编号要跳过");
}

#[test]
fn a_device_without_a_row_has_no_rank() {
    let dk = day_key_of_date(&today());
    let mut db = YearDb::new();
    let a = db.register("HID#A", "甲", "mouse");
    let b = db.register("HID#B", "乙", "keyboard");
    db.device_counts.bump((dk, a), 5);
    db.device_counts.bump((dk - 9, b), 7);
    db.device_keys.bump((dk - 9, b, "空格".to_string()), 7);
    let st = one(2026, db);
    let none = aliases(&[]);
    let d = get_device_detail(&st, "HID#B", -1, &today(), &none);
    assert_eq!((d.rank, d.kind_rank, d.device_count), (0, 0, 1));
    assert!(d.has_key_detail);
    let d = get_device_detail(&st, "HID#B", 0, &today(), &none);
    assert_eq!((d.rank, d.kind_rank, d.device_count), (1, 1, 2));
    assert!(d.has_key_detail, "有没有明细与周期无关");
    let d = get_device_detail(&st, "HID#NONE", 0, &today(), &none);
    assert_eq!((d.rank, d.device_count), (0, 2));
    assert!(!d.has_key_detail);
}
