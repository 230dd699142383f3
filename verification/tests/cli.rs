use focusflow::cli::{
    backup_report, backups_to_keep, choose_device, cleanup_report, export, export_csv,
    export_format, export_html, find_devices, import_legacy, is_confirmed, is_mentioned,
    parse_keep_days, parse_period, period_label, print_device_keys, print_devices,
    print_list_years, print_stats, print_year_stats, rank_stats, rename_device, reset,
    reset_prompt, run, usage, vacuum_report, years_in_brackets, Command, ExportFormat,
    ImportSummary, Period,
};
use focusflow::config::FocusFlowConfig;
use focusflow::db::devices::DeviceStat;
use focusflow::tally::Tally;

fn args(list: &[&str]) -> Vec<String> {
    list.iter().map(|s| s.to_string()).collect()
}

fn refusal(list: &[&str]) -> String {
    match run(&args(list)) {
        Command::Refused(m) => m,
        _ => panic!("{list:?} 应当被拒绝"),
    }
}

fn stats() -> Tally<String> {
    let mut t = Tally::new();
    t.bump("a,b".to_string(), 5);
    t.bump("=cmd()".to_string(), 3);
    t.bump("<b>x&y</b>".to_string(), 2);
    t
}

fn device(key: &str, name: &str, auto_name: &str, kind: &str, count: i64) -> DeviceStat {
    DeviceStat {
        key: key.to_string(),
        name: name.to_string(),
        auto_name: auto_name.to_string(),
        has_alias: name != auto_name,
        kind: kind.to_string(),
        count,
    }
}

#[test]
fn keep_days_argument_is_bounded() {
    assert_eq!(parse_keep_days("30"), Ok(30));
    assert_eq!(parse_keep_days("1"), Ok(1));
    assert_eq!(parse_keep_days("3660"), Ok(3660), "上限本身是合法保留期");
    for bad in [
        "0",
        "-5",
        "abc",
        "",
        " ",
        "30.5",
        "3661",
        "999999",
        "99999999999",
    ] {
        assert!(parse_keep_days(bad).is_err(), "{bad} 应当被拒绝");
    }
    assert!(parse_keep_days("0").unwrap_err().contains(">= 1"));
    assert!(parse_keep_days("999999").unwrap_err().contains("--reset"));
    assert_eq!(
        parse_keep_days("a\"b").unwrap_err(),
        "保留天数必须是整数（收到 \"a\\\"b\"）"
    );
}

#[test]
fn period_argument_matches_the_ui_semantics() {
    assert!(matches!(parse_period("today"), Ok(Period::Today)));
    assert!(matches!(parse_period("ALL"), Ok(Period::All)));
    assert!(matches!(parse_period("7"), Ok(Period::Days(7))));
    assert!(matches!(parse_period("-1"), Ok(Period::Today)));
    assert!(matches!(parse_period("0"), Ok(Period::All)));
    for bad in ["-5", "99999999999", "abc", "", " "].iter() {
        assert!(parse_period(bad).is_err(), "{bad} 应当被拒绝");
    }
    assert_eq!(
        parse_period("abc"),
        Err("无效的参数: abc（应为数字、today 或 all）".to_string())
    );
    assert_eq!(
        parse_period("-5"),
        Err("无效的天数: -5（-1 = 今日，0 = 总计，1..=36500 = 最近 N 天）".to_string())
    );
}

#[test]
fn cli_exports_escape_key_names() {
    let rows = rank_stats(&stats());
    assert_eq!(rows[0].key, "a,b");
    let shares = args(&["50.0", "30.0", "20.0"]);
    let csv_text = export_csv(10, &rows, &shares, "2026-09-20 12:00:00");
    assert!(csv_text.contains("\"a,b\""), "逗号字段应加引号: {csv_text}");
    assert!(csv_text.contains("'=cmd()"), "公式注入应加前导引号: {csv_text}");
    assert!(csv_text.starts_with('\u{feff}'));
    let html_text = export_html(10, &rows, &shares, &shares, "2026-09-20 12:00:00");
    assert!(
        html_text.contains("&lt;b&gt;x&amp;y&lt;/b&gt;"),
        "HTML 键名应转义，不得出现原始尖括号: {html_text}"
    );
    assert!(!html_text.contains("<b>x&y</b>"), "转义后不应残留未转义形式");
}

#[test]
fn arguments_are_commands() {
    assert!(matches!(run(&args(&[])), Command::NoArguments));
    assert!(matches!(run(&args(&["-h"])), Command::Help));
    assert!(matches!(run(&args(&["--help", "x"])), Command::Help));
    assert!(matches!(run(&args(&["--stats", "7"])), Command::Stats(Period::Days(7))));
    assert!(matches!(run(&args(&["--stats-year", "2026"])), Command::StatsYear(2026)));
    assert!(matches!(run(&args(&["--list-years"])), Command::ListYears));
    assert!(matches!(run(&args(&["--devices", "all"])), Command::Devices(Period::All)));
    assert!(matches!(run(&args(&["--device-keys"])), Command::DeviceKeys));
    assert!(matches!(run(&args(&["--reset"])), Command::Reset));
    assert!(matches!(run(&args(&["--vacuum"])), Command::Vacuum));
    assert!(matches!(run(&args(&["--backup"])), Command::Backup));
    assert!(matches!(run(&args(&["--cleanup", "30"])), Command::Cleanup(30)));
    match run(&args(&["--rename-device", "046D", ""])) {
        Command::RenameDevice(p, a) => assert_eq!((p.as_str(), a.as_str()), ("046D", "")),
        _ => panic!(),
    }
    match run(&args(&["--export", "xml"])) {
        Command::Export(f) => assert_eq!(f, "xml"),
        _ => panic!(),
    }
    match run(&args(&["--import-legacy", "d"])) {
        Command::ImportLegacy(d) => assert_eq!(d, "d"),
        _ => panic!(),
    }
    assert!(usage().contains("--rename-device"));
}

#[test]
fn refusals_say_why() {
    assert_eq!(refusal(&["--stats"]), "用法: --stats <天数|today|all>\n");
    assert_eq!(
        refusal(&["--stats", "x"]),
        "无效的参数: x（应为数字、today 或 all）\n"
    );
    assert_eq!(refusal(&["--stats-year"]), "用法: --stats-year <年份>\n");
    assert_eq!(refusal(&["--stats-year", "MMXX"]), "无效的年份: MMXX\n");
    assert_eq!(refusal(&["--devices"]), "用法: --devices <天数|today|all>\n");
    assert!(refusal(&["--rename-device", "x"]).starts_with("用法: --rename-device"));
    assert_eq!(refusal(&["--export"]), "用法: --export <csv|html>\n");
    assert_eq!(refusal(&["--cleanup"]), "用法: --cleanup <保留天数>\n");
    assert_eq!(
        refusal(&["--cleanup", "soon"]),
        "保留天数必须是整数（收到 \"soon\"），已取消\n"
    );
    assert_eq!(
        refusal(&["--cleanup", "0"]),
        "保留天数必须 >= 1（收到 0）：0 或负数会连今天一起删掉，已取消\n"
    );
    assert!(refusal(&["--import-legacy"]).starts_with("用法: --import-legacy"));
    assert_eq!(refusal(&["stats"]), "未知参数: stats\n");
}

#[test]
fn reports_of_statistics() {
    let rows = rank_stats(&stats());
    let shares = args(&["50.0", "30.0", "20.0"]);
    assert_eq!(period_label(Period::Days(7)), "最近 7 天");
    let r = print_stats("今日", 1234567, &rows, &shares);
    assert_eq!(r.code, 0);
    assert!(r.err.is_empty());
    assert!(r.out.contains("FocusFlow 活跃统计 - 今日"), "{}", r.out);
    assert!(r.out.contains("1,234,567"), "{}", r.out);
    let r = print_year_stats(2026, 10, &rows);
    assert!(r.out.contains("2026 年度"), "{}", r.out);
    assert_eq!(print_list_years(&vec![]).out, "暂无数据\n");
    assert!(print_list_years(&vec![2026, 2025]).out.contains("2025"));
    assert_eq!(years_in_brackets(&vec![2026, 2025]), "[2026, 2025]");
}

#[test]
fn exports_of_statistics() {
    assert_eq!(export_format("csv"), Ok(ExportFormat::Csv));
    assert_eq!(export_format("html"), Ok(ExportFormat::Html));
    assert_eq!(
        export_format("xml"),
        Err("不支持的格式: xml（可选 csv 或 html）\n".to_string())
    );
    assert_eq!(export("a.csv", true).out, "已导出到: a.csv\n");
    let r = export("a.csv", false);
    assert_eq!((r.out.as_str(), r.code), ("导出失败\n", 1));
}

#[test]
fn devices_are_found_by_a_part_of_their_names() {
    let rows = vec![
        device("HID#VID_046D", "我的鼠标", "HID 鼠标", "mouse", 5),
        device("HID#VID_1B1C", "Keys", "HID 键盘", "keyboard", 3),
    ];
    assert!(is_mentioned("hid#vid_046d", "a", "b", "vid_046d"));
    assert!(!is_mentioned("hid#vid_046d", "a", "b", "c"));
    assert_eq!(find_devices(&rows, "KEYS"), vec![1]);
    assert_eq!(find_devices(&rows, "hid"), vec![0, 1]);
    assert_eq!(choose_device(&rows, &vec![1], "keys"), Ok(1));
    assert_eq!(
        choose_device(&rows, &vec![], "zz").unwrap_err(),
        "未找到匹配的设备: zz\n  用 --device-keys 查看全部设备标识\n"
    );
    let many = choose_device(&rows, &vec![0, 1], "hid").unwrap_err();
    assert!(many.starts_with("匹配到 2 个设备"), "{many}");
    assert!(many.contains(" <- HID#VID_1B1C\n"), "{many}");
    assert_eq!(rename_device("HID 鼠标", "", None).out, "已还原为自动名: HID 鼠标\n");
    assert_eq!(
        rename_device("HID 鼠标", "新", None).out,
        "已设别名: HID 鼠标 -> 新\n"
    );
    let r = rename_device("HID 鼠标", "新", Some("磁盘已满"));
    assert_eq!((r.err.as_str(), r.code), ("写入别名失败: 磁盘已满\n", 1));
    let r = print_devices("今日", 8, &rows, &args(&["62.5%", "37.5%"]));
    assert!(r.out.contains("我的鼠标") && r.out.contains("键盘"), "{}", r.out);
    assert!(print_devices("今日", 0, &vec![], &vec![]).out.contains("暂无设备数据"));
    assert!(print_device_keys(8, &rows).out.contains("device_key: HID#VID_046D"));
    assert_eq!(
        print_device_keys(0, &vec![]).out,
        "暂无设备数据（设备统计从功能上线后开始积累）\n"
    );
}

#[test]
fn reports_of_maintenance() {
    assert_eq!(
        vacuum_report("D", &vec![]).out,
        "压缩全部年度库（数据目录 D）\n压缩完成\n"
    );
    let r = vacuum_report("D", &vec![2025]);
    assert_eq!(r.code, 1);
    assert!(r.err.contains("[2025]"), "{}", r.err);
    assert_eq!(backups_to_keep(&FocusFlowConfig::in_memory()), 5);
    assert_eq!(
        backup_report(Some("p.db"), "B").out,
        "备份完成: p.db\n  目录: B（已停用插件的数据会跳过）\n"
    );
    let r = backup_report(None, "B");
    assert_eq!((r.err.as_str(), r.code), ("备份失败或无可备份的数据库\n", 1));
    let r = cleanup_report("D", 30, 1234, &vec![]);
    assert_eq!(r.code, 0);
    assert!(r.out.contains("1,234"), "{}", r.out);
    let r = cleanup_report("D", 30, 0, &vec![2024]);
    assert_eq!(r.code, 1);
    assert!(r.err.contains("[2024]"), "{}", r.err);
    assert!(reset_prompt("D", &vec![2026]).contains("[2026]"));
    assert!(is_confirmed(" yes \n"));
    assert!(!is_confirmed("y\n"));
    assert_eq!(reset(None).out, "已取消\n");
    let r = reset(Some((1234, vec![])));
    assert_eq!((r.out.as_str(), r.code), ("所有统计记录已清空 (1,234 行)\n", 0));
    let r = reset(Some((0, vec![2025])));
    assert_eq!(r.code, 1);
    assert!(r.err.contains("2025"), "{}", r.err);
}

#[test]
fn reports_of_an_import() {
    let r = import_legacy("d", None);
    assert_eq!(
        (r.err.as_str(), r.code),
        ("旧数据目录不存在或不是目录: d\n", 1)
    );
    let empty = ImportSummary {
        has_years: false,
        records_by_year: vec![],
        copied_aux: vec![],
        backed_up_aux: vec![],
        skipped: vec![],
        errors: vec![],
    };
    assert_eq!(
        import_legacy("d", Some(empty)).out,
        "\n=== 旧数据导入完成 ===\n未发现可导入的数据\n\n"
    );
    let full = ImportSummary {
        has_years: true,
        records_by_year: vec![(2024, 12)],
        copied_aux: args(&["a.db", "b.db"]),
        backed_up_aux: args(&["a.db.bak"]),
        skipped: args(&["c.db"]),
        errors: args(&["坏库"]),
    };
    let r = import_legacy("d", Some(full));
    assert_eq!(r.code, 1);
    assert!(r.out.contains("  2024 年度键鼠: 12 条记录\n"), "{}", r.out);
    assert!(r.out.contains("  附属数据: a.db, b.db\n"), "{}", r.out);
    assert!(r.out.contains("坏库"), "{}", r.out);
}
