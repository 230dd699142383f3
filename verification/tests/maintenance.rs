use chrono::{Datelike, NaiveDate};
use focusflow::calendar::{day_key_of_date, Date};
use focusflow::config::FocusFlowConfig;
use focusflow::db::archive::{archive_stale_years, archive_year_range, check_yearly_archive};
use focusflow::db::backup::{
    after_backup, auxiliary_dbs, backup_database, backup_file_date, backup_group, change_note,
    disabled_plugin_stems, finalize_backup, is_stale_sidecar, is_suspicious_change,
    maybe_auto_vacuum, newest_backup_of_group, next_step, periodic_tick, rotate_backups, select_retained,
    should_backup_aux, sidecar_base, suspect_note, year_db_needs_backup, AuxSource,
    BackupEntry, BackupFingerprint, FileStep, RetentionPolicy, Tick, YearSource,
};
use focusflow::db::devices::get_device_stats;
use focusflow::db::legacy::{
    combo_key_mapping, merge_active_seconds_into_daily, migrate_device_tables, migrate_v2_file,
    LegacyDevices, LogEntry,
};
use focusflow::db::maintenance::{cleanup_old_data, delete_key_today, reset_all_data};
use focusflow::db::pool::RoPool;
use focusflow::db::repair::{daily_inconsistency, heal_daily_consistency};
use focusflow::db::store::{Store, YearDb, YearFile};
use focusflow::device_alias::AliasTable;
use focusflow::tally::Tally;
use focusflow::textmap::TextMap;

fn dk(year: i32, month: u32, day: u32) -> i64 {
    day_key_of_date(&Date { year, month, day })
}

fn put(st: &mut Store, year: i32, db: YearDb) {
    st.files.push(YearFile { year, db: Some(db) });
}

fn tables(st: &Store, year: i32) -> &YearDb {
    st.files[st.find(year)].db.as_ref().expect("库")
}

fn files(names: &[String]) -> Vec<BackupEntry> {
    names
        .iter()
        .enumerate()
        .map(|(i, n)| BackupEntry {
            name: n.clone(),
            mtime: Some(i as i128),
            date: None,
        })
        .collect()
}

fn names(list: &[&str]) -> Vec<String> {
    list.iter().map(|s| s.to_string()).collect()
}

const RECENT: RetentionPolicy = RetentionPolicy {
    recent: 2,
    daily: 0,
    weekly: 0,
    monthly: 0,
};

#[test]
fn rotate_groups_by_first_segment() {
    let all = names(&[
        "focusflow_2026_20260911_100000.db",
        "focusflow_2026_20260912_100000.db",
        "focusflow_2026_20260912_110000.db",
        "focusflow_accounting_20260911_100000.db",
        "focusflow_accounting_20260912_100000.db",
        "focusflow_accounting_20260912_110000.db",
    ]);
    let gone = rotate_backups(&files(&all), RECENT, false);
    let remaining: Vec<&String> = all.iter().zip(&gone).filter(|(_, g)| !**g).map(|(n, _)| n).collect();
    assert_eq!(remaining.len(), 4, "两组各保留 2 个");
    assert!(
        !remaining.contains(&&"focusflow_2026_20260911_100000.db".to_string()),
        "2026 组最旧备份应被删除"
    );
    assert!(
        !remaining.contains(&&"focusflow_accounting_20260911_100000.db".to_string()),
        "accounting 组最旧备份应被删除"
    );
}

#[test]
fn archive_remaps_device_ids_and_carries_registry() {
    let dev = "HID#VID_046D&PID_C52B&MI_00#7&1f126e19&0&0000";
    let other = "HID#VID_1B1C&PID_1B2D#other";
    let (stale, fresh) = (dk(2024, 6, 1), dk(2025, 3, 1));
    let mut st = Store::new();
    let mut target = YearDb::new();
    target.register(other, "HID 鼠标 · 1B1C/1B2D", "mouse");
    put(&mut st, 2024, target);
    let mut source = YearDb::new();
    let sid = source.register(dev, "HID 键盘 · 046D/C52B", "keyboard");
    assert_eq!(sid, 1, "源库自己编号");
    source.device_counts.bump((stale, sid), 9);
    source.device_keys.bump((stale, sid, "空格".to_string()), 9);
    source.device_counts.bump((fresh, sid), 4);
    put(&mut st, 2025, source);
    assert!(
        archive_year_range(&mut st, 2024, 2025, dk(2024, 1, 1), dk(2025, 1, 1)),
        "应把 2024 年数据迁到 2024 年库"
    );
    let dst = tables(&st, 2024);
    let d = &dst.devices[dst.find_device(dev)];
    assert_ne!(d.id, 1, "id 必须经映射换算，不能照搬源库编号");
    assert_eq!(dst.device_counts.get(&(stale, d.id)), 9);
    assert_eq!(d.name, "HID 键盘 · 046D/C52B");
    assert_eq!(
        dst.device_keys.get(&(stale, d.id, "空格".to_string())),
        9,
        "明细必须挂在对的设备上"
    );
    let src = tables(&st, 2025);
    let sid = src.devices[src.find_device(dev)].id;
    assert_eq!(src.device_counts.total(), 4, "2025 年自己的数据不得迁走");
    assert_eq!(src.device_counts.get(&(fresh, sid)), 4);
    let none = AliasTable::from_map(&TextMap::new());
    let today = Date { year: 2025, month: 9, day: 20 };
    let (total, stats) = get_device_stats(&st, None, Some(2024), &today, &none);
    assert_eq!(total, 9);
    let hit = stats.iter().find(|s| s.key == dev).expect("2024 年应能查到该设备");
    assert_eq!(hit.name, "HID 键盘 · 046D/C52B");
    assert_eq!(hit.count, 9);
}

#[test]
fn archive_migrates_all_stale_years_and_all_tables() {
    let mut st = Store::new();
    let mut source = YearDb::new();
    for (y, m, d) in [(2023, 5, 1), (2024, 6, 1), (2025, 3, 1)] {
        let k = dk(y, m, d);
        source.daily.bump(k, 100);
        source.seconds.bump(k, 200);
        source.apps.bump((k, "a.exe".to_string()), 300);
    }
    put(&mut st, 2025, source);
    assert!(archive_stale_years(&mut st, 2025), "应迁移到往年数据");
    for (y, m, d) in [(2023, 5, 1), (2024, 6, 1)] {
        let k = dk(y, m, d);
        let db = tables(&st, y);
        assert_eq!(
            (
                db.daily.get(&k),
                db.seconds.get(&k),
                db.apps.get(&(k, "a.exe".to_string()))
            ),
            (100, 200, 300),
            "{y} 年数据不完整"
        );
    }
    let src = tables(&st, 2025);
    assert_eq!(src.daily.len(), 1, "往年数据必须全部迁走");
    assert_eq!(src.daily.get(&dk(2025, 3, 1)), 100, "当年数据不能被误迁");
    assert!(
        !archive_stale_years(&mut st, 2025),
        "无往年数据时不应重复归档"
    );
    assert!(!check_yearly_archive(&mut st, false, 2025));
}

#[test]
fn archive_merges_into_existing_target_rows() {
    let k = dk(2024, 7, 1);
    let mut st = Store::new();
    for (year, n) in [(2024, 5), (2025, 7)] {
        let mut db = YearDb::new();
        db.daily.bump(k, n);
        db.seconds.bump(k, 0);
        put(&mut st, year, db);
    }
    assert!(
        archive_year_range(&mut st, 2024, 2025, dk(2024, 1, 1), dk(2025, 1, 1)),
        "同 date_key 冲突时必须合并完成归档，而不是回滚"
    );
    assert_eq!(
        tables(&st, 2024).daily.get(&k),
        12,
        "已存在的行应合并计数（5 + 7）"
    );
}

#[test]
fn unchanged_historical_year_is_not_rebacked_up() {
    assert!(year_db_needs_backup(Some((10, 1)), None), "首轮应备份历史年度库");
    assert!(
        !year_db_needs_backup(Some((10, 1)), Some((10, 1))),
        "未变化的历史年度库不应被重复备份"
    );
    assert!(
        year_db_needs_backup(Some((10, 2)), Some((10, 1))),
        "源库变化后必须重新备份"
    );
    assert!(year_db_needs_backup(None, Some((10, 1))));
    let source = |year, current, recorded| YearSource {
        year,
        exists: true,
        current: Some(current),
        recorded,
    };
    let years = vec![
        source(2026, (10, 1), Some((10, 1))),
        source(2025, (10, 1), Some((10, 1))),
        source(2024, (10, 2), Some((10, 1))),
    ];
    let aux = vec![
        AuxSource {
            name: "accounting".to_string(),
            plugin_stem: "accounting_plugin".to_string(),
            exists: true,
        },
        AuxSource {
            name: "pomodoro".to_string(),
            plugin_stem: "pomodoro_plugin".to_string(),
            exists: true,
        },
    ];
    let disabled = names(&["pomodoro_plugin"]);
    let plan = backup_database(&years, &aux, &disabled, false, 2026, "20260920_120000000");
    let made: Vec<&str> = plan.iter().map(|t| t.file.as_str()).collect();
    assert_eq!(
        made,
        vec![
            "focusflow_2026_20260920_120000000.db",
            "focusflow_2024_20260920_120000000.db",
            "focusflow_accounting_20260920_120000000.db",
        ]
    );
}

#[test]
fn heal_detects_before_writing_and_repairs_mismatch() {
    let mut db = YearDb::new();
    for (day, daily, detail) in [(1, 10, 10), (2, 99, 4)] {
        db.daily.bump(day, daily);
        db.seconds.bump(day, 0);
        db.keys.bump((day, "A".to_string()), detail);
        db.hourly.bump((day, 9), detail);
    }
    let d = daily_inconsistency(&db);
    assert!(d.has_daily_mismatch, "应检出 daily 与明细不一致");
    assert_eq!(d.hourly_mismatch_days, vec![2], "只有第 2 天 hourly 偏差");
    let mut st = Store::new();
    put(&mut st, 2026, db);
    heal_daily_consistency(&mut st);
    let db = tables(&st, 2026);
    assert_eq!(db.daily.get(&1), 10, "一致的天不应被改动");
    assert_eq!(db.daily.get(&2), 4, "不一致的天应被重算为 Σkey_counts");
    assert_eq!(db.hourly.get(&(2, 9)), 4, "Σhourly 应被对齐到 daily");
    let d = daily_inconsistency(db);
    assert!(!d.has_daily_mismatch);
    assert!(d.hourly_mismatch_days.is_empty());
}

#[test]
fn healing_twice_is_healing_once() {
    let mut db = YearDb::new();
    db.daily.bump(3, 10);
    db.seconds.bump(3, 60);
    db.keys.bump((3, "A".to_string()), 4);
    db.hourly.bump((3, 9), 6);
    db.hourly.bump((3, 10), 4);
    let mut st = Store::new();
    put(&mut st, 2026, db);
    heal_daily_consistency(&mut st);
    let once = (
        tables(&st, 2026).daily.rows.clone(),
        tables(&st, 2026).hourly.rows.clone(),
    );
    assert_eq!(once.0, vec![(3, 4)]);
    assert_eq!(once.1, vec![((3, 9), 2), ((3, 10), 2)], "各小时按占比扣减，余数从最大小时补扣");
    assert_eq!(tables(&st, 2026).seconds.get(&3), 60);
    heal_daily_consistency(&mut st);
    assert_eq!(tables(&st, 2026).daily.rows, once.0);
    assert_eq!(tables(&st, 2026).hourly.rows, once.1);
}

#[test]
fn rotation_and_sweep_clean_sidecars() {
    let mut dir: Vec<(String, u64)> = Vec::new();
    for name in [
        "focusflow_2026_20260901_100000.db",
        "focusflow_2026_20260902_100000.db",
        "focusflow_2026_20260903_100000.db",
    ] {
        dir.push((name.to_string(), 1));
        dir.push((format!("{name}-wal"), 0));
        dir.push((format!("{name}-shm"), 4));
    }
    for (name, len) in [
        ("focusflow_2026_20260904_100000.db-wal", 0),
        ("focusflow_accounting_20260905_100000.db-shm", 4),
        ("focusflow_accounting_20260905_100000.db-wal", 4),
        ("focusflow_2026_20260906_100000.db", 1),
        ("focusflow_2026_20260906_100000.db-wal", 4),
    ] {
        dir.push((name.to_string(), len));
    }
    let mut swept = 0;
    for (name, _) in dir.clone() {
        let Some(base) = sidecar_base(&name) else { continue };
        let exists = dir.iter().any(|f| f.0 == base);
        let wal = dir.iter().find(|f| f.0 == format!("{base}-wal")).map(|f| f.1);
        if is_stale_sidecar(exists, wal) {
            dir.retain(|f| f.0 != name);
            swept += 1;
        }
    }
    assert_eq!(swept, 9, "9 个可安全删除（空 WAL / 主库已不存在的孤儿；非空 WAL 保留）");
    assert!(
        dir.iter().any(|f| f.0 == "focusflow_2026_20260906_100000.db-wal"),
        "非空 WAL 绝不能删（可能含未合并数据）"
    );
    let policy = RetentionPolicy {
        recent: 1,
        daily: 0,
        weekly: 0,
        monthly: 0,
    };
    let all: Vec<String> = dir.iter().map(|f| f.0.clone()).collect();
    let gone = rotate_backups(&files(&all), policy, false);
    let removed: Vec<&String> = all.iter().zip(&gone).filter(|(_, g)| **g).map(|(n, _)| n).collect();
    let left: Vec<&String> = all
        .iter()
        .filter(|n| !removed.contains(n))
        .filter(|n| !sidecar_base(n).is_some_and(|b| removed.contains(&&b)))
        .collect();
    assert_eq!(left.len(), 2, "1 个 .db + 1 个非空 WAL，实际: {left:?}");
    assert!(!left.iter().any(|n| n.ends_with("-shm")), "空 WAL 的 sidecar 不该残留: {left:?}");

    assert!(is_stale_sidecar(false, Some(4)), "主库已不存在的孤儿");
    assert!(is_stale_sidecar(true, Some(0)), "空 WAL");
    assert!(!is_stale_sidecar(true, Some(4)), "非空 WAL 绝不能删");
    assert!(finalize_backup(true, Some(4)), "已切回单文件");
    assert!(finalize_backup(false, Some(0)) && finalize_backup(false, None));
    assert!(!finalize_backup(false, Some(4)), "未切换成功时非空 WAL 绝不能删");
    assert_eq!(
        sidecar_base("focusflow_2026_20260906_100000.db-wal").as_deref(),
        Some("focusflow_2026_20260906_100000.db")
    );
    assert_eq!(
        sidecar_base("focusflow_2026_20260906_100000.db-shm").as_deref(),
        Some("focusflow_2026_20260906_100000.db")
    );
    assert_eq!(sidecar_base("focusflow_2026_20260906_100000.db"), None);
}

#[test]
fn disabled_plugin_data_skipped_in_backup() {
    let disabled = names(&["pomodoro_plugin", "scheduler_plugin", "edge_history_plugin"]);
    assert!(
        should_backup_aux("accounting_plugin", &disabled, false),
        "启用中的插件照常备份"
    );
    assert!(!should_backup_aux("pomodoro_plugin", &disabled, false));
    assert!(!should_backup_aux("edge_history_plugin", &disabled, false));
    assert!(
        should_backup_aux("pomodoro_plugin", &disabled, true),
        "backup_disabled_plugins=true 时强制全量"
    );
    assert!(
        should_backup_aux("scheduler_plugin", &Vec::new(), false),
        "无停用项时全部备份"
    );
    let cfg = FocusFlowConfig::load(Some("[plugins]\ndisabled = a_plugin, b_plugin ,\n"));
    assert_eq!(
        disabled_plugin_stems(&cfg),
        vec!["a_plugin".to_string(), "b_plugin".to_string()]
    );
}

#[test]
fn aux_db_plugin_stems_match_plugin_files() {
    let plugins = [
        "accounting_plugin.lua",
        "pomodoro_plugin.lua",
        "scheduler_plugin.lua",
        "edge_history_plugin.lua",
    ];
    let all = auxiliary_dbs();
    assert_eq!(all.len(), 4);
    for (name, stem) in all {
        assert!(
            plugins.contains(&format!("{stem}.lua").as_str()),
            "附属库 {name} 对应的插件文件不存在: {stem}"
        );
    }
}

#[test]
fn retention_keeps_daily_weekly_monthly_tiers() {
    let start = NaiveDate::from_ymd_opt(2026, 8, 1).unwrap();
    let end = NaiveDate::from_ymd_opt(2026, 9, 20).unwrap();
    let mut all: Vec<String> = Vec::new();
    let mut d = end;
    loop {
        for t in ["235959000", "120000000", "010000000"] {
            all.push(format!("focusflow_2026_{}_{t}.db", d.format("%Y%m%d")));
        }
        if d == start {
            break;
        }
        d = d.pred_opt().unwrap();
    }
    let policy = RetentionPolicy {
        recent: 5,
        daily: 7,
        weekly: 4,
        monthly: 6,
    };
    let keep = select_retained(&files(&all), policy);
    let kept: Vec<&String> = all.iter().zip(keep.iter()).filter(|(_, k)| **k).map(|(f, _)| f).collect();
    assert_eq!(keep.len(), all.len(), "结果与输入等长");
    assert!(keep[..5].iter().all(|k| *k), "最近 5 份必须保留");
    assert!(
        kept.len() < all.len(),
        "必须真的删掉一部分（否则不算轮转）"
    );
    for offset in 2..=6 {
        let day = end - chrono::Duration::days(offset);
        let part = day.format("%Y%m%d").to_string();
        let day_kept: Vec<&&String> = kept.iter().filter(|f| f.contains(&part)).collect();
        assert_eq!(day_kept.len(), 1, "{day} 应恰好保留一份（每天一份）");
        assert!(
            day_kept[0].contains("235959000"),
            "{day} 保留的应是该天最新那份"
        );
    }
    assert!(
        kept.iter().any(|f| f.contains("20260831_235959000")),
        "月档必须保留 8 月最新一份（超出日/周窗口的干净副本）"
    );
    assert_eq!(start.day(), 1);
}

#[test]
fn suspicious_change_flags_drops_and_spikes() {
    let base = BackupFingerprint {
        total: 100_000,
        days: 120,
    };
    let fp = |total, days| BackupFingerprint { total, days };
    assert!(
        !is_suspicious_change(base, fp(102_000, 121)),
        "正常增长不应告警"
    );
    assert!(
        is_suspicious_change(base, fp(40_000, 120)),
        "总量掉一半以上：疑似丢数据"
    );
    assert!(
        is_suspicious_change(base, fp(500_000, 120)),
        "总量涨到 4 倍以上：疑似重复计数"
    );
    assert!(
        is_suspicious_change(base, fp(100_000, 100)),
        "天数明显减少（历史被清）"
    );
    assert!(
        !is_suspicious_change(fp(500, 3), fp(10, 1)),
        "样本太小不判定（新装用户）"
    );
    assert!(change_note("a.db", base, "b.db", fp(40_000, 120)).is_some());
    assert!(change_note("a.db", base, "b.db", fp(102_000, 121)).is_none());
    assert!(suspect_note("20260920_120000", "掉了").contains("掉了"));
}

#[test]
fn freeze_skips_rotation_entirely() {
    let all: Vec<String> = (0..10)
        .map(|i| format!("focusflow_2026_202609{:02}_120000000.db", i + 1))
        .collect();
    let f = files(&all);
    assert!(
        rotate_backups(&f, RECENT, true).iter().all(|g| !g),
        "冻结时不得删除任何备份"
    );
    let gone = rotate_backups(&f, RECENT, false);
    assert_eq!(
        gone.iter().filter(|g| !**g).count(),
        2,
        "未冻结时按策略保留最近 2 份"
    );
    assert!(!gone[9] && !gone[8]);
}

#[test]
fn dates_and_groups_of_backups() {
    let day = Date { year: 2026, month: 9, day: 11 };
    assert_eq!(backup_file_date("focusflow_2026_20260911_100000.db", None), Some(day));
    let other = Date { year: 2020, month: 1, day: 2 };
    assert_eq!(backup_file_date("focusflow_2026_20261399_100000.db", Some(other)), Some(other));
    assert_eq!(
        backup_group("focusflow_accounting_20260911_100000.db").as_deref(),
        Some("accounting")
    );
    assert_eq!(backup_group("notes.txt"), None);
    let f = files(&names(&[
        "focusflow_2026_20260911_100000.db",
        "focusflow_2026_20260912_100000.db",
        "focusflow_accounting_20260912_100000.db",
    ]));
    assert_eq!(newest_backup_of_group(&f, "2026"), Some(1));
    assert_eq!(newest_backup_of_group(&f, "2020"), None);
}

#[test]
fn a_backup_of_a_year_has_a_second_way() {
    assert!(matches!(
        next_step(FileStep::Online, true, true),
        FileStep::Seal { .. }
    ));
    assert!(matches!(
        next_step(FileStep::Online, false, true),
        FileStep::Checkpoint
    ));
    assert!(matches!(
        next_step(FileStep::Seal { stamp: true, last: true }, false, true),
        FileStep::Done { ok: false }
    ));
    assert!(matches!(
        next_step(FileStep::Seal { stamp: true, last: true }, true, true),
        FileStep::Done { ok: true }
    ));
    let policy = RetentionPolicy::from_config(&FocusFlowConfig::in_memory());
    assert!(after_backup(0, false, policy, 5).is_none(), "没有备份成功就不轮转");
    let (_, freeze) = after_backup(1, true, policy, 5).unwrap();
    assert!(freeze, "可疑变化必须冻结轮转");
    assert!(matches!(periodic_tick(0, 1_000_000), Tick::Off));
    assert!(matches!(periodic_tick(1, 3_599), Tick::Wait));
    assert!(matches!(periodic_tick(1, 3_600), Tick::Backup));
}

#[test]
fn compaction_comes_due() {
    let now = (1_789_905_600i64, 0u32);
    assert!(!maybe_auto_vacuum(0, None, now), "0 = 关闭");
    assert!(maybe_auto_vacuum(30, None, now), "从未压缩过");
    assert!(!maybe_auto_vacuum(30, Some("2026-09-19T12:00:00+00:00"), now));
    assert!(maybe_auto_vacuum(30, Some("2026-07-01T12:00:00+00:00"), now));
    assert!(maybe_auto_vacuum(30, Some("no time"), now));
}

#[test]
fn migrates_legacy_device_key_tables_to_ids() {
    let kb = "HID#VID_046D&PID_C52B&MI_00#7&1f126e19&0&0000";
    let mut legacy = LegacyDevices {
        devices: vec![(
            kb.to_string(),
            "HID 键盘 · 046D/C52B".to_string(),
            "keyboard".to_string(),
        )],
        counts: Tally::new(),
        keys: Tally::new(),
    };
    legacy.counts.bump((20716, kb.to_string()), 12);
    legacy.keys.bump((20716, kb.to_string(), "空格".to_string()), 7);
    legacy.counts.bump((20715, "HID#ORPHAN".to_string()), 3);
    let mut db = YearDb::new();
    migrate_device_tables(&mut db, Some(&legacy));
    let d = &db.devices[db.find_device(kb)];
    assert_eq!(db.device_counts.get(&(20716, d.id)), 12, "计数必须原样保留");
    assert_eq!(db.device_keys.get(&(20716, d.id, "空格".to_string())), 7);
    assert_eq!(d.name, "HID 键盘 · 046D/C52B", "登记名不能丢");
    assert_eq!(
        db.devices.iter().filter(|d| d.key == "HID#ORPHAN").count(),
        1,
        "孤儿统计行必须补占位登记，不能静默丢数"
    );
    assert_eq!(db.device_counts.total(), 15);
    migrate_device_tables(&mut db, None);
    assert_eq!(db.devices.len(), 2, "重复调用不得重复登记");
    assert_eq!(db.device_counts.total(), 15, "重复调用不得重复加数");
}

#[test]
fn ensure_schema_merges_legacy_active_seconds() {
    let mut db = YearDb::new();
    for (day, n) in [(1000, 42), (1001, 7)] {
        db.daily.bump(day, n);
        db.seconds.bump(day, 0);
    }
    let mut active = Tally::new();
    active.bump(1000, 3600);
    active.bump(1002, 900);
    merge_active_seconds_into_daily(&mut db, Some(&active));
    let ones = |day: i64| (db.daily.get(&day), db.seconds.get(&day));
    assert_eq!(ones(1000), (42, 3600), "A 天：按键与时长都应保留");
    assert_eq!(ones(1001), (7, 0), "B 天：没有时长应补 0，按键数不受影响");
    assert_eq!(ones(1002), (0, 900), "C 天：只有时长的行不得丢失");
    assert!(db.daily.contains(&1002));
    merge_active_seconds_into_daily(&mut db, None);
    assert_eq!(
        (db.daily.get(&1000), db.seconds.get(&1000)),
        (42, 3600),
        "重复迁移必须幂等"
    );
}

#[test]
fn an_old_log_becomes_counts() {
    assert_eq!(combo_key_mapping("A"), None);
    let mut db = YearDb::new();
    let log: Vec<LogEntry> = [(43_200, "A"), (43_260, "A"), (86_400, "B")]
        .iter()
        .map(|(time, key)| LogEntry {
            time: *time,
            key: key.to_string(),
        })
        .collect();
    migrate_v2_file(&mut db, &log, 0);
    assert_eq!(db.daily.get(&0), 2);
    assert_eq!(db.daily.get(&1), 1);
    assert_eq!(db.hourly.get(&(0, 12)), 2);
    assert_eq!(db.keys.get(&(0, "A".to_string())), 2);
}

#[test]
fn a_key_of_today_is_taken_out() {
    let today = Date { year: 2026, month: 9, day: 20 };
    let k = day_key_of_date(&today);
    let mut db = YearDb::new();
    for (key, n) in [("A", 6), ("B", 4)] {
        db.keys.bump((k, key.to_string()), n);
        db.daily.bump(k, n);
    }
    db.seconds.bump(k, 0);
    db.hourly.bump((k, 9), 10);
    let mut st = Store::new();
    put(&mut st, 2026, db);
    assert_eq!(delete_key_today(&mut st, "A", &today), 6);
    let db = tables(&st, 2026);
    assert_eq!(db.daily.get(&k), 4);
    assert_eq!(db.hourly.get(&(k, 9)), 4, "小时表要跟着当天总数缩");
    assert!(!db.keys.contains(&(k, "A".to_string())));
    assert_eq!(delete_key_today(&mut st, "C", &today), 0);
}

#[test]
fn old_days_are_cleaned_up() {
    let today = Date { year: 2026, month: 9, day: 20 };
    let k = day_key_of_date(&today);
    let mut db = YearDb::new();
    for day in [k - 30, k - 1, k] {
        db.daily.bump(day, 1);
        db.seconds.bump(day, 0);
    }
    let mut st = Store::new();
    put(&mut st, 2026, db);
    assert!(cleanup_old_data(&mut st, 2, &today) > 0);
    let db = tables(&st, 2026);
    assert_eq!(db.daily.len(), 2, "保留 2 天（含今天）");
    assert!(!db.daily.contains(&(k - 30)));
    assert_eq!(cleanup_old_data(&mut st, 0, &today), 0, "非法天数不得清掉数据");
    assert!(reset_all_data(&mut st) > 0);
    assert_eq!(tables(&st, 2026).daily.len(), 0);
}

#[test]
fn clear_ro_cache_invalidates_other_threads_too() {
    let mut pool = RoPool::new();
    assert!(!pool.prepare("a.db", 0).hit, "首次使用应当新开一条连接");
    pool.opened("a.db", 1);
    assert!(pool.prepare("a.db", 0).hit);
    let r = pool.prepare("a.db", 1);
    assert!(r.cleared && !r.hit, "失效之后必须重开连接");
}

#[test]
fn the_oldest_connection_makes_room() {
    let mut pool = RoPool::new();
    for i in 0..12u64 {
        pool.prepare(&format!("{i}.db"), 0);
        pool.opened(&format!("{i}.db"), i);
    }
    pool.used("0.db", 100);
    assert_eq!(pool.prepare("x.db", 0).evicted.as_deref(), Some("1.db"));
    pool.clear(1);
    assert_eq!(pool.entries.len(), 0);
}

fn even_day(k: i64) -> YearDb {
    let mut db = YearDb::new();
    db.daily.bump(k, 3);
    db.seconds.bump(k, 30);
    for hour in [8, 9, 10] {
        db.hourly.bump((k, hour), 1);
    }
    db
}

#[test]
fn a_key_is_taken_out_of_an_even_day() {
    let today = Date { year: 2026, month: 9, day: 20 };
    let k = day_key_of_date(&today);
    let mut db = even_day(k);
    db.keys.bump((k, "A".to_string()), 2);
    db.keys.bump((k, "B".to_string()), 1);
    db.hourly.bump((k - 1, 9), 5);
    let mut st = Store::new();
    put(&mut st, 2026, db);
    assert_eq!(delete_key_today(&mut st, "A", &today), 2);
    let db = tables(&st, 2026);
    assert_eq!(db.daily.get(&k), 1);
    assert_eq!(db.keys.rows, vec![((k, "B".to_string()), 1)]);
    let hours: Vec<i64> = db.hourly.rows.iter().filter(|r| r.0 .0 == k).map(|r| r.1).collect();
    assert_eq!(hours, vec![1], "余下的两次逐个小时扣完，不留 0，也不扣成负数");
    assert_eq!(db.hourly.get(&(k - 1, 9)), 5, "别的天不动");
    assert_eq!(delete_key_today(&mut st, "B", &today), 1);
    let db = tables(&st, 2026);
    assert!(!db.daily.contains(&k), "归零的天整行删掉");
    assert!(!db.hourly.rows.iter().any(|r| r.0 .0 == k));
}

#[test]
fn an_even_day_is_healed_to_its_keys() {
    let mut db = even_day(3);
    db.keys.bump((3, "A".to_string()), 1);
    db.daily.bump(4, 2);
    db.seconds.bump(4, 9);
    db.keys.bump((4, "A".to_string()), 2);
    db.hourly.bump((4, 9), 2);
    let mut st = Store::new();
    put(&mut st, 2026, db);
    heal_daily_consistency(&mut st);
    let once = (
        tables(&st, 2026).daily.rows.clone(),
        tables(&st, 2026).hourly.rows.clone(),
    );
    assert_eq!(once.0, vec![(3, 1), (4, 2)]);
    let sum: i64 = once.1.iter().filter(|r| r.0 .0 == 3).map(|r| r.1).sum();
    assert_eq!(sum, 1);
    assert!(once.1.iter().all(|r| r.1 > 0));
    assert_eq!(tables(&st, 2026).hourly.get(&(4, 9)), 2, "一致的天不动");
    assert_eq!(tables(&st, 2026).seconds.get(&3), 30);
    heal_daily_consistency(&mut st);
    assert_eq!(tables(&st, 2026).daily.rows, once.0, "再来一次什么都不变");
    assert_eq!(tables(&st, 2026).hourly.rows, once.1);
}

#[test]
fn a_table_with_ids_survives_the_migration_of_the_other() {
    let kb = "HID#VID_046D&PID_C52B";
    let mut db = YearDb::new();
    let id = db.register(kb, "键盘", "keyboard");
    db.device_counts.bump((20716, id), 5);
    let mut legacy = LegacyDevices {
        devices: vec![(kb.to_string(), "键盘".to_string(), "keyboard".to_string())],
        counts: Tally::new(),
        keys: Tally::new(),
    };
    legacy.keys.bump((20716, kb.to_string(), "空格".to_string()), 4);
    legacy.keys.bump((20716, "HID#NEW".to_string(), "A".to_string()), 1);
    migrate_device_tables(&mut db, Some(&legacy));
    assert_eq!(db.devices[db.find_device(kb)].id, id, "已有编号不变");
    assert_eq!(db.device_counts.rows, vec![((20716, id), 5)], "已有编号的表原样保留");
    assert_eq!(db.device_keys.get(&(20716, id, "空格".to_string())), 4);
    let new = db.devices[db.find_device("HID#NEW")].id;
    assert_ne!(new, id);
    assert_eq!(db.device_keys.get(&(20716, new, "A".to_string())), 1);
}

#[test]
fn a_moved_day_is_whole() {
    let (stale, fresh) = (dk(2024, 6, 1), dk(2025, 3, 1));
    let mut source = YearDb::new();
    for (day, n) in [(stale, 4), (fresh, 6)] {
        source.daily.bump(day, n);
        source.seconds.bump(day, n * 10);
        source.hourly.bump((day, 7), n);
        source.keys.bump((day, "A".to_string()), n);
        source.apps.bump((day, "a.exe".to_string()), n);
    }
    let mut target = YearDb::new();
    target.daily.bump(stale, 1);
    target.seconds.bump(stale, 5);
    target.keys.bump((stale, "A".to_string()), 1);
    let mut st = Store::new();
    put(&mut st, 2024, target);
    put(&mut st, 2025, source);
    assert!(archive_year_range(&mut st, 2024, 2025, dk(2024, 1, 1), dk(2025, 1, 1)));
    let dst = tables(&st, 2024);
    assert_eq!(dst.daily.get(&stale), 5);
    assert_eq!(dst.seconds.get(&stale), 45);
    assert_eq!(dst.hourly.get(&(stale, 7)), 4);
    assert_eq!(dst.keys.get(&(stale, "A".to_string())), 5);
    assert_eq!(dst.apps.get(&(stale, "a.exe".to_string())), 4);
    assert_eq!(dst.daily.get(&fresh), 0);
    let src = tables(&st, 2025);
    assert_eq!(src.daily.rows, vec![(fresh, 6)]);
    assert_eq!(src.seconds.rows, vec![(fresh, 60)]);
    assert_eq!(src.hourly.rows, vec![((fresh, 7), 6)]);
    assert_eq!(src.keys.rows, vec![((fresh, "A".to_string()), 6)]);
    assert_eq!(src.apps.rows, vec![((fresh, "a.exe".to_string()), 6)]);
}

#[test]
fn hours_without_presses_stay_as_they_are() {
    let mut db = YearDb::new();
    db.daily.bump(3, 3);
    db.seconds.bump(3, 0);
    db.keys.bump((3, "A".to_string()), 3);
    db.hourly.bump((3, 9), 0);
    let mut st = Store::new();
    put(&mut st, 2026, db);
    heal_daily_consistency(&mut st);
    assert_eq!(tables(&st, 2026).daily.rows, vec![(3, 3)]);
    assert_eq!(tables(&st, 2026).hourly.rows, vec![((3, 9), 0)], "没有可缩放的就不动");
}
