use focusflow::calendar::{day_key_of_date, Date};
use focusflow::db::database::{CheckResult, Database};
use focusflow::db::days::{day_key_of_ts, hour_of_ts};
use focusflow::db::queries::get_stats_by_date;
use focusflow::db::store::{Store, YearDb, YearFile};
use focusflow::db::writer::{
    after_flush_attempt, current_day_key, writer_loop, AggDeltas, DbWriter, DeviceMeta, FlushStep,
    WriterEvent,
};

fn today() -> Date {
    Date { year: 2026, month: 9, day: 20 }
}

fn noon() -> i64 {
    day_key_of_date(&today()) * 86_400 + 43_200
}

fn start() -> DbWriter {
    DbWriter::start(0, 0, None, None, &Vec::new(), &today())
}

fn day() -> u64 {
    current_day_key(&today())
}

fn tables(st: &Store, year: i32) -> &YearDb {
    st.files[st.find(year)].db.as_ref().expect("库")
}

#[test]
fn flush_writes_each_year_to_its_own_db() {
    let mut w = start();
    let last_year_date = Date { year: 2025, month: 12, day: 31 };
    w.agg.daily.bump(day_key_of_date(&last_year_date), 7);
    w.agg.daily.bump(day_key_of_date(&today()), 3);
    let mut st = Store::new();
    w.flush(&mut st, 2026);
    assert_eq!(
        tables(&st, 2025).daily.get(&day_key_of_date(&last_year_date)),
        7,
        "上一年的增量必须落在上一年份库里"
    );
    assert_eq!(
        tables(&st, 2026).daily.get(&day_key_of_date(&today())),
        3,
        "今日增量必须落在当前年份库里"
    );
    assert!(!w.has_pending());
}

#[test]
fn record_resets_today_count_on_day_change() {
    let mut w = start();
    w.today_key = day() - 1;
    w.today_count = 999;
    w.record("A", noon(), day(), 0);
    assert_eq!(w.today_key, day());
    assert_eq!(w.today_count, 1);
}

#[test]
fn record_aggregates_deltas() {
    let mut w = start();
    let ts = noon();
    w.record("A", ts, day(), 0);
    w.record("A", ts, day(), 0);
    w.record("B", ts, day(), 0);
    let dk = day_key_of_ts(ts, 0);
    assert_eq!(w.agg.daily.get(&dk), 3);
    assert_eq!(w.agg.hourly.get(&(dk, hour_of_ts(ts, 0))), 3);
    assert_eq!(w.agg.keys.get(&(dk, "A".to_string())), 2);
}

#[test]
fn record_tracks_active_seconds() {
    let mut w = start();
    let t0 = noon();
    w.record("A", t0, day(), 0);
    w.record("A", t0 + 10, day(), 0);
    w.record("A", t0 + 100, day(), 0);
    assert_eq!(w.today_active, 10);
    w.record("A", t0 + 102, day(), 0);
    assert_eq!(w.today_active, 12);
}

#[test]
fn recompute_today_totals_refreshes_both_count_and_active_seconds() {
    let mut w = start();
    let mut st = Store::new();
    let t0 = noon();
    w.record("A", t0, day(), 0);
    w.record("A", t0 + 10, day(), 0);
    w.flush(&mut st, 2026);
    let dk = day_key_of_ts(t0, 0);
    let i = st.find(2026);
    let db = st.files[i].db.as_mut().unwrap();
    db.daily.bump(dk, 500);
    db.seconds.bump(dk, 4000);
    assert_eq!(w.today_count(), 2, "还没刷：内存仍是旧值（这条前提得成立）");
    assert_eq!(w.today_active_seconds(), 10);
    let db = tables(&st, 2026);
    w.recompute_today_totals(true, db.daily.get(&dk), db.seconds.get(&dk), dk, day());
    assert_eq!(w.today_count(), 502, "按键数跟着库走");
    assert_eq!(w.today_active_seconds(), 4010, "活跃时长也得跟着库走");
}

#[test]
fn recompute_today_totals_does_not_lose_deltas_that_have_not_landed() {
    let mut w = start();
    let t0 = noon();
    for i in 0..5 {
        w.record("A", t0 + i, day(), 0);
    }
    assert_eq!(w.today_count(), 5, "前提：内存基准含这 5 次");
    let dk = day_key_of_ts(t0, 0);
    w.recompute_today_totals(false, 0, 0, dk, day());
    assert!(w.today_count() >= 5, "未落库的 5 次必须还在今日里");
    // 那一批已被取走、还没进库：两边都看不到它
    let mut busy = start();
    busy.today_count = 5;
    busy.recompute_today_totals(false, 0, 0, dk, day());
    assert_eq!(busy.today_count(), 5);
    busy.recompute_today_totals(true, 0, 0, dk, day());
    assert_eq!(busy.today_count(), 0);
}

#[test]
fn snapshot_recovery_keeps_deltas_in_memory_when_the_write_fails() {
    let mut w = start();
    w.record("A", noon(), day(), 0);
    w.snapshot_recovery(false, true);
    assert_eq!(w.agg.daily.total(), 1, "写盘失败时不能把增量从内存取走");
    w.snapshot_recovery(true, false);
    assert_eq!(w.agg.daily.total(), 1);
    w.snapshot_recovery(true, true);
    assert_eq!(w.agg.daily.total(), 0);
}

#[test]
fn recovery_copy_survives_until_the_replayed_deltas_land() {
    let mut first = start();
    first.record("A", noon(), day(), 0);
    first.record("A", noon() + 1, day(), 0);
    let saved = first.agg.take_for_flush();
    let mut w = DbWriter::start(
        0,
        0,
        Some(saved),
        Some("kept.json".to_string()),
        &Vec::new(),
        &today(),
    );
    assert!(w.today_count() >= 2, "回放的增量要计入今日基准");
    assert!(w.recovery_leftover.is_some());
    let mut locked = Store::new();
    locked.files.push(YearFile { year: 2026, db: None });
    assert_eq!(w.flush(&mut locked, 2026), None, "没落库就不能删副本");
    assert!(w.recovery_leftover.is_some());
    assert!(w.has_pending(), "写不进去的增量必须回到内存");
    let mut st = Store::new();
    assert_eq!(w.flush(&mut st, 2026), Some("kept.json".to_string()));
    assert!(w.recovery_leftover.is_none());
    assert_eq!(tables(&st, 2026).daily.total(), 2);
}

#[test]
fn today_pending_count_covers_only_unflushed_deltas() {
    let mut w = start();
    let dk = day_key_of_date(&today());
    assert_eq!(w.today_pending_count(dk), 0, "开局没有未落库增量");
    for i in 0..6 {
        w.record("A", noon() + i, day(), 0);
    }
    assert_eq!(w.today_pending_count(dk), 6, "这 6 次还没落库");
    let mut st = Store::new();
    w.flush(&mut st, 2026);
    assert_eq!(w.today_pending_count(dk), 0);
}

#[test]
fn record_credits_gap_to_current_app() {
    let mut w = start();
    let t0 = noon();
    let dk = day_key_of_ts(t0, 0);
    w.record("A", t0, day(), 0);
    w.set_current_app(Some("Obsidian.exe"));
    w.record("A", t0 + 10, day(), 0);
    w.set_current_app(Some("WorkBuddy.exe"));
    w.record("A", t0 + 30, day(), 0);
    w.record("A", t0 + 200, day(), 0);
    w.set_current_app(None);
    w.record("A", t0 + 205, day(), 0);
    assert_eq!(w.agg.active.get(&dk), 35, "活跃 = 10 + 20 + 5");
    assert_eq!(w.agg.apps.get(&(dk, "Obsidian.exe".to_string())), 10);
    assert_eq!(w.agg.apps.get(&(dk, "WorkBuddy.exe".to_string())), 20);
    assert_eq!(w.agg.apps.len(), 2, "无归属的 5 秒不应落到任何应用上");
}

#[test]
fn current_app_persists_across_flush() {
    let mut w = start();
    let mut st = Store::new();
    let t0 = noon();
    let dk = day_key_of_ts(t0, 0);
    w.set_current_app(Some("Obsidian.exe"));
    w.record("A", t0, day(), 0);
    w.record("A", t0 + 5, day(), 0);
    assert_eq!(w.agg.apps.get(&(dk, "Obsidian.exe".to_string())), 5);
    w.flush(&mut st, 2026);
    assert!(w.agg.apps.is_empty(), "flush 应取走应用增量");
    assert_eq!(
        w.agg.current_app.as_deref(),
        Some("Obsidian.exe"),
        "当前前台应用应跨 flush 保留"
    );
    w.record("A", t0 + 10, day(), 0);
    assert_eq!(
        w.agg.apps.get(&(dk, "Obsidian.exe".to_string())),
        5,
        "flush 后的事件仍应归属到同一应用"
    );
}

#[test]
fn record_device_key_persists_rows() {
    let mut w = start();
    let ts = noon();
    let dk = day_key_of_ts(ts, 0);
    let dev = "HID#VID_046D&PID_C52B";
    w.record_device(dev, "我的新鼠标 · 046D/C52B", "mouse", ts, 0);
    w.record_device_key(dev, "鼠标左键", ts, 0);
    w.record_device_key(dev, "鼠标左键", ts, 0);
    w.record_device_key(dev, "滚轮上滑", ts, 0);
    assert_eq!(
        w.agg
            .device_keys
            .get(&(dk, dev.to_string(), "鼠标左键".to_string())),
        2
    );
    assert!(w.agg.keys.is_empty(), "设备键名不得进主统计键名表");
    let mut st = Store::new();
    w.flush(&mut st, 2026);
    let db = tables(&st, 2026);
    let id = db.devices[db.find_device(dev)].id;
    assert_eq!(db.device_keys.get(&(dk, id, "鼠标左键".to_string())), 2);
    assert_eq!(db.device_keys.get(&(dk, id, "滚轮上滑".to_string())), 1);
}

#[test]
fn record_device_isolated_from_main_stats() {
    let mut w = start();
    let ts = noon();
    let dk = day_key_of_ts(ts, 0);
    let dev = "HID#VID_046D&PID_C52B";
    let name = "我的新鼠标 · 046D/C52B";
    w.record("A", ts, day(), 0);
    w.record_device(dev, name, "mouse", ts, 0);
    w.record_device(dev, name, "mouse", ts, 0);
    w.record_device(dev, name, "keyboard", ts, 0);
    assert_eq!(w.agg.devices.get(&(dk, dev.to_string())), 3);
    assert_eq!(w.agg.daily.get(&dk), 1, "record_device 不得计入主统计 daily");
    assert_eq!(w.agg.keys.get(&(dk, "A".to_string())), 1);
    assert_eq!(w.agg.keys.len(), 1, "设备事件不得新增键名");
    assert_eq!(w.agg.device_meta[0].1.kind, "hybrid");
    let mut st = Store::new();
    w.flush(&mut st, 2026);
    assert!(w.agg.devices.is_empty(), "flush 应取走设备计数");
    assert!(!w.agg.device_meta.is_empty(), "设备登记应跨 flush 保留");
}

#[test]
fn flush_writes_device_tables() {
    let mut w = start();
    let ts = noon();
    let dk = day_key_of_ts(ts, 0);
    let dev = "HID#VID_1234&PID_5678";
    w.record_device(dev, "测试鼠标 · 1234/5678", "mouse", ts, 0);
    w.record_device(dev, "测试鼠标 · 1234/5678", "mouse", ts, 0);
    let mut st = Store::new();
    w.flush(&mut st, 2026);
    let db = tables(&st, 2026);
    let d = &db.devices[db.find_device(dev)];
    assert_eq!(db.device_counts.get(&(dk, d.id)), 2);
    assert_eq!(d.name, "测试鼠标 · 1234/5678");
    assert_eq!(d.kind, "mouse");
    assert!(d.id > 0, "devices 必须有整数 id");
    assert_eq!(db.devices.iter().filter(|d| d.key == dev).count(), 1);
}

#[test]
fn start_preloads_device_meta_from_registry() {
    let path = r"\\?\HID#VID_046D&PID_C52B&MI_00#8&2c5f&0&0000";
    let rows: Vec<(String, String, String)> = [
        ("HID#VID_24AE&PID_1464#a", "我的鼠标 · 24AE/1464", "mouse"),
        ("HID#VID_07D7&PID_EFFF#b", "我的键盘 · 07D7/EFFF", "keyboard"),
        (path, path, "unknown"),
        ("HID#VID_1111&PID_2222#c", "", "mouse"),
    ]
    .iter()
    .map(|(a, b, c)| (a.to_string(), b.to_string(), c.to_string()))
    .collect();
    let w = DbWriter::start(0, 0, None, None, &rows, &today());
    let meta = |key: &str| w.agg.device_meta.iter().find(|(k, _)| k == key);
    assert_eq!(
        meta("HID#VID_24AE&PID_1464#a").map(|m| m.1.name.as_str()),
        Some("我的鼠标 · 24AE/1464"),
        "已登记设备应被预热"
    );
    assert_eq!(
        meta("HID#VID_07D7&PID_EFFF#b").map(|m| m.1.kind.as_str()),
        Some("keyboard"),
        "设备类型也应一并预热"
    );
    assert!(meta(path).is_none(), "name == device_key 的占位行不得被当成真名读回");
    assert!(meta("HID#VID_1111&PID_2222#c").is_none(), "空名登记行不得被预热");
    assert_eq!(w.agg.device_meta.len(), 2, "只有两条真实登记应进入会话态");
}

#[test]
fn device_id_in_db_registers_readable_name_without_meta() {
    let dev = r"\\?\HID#VID_046D&PID_C52B&MI_00#8&2c5f&0&0000#{378de44c}";
    let dk = day_key_of_date(&today());
    let mut part = AggDeltas::new();
    part.devices.bump((dk, dev.to_string()), 1);
    let mut db = YearDb::new();
    db.flush_partition(&part);
    let id = db.devices[0].id;
    assert!(id > 0, "补登必须拿到整数 id");
    assert_eq!(db.devices[0].name, "HID 设备 · 046D/C52B", "缺登记时应写回退命名");
    assert_ne!(db.devices[0].name, dev, "绝不能是裸设备实例路径");
    part.device_meta.push((
        dev.to_string(),
        DeviceMeta {
            name: "我的新鼠标 · 046D/C52B".to_string(),
            kind: "mouse".to_string(),
        },
    ));
    db.flush_partition(&part);
    assert_eq!(db.devices.len(), 1, "同一设备只登记一行");
    assert_eq!(db.devices[0].id, id, "补名必须命中同一登记行");
    assert_eq!(db.devices[0].name, "我的新鼠标 · 046D/C52B");
    assert_eq!(db.devices[0].kind, "mouse");
}

#[test]
fn recovery_replay_writes_real_device_name() {
    let dev = "HID#VID_24AE&PID_1464#e2e";
    let real = "端到端鼠标 · 24AE/1464";
    let ts = noon();
    let mut st = Store::new();
    let mut w = start();
    w.record_device(dev, real, "mouse", ts, 0);
    w.flush(&mut st, 2026);
    let registered: Vec<(String, String, String)> = tables(&st, 2026)
        .devices
        .iter()
        .map(|d| (d.key.clone(), d.name.clone(), d.kind.clone()))
        .collect();
    assert_eq!(registered[0].1, real, "首次落库应是真名");
    w.record_device(dev, real, "mouse", ts, 0);
    w.record_device(dev, real, "mouse", ts, 0);
    let mut lost = w.agg.take_for_flush();
    lost.device_meta = Vec::new();
    let mut w2 = DbWriter::start(0, 0, Some(lost), None, &registered, &today());
    w2.flush(&mut st, 2026);
    let db = tables(&st, 2026);
    assert_eq!(db.devices.len(), 1);
    assert_eq!(db.devices[0].name, real);
    assert_eq!(db.device_counts.total(), 3, "1 次直接落库 + 2 次回放");
}

#[test]
fn recovery_snapshot_replayed_once() {
    let mut w = start();
    w.record("A", noon(), day(), 0);
    w.record("A", noon(), day(), 0);
    let saved = w.agg.take_for_flush();
    let mut st = Store::new();
    w.flush(&mut st, 2026);
    assert_eq!(st.files.len(), 0, "内存已空，不会再写库");
    let mut w2 = DbWriter::start(0, 0, Some(saved), None, &Vec::new(), &today());
    assert!(w2.today_count() >= 2, "回放的今日计数应计入缓存基准");
    assert_eq!(w2.flush_seq(), 0);
    w2.flush(&mut st, 2026);
    assert_eq!(w2.flush_seq(), 1, "成功落库后序号应递增");
    assert_eq!(get_stats_by_date(&st, &today()).0, 2);
    assert_eq!(tables(&st, 2026).daily.total(), 2, "回放数据应恰好落库一次");
    w2.flush(&mut st, 2026);
    assert_eq!(tables(&st, 2026).daily.total(), 2);
}

#[test]
fn recovery_replays_device_counts_once() {
    let dev = "HID#VID_AAAA&PID_BBBB";
    let ts = noon();
    let dk = day_key_of_ts(ts, 0);
    let mut w = start();
    w.record_device(dev, "恢复测试键盘 · AAAA/BBBB", "keyboard", ts, 0);
    w.record_device(dev, "恢复测试键盘 · AAAA/BBBB", "keyboard", ts, 0);
    let saved = w.agg.take_for_flush();
    let mut st = Store::new();
    w.flush(&mut st, 2026);
    assert_eq!(st.files.len(), 0);
    let mut w2 = DbWriter::start(0, 0, Some(saved), None, &Vec::new(), &today());
    w2.flush(&mut st, 2026);
    w2.flush(&mut st, 2026);
    let db = tables(&st, 2026);
    let id = db.devices[db.find_device(dev)].id;
    assert_eq!(db.device_counts.get(&(dk, id)), 2, "设备计数应恰好回放一次");
}

#[test]
fn a_part_that_does_not_arrive_is_counted_again() {
    let mut w = start();
    let last_year_date = Date { year: 2025, month: 12, day: 31 };
    w.agg.daily.bump(day_key_of_date(&last_year_date), 7);
    w.agg.daily.bump(day_key_of_date(&today()), 3);
    w.recovery_leftover = Some("kept.json".to_string());
    let parts = w.begin_flush(2026);
    assert_eq!(parts.len(), 2);
    assert!(!w.has_pending());
    w.record("A", noon(), day(), 0);
    let none: Vec<bool> = parts.iter().map(|_| false).collect();
    assert_eq!(w.end_flush(&parts, &none), None);
    assert_eq!(w.flush_seq(), 0);
    assert_eq!(w.agg.daily.get(&day_key_of_date(&today())), 4);
    assert_eq!(w.agg.daily.get(&day_key_of_date(&last_year_date)), 7);
    let parts = w.begin_flush(2026);
    let arrived: Vec<bool> = parts.iter().map(|(y, _)| *y == 2026).collect();
    assert_eq!(w.end_flush(&parts, &arrived), Some("kept.json".to_string()));
    assert_eq!(w.flush_seq(), 1);
    assert_eq!(w.agg.daily.get(&day_key_of_date(&today())), 0);
    assert_eq!(w.agg.daily.get(&day_key_of_date(&last_year_date)), 7);
}

#[test]
fn a_part_is_tried_three_times() {
    assert_eq!(after_flush_attempt(true, 0), FlushStep::Done);
    assert_eq!(after_flush_attempt(false, 0), FlushStep::Again(500));
    assert_eq!(after_flush_attempt(false, 1), FlushStep::Again(1000));
    assert_eq!(after_flush_attempt(true, 2), FlushStep::Done);
    assert_eq!(after_flush_attempt(false, 2), FlushStep::GiveUp);
    assert_eq!(after_flush_attempt(false, u64::MAX), FlushStep::GiveUp);
}

#[test]
fn paths_of_one_device_share_its_row() {
    let ts = noon();
    let dk = day_key_of_ts(ts, 0);
    let one = r"\\?\HID#VID_046D&PID_C52B&MI_00#8&2c5f&0&0000#{884b96c3}";
    let other = r"\\?\HID#VID_046D&PID_C52B&MI_00#7&1111&0&0000#{884b96c3}";
    let mut w = start();
    w.record_device(one, "鼠标", "mouse", ts, 0);
    w.record_device(one, "鼠标", "mouse", ts, 0);
    w.record_device_key(one, "鼠标左键", ts, 0);
    let mut st = Store::new();
    w.flush(&mut st, 2026);
    let id = tables(&st, 2026).devices[0].id;
    w.record_device(other, "鼠标", "mouse", ts, 0);
    w.record_device_key(other, "鼠标左键", ts, 0);
    w.flush(&mut st, 2026);
    let db = tables(&st, 2026);
    assert_eq!(db.devices.len(), 1, "同一硬件只有一行登记");
    assert_eq!(db.devices[0].id, id, "登记过的设备保持编号");
    assert_eq!(db.device_counts.get(&(dk, id)), 3);
    assert_eq!(db.device_keys.get(&(dk, id, "鼠标左键".to_string())), 2);
}

#[test]
fn a_press_is_in_the_tables_or_in_memory() {
    let mut w = start();
    w.record("A", noon(), day(), 0);
    let dk = day_key_of_date(&today());
    let mut locked = Store::new();
    locked.files.push(YearFile { year: 2026, db: None });
    w.flush(&mut locked, 2026);
    assert_eq!(w.agg.daily.get(&dk), 1);
    let mut st = Store::new();
    w.flush(&mut st, 2026);
    assert_eq!(w.agg.daily.get(&dk), 0);
    let (n, rows) = get_stats_by_date(&st, &today());
    assert_eq!(n, 1);
    assert_eq!(rows.rows, vec![("A".to_string(), 1)]);
}

#[test]
fn the_writer_never_stops_without_a_flush() {
    let step = writer_loop(WriterEvent::Stop, 5, 9, 10);
    assert!(step.flush && step.stop);
    let step = writer_loop(WriterEvent::Disconnected, 5, 9, 10);
    assert!(step.flush && step.stop);
    let step = writer_loop(WriterEvent::Timeout, 5, 14, 10);
    assert!(!step.flush && !step.stop && step.last_flush == 5);
    let step = writer_loop(WriterEvent::Timeout, 5, 15, 10);
    assert!(step.flush && !step.stop && step.last_flush == 15);
    let step = writer_loop(WriterEvent::Flush, 5, 6, 10);
    assert!(step.flush && !step.stop && step.last_flush == 6);
}

#[test]
fn a_readonly_database_records_nothing() {
    let mut db = Database::init_readonly();
    db.record_key("A", noon(), day(), 0);
    assert!(db.writer().is_none());
    let mut st = Store::new();
    assert_eq!(db.flush(&mut st, 2026), None);
    assert_eq!(st.files.len(), 0);
    assert!(db.take_startup_checks().is_empty());
}

#[test]
fn startup_checks_are_taken_once() {
    let config = focusflow::config::FocusFlowConfig::in_memory();
    let mut st = Store::new();
    let checks = vec![CheckResult {
        step: "s".to_string(),
        ok: true,
        detail: "d".to_string(),
    }];
    let mut db = Database::init(&mut st, &config, 2026, start(), checks);
    assert_eq!(db.take_startup_checks().len(), 1);
    assert_eq!(db.take_startup_checks().len(), 0);
    db.record_key("A", noon(), day(), 0);
    let (_, keep) = db.shutdown(&mut st, 2026, &config);
    assert_eq!(keep, Some(5), "退出时按配置备份");
    assert!(!db.writer().unwrap().is_alive());
    assert_eq!(get_stats_by_date(&st, &today()).0, 1);
}

#[test]
fn only_counts_wait_for_the_tables() {
    let mut w = start();
    let ts = noon();
    assert!(!w.has_pending());
    w.agg.last_ts = ts;
    assert!(!w.has_pending());
    w.record("A", ts, day(), 0);
    assert!(w.has_pending());
    let mut w = start();
    w.record_device("HID#A", "甲", "mouse", ts, 0);
    assert!(w.has_pending());
    let mut st = Store::new();
    w.flush(&mut st, 2026);
    assert!(!w.has_pending(), "登记本身不算待写");
    assert!(!w.agg.device_meta.is_empty());
    w.record_device_key("HID#A", "鼠标左键", ts, 0);
    assert!(w.has_pending());
}

#[test]
fn batches_are_numbered_by_what_was_written() {
    let mut w = start();
    let mut st = Store::new();
    w.flush(&mut st, 2026);
    assert_eq!(w.flush_seq(), 0, "没有可写的");
    w.record("A", noon(), day(), 0);
    st.files.push(YearFile { year: 2026, db: None });
    w.flush(&mut st, 2026);
    assert_eq!(w.flush_seq(), 0, "一份都没写成");
    assert!(w.has_pending());
    w.agg.daily.bump(day_key_of_date(&Date { year: 2025, month: 12, day: 31 }), 7);
    w.flush(&mut st, 2026);
    assert_eq!(w.flush_seq(), 1);
    assert!(w.has_pending());
}

#[test]
fn inputs_of_a_device_are_in_the_tables_or_in_memory() {
    let mut w = start();
    let ts = noon();
    let dk = day_key_of_ts(ts, 0);
    let dev = "HID#VID_1234&PID_5678";
    w.record_device(dev, "鼠标", "mouse", ts, 0);
    w.record_device_key(dev, "鼠标左键", ts, 0);
    let mut st = Store::new();
    st.files.push(YearFile { year: 2024, db: Some(YearDb::new()) });
    st.files.push(YearFile { year: 2026, db: None });
    w.flush(&mut st, 2026);
    assert_eq!(w.agg.devices.get(&(dk, dev.to_string())), 1, "写不进去就留在内存里");
    assert_eq!(st.files.len(), 2, "不多建文件");
    st.files[1].db = Some(YearDb::new());
    w.flush(&mut st, 2026);
    assert!(!w.has_pending());
    let db = tables(&st, 2026);
    let id = db.devices[db.find_device(dev)].id;
    assert_eq!(db.device_counts.get(&(dk, id)), 1);
    assert_eq!(db.device_keys.get(&(dk, id, "鼠标左键".to_string())), 1);
    w.record_device(dev, "鼠标", "mouse", ts, 0);
    w.flush(&mut st, 2026);
    let db = tables(&st, 2026);
    assert_eq!(db.devices[db.find_device(dev)].id, id);
    assert_eq!(db.device_counts.get(&(dk, id)), 2);
    assert!(tables(&st, 2024).daily.is_empty());
}

#[test]
fn counts_alone_do_not_rename_a_device() {
    let dev = "HID#VID_046D&PID_C52B";
    let dk = day_key_of_date(&today());
    let mut db = YearDb::new();
    let id = db.register(dev, "我的新鼠标", "mouse");
    let mut part = AggDeltas::new();
    part.devices.bump((dk, dev.to_string()), 3);
    part.device_keys.bump((dk, dev.to_string(), "鼠标左键".to_string()), 2);
    db.flush_partition(&part);
    assert_eq!(db.devices.len(), 1);
    assert_eq!(db.devices[0].name, "我的新鼠标", "已有登记行不补登、不改名");
    assert_eq!(db.devices[0].kind, "mouse");
    assert_eq!(db.device_counts.get(&(dk, id)), 3);
    assert_eq!(db.device_keys.get(&(dk, id, "鼠标左键".to_string())), 2);
}
