use std::time::{Duration, SystemTime, UNIX_EPOCH};

use focusflow::calendar::Date;
use focusflow::config::FocusFlowConfig;
use focusflow::db::database::Database;
use focusflow::db::store::Store;
use focusflow::db::writer::{current_day_key, DbWriter};
use focusflow::device_stats::record_device_event;
use focusflow::listener::{
    cfg_nanos, is_function_key, is_modifier, is_paused_now, new_pause_flag, normalize_key,
    normalize_mouse_button, scroll_direction, unix_ts_secs, Button, Direction, EventType,
    InputListener, Key, ListenerCfg, PauseFlag, MAX_NANOS,
};

const TS: i64 = 1_789_905_600;
const SECOND: u64 = 1_000_000_000;
/// A moment after the clock started.
const T0: u64 = 1_000 * SECOND;

fn listener() -> InputListener {
    let c = FocusFlowConfig::in_memory();
    InputListener::new(ListenerCfg::reload(&c, Some(15 * SECOND), Some(SECOND / 4)))
}

fn since_epoch(t: SystemTime) -> Option<u64> {
    t.duration_since(UNIX_EPOCH).ok().map(|d| d.as_secs())
}

fn hits(l: &mut InputListener, db: &mut Database, flag: &PauseFlag, e: EventType, now: u64) -> u64 {
    match l.process_event(db, flag, &e, now, Some(TS), 20_260_920, 0) {
        Some((_, n)) => n,
        None => 0,
    }
}

#[test]
fn pre_epoch_clock_is_not_turned_into_year_1970() {
    assert_eq!(
        unix_ts_secs(since_epoch(UNIX_EPOCH + Duration::from_secs(1_700_000_000))),
        Some(1_700_000_000)
    );
    assert_eq!(unix_ts_secs(since_epoch(UNIX_EPOCH)), Some(0));
    assert_eq!(
        unix_ts_secs(since_epoch(UNIX_EPOCH - Duration::from_secs(1))),
        None,
        "历元之前的时钟必须报不出来"
    );
    assert!(unix_ts_secs(since_epoch(SystemTime::now())).is_some());
}

#[test]
fn absurd_second_values_never_reach_the_duration() {
    let c = FocusFlowConfig::in_memory();
    for v in [None, Some(u64::MAX), Some(0)] {
        let cfg = ListenerCfg::reload(&c, v, v);
        assert!(
            (SECOND / 10..=MAX_NANOS).contains(&cfg.key_repeat_stale),
            "stale 该被夹进 0.1..=86400"
        );
        assert!(
            (SECOND / 100..=MAX_NANOS).contains(&cfg.scroll_burst_window),
            "burst 窗口该被夹进 0.01..=86400"
        );
    }
    assert_eq!(cfg_nanos(None, 15 * SECOND, 1), 15 * SECOND);
    assert_eq!(cfg_nanos(Some(3), 15 * SECOND, 5), 5);
}

#[test]
fn unknown_key_name_format_is_stable() {
    assert_eq!(normalize_key(&Key::Unknown(173)), "Unknown(173)");
    assert_eq!(normalize_key(&Key::Unknown(0)), "Unknown(0)");
}

#[test]
fn names_of_keys_and_buttons() {
    assert_eq!(normalize_key(&Key::KeyA), "A");
    assert!(is_modifier(&Key::ShiftLeft) && !is_modifier(&Key::KeyA));
    assert!(is_function_key(&Key::F5) && !is_function_key(&Key::KeyA));
    assert_eq!(normalize_mouse_button(&Button::Left), "鼠标左键");
    assert_eq!(scroll_direction(1), Direction::Up);
    assert_eq!(scroll_direction(-1), Direction::Down);
}

#[test]
fn is_new_press_filters_repeat_until_stale() {
    let mut l = listener();
    assert!(l.is_new_press("A", T0));
    assert!(!l.is_new_press("A", T0 + 1), "窗口内第二次按下应视为长按重复");
    let stale = l.cfg.key_repeat_stale;
    l.pressed = vec![("A".to_string(), T0)];
    assert!(
        l.is_new_press("A", T0 + stale + SECOND),
        "stale 超时后应重新计数"
    );
}

#[test]
fn is_new_press_cleans_up_stale_entries_when_large() {
    let mut l = listener();
    let now = T0 + l.cfg.key_repeat_stale + SECOND;
    for i in 0..250 {
        l.pressed.push((format!("Fresh{i}"), now));
    }
    for i in 0..60 {
        l.pressed.push((format!("Aged{i}"), T0));
    }
    assert!(l.is_new_press("Aged0", now));
    let contains = |k: &str| l.pressed.iter().any(|(name, _)| name == k);
    assert!(!contains("Aged1"), "stale 残留应被清理");
    assert!(contains("Fresh0"), "未超时按键应保留");
}

#[test]
fn is_new_scroll_burst_merges_same_direction_only() {
    let mut l = listener();
    assert!(l.is_new_scroll_burst_at(Direction::Up, T0));
    assert!(
        !l.is_new_scroll_burst_at(Direction::Up, T0 + 1),
        "窗口内同方向应合并"
    );
    assert!(
        l.is_new_scroll_burst_at(Direction::Down, T0 + 2),
        "方向切换应立即计数"
    );
    assert!(!l.is_new_scroll_burst_at(Direction::Down, T0 + 3));
    l.scroll_at = Some(T0);
    l.scroll_dir = Direction::Up;
    let after = T0 + l.cfg.scroll_burst_window + SECOND;
    assert!(
        l.is_new_scroll_burst_at(Direction::Up, after),
        "窗口过期后应重新计数"
    );
}

#[test]
fn scroll_burst_merges_from_the_last_count_not_the_last_event() {
    let mut l = listener();
    let window = l.cfg.scroll_burst_window;
    let mut counted = 0;
    for i in 0..10u64 {
        if l.is_new_scroll_burst_at(Direction::Up, T0 + window * 3 * i / 10) {
            counted += 1;
        }
    }
    assert_eq!(
        counted, 3,
        "锚在上次计数：0、>窗口、再>窗口 各计一次，其余合并"
    );
    let mut l2 = listener();
    let mut rapid = 0;
    for i in 0..8u64 {
        if l2.is_new_scroll_burst_at(Direction::Up, T0 + window * i / 10) {
            rapid += 1;
        }
    }
    assert_eq!(rapid, 1, "0.7 个窗口内的 8 格还是一次动作");
}

#[test]
fn process_event_filters_keys_and_respects_mouse_toggle() {
    let mut db = Database::init_readonly();
    let flag = new_pause_flag();
    let mut l = listener();
    l.cfg.ignore_modifiers = true;
    l.cfg.ignore_functions = true;
    for k in [Key::ShiftLeft, Key::F5, Key::Unknown(173)] {
        assert_eq!(
            hits(&mut l, &mut db, &flag, EventType::KeyPress(k), T0),
            0,
            "修饰键/功能键/未知键不应触发回调"
        );
    }
    let press = EventType::KeyPress(Key::KeyA);
    assert_eq!(hits(&mut l, &mut db, &flag, press, T0), 1);
    assert_eq!(hits(&mut l, &mut db, &flag, press, T0 + 1), 0, "长按重复不应计数");
    assert_eq!(
        hits(&mut l, &mut db, &flag, EventType::KeyRelease(Key::KeyA), T0 + 2),
        0
    );
    assert_eq!(
        hits(&mut l, &mut db, &flag, press, T0 + 3),
        1,
        "抬起之后的按下是新的一次"
    );
    l.cfg.mouse_enabled = false;
    assert_eq!(
        hits(&mut l, &mut db, &flag, EventType::Wheel { delta_y: 120 }, T0 + 4),
        0,
        "mouse_enabled=false 时滚轮不应计数"
    );
    l.cfg.mouse_enabled = true;
    assert_eq!(
        hits(&mut l, &mut db, &flag, EventType::Wheel { delta_y: 1 }, T0 + 5),
        1
    );
    assert_eq!(
        hits(&mut l, &mut db, &flag, EventType::Wheel { delta_y: 1 }, T0 + 6),
        0,
        "窗口内同方向滚轮应合并"
    );
    assert_eq!(
        hits(&mut l, &mut db, &flag, EventType::Wheel { delta_y: -1 }, T0 + 7),
        1,
        "方向切换应计数"
    );
    assert_eq!(hits(&mut l, &mut db, &flag, EventType::MouseMove, T0 + 8), 0);
}

#[test]
fn wheel_event_carrying_multiple_notches_counts_each() {
    let mut db = Database::init_readonly();
    let flag = new_pause_flag();
    let mut l = listener();
    let mut total = 0;
    for (dy, expected, why) in [
        (3, 3, "多格消息应按格数计数"),
        (2, 3, "窗口内同方向事件应照旧合并"),
        (-2, 5, "方向切换照旧按格计数"),
        (0, 5, "亚格事件不应计数"),
    ] {
        total += hits(&mut l, &mut db, &flag, EventType::Wheel { delta_y: dy }, T0);
        assert_eq!(total, expected, "{why}");
    }
    let far = hits(&mut l, &mut db, &flag, EventType::Wheel { delta_y: i64::MAX }, T0);
    assert_eq!(far, 16, "一条消息最多十六格");
}

#[test]
fn pause_flag_is_shared_by_listener_and_device_channel() {
    let mut db = Database::init_readonly();
    let today = Date { year: 2026, month: 9, day: 20 };
    let mut writer = DbWriter::start(0, 0, None, None, &Vec::new(), &today);
    let mut paused = new_pause_flag();
    let mut l = listener();
    let key = r"HID#VID_046D&PID_C52B#7&1";
    let name = "HID 鼠标 · 046D/C52B";
    let left = Some("鼠标左键");
    assert_eq!(
        hits(&mut l, &mut db, &paused, EventType::KeyPress(Key::KeyA), T0),
        1,
        "未暂停时主链路应记录"
    );
    assert!(
        record_device_event(&mut writer, &paused, key, name, "mouse", left, TS, 0),
        "未暂停时设备侧应记录"
    );
    assert!(writer.has_pending(), "未暂停时设备计数应落到写入器");
    assert!(l.toggle_pause(&mut paused));
    assert!(is_paused_now(&paused), "toggle_pause 改的必须是那份共享标志");
    assert_eq!(
        hits(&mut l, &mut db, &paused, EventType::KeyPress(Key::KeyB), T0),
        0,
        "暂停后主链路不得记录"
    );
    assert!(
        !record_device_event(&mut writer, &paused, key, name, "mouse", left, TS, 0),
        "暂停后设备侧不得记录"
    );
    l.set_paused(&mut paused, false);
    assert!(!l.is_paused(&paused) && !is_paused_now(&paused));
    assert_eq!(
        hits(&mut l, &mut db, &paused, EventType::KeyPress(Key::KeyC), T0),
        1,
        "恢复后主链路应重新记录"
    );
    assert!(
        record_device_event(&mut writer, &paused, key, name, "mouse", left, TS, 0),
        "恢复后设备侧应重新记录"
    );
}

#[test]
fn an_event_without_a_time_is_not_recorded() {
    let today = Date { year: 2026, month: 9, day: 20 };
    let c = FocusFlowConfig::in_memory();
    let mut st = Store::new();
    let w = DbWriter::start(0, 0, None, None, &Vec::new(), &today);
    let mut db = Database::init(&mut st, &c, 2026, w, Vec::new());
    let flag = new_pause_flag();
    let mut l = listener();
    let day = current_day_key(&today);
    let press = EventType::KeyPress(Key::KeyA);
    l.process_event(&mut db, &flag, &press, T0, None, day, 0);
    assert!(!db.writer().unwrap().has_pending());
    let press = EventType::KeyPress(Key::KeyB);
    l.process_event(&mut db, &flag, &press, T0, Some(TS), day, 0);
    assert_eq!(db.writer().unwrap().today_count(), 1);
}
