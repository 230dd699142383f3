use focusflow::calendar::Date;
use focusflow::edge_history::{
    chrome_day_range, chrome_to_datetime, datetime_to_chrome, snapshot_step, step_failed,
    EdgeStore, RefreshSlot, RoundState, SnapshotState, SnapshotStep, CHROME_EPOCH_MICROS,
    EDGE_COPY_MAX_BYTES, RUNNING_STALE_MS,
};

const NOW: i64 = 1_789_905_600_000;

fn running(ms_elapsed: i64) -> RefreshSlot {
    RefreshSlot {
        state: RoundState::Running,
        gen: 7,
        started_at_ms: NOW - ms_elapsed,
    }
}

fn day(day: u32) -> Date {
    Date { year: 2026, month: 9, day }
}

#[test]
fn wedged_refresh_self_heals_so_the_button_stays_usable() {
    let mut slot = running(RUNNING_STALE_MS + 60_000);
    assert_eq!(slot.refresh_state(NOW), "fail", "越过阈值的 running 必须自愈");
    assert!(
        slot.claim_round(NOW).is_some(),
        "自愈之后下一次点击要真能启动新一轮"
    );
}

#[test]
fn live_round_is_not_stolen_but_a_wedged_one_is() {
    let mut slot = running(1_000);
    assert_eq!(slot.refresh_state(NOW), "running", "才跑 1 秒不该被判成卡死");
    assert!(slot.claim_round(NOW).is_none());
    let mut slot = running(RUNNING_STALE_MS + 1);
    assert!(slot.claim_round(NOW).is_some(), "超过阈值就该接管");
}

#[test]
fn superseded_round_cannot_write_back_its_result() {
    let mut slot = running(RUNNING_STALE_MS + 1);
    let zombie = slot.gen;
    let live = slot.claim_round(NOW).expect("接管应成功");
    assert_ne!(zombie, live);
    slot.finish_round(zombie, true);
    assert_eq!(
        slot.refresh_state(NOW),
        "running",
        "僵尸线程回来不该把新一轮标成已完成"
    );
    slot.finish_round(live, true);
    assert_eq!(slot.refresh_state(NOW), "ok");
}

#[test]
fn a_round_that_could_not_begin_is_given_back() {
    let mut slot = RefreshSlot::new();
    assert_eq!(slot.refresh_state(NOW), "idle");
    let gen = slot.claim_round(NOW).unwrap();
    slot.release_round(gen);
    assert!(slot.claim_round(NOW).is_some());
    let gen = slot.gen;
    slot.finish_round(gen, false);
    assert_eq!(slot.refresh_state(NOW), "fail");
}

#[test]
fn saved_today_is_date_keyed() {
    let mut st = EdgeStore::new();
    let today = day(20);
    assert_eq!(st.get_edge_history_saved_today(&today), None, "从未刷新过不该有值");
    st.save_edge_history_count(&day(19), 111, 1);
    assert_eq!(
        st.get_edge_history_saved_today(&today),
        None,
        "昨天的计数不该被当成今天"
    );
    st.save_edge_history_count(&today, 42, 2);
    assert_eq!(st.get_edge_history_saved_today(&today), Some(42));
    st.save_edge_history_meta("total", 900);
    assert_eq!(st.get_edge_history_saved_total(), Some(900));
}

#[test]
fn counts_of_the_last_days() {
    let mut st = EdgeStore::new();
    let today = day(20);
    let r = st.update_today_edge_history(Some((5, 700)), &today, 99);
    assert_eq!(r, (true, 5, 700));
    assert_eq!(st.saved_count_on(&today), Some(5));
    assert_eq!(st.get_edge_history_saved_total(), Some(700));
    st.save_edge_history_count(&day(18), 3, 1);
    assert_eq!(
        st.get_edge_history_counts(7, &today),
        vec![("2026-09-18".to_string(), 3), ("2026-09-20".to_string(), 5)]
    );
    assert_eq!(st.trend_counts(1, &today), vec![("2026-09-20".to_string(), 5)]);
    let missing = st.backfill_edge_history(3, &today);
    assert!(missing.contains(&day(19)) && !missing.contains(&day(18)), "{missing:?}");
    let r = st.update_today_edge_history(None, &today, 100);
    assert!(!r.0, "读不到时不算更新");
    assert_eq!(st.saved_count_on(&today), Some(5), "读不到时不得覆盖已有计数");
}

#[test]
fn the_clock_of_the_history() {
    assert_eq!(chrome_to_datetime(CHROME_EPOCH_MICROS), 0);
    assert_eq!(datetime_to_chrome(0), CHROME_EPOCH_MICROS);
    assert_eq!(chrome_to_datetime(datetime_to_chrome(1_789_905_600_000_000)), 1_789_905_600_000_000);
    assert_eq!(
        chrome_day_range(Some(0)),
        Some((CHROME_EPOCH_MICROS, CHROME_EPOCH_MICROS + 86_400_000_000))
    );
    assert_eq!(chrome_day_range(None), None);
}

#[test]
fn a_locked_history_is_copied_three_times() {
    let mut s = SnapshotState {
        exists: false,
        direct_failed: false,
        size: 10,
        failed_copies: 0,
    };
    assert_eq!(snapshot_step(&s), SnapshotStep::Missing);
    s.exists = true;
    assert_eq!(snapshot_step(&s), SnapshotStep::Direct);
    s = step_failed(&s, SnapshotStep::Direct);
    for _ in 0..3 {
        assert_eq!(snapshot_step(&s), SnapshotStep::Copy);
        s = step_failed(&s, SnapshotStep::Copy);
    }
    assert_eq!(snapshot_step(&s), SnapshotStep::GiveUp);
    s.size = EDGE_COPY_MAX_BYTES + 1;
    s.failed_copies = 0;
    assert_eq!(snapshot_step(&s), SnapshotStep::TooLarge);
}
