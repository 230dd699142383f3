use chrono::{Datelike, Days, Local, NaiveDate, Offset, TimeZone};
use focusflow::calendar::{day_key_of_date, day_key_text, day_key_to_date, new_year_key, Date};
use focusflow::db::days::{
    clamp_query_days, cutoff_day_key, day_key_of_ts, hour_of_ts, is_valid_period, year_of_day_key,
    MAX_QUERY_DAYS,
};
use focusflow::db::queries::{
    aggregate_weekday, available_years, get_alltime_max_day, get_alltime_summary, get_app_stats,
    get_app_stats_by_date, get_daily_counts, get_hourly_stats, get_stats, get_stats_by_date,
    get_today_count, get_weekday_stats, query_years, YearsCache,
};
use focusflow::db::store::{Store, YearDb, YearFile};

fn date(year: i32, month: u32, day: u32) -> Date {
    Date { year, month, day }
}

fn of(d: NaiveDate) -> Date {
    date(d.year(), d.month(), d.day())
}

fn today() -> Date {
    date(2026, 9, 20)
}

fn one(year: i32, db: YearDb) -> Store {
    let mut st = Store::new();
    st.files.push(YearFile { year, db: Some(db) });
    st
}

#[test]
fn day_key_roundtrips_over_eight_hundred_days() {
    let base = NaiveDate::from_ymd_opt(2024, 1, 1).expect("date");
    for i in 0..800u64 {
        let d = of(base + Days::new(i));
        let k = day_key_of_date(&d);
        assert_eq!(day_key_to_date(k), Some(d), "{d:?} -> {k} -> 反算不一致");
    }
    assert_eq!(day_key_of_date(&date(1970, 1, 1)), 0);
    assert_eq!(day_key_of_date(&date(1970, 1, 2)), 1);
    assert_eq!(
        day_key_of_date(&of(base + Days::new(365))) - day_key_of_date(&of(base)),
        365
    );
}

#[test]
fn day_key_of_date_matches_the_instant_based_key_at_local_noon() {
    for (y, m, d) in [
        (2024, 1, 5),
        (2024, 3, 31),
        (2024, 7, 1),
        (2024, 10, 27),
        (2025, 12, 31),
    ] {
        let naive = NaiveDate::from_ymd_opt(y, m, d)
            .expect("date")
            .and_hms_opt(12, 0, 0)
            .expect("noon");
        let at = Local.from_local_datetime(&naive).latest().expect("可解析");
        let offset = at.offset().fix().local_minus_utc() as i64;
        assert_eq!(
            day_key_of_date(&date(y, m, d)),
            day_key_of_ts(at.timestamp(), offset),
            "{y}-{m}-{d} 的查询序号与写入侧分桶不一致"
        );
        assert_eq!(hour_of_ts(at.timestamp(), offset), 12);
    }
}

#[test]
fn days_begin_at_local_midnight() {
    assert_eq!(day_key_of_ts(86_399, 0), 0);
    assert_eq!(day_key_of_ts(86_400, 0), 1);
    assert_eq!(day_key_of_ts(86_399, 1), 1);
    assert_eq!(day_key_of_ts(57_600, 28_800), 1);
    assert_eq!(hour_of_ts(57_599, 28_800), 23);
    assert_eq!(day_key_of_ts(0, -1), -1);
    assert_eq!(hour_of_ts(0, -1), 23);
}

#[test]
fn years_of_days() {
    assert_eq!(new_year_key(1970), Some(0));
    assert_eq!(new_year_key(1971), Some(365));
    assert_eq!(new_year_key(300_000), None);
    assert_eq!(year_of_day_key(new_year_key(2026).unwrap(), 2000), 2026);
    assert_eq!(year_of_day_key(new_year_key(2026).unwrap() - 1, 2000), 2025);
    assert_eq!(year_of_day_key(-5, 2000), 2000, "没有日期的天归当前年");
    assert_eq!(day_key_text(0), "1970-01-01");
    assert_eq!(day_key_text(-1), "");
}

#[test]
fn period_validation_accepts_only_known_ranges() {
    assert!(is_valid_period(-1), "-1 = 今日");
    assert!(is_valid_period(0), "0 = 总计");
    assert!(is_valid_period(1));
    assert!(is_valid_period(365));
    assert!(is_valid_period(MAX_QUERY_DAYS));
    assert!(!is_valid_period(-2), "回归：-2 曾让应用每次启动即崩溃");
    assert!(!is_valid_period(-100));
    assert!(!is_valid_period(MAX_QUERY_DAYS + 1));
    assert!(!is_valid_period(i64::MIN));
    assert!(!is_valid_period(i64::MAX));
}

#[test]
fn clamp_query_days_bounds_everything() {
    assert_eq!(clamp_query_days(-1), 1);
    assert_eq!(clamp_query_days(0), 1);
    assert_eq!(clamp_query_days(30), 30);
    assert_eq!(clamp_query_days(i64::MAX), MAX_QUERY_DAYS);
    assert_eq!(clamp_query_days(i64::MIN), 1);
}

#[test]
fn invalid_days_never_panic_on_date_math() {
    let st = Store::new();
    for days in [-2i64, -100, i64::MIN, i64::MAX, MAX_QUERY_DAYS + 1] {
        let _ = get_stats(&st, Some(days), None, &today());
        let _ = get_app_stats(&st, Some(days), None, &today());
        let _ = get_daily_counts(&st, days, None, &today());
        let _ = get_weekday_stats(&st, days, &today());
    }
    let _ = get_stats(&st, Some(7), None, &today());
    let _ = get_daily_counts(&st, 7, None, &today());
}

#[test]
fn daily_counts_span_includes_today() {
    let st = Store::new();
    assert_eq!(get_daily_counts(&st, 1, None, &today()).len(), 1);
    assert_eq!(get_daily_counts(&st, 200, None, &today()).len(), 200);
    assert_eq!(
        get_daily_counts(&st, 0, None, &today()).len(),
        1,
        "非法天数收敛为 1 天"
    );
    assert_eq!(get_daily_counts(&st, 1, None, &today())[0].0, "2026-09-20");
    assert_eq!(get_daily_counts(&st, 3, None, &today())[0].0, "2026-09-18");
}

#[test]
fn available_years_skips_empty_shell_dbs() {
    let mut full = YearDb::new();
    full.daily.bump(1, 1);
    full.seconds.bump(1, 1);
    let mut st = Store::new();
    st.files.push(YearFile { year: 2031, db: Some(YearDb::new()) });
    st.files.push(YearFile { year: 2032, db: Some(full) });
    let years = available_years(&st);
    assert!(years.contains(&2032), "有数据的年份必须在: {years:?}");
    assert!(!years.contains(&2031), "空壳年份不该再被扫: {years:?}");
    st.files.push(YearFile { year: 2033, db: None });
    assert_eq!(
        available_years(&st),
        vec![2033, 2032],
        "损坏的年度库应按「有数据」保守处理"
    );
}

#[test]
fn available_years_keeps_dbs_whose_pages_are_corrupt() {
    let mut st = Store::new();
    st.files.push(YearFile { year: 2034, db: None });
    assert!(available_years(&st).contains(&2034), "打得开、读不出的库按「有数据」处理");
}

#[test]
fn years_are_kept_for_half_a_minute() {
    let mut full = YearDb::new();
    full.daily.bump(1, 1);
    full.seconds.bump(1, 1);
    let st = one(2032, full);
    let mut cache = YearsCache::new();
    assert_eq!(cache.try_available_years("d", 1000, Ok(&st)), Ok(vec![2032]));
    assert_eq!(
        cache.try_available_years("d", 30_999, Err("x")),
        Ok(vec![2032]),
        "三十秒内用缓存"
    );
    assert_eq!(
        cache.try_available_years("d", 31_000, Err("拒绝访问")),
        Err("读取数据目录 d 失败: 拒绝访问".to_string())
    );
    assert_eq!(
        cache.try_available_years("e", 1000, Err("x")),
        Err("读取数据目录 e 失败: x".to_string()),
        "各目录互不相干"
    );
    assert_eq!(cache.try_available_years("d", 40_000, Ok(&st)), Ok(vec![2032]));
    cache.invalidate_years_cache("d");
    assert_eq!(cache.try_available_years("d", 40_001, Ok(&Store::new())), Ok(vec![]));
}

#[test]
fn statistics_of_a_period_and_of_a_year() {
    let t = today();
    let dk = day_key_of_date(&t);
    let mut db = YearDb::new();
    for (back, key, n) in [(0, "A", 3), (1, "A", 2), (1, "B", 7), (40, "C", 100)] {
        db.daily.bump(dk - back, n);
        db.seconds.bump(dk - back, 0);
        db.hourly.bump((dk - back, 9), n);
        db.keys.bump((dk - back, key.to_string()), n);
        db.apps.bump((dk - back, "a.exe".to_string()), n * 10);
    }
    let st = one(2026, db);
    let (total, keys) = get_stats(&st, Some(2), None, &t);
    assert_eq!(total, 12);
    assert_eq!(keys.get(&"A".to_string()), 5);
    assert_eq!(keys.get(&"B".to_string()), 7);
    assert!(!keys.contains(&"C".to_string()));
    assert_eq!(get_stats(&st, None, None, &t).0, 112);
    assert_eq!(get_stats(&st, None, Some(2025), &t).0, 0);
    assert_eq!(get_stats_by_date(&st, &t).0, 3);
    assert_eq!(get_app_stats(&st, Some(1), None, &t).0, 30);
    assert_eq!(get_app_stats_by_date(&st, &date(2026, 9, 19)).0, 90);
    let hours = get_hourly_stats(&st, &t);
    assert_eq!(hours.len(), 24);
    assert_eq!(hours[9], 3);
    assert_eq!(hours.iter().sum::<i64>(), 3);
    assert_eq!(get_today_count(None, &st, &t), 3);
    let (all, best) = get_alltime_summary(&st);
    assert_eq!(all, 112);
    assert_eq!(best, get_alltime_max_day(&st));
    assert_eq!(best, Some(("2026-08-11".to_string(), 100)));
    assert_eq!(query_years(&st, Some(7), &t), vec![2026]);
    assert_eq!(cutoff_day_key(Some(1), dk), Some(dk));
    assert_eq!(cutoff_day_key(None, dk), None);
}

#[test]
fn weekdays_add_up() {
    let rows = vec![
        ("2026-09-14".to_string(), 5),
        ("2026-09-20".to_string(), 7),
        ("2026-09-21".to_string(), 6),
        ("no date".to_string(), 100),
    ];
    let sums = aggregate_weekday(&rows);
    assert_eq!(sums.get(&0), 11, "两个星期一");
    assert_eq!(sums.get(&6), 7, "一个星期日");
    assert_eq!(sums.total(), 18);
}

#[test]
fn all_years_are_the_sum_of_each() {
    let t = today();
    let mut st = Store::new();
    for (year, a, b) in [(2024, 3, 0), (2025, 5, 2), (2026, 1, 9)] {
        let mut db = YearDb::new();
        let k = day_key_of_date(&date(year, 5, 1));
        db.daily.bump(k, a + b);
        db.seconds.bump(k, 0);
        db.keys.bump((k, "A".to_string()), a);
        if b > 0 {
            db.keys.bump((k, "B".to_string()), b);
        }
        st.files.push(YearFile { year, db: Some(db) });
    }
    let (total, keys) = get_stats(&st, None, None, &t);
    let each: Vec<_> = available_years(&st)
        .into_iter()
        .map(|y| get_stats(&st, None, Some(y), &t))
        .collect();
    assert_eq!(total, each.iter().map(|r| r.0).sum::<i64>());
    assert_eq!(total, 20);
    for name in ["A", "B"] {
        let name = name.to_string();
        assert_eq!(keys.get(&name), each.iter().map(|r| r.1.get(&name)).sum::<i64>());
    }
    let (all, best) = get_alltime_summary(&st);
    assert_eq!(all, total);
    assert_eq!(best, get_alltime_max_day(&st));
    assert_eq!(best, Some(("2026-05-01".to_string(), 10)));
    let (none, no_keys) = get_stats(&Store::new(), None, None, &t);
    assert_eq!(none, 0);
    assert!(no_keys.is_empty());
    assert_eq!(get_alltime_summary(&Store::new()), (0, None));
}

#[test]
fn weekdays_are_the_daily_counts() {
    let t = today();
    let dk = day_key_of_date(&t);
    let mut db = YearDb::new();
    for back in 0..20 {
        db.daily.bump(dk - back, back + 1);
        db.seconds.bump(dk - back, 0);
    }
    let st = one(2026, db);
    for days in [1, 6, 7, 16] {
        let daily = get_daily_counts(&st, days, None, &t);
        let by_weekday = get_weekday_stats(&st, days, &t);
        assert_eq!(by_weekday.len(), if days < 7 { days as usize } else { 7 });
        let mut sums = vec![0i64; 7];
        for (text, n) in &daily {
            let d = NaiveDate::parse_from_str(text, "%Y-%m-%d").expect("日期");
            sums[d.weekday().num_days_from_monday() as usize] += n;
        }
        for w in 0..7 {
            assert_eq!(by_weekday.get(&w), sums[w as usize], "星期 {w}");
        }
        assert_eq!(by_weekday.total(), daily.iter().map(|e| e.1).sum::<i64>());
    }
}
