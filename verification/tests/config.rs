use focusflow::config::{parse_ini, FocusFlowConfig};

#[test]
fn defaults_and_overrides() {
    let cfg =
        FocusFlowConfig::load(Some("[gui]\ntheme = dark\nactive_refresh_interval = 5\n"));
    assert_eq!(cfg.get("gui", "theme"), "dark");
    assert_eq!(cfg.get_int("gui", "active_refresh_interval", 0), 5);
    assert!(cfg.get_bool("listener", "ignore_key_repeat", false));
    assert_eq!(cfg.get("hotkey", "toggle_window"), "ctrl+shift+f");
    assert_eq!(cfg.get_int("rest", "key_threshold", 0), 10000);
    assert_eq!(cfg.get("gui", "floating_metric"), "times");
    assert_eq!(cfg.get_int("gui", "default_period", 99), -1);
    assert!(cfg.get_bool("gui", "unload_hidden", false));
    assert_eq!(cfg.get_int("gui", "unload_hidden_delay", 0), 60);
    assert!(cfg.get_bool("device_stats", "enabled", false));
}

#[test]
fn runtime_keys_preserved_and_deprecated_removed() {
    let file = "[stats]
today_count_cache_ttl = 10
             [floating]
pos_x = 1488
pos_y = 165
width = 90
height = 46
opacity = 0.5
             [gui]
theme = light
refresh_interval = 3
show_key_groups = false
font = hei
             [tray]
tooltip_interval = 5
             [pomodoro]
enabled = false
work_minutes = 45
";
    let cfg = FocusFlowConfig::load(Some(file));
    assert_eq!(cfg.get("floating", "pos_x"), "1488");
    assert_eq!(cfg.get("floating", "pos_y"), "165");
    assert_eq!(cfg.get("floating", "width"), "90");
    assert_eq!(cfg.get("floating", "height"), "46");
    assert!(cfg.get("stats", "today_count_cache_ttl").is_empty());
    for (section, key) in [
        ("floating", "opacity"),
        ("gui", "refresh_interval"),
        ("gui", "show_key_groups"),
        ("gui", "font"),
        ("tray", "tooltip_interval"),
        ("pomodoro", "enabled"),
    ] {
        assert!(
            cfg.get(section, key).is_empty(),
            "{section}.{key} 已无读点，必须被清掉"
        );
    }
    assert_eq!(cfg.get_int("gui", "full_refresh_interval", 0), 10);
    assert_eq!(cfg.get_int("pomodoro", "work_minutes", 0), 45);
    assert_eq!(cfg.get_int("gui", "active_refresh_interval", 0), 2);
    let on_disk = cfg.save(Some(file));
    let dead: Vec<&str> = on_disk
        .lines()
        .map(str::trim)
        .filter(|l| {
            [
                "opacity",
                "refresh_interval",
                "tooltip_interval",
                "show_key_groups",
                "font",
                "today_count_cache_ttl",
            ]
            .iter()
            .any(|k| l.starts_with(k))
        })
        .collect();
    assert!(dead.is_empty(), "回写的文件里还留着死键: {dead:?}");
    assert!(
        on_disk.contains("work_minutes = 45"),
        "活键必须照旧留在文件里: {on_disk}"
    );
    assert!(
        !on_disk.contains("[tray]"),
        "清空之后的 [tray] 节不该被回写"
    );
}

#[test]
fn utf8_bom_does_not_eat_the_first_section() {
    let file = "\u{feff}[database]\nmax_backups = 99\n[gui]\ntheme = dark\n";
    let cfg = FocusFlowConfig::load(Some(file));
    assert_eq!(
        cfg.get_int("database", "max_backups", 0),
        99,
        "BOM 之后第一个 section 的键必须读得到"
    );
    assert_eq!(cfg.get("gui", "theme"), "dark");
    let after = cfg.save(Some(file));
    assert!(
        after.contains("max_backups = 99"),
        "用户配置不该被默认值盖掉:\n{after}"
    );
    assert!(
        !after.starts_with('\u{feff}'),
        "回写不必再把 BOM 带回去:\n{after}"
    );
}

#[test]
fn hand_added_keys_survive_program_saves() {
    let file = "[stats]\ntoday_count_cache_ttl = 10\n";
    let cfg = FocusFlowConfig::load(Some(file));
    let mut text = cfg.save(Some(file));
    text.push_str("[scheduler]\nallow_extra = mytool.exe\n");
    let after = cfg.save(Some(&text));
    assert!(
        after.contains("allow_extra = mytool.exe"),
        "手加的白名单不该被保存抹掉:\n{after}"
    );
    assert!(
        after.contains("theme = light"),
        "内存里已有的默认键照旧要写进去:\n{after}"
    );
    assert!(
        !after.contains("today_count_cache_ttl"),
        "废弃键不该靠回填复活:\n{after}"
    );
}

#[test]
fn what_is_saved_is_read_again() {
    let mut cfg = FocusFlowConfig::in_memory();
    cfg.set("gui", "theme", "dark");
    cfg.set("new", "key", "a = b");
    let again = FocusFlowConfig::load(Some(&cfg.save(None)));
    assert_eq!(again.get("gui", "theme"), "dark");
    assert_eq!(again.get("new", "key"), "a = b");
    assert_eq!(again.get_or("new", "other", "x"), "x");
}

#[test]
fn values_of_kinds() {
    let cfg = FocusFlowConfig::load(Some(
        "# note\n; note\n[a]\nn = 12\nbad = 1x\nyes = TRUE\nno = off\nodd = maybe\n",
    ));
    assert_eq!(cfg.get_int("a", "n", 7), 12);
    assert_eq!(cfg.get_int("a", "bad", 7), 7);
    assert!(cfg.get_bool("a", "yes", false));
    assert!(!cfg.get_bool("a", "no", true));
    assert_eq!(parse_ini("key = before any section\n").len(), 0);
}

#[test]
fn a_burst_of_scrolling_lasts_a_quarter_of_a_second() {
    let cfg = FocusFlowConfig::load(None);
    assert_eq!(cfg.get("listener", "scroll_burst_window"), "0.25");
}
