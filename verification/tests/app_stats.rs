use focusflow::app_stats::{is_recordable, parse_exclude, Lookup, PidNames, Sampler, Search};
use focusflow::config::FocusFlowConfig;

#[test]
fn exclude_blocks_matching_process() {
    let exclude = vec!["keepassxc.exe".to_string(), "taskmgr.exe".to_string()];
    assert!(is_recordable("Obsidian.exe", &exclude));
    assert!(!is_recordable("KeePassXC.exe", &exclude));
    assert!(!is_recordable("KEEPASSXC.EXE", &exclude));
    assert!(!is_recordable("taskmgr.exe", &exclude));
}

#[test]
fn parse_exclude_normalizes_entries() {
    let ex = parse_exclude("KeePassXC.exe, taskmgr.exe");
    assert_eq!(
        ex,
        vec!["keepassxc.exe".to_string(), "taskmgr.exe".to_string()]
    );
    assert!(parse_exclude("").is_empty());
    assert!(parse_exclude(" , , ").is_empty());
    let ex = parse_exclude("  KEEPASSXC.EXE  ");
    assert!(!is_recordable("keepassxc.exe", &ex));
}

#[test]
fn empty_exclude_allows_everything() {
    let exclude: Vec<String> = Vec::new();
    assert!(is_recordable("msedge.exe", &exclude));
}

#[test]
fn the_sampler_follows_the_setting() {
    let mut c = FocusFlowConfig::in_memory();
    let (_, mut s) = Sampler::load_config(&c);
    assert_eq!(s.look(&c, Some("A.exe")), Some("A.exe".to_string()));
    c.set("app_stats", "exclude", "a.exe");
    assert_eq!(s.look(&c, Some("A.exe")), None, "新的清单必须当场生效");
    assert_eq!(s.look(&c, Some("B.exe")), Some("B.exe".to_string()));
    assert_eq!(s.look(&c, None), None);
}

#[test]
fn names_of_processes_are_read_anew_when_old() {
    let mut p = PidNames::new();
    assert!(matches!(p.look_up(7, 0, Search::First), Lookup::Rebuild(_)));
    p.rebuilt(0, vec![(7, "a.exe".to_string())]);
    assert_eq!(p.name_of(7), Some("a.exe".to_string()));
    assert!(matches!(p.look_up(7, 29_999, Search::First), Lookup::Name(n) if n == "a.exe"));
    assert!(matches!(p.look_up(7, 30_000, Search::First), Lookup::Rebuild(Search::Checked)));
    assert!(matches!(p.look_up(8, 999, Search::Checked), Lookup::Unknown));
    assert!(matches!(p.look_up(8, 1_000, Search::Checked), Lookup::Rebuild(Search::Forced)));
    assert!(matches!(p.look_up(8, 1_000, Search::Forced), Lookup::Unknown));
}
