use focusflow::autostart::{
    after_attempt, disable_autostart, enable_autostart, is_autostart_enabled, ps_failure_detail,
    ps_quote, shortcut_command, Attempt,
};

#[test]
fn ps_failure_detail_prefers_stderr_then_falls_back_to_stdout() {
    assert_eq!(
        ps_failure_detail(b"", b"syntax error"),
        "syntax error",
        "stderr 有内容时用它"
    );
    assert_eq!(
        ps_failure_detail(b"  Cannot set property ", b"   \n"),
        "Cannot set property",
        "stderr 全空时得回退到 stdout，并去掉首尾空白"
    );
    assert_eq!(
        ps_failure_detail("\u{feff} \r\n".as_bytes(), b"\t ").len(),
        0
    );
}

#[test]
fn bytes_that_are_no_text_are_replaced() {
    assert_eq!(ps_failure_detail(b"", b"a\xffb"), "a\u{fffd}b");
}

#[test]
fn ps_quote_doubles_inner_single_quotes() {
    assert_eq!(ps_quote(r"C:\a\b.exe"), "'C:\\a\\b.exe'");
    assert_eq!(
        ps_quote(r"C:\Users\D'Angelo\FocusFlow\FocusFlow.exe"),
        r"'C:\Users\D''Angelo\FocusFlow\FocusFlow.exe'"
    );
    let q = ps_quote("a'; Write-Host pwned; 'b");
    assert_eq!(q.matches("''").count(), 2, "原文两个撇号各自翻倍: {q}");
    assert!(q.starts_with('\'') && q.ends_with('\'') && q.len() > 2);
    let inner = &q[1..q.len() - 1];
    assert!(
        !inner.starts_with('\'') && !inner.ends_with('\''),
        "定界符不该与内容粘连: {q}"
    );
}

#[test]
fn the_command_quotes_its_paths() {
    let c = shortcut_command(r"C:\D'A\f.lnk", r"C:\f.exe", r"C:\");
    assert!(c.contains(r"'C:\D''A\f.lnk'"), "{c}");
    assert!(c.contains(r"'C:\f.exe'"), "{c}");
    assert!(c.ends_with("$s.Save()"), "{c}");
}

#[test]
fn one_attempt_without_a_word_is_repeated() {
    assert!(matches!(after_attempt(true, Some(0), "", 1), Attempt::Made));
    assert!(matches!(after_attempt(false, None, "", 1), Attempt::Again));
    match after_attempt(false, Some(1), "拒绝访问", 1) {
        Attempt::Failed(m) => assert_eq!(
            m,
            "PowerShell 创建快捷方式失败（退出码 Some(1)，第 1 次尝试）: 拒绝访问"
        ),
        _ => panic!(),
    }
    match after_attempt(false, None, "", 2) {
        Attempt::Failed(m) => assert!(m.contains("退出码 None") && m.contains("无任何输出"), "{m}"),
        _ => panic!(),
    }
}

#[test]
fn starting_along_is_switched() {
    assert_eq!(
        enable_autostart(None),
        (true, "已启用开机自启，开机后将自动后台运行".to_string())
    );
    assert_eq!(
        enable_autostart(Some("x")),
        (false, "启用开机自启失败: x".to_string())
    );
    assert_eq!(disable_autostart(true), (true, "已取消开机自启".to_string()));
    assert_eq!(
        disable_autostart(false),
        (false, "删除启动快捷方式失败".to_string())
    );
}

#[test]
fn a_shortcut_to_another_program_is_not_in_force() {
    let exe = r"C:\Ä\FocusFlow.exe";
    assert!(is_autostart_enabled(Some(r"c:\ä\focusflow.EXE"), exe, exe, None));
    assert!(!is_autostart_enabled(Some(r"C:\old\FocusFlow.exe"), exe, exe, None));
    assert!(!is_autostart_enabled(None, exe, exe, None));
    assert!(is_autostart_enabled(
        None,
        exe,
        exe,
        Some("\"c:\\ä\\FOCUSFLOW.exe\" --minimized")
    ));
}
