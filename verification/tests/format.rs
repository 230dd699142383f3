use focusflow::format::{classify_key, csv_field, fmt_thousands, html_escape, KEY_GROUPS};

#[test]
fn thousands_formatter() {
    assert_eq!(fmt_thousands(0), "0");
    assert_eq!(fmt_thousands(1000), "1,000");
    assert_eq!(fmt_thousands(1234567), "1,234,567");
    assert_eq!(fmt_thousands(-500), "-500");
}

#[test]
fn thousands_at_the_edges() {
    assert_eq!(fmt_thousands(999), "999");
    assert_eq!(fmt_thousands(-1000), "-1,000");
    assert_eq!(fmt_thousands(i64::MAX), "9,223,372,036,854,775,807");
}

#[test]
fn classify_categories() {
    assert_eq!(classify_key("滚轮下滑"), "滚轮");
    assert_eq!(classify_key("鼠标左键"), "鼠标点击");
    assert_eq!(classify_key("F12"), "功能键");
    assert_eq!(classify_key("左Ctrl"), "修饰键");
    assert_eq!(classify_key("A"), "字母键");
    assert_eq!(classify_key("7"), "数字键");
    assert_eq!(classify_key("空格"), "编辑键");
    assert_eq!(classify_key("未知键"), "其他");
}

#[test]
fn every_group_is_listed() {
    for name in ["滚轮上滑", "鼠标右键", "F1", "Shift", "a", "0", "Tab", "?"] {
        assert!(KEY_GROUPS.contains(&classify_key(name)), "{name}");
    }
}

#[test]
fn csv_field_escapes_and_blocks_formula_injection() {
    assert_eq!(csv_field("A"), "A");
    assert_eq!(csv_field("鼠标左键"), "鼠标左键");
    assert_eq!(csv_field("a,b"), "\"a,b\"");
    assert_eq!(csv_field("say \"hi\""), "\"say \"\"hi\"\"\"");
    assert_eq!(csv_field("l1\nl2"), "\"l1\nl2\"");
    assert_eq!(csv_field("=cmd()"), "'=cmd()");
    assert_eq!(csv_field("+1"), "'+1");
    assert_eq!(csv_field("@x"), "'@x");
    assert_eq!(csv_field("-"), "'-");
    assert_eq!(csv_field("-=~-_+"), "'-=~-_+");
    assert_eq!(csv_field("-2+3"), "'-2+3");
    assert_eq!(csv_field("\tA"), "'\tA");
    assert_eq!(csv_field("=a,b"), "\"'=a,b\"");
}

#[test]
fn html_escape_covers_text_and_attribute_contexts() {
    assert_eq!(html_escape("A"), "A");
    assert_eq!(
        html_escape("<b>x&y</b>"),
        "&lt;b&gt;x&amp;y&lt;/b&gt;",
        "标签与 & 必须转义"
    );
    assert_eq!(
        html_escape("\"onmouseover='x'"),
        "&quot;onmouseover=&#39;x&#39;"
    );
    assert!(
        !html_escape("'").contains('\''),
        "单引号也要转义，否则属性值可被闭合"
    );
}
