use focusflow::calendar::Date;
use focusflow::config::FocusFlowConfig;
use focusflow::db::writer::DbWriter;
use focusflow::device_stats::classify::{
    keyboard_counts, mouse_action_name, mouse_counts, vkey_name,
};
use focusflow::device_stats::{
    display_name, localize_generic_name, record_device_event, registry_device_name,
    registry_instance_path, short_device_tag, start_device_stats, strip_device_prefix, RawInput,
    Sink,
};
use focusflow::listener::new_pause_flag;

const TS: i64 = 1_789_905_600;

fn writer() -> DbWriter {
    let today = Date { year: 2026, month: 9, day: 20 };
    DbWriter::start(0, 0, None, None, &Vec::new(), &today)
}

#[test]
fn strip_prefix_variants() {
    assert_eq!(
        strip_device_prefix(r"\\?\HID#VID_046D&PID_C52B"),
        "HID#VID_046D&PID_C52B"
    );
    assert_eq!(strip_device_prefix("HID#X"), "HID#X");
}

#[test]
fn display_name_combinations() {
    assert_eq!(
        display_name(
            r"\\?\HID#VID_046D&PID_C52B&MI_00#x",
            Some("HID-compliant mouse")
        ),
        "HID 鼠标 · 046D/C52B"
    );
    assert_eq!(
        display_name(r"\\?\HID#VID_046D&PID_C52B&MI_00#x", None),
        "HID 设备 · 046D/C52B"
    );
    assert_eq!(
        display_name(
            r"\\?\HID#{00001812-0000-1000-8000-00805f9b34fb}_Dev_VID&0107d7_PID&efff_REV&0120_x&Col03#9&20337b89&0&0002#{378de44c-56ef-11d1-bc8c-00a0c91405dd}",
            Some("HID Keyboard Device")
        ),
        "HID 键盘 · 07D7/EFFF"
    );
    assert_eq!(
        display_name(
            r"\\?\HID#MSFT0001&Col01#5&36f79095&0&0000#{378de44c-56ef-11d1-bc8c-00a0c91405dd}",
            Some("HID-compliant mouse")
        ),
        "HID 鼠标 · MSFT0001&Col01"
    );
    assert_eq!(
        display_name(r"\\?\HID#VID_046D&PID_C52B#x", Some("USB 接收器")),
        "USB 接收器 · 046D/C52B"
    );
    assert_eq!(
        display_name(
            r"\\?\ACPI#MSFT0001#4&f25ce6e&0",
            Some("Standard PS/2 Keyboard")
        ),
        "PS/2 键盘 · MSFT0001"
    );
}

#[test]
fn registry_instance_path_conversion() {
    assert_eq!(
        registry_instance_path(
            r"\\?\HID#VID_24AE&PID_1464&MI_00#7&1f126e19&0&0000#{378de44c-56ef-11d1-bc8c-00a0c91405dd}"
        ),
        r"HID\VID_24AE&PID_1464&MI_00\7&1f126e19&0&0000"
    );
    assert_eq!(
        registry_instance_path(r"\\?\ACPI#MSFT0001#4&f25ce6e&0"),
        r"ACPI\MSFT0001\4&f25ce6e&0"
    );
}

#[test]
fn generic_names_localized() {
    assert_eq!(localize_generic_name("HID-compliant mouse"), "HID 鼠标");
    assert_eq!(localize_generic_name("HID Keyboard Device"), "HID 键盘");
    assert_eq!(localize_generic_name("Standard PS/2 Keyboard"), "PS/2 键盘");
    assert_eq!(localize_generic_name("USB Receiver"), "USB Receiver");
}

#[test]
fn keyboard_flags_classification() {
    assert!(keyboard_counts(0), "按下（无标志）计");
    assert!(keyboard_counts(0x0002 | 0x0004), "E0/E1 前缀的按下也计");
    assert!(!keyboard_counts(0x0001), "释放不计");
    assert!(!keyboard_counts(0x0001 | 0x0002), "E0 释放不计");
}

#[test]
fn mouse_flags_classification() {
    assert!(mouse_counts(0x0001), "左键按下");
    assert!(mouse_counts(0x0004), "右键按下");
    assert!(mouse_counts(0x0010), "中键按下");
    assert!(mouse_counts(0x0400), "滚轮");
}

#[test]
fn key_name_mapping_covers_common_keys() {
    assert_eq!(vkey_name(0x41), Some("A"));
    assert_eq!(vkey_name(0x5A), Some("Z"));
    assert_eq!(vkey_name(0x31), Some("1"));
    assert_eq!(vkey_name(0x20), Some("空格"));
    assert_eq!(vkey_name(0x0D), Some("回车"));
    assert_eq!(vkey_name(0x1B), Some("Esc"));
    assert_eq!(vkey_name(0xA0), Some("左Shift"));
    assert_eq!(vkey_name(0x25), Some("左方向键"));
    assert_eq!(vkey_name(0x70), Some("F1"));
    assert_eq!(vkey_name(0x87), Some("F24"));
    assert_eq!(vkey_name(0x61), Some("数字键盘1"));
    assert_eq!(vkey_name(0xDC), Some("\\"));
    assert_eq!(vkey_name(0xFF), None, "无有效键码");
    assert_eq!(vkey_name(0x07), None, "未覆盖的键");
}

#[test]
fn mouse_action_names() {
    assert_eq!(mouse_action_name(0x0001, 0), Some("鼠标左键"));
    assert_eq!(mouse_action_name(0x0004, 0), Some("鼠标右键"));
    assert_eq!(mouse_action_name(0x0010, 0), Some("鼠标中键"));
    assert_eq!(mouse_action_name(0x0400, 120), Some("滚轮上滑"));
    assert_eq!(mouse_action_name(0x0400, -120), Some("滚轮下滑"));
    assert_eq!(mouse_action_name(0x0002, 0), None, "按键抬起");
    assert_eq!(mouse_action_name(0x0008, 0), None, "移动不记明细");
    assert!(
        mouse_counts(0x0004 | 0x0008),
        "右键按下+释放（一次事件同报两个标志）"
    );
    assert!(!mouse_counts(0), "纯移动不计");
    assert!(!mouse_counts(0x0002), "左键释放不计");
    assert!(!mouse_counts(0x0008), "右键释放不计");
    assert!(!mouse_counts(0x0020), "中键释放不计");
}

#[test]
fn device_records_are_gated_by_the_shared_pause_flag() {
    let mut paused = new_pause_flag();
    let key = r"HID#VID_046D&PID_C52B#7&1f126e19&0&0000";
    let name = "HID 鼠标 · 046D/C52B";
    let mut running = writer();
    assert!(
        record_device_event(&mut running, &paused, key, name, "mouse", Some("鼠标左键"), TS, 0),
        "未暂停时应记录"
    );
    assert!(running.has_pending(), "未暂停时设备计数必须落到写入器");
    let mut stopped = writer();
    paused.paused = true;
    assert!(
        !record_device_event(&mut stopped, &paused, key, name, "mouse", Some("鼠标左键"), TS, 0),
        "暂停时应拒绝记录"
    );
    assert!(!stopped.has_pending(), "暂停后设备侧信道不得再产生增量");
    paused.paused = false;
    assert!(
        record_device_event(&mut stopped, &paused, key, name, "mouse", Some("鼠标左键"), TS, 0),
        "恢复后应重新记录"
    );
    assert!(stopped.has_pending(), "恢复后设备计数应重新落进写入器");
}

#[test]
fn names_of_the_registry() {
    assert_eq!(registry_device_name(Some("鼠标"), Some("x")), Some("鼠标".to_string()));
    assert_eq!(
        registry_device_name(None, Some("@input.inf,%hid%;HID Keyboard Device")),
        Some("HID Keyboard Device".to_string())
    );
    assert_eq!(registry_device_name(None, None), None);
    assert_eq!(short_device_tag(r"\\?\HID#MSFT0001&Col01#5&36f79095"), "MSFT0001&Col01");
}

#[test]
fn an_input_registers_its_device_once() {
    let mut sink = Sink::new();
    let mut w = writer();
    let on = new_pause_flag();
    let path = r"\\?\HID#VID_046D&PID_C52B&MI_00#7&1f126e19&0&0000#{378de44c}";
    let press = RawInput::Keyboard { flags: 0, vkey: 0x41 };
    assert!(sink.wants_device(Some(1), &press));
    assert!(
        sink.on_input(&mut w, &on, Some(1), &press, Some((path, None)), Some(TS), 0),
        "登记之后应计数"
    );
    assert!(!sink.wants_device(Some(1), &press));
    assert!(sink.on_input(&mut w, &on, Some(1), &press, None, Some(TS), 0));
    assert_eq!(w.agg.devices.total(), 2);
    assert_eq!(w.agg.device_keys.total(), 2);
    let release = RawInput::Keyboard { flags: 1, vkey: 0x41 };
    assert!(!sink.on_input(&mut w, &on, Some(1), &release, None, Some(TS), 0));
    assert!(!sink.on_input(&mut w, &on, None, &press, None, Some(TS), 0), "没有设备的输入不计");
    assert!(!sink.on_input(&mut w, &on, Some(2), &press, None, Some(TS), 0), "查不到路径的设备不计");
    assert!(!sink.on_input(&mut w, &on, Some(1), &press, None, None, 0), "时钟拿不到时不计");
    assert!(!sink.on_input(&mut w, &on, Some(1), &RawInput::Other, None, Some(TS), 0));
    assert_eq!(w.agg.devices.total(), 2);
}

#[test]
fn the_side_channel_reports_how_it_started() {
    let mut c = FocusFlowConfig::in_memory();
    let r = start_device_stats(&c, None);
    assert!(r.ok && r.detail == "已启动（Raw Input 侧信道）");
    let r = start_device_stats(&c, Some("失败"));
    assert!(!r.ok && r.detail == "失败");
    c.set("device_stats", "enabled", "false");
    let r = start_device_stats(&c, Some("失败"));
    assert!(r.ok && r.detail == "未启用（[device_stats] enabled=false）");
}
