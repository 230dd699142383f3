use focusflow::hardware::{
    fallback_device_name, hardware_identity_key, interface_tag, model_key, parse_vid_pid,
};

fn ids(v: &str, p: &str) -> Option<(String, String)> {
    Some((v.to_string(), p.to_string()))
}

#[test]
fn non_ascii_device_keys_are_rejected_not_fatal() {
    assert_eq!(parse_vid_pid("HID#VID_罗技&PID_1464"), None);
    assert_eq!(parse_vid_pid("HID#VID_日本語のデバイス&PID_0001"), None);
    assert_eq!(parse_vid_pid(r"BTHENUM#VID&012罗技_PID&c52b"), None);
    assert_eq!(
        parse_vid_pid(r"HID#VID_24AE&PID_1464&MI_00#7&1a2b&0&0000"),
        ids("24AE", "1464")
    );
    assert_eq!(
        parse_vid_pid("BTHENUM\\VID&046d_PID_c52b"),
        ids("046D", "C52B")
    );
    assert_eq!(parse_vid_pid("HID#VID_1"), None);
}

#[test]
fn parse_vid_pid_variants() {
    assert_eq!(
        parse_vid_pid(r"\\?\HID#VID_046D&PID_C52B&MI_00#8&2c5f&0&0000"),
        ids("046D", "C52B")
    );
    assert_eq!(parse_vid_pid("hid#vid_1234&pid_5678#x"), ids("1234", "5678"));
    assert_eq!(
        parse_vid_pid(
            r"\\?\HID#{00001812-0000-1000-8000-00805f9b34fb}_Dev_VID&0107d7_PID&efff_REV&0120_d46d51083b12&Col03#9&20337b89&0&0002#{378de44c-56ef-11d1-bc8c-00a0c91405dd}"
        ),
        ids("07D7", "EFFF")
    );
    assert_eq!(
        parse_vid_pid(r"BTHENUM#VID&046d_PID_c52b#x"),
        ids("046D", "C52B")
    );
    assert_eq!(
        parse_vid_pid(r"BTHENUM\Dev_VID&0000046D&PID_C52B"),
        ids("046D", "C52B")
    );
    assert_eq!(parse_vid_pid("HID#VID_GGGG&PID_C52B"), None, "非十六进制 VID");
    assert_eq!(parse_vid_pid("HID#VID_046D"), None, "缺 PID");
    assert_eq!(
        parse_vid_pid("HID#MSFT0001&Col01#5&36f79095&0&0000"),
        None,
        "无 VID 段"
    );
    assert_eq!(
        parse_vid_pid("ACPI#MSFT0001#4&f25ce6e&0"),
        None,
        "ACPI 无 VID 段"
    );
}

#[test]
fn fallback_device_name_uses_vid_pid() {
    assert_eq!(
        fallback_device_name("HID#VID_046D&PID_C52B&MI_00#8&2c5f&0&0000"),
        "HID 设备 · 046D/C52B"
    );
    let long = "X".repeat(60);
    assert!(fallback_device_name(&long).starts_with(&"X".repeat(40)));
    assert!(fallback_device_name(&long).ends_with('…'));
    assert_eq!(fallback_device_name("short#path"), "short#path");
}

#[test]
fn fallback_device_name_handles_archived_placeholder() {
    assert_eq!(
        fallback_device_name("device-id:3"),
        "未知设备 · 归档 #3",
        "归档占位要说明来历，不能显示机器串"
    );
    assert_eq!(fallback_device_name("device-id:127"), "未知设备 · 归档 #127");
    assert_eq!(focusflow::hardware::ARCHIVED_DEVICE_KEY_PREFIX, "device-id:");
    assert_eq!(fallback_device_name("short#path"), "short#path");
}

#[test]
fn hardware_identity_key_extracts_the_middle_segment() {
    assert_eq!(
        hardware_identity_key("HID#VID_046D&PID_C52B&MI_00#7&1f126e19&0&0000"),
        "VID_046D&PID_C52B&MI_00"
    );
    assert_eq!(
        hardware_identity_key("HID#VID_046D&PID_C52B&MI_00#8&2c5f77d4&0&0001"),
        "VID_046D&PID_C52B&MI_00"
    );
    assert_eq!(
        hardware_identity_key("HID#VID_24AE&PID_1464&MI_01#7&2222&0&0001"),
        "VID_24AE&PID_1464&MI_01"
    );
    assert_eq!(
        hardware_identity_key("VID_046D&PID_C52B&MI_00"),
        "VID_046D&PID_C52B&MI_00"
    );
    assert_eq!(hardware_identity_key("HID#ORPHAN"), "HID#ORPHAN");
    assert_eq!(hardware_identity_key("RDP_MOU"), "RDP_MOU");
}

#[test]
fn model_keys_carry_the_interface() {
    assert_eq!(
        interface_tag("HID#VID_24AE&PID_1464&MI_00#7&1111&0&0000").as_deref(),
        Some("MI_00")
    );
    assert_ne!(
        model_key("HID#VID_24AE&PID_1464&MI_00#7&1111&0&0000"),
        model_key("HID#VID_24AE&PID_1464&MI_01#7&1111&0&0000")
    );
    assert_eq!(model_key("HID#MSFT0001&Col01#5&36f79095&0&0000"), None);
}
