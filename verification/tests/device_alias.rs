use focusflow::device_alias::{
    alias_unreadable, clamp_alias, clear, invalidate_cache, migrate_exact_keys_to_identity,
    table, try_read_map, write_map, AliasCache, AliasFile, AliasRead, AliasTable, MAX_ALIAS_CHARS,
};
use focusflow::hardware::interface_tag;
use focusflow::textmap::TextMap;

struct Dir {
    map: TextMap,
}

impl Dir {
    fn new() -> Self {
        Dir { map: TextMap::new() }
    }

    fn set(&mut self, key: &str, alias: &str) -> usize {
        match focusflow::device_alias::set(AliasRead::Good(self.map.dup()), key, alias) {
            Ok((m, n)) => {
                self.map = m;
                n
            }
            Err(_) => panic!("写入应当成功"),
        }
    }

    fn clear(&mut self, key: &str) -> bool {
        match clear(AliasRead::Good(self.map.dup()), key) {
            Ok((m, had)) => {
                self.map = m;
                had
            }
            Err(_) => panic!("删除应当成功"),
        }
    }

    fn table(&self) -> AliasTable {
        AliasTable::from_map(&self.map)
    }

    fn resolve(&self, key: &str) -> Option<String> {
        self.table().resolve(key).map(|s| s.to_string())
    }
}

fn some(s: &str) -> Option<String> {
    Some(s.to_string())
}

#[test]
fn set_resolve_clear_roundtrip() {
    let mut d = Dir::new();
    let key = "HID#VID_24AE&PID_1464&MI_00#7&1f126e19&0&0000";
    assert!(d.table().is_empty());
    assert!(d.resolve(key).is_none());
    d.set(key, "新鼠标");
    assert_eq!(d.resolve(key), some("新鼠标"));
    assert_eq!(d.table().exact_alias(key), Some("新鼠标"));
    let text = write_map(&d.map);
    assert!(text.contains("新鼠标"), "别名应写入 JSON: {text}");
    assert!(d.clear(key));
    assert!(d.resolve(key).is_none());
    assert!(!d.clear(key));
}

#[test]
fn model_fallback_matches_replugged_port() {
    let mut d = Dir::new();
    let old_key = "HID#VID_046D&PID_C52B&MI_00#7&OLDPORT&0&0000";
    let new_key = "HID#VID_046D&PID_C52B&MI_00#7&NEWPORT&0&0000";
    d.set(old_key, "新鼠标");
    assert_eq!(d.resolve(old_key), some("新鼠标"));
    assert_eq!(d.resolve(new_key), some("新鼠标"), "同型号换端口后别名应回退命中");
    d.set(new_key, "第二只 G304");
    assert_eq!(d.resolve(new_key), some("第二只 G304"));
}

#[test]
fn composite_device_interfaces_do_not_share_the_model_key() {
    let mut d = Dir::new();
    let kb = "HID#VID_24AE&PID_1464&MI_00#7&1111&0&0000";
    let mouse = "HID#VID_24AE&PID_1464&MI_01#7&2222&0&0001";
    d.set(kb, "办公键盘");
    assert_eq!(d.resolve(kb), some("办公键盘"));
    let mouse_replugged = "HID#VID_24AE&PID_1464&MI_01#7&9999&0&0001";
    assert_eq!(d.resolve(mouse_replugged), None);
    assert_eq!(
        d.resolve("HID#VID_24AE&PID_1464&MI_00#7&8888&0&0000"),
        some("办公键盘"),
        "同一接口换端口仍应回退命中"
    );
    d.set(mouse, "游戏鼠标");
    assert_eq!(d.resolve(mouse_replugged), some("游戏鼠标"));
    assert_eq!(d.resolve(kb), some("办公键盘"));
}

#[test]
fn bluetooth_collection_tags_split_the_model_key() {
    let mut d = Dir::new();
    let c1 = r"HID#{00001812-0000-1000-8000-00805f9b34fb}_Dev_VID&0107d7_PID&efff_REV&0120_d46d51083b12&Col01#9&aaaa&0&0001";
    assert_eq!(interface_tag(c1).as_deref(), Some("COL01"));
    assert_eq!(interface_tag("HID#VID_1234&PID_5678#x"), None);
    d.set(c1, "键盘集合");
    let c2 = c1.replace("&Col01", "&Col02");
    assert_eq!(d.resolve(c1), some("键盘集合"));
    assert_eq!(d.resolve(&c2), None, "另一个集合不该命中");
}

#[test]
fn ambiguous_model_aliases_do_not_fallback() {
    let mut d = Dir::new();
    d.set("HID#VID_046D&PID_C52B#A", "旧鼠标");
    d.set("HID#VID_046D&PID_C52B#B", "新鼠标");
    let unknown = "HID#VID_046D&PID_C52B#C";
    assert_eq!(d.resolve(unknown), None, "歧义型号不应回退");
    assert_eq!(d.resolve("HID#VID_046D&PID_C52B#A"), some("旧鼠标"));
}

#[test]
fn edge_cases_do_not_break() {
    let mut d = Dir::new();
    let key = "HID#VID_1234&PID_5678#x";
    d.set(key, "   ");
    assert!(d.table().is_empty(), "全空白别名应视为删除");
    let long = "鼠".repeat(MAX_ALIAS_CHARS + 10);
    d.set(key, &long);
    let got = d.resolve(key).unwrap();
    assert_eq!(got.chars().count(), MAX_ALIAS_CHARS);
    assert_eq!(clamp_alias("  短名  "), "短名");

    let broken = try_read_map(&AliasFile::Bytes("{ 坏掉的 json".as_bytes().to_vec()));
    assert!(matches!(broken, AliasRead::Broken));
    match focusflow::device_alias::set(broken, key, "恢复") {
        Ok((m, _)) => assert_eq!(AliasTable::from_map(&m).resolve(key), Some("恢复")),
        Err(_) => panic!("坏文件后仍可正常写入"),
    }
}

#[test]
fn no_vid_pid_devices_only_exact_match() {
    let mut d = Dir::new();
    d.set("HID#MSFT0001&Col01#5&36f79095&0&0000", "触控板");
    assert_eq!(
        d.resolve("HID#MSFT0001&Col01#5&36f79095&0&0000"),
        some("触控板")
    );
    assert_eq!(d.resolve("HID#MSFT0001&Col01#另一个实例"), None);
}

#[test]
fn alias_exact_keys_migrate_to_identity() {
    let mut d = Dir::new();
    let old_a = "HID#VID_046D&PID_C52B&MI_00#7&OLD&0&0000";
    let old_b = "HID#VID_046D&PID_C52B&MI_00#8&NEW&0&0001";
    let kb = "VID_1B1C&PID_1B2D";
    d.set(old_a, "办公鼠标");
    d.set(old_b, "家里那把");
    d.set(kb, "办公键盘");
    let (moved, changed) = migrate_exact_keys_to_identity(&d.map);
    assert!(changed);
    let text = write_map(&moved);
    assert!(text.contains("VID_046D&PID_C52B&MI_00"), "别名应改挂到身份键: {text}");
    assert!(!text.contains("OLD") && !text.contains("NEW"), "{text}");
    assert!(text.contains("VID_1B1C&PID_1B2D"), "已是身份键的原样保留: {text}");
    let t = AliasTable::from_map(&moved);
    assert_eq!(t.resolve("VID_046D&PID_C52B&MI_00"), Some("办公鼠标"));
    assert_eq!(t.resolve(kb), Some("办公键盘"));
    let (again, changed) = migrate_exact_keys_to_identity(&moved);
    assert!(!changed);
    assert_eq!(write_map(&again), text, "第二次迁移应是空操作");
}

#[test]
fn unreadable_file_is_not_overwritten_but_broken_file_self_heals() {
    let unreadable = try_read_map(&AliasFile::Failed);
    assert!(matches!(unreadable, AliasRead::Unreadable));
    assert!(focusflow::device_alias::set(unreadable, "k3", "新名字").is_err());
    assert!(clear(AliasRead::Unreadable, "k3").is_err());
    assert!(alias_unreadable("x.json").contains("读不出来"));
    let broken = try_read_map(&AliasFile::Bytes(b"{ not json \xff\xfe ".to_vec()));
    assert!(matches!(broken, AliasRead::Broken));
    match focusflow::device_alias::set(broken, "k4", "重新开始") {
        Ok((m, n)) => {
            assert_eq!(n, 1);
            assert_eq!(AliasTable::from_map(&m).resolve("k4"), Some("重新开始"));
        }
        Err(_) => panic!("坏文件应当可以自救"),
    }
}

#[test]
fn aliases_are_read_back_as_they_were_written() {
    let mut d = Dir::new();
    d.set("k1", "办公\"键盘\"");
    d.set("k2", "游戏鼠标\\");
    let text = write_map(&d.map);
    match try_read_map(&AliasFile::Bytes(text.into_bytes())) {
        AliasRead::Good(m) => {
            let t = AliasTable::from_map(&m);
            assert_eq!(m.len(), 2);
            assert_eq!(t.resolve("k1"), Some("办公\"键盘\""));
            assert_eq!(t.resolve("k2"), Some("游戏鼠标\\"));
        }
        _ => panic!("写出的文件要能读回"),
    }
    match try_read_map(&AliasFile::Missing) {
        AliasRead::Good(m) => assert_eq!(m.len(), 0),
        _ => panic!("没有文件等于没有别名"),
    }
}

#[test]
fn the_table_is_read_anew_when_the_file_changed() {
    let mut d = Dir::new();
    d.set("k", "一");
    let mut cache = AliasCache { slot: None };
    let first = table(&mut cache, Some(1), "p", AliasRead::Good(d.map.dup()));
    assert_eq!(first.resolve("k"), Some("一"));
    d.set("k", "二");
    let second = table(&mut cache, Some(2), "p", AliasRead::Good(d.map.dup()));
    assert_eq!(second.resolve("k"), Some("二"));
    invalidate_cache(&mut cache);
    assert!(cache.slot.is_none());
}
