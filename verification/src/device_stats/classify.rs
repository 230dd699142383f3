//! Which raw inputs count, and the names that they count under.
use vstd::prelude::*;

verus! {

/// The key went up.
pub const RI_KEY_BREAK: u16 = 0x0001;

/// The left button went down.
pub const RI_MOUSE_LEFT_BUTTON_DOWN: u16 = 0x0001;

/// The right button went down.
pub const RI_MOUSE_RIGHT_BUTTON_DOWN: u16 = 0x0004;

/// The middle button went down.
pub const RI_MOUSE_MIDDLE_BUTTON_DOWN: u16 = 0x0010;

/// The wheel turned.
pub const RI_MOUSE_WHEEL: u16 = 0x0400;

/// Whether an input of a keyboard counts: the press of a key does, the release does not.
pub fn keyboard_counts(flags: u16) -> (r: bool)
    ensures
        r == (flags & RI_KEY_BREAK == 0),
{
    flags & RI_KEY_BREAK == 0
}

/// Whether a button went down or the wheel turned.
pub open spec fn acts(flags: u16) -> bool {
    ||| flags & RI_MOUSE_LEFT_BUTTON_DOWN != 0
    ||| flags & RI_MOUSE_RIGHT_BUTTON_DOWN != 0
    ||| flags & RI_MOUSE_MIDDLE_BUTTON_DOWN != 0
    ||| flags & RI_MOUSE_WHEEL != 0
}

/// Whether an input of a mouse counts: a button that goes down and the wheel do, moves and
/// releases do not.
pub fn mouse_counts(flags: u16) -> (r: bool)
    ensures
        r == acts(flags),
{
    flags & RI_MOUSE_LEFT_BUTTON_DOWN != 0 || flags & RI_MOUSE_RIGHT_BUTTON_DOWN != 0 || flags
        & RI_MOUSE_MIDDLE_BUTTON_DOWN != 0 || flags & RI_MOUSE_WHEEL != 0
}

/// The name of a virtual key.
pub open spec fn vkey_text(vk: u16) -> Option<Seq<char>> {
    match vk {
        0x08 => Some("退格"@),
        0x09 => Some("Tab"@),
        0x0D => Some("回车"@),
        0x10 | 0xA0 => Some("左Shift"@),
        0xA1 => Some("右Shift"@),
        0x11 | 0xA2 => Some("左Ctrl"@),
        0xA3 => Some("右Ctrl"@),
        0x12 | 0xA4 => Some("左Alt"@),
        0xA5 => Some("右Alt"@),
        0x13 => Some("Pause"@),
        0x14 => Some("大写锁定"@),
        0x1B => Some("Esc"@),
        0x20 => Some("空格"@),
        0x21 => Some("PageUp"@),
        0x22 => Some("PageDown"@),
        0x23 => Some("End"@),
        0x24 => Some("Home"@),
        0x25 => Some("左方向键"@),
        0x26 => Some("上方向键"@),
        0x27 => Some("右方向键"@),
        0x28 => Some("下方向键"@),
        0x2C => Some("PrintScreen"@),
        0x2D => Some("Insert"@),
        0x2E => Some("Delete"@),
        0x30 => Some("0"@),
        0x31 => Some("1"@),
        0x32 => Some("2"@),
        0x33 => Some("3"@),
        0x34 => Some("4"@),
        0x35 => Some("5"@),
        0x36 => Some("6"@),
        0x37 => Some("7"@),
        0x38 => Some("8"@),
        0x39 => Some("9"@),
        0x41 => Some("A"@),
        0x42 => Some("B"@),
        0x43 => Some("C"@),
        0x44 => Some("D"@),
        0x45 => Some("E"@),
        0x46 => Some("F"@),
        0x47 => Some("G"@),
        0x48 => Some("H"@),
        0x49 => Some("I"@),
        0x4A => Some("J"@),
        0x4B => Some("K"@),
        0x4C => Some("L"@),
        0x4D => Some("M"@),
        0x4E => Some("N"@),
        0x4F => Some("O"@),
        0x50 => Some("P"@),
        0x51 => Some("Q"@),
        0x52 => Some("R"@),
        0x53 => Some("S"@),
        0x54 => Some("T"@),
        0x55 => Some("U"@),
        0x56 => Some("V"@),
        0x57 => Some("W"@),
        0x58 => Some("X"@),
        0x59 => Some("Y"@),
        0x5A => Some("Z"@),
        0x5B => Some("左Win"@),
        0x5C => Some("右Win"@),
        0x5D => Some("菜单键"@),
        0x60 => Some("数字键盘0"@),
        0x61 => Some("数字键盘1"@),
        0x62 => Some("数字键盘2"@),
        0x63 => Some("数字键盘3"@),
        0x64 => Some("数字键盘4"@),
        0x65 => Some("数字键盘5"@),
        0x66 => Some("数字键盘6"@),
        0x67 => Some("数字键盘7"@),
        0x68 => Some("数字键盘8"@),
        0x69 => Some("数字键盘9"@),
        0x6A => Some("数字键盘*"@),
        0x6B => Some("数字键盘+"@),
        0x6D => Some("数字键盘-"@),
        0x6E => Some("数字键盘."@),
        0x6F => Some("数字键盘/"@),
        0x70 => Some("F1"@),
        0x71 => Some("F2"@),
        0x72 => Some("F3"@),
        0x73 => Some("F4"@),
        0x74 => Some("F5"@),
        0x75 => Some("F6"@),
        0x76 => Some("F7"@),
        0x77 => Some("F8"@),
        0x78 => Some("F9"@),
        0x79 => Some("F10"@),
        0x7A => Some("F11"@),
        0x7B => Some("F12"@),
        0x7C => Some("F13"@),
        0x7D => Some("F14"@),
        0x7E => Some("F15"@),
        0x7F => Some("F16"@),
        0x80 => Some("F17"@),
        0x81 => Some("F18"@),
        0x82 => Some("F19"@),
        0x83 => Some("F20"@),
        0x84 => Some("F21"@),
        0x85 => Some("F22"@),
        0x86 => Some("F23"@),
        0x87 => Some("F24"@),
        0x90 => Some("数字锁定"@),
        0x91 => Some("滚动锁定"@),
        0xBA => Some(";"@),
        0xBB => Some("="@),
        0xBC => Some(","@),
        0xBD => Some("-"@),
        0xBE => Some("."@),
        0xBF => Some("/"@),
        0xC0 => Some("`"@),
        0xDB => Some("["@),
        0xDC => Some("\\"@),
        0xDD => Some("]"@),
        0xDE => Some("'"@),
        _ => None,
    }
}

/// The name of a virtual key; nothing where it has none.
pub fn vkey_name(vk: u16) -> (r: Option<&'static str>)
    ensures
        match r {
            Some(s) => vkey_text(vk) == Some(s@),
            None => vkey_text(vk) is None,
        },
{
    match vk {
        0x08 => Some("退格"),
        0x09 => Some("Tab"),
        0x0D => Some("回车"),
        0x10 | 0xA0 => Some("左Shift"),
        0xA1 => Some("右Shift"),
        0x11 | 0xA2 => Some("左Ctrl"),
        0xA3 => Some("右Ctrl"),
        0x12 | 0xA4 => Some("左Alt"),
        0xA5 => Some("右Alt"),
        0x13 => Some("Pause"),
        0x14 => Some("大写锁定"),
        0x1B => Some("Esc"),
        0x20 => Some("空格"),
        0x21 => Some("PageUp"),
        0x22 => Some("PageDown"),
        0x23 => Some("End"),
        0x24 => Some("Home"),
        0x25 => Some("左方向键"),
        0x26 => Some("上方向键"),
        0x27 => Some("右方向键"),
        0x28 => Some("下方向键"),
        0x2C => Some("PrintScreen"),
        0x2D => Some("Insert"),
        0x2E => Some("Delete"),
        0x30 => Some("0"),
        0x31 => Some("1"),
        0x32 => Some("2"),
        0x33 => Some("3"),
        0x34 => Some("4"),
        0x35 => Some("5"),
        0x36 => Some("6"),
        0x37 => Some("7"),
        0x38 => Some("8"),
        0x39 => Some("9"),
        0x41 => Some("A"),
        0x42 => Some("B"),
        0x43 => Some("C"),
        0x44 => Some("D"),
        0x45 => Some("E"),
        0x46 => Some("F"),
        0x47 => Some("G"),
        0x48 => Some("H"),
        0x49 => Some("I"),
        0x4A => Some("J"),
        0x4B => Some("K"),
        0x4C => Some("L"),
        0x4D => Some("M"),
        0x4E => Some("N"),
        0x4F => Some("O"),
        0x50 => Some("P"),
        0x51 => Some("Q"),
        0x52 => Some("R"),
        0x53 => Some("S"),
        0x54 => Some("T"),
        0x55 => Some("U"),
        0x56 => Some("V"),
        0x57 => Some("W"),
        0x58 => Some("X"),
        0x59 => Some("Y"),
        0x5A => Some("Z"),
        0x5B => Some("左Win"),
        0x5C => Some("右Win"),
        0x5D => Some("菜单键"),
        0x60 => Some("数字键盘0"),
        0x61 => Some("数字键盘1"),
        0x62 => Some("数字键盘2"),
        0x63 => Some("数字键盘3"),
        0x64 => Some("数字键盘4"),
        0x65 => Some("数字键盘5"),
        0x66 => Some("数字键盘6"),
        0x67 => Some("数字键盘7"),
        0x68 => Some("数字键盘8"),
        0x69 => Some("数字键盘9"),
        0x6A => Some("数字键盘*"),
        0x6B => Some("数字键盘+"),
        0x6D => Some("数字键盘-"),
        0x6E => Some("数字键盘."),
        0x6F => Some("数字键盘/"),
        0x70 => Some("F1"),
        0x71 => Some("F2"),
        0x72 => Some("F3"),
        0x73 => Some("F4"),
        0x74 => Some("F5"),
        0x75 => Some("F6"),
        0x76 => Some("F7"),
        0x77 => Some("F8"),
        0x78 => Some("F9"),
        0x79 => Some("F10"),
        0x7A => Some("F11"),
        0x7B => Some("F12"),
        0x7C => Some("F13"),
        0x7D => Some("F14"),
        0x7E => Some("F15"),
        0x7F => Some("F16"),
        0x80 => Some("F17"),
        0x81 => Some("F18"),
        0x82 => Some("F19"),
        0x83 => Some("F20"),
        0x84 => Some("F21"),
        0x85 => Some("F22"),
        0x86 => Some("F23"),
        0x87 => Some("F24"),
        0x90 => Some("数字锁定"),
        0x91 => Some("滚动锁定"),
        0xBA => Some(";"),
        0xBB => Some("="),
        0xBC => Some(","),
        0xBD => Some("-"),
        0xBE => Some("."),
        0xBF => Some("/"),
        0xC0 => Some("`"),
        0xDB => Some("["),
        0xDC => Some("\\"),
        0xDD => Some("]"),
        0xDE => Some("'"),
        _ => None,
    }
}

/// The name of what a mouse did: buttons go before the wheel.
pub open spec fn action_text(flags: u16, data: i16) -> Option<Seq<char>> {
    if flags & RI_MOUSE_LEFT_BUTTON_DOWN != 0 {
        Some("鼠标左键"@)
    } else if flags & RI_MOUSE_RIGHT_BUTTON_DOWN != 0 {
        Some("鼠标右键"@)
    } else if flags & RI_MOUSE_MIDDLE_BUTTON_DOWN != 0 {
        Some("鼠标中键"@)
    } else if flags & RI_MOUSE_WHEEL != 0 {
        if data >= 0 {
            Some("滚轮上滑"@)
        } else {
            Some("滚轮下滑"@)
        }
    } else {
        None
    }
}

/// The name of what a mouse did; nothing where it does not count. The wheel goes up where
/// `data` is not negative.
pub fn mouse_action_name(flags: u16, data: i16) -> (r: Option<&'static str>)
    ensures
        match r {
            Some(s) => action_text(flags, data) == Some(s@),
            None => action_text(flags, data) is None,
        },
{
    if flags & RI_MOUSE_LEFT_BUTTON_DOWN != 0 {
        return Some("鼠标左键");
    }
    if flags & RI_MOUSE_RIGHT_BUTTON_DOWN != 0 {
        return Some("鼠标右键");
    }
    if flags & RI_MOUSE_MIDDLE_BUTTON_DOWN != 0 {
        return Some("鼠标中键");
    }
    if flags & RI_MOUSE_WHEEL != 0 {
        return if data >= 0 {
            Some("滚轮上滑")
        } else {
            Some("滚轮下滑")
        };
    }
    None
}

/// What counts of a mouse has a name, and what has a name counts.
pub proof fn lemma_named_iff_counted(flags: u16, data: i16)
    ensures
        action_text(flags, data) is Some <==> acts(flags),
{
}

} // verus!
