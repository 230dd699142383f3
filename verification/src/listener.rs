//! What the keyboard and the mouse count for: names of keys, keys held down, turns of the
//! wheel, and the pause that holds for everything that is counted.
use vstd::prelude::*;
use vstd::string::*;

use crate::config;
use crate::config::FocusFlowConfig;
use crate::db::database::Database;
use crate::db::writer;
use crate::db::writer::{DbWriter, DeltasModel};
use crate::device_stats::classify;
use crate::tally;
use crate::text;
use crate::text::{dec_u64, str_eq};

verus! {

// ------------------------------------------------------------------------------ pause

/// The pause: one for everything that counts.
#[derive(Clone, Copy, PartialEq, Eq, Structural, Debug)]
pub struct PauseFlag {
    pub paused: bool,
}

/// A pause that is off.
pub fn new_pause_flag() -> (r: PauseFlag)
    ensures
        !r.paused,
{
    PauseFlag { paused: false }
}

/// Whether nothing is to be counted now.
pub fn is_paused_now(flag: &PauseFlag) -> (r: bool)
    ensures
        r == flag.paused,
{
    flag.paused
}

// ------------------------------------------------------------------------------- keys

/// A key of the keyboard.
#[derive(Clone, Copy, PartialEq, Eq, Structural, Debug)]
pub enum Key {
    KeyA,
    KeyB,
    KeyC,
    KeyD,
    KeyE,
    KeyF,
    KeyG,
    KeyH,
    KeyI,
    KeyJ,
    KeyK,
    KeyL,
    KeyM,
    KeyN,
    KeyO,
    KeyP,
    KeyQ,
    KeyR,
    KeyS,
    KeyT,
    KeyU,
    KeyV,
    KeyW,
    KeyX,
    KeyY,
    KeyZ,
    Num0,
    Num1,
    Num2,
    Num3,
    Num4,
    Num5,
    Num6,
    Num7,
    Num8,
    Num9,
    BackQuote,
    Minus,
    Equal,
    LeftBracket,
    RightBracket,
    SemiColon,
    Quote,
    BackSlash,
    IntlBackslash,
    Comma,
    Dot,
    Slash,
    Kp0,
    Kp1,
    Kp2,
    Kp3,
    Kp4,
    Kp5,
    Kp6,
    Kp7,
    Kp8,
    Kp9,
    KpReturn,
    KpMinus,
    KpPlus,
    KpMultiply,
    KpDivide,
    KpDelete,
    Space,
    Return,
    Backspace,
    Tab,
    ShiftLeft,
    ShiftRight,
    ControlLeft,
    ControlRight,
    Alt,
    AltGr,
    MetaLeft,
    MetaRight,
    CapsLock,
    Escape,
    Delete,
    Home,
    End,
    PageUp,
    PageDown,
    Insert,
    NumLock,
    ScrollLock,
    PrintScreen,
    Pause,
    UpArrow,
    DownArrow,
    LeftArrow,
    RightArrow,
    F1,
    F2,
    F3,
    F4,
    F5,
    F6,
    F7,
    F8,
    F9,
    F10,
    F11,
    F12,
    Function,
    /// A key outside the table, by its code.
    Unknown(u32),
}

/// A button of the mouse.
#[derive(Clone, Copy, PartialEq, Eq, Structural, Debug)]
pub enum Button {
    Left,
    Right,
    Middle,
    /// Another button, by its number.
    Unknown(u8),
}

/// Something that the keyboard or the mouse did.
#[derive(Clone, Copy, PartialEq, Eq, Structural, Debug)]
pub enum EventType {
    KeyPress(Key),
    KeyRelease(Key),
    ButtonPress(Button),
    ButtonRelease(Button),
    MouseMove,
    /// The wheel turned by this many notches; upwards where the number is positive.
    Wheel { delta_y: i64 },
}

/// Whether a key is one of those that are held while another is pressed.
pub open spec fn modifier(key: Key) -> bool {
    key == Key::ShiftLeft || key == Key::ShiftRight || key == Key::ControlLeft || key
        == Key::ControlRight || key == Key::Alt || key == Key::AltGr || key == Key::MetaLeft || key
        == Key::MetaRight
}

/// Whether a key is one of those that are held while another is pressed.
pub fn is_modifier(key: &Key) -> (r: bool)
    ensures
        r == modifier(*key),
{
    match key {
        Key::ShiftLeft | Key::ShiftRight | Key::ControlLeft | Key::ControlRight | Key::Alt
        | Key::AltGr | Key::MetaLeft | Key::MetaRight => true,
        _ => false,
    }
}

/// Whether a key is one of F1 to F12.
pub open spec fn function_key(key: Key) -> bool {
    key == Key::F1 || key == Key::F2 || key == Key::F3 || key == Key::F4 || key == Key::F5 || key
        == Key::F6 || key == Key::F7 || key == Key::F8 || key == Key::F9 || key == Key::F10 || key
        == Key::F11 || key == Key::F12
}

/// Whether a key is one of F1 to F12.
pub fn is_function_key(key: &Key) -> (r: bool)
    ensures
        r == function_key(*key),
{
    match key {
        Key::F1 | Key::F2 | Key::F3 | Key::F4 | Key::F5 | Key::F6 | Key::F7 | Key::F8 | Key::F9
        | Key::F10 | Key::F11 | Key::F12 => true,
        _ => false,
    }
}

/// The name that a key is counted under.
pub open spec fn key_name(key: Key) -> Seq<char> {
    match key {
        Key::KeyA => "A"@,
        Key::KeyB => "B"@,
        Key::KeyC => "C"@,
        Key::KeyD => "D"@,
        Key::KeyE => "E"@,
        Key::KeyF => "F"@,
        Key::KeyG => "G"@,
        Key::KeyH => "H"@,
        Key::KeyI => "I"@,
        Key::KeyJ => "J"@,
        Key::KeyK => "K"@,
        Key::KeyL => "L"@,
        Key::KeyM => "M"@,
        Key::KeyN => "N"@,
        Key::KeyO => "O"@,
        Key::KeyP => "P"@,
        Key::KeyQ => "Q"@,
        Key::KeyR => "R"@,
        Key::KeyS => "S"@,
        Key::KeyT => "T"@,
        Key::KeyU => "U"@,
        Key::KeyV => "V"@,
        Key::KeyW => "W"@,
        Key::KeyX => "X"@,
        Key::KeyY => "Y"@,
        Key::KeyZ => "Z"@,
        Key::Num0 => "0"@,
        Key::Num1 => "1"@,
        Key::Num2 => "2"@,
        Key::Num3 => "3"@,
        Key::Num4 => "4"@,
        Key::Num5 => "5"@,
        Key::Num6 => "6"@,
        Key::Num7 => "7"@,
        Key::Num8 => "8"@,
        Key::Num9 => "9"@,
        Key::BackQuote => "`"@,
        Key::Minus => "-"@,
        Key::Equal => "="@,
        Key::LeftBracket => "["@,
        Key::RightBracket => "]"@,
        Key::SemiColon => ";"@,
        Key::Quote => "'"@,
        Key::BackSlash => "\\"@,
        Key::IntlBackslash => "\\"@,
        Key::Comma => ","@,
        Key::Dot => "."@,
        Key::Slash => "/"@,
        Key::Kp0 => "数字键盘0"@,
        Key::Kp1 => "数字键盘1"@,
        Key::Kp2 => "数字键盘2"@,
        Key::Kp3 => "数字键盘3"@,
        Key::Kp4 => "数字键盘4"@,
        Key::Kp5 => "数字键盘5"@,
        Key::Kp6 => "数字键盘6"@,
        Key::Kp7 => "数字键盘7"@,
        Key::Kp8 => "数字键盘8"@,
        Key::Kp9 => "数字键盘9"@,
        Key::KpReturn => "数字键盘回车"@,
        Key::KpMinus => "数字键盘-"@,
        Key::KpPlus => "数字键盘+"@,
        Key::KpMultiply => "数字键盘*"@,
        Key::KpDivide => "数字键盘/"@,
        Key::KpDelete => "Delete"@,
        Key::Space => "空格"@,
        Key::Return => "回车"@,
        Key::Backspace => "退格"@,
        Key::Tab => "Tab"@,
        Key::ShiftLeft => "左Shift"@,
        Key::ShiftRight => "右Shift"@,
        Key::ControlLeft => "左Ctrl"@,
        Key::ControlRight => "右Ctrl"@,
        Key::Alt => "左Alt"@,
        Key::AltGr => "AltGr"@,
        Key::MetaLeft => "左Win"@,
        Key::MetaRight => "右Win"@,
        Key::CapsLock => "CapsLock"@,
        Key::Escape => "Esc"@,
        Key::Delete => "Delete"@,
        Key::Home => "Home"@,
        Key::End => "End"@,
        Key::PageUp => "PageUp"@,
        Key::PageDown => "PageDown"@,
        Key::Insert => "Insert"@,
        Key::NumLock => "NumLock"@,
        Key::ScrollLock => "ScrollLock"@,
        Key::PrintScreen => "PrintScreen"@,
        Key::Pause => "Pause"@,
        Key::UpArrow => "↑"@,
        Key::DownArrow => "↓"@,
        Key::LeftArrow => "←"@,
        Key::RightArrow => "→"@,
        Key::F1 => "F1"@,
        Key::F2 => "F2"@,
        Key::F3 => "F3"@,
        Key::F4 => "F4"@,
        Key::F5 => "F5"@,
        Key::F6 => "F6"@,
        Key::F7 => "F7"@,
        Key::F8 => "F8"@,
        Key::F9 => "F9"@,
        Key::F10 => "F10"@,
        Key::F11 => "F11"@,
        Key::F12 => "F12"@,
        Key::Function => "Function"@,
        Key::Unknown(code) => "Unknown("@ + text::dec_nat(code as nat) + ")"@,
    }
}

/// The name that a key is counted under.
pub fn normalize_key(key: &Key) -> (r: String)
    ensures
        r@ == key_name(*key),
{
    match key {
        Key::KeyA => "A".to_owned(),
        Key::KeyB => "B".to_owned(),
        Key::KeyC => "C".to_owned(),
        Key::KeyD => "D".to_owned(),
        Key::KeyE => "E".to_owned(),
        Key::KeyF => "F".to_owned(),
        Key::KeyG => "G".to_owned(),
        Key::KeyH => "H".to_owned(),
        Key::KeyI => "I".to_owned(),
        Key::KeyJ => "J".to_owned(),
        Key::KeyK => "K".to_owned(),
        Key::KeyL => "L".to_owned(),
        Key::KeyM => "M".to_owned(),
        Key::KeyN => "N".to_owned(),
        Key::KeyO => "O".to_owned(),
        Key::KeyP => "P".to_owned(),
        Key::KeyQ => "Q".to_owned(),
        Key::KeyR => "R".to_owned(),
        Key::KeyS => "S".to_owned(),
        Key::KeyT => "T".to_owned(),
        Key::KeyU => "U".to_owned(),
        Key::KeyV => "V".to_owned(),
        Key::KeyW => "W".to_owned(),
        Key::KeyX => "X".to_owned(),
        Key::KeyY => "Y".to_owned(),
        Key::KeyZ => "Z".to_owned(),
        Key::Num0 => "0".to_owned(),
        Key::Num1 => "1".to_owned(),
        Key::Num2 => "2".to_owned(),
        Key::Num3 => "3".to_owned(),
        Key::Num4 => "4".to_owned(),
        Key::Num5 => "5".to_owned(),
        Key::Num6 => "6".to_owned(),
        Key::Num7 => "7".to_owned(),
        Key::Num8 => "8".to_owned(),
        Key::Num9 => "9".to_owned(),
        Key::BackQuote => "`".to_owned(),
        Key::Minus => "-".to_owned(),
        Key::Equal => "=".to_owned(),
        Key::LeftBracket => "[".to_owned(),
        Key::RightBracket => "]".to_owned(),
        Key::SemiColon => ";".to_owned(),
        Key::Quote => "'".to_owned(),
        Key::BackSlash => "\\".to_owned(),
        Key::IntlBackslash => "\\".to_owned(),
        Key::Comma => ",".to_owned(),
        Key::Dot => ".".to_owned(),
        Key::Slash => "/".to_owned(),
        Key::Kp0 => "数字键盘0".to_owned(),
        Key::Kp1 => "数字键盘1".to_owned(),
        Key::Kp2 => "数字键盘2".to_owned(),
        Key::Kp3 => "数字键盘3".to_owned(),
        Key::Kp4 => "数字键盘4".to_owned(),
        Key::Kp5 => "数字键盘5".to_owned(),
        Key::Kp6 => "数字键盘6".to_owned(),
        Key::Kp7 => "数字键盘7".to_owned(),
        Key::Kp8 => "数字键盘8".to_owned(),
        Key::Kp9 => "数字键盘9".to_owned(),
        Key::KpReturn => "数字键盘回车".to_owned(),
        Key::KpMinus => "数字键盘-".to_owned(),
        Key::KpPlus => "数字键盘+".to_owned(),
        Key::KpMultiply => "数字键盘*".to_owned(),
        Key::KpDivide => "数字键盘/".to_owned(),
        Key::KpDelete => "Delete".to_owned(),
        Key::Space => "空格".to_owned(),
        Key::Return => "回车".to_owned(),
        Key::Backspace => "退格".to_owned(),
        Key::Tab => "Tab".to_owned(),
        Key::ShiftLeft => "左Shift".to_owned(),
        Key::ShiftRight => "右Shift".to_owned(),
        Key::ControlLeft => "左Ctrl".to_owned(),
        Key::ControlRight => "右Ctrl".to_owned(),
        Key::Alt => "左Alt".to_owned(),
        Key::AltGr => "AltGr".to_owned(),
        Key::MetaLeft => "左Win".to_owned(),
        Key::MetaRight => "右Win".to_owned(),
        Key::CapsLock => "CapsLock".to_owned(),
        Key::Escape => "Esc".to_owned(),
        Key::Delete => "Delete".to_owned(),
        Key::Home => "Home".to_owned(),
        Key::End => "End".to_owned(),
        Key::PageUp => "PageUp".to_owned(),
        Key::PageDown => "PageDown".to_owned(),
        Key::Insert => "Insert".to_owned(),
        Key::NumLock => "NumLock".to_owned(),
        Key::ScrollLock => "ScrollLock".to_owned(),
        Key::PrintScreen => "PrintScreen".to_owned(),
        Key::Pause => "Pause".to_owned(),
        Key::UpArrow => "↑".to_owned(),
        Key::DownArrow => "↓".to_owned(),
        Key::LeftArrow => "←".to_owned(),
        Key::RightArrow => "→".to_owned(),
        Key::F1 => "F1".to_owned(),
        Key::F2 => "F2".to_owned(),
        Key::F3 => "F3".to_owned(),
        Key::F4 => "F4".to_owned(),
        Key::F5 => "F5".to_owned(),
        Key::F6 => "F6".to_owned(),
        Key::F7 => "F7".to_owned(),
        Key::F8 => "F8".to_owned(),
        Key::F9 => "F9".to_owned(),
        Key::F10 => "F10".to_owned(),
        Key::F11 => "F11".to_owned(),
        Key::F12 => "F12".to_owned(),
        Key::Function => "Function".to_owned(),
        Key::Unknown(code) => "Unknown(".to_owned().concat(dec_u64(*code as u64).as_str()).concat(
            ")",
        ),
    }
}

/// The name that a button is counted under.
pub open spec fn button_name(button: Button) -> Seq<char> {
    match button {
        Button::Left => "鼠标左键"@,
        Button::Right => "鼠标右键"@,
        Button::Middle => "鼠标中键"@,
        Button::Unknown(code) => "鼠标"@ + text::dec_nat(code as nat),
    }
}

/// The name that a button is counted under.
pub fn normalize_mouse_button(button: &Button) -> (r: String)
    ensures
        r@ == button_name(*button),
{
    match button {
        Button::Left => "鼠标左键".to_owned(),
        Button::Right => "鼠标右键".to_owned(),
        Button::Middle => "鼠标中键".to_owned(),
        Button::Unknown(code) => "鼠标".to_owned().concat(dec_u64(*code as u64).as_str()),
    }
}

/// The way that the wheel turns.
#[derive(Clone, Copy, PartialEq, Eq, Structural, Debug)]
pub enum Direction {
    Up,
    Down,
}

/// The way that the wheel turned.
pub open spec fn direction_of(dy: int) -> Direction {
    if dy > 0 {
        Direction::Up
    } else {
        Direction::Down
    }
}

/// The way that the wheel turned.
pub fn scroll_direction(dy: i64) -> (r: Direction)
    ensures
        r == direction_of(dy as int),
{
    if dy > 0 {
        Direction::Up
    } else {
        Direction::Down
    }
}

/// The name that a turn of the wheel is counted under.
pub open spec fn wheel_name(d: Direction) -> Seq<char> {
    match d {
        Direction::Up => "滚轮上滑"@,
        Direction::Down => "滚轮下滑"@,
    }
}

// --------------------------------------------------------------------------- settings

/// The longest time that a setting can give, in nanoseconds: a day.
pub const MAX_NANOS: u64 = 86_400_000_000_000;

/// The settings of what is counted. Times are in nanoseconds.
#[derive(Clone, Copy, PartialEq, Eq, Structural, Debug)]
pub struct ListenerCfg {
    pub mouse_enabled: bool,
    pub ignore_key_repeat: bool,
    pub ignore_modifiers: bool,
    pub ignore_functions: bool,
    /// How long a key counts as held down.
    pub key_repeat_stale: u64,
    /// How long turns of the wheel count as one.
    pub scroll_burst_window: u64,
}

/// A time that a setting gives, within bounds; `fallback` where it gives none.
pub open spec fn bounded(v: Option<u64>, fallback: u64, floor: u64) -> u64 {
    match v {
        Some(n) => if n < floor {
            floor
        } else if n > MAX_NANOS {
            MAX_NANOS
        } else {
            n
        },
        None => fallback,
    }
}

/// A time that a setting gives, between `floor` and a day; `fallback` where it gives none.
pub fn cfg_nanos(v: Option<u64>, fallback: u64, floor: u64) -> (r: u64)
    ensures
        r == bounded(v, fallback, floor),
{
    match v {
        Some(n) => if n < floor {
            floor
        } else if n > MAX_NANOS {
            MAX_NANOS
        } else {
            n
        },
        None => fallback,
    }
}

impl ListenerCfg {
    /// The settings, with the two times that they give.
    pub fn reload(c: &FocusFlowConfig, stale: Option<u64>, window: Option<u64>) -> (r: Self)
        requires
            c.wf(),
        ensures
            r.mouse_enabled == config::truth(c.value("listener"@, "mouse_enabled"@), true),
            r.ignore_key_repeat == config::truth(c.value("listener"@, "ignore_key_repeat"@), true),
            r.ignore_modifiers == config::truth(
                c.value("listener"@, "ignore_modifier_keys"@),
                false,
            ),
            r.ignore_functions == config::truth(
                c.value("listener"@, "ignore_function_keys"@),
                false,
            ),
            r.key_repeat_stale == bounded(stale, 15_000_000_000, 100_000_000),
            r.scroll_burst_window == bounded(window, 250_000_000, 10_000_000),
            100_000_000 <= r.key_repeat_stale <= MAX_NANOS,
            10_000_000 <= r.scroll_burst_window <= MAX_NANOS,
    {
        ListenerCfg {
            mouse_enabled: c.get_bool("listener", "mouse_enabled", true),
            ignore_key_repeat: c.get_bool("listener", "ignore_key_repeat", true),
            ignore_modifiers: c.get_bool("listener", "ignore_modifier_keys", false),
            ignore_functions: c.get_bool("listener", "ignore_function_keys", false),
            key_repeat_stale: cfg_nanos(stale, 15_000_000_000, 100_000_000),
            scroll_burst_window: cfg_nanos(window, 250_000_000, 10_000_000),
        }
    }
}

// ---------------------------------------------------------------------- keys held down

/// How many keys can be held down before those held for too long are forgotten.
pub const MAX_PRESSED: usize = 256;

/// The keys that are held down, each with the time of its press.
pub type PressedModel = Seq<(Seq<char>, int)>;

pub open spec fn pressed_view(v: Seq<(String, u64)>) -> PressedModel {
    Seq::new(v.len(), |i: int| (v[i].0@, v[i].1 as int))
}

/// The first index from `from` on of a key, or the number of keys.
pub open spec fn held_at(p: PressedModel, key: Seq<char>, from: int) -> int
    decreases p.len() - from,
{
    if from >= p.len() || p[from].0 == key {
        from
    } else {
        held_at(p, key, from + 1)
    }
}

/// The keys that are not held for too long.
pub open spec fn fresh(p: PressedModel, now: int, stale: int) -> PressedModel
    decreases p.len(),
{
    if p.len() == 0 {
        p
    } else {
        let r = fresh(p.drop_last(), now, stale);
        if now - p.last().1 <= stale {
            r.push(p.last())
        } else {
            r
        }
    }
}

/// The keys that a press is held against: all, or where there are too many those that are
/// not held for too long.
pub open spec fn remembered(p: PressedModel, now: int, stale: int) -> PressedModel {
    if p.len() > MAX_PRESSED {
        fresh(p, now, stale)
    } else {
        p
    }
}

/// Whether a press is new: the key is not held down, or held for too long.
pub open spec fn new_press(p: PressedModel, key: Seq<char>, now: int, stale: int) -> bool {
    let q = remembered(p, now, stale);
    let i = held_at(q, key, 0);
    i >= q.len() || now - q[i].1 > stale
}

/// The keys held down after a press.
pub open spec fn after_press(p: PressedModel, key: Seq<char>, now: int, stale: int) -> PressedModel {
    let q = remembered(p, now, stale);
    let i = held_at(q, key, 0);
    if i >= q.len() {
        q.push((key, now))
    } else if now - q[i].1 > stale {
        q.update(i, (key, now))
    } else {
        q
    }
}

/// The keys held down after a release.
pub open spec fn after_release(p: PressedModel, key: Seq<char>) -> PressedModel {
    let i = held_at(p, key, 0);
    if i < p.len() {
        p.remove(i)
    } else {
        p
    }
}

/// Whether a turn of the wheel is new: it is the first one, it goes the other way, or the
/// last one that counted is long enough ago.
pub open spec fn new_burst(
    at: Option<u64>,
    last: Direction,
    d: Direction,
    now: u64,
    window: u64,
) -> bool {
    at is None || last != d || now - at->0 > window
}

/// What follows events, keys held down and the wheel.
pub struct InputListener {
    pub cfg: ListenerCfg,
    pub pressed: Vec<(String, u64)>,
    /// When a turn of the wheel counted last.
    pub scroll_at: Option<u64>,
    /// Which way it went.
    pub scroll_dir: Direction,
}

/// What follows events.
#[verifier::ext_equal]
pub struct ListenerModel {
    pub cfg: ListenerCfg,
    pub pressed: PressedModel,
    pub scroll_at: Option<u64>,
    pub scroll_dir: Direction,
}

impl View for InputListener {
    type V = ListenerModel;

    open spec fn view(&self) -> ListenerModel {
        ListenerModel {
            cfg: self.cfg,
            pressed: pressed_view(self.pressed@),
            scroll_at: self.scroll_at,
            scroll_dir: self.scroll_dir,
        }
    }
}

/// The most notches of one event that count.
pub const MAX_WHEEL_NOTCHES_PER_EVENT: u64 = 16;

/// How many notches of an event count.
pub open spec fn notches(dy: int) -> int {
    let n = if dy < 0 {
        -dy
    } else {
        dy
    };
    if n > MAX_WHEEL_NOTCHES_PER_EVENT {
        MAX_WHEEL_NOTCHES_PER_EVENT as int
    } else if n < 1 {
        1
    } else {
        n
    }
}

/// Whether the press of a key is looked at: it is not filtered out, and it is known.
pub open spec fn key_wanted(cfg: ListenerCfg, key: Key) -> bool {
    &&& !(cfg.ignore_modifiers && modifier(key))
    &&& !(cfg.ignore_functions && function_key(key))
    &&& !(key is Unknown)
}

/// What an event counts as: a name and how many times; nothing where it does not count.
pub open spec fn counts_as(l: ListenerModel, e: EventType, now: u64) -> Option<(Seq<char>, int)> {
    match e {
        EventType::KeyPress(key) => if key_wanted(l.cfg, key) && (!l.cfg.ignore_key_repeat
            || new_press(l.pressed, key_name(key), now as int, l.cfg.key_repeat_stale as int)) {
            Some((key_name(key), 1))
        } else {
            None
        },
        EventType::ButtonPress(button) => if l.cfg.mouse_enabled && !(button is Unknown) {
            Some((button_name(button), 1))
        } else {
            None
        },
        EventType::Wheel { delta_y } => if l.cfg.mouse_enabled && delta_y != 0 && new_burst(
            l.scroll_at,
            l.scroll_dir,
            direction_of(delta_y as int),
            now,
            l.cfg.scroll_burst_window,
        ) {
            Some((wheel_name(direction_of(delta_y as int)), notches(delta_y as int)))
        } else {
            None
        },
        _ => None,
    }
}

/// What is followed after an event.
pub open spec fn after_event(l: ListenerModel, e: EventType, now: u64) -> ListenerModel {
    match e {
        EventType::KeyPress(key) => if key_wanted(l.cfg, key) && l.cfg.ignore_key_repeat {
            ListenerModel {
                pressed: after_press(
                    l.pressed,
                    key_name(key),
                    now as int,
                    l.cfg.key_repeat_stale as int,
                ),
                ..l
            }
        } else {
            l
        },
        EventType::KeyRelease(key) => if key is Unknown {
            l
        } else {
            ListenerModel { pressed: after_release(l.pressed, key_name(key)), ..l }
        },
        EventType::Wheel { delta_y } => if counts_as(l, e, now) is Some {
            ListenerModel {
                scroll_at: Some(now),
                scroll_dir: direction_of(delta_y as int),
                ..l
            }
        } else {
            l
        },
        _ => l,
    }
}

/// The counts after `n` presses of a key at the same time.
pub open spec fn recorded_times(
    v: DeltasModel,
    key: Seq<char>,
    ts: int,
    offset: int,
    n: nat,
) -> DeltasModel
    decreases n,
{
    if n == 0 {
        v
    } else {
        writer::recorded(
            recorded_times(v, key, ts, offset, (n - 1) as nat),
            key,
            ts,
            offset,
        )
    }
}

/// Whether a writer can take `n` more events.
pub open spec fn room_for(w: DbWriter, n: int) -> bool {
    &&& w.wf()
    &&& w.agg.has_room(n * writer::ACTIVE_GAP_SECS)
    &&& w.today_count + n <= u64::MAX
    &&& w.today_active + n * writer::ACTIVE_GAP_SECS <= u64::MAX
}

/// The time of an event, in seconds since 1970, where the clock gives one: a clock before
/// 1970 does not.
pub fn unix_ts_secs(since_epoch: Option<u64>) -> (r: Option<i64>)
    ensures
        match since_epoch {
            Some(d) => r == Some(d as i64),
            None => r is None,
        },
{
    match since_epoch {
        Some(d) => Some(d as i64),
        None => None,
    }
}

impl InputListener {
    /// Follows events, with no key held down.
    pub fn new(cfg: ListenerCfg) -> (r: Self)
        ensures
            r@.cfg == cfg,
            r@.pressed.len() == 0,
            r@.scroll_at is None,
            r@.scroll_dir == Direction::Up,
    {
        InputListener { cfg, pressed: Vec::new(), scroll_at: None, scroll_dir: Direction::Up }
    }

    /// Takes over changed settings.
    pub fn refresh_config(&mut self, cfg: ListenerCfg)
        ensures
            final(self)@ == (ListenerModel { cfg, ..old(self)@ }),
    {
        self.cfg = cfg;
    }

    /// Whether nothing is to be counted now.
    pub fn is_paused(&self, flag: &PauseFlag) -> (r: bool)
        ensures
            r == flag.paused,
    {
        is_paused_now(flag)
    }

    /// Turns the pause on or off. With a new pause the keys held down and the last turn of
    /// the wheel are forgotten.
    pub fn set_paused(&mut self, flag: &mut PauseFlag, paused: bool)
        ensures
            final(flag).paused == paused,
            final(self)@ == (if paused && !old(flag).paused {
                ListenerModel {
                    pressed: Seq::empty(),
                    scroll_at: None,
                    scroll_dir: Direction::Up,
                    ..old(self)@
                }
            } else {
                old(self)@
            }),
    {
        if flag.paused == paused {
            return;
        }
        flag.paused = paused;
        if paused {
            self.pressed = Vec::new();
            self.scroll_at = None;
            self.scroll_dir = Direction::Up;
            assert(pressed_view(self.pressed@) =~= Seq::empty());
        }
    }

    /// Turns the pause over; tells whether it is on now.
    pub fn toggle_pause(&mut self, flag: &mut PauseFlag) -> (r: bool)
        ensures
            r == !old(flag).paused,
            final(flag).paused == r,
            final(self)@ == (if r {
                ListenerModel {
                    pressed: Seq::empty(),
                    scroll_at: None,
                    scroll_dir: Direction::Up,
                    ..old(self)@
                }
            } else {
                old(self)@
            }),
    {
        let new_state = !flag.paused;
        self.set_paused(flag, new_state);
        new_state
    }

    fn find_held(&self, key: &str) -> (r: usize)
        ensures
            r == held_at(self@.pressed, key@, 0),
            r <= self.pressed@.len(),
    {
        let ghost p = self@.pressed;
        let mut i: usize = 0;
        while i < self.pressed.len()
            invariant
                i <= self.pressed.len(),
                p == self@.pressed,
                held_at(p, key@, 0) == held_at(p, key@, i as int),
            decreases self.pressed.len() - i,
        {
            if str_eq(self.pressed[i].0.as_str(), key) {
                return i;
            }
            i = i + 1;
        }
        i
    }

    fn drop_stale(&mut self, now: u64)
        ensures
            final(self)@ == (ListenerModel {
                pressed: fresh(
                    old(self)@.pressed,
                    now as int,
                    old(self).cfg.key_repeat_stale as int,
                ),
                ..old(self)@
            }),
    {
        let ghost p = self@.pressed;
        let stale = self.cfg.key_repeat_stale;
        let mut left: Vec<(String, u64)> = Vec::new();
        let mut i: usize = 0;
        assert(pressed_view(left@) =~= fresh(p.take(0), now as int, stale as int));
        while i < self.pressed.len()
            invariant
                i <= self.pressed.len(),
                p == self@.pressed,
                pressed_view(left@) == fresh(p.take(i as int), now as int, stale as int),
            decreases self.pressed.len() - i,
        {
            let ghost before = left@;
            proof {
                let t1 = p.take(i as int + 1);
                assert(t1.drop_last() =~= p.take(i as int));
                assert(t1.last() == p[i as int]);
            }
            let t = self.pressed[i].1;
            if now as i128 - t as i128 <= stale as i128 {
                left.push((self.pressed[i].0.clone(), t));
                assert(pressed_view(left@) =~= pressed_view(before).push(p[i as int]));
            }
            i = i + 1;
        }
        assert(p.take(i as int) =~= p);
        self.pressed = left;
    }

    /// Whether the press of a key is new, and not the repetition of one held down. Times
    /// are in nanoseconds.
    pub fn is_new_press(&mut self, key: &str, now: u64) -> (r: bool)
        ensures
            r == new_press(
                old(self)@.pressed,
                key@,
                now as int,
                old(self).cfg.key_repeat_stale as int,
            ),
            final(self)@ == (ListenerModel {
                pressed: after_press(
                    old(self)@.pressed,
                    key@,
                    now as int,
                    old(self).cfg.key_repeat_stale as int,
                ),
                ..old(self)@
            }),
    {
        let ghost l = self@;
        if self.pressed.len() > MAX_PRESSED {
            self.drop_stale(now);
        }
        let ghost q = self@.pressed;
        assert(q == remembered(l.pressed, now as int, l.cfg.key_repeat_stale as int));
        let i = self.find_held(key);
        if i == self.pressed.len() {
            self.pressed.push((key.to_owned(), now));
            assert(self@.pressed =~= q.push((key@, now as int)));
            return true;
        }
        let last = self.pressed[i].1;
        if now as i128 - last as i128 > self.cfg.key_repeat_stale as i128 {
            self.pressed[i] = (key.to_owned(), now);
            assert(self@.pressed =~= q.update(i as int, (key@, now as int)));
            true
        } else {
            false
        }
    }

    /// Whether a turn of the wheel is new, and not part of the one that counted last. Times
    /// are in nanoseconds.
    pub fn is_new_scroll_burst_at(&mut self, direction: Direction, now: u64) -> (r: bool)
        ensures
            r == new_burst(
                old(self).scroll_at,
                old(self).scroll_dir,
                direction,
                now,
                old(self).cfg.scroll_burst_window,
            ),
            final(self)@ == (if r {
                ListenerModel {
                    scroll_at: Some(now),
                    scroll_dir: direction,
                    ..old(self)@
                }
            } else {
                old(self)@
            }),
    {
        let is_new = match self.scroll_at {
            None => true,
            Some(t) => now as i128 - t as i128 > self.cfg.scroll_burst_window as i128
                || self.scroll_dir != direction,
        };
        if is_new {
            self.scroll_at = Some(now);
            self.scroll_dir = direction;
        }
        is_new
    }

    /// What an event counts as: a name and how many times; nothing where it does not count.
    pub fn follow(&mut self, event: &EventType, now: u64) -> (r: Option<(String, u64)>)
        ensures
            final(self)@ == after_event(old(self)@, *event, now),
            match r {
                Some(c) => counts_as(old(self)@, *event, now) == Some((c.0@, c.1 as int)),
                None => counts_as(old(self)@, *event, now) is None,
            },
            r is Some ==> 1 <= (r->0).1 <= MAX_WHEEL_NOTCHES_PER_EVENT,
    {
        let ghost l = self@;
        match event {
            EventType::KeyPress(key) => {
                if self.cfg.ignore_modifiers && is_modifier(key) {
                    return None;
                }
                if self.cfg.ignore_functions && is_function_key(key) {
                    return None;
                }
                if let Key::Unknown(_) = key {
                    return None;
                }
                let name = normalize_key(key);
                if self.cfg.ignore_key_repeat && !self.is_new_press(name.as_str(), now) {
                    return None;
                }
                Some((name, 1))
            },
            EventType::KeyRelease(key) => {
                if let Key::Unknown(_) = key {
                    return None;
                }
                let name = normalize_key(key);
                let i = self.find_held(name.as_str());
                if i < self.pressed.len() {
                    let _gone = self.pressed.remove(i);
                    assert(self@.pressed =~= l.pressed.remove(i as int));
                }
                None
            },
            EventType::ButtonPress(button) => {
                if !self.cfg.mouse_enabled {
                    return None;
                }
                if let Button::Unknown(_) = button {
                    return None;
                }
                Some((normalize_mouse_button(button), 1))
            },
            EventType::Wheel { delta_y } => {
                if !self.cfg.mouse_enabled || *delta_y == 0 {
                    return None;
                }
                let direction = scroll_direction(*delta_y);
                if !self.is_new_scroll_burst_at(direction, now) {
                    return None;
                }
                let n: i128 = if *delta_y < 0 {
                    -(*delta_y as i128)
                } else {
                    *delta_y as i128
                };
                let n: u64 = if n > MAX_WHEEL_NOTCHES_PER_EVENT as i128 {
                    MAX_WHEEL_NOTCHES_PER_EVENT
                } else {
                    n as u64
                };
                let name = match direction {
                    Direction::Up => "滚轮上滑".to_owned(),
                    Direction::Down => "滚轮下滑".to_owned(),
                };
                Some((name, n))
            },
            EventType::ButtonRelease(_) => None,
            EventType::MouseMove => None,
        }
    }

    /// Counts one press of a key, unless there is a pause or no time. Tells whether it did.
    pub fn record_event(
        &self,
        db: &mut Database,
        flag: &PauseFlag,
        key: &str,
        ts: Option<i64>,
        day: u64,
        offset: i64,
    ) -> (r: bool)
        requires
            old(db).writer matches Some(w) ==> w.wf() && w.has_room(),
        ensures
            r == (!flag.paused && ts is Some),
            !r ==> *final(db) == *old(db),
            r ==> final(db).startup_checks == old(db).startup_checks,
            r ==> match old(db).writer {
                None => final(db).writer is None,
                Some(w) => final(db).writer matches Some(x) && writer::counted(
                    w,
                    x,
                    writer::recorded(w.agg@, key@, ts->0 as int, offset as int),
                    1,
                    writer::gap(w.agg@.last_ts, ts->0 as int),
                    day,
                ),
            },
    {
        if is_paused_now(flag) {
            return false;
        }
        match ts {
            Some(t) => {
                db.record_key(key, t, day, offset);
                true
            },
            None => false,
        }
    }

    /// Takes an event: counts what it counts for, unless there is a pause or no time. Gives
    /// the name that was counted and how many times, for those who are told of each.
    pub fn process_event(
        &mut self,
        db: &mut Database,
        flag: &PauseFlag,
        event: &EventType,
        now: u64,
        ts: Option<i64>,
        day: u64,
        offset: i64,
    ) -> (r: Option<(String, u64)>)
        requires
            old(db).writer matches Some(w) ==> room_for(w, MAX_WHEEL_NOTCHES_PER_EVENT as int),
        ensures
            final(self)@ == after_event(old(self)@, *event, now),
            final(db).startup_checks == old(db).startup_checks,
            match r {
                Some(c) => !flag.paused && ts is Some && counts_as(old(self)@, *event, now) == Some(
                    (c.0@, c.1 as int),
                ) && match old(db).writer {
                    None => final(db).writer is None,
                    Some(w) => final(db).writer matches Some(x) && writer::counted(
                        w,
                        x,
                        recorded_times(w.agg@, c.0@, ts->0 as int, offset as int, c.1 as nat),
                        c.1 as int,
                        writer::gap(w.agg@.last_ts, ts->0 as int),
                        day,
                    ),
                },
                None => (flag.paused || ts is None || counts_as(old(self)@, *event, now) is None)
                    && *final(db) == *old(db),
            },
    {
        match self.follow(event, now) {
            None => None,
            Some((name, n)) => {
                if is_paused_now(flag) || ts.is_none() {
                    return None;
                }
                let ghost w0 = db.writer;
                let ghost checks = db.startup_checks;
                let mut i: u64 = 0;
                while i < n
                    invariant
                        i <= n <= MAX_WHEEL_NOTCHES_PER_EVENT,
                        n >= 1,
                        !flag.paused,
                        ts is Some,
                        w0 matches Some(w) ==> room_for(w, MAX_WHEEL_NOTCHES_PER_EVENT as int),
                        db.startup_checks == checks,
                        match w0 {
                            None => db.writer is None,
                            Some(w) => db.writer matches Some(x) && room_for(
                                x,
                                MAX_WHEEL_NOTCHES_PER_EVENT - i,
                            ) && if i == 0 {
                                x == w
                            } else {
                                writer::counted(
                                    w,
                                    x,
                                    recorded_times(
                                        w.agg@,
                                        name@,
                                        ts->0 as int,
                                        offset as int,
                                        i as nat,
                                    ),
                                    i as int,
                                    writer::gap(w.agg@.last_ts, ts->0 as int),
                                    day,
                                )
                            },
                        },
                    decreases n - i,
                {
                    let ghost before = db.writer;
                    let told = self.record_event(db, flag, name.as_str(), ts, day, offset);
                    assert(told);
                    proof {
                        if let Some(x) = before {
                            let y = db.writer->0;
                            lemma_record_room(
                                x,
                                y,
                                name@,
                                ts->0 as int,
                                offset as int,
                                MAX_WHEEL_NOTCHES_PER_EVENT - i,
                            );
                        }
                    }
                    i = i + 1;
                }
                Some((name, n))
            },
        }
    }
}

proof fn lemma_record_room(
    x: DbWriter,
    y: DbWriter,
    key: Seq<char>,
    ts: int,
    offset: int,
    n: int,
)
    requires
        n >= 1,
        room_for(x, n),
        y.wf(),
        y.agg@ == writer::recorded(x.agg@, key, ts, offset),
        y.today_count <= x.today_count + 1,
        y.today_active <= x.today_active + writer::gap(x.agg@.last_ts, ts),
    ensures
        room_for(y, n - 1),
{
    let v = x.agg@;
    let d = crate::db::days::day_at(ts, offset) as i64;
    let h = crate::db::days::hour_at(ts, offset) as i64;
    let g = writer::gap(v.last_ts, ts);
    tally::lemma_bump_total(v.daily, d, 1);
    tally::lemma_bump_total(v.hourly, (d, h), 1);
    tally::lemma_bump_total(v.keys, (d, key), 1);
    tally::lemma_bump_total(v.active, d, g);
    if let Some(app) = v.current_app {
        tally::lemma_bump_total(v.apps, (d, app), g);
    }
}

// ------------------------------------------------------------------------------- laws

/// A pause that has just begun leaves no key held down and no turn of the wheel open: the
/// next press of any key and the next turn are new.
pub proof fn lemma_pause_forgets(
    key: Seq<char>,
    d: Direction,
    now: u64,
    stale: int,
    window: u64,
)
    ensures
        new_press(Seq::empty(), key, now as int, stale),
        new_burst(None, Direction::Up, d, now, window),
{
}

/// A key that is held down counts once, until it was held for too long; once it is released
/// its next press is new.
pub proof fn lemma_repetition_counts_once(
    p: PressedModel,
    key: Seq<char>,
    now: int,
    later: int,
    stale: int,
)
    requires
        new_press(p, key, now, stale),
        now <= later,
        p.len() < MAX_PRESSED,
        stale >= 0,
    ensures
        later - now <= stale ==> !new_press(after_press(p, key, now, stale), key, later, stale),
        later - now > stale ==> new_press(after_press(p, key, now, stale), key, later, stale),
{
    let i = held_at(p, key, 0);
    lemma_held_at(p, key, 0);
    let q = after_press(p, key, now, stale);
    assert forall|j: int| 0 <= j < i implies (#[trigger] q[j]).0 != key by {
        assert(p[j].0 != key);
    }
    assert(q[i] == (key, now));
    lemma_held_at_is(q, key, 0, i);
}

proof fn lemma_held_at(p: PressedModel, key: Seq<char>, from: int)
    requires
        0 <= from <= p.len(),
    ensures
        from <= held_at(p, key, from) <= p.len(),
        held_at(p, key, from) < p.len() ==> p[held_at(p, key, from)].0 == key,
        forall|i: int| from <= i < held_at(p, key, from) ==> (#[trigger] p[i]).0 != key,
    decreases p.len() - from,
{
    if from < p.len() && p[from].0 != key {
        lemma_held_at(p, key, from + 1);
    }
}

proof fn lemma_held_at_is(p: PressedModel, key: Seq<char>, from: int, k: int)
    requires
        0 <= from <= k < p.len(),
        p[k].0 == key,
        forall|i: int| from <= i < k ==> (#[trigger] p[i]).0 != key,
    ensures
        held_at(p, key, from) == k,
    decreases k - from,
{
    if from < k {
        lemma_held_at_is(p, key, from + 1, k);
    }
}

/// The window in which turns of the wheel count as one begins at the last turn that counted,
/// not at the last turn: turning on does not put off the next count.
pub proof fn lemma_burst_window_is_anchored(
    l: ListenerModel,
    dy: i64,
    again: i64,
    t0: u64,
    t1: u64,
    t2: u64,
)
    requires
        l.cfg.mouse_enabled,
        dy > 0,
        again > 0,
        t0 <= t1 <= t2,
        counts_as(l, EventType::Wheel { delta_y: dy }, t0) is Some,
        t1 - t0 <= l.cfg.scroll_burst_window,
        t2 - t0 > l.cfg.scroll_burst_window,
    ensures
        ({
            let one = after_event(l, EventType::Wheel { delta_y: dy }, t0);
            let two = after_event(one, EventType::Wheel { delta_y: again }, t1);
            &&& counts_as(one, EventType::Wheel { delta_y: again }, t1) is None
            &&& two == one
            &&& counts_as(two, EventType::Wheel { delta_y: again }, t2) is Some
        }),
{
}

/// A key outside the table, a button outside the three, and a turn by less than a notch
/// count for nothing and change nothing.
pub proof fn lemma_unknown_counts_for_nothing(l: ListenerModel, code: u32, b: u8, now: u64)
    ensures
        counts_as(l, EventType::KeyPress(Key::Unknown(code)), now) is None,
        after_event(l, EventType::KeyPress(Key::Unknown(code)), now) == l,
        after_event(l, EventType::KeyRelease(Key::Unknown(code)), now) == l,
        counts_as(l, EventType::ButtonPress(Button::Unknown(b)), now) is None,
        counts_as(l, EventType::Wheel { delta_y: 0 }, now) is None,
        after_event(l, EventType::Wheel { delta_y: 0 }, now) == l,
{
}

/// Whether a key is held down since the time `t`.
pub open spec fn holds(p: PressedModel, key: Seq<char>, t: int) -> bool {
    exists|i: int| 0 <= i < p.len() && (#[trigger] p[i]).0 == key && p[i].1 == t
}

/// Whether no key is listed twice among those held down.
pub open spec fn held_once(p: PressedModel) -> bool {
    forall|i: int, j: int| 0 <= i < j < p.len() ==> (#[trigger] p[i]).0 != (#[trigger] p[j]).0
}

proof fn lemma_fresh(p: PressedModel, now: int, stale: int)
    ensures
        held_once(p) ==> held_once(fresh(p, now, stale)),
        forall|k: Seq<char>, t: int| #[trigger]
            holds(fresh(p, now, stale), k, t) <==> holds(p, k, t) && now - t <= stale,
    decreases p.len(),
{
    let f = fresh(p, now, stale);
    if p.len() > 0 {
        let b = p.drop_last();
        let r = fresh(b, now, stale);
        lemma_fresh(b, now, stale);
        let e = p.last();
        assert(p[p.len() - 1] == e);
        if held_once(p) {
            assert(held_once(b)) by {
                assert forall|i: int, j: int| 0 <= i < j < b.len() implies (#[trigger] b[i]).0 != (
                #[trigger] b[j]).0 by {
                    assert(p[i].0 != p[j].0);
                }
            }
        }
        assert forall|k: Seq<char>, t: int| #[trigger] holds(f, k, t) <==> holds(p, k, t) && now
            - t <= stale by {
            if holds(f, k, t) {
                let i = choose|i: int| 0 <= i < f.len() && (#[trigger] f[i]).0 == k && f[i].1 == t;
                if i < r.len() {
                    assert(r[i] == f[i]);
                    assert(holds(r, k, t));
                    assert(holds(b, k, t));
                    let j = choose|j: int|
                        0 <= j < b.len() && (#[trigger] b[j]).0 == k && b[j].1 == t;
                    assert(p[j] == b[j]);
                }
            }
            if holds(p, k, t) && now - t <= stale {
                let j = choose|j: int| 0 <= j < p.len() && (#[trigger] p[j]).0 == k && p[j].1 == t;
                if j < b.len() {
                    assert(b[j] == p[j]);
                    assert(holds(b, k, t));
                    assert(holds(r, k, t));
                    let i = choose|i: int|
                        0 <= i < r.len() && (#[trigger] r[i]).0 == k && r[i].1 == t;
                    assert(f[i] == r[i]);
                } else {
                    assert(f[r.len() as int] == e);
                }
            }
        }
        if held_once(p) {
            assert forall|i: int, j: int| 0 <= i < j < f.len() implies (#[trigger] f[i]).0 != (
            #[trigger] f[j]).0 by {
                if j < r.len() {
                    assert(r[i].0 != r[j].0);
                } else {
                    assert(r[i] == f[i]);
                    assert(holds(r, f[i].0, f[i].1));
                    assert(holds(b, f[i].0, f[i].1));
                    let k = choose|k: int|
                        0 <= k < b.len() && (#[trigger] b[k]).0 == f[i].0 && b[k].1 == f[i].1;
                    assert(p[k].0 != p[p.len() - 1].0);
                }
            }
        }
    }
}

/// After the release of a key that key is not held down, and every other key is held down as
/// it was, since the same time. A press that follows is new.
pub proof fn lemma_release_frees_its_key(
    l: ListenerModel,
    key: Key,
    now: u64,
    other: Seq<char>,
    t: int,
    later: u64,
)
    requires
        held_once(l.pressed),
        !(key is Unknown),
    ensures
        ({
            let a = after_event(l, EventType::KeyRelease(key), now);
            &&& held_once(a.pressed)
            &&& !holds(a.pressed, key_name(key), t)
            &&& other != key_name(key) ==> (holds(a.pressed, other, t) <==> holds(
                l.pressed,
                other,
                t,
            ))
            &&& counts_as(l, EventType::KeyRelease(key), now) is None
            &&& a.cfg == l.cfg && a.scroll_at == l.scroll_at && a.scroll_dir == l.scroll_dir
            &&& key_wanted(l.cfg, key) ==> counts_as(a, EventType::KeyPress(key), later) == Some(
                (key_name(key), 1int),
            )
        }),
{
    let p = l.pressed;
    let k = key_name(key);
    let q = after_release(p, k);
    let n = held_at(p, k, 0);
    lemma_held_at(p, k, 0);
    assert forall|i: int, j: int| 0 <= i < j < q.len() implies (#[trigger] q[i]).0 != (
    #[trigger] q[j]).0 by {
        let x = if n < p.len() && i >= n {
            i + 1
        } else {
            i
        };
        let y = if n < p.len() && j >= n {
            j + 1
        } else {
            j
        };
        assert(p[x].0 != p[y].0);
    }
    assert forall|i: int| 0 <= i < q.len() implies (#[trigger] q[i]).0 != k by {
        if n < p.len() {
            if i < n {
                assert(p[i].0 != p[n].0);
            } else {
                assert(p[n].0 != p[i + 1].0);
            }
        } else {
            assert(p[i].0 != k);
        }
    }
    if holds(q, other, t) {
        let i = choose|i: int| 0 <= i < q.len() && (#[trigger] q[i]).0 == other && q[i].1 == t;
        let x = if n < p.len() && i >= n {
            i + 1
        } else {
            i
        };
        assert(p[x] == q[i]);
    }
    if holds(p, other, t) && other != k {
        let x = choose|x: int| 0 <= x < p.len() && (#[trigger] p[x]).0 == other && p[x].1 == t;
        let i = if n < p.len() && x > n {
            x - 1
        } else {
            x
        };
        assert(q[i] == p[x]);
    }
    let s = l.cfg.key_repeat_stale as int;
    let m = remembered(q, later as int, s);
    lemma_fresh(q, later as int, s);
    lemma_held_at(m, k, 0);
    let z = held_at(m, k, 0);
    if z < m.len() {
        assert(holds(m, k, m[z].1));
        assert(holds(q, k, m[z].1));
    }
}

/// A press counts once under the name of its key: where repetitions are left out, exactly
/// where the key is not held down or was pressed longer ago than keys are held. Then it is
/// held down since now; else it stays held since it was. Other keys stay as they are, but
/// where there are too many those held for too long are forgotten.
pub proof fn lemma_press_counts_unless_held(
    l: ListenerModel,
    key: Key,
    now: u64,
    other: Seq<char>,
    t: int,
)
    requires
        held_once(l.pressed),
        key_wanted(l.cfg, key),
        l.cfg.ignore_key_repeat,
    ensures
        ({
            let e = EventType::KeyPress(key);
            let a = after_event(l, e, now);
            let k = key_name(key);
            let s = l.cfg.key_repeat_stale as int;
            let held = exists|u: int| #[trigger] holds(l.pressed, k, u) && now - u <= s;
            &&& held_once(a.pressed)
            &&& counts_as(l, e, now) == (if held {
                None
            } else {
                Some((k, 1int))
            })
            &&& holds(a.pressed, k, t) <==> (if held {
                holds(l.pressed, k, t)
            } else {
                t == now
            })
            &&& other != k ==> (holds(a.pressed, other, t) <==> holds(l.pressed, other, t) && (
            l.pressed.len() <= MAX_PRESSED || now - t <= s))
            &&& a.cfg == l.cfg && a.scroll_at == l.scroll_at && a.scroll_dir == l.scroll_dir
        }),
{
    let p = l.pressed;
    let k = key_name(key);
    let s = l.cfg.key_repeat_stale as int;
    let m = remembered(p, now as int, s);
    let q = after_press(p, k, now as int, s);
    let z = held_at(m, k, 0);
    lemma_fresh(p, now as int, s);
    lemma_held_at(m, k, 0);
    assert(held_once(m));
    assert forall|j: Seq<char>, u: int| #[trigger] holds(m, j, u) implies holds(p, j, u) by {}
    if z < m.len() {
        assert(holds(m, k, m[z].1));
        assert(holds(p, k, m[z].1));
        assert forall|u: int| holds(p, k, u) implies u == m[z].1 by {
            lemma_held_time(p, k, u, m[z].1);
        }
    } else {
        assert forall|u: int| #[trigger] holds(p, k, u) implies now - u > s by {
            if now - u <= s {
                assert(holds(m, k, u));
                let i = choose|i: int| 0 <= i < m.len() && (#[trigger] m[i]).0 == k && m[i].1 == u;
                assert(m[i].0 != k);
            }
        }
    }
    assert forall|i: int, j: int| 0 <= i < j < q.len() implies (#[trigger] q[i]).0 != (
    #[trigger] q[j]).0 by {
        if z < m.len() {
            assert(m[i].0 != m[j].0);
        } else if j < m.len() {
            assert(m[i].0 != m[j].0);
        } else {
            assert(m[i].0 != k);
        }
    }
    if holds(q, k, t) {
        let i = choose|i: int| 0 <= i < q.len() && (#[trigger] q[i]).0 == k && q[i].1 == t;
        if z < m.len() {
            if i < z {
                assert(m[i].0 != m[z].0);
            }
            if z < i {
                assert(m[z].0 != m[i].0);
            }
        } else if i < m.len() {
            assert(m[i].0 != k);
        }
    }
    if z >= m.len() {
        assert(q[m.len() as int] == (k, now as int));
        assert(holds(q, k, now as int));
    } else {
        assert(q[z].0 == k);
        assert(holds(q, k, q[z].1));
    }
    if other != k {
        if holds(q, other, t) {
            let i = choose|i: int| 0 <= i < q.len() && (#[trigger] q[i]).0 == other && q[i].1 == t;
            assert(m[i] == q[i]);
            assert(holds(m, other, t));
        }
        if holds(m, other, t) {
            let i = choose|i: int| 0 <= i < m.len() && (#[trigger] m[i]).0 == other && m[i].1 == t;
            assert(q[i] == m[i]);
        }
    }
}

proof fn lemma_held_time(p: PressedModel, k: Seq<char>, a: int, b: int)
    requires
        held_once(p),
        holds(p, k, a),
        holds(p, k, b),
    ensures
        a == b,
{
    let i = choose|i: int| 0 <= i < p.len() && (#[trigger] p[i]).0 == k && p[i].1 == a;
    let j = choose|j: int| 0 <= j < p.len() && (#[trigger] p[j]).0 == k && p[j].1 == b;
    if i < j {
        assert(p[i].0 != p[j].0);
    }
    if j < i {
        assert(p[j].0 != p[i].0);
    }
}

/// Where repetitions count, every press of a key that is looked at counts, and nothing is
/// noted of it. A key is looked at unless the settings leave out its kind: the keys held
/// while another is pressed, or the function keys.
pub proof fn lemma_settings_choose_keys(l: ListenerModel, key: Key, now: u64)
    requires
        !(key is Unknown),
    ensures
        !l.cfg.ignore_key_repeat ==> after_event(l, EventType::KeyPress(key), now) == l,
        !l.cfg.ignore_key_repeat && key_wanted(l.cfg, key) ==> counts_as(
            l,
            EventType::KeyPress(key),
            now,
        ) == Some((key_name(key), 1int)),
        !key_wanted(l.cfg, key) ==> counts_as(l, EventType::KeyPress(key), now) is None
            && after_event(l, EventType::KeyPress(key), now) == l,
        !l.cfg.ignore_modifiers && !l.cfg.ignore_functions ==> key_wanted(l.cfg, key),
        l.cfg.ignore_modifiers ==> (key == Key::ShiftLeft || key == Key::ShiftRight || key
            == Key::ControlLeft || key == Key::ControlRight || key == Key::Alt || key == Key::AltGr
            || key == Key::MetaLeft || key == Key::MetaRight ==> !key_wanted(l.cfg, key)),
        l.cfg.ignore_functions ==> (key == Key::F1 || key == Key::F2 || key == Key::F3 || key
            == Key::F4 || key == Key::F5 || key == Key::F6 || key == Key::F7 || key == Key::F8
            || key == Key::F9 || key == Key::F10 || key == Key::F11 || key == Key::F12
            ==> !key_wanted(l.cfg, key)),
        !key_wanted(l.cfg, key) ==> (l.cfg.ignore_modifiers && (key == Key::ShiftLeft || key
            == Key::ShiftRight || key == Key::ControlLeft || key == Key::ControlRight || key
            == Key::Alt || key == Key::AltGr || key == Key::MetaLeft || key == Key::MetaRight)) || (
        l.cfg.ignore_functions && (key == Key::F1 || key == Key::F2 || key == Key::F3 || key
            == Key::F4 || key == Key::F5 || key == Key::F6 || key == Key::F7 || key == Key::F8
            || key == Key::F9 || key == Key::F10 || key == Key::F11 || key == Key::F12)),
{
}

/// The mouse counts where the settings have it count: a button each time it is pressed,
/// under its name; a turn of the wheel by its notches, at most as many as one event may
/// have, under the name of its way, exactly where no turn counted before, the last one that
/// did went the other way, or it is longer ago than turns count as one. Keys held down are
/// not touched, and a button leaves the wheel alone.
pub proof fn lemma_mouse_counts(l: ListenerModel, b: Button, dy: i64, now: u64)
    requires
        !(b is Unknown),
        dy != 0,
    ensures
        ({
            let press = EventType::ButtonPress(b);
            let turn = EventType::Wheel { delta_y: dy };
            let n: int = if dy < 0 {
                -dy
            } else {
                dy as int
            };
            let up = dy > 0;
            let fresh_turn = l.scroll_at is None || (l.scroll_dir == Direction::Up) != up || now
                - l.scroll_at->0 > l.cfg.scroll_burst_window;
            let a = after_event(l, turn, now);
            &&& counts_as(l, press, now) == (if l.cfg.mouse_enabled {
                Some((button_name(b), 1int))
            } else {
                None
            })
            &&& after_event(l, press, now) == l
            &&& counts_as(l, EventType::ButtonRelease(b), now) is None
            &&& after_event(l, EventType::ButtonRelease(b), now) == l
            &&& counts_as(l, EventType::MouseMove, now) is None
            &&& after_event(l, EventType::MouseMove, now) == l
            &&& counts_as(l, turn, now) is Some <==> l.cfg.mouse_enabled && fresh_turn
            &&& counts_as(l, turn, now) matches Some(c) ==> c.1 == (if n > 16 {
                16
            } else {
                n
            }) && c.0 == wheel_name(
                if up {
                    Direction::Up
                } else {
                    Direction::Down
                },
            )
            &&& a.pressed == l.pressed && a.cfg == l.cfg
            &&& counts_as(l, turn, now) is None ==> a == l
            &&& counts_as(l, turn, now) is Some ==> a.scroll_at == Some(now) && (a.scroll_dir
                == Direction::Up) == up
        }),
{
}

/// An event that counts `n` times counts `n` times in its day, its hour and under its name,
/// and once as active time: the time since the event before it.
pub proof fn lemma_event_counts_its_times(
    v: DeltasModel,
    key: Seq<char>,
    ts: i64,
    offset: i64,
    n: nat,
    day: i64,
    hour: i64,
    name: Seq<char>,
    app: Seq<char>,
)
    requires
        v.distinct(),
        n > 0,
    ensures
        ({
            let r = recorded_times(v, key, ts as int, offset as int, n);
            let d = crate::db::days::day_at(ts as int, offset as int) as i64;
            let h = crate::db::days::hour_at(ts as int, offset as int) as i64;
            let g = writer::gap(v.last_ts, ts as int);
            &&& r.distinct()
            &&& r.last_ts == ts
            &&& tally::amount(r.daily, day) == tally::amount(v.daily, day) + (if day == d {
                n as int
            } else {
                0
            })
            &&& tally::amount(r.hourly, (day, hour)) == tally::amount(v.hourly, (day, hour)) + (
            if day == d && hour == h {
                n as int
            } else {
                0
            })
            &&& tally::amount(r.keys, (day, name)) == tally::amount(v.keys, (day, name)) + (
            if day == d && name == key {
                n as int
            } else {
                0
            })
            &&& tally::amount(r.active, day) == tally::amount(v.active, day) + (if day == d {
                g
            } else {
                0
            })
            &&& tally::amount(r.apps, (day, app)) == tally::amount(v.apps, (day, app)) + (
            if day == d && v.current_app == Some(app) {
                g
            } else {
                0
            })
            &&& r.devices == v.devices && r.device_keys == v.device_keys && r.meta == v.meta
            &&& r.current_app == v.current_app
        }),
    decreases n,
{
    let p = recorded_times(v, key, ts as int, offset as int, (n - 1) as nat);
    if n > 1 {
        lemma_event_counts_its_times(
            v,
            key,
            ts,
            offset,
            (n - 1) as nat,
            day,
            hour,
            name,
            app,
        );
    }
    writer::lemma_record_counts_once(p, key, ts, offset, day, hour, name, app);
    let d = crate::db::days::day_at(ts as int, offset as int) as i64;
    let h = crate::db::days::hour_at(ts as int, offset as int) as i64;
    let g = writer::gap(p.last_ts, ts as int);
    tally::lemma_bump_shape(p.daily, d, 1);
    tally::lemma_bump_shape(p.hourly, (d, h), 1);
    tally::lemma_bump_shape(p.keys, (d, key), 1);
    tally::lemma_bump_shape(p.active, d, g);
    if let Some(c) = p.current_app {
        tally::lemma_bump_shape(p.apps, (d, c), g);
    }
}

/// A time that the settings give is taken as it is where it is in range, and else brought to
/// the nearest end of the range; where they give none the usual one is taken.
pub proof fn lemma_times_are_bounded(v: u64, fallback: u64, floor: u64)
    requires
        floor <= MAX_NANOS,
    ensures
        bounded(None, fallback, floor) == fallback,
        floor <= v <= 86_400_000_000_000 ==> bounded(Some(v), fallback, floor) == v,
        v < floor ==> bounded(Some(v), fallback, floor) == floor,
        v > 86_400_000_000_000 ==> bounded(Some(v), fallback, floor) == 86_400_000_000_000,
{
}

/// A key that a device of its own tells of goes by the name that it goes by otherwise:
/// letters, digits, signs, function keys and the keys of the number block.
pub proof fn lemma_names_agree()
    ensures
        classify::vkey_text(0x41) == Some(key_name(Key::KeyA)),
        classify::vkey_text(0x42) == Some(key_name(Key::KeyB)),
        classify::vkey_text(0x43) == Some(key_name(Key::KeyC)),
        classify::vkey_text(0x44) == Some(key_name(Key::KeyD)),
        classify::vkey_text(0x45) == Some(key_name(Key::KeyE)),
        classify::vkey_text(0x46) == Some(key_name(Key::KeyF)),
        classify::vkey_text(0x47) == Some(key_name(Key::KeyG)),
        classify::vkey_text(0x48) == Some(key_name(Key::KeyH)),
        classify::vkey_text(0x49) == Some(key_name(Key::KeyI)),
        classify::vkey_text(0x4A) == Some(key_name(Key::KeyJ)),
        classify::vkey_text(0x4B) == Some(key_name(Key::KeyK)),
        classify::vkey_text(0x4C) == Some(key_name(Key::KeyL)),
        classify::vkey_text(0x4D) == Some(key_name(Key::KeyM)),
        classify::vkey_text(0x4E) == Some(key_name(Key::KeyN)),
        classify::vkey_text(0x4F) == Some(key_name(Key::KeyO)),
        classify::vkey_text(0x50) == Some(key_name(Key::KeyP)),
        classify::vkey_text(0x51) == Some(key_name(Key::KeyQ)),
        classify::vkey_text(0x52) == Some(key_name(Key::KeyR)),
        classify::vkey_text(0x53) == Some(key_name(Key::KeyS)),
        classify::vkey_text(0x54) == Some(key_name(Key::KeyT)),
        classify::vkey_text(0x55) == Some(key_name(Key::KeyU)),
        classify::vkey_text(0x56) == Some(key_name(Key::KeyV)),
        classify::vkey_text(0x57) == Some(key_name(Key::KeyW)),
        classify::vkey_text(0x58) == Some(key_name(Key::KeyX)),
        classify::vkey_text(0x59) == Some(key_name(Key::KeyY)),
        classify::vkey_text(0x5A) == Some(key_name(Key::KeyZ)),
        classify::vkey_text(0x30) == Some(key_name(Key::Num0)),
        classify::vkey_text(0x31) == Some(key_name(Key::Num1)),
        classify::vkey_text(0x32) == Some(key_name(Key::Num2)),
        classify::vkey_text(0x33) == Some(key_name(Key::Num3)),
        classify::vkey_text(0x34) == Some(key_name(Key::Num4)),
        classify::vkey_text(0x35) == Some(key_name(Key::Num5)),
        classify::vkey_text(0x36) == Some(key_name(Key::Num6)),
        classify::vkey_text(0x37) == Some(key_name(Key::Num7)),
        classify::vkey_text(0x38) == Some(key_name(Key::Num8)),
        classify::vkey_text(0x39) == Some(key_name(Key::Num9)),
        classify::vkey_text(0x60) == Some(key_name(Key::Kp0)),
        classify::vkey_text(0x61) == Some(key_name(Key::Kp1)),
        classify::vkey_text(0x62) == Some(key_name(Key::Kp2)),
        classify::vkey_text(0x63) == Some(key_name(Key::Kp3)),
        classify::vkey_text(0x64) == Some(key_name(Key::Kp4)),
        classify::vkey_text(0x65) == Some(key_name(Key::Kp5)),
        classify::vkey_text(0x66) == Some(key_name(Key::Kp6)),
        classify::vkey_text(0x67) == Some(key_name(Key::Kp7)),
        classify::vkey_text(0x68) == Some(key_name(Key::Kp8)),
        classify::vkey_text(0x69) == Some(key_name(Key::Kp9)),
        classify::vkey_text(0x6A) == Some(key_name(Key::KpMultiply)),
        classify::vkey_text(0x6B) == Some(key_name(Key::KpPlus)),
        classify::vkey_text(0x6D) == Some(key_name(Key::KpMinus)),
        classify::vkey_text(0x6F) == Some(key_name(Key::KpDivide)),
        classify::vkey_text(0x70) == Some(key_name(Key::F1)),
        classify::vkey_text(0x71) == Some(key_name(Key::F2)),
        classify::vkey_text(0x72) == Some(key_name(Key::F3)),
        classify::vkey_text(0x73) == Some(key_name(Key::F4)),
        classify::vkey_text(0x74) == Some(key_name(Key::F5)),
        classify::vkey_text(0x75) == Some(key_name(Key::F6)),
        classify::vkey_text(0x76) == Some(key_name(Key::F7)),
        classify::vkey_text(0x77) == Some(key_name(Key::F8)),
        classify::vkey_text(0x78) == Some(key_name(Key::F9)),
        classify::vkey_text(0x79) == Some(key_name(Key::F10)),
        classify::vkey_text(0x7A) == Some(key_name(Key::F11)),
        classify::vkey_text(0x7B) == Some(key_name(Key::F12)),
        classify::vkey_text(0x08) == Some(key_name(Key::Backspace)),
        classify::vkey_text(0x09) == Some(key_name(Key::Tab)),
        classify::vkey_text(0x0D) == Some(key_name(Key::Return)),
        classify::vkey_text(0x20) == Some(key_name(Key::Space)),
        classify::vkey_text(0x1B) == Some(key_name(Key::Escape)),
        classify::vkey_text(0x21) == Some(key_name(Key::PageUp)),
        classify::vkey_text(0x22) == Some(key_name(Key::PageDown)),
        classify::vkey_text(0x23) == Some(key_name(Key::End)),
        classify::vkey_text(0x24) == Some(key_name(Key::Home)),
        classify::vkey_text(0x2D) == Some(key_name(Key::Insert)),
        classify::vkey_text(0x2E) == Some(key_name(Key::Delete)),
        classify::vkey_text(0xA0) == Some(key_name(Key::ShiftLeft)),
        classify::vkey_text(0xA1) == Some(key_name(Key::ShiftRight)),
        classify::vkey_text(0xA2) == Some(key_name(Key::ControlLeft)),
        classify::vkey_text(0xA3) == Some(key_name(Key::ControlRight)),
        classify::vkey_text(0xA4) == Some(key_name(Key::Alt)),
        classify::vkey_text(0x5B) == Some(key_name(Key::MetaLeft)),
        classify::vkey_text(0x5C) == Some(key_name(Key::MetaRight)),
        classify::vkey_text(0xBA) == Some(key_name(Key::SemiColon)),
        classify::vkey_text(0xBB) == Some(key_name(Key::Equal)),
        classify::vkey_text(0xBC) == Some(key_name(Key::Comma)),
        classify::vkey_text(0xBD) == Some(key_name(Key::Minus)),
        classify::vkey_text(0xBE) == Some(key_name(Key::Dot)),
        classify::vkey_text(0xBF) == Some(key_name(Key::Slash)),
        classify::vkey_text(0xC0) == Some(key_name(Key::BackQuote)),
        classify::vkey_text(0xDB) == Some(key_name(Key::LeftBracket)),
        classify::vkey_text(0xDC) == Some(key_name(Key::BackSlash)),
        classify::vkey_text(0xDD) == Some(key_name(Key::RightBracket)),
        classify::vkey_text(0xDE) == Some(key_name(Key::Quote)),
{
}

/// A mouse button or a turn of the wheel that a device of its own tells of goes by the name
/// that it goes by otherwise; where several are told at once, the buttons come first.
pub proof fn lemma_mouse_names_agree(flags: u16, data: i16)
    ensures
        flags & classify::RI_MOUSE_LEFT_BUTTON_DOWN != 0 ==> classify::action_text(flags, data)
            == Some(button_name(Button::Left)),
        flags & classify::RI_MOUSE_LEFT_BUTTON_DOWN == 0 && flags
            & classify::RI_MOUSE_RIGHT_BUTTON_DOWN != 0 ==> classify::action_text(flags, data)
            == Some(button_name(Button::Right)),
        flags == classify::RI_MOUSE_MIDDLE_BUTTON_DOWN ==> classify::action_text(flags, data)
            == Some(button_name(Button::Middle)),
        flags == classify::RI_MOUSE_WHEEL && data > 0 ==> classify::action_text(flags, data)
            == Some(wheel_name(Direction::Up)),
        flags == classify::RI_MOUSE_WHEEL && data < 0 ==> classify::action_text(flags, data)
            == Some(wheel_name(Direction::Down)),
{
    assert(0x0010u16 & 0x0001u16 == 0 && 0x0010u16 & 0x0004u16 == 0 && 0x0010u16 & 0x0010u16 != 0)
        by (bit_vector);
    assert(0x0400u16 & 0x0001u16 == 0 && 0x0400u16 & 0x0004u16 == 0 && 0x0400u16 & 0x0010u16 == 0
        && 0x0400u16 & 0x0400u16 != 0) by (bit_vector);
}

/// The keys that are held while others are pressed are a group of their own by their names,
/// but for one; and so are the function keys.
pub proof fn lemma_groups_of_keys(key: Key)
    ensures
        modifier(key) && key != Key::AltGr ==> crate::format::group_of(key_name(key)) == "修饰键"@,
        function_key(key) ==> crate::format::group_of(key_name(key)) == "功能键"@,
{
    lemma_names_of_modifiers(key);
    lemma_names_of_functions(key);
}

proof fn lemma_names_of_modifiers(key: Key)
    ensures
        modifier(key) && key != Key::AltGr ==> crate::format::group_of(key_name(key)) == "修饰键"@,
{
    reveal_strlit("滚轮");
    reveal_strlit("鼠标");
    reveal_strlit("左Shift");
    reveal_strlit("右Shift");
    reveal_strlit("左Ctrl");
    reveal_strlit("右Ctrl");
    reveal_strlit("左Alt");
    reveal_strlit("左Win");
    reveal_strlit("右Win");
    if modifier(key) && key != Key::AltGr {
        let n = key_name(key);
        assert(n[0] == '左' || n[0] == '右');
        assert("滚轮"@[0] == '滚' && "鼠标"@[0] == '鼠');
        if n.take(2) == "滚轮"@ || n.take(2) == "鼠标"@ {
            assert(n.take(2)[0] == n[0]);
        }
    }
}

proof fn lemma_names_of_functions(key: Key)
    ensures
        function_key(key) ==> crate::format::group_of(key_name(key)) == "功能键"@,
{
    reveal_strlit("滚轮");
    reveal_strlit("鼠标");
    reveal_strlit("F1");
    reveal_strlit("F2");
    reveal_strlit("F3");
    reveal_strlit("F4");
    reveal_strlit("F5");
    reveal_strlit("F6");
    reveal_strlit("F7");
    reveal_strlit("F8");
    reveal_strlit("F9");
    reveal_strlit("F10");
    reveal_strlit("F11");
    reveal_strlit("F12");
    reveal_strlit("Shift");
    reveal_strlit("左Shift");
    reveal_strlit("右Shift");
    reveal_strlit("Ctrl");
    reveal_strlit("左Ctrl");
    reveal_strlit("右Ctrl");
    reveal_strlit("Alt");
    reveal_strlit("左Alt");
    reveal_strlit("右Alt");
    reveal_strlit("Win");
    reveal_strlit("左Win");
    reveal_strlit("右Win");
    if function_key(key) {
        let n = key_name(key);
        assert(n[0] == 'F');
        assert("Shift"@[0] == 'S' && "左Shift"@[0] == '左' && "右Shift"@[0] == '右' && "Ctrl"@[0] == 'C'
            && "左Ctrl"@[0] == '左' && "右Ctrl"@[0] == '右' && "Alt"@[0] == 'A' && "左Alt"@[0] == '左'
            && "右Alt"@[0] == '右' && "Win"@[0] == 'W' && "左Win"@[0] == '左' && "右Win"@[0] == '右');
        assert("滚轮"@[0] == '滚' && "鼠标"@[0] == '鼠');
        if n.take(2) == "滚轮"@ || n.take(2) == "鼠标"@ {
            assert(n.take(2)[0] == n[0]);
        }
        let d = n.drop_first();
        assert(d.len() == 1 || d.len() == 2);
        assert(text::is_digit(n[1]));
        assert(n.len() == 3 ==> text::is_digit(n[2]));
        assert forall|i: int| 0 <= i < d.len() implies text::is_digit(#[trigger] d[i]) by {
            assert(d[i] == n[i + 1]);
        }
    }
}

/// The keys that edit a text or move in it are a group by their names.
pub proof fn lemma_group_of_editing(key: Key)
    ensures
        match key {
            Key::Space | Key::Return | Key::Backspace | Key::Tab | Key::Escape | Key::Delete
            | Key::KpDelete | Key::Insert | Key::Home | Key::End | Key::PageUp | Key::PageDown
            | Key::UpArrow | Key::DownArrow | Key::LeftArrow | Key::RightArrow =>
                crate::format::group_of(key_name(key)) == "编辑键"@,
            _ => true,
        },
{
    reveal_strlit("滚轮");
    reveal_strlit("鼠标");
    reveal_strlit("空格");
    reveal_strlit("回车");
    reveal_strlit("退格");
    reveal_strlit("Tab");
    reveal_strlit("Esc");
    reveal_strlit("Delete");
    reveal_strlit("Insert");
    reveal_strlit("Home");
    reveal_strlit("End");
    reveal_strlit("PageUp");
    reveal_strlit("PageDown");
    reveal_strlit("↑");
    reveal_strlit("↓");
    reveal_strlit("←");
    reveal_strlit("→");
    reveal_strlit("Shift");
    reveal_strlit("左Shift");
    reveal_strlit("右Shift");
    reveal_strlit("Ctrl");
    reveal_strlit("左Ctrl");
    reveal_strlit("右Ctrl");
    reveal_strlit("Alt");
    reveal_strlit("左Alt");
    reveal_strlit("右Alt");
    reveal_strlit("Win");
    reveal_strlit("左Win");
    reveal_strlit("右Win");
    let n = key_name(key);
    assert("Shift"@[0] == 'S' && "左Shift"@[0] == '左' && "右Shift"@[0] == '右' && "Ctrl"@[0] == 'C'
        && "左Ctrl"@[0] == '左' && "右Ctrl"@[0] == '右' && "Alt"@[0] == 'A' && "左Alt"@[0] == '左'
        && "右Alt"@[0] == '右' && "Win"@[0] == 'W' && "左Win"@[0] == '左' && "右Win"@[0] == '右');
    assert("滚轮"@[0] == '滚' && "鼠标"@[0] == '鼠');
    if n.len() >= 2 && (n.take(2) == "滚轮"@ || n.take(2) == "鼠标"@) {
        assert(n.take(2)[0] == n[0]);
    }
}

} // verus!
