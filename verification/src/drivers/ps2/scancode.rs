//! Scancode Set 1 decoding: a small state machine (one `0xE0`
//! extended-prefix bit of memory, plus the currently held modifiers) fed
//! one raw byte at a time.
use vstd::prelude::*;

verus! {

/// A key identity, independent of what character (if any) it produces.
#[derive(Clone, Copy, Debug, PartialEq, Eq, Structural)]
pub enum Key {
    A, B, C, D, E, F, G, H, I, J, K, L, M, N, O, P, Q, R, S, T, U, V, W, X, Y, Z,
    Digit0, Digit1, Digit2, Digit3, Digit4, Digit5, Digit6, Digit7, Digit8, Digit9,
    Minus, Equal, LeftBracket, RightBracket, Semicolon, Apostrophe, Grave, Backslash, Comma, Period, Slash,
    F1, F2, F3, F4, F5, F6, F7, F8, F9, F10, F11, F12,
    Left, Right, Up, Down, Home, End, PageUp, PageDown, Insert, Delete,
    Enter, Backspace, Tab, Escape, Space,
    LeftShift, RightShift, LeftCtrl, RightCtrl, LeftAlt, RightAlt,
    CapsLock, NumLock, ScrollLock,
    /// A make code this decoder assigns no key to.
    Unknown(u8),
}

/// Whether a key's characters are a cased letter pair (caps lock flips
/// it too) or a fixed symbol pair (only shift flips it).
#[derive(Clone, Copy, Debug, PartialEq, Eq, Structural)]
pub enum CharKind {
    Letter,
    Symbol,
}

/// The `(unshifted, shifted, kind)` a key types on a US QWERTY layout, or
/// `None` for a key that never produces a character.
pub open spec fn key_chars(k: Key) -> Option<(char, char, CharKind)> {
    match k {
        Key::A => Some(('a', 'A', CharKind::Letter)),
        Key::B => Some(('b', 'B', CharKind::Letter)),
        Key::C => Some(('c', 'C', CharKind::Letter)),
        Key::D => Some(('d', 'D', CharKind::Letter)),
        Key::E => Some(('e', 'E', CharKind::Letter)),
        Key::F => Some(('f', 'F', CharKind::Letter)),
        Key::G => Some(('g', 'G', CharKind::Letter)),
        Key::H => Some(('h', 'H', CharKind::Letter)),
        Key::I => Some(('i', 'I', CharKind::Letter)),
        Key::J => Some(('j', 'J', CharKind::Letter)),
        Key::K => Some(('k', 'K', CharKind::Letter)),
        Key::L => Some(('l', 'L', CharKind::Letter)),
        Key::M => Some(('m', 'M', CharKind::Letter)),
        Key::N => Some(('n', 'N', CharKind::Letter)),
        Key::O => Some(('o', 'O', CharKind::Letter)),
        Key::P => Some(('p', 'P', CharKind::Letter)),
        Key::Q => Some(('q', 'Q', CharKind::Letter)),
        Key::R => Some(('r', 'R', CharKind::Letter)),
        Key::S => Some(('s', 'S', CharKind::Letter)),
        Key::T => Some(('t', 'T', CharKind::Letter)),
        Key::U => Some(('u', 'U', CharKind::Letter)),
        Key::V => Some(('v', 'V', CharKind::Letter)),
        Key::W => Some(('w', 'W', CharKind::Letter)),
        Key::X => Some(('x', 'X', CharKind::Letter)),
        Key::Y => Some(('y', 'Y', CharKind::Letter)),
        Key::Z => Some(('z', 'Z', CharKind::Letter)),
        Key::Digit1 => Some(('1', '!', CharKind::Symbol)),
        Key::Digit2 => Some(('2', '@', CharKind::Symbol)),
        Key::Digit3 => Some(('3', '#', CharKind::Symbol)),
        Key::Digit4 => Some(('4', '$', CharKind::Symbol)),
        Key::Digit5 => Some(('5', '%', CharKind::Symbol)),
        Key::Digit6 => Some(('6', '^', CharKind::Symbol)),
        Key::Digit7 => Some(('7', '&', CharKind::Symbol)),
        Key::Digit8 => Some(('8', '*', CharKind::Symbol)),
        Key::Digit9 => Some(('9', '(', CharKind::Symbol)),
        Key::Digit0 => Some(('0', ')', CharKind::Symbol)),
        Key::Minus => Some(('-', '_', CharKind::Symbol)),
        Key::Equal => Some(('=', '+', CharKind::Symbol)),
        Key::LeftBracket => Some(('[', '{', CharKind::Symbol)),
        Key::RightBracket => Some((']', '}', CharKind::Symbol)),
        Key::Semicolon => Some((';', ':', CharKind::Symbol)),
        Key::Apostrophe => Some(('\'', '"', CharKind::Symbol)),
        Key::Grave => Some(('`', '~', CharKind::Symbol)),
        Key::Backslash => Some(('\\', '|', CharKind::Symbol)),
        Key::Comma => Some((',', '<', CharKind::Symbol)),
        Key::Period => Some(('.', '>', CharKind::Symbol)),
        Key::Slash => Some(('/', '?', CharKind::Symbol)),
        Key::Space => Some((' ', ' ', CharKind::Symbol)),
        Key::Enter => Some(('\n', '\n', CharKind::Symbol)),
        Key::Tab => Some(('\t', '\t', CharKind::Symbol)),
        Key::Backspace => Some(('\u{8}', '\u{8}', CharKind::Symbol)),
        _ => None,
    }
}

/// The key a non-extended Set 1 make code (high bit stripped) stands for.
pub open spec fn set1_key(code: u8) -> Key {
    match code {
        0x01 => Key::Escape,
        0x02 => Key::Digit1,
        0x03 => Key::Digit2,
        0x04 => Key::Digit3,
        0x05 => Key::Digit4,
        0x06 => Key::Digit5,
        0x07 => Key::Digit6,
        0x08 => Key::Digit7,
        0x09 => Key::Digit8,
        0x0A => Key::Digit9,
        0x0B => Key::Digit0,
        0x0C => Key::Minus,
        0x0D => Key::Equal,
        0x0E => Key::Backspace,
        0x0F => Key::Tab,
        0x10 => Key::Q,
        0x11 => Key::W,
        0x12 => Key::E,
        0x13 => Key::R,
        0x14 => Key::T,
        0x15 => Key::Y,
        0x16 => Key::U,
        0x17 => Key::I,
        0x18 => Key::O,
        0x19 => Key::P,
        0x1A => Key::LeftBracket,
        0x1B => Key::RightBracket,
        0x1C => Key::Enter,
        0x1D => Key::LeftCtrl,
        0x1E => Key::A,
        0x1F => Key::S,
        0x20 => Key::D,
        0x21 => Key::F,
        0x22 => Key::G,
        0x23 => Key::H,
        0x24 => Key::J,
        0x25 => Key::K,
        0x26 => Key::L,
        0x27 => Key::Semicolon,
        0x28 => Key::Apostrophe,
        0x29 => Key::Grave,
        0x2A => Key::LeftShift,
        0x2B => Key::Backslash,
        0x2C => Key::Z,
        0x2D => Key::X,
        0x2E => Key::C,
        0x2F => Key::V,
        0x30 => Key::B,
        0x31 => Key::N,
        0x32 => Key::M,
        0x33 => Key::Comma,
        0x34 => Key::Period,
        0x35 => Key::Slash,
        0x36 => Key::RightShift,
        0x38 => Key::LeftAlt,
        0x39 => Key::Space,
        0x3A => Key::CapsLock,
        0x3B => Key::F1,
        0x3C => Key::F2,
        0x3D => Key::F3,
        0x3E => Key::F4,
        0x3F => Key::F5,
        0x40 => Key::F6,
        0x41 => Key::F7,
        0x42 => Key::F8,
        0x43 => Key::F9,
        0x44 => Key::F10,
        0x45 => Key::NumLock,
        0x46 => Key::ScrollLock,
        0x57 => Key::F11,
        0x58 => Key::F12,
        other => Key::Unknown(other),
    }
}

/// The character a make code types without shift, if any.
pub open spec fn typed(code: u8) -> Option<char> {
    match key_chars(set1_key(code)) {
        Some((c, _, _)) => Some(c),
        None => None,
    }
}

/// The Set 1 make codes follow the keyboard's rows, left to right: the
/// digit row `1234567890-=` from 0x02, `qwertyuiop[]` from 0x10,
/// `asdfghjkl;'` from 0x1E, `zxcvbnm,./` from 0x2C; 0x01 is Escape, 0x0E
/// Backspace, 0x0F Tab, 0x1C Enter, 0x39 Space, 0x2A and 0x36 the shifts,
/// 0x1D Ctrl, 0x38 Alt, 0x3A Caps Lock.
pub proof fn law_set1_rows()
    ensures
        forall|i: int| 0 <= i < 12 ==> typed((0x02 + i) as u8) == Some(seq!['1', '2', '3', '4', '5', '6', '7', '8', '9', '0', '-', '='][i]),
        forall|i: int| 0 <= i < 12 ==> typed((0x10 + i) as u8) == Some(seq!['q', 'w', 'e', 'r', 't', 'y', 'u', 'i', 'o', 'p', '[', ']'][i]),
        forall|i: int| 0 <= i < 11 ==> typed((0x1E + i) as u8) == Some(seq!['a', 's', 'd', 'f', 'g', 'h', 'j', 'k', 'l', ';', '\''][i]),
        forall|i: int| 0 <= i < 10 ==> typed((0x2C + i) as u8) == Some(seq!['z', 'x', 'c', 'v', 'b', 'n', 'm', ',', '.', '/'][i]),
        set1_key(0x01) == Key::Escape,
        set1_key(0x0E) == Key::Backspace,
        set1_key(0x0F) == Key::Tab,
        set1_key(0x1C) == Key::Enter,
        set1_key(0x39) == Key::Space,
        set1_key(0x2A) == Key::LeftShift,
        set1_key(0x36) == Key::RightShift,
        set1_key(0x1D) == Key::LeftCtrl,
        set1_key(0x38) == Key::LeftAlt,
        set1_key(0x3A) == Key::CapsLock,
{
    let digits = seq!['1', '2', '3', '4', '5', '6', '7', '8', '9', '0', '-', '='];
    assert forall|i: int| 0 <= i < 12 implies typed((0x02 + i) as u8) == Some(digits[i]) by {
        assert(i == 0 || i == 1 || i == 2 || i == 3 || i == 4 || i == 5 || i == 6 || i == 7 || i == 8 || i == 9
            || i == 10 || i == 11);
    }
    let top = seq!['q', 'w', 'e', 'r', 't', 'y', 'u', 'i', 'o', 'p', '[', ']'];
    assert forall|i: int| 0 <= i < 12 implies typed((0x10 + i) as u8) == Some(top[i]) by {
        assert(i == 0 || i == 1 || i == 2 || i == 3 || i == 4 || i == 5 || i == 6 || i == 7 || i == 8 || i == 9
            || i == 10 || i == 11);
    }
    let home = seq!['a', 's', 'd', 'f', 'g', 'h', 'j', 'k', 'l', ';', '\''];
    assert forall|i: int| 0 <= i < 11 implies typed((0x1E + i) as u8) == Some(home[i]) by {
        assert(i == 0 || i == 1 || i == 2 || i == 3 || i == 4 || i == 5 || i == 6 || i == 7 || i == 8 || i == 9
            || i == 10);
    }
    let bottom = seq!['z', 'x', 'c', 'v', 'b', 'n', 'm', ',', '.', '/'];
    assert forall|i: int| 0 <= i < 10 implies typed((0x2C + i) as u8) == Some(bottom[i]) by {
        assert(i == 0 || i == 1 || i == 2 || i == 3 || i == 4 || i == 5 || i == 6 || i == 7 || i == 8 || i == 9);
    }
}

/// With shift the digit row types `!@#$%^&*()_+` (US layout).
pub proof fn law_set1_shifted()
    ensures
        forall|i: int| 0 <= i < 12 ==> (match key_chars(set1_key((0x02 + i) as u8)) {
            Some((_, hi, _)) => Some(hi),
            None => None,
        }) == Some(seq!['!', '@', '#', '$', '%', '^', '&', '*', '(', ')', '_', '+'][i]),
{
    let sh = seq!['!', '@', '#', '$', '%', '^', '&', '*', '(', ')', '_', '+'];
    assert forall|i: int| 0 <= i < 12 implies (match key_chars(set1_key((0x02 + i) as u8)) {
            Some((_, hi, _)) => Some(hi),
            None => None,
        }) == Some(sh[i]) by {
        assert(i == 0 || i == 1 || i == 2 || i == 3 || i == 4 || i == 5 || i == 6 || i == 7 || i == 8 || i == 9
            || i == 10 || i == 11);
    }
}

/// The function keys: F1 to F10 from 0x3B on, then F11 at 0x57 and F12 at
/// 0x58; the `0xE0`-prefixed codes of the arrow and editing block sit on
/// the numeric keypad's codes (8 up, 2 down, 4 left, 6 right, 7 Home,
/// 1 End, 9 Page Up, 3 Page Down, 0 Insert, `.` Delete), and prefixed
/// Ctrl and Alt are the right-hand ones.
pub proof fn law_set1_function_and_extended_keys()
    ensures
        forall|i: int| 0 <= i < 10 ==> set1_key((0x3B + i) as u8)
            == seq![Key::F1, Key::F2, Key::F3, Key::F4, Key::F5, Key::F6, Key::F7, Key::F8, Key::F9, Key::F10][i],
        set1_key(0x57) == Key::F11,
        set1_key(0x58) == Key::F12,
        set1_extended_key(0x48) == Key::Up,
        set1_extended_key(0x50) == Key::Down,
        set1_extended_key(0x4B) == Key::Left,
        set1_extended_key(0x4D) == Key::Right,
        set1_extended_key(0x47) == Key::Home,
        set1_extended_key(0x4F) == Key::End,
        set1_extended_key(0x49) == Key::PageUp,
        set1_extended_key(0x51) == Key::PageDown,
        set1_extended_key(0x52) == Key::Insert,
        set1_extended_key(0x53) == Key::Delete,
        set1_extended_key(0x1D) == Key::RightCtrl,
        set1_extended_key(0x38) == Key::RightAlt,
{
    let fs = seq![Key::F1, Key::F2, Key::F3, Key::F4, Key::F5, Key::F6, Key::F7, Key::F8, Key::F9, Key::F10];
    assert forall|i: int| 0 <= i < 10 implies set1_key((0x3B + i) as u8) == fs[i] by {
        assert(i == 0 || i == 1 || i == 2 || i == 3 || i == 4 || i == 5 || i == 6 || i == 7 || i == 8 || i == 9);
    }
}

/// The key an `0xE0`-prefixed Set 1 make code (high bit stripped) stands for.
pub open spec fn set1_extended_key(code: u8) -> Key {
    match code {
        0x1D => Key::RightCtrl,
        0x38 => Key::RightAlt,
        0x47 => Key::Home,
        0x48 => Key::Up,
        0x49 => Key::PageUp,
        0x4B => Key::Left,
        0x4D => Key::Right,
        0x4F => Key::End,
        0x50 => Key::Down,
        0x51 => Key::PageDown,
        0x52 => Key::Insert,
        0x53 => Key::Delete,
        other => Key::Unknown(other),
    }
}

impl Key {
    /// The `(unshifted, shifted, kind)` this key types, if any.
    pub fn chars(self) -> (r: Option<(char, char, CharKind)>)
        ensures
            r == key_chars(self),
    {
        match self {
            Key::A => Some(('a', 'A', CharKind::Letter)),
            Key::B => Some(('b', 'B', CharKind::Letter)),
            Key::C => Some(('c', 'C', CharKind::Letter)),
            Key::D => Some(('d', 'D', CharKind::Letter)),
            Key::E => Some(('e', 'E', CharKind::Letter)),
            Key::F => Some(('f', 'F', CharKind::Letter)),
            Key::G => Some(('g', 'G', CharKind::Letter)),
            Key::H => Some(('h', 'H', CharKind::Letter)),
            Key::I => Some(('i', 'I', CharKind::Letter)),
            Key::J => Some(('j', 'J', CharKind::Letter)),
            Key::K => Some(('k', 'K', CharKind::Letter)),
            Key::L => Some(('l', 'L', CharKind::Letter)),
            Key::M => Some(('m', 'M', CharKind::Letter)),
            Key::N => Some(('n', 'N', CharKind::Letter)),
            Key::O => Some(('o', 'O', CharKind::Letter)),
            Key::P => Some(('p', 'P', CharKind::Letter)),
            Key::Q => Some(('q', 'Q', CharKind::Letter)),
            Key::R => Some(('r', 'R', CharKind::Letter)),
            Key::S => Some(('s', 'S', CharKind::Letter)),
            Key::T => Some(('t', 'T', CharKind::Letter)),
            Key::U => Some(('u', 'U', CharKind::Letter)),
            Key::V => Some(('v', 'V', CharKind::Letter)),
            Key::W => Some(('w', 'W', CharKind::Letter)),
            Key::X => Some(('x', 'X', CharKind::Letter)),
            Key::Y => Some(('y', 'Y', CharKind::Letter)),
            Key::Z => Some(('z', 'Z', CharKind::Letter)),
            Key::Digit1 => Some(('1', '!', CharKind::Symbol)),
            Key::Digit2 => Some(('2', '@', CharKind::Symbol)),
            Key::Digit3 => Some(('3', '#', CharKind::Symbol)),
            Key::Digit4 => Some(('4', '$', CharKind::Symbol)),
            Key::Digit5 => Some(('5', '%', CharKind::Symbol)),
            Key::Digit6 => Some(('6', '^', CharKind::Symbol)),
            Key::Digit7 => Some(('7', '&', CharKind::Symbol)),
            Key::Digit8 => Some(('8', '*', CharKind::Symbol)),
            Key::Digit9 => Some(('9', '(', CharKind::Symbol)),
            Key::Digit0 => Some(('0', ')', CharKind::Symbol)),
            Key::Minus => Some(('-', '_', CharKind::Symbol)),
            Key::Equal => Some(('=', '+', CharKind::Symbol)),
            Key::LeftBracket => Some(('[', '{', CharKind::Symbol)),
            Key::RightBracket => Some((']', '}', CharKind::Symbol)),
            Key::Semicolon => Some((';', ':', CharKind::Symbol)),
            Key::Apostrophe => Some(('\'', '"', CharKind::Symbol)),
            Key::Grave => Some(('`', '~', CharKind::Symbol)),
            Key::Backslash => Some(('\\', '|', CharKind::Symbol)),
            Key::Comma => Some((',', '<', CharKind::Symbol)),
            Key::Period => Some(('.', '>', CharKind::Symbol)),
            Key::Slash => Some(('/', '?', CharKind::Symbol)),
            Key::Space => Some((' ', ' ', CharKind::Symbol)),
            Key::Enter => Some(('\n', '\n', CharKind::Symbol)),
            Key::Tab => Some(('\t', '\t', CharKind::Symbol)),
            Key::Backspace => Some(('\u{8}', '\u{8}', CharKind::Symbol)),
            _ => None,
        }
    }
}

/// Modifier keys' current state.
#[derive(Clone, Copy, Debug, Default, PartialEq, Eq, Structural)]
pub struct Modifiers {
    pub shift: bool,
    pub ctrl: bool,
    pub alt: bool,
    pub caps_lock: bool,
}

/// One decoded make or break event, with the modifier state as of right
/// after this event was applied.
#[derive(Clone, Copy, Debug, PartialEq, Eq, Structural)]
pub struct KeyEvent {
    pub key: Key,
    /// `true` for a make code, `false` for a break code.
    pub pressed: bool,
    pub mods: Modifiers,
}

/// The character an event types: none for a break event or a key without
/// characters; caps lock XORs with shift for letters only.
pub open spec fn event_char(e: KeyEvent) -> Option<char> {
    if !e.pressed {
        None
    } else {
        match key_chars(e.key) {
            None => None,
            Some((unshifted, shifted, kind)) => {
                let use_shifted = match kind {
                    CharKind::Letter => e.mods.shift != e.mods.caps_lock,
                    CharKind::Symbol => e.mods.shift,
                };
                Some(if use_shifted { shifted } else { unshifted })
            },
        }
    }
}

impl KeyEvent {
    /// The US-QWERTY character this event types, honouring shift and caps lock.
    pub fn to_char(&self) -> (r: Option<char>)
        ensures
            r == event_char(*self),
    {
        if !self.pressed {
            return None;
        }
        let (unshifted, shifted, kind) = match self.key.chars() {
            Some(t) => t,
            None => return None,
        };
        let use_shifted = match kind {
            CharKind::Letter => self.mods.shift != self.mods.caps_lock,
            CharKind::Symbol => self.mods.shift,
        };
        Some(if use_shifted { shifted } else { unshifted })
    }
}

/// Decodes a non-extended Set 1 make code (high bit already stripped).
fn decode_key(code: u8) -> (r: Key)
    ensures
        r == set1_key(code),
{
    match code {
        0x01 => Key::Escape,
        0x02 => Key::Digit1,
        0x03 => Key::Digit2,
        0x04 => Key::Digit3,
        0x05 => Key::Digit4,
        0x06 => Key::Digit5,
        0x07 => Key::Digit6,
        0x08 => Key::Digit7,
        0x09 => Key::Digit8,
        0x0A => Key::Digit9,
        0x0B => Key::Digit0,
        0x0C => Key::Minus,
        0x0D => Key::Equal,
        0x0E => Key::Backspace,
        0x0F => Key::Tab,
        0x10 => Key::Q,
        0x11 => Key::W,
        0x12 => Key::E,
        0x13 => Key::R,
        0x14 => Key::T,
        0x15 => Key::Y,
        0x16 => Key::U,
        0x17 => Key::I,
        0x18 => Key::O,
        0x19 => Key::P,
        0x1A => Key::LeftBracket,
        0x1B => Key::RightBracket,
        0x1C => Key::Enter,
        0x1D => Key::LeftCtrl,
        0x1E => Key::A,
        0x1F => Key::S,
        0x20 => Key::D,
        0x21 => Key::F,
        0x22 => Key::G,
        0x23 => Key::H,
        0x24 => Key::J,
        0x25 => Key::K,
        0x26 => Key::L,
        0x27 => Key::Semicolon,
        0x28 => Key::Apostrophe,
        0x29 => Key::Grave,
        0x2A => Key::LeftShift,
        0x2B => Key::Backslash,
        0x2C => Key::Z,
        0x2D => Key::X,
        0x2E => Key::C,
        0x2F => Key::V,
        0x30 => Key::B,
        0x31 => Key::N,
        0x32 => Key::M,
        0x33 => Key::Comma,
        0x34 => Key::Period,
        0x35 => Key::Slash,
        0x36 => Key::RightShift,
        0x38 => Key::LeftAlt,
        0x39 => Key::Space,
        0x3A => Key::CapsLock,
        0x3B => Key::F1,
        0x3C => Key::F2,
        0x3D => Key::F3,
        0x3E => Key::F4,
        0x3F => Key::F5,
        0x40 => Key::F6,
        0x41 => Key::F7,
        0x42 => Key::F8,
        0x43 => Key::F9,
        0x44 => Key::F10,
        0x45 => Key::NumLock,
        0x46 => Key::ScrollLock,
        0x57 => Key::F11,
        0x58 => Key::F12,
        other => Key::Unknown(other),
    }
}

/// Decodes an `0xE0`-prefixed Set 1 make code (high bit already stripped).
fn decode_extended_key(code: u8) -> (r: Key)
    ensures
        r == set1_extended_key(code),
{
    match code {
        0x1D => Key::RightCtrl,
        0x38 => Key::RightAlt,
        0x47 => Key::Home,
        0x48 => Key::Up,
        0x49 => Key::PageUp,
        0x4B => Key::Left,
        0x4D => Key::Right,
        0x4F => Key::End,
        0x50 => Key::Down,
        0x51 => Key::PageDown,
        0x52 => Key::Insert,
        0x53 => Key::Delete,
        other => Key::Unknown(other),
    }
}

/// The modifiers after `key` is pressed or released: shift/ctrl/alt follow
/// the key's state; caps lock toggles on a press only.
pub open spec fn apply_modifier_spec(m: Modifiers, key: Key, pressed: bool) -> Modifiers {
    match key {
        Key::LeftShift | Key::RightShift => Modifiers { shift: pressed, ..m },
        Key::LeftCtrl | Key::RightCtrl => Modifiers { ctrl: pressed, ..m },
        Key::LeftAlt | Key::RightAlt => Modifiers { alt: pressed, ..m },
        Key::CapsLock => if pressed { Modifiers { caps_lock: !m.caps_lock, ..m } } else { m },
        _ => m,
    }
}

/// The decoder's state after one byte, and the event it completes:
/// `0xE0` arms the extended prefix; `0xE1`, `0xFA` and `0xFE` are
/// swallowed and clear it; anything else completes a make/break event.
pub open spec fn feed_spec(m: Modifiers, pending: bool, byte: u8) -> (Modifiers, bool, Option<KeyEvent>) {
    if byte == 0xE0 {
        (m, true, None)
    } else if byte == 0xE1 || byte == 0xFA || byte == 0xFE {
        (m, false, None)
    } else {
        let pressed = byte < 0x80;
        let code = (byte % 0x80) as u8;
        let key = if pending { set1_extended_key(code) } else { set1_key(code) };
        let m2 = apply_modifier_spec(m, key, pressed);
        (m2, false, Some(KeyEvent { key, pressed, mods: m2 }))
    }
}

/// The Set 1 state machine.
pub struct Decoder {
    modifiers: Modifiers,
    /// Set by a bare `0xE0` byte, consumed by the very next byte fed.
    pending_extended: bool,
}

impl Decoder {
    pub closed spec fn mods(&self) -> Modifiers {
        self.modifiers
    }

    pub closed spec fn pending(&self) -> bool {
        self.pending_extended
    }

    /// A fresh decoder: no modifiers held, no pending prefix.
    pub fn new() -> (r: Self)
        ensures
            r.mods() == (Modifiers { shift: false, ctrl: false, alt: false, caps_lock: false }),
            !r.pending(),
    {
        Decoder { modifiers: Modifiers { shift: false, ctrl: false, alt: false, caps_lock: false }, pending_extended: false }
    }

    fn apply_modifier(&mut self, key: Key, pressed: bool)
        ensures
            final(self).modifiers == apply_modifier_spec(old(self).modifiers, key, pressed),
            final(self).pending_extended == old(self).pending_extended,
    {
        match key {
            Key::LeftShift | Key::RightShift => self.modifiers.shift = pressed,
            Key::LeftCtrl | Key::RightCtrl => self.modifiers.ctrl = pressed,
            Key::LeftAlt | Key::RightAlt => self.modifiers.alt = pressed,
            Key::CapsLock => {
                if pressed {
                    self.modifiers.caps_lock = !self.modifiers.caps_lock;
                }
            },
            _ => {},
        }
    }

    /// Feeds one raw byte from the data port. Returns a decoded `KeyEvent`
    /// once a full make/break code has been consumed.
    pub fn feed(&mut self, byte: u8) -> (r: Option<KeyEvent>)
        ensures
            (final(self).mods(), final(self).pending(), r) == feed_spec(old(self).mods(), old(self).pending(), byte),
    {
        if byte == 0xE0 {
            self.pending_extended = true;
            return None;
        }
        if byte == 0xE1 || byte == 0xFA || byte == 0xFE {
            self.pending_extended = false;
            return None;
        }
        let extended = self.pending_extended;
        self.pending_extended = false;
        let pressed = byte & 0x80 == 0;
        let code = byte & 0x7F;
        proof {
            assert((byte & 0x80 == 0) == (byte < 0x80) && byte & 0x7F == byte % 0x80) by (bit_vector);
        }
        let key = if extended { decode_extended_key(code) } else { decode_key(code) };
        self.apply_modifier(key, pressed);
        Some(KeyEvent { key, pressed, mods: self.modifiers })
    }
}

} // verus!
