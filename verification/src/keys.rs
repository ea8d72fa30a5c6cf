//! Keyboard keys that can be bound to actions, and the names bindings are saved under.
use vstd::prelude::*;
use crate::materials::str_eq;

verus! {

/// A physical key that the game can bind and persist.
#[derive(Clone, Copy, Debug, PartialEq, Eq, Structural, Hash)]
pub enum Key {
    KeyA,
    KeyB,
    KeyC,
    KeyD,
    KeyE,
    KeyF,
    KeyG,
    KeyH,
    KeyI,
    KeyJ,
    KeyK,
    KeyL,
    KeyM,
    KeyN,
    KeyO,
    KeyP,
    KeyQ,
    KeyR,
    KeyS,
    KeyT,
    KeyU,
    KeyV,
    KeyW,
    KeyX,
    KeyY,
    KeyZ,
    Digit0,
    Digit1,
    Digit2,
    Digit3,
    Digit4,
    Digit5,
    Digit6,
    Digit7,
    Digit8,
    Digit9,
    Numpad0,
    Numpad1,
    Numpad2,
    Numpad3,
    Numpad4,
    Numpad5,
    Numpad6,
    Numpad7,
    Numpad8,
    Numpad9,
    F1,
    F2,
    F3,
    F4,
    F5,
    F6,
    F7,
    F8,
    F9,
    F10,
    F11,
    F12,
    ArrowUp,
    ArrowDown,
    ArrowLeft,
    ArrowRight,
    Space,
    Escape,
    Enter,
    Tab,
    Backspace,
    Delete,
    Insert,
    Home,
    End,
    PageUp,
    PageDown,
    ShiftLeft,
    ShiftRight,
    ControlLeft,
    ControlRight,
    AltLeft,
    AltRight,
    Minus,
    Equal,
    BracketLeft,
    BracketRight,
    Semicolon,
    Quote,
    Backquote,
    Backslash,
    Comma,
    Period,
    Slash,
}

/// The name a key is saved under (its variant name).
pub open spec fn key_name_spec(k: Key) -> Seq<char> {
    match k {
        Key::KeyA => "KeyA"@,
        Key::KeyB => "KeyB"@,
        Key::KeyC => "KeyC"@,
        Key::KeyD => "KeyD"@,
        Key::KeyE => "KeyE"@,
        Key::KeyF => "KeyF"@,
        Key::KeyG => "KeyG"@,
        Key::KeyH => "KeyH"@,
        Key::KeyI => "KeyI"@,
        Key::KeyJ => "KeyJ"@,
        Key::KeyK => "KeyK"@,
        Key::KeyL => "KeyL"@,
        Key::KeyM => "KeyM"@,
        Key::KeyN => "KeyN"@,
        Key::KeyO => "KeyO"@,
        Key::KeyP => "KeyP"@,
        Key::KeyQ => "KeyQ"@,
        Key::KeyR => "KeyR"@,
        Key::KeyS => "KeyS"@,
        Key::KeyT => "KeyT"@,
        Key::KeyU => "KeyU"@,
        Key::KeyV => "KeyV"@,
        Key::KeyW => "KeyW"@,
        Key::KeyX => "KeyX"@,
        Key::KeyY => "KeyY"@,
        Key::KeyZ => "KeyZ"@,
        Key::Digit0 => "Digit0"@,
        Key::Digit1 => "Digit1"@,
        Key::Digit2 => "Digit2"@,
        Key::Digit3 => "Digit3"@,
        Key::Digit4 => "Digit4"@,
        Key::Digit5 => "Digit5"@,
        Key::Digit6 => "Digit6"@,
        Key::Digit7 => "Digit7"@,
        Key::Digit8 => "Digit8"@,
        Key::Digit9 => "Digit9"@,
        Key::Numpad0 => "Numpad0"@,
        Key::Numpad1 => "Numpad1"@,
        Key::Numpad2 => "Numpad2"@,
        Key::Numpad3 => "Numpad3"@,
        Key::Numpad4 => "Numpad4"@,
        Key::Numpad5 => "Numpad5"@,
        Key::Numpad6 => "Numpad6"@,
        Key::Numpad7 => "Numpad7"@,
        Key::Numpad8 => "Numpad8"@,
        Key::Numpad9 => "Numpad9"@,
        Key::F1 => "F1"@,
        Key::F2 => "F2"@,
        Key::F3 => "F3"@,
        Key::F4 => "F4"@,
        Key::F5 => "F5"@,
        Key::F6 => "F6"@,
        Key::F7 => "F7"@,
        Key::F8 => "F8"@,
        Key::F9 => "F9"@,
        Key::F10 => "F10"@,
        Key::F11 => "F11"@,
        Key::F12 => "F12"@,
        Key::ArrowUp => "ArrowUp"@,
        Key::ArrowDown => "ArrowDown"@,
        Key::ArrowLeft => "ArrowLeft"@,
        Key::ArrowRight => "ArrowRight"@,
        Key::Space => "Space"@,
        Key::Escape => "Escape"@,
        Key::Enter => "Enter"@,
        Key::Tab => "Tab"@,
        Key::Backspace => "Backspace"@,
        Key::Delete => "Delete"@,
        Key::Insert => "Insert"@,
        Key::Home => "Home"@,
        Key::End => "End"@,
        Key::PageUp => "PageUp"@,
        Key::PageDown => "PageDown"@,
        Key::ShiftLeft => "ShiftLeft"@,
        Key::ShiftRight => "ShiftRight"@,
        Key::ControlLeft => "ControlLeft"@,
        Key::ControlRight => "ControlRight"@,
        Key::AltLeft => "AltLeft"@,
        Key::AltRight => "AltRight"@,
        Key::Minus => "Minus"@,
        Key::Equal => "Equal"@,
        Key::BracketLeft => "BracketLeft"@,
        Key::BracketRight => "BracketRight"@,
        Key::Semicolon => "Semicolon"@,
        Key::Quote => "Quote"@,
        Key::Backquote => "Backquote"@,
        Key::Backslash => "Backslash"@,
        Key::Comma => "Comma"@,
        Key::Period => "Period"@,
        Key::Slash => "Slash"@,
    }
}

/// The key saved under `s`: the first key whose name is `s`, or `None`.
pub open spec fn parse_key_spec(s: Seq<char>) -> Option<Key> {
    if s == "KeyA"@ {
        Some(Key::KeyA)
    } else if s == "KeyB"@ {
        Some(Key::KeyB)
    } else if s == "KeyC"@ {
        Some(Key::KeyC)
    } else if s == "KeyD"@ {
        Some(Key::KeyD)
    } else if s == "KeyE"@ {
        Some(Key::KeyE)
    } else if s == "KeyF"@ {
        Some(Key::KeyF)
    } else if s == "KeyG"@ {
        Some(Key::KeyG)
    } else if s == "KeyH"@ {
        Some(Key::KeyH)
    } else if s == "KeyI"@ {
        Some(Key::KeyI)
    } else if s == "KeyJ"@ {
        Some(Key::KeyJ)
    } else if s == "KeyK"@ {
        Some(Key::KeyK)
    } else if s == "KeyL"@ {
        Some(Key::KeyL)
    } else if s == "KeyM"@ {
        Some(Key::KeyM)
    } else if s == "KeyN"@ {
        Some(Key::KeyN)
    } else if s == "KeyO"@ {
        Some(Key::KeyO)
    } else if s == "KeyP"@ {
        Some(Key::KeyP)
    } else if s == "KeyQ"@ {
        Some(Key::KeyQ)
    } else if s == "KeyR"@ {
        Some(Key::KeyR)
    } else if s == "KeyS"@ {
        Some(Key::KeyS)
    } else if s == "KeyT"@ {
        Some(Key::KeyT)
    } else if s == "KeyU"@ {
        Some(Key::KeyU)
    } else if s == "KeyV"@ {
        Some(Key::KeyV)
    } else if s == "KeyW"@ {
        Some(Key::KeyW)
    } else if s == "KeyX"@ {
        Some(Key::KeyX)
    } else if s == "KeyY"@ {
        Some(Key::KeyY)
    } else if s == "KeyZ"@ {
        Some(Key::KeyZ)
    } else if s == "Digit0"@ {
        Some(Key::Digit0)
    } else if s == "Digit1"@ {
        Some(Key::Digit1)
    } else if s == "Digit2"@ {
        Some(Key::Digit2)
    } else if s == "Digit3"@ {
        Some(Key::Digit3)
    } else if s == "Digit4"@ {
        Some(Key::Digit4)
    } else if s == "Digit5"@ {
        Some(Key::Digit5)
    } else if s == "Digit6"@ {
        Some(Key::Digit6)
    } else if s == "Digit7"@ {
        Some(Key::Digit7)
    } else if s == "Digit8"@ {
        Some(Key::Digit8)
    } else if s == "Digit9"@ {
        Some(Key::Digit9)
    } else if s == "Numpad0"@ {
        Some(Key::Numpad0)
    } else if s == "Numpad1"@ {
        Some(Key::Numpad1)
    } else if s == "Numpad2"@ {
        Some(Key::Numpad2)
    } else if s == "Numpad3"@ {
        Some(Key::Numpad3)
    } else if s == "Numpad4"@ {
        Some(Key::Numpad4)
    } else if s == "Numpad5"@ {
        Some(Key::Numpad5)
    } else if s == "Numpad6"@ {
        Some(Key::Numpad6)
    } else if s == "Numpad7"@ {
        Some(Key::Numpad7)
    } else if s == "Numpad8"@ {
        Some(Key::Numpad8)
    } else if s == "Numpad9"@ {
        Some(Key::Numpad9)
    } else if s == "F1"@ {
        Some(Key::F1)
    } else if s == "F2"@ {
        Some(Key::F2)
    } else if s == "F3"@ {
        Some(Key::F3)
    } else if s == "F4"@ {
        Some(Key::F4)
    } else if s == "F5"@ {
        Some(Key::F5)
    } else if s == "F6"@ {
        Some(Key::F6)
    } else if s == "F7"@ {
        Some(Key::F7)
    } else if s == "F8"@ {
        Some(Key::F8)
    } else if s == "F9"@ {
        Some(Key::F9)
    } else if s == "F10"@ {
        Some(Key::F10)
    } else if s == "F11"@ {
        Some(Key::F11)
    } else if s == "F12"@ {
        Some(Key::F12)
    } else if s == "ArrowUp"@ {
        Some(Key::ArrowUp)
    } else if s == "ArrowDown"@ {
        Some(Key::ArrowDown)
    } else if s == "ArrowLeft"@ {
        Some(Key::ArrowLeft)
    } else if s == "ArrowRight"@ {
        Some(Key::ArrowRight)
    } else if s == "Space"@ {
        Some(Key::Space)
    } else if s == "Escape"@ {
        Some(Key::Escape)
    } else if s == "Enter"@ {
        Some(Key::Enter)
    } else if s == "Tab"@ {
        Some(Key::Tab)
    } else if s == "Backspace"@ {
        Some(Key::Backspace)
    } else if s == "Delete"@ {
        Some(Key::Delete)
    } else if s == "Insert"@ {
        Some(Key::Insert)
    } else if s == "Home"@ {
        Some(Key::Home)
    } else if s == "End"@ {
        Some(Key::End)
    } else if s == "PageUp"@ {
        Some(Key::PageUp)
    } else if s == "PageDown"@ {
        Some(Key::PageDown)
    } else if s == "ShiftLeft"@ {
        Some(Key::ShiftLeft)
    } else if s == "ShiftRight"@ {
        Some(Key::ShiftRight)
    } else if s == "ControlLeft"@ {
        Some(Key::ControlLeft)
    } else if s == "ControlRight"@ {
        Some(Key::ControlRight)
    } else if s == "AltLeft"@ {
        Some(Key::AltLeft)
    } else if s == "AltRight"@ {
        Some(Key::AltRight)
    } else if s == "Minus"@ {
        Some(Key::Minus)
    } else if s == "Equal"@ {
        Some(Key::Equal)
    } else if s == "BracketLeft"@ {
        Some(Key::BracketLeft)
    } else if s == "BracketRight"@ {
        Some(Key::BracketRight)
    } else if s == "Semicolon"@ {
        Some(Key::Semicolon)
    } else if s == "Quote"@ {
        Some(Key::Quote)
    } else if s == "Backquote"@ {
        Some(Key::Backquote)
    } else if s == "Backslash"@ {
        Some(Key::Backslash)
    } else if s == "Comma"@ {
        Some(Key::Comma)
    } else if s == "Period"@ {
        Some(Key::Period)
    } else if s == "Slash"@ {
        Some(Key::Slash)
    } else {
        None
    }
}

/// The name a key is saved under.
pub fn key_name(k: Key) -> (r: String)
    ensures
        r@ == key_name_spec(k),
{
    let s: &str = match k {
        Key::KeyA => "KeyA",
        Key::KeyB => "KeyB",
        Key::KeyC => "KeyC",
        Key::KeyD => "KeyD",
        Key::KeyE => "KeyE",
        Key::KeyF => "KeyF",
        Key::KeyG => "KeyG",
        Key::KeyH => "KeyH",
        Key::KeyI => "KeyI",
        Key::KeyJ => "KeyJ",
        Key::KeyK => "KeyK",
        Key::KeyL => "KeyL",
        Key::KeyM => "KeyM",
        Key::KeyN => "KeyN",
        Key::KeyO => "KeyO",
        Key::KeyP => "KeyP",
        Key::KeyQ => "KeyQ",
        Key::KeyR => "KeyR",
        Key::KeyS => "KeyS",
        Key::KeyT => "KeyT",
        Key::KeyU => "KeyU",
        Key::KeyV => "KeyV",
        Key::KeyW => "KeyW",
        Key::KeyX => "KeyX",
        Key::KeyY => "KeyY",
        Key::KeyZ => "KeyZ",
        Key::Digit0 => "Digit0",
        Key::Digit1 => "Digit1",
        Key::Digit2 => "Digit2",
        Key::Digit3 => "Digit3",
        Key::Digit4 => "Digit4",
        Key::Digit5 => "Digit5",
        Key::Digit6 => "Digit6",
        Key::Digit7 => "Digit7",
        Key::Digit8 => "Digit8",
        Key::Digit9 => "Digit9",
        Key::Numpad0 => "Numpad0",
        Key::Numpad1 => "Numpad1",
        Key::Numpad2 => "Numpad2",
        Key::Numpad3 => "Numpad3",
        Key::Numpad4 => "Numpad4",
        Key::Numpad5 => "Numpad5",
        Key::Numpad6 => "Numpad6",
        Key::Numpad7 => "Numpad7",
        Key::Numpad8 => "Numpad8",
        Key::Numpad9 => "Numpad9",
        Key::F1 => "F1",
        Key::F2 => "F2",
        Key::F3 => "F3",
        Key::F4 => "F4",
        Key::F5 => "F5",
        Key::F6 => "F6",
        Key::F7 => "F7",
        Key::F8 => "F8",
        Key::F9 => "F9",
        Key::F10 => "F10",
        Key::F11 => "F11",
        Key::F12 => "F12",
        Key::ArrowUp => "ArrowUp",
        Key::ArrowDown => "ArrowDown",
        Key::ArrowLeft => "ArrowLeft",
        Key::ArrowRight => "ArrowRight",
        Key::Space => "Space",
        Key::Escape => "Escape",
        Key::Enter => "Enter",
        Key::Tab => "Tab",
        Key::Backspace => "Backspace",
        Key::Delete => "Delete",
        Key::Insert => "Insert",
        Key::Home => "Home",
        Key::End => "End",
        Key::PageUp => "PageUp",
        Key::PageDown => "PageDown",
        Key::ShiftLeft => "ShiftLeft",
        Key::ShiftRight => "ShiftRight",
        Key::ControlLeft => "ControlLeft",
        Key::ControlRight => "ControlRight",
        Key::AltLeft => "AltLeft",
        Key::AltRight => "AltRight",
        Key::Minus => "Minus",
        Key::Equal => "Equal",
        Key::BracketLeft => "BracketLeft",
        Key::BracketRight => "BracketRight",
        Key::Semicolon => "Semicolon",
        Key::Quote => "Quote",
        Key::Backquote => "Backquote",
        Key::Backslash => "Backslash",
        Key::Comma => "Comma",
        Key::Period => "Period",
        Key::Slash => "Slash",
    };
    s.to_owned()
}

/// The key saved under `s`; `None` for a name that is not a key.
pub fn parse_key(s: &str) -> (r: Option<Key>)
    ensures
        r == parse_key_spec(s@),
{
    if str_eq(s, "KeyA") {
        return Some(Key::KeyA);
    }
    if str_eq(s, "KeyB") {
        return Some(Key::KeyB);
    }
    if str_eq(s, "KeyC") {
        return Some(Key::KeyC);
    }
    if str_eq(s, "KeyD") {
        return Some(Key::KeyD);
    }
    if str_eq(s, "KeyE") {
        return Some(Key::KeyE);
    }
    if str_eq(s, "KeyF") {
        return Some(Key::KeyF);
    }
    if str_eq(s, "KeyG") {
        return Some(Key::KeyG);
    }
    if str_eq(s, "KeyH") {
        return Some(Key::KeyH);
    }
    if str_eq(s, "KeyI") {
        return Some(Key::KeyI);
    }
    if str_eq(s, "KeyJ") {
        return Some(Key::KeyJ);
    }
    if str_eq(s, "KeyK") {
        return Some(Key::KeyK);
    }
    if str_eq(s, "KeyL") {
        return Some(Key::KeyL);
    }
    if str_eq(s, "KeyM") {
        return Some(Key::KeyM);
    }
    if str_eq(s, "KeyN") {
        return Some(Key::KeyN);
    }
    if str_eq(s, "KeyO") {
        return Some(Key::KeyO);
    }
    if str_eq(s, "KeyP") {
        return Some(Key::KeyP);
    }
    if str_eq(s, "KeyQ") {
        return Some(Key::KeyQ);
    }
    if str_eq(s, "KeyR") {
        return Some(Key::KeyR);
    }
    if str_eq(s, "KeyS") {
        return Some(Key::KeyS);
    }
    if str_eq(s, "KeyT") {
        return Some(Key::KeyT);
    }
    if str_eq(s, "KeyU") {
        return Some(Key::KeyU);
    }
    if str_eq(s, "KeyV") {
        return Some(Key::KeyV);
    }
    if str_eq(s, "KeyW") {
        return Some(Key::KeyW);
    }
    if str_eq(s, "KeyX") {
        return Some(Key::KeyX);
    }
    if str_eq(s, "KeyY") {
        return Some(Key::KeyY);
    }
    if str_eq(s, "KeyZ") {
        return Some(Key::KeyZ);
    }
    if str_eq(s, "Digit0") {
        return Some(Key::Digit0);
    }
    if str_eq(s, "Digit1") {
        return Some(Key::Digit1);
    }
    if str_eq(s, "Digit2") {
        return Some(Key::Digit2);
    }
    if str_eq(s, "Digit3") {
        return Some(Key::Digit3);
    }
    if str_eq(s, "Digit4") {
        return Some(Key::Digit4);
    }
    if str_eq(s, "Digit5") {
        return Some(Key::Digit5);
    }
    if str_eq(s, "Digit6") {
        return Some(Key::Digit6);
    }
    if str_eq(s, "Digit7") {
        return Some(Key::Digit7);
    }
    if str_eq(s, "Digit8") {
        return Some(Key::Digit8);
    }
    if str_eq(s, "Digit9") {
        return Some(Key::Digit9);
    }
    if str_eq(s, "Numpad0") {
        return Some(Key::Numpad0);
    }
    if str_eq(s, "Numpad1") {
        return Some(Key::Numpad1);
    }
    if str_eq(s, "Numpad2") {
        return Some(Key::Numpad2);
    }
    if str_eq(s, "Numpad3") {
        return Some(Key::Numpad3);
    }
    if str_eq(s, "Numpad4") {
        return Some(Key::Numpad4);
    }
    if str_eq(s, "Numpad5") {
        return Some(Key::Numpad5);
    }
    if str_eq(s, "Numpad6") {
        return Some(Key::Numpad6);
    }
    if str_eq(s, "Numpad7") {
        return Some(Key::Numpad7);
    }
    if str_eq(s, "Numpad8") {
        return Some(Key::Numpad8);
    }
    if str_eq(s, "Numpad9") {
        return Some(Key::Numpad9);
    }
    if str_eq(s, "F1") {
        return Some(Key::F1);
    }
    if str_eq(s, "F2") {
        return Some(Key::F2);
    }
    if str_eq(s, "F3") {
        return Some(Key::F3);
    }
    if str_eq(s, "F4") {
        return Some(Key::F4);
    }
    if str_eq(s, "F5") {
        return Some(Key::F5);
    }
    if str_eq(s, "F6") {
        return Some(Key::F6);
    }
    if str_eq(s, "F7") {
        return Some(Key::F7);
    }
    if str_eq(s, "F8") {
        return Some(Key::F8);
    }
    if str_eq(s, "F9") {
        return Some(Key::F9);
    }
    if str_eq(s, "F10") {
        return Some(Key::F10);
    }
    if str_eq(s, "F11") {
        return Some(Key::F11);
    }
    if str_eq(s, "F12") {
        return Some(Key::F12);
    }
    if str_eq(s, "ArrowUp") {
        return Some(Key::ArrowUp);
    }
    if str_eq(s, "ArrowDown") {
        return Some(Key::ArrowDown);
    }
    if str_eq(s, "ArrowLeft") {
        return Some(Key::ArrowLeft);
    }
    if str_eq(s, "ArrowRight") {
        return Some(Key::ArrowRight);
    }
    if str_eq(s, "Space") {
        return Some(Key::Space);
    }
    if str_eq(s, "Escape") {
        return Some(Key::Escape);
    }
    if str_eq(s, "Enter") {
        return Some(Key::Enter);
    }
    if str_eq(s, "Tab") {
        return Some(Key::Tab);
    }
    if str_eq(s, "Backspace") {
        return Some(Key::Backspace);
    }
    if str_eq(s, "Delete") {
        return Some(Key::Delete);
    }
    if str_eq(s, "Insert") {
        return Some(Key::Insert);
    }
    if str_eq(s, "Home") {
        return Some(Key::Home);
    }
    if str_eq(s, "End") {
        return Some(Key::End);
    }
    if str_eq(s, "PageUp") {
        return Some(Key::PageUp);
    }
    if str_eq(s, "PageDown") {
        return Some(Key::PageDown);
    }
    if str_eq(s, "ShiftLeft") {
        return Some(Key::ShiftLeft);
    }
    if str_eq(s, "ShiftRight") {
        return Some(Key::ShiftRight);
    }
    if str_eq(s, "ControlLeft") {
        return Some(Key::ControlLeft);
    }
    if str_eq(s, "ControlRight") {
        return Some(Key::ControlRight);
    }
    if str_eq(s, "AltLeft") {
        return Some(Key::AltLeft);
    }
    if str_eq(s, "AltRight") {
        return Some(Key::AltRight);
    }
    if str_eq(s, "Minus") {
        return Some(Key::Minus);
    }
    if str_eq(s, "Equal") {
        return Some(Key::Equal);
    }
    if str_eq(s, "BracketLeft") {
        return Some(Key::BracketLeft);
    }
    if str_eq(s, "BracketRight") {
        return Some(Key::BracketRight);
    }
    if str_eq(s, "Semicolon") {
        return Some(Key::Semicolon);
    }
    if str_eq(s, "Quote") {
        return Some(Key::Quote);
    }
    if str_eq(s, "Backquote") {
        return Some(Key::Backquote);
    }
    if str_eq(s, "Backslash") {
        return Some(Key::Backslash);
    }
    if str_eq(s, "Comma") {
        return Some(Key::Comma);
    }
    if str_eq(s, "Period") {
        return Some(Key::Period);
    }
    if str_eq(s, "Slash") {
        return Some(Key::Slash);
    }
    None
}

/// Facts about the characters of every key name, enough to tell any two apart.
proof fn lemma_key_names_differ()
    ensures
        "KeyA"@.len() == 4,
        "KeyA"@[0] == 'K',
        "KeyA"@[3] == 'A',
        "KeyA"@[1] == 'e',
        "KeyB"@.len() == 4,
        "KeyB"@[0] == 'K',
        "KeyB"@[3] == 'B',
        "KeyB"@[1] == 'e',
        "KeyC"@.len() == 4,
        "KeyC"@[0] == 'K',
        "KeyC"@[3] == 'C',
        "KeyC"@[1] == 'e',
        "KeyD"@.len() == 4,
        "KeyD"@[0] == 'K',
        "KeyD"@[3] == 'D',
        "KeyD"@[1] == 'e',
        "KeyE"@.len() == 4,
        "KeyE"@[0] == 'K',
        "KeyE"@[3] == 'E',
        "KeyE"@[1] == 'e',
        "KeyF"@.len() == 4,
        "KeyF"@[0] == 'K',
        "KeyF"@[3] == 'F',
        "KeyF"@[1] == 'e',
        "KeyG"@.len() == 4,
        "KeyG"@[0] == 'K',
        "KeyG"@[3] == 'G',
        "KeyG"@[1] == 'e',
        "KeyH"@.len() == 4,
        "KeyH"@[0] == 'K',
        "KeyH"@[3] == 'H',
        "KeyH"@[1] == 'e',
        "KeyI"@.len() == 4,
        "KeyI"@[0] == 'K',
        "KeyI"@[3] == 'I',
        "KeyI"@[1] == 'e',
        "KeyJ"@.len() == 4,
        "KeyJ"@[0] == 'K',
        "KeyJ"@[3] == 'J',
        "KeyJ"@[1] == 'e',
        "KeyK"@.len() == 4,
        "KeyK"@[0] == 'K',
        "KeyK"@[3] == 'K',
        "KeyK"@[1] == 'e',
        "KeyL"@.len() == 4,
        "KeyL"@[0] == 'K',
        "KeyL"@[3] == 'L',
        "KeyL"@[1] == 'e',
        "KeyM"@.len() == 4,
        "KeyM"@[0] == 'K',
        "KeyM"@[3] == 'M',
        "KeyM"@[1] == 'e',
        "KeyN"@.len() == 4,
        "KeyN"@[0] == 'K',
        "KeyN"@[3] == 'N',
        "KeyN"@[1] == 'e',
        "KeyO"@.len() == 4,
        "KeyO"@[0] == 'K',
        "KeyO"@[3] == 'O',
        "KeyO"@[1] == 'e',
        "KeyP"@.len() == 4,
        "KeyP"@[0] == 'K',
        "KeyP"@[3] == 'P',
        "KeyP"@[1] == 'e',
        "KeyQ"@.len() == 4,
        "KeyQ"@[0] == 'K',
        "KeyQ"@[3] == 'Q',
        "KeyQ"@[1] == 'e',
        "KeyR"@.len() == 4,
        "KeyR"@[0] == 'K',
        "KeyR"@[3] == 'R',
        "KeyR"@[1] == 'e',
        "KeyS"@.len() == 4,
        "KeyS"@[0] == 'K',
        "KeyS"@[3] == 'S',
        "KeyS"@[1] == 'e',
        "KeyT"@.len() == 4,
        "KeyT"@[0] == 'K',
        "KeyT"@[3] == 'T',
        "KeyT"@[1] == 'e',
        "KeyU"@.len() == 4,
        "KeyU"@[0] == 'K',
        "KeyU"@[3] == 'U',
        "KeyU"@[1] == 'e',
        "KeyV"@.len() == 4,
        "KeyV"@[0] == 'K',
        "KeyV"@[3] == 'V',
        "KeyV"@[1] == 'e',
        "KeyW"@.len() == 4,
        "KeyW"@[0] == 'K',
        "KeyW"@[3] == 'W',
        "KeyW"@[1] == 'e',
        "KeyX"@.len() == 4,
        "KeyX"@[0] == 'K',
        "KeyX"@[3] == 'X',
        "KeyX"@[1] == 'e',
        "KeyY"@.len() == 4,
        "KeyY"@[0] == 'K',
        "KeyY"@[3] == 'Y',
        "KeyY"@[1] == 'e',
        "KeyZ"@.len() == 4,
        "KeyZ"@[0] == 'K',
        "KeyZ"@[3] == 'Z',
        "KeyZ"@[1] == 'e',
        "Digit0"@.len() == 6,
        "Digit0"@[0] == 'D',
        "Digit0"@[5] == '0',
        "Digit0"@[4] == 't',
        "Digit0"@[1] == 'i',
        "Digit1"@.len() == 6,
        "Digit1"@[0] == 'D',
        "Digit1"@[5] == '1',
        "Digit1"@[4] == 't',
        "Digit1"@[1] == 'i',
        "Digit2"@.len() == 6,
        "Digit2"@[0] == 'D',
        "Digit2"@[5] == '2',
        "Digit2"@[4] == 't',
        "Digit2"@[1] == 'i',
        "Digit3"@.len() == 6,
        "Digit3"@[0] == 'D',
        "Digit3"@[5] == '3',
        "Digit3"@[4] == 't',
        "Digit3"@[1] == 'i',
        "Digit4"@.len() == 6,
        "Digit4"@[0] == 'D',
        "Digit4"@[5] == '4',
        "Digit4"@[4] == 't',
        "Digit4"@[1] == 'i',
        "Digit5"@.len() == 6,
        "Digit5"@[0] == 'D',
        "Digit5"@[5] == '5',
        "Digit5"@[4] == 't',
        "Digit5"@[1] == 'i',
        "Digit6"@.len() == 6,
        "Digit6"@[0] == 'D',
        "Digit6"@[5] == '6',
        "Digit6"@[4] == 't',
        "Digit6"@[1] == 'i',
        "Digit7"@.len() == 6,
        "Digit7"@[0] == 'D',
        "Digit7"@[5] == '7',
        "Digit7"@[4] == 't',
        "Digit7"@[1] == 'i',
        "Digit8"@.len() == 6,
        "Digit8"@[0] == 'D',
        "Digit8"@[5] == '8',
        "Digit8"@[4] == 't',
        "Digit8"@[1] == 'i',
        "Digit9"@.len() == 6,
        "Digit9"@[0] == 'D',
        "Digit9"@[5] == '9',
        "Digit9"@[4] == 't',
        "Digit9"@[1] == 'i',
        "Numpad0"@.len() == 7,
        "Numpad0"@[0] == 'N',
        "Numpad0"@[6] == '0',
        "Numpad0"@[4] == 'a',
        "Numpad0"@[1] == 'u',
        "Numpad1"@.len() == 7,
        "Numpad1"@[0] == 'N',
        "Numpad1"@[6] == '1',
        "Numpad1"@[4] == 'a',
        "Numpad1"@[1] == 'u',
        "Numpad2"@.len() == 7,
        "Numpad2"@[0] == 'N',
        "Numpad2"@[6] == '2',
        "Numpad2"@[4] == 'a',
        "Numpad2"@[1] == 'u',
        "Numpad3"@.len() == 7,
        "Numpad3"@[0] == 'N',
        "Numpad3"@[6] == '3',
        "Numpad3"@[4] == 'a',
        "Numpad3"@[1] == 'u',
        "Numpad4"@.len() == 7,
        "Numpad4"@[0] == 'N',
        "Numpad4"@[6] == '4',
        "Numpad4"@[4] == 'a',
        "Numpad4"@[1] == 'u',
        "Numpad5"@.len() == 7,
        "Numpad5"@[0] == 'N',
        "Numpad5"@[6] == '5',
        "Numpad5"@[4] == 'a',
        "Numpad5"@[1] == 'u',
        "Numpad6"@.len() == 7,
        "Numpad6"@[0] == 'N',
        "Numpad6"@[6] == '6',
        "Numpad6"@[4] == 'a',
        "Numpad6"@[1] == 'u',
        "Numpad7"@.len() == 7,
        "Numpad7"@[0] == 'N',
        "Numpad7"@[6] == '7',
        "Numpad7"@[4] == 'a',
        "Numpad7"@[1] == 'u',
        "Numpad8"@.len() == 7,
        "Numpad8"@[0] == 'N',
        "Numpad8"@[6] == '8',
        "Numpad8"@[4] == 'a',
        "Numpad8"@[1] == 'u',
        "Numpad9"@.len() == 7,
        "Numpad9"@[0] == 'N',
        "Numpad9"@[6] == '9',
        "Numpad9"@[4] == 'a',
        "Numpad9"@[1] == 'u',
        "F1"@.len() == 2,
        "F1"@[0] == 'F',
        "F1"@[1] == '1',
        "F1"@[1] == '1',
        "F2"@.len() == 2,
        "F2"@[0] == 'F',
        "F2"@[1] == '2',
        "F2"@[1] == '2',
        "F3"@.len() == 2,
        "F3"@[0] == 'F',
        "F3"@[1] == '3',
        "F3"@[1] == '3',
        "F4"@.len() == 2,
        "F4"@[0] == 'F',
        "F4"@[1] == '4',
        "F4"@[1] == '4',
        "F5"@.len() == 2,
        "F5"@[0] == 'F',
        "F5"@[1] == '5',
        "F5"@[1] == '5',
        "F6"@.len() == 2,
        "F6"@[0] == 'F',
        "F6"@[1] == '6',
        "F6"@[1] == '6',
        "F7"@.len() == 2,
        "F7"@[0] == 'F',
        "F7"@[1] == '7',
        "F7"@[1] == '7',
        "F8"@.len() == 2,
        "F8"@[0] == 'F',
        "F8"@[1] == '8',
        "F8"@[1] == '8',
        "F9"@.len() == 2,
        "F9"@[0] == 'F',
        "F9"@[1] == '9',
        "F9"@[1] == '9',
        "F10"@.len() == 3,
        "F10"@[0] == 'F',
        "F10"@[2] == '0',
        "F10"@[1] == '1',
        "F11"@.len() == 3,
        "F11"@[0] == 'F',
        "F11"@[2] == '1',
        "F11"@[1] == '1',
        "F12"@.len() == 3,
        "F12"@[0] == 'F',
        "F12"@[2] == '2',
        "F12"@[1] == '1',
        "ArrowUp"@.len() == 7,
        "ArrowUp"@[0] == 'A',
        "ArrowUp"@[6] == 'p',
        "ArrowUp"@[4] == 'w',
        "ArrowUp"@[1] == 'r',
        "ArrowDown"@.len() == 9,
        "ArrowDown"@[0] == 'A',
        "ArrowDown"@[8] == 'n',
        "ArrowDown"@[4] == 'w',
        "ArrowDown"@[1] == 'r',
        "ArrowLeft"@.len() == 9,
        "ArrowLeft"@[0] == 'A',
        "ArrowLeft"@[8] == 't',
        "ArrowLeft"@[4] == 'w',
        "ArrowLeft"@[1] == 'r',
        "ArrowRight"@.len() == 10,
        "ArrowRight"@[0] == 'A',
        "ArrowRight"@[9] == 't',
        "ArrowRight"@[4] == 'w',
        "ArrowRight"@[1] == 'r',
        "Space"@.len() == 5,
        "Space"@[0] == 'S',
        "Space"@[4] == 'e',
        "Space"@[4] == 'e',
        "Space"@[1] == 'p',
        "Escape"@.len() == 6,
        "Escape"@[0] == 'E',
        "Escape"@[5] == 'e',
        "Escape"@[4] == 'p',
        "Escape"@[1] == 's',
        "Enter"@.len() == 5,
        "Enter"@[0] == 'E',
        "Enter"@[4] == 'r',
        "Enter"@[4] == 'r',
        "Enter"@[1] == 'n',
        "Tab"@.len() == 3,
        "Tab"@[0] == 'T',
        "Tab"@[2] == 'b',
        "Tab"@[1] == 'a',
        "Backspace"@.len() == 9,
        "Backspace"@[0] == 'B',
        "Backspace"@[8] == 'e',
        "Backspace"@[4] == 's',
        "Backspace"@[1] == 'a',
        "Delete"@.len() == 6,
        "Delete"@[0] == 'D',
        "Delete"@[5] == 'e',
        "Delete"@[4] == 't',
        "Delete"@[1] == 'e',
        "Insert"@.len() == 6,
        "Insert"@[0] == 'I',
        "Insert"@[5] == 't',
        "Insert"@[4] == 'r',
        "Insert"@[1] == 'n',
        "Home"@.len() == 4,
        "Home"@[0] == 'H',
        "Home"@[3] == 'e',
        "Home"@[1] == 'o',
        "End"@.len() == 3,
        "End"@[0] == 'E',
        "End"@[2] == 'd',
        "End"@[1] == 'n',
        "PageUp"@.len() == 6,
        "PageUp"@[0] == 'P',
        "PageUp"@[5] == 'p',
        "PageUp"@[4] == 'U',
        "PageUp"@[1] == 'a',
        "PageDown"@.len() == 8,
        "PageDown"@[0] == 'P',
        "PageDown"@[7] == 'n',
        "PageDown"@[4] == 'D',
        "PageDown"@[1] == 'a',
        "ShiftLeft"@.len() == 9,
        "ShiftLeft"@[0] == 'S',
        "ShiftLeft"@[8] == 't',
        "ShiftLeft"@[4] == 't',
        "ShiftLeft"@[1] == 'h',
        "ShiftRight"@.len() == 10,
        "ShiftRight"@[0] == 'S',
        "ShiftRight"@[9] == 't',
        "ShiftRight"@[4] == 't',
        "ShiftRight"@[1] == 'h',
        "ControlLeft"@.len() == 11,
        "ControlLeft"@[0] == 'C',
        "ControlLeft"@[10] == 't',
        "ControlLeft"@[4] == 'r',
        "ControlLeft"@[1] == 'o',
        "ControlRight"@.len() == 12,
        "ControlRight"@[0] == 'C',
        "ControlRight"@[11] == 't',
        "ControlRight"@[4] == 'r',
        "ControlRight"@[1] == 'o',
        "AltLeft"@.len() == 7,
        "AltLeft"@[0] == 'A',
        "AltLeft"@[6] == 't',
        "AltLeft"@[4] == 'e',
        "AltLeft"@[1] == 'l',
        "AltRight"@.len() == 8,
        "AltRight"@[0] == 'A',
        "AltRight"@[7] == 't',
        "AltRight"@[4] == 'i',
        "AltRight"@[1] == 'l',
        "Minus"@.len() == 5,
        "Minus"@[0] == 'M',
        "Minus"@[4] == 's',
        "Minus"@[4] == 's',
        "Minus"@[1] == 'i',
        "Equal"@.len() == 5,
        "Equal"@[0] == 'E',
        "Equal"@[4] == 'l',
        "Equal"@[4] == 'l',
        "Equal"@[1] == 'q',
        "BracketLeft"@.len() == 11,
        "BracketLeft"@[0] == 'B',
        "BracketLeft"@[10] == 't',
        "BracketLeft"@[4] == 'k',
        "BracketLeft"@[1] == 'r',
        "BracketRight"@.len() == 12,
        "BracketRight"@[0] == 'B',
        "BracketRight"@[11] == 't',
        "BracketRight"@[4] == 'k',
        "BracketRight"@[1] == 'r',
        "Semicolon"@.len() == 9,
        "Semicolon"@[0] == 'S',
        "Semicolon"@[8] == 'n',
        "Semicolon"@[4] == 'c',
        "Semicolon"@[1] == 'e',
        "Quote"@.len() == 5,
        "Quote"@[0] == 'Q',
        "Quote"@[4] == 'e',
        "Quote"@[4] == 'e',
        "Quote"@[1] == 'u',
        "Backquote"@.len() == 9,
        "Backquote"@[0] == 'B',
        "Backquote"@[8] == 'e',
        "Backquote"@[4] == 'q',
        "Backquote"@[1] == 'a',
        "Backslash"@.len() == 9,
        "Backslash"@[0] == 'B',
        "Backslash"@[8] == 'h',
        "Backslash"@[4] == 's',
        "Backslash"@[1] == 'a',
        "Comma"@.len() == 5,
        "Comma"@[0] == 'C',
        "Comma"@[4] == 'a',
        "Comma"@[4] == 'a',
        "Comma"@[1] == 'o',
        "Period"@.len() == 6,
        "Period"@[0] == 'P',
        "Period"@[5] == 'd',
        "Period"@[4] == 'o',
        "Period"@[1] == 'e',
        "Slash"@.len() == 5,
        "Slash"@[0] == 'S',
        "Slash"@[4] == 'h',
        "Slash"@[4] == 'h',
        "Slash"@[1] == 'l',
{
    reveal_strlit("KeyA");
    reveal_strlit("KeyB");
    reveal_strlit("KeyC");
    reveal_strlit("KeyD");
    reveal_strlit("KeyE");
    reveal_strlit("KeyF");
    reveal_strlit("KeyG");
    reveal_strlit("KeyH");
    reveal_strlit("KeyI");
    reveal_strlit("KeyJ");
    reveal_strlit("KeyK");
    reveal_strlit("KeyL");
    reveal_strlit("KeyM");
    reveal_strlit("KeyN");
    reveal_strlit("KeyO");
    reveal_strlit("KeyP");
    reveal_strlit("KeyQ");
    reveal_strlit("KeyR");
    reveal_strlit("KeyS");
    reveal_strlit("KeyT");
    reveal_strlit("KeyU");
    reveal_strlit("KeyV");
    reveal_strlit("KeyW");
    reveal_strlit("KeyX");
    reveal_strlit("KeyY");
    reveal_strlit("KeyZ");
    reveal_strlit("Digit0");
    reveal_strlit("Digit1");
    reveal_strlit("Digit2");
    reveal_strlit("Digit3");
    reveal_strlit("Digit4");
    reveal_strlit("Digit5");
    reveal_strlit("Digit6");
    reveal_strlit("Digit7");
    reveal_strlit("Digit8");
    reveal_strlit("Digit9");
    reveal_strlit("Numpad0");
    reveal_strlit("Numpad1");
    reveal_strlit("Numpad2");
    reveal_strlit("Numpad3");
    reveal_strlit("Numpad4");
    reveal_strlit("Numpad5");
    reveal_strlit("Numpad6");
    reveal_strlit("Numpad7");
    reveal_strlit("Numpad8");
    reveal_strlit("Numpad9");
    reveal_strlit("F1");
    reveal_strlit("F2");
    reveal_strlit("F3");
    reveal_strlit("F4");
    reveal_strlit("F5");
    reveal_strlit("F6");
    reveal_strlit("F7");
    reveal_strlit("F8");
    reveal_strlit("F9");
    reveal_strlit("F10");
    reveal_strlit("F11");
    reveal_strlit("F12");
    reveal_strlit("ArrowUp");
    reveal_strlit("ArrowDown");
    reveal_strlit("ArrowLeft");
    reveal_strlit("ArrowRight");
    reveal_strlit("Space");
    reveal_strlit("Escape");
    reveal_strlit("Enter");
    reveal_strlit("Tab");
    reveal_strlit("Backspace");
    reveal_strlit("Delete");
    reveal_strlit("Insert");
    reveal_strlit("Home");
    reveal_strlit("End");
    reveal_strlit("PageUp");
    reveal_strlit("PageDown");
    reveal_strlit("ShiftLeft");
    reveal_strlit("ShiftRight");
    reveal_strlit("ControlLeft");
    reveal_strlit("ControlRight");
    reveal_strlit("AltLeft");
    reveal_strlit("AltRight");
    reveal_strlit("Minus");
    reveal_strlit("Equal");
    reveal_strlit("BracketLeft");
    reveal_strlit("BracketRight");
    reveal_strlit("Semicolon");
    reveal_strlit("Quote");
    reveal_strlit("Backquote");
    reveal_strlit("Backslash");
    reveal_strlit("Comma");
    reveal_strlit("Period");
    reveal_strlit("Slash");
}

/// Saving a key by its name and reading the name back gives the same key.
pub proof fn law_key_name_round_trip(k: Key)
    ensures
        parse_key_spec(key_name_spec(k)) == Some(k),
{
    lemma_key_names_differ();
}

} // verus!
