//! Logical input actions, their persisted names and labels, the key map, the
//! per-frame input state, and the saved key overrides.
use vstd::prelude::*;
use crate::keys::{Key, key_name, key_name_spec, parse_key, parse_key_spec};
use crate::materials::str_eq;

verus! {

/// A logical action that keys are bound to.
#[derive(Clone, Copy, Debug, PartialEq, Eq, Structural, Hash)]
pub enum Action {
    Left,
    Right,
    Up,
    Down,
    Jump,
    Attack,
    Slot1,
    Slot2,
    Slot3,
    Slot4,
    Slot5,
    Slot6,
    Slot7,
    Slot8,
    ToggleDebug,
    ToggleEditor,
    /// The settings menu.
    ToggleMenu,
    Inventory,
    Potion,
    QuickSave,
    QuickLoad,
}

/// The id an action is saved under.
pub open spec fn action_name_spec(a: Action) -> Seq<char> {
    match a {
        Action::Left => "left"@,
        Action::Right => "right"@,
        Action::Up => "up"@,
        Action::Down => "down"@,
        Action::Jump => "jump"@,
        Action::Attack => "attack"@,
        Action::Slot1 => "slot1"@,
        Action::Slot2 => "slot2"@,
        Action::Slot3 => "slot3"@,
        Action::Slot4 => "slot4"@,
        Action::Slot5 => "slot5"@,
        Action::Slot6 => "slot6"@,
        Action::Slot7 => "slot7"@,
        Action::Slot8 => "slot8"@,
        Action::ToggleDebug => "debug"@,
        Action::ToggleEditor => "editor"@,
        Action::ToggleMenu => "menu"@,
        Action::Inventory => "inventory"@,
        Action::Potion => "potion"@,
        Action::QuickSave => "save"@,
        Action::QuickLoad => "load"@,
    }
}

/// The action saved under `s`, if any.
pub open spec fn action_from_name_spec(s: Seq<char>) -> Option<Action> {
    if s == "left"@ {
        Some(Action::Left)
    } else if s == "right"@ {
        Some(Action::Right)
    } else if s == "up"@ {
        Some(Action::Up)
    } else if s == "down"@ {
        Some(Action::Down)
    } else if s == "jump"@ {
        Some(Action::Jump)
    } else if s == "attack"@ {
        Some(Action::Attack)
    } else if s == "slot1"@ {
        Some(Action::Slot1)
    } else if s == "slot2"@ {
        Some(Action::Slot2)
    } else if s == "slot3"@ {
        Some(Action::Slot3)
    } else if s == "slot4"@ {
        Some(Action::Slot4)
    } else if s == "slot5"@ {
        Some(Action::Slot5)
    } else if s == "slot6"@ {
        Some(Action::Slot6)
    } else if s == "slot7"@ {
        Some(Action::Slot7)
    } else if s == "slot8"@ {
        Some(Action::Slot8)
    } else if s == "debug"@ {
        Some(Action::ToggleDebug)
    } else if s == "editor"@ {
        Some(Action::ToggleEditor)
    } else if s == "menu"@ {
        Some(Action::ToggleMenu)
    } else if s == "inventory"@ {
        Some(Action::Inventory)
    } else if s == "potion"@ {
        Some(Action::Potion)
    } else if s == "save"@ {
        Some(Action::QuickSave)
    } else if s == "load"@ {
        Some(Action::QuickLoad)
    } else {
        None
    }
}

/// The label the settings panel shows for an action.
pub open spec fn action_label_spec(a: Action) -> Seq<char> {
    match a {
        Action::Left => "向左移动"@,
        Action::Right => "向右移动"@,
        Action::Up => "向上"@,
        Action::Down => "向下"@,
        Action::Jump => "跳跃"@,
        Action::Attack => "攻击 / 使用"@,
        Action::Slot1 => "快捷 1 · 剑"@,
        Action::Slot2 => "快捷 2 · 镐"@,
        Action::Slot3 => "快捷 3 · 石块"@,
        Action::Slot4 => "快捷 4 · 火把"@,
        Action::Slot5 => "快捷 5 · 水"@,
        Action::Slot6 => "快捷 6 · 沙"@,
        Action::Slot7 => "快捷 7 · 弓"@,
        Action::Slot8 => "快捷 8 · 火球"@,
        Action::ToggleDebug => "调试面板"@,
        Action::ToggleEditor => "特效编辑器"@,
        Action::ToggleMenu => "系统设置"@,
        Action::Inventory => "背包"@,
        Action::Potion => "喝药水"@,
        Action::QuickSave => "快速存档"@,
        Action::QuickLoad => "快速读档"@,
    }
}

/// The id an action is saved under.
pub fn action_name(a: Action) -> (r: &'static str)
    ensures
        r@ == action_name_spec(a),
{
    match a {
        Action::Left => "left",
        Action::Right => "right",
        Action::Up => "up",
        Action::Down => "down",
        Action::Jump => "jump",
        Action::Attack => "attack",
        Action::Slot1 => "slot1",
        Action::Slot2 => "slot2",
        Action::Slot3 => "slot3",
        Action::Slot4 => "slot4",
        Action::Slot5 => "slot5",
        Action::Slot6 => "slot6",
        Action::Slot7 => "slot7",
        Action::Slot8 => "slot8",
        Action::ToggleDebug => "debug",
        Action::ToggleEditor => "editor",
        Action::ToggleMenu => "menu",
        Action::Inventory => "inventory",
        Action::Potion => "potion",
        Action::QuickSave => "save",
        Action::QuickLoad => "load",
    }
}

/// The action saved under `s`; `None` for an unknown id.
pub fn action_from_name(s: &str) -> (r: Option<Action>)
    ensures
        r == action_from_name_spec(s@),
{
    if str_eq(s, "left") {
        return Some(Action::Left);
    }
    if str_eq(s, "right") {
        return Some(Action::Right);
    }
    if str_eq(s, "up") {
        return Some(Action::Up);
    }
    if str_eq(s, "down") {
        return Some(Action::Down);
    }
    if str_eq(s, "jump") {
        return Some(Action::Jump);
    }
    if str_eq(s, "attack") {
        return Some(Action::Attack);
    }
    if str_eq(s, "slot1") {
        return Some(Action::Slot1);
    }
    if str_eq(s, "slot2") {
        return Some(Action::Slot2);
    }
    if str_eq(s, "slot3") {
        return Some(Action::Slot3);
    }
    if str_eq(s, "slot4") {
        return Some(Action::Slot4);
    }
    if str_eq(s, "slot5") {
        return Some(Action::Slot5);
    }
    if str_eq(s, "slot6") {
        return Some(Action::Slot6);
    }
    if str_eq(s, "slot7") {
        return Some(Action::Slot7);
    }
    if str_eq(s, "slot8") {
        return Some(Action::Slot8);
    }
    if str_eq(s, "debug") {
        return Some(Action::ToggleDebug);
    }
    if str_eq(s, "editor") {
        return Some(Action::ToggleEditor);
    }
    if str_eq(s, "menu") {
        return Some(Action::ToggleMenu);
    }
    if str_eq(s, "inventory") {
        return Some(Action::Inventory);
    }
    if str_eq(s, "potion") {
        return Some(Action::Potion);
    }
    if str_eq(s, "save") {
        return Some(Action::QuickSave);
    }
    if str_eq(s, "load") {
        return Some(Action::QuickLoad);
    }
    None
}

/// The label the settings panel shows for an action.
pub fn action_label(a: Action) -> (r: &'static str)
    ensures
        r@ == action_label_spec(a),
{
    match a {
        Action::Left => "向左移动",
        Action::Right => "向右移动",
        Action::Up => "向上",
        Action::Down => "向下",
        Action::Jump => "跳跃",
        Action::Attack => "攻击 / 使用",
        Action::Slot1 => "快捷 1 · 剑",
        Action::Slot2 => "快捷 2 · 镐",
        Action::Slot3 => "快捷 3 · 石块",
        Action::Slot4 => "快捷 4 · 火把",
        Action::Slot5 => "快捷 5 · 水",
        Action::Slot6 => "快捷 6 · 沙",
        Action::Slot7 => "快捷 7 · 弓",
        Action::Slot8 => "快捷 8 · 火球",
        Action::ToggleDebug => "调试面板",
        Action::ToggleEditor => "特效编辑器",
        Action::ToggleMenu => "系统设置",
        Action::Inventory => "背包",
        Action::Potion => "喝药水",
        Action::QuickSave => "快速存档",
        Action::QuickLoad => "快速读档",
    }
}

/// Saving an action by its id and reading the id back gives the same action.
pub proof fn law_action_name_round_trip(a: Action)
    ensures
        action_from_name_spec(action_name_spec(a)) == Some(a),
{
    reveal_strlit("left");
    reveal_strlit("right");
    reveal_strlit("up");
    reveal_strlit("down");
    reveal_strlit("jump");
    reveal_strlit("attack");
    reveal_strlit("slot1");
    reveal_strlit("slot2");
    reveal_strlit("slot3");
    reveal_strlit("slot4");
    reveal_strlit("slot5");
    reveal_strlit("slot6");
    reveal_strlit("slot7");
    reveal_strlit("slot8");
    reveal_strlit("debug");
    reveal_strlit("editor");
    reveal_strlit("menu");
    reveal_strlit("inventory");
    reveal_strlit("potion");
    reveal_strlit("save");
    reveal_strlit("load");
    match a {
        Action::Left => {
        },
        Action::Right => {
            assert("right"@.len() != "left"@.len());
        },
        Action::Up => {
            assert("up"@.len() != "left"@.len());
            assert("up"@.len() != "right"@.len());
        },
        Action::Down => {
            assert("down"@[0] != "left"@[0]);
            assert("down"@.len() != "right"@.len());
            assert("down"@.len() != "up"@.len());
        },
        Action::Jump => {
            assert("jump"@[0] != "left"@[0]);
            assert("jump"@.len() != "right"@.len());
            assert("jump"@.len() != "up"@.len());
            assert("jump"@[0] != "down"@[0]);
        },
        Action::Attack => {
            assert("attack"@.len() != "left"@.len());
            assert("attack"@.len() != "right"@.len());
            assert("attack"@.len() != "up"@.len());
            assert("attack"@.len() != "down"@.len());
            assert("attack"@.len() != "jump"@.len());
        },
        Action::Slot1 => {
            assert("slot1"@.len() != "left"@.len());
            assert("slot1"@[0] != "right"@[0]);
            assert("slot1"@.len() != "up"@.len());
            assert("slot1"@.len() != "down"@.len());
            assert("slot1"@.len() != "jump"@.len());
            assert("slot1"@.len() != "attack"@.len());
        },
        Action::Slot2 => {
            assert("slot2"@.len() != "left"@.len());
            assert("slot2"@[0] != "right"@[0]);
            assert("slot2"@.len() != "up"@.len());
            assert("slot2"@.len() != "down"@.len());
            assert("slot2"@.len() != "jump"@.len());
            assert("slot2"@.len() != "attack"@.len());
            assert("slot2"@[4] != "slot1"@[4]);
        },
        Action::Slot3 => {
            assert("slot3"@.len() != "left"@.len());
            assert("slot3"@[0] != "right"@[0]);
            assert("slot3"@.len() != "up"@.len());
            assert("slot3"@.len() != "down"@.len());
            assert("slot3"@.len() != "jump"@.len());
            assert("slot3"@.len() != "attack"@.len());
            assert("slot3"@[4] != "slot1"@[4]);
            assert("slot3"@[4] != "slot2"@[4]);
        },
        Action::Slot4 => {
            assert("slot4"@.len() != "left"@.len());
            assert("slot4"@[0] != "right"@[0]);
            assert("slot4"@.len() != "up"@.len());
            assert("slot4"@.len() != "down"@.len());
            assert("slot4"@.len() != "jump"@.len());
            assert("slot4"@.len() != "attack"@.len());
            assert("slot4"@[4] != "slot1"@[4]);
            assert("slot4"@[4] != "slot2"@[4]);
            assert("slot4"@[4] != "slot3"@[4]);
        },
        Action::Slot5 => {
            assert("slot5"@.len() != "left"@.len());
            assert("slot5"@[0] != "right"@[0]);
            assert("slot5"@.len() != "up"@.len());
            assert("slot5"@.len() != "down"@.len());
            assert("slot5"@.len() != "jump"@.len());
            assert("slot5"@.len() != "attack"@.len());
            assert("slot5"@[4] != "slot1"@[4]);
            assert("slot5"@[4] != "slot2"@[4]);
            assert("slot5"@[4] != "slot3"@[4]);
            assert("slot5"@[4] != "slot4"@[4]);
        },
        Action::Slot6 => {
            assert("slot6"@.len() != "left"@.len());
            assert("slot6"@[0] != "right"@[0]);
            assert("slot6"@.len() != "up"@.len());
            assert("slot6"@.len() != "down"@.len());
            assert("slot6"@.len() != "jump"@.len());
            assert("slot6"@.len() != "attack"@.len());
            assert("slot6"@[4] != "slot1"@[4]);
            assert("slot6"@[4] != "slot2"@[4]);
            assert("slot6"@[4] != "slot3"@[4]);
            assert("slot6"@[4] != "slot4"@[4]);
            assert("slot6"@[4] != "slot5"@[4]);
        },
        Action::Slot7 => {
            assert("slot7"@.len() != "left"@.len());
            assert("slot7"@[0] != "right"@[0]);
            assert("slot7"@.len() != "up"@.len());
            assert("slot7"@.len() != "down"@.len());
            assert("slot7"@.len() != "jump"@.len());
            assert("slot7"@.len() != "attack"@.len());
            assert("slot7"@[4] != "slot1"@[4]);
            assert("slot7"@[4] != "slot2"@[4]);
            assert("slot7"@[4] != "slot3"@[4]);
            assert("slot7"@[4] != "slot4"@[4]);
            assert("slot7"@[4] != "slot5"@[4]);
            assert("slot7"@[4] != "slot6"@[4]);
        },
        Action::Slot8 => {
            assert("slot8"@.len() != "left"@.len());
            assert("slot8"@[0] != "right"@[0]);
            assert("slot8"@.len() != "up"@.len());
            assert("slot8"@.len() != "down"@.len());
            assert("slot8"@.len() != "jump"@.len());
            assert("slot8"@.len() != "attack"@.len());
            assert("slot8"@[4] != "slot1"@[4]);
            assert("slot8"@[4] != "slot2"@[4]);
            assert("slot8"@[4] != "slot3"@[4]);
            assert("slot8"@[4] != "slot4"@[4]);
            assert("slot8"@[4] != "slot5"@[4]);
            assert("slot8"@[4] != "slot6"@[4]);
            assert("slot8"@[4] != "slot7"@[4]);
        },
        Action::ToggleDebug => {
            assert("debug"@.len() != "left"@.len());
            assert("debug"@[0] != "right"@[0]);
            assert("debug"@.len() != "up"@.len());
            assert("debug"@.len() != "down"@.len());
            assert("debug"@.len() != "jump"@.len());
            assert("debug"@.len() != "attack"@.len());
            assert("debug"@[0] != "slot1"@[0]);
            assert("debug"@[0] != "slot2"@[0]);
            assert("debug"@[0] != "slot3"@[0]);
            assert("debug"@[0] != "slot4"@[0]);
            assert("debug"@[0] != "slot5"@[0]);
            assert("debug"@[0] != "slot6"@[0]);
            assert("debug"@[0] != "slot7"@[0]);
            assert("debug"@[0] != "slot8"@[0]);
        },
        Action::ToggleEditor => {
            assert("editor"@.len() != "left"@.len());
            assert("editor"@.len() != "right"@.len());
            assert("editor"@.len() != "up"@.len());
            assert("editor"@.len() != "down"@.len());
            assert("editor"@.len() != "jump"@.len());
            assert("editor"@[0] != "attack"@[0]);
            assert("editor"@.len() != "slot1"@.len());
            assert("editor"@.len() != "slot2"@.len());
            assert("editor"@.len() != "slot3"@.len());
            assert("editor"@.len() != "slot4"@.len());
            assert("editor"@.len() != "slot5"@.len());
            assert("editor"@.len() != "slot6"@.len());
            assert("editor"@.len() != "slot7"@.len());
            assert("editor"@.len() != "slot8"@.len());
            assert("editor"@.len() != "debug"@.len());
        },
        Action::ToggleMenu => {
            assert("menu"@[0] != "left"@[0]);
            assert("menu"@.len() != "right"@.len());
            assert("menu"@.len() != "up"@.len());
            assert("menu"@[0] != "down"@[0]);
            assert("menu"@[0] != "jump"@[0]);
            assert("menu"@.len() != "attack"@.len());
            assert("menu"@.len() != "slot1"@.len());
            assert("menu"@.len() != "slot2"@.len());
            assert("menu"@.len() != "slot3"@.len());
            assert("menu"@.len() != "slot4"@.len());
            assert("menu"@.len() != "slot5"@.len());
            assert("menu"@.len() != "slot6"@.len());
            assert("menu"@.len() != "slot7"@.len());
            assert("menu"@.len() != "slot8"@.len());
            assert("menu"@.len() != "debug"@.len());
            assert("menu"@.len() != "editor"@.len());
        },
        Action::Inventory => {
            assert("inventory"@.len() != "left"@.len());
            assert("inventory"@.len() != "right"@.len());
            assert("inventory"@.len() != "up"@.len());
            assert("inventory"@.len() != "down"@.len());
            assert("inventory"@.len() != "jump"@.len());
            assert("inventory"@.len() != "attack"@.len());
            assert("inventory"@.len() != "slot1"@.len());
            assert("inventory"@.len() != "slot2"@.len());
            assert("inventory"@.len() != "slot3"@.len());
            assert("inventory"@.len() != "slot4"@.len());
            assert("inventory"@.len() != "slot5"@.len());
            assert("inventory"@.len() != "slot6"@.len());
            assert("inventory"@.len() != "slot7"@.len());
            assert("inventory"@.len() != "slot8"@.len());
            assert("inventory"@.len() != "debug"@.len());
            assert("inventory"@.len() != "editor"@.len());
            assert("inventory"@.len() != "menu"@.len());
        },
        Action::Potion => {
            assert("potion"@.len() != "left"@.len());
            assert("potion"@.len() != "right"@.len());
            assert("potion"@.len() != "up"@.len());
            assert("potion"@.len() != "down"@.len());
            assert("potion"@.len() != "jump"@.len());
            assert("potion"@[0] != "attack"@[0]);
            assert("potion"@.len() != "slot1"@.len());
            assert("potion"@.len() != "slot2"@.len());
            assert("potion"@.len() != "slot3"@.len());
            assert("potion"@.len() != "slot4"@.len());
            assert("potion"@.len() != "slot5"@.len());
            assert("potion"@.len() != "slot6"@.len());
            assert("potion"@.len() != "slot7"@.len());
            assert("potion"@.len() != "slot8"@.len());
            assert("potion"@.len() != "debug"@.len());
            assert("potion"@[0] != "editor"@[0]);
            assert("potion"@.len() != "menu"@.len());
            assert("potion"@.len() != "inventory"@.len());
        },
        Action::QuickSave => {
            assert("save"@[0] != "left"@[0]);
            assert("save"@.len() != "right"@.len());
            assert("save"@.len() != "up"@.len());
            assert("save"@[0] != "down"@[0]);
            assert("save"@[0] != "jump"@[0]);
            assert("save"@.len() != "attack"@.len());
            assert("save"@.len() != "slot1"@.len());
            assert("save"@.len() != "slot2"@.len());
            assert("save"@.len() != "slot3"@.len());
            assert("save"@.len() != "slot4"@.len());
            assert("save"@.len() != "slot5"@.len());
            assert("save"@.len() != "slot6"@.len());
            assert("save"@.len() != "slot7"@.len());
            assert("save"@.len() != "slot8"@.len());
            assert("save"@.len() != "debug"@.len());
            assert("save"@.len() != "editor"@.len());
            assert("save"@[0] != "menu"@[0]);
            assert("save"@.len() != "inventory"@.len());
            assert("save"@.len() != "potion"@.len());
        },
        Action::QuickLoad => {
            assert("load"@[1] != "left"@[1]);
            assert("load"@.len() != "right"@.len());
            assert("load"@.len() != "up"@.len());
            assert("load"@[0] != "down"@[0]);
            assert("load"@[0] != "jump"@[0]);
            assert("load"@.len() != "attack"@.len());
            assert("load"@.len() != "slot1"@.len());
            assert("load"@.len() != "slot2"@.len());
            assert("load"@.len() != "slot3"@.len());
            assert("load"@.len() != "slot4"@.len());
            assert("load"@.len() != "slot5"@.len());
            assert("load"@.len() != "slot6"@.len());
            assert("load"@.len() != "slot7"@.len());
            assert("load"@.len() != "slot8"@.len());
            assert("load"@.len() != "debug"@.len());
            assert("load"@.len() != "editor"@.len());
            assert("load"@[0] != "menu"@[0]);
            assert("load"@.len() != "inventory"@.len());
            assert("load"@.len() != "potion"@.len());
            assert("load"@[0] != "save"@[0]);
        },
    }
}

/// Whether a key went down or came up.
#[derive(Clone, Copy, Debug, PartialEq, Eq, Structural)]
pub enum ElementState {
    Pressed,
    Released,
}

/// A mouse button.
#[derive(Clone, Copy, Debug, PartialEq, Eq, Structural)]
pub enum MouseButton {
    Left,
    Right,
    Middle,
    Back,
    Forward,
    Other(u16),
}

/// The map that a list of (key, action) pairs describes, later pairs winning.
pub open spec fn pairs_map(s: Seq<(Key, Action)>) -> Map<Key, Action>
    decreases s.len(),
{
    if s.len() == 0 {
        Map::empty()
    } else {
        pairs_map(s.drop_last()).insert(s.last().0, s.last().1)
    }
}

/// No key occurs twice in the list.
pub open spec fn keys_distinct(s: Seq<(Key, Action)>) -> bool {
    forall|i: int, j: int| 0 <= i < j < s.len() ==> (#[trigger] s[i]).0 != (#[trigger] s[j]).0
}

/// The default bindings: A/D and the arrows move, W or space jumps, S goes down,
/// 1-8 pick hotbar slots, F3 debug, F1 editor, Escape the menu, I the bag,
/// Q a potion, F5 quick save and F9 quick load.
pub open spec fn standard_map() -> Map<Key, Action> {
    map![
        Key::KeyA => Action::Left,
        Key::ArrowLeft => Action::Left,
        Key::KeyD => Action::Right,
        Key::ArrowRight => Action::Right,
        Key::KeyW => Action::Up,
        Key::ArrowUp => Action::Up,
        Key::KeyS => Action::Down,
        Key::ArrowDown => Action::Down,
        Key::Space => Action::Jump,
        Key::Digit1 => Action::Slot1,
        Key::Digit2 => Action::Slot2,
        Key::Digit3 => Action::Slot3,
        Key::Digit4 => Action::Slot4,
        Key::Digit5 => Action::Slot5,
        Key::Digit6 => Action::Slot6,
        Key::Digit7 => Action::Slot7,
        Key::Digit8 => Action::Slot8,
        Key::F3 => Action::ToggleDebug,
        Key::F1 => Action::ToggleEditor,
        Key::Escape => Action::ToggleMenu,
        Key::KeyI => Action::Inventory,
        Key::KeyQ => Action::Potion,
        Key::F5 => Action::QuickSave,
        Key::F9 => Action::QuickLoad
    ]
}

/// `key` bound to `action`: the action's other keys are unbound, and the key's
/// previous action loses it.
pub open spec fn rebind(m: Map<Key, Action>, key: Key, action: Action) -> Map<Key, Action> {
    Map::new(
        |x: Key| x == key || (m.contains_key(x) && m[x] != action),
        |x: Key| if x == key { action } else { m[x] },
    )
}

proof fn lemma_pairs_map(s: Seq<(Key, Action)>)
    requires
        keys_distinct(s),
    ensures
        forall|x: Key| #[trigger] pairs_map(s).contains_key(x) <==> exists|i: int| 0 <= i < s.len() && s[i].0 == x,
        forall|i: int| 0 <= i < s.len() ==> pairs_map(s)[(#[trigger] s[i]).0] == s[i].1,
        pairs_map(s).dom().finite(),
    decreases s.len(),
{
    if s.len() > 0 {
        let t = s.drop_last();
        assert(keys_distinct(t)) by {
            assert forall|i: int, j: int| 0 <= i < j < t.len() implies (#[trigger] t[i]).0 != (#[trigger] t[j]).0 by {
                assert(t[i] == s[i] && t[j] == s[j]);
            }
        }
        lemma_pairs_map(t);
        assert forall|x: Key| #[trigger] pairs_map(s).contains_key(x) <==> exists|i: int| 0 <= i < s.len() && s[i].0 == x by {
            if pairs_map(s).contains_key(x) {
                if x == s.last().0 {
                    assert(s[s.len() - 1].0 == x);
                } else {
                    let i = choose|i: int| 0 <= i < t.len() && t[i].0 == x;
                    assert(s[i] == t[i]);
                }
            }
            if exists|i: int| 0 <= i < s.len() && s[i].0 == x {
                let i = choose|i: int| 0 <= i < s.len() && s[i].0 == x;
                if i < s.len() - 1 {
                    assert(t[i] == s[i]);
                }
            }
        }
        assert forall|i: int| 0 <= i < s.len() implies pairs_map(s)[(#[trigger] s[i]).0] == s[i].1 by {
            if i < s.len() - 1 {
                assert(t[i] == s[i]);
                assert(s[i].0 != s[s.len() - 1].0);
            }
        }
    }
}

/// The key map: which key triggers which action.
pub struct ActionMap {
    keys: Vec<(Key, Action)>,
}

impl View for ActionMap {
    type V = Map<Key, Action>;

    closed spec fn view(&self) -> Map<Key, Action> {
        pairs_map(self.keys@)
    }
}

impl ActionMap {
    #[verifier::type_invariant]
    spec fn no_key_twice(&self) -> bool {
        keys_distinct(self.keys@)
    }

    /// The default bindings.
    pub fn standard() -> (m: Self)
        ensures
            m@ == standard_map(),
    {
        let mut keys: Vec<(Key, Action)> = Vec::new();
        put(&mut keys, Key::KeyA, Action::Left);
        put(&mut keys, Key::ArrowLeft, Action::Left);
        put(&mut keys, Key::KeyD, Action::Right);
        put(&mut keys, Key::ArrowRight, Action::Right);
        put(&mut keys, Key::KeyW, Action::Up);
        put(&mut keys, Key::ArrowUp, Action::Up);
        put(&mut keys, Key::KeyS, Action::Down);
        put(&mut keys, Key::ArrowDown, Action::Down);
        put(&mut keys, Key::Space, Action::Jump);
        put(&mut keys, Key::Digit1, Action::Slot1);
        put(&mut keys, Key::Digit2, Action::Slot2);
        put(&mut keys, Key::Digit3, Action::Slot3);
        put(&mut keys, Key::Digit4, Action::Slot4);
        put(&mut keys, Key::Digit5, Action::Slot5);
        put(&mut keys, Key::Digit6, Action::Slot6);
        put(&mut keys, Key::Digit7, Action::Slot7);
        put(&mut keys, Key::Digit8, Action::Slot8);
        put(&mut keys, Key::F3, Action::ToggleDebug);
        put(&mut keys, Key::F1, Action::ToggleEditor);
        put(&mut keys, Key::Escape, Action::ToggleMenu);
        put(&mut keys, Key::KeyI, Action::Inventory);
        put(&mut keys, Key::KeyQ, Action::Potion);
        put(&mut keys, Key::F5, Action::QuickSave);
        put(&mut keys, Key::F9, Action::QuickLoad);
        ActionMap { keys }
    }

    /// The action bound to `key`, if any.
    pub fn key_action(&self, key: Key) -> (r: Option<Action>)
        ensures
            r == (if self@.contains_key(key) { Some(self@[key]) } else { None }),
    {
        proof {
            use_type_invariant(self);
            lemma_pairs_map(self.keys@);
        }
        let mut i: usize = 0;
        while i < self.keys.len()
            invariant
                i <= self.keys@.len(),
                keys_distinct(self.keys@),
                forall|j: int| 0 <= j < i ==> (#[trigger] self.keys@[j]).0 != key,
            decreases self.keys.len() - i,
        {
            if self.keys[i].0 == key {
                proof {
                    lemma_pairs_map(self.keys@);
                    assert(pairs_map(self.keys@)[self.keys@[i as int].0] == self.keys@[i as int].1);
                }
                return Some(self.keys[i].1);
            }
            i = i + 1;
        }
        None
    }

    /// A key bound to `action`, if any (when several are, one of them).
    pub fn key_for(&self, action: Action) -> (r: Option<Key>)
        ensures
            match r {
                Some(k) => self@.contains_key(k) && self@[k] == action,
                None => forall|k: Key| self@.contains_key(k) ==> self@[k] != action,
            },
    {
        proof {
            use_type_invariant(self);
            lemma_pairs_map(self.keys@);
        }
        let mut i: usize = 0;
        while i < self.keys.len()
            invariant
                i <= self.keys@.len(),
                keys_distinct(self.keys@),
                forall|j: int| 0 <= j < i ==> (#[trigger] self.keys@[j]).1 != action,
            decreases self.keys.len() - i,
        {
            if self.keys[i].1 == action {
                proof {
                    lemma_pairs_map(self.keys@);
                    assert(pairs_map(self.keys@)[self.keys@[i as int].0] == self.keys@[i as int].1);
                    assert(pairs_map(self.keys@).contains_key(self.keys@[i as int].0));
                }
                return Some(self.keys[i].0);
            }
            i = i + 1;
        }
        proof {
            assert forall|k: Key| self@.contains_key(k) implies self@[k] != action by {
                let j = choose|j: int| 0 <= j < self.keys@.len() && self.keys@[j].0 == k;
                assert(pairs_map(self.keys@)[self.keys@[j].0] == self.keys@[j].1);
            }
        }
        None
    }

    /// Binds `key` to `action`: the action's old keys are dropped, and the key
    /// no longer triggers what it triggered before.
    pub fn set_binding(&mut self, key: Key, action: Action)
        ensures
            final(self)@ == rebind(old(self)@, key, action),
    {
        proof {
            use_type_invariant(&*self);
            lemma_pairs_map(self.keys@);
        }
        let ghost old_keys = self.keys@;
        let mut kept: Vec<(Key, Action)> = Vec::new();
        let mut i: usize = 0;
        while i < self.keys.len()
            invariant
                old_keys == self.keys@,
                keys_distinct(old_keys),
                i <= old_keys.len(),
                keys_distinct(kept@),
                forall|j: int| 0 <= j < kept@.len() ==> (#[trigger] kept@[j]).0 != key && kept@[j].1 != action
                    && exists|m: int| 0 <= m < i && old_keys[m] == kept@[j],
                forall|m: int| 0 <= m < i && (#[trigger] old_keys[m]).0 != key && old_keys[m].1 != action
                    ==> exists|j: int| 0 <= j < kept@.len() && kept@[j] == old_keys[m],
            decreases self.keys.len() - i,
        {
            let e = self.keys[i];
            let ghost prev = kept@;
            if e.0 != key && e.1 != action {
                proof {
                    assert forall|j: int| 0 <= j < kept@.len() implies (#[trigger] kept@[j]).0 != e.0 by {
                        let m = choose|m: int| 0 <= m < i && old_keys[m] == kept@[j];
                        assert(old_keys[m].0 != old_keys[i as int].0);
                    }
                }
                kept.push(e);
                proof {
                    assert(kept@[kept@.len() - 1] == old_keys[i as int]);
                }
            }
            proof {
                assert forall|m: int| 0 <= m < i + 1 && (#[trigger] old_keys[m]).0 != key && old_keys[m].1 != action
                    implies exists|j: int| 0 <= j < kept@.len() && kept@[j] == old_keys[m] by {
                    if m == i {
                        assert(kept@[kept@.len() - 1] == old_keys[m]);
                    } else {
                        let j = choose|j: int| 0 <= j < prev.len() && prev[j] == old_keys[m];
                        assert(kept@[j] == prev[j]);
                    }
                }
                assert forall|j: int| 0 <= j < kept@.len() implies (#[trigger] kept@[j]).0 != key && kept@[j].1 != action
                    && exists|m: int| 0 <= m < i + 1 && old_keys[m] == kept@[j] by {
                    if j < prev.len() {
                        assert(kept@[j] == prev[j]);
                        let m = choose|m: int| 0 <= m < i && old_keys[m] == prev[j];
                    } else {
                        assert(kept@[j] == old_keys[i as int]);
                    }
                }
            }
            i = i + 1;
        }
        let ghost before = kept@;
        kept.push((key, action));
        proof {
            assert(keys_distinct(kept@)) by {
                assert forall|p: int, q: int| 0 <= p < q < kept@.len() implies (#[trigger] kept@[p]).0 != (#[trigger] kept@[q]).0 by {
                    if q < before.len() {
                        assert(kept@[p] == before[p] && kept@[q] == before[q]);
                    } else {
                        assert(kept@[p] == before[p]);
                    }
                }
            }
            lemma_pairs_map(kept@);
            let m0 = pairs_map(old_keys);
            let m1 = pairs_map(kept@);
            assert forall|x: Key| #[trigger] m1.contains_key(x) == rebind(m0, key, action).contains_key(x) by {
                if m1.contains_key(x) && x != key {
                    let j = choose|j: int| 0 <= j < kept@.len() && kept@[j].0 == x;
                    assert(kept@[j] == before[j]);
                    let m = choose|m: int| 0 <= m < old_keys.len() && old_keys[m] == before[j];
                    assert(m0[old_keys[m].0] == old_keys[m].1);
                }
                if x != key && m0.contains_key(x) && m0[x] != action {
                    let m = choose|m: int| 0 <= m < old_keys.len() && old_keys[m].0 == x;
                    assert(m0[old_keys[m].0] == old_keys[m].1);
                    let j = choose|j: int| 0 <= j < before.len() && before[j] == old_keys[m];
                    assert(kept@[j] == before[j]);
                }
                if x == key {
                    assert(kept@[kept@.len() - 1].0 == key);
                }
            }
            assert forall|x: Key| m1.contains_key(x) implies #[trigger] m1[x] == rebind(m0, key, action)[x] by {
                if x == key {
                    assert(m1[kept@[kept@.len() - 1].0] == kept@[kept@.len() - 1].1);
                } else {
                    let j = choose|j: int| 0 <= j < kept@.len() && kept@[j].0 == x;
                    assert(kept@[j] == before[j]);
                    assert(m1[kept@[j].0] == kept@[j].1);
                    let m = choose|m: int| 0 <= m < old_keys.len() && old_keys[m] == before[j];
                    assert(m0[old_keys[m].0] == old_keys[m].1);
                }
            }
            assert(m1 =~= rebind(m0, key, action));
        }
        self.keys = kept;
    }

    /// Every binding, one pair per bound key.
    pub fn all(&self) -> (r: Vec<(Key, Action)>)
        ensures
            pairs_map(r@) == self@,
            keys_distinct(r@),
    {
        proof {
            use_type_invariant(self);
        }
        let mut r: Vec<(Key, Action)> = Vec::new();
        let mut i: usize = 0;
        while i < self.keys.len()
            invariant
                i <= self.keys@.len(),
                r@ == self.keys@.take(i as int),
            decreases self.keys.len() - i,
        {
            r.push(self.keys[i]);
            i = i + 1;
        }
        proof {
            assert(r@ =~= self.keys@);
        }
        r
    }
}

impl Default for ActionMap {
    fn default() -> (m: Self)
        ensures
            m@ == standard_map(),
    {
        ActionMap::standard()
    }
}

fn put(keys: &mut Vec<(Key, Action)>, key: Key, action: Action)
    requires
        keys_distinct(old(keys)@),
        !pairs_map(old(keys)@).contains_key(key),
    ensures
        final(keys)@ == old(keys)@.push((key, action)),
        keys_distinct(final(keys)@),
        pairs_map(final(keys)@) == pairs_map(old(keys)@).insert(key, action),
{
    proof {
        lemma_pairs_map(keys@);
    }
    let ghost before = keys@;
    keys.push((key, action));
    proof {
        assert(keys@.drop_last() =~= before);
        assert forall|p: int, q: int| 0 <= p < q < keys@.len() implies (#[trigger] keys@[p]).0 != (#[trigger] keys@[q]).0 by {
            if q == keys@.len() - 1 {
                assert(keys@[p] == before[p]);
                if before[p].0 == key {
                    assert(pairs_map(before).contains_key(before[p].0));
                }
            } else {
                assert(keys@[p] == before[p] && keys@[q] == before[q]);
            }
        }
    }
}

/// Rebinding's law: the key then triggers the action, no other key does, and
/// every other key keeps its action unless that was the rebound action.
pub proof fn law_rebind(m: Map<Key, Action>, key: Key, action: Action)
    ensures
        rebind(m, key, action).contains_key(key),
        rebind(m, key, action)[key] == action,
        forall|x: Key| x != key && #[trigger] rebind(m, key, action).contains_key(x)
            ==> rebind(m, key, action)[x] != action && m.contains_key(x) && rebind(m, key, action)[x] == m[x],
        forall|x: Key| x != key && m.contains_key(x) && m[x] != action
            ==> #[trigger] rebind(m, key, action).contains_key(x),
{
}

fn has_action(v: &Vec<Action>, a: Action) -> (r: bool)
    ensures
        r == v@.contains(a),
{
    let mut i: usize = 0;
    while i < v.len()
        invariant
            i <= v@.len(),
            forall|j: int| 0 <= j < i ==> v@[j] != a,
        decreases v.len() - i,
    {
        if v[i] == a {
            return true;
        }
        i = i + 1;
    }
    false
}

fn has_button(v: &Vec<MouseButton>, b: MouseButton) -> (r: bool)
    ensures
        r == v@.contains(b),
{
    let mut i: usize = 0;
    while i < v.len()
        invariant
            i <= v@.len(),
            forall|j: int| 0 <= j < i ==> v@[j] != b,
        decreases v.len() - i,
    {
        if v[i] == b {
            return true;
        }
        i = i + 1;
    }
    false
}

fn without_action(v: &Vec<Action>, a: Action) -> (r: Vec<Action>)
    ensures
        forall|x: Action| #[trigger] r@.contains(x) <==> v@.contains(x) && x != a,
{
    let mut r: Vec<Action> = Vec::new();
    let mut i: usize = 0;
    while i < v.len()
        invariant
            i <= v@.len(),
            forall|x: Action| #[trigger] r@.contains(x) <==> v@.take(i as int).contains(x) && x != a,
        decreases v.len() - i,
    {
        let ghost before = r@;
        if v[i] != a {
            r.push(v[i]);
        }
        proof {
            assert(v@.take(i as int + 1) =~= v@.take(i as int).push(v@[i as int]));
            assert forall|x: Action| #[trigger] r@.contains(x) <==> v@.take(i as int + 1).contains(x) && x != a by {
                let t0 = v@.take(i as int);
                let t1 = v@.take(i as int + 1);
                let e = v@[i as int];
                assert(t1[i as int] == e);
                assert(before.contains(x) <==> t0.contains(x) && x != a);
                if r@.contains(x) {
                    let j = choose|j: int| 0 <= j < r@.len() && r@[j] == x;
                    if j < before.len() {
                        assert(before[j] == x);
                        assert(before.contains(x));
                        let k = choose|k: int| 0 <= k < t0.len() && t0[k] == x;
                        assert(t1[k] == x);
                    }
                }
                if t1.contains(x) && x != a {
                    let k = choose|k: int| 0 <= k < t1.len() && #[trigger] t1[k] == x;
                    if k < i {
                        assert(t0[k] == x);
                        assert(before.contains(x));
                        let j = choose|j: int| 0 <= j < before.len() && before[j] == x;
                        assert(r@[j] == x);
                    } else {
                        assert(r@[r@.len() - 1] == x);
                    }
                }
            }
        }
        i = i + 1;
    }
    proof {
        assert(v@.take(v@.len() as int) =~= v@);
    }
    r
}

fn without_button(v: &Vec<MouseButton>, b: MouseButton) -> (r: Vec<MouseButton>)
    ensures
        forall|x: MouseButton| #[trigger] r@.contains(x) <==> v@.contains(x) && x != b,
{
    let mut r: Vec<MouseButton> = Vec::new();
    let mut i: usize = 0;
    while i < v.len()
        invariant
            i <= v@.len(),
            forall|x: MouseButton| #[trigger] r@.contains(x) <==> v@.take(i as int).contains(x) && x != b,
        decreases v.len() - i,
    {
        let ghost before = r@;
        if v[i] != b {
            r.push(v[i]);
        }
        proof {
            assert(v@.take(i as int + 1) =~= v@.take(i as int).push(v@[i as int]));
            assert forall|x: MouseButton| #[trigger] r@.contains(x) <==> v@.take(i as int + 1).contains(x) && x != b by {
                let t0 = v@.take(i as int);
                let t1 = v@.take(i as int + 1);
                let e = v@[i as int];
                assert(t1[i as int] == e);
                assert(before.contains(x) <==> t0.contains(x) && x != b);
                if r@.contains(x) {
                    let j = choose|j: int| 0 <= j < r@.len() && r@[j] == x;
                    if j < before.len() {
                        assert(before[j] == x);
                        assert(before.contains(x));
                        let k = choose|k: int| 0 <= k < t0.len() && t0[k] == x;
                        assert(t1[k] == x);
                    }
                }
                if t1.contains(x) && x != b {
                    let k = choose|k: int| 0 <= k < t1.len() && #[trigger] t1[k] == x;
                    if k < i {
                        assert(t0[k] == x);
                        assert(before.contains(x));
                        let j = choose|j: int| 0 <= j < before.len() && before[j] == x;
                        assert(r@[j] == x);
                    } else {
                        assert(r@[r@.len() - 1] == x);
                    }
                }
            }
        }
        i = i + 1;
    }
    proof {
        assert(v@.take(v@.len() as int) =~= v@);
    }
    r
}

/// Input gathered from window events and queried once per logic frame. The
/// cursor position and wheel are floats and are kept by the front end.
pub struct InputState {
    down: Vec<Action>,
    just_pressed: Vec<Action>,
    just_released: Vec<Action>,
    map: ActionMap,
    mouse_down: Vec<MouseButton>,
    mouse_just: Vec<MouseButton>,
}

impl InputState {
    /// Whether the action is held.
    pub closed spec fn held(&self, a: Action) -> bool {
        self.down@.contains(a)
    }

    /// Whether the action went down this frame.
    pub closed spec fn fresh(&self, a: Action) -> bool {
        self.just_pressed@.contains(a)
    }

    /// Whether the action came up this frame.
    pub closed spec fn let_go(&self, a: Action) -> bool {
        self.just_released@.contains(a)
    }

    /// Whether the button is held.
    pub closed spec fn button_held(&self, b: MouseButton) -> bool {
        self.mouse_down@.contains(b)
    }

    /// Whether the button went down this frame.
    pub closed spec fn button_fresh(&self, b: MouseButton) -> bool {
        self.mouse_just@.contains(b)
    }

    /// The key map in use.
    pub closed spec fn keymap(&self) -> Map<Key, Action> {
        self.map@
    }

    /// Nothing held, the default bindings.
    pub fn new() -> (s: Self)
        ensures
            forall|a: Action| !s.held(a) && !s.fresh(a) && !s.let_go(a),
            forall|b: MouseButton| !s.button_held(b) && !s.button_fresh(b),
            s.keymap() == standard_map(),
    {
        InputState {
            down: Vec::new(),
            just_pressed: Vec::new(),
            just_released: Vec::new(),
            map: ActionMap::standard(),
            mouse_down: Vec::new(),
            mouse_just: Vec::new(),
        }
    }

    /// A key event: a bound key's action goes down (and is fresh this frame,
    /// unless it was already held) or comes up. Unbound keys are ignored.
    pub fn key_event(&mut self, key: Key, state: ElementState)
        ensures
            final(self).keymap() == old(self).keymap(),
            forall|b: MouseButton| final(self).button_held(b) == old(self).button_held(b)
                && final(self).button_fresh(b) == old(self).button_fresh(b),
            forall|a: Action| #![trigger final(self).held(a)] #![trigger final(self).fresh(a)] #![trigger final(self).let_go(a)] {
                let bound = old(self).keymap().contains_key(key) && old(self).keymap()[key] == a;
                &&& final(self).held(a) == (if bound { state == ElementState::Pressed } else { old(self).held(a) })
                &&& final(self).fresh(a) == (old(self).fresh(a) || (bound && state == ElementState::Pressed
                    && !old(self).held(a)))
                &&& final(self).let_go(a) == (old(self).let_go(a) || (bound && state == ElementState::Released))
            },
    {
        let a = match self.map.key_action(key) {
            Some(a) => a,
            None => return,
        };
        match state {
            ElementState::Pressed => {
                if !has_action(&self.down, a) {
                    self.down.push(a);
                    self.just_pressed.push(a);
                    proof {
                        assert(self.down@.last() == a);
                        assert(self.just_pressed@.last() == a);
                        assert forall|x: Action| old(self).down@.contains(x) implies self.down@.contains(x) by {
                            let j = choose|j: int| 0 <= j < old(self).down@.len() && old(self).down@[j] == x;
                            assert(self.down@[j] == x);
                        }
                        assert forall|x: Action| old(self).just_pressed@.contains(x) implies self.just_pressed@.contains(x) by {
                            let j = choose|j: int| 0 <= j < old(self).just_pressed@.len() && old(self).just_pressed@[j] == x;
                            assert(self.just_pressed@[j] == x);
                        }
                        assert forall|x: Action| self.down@.contains(x) && x != a implies old(self).down@.contains(x) by {
                            let j = choose|j: int| 0 <= j < self.down@.len() && self.down@[j] == x;
                            assert(old(self).down@[j] == x);
                        }
                        assert forall|x: Action| self.just_pressed@.contains(x) && x != a implies old(self).just_pressed@.contains(x) by {
                            let j = choose|j: int| 0 <= j < self.just_pressed@.len() && self.just_pressed@[j] == x;
                            assert(old(self).just_pressed@[j] == x);
                        }
                    }
                }
            },
            ElementState::Released => {
                self.down = without_action(&self.down, a);
                self.just_released.push(a);
                proof {
                    assert(self.just_released@.last() == a);
                    assert forall|x: Action| old(self).just_released@.contains(x) implies self.just_released@.contains(x) by {
                        let j = choose|j: int| 0 <= j < old(self).just_released@.len() && old(self).just_released@[j] == x;
                        assert(self.just_released@[j] == x);
                    }
                    assert forall|x: Action| self.just_released@.contains(x) && x != a implies old(self).just_released@.contains(x) by {
                        let j = choose|j: int| 0 <= j < self.just_released@.len() && self.just_released@[j] == x;
                        assert(old(self).just_released@[j] == x);
                    }
                }
            },
        }
    }

    /// A mouse button event.
    pub fn mouse_event(&mut self, button: MouseButton, state: ElementState)
        ensures
            final(self).keymap() == old(self).keymap(),
            forall|a: Action| final(self).held(a) == old(self).held(a) && final(self).fresh(a) == old(self).fresh(a)
                && final(self).let_go(a) == old(self).let_go(a),
            forall|b: MouseButton| #![trigger final(self).button_held(b)] #![trigger final(self).button_fresh(b)] {
                &&& final(self).button_held(b) == (if b == button { state == ElementState::Pressed } else { old(self).button_held(b) })
                &&& final(self).button_fresh(b) == (old(self).button_fresh(b) || (b == button && state == ElementState::Pressed
                    && !old(self).button_held(b)))
            },
    {
        match state {
            ElementState::Pressed => {
                if !has_button(&self.mouse_down, button) {
                    self.mouse_down.push(button);
                    self.mouse_just.push(button);
                    proof {
                        assert(self.mouse_down@.last() == button);
                        assert(self.mouse_just@.last() == button);
                        assert forall|x: MouseButton| old(self).mouse_down@.contains(x) implies self.mouse_down@.contains(x) by {
                            let j = choose|j: int| 0 <= j < old(self).mouse_down@.len() && old(self).mouse_down@[j] == x;
                            assert(self.mouse_down@[j] == x);
                        }
                        assert forall|x: MouseButton| old(self).mouse_just@.contains(x) implies self.mouse_just@.contains(x) by {
                            let j = choose|j: int| 0 <= j < old(self).mouse_just@.len() && old(self).mouse_just@[j] == x;
                            assert(self.mouse_just@[j] == x);
                        }
                        assert forall|x: MouseButton| self.mouse_down@.contains(x) && x != button implies old(self).mouse_down@.contains(x) by {
                            let j = choose|j: int| 0 <= j < self.mouse_down@.len() && self.mouse_down@[j] == x;
                            assert(old(self).mouse_down@[j] == x);
                        }
                        assert forall|x: MouseButton| self.mouse_just@.contains(x) && x != button implies old(self).mouse_just@.contains(x) by {
                            let j = choose|j: int| 0 <= j < self.mouse_just@.len() && self.mouse_just@[j] == x;
                            assert(old(self).mouse_just@[j] == x);
                        }
                    }
                }
            },
            ElementState::Released => {
                self.mouse_down = without_button(&self.mouse_down, button);
            },
        }
    }

    /// Whether the action is held (the attack action also by the left button).
    pub fn pressed(&self, a: Action) -> (r: bool)
        ensures
            r == (self.held(a) || (a == Action::Attack && self.button_held(MouseButton::Left))),
    {
        has_action(&self.down, a) || (a == Action::Attack && has_button(&self.mouse_down, MouseButton::Left))
    }

    /// Whether the action went down this frame (the attack action also by the left button).
    pub fn just_pressed(&self, a: Action) -> (r: bool)
        ensures
            r == (self.fresh(a) || (a == Action::Attack && self.button_fresh(MouseButton::Left))),
    {
        has_action(&self.just_pressed, a) || (a == Action::Attack && has_button(
            &self.mouse_just,
            MouseButton::Left,
        ))
    }

    /// Whether the action came up this frame.
    pub fn just_released(&self, a: Action) -> (r: bool)
        ensures
            r == self.let_go(a),
    {
        has_action(&self.just_released, a)
    }

    /// End of a logic frame: nothing is fresh or released any more; what is
    /// held stays held.
    pub fn end_frame(&mut self)
        ensures
            final(self).keymap() == old(self).keymap(),
            forall|a: Action| final(self).held(a) == old(self).held(a) && !final(self).fresh(a) && !final(self).let_go(a),
            forall|b: MouseButton| final(self).button_held(b) == old(self).button_held(b) && !final(self).button_fresh(b),
    {
        self.just_pressed.clear();
        self.just_released.clear();
        self.mouse_just.clear();
    }

    /// Feeds an action directly (headless runs and tests): through a key bound
    /// to it, else, for the attack action, through the left button.
    pub fn inject(&mut self, a: Action, state: ElementState)
        ensures
            final(self).keymap() == old(self).keymap(),
            (exists|k: Key| old(self).keymap().contains_key(k) && old(self).keymap()[k] == a) ==> {
                &&& forall|b: MouseButton| final(self).button_held(b) == old(self).button_held(b)
                    && final(self).button_fresh(b) == old(self).button_fresh(b)
                &&& forall|x: Action| #![trigger final(self).held(x)] #![trigger final(self).fresh(x)] #![trigger final(self).let_go(x)] {
                    &&& final(self).held(x) == (if x == a { state == ElementState::Pressed } else { old(self).held(x) })
                    &&& final(self).fresh(x) == (old(self).fresh(x) || (x == a && state == ElementState::Pressed
                        && !old(self).held(x)))
                    &&& final(self).let_go(x) == (old(self).let_go(x) || (x == a && state == ElementState::Released))
                }
            },
            !(exists|k: Key| old(self).keymap().contains_key(k) && old(self).keymap()[k] == a) ==> {
                &&& forall|x: Action| final(self).held(x) == old(self).held(x) && final(self).fresh(x) == old(self).fresh(x)
                    && final(self).let_go(x) == old(self).let_go(x)
                &&& forall|b: MouseButton| #![trigger final(self).button_held(b)] #![trigger final(self).button_fresh(b)] {
                    let hit = a == Action::Attack && b == MouseButton::Left;
                    &&& final(self).button_held(b) == (if hit { state == ElementState::Pressed } else { old(self).button_held(b) })
                    &&& final(self).button_fresh(b) == (old(self).button_fresh(b) || (hit && state == ElementState::Pressed
                        && !old(self).button_held(b)))
                }
            },
    {
        match self.map.key_for(a) {
            Some(code) => {
                self.key_event(code, state);
            },
            None => {
                if a == Action::Attack {
                    self.mouse_event(MouseButton::Left, state);
                }
            },
        }
    }

    /// The key map.
    pub fn map(&self) -> (m: &ActionMap)
        ensures
            m@ == self.keymap(),
    {
        &self.map
    }
}

impl Default for InputState {
    fn default() -> (s: Self)
        ensures
            forall|a: Action| !s.held(a) && !s.fresh(a) && !s.let_go(a),
            forall|b: MouseButton| !s.button_held(b) && !s.button_fresh(b),
            s.keymap() == standard_map(),
    {
        InputState::new()
    }
}

/// Saved key overrides as (action id, key name) pairs, in the order they were
/// first recorded. The volume and shake settings are floats and are kept by the
/// front end.
pub struct Settings {
    pub bindings: Vec<(String, String)>,
}

/// The overrides as character sequences.
pub open spec fn names_view(b: Seq<(String, String)>) -> Seq<(Seq<char>, Seq<char>)> {
    b.map_values(|p: (String, String)| (p.0@, p.1@))
}

/// Index of the first override for the action id `name`, or -1.
pub open spec fn find_entry(v: Seq<(Seq<char>, Seq<char>)>, name: Seq<char>) -> int
    decreases v.len(),
{
    if v.len() == 0 {
        -1
    } else if find_entry(v.drop_last(), name) >= 0 {
        find_entry(v.drop_last(), name)
    } else if v.last().0 == name {
        v.len() - 1
    } else {
        -1
    }
}

/// The overrides after recording that `a` is bound to `k`: the action's entry
/// takes the new key in place, or a new entry is appended.
pub open spec fn recorded(v: Seq<(Seq<char>, Seq<char>)>, a: Action, k: Key) -> Seq<(Seq<char>, Seq<char>)> {
    let name = action_name_spec(a);
    let i = find_entry(v, name);
    if i >= 0 {
        v.update(i, (name, key_name_spec(k)))
    } else {
        v.push((name, key_name_spec(k)))
    }
}

/// The key map after applying the overrides in order; entries whose action id
/// or key name is unknown are skipped.
pub open spec fn applied(m: Map<Key, Action>, v: Seq<(Seq<char>, Seq<char>)>) -> Map<Key, Action>
    decreases v.len(),
{
    if v.len() == 0 {
        m
    } else {
        let m1 = applied(m, v.drop_last());
        let e = v.last();
        match (action_from_name_spec(e.0), parse_key_spec(e.1)) {
            (Some(a), Some(k)) => rebind(m1, k, a),
            _ => m1,
        }
    }
}

proof fn lemma_find_entry(v: Seq<(Seq<char>, Seq<char>)>, name: Seq<char>)
    ensures
        -1 <= find_entry(v, name) < v.len(),
        find_entry(v, name) >= 0 ==> v[find_entry(v, name)].0 == name,
        forall|j: int| 0 <= j < v.len() && (find_entry(v, name) == -1 || j < find_entry(v, name))
            ==> (#[trigger] v[j]).0 != name,
    decreases v.len(),
{
    if v.len() > 0 {
        lemma_find_entry(v.drop_last(), name);
        assert forall|j: int| 0 <= j < v.len() && (find_entry(v, name) == -1 || j < find_entry(v, name))
            implies (#[trigger] v[j]).0 != name by {
            if j < v.len() - 1 {
                assert(v[j] == v.drop_last()[j]);
            }
        }
    }
}

proof fn lemma_find_entry_prefix(v: Seq<(Seq<char>, Seq<char>)>, name: Seq<char>, i: int)
    requires
        0 <= i < v.len(),
        find_entry(v.take(i), name) == -1,
    ensures
        find_entry(v.take(i + 1), name) == (if v[i].0 == name { i } else { -1 }),
{
    assert(v.take(i + 1).drop_last() =~= v.take(i));
}

proof fn lemma_find_entry_extend(v: Seq<(Seq<char>, Seq<char>)>, name: Seq<char>, i: int)
    requires
        0 <= i <= v.len(),
        find_entry(v.take(i), name) >= 0,
    ensures
        find_entry(v, name) == find_entry(v.take(i), name),
    decreases v.len() - i,
{
    if i < v.len() {
        assert(v.take(i + 1).drop_last() =~= v.take(i));
        lemma_find_entry_extend(v, name, i + 1);
    } else {
        assert(v.take(i) =~= v);
    }
}

/// A remembered rebinding is restored: when the action had no override yet,
/// applying the overrides after recording binds the key to the action, and no
/// other key to it.
pub proof fn law_record_then_apply(m: Map<Key, Action>, v: Seq<(Seq<char>, Seq<char>)>, a: Action, k: Key)
    requires
        find_entry(v, action_name_spec(a)) == -1,
    ensures
        applied(m, recorded(v, a, k)).contains_key(k),
        applied(m, recorded(v, a, k))[k] == a,
        forall|x: Key| x != k && #[trigger] applied(m, recorded(v, a, k)).contains_key(x)
            ==> applied(m, recorded(v, a, k))[x] != a,
{
    law_action_name_round_trip(a);
    crate::keys::law_key_name_round_trip(k);
    let r = recorded(v, a, k);
    assert(r.drop_last() =~= v);
    law_rebind(applied(m, v), k, a);
}

impl Settings {
    /// No overrides.
    pub fn new() -> (s: Self)
        ensures
            s.bindings@.len() == 0,
    {
        Settings { bindings: Vec::new() }
    }

    /// Records that `a` is now bound to `k`.
    pub fn record(&mut self, a: Action, k: Key)
        ensures
            names_view(final(self).bindings@) == recorded(names_view(old(self).bindings@), a, k),
    {
        let name = action_name(a);
        let key = key_name(k);
        let ghost v0 = names_view(self.bindings@);
        proof {
            lemma_find_entry(v0, name@);
        }
        let mut i: usize = 0;
        while i < self.bindings.len()
            invariant
                v0 == names_view(old(self).bindings@),
                self.bindings@ == old(self).bindings@,
                i <= v0.len(),
                find_entry(v0.take(i as int), name@) == -1,
                name@ == action_name_spec(a),
                key@ == key_name_spec(k),
            decreases self.bindings.len() - i,
        {
            proof {
                lemma_find_entry_prefix(v0, name@, i as int);
            }
            if str_eq(self.bindings[i].0.as_str(), name) {
                proof {
                    lemma_find_entry_extend(v0, name@, i as int + 1);
                }
                let first = self.bindings[i].0.clone();
                self.bindings.set(i, (first, key));
                proof {
                    assert(names_view(self.bindings@) =~= v0.update(i as int, (name@, key@)));
                }
                return;
            }
            i = i + 1;
        }
        proof {
            assert(v0.take(v0.len() as int) =~= v0);
        }
        self.bindings.push((name.to_owned(), key));
        proof {
            assert(names_view(self.bindings@) =~= v0.push((name@, key@)));
        }
    }

    /// Applies the overrides to a key map, in order.
    pub fn apply(&self, map: &mut ActionMap)
        ensures
            final(map)@ == applied(old(map)@, names_view(self.bindings@)),
    {
        let ghost v = names_view(self.bindings@);
        let mut i: usize = 0;
        while i < self.bindings.len()
            invariant
                v == names_view(self.bindings@),
                i <= v.len(),
                map@ == applied(old(map)@, v.take(i as int)),
            decreases self.bindings.len() - i,
        {
            proof {
                assert(v.take(i as int + 1).drop_last() =~= v.take(i as int));
                assert(v.take(i as int + 1).last() == v[i as int]);
            }
            let a = action_from_name(self.bindings[i].0.as_str());
            let k = parse_key(self.bindings[i].1.as_str());
            match (a, k) {
                (Some(a), Some(k)) => {
                    map.set_binding(k, a);
                },
                _ => {},
            }
            i = i + 1;
        }
        proof {
            assert(v.take(v.len() as int) =~= v);
        }
    }
}

} // verus!
