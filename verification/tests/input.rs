use mge::input::{action_from_name, action_label, action_name, Action, ActionMap, ElementState, InputState, MouseButton, Settings};
use mge::keys::{key_name, parse_key, Key};

#[test]
fn key_names_round_trip() {
    for k in [Key::KeyA, Key::Digit7, Key::Numpad0, Key::F12, Key::ArrowLeft, Key::Backslash, Key::Slash] {
        assert_eq!(parse_key(&key_name(k)), Some(k));
    }
    assert_eq!(key_name(Key::ShiftRight), "ShiftRight");
    assert_eq!(parse_key("Backquote"), Some(Key::Backquote));
    assert_eq!(parse_key("keya"), None);
    assert_eq!(parse_key("Mouse1"), None);
    assert_eq!(parse_key(""), None);
}

#[test]
fn action_names_round_trip() {
    for a in [Action::Left, Action::Jump, Action::Slot8, Action::ToggleMenu, Action::QuickLoad] {
        assert_eq!(action_from_name(action_name(a)), Some(a));
    }
    assert_eq!(action_from_name("fly"), None);
}

#[test]
fn standard_bindings() {
    let m = ActionMap::standard();
    assert_eq!(m.key_action(Key::KeyA), Some(Action::Left));
    assert_eq!(m.key_action(Key::ArrowLeft), Some(Action::Left));
    assert_eq!(m.key_action(Key::Space), Some(Action::Jump));
    assert_eq!(m.key_action(Key::Digit8), Some(Action::Slot8));
    assert_eq!(m.key_action(Key::F9), Some(Action::QuickLoad));
    assert_eq!(m.key_action(Key::KeyZ), None);
    assert_eq!(m.key_for(Action::Jump), Some(Key::Space));
    assert_eq!(m.key_for(Action::Attack), None);
    let left = m.key_for(Action::Left).unwrap();
    assert!(left == Key::KeyA || left == Key::ArrowLeft);
    assert_eq!(m.all().len(), 24);
    assert_eq!(ActionMap::default().all().len(), 24);
}

#[test]
fn rebinding_moves_the_action() {
    let mut m = ActionMap::standard();
    m.set_binding(Key::KeyZ, Action::Jump);
    assert_eq!(m.key_action(Key::Space), None);
    assert_eq!(m.key_action(Key::KeyZ), Some(Action::Jump));
    assert_eq!(m.key_for(Action::Jump), Some(Key::KeyZ));
    m.set_binding(Key::KeyA, Action::Jump);
    assert_eq!(m.key_action(Key::KeyA), Some(Action::Jump));
    assert_eq!(m.key_action(Key::KeyZ), None);
    assert_eq!(m.key_action(Key::ArrowLeft), Some(Action::Left));
    m.set_binding(Key::KeyA, Action::Left);
    assert_eq!(m.key_action(Key::ArrowLeft), None);
    assert_eq!(m.key_for(Action::Left), Some(Key::KeyA));
    assert_eq!(m.key_for(Action::Jump), None);
}

#[test]
fn press_hold_release_cycle() {
    let mut s = InputState::new();
    assert!(!s.pressed(Action::Left));
    s.key_event(Key::KeyA, ElementState::Pressed);
    assert!(s.pressed(Action::Left));
    assert!(s.just_pressed(Action::Left));
    s.key_event(Key::ArrowLeft, ElementState::Pressed);
    s.end_frame();
    assert!(s.pressed(Action::Left));
    assert!(!s.just_pressed(Action::Left));
    s.key_event(Key::KeyA, ElementState::Pressed);
    assert!(!s.just_pressed(Action::Left));
    s.key_event(Key::KeyA, ElementState::Released);
    assert!(!s.pressed(Action::Left));
    assert!(s.just_released(Action::Left));
    s.end_frame();
    assert!(!s.just_released(Action::Left));
    s.key_event(Key::KeyZ, ElementState::Pressed);
    assert!(!s.pressed(Action::Jump));
}

#[test]
fn left_button_attacks() {
    let mut s = InputState::default();
    s.mouse_event(MouseButton::Left, ElementState::Pressed);
    assert!(s.pressed(Action::Attack));
    assert!(s.just_pressed(Action::Attack));
    s.mouse_event(MouseButton::Right, ElementState::Pressed);
    s.end_frame();
    assert!(s.pressed(Action::Attack));
    assert!(!s.just_pressed(Action::Attack));
    s.mouse_event(MouseButton::Left, ElementState::Released);
    assert!(!s.pressed(Action::Attack));
}

#[test]
fn inject_goes_through_bound_key_or_mouse() {
    let mut s = InputState::new();
    s.inject(Action::Jump, ElementState::Pressed);
    assert!(s.pressed(Action::Jump));
    assert!(s.just_pressed(Action::Jump));
    s.inject(Action::Attack, ElementState::Pressed);
    assert!(s.pressed(Action::Attack));
    s.inject(Action::Jump, ElementState::Released);
    assert!(!s.pressed(Action::Jump));
    assert!(s.just_released(Action::Jump));
    assert_eq!(s.map().key_action(Key::Space), Some(Action::Jump));
}

#[test]
fn settings_record_and_apply() {
    let mut st = Settings::new();
    st.record(Action::Jump, Key::KeyK);
    st.record(Action::Left, Key::KeyZ);
    st.record(Action::Jump, Key::KeyL);
    assert_eq!(st.bindings.len(), 2);
    assert_eq!(st.bindings[0], ("jump".to_string(), "KeyL".to_string()));
    assert_eq!(st.bindings[1], ("left".to_string(), "KeyZ".to_string()));
    st.bindings.push(("fly".to_string(), "KeyF".to_string()));
    st.bindings.push(("up".to_string(), "NoSuchKey".to_string()));
    let mut m = ActionMap::standard();
    st.apply(&mut m);
    assert_eq!(m.key_action(Key::KeyL), Some(Action::Jump));
    assert_eq!(m.key_action(Key::Space), None);
    assert_eq!(m.key_action(Key::KeyZ), Some(Action::Left));
    assert_eq!(m.key_action(Key::KeyA), None);
    assert_eq!(m.key_action(Key::KeyF), None);
    assert_eq!(m.key_action(Key::KeyW), Some(Action::Up));
}

#[test]
fn settings_labels() {
    assert_eq!(action_label(Action::Jump), "跳跃");
    assert_eq!(action_label(Action::Attack), "攻击 / 使用");
    assert_eq!(action_label(Action::Slot4), "快捷 4 · 火把");
    assert_eq!(action_label(Action::QuickLoad), "快速读档");
}
