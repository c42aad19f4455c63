use garbo_engine::game_loop::update;
use garbo_engine::input::{
    handle_keyboard_input, Action, ElementState, InputMap, InputState, KeyEvent, KEY_A,
    KEY_ARROW_LEFT, KEY_D, KEY_E, KEY_ESCAPE, KEY_SHIFT_LEFT, KEY_SPACE, KEY_W,
};

fn press(code: u32) -> KeyEvent {
    KeyEvent { physical_key: Some(code), state: ElementState::Pressed }
}

fn release(code: u32) -> KeyEvent {
    KeyEvent { physical_key: Some(code), state: ElementState::Released }
}

#[test]
fn default_bindings() {
    let m = InputMap::new();
    assert_eq!(m.bindings.len(), 10);
    assert_eq!(m.get_action(&KEY_W), Some(Action::MoveForward));
    assert_eq!(m.get_action(&KEY_SPACE), Some(Action::MoveUp));
    assert_eq!(m.get_action(&KEY_SHIFT_LEFT), Some(Action::MoveDown));
    assert_eq!(m.get_action(&KEY_ESCAPE), Some(Action::Quit));
    assert_eq!(m.get_action(&KEY_E), Some(Action::SetMenuMode));
    assert_eq!(m.get_action(&KEY_ARROW_LEFT), Some(Action::DecreaseModels));
    assert_eq!(m.get_action(&999), None);
}

#[test]
fn press_and_release_movement_key() {
    let m = InputMap::new();
    let mut s = InputState::new();
    handle_keyboard_input(press(KEY_W), &mut s, &m);
    assert!(s.continuous_pressed_keys.contains(&KEY_W));
    assert!(s.single_pressed_keys.is_empty());
    handle_keyboard_input(release(KEY_W), &mut s, &m);
    assert!(s.continuous_pressed_keys.is_empty());
}

#[test]
fn single_press_keys_are_queued_not_held() {
    let m = InputMap::new();
    let mut s = InputState::new();
    handle_keyboard_input(press(KEY_E), &mut s, &m);
    handle_keyboard_input(release(KEY_E), &mut s, &m);
    assert!(s.single_pressed_keys.contains(&KEY_E));
    assert!(s.continuous_pressed_keys.is_empty());
    // Keys bound to neither kind of action are ignored.
    handle_keyboard_input(press(KEY_ARROW_LEFT), &mut s, &m);
    assert_eq!(s.single_pressed_keys.len(), 1);
    assert!(s.continuous_pressed_keys.is_empty());
    // Unidentified keys are ignored.
    handle_keyboard_input(KeyEvent { physical_key: None, state: ElementState::Pressed }, &mut s, &m);
    assert_eq!(s.single_pressed_keys.len(), 1);
}

#[test]
fn update_moves_when_menu_closed() {
    let m = InputMap::new();
    let mut s = InputState::new();
    handle_keyboard_input(press(KEY_W), &mut s, &m);
    handle_keyboard_input(press(KEY_A), &mut s, &m);
    let d = update(&mut s, &m, false, false);
    let mut mv = d.movements.clone();
    mv.sort_by_key(|a| *a as u8);
    assert_eq!(mv, vec![Action::MoveForward, Action::MoveLeft]);
    assert!(!d.menu_mode);
    assert!(!d.shutdown_triggered);
    assert!(d.update_camera_look);
    // Held keys stay held.
    assert_eq!(s.continuous_pressed_keys.len(), 2);
}

#[test]
fn update_in_menu_mode_does_not_move() {
    let m = InputMap::new();
    let mut s = InputState::new();
    handle_keyboard_input(press(KEY_D), &mut s, &m);
    let d = update(&mut s, &m, true, false);
    assert!(d.movements.is_empty());
    assert!(d.menu_mode);
    assert!(!d.update_camera_look);
}

#[test]
fn update_consumes_single_presses() {
    let m = InputMap::new();
    let mut s = InputState::new();
    handle_keyboard_input(press(KEY_E), &mut s, &m);
    let d = update(&mut s, &m, false, false);
    assert!(d.menu_mode);
    assert!(!d.update_camera_look);
    assert!(s.single_pressed_keys.is_empty());
    // A second update without presses keeps the mode.
    let d2 = update(&mut s, &m, d.menu_mode, d.shutdown_triggered);
    assert!(d2.menu_mode);
    handle_keyboard_input(press(KEY_ESCAPE), &mut s, &m);
    handle_keyboard_input(press(KEY_E), &mut s, &m);
    let d3 = update(&mut s, &m, d2.menu_mode, d2.shutdown_triggered);
    assert!(d3.shutdown_triggered);
    assert!(!d3.menu_mode);
    assert!(d3.update_camera_look);
    assert!(s.single_pressed_keys.is_empty());
    // Shutdown, once requested, stays requested.
    let d4 = update(&mut s, &m, d3.menu_mode, d3.shutdown_triggered);
    assert!(d4.shutdown_triggered);
}
