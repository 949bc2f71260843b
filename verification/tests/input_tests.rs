use voxel_clipmap::input::{
    cursor_locked_after, input_action, key_code_from_lowercase, mouse_button_from_index, parse_key_code,
    ControlKey, InputAction, PointerButton, TauriInput,
};

#[test]
fn keys_are_named_without_regard_to_case() {
    assert_eq!(parse_key_code("w"), Some(ControlKey::KeyW));
    assert_eq!(parse_key_code("W"), Some(ControlKey::KeyW));
    assert_eq!(parse_key_code("s"), Some(ControlKey::KeyS));
    assert_eq!(parse_key_code("A"), Some(ControlKey::KeyA));
    assert_eq!(parse_key_code("d"), Some(ControlKey::KeyD));
    assert_eq!(parse_key_code(" "), Some(ControlKey::Space));
    assert_eq!(parse_key_code("Space"), Some(ControlKey::Space));
    assert_eq!(parse_key_code("Shift"), Some(ControlKey::ShiftLeft));
    assert_eq!(parse_key_code("SHIFT"), Some(ControlKey::ShiftLeft));
    assert_eq!(parse_key_code("Escape"), Some(ControlKey::Escape));
}

#[test]
fn unknown_keys_are_ignored() {
    assert_eq!(parse_key_code("q"), None);
    assert_eq!(parse_key_code(""), None);
    assert_eq!(parse_key_code("ww"), None);
    assert_eq!(parse_key_code("Esc"), None);
    assert_eq!(parse_key_code(" w"), None);
}

#[test]
fn lowercase_names_only_match_lowercase() {
    assert_eq!(key_code_from_lowercase("space"), Some(ControlKey::Space));
    assert_eq!(key_code_from_lowercase("SPACE"), None);
    assert_eq!(key_code_from_lowercase("W"), None);
}

#[test]
fn mouse_buttons_by_number() {
    assert_eq!(mouse_button_from_index(0), Some(PointerButton::Left));
    assert_eq!(mouse_button_from_index(1), Some(PointerButton::Middle));
    assert_eq!(mouse_button_from_index(2), Some(PointerButton::Right));
    assert_eq!(mouse_button_from_index(3), None);
    assert_eq!(mouse_button_from_index(u32::MAX), None);
}

#[test]
fn input_events_become_actions() {
    assert_eq!(
        input_action(&TauriInput::KeyDown("W".to_string())),
        Some(InputAction::PressKey(ControlKey::KeyW))
    );
    assert_eq!(
        input_action(&TauriInput::KeyUp("escape".to_string())),
        Some(InputAction::ReleaseKey(ControlKey::Escape))
    );
    assert_eq!(input_action(&TauriInput::KeyDown("x".to_string())), None);
    let dx = 1.5f32.to_bits();
    let dy = (-0.25f32).to_bits();
    assert_eq!(
        input_action(&TauriInput::MouseMove { dx_bits: dx, dy_bits: dy }),
        Some(InputAction::MoveMouse { dx_bits: dx, dy_bits: dy })
    );
    assert_eq!(
        input_action(&TauriInput::MouseDown(0)),
        Some(InputAction::PressButton(PointerButton::Left))
    );
    assert_eq!(
        input_action(&TauriInput::MouseUp(2)),
        Some(InputAction::ReleaseButton(PointerButton::Right))
    );
    assert_eq!(input_action(&TauriInput::MouseDown(7)), None);
}

#[test]
fn cursor_lock_follows_clicks_and_escape() {
    assert!(cursor_locked_after(false, true, false));
    assert!(!cursor_locked_after(true, false, true));
    assert!(!cursor_locked_after(false, true, true));
    assert!(cursor_locked_after(true, false, false));
    assert!(!cursor_locked_after(false, false, false));
}
