use amar_engine::input::InputHandler;

const KEY_W: u32 = 17;
const KEY_ESCAPE: u32 = 1;
const MOUSE_LEFT: u32 = 0;

#[test]
fn key_press_fires_once_while_held() {
    let mut input = InputHandler::default();
    input.handle_key(KEY_W, true);
    assert!(input.is_key_held(KEY_W));
    assert!(input.was_key_just_pressed(KEY_W));
    input.flush();
    // the operating system repeats a held key
    input.handle_key(KEY_W, true);
    assert!(input.is_key_held(KEY_W));
    assert!(!input.was_key_just_pressed(KEY_W));
}

#[test]
fn key_stays_held_until_released() {
    let mut input = InputHandler::new();
    input.handle_key(KEY_ESCAPE, true);
    input.flush();
    input.flush();
    assert!(input.is_key_held(KEY_ESCAPE));
    input.handle_key(KEY_ESCAPE, false);
    assert!(!input.is_key_held(KEY_ESCAPE));
    assert!(input.was_key_released(KEY_ESCAPE));
    input.flush();
    assert!(!input.was_key_released(KEY_ESCAPE));
}

#[test]
fn press_and_release_in_one_frame() {
    let mut input = InputHandler::new();
    input.handle_key(KEY_W, true);
    input.handle_key(KEY_W, false);
    assert!(input.was_key_just_pressed(KEY_W));
    assert!(input.was_key_released(KEY_W));
    assert!(!input.is_key_held(KEY_W));
}

#[test]
fn mouse_buttons_do_not_touch_keys() {
    let mut input = InputHandler::new();
    input.handle_mouse_key(MOUSE_LEFT, true);
    assert!(!input.is_key_held(MOUSE_LEFT));
    assert!(!input.was_key_just_pressed(MOUSE_LEFT));
    input.handle_mouse_key(MOUSE_LEFT, false);
    assert!(!input.was_key_released(MOUSE_LEFT));
}
