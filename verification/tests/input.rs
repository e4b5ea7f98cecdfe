use voxel_core::input::{
    camera_key, game_key, CameraKey, GameKey, KeyState, CAPS_LOCK_ACTIVE, KEY_STATE_EXPOSED,
    LEFT_ALT_PRESSED, LEFT_CONTROL_PRESSED, LEFT_LOGO_PRESSED, LEFT_SHIFT_PRESSED, MENU_KEY_PRESSED,
    NUM_LOCK_ACTIVE, RIGHT_ALT_PRESSED, RIGHT_CONTROL_PRESSED, RIGHT_LOGO_PRESSED,
    RIGHT_SHIFT_PRESSED, SCAN_ESCAPE, SCAN_LEFT, SCAN_RIGHT, SCROLL_LOCK_ACTIVE, SHIFT_STATE_VALID,
    SYS_REQ_PRESSED, TOGGLE_STATE_VALID,
};

#[test]
fn modifier_masks() {
    assert_eq!(SHIFT_STATE_VALID, 0x8000_0000);
    assert_eq!(
        [
            RIGHT_SHIFT_PRESSED,
            LEFT_SHIFT_PRESSED,
            RIGHT_CONTROL_PRESSED,
            LEFT_CONTROL_PRESSED,
            RIGHT_ALT_PRESSED,
            LEFT_ALT_PRESSED,
            RIGHT_LOGO_PRESSED,
            LEFT_LOGO_PRESSED,
            MENU_KEY_PRESSED,
            SYS_REQ_PRESSED,
        ],
        [0x1, 0x2, 0x4, 0x8, 0x10, 0x20, 0x40, 0x80, 0x100, 0x200]
    );
    assert_eq!(
        [TOGGLE_STATE_VALID, KEY_STATE_EXPOSED, SCROLL_LOCK_ACTIVE, NUM_LOCK_ACTIVE, CAPS_LOCK_ACTIVE],
        [0x80, 0x40, 0x01, 0x02, 0x04]
    );
    assert_eq!((SCAN_LEFT, SCAN_RIGHT, SCAN_ESCAPE), (3, 4, 23));
}

#[test]
fn default_key_state_is_empty() {
    let state = KeyState::default();
    assert_eq!(state.key_shift_state, 0);
    assert_eq!(state.key_toggle_state, 0);
    assert!(!state.is_shifting());
}

#[test]
fn either_shift_key_counts() {
    let with = |bits: u32| KeyState { key_shift_state: bits, key_toggle_state: 0 };
    assert!(with(LEFT_SHIFT_PRESSED).is_shifting());
    assert!(with(RIGHT_SHIFT_PRESSED).is_shifting());
    assert!(with(SHIFT_STATE_VALID | LEFT_SHIFT_PRESSED | LEFT_ALT_PRESSED).is_shifting());
    assert!(!with(SHIFT_STATE_VALID | LEFT_CONTROL_PRESSED | RIGHT_ALT_PRESSED).is_shifting());
    assert!(!with(0xffff_fffc).is_shifting());
}

#[test]
fn letters_move_the_player() {
    assert_eq!(game_key(0, 'w' as u16), GameKey::Forward);
    assert_eq!(game_key(0, 'W' as u16), GameKey::Forward);
    assert_eq!(game_key(0, 's' as u16), GameKey::Backward);
    assert_eq!(game_key(0, 'S' as u16), GameKey::Backward);
    assert_eq!(game_key(0, 'a' as u16), GameKey::StrafeLeft);
    assert_eq!(game_key(0, 'A' as u16), GameKey::StrafeLeft);
    assert_eq!(game_key(0, 'd' as u16), GameKey::StrafeRight);
    assert_eq!(game_key(0, 'D' as u16), GameKey::StrafeRight);
    assert_eq!(game_key(0, ' ' as u16), GameKey::Jump);
    assert_eq!(game_key(0, 'x' as u16), GameKey::Ignored);
    assert_eq!(game_key(0, 0), GameKey::Ignored);
}

#[test]
fn scan_codes_crouch_and_quit() {
    assert_eq!(game_key(3, 0), GameKey::ToggleCrouch);
    assert_eq!(game_key(4, 0), GameKey::ToggleCrouch);
    assert_eq!(game_key(23, 0), GameKey::Quit);
    assert_eq!(game_key(1, 0), GameKey::Ignored);
    assert_eq!(game_key(5, 0), GameKey::Ignored);
}

#[test]
fn character_decides_before_the_scan_code() {
    assert_eq!(game_key(23, 'w' as u16), GameKey::Forward);
    assert_eq!(game_key(3, ' ' as u16), GameKey::Jump);
}

#[test]
fn only_the_low_byte_of_a_character_counts() {
    assert_eq!(game_key(0, 0x0177), GameKey::Forward);
    assert_eq!(game_key(0, 0xff20), GameKey::Jump);
    assert_eq!(camera_key(0x126a), CameraKey::TurnLeft);
}

#[test]
fn camera_keys() {
    assert_eq!(camera_key('w' as u16), CameraKey::Forward);
    assert_eq!(camera_key('s' as u16), CameraKey::Backward);
    assert_eq!(camera_key('a' as u16), CameraKey::StrafeLeft);
    assert_eq!(camera_key('d' as u16), CameraKey::StrafeRight);
    assert_eq!(camera_key('j' as u16), CameraKey::TurnLeft);
    assert_eq!(camera_key('l' as u16), CameraKey::TurnRight);
    assert_eq!(camera_key('W' as u16), CameraKey::Ignored);
    assert_eq!(camera_key('k' as u16), CameraKey::Ignored);
}
