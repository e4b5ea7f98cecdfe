//! Keyboard state and the meaning of keys: which key stroke asks for which
//! move. Reading the keyboard is left to the caller.

use vstd::prelude::*;

verus! {

pub type KeyToggleState = u8;

/// State of the modifier keys and of the toggles at the time of a key stroke.
#[derive(Clone, Copy, Debug, Default)]
pub struct KeyState {
    /// Bit mask of the modifier keys: see the `*_PRESSED` constants.
    pub key_shift_state: u32,
    /// Bit mask of the toggles: see the `*_ACTIVE` constants.
    pub key_toggle_state: KeyToggleState,
}

pub const SHIFT_STATE_VALID: u32 = 0x8000_0000;

pub const RIGHT_SHIFT_PRESSED: u32 = 0x0000_0001;

pub const LEFT_SHIFT_PRESSED: u32 = 0x0000_0002;

pub const RIGHT_CONTROL_PRESSED: u32 = 0x0000_0004;

pub const LEFT_CONTROL_PRESSED: u32 = 0x0000_0008;

pub const RIGHT_ALT_PRESSED: u32 = 0x0000_0010;

pub const LEFT_ALT_PRESSED: u32 = 0x0000_0020;

pub const RIGHT_LOGO_PRESSED: u32 = 0x0000_0040;

pub const LEFT_LOGO_PRESSED: u32 = 0x0000_0080;

pub const MENU_KEY_PRESSED: u32 = 0x0000_0100;

pub const SYS_REQ_PRESSED: u32 = 0x0000_0200;

pub const TOGGLE_STATE_VALID: u8 = 0x80;

pub const KEY_STATE_EXPOSED: u8 = 0x40;

pub const SCROLL_LOCK_ACTIVE: u8 = 0x01;

pub const NUM_LOCK_ACTIVE: u8 = 0x02;

pub const CAPS_LOCK_ACTIVE: u8 = 0x04;

/// Scan code of the left arrow key.
pub const SCAN_LEFT: u16 = 3;

/// Scan code of the right arrow key.
pub const SCAN_RIGHT: u16 = 4;

/// Scan code of the escape key.
pub const SCAN_ESCAPE: u16 = 23;

/// ASCII codes of the keys that the game and the camera know.
const LOWER_W: u8 = 0x77;

const UPPER_W: u8 = 0x57;

const LOWER_S: u8 = 0x73;

const UPPER_S: u8 = 0x53;

const LOWER_A: u8 = 0x61;

const UPPER_A: u8 = 0x41;

const LOWER_D: u8 = 0x64;

const UPPER_D: u8 = 0x44;

const LOWER_J: u8 = 0x6a;

const LOWER_L: u8 = 0x6c;

const SPACE: u8 = 0x20;

/// What a key stroke asks of the player.
#[derive(Clone, Copy, Debug, PartialEq, Eq, Structural)]
pub enum GameKey {
    Forward,
    Backward,
    StrafeLeft,
    StrafeRight,
    Jump,
    ToggleCrouch,
    Quit,
    Ignored,
}

/// What a key stroke asks of the free camera.
#[derive(Clone, Copy, Debug, PartialEq, Eq, Structural)]
pub enum CameraKey {
    Forward,
    Backward,
    StrafeLeft,
    StrafeRight,
    TurnLeft,
    TurnRight,
    Ignored,
}

/// A shift key is held: bit 0 (right) or bit 1 (left) of the modifier mask.
pub open spec fn shift_held(state: KeyState) -> bool {
    state.key_shift_state % 4 != 0
}

/// The meaning of a key stroke in the game. The character decides first, by
/// its low byte alone; the scan code is looked at for every other stroke.
pub open spec fn game_key_spec(scan_code: u16, unicode_char: u16) -> GameKey {
    let low = unicode_char % 256;
    if low == 0x77 || low == 0x57 {
        GameKey::Forward
    } else if low == 0x73 || low == 0x53 {
        GameKey::Backward
    } else if low == 0x61 || low == 0x41 {
        GameKey::StrafeLeft
    } else if low == 0x64 || low == 0x44 {
        GameKey::StrafeRight
    } else if low == 0x20 {
        GameKey::Jump
    } else if scan_code == 3 || scan_code == 4 {
        GameKey::ToggleCrouch
    } else if scan_code == 23 {
        GameKey::Quit
    } else {
        GameKey::Ignored
    }
}

/// The meaning of a printable key for the free camera, by its low byte.
pub open spec fn camera_key_spec(unicode_char: u16) -> CameraKey {
    let low = unicode_char % 256;
    if low == 0x77 {
        CameraKey::Forward
    } else if low == 0x73 {
        CameraKey::Backward
    } else if low == 0x61 {
        CameraKey::StrafeLeft
    } else if low == 0x64 {
        CameraKey::StrafeRight
    } else if low == 0x6a {
        CameraKey::TurnLeft
    } else if low == 0x6c {
        CameraKey::TurnRight
    } else {
        CameraKey::Ignored
    }
}

/// The low byte of a UCS-2 character.
fn low_byte(unicode_char: u16) -> (low: u8)
    ensures
        low == unicode_char % 256,
{
    let low: u8 = #[verifier::truncate]
    (unicode_char as u8);
    assert(low == unicode_char % 256) by (bit_vector)
        requires
            low == unicode_char as u8,
    ;
    low
}

impl KeyState {
    /// Whether a shift key was held.
    pub fn is_shifting(&self) -> (held: bool)
        ensures
            held == shift_held(*self),
    {
        let state: u32 = self.key_shift_state;
        let held: bool = (state & (LEFT_SHIFT_PRESSED | RIGHT_SHIFT_PRESSED)) != 0;
        assert(held == (state % 4 != 0)) by (bit_vector)
            requires
                held == ((state & (0x0000_0002u32 | 0x0000_0001u32)) != 0),
        ;
        held
    }
}

/// What the key stroke `(scan_code, unicode_char)` asks of the player.
pub fn game_key(scan_code: u16, unicode_char: u16) -> (key: GameKey)
    ensures
        key == game_key_spec(scan_code, unicode_char),
{
    let low: u8 = low_byte(unicode_char);
    if low == LOWER_W || low == UPPER_W {
        GameKey::Forward
    } else if low == LOWER_S || low == UPPER_S {
        GameKey::Backward
    } else if low == LOWER_A || low == UPPER_A {
        GameKey::StrafeLeft
    } else if low == LOWER_D || low == UPPER_D {
        GameKey::StrafeRight
    } else if low == SPACE {
        GameKey::Jump
    } else if scan_code == SCAN_LEFT || scan_code == SCAN_RIGHT {
        GameKey::ToggleCrouch
    } else if scan_code == SCAN_ESCAPE {
        GameKey::Quit
    } else {
        GameKey::Ignored
    }
}

/// What the printable key `unicode_char` asks of the free camera.
pub fn camera_key(unicode_char: u16) -> (key: CameraKey)
    ensures
        key == camera_key_spec(unicode_char),
{
    let low: u8 = low_byte(unicode_char);
    if low == LOWER_W {
        CameraKey::Forward
    } else if low == LOWER_S {
        CameraKey::Backward
    } else if low == LOWER_A {
        CameraKey::StrafeLeft
    } else if low == LOWER_D {
        CameraKey::StrafeRight
    } else if low == LOWER_J {
        CameraKey::TurnLeft
    } else if low == LOWER_L {
        CameraKey::TurnRight
    } else {
        CameraKey::Ignored
    }
}

} // verus!
