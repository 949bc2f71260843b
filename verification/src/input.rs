//! Input forwarded from the web front end: naming keys and mouse buttons,
//! turning each input event into the action it has on the engine's input
//! state, and the cursor lock of the first-person controls.
use vstd::prelude::*;

verus! {

/// The keys the engine reacts to.
#[derive(Clone, Copy, Debug, PartialEq, Eq, Structural)]
pub enum ControlKey {
    KeyW,
    KeyS,
    KeyA,
    KeyD,
    Space,
    ShiftLeft,
    Escape,
}

/// The mouse buttons the engine reacts to.
#[derive(Clone, Copy, Debug, PartialEq, Eq, Structural)]
pub enum PointerButton {
    Left,
    Middle,
    Right,
}

/// An input event as the front end sends it. A mouse motion carries its
/// deltas as the bit patterns of 32-bit floats, passed on untouched.
pub enum TauriInput {
    KeyDown(String),
    KeyUp(String),
    MouseMove { dx_bits: u32, dy_bits: u32 },
    MouseDown(u32),
    MouseUp(u32),
}

/// What an input event does to the engine's input state.
#[derive(Clone, Copy, Debug, PartialEq, Eq, Structural)]
pub enum InputAction {
    PressKey(ControlKey),
    ReleaseKey(ControlKey),
    MoveMouse { dx_bits: u32, dy_bits: u32 },
    PressButton(PointerButton),
    ReleaseButton(PointerButton),
}

/// What `str::to_lowercase` returns for a string.
pub uninterp spec fn lowercase(s: Seq<char>) -> Seq<char>;

/// `str::to_lowercase`: the string with each character replaced by its
/// Unicode lowercase mapping. Claimed: the result is `lowercase` of the
/// input, a function of the input alone.
#[verifier::external_body]
fn to_lowercase(s: &str) -> (lower: String)
    ensures
        lower@ == lowercase(s@),
{
    s.to_lowercase()
}

/// The key that a lowercase key name stands for: `"w"`, `"s"`, `"a"`,
/// `"d"`, `" "` or `"space"`, `"shift"`, `"escape"`.
pub open spec fn key_for_name(name: Seq<char>) -> Option<ControlKey> {
    if name == seq!['w'] {
        Some(ControlKey::KeyW)
    } else if name == seq!['s'] {
        Some(ControlKey::KeyS)
    } else if name == seq!['a'] {
        Some(ControlKey::KeyA)
    } else if name == seq!['d'] {
        Some(ControlKey::KeyD)
    } else if name == seq![' '] || name == seq!['s', 'p', 'a', 'c', 'e'] {
        Some(ControlKey::Space)
    } else if name == seq!['s', 'h', 'i', 'f', 't'] {
        Some(ControlKey::ShiftLeft)
    } else if name == seq!['e', 's', 'c', 'a', 'p', 'e'] {
        Some(ControlKey::Escape)
    } else {
        None
    }
}

/// Whether `s` is exactly the characters of `t`.
fn str_is(s: &str, t: &[char]) -> (b: bool)
    ensures
        b == (s@ == t@),
{
    let n = s.unicode_len();
    if n != t.len() {
        return false;
    }
    let mut i: usize = 0;
    while i < n
        invariant
            n == s@.len(),
            n == t@.len(),
            i <= n,
            forall|j: int| 0 <= j < i ==> s@[j] == t@[j],
        decreases n - i,
    {
        if s.get_char(i) != t[i] {
            return false;
        }
        i = i + 1;
    }
    assert(s@ =~= t@);
    true
}

/// The key named by an already lowercased key name.
pub fn key_code_from_lowercase(name: &str) -> (key: Option<ControlKey>)
    ensures
        key == key_for_name(name@),
{
    let w = ['w'];
    let s = ['s'];
    let a = ['a'];
    let d = ['d'];
    let blank = [' '];
    let space = ['s', 'p', 'a', 'c', 'e'];
    let shift = ['s', 'h', 'i', 'f', 't'];
    let escape = ['e', 's', 'c', 'a', 'p', 'e'];
    assert(w@ =~= seq!['w']);
    assert(s@ =~= seq!['s']);
    assert(a@ =~= seq!['a']);
    assert(d@ =~= seq!['d']);
    assert(blank@ =~= seq![' ']);
    assert(space@ =~= seq!['s', 'p', 'a', 'c', 'e']);
    assert(shift@ =~= seq!['s', 'h', 'i', 'f', 't']);
    assert(escape@ =~= seq!['e', 's', 'c', 'a', 'p', 'e']);
    if str_is(name, &w) {
        Some(ControlKey::KeyW)
    } else if str_is(name, &s) {
        Some(ControlKey::KeyS)
    } else if str_is(name, &a) {
        Some(ControlKey::KeyA)
    } else if str_is(name, &d) {
        Some(ControlKey::KeyD)
    } else if str_is(name, &blank) || str_is(name, &space) {
        Some(ControlKey::Space)
    } else if str_is(name, &shift) {
        Some(ControlKey::ShiftLeft)
    } else if str_is(name, &escape) {
        Some(ControlKey::Escape)
    } else {
        None
    }
}

/// The key a front-end key name stands for, compared without regard to
/// case.
pub fn parse_key_code(key: &str) -> (code: Option<ControlKey>)
    ensures
        code == key_for_name(lowercase(key@)),
{
    let lower = to_lowercase(key);
    key_code_from_lowercase(lower.as_str())
}

/// The mouse button numbered `button` by the front end: 0 left, 1 middle,
/// 2 right.
pub open spec fn button_for_index(button: u32) -> Option<PointerButton> {
    if button == 0 {
        Some(PointerButton::Left)
    } else if button == 1 {
        Some(PointerButton::Middle)
    } else if button == 2 {
        Some(PointerButton::Right)
    } else {
        None
    }
}

/// The mouse button numbered `button`, if it is one the engine knows.
pub fn mouse_button_from_index(button: u32) -> (b: Option<PointerButton>)
    ensures
        b == button_for_index(button),
{
    match button {
        0 => Some(PointerButton::Left),
        1 => Some(PointerButton::Middle),
        2 => Some(PointerButton::Right),
        _ => None,
    }
}

/// What an input event does: key events press or release the key they
/// name, if any; mouse motion is passed on; mouse button events press or
/// release the button they number, if any.
pub open spec fn action_for(input: TauriInput) -> Option<InputAction> {
    match input {
        TauriInput::KeyDown(k) => match key_for_name(lowercase(k@)) {
            Some(code) => Some(InputAction::PressKey(code)),
            None => None,
        },
        TauriInput::KeyUp(k) => match key_for_name(lowercase(k@)) {
            Some(code) => Some(InputAction::ReleaseKey(code)),
            None => None,
        },
        TauriInput::MouseMove { dx_bits, dy_bits } => Some(InputAction::MoveMouse { dx_bits, dy_bits }),
        TauriInput::MouseDown(b) => match button_for_index(b) {
            Some(button) => Some(InputAction::PressButton(button)),
            None => None,
        },
        TauriInput::MouseUp(b) => match button_for_index(b) {
            Some(button) => Some(InputAction::ReleaseButton(button)),
            None => None,
        },
    }
}

/// A key release reads its key name as a key press does: for every name
/// `k` the front end sends, the key-up event releases exactly the key that
/// the key-down event presses, and one has no action exactly when the
/// other has none.
pub proof fn law_key_up_releases_what_key_down_presses(k: String)
    ensures
        forall|c: ControlKey|
            action_for(TauriInput::KeyDown(k)) == Some(InputAction::PressKey(c)) <==> action_for(
                TauriInput::KeyUp(k),
            ) == Some(InputAction::ReleaseKey(c)),
        action_for(TauriInput::KeyDown(k)) is None <==> action_for(TauriInput::KeyUp(k)) is None,
        action_for(TauriInput::KeyDown(k)) is None || action_for(TauriInput::KeyDown(k)) is Some && action_for(
            TauriInput::KeyDown(k),
        ).unwrap() is PressKey,
        action_for(TauriInput::KeyUp(k)) is None || action_for(TauriInput::KeyUp(k)) is Some && action_for(
            TauriInput::KeyUp(k),
        ).unwrap() is ReleaseKey,
{
}

/// Key names are read without regard to case: two names with the same
/// lowercase form (as `str::to_lowercase` gives it) press and release the
/// same key, or both nothing.
pub proof fn law_key_names_ignore_case(k1: String, k2: String)
    requires
        lowercase(k1@) == lowercase(k2@),
    ensures
        action_for(TauriInput::KeyDown(k1)) == action_for(TauriInput::KeyDown(k2)),
        action_for(TauriInput::KeyUp(k1)) == action_for(TauriInput::KeyUp(k2)),
{
}

/// The action of an input event, if it has one.
pub fn input_action(input: &TauriInput) -> (action: Option<InputAction>)
    ensures
        action == action_for(*input),
{
    match input {
        TauriInput::KeyDown(k) => match parse_key_code(k.as_str()) {
            Some(code) => Some(InputAction::PressKey(code)),
            None => None,
        },
        TauriInput::KeyUp(k) => match parse_key_code(k.as_str()) {
            Some(code) => Some(InputAction::ReleaseKey(code)),
            None => None,
        },
        TauriInput::MouseMove { dx_bits, dy_bits } => Some(
            InputAction::MoveMouse { dx_bits: *dx_bits, dy_bits: *dy_bits },
        ),
        TauriInput::MouseDown(b) => match mouse_button_from_index(*b) {
            Some(button) => Some(InputAction::PressButton(button)),
            None => None,
        },
        TauriInput::MouseUp(b) => match mouse_button_from_index(*b) {
            Some(button) => Some(InputAction::ReleaseButton(button)),
            None => None,
        },
    }
}

/// Whether the cursor is locked after a frame's input: a left click locks
/// it, Escape unlocks it, and Escape wins when both come in one frame.
/// The player moves only while the cursor is locked.
pub fn cursor_locked_after(locked: bool, left_just_pressed: bool, escape_just_pressed: bool) -> (l: bool)
    ensures
        l == (if escape_just_pressed {
            false
        } else if left_just_pressed {
            true
        } else {
            locked
        }),
{
    let mut l = locked;
    if left_just_pressed {
        l = true;
    }
    if escape_just_pressed {
        l = false;
    }
    l
}

} // verus!
