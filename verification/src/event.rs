//! Normalized input events, as produced by the external input collaborator
//! and consumed by the event router.

use vstd::prelude::*;
use crate::geom::Vec2;

verus! {

/// A key code, as reported by the host environment (`event.code` values).
pub type Keycode = String;

/// A key, with both its logical value (`key`) and its physical code
/// (`code`), plus the modifier state at the time of the event.
pub struct Key {
    /// The logical key value; for most printable keys this is the character
    /// itself, for others a name such as `"Tab"` or `"Enter"`.
    pub key: String,
    /// The physical key code.
    pub code: Keycode,
    pub shift: bool,
    pub ctrl: bool,
    pub alt: bool,
}

impl Key {
    /// True when the key is one of the modifier keys themselves.
    pub open spec fn spec_is_modifier(&self) -> bool {
        self.key@ == "Alt"@ || self.key@ == "Control"@ || self.key@ == "Shift"@
    }

    pub fn is_modifier(&self) -> (r: bool)
        ensures
            r == self.spec_is_modifier(),
    {
        self.key == "Alt".to_owned() || self.key == "Control".to_owned() || self.key
            == "Shift".to_owned()
    }
}

impl Clone for Key {
    fn clone(&self) -> (r: Self)
        ensures
            r == *self,
    {
        Key {
            key: self.key.clone(),
            code: self.code.clone(),
            shift: self.shift,
            ctrl: self.ctrl,
            alt: self.alt,
        }
    }
}

/// A mouse button. `Left` is the primary button.
#[derive(Clone, Copy, PartialEq, Eq, Structural, Hash, Debug)]
pub enum MouseButton {
    Left,
    Right,
    Middle,
    Back,
    Forward,
}

impl MouseButton {
    /// Maps a host button number to a button, in the order the host
    /// reports them: 0 left, 1 middle, 2 right, 3 back, 4 forward.
    pub fn from_code(code: i16) -> (r: Option<MouseButton>)
        ensures
            r == Self::spec_from_code(code),
    {
        match code {
            0 => Some(MouseButton::Left),
            1 => Some(MouseButton::Middle),
            2 => Some(MouseButton::Right),
            3 => Some(MouseButton::Back),
            4 => Some(MouseButton::Forward),
            _ => None,
        }
    }

    pub open spec fn spec_from_code(code: i16) -> Option<MouseButton> {
        if code == 0 {
            Some(MouseButton::Left)
        } else if code == 1 {
            Some(MouseButton::Middle)
        } else if code == 2 {
            Some(MouseButton::Right)
        } else if code == 3 {
            Some(MouseButton::Back)
        } else if code == 4 {
            Some(MouseButton::Forward)
        } else {
            None
        }
    }
}

/// One input occurrence. Mouse positions are in surface pixels; when an
/// event is delivered to a component its position is translated into that
/// component's local frame.
pub enum Event {
    KeyDown(Key),
    KeyUp(Key),
    MouseDown(MouseButton, Vec2),
    MouseUp(MouseButton, Vec2),
    MouseMove { pos: Vec2, movement: Vec2 },
    MouseEnter,
    MouseLeave,
    FocusGained,
    FocusLost,
    WindowResized(Vec2),
    PointerLocked,
    PointerUnlocked,
    /// A scroll step: negative up, positive down.
    Scroll(i32),
}

impl Clone for Event {
    fn clone(&self) -> (r: Self)
        ensures
            r == *self,
    {
        match self {
            Event::KeyDown(k) => Event::KeyDown(k.clone()),
            Event::KeyUp(k) => Event::KeyUp(k.clone()),
            Event::MouseDown(b, p) => Event::MouseDown(*b, *p),
            Event::MouseUp(b, p) => Event::MouseUp(*b, *p),
            Event::MouseMove { pos, movement } => Event::MouseMove {
                pos: *pos,
                movement: *movement,
            },
            Event::MouseEnter => Event::MouseEnter,
            Event::MouseLeave => Event::MouseLeave,
            Event::FocusGained => Event::FocusGained,
            Event::FocusLost => Event::FocusLost,
            Event::WindowResized(s) => Event::WindowResized(*s),
            Event::PointerLocked => Event::PointerLocked,
            Event::PointerUnlocked => Event::PointerUnlocked,
            Event::Scroll(d) => Event::Scroll(*d),
        }
    }
}

} // verus!
