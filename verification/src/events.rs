//! Input event vocabulary: mouse buttons, widget events, handler replies and
//! the side-effect requests a reply may carry.

use vstd::prelude::*;
use crate::geometry::Vec2;

verus! {

/// A mouse button, as reported by the platform.
#[derive(Clone, Copy, PartialEq, Eq, Structural, Debug)]
pub enum MouseButton {
    Left,
    Right,
    Middle,
    Other(u16),
}

/// The evdev-style button codes for the three standard mouse buttons.
pub const BTN_CODE_LEFT: u16 = 272;
pub const BTN_CODE_RIGHT: u16 = 273;
pub const BTN_CODE_MIDDLE: u16 = 274;

/// Maps a raw platform button code to a mouse button: the three standard
/// codes get their named button, anything else is passed through.
pub fn conv_mouse_button(btn: u16) -> (r: MouseButton)
    ensures
        r == if btn == BTN_CODE_LEFT {
            MouseButton::Left
        } else if btn == BTN_CODE_RIGHT {
            MouseButton::Right
        } else if btn == BTN_CODE_MIDDLE {
            MouseButton::Middle
        } else {
            MouseButton::Other(btn)
        },
{
    if btn == BTN_CODE_LEFT {
        MouseButton::Left
    } else if btn == BTN_CODE_RIGHT {
        MouseButton::Right
    } else if btn == BTN_CODE_MIDDLE {
        MouseButton::Middle
    } else {
        MouseButton::Other(btn)
    }
}

/// An event delivered to a single widget by the routing layer.
///
/// `cursor`, `mouse` and `keyboard` are integer device ids; `pos` is an
/// absolute position in window coordinates. `key` carries an optional
/// symbolic key code alongside the physical one.
#[derive(Clone, Copy, PartialEq, Eq, Structural, Debug)]
pub enum WidgetEvent {
    OnCursorEnter { cursor: usize },
    OnCursorMove { cursor: usize, pos: Vec2 },
    OnCursorLeave { cursor: usize },
    OnClick { mouse: usize, button: MouseButton, pos: Vec2 },
    OnMouseButtonDown { mouse: usize, button: MouseButton, pos: Vec2 },
    OnMouseButtonUp { mouse: usize, button: MouseButton, pos: Vec2 },
    OnKeyDown { keyboard: usize, key_physical: usize, key: Option<u32> },
    OnKeyUp { keyboard: usize, key_physical: usize, key: Option<u32> },
    OnText { keyboard: usize, character: char },
    OnFocus { keyboard: usize },
    OnUnfocus { keyboard: usize },
}

/// One delivery of an event to a widget, recorded in the order the tree
/// dispatched it.
#[derive(Clone, Copy, PartialEq, Eq, Structural, Debug)]
pub struct DispatchRecord {
    pub target: usize,
    pub event: WidgetEvent,
}

/// Which keyboards a focus request applies to.
#[derive(PartialEq, Eq, Debug)]
pub enum WidgetFocusChange {
    KeyboardList(Vec<usize>),
    AllKeyboards,
}

/// The result of an event handler: whether the event was consumed, plus
/// one-shot side-effect requests the routing layer applies afterwards.
pub struct Reply {
    pub handled: bool,
    pub take_focus: Option<WidgetFocusChange>,
    pub free_focus: Option<WidgetFocusChange>,
    pub capture_cursor: Option<usize>,
    pub release_cursor: Option<usize>,
}

impl Reply {
    /// A reply that leaves the event unconsumed and requests nothing.
    pub fn unhandled() -> (r: Reply)
        ensures
            !r.handled,
            r.take_focus is None,
            r.free_focus is None,
            r.capture_cursor is None,
            r.release_cursor is None,
    {
        Reply {
            handled: false,
            take_focus: None,
            free_focus: None,
            capture_cursor: None,
            release_cursor: None,
        }
    }

    /// A reply that consumes the event and requests nothing.
    pub fn handled() -> (r: Reply)
        ensures
            r.handled,
            r.take_focus is None,
            r.free_focus is None,
            r.capture_cursor is None,
            r.release_cursor is None,
    {
        Reply {
            handled: true,
            take_focus: None,
            free_focus: None,
            capture_cursor: None,
            release_cursor: None,
        }
    }

    /// Requests focus on the given keyboards for the replying widget.
    pub fn take_focus(self, change: WidgetFocusChange) -> (r: Reply)
        ensures
            r == (Reply { take_focus: Some(change), ..self }),
    {
        Reply { take_focus: Some(change), ..self }
    }

    /// Requests that the replying widget's focus be released on the given
    /// keyboards.
    pub fn free_focus(self, change: WidgetFocusChange) -> (r: Reply)
        ensures
            r == (Reply { free_focus: Some(change), ..self }),
    {
        Reply { free_focus: Some(change), ..self }
    }

    /// Requests exclusive pointer routing of the given cursor device to the
    /// replying widget.
    pub fn capture_cursor(self, cursor: usize) -> (r: Reply)
        ensures
            r == (Reply { capture_cursor: Some(cursor), ..self }),
    {
        Reply { capture_cursor: Some(cursor), ..self }
    }

    /// Requests that the replying widget's capture of the given cursor
    /// device be released.
    pub fn release_cursor(self, cursor: usize) -> (r: Reply)
        ensures
            r == (Reply { release_cursor: Some(cursor), ..self }),
    {
        Reply { release_cursor: Some(cursor), ..self }
    }
}

/// A side effect the routing layer asks the platform boundary to perform.
#[derive(Clone, Copy, PartialEq, Eq, Structural, Debug)]
pub enum PlatformRequest {
    SetCaptureCursor { cursor: usize, capture: bool },
}

} // verus!
