//! The interactive leaf widget: a fixed desired size, a click counter, and
//! configurable event handling, so a tree can be populated with leaves that
//! consume exactly the events a caller wants consumed.

use vstd::prelude::*;
use crate::geometry::{Vec2, MAX_DESIRED};
use crate::events::{Reply, WidgetEvent, WidgetFocusChange};

verus! {

/// State of an interactive leaf widget.
///
/// The `handle_*` flags choose which event classes the widget consumes;
/// `click_focus_keyboards` is the focus request attached to a consumed
/// click: `None` for no request, `Some(None)` for all keyboards, and
/// `Some(Some(ids))` for the listed keyboards.
pub struct TestWidgetState {
    pub size: Vec2,
    pub name: String,
    pub counter: u64,
    pub handle_cursor: bool,
    pub handle_buttons: bool,
    pub handle_click: bool,
    pub handle_keys: bool,
    pub click_focus_keyboards: Option<Option<Vec<usize>>>,
}

pub open spec fn test_widget_wf(s: TestWidgetState) -> bool {
    &&& 0 <= s.size.x <= MAX_DESIRED
    &&& 0 <= s.size.y <= MAX_DESIRED
}

/// Whether this leaf consumes the given event.
pub open spec fn spec_leaf_handles(s: TestWidgetState, event: WidgetEvent) -> bool {
    match event {
        WidgetEvent::OnCursorEnter { .. } => s.handle_cursor,
        WidgetEvent::OnCursorMove { .. } => s.handle_cursor,
        WidgetEvent::OnCursorLeave { .. } => s.handle_cursor,
        WidgetEvent::OnClick { .. } => s.handle_click,
        WidgetEvent::OnMouseButtonDown { .. } => s.handle_buttons,
        WidgetEvent::OnMouseButtonUp { .. } => s.handle_buttons,
        WidgetEvent::OnKeyDown { .. } => s.handle_keys,
        WidgetEvent::OnKeyUp { .. } => s.handle_keys,
        WidgetEvent::OnText { .. } => s.handle_keys,
        WidgetEvent::OnFocus { .. } => s.handle_keys,
        WidgetEvent::OnUnfocus { .. } => s.handle_keys,
    }
}

/// The leaf state after receiving an event: a consumed click bumps the
/// click counter (saturating), everything else leaves the state unchanged.
pub open spec fn spec_leaf_step(s: TestWidgetState, event: WidgetEvent) -> TestWidgetState {
    match event {
        WidgetEvent::OnClick { .. } => if s.handle_click {
            TestWidgetState {
                counter: if s.counter < u64::MAX { (s.counter + 1) as u64 } else { s.counter },
                ..s
            }
        } else {
            s
        },
        _ => s,
    }
}

/// Copies a list of keyboard ids.
pub fn copy_ids(v: &Vec<usize>) -> (r: Vec<usize>)
    ensures
        r@ == v@,
{
    let mut r: Vec<usize> = Vec::new();
    let mut i: usize = 0;
    while i < v.len()
        invariant
            0 <= i <= v.len(),
            r@ == v@.subrange(0, i as int),
        decreases v.len() - i,
    {
        r.push(v[i]);
        assert(r@ == v@.subrange(0, i + 1));
        i = i + 1;
    }
    assert(v@.subrange(0, v.len() as int) == v@);
    r
}

/// The reply an interactive leaf gives to an event: handled if its flags
/// consume the event's class, with the configured focus request attached to
/// a consumed click.
pub fn leaf_on_event(state: &mut TestWidgetState, event: &WidgetEvent) -> (r: Reply)
    ensures
        *final(state) == spec_leaf_step(*old(state), *event),
        r.handled == spec_leaf_handles(*old(state), *event),
        r.free_focus is None,
        r.capture_cursor is None,
        r.release_cursor is None,
        match *event {
            WidgetEvent::OnClick { .. } => if old(state).handle_click {
                match old(state).click_focus_keyboards {
                    None => r.take_focus is None,
                    Some(None) => r.take_focus matches Some(WidgetFocusChange::AllKeyboards),
                    Some(Some(ids)) => r.take_focus matches Some(
                        WidgetFocusChange::KeyboardList(l),
                    ) && l@ == ids@,
                }
            } else {
                r.take_focus is None
            },
            _ => r.take_focus is None,
        },
{
    match event {
        WidgetEvent::OnClick { .. } => {
            if state.handle_click {
                if state.counter < u64::MAX {
                    state.counter = state.counter + 1;
                }
                let reply = Reply::handled();
                match &state.click_focus_keyboards {
                    None => reply,
                    Some(None) => reply.take_focus(WidgetFocusChange::AllKeyboards),
                    Some(Some(ids)) => {
                        let copy = copy_ids(ids);
                        reply.take_focus(WidgetFocusChange::KeyboardList(copy))
                    },
                }
            } else {
                Reply::unhandled()
            }
        },
        _ => {
            if leaf_handles(state, event) {
                Reply::handled()
            } else {
                Reply::unhandled()
            }
        },
    }
}

/// Executable form of [`spec_leaf_handles`].
fn leaf_handles(state: &TestWidgetState, event: &WidgetEvent) -> (r: bool)
    ensures
        r == spec_leaf_handles(*state, *event),
{
    match event {
        WidgetEvent::OnCursorEnter { .. } => state.handle_cursor,
        WidgetEvent::OnCursorMove { .. } => state.handle_cursor,
        WidgetEvent::OnCursorLeave { .. } => state.handle_cursor,
        WidgetEvent::OnClick { .. } => state.handle_click,
        WidgetEvent::OnMouseButtonDown { .. } => state.handle_buttons,
        WidgetEvent::OnMouseButtonUp { .. } => state.handle_buttons,
        WidgetEvent::OnKeyDown { .. } => state.handle_keys,
        WidgetEvent::OnKeyUp { .. } => state.handle_keys,
        WidgetEvent::OnText { .. } => state.handle_keys,
        WidgetEvent::OnFocus { .. } => state.handle_keys,
        WidgetEvent::OnUnfocus { .. } => state.handle_keys,
    }
}

} // verus!
