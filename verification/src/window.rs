//! The window root widget: holds the window's content and the opaque
//! platform window identifier used to correlate platform events back to the
//! right tree.

use vstd::prelude::*;

verus! {

/// State of a window widget.
pub struct WindowWidgetState {
    pub window_id: Option<u64>,
    pub content: Option<usize>,
}

pub open spec fn window_wf(s: WindowWidgetState, id: int) -> bool {
    match s.content {
        Some(c) => 0 <= c < id,
        None => true,
    }
}

} // verus!
