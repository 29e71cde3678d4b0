//! The scroll panel: one content child viewed through a viewport, with up
//! to two scrollbar children that drive the content offset.

use vstd::prelude::*;
use crate::layout::ScrollPanelDirection;

verus! {

/// State of a scroll panel: its configured direction, the scrollbar nodes
/// it was built with, and the content node.
pub struct ScrollPanelState {
    pub direction: ScrollPanelDirection,
    pub horizontal: Option<usize>,
    pub vertical: Option<usize>,
    pub content: Option<usize>,
}

pub open spec fn scroll_panel_wf(s: ScrollPanelState, id: int) -> bool {
    &&& match s.horizontal {
        Some(h) => 0 <= h < id,
        None => true,
    }
    &&& match s.vertical {
        Some(v) => 0 <= v < id,
        None => true,
    }
    &&& match s.content {
        Some(c) => 0 <= c < id,
        None => true,
    }
    &&& match (s.horizontal, s.vertical) {
        (Some(h), Some(v)) => h != v,
        _ => true,
    }
}

} // verus!
