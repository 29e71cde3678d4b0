//! The overlay panel: a true z-stack, every child arranged at the panel's
//! origin with the panel's full size.

use vstd::prelude::*;
use crate::geometry::TREE_CAP;

verus! {

/// One overlay panel child.
pub struct OverlayPanelSlot {
    pub widget: usize,
}

/// State of an overlay panel: its stacked children, bottom first.
pub struct OverlayPanelState {
    pub children: Vec<OverlayPanelSlot>,
}

pub open spec fn overlay_wf(s: OverlayPanelState, id: int) -> bool {
    &&& s.children@.len() <= TREE_CAP
    &&& forall|i: int| 0 <= i < s.children@.len() ==> 0 <= (#[trigger] s.children@[i]).widget < id
}

} // verus!
