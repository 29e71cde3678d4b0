//! The linear panel: children stacked along a row or column, each sized by
//! the growth distribution of [`crate::linear`].

use vstd::prelude::*;
use crate::geometry::TREE_CAP;
use crate::layout::{Growth, LinearPanelDirection};

verus! {

/// One linear panel child and its growth policy.
pub struct LinearPanelSlot {
    pub widget: usize,
    pub growth: Growth,
}

/// State of a linear panel: its direction and its slotted children in
/// declaration order.
pub struct LinearPanelState {
    pub direction: LinearPanelDirection,
    pub children: Vec<LinearPanelSlot>,
}

pub open spec fn linear_wf(s: LinearPanelState, id: int) -> bool {
    &&& s.children@.len() <= TREE_CAP
    &&& forall|i: int| 0 <= i < s.children@.len() ==> 0 <= (#[trigger] s.children@[i]).widget < id
}

} // verus!
