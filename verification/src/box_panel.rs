//! The box panel: a single child with independent horizontal and vertical
//! alignment inside the panel's region, plus optional size overrides.

use vstd::prelude::*;
use crate::geometry::{Vec2, MAX_DESIRED, MAX_SIZE};
use crate::layout::{HorizontalAlignment, VerticalAlignment};

verus! {

/// State of a box panel: its child and placement configuration.
pub struct BoxPanelState {
    pub child: usize,
    pub v_align: VerticalAlignment,
    pub h_align: HorizontalAlignment,
    pub override_x: Option<i64>,
    pub override_y: Option<i64>,
}

pub open spec fn box_wf(s: BoxPanelState, id: int) -> bool {
    &&& 0 <= s.child < id
    &&& match s.override_x {
        Some(v) => 0 <= v <= MAX_DESIRED,
        None => true,
    }
    &&& match s.override_y {
        Some(v) => 0 <= v <= MAX_DESIRED,
        None => true,
    }
}

/// Half of a difference, rounded toward zero, matching how a centered child
/// splits leftover space.
pub open spec fn spec_half_toward_zero(d: int) -> int {
    if d >= 0 {
        d / 2
    } else {
        -((-d) / 2)
    }
}

/// The offset of the box child on one axis: zero for the leading alignment
/// or `Fill`, half the leftover for `Center`, all of it for the trailing
/// alignment.
pub open spec fn spec_box_offset_h(align: HorizontalAlignment, avail: int, size: int) -> int {
    match align {
        HorizontalAlignment::Left => 0,
        HorizontalAlignment::Center => spec_half_toward_zero(avail - size),
        HorizontalAlignment::Right => avail - size,
        HorizontalAlignment::Fill => 0,
    }
}

pub open spec fn spec_box_offset_v(align: VerticalAlignment, avail: int, size: int) -> int {
    match align {
        VerticalAlignment::Top => 0,
        VerticalAlignment::Center => spec_half_toward_zero(avail - size),
        VerticalAlignment::Bottom => avail - size,
        VerticalAlignment::Fill => 0,
    }
}

/// The size of the box child on one axis: the available extent for `Fill`,
/// the desired extent otherwise.
pub open spec fn spec_box_size_h(align: HorizontalAlignment, avail: int, desired: int) -> int {
    match align {
        HorizontalAlignment::Fill => avail,
        _ => desired,
    }
}

pub open spec fn spec_box_size_v(align: VerticalAlignment, avail: int, desired: int) -> int {
    match align {
        VerticalAlignment::Fill => avail,
        _ => desired,
    }
}

fn half_toward_zero(d: i64) -> (r: i64)
    requires
        -MAX_SIZE <= d <= MAX_SIZE,
    ensures
        r == spec_half_toward_zero(d as int),
{
    if d >= 0 {
        ((d as u64) / 2) as i64
    } else {
        let m = (-d) as u64;
        -((m / 2) as i64)
    }
}

/// Places the box panel's child: starting from the panel's desired size
/// (the child's desired size with overrides substituted) and a zero offset,
/// each axis is sized and offset by its alignment inside the available
/// local size.
pub fn box_placement(
    desired: Vec2,
    local: Vec2,
    h_align: &HorizontalAlignment,
    v_align: &VerticalAlignment,
) -> (r: (Vec2, Vec2))
    requires
        0 <= desired.x <= MAX_DESIRED,
        0 <= desired.y <= MAX_DESIRED,
        0 <= local.x <= MAX_SIZE,
        0 <= local.y <= MAX_SIZE,
    ensures
        r.0.x == spec_box_offset_h(*h_align, local.x as int, desired.x as int),
        r.0.y == spec_box_offset_v(*v_align, local.y as int, desired.y as int),
        r.1.x == spec_box_size_h(*h_align, local.x as int, desired.x as int),
        r.1.y == spec_box_size_v(*v_align, local.y as int, desired.y as int),
{
    let mut size = desired;
    let mut pos = Vec2 { x: 0, y: 0 };
    match v_align {
        VerticalAlignment::Top => {},
        VerticalAlignment::Center => {
            pos.y = half_toward_zero(local.y - size.y);
        },
        VerticalAlignment::Bottom => {
            pos.y = local.y - size.y;
        },
        VerticalAlignment::Fill => {
            size.y = local.y;
        },
    }
    match h_align {
        HorizontalAlignment::Left => {},
        HorizontalAlignment::Center => {
            pos.x = half_toward_zero(local.x - size.x);
        },
        HorizontalAlignment::Right => {
            pos.x = local.x - size.x;
        },
        HorizontalAlignment::Fill => {
            size.x = local.x;
        },
    }
    (pos, size)
}

} // verus!
