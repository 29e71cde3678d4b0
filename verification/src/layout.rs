//! Layout vocabulary shared by the container widgets: alignments, growth
//! policies, axes and panel directions.

use vstd::prelude::*;
use crate::geometry::Vec2;

verus! {

/// Horizontal placement of a box panel's child inside the available region.
#[derive(Clone, Copy, PartialEq, Eq, Structural, Debug)]
pub enum HorizontalAlignment {
    Left,
    Center,
    Right,
    Fill,
}

/// Vertical placement of a box panel's child inside the available region.
#[derive(Clone, Copy, PartialEq, Eq, Structural, Debug)]
pub enum VerticalAlignment {
    Top,
    Center,
    Bottom,
    Fill,
}

/// A linear panel child's sizing policy on the primary axis: keep the
/// desired extent, fill all remaining space, or grow by an integer weight.
#[derive(Clone, Copy, PartialEq, Eq, Structural, Debug)]
pub enum Growth {
    Fill,
    Fit,
    Val(u32),
}

/// One of the two screen axes.
#[derive(Clone, Copy, PartialEq, Eq, Structural, Debug)]
pub enum Axis {
    Vertical,
    Horizontal,
}

/// The component of `v` along axis `a`.
pub open spec fn spec_axis_of(a: Axis, v: Vec2) -> i64 {
    match a {
        Axis::Vertical => v.y,
        Axis::Horizontal => v.x,
    }
}

/// The component of `v` across axis `a`.
pub open spec fn spec_cross_of(a: Axis, v: Vec2) -> i64 {
    match a {
        Axis::Vertical => v.x,
        Axis::Horizontal => v.y,
    }
}

/// The vector with component `axis_val` along axis `a` and `other` across
/// it.
pub open spec fn spec_create_vec(a: Axis, axis_val: i64, other: i64) -> Vec2 {
    match a {
        Axis::Vertical => Vec2 { x: other, y: axis_val },
        Axis::Horizontal => Vec2 { x: axis_val, y: other },
    }
}

impl Axis {
    /// Splits a vector into its component along this axis and the one
    /// across it, in that order.
    pub fn get_vec_axis(&self, val: Vec2) -> (r: (i64, i64))
        ensures
            r.0 == spec_axis_of(*self, val),
            r.1 == spec_cross_of(*self, val),
    {
        match self {
            Axis::Vertical => (val.y, val.x),
            Axis::Horizontal => (val.x, val.y),
        }
    }

    /// Builds a vector from its component along this axis and the one
    /// across it.
    pub fn create_vec(&self, axis: i64, other: i64) -> (r: Vec2)
        ensures
            r == spec_create_vec(*self, axis, other),
            spec_axis_of(*self, r) == axis,
            spec_cross_of(*self, r) == other,
    {
        match self {
            Axis::Vertical => Vec2 { x: other, y: axis },
            Axis::Horizontal => Vec2 { x: axis, y: other },
        }
    }
}

/// Whether a linear panel lays its children out as a column or a row.
#[derive(Clone, Copy, PartialEq, Eq, Structural, Debug)]
pub enum LinearPanelDirection {
    Vertical,
    Horizontal,
}

/// The axis a linear panel direction distributes space along.
pub open spec fn spec_direction_axis(d: LinearPanelDirection) -> Axis {
    match d {
        LinearPanelDirection::Vertical => Axis::Vertical,
        LinearPanelDirection::Horizontal => Axis::Horizontal,
    }
}

impl LinearPanelDirection {
    /// The primary axis of this direction.
    pub fn axis(&self) -> (r: Axis)
        ensures
            r == spec_direction_axis(*self),
    {
        match self {
            LinearPanelDirection::Vertical => Axis::Vertical,
            LinearPanelDirection::Horizontal => Axis::Horizontal,
        }
    }
}

/// Which scrollbars a scroll panel is constructed with.
#[derive(Clone, Copy, PartialEq, Eq, Structural, Debug)]
pub enum ScrollPanelDirection {
    Horizontal,
    Vertical,
    Both,
}

} // verus!
