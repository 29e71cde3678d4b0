//! The scrollbar leaf widget: a value in `[0, 1]` (kept in fixed-point
//! units of [`SCROLL_DEN`]) over a configurable range, with drag handling
//! that captures the pointer while the handle is held. There is no
//! change-notification hook: an embedder reads the value back from the
//! widget's state after routing the events that move it.

use vstd::prelude::*;
use crate::geometry::{Vec2, Geometry, MAX_DESIRED, MAX_SIZE, geom_sane};
use crate::layout::{Axis, spec_axis_of};
use crate::events::{Reply, WidgetEvent};

verus! {

/// Fixed-point denominator for scrollbar values and fractions: a value of
/// `SCROLL_DEN` means 1.0.
pub const SCROLL_DEN: i64 = 1_000_000;

/// How large a scrollbar's handle is along its axis: an absolute extent in
/// range units, or a fraction (in [`SCROLL_DEN`] units) of the range length.
#[derive(Clone, Copy, PartialEq, Eq, Structural, Debug)]
pub enum ScrollBarHandleSize {
    Absolute(i64),
    Fraction(i64),
}

pub open spec fn handle_size_wf(h: ScrollBarHandleSize) -> bool {
    match h {
        ScrollBarHandleSize::Absolute(a) => 0 <= a <= MAX_DESIRED,
        ScrollBarHandleSize::Fraction(f) => 0 <= f <= SCROLL_DEN,
    }
}

/// The handle extent for a range, in range units.
pub open spec fn spec_handle_size(h: ScrollBarHandleSize, start: int, end: int) -> int {
    match h {
        ScrollBarHandleSize::Absolute(a) => a as int,
        ScrollBarHandleSize::Fraction(f) => f * (end - start) / (SCROLL_DEN as int),
    }
}

impl ScrollBarHandleSize {
    /// The handle extent for the range `[start, end]`, in range units.
    pub fn get_size(&self, start: i64, end: i64) -> (r: i64)
        requires
            handle_size_wf(*self),
            0 <= start <= end <= MAX_DESIRED,
        ensures
            r == spec_handle_size(*self, start as int, end as int),
            0 <= r <= MAX_DESIRED,
    {
        match self {
            ScrollBarHandleSize::Absolute(a) => *a,
            ScrollBarHandleSize::Fraction(f) => {
                proof {
                    assert((f as int) * ((end - start) as int)
                        <= (SCROLL_DEN as int) * (MAX_DESIRED as int)) by (nonlinear_arith)
                        requires
                            0 <= f as int <= SCROLL_DEN as int,
                            0 <= (end - start) as int <= MAX_DESIRED as int,
                    ;
                    assert(0 <= (f as int) * ((end - start) as int)) by (nonlinear_arith)
                        requires 0 <= f as int, 0 <= (end - start) as int;
                }
                let num = (*f as u64) * ((end - start) as u64);
                let q = num / (SCROLL_DEN as u64);
                proof {
                    vstd::arithmetic::div_mod::lemma_div_pos_is_pos(
                        num as int, SCROLL_DEN as int);
                    vstd::arithmetic::div_mod::lemma_multiply_divide_le(
                        num as int, SCROLL_DEN as int, MAX_DESIRED as int);
                }
                q as i64
            },
        }
    }
}

/// State of a scrollbar widget: its axis, range, fixed-point value, handle
/// sizing rule, and the drag in progress if the handle is held.
pub struct ScrollBarWidgetState {
    pub direction: Axis,
    pub range_start: i64,
    pub range_end: i64,
    pub value: i64,
    pub handle_size: ScrollBarHandleSize,
    pub drag_start: Option<(i64, Vec2)>,
}

pub open spec fn scrollbar_wf(s: ScrollBarWidgetState) -> bool {
    &&& 0 <= s.value <= SCROLL_DEN
    &&& 0 <= s.range_start <= s.range_end <= MAX_DESIRED
    &&& handle_size_wf(s.handle_size)
    &&& match s.drag_start {
        Some((v, _)) => 0 <= v <= SCROLL_DEN,
        None => true,
    }
}

/// Clamps a candidate value into the scrollbar's `[0, 1]` fixed-point
/// interval.
pub open spec fn spec_clamp_value(v: int) -> int {
    if v < 0 {
        0
    } else if v > SCROLL_DEN {
        SCROLL_DEN as int
    } else {
        v
    }
}

/// Integer division truncating toward zero, for possibly negative
/// dividends.
pub open spec fn div_toward_zero(n: int, d: int) -> int {
    if n >= 0 {
        n / d
    } else {
        -((-n) / d)
    }
}

/// Executable truncating-toward-zero division on wide integers.
fn div_tz(n: i128, d: i128) -> (r: i128)
    requires
        0 < d,
        i128::MIN < n,
    ensures
        r == div_toward_zero(n as int, d as int),
        n >= 0 ==> 0 <= r <= n,
        n < 0 ==> n <= r <= 0,
{
    if n >= 0 {
        let q = (n as u128) / (d as u128);
        proof {
            vstd::arithmetic::div_mod::lemma_div_nonincreasing(n as int, d as int);
            vstd::arithmetic::div_mod::lemma_div_pos_is_pos(n as int, d as int);
        }
        q as i128
    } else {
        let m = -n;
        let q = (m as u128) / (d as u128);
        proof {
            vstd::arithmetic::div_mod::lemma_div_nonincreasing(m as int, d as int);
            vstd::arithmetic::div_mod::lemma_div_pos_is_pos(m as int, d as int);
        }
        -(q as i128)
    }
}

/// The new scrollbar value while dragging: the cursor's movement along the
/// bar's axis since the drag began, converted from pixels to range units by
/// the bar's pixels-per-value ratio, scaled into fixed-point value units and
/// added to the value the drag began at. Degenerate bars (no pixels along
/// the axis, or an empty range) keep the value the drag began at.
pub open spec fn spec_drag_value(
    s: ScrollBarWidgetState,
    local_axis: int,
    diff: int,
) -> int {
    let v0 = s.drag_start->Some_0.0 as int;
    let length = s.range_end - s.range_start;
    let handle = spec_handle_size(s.handle_size, s.range_start as int, s.range_end as int);
    if local_axis <= 0 || length <= 0 {
        spec_clamp_value(v0)
    } else {
        spec_clamp_value(
            v0 + div_toward_zero(diff * (length + handle) * (SCROLL_DEN as int),
                local_axis * length),
        )
    }
}

/// The scrollbar state after an event: cursor movement during a drag moves
/// the value, a button press starts a drag at the current value, a button
/// release ends it.
pub open spec fn spec_scrollbar_step(
    s: ScrollBarWidgetState,
    geometry: Geometry,
    event: WidgetEvent,
) -> ScrollBarWidgetState {
    match event {
        WidgetEvent::OnCursorMove { pos, .. } => match s.drag_start {
            Some((_, p0)) => ScrollBarWidgetState {
                value: spec_drag_value(
                    s,
                    spec_axis_of(s.direction, geometry.local_size) as int,
                    spec_axis_of(s.direction, pos) - spec_axis_of(s.direction, p0),
                ) as i64,
                ..s
            },
            None => s,
        },
        WidgetEvent::OnMouseButtonDown { pos, .. } => ScrollBarWidgetState {
            drag_start: Some((s.value, pos)),
            ..s
        },
        WidgetEvent::OnMouseButtonUp { .. } => ScrollBarWidgetState { drag_start: None, ..s },
        _ => s,
    }
}

/// The reply a scrollbar gives: drags consume moves, presses consume the
/// button and capture the cursor, releases consume the button and release
/// the capture; everything else is unhandled.
pub fn scrollbar_on_event(
    state: &mut ScrollBarWidgetState,
    geometry: &Geometry,
    event: &WidgetEvent,
) -> (r: Reply)
    requires
        scrollbar_wf(*old(state)),
        geom_sane(*geometry),
    ensures
        *final(state) == spec_scrollbar_step(*old(state), *geometry, *event),
        scrollbar_wf(*final(state)),
        r.take_focus is None,
        r.free_focus is None,
        match *event {
            WidgetEvent::OnCursorMove { .. } => {
                &&& r.handled == old(state).drag_start is Some
                &&& r.capture_cursor is None
                &&& r.release_cursor is None
            },
            WidgetEvent::OnMouseButtonDown { mouse, .. } => {
                &&& r.handled
                &&& r.capture_cursor == Some(mouse)
                &&& r.release_cursor is None
            },
            WidgetEvent::OnMouseButtonUp { mouse, .. } => {
                &&& r.handled
                &&& r.capture_cursor is None
                &&& r.release_cursor == Some(mouse)
            },
            _ => {
                &&& !r.handled
                &&& r.capture_cursor is None
                &&& r.release_cursor is None
            },
        },
{
    match event {
        WidgetEvent::OnCursorMove { pos, .. } => {
            match state.drag_start {
                Some((v0, p0)) => {
                    let (local_axis, _) = state.direction.get_vec_axis(geometry.local_size);
                    let length = state.range_end - state.range_start;
                    let handle = state.handle_size.get_size(state.range_start, state.range_end);
                    let new_value: i64;
                    if local_axis <= 0 || length <= 0 {
                        new_value = clamp_value_i128(v0 as i128);
                    } else {
                        let (pa, _) = state.direction.get_vec_axis(*pos);
                        let (sa, _) = state.direction.get_vec_axis(p0);
                        let diff: i128 = (pa as i128) - (sa as i128);
                        proof {
                            let d = diff as int;
                            let lh = (length + handle) as int;
                            let sd = SCROLL_DEN as int;
                            assert(-(0x4000_0000_0000_0000_0000_0000int)
                                <= d * lh <= 0x4000_0000_0000_0000_0000_0000int)
                                by (nonlinear_arith)
                                requires
                                    -0x1_0000_0000_0000_0000int <= d <= 0x1_0000_0000_0000_0000int,
                                    0 <= lh <= 0x4000_0000int,
                            ;
                            assert(-(0x4_0000_0000_0000_0000_0000_0000_0000int)
                                <= d * lh * sd
                                <= 0x4_0000_0000_0000_0000_0000_0000_0000int)
                                by (nonlinear_arith)
                                requires
                                    -0x4000_0000_0000_0000_0000_0000int
                                        <= d * lh <= 0x4000_0000_0000_0000_0000_0000int,
                                    0 < sd <= 0x10_0000int,
                            ;
                            assert(0 < (local_axis as int) * (length as int)
                                <= 0x1_0000_0000_0000_0000_0000_0000int) by (nonlinear_arith)
                                requires
                                    0 < local_axis as int <= MAX_SIZE,
                                    0 < length as int <= MAX_DESIRED,
                            ;
                        }
                        let num: i128 = diff * ((length + handle) as i128) * (SCROLL_DEN as i128);
                        let den: i128 = (local_axis as i128) * (length as i128);
                        let dv = div_tz(num, den);
                        new_value = clamp_value_i128((v0 as i128) + dv);
                    }
                    state.value = new_value;
                    Reply::handled()
                },
                None => Reply::unhandled(),
            }
        },
        WidgetEvent::OnMouseButtonDown { mouse, pos, .. } => {
            state.drag_start = Some((state.value, *pos));
            Reply::handled().capture_cursor(*mouse)
        },
        WidgetEvent::OnMouseButtonUp { mouse, .. } => {
            state.drag_start = None;
            Reply::handled().release_cursor(*mouse)
        },
        _ => Reply::unhandled(),
    }
}

/// Clamps a wide candidate into the fixed-point value interval.
fn clamp_value_i128(v: i128) -> (r: i64)
    ensures
        r == spec_clamp_value(v as int),
{
    if v < 0 {
        0
    } else if v > (SCROLL_DEN as i128) {
        SCROLL_DEN
    } else {
        v as i64
    }
}

/// Sets the scrollbar's value, clamped into `[0, 1]`.
pub fn scrollbar_set_value(state: &mut ScrollBarWidgetState, value: i64)
    ensures
        *final(state) == (ScrollBarWidgetState {
            value: spec_clamp_value(value as int) as i64,
            ..*old(state)
        }),
{
    state.value = clamp_value_i128(value as i128);
}

/// Sets the scrollbar's range; the value, already a clamped fraction, is
/// unchanged.
pub fn scrollbar_set_range(state: &mut ScrollBarWidgetState, start: i64, end: i64)
    requires
        0 <= start <= end <= MAX_DESIRED,
    ensures
        *final(state) == (ScrollBarWidgetState {
            range_start: start,
            range_end: end,
            value: spec_clamp_value(old(state).value as int) as i64,
            ..*old(state)
        }),
{
    state.range_start = start;
    state.range_end = end;
    let v = state.value;
    scrollbar_set_value(state, v);
}

} // verus!
