//! The arrange pass: a container computes a placement for each child from
//! the geometry it was given, recursively arranges every child with its
//! derived geometry, and caches the result. The cached arrangement is what
//! painting and hit-testing walk.

use vstd::prelude::*;
use vstd::arithmetic::mul::lemma_mul_inequality;
use crate::geometry::{
    Vec2, Geometry, geom_ok, geom_sane, lemma_geom_ok_sane,
    MAX_DESIRED, MAX_SIZE, POS_UNIT, SIZE_UNIT, TREE_CAP,
};
use crate::layout::{LinearPanelDirection, spec_axis_of, spec_cross_of};
use crate::linear::{
    LinearEntry, entries_ok, spec_extent, sum_extents_prefix,
    linear_extents, lemma_extra_bounds, lemma_required_bounds, lemma_sum_extents_monotone,
    lemma_linear_extents_sum,
};
use crate::box_panel::{spec_box_offset_h, spec_box_offset_v, spec_box_size_h, spec_box_size_v,
    box_placement};
use crate::linear_panel::LinearPanelSlot;
use crate::scroll_bar::{SCROLL_DEN, scrollbar_set_range};
use crate::widget::{
    WidgetTree, WidgetState, WidgetKind, WidgetArrangement, WidgetId,
    tree_wf, node_wf, kind_wf, spec_desired, prim_of, cross_of,
    lemma_node_update_wf,
};

verus! {

/// A geometry assembled from placement formula values: local position and
/// size as computed, absolute position derived from the parent's, and the
/// parent's scale carried over.
pub open spec fn geom_from(
    pos_x: int, pos_y: int,
    size_x: int, size_y: int,
    abs_x: int, abs_y: int,
    scale: Vec2,
) -> Geometry {
    Geometry {
        local_pos: Vec2 { x: pos_x as i64, y: pos_y as i64 },
        local_size: Vec2 { x: size_x as i64, y: size_y as i64 },
        absolute_pos: Vec2 { x: abs_x as i64, y: abs_y as i64 },
        scale,
    }
}

/// The arrangement a parent with geometry `g` gives child `w` placed at
/// `pos` with size `size`.
pub open spec fn spec_child_arrangement(
    g: Geometry,
    w: WidgetId,
    pos: (int, int),
    size: (int, int),
) -> WidgetArrangement {
    WidgetArrangement {
        widget: w,
        geometry: geom_from(
            pos.0, pos.1, size.0, size.1,
            g.absolute_pos.x + pos.0, g.absolute_pos.y + pos.1,
            g.scale,
        ),
    }
}

/// The linear-growth entries of a linear panel's slots: each child's
/// desired primary extent paired with its declared growth.
pub open spec fn spec_linear_entries(
    t: Seq<WidgetState>,
    slots: Seq<LinearPanelSlot>,
    dir: LinearPanelDirection,
) -> Seq<LinearEntry> {
    Seq::new(slots.len(), |i: int| LinearEntry {
        desired: prim_of(dir, spec_desired(t, slots[i].widget as int)) as i64,
        growth: slots[i].growth,
    })
}

/// The viewport of a scroll panel: its local size with a strip reserved for
/// each scrollbar present, clamped at zero.
pub open spec fn spec_scroll_viewport(t: Seq<WidgetState>, id: int, g: Geometry) -> (int, int) {
    let s = t[id].kind->ScrollPanel_0;
    let vx = match s.vertical {
        Some(v) => g.local_size.x - spec_desired(t, v as int).0,
        None => g.local_size.x as int,
    };
    let vy = match s.horizontal {
        Some(h) => g.local_size.y - spec_desired(t, h as int).1,
        None => g.local_size.y as int,
    };
    (if vx > 0 { vx } else { 0 }, if vy > 0 { vy } else { 0 })
}

/// Per-axis overflow of a scroll panel: how much of the content's desired
/// size does not fit in the viewport, clamped at zero.
pub open spec fn spec_scroll_overflow(t: Seq<WidgetState>, id: int, g: Geometry) -> (int, int) {
    let d = spec_desired(t, id);
    let vp = spec_scroll_viewport(t, id, g);
    (
        if d.0 - vp.0 > 0 { d.0 - vp.0 } else { 0 },
        if d.1 - vp.1 > 0 { d.1 - vp.1 } else { 0 },
    )
}

/// Whether the horizontal axis scrolls: there is overflow and a horizontal
/// scrollbar exists.
pub open spec fn spec_scroll_active_h(t: Seq<WidgetState>, id: int, g: Geometry) -> bool {
    &&& t[id].kind->ScrollPanel_0.horizontal is Some
    &&& spec_scroll_overflow(t, id, g).0 > 0
}

pub open spec fn spec_scroll_active_v(t: Seq<WidgetState>, id: int, g: Geometry) -> bool {
    &&& t[id].kind->ScrollPanel_0.vertical is Some
    &&& spec_scroll_overflow(t, id, g).1 > 0
}

/// The fixed-point value of the scrollbar node at `b`, or zero if `b` is
/// not a scrollbar.
pub open spec fn spec_bar_value(t: Seq<WidgetState>, b: int) -> int {
    match t[b].kind {
        WidgetKind::ScrollBar(sb) => sb.value as int,
        _ => 0,
    }
}

/// The offset of a scroll panel's content: on each active axis the content
/// is shifted back by the scrolled-away share of the overflow.
pub open spec fn spec_scroll_content_pos(t: Seq<WidgetState>, id: int, g: Geometry) -> (int, int) {
    let s = t[id].kind->ScrollPanel_0;
    let ov = spec_scroll_overflow(t, id, g);
    (
        if spec_scroll_active_h(t, id, g) {
            -(ov.0 * spec_bar_value(t, s.horizontal->0 as int) / (SCROLL_DEN as int))
        } else {
            0
        },
        if spec_scroll_active_v(t, id, g) {
            -(ov.1 * spec_bar_value(t, s.vertical->0 as int) / (SCROLL_DEN as int))
        } else {
            0
        },
    )
}

/// The size of a scroll panel's content: its desired size, but never
/// smaller than the viewport.
pub open spec fn spec_scroll_content_size(t: Seq<WidgetState>, id: int, g: Geometry) -> (int, int) {
    let d = spec_desired(t, id);
    let vp = spec_scroll_viewport(t, id, g);
    (
        if d.0 > vp.0 { d.0 } else { vp.0 },
        if d.1 > vp.1 { d.1 } else { vp.1 },
    )
}

/// The arrangement of a scroll panel: the content (if any), then the active
/// vertical bar along the right edge, then the active horizontal bar along
/// the bottom edge.
pub open spec fn spec_scroll_arrangement(
    t: Seq<WidgetState>,
    id: int,
    g: Geometry,
) -> Seq<WidgetArrangement> {
    let s = t[id].kind->ScrollPanel_0;
    let vp = spec_scroll_viewport(t, id, g);
    let content = match s.content {
        Some(c) => seq![
            spec_child_arrangement(
                g, c,
                spec_scroll_content_pos(t, id, g),
                spec_scroll_content_size(t, id, g),
            ),
        ],
        None => Seq::<WidgetArrangement>::empty(),
    };
    let vbar = if spec_scroll_active_v(t, id, g) {
        seq![
            spec_child_arrangement(
                g, s.vertical->0,
                (vp.0, 0),
                (spec_desired(t, s.vertical->0 as int).0, vp.1),
            ),
        ]
    } else {
        Seq::<WidgetArrangement>::empty()
    };
    let hbar = if spec_scroll_active_h(t, id, g) {
        seq![
            spec_child_arrangement(
                g, s.horizontal->0,
                (0, vp.1),
                (vp.0, spec_desired(t, s.horizontal->0 as int).1),
            ),
        ]
    } else {
        Seq::<WidgetArrangement>::empty()
    };
    content + vbar + hbar
}

/// The placements a container computes for its children from the geometry
/// it was arranged with. Leaves place nothing.
pub open spec fn spec_arrangement(
    t: Seq<WidgetState>,
    id: int,
    g: Geometry,
) -> Seq<WidgetArrangement> {
    match t[id].kind {
        WidgetKind::TestWidget(_) => Seq::empty(),
        WidgetKind::ScrollBar(_) => Seq::empty(),
        WidgetKind::BoxPanel(s) => {
            let d = spec_desired(t, id);
            seq![
                spec_child_arrangement(
                    g, s.child,
                    (
                        spec_box_offset_h(s.h_align, g.local_size.x as int, d.0),
                        spec_box_offset_v(s.v_align, g.local_size.y as int, d.1),
                    ),
                    (
                        spec_box_size_h(s.h_align, g.local_size.x as int, d.0),
                        spec_box_size_v(s.v_align, g.local_size.y as int, d.1),
                    ),
                ),
            ]
        },
        WidgetKind::LinearPanel(s) => {
            let entries = spec_linear_entries(t, s.children@, s.direction);
            let a = prim_of(s.direction, (g.local_size.x as int, g.local_size.y as int));
            let cross = cross_of(s.direction, (g.local_size.x as int, g.local_size.y as int));
            Seq::new(s.children@.len(), |i: int| {
                let off = sum_extents_prefix(entries, a, i);
                let e = spec_extent(entries, a, i);
                match s.direction {
                    LinearPanelDirection::Horizontal => spec_child_arrangement(
                        g, s.children@[i].widget, (off, 0), (e, cross)),
                    LinearPanelDirection::Vertical => spec_child_arrangement(
                        g, s.children@[i].widget, (0, off), (cross, e)),
                }
            })
        },
        WidgetKind::OverlayPanel(s) => Seq::new(s.children@.len(), |i: int| {
            spec_child_arrangement(
                g, s.children@[i].widget,
                (0, 0),
                (g.local_size.x as int, g.local_size.y as int),
            )
        }),
        WidgetKind::ScrollPanel(_) => spec_scroll_arrangement(t, id, g),
        WidgetKind::Window(s) => match s.content {
            Some(c) => seq![WidgetArrangement { widget: c, geometry: g }],
            None => Seq::<WidgetArrangement>::empty(),
        },
    }
}

/// Every placement points strictly below the container and carries a
/// geometry within the child's arrangement envelope.
pub open spec fn arrangement_ok(r: Seq<WidgetArrangement>, id: int) -> bool {
    forall|j: int| 0 <= j < r.len() ==> {
        &&& 0 <= (#[trigger] r[j]).widget < id
        &&& geom_ok(r[j].geometry, r[j].widget as int)
    }
}

/// What an arrangement pass may change about a node's identity: nothing —
/// except that a scroll panel resets its scrollbars' ranges, so a
/// scrollbar's range may move while everything else about it stays.
pub open spec fn arrange_keeps(a: WidgetState, b: WidgetState) -> bool {
    &&& b.parent == a.parent
    &&& match (a.kind, b.kind) {
        (WidgetKind::ScrollBar(x), WidgetKind::ScrollBar(y)) => {
            &&& y.direction == x.direction
            &&& y.value == x.value
            &&& y.handle_size == x.handle_size
            &&& y.drag_start == x.drag_start
        },
        _ => b.kind == a.kind,
    }
}

/// `arrange_keeps` composes across successive passes.
pub proof fn lemma_arrange_keeps_trans(a: WidgetState, b: WidgetState, c: WidgetState)
    requires
        arrange_keeps(a, b),
        arrange_keeps(b, c),
    ensures
        arrange_keeps(a, c),
{
}

/// A node's desired size depends only on what `arrange_keeps` preserves, so
/// an arrangement pass never changes any desired size.
pub proof fn lemma_desired_stable(t0: Seq<WidgetState>, t1: Seq<WidgetState>, id: int)
    requires
        t1.len() == t0.len(),
        forall|i: int| 0 <= i < t0.len() ==> arrange_keeps(#[trigger] t0[i], t1[i]),
    ensures
        spec_desired(t1, id) == spec_desired(t0, id),
    decreases id, 1int, 0int,
{
    if 0 <= id < t0.len() {
        match t0[id].kind {
            WidgetKind::BoxPanel(s) => {
                if 0 <= s.child < id {
                    lemma_desired_stable(t0, t1, s.child as int);
                }
            },
            WidgetKind::LinearPanel(s) => {
                lemma_linear_desired_stable(
                    t0, t1, id, s.children@, s.children@.len() as int, s.direction);
            },
            WidgetKind::OverlayPanel(s) => {
                lemma_overlay_desired_stable(t0, t1, id, s.children@, s.children@.len() as int);
            },
            WidgetKind::ScrollPanel(s) => {
                match s.content {
                    Some(c) => {
                        if 0 <= c < id {
                            lemma_desired_stable(t0, t1, c as int);
                        }
                    },
                    None => {},
                }
            },
            WidgetKind::Window(s) => {
                match s.content {
                    Some(c) => {
                        if 0 <= c < id {
                            lemma_desired_stable(t0, t1, c as int);
                        }
                    },
                    None => {},
                }
            },
            _ => {},
        }
    }
}

proof fn lemma_linear_desired_stable(
    t0: Seq<WidgetState>,
    t1: Seq<WidgetState>,
    id: int,
    slots: Seq<LinearPanelSlot>,
    n: int,
    dir: LinearPanelDirection,
)
    requires
        t1.len() == t0.len(),
        forall|i: int| 0 <= i < t0.len() ==> arrange_keeps(#[trigger] t0[i], t1[i]),
    ensures
        crate::widget::linear_desired_prefix(t1, id, slots, n, dir)
            == crate::widget::linear_desired_prefix(t0, id, slots, n, dir),
    decreases id, 0int, n,
{
    if n > 0 {
        lemma_linear_desired_stable(t0, t1, id, slots, n - 1, dir);
        let w = slots[n - 1].widget;
        if 0 <= w < id {
            lemma_desired_stable(t0, t1, w as int);
        }
    }
}

proof fn lemma_overlay_desired_stable(
    t0: Seq<WidgetState>,
    t1: Seq<WidgetState>,
    id: int,
    slots: Seq<crate::overlay_panel::OverlayPanelSlot>,
    n: int,
)
    requires
        t1.len() == t0.len(),
        forall|i: int| 0 <= i < t0.len() ==> arrange_keeps(#[trigger] t0[i], t1[i]),
    ensures
        crate::widget::overlay_desired_prefix(t1, id, slots, n)
            == crate::widget::overlay_desired_prefix(t0, id, slots, n),
    decreases id, 0int, n,
{
    if n > 0 {
        lemma_overlay_desired_stable(t0, t1, id, slots, n - 1);
        let w = slots[n - 1].widget;
        if 0 <= w < id {
            lemma_desired_stable(t0, t1, w as int);
        }
    }
}

/// A node's placements depend only on what `arrange_keeps` preserves —
/// structure, configuration, scrollbar values and desired sizes — so an
/// arrangement pass never changes what any node would place.
pub proof fn lemma_arrangement_stable(
    t0: Seq<WidgetState>,
    t1: Seq<WidgetState>,
    id: int,
    g: Geometry,
)
    requires
        t1.len() == t0.len(),
        forall|k: int| 0 <= k < t0.len() ==> arrange_keeps(#[trigger] t0[k], t1[k]),
        0 <= id < t0.len(),
        forall|k: int| 0 <= k < t0.len() ==> node_wf(t0, k),
    ensures
        spec_arrangement(t1, id, g) == spec_arrangement(t0, id, g),
{
    assert(node_wf(t0, id));
    match t0[id].kind {
        WidgetKind::TestWidget(_) => {
            assert(spec_arrangement(t1, id, g) =~= spec_arrangement(t0, id, g));
        },
        WidgetKind::ScrollBar(_) => {
            assert(spec_arrangement(t1, id, g) =~= spec_arrangement(t0, id, g));
        },
        WidgetKind::BoxPanel(_) => {
            lemma_desired_stable(t0, t1, id);
            assert(spec_arrangement(t1, id, g) =~= spec_arrangement(t0, id, g));
        },
        WidgetKind::LinearPanel(s) => {
            let e0 = spec_linear_entries(t0, s.children@, s.direction);
            let e1 = spec_linear_entries(t1, s.children@, s.direction);
            assert forall|j: int| 0 <= j < s.children@.len()
                implies e1[j] == e0[j] by {
                lemma_desired_stable(t0, t1, s.children@[j].widget as int);
            }
            assert(e1 =~= e0);
            assert(spec_arrangement(t1, id, g) =~= spec_arrangement(t0, id, g));
        },
        WidgetKind::OverlayPanel(_) => {
            assert(spec_arrangement(t1, id, g) =~= spec_arrangement(t0, id, g));
        },
        WidgetKind::ScrollPanel(s) => {
            lemma_desired_stable(t0, t1, id);
            match s.horizontal {
                Some(h) => {
                    lemma_desired_stable(t0, t1, h as int);
                    if 0 <= h < t0.len() {
                        assert(spec_bar_value(t1, h as int) == spec_bar_value(t0, h as int));
                    }
                },
                None => {},
            }
            match s.vertical {
                Some(v) => {
                    lemma_desired_stable(t0, t1, v as int);
                    if 0 <= v < t0.len() {
                        assert(spec_bar_value(t1, v as int) == spec_bar_value(t0, v as int));
                    }
                },
                None => {},
            }
            assert(spec_scroll_viewport(t1, id, g) == spec_scroll_viewport(t0, id, g));
            assert(spec_scroll_overflow(t1, id, g) == spec_scroll_overflow(t0, id, g));
            assert(spec_scroll_content_pos(t1, id, g) == spec_scroll_content_pos(t0, id, g));
            assert(spec_arrangement(t1, id, g) =~= spec_arrangement(t0, id, g));
        },
        WidgetKind::Window(_) => {
            assert(spec_arrangement(t1, id, g) =~= spec_arrangement(t0, id, g));
        },
    }
}

/// A node whose cached arrangement matches what its cached geometry places
/// under the current tree.
pub open spec fn arranged_consistent_at(t: Seq<WidgetState>, i: int) -> bool {
    t[i].arranged@ == spec_arrangement(t, i, t[i].cached_geometry)
}

/// The geometry envelope only widens as indices shrink: a geometry fit for
/// node `id` also fits any node below it.
pub proof fn lemma_geom_ok_widens(g: Geometry, id: int, w: int)
    requires
        geom_ok(g, id),
        0 <= w < id,
    ensures
        geom_ok(g, w),
{
    lemma_mul_inequality(TREE_CAP - id, TREE_CAP - w, SIZE_UNIT as int);
    lemma_mul_inequality(TREE_CAP - id, TREE_CAP - w, POS_UNIT as int);
}

/// A child placement within the per-level allowances lands inside the
/// child's own envelope.
pub proof fn lemma_child_geom_ok(
    g: Geometry,
    id: int,
    w: int,
    pos_x: int, pos_y: int,
    size_x: int, size_y: int,
)
    requires
        geom_ok(g, id),
        0 <= w < id,
        0 <= size_x <= (TREE_CAP - id) * SIZE_UNIT + MAX_DESIRED,
        0 <= size_y <= (TREE_CAP - id) * SIZE_UNIT + MAX_DESIRED,
        -POS_UNIT <= pos_x <= POS_UNIT,
        -POS_UNIT <= pos_y <= POS_UNIT,
    ensures
        geom_ok(
            geom_from(pos_x, pos_y, size_x, size_y,
                g.absolute_pos.x + pos_x, g.absolute_pos.y + pos_y, g.scale),
            w,
        ),
{
    assert((TREE_CAP - id) * SIZE_UNIT + SIZE_UNIT == (TREE_CAP - id + 1) * SIZE_UNIT)
        by (nonlinear_arith);
    assert((TREE_CAP - id) * POS_UNIT + POS_UNIT == (TREE_CAP - id + 1) * POS_UNIT)
        by (nonlinear_arith);
    lemma_mul_inequality(TREE_CAP - id + 1, TREE_CAP - w, SIZE_UNIT as int);
    lemma_mul_inequality(TREE_CAP - id + 1, TREE_CAP - w, POS_UNIT as int);
    lemma_mul_inequality(TREE_CAP - w, TREE_CAP as int, SIZE_UNIT as int);
    lemma_mul_inequality(TREE_CAP - w, TREE_CAP as int, POS_UNIT as int);
}

impl WidgetTree {
    /// Reads the fixed-point value of the scrollbar node `b` (zero if `b`
    /// is not a scrollbar).
    pub fn bar_value(&self, b: WidgetId) -> (r: i64)
        requires
            tree_wf(*self),
            b < self.nodes@.len(),
        ensures
            r == spec_bar_value(self.nodes@, b as int),
            0 <= r <= SCROLL_DEN,
    {
        proof {
            assert(node_wf(self.nodes@, b as int));
        }
        match &self.nodes[b].kind {
            WidgetKind::ScrollBar(sb) => sb.value,
            _ => 0,
        }
    }

    /// Pure placement: computes the child arrangements the widget `id`
    /// produces for the geometry `g`, without touching any cache.
    #[verifier::rlimit(60)]
    pub fn rearrange_children(&self, id: WidgetId, g: Geometry) -> (r: Vec<WidgetArrangement>)
        requires
            tree_wf(*self),
            id < self.nodes@.len(),
            geom_ok(g, id as int),
        ensures
            r@ == spec_arrangement(self.nodes@, id as int, g),
            arrangement_ok(r@, id as int),
    {
        proof {
            assert(node_wf(self.nodes@, id as int));
            lemma_geom_ok_sane(g, id as int);
        }
        let ghost t = self.nodes@;
        let mut r: Vec<WidgetArrangement> = Vec::new();
        let node = &self.nodes[id];
        match &node.kind {
            WidgetKind::TestWidget(_) => {},
            WidgetKind::ScrollBar(_) => {},
            WidgetKind::BoxPanel(s) => {
                let d = self.get_desired_size(id);
                let (pos, size) = box_placement(d, g.local_size, &s.h_align, &s.v_align);
                proof {
                    lemma_child_geom_ok(g, id as int, s.child as int,
                        pos.x as int, pos.y as int, size.x as int, size.y as int);
                }
                r.push(WidgetArrangement {
                    widget: s.child,
                    geometry: g.child_geometry(pos, size),
                });
                proof {
                    assert(r@ =~= spec_arrangement(t, id as int, g));
                }
            },
            WidgetKind::LinearPanel(s) => {
                let ghost slots = s.children@;
                let ghost dir = s.direction;
                let ghost entries = spec_linear_entries(t, slots, dir);
                // collect the children's desired primary extents
                let mut ents: Vec<LinearEntry> = Vec::new();
                let mut i: usize = 0;
                while i < s.children.len()
                    invariant
                        tree_wf(*self),
                        id < self.nodes@.len(),
                        t == self.nodes@,
                        crate::linear_panel::linear_wf(*s, id as int),
                        slots == s.children@,
                        dir == s.direction,
                        entries == spec_linear_entries(t, slots, dir),
                        0 <= i <= slots.len(),
                        ents@.len() == i,
                        forall|j: int| 0 <= j < i ==> ents@[j] == entries[j],
                        forall|j: int| 0 <= j < i
                            ==> 0 <= (#[trigger] ents@[j]).desired <= MAX_DESIRED,
                    decreases slots.len() - i,
                {
                    proof {
                        assert(0 <= slots[i as int].widget < id);
                    }
                    let child = s.children[i].widget;
                    let d = self.get_desired_size(child);
                    let (dp, _) = s.direction.axis().get_vec_axis(d);
                    ents.push(LinearEntry { desired: dp, growth: s.children[i].growth });
                    i = i + 1;
                }
                proof {
                    assert(ents@ =~= entries);
                    assert(entries_ok(entries));
                    assert((TREE_CAP - id as int) * SIZE_UNIT <= TREE_CAP * SIZE_UNIT) by {
                        lemma_mul_inequality(
                            TREE_CAP - id as int, TREE_CAP as int, SIZE_UNIT as int);
                    }
                }
                let (a, cross) = s.direction.axis().get_vec_axis(g.local_size);
                let extents = linear_extents(a, &ents);
                proof {
                    lemma_required_bounds(entries);
                    if slots.len() > 0 {
                        lemma_linear_extents_sum(entries, a as int);
                    }
                }
                let mut offset: i64 = 0;
                let mut i: usize = 0;
                while i < extents.len()
                    invariant
                        tree_wf(*self),
                        id < self.nodes@.len(),
                        t == self.nodes@,
                        geom_ok(g, id as int),
                        self.nodes@[id as int].kind == WidgetKind::LinearPanel(*s),
                        crate::linear_panel::linear_wf(*s, id as int),
                        slots == s.children@,
                        dir == s.direction,
                        entries == spec_linear_entries(t, slots, dir),
                        entries_ok(entries),
                        extents@.len() == slots.len(),
                        forall|j: int| 0 <= j < extents@.len()
                            ==> extents@[j] == spec_extent(entries, a as int, j),
                        a == spec_axis_of(crate::layout::spec_direction_axis(dir), g.local_size),
                        cross == spec_cross_of(crate::layout::spec_direction_axis(dir), g.local_size),
                        0 <= a <= (TREE_CAP - id as int) * SIZE_UNIT,
                        0 <= i <= extents@.len(),
                        offset == sum_extents_prefix(entries, a as int, i as int),
                        r@.len() == i,
                        forall|j: int| 0 <= j < i
                            ==> r@[j] == spec_arrangement(t, id as int, g)[j],
                        arrangement_ok(r@, id as int),
                    decreases extents@.len() - i,
                {
                    proof {
                        assert(0 <= slots[i as int].widget < id);
                        lemma_extra_bounds(entries, a as int, i as int);
                        lemma_required_bounds(entries);
                        lemma_sum_extents_monotone(entries, a as int, i as int, i + 1);
                        lemma_sum_extents_monotone(
                            entries, a as int, i + 1, entries.len() as int);
                        lemma_linear_extents_sum(entries, a as int);
                        assert((TREE_CAP - id as int) * SIZE_UNIT <= TREE_CAP * SIZE_UNIT) by {
                            lemma_mul_inequality(
                                TREE_CAP - id as int, TREE_CAP as int, SIZE_UNIT as int);
                        }
                    }
                    let e = extents[i];
                    let pos = s.direction.axis().create_vec(offset, 0);
                    let size = s.direction.axis().create_vec(e, cross);
                    proof {
                        lemma_child_geom_ok(g, id as int, slots[i as int].widget as int,
                            pos.x as int, pos.y as int, size.x as int, size.y as int);
                    }
                    r.push(WidgetArrangement {
                        widget: s.children[i].widget,
                        geometry: g.child_geometry(pos, size),
                    });
                    offset = offset + e;
                    i = i + 1;
                }
                proof {
                    assert(r@ =~= spec_arrangement(t, id as int, g));
                }
            },
            WidgetKind::OverlayPanel(s) => {
                let ghost slots = s.children@;
                let mut i: usize = 0;
                while i < s.children.len()
                    invariant
                        tree_wf(*self),
                        id < self.nodes@.len(),
                        t == self.nodes@,
                        geom_ok(g, id as int),
                        self.nodes@[id as int].kind == WidgetKind::OverlayPanel(*s),
                        crate::overlay_panel::overlay_wf(*s, id as int),
                        slots == s.children@,
                        0 <= i <= slots.len(),
                        r@.len() == i,
                        forall|j: int| 0 <= j < i
                            ==> r@[j] == spec_arrangement(t, id as int, g)[j],
                        arrangement_ok(r@, id as int),
                    decreases slots.len() - i,
                {
                    proof {
                        assert(0 <= slots[i as int].widget < id);
                        lemma_child_geom_ok(g, id as int, slots[i as int].widget as int,
                            0, 0, g.local_size.x as int, g.local_size.y as int);
                    }
                    let pos = Vec2 { x: 0, y: 0 };
                    r.push(WidgetArrangement {
                        widget: s.children[i].widget,
                        geometry: g.child_geometry(pos, g.local_size),
                    });
                    i = i + 1;
                }
                proof {
                    assert(r@ =~= spec_arrangement(t, id as int, g));
                }
            },
            WidgetKind::ScrollPanel(s) => {
                let d = self.get_desired_size(id);
                let mut vp_x = g.local_size.x;
                match s.vertical {
                    Some(v) => {
                        let bd = self.get_desired_size(v);
                        vp_x = vp_x - bd.x;
                    },
                    None => {},
                }
                if vp_x < 0 {
                    vp_x = 0;
                }
                let mut vp_y = g.local_size.y;
                match s.horizontal {
                    Some(h) => {
                        let bd = self.get_desired_size(h);
                        vp_y = vp_y - bd.y;
                    },
                    None => {},
                }
                if vp_y < 0 {
                    vp_y = 0;
                }
                proof {
                    assert((vp_x as int, vp_y as int) == spec_scroll_viewport(t, id as int, g));
                    assert((TREE_CAP - id as int) * SIZE_UNIT <= TREE_CAP * SIZE_UNIT) by {
                        lemma_mul_inequality(
                            TREE_CAP - id as int, TREE_CAP as int, SIZE_UNIT as int);
                    }
                }
                let ov_x = if d.x - vp_x > 0 { d.x - vp_x } else { 0 };
                let ov_y = if d.y - vp_y > 0 { d.y - vp_y } else { 0 };
                let active_h = match s.horizontal {
                    Some(_) => ov_x > 0,
                    None => false,
                };
                let active_v = match s.vertical {
                    Some(_) => ov_y > 0,
                    None => false,
                };
                match s.content {
                    Some(c) => {
                        let px: i64;
                        if active_h {
                            let h = match s.horizontal {
                                Some(h) => h,
                                None => 0,
                            };
                            let value = self.bar_value(h);
                            proof {
                                assert((ov_x as int) * (value as int)
                                    <= (ov_x as int) * (SCROLL_DEN as int)) by (nonlinear_arith)
                                    requires 0 <= ov_x as int, 0 <= value as int <= SCROLL_DEN as int;
                                assert(0 <= (ov_x as int) * (value as int)) by (nonlinear_arith)
                                    requires 0 <= ov_x as int, 0 <= value as int;
                                assert((ov_x as int) * (SCROLL_DEN as int)
                                    <= (MAX_DESIRED as int) * (SCROLL_DEN as int))
                                    by (nonlinear_arith)
                                    requires 0 <= ov_x as int <= MAX_DESIRED as int;
                                vstd::arithmetic::div_mod::lemma_div_pos_is_pos(
                                    (ov_x as int) * (value as int), SCROLL_DEN as int);
                                vstd::arithmetic::div_mod::lemma_multiply_divide_le(
                                    (ov_x as int) * (value as int), SCROLL_DEN as int,
                                    ov_x as int);
                            }
                            let shifted = ((ov_x as u64) * (value as u64)) / (SCROLL_DEN as u64);
                            px = -(shifted as i64);
                        } else {
                            px = 0;
                        }
                        let py: i64;
                        if active_v {
                            let v = match s.vertical {
                                Some(v) => v,
                                None => 0,
                            };
                            let value = self.bar_value(v);
                            proof {
                                assert((ov_y as int) * (value as int)
                                    <= (ov_y as int) * (SCROLL_DEN as int)) by (nonlinear_arith)
                                    requires 0 <= ov_y as int, 0 <= value as int <= SCROLL_DEN as int;
                                assert(0 <= (ov_y as int) * (value as int)) by (nonlinear_arith)
                                    requires 0 <= ov_y as int, 0 <= value as int;
                                assert((ov_y as int) * (SCROLL_DEN as int)
                                    <= (MAX_DESIRED as int) * (SCROLL_DEN as int))
                                    by (nonlinear_arith)
                                    requires 0 <= ov_y as int <= MAX_DESIRED as int;
                                vstd::arithmetic::div_mod::lemma_div_pos_is_pos(
                                    (ov_y as int) * (value as int), SCROLL_DEN as int);
                                vstd::arithmetic::div_mod::lemma_multiply_divide_le(
                                    (ov_y as int) * (value as int), SCROLL_DEN as int,
                                    ov_y as int);
                            }
                            let shifted = ((ov_y as u64) * (value as u64)) / (SCROLL_DEN as u64);
                            py = -(shifted as i64);
                        } else {
                            py = 0;
                        }
                        let sx = if d.x > vp_x { d.x } else { vp_x };
                        let sy = if d.y > vp_y { d.y } else { vp_y };
                        proof {
                            lemma_child_geom_ok(g, id as int, c as int,
                                px as int, py as int, sx as int, sy as int);
                        }
                        r.push(WidgetArrangement {
                            widget: c,
                            geometry: g.child_geometry(
                                Vec2 { x: px, y: py }, Vec2 { x: sx, y: sy }),
                        });
                    },
                    None => {},
                }
                if active_v {
                    let v = match s.vertical {
                        Some(v) => v,
                        None => 0,
                    };
                    let bd = self.get_desired_size(v);
                    proof {
                        lemma_child_geom_ok(g, id as int, v as int,
                            vp_x as int, 0, bd.x as int, vp_y as int);
                    }
                    r.push(WidgetArrangement {
                        widget: v,
                        geometry: g.child_geometry(
                            Vec2 { x: vp_x, y: 0 }, Vec2 { x: bd.x, y: vp_y }),
                    });
                }
                if active_h {
                    let h = match s.horizontal {
                        Some(h) => h,
                        None => 0,
                    };
                    let bd = self.get_desired_size(h);
                    proof {
                        lemma_child_geom_ok(g, id as int, h as int,
                            0, vp_y as int, vp_x as int, bd.y as int);
                    }
                    r.push(WidgetArrangement {
                        widget: h,
                        geometry: g.child_geometry(
                            Vec2 { x: 0, y: vp_y }, Vec2 { x: vp_x, y: bd.y }),
                    });
                }
                proof {
                    assert(r@ =~= spec_arrangement(t, id as int, g));
                }
            },
            WidgetKind::Window(s) => {
                match s.content {
                    Some(c) => {
                        proof {
                            lemma_geom_ok_widens(g, id as int, c as int);
                        }
                        r.push(WidgetArrangement { widget: c, geometry: g });
                    },
                    None => {},
                }
                proof {
                    assert(r@ =~= spec_arrangement(t, id as int, g));
                }
            },
        }
        proof {
            assert(r@ =~= spec_arrangement(t, id as int, g));
        }
        r
    }

    /// Arranges the widget `id` with the geometry `g`: computes its child
    /// placements, recursively arranges each child with its derived
    /// geometry, resets its active scrollbars' value ranges to
    /// `[0, overflow]` so the handle reflects how much is hidden, and
    /// caches both the placements and `g`.
    ///
    /// No widget's identity changes: kinds, configuration and parents stay,
    /// except the scrollbar range resets. Every node the pass touched — the
    /// widget itself, each placed child, and their placed descendants —
    /// ends consistent: its cached arrangement is exactly what its cached
    /// geometry places under the final tree. (A child shared by two
    /// containers holds whichever pass ran last; its cache is still
    /// consistent.)
    pub fn arrange_children(&mut self, id: WidgetId, g: Geometry)
        requires
            tree_wf(*old(self)),
            id < old(self).nodes@.len(),
            geom_ok(g, id as int),
        ensures
            tree_wf(*final(self)),
            final(self).nodes@.len() == old(self).nodes@.len(),
            final(self).dispatched == old(self).dispatched,
            forall|i: int| 0 <= i < old(self).nodes@.len()
                ==> arrange_keeps(#[trigger] old(self).nodes@[i], final(self).nodes@[i]),
            final(self).nodes@[id as int].arranged@
                == spec_arrangement(old(self).nodes@, id as int, g),
            final(self).nodes@[id as int].cached_geometry == g,
            // every node's caches are either untouched or consistent with
            // the final tree
            forall|i: int| 0 <= i < old(self).nodes@.len() ==> {
                ||| (final(self).nodes@[i].arranged == old(self).nodes@[i].arranged
                    && (#[trigger] final(self).nodes@[i]).cached_geometry
                        == old(self).nodes@[i].cached_geometry)
                ||| arranged_consistent_at(final(self).nodes@, i)
            },
            // every placed child was recursively arranged: its cache is
            // consistent with the final tree
            forall|j: int| 0 <= j < spec_arrangement(old(self).nodes@, id as int, g).len()
                ==> arranged_consistent_at(
                    final(self).nodes@,
                    (#[trigger] spec_arrangement(old(self).nodes@, id as int, g)[j]).widget
                        as int,
                ),
            // a scroll panel's active bars are reset to the overflow range
            match old(self).nodes@[id as int].kind {
                WidgetKind::ScrollPanel(s) => {
                    &&& match s.horizontal {
                        Some(h) => spec_scroll_overflow(old(self).nodes@, id as int, g).0 > 0
                            ==> (final(self).nodes@[h as int].kind matches
                                WidgetKind::ScrollBar(sb)
                                && sb.range_start == 0
                                && sb.range_end == spec_scroll_overflow(
                                    old(self).nodes@, id as int, g).0),
                        None => true,
                    }
                    &&& match s.vertical {
                        Some(v) => spec_scroll_overflow(old(self).nodes@, id as int, g).1 > 0
                            ==> (final(self).nodes@[v as int].kind matches
                                WidgetKind::ScrollBar(sb)
                                && sb.range_start == 0
                                && sb.range_end == spec_scroll_overflow(
                                    old(self).nodes@, id as int, g).1),
                        None => true,
                    }
                },
                _ => true,
            },
        decreases id,
    {
        let list = self.rearrange_children(id, g);
        // recursively arrange every placed child with its derived geometry
        let mut i: usize = 0;
        while i < list.len()
            invariant
                tree_wf(*self),
                self.nodes@.len() == old(self).nodes@.len(),
                self.dispatched == old(self).dispatched,
                id < self.nodes@.len(),
                forall|k: int| 0 <= k < old(self).nodes@.len()
                    ==> arrange_keeps(#[trigger] old(self).nodes@[k], self.nodes@[k]),
                arrangement_ok(list@, id as int),
                list@ == spec_arrangement(old(self).nodes@, id as int, g),
                0 <= i <= list@.len(),
                forall|k: int| 0 <= k < old(self).nodes@.len() ==> {
                    ||| (self.nodes@[k].arranged == old(self).nodes@[k].arranged
                        && (#[trigger] self.nodes@[k]).cached_geometry
                            == old(self).nodes@[k].cached_geometry)
                    ||| arranged_consistent_at(self.nodes@, k)
                },
                forall|j: int| 0 <= j < i ==> arranged_consistent_at(
                    self.nodes@, (#[trigger] list@[j]).widget as int),
            decreases list@.len() - i,
        {
            let a = &list[i];
            let ghost mid = self.nodes@;
            proof {
                assert(forall|k: int| 0 <= k < mid.len() ==> node_wf(mid, k));
            }
            self.arrange_children(a.widget, a.geometry);
            proof {
                assert forall|k: int| 0 <= k < old(self).nodes@.len()
                    implies arrange_keeps(#[trigger] old(self).nodes@[k], self.nodes@[k]) by {
                    lemma_arrange_keeps_trans(
                        old(self).nodes@[k], mid[k], self.nodes@[k]);
                }
                assert forall|k: int| 0 <= k < old(self).nodes@.len() implies {
                    ||| (self.nodes@[k].arranged == old(self).nodes@[k].arranged
                        && (#[trigger] self.nodes@[k]).cached_geometry
                            == old(self).nodes@[k].cached_geometry)
                    ||| arranged_consistent_at(self.nodes@, k)
                } by {
                    if self.nodes@[k].arranged == mid[k].arranged
                        && self.nodes@[k].cached_geometry == mid[k].cached_geometry {
                        if !(mid[k].arranged == old(self).nodes@[k].arranged
                            && mid[k].cached_geometry
                                == old(self).nodes@[k].cached_geometry) {
                            assert(arranged_consistent_at(mid, k));
                            lemma_arrangement_stable(
                                mid, self.nodes@, k, mid[k].cached_geometry);
                        }
                    }
                }
                assert forall|j: int| 0 <= j < i + 1 implies arranged_consistent_at(
                    self.nodes@, (#[trigger] list@[j]).widget as int) by {
                    let c = list@[j].widget as int;
                    if j < i {
                        if self.nodes@[c].arranged == mid[c].arranged
                            && self.nodes@[c].cached_geometry == mid[c].cached_geometry {
                            assert(arranged_consistent_at(mid, c));
                            lemma_arrangement_stable(
                                mid, self.nodes@, c, mid[c].cached_geometry);
                        }
                    } else {
                        assert(self.nodes@[c].arranged@
                            == spec_arrangement(mid, c, list@[j].geometry));
                        lemma_arrangement_stable(mid, self.nodes@, c, list@[j].geometry);
                    }
                }
            }
            i = i + 1;
        }
        // a scroll panel resets its active scrollbars' ranges to the
        // overflow, so the handle proportion reflects how much is hidden
        let mut pending_ranges: Vec<(WidgetId, i64)> = Vec::new();
        let ghost mut hbar_reset: Option<(WidgetId, i64)> = None;
        let ghost mut vbar_reset: Option<(WidgetId, i64)> = None;
        proof {
            assert(node_wf(self.nodes@, id as int));
        }
        match &self.nodes[id].kind {
            WidgetKind::ScrollPanel(s) => {
                let d = self.get_desired_size(id);
                let mut vp_x = g.local_size.x;
                match s.vertical {
                    Some(v) => {
                        let bd = self.get_desired_size(v);
                        vp_x = vp_x - bd.x;
                    },
                    None => {},
                }
                if vp_x < 0 {
                    vp_x = 0;
                }
                let mut vp_y = g.local_size.y;
                match s.horizontal {
                    Some(h) => {
                        let bd = self.get_desired_size(h);
                        vp_y = vp_y - bd.y;
                    },
                    None => {},
                }
                if vp_y < 0 {
                    vp_y = 0;
                }
                let ov_x = if d.x - vp_x > 0 { d.x - vp_x } else { 0 };
                let ov_y = if d.y - vp_y > 0 { d.y - vp_y } else { 0 };
                proof {
                    // desired sizes are arrange-invariant, so the overflow
                    // matches the one the placements were computed from
                    lemma_desired_stable(old(self).nodes@, self.nodes@, id as int);
                    match s.vertical {
                        Some(v) => {
                            lemma_desired_stable(old(self).nodes@, self.nodes@, v as int);
                        },
                        None => {},
                    }
                    match s.horizontal {
                        Some(h) => {
                            lemma_desired_stable(old(self).nodes@, self.nodes@, h as int);
                        },
                        None => {},
                    }
                    assert((ov_x as int, ov_y as int)
                        == spec_scroll_overflow(old(self).nodes@, id as int, g));
                }
                match s.horizontal {
                    Some(h) => {
                        if ov_x > 0 {
                            pending_ranges.push((h, ov_x));
                            proof {
                                hbar_reset = Some((h, ov_x));
                            }
                        }
                    },
                    None => {},
                }
                match s.vertical {
                    Some(v) => {
                        if ov_y > 0 {
                            pending_ranges.push((v, ov_y));
                            proof {
                                vbar_reset = Some((v, ov_y));
                            }
                        }
                    },
                    None => {},
                }
            },
            _ => {},
        }
        proof {
            // tie the queued resets to the spec-level overflow
            assert(pending_ranges@ =~= (match hbar_reset {
                Some(p) => seq![p],
                None => Seq::<(WidgetId, i64)>::empty(),
            }) + (match vbar_reset {
                Some(p) => seq![p],
                None => Seq::<(WidgetId, i64)>::empty(),
            }));
            assert(match old(self).nodes@[id as int].kind {
                WidgetKind::ScrollPanel(s) => {
                    &&& hbar_reset == (match s.horizontal {
                        Some(h) => if spec_scroll_overflow(
                            old(self).nodes@, id as int, g).0 > 0 {
                            Some((h, spec_scroll_overflow(
                                old(self).nodes@, id as int, g).0 as i64))
                        } else {
                            None::<(WidgetId, i64)>
                        },
                        None => None::<(WidgetId, i64)>,
                    })
                    &&& vbar_reset == (match s.vertical {
                        Some(v) => if spec_scroll_overflow(
                            old(self).nodes@, id as int, g).1 > 0 {
                            Some((v, spec_scroll_overflow(
                                old(self).nodes@, id as int, g).1 as i64))
                        } else {
                            None::<(WidgetId, i64)>
                        },
                        None => None::<(WidgetId, i64)>,
                    })
                    &&& match (s.horizontal, s.vertical) {
                        (Some(h), Some(v)) => h != v,
                        _ => true,
                    }
                },
                _ => hbar_reset is None && vbar_reset is None,
            });
        }
        let mut b: usize = 0;
        while b < pending_ranges.len()
            invariant
                tree_wf(*self),
                self.nodes@.len() == old(self).nodes@.len(),
                self.dispatched == old(self).dispatched,
                id < self.nodes@.len(),
                forall|k: int| 0 <= k < old(self).nodes@.len()
                    ==> arrange_keeps(#[trigger] old(self).nodes@[k], self.nodes@[k]),
                arrangement_ok(list@, id as int),
                list@ == spec_arrangement(old(self).nodes@, id as int, g),
                forall|j: int| 0 <= j < pending_ranges@.len() ==> {
                    &&& (#[trigger] pending_ranges@[j]).0 < self.nodes@.len()
                    &&& self.nodes@[pending_ranges@[j].0 as int].kind is ScrollBar
                    &&& 0 <= pending_ranges@[j].1 <= MAX_DESIRED
                },
                forall|j: int, k: int| 0 <= j < k < pending_ranges@.len()
                    ==> pending_ranges@[j].0 != pending_ranges@[k].0,
                0 <= b <= pending_ranges@.len(),
                forall|j: int| 0 <= j < b ==> ((#[trigger] self.nodes@[
                    pending_ranges@[j].0 as int].kind) matches WidgetKind::ScrollBar(sb)
                    && sb.range_start == 0 && sb.range_end == pending_ranges@[j].1),
                forall|k: int| 0 <= k < old(self).nodes@.len() ==> {
                    ||| (self.nodes@[k].arranged == old(self).nodes@[k].arranged
                        && (#[trigger] self.nodes@[k]).cached_geometry
                            == old(self).nodes@[k].cached_geometry)
                    ||| arranged_consistent_at(self.nodes@, k)
                },
                forall|j: int| 0 <= j < list@.len() ==> arranged_consistent_at(
                    self.nodes@, (#[trigger] list@[j]).widget as int),
            decreases pending_ranges@.len() - b,
        {
            let (bar, ov) = pending_ranges[b];
            let ghost mid = self.nodes@;
            proof {
                assert(forall|k: int| 0 <= k < mid.len() ==> node_wf(mid, k));
            }
            self.set_bar_range(bar, ov);
            proof {
                assert forall|k: int| 0 <= k < old(self).nodes@.len()
                    implies arrange_keeps(#[trigger] old(self).nodes@[k], self.nodes@[k]) by {
                    lemma_arrange_keeps_trans(old(self).nodes@[k], mid[k], self.nodes@[k]);
                }
                assert forall|j: int| 0 <= j < pending_ranges@.len()
                    implies self.nodes@[(#[trigger] pending_ranges@[j]).0 as int].kind
                        is ScrollBar by {
                    if pending_ranges@[j].0 != bar {
                        assert(self.nodes@[pending_ranges@[j].0 as int]
                            == mid[pending_ranges@[j].0 as int]);
                    }
                }
                assert forall|j: int| 0 <= j < b + 1
                    implies ((#[trigger] self.nodes@[pending_ranges@[j].0 as int].kind)
                        matches WidgetKind::ScrollBar(sb)
                        && sb.range_start == 0 && sb.range_end == pending_ranges@[j].1) by {
                    if j < b {
                        assert(pending_ranges@[j].0 != bar);
                        assert(self.nodes@[pending_ranges@[j].0 as int]
                            == mid[pending_ranges@[j].0 as int]);
                    }
                }
                assert forall|k: int| 0 <= k < old(self).nodes@.len() implies {
                    ||| (self.nodes@[k].arranged == old(self).nodes@[k].arranged
                        && (#[trigger] self.nodes@[k]).cached_geometry
                            == old(self).nodes@[k].cached_geometry)
                    ||| arranged_consistent_at(self.nodes@, k)
                } by {
                    if !(mid[k].arranged == old(self).nodes@[k].arranged
                        && mid[k].cached_geometry == old(self).nodes@[k].cached_geometry) {
                        assert(arranged_consistent_at(mid, k));
                        lemma_arrangement_stable(mid, self.nodes@, k, mid[k].cached_geometry);
                    }
                }
                assert forall|j: int| 0 <= j < list@.len() implies arranged_consistent_at(
                    self.nodes@, (#[trigger] list@[j]).widget as int) by {
                    let c = list@[j].widget as int;
                    assert(arranged_consistent_at(mid, c));
                    lemma_arrangement_stable(mid, self.nodes@, c, mid[c].cached_geometry);
                }
            }
            b = b + 1;
        }
        // cache the placements and the geometry they were computed for
        let ghost pre = self.nodes@;
        let node = &mut self.nodes[id];
        node.cached_geometry = g;
        node.arranged = list;
        proof {
            lemma_geom_ok_sane(g, id as int);
            assert(node_wf(pre, id as int));
            assert(forall|k: int| 0 <= k < pre.len() ==> node_wf(pre, k));
            assert forall|j: int| 0 <= j < self.nodes@[id as int].arranged@.len()
                implies {
                    &&& 0 <= (#[trigger] self.nodes@[id as int].arranged@[j]).widget < id as int
                    &&& geom_sane(self.nodes@[id as int].arranged@[j].geometry)
                } by {
                lemma_geom_ok_sane(
                    self.nodes@[id as int].arranged@[j].geometry,
                    self.nodes@[id as int].arranged@[j].widget as int,
                );
            }
            assert(kind_wf(self.nodes@, id as int)) by {
                match self.nodes@[id as int].kind {
                    WidgetKind::ScrollPanel(s) => {
                        match s.horizontal {
                            Some(h) => {
                                assert(self.nodes@[h as int] == pre[h as int]);
                            },
                            None => {},
                        }
                        match s.vertical {
                            Some(v) => {
                                assert(self.nodes@[v as int] == pre[v as int]);
                            },
                            None => {},
                        }
                    },
                    _ => {},
                }
            }
            lemma_node_update_wf(pre, self.nodes@, id as int);
            // the final cache write keeps every other node's consistency
            // and makes the widget itself consistent
            assert forall|k: int| 0 <= k < old(self).nodes@.len() implies {
                ||| (self.nodes@[k].arranged == old(self).nodes@[k].arranged
                    && (#[trigger] self.nodes@[k]).cached_geometry
                        == old(self).nodes@[k].cached_geometry)
                ||| arranged_consistent_at(self.nodes@, k)
            } by {
                if k != id as int {
                    if !(pre[k].arranged == old(self).nodes@[k].arranged
                        && pre[k].cached_geometry == old(self).nodes@[k].cached_geometry) {
                        assert(arranged_consistent_at(pre, k));
                        lemma_arrangement_stable(pre, self.nodes@, k, pre[k].cached_geometry);
                    }
                } else {
                    lemma_arrangement_stable(pre, self.nodes@, id as int, g);
                    lemma_arrangement_stable(old(self).nodes@, self.nodes@, id as int, g);
                    assert(arranged_consistent_at(self.nodes@, id as int));
                }
            }
            assert forall|j: int| 0 <= j < list@.len() implies arranged_consistent_at(
                self.nodes@, (#[trigger] list@[j]).widget as int) by {
                let c = list@[j].widget as int;
                assert(arranged_consistent_at(pre, c));
                lemma_arrangement_stable(pre, self.nodes@, c, pre[c].cached_geometry);
            }
            // the reset scrollbar ranges survive the final cache write
            assert(node_wf(old(self).nodes@, id as int));
            match old(self).nodes@[id as int].kind {
                WidgetKind::ScrollPanel(s) => {
                    match hbar_reset {
                        Some(p) => {
                            assert(pending_ranges@[0] == p);
                            assert(p.0 < id);
                            assert(self.nodes@[p.0 as int] == pre[p.0 as int]);
                        },
                        None => {},
                    }
                    match vbar_reset {
                        Some(p) => {
                            let idx: int = if hbar_reset is Some { 1 } else { 0 };
                            assert(pending_ranges@[idx] == p);
                            assert(p.0 < id);
                            assert(self.nodes@[p.0 as int] == pre[p.0 as int]);
                        },
                        None => {},
                    }
                },
                _ => {},
            }
        }
    }

    /// Sets the fixed-point value of the scrollbar node `b`, clamped into
    /// `[0, 1]`.
    pub fn set_bar_value(&mut self, b: WidgetId, value: i64)
        requires
            tree_wf(*old(self)),
            b < old(self).nodes@.len(),
            old(self).nodes@[b as int].kind is ScrollBar,
        ensures
            tree_wf(*final(self)),
            final(self).nodes@.len() == old(self).nodes@.len(),
            final(self).dispatched == old(self).dispatched,
            forall|k: int| 0 <= k < old(self).nodes@.len() && k != b as int
                ==> final(self).nodes@[k] == old(self).nodes@[k],
            final(self).nodes@[b as int].kind matches WidgetKind::ScrollBar(sb)
                && sb.value == crate::scroll_bar::spec_clamp_value(value as int),
    {
        proof {
            assert(node_wf(old(self).nodes@, b as int));
        }
        let node = &mut self.nodes[b];
        match &mut node.kind {
            WidgetKind::ScrollBar(sb) => {
                crate::scroll_bar::scrollbar_set_value(sb, value);
            },
            _ => {},
        }
        proof {
            assert(node_wf(self.nodes@, b as int));
            lemma_node_update_wf(old(self).nodes@, self.nodes@, b as int);
        }
    }

    /// Resets the scrollbar node `b` to the value range `[0, overflow]`.
    fn set_bar_range(&mut self, b: WidgetId, overflow: i64)
        requires
            tree_wf(*old(self)),
            b < old(self).nodes@.len(),
            old(self).nodes@[b as int].kind is ScrollBar,
            0 <= overflow <= MAX_DESIRED,
        ensures
            tree_wf(*final(self)),
            final(self).nodes@.len() == old(self).nodes@.len(),
            final(self).dispatched == old(self).dispatched,
            forall|k: int| 0 <= k < old(self).nodes@.len()
                ==> arrange_keeps(#[trigger] old(self).nodes@[k], final(self).nodes@[k]),
            forall|k: int| 0 <= k < old(self).nodes@.len() && k != b as int
                ==> final(self).nodes@[k] == old(self).nodes@[k],
            final(self).nodes@[b as int].kind matches WidgetKind::ScrollBar(sb)
                && sb.range_start == 0 && sb.range_end == overflow,
            final(self).nodes@[b as int].arranged == old(self).nodes@[b as int].arranged,
            final(self).nodes@[b as int].cached_geometry
                == old(self).nodes@[b as int].cached_geometry,
            final(self).nodes@[b as int].parent == old(self).nodes@[b as int].parent,
    {
        proof {
            assert(node_wf(old(self).nodes@, b as int));
        }
        let node = &mut self.nodes[b];
        match &mut node.kind {
            WidgetKind::ScrollBar(sb) => {
                scrollbar_set_range(sb, 0, overflow);
            },
            _ => {},
        }
        proof {
            assert(node_wf(self.nodes@, b as int));
            lemma_node_update_wf(old(self).nodes@, self.nodes@, b as int);
        }
    }
}

} // verus!
