//! The widget tree: an arena of widget nodes addressed by index.
//!
//! Every node's children were pushed into the arena before the node itself,
//! so a child's index is strictly below its parent's. Tree walks recurse on
//! the index and terminate by construction; distinct nodes are distinct
//! arena slots, so no runtime borrow tracking is needed to mutate one while
//! reading another.

use vstd::prelude::*;
use crate::geometry::{
    Vec2, Geometry, geom_sane, MAX_DESIRED, TREE_CAP,
};
use crate::events::DispatchRecord;
use crate::layout::LinearPanelDirection;
use crate::test_widget::{TestWidgetState, test_widget_wf};
use crate::box_panel::{BoxPanelState, box_wf};
use crate::linear_panel::{LinearPanelState, LinearPanelSlot, linear_wf};
use crate::overlay_panel::{OverlayPanelState, OverlayPanelSlot, overlay_wf};
use crate::scroll_panel::{ScrollPanelState, scroll_panel_wf};
use crate::scroll_bar::{ScrollBarWidgetState, scrollbar_wf};
use crate::window::{WindowWidgetState, window_wf};

verus! {

/// A widget's identity: its index in the tree's arena. Two ids are the same
/// widget exactly when they are equal.
pub type WidgetId = usize;

/// The desired primary extent of a scrollbar across its tray, and of the
/// tray across the bar: scrollbars reserve a strip this wide.
pub const SCROLL_BAR_THICKNESS: i64 = 10;

/// One child of a container together with the geometry the last arrangement
/// pass assigned to it: the canonical record of what is drawn where.
#[derive(Clone, Copy, PartialEq, Eq, Structural, Debug)]
pub struct WidgetArrangement {
    pub widget: WidgetId,
    pub geometry: Geometry,
}

impl WidgetArrangement {
    pub fn new(widget: WidgetId, geometry: Geometry) -> (r: WidgetArrangement)
        ensures
            r.widget == widget,
            r.geometry == geometry,
    {
        WidgetArrangement { widget, geometry }
    }
}

/// The closed set of widget kinds a node can be, with each kind's own
/// state.
pub enum WidgetKind {
    TestWidget(TestWidgetState),
    BoxPanel(BoxPanelState),
    LinearPanel(LinearPanelState),
    OverlayPanel(OverlayPanelState),
    ScrollPanel(ScrollPanelState),
    ScrollBar(ScrollBarWidgetState),
    Window(WindowWidgetState),
}

/// One node of the widget tree: its kind-specific state plus the base state
/// every widget carries — the parent back-reference, the geometry it was
/// last arranged with, and its cached child arrangements.
pub struct WidgetState {
    pub kind: WidgetKind,
    pub parent: Option<WidgetId>,
    pub cached_geometry: Geometry,
    pub arranged: Vec<WidgetArrangement>,
}

/// The widget arena, together with the log of every event dispatched to a
/// widget, in dispatch order.
pub struct WidgetTree {
    pub nodes: Vec<WidgetState>,
    pub dispatched: Vec<DispatchRecord>,
}

/// Kind-specific well-formedness of the node at index `id`: child indices
/// lie strictly below `id`, configured values are within machine limits,
/// and a scroll panel's bar slots hold scrollbar nodes.
pub open spec fn kind_wf(t: Seq<WidgetState>, id: int) -> bool {
    match t[id].kind {
        WidgetKind::TestWidget(s) => test_widget_wf(s),
        WidgetKind::BoxPanel(s) => box_wf(s, id),
        WidgetKind::LinearPanel(s) => linear_wf(s, id),
        WidgetKind::OverlayPanel(s) => overlay_wf(s, id),
        WidgetKind::ScrollPanel(s) => {
            &&& scroll_panel_wf(s, id)
            &&& match s.horizontal {
                Some(h) => t[h as int].kind is ScrollBar,
                None => true,
            }
            &&& match s.vertical {
                Some(v) => t[v as int].kind is ScrollBar,
                None => true,
            }
        },
        WidgetKind::ScrollBar(s) => scrollbar_wf(s),
        WidgetKind::Window(s) => window_wf(s, id),
    }
}

/// Kind-specific well-formedness of a widget state about to be placed at
/// index `id` of a tree whose first `id` nodes are `t`'s.
pub open spec fn kind_state_wf(t: Seq<WidgetState>, kind: WidgetKind, id: int) -> bool {
    match kind {
        WidgetKind::TestWidget(s) => test_widget_wf(s),
        WidgetKind::BoxPanel(s) => box_wf(s, id),
        WidgetKind::LinearPanel(s) => linear_wf(s, id),
        WidgetKind::OverlayPanel(s) => overlay_wf(s, id),
        WidgetKind::ScrollPanel(s) => {
            &&& scroll_panel_wf(s, id)
            &&& match s.horizontal {
                Some(h) => t[h as int].kind is ScrollBar,
                None => true,
            }
            &&& match s.vertical {
                Some(v) => t[v as int].kind is ScrollBar,
                None => true,
            }
        },
        WidgetKind::ScrollBar(s) => scrollbar_wf(s),
        WidgetKind::Window(s) => window_wf(s, id),
    }
}

/// Well-formedness of one node: its kind state, a parent reference inside
/// the arena, a sane cached geometry, and cached arrangements that point
/// strictly below the node with sane geometries.
pub open spec fn node_wf(t: Seq<WidgetState>, id: int) -> bool {
    &&& kind_wf(t, id)
    &&& match t[id].parent {
        Some(p) => p < t.len(),
        None => true,
    }
    &&& geom_sane(t[id].cached_geometry)
    &&& forall|j: int| 0 <= j < t[id].arranged@.len() ==> {
        &&& 0 <= (#[trigger] t[id].arranged@[j]).widget < id
        &&& geom_sane(t[id].arranged@[j].geometry)
    }
}

/// Well-formedness of the whole tree.
pub open spec fn tree_wf(t: WidgetTree) -> bool {
    &&& t.nodes@.len() <= TREE_CAP
    &&& forall|i: int| 0 <= i < t.nodes@.len() ==> node_wf(t.nodes@, i)
}

/// The primary-axis component of a desired-size pair.
pub open spec fn prim_of(dir: LinearPanelDirection, d: (int, int)) -> int {
    match dir {
        LinearPanelDirection::Horizontal => d.0,
        LinearPanelDirection::Vertical => d.1,
    }
}

/// The cross-axis component of a desired-size pair.
pub open spec fn cross_of(dir: LinearPanelDirection, d: (int, int)) -> int {
    match dir {
        LinearPanelDirection::Horizontal => d.1,
        LinearPanelDirection::Vertical => d.0,
    }
}

/// Clamps a desired extent into `[0, MAX_DESIRED]`.
pub open spec fn cap_desired(v: int) -> int {
    if v < 0 {
        0
    } else if v > MAX_DESIRED {
        MAX_DESIRED as int
    } else {
        v
    }
}

/// The desired size of the node at `id`, as `(x, y)`.
///
/// A leaf reports its configured size, a box panel its child's size with
/// overrides substituted, a linear panel the sum of its children's primary
/// extents (clamped to the machine limit) and the maximum of their cross
/// extents, an overlay panel the component-wise maximum, a scroll panel and
/// a window their content's size, and a scrollbar its fixed thickness.
pub open spec fn spec_desired(t: Seq<WidgetState>, id: int) -> (int, int)
    decreases id, 1int, 0int,
{
    if id < 0 || id >= t.len() {
        (0, 0)
    } else {
        match t[id].kind {
            WidgetKind::TestWidget(s) => (s.size.x as int, s.size.y as int),
            WidgetKind::BoxPanel(s) => {
                let base = if 0 <= s.child < id {
                    spec_desired(t, s.child as int)
                } else {
                    (0int, 0int)
                };
                (
                    match s.override_x {
                        Some(v) => v as int,
                        None => base.0,
                    },
                    match s.override_y {
                        Some(v) => v as int,
                        None => base.1,
                    },
                )
            },
            WidgetKind::LinearPanel(s) => {
                let acc = linear_desired_prefix(
                    t, id, s.children@, s.children@.len() as int, s.direction);
                match s.direction {
                    LinearPanelDirection::Horizontal => (cap_desired(acc.0), acc.1),
                    LinearPanelDirection::Vertical => (acc.0, cap_desired(acc.1)),
                }
            },
            WidgetKind::OverlayPanel(s) => overlay_desired_prefix(
                t, id, s.children@, s.children@.len() as int),
            WidgetKind::ScrollPanel(s) => match s.content {
                Some(c) => if 0 <= c < id {
                    spec_desired(t, c as int)
                } else {
                    (0, 0)
                },
                None => (0, 0),
            },
            WidgetKind::ScrollBar(_) => (
                SCROLL_BAR_THICKNESS as int,
                SCROLL_BAR_THICKNESS as int,
            ),
            WidgetKind::Window(s) => match s.content {
                Some(c) => if 0 <= c < id {
                    spec_desired(t, c as int)
                } else {
                    (0, 0)
                },
                None => (0, 0),
            },
        }
    }
}

/// The running desired size of a linear panel's first `n` children: the sum
/// along the primary axis, the maximum across it, expressed as an `(x, y)`
/// pair.
pub open spec fn linear_desired_prefix(
    t: Seq<WidgetState>,
    id: int,
    slots: Seq<LinearPanelSlot>,
    n: int,
    dir: LinearPanelDirection,
) -> (int, int)
    decreases id, 0int, n,
{
    if n <= 0 {
        (0, 0)
    } else {
        let rest = linear_desired_prefix(t, id, slots, n - 1, dir);
        let w = slots[n - 1].widget;
        let d = if 0 <= w < id {
            spec_desired(t, w as int)
        } else {
            (0int, 0int)
        };
        match dir {
            LinearPanelDirection::Horizontal => (
                rest.0 + d.0,
                if d.1 > rest.1 { d.1 } else { rest.1 },
            ),
            LinearPanelDirection::Vertical => (
                if d.0 > rest.0 { d.0 } else { rest.0 },
                rest.1 + d.1,
            ),
        }
    }
}

/// The running desired size of an overlay panel's first `n` children: the
/// component-wise maximum.
pub open spec fn overlay_desired_prefix(
    t: Seq<WidgetState>,
    id: int,
    slots: Seq<OverlayPanelSlot>,
    n: int,
) -> (int, int)
    decreases id, 0int, n,
{
    if n <= 0 {
        (0, 0)
    } else {
        let rest = overlay_desired_prefix(t, id, slots, n - 1);
        let w = slots[n - 1].widget;
        let d = if 0 <= w < id {
            spec_desired(t, w as int)
        } else {
            (0int, 0int)
        };
        (
            if d.0 > rest.0 { d.0 } else { rest.0 },
            if d.1 > rest.1 { d.1 } else { rest.1 },
        )
    }
}

/// The declared child sequence of a widget kind, in declaration order: a
/// box panel's one child, a linear or overlay panel's slotted children, a
/// scroll panel's content then its vertical and horizontal bars, a window's
/// content; leaves declare none.
pub open spec fn spec_children(kind: WidgetKind) -> Seq<WidgetId> {
    match kind {
        WidgetKind::TestWidget(_) => Seq::empty(),
        WidgetKind::ScrollBar(_) => Seq::empty(),
        WidgetKind::BoxPanel(s) => seq![s.child],
        WidgetKind::LinearPanel(s) => Seq::new(
            s.children@.len(), |j: int| s.children@[j].widget),
        WidgetKind::OverlayPanel(s) => Seq::new(
            s.children@.len(), |j: int| s.children@[j].widget),
        WidgetKind::ScrollPanel(s) => (match s.content {
            Some(c) => seq![c],
            None => Seq::<WidgetId>::empty(),
        }) + (match s.vertical {
            Some(v) => seq![v],
            None => Seq::<WidgetId>::empty(),
        }) + (match s.horizontal {
            Some(h) => seq![h],
            None => Seq::<WidgetId>::empty(),
        }),
        WidgetKind::Window(s) => match s.content {
            Some(c) => seq![c],
            None => Seq::<WidgetId>::empty(),
        },
    }
}

impl WidgetTree {
    /// An empty tree with no dispatched events.
    pub fn new() -> (r: WidgetTree)
        ensures
            r.nodes@.len() == 0,
            r.dispatched@.len() == 0,
            tree_wf(r),
    {
        WidgetTree { nodes: Vec::new(), dispatched: Vec::new() }
    }

    /// Number of nodes in the arena.
    pub fn len(&self) -> (r: usize)
        ensures
            r == self.nodes@.len(),
    {
        self.nodes.len()
    }

    /// The desired size of the widget `id`: a pure function of the tree's
    /// current state.
    pub fn get_desired_size(&self, id: WidgetId) -> (r: Vec2)
        requires
            tree_wf(*self),
            id < self.nodes@.len(),
        ensures
            r.x as int == spec_desired(self.nodes@, id as int).0,
            r.y as int == spec_desired(self.nodes@, id as int).1,
            0 <= r.x <= MAX_DESIRED,
            0 <= r.y <= MAX_DESIRED,
        decreases id,
    {
        let node = &self.nodes[id];
        proof {
            assert(node_wf(self.nodes@, id as int));
        }
        match &node.kind {
            WidgetKind::TestWidget(s) => s.size,
            WidgetKind::BoxPanel(s) => {
                let mut size = self.get_desired_size(s.child);
                match s.override_x {
                    Some(v) => {
                        size.x = v;
                    },
                    None => {},
                }
                match s.override_y {
                    Some(v) => {
                        size.y = v;
                    },
                    None => {},
                }
                size
            },
            WidgetKind::LinearPanel(s) => {
                let ghost t = self.nodes@;
                let ghost slots = s.children@;
                let mut sum: i64 = 0;
                let mut cross: i64 = 0;
                let mut i: usize = 0;
                while i < s.children.len()
                    invariant
                        tree_wf(*self),
                        id < self.nodes@.len(),
                        self.nodes@[id as int].kind matches WidgetKind::LinearPanel(sl)
                            && sl.children@ == slots && sl.direction == s.direction,
                        linear_wf(*s, id as int),
                        slots == s.children@,
                        t == self.nodes@,
                        0 <= i <= slots.len(),
                        sum as int == prim_of(
                            s.direction,
                            linear_desired_prefix(t, id as int, slots, i as int, s.direction),
                        ),
                        cross as int == cross_of(
                            s.direction,
                            linear_desired_prefix(t, id as int, slots, i as int, s.direction),
                        ),
                        0 <= sum as int <= i * MAX_DESIRED,
                        0 <= cross <= MAX_DESIRED,
                    decreases slots.len() - i,
                {
                    proof {
                        assert(0 <= slots[i as int].widget < id);
                        assert((i + 1) * MAX_DESIRED <= TREE_CAP * MAX_DESIRED)
                            by (nonlinear_arith)
                            requires 0 <= i, i + 1 <= TREE_CAP;
                        assert(i * MAX_DESIRED + MAX_DESIRED == (i + 1) * MAX_DESIRED)
                            by (nonlinear_arith);
                    }
                    let child = s.children[i].widget;
                    let d = self.get_desired_size(child);
                    let (dp, dc) = s.direction.axis().get_vec_axis(d);
                    sum = sum + dp;
                    if dc > cross {
                        cross = dc;
                    }
                    i = i + 1;
                }
                let prim = if sum > MAX_DESIRED { MAX_DESIRED } else { sum };
                s.direction.axis().create_vec(prim, cross)
            },
            WidgetKind::OverlayPanel(s) => {
                let ghost t = self.nodes@;
                let ghost slots = s.children@;
                let mut size = Vec2 { x: 0, y: 0 };
                let mut i: usize = 0;
                while i < s.children.len()
                    invariant
                        tree_wf(*self),
                        id < self.nodes@.len(),
                        overlay_wf(*s, id as int),
                        slots == s.children@,
                        t == self.nodes@,
                        0 <= i <= slots.len(),
                        size.x as int == overlay_desired_prefix(t, id as int, slots, i as int).0,
                        size.y as int == overlay_desired_prefix(t, id as int, slots, i as int).1,
                        0 <= size.x <= MAX_DESIRED,
                        0 <= size.y <= MAX_DESIRED,
                    decreases slots.len() - i,
                {
                    proof {
                        assert(0 <= slots[i as int].widget < id);
                    }
                    let child = s.children[i].widget;
                    let d = self.get_desired_size(child);
                    if d.x > size.x {
                        size.x = d.x;
                    }
                    if d.y > size.y {
                        size.y = d.y;
                    }
                    i = i + 1;
                }
                size
            },
            WidgetKind::ScrollPanel(s) => match s.content {
                Some(c) => self.get_desired_size(c),
                None => Vec2 { x: 0, y: 0 },
            },
            WidgetKind::ScrollBar(_) => Vec2 {
                x: SCROLL_BAR_THICKNESS,
                y: SCROLL_BAR_THICKNESS,
            },
            WidgetKind::Window(s) => match s.content {
                Some(c) => self.get_desired_size(c),
                None => Vec2 { x: 0, y: 0 },
            },
        }
    }

    /// The declared children of the widget `id`, in declaration order.
    pub fn get_children(&self, id: WidgetId) -> (r: Vec<WidgetId>)
        requires
            tree_wf(*self),
            id < self.nodes@.len(),
        ensures
            r@ == spec_children(self.nodes@[id as int].kind),
            forall|j: int| 0 <= j < r@.len() ==> (#[trigger] r@[j]) < id,
    {
        proof {
            assert(node_wf(self.nodes@, id as int));
        }
        let node = &self.nodes[id];
        let mut r: Vec<WidgetId> = Vec::new();
        match &node.kind {
            WidgetKind::TestWidget(_) => {},
            WidgetKind::BoxPanel(s) => {
                r.push(s.child);
            },
            WidgetKind::LinearPanel(s) => {
                let mut i: usize = 0;
                while i < s.children.len()
                    invariant
                        0 <= i <= s.children@.len(),
                        linear_wf(*s, id as int),
                        r@ == Seq::new(i as nat, |j: int| s.children@[j].widget),
                    decreases s.children@.len() - i,
                {
                    r.push(s.children[i].widget);
                    proof {
                        assert(r@ =~= Seq::new((i + 1) as nat, |j: int| s.children@[j].widget));
                    }
                    i = i + 1;
                }
            },
            WidgetKind::OverlayPanel(s) => {
                let mut i: usize = 0;
                while i < s.children.len()
                    invariant
                        0 <= i <= s.children@.len(),
                        overlay_wf(*s, id as int),
                        r@ == Seq::new(i as nat, |j: int| s.children@[j].widget),
                    decreases s.children@.len() - i,
                {
                    r.push(s.children[i].widget);
                    proof {
                        assert(r@ =~= Seq::new((i + 1) as nat, |j: int| s.children@[j].widget));
                    }
                    i = i + 1;
                }
            },
            WidgetKind::ScrollPanel(s) => {
                match s.content {
                    Some(c) => {
                        r.push(c);
                    },
                    None => {},
                }
                match s.vertical {
                    Some(v) => {
                        r.push(v);
                    },
                    None => {},
                }
                match s.horizontal {
                    Some(h) => {
                        r.push(h);
                    },
                    None => {},
                }
            },
            WidgetKind::ScrollBar(_) => {},
            WidgetKind::Window(s) => {
                match s.content {
                    Some(c) => {
                        r.push(c);
                    },
                    None => {},
                }
            },
        }
        proof {
            assert(r@ =~= spec_children(self.nodes@[id as int].kind));
        }
        r
    }

    /// The parent of the widget `id`, or `None` at a root.
    pub fn get_parent(&self, id: WidgetId) -> (r: Option<WidgetId>)
        requires
            id < self.nodes@.len(),
        ensures
            r == self.nodes@[id as int].parent,
    {
        self.nodes[id].parent
    }

    /// Sets the parent back-reference of the widget `id`; called once by
    /// whichever container attaches the child.
    pub fn set_parent(&mut self, id: WidgetId, parent: Option<WidgetId>)
        requires
            tree_wf(*old(self)),
            id < old(self).nodes@.len(),
            match parent {
                Some(p) => p < old(self).nodes@.len(),
                None => true,
            },
        ensures
            tree_wf(*final(self)),
            final(self).nodes@.len() == old(self).nodes@.len(),
            final(self).nodes@ == old(self).nodes@.update(
                id as int,
                WidgetState { parent, ..old(self).nodes@[id as int] },
            ),
            final(self).dispatched == old(self).dispatched,
    {
        let node = &mut self.nodes[id];
        node.parent = parent;
        proof {
            assert(node_wf(old(self).nodes@, id as int));
            assert(kind_wf(self.nodes@, id as int)) by {
                match self.nodes@[id as int].kind {
                    WidgetKind::ScrollPanel(s) => {
                        match s.horizontal {
                            Some(h) => {
                                assert(self.nodes@[h as int] == old(self).nodes@[h as int]);
                            },
                            None => {},
                        }
                        match s.vertical {
                            Some(v) => {
                                assert(self.nodes@[v as int] == old(self).nodes@[v as int]);
                            },
                            None => {},
                        }
                    },
                    _ => {},
                }
            }
            lemma_node_update_wf(old(self).nodes@, self.nodes@, id as int);
        }
    }

    /// The cached result of the last arrangement pass for the widget `id`;
    /// stale (or empty) until `arrange_children` has run.
    pub fn get_arranged_children(&self, id: WidgetId) -> (r: Vec<WidgetArrangement>)
        requires
            tree_wf(*self),
            id < self.nodes@.len(),
        ensures
            r@ == self.nodes@[id as int].arranged@,
    {
        let node = &self.nodes[id];
        let mut r: Vec<WidgetArrangement> = Vec::new();
        let mut i: usize = 0;
        while i < node.arranged.len()
            invariant
                0 <= i <= node.arranged@.len(),
                r@ == node.arranged@.subrange(0, i as int),
            decreases node.arranged@.len() - i,
        {
            let a = node.arranged[i];
            r.push(a);
            assert(r@ == node.arranged@.subrange(0, i + 1));
            i = i + 1;
        }
        assert(node.arranged@.subrange(0, node.arranged@.len() as int) == node.arranged@);
        r
    }

    /// The geometry the widget `id` was last arranged with.
    pub fn cached_geometry(&self, id: WidgetId) -> (r: Geometry)
        requires
            id < self.nodes@.len(),
        ensures
            r == self.nodes@[id as int].cached_geometry,
    {
        self.nodes[id].cached_geometry
    }
}

/// Updating one node's base bookkeeping (parent, caches) preserves the
/// well-formedness of every node, as long as the updated node itself stays
/// well-formed.
pub proof fn lemma_node_update_wf(t0: Seq<WidgetState>, t1: Seq<WidgetState>, id: int)
    requires
        forall|i: int| 0 <= i < t0.len() ==> node_wf(t0, i),
        t1.len() == t0.len(),
        0 <= id < t0.len(),
        forall|i: int| 0 <= i < t1.len() && i != id ==> t1[i] == t0[i],
        t1[id].kind is ScrollBar <==> t0[id].kind is ScrollBar,
        node_wf(t1, id),
    ensures
        forall|i: int| 0 <= i < t1.len() ==> node_wf(t1, i),
{
    assert forall|i: int| 0 <= i < t1.len() implies node_wf(t1, i) by {
        if i != id {
            assert(node_wf(t0, i));
            assert(kind_wf(t1, i)) by {
                match t1[i].kind {
                    WidgetKind::ScrollPanel(s) => {
                        assert(t1[i] == t0[i]);
                        match s.horizontal {
                            Some(h) => {
                                if h as int != id {
                                    assert(t1[h as int] == t0[h as int]);
                                }
                            },
                            None => {},
                        }
                        match s.vertical {
                            Some(v) => {
                                if v as int != id {
                                    assert(t1[v as int] == t0[v as int]);
                                }
                            },
                            None => {},
                        }
                    },
                    _ => {
                        assert(t1[i] == t0[i]);
                    },
                }
            }
        }
    }
}

} // verus!
