//! Two-phase widget construction: a builder assembles a widget's
//! configuration, and `build` pushes the node into the tree and wires the
//! parent back-references of the children it adopts. Children are always
//! built before their container, so every child index lies strictly below
//! its parent's.

use vstd::prelude::*;
use crate::geometry::{Vec2, Geometry, MAX_DESIRED, TREE_CAP};
use crate::layout::{
    Axis, Growth, HorizontalAlignment, VerticalAlignment, LinearPanelDirection,
    ScrollPanelDirection,
};
use crate::test_widget::TestWidgetState;
use crate::box_panel::BoxPanelState;
use crate::linear_panel::{LinearPanelState, LinearPanelSlot};
use crate::overlay_panel::{OverlayPanelState, OverlayPanelSlot};
use crate::scroll_panel::ScrollPanelState;
use crate::scroll_bar::{ScrollBarWidgetState, ScrollBarHandleSize, SCROLL_DEN};
use crate::window::WindowWidgetState;
use crate::widget::{
    WidgetTree, WidgetState, WidgetKind, WidgetId, tree_wf, node_wf, kind_wf,
};

verus! {

/// Appending a well-formed node keeps every node well-formed.
proof fn lemma_push_node_wf(t0: Seq<WidgetState>, t1: Seq<WidgetState>)
    requires
        forall|i: int| 0 <= i < t0.len() ==> node_wf(t0, i),
        t1.len() == t0.len() + 1,
        forall|m: int| 0 <= m < t0.len() ==> #[trigger] t1[m] == t0[m],
        node_wf(t1, t0.len() as int),
    ensures
        forall|i: int| 0 <= i < t1.len() ==> node_wf(t1, i),
{
    assert forall|i: int| 0 <= i < t1.len() implies node_wf(t1, i) by {
        if i < t0.len() {
            assert(node_wf(t0, i));
            assert(kind_wf(t1, i)) by {
                match t1[i].kind {
                    WidgetKind::ScrollPanel(s) => {
                        assert(t1[i] == t0[i]);
                        match s.horizontal {
                            Some(h) => {
                                assert(t1[h as int] == t0[h as int]);
                            },
                            None => {},
                        }
                        match s.vertical {
                            Some(v) => {
                                assert(t1[v as int] == t0[v as int]);
                            },
                            None => {},
                        }
                    },
                    _ => {
                        assert(t1[i] == t0[i]);
                    },
                }
            }
        }
    }
}

impl WidgetTree {
    /// Pushes a freshly built node whose kind is already well-formed at the
    /// new index.
    fn push_node(&mut self, kind: WidgetKind) -> (id: WidgetId)
        requires
            tree_wf(*old(self)),
            old(self).nodes@.len() < TREE_CAP,
            crate::widget::kind_state_wf(old(self).nodes@, kind, old(self).nodes@.len() as int),
        ensures
            tree_wf(*final(self)),
            id == old(self).nodes@.len(),
            final(self).nodes@.len() == old(self).nodes@.len() + 1,
            forall|m: int| 0 <= m < old(self).nodes@.len()
                ==> #[trigger] final(self).nodes@[m] == old(self).nodes@[m],
            final(self).nodes@[id as int].kind == kind,
            final(self).nodes@[id as int].parent is None,
            final(self).nodes@[id as int].arranged@.len() == 0,
            final(self).nodes@[id as int].cached_geometry == (Geometry {
                local_pos: Vec2 { x: 0, y: 0 },
                local_size: Vec2 { x: 0, y: 0 },
                absolute_pos: Vec2 { x: 0, y: 0 },
                scale: Vec2 { x: 0, y: 0 },
            }),
            final(self).dispatched == old(self).dispatched,
    {
        let id = self.nodes.len();
        let node = WidgetState {
            kind,
            parent: None,
            cached_geometry: Geometry {
                local_pos: Vec2 { x: 0, y: 0 },
                local_size: Vec2 { x: 0, y: 0 },
                absolute_pos: Vec2 { x: 0, y: 0 },
                scale: Vec2 { x: 0, y: 0 },
            },
            arranged: Vec::new(),
        };
        self.nodes.push(node);
        proof {
            assert(node_wf(self.nodes@, id as int)) by {
                assert(kind_wf(self.nodes@, id as int)) by {
                    match self.nodes@[id as int].kind {
                        WidgetKind::ScrollPanel(sp) => {
                            match sp.horizontal {
                                Some(h) => {
                                    assert(self.nodes@[h as int]
                                        == old(self).nodes@[h as int]);
                                },
                                None => {},
                            }
                            match sp.vertical {
                                Some(v) => {
                                    assert(self.nodes@[v as int]
                                        == old(self).nodes@[v as int]);
                                },
                                None => {},
                            }
                        },
                        _ => {},
                    }
                }
            }
            lemma_push_node_wf(old(self).nodes@, self.nodes@);
        }
        id
    }
}

/// Builder for an interactive leaf widget. Defaults: a 10 by 10 desired
/// size, every event class handled, and a consumed click taking focus on
/// keyboard 0.
pub struct TestWidgetBuilder {
    pub state: TestWidgetState,
}

impl TestWidgetBuilder {
    pub fn new() -> (r: TestWidgetBuilder)
        ensures
            r.state.size == (Vec2 { x: 10, y: 10 }),
            r.state.counter == 0,
            r.state.handle_cursor && r.state.handle_buttons && r.state.handle_click
                && r.state.handle_keys,
            r.state.click_focus_keyboards matches Some(Some(l)) && l@ == seq![0usize],
            crate::test_widget::test_widget_wf(r.state),
    {
        let mut keyboards: Vec<usize> = Vec::new();
        keyboards.push(0);
        proof {
            assert(keyboards@ =~= seq![0usize]);
        }
        TestWidgetBuilder {
            state: TestWidgetState {
                size: Vec2 { x: 10, y: 10 },
                name: String::new(),
                counter: 0,
                handle_cursor: true,
                handle_buttons: true,
                handle_click: true,
                handle_keys: true,
                click_focus_keyboards: Some(Some(keyboards)),
            },
        }
    }

    /// Sets the desired size.
    pub fn size(self, size: Vec2) -> (r: TestWidgetBuilder)
        requires
            0 <= size.x <= MAX_DESIRED,
            0 <= size.y <= MAX_DESIRED,
        ensures
            r.state == (TestWidgetState { size, ..self.state }),
    {
        TestWidgetBuilder { state: TestWidgetState { size, ..self.state } }
    }

    /// Sets the widget's name.
    pub fn name(self, name: String) -> (r: TestWidgetBuilder)
        ensures
            r.state == (TestWidgetState { name, ..self.state }),
    {
        TestWidgetBuilder { state: TestWidgetState { name, ..self.state } }
    }

    /// Chooses whether cursor enter/move/leave events are consumed.
    pub fn handle_cursor(self, on: bool) -> (r: TestWidgetBuilder)
        ensures
            r.state == (TestWidgetState { handle_cursor: on, ..self.state }),
    {
        TestWidgetBuilder { state: TestWidgetState { handle_cursor: on, ..self.state } }
    }

    /// Chooses whether button presses and releases are consumed.
    pub fn handle_buttons(self, on: bool) -> (r: TestWidgetBuilder)
        ensures
            r.state == (TestWidgetState { handle_buttons: on, ..self.state }),
    {
        TestWidgetBuilder { state: TestWidgetState { handle_buttons: on, ..self.state } }
    }

    /// Chooses whether clicks are consumed.
    pub fn handle_click(self, on: bool) -> (r: TestWidgetBuilder)
        ensures
            r.state == (TestWidgetState { handle_click: on, ..self.state }),
    {
        TestWidgetBuilder { state: TestWidgetState { handle_click: on, ..self.state } }
    }

    /// Chooses whether key, text and focus events are consumed.
    pub fn handle_keys(self, on: bool) -> (r: TestWidgetBuilder)
        ensures
            r.state == (TestWidgetState { handle_keys: on, ..self.state }),
    {
        TestWidgetBuilder { state: TestWidgetState { handle_keys: on, ..self.state } }
    }

    /// Sets the focus request a consumed click carries: `None` for no
    /// request, `Some(None)` for all keyboards, `Some(Some(ids))` for the
    /// listed keyboards.
    pub fn click_focus_keyboards(self, change: Option<Option<Vec<usize>>>)
        -> (r: TestWidgetBuilder)
        ensures
            r.state == (TestWidgetState { click_focus_keyboards: change, ..self.state }),
    {
        TestWidgetBuilder {
            state: TestWidgetState { click_focus_keyboards: change, ..self.state },
        }
    }

    /// Pushes the leaf into the tree.
    pub fn build(self, tree: &mut WidgetTree) -> (id: WidgetId)
        requires
            tree_wf(*old(tree)),
            old(tree).nodes@.len() < TREE_CAP,
            crate::test_widget::test_widget_wf(self.state),
        ensures
            tree_wf(*final(tree)),
            id == old(tree).nodes@.len(),
            final(tree).nodes@.len() == old(tree).nodes@.len() + 1,
            forall|m: int| 0 <= m < old(tree).nodes@.len()
                ==> #[trigger] final(tree).nodes@[m] == old(tree).nodes@[m],
            final(tree).nodes@[id as int].kind == WidgetKind::TestWidget(self.state),
            final(tree).nodes@[id as int].parent is None,
            final(tree).dispatched == old(tree).dispatched,
    {
        tree.push_node(WidgetKind::TestWidget(self.state))
    }
}

/// Builder for a box panel around one child. Defaults: top-left alignment
/// and no size overrides.
pub struct BoxPanelBuilder {
    pub state: BoxPanelState,
}

impl BoxPanelBuilder {
    pub fn new(child: WidgetId) -> (r: BoxPanelBuilder)
        ensures
            r.state.child == child,
            r.state.v_align == VerticalAlignment::Top,
            r.state.h_align == HorizontalAlignment::Left,
            r.state.override_x is None,
            r.state.override_y is None,
    {
        BoxPanelBuilder {
            state: BoxPanelState {
                child,
                v_align: VerticalAlignment::Top,
                h_align: HorizontalAlignment::Left,
                override_x: None,
                override_y: None,
            },
        }
    }

    pub fn v_align(self, v_align: VerticalAlignment) -> (r: BoxPanelBuilder)
        ensures
            r.state == (BoxPanelState { v_align, ..self.state }),
    {
        BoxPanelBuilder { state: BoxPanelState { v_align, ..self.state } }
    }

    pub fn h_align(self, h_align: HorizontalAlignment) -> (r: BoxPanelBuilder)
        ensures
            r.state == (BoxPanelState { h_align, ..self.state }),
    {
        BoxPanelBuilder { state: BoxPanelState { h_align, ..self.state } }
    }

    /// Overrides the declared width.
    pub fn override_x(self, size_x: i64) -> (r: BoxPanelBuilder)
        requires
            0 <= size_x <= MAX_DESIRED,
        ensures
            r.state == (BoxPanelState { override_x: Some(size_x), ..self.state }),
    {
        BoxPanelBuilder { state: BoxPanelState { override_x: Some(size_x), ..self.state } }
    }

    /// Overrides the declared height.
    pub fn override_y(self, size_y: i64) -> (r: BoxPanelBuilder)
        requires
            0 <= size_y <= MAX_DESIRED,
        ensures
            r.state == (BoxPanelState { override_y: Some(size_y), ..self.state }),
    {
        BoxPanelBuilder { state: BoxPanelState { override_y: Some(size_y), ..self.state } }
    }

    /// Overrides the declared size on both axes.
    pub fn override_size(self, size: Vec2) -> (r: BoxPanelBuilder)
        requires
            0 <= size.x <= MAX_DESIRED,
            0 <= size.y <= MAX_DESIRED,
        ensures
            r.state == (BoxPanelState {
                override_x: Some(size.x),
                override_y: Some(size.y),
                ..self.state
            }),
    {
        BoxPanelBuilder {
            state: BoxPanelState {
                override_x: Some(size.x),
                override_y: Some(size.y),
                ..self.state
            },
        }
    }

    /// Pushes the panel into the tree and adopts the child.
    pub fn build(self, tree: &mut WidgetTree) -> (id: WidgetId)
        requires
            tree_wf(*old(tree)),
            old(tree).nodes@.len() < TREE_CAP,
            self.state.child < old(tree).nodes@.len(),
            match self.state.override_x {
                Some(v) => 0 <= v <= MAX_DESIRED,
                None => true,
            },
            match self.state.override_y {
                Some(v) => 0 <= v <= MAX_DESIRED,
                None => true,
            },
        ensures
            tree_wf(*final(tree)),
            id == old(tree).nodes@.len(),
            final(tree).nodes@.len() == old(tree).nodes@.len() + 1,
            final(tree).nodes@[id as int].kind == WidgetKind::BoxPanel(self.state),
            forall|m: int| 0 <= m < old(tree).nodes@.len() && m != self.state.child
                ==> #[trigger] final(tree).nodes@[m] == old(tree).nodes@[m],
            final(tree).nodes@[self.state.child as int] == (WidgetState {
                parent: Some(id),
                ..old(tree).nodes@[self.state.child as int]
            }),
            final(tree).dispatched == old(tree).dispatched,
    {
        let child = self.state.child;
        let id = tree.push_node(WidgetKind::BoxPanel(self.state));
        tree.set_parent(child, Some(id));
        id
    }
}

/// Builder for a linear panel: children are added in declaration order,
/// each with its growth policy.
pub struct LinearPanelBuilder {
    pub state: LinearPanelState,
}

impl LinearPanelBuilder {
    pub fn new(direction: LinearPanelDirection) -> (r: LinearPanelBuilder)
        ensures
            r.state.direction == direction,
            r.state.children@.len() == 0,
    {
        LinearPanelBuilder {
            state: LinearPanelState { direction, children: Vec::new() },
        }
    }

    /// Adds a child with its growth policy.
    pub fn slot(self, widget: WidgetId, growth: Growth) -> (r: LinearPanelBuilder)
        ensures
            r.state.direction == self.state.direction,
            r.state.children@ == self.state.children@.push(LinearPanelSlot { widget, growth }),
    {
        let mut state = self.state;
        state.children.push(LinearPanelSlot { widget, growth });
        LinearPanelBuilder { state }
    }

    /// Pushes the panel into the tree and adopts every slotted child.
    pub fn build(self, tree: &mut WidgetTree) -> (id: WidgetId)
        requires
            tree_wf(*old(tree)),
            old(tree).nodes@.len() < TREE_CAP,
            self.state.children@.len() <= TREE_CAP,
            forall|j: int| 0 <= j < self.state.children@.len()
                ==> (#[trigger] self.state.children@[j]).widget < old(tree).nodes@.len(),
        ensures
            tree_wf(*final(tree)),
            id == old(tree).nodes@.len(),
            final(tree).nodes@.len() == old(tree).nodes@.len() + 1,
            final(tree).nodes@[id as int].kind matches WidgetKind::LinearPanel(s)
                && s.children@ == self.state.children@
                && s.direction == self.state.direction,
            forall|m: int| 0 <= m < old(tree).nodes@.len()
                ==> (#[trigger] final(tree).nodes@[m]).kind == old(tree).nodes@[m].kind
                    && final(tree).nodes@[m].arranged == old(tree).nodes@[m].arranged,
            final(tree).dispatched == old(tree).dispatched,
    {
        let ghost slots = self.state.children@;
        let mut children_ids: Vec<WidgetId> = Vec::new();
        let mut j: usize = 0;
        while j < self.state.children.len()
            invariant
                0 <= j <= slots.len(),
                slots == self.state.children@,
                forall|m: int| 0 <= m < slots.len()
                    ==> (#[trigger] slots[m]).widget < old(tree).nodes@.len(),
                children_ids@.len() == j,
                forall|m: int| 0 <= m < j
                    ==> (#[trigger] children_ids@[m]) == slots[m].widget,
            decreases slots.len() - j,
        {
            children_ids.push(self.state.children[j].widget);
            j = j + 1;
        }
        let id = tree.push_node(WidgetKind::LinearPanel(self.state));
        adopt_children(tree, &children_ids, id);
        id
    }
}

/// Builder for an overlay panel: children stack bottom-up in the order they
/// are added.
pub struct OverlayPanelBuilder {
    pub state: OverlayPanelState,
}

impl OverlayPanelBuilder {
    pub fn new() -> (r: OverlayPanelBuilder)
        ensures
            r.state.children@.len() == 0,
    {
        OverlayPanelBuilder { state: OverlayPanelState { children: Vec::new() } }
    }

    /// Adds a child on top of the stack so far.
    pub fn slot(self, widget: WidgetId) -> (r: OverlayPanelBuilder)
        ensures
            r.state.children@ == self.state.children@.push(OverlayPanelSlot { widget }),
    {
        let mut state = self.state;
        state.children.push(OverlayPanelSlot { widget });
        OverlayPanelBuilder { state }
    }

    /// Pushes the panel into the tree and adopts every child.
    pub fn build(self, tree: &mut WidgetTree) -> (id: WidgetId)
        requires
            tree_wf(*old(tree)),
            old(tree).nodes@.len() < TREE_CAP,
            self.state.children@.len() <= TREE_CAP,
            forall|j: int| 0 <= j < self.state.children@.len()
                ==> (#[trigger] self.state.children@[j]).widget < old(tree).nodes@.len(),
        ensures
            tree_wf(*final(tree)),
            id == old(tree).nodes@.len(),
            final(tree).nodes@.len() == old(tree).nodes@.len() + 1,
            final(tree).nodes@[id as int].kind matches WidgetKind::OverlayPanel(s)
                && s.children@ == self.state.children@,
            forall|m: int| 0 <= m < old(tree).nodes@.len()
                ==> (#[trigger] final(tree).nodes@[m]).kind == old(tree).nodes@[m].kind
                    && final(tree).nodes@[m].arranged == old(tree).nodes@[m].arranged,
            final(tree).dispatched == old(tree).dispatched,
    {
        let ghost slots = self.state.children@;
        let mut children_ids: Vec<WidgetId> = Vec::new();
        let mut j: usize = 0;
        while j < self.state.children.len()
            invariant
                0 <= j <= slots.len(),
                slots == self.state.children@,
                forall|m: int| 0 <= m < slots.len()
                    ==> (#[trigger] slots[m]).widget < old(tree).nodes@.len(),
                children_ids@.len() == j,
                forall|m: int| 0 <= m < j
                    ==> (#[trigger] children_ids@[m]) == slots[m].widget,
            decreases slots.len() - j,
        {
            children_ids.push(self.state.children[j].widget);
            j = j + 1;
        }
        let id = tree.push_node(WidgetKind::OverlayPanel(self.state));
        adopt_children(tree, &children_ids, id);
        id
    }
}

/// Builder for a scrollbar.
pub struct ScrollBarWidgetBuilder {
    pub state: ScrollBarWidgetState,
}

impl ScrollBarWidgetBuilder {
    /// A vertical scrollbar over the range `[0, 100]` at value zero, with a
    /// handle one tenth of the range.
    pub fn new() -> (r: ScrollBarWidgetBuilder)
        ensures
            crate::scroll_bar::scrollbar_wf(r.state),
            r.state.direction == Axis::Vertical,
            r.state.value == 0,
            r.state.range_start == 0 && r.state.range_end == 100,
            r.state.drag_start is None,
    {
        ScrollBarWidgetBuilder {
            state: ScrollBarWidgetState {
                direction: Axis::Vertical,
                range_start: 0,
                range_end: 100,
                value: 0,
                handle_size: ScrollBarHandleSize::Fraction(SCROLL_DEN / 10),
                drag_start: None,
            },
        }
    }

    /// Chooses the scrollbar's axis.
    pub fn direction(self, direction: Axis) -> (r: ScrollBarWidgetBuilder)
        ensures
            r.state == (ScrollBarWidgetState { direction, ..self.state }),
    {
        ScrollBarWidgetBuilder { state: ScrollBarWidgetState { direction, ..self.state } }
    }

    /// Pushes the scrollbar into the tree.
    pub fn build(self, tree: &mut WidgetTree) -> (id: WidgetId)
        requires
            tree_wf(*old(tree)),
            old(tree).nodes@.len() < TREE_CAP,
            crate::scroll_bar::scrollbar_wf(self.state),
        ensures
            tree_wf(*final(tree)),
            id == old(tree).nodes@.len(),
            final(tree).nodes@.len() == old(tree).nodes@.len() + 1,
            forall|m: int| 0 <= m < old(tree).nodes@.len()
                ==> #[trigger] final(tree).nodes@[m] == old(tree).nodes@[m],
            final(tree).nodes@[id as int].kind == WidgetKind::ScrollBar(self.state),
            final(tree).dispatched == old(tree).dispatched,
    {
        tree.push_node(WidgetKind::ScrollBar(self.state))
    }
}

/// Builder for a scroll panel: a content child plus the scrollbars its
/// direction asks for, which `build` creates alongside the panel.
pub struct ScrollPanelBuilder {
    pub direction: ScrollPanelDirection,
    pub content: Option<WidgetId>,
}

impl ScrollPanelBuilder {
    pub fn new() -> (r: ScrollPanelBuilder)
        ensures
            r.direction == ScrollPanelDirection::Both,
            r.content is None,
    {
        ScrollPanelBuilder { direction: ScrollPanelDirection::Both, content: None }
    }

    /// Chooses which axes scroll.
    pub fn direction(self, direction: ScrollPanelDirection) -> (r: ScrollPanelBuilder)
        ensures
            r.direction == direction,
            r.content == self.content,
    {
        ScrollPanelBuilder { direction, ..self }
    }

    /// Sets the content child.
    pub fn content(self, content: WidgetId) -> (r: ScrollPanelBuilder)
        ensures
            r.direction == self.direction,
            r.content == Some(content),
    {
        ScrollPanelBuilder { content: Some(content), ..self }
    }

    /// Creates the configured scrollbars, then pushes the panel and adopts
    /// the content and the bars.
    pub fn build(self, tree: &mut WidgetTree) -> (id: WidgetId)
        requires
            tree_wf(*old(tree)),
            old(tree).nodes@.len() + 3 <= TREE_CAP,
            match self.content {
                Some(c) => c < old(tree).nodes@.len(),
                None => true,
            },
        ensures
            tree_wf(*final(tree)),
            old(tree).nodes@.len() < id < final(tree).nodes@.len(),
            final(tree).nodes@.len() <= old(tree).nodes@.len() + 3,
            id == final(tree).nodes@.len() - 1,
            final(tree).nodes@[id as int].kind matches WidgetKind::ScrollPanel(s)
                && s.direction == self.direction
                && s.content == self.content
                && (s.horizontal is Some <==> (self.direction == ScrollPanelDirection::Horizontal
                    || self.direction == ScrollPanelDirection::Both))
                && (s.vertical is Some <==> (self.direction == ScrollPanelDirection::Vertical
                    || self.direction == ScrollPanelDirection::Both)),
            forall|m: int| 0 <= m < old(tree).nodes@.len()
                ==> (#[trigger] final(tree).nodes@[m]).kind == old(tree).nodes@[m].kind
                    && final(tree).nodes@[m].arranged == old(tree).nodes@[m].arranged,
            final(tree).dispatched == old(tree).dispatched,
    {
        let vertical: Option<WidgetId> = match self.direction {
            ScrollPanelDirection::Vertical | ScrollPanelDirection::Both => {
                Some(ScrollBarWidgetBuilder::new().direction(Axis::Vertical).build(tree))
            },
            _ => None,
        };
        let horizontal: Option<WidgetId> = match self.direction {
            ScrollPanelDirection::Horizontal | ScrollPanelDirection::Both => {
                Some(ScrollBarWidgetBuilder::new().direction(Axis::Horizontal).build(tree))
            },
            _ => None,
        };
        let state = ScrollPanelState {
            direction: self.direction,
            horizontal,
            vertical,
            content: self.content,
        };
        let id = tree.push_node(WidgetKind::ScrollPanel(state));
        match self.content {
            Some(c) => {
                tree.set_parent(c, Some(id));
            },
            None => {},
        }
        match vertical {
            Some(v) => {
                tree.set_parent(v, Some(id));
            },
            None => {},
        }
        match horizontal {
            Some(h) => {
                tree.set_parent(h, Some(id));
            },
            None => {},
        }
        id
    }
}

/// Builder for a window root widget.
pub struct WindowWidgetBuilder {
    pub state: WindowWidgetState,
}

impl WindowWidgetBuilder {
    pub fn new(content: Option<WidgetId>) -> (r: WindowWidgetBuilder)
        ensures
            r.state.content == content,
            r.state.window_id is None,
    {
        WindowWidgetBuilder { state: WindowWidgetState { window_id: None, content } }
    }

    /// Pushes the window into the tree and adopts the content.
    pub fn build(self, tree: &mut WidgetTree) -> (id: WidgetId)
        requires
            tree_wf(*old(tree)),
            old(tree).nodes@.len() < TREE_CAP,
            match self.state.content {
                Some(c) => c < old(tree).nodes@.len(),
                None => true,
            },
        ensures
            tree_wf(*final(tree)),
            id == old(tree).nodes@.len(),
            final(tree).nodes@.len() == old(tree).nodes@.len() + 1,
            final(tree).nodes@[id as int].kind == WidgetKind::Window(self.state),
            forall|m: int| 0 <= m < old(tree).nodes@.len()
                ==> (#[trigger] final(tree).nodes@[m]).kind == old(tree).nodes@[m].kind
                    && final(tree).nodes@[m].arranged == old(tree).nodes@[m].arranged,
            final(tree).dispatched == old(tree).dispatched,
    {
        let content = self.state.content;
        let id = tree.push_node(WidgetKind::Window(self.state));
        match content {
            Some(c) => {
                tree.set_parent(c, Some(id));
            },
            None => {},
        }
        id
    }
}

/// Wires the parent back-reference of every adopted child to the new
/// container.
fn adopt_children(tree: &mut WidgetTree, children: &Vec<WidgetId>, id: WidgetId)
    requires
        tree_wf(*old(tree)),
        id < old(tree).nodes@.len(),
        forall|j: int| 0 <= j < children@.len()
            ==> (#[trigger] children@[j]) < old(tree).nodes@.len(),
    ensures
        tree_wf(*final(tree)),
        final(tree).nodes@.len() == old(tree).nodes@.len(),
        forall|m: int| 0 <= m < old(tree).nodes@.len()
            ==> (#[trigger] final(tree).nodes@[m]).kind == old(tree).nodes@[m].kind
                && final(tree).nodes@[m].arranged == old(tree).nodes@[m].arranged
                && final(tree).nodes@[m].cached_geometry
                    == old(tree).nodes@[m].cached_geometry,
        final(tree).dispatched == old(tree).dispatched,
{
    let mut j: usize = 0;
    while j < children.len()
        invariant
            tree_wf(*tree),
            tree.nodes@.len() == old(tree).nodes@.len(),
            id < tree.nodes@.len(),
            forall|m: int| 0 <= m < children@.len()
                ==> (#[trigger] children@[m]) < tree.nodes@.len(),
            0 <= j <= children@.len(),
            forall|m: int| 0 <= m < old(tree).nodes@.len()
                ==> (#[trigger] tree.nodes@[m]).kind == old(tree).nodes@[m].kind
                    && tree.nodes@[m].arranged == old(tree).nodes@[m].arranged
                    && tree.nodes@[m].cached_geometry
                        == old(tree).nodes@[m].cached_geometry,
            tree.dispatched == old(tree).dispatched,
        decreases children@.len() - j,
    {
        tree.set_parent(children[j], Some(id));
        j = j + 1;
    }
}

} // verus!
